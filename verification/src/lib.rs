//! Core rules of repo mode.
pub mod text;
pub mod percent;
pub mod entry;
pub mod probe;
pub mod order;
pub mod keys;
pub mod paths;
pub mod rows;
pub mod stamps;
pub mod projects;
pub mod sessions;
pub mod tabs;
pub mod listing;
pub mod remote_form;
pub mod workspace;
pub mod actions;
pub mod loose;
pub mod labels;
pub mod sidebar_state;
pub mod badges;
pub mod sidebar;
pub mod editors;
pub mod open_folder;
pub mod editor_page;
pub mod launch;
pub mod desktop_exec;
pub mod prompts;
