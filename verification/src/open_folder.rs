//! The toolbar button that opens the active tab's folder in an editor.
use vstd::prelude::*;
use crate::actions;
use crate::actions::WorkspaceAction;
use crate::editors;
use crate::editors::{resolve_default_folder_editor_with_installed, Editor, EditorSettings};
use crate::text;

verus! {

broadcast use vstd::string::group_string_axioms;

/// The folder to open: the root of the repository that owns the working
/// directory, else the working directory itself. `cwd` is `None` for a remote
/// session and for a directory that is gone, and then there is nothing to open
/// and the lookup is not made.
pub fn resolve_open_folder_target_from<F: FnOnce(&str) -> Option<String>>(
    cwd: Option<String>,
    repo_root_for_cwd: F,
) -> (target: Option<String>)
    requires
        forall|path: &str| #[trigger] repo_root_for_cwd.requires((path,)),
    ensures
        cwd is None ==> target is None,
        cwd matches Some(directory) ==> exists|path: &str, root: Option<String>|
            path@ == directory@ && #[trigger] repo_root_for_cwd.ensures((path,), root)
                && text::text_view(target) == (match root {
                Some(found) => Some(found@),
                None => Some(directory@),
            }),
{
    match cwd {
        Some(directory) => match repo_root_for_cwd(directory.as_str()) {
            Some(root) => Some(root),
            None => Some(directory),
        },
        None => None,
    }
}

/// What opening the current folder comes to.
#[derive(Clone, Copy, Debug, PartialEq, Eq, Structural)]
pub enum OpenFolderAction {
    /// Open the folder in this editor.
    LaunchEditor(Editor),
    /// Reveal the folder in the system's file manager.
    Reveal,
}

impl OpenFolderAction {
    /// The name recorded for where the folder was opened.
    pub open spec fn target_text(self) -> Seq<char> {
        match self {
            OpenFolderAction::LaunchEditor(editor) => editor.name_text(),
            OpenFolderAction::Reveal => "finder"@,
        }
    }

    /// The name recorded for where the folder was opened: the editor's, or
    /// `finder`. It never holds the folder.
    pub fn telemetry_target(&self) -> (target: String)
        ensures
            target@ == self.target_text(),
    {
        match self {
            OpenFolderAction::LaunchEditor(editor) => editor.display_name().to_owned(),
            OpenFolderAction::Reveal => "finder".to_owned(),
        }
    }
}

/// What is recorded holds no path: neither kind of slash occurs in it.
pub proof fn telemetry_names_no_path(action: OpenFolderAction)
    ensures
        !action.target_text().contains('/'),
        !action.target_text().contains('\\'),
{
    reveal_strlit("finder");
    reveal_strlit("VS Code");
    reveal_strlit("VS Code Insiders");
    reveal_strlit("Cursor");
    reveal_strlit("Windsurf");
    reveal_strlit("Zed");
    reveal_strlit("Sublime Text");
    reveal_strlit("IntelliJ");
}

/// What a click on the button does: the default editor opens the folder, or the
/// file manager shows it when there is none.
pub fn default_open_folder_action(default_editor: Option<Editor>) -> (action: OpenFolderAction)
    ensures
        action == (match default_editor {
            Some(editor) => OpenFolderAction::LaunchEditor(editor),
            None => OpenFolderAction::Reveal,
        }),
{
    match default_editor {
        Some(editor) => OpenFolderAction::LaunchEditor(editor),
        None => OpenFolderAction::Reveal,
    }
}

/// The system whose file manager reveals folders.
#[derive(Clone, Copy, Debug, PartialEq, Eq, Structural)]
pub enum TargetOs {
    MacOs,
    Windows,
    Other,
}

/// The words for revealing a folder.
pub open spec fn reveal_text(os: TargetOs) -> Seq<char> {
    match os {
        TargetOs::MacOs => "Reveal in Finder"@,
        TargetOs::Windows => "Reveal in Explorer"@,
        TargetOs::Other => "Reveal in file manager"@,
    }
}

/// The words for revealing a folder, by the name the system's file manager has.
pub fn os_reveal_label(os: TargetOs) -> (label: &'static str)
    ensures
        label@ == reveal_text(os),
{
    match os {
        TargetOs::MacOs => "Reveal in Finder",
        TargetOs::Windows => "Reveal in Explorer",
        TargetOs::Other => "Reveal in file manager",
    }
}

/// The tooltip of the button.
pub open spec fn tooltip_text(default_editor: Option<Editor>, is_remote: bool, os: TargetOs) -> Seq<
    char,
> {
    if is_remote {
        "Not available for remote sessions"@
    } else {
        match default_editor {
            Some(editor) => "Open folder in "@ + editor.name_text(),
            None => reveal_text(os),
        }
    }
}

/// The tooltip of the button: why it is disabled, or what a click does.
pub fn open_folder_button_tooltip(default_editor: Option<Editor>, is_remote: bool, os: TargetOs)
    -> (tooltip: String)
    ensures
        tooltip@ == tooltip_text(default_editor, is_remote, os),
{
    if is_remote {
        return "Not available for remote sessions".to_owned();
    }
    match default_editor {
        Some(editor) => {
            let mut tooltip = "Open folder in ".to_owned();
            tooltip.append(editor.display_name());
            tooltip
        },
        None => os_reveal_label(os).to_owned(),
    }
}

/// A row of the menu, as mathematical values.
pub enum FolderMenuItemView {
    Item { label: Seq<char>, action: actions::ActionView, logo: Option<Editor>, checked: bool },
    Separator,
}

/// A row of the menu.
#[derive(Debug, PartialEq, Eq)]
pub enum FolderMenuItem {
    Item {
        label: String,
        action: WorkspaceAction,
        /// The editor whose logo the row shows.
        logo: Option<Editor>,
        /// Marked as the default.
        checked: bool,
    },
    Separator,
}

impl View for FolderMenuItem {
    type V = FolderMenuItemView;

    open spec fn view(&self) -> FolderMenuItemView {
        match *self {
            FolderMenuItem::Item { label, action, logo, checked } => FolderMenuItemView::Item {
                label: label@,
                action: action@,
                logo,
                checked,
            },
            FolderMenuItem::Separator => FolderMenuItemView::Separator,
        }
    }
}

/// Rows as mathematical values.
pub open spec fn items_view(items: Seq<FolderMenuItem>) -> Seq<FolderMenuItemView> {
    items.map_values(|item: FolderMenuItem| item@)
}

/// The row of an installed editor.
pub open spec fn editor_item(editor: Editor, default_editor: Option<Editor>) -> FolderMenuItemView {
    FolderMenuItemView::Item {
        label: editor.name_text(),
        action: actions::ActionView::OpenCurrentFolderIn(editor),
        logo: Some(editor),
        checked: default_editor == Some(editor),
    }
}

/// The rows of the menu.
pub open spec fn folder_menu(
    installed: Seq<Editor>,
    default_editor: Option<Editor>,
    os: TargetOs,
) -> Seq<FolderMenuItemView> {
    let reveal = FolderMenuItemView::Item {
        label: reveal_text(os),
        action: actions::ActionView::RevealCurrentFolder,
        logo: None,
        checked: false,
    };
    let rows = installed.map_values(|editor: Editor| editor_item(editor, default_editor));
    if installed.len() > 0 {
        rows.push(FolderMenuItemView::Separator).push(reveal)
    } else {
        seq![reveal]
    }
}

/// The rows of the menu: one per installed editor, which opens the folder there
/// once and leaves the default alone, with the default marked; then, behind a
/// separator, the file manager. With no editor installed only the file manager
/// is left.
pub fn open_folder_menu_items(
    installed_editors: &[Editor],
    default_editor: Option<Editor>,
    os: TargetOs,
) -> (items: Vec<FolderMenuItem>)
    ensures
        items_view(items@) == folder_menu(installed_editors@, default_editor, os),
{
    let mut items: Vec<FolderMenuItem> = Vec::new();
    let mut i: usize = 0;
    while i < installed_editors.len()
        invariant
            i <= installed_editors@.len(),
            items@.len() == i,
            forall|j: int|
                0 <= j < i ==> (#[trigger] items@[j])@ == editor_item(
                    installed_editors@[j],
                    default_editor,
                ),
        decreases installed_editors@.len() - i,
    {
        let editor = installed_editors[i];
        let checked = match default_editor {
            Some(default) => default == editor,
            None => false,
        };
        items.push(
            FolderMenuItem::Item {
                label: editor.display_name().to_owned(),
                action: WorkspaceAction::OpenCurrentFolderIn(editor),
                logo: Some(editor),
                checked,
            },
        );
        i += 1;
    }
    if items.len() > 0 {
        items.push(FolderMenuItem::Separator);
    }
    items.push(
        FolderMenuItem::Item {
            label: os_reveal_label(os).to_owned(),
            action: WorkspaceAction::RevealCurrentFolder,
            logo: None,
            checked: false,
        },
    );
    assert(items_view(items@) =~= folder_menu(installed_editors@, default_editor, os));
    items
}

/// What is to be done to open a folder.
#[derive(Debug, PartialEq, Eq)]
pub enum FolderOpening {
    /// The session has no local folder: the button is brought up to date, and
    /// nothing is opened or recorded.
    RefreshButton,
    /// Open the folder in the editor.
    Launch { editor: Editor, folder: String },
    /// Reveal the folder in the file manager.
    Reveal { folder: String },
}

/// What is to be done for `action` on the folder `target`.
pub fn open_current_folder(target: Option<String>, action: OpenFolderAction) -> (opening:
    FolderOpening)
    ensures
        opening == (match target {
            Some(folder) => match action {
                OpenFolderAction::LaunchEditor(editor) => FolderOpening::Launch { editor, folder },
                OpenFolderAction::Reveal => FolderOpening::Reveal { folder },
            },
            None => FolderOpening::RefreshButton,
        }),
{
    match target {
        Some(folder) => match action {
            OpenFolderAction::LaunchEditor(editor) => FolderOpening::Launch { editor, folder },
            OpenFolderAction::Reveal => FolderOpening::Reveal { folder },
        },
        None => FolderOpening::RefreshButton,
    }
}

/// What really became of an action, which is what is recorded: an editor that
/// could not be launched leaves the folder to the file manager.
pub fn settled_open_action(action: OpenFolderAction, launched: bool) -> (happened: OpenFolderAction)
    ensures
        happened == (if launched {
            action
        } else {
            OpenFolderAction::Reveal
        }),
{
    if launched {
        action
    } else {
        OpenFolderAction::Reveal
    }
}

/// The button, as mathematical values.
pub struct ButtonView {
    pub disabled: bool,
    pub tooltip: Seq<char>,
    pub logo: Option<Editor>,
}

/// The button as it is drawn.
#[derive(Debug, PartialEq, Eq)]
pub struct OpenFolderButton {
    pub disabled: bool,
    pub tooltip: String,
    /// The editor whose logo the button shows; a plain icon when there is none.
    pub logo: Option<Editor>,
}

impl View for OpenFolderButton {
    type V = ButtonView;

    open spec fn view(&self) -> ButtonView {
        ButtonView { disabled: self.disabled, tooltip: self.tooltip@, logo: self.logo }
    }
}

/// The menu and the editors found, as mathematical values.
pub struct OpenFolderView {
    pub menu_open: bool,
    pub found: Option<Seq<Editor>>,
}

/// The button's menu, and the editors that were found on this machine.
#[derive(Debug)]
pub struct OpenFolderState {
    pub menu_open: bool,
    /// What the last search found; searching asks the system about every editor
    /// there is, so it is done once and again only when the user looks.
    pub installed_editors_cache: Option<Vec<Editor>>,
}

impl View for OpenFolderState {
    type V = OpenFolderView;

    open spec fn view(&self) -> OpenFolderView {
        OpenFolderView {
            menu_open: self.menu_open,
            found: match self.installed_editors_cache {
                Some(editors) => Some(editors@),
                None => None,
            },
        }
    }
}

fn copy_editors(editors: &Vec<Editor>) -> (copy: Vec<Editor>)
    ensures
        copy@ == editors@,
{
    let mut copy: Vec<Editor> = Vec::new();
    let mut i: usize = 0;
    while i < editors.len()
        invariant
            i <= editors@.len(),
            copy@ == editors@.take(i as int),
        decreases editors@.len() - i,
    {
        copy.push(editors[i]);
        i += 1;
        assert(copy@ =~= editors@.take(i as int));
    }
    assert(editors@.take(i as int) =~= editors@);
    copy
}

impl OpenFolderView {
    /// The editors found, where `scanned` is what a new search finds.
    pub open spec fn installed(self, rescan: bool, scanned: Seq<Editor>) -> Seq<Editor> {
        match self.found {
            Some(editors) if !rescan => editors,
            _ => scanned,
        }
    }
}

/// The button drawn for the folder `target`.
pub open spec fn drawn_button(
    settings: EditorSettings,
    installed: Seq<Editor>,
    is_remote: bool,
    os: TargetOs,
) -> ButtonView {
    let default_editor = editors::folder_editor(settings, installed);
    ButtonView {
        disabled: is_remote,
        tooltip: tooltip_text(default_editor, is_remote, os),
        logo: default_editor,
    }
}

impl OpenFolderState {
    /// A closed menu, and nothing looked for yet.
    pub fn new() -> (state: Self)
        ensures
            state@ == (OpenFolderView { menu_open: false, found: None }),
    {
        OpenFolderState { menu_open: false, installed_editors_cache: None }
    }

    /// Whether the editors have to be looked for.
    pub fn needs_scan(&self, rescan: bool) -> (needed: bool)
        ensures
            needed == (rescan || self@.found is None),
    {
        rescan || self.installed_editors_cache.is_none()
    }

    /// The editors found. `scanned` is what a new search found, and is not read
    /// when [`Self::needs_scan`] says that none is needed.
    pub fn installed_editors_cached(&mut self, rescan: bool, scanned: Vec<Editor>) -> (installed:
        Vec<Editor>)
        ensures
            installed@ == old(self)@.installed(rescan, scanned@),
            final(self)@ == (OpenFolderView { found: Some(installed@), ..old(self)@ }),
    {
        if !rescan {
            if let Some(known) = &self.installed_editors_cache {
                return copy_editors(known);
            }
        }
        let installed = copy_editors(&scanned);
        self.installed_editors_cache = Some(scanned);
        installed
    }

    /// The button for the active tab, whose folder is `target`: disabled with the
    /// reason when there is none, else named after the editor a click opens.
    /// `None` while the feature is off, and then no editor is looked for.
    pub fn refresh_open_folder_button_state(
        &mut self,
        enabled: bool,
        target: &Option<String>,
        settings: &mut EditorSettings,
        scanned: Vec<Editor>,
        os: TargetOs,
    ) -> (button: Option<OpenFolderButton>)
        ensures
            !enabled ==> button is None && final(self)@ == old(self)@ && *final(settings)
                == *old(settings),
            enabled ==> {
                let installed = old(self)@.installed(false, scanned@);
                &&& button is Some
                &&& button->0@ == drawn_button(*old(settings), installed, *target is None, os)
                &&& final(self)@ == (OpenFolderView { found: Some(installed), ..old(self)@ })
                &&& *final(settings) == editors::settled(*old(settings), installed)
            },
    {
        if !enabled {
            return None;
        }
        let is_remote = target.is_none();
        let installed = self.installed_editors_cached(false, scanned);
        let default_editor = resolve_default_folder_editor_with_installed(
            settings,
            installed.as_slice(),
        );
        Some(
            OpenFolderButton {
                disabled: is_remote,
                tooltip: open_folder_button_tooltip(default_editor, is_remote, os),
                logo: default_editor,
            },
        )
    }

    /// Open or close the menu; its rows when it opens. Opening looks for the
    /// editors anew: `scanned` is what was found.
    pub fn toggle_open_folder_menu(
        &mut self,
        settings: &mut EditorSettings,
        scanned: Vec<Editor>,
        os: TargetOs,
    ) -> (items: Option<Vec<FolderMenuItem>>)
        ensures
            old(self)@.menu_open ==> items is None && final(self)@ == (OpenFolderView {
                menu_open: false,
                ..old(self)@
            }) && *final(settings) == *old(settings),
            !old(self)@.menu_open ==> {
                &&& items is Some
                &&& items_view(items->0@) == folder_menu(
                    scanned@,
                    editors::folder_editor(*old(settings), scanned@),
                    os,
                )
                &&& final(self)@ == (OpenFolderView { menu_open: true, found: Some(scanned@) })
                &&& *final(settings) == editors::settled(*old(settings), scanned@)
            },
    {
        if self.menu_open {
            self.menu_open = false;
            return None;
        }
        self.menu_open = true;
        let installed = self.installed_editors_cached(true, scanned);
        let default_editor = resolve_default_folder_editor_with_installed(
            settings,
            installed.as_slice(),
        );
        Some(open_folder_menu_items(installed.as_slice(), default_editor, os))
    }
}

/// With the feature on, a session that has no local folder gets a disabled
/// button that says so, whatever the settings are; any other gets a live one.
pub proof fn button_tells_remote_sessions(
    settings: EditorSettings,
    installed: Seq<Editor>,
    os: TargetOs,
)
    ensures
        drawn_button(settings, installed, true, os).disabled,
        drawn_button(settings, installed, true, os).tooltip == "Not available for remote sessions"@,
        !drawn_button(settings, installed, false, os).disabled,
{
}

/// The menu marks the default editor and no other row, and offers exactly the
/// editors that are installed.
pub proof fn menu_marks_only_the_default(
    installed: Seq<Editor>,
    default_editor: Option<Editor>,
    os: TargetOs,
    at: int,
)
    requires
        0 <= at < folder_menu(installed, default_editor, os).len(),
    ensures
        at < installed.len() ==> folder_menu(installed, default_editor, os)[at] == editor_item(
            installed[at],
            default_editor,
        ),
        at >= installed.len() ==> (folder_menu(installed, default_editor, os)[at] matches FolderMenuItemView::Item { checked, .. } ==> !checked),
{
}

/// The menu lists the installed editors in their order, each by its name and
/// opening the folder in it, and below them, set apart, what reveals the folder.
pub proof fn menu_lists_the_installed_editors(
    installed: Seq<Editor>,
    default_editor: Option<Editor>,
    os: TargetOs,
    at: int,
)
    ensures
        ({
            let menu = folder_menu(installed, default_editor, os);
            &&& menu.len() == (if installed.len() > 0 {
                installed.len() + 2
            } else {
                1
            })
            &&& 0 <= at < installed.len() ==> menu[at] == (FolderMenuItemView::Item {
                label: installed[at].name_text(),
                action: actions::ActionView::OpenCurrentFolderIn(installed[at]),
                logo: Some(installed[at]),
                checked: default_editor == Some(installed[at]),
            })
            &&& installed.len() > 0 ==> menu[menu.len() - 2] is Separator
            &&& menu.last() == (FolderMenuItemView::Item {
                label: match os {
                    TargetOs::MacOs => "Reveal in Finder"@,
                    TargetOs::Windows => "Reveal in Explorer"@,
                    TargetOs::Other => "Reveal in file manager"@,
                },
                action: actions::ActionView::RevealCurrentFolder,
                logo: None,
                checked: false,
            })
        }),
{
}

/// The button says what it does: open the folder in the default editor, reveal
/// it where there is none, and nothing in a remote session.
pub proof fn button_says_what_it_does(
    settings: EditorSettings,
    installed: Seq<Editor>,
    is_remote: bool,
    os: TargetOs,
)
    ensures
        ({
            let button = drawn_button(settings, installed, is_remote, os);
            let default_editor = editors::folder_editor(settings, installed);
            &&& button.disabled == is_remote
            &&& button.logo == default_editor
            &&& !is_remote && default_editor is Some ==> button.tooltip == "Open folder in "@
                + default_editor->0.name_text()
            &&& !is_remote && default_editor is None ==> button.tooltip == (match os {
                TargetOs::MacOs => "Reveal in Finder"@,
                TargetOs::Windows => "Reveal in Explorer"@,
                TargetOs::Other => "Reveal in file manager"@,
            })
        }),
{
}

/// The editors that were found once are used until they are looked for again.
pub proof fn found_editors_are_remembered(
    state: OpenFolderView,
    scanned: Seq<Editor>,
    rescan: bool,
)
    ensures
        state.found is Some && !rescan ==> state.installed(rescan, scanned) == state.found->0,
        state.found is None || rescan ==> state.installed(rescan, scanned) == scanned,
{
}

} // verus!
