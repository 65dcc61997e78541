use std::path::{Path, PathBuf};

use repo_mode::actions::WorkspaceAction;
use repo_mode::editors::{Editor, EditorChoice, EditorSettings};
use repo_mode::open_folder::{
    default_open_folder_action, open_current_folder, open_folder_button_tooltip,
    open_folder_menu_items, os_reveal_label, resolve_open_folder_target_from, settled_open_action,
    FolderMenuItem, FolderOpening, OpenFolderAction, OpenFolderState, TargetOs,
};

#[test]
fn test_resolve_open_folder_target_returns_deepest_repo_root_for_cwd_in_known_repo() {
    // When the active tab's cwd is inside a known repo, the target is the
    // deepest-ancestor repo root.
    let repo_roots = [
        PathBuf::from("/work/outer"),
        PathBuf::from("/work/outer/nested"),
    ];
    let deepest_root_for = |path: &str| -> Option<String> {
        Path::new(path)
            .ancestors()
            .find(|ancestor| repo_roots.iter().any(|root| root == ancestor))
            .map(|root| root.to_string_lossy().into_owned())
    };

    // cwd nested under BOTH repos -> the deepest (nested) root wins.
    assert_eq!(
        resolve_open_folder_target_from(
            Some("/work/outer/nested/src".to_string()),
            &deepest_root_for,
        ),
        Some("/work/outer/nested".to_string()),
    );

    // cwd under only the outer repo -> the outer root.
    assert_eq!(
        resolve_open_folder_target_from(Some("/work/outer/docs".to_string()), &deepest_root_for),
        Some("/work/outer".to_string()),
    );
}

#[test]
fn test_resolve_open_folder_target_returns_cwd_when_no_known_repo() {
    // A cwd owned by no known repo -> open the cwd itself.
    let cwd = "/tmp/loose-dir".to_string();
    assert_eq!(
        resolve_open_folder_target_from(Some(cwd.clone()), |_: &str| None),
        Some(cwd),
    );
}

#[test]
fn test_resolve_open_folder_target_returns_none_when_no_local_cwd() {
    // No local cwd: the target is `None` and the repo lookup is never consulted.
    let mut lookup_called = false;
    let target = resolve_open_folder_target_from(None, |_: &str| {
        lookup_called = true;
        Some("/should/not/be/used".to_string())
    });
    assert_eq!(target, None);
    assert!(
        !lookup_called,
        "repo lookup must not run when there is no local cwd"
    );
}

#[test]
fn test_default_open_action_launches_default_ide_when_set() {
    let action = default_open_folder_action(Some(Editor::VSCode));
    assert_eq!(action, OpenFolderAction::LaunchEditor(Editor::VSCode));
    assert_eq!(action.telemetry_target(), Editor::VSCode.display_name());
}

#[test]
fn test_default_open_action_reveals_when_no_default_ide() {
    let action = default_open_folder_action(None);
    assert_eq!(action, OpenFolderAction::Reveal);
    assert_eq!(action.telemetry_target(), "finder");
}

#[test]
fn test_launch_editor_telemetry_target_is_editor_display_name() {
    for editor in [Editor::VSCode, Editor::Cursor, Editor::Zed] {
        let target = OpenFolderAction::LaunchEditor(editor).telemetry_target();
        assert_eq!(target, editor.display_name());
    }
}

#[test]
fn test_reveal_telemetry_target_is_finder() {
    assert_eq!(OpenFolderAction::Reveal.telemetry_target(), "finder");
}

#[test]
fn test_open_folder_telemetry_target_never_contains_a_path() {
    let targets = [
        OpenFolderAction::LaunchEditor(Editor::VSCode).telemetry_target(),
        OpenFolderAction::Reveal.telemetry_target(),
    ];
    for target in targets {
        assert!(
            !target.contains('/') && !target.contains('\\'),
            "telemetry target must not embed a path, got {target:?}",
        );
    }
}

const SYSTEMS: [TargetOs; 3] = [TargetOs::MacOs, TargetOs::Windows, TargetOs::Other];

#[test]
fn test_os_reveal_label_matches_platform() {
    assert_eq!(os_reveal_label(TargetOs::MacOs), "Reveal in Finder");
    assert_eq!(os_reveal_label(TargetOs::Windows), "Reveal in Explorer");
    assert_eq!(os_reveal_label(TargetOs::Other), "Reveal in file manager");
}

#[test]
fn test_tooltip_names_default_ide_when_set() {
    // Default IDE set + local tab -> tooltip names the IDE the primary opens.
    for os in SYSTEMS {
        assert_eq!(
            open_folder_button_tooltip(Some(Editor::VSCode), false, os),
            format!("Open folder in {}", Editor::VSCode.display_name()),
        );
    }
}

#[test]
fn test_tooltip_is_os_reveal_label_when_no_default_ide() {
    // No default IDE -> primary reveals, tooltip reads the OS label.
    for os in SYSTEMS {
        assert_eq!(
            open_folder_button_tooltip(None, false, os),
            os_reveal_label(os).to_string(),
        );
    }
}

#[test]
fn test_tooltip_is_remote_message_when_disabled() {
    // Remote tab -> tooltip explains unavailability, whatever the default editor.
    for os in SYSTEMS {
        assert_eq!(
            open_folder_button_tooltip(None, true, os),
            "Not available for remote sessions",
        );
        assert_eq!(
            open_folder_button_tooltip(Some(Editor::VSCode), true, os),
            "Not available for remote sessions",
        );
    }
}

#[test]
fn test_menu_items_with_zero_installed_ides_is_reveal_only() {
    // With no installed IDEs the menu shows only the Reveal item.
    for os in SYSTEMS {
        let items = open_folder_menu_items(&[], None, os);
        assert_eq!(items.len(), 1, "expected exactly the Reveal item");
        match &items[0] {
            FolderMenuItem::Item { label, action, .. } => {
                assert_eq!(label, os_reveal_label(os));
                assert!(matches!(action, WorkspaceAction::RevealCurrentFolder));
            }
            other => panic!("expected the Reveal item, got {other:?}"),
        }
    }
}

#[test]
fn test_menu_items_lists_installed_ides_then_divider_then_reveal() {
    // One row per installed IDE (opening that specific editor), then a visual
    // separator, then the Reveal entry.
    for os in SYSTEMS {
        let installed = [Editor::VSCode, Editor::Cursor];
        let items = open_folder_menu_items(&installed, Some(Editor::VSCode), os);

        // N IDE rows + 1 separator + 1 Reveal.
        assert_eq!(items.len(), installed.len() + 2);

        for (item, editor) in items.iter().zip(installed.iter()) {
            match item {
                FolderMenuItem::Item {
                    label,
                    action,
                    logo,
                    checked,
                } => {
                    assert_eq!(label, editor.display_name());
                    match action {
                        WorkspaceAction::OpenCurrentFolderIn(action_editor) => {
                            assert_eq!(action_editor, editor);
                        }
                        other => panic!("expected OpenCurrentFolderIn, got {other:?}"),
                    }
                    // Every IDE row carries that IDE's logo.
                    assert_eq!(*logo, Some(*editor));
                    // Only the current default IDE row is check-marked.
                    assert_eq!(*checked, *editor == Editor::VSCode);
                }
                other => panic!("expected an IDE item, got {other:?}"),
            }
        }

        // The separator divides the IDE rows from the Reveal entry.
        assert_eq!(
            items[installed.len()],
            FolderMenuItem::Separator,
            "installed IDEs must be separated from the Reveal entry by a divider",
        );

        // The trailing item reveals the folder.
        match items.last().expect("menu is non-empty") {
            FolderMenuItem::Item { label, action, .. } => {
                assert_eq!(label, os_reveal_label(os));
                assert!(matches!(action, WorkspaceAction::RevealCurrentFolder));
            }
            other => panic!("expected the Reveal item, got {other:?}"),
        }
    }
}

#[test]
fn nothing_is_opened_without_a_local_folder() {
    for action in [
        OpenFolderAction::Reveal,
        OpenFolderAction::LaunchEditor(Editor::Zed),
    ] {
        assert_eq!(
            open_current_folder(None, action),
            FolderOpening::RefreshButton
        );
    }
    assert_eq!(
        open_current_folder(
            Some("/srv".to_string()),
            OpenFolderAction::LaunchEditor(Editor::Zed)
        ),
        FolderOpening::Launch {
            editor: Editor::Zed,
            folder: "/srv".to_string(),
        }
    );
    assert_eq!(
        open_current_folder(Some("/srv".to_string()), OpenFolderAction::Reveal),
        FolderOpening::Reveal {
            folder: "/srv".to_string()
        }
    );
}

/// An editor that could not be launched is recorded as a reveal.
#[test]
fn a_failed_launch_is_recorded_as_a_reveal() {
    let action = OpenFolderAction::LaunchEditor(Editor::VSCode);
    assert_eq!(
        settled_open_action(action, true).telemetry_target(),
        "VS Code"
    );
    assert_eq!(
        settled_open_action(action, false).telemetry_target(),
        "finder"
    );
}

/// The editors are looked for once, and again when the menu opens.
#[test]
fn the_menu_looks_for_editors_anew() {
    let mut settings = EditorSettings::default();
    let mut state = OpenFolderState::new();
    assert!(state.needs_scan(false));
    let target = Some("/srv".to_string());

    let button = state
        .refresh_open_folder_button_state(
            true,
            &target,
            &mut settings,
            vec![Editor::VSCode],
            TargetOs::Other,
        )
        .unwrap();
    assert!(!button.disabled);
    assert_eq!(button.logo, Some(Editor::VSCode));
    assert!(!state.needs_scan(false));
    assert!(state.needs_scan(true));

    // A second refresh does not read the new search.
    let button = state
        .refresh_open_folder_button_state(
            true,
            &None,
            &mut settings,
            vec![Editor::Zed],
            TargetOs::Other,
        )
        .unwrap();
    assert!(button.disabled);
    assert_eq!(button.tooltip, "Not available for remote sessions");
    assert_eq!(button.logo, Some(Editor::VSCode));

    let rows = state
        .toggle_open_folder_menu(&mut settings, vec![Editor::Zed], TargetOs::Other)
        .unwrap();
    // VS Code is gone, so no row is marked and the choice is kept.
    assert_eq!(rows.len(), 3);
    assert!(rows
        .iter()
        .all(|row| !matches!(row, FolderMenuItem::Item { checked: true, .. })));
    assert_eq!(
        *settings.default_folder_editor.value(),
        EditorChoice::ExternalEditor(Editor::VSCode)
    );
    assert_eq!(
        state.toggle_open_folder_menu(&mut settings, vec![], TargetOs::Other),
        None
    );
}

#[test]
fn the_button_is_absent_while_the_feature_is_off() {
    let mut settings = EditorSettings::default();
    let mut state = OpenFolderState::new();
    assert_eq!(
        state.refresh_open_folder_button_state(
            false,
            &Some("/srv".to_string()),
            &mut settings,
            vec![Editor::VSCode],
            TargetOs::MacOs,
        ),
        None
    );
    assert!(state.needs_scan(false));
    assert!(!settings.default_folder_editor.is_value_explicitly_set());
}
