use repo_mode::editor_page::{
    handle_action, render_page, ExternalEditorAction, ExternalEditorView, PageControl, PageEffect,
    PageFeatures,
};
use repo_mode::editors::{
    resolve_default_folder_editor_with_installed, seed_default_folder_editor, DefaultFolderEditor,
    Editor, EditorChoice, EditorLayout, EditorSettings, OpenConversationLayoutPreference,
    OpenConversationPreference, OpenFileEditor, StoredEditorChoice, SyncToCloud,
};

/// Unset + the user's file editor is already an installed IDE: the folder
/// default seeds to that same IDE.
#[test]
fn seed_uses_file_editor_when_it_is_an_installed_external_editor() {
    let seed = seed_default_folder_editor(
        EditorChoice::ExternalEditor(Editor::VSCode),
        &[Editor::Zed, Editor::VSCode],
    );
    assert_eq!(seed, Some(Editor::VSCode));
}

/// Unset + the file editor is an IDE that is not installed: the first installed
/// IDE instead.
#[test]
fn seed_skips_uninstalled_file_editor() {
    let seed =
        seed_default_folder_editor(EditorChoice::ExternalEditor(Editor::VSCode), &[Editor::Zed]);
    assert_eq!(seed, Some(Editor::Zed));
}

/// Unset + the file editor is an uninstalled IDE and nothing else is installed.
#[test]
fn seed_is_none_when_file_editor_uninstalled_and_nothing_installed() {
    let seed = seed_default_folder_editor(EditorChoice::ExternalEditor(Editor::VSCode), &[]);
    assert_eq!(seed, None);
}

/// Unset + the file editor is a non-IDE choice: the first installed IDE.
#[test]
fn seed_falls_back_to_first_installed_editor_for_non_ide_file_editor() {
    for choice in [
        EditorChoice::Warp,
        EditorChoice::SystemDefault,
        EditorChoice::EnvEditor,
    ] {
        let seed = seed_default_folder_editor(choice, &[Editor::Zed, Editor::VSCode]);
        assert_eq!(
            seed,
            Some(Editor::Zed),
            "{choice:?} should seed to the first installed IDE"
        );
    }
}

/// Unset + no IDE installed stays unset.
#[test]
fn seed_is_none_when_no_editor_installed() {
    let seed = seed_default_folder_editor(EditorChoice::Warp, &[]);
    assert_eq!(seed, None);
}

/// The setting round-trips an IDE (write it, read it back).
#[test]
fn default_folder_editor_setting_round_trips_an_ide() {
    let setting = DefaultFolderEditor::new(Some(EditorChoice::ExternalEditor(Editor::VSCode)));
    assert_eq!(
        *setting.value(),
        EditorChoice::ExternalEditor(Editor::VSCode)
    );
    assert!(setting.is_value_explicitly_set());
}

/// The setting is local-only, mirroring `open_file_editor`.
#[test]
fn default_folder_editor_is_local_only_like_open_file_editor() {
    assert_eq!(DefaultFolderEditor::sync_to_cloud(), SyncToCloud::Never);
    assert_eq!(OpenFileEditor::sync_to_cloud(), SyncToCloud::Never);
    assert_eq!(
        DefaultFolderEditor::default_value(),
        EditorChoice::SystemDefault
    );
    assert_eq!(
        DefaultFolderEditor::toml_path(),
        Some("code.editor.default_folder_editor")
    );
}

/// A freshly-constructed (unset) setting is not explicitly set.
#[test]
fn unset_default_folder_editor_is_not_explicitly_set() {
    let setting = DefaultFolderEditor::new(None);
    assert!(!setting.is_value_explicitly_set());
}

/// Writes `default_folder_editor` the way the settings dropdown does.
fn choose_folder_editor(choice: EditorChoice, settings: &mut EditorSettings) {
    settings.default_folder_editor.set_value(choice);
}

/// Reads back what is persisted, without going through the resolver.
fn persisted_folder_editor(settings: &EditorSettings) -> (bool, EditorChoice) {
    (
        settings.default_folder_editor.is_value_explicitly_set(),
        *settings.default_folder_editor.value(),
    )
}

/// An explicitly chosen editor resolves to itself while it is installed.
#[test]
fn a_chosen_editor_that_is_installed_resolves_to_itself() {
    let mut settings = EditorSettings::default();
    choose_folder_editor(EditorChoice::ExternalEditor(Editor::VSCode), &mut settings);
    let resolved = resolve_default_folder_editor_with_installed(
        &mut settings,
        &[Editor::VSCode, Editor::Sublime3],
    );

    assert_eq!(resolved, Some(Editor::VSCode));
}

/// The user chose an IDE and then uninstalled it: the folder is revealed in the
/// file manager, not opened in another IDE.
#[test]
fn a_chosen_editor_that_is_gone_reveals_rather_than_substituting_another() {
    let mut settings = EditorSettings::default();
    choose_folder_editor(EditorChoice::ExternalEditor(Editor::VSCode), &mut settings);
    // VS Code is no longer among the installed editors.
    let resolved =
        resolve_default_folder_editor_with_installed(&mut settings, &[Editor::Sublime3]);

    assert_eq!(resolved, None);
}

/// Every non-IDE choice resolves to no editor, including with IDEs installed.
#[test]
fn opting_out_of_an_ide_resolves_to_no_editor() {
    for choice in [
        EditorChoice::SystemDefault,
        EditorChoice::Warp,
        EditorChoice::EnvEditor,
    ] {
        let mut settings = EditorSettings::default();
        choose_folder_editor(choice, &mut settings);
        let resolved = resolve_default_folder_editor_with_installed(
            &mut settings,
            &[Editor::VSCode, Editor::Sublime3],
        );

        assert_eq!(resolved, None, "{choice:?} should resolve to no editor");
    }
}

/// With nothing chosen, the first resolve suggests an editor and writes it down.
#[test]
fn the_first_resolve_persists_its_suggestion() {
    let mut settings = EditorSettings::default();
    assert!(
        !persisted_folder_editor(&settings).0,
        "the setting starts unset"
    );
    let resolved = resolve_default_folder_editor_with_installed(
        &mut settings,
        &[Editor::Sublime3, Editor::VSCode],
    );
    let persisted = persisted_folder_editor(&settings);

    assert_eq!(resolved, Some(Editor::Sublime3));
    assert_eq!(
        persisted,
        (true, EditorChoice::ExternalEditor(Editor::Sublime3))
    );
}

/// Installing an editor that sorts ahead of the seeded one does not change an
/// already-decided default.
#[test]
fn installing_a_higher_priority_editor_does_not_change_the_default() {
    let mut settings = EditorSettings::default();
    let before = resolve_default_folder_editor_with_installed(&mut settings, &[Editor::VSCode]);
    // Sublime sorts ahead of VS Code here, so an unpersisted seed would switch.
    let after = resolve_default_folder_editor_with_installed(
        &mut settings,
        &[Editor::Sublime3, Editor::VSCode],
    );

    assert_eq!(before, Some(Editor::VSCode));
    assert_eq!(after, Some(Editor::VSCode));
}

/// With no editor installed nothing is written down, so the first editor the
/// user installs can still seed the default.
#[test]
fn nothing_is_persisted_when_no_editor_is_installed() {
    let mut settings = EditorSettings::default();
    let resolved = resolve_default_folder_editor_with_installed(&mut settings, &[]);
    let persisted = persisted_folder_editor(&settings);

    assert_eq!(resolved, None);
    assert_eq!(persisted, (false, EditorChoice::SystemDefault));
}

/// The default-folder-editor dropdown lists the opt-out row and then the
/// installed editors, in order.
#[test]
fn folder_editor_dropdown_lists_the_opt_out_row_then_installed_editors() {
    let items = ExternalEditorView::folder_editor_dropdown_items(&[Editor::VSCode, Editor::Zed]);
    assert_eq!(
        items,
        vec![
            (
                ExternalEditorView::no_folder_editor_label(),
                EditorChoice::SystemDefault
            ),
            (
                Editor::VSCode.display_name().to_string(),
                EditorChoice::ExternalEditor(Editor::VSCode)
            ),
            (
                Editor::Zed.display_name().to_string(),
                EditorChoice::ExternalEditor(Editor::Zed)
            ),
        ]
    );
}

/// With nothing installed, the opt-out row is still there.
#[test]
fn folder_editor_dropdown_still_offers_the_opt_out_row_when_no_editor_installed() {
    let items = ExternalEditorView::folder_editor_dropdown_items(&[]);
    assert_eq!(
        items,
        vec![(
            ExternalEditorView::no_folder_editor_label(),
            EditorChoice::SystemDefault
        )]
    );
}

/// The open-file dropdowns build from a supplied installed-editor list, which
/// is what lets the page detect once and share the answer.
#[test]
fn the_editor_dropdown_builds_from_the_supplied_list() {
    for env_editor in [false, true] {
        let items =
            ExternalEditorView::editor_dropdown_items(&[Editor::VSCode, Editor::Zed], env_editor);

        // The fixed entries lead, then the installed editors in the given order.
        assert_eq!(
            items.first(),
            Some(&(
                ExternalEditorView::DEFAULT_OPTION_TEXT.to_string(),
                EditorChoice::SystemDefault
            ))
        );
        assert!(items.contains(&("Warp".to_string(), EditorChoice::Warp)));
        assert_eq!(
            items[items.len() - 2..],
            [
                (
                    Editor::VSCode.display_name().to_string(),
                    EditorChoice::ExternalEditor(Editor::VSCode)
                ),
                (
                    Editor::Zed.display_name().to_string(),
                    EditorChoice::ExternalEditor(Editor::Zed)
                ),
            ]
        );
        assert_eq!(
            items.contains(&("$EDITOR".to_string(), EditorChoice::EnvEditor)),
            env_editor
        );
    }
}

/// An empty list yields only the fixed entries.
#[test]
fn the_editor_dropdown_offers_no_editor_when_none_is_installed() {
    let items = ExternalEditorView::editor_dropdown_items(&[], true);

    assert!(
        !items
            .iter()
            .any(|(_, choice)| matches!(choice, EditorChoice::ExternalEditor(_))),
        "an editor appeared that the shared scan never reported: {items:?}"
    );
}

/// A value stored as a bare editor reads as that editor.
#[test]
fn stored_choices_of_both_shapes_are_read() {
    assert_eq!(
        StoredEditorChoice::Legacy(Some(Editor::Zed)).read(),
        EditorChoice::ExternalEditor(Editor::Zed)
    );
    assert_eq!(
        StoredEditorChoice::Legacy(None).read(),
        EditorChoice::SystemDefault
    );
    assert_eq!(
        StoredEditorChoice::Current(EditorChoice::Warp).read(),
        EditorChoice::Warp
    );
}

const ALL_FEATURES: PageFeatures = PageFeatures {
    open_folder_in_ide: true,
    tabbed_editor_view: true,
    file_links_in_env_editor: true,
};

/// The dropdown for folders shows the opt-out row while no editor opens them.
#[test]
fn the_page_shows_what_folders_open_in() {
    let mut settings = EditorSettings::default();
    choose_folder_editor(EditorChoice::SystemDefault, &mut settings);
    let mut page = ExternalEditorView::new(&mut settings, &[Editor::Zed], ALL_FEATURES);
    assert_eq!(
        page.folder_editor_dropdown.selected,
        Some(ExternalEditorView::no_folder_editor_label())
    );

    let effect = handle_action(
        &mut settings,
        ExternalEditorAction::SetDefaultFolderEditor(EditorChoice::ExternalEditor(Editor::Zed)),
    );
    assert!(matches!(
        effect,
        PageEffect::Report {
            action: "SetDefaultFolderEditor",
            ..
        }
    ));
    page.on_settings_changed(&mut settings, &[Editor::Zed], ALL_FEATURES);
    assert_eq!(
        page.folder_editor_dropdown.selected,
        Some(Editor::Zed.display_name().to_string())
    );
    assert_eq!(
        resolve_default_folder_editor_with_installed(&mut settings, &[Editor::VSCode, Editor::Zed]),
        Some(Editor::Zed)
    );
}

/// While folders do not open in editors, the page neither lists editors for them
/// nor writes a default down.
#[test]
fn the_page_leaves_folders_alone_while_the_feature_is_off() {
    let features = PageFeatures {
        open_folder_in_ide: false,
        ..ALL_FEATURES
    };
    let mut settings = EditorSettings::default();
    let page = ExternalEditorView::new(&mut settings, &[Editor::Zed], features);
    assert!(page.folder_editor_dropdown.items.is_empty());
    assert!(!settings.default_folder_editor.is_value_explicitly_set());

    let shown: Vec<PageControl> = render_page(&settings, features)
        .iter()
        .map(|row| row.control)
        .collect();
    assert!(!shown.contains(&PageControl::FolderDropdown));
    let shown: Vec<PageControl> = render_page(&settings, ALL_FEATURES)
        .iter()
        .map(|row| row.control)
        .collect();
    assert!(shown.contains(&PageControl::FolderDropdown));
}

#[test]
fn switches_and_layouts_are_stored_and_reported() {
    let mut settings = EditorSettings::default();
    let before = *settings.prefer_markdown_viewer.value();
    let effect = handle_action(
        &mut settings,
        ExternalEditorAction::TogglePreferMarkdownViewer,
    );
    assert_eq!(
        effect,
        PageEffect::Report {
            action: "TogglePreferMarkdownViewer",
            value: (!before).to_string(),
        }
    );
    assert_eq!(*settings.prefer_markdown_viewer.value(), !before);
    handle_action(
        &mut settings,
        ExternalEditorAction::TogglePreferMarkdownViewer,
    );
    assert_eq!(*settings.prefer_markdown_viewer.value(), before);

    handle_action(
        &mut settings,
        ExternalEditorAction::SetLayout(EditorLayout::NewTab),
    );
    assert_eq!(*settings.open_file_layout.value(), EditorLayout::NewTab);

    assert_eq!(
        handle_action(
            &mut settings,
            ExternalEditorAction::OpenUrl("https://example.com".to_string())
        ),
        PageEffect::OpenUrl("https://example.com".to_string())
    );
}

#[test]
fn conversations_open_in_a_new_tab_or_a_split() {
    assert!(OpenConversationPreference::NewTab.is_new_tab());
    assert!(!OpenConversationPreference::SplitPane.is_new_tab());
    let setting = OpenConversationLayoutPreference::new(None);
    assert_eq!(
        *setting.value(),
        OpenConversationLayoutPreference::default_value()
    );
}
