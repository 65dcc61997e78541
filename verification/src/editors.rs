//! External editors, the settings that choose among them, and which one folders
//! are opened in.
use vstd::prelude::*;

verus! {

broadcast use vstd::string::group_string_axioms;

/// An external code editor.
#[derive(Clone, Copy, Debug, PartialEq, Eq, Structural)]
pub enum Editor {
    VSCode,
    VSCodeInsiders,
    Cursor,
    Windsurf,
    Zed,
    Sublime3,
    IntelliJ,
}

impl Editor {
    /// The name people know the editor by.
    pub open spec fn name_text(self) -> Seq<char> {
        match self {
            Editor::VSCode => "VS Code"@,
            Editor::VSCodeInsiders => "VS Code Insiders"@,
            Editor::Cursor => "Cursor"@,
            Editor::Windsurf => "Windsurf"@,
            Editor::Zed => "Zed"@,
            Editor::Sublime3 => "Sublime Text"@,
            Editor::IntelliJ => "IntelliJ"@,
        }
    }

    /// The name people know the editor by.
    pub fn display_name(&self) -> (name: &'static str)
        ensures
            name@ == self.name_text(),
    {
        match self {
            Editor::VSCode => "VS Code",
            Editor::VSCodeInsiders => "VS Code Insiders",
            Editor::Cursor => "Cursor",
            Editor::Windsurf => "Windsurf",
            Editor::Zed => "Zed",
            Editor::Sublime3 => "Sublime Text",
            Editor::IntelliJ => "IntelliJ",
        }
    }
}

impl Editor {
    /// The editor's own word, as reports spell it.
    pub open spec fn code_text(self) -> Seq<char> {
        match self {
            Editor::VSCode => "VSCode"@,
            Editor::VSCodeInsiders => "VSCodeInsiders"@,
            Editor::Cursor => "Cursor"@,
            Editor::Windsurf => "Windsurf"@,
            Editor::Zed => "Zed"@,
            Editor::Sublime3 => "Sublime3"@,
            Editor::IntelliJ => "IntelliJ"@,
        }
    }

    /// The editor's own word, as reports spell it.
    pub fn code_name(&self) -> (name: &'static str)
        ensures
            name@ == self.code_text(),
    {
        match self {
            Editor::VSCode => "VSCode",
            Editor::VSCodeInsiders => "VSCodeInsiders",
            Editor::Cursor => "Cursor",
            Editor::Windsurf => "Windsurf",
            Editor::Zed => "Zed",
            Editor::Sublime3 => "Sublime3",
            Editor::IntelliJ => "IntelliJ",
        }
    }
}

/// Which editor opens something.
#[derive(Clone, Copy, Debug, PartialEq, Eq, Structural)]
pub enum EditorChoice {
    SystemDefault,
    Warp,
    EnvEditor,
    /// A specific external code editor.
    ExternalEditor(Editor),
}

impl EditorChoice {
    /// The choice, as reports spell it.
    pub open spec fn code_text(self) -> Seq<char> {
        match self {
            EditorChoice::SystemDefault => "SystemDefault"@,
            EditorChoice::Warp => "Warp"@,
            EditorChoice::EnvEditor => "EnvEditor"@,
            EditorChoice::ExternalEditor(editor) => "ExternalEditor("@ + editor.code_text() + ")"@,
        }
    }

    /// The choice, as reports spell it.
    pub fn code_name(&self) -> (name: String)
        ensures
            name@ == self.code_text(),
    {
        match self {
            EditorChoice::SystemDefault => "SystemDefault".to_owned(),
            EditorChoice::Warp => "Warp".to_owned(),
            EditorChoice::EnvEditor => "EnvEditor".to_owned(),
            EditorChoice::ExternalEditor(editor) => {
                let mut name = "ExternalEditor(".to_owned();
                name.append(editor.code_name());
                name.append(")");
                name
            },
        }
    }
}

/// An editor choice as it is stored: by the current format, or by the older one
/// that held an optional editor.
#[derive(Clone, Copy, Debug, PartialEq, Eq, Structural)]
pub enum StoredEditorChoice {
    Current(EditorChoice),
    Legacy(Option<Editor>),
}

impl StoredEditorChoice {
    /// The choice that was stored: no editor meant the system's.
    pub open spec fn choice(self) -> EditorChoice {
        match self {
            StoredEditorChoice::Current(choice) => choice,
            StoredEditorChoice::Legacy(Some(editor)) => EditorChoice::ExternalEditor(editor),
            StoredEditorChoice::Legacy(None) => EditorChoice::SystemDefault,
        }
    }

    /// The choice that was stored.
    pub fn read(&self) -> (choice: EditorChoice)
        ensures
            choice == self.choice(),
    {
        match *self {
            StoredEditorChoice::Current(choice) => choice,
            StoredEditorChoice::Legacy(Some(editor)) => EditorChoice::ExternalEditor(editor),
            StoredEditorChoice::Legacy(None) => EditorChoice::SystemDefault,
        }
    }
}

/// Where a file opens inside the application.
#[derive(Clone, Copy, Debug, PartialEq, Eq, Structural)]
pub enum EditorLayout {
    SplitPane,
    NewTab,
}

/// How agent conversations are opened.
#[derive(Clone, Copy, Debug, PartialEq, Eq, Structural)]
pub enum OpenConversationPreference {
    NewTab,
    SplitPane,
}

impl OpenConversationPreference {
    /// Whether conversations open in a tab of their own.
    pub fn is_new_tab(&self) -> (new_tab: bool)
        ensures
            new_tab == (*self == OpenConversationPreference::NewTab),
    {
        match self {
            OpenConversationPreference::NewTab => true,
            OpenConversationPreference::SplitPane => false,
        }
    }
}

/// Whether a setting follows the user to other machines.
#[derive(Clone, Copy, Debug, PartialEq, Eq, Structural)]
pub enum SyncToCloud {
    /// The setting stays on this machine.
    Never,
    /// The setting follows the user, if they sync their settings at all.
    Globally,
}

/// A setting: what the user set, if they did, and what holds otherwise.
#[derive(Debug, PartialEq, Eq, Structural)]
pub struct Setting<T: Copy> {
    pub stored: Option<T>,
    pub fallback: T,
}

impl<T: Copy> Setting<T> {
    /// The value in force.
    pub open spec fn current(self) -> T {
        match self.stored {
            Some(value) => value,
            None => self.fallback,
        }
    }

    /// The setting once the user set it.
    pub open spec fn holding(self, value: T) -> Setting<T> {
        Setting { stored: Some(value), fallback: self.fallback }
    }

    /// The value in force.
    pub fn value(&self) -> (value: &T)
        ensures
            *value == self.current(),
    {
        match &self.stored {
            Some(value) => value,
            None => &self.fallback,
        }
    }

    /// Whether the user set it.
    pub fn is_value_explicitly_set(&self) -> (set: bool)
        ensures
            set == self.stored is Some,
    {
        self.stored.is_some()
    }

    /// Set it.
    pub fn set_value(&mut self, value: T)
        ensures
            *final(self) == old(self).holding(value),
    {
        self.stored = Some(value);
    }
}

/// The editor used to open files.
pub struct OpenFileEditor;

impl OpenFileEditor {
    pub fn new(stored: Option<EditorChoice>) -> (setting: Setting<EditorChoice>)
        ensures
            setting == (Setting { stored, fallback: EditorChoice::SystemDefault }),
    {
        Setting { stored, fallback: Self::default_value() }
    }

    pub fn default_value() -> (value: EditorChoice)
        ensures
            value == EditorChoice::SystemDefault,
    {
        EditorChoice::SystemDefault
    }

    pub fn sync_to_cloud() -> (sync: SyncToCloud)
        ensures
            sync == SyncToCloud::Never,
    {
        SyncToCloud::Never
    }

    pub fn toml_path() -> (path: Option<&'static str>)
        ensures
            path is Some && path->0@ == "code.editor.open_file_editor"@,
    {
        Some("code.editor.open_file_editor")
    }
}

/// The editor the primary toolbar button uses to open folders.
pub struct DefaultFolderEditor;

impl DefaultFolderEditor {
    pub fn new(stored: Option<EditorChoice>) -> (setting: Setting<EditorChoice>)
        ensures
            setting == (Setting { stored, fallback: EditorChoice::SystemDefault }),
    {
        Setting { stored, fallback: Self::default_value() }
    }

    pub fn default_value() -> (value: EditorChoice)
        ensures
            value == EditorChoice::SystemDefault,
    {
        EditorChoice::SystemDefault
    }

    pub fn sync_to_cloud() -> (sync: SyncToCloud)
        ensures
            sync == SyncToCloud::Never,
    {
        SyncToCloud::Never
    }

    pub fn toml_path() -> (path: Option<&'static str>)
        ensures
            path is Some && path->0@ == "code.editor.default_folder_editor"@,
    {
        Some("code.editor.default_folder_editor")
    }
}

/// The editor used to open files from code panels.
pub struct OpenCodePanelsFileEditor;

impl OpenCodePanelsFileEditor {
    pub fn new(stored: Option<EditorChoice>) -> (setting: Setting<EditorChoice>)
        ensures
            setting == (Setting { stored, fallback: EditorChoice::Warp }),
    {
        Setting { stored, fallback: Self::default_value() }
    }

    pub fn default_value() -> (value: EditorChoice)
        ensures
            value == EditorChoice::Warp,
    {
        EditorChoice::Warp
    }

    pub fn sync_to_cloud() -> (sync: SyncToCloud)
        ensures
            sync == SyncToCloud::Never,
    {
        SyncToCloud::Never
    }

    pub fn toml_path() -> (path: Option<&'static str>)
        ensures
            path is Some && path->0@ == "code.editor.open_code_panels_file_editor"@,
    {
        Some("code.editor.open_code_panels_file_editor")
    }
}

/// The layout used when opening files in the editor.
pub struct OpenFileLayout;

impl OpenFileLayout {
    pub fn new(stored: Option<EditorLayout>) -> (setting: Setting<EditorLayout>)
        ensures
            setting == (Setting { stored, fallback: EditorLayout::SplitPane }),
    {
        Setting { stored, fallback: Self::default_value() }
    }

    pub fn default_value() -> (value: EditorLayout)
        ensures
            value == EditorLayout::SplitPane,
    {
        EditorLayout::SplitPane
    }

    pub fn sync_to_cloud() -> (sync: SyncToCloud)
        ensures
            sync == SyncToCloud::Globally,
    {
        SyncToCloud::Globally
    }

    pub fn toml_path() -> (path: Option<&'static str>)
        ensures
            path is Some && path->0@ == "code.editor.open_file_layout"@,
    {
        Some("code.editor.open_file_layout")
    }
}

/// Whether Markdown files open in the Markdown viewer.
pub struct PreferMarkdownViewer;

impl PreferMarkdownViewer {
    pub fn new(stored: Option<bool>) -> (setting: Setting<bool>)
        ensures
            setting == (Setting { stored, fallback: true }),
    {
        Setting { stored, fallback: Self::default_value() }
    }

    pub fn default_value() -> (value: bool)
        ensures
            value,
    {
        true
    }

    pub fn sync_to_cloud() -> (sync: SyncToCloud)
        ensures
            sync == SyncToCloud::Globally,
    {
        SyncToCloud::Globally
    }

    pub fn toml_path() -> (path: Option<&'static str>)
        ensures
            path is Some && path->0@ == "code.editor.prefer_markdown_viewer"@,
    {
        Some("code.editor.prefer_markdown_viewer")
    }
}

/// Whether files opened in one tab are grouped into one editor pane.
pub struct PreferTabbedEditorView;

impl PreferTabbedEditorView {
    pub fn new(stored: Option<bool>) -> (setting: Setting<bool>)
        ensures
            setting == (Setting { stored, fallback: true }),
    {
        Setting { stored, fallback: Self::default_value() }
    }

    pub fn default_value() -> (value: bool)
        ensures
            value,
    {
        true
    }

    pub fn sync_to_cloud() -> (sync: SyncToCloud)
        ensures
            sync == SyncToCloud::Globally,
    {
        SyncToCloud::Globally
    }

    pub fn toml_path() -> (path: Option<&'static str>)
        ensures
            path is Some && path->0@ == "code.editor.prefer_tabbed_editor_view"@,
    {
        Some("code.editor.prefer_tabbed_editor_view")
    }
}

/// Whether agent conversations open in a new tab or a split pane.
pub struct OpenConversationLayoutPreference;

impl OpenConversationLayoutPreference {
    pub fn new(stored: Option<OpenConversationPreference>) -> (setting: Setting<
        OpenConversationPreference,
    >)
        ensures
            setting == (Setting { stored, fallback: OpenConversationPreference::NewTab }),
    {
        Setting { stored, fallback: Self::default_value() }
    }

    pub fn default_value() -> (value: OpenConversationPreference)
        ensures
            value == OpenConversationPreference::NewTab,
    {
        OpenConversationPreference::NewTab
    }

    pub fn sync_to_cloud() -> (sync: SyncToCloud)
        ensures
            sync == SyncToCloud::Globally,
    {
        SyncToCloud::Globally
    }

    pub fn toml_path() -> (path: Option<&'static str>)
        ensures
            path is Some && path->0@
                == "agents.warp_agent.other.open_conversation_layout_preference"@,
    {
        Some("agents.warp_agent.other.open_conversation_layout_preference")
    }
}

/// The settings about editors.
#[derive(Debug, PartialEq, Eq, Structural)]
pub struct EditorSettings {
    pub open_file_editor: Setting<EditorChoice>,
    pub default_folder_editor: Setting<EditorChoice>,
    pub open_code_panels_file_editor: Setting<EditorChoice>,
    pub open_file_layout: Setting<EditorLayout>,
    pub prefer_markdown_viewer: Setting<bool>,
    pub prefer_tabbed_editor_view: Setting<bool>,
    pub open_conversation_layout_preference: Setting<OpenConversationPreference>,
}

impl Default for EditorSettings {
    fn default() -> (settings: Self)
        ensures
            settings.open_file_editor == (Setting {
                stored: None,
                fallback: EditorChoice::SystemDefault,
            }),
            settings.default_folder_editor == (Setting {
                stored: None,
                fallback: EditorChoice::SystemDefault,
            }),
            settings.open_code_panels_file_editor == (Setting {
                stored: None,
                fallback: EditorChoice::Warp,
            }),
            settings.open_file_layout == (Setting {
                stored: None,
                fallback: EditorLayout::SplitPane,
            }),
            settings.prefer_markdown_viewer == (Setting { stored: None, fallback: true }),
            settings.prefer_tabbed_editor_view == (Setting { stored: None, fallback: true }),
            settings.open_conversation_layout_preference == (Setting {
                stored: None,
                fallback: OpenConversationPreference::NewTab,
            }),
    {
        EditorSettings {
            open_file_editor: OpenFileEditor::new(None),
            default_folder_editor: DefaultFolderEditor::new(None),
            open_code_panels_file_editor: OpenCodePanelsFileEditor::new(None),
            open_file_layout: OpenFileLayout::new(None),
            prefer_markdown_viewer: PreferMarkdownViewer::new(None),
            prefer_tabbed_editor_view: PreferTabbedEditorView::new(None),
            open_conversation_layout_preference: OpenConversationLayoutPreference::new(None),
        }
    }
}

fn lists_editor(editors: &[Editor], wanted: Editor) -> (found: bool)
    ensures
        found == editors@.contains(wanted),
{
    let mut i: usize = 0;
    while i < editors.len()
        invariant
            i <= editors@.len(),
            forall|j: int| 0 <= j < i ==> editors@[j] != wanted,
        decreases editors@.len() - i,
    {
        if editors[i] == wanted {
            assert(editors@[i as int] == wanted);
            return true;
        }
        i += 1;
    }
    false
}

/// The editor to suggest for folders while the user has chosen none: the one
/// that opens their files if it is installed, else the first that is installed.
pub open spec fn suggested_editor(open_file_editor: EditorChoice, installed: Seq<Editor>) -> Option<
    Editor,
> {
    match open_file_editor {
        EditorChoice::ExternalEditor(editor) if installed.contains(editor) => Some(editor),
        _ => if installed.len() > 0 {
            Some(installed[0])
        } else {
            None
        },
    }
}

/// The editor to suggest for folders while the user has chosen none. `None` when
/// no editor is installed: then there is nothing to suggest yet, and the folder
/// is revealed in the file manager.
pub fn seed_default_folder_editor(open_file_editor: EditorChoice, installed_editors: &[Editor]) -> (
    seed: Option<Editor>)
    ensures
        seed == suggested_editor(open_file_editor, installed_editors@),
{
    if let EditorChoice::ExternalEditor(editor) = open_file_editor {
        if lists_editor(installed_editors, editor) {
            return Some(editor);
        }
    }
    if installed_editors.len() > 0 {
        Some(installed_editors[0])
    } else {
        None
    }
}

/// The editor folders are opened in.
pub open spec fn folder_editor(settings: EditorSettings, installed: Seq<Editor>) -> Option<Editor> {
    match settings.default_folder_editor.stored {
        Some(EditorChoice::ExternalEditor(editor)) => if installed.contains(editor) {
            Some(editor)
        } else {
            None
        },
        Some(_) => None,
        None => suggested_editor(settings.open_file_editor.current(), installed),
    }
}

/// The settings after the editor for folders was looked up: a suggestion that
/// was made is written down.
pub open spec fn settled(settings: EditorSettings, installed: Seq<Editor>) -> EditorSettings {
    match (settings.default_folder_editor.stored, folder_editor(settings, installed)) {
        (None, Some(editor)) => EditorSettings {
            default_folder_editor: settings.default_folder_editor.holding(
                EditorChoice::ExternalEditor(editor),
            ),
            ..settings
        },
        _ => settings,
    }
}

/// The editor folders are opened in, among those installed; `None` reveals the
/// folder in the file manager. What the user chose is final: an editor that is
/// gone is not replaced by another, and neither is the choice of no editor. A
/// suggestion becomes their choice the first time it is made.
pub fn resolve_default_folder_editor_with_installed(
    settings: &mut EditorSettings,
    installed_editors: &[Editor],
) -> (editor: Option<Editor>)
    ensures
        editor == folder_editor(*old(settings), installed_editors@),
        *final(settings) == settled(*old(settings), installed_editors@),
{
    if let Some(chosen) = settings.default_folder_editor.stored {
        return match chosen {
            EditorChoice::ExternalEditor(editor) => if lists_editor(installed_editors, editor) {
                Some(editor)
            } else {
                None
            },
            _ => None,
        };
    }
    let seed = seed_default_folder_editor(*settings.open_file_editor.value(), installed_editors);
    if let Some(editor) = seed {
        settings.default_folder_editor.set_value(EditorChoice::ExternalEditor(editor));
    }
    seed
}

/// Installing or removing an application never changes which editor folders open
/// in: once one was resolved, every later look finds the same one while it is
/// installed and none while it is not, whatever else is installed.
pub proof fn default_editor_never_drifts(
    settings: EditorSettings,
    installed: Seq<Editor>,
    later: Seq<Editor>,
)
    requires
        folder_editor(settings, installed) is Some,
    ensures
        ({
            let editor = folder_editor(settings, installed)->0;
            let after = settled(settings, installed);
            &&& folder_editor(after, later) == (if later.contains(editor) {
                Some(editor)
            } else {
                None
            })
            &&& settled(after, later) == after
        }),
{
}

/// The editor folders open in is always one that is installed, and no editor is
/// put in the place of the one the user chose.
pub proof fn chosen_editor_is_never_replaced(settings: EditorSettings, installed: Seq<Editor>)
    ensures
        folder_editor(settings, installed) matches Some(editor) ==> installed.contains(editor),
        settings.default_folder_editor.stored matches Some(choice) ==> {
            &&& settled(settings, installed) == settings
            &&& folder_editor(settings, installed) matches Some(editor) ==> choice
                == EditorChoice::ExternalEditor(editor)
        },
{
    if installed.len() > 0 {
        assert(installed.contains(installed[0]));
    }
}

/// The editor suggested for folders is the one that opens files, where it is an
/// editor that is installed, and the first installed one otherwise.
pub proof fn installed_editors_are_suggested(
    open_file_editor: EditorChoice,
    installed: Seq<Editor>,
    editor: Editor,
)
    ensures
        open_file_editor == EditorChoice::ExternalEditor(editor) && installed.contains(editor)
            ==> suggested_editor(open_file_editor, installed) == Some(editor),
        open_file_editor == EditorChoice::ExternalEditor(editor) && !installed.contains(editor)
            && installed.len() > 0 ==> suggested_editor(open_file_editor, installed) == Some(
            installed[0],
        ),
        !(open_file_editor is ExternalEditor) && installed.len() > 0 ==> suggested_editor(
            open_file_editor,
            installed,
        ) == Some(installed[0]),
        installed.len() == 0 ==> suggested_editor(open_file_editor, installed) is None,
{
}

/// Folders open in the editor that was chosen for them, where it is installed;
/// a choice that names no editor opens them in none; and only without a choice
/// is one suggested, which becomes the choice.
pub proof fn folders_open_in_the_chosen_editor(
    settings: EditorSettings,
    installed: Seq<Editor>,
    editor: Editor,
)
    ensures
        settings.default_folder_editor.stored == Some(EditorChoice::ExternalEditor(editor))
            ==> folder_editor(settings, installed) == (if installed.contains(editor) {
            Some(editor)
        } else {
            None
        }),
        settings.default_folder_editor.stored matches Some(choice) ==> (!(
        choice is ExternalEditor) ==> folder_editor(settings, installed) is None),
        settings.default_folder_editor.stored is None && installed.len() > 0 ==> {
            &&& folder_editor(settings, installed) is Some
            &&& settled(settings, installed).default_folder_editor.stored == Some(
                EditorChoice::ExternalEditor(folder_editor(settings, installed)->0),
            )
        },
        settings.default_folder_editor.stored is None && installed.len() == 0 ==> settled(
            settings,
            installed,
        ) == settings,
        settled(settings, installed).open_file_editor == settings.open_file_editor,
        settled(settings, installed).open_code_panels_file_editor
            == settings.open_code_panels_file_editor,
        settled(settings, installed).open_file_layout == settings.open_file_layout,
        settled(settings, installed).prefer_markdown_viewer == settings.prefer_markdown_viewer,
        settled(settings, installed).prefer_tabbed_editor_view
            == settings.prefer_tabbed_editor_view,
{
}

/// A setting has the value that was stored for it, and its default before that.
pub proof fn settings_have_what_was_stored<T: Copy>(setting: Setting<T>, value: T)
    ensures
        setting.stored is Some ==> setting.current() == setting.stored->0,
        setting.stored is None ==> setting.current() == setting.fallback,
        setting.holding(value).current() == value,
        setting.holding(value).stored == Some(value),
        setting.holding(value).fallback == setting.fallback,
{
}

/// A choice that was stored before there were kinds of choices reads as the
/// editor it named, and as the system's default where it named none.
pub proof fn old_choices_are_read(choice: EditorChoice, editor: Editor)
    ensures
        StoredEditorChoice::Current(choice).choice() == choice,
        StoredEditorChoice::Legacy(Some(editor)).choice() == EditorChoice::ExternalEditor(editor),
        StoredEditorChoice::Legacy(None).choice() == EditorChoice::SystemDefault,
{
}

} // verus!
