//! The settings page about editors: its dropdowns, its rows, and what the
//! choices made there change.
use vstd::prelude::*;
use crate::editors;
use crate::editors::{
    resolve_default_folder_editor_with_installed, DefaultFolderEditor, Editor, EditorChoice,
    EditorLayout, EditorSettings, OpenCodePanelsFileEditor, OpenFileEditor, OpenFileLayout,
    PreferMarkdownViewer, PreferTabbedEditorView, SyncToCloud,
};

verus! {

broadcast use vstd::string::group_string_axioms;

/// Which of the features that the page depends on are on.
#[derive(Clone, Copy, Debug, PartialEq, Eq, Structural)]
pub struct PageFeatures {
    pub open_folder_in_ide: bool,
    pub tabbed_editor_view: bool,
    /// File links may open in the editor that the environment names.
    pub file_links_in_env_editor: bool,
}

/// A change asked for on the page, as mathematical values.
pub enum PageActionView {
    SetEditor(EditorChoice),
    SetDefaultFolderEditor(EditorChoice),
    SetCodePanelsEditor(EditorChoice),
    SetLayout(EditorLayout),
    TogglePreferMarkdownViewer,
    ToggleTabbedEditorView,
    OpenUrl(Seq<char>),
}

/// A change asked for on the page.
#[derive(Debug, PartialEq, Eq)]
pub enum ExternalEditorAction {
    SetEditor(EditorChoice),
    SetDefaultFolderEditor(EditorChoice),
    SetCodePanelsEditor(EditorChoice),
    SetLayout(EditorLayout),
    TogglePreferMarkdownViewer,
    ToggleTabbedEditorView,
    OpenUrl(String),
}

impl View for ExternalEditorAction {
    type V = PageActionView;

    open spec fn view(&self) -> PageActionView {
        match *self {
            ExternalEditorAction::SetEditor(choice) => PageActionView::SetEditor(choice),
            ExternalEditorAction::SetDefaultFolderEditor(choice) =>
                PageActionView::SetDefaultFolderEditor(choice),
            ExternalEditorAction::SetCodePanelsEditor(choice) =>
                PageActionView::SetCodePanelsEditor(choice),
            ExternalEditorAction::SetLayout(layout) => PageActionView::SetLayout(layout),
            ExternalEditorAction::TogglePreferMarkdownViewer =>
                PageActionView::TogglePreferMarkdownViewer,
            ExternalEditorAction::ToggleTabbedEditorView => PageActionView::ToggleTabbedEditorView,
            ExternalEditorAction::OpenUrl(url) => PageActionView::OpenUrl(url@),
        }
    }
}

/// A row of a dropdown that offers editors, as mathematical values.
pub open spec fn offer_view(offer: (String, EditorChoice)) -> (Seq<char>, EditorChoice) {
    (offer.0@, offer.1)
}

/// Rows that offer editors, as mathematical values.
pub open spec fn offers_view(offers: Seq<(String, EditorChoice)>) -> Seq<(Seq<char>, EditorChoice)> {
    offers.map_values(|offer: (String, EditorChoice)| offer_view(offer))
}

/// One row per installed editor.
pub open spec fn installed_offers(installed: Seq<Editor>) -> Seq<(Seq<char>, EditorChoice)> {
    installed.map_values(
        |editor: Editor| (editor.name_text(), EditorChoice::ExternalEditor(editor)),
    )
}

/// The label of a choice on the page.
pub open spec fn choice_label(choice: EditorChoice) -> Seq<char> {
    match choice {
        EditorChoice::SystemDefault => "Default App"@,
        EditorChoice::Warp => "Warp"@,
        EditorChoice::EnvEditor => "$EDITOR"@,
        EditorChoice::ExternalEditor(editor) => editor.name_text(),
    }
}

/// The rows of a dropdown for files.
pub open spec fn file_offers(installed: Seq<Editor>, file_links_in_env_editor: bool) -> Seq<
    (Seq<char>, EditorChoice),
> {
    let fixed = seq![
        (choice_label(EditorChoice::SystemDefault), EditorChoice::SystemDefault),
        (choice_label(EditorChoice::Warp), EditorChoice::Warp),
    ];
    let with_env = if file_links_in_env_editor {
        fixed.push((choice_label(EditorChoice::EnvEditor), EditorChoice::EnvEditor))
    } else {
        fixed
    };
    with_env + installed_offers(installed)
}

/// The rows of the dropdown for folders.
pub open spec fn folder_offers(installed: Seq<Editor>) -> Seq<(Seq<char>, EditorChoice)> {
    seq![("None — reveal in file manager"@, EditorChoice::SystemDefault)] + installed_offers(
        installed,
    )
}

/// What a dropdown sets.
#[derive(Clone, Copy, Debug, PartialEq, Eq, Structural)]
pub enum ChoiceTarget {
    Files,
    Folders,
    CodePanels,
}

/// The change that picking `choice` asks for.
pub open spec fn pick(target: ChoiceTarget, choice: EditorChoice) -> PageActionView {
    match target {
        ChoiceTarget::Files => PageActionView::SetEditor(choice),
        ChoiceTarget::Folders => PageActionView::SetDefaultFolderEditor(choice),
        ChoiceTarget::CodePanels => PageActionView::SetCodePanelsEditor(choice),
    }
}

/// A dropdown, as mathematical values.
pub struct DropdownView {
    pub items: Seq<(Seq<char>, PageActionView)>,
    pub selected: Option<Seq<char>>,
}

/// A dropdown: its rows, and the label of the one shown as chosen.
#[derive(Debug, PartialEq, Eq)]
pub struct Dropdown {
    pub items: Vec<(String, ExternalEditorAction)>,
    pub selected: Option<String>,
}

impl View for Dropdown {
    type V = DropdownView;

    open spec fn view(&self) -> DropdownView {
        DropdownView {
            items: self.items@.map_values(
                |item: (String, ExternalEditorAction)| (item.0@, item.1@),
            ),
            selected: match self.selected {
                Some(label) => Some(label@),
                None => None,
            },
        }
    }
}

/// A dropdown that offers editors.
pub open spec fn choice_dropdown(
    offers: Seq<(Seq<char>, EditorChoice)>,
    target: ChoiceTarget,
    selected: Seq<char>,
) -> DropdownView {
    DropdownView {
        items: offers.map_values(
            |offer: (Seq<char>, EditorChoice)| (offer.0, pick(target, offer.1)),
        ),
        selected: Some(selected),
    }
}

/// The dropdown of layouts.
pub open spec fn layout_choices(layout: EditorLayout) -> DropdownView {
    DropdownView {
        items: seq![
            ("Split Pane"@, PageActionView::SetLayout(EditorLayout::SplitPane)),
            ("New Tab"@, PageActionView::SetLayout(EditorLayout::NewTab)),
        ],
        selected: Some(match layout {
            EditorLayout::SplitPane => "Split Pane"@,
            EditorLayout::NewTab => "New Tab"@,
        }),
    }
}

/// A dropdown with nothing in it.
pub open spec fn no_choices() -> DropdownView {
    DropdownView { items: Seq::empty(), selected: None }
}

/// The dropdown of folder editors: the one that folders open in is chosen, or
/// the row for none.
pub open spec fn folder_choices(editor: Option<Editor>, installed: Seq<Editor>) -> DropdownView {
    choice_dropdown(
        folder_offers(installed),
        ChoiceTarget::Folders,
        match editor {
            Some(found) => found.name_text(),
            None => "None — reveal in file manager"@,
        },
    )
}

/// The dropdown of file editors with `choice` chosen.
pub open spec fn file_choices(
    choice: EditorChoice,
    installed: Seq<Editor>,
    file_links_in_env_editor: bool,
    target: ChoiceTarget,
) -> DropdownView {
    choice_dropdown(
        file_offers(installed, file_links_in_env_editor),
        target,
        choice_label(choice),
    )
}

/// The dropdowns of the page.
#[derive(Debug, PartialEq, Eq)]
pub struct ExternalEditorView {
    pub editor_dropdown: Dropdown,
    pub folder_editor_dropdown: Dropdown,
    pub code_panels_editor_dropdown: Dropdown,
    pub layout_dropdown: Dropdown,
}

fn choice_name(choice: EditorChoice) -> (label: &'static str)
    ensures
        label@ == choice_label(choice),
{
    match choice {
        EditorChoice::SystemDefault => ExternalEditorView::DEFAULT_OPTION_TEXT,
        EditorChoice::Warp => "Warp",
        EditorChoice::EnvEditor => "$EDITOR",
        EditorChoice::ExternalEditor(editor) => editor.display_name(),
    }
}

fn push_installed(offers: &mut Vec<(String, EditorChoice)>, installed: &[Editor])
    ensures
        offers_view(final(offers)@) == offers_view(old(offers)@) + installed_offers(installed@),
{
    let ghost before = offers_view(offers@);
    let ghost added = installed_offers(installed@);
    let mut i: usize = 0;
    assert(before + added.take(0) =~= before);
    while i < installed.len()
        invariant
            i <= installed@.len(),
            added == installed_offers(installed@),
            offers_view(offers@) == before + added.take(i as int),
        decreases installed@.len() - i,
    {
        let editor = installed[i];
        let ghost shown = offers_view(offers@);
        let offer = (editor.display_name().to_owned(), EditorChoice::ExternalEditor(editor));
        let ghost row = offer_view(offer);
        offers.push(offer);
        proof {
            assert(offers_view(offers@) =~= shown.push(row));
            assert(added[i as int] == row);
            assert(before + added.take(i + 1) =~= (before + added.take(i as int)).push(row));
        }
        i += 1;
    }
    assert(added.take(i as int) =~= added);
}

fn dropdown_of(
    offers: &Vec<(String, EditorChoice)>,
    target: ChoiceTarget,
    selected: &'static str,
) -> (dropdown: Dropdown)
    ensures
        dropdown@ == choice_dropdown(offers_view(offers@), target, selected@),
{
    let ghost all = offers_view(offers@);
    let ghost expected = choice_dropdown(all, target, selected@).items;
    let mut items: Vec<(String, ExternalEditorAction)> = Vec::new();
    let mut i: usize = 0;
    while i < offers.len()
        invariant
            i <= offers@.len(),
            all == offers_view(offers@),
            items@.len() == i,
            forall|j: int|
                0 <= j < i ==> (#[trigger] items@[j]).0@ == all[j].0 && items@[j].1@ == pick(
                    target,
                    all[j].1,
                ),
        decreases offers@.len() - i,
    {
        let choice = offers[i].1;
        let action = match target {
            ChoiceTarget::Files => ExternalEditorAction::SetEditor(choice),
            ChoiceTarget::Folders => ExternalEditorAction::SetDefaultFolderEditor(choice),
            ChoiceTarget::CodePanels => ExternalEditorAction::SetCodePanelsEditor(choice),
        };
        items.push((offers[i].0.clone(), action));
        i += 1;
    }
    let dropdown = Dropdown { items, selected: Some(selected.to_owned()) };
    assert(dropdown@.items =~= expected);
    dropdown
}

impl ExternalEditorView {
    /// The label of the system's own choice.
    pub const DEFAULT_OPTION_TEXT: &'static str = "Default App";

    /// The label of the row that opens folders in no editor.
    pub fn no_folder_editor_label() -> (label: String)
        ensures
            label@ == "None — reveal in file manager"@,
    {
        "None — reveal in file manager".to_owned()
    }

    /// The rows of a dropdown for files: the fixed ones, then one per installed
    /// editor, in the order given.
    pub fn editor_dropdown_items(installed: &[Editor], file_links_in_env_editor: bool) -> (offers:
        Vec<(String, EditorChoice)>)
        ensures
            offers_view(offers@) == file_offers(installed@, file_links_in_env_editor),
    {
        let mut offers: Vec<(String, EditorChoice)> = Vec::new();
        offers.push((Self::DEFAULT_OPTION_TEXT.to_owned(), EditorChoice::SystemDefault));
        offers.push(("Warp".to_owned(), EditorChoice::Warp));
        if file_links_in_env_editor {
            offers.push(("$EDITOR".to_owned(), EditorChoice::EnvEditor));
        }
        let ghost fixed = offers_view(offers@);
        push_installed(&mut offers, installed);
        assert(fixed + installed_offers(installed@) =~= file_offers(
            installed@,
            file_links_in_env_editor,
        ));
        offers
    }

    /// The rows of the dropdown for folders: none, then one per installed editor.
    /// A folder opens in an editor or in the file manager and nowhere else.
    pub fn folder_editor_dropdown_items(installed: &[Editor]) -> (offers: Vec<
        (String, EditorChoice),
    >)
        ensures
            offers_view(offers@) == folder_offers(installed@),
    {
        let mut offers: Vec<(String, EditorChoice)> = Vec::new();
        offers.push((Self::no_folder_editor_label(), EditorChoice::SystemDefault));
        let ghost fixed = offers_view(offers@);
        push_installed(&mut offers, installed);
        assert(fixed + installed_offers(installed@) =~= folder_offers(installed@));
        offers
    }

    fn init_editor_dropdown(
        choice: EditorChoice,
        installed: &[Editor],
        file_links_in_env_editor: bool,
        target: ChoiceTarget,
    ) -> (dropdown: Dropdown)
        ensures
            dropdown@ == file_choices(choice, installed@, file_links_in_env_editor, target),
    {
        let offers = Self::editor_dropdown_items(installed, file_links_in_env_editor);
        dropdown_of(&offers, target, choice_name(choice))
    }

    fn init_folder_editor_dropdown(editor: Option<Editor>, installed: &[Editor]) -> (dropdown:
        Dropdown)
        ensures
            dropdown@ == folder_choices(editor, installed@),
    {
        let offers = Self::folder_editor_dropdown_items(installed);
        let selected = match editor {
            Some(found) => found.display_name(),
            None => "None — reveal in file manager",
        };
        dropdown_of(&offers, ChoiceTarget::Folders, selected)
    }

    fn init_layout_dropdown(layout: EditorLayout) -> (dropdown: Dropdown)
        ensures
            dropdown@ == layout_choices(layout),
    {
        let mut items: Vec<(String, ExternalEditorAction)> = Vec::new();
        items.push(
            (
                "Split Pane".to_owned(),
                ExternalEditorAction::SetLayout(EditorLayout::SplitPane),
            ),
        );
        items.push(("New Tab".to_owned(), ExternalEditorAction::SetLayout(EditorLayout::NewTab)));
        let selected = match layout {
            EditorLayout::SplitPane => "Split Pane".to_owned(),
            EditorLayout::NewTab => "New Tab".to_owned(),
        };
        let dropdown = Dropdown { items, selected: Some(selected) };
        assert(dropdown@.items =~= layout_choices(layout).items);
        dropdown
    }

    /// The dropdowns for the settings as they are, from one search for editors.
    /// While folders do not open in editors, the editor for them is not even
    /// resolved.
    pub fn new(settings: &mut EditorSettings, installed: &[Editor], features: PageFeatures) -> (
        page: Self)
        ensures
            page.editor_dropdown@ == file_choices(
                old(settings).open_file_editor.current(),
                installed@,
                features.file_links_in_env_editor,
                ChoiceTarget::Files,
            ),
            page.code_panels_editor_dropdown@ == file_choices(
                old(settings).open_code_panels_file_editor.current(),
                installed@,
                features.file_links_in_env_editor,
                ChoiceTarget::CodePanels,
            ),
            page.layout_dropdown@ == layout_choices(old(settings).open_file_layout.current()),
            page.folder_editor_dropdown@ == (if features.open_folder_in_ide {
                folder_choices(editors::folder_editor(*old(settings), installed@), installed@)
            } else {
                no_choices()
            }),
            *final(settings) == (if features.open_folder_in_ide {
                editors::settled(*old(settings), installed@)
            } else {
                *old(settings)
            }),
    {
        let editor_dropdown = Self::init_editor_dropdown(
            *settings.open_file_editor.value(),
            installed,
            features.file_links_in_env_editor,
            ChoiceTarget::Files,
        );
        let code_panels_editor_dropdown = Self::init_editor_dropdown(
            *settings.open_code_panels_file_editor.value(),
            installed,
            features.file_links_in_env_editor,
            ChoiceTarget::CodePanels,
        );
        let layout_dropdown = Self::init_layout_dropdown(*settings.open_file_layout.value());
        let folder_editor_dropdown = if features.open_folder_in_ide {
            let editor = resolve_default_folder_editor_with_installed(settings, installed);
            Self::init_folder_editor_dropdown(editor, installed)
        } else {
            let dropdown = Dropdown { items: Vec::new(), selected: None };
            assert(dropdown@.items =~= no_choices().items);
            dropdown
        };
        ExternalEditorView {
            editor_dropdown,
            folder_editor_dropdown,
            code_panels_editor_dropdown,
            layout_dropdown,
        }
    }

    /// The settings changed: the dropdowns of editors follow.
    pub fn on_settings_changed(
        &mut self,
        settings: &mut EditorSettings,
        installed: &[Editor],
        features: PageFeatures,
    )
        ensures
            final(self).editor_dropdown@ == file_choices(
                old(settings).open_file_editor.current(),
                installed@,
                features.file_links_in_env_editor,
                ChoiceTarget::Files,
            ),
            final(self).code_panels_editor_dropdown@ == file_choices(
                old(settings).open_code_panels_file_editor.current(),
                installed@,
                features.file_links_in_env_editor,
                ChoiceTarget::CodePanels,
            ),
            final(self).layout_dropdown == old(self).layout_dropdown,
            final(self).folder_editor_dropdown@ == (if features.open_folder_in_ide {
                folder_choices(editors::folder_editor(*old(settings), installed@), installed@)
            } else {
                old(self).folder_editor_dropdown@
            }),
            *final(settings) == (if features.open_folder_in_ide {
                editors::settled(*old(settings), installed@)
            } else {
                *old(settings)
            }),
    {
        self.editor_dropdown = Self::init_editor_dropdown(
            *settings.open_file_editor.value(),
            installed,
            features.file_links_in_env_editor,
            ChoiceTarget::Files,
        );
        self.code_panels_editor_dropdown = Self::init_editor_dropdown(
            *settings.open_code_panels_file_editor.value(),
            installed,
            features.file_links_in_env_editor,
            ChoiceTarget::CodePanels,
        );
        if features.open_folder_in_ide {
            let editor = resolve_default_folder_editor_with_installed(settings, installed);
            self.folder_editor_dropdown = Self::init_folder_editor_dropdown(editor, installed);
        }
    }
}

/// A control on the page.
#[derive(Clone, Copy, Debug, PartialEq, Eq, Structural)]
pub enum PageControl {
    EditorDropdown,
    CodePanelsDropdown,
    LayoutDropdown,
    FolderDropdown,
    /// Toggles the grouping of files into one pane.
    TabbedEditorSwitch { on: bool },
    /// Toggles the Markdown viewer.
    MarkdownSwitch { on: bool },
}

/// A row of the page, as mathematical values.
pub struct PageRowView {
    pub label: Seq<char>,
    pub description: Option<Seq<char>>,
    pub info_url: Option<Seq<char>>,
    pub setting: Seq<char>,
    pub sync: SyncToCloud,
    pub control: PageControl,
}

/// A row of the page: what it says, the setting it is for, and its control. A
/// setting that stays on this machine is marked so.
#[derive(Debug, PartialEq, Eq)]
pub struct PageRow {
    pub label: &'static str,
    pub description: Option<&'static str>,
    pub info_url: Option<&'static str>,
    pub setting: &'static str,
    pub sync: SyncToCloud,
    pub control: PageControl,
}

impl View for PageRow {
    type V = PageRowView;

    open spec fn view(&self) -> PageRowView {
        PageRowView {
            label: self.label@,
            description: match self.description {
                Some(found) => Some(found@),
                None => None,
            },
            info_url: match self.info_url {
                Some(found) => Some(found@),
                None => None,
            },
            setting: self.setting@,
            sync: self.sync,
            control: self.control,
        }
    }
}

/// Rows as mathematical values.
pub open spec fn page_rows_view(rows: Seq<PageRow>) -> Seq<PageRowView> {
    rows.map_values(|row: PageRow| row@)
}

/// A row with nothing but its label, its setting and its control.
pub open spec fn plain_row(
    label: Seq<char>,
    setting: Seq<char>,
    sync: SyncToCloud,
    control: PageControl,
) -> PageRowView {
    PageRowView { label, description: None, info_url: None, setting, sync, control }
}

/// The rows that are always there, before the others.
pub open spec fn leading_rows() -> Seq<PageRowView> {
    seq![
        plain_row(
            "Choose an editor to open file links"@,
            "code.editor.open_file_editor"@,
            SyncToCloud::Never,
            PageControl::EditorDropdown,
        ),
        plain_row(
            "Choose an editor to open files from the code review panel, project explorer, and global search"@,
            "code.editor.open_code_panels_file_editor"@,
            SyncToCloud::Never,
            PageControl::CodePanelsDropdown,
        ),
        plain_row(
            "Choose a layout to open files in Warp"@,
            "code.editor.open_file_layout"@,
            SyncToCloud::Globally,
            PageControl::LayoutDropdown,
        ),
    ]
}

/// The row of the folder editor, while folders open in editors.
pub open spec fn folder_rows(features: PageFeatures) -> Seq<PageRowView> {
    if features.open_folder_in_ide {
        seq![
            plain_row(
                "Choose an editor to open folders in from the toolbar"@,
                "code.editor.default_folder_editor"@,
                SyncToCloud::Never,
                PageControl::FolderDropdown,
            ),
        ]
    } else {
        Seq::empty()
    }
}

/// The row of the grouping switch, while files can be grouped.
pub open spec fn tabbed_rows(settings: EditorSettings, features: PageFeatures) -> Seq<PageRowView> {
    if features.tabbed_editor_view {
        seq![
            PageRowView {
                label: "Group files into single editor pane"@,
                description: Some(
                    "When this setting is on, any files opened in the same tab will be automatically grouped into a single editor pane."@,
                ),
                info_url: None,
                setting: "code.editor.prefer_tabbed_editor_view"@,
                sync: SyncToCloud::Globally,
                control: PageControl::TabbedEditorSwitch {
                    on: settings.prefer_tabbed_editor_view.current(),
                },
            },
        ]
    } else {
        Seq::empty()
    }
}

/// The row of the Markdown switch.
pub open spec fn markdown_rows(settings: EditorSettings) -> Seq<PageRowView> {
    seq![
        PageRowView {
            label: "Open Markdown files in Warp's Markdown Viewer by default"@,
            description: None,
            info_url: Some("https://docs.warp.dev/terminal/more-features/markdown-viewer"@),
            setting: "code.editor.prefer_markdown_viewer"@,
            sync: SyncToCloud::Globally,
            control: PageControl::MarkdownSwitch { on: settings.prefer_markdown_viewer.current() },
        },
    ]
}

/// The rows of the page, from top to bottom.
pub open spec fn page(settings: EditorSettings, features: PageFeatures) -> Seq<PageRowView> {
    leading_rows() + folder_rows(features) + tabbed_rows(settings, features) + markdown_rows(
        settings,
    )
}

fn dropdown_row(
    label: &'static str,
    setting: &'static str,
    sync: SyncToCloud,
    control: PageControl,
) -> (row: PageRow)
    ensures
        row@ == plain_row(label@, setting@, sync, control),
{
    PageRow { label, description: None, info_url: None, setting, sync, control }
}

/// The rows of the page, from top to bottom.
pub fn render_page(settings: &EditorSettings, features: PageFeatures) -> (rows: Vec<PageRow>)
    ensures
        page_rows_view(rows@) == page(*settings, features),
{
    let mut rows: Vec<PageRow> = Vec::new();
    rows.push(
        dropdown_row(
            "Choose an editor to open file links",
            "code.editor.open_file_editor",
            OpenFileEditor::sync_to_cloud(),
            PageControl::EditorDropdown,
        ),
    );
    rows.push(
        dropdown_row(
            "Choose an editor to open files from the code review panel, project explorer, and global search",
            "code.editor.open_code_panels_file_editor",
            OpenCodePanelsFileEditor::sync_to_cloud(),
            PageControl::CodePanelsDropdown,
        ),
    );
    rows.push(
        dropdown_row(
            "Choose a layout to open files in Warp",
            "code.editor.open_file_layout",
            OpenFileLayout::sync_to_cloud(),
            PageControl::LayoutDropdown,
        ),
    );
    assert(page_rows_view(rows@) =~= leading_rows());
    if features.open_folder_in_ide {
        rows.push(
            dropdown_row(
                "Choose an editor to open folders in from the toolbar",
                "code.editor.default_folder_editor",
                DefaultFolderEditor::sync_to_cloud(),
                PageControl::FolderDropdown,
            ),
        );
    }
    assert(page_rows_view(rows@) =~= leading_rows() + folder_rows(features));
    if features.tabbed_editor_view {
        rows.push(
            PageRow {
                label: "Group files into single editor pane",
                description: Some(
                    "When this setting is on, any files opened in the same tab will be automatically grouped into a single editor pane.",
                ),
                info_url: None,
                setting: "code.editor.prefer_tabbed_editor_view",
                sync: PreferTabbedEditorView::sync_to_cloud(),
                control: PageControl::TabbedEditorSwitch {
                    on: *settings.prefer_tabbed_editor_view.value(),
                },
            },
        );
    }
    assert(page_rows_view(rows@) =~= leading_rows() + folder_rows(features) + tabbed_rows(
        *settings,
        features,
    ));
    rows.push(
        PageRow {
            label: "Open Markdown files in Warp's Markdown Viewer by default",
            description: None,
            info_url: Some("https://docs.warp.dev/terminal/more-features/markdown-viewer"),
            setting: "code.editor.prefer_markdown_viewer",
            sync: PreferMarkdownViewer::sync_to_cloud(),
            control: PageControl::MarkdownSwitch { on: *settings.prefer_markdown_viewer.value() },
        },
    );
    assert(page_rows_view(rows@) =~= page(*settings, features));
    rows
}

/// What follows from a change, as mathematical values.
pub enum PageEffectView {
    Report { action: Seq<char>, value: Seq<char> },
    OpenUrl(Seq<char>),
}

/// What follows from a change made on the page.
#[derive(Debug, PartialEq, Eq)]
pub enum PageEffect {
    /// Record that the change was made.
    Report { action: &'static str, value: String },
    OpenUrl(String),
}

impl View for PageEffect {
    type V = PageEffectView;

    open spec fn view(&self) -> PageEffectView {
        match *self {
            PageEffect::Report { action, value } => PageEffectView::Report {
                action: action@,
                value: value@,
            },
            PageEffect::OpenUrl(url) => PageEffectView::OpenUrl(url@),
        }
    }
}

/// A switch's position, as reports spell it.
pub open spec fn switch_text(on: bool) -> Seq<char> {
    if on {
        "true"@
    } else {
        "false"@
    }
}

/// A layout, as reports spell it.
pub open spec fn layout_text(layout: EditorLayout) -> Seq<char> {
    match layout {
        EditorLayout::SplitPane => "SplitPane"@,
        EditorLayout::NewTab => "NewTab"@,
    }
}

/// The settings after a change.
pub open spec fn changed(settings: EditorSettings, action: PageActionView) -> EditorSettings {
    match action {
        PageActionView::SetEditor(choice) => EditorSettings {
            open_file_editor: settings.open_file_editor.holding(choice),
            ..settings
        },
        PageActionView::SetDefaultFolderEditor(choice) => EditorSettings {
            default_folder_editor: settings.default_folder_editor.holding(choice),
            ..settings
        },
        PageActionView::SetCodePanelsEditor(choice) => EditorSettings {
            open_code_panels_file_editor: settings.open_code_panels_file_editor.holding(choice),
            ..settings
        },
        PageActionView::SetLayout(layout) => EditorSettings {
            open_file_layout: settings.open_file_layout.holding(layout),
            ..settings
        },
        PageActionView::TogglePreferMarkdownViewer => EditorSettings {
            prefer_markdown_viewer: settings.prefer_markdown_viewer.holding(
                !settings.prefer_markdown_viewer.current(),
            ),
            ..settings
        },
        PageActionView::ToggleTabbedEditorView => EditorSettings {
            prefer_tabbed_editor_view: settings.prefer_tabbed_editor_view.holding(
                !settings.prefer_tabbed_editor_view.current(),
            ),
            ..settings
        },
        PageActionView::OpenUrl(_) => settings,
    }
}

/// What follows from a change: it is reported with its new value, and an address
/// is opened.
pub open spec fn consequence(settings: EditorSettings, action: PageActionView) -> PageEffectView {
    match action {
        PageActionView::SetEditor(choice) => PageEffectView::Report {
            action: "SetEditor"@,
            value: choice.code_text(),
        },
        PageActionView::SetDefaultFolderEditor(choice) => PageEffectView::Report {
            action: "SetDefaultFolderEditor"@,
            value: choice.code_text(),
        },
        PageActionView::SetCodePanelsEditor(choice) => PageEffectView::Report {
            action: "SetCodePanelsEditor"@,
            value: choice.code_text(),
        },
        PageActionView::SetLayout(layout) => PageEffectView::Report {
            action: "SetLayout"@,
            value: layout_text(layout),
        },
        PageActionView::TogglePreferMarkdownViewer => PageEffectView::Report {
            action: "TogglePreferMarkdownViewer"@,
            value: switch_text(!settings.prefer_markdown_viewer.current()),
        },
        PageActionView::ToggleTabbedEditorView => PageEffectView::Report {
            action: "ToggleTabbedEditorView"@,
            value: switch_text(!settings.prefer_tabbed_editor_view.current()),
        },
        PageActionView::OpenUrl(url) => PageEffectView::OpenUrl(url),
    }
}

fn switch_name(on: bool) -> (name: String)
    ensures
        name@ == switch_text(on),
{
    if on {
        "true".to_owned()
    } else {
        "false".to_owned()
    }
}

/// Carry out a change asked for on the page.
pub fn handle_action(settings: &mut EditorSettings, action: ExternalEditorAction) -> (effect:
    PageEffect)
    ensures
        *final(settings) == changed(*old(settings), action@),
        effect@ == consequence(*old(settings), action@),
{
    match action {
        ExternalEditorAction::SetEditor(choice) => {
            settings.open_file_editor.set_value(choice);
            PageEffect::Report { action: "SetEditor", value: choice.code_name() }
        },
        ExternalEditorAction::SetDefaultFolderEditor(choice) => {
            settings.default_folder_editor.set_value(choice);
            PageEffect::Report { action: "SetDefaultFolderEditor", value: choice.code_name() }
        },
        ExternalEditorAction::SetCodePanelsEditor(choice) => {
            settings.open_code_panels_file_editor.set_value(choice);
            PageEffect::Report { action: "SetCodePanelsEditor", value: choice.code_name() }
        },
        ExternalEditorAction::SetLayout(layout) => {
            settings.open_file_layout.set_value(layout);
            let value = match layout {
                EditorLayout::SplitPane => "SplitPane".to_owned(),
                EditorLayout::NewTab => "NewTab".to_owned(),
            };
            PageEffect::Report { action: "SetLayout", value }
        },
        ExternalEditorAction::TogglePreferMarkdownViewer => {
            let on = !*settings.prefer_markdown_viewer.value();
            settings.prefer_markdown_viewer.set_value(on);
            PageEffect::Report { action: "TogglePreferMarkdownViewer", value: switch_name(on) }
        },
        ExternalEditorAction::ToggleTabbedEditorView => {
            let on = !*settings.prefer_tabbed_editor_view.value();
            settings.prefer_tabbed_editor_view.set_value(on);
            PageEffect::Report { action: "ToggleTabbedEditorView", value: switch_name(on) }
        },
        ExternalEditorAction::OpenUrl(url) => PageEffect::OpenUrl(url),
    }
}

/// What the page offers for folders can be chosen and is then what happens: the
/// row for none opens folders in no editor, and an editor's row opens them in
/// that editor, whatever else is installed.
pub proof fn folder_choice_takes_effect(
    settings: EditorSettings,
    installed: Seq<Editor>,
    at: int,
)
    requires
        0 <= at < folder_offers(installed).len(),
    ensures
        ({
            let offer = folder_offers(installed)[at];
            let after = changed(settings, pick(ChoiceTarget::Folders, offer.1));
            &&& editors::settled(after, installed) == after
            &&& editors::folder_editor(after, installed) == (if at == 0 {
                None
            } else {
                Some(installed[at - 1])
            })
            &&& folder_choices(editors::folder_editor(after, installed), installed).selected
                == Some(offer.0)
        }),
{
    if at > 0 {
        assert(installed.contains(installed[at - 1]));
    }
}

/// A toggle undoes itself.
pub proof fn toggling_twice_restores(settings: EditorSettings)
    ensures
        ({
            let twice = changed(
                changed(settings, PageActionView::TogglePreferMarkdownViewer),
                PageActionView::TogglePreferMarkdownViewer,
            );
            twice.prefer_markdown_viewer.current() == settings.prefer_markdown_viewer.current()
        }),
        ({
            let twice = changed(
                changed(settings, PageActionView::ToggleTabbedEditorView),
                PageActionView::ToggleTabbedEditorView,
            );
            twice.prefer_tabbed_editor_view.current()
                == settings.prefer_tabbed_editor_view.current()
        }),
{
}

/// Files can open in the default app, in Warp, in `$EDITOR` where that is
/// offered, and in every installed editor, in this order.
pub proof fn file_editors_are_offered(installed: Seq<Editor>, env: bool, at: int)
    ensures
        ({
            let offers = file_offers(installed, env);
            let fixed: int = if env {
                3
            } else {
                2
            };
            &&& offers.len() == fixed + installed.len()
            &&& offers[0] == ("Default App"@, EditorChoice::SystemDefault)
            &&& offers[1] == ("Warp"@, EditorChoice::Warp)
            &&& env ==> offers[2] == ("$EDITOR"@, EditorChoice::EnvEditor)
            &&& 0 <= at < installed.len() ==> offers[fixed + at] == (
                installed[at].name_text(),
                EditorChoice::ExternalEditor(installed[at]),
            )
        }),
{
}

/// Folders can open in no editor or in an installed one, in this order.
pub proof fn folder_editors_are_offered(installed: Seq<Editor>, at: int)
    ensures
        folder_offers(installed).len() == 1 + installed.len(),
        folder_offers(installed)[0] == (
            "None — reveal in file manager"@,
            EditorChoice::SystemDefault,
        ),
        0 <= at < installed.len() ==> folder_offers(installed)[1 + at] == (
            installed[at].name_text(),
            EditorChoice::ExternalEditor(installed[at]),
        ),
{
}

/// Picking an offer sets the setting its list is for, to that offer, and the
/// list shows it as selected; no other setting changes.
pub proof fn picking_sets_its_setting(
    settings: EditorSettings,
    installed: Seq<Editor>,
    env: bool,
    at: int,
)
    requires
        0 <= at < file_offers(installed, env).len(),
    ensures
        ({
            let offer = file_offers(installed, env)[at];
            let files = changed(settings, pick(ChoiceTarget::Files, offer.1));
            let panels = changed(settings, pick(ChoiceTarget::CodePanels, offer.1));
            &&& files.open_file_editor.current() == offer.1
            &&& files.open_code_panels_file_editor == settings.open_code_panels_file_editor
            &&& files.default_folder_editor == settings.default_folder_editor
            &&& files.open_file_layout == settings.open_file_layout
            &&& files.prefer_markdown_viewer == settings.prefer_markdown_viewer
            &&& files.prefer_tabbed_editor_view == settings.prefer_tabbed_editor_view
            &&& panels.open_code_panels_file_editor.current() == offer.1
            &&& panels.open_file_editor == settings.open_file_editor
            &&& panels.default_folder_editor == settings.default_folder_editor
            &&& file_choices(
                files.open_file_editor.current(),
                installed,
                env,
                ChoiceTarget::Files,
            ).selected == Some(offer.0)
            &&& file_choices(
                files.open_file_editor.current(),
                installed,
                env,
                ChoiceTarget::Files,
            ).items[at] == (offer.0, PageActionView::SetEditor(offer.1))
            &&& file_choices(
                panels.open_code_panels_file_editor.current(),
                installed,
                env,
                ChoiceTarget::CodePanels,
            ).items[at] == (offer.0, PageActionView::SetCodePanelsEditor(offer.1))
        }),
{
    file_editors_are_offered(installed, env, at - 2);
    file_editors_are_offered(installed, env, at - 3);
}

/// The switches and the layout change their own setting and no other: a switch
/// turns over what it shows, and the layout becomes the one that was picked.
pub proof fn switches_change_their_setting(settings: EditorSettings, layout: EditorLayout)
    ensures
        ({
            let markdown = changed(settings, PageActionView::TogglePreferMarkdownViewer);
            let tabbed = changed(settings, PageActionView::ToggleTabbedEditorView);
            let laid = changed(settings, PageActionView::SetLayout(layout));
            &&& markdown.prefer_markdown_viewer.current()
                == !settings.prefer_markdown_viewer.current()
            &&& markdown.prefer_tabbed_editor_view == settings.prefer_tabbed_editor_view
            &&& markdown.open_file_layout == settings.open_file_layout
            &&& markdown.open_file_editor == settings.open_file_editor
            &&& tabbed.prefer_tabbed_editor_view.current()
                == !settings.prefer_tabbed_editor_view.current()
            &&& tabbed.prefer_markdown_viewer == settings.prefer_markdown_viewer
            &&& tabbed.open_file_layout == settings.open_file_layout
            &&& tabbed.open_file_editor == settings.open_file_editor
            &&& laid.open_file_layout.current() == layout
            &&& laid.prefer_markdown_viewer == settings.prefer_markdown_viewer
            &&& laid.prefer_tabbed_editor_view == settings.prefer_tabbed_editor_view
            &&& laid.open_file_editor == settings.open_file_editor
            &&& layout_choices(layout).selected == Some(
                if layout is SplitPane {
                    "Split Pane"@
                } else {
                    "New Tab"@
                },
            )
        }),
{
}

/// The page shows the folder row and the grouping row exactly where their
/// features are on, and each switch as its setting stands.
pub proof fn page_shows_what_is_offered(settings: EditorSettings, features: PageFeatures)
    ensures
        ({
            let rows = page(settings, features);
            let folder: int = if features.open_folder_in_ide {
                1
            } else {
                0
            };
            let tabbed: int = if features.tabbed_editor_view {
                1
            } else {
                0
            };
            &&& rows.len() == 4 + folder + tabbed
            &&& rows[0].control is EditorDropdown
            &&& rows[1].control is CodePanelsDropdown
            &&& rows[2].control is LayoutDropdown
            &&& features.open_folder_in_ide ==> rows[3].control is FolderDropdown
            &&& features.tabbed_editor_view ==> rows[3 + folder].control == (
            PageControl::TabbedEditorSwitch { on: settings.prefer_tabbed_editor_view.current() })
            &&& rows.last().control == (PageControl::MarkdownSwitch {
                on: settings.prefer_markdown_viewer.current(),
            })
        }),
{
}

/// Every change is reported under its name with the value it set, and a link is
/// opened as it is.
pub proof fn changes_are_reported(
    settings: EditorSettings,
    choice: EditorChoice,
    layout: EditorLayout,
    url: Seq<char>,
)
    ensures
        consequence(settings, PageActionView::SetEditor(choice)) == (PageEffectView::Report {
            action: "SetEditor"@,
            value: choice.code_text(),
        }),
        consequence(settings, PageActionView::SetDefaultFolderEditor(choice)) == (
        PageEffectView::Report {
            action: "SetDefaultFolderEditor"@,
            value: choice.code_text(),
        }),
        consequence(settings, PageActionView::SetCodePanelsEditor(choice)) == (
        PageEffectView::Report { action: "SetCodePanelsEditor"@, value: choice.code_text() }),
        consequence(settings, PageActionView::SetLayout(layout)) == (PageEffectView::Report {
            action: "SetLayout"@,
            value: if layout is SplitPane {
                "SplitPane"@
            } else {
                "NewTab"@
            },
        }),
        ({
            let after = changed(settings, PageActionView::TogglePreferMarkdownViewer);
            consequence(settings, PageActionView::TogglePreferMarkdownViewer) == (
            PageEffectView::Report {
                action: "TogglePreferMarkdownViewer"@,
                value: if after.prefer_markdown_viewer.current() {
                    "true"@
                } else {
                    "false"@
                },
            })
        }),
        ({
            let after = changed(settings, PageActionView::ToggleTabbedEditorView);
            consequence(settings, PageActionView::ToggleTabbedEditorView) == (
            PageEffectView::Report {
                action: "ToggleTabbedEditorView"@,
                value: if after.prefer_tabbed_editor_view.current() {
                    "true"@
                } else {
                    "false"@
                },
            })
        }),
        consequence(settings, PageActionView::OpenUrl(url)) == PageEffectView::OpenUrl(url),
        changed(settings, PageActionView::OpenUrl(url)) == settings,
{
}

} // verus!
