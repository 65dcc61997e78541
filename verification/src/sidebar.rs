//! The Repositories tree: one row per entry, the selected entry's tabs under its
//! row, and the loose tabs below.
//!
//! What is computed here is what the tree shows and offers; laying it out on the
//! screen is left to whoever draws it.
use vstd::prelude::*;
use crate::actions;
use crate::actions::WorkspaceAction;
use crate::badges;
use crate::badges::{badges_for, repo_mode_badges_by_entry, RepoModeEntryBadges, TerminalGit};
use crate::entry::RepoEntryKind;
use crate::labels;
use crate::labels::{
    remote_row_state, repo_row_position_id, row_labels, RemoteRowStatus, RowLabels,
    SECONDARY_LABEL_BUDGET,
};
use crate::listing;
use crate::listing::RepoModeListEntry;
use crate::sidebar_state;
use crate::sidebar_state::{find, Keyed, RepoSidebarState, SidebarView};
use crate::paths;
use crate::tabs;
use crate::tabs::TabStrip;
use crate::text;
use crate::text::{copy_text, same_text};

verus! {

broadcast use vstd::string::group_string_axioms;

/// What goes on in the tabs of a row: whether any has its input synced with
/// others, and whether any has output nobody has looked at.
#[derive(Clone, Copy, Debug, PartialEq, Eq, Structural)]
pub struct RepoRowActivity {
    pub any_synced: bool,
    pub any_unread: bool,
}

/// Which rolled-up indicators a row shows.
#[derive(Clone, Copy, Debug, PartialEq, Eq, Structural)]
pub struct RepoRowIndicators {
    pub synced: bool,
    pub unread: bool,
}

/// The indicators of a row. An expanded row needs none, because the tabs under
/// it carry their own, and a dead row shows none. The link icon follows the
/// indicator setting and the unread dot does not, as on the tabs themselves.
pub open spec fn row_indicators(
    is_dead: bool,
    is_selected: bool,
    show_indicators: bool,
    activity: RepoRowActivity,
) -> RepoRowIndicators {
    if is_dead || is_selected {
        RepoRowIndicators { synced: false, unread: false }
    } else {
        RepoRowIndicators {
            synced: activity.any_synced && show_indicators,
            unread: activity.any_unread,
        }
    }
}

/// The indicators of a row. Expansion decides, and not whether the tabs under a
/// row happen to be hidden: they are hidden while any row is dragged, and rows
/// must not change their content in the middle of a drag.
pub fn repo_row_indicators(
    is_dead: bool,
    is_selected: bool,
    show_indicators: bool,
    activity: RepoRowActivity,
) -> (indicators: RepoRowIndicators)
    ensures
        indicators == row_indicators(is_dead, is_selected, show_indicators, activity),
{
    if is_dead || is_selected {
        return RepoRowIndicators { synced: false, unread: false };
    }
    RepoRowIndicators {
        synced: activity.any_synced && show_indicators,
        unread: activity.any_unread,
    }
}

/// Whether a row can be picked up. A key that is still being verified may turn
/// into another one, so an order written against it would name a repository that
/// is about to stop existing. A dead row's key is settled.
pub fn repo_row_is_draggable(entry: &RepoModeListEntry) -> (draggable: bool)
    ensures
        draggable == !entry@.unverified,
{
    !entry.unverified
}

/// Whether the tabs of a row show under it. They fold away while any row is
/// dragged, so that all rows have one height and the drag's midpoint rule holds.
pub fn repo_tab_block_visible(is_selected: bool, any_entry_drag_active: bool) -> (visible: bool)
    ensures
        visible == (is_selected && !any_entry_drag_active),
{
    is_selected && !any_entry_drag_active
}

/// What a click on a row does.
pub open spec fn click_action(
    is_dragging: bool,
    is_dead: bool,
    is_selected: bool,
    path: Seq<char>,
) -> Option<actions::ActionView> {
    if is_dragging || is_dead {
        None
    } else if is_selected {
        Some(actions::ActionView::SelectRepoModeAll)
    } else {
        Some(actions::ActionView::SelectRepoModeEntry(path))
    }
}

/// What a left click on the body of a row does. A row that is dragged does
/// nothing, because selecting it would open a terminal. A dead row does nothing:
/// it cannot be opened, and it is removed by its own button alone. A live row is
/// selected, or given up when it is selected already.
pub fn repo_row_click_action(is_dragging: bool, is_dead: bool, is_selected: bool, path: &str) -> (
    action: Option<WorkspaceAction>)
    ensures
        match action {
            Some(found) => click_action(is_dragging, is_dead, is_selected, path@) == Some(found@),
            None => click_action(is_dragging, is_dead, is_selected, path@) is None,
        },
{
    if is_dragging || is_dead {
        None
    } else if is_selected {
        Some(WorkspaceAction::SelectRepoModeAll)
    } else {
        Some(WorkspaceAction::SelectRepoModeEntry(path.to_owned()))
    }
}

/// A click on the body of a row destroys nothing: it selects the row's own entry
/// or everything, or it does nothing. A dragged row and a dead row do nothing.
pub proof fn row_clicks_never_remove(
    is_dragging: bool,
    is_dead: bool,
    is_selected: bool,
    path: Seq<char>,
)
    ensures
        ({
            let action = click_action(is_dragging, is_dead, is_selected, path);
            &&& action is Some ==> action->0 == actions::ActionView::SelectRepoModeAll || action->0
                == actions::ActionView::SelectRepoModeEntry(path)
            &&& is_dragging || is_dead ==> action is None
        }),
{
}

/// What the pointer does to a row that it has picked up.
#[derive(Clone, Copy, Debug, PartialEq, Eq, Structural)]
pub enum DragGesture {
    Start,
    Move,
    Drop,
}

/// The answer of a row to a gesture.
#[derive(Debug, PartialEq, Eq)]
pub struct DragResponse {
    /// What happens to the entry's drag.
    pub gesture: DragGesture,
    pub path: String,
    /// The press that the row's body recorded is forgotten. Without that, letting
    /// go would complete it into a click and select the row that was moved.
    pub clears_press: bool,
}

/// How a row answers to being dragged. A row that cannot be picked up answers
/// nothing.
pub fn row_drag_response(draggable: bool, gesture: DragGesture, path: &str) -> (response: Option<
    DragResponse,
>)
    ensures
        response is Some == draggable,
        response matches Some(made) ==> made.gesture == gesture && made.path@ == path@
            && made.clears_press == (gesture == DragGesture::Start),
{
    if !draggable {
        return None;
    }
    Some(
        DragResponse { gesture, path: path.to_owned(), clears_press: gesture == DragGesture::Start },
    )
}

/// The icon in front of a row.
#[derive(Clone, Copy, Debug, PartialEq, Eq, Structural)]
pub enum RowIcon {
    GitBranch,
    Folder,
    /// A remote entry.
    Cloud,
    /// A remote entry whose last probe failed.
    CloudOffline,
}

/// The mark that says whether a live row is expanded.
#[derive(Clone, Copy, Debug, PartialEq, Eq, Structural)]
pub enum Chevron {
    Down,
    Right,
}

/// The front of the second line, as mathematical values.
pub enum MetaLeadView {
    Branch(Seq<char>),
    Note(Seq<char>),
    Nothing,
}

/// The front of a row's second line: its branch, or a word about why a remote
/// row has none.
#[derive(Debug, PartialEq, Eq)]
pub enum MetaLead {
    Branch(String),
    Note(String),
    Nothing,
}

impl View for MetaLead {
    type V = MetaLeadView;

    open spec fn view(&self) -> MetaLeadView {
        match *self {
            MetaLead::Branch(name) => MetaLeadView::Branch(name@),
            MetaLead::Note(note) => MetaLeadView::Note(note@),
            MetaLead::Nothing => MetaLeadView::Nothing,
        }
    }
}

/// The second line, as mathematical values.
pub struct MetaLineView {
    pub lead: MetaLeadView,
    pub badges: badges::BadgesView,
}

/// The second line of a row.
#[derive(Debug, PartialEq, Eq)]
pub struct MetaLine {
    pub lead: MetaLead,
    pub badges: RepoModeEntryBadges,
}

impl View for MetaLine {
    type V = MetaLineView;

    open spec fn view(&self) -> MetaLineView {
        MetaLineView { lead: self.lead@, badges: self.badges@ }
    }
}

/// A row, as mathematical values.
pub struct EntryRowView {
    pub name: Seq<char>,
    pub secondary: Seq<char>,
    pub tooltip: Option<Seq<char>>,
    pub icon: RowIcon,
    pub dimmed: bool,
    pub chevron: Option<Chevron>,
    pub indicators: RepoRowIndicators,
    pub removable: bool,
    pub meta: Option<MetaLineView>,
}

/// A row as it is drawn.
#[derive(Debug, PartialEq, Eq)]
pub struct EntryRow {
    pub name: String,
    pub secondary: String,
    /// What hovering shows; nothing when it would repeat the secondary line.
    pub tooltip: Option<String>,
    pub icon: RowIcon,
    /// Drawn in the subdued color: a row that cannot be reached.
    pub dimmed: bool,
    /// Live rows open and close on click.
    pub chevron: Option<Chevron>,
    pub indicators: RepoRowIndicators,
    /// The row carries its own "Remove" button, as dead rows do.
    pub removable: bool,
    pub meta: Option<MetaLine>,
}

impl View for EntryRow {
    type V = EntryRowView;

    open spec fn view(&self) -> EntryRowView {
        EntryRowView {
            name: self.name@,
            secondary: self.secondary@,
            tooltip: text::text_view(self.tooltip),
            icon: self.icon,
            dimmed: self.dimmed,
            chevron: self.chevron,
            indicators: self.indicators,
            removable: self.removable,
            meta: match self.meta {
                Some(line) => Some(line@),
                None => None,
            },
        }
    }
}

/// The remote part of a row.
pub open spec fn remote_part(entry: listing::ListEntryView) -> Option<labels::RemoteRowView> {
    match entry.remote {
        Some(remote) => Some(labels::remote_row(remote, SECONDARY_LABEL_BUDGET as int)),
        None => None,
    }
}

/// The icon of a row.
pub open spec fn row_icon(entry: listing::ListEntryView) -> RowIcon {
    match remote_part(entry) {
        Some(remote) => if remote.status is Unreachable {
            RowIcon::CloudOffline
        } else {
            RowIcon::Cloud
        },
        None => match entry.kind {
            RepoEntryKind::Repo => RowIcon::GitBranch,
            RepoEntryKind::Folder => RowIcon::Folder,
        },
    }
}

/// The word a remote row without a branch owes.
pub open spec fn row_note(entry: listing::ListEntryView) -> Option<Seq<char>> {
    match remote_part(entry) {
        Some(remote) => match remote.status {
            RemoteRowStatus::Pending => Some("Connecting…"@),
            RemoteRowStatus::Ready => None,
            RemoteRowStatus::Unreachable(reason) => Some(reason.label_text()),
        },
        None => None,
    }
}

/// The strings of a row. A remote row names its machine where a local one shows
/// its path.
pub open spec fn row_texts(entry: listing::ListEntryView, friendly_path: Seq<char>) ->
    labels::RowLabelsView {
    match remote_part(entry) {
        Some(remote) => labels::labels(entry.display_name, remote.secondary, remote.tooltip),
        None => labels::labels(entry.display_name, friendly_path, entry.path),
    }
}

/// The second line of a row; a dead row has none, nor a row with nothing to say.
pub open spec fn meta_line(
    entry: listing::ListEntryView,
    branch: Option<Seq<char>>,
    shown: badges::BadgesView,
) -> Option<MetaLineView> {
    let nothing = branch is None && row_note(entry) is None && shown == badges::no_badges();
    if entry.is_dead || nothing {
        None
    } else {
        Some(
            MetaLineView {
                lead: match (branch, row_note(entry)) {
                    (Some(name), _) => MetaLeadView::Branch(name),
                    (None, Some(note)) => MetaLeadView::Note(note),
                    (None, None) => MetaLeadView::Nothing,
                },
                badges: shown,
            },
        )
    }
}

/// A row as it is drawn.
pub open spec fn entry_row(
    entry: listing::ListEntryView,
    friendly_path: Seq<char>,
    branch: Option<Seq<char>>,
    shown: badges::BadgesView,
    indicators: RepoRowIndicators,
    is_selected: bool,
) -> EntryRowView {
    let texts = row_texts(entry, friendly_path);
    EntryRowView {
        name: texts.name,
        secondary: texts.secondary,
        tooltip: if texts.hover == texts.secondary {
            None
        } else {
            Some(texts.hover)
        },
        icon: row_icon(entry),
        dimmed: entry.is_dead || row_icon(entry) == RowIcon::CloudOffline,
        chevron: if entry.is_dead {
            None
        } else if is_selected {
            Some(Chevron::Down)
        } else {
            Some(Chevron::Right)
        },
        indicators,
        removable: entry.is_dead,
        meta: meta_line(entry, branch, shown),
    }
}

/// Draw a row. `friendly_path` is the entry's path in the form shown to people,
/// and is not read for a remote entry.
pub fn render_entry_row(
    entry: &RepoModeListEntry,
    friendly_path: &str,
    branch: Option<String>,
    shown: RepoModeEntryBadges,
    indicators: RepoRowIndicators,
    is_selected: bool,
) -> (row: EntryRow)
    ensures
        row@ == entry_row(
            entry@,
            friendly_path@,
            text::text_view(branch),
            shown@,
            indicators,
            is_selected,
        ),
{
    let (secondary, hover, icon, note): (String, String, RowIcon, Option<String>) =
        match &entry.remote {
        Some(remote) => {
            let state = remote_row_state(remote, SECONDARY_LABEL_BUDGET);
            let (icon, note): (RowIcon, Option<String>) = match state.status {
                RemoteRowStatus::Pending => (RowIcon::Cloud, Some("Connecting…".to_owned())),
                RemoteRowStatus::Ready => (RowIcon::Cloud, None),
                RemoteRowStatus::Unreachable(reason) => (
                    RowIcon::CloudOffline,
                    Some(reason.short_label().to_owned()),
                ),
            };
            (state.secondary, state.tooltip, icon, note)
        },
        None => {
            let icon = match entry.kind {
                RepoEntryKind::Repo => RowIcon::GitBranch,
                RepoEntryKind::Folder => RowIcon::Folder,
            };
            (friendly_path.to_owned(), entry.path.clone(), icon, None)
        },
    };
    let RowLabels { name, secondary, hover } = row_labels(
        entry.display_name.as_str(),
        secondary,
        hover,
    );
    let offline = match icon {
        RowIcon::CloudOffline => true,
        _ => false,
    };
    let tooltip = if same_text(hover.as_str(), secondary.as_str()) {
        None
    } else {
        Some(hover)
    };
    let chevron = if entry.is_dead {
        None
    } else if is_selected {
        Some(Chevron::Down)
    } else {
        Some(Chevron::Right)
    };
    let nothing = branch.is_none() && note.is_none() && shown.diff_stats.is_none()
        && shown.pull_request_url.is_none();
    let meta = if entry.is_dead || nothing {
        None
    } else {
        let lead = match branch {
            Some(found) => MetaLead::Branch(found),
            None => match note {
                Some(word) => MetaLead::Note(word),
                None => MetaLead::Nothing,
            },
        };
        Some(MetaLine { lead, badges: shown })
    };
    EntryRow {
        name,
        secondary,
        tooltip,
        icon,
        dimmed: entry.is_dead || offline,
        chevron,
        indicators,
        removable: entry.is_dead,
        meta,
    }
}

/// A remote row that shows no branch says why, unless the host answered that the
/// entry is a folder or has none; a row is removable exactly when it is dead; a
/// row whose host could not be used is dimmed and has the offline icon.
pub proof fn rows_show_their_state(
    entry: listing::ListEntryView,
    friendly_path: Seq<char>,
    shown: badges::BadgesView,
    indicators: RepoRowIndicators,
    is_selected: bool,
)
    ensures
        ({
            let branch = match remote_part(entry) {
                Some(remote) => remote.branch,
                None => None,
            };
            let row = entry_row(entry, friendly_path, branch, shown, indicators, is_selected);
            let remote = remote_part(entry);
            &&& row.removable == entry.is_dead
            &&& row.chevron is Some == !entry.is_dead
            &&& remote is Some && (remote->0).status is Unreachable ==> row.dimmed && row.icon
                == RowIcon::CloudOffline
            &&& !entry.is_dead && remote is Some ==> match (remote->0).status {
                RemoteRowStatus::Pending => row.meta is Some && (row.meta->0).lead
                    == MetaLeadView::Note("Connecting…"@),
                RemoteRowStatus::Unreachable(reason) => row.meta is Some && (row.meta->0).lead
                    == MetaLeadView::Note(reason.label_text()),
                RemoteRowStatus::Ready => true,
            }
        }),
{
}

/// The settings that decide what rows show.
#[derive(Clone, Copy, Debug, PartialEq, Eq, Structural)]
pub struct SidebarSettings {
    pub show_diff_stats: bool,
    pub show_pr_link: bool,
    pub show_indicators: bool,
}

/// What the tree is drawn from, besides what the sidebar keeps.
#[derive(Debug)]
pub struct TreeInputs {
    /// The rows of the list, in order.
    pub entries: Vec<RepoModeListEntry>,
    /// The registry key of the selected entry.
    pub selected: Option<String>,
    pub settings: SidebarSettings,
    /// What the terminals of each tab show of git.
    pub terminals: Vec<Vec<TerminalGit>>,
    /// What goes on in each tab.
    pub activity: Vec<RepoRowActivity>,
    /// Local paths in the form shown to people, where that differs.
    pub friendly_paths: Vec<Keyed<String>>,
}

/// What the tree is drawn from, as mathematical values.
pub struct TreeView {
    pub entries: Seq<listing::ListEntryView>,
    pub strip: tabs::TabStripView,
    pub selected: Option<Seq<char>>,
    pub settings: SidebarSettings,
    /// The terminals, those of the tab used last first.
    pub terminals: Seq<badges::TerminalGitView>,
    pub activity: Seq<RepoRowActivity>,
    pub friendly_paths: Seq<(Seq<char>, String)>,
}

/// What the tree is drawn from.
pub open spec fn tree_view(inputs: TreeInputs, strip: tabs::TabStripView) -> TreeView {
    TreeView {
        entries: listing::entries_view(inputs.entries@),
        strip,
        selected: text::text_view(inputs.selected),
        settings: inputs.settings,
        terminals: badges::in_order(inputs.terminals@, strip.by_recency()),
        activity: inputs.activity@,
        friendly_paths: sidebar_state::keyed_view(inputs.friendly_paths@),
    }
}

/// What goes on in any of the tabs at `members`.
pub open spec fn rolled_up(activity: Seq<RepoRowActivity>, members: Seq<usize>) -> RepoRowActivity {
    RepoRowActivity {
        any_synced: exists|i: int|
            0 <= i < members.len() && (#[trigger] members[i]) < activity.len()
                && activity[members[i] as int].any_synced,
        any_unread: exists|i: int|
            0 <= i < members.len() && (#[trigger] members[i]) < activity.len()
                && activity[members[i] as int].any_unread,
    }
}

/// What goes on in any of the tabs at `members`.
pub fn repo_mode_activity(activity: &Vec<RepoRowActivity>, members: &Vec<usize>) -> (all:
    RepoRowActivity)
    ensures
        all == rolled_up(activity@, members@),
{
    let mut any_synced = false;
    let mut any_unread = false;
    let mut i: usize = 0;
    while i < members.len()
        invariant
            i <= members@.len(),
            any_synced == exists|j: int|
                0 <= j < i && (#[trigger] members@[j]) < activity@.len()
                    && activity@[members@[j] as int].any_synced,
            any_unread == exists|j: int|
                0 <= j < i && (#[trigger] members@[j]) < activity@.len()
                    && activity@[members@[j] as int].any_unread,
        decreases members@.len() - i,
    {
        let index = members[i];
        if index < activity.len() {
            any_synced = any_synced || activity[index].any_synced;
            any_unread = any_unread || activity[index].any_unread;
        }
        assert(members@[i as int] == index);
        i += 1;
    }
    RepoRowActivity { any_synced, any_unread }
}

/// Whether a row can have badges at all: they come from terminals in a local
/// repository.
pub open spec fn takes_badges(entry: listing::ListEntryView, settings: SidebarSettings) -> bool {
    (settings.show_diff_stats || settings.show_pr_link) && !entry.is_dead && entry.remote is None
}

/// A row of the tree, as mathematical values.
pub struct TreeRowView {
    pub key: Seq<char>,
    pub row: EntryRowView,
    pub position_id: Seq<char>,
    pub handle: u64,
    pub badge_handle: u64,
    pub remove_handle: u64,
    pub draggable: bool,
    pub dragging: bool,
    pub selected: bool,
    pub members: Option<Seq<usize>>,
}

/// A row of the tree.
#[derive(Debug)]
pub struct TreeRow {
    pub key: String,
    pub row: EntryRow,
    /// The id under which the row publishes its place, draggable or not: a row
    /// without a place would stop every drag that has to cross it.
    pub position_id: String,
    /// The interaction handles of the row's body, of its pull-request badge and
    /// of its "Remove" button.
    pub handle: u64,
    pub badge_handle: u64,
    pub remove_handle: u64,
    pub draggable: bool,
    /// Being dragged, so that its slot is drawn as a placeholder.
    pub dragging: bool,
    pub selected: bool,
    /// The tabs shown under the row, when it is expanded.
    pub members: Option<Vec<usize>>,
}

impl View for TreeRow {
    type V = TreeRowView;

    open spec fn view(&self) -> TreeRowView {
        TreeRowView {
            key: self.key@,
            row: self.row@,
            position_id: self.position_id@,
            handle: self.handle,
            badge_handle: self.badge_handle,
            remove_handle: self.remove_handle,
            draggable: self.draggable,
            dragging: self.dragging,
            selected: self.selected,
            members: match self.members {
                Some(tabs) => Some(tabs@),
                None => None,
            },
        }
    }
}

impl TreeView {
    /// The keys of the rows.
    pub open spec fn keys(self) -> Seq<Seq<char>> {
        listing::entry_keys(self.entries)
    }

    /// The badges of a row, by what is seen and by the settings.
    pub open spec fn badges(self, entry: listing::ListEntryView) -> badges::BadgesView {
        let found = if takes_badges(entry, self.settings) {
            badges::badges_of(self.terminals, entry.path)
        } else {
            None
        };
        match found {
            Some(seen) => badges::BadgesView {
                diff_stats: if self.settings.show_diff_stats {
                    seen.diff_stats
                } else {
                    None
                },
                pull_request_url: if self.settings.show_pr_link {
                    seen.pull_request_url
                } else {
                    None
                },
            },
            None => badges::no_badges(),
        }
    }

    /// The branch of a row: a remote one's by its probe, a local repository's as
    /// it was read.
    pub open spec fn branch(self, sidebar: SidebarView, entry: listing::ListEntryView) -> Option<
        Seq<char>,
    > {
        match remote_part(entry) {
            Some(remote) => remote.branch,
            None => if entry.kind == RepoEntryKind::Repo && !entry.is_dead {
                sidebar.branch(entry.path)
            } else {
                None
            },
        }
    }

    /// The path of a local row in the form shown to people.
    pub open spec fn friendly_path(self, key: Seq<char>) -> Seq<char> {
        match sidebar_state::kept_for(self.friendly_paths, key) {
            Some(path) => path@,
            None => key,
        }
    }

    /// The row of an entry, drawn when the sidebar keeps `sidebar`.
    pub open spec fn row(self, sidebar: SidebarView, entry: listing::ListEntryView) -> TreeRowView {
        let key = entry.path;
        let is_selected = self.selected == Some(key);
        let members = self.strip.members(self.keys(), key);
        TreeRowView {
            key,
            row: entry_row(
                entry,
                self.friendly_path(key),
                self.branch(sidebar, entry),
                self.badges(entry),
                row_indicators(
                    entry.is_dead,
                    is_selected,
                    self.settings.show_indicators,
                    rolled_up(self.activity, members),
                ),
                is_selected,
            ),
            position_id: labels::position_id(key),
            handle: sidebar.row_handle(key),
            badge_handle: sidebar.with_row(key).badge_handle(key),
            remove_handle: sidebar.with_row(key).with_badge(key).remove_handle(key),
            draggable: !entry.unverified,
            dragging: sidebar.dragging(key),
            selected: is_selected,
            members: if is_selected && !sidebar.any_drag() {
                Some(members)
            } else {
                None
            },
        }
    }

    /// The first `count` rows of the tree.
    pub open spec fn rows(self, sidebar: SidebarView, count: int) -> Seq<TreeRowView>
        decreases count,
    {
        if count <= 0 {
            Seq::empty()
        } else {
            self.rows(sidebar, count - 1).push(
                self.row(seen_rows(sidebar, self.keys().take(count - 1)), self.entries[count - 1]),
            )
        }
    }
}

/// What the sidebar keeps once the row of `key` was drawn.
pub open spec fn seen_row(sidebar: SidebarView, key: Seq<char>) -> SidebarView {
    let handled = sidebar.with_row(key).with_badge(key).with_remove(key);
    SidebarView {
        entry_drags: sidebar_state::put_new(handled.entry_drags, key, false),
        ..handled
    }
}

/// What the sidebar keeps once the rows of `keys` were drawn.
pub open spec fn seen_rows(sidebar: SidebarView, keys: Seq<Seq<char>>) -> SidebarView
    decreases keys.len(),
{
    if keys.len() == 0 {
        sidebar
    } else {
        seen_row(seen_rows(sidebar, keys.drop_last()), keys.last())
    }
}

/// What an empty list says.
pub const NO_REPOSITORIES_HINT: &'static str = "No repositories yet — add one with + Add";

/// The tree as it is drawn.
#[derive(Debug)]
pub struct RepoTree {
    pub rows: Vec<TreeRow>,
    /// What takes the place of the rows when there are none.
    pub hint: Option<&'static str>,
    /// The tabs of the "Other tabs" section.
    pub loose: Vec<usize>,
}

/// The rows of a tree as mathematical values.
pub open spec fn rows_view(rows: Seq<TreeRow>) -> Seq<TreeRowView> {
    rows.map_values(|row: TreeRow| row@)
}

/// Drawing a row starts and ends no drag.
proof fn lemma_seen_row_drags(sidebar: SidebarView, key: Seq<char>)
    ensures
        seen_row(sidebar, key).any_drag() == sidebar.any_drag(),
        seen_row(sidebar, key).branches == sidebar.branches,
{
    let before = sidebar.entry_drags;
    let after = seen_row(sidebar, key).entry_drags;
    assert forall|i: int| 0 <= i < before.len() implies after[i] == #[trigger] before[i] by {}
    if sidebar.any_drag() {
        let at = choose|i: int| 0 <= i < before.len() && (#[trigger] before[i]).1;
        assert(after[at].1);
    }
    if seen_row(sidebar, key).any_drag() {
        let at = choose|i: int| 0 <= i < after.len() && (#[trigger] after[i]).1;
        assert(at < before.len());
        assert(before[at].1);
    }
}

/// The local rows that badges are looked for, in order.
pub open spec fn badge_keys(entries: Seq<listing::ListEntryView>, settings: SidebarSettings) -> Seq<
    Seq<char>,
>
    decreases entries.len(),
{
    if entries.len() == 0 {
        Seq::empty()
    } else if takes_badges(entries.last(), settings) {
        badge_keys(entries.drop_last(), settings).push(entries.last().path)
    } else {
        badge_keys(entries.drop_last(), settings)
    }
}

/// The entries that badges are looked for: with both badge settings off nothing
/// reads them, and a remote or dead entry never has any.
pub fn badge_entry_paths(entries: &Vec<RepoModeListEntry>, settings: SidebarSettings) -> (paths:
    Vec<String>)
    ensures
        text::texts(paths@) == badge_keys(listing::entries_view(entries@), settings),
{
    let mut paths: Vec<String> = Vec::new();
    let ghost all = listing::entries_view(entries@);
    let mut i: usize = 0;
    assert(text::texts(paths@) =~= badge_keys(all.take(0), settings));
    while i < entries.len()
        invariant
            i <= entries@.len(),
            all == listing::entries_view(entries@),
            text::texts(paths@) == badge_keys(all.take(i as int), settings),
        decreases entries@.len() - i,
    {
        let entry = &entries[i];
        assert(all.take(i + 1).drop_last() =~= all.take(i as int));
        assert(all.take(i + 1).last() == entry@);
        if (settings.show_diff_stats || settings.show_pr_link) && !entry.is_dead
            && entry.remote.is_none() {
            let ghost before = text::texts(paths@);
            paths.push(entry.path.clone());
            assert(text::texts(paths@) =~= before.push(entry.path@));
        }
        i += 1;
    }
    assert(all.take(i as int) =~= all);
    paths
}

proof fn lemma_badge_keys(entries: Seq<listing::ListEntryView>, settings: SidebarSettings, at: int)
    requires
        0 <= at < entries.len(),
        takes_badges(entries[at], settings),
    ensures
        badge_keys(entries, settings).contains(entries[at].path),
    decreases entries.len(),
{
    let keys = badge_keys(entries, settings);
    if at == entries.len() - 1 {
        assert(keys[keys.len() - 1] == entries[at].path);
    } else {
        let init = entries.drop_last();
        lemma_badge_keys(init, settings, at);
        let found = badge_keys(init, settings).index_of(entries[at].path);
        assert(keys[found] == entries[at].path);
    }
}

/// Whether the branch of a row is read from its repository.
pub open spec fn reads_branch(entry: listing::ListEntryView) -> bool {
    entry.remote is None && entry.kind == RepoEntryKind::Repo && !entry.is_dead
}

/// The rows whose branch has to be read at `now`.
pub open spec fn unread_branches(
    sidebar: SidebarView,
    entries: Seq<listing::ListEntryView>,
    now: u64,
) -> Seq<Seq<char>>
    decreases entries.len(),
{
    if entries.len() == 0 {
        Seq::empty()
    } else {
        let before = unread_branches(sidebar, entries.drop_last(), now);
        if reads_branch(entries.last()) && sidebar.needs_branch(entries.last().path, now) {
            before.push(entries.last().path)
        } else {
            before
        }
    }
}

/// The roots whose branch has to be read before the tree is drawn: those of the
/// live local repositories that nothing fresh is known of.
pub fn branches_to_read(
    sidebar: &RepoSidebarState,
    entries: &Vec<RepoModeListEntry>,
    now: u64,
) -> (roots: Vec<String>)
    ensures
        text::texts(roots@) == unread_branches(sidebar@, listing::entries_view(entries@), now),
{
    let mut roots: Vec<String> = Vec::new();
    let ghost all = listing::entries_view(entries@);
    let mut i: usize = 0;
    assert(text::texts(roots@) =~= unread_branches(sidebar@, all.take(0), now));
    while i < entries.len()
        invariant
            i <= entries@.len(),
            all == listing::entries_view(entries@),
            text::texts(roots@) == unread_branches(sidebar@, all.take(i as int), now),
        decreases entries@.len() - i,
    {
        let entry = &entries[i];
        assert(all.take(i + 1).drop_last() =~= all.take(i as int));
        assert(all.take(i + 1).last() == entry@);
        let is_repo = match entry.kind {
            RepoEntryKind::Repo => true,
            RepoEntryKind::Folder => false,
        };
        if is_repo && !entry.is_dead && entry.remote.is_none() && sidebar.repo_branch(
            entry.path.as_str(),
            now,
        ).is_none() {
            let ghost before = text::texts(roots@);
            roots.push(entry.path.clone());
            assert(text::texts(roots@) =~= before.push(entry.path@));
        }
        i += 1;
    }
    assert(all.take(i as int) =~= all);
    roots
}

/// The row of one entry, as the sidebar keeps what it keeps before it.
fn render_tree_row(
    sidebar: &mut RepoSidebarState,
    inputs: &TreeInputs,
    at: usize,
    strip: &TabStrip,
    keys: &Vec<String>,
    partition: &tabs::TabPartition,
    found: &Vec<Keyed<RepoModeEntryBadges>>,
) -> (row: TreeRow)
    requires
        old(sidebar)@.wf(),
        old(sidebar)@.next_handle + 3 <= u64::MAX,
        at < inputs.entries@.len(),
        text::texts(keys@) == tree_view(*inputs, strip@).keys(),
        tabs::filed_once(partition.by_entry@),
        forall|entry: Seq<char>| #[trigger]
            tabs::filed(partition.by_entry@, entry) == strip@.members(text::texts(keys@), entry),
        badges::badges_listed(
            found@,
            tree_view(*inputs, strip@).terminals,
            badge_keys(tree_view(*inputs, strip@).entries, inputs.settings),
        ),
    ensures
        row@ == tree_view(*inputs, strip@).row(old(sidebar)@, inputs.entries@[at as int]@),
        final(sidebar)@ == seen_row(old(sidebar)@, inputs.entries@[at as int]@.path),
        final(sidebar)@.wf(),
        final(sidebar)@.next_handle <= old(sidebar)@.next_handle + 3,
{
    let ghost tree = tree_view(*inputs, strip@);
    let entry = &inputs.entries[at];
    let key = entry.path.as_str();
    proof {
        assert(tree.entries[at as int] == entry@);
        assert(tree.keys()[at as int] == key@);
    }
    let any_drag = sidebar.any_entry_drag_active();
    let branch = match &entry.remote {
        Some(remote) => remote_row_state(remote, SECONDARY_LABEL_BUDGET).branch,
        None => match entry.kind {
            RepoEntryKind::Repo => if entry.is_dead {
                None
            } else {
                sidebar.last_branch(key)
            },
            RepoEntryKind::Folder => None,
        },
    };
    let handle = sidebar.entry_row_mouse(key);
    let badge_handle = sidebar.pr_badge_mouse(key);
    let remove_handle = sidebar.remove_button_mouse(key);
    let dragging = sidebar.entry_drag(key);
    let is_selected = match &inputs.selected {
        Some(selected) => same_text(selected.as_str(), key),
        None => false,
    };
    let members = partition.members(key);
    assert(members@ == strip@.members(tree.keys(), key@));
    let settings = inputs.settings;
    let seen = badges_for(found, key);
    proof {
        let wanted = badge_keys(tree.entries, settings);
        assert(badges::kept_badges(found@, key@) == (if paths::lists(wanted, key@) {
            badges::badges_of(tree.terminals, key@)
        } else {
            None
        }));
        if takes_badges(entry@, settings) {
            lemma_badge_keys(tree.entries, settings, at as int);
            let k = choose|k: int| 0 <= k < wanted.len() && wanted[k] == key@;
            assert(paths::all_parts(wanted)[k] == paths::parts(key@));
        }
    }
    let mut shown = RepoModeEntryBadges::default();
    if (settings.show_diff_stats || settings.show_pr_link) && !entry.is_dead
        && entry.remote.is_none() {
        if let Some(kept) = seen {
            if settings.show_diff_stats {
                shown.diff_stats = kept.diff_stats;
            }
            if settings.show_pr_link {
                shown.pull_request_url = copy_text(&kept.pull_request_url);
            }
        }
    }
    assert(shown@ == tree.badges(entry@));
    let indicators = repo_row_indicators(
        entry.is_dead,
        is_selected,
        settings.show_indicators,
        repo_mode_activity(&inputs.activity, &members),
    );
    let friendly_at = find(&inputs.friendly_paths, key);
    let friendly_path = if friendly_at < inputs.friendly_paths.len() {
        inputs.friendly_paths[friendly_at].value.as_str()
    } else {
        key
    };
    let row = render_entry_row(entry, friendly_path, branch, shown, indicators, is_selected);
    TreeRow {
        key: entry.path.clone(),
        row,
        position_id: repo_row_position_id(key),
        handle,
        badge_handle,
        remove_handle,
        draggable: repo_row_is_draggable(entry),
        dragging,
        selected: is_selected,
        members: if repo_tab_block_visible(is_selected, any_drag) {
            Some(members)
        } else {
            None
        },
    }
}

fn keys_of(entries: &Vec<RepoModeListEntry>) -> (keys: Vec<String>)
    ensures
        text::texts(keys@) == listing::entry_keys(listing::entries_view(entries@)),
{
    let mut keys: Vec<String> = Vec::new();
    let mut i: usize = 0;
    while i < entries.len()
        invariant
            i <= entries@.len(),
            keys@.len() == i,
            forall|j: int| 0 <= j < i ==> keys@[j]@ == entries@[j].path@,
        decreases entries@.len() - i,
    {
        keys.push(entries[i].path.clone());
        i += 1;
    }
    assert(text::texts(keys@) =~= listing::entry_keys(listing::entries_view(entries@)));
    keys
}

/// Draw the tree: a row per entry, in list order, with the selected entry's tabs
/// under its row, then the tabs that belong to no entry. What the sidebar kept
/// for rows that are gone is dropped.
pub fn render_repo_tree(sidebar: &mut RepoSidebarState, inputs: &TreeInputs, strip: &TabStrip) -> (
    tree: RepoTree)
    requires
        old(sidebar)@.wf(),
        old(sidebar)@.next_handle + 3 * inputs.entries@.len() <= u64::MAX,
    ensures
        ({
            let view = tree_view(*inputs, strip@);
            &&& rows_view(tree.rows@) == view.rows(old(sidebar)@, view.entries.len() as int)
            &&& tree.hint is Some == (view.entries.len() == 0)
            &&& tree.hint matches Some(hint) ==> hint@ == NO_REPOSITORIES_HINT@
            &&& tree.loose@ == strip@.loose(view.keys())
            &&& final(sidebar)@ == seen_rows(old(sidebar)@, view.keys()).pruned_to(view.keys())
            &&& final(sidebar)@.wf()
        }),
{
    let ghost view = tree_view(*inputs, strip@);
    let ghost start = sidebar@;
    let keys = keys_of(&inputs.entries);
    let partition = strip.repo_mode_tab_partition(&keys);
    let badge_paths = badge_entry_paths(&inputs.entries, inputs.settings);
    let found = repo_mode_badges_by_entry(strip, &inputs.terminals, &badge_paths);
    let mut rows: Vec<TreeRow> = Vec::new();
    let mut i: usize = 0;
    assert(rows_view(rows@) =~= view.rows(start, 0));
    assert(view.keys().take(0) =~= Seq::empty());
    while i < inputs.entries.len()
        invariant
            i <= inputs.entries@.len(),
            view == tree_view(*inputs, strip@),
            start.next_handle + 3 * inputs.entries@.len() <= u64::MAX,
            sidebar@.wf(),
            sidebar@ == seen_rows(start, view.keys().take(i as int)),
            sidebar@.next_handle <= start.next_handle + 3 * i,
            rows_view(rows@) == view.rows(start, i as int),
            text::texts(keys@) == view.keys(),
            tabs::filed_once(partition.by_entry@),
            forall|entry: Seq<char>| #[trigger]
                tabs::filed(partition.by_entry@, entry) == strip@.members(text::texts(keys@), entry),
            badges::badges_listed(
                found@,
                view.terminals,
                badge_keys(view.entries, inputs.settings),
            ),
        decreases inputs.entries@.len() - i,
    {
        let ghost before = rows_view(rows@);
        let row = render_tree_row(sidebar, inputs, i, strip, &keys, &partition, &found);
        let ghost added = row@;
        rows.push(row);
        proof {
            assert(view.keys().take(i + 1).drop_last() =~= view.keys().take(i as int));
            assert(view.keys().take(i + 1).last() == inputs.entries@[i as int]@.path);
            assert(view.entries[i as int] == inputs.entries@[i as int]@);
            assert(rows_view(rows@) =~= before.push(added));
        }
        i += 1;
    }
    assert(view.keys().take(i as int) =~= view.keys());
    sidebar.prune_to(&keys);
    let hint = if inputs.entries.len() == 0 {
        Some(NO_REPOSITORIES_HINT)
    } else {
        None
    };
    RepoTree { rows, hint, loose: partition.loose }
}

/// The tree has exactly the rows of the list, in its order.
pub proof fn tree_lists_every_entry(tree: TreeView, sidebar: SidebarView, count: int)
    requires
        0 <= count <= tree.entries.len(),
    ensures
        tree.rows(sidebar, count).len() == count,
        forall|i: int|
            0 <= i < count ==> (#[trigger] tree.rows(sidebar, count)[i]).key == tree.keys()[i],
    decreases count,
{
    if count > 0 {
        tree_lists_every_entry(tree, sidebar, count - 1);
        let before = tree.rows(sidebar, count - 1);
        assert forall|i: int| 0 <= i < count implies (#[trigger] tree.rows(sidebar, count)[i]).key
            == tree.keys()[i] by {
            if i < count - 1 {
                assert(tree.rows(sidebar, count)[i] == before[i]);
            }
        }
    }
}

proof fn lemma_seen_rows_drags(sidebar: SidebarView, keys: Seq<Seq<char>>)
    ensures
        seen_rows(sidebar, keys).any_drag() == sidebar.any_drag(),
    decreases keys.len(),
{
    if keys.len() > 0 {
        lemma_seen_rows_drags(sidebar, keys.drop_last());
        lemma_seen_row_drags(seen_rows(sidebar, keys.drop_last()), keys.last());
    }
}

/// While any row is dragged no row shows its tabs; otherwise the selected row
/// does and no other.
pub proof fn tabs_fold_away_during_a_drag(tree: TreeView, sidebar: SidebarView, count: int)
    requires
        0 <= count <= tree.entries.len(),
    ensures
        forall|i: int|
            0 <= i < count ==> (#[trigger] tree.rows(sidebar, count)[i]).members is Some == (
            !sidebar.any_drag() && tree.selected == Some(tree.rows(sidebar, count)[i].key)),
    decreases count,
{
    if count > 0 {
        tabs_fold_away_during_a_drag(tree, sidebar, count - 1);
        tree_lists_every_entry(tree, sidebar, count - 1);
        lemma_seen_rows_drags(sidebar, tree.keys().take(count - 1));
        let before = tree.rows(sidebar, count - 1);
        assert forall|i: int| 0 <= i < count implies (
        #[trigger] tree.rows(sidebar, count)[i]).members is Some == (!sidebar.any_drag()
            && tree.selected == Some(tree.rows(sidebar, count)[i].key)) by {
            if i < count - 1 {
                assert(tree.rows(sidebar, count)[i] == before[i]);
            }
        }
    }
}

/// No tab is shown twice: one that shows under a row is not among the loose
/// tabs, and it shows under no other row.
pub proof fn no_tab_shows_twice(tree: TreeView, key: Seq<char>, other: Seq<char>, tab: usize)
    requires
        tree.strip.tabs.len() <= usize::MAX,
        tree.strip.members(tree.keys(), key).contains(tab),
    ensures
        !tree.strip.loose(tree.keys()).contains(tab),
        !paths::same_path(key, other) ==> !tree.strip.members(tree.keys(), other).contains(tab),
{
    let keys = tree.keys();
    let strip = tree.strip;
    let count = strip.tabs.len() as int;
    tabs::lemma_indices_where(count, |i: int| strip.belongs(keys, i, key));
    tabs::lemma_indices_where(count, |i: int| strip.belongs(keys, i, other));
    tabs::lemma_indices_where(count, |i: int| strip.owner(keys, i) is None);
}

/// What drawing earlier rows leaves as it was.
proof fn lemma_seen_rows_keep(sidebar: SidebarView, keys: Seq<Seq<char>>, key: Seq<char>)
    ensures
        seen_rows(sidebar, keys).any_drag() == sidebar.any_drag(),
        seen_rows(sidebar, keys).branches == sidebar.branches,
        seen_rows(sidebar, keys).dragging(key) == sidebar.dragging(key),
    decreases keys.len(),
{
    if keys.len() > 0 {
        let before = seen_rows(sidebar, keys.drop_last());
        lemma_seen_rows_keep(sidebar, keys.drop_last(), key);
        lemma_seen_row_drags(before, keys.last());
        sidebar_state::lemma_slot(before.entry_drags, keys.last());
        sidebar_state::lemma_slot(before.entry_drags, key);
        let after = seen_row(before, keys.last()).entry_drags;
        sidebar_state::lemma_slot(after, key);
        if sidebar_state::slot(before.entry_drags, keys.last()) >= before.entry_drags.len() {
            let at = sidebar_state::slot(before.entry_drags, key);
            assert(after == before.entry_drags.push((keys.last(), false)));
            if at < before.entry_drags.len() {
                sidebar_state::lemma_slot_is(after, key, at);
            } else if keys.last() == key {
                sidebar_state::lemma_slot_is(after, key, at);
            } else {
                sidebar_state::lemma_slot_is(after, key, at + 1);
            }
        }
    }
}

proof fn lemma_tree_row(tree: TreeView, sidebar: SidebarView, count: int, i: int)
    requires
        0 <= i < count <= tree.entries.len(),
    ensures
        tree.rows(sidebar, count).len() == count,
        tree.rows(sidebar, count)[i] == tree.row(
            seen_rows(sidebar, tree.keys().take(i)),
            tree.entries[i],
        ),
    decreases count,
{
    tree_lists_every_entry(tree, sidebar, count);
    tree_lists_every_entry(tree, sidebar, count - 1);
    if i < count - 1 {
        lemma_tree_row(tree, sidebar, count - 1, i);
    }
}

/// A row of the tree stands for its entry: it is selected when its entry is, it
/// can be dragged unless it is still being verified, it can be removed when its
/// entry is dead, and it unfolds the tabs of its entry while it is selected and
/// no row is dragged.
pub proof fn tree_rows_stand_for_their_entries(
    tree: TreeView,
    sidebar: SidebarView,
    count: int,
    i: int,
)
    requires
        0 <= i < count <= tree.entries.len(),
    ensures
        ({
            let row = tree.rows(sidebar, count)[i];
            let entry = tree.entries[i];
            let chosen = tree.selected == Some(entry.path);
            let members = tree.strip.members(listing::entry_keys(tree.entries), entry.path);
            &&& row.key == entry.path
            &&& row.selected == chosen
            &&& row.draggable == !entry.unverified
            &&& row.dragging == sidebar.dragging(entry.path)
            &&& row.row.removable == entry.is_dead
            &&& row.row.chevron == (if entry.is_dead {
                None
            } else if chosen {
                Some(Chevron::Down)
            } else {
                Some(Chevron::Right)
            })
            &&& row.members == (if chosen && !sidebar.any_drag() {
                Some(members)
            } else {
                None
            })
            &&& row.row.dimmed == (entry.is_dead || (entry.remote is Some
                && entry.remote->0.probe is Failed))
            &&& row.row.icon == (match entry.remote {
                Some(remote) => if remote.probe is Failed {
                    RowIcon::CloudOffline
                } else {
                    RowIcon::Cloud
                },
                None => if entry.kind is Repo {
                    RowIcon::GitBranch
                } else {
                    RowIcon::Folder
                },
            })
        }),
{
    lemma_tree_row(tree, sidebar, count, i);
    lemma_seen_rows_keep(sidebar, tree.keys().take(i), tree.entries[i].path);
}

/// A row marks what its tabs have to tell: that one of them is unread, and, where
/// indicators are shown, that one of them is synced. The selected row and a dead
/// one mark nothing.
pub proof fn rows_mark_their_tabs(tree: TreeView, sidebar: SidebarView, count: int, i: int)
    requires
        0 <= i < count <= tree.entries.len(),
    ensures
        ({
            let marks = tree.rows(sidebar, count)[i].row.indicators;
            let entry = tree.entries[i];
            let members = tree.strip.members(listing::entry_keys(tree.entries), entry.path);
            let quiet = entry.is_dead || tree.selected == Some(entry.path);
            &&& marks.unread <==> !quiet && exists|m: int|
                0 <= m < members.len() && (#[trigger] members[m]) < tree.activity.len()
                    && tree.activity[members[m] as int].any_unread
            &&& marks.synced <==> !quiet && tree.settings.show_indicators && exists|m: int|
                0 <= m < members.len() && (#[trigger] members[m]) < tree.activity.len()
                    && tree.activity[members[m] as int].any_synced
        }),
{
    lemma_tree_row(tree, sidebar, count, i);
}

/// Below its name a live row shows its branch: the one last read for a local
/// repository, the one last probed for a remote one, and none for a folder.
/// Without a branch it shows how the connection stands, and it shows nothing
/// where there is nothing to show.
pub proof fn rows_show_their_branch(tree: TreeView, sidebar: SidebarView, count: int, i: int)
    requires
        0 <= i < count <= tree.entries.len(),
    ensures
        ({
            let meta = tree.rows(sidebar, count)[i].row.meta;
            let entry = tree.entries[i];
            let branch = match entry.remote {
                Some(remote) => match remote.probe {
                    crate::probe::ProbeStateView::Resolved { kind, branch } => if kind is Repo {
                        branch
                    } else {
                        None
                    },
                    _ => None,
                },
                None => if entry.kind is Repo {
                    sidebar.branch(entry.path)
                } else {
                    None
                },
            };
            &&& entry.is_dead ==> meta is None
            &&& !entry.is_dead && branch is Some ==> meta is Some && meta->0.lead
                == MetaLeadView::Branch(branch->0)
            &&& !entry.is_dead && branch is None && entry.remote is Some ==> match (
            entry.remote->0).probe {
                crate::probe::ProbeStateView::Pending => meta is Some && meta->0.lead
                    == MetaLeadView::Note("Connecting…"@),
                crate::probe::ProbeStateView::Failed { reason } => meta is Some && meta->0.lead
                    == MetaLeadView::Note(reason.label_text()),
                crate::probe::ProbeStateView::Resolved { .. } => meta is None,
            }
            &&& meta is Some ==> meta->0.badges == tree.badges(entry)
            &&& !entry.is_dead && (tree.badges(entry).diff_stats is Some || tree.badges(
                entry,
            ).pull_request_url is Some) ==> meta is Some
            &&& branch is None && entry.remote is None && tree.badges(entry).diff_stats is None
                && tree.badges(entry).pull_request_url is None ==> meta is None
        }),
{
    lemma_tree_row(tree, sidebar, count, i);
    lemma_seen_rows_keep(sidebar, tree.keys().take(i), tree.entries[i].path);
}

/// A row shows the badges its settings ask for: the changes and the pull request
/// that the terminals in its repository know, each only where it is switched on,
/// and none on a dead row or a remote one.
pub proof fn badges_follow_the_settings(tree: TreeView, entry: listing::ListEntryView)
    ensures
        ({
            let shown = tree.badges(entry);
            let known = badges::badges_of(tree.terminals, entry.path);
            let local = !entry.is_dead && entry.remote is None;
            &&& shown.diff_stats == (if local && tree.settings.show_diff_stats && known is Some {
                known->0.diff_stats
            } else {
                None
            })
            &&& shown.pull_request_url == (if local && tree.settings.show_pr_link
                && known is Some {
                known->0.pull_request_url
            } else {
                None
            })
        }),
{
}

/// The branches to read are those of the local repositories that are there and
/// whose branch is not known or has grown old.
pub proof fn stale_branches_are_read(
    sidebar: SidebarView,
    entries: Seq<listing::ListEntryView>,
    entry: listing::ListEntryView,
    now: u64,
)
    ensures
        unread_branches(sidebar, Seq::empty(), now) == Seq::<Seq<char>>::empty(),
        unread_branches(sidebar, entries.push(entry), now) == (if entry.remote is None
            && entry.kind is Repo && !entry.is_dead && sidebar.needs_branch(entry.path, now) {
            unread_branches(sidebar, entries, now).push(entry.path)
        } else {
            unread_branches(sidebar, entries, now)
        }),
{
    assert(entries.push(entry).drop_last() =~= entries);
}

/// A click selects the row, and on the selected row it selects all; a click that
/// ends a drag, or on a dead row, does nothing.
pub proof fn clicks_select_and_deselect(
    is_dragging: bool,
    is_dead: bool,
    is_selected: bool,
    path: Seq<char>,
)
    ensures
        click_action(is_dragging, is_dead, is_selected, path) == (match (
            is_dragging || is_dead,
            is_selected,
        ) {
            (true, _) => None,
            (false, true) => Some(actions::ActionView::SelectRepoModeAll),
            (false, false) => Some(actions::ActionView::SelectRepoModeEntry(path)),
        }),
{
}

/// A row is named after its entry. A local one shows its path, the friendly way
/// where there is one, and its whole path on hovering; a remote one shows where
/// it connects to. Where hovering would show no more than the row does, it shows
/// nothing.
pub proof fn rows_name_their_entry(tree: TreeView, sidebar: SidebarView, count: int, i: int)
    requires
        0 <= i < count <= tree.entries.len(),
    ensures
        ({
            let row = tree.rows(sidebar, count)[i].row;
            let entry = tree.entries[i];
            let friendly = tree.friendly_path(entry.path);
            &&& entry.display_name.len() <= 23 ==> row.name == entry.display_name
            &&& entry.remote is None && friendly.len() <= 28 ==> row.secondary == friendly
            &&& entry.remote is None && entry.display_name.len() <= 23 && friendly.len() <= 28
                ==> row.tooltip == (if entry.path == friendly {
                None
            } else {
                Some(entry.path)
            })
            &&& entry.remote matches Some(remote) ==> {
                let place = remote.target.user + seq!['@'] + remote.target.server;
                place.len() <= 28 ==> row.secondary == place && (remote.probe is Resolved
                    && entry.display_name.len() <= 23 ==> row.tooltip is None)
            }
        }),
{
    lemma_tree_row(tree, sidebar, count, i);
    let entry = tree.entries[i];
    let friendly = tree.friendly_path(entry.path);
    match remote_part(entry) {
        Some(remote) => {
            labels::hovering_shows_the_whole_name(
                entry.display_name,
                remote.secondary,
                remote.tooltip,
            );
            labels::remote_rows_show_the_probe(entry.remote->0, 28);
        },
        None => {
            labels::hovering_shows_the_whole_name(entry.display_name, friendly, entry.path);
        },
    }
}

/// The friendly way to write a path is the one given for it, and otherwise the
/// path itself.
pub proof fn friendly_paths_are_looked_up(tree: TreeView, key: Seq<char>, at: int)
    requires
        0 <= at <= tree.friendly_paths.len(),
        at < tree.friendly_paths.len() ==> tree.friendly_paths[at].0 == key,
        forall|j: int| 0 <= j < at ==> (#[trigger] tree.friendly_paths[j]).0 != key,
    ensures
        tree.friendly_path(key) == (if at < tree.friendly_paths.len() {
            tree.friendly_paths[at].1@
        } else {
            key
        }),
{
    sidebar_state::lemma_slot_is(tree.friendly_paths, key, at);
}

/// The tree takes a row's changes from the terminal touched last: the tabs are
/// taken in the order of use, and the first terminal in the repository that knows
/// its changes is the one that counts.
pub proof fn tree_shows_the_terminal_touched_last(
    inputs: TreeInputs,
    strip: tabs::TabStripView,
    entry: listing::ListEntryView,
    k: int,
    j: int,
)
    requires
        inputs.settings.show_diff_stats,
        !entry.is_dead,
        entry.remote is None,
        0 <= k < strip.by_recency().len(),
        strip.by_recency()[k] < inputs.terminals@.len(),
        0 <= j < inputs.terminals@[strip.by_recency()[k] as int]@.len(),
        inputs.terminals@[strip.by_recency()[k] as int]@[j].diff_stats is Some,
        inputs.terminals@[strip.by_recency()[k] as int]@[j].repo_path matches Some(repo)
            && paths::same_path(repo@, entry.path),
        forall|a: int, b: int|
            #![trigger inputs.terminals@[strip.by_recency()[a] as int]@[b]]
            (0 <= a < k || a == k && b < j) && strip.by_recency()[a] < inputs.terminals@.len() && 0
                <= b < inputs.terminals@[strip.by_recency()[a] as int]@.len() ==> {
                let seen = inputs.terminals@[strip.by_recency()[a] as int]@[b];
                ||| seen.diff_stats is None
                ||| seen.repo_path is None
                ||| !paths::same_path(seen.repo_path->0@, entry.path)
            },
    ensures
        tree_view(inputs, strip).badges(entry).diff_stats
            == inputs.terminals@[strip.by_recency()[k] as int]@[j].diff_stats,
{
    badges::changes_come_from_the_terminal_touched_last(
        inputs.terminals@,
        strip.by_recency(),
        entry.path,
        k,
        j,
    );
    badges_follow_the_settings(tree_view(inputs, strip), entry);
}

/// Badges are looked up for the rows that show some, in their order: the local
/// ones that are there, where either badge is switched on.
pub proof fn badges_are_looked_up_where_they_show(
    entries: Seq<listing::ListEntryView>,
    entry: listing::ListEntryView,
    settings: SidebarSettings,
)
    ensures
        badge_keys(Seq::empty(), settings) == Seq::<Seq<char>>::empty(),
        badge_keys(entries.push(entry), settings) == (if (settings.show_diff_stats
            || settings.show_pr_link) && !entry.is_dead && entry.remote is None {
            badge_keys(entries, settings).push(entry.path)
        } else {
            badge_keys(entries, settings)
        }),
{
    assert(entries.push(entry).drop_last() =~= entries);
}

} // verus!
