//! The commands of repo mode, the menus that offer them, and the tabs they
//! open.
use vstd::prelude::*;
use crate::editors::Editor;
use crate::entry::RemoteTarget;
use crate::listing;
use crate::listing::RepoModeListEntry;
use crate::probe;
use crate::probe::{remote_cd_command, remote_ssh_command, remote_ssh_command_landing_in_path};
use crate::projects;
use crate::projects::ProjectManagementModel;
use crate::text;
use crate::text::copy_text;

verus! {

broadcast use vstd::string::group_string_axioms;

/// A command, as mathematical values.
pub enum ActionView {
    AddLocalRepositoryOrFolder,
    AddRemoteRepositoryOrFolder,
    RemoveRepoModeEntry(Seq<char>),
    SelectRepoModeEntry(Seq<char>),
    SelectRepoModeAll,
    NewRepoModeLooseTab,
    ResetRepoModeOrder,
    OpenCurrentFolderIn(Editor),
    RevealCurrentFolder,
}

/// What the menus, the buttons and the rows of the sidebar ask of the
/// workspace. An entry is named by its registry key.
#[derive(Debug, PartialEq, Eq)]
pub enum WorkspaceAction {
    AddLocalRepositoryOrFolder,
    AddRemoteRepositoryOrFolder,
    RemoveRepoModeEntry(String),
    SelectRepoModeEntry(String),
    SelectRepoModeAll,
    NewRepoModeLooseTab,
    ResetRepoModeOrder,
    OpenCurrentFolderIn(Editor),
    RevealCurrentFolder,
}

impl View for WorkspaceAction {
    type V = ActionView;

    open spec fn view(&self) -> ActionView {
        match *self {
            WorkspaceAction::AddLocalRepositoryOrFolder => ActionView::AddLocalRepositoryOrFolder,
            WorkspaceAction::AddRemoteRepositoryOrFolder => ActionView::AddRemoteRepositoryOrFolder,
            WorkspaceAction::RemoveRepoModeEntry(key) => ActionView::RemoveRepoModeEntry(key@),
            WorkspaceAction::SelectRepoModeEntry(key) => ActionView::SelectRepoModeEntry(key@),
            WorkspaceAction::SelectRepoModeAll => ActionView::SelectRepoModeAll,
            WorkspaceAction::NewRepoModeLooseTab => ActionView::NewRepoModeLooseTab,
            WorkspaceAction::ResetRepoModeOrder => ActionView::ResetRepoModeOrder,
            WorkspaceAction::OpenCurrentFolderIn(editor) => ActionView::OpenCurrentFolderIn(editor),
            WorkspaceAction::RevealCurrentFolder => ActionView::RevealCurrentFolder,
        }
    }
}

impl ActionView {
    /// A command that registers, selects or removes an entry, or opens a tab,
    /// changes what a restart has to restore.
    pub open spec fn saves_app_state(self) -> bool {
        match self {
            ActionView::ResetRepoModeOrder => false,
            ActionView::OpenCurrentFolderIn(_) => false,
            ActionView::RevealCurrentFolder => false,
            _ => true,
        }
    }
}

impl WorkspaceAction {
    /// Whether the application saves its state after the command. The manual
    /// order is kept by the registry, which saves it on its own, and opening a
    /// folder elsewhere changes nothing here.
    pub fn should_save_app_state_on_action(&self) -> (saves: bool)
        ensures
            saves == self@.saves_app_state(),
    {
        match self {
            WorkspaceAction::ResetRepoModeOrder => false,
            WorkspaceAction::OpenCurrentFolderIn(_) => false,
            WorkspaceAction::RevealCurrentFolder => false,
            _ => true,
        }
    }
}

/// A menu row as a mathematical value.
pub open spec fn item_view(item: (&'static str, WorkspaceAction)) -> (Seq<char>, ActionView) {
    (item.0@, item.1@)
}

/// A menu row or a separator as a mathematical value.
pub open spec fn row_view(row: Option<(&'static str, WorkspaceAction)>) -> Option<
    (Seq<char>, ActionView),
> {
    match row {
        Some(item) => Some(item_view(item)),
        None => None,
    }
}

/// The two ways to add an entry.
pub open spec fn add_menu() -> Seq<(Seq<char>, ActionView)> {
    seq![
        ("Local Repository or Folder…"@, ActionView::AddLocalRepositoryOrFolder),
        ("Remote Repository or Folder…"@, ActionView::AddRemoteRepositoryOrFolder),
    ]
}

/// The rows of the "+ Add" menu: one control, two destinations.
pub fn repo_mode_add_menu_entries() -> (items: Vec<(&'static str, WorkspaceAction)>)
    ensures
        items@.map_values(|i: (&'static str, WorkspaceAction)| item_view(i)) == add_menu(),
{
    let mut items: Vec<(&'static str, WorkspaceAction)> = Vec::new();
    items.push(("Local Repository or Folder…", WorkspaceAction::AddLocalRepositoryOrFolder));
    items.push(("Remote Repository or Folder…", WorkspaceAction::AddRemoteRepositoryOrFolder));
    assert(items@.map_values(|i: (&'static str, WorkspaceAction)| item_view(i)) =~= add_menu());
    items
}

/// The menu of the row of `key`; `None` is a separator.
pub open spec fn entry_menu(key: Seq<char>, has_manual_order: bool) -> Seq<
    Option<(Seq<char>, ActionView)>,
> {
    let remove = Some(("Remove from Repositories"@, ActionView::RemoveRepoModeEntry(key)));
    if has_manual_order {
        seq![remove, None, Some(("Reset order"@, ActionView::ResetRepoModeOrder))]
    } else {
        seq![remove]
    }
}

/// The rows of a repository row's own menu, in order; `None` is a separator.
/// "Reset order" appears only once there is an order to reset.
pub fn repo_mode_entry_menu_entries(path: &str, has_manual_order: bool) -> (rows: Vec<
    Option<(&'static str, WorkspaceAction)>,
>)
    ensures
        rows@.map_values(|r: Option<(&'static str, WorkspaceAction)>| row_view(r)) == entry_menu(
            path@,
            has_manual_order,
        ),
{
    let mut rows: Vec<Option<(&'static str, WorkspaceAction)>> = Vec::new();
    rows.push(
        Some(("Remove from Repositories", WorkspaceAction::RemoveRepoModeEntry(path.to_owned()))),
    );
    if has_manual_order {
        rows.push(None);
        rows.push(Some(("Reset order", WorkspaceAction::ResetRepoModeOrder)));
    }
    assert(rows@.map_values(|r: Option<(&'static str, WorkspaceAction)>| row_view(r))
        =~= entry_menu(path@, has_manual_order));
    rows
}

/// The picker's rows for the entries that can be opened.
pub open spec fn picker_rows(entries: Seq<listing::ListEntryView>) -> Seq<(Seq<char>, ActionView)>
    decreases entries.len(),
{
    if entries.len() == 0 {
        seq![("All"@, ActionView::SelectRepoModeAll)]
    } else {
        let before = picker_rows(entries.drop_last());
        let last = entries.last();
        if last.is_dead {
            before
        } else {
            before.push((last.display_name, ActionView::SelectRepoModeEntry(last.path)))
        }
    }
}

/// A picker row as a mathematical value.
pub open spec fn pick_view(item: (String, WorkspaceAction)) -> (Seq<char>, ActionView) {
    (item.0@, item.1@)
}

/// The rows of the picker that switches repositories while the panel is closed:
/// "All", then every entry that is not dead, in list order.
pub fn repo_mode_picker_entries(entries: &Vec<RepoModeListEntry>) -> (items: Vec<
    (String, WorkspaceAction),
>)
    ensures
        items@.map_values(|i: (String, WorkspaceAction)| pick_view(i)) == picker_rows(
            listing::entries_view(entries@),
        ),
{
    let mut items: Vec<(String, WorkspaceAction)> = Vec::new();
    items.push(("All".to_owned(), WorkspaceAction::SelectRepoModeAll));
    let ghost all = listing::entries_view(entries@);
    let ghost mut shown = picker_rows(all.take(0));
    assert(items@.map_values(|i: (String, WorkspaceAction)| pick_view(i)) =~= shown);
    let mut i: usize = 0;
    while i < entries.len()
        invariant
            i <= entries@.len(),
            all == listing::entries_view(entries@),
            shown == picker_rows(all.take(i as int)),
            items@.map_values(|i: (String, WorkspaceAction)| pick_view(i)) == shown,
        decreases entries@.len() - i,
    {
        let entry = &entries[i];
        assert(all.take(i + 1).drop_last() =~= all.take(i as int));
        assert(all.take(i + 1).last() == entry@);
        if !entry.is_dead {
            let item = (
                entry.display_name.clone(),
                WorkspaceAction::SelectRepoModeEntry(entry.path.clone()),
            );
            let ghost added = pick_view(item);
            items.push(item);
            proof {
                shown = shown.push(added);
            }
            assert(items@.map_values(|i: (String, WorkspaceAction)| pick_view(i)) =~= shown);
        }
        i += 1;
    }
    assert(all.take(i as int) =~= all);
    items
}

/// Which of the menus that share one popup is open.
#[derive(Clone, Copy, Debug, PartialEq, Eq, Structural)]
pub struct OpenMenus {
    pub tab: bool,
    pub tab_group: bool,
    pub repo_mode: bool,
}

impl OpenMenus {
    /// Whether asking for a repo-mode menu opens one: it does unless one is
    /// open already, and never with repo mode off.
    pub open spec fn opens(self, enabled: bool) -> bool {
        enabled && !self.repo_mode
    }

    /// The menus after a repo-mode menu was asked for. One that is open closes;
    /// opening one closes the others.
    pub open spec fn toggled(self, enabled: bool) -> OpenMenus {
        if !enabled {
            self
        } else if self.repo_mode {
            OpenMenus { repo_mode: false, ..self }
        } else {
            OpenMenus { tab: false, tab_group: false, repo_mode: true }
        }
    }

    fn toggle(&mut self, enabled: bool) -> (opened: bool)
        ensures
            opened == old(self).opens(enabled),
            *final(self) == old(self).toggled(enabled),
    {
        if !enabled {
            return false;
        }
        if self.repo_mode {
            self.repo_mode = false;
            return false;
        }
        self.tab = false;
        self.tab_group = false;
        self.repo_mode = true;
        true
    }

    /// Open the "+ Add" menu, or close the open repo-mode menu; the rows to show
    /// when it opens.
    pub fn toggle_repo_mode_add_menu(&mut self, enabled: bool) -> (items: Option<
        Vec<(&'static str, WorkspaceAction)>,
    >)
        ensures
            *final(self) == old(self).toggled(enabled),
            items is Some == old(self).opens(enabled),
            items matches Some(shown) ==> shown@.map_values(
                |i: (&'static str, WorkspaceAction)| item_view(i),
            ) == add_menu(),
    {
        if self.toggle(enabled) {
            Some(repo_mode_add_menu_entries())
        } else {
            None
        }
    }

    /// Open the menu of the row of `path`, or close the open repo-mode menu; the
    /// rows to show when it opens.
    pub fn toggle_repo_mode_entry_menu(
        &mut self,
        enabled: bool,
        path: &str,
        registry: &ProjectManagementModel,
    ) -> (rows: Option<Vec<Option<(&'static str, WorkspaceAction)>>>)
        ensures
            *final(self) == old(self).toggled(enabled),
            rows is Some == old(self).opens(enabled),
            rows matches Some(shown) ==> shown@.map_values(
                |r: Option<(&'static str, WorkspaceAction)>| row_view(r),
            ) == entry_menu(path@, projects::has_manual_order(registry@)),
    {
        if self.toggle(enabled) {
            Some(repo_mode_entry_menu_entries(path, registry.has_manual_order()))
        } else {
            None
        }
    }

    /// Open the picker over `entries`, or close the open repo-mode menu; the
    /// rows to show when it opens.
    pub fn open_repo_mode_picker_menu(&mut self, enabled: bool, entries: &Vec<RepoModeListEntry>)
        -> (items: Option<Vec<(String, WorkspaceAction)>>)
        ensures
            *final(self) == old(self).toggled(enabled),
            items is Some == old(self).opens(enabled),
            items matches Some(shown) ==> shown@.map_values(
                |i: (String, WorkspaceAction)| pick_view(i),
            ) == picker_rows(listing::entries_view(entries@)),
    {
        if self.toggle(enabled) {
            Some(repo_mode_picker_entries(entries))
        } else {
            None
        }
    }
}

/// The `cd` that waits for the remote shell, as mathematical values.
pub struct LandingView {
    pub command: Seq<char>,
    pub landed: bool,
}

/// The `cd` that waits for the remote shell. A remote session that reports
/// itself bootstrapped is the first moment that shell can be commanded; the
/// tab's own local shell bootstraps earlier and does not count.
#[derive(Debug)]
pub struct Landing {
    pub command: String,
    pub landed: bool,
}

impl View for Landing {
    type V = LandingView;

    open spec fn view(&self) -> LandingView {
        LandingView { command: self.command@, landed: self.landed }
    }
}

/// What happens to the sessions of a tab.
#[derive(Clone, Copy, Debug, PartialEq, Eq, Structural)]
pub enum SessionEvent {
    /// A local shell is up.
    LocalBootstrapped,
    /// A shell on the remote host is up.
    RemoteBootstrapped,
    /// Anything else.
    Other,
}

/// An event as the tab sees it, and whether its terminal is still there.
pub type TabEvent = (SessionEvent, bool);

impl LandingView {
    /// The event is the one that the command waits for.
    pub open spec fn fires(self, event: TabEvent) -> bool {
        !self.landed && event.0 == SessionEvent::RemoteBootstrapped && event.1
    }

    /// The landing after the event.
    pub open spec fn after(self, event: TabEvent) -> LandingView {
        LandingView { landed: self.landed || self.fires(event), ..self }
    }

    /// How often the command is sent over a run of events.
    pub open spec fn sent(self, events: Seq<TabEvent>) -> nat
        decreases events.len(),
    {
        if events.len() == 0 {
            0
        } else {
            let first: nat = if self.fires(events[0]) {
                1
            } else {
                0
            };
            first + self.after(events[0]).sent(events.skip(1))
        }
    }
}

impl Landing {
    /// The command to send to the tab's terminal now that the event happened.
    pub fn on_session_event(&mut self, event: SessionEvent, terminal_alive: bool) -> (command:
        Option<String>)
        ensures
            final(self)@ == old(self)@.after((event, terminal_alive)),
            text::text_view(command) == (if old(self)@.fires((event, terminal_alive)) {
                Some(old(self)@.command)
            } else {
                None
            }),
    {
        if self.landed || !terminal_alive {
            return None;
        }
        match event {
            SessionEvent::RemoteBootstrapped => {
                self.landed = true;
                Some(self.command.clone())
            },
            _ => None,
        }
    }
}

/// The `cd` is sent at most once, whatever the tab's sessions do, and it is sent
/// if the remote shell ever comes up while the terminal is there.
pub proof fn landing_happens_once(landing: LandingView, events: Seq<TabEvent>)
    requires
        !landing.landed,
    ensures
        landing.sent(events) <= 1,
        landing.sent(events) == 1 <==> events.contains((SessionEvent::RemoteBootstrapped, true)),
    decreases events.len(),
{
    if events.len() > 0 {
        let event = events[0];
        let rest = events.skip(1);
        if landing.fires(event) {
            lemma_landed_sends_nothing(landing.after(event), rest);
            assert(events.contains((SessionEvent::RemoteBootstrapped, true)));
        } else {
            landing_happens_once(landing.after(event), rest);
            if events.contains((SessionEvent::RemoteBootstrapped, true)) {
                let at = events.index_of((SessionEvent::RemoteBootstrapped, true));
                assert(at > 0);
                assert(rest[at - 1] == events[at]);
            }
            if rest.contains((SessionEvent::RemoteBootstrapped, true)) {
                let at = rest.index_of((SessionEvent::RemoteBootstrapped, true));
                assert(events[at + 1] == rest[at]);
            }
        }
    }
}

proof fn lemma_landed_sends_nothing(landing: LandingView, events: Seq<TabEvent>)
    requires
        landing.landed,
    ensures
        landing.sent(events) == 0,
    decreases events.len(),
{
    if events.len() > 0 {
        lemma_landed_sends_nothing(landing.after(events[0]), events.skip(1));
    }
}

/// How a tab on a remote host is opened.
#[derive(Debug)]
pub struct RemoteTab {
    /// The command line that the tab's local shell runs.
    pub command: String,
    /// The `cd` that follows once the remote shell is up.
    pub landing: Option<Landing>,
}

/// How a tab for a remote entry is opened. While sessions are warpified the
/// `cd` must not stand on the `ssh` line, whose extra argument would cost the
/// warpification, so it waits for the remote shell. Without warpification
/// nothing ever reports that shell, and the path goes on the line itself.
pub fn open_remote_repo_mode_tab(target: &RemoteTarget, warpification_enabled: bool) -> (tab:
    RemoteTab)
    ensures
        warpification_enabled ==> tab.command@ == probe::ssh_line(target@) && tab.landing is Some
            && tab.landing->0@ == (LandingView {
            command: probe::cd_line(target@.remote_path),
            landed: false,
        }),
        !warpification_enabled ==> tab.command@ == probe::landing_line(target@)
            && tab.landing is None,
{
    if warpification_enabled {
        RemoteTab {
            command: remote_ssh_command(target),
            landing: Some(
                Landing {
                    command: remote_cd_command(target.remote_path.as_str()),
                    landed: false,
                },
            ),
        }
    } else {
        RemoteTab { command: remote_ssh_command_landing_in_path(target), landing: None }
    }
}

/// Where a tab for an entry starts: at its root while that is a directory, else
/// at home.
pub fn entry_tab_directory(path: &str, is_dir: bool, home: &Option<String>) -> (directory: Option<
    String,
>)
    ensures
        text::text_view(directory) == (if is_dir {
            Some(path@)
        } else {
            text::text_view(*home)
        }),
{
    if is_dir {
        Some(path.to_owned())
    } else {
        copy_text(home)
    }
}

/// Where a terminal outside every repository starts. A directory is always
/// named, because a tab opened without one would inherit the directory of the
/// tab before it.
pub fn loose_tab_directory(home: Option<String>, temp: String) -> (directory: String)
    ensures
        directory@ == (match home {
            Some(found) => found@,
            None => temp@,
        }),
{
    match home {
        Some(found) => found,
        None => temp,
    }
}

/// The directory that a new session takes from the selection: the selected root,
/// for a session that shares the host's filesystem and while the root is a
/// directory there. `None` leaves the decision to the ordinary rules.
pub fn repo_mode_startup_directory(
    enabled: bool,
    selected_root: Option<&str>,
    shares_host_filesystem: bool,
    is_dir: bool,
) -> (directory: Option<String>)
    ensures
        text::text_view(directory) == (match selected_root {
            Some(root) => if enabled && shares_host_filesystem && is_dir {
                Some(root@)
            } else {
                None
            },
            None => None,
        }),
{
    match selected_root {
        Some(root) => if enabled && shares_host_filesystem && is_dir {
            Some(root.to_owned())
        } else {
            None
        },
        None => None,
    }
}

/// The picker offers every row that is not dead, each by its name and in the
/// order of the list, below the row that selects all: a live row at the end of
/// the list is offered last, and a dead one changes nothing.
pub proof fn picker_offers_the_live_rows(
    entries: Seq<listing::ListEntryView>,
    entry: listing::ListEntryView,
)
    ensures
        picker_rows(Seq::empty()) == seq![("All"@, ActionView::SelectRepoModeAll)],
        entry.is_dead ==> picker_rows(entries.push(entry)) == picker_rows(entries),
        !entry.is_dead ==> picker_rows(entries.push(entry)) == picker_rows(entries).push(
            (entry.display_name, ActionView::SelectRepoModeEntry(entry.path)),
        ),
{
    assert(entries.push(entry).drop_last() =~= entries);
}

/// A row's menu offers to remove that row, and to reset the order exactly when
/// there is one.
pub proof fn row_menu_offers_the_row(key: Seq<char>, has_manual_order: bool)
    ensures
        entry_menu(key, has_manual_order)[0] matches Some(item) && item.1
            == ActionView::RemoveRepoModeEntry(key),
        (exists|i: int|
            0 <= i < entry_menu(key, has_manual_order).len() && (#[trigger] entry_menu(
                key,
                has_manual_order,
            )[i] matches Some(item) && item.1 == ActionView::ResetRepoModeOrder))
            <==> has_manual_order,
{
    let rows = entry_menu(key, has_manual_order);
    if has_manual_order {
        assert(rows[2] matches Some(item) && item.1 == ActionView::ResetRepoModeOrder);
    }
}

/// One menu is open at a time: opening this one closes the others, asking again
/// closes it, and nothing happens while the mode is off.
pub proof fn one_menu_is_open(menus: OpenMenus, enabled: bool)
    ensures
        !enabled ==> menus.toggled(enabled) == menus && !menus.opens(enabled),
        enabled ==> menus.toggled(enabled).repo_mode == !menus.repo_mode,
        enabled ==> menus.opens(enabled) == !menus.repo_mode,
        enabled && !menus.repo_mode ==> !menus.toggled(enabled).tab && !menus.toggled(
            enabled,
        ).tab_group,
        enabled && menus.repo_mode ==> menus.toggled(enabled).tab == menus.tab && menus.toggled(
            enabled,
        ).tab_group == menus.tab_group,
{
}

/// The app's state is saved after every action but resetting the order, opening
/// the folder in an editor and revealing it.
pub proof fn most_actions_save(action: ActionView)
    ensures
        !action.saves_app_state() <==> action is ResetRepoModeOrder || action is OpenCurrentFolderIn
            || action is RevealCurrentFolder,
{
}

} // verus!
