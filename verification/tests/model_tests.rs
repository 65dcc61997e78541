use std::collections::HashSet;
use std::path::{Path, PathBuf};

use chrono::Utc;

use repo_mode::actions::{
    open_remote_repo_mode_tab, repo_mode_add_menu_entries, repo_mode_entry_menu_entries,
    repo_mode_picker_entries, OpenMenus, SessionEvent, WorkspaceAction,
};
use repo_mode::entry::{format_remote_key, RemoteTarget, RepoEntryKind};
use repo_mode::listing::{
    remote_list_entry, FsReading, RepoList, RepoModeListEntry, REPO_FS_CACHE_TTL_MILLIS,
};
use repo_mode::probe::{RemoteProbeFailure, RemoteProbeOutcome, RemoteProbeState};
use repo_mode::projects::{Project, ProjectManagementModel, RegistryPath};
use repo_mode::rows::{
    merge_dragged_row, reference_shift, repo_mode_bound_tab_owner, repo_mode_row_neighbor,
    repo_mode_row_swap_target, ReferenceShift,
};
use repo_mode::sessions::{ProbeSessions, RemoteProbeSession};
use repo_mode::stamps::Stamp;
use repo_mode::tabs::{FeatureFlags, Tab, TabGroup, TabStrip};
use repo_mode::workspace::{
    registry_key_path, DropOutcome, Frame, ProbeLanding, TabAction, Workspace,
};

const DAY: i64 = 86_400_000_000_000;

const BOTH_ON: FeatureFlags = FeatureFlags {
    repo_mode: true,
    grouped_tabs: true,
};

const REPO_MODE_OFF: FeatureFlags = FeatureFlags {
    repo_mode: false,
    grouped_tabs: true,
};

const GROUPED_TABS_OFF: FeatureFlags = FeatureFlags {
    repo_mode: true,
    grouped_tabs: false,
};

fn now_nanos() -> i64 {
    Utc::now().timestamp_nanos_opt().expect("this century")
}

fn at(nanos: i64) -> Stamp {
    Stamp {
        secs: nanos.div_euclid(1_000_000_000),
        nanos: nanos.rem_euclid(1_000_000_000) as u32,
    }
}

fn registry_path(path: &str) -> RegistryPath {
    RegistryPath {
        path: path.to_string(),
        resolved: dunce::canonicalize(path)
            .ok()
            .map(|found| found.to_string_lossy().into_owned()),
    }
}

fn strings(paths: &[&str]) -> Vec<String> {
    paths.iter().map(|path| path.to_string()).collect()
}

/// A window: the library's state, and what the host keeps around it.
struct Window {
    workspace: Workspace,
    registry: ProjectManagementModel,
    next_id: u64,
    clock: u64,
}

impl Window {
    fn with_flags(flags: FeatureFlags, projects: Vec<Project>) -> Window {
        Window {
            workspace: Workspace {
                flags,
                strip: TabStrip {
                    tabs: vec![Tab {
                        id: 1,
                        group_id: None,
                        pinned: false,
                    }],
                    tab_groups: Vec::new(),
                    active_tab_index: 0,
                    tab_mru_order: vec![1],
                },
                list: RepoList::new(),
                selected_repo_root: None,
            },
            registry: ProjectManagementModel::new(projects),
            next_id: 100,
            clock: 0,
        }
    }

    fn new(projects: Vec<Project>) -> Window {
        Window::with_flags(BOTH_ON, projects)
    }

    fn fresh_id(&mut self) -> u64 {
        self.next_id += 1;
        self.next_id
    }

    /// What the host reads from disk for a drawing of the list.
    fn frame(&self) -> Frame {
        let readings = self
            .workspace
            .list
            .fs_probe_keys(&self.registry, self.clock)
            .into_iter()
            .map(|key| {
                let root = PathBuf::from(&key);
                FsReading {
                    kind: if root.join(".git").exists() {
                        RepoEntryKind::Repo
                    } else {
                        RepoEntryKind::Folder
                    },
                    dead: !root.exists(),
                    probed_at: self.clock,
                    key,
                }
            })
            .collect();
        Frame {
            readings,
            clock: self.clock,
            now: at(now_nanos()),
        }
    }

    fn entries(&mut self) -> Vec<RepoModeListEntry> {
        let frame = self.frame();
        self.workspace.repo_mode_entries(&self.registry, &frame)
    }

    fn entry_paths(&mut self) -> Vec<String> {
        let frame = self.frame();
        self.workspace.repo_mode_entry_paths(&self.registry, &frame)
    }

    fn visible(&mut self) -> Option<Vec<usize>> {
        let frame = self.frame();
        self.workspace
            .repo_mode_visible_tab_indices(&self.registry, &frame)
    }

    /// The order the Repositories section renders, as registry keys.
    fn rendered_order(&mut self) -> Vec<String> {
        self.entries().into_iter().map(|entry| entry.path).collect()
    }

    fn registered_paths(&self) -> Vec<String> {
        let mut paths: Vec<String> = self
            .registry
            .all_projects()
            .iter()
            .map(|project| project.path.clone())
            .collect();
        paths.sort();
        paths
    }

    fn apply_manual_order(&mut self, paths: &[&str]) {
        self.registry
            .set_manual_order(paths.iter().map(|path| registry_path(path)).collect());
    }

    fn tab_count(&self) -> usize {
        self.workspace.strip.tabs.len()
    }

    fn active(&self) -> usize {
        self.workspace.strip.active_tab_index
    }

    fn group_of(&self, index: usize) -> Option<u64> {
        self.workspace.strip.tabs[index].group_id
    }

    fn activate(&mut self, index: usize) {
        let id = self.workspace.strip.tabs[index].id;
        self.workspace.strip.active_tab_index = index;
        self.workspace.strip.tab_mru_order.retain(|other| *other != id);
        self.workspace.strip.tab_mru_order.insert(0, id);
        let frame = self.frame();
        self.workspace
            .sync_repo_mode_selection_to_active_tab(&self.registry, &frame);
    }

    /// Open a tab behind the active one, as a member of `group_id`.
    fn open_tab(&mut self, group_id: Option<u64>) {
        let id = self.fresh_id();
        let index = self.active() + 1;
        self.workspace.strip.tabs.insert(
            index.min(self.tab_count()),
            Tab {
                id,
                group_id,
                pinned: false,
            },
        );
        self.activate(index.min(self.tab_count() - 1));
    }

    /// A new tab joins the selected entry's group, else the active tab's.
    fn add_terminal_tab(&mut self) {
        let group_id = self
            .workspace
            .selected_repo_mode_group_id()
            .or(self.group_of(self.active()));
        self.open_tab(group_id);
    }

    fn select(&mut self, path: &str) {
        let frame = self.frame();
        let new_group = self.fresh_id();
        let selection = self
            .workspace
            .select_repo_mode_entry(registry_path(path), &mut self.registry, &frame, new_group)
            .expect("repo mode is on");
        match selection.tab {
            TabAction::Stay => {}
            TabAction::Activate { index } => self.activate(index),
            TabAction::OpenLocal { group_id } | TabAction::OpenRemote { group_id, .. } => {
                let selected = self.workspace.selected_repo_root.clone();
                self.open_tab(None);
                self.workspace.bind_opened_tab(group_id, selected);
            }
        }
    }

    fn remove(&mut self, path: &str) {
        self.workspace
            .remove_repo_mode_entry(registry_path(path), &mut self.registry);
    }

    fn upsert(&mut self, path: &str) {
        self.registry.upsert_project(registry_path(path));
    }

    fn new_loose_tab(&mut self) {
        let inherited = self.tabs_group_if_any();
        self.workspace
            .new_repo_mode_loose_tab(Some("/home/v".to_string()), "/tmp".to_string())
            .expect("repo mode is on");
        if self.tab_count() == 0 {
            let id = self.fresh_id();
            self.workspace.strip.tabs.push(Tab {
                id,
                group_id: None,
                pinned: false,
            });
            self.activate(0);
        } else {
            self.open_tab(inherited);
        }
        self.workspace.release_loose_tab();
    }

    fn tabs_group_if_any(&self) -> Option<u64> {
        self.workspace
            .strip
            .tabs
            .get(self.active())
            .and_then(|tab| tab.group_id)
    }

    fn prune_groups(&mut self) {
        let live: Vec<u64> = self
            .workspace
            .strip
            .tabs
            .iter()
            .filter_map(|tab| tab.group_id)
            .collect();
        self.workspace
            .strip
            .tab_groups
            .retain(|group| live.contains(&group.id));
    }

    /// Close a tab; the window's last one is followed by a loose terminal.
    fn close_tab(&mut self, index: usize) {
        let closed = self.workspace.strip.tabs.remove(index);
        self.workspace
            .strip
            .tab_mru_order
            .retain(|id| *id != closed.id);
        self.prune_groups();
        if self.tab_count() == 0 {
            self.workspace.strip.active_tab_index = 0;
            self.new_loose_tab();
        } else {
            let next = self.active().min(self.tab_count() - 1);
            self.activate(next);
        }
    }

    fn assign_tab_to_group(&mut self, index: usize, group_id: Option<u64>) {
        self.workspace.strip.tabs[index].group_id = group_id;
        self.prune_groups();
    }

    fn add_group(&mut self, root: Option<&str>) -> u64 {
        let id = self.fresh_id();
        self.workspace.strip.tab_groups.push(TabGroup {
            id,
            repo_root: root.map(|root| root.to_string()),
            name: None,
        });
        id
    }

    /// Puts tab `i` in a group bound to `roots[i]`; `None` leaves it loose.
    fn bind_tabs(&mut self, roots: &[Option<&str>]) {
        while self.tab_count() < roots.len() {
            self.open_tab(None);
        }
        for (index, root) in roots.iter().enumerate() {
            if let Some(root) = root {
                let bound = self.workspace.strip.bound_group(root);
                let id = match bound {
                    Some(id) => id,
                    None => self.add_group(Some(root)),
                };
                self.workspace.strip.tabs[index].group_id = Some(id);
            }
        }
    }

    fn neighbor(&self, index: usize, forward: bool, entry_paths: &[String]) -> Option<usize> {
        self.workspace.strip.section_neighbor(
            self.workspace.flags,
            index,
            forward,
            &entry_paths.to_vec(),
        )
    }

    fn section(&self, index: usize, entry_paths: &[String]) -> Option<String> {
        self.workspace.strip.repo_mode_tab_section(
            self.workspace.flags,
            index,
            &entry_paths.to_vec(),
        )
    }

    fn group_section(&self, group_id: u64, entry_paths: &[String]) -> Option<String> {
        self.workspace.strip.repo_mode_group_section(
            self.workspace.flags,
            group_id,
            &entry_paths.to_vec(),
        )
    }

    fn blocks(&self, index: usize, target: Option<u64>, entry_paths: &[String]) -> bool {
        self.workspace.strip.repo_bound_drag_blocks_reassignment(
            self.workspace.flags,
            index,
            target,
            &entry_paths.to_vec(),
        )
    }

    /// Every tab group still occupies one contiguous run of tab indices.
    fn assert_groups_contiguous(&self) {
        let groups: Vec<Option<u64>> = self
            .workspace
            .strip
            .tabs
            .iter()
            .map(|tab| tab.group_id)
            .collect();
        for id in groups.iter().flatten() {
            let first = groups.iter().position(|g| *g == Some(*id)).unwrap();
            let last = groups.iter().rposition(|g| *g == Some(*id)).unwrap();
            assert!(
                groups[first..=last].iter().all(|g| *g == Some(*id)),
                "non-contiguous group {id}: {groups:?}"
            );
        }
    }

    /// Every tab's neighbour is its plain adjacent index.
    fn assert_adjacent_neighbors_everywhere(&self, entry_paths: &[String]) {
        let last = self.tab_count() - 1;
        for index in 0..self.tab_count() {
            assert_eq!(
                self.neighbor(index, false, entry_paths),
                index.checked_sub(1),
                "tab {index} should see its adjacent predecessor"
            );
            assert_eq!(
                self.neighbor(index, true, entry_paths),
                (index < last).then_some(index + 1),
                "tab {index} should see its adjacent successor"
            );
        }
    }

    /// One simulated drag step: membership is touched unless the guard refuses,
    /// then the tab swaps with its section neighbour.
    fn drag_step(
        &mut self,
        index: usize,
        forward: bool,
        target_group: Option<u64>,
        entry_paths: &[String],
    ) -> usize {
        if !self.blocks(index, target_group, entry_paths) {
            self.assign_tab_to_group(index, target_group);
        }
        match self.neighbor(index, forward, entry_paths) {
            Some(neighbor) => {
                self.workspace.strip.tabs.swap(neighbor, index);
                neighbor
            }
            None => index,
        }
    }

    /// The heading the partition files the tab at `index` under.
    fn partitioned_section(&self, index: usize, entry_paths: &[String]) -> Option<String> {
        let partition = self
            .workspace
            .strip
            .repo_mode_tab_partition(&entry_paths.to_vec());
        let under_entry = partition
            .by_entry
            .iter()
            .find(|entry| entry.tabs.contains(&index))
            .map(|entry| entry.path.clone());
        assert_eq!(
            under_entry.is_none(),
            partition.loose.contains(&index),
            "tab {index} must land in exactly one of the entry lists or the loose list"
        );
        under_entry
    }

    /// Tab indices filed under `root`, in tab order.
    fn entry_indices(&self, root: &str, entry_paths: &[String]) -> Vec<usize> {
        self.workspace
            .strip
            .repo_mode_tab_partition(&entry_paths.to_vec())
            .members(root)
    }

    fn loose(&self, entry_paths: &[String]) -> Vec<usize> {
        self.workspace
            .strip
            .repo_mode_tab_partition(&entry_paths.to_vec())
            .loose
    }

    fn tab_ids(&self, indices: &[usize]) -> Vec<u64> {
        indices
            .iter()
            .map(|index| self.workspace.strip.tabs[*index].id)
            .collect()
    }

    fn apply(
        &mut self,
        target: &RemoteTarget,
        generation: u64,
        token: Option<u64>,
        result: Result<RemoteProbeOutcome, RemoteProbeFailure>,
    ) -> ProbeLanding {
        self.workspace.apply_remote_probe_result(
            target,
            &target.key(),
            generation,
            token,
            result,
            &mut self.registry,
            at(now_nanos()),
        )
    }

    fn start_drag(&mut self, path: &str) {
        let frame = self.frame();
        self.workspace
            .start_repo_mode_entry_drag(path, &self.registry, &frame);
    }

    fn restart(&mut self, key: &str) -> u64 {
        self.workspace.list.probes.restart_remote_probe(key)
    }

    fn begin(&mut self, key: &str) -> Option<u64> {
        self.workspace.list.probes.begin_remote_probe(key)
    }
}

/// A directory that exists, and its registry key.
fn root_dir() -> (tempfile::TempDir, String) {
    let dir = tempfile::tempdir().expect("tempdir");
    let root = dunce::canonicalize(dir.path()).expect("canonicalize");
    let key = root.to_string_lossy().into_owned();
    (dir, key)
}

fn project(path: &str, used: i64) -> Project {
    Project {
        path: path.to_string(),
        added_ts: at(used),
        last_opened_ts: Some(at(used)),
        manual_position: None,
    }
}

fn one_repo_projects() -> Vec<Project> {
    vec![project("/repo/a", now_nanos())]
}

/// Registry rows whose recency order is the argument order.
fn projects_by_recency(paths: &[&str]) -> Vec<Project> {
    let now = now_nanos();
    paths
        .iter()
        .enumerate()
        .map(|(index, path)| project(path, now - DAY * index as i64))
        .collect()
}

fn probe_target(path: &str) -> RemoteTarget {
    RemoteTarget {
        server: "10.0.0.7".to_string(),
        port: 22,
        user: "vinh".to_string(),
        identity: "/k".to_string(),
        remote_path: path.to_string(),
    }
}

fn found(path: &str, branch: Option<&str>) -> RemoteProbeOutcome {
    RemoteProbeOutcome::Found {
        remote_path: path.to_string(),
        kind: RepoEntryKind::Repo,
        branch: branch.map(|name| name.to_string()),
    }
}

fn settled(key: &str, state: RemoteProbeState) -> ProbeSessions {
    ProbeSessions {
        sessions: vec![RemoteProbeSession {
            key: key.to_string(),
            generation: 1,
            in_flight: false,
            adding: false,
            state,
        }],
        generation: 1,
    }
}

/// No selection means the stock tab set (no filtering).
#[test]
fn test_no_selection_shows_stock_tab_set() {
    let mut window = Window::new(Vec::new());
    assert_eq!(window.workspace.selected_repo_root, None);
    assert_eq!(window.visible(), None);
}

/// Selecting an entry filters the visible set to its tabs; the other repo's tabs
/// stay alive and untouched.
#[test]
fn test_selection_filters_visible_tabs_to_group() {
    let now = now_nanos();
    let mut window = Window::new(vec![project("/repo/a", now), project("/repo/b", now)]);
    // Tabs: [default, a1, a2, b1]
    window.bind_tabs(&[None, Some("/repo/a"), Some("/repo/a"), Some("/repo/b")]);

    window.workspace.selected_repo_root = Some("/repo/a".to_string());
    assert_eq!(window.visible(), Some(vec![1, 2]));

    window.workspace.selected_repo_root = Some("/repo/b".to_string());
    assert_eq!(window.visible(), Some(vec![3]));
    // The other repo's tabs are still present (background, not closed).
    assert_eq!(window.tab_count(), 4);

    // A registered entry with no matching tabs yields an empty set, never
    // unrelated tabs.
    window.workspace.strip.tabs[3].group_id = None;
    window.workspace.selected_repo_root = Some("/repo/b".to_string());
    assert_eq!(window.visible(), Some(Vec::new()));

    // A selection no longer in the registry recovers to "All" rather than
    // stranding this window with an empty strip.
    window.workspace.selected_repo_root = Some("/repo/missing".to_string());
    assert_eq!(window.visible(), None);
}

/// Selecting a registered entry creates its group with a tab, and later new tabs
/// join the bound group.
#[test]
fn test_select_entry_creates_group_and_new_tabs_join_it() {
    let (_dir, root) = root_dir();
    let mut window = Window::new(Vec::new());
    let initial_tabs = window.tab_count();
    window.select(&root);

    assert_eq!(
        window.workspace.selected_repo_root.as_deref(),
        Some(root.as_str())
    );
    let group_id = window
        .workspace
        .selected_repo_mode_group_id()
        .expect("bound group should exist after select");
    assert_eq!(window.tab_count(), initial_tabs + 1);
    let member_count = |window: &Window| {
        window
            .workspace
            .strip
            .tabs
            .iter()
            .filter(|t| t.group_id == Some(group_id))
            .count()
    };
    assert_eq!(member_count(&window), 1);

    // A new tab opened while the entry is selected joins its group.
    window.add_terminal_tab();
    assert_eq!(member_count(&window), 2);
}

/// Reselecting an entry that already has a bound tab activates it and spawns
/// nothing.
#[test]
fn test_reselecting_an_entry_with_a_bound_tab_opens_no_new_terminal() {
    let (_repo, repo_root) = root_dir();
    let (_other, other_root) = root_dir();
    let mut window = Window::new(Vec::new());
    window.select(&other_root);
    window.select(&repo_root);
    let group_id = window
        .workspace
        .selected_repo_mode_group_id()
        .expect("bound group should exist after select");
    let bound_tabs = window
        .workspace
        .strip
        .repo_mode_bound_group_tab_indices(&repo_root);
    assert_eq!(bound_tabs.len(), 1, "the entry has exactly one bound tab");

    let tabs_before = window.tab_count();

    // Select somewhere else and back again.
    window.select(&other_root);
    window.select(&repo_root);

    assert_eq!(
        window.tab_count(),
        tabs_before,
        "reselecting a repo that already has a tab must not open another"
    );
    assert_eq!(
        window.group_of(window.active()),
        Some(group_id),
        "the existing bound tab should be the one activated"
    );
}

/// A tab stays under the repo it is bound to.
#[test]
fn test_bound_tab_is_filed_under_its_binding_not_another_entry() {
    let (_repo, repo_root) = root_dir();
    let (_other, other_root) = root_dir();
    let mut window = Window::new(Vec::new());
    window.select(&repo_root);
    let bound_index = window.active();
    window.select(&other_root);

    let entry_paths = vec![repo_root.clone(), other_root.clone()];
    assert!(
        window
            .entry_indices(&repo_root, &entry_paths)
            .contains(&bound_index),
        "the tab belongs to the entry it is bound to"
    );
    assert!(
        !window
            .entry_indices(&other_root, &entry_paths)
            .contains(&bound_index),
        "and to no other entry"
    );
    assert!(!window.loose(&entry_paths).contains(&bound_index));

    // Its bound root leaving the registry drops it loose rather than
    // reassigning it to whatever else is registered.
    let entry_paths = vec![other_root.clone()];
    assert!(window.loose(&entry_paths).contains(&bound_index));
    assert!(!window
        .entry_indices(&other_root, &entry_paths)
        .contains(&bound_index));
}

/// Activating a tab outside the selected repo collapses the selection to "All",
/// whichever route the activation came in on.
#[test]
fn test_keyboard_activation_outside_the_selection_falls_back_to_all() {
    let (_first, first_root) = root_dir();
    let (_second, second_root) = root_dir();
    let mut window = Window::new(Vec::new());
    window.select(&first_root);
    let first_tab = window.active();
    window.select(&second_root);
    assert_eq!(
        window.workspace.selected_repo_root.as_deref(),
        Some(second_root.as_str()),
        "selecting the second entry should stick"
    );
    assert_ne!(window.active(), first_tab);

    // Activate onto the first repo's tab: a different repo, so the selection
    // cannot survive.
    window.activate(first_tab);
    assert_eq!(window.active(), first_tab);
    assert_eq!(
        window.workspace.selected_repo_root, None,
        "activating a tab outside the selection must fall back to All"
    );

    // Same for next-tab cycling, which walks the unfiltered tab list.
    window.select(&second_root);
    assert!(window.workspace.selected_repo_root.is_some());
    let before = window.active();
    let next = (before + 1) % window.tab_count();
    window.activate(next);
    assert_ne!(
        window.active(),
        before,
        "next-tab ignores repo filtering, so it must have moved"
    );
    assert_eq!(
        window.workspace.selected_repo_root, None,
        "cycling off the selected repo's tab must fall back to All"
    );
}

/// Closing a repo's last visible tab does not leave the strip selected on a repo
/// with nothing in it.
#[test]
fn test_closing_the_selected_repos_tab_falls_back_to_all() {
    let (_dir, root) = root_dir();
    let mut window = Window::new(Vec::new());
    window.select(&root);
    let repo_tab = window.active();
    assert!(window.tab_count() > 1, "a loose tab remains to fall to");

    window.close_tab(repo_tab);

    assert_eq!(
        window.workspace.selected_repo_root, None,
        "closing the selected repo's only tab must fall back to All"
    );
}

/// A new loose tab is bound to no repo group, even when a repo tab is active.
#[test]
fn test_loose_tab_never_joins_the_active_repo_group() {
    let (_dir, root) = root_dir();
    let mut window = Window::new(Vec::new());
    // Active tab is the repo's tab, so the inherit path is live.
    window.select(&root);
    let group_id = window
        .workspace
        .selected_repo_mode_group_id()
        .expect("group");
    assert_eq!(window.group_of(window.active()), Some(group_id));

    window.new_loose_tab();

    assert_eq!(window.workspace.selected_repo_root, None);
    let new_index = window.active();
    assert_eq!(window.group_of(new_index), None);
    // ... and it renders under "Other tabs", not under the repo row.
    let entry_paths = vec![root.clone()];
    assert!(window.loose(&entry_paths).contains(&new_index));
    assert!(!window.entry_indices(&root, &entry_paths).contains(&new_index));
}

/// Closing the last tab of the selected entry falls back to "All" without
/// auto-opening a fresh tab.
#[test]
fn test_last_tab_close_falls_back_to_all() {
    let (_dir, root) = root_dir();
    let mut window = Window::new(Vec::new());
    window.select(&root);
    let group_id = window
        .workspace
        .selected_repo_mode_group_id()
        .expect("group");
    let member_index = window
        .workspace
        .strip
        .tabs
        .iter()
        .position(|t| t.group_id == Some(group_id))
        .expect("member tab");

    let tab_count_before = window.tab_count();
    window.close_tab(member_index);

    // Selection falls back to "All"; no group or tab is recreated.
    assert_eq!(window.workspace.selected_repo_root, None);
    assert_eq!(
        window.workspace.strip.bound_group(&root),
        None,
        "bound group should stay pruned after last tab close"
    );
    assert_eq!(window.tab_count(), tab_count_before - 1);
}

/// Closing the window's very last tab opens a fresh loose home terminal.
#[test]
fn test_window_last_tab_close_opens_loose_home_tab() {
    let mut window = Window::new(Vec::new());
    assert_eq!(window.tab_count(), 1);
    let old_id = window.workspace.strip.tabs[0].id;

    window.close_tab(0);

    // The old tab is gone, replaced by a single ungrouped tab; the window
    // survives with no repo selected.
    assert_eq!(window.tab_count(), 1);
    assert_ne!(window.workspace.strip.tabs[0].id, old_id);
    assert_eq!(window.group_of(0), None);
    assert_eq!(window.workspace.selected_repo_root, None);
    assert_eq!(window.active(), 0);
}

/// Removing an entry ungroups its tabs without closing them and clears the
/// selection.
#[test]
fn test_remove_entry_ungroups_tabs_and_keeps_them_open() {
    let (_dir, root) = root_dir();
    let mut window = Window::new(Vec::new());
    window.select(&root);
    window.add_terminal_tab();
    let tabs_before = window.tab_count();
    let group_id = window
        .workspace
        .selected_repo_mode_group_id()
        .expect("group");
    assert!(window
        .workspace
        .strip
        .tabs
        .iter()
        .any(|t| t.group_id == Some(group_id)));

    window.remove(&root);

    assert_eq!(window.tab_count(), tabs_before);
    assert!(window
        .workspace
        .strip
        .tabs
        .iter()
        .all(|t| t.group_id != Some(group_id)));
    assert_eq!(window.workspace.selected_repo_root, None);
}

/// A bound tab belongs to the entry it is bound to, full stop.
#[test]
fn test_bound_tab_owner_rules() {
    let entries = strings(&["/repo/a", "/repo/a/nested", "/repo/b"]);
    // The binding wins, whatever any terminal's cwd is doing.
    assert_eq!(
        repo_mode_bound_tab_owner("/repo/b", &entries),
        Some("/repo/b".to_string())
    );
    // A nested entry is only an owner for tabs actually bound to it.
    assert_eq!(
        repo_mode_bound_tab_owner("/repo/a/nested", &entries),
        Some("/repo/a/nested".to_string())
    );
    assert_eq!(
        repo_mode_bound_tab_owner("/repo/a", &entries),
        Some("/repo/a".to_string())
    );
    // Bound root no longer registered: the tab drops loose.
    assert_eq!(repo_mode_bound_tab_owner("/repo/gone", &entries), None);
    // A path under an entry is not the entry. Only an exact bound root owns.
    assert_eq!(
        repo_mode_bound_tab_owner("/repo/a/nested/src", &entries),
        None
    );
}

/// The row for a remote key is built from the probe cache alone. With nothing
/// cached the row is pending.
#[test]
fn remote_row_is_pending_until_a_probe_resolves() {
    let key = format_remote_key("10.0.0.7", 2222, "vinh", "/k", "/srv/app");
    let now = at(now_nanos());

    let pending = remote_list_entry(key.clone(), Some(now), now, &ProbeSessions::new(), false);
    let remote = pending.remote.as_ref().expect("remote detail");
    assert_eq!(remote.probe, RemoteProbeState::Pending);
    assert_eq!(remote.target.user_host(), "vinh@10.0.0.7");
    assert_eq!(pending.display_name, "app");
    // An unreachable remote entry is never the local "dead path" state.
    assert!(!pending.is_dead);

    let probes = settled(
        &key,
        RemoteProbeState::Resolved {
            kind: RepoEntryKind::Repo,
            branch: Some("main".to_string()),
        },
    );
    let resolved = remote_list_entry(key.clone(), Some(now), now, &probes, false);
    assert_eq!(resolved.kind, RepoEntryKind::Repo);
    assert_eq!(
        resolved.remote.expect("remote detail").probe,
        RemoteProbeState::Resolved {
            kind: RepoEntryKind::Repo,
            branch: Some("main".to_string()),
        }
    );

    let probes = settled(
        &key,
        RemoteProbeState::Failed {
            reason: RemoteProbeFailure::Unreachable,
        },
    );
    let failed = remote_list_entry(key.clone(), Some(now), now, &probes, false);
    assert!(!failed.is_dead);
    assert_eq!(failed.kind, RepoEntryKind::Folder);
}

/// A registry row that carries the remote scheme but does not parse is surfaced
/// as dead so the row offers "Remove".
#[test]
fn unparseable_remote_row_is_dead() {
    let now = at(now_nanos());
    let key = "ssh://not-a-valid-key".to_string();
    let entry = remote_list_entry(key, Some(now), now, &ProbeSessions::new(), false);
    assert!(entry.remote.is_none());
    assert!(entry.is_dead);
}

/// Remove and select derive their registry key without canonicalizing a remote
/// key against the local filesystem.
#[test]
fn registry_key_path_leaves_remote_keys_untouched() {
    let key = format_remote_key("h", 22, "u", "/k", "/srv/app");
    assert_eq!(registry_key_path(registry_path(&key)), key);

    let (dir, canonical) = root_dir();
    let with_slash = format!("{}/", dir.path().display());
    assert_eq!(registry_key_path(registry_path(&with_slash)), canonical);
}

/// The single "+ Add" control offers exactly the local and remote destinations.
#[test]
fn add_menu_offers_local_and_remote() {
    let entries = repo_mode_add_menu_entries();
    assert_eq!(entries[0].0, "Local Repository or Folder…");
    assert!(matches!(
        entries[0].1,
        WorkspaceAction::AddLocalRepositoryOrFolder
    ));
    assert_eq!(entries[1].0, "Remote Repository or Folder…");
    assert!(matches!(
        entries[1].1,
        WorkspaceAction::AddRemoteRepositoryOrFolder
    ));
    assert_eq!(entries.len(), 2);
}

/// Registering an entry is workspace state worth persisting.
#[test]
fn remote_add_action_is_classified_like_the_local_one() {
    assert_eq!(
        WorkspaceAction::AddRemoteRepositoryOrFolder.should_save_app_state_on_action(),
        WorkspaceAction::AddLocalRepositoryOrFolder.should_save_app_state_on_action()
    );
}

/// The row is registered pending under the typed path and resolves onto the path
/// the host expanded, leaving no stale key behind.
#[test]
fn test_probe_success_resolves_the_row_onto_the_expanded_path() {
    let target = probe_target("~/app");
    let pending_key = target.key();
    let mut window = Window::new(vec![project(&pending_key, now_nanos())]);
    let generation = window.restart(&pending_key);

    window.apply(
        &target,
        generation,
        None,
        Ok(found("/home/vinh/app", Some("main"))),
    );

    let resolved_key = probe_target("/home/vinh/app").key();
    assert_eq!(window.registered_paths(), vec![resolved_key.clone()]);

    let entries = window.entries();
    assert_eq!(entries.len(), 1);
    assert_eq!(entries[0].kind, RepoEntryKind::Repo);
    assert_eq!(
        entries[0].remote.as_ref().expect("remote detail").probe,
        RemoteProbeState::Resolved {
            kind: RepoEntryKind::Repo,
            branch: Some("main".to_string()),
        }
    );
}

/// A failed add leaves nothing behind.
#[test]
fn test_probe_failure_at_add_time_registers_nothing() {
    let target = probe_target("/srv/app");
    let key = target.key();
    let mut window = Window::new(Vec::new());
    let generation = window.restart(&key);

    // The pending row is visible while the probe runs, without being
    // registered.
    assert_eq!(window.entries().len(), 1);
    assert!(window.registered_paths().is_empty());

    window.apply(
        &target,
        generation,
        Some(1),
        Err(RemoteProbeFailure::Unreachable),
    );

    assert!(window.registered_paths().is_empty());
    assert!(window.entries().is_empty());
    assert!(!window.workspace.list.probes.contains_key(&key));
}

/// A reprobe failure is not an add failure: the entry stays, marked unreachable.
#[test]
fn test_reprobe_failure_keeps_the_entry_and_marks_it_unreachable() {
    let target = probe_target("/srv/app");
    let key = target.key();
    let mut window = Window::new(vec![project(&key, now_nanos())]);
    let generation = window
        .begin(&key)
        .expect("no probe is running for a freshly restored entry");
    window.apply(
        &target,
        generation,
        None,
        Err(RemoteProbeFailure::NeedsFirstHandConnect),
    );

    assert_eq!(window.registered_paths(), vec![key.clone()]);
    let entries = window.entries();
    assert_eq!(
        entries[0].remote.as_ref().expect("remote detail").probe,
        RemoteProbeState::Failed {
            reason: RemoteProbeFailure::NeedsFirstHandConnect
        }
    );
    assert!(!entries[0].is_dead);
}

/// A remote key is stored exactly as formatted, and a second upsert bumps
/// recency instead of duplicating the row.
#[test]
fn test_remote_entry_stores_key_verbatim_and_lists_pending() {
    let key = format_remote_key("10.0.0.7", 2222, "vinh", "/Users/v/.ssh/id", "/srv/app");
    let mut window = Window::new(Vec::new());
    window.upsert(&key);
    window.upsert(&key);
    assert_eq!(window.registered_paths(), vec![key.clone()]);

    let entries = window.entries();
    assert_eq!(entries.len(), 1);
    let entry = &entries[0];
    let remote = entry.remote.as_ref().expect("remote detail");
    assert_eq!(remote.target.server, "10.0.0.7");
    assert_eq!(remote.target.port, 2222);
    assert_eq!(remote.target.remote_path, "/srv/app");
    // Nothing has probed yet, so the row is pending.
    assert_eq!(remote.probe, RemoteProbeState::Pending);
    assert_eq!(entry.display_name, "app");
    assert!(!entry.is_dead);
}

/// The same path on two hosts, and a local entry with a matching path, are three
/// distinct rows.
#[test]
fn test_remote_and_local_entries_with_same_path_coexist() {
    let now = now_nanos();
    let key_a = format_remote_key("10.0.0.1", 22, "vinh", "/k", "/srv/app");
    let key_b = format_remote_key("10.0.0.2", 22, "vinh", "/k", "/srv/app");
    let mut window = Window::new(vec![
        project("/srv/app", now),
        project(&key_a, now),
        project(&key_b, now),
    ]);
    let entries = window.entries();
    assert_eq!(entries.len(), 3);
    let remote_hosts: Vec<String> = entries
        .iter()
        .filter_map(|e| e.remote.as_ref())
        .map(|r| r.target.server.clone())
        .collect();
    assert_eq!(remote_hosts.len(), 2);
    assert!(remote_hosts.contains(&"10.0.0.1".to_string()));
    assert!(remote_hosts.contains(&"10.0.0.2".to_string()));
    assert_eq!(entries.iter().filter(|e| e.remote.is_none()).count(), 1);
}

/// A remote entry leaves the listing and the registry together.
#[test]
fn test_remove_remote_entry_drops_it_from_listing_and_registry() {
    let key = format_remote_key("10.0.0.7", 22, "vinh", "/k", "/srv/app");
    let mut window = Window::new(vec![project(&key, now_nanos())]);
    assert_eq!(window.entries().len(), 1);

    window.remove(&key);

    assert!(window.entries().is_empty());
    assert!(window.registered_paths().is_empty());
}

/// A registry row that looks remote but does not parse is surfaced as dead.
#[test]
fn test_unparseable_remote_key_is_marked_dead() {
    let mut window = Window::new(vec![project("ssh://not-a-valid-key", now_nanos())]);
    let entries = window.entries();
    assert_eq!(entries.len(), 1);
    assert!(entries[0].remote.is_none());
    assert!(entries[0].is_dead);
}

/// Section order reflects recency at launch and does not reshuffle when a
/// different entry is selected mid-session.
#[test]
fn test_recency_order_settles_at_launch() {
    let (_dir_a, root_a) = root_dir();
    let (_dir_b, root_b) = root_dir();
    let now = now_nanos();
    let mut window = Window::new(vec![
        project(&root_a, now - 2 * DAY),
        project(&root_b, now - DAY),
    ]);
    // B was used more recently, so it leads at launch.
    assert_eq!(
        window.rendered_order(),
        vec![root_b.clone(), root_a.clone()]
    );

    // Selecting A bumps its recency for the next launch...
    window.select(&root_a);
    let bumped = window
        .registry
        .all_projects()
        .iter()
        .find(|p| p.path == root_a)
        .and_then(|p| p.last_opened_ts);
    assert!(bumped.expect("last_opened_ts") > at(now - 2 * DAY));

    // ...but the section order stays pinned this session.
    assert_eq!(window.rendered_order(), vec![root_b, root_a]);
}

/// With no manual order on the registry the section orders by recency.
#[test]
fn test_section_orders_by_recency_without_a_manual_order() {
    let mut window = Window::new(projects_by_recency(&["/repo/c", "/repo/a", "/repo/b"]));
    assert_eq!(window.rendered_order(), ["/repo/c", "/repo/a", "/repo/b"]);
}

/// Once the registry carries a manual order it owns the list.
#[test]
fn test_manual_order_replaces_recency_for_the_section() {
    let mut window = Window::new(projects_by_recency(&["/repo/c", "/repo/a", "/repo/b"]));
    // Another window's drag. This window has not drawn its list yet, so it
    // adopts the order rather than pinning recency.
    window.apply_manual_order(&["/repo/a", "/repo/b", "/repo/c"]);

    assert_eq!(window.rendered_order(), ["/repo/a", "/repo/b", "/repo/c"]);
}

/// A repository registered while a manual order is in effect carries no
/// position, so it appends at the end.
#[test]
fn test_a_repository_added_under_a_manual_order_renders_last() {
    let mut window = Window::new(projects_by_recency(&["/repo/c", "/repo/a", "/repo/b"]));
    window.apply_manual_order(&["/repo/a", "/repo/b", "/repo/c"]);
    window.upsert("/repo/d");

    assert_eq!(
        window.rendered_order(),
        ["/repo/a", "/repo/b", "/repo/c", "/repo/d"]
    );
}

/// A window that has already drawn its list keeps that order for the rest of its
/// session.
#[test]
fn test_a_window_that_already_drew_its_list_ignores_a_later_manual_order() {
    let mut window = Window::new(projects_by_recency(&["/repo/c", "/repo/a", "/repo/b"]));
    assert_eq!(
        window.rendered_order(),
        ["/repo/c", "/repo/a", "/repo/b"],
        "the first draw pins recency"
    );

    window.apply_manual_order(&["/repo/a", "/repo/b", "/repo/c"]);

    assert_eq!(
        window.rendered_order(),
        ["/repo/c", "/repo/a", "/repo/b"],
        "the pinned order survives the handover"
    );
}

/// Recency keeps being recorded under a manual order, but it moves no row.
#[test]
fn test_selecting_under_a_manual_order_bumps_recency_without_moving_rows() {
    let (_dir_a, key_a) = root_dir();
    let (_dir_b, key_b) = root_dir();
    let (_dir_c, key_c) = root_dir();
    // Recency runs a, b, c; the manual order is its reverse.
    let mut window = Window::new(projects_by_recency(&[&key_a, &key_b, &key_c]));
    window.apply_manual_order(&[&key_c, &key_b, &key_a]);
    let before = at(now_nanos());

    window.select(&key_a);
    window.select(&key_b);

    let bumped: HashSet<String> = window
        .registry
        .all_projects()
        .iter()
        .filter(|project| project.last_opened_ts.is_some_and(|used| used >= before))
        .map(|project| project.path.clone())
        .collect();
    assert_eq!(
        bumped,
        HashSet::from([key_a.clone(), key_b.clone()]),
        "both selections are recorded for the next launch"
    );
    assert_eq!(
        window.rendered_order(),
        [key_c.as_str(), key_b.as_str(), key_a.as_str()],
        "and neither one moves a row"
    );
}

/// Removing a repository takes its position with it, so adding it back appends
/// at the end.
#[test]
fn test_removing_and_re_adding_a_repository_renders_it_last() {
    let mut window = Window::new(projects_by_recency(&["/repo/c", "/repo/a", "/repo/b"]));
    window.apply_manual_order(&["/repo/a", "/repo/b", "/repo/c"]);
    assert_eq!(window.rendered_order(), ["/repo/a", "/repo/b", "/repo/c"]);

    window.remove("/repo/b");
    assert_eq!(window.rendered_order(), ["/repo/a", "/repo/c"]);

    window.upsert("/repo/b");
    assert_eq!(window.rendered_order(), ["/repo/a", "/repo/c", "/repo/b"]);
}

/// A remote row whose first probe has not landed is never in the manual order,
/// and stays at the top.
#[test]
fn test_a_pending_remote_row_stays_above_the_manual_order() {
    let key = probe_target("/srv/app").key();
    let mut window = Window::new(projects_by_recency(&["/repo/c", "/repo/a", "/repo/b"]));
    window.apply_manual_order(&["/repo/a", "/repo/b", "/repo/c"]);
    window.restart(&key);

    assert_eq!(
        window.rendered_order(),
        [key.as_str(), "/repo/a", "/repo/b", "/repo/c"]
    );
}

/// From the middle of the list each direction resolves to the adjacent row.
#[test]
fn test_row_neighbor_moves_within_the_repository_list() {
    let rows = strings(&["/repo/a", "/repo/b", "/repo/c"]);

    assert_eq!(repo_mode_row_neighbor(&rows, "/repo/b", false), Some(0));
    assert_eq!(repo_mode_row_neighbor(&rows, "/repo/b", true), Some(2));
}

/// The ends of the Repositories list clamp.
#[test]
fn test_row_neighbor_clamps_at_the_list_ends() {
    let rows = strings(&["/repo/a", "/repo/b", "/repo/c"]);

    assert_eq!(
        repo_mode_row_neighbor(&rows, "/repo/a", false),
        None,
        "nothing above the first row"
    );
    assert_eq!(
        repo_mode_row_neighbor(&rows, "/repo/c", true),
        None,
        "nothing below the last row — 'Other tabs' is not a swap target"
    );
    // And the inward directions from those same ends still resolve.
    assert_eq!(repo_mode_row_neighbor(&rows, "/repo/a", true), Some(1));
    assert_eq!(repo_mode_row_neighbor(&rows, "/repo/c", false), Some(1));
}

/// A single registered repository has nowhere to go in either direction.
#[test]
fn test_row_neighbor_is_absent_for_a_single_row_list() {
    let rows = strings(&["/repo/a"]);

    assert_eq!(repo_mode_row_neighbor(&rows, "/repo/a", false), None);
    assert_eq!(repo_mode_row_neighbor(&rows, "/repo/a", true), None);
}

/// A drag can outlive its row, and the empty list is the same case.
#[test]
fn test_row_neighbor_is_absent_for_an_unlisted_path() {
    let rows = strings(&["/repo/a", "/repo/b"]);

    assert_eq!(repo_mode_row_neighbor(&rows, "/repo/gone", false), None);
    assert_eq!(repo_mode_row_neighbor(&rows, "/repo/gone", true), None);
    assert_eq!(repo_mode_row_neighbor(&Vec::new(), "/repo/a", true), None);
}

/// A remote entry gets the same group binding a local one does.
#[test]
fn test_remote_entry_opens_a_tab_bound_to_its_key() {
    let key = format_remote_key("10.0.0.7", 2222, "vinh", "", "/srv/app");
    let mut window = Window::new(Vec::new());
    window.upsert(&key);
    let initial_tabs = window.tab_count();

    window.select(&key);

    assert_eq!(window.tab_count(), initial_tabs + 1);
    let group_id = window
        .workspace
        .selected_repo_mode_group_id()
        .expect("remote entry should bind a group");
    let group = window
        .workspace
        .strip
        .tab_groups
        .iter()
        .find(|group| group.id == group_id)
        .expect("group");
    // The group is keyed by the key as typed — no canonicalization, or it would
    // no longer match the registry entry.
    assert_eq!(group.repo_root.as_deref(), Some(key.as_str()));
    assert_eq!(group.name.as_deref(), Some("app"));
    assert_eq!(window.group_of(window.active()), Some(group_id));

    // Selecting again reuses the group rather than minting a second one.
    window.select(&key);
    assert_eq!(
        window
            .workspace
            .strip
            .tab_groups
            .iter()
            .filter(|g| g.repo_root.as_deref() == Some(key.as_str()))
            .count(),
        1
    );
}

/// Only the entry-open path assigns a group, so a tab that belongs to no entry
/// stays outside every group.
#[test]
fn test_tab_opened_outside_the_entry_path_stays_ungrouped() {
    let key = format_remote_key("10.0.0.7", 22, "vinh", "", "/srv/app");
    let mut window = Window::new(Vec::new());
    window.upsert(&key);
    // No entry selected: a plain new tab is nobody's member.
    window.workspace.select_repo_mode_all();
    window.add_terminal_tab();

    let index = window.active();
    assert_eq!(window.group_of(index), None);

    let partition = window
        .workspace
        .strip
        .repo_mode_tab_partition(&vec![key.clone()]);
    assert!(partition.loose.contains(&index));
    assert!(
        partition
            .by_entry
            .iter()
            .all(|entry| !entry.tabs.contains(&index)),
        "an ungrouped tab must not be filed under any entry"
    );
}

/// The user submits a connection and closes the form while the probe is still
/// running. When the probe later succeeds it must register nothing.
#[test]
fn test_a_probe_that_lands_after_the_form_closed_registers_nothing() {
    let target = probe_target("/srv/app");
    let key = target.key();
    let mut window = Window::new(Vec::new());
    let generation = window.restart(&key);
    window.workspace.list.pending_remote_key = Some(key.clone());
    assert_eq!(window.entries().len(), 1);

    // Escape / the close button.
    window
        .workspace
        .close_remote_connection_modal(&window.registry);
    assert!(window.entries().is_empty());

    window.apply(
        &target,
        generation,
        Some(1),
        Ok(found("/srv/app", Some("main"))),
    );

    assert!(
        window.registered_paths().is_empty(),
        "a connection the user cancelled must not be persisted"
    );
    assert!(window.entries().is_empty());
    assert!(!window.workspace.list.probes.contains_key(&key));
}

/// Re-adding a connection the user already has, while the host is down, must not
/// damage the entry they already have.
#[test]
fn test_a_failed_re_add_leaves_the_existing_entry_intact() {
    let target = probe_target("/srv/app");
    let key = target.key();
    let mut window = Window::new(vec![project(&key, now_nanos())]);
    window.select(&key);
    let tabs_before = window.tab_count();
    let group_before = window
        .workspace
        .strip
        .bound_group(&key)
        .expect("selecting the entry binds a group to it");

    // The user re-adds the identical connection, and it fails.
    let generation = window.restart(&key);
    window.workspace.list.pending_remote_key = Some(key.clone());
    window.apply(
        &target,
        generation,
        Some(1),
        Err(RemoteProbeFailure::Unreachable),
    );

    assert_eq!(
        window.registered_paths(),
        vec![key.clone()],
        "the entry the user already had must survive a failed re-add"
    );
    assert_eq!(window.tab_count(), tabs_before);
    assert!(
        window
            .workspace
            .strip
            .tab_groups
            .iter()
            .any(|group| group.id == group_before),
        "the bound group must survive too"
    );
}

/// Selecting the same unreachable row repeatedly must not stack up `ssh`
/// subprocesses.
#[test]
fn test_repeated_selection_runs_one_probe_at_a_time() {
    let target = probe_target("/srv/app");
    let key = target.key();
    let mut window = Window::new(vec![project(&key, now_nanos())]);
    let first = window.begin(&key).expect("the first click starts a probe");
    assert_eq!(
        window.begin(&key),
        None,
        "a second click while the first probe runs must not spawn another ssh"
    );
    assert_eq!(window.begin(&key), None);

    window.apply(&target, first, None, Err(RemoteProbeFailure::Unreachable));

    // With the probe landed, the next click is free to start a new one, and its
    // result replaces the previous one.
    let second = window.begin(&key).expect("a landed probe releases the key");
    assert_ne!(first, second);
    window.apply(&target, second, None, Ok(found("/srv/app", Some("main"))));

    let entries = window.entries();
    assert_eq!(
        entries[0].remote.as_ref().expect("remote detail").probe,
        RemoteProbeState::Resolved {
            kind: RepoEntryKind::Repo,
            branch: Some("main".to_string()),
        }
    );
}

/// Two probes for one key resolving out of order leave the newer result.
#[test]
fn test_an_out_of_order_probe_result_does_not_overwrite_the_newer_one() {
    let target = probe_target("/srv/app");
    let key = target.key();
    let mut window = Window::new(vec![project(&key, now_nanos())]);
    let stale = window.begin(&key).expect("first probe");
    // The user resubmits, orphaning the first probe.
    let fresh = window.restart(&key);

    window.apply(&target, fresh, None, Err(RemoteProbeFailure::PathNotFound));
    window.apply(&target, stale, None, Ok(found("/srv/app", None)));

    let entries = window.entries();
    assert_eq!(
        entries[0].remote.as_ref().expect("remote detail").probe,
        RemoteProbeState::Failed {
            reason: RemoteProbeFailure::PathNotFound
        },
        "the late result of an orphaned probe must not replace the newer answer"
    );
}

/// A success for a key the user removed while the probe was running registers
/// nothing.
#[test]
fn test_a_probe_success_for_a_removed_key_registers_nothing() {
    let target = probe_target("/srv/app");
    let key = target.key();
    let mut window = Window::new(vec![project(&key, now_nanos())]);
    let generation = window.begin(&key).expect("probe starts");
    window.remove(&key);

    window.apply(&target, generation, None, Ok(found("/srv/app", None)));

    assert!(window.registered_paths().is_empty());
    assert!(window.entries().is_empty());
}

/// A remote key that was never verified has no probe session on this launch. It
/// renders neither as a resolved entry nor as a dead one.
#[test]
fn test_a_persisted_but_never_verified_row_renders_unresolved() {
    let key = probe_target("/srv/app").key();
    let mut window = Window::new(vec![project(&key, now_nanos())]);
    assert!(window.workspace.list.probes.sessions.is_empty());

    let entries = window.entries();
    assert_eq!(entries.len(), 1);
    let remote = entries[0].remote.as_ref().expect("remote detail");
    assert_eq!(remote.probe, RemoteProbeState::Pending);
    assert_eq!(remote.probe.kind(), None, "it has resolved to nothing");
    assert!(!entries[0].is_dead, "and it is not the dead-path state");

    // Touching it is what refreshes it, and that is a probe the key did not
    // previously have.
    assert!(window.begin(&key).is_some());
}

/// A success for the host the user was adding must not close the form they have
/// since reopened for a different host, nor register the abandoned one.
#[test]
fn test_a_late_success_does_not_close_a_form_reopened_for_another_host() {
    let abandoned = probe_target("/srv/first");
    let abandoned_key = abandoned.key();
    let current_key = probe_target("/srv/second").key();
    let mut window = Window::new(Vec::new());
    let stale = window.restart(&abandoned_key);
    window.workspace.list.pending_remote_key = Some(abandoned_key.clone());

    // The user goes back and submits a different connection.
    window
        .workspace
        .add_remote_repo_mode_entry(2, probe_target("/srv/second"), &window.registry);
    assert_eq!(
        window.workspace.list.pending_remote_key.as_deref(),
        Some(current_key.as_str())
    );

    let landing = window.apply(&abandoned, stale, Some(1), Ok(found("/srv/first", None)));
    assert!(matches!(landing, ProbeLanding::Stale));

    assert!(
        window.registered_paths().is_empty(),
        "the abandoned host must not be registered"
    );
    assert_eq!(
        window.workspace.list.pending_remote_key.as_deref(),
        Some(current_key.as_str()),
        "the form the user is actually looking at must still be probing"
    );
    let keys: Vec<String> = window
        .workspace
        .list
        .probes
        .sessions
        .iter()
        .map(|session| session.key.clone())
        .collect();
    assert_eq!(keys, vec![current_key.clone()]);
}

/// A tab whose group is bound to a registered repository reports that root; a
/// tab in a user-created group is loose.
#[test]
fn test_section_accessor_reads_the_bound_repo_root() {
    let mut window = Window::new(one_repo_projects());
    // Tabs: [loose, repo-bound, user-grouped]
    window.bind_tabs(&[None, Some("/repo/a"), None]);
    let bound_id = window.group_of(1).unwrap();
    let user_group_id = window.add_group(None);
    window.workspace.strip.tabs[2].group_id = Some(user_group_id);

    let entry_paths = window.entry_paths();
    assert_eq!(
        window.group_section(bound_id, &entry_paths),
        Some("/repo/a".to_string())
    );
    assert_eq!(
        window.section(1, &entry_paths),
        Some("/repo/a".to_string())
    );
    assert_eq!(
        window.group_section(user_group_id, &entry_paths),
        None,
        "a user-created group is not a repository section"
    );
    assert_eq!(window.section(2, &entry_paths), None);
    assert_eq!(
        window.section(0, &entry_paths),
        None,
        "and a tab with no group at all is loose"
    );
}

/// With no group carrying a root, every tab is loose.
#[test]
fn test_section_accessor_is_loose_when_no_group_is_repo_bound() {
    let mut window = Window::new(one_repo_projects());
    window.bind_tabs(&[None, None]);
    let user_group_id = window.add_group(None);
    window.workspace.strip.tabs[1].group_id = Some(user_group_id);

    let entry_paths = window.entry_paths();
    for index in 0..window.tab_count() {
        assert_eq!(window.section(index, &entry_paths), None);
    }
}

/// A bound root that has left the registry reads loose.
#[test]
fn test_section_accessor_is_loose_for_an_unregistered_bound_root() {
    let mut window = Window::new(one_repo_projects());
    window.bind_tabs(&[None, Some("/repo/gone")]);
    let stale_id = window.group_of(1).unwrap();

    let entry_paths = window.entry_paths();
    assert!(
        entry_paths.contains(&"/repo/a".to_string()),
        "the registry is non-empty; the bound root just is not in it"
    );
    assert_eq!(window.group_section(stale_id, &entry_paths), None);
    assert_eq!(window.section(1, &entry_paths), None);

    // And it matches where the display partition puts that tab.
    assert!(window.loose(&entry_paths).contains(&1));
}

/// With repo mode off, a restored root must not create a section.
#[test]
fn test_section_accessor_is_loose_with_repo_mode_off() {
    let mut window = Window::with_flags(REPO_MODE_OFF, Vec::new());
    window.bind_tabs(&[None, Some("/repo/a")]);
    let restored_id = window.group_of(1).unwrap();

    // Hand it a registry that does contain the root, so the flag gate is the
    // only thing that can make this loose.
    let entry_paths = strings(&["/repo/a"]);
    assert_eq!(window.group_section(restored_id, &entry_paths), None);
    assert_eq!(window.section(1, &entry_paths), None);
}

/// Grouped tabs off means there are no sections at all.
#[test]
fn test_section_accessor_is_loose_with_grouped_tabs_off() {
    let mut window = Window::with_flags(GROUPED_TABS_OFF, Vec::new());
    window.bind_tabs(&[None, Some("/repo/a")]);
    let bound_id = window.group_of(1).unwrap();

    let entry_paths = strings(&["/repo/a"]);
    assert_eq!(window.group_section(bound_id, &entry_paths), None);
    assert_eq!(window.section(1, &entry_paths), None);
}

/// A repo-bound tab dragged where no group resolves must not be unbound.
#[test]
fn test_repo_bound_source_blocks_reassignment_when_no_target_resolves() {
    let mut window = Window::new(one_repo_projects());
    window.bind_tabs(&[None, Some("/repo/a"), Some("/repo/a")]);
    let bound_id = window.group_of(1).unwrap();

    let entry_paths = window.entry_paths();
    assert!(
        window.blocks(1, None, &entry_paths),
        "a repo-bound tab is never unbound by a drag that resolves no group"
    );
    assert_eq!(window.group_of(1), Some(bound_id));

    // Reordering inside its own repo group is the same skip.
    assert!(window.blocks(1, Some(bound_id), &entry_paths));
}

/// A loose tab dragged over a repo-bound group never acquires the binding.
#[test]
fn test_repo_bound_target_blocks_a_loose_tab_from_joining() {
    let mut window = Window::new(one_repo_projects());
    window.bind_tabs(&[None, Some("/repo/a")]);
    let bound_id = window.group_of(1).unwrap();

    let entry_paths = window.entry_paths();
    assert_eq!(
        window.section(0, &entry_paths),
        None,
        "tab 0 is the loose one being dragged"
    );
    assert!(
        window.blocks(0, Some(bound_id), &entry_paths),
        "a loose tab must not acquire a repository binding by drag"
    );
    assert_eq!(window.group_of(0), None);
}

/// A loose tab dragged into a user-created group still joins it.
#[test]
fn test_a_user_created_group_still_accepts_a_dragged_loose_tab() {
    let mut window = Window::new(one_repo_projects());
    window.bind_tabs(&[None, None]);
    let user_group_id = window.add_group(None);
    window.workspace.strip.tabs[1].group_id = Some(user_group_id);

    let entry_paths = window.entry_paths();
    assert!(!window.blocks(0, Some(user_group_id), &entry_paths));
    // And dragging back out of it is equally unguarded.
    assert!(!window.blocks(1, None, &entry_paths));
}

/// With repo mode off the guard stays quiet.
#[test]
fn test_drag_reassignment_is_unguarded_with_repo_mode_off() {
    let mut window = Window::with_flags(REPO_MODE_OFF, Vec::new());
    window.bind_tabs(&[None, Some("/repo/a")]);
    let restored_id = window.group_of(1).unwrap();

    // Even handed a registry containing that root, both sides read loose.
    let entry_paths = strings(&["/repo/a"]);
    assert!(!window.blocks(0, Some(restored_id), &entry_paths));
    assert!(!window.blocks(1, None, &entry_paths));
}

/// Inside one repository's run, the neighbour is that repository's adjacent tab.
#[test]
fn test_section_neighbor_moves_within_a_repository_run() {
    let mut window = Window::new(one_repo_projects());
    // [A1, A2, A3], all bound to /repo/a.
    window.bind_tabs(&[Some("/repo/a"), Some("/repo/a"), Some("/repo/a")]);
    let entry_paths = window.entry_paths();

    assert_eq!(
        window.neighbor(2, false, &entry_paths),
        Some(1),
        "the neighbour above A3 is A2"
    );
    assert_eq!(
        window.neighbor(0, true, &entry_paths),
        Some(1),
        "the neighbour below A1 is A2"
    );
}

/// At each end of the repository's run there is no same-section tab left in that
/// direction.
#[test]
fn test_section_neighbor_clamps_at_the_repository_strip_edges() {
    let mut window = Window::new(one_repo_projects());
    // [L0, A1, A2, A3, L4]
    window.bind_tabs(&[
        None,
        Some("/repo/a"),
        Some("/repo/a"),
        Some("/repo/a"),
        None,
    ]);
    let entry_paths = window.entry_paths();

    assert_eq!(
        window.neighbor(1, false, &entry_paths),
        None,
        "nothing above A1 inside the repository, though a loose tab sits there"
    );
    assert_eq!(
        window.neighbor(3, true, &entry_paths),
        None,
        "nothing below A3 inside the repository, though a loose tab sits there"
    );
    // And the list ends still clamp, as they always did.
    assert_eq!(window.neighbor(0, false, &entry_paths), None);
    assert_eq!(window.neighbor(4, true, &entry_paths), None);
}

/// The search skips foreign-section tabs rather than stopping at them.
#[test]
fn test_section_neighbor_skips_a_foreign_tab_between_two_loose_ones() {
    let mut window = Window::new(one_repo_projects());
    // [L0, A1, L2]
    window.bind_tabs(&[None, Some("/repo/a"), None]);
    let entry_paths = window.entry_paths();

    assert_eq!(
        window.neighbor(0, true, &entry_paths),
        Some(2),
        "L0's neighbour below is L2, past the repository tab between them"
    );
    assert_eq!(
        window.neighbor(2, false, &entry_paths),
        Some(0),
        "and symmetrically upward"
    );
}

/// A repository whose run is a single tab has no same-section neighbour.
#[test]
fn test_section_neighbor_is_absent_for_a_lone_repository_tab() {
    let mut window = Window::new(one_repo_projects());
    window.bind_tabs(&[None, Some("/repo/a"), None]);
    let entry_paths = window.entry_paths();

    assert_eq!(window.neighbor(1, false, &entry_paths), None);
    assert_eq!(window.neighbor(1, true, &entry_paths), None);
}

/// Every swap the neighbour search authorises leaves each repository's tabs one
/// contiguous run.
#[test]
fn test_section_scoped_swaps_keep_every_group_contiguous() {
    let mut window = Window::new(one_repo_projects());
    // [L0, A1, A2, L3]
    window.bind_tabs(&[None, Some("/repo/a"), Some("/repo/a"), None]);
    let entry_paths = window.entry_paths();
    window.assert_groups_contiguous();

    // The loose tab at 0 reaches its next loose tab across the run.
    let across = window
        .neighbor(0, true, &entry_paths)
        .expect("L0 has a loose neighbour below");
    assert_eq!(across, 3);
    window.workspace.strip.tabs.swap(0, across);
    window.assert_groups_contiguous();

    // And the repository's own interior swap keeps it contiguous too.
    let inside = window
        .neighbor(1, true, &entry_paths)
        .expect("A1 has a same-repository neighbour below");
    assert_eq!(inside, 2);
    window.workspace.strip.tabs.swap(1, inside);
    window.assert_groups_contiguous();
}

/// With nothing repo-bound in the window the neighbour is always the plain
/// adjacent index.
#[test]
fn test_section_neighbor_is_the_adjacent_index_with_no_repo_bound_group() {
    let mut window = Window::new(one_repo_projects());
    window.bind_tabs(&[None, None, None, None]);
    // One user-created group, which is not a repository section.
    let user_group_id = window.add_group(None);
    window.workspace.strip.tabs[1].group_id = Some(user_group_id);

    let entry_paths = window.entry_paths();
    window.assert_adjacent_neighbors_everywhere(&entry_paths);
}

/// A repo mode off build must not clamp.
#[test]
fn test_section_neighbor_is_the_adjacent_index_with_repo_mode_off() {
    let mut window = Window::with_flags(REPO_MODE_OFF, Vec::new());
    window.bind_tabs(&[None, Some("/repo/a"), None, None]);
    // Hand it a registry that does contain the root, so the flag gate is the
    // only thing that can keep this unclamped.
    window.assert_adjacent_neighbors_everywhere(&strings(&["/repo/a"]));
}

/// Nor may a grouped-tabs-off build.
#[test]
fn test_section_neighbor_is_the_adjacent_index_with_grouped_tabs_off() {
    let mut window = Window::with_flags(GROUPED_TABS_OFF, Vec::new());
    window.bind_tabs(&[None, Some("/repo/a"), None, None]);
    window.assert_adjacent_neighbors_everywhere(&strings(&["/repo/a"]));
}

/// A repo-bound tab refuses to swap with the loose tab beside it.
#[test]
fn test_a_repo_bound_tab_resolves_no_neighbor_past_a_loose_tab() {
    let mut window = Window::new(one_repo_projects());
    // [L0, A1, A2]
    window.bind_tabs(&[None, Some("/repo/a"), Some("/repo/a")]);
    let entry_paths = window.entry_paths();

    assert_eq!(
        window.neighbor(1, false, &entry_paths),
        None,
        "A1 cannot swap up past the loose tab beside it"
    );
    assert_eq!(
        window.neighbor(1, true, &entry_paths),
        Some(2),
        "but it still reorders inside its own repository"
    );
    assert_eq!(
        window.neighbor(0, true, &entry_paths),
        None,
        "and the loose tab has no loose tab below to swap with"
    );
}

/// The neighbour search is pure over sections and returns a pinned neighbour
/// like any other.
#[test]
fn test_section_neighbor_leaves_the_pinned_refusal_to_the_caller() {
    let mut window = Window::new(one_repo_projects());
    window.bind_tabs(&[Some("/repo/a"), Some("/repo/a")]);
    window.workspace.strip.tabs[0].pinned = true;

    let entry_paths = window.entry_paths();
    let neighbor = window.neighbor(1, false, &entry_paths);
    assert_eq!(
        neighbor,
        Some(0),
        "same section, so the neighbour resolves regardless of pin state"
    );

    let neighbor = neighbor.expect("resolved above");
    assert_ne!(
        window.workspace.strip.tabs[1].pinned, window.workspace.strip.tabs[neighbor].pinned,
        "and the caller's pinned check is what refuses this swap"
    );
}

/// `[L0, A1, A2, A3, L4]`: one registered repository holding three tabs, with a
/// loose tab on each side of its run.
fn repo_run_fixture() -> Window {
    let mut window = Window::new(one_repo_projects());
    window.bind_tabs(&[
        None,
        Some("/repo/a"),
        Some("/repo/a"),
        Some("/repo/a"),
        None,
    ]);
    window
}

/// Dragging a tab upward inside its repository's strip reorders it within that
/// strip.
#[test]
fn test_dragging_inside_a_repository_reorders_within_it() {
    let mut window = repo_run_fixture();
    let entry_paths = window.entry_paths();
    let repo_group = window.group_of(3).expect("A3 is bound");
    let before = window.tab_ids(&[2, 3]);
    let loose_ids = window.tab_ids(&[0, 4]);

    // Drag A3 up. The strip is flattened, so the geometry lookup resolves no
    // target group.
    let landed = window.drag_step(3, false, None, &entry_paths);
    assert_eq!(landed, 2, "A3 moved one slot up inside its repository");

    assert_eq!(
        window.partitioned_section(landed, &entry_paths),
        Some("/repo/a".to_string()),
        "and is still filed under the repository it was dragged inside"
    );
    assert_eq!(
        window.group_of(landed),
        Some(repo_group),
        "with the same group binding it started with"
    );
    assert_eq!(
        window.entry_indices("/repo/a", &entry_paths),
        vec![1, 2, 3],
        "the repository still owns the same run of slots"
    );
    assert_eq!(
        window.tab_ids(&[2, 3]),
        vec![before[1], before[0]],
        "but the two tabs inside it have swapped places"
    );
    assert_eq!(
        window.loose(&entry_paths),
        vec![0, 4],
        "the loose list is untouched"
    );
    assert_eq!(window.tab_ids(&[0, 4]), loose_ids);
    window.assert_groups_contiguous();
}

/// A drag that would carry the tab out of its repository's run resolves no move
/// at all and keeps the binding.
#[test]
fn test_dragging_past_the_repository_edge_moves_nothing_and_keeps_the_binding() {
    let mut window = repo_run_fixture();
    let entry_paths = window.entry_paths();
    let repo_group = window.group_of(1).expect("A1 is bound");
    let ids_before = window.tab_ids(&[0, 1, 2, 3, 4]);

    // Up past the top of the run, then down past the bottom of it.
    assert_eq!(
        window.drag_step(1, false, None, &entry_paths),
        1,
        "A1 has no same-repository tab above it, so nothing moves"
    );
    assert_eq!(
        window.drag_step(3, true, None, &entry_paths),
        3,
        "and A3 has none below it"
    );

    assert_eq!(
        window.tab_ids(&[0, 1, 2, 3, 4]),
        ids_before,
        "the tab order is exactly as it was"
    );
    for index in [1usize, 2, 3] {
        assert_eq!(
            window.partitioned_section(index, &entry_paths),
            Some("/repo/a".to_string()),
            "tab {index} is still filed under its repository"
        );
        assert_eq!(window.group_of(index), Some(repo_group));
    }
    window.assert_groups_contiguous();
}

/// A tab in "Other tabs" dragged past a repository's run never acquires that
/// repository.
#[test]
fn test_a_loose_tab_dragged_over_a_repository_stays_loose() {
    let mut window = repo_run_fixture();
    let entry_paths = window.entry_paths();
    let repo_group = window.group_of(1).expect("A1 is bound");
    let repo_ids_before = window.tab_ids(&[1, 2, 3]);
    let dragged = window.workspace.strip.tabs[4].id;

    let landed = window.drag_step(4, false, Some(repo_group), &entry_paths);
    assert_eq!(landed, 0, "it reordered against the other loose tab");

    assert_eq!(
        window.workspace.strip.tabs[landed].id, dragged,
        "the tab that moved is the loose one"
    );
    assert_eq!(
        window.group_of(landed),
        None,
        "and it acquired no repository binding on the way"
    );
    assert_eq!(
        window.partitioned_section(landed, &entry_paths),
        None,
        "so it is still under \"Other tabs\""
    );
    assert_eq!(
        window.entry_indices("/repo/a", &entry_paths),
        vec![1, 2, 3],
        "and the repository's own tabs are exactly where they were"
    );
    assert_eq!(window.tab_ids(&[1, 2, 3]), repo_ids_before);
    window.assert_groups_contiguous();
}

/// A repository holding a single tab: dragged either way, the group must survive
/// with that tab still in it.
#[test]
fn test_dragging_a_repositorys_only_tab_leaves_its_group_intact() {
    let mut window = Window::new(one_repo_projects());
    // [L0, A1, L2] — the repository's whole run is one tab.
    window.bind_tabs(&[None, Some("/repo/a"), None]);
    let entry_paths = window.entry_paths();
    let repo_group = window.group_of(1).expect("A1 is bound");
    let dragged = window.workspace.strip.tabs[1].id;

    for forward in [false, true] {
        assert_eq!(
            window.drag_step(1, forward, None, &entry_paths),
            1,
            "a lone repository tab has nowhere to go (forward={forward})"
        );
        assert_eq!(
            window.workspace.strip.tabs[1].id, dragged,
            "and it is still the tab sitting there"
        );
        assert_eq!(
            window.group_of(1),
            Some(repo_group),
            "still a member of its repository's group"
        );
        assert_eq!(
            window
                .workspace
                .strip
                .tab_groups
                .iter()
                .find(|group| group.id == repo_group)
                .and_then(|group| group.repo_root.as_deref()),
            Some("/repo/a"),
            "which still exists and is still bound to the repository"
        );
        assert_eq!(
            window.entry_indices("/repo/a", &entry_paths),
            vec![1],
            "so the entry still lists it — the way back stays reachable"
        );
    }
    window.assert_groups_contiguous();
}

/// A drag moves the row past the neighbours it crossed, and what is written at
/// the end is the order that was seen; a reset goes back to recency.
#[test]
fn a_row_drag_is_written_down_and_can_be_reset() {
    let mut window = Window::new(projects_by_recency(&["/repo/c", "/repo/a", "/repo/b"]));
    assert_eq!(window.rendered_order(), ["/repo/c", "/repo/a", "/repo/b"]);

    window.start_drag("/repo/b");
    assert!(window.workspace.is_dragging("/repo/b"));
    let frame = window.frame();
    let passed =
        window
            .workspace
            .drag_repo_mode_entry("/repo/b", true, false, &window.registry, &frame);
    assert_eq!(passed, Some("/repo/a".to_string()));
    assert_eq!(window.rendered_order(), ["/repo/c", "/repo/b", "/repo/a"]);

    match window
        .workspace
        .drop_repo_mode_entry("/repo/b", &window.registry)
    {
        DropOutcome::Write { order } => {
            assert_eq!(order, ["/repo/c", "/repo/b", "/repo/a"]);
            window
                .registry
                .set_manual_order(order.iter().map(|path| registry_path(path)).collect());
        }
        other => panic!("expected an order to write, got {other:?}"),
    }
    assert!(!window.workspace.is_dragging("/repo/b"));
    assert_eq!(
        window.registry.stored_order(),
        ["/repo/c", "/repo/b", "/repo/a"]
    );

    window.workspace.reset_repo_mode_order(&mut window.registry);
    assert!(!window.registry.has_manual_order());
    assert_eq!(window.rendered_order(), ["/repo/c", "/repo/a", "/repo/b"]);
}

/// A drag that moved nothing writes nothing.
#[test]
fn a_drag_in_place_writes_nothing() {
    let mut window = Window::new(projects_by_recency(&["/repo/c", "/repo/a"]));
    window.rendered_order();
    window.start_drag("/repo/a");
    assert!(matches!(
        window
            .workspace
            .drop_repo_mode_entry("/repo/a", &window.registry),
        DropOutcome::Nothing
    ));
    assert!(!window.registry.has_manual_order());
}

#[test]
fn only_the_dragged_row_moves_in_a_stored_order() {
    // Nothing stored: the list as seen is the order.
    assert_eq!(
        merge_dragged_row(&Vec::new(), &strings(&["/b", "/a"]), 0),
        ["/b", "/a"]
    );
    // The pin knows a row the stored order does not, and the other way round.
    assert_eq!(
        merge_dragged_row(
            &strings(&["/x", "/a", "/b", "/c"]),
            &strings(&["/a", "/new", "/c", "/b"]),
            2
        ),
        ["/x", "/a", "/c", "/b"]
    );
}

#[test]
fn a_swap_needs_a_neighbour_that_was_passed() {
    let rows = strings(&["/a", "/b", "/c"]);
    assert_eq!(repo_mode_row_swap_target(&rows, "/b", true, false), Some(0));
    assert_eq!(repo_mode_row_swap_target(&rows, "/b", false, true), Some(2));
    assert_eq!(repo_mode_row_swap_target(&rows, "/b", true, true), Some(0));
    assert_eq!(repo_mode_row_swap_target(&rows, "/b", false, false), None);
    assert_eq!(repo_mode_row_swap_target(&rows, "/a", true, false), None);
}

#[test]
fn the_reference_row_follows_the_swap() {
    assert_eq!(
        reference_shift(Some("/a"), "/a", "/b"),
        ReferenceShift::Along
    );
    assert_eq!(
        reference_shift(Some("/b"), "/a", "/b"),
        ReferenceShift::Against
    );
    assert_eq!(
        reference_shift(Some("/c"), "/a", "/b"),
        ReferenceShift::Still
    );
}

/// Readings of the disk are kept for a while and then taken again.
#[test]
fn readings_of_the_disk_run_out() {
    let mut window = Window::new(one_repo_projects());
    assert_eq!(
        window.workspace.list.fs_probe_keys(&window.registry, 0),
        ["/repo/a"]
    );
    window.entries();
    assert!(window
        .workspace
        .list
        .fs_probe_keys(&window.registry, REPO_FS_CACHE_TTL_MILLIS - 1)
        .is_empty());
    assert_eq!(
        window
            .workspace
            .list
            .fs_probe_keys(&window.registry, REPO_FS_CACHE_TTL_MILLIS),
        ["/repo/a"]
    );
    // A remote key is never looked for on this machine's disk.
    let remote = Window::new(vec![project(&probe_target("/srv").key(), 1)]);
    assert!(remote
        .workspace
        .list
        .fs_probe_keys(&remote.registry, 0)
        .is_empty());
}

/// A submitted connection is probed under its own key, and a success closes the
/// form and registers it.
#[test]
fn an_added_connection_is_registered_once_verified() {
    let target = probe_target("/srv/app");
    let mut window = Window::new(Vec::new());
    let request = window
        .workspace
        .add_remote_repo_mode_entry(3, probe_target("/srv/app"), &window.registry)
        .expect("repo mode is on");
    assert_eq!(request.key, target.key());
    assert_eq!(request.token, Some(3));
    assert!(window.entries()[0].unverified);

    let landing = window.apply(
        &target,
        request.generation,
        request.token,
        Ok(found("/srv/app", None)),
    );
    assert!(matches!(
        landing,
        ProbeLanding::Committed {
            close_form: true,
            ..
        }
    ));
    assert_eq!(window.registered_paths(), [target.key()]);
    assert!(!window.entries()[0].unverified);

    // A refused one names the form that asked.
    let other = probe_target("/srv/other");
    let request = window
        .workspace
        .add_remote_repo_mode_entry(4, probe_target("/srv/other"), &window.registry)
        .expect("repo mode is on");
    let landing = window.apply(
        &other,
        request.generation,
        request.token,
        Ok(RemoteProbeOutcome::Missing),
    );
    assert!(matches!(
        landing,
        ProbeLanding::AddFailed {
            token: 4,
            failure: RemoteProbeFailure::PathNotFound,
        }
    ));
    assert_eq!(window.registered_paths(), [target.key()]);
}

#[test]
fn menus_show_one_at_a_time() {
    let window = Window::new(one_repo_projects());
    let mut menus = OpenMenus {
        tab: true,
        tab_group: false,
        repo_mode: false,
    };
    assert_eq!(menus.toggle_repo_mode_add_menu(false), None);
    assert!(menus.tab);
    let rows = menus.toggle_repo_mode_entry_menu(true, "/repo/a", &window.registry);
    assert_eq!(rows, Some(repo_mode_entry_menu_entries("/repo/a", false)));
    assert!(menus.repo_mode && !menus.tab && !menus.tab_group);
    assert_eq!(menus.toggle_repo_mode_add_menu(true), None);
    assert!(!menus.repo_mode);
}

#[test]
fn the_entry_menu_offers_a_reset_under_a_manual_order() {
    let reset = |rows: &Vec<Option<(&'static str, WorkspaceAction)>>| {
        rows.iter()
            .flatten()
            .any(|(_, action)| *action == WorkspaceAction::ResetRepoModeOrder)
    };
    assert!(!reset(&repo_mode_entry_menu_entries("/repo/a", false)));
    assert!(reset(&repo_mode_entry_menu_entries("/repo/a", true)));
}

/// The picker offers the repositories that can be opened.
#[test]
fn the_picker_offers_every_live_repository() {
    let (_dir, root) = root_dir();
    let mut window = Window::new(projects_by_recency(&[&root, "/repo/gone"]));
    let entries = window.entries();
    let offered: Vec<WorkspaceAction> = repo_mode_picker_entries(&entries)
        .into_iter()
        .map(|(_, action)| action)
        .collect();
    assert!(offered.contains(&WorkspaceAction::SelectRepoModeEntry(root)));
    assert!(!offered.contains(&WorkspaceAction::SelectRepoModeEntry(
        "/repo/gone".to_string()
    )));
}

/// With warpification the `cd` waits for the remote session and is sent once;
/// without it the path travels on the command line.
#[test]
fn a_remote_tab_lands_in_its_path_once() {
    let target = probe_target("/srv/app");
    let tab = open_remote_repo_mode_tab(&target, true);
    assert_eq!(tab.command, "ssh -i '/k' -p 22 -- 'vinh@10.0.0.7'");
    let mut landing = tab.landing.expect("a landing to wait for");
    assert_eq!(
        landing.on_session_event(SessionEvent::LocalBootstrapped, true),
        None
    );
    assert_eq!(
        landing.on_session_event(SessionEvent::RemoteBootstrapped, true),
        Some("cd '/srv/app'".to_string())
    );
    assert_eq!(
        landing.on_session_event(SessionEvent::RemoteBootstrapped, true),
        None
    );

    let plain = open_remote_repo_mode_tab(&target, false);
    assert!(plain.landing.is_none());
    assert!(plain.command.contains("/srv/app"));
}

/// With repo mode off nothing is listed, selected or filtered.
#[test]
fn repo_mode_off_leaves_the_window_alone() {
    let mut window = Window::with_flags(REPO_MODE_OFF, one_repo_projects());
    assert!(window.entries().is_empty());
    let frame = window.frame();
    assert!(window
        .workspace
        .select_repo_mode_entry(
            registry_path("/repo/a"),
            &mut window.registry,
            &frame,
            7
        )
        .is_none());
    assert_eq!(window.workspace.selected_repo_root, None);
    assert!(!Path::new("/repo/a").exists());
}

/// A picked folder is registered under its canonical path and selected; without
/// a canonical path nothing is added.
#[test]
fn a_picked_folder_is_registered_and_selected() {
    let (dir, root) = root_dir();
    let mut window = Window::new(Vec::new());
    let frame = window.frame();
    assert!(window
        .workspace
        .add_local_repo_mode_entry(None, &mut window.registry, &frame, 7)
        .is_none());
    assert!(window
        .workspace
        .add_local_repo_mode_entry(
            Some(registry_path("/repo/gone")),
            &mut window.registry,
            &frame,
            7
        )
        .is_none());
    assert!(window.registered_paths().is_empty());

    let with_slash = format!("{}/", dir.path().display());
    let (effects, made) = window
        .workspace
        .add_local_repo_mode_entry(
            Some(registry_path(&with_slash)),
            &mut window.registry,
            &frame,
            7,
        )
        .expect("a folder that is there is added");
    assert_eq!(effects.len(), 2);
    assert!(matches!(made.tab, TabAction::OpenLocal { group_id: 7 }));
    assert_eq!(window.registered_paths(), [root.clone()]);
    assert_eq!(
        window.workspace.selected_repo_root.as_deref(),
        Some(root.as_str())
    );
}

/// A window that was drawing a stored order when another window reset it
/// discards its next drop instead of writing the old order back, once.
#[test]
fn a_reset_in_another_window_is_not_undone() {
    let mut window = Window::new(projects_by_recency(&["/repo/c", "/repo/a", "/repo/b"]));
    window.apply_manual_order(&["/repo/a", "/repo/b", "/repo/c"]);
    assert_eq!(window.rendered_order(), ["/repo/a", "/repo/b", "/repo/c"]);

    // Another window resets.
    window.registry.clear_manual_order();
    assert_eq!(window.rendered_order(), ["/repo/a", "/repo/b", "/repo/c"]);

    let drag_up = |window: &mut Window, path: &str| {
        window.start_drag(path);
        let frame = window.frame();
        window
            .workspace
            .drag_repo_mode_entry(path, true, false, &window.registry, &frame);
        window
            .workspace
            .drop_repo_mode_entry(path, &window.registry)
    };
    assert!(matches!(
        drag_up(&mut window, "/repo/c"),
        DropOutcome::Discarded
    ));
    assert_eq!(
        window.rendered_order(),
        ["/repo/c", "/repo/a", "/repo/b"],
        "the list is back to recency"
    );
    assert!(matches!(
        drag_up(&mut window, "/repo/b"),
        DropOutcome::Write { .. }
    ));
}

/// A row that connected keeps the place it was watched at, under the key that
/// the host expanded it to.
#[test]
fn a_connected_row_keeps_its_place() {
    let target = probe_target("~/app");
    let mut window = Window::new(projects_by_recency(&["/repo/c", "/repo/a"]));
    assert_eq!(window.rendered_order(), ["/repo/c", "/repo/a"]);
    let request = window
        .workspace
        .add_remote_repo_mode_entry(1, probe_target("~/app"), &window.registry)
        .expect("repo mode is on");
    assert_eq!(
        window.rendered_order(),
        [target.key().as_str(), "/repo/c", "/repo/a"]
    );
    window.apply(
        &target,
        request.generation,
        request.token,
        Ok(found("/home/vinh/app", None)),
    );
    let resolved = probe_target("/home/vinh/app").key();
    assert_eq!(
        window.rendered_order(),
        [resolved.as_str(), "/repo/c", "/repo/a"]
    );
}

/// A tab taken out of the middle of its group leaves the rest of it together.
#[test]
fn a_tab_that_leaves_its_group_does_not_split_it() {
    let mut window = Window::new(one_repo_projects());
    window.bind_tabs(&[
        None,
        Some("/repo/a"),
        Some("/repo/a"),
        Some("/repo/a"),
        None,
    ]);
    let leaving = window.workspace.strip.tabs[2].id;
    window.workspace.strip.remove_tab_from_group(2);
    let now_at = window
        .workspace
        .strip
        .tabs
        .iter()
        .position(|tab| tab.id == leaving)
        .unwrap();
    assert_eq!(window.group_of(now_at), None);
    assert_eq!(window.tab_count(), 5);
    window.assert_groups_contiguous();
}

/// Each of two neighbouring rows is the other's neighbour.
#[test]
fn neighbouring_rows_are_each_others_neighbours() {
    let rows = strings(&["/a", "/b", "/c"]);
    for (index, row) in rows.iter().enumerate() {
        if let Some(below) = repo_mode_row_neighbor(&rows, row, true) {
            assert_eq!(
                repo_mode_row_neighbor(&rows, &rows[below], false),
                Some(index)
            );
        }
    }
}

/// What happens to one key's probe is nothing to another's.
#[test]
fn probes_of_two_keys_do_not_meet() {
    let mut probes = ProbeSessions::new();
    let first = probes.begin_remote_probe("ssh://u@h:22/a").unwrap();
    let second = probes.begin_remote_probe("ssh://u@h:22/b").unwrap();
    assert_ne!(first, second);
    assert!(!probes.finish_remote_probe(
        "ssh://u@h:22/a",
        second,
        RemoteProbeState::Failed {
            reason: RemoteProbeFailure::Unreachable
        }
    ));
    assert!(probes.in_flight("ssh://u@h:22/a"));
    probes.forget("ssh://u@h:22/b");
    assert!(probes.in_flight("ssh://u@h:22/a"));
    assert!(!probes.contains_key("ssh://u@h:22/b"));
    probes.move_session("ssh://u@h:22/a", "ssh://u@h:22/c");
    assert!(probes.finish_remote_probe(
        "ssh://u@h:22/c",
        first,
        RemoteProbeState::Resolved {
            kind: RepoEntryKind::Folder,
            branch: None,
        }
    ));
}

/// The tabs by recency are all the tabs, each once, the last used one first.
#[test]
fn tabs_by_recency_are_all_the_tabs() {
    let mut window = Window::new(Vec::new());
    window.bind_tabs(&[None, None, None]);
    window.activate(1);
    let order = window.workspace.strip.tab_indices_in_mru_order();
    assert_eq!(order[0], 1);
    let mut sorted = order.clone();
    sorted.sort();
    assert_eq!(sorted, [0, 1, 2]);
    assert_eq!(
        window.workspace.strip.mru_first_among(&vec![0, 1]),
        Some(1)
    );
    let group = window.add_group(None);
    window.workspace.strip.tabs[2].group_id = Some(group);
    assert_eq!(
        window.workspace.strip.mru_first_tab_index_in_group(group),
        Some(2)
    );
}

/// Dragging a row past a neighbour and back is as if it had not moved.
#[test]
fn a_row_dragged_there_and_back_writes_nothing() {
    let mut window = Window::new(projects_by_recency(&["/repo/c", "/repo/a"]));
    window.rendered_order();
    window.start_drag("/repo/a");
    for (above, below) in [(true, false), (false, true)] {
        let frame = window.frame();
        window.workspace.drag_repo_mode_entry(
            "/repo/a",
            above,
            below,
            &window.registry,
            &frame,
        );
    }
    assert_eq!(window.rendered_order(), ["/repo/c", "/repo/a"]);
    assert!(matches!(
        window
            .workspace
            .drop_repo_mode_entry("/repo/a", &window.registry),
        DropOutcome::Nothing
    ));
}

/// Refreshing a row shows no key that is not there: once another window has
/// removed the entry it stays away, whatever its probe is doing.
#[test]
fn a_refreshed_key_that_was_removed_elsewhere_stays_away() {
    let key = probe_target("/srv/app").key();
    let mut window = Window::new(vec![project(&key, 1), project("/repo/a", 2)]);
    assert_eq!(window.rendered_order(), ["/repo/a", key.as_str()]);
    assert!(window.begin(&key).is_some());
    window.registry.remove_project(registry_path(&key));
    assert!(window.workspace.list.probes.in_flight(&key));
    assert_eq!(window.rendered_order(), ["/repo/a"]);

    // The same for a key that was never registered.
    let other = probe_target("/srv/other").key();
    assert!(window.begin(&other).is_some());
    assert_eq!(window.rendered_order(), ["/repo/a"]);
}

/// Once the form has given a connection up, its probe is like that of any other
/// row: a re-added entry that another window removes stays away.
#[test]
fn a_connection_that_was_given_up_shows_no_row() {
    let target = probe_target("/srv/app");
    let key = target.key();
    let mut window = Window::new(vec![project(&key, 1)]);
    window
        .workspace
        .add_remote_repo_mode_entry(1, target, &window.registry)
        .expect("repo mode is on");
    window
        .workspace
        .close_remote_connection_modal(&window.registry);
    assert!(window.workspace.list.probes.in_flight(&key));
    assert_eq!(window.rendered_order(), [key.as_str()]);
    window.registry.remove_project(registry_path(&key));
    assert!(window.rendered_order().is_empty());
}

/// The key the form waits on is the one row that is not registered, and it
/// leads.
#[test]
fn only_the_forms_key_shows_unregistered() {
    let target = probe_target("/srv/app");
    let key = target.key();
    let mut window = Window::new(projects_by_recency(&["/repo/a", "/repo/b"]));
    let other = probe_target("/srv/other").key();
    window.begin(&other);
    window
        .workspace
        .add_remote_repo_mode_entry(1, target, &window.registry)
        .expect("repo mode is on");
    let entries = window.entries();
    assert_eq!(entries.len(), 3);
    assert_eq!(entries[0].path, key);
    assert!(entries[0].unverified);
    assert!(!entries[1].unverified && !entries[2].unverified);

    // Nothing moves while it waits, whatever is used or ordered elsewhere.
    window.upsert("/repo/b");
    window.apply_manual_order(&["/repo/b", "/repo/a"]);
    assert_eq!(window.rendered_order(), [key.as_str(), "/repo/a", "/repo/b"]);
}

/// A dropped row comes first when the stored order knows no row above it, and
/// otherwise follows the nearest row that it knows.
#[test]
fn a_dropped_row_follows_the_nearest_known_row() {
    let stored = strings(&["/a", "/b", "/c"]);
    assert_eq!(
        merge_dragged_row(&stored, &strings(&["/new", "/c", "/a", "/b"]), 1),
        ["/c", "/a", "/b"]
    );
    assert_eq!(
        merge_dragged_row(&stored, &strings(&["/a", "/new", "/other", "/c", "/b"]), 3),
        ["/a", "/c", "/b"]
    );
}

/// Rows, tabs and drags go by the path and not by its spelling.
#[test]
fn rows_and_tabs_go_by_the_path_not_its_spelling() {
    let rows = strings(&["/repo/a", "/repo/b"]);
    assert_eq!(repo_mode_row_neighbor(&rows, "/repo/a/", true), Some(1));
    assert_eq!(
        repo_mode_bound_tab_owner("/repo//b/.", &rows),
        Some("/repo/b".to_string())
    );
    assert_eq!(repo_mode_bound_tab_owner("repo/b", &rows), None);
    assert_eq!(
        merge_dragged_row(
            &strings(&["/a", "/b/", "/c"]),
            &strings(&["/b", "/a/", "/c"]),
            1
        ),
        ["/b/", "/a/", "/c"]
    );

    let mut window = Window::new(projects_by_recency(&["/repo/a", "/repo/b"]));
    window.bind_tabs(&[Some("/repo/a/"), Some("/repo/a"), None]);
    let paths = window.entry_paths();
    let partition = window.workspace.strip.repo_mode_tab_partition(&paths);
    assert_eq!(partition.members("/repo/a"), [0, 1]);
    assert_eq!(partition.members("/repo/a/"), [0, 1]);
    assert_eq!(partition.loose, [2]);
    window.start_drag("/repo/a");
    assert!(window.workspace.is_dragging("/repo/a/"));
    assert!(!window.workspace.is_dragging("/repo/b"));
}

/// A registered connection that is added again with another spelling of its path
/// stays as it is.
#[test]
fn adding_a_connection_again_in_another_spelling_keeps_it() {
    let key = probe_target("/srv/app").key();
    let again = probe_target("/srv/app/");
    let mut window = Window::new(vec![project(&key, 1)]);
    let request = window
        .workspace
        .add_remote_repo_mode_entry(1, again.clone(), &window.registry)
        .expect("repo mode is on");
    let landing = window.workspace.apply_remote_probe_result(
        &again,
        &request.key,
        request.generation,
        Some(1),
        Ok(found("/srv/app", None)),
        &mut window.registry,
        at(now_nanos()),
    );
    assert!(matches!(
        landing,
        ProbeLanding::Committed { close_form: true, .. }
    ));
    assert_eq!(window.registered_paths(), [key.as_str()]);
    assert_eq!(window.registry.all_projects()[0].last_opened_ts, Some(at(1)));
}

/// A drag on a list that was never drawn resolves it first, whether the drag's
/// start or its first move is what arrives.
#[test]
fn a_drag_on_an_undrawn_list_resolves_it() {
    for started in [true, false] {
        let mut window = Window::new(projects_by_recency(&["/repo/c", "/repo/a"]));
        window.apply_manual_order(&["/repo/a", "/repo/c"]);
        assert!(window.workspace.list.launch_order.is_none());
        if started {
            window.start_drag("/repo/c");
        } else {
            let frame = window.frame();
            assert_eq!(
                window.workspace.drag_repo_mode_entry(
                    "/repo/c",
                    true,
                    false,
                    &window.registry,
                    &frame
                ),
                None
            );
        }
        assert!(window.workspace.is_dragging("/repo/c"));
        assert_eq!(
            window.workspace.list.launch_order,
            Some(strings(&["/repo/a", "/repo/c"]))
        );
        assert!(window.workspace.list.saw_stored_order);
    }
}

/// Two uses less than a microsecond apart are told apart.
#[test]
fn recency_goes_by_the_nanosecond() {
    let mut window = Window::new(vec![
        project("/repo/a", 1_000_000_000),
        project("/repo/b", 1_000_000_001),
    ]);
    assert_eq!(window.rendered_order(), ["/repo/b", "/repo/a"]);
}
