use std::collections::HashSet;

use pathfinder_geometry::rect::RectF;
use pathfinder_geometry::vector::vec2f;
use repo_mode::actions::WorkspaceAction;
use repo_mode::badges::{
    repo_mode_badges_by_entry, GitLineChanges, RepoModeEntryBadges, TerminalGit,
};
use repo_mode::entry::{RemoteTarget, RepoEntryKind};
use repo_mode::labels::{
    remote_row_state, repo_row_position_id, row_id_of_hash, row_labels, truncate_label,
    RemoteRowStatus, NAME_BUDGET, SECONDARY_LABEL_BUDGET,
};
use repo_mode::listing::{RemoteListEntry, RepoModeListEntry};
use repo_mode::probe::{RemoteProbeFailure, RemoteProbeState};
use repo_mode::rows::repo_mode_row_swap_target;
use repo_mode::sidebar::{
    branches_to_read, render_entry_row, render_repo_tree, repo_mode_activity, repo_row_click_action,
    repo_row_indicators, repo_row_is_draggable, repo_tab_block_visible, row_drag_response, Chevron,
    DragGesture, DragResponse, MetaLead, RepoRowActivity, RepoRowIndicators, RowIcon, SidebarSettings, TreeInputs,
};
use repo_mode::sidebar_state::{
    fs_probe_ttl, git_dir, read_git_head_branch, DotGit, GitDir, Keyed, RepoSidebarState, SlowMount,
    BRANCH_CACHE_TTL_MILLIS,
};
use repo_mode::stamps::Stamp;
use repo_mode::tabs::{Tab, TabGroup, TabStrip};

fn remote(probe: RemoteProbeState) -> RemoteListEntry {
    RemoteListEntry {
        target: RemoteTarget {
            server: "10.0.0.7".to_string(),
            port: 22,
            user: "vinh".to_string(),
            identity: "/k".to_string(),
            remote_path: "/srv/app".to_string(),
        },
        probe,
    }
}

fn keys_of<V>(rows: &[Keyed<V>]) -> Vec<String> {
    rows.iter().map(|row| row.key.clone()).collect()
}

/// A resolved repository shows its branch and names the machine it points at.
#[test]
fn resolved_repo_row_shows_branch_and_host() {
    let state = remote_row_state(
        &remote(RemoteProbeState::Resolved {
            kind: RepoEntryKind::Repo,
            branch: Some("main".to_string()),
        }),
        SECONDARY_LABEL_BUDGET,
    );
    assert_eq!(state.branch.as_deref(), Some("main"));
    assert_eq!(state.status, RemoteRowStatus::Ready);
    assert_eq!(state.secondary, "vinh@10.0.0.7");
    assert_eq!(state.tooltip, "vinh@10.0.0.7");
}

/// A plain directory renders as a folder with no branch.
#[test]
fn resolved_folder_row_shows_no_branch() {
    let state = remote_row_state(
        &remote(RemoteProbeState::Resolved {
            kind: RepoEntryKind::Folder,
            branch: None,
        }),
        SECONDARY_LABEL_BUDGET,
    );
    assert_eq!(state.branch, None);
    assert_eq!(state.status, RemoteRowStatus::Ready);
}

/// An entry that has not been probed yet says so.
#[test]
fn unprobed_row_is_pending() {
    let state = remote_row_state(&remote(RemoteProbeState::Pending), SECONDARY_LABEL_BUDGET);
    assert_eq!(state.status, RemoteRowStatus::Pending);
    assert_eq!(state.branch, None);
    assert!(state.tooltip.contains("vinh@10.0.0.7"));
}

/// A failed probe dims the row and keeps the reason reachable on hover.
#[test]
fn failed_row_is_unreachable_and_explains_why() {
    for reason in [
        RemoteProbeFailure::Unreachable,
        RemoteProbeFailure::NeedsFirstHandConnect,
        RemoteProbeFailure::PathNotFound,
        RemoteProbeFailure::SshUnavailable,
    ] {
        let state = remote_row_state(
            &remote(RemoteProbeState::Failed { reason }),
            SECONDARY_LABEL_BUDGET,
        );
        assert_eq!(state.status, RemoteRowStatus::Unreachable(reason));
        assert_eq!(state.branch, None);
        assert!(
            state.tooltip.contains(reason.message()),
            "tooltip {:?} should carry {:?}",
            state.tooltip,
            reason.message()
        );
        assert!(state.tooltip.contains("vinh@10.0.0.7"));
    }
}

/// A long `user@host` is ellipsized, and the full value stays available on hover.
#[test]
fn long_host_label_truncates_but_the_tooltip_keeps_it_whole() {
    let long = RemoteListEntry {
        target: RemoteTarget {
            server: "build-runner-07.internal.example-company.com".to_string(),
            port: 22,
            user: "deployment-service".to_string(),
            identity: String::new(),
            remote_path: "/srv/app".to_string(),
        },
        probe: RemoteProbeState::Pending,
    };
    let full = long.target.user_host();
    let state = remote_row_state(&long, SECONDARY_LABEL_BUDGET);

    assert!(state.secondary.chars().count() <= SECONDARY_LABEL_BUDGET);
    assert!(state.secondary.contains('…'));
    assert!(state.tooltip.contains(&full));
}

/// The row body is never destructive.
#[test]
fn a_dead_rows_body_click_never_removes_the_entry() {
    let path = "/repo/gone";

    assert!(
        repo_row_click_action(false, true, false, path).is_none(),
        "a left-click on a dead row's body must not remove the registry entry"
    );
    assert!(
        repo_row_click_action(false, true, true, path).is_none(),
        "and that holds whether or not the dead row is the selected one"
    );

    // A live row still selects and deselects.
    assert!(matches!(
        repo_row_click_action(false, false, false, path),
        Some(WorkspaceAction::SelectRepoModeEntry(ref p)) if p == path
    ));
    assert!(matches!(
        repo_row_click_action(false, false, true, path),
        Some(WorkspaceAction::SelectRepoModeAll)
    ));
}

/// A registry row, as the list hands it to the sidebar. Registered, so its key
/// is settled whatever the probe currently says.
fn list_entry(path: &str, probe: Option<RemoteProbeState>, is_dead: bool) -> RepoModeListEntry {
    let now = chrono::Utc::now();
    let now = Stamp {
        secs: now.timestamp(),
        nanos: now.timestamp_subsec_nanos(),
    };
    RepoModeListEntry {
        path: path.to_string(),
        display_name: path.to_string(),
        kind: RepoEntryKind::Folder,
        is_dead,
        last_opened_ts: Some(now),
        added_ts: now,
        remote: probe.map(remote),
        unverified: false,
    }
}

/// A remote row projected into the list ahead of the registry.
fn unverified_entry(path: &str) -> RepoModeListEntry {
    RepoModeListEntry {
        unverified: true,
        ..list_entry(path, Some(RemoteProbeState::Pending), false)
    }
}

/// A remote row whose key the registry has not accepted cannot be picked up.
#[test]
fn an_unverified_remote_row_is_the_only_row_that_cannot_be_dragged() {
    assert!(!repo_row_is_draggable(&unverified_entry(
        "ssh://vinh@10.0.0.7/srv/app"
    )));
    // A registered row reads `Pending` after every launch, and its key is
    // settled all the same.
    assert!(repo_row_is_draggable(&list_entry(
        "ssh://vinh@10.0.0.7/srv/app",
        Some(RemoteProbeState::Pending),
        false
    )));
    assert!(repo_row_is_draggable(&list_entry(
        "ssh://vinh@10.0.0.7/srv/app",
        Some(RemoteProbeState::Resolved {
            kind: RepoEntryKind::Repo,
            branch: Some("main".to_string()),
        }),
        false
    )));
    assert!(repo_row_is_draggable(&list_entry(
        "ssh://vinh@10.0.0.7/srv/app",
        Some(RemoteProbeState::Failed {
            reason: RemoteProbeFailure::Unreachable,
        }),
        false
    )));
    assert!(repo_row_is_draggable(&list_entry("/repo/gone", None, true)));
    assert!(repo_row_is_draggable(&list_entry("/repo/a", None, false)));
}

/// An unverified remote row still publishes a position id, even though it cannot
/// be dragged.
#[test]
fn an_unverified_remote_row_still_publishes_a_position() {
    let entries = [
        unverified_entry("ssh://vinh@10.0.0.7/srv/app"),
        list_entry("/repo/a", None, false),
        list_entry("/repo/b", None, false),
    ];
    let ids: Vec<String> = entries
        .iter()
        .map(|entry| repo_row_position_id(&entry.path))
        .collect();
    assert_eq!(ids.len(), 3);
    assert!(
        ids.iter().all(|id| !id.is_empty()),
        "every row publishes a rect, draggable or not"
    );
    assert_eq!(
        ids.iter().collect::<HashSet<_>>().len(),
        3,
        "and the ids are per-row, so one row's rect cannot answer for another"
    );

    // With the pending row at index 0, the row below it still resolves it as a
    // reachable swap target rather than clamping there. The pending row sits at
    // y=0..40; /repo/a has been dragged up past its midpoint.
    let paths: Vec<String> = entries.iter().map(|entry| entry.path.clone()).collect();
    let viewport = RectF::new(vec2f(0., 0.), vec2f(200., 400.));
    let dragged = RectF::new(vec2f(0., -5.), vec2f(200., 40.));
    let above = RectF::new(vec2f(0., 0.), vec2f(200., 40.));
    let above_passed = viewport.intersects(above)
        && (dragged.min_y() + dragged.max_y()) / 2. < (above.min_y() + above.max_y()) / 2.;
    assert_eq!(
        repo_mode_row_swap_target(&paths, "/repo/a", above_passed, false),
        Some(0)
    );
}

/// Per-entry drag state is dropped with the rest of a row's state when its entry
/// leaves the registry, and kept for one that has not.
#[test]
fn prune_to_drops_drag_state_for_a_departed_entry() {
    let mut state = RepoSidebarState::default();
    for key in ["/repo/a", "/repo/b"] {
        state.set_dragging(key, false);
    }

    state.prune_to(&vec!["/repo/a".to_string()]);

    assert_eq!(keys_of(&state.entry_drags), vec!["/repo/a".to_string()]);
}

/// The selected repository's tab block folds away for the duration of any
/// repository-row drag.
#[test]
fn the_tab_block_folds_away_while_a_repository_row_is_dragged() {
    let mut state = RepoSidebarState::default();
    state.set_dragging("/repo/a", false);
    state.set_dragging("/repo/b", false);

    assert!(!state.any_entry_drag_active());
    assert!(
        repo_tab_block_visible(true, state.any_entry_drag_active()),
        "the selected repository shows its tabs when nothing is being dragged"
    );

    state.set_dragging("/repo/a", true);

    assert!(state.any_entry_drag_active());
    assert!(
        !repo_tab_block_visible(true, state.any_entry_drag_active()),
        "and hides them while *any* row is dragged, not just its own"
    );
    // An unselected row has no tab block either way.
    assert!(!repo_tab_block_visible(false, false));
}

/// What stops a released drag from also selecting the repository is the drag
/// start clearing the press off the row body's interaction state. That only
/// works because both sides address one handle.
#[test]
fn a_repository_rows_body_and_its_drag_share_one_interaction_state() {
    let mut state = RepoSidebarState::default();

    let row_body = state.entry_row_mouse("/repo/a");
    let drag_start = state.entry_row_mouse("/repo/a");
    assert_eq!(
        row_body, drag_start,
        "the drag has to clear the very state the row body recorded its press on"
    );
    assert_ne!(
        row_body,
        state.entry_row_mouse("/repo/b"),
        "and one row's state must not answer for another's"
    );

    // Pruning drops the handle, so a re-added row starts from a clean one
    // rather than inheriting a press that was never released.
    state.prune_to(&Vec::new());
    assert_ne!(row_body, state.entry_row_mouse("/repo/a"));
}

/// A row that crossed the drag threshold dispatches nothing at all.
#[test]
fn a_row_that_crossed_the_drag_threshold_dispatches_no_selection() {
    let path = "/repo/a";

    assert!(
        repo_row_click_action(true, false, false, path).is_none(),
        "no selection and no session spawn while the row is being dragged"
    );
    assert!(
        repo_row_click_action(true, false, true, path).is_none(),
        "and no deselection either"
    );
    assert!(matches!(
        repo_row_click_action(false, false, false, path),
        Some(WorkspaceAction::SelectRepoModeEntry(ref p)) if p == path
    ));
}

/// Per-entry sidebar state is dropped when its entry leaves the registry,
/// rather than accumulating for the window's lifetime.
#[test]
fn removing_an_entry_leaves_no_sidebar_state_behind() {
    let mut state = RepoSidebarState::default();
    for key in ["/repo/a", "/repo/b"] {
        state.entry_row_mouse(key);
        state.pr_badge_mouse(key);
        state.remove_button_mouse(key);
        state.store_branch(key, 0, BRANCH_CACHE_TTL_MILLIS, Some("main".to_string()));
    }

    state.prune_to(&vec!["/repo/a".to_string()]);

    for map_keys in [
        keys_of(&state.entry_rows),
        keys_of(&state.pr_badges),
        keys_of(&state.remove_buttons),
        keys_of(&state.branch_cache),
    ] {
        assert_eq!(map_keys, vec!["/repo/a".to_string()]);
    }
}

#[test]
fn truncate_label_keeps_both_ends() {
    assert_eq!(truncate_label("short", 10), "short");
    assert_eq!(truncate_label("exactly-10", 10), "exactly-10");
    assert_eq!(truncate_label("abcdefghijkl", 9).chars().count(), 9);
    let truncated = truncate_label("vinh@build-runner.example.com", 12);
    assert!(truncated.starts_with("vinh@"));
    assert!(truncated.ends_with(".com"));
    // A budget too small to ellipsize meaningfully leaves the label alone
    // rather than returning something unreadable.
    assert_eq!(truncate_label("abcdef", 2), "abcdef");
}

/// A long name and a deep path are both ellipsized, and hover still carries what
/// was removed.
#[test]
fn a_long_name_and_a_deep_path_are_both_clipped() {
    // A local row's name is its path's last component, which is what makes the
    // full path a sufficient hover text for both.
    let name = "warp-terminal-experimental-rendering-backend";
    let path = format!("/Users/vinh/Desktop/repos/clients/acme/{name}");
    let labels = row_labels(name, path.clone(), path.clone());

    assert!(labels.name.chars().count() <= NAME_BUDGET);
    assert!(labels.name.contains('…'));
    assert!(labels.secondary.chars().count() <= SECONDARY_LABEL_BUDGET);
    assert!(labels.secondary.contains('…'));

    // The local row's hover text is its full path, which is where the clipped
    // characters remain readable. It is not prefixed with the name, because the
    // path already ends in it.
    assert_eq!(labels.hover, path);
}

/// A row that already fits is left exactly as it was.
#[test]
fn a_row_that_fits_is_left_alone() {
    let labels = row_labels(
        "warp",
        "~/repos/warp".to_string(),
        "/repos/warp".to_string(),
    );
    assert_eq!(labels.name, "warp");
    assert_eq!(labels.secondary, "~/repos/warp");
    assert_eq!(labels.hover, "/repos/warp");
}

/// A clipped remote name is prefixed onto the hover text.
#[test]
fn a_clipped_remote_name_stays_readable_on_hover() {
    let name = "billing-service-integration-tests";
    let already_clipped = truncate_label(
        "deployment-service@build-runner-07.internal.example.com",
        SECONDARY_LABEL_BUDGET,
    );
    let labels = row_labels(name, already_clipped.clone(), already_clipped.clone());

    assert!(labels.name.contains('…'));
    assert!(
        labels.hover.starts_with(name),
        "the full name must survive somewhere the user can reach it"
    );
    assert_eq!(
        labels.secondary, already_clipped,
        "clipping an already-clipped label must be a no-op"
    );
}

#[test]
fn truncation_keeps_the_larger_half_in_front() {
    assert_eq!(truncate_label("abcdefghij", 6), "abc\u{2026}ij");
    assert_eq!(truncate_label("abcdefghij", 5), "ab\u{2026}ij");
    // Clipping what was clipped changes nothing.
    assert_eq!(
        truncate_label(&truncate_label("abcdefghij", 6), 6),
        "abc\u{2026}ij"
    );
}

/// The id is the prefix and the hash in lower-case hexadecimal, and the hash is
/// the same in every process.
#[test]
fn a_row_id_is_its_keyed_hash() {
    assert_eq!(row_id_of_hash(0), "repo_mode:row:0000000000000000");
    assert_eq!(
        row_id_of_hash(0x0123456789abcdef),
        "repo_mode:row:0123456789abcdef"
    );
    assert_eq!(
        repo_row_position_id("/repo/a"),
        "repo_mode:row:4384ed799fc81e8f"
    );
    assert_ne!(
        repo_row_position_id("/repo/a"),
        repo_row_position_id("/repo/b")
    );
    assert_eq!(
        repo_row_position_id("/repo/a"),
        repo_row_position_id("/repo/a")
    );
    assert!(!repo_row_position_id("/repo/a").contains("/repo/a"));
}

/// All spellings of a path publish under one id.
#[test]
fn one_path_has_one_row_id() {
    for spelling in ["/repo/a/", "//repo//a", "/./repo/./a/."] {
        assert_eq!(
            repo_row_position_id(spelling),
            repo_row_position_id("/repo/a")
        );
    }
    for other in ["repo/a", "./repo/a", "/repo/../repo/a", "/repo/a.", "/"] {
        assert_ne!(repo_row_position_id(other), repo_row_position_id("/repo/a"));
    }
}

/// A reading that was slow enough to mean a stalled mount is used for longer.
#[test]
fn a_stalled_mount_is_read_less_often() {
    let slow = SlowMount {
        slow_after: 500,
        ttl: 60_000,
    };
    assert_eq!(fs_probe_ttl(499, BRANCH_CACHE_TTL_MILLIS, slow), 5000);
    assert_eq!(fs_probe_ttl(500, BRANCH_CACHE_TTL_MILLIS, slow), 60_000);
}

/// A terminal speaks for its repository in whatever spelling it has the path.
#[test]
fn badges_follow_the_path_not_its_spelling() {
    let here = TerminalGit {
        repo_path: Some("/repo/a/".to_string()),
        diff_stats: None,
        pull_request_url: Some("https://example.com/1".to_string()),
    };
    let badges = repo_mode_badges_by_entry(
        &strip(),
        &vec![vec![here]],
        &vec!["/repo/a".to_string(), "/repo/b".to_string()],
    );
    assert_eq!(keys_of(&badges), ["/repo/a/"]);
    assert_eq!(
        badges[0].value.pull_request_url,
        Some("https://example.com/1".to_string())
    );
}

fn tab(id: u64, group_id: Option<u64>) -> Tab {
    Tab {
        id,
        group_id,
        pinned: false,
    }
}

fn bound(id: u64, root: &str) -> TabGroup {
    TabGroup {
        id,
        repo_root: Some(root.to_string()),
        name: None,
    }
}

fn strip() -> TabStrip {
    TabStrip {
        tabs: vec![tab(1, Some(10)), tab(2, None), tab(3, Some(10))],
        tab_groups: vec![bound(10, "/repo/a")],
        active_tab_index: 0,
        tab_mru_order: vec![1, 2, 3],
    }
}

fn quiet() -> RepoRowActivity {
    RepoRowActivity {
        any_synced: false,
        any_unread: false,
    }
}

fn inputs(selected: Option<&str>) -> TreeInputs {
    TreeInputs {
        entries: vec![
            list_entry("/repo/a", None, false),
            list_entry("/repo/gone", None, true),
        ],
        selected: selected.map(|path| path.to_string()),
        settings: SidebarSettings {
            show_diff_stats: true,
            show_pr_link: true,
            show_indicators: true,
        },
        terminals: vec![vec![], vec![], vec![]],
        activity: vec![
            quiet(),
            quiet(),
            RepoRowActivity {
                any_synced: false,
                any_unread: true,
            },
        ],
        friendly_paths: vec![],
    }
}

/// Every entry has a row; the selected one shows its tabs; a tab of no entry is
/// loose; and during a drag the tabs fold away.
#[test]
fn the_tree_lists_entries_and_their_tabs() {
    let mut state = RepoSidebarState::default();
    let tree = render_repo_tree(&mut state, &inputs(Some("/repo/a")), &strip());
    let keys: Vec<&str> = tree.rows.iter().map(|row| row.key.as_str()).collect();
    assert_eq!(keys, ["/repo/a", "/repo/gone"]);
    assert_eq!(tree.rows[0].members, Some(vec![0, 2]));
    assert_eq!(tree.rows[1].members, None);
    assert_eq!(tree.loose, vec![1]);
    assert!(tree.rows[1].row.removable);
    assert!(!tree.rows[0].row.removable);

    state.set_dragging("/repo/gone", true);
    let tree = render_repo_tree(&mut state, &inputs(Some("/repo/a")), &strip());
    assert_eq!(tree.rows[0].members, None);
    assert_eq!(tree.loose, vec![1]);

    // Folded up, the row carries what its tabs would show.
    let tree = render_repo_tree(&mut state, &inputs(None), &strip());
    assert!(tree.rows[0].row.indicators.unread);
    assert!(!tree.rows[0].row.indicators.synced);
    assert_eq!(tree.hint, None);
}

/// With nothing registered the tree says how to begin, and every tab is loose.
#[test]
fn an_empty_tree_says_how_to_begin() {
    let mut state = RepoSidebarState::default();
    let empty = TreeInputs {
        entries: vec![],
        ..inputs(None)
    };
    let tree = render_repo_tree(&mut state, &empty, &strip());
    assert!(tree.rows.is_empty());
    assert_eq!(tree.hint, Some("No repositories yet — add one with + Add"));
    assert_eq!(tree.loose, vec![0, 1, 2]);
}

/// A branch is read for live local rows whose last reading has run out.
#[test]
fn branches_are_read_when_their_reading_runs_out() {
    let mut state = RepoSidebarState::default();
    let repo = RepoModeListEntry {
        kind: RepoEntryKind::Repo,
        ..list_entry("/repo/a", None, false)
    };
    let dead = RepoModeListEntry {
        kind: RepoEntryKind::Repo,
        ..list_entry("/repo/gone", None, true)
    };
    let entries = vec![repo, dead];
    assert_eq!(branches_to_read(&state, &entries, 0), vec!["/repo/a"]);
    state.store_branch(
        "/repo/a",
        100,
        BRANCH_CACHE_TTL_MILLIS,
        Some("main".to_string()),
    );
    assert!(branches_to_read(&state, &entries, 5099).is_empty());
    assert_eq!(
        state.repo_branch("/repo/a", 5099),
        Some(Some("main".to_string()))
    );
    assert_eq!(branches_to_read(&state, &entries, 5100), vec!["/repo/a"]);
    assert_eq!(state.repo_branch("/repo/a", 5100), None);
    assert_eq!(state.last_branch("/repo/a"), Some("main".to_string()));
}

#[test]
fn a_head_is_a_branch_or_a_short_commit() {
    assert_eq!(read_git_head_branch("ref: refs/heads/feature/x\n"), "feature/x");
    assert_eq!(
        read_git_head_branch("0123456789abcdef0123456789abcdef01234567\n"),
        "01234567"
    );
    assert_eq!(git_dir(&DotGit::Directory), Some(GitDir::Own));
    for target in ["/repo/.git/worktrees/a", "../.git/worktrees/a", "C:/repo/.git"] {
        assert_eq!(
            git_dir(&DotGit::File(Some(format!("gitdir: {target}\n")))),
            Some(GitDir::Linked(target.to_string()))
        );
    }
    assert_eq!(git_dir(&DotGit::File(None)), None);
    assert_eq!(git_dir(&DotGit::File(Some("nonsense".to_string()))), None);
}

#[test]
fn a_row_shows_its_kind_its_branch_and_its_badges() {
    let badges = || RepoModeEntryBadges {
        diff_stats: Some(GitLineChanges {
            files_changed: 1,
            lines_added: 2,
            lines_removed: 3,
        }),
        pull_request_url: None,
    };
    let none = RepoRowIndicators {
        synced: false,
        unread: false,
    };
    let repo = RepoModeListEntry {
        kind: RepoEntryKind::Repo,
        ..list_entry("/repo/a", None, false)
    };
    let row = render_entry_row(
        &repo,
        "~/a",
        Some("main".to_string()),
        badges(),
        none,
        true,
    );
    assert_eq!(row.icon, RowIcon::GitBranch);
    assert_eq!(row.secondary, "~/a");
    assert_eq!(row.chevron, Some(Chevron::Down));
    let meta = row.meta.unwrap();
    assert_eq!(meta.lead, MetaLead::Branch("main".to_string()));
    assert_eq!(meta.badges, badges());

    let down = list_entry(
        "ssh://vinh@10.0.0.7:22/srv/app",
        Some(RemoteProbeState::Failed {
            reason: RemoteProbeFailure::Unreachable,
        }),
        false,
    );
    let row = render_entry_row(&down, "", None, badges(), none, false);
    assert_eq!(row.icon, RowIcon::CloudOffline);
    assert!(row.dimmed);
    assert!(row.tooltip.unwrap().contains("vinh@10.0.0.7"));
}

#[test]
fn badges_come_from_terminals_in_the_repository() {
    let elsewhere = TerminalGit {
        repo_path: Some("/repo/b".to_string()),
        diff_stats: Some(GitLineChanges {
            files_changed: 9,
            lines_added: 9,
            lines_removed: 9,
        }),
        pull_request_url: Some("https://example.com/9".to_string()),
    };
    let here = TerminalGit {
        repo_path: Some("/repo/a".to_string()),
        diff_stats: Some(GitLineChanges {
            files_changed: 1,
            lines_added: 2,
            lines_removed: 0,
        }),
        pull_request_url: Some("https://example.com/1".to_string()),
    };
    let badges = repo_mode_badges_by_entry(
        &strip(),
        &vec![vec![elsewhere], vec![], vec![here]],
        &vec!["/repo/a".to_string(), "/repo/c".to_string()],
    );
    assert_eq!(keys_of(&badges), vec!["/repo/a".to_string()]);
    assert_eq!(
        badges[0].value,
        RepoModeEntryBadges {
            diff_stats: Some(GitLineChanges {
                files_changed: 1,
                lines_added: 2,
                lines_removed: 0,
            }),
            pull_request_url: Some("https://example.com/1".to_string()),
        }
    );
}

#[test]
fn activity_is_that_of_any_member() {
    let activity = inputs(None).activity;
    assert_eq!(repo_mode_activity(&activity, &vec![0, 1]), quiet());
    assert!(repo_mode_activity(&activity, &vec![0, 2]).any_unread);
    let shown = repo_row_indicators(
        false,
        false,
        true,
        RepoRowActivity {
            any_synced: true,
            any_unread: false,
        },
    );
    assert!(shown.synced && !shown.unread);
}

/// Picking a row up forgets the press on its body, so that letting go selects
/// nothing.
#[test]
fn picking_a_row_up_forgets_the_press() {
    assert_eq!(
        row_drag_response(true, DragGesture::Start, "/repo/a"),
        Some(DragResponse {
            gesture: DragGesture::Start,
            path: "/repo/a".to_string(),
            clears_press: true,
        })
    );
    let dropped = row_drag_response(true, DragGesture::Drop, "/repo/a").unwrap();
    assert!(!dropped.clears_press);
    assert_eq!(row_drag_response(false, DragGesture::Start, "/repo/a"), None);
}
