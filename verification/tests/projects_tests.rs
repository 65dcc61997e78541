use chrono::Utc;

use repo_mode::projects::{
    Project, ProjectEvent, ProjectManagementModel, RegistryEffect, RegistryPath,
};
use repo_mode::stamps::Stamp;

const HOUR: i64 = 3_600_000_000_000;

fn now_nanos() -> i64 {
    Utc::now().timestamp_nanos_opt().expect("this century")
}

fn at(nanos: i64) -> Stamp {
    Stamp {
        secs: nanos.div_euclid(1_000_000_000),
        nanos: nanos.rem_euclid(1_000_000_000) as u32,
    }
}

/// A path that does not resolve on disk, so its registry key is the path as
/// written.
fn unresolved(path: &str) -> RegistryPath {
    RegistryPath {
        path: path.to_string(),
        resolved: None,
    }
}

fn project(path: &str, last_used_at: i64, manual_position: Option<i32>) -> Project {
    Project {
        path: path.to_string(),
        added_ts: at(last_used_at),
        last_opened_ts: Some(at(last_used_at)),
        manual_position,
    }
}

fn ordered_paths(registry: &ProjectManagementModel) -> Vec<String> {
    registry
        .projects_in_manual_order()
        .into_iter()
        .map(|project| project.path.clone())
        .collect()
}

fn manual_positions(registry: &ProjectManagementModel) -> Vec<(String, Option<i32>)> {
    registry
        .projects_in_manual_order()
        .into_iter()
        .map(|project| (project.path.clone(), project.manual_position))
        .collect()
}

/// A set order is what the ordered read reports back, verbatim.
#[test]
fn test_set_manual_order_is_read_back_in_that_order() {
    let now = now_nanos();
    let mut registry = ProjectManagementModel::new(vec![
        project("/repo/a", now, None),
        project("/repo/b", now, None),
        project("/repo/c", now, None),
    ]);

    registry.set_manual_order(vec![
        unresolved("/repo/c"),
        unresolved("/repo/a"),
        unresolved("/repo/b"),
    ]);

    assert_eq!(
        ordered_paths(&registry),
        vec!["/repo/c", "/repo/a", "/repo/b"]
    );
}

/// A path the registry has never heard of is skipped and does not consume a
/// position.
#[test]
fn test_set_manual_order_ignores_unregistered_paths() {
    let now = now_nanos();
    let mut registry = ProjectManagementModel::new(vec![
        project("/repo/a", now, None),
        project("/repo/b", now, None),
    ]);

    registry.set_manual_order(vec![
        unresolved("/repo/b"),
        unresolved("/repo/never-registered"),
        unresolved("/repo/a"),
    ]);

    assert_eq!(
        manual_positions(&registry),
        vec![
            ("/repo/b".to_string(), Some(0)),
            ("/repo/a".to_string(), Some(1)),
        ]
    );
}

/// A repository added while a manual order is in effect gets no position and
/// lands at the end of the list.
#[test]
fn test_projects_without_a_manual_position_sort_last() {
    let now = now_nanos();
    // `/repo/newest` is the most recently used, so recency ordering alone would
    // put it first. The manual order has to beat that.
    let mut registry = ProjectManagementModel::new(vec![
        project("/repo/a", now - 2 * HOUR, None),
        project("/repo/b", now - HOUR, None),
        project("/repo/newest", now, None),
    ]);

    registry.set_manual_order(vec![unresolved("/repo/b"), unresolved("/repo/a")]);

    assert_eq!(
        ordered_paths(&registry),
        vec!["/repo/b", "/repo/a", "/repo/newest"]
    );
}

/// Removing a repository drops it from the ordered read and leaves the survivors
/// on the positions they already held.
#[test]
fn test_removing_a_project_drops_it_from_the_order_without_renumbering() {
    let now = now_nanos();
    let mut registry = ProjectManagementModel::new(vec![
        project("/repo/a", now, None),
        project("/repo/b", now, None),
        project("/repo/c", now, None),
    ]);

    registry.set_manual_order(vec![
        unresolved("/repo/a"),
        unresolved("/repo/b"),
        unresolved("/repo/c"),
    ]);
    registry.remove_project(unresolved("/repo/b"));

    assert_eq!(
        manual_positions(&registry),
        vec![
            ("/repo/a".to_string(), Some(0)),
            ("/repo/c".to_string(), Some(2)),
        ]
    );
}

/// Clearing discards the manual order outright.
#[test]
fn test_clear_manual_order_leaves_every_project_without_a_position() {
    let now = now_nanos();
    let mut registry = ProjectManagementModel::new(vec![
        project("/repo/a", now - HOUR, Some(0)),
        project("/repo/b", now, Some(1)),
    ]);

    registry.clear_manual_order();

    assert_eq!(
        manual_positions(&registry),
        vec![("/repo/b".to_string(), None), ("/repo/a".to_string(), None)],
        "with no manual order left, the read falls back to recency"
    );
}

/// A first upsert adds, a second one records the use, and both are saved and
/// announced.
#[test]
fn upserting_adds_once_and_then_records_the_use() {
    let mut registry = ProjectManagementModel::new(Vec::new());
    let announced = RegistryEffect::Emit {
        event: ProjectEvent::Added {
            path: "/repo/a".to_string(),
        },
    };
    let effects = registry.upsert_project_at(unresolved("/repo/a"), at(7));
    assert_eq!(
        effects[0],
        RegistryEffect::Save {
            project: project("/repo/a", 7, None)
        }
    );
    assert_eq!(effects[1], announced);
    let effects = registry.upsert_project_at(unresolved("/repo/a"), at(9));
    assert!(matches!(effects[0], RegistryEffect::Save { .. }));
    assert_eq!(effects[1], announced);
    assert_eq!(effects.len(), 2);
    assert_eq!(
        registry.all_projects(),
        &vec![Project {
            path: "/repo/a".to_string(),
            added_ts: at(7),
            last_opened_ts: Some(at(9)),
            manual_position: None,
        }]
    );
}

/// The clock is the system's: an upsert lands between two readings of it.
#[test]
fn upserting_takes_the_time_from_the_clock() {
    let before = at(now_nanos());
    let mut registry = ProjectManagementModel::new(Vec::new());
    registry.upsert_project(unresolved("/repo/a"));
    let after = at(now_nanos());
    let stamped = registry.all_projects()[0].added_ts;
    assert!(before <= stamped && stamped <= after);
}

/// A local path is known by what it resolves to, a remote key by itself.
#[test]
fn keys_are_resolved_for_local_paths_only() {
    let mut registry = ProjectManagementModel::new(Vec::new());
    registry.upsert_project(RegistryPath {
        path: "/link".to_string(),
        resolved: Some("/real".to_string()),
    });
    registry.upsert_project(RegistryPath {
        path: "ssh://u@h:22/srv".to_string(),
        resolved: Some("/srv".to_string()),
    });
    assert!(registry.contains_key("/real"));
    assert!(!registry.contains_key("/link"));
    assert!(registry.contains_key("ssh://u@h:22/srv"));
    assert!(!registry.contains_key("/srv"));
}

/// Removing what is not registered changes nothing.
#[test]
fn removing_an_unknown_path_changes_nothing() {
    let mut registry = ProjectManagementModel::new(vec![project("/repo/a", 1, None)]);
    let effects = registry.remove_project(unresolved("/repo/b"));
    assert!(effects.is_empty());
    assert_eq!(registry.all_projects().len(), 1);
}

/// Two spellings of a path are one project, which keeps the spelling it was
/// added under.
#[test]
fn a_path_is_registered_once_in_whatever_spelling() {
    let mut registry = ProjectManagementModel::new(Vec::new());
    registry.upsert_project_at(unresolved("/repo/a"), at(1));
    registry.upsert_project_at(unresolved("/repo/b/"), at(2));
    registry.upsert_project_at(unresolved("/repo//a/."), at(3));
    assert_eq!(registry.all_projects().len(), 2);
    assert_eq!(registry.all_projects()[0].path, "/repo/a");
    assert_eq!(registry.all_projects()[0].last_opened_ts, Some(at(3)));

    registry.set_manual_order(vec![unresolved("/repo/b"), unresolved("/repo/a/")]);
    assert_eq!(
        manual_positions(&registry),
        vec![
            ("/repo/b/".to_string(), Some(0)),
            ("/repo/a".to_string(), Some(1)),
        ]
    );

    // Where a path starts counts, and so does a way up.
    registry.upsert_project_at(unresolved("repo/a"), at(4));
    registry.upsert_project_at(unresolved("./repo/a"), at(5));
    registry.upsert_project_at(unresolved("/repo/b/../a"), at(6));
    assert_eq!(registry.all_projects().len(), 5);

    assert_eq!(registry.remove_project(unresolved("/repo/a/")).len(), 2);
    assert!(!registry.contains_key("/repo/a"));
    assert!(registry.contains_key("repo/a"));
}

/// Of persisted projects at one path the last counts.
#[test]
fn persisted_spellings_of_one_path_load_as_one_project() {
    let registry = ProjectManagementModel::new(vec![
        project("/repo/a", 1, None),
        project("/repo/a/", 2, None),
    ]);
    assert_eq!(registry.all_projects().len(), 1);
    assert_eq!(registry.all_projects()[0].path, "/repo/a/");
    assert_eq!(registry.all_projects()[0].added_ts, at(2));
}

/// Instants go by the second and then by the nanosecond, and the nanoseconds of
/// a leap second go on past its first one.
#[test]
fn instants_are_told_apart_by_the_nanosecond() {
    let stamp = |secs: i64, nanos: u32| Stamp { secs, nanos };
    assert!(stamp(1, 1).is_after(&stamp(1, 0)));
    assert!(!stamp(1, 0).is_after(&stamp(1, 0)));
    assert!(stamp(0, 0).is_after(&stamp(-1, 999_999_999)));
    assert!(stamp(2, 0).is_after(&stamp(1, 1_500_000_000)));

    let registry = ProjectManagementModel::new(vec![
        project("/repo/a", 1_000_000_000, None),
        project("/repo/b", 1_000_000_001, None),
    ]);
    assert_eq!(ordered_paths(&registry), vec!["/repo/b", "/repo/a"]);
}
