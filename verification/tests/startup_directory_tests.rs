use repo_mode::actions::{entry_tab_directory, loose_tab_directory, repo_mode_startup_directory};

/// A root is a path in the host filesystem, so it must not be handed to a
/// session that does not share that filesystem.
#[test]
fn a_wsl_session_does_not_receive_the_host_repo_root() {
    let dir = tempfile::tempdir().expect("tempdir");
    let root = dir.path().to_string_lossy().into_owned();
    let is_dir = dir.path().is_dir();

    assert_eq!(
        repo_mode_startup_directory(true, Some(&root), false, is_dir),
        None,
        "a session off the host system must fall through to the stock resolution"
    );

    // The same-system case still receives the root.
    assert_eq!(
        repo_mode_startup_directory(true, Some(&root), true, is_dir),
        Some(root.clone())
    );
}

/// A root that has been deleted since it was selected yields nothing.
#[test]
fn a_dead_root_falls_through_rather_than_launching_at_a_missing_directory() {
    let dir = tempfile::tempdir().expect("tempdir");
    let path = dir.path().to_path_buf();
    let root = path.to_string_lossy().into_owned();
    drop(dir);

    assert_eq!(
        repo_mode_startup_directory(true, Some(&root), true, path.is_dir()),
        None
    );
}

/// No selection, and the flag being off, both leave the stock resolution alone.
#[test]
fn no_selection_or_flag_off_supplies_no_directory() {
    let dir = tempfile::tempdir().expect("tempdir");
    let root = dir.path().to_string_lossy().into_owned();
    let is_dir = dir.path().is_dir();

    assert_eq!(repo_mode_startup_directory(true, None, true, is_dir), None);
    assert_eq!(
        repo_mode_startup_directory(false, Some(&root), true, is_dir),
        None
    );
}

#[test]
fn tabs_without_a_directory_of_their_own_start_at_home() {
    assert_eq!(
        loose_tab_directory(Some("/home/v".to_string()), "/tmp".to_string()),
        "/home/v"
    );
    assert_eq!(loose_tab_directory(None, "/tmp".to_string()), "/tmp");
    assert_eq!(
        entry_tab_directory("/srv/app", true, &Some("/home/v".to_string())),
        Some("/srv/app".to_string())
    );
    assert_eq!(
        entry_tab_directory("/srv/gone", false, &Some("/home/v".to_string())),
        Some("/home/v".to_string())
    );
}
