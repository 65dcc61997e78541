use std::path::{Path, PathBuf};

use repo_mode::desktop_exec::{
    folder_command, tokenize_exec, DesktopExecError, EditorMetadata, LaunchTarget,
};
use repo_mode::editors::Editor;
use repo_mode::launch::{CommandLine, LineAndColumnArg};

/// A desktop entry: where it is and what it holds.
struct DesktopFile {
    path: String,
    contents: String,
}

impl DesktopFile {
    fn metadata(&self) -> Result<EditorMetadata, DesktopExecError> {
        EditorMetadata::try_new(&self.path, &self.contents)
    }
}

fn target(path: &Path) -> LaunchTarget {
    LaunchTarget {
        path: path.to_str().map(|text| text.to_string()),
        resolved: dunce::canonicalize(path)
            .ok()
            .map(|found| found.to_string_lossy().into_owned()),
    }
}

fn with_files(
    tag: &str,
    contents: &str,
    cb: impl FnOnce(DesktopFile, PathBuf) -> Result<(), DesktopExecError>,
) {
    let dir = tempfile::Builder::new().prefix(tag).tempdir().unwrap();
    let root = dunce::canonicalize(dir.path()).unwrap();
    let content = tempfile::Builder::new()
        .prefix("foo.txt")
        .rand_bytes(0)
        .tempfile_in(&root)
        .unwrap();
    let desktop = DesktopFile {
        path: root.join("bar.desktop").display().to_string(),
        contents: contents.to_string(),
    };

    match cb(desktop, content.path().to_path_buf()) {
        Ok(_) => {}
        Err(err) => panic!("{err:?}"),
    };
}

// ---------- tokenize_exec unit tests ----------

#[test]
fn test_tokenize_simple() {
    let tokens = tokenize_exec("echo hello world").unwrap();
    assert_eq!(tokens, vec!["echo", "hello", "world"]);
}

#[test]
fn test_tokenize_quoted_argument() {
    let tokens = tokenize_exec(r#""/path/with spaces/editor" %f"#).unwrap();
    assert_eq!(tokens, vec!["/path/with spaces/editor", "%f"]);
}

#[test]
fn test_tokenize_escape_sequences_in_quotes() {
    let tokens = tokenize_exec(r#""a\"b\\c\$d\`e""#).unwrap();
    assert_eq!(tokens, vec!["a\"b\\c$d`e"]);
}

#[test]
fn test_tokenize_unrecognized_escape_in_quotes_keeps_backslash() {
    let tokens = tokenize_exec(r#""foo\nbar""#).unwrap();
    assert_eq!(tokens, vec!["foo\\nbar"]);
}

#[test]
fn test_tokenize_unterminated_quote_errors() {
    let result = tokenize_exec(r#""unterminated"#);
    assert!(matches!(result, Err(DesktopExecError::UnterminatedQuote)));
}

#[test]
fn test_tokenize_multiple_whitespace() {
    let tokens = tokenize_exec("a   b\tc\n d").unwrap();
    assert_eq!(tokens, vec!["a", "b", "c", "d"]);
}

#[test]
fn test_tokenize_empty_string() {
    let tokens = tokenize_exec("").unwrap();
    assert!(tokens.is_empty());
}

#[test]
fn test_tokenize_quoted_empty_string_produces_token() {
    let tokens = tokenize_exec(r#"cmd """#).unwrap();
    assert_eq!(tokens, vec!["cmd", ""]);
}

// ---------- build_command tests ----------

#[test]
fn test_missing_exec_command_errors() {
    with_files(
        "test_missing_exec_command_errors",
        "",
        |desktop, _content| {
            let result = desktop.metadata();

            assert!(matches!(result, Err(DesktopExecError::NoExec)));
            Ok(())
        },
    )
}

#[test]
fn test_unterminated_quote_errors() {
    let data = r#"
    [Desktop Entry]
    Version=1.0
    Type=Application
    Exec="unterminated %f
    "#;
    with_files(
        "test_unterminated_quote_errors",
        data,
        |desktop, content| {
            let metadata = desktop.metadata()?;
            let result = metadata.build_default_command(&target(&content));
            assert!(matches!(result, Err(DesktopExecError::UnterminatedQuote)));
            Ok(())
        },
    )
}

/// An Exec carrying no path field code would launch the editor on
/// nothing. Building the command has to fail so the caller can fall back,
/// rather than opening an empty window and reporting success.
#[test]
fn test_exec_with_no_path_field_code_errors() {
    let data = r#"
    [Desktop Entry]
    Version=1.0
    Type=Application
    Exec=/usr/bin/editor --flag
    "#;
    with_files(
        "test_exec_with_no_path_field_code_errors",
        data,
        |desktop, content| {
            let metadata = desktop.metadata()?;
            let result = metadata.build_default_command(&target(&content));
            assert!(matches!(result, Err(DesktopExecError::NoTargetPath)));
            Ok(())
        },
    )
}

/// Literal arguments around the path still survive, which is not what a
/// missing path is.
#[test]
fn test_literal_arguments_survive_alongside_the_path() {
    let data = r#"
    [Desktop Entry]
    Version=1.0
    Type=Application
    Exec=/usr/bin/editor --flag %f
    "#;
    with_files(
        "test_literal_arguments_survive_alongside_the_path",
        data,
        |desktop, content| {
            let metadata = desktop.metadata()?;
            let file_name = content.display().to_string();
            let result = metadata.build_default_command(&target(&content));
            assert!(result.is_ok());
            let cmd = result.unwrap();
            assert_eq!(cmd.program, "/usr/bin/editor");
            assert_eq!(
                cmd.args,
                ["--flag", file_name.as_str()]
            );
            Ok(())
        },
    )
}

#[test]
fn test_file_path_substitution() {
    let data = r#"
    [Desktop Entry]
    Version=1.0
    Type=Application
    Exec=cat %f
    "#;
    with_files("test_file_path_substitution", data, |desktop, content| {
        let metadata = desktop.metadata()?;
        let file_name = content.display().to_string();
        let result = metadata.build_default_command(&target(&content));

        assert!(result.is_ok());
        let cmd = result.unwrap();
        assert_eq!(cmd.program, "cat");
        assert_eq!(cmd.args, [file_name.as_str()]);
        Ok(())
    });

    let data = r#"
    [Desktop Entry]
    Version=1.0
    Type=Application
    Exec=cat %F
    "#;
    with_files("test_file_path_substitution", data, |desktop, content| {
        let metadata = desktop.metadata()?;
        let file_name = content.display().to_string();
        let result = metadata.build_default_command(&target(&content));

        assert!(result.is_ok());
        let cmd = result.unwrap();
        assert_eq!(cmd.program, "cat");
        assert_eq!(cmd.args, [file_name.as_str()]);
        Ok(())
    });
}

#[test]
fn test_file_url_substitution() {
    let data = r#"
    [Desktop Entry]
    Version=1.0
    Type=Application
    Exec=open %u
    "#;
    with_files("test_file_url_substitution", data, |desktop, content| {
        let metadata = desktop.metadata()?;
        let file_name = content.display().to_string();
        let expected_file_uri = format!("file://{file_name}");
        let result = metadata.build_default_command(&target(&content));

        assert!(result.is_ok());

        let cmd = result.unwrap();
        assert_eq!(cmd.program, "open");
        assert_eq!(
            cmd.args,
            [expected_file_uri.as_str()]
        );
        Ok(())
    });

    let data = r#"
    [Desktop Entry]
    Version=1.0
    Type=Application
    Exec=open %U
    "#;
    with_files("test_file_url_substitution", data, |desktop, content| {
        let metadata = desktop.metadata()?;
        let file_name = content.display().to_string();
        let expected_file_uri = format!("file://{file_name}");
        let result = metadata.build_default_command(&target(&content));

        assert!(result.is_ok());

        let cmd = result.unwrap();
        assert_eq!(cmd.program, "open");
        assert_eq!(
            cmd.args,
            [expected_file_uri.as_str()]
        );
        Ok(())
    });
}

#[test]
fn test_field_code_substitutions() {
    let data = r#"
    [Desktop Entry]
    Version=1.0
    Type=Application
    Exec=/usr/bin/app %c %i %k %% %f
    Name=Warp Test Application
    Icon=/foo/bar/icon.png
    "#;
    with_files("test_field_code_substitutions", data, |desktop, content| {
        let desktop_file_path = desktop.path.clone();
        let file_name = content.display().to_string();
        let metadata = desktop.metadata()?;
        let result = metadata.build_default_command(&target(&content));

        assert!(result.is_ok());

        let cmd = result.unwrap();
        assert_eq!(cmd.program, "/usr/bin/app");
        // %i expands to two arguments: --icon and the icon path.
        assert_eq!(
            cmd.args,
            [
                "Warp Test Application",
                "--icon",
                "/foo/bar/icon.png",
                desktop_file_path.as_str(),
                "%",
                file_name.as_str(),
            ]
        );
        Ok(())
    });
}

#[test]
fn test_jetbrains_command_no_line_numbers() {
    let data = r#"
    [Desktop Entry]
    Version=1.0
    Type=Application
    Exec=/snap/bin/phpstorm %f
    "#;

    with_files(
        "test_jetbrains_command_no_line_numbers",
        data,
        |desktop, content| {
            let metadata = desktop.metadata()?;
            let file_path = content.display().to_string();
            let result = metadata.build_jetbrains_command(&target(&content), None);

            assert!(result.is_ok());

            let cmd = result.unwrap();
            assert_eq!(cmd.program, "/snap/bin/phpstorm");
            assert_eq!(cmd.args, [file_path.as_str()]);
            Ok(())
        },
    );
}

#[test]
fn test_jetbrains_command_line_numbers() {
    let data = r#"
    [Desktop Entry]
    Version=1.0
    Type=Application
    Exec=/snap/bin/phpstorm %f
    "#;

    with_files(
        "test_jetbrains_command_line_numbers",
        data,
        |desktop, content| {
            let metadata = desktop.metadata()?;
            let file_path = content.display().to_string();
            let result = metadata.build_jetbrains_command(
                &target(&content),
                Some(LineAndColumnArg {
                    line_num: 42,
                    column_num: None,
                }),
            );

            assert!(result.is_ok());

            let cmd = result.unwrap();
            assert_eq!(cmd.program, "/snap/bin/phpstorm");
            assert_eq!(
                cmd.args,
                ["--line", "42", file_path.as_str()]
            );
            Ok(())
        },
    );
}

#[test]
fn test_jetbrains_command_line_and_col_numbers() {
    let data = r#"
    [Desktop Entry]
    Version=1.0
    Type=Application
    Exec=/snap/bin/phpstorm %f
    "#;
    with_files(
        "test_jetbrains_command_line_and_col_numbers",
        data,
        |desktop, content| {
            let metadata = desktop.metadata()?;
            let file_path = content.display().to_string();
            let result = metadata.build_jetbrains_command(
                &target(&content),
                Some(LineAndColumnArg {
                    line_num: 42,
                    column_num: Some(25),
                }),
            );

            assert!(result.is_ok());

            let cmd = result.unwrap();
            assert_eq!(cmd.program, "/snap/bin/phpstorm");
            assert_eq!(
                cmd.args,
                ["--line", "42", "--column", "25", file_path.as_str()]
            );
            Ok(())
        },
    );
}

#[test]
fn test_sublime_command_no_line_numbers() {
    let data = r#"
    [Desktop Entry]
    Version=1.0
    Type=Application
    Exec=/snap/bin/subl %f
    "#;
    with_files(
        "test_sublime_command_no_line_numbers",
        data,
        |desktop, content| {
            let metadata = desktop.metadata()?;
            let file_path = content.display().to_string();
            let result: Result<CommandLine, DesktopExecError> =
                metadata.build_sublime_command(&target(&content), None);

            assert!(result.is_ok());

            let cmd = result.unwrap();
            assert_eq!(cmd.program, "/snap/bin/subl");
            assert_eq!(cmd.args, [file_path.as_str()]);
            Ok(())
        },
    );
}

#[test]
fn test_sublime_command_line_numbers() {
    let data = r#"
    [Desktop Entry]
    Version=1.0
    Type=Application
    Exec=/snap/bin/subl %f
    "#;
    with_files(
        "test_sublime_command_line_numbers",
        data,
        |desktop, content| {
            let metadata = desktop.metadata()?;
            let file_path = content.display().to_string();
            let result = metadata.build_sublime_command(
                &target(&content),
                Some(LineAndColumnArg {
                    line_num: 42,
                    column_num: None,
                }),
            );

            assert!(result.is_ok());

            let cmd = result.unwrap();
            assert_eq!(cmd.program, "/snap/bin/subl");
            assert_eq!(
                cmd.args,
                [format!("{file_path}:42").as_str()]
            );
            Ok(())
        },
    );
}

#[test]
fn test_sublime_command_line_and_col_numbers() {
    let data = r#"
    [Desktop Entry]
    Version=1.0
    Type=Application
    Exec=/snap/bin/subl %f
    "#;
    with_files(
        "test_sublime_command_line_and_col_numbers",
        data,
        |desktop, content| {
            let metadata = desktop.metadata()?;
            let file_path = content.display().to_string();
            let result = metadata.build_sublime_command(
                &target(&content),
                Some(LineAndColumnArg {
                    line_num: 42,
                    column_num: Some(25),
                }),
            );

            assert!(result.is_ok());

            let cmd = result.unwrap();
            assert_eq!(cmd.program, "/snap/bin/subl");
            assert_eq!(
                cmd.args,
                [format!("{file_path}:42:25").as_str()]
            );
            Ok(())
        },
    );
}

// ---------- Injection prevention ----------

#[test]
fn test_file_path_with_shell_metacharacters_is_single_arg() {
    // Verify that shell metacharacters in file paths are treated as literal
    // characters, not interpreted by a shell.
    let data = r#"
    [Desktop Entry]
    Version=1.0
    Type=Application
    Exec=/usr/bin/editor %f
    "#;

    let malicious_path = PathBuf::from("/tmp/foo; rm -rf /");
    with_files(
        "test_file_path_with_shell_metacharacters",
        data,
        |desktop, _content| {
            let metadata = desktop.metadata()?;
            let result = metadata.build_default_command(&target(&malicious_path));

            assert!(result.is_ok());
            let cmd = result.unwrap();
            // The program is the editor, not "sh".
            assert_eq!(cmd.program, "/usr/bin/editor");
            // The malicious path is a single argument, not split by shell.
            assert_eq!(cmd.args, ["/tmp/foo; rm -rf /"]);
            Ok(())
        },
    );
}

#[test]
fn test_file_path_with_spaces_is_single_arg() {
    let data = r#"
    [Desktop Entry]
    Version=1.0
    Type=Application
    Exec=/usr/bin/editor %f
    "#;

    let path_with_spaces = PathBuf::from("/home/user/my documents/file.txt");
    with_files("test_file_path_with_spaces", data, |desktop, _content| {
        let metadata = desktop.metadata()?;
        let result = metadata.build_default_command(&target(&path_with_spaces));

        assert!(result.is_ok());
        let cmd = result.unwrap();
        assert_eq!(cmd.program, "/usr/bin/editor");
        assert_eq!(
            cmd.args,
            ["/home/user/my documents/file.txt"]
        );
        Ok(())
    });
}

// ---------- Quoted exec string ----------

#[test]
fn test_quoted_executable_path() {
    let data = r#"
    [Desktop Entry]
    Version=1.0
    Type=Application
    Exec="/opt/My App/editor" --flag %f
    "#;
    with_files("test_quoted_executable_path", data, |desktop, content| {
        let metadata = desktop.metadata()?;
        let file_path = content.display().to_string();
        let result = metadata.build_default_command(&target(&content));

        assert!(result.is_ok());
        let cmd = result.unwrap();
        assert_eq!(cmd.program, "/opt/My App/editor");
        assert_eq!(
            cmd.args,
            ["--flag", file_path.as_str()]
        );
        Ok(())
    });
}

// ---------- Quoted exec string edge cases ----------

#[test]
fn test_mixed_quoted_and_unquoted_in_single_token() {
    // Adjacent quoted and unquoted text without whitespace forms one token.
    let tokens = tokenize_exec(r#"foo"bar baz"qux"#).unwrap();
    assert_eq!(tokens, vec!["foobar bazqux"]);
}

#[test]
fn test_quoted_field_code_is_still_expanded() {
    // Quotes are stripped before field codes are expanded.
    let data = r#"
    [Desktop Entry]
    Version=1.0
    Type=Application
    Exec=/usr/bin/editor "%f"
    "#;
    with_files(
        "test_quoted_field_code_is_still_expanded",
        data,
        |desktop, content| {
            let metadata = desktop.metadata()?;
            let file_path = content.display().to_string();
            let result = metadata.build_default_command(&target(&content));

            assert!(result.is_ok());
            let cmd = result.unwrap();
            assert_eq!(cmd.program, "/usr/bin/editor");
            assert_eq!(cmd.args, [file_path.as_str()]);
            Ok(())
        },
    );
}

// ---------- Malformed field codes ----------

#[test]
fn test_bare_percent_at_end_errors() {
    let data = r#"
    [Desktop Entry]
    Version=1.0
    Type=Application
    Exec=/usr/bin/editor %
    "#;
    with_files(
        "test_bare_percent_at_end_errors",
        data,
        |desktop, content| {
            let metadata = desktop.metadata()?;
            let result = metadata.build_default_command(&target(&content));
            assert!(matches!(result, Err(DesktopExecError::MalformedFieldCode)));
            Ok(())
        },
    );
}

// ---------- Field code edge cases ----------

#[test]
fn test_localized_name_with_spaces_is_single_arg() {
    let data = r#"
    [Desktop Entry]
    Version=1.0
    Type=Application
    Exec=/usr/bin/app --title %c %f
    Name=My Cool Application
    "#;
    with_files(
        "test_localized_name_with_spaces",
        data,
        |desktop, content| {
            let metadata = desktop.metadata()?;
            let file_path = content.display().to_string();
            let result = metadata.build_default_command(&target(&content));

            assert!(result.is_ok());
            let cmd = result.unwrap();
            assert_eq!(cmd.program, "/usr/bin/app");
            // %c expands to a single arg even though the name contains spaces.
            assert_eq!(
                cmd.args,
                ["--title", "My Cool Application", file_path.as_str()]
            );
            Ok(())
        },
    );
}

// ---------- Shell metacharacters in Exec tokens ----------

#[test]
fn test_shell_constructs_in_exec_are_literal() {
    // Subcommand syntax and backticks in the Exec string itself are not
    // interpreted because we execute directly, not via sh -c.
    let data = r#"
    [Desktop Entry]
    Version=1.0
    Type=Application
    Exec=/usr/bin/app $(whoami) `id` %f
    "#;
    with_files(
        "test_shell_constructs_in_exec_are_literal",
        data,
        |desktop, content| {
            let metadata = desktop.metadata()?;
            let file_path = content.display().to_string();
            let result = metadata.build_default_command(&target(&content));

            assert!(result.is_ok());
            let cmd = result.unwrap();
            assert_eq!(cmd.program, "/usr/bin/app");
            assert_eq!(
                cmd.args,
                ["$(whoami)", "`id`", file_path.as_str()]
            );
            Ok(())
        },
    );
}

// ---------- Deprecated / unknown field codes ----------

#[test]
fn test_deprecated_field_codes_are_dropped() {
    let data = r#"
    [Desktop Entry]
    Version=1.0
    Type=Application
    Exec=/usr/bin/app %d %D %n %N %v %m %f
    "#;
    with_files(
        "test_deprecated_field_codes_are_dropped",
        data,
        |desktop, content| {
            let metadata = desktop.metadata()?;
            let file_path = content.display().to_string();
            let result = metadata.build_default_command(&target(&content));

            assert!(result.is_ok());
            let cmd = result.unwrap();
            assert_eq!(cmd.program, "/usr/bin/app");
            // All deprecated codes are silently dropped; only %f remains.
            assert_eq!(cmd.args, [file_path.as_str()]);
            Ok(())
        },
    );
}

// ---------- Folder-launch behavior ----------

// A directory substitutes into the `.desktop` `%F` field code exactly like a
// file, with no `:line:col` suffix and no `--line` flag. This is the
// folder-launch path that URL-scheme editors (VS Code, ...) and JetBrains IDEs
// take for directories, routing them through the `.desktop` `Exec` rather than
// a `<scheme>://file<dir>` URL.
#[test]
fn test_folder_path_substitution_omits_line_and_column() {
    let data = r#"
    [Desktop Entry]
    Version=1.0
    Type=Application
    Exec=/usr/bin/code --new-window %F
    "#;
    with_files(
        "test_folder_path_substitution_omits_line_and_column",
        data,
        |desktop, _content| {
            let metadata = desktop.metadata()?;
            let folder = PathBuf::from("/home/user/my-project");
            let cmd = metadata.build_default_command(&target(&folder))?;

            assert_eq!(cmd.program, "/usr/bin/code");
            assert_eq!(
                cmd.args,
                ["--new-window", "/home/user/my-project"]
            );
            Ok(())
        },
    );
}

// Zed opens a directory from its channel-specific binary (not the `.desktop`
// Exec), with the folder passed verbatim and no line/column.
#[test]
fn test_folder_command_zed_uses_binary_without_position() {
    let home = "/home/user".to_string();
    let binary_path = format!("{home}/.local/zed.app/bin/zed");
    let folder = PathBuf::from("/home/user/my-project");

    let command = folder_command(Editor::Zed, &target(&folder), &home, &None)
        .expect("Zed folder command should be built from its binary path");

    assert_eq!(command.program, "/usr/bin/setsid");
    assert_eq!(
        command.args,
        ["-f", binary_path.as_str(), "/home/user/my-project"]
    );
}

// ---------- A command that never received the target path ----------

/// `%c` expands to the localized application name, not a path. An Exec whose
/// only field code is `%c` launches the editor on nothing.
#[test]
fn test_exec_with_only_a_non_path_field_code_errors() {
    let data = r#"
    [Desktop Entry]
    Version=1.0
    Type=Application
    Exec=/usr/bin/editor %c
    Name=Warp Test Application
    "#;
    with_files(
        "test_exec_with_only_a_non_path_field_code_errors",
        data,
        |desktop, content| {
            let metadata = desktop.metadata()?;
            let result = metadata.build_default_command(&target(&content));
            assert!(matches!(result, Err(DesktopExecError::NoTargetPath)));
            Ok(())
        },
    )
}

/// `%u` resolves through `canonicalize`, which fails for a path that does not
/// exist — the substitution is dropped and nothing else supplies the path.
#[test]
fn test_exec_with_a_url_field_code_for_a_missing_path_errors() {
    let data = r#"
    [Desktop Entry]
    Version=1.0
    Type=Application
    Exec=/usr/bin/editor %u
    "#;
    with_files(
        "test_exec_with_a_url_field_code_for_a_missing_path_errors",
        data,
        |desktop, content| {
            let metadata = desktop.metadata()?;
            let missing = content.with_file_name("does-not-exist.txt");
            let result = metadata.build_default_command(&target(&missing));
            assert!(matches!(result, Err(DesktopExecError::NoTargetPath)));
            Ok(())
        },
    )
}

/// A literal `%%` is an escaped percent sign in the argument list, not a path
/// substitution, so it cannot satisfy the check on its own.
#[test]
fn test_exec_with_only_a_literal_percent_errors() {
    let data = r#"
    [Desktop Entry]
    Version=1.0
    Type=Application
    Exec=/usr/bin/editor %%
    "#;
    with_files(
        "test_exec_with_only_a_literal_percent_errors",
        data,
        |desktop, content| {
            let metadata = desktop.metadata()?;
            let result = metadata.build_default_command(&target(&content));
            assert!(matches!(result, Err(DesktopExecError::NoTargetPath)));
            Ok(())
        },
    )
}

/// An icon expands to two arguments and still is not a path — but it must not
/// interfere with the path that follows it either.
#[test]
fn test_icon_arguments_and_the_path_both_survive() {
    let data = r#"
    [Desktop Entry]
    Version=1.0
    Type=Application
    Exec=/usr/bin/editor %i %f
    Icon=/foo/bar/icon.png
    "#;
    with_files(
        "test_icon_arguments_and_the_path_both_survive",
        data,
        |desktop, content| {
            let metadata = desktop.metadata()?;
            let file_name = content.display().to_string();
            let cmd = metadata.build_default_command(&target(&content))?;

            assert_eq!(cmd.program, "/usr/bin/editor");
            assert_eq!(
                cmd.args,
                ["--icon", "/foo/bar/icon.png", file_name.as_str()]
            );
            Ok(())
        },
    )
}

/// The JetBrains variant substitutes the path through its own closure, so it
/// needs the same guard as the default one.
#[test]
fn test_jetbrains_exec_with_no_path_field_code_errors() {
    let data = r#"
    [Desktop Entry]
    Version=1.0
    Type=Application
    Exec=/snap/bin/phpstorm --flag
    "#;
    with_files(
        "test_jetbrains_exec_with_no_path_field_code_errors",
        data,
        |desktop, content| {
            let metadata = desktop.metadata()?;
            let result = metadata.build_jetbrains_command(
                &target(&content),
                Some(LineAndColumnArg {
                    line_num: 42,
                    column_num: Some(7),
                }),
            );
            assert!(matches!(result, Err(DesktopExecError::NoTargetPath)));
            Ok(())
        },
    )
}

/// `%f` substitutes nothing for a path that is not valid UTF-8, so a command
/// whose only field code is `%f` never receives it. Linux mounts volumes it
/// does not police (exFAT, FAT32, SMB, NFS), so such a path can reach here.
#[test]
fn test_exec_with_a_non_utf8_path_errors() {
    let data = r#"
    [Desktop Entry]
    Version=1.0
    Type=Application
    Exec=/usr/bin/editor %f
    "#;
    with_files(
        "test_exec_with_a_non_utf8_path_errors",
        data,
        |desktop, _content| {
            let metadata = desktop.metadata()?;
            let non_utf8 = LaunchTarget {
                path: String::from_utf8(b"/tmp/\xff\xfeinvalid.rs".to_vec()).ok(),
                resolved: None,
            };
            let result = metadata.build_default_command(&non_utf8);
            assert!(matches!(result, Err(DesktopExecError::NoTargetPath)));
            Ok(())
        },
    )
}

/// And so does the Sublime variant, which builds its own `:line:col` argument.
#[test]
fn test_sublime_exec_with_no_path_field_code_errors() {
    let data = r#"
    [Desktop Entry]
    Version=1.0
    Type=Application
    Exec=/snap/bin/subl --flag
    "#;
    with_files(
        "test_sublime_exec_with_no_path_field_code_errors",
        data,
        |desktop, content| {
            let metadata = desktop.metadata()?;
            let result = metadata.build_sublime_command(
                &target(&content),
                Some(LineAndColumnArg {
                    line_num: 42,
                    column_num: Some(7),
                }),
            );
            assert!(matches!(result, Err(DesktopExecError::NoTargetPath)));
            Ok(())
        },
    )
}

/// An Exec with nothing in it receives no path either.
#[test]
fn a_blank_exec_receives_no_path() {
    let data = "[Desktop Entry]\nExec=   \n";
    with_files("a_blank_exec_receives_no_path", data, |desktop, content| {
        let metadata = desktop.metadata()?;
        let result = metadata.build_default_command(&target(&content));
        assert!(matches!(result, Err(DesktopExecError::NoTargetPath)));
        Ok(())
    })
}

/// A field code is a word of its own: one inside a longer word is not expanded,
/// so it hands no path over.
#[test]
fn an_attached_field_code_is_literal() {
    let data = "[Desktop Entry]\nExec=/usr/bin/editor --goto=%f\n";
    with_files("an_attached_field_code_is_literal", data, |desktop, content| {
        let metadata = desktop.metadata()?;
        let result = metadata.build_default_command(&target(&content));
        assert!(matches!(result, Err(DesktopExecError::NoTargetPath)));
        Ok(())
    });

    let data = "[Desktop Entry]\nExec=/usr/bin/editor 100% --goto=%f %zoom %f\n";
    with_files("an_attached_field_code_is_literal", data, |desktop, content| {
        let file_name = content.display().to_string();
        let command = desktop.metadata()?.build_default_command(&target(&content))?;
        assert_eq!(command.program, "/usr/bin/editor");
        assert_eq!(command.args, ["100%", "--goto=%f", file_name.as_str()]);
        Ok(())
    });
}

/// An Exec that is nothing but a path field code makes the path the program.
#[test]
fn a_leading_path_field_code_is_the_program() {
    let data = "[Desktop Entry]\nExec=%f --flag\n";
    with_files(
        "a_leading_path_field_code_is_the_program",
        data,
        |desktop, content| {
            let command = desktop.metadata()?.build_default_command(&target(&content))?;
            assert_eq!(command.program, content.display().to_string());
            assert_eq!(command.args, ["--flag"]);
            Ok(())
        },
    )
}

#[test]
fn only_the_desktop_entry_section_is_read() {
    let data = "[Desktop Entry]\nName=Editor\nExec=editor %f\n[Desktop Action New]\nName=New\nExec=editor --new %f\n";
    with_files("sections", data, |desktop, _content| {
        let metadata = desktop.metadata()?;
        assert_eq!(metadata.command, "editor %f");
        assert_eq!(metadata.name, Some("Editor".to_string()));
        assert_eq!(metadata.icon, None);
        Ok(())
    })
}

#[test]
fn editors_without_a_desktop_entry_have_no_folder_command() {
    let folder = LaunchTarget {
        path: Some("/srv/app".to_string()),
        resolved: None,
    };
    assert_eq!(
        folder_command(Editor::VSCode, &folder, "/home/user", &None),
        None
    );
    let metadata = Some(EditorMetadata {
        desktop_path: "/usr/share/applications/code.desktop".to_string(),
        command: "/usr/bin/code %F".to_string(),
        name: None,
        icon: None,
    });
    assert_eq!(
        folder_command(Editor::VSCode, &folder, "/home/user", &metadata),
        Some(CommandLine {
            program: "/usr/bin/code".to_string(),
            args: vec!["/srv/app".to_string()],
        })
    );
}
