use repo_mode::editors::Editor;
use repo_mode::launch::{
    command_executable_and_arguments, is_warp_bundle, jetbrains_command, LineAndColumnArg,
    OpenFileInEditorMethod, RegisteredEditor,
};

#[test]
fn is_warp_bundle_recognises_warp_channels() {
    assert!(is_warp_bundle("dev.warp.Warp"));
    assert!(is_warp_bundle("dev.warp.WarpDev"));
    assert!(is_warp_bundle("dev.warp.WarpPreview"));
    assert!(is_warp_bundle("dev.warp.WarpOss"));
}

#[test]
fn is_warp_bundle_rejects_other_apps() {
    assert!(!is_warp_bundle("com.microsoft.VSCode"));
    assert!(!is_warp_bundle("com.apple.TextEdit"));
    assert!(!is_warp_bundle("dev.zed.Zed"));
    assert!(!is_warp_bundle("invalid"));
    assert!(!is_warp_bundle(""));
}

// A directory cannot be opened reliably by a `<scheme>://file<path>` address, so
// it is launched through the application bundle.
#[test]
fn dir_launch_uses_bundle_not_url_scheme_for_url_editors() {
    let tmp = tempfile::tempdir().expect("create temp dir");
    let dir = tmp.path();
    let expected_arg = dir.to_string_lossy().to_string();

    for editor in [
        Editor::VSCode,
        Editor::VSCodeInsiders,
        Editor::Cursor,
        Editor::Windsurf,
    ] {
        let (method, args) =
            command_executable_and_arguments(editor, None, &expected_arg, dir.is_dir());
        assert!(
            matches!(method, OpenFileInEditorMethod::FromApplicationBundleInfo),
            "expected {editor:?} to launch a directory via the app bundle, got {method:?}"
        );
        assert_eq!(args, vec![expected_arg.clone()]);
        // Must not be a `<scheme>://file<dir>` URL.
        assert!(
            !args[0].contains("://"),
            "directory argument for {editor:?} should be a plain path, got {args:?}"
        );
    }
}

// A JetBrains editor and a URL-scheme editor both drop line and column when the
// target is a directory.
#[test]
fn dir_launch_omits_line_and_column() {
    let tmp = tempfile::tempdir().expect("create temp dir");
    let dir = tmp.path();
    let expected_arg = dir.to_string_lossy().to_string();

    let line_col = Some(LineAndColumnArg {
        line_num: 42,
        column_num: Some(7),
    });

    let (method, args) = command_executable_and_arguments(
        Editor::IntelliJ,
        line_col,
        &expected_arg,
        dir.is_dir(),
    );
    assert!(
        matches!(method, OpenFileInEditorMethod::FromApplicationBundleInfo),
        "expected IntelliJ to launch a directory via the app bundle, got {method:?}"
    );
    assert_eq!(args, vec![expected_arg.clone()]);
    assert!(
        !args.iter().any(|a| a == "--line"),
        "directory launch must not inject --line, got {args:?}"
    );

    let (_, args) =
        command_executable_and_arguments(Editor::VSCode, line_col, &expected_arg, dir.is_dir());
    assert_eq!(
        args,
        vec![expected_arg],
        "directory launch must not append :line:col to the path"
    );
}

// A path that is not valid UTF-8 is handed over with its invalid bytes replaced.
#[test]
fn jetbrains_command_does_not_panic_on_non_utf8_path() {
    let path = String::from_utf8_lossy(b"/tmp/\xff\xfeinvalid.rs").into_owned();

    let (method, args) = jetbrains_command("idea", None, &path);
    assert!(
        matches!(method, OpenFileInEditorMethod::Binary(_)),
        "expected a binary launch method, got {method:?}"
    );
    assert_eq!(args.len(), 1, "expected just the path, got {args:?}");
    assert!(
        args[0].contains('\u{fffd}'),
        "expected the invalid bytes to be replaced lossily, got {args:?}"
    );
}

#[test]
fn jetbrains_command_orders_line_flag_before_path() {
    let line_col = Some(LineAndColumnArg {
        line_num: 42,
        column_num: Some(7),
    });

    let (_, args) = jetbrains_command("idea", line_col, "/tmp/hello.rs");
    assert_eq!(
        args,
        vec![
            "--line".to_string(),
            "42".to_string(),
            "/tmp/hello.rs".to_string(),
        ]
    );
}

// A regular file still goes by the address.
#[test]
fn file_launch_still_uses_url_scheme_for_url_editors() {
    let tmp = tempfile::tempdir().expect("create temp dir");
    let file = tempfile::Builder::new()
        .prefix("hello.rs")
        .rand_bytes(0)
        .tempfile_in(tmp.path())
        .expect("write temp file");
    let path = file.path();

    let (method, args) = command_executable_and_arguments(
        Editor::VSCode,
        None,
        &path.to_string_lossy(),
        path.is_dir(),
    );
    assert!(
        matches!(method, OpenFileInEditorMethod::AppUrl(None)),
        "expected VSCode to open a file via a URL scheme, got {method:?}"
    );
    assert_eq!(args.len(), 1);
    assert!(
        args[0].starts_with("vscode://file"),
        "file argument should be a vscode:// URL, got {args:?}"
    );
}

// A directory is opened by the editor's program with the folder as its sole
// argument, never through a `<scheme>://file<dir>` URL.
#[test]
fn folder_command_launches_executable_with_folder_arg() {
    let metadata = RegisteredEditor {
        executable_path: "C:/Program Files/Microsoft VS Code/bin/code.exe".to_string(),
    };

    let command = metadata.folder_command("C:/Users/me/my-project");
    let debug = format!("{command:?}");

    assert!(
        debug.contains("code.exe"),
        "folder command should launch the editor executable, got: {debug}"
    );
    assert!(
        debug.contains("my-project"),
        "folder command should target the directory, got: {debug}"
    );
    // Must not be a `<scheme>://file<dir>` URL.
    assert!(
        !debug.contains("://"),
        "folder command must not use a URL scheme, got: {debug}"
    );
    assert_eq!(command.args, ["C:/Users/me/my-project"]);
}

#[test]
fn a_place_in_a_file_is_part_of_its_address() {
    let place = Some(LineAndColumnArg {
        line_num: 42,
        column_num: Some(7),
    });
    let (_, args) =
        command_executable_and_arguments(Editor::Cursor, place, "/srv/app/main.rs", false);
    assert_eq!(args, ["cursor://file/srv/app/main.rs:42:7"]);
}
