//! Command lines that open files and folders in editors.
use vstd::prelude::*;
use crate::editors::Editor;
use crate::text;
use crate::text::{begins_with, decimal_string};

verus! {

broadcast use vstd::string::group_string_axioms;

/// A command line, as mathematical values.
pub struct CommandView {
    pub program: Seq<char>,
    pub args: Seq<Seq<char>>,
}

/// A program and its arguments, handed to the system as they are: no shell reads
/// them.
#[derive(Debug, PartialEq, Eq)]
pub struct CommandLine {
    pub program: String,
    pub args: Vec<String>,
}

impl View for CommandLine {
    type V = CommandView;

    open spec fn view(&self) -> CommandView {
        CommandView { program: self.program@, args: text::texts(self.args@) }
    }
}

/// A place in a file.
#[derive(Clone, Copy, Debug, PartialEq, Eq, Structural)]
pub struct LineAndColumnArg {
    pub line_num: u64,
    pub column_num: Option<u64>,
}

/// The suffix for a place in a file: `:line` or `:line:column`.
pub open spec fn place_suffix(place: Option<LineAndColumnArg>) -> Seq<char> {
    match place {
        Some(at) => seq![':'] + text::decimal(at.line_num as nat) + (match at.column_num {
            Some(column) => seq![':'] + text::decimal(column as nat),
            None => Seq::empty(),
        }),
        None => Seq::empty(),
    }
}

/// A path followed by the place in it.
pub(crate) fn path_with_place(path: &str, place: Option<LineAndColumnArg>) -> (out: String)
    ensures
        out@ == path@ + place_suffix(place),
{
    let mut out = path.to_owned();
    if let Some(at) = place {
        out.push(':');
        out.append(decimal_string(at.line_num).as_str());
        if let Some(column) = at.column_num {
            out.push(':');
            out.append(decimal_string(column).as_str());
        }
    }
    assert(out@ =~= path@ + place_suffix(place));
    out
}

/// How macOS opens something in an editor.
#[derive(Debug, PartialEq, Eq)]
pub enum OpenFileInEditorMethod {
    /// By the application bundle.
    FromApplicationBundleInfo,
    /// By an address that the application answers to, in the application with
    /// the given bundle if one is named.
    AppUrl(Option<String>),
    /// By a program of the application.
    Binary(String),
}

/// Whether a bundle is one of this application's own channels.
pub fn is_warp_bundle(bundle_id: &str) -> (own: bool)
    ensures
        own == "dev.warp.Warp"@.is_prefix_of(bundle_id@),
{
    begins_with(bundle_id, "dev.warp.Warp")
}

/// The scheme of the addresses that an editor answers to.
pub open spec fn url_scheme(editor: Editor) -> Option<Seq<char>> {
    match editor {
        Editor::VSCode => Some("vscode"@),
        Editor::VSCodeInsiders => Some("vscode-insiders"@),
        Editor::Cursor => Some("cursor"@),
        Editor::Windsurf => Some("windsurf"@),
        Editor::Zed => Some("zed"@),
        Editor::Sublime3 => None,
        Editor::IntelliJ => None,
    }
}

fn scheme_of(editor: Editor) -> (scheme: Option<&'static str>)
    ensures
        match (scheme, url_scheme(editor)) {
            (Some(found), Some(expected)) => found@ == expected,
            (None, None) => true,
            _ => false,
        },
{
    match editor {
        Editor::VSCode => Some("vscode"),
        Editor::VSCodeInsiders => Some("vscode-insiders"),
        Editor::Cursor => Some("cursor"),
        Editor::Windsurf => Some("windsurf"),
        Editor::Zed => Some("zed"),
        Editor::Sublime3 => None,
        Editor::IntelliJ => None,
    }
}

/// The arguments of a JetBrains program: the line in front of the path.
pub open spec fn jetbrains_args(place: Option<LineAndColumnArg>, path: Seq<char>) -> Seq<Seq<char>> {
    match place {
        Some(at) => seq!["--line"@, text::decimal(at.line_num as nat), path],
        None => seq![path],
    }
}

/// The command of a JetBrains program on macOS.
pub fn jetbrains_command(binary: &str, place: Option<LineAndColumnArg>, path: &str) -> (command: (
    OpenFileInEditorMethod,
    Vec<String>,
))
    ensures
        command.0 matches OpenFileInEditorMethod::Binary(program) && program@ == binary@,
        text::texts(command.1@) == jetbrains_args(place, path@),
{
    let mut args: Vec<String> = Vec::new();
    if let Some(at) = place {
        args.push("--line".to_owned());
        args.push(decimal_string(at.line_num));
    }
    args.push(path.to_owned());
    assert(text::texts(args@) =~= jetbrains_args(place, path@));
    (OpenFileInEditorMethod::Binary(binary.to_owned()), args)
}

/// The argument that opens a file by an address or a path.
pub open spec fn file_argument(
    editor: Editor,
    place: Option<LineAndColumnArg>,
    path: Seq<char>,
) -> Seq<char> {
    match url_scheme(editor) {
        Some(scheme) => scheme + "://file"@ + path + place_suffix(place),
        None => path + place_suffix(place),
    }
}

/// How an editor opens a file or a directory on macOS. A directory opens by the
/// application bundle, as a plain path and without a place in it, because an
/// address does not open directories reliably.
pub fn command_executable_and_arguments(
    editor: Editor,
    place: Option<LineAndColumnArg>,
    path: &str,
    is_dir: bool,
) -> (command: (OpenFileInEditorMethod, Vec<String>))
    ensures
        is_dir ==> command.0 is FromApplicationBundleInfo && text::texts(command.1@) == seq![path@],
        !is_dir ==> {
            &&& command.0 is AppUrl == url_scheme(editor) is Some
            &&& command.0 matches OpenFileInEditorMethod::AppUrl(bundle) ==> bundle is None
            &&& command.0 matches OpenFileInEditorMethod::Binary(program) ==> program@ == (
            if editor == Editor::IntelliJ {
                "idea"@
            } else {
                "subl"@
            })
            &&& command.0 !is FromApplicationBundleInfo
            &&& text::texts(command.1@) == (if editor == Editor::IntelliJ {
                jetbrains_args(place, path@)
            } else {
                seq![file_argument(editor, place, path@)]
            })
        },
{
    let mut args: Vec<String> = Vec::new();
    if is_dir {
        args.push(path.to_owned());
        assert(text::texts(args@) =~= seq![path@]);
        return (OpenFileInEditorMethod::FromApplicationBundleInfo, args);
    }
    match scheme_of(editor) {
        Some(scheme) => {
            let mut url = scheme.to_owned();
            url.append("://file");
            url.append(path_with_place(path, place).as_str());
            assert(url@ =~= file_argument(editor, place, path@));
            args.push(url);
            assert(text::texts(args@) =~= seq![file_argument(editor, place, path@)]);
            (OpenFileInEditorMethod::AppUrl(None), args)
        },
        None => match editor {
            Editor::IntelliJ => jetbrains_command("idea", place, path),
            _ => {
                args.push(path_with_place(path, place));
                assert(text::texts(args@) =~= seq![file_argument(editor, place, path@)]);
                (OpenFileInEditorMethod::Binary("subl".to_owned()), args)
            },
        },
    }
}

/// An editor found on Windows.
#[derive(Debug, PartialEq, Eq)]
pub struct RegisteredEditor {
    pub executable_path: String,
}

impl RegisteredEditor {
    /// The command that opens a folder: the editor's program with the folder as
    /// its only argument.
    pub fn folder_command(&self, folder: &str) -> (command: CommandLine)
        ensures
            command@ == (CommandView { program: self.executable_path@, args: seq![folder@] }),
    {
        let mut args: Vec<String> = Vec::new();
        args.push(folder.to_owned());
        let command = CommandLine { program: self.executable_path.clone(), args };
        assert(command@.args =~= seq![folder@]);
        command
    }
}

/// An editor that has a scheme of its own gets the file as a link of that
/// scheme, the place behind it as line and column; the others get the path.
pub proof fn files_open_at_their_place(
    editor: Editor,
    line: LineAndColumnArg,
    path: Seq<char>,
)
    ensures
        ({
            let place = ":"@ + text::decimal(line.line_num as nat) + (match line.column_num {
                Some(column) => ":"@ + text::decimal(column as nat),
                None => Seq::empty(),
            });
            let link = match editor {
                Editor::VSCode => "vscode://file"@,
                Editor::VSCodeInsiders => "vscode-insiders://file"@,
                Editor::Cursor => "cursor://file"@,
                Editor::Windsurf => "windsurf://file"@,
                Editor::Zed => "zed://file"@,
                _ => Seq::empty(),
            };
            &&& file_argument(editor, Some(line), path) == link + path + place
            &&& file_argument(editor, None, path) == link + path
        }),
{
    reveal_strlit(":");
    reveal_strlit("://file");
    reveal_strlit("vscode");
    reveal_strlit("vscode-insiders");
    reveal_strlit("cursor");
    reveal_strlit("windsurf");
    reveal_strlit("zed");
    reveal_strlit("vscode://file");
    reveal_strlit("vscode-insiders://file");
    reveal_strlit("cursor://file");
    reveal_strlit("windsurf://file");
    reveal_strlit("zed://file");
    let colon = seq![':'];
    assert(":"@ =~= colon);
    let link = match editor {
        Editor::VSCode => "vscode://file"@,
        Editor::VSCodeInsiders => "vscode-insiders://file"@,
        Editor::Cursor => "cursor://file"@,
        Editor::Windsurf => "windsurf://file"@,
        Editor::Zed => "zed://file"@,
        _ => Seq::empty(),
    };
    if let Some(scheme) = url_scheme(editor) {
        assert(scheme + "://file"@ =~= link);
    }
    assert(file_argument(editor, Some(line), path) =~= link + path + place_suffix(Some(line)));
    assert(file_argument(editor, None, path) =~= link + path);
}

/// A JetBrains editor gets the line as a flag in front of the path, and the path
/// alone without one.
pub proof fn jetbrains_gets_the_line(place: LineAndColumnArg, path: Seq<char>)
    ensures
        jetbrains_args(Some(place), path) == seq![
            "--line"@,
            text::decimal(place.line_num as nat),
            path,
        ],
        jetbrains_args(None, path) == seq![path],
{
}

} // verus!
