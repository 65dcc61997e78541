//! Launching editors by their desktop entries.
//!
//! The `Exec` key of a desktop entry is split into words and its field codes are
//! filled in here, and the program is run directly: no shell ever reads a path.
use vstd::prelude::*;
use crate::editors::Editor;
use crate::launch;
use crate::launch::{path_with_place, CommandLine, LineAndColumnArg};
use crate::probe;
use crate::probe::split_lines;
use crate::text;
use crate::text::{
    chars_of, decimal_string, find_first, same_text, space, string_of, trim,
};

verus! {

broadcast use vstd::string::group_string_axioms;

/// Why a desktop entry gives no command.
#[derive(Clone, Copy, Debug, PartialEq, Eq, Structural)]
pub enum DesktopExecError {
    /// There is no `Exec` key.
    NoExec,
    /// A quote is not closed.
    UnterminatedQuote,
    /// A percent sign has no field code behind it.
    MalformedFieldCode,
    /// The command would not receive the path that it is to open.
    NoTargetPath,
}

/// The characters that a backslash makes literal inside quotes.
pub open spec fn escapable(ch: char) -> bool {
    ch == '"' || ch == '\\' || ch == '$' || ch == '`'
}

/// The text of the word being read; nothing between words.
pub open spec fn word_so_far(open: Option<Seq<char>>) -> Seq<char> {
    match open {
        Some(word) => word,
        None => Seq::empty(),
    }
}

/// A word in front of more words.
pub open spec fn word_before(word: Seq<char>, rest: Option<Seq<Seq<char>>>) -> Option<
    Seq<Seq<char>>,
> {
    match rest {
        Some(words) => Some(seq![word] + words),
        None => None,
    }
}

/// The words of `line`, where `open` is the word being read and `quoted` says
/// whether a quote is open. White space outside quotes separates words; quotes
/// may hold anything and are part of no word. `None` when a quote stays open.
pub open spec fn words(line: Seq<char>, open: Option<Seq<char>>, quoted: bool) -> Option<
    Seq<Seq<char>>,
>
    decreases line.len(),
{
    if line.len() == 0 {
        if quoted {
            None
        } else {
            match open {
                Some(word) => Some(seq![word]),
                None => Some(Seq::empty()),
            }
        }
    } else {
        let ch = line[0];
        let rest = line.skip(1);
        let word = word_so_far(open);
        if quoted {
            if ch == '"' {
                words(rest, open, false)
            } else if ch == '\\' && rest.len() > 0 && escapable(rest[0]) {
                words(rest.skip(1), Some(word.push(rest[0])), true)
            } else {
                words(rest, Some(word.push(ch)), true)
            }
        } else if ch == '"' {
            words(rest, Some(word), true)
        } else if text::is_space(ch) {
            match open {
                Some(done) => word_before(done, words(rest, None, false)),
                None => words(rest, None, false),
            }
        } else {
            words(rest, Some(word.push(ch)), false)
        }
    }
}

/// The words of an `Exec` value.
pub open spec fn exec_words(line: Seq<char>) -> Option<Seq<Seq<char>>> {
    words(line, None, false)
}

/// Words already read in front of the rest.
pub open spec fn words_before(done: Seq<Seq<char>>, rest: Option<Seq<Seq<char>>>) -> Option<
    Seq<Seq<char>>,
> {
    match rest {
        Some(more) => Some(done + more),
        None => None,
    }
}

/// The word being read, while one is.
pub open spec fn open_word(started: bool, word: Seq<char>) -> Option<Seq<char>> {
    if started {
        Some(word)
    } else {
        None
    }
}

/// Split an `Exec` value into words.
pub fn tokenize_exec(line: &str) -> (tokens: Result<Vec<String>, DesktopExecError>)
    ensures
        match tokens {
            Ok(found) => exec_words(line@) == Some(text::texts(found@)),
            Err(error) => exec_words(line@) is None && error
                == DesktopExecError::UnterminatedQuote,
        },
{
    let chars = chars_of(line);
    let mut done: Vec<String> = Vec::new();
    let mut word = String::new();
    let mut started = false;
    let mut quoted = false;
    let mut i: usize = 0;
    proof {
        assert(chars@.skip(0) =~= chars@);
        if let Some(found) = exec_words(line@) {
            assert(text::texts(done@) + found =~= found);
        }
    }
    while i < chars.len()
        invariant
            i <= chars@.len(),
            !started ==> word@.len() == 0,
            quoted ==> started,
            exec_words(line@) == words_before(
                text::texts(done@),
                words(chars@.skip(i as int), open_word(started, word@), quoted),
            ),
        decreases chars@.len() - i,
    {
        let ch = chars[i];
        let ghost rest = chars@.skip(i + 1);
        proof {
            assert(chars@.skip(i as int)[0] == ch);
            assert(chars@.skip(i as int).skip(1) =~= rest);
            if !started {
                assert(word@ =~= Seq::empty());
            }
        }
        if quoted {
            if ch == '"' {
                quoted = false;
            } else if ch == '\\' && i + 1 < chars.len() && (chars[i + 1] == '"' || chars[i + 1]
                == '\\' || chars[i + 1] == '$' || chars[i + 1] == '`') {
                proof {
                    assert(rest[0] == chars@[i + 1]);
                    assert(rest.skip(1) =~= chars@.skip(i + 2));
                }
                i += 1;
                word.push(chars[i]);
            } else {
                proof {
                    if rest.len() > 0 {
                        assert(rest[0] == chars@[i + 1]);
                    }
                }
                word.push(ch);
            }
        } else if ch == '"' {
            started = true;
            quoted = true;
        } else if space(ch) {
            if started {
                let ghost before = text::texts(done@);
                let ghost finished = word@;
                done.push(word);
                word = String::new();
                started = false;
                proof {
                    assert(text::texts(done@) =~= before.push(finished));
                    if let Some(more) = words(rest, None, false) {
                        assert(before + (seq![finished] + more) =~= text::texts(done@) + more);
                    }
                }
            }
        } else {
            started = true;
            word.push(ch);
        }
        i += 1;
    }
    assert(chars@.skip(i as int) =~= Seq::empty());
    if quoted {
        return Err(DesktopExecError::UnterminatedQuote);
    }
    if started {
        let ghost before = text::texts(done@);
        let ghost finished = word@;
        done.push(word);
        assert(before + seq![finished] =~= text::texts(done@));
    } else {
        assert(text::texts(done@) + Seq::<Seq<char>>::empty() =~= text::texts(done@));
    }
    Ok(done)
}

/// A text with a backslash before each character that has a meaning in quotes.
pub open spec fn escaped(value: Seq<char>) -> Seq<char>
    decreases value.len(),
{
    if value.len() == 0 {
        Seq::empty()
    } else if escapable(value[0]) {
        seq!['\\', value[0]] + escaped(value.skip(1))
    } else {
        seq![value[0]] + escaped(value.skip(1))
    }
}

proof fn lemma_escaped_word(value: Seq<char>, word: Seq<char>)
    ensures
        words(escaped(value) + seq!['"'], Some(word), true) == Some(seq![word + value]),
    decreases value.len(),
{
    let line = escaped(value) + seq!['"'];
    if value.len() == 0 {
        assert(line =~= seq!['"']);
        assert(line.skip(1) =~= Seq::empty());
        assert(words(line.skip(1), Some(word), false) == Some(seq![word]));
        assert(word + value =~= word);
    } else {
        let ch = value[0];
        let tail = escaped(value.skip(1)) + seq!['"'];
        lemma_escaped_word(value.skip(1), word.push(ch));
        assert(word.push(ch) + value.skip(1) =~= word + value);
        if escapable(ch) {
            assert(line[0] == '\\');
            assert(line.skip(1)[0] == ch);
            assert(line.skip(1).skip(1) =~= tail);
        } else {
            assert(line[0] == ch);
            assert(line.skip(1) =~= tail);
        }
    }
}

/// Any text, quoted with its special characters escaped, is read back as one
/// word, letter for letter.
pub proof fn quoted_text_is_one_word(value: Seq<char>)
    ensures
        exec_words(seq!['"'] + escaped(value) + seq!['"']) == Some(seq![value]),
{
    let line = seq!['"'] + escaped(value) + seq!['"'];
    lemma_escaped_word(value, Seq::empty());
    assert(line[0] == '"');
    assert(line.skip(1) =~= escaped(value) + seq!['"']);
    assert(Seq::<char>::empty() + value =~= value);
}

/// The lines of the `[Desktop Entry]` group, trimmed. A line in brackets opens a
/// group.
pub open spec fn group_lines(all: Seq<Seq<char>>, inside: bool) -> Seq<Seq<char>>
    decreases all.len(),
{
    if all.len() == 0 {
        Seq::empty()
    } else {
        let line = text::trimmed(all[0]);
        let rest = all.skip(1);
        if line.len() > 0 && line[0] == '[' {
            group_lines(rest, line == "[Desktop Entry]"@)
        } else if inside {
            seq![line] + group_lines(rest, inside)
        } else {
            group_lines(rest, inside)
        }
    }
}

/// The value that the first line for `key` gives it.
pub open spec fn key_value(lines: Seq<Seq<char>>, key: Seq<char>) -> Option<Seq<char>>
    decreases lines.len(),
{
    if lines.len() == 0 {
        None
    } else {
        let line = lines[0];
        let equals = text::first_pos(line, 0, '=');
        if equals < line.len() && text::trimmed(line.take(equals)) == key {
            Some(text::trimmed(line.skip(equals + 1)))
        } else {
            key_value(lines.skip(1), key)
        }
    }
}

/// The value of a key of the desktop entry in `contents`.
pub open spec fn entry_value(contents: Seq<char>, key: Seq<char>) -> Option<Seq<char>> {
    key_value(group_lines(probe::lines(contents), false), key)
}

/// A desktop entry, as mathematical values.
pub struct MetadataView {
    pub desktop_path: Seq<char>,
    pub command: Seq<char>,
    pub name: Option<Seq<char>>,
    pub icon: Option<Seq<char>>,
}

/// What launching an editor needs of its desktop entry.
#[derive(Debug, PartialEq, Eq)]
pub struct EditorMetadata {
    pub desktop_path: String,
    pub command: String,
    pub name: Option<String>,
    pub icon: Option<String>,
}

impl View for EditorMetadata {
    type V = MetadataView;

    open spec fn view(&self) -> MetadataView {
        MetadataView {
            desktop_path: self.desktop_path@,
            command: self.command@,
            name: text::text_view(self.name),
            icon: text::text_view(self.icon),
        }
    }
}

fn read_group(all: &Vec<String>) -> (group: Vec<String>)
    ensures
        text::texts(group@) == group_lines(text::texts(all@), false),
{
    let ghost views = text::texts(all@);
    let mut group: Vec<String> = Vec::new();
    let mut inside = false;
    let mut i: usize = 0;
    assert(views.skip(0) =~= views);
    assert(text::texts(group@) + group_lines(views, false) =~= group_lines(views, false));
    while i < all.len()
        invariant
            i <= all@.len(),
            views == text::texts(all@),
            group_lines(views, false) == text::texts(group@) + group_lines(
                views.skip(i as int),
                inside,
            ),
        decreases all@.len() - i,
    {
        let line = trim(all[i].as_str());
        let chars = chars_of(line.as_str());
        proof {
            assert(views.skip(i as int)[0] == views[i as int]);
            assert(views.skip(i as int).skip(1) =~= views.skip(i + 1));
        }
        if chars.len() > 0 && chars[0] == '[' {
            inside = same_text(line.as_str(), "[Desktop Entry]");
        } else if inside {
            let ghost before = text::texts(group@);
            let ghost shown = line@;
            group.push(line);
            proof {
                let rest = group_lines(views.skip(i + 1), true);
                assert(text::texts(group@) =~= before.push(shown));
                assert(before + (seq![shown] + rest) =~= text::texts(group@) + rest);
            }
        }
        i += 1;
    }
    proof {
        assert(views.skip(i as int) =~= Seq::empty());
        assert(text::texts(group@) + Seq::<Seq<char>>::empty() =~= text::texts(group@));
    }
    group
}

fn read_value(lines: &Vec<String>, key: &str) -> (value: Option<String>)
    ensures
        text::text_view(value) == key_value(text::texts(lines@), key@),
{
    let ghost views = text::texts(lines@);
    let mut i: usize = 0;
    assert(views.skip(0) =~= views);
    while i < lines.len()
        invariant
            i <= lines@.len(),
            views == text::texts(lines@),
            key_value(views, key@) == key_value(views.skip(i as int), key@),
        decreases lines@.len() - i,
    {
        let chars = chars_of(lines[i].as_str());
        let equals = find_first(&chars, 0, '=');
        proof {
            assert(views.skip(i as int)[0] == views[i as int]);
            assert(views.skip(i as int).skip(1) =~= views.skip(i + 1));
        }
        if equals < chars.len() {
            let name = string_of(&chars, 0, equals);
            assert(name@ =~= chars@.take(equals as int));
            if same_text(trim(name.as_str()).as_str(), key) {
                let value = string_of(&chars, equals + 1, chars.len());
                assert(value@ =~= chars@.skip(equals + 1));
                return Some(trim(value.as_str()));
            }
        }
        i += 1;
    }
    assert(views.skip(i as int) =~= Seq::empty());
    None
}

/// What a command is to open, as mathematical values.
pub struct TargetView {
    pub path: Option<Seq<char>>,
    pub resolved: Option<Seq<char>>,
}

/// What a command is to open.
#[derive(Debug)]
pub struct LaunchTarget {
    /// The path; `None` when it cannot be written as text.
    pub path: Option<String>,
    /// The path with its links resolved; `None` when nothing is there.
    pub resolved: Option<String>,
}

impl View for LaunchTarget {
    type V = TargetView;

    open spec fn view(&self) -> TargetView {
        TargetView {
            path: text::text_view(self.path),
            resolved: text::text_view(self.resolved),
        }
    }
}

/// What the path field codes stand for, as mathematical values.
pub struct PathArgsView {
    pub file: Option<Seq<Seq<char>>>,
    pub url: Option<Seq<Seq<char>>>,
}

/// What the path field codes stand for: the arguments for `%f` and `%F`, and for
/// `%u` and `%U`. The path is the last of them. `None` when there is nothing to
/// put there.
struct PathArgs {
    file: Option<Vec<String>>,
    url: Option<Vec<String>>,
}

/// Optional arguments as mathematical values.
pub open spec fn args_view(args: Option<Vec<String>>) -> Option<Seq<Seq<char>>> {
    match args {
        Some(found) => Some(text::texts(found@)),
        None => None,
    }
}

impl PathArgs {
    spec fn seen(self) -> PathArgsView {
        PathArgsView { file: args_view(self.file), url: args_view(self.url) }
    }
}

/// The path on its own, and as an address.
pub open spec fn default_args(target: TargetView) -> PathArgsView {
    PathArgsView {
        file: match target.path {
            Some(path) => Some(seq![path]),
            None => None,
        },
        url: match target.resolved {
            Some(path) => Some(seq!["file://"@ + path]),
            None => None,
        },
    }
}

/// The flags that name a place, in front of the path.
pub open spec fn flagged_path(path: Seq<char>, place: Option<LineAndColumnArg>) -> Seq<Seq<char>> {
    match place {
        Some(at) => seq!["--line"@, text::decimal(at.line_num as nat)] + (match at.column_num {
            Some(column) => seq!["--column"@, text::decimal(column as nat)],
            None => Seq::empty(),
        }) + seq![path],
        None => seq![path],
    }
}

/// The path behind the flags that name a place, for every path field code.
pub open spec fn jetbrains_path_args(
    target: TargetView,
    place: Option<LineAndColumnArg>,
) -> PathArgsView {
    let args = match target.path {
        Some(path) => Some(flagged_path(path, place)),
        None => None,
    };
    PathArgsView { file: args, url: args }
}

/// The path with the place behind it, for every path field code.
pub open spec fn sublime_path_args(
    target: TargetView,
    place: Option<LineAndColumnArg>,
) -> PathArgsView {
    let args = match target.path {
        Some(path) => Some(seq![path + launch::place_suffix(place)]),
        None => None,
    };
    PathArgsView { file: args, url: args }
}

/// The arguments a field code stands for on its own, and whether the path is
/// among them. A code with nothing to stand for, and any unknown one, gives none.
pub open spec fn code_args(code: char, metadata: MetadataView, paths: PathArgsView) -> (
    Seq<Seq<char>>,
    bool,
) {
    if code == 'f' || code == 'F' {
        match paths.file {
            Some(args) => (args, true),
            None => (Seq::empty(), false),
        }
    } else if code == 'u' || code == 'U' {
        match paths.url {
            Some(args) => (args, true),
            None => (Seq::empty(), false),
        }
    } else if code == 'c' {
        match metadata.name {
            Some(name) => (seq![name], false),
            None => (Seq::empty(), false),
        }
    } else if code == 'i' {
        match metadata.icon {
            Some(icon) => (seq!["--icon"@, icon], false),
            None => (Seq::empty(), false),
        }
    } else if code == 'k' {
        (seq![metadata.desktop_path], false)
    } else if code == '%' {
        (seq!["%"@], false)
    } else {
        (Seq::empty(), false)
    }
}

/// The arguments a word stands for, and whether the path is among them; `None`
/// for a percent sign with no code behind it. A field code is a word of its own:
/// one inside a longer word is not looked for, and a word that only begins like
/// one is an unknown code.
pub open spec fn word_args(word: Seq<char>, metadata: MetadataView, paths: PathArgsView) -> Option<
    (Seq<Seq<char>>, bool),
> {
    if word.len() == 0 || word[0] != '%' {
        Some((seq![word], false))
    } else if word.len() == 1 {
        None
    } else if word.len() == 2 {
        Some(code_args(word[1], metadata, paths))
    } else {
        Some((Seq::empty(), false))
    }
}

/// The arguments that words stand for, and whether the path is among them.
pub open spec fn all_args(
    given: Seq<Seq<char>>,
    metadata: MetadataView,
    paths: PathArgsView,
) -> Option<(Seq<Seq<char>>, bool)>
    decreases given.len(),
{
    if given.len() == 0 {
        Some((Seq::empty(), false))
    } else {
        match (
            all_args(given.drop_last(), metadata, paths),
            word_args(given.last(), metadata, paths),
        ) {
            (Some((before, path_before)), Some((args, path_here))) => Some(
                (before + args, path_before || path_here),
            ),
            _ => None,
        }
    }
}

/// The command of a desktop entry: of the arguments that its words stand for the
/// first is the program, and the path has to be among them.
pub open spec fn built(metadata: MetadataView, paths: PathArgsView) -> Result<
    launch::CommandView,
    DesktopExecError,
> {
    match exec_words(metadata.command) {
        None => Err(DesktopExecError::UnterminatedQuote),
        Some(given) => match all_args(given, metadata, paths) {
            None => Err(DesktopExecError::MalformedFieldCode),
            Some((args, true)) => Ok(launch::CommandView { program: args[0], args: args.skip(1) }),
            Some((_, false)) => Err(DesktopExecError::NoTargetPath),
        },
    }
}

/// A built command as a mathematical value.
pub open spec fn command_view(command: Result<CommandLine, DesktopExecError>) -> Result<
    launch::CommandView,
    DesktopExecError,
> {
    match command {
        Ok(found) => Ok(found@),
        Err(error) => Err(error),
    }
}

fn copy_args(args: &Option<Vec<String>>) -> (out: (Vec<String>, bool))
    ensures
        match args_view(*args) {
            Some(found) => text::texts(out.0@) == found && out.1,
            None => text::texts(out.0@) == Seq::<Seq<char>>::empty() && !out.1,
        },
{
    let mut copy: Vec<String> = Vec::new();
    match args {
        Some(found) => {
            let mut i: usize = 0;
            while i < found.len()
                invariant
                    i <= found@.len(),
                    copy@.len() == i,
                    forall|j: int| 0 <= j < i ==> (#[trigger] copy@[j])@ == found@[j]@,
                decreases found@.len() - i,
            {
                copy.push(found[i].clone());
                i += 1;
            }
            assert(text::texts(copy@) =~= text::texts(found@));
            (copy, true)
        },
        None => {
            assert(text::texts(copy@) =~= Seq::empty());
            (copy, false)
        },
    }
}

impl EditorMetadata {
    /// Read a desktop entry: the file at `desktop_path`, with these contents.
    pub fn try_new(desktop_path: &str, contents: &str) -> (metadata: Result<
        EditorMetadata,
        DesktopExecError,
    >)
        ensures
            match metadata {
                Ok(found) => found@.desktop_path == desktop_path@ && entry_value(
                    contents@,
                    "Exec"@,
                ) == Some(found@.command) && found@.name == entry_value(contents@, "Name"@)
                    && found@.icon == entry_value(contents@, "Icon"@),
                Err(error) => entry_value(contents@, "Exec"@) is None && error
                    == DesktopExecError::NoExec,
            },
    {
        let all = split_lines(contents);
        let group = read_group(&all);
        match read_value(&group, "Exec") {
            Some(command) => Ok(
                EditorMetadata {
                    desktop_path: desktop_path.to_owned(),
                    command,
                    name: read_value(&group, "Name"),
                    icon: read_value(&group, "Icon"),
                },
            ),
            None => Err(DesktopExecError::NoExec),
        }
    }

    fn expand_code(&self, code: char, paths: &PathArgs) -> (out: (Vec<String>, bool))
        ensures
            (text::texts(out.0@), out.1) == code_args(code, self@, paths.seen()),
    {
        let mut args: Vec<String> = Vec::new();
        if code == 'f' || code == 'F' {
            return copy_args(&paths.file);
        }
        if code == 'u' || code == 'U' {
            return copy_args(&paths.url);
        }
        if code == 'c' {
            if let Some(name) = &self.name {
                args.push(name.clone());
            }
        } else if code == 'i' {
            if let Some(icon) = &self.icon {
                args.push("--icon".to_owned());
                args.push(icon.clone());
            }
        } else if code == 'k' {
            args.push(self.desktop_path.clone());
        } else if code == '%' {
            args.push("%".to_owned());
        }
        assert(text::texts(args@) =~= code_args(code, self@, paths.seen()).0);
        (args, false)
    }

    fn expand_word(&self, word: &String, paths: &PathArgs) -> (out: Option<(Vec<String>, bool)>)
        ensures
            match (out, word_args(word@, self@, paths.seen())) {
                (Some(found), Some(expected)) => (text::texts(found.0@), found.1) == expected,
                (None, None) => true,
                _ => false,
            },
    {
        let chars = chars_of(word.as_str());
        let mut args: Vec<String> = Vec::new();
        if chars.len() == 0 || chars[0] != '%' {
            args.push(word.clone());
            assert(text::texts(args@) =~= seq![word@]);
            return Some((args, false));
        }
        if chars.len() == 1 {
            return None;
        }
        if chars.len() == 2 {
            return Some(self.expand_code(chars[1], paths));
        }
        assert(text::texts(args@) =~= Seq::empty());
        Some((args, false))
    }

    fn build(&self, paths: &PathArgs) -> (command: Result<CommandLine, DesktopExecError>)
        requires
            has_arguments(paths.seen()),
        ensures
            command_view(command) == built(self@, paths.seen()),
    {
        let tokens = match tokenize_exec(self.command.as_str()) {
            Ok(tokens) => tokens,
            Err(error) => {
                return Err(error);
            },
        };
        let ghost given = text::texts(tokens@);
        let mut args: Vec<String> = Vec::new();
        let mut has_path = false;
        let mut i: usize = 0;
        assert(given.take(0) =~= Seq::empty());
        assert(text::texts(args@) =~= Seq::empty());
        while i < tokens.len()
            invariant
                i <= tokens@.len(),
                exec_words(self@.command) == Some(given),
                given == text::texts(tokens@),
                all_args(given.take(i as int), self@, paths.seen()) == Some(
                    (text::texts(args@), has_path),
                ),
            decreases tokens@.len() - i,
        {
            proof {
                assert(given.take(i + 1).drop_last() =~= given.take(i as int));
                assert(given.take(i + 1).last() == tokens@[i as int]@);
            }
            match self.expand_word(&tokens[i], paths) {
                Some((more, path_here)) => {
                    push_all(&mut args, &more);
                    has_path = has_path || path_here;
                },
                None => {
                    proof {
                        lemma_malformed(given, self@, paths.seen(), i + 1);
                    }
                    return Err(DesktopExecError::MalformedFieldCode);
                },
            }
            i += 1;
        }
        assert(given.take(i as int) =~= given);
        if !has_path {
            return Err(DesktopExecError::NoTargetPath);
        }
        proof {
            lemma_args_carry(given, self@, paths.seen());
        }
        let ghost all = text::texts(args@);
        let program = args.remove(0);
        let command = CommandLine { program, args };
        assert(command@.program == all[0]);
        assert(command@.args =~= all.skip(1));
        Ok(command)
    }

    /// The command that opens `target`.
    pub fn build_default_command(&self, target: &LaunchTarget) -> (command: Result<
        CommandLine,
        DesktopExecError,
    >)
        ensures
            command_view(command) == built(self@, default_args(target@)),
    {
        let file = match &target.path {
            Some(path) => {
                let mut args: Vec<String> = Vec::new();
                args.push(path.clone());
                assert(text::texts(args@) =~= seq![path@]);
                Some(args)
            },
            None => None,
        };
        let url = match &target.resolved {
            Some(path) => {
                let mut address = "file://".to_owned();
                address.append(path.as_str());
                let mut args: Vec<String> = Vec::new();
                args.push(address);
                assert(text::texts(args@) =~= seq!["file://"@ + path@]);
                Some(args)
            },
            None => None,
        };
        self.build(&PathArgs { file, url })
    }

    /// The command that opens `target` in a JetBrains editor, at `place`.
    pub fn build_jetbrains_command(
        &self,
        target: &LaunchTarget,
        place: Option<LineAndColumnArg>,
    ) -> (command: Result<CommandLine, DesktopExecError>)
        ensures
            command_view(command) == built(self@, jetbrains_path_args(target@, place)),
    {
        let file = jetbrains_paths(&target.path, place);
        let url = jetbrains_paths(&target.path, place);
        self.build(&PathArgs { file, url })
    }

    /// The command that opens `target` in Sublime Text, at `place`.
    pub fn build_sublime_command(&self, target: &LaunchTarget, place: Option<LineAndColumnArg>)
        -> (command: Result<CommandLine, DesktopExecError>)
        ensures
            command_view(command) == built(self@, sublime_path_args(target@, place)),
    {
        let file = sublime_paths(&target.path, place);
        let url = sublime_paths(&target.path, place);
        self.build(&PathArgs { file, url })
    }
}

fn jetbrains_paths(path: &Option<String>, place: Option<LineAndColumnArg>) -> (args: Option<
    Vec<String>,
>)
    ensures
        args_view(args) == (match text::text_view(*path) {
            Some(found) => Some(flagged_path(found, place)),
            None => None,
        }),
{
    match path {
        Some(found) => {
            let mut args: Vec<String> = Vec::new();
            if let Some(at) = place {
                args.push("--line".to_owned());
                args.push(decimal_string(at.line_num));
                if let Some(column) = at.column_num {
                    args.push("--column".to_owned());
                    args.push(decimal_string(column));
                }
            }
            args.push(found.clone());
            assert(text::texts(args@) =~= flagged_path(found@, place));
            Some(args)
        },
        None => None,
    }
}

fn sublime_paths(path: &Option<String>, place: Option<LineAndColumnArg>) -> (args: Option<
    Vec<String>,
>)
    ensures
        args_view(args) == (match text::text_view(*path) {
            Some(found) => Some(seq![found + launch::place_suffix(place)]),
            None => None,
        }),
{
    match path {
        Some(found) => {
            let mut args: Vec<String> = Vec::new();
            args.push(path_with_place(found.as_str(), place));
            assert(text::texts(args@) =~= seq![found@ + launch::place_suffix(place)]);
            Some(args)
        },
        None => None,
    }
}

fn push_all(args: &mut Vec<String>, more: &Vec<String>)
    ensures
        text::texts(final(args)@) == text::texts(old(args)@) + text::texts(more@),
{
    let ghost before = text::texts(args@);
    let ghost added = text::texts(more@);
    let mut i: usize = 0;
    assert(before + added.take(0) =~= before);
    while i < more.len()
        invariant
            i <= more@.len(),
            added == text::texts(more@),
            text::texts(args@) == before + added.take(i as int),
        decreases more@.len() - i,
    {
        let ghost now = text::texts(args@);
        args.push(more[i].clone());
        proof {
            assert(text::texts(args@) =~= now.push(added[i as int]));
            assert(before + added.take(i + 1) =~= now.push(added[i as int]));
        }
        i += 1;
    }
    assert(added.take(i as int) =~= added);
}

/// One word that cannot be filled in spoils the command.
proof fn lemma_malformed(
    given: Seq<Seq<char>>,
    metadata: MetadataView,
    paths: PathArgsView,
    count: int,
)
    requires
        0 < count <= given.len(),
        word_args(given[count - 1], metadata, paths) is None,
    ensures
        all_args(given, metadata, paths) is None,
    decreases given.len(),
{
    if count < given.len() {
        lemma_malformed(given.drop_last(), metadata, paths, count);
    }
}

/// The command that opens a folder on Linux: Zed has a program of its own, which
/// is started apart from this one; every other editor goes by its desktop entry.
pub open spec fn linux_folder_command(
    editor: Editor,
    folder: TargetView,
    home: Seq<char>,
    metadata: Option<MetadataView>,
) -> Option<launch::CommandView> {
    match (editor, folder.path) {
        (Editor::Zed, Some(path)) => Some(
            launch::CommandView {
                program: "/usr/bin/setsid"@,
                args: seq!["-f"@, home + "/.local/zed.app/bin/zed"@, path],
            },
        ),
        (Editor::Zed, None) => None,
        _ => match metadata {
            Some(found) => match built(found, default_args(folder)) {
                Ok(command) => Some(command),
                Err(_) => None,
            },
            None => None,
        },
    }
}

/// The command that opens a folder in `editor`, whose desktop entry is
/// `metadata`. A folder has no place in it to go to. `None` when there is no such
/// command, and then the folder is revealed instead.
pub fn folder_command(
    editor: Editor,
    folder: &LaunchTarget,
    home: &str,
    metadata: &Option<EditorMetadata>,
) -> (command: Option<CommandLine>)
    ensures
        match (
            command,
            linux_folder_command(
                editor,
                folder@,
                home@,
                match *metadata {
                    Some(found) => Some(found@),
                    None => None,
                },
            ),
        ) {
            (Some(found), Some(expected)) => found@ == expected,
            (None, None) => true,
            _ => false,
        },
{
    match editor {
        Editor::Zed => match &folder.path {
            Some(path) => {
                let mut binary = home.to_owned();
                binary.append("/.local/zed.app/bin/zed");
                let mut args: Vec<String> = Vec::new();
                args.push("-f".to_owned());
                args.push(binary);
                args.push(path.clone());
                let command = CommandLine { program: "/usr/bin/setsid".to_owned(), args };
                assert(command@.args =~= seq![
                    "-f"@,
                    home@ + "/.local/zed.app/bin/zed"@,
                    path@,
                ]);
                Some(command)
            },
            None => None,
        },
        _ => match metadata {
            Some(found) => match found.build_default_command(folder) {
                Ok(command) => Some(command),
                Err(_) => None,
            },
            None => None,
        },
    }
}

/// An argument is what a path field code hands over: the path, or its address.
pub open spec fn carries_path(arg: Seq<char>, paths: PathArgsView) -> bool {
    ||| paths.file is Some && arg == (paths.file->0).last()
    ||| paths.url is Some && arg == (paths.url->0).last()
}

/// There is an argument for every path field code that stands for something.
pub open spec fn has_arguments(paths: PathArgsView) -> bool {
    &&& paths.file is Some ==> (paths.file->0).len() > 0
    &&& paths.url is Some ==> (paths.url->0).len() > 0
}

proof fn lemma_args_carry(given: Seq<Seq<char>>, metadata: MetadataView, paths: PathArgsView)
    requires
        has_arguments(paths),
        all_args(given, metadata, paths) matches Some((args, has_path)) && has_path,
    ensures
        (all_args(given, metadata, paths)->0).0.len() > 0,
        exists|i: int|
            0 <= i < (all_args(given, metadata, paths)->0).0.len() && carries_path(
                #[trigger] (all_args(given, metadata, paths)->0).0[i],
                paths,
            ),
    decreases given.len(),
{
    let all = (all_args(given, metadata, paths)->0).0;
    let init = given.drop_last();
    let (before, path_before) = all_args(init, metadata, paths)->0;
    let (args, path_here) = word_args(given.last(), metadata, paths)->0;
    if path_before {
        lemma_args_carry(init, metadata, paths);
        let at = choose|i: int| 0 <= i < before.len() && carries_path(#[trigger] before[i], paths);
        assert(all[at] == before[at]);
    } else {
        assert(carries_path(args.last(), paths));
        assert(all[all.len() - 1] == args.last());
    }
}

proof fn lemma_nothing_to_carry(given: Seq<Seq<char>>, metadata: MetadataView, paths: PathArgsView)
    requires
        paths.file is None,
        paths.url is None,
    ensures
        all_args(given, metadata, paths) matches Some((args, has_path)) ==> !has_path,
    decreases given.len(),
{
    if given.len() > 0 {
        lemma_nothing_to_carry(given.drop_last(), metadata, paths);
    }
}

/// The words of a command: its program and its arguments.
pub open spec fn command_words(command: launch::CommandView) -> Seq<Seq<char>> {
    seq![command.program] + command.args
}

/// A command that is built always receives what it is to open: one of its words
/// is the path, or its address, letter for letter. With nothing to hand over
/// there is no command.
pub proof fn built_commands_receive_the_path(metadata: MetadataView, target: TargetView)
    ensures
        built(metadata, default_args(target)) matches Ok(command) ==> exists|i: int|
            0 <= i < command_words(command).len() && carries_path(
                #[trigger] command_words(command)[i],
                default_args(target),
            ),
        target.path is None && target.resolved is None ==> built(
            metadata,
            default_args(target),
        ) is Err,
{
    let paths = default_args(target);
    if let Ok(command) = built(metadata, paths) {
        let given = exec_words(metadata.command)->0;
        lemma_args_carry(given, metadata, paths);
        let args = (all_args(given, metadata, paths)->0).0;
        let at = choose|i: int| 0 <= i < args.len() && carries_path(#[trigger] args[i], paths);
        assert(command_words(command) =~= args);
        assert(command_words(command)[at] == args[at]);
    }
    if target.path is None && target.resolved is None {
        if let Some(given) = exec_words(metadata.command) {
            lemma_nothing_to_carry(given, metadata, paths);
        }
    }
}

proof fn lemma_first_word(given: Seq<Seq<char>>, metadata: MetadataView, paths: PathArgsView)
    requires
        given.len() > 0,
        given[0].len() == 0 || given[0][0] != '%',
        all_args(given, metadata, paths) is Some,
    ensures
        (all_args(given, metadata, paths)->0).0.len() > 0,
        (all_args(given, metadata, paths)->0).0[0] == given[0],
    decreases given.len(),
{
    let init = given.drop_last();
    if init.len() > 0 {
        lemma_first_word(init, metadata, paths);
        assert((all_args(given, metadata, paths)->0).0[0] == (all_args(
            init,
            metadata,
            paths,
        )->0).0[0]);
    } else {
        assert(init =~= Seq::empty());
        assert((all_args(given, metadata, paths)->0).0 =~= seq![given[0]]);
    }
}

/// A path field code gives the path as one argument, letter for letter, whatever
/// the path holds, and the program is the entry's first word unless that is a
/// field code itself.
pub proof fn path_is_one_argument(metadata: MetadataView, target: TargetView, path: Seq<char>)
    requires
        target.path == Some(path),
    ensures
        word_args(seq!['%', 'f'], metadata, default_args(target)) == Some((seq![path], true)),
        word_args(seq!['%', 'F'], metadata, default_args(target)) == Some((seq![path], true)),
        built(metadata, default_args(target)) matches Ok(command) ==> exec_words(
            metadata.command,
        ) matches Some(given) && given.len() > 0 && (given[0].len() == 0 || given[0][0] != '%'
            ==> command.program == given[0]),
{
    let paths = default_args(target);
    if built(metadata, paths) is Ok {
        let given = exec_words(metadata.command)->0;
        lemma_args_carry(given, metadata, paths);
        if given[0].len() == 0 || given[0][0] != '%' {
            lemma_first_word(given, metadata, paths);
        }
    }
}

/// A line is split at white space: a word without quotes in front of white space
/// is the first word, and white space in front of a word counts for nothing.
pub proof fn lines_split_at_white_space(word: Seq<char>, space: char, rest: Seq<char>)
    requires
        word.len() > 0,
        forall|i: int|
            0 <= i < word.len() ==> #[trigger] word[i] != '"' && !text::is_space(word[i]),
        text::is_space(space),
    ensures
        exec_words(word) == Some(seq![word]),
        exec_words(seq![space] + rest) == exec_words(rest),
        exec_words(rest) is Some ==> exec_words(word + seq![space] + rest) == Some(
            seq![word] + exec_words(rest)->0,
        ),
        exec_words(rest) is None ==> exec_words(word + seq![space] + rest) is None,
        exec_words(Seq::empty()) == Some(Seq::<Seq<char>>::empty()),
{
    let none = Seq::<char>::empty();
    lemma_plain_word(none, word, none);
    assert(word + none =~= word);
    assert(none + word =~= word);
    let tail = seq![space] + rest;
    lemma_plain_word(none, word, tail);
    assert(word + tail =~= word + seq![space] + rest);
    assert(tail.skip(1) =~= rest);
    assert(tail[0] == space);
    assert(!text::is_space('"'));
}

proof fn lemma_plain_word(done: Seq<char>, word: Seq<char>, rest: Seq<char>)
    requires
        forall|i: int|
            0 <= i < word.len() ==> #[trigger] word[i] != '"' && !text::is_space(word[i]),
    ensures
        word.len() > 0 ==> words(word + rest, Some(done), false) == words(
            rest,
            Some(done + word),
            false,
        ),
        word.len() > 0 && done.len() == 0 ==> words(word + rest, None, false) == words(
            rest,
            Some(done + word),
            false,
        ),
    decreases word.len(),
{
    if word.len() > 0 {
        let whole = word + rest;
        let later = word.skip(1);
        assert(whole[0] == word[0]);
        assert(whole.skip(1) =~= later + rest);
        assert(done.push(word[0]) + later =~= done + word);
        assert(done.len() == 0 ==> done =~= Seq::<char>::empty());
        assert forall|i: int| 0 <= i < later.len() implies #[trigger] later[i] != '"'
            && !text::is_space(later[i]) by {
            assert(later[i] == word[i + 1]);
        }
        if later.len() > 0 {
            lemma_plain_word(done.push(word[0]), later, rest);
        } else {
            assert(later + rest =~= rest);
            assert(done.push(word[0]) =~= done + word);
        }
    }
}

/// A quote that is never closed makes the line unreadable.
pub proof fn open_quotes_are_refused(inner: Seq<char>)
    requires
        forall|i: int| 0 <= i < inner.len() ==> #[trigger] inner[i] != '"' && inner[i] != '\\',
    ensures
        exec_words(seq!['"'] + inner) is None,
{
    let whole = seq!['"'] + inner;
    assert(whole.skip(1) =~= inner);
    assert(whole[0] == '"');
    lemma_unclosed(inner, Seq::empty());
}

proof fn lemma_unclosed(inner: Seq<char>, done: Seq<char>)
    requires
        forall|i: int| 0 <= i < inner.len() ==> #[trigger] inner[i] != '"' && inner[i] != '\\',
    ensures
        words(inner, Some(done), true) is None,
    decreases inner.len(),
{
    if inner.len() > 0 {
        let rest = inner.skip(1);
        assert forall|i: int| 0 <= i < rest.len() implies #[trigger] rest[i] != '"' && rest[i]
            != '\\' by {
            assert(rest[i] == inner[i + 1]);
        }
        lemma_unclosed(rest, done.push(inner[0]));
    }
}

/// What each field code of a command stands for. The path is an argument for
/// `%f` and `%F`, its address for `%u` and `%U`; `%c` is the name, `%i` the icon
/// behind its flag, `%k` the file itself and `%%` a percent sign. Any other code
/// stands for nothing, a lone percent sign is malformed, and every other word
/// is an argument as it is.
pub proof fn field_codes_stand_for_their_fields(
    metadata: MetadataView,
    paths: PathArgsView,
    word: Seq<char>,
)
    ensures
        word.len() == 0 || word[0] != '%' ==> word_args(word, metadata, paths) == Some(
            (seq![word], false),
        ),
        word_args(seq!['%'], metadata, paths) is None,
        word_args(seq!['%', 'f'], metadata, paths) == word_args(
            seq!['%', 'F'],
            metadata,
            paths,
        ),
        word_args(seq!['%', 'f'], metadata, paths) == Some(
            match paths.file {
                Some(args) => (args, true),
                None => (Seq::empty(), false),
            },
        ),
        word_args(seq!['%', 'u'], metadata, paths) == word_args(
            seq!['%', 'U'],
            metadata,
            paths,
        ),
        word_args(seq!['%', 'u'], metadata, paths) == Some(
            match paths.url {
                Some(args) => (args, true),
                None => (Seq::empty(), false),
            },
        ),
        word_args(seq!['%', 'c'], metadata, paths) == Some(
            (
                match metadata.name {
                    Some(name) => seq![name],
                    None => Seq::empty(),
                },
                false,
            ),
        ),
        word_args(seq!['%', 'i'], metadata, paths) == Some(
            (
                match metadata.icon {
                    Some(icon) => seq!["--icon"@, icon],
                    None => Seq::empty(),
                },
                false,
            ),
        ),
        word_args(seq!['%', 'k'], metadata, paths) == Some((seq![metadata.desktop_path], false)),
        word_args(seq!['%', '%'], metadata, paths) == Some((seq!["%"@], false)),
        word.len() == 2 && word[0] == '%' && word[1] != 'f' && word[1] != 'F' && word[1] != 'u'
            && word[1] != 'U' && word[1] != 'c' && word[1] != 'i' && word[1] != 'k' && word[1] != '%'
            ==> word_args(word, metadata, paths) == Some((Seq::<Seq<char>>::empty(), false)),
{
}

/// The arguments of a command are those of its words, in order, and it has the
/// path where one of its words has.
pub proof fn arguments_follow_the_words(
    given: Seq<Seq<char>>,
    word: Seq<char>,
    metadata: MetadataView,
    paths: PathArgsView,
)
    ensures
        all_args(Seq::empty(), metadata, paths) == Some((Seq::<Seq<char>>::empty(), false)),
        all_args(given.push(word), metadata, paths) is Some <==> all_args(
            given,
            metadata,
            paths,
        ) is Some && word_args(word, metadata, paths) is Some,
        all_args(given.push(word), metadata, paths) matches Some(after) ==> {
            &&& after.0 == (all_args(given, metadata, paths)->0).0 + (word_args(
                word,
                metadata,
                paths,
            )->0).0
            &&& after.1 == ((all_args(given, metadata, paths)->0).1 || (word_args(
                word,
                metadata,
                paths,
            )->0).1)
        },
{
    assert(given.push(word).drop_last() =~= given);
}

/// A command is built where its line can be read, its codes are whole and the
/// path finds a place in it; each of the three failures is told apart.
pub proof fn failures_to_build_are_told_apart(metadata: MetadataView, paths: PathArgsView)
    ensures
        exec_words(metadata.command) is None <==> built(metadata, paths) == Err::<
            launch::CommandView,
            DesktopExecError,
        >(DesktopExecError::UnterminatedQuote),
        exec_words(metadata.command) matches Some(given) ==> {
            &&& all_args(given, metadata, paths) is None <==> built(metadata, paths) == Err::<
                launch::CommandView,
                DesktopExecError,
            >(DesktopExecError::MalformedFieldCode)
            &&& all_args(given, metadata, paths) matches Some(found) ==> {
                &&& !found.1 <==> built(metadata, paths) == Err::<
                    launch::CommandView,
                    DesktopExecError,
                >(DesktopExecError::NoTargetPath)
                &&& found.1 ==> built(metadata, paths) == Ok::<
                    launch::CommandView,
                    DesktopExecError,
                >(launch::CommandView { program: found.0[0], args: found.0.skip(1) })
            }
        },
{
}

/// A key of a desktop file is looked up in its own group: other groups count for
/// nothing, the first line with the key counts, and the white space around the
/// key and the value is left out.
pub proof fn keys_are_read_from_their_group(lines: Seq<Seq<char>>, line: Seq<char>, inside: bool)
    requires
        line.len() > 0 ==> !text::is_space(line[0]) && !text::is_space(line.last()),
    ensures
        line.len() > 0 && line[0] == '[' ==> group_lines(seq![line] + lines, inside) == group_lines(
            lines,
            line == "[Desktop Entry]"@,
        ),
        !(line.len() > 0 && line[0] == '[') ==> group_lines(seq![line] + lines, true) == seq![line]
            + group_lines(lines, true),
        !(line.len() > 0 && line[0] == '[') ==> group_lines(seq![line] + lines, false)
            == group_lines(lines, false),
        group_lines(Seq::empty(), inside) == Seq::<Seq<char>>::empty(),
{
    let none = Seq::<char>::empty();
    let all = seq![line] + lines;
    text::trimming_takes_only_the_ends(none, line, none);
    assert(none + line + none =~= line);
    assert(all.skip(1) =~= lines);
    assert(all[0] == line);
}

/// The first line that gives the key gives its value, behind the first equals
/// sign; a line for another key is passed over.
pub proof fn first_line_with_the_key_counts(
    key: Seq<char>,
    other: Seq<char>,
    before: Seq<char>,
    after: Seq<char>,
    value: Seq<char>,
    lines: Seq<Seq<char>>,
)
    requires
        !key.contains('='),
        !other.contains('='),
        key != other,
        key.len() > 0 ==> !text::is_space(key[0]) && !text::is_space(key.last()),
        other.len() > 0 ==> !text::is_space(other[0]) && !text::is_space(other.last()),
        value.len() > 0 ==> !text::is_space(value[0]) && !text::is_space(value.last()),
        forall|i: int| 0 <= i < before.len() ==> text::is_space(#[trigger] before[i]),
        forall|i: int| 0 <= i < after.len() ==> text::is_space(#[trigger] after[i]),
    ensures
        key_value(seq![key + before + seq!['='] + (after + value)] + lines, key) == Some(value),
        key_value(seq![other + before + seq!['='] + (after + value)] + lines, key) == key_value(
            lines,
            key,
        ),
        key_value(Seq::empty(), key) is None,
{
    let none = Seq::<char>::empty();
    let back = after + value;
    lemma_split_at_equals(key, before, back);
    lemma_split_at_equals(other, before, back);
    text::trimming_takes_only_the_ends(none, key, before);
    text::trimming_takes_only_the_ends(none, other, before);
    text::trimming_takes_only_the_ends(after, value, none);
    assert(none + key + before =~= key + before);
    assert(none + other + before =~= other + before);
    assert(after + value + none =~= back);
    let found = seq![key + before + seq!['='] + back] + lines;
    let passed = seq![other + before + seq!['='] + back] + lines;
    assert(found[0] == key + before + seq!['='] + back);
    assert(passed[0] == other + before + seq!['='] + back);
    assert(passed.skip(1) =~= lines);
}

proof fn lemma_split_at_equals(key: Seq<char>, before: Seq<char>, back: Seq<char>)
    requires
        !key.contains('='),
        forall|i: int| 0 <= i < before.len() ==> text::is_space(#[trigger] before[i]),
    ensures
        ({
            let line = key + before + seq!['='] + back;
            let equals = text::first_pos(line, 0, '=');
            &&& equals == key.len() + before.len()
            &&& equals < line.len()
            &&& line.take(equals) == key + before
            &&& line.skip(equals + 1) == back
        }),
{
    let line = key + before + seq!['='] + back;
    let equals = text::first_pos(line, 0, '=');
    text::lemma_first_pos(line, 0, '=');
    let at = (key.len() + before.len()) as int;
    assert(line[at] == '=');
    assert(!text::is_space('='));
    if equals < key.len() {
        assert(key[equals] == '=');
    } else if equals < at {
        assert(before[equals - key.len()] == '=');
    }
    assert(line.take(at) =~= key + before);
    assert(line.skip(at + 1) =~= back);
}

/// The place in a file goes to each editor the way it takes it: as flags in front
/// of the path, or behind the path.
pub proof fn places_are_passed_on(target: TargetView, path: Seq<char>, place: LineAndColumnArg)
    requires
        target.path == Some(path),
    ensures
        ({
            let line = text::decimal(place.line_num as nat);
            &&& place.column_num is None ==> jetbrains_path_args(target, Some(place)).file == Some(
                seq!["--line"@, line, path],
            )
            &&& place.column_num matches Some(column) ==> jetbrains_path_args(
                target,
                Some(place),
            ).file == Some(
                seq!["--line"@, line, "--column"@, text::decimal(column as nat), path],
            )
            &&& place.column_num is None ==> sublime_path_args(target, Some(place)).file == Some(
                seq![path + seq![':'] + line],
            )
            &&& place.column_num matches Some(column) ==> sublime_path_args(
                target,
                Some(place),
            ).file == Some(
                seq![path + seq![':'] + line + seq![':'] + text::decimal(column as nat)],
            )
            &&& jetbrains_path_args(target, None).file == Some(seq![path])
            &&& sublime_path_args(target, None).file == Some(seq![path])
        }),
{
    let line = text::decimal(place.line_num as nat);
    let none = Seq::<char>::empty();
    assert(path + none =~= path);
    assert(sublime_path_args(target, None).file->0 =~= seq![path]);
    match place.column_num {
        Some(column) => {
            let last = text::decimal(column as nat);
            assert(jetbrains_path_args(target, Some(place)).file->0 =~= seq![
                "--line"@,
                line,
                "--column"@,
                last,
                path,
            ]);
            assert(path + (seq![':'] + line + (seq![':'] + last)) =~= path + seq![':'] + line + seq![
                ':',
            ] + last);
        },
        None => {
            assert(jetbrains_path_args(target, Some(place)).file->0 =~= seq!["--line"@, line, path]);
            assert(path + (seq![':'] + line + none) =~= path + seq![':'] + line);
        },
    }
}

/// On a Linux desktop Zed is started from its own directory, and every other
/// editor as its desktop file says; without a path or a readable file there is
/// no command.
pub proof fn linux_folders_open_by_desktop_file(
    editor: Editor,
    folder: TargetView,
    home: Seq<char>,
    metadata: Option<MetadataView>,
)
    ensures
        editor is Zed ==> linux_folder_command(editor, folder, home, metadata) == (
        match folder.path {
            Some(path) => Some(
                launch::CommandView {
                    program: "/usr/bin/setsid"@,
                    args: seq!["-f"@, home + "/.local/zed.app/bin/zed"@, path],
                },
            ),
            None => None,
        }),
        !(editor is Zed) && metadata is None ==> linux_folder_command(
            editor,
            folder,
            home,
            metadata,
        ) is None,
        !(editor is Zed) && metadata is Some ==> (match built(
            metadata->0,
            default_args(folder),
        ) {
            Ok(command) => linux_folder_command(editor, folder, home, metadata) == Some(command),
            Err(_) => linux_folder_command(editor, folder, home, metadata) is None,
        }),
{
}

/// A command gets the path as it is and its address as a `file://` link, each
/// only where it is known; the editors that take a place get the path with its
/// place for both.
pub proof fn paths_are_passed_on(target: TargetView, place: Option<LineAndColumnArg>)
    ensures
        target.path is Some ==> default_args(target).file == Some(seq![target.path->0]),
        target.path is None ==> default_args(target).file is None,
        target.resolved is Some ==> default_args(target).url == Some(
            seq!["file://"@ + target.resolved->0],
        ),
        target.resolved is None ==> default_args(target).url is None,
        jetbrains_path_args(target, place).url == jetbrains_path_args(target, place).file,
        sublime_path_args(target, place).url == sublime_path_args(target, place).file,
        target.path is None ==> jetbrains_path_args(target, place).file is None
            && sublime_path_args(target, place).file is None,
{
}

} // verus!
