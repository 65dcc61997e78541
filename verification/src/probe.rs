//! The SSH probe: what is asked of a host, how its answer is read, and the
//! command lines that open a tab on it.
use vstd::prelude::*;
use crate::entry;
use crate::entry::{shell_quote, RemoteTarget, RepoEntryKind};
use crate::text;
use crate::text::{
    chars_of, contains_run, copy_text, decimal_string, find_first, same_text, string_of,
    strip_prefix, to_lower,
};

verus! {

broadcast use vstd::string::group_string_axioms;

/// The remote command that runs the probe script handed over standard input.
pub const REMOTE_PROBE_SHELL_COMMAND: &'static str = "sh -s";

/// Why a probe gave no usable answer.
#[derive(Clone, Copy, Debug, PartialEq, Eq, Structural)]
pub enum RemoteProbeFailure {
    /// The host did not answer.
    Unreachable,
    /// The host key is unknown or the private key is locked, which a connection
    /// made by hand can settle.
    NeedsFirstHandConnect,
    /// The host answered that the path is not there.
    PathNotFound,
    /// There is no `ssh` to run on this machine.
    SshUnavailable,
    /// The host presents another key than before.
    HostKeyChanged,
}

impl RemoteProbeFailure {
    /// The explanation shown in the form.
    pub open spec fn message_text(self) -> Seq<char> {
        match self {
            RemoteProbeFailure::Unreachable =>
                "Could not reach the host. Check the server, the port, and your network."@,
            RemoteProbeFailure::NeedsFirstHandConnect =>
                "Connect once by hand first: the host key is unknown or the key is locked."@,
            RemoteProbeFailure::PathNotFound => "The path does not exist on the host."@,
            RemoteProbeFailure::SshUnavailable => "No ssh command was found on this machine."@,
            RemoteProbeFailure::HostKeyChanged =>
                "The host key has changed. Verify the new key before you connect again."@,
        }
    }

    /// The few words shown on a row.
    pub open spec fn label_text(self) -> Seq<char> {
        match self {
            RemoteProbeFailure::Unreachable => "Unreachable"@,
            RemoteProbeFailure::NeedsFirstHandConnect => "Connect by hand first"@,
            RemoteProbeFailure::PathNotFound => "Path not found"@,
            RemoteProbeFailure::SshUnavailable => "No ssh here"@,
            RemoteProbeFailure::HostKeyChanged => "Host key changed"@,
        }
    }

    /// What the user has to do about it.
    pub fn message(&self) -> (message: &'static str)
        ensures
            message@ == self.message_text(),
    {
        match self {
            RemoteProbeFailure::Unreachable =>
            "Could not reach the host. Check the server, the port, and your network.",
            RemoteProbeFailure::NeedsFirstHandConnect =>
            "Connect once by hand first: the host key is unknown or the key is locked.",
            RemoteProbeFailure::PathNotFound => "The path does not exist on the host.",
            RemoteProbeFailure::SshUnavailable => "No ssh command was found on this machine.",
            RemoteProbeFailure::HostKeyChanged =>
            "The host key has changed. Verify the new key before you connect again.",
        }
    }

    /// The same in a few words.
    pub fn short_label(&self) -> (label: &'static str)
        ensures
            label@ == self.label_text(),
    {
        match self {
            RemoteProbeFailure::Unreachable => "Unreachable",
            RemoteProbeFailure::NeedsFirstHandConnect => "Connect by hand first",
            RemoteProbeFailure::PathNotFound => "Path not found",
            RemoteProbeFailure::SshUnavailable => "No ssh here",
            RemoteProbeFailure::HostKeyChanged => "Host key changed",
        }
    }
}

/// No two failures tell the user the same thing, and none says nothing.
pub proof fn failures_are_told_apart(a: RemoteProbeFailure, b: RemoteProbeFailure)
    ensures
        a.message_text().len() > 0,
        a.label_text().len() > 0,
        a != b ==> a.message_text() != b.message_text(),
        a != b ==> a.label_text() != b.label_text(),
{
    reveal_strlit("Could not reach the host. Check the server, the port, and your network.");
    reveal_strlit("Connect once by hand first: the host key is unknown or the key is locked.");
    reveal_strlit("The path does not exist on the host.");
    reveal_strlit("No ssh command was found on this machine.");
    reveal_strlit("The host key has changed. Verify the new key before you connect again.");
    reveal_strlit("Unreachable");
    reveal_strlit("Connect by hand first");
    reveal_strlit("Path not found");
    reveal_strlit("No ssh here");
    reveal_strlit("Host key changed");
    assert("Unreachable"@[0] == 'U');
    assert("No ssh here"@[0] == 'N');
}

/// A probe's answer, as mathematical values.
pub enum ProbeOutcomeView {
    Found { remote_path: Seq<char>, kind: RepoEntryKind, branch: Option<Seq<char>> },
    Missing,
}

/// What the host said about the path.
#[derive(Debug, PartialEq, Eq)]
pub enum RemoteProbeOutcome {
    /// The directory is there; the path is the one the host expanded.
    Found { remote_path: String, kind: RepoEntryKind, branch: Option<String> },
    /// The directory is not there.
    Missing,
}

impl View for RemoteProbeOutcome {
    type V = ProbeOutcomeView;

    open spec fn view(&self) -> ProbeOutcomeView {
        match *self {
            RemoteProbeOutcome::Found { remote_path, kind, branch } => ProbeOutcomeView::Found {
                remote_path: remote_path@,
                kind,
                branch: text::text_view(branch),
            },
            RemoteProbeOutcome::Missing => ProbeOutcomeView::Missing,
        }
    }
}

/// A probe state, as mathematical values.
pub enum ProbeStateView {
    Pending,
    Resolved { kind: RepoEntryKind, branch: Option<Seq<char>> },
    Failed { reason: RemoteProbeFailure },
}

/// What a remote row knows about its host.
#[derive(Debug, PartialEq, Eq)]
pub enum RemoteProbeState {
    /// No probe has answered yet.
    Pending,
    /// The last probe found the path.
    Resolved { kind: RepoEntryKind, branch: Option<String> },
    /// The last probe failed.
    Failed { reason: RemoteProbeFailure },
}

impl View for RemoteProbeState {
    type V = ProbeStateView;

    open spec fn view(&self) -> ProbeStateView {
        match *self {
            RemoteProbeState::Pending => ProbeStateView::Pending,
            RemoteProbeState::Resolved { kind, branch } => ProbeStateView::Resolved {
                kind,
                branch: text::text_view(branch),
            },
            RemoteProbeState::Failed { reason } => ProbeStateView::Failed { reason },
        }
    }
}

impl Default for RemoteProbeState {
    fn default() -> (state: Self)
        ensures
            state@ == ProbeStateView::Pending,
    {
        RemoteProbeState::Pending
    }
}

impl Clone for RemoteProbeState {
    fn clone(&self) -> (copy: Self)
        ensures
            copy == *self,
    {
        match self {
            RemoteProbeState::Pending => RemoteProbeState::Pending,
            RemoteProbeState::Resolved { kind, branch } => RemoteProbeState::Resolved {
                kind: *kind,
                branch: copy_text(branch),
            },
            RemoteProbeState::Failed { reason } => RemoteProbeState::Failed { reason: *reason },
        }
    }
}

impl ProbeStateView {
    /// The kind the host confirmed, if it did.
    pub open spec fn kind(self) -> Option<RepoEntryKind> {
        match self {
            ProbeStateView::Resolved { kind, .. } => Some(kind),
            _ => None,
        }
    }
}

impl RemoteProbeState {
    /// Only a resolved probe carries a kind.
    pub fn kind(&self) -> (kind: Option<RepoEntryKind>)
        ensures
            kind == self@.kind(),
    {
        match self {
            RemoteProbeState::Resolved { kind, .. } => Some(*kind),
            _ => None,
        }
    }
}

/// The lines of a text: what stands between line feeds, each without a carriage
/// return right before its line feed. A final line feed opens no further line.
pub open spec fn lines(input: Seq<char>) -> Seq<Seq<char>>
    decreases input.len(),
{
    if input.len() == 0 {
        Seq::empty()
    } else {
        let end = text::first_pos(input, 0, '\n');
        if end < 0 || end >= input.len() {
            seq![input]
        } else if end > 0 && input[end - 1] == '\r' {
            seq![input.take(end - 1)] + lines(input.skip(end + 1))
        } else {
            seq![input.take(end)] + lines(input.skip(end + 1))
        }
    }
}

/// What follows `prefix` on the last line that begins with it.
pub open spec fn last_value(all: Seq<Seq<char>>, prefix: Seq<char>) -> Option<Seq<char>>
    decreases all.len(),
{
    if all.len() == 0 {
        None
    } else if prefix.is_prefix_of(all.last()) {
        Some(all.last().skip(prefix.len() as int))
    } else {
        last_value(all.drop_last(), prefix)
    }
}

/// The kind named by the last line that names one.
pub open spec fn last_kind(all: Seq<Seq<char>>) -> Option<RepoEntryKind>
    decreases all.len(),
{
    if all.len() == 0 {
        None
    } else if all.last() == "kind repo"@ {
        Some(RepoEntryKind::Repo)
    } else if all.last() == "kind folder"@ {
        Some(RepoEntryKind::Folder)
    } else {
        last_kind(all.drop_last())
    }
}

/// What the lines of a probe's output say. The host reports a missing path on a
/// line of its own; otherwise both a path and a kind are needed.
pub open spec fn read_outcome(all: Seq<Seq<char>>) -> Option<ProbeOutcomeView> {
    if all.contains("missing"@) {
        Some(ProbeOutcomeView::Missing)
    } else {
        match (last_value(all, "path "@), last_kind(all)) {
            (Some(remote_path), Some(kind)) => Some(
                ProbeOutcomeView::Found { remote_path, kind, branch: last_value(all, "branch "@) },
            ),
            _ => None,
        }
    }
}

/// The lines of `input`.
pub(crate) fn split_lines(input: &str) -> (out: Vec<String>)
    ensures
        text::texts(out@) == lines(input@),
{
    let chars = chars_of(input);
    let mut out: Vec<String> = Vec::new();
    let mut at: usize = 0;
    assert(chars@.skip(0) =~= input@);
    assert(text::texts(out@) + lines(chars@.skip(0)) =~= lines(input@));
    while at < chars.len()
        invariant
            at <= chars@.len(),
            text::texts(out@) + lines(chars@.skip(at as int)) == lines(input@),
        decreases chars@.len() - at,
    {
        let ghost rest = chars@.skip(at as int);
        let ghost before = out@;
        let end = find_first(&chars, at, '\n');
        proof {
            text::lemma_first_pos(chars@, at as int, '\n');
            text::lemma_first_pos(rest, 0, '\n');
            let inner = text::first_pos(rest, 0, '\n');
            if inner < end - at {
                assert(rest[inner] == chars@[at + inner]);
            }
            if inner > end - at {
                assert(rest[end - at] == chars@[end as int]);
            }
            assert(inner == end - at);
        }
        if end >= chars.len() {
            out.push(string_of(&chars, at, end));
            assert(text::texts(out@) =~= text::texts(before).push(rest));
            at = end;
            assert(chars@.skip(at as int) =~= Seq::<char>::empty());
            assert(text::texts(out@) + lines(chars@.skip(at as int)) =~= text::texts(before) + lines(rest));
        } else {
            let stop: usize = if end > at && chars[end - 1] == '\r' {
                end - 1
            } else {
                end
            };
            out.push(string_of(&chars, at, stop));
            assert(chars@.subrange(at as int, stop as int) =~= rest.take(stop - at));
            assert(rest.skip(end - at + 1) =~= chars@.skip(end + 1));
            assert(end > at ==> rest[end - at - 1] == chars@[end - 1]);
            assert(text::texts(out@) =~= text::texts(before).push(rest.take(stop - at)));
            at = end + 1;
            assert(text::texts(out@) + lines(chars@.skip(at as int)) =~= text::texts(before) + lines(rest));
        }
    }
    assert(chars@.skip(at as int) =~= Seq::<char>::empty());
    assert(text::texts(out@) + lines(chars@.skip(at as int)) =~= text::texts(out@));
    out
}

/// Read the probe's standard output. Garbled or empty output reads as nothing,
/// rather than as a kind that the host never confirmed.
pub fn parse_probe_output(stdout: &str) -> (outcome: Option<RemoteProbeOutcome>)
    ensures
        match (outcome, read_outcome(lines(stdout@))) {
            (Some(found), Some(expected)) => found@ == expected,
            (None, None) => true,
            _ => false,
        },
{
    let all = split_lines(stdout);
    let ghost views = text::texts(all@);
    let mut remote_path: Option<String> = None;
    let mut kind: Option<RepoEntryKind> = None;
    let mut branch: Option<String> = None;
    let mut i: usize = 0;
    while i < all.len()
        invariant
            i <= all@.len(),
            views == text::texts(all@),
            views == lines(stdout@),
            text::text_view(remote_path) == last_value(views.take(i as int), "path "@),
            text::text_view(branch) == last_value(views.take(i as int), "branch "@),
            kind == last_kind(views.take(i as int)),
            forall|j: int| 0 <= j < i ==> views[j] != "missing"@,
        decreases all@.len() - i,
    {
        let line = all[i].as_str();
        assert(views[i as int] == line@);
        if same_text(line, "missing") {
            assert(views.contains("missing"@));
            return Some(RemoteProbeOutcome::Missing);
        }
        proof {
            let here = views.take(i + 1);
            assert(here.drop_last() =~= views.take(i as int));
            assert(here.last() == line@);
            reveal_strlit("path ");
            reveal_strlit("branch ");
            reveal_strlit("kind repo");
            reveal_strlit("kind folder");
            assert("kind repo"@.len() != "kind folder"@.len());
        }
        if let Some(value) = strip_prefix(line, "path ") {
            remote_path = Some(value);
        }
        if let Some(value) = strip_prefix(line, "branch ") {
            branch = Some(value);
        }
        if same_text(line, "kind repo") {
            kind = Some(RepoEntryKind::Repo);
        } else if same_text(line, "kind folder") {
            kind = Some(RepoEntryKind::Folder);
        }
        i += 1;
    }
    assert(views.take(i as int) =~= views);
    match (remote_path, kind) {
        (Some(remote_path), Some(kind)) => Some(
            RemoteProbeOutcome::Found { remote_path, kind, branch },
        ),
        _ => None,
    }
}

/// The class of a failed probe by what `ssh` printed, letter case aside. A
/// changed host key is looked for first: its message also says that the host
/// key verification failed.
pub open spec fn failure_class(stderr: Seq<char>) -> RemoteProbeFailure {
    let said = text::lowered(stderr);
    if text::holds_run(said, "remote host identification has changed"@) {
        RemoteProbeFailure::HostKeyChanged
    } else if text::holds_run(said, "host key verification failed"@) || text::holds_run(
        said,
        "permission denied"@,
    ) || text::holds_run(said, "enter passphrase"@) || text::holds_run(
        said,
        "authenticity of host"@,
    ) {
        RemoteProbeFailure::NeedsFirstHandConnect
    } else {
        RemoteProbeFailure::Unreachable
    }
}

/// Classify a failed probe by what the user must do about it.
pub fn classify_probe_failure(stderr: &str) -> (failure: RemoteProbeFailure)
    ensures
        failure == failure_class(stderr@),
{
    let lowered = to_lower(stderr);
    let said = lowered.as_str();
    if contains_run(said, "remote host identification has changed") {
        RemoteProbeFailure::HostKeyChanged
    } else if contains_run(said, "host key verification failed") || contains_run(
        said,
        "permission denied",
    ) || contains_run(said, "enter passphrase") || contains_run(said, "authenticity of host") {
        RemoteProbeFailure::NeedsFirstHandConnect
    } else {
        RemoteProbeFailure::Unreachable
    }
}

/// How running the probe's subprocess ended.
#[derive(Debug)]
pub enum ProbeRun {
    /// `ssh` could not be started.
    SpawnFailed,
    /// The script could not be handed over, or waiting for `ssh` failed.
    Interrupted,
    /// The wall-clock bound passed.
    TimedOut,
    /// `ssh` exited.
    Exited { success: bool, stdout: String, stderr: String },
}

/// What a finished run means: every way to fail collapses into a reason the form
/// can explain. Only a run that could not start is a local failure; one that
/// timed out, broke off or printed nothing readable counts as unreachable.
pub open spec fn run_answer(run: ProbeRun) -> Result<ProbeOutcomeView, RemoteProbeFailure> {
    match run {
        ProbeRun::SpawnFailed => Err(RemoteProbeFailure::SshUnavailable),
        ProbeRun::Interrupted => Err(RemoteProbeFailure::Unreachable),
        ProbeRun::TimedOut => Err(RemoteProbeFailure::Unreachable),
        ProbeRun::Exited { success, stdout, stderr } => if !success {
            Err(failure_class(stderr@))
        } else {
            match read_outcome(lines(stdout@)) {
                Some(outcome) => Ok(outcome),
                None => Err(RemoteProbeFailure::Unreachable),
            }
        },
    }
}

/// Turn a finished run into the probe's answer.
pub fn read_probe_run(run: ProbeRun) -> (answer: Result<RemoteProbeOutcome, RemoteProbeFailure>)
    ensures
        match (answer, run_answer(run)) {
            (Ok(outcome), Ok(expected)) => outcome@ == expected,
            (Err(failure), Err(expected)) => failure == expected,
            _ => false,
        },
{
    match run {
        ProbeRun::SpawnFailed => Err(RemoteProbeFailure::SshUnavailable),
        ProbeRun::Interrupted => Err(RemoteProbeFailure::Unreachable),
        ProbeRun::TimedOut => Err(RemoteProbeFailure::Unreachable),
        ProbeRun::Exited { success, stdout, stderr } => {
            if !success {
                return Err(classify_probe_failure(stderr.as_str()));
            }
            match parse_probe_output(stdout.as_str()) {
                Some(outcome) => Ok(outcome),
                None => Err(RemoteProbeFailure::Unreachable),
            }
        },
    }
}

/// The `PATH` that a probe is given; `None` inherits that of the process.
pub open spec fn path_env(
    shell: Option<Seq<char>>,
    process: Option<Seq<char>>,
    unix: bool,
) -> Option<Seq<char>> {
    if shell is Some && shell->0.len() > 0 {
        shell
    } else if unix && process is Some && process->0.len() == 0 {
        Some("/usr/bin:/bin:/usr/sbin:/sbin"@)
    } else {
        None
    }
}

/// The `PATH` to hand the probe's `ssh`, or `None` to inherit the process one.
///
/// Prefers the interactive shell's `PATH`, so an `ssh` installed only where the
/// user's shell looks is still found. Falls back to the POSIX default, where the
/// platform has it, for the one inherited value that cannot work: an empty
/// `PATH` fails the lookup outright.
pub fn probe_path_env(
    shell_path_env: Option<String>,
    process_path_env: Option<String>,
    unix: bool,
) -> (path: Option<String>)
    ensures
        text::text_view(path) == path_env(
            text::text_view(shell_path_env),
            text::text_view(process_path_env),
            unix,
        ),
{
    if let Some(path) = shell_path_env {
        if !path.as_str().is_empty() {
            return Some(path);
        }
    }
    if let Some(path) = process_path_env {
        if unix && path.as_str().is_empty() {
            return Some("/usr/bin:/bin:/usr/sbin:/sbin".to_owned());
        }
    }
    None
}

/// The probe's argument list: no prompting, a bound on connecting, the identity
/// when there is one, the port, and the destination behind the `--` fence. The
/// host-key policy stays at its default.
pub open spec fn probe_args(target: entry::RemoteTargetView, timeout_secs: u64) -> Seq<Seq<char>> {
    seq![
        "-o"@,
        "BatchMode=yes"@,
        "-o"@,
        "ConnectTimeout="@ + text::decimal(timeout_secs as nat),
    ] + (if target.identity.len() == 0 {
        Seq::empty()
    } else {
        seq!["-i"@, target.identity]
    }) + seq![
        "-p"@,
        text::decimal(target.port as nat),
        "--"@,
        target.user_host(),
        REMOTE_PROBE_SHELL_COMMAND@,
    ]
}

/// The `ssh` arguments of a probe, each one its own entry: nothing is quoted
/// because no local shell reads them.
pub fn remote_probe_args(target: &RemoteTarget, timeout_secs: u64) -> (args: Vec<String>)
    ensures
        text::texts(args@) == probe_args(target@, timeout_secs),
{
    let mut args: Vec<String> = Vec::new();
    args.push("-o".to_owned());
    args.push("BatchMode=yes".to_owned());
    args.push("-o".to_owned());
    let mut connect = "ConnectTimeout=".to_owned();
    connect.append(decimal_string(timeout_secs).as_str());
    args.push(connect);
    if !target.identity.as_str().is_empty() {
        args.push("-i".to_owned());
        args.push(target.identity.clone());
    }
    args.push("-p".to_owned());
    args.push(decimal_string(target.port as u64));
    args.push("--".to_owned());
    args.push(target.user_host());
    args.push(REMOTE_PROBE_SHELL_COMMAND.to_owned());
    assert(text::texts(args@) =~= probe_args(target@, timeout_secs));
    args
}

/// The lines of the probe script behind the one that sets the path.
pub open spec fn probe_script_body() -> Seq<char> {
    "\ncase \"$p\" in\n  '~') p=$HOME ;;\n  '~/'*) p=$HOME/${p#??} ;;\nesac\nif cd -- \"$p\" 2>/dev/null; then\n  printf 'path %s\\n' \"$(pwd)\"\n  if [ -e .git ]; then\n    echo 'kind repo'\n    b=$(git rev-parse --abbrev-ref HEAD 2>/dev/null) && [ \"$b\" != HEAD ] && printf 'branch %s\\n' \"$b\"\n  else\n    echo 'kind folder'\n  fi\nelse\n  echo missing\nfi\nexit 0\n"@
}

/// The script that looks at a path.
pub open spec fn probe_script(remote_path: Seq<char>) -> Seq<char> {
    "p="@ + entry::quoted(remote_path) + probe_script_body()
}

/// The script a probe hands the remote shell. The path enters it once, quoted,
/// so that its characters are data to that shell and never syntax.
pub fn remote_probe_script(remote_path: &str) -> (script: String)
    ensures
        script@ == probe_script(remote_path@),
{
    let mut script = "p=".to_owned();
    script.append(shell_quote(remote_path).as_str());
    script.append(
        "\ncase \"$p\" in\n  '~') p=$HOME ;;\n  '~/'*) p=$HOME/${p#??} ;;\nesac\nif cd -- \"$p\" 2>/dev/null; then\n  printf 'path %s\\n' \"$(pwd)\"\n  if [ -e .git ]; then\n    echo 'kind repo'\n    b=$(git rev-parse --abbrev-ref HEAD 2>/dev/null) && [ \"$b\" != HEAD ] && printf 'branch %s\\n' \"$b\"\n  else\n    echo 'kind folder'\n  fi\nelse\n  echo missing\nfi\nexit 0\n",
    );
    script
}

/// How long a probe may take, in seconds. It bounds a host that accepts the
/// connection and then goes silent.
pub const REMOTE_PROBE_TIMEOUT_SECS: u64 = 12;

/// How long a probe may take to connect, in seconds.
pub const REMOTE_PROBE_CONNECT_TIMEOUT_SECS: u64 = 8;

/// How long the interactive shell is waited for to tell its `PATH`, in seconds.
pub const REMOTE_PROBE_PATH_TIMEOUT_SECS: u64 = 5;

/// How a probe is run, as mathematical values.
pub struct ProbeCommandView {
    pub program: Seq<char>,
    pub args: Seq<Seq<char>>,
    pub stdin: Seq<char>,
    pub path_env: Option<Seq<char>>,
}

/// How a probe is run: a program, its arguments, what it reads on its standard
/// input, and its `PATH` where that is not the inherited one.
#[derive(Debug, PartialEq, Eq)]
pub struct ProbeCommand {
    pub program: &'static str,
    pub args: Vec<String>,
    pub stdin: String,
    pub path_env: Option<String>,
}

impl View for ProbeCommand {
    type V = ProbeCommandView;

    open spec fn view(&self) -> ProbeCommandView {
        ProbeCommandView {
            program: self.program@,
            args: text::texts(self.args@),
            stdin: self.stdin@,
            path_env: text::text_view(self.path_env),
        }
    }
}

/// The command that probes `target`. The arguments and the input are told apart
/// so that no shell of this machine reads either.
pub fn remote_probe_command(
    target: &RemoteTarget,
    shell_path_env: Option<String>,
    process_path_env: Option<String>,
    unix: bool,
) -> (command: ProbeCommand)
    ensures
        command@ == (ProbeCommandView {
            program: "ssh"@,
            args: probe_args(target@, REMOTE_PROBE_CONNECT_TIMEOUT_SECS),
            stdin: probe_script(target@.remote_path),
            path_env: path_env(
                text::text_view(shell_path_env),
                text::text_view(process_path_env),
                unix,
            ),
        }),
{
    ProbeCommand {
        program: "ssh",
        args: remote_probe_args(target, REMOTE_PROBE_CONNECT_TIMEOUT_SECS),
        stdin: remote_probe_script(target.remote_path.as_str()),
        path_env: probe_path_env(shell_path_env, process_path_env, unix),
    }
}

/// `ssh` with its options, up to the port.
pub open spec fn ssh_options(target: entry::RemoteTargetView) -> Seq<char> {
    "ssh "@ + (if target.identity.len() == 0 {
        Seq::empty()
    } else {
        "-i "@ + entry::quoted(target.identity) + " "@
    }) + "-p "@ + text::decimal(target.port as nat)
}

/// The options, as a string to go on from.
fn ssh_prefix(target: &RemoteTarget) -> (line: String)
    ensures
        line@ == ssh_options(target@),
{
    let mut line = "ssh ".to_owned();
    if !target.identity.as_str().is_empty() {
        line.append("-i ");
        line.append(shell_quote(target.identity.as_str()).as_str());
        line.append(" ");
    }
    line.append("-p ");
    line.append(decimal_string(target.port as u64).as_str());
    assert(line@ =~= ssh_options(target@));
    line
}

/// The `ssh` line that connects.
pub open spec fn ssh_line(target: entry::RemoteTargetView) -> Seq<char> {
    ssh_options(target) + " -- "@ + entry::quoted(target.user_host())
}

/// The `cd` line that lands in a path.
pub open spec fn cd_line(remote_path: Seq<char>) -> Seq<char> {
    "cd "@ + entry::quoted(remote_path)
}

/// The `ssh` line that connects and lands in the path by itself.
pub open spec fn landing_line(target: entry::RemoteTargetView) -> Seq<char> {
    ssh_options(target) + " -t -- "@ + entry::quoted(target.user_host()) + " "@ + entry::quoted(
        landing_command(target.remote_path),
    )
}

/// The `ssh` line a tab types to connect. It holds a single positional
/// argument, the destination, quoted and behind the `--` fence.
pub fn remote_ssh_command(target: &RemoteTarget) -> (line: String)
    ensures
        line@ == ssh_line(target@),
{
    let mut line = ssh_prefix(target);
    line.append(" -- ");
    line.append(shell_quote(target.user_host().as_str()).as_str());
    line
}

/// The command that lands a connected shell in the entry's path.
pub fn remote_cd_command(remote_path: &str) -> (line: String)
    ensures
        line@ == cd_line(remote_path@),
{
    let mut line = "cd ".to_owned();
    line.append(shell_quote(remote_path).as_str());
    line
}

/// The remote command that changes directory and then becomes a login shell.
pub open spec fn landing_command(remote_path: Seq<char>) -> Seq<char> {
    "cd "@ + entry::quoted(remote_path) + "; exec \"${SHELL:-/bin/sh}\" -l"@
}

/// The `ssh` line for a tab that nothing will tell when its shell is up: the
/// path travels on the command line, quoted once for each of the two shells that
/// read it.
pub fn remote_ssh_command_landing_in_path(target: &RemoteTarget) -> (line: String)
    ensures
        line@ == landing_line(target@),
{
    let mut line = ssh_prefix(target);
    line.append(" -t -- ");
    line.append(shell_quote(target.user_host().as_str()).as_str());
    line.append(" ");
    let mut remote = remote_cd_command(target.remote_path.as_str());
    remote.append("; exec \"${SHELL:-/bin/sh}\" -l");
    assert(remote@ =~= landing_command(target@.remote_path));
    line.append(shell_quote(remote.as_str()).as_str());
    line
}

/// Whatever the path holds, the local shell hands `ssh` the whole landing
/// command as one word, and the remote shell hands `cd` the path as one word.
pub proof fn landing_path_survives_both_shells(remote_path: Seq<char>)
    ensures
        entry::shell_word(entry::quoted(landing_command(remote_path)), false) == landing_command(
            remote_path,
        ),
        entry::shell_word(landing_command(remote_path).skip(3), false) == remote_path,
{
    reveal_strlit("cd ");
    reveal_strlit("; exec \"${SHELL:-/bin/sh}\" -l");
    let command = landing_command(remote_path);
    let tail = "; exec \"${SHELL:-/bin/sh}\" -l"@;
    entry::shell_quote_is_one_word(command, Seq::empty());
    assert(entry::quoted(command) + Seq::<char>::empty() =~= entry::quoted(command));
    assert(tail[0] == ';');
    entry::shell_quote_is_one_word(remote_path, tail);
    assert(command.skip(3) =~= entry::quoted(remote_path) + tail);
}

/// Whatever the user and the host hold, the shell reads the destination of the
/// `ssh` line as the one word `user@host`.
pub proof fn destination_is_one_word(target: entry::RemoteTargetView)
    ensures
        entry::shell_word(entry::quoted(target.user_host()), false) == target.user_host(),
{
    let word = entry::quoted(target.user_host());
    entry::shell_quote_is_one_word(target.user_host(), Seq::empty());
    assert(word + Seq::<char>::empty() =~= word);
}

/// What the probe script prints about a directory is read back as it was
/// printed, whatever the path and the branch hold.
pub proof fn probe_answers_are_read_back(path: Seq<char>, branch: Seq<char>)
    ensures
        read_outcome(seq!["path "@ + path, "kind repo"@, "branch "@ + branch]) == Some(
            ProbeOutcomeView::Found {
                remote_path: path,
                kind: RepoEntryKind::Repo,
                branch: Some(branch),
            },
        ),
        read_outcome(seq!["path "@ + path, "kind repo"@]) == Some(
            ProbeOutcomeView::Found {
                remote_path: path,
                kind: RepoEntryKind::Repo,
                branch: None,
            },
        ),
        read_outcome(seq!["path "@ + path, "kind folder"@]) == Some(
            ProbeOutcomeView::Found {
                remote_path: path,
                kind: RepoEntryKind::Folder,
                branch: None,
            },
        ),
        read_outcome(seq!["missing"@]) == Some(ProbeOutcomeView::Missing),
{
    let all = seq!["path "@ + path, "kind repo"@, "branch "@ + branch];
    lemma_answer_words(path, branch);
    probe_reads_the_last_of_each(all, 0, 1);
    branch_is_read_last(all, 2);
    assert(all[0].skip(5) =~= path);
    assert(all[2].skip(7) =~= branch);
    let repo = seq!["path "@ + path, "kind repo"@];
    probe_reads_the_last_of_each(repo, 0, 1);
    branch_is_read_last(repo, -1);
    assert(repo[0].skip(5) =~= path);
    let folder = seq!["path "@ + path, "kind folder"@];
    probe_reads_the_last_of_each(folder, 0, 1);
    branch_is_read_last(folder, -1);
    assert(folder[0].skip(5) =~= path);
    assert(seq!["missing"@][0] == "missing"@);
}

/// The words of the answers are told apart.
proof fn lemma_answer_words(path: Seq<char>, branch: Seq<char>)
    ensures
        "path "@.len() == 5,
        "branch "@.len() == 7,
        "path "@.is_prefix_of("path "@ + path),
        "branch "@.is_prefix_of("branch "@ + branch),
        !"path "@.is_prefix_of("branch "@ + branch),
        !"branch "@.is_prefix_of("path "@ + path),
        !"path "@.is_prefix_of("kind repo"@),
        !"path "@.is_prefix_of("kind folder"@),
        !"branch "@.is_prefix_of("kind repo"@),
        !"branch "@.is_prefix_of("kind folder"@),
        "kind repo"@ != "kind folder"@,
        "path "@ + path != "kind repo"@,
        "path "@ + path != "kind folder"@,
        "branch "@ + branch != "kind repo"@,
        "branch "@ + branch != "kind folder"@,
        "path "@ + path != "missing"@,
        "branch "@ + branch != "missing"@,
        "kind repo"@ != "missing"@,
        "kind folder"@ != "missing"@,
{
    reveal_strlit("path ");
    reveal_strlit("branch ");
    reveal_strlit("kind repo");
    reveal_strlit("kind folder");
    reveal_strlit("missing");
    assert(("path "@ + path)[0] == 'p');
    assert(("branch "@ + branch)[0] == 'b');
    assert("path "@[0] == 'p');
    assert("branch "@[0] == 'b');
    assert("kind repo"@[0] == 'k');
    assert("kind folder"@[0] == 'k');
    assert("missing"@[0] == 'm');
    assert("kind repo"@.len() != "kind folder"@.len());
}

/// A directory is found when its path and its kind are told, and then the last
/// line that tells each counts, whatever lines stand around them.
pub proof fn probe_reads_the_last_of_each(all: Seq<Seq<char>>, i: int, j: int)
    requires
        forall|k: int| 0 <= k < all.len() ==> #[trigger] all[k] != "missing"@,
        0 <= i < all.len(),
        "path "@.is_prefix_of(all[i]),
        forall|k: int| i < k < all.len() ==> !"path "@.is_prefix_of(#[trigger] all[k]),
        0 <= j < all.len(),
        all[j] == "kind repo"@ || all[j] == "kind folder"@,
        forall|k: int|
            j < k < all.len() ==> #[trigger] all[k] != "kind repo"@ && all[k] != "kind folder"@,
    ensures
        read_outcome(all) matches Some(ProbeOutcomeView::Found { remote_path, kind, .. })
            && remote_path == all[i].skip(5) && (kind is Repo <==> all[j] == "kind repo"@),
{
    reveal_strlit("path ");
    lemma_last_value(all, "path "@, i);
    lemma_last_kind(all, j);
    reveal_strlit("kind repo");
    reveal_strlit("kind folder");
    assert("kind repo"@.len() != "kind folder"@.len());
}

/// The last line that tells a branch counts; where none does (`i` is then below
/// the first line), there is no branch.
pub proof fn branch_is_read_last(all: Seq<Seq<char>>, i: int)
    requires
        -1 <= i < all.len(),
        i >= 0 ==> "branch "@.is_prefix_of(all[i]),
        forall|k: int| i < k < all.len() ==> !"branch "@.is_prefix_of(#[trigger] all[k]),
    ensures
        read_outcome(all) matches Some(ProbeOutcomeView::Found { branch, .. }) ==> branch == (if i
            >= 0 {
            Some(all[i].skip(7))
        } else {
            None
        }),
{
    reveal_strlit("branch ");
    lemma_last_value(all, "branch "@, i);
}

/// A path is missing when a line says so, whatever else was printed. Without
/// such a line, and without either a path or a kind, nothing can be read.
pub proof fn probe_needs_a_path_and_a_kind(all: Seq<Seq<char>>)
    ensures
        all.contains("missing"@) <==> read_outcome(all) == Some(ProbeOutcomeView::Missing),
        read_outcome(all) is None <==> !all.contains("missing"@) && ((forall|k: int|
            0 <= k < all.len() ==> !"path "@.is_prefix_of(#[trigger] all[k])) || (forall|k: int|
            0 <= k < all.len() ==> #[trigger] all[k] != "kind repo"@ && all[k] != "kind folder"@)),
{
    if forall|k: int| 0 <= k < all.len() ==> !"path "@.is_prefix_of(#[trigger] all[k]) {
        lemma_last_value(all, "path "@, -1);
    } else {
        lemma_value_found(all, "path "@);
    }
    if forall|k: int|
        0 <= k < all.len() ==> #[trigger] all[k] != "kind repo"@ && all[k] != "kind folder"@ {
        lemma_last_kind(all, -1);
    } else {
        lemma_kind_found(all);
    }
}

proof fn lemma_last_value(all: Seq<Seq<char>>, prefix: Seq<char>, i: int)
    requires
        -1 <= i < all.len(),
        i >= 0 ==> prefix.is_prefix_of(all[i]),
        forall|k: int| i < k < all.len() ==> !prefix.is_prefix_of(#[trigger] all[k]),
    ensures
        last_value(all, prefix) == (if i >= 0 {
            Some(all[i].skip(prefix.len() as int))
        } else {
            None
        }),
    decreases all.len(),
{
    if all.len() > 0 && i < all.len() - 1 {
        assert(!prefix.is_prefix_of(all[all.len() - 1]));
        lemma_last_value(all.drop_last(), prefix, i);
    }
}

proof fn lemma_value_found(all: Seq<Seq<char>>, prefix: Seq<char>)
    requires
        exists|k: int| 0 <= k < all.len() && prefix.is_prefix_of(#[trigger] all[k]),
    ensures
        last_value(all, prefix) is Some,
    decreases all.len(),
{
    if !prefix.is_prefix_of(all.last()) {
        let k = choose|k: int| 0 <= k < all.len() && prefix.is_prefix_of(#[trigger] all[k]);
        assert(all.drop_last()[k] == all[k]);
        lemma_value_found(all.drop_last(), prefix);
    }
}

proof fn lemma_last_kind(all: Seq<Seq<char>>, i: int)
    requires
        -1 <= i < all.len(),
        i >= 0 ==> all[i] == "kind repo"@ || all[i] == "kind folder"@,
        forall|k: int|
            i < k < all.len() ==> #[trigger] all[k] != "kind repo"@ && all[k] != "kind folder"@,
    ensures
        last_kind(all) == (if i < 0 {
            None
        } else if all[i] == "kind repo"@ {
            Some(RepoEntryKind::Repo)
        } else {
            Some(RepoEntryKind::Folder)
        }),
    decreases all.len(),
{
    if all.len() > 0 && i < all.len() - 1 {
        assert(all[all.len() - 1] != "kind repo"@);
        lemma_last_kind(all.drop_last(), i);
    }
}

proof fn lemma_kind_found(all: Seq<Seq<char>>)
    requires
        exists|k: int|
            0 <= k < all.len() && (#[trigger] all[k] == "kind repo"@ || all[k] == "kind folder"@),
    ensures
        last_kind(all) is Some,
    decreases all.len(),
{
    if all.last() != "kind repo"@ && all.last() != "kind folder"@ {
        let k = choose|k: int|
            0 <= k < all.len() && (#[trigger] all[k] == "kind repo"@ || all[k] == "kind folder"@);
        assert(all.drop_last()[k] == all[k]);
        lemma_kind_found(all.drop_last());
    }
}

/// A text whose first line is `line` reads as that line and then the lines of
/// the rest.
pub proof fn lines_are_read_one_by_one(line: Seq<char>, rest: Seq<char>)
    requires
        !line.contains('\n'),
        line.len() > 0 ==> line.last() != '\r',
    ensures
        lines(line + seq!['\n'] + rest) == seq![line] + lines(rest),
        lines(line + seq!['\r', '\n'] + rest) == seq![line] + lines(rest),
        line.len() > 0 ==> lines(line) == seq![line],
        lines(Seq::empty()) == Seq::<Seq<char>>::empty(),
{
    let plain = line + seq!['\n'] + rest;
    let end = text::first_pos(plain, 0, '\n');
    text::lemma_first_pos(plain, 0, '\n');
    assert(plain[line.len() as int] == '\n');
    assert(end == line.len()) by {
        if end < line.len() {
            assert(line[end] == '\n');
        }
    }
    if end > 0 {
        assert(plain[end - 1] == line.last());
    }
    assert(plain.take(end) =~= line);
    assert(plain.skip(end + 1) =~= rest);
    let carried = line + seq!['\r', '\n'] + rest;
    let last = text::first_pos(carried, 0, '\n');
    text::lemma_first_pos(carried, 0, '\n');
    assert(carried[line.len() as int + 1] == '\n');
    assert(carried[line.len() as int] == '\r');
    assert(last == line.len() + 1) by {
        if last < line.len() {
            assert(line[last] == '\n');
        }
    }
    assert(carried.take(last - 1) =~= line);
    assert(carried.skip(last + 1) =~= rest);
    text::lemma_first_pos(line, 0, '\n');
    if text::first_pos(line, 0, '\n') < line.len() {
        assert(line[text::first_pos(line, 0, '\n')] == '\n');
    }
}

/// The whole text that the probe script prints for a repository on a branch is
/// read back: the path, the kind and the branch.
pub proof fn probe_output_is_read_back(path: Seq<char>, branch: Seq<char>)
    requires
        !path.contains('\n'),
        path.len() > 0 ==> path.last() != '\r',
        !branch.contains('\n'),
        branch.len() > 0 ==> branch.last() != '\r',
    ensures
        read_outcome(
            lines(
                "path "@ + path + seq!['\n'] + ("kind repo"@ + seq!['\n'] + ("branch "@ + branch
                    + seq!['\n'] + Seq::empty())),
            ),
        ) == Some(
            ProbeOutcomeView::Found {
                remote_path: path,
                kind: RepoEntryKind::Repo,
                branch: Some(branch),
            },
        ),
        read_outcome(
            lines("path "@ + path + seq!['\n'] + ("kind folder"@ + seq!['\n'] + Seq::empty())),
        ) == Some(
            ProbeOutcomeView::Found {
                remote_path: path,
                kind: RepoEntryKind::Folder,
                branch: None,
            },
        ),
        read_outcome(lines("missing"@ + seq!['\n'] + Seq::empty())) == Some(
            ProbeOutcomeView::Missing,
        ),
{
    lemma_repository_text(path, branch);
    lemma_folder_text(path);
    probe_answers_are_read_back(path, branch);
}

proof fn lemma_one_line(front: Seq<char>, tail: Seq<char>)
    requires
        front.len() > 0,
        !front.contains('\n'),
        front.last() != '\r',
        !tail.contains('\n'),
        tail.len() > 0 ==> tail.last() != '\r',
    ensures
        !(front + tail).contains('\n'),
        (front + tail).last() != '\r',
{
    let line = front + tail;
    if line.contains('\n') {
        let i = choose|i: int| 0 <= i < line.len() && line[i] == '\n';
        if i < front.len() {
            assert(front[i] == '\n');
        } else {
            assert(tail[i - front.len()] == '\n');
        }
    }
}

proof fn lemma_answer_lines()
    ensures
        "path "@.len() > 0 && !"path "@.contains('\n') && "path "@.last() != '\r',
        "branch "@.len() > 0 && !"branch "@.contains('\n') && "branch "@.last() != '\r',
        !"kind repo"@.contains('\n') && "kind repo"@.last() != '\r',
        !"kind folder"@.contains('\n') && "kind folder"@.last() != '\r',
        !"missing"@.contains('\n') && "missing"@.last() != '\r',
{
    reveal_strlit("path ");
    reveal_strlit("branch ");
    reveal_strlit("kind repo");
    reveal_strlit("kind folder");
    reveal_strlit("missing");
}

#[verifier::spinoff_prover]
proof fn lemma_repository_text(path: Seq<char>, branch: Seq<char>)
    requires
        !path.contains('\n'),
        path.len() > 0 ==> path.last() != '\r',
        !branch.contains('\n'),
        branch.len() > 0 ==> branch.last() != '\r',
    ensures
        lines(
            "path "@ + path + seq!['\n'] + ("kind repo"@ + seq!['\n'] + ("branch "@ + branch
                + seq!['\n'] + Seq::empty())),
        ) == seq!["path "@ + path, "kind repo"@, "branch "@ + branch],
{
    let none = Seq::<char>::empty();
    let first = "path "@ + path;
    let last = "branch "@ + branch;
    lemma_answer_lines();
    lemma_one_line("path "@, path);
    lemma_one_line("branch "@, branch);
    let tail = last + seq!['\n'] + none;
    let middle = "kind repo"@ + seq!['\n'] + tail;
    lines_are_read_one_by_one(last, none);
    lines_are_read_one_by_one("kind repo"@, tail);
    lines_are_read_one_by_one(first, middle);
    assert(lines(tail) =~= seq![last]);
    assert(lines(middle) =~= seq!["kind repo"@, last]);
    assert(lines(first + seq!['\n'] + middle) =~= seq![first, "kind repo"@, last]);
}

#[verifier::spinoff_prover]
proof fn lemma_folder_text(path: Seq<char>)
    requires
        !path.contains('\n'),
        path.len() > 0 ==> path.last() != '\r',
    ensures
        lines("path "@ + path + seq!['\n'] + ("kind folder"@ + seq!['\n'] + Seq::empty())) == seq![
            "path "@ + path,
            "kind folder"@,
        ],
        lines("missing"@ + seq!['\n'] + Seq::empty()) == seq!["missing"@],
{
    let none = Seq::<char>::empty();
    let first = "path "@ + path;
    lemma_answer_lines();
    lemma_one_line("path "@, path);
    let folder = "kind folder"@ + seq!['\n'] + none;
    lines_are_read_one_by_one("kind folder"@, none);
    lines_are_read_one_by_one(first, folder);
    lines_are_read_one_by_one("missing"@, none);
    assert(lines(folder) =~= seq!["kind folder"@]);
    assert(lines(first + seq!['\n'] + folder) =~= seq![first, "kind folder"@]);
    assert(lines("missing"@ + seq!['\n'] + none) =~= seq!["missing"@]);
}

/// What a failed run means follows from what ssh said, in whatever case: that
/// the host key has changed, or else that the host has to be met by hand first,
/// or else nothing that is known.
pub proof fn failures_go_by_what_ssh_said(a: Seq<char>, said: Seq<char>, b: Seq<char>)
    ensures
        text::lowered(said) == "remote host identification has changed"@ ==> failure_class(
            a + said + b,
        ) == RemoteProbeFailure::HostKeyChanged,
        text::lowered(said) == "host key verification failed"@ || text::lowered(said)
            == "permission denied"@ || text::lowered(said) == "enter passphrase"@ || text::lowered(
            said,
        ) == "authenticity of host"@ ==> failure_class(a + said + b)
            == RemoteProbeFailure::NeedsFirstHandConnect || failure_class(a + said + b)
            == RemoteProbeFailure::HostKeyChanged,
        ({
            let whole = text::lowered(a + said + b);
            let phrase = "remote host identification has changed"@;
            failure_class(a + said + b) == RemoteProbeFailure::HostKeyChanged <==> exists|at: int|
                0 <= at <= whole.len() - phrase.len() && #[trigger] whole.subrange(
                    at,
                    at + phrase.len(),
                ) == phrase
        }),
{
    let whole = text::lowered(a + said + b);
    text::lower_case_goes_by_character(a + said, b);
    text::lower_case_goes_by_character(a, said);
    let part = text::lowered(said);
    assert(whole.subrange(a.len() as int, a.len() as int + part.len()) =~= part);
    assert(text::holds_run(whole, part));
}

/// Without any of the phrases that ssh has for it, a failure is that the host
/// could not be reached.
pub proof fn other_failures_are_unreachable(stderr: Seq<char>)
    requires
        !text::holds_run(text::lowered(stderr), "remote host identification has changed"@),
        !text::holds_run(text::lowered(stderr), "host key verification failed"@),
        !text::holds_run(text::lowered(stderr), "permission denied"@),
        !text::holds_run(text::lowered(stderr), "enter passphrase"@),
        !text::holds_run(text::lowered(stderr), "authenticity of host"@),
    ensures
        failure_class(stderr) == RemoteProbeFailure::Unreachable,
{
}

/// A run that ended well is answered by what it printed, one that ended badly by
/// what ssh said, and one that never came to an end by what kept it from it.
pub proof fn runs_are_answered(stdout: String, stderr: String)
    ensures
        run_answer(ProbeRun::SpawnFailed) == Err::<ProbeOutcomeView, RemoteProbeFailure>(
            RemoteProbeFailure::SshUnavailable,
        ),
        run_answer(ProbeRun::TimedOut) == Err::<ProbeOutcomeView, RemoteProbeFailure>(
            RemoteProbeFailure::Unreachable,
        ),
        run_answer(ProbeRun::Interrupted) == Err::<ProbeOutcomeView, RemoteProbeFailure>(
            RemoteProbeFailure::Unreachable,
        ),
        run_answer((ProbeRun::Exited { success: false, stdout, stderr })) == Err::<
            ProbeOutcomeView,
            RemoteProbeFailure,
        >(failure_class(stderr@)),
        read_outcome(lines(stdout@)) is Some ==> run_answer(
            (ProbeRun::Exited { success: true, stdout, stderr }),
        ) == Ok::<ProbeOutcomeView, RemoteProbeFailure>(read_outcome(lines(stdout@))->0),
        read_outcome(lines(stdout@)) is None ==> run_answer(
            (ProbeRun::Exited { success: true, stdout, stderr }),
        ) == Err::<ProbeOutcomeView, RemoteProbeFailure>(RemoteProbeFailure::Unreachable),
{
}

/// ssh is called without prompting and with a limit on connecting, with the
/// identity only where there is one, and with the destination behind the end of
/// the options, so that it is never read as one.
pub proof fn probes_call_ssh(target: entry::RemoteTargetView, timeout_secs: u64)
    ensures
        ({
            let args = probe_args(target, timeout_secs);
            let extra: int = if target.identity.len() == 0 {
                0
            } else {
                2
            };
            &&& args.len() == 9 + extra
            &&& args[0] == "-o"@ && args[1] == "BatchMode=yes"@
            &&& args[2] == "-o"@ && args[3] == "ConnectTimeout="@ + text::decimal(
                timeout_secs as nat,
            )
            &&& target.identity.len() > 0 ==> args[4] == "-i"@ && args[5] == target.identity
            &&& args[4 + extra] == "-p"@ && args[5 + extra] == text::decimal(target.port as nat)
            &&& args[6 + extra] == "--"@
            &&& args[7 + extra] == target.user + seq!['@'] + target.server
            &&& args[8 + extra] == "sh -s"@
        }),
{
}

/// The search path for ssh is the shell's, where it is known and not blank; on
/// Unix a blank one of the process is filled in; and otherwise it is left alone.
pub proof fn search_path_is_the_shells(
    shell: Option<Seq<char>>,
    process: Option<Seq<char>>,
    unix: bool,
)
    ensures
        shell is Some && shell->0.len() > 0 ==> path_env(shell, process, unix) == shell,
        !(shell is Some && shell->0.len() > 0) ==> path_env(shell, process, unix) == (if unix
            && process is Some && process->0.len() == 0 {
            Some("/usr/bin:/bin:/usr/sbin:/sbin"@)
        } else {
            None
        }),
{
}

/// The shell that the terminal runs is told the port, the identity where there
/// is one, and the destination as one word behind the end of the options.
pub proof fn terminal_calls_ssh(target: entry::RemoteTargetView)
    ensures
        target.identity.len() == 0 ==> ssh_line(target) == "ssh -p "@ + text::decimal(
            target.port as nat,
        ) + " -- "@ + entry::quoted(target.user + seq!['@'] + target.server),
        target.identity.len() > 0 ==> ssh_line(target) == "ssh -i "@ + entry::quoted(
            target.identity,
        ) + " -p "@ + text::decimal(target.port as nat) + " -- "@ + entry::quoted(
            target.user + seq!['@'] + target.server,
        ),
        cd_line(target.remote_path) == "cd "@ + entry::quoted(target.remote_path),
{
    reveal_strlit("ssh ");
    reveal_strlit("-p ");
    reveal_strlit("-i ");
    reveal_strlit(" ");
    reveal_strlit("ssh -p ");
    reveal_strlit("ssh -i ");
    reveal_strlit(" -p ");
    let port = text::decimal(target.port as nat);
    if target.identity.len() == 0 {
        assert(ssh_options(target) =~= "ssh -p "@ + port);
    } else {
        assert(ssh_options(target) =~= "ssh -i "@ + entry::quoted(target.identity) + " -p "@ + port);
    }
}

/// A terminal that lands in the path asks ssh for a terminal on the host and
/// gives it, as one word, the command that goes there and starts the login shell.
pub proof fn landing_asks_for_a_terminal(target: entry::RemoteTargetView)
    ensures
        ({
            let place = entry::quoted(target.user + seq!['@'] + target.server);
            let command = "cd "@ + entry::quoted(target.remote_path)
                + "; exec \"${SHELL:-/bin/sh}\" -l"@;
            let port = text::decimal(target.port as nat);
            &&& target.identity.len() == 0 ==> landing_line(target) == "ssh -p "@ + port
                + " -t -- "@ + place + " "@ + entry::quoted(command)
            &&& target.identity.len() > 0 ==> landing_line(target) == "ssh -i "@ + entry::quoted(
                target.identity,
            ) + " -p "@ + port + " -t -- "@ + place + " "@ + entry::quoted(command)
        }),
{
    reveal_strlit("ssh ");
    reveal_strlit("-p ");
    reveal_strlit("-i ");
    reveal_strlit(" ");
    reveal_strlit("ssh -p ");
    reveal_strlit("ssh -i ");
    reveal_strlit(" -p ");
    let port = text::decimal(target.port as nat);
    if target.identity.len() == 0 {
        assert(ssh_options(target) =~= "ssh -p "@ + port);
    } else {
        assert(ssh_options(target) =~= "ssh -i "@ + entry::quoted(target.identity) + " -p "@ + port);
    }
}

} // verus!
