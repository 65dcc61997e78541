//! The "Remote Repository or Folder…" connection form: what its five fields
//! accept, and the life of one attempt to connect.
//!
//! The form collects and validates; whoever shows it looks at the filesystem
//! and runs the probe, and reports back what came of it.
use vstd::prelude::*;
use crate::entry;
use crate::entry::{read_port, DEFAULT_SSH_PORT};
use crate::text;
use crate::text::{chars_of, contains_char, join_path, same_text, string_of, trim};

verus! {

broadcast use vstd::string::group_string_axioms;

/// Shown under a field that begins like a command-line option.
pub const OPTION_LEADING_DASH_ERROR: &'static str = "Cannot start with '-'";

/// Shown under a port that is no port.
pub const PORT_ERROR: &'static str = "Port must be a number between 1 and 65535";

/// Shown under an identity that names no file on this machine.
pub const IDENTITY_MISSING_ERROR: &'static str = "No key file at that path";

/// Shown under a server with a character that no host name has.
pub const SERVER_CHARSET_ERROR: &'static str = "Only letters, digits, and . - _ : % [ ]";

/// Shown under a user with a character that no user name has.
pub const USER_CHARSET_ERROR: &'static str = "Only letters, digits, and . - _ \\ $";

/// The ASCII letters and digits.
pub open spec fn is_alphanumeric(ch: char) -> bool {
    ('a' <= ch <= 'z') || ('A' <= ch <= 'Z') || ('0' <= ch <= '9')
}

/// The characters of DNS names, IPv4 literals, and IPv6 literals with an
/// optional zone.
pub open spec fn server_char(ch: char) -> bool {
    is_alphanumeric(ch) || ch == '.' || ch == '-' || ch == '_' || ch == ':' || ch == '%'
}

/// The characters of user names: the usual ones, the backslash of
/// `DOMAIN\user` and the dollar sign of a machine account.
pub open spec fn user_char(ch: char) -> bool {
    is_alphanumeric(ch) || ch == '.' || ch == '-' || ch == '_' || ch == '\\' || ch == '$'
}

fn ascii_alphanumeric(ch: char) -> (found: bool)
    ensures
        found == is_alphanumeric(ch),
{
    ('a' <= ch && ch <= 'z') || ('A' <= ch && ch <= 'Z') || ('0' <= ch && ch <= '9')
}

/// Whether a server field may hold the character. Brackets are not among them:
/// [`normalize_server`] has already taken off the one pair that means something.
pub fn is_server_char(ch: char) -> (accepted: bool)
    ensures
        accepted == server_char(ch),
{
    ascii_alphanumeric(ch) || ch == '.' || ch == '-' || ch == '_' || ch == ':' || ch == '%'
}

/// Whether a user field may hold the character.
pub fn is_user_char(ch: char) -> (accepted: bool)
    ensures
        accepted == user_char(ch),
{
    ascii_alphanumeric(ch) || ch == '.' || ch == '-' || ch == '_' || ch == '\\' || ch == '$'
}

/// Every character is one a server field may hold.
pub open spec fn server_text(value: Seq<char>) -> bool {
    forall|i: int| 0 <= i < value.len() ==> server_char(#[trigger] value[i])
}

/// Every character is one a user field may hold.
pub open spec fn user_text(value: Seq<char>) -> bool {
    forall|i: int| 0 <= i < value.len() ==> user_char(#[trigger] value[i])
}

/// The fields of the form, as mathematical values.
pub struct FormView {
    pub server: Seq<char>,
    pub port: Seq<char>,
    pub user: Seq<char>,
    pub identity: Seq<char>,
    pub path: Seq<char>,
}

/// The five fields as typed, before any interpretation.
#[derive(Debug, PartialEq, Eq)]
pub struct RemoteConnectionForm {
    pub server: String,
    pub port: String,
    pub user: String,
    pub identity: String,
    pub path: String,
}

impl View for RemoteConnectionForm {
    type V = FormView;

    open spec fn view(&self) -> FormView {
        FormView {
            server: self.server@,
            port: self.port@,
            user: self.user@,
            identity: self.identity@,
            path: self.path@,
        }
    }
}

impl Clone for RemoteConnectionForm {
    fn clone(&self) -> (copy: Self)
        ensures
            copy == *self,
    {
        RemoteConnectionForm {
            server: self.server.clone(),
            port: self.port.clone(),
            user: self.user.clone(),
            identity: self.identity.clone(),
            path: self.path.clone(),
        }
    }
}

/// A form with nothing typed into it.
pub open spec fn blank_form() -> FormView {
    FormView {
        server: Seq::empty(),
        port: Seq::empty(),
        user: Seq::empty(),
        identity: Seq::empty(),
        path: Seq::empty(),
    }
}

impl Default for RemoteConnectionForm {
    fn default() -> (form: Self)
        ensures
            form@ == blank_form(),
    {
        RemoteConnectionForm {
            server: String::new(),
            port: String::new(),
            user: String::new(),
            identity: String::new(),
            path: String::new(),
        }
    }
}

/// An error as a mathematical value.
pub open spec fn error_view(error: Option<&'static str>) -> Option<Seq<char>> {
    match error {
        Some(found) => Some(found@),
        None => None,
    }
}

/// What is wrong with a form, as mathematical values.
pub struct ValidationView {
    pub server_error: Option<Seq<char>>,
    pub port_error: Option<Seq<char>>,
    pub user_error: Option<Seq<char>>,
    pub identity_error: Option<Seq<char>>,
    pub path_error: Option<Seq<char>>,
    pub port_number: u16,
    pub complete: bool,
}

/// What is wrong with a form, field by field.
#[derive(Clone, Copy, Debug, PartialEq, Eq)]
pub struct RemoteConnectionValidation {
    pub server_error: Option<&'static str>,
    pub port_error: Option<&'static str>,
    pub user_error: Option<&'static str>,
    pub identity_error: Option<&'static str>,
    pub path_error: Option<&'static str>,
    /// The port to connect on; 22 when the field is blank.
    pub port_number: u16,
    /// Every required field has content. Kept apart from the errors, so that an
    /// untouched form cannot be submitted and still complains about nothing.
    pub complete: bool,
}

impl View for RemoteConnectionValidation {
    type V = ValidationView;

    open spec fn view(&self) -> ValidationView {
        ValidationView {
            server_error: error_view(self.server_error),
            port_error: error_view(self.port_error),
            user_error: error_view(self.user_error),
            identity_error: error_view(self.identity_error),
            path_error: error_view(self.path_error),
            port_number: self.port_number,
            complete: self.complete,
        }
    }
}

impl ValidationView {
    /// Complete, and nothing wrong with any field.
    pub open spec fn can_submit(self) -> bool {
        &&& self.complete
        &&& self.server_error is None
        &&& self.port_error is None
        &&& self.user_error is None
        &&& self.identity_error is None
        &&& self.path_error is None
    }
}

impl RemoteConnectionValidation {
    /// Whether the form can be submitted.
    pub fn can_submit(&self) -> (ready: bool)
        ensures
            ready == self@.can_submit(),
    {
        self.complete && self.server_error.is_none() && self.port_error.is_none()
            && self.user_error.is_none() && self.identity_error.is_none()
            && self.path_error.is_none()
    }
}

/// `value` without the slashes it begins with.
pub open spec fn without_leading_slashes(value: Seq<char>) -> Seq<char>
    decreases value.len(),
{
    if value.len() > 0 && value[0] == '/' {
        without_leading_slashes(value.skip(1))
    } else {
        value
    }
}

/// Where an identity points on this machine: a leading tilde stands for the home
/// directory, when there is one. Paths are slash-separated.
pub open spec fn local_identity(identity: Seq<char>, home: Option<Seq<char>>) -> Seq<char> {
    let typed = text::trimmed(identity);
    match home {
        Some(base) if typed.len() > 0 && typed[0] == '~' => text::inside(
            base,
            without_leading_slashes(typed.skip(1)),
        ),
        _ => typed,
    }
}

/// A borrowed optional text as a mathematical value.
pub open spec fn str_view(value: Option<&str>) -> Option<Seq<char>> {
    match value {
        Some(found) => Some(found@),
        None => None,
    }
}

/// Expand a leading `~` in a *local* identity path. The identity is a private
/// key on this machine, so its tilde is resolved here; the tilde of the remote
/// path is resolved by the host.
pub fn expand_local_identity_path(identity: &str, home: Option<&str>) -> (path: String)
    ensures
        path@ == local_identity(identity@, str_view(home)),
{
    let typed = trim(identity);
    let base = match home {
        Some(base) => base,
        None => {
            return typed;
        },
    };
    let chars = chars_of(typed.as_str());
    if chars.len() == 0 || chars[0] != '~' {
        return typed;
    }
    let mut from: usize = 1;
    assert(chars@.skip(1) =~= chars@.subrange(1, chars@.len() as int));
    while from < chars.len() && chars[from] == '/'
        invariant
            1 <= from <= chars@.len(),
            without_leading_slashes(chars@.skip(1)) == without_leading_slashes(
                chars@.skip(from as int),
            ),
        decreases chars@.len() - from,
    {
        assert(chars@.skip(from as int).skip(1) =~= chars@.skip(from + 1));
        from += 1;
    }
    assert(chars@.skip(from as int) =~= chars@.subrange(from as int, chars@.len() as int));
    let rest = string_of(&chars, from, chars.len());
    join_path(base, rest.as_str())
}

/// Whether a typed identity names no file. The field is optional, because an
/// ssh-agent may already hold the key, so a blank one is never missing.
pub open spec fn names_no_file(identity: Seq<char>, exists: bool) -> bool {
    text::trimmed(identity).len() > 0 && !exists
}

/// Whether a typed identity fails to resolve on this machine, where `exists`
/// says whether the filesystem has [`expand_local_identity_path`] of it.
pub fn check_identity_missing(identity: &str, exists: bool) -> (missing: bool)
    ensures
        missing == names_no_file(identity@, exists),
{
    let typed = trim(identity);
    !is_blank(typed.as_str()) && !exists
}

fn is_blank(value: &str) -> (blank: bool)
    ensures
        blank == (value@.len() == 0),
{
    chars_of(value).len() == 0
}

/// The server as `ssh` wants it: the brackets around an IPv6 literal are not
/// part of the address.
pub open spec fn normalized_server(server: Seq<char>) -> Seq<char> {
    let typed = text::trimmed(server);
    let inner = typed.subrange(1, typed.len() - 1);
    if typed.len() >= 2 && typed[0] == '[' && typed.last() == ']' && inner.contains(':') {
        inner
    } else {
        typed
    }
}

/// The server field as `ssh` should see it. Someone who copies an IPv6 address
/// out of a URL brings its brackets along; they come off only around something
/// with a colon, so that any other bracket is left to be complained about.
pub fn normalize_server(server: &str) -> (normalized: String)
    ensures
        normalized@ == normalized_server(server@),
{
    let typed = trim(server);
    let chars = chars_of(typed.as_str());
    let len = chars.len();
    if len >= 2 && chars[0] == '[' && chars[len - 1] == ']' {
        let inner = string_of(&chars, 1, len - 1);
        if contains_char(inner.as_str(), ':') {
            return inner;
        }
    }
    typed
}

/// The port that a text names: a decimal number from 1 to 65535, with nothing
/// around it but a plus sign in front.
pub open spec fn typed_port(port: Seq<char>) -> Option<u16> {
    match entry::leading_port(port) {
        Some((number, used)) if used == port.len() && number > 0 => Some(number),
        _ => None,
    }
}

/// What is wrong with a server.
pub open spec fn server_fault(server: Seq<char>) -> Option<Seq<char>> {
    if server.len() > 0 && server[0] == '-' {
        Some(OPTION_LEADING_DASH_ERROR@)
    } else if !server_text(server) {
        Some(SERVER_CHARSET_ERROR@)
    } else {
        None
    }
}

/// What is wrong with a user.
pub open spec fn user_fault(user: Seq<char>) -> Option<Seq<char>> {
    if user.len() > 0 && user[0] == '-' {
        Some(OPTION_LEADING_DASH_ERROR@)
    } else if !user_text(user) {
        Some(USER_CHARSET_ERROR@)
    } else {
        None
    }
}

/// What is wrong with a form, given whether its identity names no file.
pub open spec fn validated(form: FormView, identity_missing: bool) -> ValidationView {
    let port = text::trimmed(form.port);
    ValidationView {
        server_error: server_fault(normalized_server(form.server)),
        port_error: if port.len() == 0 || typed_port(port) is Some {
            None
        } else {
            Some(PORT_ERROR@)
        },
        user_error: user_fault(text::trimmed(form.user)),
        identity_error: if text::trimmed(form.identity).len() > 0 && identity_missing {
            Some(IDENTITY_MISSING_ERROR@)
        } else {
            None
        },
        path_error: None,
        port_number: match typed_port(port) {
            Some(number) => number,
            None => DEFAULT_SSH_PORT,
        },
        complete: normalized_server(form.server).len() > 0 && text::trimmed(form.user).len() > 0
            && text::trimmed(form.path).len() > 0,
    }
}

fn check_server(server: &str) -> (error: Option<&'static str>)
    ensures
        error_view(error) == server_fault(server@),
{
    let chars = chars_of(server);
    if chars.len() > 0 && chars[0] == '-' {
        return Some(OPTION_LEADING_DASH_ERROR);
    }
    let mut i: usize = 0;
    while i < chars.len()
        invariant
            i <= chars@.len(),
            chars@ == server@,
            !(server@.len() > 0 && server@[0] == '-'),
            forall|j: int| 0 <= j < i ==> server_char(#[trigger] server@[j]),
        decreases chars@.len() - i,
    {
        if !is_server_char(chars[i]) {
            assert(!server_char(server@[i as int]));
            return Some(SERVER_CHARSET_ERROR);
        }
        i += 1;
    }
    None
}

fn check_user(user: &str) -> (error: Option<&'static str>)
    ensures
        error_view(error) == user_fault(user@),
{
    let chars = chars_of(user);
    if chars.len() > 0 && chars[0] == '-' {
        return Some(OPTION_LEADING_DASH_ERROR);
    }
    let mut i: usize = 0;
    while i < chars.len()
        invariant
            i <= chars@.len(),
            chars@ == user@,
            !(user@.len() > 0 && user@[0] == '-'),
            forall|j: int| 0 <= j < i ==> user_char(#[trigger] user@[j]),
        decreases chars@.len() - i,
    {
        if !is_user_char(chars[i]) {
            assert(!user_char(user@[i as int]));
            return Some(USER_CHARSET_ERROR);
        }
        i += 1;
    }
    None
}

/// Validate the form against nothing but its own text. A leading dash would
/// reach `ssh` as an option, and a character outside the accepted ones could
/// mean something to the shell that the command is typed into. The remote path
/// is the host's to judge; here it only has to be there.
pub fn validate(form: &RemoteConnectionForm, identity_missing: bool) -> (validation:
    RemoteConnectionValidation)
    ensures
        validation@ == validated(form@, identity_missing),
{
    let server = normalize_server(form.server.as_str());
    let user = trim(form.user.as_str());
    let port = trim(form.port.as_str());
    let identity = trim(form.identity.as_str());
    let path = trim(form.path.as_str());
    let (port_number, port_error): (u16, Option<&'static str>) = if is_blank(port.as_str()) {
        (DEFAULT_SSH_PORT, None)
    } else {
        let digits = chars_of(port.as_str());
        match read_port(&digits) {
            Some((number, used)) => if used == digits.len() && number > 0 {
                (number, None)
            } else {
                (DEFAULT_SSH_PORT, Some(PORT_ERROR))
            },
            None => (DEFAULT_SSH_PORT, Some(PORT_ERROR)),
        }
    };
    let identity_error: Option<&'static str> = if !is_blank(identity.as_str())
        && identity_missing {
        Some(IDENTITY_MISSING_ERROR)
    } else {
        None
    };
    let server_error = check_server(server.as_str());
    let user_error = check_user(user.as_str());
    proof {
        let typed = text::trimmed(form.port@);
        if typed.len() == 0 {
            assert(text::digit_run(typed.skip(0)) == 0);
        }
    }
    RemoteConnectionValidation {
        server_error,
        port_error,
        user_error,
        identity_error,
        path_error: None,
        port_number,
        complete: !is_blank(server.as_str()) && !is_blank(user.as_str()) && !is_blank(
            path.as_str(),
        ),
    }
}

/// Where the form is in the add cycle, as mathematical values.
pub enum ModalStateView {
    Editing,
    Probing,
    Failed(Seq<char>),
}

/// Where the form is in the add cycle.
#[derive(Debug, PartialEq, Eq)]
pub enum RemoteConnectionModalState {
    Editing,
    /// Submitted; the probe is in flight and the form waits, rather than
    /// registering something unverified.
    Probing,
    /// The probe refused the connection; the reason is shown and the fields are
    /// live again.
    Failed(String),
}

impl View for RemoteConnectionModalState {
    type V = ModalStateView;

    open spec fn view(&self) -> ModalStateView {
        match *self {
            RemoteConnectionModalState::Editing => ModalStateView::Editing,
            RemoteConnectionModalState::Probing => ModalStateView::Probing,
            RemoteConnectionModalState::Failed(reason) => ModalStateView::Failed(reason@),
        }
    }
}

/// An attempt to connect, as mathematical values.
pub struct LifecycleView {
    pub state: ModalStateView,
    pub token: u64,
}

/// The token after `token`.
pub open spec fn next_token(token: u64) -> u64 {
    if token == u64::MAX {
        0
    } else {
        (token + 1) as u64
    }
}

impl LifecycleView {
    /// Whether a probe may be started.
    pub open spec fn can_start_probe(self) -> bool {
        self.state !is Probing
    }

    /// A probe starts, under a token of its own.
    pub open spec fn begun(self) -> LifecycleView {
        LifecycleView { state: ModalStateView::Probing, token: next_token(self.token) }
    }

    /// Whether the result of the probe that carries `token` still counts.
    pub open spec fn awaits(self, token: u64) -> bool {
        token == self.token && self.state is Probing
    }

    /// The probe that carries `token` failed for `reason`.
    pub open spec fn failed(self, token: u64, reason: Seq<char>) -> LifecycleView {
        if self.awaits(token) {
            LifecycleView { state: ModalStateView::Failed(reason), token: self.token }
        } else {
            self
        }
    }

    /// A clean form again.
    pub open spec fn reset(self) -> LifecycleView {
        LifecycleView { state: ModalStateView::Editing, token: next_token(self.token) }
    }
}

/// Editing, then probing, then failed or closed. Every probe carries the token
/// it started with, and a result whose token has been superseded, because the
/// form was cancelled, closed, or submitted again, is dropped.
#[derive(Debug)]
pub struct RemoteConnectionLifecycle {
    pub state: RemoteConnectionModalState,
    pub token: u64,
}

impl View for RemoteConnectionLifecycle {
    type V = LifecycleView;

    open spec fn view(&self) -> LifecycleView {
        LifecycleView { state: self.state@, token: self.token }
    }
}

impl Default for RemoteConnectionLifecycle {
    fn default() -> (lifecycle: Self)
        ensures
            lifecycle@ == (LifecycleView { state: ModalStateView::Editing, token: 0 }),
    {
        RemoteConnectionLifecycle { state: RemoteConnectionModalState::Editing, token: 0 }
    }
}

impl RemoteConnectionLifecycle {
    /// Where the form is in the add cycle.
    pub fn state(&self) -> (state: &RemoteConnectionModalState)
        ensures
            state@ == self@.state,
    {
        &self.state
    }

    /// False while a probe is in flight, so that a double-click cannot spawn two
    /// connections to one host.
    pub fn can_start_probe(&self) -> (ready: bool)
        ensures
            ready == self@.can_start_probe(),
    {
        match self.state {
            RemoteConnectionModalState::Probing => false,
            _ => true,
        }
    }

    fn advance(&mut self)
        ensures
            final(self).state == old(self).state,
            final(self).token == next_token(old(self).token),
    {
        if self.token == u64::MAX {
            self.token = 0;
        } else {
            self.token = self.token + 1;
        }
    }

    /// Start probing and return the token to carry along.
    pub fn begin_probe(&mut self) -> (token: u64)
        ensures
            final(self)@ == old(self)@.begun(),
            token == final(self)@.token,
    {
        self.advance();
        self.state = RemoteConnectionModalState::Probing;
        self.token
    }

    /// Show `reason` and hand the fields back. `false` when the token is stale,
    /// and then nothing changes.
    pub fn fail(&mut self, token: u64, reason: String) -> (applied: bool)
        ensures
            applied == old(self)@.awaits(token),
            final(self)@ == old(self)@.failed(token, reason@),
    {
        let probing = match self.state {
            RemoteConnectionModalState::Probing => true,
            _ => false,
        };
        if token != self.token || !probing {
            return false;
        }
        self.state = RemoteConnectionModalState::Failed(reason);
        true
    }

    /// Back to a clean editing state: open, cancel, or a successful add. A probe
    /// still in flight no longer counts.
    pub fn reset(&mut self)
        ensures
            final(self)@ == old(self)@.reset(),
    {
        self.advance();
        self.state = RemoteConnectionModalState::Editing;
    }
}

/// A request of the form, as mathematical values.
pub enum ModalEventView {
    Close,
    Submit {
        token: u64,
        server: Seq<char>,
        port: u16,
        user: Seq<char>,
        identity: Seq<char>,
        path: Seq<char>,
    },
}

/// What the form asks of the workspace.
#[derive(Debug, PartialEq, Eq)]
pub enum RemoteConnectionModalEvent {
    Close,
    /// The user submitted a valid connection. Whoever probes it reports back
    /// with the token, so that a result the form has moved past is dropped.
    Submit {
        token: u64,
        server: String,
        port: u16,
        user: String,
        identity: String,
        path: String,
    },
}

impl View for RemoteConnectionModalEvent {
    type V = ModalEventView;

    open spec fn view(&self) -> ModalEventView {
        match *self {
            RemoteConnectionModalEvent::Close => ModalEventView::Close,
            RemoteConnectionModalEvent::Submit { token, server, port, user, identity, path } =>
                ModalEventView::Submit {
                token,
                server: server@,
                port,
                user: user@,
                identity: identity@,
                path: path@,
            },
        }
    }
}

/// A request as a mathematical value, if there is one.
pub open spec fn event_view(event: Option<RemoteConnectionModalEvent>) -> Option<ModalEventView> {
    match event {
        Some(found) => Some(found@),
        None => None,
    }
}

/// What the user can do to the form besides typing.
#[derive(Clone, Copy, Debug, PartialEq, Eq, Structural)]
pub enum RemoteConnectionModalAction {
    Cancel,
    Add,
    Escape,
}

/// The last identity that was looked up, and whether it named no file.
#[derive(Debug)]
pub struct IdentityCheck {
    pub identity: String,
    pub missing: bool,
}

/// The form and its attempt to connect, as mathematical values.
pub struct ModalView {
    pub form: FormView,
    pub lifecycle: LifecycleView,
    pub checked: Option<(Seq<char>, bool)>,
}

/// The connection form as it is shown.
#[derive(Debug)]
pub struct RemoteConnectionModal {
    pub form: RemoteConnectionForm,
    pub lifecycle: RemoteConnectionLifecycle,
    /// The last identity looked up and the answer. The form is drawn on every
    /// keystroke and a lookup can block on a stalled mount, so the filesystem is
    /// asked once per edit of the field and not once per drawing.
    pub identity_check: Option<IdentityCheck>,
}

impl View for RemoteConnectionModal {
    type V = ModalView;

    open spec fn view(&self) -> ModalView {
        ModalView {
            form: self.form@,
            lifecycle: self.lifecycle@,
            checked: match self.identity_check {
                Some(check) => Some((check.identity@, check.missing)),
                None => None,
            },
        }
    }
}

impl ModalView {
    /// The last lookup answers for the identity that is typed now.
    pub open spec fn knows_identity(self) -> bool {
        self.checked is Some && (self.checked->0).0 == self.form.identity
    }

    /// Whether the identity counts as missing, where `exists` is what the
    /// filesystem says if it has to be asked.
    pub open spec fn identity_missing(self, exists: bool) -> bool {
        if self.knows_identity() {
            (self.checked->0).1
        } else {
            names_no_file(self.form.identity, exists)
        }
    }

    /// The lookup of the typed identity is remembered.
    pub open spec fn recalled(self, missing: bool) -> ModalView {
        ModalView { checked: Some((self.form.identity, missing)), ..self }
    }

    /// The form after a submission, where `exists` is what the filesystem says
    /// about the identity.
    pub open spec fn submitted(self, exists: bool) -> ModalView {
        if !self.lifecycle.can_start_probe() {
            self
        } else {
            let missing = names_no_file(self.form.identity, exists);
            if validated(self.form, missing).can_submit() {
                ModalView { lifecycle: self.lifecycle.begun(), ..self.recalled(missing) }
            } else {
                self.recalled(missing)
            }
        }
    }

    /// What a submission asks for.
    pub open spec fn submission(self, exists: bool) -> Option<ModalEventView> {
        let validation = validated(self.form, names_no_file(self.form.identity, exists));
        if self.lifecycle.can_start_probe() && validation.can_submit() {
            Some(
                ModalEventView::Submit {
                    token: self.lifecycle.begun().token,
                    server: normalized_server(self.form.server),
                    port: validation.port_number,
                    user: text::trimmed(self.form.user),
                    identity: text::trimmed(self.form.identity),
                    path: text::trimmed(self.form.path),
                },
            )
        } else {
            None
        }
    }

    /// The form after something was typed: a refusal described the connection
    /// that has now changed, so it goes.
    pub open spec fn edited(self, form: FormView) -> ModalView {
        ModalView {
            form,
            lifecycle: if self.lifecycle.state is Failed {
                self.lifecycle.reset()
            } else {
                self.lifecycle
            },
            ..self
        }
    }
}

impl RemoteConnectionModal {
    /// A form with nothing in it.
    pub fn new() -> (modal: Self)
        ensures
            modal@ == (ModalView {
                form: blank_form(),
                lifecycle: LifecycleView { state: ModalStateView::Editing, token: 0 },
                checked: None,
            }),
    {
        RemoteConnectionModal {
            form: RemoteConnectionForm::default(),
            lifecycle: RemoteConnectionLifecycle::default(),
            identity_check: None,
        }
    }

    /// The form is about to be shown: the fields and any refusal left from an
    /// earlier attempt are cleared.
    pub fn on_open(&mut self)
        ensures
            final(self)@ == (ModalView {
                form: blank_form(),
                lifecycle: old(self)@.lifecycle.reset(),
                ..old(self)@
            }),
    {
        self.lifecycle.reset();
        self.form = RemoteConnectionForm::default();
    }

    /// The form was dismissed: a probe still in flight no longer counts.
    pub fn on_close(&mut self)
        ensures
            final(self)@ == (ModalView { lifecycle: old(self)@.lifecycle.reset(), ..old(self)@ }),
    {
        self.lifecycle.reset();
    }

    /// The probe refused the connection: the form stays and names the reason. A
    /// stale token is ignored.
    pub fn on_probe_failed(&mut self, token: u64, reason: String) -> (applied: bool)
        ensures
            applied == old(self)@.lifecycle.awaits(token),
            final(self)@ == (ModalView {
                lifecycle: old(self)@.lifecycle.failed(token, reason@),
                ..old(self)@
            }),
    {
        self.lifecycle.fail(token, reason)
    }

    /// A field was typed into; `form` is what the fields hold now.
    pub fn on_edited(&mut self, form: RemoteConnectionForm)
        ensures
            final(self)@ == old(self)@.edited(form@),
    {
        self.form = form;
        let refused = match self.lifecycle.state {
            RemoteConnectionModalState::Failed(_) => true,
            _ => false,
        };
        if refused {
            self.lifecycle.reset();
        }
    }

    /// The path the filesystem has to be asked about before the form can be
    /// drawn, if it has to be asked at all.
    pub fn identity_to_check(&self, home: Option<&str>) -> (path: Option<String>)
        ensures
            text::text_view(path) == (if self@.knows_identity() || text::trimmed(
                self@.form.identity,
            ).len() == 0 {
                None
            } else {
                Some(local_identity(self@.form.identity, str_view(home)))
            }),
    {
        let known = match &self.identity_check {
            Some(check) => same_text(check.identity.as_str(), self.form.identity.as_str()),
            None => false,
        };
        let typed = trim(self.form.identity.as_str());
        if known || is_blank(typed.as_str()) {
            return None;
        }
        Some(expand_local_identity_path(self.form.identity.as_str(), home))
    }

    /// Whether the typed identity names no file: the remembered answer while the
    /// text has not changed, else what the filesystem says.
    pub fn identity_missing(&mut self, exists: bool) -> (missing: bool)
        ensures
            missing == old(self)@.identity_missing(exists),
            final(self)@ == old(self)@.recalled(missing),
    {
        if let Some(check) = &self.identity_check {
            if same_text(check.identity.as_str(), self.form.identity.as_str()) {
                return check.missing;
            }
        }
        let missing = check_identity_missing(self.form.identity.as_str(), exists);
        self.identity_check = Some(IdentityCheck { identity: self.form.identity.clone(), missing });
        missing
    }

    /// Submit the form. The filesystem is asked again, because submitting is a
    /// user's act and no drawing: `exists` is its answer for the identity.
    pub fn try_submit(&mut self, exists: bool) -> (event: Option<RemoteConnectionModalEvent>)
        ensures
            event_view(event) == old(self)@.submission(exists),
            final(self)@ == old(self)@.submitted(exists),
    {
        if !self.lifecycle.can_start_probe() {
            return None;
        }
        let missing = check_identity_missing(self.form.identity.as_str(), exists);
        self.identity_check = Some(IdentityCheck { identity: self.form.identity.clone(), missing });
        let validation = validate(&self.form, missing);
        if !validation.can_submit() {
            return None;
        }
        let token = self.lifecycle.begin_probe();
        Some(
            RemoteConnectionModalEvent::Submit {
                token,
                server: normalize_server(self.form.server.as_str()),
                port: validation.port_number,
                user: trim(self.form.user.as_str()),
                identity: trim(self.form.identity.as_str()),
                path: trim(self.form.path.as_str()),
            },
        )
    }

    /// Cancel and Escape ask to close; Add submits.
    pub fn handle_action(&mut self, action: RemoteConnectionModalAction, exists: bool) -> (event:
        Option<RemoteConnectionModalEvent>)
        ensures
            action == RemoteConnectionModalAction::Add ==> event_view(event) == old(self)@.submission(
                exists,
            ) && final(self)@ == old(self)@.submitted(exists),
            action != RemoteConnectionModalAction::Add ==> event_view(event) == Some(
                ModalEventView::Close,
            ) && final(self)@ == old(self)@,
    {
        match action {
            RemoteConnectionModalAction::Cancel | RemoteConnectionModalAction::Escape => Some(
                RemoteConnectionModalEvent::Close,
            ),
            RemoteConnectionModalAction::Add => self.try_submit(exists),
        }
    }
}

/// A field as it is drawn, as mathematical values.
pub struct FieldRowView {
    pub label: Seq<char>,
    pub placeholder: Seq<char>,
    pub error: Option<Seq<char>>,
    pub first: bool,
}

/// A field as it is drawn: its label, the hint inside it while it is empty, the
/// complaint under it, and whether it leads the column and so needs no gap above.
#[derive(Debug, PartialEq, Eq)]
pub struct FieldRow {
    pub label: &'static str,
    pub placeholder: &'static str,
    pub error: Option<&'static str>,
    pub first: bool,
}

impl View for FieldRow {
    type V = FieldRowView;

    open spec fn view(&self) -> FieldRowView {
        FieldRowView {
            label: self.label@,
            placeholder: self.placeholder@,
            error: error_view(self.error),
            first: self.first,
        }
    }
}

/// The line under the fields, as mathematical values.
pub struct StatusLineView {
    pub message: Seq<char>,
    pub is_error: bool,
}

/// The line under the fields that says how the attempt is going.
#[derive(Debug, PartialEq, Eq)]
pub struct StatusLine {
    pub message: String,
    pub is_error: bool,
}

impl View for StatusLine {
    type V = StatusLineView;

    open spec fn view(&self) -> StatusLineView {
        StatusLineView { message: self.message@, is_error: self.is_error }
    }
}

/// The form as it is drawn, as mathematical values.
pub struct FormScreenView {
    pub title: Seq<char>,
    pub fields: Seq<FieldRowView>,
    pub status: Option<StatusLineView>,
    pub can_submit: bool,
}

/// The form as it is drawn. The Cancel button is always live; the Add button is
/// live when the form can be submitted.
#[derive(Debug, PartialEq, Eq)]
pub struct FormScreen {
    pub title: &'static str,
    pub fields: Vec<FieldRow>,
    pub status: Option<StatusLine>,
    pub can_submit: bool,
}

impl View for FormScreen {
    type V = FormScreenView;

    open spec fn view(&self) -> FormScreenView {
        FormScreenView {
            title: self.title@,
            fields: self.fields@.map_values(|row: FieldRow| row@),
            status: match self.status {
                Some(line) => Some(line@),
                None => None,
            },
            can_submit: self.can_submit,
        }
    }
}

/// One field as it is drawn.
pub open spec fn field_row(
    label: Seq<char>,
    placeholder: Seq<char>,
    error: Option<Seq<char>>,
    first: bool,
) -> FieldRowView {
    FieldRowView { label, placeholder, error, first }
}

impl LifecycleView {
    /// What the line under the fields says.
    pub open spec fn status(self) -> Option<StatusLineView> {
        match self.state {
            ModalStateView::Editing => None,
            ModalStateView::Probing => Some(
                StatusLineView { message: "Connecting…"@, is_error: false },
            ),
            ModalStateView::Failed(reason) => Some(
                StatusLineView { message: reason, is_error: true },
            ),
        }
    }
}

impl ModalView {
    /// The form as it is drawn, where `exists` is what the filesystem says about
    /// the identity if it has to be asked.
    pub open spec fn drawn(self, exists: bool) -> FormScreenView {
        let validation = validated(self.form, self.identity_missing(exists));
        FormScreenView {
            title: "Remote repository or folder"@,
            fields: seq![
                field_row("Server"@, "192.168.1.10"@, validation.server_error, true),
                field_row("Port"@, "Defaults to 22"@, validation.port_error, false),
                field_row("User"@, "root"@, validation.user_error, false),
                field_row(
                    "Identity file"@,
                    "~/.ssh/id_ed25519 (optional)"@,
                    validation.identity_error,
                    false,
                ),
                field_row("Path"@, "~/projects/my-app"@, validation.path_error, false),
            ],
            status: self.lifecycle.status(),
            can_submit: validation.can_submit() && self.lifecycle.can_start_probe(),
        }
    }
}

/// One field as it is drawn.
fn render_field(
    label: &'static str,
    placeholder: &'static str,
    error: Option<&'static str>,
    first: bool,
) -> (row: FieldRow)
    ensures
        row@ == field_row(label@, placeholder@, error_view(error), first),
{
    FieldRow { label, placeholder, error, first }
}

impl RemoteConnectionModal {
    /// Draw the form. `exists` is what the filesystem says about
    /// [`Self::identity_to_check`], and is not read when there is nothing to ask.
    pub fn render(&mut self, exists: bool) -> (screen: FormScreen)
        ensures
            screen@ == old(self)@.drawn(exists),
            final(self)@ == old(self)@.recalled(old(self)@.identity_missing(exists)),
    {
        let missing = self.identity_missing(exists);
        let validation = validate(&self.form, missing);
        let can_submit = validation.can_submit() && self.lifecycle.can_start_probe();
        let mut fields: Vec<FieldRow> = Vec::new();
        fields.push(render_field("Server", "192.168.1.10", validation.server_error, true));
        fields.push(render_field("Port", "Defaults to 22", validation.port_error, false));
        fields.push(render_field("User", "root", validation.user_error, false));
        fields.push(
            render_field(
                "Identity file",
                "~/.ssh/id_ed25519 (optional)",
                validation.identity_error,
                false,
            ),
        );
        fields.push(render_field("Path", "~/projects/my-app", validation.path_error, false));
        let status: Option<StatusLine> = match &self.lifecycle.state {
            RemoteConnectionModalState::Editing => None,
            RemoteConnectionModalState::Probing => Some(
                StatusLine { message: "Connecting…".to_owned(), is_error: false },
            ),
            RemoteConnectionModalState::Failed(reason) => Some(
                StatusLine { message: reason.clone(), is_error: true },
            ),
        };
        let screen = FormScreen {
            title: "Remote repository or folder",
            fields,
            status,
            can_submit,
        };
        assert(screen@.fields =~= old(self)@.drawn(exists).fields);
        screen
    }
}

/// A result that lands after the form was cancelled, closed, or submitted again
/// changes nothing, and a result for another probe than the one in flight does
/// not end it.
pub proof fn late_results_are_dropped(lifecycle: LifecycleView, token: u64, reason: Seq<char>)
    ensures
        lifecycle.begun().reset().failed(lifecycle.begun().token, reason)
            == lifecycle.begun().reset(),
        lifecycle.begun().reset().begun().failed(lifecycle.begun().token, reason)
            == lifecycle.begun().reset().begun(),
        token != lifecycle.begun().token ==> lifecycle.begun().failed(token, reason)
            == lifecycle.begun(),
        lifecycle.begun().failed(lifecycle.begun().token, reason).state == ModalStateView::Failed(
            reason,
        ),
{
}

/// Submitting twice connects once: while a probe is in flight a submission asks
/// for nothing and changes nothing, whatever the filesystem says.
pub proof fn one_connection_at_a_time(modal: ModalView, exists: bool, later: bool)
    requires
        modal.submission(exists) is Some,
    ensures
        modal.submitted(exists).submission(later) is None,
        modal.submitted(exists).submitted(later) == modal.submitted(exists),
{
}

/// A refused probe gives the form back: it can be submitted again as it stands.
pub proof fn refusal_reopens_the_form(modal: ModalView, exists: bool, reason: Seq<char>)
    requires
        modal.submission(exists) is Some,
    ensures
        ({
            let probing = modal.submitted(exists);
            let refused = ModalView {
                lifecycle: probing.lifecycle.failed(probing.lifecycle.token, reason),
                ..probing
            };
            &&& refused.form == modal.form
            &&& refused.lifecycle.status() == Some(StatusLineView { message: reason, is_error: true })
            &&& refused.submission(exists) is Some
        }),
{
}

/// What is submitted can be handed to `ssh`: a server and a user that are there,
/// that do not begin like an option and that hold no character a shell would
/// read, a path that is there, and a port that is one.
pub proof fn submitted_fields_are_safe(modal: ModalView, exists: bool)
    ensures
        modal.submission(exists) matches Some(
            ModalEventView::Submit { token, server, port, user, identity, path },
        ) ==> {
            &&& server.len() > 0 && server[0] != '-' && server_text(server)
            &&& user.len() > 0 && user[0] != '-' && user_text(user)
            &&& path.len() > 0
            &&& port > 0
            &&& modal.submitted(exists).lifecycle.awaits(token)
        },
{
}

/// The Add button is live exactly when pressing it submits, as long as the
/// filesystem still says what it said when the identity was last looked up.
pub proof fn add_button_submits(modal: ModalView, exists: bool)
    requires
        modal.knows_identity() ==> modal.identity_missing(exists) == names_no_file(
            modal.form.identity,
            exists,
        ),
    ensures
        modal.drawn(exists).can_submit == (modal.submission(exists) is Some),
{
}

/// Typing takes a refusal away and disturbs nothing else: a probe in flight goes
/// on.
pub proof fn typing_clears_a_refusal(modal: ModalView, form: FormView)
    ensures
        modal.edited(form).lifecycle.state !is Failed,
        modal.lifecycle.state !is Failed ==> modal.edited(form).lifecycle == modal.lifecycle,
{
}

/// The identity is optional: while it is blank, no answer of the filesystem
/// changes what the form says.
pub proof fn blank_identity_is_never_missing(form: FormView, missing: bool)
    requires
        text::trimmed(form.identity).len() == 0,
    ensures
        validated(form, missing) == validated(form, false),
{
}

/// A server may hold letters, digits and the marks `.`, `-`, `_`, `:` and `%`, a
/// user letters, digits and `.`, `-`, `_`, `\` and `$`, and neither may start with
/// a dash. A blank field is no fault; it only keeps the form from being complete.
pub proof fn faults_are_found(form: FormView, missing: bool)
    ensures
        ({
            let checked = validated(form, missing);
            let server = normalized_server(form.server);
            let user = text::trimmed(form.user);
            &&& checked.server_error is None <==> (server.len() > 0 ==> server[0] != '-') && (forall|
                i: int,
            |
                0 <= i < server.len() ==> {
                    let ch = #[trigger] server[i];
                    ||| 'a' <= ch <= 'z' || 'A' <= ch <= 'Z' || '0' <= ch <= '9'
                    ||| ch == '.' || ch == '-' || ch == '_' || ch == ':' || ch == '%'
                })
            &&& checked.user_error is None <==> (user.len() > 0 ==> user[0] != '-') && (forall|
                i: int,
            |
                0 <= i < user.len() ==> {
                    let ch = #[trigger] user[i];
                    ||| 'a' <= ch <= 'z' || 'A' <= ch <= 'Z' || '0' <= ch <= '9'
                    ||| ch == '.' || ch == '-' || ch == '_' || ch == '\\' || ch == '$'
                })
            &&& checked.identity_error is Some <==> missing && text::trimmed(form.identity).len() > 0
            &&& checked.path_error is None
            &&& checked.complete <==> server.len() > 0 && user.len() > 0 && text::trimmed(
                form.path,
            ).len() > 0
            &&& checked.can_submit() <==> checked.complete && checked.server_error is None
                && checked.user_error is None && checked.port_error is None
                && checked.identity_error is None
        }),
{
    let server = normalized_server(form.server);
    let user = text::trimmed(form.user);
    if server_text(server) {
        assert forall|i: int| 0 <= i < server.len() implies {
            let ch = #[trigger] server[i];
            ||| 'a' <= ch <= 'z' || 'A' <= ch <= 'Z' || '0' <= ch <= '9'
            ||| ch == '.' || ch == '-' || ch == '_' || ch == ':' || ch == '%'
        } by {
            assert(server_char(server[i]));
        }
    }
    if user_text(user) {
        assert forall|i: int| 0 <= i < user.len() implies {
            let ch = #[trigger] user[i];
            ||| 'a' <= ch <= 'z' || 'A' <= ch <= 'Z' || '0' <= ch <= '9'
            ||| ch == '.' || ch == '-' || ch == '_' || ch == '\\' || ch == '$'
        } by {
            assert(user_char(user[i]));
        }
    }
}

/// A port is a number from 1 to 65535. Typed as such it is the one used, a blank
/// field stands for 22, and anything else is a fault.
pub proof fn ports_are_numbers(form: FormView, missing: bool, number: nat)
    requires
        text::trimmed(form.port) == text::decimal(number),
    ensures
        1 <= number <= 65535 ==> validated(form, missing).port_error is None && validated(
            form,
            missing,
        ).port_number == number,
        !(1 <= number <= 65535) ==> validated(form, missing).port_error is Some,
{
    let typed = text::decimal(number);
    text::lemma_decimal_round_trip(number);
    text::lemma_digit_run(typed);
    assert(typed.skip(0) =~= typed);
    let run = text::digit_run(typed);
    if run < typed.len() {
        assert(text::is_digit(typed[run]));
    }
    assert(typed.subrange(0, run) =~= typed);
    assert(text::is_digit(typed[0]));
}

/// A blank port stands for 22, and a port that holds anything but digits, a plus
/// sign in front apart, is a fault.
pub proof fn other_ports_are_refused(form: FormView, missing: bool, at: int)
    ensures
        ({
            let port = text::trimmed(form.port);
            &&& port.len() == 0 ==> validated(form, missing).port_error is None && validated(
                form,
                missing,
            ).port_number == 22
            &&& 0 <= at < port.len() && !('0' <= port[at] <= '9') && !(at == 0 && port[at] == '+')
                ==> validated(form, missing).port_error is Some
        }),
{
    let port = text::trimmed(form.port);
    let sign = if port.len() > 0 && port[0] == '+' {
        1int
    } else {
        0int
    };
    let tail = port.skip(sign);
    text::lemma_digit_run(tail);
    let run = text::digit_run(tail);
    if 0 <= at < port.len() && !('0' <= port[at] <= '9') && !(at == 0 && port[at] == '+') {
        assert(tail[at - sign] == port[at]);
        assert(run <= at - sign) by {
            if run > at - sign {
                assert(text::is_digit(tail[at - sign]));
            }
        }
    }
}

/// A server loses the white space around it, and an address with colons the
/// brackets around it; everything else stays as it was typed.
pub proof fn servers_lose_their_brackets(front: Seq<char>, server: Seq<char>, back: Seq<char>)
    requires
        forall|i: int| 0 <= i < front.len() ==> text::is_space(#[trigger] front[i]),
        forall|i: int| 0 <= i < back.len() ==> text::is_space(#[trigger] back[i]),
        server.len() > 0 ==> !text::is_space(server[0]) && !text::is_space(server.last()),
    ensures
        server.contains(':') ==> normalized_server(front + (seq!['['] + server + seq![']']) + back)
            == server,
        !server.contains(':') ==> normalized_server(
            front + (seq!['['] + server + seq![']']) + back,
        ) == seq!['['] + server + seq![']'],
        server.len() == 0 || server[0] != '[' || server.last() != ']' ==> normalized_server(
            front + server + back,
        ) == server,
{
    let closed = seq!['['] + server + seq![']'];
    text::trimming_takes_only_the_ends(front, server, back);
    assert(!text::is_space('[') && !text::is_space(']'));
    text::trimming_takes_only_the_ends(front, closed, back);
    assert(closed.subrange(1, closed.len() - 1) =~= server);
}

/// An identity file below the home directory may be written with a tilde; any
/// other path is taken as it was typed, the white space around it left out.
pub proof fn tilde_is_the_home_directory(
    front: Seq<char>,
    rest: Seq<char>,
    back: Seq<char>,
    home: Seq<char>,
)
    requires
        forall|i: int| 0 <= i < front.len() ==> text::is_space(#[trigger] front[i]),
        forall|i: int| 0 <= i < back.len() ==> text::is_space(#[trigger] back[i]),
        rest.len() > 0,
        rest[0] != '/' && !text::is_space(rest[0]) && !text::is_space(rest.last()),
        home.len() > 0 && home.last() != '/',
    ensures
        local_identity(front + (seq!['~', '/'] + rest) + back, Some(home)) == home + seq!['/']
            + rest,
        local_identity(front + (seq!['~', '/'] + rest) + back, None) == seq!['~', '/'] + rest,
        rest[0] != '~' ==> local_identity(front + rest + back, Some(home)) == rest,
        local_identity(front + rest + back, None) == rest,
{
    let typed = seq!['~', '/'] + rest;
    assert(!text::is_space('~'));
    text::trimming_takes_only_the_ends(front, typed, back);
    text::trimming_takes_only_the_ends(front, rest, back);
    assert(typed.skip(1) =~= seq!['/'] + rest);
    assert((seq!['/'] + rest).skip(1) =~= rest);
    assert(without_leading_slashes(rest) == rest);
    assert(without_leading_slashes(seq!['/'] + rest) == rest);
}

/// The form is sent when it is not already waiting and has no fault, and then
/// with what was typed: the server, the user, the identity and the path without
/// white space around them, and the port, or 22.
pub proof fn form_sends_what_was_typed(modal: ModalView, exists: bool)
    ensures
        ({
            let missing = text::trimmed(modal.form.identity).len() > 0 && !exists;
            let checked = validated(modal.form, missing);
            &&& modal.submission(exists) is Some <==> modal.lifecycle.state !is Probing
                && checked.can_submit()
            &&& modal.submission(exists) matches Some(event) ==> {
                &&& event matches ModalEventView::Submit {
                    token,
                    server,
                    port,
                    user,
                    identity,
                    path,
                }
                &&& server == normalized_server(modal.form.server)
                &&& port == checked.port_number
                &&& user == text::trimmed(modal.form.user)
                &&& identity == text::trimmed(modal.form.identity)
                &&& path == text::trimmed(modal.form.path)
                &&& modal.submitted(exists).lifecycle.state is Probing
                &&& modal.submitted(exists).lifecycle.token == token
                &&& token != modal.lifecycle.token
            }
            &&& modal.submission(exists) is None ==> modal.submitted(exists).lifecycle
                == modal.lifecycle
            &&& modal.submitted(exists).form == modal.form
        }),
{
}

/// A check of the identity file counts for the text it was made for: it is not
/// repeated while that text stands, and not used for another.
pub proof fn identity_checks_count_for_their_text(
    modal: ModalView,
    form: FormView,
    missing: bool,
    exists: bool,
)
    ensures
        modal.recalled(missing).knows_identity(),
        modal.recalled(missing).identity_missing(exists) == missing,
        form.identity != modal.form.identity ==> !modal.recalled(missing).edited(
            form,
        ).knows_identity() && modal.recalled(missing).edited(form).identity_missing(exists) == (
        text::trimmed(form.identity).len() > 0 && !exists),
        form.identity == modal.form.identity ==> modal.recalled(missing).edited(
            form,
        ).identity_missing(exists) == missing,
{
}

/// The form waits for one result: opening, closing or submitting again makes
/// every earlier token one that is waited for no more.
pub proof fn only_the_latest_token_is_awaited(lifecycle: LifecycleView, token: u64)
    ensures
        lifecycle.awaits(token) <==> lifecycle.state is Probing && lifecycle.token == token,
        !lifecycle.reset().awaits(token),
        lifecycle.begun().awaits(token) ==> token != lifecycle.token,
        lifecycle.reset().state is Editing,
        lifecycle.begun().state is Probing,
{
}

/// A plus sign in front of the port changes nothing.
pub proof fn ports_may_have_a_sign(form: FormView, missing: bool, number: nat)
    requires
        text::trimmed(form.port) == seq!['+'] + text::decimal(number),
    ensures
        1 <= number <= 65535 ==> validated(form, missing).port_error is None && validated(
            form,
            missing,
        ).port_number == number,
        !(1 <= number <= 65535) ==> validated(form, missing).port_error is Some,
{
    let digits = text::decimal(number);
    let typed = seq!['+'] + digits;
    text::lemma_decimal_round_trip(number);
    assert(typed.skip(1) =~= digits);
    text::lemma_digit_run(digits);
    let run = text::digit_run(digits);
    if run < digits.len() {
        assert(text::is_digit(digits[run]));
    }
    assert(typed.subrange(1, 1 + run) =~= digits);
}

} // verus!
