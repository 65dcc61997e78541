//! What a repository row says: its clipped name and secondary line, its hover
//! text, the state of its host, and the id that its place is published under.
use vstd::prelude::*;
use vstd::utf8::*;
use siphasher::sip::SipHasher;
use crate::entry::RepoEntryKind;
use crate::listing;
use crate::listing::RemoteListEntry;
use crate::probe;
use crate::probe::{RemoteProbeFailure, RemoteProbeState};
use crate::paths;
use crate::paths::settled_text;
use crate::text;
use crate::text::{ascii_char, chars_of, contains_run, copy_text, same_text, string_of};

verus! {

broadcast use vstd::string::group_string_axioms;

/// How many characters of the secondary line fit: `user@host` on a remote row,
/// the path on a local one.
pub const SECONDARY_LABEL_BUDGET: usize = 28;

/// How many characters of the name fit. Fewer than on the secondary line, which
/// is set smaller.
pub const NAME_BUDGET: usize = 23;

/// A label in at most `budget` characters: one that is longer keeps its two ends
/// around an ellipsis. A budget too small to leave anything readable clips
/// nothing.
pub open spec fn clipped(label: Seq<char>, budget: int) -> Seq<char> {
    if label.len() <= budget || budget < 4 {
        label
    } else {
        let head = budget / 2;
        label.take(head) + seq!['…'] + label.skip(label.len() - (budget - 1 - head))
    }
}

/// Clip a label in the middle. Both ends stay readable, because the user at the
/// front and the tail of the host at the back are what identify a machine.
pub fn truncate_label(label: &str, budget: usize) -> (out: String)
    ensures
        out@ == clipped(label@, budget as int),
{
    let chars = chars_of(label);
    if chars.len() <= budget || budget < 4 {
        return label.to_owned();
    }
    let head: usize = budget / 2;
    let tail: usize = budget - 1 - head;
    let mut out = string_of(&chars, 0, head);
    out.push('…');
    let end = string_of(&chars, chars.len() - tail, chars.len());
    out.append(end.as_str());
    assert(out@ =~= clipped(label@, budget as int));
    out
}

/// A clipped label fits its budget, shows where it was clipped, keeps its first
/// and last characters, and is left alone by clipping it again.
pub proof fn clipping_fits_and_settles(label: Seq<char>, budget: int)
    requires
        budget >= 4,
    ensures
        clipped(label, budget).len() <= budget,
        label.len() > budget ==> clipped(label, budget).len() == budget && clipped(
            label,
            budget,
        ).contains('…') && clipped(label, budget)[0] == label[0] && clipped(label, budget).last()
            == label.last(),
        label.len() <= budget ==> clipped(label, budget) == label,
        clipped(clipped(label, budget), budget) == clipped(label, budget),
{
    if label.len() > budget {
        assert(clipped(label, budget)[budget / 2] == '…');
    }
}

/// The strings of a row, as mathematical values.
pub struct RowLabelsView {
    pub name: Seq<char>,
    pub secondary: Seq<char>,
    pub hover: Seq<char>,
}

/// The three strings a repository row shows.
#[derive(Debug, PartialEq, Eq)]
pub struct RowLabels {
    pub name: String,
    pub secondary: String,
    /// Hover text, which still carries whatever clipping removed.
    pub hover: String,
}

impl View for RowLabels {
    type V = RowLabelsView;

    open spec fn view(&self) -> RowLabelsView {
        RowLabelsView { name: self.name@, secondary: self.secondary@, hover: self.hover@ }
    }
}

/// The strings of a row, clipped to the panel.
pub open spec fn labels(
    display_name: Seq<char>,
    secondary: Seq<char>,
    hover: Seq<char>,
) -> RowLabelsView {
    let name = clipped(display_name, NAME_BUDGET as int);
    RowLabelsView {
        name,
        secondary: clipped(secondary, SECONDARY_LABEL_BUDGET as int),
        hover: if name != display_name && !text::holds_run(hover, display_name) {
            display_name + " — "@ + hover
        } else {
            hover
        },
    }
}

/// Clip a row's name and secondary line. The hover text of a local row is its
/// full path, which ends in the name; that of a remote row is `user@host`, which
/// does not, so a clipped name is put in front of it.
pub fn row_labels(display_name: &str, secondary: String, hover: String) -> (out: RowLabels)
    ensures
        out@ == labels(display_name@, secondary@, hover@),
{
    let name = truncate_label(display_name, NAME_BUDGET);
    let hover = if !same_text(name.as_str(), display_name) && !contains_run(
        hover.as_str(),
        display_name,
    ) {
        let mut full = display_name.to_owned();
        full.append(" — ");
        full.append(hover.as_str());
        full
    } else {
        hover
    };
    RowLabels {
        name,
        secondary: truncate_label(secondary.as_str(), SECONDARY_LABEL_BUDGET),
        hover,
    }
}

/// Nothing that clipping took from a name is lost: the name is shown whole, or
/// the hover text holds it whole. Both lines fit the panel.
pub proof fn clipped_names_stay_readable(
    display_name: Seq<char>,
    secondary: Seq<char>,
    hover: Seq<char>,
)
    ensures
        ({
            let shown = labels(display_name, secondary, hover);
            &&& shown.name == display_name || text::holds_run(shown.hover, display_name)
            &&& shown.name.len() <= NAME_BUDGET
            &&& shown.secondary.len() <= SECONDARY_LABEL_BUDGET
        }),
{
    let shown = labels(display_name, secondary, hover);
    clipping_fits_and_settles(display_name, NAME_BUDGET as int);
    clipping_fits_and_settles(secondary, SECONDARY_LABEL_BUDGET as int);
    if shown.name != display_name && !text::holds_run(hover, display_name) {
        let full = display_name + " — "@ + hover;
        assert(full.subrange(0, 0int + display_name.len()) =~= display_name);
    }
}

/// What a remote row is doing, by its last probe alone.
#[derive(Clone, Copy, Debug, PartialEq, Eq, Structural)]
pub enum RemoteRowStatus {
    /// Registered and never probed, or a probe is in flight.
    Pending,
    Ready,
    Unreachable(RemoteProbeFailure),
}

/// The remote part of a row, as mathematical values.
pub struct RemoteRowView {
    pub secondary: Seq<char>,
    pub branch: Option<Seq<char>>,
    pub status: RemoteRowStatus,
    pub tooltip: Seq<char>,
}

/// Everything a remote row shows that a local row does not.
#[derive(Debug, PartialEq, Eq)]
pub struct RemoteRowState {
    /// The line under the name: `user@host`, clipped.
    pub secondary: String,
    /// The branch the probe found.
    pub branch: Option<String>,
    pub status: RemoteRowStatus,
    /// The whole `user@host`, and the reason when the last probe failed.
    pub tooltip: String,
}

impl View for RemoteRowState {
    type V = RemoteRowView;

    open spec fn view(&self) -> RemoteRowView {
        RemoteRowView {
            secondary: self.secondary@,
            branch: text::text_view(self.branch),
            status: self.status,
            tooltip: self.tooltip@,
        }
    }
}

/// The status a probe state puts a row in.
pub open spec fn row_status(state: probe::ProbeStateView) -> RemoteRowStatus {
    match state {
        probe::ProbeStateView::Pending => RemoteRowStatus::Pending,
        probe::ProbeStateView::Resolved { .. } => RemoteRowStatus::Ready,
        probe::ProbeStateView::Failed { reason } => RemoteRowStatus::Unreachable(reason),
    }
}

/// The branch a probe state shows: a repository's, never a plain folder's.
pub open spec fn row_branch(state: probe::ProbeStateView) -> Option<Seq<char>> {
    match state {
        probe::ProbeStateView::Resolved { kind: RepoEntryKind::Repo, branch } => branch,
        _ => None,
    }
}

/// The hover text of a remote row.
pub open spec fn remote_tooltip(user_host: Seq<char>, status: RemoteRowStatus) -> Seq<char> {
    match status {
        RemoteRowStatus::Pending => user_host + " — connecting…"@,
        RemoteRowStatus::Ready => user_host,
        RemoteRowStatus::Unreachable(reason) => user_host + " — "@ + reason.message_text(),
    }
}

/// What the row of a remote entry shows.
pub open spec fn remote_row(remote: listing::RemoteListView, budget: int) -> RemoteRowView {
    let user_host = remote.target.user_host();
    RemoteRowView {
        secondary: clipped(user_host, budget),
        branch: row_branch(remote.probe),
        status: row_status(remote.probe),
        tooltip: remote_tooltip(user_host, row_status(remote.probe)),
    }
}

/// What the row of a remote entry shows, with its secondary line clipped to
/// `budget`.
pub fn remote_row_state(remote: &RemoteListEntry, budget: usize) -> (state: RemoteRowState)
    ensures
        state@ == remote_row(remote@, budget as int),
{
    let full = remote.target.user_host();
    let (branch, status): (Option<String>, RemoteRowStatus) = match &remote.probe {
        RemoteProbeState::Pending => (None, RemoteRowStatus::Pending),
        RemoteProbeState::Resolved { kind, branch } => {
            let shown = match kind {
                RepoEntryKind::Repo => copy_text(branch),
                RepoEntryKind::Folder => None,
            };
            (shown, RemoteRowStatus::Ready)
        },
        RemoteProbeState::Failed { reason } => (None, RemoteRowStatus::Unreachable(*reason)),
    };
    let mut tooltip = full.clone();
    match status {
        RemoteRowStatus::Pending => {
            tooltip.append(" — connecting…");
        },
        RemoteRowStatus::Ready => {},
        RemoteRowStatus::Unreachable(reason) => {
            tooltip.append(" — ");
            tooltip.append(reason.message());
        },
    }
    RemoteRowState {
        secondary: truncate_label(full.as_str(), budget),
        branch,
        status,
        tooltip,
    }
}

/// The hover text of a remote row always names the machine in full, and a row
/// whose host could not be used says why.
pub proof fn remote_rows_explain_themselves(remote: listing::RemoteListView, budget: int)
    ensures
        ({
            let row = remote_row(remote, budget);
            &&& text::holds_run(row.tooltip, remote.target.user_host())
            &&& remote.probe matches probe::ProbeStateView::Failed { reason } ==> row.status
                == RemoteRowStatus::Unreachable(reason) && row.branch is None && text::holds_run(
                row.tooltip,
                reason.message_text(),
            )
        }),
{
    let row = remote_row(remote, budget);
    let host = remote.target.user_host();
    assert(row.tooltip.subrange(0, 0int + host.len()) =~= host);
    if let probe::ProbeStateView::Failed { reason } = remote.probe {
        let message = reason.message_text();
        let at = row.tooltip.len() - message.len();
        assert(row.tooltip.subrange(at, at + message.len()) =~= message);
    }
}

/// The SipHash-2-4 of `bytes` under the key `(key0, key1)`.
pub uninterp spec fn sip_hash(key0: u64, key1: u64, bytes: Seq<u8>) -> u64;

/// `siphasher::sip::SipHasher::hash`, of a hasher fresh from `new_with_keys`:
/// the hash is a function of the two keys and the bytes.
#[verifier::external_body]
fn sip_hash_of(key0: u64, key1: u64, bytes: &[u8]) -> (hash: u64)
    ensures
        hash == sip_hash(key0, key1, bytes@),
{
    SipHasher::new_with_keys(key0, key1).hash(bytes)
}

/// The lower-case hexadecimal digit of a number below sixteen.
pub open spec fn hex_char(digit: nat) -> char {
    if digit < 10 {
        ((digit + '0' as u32) as u32) as char
    } else {
        ((digit - 10 + 'a' as u32) as u32) as char
    }
}

/// `number` in hexadecimal, in the given number of digits.
pub open spec fn hex(number: nat, digits: nat) -> Seq<char>
    decreases digits,
{
    if digits == 0 {
        Seq::empty()
    } else {
        hex(number / 16, (digits - 1) as nat).push(hex_char(number % 16))
    }
}

/// The id for a row whose key has the hash.
pub open spec fn row_id(hash: u64) -> Seq<char> {
    "repo_mode:row:"@ + hex(hash as nat, 16)
}

fn push_hex(out: &mut String, number: u64, digits: u8)
    ensures
        final(out)@ == old(out)@ + hex(number as nat, digits as nat),
    decreases digits,
{
    if digits > 0 {
        push_hex(out, number / 16, digits - 1);
        let digit: u8 = (number % 16) as u8;
        if digit < 10 {
            out.push(ascii_char(48 + digit));
        } else {
            out.push(ascii_char(87 + digit));
        }
    }
    assert(out@ =~= old(out)@ + hex(number as nat, digits as nat));
}

/// The id for a row whose key has the hash.
pub fn row_id_of_hash(hash: u64) -> (id: String)
    ensures
        id@ == row_id(hash),
{
    let mut id = "repo_mode:row:".to_owned();
    push_hex(&mut id, hash, 16);
    id
}

/// The id a row publishes its place under. A remote key is a whole connection,
/// down to the path of a private key, and an id may be printed by any
/// diagnostic, so the id is made from a hash of the key. The hash has a fixed
/// key: whoever writes a place and whoever reads it must agree, in whatever
/// spelling they have the path.
pub fn repo_row_position_id(path: &str) -> (id: String)
    ensures
        id@ == position_id(path@),
{
    let settled = settled_text(path);
    row_id_of_hash(sip_hash_of(0, 0, settled.as_str().as_bytes()))
}

/// The id the row of `path` publishes its place under.
pub open spec fn position_id(path: Seq<char>) -> Seq<char> {
    row_id(sip_hash(0, 0, encode_utf8(paths::written(paths::parts(path)))))
}

/// All spellings of a path publish under one id.
pub proof fn one_path_has_one_id(a: Seq<char>, b: Seq<char>)
    requires
        paths::same_path(a, b),
    ensures
        position_id(a) == position_id(b),
{
}

/// How many numbers fit in so many hexadecimal digits.
pub open spec fn hex_capacity(digits: nat) -> nat
    decreases digits,
{
    if digits == 0 {
        1
    } else {
        16 * hex_capacity((digits - 1) as nat)
    }
}

proof fn lemma_hex_injective(a: nat, b: nat, digits: nat)
    requires
        a < hex_capacity(digits),
        b < hex_capacity(digits),
        hex(a, digits) == hex(b, digits),
    ensures
        a == b,
    decreases digits,
{
    if digits > 0 {
        let fewer = (digits - 1) as nat;
        assert(hex(a, digits).drop_last() =~= hex(a / 16, fewer));
        assert(hex(b, digits).drop_last() =~= hex(b / 16, fewer));
        assert(hex(a, digits).last() == hex_char(a % 16));
        assert(hex(b, digits).last() == hex_char(b % 16));
        lemma_hex_injective(a / 16, b / 16, fewer);
    }
}

/// Two rows publish under one id only when the hashes of their keys agree.
pub proof fn row_ids_follow_the_hash(a: u64, b: u64)
    ensures
        row_id(a) == row_id(b) <==> a == b,
{
    if row_id(a) == row_id(b) {
        let prefix = "repo_mode:row:"@;
        assert(row_id(a).skip(prefix.len() as int) =~= hex(a as nat, 16));
        assert(row_id(b).skip(prefix.len() as int) =~= hex(b as nat, 16));
        reveal_with_fuel(hex_capacity, 17);
        assert(hex_capacity(16) == 0x1_0000_0000_0000_0000);
        lemma_hex_injective(a as nat, b as nat, 16);
    }
}

/// A long label keeps its beginning and its end around the mark: one half of
/// the budget in front of it, the rest behind it.
pub proof fn long_labels_keep_both_ends(label: Seq<char>, budget: int, i: int)
    requires
        4 <= budget < label.len(),
        0 <= i < budget,
    ensures
        clipped(label, budget).len() == budget,
        clipped(label, budget)[i] == (if i < budget / 2 {
            label[i]
        } else if i == budget / 2 {
            '…'
        } else {
            label[label.len() - budget + i]
        }),
{
}

/// A label that fits stays whole, and so does every label where the budget has
/// no room for both ends.
pub proof fn fitting_labels_stay_whole(label: Seq<char>, budget: int)
    requires
        label.len() <= budget || budget < 4,
    ensures
        clipped(label, budget) == label,
{
}

/// A row shows at most 23 characters of its name and 28 of its second line.
/// Hovering shows the whole name in front of the text where the row had to clip
/// it and the text does not hold it already, and the text alone otherwise.
pub proof fn hovering_shows_the_whole_name(
    display_name: Seq<char>,
    secondary: Seq<char>,
    hover: Seq<char>,
)
    ensures
        ({
            let shown = labels(display_name, secondary, hover);
            let held = exists|at: int|
                0 <= at <= hover.len() - display_name.len() && #[trigger] hover.subrange(
                    at,
                    at + display_name.len(),
                ) == display_name;
            &&& display_name.len() <= 23 ==> shown.name == display_name && shown.hover == hover
            &&& display_name.len() > 23 ==> shown.name.len() == 23 && shown.hover == (if held {
                hover
            } else {
                display_name + " — "@ + hover
            })
            &&& secondary.len() <= 28 ==> shown.secondary == secondary
            &&& secondary.len() > 28 ==> shown.secondary.len() == 28
        }),
{
    clipping_fits_and_settles(display_name, 23);
    clipping_fits_and_settles(secondary, 28);
}

/// A remote row shows the branch of a repository that was probed and no other
/// branch, where it connects to, and how the probe stands.
pub proof fn remote_rows_show_the_probe(remote: listing::RemoteListView, budget: int)
    ensures
        ({
            let row = remote_row(remote, budget);
            let place = remote.target.user + seq!['@'] + remote.target.server;
            match remote.probe {
                probe::ProbeStateView::Pending => row.status is Pending && row.branch is None
                    && row.tooltip == place + " — connecting…"@,
                probe::ProbeStateView::Resolved { kind, branch } => row.status is Ready
                    && row.tooltip == place && row.branch == (if kind is Repo {
                    branch
                } else {
                    None
                }),
                probe::ProbeStateView::Failed { reason } => row.status
                    == RemoteRowStatus::Unreachable(reason) && row.branch is None && row.tooltip
                    == place + " — "@ + reason.message_text(),
            }
        }),
        budget >= remote.target.user.len() + 1 + remote.target.server.len() ==> remote_row(
            remote,
            budget,
        ).secondary == remote.target.user + seq!['@'] + remote.target.server,
{
}

/// A row's id is its prefix and sixteen hexadecimal digits in lower case.
pub proof fn row_ids_are_sixteen_digits(hash: u64, at: int)
    ensures
        row_id(hash).len() == 14 + 16,
        row_id(hash).subrange(0, 14) == "repo_mode:row:"@,
        14 <= at < 30 ==> '0' <= row_id(hash)[at] <= '9' || 'a' <= row_id(hash)[at] <= 'f',
{
    reveal_strlit("repo_mode:row:");
    lemma_hex_digits(hash as nat, 16);
    assert(row_id(hash).subrange(0, 14) =~= "repo_mode:row:"@);
}

proof fn lemma_hex_digits(number: nat, digits: nat)
    ensures
        hex(number, digits).len() == digits,
        forall|i: int|
            0 <= i < digits ==> '0' <= #[trigger] hex(number, digits)[i] <= '9' || 'a' <= hex(
                number,
                digits,
            )[i] <= 'f',
    decreases digits,
{
    if digits > 0 {
        lemma_hex_digits(number / 16, (digits - 1) as nat);
    }
}

} // verus!
