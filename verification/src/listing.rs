//! The Repositories list: which rows there are, what each shows, and the order
//! they render in.
//!
//! A window pins the order it first drew and keeps to it for its session, so
//! that using a repository does not move its row; recency and the stored manual
//! order decide the order of the first drawing.
use vstd::prelude::*;
use crate::entry;
use crate::entry::{
    display_name_for_path, is_remote_key, parse_remote_key, RemoteTarget, RepoEntryKind,
};
use crate::keys;
use crate::keys::{drop_key, holds, position};
use crate::order;
use crate::order::text_less;
use crate::paths;
use crate::paths::lists_path;
use crate::probe;
use crate::probe::RemoteProbeState;
use crate::projects;
use crate::projects::ProjectManagementModel;
use crate::rows;
use crate::rows::RepoModeRowDrag;
use crate::sessions;
use crate::sessions::ProbeSessions;
use crate::stamps::Stamp;
use crate::text;
use crate::text::same_text;

verus! {

/// How long a reading of the filesystem is used before it is taken again, in
/// milliseconds.
pub const REPO_FS_CACHE_TTL_MILLIS: u64 = 5000;

/// The remote half of a row, as mathematical values.
pub struct RemoteListView {
    pub target: entry::RemoteTargetView,
    pub probe: probe::ProbeStateView,
}

/// The remote half of a row: what machine it points at, and what the last probe
/// said about it.
#[derive(Debug)]
pub struct RemoteListEntry {
    pub target: RemoteTarget,
    pub probe: RemoteProbeState,
}

impl View for RemoteListEntry {
    type V = RemoteListView;

    open spec fn view(&self) -> RemoteListView {
        RemoteListView { target: self.target@, probe: self.probe@ }
    }
}

/// A row, as mathematical values.
pub struct ListEntryView {
    pub path: Seq<char>,
    pub display_name: Seq<char>,
    pub kind: RepoEntryKind,
    pub is_dead: bool,
    pub last_opened_ts: Option<Stamp>,
    pub added_ts: Stamp,
    pub remote: Option<RemoteListView>,
    pub unverified: bool,
}

/// A row of the Repositories list.
#[derive(Debug)]
pub struct RepoModeListEntry {
    pub path: String,
    pub display_name: String,
    /// For a remote entry this mirrors the last probe and stays `Folder` until
    /// one resolves; `remote` tells "folder" from "not probed yet".
    pub kind: RepoEntryKind,
    pub is_dead: bool,
    pub last_opened_ts: Option<Stamp>,
    pub added_ts: Stamp,
    /// Connection and probe state for a remote entry; `None` for a local one.
    pub remote: Option<RemoteListEntry>,
    /// Whether this row is a remote key that is still being verified and that
    /// the registry has yet to accept. Such a key is provisional, because the
    /// host can expand the path into a different key. Not the same question as
    /// whether the probe is pending: a registered key is settled whether or not
    /// this window has probed it yet.
    pub unverified: bool,
}

/// The remote half of a row as a mathematical value.
pub open spec fn remote_view(remote: Option<RemoteListEntry>) -> Option<RemoteListView> {
    match remote {
        Some(found) => Some(found@),
        None => None,
    }
}

impl View for RepoModeListEntry {
    type V = ListEntryView;

    open spec fn view(&self) -> ListEntryView {
        ListEntryView {
            path: self.path@,
            display_name: self.display_name@,
            kind: self.kind,
            is_dead: self.is_dead,
            last_opened_ts: self.last_opened_ts,
            added_ts: self.added_ts,
            remote: remote_view(self.remote),
            unverified: self.unverified,
        }
    }
}

/// Rows as mathematical values.
pub open spec fn entries_view(entries: Seq<RepoModeListEntry>) -> Seq<ListEntryView> {
    entries.map_values(|e: RepoModeListEntry| e@)
}

/// The keys of rows.
pub open spec fn entry_keys(entries: Seq<ListEntryView>) -> Seq<Seq<char>> {
    entries.map_values(|e: ListEntryView| e.path)
}

/// A reading of the filesystem, as mathematical values.
pub struct FsReadingView {
    pub key: Seq<char>,
    pub kind: RepoEntryKind,
    pub dead: bool,
    pub probed_at: u64,
}

/// What the filesystem said about a local path, and when: milliseconds on a
/// clock that never runs backwards.
#[derive(Debug)]
pub struct FsReading {
    pub key: String,
    pub kind: RepoEntryKind,
    pub dead: bool,
    pub probed_at: u64,
}

impl View for FsReading {
    type V = FsReadingView;

    open spec fn view(&self) -> FsReadingView {
        FsReadingView {
            key: self.key@,
            kind: self.kind,
            dead: self.dead,
            probed_at: self.probed_at,
        }
    }
}

/// Readings as mathematical values.
pub open spec fn readings_view(readings: Seq<FsReading>) -> Seq<FsReadingView> {
    readings.map_values(|r: FsReading| r@)
}

/// Where the reading of `key` stands, or the length when there is none.
pub open spec fn reading_pos(readings: Seq<FsReadingView>, key: Seq<char>) -> int
    decreases readings.len(),
{
    if readings.len() == 0 || readings[0].key == key {
        0
    } else {
        1 + reading_pos(readings.skip(1), key)
    }
}

/// The reading of `key`.
pub open spec fn reading_of(readings: Seq<FsReadingView>, key: Seq<char>) -> Option<
    FsReadingView,
> {
    let at = reading_pos(readings, key);
    if at < readings.len() {
        Some(readings[at])
    } else {
        None
    }
}

/// Whether a reading taken at `probed_at` is still used at `clock`.
pub open spec fn is_fresh(probed_at: u64, clock: u64) -> bool {
    clock < probed_at || clock - probed_at < REPO_FS_CACHE_TTL_MILLIS
}

/// What is known of a local path: the cached reading while it is fresh, else the
/// one just taken. A path that nothing is known of counts as gone.
pub open spec fn local_state(
    cache: Seq<FsReadingView>,
    readings: Seq<FsReadingView>,
    clock: u64,
    key: Seq<char>,
) -> (RepoEntryKind, bool) {
    match reading_of(cache, key) {
        Some(cached) if is_fresh(cached.probed_at, clock) => (cached.kind, cached.dead),
        _ => match reading_of(readings, key) {
            Some(taken) => (taken.kind, taken.dead),
            None => (RepoEntryKind::Folder, true),
        },
    }
}

/// The cache after the row of `key` was looked at: a reading that was needed and
/// taken replaces the stale one.
pub open spec fn cached_after(
    cache: Seq<FsReadingView>,
    readings: Seq<FsReadingView>,
    clock: u64,
    key: Seq<char>,
) -> Seq<FsReadingView> {
    match reading_of(cache, key) {
        Some(cached) if is_fresh(cached.probed_at, clock) => cache,
        _ => match reading_of(readings, key) {
            Some(taken) => stored_reading(
                cache,
                FsReadingView { key, kind: taken.kind, dead: taken.dead, probed_at: clock },
            ),
            None => cache,
        },
    }
}

/// The cache with `reading` in place of the one its key had.
pub open spec fn stored_reading(cache: Seq<FsReadingView>, reading: FsReadingView) -> Seq<
    FsReadingView,
> {
    let at = reading_pos(cache, reading.key);
    if at < cache.len() {
        cache.update(at, reading)
    } else {
        cache.push(reading)
    }
}

/// One row as the ordering reads it.
pub struct RowView {
    pub key: Seq<char>,
    pub last_opened_ts: Option<Stamp>,
    pub added_ts: Stamp,
}

/// The row of a registered project.
pub open spec fn registry_row(project: projects::ProjectView) -> RowView {
    RowView {
        key: project.path,
        last_opened_ts: project.last_opened_ts,
        added_ts: project.added_ts,
    }
}

/// The row of a key that is being verified, stamped now so that it sorts like
/// the newest entry it is about to become.
pub open spec fn pending_row(key: Seq<char>, now: Stamp) -> RowView {
    RowView { key, last_opened_ts: Some(now), added_ts: now }
}

/// What a row shows.
pub open spec fn entry_of(
    list: RepoListView,
    readings: Seq<FsReadingView>,
    clock: u64,
    unverified: Seq<Seq<char>>,
    row: RowView,
) -> ListEntryView {
    if entry::names_remote(row.key) {
        remote_entry(row, list.probes.sessions, unverified.contains(row.key))
    } else {
        local_entry(row, local_state(list.fs_cache, readings, clock, row.key))
    }
}

/// What the row of a local path shows.
pub open spec fn local_entry(row: RowView, state: (RepoEntryKind, bool)) -> ListEntryView {
    ListEntryView {
        path: row.key,
        display_name: entry::path_label(row.key),
        kind: state.0,
        is_dead: state.1,
        last_opened_ts: row.last_opened_ts,
        added_ts: row.added_ts,
        remote: None,
        unverified: false,
    }
}

/// What the row of a remote key shows: the last probe's answer, pending when
/// there is none. A key that cannot be read is dead, and its text is not shown.
pub open spec fn remote_entry(
    row: RowView,
    probes: Seq<sessions::SessionView>,
    unverified: bool,
) -> ListEntryView {
    match entry::parsed_key(row.key) {
        Some(target) => {
            let state = match sessions::session_of(probes, row.key) {
                Some(session) => session.state,
                None => probe::ProbeStateView::Pending,
            };
            ListEntryView {
                path: row.key,
                display_name: target.display_name(),
                kind: match state.kind() {
                    Some(kind) => kind,
                    None => RepoEntryKind::Folder,
                },
                is_dead: false,
                last_opened_ts: row.last_opened_ts,
                added_ts: row.added_ts,
                remote: Some(RemoteListView { target, probe: state }),
                unverified,
            }
        },
        None => ListEntryView {
            path: row.key,
            display_name: "Unreadable entry"@,
            kind: RepoEntryKind::Folder,
            is_dead: true,
            last_opened_ts: row.last_opened_ts,
            added_ts: row.added_ts,
            remote: None,
            unverified,
        },
    }
}

/// What a window keeps about its list, as mathematical values.
pub struct RepoListView {
    pub pending: Option<Seq<char>>,
    pub probes: sessions::ProbeSessionsView,
    pub projected: Set<Seq<char>>,
    pub fs_cache: Seq<FsReadingView>,
    pub pin: Option<Seq<Seq<char>>>,
    pub saw_stored_order: bool,
    pub row_drag: Option<rows::RowDragView>,
}

/// What a window keeps about its list.
#[derive(Debug)]
pub struct RepoList {
    /// The key the add form is waiting on.
    pub pending_remote_key: Option<String>,
    pub probes: ProbeSessions,
    /// Keys this window has put on screen as connecting.
    pub projected_unverified: Vec<String>,
    /// The last readings of the filesystem.
    pub fs_cache: Vec<FsReading>,
    /// The order this window keeps for its session, once it has drawn a list.
    pub launch_order: Option<Vec<String>>,
    /// Whether this window has resolved a list against a stored manual order.
    pub saw_stored_order: bool,
    /// The row being dragged.
    pub row_drag: Option<RepoModeRowDrag>,
}

/// A pin as a mathematical value.
pub open spec fn pin_view(pin: Option<Vec<String>>) -> Option<Seq<Seq<char>>> {
    match pin {
        Some(keys) => Some(text::texts(keys@)),
        None => None,
    }
}

/// A drag as a mathematical value.
pub open spec fn drag_view(drag: Option<RepoModeRowDrag>) -> Option<rows::RowDragView> {
    match drag {
        Some(found) => Some(found@),
        None => None,
    }
}

impl View for RepoList {
    type V = RepoListView;

    open spec fn view(&self) -> RepoListView {
        RepoListView {
            pending: text::text_view(self.pending_remote_key),
            probes: self.probes@,
            projected: text::texts(self.projected_unverified@).to_set(),
            fs_cache: readings_view(self.fs_cache@),
            pin: pin_view(self.launch_order),
            saw_stored_order: self.saw_stored_order,
            row_drag: drag_view(self.row_drag),
        }
    }
}

impl RepoList {
    /// Sessions belong to one key each, the pin repeats no key, and a drag is
    /// well formed.
    pub open spec fn wf(self) -> bool {
        &&& self.probes.wf()
        &&& text::texts(self.projected_unverified@).no_duplicates()
        &&& self.launch_order matches Some(pin) ==> text::texts(pin@).no_duplicates()
        &&& self.row_drag matches Some(drag) ==> drag.wf()
    }
}

/// The keys that are shown while they are verified: the one the add form waits
/// on, and those an add has a probe running for, as far as the registry has yet
/// to accept them. A probe that merely refreshes a row shows no key: the row of
/// an entry that another window has removed does not come back with it.
pub open spec fn unverified_keys(list: RepoListView, registry: Seq<projects::ProjectView>) -> Seq<
    Seq<char>,
> {
    let waiting = match list.pending {
        Some(key) => if projects::registered(registry, key) {
            Seq::empty()
        } else {
            seq![key]
        },
        None => Seq::empty(),
    };
    waiting + probing_keys(list.probes.sessions, list.pending, registry)
}

/// The keys an add has a probe running for that are neither registered nor the
/// one the form waits on.
pub open spec fn probing_keys(
    probes: Seq<sessions::SessionView>,
    pending: Option<Seq<char>>,
    registry: Seq<projects::ProjectView>,
) -> Seq<Seq<char>>
    decreases probes.len(),
{
    if probes.len() == 0 {
        Seq::empty()
    } else {
        let session = probes.last();
        let before = probing_keys(probes.drop_last(), pending, registry);
        if session.in_flight && session.adding && Some(session.key) != pending
            && !projects::registered(registry, session.key) {
            before.push(session.key)
        } else {
            before
        }
    }
}

/// The rows of the list, before they are put in order.
pub open spec fn list_rows(
    list: RepoListView,
    registry: Seq<projects::ProjectView>,
    now: Stamp,
) -> Seq<RowView> {
    registry.map_values(|p: projects::ProjectView| registry_row(p)) + unverified_keys(
        list,
        registry,
    ).map_values(|k: Seq<char>| pending_row(k, now))
}

/// The cache after every local row was looked at.
pub open spec fn cache_after(
    cache: Seq<FsReadingView>,
    readings: Seq<FsReadingView>,
    clock: u64,
    all: Seq<RowView>,
) -> Seq<FsReadingView>
    decreases all.len(),
{
    if all.len() == 0 {
        cache
    } else {
        let before = cache_after(cache, readings, clock, all.drop_last());
        if entry::names_remote(all.last().key) {
            before
        } else {
            cached_after(before, readings, clock, all.last().key)
        }
    }
}

/// Whether the first instant is later; any instant is later than none.
pub open spec fn later(a: Option<Stamp>, b: Option<Stamp>) -> bool {
    match (a, b) {
        (Some(x), Some(y)) => x.after(y),
        (Some(_), None) => true,
        _ => false,
    }
}

/// Recency: last opened first, then last added first, then by name.
pub open spec fn recent_before(a: ListEntryView, b: ListEntryView) -> bool {
    later(a.last_opened_ts, b.last_opened_ts) || (a.last_opened_ts == b.last_opened_ts && (
    a.added_ts.after(b.added_ts) || (a.added_ts == b.added_ts && order::text_before(
        a.display_name,
        b.display_name,
    ))))
}

/// Where a row stands in a given order: an unverified row in front of all, a row
/// that the order does not name behind all.
pub open spec fn rank(e: ListEntryView, keys: Seq<Seq<char>>) -> int {
    if e.unverified {
        0
    } else {
        keys::key_pos(keys, e.path) + 1
    }
}

/// The relation a list is sorted by: a given order, or recency.
pub open spec fn list_relation(keys: Option<Seq<Seq<char>>>) -> spec_fn(
    ListEntryView,
    ListEntryView,
) -> bool {
    |a: ListEntryView, b: ListEntryView|
        match keys {
            Some(given) => rank(a, given) < rank(b, given),
            None => recent_before(a, b),
        }
}

/// Where `key` joins the pin: in front when this window has shown it connecting,
/// else at the end.
pub open spec fn pin_step(pin: Seq<Seq<char>>, projected: Set<Seq<char>>, key: Seq<char>) -> (
    Seq<Seq<char>>,
    Set<Seq<char>>,
) {
    if pin.contains(key) {
        (pin, projected)
    } else if projected.contains(key) {
        (seq![key] + pin, projected.remove(key))
    } else {
        (pin.push(key), projected)
    }
}

/// The pin after the keys in `all` joined it, in turn, and the keys that are
/// still marked as shown connecting.
pub open spec fn pin_extended(
    pin: Seq<Seq<char>>,
    projected: Set<Seq<char>>,
    all: Seq<Seq<char>>,
) -> (Seq<Seq<char>>, Set<Seq<char>>)
    decreases all.len(),
{
    if all.len() == 0 {
        (pin, projected)
    } else {
        let before = pin_extended(pin, projected, all.drop_last());
        pin_step(before.0, before.1, all.last())
    }
}

/// The rows in the order that recency and the stored manual order give them.
pub open spec fn launch_entries(
    list: RepoListView,
    registry: Seq<projects::ProjectView>,
    readings: Seq<FsReadingView>,
    clock: u64,
    now: Stamp,
) -> Seq<ListEntryView> {
    let unverified = unverified_keys(list, registry);
    let shown = list_rows(list, registry, now).map_values(
        |row: RowView| entry_of(list, readings, clock, unverified, row),
    );
    let recent = order::stable_sort(shown, list_relation(None));
    let stored = projects::stored_order(registry);
    if stored.len() == 0 {
        recent
    } else {
        order::stable_sort(recent, list_relation(Some(stored)))
    }
}

/// The pin after the list was drawn, and the keys still marked as connecting.
pub open spec fn pin_after(
    list: RepoListView,
    registry: Seq<projects::ProjectView>,
    first: Seq<ListEntryView>,
) -> (Seq<Seq<char>>, Set<Seq<char>>) {
    let marked = list.projected.union(unverified_keys(list, registry).to_set());
    let pin = match list.pin {
        Some(kept) => kept,
        None => entry_keys(first),
    };
    pin_extended(pin, marked, entry_keys(first))
}

/// The list as it is drawn.
pub open spec fn drawn_entries(
    list: RepoListView,
    registry: Seq<projects::ProjectView>,
    readings: Seq<FsReadingView>,
    clock: u64,
    now: Stamp,
) -> Seq<ListEntryView> {
    let first = launch_entries(list, registry, readings, clock, now);
    order::stable_sort(first, list_relation(Some(pin_after(list, registry, first).0)))
}

/// What the window keeps after the list was drawn.
pub open spec fn drawn_list(
    list: RepoListView,
    registry: Seq<projects::ProjectView>,
    readings: Seq<FsReadingView>,
    clock: u64,
    now: Stamp,
) -> RepoListView {
    let first = launch_entries(list, registry, readings, clock, now);
    let pinned = pin_after(list, registry, first);
    RepoListView {
        pending: list.pending,
        probes: list.probes,
        projected: pinned.1,
        fs_cache: cache_after(list.fs_cache, readings, clock, list_rows(list, registry, now)),
        pin: Some(pinned.0),
        saw_stored_order: list.saw_stored_order || projects::stored_order(registry).len() > 0,
        row_drag: match list.row_drag {
            Some(drag) => if paths::lists(entry_keys(first), drag.path) {
                Some(drag)
            } else {
                None
            },
            None => None,
        },
    }
}

proof fn lemma_reading_pos(readings: Seq<FsReadingView>, key: Seq<char>, at: int)
    requires
        0 <= at <= readings.len(),
        at < readings.len() ==> readings[at].key == key,
        forall|j: int| 0 <= j < at ==> (#[trigger] readings[j]).key != key,
    ensures
        reading_pos(readings, key) == at,
    decreases readings.len(),
{
    if at > 0 {
        assert(readings[0].key != key);
        assert forall|j: int| 0 <= j < at - 1 implies (#[trigger] readings.skip(1)[j]).key
            != key by {
            assert(readings.skip(1)[j] == readings[j + 1]);
        }
        lemma_reading_pos(readings.skip(1), key, at - 1);
    }
}

/// Where the reading of `key` stands.
fn find_reading(readings: &Vec<FsReading>, key: &str) -> (at: Option<usize>)
    ensures
        match at {
            Some(i) => i < readings@.len() && i == reading_pos(readings_view(readings@), key@)
                && reading_of(readings_view(readings@), key@) == Some(readings@[i as int]@),
            None => reading_pos(readings_view(readings@), key@) == readings@.len() && reading_of(
                readings_view(readings@),
                key@,
            ) is None,
        },
{
    let ghost views = readings_view(readings@);
    let mut i: usize = 0;
    while i < readings.len()
        invariant
            i <= readings@.len(),
            views == readings_view(readings@),
            forall|j: int| 0 <= j < i ==> (#[trigger] views[j]).key != key@,
        decreases readings@.len() - i,
    {
        assert(views[i as int] == readings@[i as int]@);
        if same_text(readings[i].key.as_str(), key) {
            proof {
                lemma_reading_pos(views, key@, i as int);
            }
            return Some(i);
        }
        i += 1;
    }
    proof {
        lemma_reading_pos(views, key@, i as int);
    }
    None
}

/// Whether a reading taken at `probed_at` is still used at `clock`.
fn fresh(probed_at: u64, clock: u64) -> (found: bool)
    ensures
        found == is_fresh(probed_at, clock),
{
    clock < probed_at || clock - probed_at < REPO_FS_CACHE_TTL_MILLIS
}

/// Build the row for a remote key. No filesystem and no network work happens
/// here: kind, branch, and reachability come from the probe sessions, which are
/// empty until the entry is added or selected.
///
/// A key that carries the remote scheme but does not parse is surfaced as dead,
/// so that the row offers "Remove". Its text is not shown: it holds the user,
/// the host and the path to a private key.
pub fn remote_list_entry(
    key: String,
    last_opened_ts: Option<Stamp>,
    added_ts: Stamp,
    probes: &ProbeSessions,
    unverified: bool,
) -> (out: RepoModeListEntry)
    ensures
        out@ == remote_entry(
            (RowView { key: key@, last_opened_ts, added_ts }),
            probes@.sessions,
            unverified,
        ),
{
    match parse_remote_key(key.as_str()) {
        Some(target) => {
            let probe = probes.state(key.as_str());
            let kind = match probe.kind() {
                Some(kind) => kind,
                None => RepoEntryKind::Folder,
            };
            RepoModeListEntry {
                display_name: target.display_name(),
                kind,
                is_dead: false,
                path: key,
                last_opened_ts,
                added_ts,
                remote: Some(RemoteListEntry { target, probe }),
                unverified,
            }
        },
        None => RepoModeListEntry {
            display_name: "Unreadable entry".to_owned(),
            kind: RepoEntryKind::Folder,
            is_dead: true,
            path: key,
            last_opened_ts,
            added_ts,
            remote: None,
            unverified,
        },
    }
}

/// Whether `a` comes before `b`: in the given order, or by recency.
fn goes_before(
    a: &RepoModeListEntry,
    b: &RepoModeListEntry,
    given: Option<&Vec<String>>,
) -> (before: bool)
    ensures
        before == list_relation(given_view(given))(a@, b@),
{
    match given {
        Some(keys) => {
            proof {
                keys::lemma_key_pos(text::texts(keys@), a@.path);
                keys::lemma_key_pos(text::texts(keys@), b@.path);
            }
            if a.unverified || b.unverified {
                a.unverified && !b.unverified
            } else {
                place_in(keys, a.path.as_str()) < place_in(keys, b.path.as_str())
            }
        },
        None => {
            if later_than(a.last_opened_ts, b.last_opened_ts) {
                true
            } else if later_than(b.last_opened_ts, a.last_opened_ts) {
                false
            } else {
                a.added_ts.is_after(&b.added_ts) || (a.added_ts == b.added_ts && text_less(
                    a.display_name.as_str(),
                    b.display_name.as_str(),
                ))
            }
        },
    }
}

/// A given order as a mathematical value.
pub open spec fn given_view(given: Option<&Vec<String>>) -> Option<Seq<Seq<char>>> {
    match given {
        Some(keys) => Some(text::texts(keys@)),
        None => None,
    }
}

fn later_than(a: Option<Stamp>, b: Option<Stamp>) -> (found: bool)
    ensures
        found == later(a, b),
{
    match (a, b) {
        (Some(x), Some(y)) => x.is_after(&y),
        (Some(_), None) => true,
        _ => false,
    }
}

/// Where `key` stands in a given order; behind all when it is not named.
fn place_in(keys: &Vec<String>, key: &str) -> (at: usize)
    ensures
        at == keys::key_pos(text::texts(keys@), key@),
{
    match position(keys, key) {
        Some(found) => found,
        None => keys.len(),
    }
}

/// Put `item` into a sorted run of rows.
fn insert_entry(
    sorted: &mut Vec<RepoModeListEntry>,
    item: RepoModeListEntry,
    given: Option<&Vec<String>>,
)
    ensures
        entries_view(final(sorted)@) == order::insert_by(
            entries_view(old(sorted)@),
            item@,
            list_relation(given_view(given)),
        ),
{
    let ghost before = entries_view(sorted@);
    let ghost relation = list_relation(given_view(given));
    let mut at: usize = sorted.len();
    assert(before.take(at as int) =~= before);
    assert(before.skip(at as int) =~= Seq::<ListEntryView>::empty());
    assert(order::insert_by(before, item@, relation) =~= order::insert_by(
        before.take(at as int),
        item@,
        relation,
    ) + before.skip(at as int));
    while at > 0 && goes_before(&item, &sorted[at - 1], given)
        invariant
            at <= sorted@.len(),
            before == entries_view(sorted@),
            relation == list_relation(given_view(given)),
            order::insert_by(before, item@, relation) == order::insert_by(
                before.take(at as int),
                item@,
                relation,
            ) + before.skip(at as int),
        decreases at,
    {
        let ghost here = before.take(at as int);
        assert(here.last() == sorted@[at - 1]@);
        assert(here.drop_last() =~= before.take(at - 1));
        assert(order::insert_by(here, item@, relation) + before.skip(at as int)
            =~= order::insert_by(before.take(at - 1), item@, relation) + before.skip(at - 1));
        at -= 1;
    }
    proof {
        let here = before.take(at as int);
        if at > 0 {
            assert(here.last() == sorted@[at - 1]@);
        }
        assert(order::insert_by(here, item@, relation) =~= here.push(item@));
    }
    let ghost added = item@;
    sorted.insert(at, item);
    assert(entries_view(sorted@) =~= before.take(at as int).push(added) + before.skip(at as int));
}

/// The rows in a given order, or by recency; rows that neither decides between
/// stay as they are.
fn sort_entries(entries: Vec<RepoModeListEntry>, given: Option<&Vec<String>>) -> (sorted: Vec<
    RepoModeListEntry,
>)
    ensures
        entries_view(sorted@) == order::stable_sort(
            entries_view(entries@),
            list_relation(given_view(given)),
        ),
{
    let ghost all = entries_view(entries@);
    let ghost relation = list_relation(given_view(given));
    let mut remaining = entries;
    let mut sorted: Vec<RepoModeListEntry> = Vec::new();
    let ghost mut done: int = 0;
    assert(entries_view(sorted@) =~= order::stable_sort(all.take(0), relation));
    assert(all.skip(0) =~= all);
    while remaining.len() > 0
        invariant
            0 <= done <= all.len(),
            relation == list_relation(given_view(given)),
            entries_view(remaining@) == all.skip(done),
            entries_view(sorted@) == order::stable_sort(all.take(done), relation),
        decreases remaining@.len(),
    {
        assert(entries_view(remaining@).len() == remaining@.len());
        assert(all.skip(done)[0] == remaining@[0]@);
        assert(all.take(done + 1).drop_last() =~= all.take(done));
        assert(all.take(done + 1).last() == remaining@[0]@);
        let ghost was = remaining@;
        let item = remaining.remove(0);
        assert forall|k: int| 0 <= k < remaining@.len() implies entries_view(remaining@)[k]
            == all.skip(done + 1)[k] by {
            assert(remaining@[k] == was[k + 1]);
            assert(entries_view(was)[k + 1] == all.skip(done)[k + 1]);
        }
        assert(entries_view(remaining@) =~= all.skip(done + 1));
        insert_entry(&mut sorted, item, given);
        proof {
            done = done + 1;
        }
    }
    assert(entries_view(remaining@).len() == 0);
    assert(all.take(done) =~= all);
    sorted
}

/// The keys of rows.
fn keys_of_entries(entries: &Vec<RepoModeListEntry>) -> (out: Vec<String>)
    ensures
        text::texts(out@) == entry_keys(entries_view(entries@)),
{
    let mut out: Vec<String> = Vec::new();
    let mut i: usize = 0;
    while i < entries.len()
        invariant
            i <= entries@.len(),
            out@.len() == i,
            forall|j: int| 0 <= j < i ==> out@[j]@ == entries@[j].path@,
        decreases entries@.len() - i,
    {
        out.push(entries[i].path.clone());
        i += 1;
    }
    assert(text::texts(out@) =~= entry_keys(entries_view(entries@)));
    out
}

proof fn lemma_push_set(keys: Seq<Seq<char>>, key: Seq<char>)
    ensures
        keys.push(key).to_set() == keys.to_set().insert(key),
        (seq![key] + keys).to_set() == keys.to_set().insert(key),
        !keys.contains(key) && keys.no_duplicates() ==> keys.push(key).no_duplicates() && (
        seq![key] + keys).no_duplicates(),
{
    let pushed = keys.push(key);
    let led = seq![key] + keys;
    assert forall|k: Seq<char>| pushed.contains(k) <==> keys.contains(k) || k == key by {
        if keys.contains(k) {
            let j = choose|j: int| 0 <= j < keys.len() && keys[j] == k;
            assert(pushed[j] == k);
        }
        assert(pushed[keys.len() as int] == key);
    }
    assert forall|k: Seq<char>| led.contains(k) <==> keys.contains(k) || k == key by {
        if keys.contains(k) {
            let j = choose|j: int| 0 <= j < keys.len() && keys[j] == k;
            assert(led[j + 1] == k);
        }
        if led.contains(k) && k != key {
            let j = choose|j: int| 0 <= j < led.len() && led[j] == k;
            assert(keys[j - 1] == k);
        }
        assert(led[0] == key);
    }
    assert(pushed.to_set() =~= keys.to_set().insert(key));
    assert(led.to_set() =~= keys.to_set().insert(key));
    if !keys.contains(key) && keys.no_duplicates() {
        assert forall|i: int, j: int| 0 <= i < led.len() && 0 <= j < led.len() && i != j implies led[i]
            != led[j] by {
            if i > 0 {
                assert(led[i] == keys[i - 1]);
                assert(keys.contains(keys[i - 1]));
            }
            if j > 0 {
                assert(led[j] == keys[j - 1]);
                assert(keys.contains(keys[j - 1]));
            }
        }
    }
}

/// Let `all` join the pin, in turn.
fn extend_pin(pin: &mut Vec<String>, projected: &mut Vec<String>, all: &Vec<String>)
    requires
        text::texts(old(pin)@).no_duplicates(),
        text::texts(old(projected)@).no_duplicates(),
    ensures
        text::texts(final(pin)@).no_duplicates(),
        text::texts(final(projected)@).no_duplicates(),
        (text::texts(final(pin)@), text::texts(final(projected)@).to_set()) == pin_extended(
            text::texts(old(pin)@),
            text::texts(old(projected)@).to_set(),
            text::texts(all@),
        ),
{
    let ghost start = text::texts(pin@);
    let ghost marked = text::texts(projected@).to_set();
    let ghost keys = text::texts(all@);
    let mut i: usize = 0;
    assert(keys.take(0) =~= Seq::<Seq<char>>::empty());
    while i < all.len()
        invariant
            i <= all@.len(),
            keys == text::texts(all@),
            text::texts(pin@).no_duplicates(),
            text::texts(projected@).no_duplicates(),
            (text::texts(pin@), text::texts(projected@).to_set()) == pin_extended(
                start,
                marked,
                keys.take(i as int),
            ),
        decreases all@.len() - i,
    {
        let ghost pinned = text::texts(pin@);
        let ghost shown = text::texts(projected@);
        let ghost key = all@[i as int]@;
        assert(keys.take(i + 1).drop_last() =~= keys.take(i as int));
        assert(keys.take(i + 1).last() == key);
        if !holds(pin, all[i].as_str()) {
            proof {
                lemma_push_set(pinned, key);
            }
            if holds(projected, all[i].as_str()) {
                assert(shown.to_set().contains(key));
                let kept = drop_key(projected, all[i].as_str());
                proof {
                    keys::lemma_without(shown, key);
                    assert(text::texts(kept@).to_set() =~= shown.to_set().remove(key));
                }
                *projected = kept;
                pin.insert(0, all[i].clone());
                assert(text::texts(pin@) =~= seq![key] + pinned);
            } else {
                pin.push(all[i].clone());
                assert(text::texts(pin@) =~= pinned.push(key));
            }
        }
        i += 1;
    }
    assert(keys.take(i as int) =~= keys);
}

impl RepoList {
    /// What a window keeps before it has drawn anything.
    pub fn new() -> (list: Self)
        ensures
            list.wf(),
            list@ == (RepoListView {
                pending: None,
                probes: sessions::ProbeSessionsView { sessions: Seq::empty(), generation: 0 },
                projected: Set::empty(),
                fs_cache: Seq::empty(),
                pin: None,
                saw_stored_order: false,
                row_drag: None,
            }),
    {
        let list = RepoList {
            pending_remote_key: None,
            probes: ProbeSessions::new(),
            projected_unverified: Vec::new(),
            fs_cache: Vec::new(),
            launch_order: None,
            saw_stored_order: false,
            row_drag: None,
        };
        assert(list@.projected =~= Set::<Seq<char>>::empty());
        assert(list@.fs_cache =~= Seq::<FsReadingView>::empty());
        list
    }

    /// The keys that are shown while they are verified.
    fn unverified(&self, registry: &ProjectManagementModel) -> (out: Vec<String>)
        ensures
            text::texts(out@) == unverified_keys(self@, registry@),
    {
        let mut out: Vec<String> = Vec::new();
        if let Some(key) = &self.pending_remote_key {
            if !registry.contains_key(key.as_str()) {
                out.push(key.clone());
            }
        }
        let ghost waiting = text::texts(out@);
        let ghost probes = self@.probes.sessions;
        let mut i: usize = 0;
        assert(waiting =~= waiting + probing_keys(probes.take(0), self@.pending, registry@));
        while i < self.probes.sessions.len()
            invariant
                i <= self.probes.sessions@.len(),
                probes == self@.probes.sessions,
                text::texts(out@) == waiting + probing_keys(
                    probes.take(i as int),
                    self@.pending,
                    registry@,
                ),
            decreases self.probes.sessions@.len() - i,
        {
            let session = &self.probes.sessions[i];
            let ghost before = text::texts(out@);
            assert(probes.take(i + 1).drop_last() =~= probes.take(i as int));
            assert(probes.take(i + 1).last() == session@);
            let waits = match &self.pending_remote_key {
                Some(key) => same_text(key.as_str(), session.key.as_str()),
                None => false,
            };
            if session.in_flight && session.adding && !waits && !registry.contains_key(session.key.as_str()) {
                out.push(session.key.clone());
                assert(text::texts(out@) =~= before.push(session@.key));
            }
            assert(text::texts(out@) =~= waiting + probing_keys(
                probes.take(i + 1),
                self@.pending,
                registry@,
            ));
            i += 1;
        }
        assert(probes.take(i as int) =~= probes);
        assert(text::texts(out@) =~= unverified_keys(self@, registry@));
        out
    }

    /// The local paths whose filesystem state has to be read before the list is
    /// drawn at `clock`, in registry order.
    pub fn fs_probe_keys(&self, registry: &ProjectManagementModel, clock: u64) -> (out: Vec<String>)
        ensures
            text::texts(out@) == projects::paths(
                registry@.filter(
                    |p: projects::ProjectView| needs_reading(self@.fs_cache, clock, p.path),
                ),
            ),
    {
        let ghost cache = self@.fs_cache;
        let ghost keep = |p: projects::ProjectView| needs_reading(cache, clock, p.path);
        let mut out: Vec<String> = Vec::new();
        let mut i: usize = 0;
        proof {
            reveal(Seq::filter);
            assert(registry@.take(0) =~= Seq::<projects::ProjectView>::empty());
            assert(text::texts(out@) =~= projects::paths(registry@.take(0).filter(keep)));
        }
        while i < registry.projects.len()
            invariant
                i <= registry.projects@.len(),
                cache == self@.fs_cache,
                keep == (|p: projects::ProjectView| needs_reading(cache, clock, p.path)),
                text::texts(out@) == projects::paths(registry@.take(i as int).filter(keep)),
            decreases registry.projects@.len() - i,
        {
            let key = registry.projects[i].path.as_str();
            let ghost before = text::texts(out@);
            proof {
                reveal(Seq::filter);
                assert(registry@.take(i + 1).drop_last() =~= registry@.take(i as int));
                assert(registry@.take(i + 1).last() == registry.projects@[i as int]@);
            }
            let cached = match find_reading(&self.fs_cache, key) {
                Some(at) => fresh(self.fs_cache[at].probed_at, clock),
                None => false,
            };
            if !is_remote_key(key) && !cached {
                out.push(registry.projects[i].path.clone());
                assert(text::texts(out@) =~= before.push(key@));
                assert(projects::paths(
                    registry@.take(i as int).filter(keep).push(registry.projects@[i as int]@),
                ) =~= before.push(key@));
            }
            i += 1;
        }
        assert(registry@.take(i as int) =~= registry@);
        out
    }

    /// The row of a local path, and what the cache learns from drawing it.
    fn local_list_entry(
        &mut self,
        key: String,
        last_opened_ts: Option<Stamp>,
        added_ts: Stamp,
        readings: &Vec<FsReading>,
        clock: u64,
    ) -> (out: RepoModeListEntry)
        ensures
            out@ == local_entry(
                (RowView { key: key@, last_opened_ts, added_ts }),
                local_state(old(self)@.fs_cache, readings_view(readings@), clock, key@),
            ),
            final(self)@ == (RepoListView {
                fs_cache: cached_after(
                    old(self)@.fs_cache,
                    readings_view(readings@),
                    clock,
                    key@,
                ),
                ..old(self)@
            }),
            old(self).wf() ==> final(self).wf(),
    {
        let ghost before = self@.fs_cache;
        let display_name = display_name_for_path(key.as_str());
        let found = find_reading(&self.fs_cache, key.as_str());
        let cached: Option<(RepoEntryKind, bool)> = match found {
            Some(at) => {
                if fresh(self.fs_cache[at].probed_at, clock) {
                    Some((self.fs_cache[at].kind, self.fs_cache[at].dead))
                } else {
                    None
                }
            },
            None => None,
        };
        let (kind, is_dead) = match cached {
            Some(state) => state,
            None => match find_reading(readings, key.as_str()) {
                Some(at) => {
                    let kind = readings[at].kind;
                    let dead = readings[at].dead;
                    let reading = FsReading { key: key.clone(), kind, dead, probed_at: clock };
                    match found {
                        Some(spot) => {
                            self.fs_cache.set(spot, reading);
                        },
                        None => {
                            self.fs_cache.push(reading);
                        },
                    }
                    assert(self@.fs_cache =~= stored_reading(before, reading@));
                    (kind, dead)
                },
                None => (RepoEntryKind::Folder, true),
            },
        };
        RepoModeListEntry {
            path: key,
            display_name,
            kind,
            is_dead,
            last_opened_ts,
            added_ts,
            remote: None,
            unverified: false,
        }
    }
}

/// Whether the filesystem has to be read for the row of `key`.
pub open spec fn needs_reading(cache: Seq<FsReadingView>, clock: u64, key: Seq<char>) -> bool {
    !entry::names_remote(key) && !(reading_of(cache, key) matches Some(cached) && is_fresh(
        cached.probed_at,
        clock,
    ))
}

proof fn lemma_reading_pos_found(readings: Seq<FsReadingView>, key: Seq<char>)
    ensures
        0 <= reading_pos(readings, key) <= readings.len(),
        reading_pos(readings, key) < readings.len() ==> readings[reading_pos(
            readings,
            key,
        )].key == key,
        forall|j: int|
            0 <= j < reading_pos(readings, key) ==> (#[trigger] readings[j]).key != key,
    decreases readings.len(),
{
    if readings.len() > 0 && readings[0].key != key {
        let rest = readings.skip(1);
        lemma_reading_pos_found(rest, key);
        assert forall|j: int| 0 <= j < reading_pos(readings, key) implies (
        #[trigger] readings[j]).key != key by {
            if j > 0 {
                assert(rest[j - 1] == readings[j]);
            }
        }
    }
}

proof fn lemma_stored_reading(cache: Seq<FsReadingView>, reading: FsReadingView, key: Seq<char>)
    ensures
        reading_of(stored_reading(cache, reading), key) == (if key == reading.key {
            Some(reading)
        } else {
            reading_of(cache, key)
        }),
{
    let after = stored_reading(cache, reading);
    let at = reading_pos(cache, reading.key);
    let there = reading_pos(cache, key);
    lemma_reading_pos_found(cache, reading.key);
    lemma_reading_pos_found(cache, key);
    if key == reading.key {
        assert forall|j: int| 0 <= j < at implies (#[trigger] after[j]).key != key by {
            assert(cache[j].key != key);
        }
        lemma_reading_pos(after, key, at);
    } else if there < cache.len() {
        assert forall|j: int| 0 <= j < there implies (#[trigger] after[j]).key != key by {
            assert(cache[j].key != key);
        }
        lemma_reading_pos(after, key, there);
    } else {
        assert forall|j: int| 0 <= j < after.len() implies (#[trigger] after[j]).key != key by {
            if j < cache.len() {
                assert(cache[j].key != key);
            }
        }
        lemma_reading_pos(after, key, after.len() as int);
    }
}

/// What a row shows does not depend on which other rows were drawn before it.
proof fn lemma_cache_is_transparent(
    cache: Seq<FsReadingView>,
    readings: Seq<FsReadingView>,
    clock: u64,
    all: Seq<RowView>,
    key: Seq<char>,
)
    ensures
        local_state(cache_after(cache, readings, clock, all), readings, clock, key)
            == local_state(cache, readings, clock, key),
    decreases all.len(),
{
    if all.len() > 0 {
        let before = cache_after(cache, readings, clock, all.drop_last());
        let drawn = all.last().key;
        lemma_cache_is_transparent(cache, readings, clock, all.drop_last(), key);
        if !entry::names_remote(drawn) {
            if let Some(taken) = reading_of(readings, drawn) {
                lemma_stored_reading(
                    before,
                    FsReadingView {
                        key: drawn,
                        kind: taken.kind,
                        dead: taken.dead,
                        probed_at: clock,
                    },
                    key,
                );
            }
        }
    }
}

/// The keys of the rows, before they are put in order.
pub open spec fn row_keys(all: Seq<RowView>) -> Seq<Seq<char>> {
    all.map_values(|row: RowView| row.key)
}

proof fn lemma_probing_keys(
    probes: Seq<sessions::SessionView>,
    pending: Option<Seq<char>>,
    registry: Seq<projects::ProjectView>,
)
    requires
        sessions::one_per_key(probes),
    ensures
        probing_keys(probes, pending, registry).no_duplicates(),
        forall|k: Seq<char>| #[trigger]
            probing_keys(probes, pending, registry).contains(k) ==> Some(k) != pending
                && !projects::registered(registry, k) && exists|i: int|
                0 <= i < probes.len() && (#[trigger] probes[i]).key == k && probes[i].in_flight
                && probes[i].adding,
    decreases probes.len(),
{
    if probes.len() > 0 {
        let init = probes.drop_last();
        let last = probes.last();
        let before = probing_keys(init, pending, registry);
        let after = probing_keys(probes, pending, registry);
        assert(sessions::one_per_key(init)) by {
            assert forall|i: int, j: int| 0 <= i < j < init.len() implies (#[trigger] init[i]).key
                != (#[trigger] init[j]).key by {
                assert(probes[i].key != probes[j].key);
            }
        }
        lemma_probing_keys(init, pending, registry);
        assert forall|k: Seq<char>| #[trigger] after.contains(k) implies Some(k) != pending
            && !projects::registered(registry, k) && exists|i: int|
            0 <= i < probes.len() && (#[trigger] probes[i]).key == k && probes[i].in_flight
                && probes[i].adding by {
            if before.contains(k) {
                let i = choose|i: int|
                    0 <= i < init.len() && (#[trigger] init[i]).key == k && init[i].in_flight
                        && init[i].adding;
                assert(probes[i].key == k);
            } else {
                let j = choose|j: int| 0 <= j < after.len() && after[j] == k;
                if j < before.len() {
                    assert(before[j] == k);
                }
                assert(after.len() == before.len() + 1);
                assert(probes[probes.len() - 1].key == k);
            }
        }
        if after.len() > before.len() {
            assert(!before.contains(last.key)) by {
                if before.contains(last.key) {
                    let i = choose|i: int|
                        0 <= i < init.len() && (#[trigger] init[i]).key == last.key
                            && init[i].in_flight && init[i].adding;
                    assert(probes[i].key != probes[probes.len() - 1].key);
                }
            }
            lemma_push_set(before, last.key);
        }
    }
}

proof fn lemma_unverified_keys(list: RepoListView, registry: Seq<projects::ProjectView>)
    requires
        sessions::one_per_key(list.probes.sessions),
    ensures
        unverified_keys(list, registry).no_duplicates(),
        forall|k: Seq<char>| #[trigger]
            unverified_keys(list, registry).contains(k) ==> !projects::registered(registry, k),
{
    let all = unverified_keys(list, registry);
    let probing = probing_keys(list.probes.sessions, list.pending, registry);
    lemma_probing_keys(list.probes.sessions, list.pending, registry);
    match list.pending {
        Some(key) => {
            if !projects::registered(registry, key) {
                assert(all =~= seq![key] + probing);
                lemma_push_set(probing, key);
                assert forall|k: Seq<char>| #[trigger] all.contains(k) implies !projects::registered(
                    registry,
                    k,
                ) by {
                    if k != key {
                        let j = choose|j: int| 0 <= j < all.len() && all[j] == k;
                        assert(probing[j - 1] == k);
                        assert(probing.contains(k));
                    }
                }
            } else {
                assert(all =~= probing);
            }
        },
        None => {
            assert(all =~= probing);
        },
    }
}

/// No two rows of a list share a key.
pub proof fn rows_have_distinct_keys(
    list: RepoListView,
    registry: Seq<projects::ProjectView>,
    now: Stamp,
)
    requires
        sessions::one_per_key(list.probes.sessions),
        projects::distinct(registry),
    ensures
        row_keys(list_rows(list, registry, now)).no_duplicates(),
{
    let all = list_rows(list, registry, now);
    let names = row_keys(all);
    let extra = unverified_keys(list, registry);
    let count = registry.len() as int;
    lemma_unverified_keys(list, registry);
    assert forall|i: int| 0 <= i < names.len() implies #[trigger] names[i] == (if i < count {
        registry[i].path
    } else {
        extra[i - count]
    }) by {}
    assert forall|i: int, j: int| 0 <= i < names.len() && 0 <= j < names.len() && i != j implies names[i]
        != names[j] by {
        if i < count && j < count {
            if i < j {
                assert(registry[i].path != registry[j].path);
            } else {
                assert(registry[j].path != registry[i].path);
            }
        } else if i < count {
            assert(extra.contains(extra[j - count]));
            assert(registry[i].path == names[i]);
        } else if j < count {
            assert(extra.contains(extra[i - count]));
            assert(registry[j].path == names[j]);
        }
    }
}

/// Sorting rows keeps their keys distinct.
proof fn lemma_sorted_keys(
    entries: Seq<ListEntryView>,
    before: spec_fn(ListEntryView, ListEntryView) -> bool,
)
    requires
        entry_keys(entries).no_duplicates(),
    ensures
        entry_keys(order::stable_sort(entries, before)).no_duplicates(),
        forall|k: Seq<char>| #[trigger]
            entry_keys(order::stable_sort(entries, before)).contains(k) <==> entry_keys(
                entries,
            ).contains(k),
{
    let sorted = order::stable_sort(entries, before);
    let names = entry_keys(entries);
    let after = entry_keys(sorted);
    order::lemma_sort_items(entries, before);
    assert(entries.no_duplicates()) by {
        assert forall|i: int, j: int|
            0 <= i < entries.len() && 0 <= j < entries.len() && i != j implies entries[i]
            != entries[j] by {
            assert(names[i] != names[j]);
        }
    }
    assert forall|i: int, j: int| 0 <= i < after.len() && 0 <= j < after.len() && i != j implies after[i]
        != after[j] by {
        assert(sorted.contains(sorted[i]) && sorted.contains(sorted[j]));
        let a = choose|a: int| 0 <= a < entries.len() && entries[a] == sorted[i];
        let b = choose|b: int| 0 <= b < entries.len() && entries[b] == sorted[j];
        if after[i] == after[j] {
            assert(names[a] == names[b]);
            assert(a == b);
        }
    }
    assert forall|k: Seq<char>| #[trigger] after.contains(k) <==> names.contains(k) by {
        if after.contains(k) {
            let i = choose|i: int| 0 <= i < after.len() && after[i] == k;
            assert(sorted.contains(sorted[i]));
            let a = choose|a: int| 0 <= a < entries.len() && entries[a] == sorted[i];
            assert(names[a] == k);
        }
        if names.contains(k) {
            let a = choose|a: int| 0 <= a < names.len() && names[a] == k;
            assert(entries.contains(entries[a]));
            assert(sorted.contains(entries[a]));
            let i = choose|i: int| 0 <= i < sorted.len() && sorted[i] == entries[a];
            assert(after[i] == k);
        }
    }
}

/// What the rows show, before they are put in order.
pub open spec fn shown_entries(
    list: RepoListView,
    registry: Seq<projects::ProjectView>,
    readings: Seq<FsReadingView>,
    clock: u64,
    now: Stamp,
) -> Seq<ListEntryView> {
    list_rows(list, registry, now).map_values(
        |row: RowView|
            entry_of(list, readings, clock, unverified_keys(list, registry), row),
    )
}

proof fn lemma_launch_keys(
    list: RepoListView,
    registry: Seq<projects::ProjectView>,
    readings: Seq<FsReadingView>,
    clock: u64,
    now: Stamp,
)
    requires
        sessions::one_per_key(list.probes.sessions),
        projects::distinct(registry),
    ensures
        entry_keys(launch_entries(list, registry, readings, clock, now)).no_duplicates(),
        forall|k: Seq<char>| #[trigger]
            entry_keys(launch_entries(list, registry, readings, clock, now)).contains(k)
                <==> row_keys(list_rows(list, registry, now)).contains(k),
{
    let shown = shown_entries(list, registry, readings, clock, now);
    rows_have_distinct_keys(list, registry, now);
    assert(entry_keys(shown) =~= row_keys(list_rows(list, registry, now)));
    lemma_sorted_keys(shown, list_relation(None));
    let recent = order::stable_sort(shown, list_relation(None));
    lemma_sorted_keys(recent, list_relation(Some(projects::stored_order(registry))));
}

impl RepoList {
    /// The rows of the list, each with what it shows, before they are put in
    /// order.
    fn show_rows(
        &mut self,
        registry: &ProjectManagementModel,
        unverified: &Vec<String>,
        readings: &Vec<FsReading>,
        clock: u64,
        now: Stamp,
    ) -> (shown: Vec<RepoModeListEntry>)
        requires
            old(self).wf(),
            text::texts(unverified@) == unverified_keys(old(self)@, registry@),
        ensures
            final(self).wf(),
            entries_view(shown@) == shown_entries(
                old(self)@,
                registry@,
                readings_view(readings@),
                clock,
                now,
            ),
            final(self)@ == (RepoListView {
                fs_cache: cache_after(
                    old(self)@.fs_cache,
                    readings_view(readings@),
                    clock,
                    list_rows(old(self)@, registry@, now),
                ),
                ..old(self)@
            }),
    {
        let ghost list = self@;
        let ghost taken = readings_view(readings@);
        let ghost keys = text::texts(unverified@);
        let ghost all = list_rows(list, registry@, now);
        let ghost show = |row: RowView| entry_of(list, taken, clock, keys, row);
        let count = registry.projects.len();
        let mut shown: Vec<RepoModeListEntry> = Vec::new();
        let mut i: usize = 0;
        assert(entries_view(shown@) =~= all.take(0).map_values(show));
        assert(all.take(0) =~= Seq::<RowView>::empty());
        while i < count
            invariant
                i <= count,
                count == registry.projects@.len(),
                self.wf(),
                taken == readings_view(readings@),
                keys == text::texts(unverified@),
                keys == unverified_keys(list, registry@),
                all == list_rows(list, registry@, now),
                all.len() == count + keys.len(),
                show == (|row: RowView| entry_of(list, taken, clock, keys, row)),
                entries_view(shown@) == all.take(i as int).map_values(show),
                self@ == (RepoListView {
                    fs_cache: cache_after(list.fs_cache, taken, clock, all.take(i as int)),
                    ..list
                }),
            decreases count - i,
        {
            let project = &registry.projects[i];
            assert(all[i as int] == registry_row(registry@[i as int]));
            assert(registry@[i as int] == project@);
            let out = self.show_row(
                project.path.clone(),
                project.last_opened_ts,
                project.added_ts,
                unverified,
                readings,
                clock,
                Ghost(list),
                Ghost(all.take(i as int)),
            );
            assert(all.take(i + 1) =~= all.take(i as int).push(all[i as int]));
            assert(out@ == show(all[i as int]));
            let ghost before = entries_view(shown@);
            let ghost added = out@;
            shown.push(out);
            assert(entries_view(shown@) =~= before.push(added));
            assert(all.take(i + 1).map_values(show) =~= before.push(added));
            i += 1;
        }
        let mut j: usize = 0;
        while j < unverified.len()
            invariant
                j <= unverified@.len(),
                count == registry.projects@.len(),
                self.wf(),
                taken == readings_view(readings@),
                keys == text::texts(unverified@),
                keys == unverified_keys(list, registry@),
                all == list_rows(list, registry@, now),
                all.len() == count + keys.len(),
                show == (|row: RowView| entry_of(list, taken, clock, keys, row)),
                entries_view(shown@) == all.take(count + j).map_values(show),
                self@ == (RepoListView {
                    fs_cache: cache_after(list.fs_cache, taken, clock, all.take(count + j)),
                    ..list
                }),
            decreases unverified@.len() - j,
        {
            assert(all[count + j] == pending_row(keys[j as int], now));
            let out = self.show_row(
                unverified[j].clone(),
                Some(now),
                now,
                unverified,
                readings,
                clock,
                Ghost(list),
                Ghost(all.take(count + j)),
            );
            assert(all.take(count + j + 1) =~= all.take(count + j).push(all[count + j]));
            assert(out@ == show(all[count + j]));
            let ghost before = entries_view(shown@);
            let ghost added = out@;
            shown.push(out);
            assert(entries_view(shown@) =~= before.push(added));
            assert(all.take(count + j + 1).map_values(show) =~= before.push(added));
            j += 1;
        }
        assert(all.take(count + j) =~= all);
        shown
    }

    /// One row, with what the cache learns from drawing it behind `drawn`.
    fn show_row(
        &mut self,
        key: String,
        last_opened_ts: Option<Stamp>,
        added_ts: Stamp,
        unverified: &Vec<String>,
        readings: &Vec<FsReading>,
        clock: u64,
        list: Ghost<RepoListView>,
        drawn: Ghost<Seq<RowView>>,
    ) -> (out: RepoModeListEntry)
        requires
            old(self).wf(),
            old(self)@ == (RepoListView {
                fs_cache: cache_after(
                    list@.fs_cache,
                    readings_view(readings@),
                    clock,
                    drawn@,
                ),
                ..list@
            }),
        ensures
            final(self).wf(),
            out@ == entry_of(
                list@,
                readings_view(readings@),
                clock,
                text::texts(unverified@),
                (RowView { key: key@, last_opened_ts, added_ts }),
            ),
            final(self)@ == (RepoListView {
                fs_cache: cache_after(
                    list@.fs_cache,
                    readings_view(readings@),
                    clock,
                    drawn@.push((RowView { key: key@, last_opened_ts, added_ts })),
                ),
                ..list@
            }),
    {
        let ghost row = RowView { key: key@, last_opened_ts, added_ts };
        proof {
            assert(drawn@.push(row).drop_last() =~= drawn@);
            lemma_cache_is_transparent(
                list@.fs_cache,
                readings_view(readings@),
                clock,
                drawn@,
                key@,
            );
        }
        if is_remote_key(key.as_str()) {
            let is_unverified = holds(unverified, key.as_str());
            remote_list_entry(key, last_opened_ts, added_ts, &self.probes, is_unverified)
        } else {
            self.local_list_entry(key, last_opened_ts, added_ts, readings, clock)
        }
    }

    /// Ordered list for the section: the manual order when one exists, otherwise
    /// recency, re-sorted by this window's session pin.
    ///
    /// This is also where the per-window ordering state is kept up: it captures
    /// the session pin on first use and extends it with keys that have appeared
    /// since, records that this window has resolved a list against a stored
    /// order, retires the "shown connecting" mark of a key it has just placed in
    /// the pin, and cancels a row drag whose row has stopped being listed.
    ///
    /// `readings` are the filesystem readings of the keys that
    /// [`RepoList::fs_probe_keys`] asks for; `clock` is now on the clock of those
    /// readings, `now` the present instant.
    pub fn repo_mode_entries(
        &mut self,
        enabled: bool,
        registry: &ProjectManagementModel,
        readings: &Vec<FsReading>,
        clock: u64,
        now: Stamp,
    ) -> (entries: Vec<RepoModeListEntry>)
        requires
            old(self).wf(),
            registry.wf(),
        ensures
            final(self).wf(),
            !enabled ==> entries@.len() == 0 && final(self)@ == old(self)@,
            enabled ==> entries_view(entries@) == drawn_entries(
                old(self)@,
                registry@,
                readings_view(readings@),
                clock,
                now,
            ),
            enabled ==> final(self)@ == drawn_list(
                old(self)@,
                registry@,
                readings_view(readings@),
                clock,
                now,
            ),
    {
        if !enabled {
            return Vec::new();
        }
        let ghost list = self@;
        let ghost taken = readings_view(readings@);
        let ghost first = launch_entries(list, registry@, taken, clock, now);
        proof {
            lemma_launch_keys(list, registry@, taken, clock, now);
        }
        let unverified = self.unverified(registry);
        let stored = registry.stored_order();
        let shown = self.show_rows(registry, &unverified, readings, clock, now);
        let mut entries = sort_entries(shown, None);
        if stored.len() > 0 {
            self.saw_stored_order = true;
            entries = sort_entries(entries, Some(&stored));
        }
        assert(entries_view(entries@) == first);
        let mut marked = mark_shown(&self.projected_unverified, &unverified);
        let all = keys_of_entries(&entries);
        let mut pin = match self.launch_order.take() {
            Some(kept) => kept,
            None => keys_of_entries(&entries),
        };
        extend_pin(&mut pin, &mut marked, &all);
        let sorted = sort_entries(entries, Some(&pin));
        self.launch_order = Some(pin);
        self.projected_unverified = marked;
        let gone = match &self.row_drag {
            Some(drag) => !lists_path(&all, drag.path.as_str()),
            None => false,
        };
        if gone {
            self.row_drag = None;
        }
        sorted
    }
}

/// The keys marked as shown connecting, with `shown` among them.
fn mark_shown(marked: &Vec<String>, shown: &Vec<String>) -> (out: Vec<String>)
    requires
        text::texts(marked@).no_duplicates(),
    ensures
        text::texts(out@).no_duplicates(),
        text::texts(out@).to_set() == text::texts(marked@).to_set().union(
            text::texts(shown@).to_set(),
        ),
{
    let mut out = keys::copy_keys(marked);
    let ghost start = text::texts(marked@).to_set();
    let ghost keys = text::texts(shown@);
    let mut i: usize = 0;
    assert(keys.take(0).to_set() =~= Set::<Seq<char>>::empty());
    assert(text::texts(out@).to_set() =~= start.union(keys.take(0).to_set()));
    while i < shown.len()
        invariant
            i <= shown@.len(),
            keys == text::texts(shown@),
            text::texts(out@).no_duplicates(),
            text::texts(out@).to_set() == start.union(keys.take(i as int).to_set()),
        decreases shown@.len() - i,
    {
        let ghost before = text::texts(out@);
        let ghost key = shown@[i as int]@;
        proof {
            assert(keys.take(i + 1) =~= keys.take(i as int).push(key));
            lemma_push_set(keys.take(i as int), key);
            lemma_push_set(before, key);
        }
        if !holds(&out, shown[i].as_str()) {
            out.push(shown[i].clone());
            assert(text::texts(out@) =~= before.push(key));
        } else {
            assert(before.to_set().contains(key));
        }
        i += 1;
        assert(text::texts(out@).to_set() =~= start.union(keys.take(i as int).to_set()));
    }
    assert(keys.take(i as int) =~= keys);
    out
}

/// A given order is one to sort by.
proof fn lemma_given_relation(given: Seq<Seq<char>>)
    ensures
        order::weak_order(list_relation(Some(given))),
{
}

/// Every registered project and every key under verification has exactly one
/// row, and there is no other row.
pub proof fn list_is_complete(
    list: RepoListView,
    registry: Seq<projects::ProjectView>,
    readings: Seq<FsReadingView>,
    clock: u64,
    now: Stamp,
)
    requires
        sessions::one_per_key(list.probes.sessions),
        projects::distinct(registry),
    ensures
        entry_keys(drawn_entries(list, registry, readings, clock, now)).no_duplicates(),
        forall|k: Seq<char>| #[trigger]
            entry_keys(drawn_entries(list, registry, readings, clock, now)).contains(k)
                <==> projects::registered(registry, k) || unverified_keys(list, registry).contains(
                k,
            ),
{
    let first = launch_entries(list, registry, readings, clock, now);
    let pin = pin_after(list, registry, first).0;
    let all = list_rows(list, registry, now);
    let names = row_keys(all);
    let extra = unverified_keys(list, registry);
    let count = registry.len() as int;
    lemma_launch_keys(list, registry, readings, clock, now);
    lemma_sorted_keys(first, list_relation(Some(pin)));
    assert forall|k: Seq<char>| names.contains(k) <==> projects::registered(registry, k)
        || extra.contains(k) by {
        if projects::registered(registry, k) {
            let i = choose|i: int| 0 <= i < registry.len() && #[trigger] registry[i].path == k;
            assert(names[i] == k);
        }
        if extra.contains(k) {
            let i = choose|i: int| 0 <= i < extra.len() && extra[i] == k;
            assert(names[count + i] == k);
        }
        if names.contains(k) {
            let i = choose|i: int| 0 <= i < names.len() && names[i] == k;
            if i < count {
                assert(registry[i].path == k);
            } else {
                assert(extra[i - count] == k);
            }
        }
    }
    let drawn = drawn_entries(list, registry, readings, clock, now);
    assert forall|k: Seq<char>| #[trigger] entry_keys(drawn).contains(k)
        <==> projects::registered(registry, k) || extra.contains(k) by {
        assert(entry_keys(drawn).contains(k) <==> entry_keys(first).contains(k));
        assert(entry_keys(first).contains(k) <==> names.contains(k));
    }
}

proof fn lemma_no_probing_key(
    probes: Seq<sessions::SessionView>,
    pending: Option<Seq<char>>,
    registry: Seq<projects::ProjectView>,
    key: Seq<char>,
)
    requires
        forall|i: int|
            0 <= i < probes.len() && (#[trigger] probes[i]).key == key ==> !(probes[i].in_flight
                && probes[i].adding),
    ensures
        !probing_keys(probes, pending, registry).contains(key),
    decreases probes.len(),
{
    if probes.len() > 0 {
        let init = probes.drop_last();
        let before = probing_keys(init, pending, registry);
        let after = probing_keys(probes, pending, registry);
        assert forall|i: int| 0 <= i < init.len() && (#[trigger] init[i]).key == key implies !(
        init[i].in_flight && init[i].adding) by {
            assert(probes[i].key == key);
        }
        lemma_no_probing_key(init, pending, registry, key);
        if after.contains(key) {
            let j = choose|j: int| 0 <= j < after.len() && after[j] == key;
            if j < before.len() {
                assert(before[j] == key);
            } else {
                assert(probes[probes.len() - 1].key == key);
            }
        }
    }
}

/// Refreshing a row shows no key that is not there: a key that is neither
/// registered nor the one the form waits on has no row while no add has a probe
/// running for it, and a probe begun to refresh it changes nothing about that.
/// An entry that another window has removed stays away.
pub proof fn refreshing_brings_no_row_back(
    list: RepoListView,
    registry: Seq<projects::ProjectView>,
    readings: Seq<FsReadingView>,
    clock: u64,
    now: Stamp,
    key: Seq<char>,
)
    requires
        sessions::one_per_key(list.probes.sessions),
        projects::distinct(registry),
        !projects::registered(registry, key),
        list.pending != Some(key),
    ensures
        !(sessions::session_of(list.probes.sessions, key) matches Some(session)
            && session.in_flight && session.adding) ==> !entry_keys(
            drawn_entries(list, registry, readings, clock, now),
        ).contains(key),
        !entry_keys(
            drawn_entries(
                RepoListView { probes: list.probes.begun(key), ..list },
                registry,
                readings,
                clock,
                now,
            ),
        ).contains(key),
{
    let refreshed = RepoListView { probes: list.probes.begun(key), ..list };
    sessions::lemma_transitions(list.probes, key, key, probe::ProbeStateView::Pending);
    if !(sessions::session_of(list.probes.sessions, key) matches Some(session)
        && session.in_flight && session.adding) {
        lemma_no_row(list, registry, readings, clock, now, key);
    }
    lemma_no_row(refreshed, registry, readings, clock, now, key);
}

proof fn lemma_no_row(
    list: RepoListView,
    registry: Seq<projects::ProjectView>,
    readings: Seq<FsReadingView>,
    clock: u64,
    now: Stamp,
    key: Seq<char>,
)
    requires
        sessions::one_per_key(list.probes.sessions),
        projects::distinct(registry),
        !projects::registered(registry, key),
        list.pending != Some(key),
        !(sessions::session_of(list.probes.sessions, key) matches Some(session)
            && session.in_flight && session.adding),
    ensures
        !entry_keys(drawn_entries(list, registry, readings, clock, now)).contains(key),
{
    let probes = list.probes.sessions;
    let all = unverified_keys(list, registry);
    let probing = probing_keys(probes, list.pending, registry);
    sessions::lemma_session_pos(probes, key);
    assert forall|i: int| 0 <= i < probes.len() && (#[trigger] probes[i]).key == key implies !(
    probes[i].in_flight && probes[i].adding) by {
        let at = sessions::session_pos(probes, key);
        if i != at {
            assert(probes[i].key != probes[at].key);
        }
    }
    lemma_no_probing_key(probes, list.pending, registry, key);
    if all.contains(key) {
        let j = choose|j: int| 0 <= j < all.len() && all[j] == key;
        let led = all.len() - probing.len();
        if j >= led {
            assert(probing[j - led] == key);
        }
    }
    list_is_complete(list, registry, readings, clock, now);
}

/// As long as every add is the form's, the only row that is not registered is
/// that of the key the form waits on, and it is the only one that shows as being
/// verified.
pub proof fn only_the_form_waits(
    list: RepoListView,
    registry: Seq<projects::ProjectView>,
    readings: Seq<FsReadingView>,
    clock: u64,
    now: Stamp,
)
    requires
        sessions::one_per_key(list.probes.sessions),
        projects::distinct(registry),
        sessions::led_by(list.probes.sessions, list.pending),
    ensures
        forall|k: Seq<char>| #[trigger]
            entry_keys(drawn_entries(list, registry, readings, clock, now)).contains(k)
                <==> projects::registered(registry, k) || list.pending == Some(k),
        ({
            let drawn = drawn_entries(list, registry, readings, clock, now);
            forall|i: int|
                0 <= i < drawn.len() ==> ((#[trigger] drawn[i]).unverified <==> entry::names_remote(
                    drawn[i].path,
                ) && list.pending == Some(drawn[i].path) && !projects::registered(
                    registry,
                    drawn[i].path,
                ))
        }),
{
    let rows = drawn_entries(list, registry, readings, clock, now);
    let drawn = entry_keys(rows);
    list_is_complete(list, registry, readings, clock, now);
    sessions::lemma_led_by(list.probes.sessions, list.pending);
    assert forall|k: Seq<char>| #[trigger] drawn.contains(k) <==> projects::registered(registry, k)
        || list.pending == Some(k) by {
        if !projects::registered(registry, k) {
            if list.pending == Some(k) {
                assert(unverified_keys(list, registry)[0] == k);
            } else {
                lemma_no_row(list, registry, readings, clock, now, k);
            }
        }
    }
    let unverified = unverified_keys(list, registry);
    let shown = shown_entries(list, registry, readings, clock, now);
    let recent = order::stable_sort(shown, list_relation(None));
    let first = launch_entries(list, registry, readings, clock, now);
    lemma_unverified_keys(list, registry);
    order::lemma_sort_items(shown, list_relation(None));
    order::lemma_sort_items(recent, list_relation(Some(projects::stored_order(registry))));
    order::lemma_sort_items(first, list_relation(Some(pin_after(list, registry, first).0)));
    assert forall|i: int| 0 <= i < rows.len() implies ((#[trigger] rows[i]).unverified
        <==> entry::names_remote(rows[i].path) && list.pending == Some(rows[i].path)
        && !projects::registered(registry, rows[i].path)) by {
        let key = rows[i].path;
        assert(drawn[i] == key);
        assert(drawn.contains(key));
        assert(rows.contains(rows[i]));
        assert(first.contains(rows[i]));
        assert(recent.contains(rows[i]));
        assert(shown.contains(rows[i]));
        let a = choose|a: int| 0 <= a < shown.len() && shown[a] == rows[i];
        lemma_shown(list, registry, readings, clock, now, a);
        if list.pending == Some(key) && !projects::registered(registry, key) {
            assert(unverified[0] == key);
        }
    }
}

/// A row that is still being verified stands above every row that is not,
/// whatever order the others are in.
pub proof fn unverified_rows_lead(
    list: RepoListView,
    registry: Seq<projects::ProjectView>,
    readings: Seq<FsReadingView>,
    clock: u64,
    now: Stamp,
)
    ensures
        ({
            let drawn = drawn_entries(list, registry, readings, clock, now);
            forall|i: int, j: int|
                0 <= i < j < drawn.len() && (#[trigger] drawn[j]).unverified ==> (
                #[trigger] drawn[i]).unverified
        }),
{
    let first = launch_entries(list, registry, readings, clock, now);
    let pin = pin_after(list, registry, first).0;
    let relation = list_relation(Some(pin));
    let drawn = drawn_entries(list, registry, readings, clock, now);
    lemma_given_relation(pin);
    order::sort_orders(first, relation);
    assert forall|i: int, j: int|
        0 <= i < j < drawn.len() && (#[trigger] drawn[j]).unverified implies (
    #[trigger] drawn[i]).unverified by {
        assert(!relation(drawn[j], drawn[i]));
        keys::lemma_key_pos(pin, drawn[i].path);
    }
}

/// The order of keys in a pin.
spec fn pin_order(pin: Seq<Seq<char>>) -> spec_fn(Seq<char>, Seq<char>) -> bool {
    |a: Seq<char>, b: Seq<char>| keys::key_pos(pin, a) < keys::key_pos(pin, b)
}

proof fn lemma_filter_members(pin: Seq<Seq<char>>, keep: spec_fn(Seq<char>) -> bool)
    requires
        pin.no_duplicates(),
    ensures
        pin.filter(keep).no_duplicates(),
        forall|k: Seq<char>| #[trigger]
            pin.filter(keep).contains(k) <==> pin.contains(k) && keep(k),
    decreases pin.len(),
{
    reveal(Seq::filter);
    let kept = pin.filter(keep);
    if pin.len() > 0 {
        let init = pin.drop_last();
        let last = pin.last();
        let inner = init.filter(keep);
        lemma_filter_members(init, keep);
        assert(pin =~= init.push(last));
        assert(!init.contains(last)) by {
            if init.contains(last) {
                let j = choose|j: int| 0 <= j < init.len() && init[j] == last;
                assert(pin[j] == pin[pin.len() - 1]);
            }
        }
        lemma_push_set(init, last);
        lemma_push_set(inner, last);
        assert forall|k: Seq<char>| pin.contains(k) <==> init.contains(k) || k == last by {
            assert(pin.to_set().contains(k) <==> init.to_set().insert(last).contains(k));
        }
        if keep(last) {
            assert(kept == inner.push(last));
            assert forall|k: Seq<char>| #[trigger] kept.contains(k) <==> inner.contains(k) || k
                == last by {
                assert(kept.to_set().contains(k) <==> inner.to_set().insert(last).contains(k));
            }
        } else {
            assert(kept == inner);
        }
    }
}

proof fn lemma_key_pos_prefix(pin: Seq<Seq<char>>, key: Seq<char>)
    requires
        pin.len() > 0,
        pin.drop_last().contains(key),
    ensures
        keys::key_pos(pin, key) == keys::key_pos(pin.drop_last(), key),
{
    let init = pin.drop_last();
    keys::lemma_key_pos(init, key);
    let at = keys::key_pos(init, key);
    assert forall|j: int| 0 <= j < at implies pin[j] != key by {
        assert(init[j] == pin[j]);
    }
    keys::lemma_key_pos_unique(pin, key, at);
}

proof fn lemma_filter_follows_pin(pin: Seq<Seq<char>>, keep: spec_fn(Seq<char>) -> bool)
    requires
        pin.no_duplicates(),
    ensures
        order::is_ordered(pin.filter(keep), pin_order(pin)),
    decreases pin.len(),
{
    reveal(Seq::filter);
    let kept = pin.filter(keep);
    if pin.len() > 0 {
        let init = pin.drop_last();
        let last = pin.last();
        let inner = init.filter(keep);
        lemma_filter_follows_pin(init, keep);
        lemma_filter_members(init, keep);
        assert(!init.contains(last)) by {
            if init.contains(last) {
                let j = choose|j: int| 0 <= j < init.len() && init[j] == last;
                assert(pin[j] == pin[pin.len() - 1]);
            }
        }
        assert forall|j: int| 0 <= j < pin.len() - 1 implies pin[j] != last by {
            assert(init[j] == pin[j]);
        }
        keys::lemma_key_pos_unique(pin, last, pin.len() - 1);
        assert forall|i: int, j: int| 0 <= i < j < kept.len() implies !pin_order(pin)(
            kept[j],
            kept[i],
        ) by {
            assert(kept[i] == inner[i]);
            assert(inner.contains(inner[i]));
            lemma_key_pos_prefix(pin, kept[i]);
            keys::lemma_key_pos(init, kept[i]);
            if j < inner.len() {
                assert(kept[j] == inner[j]);
                assert(inner.contains(inner[j]));
                lemma_key_pos_prefix(pin, kept[j]);
                assert(!pin_order(init)(inner[j], inner[i]));
            }
        }
    }
}

proof fn lemma_pin_holds_all(pin: Seq<Seq<char>>, marked: Set<Seq<char>>, all: Seq<Seq<char>>)
    requires
        pin.no_duplicates(),
    ensures
        pin_extended(pin, marked, all).0.no_duplicates(),
        forall|k: Seq<char>| #[trigger]
            pin_extended(pin, marked, all).0.contains(k) <==> pin.contains(k) || all.contains(k),
    decreases all.len(),
{
    let after = pin_extended(pin, marked, all);
    if all.len() > 0 {
        let init = all.drop_last();
        let last = all.last();
        let before = pin_extended(pin, marked, init);
        lemma_pin_holds_all(pin, marked, init);
        lemma_push_set(before.0, last);
        lemma_push_set(init, last);
        assert(all =~= init.push(last));
        assert forall|k: Seq<char>| #[trigger] after.0.contains(k) <==> pin.contains(k)
            || all.contains(k) by {
            assert(all.to_set().contains(k) <==> init.to_set().insert(last).contains(k));
            assert(before.0.contains(k) <==> pin.contains(k) || init.contains(k));
            if !before.0.contains(last) {
                assert(after.0.to_set().contains(k) <==> before.0.to_set().insert(last).contains(
                    k,
                ));
            }
        }
    } else {
        assert(all =~= Seq::<Seq<char>>::empty());
    }
}

/// Once no row is under verification, the window renders its pin and nothing
/// else: the rows stand in the order of the pin, whatever recency and the stored
/// order say.
pub proof fn list_renders_the_pin(
    list: RepoListView,
    registry: Seq<projects::ProjectView>,
    readings: Seq<FsReadingView>,
    clock: u64,
    now: Stamp,
)
    requires
        sessions::one_per_key(list.probes.sessions),
        projects::distinct(registry),
        list.pin matches Some(pin) ==> pin.no_duplicates(),
        unverified_keys(list, registry).len() == 0,
    ensures
        ({
            let drawn = entry_keys(drawn_entries(list, registry, readings, clock, now));
            let pin = drawn_list(list, registry, readings, clock, now).pin->0;
            drawn == pin.filter(|k: Seq<char>| projects::registered(registry, k))
        }),
{
    let first = launch_entries(list, registry, readings, clock, now);
    let marked = list.projected.union(unverified_keys(list, registry).to_set());
    let start = match list.pin {
        Some(kept) => kept,
        None => entry_keys(first),
    };
    let pin = pin_after(list, registry, first).0;
    let drawn = drawn_entries(list, registry, readings, clock, now);
    let names = entry_keys(drawn);
    let keep = |k: Seq<char>| projects::registered(registry, k);
    let wanted = pin.filter(keep);
    lemma_launch_keys(list, registry, readings, clock, now);
    lemma_pin_holds_all(start, marked, entry_keys(first));
    list_is_complete(list, registry, readings, clock, now);
    lemma_sorted_keys(first, list_relation(Some(pin)));
    lemma_given_relation(pin);
    order::sort_orders(first, list_relation(Some(pin)));
    order::lemma_sort_items(first, list_relation(Some(pin)));
    lemma_no_unverified(list, registry, readings, clock, now);
    lemma_filter_members(pin, keep);
    lemma_filter_follows_pin(pin, keep);
    assert(unverified_keys(list, registry) =~= Seq::<Seq<char>>::empty());
    assert forall|k: Seq<char>| #[trigger] names.contains(k) <==> wanted.contains(k) by {
        assert(names.contains(k) <==> entry_keys(first).contains(k));
        assert(names.contains(k) <==> projects::registered(registry, k));
    }
    order::lemma_same_items(names, wanted);
    assert(order::is_ordered(names, pin_order(pin))) by {
        assert forall|i: int, j: int| 0 <= i < j < names.len() implies !pin_order(pin)(
            names[j],
            names[i],
        ) by {
            assert(!list_relation(Some(pin))(drawn[j], drawn[i]));
            assert(drawn.contains(drawn[i]) && drawn.contains(drawn[j]));
            assert(first.contains(drawn[i]) && first.contains(drawn[j]));
        }
    }
    assert(order::decides(names, pin_order(pin))) by {
        assert forall|x: Seq<char>, y: Seq<char>|
            #![trigger names.contains(x), names.contains(y)]
            names.contains(x) && names.contains(y) && x != y implies pin_order(pin)(x, y)
            || pin_order(pin)(y, x) by {
            assert(wanted.contains(x) && wanted.contains(y));
            keys::lemma_key_pos(pin, x);
            keys::lemma_key_pos(pin, y);
        }
    }
    order::ordered_lists_agree(names, wanted, pin_order(pin));
}

proof fn lemma_no_unverified(
    list: RepoListView,
    registry: Seq<projects::ProjectView>,
    readings: Seq<FsReadingView>,
    clock: u64,
    now: Stamp,
)
    requires
        unverified_keys(list, registry).len() == 0,
    ensures
        forall|e: ListEntryView| #[trigger]
            launch_entries(list, registry, readings, clock, now).contains(e) ==> !e.unverified,
{
    let shown = shown_entries(list, registry, readings, clock, now);
    let recent = order::stable_sort(shown, list_relation(None));
    let first = launch_entries(list, registry, readings, clock, now);
    order::lemma_sort_items(shown, list_relation(None));
    order::lemma_sort_items(
        recent,
        list_relation(Some(projects::stored_order(registry))),
    );
    assert forall|e: ListEntryView| #[trigger] first.contains(e) implies !e.unverified by {
        assert(recent.contains(e));
        assert(shown.contains(e));
        let i = choose|i: int| 0 <= i < shown.len() && shown[i] == e;
        assert(unverified_keys(list, registry) =~= Seq::<Seq<char>>::empty());
    }
}

proof fn lemma_joins_in_front(
    pin: Seq<Seq<char>>,
    marked: Set<Seq<char>>,
    all: Seq<Seq<char>>,
    key: Seq<char>,
    other: Seq<char>,
)
    requires
        pin.no_duplicates(),
        marked.contains(key),
        !pin.contains(key),
        pin.contains(other),
    ensures
        ({
            let after = pin_extended(pin, marked, all);
            &&& after.0.contains(other)
            &&& !after.0.contains(key) ==> after.1.contains(key)
            &&& after.0.contains(key) ==> keys::key_pos(after.0, key) < keys::key_pos(after.0, other)
        }),
    decreases all.len(),
{
    if all.len() > 0 {
        let init = all.drop_last();
        let last = all.last();
        let (before, still) = pin_extended(pin, marked, init);
        lemma_joins_in_front(pin, marked, init, key, other);
        lemma_pin_holds_all(pin, marked, init);
        if !before.contains(last) {
            keys::lemma_key_pos(before, key);
            keys::lemma_key_pos(before, other);
            if still.contains(last) {
                let after = seq![last] + before;
                assert(after.skip(1) =~= before);
                assert(after[1 + keys::key_pos(before, other)] == other);
                keys::lemma_key_pos(after, key);
            } else {
                let after = before.push(last);
                keys::lemma_key_pos_unique(after, other, keys::key_pos(before, other));
                assert(after[keys::key_pos(before, other)] == other);
                keys::lemma_key_pos(after, key);
                if before.contains(key) {
                    keys::lemma_key_pos_unique(after, key, keys::key_pos(before, key));
                } else {
                    assert(last != key);
                }
            }
        }
    }
}

/// A row that this window shows connecting joins the session's order in front of
/// every row that was there, so that it does not jump away under the user once
/// it has connected.
pub proof fn connecting_row_joins_in_front(
    list: RepoListView,
    registry: Seq<projects::ProjectView>,
    readings: Seq<FsReadingView>,
    clock: u64,
    now: Stamp,
    key: Seq<char>,
    other: Seq<char>,
)
    requires
        sessions::one_per_key(list.probes.sessions),
        projects::distinct(registry),
        unverified_keys(list, registry).contains(key),
        list.pin is Some,
        list.pin->0.no_duplicates(),
        !list.pin->0.contains(key),
        list.pin->0.contains(other),
    ensures
        ({
            let pin = drawn_list(list, registry, readings, clock, now).pin->0;
            &&& pin.contains(key)
            &&& pin.contains(other)
            &&& keys::key_pos(pin, key) < keys::key_pos(pin, other)
        }),
{
    let first = launch_entries(list, registry, readings, clock, now);
    let marked = list.projected.union(unverified_keys(list, registry).to_set());
    let drawn = drawn_entries(list, registry, readings, clock, now);
    let pin = pin_after(list, registry, first).0;
    list_is_complete(list, registry, readings, clock, now);
    lemma_launch_keys(list, registry, readings, clock, now);
    lemma_sorted_keys(first, list_relation(Some(pin)));
    assert(entry_keys(drawn).contains(key));
    lemma_joins_in_front(list.pin->0, marked, entry_keys(first), key, other);
    lemma_pin_holds_all(list.pin->0, marked, entry_keys(first));
}

proof fn lemma_pin_settled(pin: Seq<Seq<char>>, marked: Set<Seq<char>>, all: Seq<Seq<char>>)
    requires
        forall|i: int| 0 <= i < all.len() ==> pin.contains(#[trigger] all[i]),
    ensures
        pin_extended(pin, marked, all) == (pin, marked),
    decreases all.len(),
{
    if all.len() > 0 {
        let init = all.drop_last();
        assert forall|i: int| 0 <= i < init.len() implies pin.contains(#[trigger] init[i]) by {
            assert(init[i] == all[i]);
        }
        lemma_pin_settled(pin, marked, init);
        assert(pin.contains(all[all.len() - 1]));
    }
}

proof fn lemma_recency_relation()
    ensures
        order::weak_order(list_relation(None)),
{
    let before = list_relation(None);
    assert forall|a: ListEntryView, b: ListEntryView| #[trigger] before(a, b) implies !before(
        b,
        a,
    ) by {
        order::text_order_is_total(a.display_name, b.display_name);
    }
    assert forall|a: ListEntryView, b: ListEntryView, c: ListEntryView|
        !(#[trigger] before(a, b)) && !(#[trigger] before(b, c)) implies !before(a, c) by {
        let (x, y, z) = (a.display_name, b.display_name, c.display_name);
        order::text_order_is_total(x, y);
        order::text_order_is_total(y, z);
        order::text_order_is_total(x, z);
        if order::text_before(z, y) && order::text_before(y, x) {
            order::text_order_chains(z, y, x);
        }
    }
}

/// A filter keeps two items in the order they are in.
proof fn lemma_filter_order<T>(items: Seq<T>, keep: spec_fn(T) -> bool, i: int, j: int)
    requires
        0 <= i < j < items.len(),
        keep(items[i]),
        keep(items[j]),
    ensures
        exists|a: int, b: int|
            0 <= a < b < items.filter(keep).len() && #[trigger] items.filter(keep)[a] == items[i]
                && #[trigger] items.filter(keep)[b] == items[j],
    decreases items.len(),
{
    reveal(Seq::filter);
    let init = items.drop_last();
    let inner = init.filter(keep);
    let kept = items.filter(keep);
    if j < init.len() {
        lemma_filter_order(init, keep, i, j);
        let (a, b) = choose|a: int, b: int|
            0 <= a < b < inner.len() && #[trigger] inner[a] == init[i] && #[trigger] inner[b]
                == init[j];
        assert(kept[a] == items[i] && kept[b] == items[j]);
    } else {
        lemma_filter_holds(init, keep, i);
        let a = choose|a: int| 0 <= a < inner.len() && inner[a] == init[i];
        assert(kept[a] == items[i] && kept[inner.len() as int] == items[j]);
    }
}

proof fn lemma_filter_holds<T>(items: Seq<T>, keep: spec_fn(T) -> bool, i: int)
    requires
        0 <= i < items.len(),
        keep(items[i]),
    ensures
        exists|a: int| 0 <= a < items.filter(keep).len() && items.filter(keep)[a] == items[i],
    decreases items.len(),
{
    reveal(Seq::filter);
    let init = items.drop_last();
    let inner = init.filter(keep);
    let kept = items.filter(keep);
    if i < init.len() {
        lemma_filter_holds(init, keep, i);
        let a = choose|a: int| 0 <= a < inner.len() && inner[a] == init[i];
        assert(kept[a] == items[i]);
    } else {
        assert(kept[inner.len() as int] == items[i]);
    }
}

/// Two items that passed a filter stood in that order before.
proof fn lemma_filter_source<T>(items: Seq<T>, keep: spec_fn(T) -> bool, a: int, b: int)
    requires
        0 <= a < b < items.filter(keep).len(),
    ensures
        exists|i: int, j: int|
            0 <= i < j < items.len() && #[trigger] items[i] == items.filter(keep)[a]
                && #[trigger] items[j] == items.filter(keep)[b],
    decreases items.len(),
{
    reveal(Seq::filter);
    let init = items.drop_last();
    let inner = init.filter(keep);
    let kept = items.filter(keep);
    if b < inner.len() {
        lemma_filter_source(init, keep, a, b);
        let (i, j) = choose|i: int, j: int|
            0 <= i < j < init.len() && #[trigger] init[i] == inner[a] && #[trigger] init[j]
                == inner[b];
        assert(items[i] == kept[a] && items[j] == kept[b]);
    } else {
        lemma_filter_found(init, keep, a);
        let i = choose|i: int| 0 <= i < init.len() && init[i] == inner[a];
        assert(items[i] == kept[a] && items[items.len() - 1] == kept[b]);
    }
}

proof fn lemma_filter_found<T>(items: Seq<T>, keep: spec_fn(T) -> bool, a: int)
    requires
        0 <= a < items.filter(keep).len(),
    ensures
        exists|i: int| 0 <= i < items.len() && items[i] == items.filter(keep)[a],
    decreases items.len(),
{
    reveal(Seq::filter);
    let init = items.drop_last();
    let inner = init.filter(keep);
    let kept = items.filter(keep);
    if a < inner.len() {
        lemma_filter_found(init, keep, a);
        let i = choose|i: int| 0 <= i < init.len() && init[i] == inner[a];
        assert(items[i] == kept[a]);
    } else {
        assert(items[items.len() - 1] == kept[a]);
    }
}

/// Two items that a run and another one filter alike stand in one order in both.
proof fn lemma_same_order<T>(from: Seq<T>, to: Seq<T>, keep: spec_fn(T) -> bool, i: int, j: int)
    requires
        from.filter(keep) == to.filter(keep),
        0 <= i < j < from.len(),
        keep(from[i]),
        keep(from[j]),
    ensures
        exists|a: int, b: int|
            0 <= a < b < to.len() && #[trigger] to[a] == from[i] && #[trigger] to[b] == from[j],
{
    lemma_filter_order(from, keep, i, j);
    let kept = from.filter(keep);
    let (a, b) = choose|a: int, b: int|
        0 <= a < b < kept.len() && #[trigger] kept[a] == from[i] && #[trigger] kept[b] == from[j];
    lemma_filter_source(to, keep, a, b);
}

/// Whether the row of `key` leads the list as one under verification.
spec fn leads(unverified: Seq<Seq<char>>, key: Seq<char>) -> bool {
    entry::names_remote(key) && unverified.contains(key)
}

/// The name the row of a remote key shows.
spec fn remote_name(key: Seq<char>) -> Seq<char> {
    match entry::parsed_key(key) {
        Some(target) => target.display_name(),
        None => "Unreadable entry"@,
    }
}

/// The order of keys on screen: those under verification lead, by name and then
/// as they are verified; the others follow the pin.
spec fn screen_order(pin: Seq<Seq<char>>, unverified: Seq<Seq<char>>) -> spec_fn(
    Seq<char>,
    Seq<char>,
) -> bool {
    |a: Seq<char>, b: Seq<char>|
        if leads(unverified, a) && leads(unverified, b) {
            order::text_before(remote_name(a), remote_name(b)) || (remote_name(a) == remote_name(b)
                && keys::key_pos(unverified, a) < keys::key_pos(unverified, b))
        } else if leads(unverified, a) || leads(unverified, b) {
            leads(unverified, a)
        } else {
            keys::key_pos(pin, a) < keys::key_pos(pin, b)
        }
}

proof fn lemma_screen_order(pin: Seq<Seq<char>>, unverified: Seq<Seq<char>>)
    ensures
        order::weak_order(screen_order(pin, unverified)),
{
    let before = screen_order(pin, unverified);
    assert forall|a: Seq<char>, b: Seq<char>| #[trigger] before(a, b) implies !before(b, a) by {
        order::text_order_is_total(remote_name(a), remote_name(b));
    }
    assert forall|a: Seq<char>, b: Seq<char>, c: Seq<char>|
        !(#[trigger] before(a, b)) && !(#[trigger] before(b, c)) implies !before(a, c) by {
        let (x, y, z) = (remote_name(a), remote_name(b), remote_name(c));
        order::text_order_is_total(x, y);
        order::text_order_is_total(y, z);
        order::text_order_is_total(x, z);
        if order::text_before(z, y) && order::text_before(y, x) {
            order::text_order_chains(z, y, x);
        }
    }
}

/// What the rows of a list hold, whatever order they are in.
proof fn lemma_shown(
    list: RepoListView,
    registry: Seq<projects::ProjectView>,
    readings: Seq<FsReadingView>,
    clock: u64,
    now: Stamp,
    i: int,
)
    requires
        sessions::one_per_key(list.probes.sessions),
        projects::distinct(registry),
        0 <= i < shown_entries(list, registry, readings, clock, now).len(),
    ensures
        ({
            let unverified = unverified_keys(list, registry);
            let row = shown_entries(list, registry, readings, clock, now)[i];
            let count = registry.len() as int;
            &&& row.unverified == leads(unverified, row.path)
            &&& row.unverified ==> {
                &&& row.display_name == remote_name(row.path)
                &&& row.last_opened_ts == Some(now)
                &&& row.added_ts == now
                &&& count <= i < count + unverified.len()
                &&& row.path == unverified[i - count]
                &&& keys::key_pos(unverified, row.path) == i - count
            }
        }),
{
    let unverified = unverified_keys(list, registry);
    let all = list_rows(list, registry, now);
    let row = shown_entries(list, registry, readings, clock, now)[i];
    let count = registry.len() as int;
    lemma_unverified_keys(list, registry);
    if i < count {
        assert(all[i] == registry_row(registry[i]));
        assert(projects::registered(registry, row.path)) by {
            assert(registry[i].path == row.path);
        }
    } else {
        assert(all[i] == pending_row(unverified[i - count], now));
        assert forall|j: int| 0 <= j < i - count implies unverified[j] != row.path by {}
        keys::lemma_key_pos_unique(unverified, row.path, i - count);
    }
}

/// The rows on screen stand in [`screen_order`].
proof fn lemma_drawn_in_screen_order(
    list: RepoListView,
    registry: Seq<projects::ProjectView>,
    readings: Seq<FsReadingView>,
    clock: u64,
    now: Stamp,
)
    requires
        sessions::one_per_key(list.probes.sessions),
        projects::distinct(registry),
    ensures
        ({
            let first = launch_entries(list, registry, readings, clock, now);
            order::is_ordered(
                entry_keys(drawn_entries(list, registry, readings, clock, now)),
                screen_order(
                    pin_after(list, registry, first).0,
                    unverified_keys(list, registry),
                ),
            )
        }),
{
    let unverified = unverified_keys(list, registry);
    let shown = shown_entries(list, registry, readings, clock, now);
    let recent = order::stable_sort(shown, list_relation(None));
    let stored = projects::stored_order(registry);
    let first = launch_entries(list, registry, readings, clock, now);
    let pin = pin_after(list, registry, first).0;
    let drawn = drawn_entries(list, registry, readings, clock, now);
    let names = entry_keys(drawn);
    let before = screen_order(pin, unverified);
    lemma_given_relation(pin);
    lemma_recency_relation();
    order::sort_orders(first, list_relation(Some(pin)));
    order::sort_orders(shown, list_relation(None));
    order::lemma_sort_items(shown, list_relation(None));
    order::lemma_sort_items(recent, list_relation(Some(stored)));
    order::lemma_sort_items(first, list_relation(Some(pin)));
    assert forall|i: int, j: int| 0 <= i < j < names.len() implies !before(names[j], names[i]) by {
        let (x, y) = (drawn[i], drawn[j]);
        assert(drawn.contains(x) && drawn.contains(y));
        assert(first.contains(x) && first.contains(y));
        assert(recent.contains(x) && recent.contains(y));
        assert(shown.contains(x) && shown.contains(y));
        let a = choose|a: int| 0 <= a < shown.len() && shown[a] == x;
        let b = choose|b: int| 0 <= b < shown.len() && shown[b] == y;
        lemma_shown(list, registry, readings, clock, now, a);
        lemma_shown(list, registry, readings, clock, now, b);
        keys::lemma_key_pos(pin, x.path);
        keys::lemma_key_pos(pin, y.path);
        assert(!list_relation(Some(pin))(y, x));
        if x.unverified && y.unverified {
            let marked = |e: ListEntryView| e.unverified;
            order::sort_is_stable(first, list_relation(Some(pin)), marked);
            order::sort_is_stable(recent, list_relation(Some(stored)), marked);
            lemma_same_order(drawn, recent, marked, i, j);
            let (k, l) = choose|k: int, l: int|
                0 <= k < l < recent.len() && #[trigger] recent[k] == x && #[trigger] recent[l]
                    == y;
            assert(!list_relation(None)(recent[l], recent[k]));
            if x.display_name == y.display_name {
                let name = x.display_name;
                let alike = |e: ListEntryView|
                    e.unverified && e.display_name == name && e.last_opened_ts == Some(now)
                        && e.added_ts == now;
                order::text_order_is_total(name, name);
                order::sort_is_stable(shown, list_relation(None), alike);
                lemma_same_order(recent, shown, alike, k, l);
                let (c, d) = choose|c: int, d: int|
                    0 <= c < d < shown.len() && #[trigger] shown[c] == x && #[trigger] shown[d]
                        == y;
                lemma_shown(list, registry, readings, clock, now, c);
                lemma_shown(list, registry, readings, clock, now, d);
            }
        }
    }
}

proof fn lemma_same_probing(
    probes: Seq<sessions::SessionView>,
    pending: Option<Seq<char>>,
    before: Seq<projects::ProjectView>,
    after: Seq<projects::ProjectView>,
)
    requires
        forall|k: Seq<char>|
            projects::registered(before, k) <==> #[trigger] projects::registered(after, k),
    ensures
        probing_keys(probes, pending, before) == probing_keys(probes, pending, after),
    decreases probes.len(),
{
    if probes.len() > 0 {
        lemma_same_probing(probes.drop_last(), pending, before, after);
        assert(projects::registered(before, probes.last().key) <==> projects::registered(
            after,
            probes.last().key,
        ));
    }
}

/// Using repositories, or a manual order that another window writes, moves no
/// row of a window that has drawn its list: drawn again from a registry that
/// holds the same keys, whenever that is, the list has the same rows in the same
/// order, and the window keeps its pin. That holds while a form is waiting, too.
pub proof fn recency_moves_no_row(
    list: RepoListView,
    before: Seq<projects::ProjectView>,
    readings: Seq<FsReadingView>,
    clock: u64,
    now: Stamp,
    after: Seq<projects::ProjectView>,
    later_readings: Seq<FsReadingView>,
    later_clock: u64,
    later_now: Stamp,
)
    requires
        sessions::one_per_key(list.probes.sessions),
        projects::distinct(before),
        projects::distinct(after),
        list.pin matches Some(pin) ==> pin.no_duplicates(),
        forall|k: Seq<char>|
            projects::registered(before, k) <==> #[trigger] projects::registered(after, k),
    ensures
        ({
            let drawn = drawn_list(list, before, readings, clock, now);
            &&& entry_keys(drawn_entries(drawn, after, later_readings, later_clock, later_now))
                == entry_keys(drawn_entries(list, before, readings, clock, now))
            &&& drawn_list(drawn, after, later_readings, later_clock, later_now).pin == drawn.pin
        }),
{
    let drawn = drawn_list(list, before, readings, clock, now);
    let pin = drawn.pin->0;
    let unverified = unverified_keys(list, before);
    let first = launch_entries(list, before, readings, clock, now);
    let start = match list.pin {
        Some(kept) => kept,
        None => entry_keys(first),
    };
    lemma_same_probing(list.probes.sessions, list.pending, before, after);
    if let Some(key) = list.pending {
        assert(projects::registered(before, key) <==> projects::registered(after, key));
    }
    assert(unverified_keys(drawn, after) == unverified);

    // The pin holds every key, so that none joins it.
    lemma_launch_keys(list, before, readings, clock, now);
    lemma_pin_holds_all(start, list.projected.union(unverified.to_set()), entry_keys(first));
    let again = launch_entries(drawn, after, later_readings, later_clock, later_now);
    let names = entry_keys(drawn_entries(list, before, readings, clock, now));
    let later_names = entry_keys(
        drawn_entries(drawn, after, later_readings, later_clock, later_now),
    );
    list_is_complete(list, before, readings, clock, now);
    list_is_complete(drawn, after, later_readings, later_clock, later_now);
    lemma_sorted_keys(first, list_relation(Some(pin)));
    lemma_launch_keys(drawn, after, later_readings, later_clock, later_now);
    lemma_sorted_keys(
        again,
        list_relation(Some(pin_after(drawn, after, again).0)),
    );
    assert forall|k: Seq<char>| #[trigger] names.contains(k) <==> later_names.contains(k) by {
        assert(projects::registered(before, k) <==> projects::registered(after, k));
    }
    assert forall|i: int| 0 <= i < entry_keys(again).len() implies pin.contains(
        #[trigger] entry_keys(again)[i],
    ) by {
        let key = entry_keys(again)[i];
        assert(entry_keys(again).contains(key));
        assert(later_names.contains(key));
        assert(names.contains(key));
        assert(entry_keys(first).contains(key));
    }
    lemma_pin_settled(pin, drawn.projected.union(unverified.to_set()), entry_keys(again));

    // Both lists stand in the order that the pin and the keys under verification
    // give, and there is one such list.
    lemma_drawn_in_screen_order(list, before, readings, clock, now);
    lemma_drawn_in_screen_order(drawn, after, later_readings, later_clock, later_now);
    lemma_screen_order(pin, unverified);
    order::lemma_same_items(names, later_names);
    assert(order::decides(names, screen_order(pin, unverified))) by {
        assert forall|x: Seq<char>, y: Seq<char>|
            #![trigger names.contains(x), names.contains(y)]
            names.contains(x) && names.contains(y) && x != y implies screen_order(pin, unverified)(
            x,
            y,
        ) || screen_order(pin, unverified)(y, x) by {
            assert(entry_keys(first).contains(x) && entry_keys(first).contains(y));
            keys::lemma_key_pos(pin, x);
            keys::lemma_key_pos(pin, y);
            keys::lemma_key_pos(unverified, x);
            keys::lemma_key_pos(unverified, y);
            order::text_order_is_total(remote_name(x), remote_name(y));
        }
    }
    order::ordered_lists_agree(names, later_names, screen_order(pin, unverified));
}

/// Which row of the list shows a registered project, and what it is.
proof fn lemma_registered_row(
    list: RepoListView,
    registry: Seq<projects::ProjectView>,
    readings: Seq<FsReadingView>,
    clock: u64,
    now: Stamp,
    i: int,
    a: int,
)
    requires
        sessions::one_per_key(list.probes.sessions),
        projects::distinct(registry),
        0 <= i < drawn_entries(list, registry, readings, clock, now).len(),
        0 <= a < registry.len(),
        registry[a].path == drawn_entries(list, registry, readings, clock, now)[i].path,
    ensures
        drawn_entries(list, registry, readings, clock, now)[i] == entry_of(
            list,
            readings,
            clock,
            unverified_keys(list, registry),
            registry_row(registry[a]),
        ),
        !drawn_entries(list, registry, readings, clock, now)[i].unverified,
        launch_entries(list, registry, readings, clock, now).contains(
            drawn_entries(list, registry, readings, clock, now)[i],
        ),
{
    let shown = shown_entries(list, registry, readings, clock, now);
    let recent = order::stable_sort(shown, list_relation(None));
    let first = launch_entries(list, registry, readings, clock, now);
    let drawn = drawn_entries(list, registry, readings, clock, now);
    let all = list_rows(list, registry, now);
    let row = drawn[i];
    order::lemma_sort_items(shown, list_relation(None));
    order::lemma_sort_items(recent, list_relation(Some(projects::stored_order(registry))));
    order::lemma_sort_items(first, list_relation(Some(pin_after(list, registry, first).0)));
    assert(drawn.contains(row));
    assert(first.contains(row));
    assert(recent.contains(row));
    assert(shown.contains(row));
    let x = choose|x: int| 0 <= x < shown.len() && shown[x] == row;
    lemma_shown(list, registry, readings, clock, now, x);
    lemma_unverified_keys(list, registry);
    rows_have_distinct_keys(list, registry, now);
    let names = row_keys(all);
    assert(names[a] == registry[a].path);
    assert(names[x] == row.path);
    assert(x == a);
    assert(all[a] == registry_row(registry[a]));
    assert(projects::registered(registry, row.path));
}

/// The first time a window draws its list, the projects the user put in order
/// come first, by their positions. The others follow by use: the one opened last
/// comes first, whenever it was added; one that was never opened comes behind
/// all that were; of those opened at one instant the one added last comes first,
/// and then the name decides.
pub proof fn first_drawing_goes_by_order_then_use(
    list: RepoListView,
    registry: Seq<projects::ProjectView>,
    readings: Seq<FsReadingView>,
    clock: u64,
    now: Stamp,
    i: int,
    j: int,
    a: int,
    b: int,
)
    requires
        sessions::one_per_key(list.probes.sessions),
        projects::distinct(registry),
        list.pin is None,
        0 <= i < j < drawn_entries(list, registry, readings, clock, now).len(),
        0 <= a < registry.len(),
        0 <= b < registry.len(),
        registry[a].path == drawn_entries(list, registry, readings, clock, now)[i].path,
        registry[b].path == drawn_entries(list, registry, readings, clock, now)[j].path,
    ensures
        ({
            let drawn = drawn_entries(list, registry, readings, clock, now);
            let above = registry[a];
            let below = registry[b];
            match (above.manual_position, below.manual_position) {
                (Some(x), Some(y)) => x < y || (x == y && order::text_before(
                    above.path,
                    below.path,
                )),
                (Some(_), None) => true,
                (None, Some(_)) => false,
                (None, None) => match (above.last_opened_ts, below.last_opened_ts) {
                    (Some(x), Some(y)) => {
                        &&& x.secs > y.secs || (x.secs == y.secs && x.nanos >= y.nanos)
                        &&& x == y ==> {
                            let (p, q) = (above.added_ts, below.added_ts);
                            &&& p.secs > q.secs || (p.secs == q.secs && p.nanos >= q.nanos)
                            &&& p == q ==> !order::text_before(
                                drawn[j].display_name,
                                drawn[i].display_name,
                            )
                        }
                    },
                    (Some(_), None) => true,
                    (None, Some(_)) => false,
                    (None, None) => {
                        let (p, q) = (above.added_ts, below.added_ts);
                        &&& p.secs > q.secs || (p.secs == q.secs && p.nanos >= q.nanos)
                        &&& p == q ==> !order::text_before(
                            drawn[j].display_name,
                            drawn[i].display_name,
                        )
                    },
                },
            }
        }),
{
    let shown = shown_entries(list, registry, readings, clock, now);
    let recent = order::stable_sort(shown, list_relation(None));
    let stored = projects::stored_order(registry);
    let first = launch_entries(list, registry, readings, clock, now);
    let keys = entry_keys(first);
    let drawn = drawn_entries(list, registry, readings, clock, now);
    let pin = pin_after(list, registry, first).0;
    let names = entry_keys(drawn);
    lemma_registered_row(list, registry, readings, clock, now, i, a);
    lemma_registered_row(list, registry, readings, clock, now, j, b);
    lemma_launch_keys(list, registry, readings, clock, now);
    lemma_sorted_keys(first, list_relation(Some(pin)));
    projects::stored_order_follows_the_positions(registry);

    // The pin that is captured is the list as it was first resolved.
    assert forall|k: int| 0 <= k < keys.len() implies keys.contains(#[trigger] keys[k]) by {}
    lemma_pin_settled(keys, list.projected.union(unverified_keys(list, registry).to_set()), keys);
    assert(pin == keys);
    lemma_given_relation(pin);
    order::sort_orders(first, list_relation(Some(pin)));
    assert(!list_relation(Some(pin))(drawn[j], drawn[i]));
    let c = choose|c: int| 0 <= c < first.len() && first[c] == drawn[i];
    let d = choose|d: int| 0 <= d < first.len() && first[d] == drawn[j];
    assert(keys[c] == names[i] && keys[d] == names[j]);
    assert(names[i] != names[j]);
    keys::lemma_key_pos_unique(keys, keys[c], c);
    keys::lemma_key_pos_unique(keys, keys[d], d);
    assert(c < d);

    lemma_recency_relation();
    order::sort_orders(shown, list_relation(None));
    if stored.len() == 0 {
        assert(!list_relation(None)(recent[d], recent[c]));
        assert(registry[a].manual_position is None) by {
            if registry[a].manual_position is Some {
                assert(stored.contains(registry[a].path));
            }
        }
        assert(registry[b].manual_position is None) by {
            if registry[b].manual_position is Some {
                assert(stored.contains(registry[b].path));
            }
        }
    } else {
        lemma_given_relation(stored);
        order::sort_orders(recent, list_relation(Some(stored)));
        assert(!list_relation(Some(stored))(first[d], first[c]));
        keys::lemma_key_pos(stored, names[i]);
        keys::lemma_key_pos(stored, names[j]);
        let x = keys::key_pos(stored, names[i]);
        let y = keys::key_pos(stored, names[j]);
        projects::lemma_texts_distinct(registry);
        assert(stored.contains(names[i]) <==> registry[a].manual_position is Some) by {
            if stored.contains(names[i]) {
                let k = choose|k: int|
                    0 <= k < registry.len() && (#[trigger] registry[k]).path == names[i]
                        && registry[k].manual_position is Some;
                assert(k == a);
            }
        }
        assert(stored.contains(names[j]) <==> registry[b].manual_position is Some) by {
            if stored.contains(names[j]) {
                let k = choose|k: int|
                    0 <= k < registry.len() && (#[trigger] registry[k]).path == names[j]
                        && registry[k].manual_position is Some;
                assert(k == b);
            }
        }
        if registry[a].manual_position is Some && registry[b].manual_position is Some {
            assert(x < y);
            assert(stored[x] == registry[a].path && stored[y] == registry[b].path);
        } else if registry[a].manual_position is None && registry[b].manual_position is None {
            let tail = |e: ListEntryView| !e.unverified && !stored.contains(e.path);
            assert forall|p: ListEntryView, q: ListEntryView| tail(p) && tail(q) implies !(
            #[trigger] list_relation(Some(stored))(p, q)) by {
                keys::lemma_key_pos(stored, p.path);
                keys::lemma_key_pos(stored, q.path);
            }
            order::sort_is_stable(recent, list_relation(Some(stored)), tail);
            lemma_same_order(first, recent, tail, c, d);
            let (k, l) = choose|k: int, l: int|
                0 <= k < l < recent.len() && #[trigger] recent[k] == first[c]
                    && #[trigger] recent[l] == first[d];
            assert(!list_relation(None)(recent[l], recent[k]));
        }
    }
}

/// A row shows when its project was added and last opened. A local one shows
/// what the filesystem said: the reading kept from less than five seconds ago,
/// else the one taken now. A remote one shows what its last probe said, and is
/// pending when it was never probed; one whose key cannot be read shows as dead.
pub proof fn rows_say_what_is_known(
    list: RepoListView,
    registry: Seq<projects::ProjectView>,
    readings: Seq<FsReadingView>,
    clock: u64,
    now: Stamp,
    i: int,
    a: int,
)
    requires
        sessions::one_per_key(list.probes.sessions),
        projects::distinct(registry),
        0 <= i < drawn_entries(list, registry, readings, clock, now).len(),
        0 <= a < registry.len(),
        registry[a].path == drawn_entries(list, registry, readings, clock, now)[i].path,
    ensures
        ({
            let row = drawn_entries(list, registry, readings, clock, now)[i];
            &&& row.last_opened_ts == registry[a].last_opened_ts
            &&& row.added_ts == registry[a].added_ts
            &&& !row.unverified
            &&& !entry::names_remote(row.path) ==> {
                &&& row.remote is None
                &&& row.display_name == entry::path_label(row.path)
                &&& forall|c: int|
                    0 <= c < list.fs_cache.len() && (#[trigger] list.fs_cache[c]).key == row.path
                        && (forall|d: int|
                        0 <= d < c ==> (#[trigger] list.fs_cache[d]).key != row.path) && clock
                        - list.fs_cache[c].probed_at < 5000 ==> row.kind == list.fs_cache[c].kind
                        && row.is_dead == list.fs_cache[c].dead
                &&& (forall|c: int|
                    0 <= c < list.fs_cache.len() && (#[trigger] list.fs_cache[c]).key == row.path
                        ==> clock - list.fs_cache[c].probed_at >= 5000) ==> (forall|r: int|
                    0 <= r < readings.len() && (#[trigger] readings[r]).key == row.path && (forall|
                        d: int,
                    |
                        0 <= d < r ==> (#[trigger] readings[d]).key != row.path) ==> row.kind
                        == readings[r].kind && row.is_dead == readings[r].dead)
            }
            &&& entry::names_remote(row.path) ==> match entry::parsed_key(row.path) {
                Some(target) => {
                    &&& !row.is_dead
                    &&& row.display_name == target.display_name()
                    &&& row.remote matches Some(remote) && remote.target == target && {
                        &&& forall|p: int|
                            0 <= p < list.probes.sessions.len() && (
                            #[trigger] list.probes.sessions[p]).key == row.path ==> remote.probe
                                == list.probes.sessions[p].state
                        &&& (forall|p: int|
                            0 <= p < list.probes.sessions.len() ==> (
                            #[trigger] list.probes.sessions[p]).key != row.path)
                            ==> remote.probe is Pending
                        &&& row.kind == (match remote.probe {
                            probe::ProbeStateView::Resolved { kind, .. } => kind,
                            _ => RepoEntryKind::Folder,
                        })
                    }
                },
                None => row.is_dead && row.remote is None,
            }
        }),
{
    let row = drawn_entries(list, registry, readings, clock, now)[i];
    let cache = list.fs_cache;
    let probes = list.probes.sessions;
    lemma_registered_row(list, registry, readings, clock, now, i, a);
    lemma_reading_pos_found(cache, row.path);
    lemma_reading_pos_found(readings, row.path);
    sessions::lemma_session_pos(probes, row.path);
    if !entry::names_remote(row.path) {
        assert forall|c: int|
            0 <= c < cache.len() && (#[trigger] cache[c]).key == row.path && (forall|d: int|
                0 <= d < c ==> (#[trigger] cache[d]).key != row.path) && clock - cache[c].probed_at
                < 5000 implies row.kind == cache[c].kind && row.is_dead == cache[c].dead by {
            lemma_reading_pos(cache, row.path, c);
        }
        assert forall|r: int|
            0 <= r < readings.len() && (#[trigger] readings[r]).key == row.path && (forall|d: int|
                0 <= d < r ==> (#[trigger] readings[d]).key != row.path) && (forall|c: int|
                0 <= c < cache.len() && (#[trigger] cache[c]).key == row.path ==> clock
                    - cache[c].probed_at >= 5000) implies row.kind == readings[r].kind
            && row.is_dead == readings[r].dead by {
            lemma_reading_pos(readings, row.path, r);
        }
    } else if entry::parsed_key(row.path) is Some {
        assert forall|p: int| 0 <= p < probes.len() && (#[trigger] probes[p]).key
            == row.path implies (row.remote->0).probe == probes[p].state by {
            let at = sessions::session_pos(probes, row.path);
            if p != at {
                assert(probes[at].key != probes[p].key);
            }
        }
    }
}

/// A project that is registered while the window is open, and that the window
/// has not shown connecting, joins behind every row that was there.
pub proof fn newcomers_join_last(
    list: RepoListView,
    registry: Seq<projects::ProjectView>,
    readings: Seq<FsReadingView>,
    clock: u64,
    now: Stamp,
    key: Seq<char>,
    other: Seq<char>,
)
    requires
        sessions::one_per_key(list.probes.sessions),
        projects::distinct(registry),
        projects::registered(registry, key),
        !list.projected.contains(key),
        list.pin is Some,
        list.pin->0.no_duplicates(),
        !list.pin->0.contains(key),
        list.pin->0.contains(other),
    ensures
        ({
            let pin = drawn_list(list, registry, readings, clock, now).pin->0;
            &&& pin.contains(key)
            &&& pin.contains(other)
            &&& keys::key_pos(pin, other) < keys::key_pos(pin, key)
        }),
{
    let first = launch_entries(list, registry, readings, clock, now);
    let marked = list.projected.union(unverified_keys(list, registry).to_set());
    let pin = pin_after(list, registry, first).0;
    lemma_unverified_keys(list, registry);
    list_is_complete(list, registry, readings, clock, now);
    lemma_launch_keys(list, registry, readings, clock, now);
    lemma_sorted_keys(first, list_relation(Some(pin)));
    assert(entry_keys(drawn_entries(list, registry, readings, clock, now)).contains(key));
    lemma_joins_behind(list.pin->0, marked, entry_keys(first), key, other);
    lemma_pin_holds_all(list.pin->0, marked, entry_keys(first));
}

proof fn lemma_joins_behind(
    pin: Seq<Seq<char>>,
    marked: Set<Seq<char>>,
    all: Seq<Seq<char>>,
    key: Seq<char>,
    other: Seq<char>,
)
    requires
        pin.no_duplicates(),
        !marked.contains(key),
        !pin.contains(key),
        pin.contains(other),
    ensures
        ({
            let after = pin_extended(pin, marked, all);
            &&& after.0.contains(other)
            &&& !after.1.contains(key)
            &&& after.0.contains(key) ==> keys::key_pos(after.0, other) < keys::key_pos(after.0, key)
        }),
    decreases all.len(),
{
    if all.len() > 0 {
        let init = all.drop_last();
        let last = all.last();
        let (before, still) = pin_extended(pin, marked, init);
        lemma_joins_behind(pin, marked, init, key, other);
        lemma_pin_holds_all(pin, marked, init);
        if !before.contains(last) {
            keys::lemma_key_pos(before, key);
            keys::lemma_key_pos(before, other);
            if still.contains(last) {
                let after = seq![last] + before;
                assert(after.skip(1) =~= before);
                assert(after[1 + keys::key_pos(before, other)] == other);
                keys::lemma_key_pos(after, key);
                if after.contains(key) {
                    let j = choose|j: int| 0 <= j < after.len() && after[j] == key;
                    assert(before[j - 1] == key);
                }
            } else {
                let after = before.push(last);
                keys::lemma_key_pos_unique(after, other, keys::key_pos(before, other));
                assert(after[keys::key_pos(before, other)] == other);
                keys::lemma_key_pos(after, key);
                if before.contains(key) {
                    keys::lemma_key_pos_unique(after, key, keys::key_pos(before, key));
                } else if after.contains(key) {
                    assert(last == key);
                    keys::lemma_key_pos_unique(after, key, before.len() as int);
                }
            }
        }
    }
}

/// A key has a row as one under verification exactly while it is not registered
/// and either the form waits on it or an add has a probe running for it.
pub proof fn connecting_rows_are_the_adds(
    list: RepoListView,
    registry: Seq<projects::ProjectView>,
    readings: Seq<FsReadingView>,
    clock: u64,
    now: Stamp,
    key: Seq<char>,
)
    requires
        sessions::one_per_key(list.probes.sessions),
        projects::distinct(registry),
    ensures
        entry_keys(drawn_entries(list, registry, readings, clock, now)).contains(key)
            <==> projects::registered(registry, key) || list.pending == Some(key) || exists|p: int|
            0 <= p < list.probes.sessions.len() && (#[trigger] list.probes.sessions[p]).key == key
                && list.probes.sessions[p].in_flight && list.probes.sessions[p].adding,
{
    let probes = list.probes.sessions;
    list_is_complete(list, registry, readings, clock, now);
    if !projects::registered(registry, key) {
        let all = unverified_keys(list, registry);
        let probing = probing_keys(probes, list.pending, registry);
        if list.pending == Some(key) {
            assert(all[0] == key);
        } else if exists|p: int|
            0 <= p < probes.len() && (#[trigger] probes[p]).key == key && probes[p].in_flight
                && probes[p].adding {
            let p = choose|p: int|
                0 <= p < probes.len() && (#[trigger] probes[p]).key == key && probes[p].in_flight
                    && probes[p].adding;
            lemma_probing_holds(probes, list.pending, registry, p);
            let k = choose|k: int| 0 <= k < probing.len() && probing[k] == key;
            assert(all[all.len() - probing.len() + k] == key);
        } else {
            sessions::lemma_session_pos(probes, key);
            lemma_no_row(list, registry, readings, clock, now, key);
        }
    }
}

proof fn lemma_probing_holds(
    probes: Seq<sessions::SessionView>,
    pending: Option<Seq<char>>,
    registry: Seq<projects::ProjectView>,
    at: int,
)
    requires
        0 <= at < probes.len(),
        probes[at].in_flight,
        probes[at].adding,
        pending != Some(probes[at].key),
        !projects::registered(registry, probes[at].key),
    ensures
        probing_keys(probes, pending, registry).contains(probes[at].key),
    decreases probes.len(),
{
    let init = probes.drop_last();
    let before = probing_keys(init, pending, registry);
    let after = probing_keys(probes, pending, registry);
    if at < init.len() {
        assert(init[at] == probes[at]);
        lemma_probing_holds(init, pending, registry, at);
        let k = choose|k: int| 0 <= k < before.len() && before[k] == probes[at].key;
        assert(after[k] == probes[at].key);
    } else {
        assert(after[before.len() as int] == probes[at].key);
    }
}

/// Drawing changes what it resolves and nothing else: what the form waits on and
/// the probes stay; a stored order that was seen stays seen; a drag goes on for
/// as long as its row is listed.
pub proof fn drawing_keeps_the_rest(
    list: RepoListView,
    registry: Seq<projects::ProjectView>,
    readings: Seq<FsReadingView>,
    clock: u64,
    now: Stamp,
)
    requires
        sessions::one_per_key(list.probes.sessions),
        projects::distinct(registry),
    ensures
        ({
            let after = drawn_list(list, registry, readings, clock, now);
            let rows = entry_keys(drawn_entries(list, registry, readings, clock, now));
            &&& after.pending == list.pending
            &&& after.probes == list.probes
            &&& after.saw_stored_order <==> list.saw_stored_order || (exists|i: int|
                0 <= i < registry.len() && (#[trigger] registry[i]).manual_position is Some)
            &&& after.pin is Some
            &&& list.row_drag is None ==> after.row_drag is None
            &&& list.row_drag matches Some(drag) ==> (if paths::lists(rows, drag.path) {
                after.row_drag == Some(drag)
            } else {
                after.row_drag is None
            })
        }),
{
    let first = launch_entries(list, registry, readings, clock, now);
    let rows = entry_keys(drawn_entries(list, registry, readings, clock, now));
    let stored = projects::stored_order(registry);
    projects::stored_order_follows_the_positions(registry);
    lemma_launch_keys(list, registry, readings, clock, now);
    lemma_sorted_keys(first, list_relation(Some(pin_after(list, registry, first).0)));
    if stored.len() > 0 {
        assert(stored.contains(stored[0]));
    }
    if exists|i: int|
        0 <= i < registry.len() && (#[trigger] registry[i]).manual_position is Some {
        let i = choose|i: int|
            0 <= i < registry.len() && (#[trigger] registry[i]).manual_position is Some;
        assert(stored.contains(registry[i].path));
    }
    if let Some(drag) = list.row_drag {
        paths::lemma_lists_alike(entry_keys(first), rows, drag.path);
    }
}

/// The filesystem is asked about a local path unless it was asked less than five
/// seconds ago, and never about a remote key.
pub proof fn readings_last_five_seconds(cache: Seq<FsReadingView>, clock: u64, key: Seq<char>, at: int)
    requires
        0 <= at <= cache.len(),
        at < cache.len() ==> cache[at].key == key,
        forall|j: int| 0 <= j < at ==> (#[trigger] cache[j]).key != key,
    ensures
        needs_reading(cache, clock, key) <==> !entry::names_remote(key) && (at == cache.len()
            || clock - cache[at].probed_at >= 5000),
{
    lemma_reading_pos(cache, key, at);
}

/// A reading that was used is kept from now on, and every other one as it was:
/// right after a drawing nothing that was read has to be read again.
pub proof fn drawing_keeps_its_readings(
    list: RepoListView,
    registry: Seq<projects::ProjectView>,
    readings: Seq<FsReadingView>,
    clock: u64,
    now: Stamp,
    a: int,
)
    requires
        0 <= a < registry.len(),
        exists|r: int| 0 <= r < readings.len() && (#[trigger] readings[r]).key == registry[a].path,
    ensures
        !needs_reading(
            drawn_list(list, registry, readings, clock, now).fs_cache,
            clock,
            registry[a].path,
        ),
{
    let all = list_rows(list, registry, now);
    assert(all[a].key == registry[a].path);
    lemma_cache_holds(list.fs_cache, readings, clock, all, a);
}

proof fn lemma_cache_holds(
    cache: Seq<FsReadingView>,
    readings: Seq<FsReadingView>,
    clock: u64,
    all: Seq<RowView>,
    at: int,
)
    requires
        0 <= at < all.len(),
        exists|r: int| 0 <= r < readings.len() && (#[trigger] readings[r]).key == all[at].key,
    ensures
        !needs_reading(cache_after(cache, readings, clock, all), clock, all[at].key),
    decreases all.len(),
{
    let key = all[at].key;
    let init = all.drop_last();
    let before = cache_after(cache, readings, clock, init);
    let last = all.last().key;
    lemma_reading_pos_found(readings, key);
    let r = choose|r: int| 0 <= r < readings.len() && (#[trigger] readings[r]).key == key;
    if at < init.len() {
        assert(init[at] == all[at]);
        lemma_cache_holds(cache, readings, clock, init, at);
    }
    if !entry::names_remote(last) {
        if let Some(taken) = reading_of(readings, last) {
            let reading = FsReadingView {
                key: last,
                kind: taken.kind,
                dead: taken.dead,
                probed_at: clock,
            };
            lemma_stored_reading(before, reading, key);
        }
    }
}

/// The first time a window draws a list that has no order of the user's and no
/// row under verification, a row opened later than another stands in front of
/// it, whenever the two were added.
pub proof fn opened_last_comes_first(
    list: RepoListView,
    registry: Seq<projects::ProjectView>,
    readings: Seq<FsReadingView>,
    clock: u64,
    now: Stamp,
    i: int,
    j: int,
)
    requires
        sessions::one_per_key(list.probes.sessions),
        projects::distinct(registry),
        list.pin is None,
        forall|k: int|
            0 <= k < registry.len() ==> (#[trigger] registry[k]).manual_position is None,
        0 <= i < j < drawn_entries(list, registry, readings, clock, now).len(),
        projects::registered(
            registry,
            drawn_entries(list, registry, readings, clock, now)[i].path,
        ),
        projects::registered(
            registry,
            drawn_entries(list, registry, readings, clock, now)[j].path,
        ),
    ensures
        ({
            let above = drawn_entries(list, registry, readings, clock, now)[i].last_opened_ts;
            let below = drawn_entries(list, registry, readings, clock, now)[j].last_opened_ts;
            match (above, below) {
                (Some(x), Some(y)) => x.secs > y.secs || (x.secs == y.secs && x.nanos >= y.nanos),
                (None, Some(_)) => false,
                (_, None) => true,
            }
        }),
{
    let drawn = drawn_entries(list, registry, readings, clock, now);
    let a = choose|a: int| 0 <= a < registry.len() && (#[trigger] registry[a]).path == drawn[i].path;
    let b = choose|b: int| 0 <= b < registry.len() && (#[trigger] registry[b]).path == drawn[j].path;
    lemma_registered_row(list, registry, readings, clock, now, i, a);
    lemma_registered_row(list, registry, readings, clock, now, j, b);
    first_drawing_goes_by_order_then_use(list, registry, readings, clock, now, i, j, a, b);
}

/// A row under verification says so, and shows where it connects to and how its
/// probe stands; a row that is registered is not under verification.
pub proof fn connecting_rows_say_so(
    list: RepoListView,
    registry: Seq<projects::ProjectView>,
    readings: Seq<FsReadingView>,
    clock: u64,
    now: Stamp,
    i: int,
)
    requires
        sessions::one_per_key(list.probes.sessions),
        projects::distinct(registry),
        0 <= i < drawn_entries(list, registry, readings, clock, now).len(),
    ensures
        ({
            let row = drawn_entries(list, registry, readings, clock, now)[i];
            &&& row.unverified <==> entry::names_remote(row.path) && !projects::registered(
                registry,
                row.path,
            )
            &&& row.unverified ==> match entry::parsed_key(row.path) {
                Some(target) => {
                    &&& !row.is_dead
                    &&& row.display_name == target.display_name()
                    &&& row.remote matches Some(remote) && remote.target == target && {
                        &&& forall|p: int|
                            0 <= p < list.probes.sessions.len() && (
                            #[trigger] list.probes.sessions[p]).key == row.path ==> remote.probe
                                == list.probes.sessions[p].state
                        &&& (forall|p: int|
                            0 <= p < list.probes.sessions.len() ==> (
                            #[trigger] list.probes.sessions[p]).key != row.path)
                            ==> remote.probe is Pending
                    }
                },
                None => row.is_dead && row.remote is None,
            }
        }),
{
    let shown = shown_entries(list, registry, readings, clock, now);
    let recent = order::stable_sort(shown, list_relation(None));
    let first = launch_entries(list, registry, readings, clock, now);
    let drawn = drawn_entries(list, registry, readings, clock, now);
    let unverified = unverified_keys(list, registry);
    let all = list_rows(list, registry, now);
    let probes = list.probes.sessions;
    let row = drawn[i];
    order::lemma_sort_items(shown, list_relation(None));
    order::lemma_sort_items(recent, list_relation(Some(projects::stored_order(registry))));
    order::lemma_sort_items(first, list_relation(Some(pin_after(list, registry, first).0)));
    assert(drawn.contains(row));
    assert(first.contains(row));
    assert(recent.contains(row));
    assert(shown.contains(row));
    let x = choose|x: int| 0 <= x < shown.len() && shown[x] == row;
    let count = registry.len() as int;
    lemma_shown(list, registry, readings, clock, now, x);
    lemma_unverified_keys(list, registry);
    sessions::lemma_session_pos(probes, row.path);
    if x < count {
        assert(all[x] == registry_row(registry[x]));
        assert(registry[x].path == row.path);
        assert(projects::registered(registry, row.path));
    } else {
        assert(all[x] == pending_row(unverified[x - count], now));
        assert(unverified.contains(row.path));
    }
    if row.unverified && entry::parsed_key(row.path) is Some {
        assert forall|p: int| 0 <= p < probes.len() && (#[trigger] probes[p]).key
            == row.path implies (row.remote->0).probe == probes[p].state by {
            let at = sessions::session_pos(probes, row.path);
            if p != at {
                assert(probes[at].key != probes[p].key);
            }
        }
    }
}

/// The cache without the reading of `key`.
pub open spec fn forgotten_reading(cache: Seq<FsReadingView>, key: Seq<char>) -> Seq<
    FsReadingView,
> {
    let at = reading_pos(cache, key);
    if at < cache.len() {
        cache.remove(at)
    } else {
        cache
    }
}

impl RepoList {
    /// Drop the cached reading of `key`.
    pub fn forget_reading(&mut self, key: &str)
        requires
            old(self).wf(),
        ensures
            final(self).wf(),
            final(self)@ == (RepoListView {
                fs_cache: forgotten_reading(old(self)@.fs_cache, key@),
                ..old(self)@
            }),
    {
        let ghost before = self@.fs_cache;
        if let Some(at) = find_reading(&self.fs_cache, key) {
            self.fs_cache.remove(at);
        }
        assert(self@.fs_cache =~= forgotten_reading(before, key@));
    }
}

/// A reading that is forgotten is taken again, and every other one stays.
pub proof fn forgotten_readings_are_taken_again(
    cache: Seq<FsReadingView>,
    key: Seq<char>,
    other: Seq<char>,
    clock: u64,
)
    requires
        forall|i: int, j: int|
            0 <= i < j < cache.len() ==> (#[trigger] cache[i]).key != (#[trigger] cache[j]).key,
        !entry::names_remote(key),
        other != key,
    ensures
        needs_reading(forgotten_reading(cache, key), clock, key),
        needs_reading(forgotten_reading(cache, key), clock, other) == needs_reading(
            cache,
            clock,
            other,
        ),
{
    let after = forgotten_reading(cache, key);
    let at = reading_pos(cache, key);
    let there = reading_pos(cache, other);
    lemma_reading_pos_found(cache, key);
    lemma_reading_pos_found(cache, other);
    if at < cache.len() {
        assert forall|j: int| 0 <= j < after.len() implies (#[trigger] after[j]).key != key by {
            let source = if j < at {
                j
            } else {
                j + 1
            };
            assert(after[j] == cache[source]);
            assert(cache[at].key == key);
        }
        lemma_reading_pos(after, key, after.len() as int);
        let moved = if there > at {
            there - 1
        } else {
            there
        };
        assert forall|j: int| 0 <= j < moved implies (#[trigger] after[j]).key != other by {
            let source = if j < at {
                j
            } else {
                j + 1
            };
            assert(after[j] == cache[source]);
        }
        if there < cache.len() {
            assert(after[moved] == cache[there]);
        }
        lemma_reading_pos(after, other, moved);
    } else {
        assert(after == cache);
    }
}

} // verus!
