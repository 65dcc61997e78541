//! What the sidebar keeps about its rows from one drawing to the next: the
//! interaction handles, which row is being dragged, and the branch that was last
//! read for each repository.
use vstd::prelude::*;
use crate::keys::holds;
use crate::text;
use crate::text::{chars_of, copy_text, same_text, string_of, strip_prefix, trim};

verus! {

broadcast use vstd::string::group_string_axioms;

/// How long a branch that was read is used before it is read again, in
/// milliseconds.
pub const BRANCH_CACHE_TTL_MILLIS: u64 = 5000;

/// When a reading of the filesystem counts as one of a stalled mount, and how
/// long it is used then, in milliseconds.
#[derive(Clone, Copy, Debug, PartialEq, Eq, Structural)]
pub struct SlowMount {
    pub slow_after: u64,
    pub ttl: u64,
}

/// How long a reading is used that took `took`: for `ttl`, or as long as one of
/// a stalled mount when it took so long as to mean one.
pub fn fs_probe_ttl(took: u64, ttl: u64, slow: SlowMount) -> (out: u64)
    ensures
        out == (if took >= slow.slow_after {
            slow.ttl
        } else {
            ttl
        }),
{
    if took >= slow.slow_after {
        slow.ttl
    } else {
        ttl
    }
}

/// Something kept for a row, under the row's registry key.
#[derive(Debug)]
pub struct Keyed<V> {
    pub key: String,
    pub value: V,
}

/// What is kept, as mathematical values.
pub open spec fn keyed_view<V>(list: Seq<Keyed<V>>) -> Seq<(Seq<char>, V)> {
    list.map_values(|row: Keyed<V>| (row.key@, row.value))
}

/// Where `key` stands, or the length when nothing is kept for it.
pub open spec fn slot<K, V>(list: Seq<(K, V)>, key: K) -> int
    decreases list.len(),
{
    if list.len() == 0 || list[0].0 == key {
        0
    } else {
        1 + slot(list.skip(1), key)
    }
}

/// What is kept for `key`.
pub open spec fn kept_for<K, V>(list: Seq<(K, V)>, key: K) -> Option<V> {
    let at = slot(list, key);
    if at < list.len() {
        Some(list[at].1)
    } else {
        None
    }
}

/// What is kept once `value` is kept for `key`.
pub open spec fn put<K, V>(list: Seq<(K, V)>, key: K, value: V) -> Seq<(K, V)> {
    let at = slot(list, key);
    if at < list.len() {
        list.update(at, (key, value))
    } else {
        list.push((key, value))
    }
}

/// What is kept once something is kept for `key`: `value` if nothing was.
pub open spec fn put_new<V>(list: Seq<(Seq<char>, V)>, key: Seq<char>, value: V) -> Seq<
    (Seq<char>, V),
> {
    if slot(list, key) < list.len() {
        list
    } else {
        list.push((key, value))
    }
}

/// What is kept once only live rows keep anything.
pub open spec fn pruned<V>(list: Seq<(Seq<char>, V)>, live: Seq<Seq<char>>) -> Seq<(Seq<char>, V)> {
    list.filter(|row: (Seq<char>, V)| live.contains(row.0))
}

/// What [`slot`] finds: the first row of the key.
pub proof fn lemma_slot<K, V>(list: Seq<(K, V)>, key: K)
    ensures
        0 <= slot(list, key) <= list.len(),
        slot(list, key) < list.len() ==> list[slot(list, key)].0 == key,
        forall|j: int| 0 <= j < slot(list, key) ==> (#[trigger] list[j]).0 != key,
    decreases list.len(),
{
    if list.len() > 0 && list[0].0 != key {
        lemma_slot(list.skip(1), key);
        assert forall|j: int| 0 <= j < slot(list, key) implies (#[trigger] list[j]).0 != key by {
            if j > 0 {
                assert(list.skip(1)[j - 1] == list[j]);
            }
        }
    }
}

/// A row with the key, and none with it before, is where [`slot`] points.
pub proof fn lemma_slot_is<K, V>(list: Seq<(K, V)>, key: K, at: int)
    requires
        0 <= at <= list.len(),
        at < list.len() ==> list[at].0 == key,
        forall|j: int| 0 <= j < at ==> (#[trigger] list[j]).0 != key,
    ensures
        slot(list, key) == at,
{
    lemma_slot(list, key);
    let found = slot(list, key);
    if found < at {
        assert(list[found].0 != key);
    }
}

pub(crate) fn find<V>(list: &Vec<Keyed<V>>, key: &str) -> (at: usize)
    ensures
        at == slot(keyed_view(list@), key@),
        at <= list.len(),
{
    let mut i: usize = 0;
    while i < list.len()
        invariant
            i <= list.len(),
            forall|j: int| 0 <= j < i ==> (#[trigger] keyed_view(list@)[j]).0 != key@,
        decreases list.len() - i,
    {
        if same_text(list[i].key.as_str(), key) {
            proof {
                lemma_slot_is(keyed_view(list@), key@, i as int);
            }
            return i;
        }
        assert(keyed_view(list@)[i as int].0 != key@);
        i += 1;
    }
    proof {
        lemma_slot_is(keyed_view(list@), key@, i as int);
    }
    i
}

/// Filtering step by step from the front.
proof fn lemma_filter_step<T>(items: Seq<T>, keep: spec_fn(T) -> bool, at: int)
    requires
        0 <= at < items.len(),
    ensures
        items.take(at + 1).filter(keep) == (if keep(items[at]) {
            items.take(at).filter(keep).push(items[at])
        } else {
            items.take(at).filter(keep)
        }),
{
    reveal(Seq::filter);
    assert(items.take(at + 1).drop_last() =~= items.take(at));
}

fn prune<V>(list: &mut Vec<Keyed<V>>, live: &Vec<String>)
    ensures
        keyed_view(final(list)@) == pruned(keyed_view(old(list)@), text::texts(live@)),
{
    let ghost before = keyed_view(list@);
    let ghost alive = text::texts(live@);
    let ghost keep = |row: (Seq<char>, V)| alive.contains(row.0);
    let mut i: usize = 0;
    let ghost mut seen: int = 0;
    proof {
        reveal(Seq::filter);
        assert(before.take(0).filter(keep) =~= Seq::empty());
        assert(keyed_view(list@).skip(0) =~= before.skip(0));
    }
    while i < list.len()
        invariant
            i <= list@.len(),
            0 <= seen <= before.len(),
            alive == text::texts(live@),
            keep == (|row: (Seq<char>, V)| alive.contains(row.0)),
            keyed_view(list@).take(i as int) == before.take(seen).filter(keep),
            keyed_view(list@).skip(i as int) == before.skip(seen),
        decreases list@.len() - i,
    {
        let ghost now = keyed_view(list@);
        proof {
            assert(now.skip(i as int).len() == now.len() - i);
            assert(before.skip(seen).len() == before.len() - seen);
            assert(now.skip(i as int)[0] == now[i as int]);
            assert(before.skip(seen)[0] == before[seen]);
            lemma_filter_step(before, keep, seen);
        }
        if holds(live, list[i].key.as_str()) {
            i += 1;
            assert(now.take(i as int) =~= now.take(i - 1).push(now[i - 1]));
            assert(now.skip(i as int) =~= now.skip(i - 1).skip(1));
        } else {
            let _gone = list.remove(i);
            assert(keyed_view(list@) =~= now.remove(i as int));
            assert(keyed_view(list@).take(i as int) =~= now.take(i as int));
            assert(keyed_view(list@).skip(i as int) =~= now.skip(i as int).skip(1));
        }
        proof {
            assert(before.skip(seen).skip(1) =~= before.skip(seen + 1));
            seen = seen + 1;
        }
    }
    proof {
        assert(keyed_view(list@).skip(i as int).len() == 0);
        assert(seen == before.len());
        assert(before.take(seen) =~= before);
        assert(keyed_view(list@).take(i as int) =~= keyed_view(list@));
        assert(keep == (|row: (Seq<char>, V)| text::texts(live@).contains(row.0)));
    }
}

/// A branch that was read, and when.
#[derive(Debug)]
pub struct CachedBranch {
    /// When the read finished, in milliseconds on a clock that never runs
    /// backwards. Counted from the end, because a read on a stalled mount can
    /// take longer than the answer is good for.
    pub refreshed_at: u64,
    /// How long the answer is used.
    pub ttl: u64,
    /// `None` for a root whose branch cannot be read.
    pub branch: Option<String>,
}

impl CachedBranch {
    /// The answer is still used at `now`.
    pub open spec fn is_fresh(self, now: u64) -> bool {
        if now > self.refreshed_at {
            now - self.refreshed_at < self.ttl
        } else {
            self.ttl > 0
        }
    }
}

/// What the sidebar keeps, as mathematical values.
pub struct SidebarView {
    pub entry_rows: Seq<(Seq<char>, u64)>,
    pub entry_drags: Seq<(Seq<char>, bool)>,
    pub pr_badges: Seq<(Seq<char>, u64)>,
    pub remove_buttons: Seq<(Seq<char>, u64)>,
    pub branches: Seq<(Seq<char>, CachedBranch)>,
    pub next_handle: u64,
}

/// What the sidebar keeps about its rows. A handle is the identity of one
/// control's interaction state, and no handle is ever given out twice.
#[derive(Debug)]
pub struct RepoSidebarState {
    /// The handle of each row's body.
    pub entry_rows: Vec<Keyed<u64>>,
    /// Whether each row is being dragged.
    pub entry_drags: Vec<Keyed<bool>>,
    /// The handle of each row's pull-request badge.
    pub pr_badges: Vec<Keyed<u64>>,
    /// The handle of each dead row's "Remove" button.
    pub remove_buttons: Vec<Keyed<u64>>,
    pub branch_cache: Vec<Keyed<CachedBranch>>,
    pub next_handle: u64,
}

impl View for RepoSidebarState {
    type V = SidebarView;

    open spec fn view(&self) -> SidebarView {
        SidebarView {
            entry_rows: keyed_view(self.entry_rows@),
            entry_drags: keyed_view(self.entry_drags@),
            pr_badges: keyed_view(self.pr_badges@),
            remove_buttons: keyed_view(self.remove_buttons@),
            branches: keyed_view(self.branch_cache@),
            next_handle: self.next_handle,
        }
    }
}

/// The handles were given out, and no two rows share one.
pub open spec fn given_out(list: Seq<(Seq<char>, u64)>, next: u64) -> bool {
    &&& forall|i: int| 0 <= i < list.len() ==> (#[trigger] list[i]).1 < next
    &&& forall|i: int, j: int|
        0 <= i < j < list.len() ==> (#[trigger] list[i]).1 != (#[trigger] list[j]).1
}

impl SidebarView {
    /// Every handle was given out once.
    pub open spec fn wf(self) -> bool {
        &&& given_out(self.entry_rows, self.next_handle)
        &&& given_out(self.pr_badges, self.next_handle)
        &&& given_out(self.remove_buttons, self.next_handle)
    }

    /// Nothing is kept.
    pub open spec fn empty() -> SidebarView {
        SidebarView {
            entry_rows: Seq::empty(),
            entry_drags: Seq::empty(),
            pr_badges: Seq::empty(),
            remove_buttons: Seq::empty(),
            branches: Seq::empty(),
            next_handle: 0,
        }
    }

    /// The handle of the row of `key`: the one it has, else the next.
    pub open spec fn row_handle(self, key: Seq<char>) -> u64 {
        match kept_for(self.entry_rows, key) {
            Some(handle) => handle,
            None => self.next_handle,
        }
    }

    /// What is kept once the row of `key` has a handle.
    pub open spec fn with_row(self, key: Seq<char>) -> SidebarView {
        SidebarView {
            entry_rows: put_new(self.entry_rows, key, self.next_handle),
            next_handle: if kept_for(self.entry_rows, key) is Some {
                self.next_handle
            } else {
                (self.next_handle + 1) as u64
            },
            ..self
        }
    }

    /// The handle of the pull-request badge of `key`.
    pub open spec fn badge_handle(self, key: Seq<char>) -> u64 {
        match kept_for(self.pr_badges, key) {
            Some(handle) => handle,
            None => self.next_handle,
        }
    }

    /// What is kept once the badge of `key` has a handle.
    pub open spec fn with_badge(self, key: Seq<char>) -> SidebarView {
        SidebarView {
            pr_badges: put_new(self.pr_badges, key, self.next_handle),
            next_handle: if kept_for(self.pr_badges, key) is Some {
                self.next_handle
            } else {
                (self.next_handle + 1) as u64
            },
            ..self
        }
    }

    /// The handle of the "Remove" button of `key`.
    pub open spec fn remove_handle(self, key: Seq<char>) -> u64 {
        match kept_for(self.remove_buttons, key) {
            Some(handle) => handle,
            None => self.next_handle,
        }
    }

    /// What is kept once the "Remove" button of `key` has a handle.
    pub open spec fn with_remove(self, key: Seq<char>) -> SidebarView {
        SidebarView {
            remove_buttons: put_new(self.remove_buttons, key, self.next_handle),
            next_handle: if kept_for(self.remove_buttons, key) is Some {
                self.next_handle
            } else {
                (self.next_handle + 1) as u64
            },
            ..self
        }
    }

    /// Whether the row of `key` is being dragged.
    pub open spec fn dragging(self, key: Seq<char>) -> bool {
        kept_for(self.entry_drags, key) == Some(true)
    }

    /// Whether any row is being dragged.
    pub open spec fn any_drag(self) -> bool {
        exists|i: int| 0 <= i < self.entry_drags.len() && (#[trigger] self.entry_drags[i]).1
    }

    /// The branch kept for `key`, however old.
    pub open spec fn branch(self, key: Seq<char>) -> Option<Seq<char>> {
        match kept_for(self.branches, key) {
            Some(cached) => text::text_view(cached.branch),
            None => None,
        }
    }

    /// Whether the branch of `key` has to be read at `now`.
    pub open spec fn needs_branch(self, key: Seq<char>, now: u64) -> bool {
        match kept_for(self.branches, key) {
            Some(cached) => !cached.is_fresh(now),
            None => true,
        }
    }

    /// What is kept once only live rows keep anything.
    pub open spec fn pruned_to(self, live: Seq<Seq<char>>) -> SidebarView {
        SidebarView {
            entry_rows: pruned(self.entry_rows, live),
            entry_drags: pruned(self.entry_drags, live),
            pr_badges: pruned(self.pr_badges, live),
            remove_buttons: pruned(self.remove_buttons, live),
            branches: pruned(self.branches, live),
            next_handle: self.next_handle,
        }
    }
}

impl Default for RepoSidebarState {
    fn default() -> (state: Self)
        ensures
            state@ == SidebarView::empty(),
            state@.wf(),
    {
        let state = RepoSidebarState {
            entry_rows: Vec::new(),
            entry_drags: Vec::new(),
            pr_badges: Vec::new(),
            remove_buttons: Vec::new(),
            branch_cache: Vec::new(),
            next_handle: 0,
        };
        assert(state@.entry_rows =~= Seq::empty());
        assert(state@.entry_drags =~= Seq::empty());
        assert(state@.pr_badges =~= Seq::empty());
        assert(state@.remove_buttons =~= Seq::empty());
        assert(state@.branches =~= Seq::empty());
        state
    }
}

fn handle_in(list: &mut Vec<Keyed<u64>>, key: &str, next: u64) -> (handle: u64)
    requires
        given_out(keyed_view(old(list)@), next),
        next < u64::MAX,
    ensures
        handle == (match kept_for(keyed_view(old(list)@), key@) {
            Some(found) => found,
            None => next,
        }),
        keyed_view(final(list)@) == put_new(keyed_view(old(list)@), key@, next),
        given_out(keyed_view(final(list)@), (next + 1) as u64),
        kept_for(keyed_view(old(list)@), key@) is Some ==> handle < next && given_out(
            keyed_view(final(list)@),
            next,
        ),
{
    let at = find(list, key);
    if at < list.len() {
        assert(keyed_view(list@)[at as int].1 < next);
        return list[at].value;
    }
    let ghost before = keyed_view(list@);
    list.push(Keyed { key: key.to_owned(), value: next });
    assert(keyed_view(list@) =~= before.push((key@, next)));
    next
}

impl RepoSidebarState {
    /// The handle of the row keyed by `key`, made on first use. Whatever touches
    /// a row's body asks here, so that the press a row records is the one that
    /// the start of its drag clears.
    pub fn entry_row_mouse(&mut self, key: &str) -> (handle: u64)
        requires
            old(self)@.wf(),
            old(self)@.next_handle < u64::MAX,
        ensures
            handle == old(self)@.row_handle(key@),
            final(self)@ == old(self)@.with_row(key@),
            final(self)@.wf(),
    {
        let next = self.next_handle;
        let handle = handle_in(&mut self.entry_rows, key, next);
        self.take_handle(handle);
        handle
    }

    /// The handle of the pull-request badge of the row, made on first use.
    pub fn pr_badge_mouse(&mut self, key: &str) -> (handle: u64)
        requires
            old(self)@.wf(),
            old(self)@.next_handle < u64::MAX,
        ensures
            handle == old(self)@.badge_handle(key@),
            final(self)@ == old(self)@.with_badge(key@),
            final(self)@.wf(),
    {
        let next = self.next_handle;
        let handle = handle_in(&mut self.pr_badges, key, next);
        self.take_handle(handle);
        handle
    }

    /// The handle of the "Remove" button of the row, made on first use.
    pub fn remove_button_mouse(&mut self, key: &str) -> (handle: u64)
        requires
            old(self)@.wf(),
            old(self)@.next_handle < u64::MAX,
        ensures
            handle == old(self)@.remove_handle(key@),
            final(self)@ == old(self)@.with_remove(key@),
            final(self)@.wf(),
    {
        let next = self.next_handle;
        let handle = handle_in(&mut self.remove_buttons, key, next);
        self.take_handle(handle);
        handle
    }

    /// A handle that was the next one is so no longer.
    fn take_handle(&mut self, handle: u64)
        requires
            old(self).next_handle < u64::MAX,
        ensures
            final(self)@ == (SidebarView {
                next_handle: if handle == old(self).next_handle {
                    (old(self).next_handle + 1) as u64
                } else {
                    old(self).next_handle
                },
                ..old(self)@
            }),
    {
        if handle == self.next_handle {
            self.next_handle = self.next_handle + 1;
        }
    }

    /// Record whether the row of `key` is being dragged.
    pub fn set_dragging(&mut self, key: &str, dragging: bool)
        ensures
            final(self)@ == (SidebarView {
                entry_drags: put(old(self)@.entry_drags, key@, dragging),
                ..old(self)@
            }),
    {
        let ghost before = keyed_view(self.entry_drags@);
        let at = find(&self.entry_drags, key);
        if at < self.entry_drags.len() {
            self.entry_drags.set(at, Keyed { key: key.to_owned(), value: dragging });
            assert(keyed_view(self.entry_drags@) =~= before.update(at as int, (key@, dragging)));
        } else {
            self.entry_drags.push(Keyed { key: key.to_owned(), value: dragging });
            assert(keyed_view(self.entry_drags@) =~= before.push((key@, dragging)));
        }
    }

    /// Whether the row of `key` is being dragged; a row seen for the first time
    /// is not.
    pub fn entry_drag(&mut self, key: &str) -> (dragging: bool)
        ensures
            dragging == old(self)@.dragging(key@),
            final(self)@ == (SidebarView {
                entry_drags: put_new(old(self)@.entry_drags, key@, false),
                ..old(self)@
            }),
    {
        let ghost before = keyed_view(self.entry_drags@);
        let at = find(&self.entry_drags, key);
        if at < self.entry_drags.len() {
            return self.entry_drags[at].value;
        }
        self.entry_drags.push(Keyed { key: key.to_owned(), value: false });
        assert(keyed_view(self.entry_drags@) =~= before.push((key@, false)));
        false
    }

    /// Whether any repository row is being dragged.
    pub fn any_entry_drag_active(&self) -> (active: bool)
        ensures
            active == self@.any_drag(),
    {
        let ghost drags = keyed_view(self.entry_drags@);
        let mut i: usize = 0;
        while i < self.entry_drags.len()
            invariant
                i <= self.entry_drags@.len(),
                drags == keyed_view(self.entry_drags@),
                forall|j: int| 0 <= j < i ==> !(#[trigger] drags[j]).1,
            decreases self.entry_drags@.len() - i,
        {
            if self.entry_drags[i].value {
                assert(self@.entry_drags[i as int].1);
                return true;
            }
            assert(!drags[i as int].1);
            i += 1;
        }
        false
    }

    /// The branch of the repository at `key` while what was read last is fresh;
    /// `None` when it has to be read again.
    pub fn repo_branch(&self, key: &str, now: u64) -> (known: Option<Option<String>>)
        ensures
            match known {
                Some(branch) => !self@.needs_branch(key@, now) && text::text_view(branch)
                    == self@.branch(key@),
                None => self@.needs_branch(key@, now),
            },
    {
        let at = find(&self.branch_cache, key);
        if at >= self.branch_cache.len() {
            return None;
        }
        let cached = &self.branch_cache[at].value;
        let fresh = if now > cached.refreshed_at {
            now - cached.refreshed_at < cached.ttl
        } else {
            cached.ttl > 0
        };
        if fresh {
            Some(copy_text(&cached.branch))
        } else {
            None
        }
    }

    /// The branch that was last read for `key`, however long ago.
    pub fn last_branch(&self, key: &str) -> (branch: Option<String>)
        ensures
            text::text_view(branch) == self@.branch(key@),
    {
        let at = find(&self.branch_cache, key);
        if at < self.branch_cache.len() {
            copy_text(&self.branch_cache[at].value.branch)
        } else {
            None
        }
    }

    /// Keep the branch that was read for `key`: at `refreshed_at`, for `ttl`.
    pub fn store_branch(&mut self, key: &str, refreshed_at: u64, ttl: u64, branch: Option<String>)
        ensures
            final(self)@ == (SidebarView {
                branches: put(
                    old(self)@.branches,
                    key@,
                    CachedBranch { refreshed_at, ttl, branch },
                ),
                ..old(self)@
            }),
    {
        let ghost before = keyed_view(self.branch_cache@);
        let at = find(&self.branch_cache, key);
        let value = CachedBranch { refreshed_at, ttl, branch };
        if at < self.branch_cache.len() {
            self.branch_cache.set(at, Keyed { key: key.to_owned(), value });
            assert(keyed_view(self.branch_cache@) =~= before.update(at as int, (key@, value)));
        } else {
            self.branch_cache.push(Keyed { key: key.to_owned(), value });
            assert(keyed_view(self.branch_cache@) =~= before.push((key@, value)));
        }
    }

    /// Drop what is kept for rows that are gone.
    pub fn prune_to(&mut self, live_keys: &Vec<String>)
        requires
            old(self)@.wf(),
        ensures
            final(self)@ == old(self)@.pruned_to(text::texts(live_keys@)),
            final(self)@.wf(),
    {
        prune(&mut self.entry_rows, live_keys);
        prune(&mut self.entry_drags, live_keys);
        prune(&mut self.pr_badges, live_keys);
        prune(&mut self.remove_buttons, live_keys);
        prune(&mut self.branch_cache, live_keys);
        proof {
            lemma_pruned_given_out(old(self)@.entry_rows, text::texts(live_keys@), self.next_handle);
            lemma_pruned_given_out(old(self)@.pr_badges, text::texts(live_keys@), self.next_handle);
            lemma_pruned_given_out(
                old(self)@.remove_buttons,
                text::texts(live_keys@),
                self.next_handle,
            );
        }
    }
}

/// Dropping rows gives no handle out.
proof fn lemma_pruned_given_out(list: Seq<(Seq<char>, u64)>, live: Seq<Seq<char>>, next: u64)
    requires
        given_out(list, next),
    ensures
        given_out(pruned(list, live), next),
    decreases list.len(),
{
    reveal(Seq::filter);
    if list.len() > 0 {
        let rest = list.drop_last();
        lemma_pruned_given_out(rest, live, next);
        lemma_pruned_rows(rest, live);
        let kept = pruned(rest, live);
        let last = list.last();
        if live.contains(last.0) {
            assert(pruned(list, live) == kept.push(last));
            assert forall|i: int| 0 <= i < kept.len() implies (#[trigger] kept[i]).1 != last.1 by {
                assert(rest.contains(kept[i]));
            }
        } else {
            assert(pruned(list, live) == kept);
        }
    }
}

/// What stays after pruning: rows that were there, all of them live.
proof fn lemma_pruned_rows<V>(list: Seq<(Seq<char>, V)>, live: Seq<Seq<char>>)
    ensures
        forall|i: int|
            0 <= i < pruned(list, live).len() ==> list.contains(#[trigger] pruned(list, live)[i])
                && live.contains(pruned(list, live)[i].0),
    decreases list.len(),
{
    reveal(Seq::filter);
    if list.len() > 0 {
        let rest = list.drop_last();
        lemma_pruned_rows(rest, live);
        assert forall|i: int| 0 <= i < pruned(list, live).len() implies list.contains(
            #[trigger] pruned(list, live)[i],
        ) && live.contains(pruned(list, live)[i].0) by {
            if i < pruned(rest, live).len() {
                let row = pruned(rest, live)[i];
                assert(pruned(list, live)[i] == row);
                let at = rest.index_of(row);
                assert(list[at] == row);
            } else {
                assert(pruned(list, live)[i] == list.last());
            }
        }
    }
}

/// A row put last answers for its key unless an earlier one does.
proof fn lemma_kept_for_push<K, V>(list: Seq<(K, V)>, row: (K, V), key: K)
    ensures
        kept_for(list.push(row), key) == (if kept_for(list, key) is Some {
            kept_for(list, key)
        } else if row.0 == key {
            Some(row.1)
        } else {
            None
        }),
{
    lemma_slot(list, key);
    let at = slot(list, key);
    let all = list.push(row);
    assert forall|j: int| 0 <= j < at implies (#[trigger] all[j]).0 != key by {
        assert(list[j].0 != key);
    }
    if at < list.len() {
        lemma_slot_is(all, key, at);
    } else if row.0 == key {
        lemma_slot_is(all, key, at);
    } else {
        assert forall|j: int| 0 <= j < all.len() implies (#[trigger] all[j]).0 != key by {
            if j < list.len() {
                assert(list[j].0 != key);
            }
        }
        lemma_slot_is(all, key, all.len() as int);
    }
}

/// What is put for a key is what is kept for it, and nothing else changes.
pub proof fn lemma_put_kept<K, V>(list: Seq<(K, V)>, key: K, value: V, other: K)
    ensures
        kept_for(put(list, key, value), other) == (if other == key {
            Some(value)
        } else {
            kept_for(list, other)
        }),
{
    lemma_slot(list, key);
    lemma_slot(list, other);
    let at = slot(list, key);
    if at < list.len() {
        let after = list.update(at, (key, value));
        let its = slot(list, other);
        assert forall|j: int| 0 <= j < its implies (#[trigger] after[j]).0 != other by {
            assert(list[j].0 != other);
        }
        lemma_slot_is(after, other, its);
    } else {
        lemma_kept_for_push(list, (key, value), other);
    }
}

proof fn lemma_pruned_kept<V>(list: Seq<(Seq<char>, V)>, live: Seq<Seq<char>>, key: Seq<char>)
    ensures
        kept_for(pruned(list, live), key) == (if live.contains(key) {
            kept_for(list, key)
        } else {
            None
        }),
    decreases list.len(),
{
    reveal(Seq::filter);
    if list.len() > 0 {
        let rest = list.drop_last();
        lemma_pruned_kept(rest, live, key);
        lemma_kept_for_push(rest, list.last(), key);
        lemma_kept_for_push(pruned(rest, live), list.last(), key);
        assert(rest.push(list.last()) =~= list);
    }
}

/// A row that leaves the list leaves nothing behind, and a row that stays keeps
/// everything it had.
pub proof fn pruning_forgets_departed_rows(
    sidebar: SidebarView,
    live: Seq<Seq<char>>,
    key: Seq<char>,
)
    ensures
        ({
            let after = sidebar.pruned_to(live);
            &&& !live.contains(key) ==> {
                &&& kept_for(after.entry_rows, key) is None
                &&& kept_for(after.entry_drags, key) is None
                &&& kept_for(after.pr_badges, key) is None
                &&& kept_for(after.remove_buttons, key) is None
                &&& kept_for(after.branches, key) is None
            }
            &&& live.contains(key) ==> {
                &&& kept_for(after.entry_rows, key) == kept_for(sidebar.entry_rows, key)
                &&& kept_for(after.entry_drags, key) == kept_for(sidebar.entry_drags, key)
                &&& kept_for(after.pr_badges, key) == kept_for(sidebar.pr_badges, key)
                &&& kept_for(after.remove_buttons, key) == kept_for(sidebar.remove_buttons, key)
                &&& kept_for(after.branches, key) == kept_for(sidebar.branches, key)
            }
        }),
{
    lemma_pruned_kept(sidebar.entry_rows, live, key);
    lemma_pruned_kept(sidebar.entry_drags, live, key);
    lemma_pruned_kept(sidebar.pr_badges, live, key);
    lemma_pruned_kept(sidebar.remove_buttons, live, key);
    lemma_pruned_kept(sidebar.branches, live, key);
}

/// The body of a row and the start of its drag touch one interaction state: a
/// row's handle stays the same however often it is asked for. No other row
/// shares it, and a row that left the list and came back has a new one.
pub proof fn one_interaction_state_per_row(
    sidebar: SidebarView,
    key: Seq<char>,
    other: Seq<char>,
    live: Seq<Seq<char>>,
)
    requires
        sidebar.wf(),
        sidebar.next_handle < u64::MAX,
    ensures
        sidebar.with_row(key).row_handle(key) == sidebar.row_handle(key),
        key != other ==> sidebar.with_row(key).row_handle(other) != sidebar.row_handle(key),
        !live.contains(key) ==> sidebar.with_row(key).pruned_to(live).row_handle(key)
            != sidebar.row_handle(key),
{
    let rows = sidebar.entry_rows;
    let next = sidebar.next_handle;
    let after = sidebar.with_row(key);
    lemma_slot(rows, key);
    lemma_kept_for_push(rows, (key, next), key);
    lemma_kept_for_push(rows, (key, next), other);
    lemma_slot(after.entry_rows, key);
    lemma_slot(after.entry_rows, other);
    let mine = slot(after.entry_rows, key);
    let its = slot(after.entry_rows, other);
    assert(after.entry_rows[mine].1 == sidebar.row_handle(key));
    if kept_for(rows, key) is Some {
        assert(rows[slot(rows, key)].1 < next);
    }
    if key != other && its < after.entry_rows.len() {
        assert(mine != its);
        if kept_for(rows, key) is None {
            let slot_other = its;
            assert(slot_other < rows.len());
            assert(rows[slot_other].1 < next);
        }
    }
    lemma_pruned_kept(after.entry_rows, live, key);
}

/// What `.git` is at the root of a repository.
#[derive(Debug)]
pub enum DotGit {
    /// A directory, or nothing at all.
    Directory,
    /// A file with this content, as linked worktrees have; `None` when it cannot
    /// be read.
    File(Option<String>),
}

/// Where a repository's git directory is, as mathematical values.
pub enum GitDirView {
    Own,
    Linked(Seq<char>),
}

/// Where a repository's git directory is.
#[derive(Debug, PartialEq, Eq)]
pub enum GitDir {
    /// The `.git` directory at the root.
    Own,
    /// Where a `.git` file points: to be joined to the root, which an absolute
    /// path replaces. What is absolute is for the system to say.
    Linked(String),
}

impl View for GitDir {
    type V = GitDirView;

    open spec fn view(&self) -> GitDirView {
        match *self {
            GitDir::Own => GitDirView::Own,
            GitDir::Linked(target) => GitDirView::Linked(target@),
        }
    }
}

/// Where a repository's git directory is; nothing when the `.git` file cannot be
/// read or points nowhere.
pub open spec fn git_dir_of(dot_git: DotGit) -> Option<GitDirView> {
    match dot_git {
        DotGit::Directory => Some(GitDirView::Own),
        DotGit::File(Some(content)) => match text::after(text::trimmed(content@), "gitdir: "@) {
            Some(target) => Some(GitDirView::Linked(target)),
            None => None,
        },
        DotGit::File(None) => None,
    }
}

/// Where a repository's git directory is: the `.git` directory, or where a
/// `.git` file points.
pub fn git_dir(dot_git: &DotGit) -> (dir: Option<GitDir>)
    ensures
        match dir {
            Some(found) => git_dir_of(*dot_git) == Some(found@),
            None => git_dir_of(*dot_git) is None,
        },
{
    match dot_git {
        DotGit::Directory => Some(GitDir::Own),
        DotGit::File(Some(content)) => {
            let pointer = trim(content.as_str());
            match strip_prefix(pointer.as_str(), "gitdir: ") {
                Some(target) => Some(GitDir::Linked(target)),
                None => None,
            }
        },
        DotGit::File(None) => None,
    }
}

/// What the content of `HEAD` names: the branch, or the first eight characters
/// of a detached commit.
pub open spec fn head_branch(head: Seq<char>) -> Seq<char> {
    let line = text::trimmed(head);
    match text::after(line, "ref: refs/heads/"@) {
        Some(branch) => branch,
        None => if line.len() > 8 {
            line.take(8)
        } else {
            line
        },
    }
}

/// The current branch, or a short commit hash when no branch is checked out, by
/// the content of `HEAD` in the git directory.
pub fn read_git_head_branch(head: &str) -> (branch: String)
    ensures
        branch@ == head_branch(head@),
{
    let line = trim(head);
    match strip_prefix(line.as_str(), "ref: refs/heads/") {
        Some(branch) => branch,
        None => {
            let chars = chars_of(line.as_str());
            if chars.len() > 8 {
                let short = string_of(&chars, 0, 8);
                assert(short@ =~= line@.take(8));
                short
            } else {
                line
            }
        },
    }
}

/// A branch that was read counts for its time from when it was read, and one
/// read at a later instant than now counts unless it was given no time at all.
pub proof fn branches_count_for_their_time(cached: CachedBranch, now: u64)
    ensures
        now > cached.refreshed_at ==> (cached.is_fresh(now) <==> now < cached.refreshed_at
            + cached.ttl),
        now <= cached.refreshed_at ==> (cached.is_fresh(now) <==> cached.ttl > 0),
{
}

/// A branch that is stored is the one read back, until its time has passed,
/// and no other row's branch changes.
pub proof fn stored_branches_are_read_back(
    sidebar: SidebarView,
    key: Seq<char>,
    other: Seq<char>,
    cached: CachedBranch,
    now: u64,
)
    ensures
        ({
            let after = SidebarView {
                branches: put(sidebar.branches, key, cached),
                ..sidebar
            };
            &&& after.branch(key) == text::text_view(cached.branch)
            &&& after.needs_branch(key, now) == !cached.is_fresh(now)
            &&& other != key ==> after.branch(other) == sidebar.branch(other)
                && after.needs_branch(other, now) == sidebar.needs_branch(other, now)
        }),
{
    lemma_put_kept(sidebar.branches, key, cached, key);
    lemma_put_kept(sidebar.branches, key, cached, other);
}

/// A drag that is recorded is the one read back, and no other row is dragged
/// for it. A drag is active exactly when some row is dragged.
pub proof fn recorded_drags_are_read_back(
    sidebar: SidebarView,
    key: Seq<char>,
    other: Seq<char>,
    dragging: bool,
)
    ensures
        ({
            let after = SidebarView {
                entry_drags: put(sidebar.entry_drags, key, dragging),
                ..sidebar
            };
            &&& after.dragging(key) == dragging
            &&& other != key ==> after.dragging(other) == sidebar.dragging(other)
            &&& dragging ==> after.any_drag()
            &&& sidebar.dragging(key) ==> sidebar.any_drag()
        }),
{
    lemma_put_kept(sidebar.entry_drags, key, dragging, key);
    lemma_put_kept(sidebar.entry_drags, key, dragging, other);
    let after = put(sidebar.entry_drags, key, dragging);
    lemma_slot(after, key);
    lemma_slot(sidebar.entry_drags, key);
    if dragging {
        assert(after[slot(after, key)].1);
    }
    if sidebar.dragging(key) {
        assert(sidebar.entry_drags[slot(sidebar.entry_drags, key)].1);
    }
}

/// Each control of a row keeps its handle for as long as the row is listed, and
/// a new control gets one that no control of its kind has.
pub proof fn controls_keep_their_handles(sidebar: SidebarView, key: Seq<char>, other: Seq<char>)
    requires
        sidebar.wf(),
        sidebar.next_handle < u64::MAX,
    ensures
        kept_for(sidebar.with_row(key).entry_rows, key) == Some(sidebar.row_handle(key)),
        kept_for(sidebar.with_badge(key).pr_badges, key) == Some(sidebar.badge_handle(key)),
        kept_for(sidebar.with_remove(key).remove_buttons, key) == Some(sidebar.remove_handle(key)),
        kept_for(sidebar.entry_rows, other) is Some ==> kept_for(
            sidebar.with_row(key).entry_rows,
            other,
        ) == kept_for(sidebar.entry_rows, other),
        kept_for(sidebar.pr_badges, other) is Some ==> kept_for(
            sidebar.with_badge(key).pr_badges,
            other,
        ) == kept_for(sidebar.pr_badges, other),
        kept_for(sidebar.remove_buttons, other) is Some ==> kept_for(
            sidebar.with_remove(key).remove_buttons,
            other,
        ) == kept_for(sidebar.remove_buttons, other),
        key != other && kept_for(sidebar.entry_rows, other) is Some ==> sidebar.row_handle(key)
            != sidebar.row_handle(other),
        key != other && kept_for(sidebar.pr_badges, other) is Some ==> sidebar.badge_handle(key)
            != sidebar.badge_handle(other),
        key != other && kept_for(sidebar.remove_buttons, other) is Some ==> sidebar.remove_handle(
            key,
        ) != sidebar.remove_handle(other),
{
    lemma_slot(sidebar.entry_rows, key);
    lemma_slot(sidebar.entry_rows, other);
    lemma_slot(sidebar.pr_badges, key);
    lemma_slot(sidebar.pr_badges, other);
    lemma_slot(sidebar.remove_buttons, key);
    lemma_slot(sidebar.remove_buttons, other);
    lemma_kept_for_push(sidebar.entry_rows, (key, sidebar.next_handle), key);
    lemma_kept_for_push(sidebar.entry_rows, (key, sidebar.next_handle), other);
    lemma_kept_for_push(sidebar.pr_badges, (key, sidebar.next_handle), key);
    lemma_kept_for_push(sidebar.pr_badges, (key, sidebar.next_handle), other);
    lemma_kept_for_push(sidebar.remove_buttons, (key, sidebar.next_handle), key);
    lemma_kept_for_push(sidebar.remove_buttons, (key, sidebar.next_handle), other);
}

/// The branch is the name behind `ref: refs/heads/`, slashes and all; of a
/// detached head it is the first eight characters.
pub proof fn heads_name_their_branch(name: Seq<char>, back: Seq<char>)
    requires
        name.len() > 0,
        !text::is_space(name[0]) && !text::is_space(name.last()),
        forall|i: int| 0 <= i < back.len() ==> text::is_space(#[trigger] back[i]),
    ensures
        head_branch("ref: refs/heads/"@ + name + back) == name,
        !"ref: refs/heads/"@.is_prefix_of(name) ==> head_branch(name + back) == (if name.len() <= 8 {
            name
        } else {
            name.subrange(0, 8)
        }),
{
    reveal_strlit("ref: refs/heads/");
    let none = Seq::<char>::empty();
    let line = "ref: refs/heads/"@ + name;
    assert(!text::is_space(line[0]));
    text::trimming_takes_only_the_ends(none, line, back);
    assert(none + line + back =~= line + back);
    assert("ref: refs/heads/"@ =~= line.subrange(0, 16));
    assert(line.skip(16) =~= name);
    text::trimming_takes_only_the_ends(none, name, back);
    assert(none + name + back =~= name + back);
}

/// A linked worktree's git directory is what its file names behind `gitdir: `;
/// a file that names none has none, and a directory is its own.
pub proof fn git_files_name_their_directory(
    content: String,
    other: String,
    target: Seq<char>,
    back: Seq<char>,
)
    requires
        target.len() > 0,
        !text::is_space(target.last()),
        forall|i: int| 0 <= i < back.len() ==> text::is_space(#[trigger] back[i]),
        content@ == "gitdir: "@ + target + back,
        !"gitdir: "@.is_prefix_of(text::trimmed(other@)),
    ensures
        git_dir_of(DotGit::File(Some(content))) == Some(GitDirView::Linked(target)),
        git_dir_of(DotGit::File(Some(other))) is None,
        git_dir_of(DotGit::File(None)) is None,
        git_dir_of(DotGit::Directory) == Some(GitDirView::Own),
{
    reveal_strlit("gitdir: ");
    let none = Seq::<char>::empty();
    let line = "gitdir: "@ + target;
    assert(!text::is_space(line[0]));
    text::trimming_takes_only_the_ends(none, line, back);
    assert(none + line + back =~= line + back);
    assert("gitdir: "@ =~= line.subrange(0, 8));
    assert(line.skip(8) =~= target);
}

} // verus!
