//! Reordering repository rows by dragging: neighbours, the rows a drag has
//! passed, and how a dropped row merges into the stored order.
use vstd::prelude::*;
use crate::keys;
use crate::keys::{copy_keys, drop_key, holds, position};
use crate::paths;
use crate::paths::{drop_path, is_same_path, path_position};
use crate::text;

verus! {

/// The entry that owns what is bound to `root`: the one at that path, if it is
/// listed.
pub open spec fn owner_of(entry_paths: Seq<Seq<char>>, root: Seq<char>) -> Option<Seq<char>> {
    if paths::lists(entry_paths, root) {
        Some(entry_paths[paths::path_pos(entry_paths, root)])
    } else {
        None
    }
}

/// Owning entry for a repo-bound tab: its bound root, while that root is still
/// registered. `None` means the tab lands loose because its bound root left the
/// registry.
///
/// Attribution is by binding, not by where the terminal's shell happens to
/// stand: a path inside an entry is not the entry.
pub fn repo_mode_bound_tab_owner(bound_root: &str, entry_paths: &Vec<String>) -> (owner: Option<
    String,
>)
    ensures
        text::text_view(owner) == owner_of(text::texts(entry_paths@), bound_root@),
{
    match path_position(entry_paths, bound_root) {
        Some(index) => Some(entry_paths[index].clone()),
        None => None,
    }
}

/// The row that the dragged one would exchange places with, one step in the
/// given direction.
pub open spec fn row_neighbor(rows: Seq<Seq<char>>, dragged: Seq<char>, forward: bool) -> Option<
    int,
> {
    let at = paths::path_pos(rows, dragged);
    if at >= rows.len() {
        None
    } else if forward {
        if at + 1 < rows.len() {
            Some(at + 1)
        } else {
            None
        }
    } else if at > 0 {
        Some(at - 1)
    } else {
        None
    }
}

/// An index as a mathematical value.
pub open spec fn index_view(index: Option<usize>) -> Option<int> {
    match index {
        Some(i) => Some(i as int),
        None => None,
    }
}

/// The repository row `dragged_path` would swap with when it travels one step
/// in `forward`'s direction, as an index into the rendered order. `None` is the
/// clamp: the drag stays put, at an end of the list and for a row that is no
/// longer listed alike. The result always names a row of the list, so nothing
/// below the list can ever be a swap target.
pub fn repo_mode_row_neighbor(entry_paths: &Vec<String>, dragged_path: &str, forward: bool) -> (out:
    Option<usize>)
    ensures
        index_view(out) == row_neighbor(text::texts(entry_paths@), dragged_path@, forward),
        out matches Some(i) ==> i < entry_paths@.len(),
{
    match path_position(entry_paths, dragged_path) {
        Some(at) => {
            if forward {
                if at + 1 < entry_paths.len() {
                    Some(at + 1)
                } else {
                    None
                }
            } else if at > 0 {
                Some(at - 1)
            } else {
                None
            }
        },
        None => None,
    }
}

/// Travelling one step and back again leads back to the dragged row: the
/// neighbour of the neighbour, in the other direction, is the row itself.
pub proof fn neighbors_are_mutual(rows: Seq<Seq<char>>, dragged: Seq<char>, forward: bool)
    requires
        paths::unrepeated(rows),
        row_neighbor(rows, dragged, forward) is Some,
    ensures
        ({
            let there = row_neighbor(rows, dragged, forward)->0;
            row_neighbor(rows, rows[there], !forward) == Some(paths::path_pos(rows, dragged))
        }),
{
    let known = paths::all_parts(rows);
    let there = row_neighbor(rows, dragged, forward)->0;
    keys::lemma_key_pos(known, paths::parts(dragged));
    assert(known[there] == paths::parts(rows[there]));
    keys::lemma_key_pos_unique(known, known[there], there);
}

/// The row the dragged repository should swap with this frame, as an index into
/// the rendered order, or `None` for "stay put".
///
/// `above_passed` says that the dragged row's midpoint lies above the midpoint
/// of the row above it, and that this row is on screen; `below_passed` says the
/// same of the row below. A neighbour that is not painted, or that is scrolled
/// out of view, counts as not passed.
pub fn repo_mode_row_swap_target(
    entry_paths: &Vec<String>,
    dragged_path: &str,
    above_passed: bool,
    below_passed: bool,
) -> (out: Option<usize>)
    ensures
        index_view(out) == ({
            let rows = text::texts(entry_paths@);
            if above_passed && row_neighbor(rows, dragged_path@, false) is Some {
                row_neighbor(rows, dragged_path@, false)
            } else if below_passed {
                row_neighbor(rows, dragged_path@, true)
            } else {
                None
            }
        }),
        out matches Some(i) ==> i < entry_paths@.len(),
{
    if above_passed {
        if let Some(above) = repo_mode_row_neighbor(entry_paths, dragged_path, false) {
            return Some(above);
        }
    }
    if below_passed {
        return repo_mode_row_neighbor(entry_paths, dragged_path, true);
    }
    None
}

/// Behind which of `rest` a row belongs that follows `pin[..at]`: behind the
/// nearest preceding pin entry that `rest` knows, or in front of everything.
pub open spec fn slot_after(rest: Seq<Seq<char>>, pin: Seq<Seq<char>>, at: int) -> int
    decreases at,
{
    if at <= 0 {
        0
    } else if paths::lists(rest, pin[at - 1]) {
        paths::path_pos(rest, pin[at - 1]) + 1
    } else {
        slot_after(rest, pin, at - 1)
    }
}

/// The order the registry holds after the row at `pin_index` was dropped.
pub open spec fn merged_order(
    stored: Seq<Seq<char>>,
    pin: Seq<Seq<char>>,
    pin_index: int,
) -> Seq<Seq<char>> {
    if stored.len() == 0 {
        pin
    } else {
        let rest = paths::without_path(stored, pin[pin_index]);
        rest.insert(slot_after(rest, pin, pin_index), pin[pin_index])
    }
}

proof fn lemma_slot_in_range(rest: Seq<Seq<char>>, pin: Seq<Seq<char>>, at: int)
    requires
        0 <= at <= pin.len(),
    ensures
        0 <= slot_after(rest, pin, at) <= rest.len(),
    decreases at,
{
    if at > 0 {
        if paths::lists(rest, pin[at - 1]) {
            keys::lemma_key_pos(paths::all_parts(rest), paths::parts(pin[at - 1]));
        } else {
            lemma_slot_in_range(rest, pin, at - 1);
        }
    }
}

/// Where the dragged row lands in the order the registry is holding.
///
/// The first drag hands the whole list over: with nothing stored, the session
/// pin is the order the user is looking at. Every drag after that moves only
/// the dragged row and leaves every other stored position in its existing
/// relative order. The pin and the stored order are not index-aligned, so the
/// dragged row is re-inserted after the nearest preceding pin entry that the
/// stored order also knows.
pub fn merge_dragged_row(stored: &Vec<String>, pin: &Vec<String>, pin_index: usize) -> (merged: Vec<
    String,
>)
    requires
        pin_index < pin@.len(),
    ensures
        text::texts(merged@) == merged_order(
            text::texts(stored@),
            text::texts(pin@),
            pin_index as int,
        ),
{
    if stored.len() == 0 {
        return copy_keys(pin);
    }
    let ghost pinned = text::texts(pin@);
    let mut merged = drop_path(stored, pin[pin_index].as_str());
    let ghost rest = text::texts(merged@);
    let mut at: usize = pin_index;
    let mut slot: usize = 0;
    while at > 0
        invariant_except_break
            at <= pin_index < pin@.len(),
            pinned == text::texts(pin@),
            rest == text::texts(merged@),
            slot == 0,
            slot_after(rest, pinned, pin_index as int) == slot_after(rest, pinned, at as int),
        ensures
            slot == slot_after(rest, pinned, pin_index as int),
            slot <= merged.len(),
        decreases at,
    {
        assert(pinned[at - 1] == pin@[at - 1]@);
        if let Some(index) = path_position(&merged, pin[at - 1].as_str()) {
            slot = index + 1;
            break;
        }
        at -= 1;
    }
    merged.insert(slot, pin[pin_index].clone());
    assert(text::texts(merged@) =~= rest.insert(slot as int, pinned[pin_index as int]));
    merged
}

proof fn lemma_filter_insert(rest: Seq<Seq<char>>, slot: int, key: Seq<char>)
    requires
        0 <= slot <= rest.len(),
    ensures
        paths::without_path(rest.insert(slot, key), key) == paths::without_path(rest, key),
    decreases rest.len(),
{
    reveal(Seq::filter);
    let whole = rest.insert(slot, key);
    if slot == rest.len() {
        assert(whole =~= rest.push(key));
        assert(whole.drop_last() =~= rest);
    } else {
        lemma_filter_insert(rest.drop_last(), slot, key);
        assert(whole.drop_last() =~= rest.drop_last().insert(slot, key));
        assert(whole.last() == rest.last());
    }
}

proof fn lemma_without_twice(stored: Seq<Seq<char>>, key: Seq<char>)
    ensures
        paths::without_path(paths::without_path(stored, key), key) == paths::without_path(
            stored,
            key,
        ),
    decreases stored.len(),
{
    reveal(Seq::filter);
    let keep = |other: Seq<char>| !paths::same_path(other, key);
    let rest = stored.filter(keep);
    if stored.len() > 0 {
        lemma_without_twice(stored.drop_last(), key);
        if keep(stored.last()) {
            assert(rest.drop_last() =~= stored.drop_last().filter(keep));
        }
    }
}

/// A drop moves only the dragged row: every other stored row keeps its place
/// relative to the others, and no row is added or lost but the dragged one.
pub proof fn drop_moves_only_the_dragged_row(
    stored: Seq<Seq<char>>,
    pin: Seq<Seq<char>>,
    pin_index: int,
)
    requires
        stored.len() > 0,
        0 <= pin_index < pin.len(),
    ensures
        paths::without_path(merged_order(stored, pin, pin_index), pin[pin_index])
            == paths::without_path(stored, pin[pin_index]),
        merged_order(stored, pin, pin_index).contains(pin[pin_index]),
        paths::unrepeated(stored) ==> paths::unrepeated(merged_order(stored, pin, pin_index)),
{
    let key = pin[pin_index];
    let rest = paths::without_path(stored, key);
    let slot = slot_after(rest, pin, pin_index);
    lemma_slot_in_range(rest, pin, pin_index);
    lemma_filter_insert(rest, slot, key);
    lemma_without_twice(stored, key);
    let whole = merged_order(stored, pin, pin_index);
    assert(whole == rest.insert(slot, key));
    assert(whole[slot] == key);
    if paths::unrepeated(stored) {
        let known = paths::all_parts(stored);
        let part = paths::parts(key);
        paths::lemma_without_path(stored, key);
        keys::lemma_without(known, part);
        keys::lemma_insert_distinct(keys::without(known, part), slot, part);
        assert(paths::all_parts(whole) =~= keys::without(known, part).insert(slot, part));
    }
}

proof fn lemma_slot_after(rest: Seq<Seq<char>>, pin: Seq<Seq<char>>, at: int, near: int)
    requires
        0 <= near < at <= pin.len(),
        paths::lists(rest, pin[near]),
        forall|i: int| near < i < at ==> !paths::lists(rest, #[trigger] pin[i]),
    ensures
        slot_after(rest, pin, at) == paths::path_pos(rest, pin[near]) + 1,
    decreases at,
{
    if at - 1 != near {
        assert(!paths::lists(rest, pin[at - 1]));
        lemma_slot_after(rest, pin, at - 1, near);
    }
}

proof fn lemma_slot_first(rest: Seq<Seq<char>>, pin: Seq<Seq<char>>, at: int)
    requires
        0 <= at <= pin.len(),
        forall|i: int| 0 <= i < at ==> !paths::lists(rest, #[trigger] pin[i]),
    ensures
        slot_after(rest, pin, at) == 0,
    decreases at,
{
    if at > 0 {
        assert(!paths::lists(rest, pin[at - 1]));
        lemma_slot_first(rest, pin, at - 1);
    }
}

/// The dropped row lands directly behind the nearest row that precedes it on
/// screen and that the stored order knows; it comes first when the stored order
/// knows no row that precedes it.
pub proof fn drop_follows_the_preceding_row(
    stored: Seq<Seq<char>>,
    pin: Seq<Seq<char>>,
    pin_index: int,
)
    requires
        stored.len() > 0,
        paths::unrepeated(pin),
        0 <= pin_index < pin.len(),
    ensures
        ({
            let merged = merged_order(stored, pin, pin_index);
            let at = paths::path_pos(merged, pin[pin_index]);
            &&& at < merged.len()
            &&& merged[at] == pin[pin_index]
            &&& forall|near: int|
                0 <= near < pin_index && paths::lists(stored, #[trigger] pin[near]) && (forall|
                    i: int,
                |
                    near < i < pin_index ==> !paths::lists(stored, #[trigger] pin[i])) ==> 0 < at
                    && paths::same_path(merged[at - 1], pin[near])
            &&& (forall|i: int| 0 <= i < pin_index ==> !paths::lists(stored, #[trigger] pin[i]))
                ==> at == 0
        }),
{
    let key = pin[pin_index];
    let part = paths::parts(key);
    let rest = paths::without_path(stored, key);
    let known = paths::all_parts(stored);
    let others = paths::all_parts(rest);
    paths::lemma_without_path(stored, key);
    keys::lemma_without(known, part);
    lemma_slot_in_range(rest, pin, pin_index);
    let slot = slot_after(rest, pin, pin_index);
    let merged = rest.insert(slot, key);
    let all = paths::all_parts(merged);
    assert forall|j: int| 0 <= j < slot implies all[j] != part by {
        assert(all[j] == others[j]);
        assert(others.contains(others[j]));
    }
    assert(merged[slot] == key);
    assert(all[slot] == part);
    keys::lemma_key_pos_unique(all, part, slot);
    assert forall|near: int|
        0 <= near < pin_index && paths::lists(stored, #[trigger] pin[near]) && (forall|i: int|
            near < i < pin_index ==> !paths::lists(stored, #[trigger] pin[i])) implies 0 < slot
        && paths::same_path(merged[slot - 1], pin[near]) by {
        let above = paths::parts(pin[near]);
        assert(paths::all_parts(pin)[near] == above && paths::all_parts(pin)[pin_index] == part);
        assert(others.contains(above));
        assert forall|i: int| near < i < pin_index implies !paths::lists(
            rest,
            #[trigger] pin[i],
        ) by {
            assert(!paths::lists(stored, pin[i]));
            assert(paths::all_parts(pin)[i] == paths::parts(pin[i]));
        }
        lemma_slot_after(rest, pin, pin_index, near);
        keys::lemma_key_pos(others, above);
        assert(merged[slot - 1] == rest[slot - 1]);
        assert(others[slot - 1] == paths::parts(rest[slot - 1]));
    }
    if forall|i: int| 0 <= i < pin_index ==> !paths::lists(stored, #[trigger] pin[i]) {
        assert forall|i: int| 0 <= i < pin_index implies !paths::lists(
            rest,
            #[trigger] pin[i],
        ) by {
            assert(!paths::lists(stored, pin[i]));
            assert(paths::all_parts(pin)[i] == paths::parts(pin[i]));
            assert(paths::all_parts(pin)[pin_index] == part);
        }
        lemma_slot_first(rest, pin, pin_index);
    }
}

/// A repository-row drag in flight, as mathematical values.
pub struct RowDragView {
    pub path: Seq<char>,
    pub passed_rows: Set<Seq<char>>,
}

/// A repository-row drag in flight: the row, and the rows it is now on the
/// other side of than it was when the drag started.
#[derive(Debug)]
pub struct RepoModeRowDrag {
    /// Registry key of the row being dragged.
    pub path: String,
    /// The rows passed and not passed back.
    pub passed_rows: Vec<String>,
}

impl View for RepoModeRowDrag {
    type V = RowDragView;

    open spec fn view(&self) -> RowDragView {
        RowDragView { path: self.path@, passed_rows: text::texts(self.passed_rows@).to_set() }
    }
}

/// A row passed: one that was passed before is passed back.
pub open spec fn toggled(rows: Set<Seq<char>>, row: Seq<char>) -> Set<Seq<char>> {
    if rows.contains(row) {
        rows.remove(row)
    } else {
        rows.insert(row)
    }
}

impl RepoModeRowDrag {
    /// Every passed row is recorded once.
    pub open spec fn wf(self) -> bool {
        text::texts(self.passed_rows@).no_duplicates()
    }

    /// A drag that has passed nothing yet.
    pub fn new(path: String) -> (drag: Self)
        ensures
            drag.wf(),
            drag@ == (RowDragView { path: path@, passed_rows: Set::empty() }),
    {
        let drag = RepoModeRowDrag { path, passed_rows: Vec::new() };
        assert(drag@.passed_rows =~= Set::<Seq<char>>::empty());
        drag
    }

    /// Note that the dragged row has exchanged places with `neighbor`.
    ///
    /// Membership is toggled rather than accumulated, so a drag that passes a
    /// row and passes it back leaves nothing behind.
    pub fn record_passed_row(&mut self, neighbor: &str)
        requires
            old(self).wf(),
        ensures
            final(self).wf(),
            final(self)@ == (RowDragView {
                path: old(self)@.path,
                passed_rows: toggled(old(self)@.passed_rows, neighbor@),
            }),
    {
        let ghost rows = text::texts(self.passed_rows@);
        if holds(&self.passed_rows, neighbor) {
            let kept = drop_key(&self.passed_rows, neighbor);
            proof {
                keys::lemma_without(rows, neighbor@);
                assert(text::texts(kept@).to_set() =~= rows.to_set().remove(neighbor@));
            }
            self.passed_rows = kept;
        } else {
            self.passed_rows.push(neighbor.to_owned());
            proof {
                assert(text::texts(self.passed_rows@) =~= rows.push(neighbor@));
                let after = rows.push(neighbor@);
                assert(after.to_set() =~= rows.to_set().insert(neighbor@)) by {
                    assert forall|k: Seq<char>| after.contains(k) <==> rows.contains(k) || k
                        == neighbor@ by {
                        if rows.contains(k) {
                            let j = choose|j: int| 0 <= j < rows.len() && rows[j] == k;
                            assert(after[j] == k);
                        }
                        assert(after[rows.len() as int] == neighbor@);
                    }
                }
            }
        }
    }

    /// Whether the dragged row ended up on a different side of any other row
    /// than it started on.
    pub fn moved_a_row(&self) -> (moved: bool)
        ensures
            moved == (self@.passed_rows != Set::<Seq<char>>::empty()),
    {
        let moved = self.passed_rows.len() > 0;
        proof {
            let rows = text::texts(self.passed_rows@);
            if moved {
                assert(rows.contains(rows[0]));
                assert(self@.passed_rows.contains(rows[0]));
            } else {
                assert(self@.passed_rows =~= Set::<Seq<char>>::empty());
            }
        }
        moved
    }
}

/// A drag that passes a row and passes it back is a drag that never passed it.
pub proof fn passing_back_undoes_passing(rows: Set<Seq<char>>, row: Seq<char>)
    ensures
        toggled(toggled(rows, row), row) == rows,
{
    assert(toggled(toggled(rows, row), row) =~= rows);
}

/// How a swap moves the row that a drag reads scrolling off.
#[derive(Clone, Copy, Debug, PartialEq, Eq, Structural)]
pub enum ReferenceShift {
    /// With the dragged row: it is the dragged row.
    Along,
    /// Opposite to the dragged row: it is the row that was passed.
    Against,
    /// Not at all.
    Still,
}

/// How the swap of `dragged` with `neighbor` moves the reference row: a reorder
/// that moves it is not a scroll.
pub fn reference_shift(reference: Option<&str>, dragged: &str, neighbor: &str) -> (shift:
    ReferenceShift)
    ensures
        shift == (match reference {
            Some(key) => if paths::same_path(key@, dragged@) {
                ReferenceShift::Along
            } else if paths::same_path(key@, neighbor@) {
                ReferenceShift::Against
            } else {
                ReferenceShift::Still
            },
            None => ReferenceShift::Still,
        }),
{
    match reference {
        Some(key) => {
            if is_same_path(key, dragged) {
                ReferenceShift::Along
            } else if is_same_path(key, neighbor) {
                ReferenceShift::Against
            } else {
                ReferenceShift::Still
            }
        },
        None => ReferenceShift::Still,
    }
}

/// Exchange two rows of the pin. Returns whether both were there.
pub(crate) fn exchange_rows(pin: &mut Vec<String>, dragged: &str, neighbor: &str) -> (swapped: bool)
    ensures
        ({
            let rows = text::texts(old(pin)@);
            let from = keys::key_pos(rows, dragged@);
            let to = keys::key_pos(rows, neighbor@);
            &&& swapped == (from < rows.len() && to < rows.len())
            &&& text::texts(final(pin)@) == (if swapped {
                keys::exchanged(rows, from, to)
            } else {
                rows
            })
        }),
{
    match (position(pin, dragged), position(pin, neighbor)) {
        (Some(from), Some(to)) => {
            let ghost rows = text::texts(pin@);
            let first = pin[from].clone();
            let second = pin[to].clone();
            pin.set(from, second);
            pin.set(to, first);
            assert(text::texts(pin@) =~= keys::exchanged(rows, from as int, to as int));
            true
        },
        _ => false,
    }
}

/// The neighbor of a row is the next one in the direction it is dragged, and a
/// row at that end, or one that is not listed, has none.
pub proof fn neighbors_are_next_to_the_row(rows: Seq<Seq<char>>, dragged: Seq<char>, at: int)
    requires
        0 <= at <= rows.len(),
        at < rows.len() ==> paths::same_path(rows[at], dragged),
        forall|j: int| 0 <= j < at ==> !paths::same_path(#[trigger] rows[j], dragged),
    ensures
        row_neighbor(rows, dragged, true) == (if at + 1 < rows.len() {
            Some(at + 1)
        } else {
            None
        }),
        row_neighbor(rows, dragged, false) == (if 0 < at < rows.len() {
            Some(at - 1)
        } else {
            None
        }),
{
    let known = paths::all_parts(rows);
    assert forall|j: int| 0 <= j < at implies known[j] != paths::parts(dragged) by {
        assert(!paths::same_path(rows[j], dragged));
    }
    keys::lemma_key_pos_unique(known, paths::parts(dragged), at);
}

/// A tab belongs to the first entry whose path spells its root, and to none
/// where no entry's does.
pub proof fn owners_spell_the_root(entries: Seq<Seq<char>>, root: Seq<char>, at: int)
    requires
        0 <= at <= entries.len(),
        at < entries.len() ==> paths::same_path(entries[at], root),
        forall|j: int| 0 <= j < at ==> !paths::same_path(#[trigger] entries[j], root),
    ensures
        owner_of(entries, root) == (if at < entries.len() {
            Some(entries[at])
        } else {
            None
        }),
{
    let known = paths::all_parts(entries);
    assert forall|j: int| 0 <= j < at implies known[j] != paths::parts(root) by {
        assert(!paths::same_path(entries[j], root));
    }
    keys::lemma_key_pos_unique(known, paths::parts(root), at);
    keys::lemma_key_pos(known, paths::parts(root));
}

/// Passing a row changes whether that row counts as passed, and no other.
pub proof fn passing_counts_one_row(rows: Set<Seq<char>>, row: Seq<char>, other: Seq<char>)
    ensures
        toggled(rows, row).contains(row) <==> !rows.contains(row),
        other != row ==> (toggled(rows, row).contains(other) <==> rows.contains(other)),
{
}

/// Without a stored order, dropping a row stores the order that is shown.
pub proof fn first_order_is_what_is_shown(pin: Seq<Seq<char>>, pin_index: int)
    ensures
        merged_order(Seq::empty(), pin, pin_index) == pin,
{
}

} // verus!
