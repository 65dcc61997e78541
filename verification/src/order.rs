//! Orders: how texts compare, and a stable sort.
use vstd::prelude::*;
use crate::text::chars_of;

verus! {

/// Whether `a` comes before `b` in the dictionary order of code points.
pub open spec fn text_before(a: Seq<char>, b: Seq<char>) -> bool
    decreases a.len(),
{
    if b.len() == 0 {
        false
    } else if a.len() == 0 {
        true
    } else if a[0] != b[0] {
        a[0] < b[0]
    } else {
        text_before(a.skip(1), b.skip(1))
    }
}

/// Whether `a` comes before `b` in the dictionary order of code points.
pub(crate) fn text_less(a: &str, b: &str) -> (less: bool)
    ensures
        less == text_before(a@, b@),
{
    let left = chars_of(a);
    let right = chars_of(b);
    let mut i: usize = 0;
    assert(a@.skip(0) =~= a@);
    assert(b@.skip(0) =~= b@);
    while i < left.len() && i < right.len()
        invariant
            i <= left@.len(),
            i <= right@.len(),
            left@ == a@,
            right@ == b@,
            text_before(a@, b@) == text_before(a@.skip(i as int), b@.skip(i as int)),
        decreases left@.len() - i,
    {
        if left[i] != right[i] {
            return left[i] < right[i];
        }
        assert(a@.skip(i as int).skip(1) =~= a@.skip(i + 1));
        assert(b@.skip(i as int).skip(1) =~= b@.skip(i + 1));
        i += 1;
    }
    i < right.len()
}

/// No text comes before itself, and of two different texts exactly one comes
/// first.
pub proof fn text_order_is_total(a: Seq<char>, b: Seq<char>)
    ensures
        !text_before(a, a),
        a != b ==> (text_before(a, b) <==> !text_before(b, a)),
    decreases a.len(),
{
    if a.len() > 0 {
        text_order_is_total(a.skip(1), b.skip(1));
        if b.len() > 0 && a[0] == b[0] && a.skip(1) == b.skip(1) {
            assert forall|i: int| 0 <= i < a.len() implies a[i] == b[i] by {
                if i > 0 {
                    assert(a.skip(1)[i - 1] == b.skip(1)[i - 1]);
                }
            }
            assert(a.len() == a.skip(1).len() + 1);
            assert(b.len() == b.skip(1).len() + 1);
            assert(a =~= b);
        }
    } else if b.len() == 0 {
        assert(a =~= b);
    }
}

/// The dictionary order chains.
pub proof fn text_order_chains(a: Seq<char>, b: Seq<char>, c: Seq<char>)
    requires
        text_before(a, b),
        text_before(b, c),
    ensures
        text_before(a, c),
    decreases a.len(),
{
    if a.len() > 0 && b.len() > 0 && c.len() > 0 && a[0] == b[0] && b[0] == c[0] {
        text_order_chains(a.skip(1), b.skip(1), c.skip(1));
    }
}

/// Where two texts first differ decides between them: the smaller code point
/// comes first, and a text comes before every longer one that it begins.
pub proof fn first_difference_decides(a: Seq<char>, b: Seq<char>, at: int)
    requires
        0 <= at <= a.len(),
        at <= b.len(),
        forall|i: int| 0 <= i < at ==> a[i] == b[i],
        at < a.len() && at < b.len() ==> a[at] != b[at],
    ensures
        at < a.len() && at < b.len() ==> (text_before(a, b) <==> a[at] < b[at]),
        at == a.len() ==> (text_before(a, b) <==> a.len() < b.len()),
        at == b.len() ==> !text_before(a, b),
    decreases at,
{
    if at > 0 {
        assert(a[0] == b[0]);
        assert forall|i: int| 0 <= i < at - 1 implies a.skip(1)[i] == b.skip(1)[i] by {
            assert(a[i + 1] == b[i + 1]);
        }
        first_difference_decides(a.skip(1), b.skip(1), at - 1);
    }
}

/// `item` put into a sorted run behind everything that it does not come before.
pub open spec fn insert_by<T>(sorted: Seq<T>, item: T, before: spec_fn(T, T) -> bool) -> Seq<T>
    decreases sorted.len(),
{
    if sorted.len() == 0 {
        seq![item]
    } else if before(item, sorted.last()) {
        insert_by(sorted.drop_last(), item, before).push(sorted.last())
    } else {
        sorted.push(item)
    }
}

/// The stable sort of `items` by `before`.
pub open spec fn stable_sort<T>(items: Seq<T>, before: spec_fn(T, T) -> bool) -> Seq<T>
    decreases items.len(),
{
    if items.len() == 0 {
        Seq::empty()
    } else {
        insert_by(stable_sort(items.drop_last(), before), items.last(), before)
    }
}

/// What it takes of `before` for sorting by it to make sense: nothing comes
/// before itself, no two items come before each other, and "does not come
/// before" chains.
pub open spec fn weak_order<T>(before: spec_fn(T, T) -> bool) -> bool {
    &&& forall|a: T, b: T| #[trigger] before(a, b) ==> !before(b, a)
    &&& forall|a: T, b: T, c: T|
        !(#[trigger] before(a, b)) && !(#[trigger] before(b, c)) ==> !before(a, c)
}

/// Nothing in the run comes before something in front of it.
pub open spec fn is_ordered<T>(items: Seq<T>, before: spec_fn(T, T) -> bool) -> bool {
    forall|i: int, j: int| 0 <= i < j < items.len() ==> !before(items[j], items[i])
}

proof fn lemma_insert_permutes<T>(sorted: Seq<T>, item: T, before: spec_fn(T, T) -> bool)
    ensures
        insert_by(sorted, item, before).to_multiset() == sorted.to_multiset().insert(item),
        insert_by(sorted, item, before).len() == sorted.len() + 1,
    decreases sorted.len(),
{
    broadcast use vstd::seq_lib::group_to_multiset_ensures;

    if sorted.len() == 0 {
        assert(sorted =~= Seq::<T>::empty());
        assert(seq![item] =~= Seq::<T>::empty().push(item));
    } else if before(item, sorted.last()) {
        lemma_insert_permutes(sorted.drop_last(), item, before);
        assert(sorted =~= sorted.drop_last().push(sorted.last()));
        assert(insert_by(sorted, item, before).to_multiset() =~= sorted.to_multiset().insert(item));
    }
}

/// Sorting loses nothing and adds nothing.
pub proof fn sort_permutes<T>(items: Seq<T>, before: spec_fn(T, T) -> bool)
    ensures
        stable_sort(items, before).to_multiset() == items.to_multiset(),
        stable_sort(items, before).len() == items.len(),
    decreases items.len(),
{
    broadcast use vstd::seq_lib::group_to_multiset_ensures;

    if items.len() == 0 {
        assert(items =~= Seq::<T>::empty());
    } else {
        sort_permutes(items.drop_last(), before);
        lemma_insert_permutes(stable_sort(items.drop_last(), before), items.last(), before);
        assert(items =~= items.drop_last().push(items.last()));
    }
}

proof fn lemma_insert_orders<T>(sorted: Seq<T>, item: T, before: spec_fn(T, T) -> bool)
    requires
        weak_order(before),
        is_ordered(sorted, before),
    ensures
        is_ordered(insert_by(sorted, item, before), before),
        forall|i: int|
            0 <= i < insert_by(sorted, item, before).len() ==> {
                ||| #[trigger] insert_by(sorted, item, before)[i] == item
                ||| sorted.contains(insert_by(sorted, item, before)[i])
            },
    decreases sorted.len(),
{
    let out = insert_by(sorted, item, before);
    if sorted.len() == 0 {
    } else if before(item, sorted.last()) {
        let init = sorted.drop_last();
        let inner = insert_by(init, item, before);
        lemma_insert_orders(init, item, before);
        assert forall|i: int| 0 <= i < out.len() implies {
            ||| #[trigger] out[i] == item
            ||| sorted.contains(out[i])
        } by {
            if i < inner.len() {
                assert(out[i] == inner[i]);
                if inner[i] != item {
                    assert(init.contains(inner[i]));
                    let k = choose|k: int| 0 <= k < init.len() && init[k] == inner[i];
                    assert(sorted[k] == inner[i]);
                }
            } else {
                assert(out[i] == sorted.last());
                assert(sorted[sorted.len() - 1] == out[i]);
            }
        }
        assert forall|i: int, j: int| 0 <= i < j < out.len() implies !before(out[j], out[i]) by {
            if j < inner.len() {
                assert(out[i] == inner[i] && out[j] == inner[j]);
            } else {
                assert(out[j] == sorted.last());
                assert(out[i] == inner[i]);
                if inner[i] == item {
                } else {
                    assert(init.contains(inner[i]));
                    let k = choose|k: int| 0 <= k < init.len() && init[k] == inner[i];
                    assert(sorted[k] == inner[i]);
                    assert(!before(sorted[sorted.len() - 1], sorted[k]));
                }
            }
        }
    } else {
        assert forall|i: int| 0 <= i < out.len() implies {
            ||| #[trigger] out[i] == item
            ||| sorted.contains(out[i])
        } by {
            if i < sorted.len() {
                assert(out[i] == sorted[i]);
            }
        }
        assert forall|i: int, j: int| 0 <= i < j < out.len() implies !before(out[j], out[i]) by {
            if j == sorted.len() {
                assert(out[i] == sorted[i]);
                let last = sorted[sorted.len() - 1];
                if i < sorted.len() - 1 {
                    assert(!before(last, sorted[i]));
                }
                assert(!before(item, last));
                assert(!before(item, sorted[i]));
            } else {
                assert(out[i] == sorted[i] && out[j] == sorted[j]);
            }
        }
    }
}

/// Sorting by a proper order leaves nothing in front of something it belongs
/// behind.
pub proof fn sort_orders<T>(items: Seq<T>, before: spec_fn(T, T) -> bool)
    requires
        weak_order(before),
    ensures
        is_ordered(stable_sort(items, before), before),
    decreases items.len(),
{
    if items.len() > 0 {
        sort_orders(items.drop_last(), before);
        lemma_insert_orders(stable_sort(items.drop_last(), before), items.last(), before);
    }
}

proof fn lemma_insert_keeps<T>(
    sorted: Seq<T>,
    item: T,
    before: spec_fn(T, T) -> bool,
    keep: spec_fn(T) -> bool,
)
    requires
        forall|e: T| keep(e) && keep(item) ==> !(#[trigger] before(item, e)),
    ensures
        insert_by(sorted, item, before).filter(keep) == (if keep(item) {
            sorted.filter(keep).push(item)
        } else {
            sorted.filter(keep)
        }),
    decreases sorted.len(),
{
    reveal(Seq::filter);
    let out = insert_by(sorted, item, before);
    if sorted.len() == 0 {
        assert(out.drop_last() =~= Seq::<T>::empty());
        assert(sorted =~= Seq::<T>::empty());
    } else if before(item, sorted.last()) {
        lemma_insert_keeps(sorted.drop_last(), item, before, keep);
        assert(out.drop_last() =~= insert_by(sorted.drop_last(), item, before));
    } else {
        assert(out.drop_last() =~= sorted);
    }
}

/// Sorting is stable: items of a class whose members never come before one
/// another stay in the order they were in.
pub proof fn sort_is_stable<T>(
    items: Seq<T>,
    before: spec_fn(T, T) -> bool,
    keep: spec_fn(T) -> bool,
)
    requires
        forall|a: T, b: T| keep(a) && keep(b) ==> !(#[trigger] before(a, b)),
    ensures
        stable_sort(items, before).filter(keep) == items.filter(keep),
    decreases items.len(),
{
    reveal(Seq::filter);
    if items.len() > 0 {
        sort_is_stable(items.drop_last(), before, keep);
        lemma_insert_keeps(
            stable_sort(items.drop_last(), before),
            items.last(),
            before,
            keep,
        );
    } else {
        assert(items =~= Seq::<T>::empty());
    }
}

/// Sorting keeps which items there are, and makes no repetition.
pub proof fn lemma_sort_items<T>(items: Seq<T>, before: spec_fn(T, T) -> bool)
    ensures
        forall|x: T| #[trigger] stable_sort(items, before).contains(x) <==> items.contains(x),
        items.no_duplicates() ==> stable_sort(items, before).no_duplicates(),
        stable_sort(items, before).len() == items.len(),
{
    broadcast use vstd::seq_lib::group_to_multiset_ensures;

    let sorted = stable_sort(items, before);
    sort_permutes(items, before);
    assert forall|x: T| #[trigger] sorted.contains(x) <==> items.contains(x) by {
        assert(sorted.to_multiset().count(x) == items.to_multiset().count(x));
    }
    if items.no_duplicates() {
        items.lemma_multiset_has_no_duplicates();
        sorted.lemma_multiset_has_no_duplicates_conv();
    }
}

/// Of any two different items in the run, one comes before the other.
pub open spec fn decides<T>(items: Seq<T>, before: spec_fn(T, T) -> bool) -> bool {
    forall|x: T, y: T|
        #![trigger items.contains(x), items.contains(y)]
        items.contains(x) && items.contains(y) && x != y ==> before(x, y) || before(y, x)
}

/// There is one way to put given items in an order that decides between them:
/// what they came in does not matter.
pub proof fn ordered_lists_agree<T>(a: Seq<T>, b: Seq<T>, before: spec_fn(T, T) -> bool)
    requires
        weak_order(before),
        a.to_multiset() == b.to_multiset(),
        is_ordered(a, before),
        is_ordered(b, before),
        decides(a, before),
    ensures
        a == b,
    decreases a.len(),
{
    broadcast use vstd::seq_lib::group_to_multiset_ensures;

    assert(a.len() == a.to_multiset().len());
    assert(b.len() == b.to_multiset().len());
    if a.len() == 0 {
        assert(a =~= b);
    } else {
        let x = a.last();
        let y = b.last();
        assert(a.contains(x)) by {
            assert(a[a.len() - 1] == x);
        }
        assert(b.contains(y)) by {
            assert(b[b.len() - 1] == y);
        }
        vstd::seq_lib::to_multiset_contains(a, x);
        vstd::seq_lib::to_multiset_contains(a, y);
        vstd::seq_lib::to_multiset_contains(b, x);
        vstd::seq_lib::to_multiset_contains(b, y);
        assert(a.contains(y) && b.contains(x));
        if x != y {
            let i = choose|i: int| 0 <= i < a.len() && a[i] == y;
            let j = choose|j: int| 0 <= j < b.len() && b[j] == x;
            assert(i < a.len() - 1);
            assert(j < b.len() - 1);
            assert(!before(a[a.len() - 1], a[i]));
            assert(!before(b[b.len() - 1], b[j]));
            assert(false);
        }
        let c = a.drop_last();
        let d = b.drop_last();
        assert(a =~= c.push(x));
        assert(b =~= d.push(y));
        assert(a.to_multiset() =~= c.to_multiset().insert(x));
        assert(b.to_multiset() =~= d.to_multiset().insert(x));
        assert(c.to_multiset() =~= d.to_multiset()) by {
            assert(c.to_multiset().insert(x).remove(x) =~= c.to_multiset());
            assert(d.to_multiset().insert(x).remove(x) =~= d.to_multiset());
        }
        assert(decides(c, before)) by {
            assert forall|p: T, q: T|
                #![trigger c.contains(p), c.contains(q)]
                c.contains(p) && c.contains(q) && p != q implies before(p, q) || before(q, p) by {
                let k = choose|k: int| 0 <= k < c.len() && c[k] == p;
                assert(a[k] == p);
                let l = choose|l: int| 0 <= l < c.len() && c[l] == q;
                assert(a[l] == q);
                assert(a.contains(p) && a.contains(q));
            }
        }
        ordered_lists_agree(c, d, before);
    }
}

/// Two lists without repetitions that hold the same items hold them equally
/// often.
pub proof fn lemma_same_items<T>(a: Seq<T>, b: Seq<T>)
    requires
        a.no_duplicates(),
        b.no_duplicates(),
        forall|x: T| #[trigger] a.contains(x) <==> b.contains(x),
    ensures
        a.to_multiset() == b.to_multiset(),
{
    broadcast use vstd::seq_lib::group_to_multiset_ensures;

    a.lemma_multiset_has_no_duplicates();
    b.lemma_multiset_has_no_duplicates();
    assert forall|x: T| a.to_multiset().count(x) == b.to_multiset().count(x) by {
        vstd::seq_lib::to_multiset_contains(a, x);
        vstd::seq_lib::to_multiset_contains(b, x);
        assert(a.contains(x) <==> b.contains(x));
        if a.contains(x) {
            assert(a.to_multiset().contains(x));
            assert(b.to_multiset().contains(x));
        }
    }
    assert(a.to_multiset() =~= b.to_multiset());
}

} // verus!
