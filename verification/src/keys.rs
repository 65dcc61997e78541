//! Lists of registry keys: finding, dropping and exchanging keys.
use vstd::prelude::*;
use crate::text;
use crate::text::same_text;

verus! {

/// Where `key` first stands in `keys`, or the length when it does not.
pub open spec fn key_pos<T>(keys: Seq<T>, key: T) -> int
    decreases keys.len(),
{
    if keys.len() == 0 {
        0
    } else if keys[0] == key {
        0
    } else {
        1 + key_pos(keys.skip(1), key)
    }
}

/// `keys` without `key`, the others in their order.
pub open spec fn without<T>(keys: Seq<T>, key: T) -> Seq<T> {
    keys.filter(|k: T| k != key)
}

/// `keys` with the ones at `i` and `j` exchanged.
pub open spec fn exchanged(keys: Seq<Seq<char>>, i: int, j: int) -> Seq<Seq<char>> {
    keys.update(i, keys[j]).update(j, keys[i])
}

/// What [`key_pos`] finds: no key before it matches, and it matches itself.
pub proof fn lemma_key_pos<T>(keys: Seq<T>, key: T)
    ensures
        0 <= key_pos(keys, key) <= keys.len(),
        key_pos(keys, key) < keys.len() ==> keys[key_pos(keys, key)] == key,
        forall|j: int| 0 <= j < key_pos(keys, key) ==> keys[j] != key,
        key_pos(keys, key) < keys.len() <==> keys.contains(key),
    decreases keys.len(),
{
    if keys.len() > 0 && keys[0] != key {
        let rest = keys.skip(1);
        lemma_key_pos(rest, key);
        assert forall|j: int| 0 <= j < key_pos(keys, key) implies keys[j] != key by {
            if j > 0 {
                assert(rest[j - 1] == keys[j]);
            }
        }
        if keys.contains(key) {
            let j = choose|j: int| 0 <= j < keys.len() && keys[j] == key;
            assert(rest[j - 1] == key);
        }
        if rest.contains(key) {
            let j = choose|j: int| 0 <= j < rest.len() && rest[j] == key;
            assert(keys[j + 1] == key);
        }
    }
}

/// The position of a key is the only one it can have in front of which it does
/// not occur.
pub proof fn lemma_key_pos_unique<T>(keys: Seq<T>, key: T, at: int)
    requires
        0 <= at <= keys.len(),
        at < keys.len() ==> keys[at] == key,
        forall|j: int| 0 <= j < at ==> keys[j] != key,
    ensures
        key_pos(keys, key) == at,
{
    lemma_key_pos(keys, key);
}

/// Where `key` first stands.
pub(crate) fn position(keys: &Vec<String>, key: &str) -> (at: Option<usize>)
    ensures
        match at {
            Some(i) => i < keys.len() && i == key_pos(text::texts(keys@), key@)
                && text::texts(keys@).contains(key@) && text::texts(keys@)[i as int] == key@,
            None => key_pos(text::texts(keys@), key@) == keys@.len() && !text::texts(
                keys@,
            ).contains(key@),
        },
{
    let ghost views = text::texts(keys@);
    let mut i: usize = 0;
    while i < keys.len()
        invariant
            i <= keys@.len(),
            views == text::texts(keys@),
            forall|j: int| 0 <= j < i ==> views[j] != key@,
        decreases keys@.len() - i,
    {
        assert(views[i as int] == keys@[i as int]@);
        if same_text(keys[i].as_str(), key) {
            proof {
                lemma_key_pos_unique(views, key@, i as int);
            }
            return Some(i);
        }
        i += 1;
    }
    proof {
        lemma_key_pos_unique(views, key@, i as int);
    }
    None
}

/// Whether `key` is listed.
pub(crate) fn holds(keys: &Vec<String>, key: &str) -> (found: bool)
    ensures
        found == text::texts(keys@).contains(key@),
{
    position(keys, key).is_some()
}

/// A copy of the list without `key`.
pub(crate) fn drop_key(keys: &Vec<String>, key: &str) -> (out: Vec<String>)
    ensures
        text::texts(out@) == without(text::texts(keys@), key@),
{
    let ghost views = text::texts(keys@);
    let ghost other = |k: Seq<char>| k != key@;
    let mut out: Vec<String> = Vec::new();
    let mut i: usize = 0;
    proof {
        reveal(Seq::filter);
        assert(views.take(0) =~= Seq::<Seq<char>>::empty());
        assert(text::texts(out@) =~= views.take(0).filter(other));
    }
    while i < keys.len()
        invariant
            i <= keys@.len(),
            views == text::texts(keys@),
            other == (|k: Seq<char>| k != key@),
            text::texts(out@) == views.take(i as int).filter(other),
        decreases keys@.len() - i,
    {
        let ghost before = out@;
        proof {
            reveal(Seq::filter);
            assert(views.take(i + 1).drop_last() =~= views.take(i as int));
            assert(views.take(i + 1).last() == keys@[i as int]@);
        }
        if !same_text(keys[i].as_str(), key) {
            out.push(keys[i].clone());
            assert(text::texts(out@) =~= text::texts(before).push(keys@[i as int]@));
        }
        i += 1;
    }
    assert(views.take(i as int) =~= views);
    out
}

/// A copy of the list.
pub(crate) fn copy_keys(keys: &Vec<String>) -> (out: Vec<String>)
    ensures
        text::texts(out@) == text::texts(keys@),
{
    let mut out: Vec<String> = Vec::new();
    let mut i: usize = 0;
    while i < keys.len()
        invariant
            i <= keys@.len(),
            out@.len() == i,
            forall|j: int| 0 <= j < i ==> out@[j]@ == keys@[j]@,
        decreases keys@.len() - i,
    {
        out.push(keys[i].clone());
        i += 1;
    }
    assert(text::texts(out@) =~= text::texts(keys@));
    out
}

/// A key that is dropped is gone, and every other key stays.
pub proof fn lemma_without<T>(keys: Seq<T>, key: T)
    ensures
        !without(keys, key).contains(key),
        forall|k: T|
            k != key ==> (#[trigger] without(keys, key).contains(k) <==> keys.contains(k)),
        without(keys, key).len() <= keys.len(),
        keys.no_duplicates() ==> without(keys, key).no_duplicates(),
        !keys.contains(key) ==> without(keys, key) == keys,
    decreases keys.len(),
{
    reveal(Seq::filter);
    if keys.len() > 0 {
        let init = keys.drop_last();
        let last = keys.last();
        lemma_without(init, key);
        assert(keys =~= init.push(last));
        assert(forall|k: T| keys.contains(k) <==> init.contains(k) || k == last) by {
            assert forall|k: T| keys.contains(k) <==> init.contains(k) || k == last by {
                if init.contains(k) {
                    let j = choose|j: int| 0 <= j < init.len() && init[j] == k;
                    assert(keys[j] == k);
                }
                if keys.contains(k) && k != last {
                    let j = choose|j: int| 0 <= j < keys.len() && keys[j] == k;
                    assert(init[j] == k);
                }
                assert(keys[keys.len() - 1] == last);
            }
        }
        if last != key {
            let inner = without(init, key);
            assert(without(keys, key) == inner.push(last));
            assert forall|k: T|
                #[trigger] without(keys, key).contains(k) <==> inner.contains(k) || k == last by {
                let out = without(keys, key);
                if inner.contains(k) {
                    let j = choose|j: int| 0 <= j < inner.len() && inner[j] == k;
                    assert(out[j] == k);
                }
                if out.contains(k) && k != last {
                    let j = choose|j: int| 0 <= j < out.len() && out[j] == k;
                    assert(inner[j] == k);
                }
                assert(out[out.len() - 1] == last);
            }
            if keys.no_duplicates() {
                assert(init.no_duplicates());
                assert(!init.contains(last)) by {
                    if init.contains(last) {
                        let j = choose|j: int| 0 <= j < init.len() && init[j] == last;
                        assert(keys[j] == keys[keys.len() - 1]);
                    }
                }
                assert(!inner.contains(last));
                let out = without(keys, key);
                assert forall|i: int, j: int| 0 <= i < out.len() && 0 <= j < out.len() && i != j implies out[i]
                    != out[j] by {
                    if i == out.len() - 1 {
                        assert(out[j] == inner[j]);
                    } else if j == out.len() - 1 {
                        assert(out[i] == inner[i]);
                    } else {
                        assert(out[i] == inner[i] && out[j] == inner[j]);
                    }
                }
            }
        } else {
            assert(without(keys, key) == without(init, key));
            if keys.no_duplicates() {
                assert(init.no_duplicates());
            }
            assert(keys.contains(key));
        }
    }
}

/// Putting a new key into a list without repetitions makes no repetition.
pub proof fn lemma_insert_distinct<T>(list: Seq<T>, slot: int, key: T)
    requires
        list.no_duplicates(),
        !list.contains(key),
        0 <= slot <= list.len(),
    ensures
        list.insert(slot, key).no_duplicates(),
        list.insert(slot, key).contains(key),
        forall|k: T|
            k != key ==> (#[trigger] list.insert(slot, key).contains(k) <==> list.contains(k)),
{
    let whole = list.insert(slot, key);
    assert(whole[slot] == key);
    assert forall|i: int| 0 <= i < whole.len() && i != slot implies list.contains(
        #[trigger] whole[i],
    ) && whole[i] == list[if i < slot {
        i
    } else {
        i - 1
    }] by {
        let inner = if i < slot {
            i
        } else {
            i - 1
        };
        assert(whole[i] == list[inner]);
    }
    assert forall|k: T| k != key implies (#[trigger] whole.contains(k) <==> list.contains(
        k,
    )) by {
        if list.contains(k) {
            let j = choose|j: int| 0 <= j < list.len() && list[j] == k;
            let outer = if j < slot {
                j
            } else {
                j + 1
            };
            assert(whole[outer] == k);
        }
    }
}

} // verus!
