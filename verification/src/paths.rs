//! When two spellings are one path. Paths are slash-separated: repeated and
//! trailing slashes do not count, nor does a `.` that is not at the very front.
use vstd::prelude::*;
use crate::keys;
use crate::text;
use crate::text::{chars_of, same_text};

verus! {

/// The text between slashes; there is always one piece more than slashes.
pub open spec fn pieces(text: Seq<char>) -> Seq<Seq<char>>
    decreases text.len(),
{
    if text.len() == 0 {
        seq![Seq::empty()]
    } else {
        let before = pieces(text.drop_last());
        if text.last() == '/' {
            before.push(Seq::empty())
        } else {
            before.drop_last().push(before.last().push(text.last()))
        }
    }
}

/// Whether a piece counts: it is neither empty nor a `.`.
pub open spec fn counts(piece: Seq<char>) -> bool {
    piece.len() > 0 && piece != seq!['.']
}

/// What a path begins with that is no name: the root, or the `.` of a path that
/// is relative to where it is read.
pub open spec fn lead(text: Seq<char>) -> Seq<Seq<char>> {
    if text.len() > 0 && text[0] == '/' {
        seq![seq!['/']]
    } else if pieces(text)[0] == seq!['.'] {
        seq![seq!['.']]
    } else {
        Seq::empty()
    }
}

/// The components of a path.
#[verifier::opaque]
pub open spec fn parts(text: Seq<char>) -> Seq<Seq<char>> {
    lead(text) + pieces(text).filter(|piece: Seq<char>| counts(piece))
}

/// Whether two spellings are one path: they have the same components.
pub open spec fn same_path(a: Seq<char>, b: Seq<char>) -> bool {
    parts(a) == parts(b)
}

/// The components of each path.
pub open spec fn all_parts(texts: Seq<Seq<char>>) -> Seq<Seq<Seq<char>>> {
    texts.map_values(|text: Seq<char>| parts(text))
}

/// Whether `path` is among `listed`, in some spelling.
pub open spec fn lists(listed: Seq<Seq<char>>, path: Seq<char>) -> bool {
    all_parts(listed).contains(parts(path))
}

/// Where `path` first stands in `listed`, in some spelling, or the length when
/// it does not.
pub open spec fn path_pos(listed: Seq<Seq<char>>, path: Seq<char>) -> int {
    keys::key_pos(all_parts(listed), parts(path))
}

/// No path is listed twice, in whatever spelling.
pub open spec fn unrepeated(listed: Seq<Seq<char>>) -> bool {
    all_parts(listed).no_duplicates()
}

/// The list without `path`, in whatever spelling.
pub open spec fn without_path(listed: Seq<Seq<char>>, path: Seq<char>) -> Seq<Seq<char>> {
    listed.filter(|other: Seq<char>| !same_path(other, path))
}

fn pieces_of(path: &str) -> (out: Vec<String>)
    ensures
        text::texts(out@) == pieces(path@),
        out@.len() > 0,
{
    let chars = chars_of(path);
    let mut out: Vec<String> = Vec::new();
    let mut piece = String::new();
    let mut i: usize = 0;
    assert(text::texts(out@).push(piece@) =~= pieces(path@.take(0)));
    while i < chars.len()
        invariant
            i <= chars@.len(),
            chars@ == path@,
            text::texts(out@).push(piece@) == pieces(path@.take(i as int)),
        decreases chars@.len() - i,
    {
        let ghost before = text::texts(out@);
        let ghost held = piece@;
        assert(path@.take(i + 1).drop_last() =~= path@.take(i as int));
        assert(before.push(held).drop_last() =~= before);
        if chars[i] == '/' {
            out.push(piece);
            piece = String::new();
            assert(text::texts(out@) =~= before.push(held));
        } else {
            piece.push(chars[i]);
        }
        assert(text::texts(out@).push(piece@) =~= pieces(path@.take(i + 1)));
        i += 1;
    }
    assert(path@.take(i as int) =~= path@);
    let ghost before = text::texts(out@);
    out.push(piece);
    assert(text::texts(out@) =~= before.push(piece@));
    out
}

/// The components of a path.
pub(crate) fn parts_of(path: &str) -> (out: Vec<String>)
    ensures
        text::texts(out@) == parts(path@),
{
    let pieces = pieces_of(path);
    let chars = chars_of(path);
    let ghost all = text::texts(pieces@);
    let ghost keep = |piece: Seq<char>| counts(piece);
    proof {
        reveal(parts);
        reveal_strlit(".");
        reveal_strlit("/");
        assert("."@ =~= seq!['.']);
        assert("/"@ =~= seq!['/']);
        assert(all[0] == pieces@[0]@);
    }
    let mut out: Vec<String> = Vec::new();
    if chars.len() > 0 && chars[0] == '/' {
        out.push("/".to_owned());
    } else if same_text(pieces[0].as_str(), ".") {
        out.push(".".to_owned());
    }
    assert(text::texts(out@) =~= lead(path@));
    let mut i: usize = 0;
    proof {
        reveal(Seq::filter);
        assert(all.take(0) =~= Seq::<Seq<char>>::empty());
        assert(text::texts(out@) =~= lead(path@) + all.take(0).filter(keep));
    }
    while i < pieces.len()
        invariant
            i <= pieces@.len(),
            all == text::texts(pieces@),
            "."@ == seq!['.'],
            keep == (|piece: Seq<char>| counts(piece)),
            text::texts(out@) == lead(path@) + all.take(i as int).filter(keep),
        decreases pieces@.len() - i,
    {
        let ghost before = text::texts(out@);
        proof {
            reveal(Seq::filter);
            assert(all.take(i + 1).drop_last() =~= all.take(i as int));
            assert(all.take(i + 1).last() == pieces@[i as int]@);
        }
        if !same_text(pieces[i].as_str(), ".") && !same_text(pieces[i].as_str(), "") {
            proof {
                reveal_strlit("");
                assert(""@ =~= Seq::<char>::empty());
                if pieces@[i as int]@.len() == 0 {
                    assert(pieces@[i as int]@ =~= ""@);
                }
            }
            out.push(pieces[i].clone());
            assert(text::texts(out@) =~= before.push(pieces@[i as int]@));
        } else {
            proof {
                reveal_strlit("");
            }
        }
        assert(text::texts(out@) =~= lead(path@) + all.take(i + 1).filter(keep));
        i += 1;
    }
    assert(all.take(i as int) =~= all);
    out
}

/// Components written out, each with a slash behind it.
pub open spec fn written(parts: Seq<Seq<char>>) -> Seq<char>
    decreases parts.len(),
{
    if parts.len() == 0 {
        Seq::empty()
    } else {
        written(parts.drop_last()) + parts.last().push('/')
    }
}

/// One text for all spellings of a path.
pub(crate) fn settled_text(path: &str) -> (out: String)
    ensures
        out@ == written(parts(path@)),
{
    let all = parts_of(path);
    let ghost views = text::texts(all@);
    let mut out = String::new();
    let mut i: usize = 0;
    assert(views.take(0) =~= Seq::<Seq<char>>::empty());
    assert(out@ =~= written(views.take(0)));
    while i < all.len()
        invariant
            i <= all@.len(),
            views == text::texts(all@),
            out@ == written(views.take(i as int)),
        decreases all@.len() - i,
    {
        let ghost before = out@;
        assert(views.take(i + 1).drop_last() =~= views.take(i as int));
        assert(views.take(i + 1).last() == all@[i as int]@);
        out.append(all[i].as_str());
        out.push('/');
        assert(out@ =~= before + all@[i as int]@.push('/'));
        i += 1;
    }
    assert(views.take(i as int) =~= views);
    out
}

/// Whether two spellings are one path.
pub(crate) fn is_same_path(a: &str, b: &str) -> (same: bool)
    ensures
        same == same_path(a@, b@),
{
    let left = parts_of(a);
    let right = parts_of(b);
    if left.len() != right.len() {
        assert(text::texts(left@).len() != text::texts(right@).len());
        return false;
    }
    let mut i: usize = 0;
    while i < left.len()
        invariant
            i <= left@.len(),
            left@.len() == right@.len(),
            text::texts(left@) == parts(a@),
            text::texts(right@) == parts(b@),
            forall|j: int| 0 <= j < i ==> left@[j]@ == right@[j]@,
        decreases left@.len() - i,
    {
        if !same_text(left[i].as_str(), right[i].as_str()) {
            assert(text::texts(left@)[i as int] != text::texts(right@)[i as int]);
            return false;
        }
        i += 1;
    }
    assert(text::texts(left@) =~= text::texts(right@));
    true
}

/// Where `path` first stands, in some spelling.
pub(crate) fn path_position(listed: &Vec<String>, path: &str) -> (at: Option<usize>)
    ensures
        match at {
            Some(i) => i < listed.len() && i == path_pos(text::texts(listed@), path@) && lists(
                text::texts(listed@),
                path@,
            ) && same_path(text::texts(listed@)[i as int], path@),
            None => path_pos(text::texts(listed@), path@) == listed@.len() && !lists(
                text::texts(listed@),
                path@,
            ),
        },
{
    let ghost views = text::texts(listed@);
    let ghost known = all_parts(views);
    let mut i: usize = 0;
    while i < listed.len()
        invariant
            i <= listed@.len(),
            views == text::texts(listed@),
            known == all_parts(views),
            forall|j: int| 0 <= j < i ==> known[j] != parts(path@),
        decreases listed@.len() - i,
    {
        assert(views[i as int] == listed@[i as int]@);
        assert(known[i as int] == parts(views[i as int]));
        if is_same_path(listed[i].as_str(), path) {
            proof {
                keys::lemma_key_pos_unique(known, parts(path@), i as int);
                keys::lemma_key_pos(known, parts(path@));
            }
            return Some(i);
        }
        i += 1;
    }
    proof {
        keys::lemma_key_pos_unique(known, parts(path@), i as int);
        keys::lemma_key_pos(known, parts(path@));
    }
    None
}

/// Whether `path` is listed, in some spelling.
pub(crate) fn lists_path(listed: &Vec<String>, path: &str) -> (found: bool)
    ensures
        found == lists(text::texts(listed@), path@),
{
    path_position(listed, path).is_some()
}

/// A copy of the list without `path`, in whatever spelling.
pub(crate) fn drop_path(listed: &Vec<String>, path: &str) -> (out: Vec<String>)
    ensures
        text::texts(out@) == without_path(text::texts(listed@), path@),
{
    let ghost views = text::texts(listed@);
    let ghost other = |k: Seq<char>| !same_path(k, path@);
    let mut out: Vec<String> = Vec::new();
    let mut i: usize = 0;
    proof {
        reveal(Seq::filter);
        assert(views.take(0) =~= Seq::<Seq<char>>::empty());
        assert(text::texts(out@) =~= views.take(0).filter(other));
    }
    while i < listed.len()
        invariant
            i <= listed@.len(),
            views == text::texts(listed@),
            other == (|k: Seq<char>| !same_path(k, path@)),
            text::texts(out@) == views.take(i as int).filter(other),
        decreases listed@.len() - i,
    {
        let ghost before = out@;
        proof {
            reveal(Seq::filter);
            assert(views.take(i + 1).drop_last() =~= views.take(i as int));
            assert(views.take(i + 1).last() == listed@[i as int]@);
        }
        if !is_same_path(listed[i].as_str(), path) {
            out.push(listed[i].clone());
            assert(text::texts(out@) =~= text::texts(before).push(listed@[i as int]@));
        }
        i += 1;
    }
    assert(views.take(i as int) =~= views);
    out
}

/// A path that is dropped is gone in every spelling, and every other one stays.
pub proof fn lemma_without_path(listed: Seq<Seq<char>>, path: Seq<char>)
    ensures
        all_parts(without_path(listed, path)) == keys::without(all_parts(listed), parts(path)),
    decreases listed.len(),
{
    reveal(Seq::filter);
    let kept = without_path(listed, path);
    if listed.len() > 0 {
        let init = listed.drop_last();
        let last = listed.last();
        lemma_without_path(init, path);
        assert(all_parts(listed).drop_last() =~= all_parts(init));
        assert(all_parts(listed).last() == parts(last));
        if !same_path(last, path) {
            assert(kept == without_path(init, path).push(last));
            assert(all_parts(kept) =~= all_parts(without_path(init, path)).push(parts(last)));
        }
    } else {
        assert(all_parts(kept) =~= keys::without(all_parts(listed), parts(path)));
    }
}

/// Which paths are listed does not depend on the order of the list.
pub proof fn lemma_lists_alike(a: Seq<Seq<char>>, b: Seq<Seq<char>>, path: Seq<char>)
    requires
        forall|k: Seq<char>| #[trigger] a.contains(k) <==> b.contains(k),
    ensures
        lists(a, path) == lists(b, path),
{
    if lists(a, path) {
        let i = choose|i: int| 0 <= i < all_parts(a).len() && all_parts(a)[i] == parts(path);
        assert(a.contains(a[i]));
        let j = choose|j: int| 0 <= j < b.len() && b[j] == a[i];
        assert(all_parts(b)[j] == parts(path));
    }
    if lists(b, path) {
        let i = choose|i: int| 0 <= i < all_parts(b).len() && all_parts(b)[i] == parts(path);
        assert(b.contains(b[i]));
        assert(a.contains(b[i]));
        let j = choose|j: int| 0 <= j < a.len() && a[j] == b[i];
        assert(all_parts(a)[j] == parts(path));
    }
}

proof fn lemma_pieces(text: Seq<char>)
    ensures
        pieces(text).len() > 0,
    decreases text.len(),
{
    if text.len() > 0 {
        lemma_pieces(text.drop_last());
    }
}

/// A trailing slash does not count, except that a path of slashes alone is the
/// root.
pub proof fn trailing_slash_is_ignored(text: Seq<char>)
    requires
        text.len() > 0,
    ensures
        same_path(text.push('/'), text),
{
    reveal(parts);
    reveal(Seq::filter);
    let longer = text.push('/');
    lemma_pieces(text);
    assert(longer.drop_last() =~= text);
    assert(longer[0] == text[0]);
    assert(pieces(longer)[0] == pieces(text)[0]);
    assert(pieces(longer).drop_last() =~= pieces(text));
    let keep = |piece: Seq<char>| counts(piece);
    assert(pieces(longer).filter(keep) == pieces(text).filter(keep));
}

proof fn lemma_pieces_grow(text: Seq<char>, name: Seq<char>)
    requires
        !name.contains('/'),
    ensures
        pieces(text.push('/') + name) == pieces(text).push(name),
    decreases name.len(),
{
    let whole = text.push('/') + name;
    if name.len() == 0 {
        assert(whole =~= text.push('/'));
        assert(whole.drop_last() =~= text);
        assert(name =~= Seq::<char>::empty());
    } else {
        let init = name.drop_last();
        assert(!init.contains('/')) by {
            if init.contains('/') {
                let k = choose|k: int| 0 <= k < init.len() && init[k] == '/';
                assert(name[k] == '/');
            }
        }
        lemma_pieces_grow(text, init);
        assert(whole.drop_last() =~= text.push('/') + init);
        assert(name.contains(name.last()));
        assert(init.push(name.last()) =~= name);
        let before = pieces(text).push(init);
        assert(before.drop_last() =~= pieces(text));
        assert(before.last() == init);
    }
}

proof fn lemma_filter_push(all: Seq<Seq<char>>, piece: Seq<char>)
    ensures
        all.push(piece).filter(|p: Seq<char>| counts(p)) == (if counts(piece) {
            all.filter(|p: Seq<char>| counts(p)).push(piece)
        } else {
            all.filter(|p: Seq<char>| counts(p))
        }),
{
    reveal(Seq::filter);
    assert(all.push(piece).drop_last() =~= all);
}

/// A path names its components one by one: behind a path, a slash and a name
/// add that name as the last component. An empty name or a single dot adds
/// none; a double dot is a name like any other.
pub proof fn components_are_named_in_order(text: Seq<char>, name: Seq<char>)
    requires
        text.len() > 0,
        !name.contains('/'),
    ensures
        parts(text.push('/') + name) == (if name.len() == 0 || name == seq!['.'] {
            parts(text)
        } else {
            parts(text).push(name)
        }),
{
    reveal(parts);
    let whole = text.push('/') + name;
    lemma_pieces_grow(text, name);
    lemma_pieces(text);
    lemma_filter_push(pieces(text), name);
    assert(whole[0] == text[0]);
    assert(pieces(whole)[0] == pieces(text)[0]);
    assert(parts(whole) =~= if name.len() == 0 || name == seq!['.'] {
        parts(text)
    } else {
        parts(text).push(name)
    });
}

/// A path that starts with a slash starts at the root, which no relative path
/// does. A relative path starts with its first name; a dot in that place counts.
pub proof fn paths_start_where_they_say(name: Seq<char>)
    requires
        !name.contains('/'),
    ensures
        parts(seq!['/'] + name) == (if name.len() == 0 || name == seq!['.'] {
            seq![seq!['/']]
        } else {
            seq![seq!['/'], name]
        }),
        parts(name) == (if name.len() == 0 {
            Seq::empty()
        } else {
            seq![name]
        }),
{
    reveal(parts);
    reveal(Seq::filter);
    let none = Seq::<char>::empty();
    lemma_pieces_grow(none, name);
    assert(none.push('/') + name =~= seq!['/'] + name);
    let rooted = seq!['/'] + name;
    assert(pieces(none) =~= seq![none]);
    assert(pieces(rooted) =~= seq![none, name]);
    assert(seq![none].push(name) =~= seq![none, name]);
    lemma_filter_push(seq![none], name);
    assert(seq![none] =~= Seq::empty().push(none));
    lemma_filter_push(Seq::empty(), none);
    assert(parts(rooted) =~= if name.len() == 0 || name == seq!['.'] {
        seq![seq!['/']]
    } else {
        seq![seq!['/'], name]
    });
    lemma_one_piece(name);
    assert(seq![name] =~= Seq::empty().push(name));
    lemma_filter_push(Seq::empty(), name);
    if name.len() > 0 {
        assert(name.contains(name[0]));
    }
    assert(parts(name) =~= if name.len() == 0 {
        Seq::empty()
    } else {
        seq![name]
    });
}

proof fn lemma_one_piece(name: Seq<char>)
    requires
        !name.contains('/'),
    ensures
        pieces(name) == seq![name],
    decreases name.len(),
{
    if name.len() == 0 {
        assert(name =~= Seq::<char>::empty());
    } else {
        let init = name.drop_last();
        assert(!init.contains('/')) by {
            if init.contains('/') {
                let k = choose|k: int| 0 <= k < init.len() && init[k] == '/';
                assert(name[k] == '/');
            }
        }
        lemma_one_piece(init);
        assert(name.contains(name.last()));
        assert(init.push(name.last()) =~= name);
        assert(seq![init].drop_last().push(name) =~= seq![name]);
    }
}

/// Two paths below one directory are one path only when they end in one name.
pub proof fn siblings_are_told_apart(text: Seq<char>, a: Seq<char>, b: Seq<char>)
    requires
        text.len() > 0,
        !a.contains('/'),
        !b.contains('/'),
        a.len() > 0 && a != seq!['.'],
        b.len() > 0 && b != seq!['.'],
    ensures
        same_path(text.push('/') + a, text.push('/') + b) <==> a == b,
        !same_path(text.push('/') + a, text),
{
    components_are_named_in_order(text, a);
    components_are_named_in_order(text, b);
    assert(parts(text).push(a).last() == a);
    assert(parts(text).push(b).last() == b);
    assert(parts(text).push(a).len() == parts(text).len() + 1);
}

/// A list lists a path when one of its paths is spelled to name it.
pub proof fn listing_goes_by_components(listed: Seq<Seq<char>>, path: Seq<char>)
    ensures
        lists(listed, path) <==> exists|i: int|
            0 <= i < listed.len() && parts(#[trigger] listed[i]) == parts(path),
        lists(listed, path) ==> 0 <= path_pos(listed, path) < listed.len() && parts(
            listed[path_pos(listed, path)],
        ) == parts(path),
        forall|i: int|
            0 <= i < path_pos(listed, path) && i < listed.len() ==> parts(#[trigger] listed[i])
                != parts(path),
{
    let known = all_parts(listed);
    keys::lemma_key_pos(known, parts(path));
    if lists(listed, path) {
        let i = choose|i: int| 0 <= i < known.len() && known[i] == parts(path);
        assert(parts(listed[i]) == parts(path));
    }
    assert forall|i: int| 0 <= i < listed.len() && parts(#[trigger] listed[i]) == parts(
        path,
    ) implies lists(listed, path) by {
        assert(known[i] == parts(path));
    }
    assert forall|i: int| 0 <= i < path_pos(listed, path) && i < listed.len() implies parts(
        #[trigger] listed[i],
    ) != parts(path) by {
        assert(known[i] == parts(listed[i]));
    }
}

} // verus!
