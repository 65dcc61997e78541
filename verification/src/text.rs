//! Character-level text primitives shared by the key codec, the form rules and
//! the label rules. A string is modelled by its sequence of characters.
use vstd::prelude::*;
use vstd::utf8::*;

verus! {

broadcast use {vstd::string::group_string_axioms, vstd::seq_lib::group_seq_properties};

/// `String::push`: the character is appended at the end and nothing else
/// changes.
pub assume_specification[ String::push ](s: &mut String, c: char)
    ensures
        final(s)@ == old(s)@.push(c),
;

/// `String::from_utf8`: bytes that are valid UTF-8 become the string they
/// encode, and any other bytes are refused.
#[verifier::external_body]
pub(crate) fn string_from_utf8(bytes: Vec<u8>) -> (text: Option<String>)
    ensures
        text.is_some() == valid_utf8(bytes@),
        text matches Some(decoded) ==> encode_utf8(decoded@) == bytes@,
{
    String::from_utf8(bytes).ok()
}

/// The characters of `text`, in order.
pub(crate) fn chars_of(text: &str) -> (chars: Vec<char>)
    ensures
        chars@ == text@,
{
    let mut chars: Vec<char> = Vec::new();
    for ch in it: text.chars()
        invariant
            it.seq() == text@,
            chars@ == text@.take(it.index() as int),
    {
        chars.push(ch);
    }
    chars
}

/// The string made of `chars[from..to]`.
pub(crate) fn string_of(chars: &Vec<char>, from: usize, to: usize) -> (text: String)
    requires
        from <= to <= chars@.len(),
    ensures
        text@ == chars@.subrange(from as int, to as int),
{
    let mut text = String::new();
    let mut i: usize = from;
    while i < to
        invariant
            from <= i <= to <= chars@.len(),
            text@ == chars@.subrange(from as int, i as int),
        decreases to - i,
    {
        text.push(chars[i]);
        i += 1;
    }
    text
}

/// Byte to character, for an ASCII byte.
pub(crate) fn ascii_char(byte: u8) -> (ch: char)
    requires
        byte < 128,
    ensures
        ch as u32 == byte as u32,
{
    byte as char
}

/// Whether two strings hold the same characters.
pub(crate) fn same_text(a: &str, b: &str) -> (same: bool)
    ensures
        same == (a@ == b@),
{
    a.to_owned() == b.to_owned()
}

/// The position of the first `ch` at or after `from`, or the length when there
/// is none.
pub open spec fn first_pos(text: Seq<char>, from: int, ch: char) -> int
    decreases text.len() - from,
{
    if from >= text.len() {
        text.len() as int
    } else if text[from] == ch {
        from
    } else {
        first_pos(text, from + 1, ch)
    }
}

/// The position of the last `ch`, or `-1` when there is none.
pub open spec fn last_pos(text: Seq<char>, ch: char) -> int
    decreases text.len(),
{
    if text.len() == 0 {
        -1
    } else if text.last() == ch {
        text.len() - 1
    } else {
        last_pos(text.drop_last(), ch)
    }
}

/// What [`first_pos`] finds: nothing before it matches, and it matches itself.
pub proof fn lemma_first_pos(text: Seq<char>, from: int, ch: char)
    requires
        0 <= from <= text.len(),
    ensures
        from <= first_pos(text, from, ch) <= text.len(),
        first_pos(text, from, ch) < text.len() ==> text[first_pos(text, from, ch)] == ch,
        forall|j: int| from <= j < first_pos(text, from, ch) ==> text[j] != ch,
    decreases text.len() - from,
{
    if from < text.len() && text[from] != ch {
        lemma_first_pos(text, from + 1, ch);
    }
}

/// What [`last_pos`] finds: nothing after it matches, and it matches itself.
pub proof fn lemma_last_pos(text: Seq<char>, ch: char)
    ensures
        -1 <= last_pos(text, ch) < text.len(),
        last_pos(text, ch) >= 0 ==> text[last_pos(text, ch)] == ch,
        forall|j: int| last_pos(text, ch) < j < text.len() ==> text[j] != ch,
    decreases text.len(),
{
    if text.len() > 0 && text.last() != ch {
        lemma_last_pos(text.drop_last(), ch);
        assert forall|j: int| last_pos(text, ch) < j < text.len() implies text[j] != ch by {
            if j < text.len() - 1 {
                assert(text.drop_last()[j] == text[j]);
            }
        }
    }
}

/// Where `ch` first stands at or after `from`; the length when it does not.
pub(crate) fn find_first(chars: &Vec<char>, from: usize, ch: char) -> (pos: usize)
    requires
        from <= chars@.len(),
    ensures
        pos == first_pos(chars@, from as int, ch),
        from <= pos <= chars@.len(),
        pos < chars@.len() ==> chars@[pos as int] == ch,
{
    let mut i: usize = from;
    while i < chars.len()
        invariant
            from <= i <= chars@.len(),
            first_pos(chars@, from as int, ch) == first_pos(chars@, i as int, ch),
        decreases chars@.len() - i,
    {
        if chars[i] == ch {
            return i;
        }
        i += 1;
    }
    i
}

/// Where `ch` last stands in `chars[from..to]`.
pub(crate) fn find_last(chars: &Vec<char>, from: usize, to: usize, ch: char) -> (pos: Option<usize>)
    requires
        from <= to <= chars@.len(),
    ensures
        match pos {
            Some(at) => from <= at < to && at - from == last_pos(
                chars@.subrange(from as int, to as int),
                ch,
            ),
            None => last_pos(chars@.subrange(from as int, to as int), ch) == -1,
        },
{
    let mut end: usize = to;
    while end > from
        invariant
            from <= end <= to <= chars@.len(),
            last_pos(chars@.subrange(from as int, to as int), ch) == last_pos(
                chars@.subrange(from as int, end as int),
                ch,
            ),
        decreases end - from,
    {
        assert(chars@.subrange(from as int, end as int).drop_last() =~= chars@.subrange(
            from as int,
            end - 1,
        ));
        if chars[end - 1] == ch {
            return Some(end - 1);
        }
        end -= 1;
    }
    None
}

/// Whether `text` holds `part` as a run of consecutive characters.
pub open spec fn holds_run(text: Seq<char>, part: Seq<char>) -> bool {
    exists|at: int|
        0 <= at <= text.len() - part.len() && #[trigger] text.subrange(at, at + part.len()) == part
}

/// Whether `chars[at..]` begins with `part`.
pub(crate) fn run_at(chars: &Vec<char>, at: usize, part: &Vec<char>) -> (found: bool)
    requires
        at <= chars@.len(),
    ensures
        found == (at + part@.len() <= chars@.len() && chars@.subrange(
            at as int,
            at + part@.len(),
        ) == part@),
{
    if part.len() > chars.len() - at {
        return false;
    }
    let mut i: usize = 0;
    while i < part.len()
        invariant
            i <= part@.len(),
            at + part.len() <= chars.len(),
            forall|j: int| 0 <= j < i ==> chars@[at + j] == part@[j],
        decreases part@.len() - i,
    {
        if chars[at + i] != part[i] {
            assert(chars@.subrange(at as int, at + part@.len())[i as int] != part@[i as int]);
            return false;
        }
        i += 1;
    }
    assert(chars@.subrange(at as int, at + part@.len()) =~= part@);
    true
}

/// Whether `text` begins with `prefix`.
pub(crate) fn begins_with(text: &str, prefix: &str) -> (found: bool)
    ensures
        found == prefix@.is_prefix_of(text@),
{
    let chars = chars_of(text);
    let part = chars_of(prefix);
    let found = run_at(&chars, 0, &part);
    assert(part@.len() <= chars@.len() ==> chars@.subrange(0, part@.len() as int)
        =~= chars@.take(part@.len() as int));
    found
}

/// Whether `text` holds `part` somewhere.
pub(crate) fn contains_run(text: &str, part: &str) -> (found: bool)
    ensures
        found == holds_run(text@, part@),
{
    let chars = chars_of(text);
    let wanted = chars_of(part);
    let mut at: usize = 0;
    while at < chars.len()
        invariant
            at <= chars@.len(),
            chars@ == text@,
            wanted@ == part@,
            forall|j: int|
                0 <= j < at && j + part@.len() <= text@.len() ==> #[trigger] text@.subrange(
                    j,
                    j + part@.len(),
                ) != part@,
        decreases chars@.len() - at,
    {
        if run_at(&chars, at, &wanted) {
            return true;
        }
        at += 1;
    }
    run_at(&chars, at, &wanted)
}

/// Whether `text` holds the character.
pub(crate) fn contains_char(text: &str, ch: char) -> (found: bool)
    ensures
        found == text@.contains(ch),
{
    let chars = chars_of(text);
    let at = find_first(&chars, 0, ch);
    proof {
        lemma_first_pos(chars@, 0, ch);
    }
    at < chars.len()
}

/// The characters with the Unicode `White_Space` property.
pub open spec fn is_space(ch: char) -> bool {
    let code = ch as u32;
    ||| 0x09 <= code <= 0x0d
    ||| code == 0x20
    ||| code == 0x85
    ||| code == 0xa0
    ||| code == 0x1680
    ||| 0x2000 <= code <= 0x200a
    ||| code == 0x2028
    ||| code == 0x2029
    ||| code == 0x202f
    ||| code == 0x205f
    ||| code == 0x3000
}

pub(crate) fn space(ch: char) -> (found: bool)
    ensures
        found == is_space(ch),
{
    let code: u32 = ch as u32;
    (0x09 <= code && code <= 0x0d) || code == 0x20 || code == 0x85 || code == 0xa0 || code == 0x1680
        || (0x2000 <= code && code <= 0x200a) || code == 0x2028 || code == 0x2029 || code == 0x202f
        || code == 0x205f || code == 0x3000
}

/// `text` without the white space at its two ends.
pub open spec fn trimmed(text: Seq<char>) -> Seq<char>
    decreases text.len(),
{
    if text.len() == 0 {
        text
    } else if is_space(text[0]) {
        trimmed(text.drop_first())
    } else if is_space(text.last()) {
        trimmed(text.drop_last())
    } else {
        text
    }
}

/// `text` without the white space at its two ends.
pub(crate) fn trim(text: &str) -> (out: String)
    ensures
        out@ == trimmed(text@),
{
    let chars = chars_of(text);
    let mut from: usize = 0;
    let mut to: usize = chars.len();
    while from < to && space(chars[from])
        invariant
            from <= to <= chars@.len(),
            trimmed(text@) == trimmed(chars@.subrange(from as int, to as int)),
        decreases to - from,
    {
        assert(chars@.subrange(from as int, to as int).drop_first() =~= chars@.subrange(
            from + 1,
            to as int,
        ));
        from += 1;
    }
    while from < to && space(chars[to - 1])
        invariant
            from <= to <= chars@.len(),
            from < to ==> !is_space(chars@[from as int]),
            trimmed(text@) == trimmed(chars@.subrange(from as int, to as int)),
        decreases to - from,
    {
        assert(chars@.subrange(from as int, to as int).drop_last() =~= chars@.subrange(
            from as int,
            to - 1,
        ));
        to -= 1;
    }
    string_of(&chars, from, to)
}

/// Trimming leaves no white space at either end.
pub proof fn lemma_trimmed_ends(text: Seq<char>)
    ensures
        trimmed(text).len() > 0 ==> !is_space(trimmed(text)[0]) && !is_space(trimmed(text).last()),
    decreases text.len(),
{
    if text.len() > 0 {
        if is_space(text[0]) {
            lemma_trimmed_ends(text.drop_first());
        } else if is_space(text.last()) {
            lemma_trimmed_ends(text.drop_last());
        }
    }
}

/// ASCII upper-case letters become their lower-case counterparts; every other
/// character stays.
pub open spec fn lower(ch: char) -> char {
    if 'A' <= ch <= 'Z' {
        ((ch as u32 + 32) as u32) as char
    } else {
        ch
    }
}

/// [`lower`] on every character.
pub open spec fn lowered(text: Seq<char>) -> Seq<char> {
    text.map_values(|ch: char| lower(ch))
}

/// `text` with its ASCII letters in lower case.
pub(crate) fn to_lower(text: &str) -> (out: String)
    ensures
        out@ == lowered(text@),
{
    let chars = chars_of(text);
    let mut out = String::new();
    let mut i: usize = 0;
    while i < chars.len()
        invariant
            i <= chars@.len(),
            chars@ == text@,
            out@ == lowered(text@.take(i as int)),
        decreases chars@.len() - i,
    {
        let ch = chars[i];
        if 'A' <= ch && ch <= 'Z' {
            let byte: u8 = ch as u8;
            out.push(ascii_char(byte + 32));
        } else {
            out.push(ch);
        }
        i += 1;
        assert(text@.take(i as int).drop_last() =~= text@.take(i - 1));
        assert(out@ =~= lowered(text@.take(i as int)));
    }
    assert(text@.take(i as int) =~= text@);
    out
}

/// Whether the character is an ASCII decimal digit.
pub open spec fn is_digit(ch: char) -> bool {
    '0' <= ch <= '9'
}

/// The number a digit character stands for.
pub open spec fn digit_value(ch: char) -> nat {
    (ch as u32 - '0' as u32) as nat
}

/// The digit character for a number below ten.
pub open spec fn digit_char(digit: nat) -> char {
    ((digit + '0' as u32) as u32) as char
}

/// `number` written in decimal without leading zeros.
pub open spec fn decimal(number: nat) -> Seq<char>
    decreases number,
{
    if number < 10 {
        seq![digit_char(number)]
    } else {
        decimal(number / 10).push(digit_char(number % 10))
    }
}

/// The number that a run of digit characters writes; 0 for the empty run.
pub open spec fn digits_value(digits: Seq<char>) -> nat
    decreases digits.len(),
{
    if digits.len() == 0 {
        0
    } else {
        digits_value(digits.drop_last()) * 10 + digit_value(digits.last())
    }
}

/// How many digits stand at the start of `text`.
pub open spec fn digit_run(text: Seq<char>) -> int
    decreases text.len(),
{
    if text.len() == 0 || !is_digit(text[0]) {
        0
    } else {
        1 + digit_run(text.drop_first())
    }
}

/// Writing a number and reading it back gives the number.
pub proof fn lemma_decimal_round_trip(number: nat)
    ensures
        decimal(number).len() > 0,
        forall|i: int| 0 <= i < decimal(number).len() ==> is_digit(#[trigger] decimal(number)[i]),
        digits_value(decimal(number)) == number,
    decreases number,
{
    if number < 10 {
        assert(decimal(number).drop_last() =~= Seq::<char>::empty());
        assert(digits_value(Seq::<char>::empty()) == 0);
        assert(decimal(number).last() == digit_char(number));
    } else {
        lemma_decimal_round_trip(number / 10);
        assert(decimal(number).drop_last() =~= decimal(number / 10));
    }
}

/// What [`digit_run`] counts: digits up to there, and no digit right after.
pub proof fn lemma_digit_run(text: Seq<char>)
    ensures
        0 <= digit_run(text) <= text.len(),
        forall|i: int| 0 <= i < digit_run(text) ==> is_digit(#[trigger] text[i]),
        digit_run(text) < text.len() ==> !is_digit(text[digit_run(text)]),
    decreases text.len(),
{
    if text.len() > 0 && is_digit(text[0]) {
        lemma_digit_run(text.drop_first());
        assert forall|i: int| 0 <= i < digit_run(text) implies is_digit(#[trigger] text[i]) by {
            if i > 0 {
                assert(text.drop_first()[i - 1] == text[i]);
            }
        }
    }
}

/// A longer run of digits never writes a smaller number.
pub proof fn lemma_digits_value_grows(digits: Seq<char>, len: int)
    requires
        0 <= len <= digits.len(),
    ensures
        digits_value(digits.take(len)) <= digits_value(digits),
    decreases digits.len(),
{
    if len < digits.len() {
        lemma_digits_value_grows(digits.drop_last(), len);
        assert(digits.drop_last().take(len) =~= digits.take(len));
    } else {
        assert(digits.take(len) =~= digits);
    }
}

/// Append `number` in decimal.
pub(crate) fn push_decimal(out: &mut String, number: u64)
    ensures
        final(out)@ == old(out)@ + decimal(number as nat),
    decreases number,
{
    if number >= 10 {
        push_decimal(out, number / 10);
    }
    let digit: u8 = (number % 10) as u8;
    out.push(ascii_char(48 + digit));
    assert(out@ =~= old(out)@ + decimal(number as nat));
}

/// `number` in decimal.
pub(crate) fn decimal_string(number: u64) -> (out: String)
    ensures
        out@ == decimal(number as nat),
{
    let mut out = String::new();
    push_decimal(&mut out, number);
    assert(out@ =~= decimal(number as nat));
    out
}

/// An optional text as a mathematical value.
pub open spec fn text_view(value: Option<String>) -> Option<Seq<char>> {
    match value {
        Some(found) => Some(found@),
        None => None,
    }
}

/// A copy of an optional text.
pub(crate) fn copy_text(value: &Option<String>) -> (copy: Option<String>)
    ensures
        copy == *value,
{
    match value {
        Some(found) => Some(found.clone()),
        None => None,
    }
}

/// Strings as mathematical texts.
pub open spec fn texts(strings: Seq<String>) -> Seq<Seq<char>> {
    strings.map_values(|s: String| s@)
}

/// The relative path `rest` inside the directory `base`.
pub open spec fn inside(base: Seq<char>, rest: Seq<char>) -> Seq<char> {
    if base.len() == 0 || base.last() == '/' {
        base + rest
    } else {
        base + seq!['/'] + rest
    }
}

/// The relative path `rest` inside the directory `base`.
pub(crate) fn join_path(base: &str, rest: &str) -> (path: String)
    ensures
        path@ == inside(base@, rest@),
{
    let chars = chars_of(base);
    let mut path = base.to_owned();
    if chars.len() > 0 && chars[chars.len() - 1] != '/' {
        path.push('/');
    }
    path.append(rest);
    assert(path@ =~= inside(base@, rest@));
    path
}

/// What follows `prefix` in `value`, when it begins with it.
pub open spec fn after(value: Seq<char>, prefix: Seq<char>) -> Option<Seq<char>> {
    if prefix.is_prefix_of(value) {
        Some(value.skip(prefix.len() as int))
    } else {
        None
    }
}

/// What follows `prefix` in `value`, when it begins with it.
pub(crate) fn strip_prefix(value: &str, prefix: &str) -> (rest: Option<String>)
    ensures
        text_view(rest) == after(value@, prefix@),
{
    if !begins_with(value, prefix) {
        return None;
    }
    let chars = chars_of(value);
    let skipped = chars_of(prefix);
    let rest = string_of(&chars, skipped.len(), chars.len());
    assert(rest@ =~= value@.skip(prefix@.len() as int));
    Some(rest)
}

/// Trimming takes the white space at the two ends and nothing else.
pub proof fn trimming_takes_only_the_ends(front: Seq<char>, core: Seq<char>, back: Seq<char>)
    requires
        forall|i: int| 0 <= i < front.len() ==> is_space(#[trigger] front[i]),
        forall|i: int| 0 <= i < back.len() ==> is_space(#[trigger] back[i]),
        core.len() > 0 ==> !is_space(core[0]) && !is_space(core.last()),
    ensures
        trimmed(front + core + back) == core,
    decreases front.len() + back.len(),
{
    let whole = front + core + back;
    if front.len() > 0 {
        assert(whole[0] == front[0]);
        assert(whole.drop_first() =~= front.skip(1) + core + back);
        assert forall|i: int| 0 <= i < front.skip(1).len() implies is_space(
            #[trigger] front.skip(1)[i],
        ) by {
            assert(front.skip(1)[i] == front[i + 1]);
        }
        trimming_takes_only_the_ends(front.skip(1), core, back);
    } else if core.len() == 0 {
        assert(whole =~= back);
        if back.len() > 0 {
            assert(whole.drop_first() =~= front + core + back.skip(1));
            assert forall|i: int| 0 <= i < back.skip(1).len() implies is_space(
                #[trigger] back.skip(1)[i],
            ) by {
                assert(back.skip(1)[i] == back[i + 1]);
            }
            trimming_takes_only_the_ends(front, core, back.skip(1));
        } else {
            assert(whole =~= core);
        }
    } else if back.len() > 0 {
        assert(whole[0] == core[0]);
        assert(whole.last() == back.last());
        assert(whole.drop_last() =~= front + core + back.drop_last());
        assert forall|i: int| 0 <= i < back.drop_last().len() implies is_space(
            #[trigger] back.drop_last()[i],
        ) by {
            assert(back.drop_last()[i] == back[i]);
        }
        trimming_takes_only_the_ends(front, core, back.drop_last());
    } else {
        assert(whole =~= core);
    }
}

/// Spaces, tabs and line ends are white space; letters, digits and the visible
/// ASCII marks are not.
pub proof fn visible_characters_are_no_space(ch: char)
    ensures
        is_space(' ') && is_space('\t') && is_space('\n') && is_space('\r'),
        '!' <= ch <= '~' ==> !is_space(ch),
{
}

/// Lower case changes the capital letters of ASCII and no other character, each
/// in its place.
pub proof fn lower_case_changes_capitals(text: Seq<char>, at: int)
    requires
        0 <= at < text.len(),
    ensures
        lowered(text).len() == text.len(),
        'A' <= text[at] <= 'Z' ==> lowered(text)[at] as u32 == text[at] as u32 + 32,
        !('A' <= text[at] <= 'Z') ==> lowered(text)[at] == text[at],
{
}

/// Lower case goes character by character.
pub proof fn lower_case_goes_by_character(a: Seq<char>, b: Seq<char>)
    ensures
        lowered(a + b) == lowered(a) + lowered(b),
{
    assert(lowered(a + b) =~= lowered(a) + lowered(b));
}

/// The white space of Unicode: tabs, line ends and the page break, the space
/// itself, and the wider and narrower spaces, the ones that do not break among
/// them. The spaces without width are none.
pub proof fn unicode_spaces_are_space(ch: char)
    ensures
        is_space(ch) <==> {
            ||| '\u{9}' <= ch <= '\u{d}'
            ||| ch == ' ' || ch == '\u{85}' || ch == '\u{a0}' || ch == '\u{1680}'
            ||| '\u{2000}' <= ch <= '\u{200a}'
            ||| ch == '\u{2028}' || ch == '\u{2029}' || ch == '\u{202f}' || ch == '\u{205f}'
            ||| ch == '\u{3000}'
        },
        !is_space('\u{200b}'),
{
}

/// A number is written in digits, without a zero in front unless it is zero.
pub proof fn numbers_have_no_leading_zero(number: nat)
    ensures
        decimal(number).len() > 0,
        number > 0 ==> decimal(number)[0] != '0',
        decimal(0) == seq!['0'],
        forall|i: int|
            0 <= i < decimal(number).len() ==> '0' <= #[trigger] decimal(number)[i] <= '9',
    decreases number,
{
    lemma_decimal_round_trip(number);
    if number >= 10 {
        numbers_have_no_leading_zero(number / 10);
        assert(decimal(number)[0] == decimal(number / 10)[0]);
    }
    assert forall|i: int| 0 <= i < decimal(number).len() implies '0' <= #[trigger] decimal(
        number,
    )[i] <= '9' by {
        assert(is_digit(decimal(number)[i]));
    }
    assert(decimal(0) =~= seq!['0']);
}

} // verus!
