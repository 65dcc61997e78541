//! Percent-encoding of the free-text parts of a registry key.
//!
//! Text is encoded over its UTF-8 bytes: a byte of the RFC 3986 unreserved set,
//! or one the caller keeps literal, stands for itself, and every other byte
//! becomes `%` and two hexadecimal digits.
use vstd::prelude::*;
use vstd::utf8::*;
use crate::text::{ascii_char, string_from_utf8};

verus! {

broadcast use vstd::string::group_string_axioms;

/// The RFC 3986 unreserved characters, as bytes.
pub open spec fn is_unreserved(byte: u8) -> bool {
    ||| 0x30 <= byte <= 0x39
    ||| 0x41 <= byte <= 0x5a
    ||| 0x61 <= byte <= 0x7a
    ||| byte == 0x2d
    ||| byte == 0x2e
    ||| byte == 0x5f
    ||| byte == 0x7e
}

/// Whether `byte` is written as it is when the bytes `literal` are kept.
pub open spec fn stays(byte: u8, literal: Seq<u8>) -> bool {
    is_unreserved(byte) || literal.contains(byte)
}

/// The hexadecimal digit for a number below sixteen.
pub open spec fn hex_char(number: int) -> char {
    if number < 10 {
        ((number + 0x30) as u32) as char
    } else {
        ((number + 0x37) as u32) as char
    }
}

/// The escape of one byte.
pub open spec fn escape(byte: u8) -> Seq<char> {
    seq!['%', hex_char(byte as int / 16), hex_char(byte as int % 16)]
}

/// How one byte is written.
pub open spec fn encoded_byte(byte: u8, literal: Seq<u8>) -> Seq<char> {
    if stays(byte, literal) {
        seq![(byte as u32) as char]
    } else {
        escape(byte)
    }
}

/// How a run of bytes is written.
pub open spec fn encoded_bytes(bytes: Seq<u8>, literal: Seq<u8>) -> Seq<char>
    decreases bytes.len(),
{
    if bytes.len() == 0 {
        Seq::empty()
    } else {
        encoded_byte(bytes[0], literal) + encoded_bytes(bytes.skip(1), literal)
    }
}

/// The percent-encoding of `text`, with the bytes `literal` kept.
pub open spec fn percent_encoded(text: Seq<char>, literal: Seq<u8>) -> Seq<char> {
    encoded_bytes(encode_utf8(text), literal)
}

/// Literal bytes an encoding may keep: ASCII, and not the escape mark itself.
pub open spec fn keepable(literal: Seq<u8>) -> bool {
    forall|i: int| 0 <= i < literal.len() ==> #[trigger] literal[i] < 128 && literal[i] != 0x25
}

/// The number a hexadecimal digit stands for, in either case.
pub open spec fn hex_number(byte: u8) -> Option<u8> {
    if 0x30 <= byte <= 0x39 {
        Some((byte - 0x30) as u8)
    } else if 0x61 <= byte <= 0x66 {
        Some((byte - 0x61 + 10) as u8)
    } else if 0x41 <= byte <= 0x46 {
        Some((byte - 0x41 + 10) as u8)
    } else {
        None
    }
}

/// The bytes that an encoded run of bytes stands for; nothing for a truncated
/// escape or one that is not hexadecimal.
pub open spec fn unescaped(bytes: Seq<u8>) -> Option<Seq<u8>>
    decreases bytes.len(),
{
    if bytes.len() == 0 {
        Some(Seq::empty())
    } else if bytes[0] == 0x25 {
        if bytes.len() < 3 {
            None
        } else {
            match (hex_number(bytes[1]), hex_number(bytes[2]), unescaped(bytes.skip(3))) {
                (Some(high), Some(low), Some(rest)) => Some(seq![(high * 16 + low) as u8] + rest),
                _ => None,
            }
        }
    } else {
        match unescaped(bytes.skip(1)) {
            Some(rest) => Some(seq![bytes[0]] + rest),
            None => None,
        }
    }
}

/// The text that an encoded text stands for; nothing when an escape is
/// malformed or the bytes are not UTF-8.
pub open spec fn percent_decoded(text: Seq<char>) -> Option<Seq<char>> {
    match unescaped(encode_utf8(text)) {
        Some(bytes) => if valid_utf8(bytes) {
            Some(decode_utf8(bytes))
        } else {
            None
        },
        None => None,
    }
}

/// The bytes of ASCII text.
pub open spec fn ascii_bytes(text: Seq<char>) -> Seq<u8> {
    Seq::new(text.len(), |i: int| text[i] as u8)
}

/// What can stand in an encoding: the escape mark, unreserved characters and
/// the literal ones. Nothing else, so no delimiter can be read out of it.
pub proof fn lemma_encoded_charset(bytes: Seq<u8>, literal: Seq<u8>)
    requires
        keepable(literal),
    ensures
        forall|i: int|
            0 <= i < encoded_bytes(bytes, literal).len() ==> {
                let ch = #[trigger] encoded_bytes(bytes, literal)[i];
                ch == '%' || ('\0' <= ch <= '\u{7f}' && stays(ch as u8, literal))
            },
    decreases bytes.len(),
{
    if bytes.len() > 0 {
        lemma_encoded_charset(bytes.skip(1), literal);
        let head = encoded_byte(bytes[0], literal);
        let tail = encoded_bytes(bytes.skip(1), literal);
        assert forall|i: int| 0 <= i < encoded_bytes(bytes, literal).len() implies {
            let ch = #[trigger] encoded_bytes(bytes, literal)[i];
            ch == '%' || ('\0' <= ch <= '\u{7f}' && stays(ch as u8, literal))
        } by {
            if i < head.len() {
                assert(encoded_bytes(bytes, literal)[i] == head[i]);
            } else {
                assert(encoded_bytes(bytes, literal)[i] == tail[i - head.len()]);
            }
        }
    }
}

/// Decoding one escape in front of a run gives the byte in front of what the
/// run decodes to.
pub proof fn lemma_unescape_escape(byte: u8, rest: Seq<u8>)
    ensures
        unescaped(ascii_bytes(escape(byte)) + rest) == (match unescaped(rest) {
            Some(bytes) => Some(seq![byte] + bytes),
            None => None,
        }),
{
    let all = ascii_bytes(escape(byte)) + rest;
    assert(all.skip(3) =~= rest);
    assert(all[0] == 0x25u8);
    let high = byte as int / 16;
    let low = byte as int % 16;
    assert(all[1] == escape(byte)[1] as u8);
    assert(all[2] == escape(byte)[2] as u8);
    assert(hex_number(all[1]) == Some(high as u8));
    assert(hex_number(all[2]) == Some(low as u8));
}

/// Decoding undoes encoding, byte for byte.
pub proof fn lemma_unescape_encoded(bytes: Seq<u8>, literal: Seq<u8>)
    requires
        keepable(literal),
    ensures
        unescaped(ascii_bytes(encoded_bytes(bytes, literal))) == Some(bytes),
    decreases bytes.len(),
{
    if bytes.len() == 0 {
        assert(ascii_bytes(encoded_bytes(bytes, literal)) =~= Seq::<u8>::empty());
        assert(bytes =~= Seq::<u8>::empty());
    } else {
        lemma_unescape_encoded(bytes.skip(1), literal);
        let head = encoded_byte(bytes[0], literal);
        let tail = encoded_bytes(bytes.skip(1), literal);
        let all = ascii_bytes(head + tail);
        assert(all =~= ascii_bytes(head) + ascii_bytes(tail));
        assert(seq![bytes[0]] + bytes.skip(1) =~= bytes);
        if stays(bytes[0], literal) {
            assert(bytes[0] < 128 && bytes[0] != 0x25);
            assert(all[0] == bytes[0]);
            assert(all.skip(1) =~= ascii_bytes(tail));
        } else {
            lemma_unescape_escape(bytes[0], ascii_bytes(tail));
        }
    }
}

/// The UTF-8 bytes of ASCII text are its characters' codes.
pub proof fn lemma_ascii_text(text: Seq<char>)
    requires
        is_ascii_chars(text),
    ensures
        encode_utf8(text) == ascii_bytes(text),
{
    is_ascii_chars_encode_utf8(text);
    assert(encode_utf8(text) =~= ascii_bytes(text));
}

/// Decoding an encoded text gives the text back, for every text.
pub proof fn percent_round_trip(text: Seq<char>, literal: Seq<u8>)
    requires
        keepable(literal),
    ensures
        percent_decoded(percent_encoded(text, literal)) == Some(text),
{
    let bytes = encode_utf8(text);
    lemma_encoded_charset(bytes, literal);
    lemma_ascii_text(encoded_bytes(bytes, literal));
    lemma_unescape_encoded(bytes, literal);
    encode_utf8_valid_utf8(text);
    encode_utf8_decode_utf8(text);
}

/// The hexadecimal digit for a number below sixteen.
fn hex_digit(number: u8) -> (ch: char)
    requires
        number < 16,
    ensures
        ch == hex_char(number as int),
{
    if number < 10 {
        ascii_char(0x30 + number)
    } else {
        ascii_char(0x37 + number)
    }
}

/// Append the escape of one byte.
pub(crate) fn push_escape(out: &mut String, byte: u8)
    ensures
        final(out)@ == old(out)@ + escape(byte),
{
    out.push('%');
    out.push(hex_digit(byte / 16));
    out.push(hex_digit(byte % 16));
    assert(out@ =~= old(out)@ + escape(byte));
}

/// Whether `bytes` holds `byte`.
fn holds_byte(bytes: &[u8], byte: u8) -> (found: bool)
    ensures
        found == bytes@.contains(byte),
{
    let mut i: usize = 0;
    while i < bytes.len()
        invariant
            i <= bytes@.len(),
            forall|j: int| 0 <= j < i ==> bytes@[j] != byte,
        decreases bytes@.len() - i,
    {
        if bytes[i] == byte {
            return true;
        }
        i += 1;
    }
    false
}

/// Append `bytes[from..]`, encoded.
pub(crate) fn push_encoded(out: &mut String, bytes: &[u8], from: usize, literal: &[u8])
    requires
        from <= bytes@.len(),
        keepable(literal@),
    ensures
        final(out)@ == old(out)@ + encoded_bytes(bytes@.skip(from as int), literal@),
{
    let mut i: usize = from;
    assert(out@ + encoded_bytes(bytes@.skip(i as int), literal@) =~= old(out)@ + encoded_bytes(
        bytes@.skip(from as int),
        literal@,
    ));
    while i < bytes.len()
        invariant
            from <= i <= bytes@.len(),
            keepable(literal@),
            out@ + encoded_bytes(bytes@.skip(i as int), literal@) == old(out)@ + encoded_bytes(
                bytes@.skip(from as int),
                literal@,
            ),
        decreases bytes@.len() - i,
    {
        let byte = bytes[i];
        let ghost before = out@;
        let ghost rest = bytes@.skip(i as int);
        assert(rest[0] == byte);
        assert(rest.skip(1) =~= bytes@.skip(i + 1));
        if (0x30 <= byte && byte <= 0x39) || (0x41 <= byte && byte <= 0x5a) || (0x61 <= byte && byte
            <= 0x7a) || byte == 0x2d || byte == 0x2e || byte == 0x5f || byte == 0x7e || holds_byte(
            literal,
            byte,
        ) {
            out.push(ascii_char(byte));
        } else {
            push_escape(out, byte);
        }
        assert(out@ =~= before + encoded_byte(byte, literal@));
        assert(out@ + encoded_bytes(rest.skip(1), literal@) =~= before + encoded_bytes(
            rest,
            literal@,
        ));
        i += 1;
    }
    assert(encoded_bytes(bytes@.skip(i as int), literal@) =~= Seq::<char>::empty());
    assert(out@ + encoded_bytes(bytes@.skip(i as int), literal@) =~= out@);
}

/// Percent-encode `value`, keeping the bytes `literal` as they are (`/` inside
/// a path, `:` inside a bracketed IPv6 host).
pub(crate) fn percent_encode(value: &str, literal: &[u8]) -> (out: String)
    requires
        keepable(literal@),
    ensures
        out@ == percent_encoded(value@, literal@),
{
    let mut out = String::new();
    let bytes = value.as_bytes();
    push_encoded(&mut out, bytes, 0, literal);
    assert(bytes@.skip(0) =~= bytes@);
    assert(out@ =~= percent_encoded(value@, literal@));
    out
}

/// The number a hexadecimal digit stands for.
fn hex_value(byte: u8) -> (number: Option<u8>)
    ensures
        number == hex_number(byte),
        number matches Some(digit) ==> digit < 16,
{
    if 0x30 <= byte && byte <= 0x39 {
        Some(byte - 0x30)
    } else if 0x61 <= byte && byte <= 0x66 {
        Some(byte - 0x61 + 10)
    } else if 0x41 <= byte && byte <= 0x46 {
        Some(byte - 0x41 + 10)
    } else {
        None
    }
}

/// `head` in front of what was decoded after it, if anything was.
spec fn joined(head: Seq<u8>, tail: Option<Seq<u8>>) -> Option<Seq<u8>> {
    match tail {
        Some(rest) => Some(head + rest),
        None => None,
    }
}

/// Inverse of [`percent_encode`]. A malformed escape, or bytes that are not
/// UTF-8, are refused rather than repaired into a different connection.
pub(crate) fn percent_decode(value: &str) -> (out: Option<String>)
    ensures
        match (out, percent_decoded(value@)) {
            (Some(text), Some(expected)) => text@ == expected,
            (None, None) => true,
            _ => false,
        },
{
    let bytes = value.as_bytes();
    let mut decoded: Vec<u8> = Vec::new();
    let mut i: usize = 0;
    assert(bytes@.skip(0) =~= bytes@);
    assert(unescaped(bytes@) matches Some(all) ==> Seq::<u8>::empty() + all =~= all);
    while i < bytes.len()
        invariant
            i <= bytes@.len(),
            bytes@ == encode_utf8(value@),
            unescaped(bytes@) == joined(decoded@, unescaped(bytes@.skip(i as int))),
        decreases bytes@.len() - i,
    {
        let ghost rest = bytes@.skip(i as int);
        let ghost before = decoded@;
        if bytes[i] == 0x25 {
            if bytes.len() - i < 3 {
                return None;
            }
            match (hex_value(bytes[i + 1]), hex_value(bytes[i + 2])) {
                (Some(high), Some(low)) => {
                    decoded.push(high * 16 + low);
                },
                _ => {
                    return None;
                },
            }
            assert(rest.skip(3) =~= bytes@.skip(i + 3));
            assert(unescaped(rest.skip(3)) matches Some(tail) ==> decoded@ + tail =~= before + (
            seq![decoded@.last()] + tail));
            i += 3;
        } else {
            decoded.push(bytes[i]);
            assert(rest.skip(1) =~= bytes@.skip(i + 1));
            assert(unescaped(rest.skip(1)) matches Some(tail) ==> decoded@ + tail =~= before + (
            seq![decoded@.last()] + tail));
            i += 1;
        }
    }
    assert(bytes@.skip(i as int) =~= Seq::<u8>::empty());
    assert(decoded@ + Seq::<u8>::empty() =~= decoded@);
    let out = string_from_utf8(decoded);
    proof {
        if out is Some {
            encode_utf8_decode_utf8(out->0@);
        }
    }
    out
}

/// Letters, digits and the four marks `-`, `.`, `_` and `~` stand for
/// themselves, and so does every literal character.
pub proof fn plain_text_stays(text: Seq<char>, literal: Seq<u8>)
    requires
        forall|i: int|
            0 <= i < text.len() ==> {
                let ch = #[trigger] text[i];
                ||| 'a' <= ch <= 'z'
                ||| 'A' <= ch <= 'Z'
                ||| '0' <= ch <= '9'
                ||| ch == '-' || ch == '.' || ch == '_' || ch == '~'
                ||| '\0' <= ch <= '\u{7f}' && literal.contains(ch as u8)
            },
    ensures
        percent_encoded(text, literal) == text,
{
    lemma_ascii_text(text);
    lemma_plain_bytes(text, literal);
}

proof fn lemma_plain_bytes(text: Seq<char>, literal: Seq<u8>)
    requires
        forall|i: int|
            0 <= i < text.len() ==> {
                let ch = #[trigger] text[i];
                ||| 'a' <= ch <= 'z'
                ||| 'A' <= ch <= 'Z'
                ||| '0' <= ch <= '9'
                ||| ch == '-' || ch == '.' || ch == '_' || ch == '~'
                ||| '\0' <= ch <= '\u{7f}' && literal.contains(ch as u8)
            },
    ensures
        encoded_bytes(ascii_bytes(text), literal) == text,
    decreases text.len(),
{
    let bytes = ascii_bytes(text);
    if text.len() > 0 {
        let rest = text.skip(1);
        assert(bytes.skip(1) =~= ascii_bytes(rest));
        assert(bytes[0] == text[0] as u8);
        assert(stays(bytes[0], literal));
        assert((bytes[0] as u32) as char == text[0]);
        assert forall|i: int| 0 <= i < rest.len() implies {
            let ch = #[trigger] rest[i];
            ||| 'a' <= ch <= 'z'
            ||| 'A' <= ch <= 'Z'
            ||| '0' <= ch <= '9'
            ||| ch == '-' || ch == '.' || ch == '_' || ch == '~'
            ||| '\0' <= ch <= '\u{7f}' && literal.contains(ch as u8)
        } by {
            assert(rest[i] == text[i + 1]);
        }
        lemma_plain_bytes(rest, literal);
        assert(seq![text[0]] + rest =~= text);
    } else {
        assert(text =~= Seq::<char>::empty());
    }
}

/// Every other byte is written as a percent sign and two upper-case hexadecimal
/// digits, the high one first.
pub proof fn other_bytes_are_escaped(byte: u8, literal: Seq<u8>)
    requires
        !(0x61 <= byte <= 0x7a || 0x41 <= byte <= 0x5a || 0x30 <= byte <= 0x39 || byte == 0x2d
            || byte == 0x2e || byte == 0x5f || byte == 0x7e),
        !literal.contains(byte),
    ensures
        encoded_bytes(seq![byte], literal) == seq![
            '%',
            "0123456789ABCDEF"@[byte as int / 16],
            "0123456789ABCDEF"@[byte as int % 16],
        ],
{
    reveal_strlit("0123456789ABCDEF");
    let high = byte as int / 16;
    let low = byte as int % 16;
    assert(forall|n: int| 0 <= n < 16 ==> hex_char(n) == #[trigger] "0123456789ABCDEF"@[n]);
    assert(seq![byte].skip(1) =~= Seq::<u8>::empty());
    assert(encoded_bytes(seq![byte].skip(1), literal) =~= Seq::<char>::empty());
    assert(encoded_bytes(seq![byte], literal) =~= seq!['%', hex_char(high), hex_char(low)]);
}

/// Escapes are read in either case, and one that is cut short or holds another
/// character than a digit makes the whole unreadable.
pub proof fn broken_escapes_are_refused(bytes: Seq<u8>)
    requires
        bytes.len() > 0,
        bytes[0] == 0x25,
        bytes.len() < 3 || !(0x30 <= bytes[1] <= 0x39 || 0x41 <= bytes[1] <= 0x46 || 0x61
            <= bytes[1] <= 0x66) || !(0x30 <= bytes[2] <= 0x39 || 0x41 <= bytes[2] <= 0x46 || 0x61
            <= bytes[2] <= 0x66),
    ensures
        unescaped(bytes) is None,
{
}

} // verus!
