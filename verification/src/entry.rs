//! Registry entries and the key codec that names them.
//!
//! A registry key is either a local absolute path or a remote key,
//! `ssh://<user>@<host>:<port><path>?i=<identity>`, that holds a whole
//! connection in one string.
use vstd::prelude::*;
use vstd::utf8::*;
use crate::percent;
use crate::percent::{percent_decode, percent_encode, push_encoded, push_escape};
use crate::text;
use crate::text::{
    begins_with, chars_of, contains_char, find_first, find_last, push_decimal, string_of,
};

verus! {

broadcast use vstd::string::group_string_axioms;

/// Port assumed when the connection form leaves the port field blank.
pub const DEFAULT_SSH_PORT: u16 = 22;

/// Whether a registered path is a git repository or a plain folder.
#[derive(Clone, Copy, Debug, PartialEq, Eq, Structural)]
pub enum RepoEntryKind {
    Repo,
    Folder,
}

/// Scheme that marks a registry key as a remote entry.
pub open spec fn remote_scheme() -> Seq<char> {
    seq!['s', 's', 'h', ':', '/', '/']
}

/// The connection components of a remote entry, as mathematical values.
pub struct RemoteTargetView {
    pub server: Seq<char>,
    pub port: u16,
    pub user: Seq<char>,
    pub identity: Seq<char>,
    pub remote_path: Seq<char>,
}

/// The five connection components a remote entry is built from. The registry
/// stores them encoded into a single self-describing key, so that remote and
/// local entries share one column.
#[derive(Debug, PartialEq, Eq)]
pub struct RemoteTarget {
    pub server: String,
    pub port: u16,
    pub user: String,
    /// Local private-key path passed to `ssh -i`. Empty means "not specified".
    pub identity: String,
    /// The directory on the host, as typed or as the host resolved it.
    pub remote_path: String,
}

impl Clone for RemoteTarget {
    fn clone(&self) -> (copy: Self)
        ensures
            copy == *self,
    {
        RemoteTarget {
            server: self.server.clone(),
            port: self.port,
            user: self.user.clone(),
            identity: self.identity.clone(),
            remote_path: self.remote_path.clone(),
        }
    }
}

impl View for RemoteTarget {
    type V = RemoteTargetView;

    open spec fn view(&self) -> RemoteTargetView {
        RemoteTargetView {
            server: self.server@,
            port: self.port,
            user: self.user@,
            identity: self.identity@,
            remote_path: self.remote_path@,
        }
    }
}

/// The bytes kept literal inside an encoded path.
pub open spec fn path_literal() -> Seq<u8> {
    seq![0x2f]
}

/// The bytes kept literal inside a bracketed host.
pub open spec fn host_literal() -> Seq<u8> {
    seq![0x3a]
}

/// How a host is written: an address with colons is bracketed.
pub open spec fn encoded_host(server: Seq<char>) -> Seq<char> {
    if server.contains(':') {
        seq!['['] + percent::percent_encoded(server, host_literal()) + seq![']']
    } else {
        percent::percent_encoded(server, Seq::empty())
    }
}

/// How a path is written behind the port: slashes stay, and a leading digit is
/// escaped so that it cannot be read as part of the port.
pub open spec fn encoded_path_bytes(bytes: Seq<u8>) -> Seq<char> {
    if bytes.len() > 0 && 0x30 <= bytes[0] <= 0x39 {
        percent::escape(bytes[0]) + percent::encoded_bytes(bytes.skip(1), path_literal())
    } else {
        percent::encoded_bytes(bytes, path_literal())
    }
}

/// How the identity is written; nothing at all when there is none.
pub open spec fn encoded_identity(identity: Seq<char>) -> Seq<char> {
    if identity.len() == 0 {
        Seq::empty()
    } else {
        seq!['?', 'i', '='] + percent::percent_encoded(identity, path_literal())
    }
}

/// The part of a key that names the user, the host and the port.
pub open spec fn encoded_authority(target: RemoteTargetView) -> Seq<char> {
    percent::percent_encoded(target.user, Seq::empty()) + seq!['@'] + encoded_host(target.server)
        + seq![':'] + text::decimal(target.port as nat)
}

/// The registry key of a connection.
pub open spec fn remote_key(target: RemoteTargetView) -> Seq<char> {
    remote_scheme() + encoded_authority(target) + encoded_path_bytes(
        encode_utf8(target.remote_path),
    ) + encoded_identity(target.identity)
}

/// The port that a text begins with, and how many characters it takes. A sign
/// may stand in front; the number has to fit a port.
pub open spec fn leading_port(tail: Seq<char>) -> Option<(u16, int)> {
    let sign = if tail.len() > 0 && tail[0] == '+' {
        1int
    } else {
        0int
    };
    let digits = text::digit_run(tail.skip(sign));
    let value = text::digits_value(tail.subrange(sign, sign + digits));
    if digits > 0 && value <= u16::MAX {
        Some((value as u16, sign + digits))
    } else {
        None
    }
}

/// The host in front of the port delimiter, still encoded, and what follows
/// the delimiter.
pub open spec fn split_host(host_port: Seq<char>) -> Option<(Seq<char>, Seq<char>)> {
    if host_port.len() > 0 && host_port[0] == '[' {
        let close = text::first_pos(host_port, 1, ']');
        if close + 1 < host_port.len() && host_port[close + 1] == ':' {
            Some((host_port.subrange(1, close), host_port.skip(close + 2)))
        } else {
            None
        }
    } else {
        let colon = text::last_pos(host_port, ':');
        if colon >= 0 {
            Some((host_port.take(colon), host_port.skip(colon + 1)))
        } else {
            None
        }
    }
}

/// The parts of a key between the scheme and the query, decoded.
pub open spec fn parsed_location(head: Seq<char>, identity: Seq<char>) -> Option<RemoteTargetView> {
    let slash = text::first_pos(head, 0, '/');
    let authority = head.take(slash);
    let at = text::first_pos(authority, 0, '@');
    if at >= authority.len() {
        None
    } else {
        match split_host(authority.skip(at + 1)) {
            Some((host, tail)) => match leading_port(tail) {
                Some((port, used)) => match (
                    percent::percent_decoded(authority.take(at)),
                    percent::percent_decoded(host),
                    percent::percent_decoded(tail.skip(used) + head.skip(slash)),
                ) {
                    (Some(user), Some(server), Some(remote_path)) => Some(
                        RemoteTargetView { server, port, user, identity, remote_path },
                    ),
                    _ => None,
                },
                None => None,
            },
            None => None,
        }
    }
}

/// The connection a key stands for; nothing for a text that is no well-formed
/// remote key.
pub open spec fn parsed_key(key: Seq<char>) -> Option<RemoteTargetView> {
    if !remote_scheme().is_prefix_of(key) {
        None
    } else {
        let rest = key.skip(6);
        let mark = text::first_pos(rest, 0, '?');
        if mark >= rest.len() {
            parsed_location(rest, Seq::empty())
        } else {
            let query = rest.skip(mark + 1);
            if query.len() < 2 || query[0] != 'i' || query[1] != '=' {
                None
            } else {
                match percent::percent_decoded(query.skip(2)) {
                    Some(identity) => parsed_location(rest.take(mark), identity),
                    None => None,
                }
            }
        }
    }
}

/// Whether a key names an entry on another machine.
pub open spec fn names_remote(key: Seq<char>) -> bool {
    remote_scheme().is_prefix_of(key)
}

/// Encode a remote connection as a registry key:
/// `ssh://<user>@<host>:<port><path>?i=<identity>`.
///
/// Every free-text segment is percent-encoded and an IPv6 host is bracketed, so
/// no byte of a user, path, or identity can be read back as a delimiter. A raw
/// delimiter would not fail loudly: it would parse into a different connection.
pub fn format_remote_key(
    server: &str,
    port: u16,
    user: &str,
    identity: &str,
    remote_path: &str,
) -> (key: String)
    ensures
        key@ == remote_key(
            (RemoteTargetView {
                server: server@,
                port,
                user: user@,
                identity: identity@,
                remote_path: remote_path@,
            }),
        ),
{
    let none: [u8; 0] = [];
    let slash: [u8; 1] = [0x2f];
    let colon: [u8; 1] = [0x3a];
    assert(slash@ =~= path_literal());
    assert(colon@ =~= host_literal());
    assert(none@ =~= Seq::<u8>::empty());
    let ghost target = RemoteTargetView {
        server: server@,
        port,
        user: user@,
        identity: identity@,
        remote_path: remote_path@,
    };
    proof {
        reveal_strlit("ssh://");
        reveal_strlit("?i=");
    }
    let mut key = "ssh://".to_owned();
    assert(key@ =~= remote_scheme());
    key.append(percent_encode(user, &none).as_str());
    key.push('@');
    if contains_char(server, ':') {
        key.push('[');
        key.append(percent_encode(server, &colon).as_str());
        key.push(']');
    } else {
        key.append(percent_encode(server, &none).as_str());
    }
    key.push(':');
    push_decimal(&mut key, port as u64);
    assert(key@ =~= remote_scheme() + encoded_authority(target));
    let bytes = remote_path.as_bytes();
    if bytes.len() > 0 && 0x30 <= bytes[0] && bytes[0] <= 0x39 {
        push_escape(&mut key, bytes[0]);
        push_encoded(&mut key, bytes, 1, &slash);
    } else {
        push_encoded(&mut key, bytes, 0, &slash);
        assert(bytes@.skip(0) =~= bytes@);
    }
    assert(key@ =~= remote_scheme() + encoded_authority(target) + encoded_path_bytes(
        encode_utf8(remote_path@),
    ));
    if !identity.is_empty() {
        key.append("?i=");
        key.append(percent_encode(identity, &slash).as_str());
        assert("?i="@ =~= seq!['?', 'i', '=']);
    }
    assert(key@ =~= remote_key(target));
    key
}

/// A copy of `chars[from..to]`.
fn part_of(chars: &Vec<char>, from: usize, to: usize) -> (part: Vec<char>)
    requires
        from <= to <= chars@.len(),
    ensures
        part@ == chars@.subrange(from as int, to as int),
{
    let mut part: Vec<char> = Vec::new();
    let mut i: usize = from;
    while i < to
        invariant
            from <= i <= to <= chars@.len(),
            part@ == chars@.subrange(from as int, i as int),
        decreases to - i,
    {
        part.push(chars[i]);
        i += 1;
        assert(part@ =~= chars@.subrange(from as int, i as int));
    }
    part
}

/// What a decoding gave, as mathematical text.
pub open spec fn decoded_view(out: Option<String>) -> Option<Seq<char>> {
    match out {
        Some(value) => Some(value@),
        None => None,
    }
}

/// Decode all of `chars`.
fn decode_all(chars: &Vec<char>) -> (out: Option<String>)
    ensures
        decoded_view(out) == percent::percent_decoded(chars@),
{
    let whole = string_of(chars, 0, chars.len());
    assert(whole@ =~= chars@);
    percent_decode(whole.as_str())
}

/// The port at the start of `tail` and the characters it takes.
pub(crate) fn read_port(tail: &Vec<char>) -> (port: Option<(u16, usize)>)
    ensures
        match (port, leading_port(tail@)) {
            (Some((value, used)), Some((expected, taken))) => value == expected && used == taken
                && used <= tail@.len(),
            (None, None) => true,
            _ => false,
        },
{
    let sign: usize = if tail.len() > 0 && tail[0] == '+' {
        1
    } else {
        0
    };
    let ghost digits = tail@.skip(sign as int);
    let ghost run = text::digit_run(digits);
    proof {
        text::lemma_digit_run(digits);
    }
    let mut i: usize = sign;
    let mut value: u32 = 0;
    assert(tail@.subrange(sign as int, i as int) =~= Seq::<char>::empty());
    while i < tail.len() && '0' <= tail[i] && tail[i] <= '9'
        invariant
            sign <= i <= tail@.len(),
            sign == (if tail@.len() > 0 && tail@[0] == '+' {
                1int
            } else {
                0int
            }),
            digits == tail@.skip(sign as int),
            run == text::digit_run(digits),
            0 <= run <= digits.len(),
            forall|j: int| 0 <= j < run ==> text::is_digit(#[trigger] digits[j]),
            run < digits.len() ==> !text::is_digit(digits[run]),
            i - sign <= run,
            value <= u16::MAX,
            value == text::digits_value(tail@.subrange(sign as int, i as int)),
        decreases tail@.len() - i,
    {
        assert(digits[i - sign] == tail@[i as int]);
        value = value * 10 + (tail[i] as u32 - 48);
        i += 1;
        assert(tail@.subrange(sign as int, i as int).drop_last() =~= tail@.subrange(
            sign as int,
            i - 1,
        ));
        if value > 65535 {
            proof {
                let all = tail@.subrange(sign as int, sign + run);
                text::lemma_digits_value_grows(all, i - sign);
                assert(all.take(i - sign) =~= tail@.subrange(sign as int, i as int));
            }
            return None;
        }
    }
    proof {
        if i < tail@.len() {
            assert(digits[i - sign] == tail@[i as int]);
        }
        assert(i - sign == run);
    }
    if i == sign {
        return None;
    }
    Some((value as u16, i))
}

/// The encoded host of `host_port` and what follows the port delimiter.
fn read_host(host_port: &Vec<char>) -> (parts: Option<(Vec<char>, Vec<char>)>)
    ensures
        match (parts, split_host(host_port@)) {
            (Some((host, tail)), Some((expected, rest))) => host@ == expected && tail@ == rest,
            (None, None) => true,
            _ => false,
        },
{
    let len = host_port.len();
    if len > 0 && host_port[0] == '[' {
        let close = find_first(host_port, 1, ']');
        proof {
            text::lemma_first_pos(host_port@, 1, ']');
        }
        if close < len && close + 1 < len && host_port[close + 1] == ':' {
            let host = part_of(host_port, 1, close);
            let tail = part_of(host_port, close + 2, len);
            assert(tail@ =~= host_port@.skip(close + 2));
            Some((host, tail))
        } else {
            None
        }
    } else {
        assert(host_port@.subrange(0, len as int) =~= host_port@);
        match find_last(host_port, 0, len, ':') {
            Some(colon) => {
                let host = part_of(host_port, 0, colon);
                let tail = part_of(host_port, colon + 1, len);
                assert(host@ =~= host_port@.take(colon as int));
                assert(tail@ =~= host_port@.skip(colon + 1));
                Some((host, tail))
            },
            None => None,
        }
    }
}

/// A parse result as a mathematical value.
pub open spec fn target_view(target: Option<RemoteTarget>) -> Option<RemoteTargetView> {
    match target {
        Some(found) => Some(found@),
        None => None,
    }
}

/// The parts between the scheme and the query.
fn read_location(head: &Vec<char>, identity: String) -> (target: Option<RemoteTarget>)
    ensures
        target_view(target) == parsed_location(head@, identity@),
{
    let slash = find_first(head, 0, '/');
    let authority = part_of(head, 0, slash);
    assert(authority@ =~= head@.take(slash as int));
    let at = find_first(&authority, 0, '@');
    if at >= authority.len() {
        return None;
    }
    let user_part = part_of(&authority, 0, at);
    assert(user_part@ =~= authority@.take(at as int));
    let host_port = part_of(&authority, at + 1, authority.len());
    assert(host_port@ =~= authority@.skip(at + 1));
    match read_host(&host_port) {
        Some((host, tail)) => match read_port(&tail) {
            Some((port, used)) => {
                let mut path = part_of(&tail, used, tail.len());
                let mut rest = part_of(head, slash, head.len());
                assert(path@ =~= tail@.skip(used as int));
                assert(rest@ =~= head@.skip(slash as int));
                path.append(&mut rest);
                match (decode_all(&user_part), decode_all(&host), decode_all(&path)) {
                    (Some(user), Some(server), Some(remote_path)) => Some(
                        RemoteTarget { server, port, user, identity, remote_path },
                    ),
                    _ => None,
                }
            },
            None => None,
        },
        None => None,
    }
}

/// Inverse of [`format_remote_key`]. `None` for anything that is not a
/// well-formed remote key, a local path among them.
///
/// The port ends at the first character that is no digit, and what follows is
/// the path, so a path need not begin with a slash.
pub fn parse_remote_key(key: &str) -> (target: Option<RemoteTarget>)
    ensures
        target_view(target) == parsed_key(key@),
{
    if !is_remote_key(key) {
        return None;
    }
    let chars = chars_of(key);
    let rest = part_of(&chars, 6, chars.len());
    assert(rest@ =~= key@.skip(6));
    let mark = find_first(&rest, 0, '?');
    if mark >= rest.len() {
        return read_location(&rest, String::new());
    }
    let query = part_of(&rest, mark + 1, rest.len());
    assert(query@ =~= rest@.skip(mark + 1));
    if query.len() < 2 || query[0] != 'i' || query[1] != '=' {
        return None;
    }
    let encoded = part_of(&query, 2, query.len());
    assert(encoded@ =~= query@.skip(2));
    match decode_all(&encoded) {
        Some(identity) => {
            let head = part_of(&rest, 0, mark);
            assert(head@ =~= rest@.take(mark as int));
            read_location(&head, identity)
        },
        None => None,
    }
}

/// True for a remote registry key. Local entries are absolute paths, so this is
/// the locality discriminator every filesystem rule branches on.
pub fn is_remote_key(key: &str) -> (remote: bool)
    ensures
        remote == names_remote(key@),
{
    proof {
        reveal_strlit("ssh://");
        assert("ssh://"@ =~= remote_scheme());
    }
    begins_with(key, "ssh://")
}

/// [`is_remote_key`] for a path, given as its text where it has one: a path that
/// is not valid Unicode is always local.
pub fn is_remote_path(path: Option<&str>) -> (remote: bool)
    ensures
        remote == (path matches Some(key) && names_remote(key@)),
{
    match path {
        Some(key) => is_remote_key(key),
        None => false,
    }
}

/// The character does not occur.
pub open spec fn lacks(text: Seq<char>, ch: char) -> bool {
    forall|i: int| 0 <= i < text.len() ==> text[i] != ch
}

proof fn lemma_first_pos_join(head: Seq<char>, tail: Seq<char>, ch: char)
    requires
        lacks(head, ch),
    ensures
        text::first_pos(head + tail, 0, ch) == head.len() + text::first_pos(tail, 0, ch),
{
    let all = head + tail;
    text::lemma_first_pos(all, 0, ch);
    text::lemma_first_pos(tail, 0, ch);
    let found = text::first_pos(all, 0, ch);
    let inner = text::first_pos(tail, 0, ch);
    if found < head.len() {
        assert(all[found] == head[found]);
    }
    if found < head.len() + inner {
        assert(all[found] == tail[found - head.len()]);
    }
    if found > head.len() + inner {
        assert(all[head.len() + inner] == tail[inner]);
    }
}

/// A delimiter cannot be read out of an encoded text.
proof fn lemma_encoded_lacks(bytes: Seq<u8>, literal: Seq<u8>, ch: char)
    requires
        percent::keepable(literal),
        ch != '%',
        !percent::stays(ch as u8, literal),
    ensures
        lacks(percent::encoded_bytes(bytes, literal), ch),
{
    percent::lemma_encoded_charset(bytes, literal);
}

proof fn lemma_path_charset(bytes: Seq<u8>)
    ensures
        is_ascii_chars(encoded_path_bytes(bytes)),
        lacks(encoded_path_bytes(bytes), '?'),
        lacks(encoded_path_bytes(bytes), '@'),
        lacks(encoded_path_bytes(bytes), ':'),
        lacks(encoded_path_bytes(bytes), ']'),
        encoded_path_bytes(bytes).len() > 0 ==> !text::is_digit(encoded_path_bytes(bytes)[0]),
        percent::unescaped(percent::ascii_bytes(encoded_path_bytes(bytes))) == Some(bytes),
{
    let whole = encoded_path_bytes(bytes);
    let literal = path_literal();
    percent::lemma_encoded_charset(bytes, literal);
    if bytes.len() > 0 && 0x30 <= bytes[0] <= 0x39 {
        let rest = bytes.skip(1);
        let head = percent::escape(bytes[0]);
        let tail = percent::encoded_bytes(rest, literal);
        percent::lemma_encoded_charset(rest, literal);
        percent::lemma_unescape_encoded(rest, literal);
        percent::lemma_unescape_escape(bytes[0], percent::ascii_bytes(tail));
        assert(percent::ascii_bytes(whole) =~= percent::ascii_bytes(head) + percent::ascii_bytes(
            tail,
        ));
        assert(seq![bytes[0]] + rest =~= bytes);
        assert forall|i: int| 0 <= i < whole.len() implies ({
            let ch = #[trigger] whole[i];
            ch == '%' || ('\0' <= ch <= '\u{7f}' && percent::stays(ch as u8, literal))
        }) by {
            if i >= 3 {
                assert(whole[i] == tail[i - 3]);
            } else {
                assert(whole[i] == head[i]);
            }
        }
    } else {
        percent::lemma_unescape_encoded(bytes, literal);
        if bytes.len() > 0 {
            let first = percent::encoded_byte(bytes[0], literal);
            assert(whole[0] == first[0]);
        }
    }
}

proof fn lemma_path_round_trip(path: Seq<char>)
    ensures
        percent::percent_decoded(encoded_path_bytes(encode_utf8(path))) == Some(path),
{
    let bytes = encode_utf8(path);
    lemma_path_charset(bytes);
    percent::lemma_ascii_text(encoded_path_bytes(bytes));
    encode_utf8_valid_utf8(path);
    encode_utf8_decode_utf8(path);
}

/// The port is read back from in front of anything that does not begin with a
/// digit.
proof fn lemma_leading_port(port: u16, rest: Seq<char>)
    requires
        rest.len() > 0 ==> !text::is_digit(rest[0]),
    ensures
        leading_port(text::decimal(port as nat) + rest) == Some(
            (port, text::decimal(port as nat).len() as int),
        ),
{
    let digits = text::decimal(port as nat);
    let tail = digits + rest;
    text::lemma_decimal_round_trip(port as nat);
    assert(tail[0] == digits[0]);
    assert(tail.skip(0) =~= tail);
    text::lemma_digit_run(tail);
    let run = text::digit_run(tail);
    if run < digits.len() {
        assert(tail[run] == digits[run]);
    }
    if run > digits.len() {
        assert(tail[digits.len() as int] == rest[0]);
    }
    assert(tail.subrange(0, run) =~= digits);
}

proof fn lemma_split_host(server: Seq<char>, tail: Seq<char>)
    requires
        lacks(tail, ':'),
    ensures
        split_host(encoded_host(server) + seq![':'] + tail) matches Some((host, rest))
            && percent::percent_decoded(host) == Some(server) && rest == tail,
{
    let host = encoded_host(server);
    let all = host + seq![':'] + tail;
    let bytes = encode_utf8(server);
    if server.contains(':') {
        let inner = percent::percent_encoded(server, host_literal());
        lemma_encoded_lacks(bytes, host_literal(), ']');
        percent::percent_round_trip(server, host_literal());
        text::lemma_first_pos(all, 1, ']');
        let close = text::first_pos(all, 1, ']');
        assert(all[1int + inner.len()] == ']');
        if close < 1 + inner.len() {
            assert(all[close] == inner[close - 1]);
        }
        assert(close == 1 + inner.len());
        assert(all[close + 1] == ':');
        assert(all.subrange(1, close) =~= inner);
        assert(all.skip(close + 2) =~= tail);
    } else {
        lemma_encoded_lacks(bytes, Seq::empty(), '[');
        percent::percent_round_trip(server, Seq::empty());
        if host.len() > 0 {
            assert(all[0] == host[0]);
        } else {
            assert(all[0] == ':');
        }
        text::lemma_last_pos(all, ':');
        let colon = text::last_pos(all, ':');
        assert(all[host.len() as int] == ':');
        if colon > host.len() {
            assert(all[colon] == tail[colon - host.len() - 1]);
        }
        assert(all.take(colon) =~= host);
        assert(all.skip(colon + 1) =~= tail);
    }
}

proof fn lemma_authority_lacks(target: RemoteTargetView)
    ensures
        lacks(encoded_authority(target), '?'),
        lacks(encoded_authority(target), '/'),
{
    let user = encode_utf8(target.user);
    let server = encode_utf8(target.server);
    text::lemma_decimal_round_trip(target.port as nat);
    lemma_encoded_lacks(user, Seq::empty(), '?');
    lemma_encoded_lacks(user, Seq::empty(), '/');
    lemma_encoded_lacks(server, Seq::empty(), '?');
    lemma_encoded_lacks(server, Seq::empty(), '/');
    lemma_encoded_lacks(server, host_literal(), '?');
    lemma_encoded_lacks(server, host_literal(), '/');
}

/// How the pieces of a location regroup around its first slash.
proof fn lemma_regroup(
    user: Seq<char>,
    host: Seq<char>,
    digits: Seq<char>,
    path: Seq<char>,
    slash: int,
)
    requires
        0 <= slash <= path.len(),
    ensures
        ({
            let authority = user + seq!['@'] + host + seq![':'] + digits;
            let head = authority + path;
            let cut = authority.len() + slash;
            let tail = digits + path.take(slash);
            &&& head.take(cut) == user + (seq!['@'] + (host + seq![':'] + tail))
            &&& head.skip(cut) == path.skip(slash)
            &&& tail.skip(digits.len() as int) + path.skip(slash) == path
        }),
{
    let authority = user + seq!['@'] + host + seq![':'] + digits;
    let head = authority + path;
    let cut = authority.len() + slash;
    let tail = digits + path.take(slash);
    assert(head.take(cut) =~= user + (seq!['@'] + (host + seq![':'] + tail)));
    assert(head.skip(cut) =~= path.skip(slash));
    assert(tail.skip(digits.len() as int) + path.skip(slash) =~= path);
}

/// The first delimiter of `user@rest` stands right behind the user.
proof fn lemma_user_split(user: Seq<char>, rest: Seq<char>)
    requires
        lacks(user, '@'),
    ensures
        ({
            let whole = user + (seq!['@'] + rest);
            &&& text::first_pos(whole, 0, '@') == user.len()
            &&& whole.take(user.len() as int) == user
            &&& whole.skip(user.len() as int + 1) == rest
        }),
{
    let whole = user + (seq!['@'] + rest);
    lemma_first_pos_join(user, seq!['@'] + rest, '@');
    assert((seq!['@'] + rest)[0] == '@');
    assert(whole.take(user.len() as int) =~= user);
    assert(whole.skip(user.len() as int + 1) =~= rest);
}

#[verifier::spinoff_prover]
proof fn lemma_location_round_trip(target: RemoteTargetView)
    ensures
        parsed_location(
            encoded_authority(target) + encoded_path_bytes(encode_utf8(target.remote_path)),
            target.identity,
        ) == Some(target),
{
    let authority = encoded_authority(target);
    let path = encoded_path_bytes(encode_utf8(target.remote_path));
    let head = authority + path;
    let user = percent::percent_encoded(target.user, Seq::empty());
    let host = encoded_host(target.server);
    let digits = text::decimal(target.port as nat);
    lemma_path_charset(encode_utf8(target.remote_path));
    lemma_authority_lacks(target);
    lemma_first_pos_join(authority, path, '/');
    text::lemma_first_pos(path, 0, '/');
    let inner = text::first_pos(path, 0, '/');
    let lead = path.take(inner);
    let tail = digits + lead;
    let host_port = host + seq![':'] + tail;
    lemma_regroup(user, host, digits, path, inner);
    let whole = head.take(authority.len() + inner);
    assert(whole == user + (seq!['@'] + host_port));
    lemma_encoded_lacks(encode_utf8(target.user), Seq::empty(), '@');
    lemma_user_split(user, host_port);
    text::lemma_decimal_round_trip(target.port as nat);
    assert(lacks(tail, ':'));
    lemma_split_host(target.server, tail);
    lemma_leading_port(target.port, lead);
    percent::percent_round_trip(target.user, Seq::empty());
    lemma_path_round_trip(target.remote_path);
    assert(whole.len() > user.len());
}

/// Reading back a formatted key gives exactly the connection it was made from,
/// for every server, port, user, identity and path.
pub proof fn remote_key_round_trip(target: RemoteTargetView)
    ensures
        parsed_key(remote_key(target)) == Some(target),
{
    let authority = encoded_authority(target);
    let path = encoded_path_bytes(encode_utf8(target.remote_path));
    let head = authority + path;
    let query = encoded_identity(target.identity);
    let key = remote_key(target);
    let rest = key.skip(6);
    assert(key.take(6) =~= remote_scheme());
    assert(rest =~= head + query);
    lemma_authority_lacks(target);
    lemma_path_charset(encode_utf8(target.remote_path));
    assert(lacks(head, '?'));
    lemma_first_pos_join(head, query, '?');
    lemma_location_round_trip(target);
    if target.identity.len() == 0 {
        assert(rest =~= head);
        assert(target.identity =~= Seq::<char>::empty());
    } else {
        let encoded = percent::percent_encoded(target.identity, path_literal());
        assert(query[0] == '?');
        assert(text::first_pos(query, 0, '?') == 0);
        assert(rest.take(head.len() as int) =~= head);
        assert(rest.skip(head.len() + 1int) =~= seq!['i', '='] + encoded);
        assert((seq!['i', '='] + encoded).skip(2) =~= encoded);
        percent::percent_round_trip(target.identity, path_literal());
    }
}

/// Two connections with the same key are the same connection: the machine, the
/// port, the user, the identity and the path are all part of the identity.
pub proof fn remote_keys_are_distinct(a: RemoteTargetView, b: RemoteTargetView)
    requires
        remote_key(a) == remote_key(b),
    ensures
        a == b,
{
    remote_key_round_trip(a);
    remote_key_round_trip(b);
}

/// A remote key is always recognised as one, and never is a local absolute
/// path: neither a rooted one nor one that begins with a drive letter.
pub proof fn remote_key_is_no_local_path(target: RemoteTargetView, local: Seq<char>)
    requires
        local.len() > 0 && local[0] == '/' || local.len() > 1 && local[1] == ':',
    ensures
        names_remote(remote_key(target)),
        !names_remote(local),
        remote_key(target) != local,
{
    let key = remote_key(target);
    assert(key.take(6) =~= remote_scheme());
    assert(key[0] == remote_scheme()[0]);
    assert(key[1] == remote_scheme()[1]);
    if names_remote(local) {
        assert(local[0] == remote_scheme()[0]);
        assert(local[1] == remote_scheme()[1]);
    }
}

/// `value` with each single quote replaced by `'\''`: close the quotes, an
/// escaped quote, open them again.
pub open spec fn requoted(value: Seq<char>) -> Seq<char>
    decreases value.len(),
{
    if value.len() == 0 {
        Seq::empty()
    } else if value.last() == '\'' {
        requoted(value.drop_last()) + seq!['\'', '\\', '\'', '\'']
    } else {
        requoted(value.drop_last()).push(value.last())
    }
}

/// `value` as one single-quoted shell word.
pub open spec fn quoted(value: Seq<char>) -> Seq<char> {
    seq!['\''] + requoted(value) + seq!['\'']
}

/// What a POSIX shell makes of the word at the start of `line`: quoted runs
/// contribute their contents, a backslash outside quotes contributes the
/// character behind it, and a blank or `;` outside quotes ends the word.
pub open spec fn shell_word(line: Seq<char>, in_quotes: bool) -> Seq<char>
    decreases line.len(),
{
    if line.len() == 0 {
        Seq::empty()
    } else if line[0] == '\'' {
        shell_word(line.skip(1), !in_quotes)
    } else if in_quotes {
        seq![line[0]] + shell_word(line.skip(1), true)
    } else if line[0] == '\\' {
        if line.len() == 1 {
            Seq::empty()
        } else {
            seq![line[1]] + shell_word(line.skip(2), false)
        }
    } else if line[0] == ' ' || line[0] == ';' {
        Seq::empty()
    } else {
        seq![line[0]] + shell_word(line.skip(1), false)
    }
}

/// Wrap `value` in single quotes for a shell command line.
///
/// Applied wherever a user-entered path reaches a shell or the interactive
/// `ssh` line: an unquoted space would split it into a second argument.
pub fn shell_quote(value: &str) -> (word: String)
    ensures
        word@ == quoted(value@),
{
    let chars = chars_of(value);
    let mut word = String::new();
    word.push('\'');
    let mut i: usize = 0;
    assert(word@ =~= seq!['\''] + requoted(value@.take(0)));
    while i < chars.len()
        invariant
            i <= chars@.len(),
            chars@ == value@,
            word@ == seq!['\''] + requoted(value@.take(i as int)),
        decreases chars@.len() - i,
    {
        assert(value@.take(i + 1).drop_last() =~= value@.take(i as int));
        if chars[i] == '\'' {
            word.push('\'');
            word.push('\\');
            word.push('\'');
            word.push('\'');
        } else {
            word.push(chars[i]);
        }
        i += 1;
        assert(word@ =~= seq!['\''] + requoted(value@.take(i as int)));
    }
    word.push('\'');
    assert(value@.take(i as int) =~= value@);
    assert(word@ =~= quoted(value@));
    word
}

proof fn lemma_requoted_word(value: Seq<char>, rest: Seq<char>)
    ensures
        shell_word(requoted(value) + rest, true) == value + shell_word(rest, true),
    decreases value.len(),
{
    if value.len() == 0 {
        assert(requoted(value) + rest =~= rest);
        assert(value + shell_word(rest, true) =~= shell_word(rest, true));
    } else {
        let init = value.drop_last();
        let last = value.last();
        let piece = if last == '\'' {
            seq!['\'', '\\', '\'', '\'']
        } else {
            seq![last]
        };
        let tail = piece + rest;
        assert(requoted(value) + rest =~= requoted(init) + tail);
        lemma_requoted_word(init, tail);
        assert(shell_word(tail, true) =~= seq![last] + shell_word(rest, true)) by {
            if last == '\'' {
                let inner = seq!['\\', '\'', '\''] + rest;
                let close = seq!['\''] + rest;
                assert(tail.skip(1) =~= inner);
                assert(inner.skip(2) =~= close);
                assert(close.skip(1) =~= rest);
                assert(shell_word(tail, true) == shell_word(inner, false));
                assert(shell_word(inner, false) == seq![inner[1]] + shell_word(close, false));
                assert(shell_word(close, false) == shell_word(rest, true));
            } else {
                assert(tail.skip(1) =~= rest);
            }
        }
        assert(value =~= init + seq![last]);
        assert(init + (seq![last] + shell_word(rest, true)) =~= value + shell_word(rest, true));
    }
}

/// A shell reads a quoted value back as exactly that value and as one word,
/// whatever characters it holds, when the line ends there or a blank or `;`
/// follows.
pub proof fn shell_quote_is_one_word(value: Seq<char>, rest: Seq<char>)
    requires
        rest.len() == 0 || rest[0] == ' ' || rest[0] == ';',
    ensures
        shell_word(quoted(value) + rest, false) == value,
{
    let line = quoted(value) + rest;
    let tail = seq!['\''] + rest;
    assert(line.skip(1) =~= requoted(value) + tail);
    lemma_requoted_word(value, tail);
    assert(tail.skip(1) =~= rest);
    assert(shell_word(rest, false) =~= Seq::<char>::empty());
    assert(value + Seq::<char>::empty() =~= value);
}

/// The last component of a slash-separated path that is not empty; empty when
/// there is none.
pub open spec fn path_leaf(path: Seq<char>) -> Seq<char>
    decreases path.len(),
{
    if path.len() == 0 {
        Seq::empty()
    } else if path.last() == '/' {
        path_leaf(path.drop_last())
    } else {
        path.skip(text::last_pos(path, '/') + 1)
    }
}

/// Where the last component of `chars[..end]` that is not empty stands; an
/// empty range when there is none.
fn leaf_range(chars: &Vec<char>, end: usize) -> (range: (usize, usize))
    requires
        end <= chars@.len(),
    ensures
        range.0 <= range.1 <= end,
        chars@.subrange(range.0 as int, range.1 as int) == path_leaf(chars@.take(end as int)),
        range.0 == range.1 ==> path_leaf(chars@.take(end as int)).len() == 0,
{
    let mut to: usize = end;
    while to > 0 && chars[to - 1] == '/'
        invariant
            to <= end <= chars@.len(),
            path_leaf(chars@.take(end as int)) == path_leaf(chars@.take(to as int)),
        decreases to,
    {
        assert(chars@.take(to as int).drop_last() =~= chars@.take(to - 1));
        to -= 1;
    }
    if to == 0 {
        assert(chars@.subrange(0, 0) =~= Seq::<char>::empty());
        return (0, 0);
    }
    assert(chars@.subrange(0, to as int) =~= chars@.take(to as int));
    proof {
        text::lemma_last_pos(chars@.take(to as int), '/');
    }
    let from: usize = match find_last(chars, 0, to, '/') {
        Some(slash) => slash + 1,
        None => 0,
    };
    assert(chars@.subrange(from as int, to as int) =~= chars@.take(to as int).skip(from as int));
    (from, to)
}

/// The name of the entry a path ends in. Components `.` do not count, and a
/// path that ends in `..`, or has no component at all, has no such name.
pub open spec fn file_name(path: Seq<char>) -> Option<Seq<char>>
    decreases path.len(),
{
    let leaf = path_leaf(path);
    if leaf.len() == 0 || leaf == seq!['.', '.'] {
        None
    } else if leaf == seq!['.'] {
        file_name(path.drop_last())
    } else {
        Some(leaf)
    }
}

impl RemoteTargetView {
    /// The last path component that is not empty, or the host when there is
    /// none.
    pub open spec fn display_name(self) -> Seq<char> {
        if path_leaf(self.remote_path).len() == 0 {
            self.server
        } else {
            path_leaf(self.remote_path)
        }
    }

    /// The `ssh` destination.
    pub open spec fn user_host(self) -> Seq<char> {
        self.user + seq!['@'] + self.server
    }
}

impl RemoteTarget {
    /// The registry key for this target.
    pub fn key(&self) -> (key: String)
        ensures
            key@ == remote_key(self@),
    {
        format_remote_key(
            self.server.as_str(),
            self.port,
            self.user.as_str(),
            self.identity.as_str(),
            self.remote_path.as_str(),
        )
    }

    /// Primary row label: the remote path's last component, or the host when
    /// the path has no leaf.
    pub fn display_name(&self) -> (name: String)
        ensures
            name@ == self@.display_name(),
    {
        let chars = chars_of(self.remote_path.as_str());
        let (from, to) = leaf_range(&chars, chars.len());
        assert(chars@.take(chars@.len() as int) =~= chars@);
        if from == to {
            self.server.clone()
        } else {
            string_of(&chars, from, to)
        }
    }

    /// Secondary row label naming the machine, and the `ssh` destination
    /// argument: the same string in both roles.
    pub fn user_host(&self) -> (destination: String)
        ensures
            destination@ == self@.user_host(),
    {
        let mut destination = self.user.clone();
        destination.push('@');
        destination.append(self.server.as_str());
        assert(destination@ =~= self@.user_host());
        destination
    }
}

/// The label of a local path: its file name, or the whole path when it has none.
pub open spec fn path_label(path: Seq<char>) -> Seq<char> {
    match file_name(path) {
        Some(name) => name,
        None => path,
    }
}

/// The label of any registry key.
pub open spec fn registry_label(key: Seq<char>) -> Seq<char> {
    match parsed_key(key) {
        Some(target) => target.display_name(),
        None => path_label(key),
    }
}

/// Basename used as the primary row label for a local entry. The path is
/// slash-separated.
pub fn display_name_for_path(path: &str) -> (label: String)
    ensures
        label@ == path_label(path@),
{
    let chars = chars_of(path);
    let mut end: usize = chars.len();
    assert(chars@.take(end as int) =~= path@);
    loop
        invariant
            end <= chars@.len(),
            chars@ == path@,
            file_name(path@) == file_name(chars@.take(end as int)),
        decreases end,
    {
        let (from, to) = leaf_range(&chars, end);
        let ghost here = chars@.take(end as int);
        let ghost leaf = path_leaf(here);
        assert(to - from == leaf.len());
        if from == to {
            return path.to_owned();
        }
        assert(leaf[0] == chars@[from as int]);
        if to - from == 2 && chars[from] == '.' && chars[from + 1] == '.' {
            assert(leaf[1] == chars@[from + 1]);
            assert(leaf =~= seq!['.', '.']);
            return path.to_owned();
        }
        if to - from == 1 && chars[from] == '.' {
            assert(leaf =~= seq!['.']);
            assert(here.drop_last() =~= chars@.take(end - 1));
            end -= 1;
        } else {
            return string_of(&chars, from, to);
        }
    }
}

/// Row and group label for any registry key, local path or remote key alike.
pub fn display_name_for_registry_path(path: &str) -> (label: String)
    ensures
        label@ == registry_label(path@),
{
    match parse_remote_key(path) {
        Some(target) => target.display_name(),
        None => display_name_for_path(path),
    }
}

/// Classify a registered path: a repository when `.git` exists in it as a file
/// or a directory (which covers linked worktrees), which is what `git_exists`
/// reports. `None` for a remote key: its kind comes from the SSH probe, and the
/// local filesystem would answer about the wrong machine.
pub fn classify_entry_kind(path: &str, git_exists: bool) -> (kind: Option<RepoEntryKind>)
    ensures
        kind == (if names_remote(path@) {
            None
        } else if git_exists {
            Some(RepoEntryKind::Repo)
        } else {
            Some(RepoEntryKind::Folder)
        }),
{
    if is_remote_key(path) {
        return None;
    }
    Some(
        if git_exists {
            RepoEntryKind::Repo
        } else {
            RepoEntryKind::Folder
        },
    )
}

/// True when a local path no longer exists on disk, which is what `exists`
/// reports. Always false for a remote key: its displayed state comes from the
/// last probe.
pub fn is_dead_path(path: &str, exists: bool) -> (dead: bool)
    ensures
        dead == (!names_remote(path@) && !exists),
{
    !is_remote_key(path) && !exists
}

/// Why a path has no canonical form.
#[derive(Clone, Copy, Debug, PartialEq, Eq, Structural)]
pub enum CanonicalizeError {
    /// The path is a remote registry key, which is stored verbatim.
    RemoteKey,
    /// The local filesystem could not resolve the path.
    Unresolved,
}

/// The canonical registry identity of `path`, where `resolved` is what the local
/// filesystem resolves it to (which removes trailing slashes and symbolic
/// links). An error for a remote key, whatever the filesystem says: it names a
/// directory on another machine.
pub fn canonicalize_repo_path(path: &str, resolved: Option<String>) -> (canonical: Result<
    String,
    CanonicalizeError,
>)
    ensures
        match canonical {
            Ok(found) => !names_remote(path@) && resolved == Some(found),
            Err(CanonicalizeError::RemoteKey) => names_remote(path@),
            Err(CanonicalizeError::Unresolved) => !names_remote(path@) && resolved is None,
        },
{
    if is_remote_key(path) {
        return Err(CanonicalizeError::RemoteKey);
    }
    match resolved {
        Some(found) => Ok(found),
        None => Err(CanonicalizeError::Unresolved),
    }
}

/// A registry entry identified by its canonical path.
#[derive(Debug, PartialEq, Eq)]
pub struct RepoEntry {
    pub path: String,
    pub display_name: String,
    pub kind: RepoEntryKind,
}

impl RepoEntry {
    /// The entry for `path`, given what the local filesystem resolves it to and
    /// whether `.git` exists there. Fails exactly when the path has no canonical
    /// form.
    pub fn from_path(path: &str, resolved: Option<String>, git_exists: bool) -> (entry: Result<
        RepoEntry,
        CanonicalizeError,
    >)
        ensures
            match entry {
                Ok(found) => !names_remote(path@) && resolved == Some(found.path)
                    && found.display_name@ == path_label(found.path@) && found.kind == (if git_exists
                    && !names_remote(found.path@) {
                    RepoEntryKind::Repo
                } else {
                    RepoEntryKind::Folder
                }),
                Err(CanonicalizeError::RemoteKey) => names_remote(path@),
                Err(CanonicalizeError::Unresolved) => !names_remote(path@) && resolved is None,
            },
    {
        match canonicalize_repo_path(path, resolved) {
            Ok(found) => {
                let display_name = display_name_for_path(found.as_str());
                let kind = match classify_entry_kind(found.as_str(), git_exists) {
                    Some(kind) => kind,
                    None => RepoEntryKind::Folder,
                };
                Ok(RepoEntry { path: found, display_name, kind })
            },
            Err(error) => Err(error),
        }
    }
}

/// A key names a remote entry exactly when it starts with `ssh://`.
pub proof fn remote_keys_start_with_the_scheme(key: Seq<char>)
    ensures
        names_remote(key) <==> key.len() >= 6 && key[0] == 's' && key[1] == 's' && key[2] == 'h'
            && key[3] == ':' && key[4] == '/' && key[5] == '/',
        parsed_key(key) is Some ==> names_remote(key),
{
    let scheme = remote_scheme();
    if key.len() >= 6 {
        assert(key.take(6) =~= key.subrange(0, 6));
        if key[0] == 's' && key[1] == 's' && key[2] == 'h' && key[3] == ':' && key[4] == '/'
            && key[5] == '/' {
            assert(scheme =~= key.subrange(0, 6));
        }
    }
}

/// The last name of a path is the run behind its last slash, slashes at the end
/// left out, and a path of slashes alone has none.
pub proof fn last_name_is_found(front: Seq<char>, name: Seq<char>, slashes: nat)
    requires
        front.len() == 0 || front.last() == '/',
        !name.contains('/'),
    ensures
        name.len() > 0 ==> path_leaf(front + name + Seq::new(slashes, |i: int| '/')) == name,
        path_leaf(Seq::new(slashes, |i: int| '/')).len() == 0,
    decreases slashes,
{
    let tail = Seq::new(slashes, |i: int| '/');
    let whole = front + name + tail;
    if slashes == 0 {
        assert(whole =~= front + name);
        if name.len() > 0 {
            assert(name.contains(name.last()));
            text::lemma_last_pos(whole, '/');
            let at = text::last_pos(whole, '/');
            if at >= front.len() {
                assert(name[at - front.len()] == '/');
            }
            if front.len() > 0 {
                assert(whole[front.len() - 1] == '/');
            }
            assert(at == front.len() - 1);
            assert(whole.skip(at + 1) =~= name);
        }
    } else {
        let fewer = Seq::new((slashes - 1) as nat, |i: int| '/');
        last_name_is_found(front, name, (slashes - 1) as nat);
        assert(whole.drop_last() =~= front + name + fewer);
        assert(tail.drop_last() =~= fewer);
        assert(whole.last() == '/');
        assert(tail.last() == '/');
    }
}

/// A local entry is labelled with the last name of its path: a dot at the end
/// is left out, and a path that ends in no name is its own label.
pub proof fn local_entries_are_labelled_by_name(front: Seq<char>, name: Seq<char>, slashes: nat)
    requires
        front.len() == 0 || front.last() == '/',
        name.len() > 0,
        !name.contains('/'),
        name != seq!['.'],
    ensures
        ({
            let path = front + name + Seq::new(slashes, |i: int| '/');
            path_label(path) == (if name == seq!['.', '.'] {
                path
            } else {
                name
            })
        }),
        path_label(Seq::new(slashes, |i: int| '/')) == Seq::new(slashes, |i: int| '/'),
{
    last_name_is_found(front, name, slashes);
    last_name_is_found(Seq::empty(), name, slashes);
}

/// A dot at the end of a path leaves its name as it is.
pub proof fn dots_leave_the_label(front: Seq<char>, name: Seq<char>)
    requires
        front.len() == 0 || front.last() == '/',
        name.len() > 0,
        !name.contains('/'),
        name != seq!['.'],
        name != seq!['.', '.'],
    ensures
        path_label(front + name + seq!['/', '.']) == name,
{
    let path = front + name + seq!['/', '.'];
    let above = front + name + seq!['/'];
    let dot = seq!['.'];
    last_name_is_found(front, name, 1);
    assert(above =~= front + name + Seq::new(1, |i: int| '/'));
    assert(!dot.contains('/')) by {
        if dot.contains('/') {
            let k = choose|k: int| 0 <= k < dot.len() && dot[k] == '/';
        }
    }
    last_name_is_found(above, dot, 0);
    assert(path =~= above + dot + Seq::new(0, |i: int| '/'));
    assert(path.drop_last() =~= above);
    assert(file_name(above) == Some(name));
}

/// A remote entry is labelled with the last name of its path, and with its
/// server where the path has none.
pub proof fn remote_entries_are_labelled_by_name(
    target: RemoteTargetView,
    front: Seq<char>,
    name: Seq<char>,
    slashes: nat,
)
    requires
        front.len() == 0 || front.last() == '/',
        name.len() > 0,
        !name.contains('/'),
        target.remote_path == front + name + Seq::new(slashes, |i: int| '/')
            || target.remote_path == Seq::new(slashes, |i: int| '/'),
    ensures
        target.remote_path == front + name + Seq::new(slashes, |i: int| '/') ==> registry_label(
            remote_key(target),
        ) == name,
        target.remote_path == Seq::new(slashes, |i: int| '/') ==> registry_label(remote_key(target))
            == target.server,
{
    last_name_is_found(front, name, slashes);
    remote_key_round_trip(target);
}

/// An entry whose key names no remote is labelled by its path.
pub proof fn other_entries_are_labelled_by_path(key: Seq<char>)
    requires
        !(key.len() >= 6 && key[0] == 's' && key[1] == 's' && key[2] == 'h' && key[3] == ':'
            && key[4] == '/' && key[5] == '/'),
    ensures
        registry_label(key) == path_label(key),
{
    remote_keys_start_with_the_scheme(key);
}

/// Whether every character of `text` can stand in a key as it is: letters,
/// digits, the marks `-`, `.`, `_` and `~`, and `also`.
pub open spec fn plain(text: Seq<char>, also: char) -> bool {
    forall|i: int|
        0 <= i < text.len() ==> {
            let ch = #[trigger] text[i];
            ||| 'a' <= ch <= 'z'
            ||| 'A' <= ch <= 'Z'
            ||| '0' <= ch <= '9'
            ||| ch == '-' || ch == '.' || ch == '_' || ch == '~' || ch == also
        }
}

/// A plain target is written as `ssh://user@server:port/path`, with the
/// identity, where there is one, behind `?i=`. A server with colons stands in
/// brackets.
pub proof fn plain_targets_are_written_plainly(target: RemoteTargetView)
    requires
        plain(target.user, '_'),
        plain(target.server, ':'),
        plain(target.remote_path, '/'),
        target.remote_path.len() > 0 && target.remote_path[0] == '/',
        plain(target.identity, '/'),
    ensures
        remote_key(target) == "ssh://"@ + target.user + "@"@ + (if target.server.contains(':') {
            "["@ + target.server + "]"@
        } else {
            target.server
        }) + ":"@ + text::decimal(target.port as nat) + target.remote_path + (
        if target.identity.len() == 0 {
            Seq::empty()
        } else {
            "?i="@ + target.identity
        }),
{
    reveal_strlit("ssh://");
    reveal_strlit("@");
    reveal_strlit("[");
    reveal_strlit("]");
    reveal_strlit(":");
    reveal_strlit("?i=");
    let none = Seq::<u8>::empty();
    assert(path_literal()[0] == 0x2f && host_literal()[0] == 0x3a);
    assert(path_literal().contains('/' as u8));
    assert(host_literal().contains(':' as u8));
    percent::plain_text_stays(target.user, none);
    percent::plain_text_stays(target.remote_path, path_literal());
    percent::plain_text_stays(target.identity, path_literal());
    if target.server.contains(':') {
        percent::plain_text_stays(target.server, host_literal());
    } else {
        assert forall|i: int| 0 <= i < target.server.len() implies #[trigger] target.server[i]
            != ':' by {
            assert(target.server.contains(target.server[i]));
        }
        percent::plain_text_stays(target.server, none);
    }
    percent::lemma_ascii_text(target.remote_path);
    let bytes = encode_utf8(target.remote_path);
    assert(bytes[0] == target.remote_path[0] as u8);
    assert("ssh://"@ =~= remote_scheme());
    assert(remote_key(target) =~= "ssh://"@ + target.user + "@"@ + (if target.server.contains(':') {
        "["@ + target.server + "]"@
    } else {
        target.server
    }) + ":"@ + text::decimal(target.port as nat) + target.remote_path + (
    if target.identity.len() == 0 {
        Seq::empty()
    } else {
        "?i="@ + target.identity
    }));
}

/// A key without a user part, or without a port behind its server, names no
/// target.
pub proof fn incomplete_keys_are_refused(authority: Seq<char>, rest: Seq<char>)
    requires
        !authority.contains('?'),
        !authority.contains('/'),
        !authority.contains('@') || (!authority.contains(':') && !authority.contains('[')),
        rest.len() == 0 || rest[0] == '/',
        !rest.contains('?'),
    ensures
        parsed_key("ssh://"@ + authority + rest) is None,
{
    reveal_strlit("ssh://");
    let key = "ssh://"@ + authority + rest;
    let all = authority + rest;
    assert(key.skip(6) =~= all);
    text::lemma_first_pos(all, 0, '?');
    let mark = text::first_pos(all, 0, '?');
    if mark < all.len() {
        if mark < authority.len() {
            assert(authority[mark] == '?');
        } else {
            assert(rest[mark - authority.len()] == '?');
        }
    }
    text::lemma_first_pos(all, 0, '/');
    let slash = text::first_pos(all, 0, '/');
    if slash < authority.len() {
        assert(authority[slash] == '/');
    }
    if rest.len() > 0 {
        assert(all[authority.len() as int] == '/');
    }
    assert(slash == authority.len());
    assert(all.take(slash) =~= authority);
    text::lemma_first_pos(authority, 0, '@');
    let at = text::first_pos(authority, 0, '@');
    if !authority.contains('@') {
        if at < authority.len() {
            assert(authority[at] == '@');
        }
    } else if at < authority.len() {
        let host = authority.skip(at + 1);
        text::lemma_last_pos(host, ':');
        let colon = text::last_pos(host, ':');
        if colon >= 0 {
            assert(authority[at + 1 + colon] == ':');
        }
        if host.len() > 0 && host[0] == '[' {
            assert(authority[at + 1] == '[');
        }
    }
}

} // verus!
