//! Turning `file://` URLs, as the desktop hands them over, into file paths.

use vstd::prelude::*;
use vstd::utf8::{decode_utf8, encode_utf8, valid_utf8};

verus! {

/// The value of an ASCII hexadecimal digit (either case).
pub open spec fn hex_value(c: u8) -> Option<u8> {
    if 48 <= c <= 57 {
        Some((c - 48) as u8)
    } else if 97 <= c <= 102 {
        Some((c - 97 + 10) as u8)
    } else if 65 <= c <= 70 {
        Some((c - 65 + 10) as u8)
    } else {
        None
    }
}

/// The value of an ASCII hexadecimal digit, `None` for any other byte.
pub fn hex(c: u8) -> (r: Option<u8>)
    ensures
        r == hex_value(c),
{
    // '0'..='9', 'a'..='f', 'A'..='F'
    if 48 <= c && c <= 57 {
        Some(c - 48)
    } else if 97 <= c && c <= 102 {
        Some(c - 97 + 10)
    } else if 65 <= c && c <= 70 {
        Some(c - 65 + 10)
    } else {
        None
    }
}

/// Percent-decoding of a byte string: every `%` followed by two hexadecimal
/// digits (and not at the last two positions) becomes the byte they spell;
/// every other byte, a lone `%` included, is kept.
pub open spec fn percent_decoded(b: Seq<u8>) -> Seq<u8>
    decreases b.len(),
{
    if b.len() == 0 {
        Seq::empty()
    } else if b[0] == 37 && 2 < b.len() && hex_value(b[1]) is Some && hex_value(b[2]) is Some {
        seq![(hex_value(b[1])->0 * 16 + hex_value(b[2])->0) as u8] + percent_decoded(
            b.subrange(3, b.len() as int),
        )
    } else {
        seq![b[0]] + percent_decoded(b.subrange(1, b.len() as int))
    }
}

/// Decodes `%XX` escapes in a byte string.
pub fn percent_decode_bytes(b: &[u8]) -> (out: Vec<u8>)
    ensures
        out@ == percent_decoded(b@),
{
    let n = b.len();
    let mut out: Vec<u8> = Vec::new();
    let mut i: usize = 0;
    proof {
        assert(b@.subrange(0, n as int) =~= b@);
        assert(out@ + percent_decoded(b@) =~= percent_decoded(b@));
    }
    while i < n
        invariant
            n == b@.len(),
            i <= n,
            out@ + percent_decoded(b@.subrange(i as int, n as int)) == percent_decoded(b@),
        decreases n - i,
    {
        let ghost rest = b@.subrange(i as int, n as int);
        if b[i] == 37 && n - i > 2 {
            let h = hex(b[i + 1]);
            let l = hex(b[i + 2]);
            if let (Some(h), Some(l)) = (h, l) {
                proof {
                    assert(rest.subrange(3, rest.len() as int) =~= b@.subrange(i + 3, n as int));
                }
                out.push(h * 16 + l);
                i = i + 3;
                proof {
                    assert(out@ + percent_decoded(b@.subrange(i as int, n as int)) =~= percent_decoded(
                        b@,
                    ));
                }
                continue;
            }
        }
        proof {
            assert(rest.subrange(1, rest.len() as int) =~= b@.subrange(i + 1, n as int));
        }
        out.push(b[i]);
        i = i + 1;
        proof {
            assert(out@ + percent_decoded(b@.subrange(i as int, n as int)) =~= percent_decoded(b@));
        }
    }
    proof {
        assert(b@.subrange(n as int, n as int) =~= Seq::<u8>::empty());
        assert(out@ + Seq::<u8>::empty() =~= out@);
    }
    out
}

/// What `String::from_utf8_lossy` makes of a byte string.
pub uninterp spec fn utf8_lossy(bytes: Seq<u8>) -> Seq<char>;

/// `String::from_utf8_lossy` followed by `into_owned`: the bytes read as
/// UTF-8, with every invalid sequence replaced by U+FFFD. Claimed here: the
/// result is `utf8_lossy` of the bytes, and valid UTF-8 is decoded unchanged.
#[verifier::external_body]
pub(crate) fn string_from_utf8_lossy(bytes: &[u8]) -> (r: String)
    ensures
        r@ == utf8_lossy(bytes@),
        valid_utf8(bytes@) ==> r@ == decode_utf8(bytes@),
{
    String::from_utf8_lossy(bytes).into_owned()
}

/// Decodes `%XX` escapes in a string; bytes that no longer form UTF-8 are
/// replaced by U+FFFD, and decoded bytes that do form UTF-8 are read as such.
pub fn percent_decode(s: &str) -> (r: String)
    ensures
        r@ == utf8_lossy(percent_decoded(encode_utf8(s@))),
        valid_utf8(percent_decoded(encode_utf8(s@))) ==> r@ == decode_utf8(
            percent_decoded(encode_utf8(s@)),
        ),
{
    let bytes = s.as_bytes();
    let decoded = percent_decode_bytes(bytes);
    string_from_utf8_lossy(decoded.as_slice())
}

/// Whether `c` has the Unicode White_Space property, as `char::is_whitespace` tests it.
pub open spec fn is_white_space(c: char) -> bool {
    let v = c as u32;
    ||| 0x9 <= v <= 0xD
    ||| v == 0x20
    ||| v == 0x85
    ||| v == 0xA0
    ||| v == 0x1680
    ||| 0x2000 <= v <= 0x200A
    ||| v == 0x2028
    ||| v == 0x2029
    ||| v == 0x202F
    ||| v == 0x205F
    ||| v == 0x3000
}

/// `s` without its leading whitespace.
pub open spec fn trim_start(s: Seq<char>) -> Seq<char>
    decreases s.len(),
{
    if s.len() > 0 && is_white_space(s[0]) {
        trim_start(s.drop_first())
    } else {
        s
    }
}

/// `s` without its trailing whitespace.
pub open spec fn trim_end(s: Seq<char>) -> Seq<char>
    decreases s.len(),
{
    if s.len() > 0 && is_white_space(s.last()) {
        trim_end(s.drop_last())
    } else {
        s
    }
}

/// `s` without leading and trailing whitespace.
pub open spec fn trimmed(s: Seq<char>) -> Seq<char> {
    trim_end(trim_start(s))
}

/// `str::trim`: the string without leading and trailing characters for
/// which `char::is_whitespace` holds (the Unicode White_Space property).
/// Claimed here: the result is `trimmed` of the input.
#[verifier::external_body]
pub(crate) fn str_trim(s: &str) -> (r: &str)
    ensures
        r@ == trimmed(s@),
{
    s.trim()
}

/// The bytes of `file://`.
pub open spec fn file_url_prefix() -> Seq<u8> {
    seq![102u8, 105u8, 108u8, 101u8, 58u8, 47u8, 47u8]
}

/// The first index at or after `from` that holds a `/`.
pub open spec fn first_slash(s: Seq<u8>, from: int) -> Option<int>
    decreases s.len() - from,
{
    if from < 0 || from >= s.len() {
        None
    } else if s[from] == 47 {
        Some(from)
    } else {
        first_slash(s, from + 1)
    }
}

/// The path part of a `file://` URL: what follows the scheme, from the first
/// `/` on (a host name such as `localhost` before it is dropped); `None` when
/// the bytes do not start with `file://`.
pub open spec fn url_path_part(b: Seq<u8>) -> Option<Seq<u8>> {
    if b.len() >= 7 && b.subrange(0, 7) == file_url_prefix() {
        let rest = b.subrange(7, b.len() as int);
        match first_slash(rest, 0) {
            Some(i) => Some(rest.subrange(i, rest.len() as int)),
            None => Some(rest),
        }
    } else {
        None
    }
}

/// The still-escaped path part of a `file://` URL given as bytes.
pub fn file_url_path_part(b: &[u8]) -> (r: Option<Vec<u8>>)
    ensures
        r is Some <==> url_path_part(b@) is Some,
        r matches Some(p) ==> p@ == url_path_part(b@)->0,
{
    let n = b.len();
    if n < 7 {
        return None;
    }
    // "file://"
    let prefix: [u8; 7] = [102, 105, 108, 101, 58, 47, 47];
    let mut k: usize = 0;
    while k < 7
        invariant
            n == b@.len(),
            7 <= n,
            k <= 7,
            prefix@ == file_url_prefix(),
            forall|j: int| 0 <= j < k ==> b@[j] == file_url_prefix()[j],
        decreases 7 - k,
    {
        if b[k] != prefix[k] {
            proof {
                assert(b@.subrange(0, 7)[k as int] != file_url_prefix()[k as int]);
            }
            return None;
        }
        k = k + 1;
    }
    proof {
        assert(b@.subrange(0, 7) =~= file_url_prefix());
    }
    let ghost rest = b@.subrange(7, n as int);
    let mut start: usize = 7;
    while start < n && b[start] != 47
        invariant
            n == b@.len(),
            7 <= start <= n,
            rest == b@.subrange(7, n as int),
            first_slash(rest, 0) == first_slash(rest, start - 7),
        decreases n - start,
    {
        start = start + 1;
    }
    let from: usize = if start < n { start } else { 7 };
    let mut out: Vec<u8> = Vec::new();
    let mut i: usize = from;
    while i < n
        invariant
            n == b@.len(),
            7 <= from <= i <= n,
            out@ == b@.subrange(from as int, i as int),
        decreases n - i,
    {
        out.push(b[i]);
        i = i + 1;
        proof {
            assert(out@ =~= b@.subrange(from as int, i as int));
        }
    }
    proof {
        if start < n {
            assert(rest.subrange(start - 7, rest.len() as int) =~= b@.subrange(from as int, n as int));
        } else {
            assert(first_slash(rest, start - 7) is None);
            assert(rest =~= b@.subrange(from as int, n as int));
        }
    }
    Some(out)
}

/// The file path that a `file://` URL names: the URL is trimmed, the host
/// part dropped and the escapes decoded; `None` when it is no `file://` URL.
pub fn file_url_to_path(s: &str) -> (r: Option<String>)
    ensures
        r is Some <==> url_path_part(encode_utf8(trimmed(s@))) is Some,
        r matches Some(p) ==> p@ == utf8_lossy(
            percent_decoded(url_path_part(encode_utf8(trimmed(s@)))->0),
        ),
        r matches Some(p) ==> (valid_utf8(
            percent_decoded(url_path_part(encode_utf8(trimmed(s@)))->0),
        ) ==> p@ == decode_utf8(percent_decoded(url_path_part(encode_utf8(trimmed(s@)))->0))),
{
    let t = str_trim(s);
    let bytes = t.as_bytes();
    match file_url_path_part(bytes) {
        Some(part) => {
            let decoded = percent_decode_bytes(part.as_slice());
            Some(string_from_utf8_lossy(decoded.as_slice()))
        },
        None => None,
    }
}


/// Decoding never makes a byte string longer, and leaves a string without
/// `%` exactly as it was.
pub proof fn lemma_percent_decoded_shape(b: Seq<u8>)
    ensures
        percent_decoded(b).len() <= b.len(),
        (forall|i: int| 0 <= i < b.len() ==> b[i] != 37) ==> percent_decoded(b) == b,
    decreases b.len(),
{
    if b.len() > 0 {
        let escaped = b[0] == 37 && 2 < b.len() && hex_value(b[1]) is Some && hex_value(b[2]) is Some;
        if escaped {
            lemma_percent_decoded_shape(b.subrange(3, b.len() as int));
        } else {
            let rest = b.subrange(1, b.len() as int);
            lemma_percent_decoded_shape(rest);
            if forall|i: int| 0 <= i < b.len() ==> b[i] != 37 {
                assert forall|i: int| 0 <= i < rest.len() implies rest[i] != 37 by {
                    assert(rest[i] == b[i + 1]);
                }
                assert(seq![b[0]] + rest =~= b);
            }
        }
    }
}

/// An escape of a byte `x` as `%` and two upper-case hexadecimal digits.
pub open spec fn escaped_byte(x: u8) -> Seq<u8> {
    let digit = |d: int| if d < 10 { (48 + d) as u8 } else { (55 + d) as u8 };
    seq![37u8, digit(x as int / 16), digit(x as int % 16)]
}

/// An escaped byte decodes to itself, whatever follows it.
pub proof fn lemma_escape_decodes(x: u8, rest: Seq<u8>)
    ensures
        percent_decoded(escaped_byte(x) + rest) == seq![x] + percent_decoded(rest),
{
    let e = escaped_byte(x) + rest;
    assert(e.subrange(3, e.len() as int) =~= rest);
    assert((x as int / 16) * 16 + x as int % 16 == x as int);
}


/// Whether an escape (`%` and two hexadecimal digits, not at the last two
/// positions) starts at index `i` of `b`.
pub open spec fn escape_at(b: Seq<u8>, i: int) -> bool {
    &&& 0 <= i
    &&& i + 2 < b.len()
    &&& b[i] == 37
    &&& hex_value(b[i + 1]) is Some
    &&& hex_value(b[i + 2]) is Some
}

/// A byte string in which no escape starts is decoded to itself.
pub proof fn lemma_no_escape_unchanged(b: Seq<u8>)
    requires
        forall|i: int| 0 <= i < b.len() ==> !escape_at(b, i),
    ensures
        percent_decoded(b) == b,
    decreases b.len(),
{
    if b.len() > 0 {
        assert(!escape_at(b, 0));
        let rest = b.subrange(1, b.len() as int);
        assert forall|i: int| 0 <= i < rest.len() implies !escape_at(rest, i) by {
            assert(!escape_at(b, i + 1));
            assert(rest[i] == b[i + 1]);
            if i + 1 < rest.len() {
                assert(rest[i + 1] == b[i + 2]);
            }
            if i + 2 < rest.len() {
                assert(rest[i + 2] == b[i + 3]);
            }
        }
        lemma_no_escape_unchanged(rest);
        assert(seq![b[0]] + rest =~= b);
    }
}

/// A string whose UTF-8 bytes hold no escape is decoded to itself: its
/// decoded bytes are valid UTF-8 and read back as the same string.
pub proof fn lemma_no_escape_string_unchanged(s: Seq<char>)
    requires
        forall|i: int| 0 <= i < encode_utf8(s).len() ==> !escape_at(encode_utf8(s), i),
    ensures
        valid_utf8(percent_decoded(encode_utf8(s))),
        decode_utf8(percent_decoded(encode_utf8(s))) == s,
{
    lemma_no_escape_unchanged(encode_utf8(s));
    vstd::utf8::encode_utf8_valid_utf8(s);
    vstd::utf8::encode_utf8_decode_utf8(s);
}

} // verus!
