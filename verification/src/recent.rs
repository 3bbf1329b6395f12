//! The list of recently opened files, newest first.

use vstd::prelude::*;
use crate::pending::strings_view;
use crate::file_url::{str_trim, string_from_utf8_lossy, trimmed};
use vstd::utf8::{
    decode_utf8, encode_scalar, encode_utf8, encode_utf8_decode_utf8, encode_utf8_valid_utf8,
    last_continuation_byte, leading_byte_width_1, is_char_boundary_iff_not_is_continuation_byte,
    pop_first_scalar, valid_utf8, valid_utf8_split,
};

verus! {

/// How many recently opened files are remembered.
pub const RECENT_LIMIT: usize = 12;

/// Whether two paths, given as strings, compare equal as `std::path::Path`s.
pub uninterp spec fn same_path(a: Seq<char>, b: Seq<char>) -> bool;

/// `Path::eq` on two paths given as strings. Paths compare equal when their
/// components do, so `a//b` and `a/b` are the same path. Claimed here: the
/// result is `same_path` of the two strings, and identical strings are the
/// same path; how components are split is left unsaid.
#[verifier::external_body]
fn paths_equal(a: &str, b: &str) -> (r: bool)
    ensures
        r == same_path(a@, b@),
        a@ == b@ ==> r,
{
    std::path::Path::new(a) == std::path::Path::new(b)
}

/// The entries of `list` that are not the same path as `path`, in their order.
pub open spec fn without_path(list: Seq<Seq<char>>, path: Seq<char>) -> Seq<Seq<char>>
    decreases list.len(),
{
    if list.len() == 0 {
        Seq::empty()
    } else {
        let rest = without_path(list.drop_last(), path);
        if same_path(list.last(), path) {
            rest
        } else {
            rest.push(list.last())
        }
    }
}

/// The list after opening `path`: `path` in front, earlier entries for the
/// same path dropped, at most `RECENT_LIMIT` entries.
pub open spec fn recent_after_push(list: Seq<Seq<char>>, path: Seq<char>) -> Seq<Seq<char>> {
    let l = seq![path] + without_path(list, path);
    if l.len() > RECENT_LIMIT { l.take(RECENT_LIMIT as int) } else { l }
}

/// Puts `path` in front of the recently opened files, drops older entries
/// for the same path, and keeps at most `RECENT_LIMIT` entries.
pub fn push_recent(recent: &mut Vec<String>, path: &str)
    ensures
        strings_view(final(recent)@) == recent_after_push(strings_view(old(recent)@), path@),
        forall|i: int| 1 <= i < final(recent)@.len() ==> final(recent)@[i]@ != path@,
{
    let n = recent.len();
    let mut kept: Vec<String> = Vec::new();
    let mut i: usize = 0;
    while i < n
        invariant
            n == recent@.len(),
            i <= n,
            strings_view(kept@) == without_path(strings_view(recent@.take(i as int)), path@),
            forall|j: int| 0 <= j < kept@.len() ==> kept@[j]@ != path@,
        decreases n - i,
    {
        let same = paths_equal(recent[i].as_str(), path);
        let ghost before = strings_view(recent@.take(i as int));
        proof {
            assert(strings_view(recent@.take(i as int + 1)).drop_last() =~= before);
        }
        if !same {
            let entry = recent[i].clone();
            kept.push(entry);
            proof {
                assert(strings_view(kept@) =~= without_path(
                    strings_view(recent@.take(i as int + 1)),
                    path@,
                ));
            }
        }
        i = i + 1;
    }
    proof {
        assert(recent@.take(n as int) =~= recent@);
    }
    let ghost filtered = strings_view(kept@);
    kept.insert(0, path.to_owned());
    proof {
        assert(strings_view(kept@) =~= seq![path@] + filtered);
    }
    kept.truncate(RECENT_LIMIT);
    proof {
        assert(strings_view(kept@) =~= recent_after_push(strings_view(recent@), path@));
    }
    *recent = kept;
}

proof fn lemma_without_path_members(list: Seq<Seq<char>>, path: Seq<char>)
    ensures
        without_path(list, path).len() <= list.len(),
        forall|i: int|
            0 <= i < without_path(list, path).len() ==> !same_path(
                #[trigger] without_path(list, path)[i],
                path,
            ) && list.contains(without_path(list, path)[i]),
    decreases list.len(),
{
    if list.len() > 0 {
        let init = list.drop_last();
        lemma_without_path_members(init, path);
        let rest = without_path(init, path);
        assert forall|i: int| 0 <= i < without_path(list, path).len() implies !same_path(
            #[trigger] without_path(list, path)[i],
            path,
        ) && list.contains(without_path(list, path)[i]) by {
            if i < rest.len() {
                let k = choose|k: int| 0 <= k < init.len() && init[k] == rest[i];
                assert(list[k] == rest[i]);
            } else {
                assert(list[list.len() - 1] == list.last());
            }
        }
    }
}

/// After opening a file it heads the list, no other entry is the same path,
/// every other entry was in the list before, and the list holds at most
/// `RECENT_LIMIT` entries.
pub proof fn lemma_recent_after_push(list: Seq<Seq<char>>, path: Seq<char>)
    ensures
        recent_after_push(list, path).len() >= 1,
        recent_after_push(list, path)[0] == path,
        recent_after_push(list, path).len() <= RECENT_LIMIT,
        forall|i: int|
            1 <= i < recent_after_push(list, path).len() ==> !same_path(
                #[trigger] recent_after_push(list, path)[i],
                path,
            ) && list.contains(recent_after_push(list, path)[i]),
{
    lemma_without_path_members(list, path);
    let w = without_path(list, path);
    let r = recent_after_push(list, path);
    assert forall|i: int| 1 <= i < r.len() implies !same_path(#[trigger] r[i], path)
        && list.contains(r[i]) by {
        assert(r[i] == w[i - 1]);
    }
}


/// Whether an entry is not the same path as `path`.
pub open spec fn other_than(path: Seq<char>) -> spec_fn(Seq<char>) -> bool {
    |e: Seq<char>| !same_path(e, path)
}

proof fn lemma_without_path_is_filter(list: Seq<Seq<char>>, path: Seq<char>)
    ensures
        without_path(list, path) == list.filter(other_than(path)),
    decreases list.len(),
{
    reveal(Seq::filter);
    if list.len() > 0 {
        lemma_without_path_is_filter(list.drop_last(), path);
    } else {
        assert(list.filter(other_than(path)) =~= Seq::<Seq<char>>::empty());
    }
}

/// Opening `path` puts it first and keeps, after it and in their old order,
/// every earlier entry that is not the same path, as many as fit within
/// `RECENT_LIMIT`: the list is full whenever enough other entries exist.
pub proof fn lemma_recent_push_keeps_others(list: Seq<Seq<char>>, path: Seq<char>)
    ensures
        ({
            let others = list.filter(other_than(path));
            let r = recent_after_push(list, path);
            &&& r.len() == (if others.len() + 1 <= RECENT_LIMIT { others.len() + 1 } else { RECENT_LIMIT as nat })
            &&& r[0] == path
            &&& forall|i: int| 1 <= i < r.len() ==> #[trigger] r[i] == others[i - 1]
        }),
{
    lemma_without_path_is_filter(list, path);
}

// ---------------------------------------------------------------------------
// The saved list: one path per line
// ---------------------------------------------------------------------------

/// The index of the first `\n` at or after `start`, or the length when there is none.
pub open spec fn line_end(b: Seq<u8>, start: int) -> int
    decreases b.len() - start,
{
    if start < 0 || start >= b.len() {
        b.len() as int
    } else if b[start] == 10 {
        start
    } else {
        line_end(b, start + 1)
    }
}

/// The end of a line lies between its start and the end of the text; no
/// `\n` comes before it, and one stands at it unless it is the end of the text.
pub proof fn lemma_line_end_bounds(b: Seq<u8>, start: int)
    requires
        0 <= start <= b.len(),
    ensures
        start <= line_end(b, start) <= b.len(),
        forall|i: int| start <= i < line_end(b, start) ==> b[i] != 10,
        line_end(b, start) < b.len() ==> b[line_end(b, start)] == 10,
    decreases b.len() - start,
{
    if start < b.len() && b[start] != 10 {
        lemma_line_end_bounds(b, start + 1);
    }
}

/// A line without the `\r` that ends it, if one does.
pub open spec fn strip_cr(line: Seq<u8>) -> Seq<u8> {
    if line.len() > 0 && line.last() == 13 {
        line.drop_last()
    } else {
        line
    }
}

/// The lines of `b` from index `start` on, split as `str::lines` splits
/// them: at each `\n`, a `\r` right before the `\n` dropped; text after the
/// last `\n` is a line of its own (kept as it is) unless it is empty.
pub open spec fn lines_from(b: Seq<u8>, start: int) -> Seq<Seq<u8>>
    decreases b.len() + 1 - start,
    via lines_from_decreases
{
    if start < 0 || start >= b.len() {
        Seq::empty()
    } else {
        let end = line_end(b, start);
        let raw = b.subrange(start, end);
        let line = if end < b.len() { strip_cr(raw) } else { raw };
        seq![line] + lines_from(b, end + 1)
    }
}

#[via_fn]
proof fn lines_from_decreases(b: Seq<u8>, start: int) {
    if 0 <= start < b.len() {
        lemma_line_end_bounds(b, start);
    }
}

/// The lines of a text given as bytes.
pub open spec fn text_lines(b: Seq<u8>) -> Seq<Seq<u8>> {
    lines_from(b, 0)
}

/// The entries read back from a list of lines: each line decoded from UTF-8,
/// lines that are empty after trimming whitespace skipped.
pub open spec fn recent_entries(lines: Seq<Seq<u8>>) -> Seq<Seq<char>>
    decreases lines.len(),
{
    if lines.len() == 0 {
        Seq::empty()
    } else {
        let first = decode_utf8(lines[0]);
        let rest = recent_entries(lines.drop_first());
        if trimmed(first).len() == 0 {
            rest
        } else {
            seq![first] + rest
        }
    }
}

/// Splitting valid UTF-8 around an ASCII byte leaves valid UTF-8 on both sides.
proof fn lemma_split_at_ascii(s: Seq<u8>, i: int)
    requires
        valid_utf8(s),
        0 <= i < s.len(),
        s[i] < 0x80,
    ensures
        valid_utf8(s.subrange(0, i)),
        valid_utf8(s.subrange(i + 1, s.len() as int)),
{
    is_char_boundary_iff_not_is_continuation_byte(s, i);
    valid_utf8_split(s, i);
    let t = s.subrange(i, s.len() as int);
    assert(pop_first_scalar(t) =~= s.subrange(i + 1, s.len() as int));
}

/// The paths stored in the text of the saved list, one per non-blank line.
pub fn parse_recent(body: &str) -> (r: Vec<String>)
    ensures
        strings_view(r@) == recent_entries(text_lines(encode_utf8(body@))),
{
    let b = body.as_bytes();
    let n = b.len();
    let mut out: Vec<String> = Vec::new();
    let mut start: usize = 0;
    proof {
        assert(strings_view(out@) + recent_entries(lines_from(b@, 0)) =~= recent_entries(
            lines_from(b@, 0),
        ));
        encode_utf8_valid_utf8(body@);
        assert(b@.subrange(0, n as int) =~= b@);
    }
    while start < n
        invariant
            n == b@.len(),
            start <= n,
            valid_utf8(b@.subrange(start as int, n as int)),
            recent_entries(lines_from(b@, 0)) == strings_view(out@) + recent_entries(
                lines_from(b@, start as int),
            ),
        decreases n - start,
    {
        let mut end: usize = start;
        while end < n && b[end] != 10
            invariant
                n == b@.len(),
                start <= end <= n,
                line_end(b@, start as int) == line_end(b@, end as int),
            decreases n - end,
        {
            end = end + 1;
        }
        let mut stop: usize = end;
        if end < n && stop > start && b[stop - 1] == 13 {
            stop = stop - 1;
        }
        let mut line_bytes: Vec<u8> = Vec::new();
        let mut i: usize = start;
        while i < stop
            invariant
                n == b@.len(),
                start <= i <= stop <= n,
                line_bytes@ == b@.subrange(start as int, i as int),
            decreases stop - i,
        {
            line_bytes.push(b[i]);
            i = i + 1;
            proof {
                assert(line_bytes@ =~= b@.subrange(start as int, i as int));
            }
        }
        let ghost lines = lines_from(b@, start as int);
        proof {
            lemma_line_end_bounds(b@, start as int);
            let raw = b@.subrange(start as int, end as int);
            let rest = b@.subrange(start as int, n as int);
            if end < n {
                assert(line_bytes@ =~= strip_cr(raw));
                lemma_split_at_ascii(rest, end - start);
                assert(rest.subrange(0, end - start) =~= raw);
                assert(rest.subrange(end - start + 1, rest.len() as int) =~= b@.subrange(
                    end + 1,
                    n as int,
                ));
                if stop < end {
                    lemma_split_at_ascii(raw, raw.len() - 1);
                    assert(raw.subrange(0, raw.len() - 1) =~= line_bytes@);
                }
            } else {
                assert(line_bytes@ =~= raw);
                assert(rest =~= raw);
            }
            assert(lines.drop_first() =~= lines_from(b@, end + 1));
        }
        let line = string_from_utf8_lossy(line_bytes.as_slice());
        let blank = str_trim(line.as_str()).is_empty();
        let ghost before = strings_view(out@);
        if !blank {
            out.push(line);
            proof {
                assert(strings_view(out@) =~= before.push(decode_utf8(lines[0])));
                assert(before.push(decode_utf8(lines[0])) + recent_entries(lines.drop_first())
                    =~= before + recent_entries(lines));
            }
        }
        if end < n {
            start = end + 1;
        } else {
            proof {
                assert(lines_from(b@, end + 1) =~= lines_from(b@, n as int));
                assert(b@.subrange(n as int, n as int) =~= Seq::<u8>::empty());
            }
            start = n;
        }
    }
    proof {
        assert(strings_view(out@) + Seq::<Seq<char>>::empty() =~= strings_view(out@));
    }
    out
}

/// The entries joined into one text, separated by `\n`.
pub open spec fn joined_lines(list: Seq<Seq<char>>) -> Seq<char>
    decreases list.len(),
{
    if list.len() == 0 {
        Seq::empty()
    } else if list.len() == 1 {
        list[0]
    } else {
        list[0] + seq!['\n'] + joined_lines(list.drop_first())
    }
}

proof fn lemma_joined_push(list: Seq<Seq<char>>, x: Seq<char>)
    requires
        list.len() > 0,
    ensures
        joined_lines(list.push(x)) == joined_lines(list) + seq!['\n'] + x,
    decreases list.len(),
{
    let l = list.push(x);
    if list.len() == 1 {
        assert(l.drop_first() =~= seq![x]);
        assert(joined_lines(seq![x]) == x);
    } else {
        lemma_joined_push(list.drop_first(), x);
        assert(l.drop_first() =~= list.drop_first().push(x));
    }
}

/// The text of the saved list: the paths, one per line.
pub fn format_recent(recent: &Vec<String>) -> (r: String)
    ensures
        r@ == joined_lines(strings_view(recent@)),
{
    let mut body = String::new();
    let n = recent.len();
    let mut i: usize = 0;
    proof {
        assert(strings_view(recent@.take(0)) =~= Seq::<Seq<char>>::empty());
    }
    while i < n
        invariant
            n == recent@.len(),
            i <= n,
            body@ == joined_lines(strings_view(recent@.take(i as int))),
        decreases n - i,
    {
        let ghost prefix = strings_view(recent@.take(i as int));
        proof {
            assert(strings_view(recent@.take(i as int + 1)) =~= prefix.push(recent@[i as int]@));
        }
        if i > 0 {
            proof {
                reveal_strlit("\n");
                lemma_joined_push(prefix, recent@[i as int]@);
            }
            body.append("\n");
        } else {
            proof {
                assert(prefix.push(recent@[i as int]@) =~= seq![recent@[i as int]@]);
            }
        }
        body.append(recent[i].as_str());
        i = i + 1;
    }
    proof {
        assert(recent@.take(n as int) =~= recent@);
    }
    body
}


// ---------------------------------------------------------------------------
// Reading back what was saved
// ---------------------------------------------------------------------------

/// Byte lines joined with `\n` between them.
pub open spec fn joined_byte_lines(list: Seq<Seq<u8>>) -> Seq<u8>
    decreases list.len(),
{
    if list.len() == 0 {
        Seq::empty()
    } else if list.len() == 1 {
        list[0]
    } else {
        list[0] + seq![10u8] + joined_byte_lines(list.drop_first())
    }
}

/// An entry that survives saving and reading back: not empty, no line break
/// in it, not ending in a carriage return, and not only whitespace.
pub open spec fn saveable_entry(e: Seq<char>) -> bool {
    &&& e.len() > 0
    &&& !e.contains('\n')
    &&& e.last() != '\r'
    &&& trimmed(e).len() > 0
}

proof fn lemma_encode_concat(x: Seq<char>, y: Seq<char>)
    ensures
        encode_utf8(x + y) == encode_utf8(x) + encode_utf8(y),
    decreases x.len(),
{
    if x.len() == 0 {
        assert(x + y =~= y);
        assert(encode_utf8(x) + encode_utf8(y) =~= encode_utf8(y));
    } else {
        assert((x + y).drop_first() =~= x.drop_first() + y);
        assert((x + y)[0] == x[0]);
        lemma_encode_concat(x.drop_first(), y);
        assert(encode_scalar(x[0] as u32) + (encode_utf8(x.drop_first()) + encode_utf8(y))
            =~= (encode_scalar(x[0] as u32) + encode_utf8(x.drop_first())) + encode_utf8(y));
    }
}

proof fn lemma_encode_single(c: char)
    ensures
        encode_utf8(seq![c]) == encode_scalar(c as u32),
{
    let one = seq![c];
    assert(one.drop_first() =~= Seq::<char>::empty());
    assert(one[0] == c);
    assert(encode_utf8(one.drop_first()) =~= Seq::<u8>::empty());
    assert(encode_utf8(one) == encode_scalar(one[0] as u32) + encode_utf8(one.drop_first()));
    assert(encode_scalar(c as u32) + Seq::<u8>::empty() =~= encode_scalar(c as u32));
}

proof fn lemma_high_bytes(x: u8)
    by (bit_vector)
    ensures
        (0x80u8 | x) >= 0x80,
        (0xC0u8 | x) >= 0x80,
        (0xE0u8 | x) >= 0x80,
        (0xF0u8 | x) >= 0x80,
{
}

proof fn lemma_low_byte(c: u32)
    by (bit_vector)
    requires
        c <= 0x7F,
    ensures
        (c & 0x7F) as u8 == c,
{
}

/// The bytes of one character: an ASCII character is its own byte, any
/// other character is encoded in bytes of at least 0x80.
proof fn lemma_scalar_bytes(c: char)
    ensures
        encode_scalar(c as u32).len() > 0,
        forall|i: int|
            0 <= i < encode_scalar(c as u32).len() ==> (#[trigger] encode_scalar(c as u32)[i]
                == c as u32 && c as u32 <= 0x7F) || encode_scalar(c as u32)[i] >= 0x80,
        c as u32 > 0x7F ==> encode_scalar(c as u32).last() >= 0x80,
{
    let v = c as u32;
    if v <= 0x7F {
        lemma_low_byte(v);
    } else {
        lemma_high_bytes(((v >> 6) & 0x1F) as u8);
        lemma_high_bytes(((v >> 12) & 0x0F) as u8);
        lemma_high_bytes(((v >> 18) & 0x7) as u8);
        lemma_high_bytes((v & 0x3F) as u8);
        lemma_high_bytes(((v >> 6) & 0x3F) as u8);
        lemma_high_bytes(((v >> 12) & 0x3F) as u8);
    }
}

proof fn lemma_encode_without_newline(e: Seq<char>)
    requires
        !e.contains('\n'),
    ensures
        forall|i: int| 0 <= i < encode_utf8(e).len() ==> encode_utf8(e)[i] != 10,
    decreases e.len(),
{
    if e.len() > 0 {
        let rest = e.drop_first();
        assert(!rest.contains('\n')) by {
            if rest.contains('\n') {
                let k = choose|k: int| 0 <= k < rest.len() && rest[k] == '\n';
                assert(e[k + 1] == '\n');
            }
        }
        lemma_encode_without_newline(rest);
        lemma_scalar_bytes(e[0]);
        assert(e[0] != '\n');
        let head = encode_scalar(e[0] as u32);
        let all = encode_utf8(e);
        assert forall|i: int| 0 <= i < all.len() implies all[i] != 10 by {
            if i < head.len() {
                assert(all[i] == head[i]);
                if head[i] == e[0] as u32 {
                    vstd::utf8::char_u32_cast(e[0], e[0] as u32);
                    assert((10u32 as char) == '\n');
                }
            } else {
                assert(all[i] == encode_utf8(rest)[i - head.len()]);
            }
        }
    }
}

proof fn lemma_encode_last(e: Seq<char>)
    requires
        e.len() > 0,
        e.last() != '\r',
    ensures
        encode_utf8(e).len() > 0,
        encode_utf8(e).last() != 13,
{
    let init = e.drop_last();
    let c = e.last();
    assert(e =~= init + seq![c]);
    lemma_encode_concat(init, seq![c]);
    lemma_encode_single(c);
    lemma_scalar_bytes(c);
    let tail = encode_scalar(c as u32);
    assert(encode_utf8(e).last() == tail.last());
    if tail.last() == 13 {
        assert(tail[tail.len() - 1] == c as u32);
        vstd::utf8::char_u32_cast(c, c as u32);
        assert((13u32 as char) == '\r');
    }
}

proof fn lemma_encode_joined(list: Seq<Seq<char>>)
    ensures
        encode_utf8(joined_lines(list)) == joined_byte_lines(
            list.map_values(|e: Seq<char>| encode_utf8(e)),
        ),
    decreases list.len(),
{
    let enc = list.map_values(|e: Seq<char>| encode_utf8(e));
    if list.len() == 0 {
    } else if list.len() == 1 {
    } else {
        let rest = list.drop_first();
        lemma_encode_joined(rest);
        assert(enc.drop_first() =~= rest.map_values(|e: Seq<char>| encode_utf8(e)));
        lemma_encode_concat(list[0] + seq!['\n'], joined_lines(rest));
        lemma_encode_concat(list[0], seq!['\n']);
        lemma_encode_single('\n');
        lemma_low_byte(10);
        assert(encode_scalar('\n' as u32) =~= seq![10u8]);
    }
}

proof fn lemma_line_end_shift(p: Seq<u8>, q: Seq<u8>, k: int)
    requires
        0 <= k <= q.len(),
    ensures
        line_end(p + q, p.len() + k) == p.len() + line_end(q, k),
    decreases q.len() - k,
{
    if k < q.len() {
        assert((p + q)[p.len() + k] == q[k]);
        if q[k] != 10 {
            lemma_line_end_shift(p, q, k + 1);
        }
    }
}

proof fn lemma_lines_shift(p: Seq<u8>, q: Seq<u8>, k: int)
    requires
        0 <= k,
    ensures
        lines_from(p + q, p.len() + k) == lines_from(q, k),
    decreases q.len() + 1 - k,
{
    if k < q.len() {
        let b = p + q;
        lemma_line_end_shift(p, q, k);
        lemma_line_end_bounds(q, k);
        let end = line_end(q, k);
        assert(b.subrange(p.len() + k, p.len() + end) =~= q.subrange(k, end));
        lemma_lines_shift(p, q, end + 1);
    }
}

proof fn lemma_lines_of_joined(list: Seq<Seq<u8>>)
    requires
        forall|i: int|
            0 <= i < list.len() ==> (#[trigger] list[i]).len() > 0 && list[i].last() != 13
                && forall|j: int| 0 <= j < list[i].len() ==> list[i][j] != 10,
    ensures
        text_lines(joined_byte_lines(list)) == list,
    decreases list.len(),
{
    let b = joined_byte_lines(list);
    if list.len() == 0 {
        assert(text_lines(b) =~= list);
    } else {
        let first = list[0];
        lemma_line_end_bounds(b, 0);
        let end = line_end(b, 0);
        if list.len() == 1 {
            assert(b == first);
            if end < b.len() {
                assert(b[end] == 10);
            }
            assert(b.subrange(0, end) =~= first);
            assert(lines_from(b, end + 1) =~= Seq::<Seq<u8>>::empty());
            assert(text_lines(b) =~= list);
        } else {
            let rest = list.drop_first();
            let p = first + seq![10u8];
            assert(b =~= p + joined_byte_lines(rest));
            assert(b[first.len() as int] == 10);
            if end < first.len() {
                assert(b[end] == first[end]);
            }
            assert(end == first.len());
            assert(b.subrange(0, end) =~= first);
            assert(strip_cr(first) == first);
            lemma_lines_shift(p, joined_byte_lines(rest), 0);
            assert forall|i: int| 0 <= i < rest.len() implies (#[trigger] rest[i]).len() > 0
                && rest[i].last() != 13 && forall|j: int| 0 <= j < rest[i].len() ==> rest[i][j]
                != 10 by {
                assert(rest[i] == list[i + 1]);
            }
            lemma_lines_of_joined(rest);
            assert(text_lines(b) =~= seq![first] + rest);
            assert(seq![first] + rest =~= list);
        }
    }
}

proof fn lemma_entries_of_encoded(list: Seq<Seq<char>>)
    requires
        forall|i: int| 0 <= i < list.len() ==> saveable_entry(#[trigger] list[i]),
    ensures
        recent_entries(list.map_values(|e: Seq<char>| encode_utf8(e))) == list,
    decreases list.len(),
{
    let enc = list.map_values(|e: Seq<char>| encode_utf8(e));
    if list.len() > 0 {
        let rest = list.drop_first();
        assert(enc.drop_first() =~= rest.map_values(|e: Seq<char>| encode_utf8(e)));
        assert forall|i: int| 0 <= i < rest.len() implies saveable_entry(#[trigger] rest[i]) by {
            assert(rest[i] == list[i + 1]);
        }
        lemma_entries_of_encoded(rest);
        encode_utf8_decode_utf8(list[0]);
        assert(saveable_entry(list[0]));
        assert(seq![list[0]] + rest =~= list);
    } else {
        assert(recent_entries(enc) =~= list);
    }
}

/// Saving the recent list and reading it back gives the same list, as long
/// as every entry is a non-blank line without line breaks that does not end
/// in a carriage return.
pub proof fn lemma_recent_round_trip(list: Seq<Seq<char>>)
    requires
        forall|i: int| 0 <= i < list.len() ==> saveable_entry(#[trigger] list[i]),
    ensures
        recent_entries(text_lines(encode_utf8(joined_lines(list)))) == list,
{
    let enc = list.map_values(|e: Seq<char>| encode_utf8(e));
    lemma_encode_joined(list);
    assert forall|i: int| 0 <= i < enc.len() implies (#[trigger] enc[i]).len() > 0
        && enc[i].last() != 13 && forall|j: int| 0 <= j < enc[i].len() ==> enc[i][j] != 10 by {
        assert(saveable_entry(list[i]));
        lemma_encode_last(list[i]);
        lemma_encode_without_newline(list[i]);
    }
    lemma_lines_of_joined(enc);
    lemma_entries_of_encoded(list);
}

} // verus!
