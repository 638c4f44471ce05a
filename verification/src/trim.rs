//! Trimming ASCII whitespace from both ends of a byte sequence.

use vstd::prelude::*;
use vstd::string::*;
use vstd::utf8::*;

verus! {

/// The ASCII whitespace bytes: space, tab, line feed, vertical tab, form
/// feed and carriage return.
pub open spec fn is_whitespace(c: u8) -> bool {
    c == 0x20 || (0x09 <= c && c <= 0x0d)
}

/// `s` without its leading whitespace.
pub open spec fn trim_start(s: Seq<u8>) -> Seq<u8>
    decreases s.len(),
{
    if s.len() > 0 && is_whitespace(s[0]) {
        trim_start(s.drop_first())
    } else {
        s
    }
}

/// `s` without its trailing whitespace.
pub open spec fn trim_end(s: Seq<u8>) -> Seq<u8>
    decreases s.len(),
{
    if s.len() > 0 && is_whitespace(s.last()) {
        trim_end(s.drop_last())
    } else {
        s
    }
}

/// `s` without its leading and trailing whitespace.
pub open spec fn trim(s: Seq<u8>) -> Seq<u8> {
    trim_end(trim_start(s))
}

/// Whitespace at the front does not change what `trim_start` gives.
pub proof fn lemma_trim_start_skips(s: Seq<u8>, n: int)
    requires
        0 <= n <= s.len(),
        forall|k: int| 0 <= k < n ==> is_whitespace(#[trigger] s[k]),
    ensures
        trim_start(s) == trim_start(s.subrange(n, s.len() as int)),
    decreases n,
{
    if n == 0 {
        assert(s.subrange(0, s.len() as int) =~= s);
    } else {
        let rest = s.drop_first();
        assert(is_whitespace(s[0]));
        assert forall|k: int| 0 <= k < n - 1 implies is_whitespace(#[trigger] rest[k]) by {
            assert(rest[k] == s[k + 1]);
        }
        lemma_trim_start_skips(rest, n - 1);
        assert(rest.subrange(n - 1, rest.len() as int) =~= s.subrange(n, s.len() as int));
    }
}

/// Whitespace at the back does not change what `trim_end` gives.
pub proof fn lemma_trim_end_skips(s: Seq<u8>, n: int)
    requires
        0 <= n <= s.len(),
        forall|k: int| n <= k < s.len() ==> is_whitespace(#[trigger] s[k]),
    ensures
        trim_end(s) == trim_end(s.subrange(0, n)),
    decreases s.len() - n,
{
    if n == s.len() {
        assert(s.subrange(0, n) =~= s);
    } else {
        let rest = s.drop_last();
        assert(is_whitespace(s.last()));
        lemma_trim_end_skips(rest, n);
        assert(rest.subrange(0, n) =~= s.subrange(0, n));
    }
}

/// What `trim` gives, said without recursion: the one range of `s` that has
/// only whitespace before it and after it and, unless it is empty, neither
/// begins nor ends with whitespace.
pub proof fn lemma_trim_is_subrange(s: Seq<u8>, lo: int, hi: int)
    requires
        0 <= lo <= hi <= s.len(),
        forall|k: int| 0 <= k < lo ==> is_whitespace(#[trigger] s[k]),
        forall|k: int| hi <= k < s.len() ==> is_whitespace(#[trigger] s[k]),
        lo < hi ==> !is_whitespace(s[lo]) && !is_whitespace(s[hi - 1]),
    ensures
        trim(s) == s.subrange(lo, hi),
{
    let len = s.len() as int;
    if lo < hi {
        let tail = s.subrange(lo, len);
        lemma_trim_start_skips(s, lo);
        assert(trim_start(tail) == tail);
        lemma_trim_end_skips(tail, hi - lo);
        let mid = tail.subrange(0, hi - lo);
        assert(mid =~= s.subrange(lo, hi));
        assert(trim_end(mid) == mid);
    } else {
        assert forall|k: int| 0 <= k < len implies is_whitespace(#[trigger] s[k]) by {
            if k < lo {
            } else {
            }
        }
        lemma_trim_start_skips(s, len);
        assert(s.subrange(len, len) =~= Seq::<u8>::empty());
        assert(s.subrange(lo, hi) =~= Seq::<u8>::empty());
    }
}

/// The range of `s` that `trim` keeps: its two ends, with what
/// `lemma_trim_is_subrange` asks of them.
pub proof fn lemma_trim_bounds(s: Seq<u8>) -> (ends: (int, int))
    ensures
        0 <= ends.0 <= ends.1 <= s.len(),
        forall|k: int| 0 <= k < ends.0 ==> is_whitespace(#[trigger] s[k]),
        forall|k: int| ends.1 <= k < s.len() ==> is_whitespace(#[trigger] s[k]),
        ends.0 < ends.1 ==> !is_whitespace(s[ends.0]) && !is_whitespace(s[ends.1 - 1]),
        trim(s) == s.subrange(ends.0, ends.1),
{
    let lo = lemma_trim_start_bounds(s);
    let tail = s.subrange(lo, s.len() as int);
    let kept = lemma_trim_end_bounds(tail);
    let hi = lo + kept;
    assert forall|k: int| hi <= k < s.len() implies is_whitespace(#[trigger] s[k]) by {
        assert(tail[k - lo] == s[k]);
    }
    if lo < hi {
        assert(tail[kept - 1] == s[hi - 1]);
    }
    assert(tail.subrange(0, kept) =~= s.subrange(lo, hi));
    (lo, hi)
}

/// How many bytes `trim_start` drops.
proof fn lemma_trim_start_bounds(s: Seq<u8>) -> (lo: int)
    ensures
        0 <= lo <= s.len(),
        forall|k: int| 0 <= k < lo ==> is_whitespace(#[trigger] s[k]),
        lo < s.len() ==> !is_whitespace(s[lo]),
        trim_start(s) == s.subrange(lo, s.len() as int),
    decreases s.len(),
{
    if s.len() > 0 && is_whitespace(s[0]) {
        let rest = s.drop_first();
        let inner = lemma_trim_start_bounds(rest);
        assert forall|k: int| 0 <= k < inner + 1 implies is_whitespace(#[trigger] s[k]) by {
            if k > 0 {
                assert(rest[k - 1] == s[k]);
            }
        }
        assert(rest.subrange(inner, rest.len() as int) =~= s.subrange(inner + 1, s.len() as int));
        inner + 1
    } else {
        assert(s.subrange(0, s.len() as int) =~= s);
        0
    }
}

/// How many bytes `trim_end` keeps. Nothing in front of them is dropped,
/// and a first byte that is no whitespace stays.
proof fn lemma_trim_end_bounds(s: Seq<u8>) -> (hi: int)
    ensures
        0 <= hi <= s.len(),
        forall|k: int| hi <= k < s.len() ==> is_whitespace(#[trigger] s[k]),
        0 < hi ==> !is_whitespace(s[hi - 1]),
        trim_end(s) == s.subrange(0, hi),
    decreases s.len(),
{
    if s.len() > 0 && is_whitespace(s.last()) {
        let rest = s.drop_last();
        let inner = lemma_trim_end_bounds(rest);
        assert forall|k: int| inner <= k < s.len() implies is_whitespace(#[trigger] s[k]) by {
            if k < rest.len() {
                assert(rest[k] == s[k]);
            }
        }
        assert(rest.subrange(0, inner) =~= s.subrange(0, inner));
        inner
    } else {
        assert(s.subrange(0, s.len() as int) =~= s);
        s.len() as int
    }
}

/// Trimming what is already trimmed changes nothing.
pub proof fn lemma_trim_is_idempotent(s: Seq<u8>)
    ensures
        trim(trim(s)) == trim(s),
{
    let (lo, hi) = lemma_trim_bounds(s);
    let kept = s.subrange(lo, hi);
    lemma_trim_is_subrange(kept, 0, kept.len() as int);
    assert(kept.subrange(0, kept.len() as int) =~= kept);
}

/// In valid UTF-8 a character begins right after every ASCII byte.
pub proof fn lemma_boundary_after_ascii(bytes: Seq<u8>, i: int)
    requires
        valid_utf8(bytes),
        0 <= i < bytes.len(),
        bytes[i] < 0x80,
    ensures
        is_char_boundary(bytes, i + 1),
{
    let len = bytes.len() as int;
    if i + 1 == len {
        is_char_boundary_start_end_of_seq(bytes);
    } else {
        is_char_boundary_iff_not_is_continuation_byte(bytes, i);
        valid_utf8_split(bytes, i);
        let tail = bytes.subrange(i, len);
        assert(tail[0] == bytes[i]);
        assert(tail[1] == bytes[i + 1]);
        assert(length_of_first_scalar(tail) == 1);
        assert(valid_utf8(pop_first_scalar(tail)));
        assert(is_char_boundary(tail, 1)) by {
            reveal_with_fuel(is_char_boundary, 2);
        }
        is_char_boundary_iff_not_is_continuation_byte(tail, 1);
        is_char_boundary_iff_not_is_continuation_byte(bytes, i + 1);
    }
}

/// A character boundary of a string is one of each prefix that reaches it.
pub proof fn lemma_boundary_in_prefix(bytes: Seq<u8>, from: int, to: int)
    requires
        valid_utf8(bytes),
        0 <= from <= to <= bytes.len(),
        is_char_boundary(bytes, from),
        is_char_boundary(bytes, to),
    ensures
        valid_utf8(bytes.subrange(0, to)),
        is_char_boundary(bytes.subrange(0, to), from),
{
    let head = bytes.subrange(0, to);
    valid_utf8_split(bytes, to);
    if from == to {
        is_char_boundary_start_end_of_seq(head);
    } else {
        is_char_boundary_iff_not_is_continuation_byte(bytes, from);
        is_char_boundary_iff_not_is_continuation_byte(head, from);
    }
}

/// True for the bytes that `trim` removes.
pub fn is_whitespace_byte(c: u8) -> (b: bool)
    ensures
        b == is_whitespace(c),
{
    c == 0x20 || (0x09 <= c && c <= 0x0d)
}

/// The part of `data` between two character boundaries.
fn slice<'a>(data: &'a str, from: usize, to: usize) -> (part: &'a str)
    requires
        from <= to <= data.spec_bytes().len(),
        is_char_boundary(data.spec_bytes(), from as int),
        is_char_boundary(data.spec_bytes(), to as int),
    ensures
        part.spec_bytes() == data.spec_bytes().subrange(from as int, to as int),
{
    proof {
        encode_utf8_valid_utf8(data@);
        lemma_boundary_in_prefix(data.spec_bytes(), from as int, to as int);
    }
    let (head, _) = data.split_at(to);
    let (_, part) = head.split_at(from);
    assert(head.spec_bytes().subrange(from as int, to as int) =~= data.spec_bytes().subrange(
        from as int,
        to as int,
    ));
    part
}

/// The part of `data` between two character boundaries, without the
/// whitespace at its ends.
pub(crate) fn trimmed_slice<'a>(data: &'a str, from: usize, to: usize) -> (part: &'a str)
    requires
        from <= to <= data.spec_bytes().len(),
        is_char_boundary(data.spec_bytes(), from as int),
        is_char_boundary(data.spec_bytes(), to as int),
    ensures
        part.spec_bytes() == trim(data.spec_bytes().subrange(from as int, to as int)),
{
    let bytes = data.as_bytes();
    let ghost all = data.spec_bytes();
    let ghost piece = all.subrange(from as int, to as int);
    proof {
        encode_utf8_valid_utf8(data@);
    }
    let mut lo: usize = from;
    while lo < to && is_whitespace_byte(bytes[lo])
        invariant
            from <= lo <= to <= all.len(),
            bytes@ == all,
            valid_utf8(all),
            is_char_boundary(all, lo as int),
            forall|k: int| from <= k < lo ==> is_whitespace(#[trigger] all[k]),
        decreases to - lo,
    {
        proof {
            lemma_boundary_after_ascii(all, lo as int);
        }
        lo += 1;
    }
    let mut hi: usize = to;
    while lo < hi && is_whitespace_byte(bytes[hi - 1])
        invariant
            from <= lo <= hi <= to <= all.len(),
            bytes@ == all,
            valid_utf8(all),
            is_char_boundary(all, hi as int),
            forall|k: int| hi <= k < to ==> is_whitespace(#[trigger] all[k]),
        decreases hi - lo,
    {
        proof {
            is_char_boundary_iff_not_is_continuation_byte(all, hi - 1);
        }
        hi -= 1;
    }
    proof {
        assert forall|k: int| 0 <= k < lo - from implies is_whitespace(#[trigger] piece[k]) by {
            assert(piece[k] == all[from + k]);
        }
        assert forall|k: int| hi - from <= k < piece.len() implies is_whitespace(
            #[trigger] piece[k],
        ) by {
            assert(piece[k] == all[from + k]);
        }
        lemma_trim_is_subrange(piece, lo - from, hi - from);
        assert(piece.subrange(lo - from, hi - from) =~= all.subrange(lo as int, hi as int));
    }
    slice(data, lo, hi)
}

} // verus!
