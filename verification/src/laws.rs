//! What holds of every buffer: the laws of statement splitting.

use vstd::prelude::*;
use crate::mode::{
    initial, Quote, CLOSE_PAREN, DOLLAR, DOUBLE_QUOTE, HASH, OPEN_PAREN, SEMICOLON, SINGLE_QUOTE,
};
use crate::scan::{
    is_comment, is_terminator, lemma_statement_end_bounds, lemma_statement_end_depends_on_prefix,
    lemma_statement_end_is_first, mode_at, statement_end, statements, statements_from,
};
use crate::trim::{is_whitespace, lemma_trim_bounds, lemma_trim_is_idempotent, trim};

verus! {

/// The quoted region that byte `c` opens when read outside quotes.
pub open spec fn quote_of(c: u8) -> Quote {
    if c == SINGLE_QUOTE {
        Quote::Single
    } else if c == DOUBLE_QUOTE {
        Quote::Double
    } else {
        Quote::Unquoted
    }
}

/// Byte `i` is a quote character that opens a quoted region.
pub open spec fn opens_quote(bytes: Seq<u8>, i: int) -> bool {
    &&& 0 <= i < bytes.len()
    &&& bytes[i] == SINGLE_QUOTE || bytes[i] == DOUBLE_QUOTE
    &&& !mode_at(bytes, i).escape_pending
    &&& mode_at(bytes, i).quote == Quote::Unquoted
}

/// From the quote at `open` up to and including the next quote of the same
/// kind, the scanner stays inside that quoted region.
proof fn lemma_inside_quotes(bytes: Seq<u8>, open: int, i: int)
    requires
        opens_quote(bytes, open),
        open < i <= bytes.len(),
        forall|k: int| open < k < i ==> bytes[k] != bytes[open],
    ensures
        mode_at(bytes, i).quote == quote_of(bytes[open]),
        !mode_at(bytes, i).escape_pending,
    decreases i - open,
{
    if i > open + 1 {
        lemma_inside_quotes(bytes, open, i - 1);
    }
}

/// Quotes are opaque: no byte strictly inside a matched pair of quotes
/// ends a statement, whatever it is and whatever quotes of the other kind
/// stand around it inside the pair.
pub proof fn lemma_quoted_bytes_never_split(bytes: Seq<u8>, open: int, close: int, i: int)
    requires
        opens_quote(bytes, open),
        open < i < close < bytes.len(),
        bytes[close] == bytes[open],
        forall|k: int| open < k < close ==> bytes[k] != bytes[open],
    ensures
        !is_terminator(bytes, i),
        !is_comment(bytes, i),
        forall|from: int| statement_end(bytes, from) != i,
{
    lemma_inside_quotes(bytes, open, i);
    assert forall|from: int| statement_end(bytes, from) != i by {
        lemma_statement_end_bounds(bytes, from);
    }
}

/// Substitutions are opaque: no byte read while a `$(` is still open ends
/// a statement.
pub proof fn lemma_nested_bytes_never_split(bytes: Seq<u8>, i: int)
    requires
        0 <= i < bytes.len(),
        mode_at(bytes, i).depth > 0,
    ensures
        !is_terminator(bytes, i),
        !is_comment(bytes, i),
        forall|from: int| statement_end(bytes, from) != i,
{
    assert forall|from: int| statement_end(bytes, from) != i by {
        lemma_statement_end_bounds(bytes, from);
    }
}

/// A substitution stays open until a `)` closes it: only that byte lowers
/// the depth, and by one.
pub proof fn lemma_only_close_paren_lowers_depth(bytes: Seq<u8>, i: int)
    requires
        0 <= i < bytes.len(),
    ensures
        mode_at(bytes, i + 1).depth >= mode_at(bytes, i).depth - 1,
        mode_at(bytes, i + 1).depth < mode_at(bytes, i).depth ==> bytes[i] == CLOSE_PAREN,
{
}

/// A substitution that is never closed swallows the rest of the buffer:
/// with a `$(` open at `from` and no `)` after it, the statement runs to
/// the end.
pub proof fn lemma_unclosed_substitution_runs_to_end(bytes: Seq<u8>, from: int)
    requires
        0 <= from <= bytes.len(),
        mode_at(bytes, from).depth > 0,
        forall|k: int| from <= k < bytes.len() ==> bytes[k] != CLOSE_PAREN,
    ensures
        statement_end(bytes, from) == bytes.len(),
    decreases bytes.len() - from,
{
    if from < bytes.len() {
        lemma_unclosed_substitution_runs_to_end(bytes, from + 1);
    }
}

/// A comment ends the output: the call that meets one yields exactly one
/// statement, the text before the `#`, and nothing follows it.
pub proof fn lemma_comment_ends_output(bytes: Seq<u8>, from: int)
    requires
        0 <= from <= bytes.len(),
        is_comment(bytes, statement_end(bytes, from)),
    ensures
        statements_from(bytes, from) == seq![
            trim(bytes.subrange(from, statement_end(bytes, from))),
        ],
{
}

/// What stands behind the `#` of a comment, a `;` included, has no part in
/// the output: two buffers that are the same up to and including that `#`
/// have the same statements.
pub proof fn lemma_text_after_comment_is_discarded(bytes: Seq<u8>, other: Seq<u8>, from: int)
    requires
        0 <= from <= bytes.len(),
        is_comment(bytes, statement_end(bytes, from)),
        statement_end(bytes, from) < other.len(),
        forall|k: int| 0 <= k <= statement_end(bytes, from) ==> bytes[k] == other[k],
    ensures
        statements_from(other, from) == statements_from(bytes, from),
{
    let end = statement_end(bytes, from);
    lemma_statement_end_bounds(bytes, from);
    lemma_statement_end_depends_on_prefix(bytes, other, from);
    assert(other.subrange(from, end) =~= bytes.subrange(from, end));
}

/// Whitespace read in the initial mode leaves the scanner in it.
proof fn lemma_whitespace_keeps_initial(bytes: Seq<u8>, from: int, to: int)
    requires
        0 <= from <= to <= bytes.len(),
        mode_at(bytes, from) == initial(),
        forall|k: int| from <= k < to ==> is_whitespace(#[trigger] bytes[k]),
    ensures
        mode_at(bytes, to) == initial(),
    decreases to - from,
{
    if from < to {
        lemma_whitespace_keeps_initial(bytes, from, to - 1);
        assert(is_whitespace(bytes[to - 1]));
    }
}

/// A part of the buffer that begins where the scanner is in its initial
/// mode is scanned on its own as it is scanned in place.
proof fn lemma_mode_of_part(bytes: Seq<u8>, lo: int, hi: int, k: int)
    requires
        0 <= lo <= hi <= bytes.len(),
        mode_at(bytes, lo) == initial(),
        0 <= k <= hi - lo,
    ensures
        mode_at(bytes.subrange(lo, hi), k) == mode_at(bytes, lo + k),
    decreases k,
{
    if k > 0 {
        lemma_mode_of_part(bytes, lo, hi, k - 1);
        assert(bytes.subrange(lo, hi)[k - 1] == bytes[lo + k - 1]);
    }
}

/// Where no byte ends a statement, the statement runs to the end.
proof fn lemma_runs_to_end(bytes: Seq<u8>, from: int)
    requires
        0 <= from <= bytes.len(),
        forall|k: int|
            from <= k < bytes.len() ==> !is_terminator(bytes, k) && !is_comment(bytes, k),
    ensures
        statement_end(bytes, from) == bytes.len(),
    decreases bytes.len() - from,
{
    if from < bytes.len() {
        lemma_runs_to_end(bytes, from + 1);
    }
}

/// The statement read at `from`, where the scanner is in its initial mode,
/// is a single statement when scanned on its own.
proof fn lemma_statement_rescans_to_itself(bytes: Seq<u8>, from: int)
    requires
        0 <= from <= bytes.len(),
        mode_at(bytes, from) == initial(),
        trim(bytes.subrange(from, statement_end(bytes, from))).len() > 0,
    ensures
        statements(trim(bytes.subrange(from, statement_end(bytes, from)))) == seq![
            trim(bytes.subrange(from, statement_end(bytes, from))),
        ],
{
    let end = statement_end(bytes, from);
    lemma_statement_end_bounds(bytes, from);
    let piece = bytes.subrange(from, end);
    let (lo, hi) = lemma_trim_bounds(piece);
    let kept = trim(piece);
    assert(kept =~= bytes.subrange(from + lo, from + hi));
    assert forall|k: int| from <= k < from + lo implies is_whitespace(#[trigger] bytes[k]) by {
        assert(piece[k - from] == bytes[k]);
    }
    lemma_whitespace_keeps_initial(bytes, from, from + lo);
    assert forall|k: int| 0 <= k < kept.len() implies !is_terminator(kept, k) && !is_comment(
        kept,
        k,
    ) by {
        lemma_mode_of_part(bytes, from + lo, from + hi, k);
        lemma_statement_end_is_first(bytes, from, from + lo + k);
    }
    lemma_runs_to_end(kept, 0);
    assert(kept.subrange(0, kept.len() as int) =~= kept);
    lemma_trim_is_idempotent(piece);
}

/// Every statement begins in the initial mode: right after a terminator
/// no quote is open, no substitution is open and nothing is pending.
pub proof fn lemma_statement_begins_in_initial_mode(bytes: Seq<u8>, i: int)
    requires
        is_terminator(bytes, i),
    ensures
        mode_at(bytes, i + 1) == initial(),
{
}

/// Each statement that is not empty is a single statement when scanned on
/// its own.
proof fn lemma_each_statement_rescans_to_itself(bytes: Seq<u8>, from: int, n: int)
    requires
        0 <= from <= bytes.len(),
        mode_at(bytes, from) == initial(),
        0 <= n < statements_from(bytes, from).len(),
        statements_from(bytes, from)[n].len() > 0,
    ensures
        statements(statements_from(bytes, from)[n]) == seq![statements_from(bytes, from)[n]],
    decreases n,
{
    let end = statement_end(bytes, from);
    lemma_statement_end_bounds(bytes, from);
    if n == 0 {
        lemma_statement_rescans_to_itself(bytes, from);
    } else {
        assert(is_terminator(bytes, end));
        lemma_statement_begins_in_initial_mode(bytes, end);
        assert(statements_from(bytes, from)[n] == statements_from(bytes, end + 1)[n - 1]);
        lemma_each_statement_rescans_to_itself(bytes, end + 1, n - 1);
    }
}

/// Splitting a statement again changes nothing: a statement of any buffer,
/// unless it is empty, is itself a buffer with exactly one statement, and
/// that statement is the whole of it. (An empty statement is an empty
/// buffer, which has no statement at all.)
pub proof fn lemma_statement_splits_into_itself(bytes: Seq<u8>, n: int)
    requires
        0 <= n < statements(bytes).len(),
        statements(bytes)[n].len() > 0,
    ensures
        statements(statements(bytes)[n]) == seq![statements(bytes)[n]],
{
    lemma_each_statement_rescans_to_itself(bytes, 0, n);
}

/// The index of the first `c` in `s`, or the length of `s` when `c` does
/// not occur.
pub open spec fn index_of(s: Seq<u8>, c: u8) -> int
    decreases s.len(),
{
    if s.len() == 0 || s[0] == c {
        0
    } else {
        1 + index_of(s.drop_first(), c)
    }
}

/// The pieces of `s` between the occurrences of `c`: one more than there
/// are occurrences, empty pieces included.
pub open spec fn split_on(s: Seq<u8>, c: u8) -> Seq<Seq<u8>>
    decreases s.len(),
{
    let first = index_of(s, c);
    if 0 <= first < s.len() {
        seq![s.subrange(0, first)] + split_on(s.subrange(first + 1, s.len() as int), c)
    } else {
        seq![s]
    }
}

/// Each piece without the whitespace at its ends.
pub open spec fn trim_each(pieces: Seq<Seq<u8>>) -> Seq<Seq<u8>> {
    Seq::new(pieces.len(), |k: int| trim(pieces[k]))
}

/// A buffer without quotes, without `#` and without `$(`.
pub open spec fn is_plain(bytes: Seq<u8>) -> bool {
    &&& forall|k: int|
        0 <= k < bytes.len() ==> {
            &&& #[trigger] bytes[k] != SINGLE_QUOTE
            &&& bytes[k] != DOUBLE_QUOTE
            &&& bytes[k] != HASH
        }
    &&& forall|k: int|
        0 <= k && k + 1 < bytes.len() ==> !(#[trigger] bytes[k] == DOLLAR && bytes[k + 1]
            == OPEN_PAREN)
}

/// No `;` of the buffer follows a backslash that escapes it.
pub open spec fn no_escaped_semicolon(bytes: Seq<u8>) -> bool {
    forall|k: int|
        0 <= k < bytes.len() && #[trigger] bytes[k] == SEMICOLON ==> !mode_at(
            bytes,
            k,
        ).escape_pending
}

/// In a plain buffer the scanner never enters a quote or a substitution.
proof fn lemma_plain_mode(bytes: Seq<u8>, i: int)
    requires
        is_plain(bytes),
        0 <= i <= bytes.len(),
    ensures
        mode_at(bytes, i).quote == Quote::Unquoted,
        mode_at(bytes, i).depth == 0,
        mode_at(bytes, i).dollar_pending ==> i > 0 && bytes[i - 1] == DOLLAR,
    decreases i,
{
    if i > 0 {
        lemma_plain_mode(bytes, i - 1);
        let before = mode_at(bytes, i - 1);
        let c = bytes[i - 1];
        assert(c != SINGLE_QUOTE && c != DOUBLE_QUOTE);
        if c == OPEN_PAREN && before.dollar_pending {
            assert(bytes[i - 2] == DOLLAR && bytes[i - 2 + 1] == OPEN_PAREN);
        }
    }
}

/// In a plain buffer whose `;` are not escaped, a statement ends at the
/// next `;`.
proof fn lemma_plain_statement_end(bytes: Seq<u8>, from: int)
    requires
        is_plain(bytes),
        no_escaped_semicolon(bytes),
        0 <= from <= bytes.len(),
    ensures
        statement_end(bytes, from) == from + index_of(
            bytes.subrange(from, bytes.len() as int),
            SEMICOLON,
        ),
        statement_end(bytes, from) < bytes.len() ==> is_terminator(
            bytes,
            statement_end(bytes, from),
        ),
    decreases bytes.len() - from,
{
    let len = bytes.len() as int;
    let tail = bytes.subrange(from, len);
    if from < len {
        lemma_plain_mode(bytes, from);
        assert(tail[0] == bytes[from]);
        assert(bytes[from] != HASH);
        if bytes[from] == SEMICOLON {
            assert(is_terminator(bytes, from));
        } else {
            lemma_plain_statement_end(bytes, from + 1);
            assert(tail.drop_first() =~= bytes.subrange(from + 1, len));
        }
    }
}

/// Trimming each piece of a sequence trims its first piece and each of the
/// others.
proof fn lemma_trim_each_unfolds(first: Seq<u8>, rest: Seq<Seq<u8>>)
    ensures
        trim_each(seq![first] + rest) == seq![trim(first)] + trim_each(rest),
        trim_each(seq![first]) == seq![trim(first)],
{
    assert(trim_each(seq![first] + rest) =~= seq![trim(first)] + trim_each(rest));
    assert(trim_each(seq![first]) =~= seq![trim(first)]);
}

/// The pieces of the rest of a buffer, given where its first `c` stands.
proof fn lemma_split_on_unfolds(bytes: Seq<u8>, from: int, end: int, c: u8)
    requires
        0 <= from <= end <= bytes.len(),
        end == from + index_of(bytes.subrange(from, bytes.len() as int), c),
    ensures
        end < bytes.len() ==> split_on(bytes.subrange(from, bytes.len() as int), c) == seq![
            bytes.subrange(from, end),
        ] + split_on(bytes.subrange(end + 1, bytes.len() as int), c),
        end == bytes.len() ==> split_on(bytes.subrange(from, bytes.len() as int), c) == seq![
            bytes.subrange(from, end),
        ],
{
    let len = bytes.len() as int;
    let tail = bytes.subrange(from, len);
    let first = end - from;
    if end < len {
        assert(tail.subrange(first + 1, tail.len() as int) =~= bytes.subrange(end + 1, len));
        assert(tail.subrange(0, first) =~= bytes.subrange(from, end));
    }
}

/// In a plain buffer whose `;` are not escaped, the statements from `from`
/// on are the trimmed pieces of the rest of the buffer.
proof fn lemma_plain_statements_from(bytes: Seq<u8>, from: int)
    requires
        is_plain(bytes),
        no_escaped_semicolon(bytes),
        0 <= from <= bytes.len(),
    ensures
        statements_from(bytes, from) == trim_each(
            split_on(bytes.subrange(from, bytes.len() as int), SEMICOLON),
        ),
    decreases bytes.len() - from,
{
    let len = bytes.len() as int;
    let end = statement_end(bytes, from);
    lemma_plain_statement_end(bytes, from);
    lemma_statement_end_bounds(bytes, from);
    lemma_split_on_unfolds(bytes, from, end, SEMICOLON);
    if end < len {
        lemma_plain_statements_from(bytes, end + 1);
        lemma_trim_each_unfolds(
            bytes.subrange(from, end),
            split_on(bytes.subrange(end + 1, len), SEMICOLON),
        );
    } else {
        lemma_trim_each_unfolds(bytes.subrange(from, end), Seq::empty());
    }
}

/// On a buffer without quotes, `#` and `$(`, the statements are what comes
/// of cutting the buffer at every `;` and trimming each piece.
///
/// Two kinds of buffer are left out. The empty one has no statement, where
/// cutting gives one empty piece. And a `;` behind an escaping backslash
/// ends no statement, where cutting would cut there too.
pub proof fn lemma_plain_buffer_splits_at_every_semicolon(bytes: Seq<u8>)
    requires
        is_plain(bytes),
        bytes.len() > 0,
        no_escaped_semicolon(bytes),
    ensures
        statements(bytes) == trim_each(split_on(bytes, SEMICOLON)),
{
    lemma_plain_statements_from(bytes, 0);
    assert(bytes.subrange(0, bytes.len() as int) =~= bytes);
}

} // verus!
