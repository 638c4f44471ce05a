//! Where the statements of a buffer begin and end.
//!
//! Everything here is a statement about a sequence of bytes: which mode the
//! scanner is in before each byte, which bytes end a statement, and the
//! sequence of statements that follows from that.

use vstd::prelude::*;
use crate::mode::{at_top_level, initial, step, Mode, HASH, SEMICOLON};
use crate::trim::trim;

verus! {

/// The mode in force just before byte `i`, after the bytes `0 .. i` have
/// been read from the start of the buffer.
pub open spec fn mode_at(bytes: Seq<u8>, i: int) -> Mode
    decreases i,
{
    if i <= 0 {
        initial()
    } else {
        step(mode_at(bytes, i - 1), bytes[i - 1])
    }
}

/// Byte `i` is a `;` that ends a statement.
pub open spec fn is_terminator(bytes: Seq<u8>, i: int) -> bool {
    0 <= i < bytes.len() && bytes[i] == SEMICOLON && at_top_level(mode_at(bytes, i))
}

/// Byte `i` is a `#` that starts a comment.
pub open spec fn is_comment(bytes: Seq<u8>, i: int) -> bool {
    0 <= i < bytes.len() && bytes[i] == HASH && at_top_level(mode_at(bytes, i))
}

/// The end of the statement that is being read at `from`: the index of the
/// first terminator or comment at or after `from`, or the length of the
/// buffer when there is none.
pub open spec fn statement_end(bytes: Seq<u8>, from: int) -> int
    decreases bytes.len() - from,
{
    if from >= bytes.len() {
        bytes.len() as int
    } else if is_terminator(bytes, from) || is_comment(bytes, from) {
        from
    } else {
        statement_end(bytes, from + 1)
    }
}

/// The statements that a scanner standing at `from` has yet to yield, in
/// order. A terminator is followed by another statement, even an empty one
/// at the very end of the buffer; a comment or the end of the buffer is
/// followed by nothing.
pub open spec fn statements_from(bytes: Seq<u8>, from: int) -> Seq<Seq<u8>>
    decreases bytes.len() - from,
{
    let end = statement_end(bytes, from);
    let head = seq![trim(bytes.subrange(from, end))];
    if is_terminator(bytes, end) {
        proof {
            lemma_statement_end_bounds(bytes, from);
        }
        head + statements_from(bytes, end + 1)
    } else {
        head
    }
}

/// The statements of a whole buffer. An empty buffer holds none.
pub open spec fn statements(bytes: Seq<u8>) -> Seq<Seq<u8>> {
    if bytes.len() == 0 {
        Seq::empty()
    } else {
        statements_from(bytes, 0)
    }
}

/// A statement ends at or after the place where it is read, inside the
/// buffer, and on a terminator, a comment or the end of the buffer.
pub proof fn lemma_statement_end_bounds(bytes: Seq<u8>, from: int)
    ensures
        from <= bytes.len() ==> from <= statement_end(bytes, from) <= bytes.len(),
        statement_end(bytes, from) < bytes.len() ==> is_terminator(bytes, statement_end(bytes, from))
            || is_comment(bytes, statement_end(bytes, from)),
    decreases bytes.len() - from,
{
    if from < bytes.len() && !(is_terminator(bytes, from) || is_comment(bytes, from)) {
        lemma_statement_end_bounds(bytes, from + 1);
    }
}

/// No byte from `from` up to the end of the statement ends a statement.
pub proof fn lemma_statement_end_is_first(bytes: Seq<u8>, from: int, k: int)
    requires
        from <= k < statement_end(bytes, from),
    ensures
        !is_terminator(bytes, k),
        !is_comment(bytes, k),
    decreases k - from,
{
    if from < k {
        lemma_statement_end_bounds(bytes, from);
        lemma_statement_end_is_first(bytes, from + 1, k);
    }
}

/// Substitutions nest no deeper than the number of bytes read.
pub proof fn lemma_depth_bounded(bytes: Seq<u8>, i: int)
    requires
        0 <= i,
    ensures
        mode_at(bytes, i).depth <= i,
    decreases i,
{
    if i > 0 {
        lemma_depth_bounded(bytes, i - 1);
    }
}

/// The mode before byte `i` depends on the bytes before `i` alone.
pub proof fn lemma_mode_depends_on_prefix(a: Seq<u8>, b: Seq<u8>, i: int)
    requires
        0 <= i <= a.len(),
        i <= b.len(),
        forall|k: int| 0 <= k < i ==> a[k] == b[k],
    ensures
        mode_at(a, i) == mode_at(b, i),
    decreases i,
{
    if i > 0 {
        lemma_mode_depends_on_prefix(a, b, i - 1);
    }
}

/// Where a statement ends depends on the bytes up to and including its
/// terminator or comment alone.
pub proof fn lemma_statement_end_depends_on_prefix(a: Seq<u8>, b: Seq<u8>, from: int)
    requires
        0 <= from <= statement_end(a, from) < a.len(),
        statement_end(a, from) < b.len(),
        forall|k: int| 0 <= k <= statement_end(a, from) ==> a[k] == b[k],
    ensures
        statement_end(b, from) == statement_end(a, from),
        is_terminator(b, statement_end(a, from)) == is_terminator(a, statement_end(a, from)),
        is_comment(b, statement_end(a, from)) == is_comment(a, statement_end(a, from)),
    decreases a.len() - from,
{
    lemma_mode_depends_on_prefix(a, b, from);
    if is_terminator(a, from) || is_comment(a, from) {
    } else {
        lemma_statement_end_bounds(a, from + 1);
        lemma_statement_end_depends_on_prefix(a, b, from + 1);
    }
}

} // verus!
