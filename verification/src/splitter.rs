//! The scanner itself: a cursor over a borrowed buffer that hands out one
//! statement per call.

use vstd::prelude::*;
use vstd::string::*;
use vstd::utf8::*;
use crate::mode::{ScanState, HASH, SEMICOLON};
use crate::scan::{
    is_terminator, lemma_depth_bounded, lemma_statement_end_bounds, mode_at, statement_end,
    statements, statements_from,
};
use crate::trim::{lemma_boundary_after_ascii, trim, trimmed_slice};

verus! {

/// A forward-only cursor over a command line that yields its top-level
/// statements one by one, as trimmed parts of the line itself.
pub struct StatementSplitter<'a> {
    data: &'a str,
    read: usize,
    state: ScanState,
    exhausted: bool,
}

impl<'a> StatementSplitter<'a> {
    #[verifier::type_invariant]
    spec fn well_formed(&self) -> bool {
        let bytes = self.data.spec_bytes();
        &&& self.read <= bytes.len()
        &&& is_char_boundary(bytes, self.read as int)
        &&& self.exhausted ==> self.read == bytes.len()
        &&& !self.exhausted ==> self.state@ == mode_at(bytes, self.read as int)
    }

    /// The bytes of the line that is being split.
    pub closed spec fn buffer(&self) -> Seq<u8> {
        self.data.spec_bytes()
    }

    /// The index of the next byte to be read.
    pub closed spec fn position(&self) -> int {
        self.read as int
    }

    /// True once the last statement has been handed out.
    pub closed spec fn is_exhausted(&self) -> bool {
        self.exhausted
    }

    /// The statements still to come, in order.
    pub open spec fn remaining(&self) -> Seq<Seq<u8>> {
        if self.is_exhausted() {
            Seq::empty()
        } else {
            statements_from(self.buffer(), self.position())
        }
    }

    /// A scanner at the start of `data`. It has every statement of `data`
    /// still to come; an empty line has none.
    pub fn new(data: &'a str) -> (splitter: StatementSplitter<'a>)
        ensures
            splitter.buffer() == data.spec_bytes(),
            splitter.position() == 0,
            splitter.is_exhausted() <==> data.spec_bytes().len() == 0,
            splitter.remaining() == statements(data.spec_bytes()),
    {
        let state = ScanState::new();
        let exhausted = data.as_bytes().len() == 0;
        proof {
            encode_utf8_valid_utf8(data@);
            is_char_boundary_start_end_of_seq(data.spec_bytes());
            assert(mode_at(data.spec_bytes(), 0) == state@);
        }
        StatementSplitter { data, read: 0, state, exhausted }
    }

    /// The next statement, or `None` when there is none left.
    ///
    /// The statement runs from the cursor to the first `;` or `#` that
    /// stands outside quotes and substitutions and is not escaped, or to the
    /// end of the line, and comes without the whitespace at its ends. After a
    /// `;` the cursor stands behind it and another statement follows. After a
    /// `#` or the end of the line nothing follows.
    pub fn next(&mut self) -> (statement: Option<&'a str>)
        ensures
            final(self).buffer() == old(self).buffer(),
            0 <= final(self).position() <= final(self).buffer().len(),
            old(self).is_exhausted() ==> statement is None && final(self).is_exhausted()
                && final(self).position() == old(self).position(),
            !old(self).is_exhausted() ==> ({
                let bytes = old(self).buffer();
                let end = statement_end(bytes, old(self).position());
                &&& statement is Some
                &&& statement->0.spec_bytes() == trim(bytes.subrange(old(self).position(), end))
                &&& is_terminator(bytes, end) ==> {
                    &&& !final(self).is_exhausted()
                    &&& final(self).position() == end + 1
                }
                &&& !is_terminator(bytes, end) ==> {
                    &&& final(self).is_exhausted()
                    &&& final(self).position() == bytes.len()
                }
            }),
            statement is Some <==> old(self).remaining().len() > 0,
            statement is Some ==> statement->0.spec_bytes() == old(self).remaining()[0],
            statement is Some ==> statement->0@ == decode_utf8(old(self).remaining()[0]),
            statement is Some ==> final(self).remaining() == old(self).remaining().drop_first(),
            statement is None ==> final(self).remaining() == old(self).remaining(),
    {
        proof {
            use_type_invariant(&*self);
        }
        if self.exhausted {
            return None;
        }
        let data = self.data;
        let bytes = data.as_bytes();
        let ghost all = data.spec_bytes();
        let start = self.read;
        let mut state = self.state;
        let mut i = start;
        proof {
            encode_utf8_valid_utf8(data@);
        }
        while i < bytes.len() && !(state.at_top_level() && (bytes[i] == SEMICOLON || bytes[i]
            == HASH))
            invariant
                start <= i <= all.len(),
                bytes@ == all,
                state@ == mode_at(all, i as int),
                statement_end(all, start as int) == statement_end(all, i as int),
            decreases all.len() - i,
        {
            proof {
                lemma_depth_bounded(all, i as int);
            }
            state = state.step(bytes[i]);
            i += 1;
        }
        proof {
            lemma_statement_end_bounds(all, start as int);
            if i < all.len() {
                is_char_boundary_iff_not_is_continuation_byte(all, i as int);
                lemma_boundary_after_ascii(all, i as int);
            } else {
                is_char_boundary_start_end_of_seq(all);
            }
        }
        let statement = trimmed_slice(data, start, i);
        proof {
            encode_utf8_decode_utf8(statement@);
        }
        if i < bytes.len() && bytes[i] == SEMICOLON {
            proof {
                lemma_depth_bounded(all, i as int);
            }
            *self = StatementSplitter {
                data,
                read: i + 1,
                state: state.step(SEMICOLON),
                exhausted: false,
            };
        } else {
            proof {
                is_char_boundary_start_end_of_seq(all);
            }
            *self = StatementSplitter { data, read: bytes.len(), state, exhausted: true };
        }
        Some(statement)
    }

    /// Every statement still to come, in order. The scanner is used up.
    pub fn collect(self) -> (all: Vec<&'a str>)
        ensures
            all@.len() == self.remaining().len(),
            forall|k: int|
                0 <= k < all@.len() ==> (#[trigger] all@[k]).spec_bytes() == self.remaining()[k],
            forall|k: int|
                0 <= k < all@.len() ==> (#[trigger] all@[k])@ == decode_utf8(self.remaining()[k]),
    {
        let ghost total = self.remaining();
        let mut splitter = self;
        let mut all: Vec<&'a str> = Vec::new();
        let mut statement = splitter.next();
        while statement.is_some()
            invariant
                all@.len() + (if statement is Some { 1int } else { 0int })
                    + splitter.remaining().len() == total.len(),
                forall|k: int|
                    0 <= k < all@.len() ==> (#[trigger] all@[k]).spec_bytes() == total[k],
                forall|k: int|
                    0 <= k < all@.len() ==> (#[trigger] all@[k])@ == decode_utf8(total[k]),
                statement is Some ==> statement->0.spec_bytes() == total[all@.len() as int],
                statement is Some ==> statement->0@ == decode_utf8(total[all@.len() as int]),
                splitter.remaining() == total.skip(
                    all@.len() + (if statement is Some { 1int } else { 0int }),
                ),
                statement is None ==> splitter.remaining().len() == 0,
            decreases splitter.remaining().len() + (if statement is Some { 1int } else { 0int }),
        {
            all.push(statement.unwrap());
            statement = splitter.next();
        }
        all
    }
}

} // verus!
