//! The lexical mode of the scanner: which quotes are open, whether the next
//! byte is escaped, and how deeply nested in `$(` ... `)` the cursor is.

use vstd::prelude::*;

verus! {

/// `'`, which opens and closes a single-quoted region.
pub const SINGLE_QUOTE: u8 = 0x27;

/// `"`, which opens and closes a double-quoted region.
pub const DOUBLE_QUOTE: u8 = 0x22;

/// `\`, which escapes the byte after it.
pub const BACKSLASH: u8 = 0x5c;

/// `$`, which opens a substitution when a `(` follows at once.
pub const DOLLAR: u8 = 0x24;

/// `(`, the second byte of the opening of a substitution.
pub const OPEN_PAREN: u8 = 0x28;

/// `)`, which closes the innermost open substitution.
pub const CLOSE_PAREN: u8 = 0x29;

/// `;`, the statement terminator.
pub const SEMICOLON: u8 = 0x3b;

/// `#`, the start of a comment.
pub const HASH: u8 = 0x23;

/// Which kind of quoted region, if any, the cursor is inside.
#[derive(Clone, Copy, PartialEq, Eq, Structural, Debug)]
pub enum Quote {
    Unquoted,
    Single,
    Double,
}

/// The lexical mode as a mathematical value.
pub struct Mode {
    /// The quoted region that the cursor is inside.
    pub quote: Quote,
    /// The last byte was a backslash that escapes the next one.
    pub escape_pending: bool,
    /// The last byte was a `$` that a `(` would turn into a substitution.
    pub dollar_pending: bool,
    /// How many substitutions are open.
    pub depth: nat,
}

/// The mode in which every scan begins.
pub open spec fn initial() -> Mode {
    Mode { quote: Quote::Unquoted, escape_pending: false, dollar_pending: false, depth: 0 }
}

/// The mode after byte `c` has been read in mode `m`.
///
/// The tests are tried in order and the first that applies decides: a
/// pending escape swallows the byte whatever it is; then the quote toggles;
/// then backslash and dollar, which count only outside quotes; then the
/// parentheses of a substitution. `dollar_pending` survives no byte but the
/// dollar that sets it.
pub open spec fn step(m: Mode, c: u8) -> Mode {
    if m.escape_pending {
        Mode { escape_pending: false, dollar_pending: false, ..m }
    } else if c == SINGLE_QUOTE && m.quote != Quote::Double {
        Mode { quote: toggle(m.quote, Quote::Single), dollar_pending: false, ..m }
    } else if c == DOUBLE_QUOTE && m.quote != Quote::Single {
        Mode { quote: toggle(m.quote, Quote::Double), dollar_pending: false, ..m }
    } else if c == BACKSLASH && m.quote == Quote::Unquoted {
        Mode { escape_pending: true, dollar_pending: false, ..m }
    } else if c == DOLLAR && m.quote == Quote::Unquoted {
        Mode { dollar_pending: true, ..m }
    } else if c == OPEN_PAREN && m.dollar_pending {
        Mode { depth: m.depth + 1, dollar_pending: false, ..m }
    } else if c == CLOSE_PAREN && m.depth > 0 {
        Mode { depth: (m.depth - 1) as nat, dollar_pending: false, ..m }
    } else {
        Mode { dollar_pending: false, ..m }
    }
}

/// Leaves the quoted region `kind` if inside it, enters it otherwise.
pub open spec fn toggle(current: Quote, kind: Quote) -> Quote {
    if current == kind {
        Quote::Unquoted
    } else {
        kind
    }
}

/// True when a `;` or `#` read in mode `m` would end the statement.
pub open spec fn at_top_level(m: Mode) -> bool {
    !m.escape_pending && m.quote == Quote::Unquoted && m.depth == 0
}

/// The lexical mode as the scanner holds it. Its view is a [`Mode`].
#[derive(Clone, Copy, Debug)]
pub struct ScanState {
    /// The quoted region that the cursor is inside.
    pub quote: Quote,
    /// The last byte was a backslash that escapes the next one.
    pub escape_pending: bool,
    /// The last byte was a `$` that a `(` would turn into a substitution.
    pub dollar_pending: bool,
    /// How many substitutions are open.
    pub depth: usize,
}

impl View for ScanState {
    type V = Mode;

    open spec fn view(&self) -> Mode {
        Mode {
            quote: self.quote,
            escape_pending: self.escape_pending,
            dollar_pending: self.dollar_pending,
            depth: self.depth as nat,
        }
    }
}

impl ScanState {
    /// The state in which every scan begins.
    pub fn new() -> (state: ScanState)
        ensures
            state@ == initial(),
    {
        ScanState {
            quote: Quote::Unquoted,
            escape_pending: false,
            dollar_pending: false,
            depth: 0,
        }
    }

    /// True when a `;` or `#` read now would end the statement.
    pub fn at_top_level(&self) -> (top: bool)
        ensures
            top == at_top_level(self@),
    {
        !self.escape_pending && self.quote == Quote::Unquoted && self.depth == 0
    }

    /// The state after byte `c` has been read. The depth must have room
    /// for one more substitution; it cannot exceed the number of bytes read.
    pub fn step(self, c: u8) -> (next: ScanState)
        requires
            self.depth < usize::MAX,
        ensures
            next@ == step(self@, c),
    {
        let mut next = self;
        next.dollar_pending = false;
        if self.escape_pending {
            next.escape_pending = false;
        } else if c == SINGLE_QUOTE && self.quote != Quote::Double {
            next.quote = if self.quote == Quote::Single {
                Quote::Unquoted
            } else {
                Quote::Single
            };
        } else if c == DOUBLE_QUOTE && self.quote != Quote::Single {
            next.quote = if self.quote == Quote::Double {
                Quote::Unquoted
            } else {
                Quote::Double
            };
        } else if c == BACKSLASH && self.quote == Quote::Unquoted {
            next.escape_pending = true;
        } else if c == DOLLAR && self.quote == Quote::Unquoted {
            next.dollar_pending = true;
        } else if c == OPEN_PAREN && self.dollar_pending {
            next.depth = self.depth + 1;
        } else if c == CLOSE_PAREN && self.depth > 0 {
            next.depth = self.depth - 1;
        }
        next
    }
}

} // verus!
