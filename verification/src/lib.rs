//! Splits a shell-like command line into its top-level statements.
//!
//! Statements are separated by `;` and cut short by a `#` comment, but only
//! where those characters stand outside quotes, outside `$(` ... `)`
//! substitutions and not behind an escaping backslash. Each statement is
//! handed out as a part of the line itself, without the ASCII whitespace at
//! its ends; nothing is unquoted, unescaped or copied.
//!
//! - [`mode`] is the lexical state machine: one step per byte.
//! - [`scan`] says, for a sequence of bytes, where its statements end and
//!   what they are.
//! - [`trim`] removes whitespace from the ends of a part of the line.
//! - [`splitter`] is the scanner, [`StatementSplitter`].
//! - [`laws`] holds what is proved of every line.

pub mod laws;
pub mod mode;
pub mod scan;
pub mod splitter;
pub mod trim;

pub use splitter::StatementSplitter;
