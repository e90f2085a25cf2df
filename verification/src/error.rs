//! The parse failure record: where parsing stopped and what was expected.

use vstd::prelude::*;

verus! {

/// What the parser expected at the point where it could no longer proceed.
#[derive(Clone, Copy, Debug, PartialEq, Eq, Structural)]
pub enum Expectation {
    /// A particular character (an opening quote, `=`, `;`, or a hex digit)
    /// was required and something else stood there.
    Character,
    /// More input was required: the document ended inside a construct.
    EndOfInput,
}

/// A parse failure: the byte offset in the document at which parsing could
/// not proceed, the 1-based line and column of that offset, and what was
/// expected there.
#[derive(Clone, Copy, Debug, PartialEq, Eq, Structural)]
pub struct ParseError {
    pub offset: usize,
    pub line: usize,
    pub column: usize,
    pub expected: Expectation,
}

} // verus!
