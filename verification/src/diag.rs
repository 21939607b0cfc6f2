//! Recoverable diagnostics.
//!
//! Lexing, parsing and attribute checking never abort: they accumulate
//! diagnostics, each carrying the byte-offset span it originates from, and
//! keep producing a best-effort result. Rendering them is a caller's job.

use vstd::prelude::*;

verus! {

/// A half-open byte-offset range into the source text.
#[derive(Debug, Clone, Copy, PartialEq, Eq, Structural)]
pub struct Span {
    pub start: usize,
    pub end: usize,
}

impl Span {
    pub fn new(start: usize, end: usize) -> (s: Span)
        ensures
            s == (Span { start, end }),
    {
        Span { start, end }
    }
}

/// What a diagnostic reports. The offending text is recovered from the
/// span, so no variant needs to carry it.
#[derive(Debug, Clone, Copy, PartialEq, Eq, Structural)]
pub enum DiagKind {
    /// The lexer skipped a byte it could not start a token with.
    UnexpectedChar,
    /// An integer literal does not fit the numeric range.
    NumberOverflow,
    /// The parser skipped a token that fits no production.
    UnexpectedToken,
    /// A block was opened but never closed.
    UnclosedBlock,
    /// A `shape` keyword without a following block.
    ExpectedBlock,
    /// A color attribute names no known color; black is substituted.
    UnknownColor,
}

/// One recoverable diagnostic.
#[derive(Debug, Clone, Copy, PartialEq, Eq, Structural)]
pub struct Diag {
    pub kind: DiagKind,
    pub span: Span,
}

} // verus!
