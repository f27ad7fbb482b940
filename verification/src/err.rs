//! The error model: a closed set of failure kinds, each carrying the line
//! and column it was raised at.

use vstd::prelude::*;

verus! {

/// Result alias used throughout the crate: any operation that can fail
/// produces a positioned [`JsefErr`].
pub type JsefResult<T = ()> = Result<T, JsefErr>;

/// An error produced while parsing or composing, carrying the 1-indexed
/// line and column at which it occurred.
#[derive(Debug, Clone, PartialEq, Eq)]
pub struct JsefErr {
    pub err: JsefErrType,
    pub line: usize,
    pub col: usize,
}

impl JsefErr {
    pub fn new(err: JsefErrType, line: usize, col: usize) -> (r: Self)
        ensures
            r == (JsefErr { err, line, col }),
    {
        JsefErr { err, line, col }
    }
}

/// The kind of failure.
#[derive(Debug, Clone, PartialEq, Eq)]
pub enum JsefErrType {
    /// A value or identifier was required, but this character (or end of
    /// input, for `None`) was found instead.
    Unexpected(Option<char>),
    /// A specific literal character was required (first field), but another
    /// character (or end of input) was present (second field).
    Mismatch(char, Option<char>),
    /// Input remained after the root value had been fully parsed.
    NotEof(char),
    /// Nesting exceeded the configured depth limit while parsing or composing.
    MaxDepth,
    /// A byte-stream source held a malformed UTF-8 sequence.
    InvalidEncoding,
}

} // verus!
