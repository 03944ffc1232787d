//! The failure kinds that the front end and the execution engines report.

use vstd::prelude::*;

verus! {

/// An error raised by the front end, by the text encoder or by the
/// just-in-time compiler. Locations are 1-based (line, column) pairs.
#[derive(Debug, Clone, Copy, PartialEq, Eq, Structural)]
pub enum Error {
    /// The input contains a non-ASCII character, at the given line and column.
    NonASCIIChar(char, usize, usize),
    /// Unmatched open bracket at the given line and column.
    UnmatchedOpenBr(usize, usize),
    /// Unmatched close bracket at the given line and column.
    UnmatchedCloseBr(usize, usize),
    /// The current platform is not supported for JIT-compilation; the
    /// interpreter can be used instead.
    UnsupportedPlatformJIT,
    /// The target platform is not supported.
    UnsupportedTarget,
}

} // verus!
