//! An optimizing toolchain for a minimal tape-based esoteric language:
//! a lexer, a peephole optimizer with precomputed jump distances, a
//! byte-wise interpreter over a fixed tape, the emission stage of a
//! just-in-time compiler, an encoder that generates programs in the
//! language from plain text, and a transpiler that turns programs into
//! standalone Rust projects.

use vstd::prelude::*;

pub mod code;
pub mod error;
pub mod interpret;
pub mod io;
pub mod jit;
pub mod storage;
pub mod text;
pub mod transpile;

pub use code::process_code;
pub use error::Error;
pub use interpret::interpret;

verus! {

/// Number of cells on the data tape.
pub const STORAGE_SIZE: usize = 30_000;

} // verus!
