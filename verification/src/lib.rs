//! A verified interpreter for the Brainfuck programming language.
//!
//! The interpreter owns a fixed-size tape of byte cells, a tape cursor, and a
//! program made of single-character instructions.  Loop brackets are resolved
//! once, before execution, into a map from each bracket to its counterpart;
//! execution then steps through the program, mutating the tape and performing
//! byte input and output.
//!
//! The module [`semantics`] gives the mathematical model: a small-step
//! transition function on machine states.  The module [`interpreter`] holds the
//! executable engine, whose contracts tie every run to that model, and the
//! module [`laws`] proves general properties of the semantics.

use vstd::prelude::*;

pub mod interpreter;
pub mod laws;
pub mod semantics;

pub use crate::interpreter::Interpreter;

verus! {

/// Number of byte cells on the tape.
pub const TAPE_SIZE: usize = 30000;

/// The ways loading or running a program can fail.
///
/// Unrecognized characters are not an error: they are treated as comments and
/// skipped, the common convention for this language.
#[derive(Clone, Copy, Debug, PartialEq, Eq)]
pub enum InterpreterError {
    /// A loop bracket with no counterpart, at the given program index.
    UnmatchedBracket(usize),
    /// An input instruction found no byte left to read.
    InputExhausted,
    /// An output instruction could not deliver its byte.
    OutputFailure,
}

} // verus!
