use vstd::prelude::*;

verus! {

/// The ways in which building or running a program can fail.
#[derive(Debug, Copy, Clone, PartialEq, Eq, Structural)]
pub enum BFError {
    /// A loop bracket without its partner.
    SyntaxError,
    /// A read found the input stream exhausted.
    EndOfInput,
    /// The cursor left the tape, or stood outside it when a cell was used.
    OutOfBounds,
    /// A run reached its bound on repetitions.
    LoopLimit,
}

} // verus!
