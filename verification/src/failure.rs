//! How a run over a sequence of lines can stop early.

use vstd::prelude::*;

verus! {

/// Why a run stopped.
#[derive(Clone, Copy, PartialEq, Eq, Structural, Debug)]
pub enum Cause {
    /// The line does not have the form that the run expects.
    Malformed,
    /// The line is well formed, but taking it in would carry a value out of
    /// the range of `i32`.
    OutOfRange,
}

/// A run that stopped at line `line`; lines are counted from zero. Every line
/// before it was taken in without fault.
#[derive(Clone, Copy, PartialEq, Eq, Structural, Debug)]
pub struct Failure {
    pub line: usize,
    pub cause: Cause,
}

} // verus!
