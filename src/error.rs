//! The failures a search reports to its caller.
use vstd::prelude::*;

verus! {

/// Why a search produced no solution.
#[derive(Clone, Copy, Debug, PartialEq, Eq, Structural)]
pub enum SolveError {
    /// The grid's width or height is not positive.
    InvalidDimensions,
    /// One of the words has no letters.
    EmptyWord,
    /// No placement of the words, in the order given, fits the grid consistently.
    NoSolutionFound,
}

} // verus!
