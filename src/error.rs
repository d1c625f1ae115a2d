use vstd::prelude::*;

verus! {

/// Why a puzzle run gave no answer.
#[derive(Clone, Copy, Debug, PartialEq, Eq, Structural)]
pub enum PuzzleError {
    /// A line or field of the input is not in the expected format.
    Malformed,
    /// An intermediate or final value does not fit in its integer type.
    Overflow,
    /// Storage length and row width of a grid do not agree.
    GridShape,
    /// Fewer than three clusters exist where three are needed.
    TooFewClusters,
    /// Too few points, lines or items to compute anything.
    TooFewItems,
    /// No combination of the allowed moves reaches the goal.
    Unsolvable,
    /// This puzzle part has no solver.
    Unsupported,
}

} // verus!
