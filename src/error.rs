use vstd::prelude::*;

verus! {

/// Why an operation refused its inputs.
#[derive(Debug, Clone, Copy, PartialEq, Eq, Structural)]
pub enum QecError {
    /// A vector, matrix or operator was built from malformed parts.
    InvalidConstruction,
    /// An index or position lies beyond the declared size.
    OutOfBounds,
    /// The operands do not have compatible shapes.
    DimensionMismatch,
    /// A code's matrices do not satisfy their orthogonality constraint.
    NotOrthogonal,
    /// The degrees asked of a random regular code cannot be met.
    IncompatibleDegrees,
    /// A noise parameter is not a probability.
    InvalidProbability,
}

} // verus!
