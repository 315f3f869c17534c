use vstd::prelude::*;

verus! {

/// Why a multiplication (or a dot product) produced no result.
#[derive(Debug, Clone, Copy, PartialEq, Eq, Structural)]
pub enum MatrixError {
    /// The operands' shapes do not fit: a matrix product whose left column
    /// count differs from the right row count, or a dot product of vectors
    /// of unequal length.
    DimensionMismatch,
    /// A job's reply never arrived, so the product is incomplete.
    WorkerFailure,
}

/// Why a counter could not be incremented.
#[derive(Debug, Clone, Copy, PartialEq, Eq, Structural)]
pub enum MetricsError {
    /// The key was not among the names the counters were created with.
    KeyNotFound,
}

} // verus!
