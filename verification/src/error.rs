//! The error taxonomy of the library.
//!
//! Every failure is local, synchronous and recoverable: an operation that
//! would break a buffer's invariants reports one of these values to its
//! immediate caller before mutating any state.

use vstd::prelude::*;

verus! {

/// Why an array or matrix operation was refused.
#[derive(Clone, Copy, Debug, PartialEq, Eq, Structural)]
pub enum Error {
    /// An index tuple's dimensionality does not match the shape's.
    DimensionMismatch { expected: usize, actual: usize },
    /// An index component is not strictly below the matching extent.
    IndexOutOfBounds,
    /// `truncate` was asked to grow a buffer; truncate is shrink-only.
    ShapeGrowthNotAllowed,
    /// A rank-2 conversion was handed an array of a different rank.
    InvalidRank,
    /// A binary elementwise operation was handed operands of unequal shape.
    ShapeMismatch {
        expected_rows: usize,
        expected_cols: usize,
        actual_rows: usize,
        actual_cols: usize,
    },
    /// Matrix multiplication was handed operands whose inner extents differ.
    InnerDimensionMismatch { left_cols: usize, right_rows: usize },
    /// A contiguous row view was requested of a logically transposed matrix.
    UnsupportedOnTransposedView,
    /// A norm was requested of an empty sequence.
    EmptyInput,
}

} // verus!
