//! The failures that the numeric layer reports.

use vstd::prelude::*;

verus! {

/// A recoverable failure of a matrix or network operation.
#[derive(Debug, Clone, Copy, PartialEq, Eq)]
pub enum Error {
    /// Two matrices, or a matrix and a grid of values, do not fit together.
    ShapeMismatch,
    /// Two networks do not have the same layer widths.
    TopologyMismatch,
    /// An input is not a single row as wide as the network's first layer.
    DimensionMismatch,
}

} // verus!
