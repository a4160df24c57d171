//! The kinds of error that array operations report.
use vstd::prelude::*;

verus! {

/// Why an operation refused its inputs.
#[derive(Debug, Clone, Copy, PartialEq, Eq, Structural)]
pub enum ArrayError {
    /// Shapes, prefixes or ranks that cannot be combined.
    ShapeMismatch,
    /// A dimension or size that is zero, negative or repeated where it may not be.
    InvalidDimension,
    /// The operation needs a fill value and none was given.
    MissingFill,
    /// The operation cannot be undone on data that was altered.
    UnsupportedInverse,
}

} // verus!
