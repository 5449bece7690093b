use vstd::prelude::*;

verus! {

/// Errors of the hashing and bucketing core. Every failure here is a
/// caller-input contract violation and is returned as a value, never a panic.
#[derive(Debug, Clone, Copy, PartialEq, Eq, Structural)]
pub enum LshError {
    /// An embedding vector's length does not match the hyperplane matrix's
    /// column count.
    DimensionMismatch,
    /// Two hash codes of unequal length were given to the distance comparator.
    LengthMismatch,
    /// A zero `nbits` or `dim` was given to hyperplane generation.
    InvalidSize,
}

} // verus!
