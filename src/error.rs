//! What can go wrong between setup and verification.
use vstd::prelude::*;

verus! {

/// The failures of setup, trace construction, proving and verification.
#[derive(Clone, Copy, Debug, PartialEq, Eq)]
pub enum KzgError {
    /// The node set `1..N` is empty.
    EmptyDomain,
    /// The columns of a trace differ in length, or a trace lacks a column.
    ShapeMismatch,
    /// A polynomial has more coefficients than the reference string has bases.
    DegreeBoundTooSmall,
    /// A constraint polynomial is not a multiple of the vanishing polynomial:
    /// the trace does not satisfy the constraint system.
    WitnessInvalid,
    /// A point that must be written in affine form is the point at infinity.
    PointAtInfinity,
    /// The ladder's result differs from the claimed target.
    TargetMismatch,
}

} // verus!
