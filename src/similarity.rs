//! The part of the similarity metrics that needs no arithmetic on scores:
//! which metrics exist, and the agreement of the operands' lengths that every
//! metric demands before it computes anything.
use vstd::prelude::*;
use crate::error::VectorError;

verus! {

/// The similarity or distance measure a database is configured with.
#[derive(Debug, Clone, Copy, PartialEq, Eq)]
pub enum DistanceMetric {
    Cosine,
    Euclidean,
    DotProduct,
}

/// What every metric returns for operands of lengths `a` and `b` when they
/// differ.
pub open spec fn mismatch(a: nat, b: nat) -> Result<(), VectorError> {
    Err(VectorError::DimensionMismatch { expected: a as usize, actual: b as usize })
}

/// Checks that two embeddings can be compared: every metric fails with
/// `DimensionMismatch` exactly when their lengths differ.
pub fn check_same_dimensions(a: &Vec<u32>, b: &Vec<u32>) -> (r: Result<(), VectorError>)
    ensures
        a@.len() == b@.len() <==> r is Ok,
        a@.len() != b@.len() ==> r == mismatch(a@.len(), b@.len()),
{
    if a.len() != b.len() {
        Err(VectorError::DimensionMismatch { expected: a.len(), actual: b.len() })
    } else {
        Ok(())
    }
}

} // verus!
