use vstd::prelude::*;

verus! {

/// The failures the database reports.
#[derive(Debug, Clone, PartialEq, Eq)]
pub enum VectorError {
    /// An embedding's length differs from the one required.
    DimensionMismatch { expected: usize, actual: usize },
    /// The requested record does not exist.
    NotFound,
    /// The backing store failed; the message comes from the engine.
    StorageFailure(String),
    /// The index failed; reserved by the index interface.
    IndexFailure(String),
}

} // verus!
