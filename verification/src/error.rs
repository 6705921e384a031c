//! What can go wrong in the index.

use vstd::prelude::*;

verus! {

/// The failures that the index and its host layer report.
#[derive(Debug, Clone, PartialEq, Eq)]
pub enum GraphError {
    /// A snapshot or a stream of batches could not be read or written; the
    /// text describes why.
    IoError(String),
    /// A columnar batch is malformed: a column is missing or of the wrong
    /// type, its length differs, or a field that must be set is null.
    /// `row` and `column` point at the offender where there is one.
    DecodeError { row: Option<usize>, column: Option<usize> },
    /// More than 256 distinct edge-type labels were asked for.
    TooManyEdgeTypes,
    /// More nodes were asked for than `u32` indices exist.
    TooManyNodes,
    /// The snapshot was written in another format version.
    SnapshotVersionMismatch { found: u32 },
}

impl GraphError {
    /// A short description of the failure.
    pub fn message(&self) -> (r: String)
        ensures
            r@ == match *self {
                GraphError::IoError(text) => text@,
                GraphError::DecodeError { .. } => "malformed columnar batch"@,
                GraphError::TooManyEdgeTypes => "more than 256 edge types"@,
                GraphError::TooManyNodes => "node index space exhausted"@,
                GraphError::SnapshotVersionMismatch { .. } => "snapshot version mismatch"@,
            },
    {
        match self {
            GraphError::IoError(text) => text.clone(),
            GraphError::DecodeError { .. } => "malformed columnar batch".to_owned(),
            GraphError::TooManyEdgeTypes => "more than 256 edge types".to_owned(),
            GraphError::TooManyNodes => "node index space exhausted".to_owned(),
            GraphError::SnapshotVersionMismatch { .. } => "snapshot version mismatch".to_owned(),
        }
    }
}

} // verus!
