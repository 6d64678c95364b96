//! The errors of table opening, planning and scanning.
use vstd::prelude::*;

verus! {

#[derive(Debug, Clone, Copy, PartialEq, Eq, Structural)]
pub enum ScanError {
    /// Nothing to scan was found at the table's path.
    PathNotFound,
    /// The file at this position reports a schema other than the first file's.
    SchemaMismatch { file: usize },
    /// A block could not be decoded.
    DecodeError,
    /// Reading from storage failed.
    IoError,
    /// A partition index at or past the partition count.
    IndexOutOfRange { index: usize, count: usize },
    /// An illegal plan: children for a leaf, or a projection past the schema.
    InvalidPlan,
}

} // verus!
