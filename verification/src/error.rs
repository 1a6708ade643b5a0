//! Errors surfaced by scan configuration and table construction.

use vstd::prelude::*;

verus! {

/// A planning-time or data-shape failure.
///
/// None of these is retried: each indicates that a caller handed in data
/// inconsistent with the declared schema or projection.
#[derive(Clone, Copy, PartialEq, Eq, Structural, Debug)]
pub enum ScanError {
    /// A record batch carried `actual` columns where the projected schema
    /// expected `expected` file columns.
    BatchWidthMismatch { expected: usize, actual: usize },
    /// A projection index addressed a column past the last available one.
    ProjectIndexOutOfBounds { index: usize, max_field: usize },
    /// Columns of unequal row counts were put into one record batch.
    RowCountMismatch { expected: usize, actual: usize },
    /// A batch schema is not contained in the declared table schema.
    SchemaMismatch,
}

} // verus!
