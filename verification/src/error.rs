//! The conditions under which a line is skipped or a run is abandoned.

use vstd::prelude::*;

verus! {

/// What can go wrong while reading a dump.
///
/// Only `ParseMismatch` is local to a line: it says that the line is not what was looked
/// for and is to be skipped. The other three end the run.
#[derive(Clone, Copy, PartialEq, Eq, Debug, Structural)]
pub enum BinlogError {
    /// The line has none of the recognised shapes.
    ParseMismatch,
    /// A header was not followed by `### SET` or `### WHERE`.
    MissingMarker,
    /// A row change of the analysed table lacks one of the key columns.
    MissingKeyColumn,
    /// No key column was given.
    InvalidConfiguration,
}

} // verus!
