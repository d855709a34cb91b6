//! Turn graph-alignment records (GAF), optionally cross-referenced
//! against a reference graph (GFA), into a per-traversal listing or a
//! per-read coverage matrix over graph node identifiers.
//!
//! The library works on plain byte lines; opening files, arguments and
//! printing live with the caller.
use vstd::prelude::*;

pub mod emit;
pub mod fields;
pub mod graph;
pub mod num;
pub mod paths;
pub mod pipeline;
pub mod records;
pub mod stats;

verus! {

/// Why a run aborts: the error taxonomy of the pipeline.  Every error
/// is fatal; there is no skip-and-continue policy.
#[derive(Clone, Copy, Debug, PartialEq, Eq, Structural)]
pub enum GafError {
    /// A record line has fewer tab-delimited fields than its format requires.
    MissingField,
    /// A numeric field or path token is not a positive decimal number in range.
    InvalidNumber,
    /// Trimming a read name found no word before the end of the field.
    EmptyName,
    /// A traversal names a node beyond the resolved maximum identifier.
    NodeOutOfRange,
    /// A longest-read cutoff was requested but no read passes the length bounds.
    NoQualifyingReads,
}

} // verus!
