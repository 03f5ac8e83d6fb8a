//! Effective transition dipole moments for a two-fragment molecular system.
//!
//! The library extracts per-atom transition-density dipole contributions for a
//! named electronic state out of a semi-structured plain-text report, maps
//! them onto two user-defined fragments, and aggregates each fragment's
//! partial dipole vector.  Dipole components are held as exact fixed-point
//! integers (units of 10^-9), so that every arithmetic step can be verified;
//! the caller converts to floating point only for the final square root and
//! inverse cosine.

pub mod num;
pub mod scan;
pub mod extract;
pub mod frag;
pub mod agg;

use vstd::prelude::*;

verus! {

/// The failures that parsing and aggregation can report.  None of them is
/// recovered internally: every error aborts the whole computation.
#[derive(Clone, Copy, Debug, PartialEq, Eq, Structural)]
pub enum Error {
    /// The fragment document is not valid structured data or lacks a
    /// required key.
    StructuredParseFailure,
    /// An expected anchor line never appears in the report.
    PatternNotFound,
    /// The report ends before the terminator of a data block.
    UnexpectedEof,
    /// A data row's tokens are not parseable as expected.
    MalformedRow,
    /// A row or a fragment entry references an atom never seen in the
    /// x-block.
    UnknownAtomIndex,
}

} // verus!
