//! Core of a library computing atomistic structural descriptors: deterministic
//! enumeration of the labeled axes of block-structured feature tensors, and a
//! reference neighbor-list calculator filling those blocks with pair direction
//! vectors and their analytic position gradients.
//!
//! Scalar values (pair vectors, cutoffs, tensor entries) are carried as the
//! 64-bit patterns of IEEE 754 double-precision numbers, so that every label
//! sequence and every tensor entry is a bit-exact function of the inputs.

use vstd::prelude::*;

pub mod bits;
pub mod descriptor;
pub mod indexset;
pub mod labels;
pub mod sorted_set;
pub mod species;
pub mod system;
pub mod neighbor_list;
pub mod radial_basis;
pub mod tensor;
pub mod tensormap;

verus! {

/// Errors surfaced across the library boundary.
#[derive(Debug, Clone, PartialEq, Eq)]
pub enum Error {
    /// A calculator parameter is invalid (for example a non-positive cutoff).
    InvalidParameter(String),
    /// An error propagated unchanged from a `System` implementation.
    NeighborList(String),
    /// A label row does not match the width of its label set.
    LabelShape(String),
    /// A row identical to one already present was added to a label builder.
    DuplicateRow(String),
    /// A gradient row that the label construction owes is absent.
    MissingGradientSample(String),
    /// An invariant violation: an index mismatch that the label construction
    /// should have made impossible.
    Internal(String),
}

impl Error {
    /// The human-readable message carried by this error.
    pub fn message(&self) -> (r: &String)
        ensures
            (match self {
                Error::InvalidParameter(m) => r@ == m@,
                Error::NeighborList(m) => r@ == m@,
                Error::LabelShape(m) => r@ == m@,
                Error::DuplicateRow(m) => r@ == m@,
                Error::MissingGradientSample(m) => r@ == m@,
                Error::Internal(m) => r@ == m@,
            }),
    {
        match self {
            Error::InvalidParameter(m) => m,
            Error::NeighborList(m) => m,
            Error::LabelShape(m) => m,
            Error::DuplicateRow(m) => m,
            Error::MissingGradientSample(m) => m,
            Error::Internal(m) => m,
        }
    }
}

} // verus!
