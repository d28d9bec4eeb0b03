//! Scan-matching support library: a sparse chunked 2D grid with verified
//! Euclidean chunk addressing, and the integer-valued decision logic behind
//! occupancy-field splatting, downsampling and exhaustive correlation search.

use vstd::prelude::*;

pub mod field;
pub mod grid;
pub mod search;

verus! {

/// Failure kinds reported at the public boundaries of the library.
#[derive(Clone, Copy, Debug, PartialEq, Eq, Structural)]
pub enum AlignError {
    /// Invalid settings at construction time: chunk bounds that do not
    /// straddle or touch zero, or a zero downsampling factor.
    Configuration,
    /// An input map or point set exceeds the reference's extent on some axis.
    DimensionMismatch,
}

} // verus!
