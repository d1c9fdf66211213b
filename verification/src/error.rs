//! The conditions that stop a run.

use vstd::prelude::*;

verus! {

/// Why a row stops the run.
#[derive(Clone, Copy, Debug, PartialEq, Eq, Structural)]
pub enum SampleError {
    /// The row is too short to have the identifier column.
    NoIdentifier,
    /// The key of the row is zero: its weight is too small for the keys to
    /// tell the candidates apart.
    PrecisionExhausted,
    /// The weights of the rows add up to zero, so that no threshold can be
    /// set.
    DegenerateNormalization,
}

} // verus!
