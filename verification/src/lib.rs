//! Weighted sampling of the rows of a delimited table.
//!
//! Two strategies pick up to `n` rows from a stream that is read once or
//! twice: a reservoir that keeps the `n` rows with the largest ranking keys,
//! and a threshold sampler that accepts each row on its own with a
//! probability in proportion to its weight.

pub mod binary64;
pub mod error;
pub mod line;
pub mod record;
pub mod reservoir;
pub mod sampler;
pub mod selection;
pub mod threshold;
