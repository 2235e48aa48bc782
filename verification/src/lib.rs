pub mod cache;
pub mod optimizers;
pub mod retriever;

use vstd::prelude::*;

verus! {

/// The error kinds of this crate.
///
/// `InvalidConfig` is returned when a cache is constructed with capacity
/// zero; `DimensionMismatch` when a query vector and a candidate vector
/// have different lengths.
#[derive(Debug, PartialEq, Eq, Structural, Clone, Copy)]
pub enum CoreError {
    InvalidConfig,
    DimensionMismatch,
}

} // verus!
