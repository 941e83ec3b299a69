//! Randomized combinatorial generation of 5x5 bingo grids.
//!
//! Five disjoint pools of numbers (one per column) are each expanded into the
//! universe of ordered, duplicate-free arrangements of length five; a diversity
//! sampler draws arrangements for every column so that any two sheets differ
//! column-wise by more than an adaptively relaxed tolerance; an assembler then
//! merges the five column sequences into grids whose center cell stays free.

use vstd::prelude::*;

pub mod arrangements;
pub mod bag;
pub mod generator;
pub mod grid;
pub mod rng;
pub mod sampler;
pub mod similarity;

verus! {

/// Failures the generation core reports.
#[derive(Clone, Copy, Debug, PartialEq, Eq, Structural)]
pub enum GenError {
    /// The enumerator was handed an empty pool, or an arrangement length of
    /// zero or beyond the pool size.
    InvalidArgument,
    /// The assembler was handed per-column sequences of unequal length.
    LengthMismatch,
}

} // verus!
