//! Common core types.

use vstd::prelude::*;
use crate::rank::Ranked;

verus! {

/// Externally supplied identifier of a vector.
///
/// A type of its own rather than a bare `u64`, so that ids are not confused
/// with the slot numbers that the indexes use inside.
#[derive(Debug, Clone, Copy, PartialEq, Eq, Hash, PartialOrd, Ord, Structural)]
pub struct VectorId(pub u64);

/// A single search result.
///
/// `distance` is the rank of the `f32` distance in the IEEE total order (see
/// [`crate::distance::distance_key`]): smaller is closer, whatever the metric.
/// Results are ordered by distance, and by id where distances are equal.
#[derive(Debug, Clone, Copy, PartialEq, Eq, PartialOrd, Ord, Structural)]
pub struct SearchResult {
    pub distance: u32,
    pub id: VectorId,
}

impl SearchResult {
    pub fn new(id: VectorId, distance: u32) -> (r: Self)
        ensures
            r.id == id,
            r.distance == distance,
    {
        Self { id, distance }
    }
}

impl Ranked for SearchResult {
    open spec fn key(self) -> int {
        self.distance * 0x1_0000_0000_0000_0000 + self.id.0
    }

    proof fn key_injective(self, other: Self) {
    }

    fn rank_key(&self) -> (k: u128) {
        self.distance as u128 * 0x1_0000_0000_0000_0000u128 + self.id.0 as u128
    }
}

/// Seeds every random choice that is not given a seed of its own.
pub const DEFAULT_SEED: u64 = 42;

} // verus!
