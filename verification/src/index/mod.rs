//! Search: exact, compressed and approximate.
use vstd::prelude::*;

pub mod agreement;
pub mod beam;
pub mod brute_force;
pub mod connectivity;
pub mod evolution;
pub mod exact;
pub mod graph;
pub mod graph_snapshot;
pub mod guarantees;
pub mod hnsw;
pub mod kernel;
pub mod link;
pub mod ranking;
pub mod sieve;
pub mod small;
pub mod sq8;
pub mod structure;
pub mod visited;

verus! {

/// One vector that a search found.
#[derive(Debug, Clone, Copy, PartialEq, Eq, Structural)]
pub struct SearchResult {
    /// The slot of the vector in the store.
    pub slot: usize,
    /// Its vector ID.
    pub vector_id: u64,
    /// Its distance from the query, the lower the more similar, as the bit
    /// pattern of a 32-bit float.
    pub distance: u32,
}

} // verus!
