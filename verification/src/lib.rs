//! Approximate nearest-neighbor search core: a hierarchical navigable
//! small-world (HNSW) proximity graph with verified structural invariants.
//!
//! The library provides the layered graph storage, the incremental link
//! builder, the beam search, a pluggable scorer abstraction, and the
//! random level sampler that together form the index core.

use vstd::prelude::*;

pub mod fixtures;
pub mod graph;
pub mod level;
pub mod pool;
pub mod scorer;

pub use pool::Scored;
pub use graph::Graph;
pub use graph::Params;
pub use graph::EntryPoint;
pub use scorer::Scorer;
pub use scorer::DotScorer;
pub use level::sample_level;
pub use level::level_from_draws;
pub use fixtures::random_keyword;
pub use fixtures::random_int_payload;

verus! {

/// The faults the library reports instead of panicking: degenerate graph
/// parameters rejected at construction, and scorer inputs whose dimensions
/// or coordinates are out of bounds.
#[derive(Clone, Copy, PartialEq, Eq, Structural, Debug)]
pub enum HnswError {
    InvalidConfig,
    InvalidVectors,
}

} // verus!
