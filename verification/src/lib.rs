//! Verified core of the GÉNESIS cognitive architecture: identifier types,
//! proof-carrying mutation certificates, Z₂ cohomology and the combinatorial
//! parts of the topology layer.
use vstd::prelude::*;

pub mod adjacency;
mod buffers;
pub mod cohomology;
pub mod constants;
pub mod cycle_space;
pub mod error;
pub mod fisher_edge;
pub mod gf2;
pub mod hnsw;
pub mod hnsw_graph;
pub mod incremental_cohomology;
pub mod lsh;
pub mod meta_consistency;
pub mod multivector_types;
pub mod phase_semantics;
pub mod proof_carrying;
pub mod rips;
pub mod signal;
pub mod topological_intuition;
pub mod sort;

pub use error::GenesisError;
pub use signal::{NodeId, Timestamp};

verus! {

} // verus!
