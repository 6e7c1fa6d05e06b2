//! Simulation kernel for progressive structural collapse of a network.
//!
//! Starting from a fixed topology, the simulation repeatedly removes the
//! most loaded node and cascades secondary removals to every node whose
//! load exceeds its capacity threshold, recording per-round statistics.

pub mod compute;
pub mod graph;
pub mod laws;
pub mod mat;
pub mod node;
pub mod path_finder;
pub mod ratio;
