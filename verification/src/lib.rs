//! Verified metrics over an in-memory undirected graph: breadth-first
//! distances, degree distributions, a densest-subgraph approximation,
//! closeness and betweenness centrality, and a power-law fit.

pub mod graph;
pub mod bfs;
pub mod graph_analysis;
pub mod peel;
pub mod betweenness;
pub mod stats;

use vstd::prelude::*;

verus! {

/// An exact nonnegative rational, kept as a numerator/denominator pair so
/// that scores never lose precision inside the library. Callers that want a
/// floating-point reading divide outside.
pub struct Ratio {
    /// Numerator.
    pub num: u128,
    /// Denominator; a well-formed score has `den > 0`.
    pub den: u128,
}

impl Ratio {
    /// The rational holds a meaningful value.
    pub open spec fn wf(self) -> bool {
        self.den > 0
    }
}

} // verus!
