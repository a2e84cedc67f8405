//! A heuristic vertex coloring library for undirected graphs.
//!
//! A [`Graph`] owns a dense, append-only table of nodes and a symmetric
//! adjacency relation between them.  [`Graph::minimal_coloring`] computes a
//! proper coloring of the graph by a smallest-last elimination ordering
//! followed by greedy assignment; the number of colors it uses is at most one
//! more than some node's degree.

mod bits;
mod graph;
mod coloring;

pub use graph::Graph;
pub use graph::NodeId;
pub use coloring::Coloring;
