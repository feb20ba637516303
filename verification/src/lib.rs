//! Statistics over a weighted trust network: an undirected adjacency-list
//! graph built from an edge list, breadth-first shortest-path distances,
//! a sampled average distance, and the vertex degree distribution.

pub mod graph;
pub mod bfs;
pub mod analysis;
pub mod sampling;

pub use graph::Graph;
