//! Breadth-first reachability and shortest-path distances on undirected
//! graphs, and the sampling machinery for estimating the average distance
//! between two vertices.

pub mod counting;
pub mod distance;
pub mod edge_list;
pub mod error;
pub mod estimate;
pub mod graph;
pub mod paths;
pub mod sampling;
pub mod traversal;
