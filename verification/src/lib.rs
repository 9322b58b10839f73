//! Structural statistics of a static undirected graph: hop distances by
//! breadth-first search, bounded reachability, sampled path-length
//! statistics and local clustering.

pub mod analysis;
pub mod bfs;
pub mod clustering;
pub mod edge_list;
pub mod error;
pub mod graph_manager;
pub mod graph_model;
pub mod paths;
pub mod sampler;
pub mod statistics;
