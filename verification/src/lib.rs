//! Connectivity metrics of an undirected graph: how many nodes each node
//! reaches, how far apart the nodes are, and how the degrees of separation
//! are distributed.
//!
//! The graph is an adjacency list, one set of neighbour identifiers per node.
//! Every function states its result over the model in [`graph`]: walks along
//! edges and the least number of hops between two nodes.

pub mod error;
pub mod graph;
pub mod shortest_paths;
pub mod tally;
pub mod degrees_separation;
pub mod data_preprocessing;
pub mod edge_line;
