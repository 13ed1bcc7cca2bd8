//! Layered layout of directed acyclic task graphs, with the layered graph
//! generators and the pseudo-random source used to build benchmark inputs.

pub mod arith;
pub mod graph;
pub mod graph_generators;
pub mod graph_layout;
pub mod lcg;
