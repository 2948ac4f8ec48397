//! All-pairs path aggregation over a weighted directed graph.
//!
//! Edge weights are multiplicative conversion rates; the aggregator runs a
//! Floyd-Warshall style relaxation that keeps, for every ordered vertex pair,
//! the best (smallest) composite rate found along any chain of known edges.
//! A self-aggregate that ends up strictly below the multiplicative identity
//! signals a cycle whose composite rate deviates from neutral.

pub mod aggregate;
pub mod graph;
pub mod laws;
pub mod reach;
pub mod weight;
