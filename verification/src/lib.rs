//! A verified core for co-membership network analysis.
//!
//! Player/team/season records become an undirected weighted graph; the
//! library then computes degree histograms, closeness centrality, sampled
//! average shortest-path length, and the most similar node pair, with the
//! behaviour of each step stated in its contract.

pub mod centrality;
pub mod degrees;
pub mod graph;
pub mod laws;
pub mod ratio;
pub mod records;
pub mod sampling;
pub mod similarity;
pub mod traversal;
