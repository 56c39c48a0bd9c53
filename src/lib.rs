//! Single-source trust and distrust propagation over a directed graph whose
//! edges carry a positive (trust) and a negative (distrust) weight.
//!
//! Weights and scores are fixed-point fractions: the integer `SCALE` stands
//! for 1, so a weight of `600_000` transfers six tenths of a score.
//!
//! `compute_scores` relaxes nodes best first. Its frontier is a max-priority
//! queue keyed by `floor(net score × 10)`; among equal keys the entry pushed
//! first leaves first. Updated nodes are pushed again rather than
//! re-prioritised, and an entry whose node was already visited is discarded.
pub mod engine;
mod frontier;
pub mod graph;
pub mod laws;

pub use engine::{compute_scores, Result};
pub use graph::{Edge, Graph, Node, TrustError, SCALE};
