//! Adaptive quadtree visualization engine for advisory classifier functions.
//!
//! The engine samples an opaque classifier `(x, y) -> category` over a square
//! grid, refining a quadtree level by level: a mandatory uniform base grid
//! first, then adaptive subdivision wherever the classifier output differs
//! across a cell's corners. The classifier itself (typically neural-network
//! inference over floating-point inputs) is supplied by the embedding
//! application: the engine publishes the sample points it needs and the
//! embedding answers them, so every decision the engine makes is verified
//! while the expensive evaluation stays outside.

use vstd::prelude::*;

pub mod arith;
pub mod backend;
pub mod config;
pub mod engine;
pub mod heuristic;
pub mod node;
pub mod paths;
pub mod render;

verus! {

/// Progress snapshot of the most recent generation, polled by the UI.
pub struct Status {
    /// Number of refinement levels whose results have been published.
    pub current_level: usize,
    /// Total number of cells evaluated so far (base grid plus refinement).
    pub quads_evaluated: usize,
}

} // verus!
