//! Belief-propagation tensor networks laid directly on the problem graph.
use vstd::prelude::*;

pub mod gate;
pub mod graph;
pub mod laws;
pub mod sample;
pub mod sampler;
pub mod state;
