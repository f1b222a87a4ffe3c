//! Matrix-product-state annealing.
use vstd::prelude::*;

pub mod basis;
pub mod jacobi;
pub mod order;
pub mod chain;
pub mod laws;
pub mod sampler;
pub mod schedule;
pub mod state;
pub mod svd;
pub mod tensor;
