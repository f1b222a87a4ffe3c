//! Benchmark bookkeeping: timings, reports and model sources.
use vstd::prelude::*;

pub mod timing;
pub mod report;
pub mod source;
