//! The bifurcation backend: one model per core.
use vstd::prelude::*;

use crate::ising::IsingGraph;
use crate::sampler_core::{at_least_one, or_one, SampleParams, SamplerResult};
use crate::sb_core::{draws_starts, sample_sb, sb_reads, sb_results, SbVariant};
use crate::scalar::Scalar;

verus! {

/// Simulated bifurcation backend. The variant selects the coupling form and the
/// heating rate.
#[derive(Debug, Clone, Copy, PartialEq, Eq, Structural)]
pub struct SbSampler {
    variant: SbVariant,
}

impl SbSampler {
    /// The variant that it runs.
    pub closed spec fn runs(&self) -> SbVariant {
        self.variant
    }

    /// Create a sampler for `variant`.
    pub fn new(variant: SbVariant) -> (s: Self)
        ensures
            s.runs() == variant,
    {
        SbSampler { variant }
    }

    /// Models in flight on a host of `host` cores: one per core, at least one.
    pub fn stream_width(&self, host: usize) -> (w: usize)
        ensures
            w == at_least_one(host as nat),
    {
        or_one(host)
    }

    /// Run one job.
    pub fn sample<R: Scalar, D: Fn(u32, R, R) -> R, W: Scalar, N: Fn(W) -> R>(
        &self,
        graph: &IsingGraph,
        params: &SampleParams,
        narrow: &N,
        draw: &D,
    ) -> (results: Vec<SamplerResult>)
        requires
            graph.fits(),
            forall|x: W| #[trigger] call_requires(*narrow, (x,)),
            draws_starts::<R, D>(*draw),
        ensures
            results@.len() == params.reads(),
            sb_results(
                *draw,
                *narrow,
                *graph,
                self.runs(),
                at_least_one(params.num_sweeps as nat),
                results@,
            ),
            sb_reads(
                *draw,
                *narrow,
                *graph,
                params.seed,
                self.runs(),
                at_least_one(params.num_sweeps as nat),
                results@,
            ),
    {
        sample_sb(graph, params, self.variant, narrow, draw)
    }
}

} // verus!
