//! The tensor-network backend: one model per core.
use vstd::prelude::*;

use crate::ising::IsingGraph;
use crate::mps::sampler::{mps_results, sample_ising_mps, MpsConfig};
use crate::sampler_core::{at_least_one, or_one, SampleParams, SamplerResult};
use crate::scalar::Scalar;

verus! {

/// Tensor-network backend: anneal, exact sampling, greedy polish.
#[derive(Debug, Clone, Copy, PartialEq, Eq, Structural)]
pub struct MpsSampler {
    cfg: MpsConfig,
}

impl MpsSampler {
    /// The settings that it runs with.
    pub closed spec fn settings(&self) -> MpsConfig {
        self.cfg
    }

    /// Create a sampler with these settings.
    pub fn new(cfg: MpsConfig) -> (s: Self)
        ensures
            s.settings() == cfg,
    {
        MpsSampler { cfg }
    }

    /// Models in flight on a host of `host` cores: one per core, at least one.
    pub fn stream_width(&self, host: usize) -> (w: usize)
        ensures
            w == at_least_one(host as nat),
    {
        or_one(host)
    }

    /// Run one job.
    pub fn sample<
        R: Scalar,
        T: Fn(R) -> R,
        E: Fn(R) -> R,
        L: Fn(usize) -> bool,
        B: Fn(u64, R) -> bool,
    >(
        &self,
        graph: &IsingGraph,
        params: &SampleParams,
        eps: R,
        ladder: &Vec<R>,
        tanh: &T,
        exp: &E,
        late: &L,
        below: &B,
    ) -> (results: Vec<SamplerResult>)
        requires
            graph.fits(),
            forall|x: R| #[trigger] call_requires(*tanh, (x,)),
            forall|x: R| #[trigger] call_requires(*exp, (x,)),
            forall|a: usize| #[trigger] call_requires(*late, (a,)),
            forall|word: u64, x: R| #[trigger] call_requires(*below, (word, x)),
        ensures
            results@.len() == params.reads(),
            mps_results(
                *tanh,
                *exp,
                *late,
                *below,
                eps,
                self.settings(),
                *graph,
                params.seed,
                ladder@,
                params.num_sweeps as nat,
                params.sweeps_per_beta as nat,
                results@,
            ),
    {
        sample_ising_mps(graph, params, &self.cfg, eps, ladder, tanh, exp, late, below)
    }
}

} // verus!
