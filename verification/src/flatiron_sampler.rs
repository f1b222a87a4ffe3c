//! The problem-graph tensor-network backend: one model per core.
use vstd::prelude::*;

use crate::flatiron::sampler::{net_results, sample_ising_bptns, BptnsConfig};
use crate::ising::IsingGraph;
use crate::sampler_core::{at_least_one, or_one, SampleParams, SamplerResult};
use crate::scalar::Scalar;

verus! {

/// Problem-graph tensor-network backend: anneal, belief propagation, conditioned
/// sampling, greedy polish.
#[derive(Debug, Clone, Copy, PartialEq, Eq, Structural)]
pub struct FlatironSampler {
    cfg: BptnsConfig,
}

impl FlatironSampler {
    /// The settings that it runs with.
    pub closed spec fn settings(&self) -> BptnsConfig {
        self.cfg
    }

    /// Create a sampler with these settings.
    pub fn new(cfg: BptnsConfig) -> (s: Self)
        ensures
            s.settings() == cfg,
    {
        FlatironSampler { cfg }
    }

    /// Models in flight on a host of `host` cores: one per core, at least one.
    pub fn stream_width(&self, host: usize) -> (w: usize)
        ensures
            w == at_least_one(host as nat),
    {
        or_one(host)
    }

    /// Run one job.
    pub fn sample<
        R: Scalar,
        T: Fn(R) -> R,
        E: Fn(R) -> R,
        L: Fn(usize) -> bool,
        B: Fn(u64, R) -> bool,
    >(
        &self,
        graph: &IsingGraph,
        params: &SampleParams,
        eps: R,
        floor: R,
        ladder: &Vec<R>,
        tanh: &T,
        exp: &E,
        late: &L,
        below: &B,
    ) -> (results: Vec<SamplerResult>)
        requires
            graph.fits(),
            self.settings().flop_budget <= usize::MAX,
            forall|x: R| #[trigger] call_requires(*tanh, (x,)),
            forall|x: R| #[trigger] call_requires(*exp, (x,)),
            forall|a: usize| #[trigger] call_requires(*late, (a,)),
            forall|word: u64, x: R| #[trigger] call_requires(*below, (word, x)),
        ensures
            results@.len() == params.reads(),
            net_results(
                *tanh,
                *exp,
                *late,
                *below,
                eps,
                floor,
                self.settings(),
                *graph,
                params.seed,
                ladder@,
                params.num_sweeps as nat,
                params.sweeps_per_beta as nat,
                results@,
            ),
    {
        sample_ising_bptns(
            graph,
            params,
            &self.cfg,
            eps,
            floor,
            ladder,
            tanh,
            exp,
            late,
            below,
        )
    }
}

} // verus!
