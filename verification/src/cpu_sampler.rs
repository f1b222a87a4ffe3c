//! Operator settings of the CPU backends: the core budget, the stream width and
//! the samplers that carry them.
use vstd::prelude::*;
use vstd::string::StringExecFns;

use crate::accept::Odds;
use crate::coloring::colored;
use crate::gibbs_parallel::{
    sample_gibbs_with, GibbsConfig, GibbsParallelism, DEFAULT_GIBBS_WORKERS,
};
use crate::ising::{lattice, IsingGraph};
use crate::pump::SampleError;
use crate::sampler_core::{
    ising_results, sample_ising, Algorithm, SampleParams, SamplerResult,
};
use crate::scalar::Scalar;
use crate::text::{
    blank, is_blank, signed_decimal, signed_decimal_of, toml_integer, toml_integer_at,
};

verus! {

/// Why a `num_cpus` setting cannot be applied.
#[derive(Debug, Clone, Copy, PartialEq, Eq, Structural)]
pub enum NumCpusError {
    /// The operator set zero or a negative count.
    NonPositive {
        /// The value that was set.
        requested: i64,
    },
    /// The settings are no TOML table that this backend can read.
    InvalidToml,
}

impl NumCpusError {
    /// What the operator is told.
    pub open spec fn message_of(&self) -> Seq<char> {
        match *self {
            NumCpusError::NonPositive { requested } => "num_cpus must be a positive integer, got "@
                + signed_decimal_of(requested as int),
            NumCpusError::InvalidToml => "backend_toml is not valid TOML"@,
        }
    }

    /// What the operator is told.
    pub fn message(&self) -> (r: String)
        ensures
            r@ == self.message_of(),
    {
        match self {
            NumCpusError::NonPositive { requested } => {
                let mut r = String::from_str("num_cpus must be a positive integer, got ");
                r.append(signed_decimal(*requested).as_str());
                r
            },
            NumCpusError::InvalidToml => String::from_str("backend_toml is not valid TOML"),
        }
    }
}

/// The core count that a `num_cpus` entry asks for.
pub open spec fn requested_cores(found: Option<i64>) -> Result<Option<usize>, NumCpusError> {
    match found {
        None => Ok(None),
        Some(n) => if n <= 0 {
            Err(NumCpusError::NonPositive { requested: n })
        } else if n > usize::MAX {
            Ok(Some(usize::MAX))
        } else {
            Ok(Some(n as usize))
        },
    }
}

/// Judge a `num_cpus` entry; `None` stands for an absent key.
pub fn judge_num_cpus(found: Option<i64>) -> (r: Result<Option<usize>, NumCpusError>)
    ensures
        r == requested_cores(found),
{
    match found {
        None => Ok(None),
        Some(n) => {
            if n <= 0 {
                Err(NumCpusError::NonPositive { requested: n })
            } else if n as u64 > usize::MAX as u64 {
                Ok(Some(usize::MAX))
            } else {
                Ok(Some(n as usize))
            }
        },
    }
}

/// The core count that the settings ask for.
pub open spec fn num_cpus_of(backend_toml: Seq<char>) -> Result<Option<usize>, NumCpusError> {
    if blank(backend_toml) {
        Ok(None)
    } else {
        match toml_integer_at(backend_toml, "num_cpus"@) {
            Some(found) => requested_cores(found),
            None => Err(NumCpusError::InvalidToml),
        }
    }
}

/// Read `num_cpus` from the settings. `None` means that the key is absent.
pub fn parse_num_cpus(backend_toml: &str) -> (r: Result<Option<usize>, NumCpusError>)
    ensures
        r == num_cpus_of(backend_toml@),
{
    if is_blank(backend_toml) {
        return Ok(None);
    }
    match toml_integer(backend_toml, "num_cpus") {
        Ok(found) => judge_num_cpus(found),
        Err(_) => Err(NumCpusError::InvalidToml),
    }
}

/// The smaller of the request and the host, and at least 1.
pub open spec fn core_budget_of(requested: int, available: int) -> int {
    let capped = if requested < available {
        requested
    } else {
        available
    };
    if capped < 1 {
        1
    } else {
        capped
    }
}

/// Cap a requested core budget at the host's parallelism. Never 0.
pub fn resolve_core_budget(requested: usize, available: usize) -> (r: usize)
    ensures
        r == core_budget_of(requested as int, available as int),
{
    let capped: usize = if requested < available {
        requested
    } else {
        available
    };
    if capped < 1 {
        1
    } else {
        capped
    }
}

/// The stored budget, or the host's parallelism where none is stored.
pub open spec fn cores_of(num_cpus: usize, host: usize) -> usize {
    if num_cpus == 0 {
        host
    } else {
        num_cpus
    }
}

/// The stored budget, or the host's parallelism where none is stored.
pub fn core_budget(num_cpus: usize, host: usize) -> (r: usize)
    ensures
        r == cores_of(num_cpus, host),
{
    if num_cpus == 0 {
        host
    } else {
        num_cpus
    }
}

/// The budget after settings that ask for `requested` cores, from `stored`.
pub open spec fn budget_after(
    stored: usize,
    asked: Result<Option<usize>, NumCpusError>,
    host: usize,
) -> int {
    match asked {
        Ok(Some(requested)) => core_budget_of(requested as int, host as int),
        _ => stored as int,
    }
}

/// Store the budget that the settings ask for. An absent key leaves the stored
/// budget alone, and so do settings that are refused.
pub fn apply_num_cpus(num_cpus: &mut usize, backend_toml: &str, host: usize) -> (r: Result<
    (),
    NumCpusError,
>)
    ensures
        *final(num_cpus) == budget_after(*old(num_cpus), num_cpus_of(backend_toml@), host),
        r is Ok <==> num_cpus_of(backend_toml@) is Ok,
        r matches Err(e) ==> num_cpus_of(backend_toml@) == Err::<Option<usize>, NumCpusError>(e),
{
    match parse_num_cpus(backend_toml) {
        Ok(None) => Ok(()),
        Ok(Some(requested)) => {
            *num_cpus = resolve_core_budget(requested, host);
            Ok(())
        },
        Err(e) => Err(e),
    }
}

/// A width as the handshake carries it: capped at the range of the wire.
pub open spec fn wire_of(width: int) -> int {
    if width > u32::MAX {
        u32::MAX as int
    } else {
        width
    }
}

/// The width that a backend declares before any setting is known.
pub open spec fn declared_width(algorithm: Algorithm, host: usize) -> int {
    wire_of(width_of(algorithm, host as int, DEFAULT_GIBBS_WORKERS as int))
}

/// A width as the handshake carries it.
pub fn wire_width(width: usize) -> (r: u32)
    ensures
        r == wire_of(width as int),
{
    if width as u64 > u32::MAX as u64 {
        u32::MAX
    } else {
        width as u32
    }
}

/// Models that run at once: one per core for Metropolis annealing, one per
/// group of workers for Gibbs.
pub open spec fn width_of(algorithm: Algorithm, cores: int, workers: int) -> int {
    match algorithm {
        Algorithm::Sa => cores,
        Algorithm::Gibbs => {
            let group = if workers < 1 {
                1
            } else {
                workers
            };
            if cores / group < 1 {
                1
            } else {
                cores / group
            }
        },
    }
}

/// The core budget of a sampler. All clones of the sampler read and set one
/// budget, so it stands beside them and has no copies.
#[derive(Debug)]
pub struct CoreBudget {
    /// 0 stands for the host's parallelism.
    num_cpus: usize,
}

impl CoreBudget {
    /// What is stored; 0 stands for the host's parallelism.
    pub closed spec fn stored(&self) -> usize {
        self.num_cpus
    }

    /// The cores of the budget on a host with this parallelism.
    pub open spec fn cores(&self, host: usize) -> usize {
        cores_of(self.stored(), host)
    }

    /// No budget set.
    pub fn new() -> (r: Self)
        ensures
            r.stored() == 0,
    {
        CoreBudget { num_cpus: 0 }
    }

    /// The cores to use on a host with this parallelism.
    pub fn get(&self, host: usize) -> (r: usize)
        ensures
            r == self.cores(host),
    {
        core_budget(self.num_cpus, host)
    }

    /// Store the budget that the settings ask for.
    pub fn apply(&mut self, backend_toml: &str, host: usize) -> (r: Result<(), NumCpusError>)
        ensures
            final(self).stored() == budget_after(
                old(self).stored(),
                num_cpus_of(backend_toml@),
                host,
            ),
            r is Ok <==> num_cpus_of(backend_toml@) is Ok,
            r matches Err(e) ==> num_cpus_of(backend_toml@) == Err::<Option<usize>, NumCpusError>(
                e,
            ),
    {
        let mut num_cpus: usize = self.num_cpus;
        let r = apply_num_cpus(&mut num_cpus, backend_toml, host);
        self.num_cpus = num_cpus;
        r
    }
}

/// Metropolis and Gibbs backend. A clone runs on the budget of its owner.
#[derive(Debug, Clone, Copy)]
pub struct CpuSampler {
    algorithm: Algorithm,
    gibbs: GibbsConfig,
}

impl CpuSampler {
    /// The algorithm that it runs.
    pub closed spec fn runs(&self) -> Algorithm {
        self.algorithm
    }

    /// Its Gibbs settings.
    pub closed spec fn gibbs(&self) -> GibbsConfig {
        self.gibbs
    }

    /// Models that it runs at once under a budget, on a host with this
    /// parallelism.
    pub open spec fn width(&self, budget: CoreBudget, host: usize) -> int {
        width_of(self.runs(), budget.cores(host) as int, self.gibbs().workers as int)
    }

    /// A sampler for `algorithm` with default settings.
    pub fn new(algorithm: Algorithm) -> (s: Self)
        ensures
            s.runs() == algorithm,
            s.gibbs().workers == DEFAULT_GIBBS_WORKERS,
            s.gibbs().max_colors is None,
            s.gibbs().parallelism == GibbsParallelism::Reads,
    {
        CpuSampler { algorithm, gibbs: GibbsConfig::default() }
    }

    /// Replace the Gibbs settings. The Metropolis path ignores them.
    pub fn with_gibbs_config(self, gibbs: GibbsConfig) -> (s: Self)
        ensures
            s.gibbs() == gibbs,
            s.runs() == self.runs(),
    {
        CpuSampler { algorithm: self.algorithm, gibbs }
    }

    /// Models to run at once on a host with this parallelism.
    pub fn stream_width(&self, budget: &CoreBudget, host: usize) -> (w: usize)
        ensures
            w == self.width(*budget, host),
    {
        let cores: usize = budget.get(host);
        match self.algorithm {
            Algorithm::Sa => cores,
            Algorithm::Gibbs => {
                let group: usize = if self.gibbs.workers < 1 {
                    1
                } else {
                    self.gibbs.workers
                };
                let width: usize = cores / group;
                if width < 1 {
                    1
                } else {
                    width
                }
            },
        }
    }

    /// The width that is declared before any setting is known.
    pub fn declared_stream_width(host: usize) -> (w: u32)
        ensures
            w == declared_width(Algorithm::Sa, host),
    {
        wire_width(host)
    }

    /// Apply the operator settings to the budget.
    pub fn apply_config(&self, budget: &mut CoreBudget, backend_toml: &str, host: usize) -> (r:
        Result<(), NumCpusError>)
        ensures
            final(budget).stored() == budget_after(
                old(budget).stored(),
                num_cpus_of(backend_toml@),
                host,
            ),
            r is Ok <==> num_cpus_of(backend_toml@) is Ok,
            r matches Err(e) ==> num_cpus_of(backend_toml@) == Err::<Option<usize>, NumCpusError>(
                e,
            ),
    {
        budget.apply(backend_toml, host)
    }

    /// Serve one job. A colour budget that the graph cannot meet is a size
    /// bound: the same job fails again in the same way.
    pub fn sample<R: Scalar, E: Fn(R) -> R, B: Fn(u64, R) -> bool>(
        &self,
        graph: &IsingGraph,
        params: &SampleParams,
        odds: &Odds<R, E, B>,
    ) -> (r: Result<Vec<SamplerResult>, SampleError>)
        requires
            graph.fits(),
            odds.total(),
            odds.ladder@.len() == params.rungs(),
        ensures
            r matches Err(e) ==> e == SampleError::Capacity,
            self.runs() == Algorithm::Sa ==> r is Ok,
            self.runs() == Algorithm::Gibbs ==> exists|classes: Seq<Seq<u32>>| #[trigger]
                colored(lattice(*graph), classes) && (r is Ok <==> self.gibbs().allows(
                    classes.len(),
                )),
            r matches Ok(results) ==> results@.len() == params.reads() && ising_results(
                *odds,
                *graph,
                *params,
                self.runs(),
                results@,
            ),
    {
        match self.algorithm {
            Algorithm::Gibbs => {
                match sample_gibbs_with(graph, params, &self.gibbs, odds) {
                    Ok(results) => Ok(results),
                    Err(_) => Err(SampleError::Capacity),
                }
            },
            Algorithm::Sa => Ok(sample_ising(graph, params, Algorithm::Sa, odds)),
        }
    }
}

/// A Gibbs backend that declares the Gibbs width.
#[derive(Debug)]
pub struct GibbsCpuSampler(
    /// The wrapped sampler.
    pub CpuSampler,
);

impl GibbsCpuSampler {
    /// One model per group of default workers.
    pub fn declared_stream_width(host: usize) -> (w: u32)
        ensures
            w == declared_width(Algorithm::Gibbs, host),
    {
        let width: usize = host / DEFAULT_GIBBS_WORKERS;
        wire_width(
            if width < 1 {
                1
            } else {
                width
            },
        )
    }

    /// Models to run at once.
    pub fn stream_width(&self, budget: &CoreBudget, host: usize) -> (w: usize)
        ensures
            w == self.0.width(*budget, host),
    {
        self.0.stream_width(budget, host)
    }
}

/// A fresh sampler runs at the width that its backend declares, up to the range
/// of the wire.
pub proof fn declared_width_is_the_default_width(s: CpuSampler, budget: CoreBudget, host: usize)
    requires
        budget.stored() == 0,
        s.gibbs().workers == DEFAULT_GIBBS_WORKERS,
    ensures
        declared_width(s.runs(), host) == wire_of(s.width(budget, host)),
{
}

/// A setting that was applied through one clone holds for every clone: all of
/// them run on the cores that were asked for, capped at the host.
pub proof fn every_clone_sees_an_applied_setting(
    s: CpuSampler,
    clone: CpuSampler,
    before: CoreBudget,
    after: CoreBudget,
    requested: usize,
    host: usize,
)
    requires
        clone == s,
        after.stored() == budget_after(before.stored(), Ok(Some(requested)), host),
    ensures
        after.cores(host) == core_budget_of(requested as int, host as int),
        clone.width(after, host) == s.width(after, host),
        clone.width(after, host) == width_of(
            s.runs(),
            core_budget_of(requested as int, host as int),
            s.gibbs().workers as int,
        ),
{
}

/// A request beyond the host runs at the width of the host.
pub proof fn oversized_request_runs_at_host_width(requested: int, host: int, workers: int)
    requires
        host >= 1,
        requested >= host,
    ensures
        core_budget_of(requested, host) == host,
        width_of(Algorithm::Sa, core_budget_of(requested, host), workers) == width_of(
            Algorithm::Sa,
            host,
            workers,
        ),
{
}

/// A request that the host can meet is met, and no budget is empty or beyond the
/// host.
pub proof fn a_request_within_the_host_is_met(requested: int, host: int)
    requires
        host >= 1,
    ensures
        1 <= requested <= host ==> core_budget_of(requested, host) == requested,
        1 <= core_budget_of(requested, host) <= host,
{
}

/// The groups of Gibbs workers fill the cores: they never take more cores than
/// there are, unless one group alone does, and no further group would fit.
pub proof fn gibbs_groups_fill_the_cores(cores: int, workers: int)
    requires
        cores >= 1,
        workers >= 1,
    ensures
        ({
            let w = width_of(Algorithm::Gibbs, cores, workers);
            &&& w >= 1
            &&& w == 1 || w * workers <= cores
            &&& cores < (w + 1) * workers
        }),
{
    let q = cores / workers;
    vstd::arithmetic::div_mod::lemma_fundamental_div_mod(cores, workers);
    assert(workers * q == q * workers) by (nonlinear_arith);
    assert((q + 1) * workers == q * workers + workers) by (nonlinear_arith);
    vstd::arithmetic::div_mod::lemma_mod_bound(cores, workers);
    vstd::arithmetic::div_mod::lemma_div_pos_is_pos(cores, workers);
    if q < 1 {
        assert(q * workers == 0) by (nonlinear_arith)
            requires
                q == 0,
        ;
        assert((1 + 1) * workers == 2 * workers);
    }
}

} // verus!
