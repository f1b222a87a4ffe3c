//! What each backend advertises to the coordinator.
use vstd::prelude::*;

verus! {

/// Node limit of the annealing backends.
pub const DEFAULT_MAX_NODES: u32 = 100_000;

/// Edge limit of the annealing backends.
pub const DEFAULT_MAX_EDGES: u32 = 1_000_000;

/// Node limit of the tensor-network backends. A memory bound, not a quality
/// bound.
pub const TENSOR_MAX_NODES: u32 = 65_536;

/// Edge limit of the tensor-network backends.
pub const TENSOR_MAX_EDGES: u32 = 524_288;

/// Sampling bounds that the coordinator interpolates between by difficulty.
#[derive(Debug, Clone, Copy, PartialEq, Eq, Structural)]
pub struct AdaptBounds {
    /// Fewest sweeps of a read.
    pub min_sweeps: u32,
    /// Most sweeps of a read.
    pub max_sweeps: u32,
    /// Fewest reads.
    pub min_reads: u32,
    /// Most reads.
    pub max_reads: u32,
    /// Multiplier of the wanted solutions for the reads floor; 0 disables it.
    pub reads_solution_min_factor: u32,
    /// Multiplier of the wanted solutions for the reads ceiling; 0 disables it.
    pub reads_solution_max_factor: u32,
    /// Multiplier of the wanted solutions for the last reads floor.
    pub reads_solution_floor_factor: u32,
}

impl AdaptBounds {
    /// The reads part of two envelopes is the same.
    pub open spec fn same_reads(&self, other: &AdaptBounds) -> bool {
        &&& self.min_reads == other.min_reads
        &&& self.max_reads == other.max_reads
        &&& self.reads_solution_min_factor == other.reads_solution_min_factor
        &&& self.reads_solution_max_factor == other.reads_solution_max_factor
        &&& self.reads_solution_floor_factor == other.reads_solution_floor_factor
    }
}

/// The envelope with these sweeps and the reads that the annealers share.
pub open spec fn shared_reads(min_sweeps: u32, max_sweeps: u32) -> AdaptBounds {
    AdaptBounds {
        min_sweeps,
        max_sweeps,
        min_reads: 64,
        max_reads: 512,
        reads_solution_min_factor: 4,
        reads_solution_max_factor: 8,
        reads_solution_floor_factor: 0,
    }
}

/// The envelope with these sweeps and the reads that the annealers share.
fn with_shared_reads(min_sweeps: u32, max_sweeps: u32) -> (b: AdaptBounds)
    ensures
        b == shared_reads(min_sweeps, max_sweeps),
{
    AdaptBounds {
        min_sweeps,
        max_sweeps,
        min_reads: 64,
        max_reads: 512,
        reads_solution_min_factor: 4,
        reads_solution_max_factor: 8,
        reads_solution_floor_factor: 0,
    }
}

/// The envelope of the Metropolis and Gibbs annealers.
pub fn cpu_adapt() -> (b: AdaptBounds)
    ensures
        b == shared_reads(64, 1024),
{
    with_shared_reads(64, 1024)
}

/// The envelope of simulated bifurcation.
///
/// A short ramp gives the bifurcation no time to separate, and a step costs
/// less than a Metropolis sweep, so both sweep bounds are higher.
pub fn cpu_sb_adapt() -> (b: AdaptBounds)
    ensures
        b == shared_reads(256, 8192),
{
    with_shared_reads(256, 8192)
}

/// The envelope of the tensor-network backends.
pub fn cpu_mps_adapt() -> (b: AdaptBounds)
    ensures
        b == shared_reads(64, 1024),
{
    with_shared_reads(64, 1024)
}

/// The envelope of multi-spin annealing: the read count is pinned at two
/// replica words.
pub open spec fn pinned_reads() -> AdaptBounds {
    AdaptBounds {
        min_sweeps: 7392,
        max_sweeps: 29568,
        min_reads: 128,
        max_reads: 128,
        reads_solution_min_factor: 0,
        reads_solution_max_factor: 0,
        reads_solution_floor_factor: 0,
    }
}

/// The envelope of multi-spin annealing.
pub fn cpu_msa_adapt() -> (b: AdaptBounds)
    ensures
        b == pinned_reads(),
{
    AdaptBounds {
        min_sweeps: 7392,
        max_sweeps: 29568,
        min_reads: 128,
        max_reads: 128,
        reads_solution_min_factor: 0,
        reads_solution_max_factor: 0,
        reads_solution_floor_factor: 0,
    }
}

/// Every backend with the shared read bounds stays comparable in the reads
/// dimension, whatever its sweep bounds.
pub proof fn shared_envelopes_agree_on_reads(a: u32, b: u32, c: u32, d: u32)
    ensures
        shared_reads(a, b).same_reads(&shared_reads(c, d)),
{
}

/// What a backend advertises.
#[derive(Debug)]
pub struct BackendIdentity {
    /// Backend name.
    pub backend: &'static str,
    /// Algorithm name.
    pub algorithm: &'static str,
    /// Most nodes of a job.
    pub max_nodes: u32,
    /// Most edges of a job.
    pub max_edges: u32,
    /// Capability names.
    pub features: Vec<&'static str>,
    /// Sampling envelope.
    pub adapt: AdaptBounds,
}

impl BackendIdentity {
    /// The CPU backend for `algorithm` within these limits.
    pub open spec fn advertises(
        &self,
        algorithm: Seq<char>,
        max_nodes: u32,
        max_edges: u32,
        adapt: AdaptBounds,
    ) -> bool {
        &&& self.backend@ == "cpu"@
        &&& self.algorithm@ == algorithm
        &&& self.max_nodes == max_nodes
        &&& self.max_edges == max_edges
        &&& self.adapt == adapt
    }

    /// The backend streams several jobs at once and advertises nothing else.
    pub open spec fn streams(&self) -> bool {
        self.features@.len() == 1 && self.features@[0]@ == "streaming"@
    }
}

/// Identity of Metropolis annealing.
pub fn cpu_sa_identity() -> (id: BackendIdentity)
    ensures
        id.advertises("sa"@, DEFAULT_MAX_NODES, DEFAULT_MAX_EDGES, shared_reads(64, 1024)),
        id.streams(),
{
    BackendIdentity {
        backend: "cpu",
        algorithm: "sa",
        max_nodes: DEFAULT_MAX_NODES,
        max_edges: DEFAULT_MAX_EDGES,
        features: vec!["streaming"],
        adapt: cpu_adapt(),
    }
}

/// Identity of chromatic Gibbs sampling.
pub fn cpu_gibbs_identity() -> (id: BackendIdentity)
    ensures
        id.advertises("gibbs"@, DEFAULT_MAX_NODES, DEFAULT_MAX_EDGES, shared_reads(64, 1024)),
        id.streams(),
{
    BackendIdentity {
        backend: "cpu",
        algorithm: "gibbs",
        max_nodes: DEFAULT_MAX_NODES,
        max_edges: DEFAULT_MAX_EDGES,
        features: vec!["streaming"],
        adapt: cpu_adapt(),
    }
}

/// Identity of tabulated-threshold annealing.
pub fn cpu_fsa_identity() -> (id: BackendIdentity)
    ensures
        id.advertises("fsa"@, DEFAULT_MAX_NODES, DEFAULT_MAX_EDGES, shared_reads(64, 1024)),
        id.features@.len() == 0,
{
    BackendIdentity {
        backend: "cpu",
        algorithm: "fsa",
        max_nodes: DEFAULT_MAX_NODES,
        max_edges: DEFAULT_MAX_EDGES,
        features: Vec::new(),
        adapt: cpu_adapt(),
    }
}

/// Identity of multi-spin coded annealing.
pub fn cpu_msa_identity() -> (id: BackendIdentity)
    ensures
        id.advertises("msa"@, DEFAULT_MAX_NODES, DEFAULT_MAX_EDGES, pinned_reads()),
        id.features@.len() == 0,
{
    BackendIdentity {
        backend: "cpu",
        algorithm: "msa",
        max_nodes: DEFAULT_MAX_NODES,
        max_edges: DEFAULT_MAX_EDGES,
        features: Vec::new(),
        adapt: cpu_msa_adapt(),
    }
}

/// Identity of simulated bifurcation.
pub fn cpu_sb_identity() -> (id: BackendIdentity)
    ensures
        id.advertises("sb"@, DEFAULT_MAX_NODES, DEFAULT_MAX_EDGES, shared_reads(256, 8192)),
        id.features@.len() == 0,
{
    BackendIdentity {
        backend: "cpu",
        algorithm: "sb",
        max_nodes: DEFAULT_MAX_NODES,
        max_edges: DEFAULT_MAX_EDGES,
        features: Vec::new(),
        adapt: cpu_sb_adapt(),
    }
}

/// Identity of the matrix-product-state backend.
pub fn cpu_mps_identity() -> (id: BackendIdentity)
    ensures
        id.advertises("mps"@, TENSOR_MAX_NODES, TENSOR_MAX_EDGES, shared_reads(64, 1024)),
        id.features@.len() == 0,
{
    BackendIdentity {
        backend: "cpu",
        algorithm: "mps",
        max_nodes: TENSOR_MAX_NODES,
        max_edges: TENSOR_MAX_EDGES,
        features: Vec::new(),
        adapt: cpu_mps_adapt(),
    }
}

/// Identity of mean-field annealing: the matrix-product kernel at bond
/// dimension 1.
pub fn cpu_mfa_identity() -> (id: BackendIdentity)
    ensures
        id.advertises("mfa"@, TENSOR_MAX_NODES, TENSOR_MAX_EDGES, shared_reads(64, 1024)),
        id.features@.len() == 0,
{
    BackendIdentity {
        backend: "cpu",
        algorithm: "mfa",
        max_nodes: TENSOR_MAX_NODES,
        max_edges: TENSOR_MAX_EDGES,
        features: Vec::new(),
        adapt: cpu_mps_adapt(),
    }
}

/// Identity of the graph-shaped tensor network.
pub fn cpu_flatiron_identity() -> (id: BackendIdentity)
    ensures
        id.advertises("flatiron"@, TENSOR_MAX_NODES, TENSOR_MAX_EDGES, shared_reads(64, 1024)),
        id.features@.len() == 0,
{
    BackendIdentity {
        backend: "cpu",
        algorithm: "flatiron",
        max_nodes: TENSOR_MAX_NODES,
        max_edges: TENSOR_MAX_EDGES,
        features: Vec::new(),
        adapt: cpu_mps_adapt(),
    }
}

} // verus!
