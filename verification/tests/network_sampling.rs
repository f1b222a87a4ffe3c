use quip_miner_cpu::flatiron::graph::NetGraph;
use quip_miner_cpu::flatiron::sampler::{select_chi, BptnsConfig};
use quip_miner_cpu::flatiron_sampler::FlatironSampler;
use quip_miner_cpu::ising::IsingGraph as Problem;
use quip_miner_cpu::mps::schedule::{num_rungs, split_sweeps};
use quip_miner_cpu::sampler_core::{SampleParams as Settings, SamplerResult};
use quip_miner_cpu::scalar::Scalar;
use quip_protocol::scoring::energy_milli as score_energy;
use quip_solver_core::beta::{default_ising_beta_range, geometric_beta_schedule};
use quip_solver_core::{IsingGraph, SampleParams};
use rand::rngs::SmallRng;
use rand::{Rng, SeedableRng};
use std::cell::RefCell;
use std::time::{Duration, Instant};

/// A weight in thousandths; one that is not finite is 0.
fn milli(x: f64) -> i32 {
    if x.is_finite() {
        (x * 1000.0).round() as i32
    } else {
        0
    }
}

/// A problem with its weights in thousandths.
fn problem(g: &IsingGraph) -> Problem {
    Problem::new(
        g.h.iter().map(|&x| milli(x)).collect(),
        g.j.iter().map(|&x| milli(x)).collect(),
        g.edges.to_vec(),
    )
}

fn settings(p: &SampleParams) -> Settings {
    Settings {
        num_reads: p.num_reads,
        num_sweeps: p.num_sweeps,
        sweeps_per_beta: p.sweeps_per_beta,
        seed: p.seed,
    }
}

#[derive(Clone, Copy, Debug, PartialEq)]
struct Double(f64);

impl Scalar for Double {
    fn from_milli(m: i32) -> Self {
        Double(f64::from(m) / 1000.0)
    }
    fn ratio(num: usize, den: usize) -> Self {
        Double(num as f64 / den as f64)
    }
    fn sum(self, other: Self) -> Self {
        Double(self.0 + other.0)
    }
    fn difference(self, other: Self) -> Self {
        Double(self.0 - other.0)
    }
    fn product(self, other: Self) -> Self {
        Double(self.0 * other.0)
    }
    fn quotient(self, other: Self) -> Self {
        Double(self.0 / other.0)
    }
    fn square_root(self) -> Self {
        Double(self.0.sqrt())
    }
    fn less(self, other: Self) -> bool {
        self.0 < other.0
    }
    fn at_least(self, other: Self) -> bool {
        self.0 >= other.0
    }
}

fn doubles(v: &[f64]) -> Vec<Double> {
    v.iter().map(|&x| Double(x)).collect()
}

fn floats(v: &[Double]) -> Vec<f64> {
    v.iter().map(|x| x.0).collect()
}

/// Tolerance of the factorizations.
const EPS: Double = Double(1e-14);

/// A draw of 53 bits as a number in `[0, 1)`.
fn unit(bits: u64) -> f64 {
    bits as f64 * (1.0 / (1u64 << 53) as f64)
}

/// The ladder of inverse temperatures of a job of `steps` steps.
fn ladder(g: &IsingGraph, p: &SampleParams, steps: usize) -> Vec<Double> {
    let (hot, cold) = p.beta_range.unwrap_or_else(|| default_ising_beta_range(g));
    doubles(&geometric_beta_schedule(hot, cold, num_rungs(steps, p.sweeps_per_beta)))
}

fn tanh(x: Double) -> Double {
    Double(x.0.tanh())
}

fn exp(x: Double) -> Double {
    Double(x.0.exp())
}

/// The least weight that a bond is divided by.
const FLOOR: Double = Double(1e-12);

fn run(
    g: &IsingGraph,
    p: &SampleParams,
    cfg: &BptnsConfig,
    sampler: &FlatironSampler,
) -> Vec<SamplerResult> {
    let (steps, _) = split_sweeps(p.num_sweeps);
    let started = Instant::now();
    let limit = Duration::from_millis(cfg.time_budget_ms);
    sampler.sample(
        &problem(g),
        &settings(p),
        EPS,
        FLOOR,
        &ladder(g, p, steps),
        &tanh,
        &exp,
        &|_: usize| started.elapsed() >= limit,
        &|bits: u64, x: Double| unit(bits) < x.0,
    )
}

fn sample_ising_bptns(g: &IsingGraph, p: &SampleParams, cfg: &BptnsConfig) -> Vec<SamplerResult> {
    run(g, p, cfg, &FlatironSampler::new(*cfg))
}

fn cfg(chi_max: usize) -> BptnsConfig {
    BptnsConfig {
        chi_max,
        time_budget_ms: 0,
        flop_budget: 1_250_000_000,
    }
}

fn params(num_reads: usize, num_sweeps: usize, seed: u64) -> SampleParams {
    SampleParams {
        num_reads,
        num_sweeps,
        seed,
        ..Default::default()
    }
}

fn ferro_chain(n: usize) -> IsingGraph {
    IsingGraph::new(
        vec![0.0; n],
        vec![-1.0; n - 1],
        (0..n - 1).map(|i| (i, i + 1)).collect(),
    )
}

fn random_sparse(n: usize, m: usize, seed: u64) -> IsingGraph {
    let mut rng = SmallRng::seed_from_u64(seed);
    let mut edges = Vec::with_capacity(m);
    let mut j = Vec::with_capacity(m);
    for _ in 0..m {
        let u = rng.gen_range(0..n);
        let mut v = rng.gen_range(0..n);
        if v == u {
            v = (u + 1) % n;
        }
        edges.push((u, v));
        j.push(if rng.gen::<bool>() { 1.0 } else { -1.0 });
    }
    let h: Vec<f64> = (0..n).map(|_| f64::from(rng.gen_range(-1..=1))).collect();
    IsingGraph::new(h, j, edges)
}

fn best_energy(results: &[SamplerResult]) -> i64 {
    results.iter().map(|r| r.energy_milli).min().unwrap_or(0)
}

fn assert_results_well_formed(results: &[SamplerResult], g: &IsingGraph, want: usize) {
    assert_eq!(results.len(), want);
    for r in results {
        assert_eq!(r.spins.len(), g.h.len());
        assert!(r.spins.iter().all(|&s| s == 1 || s == -1), "{:?}", r.spins);
        assert_eq!(
            r.energy_milli,
            score_energy(&r.spins, &g.h, &g.j, &g.edges),
            "reported energy must equal consensus scoring"
        );
    }
}

#[test]
fn a_low_degree_ring_affords_a_real_bond_dimension() {
    let g = IsingGraph::new(
        vec![0.0; 8],
        vec![1.0; 8],
        (0..8).map(|i| (i, (i + 1) % 8)).collect(),
    );
    let net = NetGraph::from_graph(&problem(&g));
    let got = select_chi(&net, 64, &cfg(8));
    assert!(got >= 2, "an 8-ring at 64 steps affords chi >= 2, got {got}");
    assert_eq!(select_chi(&net, 64, &cfg(1)), 1);
}

/// The production mechanism, pinned: at degree 18 to 20 the site-tensor
/// memory `16 chi^degree` exceeds the 64 MB cap for every `chi >= 2`,
/// so the kernel runs as mean field on `advantage2-system1`-like graphs.
#[test]
fn production_degrees_force_the_bond_dimension_to_one() {
    // A star of degree 20 plus a ring, standing in for the pivot's max
    // degree: 16 * 2^20 = 16.8 MB for one site is already a quarter of
    // the cap, and the flop budget fails long before that.
    let mut edges: Vec<(usize, usize)> = (1..=20).map(|i| (0, i)).collect();
    edges.extend((1..20).map(|i| (i, i + 1)));
    let m = edges.len();
    let g = IsingGraph::new(vec![0.0; 21], vec![1.0; m], edges);
    let net = NetGraph::from_graph(&problem(&g));
    assert_eq!(net.max_degree(), 20);
    assert_eq!(select_chi(&net, 64, &cfg(8)), 1);
}

#[test]
fn an_edgeless_graph_is_capped_only_by_chi_max() {
    let net = NetGraph::from_graph(&problem(&IsingGraph::new(vec![0.0; 64], vec![], vec![])));
    assert_eq!(select_chi(&net, 64, &cfg(8)), 8);
    assert_eq!(select_chi(&NetGraph::from_graph(&problem(&IsingGraph::new(vec![], vec![], vec![]))), 64, &cfg(4)), 4);
}

#[test]
fn selection_is_monotone_in_the_flop_budget_and_never_zero() {
    let g = ferro_chain(64);
    let net = NetGraph::from_graph(&problem(&g));
    let mut small = cfg(8);
    small.flop_budget = 1_000;
    let mut large = cfg(8);
    large.flop_budget = 1_000_000_000_000;
    let lo = select_chi(&net, 64, &small);
    let hi = select_chi(&net, 64, &large);
    assert!(lo >= 1 && hi <= 8 && lo <= hi, "lo {lo} hi {hi}");
}

#[test]
fn sampling_returns_one_well_formed_result_per_read() {
    let g = ferro_chain(12);
    let results = sample_ising_bptns(&g, &params(8, 64, 42), &cfg(8));
    assert_results_well_formed(&results, &g, 8);
}

#[test]
fn an_empty_graph_returns_empty_spins_with_zero_energy() {
    let g = IsingGraph::new(vec![], vec![], vec![]);
    let results = sample_ising_bptns(&g, &params(3, 64, 1), &cfg(8));
    assert_eq!(results.len(), 3);
    assert!(results.iter().all(|r| r.spins.is_empty() && r.energy_milli == 0));
}

#[test]
fn zero_reads_still_produce_one_result() {
    let g = ferro_chain(6);
    assert_eq!(sample_ising_bptns(&g, &params(0, 64, 3), &cfg(8)).len(), 1);
}

#[test]
fn a_fields_only_problem_is_solved_exactly() {
    let h = vec![0.7, -1.2, 0.3, -0.5, 2.0, -0.1, 0.9, -1.7];
    let g = IsingGraph::new(h.clone(), vec![], vec![]);
    let results = sample_ising_bptns(&g, &params(8, 64, 21), &cfg(8));
    let want: Vec<i8> = h.iter().map(|&x| if x > 0.0 { -1i8 } else { 1 }).collect();
    for r in &results {
        assert_eq!(r.spins, want, "fields-only must be exact on every read");
    }
}

/// The decisive qualitative test: on a zero-field ferromagnetic chain a
/// mean-field state cannot break the global flip symmetry, but a network
/// with real bonds carries the correlation, and sequential conditioning
/// breaks the symmetry spin by spin. Reaching the ground state here is
/// what separates this kernel from `cpu-mfa`.
#[test]
fn a_ferromagnetic_chain_reaches_its_ground_state_through_conditioning() {
    let g = ferro_chain(16);
    let results = sample_ising_bptns(&g, &params(8, 64, 22), &cfg(8));
    assert_results_well_formed(&results, &g, 8);
    assert_eq!(best_energy(&results), -15_000);
}

#[test]
fn a_duplicate_edge_merges_and_still_reaches_the_doubled_optimum() {
    let g = IsingGraph::new(vec![0.0, 0.0], vec![-1.0, -1.0], vec![(0, 1), (0, 1)]);
    let results = sample_ising_bptns(&g, &params(4, 64, 13), &cfg(8));
    assert_results_well_formed(&results, &g, 4);
    assert!(results.iter().all(|r| r.energy_milli == -2000));
}

#[test]
fn defensive_graphs_are_sampled_rather_than_rejected() {
    let g = IsingGraph::new(
        vec![0.5, -0.25, f64::NAN],
        vec![1.0, -1.0],
        vec![(0, 0), (0, 9), (0, 1), (1, 2)],
    );
    let results = sample_ising_bptns(&g, &params(4, 32, 11), &cfg(8));
    assert_eq!(results.len(), 4);
    for r in &results {
        assert_eq!(r.spins.len(), 3);
        assert!(r.spins.iter().all(|&s| s == 1 || s == -1));
    }
}

/// Exhaustive minimum over all `2^n` configurations. Only for `n <= 20`.
fn brute_force_min(g: &IsingGraph) -> i64 {
    let n = g.h.len();
    let mut best = i64::MAX;
    for mask in 0..(1u32 << n) {
        let spins: Vec<i8> = (0..n)
            .map(|i| if (mask >> i) & 1 == 0 { 1i8 } else { -1 })
            .collect();
        best = best.min(score_energy(&spins, &g.h, &g.j, &g.edges));
    }
    best
}

#[test]
fn a_fixed_set_of_random_sparse_instances_reaches_the_optimum_at_least_eighty_percent() {
    let mut hits = 0usize;
    let mut misses: Vec<(u64, i64, i64)> = Vec::new();
    for seed in 0..25u64 {
        let g = random_sparse(12, 24, 3000 + seed);
        let optimum = brute_force_min(&g);
        let results = sample_ising_bptns(&g, &params(16, 96, seed), &cfg(4));
        let got = best_energy(&results);
        assert!(got >= optimum, "seed {seed}: energy below the optimum");
        if got == optimum {
            hits += 1;
        } else {
            misses.push((seed, got, optimum));
        }
    }
    assert!(
        hits >= 20,
        "hit the optimum on {hits} of 25 instances; misses: {misses:?}"
    );
}

#[test]
fn the_same_seed_produces_byte_identical_results() {
    let g = random_sparse(24, 60, 808);
    let first = sample_ising_bptns(&g, &params(16, 96, 71), &cfg(4));
    let second = sample_ising_bptns(&g, &params(16, 96, 71), &cfg(4));
    assert_eq!(first, second);
}

#[test]
fn different_seeds_produce_different_results() {
    let g = random_sparse(24, 60, 808);
    let a = sample_ising_bptns(&g, &params(16, 96, 71), &cfg(4));
    let b = sample_ising_bptns(&g, &params(16, 96, 72), &cfg(4));
    assert_ne!(
        a.iter().map(|r| &r.spins).collect::<Vec<_>>(),
        b.iter().map(|r| &r.spins).collect::<Vec<_>>(),
        "the seed must reach the sampler"
    );
}

#[test]
fn seed_zero_still_diversifies_across_reads() {
    let g = random_sparse(24, 70, 909);
    let results = sample_ising_bptns(&g, &params(16, 96, 0), &cfg(4));
    let distinct: std::collections::BTreeSet<&Vec<i8>> =
        results.iter().map(|r| &r.spins).collect();
    assert!(distinct.len() > 1, "every read identical at seed 0");
}

#[test]
fn a_fired_valve_still_returns_complete_polished_results() {
    let g = random_sparse(60, 150, 707);
    let stopped = BptnsConfig {
        chi_max: 4,
        time_budget_ms: 1,
        flop_budget: 1_250_000_000,
    };
    let results = sample_ising_bptns(&g, &params(8, 256, 61), &stopped);
    assert_results_well_formed(&results, &g, 8);
    for r in &results {
        for var in 0..g.h.len() {
            let mut probe = r.spins.clone();
            probe[var] = -probe[var];
            assert!(
                score_energy(&probe, &g.h, &g.j, &g.edges) >= r.energy_milli,
                "flipping {var} lowers the energy, so the polish did not run"
            );
        }
    }
}

#[test]
fn a_generous_valve_does_not_change_the_answer_on_a_small_problem() {
    let g = ferro_chain(12);
    let with_valve = BptnsConfig {
        chi_max: 8,
        time_budget_ms: 60_000,
        flop_budget: 1_250_000_000,
    };
    assert_eq!(
        sample_ising_bptns(&g, &params(8, 64, 67), &cfg(8)),
        sample_ising_bptns(&g, &params(8, 64, 67), &with_valve),
        "a valve that never fires must not change the output"
    );
}

fn test_cfg() -> BptnsConfig {
    BptnsConfig {
        chi_max: 8,
        time_budget_ms: 0,
        flop_budget: 1_250_000_000,
    }
}

fn tiny_ferro() -> IsingGraph {
    IsingGraph::new(vec![0.0, 0.0], vec![-1.0], vec![(0, 1)])
}

fn tiny_params(num_reads: usize) -> SampleParams {
    SampleParams {
        num_reads,
        num_sweeps: 64,
        seed: 42,
        ..Default::default()
    }
}

#[test]
fn flatiron_sampler_samples_and_reports_consensus_energies() {
    let sampler = FlatironSampler::new(test_cfg());
    let results = run(&tiny_ferro(), &tiny_params(4), &test_cfg(), &sampler);
    assert_eq!(results.len(), 4);
    for r in &results {
        assert_eq!(r.spins.len(), 2);
        assert_eq!(r.energy_milli, -1000, "ferro pair must align");
    }
}

#[test]
fn flatiron_stream_width_is_at_least_one() {
    assert!(FlatironSampler::new(test_cfg()).stream_width(0) >= 1);
}

#[test]
fn the_documented_settings_are_the_default() {
    let cfg = BptnsConfig::new(8);
    assert_eq!(cfg.chi_max, 8);
    assert_eq!(cfg.time_budget_ms, 2000);
    assert_eq!(cfg.flop_budget, 1_250_000_000);
}

/// A chain of 64 spins has 62 sites of degree 2 and two of degree 1. At bond
/// dimension 4 a step takes 50 * 8 * 8 * 8 flops for each of 61 bonds, and
/// 50 * 8 * 2 * 2 for each of the two at the ends.
#[test]
fn the_flop_budget_selects_the_bond_dimension_exactly() {
    let net = NetGraph::from_graph(&problem(&ferro_chain(64)));
    let per_step: u64 = 61 * 25_600 + 2 * 1_600;
    let mut exact = cfg(4);
    exact.flop_budget = 64 * per_step;
    assert_eq!(select_chi(&net, 64, &exact), 4);
    exact.flop_budget -= 1;
    assert_eq!(select_chi(&net, 64, &exact), 3);
}

#[test]
fn the_time_is_asked_for_before_every_step_of_the_network() {
    let g = ferro_chain(6);
    let p = params(2, 64, 3);
    let (steps, _) = split_sweeps(p.num_sweeps);
    let asked = RefCell::new(Vec::new());
    let limited = BptnsConfig { time_budget_ms: 1, ..cfg(4) };
    let results = FlatironSampler::new(limited).sample(
        &problem(&g),
        &settings(&p),
        EPS,
        FLOOR,
        &ladder(&g, &p, steps),
        &tanh,
        &exp,
        &|k: usize| {
            asked.borrow_mut().push(k);
            k >= 3
        },
        &|bits: u64, x: Double| unit(bits) < x.0,
    );
    assert_eq!(results.len(), 2);
    assert_eq!(*asked.borrow(), [0, 1, 2, 3]);
}
