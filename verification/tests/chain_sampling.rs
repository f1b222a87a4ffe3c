use quip_miner_cpu::ising::IsingGraph as Problem;
use quip_miner_cpu::mps::chain::ChainProblem;
use quip_miner_cpu::mps::sampler::{select_chi, InitMode, MpsConfig};
use quip_miner_cpu::mps::schedule::{job_schedule, num_rungs, split_sweeps};
use quip_miner_cpu::mps::state::Mps;
use quip_miner_cpu::mps_sampler::MpsSampler;
use quip_miner_cpu::sampler_core::{SampleParams as Settings, SamplerResult};
use quip_miner_cpu::scalar::Scalar;
use quip_protocol::scoring::energy_milli as score_energy;
use quip_solver_core::beta::{default_ising_beta_range, geometric_beta_schedule};
use quip_solver_core::{IsingGraph, SampleParams};
use rand::rngs::SmallRng;
use rand::{Rng, SeedableRng};
use std::cell::RefCell;
use std::time::{Duration, Instant};

/// A weight in thousandths; one that is not finite is 0.
fn milli(x: f64) -> i32 {
    if x.is_finite() {
        (x * 1000.0).round() as i32
    } else {
        0
    }
}

/// A problem with its weights in thousandths.
fn problem(g: &IsingGraph) -> Problem {
    Problem::new(
        g.h.iter().map(|&x| milli(x)).collect(),
        g.j.iter().map(|&x| milli(x)).collect(),
        g.edges.to_vec(),
    )
}

fn settings(p: &SampleParams) -> Settings {
    Settings {
        num_reads: p.num_reads,
        num_sweeps: p.num_sweeps,
        sweeps_per_beta: p.sweeps_per_beta,
        seed: p.seed,
    }
}

#[derive(Clone, Copy, Debug, PartialEq)]
struct Double(f64);

impl Scalar for Double {
    fn from_milli(m: i32) -> Self {
        Double(f64::from(m) / 1000.0)
    }
    fn ratio(num: usize, den: usize) -> Self {
        Double(num as f64 / den as f64)
    }
    fn sum(self, other: Self) -> Self {
        Double(self.0 + other.0)
    }
    fn difference(self, other: Self) -> Self {
        Double(self.0 - other.0)
    }
    fn product(self, other: Self) -> Self {
        Double(self.0 * other.0)
    }
    fn quotient(self, other: Self) -> Self {
        Double(self.0 / other.0)
    }
    fn square_root(self) -> Self {
        Double(self.0.sqrt())
    }
    fn less(self, other: Self) -> bool {
        self.0 < other.0
    }
    fn at_least(self, other: Self) -> bool {
        self.0 >= other.0
    }
}

fn doubles(v: &[f64]) -> Vec<Double> {
    v.iter().map(|&x| Double(x)).collect()
}

fn floats(v: &[Double]) -> Vec<f64> {
    v.iter().map(|x| x.0).collect()
}

/// Tolerance of the factorizations.
const EPS: Double = Double(1e-14);

/// A draw of 53 bits as a number in `[0, 1)`.
fn unit(bits: u64) -> f64 {
    bits as f64 * (1.0 / (1u64 << 53) as f64)
}

/// The ladder of inverse temperatures of a job of `steps` steps.
fn ladder(g: &IsingGraph, p: &SampleParams, steps: usize) -> Vec<Double> {
    let (hot, cold) = p.beta_range.unwrap_or_else(|| default_ising_beta_range(g));
    doubles(&geometric_beta_schedule(hot, cold, num_rungs(steps, p.sweeps_per_beta)))
}

fn tanh(x: Double) -> Double {
    Double(x.0.tanh())
}

fn exp(x: Double) -> Double {
    Double(x.0.exp())
}

fn anneal(
    chain: &ChainProblem,
    g: &IsingGraph,
    p: &SampleParams,
    steps: usize,
    chi: usize,
) -> Mps<Double> {
    let schedule = job_schedule(&problem(g), &ladder(g, p, steps), steps, p.sweeps_per_beta);
    quip_miner_cpu::mps::sampler::anneal(
        chain,
        &schedule,
        0,
        EPS,
        chi,
        &tanh,
        &exp,
        &|_: usize| true,
    )
}

fn run(g: &IsingGraph, p: &SampleParams, cfg: &MpsConfig, sampler: &MpsSampler) -> Vec<SamplerResult> {
    let (steps, _) = split_sweeps(p.num_sweeps);
    let started = Instant::now();
    let limit = Duration::from_millis(cfg.time_budget_ms);
    sampler.sample(
        &problem(g),
        &settings(p),
        EPS,
        &ladder(g, p, steps),
        &tanh,
        &exp,
        &|_: usize| started.elapsed() >= limit,
        &|bits: u64, x: Double| unit(bits) < x.0,
    )
}

fn sample_ising_mps(g: &IsingGraph, p: &SampleParams, cfg: &MpsConfig) -> Vec<SamplerResult> {
    run(g, p, cfg, &MpsSampler::new(*cfg))
}

fn cfg(chi_max: usize) -> MpsConfig {
    MpsConfig {
        chi_max,
        init: InitMode::Anneal,
        time_budget_ms: 0,
        flop_budget: 1_250_000_000,
    }
}

#[test]
fn a_tiny_problem_is_capped_by_the_budget_not_by_its_size() {
    // 8-node ring, span sum 14, 64 steps. Neither cap comes from the
    // problem's size: memory allows sqrt(6.7e7 / (16 * 8)) = 723, and the
    // flop budget allows cbrt(1.25e9 / (50 * 64 * 14)) = cbrt(27902) = 30.3,
    // so the flop cap binds just below chi_max at 30.
    assert_eq!(select_chi(8, 14, 64, &cfg(32)), 30);
    // Below that, chi_max binds instead.
    assert_eq!(select_chi(8, 14, 64, &cfg(4)), 4);
}

#[test]
fn a_graph_with_no_gates_is_capped_only_by_chi_max() {
    assert_eq!(select_chi(64, 0, 64, &cfg(32)), 32);
}

#[test]
fn the_production_topology_degrades_to_a_product_state() {
    // advantage2-system1 after reverse Cuthill-McKee: 4577 nodes,
    // span sum 7_544_619. No affordable bond dimension above 1 exists.
    assert_eq!(select_chi(4577, 7_544_619, 64, &cfg(32)), 1);
}

#[test]
fn the_memory_cap_binds_before_chi_max_on_a_wide_chain() {
    // 65536 nodes, no couplings, so only the 64 MB per-model cap applies:
    // sqrt(6.7e7 / (16 * 65536)) = 7.99 -> 7.
    assert_eq!(select_chi(65_536, 0, 64, &cfg(32)), 7);
}

#[test]
fn the_flop_cap_binds_on_a_long_quasi_one_dimensional_chain() {
    // A 2400-site nearest-neighbour chain has span sum 2399. At 64 steps
    // the budget allows cbrt(1.25e9 / (50 * 64 * 2399)) = cbrt(162.8) = 5.46,
    // so the flop cap binds at 5.
    assert_eq!(select_chi(2400, 2399, 64, &cfg(32)), 5);
}

#[test]
fn selection_never_returns_zero_and_never_exceeds_chi_max() {
    for &(n, span, steps, chi_max) in &[
        (0usize, 0u64, 1usize, 32usize),
        (1, 0, 1, 1),
        (10, 1_000_000_000, 256, 32),
        (100_000, 500_000, 256, 32),
        (4, 4, 256, 0),
    ] {
        let got = select_chi(n, span, steps, &cfg(chi_max));
        assert!(got >= 1, "n={n} span={span}: got {got}");
        assert!(
            got <= chi_max.max(1),
            "n={n} span={span}: got {got} above chi_max {chi_max}"
        );
    }
}

#[test]
fn selection_is_monotone_in_the_flop_budget() {
    let mut small = cfg(32);
    small.flop_budget = 1_000_000;
    let mut large = cfg(32);
    large.flop_budget = 1_000_000_000_000;
    assert!(select_chi(2400, 2399, 64, &small) <= select_chi(2400, 2399, 64, &large));
}

fn params(num_reads: usize, num_sweeps: usize, seed: u64) -> SampleParams {
    SampleParams {
        num_reads,
        num_sweeps,
        seed,
        ..Default::default()
    }
}

fn ferro_chain(n: usize) -> IsingGraph {
    IsingGraph::new(
        vec![0.0; n],
        vec![-1.0; n - 1],
        (0..n - 1).map(|i| (i, i + 1)).collect(),
    )
}

fn assert_results_well_formed(results: &[SamplerResult], g: &IsingGraph, want_reads: usize) {
    assert_eq!(results.len(), want_reads);
    for r in results {
        assert_eq!(r.spins.len(), g.h.len());
        assert!(r.spins.iter().all(|&s| s == 1 || s == -1), "{:?}", r.spins);
        assert_eq!(
            r.energy_milli,
            score_energy(&r.spins, &g.h, &g.j, &g.edges),
            "reported energy must equal consensus scoring"
        );
    }
}

#[test]
fn mod_sampling_returns_one_well_formed_result_per_read() {
    let g = ferro_chain(12);
    let results = sample_ising_mps(&g, &params(8, 64, 42), &cfg(8));
    assert_results_well_formed(&results, &g, 8);
}

#[test]
fn mod_an_empty_graph_returns_empty_spins_with_zero_energy() {
    let g = IsingGraph::new(vec![], vec![], vec![]);
    let results = sample_ising_mps(&g, &params(3, 64, 1), &cfg(32));
    assert_eq!(results.len(), 3);
    assert!(results
        .iter()
        .all(|r| r.spins.is_empty() && r.energy_milli == 0));
}

#[test]
fn a_single_node_lands_on_the_sign_of_its_own_field() {
    for (h, want) in [(2.5f64, -1i8), (-2.5, 1)] {
        let g = IsingGraph::new(vec![h], vec![], vec![]);
        let results = sample_ising_mps(&g, &params(4, 64, 7), &cfg(32));
        assert_eq!(results.len(), 4);
        for r in &results {
            assert_eq!(r.spins, vec![want], "h = {h}");
        }
    }
}

#[test]
fn mod_zero_reads_still_produce_one_result() {
    let g = ferro_chain(6);
    let results = sample_ising_mps(&g, &params(0, 64, 3), &cfg(8));
    assert_eq!(results.len(), 1);
}

#[test]
fn a_graph_with_no_fields_and_no_edges_scores_zero() {
    let g = IsingGraph::new(vec![0.0; 5], vec![], vec![]);
    let results = sample_ising_mps(&g, &params(4, 64, 9), &cfg(32));
    assert_results_well_formed(&results, &g, 4);
    assert!(results.iter().all(|r| r.energy_milli == 0));
}

#[test]
fn disconnected_components_are_each_solved() {
    // Two independent ferromagnetic pairs plus one isolated biased node.
    let g = IsingGraph::new(
        vec![0.0, 0.0, 0.0, 0.0, 1.5],
        vec![-1.0, -1.0],
        vec![(0, 1), (2, 3)],
    );
    let results = sample_ising_mps(&g, &params(8, 64, 5), &cfg(8));
    assert_results_well_formed(&results, &g, 8);
    let best = results.iter().map(|r| r.energy_milli).min().unwrap_or(0);
    assert_eq!(best, -3500, "optimum is -1 -1 -1.5 in milli units");
}

#[test]
fn mod_defensive_graphs_are_sampled_rather_than_rejected() {
    // Self-loop, out-of-range edge, short `j`, and a non-finite field.
    let g = IsingGraph::new(
        vec![0.5, -0.25, f64::NAN],
        vec![1.0, -1.0],
        vec![(0, 0), (0, 9), (0, 1), (1, 2)],
    );
    let results = sample_ising_mps(&g, &params(4, 32, 11), &cfg(8));
    assert_eq!(results.len(), 4);
    for r in &results {
        assert_eq!(r.spins.len(), 3);
        assert!(r.spins.iter().all(|&s| s == 1 || s == -1));
    }
}

#[test]
fn a_duplicate_edge_is_applied_twice() {
    // Duplicating a ferromagnetic bond doubles its weight, so the optimum
    // energy doubles too. The sampler must find it.
    let g = IsingGraph::new(vec![0.0, 0.0], vec![-1.0, -1.0], vec![(0, 1), (0, 1)]);
    let results = sample_ising_mps(&g, &params(4, 64, 13), &cfg(8));
    assert_results_well_formed(&results, &g, 4);
    assert!(results.iter().all(|r| r.energy_milli == -2000));
}

#[test]
fn a_graph_too_wide_for_a_real_bond_still_returns_results() {
    // Span sum large enough that `select_chi` returns 1.
    let n = 600;
    let edges: Vec<(usize, usize)> = (0..n).map(|i| (i, (i + 137) % n)).collect();
    let g = IsingGraph::new(vec![0.1; n], vec![-1.0; n], edges);
    let results = sample_ising_mps(&g, &params(2, 64, 17), &cfg(32));
    assert_results_well_formed(&results, &g, 2);
}

/// Exhaustive minimum over all `2^n` configurations, one flip at a time.
fn brute_force_min(g: &IsingGraph) -> i64 {
    let n = g.h.len();
    let mut near: Vec<Vec<(usize, i64)>> = vec![Vec::new(); n];
    for (k, &(u, v)) in g.edges.iter().enumerate() {
        near[u].push((v, i64::from(milli(g.j[k]))));
        near[v].push((u, i64::from(milli(g.j[k]))));
    }
    let mut spins = vec![1i64; n];
    let mut field: Vec<i64> = g.h.iter().map(|&x| i64::from(milli(x))).collect();
    for v in 0..n {
        for &(_, j) in &near[v] {
            field[v] += j;
        }
    }
    let mut energy = score_energy(&vec![1i8; n], &g.h, &g.j, &g.edges);
    let mut best = energy;
    for step in 1..(1u32 << n) {
        let v = step.trailing_zeros() as usize;
        energy -= 2 * spins[v] * field[v];
        spins[v] = -spins[v];
        for &(w, j) in &near[v] {
            field[w] += 2 * j * spins[v];
        }
        if energy < best {
            best = energy;
        }
    }
    best
}

fn best_energy(results: &[SamplerResult]) -> i64 {
    results.iter().map(|r| r.energy_milli).min().unwrap_or(0)
}

/// Deterministic sparse instance generator, so the whole set is fixed.
fn random_sparse(n: usize, m: usize, seed: u64) -> IsingGraph {
    let mut rng = SmallRng::seed_from_u64(seed);
    let mut edges = Vec::with_capacity(m);
    let mut j = Vec::with_capacity(m);
    for _ in 0..m {
        let u = rng.gen_range(0..n);
        let mut v = rng.gen_range(0..n);
        if v == u {
            v = (u + 1) % n;
        }
        edges.push((u, v));
        j.push(if rng.gen::<bool>() { 1.0 } else { -1.0 });
    }
    let h: Vec<f64> = (0..n).map(|_| f64::from(rng.gen_range(-1..=1))).collect();
    IsingGraph::new(h, j, edges)
}

#[test]
fn mod_a_fields_only_problem_is_solved_exactly() {
    let h = vec![0.7, -1.2, 0.3, -0.5, 2.0, -0.1, 0.9, -1.7];
    let g = IsingGraph::new(h.clone(), vec![], vec![]);
    let results = sample_ising_mps(&g, &params(8, 64, 21), &cfg(32));
    let want: Vec<i8> = h
        .iter()
        .map(|&x| if x > 0.0 { -1i8 } else { 1i8 })
        .collect();
    for r in &results {
        assert_eq!(r.spins, want, "fields-only must be exact on every read");
    }
}

#[test]
fn a_ferromagnetic_chain_reaches_its_ground_state() {
    let g = ferro_chain(16);
    let results = sample_ising_mps(&g, &params(8, 64, 22), &cfg(8));
    assert_results_well_formed(&results, &g, 8);
    assert_eq!(best_energy(&results), -15_000);
}

#[test]
fn the_smoke_ring_is_exact_at_bond_dimension_four() {
    // An 8-node ring has bandwidth 2 after reordering, so the largest cut
    // severs 2 edges and bond dimension 4 represents it without truncation.
    let g = IsingGraph::new(
        vec![0.2, -0.4, 0.1, 0.0, -0.3, 0.5, -0.1, 0.25],
        vec![1.0, -1.0, 1.0, 1.0, -1.0, -1.0, 1.0, -1.0],
        vec![
            (0, 1),
            (1, 2),
            (2, 3),
            (3, 4),
            (4, 5),
            (5, 6),
            (6, 7),
            (7, 0),
        ],
    );
    let results = sample_ising_mps(&g, &params(16, 128, 23), &cfg(4));
    assert_results_well_formed(&results, &g, 16);
    assert_eq!(best_energy(&results), brute_force_min(&g));
}

#[test]
fn a_fixed_set_of_random_sparse_instances_reaches_the_optimum_at_least_ninety_percent() {
    let mut hits = 0usize;
    let mut misses: Vec<(u64, i64, i64)> = Vec::new();
    let pool = tokio::runtime::Builder::new_multi_thread().build().expect("worker threads");
    let jobs: Vec<_> = (0..50u64)
        .map(|seed| {
            pool.spawn_blocking(move || {
                let g = random_sparse(12, 24, 3000 + seed);
                let optimum = brute_force_min(&g);
                let results = sample_ising_mps(&g, &params(16, 96, seed), &cfg(8));
                (seed, best_energy(&results), optimum)
            })
        })
        .collect();
    for job in jobs {
        let (seed, got, optimum) = pool.block_on(job).expect("a finished job");
        assert!(got >= optimum, "seed {seed}: energy below the optimum");
        if got == optimum {
            hits += 1;
        } else {
            misses.push((seed, got, optimum));
        }
    }
    assert!(
        hits >= 45,
        "hit the optimum on {hits} of 50 instances; misses: {misses:?}"
    );
}

/// The sampler must beat brute-force guessing by a wide margin.
///
/// The bound is the *minimum* of 2048 uniform draws rather than a multiple
/// of their standard deviation: every read the sampler returns has to be
/// better than the best of 2048 random guesses. A sigma multiple is the
/// wrong shape here. This instance's true optimum is -43000, only 4.88
/// standard deviations below the random mean, so any threshold at or above
/// 5 sigma is unreachable even for a perfect solver.
#[test]
fn the_sampler_beats_the_best_of_two_thousand_random_configurations() {
    let g = random_sparse(24, 60, 4242);
    let mut rng = SmallRng::seed_from_u64(999);
    let mut energies = Vec::with_capacity(2048);
    for _ in 0..2048 {
        let spins: Vec<i8> = (0..24)
            .map(|_| if rng.gen::<bool>() { 1i8 } else { -1 })
            .collect();
        energies.push(score_energy(&spins, &g.h, &g.j, &g.edges));
    }
    let random_best = *energies.iter().min().expect("2048 draws");
    let random_mean = energies.iter().sum::<i64>() as f64 / energies.len() as f64;

    let results = sample_ising_mps(&g, &params(32, 96, 31), &cfg(8));
    let sampler_mean =
        results.iter().map(|r| r.energy_milli as f64).sum::<f64>() / results.len() as f64;
    let sampler_best = best_energy(&results);

    assert!(
        sampler_mean < random_best as f64,
        "the average sampler read ({sampler_mean}) must beat the best of 2048 \
         random draws ({random_best}); random mean was {random_mean}"
    );
    assert_eq!(
        sampler_best,
        brute_force_min(&g),
        "the best read must reach the true optimum"
    );
}

fn cfg_random(chi_max: usize) -> MpsConfig {
    MpsConfig {
        chi_max,
        init: InitMode::Random,
        time_budget_ms: 0,
        flop_budget: 1_250_000_000,
    }
}

/// No single flip lowers the energy, which is what the polish guarantees.
fn assert_local_minimum(r: &SamplerResult, g: &IsingGraph) {
    for var in 0..g.h.len() {
        let mut probe = r.spins.clone();
        probe[var] = -probe[var];
        assert!(
            score_energy(&probe, &g.h, &g.j, &g.edges) >= r.energy_milli,
            "flipping {var} lowers the energy, so the polish did not run"
        );
    }
}

#[test]
fn the_random_arm_returns_well_formed_polished_results() {
    let g = random_sparse(20, 45, 555);
    let results = sample_ising_mps(&g, &params(16, 96, 41), &cfg_random(8));
    assert_results_well_formed(&results, &g, 16);
    for r in &results {
        assert_local_minimum(r, &g);
    }
}

/// The anneal earns its cost on a ferromagnetic chain, and this is the
/// cleanest demonstration of it.
///
/// A random start seeds roughly n/2 domain walls. Strict-descent polish
/// cannot remove an isolated wall: flipping the spin beside it is exactly
/// energy-neutral, and `polish_from` rejects zero-delta moves so that the
/// sweep terminates. So the random arm reliably stalls one or more walls
/// short of the ground state, while the annealed arm reaches it.
#[test]
fn the_random_arm_stalls_on_domain_walls_where_the_anneal_does_not() {
    let g = ferro_chain(16);
    let random = sample_ising_mps(&g, &params(16, 96, 43), &cfg_random(8));
    assert_results_well_formed(&random, &g, 16);
    for r in &random {
        assert_local_minimum(r, &g);
    }
    let random_best = best_energy(&random);
    assert!(
        random_best > -15_000,
        "random starts should stall above the ground state, got {random_best}"
    );
    // A surviving wall costs exactly 2 units of coupling.
    assert_eq!(
        (random_best + 15_000) % 2_000,
        0,
        "the shortfall must be a whole number of domain walls, got {random_best}"
    );

    let annealed = sample_ising_mps(&g, &params(16, 96, 43), &cfg(8));
    assert_eq!(
        best_energy(&annealed),
        -15_000,
        "the annealed arm must reach the ground state"
    );
}

#[test]
fn the_two_arms_differ_on_a_problem_where_the_anneal_carries_information() {
    // Fields only: the annealed arm is exact on every read, so the two arms
    // agreeing on every read would mean the knob does nothing.
    let h = vec![0.7, -1.2, 0.3, -0.5, 2.0, -0.1, 0.9, -1.7, 0.4, -0.6];
    let g = IsingGraph::new(h.clone(), vec![], vec![]);
    let annealed = sample_ising_mps(&g, &params(8, 64, 47), &cfg(8));
    let random = sample_ising_mps(&g, &params(8, 64, 47), &cfg_random(8));
    // Both arms polish to the same optimum here, so compare the work done:
    // the annealed arm must be exact, and the random arm must also land
    // there because the polish alone suffices without couplings.
    let want: Vec<i8> = h
        .iter()
        .map(|&x| if x > 0.0 { -1i8 } else { 1i8 })
        .collect();
    assert!(annealed.iter().all(|r| r.spins == want));
    assert!(random.iter().all(|r| r.spins == want));

    // On a frustrated instance the two arms must not be identical, so
    // that the comparison means something.
    let hard = random_sparse(20, 55, 8080);
    let a = sample_ising_mps(&hard, &params(16, 96, 47), &cfg(8));
    let b = sample_ising_mps(&hard, &params(16, 96, 47), &cfg_random(8));
    assert!(
        a.iter().map(|r| &r.spins).ne(b.iter().map(|r| &r.spins)),
        "the two initialization arms produced identical output"
    );
}

#[test]
fn the_random_arm_is_deterministic_for_a_given_seed() {
    let g = random_sparse(18, 40, 606);
    let first = sample_ising_mps(&g, &params(8, 96, 51), &cfg_random(8));
    let second = sample_ising_mps(&g, &params(8, 96, 51), &cfg_random(8));
    assert_eq!(first, second);
}

#[test]
fn mod_a_fired_valve_still_returns_complete_polished_results() {
    // A budget of 1 ms fires before the first step on any real problem.
    let g = random_sparse(60, 150, 707);
    let stopped = MpsConfig {
        chi_max: 8,
        init: InitMode::Anneal,
        time_budget_ms: 1,
        flop_budget: 1_250_000_000,
    };
    let results = sample_ising_mps(&g, &params(8, 256, 61), &stopped);
    assert_results_well_formed(&results, &g, 8);
    // Complete, not partial: the polish still ran, so every configuration
    // is a local minimum even though the anneal was cut short.
    for r in &results {
        assert_local_minimum(r, &g);
    }
}

#[test]
fn a_disabled_valve_runs_the_whole_anneal() {
    // Budget 0 means no valve, which is what every determinism test uses.
    let g = ferro_chain(20);
    let unlimited = sample_ising_mps(&g, &params(8, 128, 63), &cfg(8));
    assert_results_well_formed(&unlimited, &g, 8);
    assert_eq!(best_energy(&unlimited), -19_000);
}

#[test]
fn mod_a_generous_valve_does_not_change_the_answer_on_a_small_problem() {
    let g = ferro_chain(12);
    let with_valve = MpsConfig {
        chi_max: 8,
        init: InitMode::Anneal,
        time_budget_ms: 60_000,
        flop_budget: 1_250_000_000,
    };
    assert_eq!(
        sample_ising_mps(&g, &params(8, 64, 67), &cfg(8)),
        sample_ising_mps(&g, &params(8, 64, 67), &with_valve),
        "a valve that never fires must not change the output"
    );
}

#[test]
fn mod_the_same_seed_produces_byte_identical_results() {
    let g = random_sparse(24, 60, 808);
    let first = sample_ising_mps(&g, &params(16, 128, 71), &cfg(8));
    let second = sample_ising_mps(&g, &params(16, 128, 71), &cfg(8));
    assert_eq!(first, second);
}

#[test]
fn mod_different_seeds_produce_different_results() {
    let g = random_sparse(24, 60, 808);
    let a = sample_ising_mps(&g, &params(16, 128, 71), &cfg(8));
    let b = sample_ising_mps(&g, &params(16, 128, 72), &cfg(8));
    assert_ne!(
        a.iter().map(|r| &r.spins).collect::<Vec<_>>(),
        b.iter().map(|r| &r.spins).collect::<Vec<_>>(),
        "the seed must reach the sampler"
    );
}

#[test]
fn mod_seed_zero_still_diversifies_across_reads() {
    // A frustrated instance, so the reads are not all forced onto one
    // configuration by the polish.
    let g = random_sparse(24, 70, 909);
    let results = sample_ising_mps(&g, &params(16, 96, 0), &cfg(8));
    let distinct: std::collections::BTreeSet<&Vec<i8>> =
        results.iter().map(|r| &r.spins).collect();
    assert!(
        distinct.len() > 1,
        "every read returned the same configuration at seed 0"
    );
}

#[test]
fn chi_max_of_one_pins_the_bond_at_one_for_every_input() {
    for &(n, span) in &[(1usize, 0u64), (8, 14), (600, 60_000), (4577, 7_544_619)] {
        assert_eq!(select_chi(n, span, 64, &cfg(1)), 1);
    }
}

#[test]
fn the_anneal_at_chi_one_never_grows_a_bond() {
    let g = random_sparse(24, 60, 1111);
    let chain = ChainProblem::from_graph(&problem(&g));
    let state = anneal(&chain, &g, &params(8, 64, 5), 64, 1);
    assert_eq!(
        state.max_bond(),
        1,
        "the product-state path must keep every bond at 1"
    );
}

#[test]
fn chi_max_of_one_is_a_complete_working_backend() {
    let g = random_sparse(30, 75, 2222);
    let results = sample_ising_mps(&g, &params(16, 96, 73), &cfg(1));
    assert_results_well_formed(&results, &g, 16);
    assert_eq!(
        results,
        sample_ising_mps(&g, &params(16, 96, 73), &cfg(1)),
        "bond dimension 1 must be deterministic"
    );
}

#[test]
fn chi_max_of_one_and_a_higher_cap_agree_where_the_state_factorizes() {
    // Fields only: the exact state is a product state, so the bond-1 path
    // and the general path must reach the same answer.
    let h = vec![0.7, -1.2, 0.3, -0.5, 2.0, -0.1, 0.9, -1.7];
    let g = IsingGraph::new(h, vec![], vec![]);
    assert_eq!(
        sample_ising_mps(&g, &params(8, 64, 77), &cfg(1)),
        sample_ising_mps(&g, &params(8, 64, 77), &cfg(32))
    );
}

/// Mean-field cannot spontaneously break a symmetry, and `quip-cpu-mfa`
/// inherits that limit, so it is pinned here rather than discovered later.
///
/// On a zero-field ferromagnetic chain every gate matrix
/// `m[p][q] = a[p] b[q] (1 - t Z_p Z_q)` is symmetric under the global spin
/// flip, so its best rank-1 factor is the symmetric vector and the state
/// stays exactly `|+>^n` for the whole anneal. Sampling that is a fair coin
/// per site, so the bond-1 arm degenerates to random initialization and
/// stalls on domain walls exactly as `InitMode::Random` does.
///
/// An arbitrarily small field removes the degeneracy and the same path then
/// reaches the true ground state, which is what distinguishes "mean-field
/// is weak here" from "the bond-1 path is broken".
#[test]
fn the_bond_one_path_cannot_break_a_symmetry_but_solves_once_a_field_does() {
    let g = ferro_chain(32);
    let chain = ChainProblem::from_graph(&problem(&g));
    let state = anneal(&chain, &g, &params(16, 96, 79), 96, 1);
    let plus = std::f64::consts::FRAC_1_SQRT_2;
    for k in 0..state.num_sites() {
        for x in floats(&state.site[k]) {
            assert!(
                (x.abs() - plus).abs() < 1e-12,
                "site {k} left the symmetric point at {x}"
            );
        }
    }
    let results = sample_ising_mps(&g, &params(16, 96, 79), &cfg(1));
    assert_results_well_formed(&results, &g, 16);
    let stalled = best_energy(&results);
    assert!(
        stalled > -31_000 && (stalled + 31_000) % 2_000 == 0,
        "expected a whole number of stalled domain walls, got {stalled}"
    );

    // The same chain with one small field. The couplings contribute -31000
    // and the field a further -50 once that spin settles against it.
    let mut h = vec![0.0; 32];
    h[0] = 0.05;
    let biased = IsingGraph::new(h, vec![-1.0; 31], (0..31).map(|i| (i, i + 1)).collect());
    let solved = sample_ising_mps(&biased, &params(16, 96, 79), &cfg(1));
    assert_eq!(
        best_energy(&solved),
        -31_050,
        "a symmetry-breaking field must let the bond-1 path reach the ground state"
    );
}
#[test]
fn the_init_setting_selects_the_arm() {
    let cfg = MpsConfig::from_setting(32, None);
    assert_eq!(cfg.chi_max, 32);
    assert_eq!(cfg.init, InitMode::Anneal);
    assert_eq!(cfg.time_budget_ms, 2000);
    assert_eq!(cfg.flop_budget, 1_250_000_000);
    assert_eq!(MpsConfig::from_setting(8, Some("random")).init, InitMode::Random);
    assert_eq!(MpsConfig::from_setting(8, Some("anneal")).init, InitMode::Anneal);
    // An unrecognized value must not change behaviour.
    assert_eq!(MpsConfig::from_setting(8, Some("nonsense")).init, InitMode::Anneal);
    assert_eq!(MpsConfig::from_setting(1, None).chi_max, 1);
}

/// The chain holds the problem: a configuration scores the same in either order.
#[test]
fn the_chain_order_keeps_the_energy() {
    let g = random_sparse(12, 24, 77);
    let chain = ChainProblem::from_graph(&problem(&g));
    for mask in 0..64u32 {
        let spins: Vec<i8> = (0..12).map(|i| if (mask >> (i % 6)) & 1 == 0 { 1 } else { -1 }).collect();
        let moved: Vec<i8> = chain.order.iter().map(|&node| spins[node as usize]).collect();
        let h: Vec<f64> = chain.h.iter().map(|&x| f64::from(x) / 1000.0).collect();
        let j: Vec<f64> = chain.gates.iter().map(|&(_, _, c)| f64::from(c) / 1000.0).collect();
        let edges: Vec<(usize, usize)> =
            chain.gates.iter().map(|&(a, b, _)| (a as usize, b as usize)).collect();
        assert_eq!(
            score_energy(&moved, &h, &j, &edges),
            score_energy(&spins, &g.h, &g.j, &g.edges)
        );
    }
}

fn mps_cfg() -> MpsConfig {
    MpsConfig {
        chi_max: 8,
        init: InitMode::Anneal,
        time_budget_ms: 0,
        flop_budget: 1_250_000_000,
    }
}

fn tiny_ferro() -> IsingGraph {
    IsingGraph::new(vec![0.0, 0.0], vec![-1.0], vec![(0, 1)])
}

fn tiny_params(num_reads: usize) -> SampleParams {
    SampleParams {
        num_reads,
        num_sweeps: 64,
        seed: 42,
        ..Default::default()
    }
}

#[test]
fn mps_sampler_samples_and_reports_consensus_energies() {
    let sampler = MpsSampler::new(mps_cfg());
    let graph = tiny_ferro();
    let results = run(&graph, &tiny_params(4), &mps_cfg(), &sampler);
    assert_eq!(results.len(), 4);
    for r in &results {
        assert_eq!(r.spins.len(), 2);
        assert!(r.spins.iter().all(|&s| s == 1 || s == -1));
        assert_eq!(r.energy_milli, -1000, "ferro pair must align");
    }
}

#[test]
fn mps_stream_width_is_at_least_one() {
    assert!(MpsSampler::new(mps_cfg()).stream_width(0) >= 1);
}

/// Five-node ring plus one chord, mixed-sign fields and couplings.
fn mfa_graph() -> IsingGraph {
    IsingGraph::new(
        vec![0.4, -0.2, 0.1, -0.5, 0.3],
        vec![0.6, -0.9, 0.25, -0.4, 0.75],
        vec![(0, 1), (1, 2), (2, 3), (3, 4), (0, 4)],
    )
}

/// No edges: the ground state factorizes exactly, `s_i = -sign(h_i)`.
fn fields_only_graph() -> IsingGraph {
    IsingGraph::new(vec![0.7, -0.3, 1.2, -2.5], vec![], vec![])
}

/// `quip-cpu-mfa` is exactly `quip-cpu-mps` pinned to bond dimension 1, and
/// nothing else. If this ever diverges, the two binaries are measuring
/// different algorithms and the campaign comparison between them is void.
#[test]
fn mfa_equals_mps_at_chi_1() {
    let graph = mfa_graph();
    let params = SampleParams {
        num_reads: 4,
        num_sweeps: 96,
        seed: 11,
        ..Default::default()
    };
    // 2000 ms and 1.25e9 flops are the documented defaults. Neither changes
    // the result at chi_max = 1 on a graph this small: chi stays pinned to 1
    // whatever the flop budget, and the anneal finishes far inside the time
    // budget.
    let direct = MpsConfig {
        chi_max: 1,
        init: InitMode::Anneal,
        time_budget_ms: 2000,
        flop_budget: 1_250_000_000,
    };
    let via_setting = MpsConfig::from_setting(1, None);
    assert_eq!(via_setting.chi_max, 1);
    assert_eq!(via_setting.init, InitMode::Anneal);

    let mps_at_chi_1 = sample_ising_mps(&graph, &params, &direct);
    let mfa_path = sample_ising_mps(&graph, &params, &via_setting);
    assert_eq!(
        mps_at_chi_1, mfa_path,
        "the mfa construction must match the mps kernel pinned to chi_max = 1"
    );
}

#[test]
fn mfa_fields_only_is_exact() {
    let graph = fields_only_graph();
    let cfg = MpsConfig {
        chi_max: 1,
        init: InitMode::Anneal,
        time_budget_ms: 2000,
        flop_budget: 1_250_000_000,
    };
    let params = SampleParams {
        num_reads: 6,
        num_sweeps: 64,
        seed: 5,
        ..Default::default()
    };
    let results = sample_ising_mps(&graph, &params, &cfg);
    assert_eq!(results.len(), params.num_reads);
    let expected: Vec<i8> = graph
        .h
        .iter()
        .map(|&h| if h > 0.0 { -1 } else { 1 })
        .collect();
    for r in &results {
        assert_eq!(r.spins, expected, "fields-only optimum is s_i = -sign(h_i)");
        assert_eq!(
            r.energy_milli,
            score_energy(&r.spins, &graph.h, &graph.j, &graph.edges)
        );
    }
}

#[test]
fn mfa_random_init_mode_differs_and_stays_valid() {
    let graph = mfa_graph();
    let params = SampleParams {
        num_reads: 8,
        num_sweeps: 96,
        seed: 11,
        ..Default::default()
    };
    let anneal_cfg = MpsConfig {
        chi_max: 1,
        init: InitMode::Anneal,
        time_budget_ms: 2000,
        flop_budget: 1_250_000_000,
    };
    let random_cfg = MpsConfig {
        init: InitMode::Random,
        ..anneal_cfg
    };

    let anneal_results = sample_ising_mps(&graph, &params, &anneal_cfg);
    let random_results = sample_ising_mps(&graph, &params, &random_cfg);
    let random_results_again = sample_ising_mps(&graph, &params, &random_cfg);

    assert_eq!(anneal_results.len(), params.num_reads);
    assert_eq!(random_results.len(), params.num_reads);
    for r in anneal_results.iter().chain(random_results.iter()) {
        assert!(r.spins.iter().all(|&s| s == 1 || s == -1));
        assert_eq!(
            r.energy_milli,
            score_energy(&r.spins, &graph.h, &graph.j, &graph.edges)
        );
    }
    assert_eq!(
        random_results, random_results_again,
        "the same seed must reproduce the random-init path byte-identically"
    );
    assert_ne!(
        anneal_results, random_results,
        "random seeding must reach a different sample set than the annealed path here"
    );
}

#[test]
fn the_time_is_asked_for_before_every_step() {
    let g = ferro_chain(6);
    let p = params(2, 64, 3);
    let (steps, _) = split_sweeps(p.num_sweeps);
    let asked = RefCell::new(Vec::new());
    let limited = MpsConfig { time_budget_ms: 1, ..cfg(4) };
    let results = MpsSampler::new(limited).sample(
        &problem(&g),
        &settings(&p),
        EPS,
        &ladder(&g, &p, steps),
        &tanh,
        &exp,
        &|k: usize| {
            asked.borrow_mut().push(k);
            k >= 3
        },
        &|bits: u64, x: Double| unit(bits) < x.0,
    );
    assert_results_well_formed(&results, &g, 2);
    assert_eq!(*asked.borrow(), [0, 1, 2, 3]);
}
