use quip_miner_cpu::accept::{metropolis_accept, Odds};
use quip_miner_cpu::ising::IsingGraph as Problem;
use quip_miner_cpu::sampler_core::{
    apply_field_delta, effective_field, flip_spin, polish_from, score_spins, seed_cache, Algorithm,
    CpuGraph, SampleParams as Settings, SamplerResult,
};
use quip_miner_cpu::scalar::Scalar;
use quip_protocol::scoring::energy_milli;
use quip_solver_core::beta::{default_ising_beta_range, geometric_beta_schedule};
use quip_solver_core::{IsingGraph, SampleParams};

/// A weight in thousandths; one that is not finite is 0.
fn milli(x: f64) -> i32 {
    if x.is_finite() {
        (x * 1000.0).round() as i32
    } else {
        0
    }
}

/// A problem with its weights in thousandths.
fn problem(g: &IsingGraph) -> Problem {
    Problem::new(
        g.h.iter().map(|&x| milli(x)).collect(),
        g.j.iter().map(|&x| milli(x)).collect(),
        g.edges.to_vec(),
    )
}

fn settings(p: &SampleParams) -> Settings {
    Settings {
        num_reads: p.num_reads,
        num_sweeps: p.num_sweeps,
        sweeps_per_beta: p.sweeps_per_beta,
        seed: p.seed,
    }
}

/// The ladder of inverse temperatures of a job.
fn ladder(g: &IsingGraph, p: &SampleParams) -> Vec<f64> {
    let (hot, cold) = p.beta_range.unwrap_or_else(|| default_ising_beta_range(g));
    geometric_beta_schedule(hot, cold, settings(p).num_betas())
}

#[derive(Clone, Copy, Debug, PartialEq)]
struct Double(f64);

impl Scalar for Double {
    fn from_milli(m: i32) -> Self {
        Double(f64::from(m) / 1000.0)
    }
    fn ratio(num: usize, den: usize) -> Self {
        Double(num as f64 / den as f64)
    }
    fn sum(self, other: Self) -> Self {
        Double(self.0 + other.0)
    }
    fn difference(self, other: Self) -> Self {
        Double(self.0 - other.0)
    }
    fn product(self, other: Self) -> Self {
        Double(self.0 * other.0)
    }
    fn quotient(self, other: Self) -> Self {
        Double(self.0 / other.0)
    }
    fn square_root(self) -> Self {
        Double(self.0.sqrt())
    }
    fn less(self, other: Self) -> bool {
        self.0 < other.0
    }
    fn at_least(self, other: Self) -> bool {
        self.0 >= other.0
    }
}

/// A draw of 53 bits as a number in `[0, 1)`.
fn unit(bits: u64) -> f64 {
    bits as f64 * (1.0 / (1u64 << 53) as f64)
}

fn exp(x: Double) -> Double {
    Double(x.0.exp())
}

fn below(bits: u64, p: Double) -> bool {
    unit(bits) < p.0
}

/// The odds of a job along a ladder.
fn odds(betas: &[f64]) -> Odds<Double, fn(Double) -> Double, fn(u64, Double) -> bool> {
    Odds { ladder: betas.iter().map(|&b| Double(b)).collect(), exp, below }
}

fn sample_ising(g: &IsingGraph, p: &SampleParams, algorithm: Algorithm) -> Vec<SamplerResult> {
    let betas = ladder(g, p);
    quip_miner_cpu::sampler_core::sample_ising(
        &problem(g),
        &settings(p),
        algorithm,
        &odds(&betas),
    )
}

fn ferro2() -> IsingGraph {
    // Prefer aligned spins: J=-1 means E = J s0 s1 is lower when s0==s1.
    IsingGraph::new(vec![0.0, 0.0], vec![-1.0], vec![(0, 1)])
}

#[test]
fn geometric_schedule_endpoints() {
    let s = geometric_beta_schedule(0.1, 10.0, 5);
    assert_eq!(s.len(), 5);
    assert!((s[0] - 0.1).abs() < 1e-12);
    assert!((s[4] - 10.0).abs() < 1e-12);
    // Strictly increasing for hot < cold.
    for w in s.windows(2) {
        assert!(w[0] < w[1]);
    }
}

#[test]
fn energy_of_known_spins_matches_scoring() {
    let g = ferro2();
    let spins = vec![1i8, 1i8];
    let r = score_spins(spins.clone(), &problem(&g));
    assert_eq!(r.energy_milli, energy_milli(&spins, &g.h, &g.j, &g.edges));
    // E = -1 * 1 * 1 = -1 → -1000 milli
    assert_eq!(r.energy_milli, -1000);
}

#[test]
fn sa_finds_ground_state_on_ferro() {
    let g = ferro2();
    let params = SampleParams {
        num_reads: 8,
        num_sweeps: 128,
        seed: 42,
        ..Default::default()
    };
    let results = sample_ising(&g, &params, Algorithm::Sa);
    assert_eq!(results.len(), 8);
    // At least one read should land on a ground state (energy -1000).
    assert!(
        results.iter().any(|r| r.energy_milli == -1000),
        "SA failed to find ferro ground state: {:?}",
        results.iter().map(|r| r.energy_milli).collect::<Vec<_>>()
    );
    // Every reported energy must equal consensus scoring of the spins.
    for r in &results {
        assert_eq!(r.energy_milli, energy_milli(&r.spins, &g.h, &g.j, &g.edges));
    }
}

#[test]
fn gibbs_reports_consensus_energies() {
    let g = ferro2();
    let params = SampleParams {
        num_reads: 4,
        num_sweeps: 64,
        seed: 7,
        ..Default::default()
    };
    let results = sample_ising(&g, &params, Algorithm::Gibbs);
    for r in &results {
        assert_eq!(r.energy_milli, energy_milli(&r.spins, &g.h, &g.j, &g.edges));
        assert!(r.spins.iter().all(|&s| s == 1 || s == -1));
    }
}

#[test]
fn empty_graph_is_safe() {
    let g = IsingGraph::new(vec![], vec![], vec![]);
    let params = SampleParams {
        num_reads: 2,
        num_sweeps: 4,
        seed: 1,
        ..Default::default()
    };
    let results = sample_ising(&g, &params, Algorithm::Sa);
    assert_eq!(results.len(), 2);
    assert!(results
        .iter()
        .all(|r| r.spins.is_empty() && r.energy_milli == 0));
}

/// Structured 4-node graph with mixed h and asymmetric J (not the 2-node ferro).
fn mixed4() -> IsingGraph {
    IsingGraph::new(
        vec![0.5, -0.3, 0.1, 0.0],
        vec![1.0, -0.5, 0.75, -1.25, 0.25],
        vec![(0, 1), (1, 2), (0, 2), (2, 3), (0, 3)],
    )
}

fn assert_heff_matches(heff: &[i128], spins: &Vec<i8>, graph: &CpuGraph) {
    assert_eq!(heff.len(), graph.num_nodes());
    for (i, &cached) in heff.iter().enumerate() {
        let want = effective_field(i, spins, graph);
        assert!(
            cached == want,
            "heff[{i}] diverged from effective_field: cached={cached} recompute={want} (spins={spins:?})",
        );
    }
}

#[test]
fn field_cache_tracks_effective_field_across_flips() {
    let g = mixed4();
    let cpu = CpuGraph::from_base(&problem(&g));
    let n = cpu.num_nodes();
    let mut spins = vec![1i8, -1, 1, -1];
    let mut heff: Vec<i128> = (0..n).map(|v| effective_field(v, &spins, &cpu)).collect();
    assert_heff_matches(&heff, &spins, &cpu);

    // Fixed flip sequence covering every node more than once.
    let flips = [0usize, 2, 1, 3, 0, 1, 2, 3, 1, 0, 3, 2];
    for &var in &flips {
        let s = spins[var];
        spins[var] = -spins[var];
        apply_field_delta(&cpu, &mut heff, var, -2 * s);
        assert_heff_matches(&heff, &spins, &cpu);
    }
}

/// A self-loop is no neighbor: the field of a node must not hold its own spin.
#[test]
fn self_loops_are_skipped_and_do_not_corrupt_heff() {
    // Pure self-loop on a single node: field must stay 0 for any spin.
    let pure = IsingGraph::new(vec![0.0], vec![3.0], vec![(0, 0)]);
    let pure_cpu = CpuGraph::from_base(&problem(&pure));
    assert!(
        pure_cpu.neighbors(0).0.is_empty(),
        "self-loop must not appear in CSR neighbor list"
    );
    assert_eq!(effective_field(0, &vec![1i8], &pure_cpu), 0);
    assert_eq!(effective_field(0, &vec![-1i8], &pure_cpu), 0);

    // Self-loop mixed with a real edge: only the real neighbor remains.
    let g = IsingGraph::new(vec![0.5, -0.25], vec![2.0, -1.0], vec![(0, 0), (0, 1)]);
    let cpu = CpuGraph::from_base(&problem(&g));
    let (n0, c0) = cpu.neighbors(0);
    assert_eq!(n0, &[1]);
    assert_eq!(c0, &[-1000]);
    let (n1, c1) = cpu.neighbors(1);
    assert_eq!(n1, &[0]);
    assert_eq!(c1, &[-1000]);

    let mut spins = vec![1i8, -1];
    let mut heff: Vec<i128> = (0..2).map(|v| effective_field(v, &spins, &cpu)).collect();
    // heff[0] must not include own-spin contribution from the self-loop.
    // Coupling on (0,1) is -1.0, so field is h[0] + (-1)*s[1].
    assert_eq!(heff[0], 500 - 1000 * i128::from(spins[1]));
    assert_heff_matches(&heff, &spins, &cpu);

    for &var in &[0usize, 1, 0, 1, 0] {
        let s = spins[var];
        spins[var] = -spins[var];
        apply_field_delta(&cpu, &mut heff, var, -2 * s);
        // Own field must stay free of self-mutation from the flipped var.
        assert_heff_matches(&heff, &spins, &cpu);
    }
}

// ---- polish_from ----

#[test]
fn polish_descends_a_ferromagnetic_chain_to_a_ground_state() {
    // Ten-site ferromagnetic chain: every ground state is uniform, and the
    // ground energy is -9.
    let n = 10;
    let edges: Vec<(usize, usize)> = (0..n - 1).map(|i| (i, i + 1)).collect();
    let g = IsingGraph::new(vec![0.0; n], vec![-1.0; n - 1], edges);
    let cpu = CpuGraph::from_base(&problem(&g));
    let mut spins = vec![1i8, -1, 1, -1, 1, -1, 1, -1, 1, -1];
    polish_from(&mut spins, &cpu, 64);
    assert_eq!(
        energy_milli(&spins, &g.h, &g.j, &g.edges),
        -9000,
        "polish left the chain at {spins:?}"
    );
}

#[test]
fn polish_of_a_fields_only_problem_lands_on_the_exact_optimum() {
    let h = vec![0.7, -1.2, 0.3, -0.5, 2.0];
    let g = IsingGraph::new(h.clone(), vec![], vec![]);
    let cpu = CpuGraph::from_base(&problem(&g));
    let mut spins = vec![1i8; 5];
    polish_from(&mut spins, &cpu, 8);
    let want: Vec<i8> = h.iter().map(|&x| if x > 0.0 { -1i8 } else { 1i8 }).collect();
    assert_eq!(spins, want);
}

#[test]
fn polish_never_raises_the_energy_and_stops_at_a_local_minimum() {
    let g = mixed4();
    let cpu = CpuGraph::from_base(&problem(&g));
    for start in 0..16u32 {
        let mut spins: Vec<i8> = (0..4)
            .map(|i| if (start >> i) & 1 == 0 { 1i8 } else { -1 })
            .collect();
        let before = energy_milli(&spins, &g.h, &g.j, &g.edges);
        polish_from(&mut spins, &cpu, 32);
        let after = energy_milli(&spins, &g.h, &g.j, &g.edges);
        assert!(after <= before, "start {start}: {before} -> {after}");
        // Local minimum: no single flip lowers the energy.
        for var in 0..4 {
            let mut probe = spins.clone();
            probe[var] = -probe[var];
            assert!(
                energy_milli(&probe, &g.h, &g.j, &g.edges) >= after,
                "start {start}: flipping {var} lowers the energy below {after}"
            );
        }
    }
}

#[test]
fn polish_is_deterministic_and_respects_its_sweep_budget() {
    let g = mixed4();
    let cpu = CpuGraph::from_base(&problem(&g));
    let run = |budget: usize| {
        let mut spins = vec![1i8, 1, 1, 1];
        polish_from(&mut spins, &cpu, budget);
        spins
    };
    assert_eq!(run(8), run(8));
    // A zero budget must leave the configuration untouched.
    let mut untouched = vec![1i8, 1, 1, 1];
    polish_from(&mut untouched, &cpu, 0);
    assert_eq!(untouched, vec![1i8, 1, 1, 1]);
}

#[test]
fn polish_is_safe_on_an_empty_graph_and_a_mismatched_length() {
    let empty = IsingGraph::new(vec![], vec![], vec![]);
    let cpu = CpuGraph::from_base(&problem(&empty));
    let mut none: Vec<i8> = Vec::new();
    polish_from(&mut none, &cpu, 8);
    assert!(none.is_empty());

    let g = mixed4();
    let cpu = CpuGraph::from_base(&problem(&g));
    let mut short = vec![1i8, -1];
    polish_from(&mut short, &cpu, 8);
    assert_eq!(short, vec![1i8, -1], "a length mismatch must be a no-op");
}
/// A coupling list shorter than the edge list reads 0, and an edge out of range
/// joins nothing.
#[test]
fn missing_couplings_and_stray_edges_add_no_field() {
    let g = IsingGraph::new(vec![0.25, 0.0], vec![], vec![(0, 1), (0, 7)]);
    let cpu = CpuGraph::from_base(&problem(&g));
    assert_eq!(cpu.bias(0), 250);
    assert_eq!(effective_field(0, &vec![1i8, 1], &cpu), 250);
    assert_eq!(effective_field(1, &vec![1i8, 1], &cpu), 0);
}

/// A flip moves the spin and the fields of its neighbors together.
#[test]
fn a_flip_keeps_the_fields_exact() {
    let cpu = CpuGraph::from_base(&problem(&mixed4()));
    let mut spins = vec![1i8, -1, 1, -1];
    let mut heff = seed_cache(&cpu, &spins);
    for var in [0usize, 3, 2, 2, 1, 0] {
        let before = spins[var];
        flip_spin(&cpu, &mut spins, &mut heff, var);
        assert_eq!(spins[var], -before);
        assert_eq!(heff, seed_cache(&cpu, &spins));
    }
}

/// The energy of the mixed problem, term by term.
#[test]
fn the_score_of_a_mixed_problem_is_exact() {
    let r = score_spins(vec![1, -1, 1, -1], &problem(&mixed4()));
    // fields 500 + 300 + 100, couplings -1000 + 500 + 750 + 1250 - 250
    assert_eq!(r.energy_milli, 2150);
}

/// An uphill flip is accepted below `exp(-2 beta f)`.
#[test]
fn the_metropolis_test_turns_at_its_probability() {
    let at = |p: f64| ((p * (1u64 << 53) as f64) as u64) << 11;
    let p = (-1.5f64).exp();
    assert!(metropolis_accept(&exp, &below, Double(0.5), 1500, at(p) - (1 << 11)));
    assert!(!metropolis_accept(&exp, &below, Double(0.5), 1500, at(p) + (1 << 11)));
    assert!(metropolis_accept(&exp, &below, Double(0.0), 1500, u64::MAX));
}

/// A rung answers by its own inverse temperature.
#[test]
fn every_rung_decides_by_its_own_temperature() {
    let job = odds(&[0.0, 50.0]);
    assert!(job.accept(0, 1000, u64::MAX));
    assert!(!job.accept(1, 1000, 1 << 20));
    assert_eq!(job.draw(1, 1000, 0), 1);
    assert_eq!(job.draw(1, 1000, 1 << 40), -1);
    assert_eq!(job.draw(1, -1000, 1 << 52), 1);
}
