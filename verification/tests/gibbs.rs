use quip_miner_cpu::accept::{heat_bath_spin, Odds};
use quip_miner_cpu::coloring::Coloring;
use quip_miner_cpu::gibbs_parallel::{
    conditional_spins, draw_bits, sample_gibbs_read, sample_gibbs_with, start_spins, store_spins,
    worker_share, ClassPlan, ClassUpdate, ConfigError, GibbsConfig,
};
use quip_miner_cpu::ising::IsingGraph as Problem;
use quip_miner_cpu::sampler_core::{CpuGraph, SampleParams as Settings};
use quip_miner_cpu::scalar::Scalar;
use quip_solver_core::IsingGraph;

/// A weight in thousandths; one that is not finite is 0.
fn milli(x: f64) -> i32 {
    if x.is_finite() {
        (x * 1000.0).round() as i32
    } else {
        0
    }
}

/// A problem with its weights in thousandths.
fn problem(g: &IsingGraph) -> Problem {
    Problem::new(
        g.h.iter().map(|&x| milli(x)).collect(),
        g.j.iter().map(|&x| milli(x)).collect(),
        g.edges.to_vec(),
    )
}

#[derive(Clone, Copy, Debug, PartialEq)]
struct Double(f64);

impl Scalar for Double {
    fn from_milli(m: i32) -> Self {
        Double(f64::from(m) / 1000.0)
    }
    fn ratio(num: usize, den: usize) -> Self {
        Double(num as f64 / den as f64)
    }
    fn sum(self, other: Self) -> Self {
        Double(self.0 + other.0)
    }
    fn difference(self, other: Self) -> Self {
        Double(self.0 - other.0)
    }
    fn product(self, other: Self) -> Self {
        Double(self.0 * other.0)
    }
    fn quotient(self, other: Self) -> Self {
        Double(self.0 / other.0)
    }
    fn square_root(self) -> Self {
        Double(self.0.sqrt())
    }
    fn less(self, other: Self) -> bool {
        self.0 < other.0
    }
    fn at_least(self, other: Self) -> bool {
        self.0 >= other.0
    }
}

/// A draw of 53 bits as a number in `[0, 1)`.
fn unit(bits: u64) -> f64 {
    bits as f64 * (1.0 / (1u64 << 53) as f64)
}

fn exp(x: Double) -> Double {
    Double(x.0.exp())
}

fn below(bits: u64, p: Double) -> bool {
    unit(bits) < p.0
}

/// The odds of a job along a ladder.
fn odds(betas: &[f64]) -> Odds<Double, fn(Double) -> Double, fn(u64, Double) -> bool> {
    Odds { ladder: betas.iter().map(|&b| Double(b)).collect(), exp, below }
}

fn gibbs_read(
    cpu: &CpuGraph,
    coloring: &Coloring,
    betas: &[f64],
    sweeps: usize,
    seed: u64,
    workers: usize,
    spins: &mut Vec<i8>,
) {
    quip_miner_cpu::gibbs_parallel::gibbs_read(
        cpu,
        coloring,
        sweeps,
        seed,
        workers,
        &odds(betas),
        spins,
    )
}

fn colored(g: &IsingGraph) -> (Coloring, CpuGraph) {
    let cpu = CpuGraph::from_base(&problem(g));
    (Coloring::new(&cpu), cpu)
}

/// Every class is an independent set. This is the property the
/// whole parallel update rests on. If two neighbours share a class, the
/// sampler resamples both from stale fields and stops being a Gibbs
/// sampler, silently and without any test failing elsewhere.
#[test]
fn every_class_is_an_independent_set() {
    let edges: Vec<(usize, usize)> = (0..12).map(|i| (i, (i + 1) % 12)).collect();
    let g = IsingGraph::new(vec![0.0; 12], vec![1.0; 12], edges);
    let (c, cpu) = colored(&g);
    for class in c.classes() {
        for &v in class {
            let (nodes, _) = cpu.neighbors(v as usize);
            for &w in nodes {
                assert!(
                    !class.contains(&w),
                    "nodes {v} and {w} are neighbours in one class"
                );
            }
        }
    }
}

/// The classes partition the node set exactly once each.
/// A dropped node would never be resampled, and a duplicated one would be
/// resampled twice per sweep.
#[test]
fn classes_partition_every_node_exactly_once() {
    let g = IsingGraph::new(
        vec![0.0; 6],
        vec![1.0; 5],
        vec![(0, 1), (1, 2), (2, 3), (3, 4), (4, 5)],
    );
    let (c, _) = colored(&g);
    let mut seen: Vec<u32> = c.classes().iter().flatten().copied().collect();
    seen.sort_unstable();
    assert_eq!(seen, (0..6u32).collect::<Vec<_>>());
}

/// A bipartite graph needs two classes, and a triangle needs
/// three. These pin that the greedy pass is not simply assigning one class
/// per node.
#[test]
fn greedy_uses_the_expected_class_count_on_known_graphs() {
    let path = IsingGraph::new(vec![0.0; 4], vec![1.0; 3], vec![(0, 1), (1, 2), (2, 3)]);
    assert_eq!(colored(&path).0.classes().len(), 2, "a path is bipartite");

    let triangle = IsingGraph::new(vec![0.0; 3], vec![1.0; 3], vec![(0, 1), (1, 2), (0, 2)]);
    assert_eq!(
        colored(&triangle).0.classes().len(),
        3,
        "a triangle needs three"
    );
}

/// A graph with no edges colours in one class, so the sampler
/// resamples every node at once.
#[test]
fn isolated_nodes_share_one_class() {
    let g = IsingGraph::new(vec![0.0; 5], vec![], vec![]);
    let (c, _) = colored(&g);
    assert_eq!(c.classes().len(), 1);
    assert_eq!(c.classes()[0].len(), 5);
}

/// An empty graph produces no classes and does not panic.
#[test]
fn empty_graph_has_no_classes() {
    let g = IsingGraph::new(vec![], vec![], vec![]);
    assert_eq!(colored(&g).0.classes().len(), 0);
}

fn ferro_ring(n: usize) -> IsingGraph {
    let edges: Vec<(usize, usize)> = (0..n).map(|i| (i, (i + 1) % n)).collect();
    IsingGraph::new(vec![0.0; n], vec![-1.0; n], edges)
}

/// The result does not depend on the worker count. This is the
/// property that lets an operator tune workers for throughput without
/// changing what the miner submits. Without it, a machine with a different
/// core count would produce a different answer from the same seed.
#[test]
fn output_is_independent_of_worker_count() {
    let g = ferro_ring(64);
    let cpu = CpuGraph::from_base(&problem(&g));
    let coloring = Coloring::new(&cpu);
    let betas = vec![0.1, 0.5, 1.0, 2.0];

    let start: Vec<i8> = (0..64).map(|i| if i % 3 == 0 { 1 } else { -1 }).collect();
    let mut reference = None;
    for workers in [1usize, 2, 3, 4, 8, 16] {
        let mut spins = start.clone();
        gibbs_read(&cpu, &coloring, &betas, 4, 99, workers, &mut spins);
        let got = spins;
        match &reference {
            None => reference = Some(got),
            Some(want) => assert_eq!(
                &got, want,
                "worker count {workers} changed the result"
            ),
        }
    }
}

/// The kernel only ever writes valid wire spins.
#[test]
fn every_spin_stays_pm1() {
    let g = ferro_ring(32);
    let cpu = CpuGraph::from_base(&problem(&g));
    let coloring = Coloring::new(&cpu);
    let mut spins: Vec<i8> = vec![1i8; 32];
    gibbs_read(&cpu, &coloring, &[0.5, 1.5], 3, 7, 4, &mut spins);
    assert!(spins.iter().all(|&s| s == 1 || s == -1));
}

/// At a high beta the sampler drives a ferromagnetic ring to a
/// nearly aligned state. This is the check that the conditional carries the
/// right sign: an inverted heat-bath probability would anti-align it.
#[test]
fn cold_ferromagnet_aligns() {
    let g = ferro_ring(128);
    let cpu = CpuGraph::from_base(&problem(&g));
    let coloring = Coloring::new(&cpu);
    let mut spins: Vec<i8> = vec![1i8; 128];
    gibbs_read(&cpu, &coloring, &[8.0], 60, 5, 4, &mut spins);
    let out = spins;
    let up = out.iter().filter(|&&s| s == 1).count();
    let aligned = up.max(128 - up);
    assert!(aligned >= 120, "expected near alignment, got {up} up of 128");
}

/// A positive bias with no couplings drives the spin negative,
/// because the miner minimizes `h_i s_i`.
#[test]
fn positive_bias_drives_spin_negative() {
    let g = IsingGraph::new(vec![2.0], vec![], vec![]);
    let cpu = CpuGraph::from_base(&problem(&g));
    let coloring = Coloring::new(&cpu);
    let mut spins: Vec<i8> = vec![1];
    gibbs_read(&cpu, &coloring, &[6.0], 20, 11, 2, &mut spins);
    assert_eq!(spins, vec![-1]);
}

/// An empty graph has no classes, so the kernel does nothing
/// and does not panic.
#[test]
fn empty_graph_is_a_no_op() {
    let g = IsingGraph::new(vec![], vec![], vec![]);
    let cpu = CpuGraph::from_base(&problem(&g));
    let coloring = Coloring::new(&cpu);
    let mut spins: Vec<i8> = Vec::new();
    gibbs_read(&cpu, &coloring, &[1.0], 2, 3, 4, &mut spins);
    assert!(spins.is_empty());
}
/// The shares of the workers are contiguous and cover a class.
#[test]
fn worker_shares_cover_a_class() {
    for len in [0usize, 1, 7, 16] {
        for workers in 1..=5 {
            let mut at = 0;
            for wid in 0..workers {
                let (lo, hi) = worker_share(len, workers, wid);
                assert!(lo <= hi && hi <= len);
                assert!(lo == hi || lo == at, "{len} nodes, worker {wid} of {workers}");
                at = at.max(hi);
            }
            assert_eq!(at, len);
        }
    }
}

/// The draw of a node depends on the seed, the step and the node.
#[test]
fn draws_differ_by_seed_step_and_node() {
    let base = draw_bits(1, 2, 3);
    assert_eq!(base, draw_bits(1, 2, 3));
    assert_ne!(base, draw_bits(2, 2, 3));
    assert_ne!(base, draw_bits(1, 3, 3));
    assert_ne!(base, draw_bits(1, 2, 4));
}

#[test]
fn a_configuration_that_cannot_serve_is_refused() {
    let params = Settings { num_reads: 1, num_sweeps: 4, sweeps_per_beta: 1, seed: 3 };
    let g = problem(&ferro_ring(4));
    let up = Odds {
        ladder: vec![Double(1.0); params.num_betas()],
        exp,
        below: |_: u64, _: Double| true,
    };
    let wide = GibbsConfig { workers: 9, ..GibbsConfig::default() };
    assert_eq!(
        wide.validate(8),
        Err(ConfigError::Oversubscribed { workers: 9, available: 8 })
    );
    assert_eq!(wide.validate(9), Ok(()));
    let strict = GibbsConfig { max_colors: Some(1), ..GibbsConfig::default() };
    assert_eq!(
        sample_gibbs_with(&g, &params, &strict, &up).expect_err("a ring needs two classes"),
        ConfigError::TooManyColors { needed: 2, allowed: 1 }
    );
    let results = sample_gibbs_with(&g, &params, &GibbsConfig::default(), &up).expect("served");
    assert_eq!(results.len(), 1);
    assert_eq!(results[0].spins, vec![1; 4]);
    assert_eq!(results[0].energy_milli, -4000);
}

/// Up with probability `1 / (1 + exp(2 beta f))`, and the exponent stays in range.
#[test]
fn the_heat_bath_turns_at_its_probability() {
    let at = |p: f64| (p * (1u64 << 53) as f64) as u64;
    let p = 1.0 / (1.0 + 1.5f64.exp());
    assert_eq!(heat_bath_spin(&exp, &below, Double(0.5), 1500, at(p) - 1), 1);
    assert_eq!(heat_bath_spin(&exp, &below, Double(0.5), 1500, at(p) + 1), -1);
    assert_eq!(heat_bath_spin(&exp, &below, Double(0.5), 0, at(0.5) - 1), 1);
    assert_eq!(heat_bath_spin(&exp, &below, Double(0.5), 0, at(0.5)), -1);
    assert_eq!(heat_bath_spin(&exp, &below, Double(1e9), 1_000_000_000, 1), -1);
    assert_eq!(heat_bath_spin(&exp, &below, Double(1e9), -1_000_000_000, at(1.0) - 1), 1);
}

/// With no field at all the spins of a read are fair coins.
#[test]
fn a_free_read_is_balanced() {
    let g = IsingGraph::new(vec![0.0; 4000], vec![], vec![]);
    let (c, cpu) = colored(&g);
    let mut spins = vec![1i8; 4000];
    gibbs_read(&cpu, &c, &[1.0], 1, 7, 1, &mut spins);
    let up = spins.iter().filter(|&&s| s == 1).count();
    assert!((1800..2200).contains(&up), "{up} of 4000 spins are up");
}

#[test]
fn a_plan_hands_out_every_class_of_every_sweep() {
    let mut plan = ClassPlan::new(2, 2, 3);
    for t in 0..12usize {
        let want = ClassUpdate { rung: t / 6, class: t % 3, step: t as u64 };
        assert_eq!(plan.next_update(), Some(want));
    }
    assert_eq!(plan.next_update(), None);
    assert_eq!(plan.next_update(), None);
    for (rungs, per, classes) in [(0, 2, 3), (2, 0, 3), (2, 2, 0)] {
        assert_eq!(ClassPlan::new(rungs, per, classes).next_update(), None);
    }
}

#[test]
fn stored_spins_replace_their_nodes_alone() {
    let mut spins = vec![1, 1, 1, 1];
    store_spins(&[3, 1], &vec![-1, 1], &mut spins);
    assert_eq!(spins, [1, 1, 1, -1]);
}

#[test]
fn a_read_in_shares_matches_the_whole_read() {
    let graph = ferro_ring(11);
    let (colors, cpu) = colored(&graph);
    let odds = odds(&[0.3, 1.1]);
    let seed = 77;
    let mut whole = start_spins(11, seed);
    let mut shared = whole.clone();
    quip_miner_cpu::gibbs_parallel::gibbs_read(&cpu, &colors, 3, seed, 1, &odds, &mut whole);
    let mut plan = ClassPlan::new(2, 3, colors.num_classes());
    while let Some(u) = plan.next_update() {
        let class = &colors.classes()[u.class];
        let mut fresh = Vec::new();
        for w in 0..4 {
            let (lo, hi) = worker_share(class.len(), 4, w);
            let part = &class[lo..hi];
            fresh.extend(conditional_spins(&cpu, &shared, part, u.rung, seed, u.step, &odds));
        }
        store_spins(class, &fresh, &mut shared);
    }
    assert_eq!(shared, whole);
}

#[test]
fn fewer_reads_are_the_first_of_more() {
    let graph = problem(&ferro_ring(9));
    let (colors, cpu) = colored(&ferro_ring(9));
    let odds = odds(&[0.2, 0.9]);
    let config = GibbsConfig::default();
    let job = |num_reads| Settings { num_reads, num_sweeps: 4, sweeps_per_beta: 2, seed: 5 };
    let three = sample_gibbs_with(&graph, &job(3), &config, &odds).expect("served");
    let five = sample_gibbs_with(&graph, &job(5), &config, &odds).expect("served");
    assert_eq!(three.len(), 3);
    for (i, r) in five.iter().enumerate() {
        if i < 3 {
            assert_eq!((&r.spins, r.energy_milli), (&three[i].spins, three[i].energy_milli));
        }
        let alone = sample_gibbs_read(&graph, &cpu, &colors, &job(5), i, 3, &odds);
        assert_eq!((&r.spins, r.energy_milli), (&alone.spins, alone.energy_milli));
    }
}

#[test]
fn the_colour_budget_is_inclusive() {
    let capped = GibbsConfig { max_colors: Some(3), ..GibbsConfig::default() };
    assert_eq!(capped.check_colors(3), Ok(()));
    assert_eq!(
        capped.check_colors(4),
        Err(ConfigError::TooManyColors { needed: 4, allowed: 3 })
    );
    assert_eq!(GibbsConfig::default().check_colors(usize::MAX), Ok(()));
}
