use quip_miner_cpu::ising::IsingGraph as Problem;
use quip_miner_cpu::sampler_core::{SampleParams as Settings, SamplerResult};
use quip_miner_cpu::sb_core::{dsb, SbVariant};
use quip_miner_cpu::sb_ggsb::GgsbConfig;
use quip_miner_cpu::scalar::Scalar;
use quip_protocol::scoring::energy_milli;
use quip_solver_core::{IsingGraph, SampleParams};
use rand::{Rng, RngCore};

/// A weight in thousandths; one that is not finite is 0.
fn milli(x: f64) -> i32 {
    if x.is_finite() {
        (x * 1000.0).round() as i32
    } else {
        0
    }
}

/// A problem with its weights in thousandths.
fn problem(g: &IsingGraph) -> Problem {
    Problem::new(
        g.h.iter().map(|&x| milli(x)).collect(),
        g.j.iter().map(|&x| milli(x)).collect(),
        g.edges.to_vec(),
    )
}

fn settings(p: &SampleParams) -> Settings {
    Settings {
        num_reads: p.num_reads,
        num_sweeps: p.num_sweeps,
        sweeps_per_beta: p.sweeps_per_beta,
        seed: p.seed,
    }
}

#[derive(Clone, Copy, Debug, PartialEq)]
struct Single(f32);

impl Scalar for Single {
    fn from_milli(m: i32) -> Self {
        Single((m as f64 / 1000.0) as f32)
    }
    fn ratio(num: usize, den: usize) -> Self {
        Single(num as f32 / den as f32)
    }
    fn sum(self, other: Self) -> Self {
        Single(self.0 + other.0)
    }
    fn difference(self, other: Self) -> Self {
        Single(self.0 - other.0)
    }
    fn product(self, other: Self) -> Self {
        Single(self.0 * other.0)
    }
    fn quotient(self, other: Self) -> Self {
        Single(self.0 / other.0)
    }
    fn square_root(self) -> Self {
        Single(self.0.sqrt())
    }
    fn less(self, other: Self) -> bool {
        self.0 < other.0
    }
    fn at_least(self, other: Self) -> bool {
        self.0 >= other.0
    }
}

fn singles(v: &[f32]) -> Vec<Single> {
    v.iter().map(|&x| Single(x)).collect()
}

fn floats(v: &[Single]) -> Vec<f32> {
    v.iter().map(|x| x.0).collect()
}

/// A generator that gives one word.
struct Word(u32);

impl RngCore for Word {
    fn next_u32(&mut self) -> u32 {
        self.0
    }
    fn next_u64(&mut self) -> u64 {
        u64::from(self.0)
    }
    fn fill_bytes(&mut self, dest: &mut [u8]) {
        dest.fill(0);
    }
    fn try_fill_bytes(&mut self, dest: &mut [u8]) -> Result<(), rand::Error> {
        dest.fill(0);
        Ok(())
    }
}

#[derive(Clone, Copy, Debug, PartialEq)]
struct Double(f64);

impl Scalar for Double {
    fn from_milli(m: i32) -> Self {
        Double(f64::from(m) / 1000.0)
    }
    fn ratio(num: usize, den: usize) -> Self {
        Double(num as f64 / den as f64)
    }
    fn sum(self, other: Self) -> Self {
        Double(self.0 + other.0)
    }
    fn difference(self, other: Self) -> Self {
        Double(self.0 - other.0)
    }
    fn product(self, other: Self) -> Self {
        Double(self.0 * other.0)
    }
    fn quotient(self, other: Self) -> Self {
        Double(self.0 / other.0)
    }
    fn square_root(self) -> Self {
        Double(self.0.sqrt())
    }
    fn less(self, other: Self) -> bool {
        self.0 < other.0
    }
    fn at_least(self, other: Self) -> bool {
        self.0 >= other.0
    }
}

/// Single precision from double.
fn narrow(x: Double) -> Single {
    Single(x.0 as f32)
}

/// A number between two others.
fn between(word: u32, low: Single, high: Single) -> Single {
    Single(Word(word).gen_range(low.0..=high.0))
}

fn cos_pi(x: Single) -> Single {
    Single((std::f32::consts::PI * x.0).cos())
}

/// The chance that a coordinate is shifted at time `u`.
fn perturb_probability(u: f32) -> f32 {
    quip_miner_cpu::sb_ggsb::perturb_probability(&cos_pi, Single(u)).0
}

fn ema_coefficient(u: f32) -> f32 {
    quip_miner_cpu::sb_ggsb::ema_coefficient(Single(u)).0
}

fn guidance_weight(u: f32) -> f32 {
    quip_miner_cpu::sb_ggsb::guidance_weight(Single(u)).0
}

fn leader(energies: &[f32]) -> usize {
    quip_miner_cpu::sb_ggsb::leader(&singles(energies))
}

fn guidance_into(
    guid: &mut [f32; 2],
    gbest: &[f32; 2],
    gauge: f32,
    x: &[f32; 2],
    y: &[f32; 2],
    w: f32,
    b: f32,
) {
    let mut g = singles(guid);
    quip_miner_cpu::sb_ggsb::guidance_into(
        &mut g,
        &singles(gbest),
        Single(gauge),
        &singles(x),
        &singles(y),
        Single(w),
        Single(b),
    );
    guid.copy_from_slice(&floats(&g));
}

fn sample_ggsb(
    g: &IsingGraph,
    p: &SampleParams,
    variant: SbVariant,
    cfg: GgsbConfig,
) -> Vec<SamplerResult> {
    quip_miner_cpu::sb_ggsb::sample_ggsb(
        &problem(g),
        &settings(p),
        variant,
        cfg,
        &narrow,
        &between,
        &cos_pi,
        &|word: u32, q: Single| Word(word).gen::<f32>() < q.0,
    )
}

fn sample_sb(g: &IsingGraph, p: &SampleParams, variant: SbVariant) -> Vec<SamplerResult> {
    quip_miner_cpu::sb_core::sample_sb(&problem(g), &settings(p), variant, &narrow, &between)
}

fn sb_params(num_reads: usize, num_sweeps: usize, seed: u64) -> SampleParams {
    SampleParams {
        num_reads,
        num_sweeps,
        seed,
        ..Default::default()
    }
}

fn biased_chain() -> IsingGraph {
    IsingGraph::new(vec![2.0, -0.5, 0.25], vec![-1.0, 1.0], vec![(0, 1), (1, 2)])
}

fn frustrated_triangle() -> IsingGraph {
    IsingGraph::new(
        vec![0.0; 3],
        vec![1.0, 1.0, 1.0],
        vec![(0, 1), (1, 2), (0, 2)],
    )
}

fn ring12() -> IsingGraph {
    let edges: Vec<(usize, usize)> = (0..12).map(|i| (i, (i + 1) % 12)).collect();
    let j: Vec<f64> = (0..12)
        .map(|k| if k % 3 == 0 { 1.0 } else { -1.0 })
        .collect();
    IsingGraph::new(vec![0.0; 12], j, edges)
}

fn brute_force_min_energy(g: &IsingGraph) -> i64 {
    let n = g.h.len();
    (0..1u32 << n)
        .map(|mask| {
            let spins: Vec<i8> = (0..n)
                .map(|i| if mask & (1 << i) != 0 { 1 } else { -1 })
                .collect();
            energy_milli(&spins, &g.h, &g.j, &g.edges)
        })
        .min()
        .expect("non-empty")
}

/// The three schedules run between the reference's endpoints.
#[test]
fn schedules_match_the_reference_endpoints() {
    assert!((perturb_probability(0.0) - 1.0).abs() < 1e-6);
    assert!((perturb_probability(1.0) - 0.1).abs() < 1e-6);
    assert!((ema_coefficient(0.0) - 0.9).abs() < 1e-6);
    assert!((ema_coefficient(1.0) - 0.5).abs() < 1e-6);
    assert!((guidance_weight(0.0) - 1.0).abs() < 1e-6);
    assert!(guidance_weight(1.0).abs() < 1e-6);
}

/// The leader is the lowest energy, lowest index on ties.
#[test]
fn leader_is_the_lowest_energy_lowest_index() {
    assert_eq!(leader(&[3.0, -1.0, -1.0, 2.0]), 1);
    assert_eq!(leader(&[0.0]), 0);
}

/// Guidance points from the trajectory toward the leader,
/// scaled by `w / (1 + ||d||)`, and flips as a whole when it opposes the
/// momentum by more than the threshold.
#[test]
fn guidance_points_at_the_leader_and_flips_against_momentum() {
    let gbest = [1.0f32, 1.0];
    let x = [0.0f32, 0.0];
    let mut guid = [0.0f32; 2];
    let expect = 0.5 / (1.0 + 2f32.sqrt());
    guidance_into(&mut guid, &gbest, 1.0, &x, &[1.0, 1.0], 0.5, 0.05);
    assert!((guid[0] - expect).abs() < 1e-6 && (guid[1] - expect).abs() < 1e-6);
    guidance_into(&mut guid, &gbest, 1.0, &x, &[-1.0, -1.0], 0.5, 0.05);
    assert!((guid[0] + expect).abs() < 1e-6 && (guid[1] + expect).abs() < 1e-6);
    // Zero momentum: cosine is zero, no flip.
    guidance_into(&mut guid, &gbest, 1.0, &x, &[0.0, 0.0], 0.5, 0.05);
    assert!(guid[0] > 0.0);
    // Gauge -1 pulls toward the mirrored leader.
    guidance_into(&mut guid, &gbest, -1.0, &x, &[0.0, 0.0], 0.5, 0.05);
    assert!(guid[0] < 0.0);
}

/// One trajectory with no perturbation is plain SB bit for
/// bit, because its leader is itself and the guidance is zero. Covers a
/// biased graph so the ancilla path is exercised.
#[test]
fn single_trajectory_without_perturbation_matches_plain_sb() {
    let cfg = GgsbConfig {
        perturb_milli: 0,
        ..GgsbConfig::default()
    };
    for (name, g) in [("ring12", ring12()), ("biased", biased_chain())] {
        let swarm = sample_ggsb(&g, &sb_params(1, 300, 21), dsb(), cfg);
        let plain = sample_sb(&g, &sb_params(1, 300, 21), dsb());
        assert_eq!(swarm[0].spins, plain[0].spins, "{name}");
        assert_eq!(swarm[0].energy_milli, plain[0].energy_milli, "{name}");
    }
}

#[test]
fn sb_ggsb_finds_brute_forced_ground_states() {
    for (name, g, reads, sweeps) in [
        ("triangle", frustrated_triangle(), 32, 512),
        ("ring12", ring12(), 64, 2048),
    ] {
        let want = brute_force_min_energy(&g);
        let results = sample_ggsb(
            &g,
            &sb_params(reads, sweeps, 2026),
            dsb(),
            GgsbConfig::default(),
        );
        let best = results
            .iter()
            .map(|r| r.energy_milli)
            .min()
            .expect("reads > 0");
        assert_eq!(best, want, "{name}: best {best} != brute-force {want}");
    }
}

#[test]
fn sb_ggsb_degenerate_graphs_return_valid_spins() {
    let cases = [
        ("empty", IsingGraph::new(vec![], vec![], vec![])),
        ("no edges", IsingGraph::new(vec![0.0; 3], vec![], vec![])),
        (
            "bias only",
            IsingGraph::new(vec![1.0, -1.0], vec![], vec![]),
        ),
        (
            "non-finite coupling",
            IsingGraph::new(vec![0.0, 0.0], vec![f64::INFINITY], vec![(0, 1)]),
        ),
    ];
    for (name, g) in cases {
        let results = sample_ggsb(&g, &sb_params(3, 40, 1), dsb(), GgsbConfig::default());
        assert_eq!(results.len(), 3, "{name}");
        for r in &results {
            assert_eq!(r.spins.len(), g.h.len(), "{name}");
            assert!(r.spins.iter().all(|&s| s == 1 || s == -1), "{name}");
        }
    }
}

/// One seed, one result, and a different seed moves it on a
/// run too short to converge.
#[test]
fn sb_ggsb_same_seed_same_result_different_seed_differs() {
    let g = ring12();
    let a = sample_ggsb(&g, &sb_params(8, 20, 9), dsb(), GgsbConfig::default());
    let b = sample_ggsb(&g, &sb_params(8, 20, 9), dsb(), GgsbConfig::default());
    let c = sample_ggsb(&g, &sb_params(8, 20, 10), dsb(), GgsbConfig::default());
    let spins = |v: &[SamplerResult]| v.iter().map(|r| r.spins.clone()).collect::<Vec<_>>();
    assert_eq!(spins(&a), spins(&b));
    assert_ne!(spins(&a), spins(&c));
}