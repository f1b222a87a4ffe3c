use quip_miner_cpu::accept::Odds;
use quip_miner_cpu::cpu_sampler::{CoreBudget, CpuSampler};
use quip_miner_cpu::ising::IsingGraph as Problem;
use quip_miner_cpu::rng::read_seed;
use quip_miner_cpu::sa_int::IntGraph;
use quip_miner_cpu::sa_msc::MscState;
use quip_miner_cpu::sa_sampler::{
    level_rows, sample_sa_variant_with_cache, CachedColoring, SaSampler, SaShared, SaVariant,
};
use quip_miner_cpu::sampler_core::{
    sample_ising, Algorithm, SampleParams as Settings, SamplerResult,
};
use quip_miner_cpu::scalar::Scalar;
use quip_protocol::scoring::energy_milli;
use quip_solver_core::beta::{default_ising_beta_range, geometric_beta_schedule};
use quip_solver_core::{IsingGraph, SampleParams};
use rand::rngs::SmallRng;
use rand::{Rng, SeedableRng};

/// Cores of the host in these tests.
const HOST: usize = 8;

/// A weight in thousandths; one that is not finite is 0.
fn milli(x: f64) -> i32 {
    if x.is_finite() {
        (x * 1000.0).round() as i32
    } else {
        0
    }
}

/// A problem with its weights in thousandths.
fn problem(g: &IsingGraph) -> Problem {
    Problem::new(
        g.h.iter().map(|&x| milli(x)).collect(),
        g.j.iter().map(|&x| milli(x)).collect(),
        g.edges.to_vec(),
    )
}

fn settings(p: &SampleParams) -> Settings {
    Settings {
        num_reads: p.num_reads,
        num_sweeps: p.num_sweeps,
        sweeps_per_beta: p.sweeps_per_beta,
        seed: p.seed,
    }
}

/// The ladder of inverse temperatures of a job.
fn ladder(g: &IsingGraph, p: &SampleParams) -> Vec<f64> {
    let (hot, cold) = p.beta_range.unwrap_or_else(|| default_ising_beta_range(g));
    geometric_beta_schedule(hot, cold, settings(p).num_betas())
}

#[derive(Clone, Copy, Debug, PartialEq)]
struct Double(f64);

impl Scalar for Double {
    fn from_milli(m: i32) -> Self {
        Double(f64::from(m) / 1000.0)
    }
    fn ratio(num: usize, den: usize) -> Self {
        Double(num as f64 / den as f64)
    }
    fn sum(self, other: Self) -> Self {
        Double(self.0 + other.0)
    }
    fn difference(self, other: Self) -> Self {
        Double(self.0 - other.0)
    }
    fn product(self, other: Self) -> Self {
        Double(self.0 * other.0)
    }
    fn quotient(self, other: Self) -> Self {
        Double(self.0 / other.0)
    }
    fn square_root(self) -> Self {
        Double(self.0.sqrt())
    }
    fn less(self, other: Self) -> bool {
        self.0 < other.0
    }
    fn at_least(self, other: Self) -> bool {
        self.0 >= other.0
    }
}

/// A draw of 53 bits as a number in `[0, 1)`.
fn unit(bits: u64) -> f64 {
    bits as f64 * (1.0 / (1u64 << 53) as f64)
}

fn exp(x: Double) -> Double {
    Double(x.0.exp())
}

fn below(bits: u64, p: Double) -> bool {
    unit(bits) < p.0
}

/// The odds of a job along a ladder.
fn odds(betas: &[f64]) -> Odds<Double, fn(Double) -> Double, fn(u64, Double) -> bool> {
    Odds { ladder: betas.iter().map(|&b| Double(b)).collect(), exp, below }
}

/// How many of the 2^64 draws fall below a probability.
fn share(p: Double) -> u64 {
    (p.0 * 18_446_744_073_709_551_616.0) as u64
}

fn cuts(betas: &[f64], max_field: usize) -> Vec<Vec<u64>> {
    level_rows(&odds(betas), &share, max_field + 1)
}

fn sample(
    s: &SaSampler,
    shared: &mut SaShared,
    g: &IsingGraph,
    p: &SampleParams,
) -> Vec<SamplerResult> {
    let betas = ladder(g, p);
    s.sample(
        shared,
        &problem(g),
        &settings(p),
        &odds(&betas),
        &share,
    )
}

/// One job without a cache.
fn sample_sa_variant(g: &IsingGraph, p: &SampleParams, variant: SaVariant) -> Vec<SamplerResult> {
    let betas = ladder(g, p);
    sample_sa_variant_with_cache(
        &problem(g),
        &settings(p),
        variant,
        &odds(&betas),
        &share,
        None,
        &mut None,
    )
    .expect("no cancel token")
}

fn sample_sa(g: &IsingGraph, p: &SampleParams) -> Vec<SamplerResult> {
    let betas = ladder(g, p);
    sample_ising(
        &problem(g),
        &settings(p),
        Algorithm::Sa,
        &odds(&betas),
    )
}

fn threshold_draws(betas: &[f64], max_field: usize, rng: &mut SmallRng) -> Option<Vec<u8>> {
    quip_miner_cpu::sa_int::threshold_draws(&cuts(betas, max_field), rng)
}

fn read_rng(base: u64, read: usize) -> SmallRng {
    SmallRng::seed_from_u64(read_seed(base, read))
}

fn cached(shared: &SaShared) -> &CachedColoring {
    shared.cached().as_ref().expect("cached colouring")
}

fn zephyr_like(n: usize, seed: u64, fields: &[f64]) -> IsingGraph {
    let mut rng = SmallRng::seed_from_u64(seed);
    let h: Vec<f64> = (0..n)
        .map(|_| fields[rng.gen_range(0..fields.len())])
        .collect();
    let mut edges = Vec::new();
    let mut j = Vec::new();
    for u in 0..n {
        for v in (u + 1)..n {
            if rng.gen::<f64>() < 0.3 {
                edges.push((u, v));
                j.push(if rng.gen::<bool>() { 1.0 } else { -1.0 });
            }
        }
    }
    IsingGraph::new(h, j, edges)
}

fn params(num_reads: usize, num_sweeps: usize, seed: u64) -> SampleParams {
    SampleParams {
        num_reads,
        num_sweeps,
        seed,
        ..Default::default()
    }
}

fn result_spins(v: &[SamplerResult]) -> Vec<Vec<i8>> {
    v.iter().map(|r| r.spins.clone()).collect()
}

#[test]
fn the_core_budget_tracks_cpu_sa_rather_than_the_bare_host() {
    // An operator setting num_cpus must get the same concurrency from
    // every CPU backend. Without apply_config these binaries would run one
    // model per hardware thread while cpu-sa ran the configured number,
    // oversubscribing the host against an explicit instruction.
    for variant in [SaVariant::Tabulated, SaVariant::MultiSpin] {
        // Both fresh each pass: a reused budget would carry the setting forward.
        let sa = CpuSampler::new(Algorithm::Sa);
        let mut budget = CoreBudget::new();
        let s = SaSampler::new(variant);
        let mut shared = SaShared::new();
        let early = s.clone();
        assert_eq!(s.stream_width(&shared, HOST), sa.stream_width(&budget, HOST), "default budget");

        // Clamped to the host, so a two-core CI box expects 2, not 3.
        let want = 3.min(HOST);
        s.apply_config(&mut shared, "num_cpus = 3", HOST).expect("accepted");
        sa.apply_config(&mut budget, "num_cpus = 3", HOST).expect("accepted");
        assert_eq!(s.stream_width(&shared, HOST), want, "configured budget");
        assert_eq!(
            s.stream_width(&shared, HOST),
            sa.stream_width(&budget, HOST),
            "configured budget"
        );

        // The budget lives beside the handle, so a clone still sees what the
        // handshake stored, whenever it was taken.
        assert_eq!(s.clone().stream_width(&shared, HOST), want);
        assert_eq!(early.stream_width(&shared, HOST), want);
        assert_eq!(early.stream_width(&SaShared::new(), HOST), HOST);
    }
}

#[test]
fn msa_matches_scalar_color_sweeps_across_replica_words() {
    // The path's color order is [1, 3], then [0, 2, 4]. Updating in
    // node order, or shifting the second word differently, changes spins.
    let graph = IsingGraph::new(
        vec![1.0, 0.0, -1.0, 0.0, 1.0],
        vec![1.0, -1.0, 1.0, -1.0],
        vec![(0, 1), (1, 2), (2, 3), (3, 4)],
    );
    let params = SampleParams {
        num_reads: 70,
        num_sweeps: 9,
        sweeps_per_beta: 3,
        beta_range: Some((0.05, 0.15)),
        seed: 19,
        ..Default::default()
    };
    let int = IntGraph::from_base(&problem(&graph)).expect("unit graph");
    let mut rng = SmallRng::seed_from_u64(19 ^ 0x5341_5F54_424C_4531);
    let draws = threshold_draws(
        &ladder(&graph, &params),
        int.max_field(),
        &mut rng,
            )
    .expect("three rows");
    // CUDA splitmix64(seed ^ (beta_idx << 20) ^ sweep) & 8191.
    let offsets = [[6724, 4146, 4963], [4285, 4953, 6317], [3132, 4413, 1117]];
    let actual = sample_sa_variant(&graph, &params, SaVariant::MultiSpin);
    for base in [0, 64] {
        let mut rng = read_rng(params.seed, base);
        let state = MscState::random(5, &mut rng);
        for lane in 0..64.min(params.num_reads - base) {
            let mut spins = state.lane(lane);
            for (row, shifts) in draws.chunks_exact(8192).zip(offsets) {
                for off in shifts {
                    for var in [1, 3, 0, 2, 4] {
                        let mut field = graph.h[var];
                        for (&(u, v), &j) in graph.edges.iter().zip(&graph.j) {
                            if u == var {
                                field += j * f64::from(spins[v]);
                            } else if v == var {
                                field += j * f64::from(spins[u]);
                            }
                        }
                        let delta = -2.0 * f64::from(spins[var]) * field;
                        if delta <= 2.0 * f64::from(row[(var + off) & 8191]) {
                            spins[var] = -spins[var];
                        }
                    }
                }
            }
            assert_eq!(actual[base + lane].spins, spins, "read {}", base + lane);
        }
    }
}

#[test]
fn msa_sweep_budget_uses_complete_beta_rungs() {
    // With no bonds or fields, every attempted flip is accepted. The
    // final signs expose the sweep count without depending on randomness.
    let graph = IsingGraph::new(vec![0.0; 5], vec![], vec![]);
    let mut rng = read_rng(17, 0);
    let initial = MscState::random(5, &mut rng).lane(0);
    for (sweeps, per_beta, flips) in [(0, 0, 1), (0, 4, 4), (2, 4, 4), (7, 3, 6), (9, 3, 9)] {
        let params = SampleParams {
            num_reads: 1,
            num_sweeps: sweeps,
            sweeps_per_beta: per_beta,
            seed: 17,
            ..Default::default()
        };
        let actual = sample_sa_variant(&graph, &params, SaVariant::MultiSpin);
        let expected: Vec<i8> = initial
            .iter()
            .map(|&s| if flips % 2 == 0 { s } else { -s })
            .collect();
        assert_eq!(
            actual[0].spins, expected,
            "sweeps={sweeps}, per_beta={per_beta}"
        );
    }
}

#[test]
fn both_variants_return_exactly_num_reads_solutions() {
    let graph = zephyr_like(30, 1, &[0.0]);
    for variant in [SaVariant::Tabulated, SaVariant::MultiSpin] {
        // 1 is below one word, 64 is exactly one, 70 spills into a second.
        for reads in [1usize, 5, 64, 70] {
            let out = sample(&SaSampler::new(variant), &mut SaShared::new(), &graph, &params(reads, 64, 9));
            assert_eq!(out.len(), reads, "{variant:?} with {reads} reads");
            assert!(out
                .iter()
                .all(|r| r.spins.len() == 30 && r.spins.iter().all(|&s| s == 1 || s == -1)));
        }
    }
}

#[test]
fn energies_match_the_protocol_scoring() {
    let graph = zephyr_like(24, 2, &[-1.0, 0.0, 1.0]);
    for variant in [SaVariant::Tabulated, SaVariant::MultiSpin] {
        for r in sample(&SaSampler::new(variant), &mut SaShared::new(), &graph, &params(8, 128, 3))
        {
            assert_eq!(
                r.energy_milli,
                energy_milli(&r.spins, &graph.h, &graph.j, &graph.edges),
                "{variant:?}"
            );
        }
    }
}

#[test]
fn same_seed_same_result_and_different_seed_differs() {
    let graph = zephyr_like(28, 5, &[0.0]);
    for variant in [SaVariant::Tabulated, SaVariant::MultiSpin] {
        let s = SaSampler::new(variant);
        let mut shared = SaShared::new();
        let a = sample(&s, &mut shared, &graph, &params(4, 32, 11));
        let b = sample(&s, &mut shared, &graph, &params(4, 32, 11));
        let c = sample(&s, &mut shared, &graph, &params(4, 32, 12));
        let spins = |v: &Vec<SamplerResult>| -> Vec<Vec<i8>> {
            v.iter().map(|r| r.spins.clone()).collect()
        };
        assert_eq!(spins(&a), spins(&b), "{variant:?} is not deterministic");
        assert_ne!(spins(&a), spins(&c), "{variant:?} ignores the seed");
    }
}

#[test]
fn non_discrete_problems_fall_back_to_the_sa_kernel() {
    // Couplings of 0.5 have no integer view, so both variants must still
    // answer, by way of the ordinary cpu-sa kernel.
    let graph = IsingGraph::new(vec![0.0, 0.0, 0.0], vec![0.5, -0.5], vec![(0, 1), (1, 2)]);
    for variant in [SaVariant::Tabulated, SaVariant::MultiSpin] {
        let out = sample(&SaSampler::new(variant), &mut SaShared::new(), &graph, &params(3, 64, 7));
        assert_eq!(out.len(), 3);
        let expect = sample_sa(&graph, &params(3, 64, 7));
        assert_eq!(
            out.iter().map(|r| r.spins.clone()).collect::<Vec<_>>(),
            expect.iter().map(|r| r.spins.clone()).collect::<Vec<_>>(),
            "{variant:?} fallback must be the cpu-sa kernel exactly"
        );
    }
}

#[test]
fn multi_spin_falls_back_when_the_field_is_too_large_for_a_ghost_bond() {
    // |h| = 2 cannot be one ghost bond, so bond_counts refuses and the
    // multi-spin variant runs the scalar tabulated kernel instead. It must
    // still produce well-formed reads.
    let graph = IsingGraph::new(vec![2.0, 0.0, -2.0], vec![1.0, -1.0], vec![(0, 1), (1, 2)]);
    let out = sample(&SaSampler::new(SaVariant::MultiSpin), &mut SaShared::new(), &graph, &params(4, 64, 2));
    assert_eq!(out.len(), 4);
    assert!(out.iter().all(|r| r.spins.len() == 3));
}

#[test]
fn a_problem_with_no_bonds_at_all_is_safe() {
    // No couplings and no fields: every configuration has energy 0 and
    // there is no uphill move, which is the edge the threshold table has
    // to survive.
    let graph = IsingGraph::new(vec![0.0; 5], vec![], vec![]);
    for variant in [SaVariant::Tabulated, SaVariant::MultiSpin] {
        let out = sample(&SaSampler::new(variant), &mut SaShared::new(), &graph, &params(3, 32, 1));
        assert_eq!(out.len(), 3);
        assert!(out.iter().all(|r| r.energy_milli == 0));
    }
}

#[test]
fn fields_only_problem_lands_on_the_exact_optimum() {
    // No couplings, so every spin independently opposes its field and the
    // optimum is -sum|h|. This is the test that exercises the multi-spin
    // ghost bond: with no neighbours, the field is the only plane.
    let n = 40usize;
    let mut rng = SmallRng::seed_from_u64(6);
    let h: Vec<f64> = (0..n)
        .map(|_| if rng.gen::<bool>() { 1.0 } else { -1.0 })
        .collect();
    let optimum = -(h.iter().map(|v| v.abs()).sum::<f64>() as i64) * 1000;
    let graph = IsingGraph::new(h, vec![], vec![]);
    for variant in [SaVariant::Tabulated, SaVariant::MultiSpin] {
        let best = sample(&SaSampler::new(variant), &mut SaShared::new(), &graph, &params(8, 256, 4))
            .iter()
            .map(|r| r.energy_milli)
            .min()
            .expect("reads");
        assert_eq!(best, optimum, "{variant:?}");
    }
}

#[test]
fn ferromagnetic_clique_anneals_to_its_ground_state() {
    // Every pair coupled at -1: the ground states are all-up and all-down
    // at energy -C(n, 2), and single-flip descent reaches them from
    // anywhere, so a kernel that anneals at all must find this.
    let n = 8usize;
    let mut edges = Vec::new();
    for u in 0..n {
        for v in (u + 1)..n {
            edges.push((u, v));
        }
    }
    let j = vec![-1.0; edges.len()];
    let optimum = -((n * (n - 1) / 2) as i64) * 1000;
    let graph = IsingGraph::new(vec![0.0; n], j, edges);
    for variant in [SaVariant::Tabulated, SaVariant::MultiSpin] {
        let best = sample(&SaSampler::new(variant), &mut SaShared::new(), &graph, &params(8, 256, 4))
            .iter()
            .map(|r| r.energy_milli)
            .min()
            .expect("reads");
        assert_eq!(best, optimum, "{variant:?}");
    }
}

#[test]
fn public_cached_sample_matches_uncached_reference() {
    let graphs = [
        zephyr_like(20, 1, &[0.0]),
        zephyr_like(16, 2, &[-1.0, 0.0, 1.0]),
        IsingGraph::new(vec![0.0; 5], vec![], vec![]),
        IsingGraph::new(
            vec![1.0, 0.0, -1.0, 0.0, 1.0],
            vec![1.0, -1.0, 1.0, -1.0],
            vec![(0, 1), (1, 2), (2, 3), (3, 4)],
        ),
    ];
    let s = SaSampler::new(SaVariant::MultiSpin);
    let mut shared = SaShared::new();
    for (i, graph) in graphs.iter().enumerate() {
        let p = params(8, 16, 100 + i as u64);
        let cached = sample(&s, &mut shared, graph, &p);
        let cold = sample_sa_variant(graph, &p, SaVariant::MultiSpin);
        assert_eq!(result_spins(&cached), result_spins(&cold), "graph {i}");
    }
}

#[test]
fn cache_reuses_one_entry_across_field_and_coupling_changes() {
    let edges = vec![(0, 1), (1, 2), (2, 3), (0, 3)];
    let first = IsingGraph::new(vec![0.0; 4], vec![1.0, -1.0, 1.0, -1.0], edges.clone());
    let second = IsingGraph::new(vec![1.0, -1.0, 0.0, 1.0], vec![-1.0, 0.0, 1.0, 0.0], edges);
    let p = params(8, 16, 3);
    let s = SaSampler::new(SaVariant::MultiSpin);
    let mut shared = SaShared::new();
    let a = sample(&s, &mut shared, &first, &p);
    let ptr = cached(&shared).edges().as_ptr();
    let b = sample(&s, &mut shared, &second, &p);
    let warm = cached(&shared);
    assert_eq!(
        warm.edges().as_ptr(),
        ptr,
        "fields and J are not part of the key"
    );
    assert_eq!(warm.nodes(), 4);
    assert_eq!(warm.edges(), &first.edges.to_vec());
    assert_eq!(
        result_spins(&a),
        result_spins(
            &sample_sa_variant(&first, &p, SaVariant::MultiSpin)
            )
    );
    assert_eq!(
        result_spins(&b),
        result_spins(
            &sample_sa_variant(&second, &p, SaVariant::MultiSpin)
            )
    );
}

#[test]
fn cache_invalidates_when_nodes_or_ordered_edges_change() {
    let s = SaSampler::new(SaVariant::MultiSpin);
    let mut shared = SaShared::new();
    let p = params(4, 8, 11);
    let base = IsingGraph::new(vec![0.0; 4], vec![1.0, 1.0], vec![(0, 1), (1, 2)]);
    sample(&s, &mut shared, &base, &p);
    assert_eq!(cached(&shared).nodes(), 4);
    assert_eq!(cached(&shared).edges(), &base.edges.to_vec());

    let extra_node = IsingGraph::new(vec![0.0; 5], vec![1.0, 1.0], vec![(0, 1), (1, 2)]);
    let extra = sample(&s, &mut shared, &extra_node, &p);
    assert_eq!(cached(&shared).nodes(), 5, "node count is part of the key");
    assert_eq!(
        result_spins(&extra),
        result_spins(
            &sample_sa_variant(&extra_node, &p, SaVariant::MultiSpin)
            )
    );

    let reordered = IsingGraph::new(vec![0.0; 4], vec![1.0, 1.0], vec![(1, 2), (0, 1)]);
    let reordered_out = sample(&s, &mut shared, &reordered, &p);
    assert_eq!(cached(&shared).edges(), &reordered.edges.to_vec(), "edge order is part of the key");
    assert_eq!(
        result_spins(&reordered_out),
        result_spins(
            &sample_sa_variant(&reordered, &p, SaVariant::MultiSpin)
            )
    );

    let with_loop = IsingGraph::new(
        vec![0.0; 4],
        vec![1.0, 1.0, 0.0],
        vec![(1, 2), (0, 1), (2, 2)],
    );
    let loop_out = sample(&s, &mut shared, &with_loop, &p);
    assert_eq!(cached(&shared).edges(), &with_loop.edges.to_vec(), "self-loops change the raw edge list");
    assert_eq!(
        result_spins(&loop_out),
        result_spins(
            &sample_sa_variant(&with_loop, &p, SaVariant::MultiSpin)
            )
    );
}

#[test]
fn tabulated_and_fallback_cached_paths_match_uncached() {
    let discrete = zephyr_like(12, 4, &[0.0, 1.0]);
    let fractional =
        IsingGraph::new(vec![0.0, 0.0, 0.0], vec![0.5, -0.5], vec![(0, 1), (1, 2)]);
    let too_large_field =
        IsingGraph::new(vec![2.0, 0.0, -2.0], vec![1.0, -1.0], vec![(0, 1), (1, 2)]);
    let p = params(4, 32, 7);
    let tab = SaSampler::new(SaVariant::Tabulated);
    let msa = SaSampler::new(SaVariant::MultiSpin);
    let (mut tab_state, mut msa_state) = (SaShared::new(), SaShared::new());
    for (graph, variant) in [
        (&discrete, SaVariant::Tabulated),
        (&fractional, SaVariant::Tabulated),
        (&fractional, SaVariant::MultiSpin),
        (&too_large_field, SaVariant::MultiSpin),
    ] {
        let (s, shared) = if variant == SaVariant::Tabulated {
            (&tab, &mut tab_state)
        } else {
            (&msa, &mut msa_state)
        };
        let cached = sample(s, shared, graph, &p);
        let uncached = sample_sa_variant(graph, &p, variant);
        assert_eq!(
            result_spins(&cached),
            result_spins(&uncached),
            "{variant:?}"
        );
    }
}


/// Level `n` is the share of the draws below `exp(-2 beta n)`; level 0 is all.
#[test]
fn levels_are_shares_of_the_draws() {
    let rows = cuts(&[0.5, 2.0], 2);
    assert_eq!(rows.len(), 2);
    assert_eq!(rows[0], [u64::MAX, share(Double((-1.0f64).exp())), share(Double((-2.0f64).exp()))]);
    assert_eq!(rows[1][1], share(Double((-4.0f64).exp())));
    assert_eq!(share(Double(0.5)), 1 << 63);
}

#[test]
fn clones_share_the_topology_cache() {
    let s = SaSampler::new(SaVariant::MultiSpin);
    let c = s.clone();
    let mut shared = SaShared::new();
    let graph = IsingGraph::new(vec![0.0; 3], vec![-1.0], vec![(0, 1)]);
    let p = params(4, 8, 2);
    sample(&s, &mut shared, &graph, &p);
    let owner = cached(&shared).edges().as_ptr();
    let warm = sample(&c, &mut shared, &graph, &p);
    assert_eq!(cached(&shared).edges().as_ptr(), owner, "still cached");
    assert_eq!(
        result_spins(&warm),
        result_spins(&sample_sa_variant(&graph, &p, SaVariant::MultiSpin))
    );
}

#[test]
fn only_a_multi_spin_job_fills_the_cache() {
    let graph = zephyr_like(24, 3, &[0.0]);
    let run = params(4, 8, 11);
    let mut shared = SaShared::new();
    sample(&SaSampler::new(SaVariant::Tabulated), &mut shared, &graph, &run);
    assert!(shared.cached().is_none());
    let packed = SaSampler::new(SaVariant::MultiSpin);
    sample(&packed, &mut shared, &graph, &run);
    // A problem with uneven couplings runs the general kernel.
    let uneven = IsingGraph::new(vec![0.0; 3], vec![0.3, 1.7], vec![(0, 1), (1, 2)]);
    sample(&packed, &mut shared, &uneven, &run);
    let entry = cached(&shared);
    assert!(entry.matches_graph(&problem(&graph)));
    assert!(entry.clone().matches_graph(&problem(&graph)));
}
