use quip_miner_cpu::accept::Odds;
use quip_miner_cpu::coloring::Coloring;
use quip_miner_cpu::ising::IsingGraph as Problem;
use quip_miner_cpu::planes::{add_plane, popcount21, CSA_INPUTS, LANES, MAX_DEGREE, PLANES};
use quip_miner_cpu::sa_int::{anneal_from, draw_row, fill_threshold_row, sweep_offsets, IntGraph};
use quip_miner_cpu::sa_msc::{
    anneal_words, bond_counts, count_planes, sweep_offset, sweep_word, MscState,
};
use quip_miner_cpu::sa_sampler::level_rows;
use quip_miner_cpu::sampler_core::CpuGraph;
use quip_miner_cpu::scalar::Scalar;
use quip_solver_core::beta::geometric_beta_schedule;
use quip_solver_core::{CancelToken, IsingGraph};
use rand::rngs::SmallRng;
use rand::{Rng, SeedableRng};

/// A weight in thousandths; one that is not finite is 0.
fn milli(x: f64) -> i32 {
    if x.is_finite() {
        (x * 1000.0).round() as i32
    } else {
        0
    }
}

/// A problem with its weights in thousandths.
fn problem(g: &IsingGraph) -> Problem {
    Problem::new(
        g.h.iter().map(|&x| milli(x)).collect(),
        g.j.iter().map(|&x| milli(x)).collect(),
        g.edges.to_vec(),
    )
}

#[derive(Clone, Copy, Debug, PartialEq)]
struct Double(f64);

impl Scalar for Double {
    fn from_milli(m: i32) -> Self {
        Double(f64::from(m) / 1000.0)
    }
    fn ratio(num: usize, den: usize) -> Self {
        Double(num as f64 / den as f64)
    }
    fn sum(self, other: Self) -> Self {
        Double(self.0 + other.0)
    }
    fn difference(self, other: Self) -> Self {
        Double(self.0 - other.0)
    }
    fn product(self, other: Self) -> Self {
        Double(self.0 * other.0)
    }
    fn quotient(self, other: Self) -> Self {
        Double(self.0 / other.0)
    }
    fn square_root(self) -> Self {
        Double(self.0.sqrt())
    }
    fn less(self, other: Self) -> bool {
        self.0 < other.0
    }
    fn at_least(self, other: Self) -> bool {
        self.0 >= other.0
    }
}

fn exp(x: Double) -> Double {
    Double(x.0.exp())
}

fn below(bits: u64, p: Double) -> bool {
    (bits as f64 * (1.0 / (1u64 << 53) as f64)) < p.0
}

/// The odds of a job along a ladder.
fn odds(betas: &[f64]) -> Odds<Double, fn(Double) -> Double, fn(u64, Double) -> bool> {
    Odds { ladder: betas.iter().map(|&b| Double(b)).collect(), exp, below }
}

/// How many of the 2^64 draws fall below a probability.
fn share(p: Double) -> u64 {
    (p.0 * 18_446_744_073_709_551_616.0) as u64
}

fn cuts(betas: &[f64], max_field: usize) -> Vec<Vec<u64>> {
    level_rows(&odds(betas), &share, max_field + 1)
}

fn threshold_draws(betas: &[f64], max_field: usize, rng: &mut SmallRng) -> Option<Vec<u8>> {
    quip_miner_cpu::sa_int::threshold_draws(&cuts(betas, max_field), rng)
}

fn unit_graph(n: usize, seed: u64, fields: &[f64], p: f64) -> IsingGraph {
    let mut rng = SmallRng::seed_from_u64(seed);
    let h: Vec<f64> = (0..n)
        .map(|_| fields[rng.gen_range(0..fields.len())])
        .collect();
    let mut edges = Vec::new();
    let mut j = Vec::new();
    for u in 0..n {
        for v in (u + 1)..n {
            if rng.gen::<f64>() < p {
                edges.push((u, v));
                j.push(if rng.gen::<bool>() { 1.0 } else { -1.0 });
            }
        }
    }
    IsingGraph::new(h, j, edges)
}

#[test]
fn add_plane_counts_set_bits() {
    let mut rng = SmallRng::seed_from_u64(4);
    for inputs in [1usize, 2, 3, 7, 20, MAX_DEGREE] {
        let words: Vec<u64> = (0..inputs).map(|_| rng.gen::<u64>()).collect();
        let mut planes = [0u64; PLANES];
        let mut filled = 0usize;
        for &w in &words {
            add_plane(&mut planes, &mut filled, w);
        }
        for lane in 0..LANES {
            let expect = words.iter().filter(|w| (*w >> lane) & 1 == 1).count();
            let got: usize = (0..PLANES)
                .map(|k| ((planes[k] >> lane) & 1) as usize * (1 << k))
                .sum();
            assert_eq!(got, expect, "lane {lane} with {inputs} inputs");
        }
    }
}

#[test]
fn popcount21_matches_scalar_and_ripple_on_padded_inputs() {
    let mut rng = SmallRng::seed_from_u64(21);
    for n_set in 0..=CSA_INPUTS {
        for _ in 0..8 {
            let mut x = [0u64; CSA_INPUTS];
            for slot in x.iter_mut().take(n_set) {
                *slot = rng.gen();
            }
            let csa_planes = popcount21(&x);
            let mut ripple = [0u64; PLANES];
            let mut filled = 0usize;
            for &w in &x {
                add_plane(&mut ripple, &mut filled, w);
            }
            for lane in 0..LANES {
                let expect = x.iter().map(|w| ((w >> lane) & 1) as usize).sum::<usize>();
                let from_csa: usize = (0..PLANES)
                    .map(|k| ((csa_planes[k] >> lane) & 1) as usize * (1 << k))
                    .sum();
                let from_ripple: usize = (0..PLANES)
                    .map(|k| ((ripple[k] >> lane) & 1) as usize * (1 << k))
                    .sum();
                assert_eq!(from_csa, expect, "csa lane {lane} n_set {n_set}");
                assert_eq!(from_ripple, expect, "ripple lane {lane} n_set {n_set}");
            }
        }
    }
}

/// The load-bearing test: every lane of the multi-spin kernel must trace
/// exactly the trajectory the scalar kernel traces from the same initial
/// configuration and the same acceptance thresholds.
#[test]
fn every_lane_matches_the_scalar_kernel() {
    for (seed, fields) in [
        (1u64, &[0.0][..]),
        (2, &[-1.0, 0.0, 1.0][..]),
        (3, &[1.0][..]),
    ] {
        let graph = unit_graph(40, seed, fields, 0.35);
        let int = IntGraph::from_base(&problem(&graph)).expect("unit couplings qualify");
        let counts = bond_counts(&int).expect("degree within bounds");
        let betas = geometric_beta_schedule(0.05, 6.0, 24);
        let mut rng = SmallRng::seed_from_u64(seed);
        let draws = threshold_draws(&betas, int.max_field(), &mut rng).expect("short ladder");
        let offsets = sweep_offsets(betas.len(), 2, &mut rng);

        let mut state = MscState::random(int.num_nodes(), &mut rng);
        let before: Vec<Vec<i8>> = (0..LANES).map(|l| state.lane(l)).collect();
        let nodes: Vec<u32> = (0..int.num_nodes() as u32).collect();
        for (row, shifts) in draws.chunks_exact(draw_row()).zip(offsets.chunks_exact(2)) {
            for &off in shifts {
                sweep_word(&int, &counts, &row.to_vec(), &nodes, off, &mut state);
            }
        }

        for (lane, start) in before.iter().enumerate() {
            let mut spins = start.clone();
            anneal_from(&int, &draws, 2, &mut spins, &offsets, None).expect("no cancel token");
            assert_eq!(state.lane(lane), spins, "seed {seed} lane {lane}");
        }
    }
}

#[test]
fn cancelled_generation_leaves_replica_words_untouched() {
    let graph = unit_graph(8, 1, &[0.0], 0.5);
    let int = IntGraph::from_base(&problem(&graph)).expect("unit graph");
    let counts = bond_counts(&int).expect("small degree");
    let colors = Coloring::new(&CpuGraph::from_base(&problem(&graph)));
    let mut rng = SmallRng::seed_from_u64(1);
    let mut states = vec![MscState::random(8, &mut rng), MscState::random(8, &mut rng)];
    let before: Vec<_> = states.iter().map(|s| s.words().clone()).collect();
    let token = CancelToken::default();
    token.cancel_through(7);
    let result = anneal_words(
        &int,
        &counts,
        &colors,
        &cuts(&[0.1, 1.0], int.max_field()),
        1,
                0,
        &mut states,
        Some((&token, Some(7))),
    );
    assert!(result.is_err());
    for (state, expected) in states.iter().zip(before) {
        assert_eq!(state.words(), &expected);
    }
    assert!(
        anneal_words(
            &int,
            &counts,
            &colors,
            &cuts(&[0.1, 1.0], int.max_field()),
            1,
                0,
            &mut states,
            Some((&token, Some(8))),
        )
        .is_ok(),
        "a newer generation must still run"
    );
}

#[test]
fn rejects_degrees_beyond_the_plane_budget() {
    // A field larger than one cannot be a single ghost bond.
    let g = IsingGraph::new(vec![2.0, 0.0], vec![1.0], vec![(0, 1)]);
    let int = IntGraph::from_base(&problem(&g)).expect("unit couplings qualify");
    assert!(bond_counts(&int).is_none());
}

fn signed_star(neighbors: usize, field: f64, seed: u64) -> IsingGraph {
    let mut rng = SmallRng::seed_from_u64(seed);
    let n = neighbors + 1;
    let mut h = vec![0.0; n];
    h[0] = field;
    let edges: Vec<(usize, usize)> = (1..n).map(|v| (0, v)).collect();
    let j: Vec<f64> = (0..neighbors)
        .map(|_| if rng.gen::<bool>() { 1.0 } else { -1.0 })
        .collect();
    IsingGraph::new(h, j, edges)
}

/// Independent per-lane popcount of satisfied bonds, including the field.
fn scalar_satisfied(graph: &IntGraph, var: usize, spin: &[u64], lane: usize) -> u8 {
    let bi = (spin[var] >> lane) & 1;
    let mut acc = 0u8;
    let h = graph.bias(var);
    if h != 0 {
        acc += if h < 0 { 1 ^ bi } else { bi } as u8;
    }
    for &e in graph.neighbors(var) {
        let sign = u64::from(e >> 31);
        let bj = (spin[(e & 0x7fff_ffff) as usize] >> lane) & 1;
        acc += (sign ^ bi ^ bj) as u8;
    }
    acc
}

fn decode_planes(planes: &[u64; PLANES]) -> [u8; LANES] {
    let mut out = [0u8; LANES];
    for (lane, slot) in out.iter_mut().enumerate() {
        let mut c = 0u8;
        for (k, plane) in planes.iter().enumerate() {
            c |= (((plane >> lane) & 1) as u8) << k;
        }
        *slot = c;
    }
    out
}

fn threshold_samples(d: usize) -> [usize; 3] {
    let below = d.saturating_sub(1);
    [below, d, d.saturating_add(1)]
}

#[test]
fn packed_counts_match_scalar_for_listed_degrees() {
    const NEIGHBORS: [usize; 7] = [0, 1, 6, 20, 21, 48, 63];
    const FIELDS: [f64; 3] = [-1.0, 0.0, 1.0];
    const SEEDS: [u64; 3] = [1, 7, 99];
    for &nbrs in &NEIGHBORS {
        for &field in &FIELDS {
            if nbrs + usize::from(field != 0.0) > MAX_DEGREE {
                continue;
            }
            for &seed in &SEEDS {
                let graph = signed_star(nbrs, field, seed);
                let int = IntGraph::from_base(&problem(&graph)).expect("unit star");
                let counts = bond_counts(&int).expect("degree within bounds");
                let n = int.num_nodes();
                let mut rng = SmallRng::seed_from_u64(seed ^ 0x00C0_FFEE);
                let spin_sets = [
                    MscState::random(n, &mut rng).words().clone(),
                    vec![0u64; n],
                    vec![u64::MAX; n],
                ];
                for spin in &spin_sets {
                    let var = 0usize;
                    let d = usize::from(counts[var]);
                    assert_eq!(d, nbrs + usize::from(field != 0.0), "d' at center");
                    let packed = decode_planes(&count_planes(&int, var, spin[var], spin));
                    for (lane, packed_count) in packed.iter().enumerate() {
                        let expect = scalar_satisfied(&int, var, spin, lane);
                        assert_eq!(
                            *packed_count, expect,
                            "nbrs {nbrs} field {field} seed {seed} lane {lane}"
                        );
                    }
                    for m in threshold_samples(d) {
                        let mut state = MscState::from_words(spin.clone());
                        let row = vec![m as u8; draw_row()];
                        sweep_word(&int, &counts, &row, &vec![0], 0, &mut state);
                        let limit = (d + m) / 2;
                        for (lane, packed_count) in packed.iter().enumerate() {
                            let accept = usize::from(*packed_count) <= limit;
                            let before = (spin[var] >> lane) & 1;
                            let after = (state.words()[var] >> lane) & 1;
                            assert_eq!(
                                after != before,
                                accept,
                                "nbrs {nbrs} field {field} seed {seed} m {m} lane {lane}"
                            );
                        }
                    }
                }
            }
        }
    }
}

#[test]
fn early_accept_flips_every_lane_when_threshold_covers_degree() {
    let graph = signed_star(6, 1.0, 3);
    let int = IntGraph::from_base(&problem(&graph)).expect("unit star");
    let counts = bond_counts(&int).expect("degree within bounds");
    let d = usize::from(counts[0]);
    let mut rng = SmallRng::seed_from_u64(5);
    let spin = MscState::random(int.num_nodes(), &mut rng).words().clone();
    for m in [d, d + 1] {
        let mut state = MscState::from_words(spin.clone());
        let row = vec![m as u8; draw_row()];
        sweep_word(&int, &counts, &row, &vec![0], 0, &mut state);
        assert_eq!(state.words()[0], !spin[0], "m {m} must flip every lane");
    }
}

#[test]
fn anneal_words_matches_per_word_sweep_word() {
    let graph = unit_graph(24, 11, &[-1.0, 0.0, 1.0], 0.4);
    let int = IntGraph::from_base(&problem(&graph)).expect("unit couplings qualify");
    let counts = bond_counts(&int).expect("degree within bounds");
    let colors = Coloring::new(&CpuGraph::from_base(&problem(&graph)));
    let betas = [0.2_f64, 1.5];
    let mut rng = SmallRng::seed_from_u64(1);
    let mut states = vec![
        MscState::random(int.num_nodes(), &mut rng),
        MscState::random(int.num_nodes(), &mut rng),
    ];
    let mut replay: Vec<MscState> = states
        .iter()
        .map(|s| MscState::from_words(s.words().clone()))
        .collect();
    anneal_words(&int, &counts, &colors, &cuts(&betas, int.max_field()), 3, 42, &mut states, None)
        .expect("no cancel token");

    let mut table_rng = SmallRng::seed_from_u64(42 ^ 0x5341_5F54_424C_4531);
    for (beta_idx, &beta) in betas.iter().enumerate() {
        let levels = cuts(&[beta], int.max_field()).remove(0);
        let row = fill_threshold_row(&levels, &mut table_rng);
        for sweep in 0..3 {
            let off = sweep_offset(42, beta_idx, sweep);
            for class in colors.classes() {
                for state in replay.iter_mut() {
                    sweep_word(&int, &counts, &row, class, off, state);
                }
            }
        }
    }
    for (got, expect) in states.iter().zip(&replay) {
        assert_eq!(got.words(), expect.words());
    }
}

#[test]
fn a_short_row_is_read_round_and_round() {
    let graph = signed_star(3, 1.0, 3);
    let int = IntGraph::from_base(&problem(&graph)).expect("unit star");
    let counts = bond_counts(&int).expect("degree within bounds");
    let mut rng = SmallRng::seed_from_u64(9);
    let start = MscState::random(int.num_nodes(), &mut rng).words().clone();
    let nodes: Vec<u32> = (0..int.num_nodes() as u32).collect();
    for short in [vec![2u8], vec![0, 3], vec![1, 0, 4, 2]] {
        let long: Vec<u8> = short.iter().copied().cycle().take(draw_row()).collect();
        for off in [0, 1, 6] {
            let mut a = MscState::from_words(start.clone());
            let mut b = MscState::from_words(start.clone());
            sweep_word(&int, &counts, &short, &nodes, off, &mut a);
            sweep_word(&int, &counts, &long, &nodes, off, &mut b);
            assert_eq!(a.words(), b.words(), "row {short:?} offset {off}");
        }
    }
}
