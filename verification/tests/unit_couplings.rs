use quip_miner_cpu::accept::Odds;
use quip_miner_cpu::ising::IsingGraph as Problem;
use quip_miner_cpu::sa_int::{
    anneal_one_read_int, offset_of, table_fits, threshold_of, IntGraph, DRAW_ROW, MAX_DRAW_BYTES,
    MAX_TABLE_ENTRIES, SIGN_BIT,
};
use quip_miner_cpu::rng::SampleCancelled;
use quip_miner_cpu::sa_sampler::level_rows;
use quip_miner_cpu::sampler_core::{effective_field, CpuGraph};
use quip_miner_cpu::scalar::Scalar;
use quip_solver_core::beta::geometric_beta_schedule;
use quip_solver_core::{CancelToken, IsingGraph};
use rand::rngs::SmallRng;
use rand::{Rng, SeedableRng};

/// A weight in thousandths; one that is not finite is 0.
fn milli(x: f64) -> i32 {
    if x.is_finite() {
        (x * 1000.0).round() as i32
    } else {
        0
    }
}

/// A problem with its weights in thousandths.
fn problem(g: &IsingGraph) -> Problem {
    Problem::new(
        g.h.iter().map(|&x| milli(x)).collect(),
        g.j.iter().map(|&x| milli(x)).collect(),
        g.edges.to_vec(),
    )
}

#[derive(Clone, Copy, Debug, PartialEq)]
struct Double(f64);

impl Scalar for Double {
    fn from_milli(m: i32) -> Self {
        Double(f64::from(m) / 1000.0)
    }
    fn ratio(num: usize, den: usize) -> Self {
        Double(num as f64 / den as f64)
    }
    fn sum(self, other: Self) -> Self {
        Double(self.0 + other.0)
    }
    fn difference(self, other: Self) -> Self {
        Double(self.0 - other.0)
    }
    fn product(self, other: Self) -> Self {
        Double(self.0 * other.0)
    }
    fn quotient(self, other: Self) -> Self {
        Double(self.0 / other.0)
    }
    fn square_root(self) -> Self {
        Double(self.0.sqrt())
    }
    fn less(self, other: Self) -> bool {
        self.0 < other.0
    }
    fn at_least(self, other: Self) -> bool {
        self.0 >= other.0
    }
}

/// A draw of 53 bits as a number in `[0, 1)`.
fn unit(bits: u64) -> f64 {
    bits as f64 * (1.0 / (1u64 << 53) as f64)
}

fn exp(x: Double) -> Double {
    Double(x.0.exp())
}

fn below(bits: u64, p: Double) -> bool {
    unit(bits) < p.0
}

/// The odds of a job along a ladder.
fn odds(betas: &[f64]) -> Odds<Double, fn(Double) -> Double, fn(u64, Double) -> bool> {
    Odds { ladder: betas.iter().map(|&b| Double(b)).collect(), exp, below }
}

/// How many of the 2^64 draws fall below a probability.
fn share(p: Double) -> u64 {
    (p.0 * 18_446_744_073_709_551_616.0) as u64
}

fn cuts(betas: &[f64], max_field: usize) -> Vec<Vec<u64>> {
    level_rows(&odds(betas), &share, max_field + 1)
}

fn acceptance_table(betas: &[f64], row_len: usize) -> Option<Vec<Double>> {
    quip_miner_cpu::sa_int::acceptance_table(&odds(betas), row_len)
}

fn threshold_draws(betas: &[f64], max_field: usize, rng: &mut SmallRng) -> Option<Vec<u8>> {
    quip_miner_cpu::sa_int::threshold_draws(&cuts(betas, max_field), rng)
}

fn anneal_one_read(
    cpu: &CpuGraph,
    betas: &[f64],
    sweeps: usize,
    rng: &mut SmallRng,
    cancel: Option<(&CancelToken, Option<u64>)>,
) -> Result<Vec<i8>, SampleCancelled> {
    quip_miner_cpu::sampler_core::anneal_one_read(
        cpu,
        sweeps,
        &odds(betas),
        rng,
        cancel,
    )
}

/// A `±1`-coupled graph on `n` nodes with a random edge set and fields
/// drawn from `fields`.
fn unit_graph(n: usize, seed: u64, fields: &[f64]) -> IsingGraph {
    let mut rng = SmallRng::seed_from_u64(seed);
    let h: Vec<f64> = (0..n)
        .map(|_| fields[rng.gen_range(0..fields.len())])
        .collect();
    let mut edges = Vec::new();
    let mut j = Vec::new();
    for u in 0..n {
        for v in (u + 1)..n {
            if rng.gen::<f64>() < 0.4 {
                edges.push((u, v));
                j.push(if rng.gen::<bool>() { 1.0 } else { -1.0 });
            }
        }
    }
    IsingGraph::new(h, j, edges)
}

#[test]
fn differential_matches_the_f64_kernel_on_unit_couplings() {
    // The whole reason `cpu-sa` may take this path without becoming a
    // different sampler: same seed, same spins, every read.
    for (seed, fields) in [
        (1u64, &[0.0][..]),
        (2, &[-1.0, 0.0, 1.0][..]),
        (3, &[-3.0, 2.0][..]),
    ] {
        let graph = unit_graph(24, seed, fields);
        let int = IntGraph::from_base(&problem(&graph)).expect("unit couplings qualify");
        let cpu = CpuGraph::from_base(&problem(&graph));
        let betas = geometric_beta_schedule(0.05, 6.0, 64);
        let table = acceptance_table(&betas, int.row_len()).expect("short ladder");
        for read in 0..8u64 {
            let mut a = SmallRng::seed_from_u64(seed * 977 + read);
            let mut b = SmallRng::seed_from_u64(seed * 977 + read);
            let fast =
                anneal_one_read_int(&int, &table, 2, &below, &mut a, None).expect("no cancel token");
            let slow = anneal_one_read(&cpu, &betas, 2, &mut b, None).expect("no cancel token");
            assert_eq!(fast, slow, "seed {seed} read {read}");
        }
    }
}

#[test]
fn rejects_problems_outside_its_preconditions() {
    // Non-unit coupling.
    let g = IsingGraph::new(vec![0.0, 0.0], vec![2.0], vec![(0, 1)]);
    assert!(IntGraph::from_base(&problem(&g)).is_none());
    // Fractional field.
    let g = IsingGraph::new(vec![0.5, 0.0], vec![1.0], vec![(0, 1)]);
    assert!(IntGraph::from_base(&problem(&g)).is_none());
    // Empty problem stays on the f64 path.
    let g = IsingGraph::new(vec![], vec![], vec![]);
    assert!(IntGraph::from_base(&problem(&g)).is_none());
    // A missing coupling reads as 0.0 and is dropped, which leaves a
    // problem with no bonds at all — still representable.
    let g = IsingGraph::new(vec![0.0, 0.0], vec![], vec![(0, 1)]);
    let int = IntGraph::from_base(&problem(&g)).expect("a dropped edge is not a violation");
    assert!(int.neighbors(0).is_empty());
}

#[test]
fn skipped_edges_do_not_force_the_fallback() {
    // Self-loops and out-of-range endpoints are dropped before their
    // couplings are inspected, so a non-unit coupling on one of them is
    // not a precondition violation — it is not part of the problem.
    let g = IsingGraph::new(
        vec![0.0, 0.0],
        vec![7.0, 9.0, -1.0],
        vec![(0, 0), (0, 5), (0, 1)],
    );
    let int = IntGraph::from_base(&problem(&g)).expect("only the kept edge is ±1");
    assert_eq!(int.neighbors(0), &[1 | SIGN_BIT]);
    assert_eq!(int.neighbors(1), &[SIGN_BIT]);
}

#[test]
fn max_field_bounds_the_reachable_effective_field() {
    let g = unit_graph(16, 11, &[-2.0, 2.0]);
    let int = IntGraph::from_base(&problem(&g)).expect("unit couplings qualify");
    let cpu = CpuGraph::from_base(&problem(&g));
    let mut rng = SmallRng::seed_from_u64(5);
    let betas = geometric_beta_schedule(0.05, 6.0, 8);
    let table = acceptance_table(&betas, int.row_len()).expect("short ladder");
    let spins = anneal_one_read_int(&int, &table, 1, &below, &mut rng, None).expect("no cancel token");
    for v in 0..int.num_nodes() {
        let f = effective_field(v, &spins, &cpu);
        assert!(
            f.abs() <= 1000 * int.max_field() as i128,
            "node {v} field {f} exceeds max_field {}",
            int.max_field()
        );
    }
}

#[test]
fn a_ladder_too_long_for_the_table_declines_instead_of_allocating() {
    // The caller falls back to the `f64` kernel, which produces the same
    // spins, so declining costs output nothing and bounds the memory a
    // caller can ask this path for.
    let betas = vec![1.0f64; MAX_TABLE_ENTRIES / 4 + 1];
    assert!(acceptance_table(&betas, 4).is_none());
    assert!(acceptance_table(&betas, 1).is_some());
}

#[test]
fn a_ladder_too_long_for_the_threshold_row_declines_instead_of_allocating() {
    let mut rng = SmallRng::seed_from_u64(9);
    let over = vec![1.0f64; MAX_DRAW_BYTES / DRAW_ROW + 1];
    assert!(threshold_draws(&over, 4, &mut rng).is_none());
    let under = vec![1.0f64; 8];
    assert!(threshold_draws(&under, 4, &mut rng).is_some());
}
/// A draw passes every level above it, and no draw passes a level of 0.
#[test]
fn a_threshold_is_the_last_level_that_admits_the_draw() {
    let levels = vec![u64::MAX, 1000, 100, 10, 0];
    assert_eq!(threshold_of(&levels, 1000), 0);
    assert_eq!(threshold_of(&levels, 999), 1);
    assert_eq!(threshold_of(&levels, 100), 1);
    assert_eq!(threshold_of(&levels, 99), 2);
    assert_eq!(threshold_of(&levels, 9), 3);
    assert_eq!(threshold_of(&levels, 0), 3);
    assert_eq!(threshold_of(&vec![u64::MAX], 0), 0);
}

#[test]
fn an_offset_indexes_a_row() {
    assert_eq!(offset_of(DRAW_ROW as u64), 0);
    assert_eq!(offset_of(u64::MAX), DRAW_ROW - 1);
    assert_eq!(offset_of(5), 5);
}

#[test]
fn the_table_bound_is_inclusive() {
    assert!(table_fits(MAX_TABLE_ENTRIES, 1));
    assert!(!table_fits(MAX_TABLE_ENTRIES + 1, 1));
    assert!(table_fits(usize::MAX, 0));
}

/// A cancelled run stops, and one without a watermark never does.
#[test]
fn a_cancelled_read_is_abandoned() {
    let g = unit_graph(8, 1, &[0.0]);
    let cpu = CpuGraph::from_base(&problem(&g));
    let token = CancelToken::default();
    token.cancel_through(4);
    let mut rng = SmallRng::seed_from_u64(1);
    assert!(anneal_one_read(&cpu, &[1.0], 4, &mut rng, Some((&token, Some(4)))).is_err());
    assert!(anneal_one_read(&cpu, &[1.0], 4, &mut rng, Some((&token, Some(5)))).is_ok());
    assert!(anneal_one_read(&cpu, &[1.0], 4, &mut rng, Some((&token, None))).is_ok());
}

/// Row `b` holds `exp(-2 beta n)`, with entry 0 left blank.
#[test]
fn the_acceptance_table_holds_the_chances() {
    let t = acceptance_table(&[0.25, 1.5], 3).expect("short ladder");
    let want = [0.0, -0.5f64, -1.0, 0.0, -3.0, -6.0];
    for (i, p) in t.iter().enumerate() {
        assert_eq!(p.0, if i % 3 == 0 { 0.0 } else { want[i].exp() });
    }
}
