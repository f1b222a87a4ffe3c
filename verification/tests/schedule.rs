use quip_miner_cpu::ising::IsingGraph as Problem;
use quip_miner_cpu::mps::schedule::{
    angle_factor, gain_at, gain_factor, gain_factors, gamma_zero, job_schedule, num_rungs,
    split_sweeps, step_rung, tau_factor, MIN_POLISH_SWEEPS,
};
use quip_miner_cpu::scalar::{thousandths, weight, whole, Scalar, Thousandths};
use quip_solver_core::beta::{default_ising_beta_range, geometric_beta_schedule};
use quip_solver_core::{IsingGraph, SampleParams};

/// A weight in thousandths; one that is not finite is 0.
fn milli(x: f64) -> i32 {
    if x.is_finite() {
        (x * 1000.0).round() as i32
    } else {
        0
    }
}

/// A problem with its weights in thousandths.
fn problem(g: &IsingGraph) -> Problem {
    Problem::new(
        g.h.iter().map(|&x| milli(x)).collect(),
        g.j.iter().map(|&x| milli(x)).collect(),
        g.edges.to_vec(),
    )
}

#[derive(Clone, Copy, Debug, PartialEq)]
struct Double(f64);

impl Scalar for Double {
    fn from_milli(m: i32) -> Self {
        Double(f64::from(m) / 1000.0)
    }
    fn ratio(num: usize, den: usize) -> Self {
        Double(num as f64 / den as f64)
    }
    fn sum(self, other: Self) -> Self {
        Double(self.0 + other.0)
    }
    fn difference(self, other: Self) -> Self {
        Double(self.0 - other.0)
    }
    fn product(self, other: Self) -> Self {
        Double(self.0 * other.0)
    }
    fn quotient(self, other: Self) -> Self {
        Double(self.0 / other.0)
    }
    fn square_root(self) -> Self {
        Double(self.0.sqrt())
    }
    fn less(self, other: Self) -> bool {
        self.0 < other.0
    }
    fn at_least(self, other: Self) -> bool {
        self.0 >= other.0
    }
}

/// Imaginary-time increments and transverse fields.
struct Schedule {
    eta: Vec<f64>,
    gamma: Vec<f64>,
}

fn build(g: &IsingGraph, p: &SampleParams, steps: usize) -> Schedule {
    let (hot, cold) = p.beta_range.unwrap_or_else(|| default_ising_beta_range(g));
    let betas = geometric_beta_schedule(hot, cold, num_rungs(steps, p.sweeps_per_beta));
    let ladder: Vec<Double> = betas.into_iter().map(Double).collect();
    let s = job_schedule(&problem(g), &ladder, steps, p.sweeps_per_beta);
    Schedule {
        eta: s.eta.iter().map(|x| x.0).collect(),
        gamma: s.gamma.iter().map(|x| x.0).collect(),
    }
}

fn floats4() -> IsingGraph {
    IsingGraph::new(
        vec![0.5, -0.25, 0.0, 1.0],
        vec![-1.0, 0.5, 2.0],
        vec![(0, 1), (1, 2), (2, 3)],
    )
}

fn chain4() -> Problem {
    Problem::new(
        vec![500, -250, 0, 1000],
        vec![-1000, 500, 2000],
        vec![(0, 1), (1, 2), (2, 3)],
    )
}

#[test]
fn split_sweeps_caps_the_trotter_phase_and_always_polishes() {
    assert_eq!(split_sweeps(0), (1, MIN_POLISH_SWEEPS));
    assert_eq!(split_sweeps(1), (1, MIN_POLISH_SWEEPS));
    assert_eq!(split_sweeps(64), (64, MIN_POLISH_SWEEPS));
    assert_eq!(split_sweeps(256), (256, MIN_POLISH_SWEEPS));
    assert_eq!(split_sweeps(1024), (256, 768));
    assert_eq!(split_sweeps(4096), (256, 3840));
}

#[test]
fn gamma_zero_is_twice_the_largest_per_variable_field_magnitude() {
    let g = chain4();
    // node 0: |0.5| + |-1.0| = 1.5
    // node 1: |-0.25| + |-1.0| + |0.5| = 1.75
    // node 2: |0.0| + |0.5| + |2.0| = 2.5
    // node 3: |1.0| + |2.0| = 3.0  -> largest
    assert_eq!(gamma_zero(&g), 6000);
}

#[test]
fn gamma_zero_skips_the_terms_the_kernel_skips() {
    // A value that is not finite is 0 in thousandths.
    let g = Problem::new(vec![1000, 0], vec![2000, 5000, 0], vec![(0, 0), (0, 9), (0, 1)]);
    assert_eq!(gamma_zero(&g), 2000);
    assert_eq!(gamma_zero(&Problem::new(vec![], vec![], vec![])), 0);
}

#[test]
fn a_ladder_of_three_rungs_holds_each_for_four_steps() {
    let rungs = num_rungs(12, 4);
    assert_eq!(rungs, 3);
    let taken: Vec<usize> = (0..12).map(|k| step_rung(k, 4, rungs)).collect();
    assert_eq!(taken, vec![0, 0, 0, 0, 1, 1, 1, 1, 2, 2, 2, 2]);
}

#[test]
fn imaginary_time_increments_sum_to_the_final_beta() {
    let g = floats4();
    let params = SampleParams {
        num_sweeps: 32,
        sweeps_per_beta: 1,
        beta_range: Some((0.1, 4.0)),
        ..Default::default()
    };
    let s = build(&g, &params, 32);
    assert_eq!(s.eta.len(), 32);
    assert_eq!(s.gamma.len(), 32);
    let total: f64 = s.eta.iter().sum();
    assert!(
        (total - 4.0).abs() < 1e-12,
        "total imaginary time {total} must equal the final beta"
    );
    assert!(s.eta.iter().all(|&e| e >= 0.0));
}

#[test]
fn the_transverse_field_ramps_linearly_to_zero() {
    let g = floats4();
    let params = SampleParams {
        num_sweeps: 8,
        sweeps_per_beta: 1,
        ..Default::default()
    };
    let s = build(&g, &params, 8);
    let g0 = gamma_zero(&problem(&g)) as f64 / 1000.0;
    assert!((s.gamma[0] - g0).abs() < 1e-12);
    assert!(s.gamma[7].abs() < 1e-12, "field must reach zero");
    for w in s.gamma.windows(2) {
        assert!(w[0] > w[1], "field must decrease: {:?}", s.gamma);
    }
    let mid = g0 * (1.0 - 4.0 / 7.0);
    assert!((s.gamma[4] - mid).abs() < 1e-12);
}

#[test]
fn one_step_carries_no_transverse_field() {
    let g = floats4();
    let params = SampleParams {
        num_sweeps: 1,
        ..Default::default()
    };
    let s = build(&g, &params, 1);
    assert_eq!(s.eta.len(), 1);
    assert_eq!(s.gamma, vec![0.0]);
}

#[test]
fn sweeps_per_beta_holds_the_ladder_for_that_many_steps() {
    let g = floats4();
    let params = SampleParams {
        num_sweeps: 12,
        sweeps_per_beta: 4,
        beta_range: Some((0.5, 4.0)),
        ..Default::default()
    };
    let s = build(&g, &params, 12);
    assert_eq!(s.eta.len(), 12);
    // Three rungs of four steps: the first step of each rung carries the
    // whole increment and the held steps carry zero.
    for rung in 0..3 {
        assert!(s.eta[rung * 4] > 0.0, "rung {rung} must advance beta");
        for held in 1..4 {
            assert!(
                s.eta[rung * 4 + held] == 0.0,
                "held step {held} of rung {rung} must not advance beta"
            );
        }
    }
    let total: f64 = s.eta.iter().sum();
    assert!((total - 4.0).abs() < 1e-12);
}

#[test]
fn an_auto_beta_range_produces_a_positive_increasing_ladder() {
    let g = floats4();
    let params = SampleParams {
        num_sweeps: 16,
        ..Default::default()
    };
    let s = build(&g, &params, 16);
    let total: f64 = s.eta.iter().sum();
    assert!(total > 0.0 && total.is_finite(), "total = {total}");
    assert!(s.eta.iter().all(|&e| e.is_finite() && e >= 0.0));
}

fn tanh(x: Double) -> Double {
    Double(x.0.tanh())
}

fn exp(x: Double) -> Double {
    Double(x.0.exp())
}

#[test]
fn factors_are_those_of_the_trotter_split() {
    assert_eq!(tau_factor(&tanh, Double(0.5), Double(3.0)), Some(Double(0.75f64.tanh())));
    assert_eq!(tau_factor(&tanh, Double(0.0), Double(3.0)), None);
    assert_eq!(tau_factor(&tanh, Double(-0.5), Double(3.0)), None);
    assert_eq!(angle_factor(&tanh, Double(0.5), -1500), Double((-0.75f64).tanh()));
    assert_eq!(gain_factor(&exp, Double(0.5), 1500), Some(Double((-0.75f64).exp())));
    assert_eq!(gain_factor(&exp, Double(0.5), 0), None);
    assert_eq!(gain_factors(&exp, Double(0.5), -1500), (Double(0.75f64.exp()), Double((-0.75f64).exp())));
}

#[test]
fn field_factors_are_kept_in_range() {
    assert_eq!(gain_at(&exp, Double(100.0)), Some(Double((-40.0f64).exp())));
    assert_eq!(gain_at(&exp, Double(-100.0)), Some(Double(40.0f64.exp())));
    assert_eq!(gain_at(&exp, Double(f64::INFINITY)), None);
    assert_eq!(gain_at(&exp, Double(f64::NAN)), None);
}

#[test]
fn weights_are_read_in_thousandths() {
    assert_eq!(weight::<Double>(-2500), Double(-2.5));
    assert_eq!(weight::<Thousandths>(-2500), Thousandths(-2500));
    assert_eq!(weight::<Thousandths>(0), Thousandths(0));
    assert_eq!(weight::<Double>(-5_000_000_000_123), Double(-5_000_000_000.123));
    assert_eq!(thousandths::<Double>(7_500_000_000_000), Double(7.5e9));
    assert_eq!(whole::<Double>(1 << 80), Double((1u128 << 80) as f64));
    assert_eq!(whole::<Double>(0x1_0000_0001), Double(4_294_967_297.0));
}

/// Exact in thousandths: the increments add up to the last rung, held steps add
/// nothing, and the field falls to 0 in equal parts.
#[test]
fn an_exact_schedule_reaches_its_last_rung() {
    let ladder = vec![Thousandths(100), Thousandths(900), Thousandths(4000)];
    let s = job_schedule(&chain4(), &ladder, 7, 2);
    let eta: Vec<i64> = s.eta.iter().map(|x| x.0).collect();
    assert_eq!(eta, [100, 0, 800, 0, 3100, 0, 0]);
    let gamma: Vec<i64> = s.gamma.iter().map(|x| x.0).collect();
    assert_eq!((gamma[0], gamma[3], gamma[6]), (6000, 3000, 0));
}
