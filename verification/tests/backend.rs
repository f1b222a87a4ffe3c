use quip_miner_cpu::accept::Odds;
use quip_miner_cpu::cpu_sampler::{
    apply_num_cpus, core_budget, judge_num_cpus, parse_num_cpus, wire_width, CoreBudget,
    CpuSampler, GibbsCpuSampler, NumCpusError,
};
use quip_miner_cpu::gibbs_parallel::{GibbsConfig, GibbsParallelism};
use quip_miner_cpu::identity::cpu_adapt;
use quip_miner_cpu::ising::IsingGraph as Problem;
use quip_miner_cpu::pump::{
    settle, Pump, PumpAction, PumpEvent, SampleError, StreamKernelError, StreamOutcome,
};
use quip_miner_cpu::sampler_core::{
    sample_ising_cancellable, Algorithm, SampleParams as Settings, SamplerResult,
};
use quip_miner_cpu::scalar::Scalar;
use quip_solver_core::adapt::{adapt_params, AdaptBounds};
use quip_solver_core::beta::{default_ising_beta_range, geometric_beta_schedule};
use quip_solver_core::{CancelToken, IsingGraph, SampleParams};

/// A weight in thousandths; one that is not finite is 0.
fn milli(x: f64) -> i32 {
    if x.is_finite() {
        (x * 1000.0).round() as i32
    } else {
        0
    }
}

/// A problem with its weights in thousandths.
fn problem(g: &IsingGraph) -> Problem {
    Problem::new(
        g.h.iter().map(|&x| milli(x)).collect(),
        g.j.iter().map(|&x| milli(x)).collect(),
        g.edges.to_vec(),
    )
}

fn settings(p: &SampleParams) -> Settings {
    Settings {
        num_reads: p.num_reads,
        num_sweeps: p.num_sweeps,
        sweeps_per_beta: p.sweeps_per_beta,
        seed: p.seed,
    }
}

#[derive(Clone, Copy, Debug, PartialEq)]
struct Double(f64);

impl Scalar for Double {
    fn from_milli(m: i32) -> Self {
        Double(f64::from(m) / 1000.0)
    }
    fn ratio(num: usize, den: usize) -> Self {
        Double(num as f64 / den as f64)
    }
    fn sum(self, other: Self) -> Self {
        Double(self.0 + other.0)
    }
    fn difference(self, other: Self) -> Self {
        Double(self.0 - other.0)
    }
    fn product(self, other: Self) -> Self {
        Double(self.0 * other.0)
    }
    fn quotient(self, other: Self) -> Self {
        Double(self.0 / other.0)
    }
    fn square_root(self) -> Self {
        Double(self.0.sqrt())
    }
    fn less(self, other: Self) -> bool {
        self.0 < other.0
    }
    fn at_least(self, other: Self) -> bool {
        self.0 >= other.0
    }
}

/// A draw of 53 bits as a number in `[0, 1)`.
fn unit(bits: u64) -> f64 {
    bits as f64 * (1.0 / (1u64 << 53) as f64)
}

fn exp(x: Double) -> Double {
    Double(x.0.exp())
}

fn below(bits: u64, p: Double) -> bool {
    unit(bits) < p.0
}

/// The ladder of inverse temperatures of a job.
fn ladder(g: &IsingGraph, p: &SampleParams) -> Vec<f64> {
    let (hot, cold) = p.beta_range.unwrap_or_else(|| default_ising_beta_range(g));
    geometric_beta_schedule(hot, cold, settings(p).num_betas())
}

/// The odds of a job along a ladder.
fn odds(betas: &[f64]) -> Odds<Double, fn(Double) -> Double, fn(u64, Double) -> bool> {
    Odds { ladder: betas.iter().map(|&b| Double(b)).collect(), exp, below }
}

/// Parallelism of the host in these tests.
const HOST: usize = 8;

fn tiny_ferro() -> IsingGraph {
    IsingGraph::new(vec![0.0, 0.0], vec![-1.0], vec![(0, 1)])
}

fn tiny_params(num_reads: usize) -> SampleParams {
    SampleParams {
        num_reads,
        num_sweeps: 16,
        seed: 42,
        ..Default::default()
    }
}

fn run(
    sampler: &CpuSampler,
    g: &IsingGraph,
    p: &SampleParams,
) -> Result<Vec<SamplerResult>, SampleError> {
    let betas = ladder(g, p);
    sampler.sample(
        &problem(g),
        &settings(p),
        &odds(&betas),
    )
}

#[test]
fn new_and_sample_returns_num_reads_of_pm1_spins() {
    let sampler = CpuSampler::new(Algorithm::Sa);
    let graph = tiny_ferro();
    let params = tiny_params(4);
    let results = run(&sampler, &graph, &params).expect("CpuSampler::sample should not reject");
    assert_eq!(results.len(), params.num_reads);
    for r in &results {
        assert_eq!(r.spins.len(), 2);
        assert!(
            r.spins.iter().all(|&s| s == 1 || s == -1),
            "spins must be +1 or -1, got {:?}",
            r.spins
        );
    }
}

#[test]
fn stream_width_is_at_least_one() {
    let sampler = CpuSampler::new(Algorithm::Gibbs);
    let budget = CoreBudget::new();
    assert!(sampler.stream_width(&budget, HOST) >= 1);
    assert!(sampler.stream_width(&budget, 0) >= 1);
}

/// The advertised and default live widths must agree, or every default
/// session logs a misdeclaration.
#[test]
fn sa_declared_width_matches_default_live_width() {
    let sampler = CpuSampler::new(Algorithm::Sa);
    let budget = CoreBudget::new();
    for host in [0, 1, HOST, 64] {
        assert_eq!(
            CpuSampler::declared_stream_width(host),
            u32::try_from(sampler.stream_width(&budget, host)).unwrap_or(u32::MAX)
        );
    }
}

/// Same agreement for the Gibbs binary's wrapper type.
#[test]
fn gibbs_declared_width_matches_default_live_width() {
    let sampler = GibbsCpuSampler(CpuSampler::new(Algorithm::Gibbs));
    let budget = CoreBudget::new();
    for host in [0, 1, HOST, 64] {
        assert_eq!(
            GibbsCpuSampler::declared_stream_width(host),
            u32::try_from(sampler.stream_width(&budget, host)).unwrap_or(u32::MAX)
        );
    }
}

#[test]
fn apply_config_num_cpus_sets_stream_width() {
    let sampler = CpuSampler::new(Algorithm::Sa);
    let mut budget = CoreBudget::new();
    sampler.apply_config(&mut budget, "num_cpus = 1", HOST).expect("config");
    assert_eq!(sampler.stream_width(&budget, HOST), 1);
}

#[test]
fn apply_config_absent_num_cpus_keeps_default_width() {
    let sampler = CpuSampler::new(Algorithm::Sa);
    let mut budget = CoreBudget::new();
    let default_width = sampler.stream_width(&budget, HOST);
    sampler.apply_config(&mut budget, "", HOST).expect("config");
    assert_eq!(sampler.stream_width(&budget, HOST), default_width);
    sampler.apply_config(&mut budget, "num_sweeps = 128", HOST).expect("config");
    assert_eq!(sampler.stream_width(&budget, HOST), default_width);
}

#[test]
fn parse_num_cpus_rejects_zero_and_negative() {
    assert_eq!(
        parse_num_cpus("num_cpus = 0"),
        Err(NumCpusError::NonPositive { requested: 0 })
    );
    assert_eq!(
        parse_num_cpus("num_cpus = -3"),
        Err(NumCpusError::NonPositive { requested: -3 })
    );
}

#[test]
fn parse_num_cpus_absent_is_none() {
    assert_eq!(parse_num_cpus("").unwrap(), None);
    assert_eq!(parse_num_cpus("num_sweeps = 128").unwrap(), None);
}

#[test]
fn parse_num_cpus_reads_a_positive_count() {
    assert_eq!(parse_num_cpus("num_cpus = 6").unwrap(), Some(6));
    assert_eq!(parse_num_cpus("  \n").unwrap(), None);
    assert_eq!(parse_num_cpus("num_cpus = "), Err(NumCpusError::InvalidToml));
    assert_eq!(parse_num_cpus("num_cpus = \"6\""), Err(NumCpusError::InvalidToml));
    assert_eq!(judge_num_cpus(Some(3)), Ok(Some(3)));
    assert_eq!(judge_num_cpus(None), Ok(None));
}

#[test]
fn apply_config_oversized_num_cpus_clamps_to_default_width() {
    let sampler = CpuSampler::new(Algorithm::Sa);
    let mut budget = CoreBudget::new();
    let default_width = sampler.stream_width(&budget, HOST);
    sampler.apply_config(&mut budget, "num_cpus = 1000000", HOST).expect("config");
    assert_eq!(sampler.stream_width(&budget, HOST), default_width);
}

#[test]
fn a_refused_config_leaves_the_width() {
    let sampler = CpuSampler::new(Algorithm::Sa);
    let mut budget = CoreBudget::new();
    sampler.apply_config(&mut budget, "num_cpus = 2", HOST).expect("config");
    assert!(sampler.apply_config(&mut budget, "num_cpus = 0", HOST).is_err());
    assert!(sampler.apply_config(&mut budget, "[", HOST).is_err());
    assert_eq!(sampler.stream_width(&budget, HOST), 2);
    let mut budget = 0;
    apply_num_cpus(&mut budget, "num_cpus = 5", HOST).expect("config");
    assert_eq!(budget, 5);
    assert_eq!(core_budget(0, HOST), HOST);
    assert_eq!(core_budget(5, HOST), 5);
    assert_eq!(wire_width(3), 3);
}

#[test]
fn refusals_say_what_was_wrong() {
    assert!(NumCpusError::NonPositive { requested: -3 }.message().contains("-3"));
    assert!(!NumCpusError::InvalidToml.message().is_empty());
}

#[test]
fn a_gibbs_job_over_its_colour_cap_is_refused() {
    let strict = CpuSampler::new(Algorithm::Gibbs).with_gibbs_config(GibbsConfig {
        workers: 1,
        max_colors: Some(1),
        parallelism: GibbsParallelism::Reads,
    });
    assert!(matches!(
        run(&strict, &tiny_ferro(), &tiny_params(2)),
        Err(SampleError::Capacity)
    ));
    let open = CpuSampler::new(Algorithm::Gibbs);
    assert_eq!(run(&open, &tiny_ferro(), &tiny_params(2)).expect("sampled").len(), 2);
}

/// A live cancellation point that never fires must not change the random
/// stream or the flip order.
#[test]
fn uncancelled_guard_matches_sample_ising_bit_for_bit() {
    let graph = tiny_ferro();
    let params = SampleParams {
        num_reads: 4,
        num_sweeps: 64,
        seed: 99,
        ..Default::default()
    };
    let betas = ladder(&graph, &params);
    let baseline = run(&CpuSampler::new(Algorithm::Sa), &graph, &params).expect("sampled");
    let guard = CancelToken::default();
    let live = sample_ising_cancellable(
        &problem(&graph),
        &settings(&params),
        Algorithm::Sa,
        &odds(&betas),
        Some((&guard, Some(4))),
    )
    .expect("a live generation must not cancel");
    assert_eq!(baseline.len(), live.len());
    for (a, b) in baseline.iter().zip(live.iter()) {
        assert_eq!(a.spins, b.spins);
        assert_eq!(a.energy_milli, b.energy_milli);
    }
}

#[test]
fn an_abandoned_generation_stops_at_its_first_sweep() {
    let graph = tiny_ferro();
    let params = tiny_params(1);
    let betas = ladder(&graph, &params);
    let guard = CancelToken::default();
    guard.cancel_through(4);
    for (watermark, stops) in [(Some(4), true), (Some(5), false), (None, false)] {
        let r = sample_ising_cancellable(
            &problem(&graph),
            &settings(&params),
            Algorithm::Sa,
            &odds(&betas),
            Some((&guard, watermark)),
        );
        assert_eq!(r.is_err(), stops);
    }
}

/// A CPU attempt on the logged Advantage2 problem must finish inside a
/// cancelled round. One read of 3324 sweeps took 571 ms on that
/// topology. Sixteen workers slowed a small batch by about 3x. Serial
/// time must stay under 120 s so a 6-minute reseed still sees a
/// completed attempt after that contention.
#[test]
fn cpu_adapt_attempt_fits_a_cancelled_round() {
    let b = cpu_adapt();
    let bounds = AdaptBounds {
        min_sweeps: b.min_sweeps,
        max_sweeps: b.max_sweeps,
        min_reads: b.min_reads,
        max_reads: b.max_reads,
        reads_solution_min_factor: b.reads_solution_min_factor,
        reads_solution_max_factor: b.reads_solution_max_factor,
        reads_solution_floor_factor: b.reads_solution_floor_factor,
    };
    let p = adapt_params(-14_518_191, 1, 4577, 41515, &[0], &bounds);
    let product = u64::from(p.num_reads) * u64::from(p.num_sweeps);
    const MS_PER_SWEEP_READ: f64 = 571.0 / 3324.0;
    let serial_ms = product as f64 * MS_PER_SWEEP_READ;
    assert!(
        serial_ms < 120_000.0,
        "CPU adapt asks for {product} sweep-reads ({serial_ms:.0} ms serial) \
         at the logged problem; that misses a 6-minute cancelled round \
         once 16 workers share the machine"
    );
}

fn sample() -> Vec<SamplerResult> {
    vec![SamplerResult { spins: vec![1, -1], energy_milli: 1000 }]
}

#[test]
fn a_finished_job_reports_its_samples() {
    assert!(matches!(
        settle(Ok(sample()), false),
        StreamOutcome::Completed(Ok(ref r)) if *r == sample()
    ));
}

#[test]
fn a_refused_job_reports_its_error() {
    assert!(matches!(
        settle(Err(StreamKernelError::Reject(SampleError::Capacity)), false),
        StreamOutcome::Completed(Err(SampleError::Capacity))
    ));
    assert!(matches!(
        settle(Err(StreamKernelError::Reject(SampleError::DeviceBusy)), false),
        StreamOutcome::Completed(Err(SampleError::DeviceBusy))
    ));
}

#[test]
fn a_cancel_during_the_run_suppresses_the_result() {
    assert!(matches!(settle(Ok(sample()), true), StreamOutcome::Cancelled));
    assert!(matches!(
        settle(Err(StreamKernelError::Cancelled), false),
        StreamOutcome::Cancelled
    ));
}

#[test]
fn only_a_device_fault_is_fatal() {
    assert!(SampleError::DeviceFault("gone".to_owned()).is_fatal());
    assert!(!SampleError::Capacity.is_fatal());
    assert!(!SampleError::DeviceBusy.is_fatal());
}

#[test]
fn the_pump_starts_its_workers_at_the_first_job() {
    let mut pump = Pump::new();
    assert_eq!(pump.width(), 0);
    assert_eq!(pump.step(PumpEvent::Job { cancelled: true }, 3), PumpAction::ReportCancelled);
    assert_eq!(pump.width(), 3);
    assert_eq!(pump.step(PumpEvent::Job { cancelled: false }, 9), PumpAction::Dispatch);
    assert_eq!(pump.width(), 3, "the width is fixed by the first job");
    assert_eq!(pump.step(PumpEvent::InputClosed, 9), PumpAction::Drain);
    assert_eq!(pump.step(PumpEvent::Job { cancelled: false }, 9), PumpAction::Drain);
}

#[test]
fn a_pump_of_width_zero_runs_one_worker() {
    let mut pump = Pump::new();
    assert_eq!(pump.step(PumpEvent::Job { cancelled: false }, 0), PumpAction::Dispatch);
    assert_eq!(pump.width(), 1);
}

#[test]
fn a_lost_session_or_lost_workers_end_the_pump() {
    for event in [PumpEvent::OutputClosed, PumpEvent::WorkersGone] {
        let mut pump = Pump::new();
        pump.step(PumpEvent::Job { cancelled: false }, 1);
        assert_eq!(pump.step(event, 1), PumpAction::Drain);
        assert_eq!(pump.step(PumpEvent::Job { cancelled: true }, 1), PumpAction::Drain);
    }
}

#[test]
fn clones_share_the_core_budget_and_separate_samplers_do_not() {
    let s = CpuSampler::new(Algorithm::Gibbs);
    let c = s.clone();
    let t = CpuSampler::new(Algorithm::Sa);
    let (mut ours, theirs) = (CoreBudget::new(), CoreBudget::new());
    assert_eq!(c.stream_width(&ours, 16), 4);
    s.apply_config(&mut ours, "num_cpus = 8", 16).expect("config");
    assert_eq!(s.stream_width(&ours, 16), 2);
    assert_eq!(c.stream_width(&ours, 16), 2);
    assert_eq!(t.stream_width(&theirs, 16), 16);
    assert_eq!((ours.get(16), theirs.get(16)), (8, 16));
}
