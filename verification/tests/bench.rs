use quip_miner_cpu::bench::report::{
    build_report, derive_metrics, describe, fit_per_flip, is_top_level, part_timing, residual, saturating_u64,
    ModelDescriptor, PartTiming, Ratio, ReportInputs, SCHEMA_VERSION,
};
use quip_miner_cpu::bench::source::{
    build_entry, build_models, parse_nonce, synthetic, synthetic_bonds,
    synthetic_fields, Entry, SourceError, Topology,
};
use quip_miner_cpu::bench::timing::{
    record_accepts, with_active_agg, PartAccum, TimingAggregator, TimingLayer,
};
use quip_miner_cpu::ising::IsingGraph;
use quip_miner_cpu::sampler_core::SampleParams;
use quip_miner_cpu::scalar::Scalar;

/// A quotient that is 0 where the divisor is.
fn quotient(r: Ratio) -> f64 {
    if r.den == 0 {
        0.0
    } else {
        r.num as f64 / r.den as f64
    }
}

fn part(name: &str, total_ns: u64) -> PartTiming {
    part_timing(&name.to_owned(), PartAccum { total_ns: u128::from(total_ns), count: 1 })
}

#[test]
fn per_call_and_per_spin_derive_from_frequency() {
    // 2 reads, 4 betas, 3 sweeps_per_beta, 5 nodes → 120 visits.
    let desc = ModelDescriptor {
        model_id: "m".into(),
        n_nodes: 5,
        n_edges: 6,
        num_reads: 2,
        num_betas: 4,
        sweeps_per_beta: 3,
        seed: 1,
    };
    let mut agg = TimingAggregator::new();
    // 1.2 ms over 2 reads
    agg.record("sweep_loop", 600_000);
    agg.record("sweep_loop", 600_000);
    agg.record("anneal_read", 700_000);
    agg.record("anneal_read", 700_000);
    let derived = derive_metrics(&desc, &agg.snapshot(), /* accepts= */ 60, /* iters= */ 1);
    assert_eq!(derived.spin_visits, 120);
    // per_spin = sweep_loop_total / visits = 1_200_000 / 120 = 10_000 ns.
    assert!((quotient(derived.per_spin_ns) - 10_000.0).abs() < 1e-6);
    // accept_rate = 60/120 = 0.5.
    assert!((quotient(derived.accept_rate) - 0.5).abs() < 1e-12);
    // sweep_loop_ns_per_read = 600_000.
    assert!((quotient(derived.sweep_loop_ns_per_read) - 600_000.0).abs() < 1e-6);
    assert!(derived.per_flip_ns.is_none());
}

#[test]
fn spin_visits_scale_with_iters_so_accept_rate_stays_bounded() {
    // A bench run repeats one read/beta/sweep/node model 3 times; the
    // aggregator's snapshot and accepts sum over all 3 measured calls, so
    // spin_visits must scale by iters or accept_rate would exceed 1.0.
    let desc = ModelDescriptor {
        model_id: "m".into(),
        n_nodes: 4,
        n_edges: 3,
        num_reads: 2,
        num_betas: 2,
        sweeps_per_beta: 1,
        seed: 0,
    };
    let iters = 3;
    let single_call_visits = 2u64 * 2 * 4; // reads * betas * sweeps_per_beta(1, elided) * nodes = 16
    let mut agg = TimingAggregator::new();
    agg.record("sweep_loop", 1_000);
    for _ in 1..iters * 2 {
        agg.record("sweep_loop", 0);
    }
    // Max possible accepts across 3 calls: iters * single_call_visits.
    let accepts = (iters as u64) * single_call_visits;
    let derived = derive_metrics(&desc, &agg.snapshot(), accepts, iters);
    assert_eq!(derived.spin_visits, (iters as u64) * single_call_visits);
    assert!((quotient(derived.accept_rate) - 1.0).abs() < 1e-12);
}

#[test]
fn residual_is_measured_minus_summed_parts() {
    let parts = vec![part("cpu_graph_build", 300), part("beta_schedule", 400)];
    let (res_ns, res_frac) = residual(1000, &parts, &["cpu_graph_build", "beta_schedule"]);
    assert_eq!(res_ns, 300); // 1000 - 700
    assert!((quotient(res_frac) - 0.3).abs() < 1e-12);
}

#[test]
fn part_record_carries_scope_and_source() {
    let top = part("cpu_graph_build", 10);
    assert_eq!(top.scope, "top_level");
    assert_eq!(top.source, "tracing");
    let nested = part("sweep_loop", 10);
    assert_eq!(nested.scope, "nested");
}

#[test]
fn report_holds_every_part_and_the_residual() {
    let mut agg = TimingAggregator::new();
    agg.record("anneal_read", 500);
    agg.record("sweep_loop", 400);
    agg.record("score", 50);
    let inputs = ReportInputs {
        backend: "cpu".to_owned(),
        algorithm: "sa".to_owned(),
        model: ModelDescriptor {
            model_id: "m".into(),
            n_nodes: 2,
            n_edges: 1,
            num_reads: 1,
            num_betas: 1,
            sweeps_per_beta: 1,
            seed: 0,
        },
        iters: 5,
        warmup: 1,
        measured_model_ns: 600,
    };
    let rep = build_report(inputs, &agg.snapshot(), 0);
    assert_eq!(rep.schema_version, SCHEMA_VERSION);
    assert_eq!(rep.iters, 5);
    assert_eq!(rep.warmup, 1);
    let names: Vec<&str> = rep.parts.iter().map(|p| p.part.as_str()).collect();
    assert_eq!(names, ["anneal_read", "score", "sweep_loop"]);
    assert_eq!(rep.parts[2].per_call_ns, Ratio { num: 400, den: 1 });
    assert_eq!(rep.derived.spin_visits, 10);
    // The nested sweep time does not count: 600 - 500 - 50.
    assert_eq!(rep.residual_ns, 50);
    assert_eq!(rep.residual_frac, Ratio { num: 50, den: 600 });
}

#[test]
fn a_residual_below_zero_keeps_its_sign() {
    let parts = vec![part("score", 1_500), part("sweep_loop", 9_000)];
    let (res_ns, res_frac) = residual(1_000, &parts, &["score"]);
    assert_eq!(res_ns, -500);
    assert!((quotient(res_frac) + 0.5).abs() < 1e-12);
}

#[test]
fn the_four_parts_that_do_not_overlap_are_top_level() {
    for name in ["cpu_graph_build", "beta_schedule", "anneal_read", "score"] {
        assert!(is_top_level(name));
    }
    for name in ["sweep_loop", "polish", "init_spins", "", "scores"] {
        assert!(!is_top_level(name));
    }
}

#[test]
fn wide_times_saturate() {
    assert_eq!(saturating_u64(7), 7);
    assert_eq!(saturating_u64(u128::from(u64::MAX) + 1), u64::MAX);
}

#[test]
fn a_description_resolves_the_settings() {
    let graph = IsingGraph::new(vec![0, 0, 0], vec![1000], vec![(0, 1)]);
    let params = SampleParams { num_reads: 0, num_sweeps: 64, sweeps_per_beta: 4, seed: 9 };
    let d = describe(&"m".to_owned(), &graph, &params);
    assert_eq!((d.n_nodes, d.n_edges, d.num_reads), (3, 1, 1));
    assert_eq!((d.num_betas, d.sweeps_per_beta, d.seed), (16, 4, 9));
}

#[test]
fn layer_accumulates_named_span_time_and_counts() {
    let mut layer = TimingLayer::new(TimingAggregator::new());
    for busy in [3, 5, 7] {
        layer.on_close("unit_part", busy);
    }
    layer.on_close("other", 1);
    let snap = layer.into_inner().snapshot();
    let part = snap.iter().find(|p| p.0 == "unit_part").expect("part recorded");
    assert_eq!(part.1.count, 3, "three closes expected");
    assert_eq!(part.1.total_ns, 15);
    let names: Vec<&str> = snap.iter().map(|p| p.0.as_str()).collect();
    assert_eq!(names, ["other", "unit_part"]);
}

#[test]
fn accepts_counter_accumulates() {
    let mut agg = TimingAggregator::new();
    agg.add_accepts(10);
    agg.add_accepts(5);
    assert_eq!(agg.accepts(), 15);
}

#[test]
fn accepts_go_to_the_active_aggregator_alone() {
    let mut active: Option<TimingAggregator> = None;
    record_accepts(&mut active, 3);
    assert!(active.is_none());
    let (agg, out) = with_active_agg(
        &mut active,
        TimingAggregator::new(),
        |mut inner: Option<TimingAggregator>| {
            record_accepts(&mut inner, 4);
            record_accepts(&mut inner, 6);
            (inner, 17u8)
        },
    );
    assert_eq!(out, 17);
    assert_eq!(agg.expect("handed back").accepts(), 10);
    assert!(active.is_none());
}

#[test]
fn synthetic_has_requested_shape() {
    let m = synthetic(8, 12, 42);
    assert_eq!(m.graph.h.len(), 8);
    assert_eq!(m.graph.edges.len(), m.graph.j.len());
    assert!(m.graph.edges.len() <= 12);
    assert!(m.graph.edges.iter().all(|&(u, v)| u < 8 && v < 8 && u != v));
    assert_eq!(m.model_id, "synthetic-n8-e12-s42");
    assert!(m.graph.h.iter().all(|&w| [0, 1000, -1000].contains(&w)));
    assert!(m.graph.j.iter().all(|&w| w == 1000 || w == -1000));
}

#[test]
fn synthetic_edges_need_two_nodes() {
    assert!(synthetic(1, 5, 3).graph.edges.is_empty());
    assert!(synthetic(0, 5, 3).graph.edges.is_empty());
}

fn entry() -> Entry {
    Entry { model_id: None, nonce: None, h_milli: None, j_milli: None, edges: None }
}

fn topology() -> Topology {
    Topology {
        n_nodes: 2,
        n_edges: 1,
        allowed_h_milli: vec![-1000, 1000],
        allowed_j_milli: vec![-1000, 1000],
        edges: vec![(0, 1)],
    }
}

#[test]
fn explicit_entry_parses_verbatim() {
    let e = Entry {
        model_id: Some("x".to_owned()),
        h_milli: Some(vec![500, -500]),
        j_milli: Some(vec![-1000]),
        edges: Some(vec![(0, 1)]),
        ..entry()
    };
    let specs = build_models(&vec![(1, Ok(e))], None).expect("parse");
    assert_eq!(specs.len(), 1);
    assert_eq!(specs[0].model_id, "x");
    assert_eq!(specs[0].graph.h, vec![500, -500]);
    assert_eq!(specs[0].graph.j, vec![-1000]);
}

#[test]
fn nonce_entry_redraws_via_topology() {
    let e = Entry {
        model_id: Some("n0".to_owned()),
        nonce: Some("00".repeat(32)),
        ..entry()
    };
    let topo = topology();
    let specs = build_models(&vec![(1, Ok(e))], Some(&topo)).expect("redraw");
    assert_eq!(specs.len(), 1);
    assert_eq!(specs[0].graph.h.len(), 2);
    assert_eq!(specs[0].graph.edges, vec![(0, 1)]);
    let (h, j) = quip_protocol::chacha8::draw_ising_milli([0; 32], 2, 1, &[-1000, 1000], &[-1000, 1000])
        .expect("draw");
    assert_eq!(specs[0].graph.h, h);
    assert_eq!(specs[0].graph.j, j);
}

#[test]
fn nonce_without_topology_errors() {
    let e = Entry { nonce: Some("00".repeat(32)), ..entry() };
    let err = build_models(&vec![(1, Ok(e))], None).unwrap_err();
    assert!(matches!(err, SourceError::MissingTopology { .. }));
}

#[test]
fn entries_without_an_id_are_numbered_by_their_line() {
    let topo = topology();
    let e = Entry { h_milli: Some(vec![1]), ..entry() };
    assert_eq!(build_entry(&e, None, 7).expect("explicit").model_id, "explicit-7");
    let e = Entry { nonce: Some("0a".repeat(32)), ..entry() };
    assert_eq!(build_entry(&e, Some(&topo), 9).expect("nonce").model_id, "nonce-9");
}

#[test]
fn each_fault_of_a_corpus_is_told_apart() {
    let topo = topology();
    let both = Entry { nonce: Some("00".repeat(32)), h_milli: Some(vec![1]), ..entry() };
    assert!(matches!(build_entry(&both, Some(&topo), 2), Err(SourceError::Ambiguous { line: 2 })));
    assert!(matches!(build_entry(&entry(), None, 3), Err(SourceError::Ambiguous { line: 3 })));
    let short = Entry { nonce: Some("00".repeat(31)), ..entry() };
    assert!(matches!(build_entry(&short, Some(&topo), 4), Err(SourceError::BadNonce { line: 4 })));
    let barren = Topology { allowed_h_milli: vec![], ..topology() };
    let e = Entry { nonce: Some("00".repeat(32)), ..entry() };
    assert!(matches!(build_entry(&e, Some(&barren), 5), Err(SourceError::Draw { line: 5, .. })));
    let lines = vec![(6, Err("expected value".to_owned()))];
    assert!(matches!(
        build_models(&lines, None),
        Err(SourceError::Parse { line: 6, ref reason }) if reason == "expected value"
    ));
    assert!(!SourceError::Io("gone".to_owned()).message().is_empty());
}

#[test]
fn nonces_are_read_byte_by_byte() {
    let text = "0123456789abcdefABCDEF".to_owned() + &"00".repeat(21);
    let nonce = parse_nonce(&text, 1).expect("nonce");
    assert_eq!(nonce[..12], [0x01, 0x23, 0x45, 0x67, 0x89, 0xab, 0xcd, 0xef, 0xab, 0xcd, 0xef, 0]);
    assert!(parse_nonce(&"0g".repeat(32), 1).is_err());
    for sign in ["+0", "0+", "-0"] {
        let signed = parse_nonce(&sign.repeat(32), 3);
        assert!(matches!(signed, Err(SourceError::BadNonce { line: 3 })), "{sign}");
    }
    assert!(parse_nonce("", 1).is_err());
}

#[derive(Clone, Copy, Debug, PartialEq)]
struct Double(f64);

impl Scalar for Double {
    fn from_milli(m: i32) -> Self {
        Double(f64::from(m) / 1000.0)
    }
    fn ratio(num: usize, den: usize) -> Self {
        Double(num as f64 / den as f64)
    }
    fn sum(self, other: Self) -> Self {
        Double(self.0 + other.0)
    }
    fn difference(self, other: Self) -> Self {
        Double(self.0 - other.0)
    }
    fn product(self, other: Self) -> Self {
        Double(self.0 * other.0)
    }
    fn quotient(self, other: Self) -> Self {
        Double(self.0 / other.0)
    }
    fn square_root(self) -> Self {
        Double(self.0.sqrt())
    }
    fn less(self, other: Self) -> bool {
        self.0 < other.0
    }
    fn at_least(self, other: Self) -> bool {
        self.0 >= other.0
    }
}

fn rows(v: &[(f64, f64, f64)]) -> Vec<(Double, Double, Double)> {
    v.iter().map(|&(a, b, c)| (Double(a), Double(b), Double(c))).collect()
}

#[test]
fn fit_per_flip_recovers_slope() {
    // Model: ns = a*visits + b*accepts, a=10, b=40. Build 4 rows.
    let a = 10.0;
    let b = 40.0;
    let points: Vec<(f64, f64, f64)> =
        [(100.0, 20.0), (100.0, 60.0), (200.0, 40.0), (200.0, 120.0)]
            .iter()
            .map(|&(v, acc)| (v, acc, a * v + b * acc))
            .collect();
    let per_flip = fit_per_flip(&rows(&points)).expect("fit").0;
    assert!(
        (per_flip - 40.0).abs() < 1e-6,
        "recovered per_flip = {per_flip}"
    );
}

#[test]
fn fit_per_flip_needs_variation() {
    // All rows collinear in (visits, accepts): no unique fit.
    let points = vec![(100.0, 50.0, 1000.0), (200.0, 100.0, 2000.0)];
    assert!(fit_per_flip(&rows(&points)).is_none());
}

#[test]
fn a_nested_run_leaves_the_outer_aggregator_active() {
    let mut active: Option<TimingAggregator> = None;
    let (a, b) = with_active_agg(
        &mut active,
        TimingAggregator::new(),
        |mut slot: Option<TimingAggregator>| {
            let (b, ()) = with_active_agg(
                &mut slot,
                TimingAggregator::new(),
                |mut inner: Option<TimingAggregator>| {
                    record_accepts(&mut inner, 2);
                    (inner, ())
                },
            );
            record_accepts(&mut slot, 5);
            (slot, b)
        },
    );
    assert_eq!(b.expect("handed back").accepts(), 2);
    assert_eq!(a.expect("handed back").accepts(), 5);
    assert!(active.is_none());
}

#[test]
fn synthetic_draws_no_pair_twice() {
    assert!(synthetic(2, 12, 42).graph.edges.len() <= 1);
    let graph = synthetic(5, 40, 7).graph;
    assert!(graph.edges.len() <= 10);
    for (i, &(u, v)) in graph.edges.iter().enumerate() {
        for &(a, b) in &graph.edges[..i] {
            assert!((a, b) != (u, v) && (b, a) != (u, v));
        }
    }
}

#[test]
fn synthetic_bonds_keep_the_first_usable_pairs() {
    let pairs = vec![(0, 1), (1, 1), (1, 0), (2, 1), (3, 0)];
    let ups = vec![true, false, true];
    let two = synthetic_bonds(&pairs, &ups, 2);
    assert_eq!(two, (vec![(0, 1), (2, 1)], vec![1000, -1000]));
    let all = synthetic_bonds(&pairs, &ups, 9);
    assert_eq!(all, (vec![(0, 1), (2, 1), (3, 0)], vec![1000, -1000, 1000]));
    assert_eq!(synthetic_bonds(&pairs, &ups, 0), (vec![], vec![]));
}

#[test]
fn synthetic_fields_are_up_down_or_nothing() {
    assert_eq!(synthetic_fields(&vec![0, 1, 2, 1]), [0, 1000, -1000, 1000]);
    let h = synthetic(200, 0, 9).graph.h;
    for w in [0, 1000, -1000] {
        assert!(h.contains(&w), "{w}");
    }
}
