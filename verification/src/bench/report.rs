//! Bench reports: per-part timings, derived costs and the residual.
//!
//! Quotients are kept as exact fractions; a reader divides.
use vstd::prelude::*;
use vstd::string::StringExecFns;

use crate::bench::timing::{
    names_part, part_of, sorted_parts, NamedPart, PartAccum,
};
use crate::ising::IsingGraph;
use crate::sampler_core::{at_least_one, or_one, Algorithm, SampleParams};
use crate::reals::{
    lemma_cross, lemma_product_above, lemma_quotient, lemma_spread, lemma_swap,
    lemma_trivial_factors,
};
use crate::scalar::{
    absolute, distance, exact, lemma_exact_values, nil, pair_sum, zero, Scalar,
};
use crate::text::same_text;

verus! {

/// Version of the report's shape.
pub const SCHEMA_VERSION: u32 = 1;

/// The four parts that do not overlap: only these are summed for the residual.
pub open spec fn top_level(name: Seq<char>) -> bool {
    name == "cpu_graph_build"@ || name == "beta_schedule"@ || name == "anneal_read"@ || name
        == "score"@
}

/// Whether a name is in a list.
pub open spec fn listed(names: Seq<&str>, name: Seq<char>) -> bool {
    exists|i: int| 0 <= i < names.len() && (#[trigger] names[i])@ == name
}

/// Whether a name is in a list.
fn is_listed(names: &[&str], name: &str) -> (r: bool)
    ensures
        r <==> listed(names@, name@),
{
    let mut i: usize = 0;
    while i < names.len()
        invariant
            i <= names@.len(),
            forall|k: int| 0 <= k < i ==> (#[trigger] names@[k])@ != name@,
        decreases names@.len() - i,
    {
        if same_text(names[i], name) {
            return true;
        }
        i = i + 1;
    }
    false
}

/// Whether a part is one of the four that do not overlap.
pub fn is_top_level(name: &str) -> (r: bool)
    ensures
        r <==> top_level(name@),
{
    same_text(name, "cpu_graph_build") || same_text(name, "beta_schedule") || same_text(
        name,
        "anneal_read",
    ) || same_text(name, "score")
}

/// A quotient that is 0 where the divisor is.
#[derive(Debug, Clone, Copy, PartialEq, Eq, Structural)]
pub struct Ratio {
    /// Dividend.
    pub num: i128,
    /// Divisor.
    pub den: u64,
}

/// Static description of a model and its sampling settings.
#[derive(Debug)]
pub struct ModelDescriptor {
    /// Corpus id or synthetic label.
    pub model_id: String,
    /// Nodes.
    pub n_nodes: usize,
    /// Edges.
    pub n_edges: usize,
    /// Reads of one call.
    pub num_reads: usize,
    /// Rungs of the ladder.
    pub num_betas: usize,
    /// Sweeps at each rung.
    pub sweeps_per_beta: usize,
    /// Seed.
    pub seed: u64,
}

/// Totals and per-call time of one part.
#[derive(Debug)]
pub struct PartTiming {
    /// Name.
    pub part: String,
    /// `top_level` for a part that counts toward the residual, `nested` for a
    /// part inside one.
    pub scope: &'static str,
    /// Summed busy time in nanoseconds.
    pub total_ns: u64,
    /// Closes.
    pub count: u64,
    /// Busy time per close.
    pub per_call_ns: Ratio,
    /// Where the times come from.
    pub source: &'static str,
}

/// Costs by total and frequency.
#[derive(Debug, Clone, Copy, PartialEq, Eq, Structural)]
pub struct DerivedMetrics {
    /// Reads, rungs, sweeps and nodes multiplied, over all measured calls.
    pub spin_visits: u64,
    /// Accepted flips.
    pub accepts: u64,
    /// Accepted flips per visit.
    pub accept_rate: Ratio,
    /// Sweep time per visit.
    pub per_spin_ns: Ratio,
    /// Cost of a flip, where a fit over several runs gives one.
    pub per_flip_ns: Option<Ratio>,
    /// Sweep time per read.
    pub sweep_loop_ns_per_read: Ratio,
}

/// One report.
#[derive(Debug)]
pub struct BenchReport {
    /// Version of the shape.
    pub schema_version: u32,
    /// Backend name.
    pub backend: String,
    /// Algorithm name.
    pub algorithm: String,
    /// Model and settings.
    pub model: ModelDescriptor,
    /// Measured calls.
    pub iters: usize,
    /// Calls discarded before them.
    pub warmup: usize,
    /// Wall time of the measured calls.
    pub measured_model_ns: u64,
    /// Timings per part.
    pub parts: Vec<PartTiming>,
    /// Derived costs.
    pub derived: DerivedMetrics,
    /// Measured time minus the parts that do not overlap.
    pub residual_ns: i64,
    /// The residual as a share of the measured time.
    pub residual_frac: Ratio,
}

/// What a report is built from, beside the timings.
#[derive(Debug)]
pub struct ReportInputs {
    /// Backend name.
    pub backend: String,
    /// Algorithm name.
    pub algorithm: String,
    /// Model and settings.
    pub model: ModelDescriptor,
    /// Measured calls.
    pub iters: usize,
    /// Calls discarded before them.
    pub warmup: usize,
    /// Wall time of the measured calls.
    pub measured_model_ns: u64,
}

/// `v`, stopped at the range of `u64`.
pub open spec fn to_u64(v: int) -> int {
    if v > u64::MAX {
        u64::MAX as int
    } else {
        v
    }
}

/// `v`, stopped at the range of `u64`.
pub fn saturating_u64(v: u128) -> (r: u64)
    ensures
        r == to_u64(v as int),
{
    if v > u64::MAX as u128 {
        u64::MAX
    } else {
        v as u64
    }
}

/// `v`, stopped at the range of `i64`.
pub open spec fn to_i64(v: int) -> int {
    if v > i64::MAX {
        i64::MAX as int
    } else {
        v
    }
}

fn saturating_i64(v: u64) -> (r: i64)
    ensures
        r == to_i64(v as int),
{
    if v > i64::MAX as u64 {
        i64::MAX
    } else {
        v as i64
    }
}

/// `v`, stopped at the range of `i128`.
fn saturating_i128(v: u128) -> (r: i128)
    ensures
        r == if v > i128::MAX {
            i128::MAX as int
        } else {
            v as int
        },
{
    if v > i128::MAX as u128 {
        i128::MAX
    } else {
        v as i128
    }
}

/// Reads over all measured calls.
pub open spec fn reads_total(desc: ModelDescriptor, iters: nat) -> int {
    to_u64(desc.num_reads * at_least_one(iters))
}

/// Spin visits over all measured calls.
pub open spec fn visits(desc: ModelDescriptor, iters: nat) -> int {
    to_u64(
        to_u64(to_u64(reads_total(desc, iters) * desc.num_betas) * desc.sweeps_per_beta)
            * desc.n_nodes,
    )
}

proof fn lemma_capped_product(x: int, f: int)
    requires
        0 <= x,
        0 <= f,
    ensures
        to_u64(to_u64(x) * f) == to_u64(x * f),
{
    if x > u64::MAX && f >= 1 {
        assert(u64::MAX * f >= u64::MAX) by (nonlinear_arith)
            requires
                f >= 1,
        ;
        assert(x * f >= x) by (nonlinear_arith)
            requires
                f >= 1,
                x >= 0,
        ;
    } else if x > u64::MAX {
        assert(u64::MAX * f == 0 && x * f == 0) by (nonlinear_arith)
            requires
                f == 0,
        ;
    }
}

/// Every call visits every spin in every sweep of every rung of every read: the
/// visits are the product of these counts, up to the range of the counter.
pub proof fn visits_count_every_spin(desc: ModelDescriptor, iters: nat)
    ensures
        visits(desc, iters) == to_u64(
            (((desc.num_reads * at_least_one(iters)) * desc.num_betas) * desc.sweeps_per_beta)
                * desc.n_nodes,
        ),
{
    let reads = desc.num_reads * at_least_one(iters);
    assert(0 <= reads) by (nonlinear_arith)
        requires
            reads == desc.num_reads * at_least_one(iters),
    ;
    let rungs = reads * desc.num_betas;
    assert(0 <= rungs) by (nonlinear_arith)
        requires
            rungs == reads * desc.num_betas,
            0 <= reads,
    ;
    let sweeps = rungs * desc.sweeps_per_beta;
    assert(0 <= sweeps) by (nonlinear_arith)
        requires
            sweeps == rungs * desc.sweeps_per_beta,
            0 <= rungs,
    ;
    lemma_capped_product(reads, desc.num_betas as int);
    lemma_capped_product(rungs, desc.sweeps_per_beta as int);
    lemma_capped_product(sweeps, desc.n_nodes as int);
}

/// The derived costs of a model over `iters` measured calls.
pub open spec fn derived_from(
    d: DerivedMetrics,
    desc: ModelDescriptor,
    snap: Seq<NamedPart>,
    accepts: u64,
    iters: nat,
) -> bool {
    let sweep_ns = part_of(snap, "sweep_loop"@).total_ns;
    let shown = if sweep_ns > i128::MAX {
        i128::MAX as int
    } else {
        sweep_ns as int
    };
    &&& d.spin_visits == visits(desc, iters)
    &&& d.per_flip_ns is None
    &&& d.accepts == accepts
    &&& d.accept_rate.num == accepts && d.accept_rate.den == visits(desc, iters)
    &&& d.per_spin_ns.num == shown && d.per_spin_ns.den == visits(desc, iters)
    &&& d.sweep_loop_ns_per_read.num == shown && d.sweep_loop_ns_per_read.den == reads_total(
        desc,
        iters,
    )
}

/// The totals of the part with this name.
fn find_part(snap: &Vec<NamedPart>, name: &str) -> (r: PartAccum)
    requires
        sorted_parts(snap@),
    ensures
        r == part_of(snap@, name@),
{
    let mut i: usize = 0;
    while i < snap.len()
        invariant
            sorted_parts(snap@),
            i <= snap@.len(),
            forall|k: int| 0 <= k < i ==> (#[trigger] snap@[k]).0@ != name@,
        decreases snap@.len() - i,
    {
        if same_text(snap[i].0.as_str(), name) {
            proof {
                crate::bench::timing::lemma_part_at(snap@, i as int);
            }
            return snap[i].1;
        }
        i = i + 1;
    }
    assert(!names_part(snap@, name@));
    PartAccum { total_ns: 0, count: 0 }
}

/// A product stopped at the range of `u64`.
fn times(a: u64, b: u64) -> (r: u64)
    ensures
        r == to_u64(a * b),
{
    match a.checked_mul(b) {
        Some(p) => p,
        None => u64::MAX,
    }
}

/// Derive costs from the model's shape and the timings.
///
/// The timings sum over all `iters` measured calls, and so does the number of
/// visits; 0 calls count as 1.
pub fn derive_metrics(
    desc: &ModelDescriptor,
    snap: &Vec<NamedPart>,
    accepts: u64,
    iters: usize,
) -> (d: DerivedMetrics)
    requires
        sorted_parts(snap@),
    ensures
        derived_from(d, *desc, snap@, accepts, iters as nat),
{
    let reads: u64 = times(desc.num_reads as u64, or_one(iters) as u64);
    let spin_visits: u64 = times(
        times(times(reads, desc.num_betas as u64), desc.sweeps_per_beta as u64),
        desc.n_nodes as u64,
    );
    let sweep_ns: i128 = saturating_i128(find_part(snap, "sweep_loop").total_ns);
    DerivedMetrics {
        spin_visits,
        accepts,
        accept_rate: Ratio { num: accepts as i128, den: spin_visits },
        per_spin_ns: Ratio { num: sweep_ns, den: spin_visits },
        per_flip_ns: None,
        sweep_loop_ns_per_read: Ratio { num: sweep_ns, den: reads },
    }
}

/// Summed time of those of the first `k` parts that are listed.
pub open spec fn summed(parts: Seq<PartTiming>, names: Seq<&str>, k: int) -> int
    decreases k,
{
    if k <= 0 {
        0
    } else {
        summed(parts, names, k - 1) + if listed(names, parts[k - 1].part@) {
            parts[k - 1].total_ns as int
        } else {
            0
        }
    }
}

proof fn lemma_summed_grows(parts: Seq<PartTiming>, names: Seq<&str>, k: int, m: int)
    requires
        0 <= k <= m <= parts.len(),
    ensures
        summed(parts, names, k) <= summed(parts, names, m),
    decreases m,
{
    if k < m {
        lemma_summed_grows(parts, names, k, m - 1);
    }
}

/// Measured time minus the parts that are listed, and its share of the
/// measured time. Signed, so that a negative residual shows.
pub fn residual(measured_ns: u64, parts: &[PartTiming], top_level: &[&str]) -> (r: (i64, Ratio))
    requires
        summed(parts@, top_level@, parts@.len() as int) <= u64::MAX,
    ensures
        r.0 == to_i64(measured_ns as int) - to_i64(
            summed(parts@, top_level@, parts@.len() as int),
        ),
        r.1.num == r.0,
        r.1.den == measured_ns,
{
    let mut total: u64 = 0;
    let mut i: usize = 0;
    while i < parts.len()
        invariant
            summed(parts@, top_level@, parts@.len() as int) <= u64::MAX,
            i <= parts@.len(),
            total == summed(parts@, top_level@, i as int),
        decreases parts@.len() - i,
    {
        proof {
            lemma_summed_grows(parts@, top_level@, i + 1, parts@.len() as int);
        }
        if is_listed(top_level, parts[i].part.as_str()) {
            total = total + parts[i].total_ns;
        }
        i = i + 1;
    }
    let res: i64 = saturating_i64(measured_ns) - saturating_i64(total);
    (res, Ratio { num: res as i128, den: measured_ns })
}

/// The record of one part.
pub open spec fn part_record(p: PartTiming, name: Seq<char>, a: PartAccum) -> bool {
    &&& p.part@ == name
    &&& p.scope@ == if top_level(name) {
        "top_level"@
    } else {
        "nested"@
    }
    &&& p.total_ns == to_u64(a.total_ns as int)
    &&& p.count == a.count
    &&& p.per_call_ns.num == p.total_ns
    &&& p.per_call_ns.den == a.count
    &&& p.source@ == "tracing"@
}

/// The record of one part.
pub fn part_timing(name: &String, a: PartAccum) -> (p: PartTiming)
    ensures
        part_record(p, name@, a),
{
    let total_ns: u64 = saturating_u64(a.total_ns);
    let scope: &'static str = if is_top_level(name.as_str()) {
        "top_level"
    } else {
        "nested"
    };
    PartTiming {
        part: name.clone(),
        scope,
        total_ns,
        count: a.count,
        per_call_ns: Ratio { num: total_ns as i128, den: a.count },
        source: "tracing",
    }
}

/// Summed time of the first `k` parts of a snapshot that do not overlap.
pub open spec fn snap_summed(snap: Seq<NamedPart>, k: int) -> int
    decreases k,
{
    if k <= 0 {
        0
    } else {
        snap_summed(snap, k - 1) + if top_level(snap[k - 1].0@) {
            to_u64(snap[k - 1].1.total_ns as int)
        } else {
            0
        }
    }
}

/// Assemble a report from a snapshot.
pub fn build_report(inputs: ReportInputs, snap: &Vec<NamedPart>, accepts: u64) -> (r: BenchReport)
    requires
        sorted_parts(snap@),
        snap_summed(snap@, snap@.len() as int) <= u64::MAX,
    ensures
        r.schema_version == SCHEMA_VERSION,
        r.backend == inputs.backend,
        r.algorithm == inputs.algorithm,
        r.model == inputs.model,
        r.iters == inputs.iters,
        r.warmup == inputs.warmup,
        r.measured_model_ns == inputs.measured_model_ns,
        r.parts@.len() == snap@.len(),
        forall|i: int|
            0 <= i < snap@.len() ==> part_record(#[trigger] r.parts@[i], snap@[i].0@, snap@[i].1),
        derived_from(r.derived, inputs.model, snap@, accepts, inputs.iters as nat),
        r.residual_ns == to_i64(inputs.measured_model_ns as int) - to_i64(
            snap_summed(snap@, snap@.len() as int),
        ),
        r.residual_frac.num == r.residual_ns,
        r.residual_frac.den == inputs.measured_model_ns,
{
    let mut parts: Vec<PartTiming> = Vec::with_capacity(snap.len());
    let mut i: usize = 0;
    while i < snap.len()
        invariant
            i <= snap@.len(),
            parts@.len() == i,
            forall|k: int|
                0 <= k < i ==> part_record(#[trigger] parts@[k], snap@[k].0@, snap@[k].1),
        decreases snap@.len() - i,
    {
        parts.push(part_timing(&snap[i].0, snap[i].1));
        i = i + 1;
    }
    let names: Vec<&str> = vec!["cpu_graph_build", "beta_schedule", "anneal_read", "score"];
    proof {
        assert(names@[0]@ == "cpu_graph_build"@);
        assert(names@[1]@ == "beta_schedule"@);
        assert(names@[2]@ == "anneal_read"@);
        assert(names@[3]@ == "score"@);
        assert forall|name: Seq<char>| #[trigger] listed(names@, name) <==> top_level(name) by {}
        lemma_same_sum(snap@, parts@, names@, snap@.len() as int);
    }
    let derived = derive_metrics(&inputs.model, snap, accepts, inputs.iters);
    let (residual_ns, residual_frac) = residual(
        inputs.measured_model_ns,
        parts.as_slice(),
        names.as_slice(),
    );
    BenchReport {
        schema_version: SCHEMA_VERSION,
        backend: inputs.backend,
        algorithm: inputs.algorithm,
        model: inputs.model,
        iters: inputs.iters,
        warmup: inputs.warmup,
        measured_model_ns: inputs.measured_model_ns,
        parts,
        derived,
        residual_ns,
        residual_frac,
    }
}

proof fn lemma_same_sum(
    snap: Seq<NamedPart>,
    parts: Seq<PartTiming>,
    names: Seq<&str>,
    k: int,
)
    requires
        0 <= k <= snap.len(),
        parts.len() == snap.len(),
        forall|i: int|
            0 <= i < snap.len() ==> part_record(#[trigger] parts[i], snap[i].0@, snap[i].1),
        forall|name: Seq<char>| #[trigger] listed(names, name) <==> top_level(name),
    ensures
        summed(parts, names, k) == snap_summed(snap, k),
    decreases k,
{
    if k > 0 {
        lemma_same_sum(snap, parts, names, k - 1);
        assert(part_record(parts[k - 1], snap[k - 1].0@, snap[k - 1].1));
    }
}

/// A report's accept rate never passes 1 while no visit accepts twice: flips
/// and visits count the same measured calls.
pub proof fn accept_rate_is_at_most_one(
    d: DerivedMetrics,
    desc: ModelDescriptor,
    snap: Seq<NamedPart>,
    accepts: u64,
    iters: nat,
)
    requires
        derived_from(d, desc, snap, accepts, iters),
        accepts <= visits(desc, iters),
    ensures
        d.accept_rate.num <= d.accept_rate.den,
{
}

/// Short name of an algorithm.
pub fn algorithm_name(a: Algorithm) -> (r: &'static str)
    ensures
        r@ == match a {
            Algorithm::Sa => "sa"@,
            Algorithm::Gibbs => "gibbs"@,
        },
{
    match a {
        Algorithm::Sa => "sa",
        Algorithm::Gibbs => "gibbs",
    }
}

/// The description of a model under these settings.
pub fn describe(model_id: &String, graph: &IsingGraph, params: &SampleParams) -> (d: ModelDescriptor)
    ensures
        d.model_id@ == model_id@,
        d.n_nodes == graph.h@.len(),
        d.n_edges == graph.edges@.len(),
        d.num_reads == params.reads(),
        d.num_betas == params.rungs(),
        d.sweeps_per_beta == params.per_rung(),
        d.seed == params.seed,
{
    ModelDescriptor {
        model_id: model_id.clone(),
        n_nodes: graph.h.len(),
        n_edges: graph.edges.len(),
        num_reads: or_one(params.num_reads),
        num_betas: params.num_betas(),
        sweeps_per_beta: or_one(params.sweeps_per_beta),
        seed: params.seed,
    }
}

/// The column of visits.
pub open spec fn visit_column<R>(rows: Seq<(R, R, R)>) -> Seq<R> {
    Seq::new(rows.len(), |i: int| rows[i].0)
}

/// The column of accepted flips.
pub open spec fn accept_column<R>(rows: Seq<(R, R, R)>) -> Seq<R> {
    Seq::new(rows.len(), |i: int| rows[i].1)
}

/// The column of times.
pub open spec fn time_column<R>(rows: Seq<(R, R, R)>) -> Seq<R> {
    Seq::new(rows.len(), |i: int| rows[i].2)
}

/// Sum of the products of two columns.
pub open spec fn columns<R: Scalar>(a: Seq<R>, b: Seq<R>) -> R {
    pair_sum(a, b, a.len() as int)
}

/// The determinant of the normal equations of the fit
/// `time = a visits + b accepts`.
pub open spec fn fit_determinant<R: Scalar>(rows: Seq<(R, R, R)>) -> R {
    let (v, a) = (visit_column(rows), accept_column(rows));
    columns(v, v).times(columns(a, a)).minus(columns(v, a).times(columns(v, a)))
}

/// The slope `b` of that fit.
pub open spec fn fit_slope<R: Scalar>(rows: Seq<(R, R, R)>) -> R {
    let (v, a, y) = (visit_column(rows), accept_column(rows), time_column(rows));
    columns(v, v).times(columns(a, y)).minus(columns(v, a).times(columns(v, y))).over(
        fit_determinant(rows),
    )
}

/// The cost of an accepted flip by least squares over rows of visits, accepted
/// flips and time; `None` where the rows do not determine it.
pub fn fit_per_flip<R: Scalar>(rows: &[(R, R, R)]) -> (r: Option<R>)
    ensures
        r is None <==> distance(fit_determinant(rows@)).under(R::fraction(1, 1000000000)),
        r matches Some(b) ==> b == fit_slope(rows@),
{
    let mut vv: R = zero();
    let mut va: R = zero();
    let mut aa: R = zero();
    let mut vy: R = zero();
    let mut ay: R = zero();
    let ghost v = visit_column(rows@);
    let ghost a = accept_column(rows@);
    let ghost y = time_column(rows@);
    let mut i: usize = 0;
    while i < rows.len()
        invariant
            v == visit_column(rows@),
            a == accept_column(rows@),
            y == time_column(rows@),
            i <= rows@.len(),
            vv == pair_sum(v, v, i as int),
            va == pair_sum(v, a, i as int),
            aa == pair_sum(a, a, i as int),
            vy == pair_sum(v, y, i as int),
            ay == pair_sum(a, y, i as int),
        decreases rows@.len() - i,
    {
        let (visited, accepted, time) = rows[i];
        assert(v[i as int] == visited && a[i as int] == accepted && y[i as int] == time);
        vv = vv.sum(visited.product(visited));
        va = va.sum(visited.product(accepted));
        aa = aa.sum(accepted.product(accepted));
        vy = vy.sum(visited.product(time));
        ay = ay.sum(accepted.product(time));
        i = i + 1;
    }
    let det: R = vv.product(aa).difference(va.product(va));
    if absolute(det).less(R::ratio(1, 1000000000)) {
        None
    } else {
        Some(vv.product(ay).difference(va.product(vy)).quotient(det))
    }
}

/// The fit finds the cost that the rows hold: where every time is `p` for a visit
/// and `q` for an accepted flip, and the rows determine the fit, its slope is `q`.
pub proof fn the_fit_finds_the_cost_of_a_flip<R: Scalar>(
    val: spec_fn(R) -> real,
    rows: Seq<(R, R, R)>,
    p: real,
    q: real,
)
    requires
        exact(val),
        forall|i: int|
            0 <= i < rows.len() ==> val((#[trigger] rows[i]).2) == p * val(rows[i].0) + q * val(
                rows[i].1,
            ),
        val(fit_determinant(rows)) != 0int as real,
    ensures
        val(fit_slope(rows)) == q,
{
    let (v, a, y) = (visit_column(rows), accept_column(rows), time_column(rows));
    let k = rows.len() as int;
    lemma_fitted(val, rows, v, p, q, k);
    lemma_fitted(val, rows, a, p, q, k);
    let (vv, va, aa) = (val(columns(v, v)), val(columns(v, a)), val(columns(a, a)));
    lemma_columns_swap(val, a, v, k);
    let det = val(fit_determinant(rows));
    let top = vv * (p * va + q * aa) - va * (p * vv + q * va);
    lemma_eliminated(vv, va, aa, p, q);
    assert(top == q * det);
    assert(val(columns(a, y)) == p * va + q * aa);
    assert(val(columns(v, y)) == p * vv + q * va);
    assert(val(fit_slope(rows)) == top / det);
    lemma_quotient(top, det);
    let s = top / det;
    lemma_spread(det, s, q);
    if s != q {
        lemma_apart(s - q, det);
    }
}

proof fn lemma_fitted<R: Scalar>(
    val: spec_fn(R) -> real,
    rows: Seq<(R, R, R)>,
    w: Seq<R>,
    p: real,
    q: real,
    k: int,
)
    requires
        exact(val),
        w.len() == rows.len(),
        0 <= k <= rows.len(),
        forall|i: int|
            0 <= i < rows.len() ==> val((#[trigger] rows[i]).2) == p * val(rows[i].0) + q * val(
                rows[i].1,
            ),
    ensures
        val(pair_sum(w, time_column(rows), k)) == p * val(pair_sum(w, visit_column(rows), k)) + q
            * val(pair_sum(w, accept_column(rows), k)),
    decreases k,
{
    lemma_exact_values(val, nil::<R>());
    lemma_trivial_factors(p);
    lemma_trivial_factors(q);
    if k > 0 {
        lemma_fitted(val, rows, w, p, q, k - 1);
        let (x, a, b) = (val(w[k - 1]), val(rows[k - 1].0), val(rows[k - 1].1));
        let (s, t) = (
            val(pair_sum(w, visit_column(rows), k - 1)),
            val(pair_sum(w, accept_column(rows), k - 1)),
        );
        assert(val(rows[k - 1].2) == p * a + q * b);
        lemma_spread(x, p * a, q * b);
        lemma_cross(x, p, a);
        lemma_cross(x, q, b);
        lemma_spread(p, s, x * a);
        lemma_spread(q, t, x * b);
    }
}

proof fn lemma_columns_swap<R: Scalar>(val: spec_fn(R) -> real, a: Seq<R>, b: Seq<R>, k: int)
    requires
        exact(val),
    ensures
        val(pair_sum(a, b, k)) == val(pair_sum(b, a, k)),
    decreases k,
{
    if k > 0 {
        lemma_columns_swap(val, a, b, k - 1);
        lemma_swap(val(a[k - 1]), val(b[k - 1]));
    }
}

proof fn lemma_eliminated(vv: real, va: real, aa: real, p: real, q: real)
    ensures
        vv * (p * va + q * aa) - va * (p * vv + q * va) == q * (vv * aa - va * va),
{
    lemma_spread(vv, p * va, q * aa);
    lemma_spread(va, p * vv, q * va);
    lemma_cross(vv, p, va);
    lemma_cross(vv, q, aa);
    lemma_cross(va, q, va);
    lemma_spread(q, vv * aa, va * va);
}

proof fn lemma_apart(a: real, b: real)
    requires
        a != 0int as real,
        b != 0int as real,
    ensures
        a * b != 0int as real,
{
    lemma_spread(a, 0int as real, b);
    lemma_spread(b, 0int as real, a);
    lemma_trivial_factors(a);
    lemma_trivial_factors(b);
    if a > 0int as real {
        if b > 0int as real {
            lemma_product_above(a, b);
        } else {
            lemma_product_above(a, 0int as real - b);
        }
    } else if b > 0int as real {
        lemma_product_above(0int as real - a, b);
    } else {
        lemma_product_above(0int as real - a, 0int as real - b);
        lemma_spread(0int as real - a, 0int as real, b);
        lemma_trivial_factors(0int as real - a);
    }
}

} // verus!
