//! Sampling with a tensor network on the problem graph: an imaginary-time
//! anneal, belief propagation, conditioned samples, and a greedy polish.
//!
//! A site tensor holds as many entries as the bond dimension to the power of its
//! degree, so the cost is exponential in the degree. A graph whose degree makes
//! every bond dimension above 1 unaffordable runs as mean field.
use vstd::prelude::*;

use crate::flatiron::gate::{apply_zz, gated, rows_at, rows_of, weights_fit};
use crate::flatiron::graph::{bonds_at, net_of, NetGraph};
use crate::flatiron::sample::{
    bond_has_a_place, ends_at, graph_ok, Net, lemma_row, lemma_row_ascends, net_draw, net_ok,
    place_of, position, prepared, propagation_keeps_the_tensors, rooted_upto, propagated,
    tensors_fit, tensors_view, weight_dims, weights_view, SamplingNet, BP_MAX_SWEEPS,
};
use crate::flatiron::state::{
    phys_mixed, phys_scaled, plus_tensor, prod, rescaled, stride_of, tensor_wf, SiteTensor, Tensor,
};
use crate::ising::{lattice, valid_spins, IsingGraph};
use crate::mps::schedule::{
    angle_factor, are_gains, eta_seq, gain_factors, gamma_seq, is_angle, is_tau, job_schedule,
    polish_sweeps, ramp_top, split_sweeps, tau_factor, trotter_steps, Schedule,
};
use crate::mps::svd::lesser;
use crate::rng::{read_seed_of, reads_of_a_job_have_distinct_seeds, Draw, Source};
use crate::sampler_core::{
    at_least_one, or_one, polish_from, score_spins, scored, CpuGraph, SampleParams, SamplerResult,
};
use crate::scalar::{copy_scalars, one, unit, Scalar};
use crate::sweep::descent;

verus! {

/// Memory cap of one model in bytes.
pub const MEM_CAP_BYTES: u64 = 67_000_000;

/// Flops per `m * n * min(m, n)` of one factorization.
pub const SVD_FLOP_CONST: u64 = 50;

/// Settings of one job.
#[derive(Debug, Clone, Copy, PartialEq, Eq, Structural)]
pub struct BptnsConfig {
    /// Upper bound on the bond dimension.
    pub chi_max: usize,
    /// Time limit of the anneal in milliseconds. 0 disables it.
    pub time_budget_ms: u64,
    /// Flop budget, which selects the bond dimension.
    pub flop_budget: u64,
}

impl BptnsConfig {
    /// The documented settings.
    pub fn new(chi_max: usize) -> (c: Self)
        ensures
            c == (BptnsConfig { chi_max, time_budget_ms: 2000, flop_budget: 1_250_000_000 }),
    {
        BptnsConfig { chi_max, time_budget_ms: 2000, flop_budget: 1_250_000_000 }
    }
}

/// `c` to the power of `d`.
pub open spec fn power(c: nat, d: nat) -> nat
    decreases d,
{
    if d == 0 {
        1
    } else {
        c * power(c, (d - 1) as nat)
    }
}

proof fn lemma_power_positive(c: nat, d: nat)
    requires
        c >= 1,
    ensures
        power(c, d) >= 1,
    decreases d,
{
    if d > 0 {
        lemma_power_positive(c, (d - 1) as nat);
        assert(c * power(c, (d - 1) as nat) >= 1) by (nonlinear_arith)
            requires
                c >= 1,
                power(c, (d - 1) as nat) >= 1,
        ;
    }
}

proof fn lemma_power_sum(c: nat, a: nat, b: nat)
    ensures
        power(c, a + b) == power(c, a) * power(c, b),
    decreases a,
{
    if a > 0 {
        lemma_power_sum(c, (a - 1) as nat, b);
        assert(a + b - 1 == (a - 1) + b);
        assert(c * (power(c, (a - 1) as nat) * power(c, b)) == (c * power(c, (a - 1) as nat))
            * power(c, b)) by (nonlinear_arith);
    } else {
        assert(1 * power(c, b) == power(c, b)) by (nonlinear_arith);
    }
}

proof fn lemma_power_one(d: nat)
    ensures
        power(1, d) == 1,
    decreases d,
{
    if d > 0 {
        lemma_power_one((d - 1) as nat);
    }
}

/// `c` to the power of `d`, where that is at most `cap`.
fn power_within(c: usize, d: usize, cap: u128) -> (r: Option<u128>)
    requires
        c >= 1,
        1 <= cap <= 0xffff_ffff_ffff_ffff,
    ensures
        r is Some <==> power(c as nat, d as nat) <= cap,
        r matches Some(p) ==> p == power(c as nat, d as nat),
{
    let mut p: u128 = 1;
    let mut i: usize = 0;
    while i < d
        invariant
            c >= 1,
            1 <= cap <= 0xffff_ffff_ffff_ffff,
            i <= d,
            p == power(c as nat, i as nat),
            1 <= p <= cap,
        decreases d - i,
    {
        assert(c * p <= 0xffff_ffff_ffff_ffff * 0xffff_ffff_ffff_ffff) by (nonlinear_arith)
            requires
                0 <= c <= 0xffff_ffff_ffff_ffff,
                0 <= p <= 0xffff_ffff_ffff_ffff,
        ;
        assert(c * p >= 1) by (nonlinear_arith)
            requires
                c >= 1,
                p >= 1,
        ;
        let next: u128 = c as u128 * p;
        if next > cap {
            proof {
                assert(next == power(c as nat, (i + 1) as nat));
                lemma_power_sum(c as nat, (d - i - 1) as nat, (i + 1) as nat);
                lemma_power_positive(c as nat, (d - i - 1) as nat);
                let (a, b) = (power(c as nat, (d - i - 1) as nat), next as nat);
                assert(b <= a * b) by (nonlinear_arith)
                    requires
                        a >= 1,
                        b >= 0,
                ;
            }
            return None;
        }
        p = next;
        i = i + 1;
    }
    Some(p)
}

/// Bonds at node `v`.
pub open spec fn degree(g: NetGraph, v: int) -> nat {
    g.adj@[v]@.len()
}

/// Bytes of the first `v` site tensors at bond dimension `c`.
pub open spec fn memory_at(g: NetGraph, c: nat, v: int) -> nat
    decreases v,
{
    if v <= 0 {
        0
    } else {
        memory_at(g, c, v - 1) + 16 * power(c, degree(g, v - 1))
    }
}

/// Rows of a site at a bond, at bond dimension `c`.
pub open spec fn side(g: NetGraph, c: nat, v: int) -> nat {
    2 * power(c, (degree(g, v) - 1) as nat)
}

/// Flops of the factorization of bond `e` at bond dimension `c`.
pub open spec fn flops_of(g: NetGraph, c: nat, e: int) -> nat {
    let m = side(g, c, g.bonds@[e].0 as int);
    let n = side(g, c, g.bonds@[e].1 as int);
    SVD_FLOP_CONST as nat * m * n * lesser(m, n)
}

/// Flops of one step over the first `e` bonds.
pub open spec fn flops_at(g: NetGraph, c: nat, e: int) -> nat
    decreases e,
{
    if e <= 0 {
        0
    } else {
        flops_at(g, c, e - 1) + flops_of(g, c, e - 1)
    }
}

/// Bond dimension `c` fits the memory cap and the flop budget.
pub open spec fn net_affordable(g: NetGraph, steps: nat, budget: nat, c: nat) -> bool {
    &&& memory_at(g, c, g.adj@.len() as int) <= MEM_CAP_BYTES
    &&& at_least_one(steps) * flops_at(g, c, g.bonds@.len() as int) <= budget
}

/// `chi` is the bond dimension of a job: the largest affordable one up to
/// `chi_max`, and never below 1. Without bonds it is `chi_max`.
pub open spec fn net_selected(g: NetGraph, steps: nat, chi_max: nat, budget: nat, chi: nat) -> bool {
    if g.adj@.len() == 0 || g.bonds@.len() == 0 {
        chi == at_least_one(chi_max)
    } else {
        &&& 1 <= chi <= at_least_one(chi_max)
        &&& chi > 1 ==> net_affordable(g, steps, budget, chi)
        &&& forall|c: nat|
            chi < c <= chi_max ==> !(#[trigger] net_affordable(g, steps, budget, c))
    }
}

proof fn lemma_memory_grows(g: NetGraph, c: nat, v: int, w: int)
    requires
        0 <= v <= w,
    ensures
        memory_at(g, c, v) <= memory_at(g, c, w),
    decreases w,
{
    if v < w {
        lemma_memory_grows(g, c, v, w - 1);
    }
}

proof fn lemma_flops_grow(g: NetGraph, c: nat, i: int, e: int)
    requires
        0 <= i <= e,
    ensures
        flops_at(g, c, i) <= flops_at(g, c, e),
    decreases e,
{
    if i < e {
        lemma_flops_grow(g, c, i, e - 1);
    }
}

/// Whether the site tensors fit the memory cap at bond dimension `c`.
fn memory_fits(g: &NetGraph, c: usize) -> (r: bool)
    requires
        c >= 1,
    ensures
        r == (memory_at(*g, c as nat, g.adj@.len() as int) <= MEM_CAP_BYTES),
{
    let cap: u128 = MEM_CAP_BYTES as u128;
    let mut total: u128 = 0;
    let mut v: usize = 0;
    while v < g.adj.len()
        invariant
            c >= 1,
            cap == MEM_CAP_BYTES,
            v <= g.adj@.len(),
            total == memory_at(*g, c as nat, v as int),
            total <= cap,
        decreases g.adj@.len() - v,
    {
        proof {
            lemma_memory_grows(*g, c as nat, v as int + 1, g.adj@.len() as int);
        }
        match power_within(c, g.adj[v].len(), cap) {
            Some(p) => {
                total = total + 16 * p;
                if total > cap {
                    return false;
                }
            },
            None => {
                return false;
            },
        }
        v = v + 1;
    }
    true
}

/// Whether all steps fit the flop budget at bond dimension `c`.
fn flops_fit(g: &NetGraph, steps: usize, budget: u64, c: usize) -> (r: bool)
    requires
        c >= 1,
        graph_ok(*g),
        memory_at(*g, c as nat, g.adj@.len() as int) <= MEM_CAP_BYTES,
    ensures
        r == (at_least_one(steps as nat) * flops_at(*g, c as nat, g.bonds@.len() as int)
            <= budget),
{
    let held: u128 = or_one(steps) as u128;
    let cap: u128 = MEM_CAP_BYTES as u128;
    let mut per_step: u128 = 0;
    let mut e: usize = 0;
    while e < g.bonds.len()
        invariant
            c >= 1,
            graph_ok(*g),
            memory_at(*g, c as nat, g.adj@.len() as int) <= MEM_CAP_BYTES,
            cap == MEM_CAP_BYTES,
            held == at_least_one(steps as nat),
            held >= 1,
            e <= g.bonds@.len(),
            per_step == flops_at(*g, c as nat, e as int),
            per_step <= budget,
        decreases g.bonds@.len() - e,
    {
        let u: usize = g.bonds[e].0 as usize;
        let v: usize = g.bonds[e].1 as usize;
        proof {
            assert(g.bonds@[e as int].0 < g.bonds@[e as int].1);
            lemma_flops_grow(*g, c as nat, e as int + 1, g.bonds@.len() as int);
            lemma_side_bound(*g, c as nat, u as int);
            lemma_side_bound(*g, c as nat, v as int);
            lemma_degree_positive(*g, e as int);
        }
        let m: u128 = match power_within(c, g.adj[u].len() - 1, cap) {
            Some(p) => 2 * p,
            None => {
                assert(false);
                0
            },
        };
        let n: u128 = match power_within(c, g.adj[v].len() - 1, cap) {
            Some(p) => 2 * p,
            None => {
                assert(false);
                0
            },
        };
        let low: u128 = if m < n {
            m
        } else {
            n
        };
        proof {
            assert(50 * m <= 50 * 0x800_0000 && 50 * m * n <= 50 * 0x800_0000 * 0x800_0000 && 50 * m
                * n * low <= 50 * 0x800_0000 * 0x800_0000 * 0x800_0000) by (nonlinear_arith)
                requires
                    0 <= m <= 0x800_0000,
                    0 <= n <= 0x800_0000,
                    0 <= low <= 0x800_0000,
            ;
        }
        per_step = per_step + 50 * m * n * low;
        if per_step > budget as u128 {
            proof {
                let all = flops_at(*g, c as nat, g.bonds@.len() as int);
                assert(held * all >= all) by (nonlinear_arith)
                    requires
                        held >= 1,
                        all >= 0,
                ;
            }
            return false;
        }
        e = e + 1;
    }
    assert(held * per_step <= 0xffff_ffff_ffff_ffff * 0xffff_ffff_ffff_ffff) by (nonlinear_arith)
        requires
            0 <= held <= 0xffff_ffff_ffff_ffff,
            0 <= per_step <= 0xffff_ffff_ffff_ffff,
    ;
    held * per_step <= budget as u128
}

proof fn lemma_side_bound(g: NetGraph, c: nat, v: int)
    requires
        c >= 1,
        0 <= v < g.adj@.len(),
        memory_at(g, c, g.adj@.len() as int) <= MEM_CAP_BYTES,
    ensures
        power(c, degree(g, v)) <= 4_187_500,
        degree(g, v) >= 1 ==> power(c, (degree(g, v) - 1) as nat) <= 4_187_500,
{
    lemma_memory_grows(g, c, v + 1, g.adj@.len() as int);
    if degree(g, v) >= 1 {
        let p = power(c, (degree(g, v) - 1) as nat);
        assert(p <= c * p) by (nonlinear_arith)
            requires
                c >= 1,
                p >= 0,
        ;
    }
}

proof fn lemma_degree_positive(g: NetGraph, e: int)
    requires
        graph_ok(g),
        0 <= e < g.bonds@.len() <= usize::MAX,
    ensures
        degree(g, g.bonds@[e].0 as int) >= 1,
        degree(g, g.bonds@[e].1 as int) >= 1,
{
    assert(g.bonds@[e].0 < g.bonds@[e].1 < g.h@.len());
    bond_has_a_place(g, g.bonds@[e].0 as int, e);
    bond_has_a_place(g, g.bonds@[e].1 as int, e);
}

/// Bond dimension of one job: the largest inside both the memory cap and the
/// flop budget, never above `chi_max` and never below 1. No job is rejected.
pub fn select_chi(net: &NetGraph, steps: usize, cfg: &BptnsConfig) -> (chi: usize)
    requires
        graph_ok(*net),
    ensures
        net_selected(
            *net,
            steps as nat,
            cfg.chi_max as nat,
            cfg.flop_budget as nat,
            chi as nat,
        ),
{
    let chi_max: usize = or_one(cfg.chi_max);
    if net.adj.len() == 0 || net.bonds.len() == 0 {
        return chi_max;
    }
    let mut chi: usize = chi_max;
    while chi >= 2
        invariant
            graph_ok(*net),
            net.adj@.len() > 0,
            net.bonds@.len() > 0,
            chi_max == at_least_one(cfg.chi_max as nat),
            1 <= chi <= chi_max,
            forall|c: nat|
                chi < c <= cfg.chi_max ==> !(#[trigger] net_affordable(
                    *net,
                    steps as nat,
                    cfg.flop_budget as nat,
                    c,
                )),
        decreases chi,
    {
        if memory_fits(net, chi) && flops_fit(net, steps, cfg.flop_budget, chi) {
            return chi;
        }
        chi = chi - 1;
    }
    1
}

/// Site tensors and bond weights.
#[verifier::ext_equal]
pub struct Sites<R> {
    /// Site tensors.
    pub tensors: Seq<Tensor<R>>,
    /// Weights of each bond.
    pub lambdas: Seq<Seq<R>>,
}

/// The uniform superposition: every bond of dimension 1.
pub open spec fn plus_sites<R: Scalar>(g: NetGraph) -> Sites<R> {
    Sites {
        tensors: Seq::new(g.adj@.len(), |v: int| plus_tensor::<R>(degree(g, v))),
        lambdas: Seq::new(g.bonds@.len(), |e: int| seq![unit::<R>()]),
    }
}

/// Every tensor is well formed with a free spin.
pub open spec fn free_sites<R>(tensors: Seq<Tensor<R>>) -> bool {
    forall|v: int|
        0 <= v < tensors.len() ==> tensor_wf(#[trigger] tensors[v]) && tensors[v].phys == 2
}

/// Sites fit the graph at bond dimension `chi` at most.
pub open spec fn sites_ok<R>(g: NetGraph, s: Sites<R>, chi: nat) -> bool {
    &&& tensors_fit(g, s.tensors, weight_dims(s.lambdas))
    &&& free_sites(s.tensors)
    &&& forall|e: int|
        0 <= e < s.lambdas.len() ==> (#[trigger] s.lambdas[e]).len() <= chi && s.lambdas[e].len()
            * s.lambdas[e].len() <= usize::MAX
}

/// The two sites of every bond can be joined at bond dimension `chi`.
pub open spec fn joinable(g: NetGraph, chi: nat) -> bool {
    forall|e: int|
        0 <= e < g.bonds@.len() ==> side(g, chi, (#[trigger] g.bonds@[e]).0 as int) * side(
            g,
            chi,
            g.bonds@[e].1 as int,
        ) < usize::MAX
}

/// The weights around `node`, without those of bond `e`.
pub open spec fn env_of<R>(g: NetGraph, lambdas: Seq<Seq<R>>, node: int, e: int) -> Seq<Seq<R>> {
    Seq::new(
        g.adj@[node]@.len(),
        |b: int|
            if g.adj@[node]@[b].0 == e {
                Seq::empty()
            } else {
                lambdas[g.adj@[node]@[b].0 as int]
            },
    )
}

/// The sites after the coupling of bond `e` is applied.
pub open spec fn bond_done<R: Scalar>(
    eps: R,
    floor: R,
    g: NetGraph,
    s: Sites<R>,
    e: int,
    t: R,
    chi: nat,
) -> Sites<R> {
    let (u, v) = (g.bonds@[e].0 as int, g.bonds@[e].1 as int);
    let r = gated(
        eps,
        floor,
        s.tensors[u],
        s.tensors[v],
        place_of(g, u, e),
        place_of(g, v, e),
        t,
        s.lambdas[e],
        env_of(g, s.lambdas, u, e),
        env_of(g, s.lambdas, v, e),
        chi,
    );
    Sites {
        tensors: s.tensors.update(u, r.0).update(v, r.1),
        lambdas: s.lambdas.update(e, r.2),
    }
}

/// The sites after the couplings of the first `e` bonds.
pub open spec fn bonds_done<R: Scalar>(
    eps: R,
    floor: R,
    g: NetGraph,
    s: Sites<R>,
    angles: Seq<R>,
    chi: nat,
    e: int,
) -> Sites<R>
    decreases e,
{
    if e <= 0 {
        s
    } else {
        bond_done(
            eps,
            floor,
            g,
            bonds_done(eps, floor, g, s, angles, chi, e - 1),
            e - 1,
            angles[e - 1],
            chi,
        )
    }
}

/// Tensors after a transverse layer.
pub open spec fn mixed_sites<R: Scalar>(tensors: Seq<Tensor<R>>, tau: R) -> Seq<Tensor<R>> {
    Seq::new(
        tensors.len(),
        |v: int| phys_mixed(tensors[v], (unit::<R>(), tau, tau, unit::<R>())),
    )
}

/// Tensors after the fields.
pub open spec fn field_sites<R: Scalar>(
    tensors: Seq<Tensor<R>>,
    gains: Seq<(R, R)>,
) -> Seq<Tensor<R>> {
    Seq::new(tensors.len(), |v: int| phys_scaled(tensors[v], gains[v]))
}

/// Tensors rescaled.
pub open spec fn rescaled_sites<R: Scalar>(tensors: Seq<Tensor<R>>) -> Seq<Tensor<R>> {
    Seq::new(tensors.len(), |v: int| rescaled(tensors[v]))
}

/// The factors of one step: transverse, per field, per bond.
#[verifier::ext_equal]
pub struct NetFactors<R> {
    /// Transverse factor.
    pub tau: R,
    /// Factors of the two spin values at each node.
    pub gains: Seq<(R, R)>,
    /// Coupling factors.
    pub angles: Seq<R>,
}

/// The sites after one step: half a transverse layer, the fields, the couplings,
/// half a transverse layer again, and a rescaling.
pub open spec fn net_step<R: Scalar>(
    eps: R,
    floor: R,
    g: NetGraph,
    s: Sites<R>,
    chi: nat,
    f: NetFactors<R>,
) -> Sites<R> {
    let fields = field_sites(mixed_sites(s.tensors, f.tau), f.gains);
    let all = bonds_done(
        eps,
        floor,
        g,
        Sites { tensors: fields, lambdas: s.lambdas },
        f.angles,
        chi,
        g.bonds@.len() as int,
    );
    Sites { tensors: rescaled_sites(mixed_sites(all.tensors, f.tau)), lambdas: all.lambdas }
}

/// The sites after the first `k` steps; a held step does nothing.
pub open spec fn net_steps<R: Scalar>(
    eps: R,
    floor: R,
    g: NetGraph,
    s: Sites<R>,
    chi: nat,
    fs: Seq<Option<NetFactors<R>>>,
    k: int,
) -> Sites<R>
    decreases k,
{
    if k <= 0 {
        s
    } else {
        let before = net_steps(eps, floor, g, s, chi, fs, k - 1);
        match fs[k - 1] {
            None => before,
            Some(f) => net_step(eps, floor, g, before, chi, f),
        }
    }
}

proof fn lemma_prod_bound(dims: Seq<nat>, chi: nat, i: int, j: int)
    requires
        0 <= i <= j <= dims.len(),
        forall|b: int| 0 <= b < dims.len() ==> #[trigger] dims[b] <= chi,
    ensures
        prod(dims, i, j) <= power(chi, (j - i) as nat),
    decreases j - i,
{
    if i < j {
        lemma_prod_bound(dims, chi, i + 1, j);
        let (a, x, y) = (dims[i], prod(dims, i + 1, j), power(chi, (j - i - 1) as nat));
        assert(a * x <= chi * y) by (nonlinear_arith)
            requires
                0 <= a <= chi,
                0 <= x <= y,
        ;
    }
}

proof fn lemma_rows_bound<R>(t: Tensor<R>, b: int, chi: nat)
    requires
        0 <= b < t.dims.len(),
        forall|i: int| 0 <= i < t.dims.len() ==> #[trigger] t.dims[i] <= chi,
        t.phys == 2,
    ensures
        rows_at(t, b) <= 2 * power(chi, (t.dims.len() - 1) as nat),
{
    let n = t.dims.len() as int;
    lemma_prod_bound(t.dims, chi, 0, b);
    lemma_prod_bound(t.dims, chi, b + 1, n);
    lemma_power_sum(chi, b as nat, (n - b - 1) as nat);
    assert(b + (n - b - 1) == n - 1);
    let (x, y) = (prod(t.dims, 0, b), stride_of(t, b));
    let (p, q) = (power(chi, b as nat), power(chi, (n - b - 1) as nat));
    assert((2 * x) * y <= 2 * (p * q)) by (nonlinear_arith)
        requires
            0 <= x <= p,
            0 <= y <= q,
    ;
}

proof fn lemma_same_shape<R>(g: NetGraph, a: Seq<Tensor<R>>, b: Seq<Tensor<R>>, kd: Seq<nat>)
    requires
        tensors_fit(g, a, kd),
        b.len() == a.len(),
        free_sites(b),
        forall|v: int| 0 <= v < a.len() ==> (#[trigger] b[v]).dims == a[v].dims,
    ensures
        tensors_fit(g, b, kd),
{
    assert forall|v: int, i: int|
        0 <= v < b.len() && 0 <= i < b[v].dims.len() implies #[trigger] b[v].dims[i]
        == kd[g.adj@[v]@[i].0 as int] by {
        assert(b[v].dims == a[v].dims);
        assert(a[v].dims[i] == kd[g.adj@[v]@[i].0 as int]);
    }
    assert forall|v: int| 0 <= v < b.len() implies tensor_wf(#[trigger] b[v]) && b[v].dims.len()
        == g.adj@[v]@.len() by {
        assert(b[v].dims == a[v].dims);
        assert(tensor_wf(a[v]));
    }
}

proof fn lemma_sites_after_bond<R>(
    g: NetGraph,
    s: Sites<R>,
    e: int,
    tu: Tensor<R>,
    tv: Tensor<R>,
    lam: Seq<R>,
    chi: nat,
)
    requires
        sites_ok(g, s, chi),
        0 <= e < g.bonds@.len(),
        tensor_wf(tu),
        tensor_wf(tv),
        tu.phys == 2,
        tv.phys == 2,
        tu.dims == s.tensors[g.bonds@[e].0 as int].dims.update(
            place_of(g, g.bonds@[e].0 as int, e),
            lam.len(),
        ),
        tv.dims == s.tensors[g.bonds@[e].1 as int].dims.update(
            place_of(g, g.bonds@[e].1 as int, e),
            lam.len(),
        ),
        1 <= lam.len() <= chi,
        lam.len() * lam.len() <= usize::MAX,
    ensures
        sites_ok(
            g,
            Sites {
                tensors: s.tensors.update(g.bonds@[e].0 as int, tu).update(
                    g.bonds@[e].1 as int,
                    tv,
                ),
                lambdas: s.lambdas.update(e, lam),
            },
            chi,
        ),
{
    let (u, v) = (g.bonds@[e].0 as int, g.bonds@[e].1 as int);
    let next = s.tensors.update(u, tu).update(v, tv);
    let kd = weight_dims(s.lambdas);
    let after = weight_dims(s.lambdas.update(e, lam));
    let m = g.bonds@.len() as int;
    bond_has_a_place(g, u, e);
    bond_has_a_place(g, v, e);
    assert forall|w: int|
        0 <= w < next.len() implies tensor_wf(#[trigger] next[w]) && next[w].dims.len()
        == g.adj@[w]@.len() && next[w].phys == 2 by {
        assert(tensor_wf(s.tensors[w]) && s.tensors[w].dims.len() == g.adj@[w]@.len());
        assert(s.tensors[w].phys == 2);
    }
    assert forall|w: int, b: int|
        0 <= w < next.len() && 0 <= b < next[w].dims.len() implies #[trigger] next[w].dims[b]
        == after[g.adj@[w]@[b].0 as int] by {
        let row = g.adj@[w]@;
        assert(row == bonds_at(g.bonds@, w, m));
        assert(next[w].dims.len() == row.len());
        lemma_row(g.bonds@, w, m, b);
        assert(s.tensors[w].dims.len() == row.len());
        assert(s.tensors[w].dims[b] == kd[row[b].0 as int]);
        if row[b].0 == e {
            assert(w == u || w == v);
            let at = place_of(g, w, e);
            if at < b {
                lemma_row_ascends(g.bonds@, w, m, at, b);
            } else if b < at {
                lemma_row_ascends(g.bonds@, w, m, b, at);
            }
        } else if w == u || w == v {
            assert(place_of(g, w, e) != b);
        }
    }
    assert forall|i: int| 0 <= i < after.len() implies #[trigger] after[i] >= 1 by {
        assert(kd[i] >= 1);
    }
}

/// The weights around `node`, without those of bond `e`.
fn environment<R: Scalar>(
    net: &NetGraph,
    lambdas: &Vec<Vec<R>>,
    node: usize,
    e: usize,
) -> (env: Vec<Vec<R>>)
    requires
        graph_ok(*net),
        node < net.adj@.len(),
        lambdas@.len() == net.bonds@.len() <= usize::MAX,
    ensures
        rows_of(env@) == env_of(*net, weights_view(lambdas@), node as int, e as int),
{
    let ghost goal = env_of(*net, weights_view(lambdas@), node as int, e as int);
    let mut env: Vec<Vec<R>> = Vec::with_capacity(net.adj[node].len());
    let mut b: usize = 0;
    while b < net.adj[node].len()
        invariant
            graph_ok(*net),
            node < net.adj@.len(),
            lambdas@.len() == net.bonds@.len() <= usize::MAX,
            goal == env_of(*net, weights_view(lambdas@), node as int, e as int),
            b <= net.adj@[node as int]@.len(),
            env@.len() == b,
            forall|i: int| 0 <= i < b ==> (#[trigger] env@[i])@ == goal[i],
        decreases net.adj@[node as int]@.len() - b,
    {
        let other: usize = net.adj[node][b].0;
        proof {
            assert(net.adj@[node as int]@ == bonds_at(
                net.bonds@,
                node as int,
                net.bonds@.len() as int,
            ));
            lemma_row(net.bonds@, node as int, net.bonds@.len() as int, b as int);
        }
        if other == e {
            let none: Vec<R> = Vec::new();
            assert(none@ =~= goal[b as int]);
            env.push(none);
        } else {
            env.push(copy_scalars(&lambdas[other]));
        }
        b = b + 1;
    }
    assert(rows_of(env@) =~= goal);
    env
}

/// Apply the coupling of bond `e`.
fn apply_bond<R: Scalar>(
    net: &NetGraph,
    tensors: &mut Vec<SiteTensor<R>>,
    lambdas: &mut Vec<Vec<R>>,
    e: usize,
    eps: R,
    floor: R,
    t: R,
    chi: usize,
)
    requires
        chi >= 1,
        e < net.bonds@.len(),
        joinable(*net, chi as nat),
        sites_ok(
            *net,
            Sites { tensors: tensors_view(old(tensors)@), lambdas: weights_view(old(lambdas)@) },
            chi as nat,
        ),
    ensures
        (Sites { tensors: tensors_view(final(tensors)@), lambdas: weights_view(final(lambdas)@) })
            == bond_done(
            eps,
            floor,
            *net,
            Sites { tensors: tensors_view(old(tensors)@), lambdas: weights_view(old(lambdas)@) },
            e as int,
            t,
            chi as nat,
        ),
        sites_ok(
            *net,
            Sites { tensors: tensors_view(final(tensors)@), lambdas: weights_view(final(lambdas)@) },
            chi as nat,
        ),
{
    let ghost s = Sites {
        tensors: tensors_view(tensors@),
        lambdas: weights_view(lambdas@),
    };
    let u: usize = net.bonds[e].0 as usize;
    let v: usize = net.bonds[e].1 as usize;
    assert(net.bonds@[e as int].0 < net.bonds@[e as int].1 < net.h@.len());
    let bu: usize = position(&net.adj[u], e);
    let bv: usize = position(&net.adj[v], e);
    let env_u = environment(net, lambdas, u, e);
    let env_v = environment(net, lambdas, v, e);
    let ghost kd = weight_dims(s.lambdas);
    proof {
        bond_has_a_place(*net, u as int, e as int);
        bond_has_a_place(*net, v as int, e as int);
        lemma_site_around(*net, s, u as int, e as int, chi as nat);
        lemma_site_around(*net, s, v as int, e as int, chi as nat);
        let (a, b) = (rows_at(s.tensors[u as int], bu as int), rows_at(s.tensors[v as int], bv as int));
        let (p, q) = (side(*net, chi as nat, u as int), side(*net, chi as nat, v as int));
        assert(p * q < usize::MAX);
        assert(a * b <= p * q) by (nonlinear_arith)
            requires
                0 <= a <= p,
                0 <= b <= q,
        ;
        assert(kd[e as int] == s.lambdas[e as int].len());
    }
    let mut tu: SiteTensor<R> = SiteTensor::plus(0);
    let mut tv: SiteTensor<R> = SiteTensor::plus(0);
    let mut lam: Vec<R> = Vec::new();
    std::mem::swap(&mut tu, &mut tensors[u]);
    std::mem::swap(&mut tv, &mut tensors[v]);
    std::mem::swap(&mut lam, &mut lambdas[e]);
    assert(tu@ == s.tensors[u as int]);
    assert(tv@ == s.tensors[v as int]);
    assert(lam@ == s.lambdas[e as int]);
    apply_zz(eps, floor, &mut tu, &mut tv, bu, bv, t, &mut lam, &env_u, &env_v, chi);
    let ghost (ru, rv, rl) = (tu@, tv@, lam@);
    tensors.set(u, tu);
    tensors.set(v, tv);
    lambdas.set(e, lam);
    proof {
        assert(tensors_view(tensors@) =~= s.tensors.update(u as int, ru).update(v as int, rv));
        assert(weights_view(lambdas@) =~= s.lambdas.update(e as int, rl));
        lemma_sites_after_bond(*net, s, e as int, ru, rv, rl, chi as nat);
    }
}

/// What a site of a bond has around it.
proof fn lemma_site_around<R>(g: NetGraph, s: Sites<R>, node: int, e: int, chi: nat)
    requires
        sites_ok(g, s, chi),
        0 <= e < g.bonds@.len(),
        0 <= node < g.adj@.len(),
        ends_at(g, e, node),
    ensures
        tensor_wf(s.tensors[node]),
        s.tensors[node].phys == 2,
        0 <= place_of(g, node, e) < s.tensors[node].dims.len(),
        s.tensors[node].dims[place_of(g, node, e)] == s.lambdas[e].len(),
        weights_fit(s.tensors[node], env_of(g, s.lambdas, node, e), place_of(g, node, e)),
        rows_at(s.tensors[node], place_of(g, node, e)) <= side(g, chi, node),
{
    let t = s.tensors[node];
    let kd = weight_dims(s.lambdas);
    let row = g.adj@[node]@;
    let m = g.bonds@.len() as int;
    bond_has_a_place(g, node, e);
    assert(tensor_wf(t) && t.dims.len() == row.len());
    assert forall|b: int| 0 <= b < t.dims.len() implies #[trigger] t.dims[b] == s.lambdas[row[b].0 as int].len()
        && t.dims[b] <= chi by {
        assert(row == bonds_at(g.bonds@, node, m));
        lemma_row(g.bonds@, node, m, b);
        assert(s.tensors[node].dims[b] == kd[row[b].0 as int]);
        assert(s.lambdas[row[b].0 as int].len() <= chi);
    }
    assert(t.dims[place_of(g, node, e)] == s.lambdas[e].len());
    let env = env_of(g, s.lambdas, node, e);
    assert forall|b: int| 0 <= b < env.len() && b != place_of(g, node, e) implies (
    #[trigger] env[b]).len() == 0 || env[b].len() == t.dims[b] by {
        assert(t.dims[b] == s.lambdas[row[b].0 as int].len());
    }
    lemma_rows_bound(t, place_of(g, node, e), chi);
}

/// Run a transverse layer; rescale afterwards where `last` holds.
fn mix_sites<R: Scalar>(tensors: &mut Vec<SiteTensor<R>>, tau: R, last: bool)
    requires
        free_sites(tensors_view(old(tensors)@)),
    ensures
        tensors_view(final(tensors)@) == if last {
            rescaled_sites(mixed_sites(tensors_view(old(tensors)@), tau))
        } else {
            mixed_sites(tensors_view(old(tensors)@), tau)
        },
        free_sites(tensors_view(final(tensors)@)),
{
    let ghost start = tensors_view(tensors@);
    let ghost goal = if last {
        rescaled_sites(mixed_sites(start, tau))
    } else {
        mixed_sites(start, tau)
    };
    let mut v: usize = 0;
    while v < tensors.len()
        invariant
            free_sites(start),
            goal == if last {
                rescaled_sites(mixed_sites(start, tau))
            } else {
                mixed_sites(start, tau)
            },
            tensors@.len() == start.len(),
            v <= tensors@.len(),
            forall|i: int|
                0 <= i < v ==> (#[trigger] tensors@[i])@ == goal[i] && tensor_wf(goal[i])
                    && goal[i].phys == 2,
            forall|i: int| v <= i < tensors@.len() ==> (#[trigger] tensors@[i])@ == start[i],
        decreases tensors@.len() - v,
    {
        assert(tensor_wf(start[v as int]) && start[v as int].phys == 2);
        assert(tensors@[v as int]@ == start[v as int]);
        tensors[v].apply_phys_matrix((one(), tau, tau, one()));
        if last {
            tensors[v].renormalize();
        }
        v = v + 1;
    }
    proof {
        assert(tensors_view(tensors@) =~= goal);
        assert forall|i: int| 0 <= i < goal.len() implies tensor_wf(#[trigger] goal[i])
            && goal[i].phys == 2 by {
            assert(tensors@[i]@ == goal[i]);
        }
    }
}

/// Run the fields of a step of imaginary time `eta`.
fn field_layer<R: Scalar, E: Fn(R) -> R>(
    tensors: &mut Vec<SiteTensor<R>>,
    h: &Vec<i32>,
    eta: R,
    exp: &E,
) -> (r: Ghost<Seq<(R, R)>>)
    requires
        free_sites(tensors_view(old(tensors)@)),
        old(tensors)@.len() == h@.len(),
        forall|x: R| #[trigger] call_requires(*exp, (x,)),
    ensures
        r@.len() == h@.len(),
        forall|i: int|
            0 <= i < h@.len() ==> are_gains(*exp, eta, h@[i] as int, #[trigger] r@[i]),
        tensors_view(final(tensors)@) == field_sites(tensors_view(old(tensors)@), r@),
        free_sites(tensors_view(final(tensors)@)),
{
    let ghost start = tensors_view(tensors@);
    let ghost mut gains: Seq<(R, R)> = Seq::empty();
    let mut v: usize = 0;
    while v < tensors.len()
        invariant
            forall|x: R| #[trigger] call_requires(*exp, (x,)),
            free_sites(start),
            tensors@.len() == start.len(),
            tensors@.len() == h@.len(),
            v <= tensors@.len(),
            gains.len() == v,
            forall|i: int|
                0 <= i < v ==> are_gains(*exp, eta, h@[i] as int, #[trigger] gains[i]),
            forall|i: int|
                0 <= i < v ==> (#[trigger] tensors@[i])@ == phys_scaled(start[i], gains[i])
                    && tensor_wf(tensors@[i]@),
            forall|i: int| v <= i < tensors@.len() ==> (#[trigger] tensors@[i])@ == start[i],
        decreases tensors@.len() - v,
    {
        assert(tensor_wf(start[v as int]) && start[v as int].phys == 2);
        assert(tensors@[v as int]@ == start[v as int]);
        let g: (R, R) = gain_factors(exp, eta, h[v]);
        tensors[v].scale_phys(g);
        proof {
            gains = gains.push(g);
        }
        v = v + 1;
    }
    proof {
        assert(tensors_view(tensors@) =~= field_sites(start, gains));
        assert forall|i: int| 0 <= i < start.len() implies tensor_wf(
            #[trigger] tensors_view(tensors@)[i],
        ) && tensors_view(tensors@)[i].phys == 2 by {
            assert(start[i].phys == 2);
            assert(tensor_wf(tensors@[i]@));
        }
    }
    Ghost(gains)
}

proof fn lemma_bonds_prefix<R: Scalar>(
    eps: R,
    floor: R,
    g: NetGraph,
    s: Sites<R>,
    a: Seq<R>,
    b: Seq<R>,
    chi: nat,
    e: int,
)
    requires
        0 <= e <= a.len(),
        e <= b.len(),
        forall|t: int| 0 <= t < e ==> a[t] == b[t],
    ensures
        bonds_done(eps, floor, g, s, a, chi, e) == bonds_done(eps, floor, g, s, b, chi, e),
    decreases e,
{
    if e > 0 {
        lemma_bonds_prefix(eps, floor, g, s, a, b, chi, e - 1);
    }
}

/// Run the couplings of a step of imaginary time `eta`, bond by bond.
fn coupling_layer<R: Scalar, T: Fn(R) -> R>(
    net: &NetGraph,
    tensors: &mut Vec<SiteTensor<R>>,
    lambdas: &mut Vec<Vec<R>>,
    eta: R,
    eps: R,
    floor: R,
    chi: usize,
    tanh: &T,
) -> (r: Ghost<Seq<R>>)
    requires
        chi >= 1,
        joinable(*net, chi as nat),
        sites_ok(
            *net,
            Sites { tensors: tensors_view(old(tensors)@), lambdas: weights_view(old(lambdas)@) },
            chi as nat,
        ),
        forall|x: R| #[trigger] call_requires(*tanh, (x,)),
    ensures
        r@.len() == net.bonds@.len(),
        forall|i: int|
            0 <= i < net.bonds@.len() ==> is_angle(
                *tanh,
                eta,
                net.bonds@[i].2 as int,
                #[trigger] r@[i],
            ),
        (Sites { tensors: tensors_view(final(tensors)@), lambdas: weights_view(final(lambdas)@) })
            == bonds_done(
            eps,
            floor,
            *net,
            Sites { tensors: tensors_view(old(tensors)@), lambdas: weights_view(old(lambdas)@) },
            r@,
            chi as nat,
            net.bonds@.len() as int,
        ),
        sites_ok(
            *net,
            Sites { tensors: tensors_view(final(tensors)@), lambdas: weights_view(final(lambdas)@) },
            chi as nat,
        ),
{
    let ghost start = Sites { tensors: tensors_view(tensors@), lambdas: weights_view(lambdas@) };
    let ghost mut angles: Seq<R> = Seq::empty();
    let mut e: usize = 0;
    while e < net.bonds.len()
        invariant
            chi >= 1,
            joinable(*net, chi as nat),
            forall|x: R| #[trigger] call_requires(*tanh, (x,)),
            sites_ok(
                *net,
                Sites { tensors: tensors_view(tensors@), lambdas: weights_view(lambdas@) },
                chi as nat,
            ),
            e <= net.bonds@.len(),
            angles.len() == e,
            forall|i: int|
                0 <= i < e ==> is_angle(
                    *tanh,
                    eta,
                    net.bonds@[i].2 as int,
                    #[trigger] angles[i],
                ),
            (Sites { tensors: tensors_view(tensors@), lambdas: weights_view(lambdas@) })
                == bonds_done(eps, floor, *net, start, angles, chi as nat, e as int),
        decreases net.bonds@.len() - e,
    {
        let t: R = angle_factor(tanh, eta, net.bonds[e].2);
        apply_bond(net, tensors, lambdas, e, eps, floor, t, chi);
        proof {
            let before = angles;
            angles = angles.push(t);
            lemma_bonds_prefix(eps, floor, *net, start, before, angles, chi as nat, e as int);
        }
        e = e + 1;
    }
    Ghost(angles)
}

/// `f` holds the factors of a step of imaginary time `eta` in a transverse field
/// of `gamma`.
pub open spec fn net_factors_of<
    R: Scalar,
    T: Fn(R) -> R,
    E: Fn(R) -> R,
>(
    tanh: T,
    exp: E,
    g: NetGraph,
    eta: R,
    gamma: R,
    f: Option<NetFactors<R>>,
) -> bool {
    match f {
        None => is_tau(tanh, eta, gamma, None),
        Some(x) => {
            &&& is_tau(tanh, eta, gamma, Some(x.tau))
            &&& x.gains.len() == g.h@.len()
            &&& forall|i: int|
                0 <= i < g.h@.len() ==> are_gains(exp, eta, g.h@[i] as int, #[trigger] x.gains[i])
            &&& x.angles.len() == g.bonds@.len()
            &&& forall|i: int|
                0 <= i < g.bonds@.len() ==> is_angle(
                    tanh,
                    eta,
                    g.bonds@[i].2 as int,
                    #[trigger] x.angles[i],
                )
        },
    }
}

/// `fs` holds the factors of the steps that ran: all of them, or those before
/// the time was up. A step runs where the time was asked for and not up. A
/// budget of 0 is no limit.
pub open spec fn net_schedule_of<
    R: Scalar,
    T: Fn(R) -> R,
    E: Fn(R) -> R,
    L: Fn(usize) -> bool,
>(
    tanh: T,
    exp: E,
    late: L,
    budget: nat,
    g: NetGraph,
    eta: Seq<R>,
    gamma: Seq<R>,
    fs: Seq<Option<NetFactors<R>>>,
) -> bool {
    &&& fs.len() <= eta.len()
    &&& fs.len() < eta.len() ==> budget > 0 && call_ensures(late, (fs.len() as usize,), true)
    &&& forall|k: int|
        0 <= k < fs.len() && budget > 0 ==> #[trigger] call_ensures(late, (k as usize,), false)
    &&& forall|k: int|
        0 <= k < fs.len() ==> net_factors_of(tanh, exp, g, eta[k], gamma[k], #[trigger] fs[k])
}

/// `s` is the final state of an anneal on the network.
pub open spec fn net_annealed<
    R: Scalar,
    T: Fn(R) -> R,
    E: Fn(R) -> R,
    L: Fn(usize) -> bool,
>(
    tanh: T,
    exp: E,
    late: L,
    budget: nat,
    g: NetGraph,
    eta: Seq<R>,
    gamma: Seq<R>,
    eps: R,
    floor: R,
    chi: nat,
    s: Sites<R>,
) -> bool {
    exists|fs: Seq<Option<NetFactors<R>>>| #[trigger]
        net_schedule_of(tanh, exp, late, budget, g, eta, gamma, fs) && s == net_steps(
            eps,
            floor,
            g,
            plus_sites::<R>(g),
            chi,
            fs,
            fs.len() as int,
        )
}

proof fn lemma_net_steps_prefix<R: Scalar>(
    eps: R,
    floor: R,
    g: NetGraph,
    s: Sites<R>,
    chi: nat,
    a: Seq<Option<NetFactors<R>>>,
    b: Seq<Option<NetFactors<R>>>,
    k: int,
)
    requires
        0 <= k <= a.len(),
        k <= b.len(),
        forall|t: int| 0 <= t < k ==> a[t] == b[t],
    ensures
        net_steps(eps, floor, g, s, chi, a, k) == net_steps(eps, floor, g, s, chi, b, k),
    decreases k,
{
    if k > 0 {
        lemma_net_steps_prefix(eps, floor, g, s, chi, a, b, k - 1);
    }
}

/// The uniform superposition on the graph.
fn start_sites<R: Scalar>(net: &NetGraph, chi: usize) -> (r: (Vec<SiteTensor<R>>, Vec<Vec<R>>))
    requires
        chi >= 1,
        graph_ok(*net),
        2 * net.bonds@.len() <= usize::MAX,
    ensures
        (Sites { tensors: tensors_view(r.0@), lambdas: weights_view(r.1@) }) == plus_sites::<R>(
            *net,
        ),
        sites_ok(
            *net,
            Sites { tensors: tensors_view(r.0@), lambdas: weights_view(r.1@) },
            chi as nat,
        ),
{
    let ghost goal = plus_sites::<R>(*net);
    let mut tensors: Vec<SiteTensor<R>> = Vec::with_capacity(net.adj.len());
    let mut v: usize = 0;
    while v < net.adj.len()
        invariant
            goal == plus_sites::<R>(*net),
            v <= net.adj@.len(),
            tensors@.len() == v,
            forall|i: int|
                0 <= i < v ==> (#[trigger] tensors@[i])@ == goal.tensors[i] && tensor_wf(
                    goal.tensors[i],
                ),
        decreases net.adj@.len() - v,
    {
        tensors.push(SiteTensor::plus(net.adj[v].len()));
        v = v + 1;
    }
    let mut lambdas: Vec<Vec<R>> = Vec::with_capacity(net.bonds.len());
    let mut e: usize = 0;
    while e < net.bonds.len()
        invariant
            goal == plus_sites::<R>(*net),
            e <= net.bonds@.len(),
            lambdas@.len() == e,
            forall|i: int| 0 <= i < e ==> (#[trigger] lambdas@[i])@ == goal.lambdas[i],
        decreases net.bonds@.len() - e,
    {
        let mut w: Vec<R> = Vec::with_capacity(1);
        w.push(one());
        assert(w@ =~= goal.lambdas[e as int]);
        lambdas.push(w);
        e = e + 1;
    }
    proof {
        assert(tensors_view(tensors@) =~= goal.tensors);
        assert(weights_view(lambdas@) =~= goal.lambdas);
        let kd = weight_dims(goal.lambdas);
        assert forall|e: int| 0 <= e < goal.lambdas.len() implies (
        #[trigger] goal.lambdas[e]).len() <= chi && goal.lambdas[e].len() * goal.lambdas[e].len()
            <= usize::MAX by {
            assert(goal.lambdas[e].len() == 1);
        }
        assert forall|v: int| 0 <= v < goal.tensors.len() implies tensor_wf(
            #[trigger] goal.tensors[v],
        ) && goal.tensors[v].dims.len() == net.adj@[v]@.len() && goal.tensors[v].phys == 2 by {
            assert(tensors@[v]@ == goal.tensors[v]);
        }
        assert forall|v: int, b: int|
            0 <= v < goal.tensors.len() && 0 <= b
                < goal.tensors[v].dims.len() implies #[trigger] goal.tensors[v].dims[b]
            == kd[net.adj@[v]@[b].0 as int] by {
            assert(net.adj@[v]@ == bonds_at(net.bonds@, v, net.bonds@.len() as int));
            lemma_row(net.bonds@, v, net.bonds@.len() as int, b);
        }
    }
    (tensors, lambdas)
}

/// Anneal the uniform superposition down to a zero transverse field. Gives the
/// site tensors and the weights of each bond.
pub fn anneal<
    R: Scalar,
    T: Fn(R) -> R,
    E: Fn(R) -> R,
    L: Fn(usize) -> bool,
>(
    net: &NetGraph,
    schedule: &Schedule<R>,
    budget: u64,
    eps: R,
    floor: R,
    chi: usize,
    tanh: &T,
    exp: &E,
    late: &L,
) -> (r: (Vec<SiteTensor<R>>, Vec<Vec<R>>))
    requires
        graph_ok(*net),
        2 * net.bonds@.len() <= usize::MAX,
        chi >= 1,
        joinable(*net, chi as nat),
        schedule.gamma@.len() == schedule.eta@.len(),
        forall|x: R| #[trigger] call_requires(*tanh, (x,)),
        forall|x: R| #[trigger] call_requires(*exp, (x,)),
        forall|a: usize| #[trigger] call_requires(*late, (a,)),
    ensures
        sites_ok(
            *net,
            Sites { tensors: tensors_view(r.0@), lambdas: weights_view(r.1@) },
            chi as nat,
        ),
        net_annealed(
            *tanh,
            *exp,
            *late,
            budget as nat,
            *net,
            schedule.eta@,
            schedule.gamma@,
            eps,
            floor,
            chi as nat,
            Sites { tensors: tensors_view(r.0@), lambdas: weights_view(r.1@) },
        ),
{
    let steps: usize = schedule.eta.len();
    let (mut tensors, mut lambdas) = start_sites::<R>(net, chi);
    let ghost start = plus_sites::<R>(*net);
    let ghost mut fs: Seq<Option<NetFactors<R>>> = Seq::empty();
    let mut k: usize = 0;
    let mut stop: bool = false;
    while k < steps && !stop
        invariant
            graph_ok(*net),
            chi >= 1,
            joinable(*net, chi as nat),
            steps == schedule.eta@.len(),
            schedule.gamma@.len() == schedule.eta@.len(),
            forall|x: R| #[trigger] call_requires(*tanh, (x,)),
            forall|x: R| #[trigger] call_requires(*exp, (x,)),
            forall|a: usize| #[trigger] call_requires(*late, (a,)),
            sites_ok(
                *net,
                Sites { tensors: tensors_view(tensors@), lambdas: weights_view(lambdas@) },
                chi as nat,
            ),
            k <= steps,
            fs.len() == k,
            stop ==> budget > 0 && call_ensures(*late, (k,), true),
            forall|i: int|
                0 <= i < k && budget > 0 ==> #[trigger] call_ensures(
                    *late,
                    (i as usize,),
                    false,
                ),
            forall|i: int|
                0 <= i < fs.len() ==> net_factors_of(
                    *tanh,
                    *exp,
                    *net,
                    schedule.eta@[i],
                    schedule.gamma@[i],
                    #[trigger] fs[i],
                ),
            (Sites { tensors: tensors_view(tensors@), lambdas: weights_view(lambdas@) })
                == net_steps(eps, floor, *net, start, chi as nat, fs, k as int),
        decreases steps - k, !stop as int,
    {
        if budget > 0 && late(k) {
            stop = true;
        } else {
            let ghost held = fs;
            let eta: R = schedule.eta[k];
            match tau_factor(tanh, eta, schedule.gamma[k]) {
                None => {
                    proof {
                        fs = fs.push(None);
                    }
                },
                Some(t) => {
                    let ghost s = Sites {
                        tensors: tensors_view(tensors@),
                        lambdas: weights_view(lambdas@),
                    };
                    let ghost kd = weight_dims(s.lambdas);
                    mix_sites(&mut tensors, t, false);
                    assert(tensors_view(tensors@).len() == s.tensors.len());
                    let Ghost(gains) = field_layer(&mut tensors, &net.h, eta, exp);
                    proof {
                        lemma_same_shape(*net, s.tensors, tensors_view(tensors@), kd);
                    }
                    let Ghost(angles) = coupling_layer(
                        net,
                        &mut tensors,
                        &mut lambdas,
                        eta,
                        eps,
                        floor,
                        chi,
                        tanh,
                    );
                    let ghost mid = tensors_view(tensors@);
                    let ghost kd2 = weight_dims(weights_view(lambdas@));
                    mix_sites(&mut tensors, t, true);
                    proof {
                        lemma_same_shape(*net, mid, tensors_view(tensors@), kd2);
                        fs = fs.push(Some(NetFactors { tau: t, gains, angles }));
                    }
                },
            }
            proof {
                lemma_net_steps_prefix(
                    eps,
                    floor,
                    *net,
                    start,
                    chi as nat,
                    held,
                    fs,
                    k as int,
                );
                assert forall|i: int| 0 <= i < fs.len() implies net_factors_of(
                    *tanh,
                    *exp,
                    *net,
                    schedule.eta@[i],
                    schedule.gamma@[i],
                    #[trigger] fs[i],
                ) by {
                    if i < k {
                        assert(fs[i] == held[i]);
                    }
                }
            }
            k = k + 1;
        }
    }
    assert(net_schedule_of(
        *tanh,
        *exp,
        *late,
        budget as nat,
        *net,
        schedule.eta@,
        schedule.gamma@,
        fs,
    ));
    (tensors, lambdas)
}

proof fn lemma_joinable(g: NetGraph, steps: nat, chi_max: nat, budget: nat, chi: nat)
    requires
        graph_ok(g),
        g.bonds@.len() <= usize::MAX,
        budget <= usize::MAX,
        net_selected(g, steps, chi_max, budget, chi),
    ensures
        joinable(g, chi),
{
    assert forall|e: int| 0 <= e < g.bonds@.len() implies side(
        g,
        chi,
        (#[trigger] g.bonds@[e]).0 as int,
    ) * side(g, chi, g.bonds@[e].1 as int) < usize::MAX by {
        let (u, v) = (g.bonds@[e].0 as int, g.bonds@[e].1 as int);
        let (m, n) = (side(g, chi, u), side(g, chi, v));
        if chi == 1 {
            lemma_power_one((degree(g, u) - 1) as nat);
            lemma_power_one((degree(g, v) - 1) as nat);
            assert(m * n == 4) by (nonlinear_arith)
                requires
                    m == 2,
                    n == 2,
            ;
        } else {
            assert(g.bonds@[e].0 < g.bonds@[e].1 < g.h@.len());
            lemma_power_positive(chi, (degree(g, u) - 1) as nat);
            lemma_power_positive(chi, (degree(g, v) - 1) as nat);
            lemma_flops_grow(g, chi, e + 1, g.bonds@.len() as int);
            let all = flops_at(g, chi, g.bonds@.len() as int);
            let held = at_least_one(steps);
            assert(all <= held * all) by (nonlinear_arith)
                requires
                    held >= 1,
                    all >= 0,
            ;
            let low = lesser(m, n);
            assert(flops_of(g, chi, e) == 50 * m * n * low);
            assert(m * n < 50 * m * n * low) by (nonlinear_arith)
                requires
                    m >= 2,
                    n >= 2,
                    low >= 2,
            ;
            assert(flops_of(g, chi, e) <= all);
            assert(m * n < usize::MAX);
        }
        assert(m * n < usize::MAX);
    }
}

/// A job has one bond dimension, whatever machine it runs on.
pub proof fn network_bond_dimension_is_determined(
    g: NetGraph,
    steps: nat,
    chi_max: nat,
    budget: nat,
    a: nat,
    b: nat,
)
    requires
        net_selected(g, steps, chi_max, budget, a),
        net_selected(g, steps, chi_max, budget, b),
    ensures
        a == b,
{
    if g.adj@.len() > 0 && g.bonds@.len() > 0 {
        if a < b {
            assert(!net_affordable(g, steps, budget, b));
        } else if b < a {
            assert(!net_affordable(g, steps, budget, a));
        }
    }
}

/// A larger budget never lowers the bond dimension.
pub proof fn network_bond_dimension_grows_with_the_budget(
    g: NetGraph,
    steps: nat,
    chi_max: nat,
    small: nat,
    large: nat,
    a: nat,
    b: nat,
)
    requires
        net_selected(g, steps, chi_max, small, a),
        net_selected(g, steps, chi_max, large, b),
        small <= large,
    ensures
        a <= b,
{
    if g.adj@.len() > 0 && g.bonds@.len() > 0 && b < a {
        assert(net_affordable(g, steps, large, a));
    }
}

/// `spins` is read `i`: a polished draw from network `n` by the generator with the
/// seed of that read.
pub open spec fn polished_draw<R: Scalar, B: Fn(u64, R) -> bool>(
    below: B,
    net: NetGraph,
    n: Net<R>,
    g: IsingGraph,
    seed: u64,
    polish: nat,
    i: int,
    spins: Seq<i8>,
) -> bool {
    exists|log: Seq<Draw>, s: Seq<i8>| #[trigger]
        net_draw(below, net, n, log, s) && crate::rng::drawn_from(
            read_seed_of(seed, i as u64),
            log,
        ) && valid_spins(s) && s.len() == g.h@.len() && spins == descent(lattice(g), s, polish)
}

/// The results follow from network `n`: each is scored and is a polished draw.
pub open spec fn net_from<R: Scalar, B: Fn(u64, R) -> bool>(
    below: B,
    g: IsingGraph,
    seed: u64,
    polish: nat,
    net: NetGraph,
    n: Net<R>,
    results: Seq<SamplerResult>,
) -> bool {
    forall|i: int|
        0 <= i < results.len() ==> scored(g, #[trigger] results[i]) && polished_draw(
            below,
            net,
            n,
            g,
            seed,
            polish,
            i,
            results[i].spins@,
        )
}

/// The network to draw from: prepared from the annealed sites, with its messages
/// propagated.
pub open spec fn drawn_from<R: Scalar>(net: NetGraph, s: Sites<R>) -> Net<R> {
    propagated(net, prepared(net, s.tensors, s.lambdas), BP_MAX_SWEEPS as nat)
}

/// `chi` is the bond dimension of the job.
pub open spec fn net_chi(net: NetGraph, cfg: BptnsConfig, steps: nat, chi: nat) -> bool {
    net_selected(net, steps, cfg.chi_max as nat, cfg.flop_budget as nat, chi)
}

/// The results of a job on the problem graph.
pub open spec fn net_results<
    R: Scalar,
    T: Fn(R) -> R,
    E: Fn(R) -> R,
    L: Fn(usize) -> bool,
    B: Fn(u64, R) -> bool,
>(
    tanh: T,
    exp: E,
    late: L,
    below: B,
    eps: R,
    floor: R,
    cfg: BptnsConfig,
    g: IsingGraph,
    seed: u64,
    ladder: Seq<R>,
    num_sweeps: nat,
    per: nat,
    results: Seq<SamplerResult>,
) -> bool {
    let steps = trotter_steps(num_sweeps as int) as nat;
    let polish = polish_sweeps(num_sweeps as int) as nat;
    exists|net: NetGraph, s: Sites<R>, chi: nat|
        #![trigger net_chi(net, cfg, steps, chi), drawn_from(net, s)]
        {
            &&& net_of(g, net)
            &&& net_chi(net, cfg, steps, chi)
            &&& net_annealed(
                tanh,
                exp,
                late,
                cfg.time_budget_ms as nat,
                net,
                eta_seq(ladder, steps, per),
                gamma_seq(ramp_top::<R>(g), steps),
                eps,
                floor,
                chi,
                s,
            )
            &&& net_from(below, g, seed, polish, net, drawn_from(net, s), results)
        }
}

/// Sample `num_reads` configurations with the tensor network. Every job that
/// fits returns as many results as it has reads: a graph whose degree makes any
/// bond dimension above 1 unaffordable degrades to mean field.
pub fn sample_ising_bptns<
    R: Scalar,
    T: Fn(R) -> R,
    E: Fn(R) -> R,
    L: Fn(usize) -> bool,
    B: Fn(u64, R) -> bool,
>(
    graph: &IsingGraph,
    params: &SampleParams,
    cfg: &BptnsConfig,
    eps: R,
    floor: R,
    ladder: &Vec<R>,
    tanh: &T,
    exp: &E,
    late: &L,
    below: &B,
) -> (results: Vec<SamplerResult>)
    requires
        graph.fits(),
        cfg.flop_budget <= usize::MAX,
        forall|x: R| #[trigger] call_requires(*tanh, (x,)),
        forall|x: R| #[trigger] call_requires(*exp, (x,)),
        forall|a: usize| #[trigger] call_requires(*late, (a,)),
        forall|word: u64, x: R| #[trigger] call_requires(*below, (word, x)),
    ensures
        results@.len() == params.reads(),
        net_results(
            *tanh,
            *exp,
            *late,
            *below,
            eps,
            floor,
            *cfg,
            *graph,
            params.seed,
            ladder@,
            params.num_sweeps as nat,
            params.sweeps_per_beta as nat,
            results@,
        ),
{
    let num_reads: usize = or_one(params.num_reads);
    let n: usize = graph.h.len();
    let (steps, polish) = split_sweeps(params.num_sweeps);
    let net = NetGraph::from_graph(graph);
    let chi: usize = select_chi(&net, steps, cfg);
    proof {
        lemma_joinable(
            net,
            steps as nat,
            cfg.chi_max as nat,
            cfg.flop_budget as nat,
            chi as nat,
        );
    }
    let schedule = job_schedule(graph, ladder, steps, params.sweeps_per_beta);
    let (tensors, lambdas) = anneal(
        &net,
        &schedule,
        cfg.time_budget_ms,
        eps,
        floor,
        chi,
        tanh,
        exp,
        late,
    );
    let ghost s = Sites { tensors: tensors_view(tensors@), lambdas: weights_view(lambdas@) };
    proof {
        assert forall|e: int| 0 <= e < lambdas@.len() implies (
        #[trigger] lambdas@[e])@.len() * lambdas@[e]@.len() <= usize::MAX by {
            assert(s.lambdas[e] == lambdas@[e]@);
        }
    }
    let mut sampling = SamplingNet::build(&net, tensors, &lambdas);
    let ghost built = sampling@;
    sampling.run_bp(&net);
    let ghost ready = drawn_from(net, s);
    proof {
        propagation_keeps_the_tensors(net, built, BP_MAX_SWEEPS as nat);
        lemma_prepared_free(net, s);
    }
    let cpu = CpuGraph::from_base(graph);
    let mut results: Vec<SamplerResult> = Vec::new();
    let mut read: usize = 0;
    while read < num_reads
        invariant
            forall|word: u64, x: R| #[trigger] call_requires(*below, (word, x)),
            n == graph.h@.len(),
            cpu.wf(),
            cpu@ == lattice(*graph),
            sampling@ == ready,
            net_ok(net, ready),
            ready.tensors.len() == n,
            forall|v: int| 0 <= v < n ==> (#[trigger] ready.tensors[v]).phys == 2,
            read <= num_reads,
            results@.len() == read,
            net_from(*below, *graph, params.seed, polish as nat, net, ready, results@),
        decreases num_reads - read,
    {
        let mut src = Source::of_read(params.seed, read);
        let mut spins: Vec<i8> = sampling.duplicate().draw_nodes(&net, below, &mut src);
        let ghost start = spins@;
        proof {
            src.lemma_record(read_seed_of(params.seed, read as u64));
            assert(net_draw(*below, net, ready, src.log(), start));
        }
        polish_from(&mut spins, &cpu, polish);
        let ghost before = results@;
        results.push(score_spins(spins, graph));
        proof {
            assert(polished_draw(
                *below,
                net,
                ready,
                *graph,
                params.seed,
                polish as nat,
                read as int,
                results@[read as int].spins@,
            ));
            assert forall|i: int| 0 <= i < results@.len() implies scored(
                *graph,
                #[trigger] results@[i],
            ) && polished_draw(
                *below,
                net,
                ready,
                *graph,
                params.seed,
                polish as nat,
                i,
                results@[i].spins@,
            ) by {
                if i < read {
                    assert(results@[i] == before[i]);
                }
            }
        }
        read = read + 1;
    }
    proof {
        assert(steps as nat == trotter_steps(params.num_sweeps as int) as nat);
        assert(polish as nat == polish_sweeps(params.num_sweeps as int) as nat);
        assert(net_chi(net, *cfg, trotter_steps(params.num_sweeps as int) as nat, chi as nat));
    }
    results
}

proof fn lemma_prepared_free<R: Scalar>(g: NetGraph, s: Sites<R>)
    requires
        free_sites(s.tensors),
        graph_ok(g),
        s.lambdas.len() == g.bonds@.len(),
        s.tensors.len() == g.adj@.len(),
    ensures
        prepared(g, s.tensors, s.lambdas).tensors.len() == s.tensors.len(),
        forall|v: int|
            0 <= v < s.tensors.len() ==> (#[trigger] prepared(
                g,
                s.tensors,
                s.lambdas,
            ).tensors[v]).phys == 2,
{
    lemma_rooted_free(g, s, s.lambdas.len() as int);
}

proof fn lemma_rooted_free<R: Scalar>(g: NetGraph, s: Sites<R>, e: int)
    requires
        free_sites(s.tensors),
        graph_ok(g),
        s.tensors.len() == g.adj@.len(),
        e <= g.bonds@.len(),
    ensures
        rooted_upto(g, s.tensors, s.lambdas, e).len() == s.tensors.len(),
        forall|v: int|
            0 <= v < s.tensors.len() ==> (#[trigger] rooted_upto(
                g,
                s.tensors,
                s.lambdas,
                e,
            )[v]).phys == 2,
    decreases e,
{
    if e > 0 {
        lemma_rooted_free(g, s, e - 1);
        assert(g.bonds@[e - 1].0 < g.bonds@[e - 1].1);
    } else {
        assert forall|v: int| 0 <= v < s.tensors.len() implies (#[trigger] rooted_upto(
            g,
            s.tensors,
            s.lambdas,
            e,
        )[v]).phys == 2 by {
            assert(tensor_wf(s.tensors[v]));
        }
    }
}

/// Every solution of a job on the problem graph is scored: its spins are valid
/// and its energy is the consensus energy of those spins.
pub proof fn every_network_result_is_scored<
    R: Scalar,
    T: Fn(R) -> R,
    E: Fn(R) -> R,
    L: Fn(usize) -> bool,
    B: Fn(u64, R) -> bool,
>(
    tanh: T,
    exp: E,
    late: L,
    below: B,
    eps: R,
    floor: R,
    cfg: BptnsConfig,
    g: IsingGraph,
    seed: u64,
    ladder: Seq<R>,
    num_sweeps: nat,
    per: nat,
    results: Seq<SamplerResult>,
    i: int,
)
    requires
        net_results(
            tanh,
            exp,
            late,
            below,
            eps,
            floor,
            cfg,
            g,
            seed,
            ladder,
            num_sweeps,
            per,
            results,
        ),
        0 <= i < results.len(),
    ensures
        scored(g, results[i]),
{
}

/// The reads of a job are independent: read `i` is drawn from the job's network by
/// the generator with the seed of read `i`, a word to a node, and then polished; no
/// other read of the job has that seed.
pub proof fn every_network_read_has_its_own_generator<
    R: Scalar,
    T: Fn(R) -> R,
    E: Fn(R) -> R,
    L: Fn(usize) -> bool,
    B: Fn(u64, R) -> bool,
>(
    tanh: T,
    exp: E,
    late: L,
    below: B,
    eps: R,
    floor: R,
    cfg: BptnsConfig,
    g: IsingGraph,
    seed: u64,
    ladder: Seq<R>,
    num_sweeps: nat,
    per: nat,
    results: Seq<SamplerResult>,
    i: int,
    j: int,
)
    requires
        results.len() <= u64::MAX,
        net_results(
            tanh,
            exp,
            late,
            below,
            eps,
            floor,
            cfg,
            g,
            seed,
            ladder,
            num_sweeps,
            per,
            results,
        ),
        0 <= i < results.len(),
        0 <= j < results.len(),
        i != j,
    ensures
        exists|net: NetGraph, n: Net<R>, log: Seq<Draw>, s: Seq<i8>| #[trigger]
            net_draw(below, net, n, log, s) && net_of(g, net) && crate::rng::drawn_from(
                read_seed_of(seed, i as u64),
                log,
            ) && results[i].spins@ == descent(
                lattice(g),
                s,
                polish_sweeps(num_sweeps as int) as nat,
            ),
        read_seed_of(seed, i as u64) != read_seed_of(seed, j as u64),
{
    reads_of_a_job_have_distinct_seeds(seed, i as u64, j as u64);
    assert(scored(g, results[i]));
}

} // verus!
