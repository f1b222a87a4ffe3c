//! What the anneal on the network does to the weights of a spin.
//!
//! The laws speak of exact arithmetic, in which the layers of a step can be told
//! apart.
use vstd::prelude::*;

use crate::flatiron::gate::{bond_sum, joined, undone};
use crate::flatiron::graph::NetGraph;
use crate::flatiron::sample::{
    block_sum, diagonal_sum, dressed, marginal_of, share_of, traced, Net,
};
use crate::flatiron::sampler::{
    bonds_done, degree, field_sites, mixed_sites, net_step, net_steps, plus_sites, NetFactors,
    Sites,
};
use crate::flatiron::state::{bonds_total, largest, rescaled, scrubbed, Tensor};
use crate::matrix::{entry, lemma_inside, lemma_place, lemma_table};
use crate::mps::schedule::are_gains;
use crate::reals::{
    lemma_group, lemma_product_above, lemma_quotient, lemma_scaled_order, lemma_spread, lemma_swap,
    lemma_trivial_factors,
};
use crate::scalar::{
    exact, exponential, lemma_exact_values, lemma_weight_value, nil, unit, weight_of, Scalar,
};

verus! {

/// The fields weigh the two values of a spin against each other: every entry for
/// spin up is multiplied by `exp(-eta h)` of its node, and every entry for spin
/// down by `exp(eta h)`.
pub proof fn fields_weigh_up_against_down<R: Scalar, E: Fn(R) -> R>(
    val: spec_fn(R) -> real,
    exp: E,
    e: spec_fn(real) -> real,
    tensors: Seq<Tensor<R>>,
    gains: Seq<(R, R)>,
    eta: R,
    h: Seq<i32>,
    v: int,
    x: int,
)
    requires
        exact(val),
        exponential(val, exp, e),
        0 <= v < tensors.len(),
        0 <= x < tensors[v].data.len(),
        are_gains(exp, eta, h[v] as int, gains[v]),
    ensures
        ({
            let a = val(eta) * (h[v] as int as real / 1000int as real);
            let after = field_sites(tensors, gains)[v];
            &&& after.dims == tensors[v].dims
            &&& x < bonds_total(tensors[v]) ==> val(after.data[x]) == val(tensors[v].data[x]) * e(-a)
            &&& x >= bonds_total(tensors[v]) ==> val(after.data[x]) == val(tensors[v].data[x]) * e(a)
        }),
{
    lemma_weight_value::<R>(val, h[v] as int);
    lemma_exact_values(val, eta.times(weight_of::<R>(h[v] as int)));
}

/// The transverse layer mixes the two values of a spin evenly: each takes up
/// `tau` of the other.
pub proof fn transverse_layer_mixes_evenly<R: Scalar>(
    val: spec_fn(R) -> real,
    tensors: Seq<Tensor<R>>,
    tau: R,
    v: int,
    x: int,
)
    requires
        exact(val),
        0 <= v < tensors.len(),
        0 <= x < bonds_total(tensors[v]),
        tensors[v].data.len() == 2 * bonds_total(tensors[v]),
    ensures
        ({
            let bt = bonds_total(tensors[v]) as int;
            let (up, down) = (val(tensors[v].data[x]), val(tensors[v].data[bt + x]));
            let after = mixed_sites(tensors, tau)[v];
            &&& val(after.data[x]) == up + val(tau) * down
            &&& val(after.data[bt + x]) == down + val(tau) * up
        }),
{
    lemma_exact_values(val, tau);
    let bt = bonds_total(tensors[v]) as int;
    let (up, down) = (val(tensors[v].data[x]), val(tensors[v].data[bt + x]));
    lemma_trivial_factors(up);
    lemma_trivial_factors(down);
}

/// The two weights of a site without bonds.
pub open spec fn lone_weights<R: Scalar>(val: spec_fn(R) -> real, t: Tensor<R>) -> (real, real) {
    (val(t.data[0]), val(t.data[1]))
}

/// The site has two weights, both above 0.
pub open spec fn lone<R: Scalar>(val: spec_fn(R) -> real, t: Tensor<R>) -> bool {
    &&& t.dims.len() == 0
    &&& t.data.len() == 2
    &&& lone_weights(val, t).0 > 0int as real
    &&& lone_weights(val, t).1 > 0int as real
}

/// A rescaling keeps the proportion of the two weights.
proof fn lemma_rescaling_keeps_the_proportion<R: Scalar>(val: spec_fn(R) -> real, t: Tensor<R>)
    requires
        exact(val),
        lone(val, t),
    ensures
        lone(val, rescaled(t)),
        lone_weights(val, rescaled(t)).0 * lone_weights(val, t).1 == lone_weights(
            val,
            rescaled(t),
        ).1 * lone_weights(val, t).0,
{
    lemma_exact_values(val, t.data[0]);
    lemma_exact_values(val, t.data[1]);
    let clean = scrubbed(t.data);
    assert(clean =~= t.data);
    assert(largest(clean, 0) == nil::<R>());
    let first = largest(clean, 1);
    let top = largest(clean, 2);
    let (a, b, m) = (val(t.data[0]), val(t.data[1]), val(top));
    assert(val(first) == a);
    assert(m == a || m == b);
    let (x, y) = (a / m, b / m);
    lemma_quotient(a, m);
    lemma_quotient(b, m);
    lemma_group(x, y, m);
    lemma_group(y, x, m);
    lemma_swap(x, y);
    lemma_scaled_order(0int as real, x, m);
    lemma_scaled_order(0int as real, y, m);
    lemma_trivial_factors(m);
}

proof fn lemma_taken_up(t: real, w: real)
    requires
        t >= 0int as real,
        w > 0int as real,
    ensures
        t * w >= 0int as real,
{
    if t > 0int as real {
        lemma_product_above(t, w);
    } else {
        lemma_trivial_factors(w);
    }
}

/// A lone site through one step: its weights before the last rescaling.
proof fn lemma_lone_step<R: Scalar, E: Fn(R) -> R>(
    val: spec_fn(R) -> real,
    exp: E,
    e: spec_fn(real) -> real,
    eps: R,
    floor: R,
    g: NetGraph,
    s: Sites<R>,
    chi: nat,
    f: NetFactors<R>,
    eta: R,
    v: int,
)
    requires
        exact(val),
        exponential(val, exp, e),
        g.bonds@.len() == 0,
        0 <= v < s.tensors.len(),
        lone(val, s.tensors[v]),
        are_gains(exp, eta, g.h@[v] as int, f.gains[v]),
        val(f.tau) >= 0int as real,
    ensures
        ({
            let a = val(eta) * (g.h@[v] as int as real / 1000int as real);
            let (u, d) = lone_weights(val, s.tensors[v]);
            let t = val(f.tau);
            let up = (u + t * d) * e(-a);
            let down = (d + t * u) * e(a);
            let after = net_step(eps, floor, g, s, chi, f).tensors[v];
            &&& lone(val, after)
            &&& lone_weights(val, after).0 * (down + t * up) == lone_weights(val, after).1 * (up + t
                * down)
        }),
{
    let a = val(eta) * (g.h@[v] as int as real / 1000int as real);
    let site = s.tensors[v];
    let (u, d) = lone_weights(val, site);
    let t = val(f.tau);
    assert(bonds_total(site) == 1);
    let mixed = mixed_sites(s.tensors, f.tau);
    transverse_layer_mixes_evenly(val, s.tensors, f.tau, v, 0);
    lemma_taken_up(t, d);
    lemma_taken_up(t, u);
    let fields = field_sites(mixed, f.gains);
    assert(bonds_total(mixed[v]) == 1);
    fields_weigh_up_against_down(val, exp, e, mixed, f.gains, eta, g.h@, v, 0);
    fields_weigh_up_against_down(val, exp, e, mixed, f.gains, eta, g.h@, v, 1);
    let (p, q) = (u + t * d, d + t * u);
    let (ea, eb) = (e(-a), e(a));
    lemma_product_above(p, ea);
    lemma_product_above(q, eb);
    let (up, down) = (p * ea, q * eb);
    let all = bonds_done(
        eps,
        floor,
        g,
        Sites { tensors: fields, lambdas: s.lambdas },
        f.angles,
        chi,
        0,
    );
    assert(all.tensors == fields);
    assert(bonds_total(fields[v]) == 1);
    transverse_layer_mixes_evenly(val, fields, f.tau, v, 0);
    lemma_taken_up(t, up);
    lemma_taken_up(t, down);
    let last = mixed_sites(fields, f.tau);
    assert(lone(val, last[v]));
    lemma_rescaling_keeps_the_proportion(val, last[v]);
}

/// The imaginary time that the first `k` steps spend; a held step spends none.
pub open spec fn time_spent<R: Scalar>(
    val: spec_fn(R) -> real,
    eta: Seq<R>,
    fs: Seq<Option<NetFactors<R>>>,
    k: int,
) -> real
    decreases k,
{
    if k <= 0 {
        0int as real
    } else if fs[k - 1] is Some {
        time_spent(val, eta, fs, k - 1) + val(eta[k - 1])
    } else {
        time_spent(val, eta, fs, k - 1)
    }
}

/// Without bonds and without a transverse field the weights of spin up and spin
/// down at a node stand as `exp(-beta h)` to `exp(beta h)`, where `beta` is the
/// imaginary time spent.
pub proof fn a_lone_site_is_weighed_by_its_field<R: Scalar, E: Fn(R) -> R>(
    val: spec_fn(R) -> real,
    exp: E,
    e: spec_fn(real) -> real,
    eps: R,
    floor: R,
    g: NetGraph,
    chi: nat,
    eta: Seq<R>,
    fs: Seq<Option<NetFactors<R>>>,
    v: int,
    k: int,
)
    requires
        exact(val),
        exponential(val, exp, e),
        g.bonds@.len() == 0,
        0 <= v < g.adj@.len(),
        degree(g, v) == 0,
        0 <= k <= fs.len(),
        forall|i: int|
            0 <= i < k ==> ((#[trigger] fs[i]) matches Some(f) ==> val(f.tau) == 0int as real
                && are_gains(exp, eta[i], g.h@[v] as int, f.gains[v])),
    ensures
        ({
            let b = time_spent(val, eta, fs, k) * (g.h@[v] as int as real / 1000int as real);
            let site = net_steps(eps, floor, g, plus_sites::<R>(g), chi, fs, k).tensors[v];
            &&& lone(val, site)
            &&& lone_weights(val, site).0 * e(b) == lone_weights(val, site).1 * e(-b)
            &&& net_steps(eps, floor, g, plus_sites::<R>(g), chi, fs, k).tensors.len()
                == g.adj@.len()
        }),
    decreases k,
{
    let h = g.h@[v] as int as real / 1000int as real;
    if k == 0 {
        lemma_plus_is_lone(val, g, v);
        lemma_trivial_factors(h);
    } else {
        a_lone_site_is_weighed_by_its_field(val, exp, e, eps, floor, g, chi, eta, fs, v, k - 1);
        let s = net_steps(eps, floor, g, plus_sites::<R>(g), chi, fs, k - 1);
        if let Some(f) = fs[k - 1] {
            assert(fs[k - 1] is Some);
            lemma_lone_step(val, exp, e, eps, floor, g, s, chi, f, eta[k - 1], v);
            let b = time_spent(val, eta, fs, k - 1) * h;
            let a = val(eta[k - 1]) * h;
            let c = time_spent(val, eta, fs, k) * h;
            lemma_spread(h, time_spent(val, eta, fs, k - 1), val(eta[k - 1]));
            assert(c == b + a);
            assert(e(c) == e(b) * e(a));
            assert(e(-c) == e(-b) * e(-a));
            let (u, d) = lone_weights(val, s.tensors[v]);
            let (p, q) = lone_weights(
                val,
                net_step(eps, floor, g, s, chi, f).tensors[v],
            );
            let (ea, en, eb, em) = (e(a), e(-a), e(b), e(-b));
            lemma_trivial_factors(d);
            lemma_trivial_factors(u);
            lemma_trivial_factors(u * en);
            lemma_trivial_factors(d * ea);
            assert(p * (d * ea) == q * (u * en));
            lemma_proportions(u, d, p, q, ea, en, eb, em);
        }
    }
}

proof fn lemma_proportions(
    u: real,
    d: real,
    p: real,
    q: real,
    ea: real,
    en: real,
    eb: real,
    em: real,
)
    requires
        u > 0int as real,
        d > 0int as real,
        u * eb == d * em,
        p * (d * ea) == q * (u * en),
    ensures
        p * (eb * ea) == q * (em * en),
{
    let w = u * d;
    lemma_product_above(u, d);
    lemma_regroup(p, eb, ea, u, d);
    lemma_regroup(q, em, en, d, u);
    lemma_swap(d, u);
    assert((p * (eb * ea)) * w == (p * (d * ea)) * (u * eb));
    assert((q * (em * en)) * (d * u) == (q * (u * en)) * (d * em));
    lemma_scaled_order(p * (eb * ea), q * (em * en), w);
}

/// `p b a u d` grouped in two ways.
proof fn lemma_regroup(p: real, b: real, a: real, u: real, d: real)
    ensures
        (p * (b * a)) * (u * d) == (p * (d * a)) * (u * b),
{
    lemma_group(p, b * a, u * d);
    lemma_group(p, d * a, u * b);
    lemma_swap(b, a);
    lemma_group(a, b, u * d);
    lemma_group(b, u, d);
    lemma_swap(b, u);
    lemma_swap(u * b, d);
    lemma_group(a, d, u * b);
    lemma_swap(a, d);
}

proof fn lemma_plus_is_lone<R: Scalar>(val: spec_fn(R) -> real, g: NetGraph, v: int)
    requires
        exact(val),
        0 <= v < g.adj@.len(),
        degree(g, v) == 0,
    ensures
        lone(val, plus_sites::<R>(g).tensors[v]),
        lone_weights(val, plus_sites::<R>(g).tensors[v]).0 == lone_weights(
            val,
            plus_sites::<R>(g).tensors[v],
        ).1,
{
    let half = R::of_milli(500);
    assert(val(half) == 500int as real / 1000int as real);
    let r = val(half.root());
    lemma_trivial_factors(r);
}

/// A field tilts a node without bonds against itself, whatever the transverse
/// field: after steps that ran, a field above 0 leaves spin down the heavier
/// value, and a field below 0 spin up.
pub proof fn a_field_tilts_a_lone_site<R: Scalar, E: Fn(R) -> R>(
    val: spec_fn(R) -> real,
    exp: E,
    e: spec_fn(real) -> real,
    eps: R,
    floor: R,
    g: NetGraph,
    chi: nat,
    eta: Seq<R>,
    fs: Seq<Option<NetFactors<R>>>,
    v: int,
    k: int,
)
    requires
        exact(val),
        exponential(val, exp, e),
        g.bonds@.len() == 0,
        0 <= v < g.adj@.len(),
        degree(g, v) == 0,
        0 <= k <= fs.len(),
        forall|i: int|
            0 <= i < k ==> ((#[trigger] fs[i]) matches Some(f) ==> (0int as real) <= val(f.tau)
                && val(f.tau) < 1int as real && val(eta[i]) > 0int as real && are_gains(
                exp,
                eta[i],
                g.h@[v] as int,
                f.gains[v],
            )),
    ensures
        ({
            let site = net_steps(eps, floor, g, plus_sites::<R>(g), chi, fs, k).tensors[v];
            let (up, down) = lone_weights(val, site);
            let ran = exists|i: int| 0 <= i < k && (#[trigger] fs[i]) is Some;
            &&& lone(val, site)
            &&& g.h@[v] > 0 && ran ==> down > up
            &&& g.h@[v] < 0 && ran ==> up > down
            &&& g.h@[v] == 0 || !ran ==> up == down
            &&& net_steps(eps, floor, g, plus_sites::<R>(g), chi, fs, k).tensors.len()
                == g.adj@.len()
        }),
    decreases k,
{
    let h = g.h@[v] as int as real / 1000int as real;
    if k == 0 {
        lemma_plus_is_lone(val, g, v);
    } else {
        a_field_tilts_a_lone_site(val, exp, e, eps, floor, g, chi, eta, fs, v, k - 1);
        let s = net_steps(eps, floor, g, plus_sites::<R>(g), chi, fs, k - 1);
        if let Some(f) = fs[k - 1] {
            assert(fs[k - 1] is Some);
            lemma_lone_step(val, exp, e, eps, floor, g, s, chi, f, eta[k - 1], v);
            let n = val(eta[k - 1]);
            let a = n * h;
            lemma_swap(n, h);
            lemma_trivial_factors(n);
            lemma_scaled_order(0int as real, h, n);
            lemma_scaled_order(h, 0int as real, n);
            let (u, d) = lone_weights(val, s.tensors[v]);
            let after = net_step(eps, floor, g, s, chi, f).tensors[v];
            let (p, q) = lone_weights(val, after);
            lemma_tilt(u, d, val(f.tau), e(-a), e(a), p, q);
            assert(a > 0int as real ==> e(-a) < e(a));
            assert(a < 0int as real ==> e(-a) > e(a));
            assert(a == 0int as real ==> -a == a);
        } else {
            assert forall|i: int| 0 <= i < k && (#[trigger] fs[i]) is Some implies i < k - 1 by {}
        }
    }
}

proof fn lemma_tilt(u: real, d: real, t: real, en: real, ea: real, p: real, q: real)
    requires
        u > 0int as real,
        d > 0int as real,
        (0int as real) <= t,
        t < 1int as real,
        en > 0int as real,
        ea > 0int as real,
        p > 0int as real,
        q > 0int as real,
        ({
            let up = (u + t * d) * en;
            let down = (d + t * u) * ea;
            p * (down + t * up) == q * (up + t * down)
        }),
    ensures
        d >= u && en < ea ==> q > p,
        u >= d && en > ea ==> p > q,
        d == u && en == ea ==> p == q,
{
    let (x, y) = (u + t * d, d + t * u);
    lemma_taken_up(t, u);
    lemma_taken_up(t, d);
    lemma_mixing_keeps_the_order(u, d, t);
    let (up, down) = (x * en, y * ea);
    lemma_product_above(x, en);
    lemma_product_above(y, ea);
    lemma_ordered_products(x, en, y, ea);
    lemma_ordered_products(y, ea, x, en);
    let (m, n) = (up + t * down, down + t * up);
    lemma_taken_up(t, up);
    lemma_taken_up(t, down);
    lemma_mixing_keeps_the_order(up, down, t);
    assert(p * n == q * m);
    lemma_swap(p, n);
    lemma_swap(q, m);
    if n > m {
        lemma_swap(n, q);
        lemma_swap(m, q);
        lemma_scaled_order(m, n, q);
        lemma_scaled_order(p, q, n);
    } else if m > n {
        lemma_swap(n, p);
        lemma_swap(m, p);
        lemma_scaled_order(n, m, p);
        lemma_scaled_order(q, p, m);
    } else {
        lemma_scaled_order(p, q, n);
    }
}

/// An even mixing keeps the order of two weights.
proof fn lemma_mixing_keeps_the_order(u: real, d: real, t: real)
    requires
        (0int as real) <= t,
        t < 1int as real,
    ensures
        u < d <==> u + t * d < d + t * u,
        u == d <==> u + t * d == d + t * u,
{
    let s = 1int as real - t;
    lemma_spread(u, 1int as real, t);
    lemma_spread(d, 1int as real, t);
    lemma_trivial_factors(u);
    lemma_trivial_factors(d);
    lemma_swap(t, u);
    lemma_swap(t, d);
    lemma_scaled_order(u, d, s);
    lemma_swap(u, s);
    lemma_swap(d, s);
}

/// Products of ordered factors are ordered.
proof fn lemma_ordered_products(a: real, b: real, c: real, d: real)
    requires
        a > 0int as real,
        b > 0int as real,
        c > 0int as real,
        d > 0int as real,
    ensures
        a <= c && b < d ==> a * b < c * d,
{
    lemma_scaled_order(a, c, b);
    lemma_swap(c, b);
    lemma_swap(c, d);
    lemma_scaled_order(b, d, c);
}

/// The coupling weighs a joined pair of sites: where their spins agree the pair
/// gains the factor `1 - t`, and where they do not the factor `1 + t`, over the
/// pair that is joined without a coupling.
pub proof fn a_coupling_weighs_a_joined_pair<R: Scalar>(
    val: spec_fn(R) -> real,
    mu: Seq<R>,
    mv: Seq<R>,
    lam: Seq<R>,
    k: nat,
    ru: nat,
    rv: nat,
    t: R,
    none: R,
    p: int,
    q: int,
    x: int,
    y: int,
)
    requires
        exact(val),
        0 <= p < 2,
        0 <= q < 2,
        0 <= x < ru,
        0 <= y < rv,
        val(none) == 0int as real,
    ensures
        ({
            let (rows_u, rows_v) = (2 * ru, 2 * rv);
            let (row, col) = (p * ru + x, q * rv + y);
            val(
                entry(
                    joined(mu, mv, lam, rows_u, rows_v, k, ru as int, rv as int, t),
                    rows_v as int,
                    row,
                    col,
                ),
            ) == val(
                entry(
                    joined(mu, mv, lam, rows_u, rows_v, k, ru as int, rv as int, none),
                    rows_v as int,
                    row,
                    col,
                ),
            ) * if p == q {
                1int as real - val(t)
            } else {
                1int as real + val(t)
            }
        }),
{
    let (rows_u, rows_v) = (2 * ru, 2 * rv);
    let (row, col) = (p * ru + x, q * rv + y);
    lemma_inside(2, ru as int, p, x);
    lemma_inside(2, rv as int, q, y);
    lemma_place(ru as int, p, x);
    lemma_place(rv as int, q, y);
    let sum = bond_sum(mu, mv, lam, k as int, row, col, k as int);
    let with = |row: int, col: int|
        bond_sum(mu, mv, lam, k as int, row, col, k as int).times(
            if row / ru as int == col / rv as int {
                unit::<R>().minus(t)
            } else {
                unit::<R>().plus(t)
            },
        );
    let without = |row: int, col: int|
        bond_sum(mu, mv, lam, k as int, row, col, k as int).times(
            if row / ru as int == col / rv as int {
                unit::<R>().minus(none)
            } else {
                unit::<R>().plus(none)
            },
        );
    lemma_table(rows_u, rows_v, with, row, col);
    lemma_table(rows_u, rows_v, without, row, col);
    lemma_exact_values(val, t);
    lemma_trivial_factors(val(sum));
    assert(entry(
        joined(mu, mv, lam, rows_u, rows_v, k, ru as int, rv as int, t),
        rows_v as int,
        row,
        col,
    ) == with(row, col));
    assert(entry(
        joined(mu, mv, lam, rows_u, rows_v, k, ru as int, rv as int, none),
        rows_v as int,
        row,
        col,
    ) == without(row, col));
}

/// A node without bonds is drawn by the squares of its two weights: the share of
/// spin up is the square of its weight over the sum of the two squares.
pub proof fn a_lone_node_is_drawn_by_its_squares<R: Scalar>(
    val: spec_fn(R) -> real,
    g: NetGraph,
    n: Net<R>,
    v: int,
)
    requires
        exact(val),
        0 <= v < n.tensors.len(),
        g.adj@[v]@.len() == 0,
        lone(val, n.tensors[v]),
    ensures
        ({
            let (u, d) = lone_weights(val, n.tensors[v]);
            val(share_of(marginal_of(g, n, v, 0), marginal_of(g, n, v, 1))) * (u * u + d * d) == u
                * u
        }),
{
    let t = n.tensors[v];
    let (u, d) = lone_weights(val, t);
    assert(bonds_total(t) == 1);
    assert(dressed(g, n, v, 0) == t);
    lemma_exact_values(val, t.data[0]);
    assert(block_sum(t.data, t.data, 0, 0) == nil::<R>());
    assert(block_sum(t.data, t.data, 1, 0) == nil::<R>());
    assert(block_sum(t.data, t.data, 0, 1) == nil::<R>().plus(t.data[0].times(t.data[0])));
    assert(block_sum(t.data, t.data, 1, 1) == nil::<R>().plus(t.data[1].times(t.data[1])));
    let (a, b) = (marginal_of(g, n, v, 0), marginal_of(g, n, v, 1));
    assert(val(a) == u * u);
    assert(val(b) == d * d);
    lemma_product_above(u, u);
    lemma_product_above(d, d);
    lemma_exact_values(val, a.plus(b));
    lemma_quotient(u * u, u * u + d * d);
}

/// A message has trace 1, wherever what it is made from has a trace above 0.
pub proof fn a_message_has_trace_one<R: Scalar>(val: spec_fn(R) -> real, m: Seq<R>, k: nat)
    requires
        exact(val),
        m.len() == k * k,
        val(diagonal_sum(m, k as int, k as int)) > 0int as real,
    ensures
        val(diagonal_sum(traced(m, k), k as int, k as int)) == 1int as real,
        forall|x: int, y: int|
            #![trigger entry(traced(m, k), k as int, x, y)]
            0 <= x < k && 0 <= y < k ==> val(entry(traced(m, k), k as int, x, y)) * val(
                diagonal_sum(m, k as int, k as int),
            ) == val(entry(m, k as int, x, y)),
{
    let trace = diagonal_sum(m, k as int, k as int);
    let t = val(trace);
    lemma_exact_values(val, trace);
    let all = traced(m, k);
    assert forall|x: int, y: int|
        #![trigger entry(all, k as int, x, y)]
        0 <= x < k && 0 <= y < k implies val(entry(all, k as int, x, y)) * t == val(
        entry(m, k as int, x, y),
    ) by {
        lemma_inside(k as int, k as int, x, y);
        lemma_quotient(val(entry(m, k as int, x, y)), t);
    }
    lemma_traced(val, m, all, k as int, t, k as int);
    lemma_trivial_factors(t);
    lemma_scaled_order(val(diagonal_sum(all, k as int, k as int)), 1int as real, t);
}

proof fn lemma_traced<R: Scalar>(
    val: spec_fn(R) -> real,
    m: Seq<R>,
    all: Seq<R>,
    k: int,
    t: real,
    c: int,
)
    requires
        exact(val),
        c <= k,
        forall|x: int, y: int|
            #![trigger entry(all, k, x, y)]
            0 <= x < k && 0 <= y < k ==> val(entry(all, k, x, y)) * t == val(entry(m, k, x, y)),
    ensures
        val(diagonal_sum(all, k, c)) * t == val(diagonal_sum(m, k, c)),
    decreases c,
{
    lemma_exact_values(val, nil::<R>());
    lemma_trivial_factors(t);
    if c > 0 {
        lemma_traced(val, m, all, k, t, c - 1);
        assert(val(entry(all, k, c - 1, c - 1)) * t == val(entry(m, k, c - 1, c - 1)));
        lemma_spread(
            t,
            val(diagonal_sum(all, k, c - 1)),
            val(entry(all, k, c - 1, c - 1)),
        );
    }
}

/// Bond weights that are undone are undone exactly, wherever they reach the floor.
pub proof fn undone_weights_cancel<R: Scalar>(
    val: spec_fn(R) -> real,
    w: Seq<R>,
    floor: R,
    i: int,
)
    requires
        exact(val),
        0 <= i < w.len(),
        val(floor) > 0int as real,
        val(w[i]) >= val(floor),
    ensures
        val(undone(w, floor)[i]) * val(w[i]) == 1int as real,
{
    lemma_exact_values(val, w[i]);
    lemma_quotient(1int as real, val(w[i]));
}

} // verus!
