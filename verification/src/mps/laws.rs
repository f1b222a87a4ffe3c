//! What the layers of a step do to the amplitudes of a chain.
//!
//! The laws speak of exact arithmetic, in which a layer can be told from its
//! rounding.
use vstd::prelude::*;

use crate::matrix::{entry, lemma_table};
use crate::mps::chain::Gate;
use crate::mps::sampler::{couplings_done, fields_done, step_done, StepFactors};
use crate::mps::schedule::{clamped, is_angle, is_gain, is_tau};
use crate::mps::state::{
    branch, branch_sum, canon_from, chain_wf, fielded, message_at, transversed, weights_at, Chain,
};
use crate::mps::tensor::{
    close_sum, closed_over, eigen, mixed, normalized, opened, pair_table, passed, through_sum,
    tilted,
};
use crate::reals::{
    lemma_cross, lemma_group, lemma_negated, lemma_quotient, lemma_scaled_order, lemma_spread, lemma_swap,
    lemma_trivial_factors,
};
use crate::scalar::{
    exact, exponential, lemma_exact_values, lemma_weight_value, nil, opposite, pair_sum, unit,
    weight_of, Scalar,
};

verus! {

/// The entries of spin up and of spin down at left index `l` and right index `r`.
pub open spec fn spins_at<R>(a: Seq<R>, dr: int, l: int, r: int) -> (R, R) {
    (entry(a, dr, 2 * l, r), entry(a, dr, 2 * l + 1, r))
}

/// Site `k` of `now` is that of `c` with the entries of spin up multiplied by
/// `e(-x)` and those of spin down by `e(x)`, all divided by one number `n` above 0.
pub open spec fn weighed<R: Scalar>(
    val: spec_fn(R) -> real,
    e: spec_fn(real) -> real,
    c: Chain<R>,
    now: Chain<R>,
    k: int,
    x: real,
    n: real,
) -> bool {
    let before = c.site[k];
    let after = now.site[k];
    let dl = c.bond[k];
    let dr = c.bond[k + 1];
    let (up, down) = (e(-x), e(x));
    &&& n > 0int as real
    &&& forall|l: int, r: int|
        #![trigger spins_at(after, dr as int, l, r)]
        0 <= l < dl && 0 <= r < dr ==> n * val(spins_at(after, dr as int, l, r).0) == up * val(
            entry(before, dr as int, 2 * l, r),
        ) && n * val(spins_at(after, dr as int, l, r).1) == down * val(
            entry(before, dr as int, 2 * l + 1, r),
        )
}

/// Site `k` of `now` is that of `c` with `t` times the other spin added to each
/// spin, all divided by one number `n` above 0.
pub open spec fn crossed<R: Scalar>(
    val: spec_fn(R) -> real,
    c: Chain<R>,
    now: Chain<R>,
    k: int,
    t: real,
    n: real,
) -> bool {
    let before = c.site[k];
    let after = now.site[k];
    let dl = c.bond[k];
    let dr = c.bond[k + 1];
    &&& n > 0int as real
    &&& forall|l: int, r: int|
        #![trigger spins_at(after, dr as int, l, r)]
        0 <= l < dl && 0 <= r < dr ==> {
            let (a, b) = (
                val(entry(before, dr as int, 2 * l, r)),
                val(entry(before, dr as int, 2 * l + 1, r)),
            );
            &&& n * val(spins_at(after, dr as int, l, r).0) == a + t * b
            &&& n * val(spins_at(after, dr as int, l, r).1) == b + t * a
        }
}

/// Normalizing divides every entry by one number above 0.
proof fn lemma_normalized<R: Scalar>(val: spec_fn(R) -> real, v: Seq<R>) -> (n: real)
    requires
        exact(val),
    ensures
        n > 0int as real,
        normalized(v).len() == v.len(),
        forall|i: int| 0 <= i < v.len() ==> n * val(#[trigger] normalized(v)[i]) == val(v[i]),
{
    let norm = pair_sum(v, v, v.len() as int).root();
    lemma_exact_values(val, norm);
    if nil::<R>().under(norm) {
        let n = val(norm);
        assert forall|i: int| 0 <= i < v.len() implies n * val(#[trigger] normalized(v)[i]) == val(
            v[i],
        ) by {
            lemma_quotient(val(v[i]), n);
            lemma_swap(val(v[i]) / n, n);
        }
        n
    } else {
        assert forall|i: int| 0 <= i < v.len() implies 1int as real * val(
            #[trigger] normalized(v)[i],
        ) == val(v[i]) by {
            lemma_trivial_factors(val(v[i]));
        }
        1int as real
    }
}

/// A true exponential is 1 at 0, and its values at opposite places undo each other.
pub proof fn lemma_exponential_inverse<R: Scalar, E: Fn(R) -> R>(
    val: spec_fn(R) -> real,
    exp: E,
    e: spec_fn(real) -> real,
    x: real,
)
    requires
        exponential(val, exp, e),
    ensures
        e(0int as real) == 1int as real,
        e(-x) * e(x) == 1int as real,
        e(x) > 0int as real,
        e(-x) > 0int as real,
{
    let z = e(0int as real);
    assert(0int as real == 0int as real + 0int as real);
    assert(z == z * z);
    lemma_trivial_factors(z);
    lemma_scaled_order(z, 1int as real, z);
    assert(0int as real == -x + x);
    assert(e(-x) > 0int as real);
    assert(e(0int as real) == e(-x) * e(x));
}

/// The field of a site weighs its two spins against each other: in imaginary time
/// `eta` every amplitude of spin up gains the factor `exp(-eta h)` and every one of
/// spin down the factor `exp(eta h)`, up to one common divisor. The other sites
/// stay as they are. This holds while `eta h` lies within 40 of 0.
pub proof fn a_field_weighs_up_against_down<R: Scalar, E: Fn(R) -> R>(
    val: spec_fn(R) -> real,
    exp: E,
    e: spec_fn(real) -> real,
    c: Chain<R>,
    k: int,
    eta: R,
    h: int,
    g: Option<R>,
    x: real,
)
    requires
        exact(val),
        exponential(val, exp, e),
        chain_wf(c),
        0 <= k < c.site.len(),
        is_gain(exp, eta, h, g),
        x == val(eta) * (h as real / 1000int as real),
        -40int as real <= x <= 40int as real,
    ensures
        exists|n: real| #[trigger] weighed(val, e, c, fielded(c, k, g), k, x, n),
        fielded(c, k, g).bond == c.bond,
        forall|i: int|
            0 <= i < c.site.len() && i != k ==> #[trigger] fielded(c, k, g).site[i] == c.site[i],
{
    let place = eta.times(weight_of::<R>(h));
    lemma_weight_value::<R>(val, h);
    assert(val(place) == x);
    lemma_exact_values(val, place);
    lemma_exponential_inverse(val, exp, e, x);
    let (dl, dr) = (c.bond[k], c.bond[k + 1]);
    let a = c.site[k];
    let after = fielded(c, k, g).site[k];
    match g {
        None => {
            assert(-x == x);
            assert forall|l: int, r: int|
                #![trigger spins_at(after, dr as int, l, r)]
                0 <= l < dl && 0 <= r < dr implies 1int as real * val(spins_at(after, dr as int, l, r).0) == e(-x) * val(entry(a, dr as int, 2 * l, r)) && 1int as real * val(spins_at(after, dr as int, l, r).1) == e(x) * val(entry(a, dr as int, 2 * l + 1, r)) by {}
            assert(weighed(val, e, c, fielded(c, k, g), k, x, 1int as real));
        },
        Some(f) => {
            assert(val(R::of_milli(-40000)) == -40000int as real / 1000int as real);
            assert(val(R::of_milli(40000)) == 40000int as real / 1000int as real);
            assert(clamped(place) == place);
            assert(val(f) == e(-x));
            let raw = tilted(a, dl, dr, f);
            let n = lemma_normalized(val, raw);
            assert forall|l: int, r: int|
                #![trigger spins_at(after, dr as int, l, r)]
                0 <= l < dl && 0 <= r < dr implies n * val(spins_at(after, dr as int, l, r).0)
                == e(-x) * val(entry(a, dr as int, 2 * l, r)) && n * val(spins_at(after, dr as int, l, r).1) == e(x) * val(entry(a, dr as int, 2 * l + 1, r)) by {
                let rule = |row: int, r: int|
                    if row % 2 == 0 {
                        entry(a, dr as int, row, r).times(f)
                    } else {
                        entry(a, dr as int, row, r).over(f)
                    };
                lemma_table(2 * dl, dr, rule, 2 * l, r);
                lemma_table(2 * dl, dr, rule, 2 * l + 1, r);
                let up = val(entry(a, dr as int, 2 * l, r));
                let down = val(entry(a, dr as int, 2 * l + 1, r));
                lemma_swap(up, e(-x));
                let q = down / e(-x);
                lemma_quotient(down, e(-x));
                lemma_group(down, e(x), e(-x));
                lemma_swap(e(x), e(-x));
                lemma_trivial_factors(down);
                lemma_scaled_order(q, down * e(x), e(-x));
                lemma_swap(down, e(x));
            }
            assert(weighed(val, e, c, fielded(c, k, g), k, x, n));
        },
    }
}

/// The transverse layer mixes the two spins of every site alike: each amplitude
/// gains `tau` times that of the other spin, up to one common divisor.
pub proof fn the_transverse_layer_mixes_the_spins<R: Scalar>(
    val: spec_fn(R) -> real,
    c: Chain<R>,
    tau: R,
    k: int,
)
    requires
        exact(val),
        chain_wf(c),
        0 <= k < c.site.len(),
    ensures
        exists|n: real| #[trigger] crossed(val, c, transversed(c, tau), k, val(tau), n),
        transversed(c, tau).bond == c.bond,
{
    let (dl, dr) = (c.bond[k], c.bond[k + 1]);
    let a = c.site[k];
    let after = transversed(c, tau).site[k];
    let t = val(tau);
    lemma_exact_values(val, tau);
    if t == 0int as real {
        assert forall|l: int, r: int|
            #![trigger spins_at(after, dr as int, l, r)]
            0 <= l < dl && 0 <= r < dr implies {
            let (up, down) = (
                val(entry(a, dr as int, 2 * l, r)),
                val(entry(a, dr as int, 2 * l + 1, r)),
            );
            &&& 1int as real * val(spins_at(after, dr as int, l, r).0) == up + t * down
            &&& 1int as real * val(spins_at(after, dr as int, l, r).1) == down + t * up
        } by {
            lemma_trivial_factors(val(entry(a, dr as int, 2 * l, r)));
            lemma_trivial_factors(val(entry(a, dr as int, 2 * l + 1, r)));
        }
        assert(crossed(val, c, transversed(c, tau), k, t, 1int as real));
    } else {
        let raw = mixed(a, dl, dr, tau);
        let n = lemma_normalized(val, raw);
        assert forall|l: int, r: int|
            #![trigger spins_at(after, dr as int, l, r)]
            0 <= l < dl && 0 <= r < dr implies {
            let (up, down) = (
                val(entry(a, dr as int, 2 * l, r)),
                val(entry(a, dr as int, 2 * l + 1, r)),
            );
            &&& n * val(spins_at(after, dr as int, l, r).0) == up + t * down
            &&& n * val(spins_at(after, dr as int, l, r).1) == down + t * up
        } by {
            let rule = |row: int, r: int|
                entry(a, dr as int, row, r).plus(
                    tau.times(entry(a, dr as int, crate::mps::tensor::partner(row), r)),
                );
            lemma_table(2 * dl, dr, rule, 2 * l, r);
            lemma_table(2 * dl, dr, rule, 2 * l + 1, r);
            assert(entry(raw, dr as int, 2 * l, r) == rule(2 * l, r));
            assert(entry(raw, dr as int, 2 * l + 1, r) == rule(2 * l + 1, r));
        }
        assert(crossed(val, c, transversed(c, tau), k, t, n));
    }
}

/// The factors of a step follow its imaginary time: the transverse factor is the
/// hyperbolic tangent of half of `eta gamma`, and that of a coupling of `j`
/// thousandths the tangent of `eta j / 1000`.
pub proof fn factors_follow_imaginary_time<R: Scalar, T: Fn(R) -> R>(
    val: spec_fn(R) -> real,
    tanh: T,
    h: spec_fn(real) -> real,
    eta: R,
    gamma: R,
    j: int,
    tau: R,
    angle: R,
)
    requires
        exact(val),
        forall|x: R, y: R| #[trigger] call_ensures(tanh, (x,), y) ==> val(y) == h(val(x)),
        is_tau(tanh, eta, gamma, Some(tau)),
        is_angle(tanh, eta, j, angle),
    ensures
        val(tau) == h((val(eta) * val(gamma)) / 2int as real),
        val(angle) == h(val(eta) * (j as real / 1000int as real)),
{
    let two = R::of_milli(2000);
    assert(val(two) == 2000int as real / 1000int as real);
    assert(val(eta.times(gamma).over(two)) == (val(eta) * val(gamma)) / val(two));
    lemma_weight_value::<R>(val, j);
}

/// The two amplitudes of a chain of one site.
pub open spec fn lone_amplitudes<R: Scalar>(val: spec_fn(R) -> real, c: Chain<R>) -> (real, real) {
    (val(entry(c.site[0], 1, 0, 0)), val(entry(c.site[0], 1, 1, 0)))
}

/// A chain of one site.
pub open spec fn lone_chain<R: Scalar>(c: Chain<R>) -> bool {
    &&& chain_wf(c)
    &&& c.site.len() == 1
    &&& c.bond[0] == 1
    &&& c.bond[1] == 1
}

proof fn lemma_lone_layers<R: Scalar>(c: Chain<R>, tau: R, g: Option<R>)
    requires
        lone_chain(c),
    ensures
        lone_chain(transversed(c, tau)),
        lone_chain(fielded(c, 0, g)),
{
    assert((2 * c.bond[0]) * c.bond[1] == 2);
    assert((2 * 1nat) * 1nat == 2);
}

proof fn lemma_crossed_lone<R: Scalar>(
    val: spec_fn(R) -> real,
    c: Chain<R>,
    now: Chain<R>,
    t: real,
    n: real,
)
    requires
        crossed(val, c, now, 0, t, n),
        lone_chain(c),
    ensures
        n * lone_amplitudes(val, now).0 == lone_amplitudes(val, c).0 + t * lone_amplitudes(
            val,
            c,
        ).1,
        n * lone_amplitudes(val, now).1 == lone_amplitudes(val, c).1 + t * lone_amplitudes(
            val,
            c,
        ).0,
{
    assert(spins_at(now.site[0], c.bond[1] as int, 0, 0) == (
        entry(now.site[0], 1, 0, 0),
        entry(now.site[0], 1, 1, 0),
    ));
    assert(spins_at(c.site[0], c.bond[1] as int, 0, 0) == (
        entry(c.site[0], 1, 0, 0),
        entry(c.site[0], 1, 1, 0),
    ));
}

proof fn lemma_weighed_lone<R: Scalar>(
    val: spec_fn(R) -> real,
    e: spec_fn(real) -> real,
    c: Chain<R>,
    now: Chain<R>,
    x: real,
    n: real,
)
    requires
        weighed(val, e, c, now, 0, x, n),
        lone_chain(c),
    ensures
        n * lone_amplitudes(val, now).0 == e(-x) * lone_amplitudes(val, c).0,
        n * lone_amplitudes(val, now).1 == e(x) * lone_amplitudes(val, c).1,
{
    assert(spins_at(now.site[0], c.bond[1] as int, 0, 0) == (
        entry(now.site[0], 1, 0, 0),
        entry(now.site[0], 1, 1, 0),
    ));
    assert(spins_at(c.site[0], c.bond[1] as int, 0, 0) == (
        entry(c.site[0], 1, 0, 0),
        entry(c.site[0], 1, 1, 0),
    ));
}

/// A whole step on a chain of one site: the transverse layer mixes its spins, its
/// field weighs them, and the layer mixes them again. The proportion of the two
/// amplitudes after the step is the one that this gives.
pub proof fn a_step_weighs_a_lone_site<R: Scalar, E: Fn(R) -> R>(
    val: spec_fn(R) -> real,
    exp: E,
    e: spec_fn(real) -> real,
    eps: R,
    c: Chain<R>,
    gates: Seq<Gate>,
    chi: nat,
    f: StepFactors<R>,
    eta: R,
    h: int,
    x: real,
)
    requires
        exact(val),
        exponential(val, exp, e),
        lone_chain(c),
        gates.len() == 0,
        f.gains.len() == 1,
        is_gain(exp, eta, h, f.gains[0]),
        x == val(eta) * (h as real / 1000int as real),
        -40int as real <= x <= 40int as real,
    ensures
        lone_chain(step_done(eps, c, gates, chi, f)),
        ({
            let (u, d) = lone_amplitudes(val, c);
            let t = val(f.tau);
            let up = e(-x) * (u + t * d);
            let down = e(x) * (d + t * u);
            let (p, q) = lone_amplitudes(val, step_done(eps, c, gates, chi, f));
            p * (down + t * up) == q * (up + t * down)
        }),
{
    let t = val(f.tau);
    let first = transversed(c, f.tau);
    let fields = fields_done(first, f.gains, 1);
    assert(fields_done(first, f.gains, 0) == first);
    assert(fields == fielded(first, 0, f.gains[0]));
    let all = couplings_done(eps, fields, gates, f.angles, chi, 0);
    assert(all == fields);
    let last = transversed(fields, f.tau);
    lemma_lone_layers(c, f.tau, f.gains[0]);
    lemma_lone_layers(first, f.tau, f.gains[0]);
    lemma_lone_layers(fields, f.tau, f.gains[0]);
    the_transverse_layer_mixes_the_spins(val, c, f.tau, 0);
    a_field_weighs_up_against_down(val, exp, e, first, 0, eta, h, f.gains[0], x);
    the_transverse_layer_mixes_the_spins(val, fields, f.tau, 0);
    let n1 = choose|n: real| #[trigger] crossed(val, c, first, 0, t, n);
    let n2 = choose|n: real| #[trigger] weighed(val, e, first, fields, 0, x, n);
    let n3 = choose|n: real| #[trigger] crossed(val, fields, last, 0, t, n);
    let n4 = lemma_normalized(val, last.site[0]);
    let end = step_done(eps, c, gates, chi, f);
    assert(canon_from(eps, last, 0, chi) == last);
    assert(end.site[0] == normalized(last.site[0]));
    let (u, d) = lone_amplitudes(val, c);
    let (u1, d1) = lone_amplitudes(val, first);
    let (u2, d2) = lone_amplitudes(val, fields);
    let (u3, d3) = lone_amplitudes(val, last);
    let (p, q) = lone_amplitudes(val, end);
    lemma_crossed_lone(val, c, first, t, n1);
    lemma_weighed_lone(val, e, first, fields, x, n2);
    lemma_crossed_lone(val, fields, last, t, n3);
    assert(n1 * u1 == u + t * d && n1 * d1 == d + t * u);
    assert(n2 * u2 == e(-x) * u1 && n2 * d2 == e(x) * d1);
    assert(n3 * u3 == u2 + t * d2 && n3 * d3 == d2 + t * u2);
    assert(n4 * p == u3 && n4 * q == d3);
    let (up, down) = (e(-x) * (u + t * d), e(x) * (d + t * u));
    let n = n1 * n2;
    assert(n * u2 == up) by {
        lemma_group(n1, n2, u2);
        lemma_cross(n1, e(-x), u1);
    }
    assert(n * d2 == down) by {
        lemma_group(n1, n2, d2);
        lemma_cross(n1, e(x), d1);
    }
    let (one_way, other_way) = (up + t * down, down + t * up);
    let m = n * (n3 * n4);
    assert(m * p == one_way) by {
        lemma_group(n, n3 * n4, p);
        lemma_group(n3, n4, p);
        lemma_spread(n, u2, t * d2);
        lemma_cross(n, t, d2);
    }
    assert(m * q == other_way) by {
        lemma_group(n, n3 * n4, q);
        lemma_group(n3, n4, q);
        lemma_spread(n, d2, t * u2);
        lemma_cross(n, t, u2);
    }
    lemma_cross(p, m, q);
}

/// A chain of one site is drawn by the squares of its two amplitudes.
pub proof fn a_lone_site_is_drawn_by_its_squares<R: Scalar>(
    val: spec_fn(R) -> real,
    c: Chain<R>,
    picks: Seq<bool>,
)
    requires
        exact(val),
        lone_chain(c),
    ensures
        ({
            let (u, d) = lone_amplitudes(val, c);
            let (p, q) = weights_at(c, 0, message_at(c, picks, 0));
            &&& val(p) == u * u
            &&& val(q) == d * d
        }),
{
    let (u, d) = lone_amplitudes(val, c);
    let msg = message_at(c, picks, 0);
    assert(msg =~= seq![unit::<R>()]);
    lemma_exact_values(val, unit::<R>());
    lemma_lone_branch(val, c, msg, 0);
    lemma_lone_branch(val, c, msg, 1);
}

proof fn lemma_lone_branch<R: Scalar>(
    val: spec_fn(R) -> real,
    c: Chain<R>,
    msg: Seq<R>,
    p: int,
)
    requires
        exact(val),
        lone_chain(c),
        msg == seq![unit::<R>()],
        p == 0 || p == 1,
    ensures
        ({
            let w = branch(c, 0, msg, p);
            let a = val(entry(c.site[0], 1, p, 0));
            val(pair_sum(w, w, w.len() as int)) == a * a
        }),
{
    let w = branch(c, 0, msg, p);
    let a = entry(c.site[0], 1, p, 0);
    lemma_exact_values(val, unit::<R>());
    assert(w.len() == 1);
    assert(w[0] == branch_sum(c.site[0], 1, msg, p, 0, 1));
    assert(branch_sum(c.site[0], 1, msg, p, 0, 0) == nil::<R>());
    lemma_trivial_factors(val(a));
    assert(val(w[0]) == val(a));
    assert(pair_sum(w, w, 0) == nil::<R>());
    assert(pair_sum(w, w, 1) == nil::<R>().plus(w[0].times(w[0])));
}

/// The factor of `1 - t Z Z` on two spins: `1 - t` where they agree, and `1 + t`
/// where they do not.
pub open spec fn bond_factor(t: real, p: int, q: int) -> real {
    if p % 2 == q % 2 {
        1int as real - t
    } else {
        1int as real + t
    }
}

proof fn lemma_eigen<R: Scalar>(val: spec_fn(R) -> real, p: int)
    requires
        exact(val),
        p == 0 || p == 1,
    ensures
        val(eigen::<R>(p)) == if p == 0 {
            1int as real
        } else {
            -1int as real
        },
{
    assert(val(unit::<R>()) == 1000int as real / 1000int as real);
    assert(val(R::of_milli(-1000)) == -1000int as real / 1000int as real);
}

/// A coupling weighs a pair of product sites: pairs of spins that agree gain the
/// factor `1 - t`, and those that do not the factor `1 + t`.
pub proof fn a_coupling_weighs_a_pair<R: Scalar>(
    val: spec_fn(R) -> real,
    a: Seq<R>,
    b: Seq<R>,
    t: R,
    p: int,
    q: int,
)
    requires
        exact(val),
        a.len() == 2,
        b.len() == 2,
        0 <= p < 2,
        0 <= q < 2,
    ensures
        val(entry(pair_table(a, b, t), 2, p, q)) == val(a[p]) * val(b[q]) * bond_factor(
            val(t),
            p,
            q,
        ),
{
    let rule = |p: int, q: int|
        a[p].times(b[q]).times(unit::<R>().minus(t.times(eigen(p)).times(eigen(q))));
    lemma_table(2, 2, rule, p, q);
    lemma_eigen::<R>(val, p);
    lemma_eigen::<R>(val, q);
    lemma_exact_values(val, t);
    let x = val(t);
    lemma_trivial_factors(x);
    lemma_negated(x);
    lemma_trivial_factors(-x);
    lemma_negated(-x);
    assert(entry(pair_table(a, b, t), 2, p, q) == rule(p, q));
}

/// The amplitude of two neighbouring sites: the sum over the first `k` values of
/// the bond between them.
pub open spec fn joined<R: Scalar>(
    val: spec_fn(R) -> real,
    a: Seq<R>,
    b: Seq<R>,
    mid: int,
    dr: int,
    row: int,
    q: int,
    r: int,
    k: int,
) -> real
    decreases k,
{
    if k <= 0 {
        0int as real
    } else {
        joined(val, a, b, mid, dr, row, q, r, k - 1) + val(entry(a, mid, row, k - 1)) * val(
            entry(b, dr, (k - 1) * 2 + q, r),
        )
    }
}

/// What the two channels hold that were opened on a site.
proof fn lemma_channels<R: Scalar>(
    val: spec_fn(R) -> real,
    a: Seq<R>,
    dl: nat,
    mid: nat,
    t: R,
    row: int,
    m: int,
)
    requires
        exact(val),
        0 <= row < 2 * dl,
        0 <= m < mid,
    ensures
        entry(opened(a, dl, mid, t), mid as int * 2, row, m * 2) == entry(a, mid as int, row, m),
        val(entry(opened(a, dl, mid, t), mid as int * 2, row, m * 2 + 1)) == if row % 2 == 0 {
            -(val(t) * val(entry(a, mid as int, row, m)))
        } else {
            val(t) * val(entry(a, mid as int, row, m))
        },
{
    let rule = |row: int, c: int|
        if c % 2 == 0 {
            entry(a, mid as int, row, c / 2)
        } else {
            opposite(t).times(eigen(row % 2)).times(entry(a, mid as int, row, c / 2))
        };
    lemma_table(2 * dl, mid * 2, rule, row, m * 2);
    lemma_table(2 * dl, mid * 2, rule, row, m * 2 + 1);
    assert((m * 2) / 2 == m && (m * 2 + 1) / 2 == m);
    lemma_eigen::<R>(val, row % 2);
    lemma_exact_values(val, t);
    let (x, y) = (val(t), val(entry(a, mid as int, row, m)));
    lemma_trivial_factors(-x);
    lemma_negated(-x);
    lemma_spread(y, 0int as real, x);
    lemma_trivial_factors(y);
    assert(0int as real - x == -x);
}

/// A coupling between neighbours: opening its channels on one site and closing
/// them on the next multiplies the amplitude of the two by `1 - t` where their
/// spins agree and by `1 + t` where they do not.
pub proof fn a_coupling_weighs_two_neighbors<R: Scalar>(
    val: spec_fn(R) -> real,
    a: Seq<R>,
    b: Seq<R>,
    dl: nat,
    mid: nat,
    dr: nat,
    t: R,
    row: int,
    q: int,
    r: int,
)
    requires
        exact(val),
        0 <= row < 2 * dl,
        0 <= q < 2,
        0 <= r < dr,
    ensures
        val(
            entry(
                closed_over(opened(a, dl, mid, t), b, 2 * dl, mid, dr),
                dr as int,
                2 * row + q,
                r,
            ),
        ) == bond_factor(val(t), row, q) * joined(
            val,
            a,
            b,
            mid as int,
            dr as int,
            row,
            q,
            r,
            mid as int,
        ),
{
    let carry = opened(a, dl, mid, t);
    let rule = |row: int, r: int|
        close_sum(carry, b, mid as int, dr as int, row, r, mid as int);
    lemma_table(2 * (2 * dl), dr, rule, 2 * row + q, r);
    lemma_closing(val, a, b, dl, mid, dr, t, row, q, r, mid as int);
    assert(entry(closed_over(carry, b, 2 * dl, mid, dr), dr as int, 2 * row + q, r) == rule(
        2 * row + q,
        r,
    ));
}

proof fn lemma_closing<R: Scalar>(
    val: spec_fn(R) -> real,
    a: Seq<R>,
    b: Seq<R>,
    dl: nat,
    mid: nat,
    dr: nat,
    t: R,
    row: int,
    q: int,
    r: int,
    k: int,
)
    requires
        exact(val),
        0 <= row < 2 * dl,
        0 <= q < 2,
        0 <= r < dr,
        0 <= k <= mid,
    ensures
        val(
            close_sum(
                opened(a, dl, mid, t),
                b,
                mid as int,
                dr as int,
                2 * row + q,
                r,
                k,
            ),
        ) == bond_factor(val(t), row, q) * joined(
            val,
            a,
            b,
            mid as int,
            dr as int,
            row,
            q,
            r,
            k,
        ),
    decreases k,
{
    let f = bond_factor(val(t), row, q);
    lemma_exact_values(val, t);
    if k == 0 {
        lemma_trivial_factors(f);
    } else {
        lemma_closing(val, a, b, dl, mid, dr, t, row, q, r, k - 1);
        lemma_channels(val, a, dl, mid, t, row, k - 1);
        lemma_eigen::<R>(val, q);
        let carry = opened(a, dl, mid, t);
        assert((2 * row + q) / 2 == row && (2 * row + q) % 2 == q);
        let c0 = entry(carry, mid as int * 2, row, (k - 1) * 2);
        let c1 = entry(carry, mid as int * 2, row, (k - 1) * 2 + 1);
        let w = c0.plus(eigen::<R>(q).times(c1));
        let (x, y) = (val(t), val(entry(a, mid as int, row, k - 1)));
        let z = val(entry(b, dr as int, (k - 1) * 2 + q, r));
        lemma_trivial_factors(val(c1));
        lemma_negated(val(c1));
        lemma_spread(y, 1int as real, x);
        lemma_trivial_factors(y);
        assert(val(w) == f * y);
        lemma_exact_values(val, w);
        lemma_group(f, y, z);
        lemma_trivial_factors(z);
        lemma_spread(
            f,
            joined(val, a, b, mid as int, dr as int, row, q, r, k - 1),
            y * z,
        );
    }
}

/// A coupling on its way through a site: the first channel carries the amplitude
/// of the two sites as it is, and the second the same amplitude times `-t` for spin
/// up and `t` for spin down where the coupling was opened.
pub proof fn a_coupling_passes_unchanged<R: Scalar>(
    val: spec_fn(R) -> real,
    a: Seq<R>,
    b: Seq<R>,
    dl: nat,
    mid: nat,
    dr: nat,
    t: R,
    row: int,
    q: int,
    r: int,
)
    requires
        exact(val),
        0 <= row < 2 * dl,
        0 <= q < 2,
        0 <= r < dr,
    ensures
        ({
            let through = passed(opened(a, dl, mid, t), b, 2 * dl, mid, dr);
            let whole = joined(val, a, b, mid as int, dr as int, row, q, r, mid as int);
            &&& val(entry(through, dr as int * 2, 2 * row + q, 2 * r)) == whole
            &&& val(entry(through, dr as int * 2, 2 * row + q, 2 * r + 1)) == if row % 2 == 0 {
                -(val(t) * whole)
            } else {
                val(t) * whole
            }
        }),
{
    let carry = opened(a, dl, mid, t);
    let rule = |row: int, col: int|
        through_sum(carry, b, mid as int, dr as int, row, col, mid as int);
    lemma_table(2 * (2 * dl), dr * 2, rule, 2 * row + q, 2 * r);
    lemma_table(2 * (2 * dl), dr * 2, rule, 2 * row + q, 2 * r + 1);
    lemma_passing(val, a, b, dl, mid, dr, t, row, q, r, mid as int);
    let through = passed(carry, b, 2 * dl, mid, dr);
    assert(entry(through, dr as int * 2, 2 * row + q, 2 * r) == rule(2 * row + q, 2 * r));
    assert(entry(through, dr as int * 2, 2 * row + q, 2 * r + 1) == rule(2 * row + q, 2 * r + 1));
}

proof fn lemma_passing<R: Scalar>(
    val: spec_fn(R) -> real,
    a: Seq<R>,
    b: Seq<R>,
    dl: nat,
    mid: nat,
    dr: nat,
    t: R,
    row: int,
    q: int,
    r: int,
    k: int,
)
    requires
        exact(val),
        0 <= row < 2 * dl,
        0 <= q < 2,
        0 <= r < dr,
        0 <= k <= mid,
    ensures
        ({
            let carry = opened(a, dl, mid, t);
            let whole = joined(val, a, b, mid as int, dr as int, row, q, r, k);
            &&& val(
                through_sum(carry, b, mid as int, dr as int, 2 * row + q, 2 * r, k),
            ) == whole
            &&& val(
                through_sum(carry, b, mid as int, dr as int, 2 * row + q, 2 * r + 1, k),
            ) == if row % 2 == 0 {
                -(val(t) * whole)
            } else {
                val(t) * whole
            }
        }),
    decreases k,
{
    let x = val(t);
    lemma_exact_values(val, t);
    lemma_trivial_factors(x);
    if k > 0 {
        lemma_passing(val, a, b, dl, mid, dr, t, row, q, r, k - 1);
        lemma_channels(val, a, dl, mid, t, row, k - 1);
        let carry = opened(a, dl, mid, t);
        assert((2 * row + q) / 2 == row && (2 * row + q) % 2 == q);
        assert((2 * r) / 2 == r && (2 * r) % 2 == 0);
        assert((2 * r + 1) / 2 == r && (2 * r + 1) % 2 == 1);
        let c0 = entry(carry, mid as int * 2, row, (k - 1) * 2);
        let c1 = entry(carry, mid as int * 2, row, (k - 1) * 2 + 1);
        let y = val(entry(a, mid as int, row, k - 1));
        let z = val(entry(b, dr as int, (k - 1) * 2 + q, r));
        lemma_exact_values(val, c0);
        lemma_exact_values(val, c1);
        lemma_trivial_factors(z);
        lemma_group(x, y, z);
        lemma_spread(z, 0int as real, x * y);
        assert(0int as real - x * y == -(x * y));
        lemma_spread(
            x,
            joined(val, a, b, mid as int, dr as int, row, q, r, k - 1),
            y * z,
        );
    }
}

} // verus!
