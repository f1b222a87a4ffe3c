//! How a sweep budget becomes Trotter steps, rungs and polish sweeps.
use vstd::prelude::*;

use crate::ising::{binds, coupling, IsingGraph};
use crate::sampler_core::{at_least_one, or_one};
use crate::scalar::{
    is_ordinary, is_zero, nil, one, opposite, ordinary, thousandths, unit, vanishes, weight, weight_of,
    zero, Scalar, Thousandths,
};

verus! {

/// Most Trotter steps of an anneal.
pub const MAX_TROTTER_STEPS: usize = 256;

/// Fewest polish sweeps.
pub const MIN_POLISH_SWEEPS: usize = 8;

/// Trotter steps of a sweep budget.
pub open spec fn trotter_steps(num_sweeps: int) -> int {
    if num_sweeps < 1 {
        1
    } else if num_sweeps > MAX_TROTTER_STEPS {
        MAX_TROTTER_STEPS as int
    } else {
        num_sweeps
    }
}

/// Polish sweeps of a sweep budget: what the Trotter steps leave, and at least
/// the floor.
pub open spec fn polish_sweeps(num_sweeps: int) -> int {
    if num_sweeps - trotter_steps(num_sweeps) > MIN_POLISH_SWEEPS {
        num_sweeps - trotter_steps(num_sweeps)
    } else {
        MIN_POLISH_SWEEPS as int
    }
}

/// Split a sweep budget into Trotter steps and polish sweeps.
pub fn split_sweeps(num_sweeps: usize) -> (r: (usize, usize))
    ensures
        r.0 == trotter_steps(num_sweeps as int),
        r.1 == polish_sweeps(num_sweeps as int),
{
    let steps: usize = if num_sweeps < 1 {
        1
    } else if num_sweeps > MAX_TROTTER_STEPS {
        MAX_TROTTER_STEPS
    } else {
        num_sweeps
    };
    let rest: usize = if num_sweeps > steps {
        num_sweeps - steps
    } else {
        0
    };
    if rest > MIN_POLISH_SWEEPS {
        (steps, rest)
    } else {
        (steps, MIN_POLISH_SWEEPS)
    }
}

/// The split spends the whole budget and never polishes less than the floor.
pub proof fn split_spends_the_budget(num_sweeps: int)
    requires
        num_sweeps >= 0,
    ensures
        trotter_steps(num_sweeps) + polish_sweeps(num_sweeps) >= num_sweeps,
        1 <= trotter_steps(num_sweeps) <= MAX_TROTTER_STEPS,
        polish_sweeps(num_sweeps) >= MIN_POLISH_SWEEPS,
{
}

/// Rungs of the ladder that `steps` Trotter steps climb.
pub open spec fn ladder_rungs(steps: nat, sweeps_per_beta: nat) -> nat {
    at_least_one(at_least_one(steps) / at_least_one(sweeps_per_beta))
}

/// Rungs of the ladder that `steps` Trotter steps climb, `sweeps_per_beta` steps
/// to a rung.
pub fn num_rungs(steps: usize, sweeps_per_beta: usize) -> (r: usize)
    ensures
        r == ladder_rungs(steps as nat, sweeps_per_beta as nat),
{
    or_one(or_one(steps) / or_one(sweeps_per_beta))
}

/// The rung of Trotter step `k`: the ladder is held for `per` steps, and the
/// last rung for the steps that are left over.
pub open spec fn rung_of(k: nat, per: nat, rungs: nat) -> int {
    if k / at_least_one(per) < rungs - 1 {
        (k / at_least_one(per)) as int
    } else {
        rungs - 1
    }
}

/// The rung of Trotter step `k`.
pub fn step_rung(k: usize, sweeps_per_beta: usize, rungs: usize) -> (r: usize)
    requires
        rungs > 0,
    ensures
        r == rung_of(k as nat, sweeps_per_beta as nat, rungs as nat),
        r < rungs,
{
    let at: usize = k / or_one(sweeps_per_beta);
    if at < rungs - 1 {
        at
    } else {
        rungs - 1
    }
}

/// Beta never falls: a later step stands on the same rung or a higher one.
pub proof fn rungs_never_fall(k: nat, m: nat, per: nat, rungs: nat)
    requires
        k <= m,
        rungs > 0,
    ensures
        rung_of(k, per, rungs) <= rung_of(m, per, rungs),
{
    let p = at_least_one(per) as int;
    assert(k as int / p <= m as int / p) by (nonlinear_arith)
        requires
            k <= m,
            p > 0,
    ;
}

/// The first steps of a rung and the steps held on it stand on that rung.
pub proof fn a_rung_is_held(b: nat, i: nat, per: nat, rungs: nat)
    requires
        i < at_least_one(per),
        b < rungs,
    ensures
        rung_of(b * at_least_one(per) + i, per, rungs) == b,
{
    let p = at_least_one(per) as int;
    let k = b * p + i;
    assert(k / p == b) by (nonlinear_arith)
        requires
            k == b * p + i,
            0 <= i < p,
            0 <= b,
    ;
}

/// `|x|`.
pub open spec fn size(x: int) -> int {
    if x < 0 {
        -x
    } else {
        x
    }
}

/// Field of `v` at its worst: the bias and the first `k` couplings at `v`, all
/// by size.
pub open spec fn worst_field(g: IsingGraph, v: int, k: int) -> int
    decreases k,
{
    if k <= 0 {
        size(g.h@[v] as int)
    } else {
        let e = g.edges@[k - 1];
        worst_field(g, v, k - 1) + if binds(g.h@.len() as int, e) && (e.0 == v || e.1 == v) {
            size(coupling(g.j@, k - 1))
        } else {
            0
        }
    }
}

/// The largest of the first `n` worst fields.
pub open spec fn largest_field(g: IsingGraph, n: int) -> int
    decreases n,
{
    if n <= 0 {
        0
    } else if worst_field(g, n - 1, g.edges@.len() as int) > largest_field(g, n - 1) {
        worst_field(g, n - 1, g.edges@.len() as int)
    } else {
        largest_field(g, n - 1)
    }
}

/// Start of the transverse ramp, in thousandths: twice the largest worst field.
///
/// Self-loops and edges out of range do not count, and neither does a missing
/// coupling.
pub fn gamma_zero(g: &IsingGraph) -> (r: u128)
    ensures
        r == 2 * largest_field(*g, g.h@.len() as int),
{
    let n: usize = g.h.len();
    let mut acc: Vec<u128> = Vec::with_capacity(n);
    let mut v: usize = 0;
    while v < n
        invariant
            n == g.h@.len(),
            v <= n,
            acc@.len() == v,
            forall|i: int| 0 <= i < v ==> #[trigger] acc@[i] == worst_field(*g, i, 0),
            forall|i: int| 0 <= i < v ==> #[trigger] acc@[i] <= 0x8000_0000,
        decreases n - v,
    {
        acc.push(size_of_i32(g.h[v]) as u128);
        v = v + 1;
    }
    let mut k: usize = 0;
    while k < g.edges.len()
        invariant
            n == g.h@.len(),
            acc@.len() == n,
            k <= g.edges@.len(),
            forall|i: int| 0 <= i < n ==> #[trigger] acc@[i] == worst_field(*g, i, k as int),
            forall|i: int| 0 <= i < n ==> #[trigger] acc@[i] <= (k + 1) * 0x8000_0000,
        decreases g.edges@.len() - k,
    {
        let e = g.edges[k];
        let ghost prev = acc@;
        let weight: i32 = if k < g.j.len() {
            g.j[k]
        } else {
            0
        };
        assert(weight == coupling(g.j@, k as int));
        if e.0 < n && e.1 < n && e.0 != e.1 {
            let a: u128 = size_of_i32(weight) as u128;
            acc[e.0] = acc[e.0] + a;
            acc[e.1] = acc[e.1] + a;
        }
        k = k + 1;
    }
    let mut best: u128 = 0;
    let mut u: usize = 0;
    while u < n
        invariant
            n == g.h@.len(),
            acc@.len() == n,
            forall|i: int|
                0 <= i < n ==> #[trigger] acc@[i] == worst_field(*g, i, g.edges@.len() as int),
            forall|i: int|
                0 <= i < n ==> #[trigger] acc@[i] <= 0x1_0000_0000_0000_0000 * 0x8000_0000,
            u <= n,
            best == largest_field(*g, u as int),
            best <= 0x1_0000_0000_0000_0000 * 0x8000_0000,
        decreases n - u,
    {
        if acc[u] > best {
            best = acc[u];
        }
        u = u + 1;
    }
    2 * best
}

/// `|x|`.
fn size_of_i32(x: i32) -> (r: u32)
    ensures
        r == size(x as int),
{
    if x < 0 {
        (-(x as i64)) as u32
    } else {
        x as u32
    }
}

/// Imaginary time and transverse field of every Trotter step.
#[derive(Debug)]
pub struct Schedule<R> {
    /// Imaginary time.
    pub eta: Vec<R>,
    /// Transverse field.
    pub gamma: Vec<R>,
}

/// The inverse temperature that step `k` reaches; 0 where the ladder is short.
pub open spec fn beta_at<R: Scalar>(ladder: Seq<R>, per: nat, rungs: nat, k: int) -> R {
    let b = rung_of(k as nat, per, rungs);
    if 0 <= b < ladder.len() {
        ladder[b]
    } else {
        nil()
    }
}

/// How far `to` lies above `from`; 0 where it does not.
pub open spec fn rise<R: Scalar>(from: R, to: R) -> R {
    let d = to.minus(from);
    if nil::<R>().under(d) {
        d
    } else {
        nil()
    }
}

/// Imaginary time of step `k`: what the ladder rises.
pub open spec fn eta_of<R: Scalar>(ladder: Seq<R>, per: nat, rungs: nat, k: int) -> R {
    rise(
        if k <= 0 {
            nil()
        } else {
            beta_at(ladder, per, rungs, k - 1)
        },
        beta_at(ladder, per, rungs, k),
    )
}

/// Transverse field of step `k` of `steps`: from `top` down to 0 in equal parts.
pub open spec fn gamma_of<R: Scalar>(top: R, steps: nat, k: int) -> R {
    if steps <= 1 {
        nil()
    } else {
        top.times(unit::<R>().minus(R::fraction(k as nat, (steps - 1) as nat)))
    }
}

/// `s` is the schedule of `steps` steps up a ladder, `per` steps to a rung, with
/// a transverse field that starts at `top`.
pub open spec fn scheduled<R: Scalar>(
    s: Schedule<R>,
    ladder: Seq<R>,
    top: R,
    steps: nat,
    per: nat,
) -> bool {
    s.eta@ == eta_seq(ladder, steps, per) && s.gamma@ == gamma_seq(top, steps)
}

/// Imaginary times of the schedule.
pub open spec fn eta_seq<R: Scalar>(ladder: Seq<R>, steps: nat, per: nat) -> Seq<R> {
    Seq::new(
        at_least_one(steps),
        |k: int| eta_of(ladder, per, ladder_rungs(steps, per), k),
    )
}

/// Transverse fields of the schedule.
pub open spec fn gamma_seq<R: Scalar>(top: R, steps: nat) -> Seq<R> {
    Seq::new(at_least_one(steps), |k: int| gamma_of(top, at_least_one(steps), k))
}

/// Build the schedule of `steps` steps.
pub fn build<R: Scalar>(ladder: &Vec<R>, top: R, steps: usize, sweeps_per_beta: usize) -> (s:
    Schedule<R>)
    ensures
        scheduled(s, ladder@, top, steps as nat, sweeps_per_beta as nat),
{
    let n: usize = or_one(steps);
    let rungs: usize = num_rungs(steps, sweeps_per_beta);
    let mut eta: Vec<R> = Vec::with_capacity(n);
    let mut gamma: Vec<R> = Vec::with_capacity(n);
    let mut before: R = zero();
    let mut k: usize = 0;
    while k < n
        invariant
            n == at_least_one(steps as nat),
            rungs == ladder_rungs(steps as nat, sweeps_per_beta as nat),
            rungs > 0,
            k <= n,
            eta@.len() == k,
            gamma@.len() == k,
            before == if k == 0 {
                nil()
            } else {
                beta_at(ladder@, sweeps_per_beta as nat, rungs as nat, k - 1)
            },
            forall|i: int|
                0 <= i < k ==> #[trigger] eta@[i] == eta_of(
                    ladder@,
                    sweeps_per_beta as nat,
                    rungs as nat,
                    i,
                ),
            forall|i: int| 0 <= i < k ==> #[trigger] gamma@[i] == gamma_of(top, n as nat, i),
        decreases n - k,
    {
        let b: usize = step_rung(k, sweeps_per_beta, rungs);
        let beta: R = if b < ladder.len() {
            ladder[b]
        } else {
            zero()
        };
        let d: R = beta.difference(before);
        eta.push(
            if zero::<R>().less(d) {
                d
            } else {
                zero()
            },
        );
        before = beta;
        gamma.push(
            if n <= 1 {
                zero()
            } else {
                top.product(one::<R>().difference(R::ratio(k, n - 1)))
            },
        );
        k = k + 1;
    }
    assert(eta@ =~= eta_seq(ladder@, steps as nat, sweeps_per_beta as nat));
    assert(gamma@ =~= gamma_seq(top, steps as nat));
    Schedule { eta, gamma }
}

/// A step is held where the ladder does not rise: it runs nothing.
pub open spec fn held<R: Scalar>(eta: R) -> bool {
    nil::<R>().reaches(eta)
}

/// `t` is the transverse factor of a step, `tanh(eta gamma / 2)`; a held step has
/// none.
pub open spec fn is_tau<R: Scalar, T: Fn(R) -> R>(tanh: T, eta: R, gamma: R, t: Option<R>) -> bool {
    match t {
        None => held(eta),
        Some(x) => !held(eta) && call_ensures(
            tanh,
            (eta.times(gamma).over(R::of_milli(2000)),),
            x,
        ),
    }
}

/// The transverse factor of a step.
pub fn tau_factor<R: Scalar, T: Fn(R) -> R>(tanh: &T, eta: R, gamma: R) -> (t: Option<R>)
    requires
        forall|x: R| #[trigger] call_requires(*tanh, (x,)),
    ensures
        is_tau(*tanh, eta, gamma, t),
{
    if zero::<R>().at_least(eta) {
        None
    } else {
        Some(tanh(eta.product(gamma).quotient(R::from_milli(2000))))
    }
}

/// `t` is the factor of a coupling of `j` thousandths, `tanh(eta j)`.
pub open spec fn is_angle<R: Scalar, T: Fn(R) -> R>(tanh: T, eta: R, j: int, t: R) -> bool {
    call_ensures(tanh, (eta.times(weight_of::<R>(j)),), t)
}

/// The factor of a coupling.
pub fn angle_factor<R: Scalar, T: Fn(R) -> R>(tanh: &T, eta: R, j: i64) -> (t: R)
    requires
        forall|x: R| #[trigger] call_requires(*tanh, (x,)),
    ensures
        is_angle(*tanh, eta, j as int, t),
{
    tanh(eta.product(weight(j as i128)))
}

/// `x` between -40 and 40.
pub open spec fn clamped<R: Scalar>(x: R) -> R {
    if x.under(R::of_milli(-40000)) {
        R::of_milli(-40000)
    } else if R::of_milli(40000).under(x) {
        R::of_milli(40000)
    } else {
        x
    }
}

/// `g` is the factor of the field exponent `x`, `exp(-x)`. A field that does
/// nothing, or is no ordinary number, has none.
pub open spec fn is_gain_at<R: Scalar, E: Fn(R) -> R>(exp: E, x: R, g: Option<R>) -> bool {
    match g {
        None => vanishes(x) || !ordinary(x),
        Some(v) => !vanishes(x) && ordinary(x) && call_ensures(
            exp,
            (opposite(clamped(x)),),
            v,
        ),
    }
}

/// The factor of a field exponent.
pub fn gain_at<R: Scalar, E: Fn(R) -> R>(exp: &E, x: R) -> (g: Option<R>)
    requires
        forall|x: R| #[trigger] call_requires(*exp, (x,)),
    ensures
        is_gain_at(*exp, x, g),
{
    if is_zero(x) || !is_ordinary(x) {
        None
    } else {
        let low: R = R::from_milli(-40000);
        let high: R = R::from_milli(40000);
        let kept: R = if x.less(low) {
            low
        } else if high.less(x) {
            high
        } else {
            x
        };
        Some(exp(R::from_milli(-1000).product(kept)))
    }
}

/// `g` is the factor of a field of `h` thousandths in imaginary time `eta`.
pub open spec fn is_gain<R: Scalar, E: Fn(R) -> R>(exp: E, eta: R, h: int, g: Option<R>) -> bool {
    is_gain_at(exp, eta.times(weight_of::<R>(h)), g)
}

/// The factor of a field.
pub fn gain_factor<R: Scalar, E: Fn(R) -> R>(exp: &E, eta: R, h: i32) -> (g: Option<R>)
    requires
        forall|x: R| #[trigger] call_requires(*exp, (x,)),
    ensures
        is_gain(*exp, eta, h as int, g),
{
    gain_at(exp, eta.product(weight(h as i128)))
}

/// `g` holds the two factors of a field of `h` thousandths, `exp(-eta h)` and
/// `exp(eta h)`.
pub open spec fn are_gains<R: Scalar, E: Fn(R) -> R>(exp: E, eta: R, h: int, g: (R, R)) -> bool {
    let x = eta.times(weight_of::<R>(h));
    call_ensures(exp, (opposite(x),), g.0) && call_ensures(exp, (x,), g.1)
}

/// The two factors of a field.
pub fn gain_factors<R: Scalar, E: Fn(R) -> R>(exp: &E, eta: R, h: i32) -> (g: (R, R))
    requires
        forall|x: R| #[trigger] call_requires(*exp, (x,)),
    ensures
        are_gains(*exp, eta, h as int, g),
{
    let x: R = eta.product(weight(h as i128));
    (exp(R::from_milli(-1000).product(x)), exp(x))
}

/// Start of the transverse ramp of a problem.
pub open spec fn ramp_top<R: Scalar>(g: IsingGraph) -> R {
    weight_of(2 * largest_field(g, g.h@.len() as int))
}

/// The schedule of a job.
pub fn job_schedule<R: Scalar>(
    g: &IsingGraph,
    ladder: &Vec<R>,
    steps: usize,
    sweeps_per_beta: usize,
) -> (s: Schedule<R>)
    ensures
        scheduled(s, ladder@, ramp_top::<R>(*g), steps as nat, sweeps_per_beta as nat),
{
    build(ladder, thousandths(gamma_zero(g)), steps, sweeps_per_beta)
}

/// Sum of the first `k` numbers, in thousandths.
pub open spec fn spent(eta: Seq<Thousandths>, k: int) -> int
    decreases k,
{
    if k <= 0 {
        0
    } else {
        spent(eta, k - 1) + eta[k - 1].0
    }
}

/// The increments add up to the ladder: up a ladder that never falls, the
/// imaginary time spent by step `k` is the inverse temperature it reaches.
pub proof fn imaginary_time_reaches_beta(
    s: Schedule<Thousandths>,
    ladder: Seq<Thousandths>,
    top: Thousandths,
    steps: nat,
    per: nat,
    k: int,
)
    requires
        scheduled(s, ladder, top, steps, per),
        0 <= k < at_least_one(steps),
        ladder.len() == ladder_rungs(steps, per),
        ladder[0].0 >= 0,
        forall|a: int, b: int|
            0 <= a <= b < ladder.len() ==> (#[trigger] ladder[a]).0 <= (#[trigger] ladder[b]).0,
    ensures
        spent(s.eta@, k + 1) == beta_at(ladder, per, ladder_rungs(steps, per), k).0,
    decreases k,
{
    let rungs = ladder_rungs(steps, per);
    assert(s.eta@[k] == eta_of(ladder, per, rungs, k));
    lemma_rung_bounds(k as nat, per, rungs);
    if k > 0 {
        imaginary_time_reaches_beta(s, ladder, top, steps, per, k - 1);
        rungs_never_fall((k - 1) as nat, k as nat, per, rungs);
        lemma_rung_bounds((k - 1) as nat, per, rungs);
        assert(ladder[0].0 <= ladder[rung_of((k - 1) as nat, per, rungs)].0);
    } else {
        reveal_with_fuel(spent, 2);
    }
}

proof fn lemma_rung_bounds(k: nat, per: nat, rungs: nat)
    requires
        rungs > 0,
    ensures
        0 <= rung_of(k, per, rungs) < rungs,
{
    assert(0 <= k as int / at_least_one(per) as int) by (nonlinear_arith)
        requires
            at_least_one(per) >= 1,
            k >= 0,
    ;
}

/// The last step stands on the last rung.
pub proof fn the_last_rung_is_reached(steps: nat, per: nat)
    ensures
        rung_of((at_least_one(steps) - 1) as nat, per, ladder_rungs(steps, per)) == ladder_rungs(
            steps,
            per,
        ) - 1,
{
    let n = at_least_one(steps) as int;
    let p = at_least_one(per) as int;
    assert((n - 1) / p >= n / p - 1) by (nonlinear_arith)
        requires
            n >= 1,
            p >= 1,
    ;
    lemma_rung_bounds((n - 1) as nat, per, ladder_rungs(steps, per));
}

/// The transverse field is gone at the last step.
pub proof fn the_transverse_field_ends_at_zero(
    s: Schedule<Thousandths>,
    ladder: Seq<Thousandths>,
    top: Thousandths,
    steps: nat,
    per: nat,
)
    requires
        scheduled(s, ladder, top, steps, per),
        steps <= usize::MAX,
    ensures
        s.gamma@[at_least_one(steps) - 1] == Thousandths(0),
{
    let n = at_least_one(steps);
    assert(s.gamma@[n - 1] == gamma_of(top, n, n - 1));
    if n > 1 {
        let m = (n - 1) as nat;
        assert((m * 1000) as int / m as int == 1000) by (nonlinear_arith)
            requires
                m > 0,
        ;
        assert(Thousandths::fraction(m, m) == Thousandths(1000));
        assert(unit::<Thousandths>() == Thousandths(1000));
        let z = Thousandths(0);
        let size = crate::scalar::magnitude(top.0 as int);
        assert(size * 0 == 0) by (nonlinear_arith);
        assert(top.times(z) == z);
    }
}

/// A step whose rung is that of the step before it is held.
pub proof fn a_held_rung_runs_nothing<R: Scalar>(
    s: Schedule<R>,
    ladder: Seq<R>,
    top: R,
    steps: nat,
    per: nat,
    k: int,
)
    requires
        scheduled(s, ladder, top, steps, per),
        0 < k < at_least_one(steps),
        rung_of(k as nat, per, ladder_rungs(steps, per)) == rung_of(
            (k - 1) as nat,
            per,
            ladder_rungs(steps, per),
        ),
        forall|x: R| vanishes(#[trigger] x.minus(x)),
        forall|x: R| nil::<R>().reaches(x) ==> !nil::<R>().under(x),
        nil::<R>().reaches(nil()),
    ensures
        held(s.eta@[k]),
{
    assert(s.eta@[k] == eta_of(ladder, per, ladder_rungs(steps, per), k));
    let b = beta_at(ladder, per, ladder_rungs(steps, per), k);
    assert(vanishes(b.minus(b)));
}

} // verus!
