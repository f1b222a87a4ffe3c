//! The rules by which a draw accepts a flip or turns a spin.
//!
//! `exp` is the exponential of the scalar. `below` says whether a draw of 53
//! bits, read as a number in `[0, 1)`, falls below a probability.
use vstd::prelude::*;

use crate::ising::{
    flip_changes_energy_by_local_field, flipped, graph_energy, lattice, IsingGraph,
};
use crate::rng::{draw_from, draw_of};
use crate::reals::{
    lemma_group, lemma_product_above, lemma_spread, lemma_swap, lemma_trivial_factors,
};
use crate::sampler_core::spin_of;
use crate::scalar::{
    exact, exponential, lemma_exact_values, lemma_weight_value, one, unit, weight, weight_of,
    Scalar,
};
use crate::sweep::{answers_once, Answers};

verus! {

/// The exponent of an uphill flip against a field of `opposing` thousandths:
/// `-2 f beta`.
pub open spec fn uphill_exponent<R: Scalar>(beta: R, opposing: int) -> R {
    R::of_milli(-2000).times(weight_of::<R>(opposing)).times(beta)
}

/// `yes` is the Metropolis answer to a word of 64 random bits: whether its draw
/// falls below `exp(-2 f beta)`.
pub open spec fn metropolis_answer<R: Scalar, E: Fn(R) -> R, B: Fn(u64, R) -> bool>(
    exp: E,
    below: B,
    beta: R,
    opposing: int,
    word: u64,
    yes: bool,
) -> bool {
    exists|p: R| #[trigger]
        call_ensures(exp, (uphill_exponent(beta, opposing),), p) && call_ensures(
            below,
            (draw_of(word), p),
            yes,
        )
}

/// The Metropolis test of a flip that a field of `opposing` thousandths opposes.
pub fn metropolis_accept<R: Scalar, E: Fn(R) -> R, B: Fn(u64, R) -> bool>(
    exp: &E,
    below: &B,
    beta: R,
    opposing: i128,
    word: u64,
) -> (yes: bool)
    requires
        opposing > i128::MIN,
        forall|x: R| #[trigger] call_requires(*exp, (x,)),
        forall|bits: u64, p: R| #[trigger] call_requires(*below, (bits, p)),
    ensures
        metropolis_answer(*exp, *below, beta, opposing as int, word, yes),
{
    let x: R = R::from_milli(-2000).product(weight(opposing)).product(beta);
    let p: R = exp(x);
    let yes: bool = below(draw_from(word), p);
    assert(call_ensures(*exp, (uphill_exponent(beta, opposing as int),), p));
    yes
}

/// The exponent of the heat bath in a field of `field` thousandths: `2 beta f`,
/// kept between -500 and 500.
pub open spec fn bath_exponent<R: Scalar>(beta: R, field: int) -> R {
    let x = R::of_milli(2000).times(beta).times(weight_of::<R>(field));
    if x.under(R::of_milli(-500000)) {
        R::of_milli(-500000)
    } else if R::of_milli(500000).under(x) {
        R::of_milli(500000)
    } else {
        x
    }
}

/// `s` is the heat-bath spin of a draw: up where the draw falls below
/// `1 / (1 + exp(2 beta f))`.
pub open spec fn heat_bath_answer<R: Scalar, E: Fn(R) -> R, B: Fn(u64, R) -> bool>(
    exp: E,
    below: B,
    beta: R,
    field: int,
    bits: u64,
    s: i8,
) -> bool {
    exists|e: R| #[trigger]
        call_ensures(exp, (bath_exponent(beta, field),), e) && (s == 1 || s == -1) && call_ensures(
            below,
            (bits, unit::<R>().over(unit::<R>().plus(e))),
            s == 1,
        )
}

/// The heat-bath spin in a field of `field` thousandths for a draw of 53 bits.
pub fn heat_bath_spin<R: Scalar, E: Fn(R) -> R, B: Fn(u64, R) -> bool>(
    exp: &E,
    below: &B,
    beta: R,
    field: i128,
    bits: u64,
) -> (s: i8)
    requires
        field > i128::MIN,
        forall|x: R| #[trigger] call_requires(*exp, (x,)),
        forall|bits: u64, p: R| #[trigger] call_requires(*below, (bits, p)),
    ensures
        heat_bath_answer(*exp, *below, beta, field as int, bits, s),
{
    let x: R = R::from_milli(2000).product(beta).product(weight(field));
    let low: R = R::from_milli(-500000);
    let high: R = R::from_milli(500000);
    let kept: R = if x.less(low) {
        low
    } else if high.less(x) {
        high
    } else {
        x
    };
    let e: R = exp(kept);
    let up: bool = below(bits, one::<R>().quotient(one::<R>().sum(e)));
    assert(call_ensures(*exp, (bath_exponent(beta, field as int),), e));
    spin_of(up)
}

/// The exponent of a flip against a whole field of size `n`: `-2 beta n`.
pub open spec fn level_exponent<R: Scalar>(beta: R, n: nat) -> R {
    R::of_milli(-2000).times(beta).times(R::fraction(n, 1))
}

/// `x` is how many of the 2^64 words accept a flip against a whole field of size
/// `n`: as many as `cut` gives for `exp(-2 beta n)`, and all where that is no
/// less than 1.
pub open spec fn level_answer<R: Scalar, E: Fn(R) -> R, C: Fn(R) -> u64>(
    exp: E,
    cut: C,
    beta: R,
    n: nat,
    x: u64,
) -> bool {
    exists|p: R| #[trigger]
        call_ensures(exp, (level_exponent(beta, n),), p) && if p.reaches(unit()) {
            x == u64::MAX
        } else {
            call_ensures(cut, (p,), x)
        }
}

/// How many of the 2^64 words accept a flip against a whole field of size `n`.
pub fn level_of_field<R: Scalar, E: Fn(R) -> R, C: Fn(R) -> u64>(
    exp: &E,
    cut: &C,
    beta: R,
    n: usize,
) -> (x: u64)
    requires
        forall|x: R| #[trigger] call_requires(*exp, (x,)),
        forall|p: R| #[trigger] call_requires(*cut, (p,)),
    ensures
        level_answer(*exp, *cut, beta, n as nat, x),
{
    let p: R = exp(R::from_milli(-2000).product(beta).product(R::ratio(n, 1)));
    assert(call_ensures(*exp, (level_exponent(beta, n as nat),), p));
    if p.at_least(one()) {
        u64::MAX
    } else {
        cut(p)
    }
}

/// What a job decides its draws by: the inverse temperature of every rung, the
/// exponential, and the comparison of a draw with a probability.
pub struct Odds<R, E, B> {
    /// Inverse temperatures, hot to cold.
    pub ladder: Vec<R>,
    /// The exponential.
    pub exp: E,
    /// Whether a draw of 53 bits falls below a probability.
    pub below: B,
}

impl<R: Scalar, E: Fn(R) -> R, B: Fn(u64, R) -> bool> Odds<R, E, B> {
    /// Both functions answer every question.
    pub open spec fn total(&self) -> bool {
        &&& forall|x: R| #[trigger] call_requires(self.exp, (x,))
        &&& forall|bits: u64, p: R| #[trigger] call_requires(self.below, (bits, p))
    }

    /// Both functions answer the same question the same way twice.
    pub open spec fn steady(&self) -> bool {
        &&& forall|x: R, p: R, q: R| #[trigger]
            call_ensures(self.exp, (x,), p) && #[trigger] call_ensures(self.exp, (x,), q) ==> p == q
        &&& forall|bits: u64, p: R, y: bool, z: bool| #[trigger]
            call_ensures(self.below, (bits, p), y) && #[trigger] call_ensures(
                self.below,
                (bits, p),
                z,
            ) ==> y == z
    }

    /// `yes` is the answer of rung `b` to a flip that a field opposes.
    pub open spec fn accepts(&self, b: int, opposing: int, word: u64, yes: bool) -> bool {
        metropolis_answer(self.exp, self.below, self.ladder@[b], opposing, word, yes)
    }

    /// `s` is the spin that rung `b` draws in a field.
    pub open spec fn draws(&self, b: int, field: int, bits: u64, s: i8) -> bool {
        heat_bath_answer(self.exp, self.below, self.ladder@[b], field, bits, s)
    }

    /// What rung `b` answers.
    pub open spec fn answers(&self, b: int) -> Answers {
        |opposing: int, word: u64, yes: bool| self.accepts(b, opposing, word, yes)
    }

    /// A steady rung answers the same question once.
    pub proof fn lemma_answers_once(&self, b: int)
        requires
            self.steady(),
        ensures
            answers_once(self.answers(b)),
    {
    }

    /// The answer of rung `b` to a flip that a field of `opposing` thousandths
    /// opposes.
    pub fn accept(&self, b: usize, opposing: i128, word: u64) -> (yes: bool)
        requires
            self.total(),
            b < self.ladder@.len(),
            opposing > i128::MIN,
        ensures
            self.accepts(b as int, opposing as int, word, yes),
    {
        metropolis_accept(&self.exp, &self.below, self.ladder[b], opposing, word)
    }

    /// The spin that rung `b` draws in a field of `field` thousandths.
    pub fn draw(&self, b: usize, field: i128, bits: u64) -> (s: i8)
        requires
            self.total(),
            b < self.ladder@.len(),
            field > i128::MIN,
        ensures
            self.draws(b as int, field as int, bits, s),
    {
        heat_bath_spin(&self.exp, &self.below, self.ladder[b], field, bits)
    }
}

/// `below` compares the draw, as a number of 53 bits, with a probability.
pub open spec fn compares<R: Scalar, B: Fn(u64, R) -> bool>(
    val: spec_fn(R) -> real,
    below: B,
) -> bool {
    forall|bits: u64, p: R, yes: bool| #[trigger]
        call_ensures(below, (bits, p), yes) ==> (yes <==> (bits as real) < val(p)
            * 0x20_0000_0000_0000int as real)
}

/// A flip that raises the energy is taken with the Boltzmann chance: a word is
/// answered with yes exactly where its draw falls below `exp(-beta dE)` for the
/// change `dE` of the energy, in whole units.
pub proof fn uphill_flips_follow_boltzmann<R: Scalar, E: Fn(R) -> R, B: Fn(u64, R) -> bool>(
    val: spec_fn(R) -> real,
    e: spec_fn(real) -> real,
    odds: Odds<R, E, B>,
    g: IsingGraph,
    spins: Seq<i8>,
    v: int,
    b: int,
    word: u64,
    yes: bool,
)
    requires
        exact(val),
        exponential(val, odds.exp, e),
        compares(val, odds.below),
        lattice(g).fits_spins(spins),
        0 <= v < spins.len(),
        odds.answers(b)(-lattice(g).gain(spins, v), word, yes),
    ensures
        yes <==> ((word >> 11) as real) < e(
            -(val(odds.ladder@[b]) * ((graph_energy(g, flipped(spins, v)) - graph_energy(
                g,
                spins,
            )) as real / 1000int as real)),
        ) * 0x20_0000_0000_0000int as real,
{
    let opposing = -lattice(g).gain(spins, v);
    let beta = odds.ladder@[b];
    lemma_uphill_value(val, beta, opposing);
    flip_changes_energy_by_local_field(g, spins, v);
    let rise = graph_energy(g, flipped(spins, v)) - graph_energy(g, spins);
    assert(rise as real / 1000int as real == 2int as real * (opposing as real / 1000int as real));
    let p = choose|p: R| #[trigger]
        call_ensures(odds.exp, (uphill_exponent(beta, opposing),), p) && call_ensures(
            odds.below,
            (draw_of(word), p),
            yes,
        );
    assert(val(p) == e(val(uphill_exponent(beta, opposing))));
}

proof fn lemma_uphill_value<R: Scalar>(val: spec_fn(R) -> real, beta: R, opposing: int)
    requires
        exact(val),
    ensures
        val(uphill_exponent(beta, opposing)) == -(val(beta) * (2int as real * (opposing as real
            / 1000int as real))),
{
    let w = opposing as real / 1000int as real;
    let t = val(beta);
    lemma_weight_value::<R>(val, opposing);
    assert(val(R::of_milli(-2000)) == -2000int as real / 1000int as real);
    assert(val(R::of_milli(-2000)) == -2int as real);
    lemma_swap(-2int as real * w, t);
    lemma_spread(t, 0int as real, 2int as real * w);
    lemma_trivial_factors(t);
    lemma_spread(w, 0int as real, 2int as real);
    lemma_trivial_factors(w);
    assert(0int as real - 2int as real == -2int as real);
}

/// The heat bath turns a spin up with the Boltzmann chance: exactly where the draw
/// falls below `1 / (1 + exp(beta dE))` for the energy `dE` by which up lies above
/// down, in whole units, as long as `beta dE` lies within 500 of 0.
pub proof fn heat_bath_follows_boltzmann<R: Scalar, E: Fn(R) -> R, B: Fn(u64, R) -> bool>(
    val: spec_fn(R) -> real,
    e: spec_fn(real) -> real,
    odds: Odds<R, E, B>,
    g: IsingGraph,
    spins: Seq<i8>,
    v: int,
    b: int,
    x: real,
    bits: u64,
    s: i8,
)
    requires
        exact(val),
        exponential(val, odds.exp, e),
        compares(val, odds.below),
        lattice(g).fits_spins(spins),
        0 <= v < spins.len(),
        spins[v] == 1,
        x == val(odds.ladder@[b]) * ((graph_energy(g, spins) - graph_energy(
            g,
            flipped(spins, v),
        )) as real / 1000int as real),
        -500int as real <= x <= 500int as real,
        odds.draws(b, lattice(g).field(spins, v), bits, s),
    ensures
        s == 1 || s == -1,
        s == 1 <==> (bits as real) < (1int as real / (1int as real + e(x)))
            * 0x20_0000_0000_0000int as real,
{
    let field = lattice(g).field(spins, v);
    let beta = odds.ladder@[b];
    let t = val(beta);
    let w = field as real / 1000int as real;
    flip_changes_energy_by_local_field(g, spins, v);
    assert(lattice(g).gain(spins, v) == field);
    let drop = graph_energy(g, spins) - graph_energy(g, flipped(spins, v));
    assert(drop as real / 1000int as real == 2int as real * w);
    lemma_weight_value::<R>(val, field);
    assert(val(R::of_milli(2000)) == 2000int as real / 1000int as real);
    assert(val(R::of_milli(-500000)) == -500000int as real / 1000int as real);
    assert(val(R::of_milli(500000)) == 500000int as real / 1000int as real);
    let raw = R::of_milli(2000).times(beta).times(weight_of::<R>(field));
    assert(val(raw) == (2int as real * t) * w);
    lemma_swap(2int as real, t);
    lemma_group(t, 2int as real, w);
    assert(val(raw) == x);
    assert(bath_exponent(beta, field) == raw);
    let p = choose|p: R| #[trigger]
        call_ensures(odds.exp, (bath_exponent(beta, field),), p) && (s == 1 || s == -1)
            && call_ensures(odds.below, (bits, unit::<R>().over(unit::<R>().plus(p))), s == 1);
    lemma_exact_values(val, p);
    assert(val(p) == e(x));
    assert(e(x) > 0int as real);
    assert(val(unit::<R>().plus(p)) == 1int as real + e(x));
}

/// The levels of a whole field are the chances of the Metropolis test: a field of
/// `n` units has the exponent that it has in thousandths.
pub proof fn levels_keep_the_exponent<R: Scalar>(val: spec_fn(R) -> real, beta: R, n: nat)
    requires
        exact(val),
    ensures
        val(level_exponent(beta, n)) == val(uphill_exponent(beta, 1000 * n as int)),
        val(level_exponent(beta, n)) == -(val(beta) * (2int as real * n as real)),
{
    let t = val(beta);
    lemma_uphill_value(val, beta, 1000 * n as int);
    assert((1000 * n as int) as real / 1000int as real == n as real);
    assert(val(R::of_milli(-2000)) == -2000int as real / 1000int as real);
    assert(val(R::of_milli(-2000)) == -2int as real);
    assert(val(R::fraction(n, 1)) == n as real / 1nat as real);
    assert(val(level_exponent(beta, n)) == (-2int as real * t) * n as real);
    lemma_swap(-2int as real, t);
    lemma_group(t, -2int as real, n as real);
    lemma_spread(t, 0int as real, 2int as real * n as real);
    lemma_trivial_factors(t);
    lemma_spread(n as real, 0int as real, 2int as real);
    lemma_trivial_factors(n as real);
    assert(0int as real - 2int as real == -2int as real);
}

/// A stronger opposing field never has a higher level, at an inverse temperature
/// that is not below 0.
pub proof fn levels_fall_with_the_field<R: Scalar, E: Fn(R) -> R, C: Fn(R) -> u64>(
    val: spec_fn(R) -> real,
    e: spec_fn(real) -> real,
    exp: E,
    cut: C,
    beta: R,
    n: nat,
    m: nat,
    x: u64,
    y: u64,
)
    requires
        exact(val),
        exponential(val, exp, e),
        forall|p: R, q: R, a: u64, b: u64| #[trigger]
            call_ensures(cut, (p,), a) && #[trigger] call_ensures(cut, (q,), b) && val(p) <= val(q)
                ==> a <= b,
        val(beta) >= 0int as real,
        n <= m,
        level_answer(exp, cut, beta, n, x),
        level_answer(exp, cut, beta, m, y),
    ensures
        y <= x,
{
    let t = val(beta);
    levels_keep_the_exponent(val, beta, n);
    levels_keep_the_exponent(val, beta, m);
    let (a, b) = (2int as real * n as real, 2int as real * m as real);
    assert(t * a <= t * b) by {
        lemma_spread(t, b, a);
        if a < b && t > 0int as real {
            lemma_product_above(t, b - a);
        } else {
            lemma_trivial_factors(b - a);
            lemma_trivial_factors(t);
        }
    }
    let p = choose|p: R| #[trigger]
        call_ensures(exp, (level_exponent(beta, n),), p) && if p.reaches(unit()) {
            x == u64::MAX
        } else {
            call_ensures(cut, (p,), x)
        };
    let q = choose|q: R| #[trigger]
        call_ensures(exp, (level_exponent(beta, m),), q) && if q.reaches(unit()) {
            y == u64::MAX
        } else {
            call_ensures(cut, (q,), y)
        };
    assert(val(p) == e(-(t * a)));
    assert(val(q) == e(-(t * b)));
    assert(val(q) <= val(p)) by {
        if -(t * b) < -(t * a) {
            assert(e(-(t * b)) < e(-(t * a)));
        }
    }
}

} // verus!
