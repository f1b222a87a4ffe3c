//! Globally guided simulated bifurcation.
//!
//! All reads of a job advance in lockstep. Each step, the trajectory of lowest
//! energy leads, and every trajectory is pulled toward the leader's position by
//! a guidance term that is annealed, damped by its distance, reversed when it
//! opposes the trajectory's momentum, and smoothed over time. After the position
//! update a coordinate may be shifted by a constant.
//!
//! With a field, the leader's position is aligned to the gauge of each
//! trajectory before the difference is taken.
use vstd::prelude::*;

use crate::ising::{lattice, IsingGraph, Lattice};
use crate::reals::{
    lemma_negated, lemma_scaled_order, lemma_spread, lemma_swap, lemma_trivial_factors,
};
use crate::rng::{
    drawn_from, read_seed_of, reads_of_a_job_have_distinct_seeds, seeded, Draw, Source,
};
use crate::sampler_core::{
    at_least_one, or_one, score_spins, scored, SampleParams, SamplerResult,
};
use crate::sb_core::{
    act_all, all_acting, biased, draw_start, drawn_start, draws_starts, evolved, gauge_fixed_spins,
    gauged_spins, lemma_start_extends, particles, pull_on, restore_at, restoring, sb_end,
    sb_results, scaled, start_on, stepped, wall, walled, walls_stop_a_particle, zero_is_neutral,
    Coupling, Phase, SbGraph, SbVariant,
};
use crate::scalar::{
    copy_scalars, exact, lemma_exact_values, nil, one, opposite, pair_sum, sum_pairs, unit, zero,
    zeros, Scalar,
};

verus! {

/// Settings of the guidance, in thousandths.
#[derive(Debug, Clone, Copy, PartialEq, Eq, Structural)]
pub struct GgsbConfig {
    /// Constant subtracted from a shifted coordinate. Zero disables the shift.
    pub perturb_milli: i32,
    /// Cosine threshold below which a trajectory's guidance is negated as a
    /// whole.
    pub flip_milli: i32,
}

impl Default for GgsbConfig {
    fn default() -> (c: Self)
        ensures
            c == (GgsbConfig { perturb_milli: 10, flip_milli: 50 }),
    {
        GgsbConfig { perturb_milli: 10, flip_milli: 50 }
    }
}

/// `q` is the chance at time `u` that a coordinate is shifted,
/// `0.1 + 0.45 (1 + cos(pi u))`: from 1 at the start down to 0.1.
pub open spec fn is_perturb_probability<R: Scalar, C: Fn(R) -> R>(cos_pi: C, u: R, q: R) -> bool {
    exists|c: R| #[trigger]
        call_ensures(cos_pi, (u,), c) && q == R::of_milli(100).plus(
            R::of_milli(450).times(unit::<R>().plus(c)),
        )
}

/// The chance at time `u` that a coordinate is shifted. `cos_pi` gives the cosine
/// of pi times its argument.
pub fn perturb_probability<R: Scalar, C: Fn(R) -> R>(cos_pi: &C, u: R) -> (q: R)
    requires
        forall|x: R| #[trigger] call_requires(*cos_pi, (x,)),
    ensures
        is_perturb_probability(*cos_pi, u, q),
{
    let c: R = cos_pi(u);
    R::from_milli(100).sum(R::from_milli(450).product(one::<R>().sum(c)))
}

/// Smoothing coefficient at time `u`: from 0.9 down to 0.5.
pub open spec fn smoothing<R: Scalar>(u: R) -> R {
    R::of_milli(900).minus(R::of_milli(400).times(u))
}

/// Smoothing coefficient at time `u`: from 0.9 down to 0.5.
pub fn ema_coefficient<R: Scalar>(u: R) -> (r: R)
    ensures
        r == smoothing(u),
{
    R::from_milli(900).difference(R::from_milli(400).product(u))
}

/// Annealing weight of the guidance at time `u`: from 1 down to 0.
pub fn guidance_weight<R: Scalar>(u: R) -> (r: R)
    ensures
        r == unit::<R>().minus(u),
{
    one::<R>().difference(u)
}

/// The lowest of the first `k` energies; the first of equals.
pub open spec fn leader_of<R: Scalar>(energies: Seq<R>, k: int) -> int
    decreases k,
{
    if k <= 1 {
        0
    } else {
        let best = leader_of(energies, k - 1);
        if energies[k - 1].under(energies[best]) {
            k - 1
        } else {
            best
        }
    }
}

/// Index of the lowest energy; the lowest index on ties.
pub fn leader<R: Scalar>(energies: &Vec<R>) -> (best: usize)
    requires
        energies@.len() > 0,
    ensures
        best == leader_of(energies@, energies@.len() as int),
        best < energies@.len(),
{
    let mut best: usize = 0;
    let mut r: usize = 1;
    while r < energies.len()
        invariant
            1 <= r <= energies@.len(),
            best < r,
            best == leader_of(energies@, r as int),
        decreases energies@.len() - r,
    {
        if energies[r].less(energies[best]) {
            best = r;
        }
        r = r + 1;
    }
    best
}

/// No energy is below the leader's, and every one before it is above it, where
/// the comparison is a strict weak order on the energies.
pub proof fn leader_is_lowest_and_first<R: Scalar>(energies: Seq<R>, k: int, i: int)
    requires
        0 <= i < k <= energies.len(),
        forall|a: R| !(#[trigger] a.under(a)),
        forall|a: R, b: R, c: R|
            #![trigger a.under(b), b.under(c)]
            a.under(b) && b.under(c) ==> a.under(c),
        forall|a: R, b: R, c: R|
            #![trigger a.under(b), a.under(c)]
            a.under(b) ==> a.under(c) || c.under(b),
    ensures
        0 <= leader_of(energies, k) < k,
        !energies[i].under(energies[leader_of(energies, k)]),
        i < leader_of(energies, k) ==> energies[leader_of(energies, k)].under(energies[i]),
    decreases k,
{
    if k > 1 {
        let best = leader_of(energies, k - 1);
        leader_is_lowest_and_first(energies, k - 1, 0);
        if i < k - 1 {
            leader_is_lowest_and_first(energies, k - 1, i);
            let (e, b, x) = (energies[k - 1], energies[best], energies[i]);
            if e.under(b) {
                assert(e.under(x) || x.under(b));
                if x.under(e) {
                    assert(e.under(x));
                    assert(x.under(x));
                }
            }
        } else {
            assert(!energies[i].under(energies[i]));
        }
    }
}

/// The way from `x` to the leader's position.
pub open spec fn way<R: Scalar>(gbest: Seq<R>, gauge: R, x: Seq<R>) -> Seq<R> {
    Seq::new(x.len(), |i: int| gauge.times(gbest[i]).minus(x[i]))
}

/// Every entry of `d` times `scale`.
pub open spec fn stretched<R: Scalar>(d: Seq<R>, scale: R) -> Seq<R> {
    Seq::new(d.len(), |i: int| d[i].times(scale))
}

/// Every entry of `d` negated.
pub open spec fn reversed<R: Scalar>(d: Seq<R>) -> Seq<R> {
    Seq::new(d.len(), |i: int| opposite(d[i]))
}

/// `a`, at least a hundred-millionth.
pub open spec fn floored<R: Scalar>(a: R) -> R {
    if a.reaches(R::fraction(1, 100_000_000)) {
        a
    } else {
        R::fraction(1, 100_000_000)
    }
}

/// The cosine of two vectors; 0 where either is 0.
pub open spec fn cosine<R: Scalar>(g: Seq<R>, y: Seq<R>) -> R {
    let m = g.len() as int;
    pair_sum(g, y, m).over(floored(pair_sum(g, g, m).root().times(pair_sum(y, y, m).root())))
}

/// The guidance of one trajectory: `w / (1 + distance)` of the way to the
/// leader, negated as a whole when its cosine with the momentum is below `-b`.
pub open spec fn guided<R: Scalar>(
    gbest: Seq<R>,
    gauge: R,
    x: Seq<R>,
    y: Seq<R>,
    w: R,
    b: R,
) -> Seq<R> {
    let d = way(gbest, gauge, x);
    let scale = w.over(unit::<R>().plus(pair_sum(d, d, d.len() as int).root()));
    let g = stretched(d, scale);
    if cosine(g, y).under(opposite(b)) {
        reversed(g)
    } else {
        g
    }
}

/// Fill `guid` with the guidance for one trajectory.
pub fn guidance_into<R: Scalar>(
    guid: &mut Vec<R>,
    gbest: &Vec<R>,
    gauge: R,
    x: &Vec<R>,
    y: &Vec<R>,
    w: R,
    b: R,
)
    requires
        old(guid)@.len() == x@.len(),
        gbest@.len() == x@.len(),
        y@.len() == x@.len(),
    ensures
        final(guid)@ == guided(gbest@, gauge, x@, y@, w, b),
{
    let m: usize = x.len();
    let ghost d = way(gbest@, gauge, x@);
    let mut i: usize = 0;
    while i < m
        invariant
            m == x@.len(),
            gbest@.len() == m,
            guid@.len() == m,
            d == way(gbest@, gauge, x@),
            i <= m,
            forall|k: int| 0 <= k < i ==> #[trigger] guid@[k] == d[k],
        decreases m - i,
    {
        guid[i] = gauge.product(gbest[i]).difference(x[i]);
        i = i + 1;
    }
    assert(guid@ =~= d);
    let norm2: R = sum_pairs(guid, guid);
    let scale: R = w.quotient(one::<R>().sum(norm2.square_root()));
    let ghost g = stretched(d, scale);
    let mut i: usize = 0;
    while i < m
        invariant
            m == d.len(),
            guid@.len() == m,
            g == stretched(d, scale),
            i <= m,
            forall|k: int| 0 <= k < i ==> #[trigger] guid@[k] == g[k],
            forall|k: int| i <= k < m ==> #[trigger] guid@[k] == d[k],
        decreases m - i,
    {
        guid[i] = guid[i].product(scale);
        i = i + 1;
    }
    assert(guid@ =~= g);
    let dot: R = sum_pairs(guid, y);
    let size: R = sum_pairs(guid, guid).square_root().product(sum_pairs(y, y).square_root());
    let tiny: R = R::ratio(1, 100_000_000);
    let floor: R = if size.at_least(tiny) {
        size
    } else {
        tiny
    };
    let minus: R = R::from_milli(-1000);
    if dot.quotient(floor).less(minus.product(b)) {
        let mut i: usize = 0;
        while i < m
            invariant
                m == g.len(),
                guid@.len() == m,
                minus == R::of_milli(-1000),
                i <= m,
                forall|k: int| 0 <= k < i ==> #[trigger] guid@[k] == opposite(g[k]),
                forall|k: int| i <= k < m ==> #[trigger] guid@[k] == g[k],
            decreases m - i,
        {
            guid[i] = minus.product(guid[i]);
            i = i + 1;
        }
        assert(guid@ =~= reversed(g));
    }
}

/// The coupling sums on all particles, with `c` acting.
pub open spec fn pulls<R: Scalar>(l: Lattice, c: Seq<R>) -> Seq<R> {
    Seq::new(c.len(), |i: int| pull_on(l, c, i))
}

/// The coupling sums on all particles.
pub fn coupling_sums<R: Scalar>(g: &SbGraph<R>, coupled: &Vec<R>) -> (forces: Vec<R>)
    requires
        g.wf(),
        coupled@.len() == particles(g.lattice()),
    ensures
        forces@ == pulls(g.lattice(), coupled@),
{
    let mut forces: Vec<R> = Vec::with_capacity(coupled.len());
    let mut i: usize = 0;
    while i < coupled.len()
        invariant
            g.wf(),
            coupled@.len() == particles(g.lattice()),
            i <= coupled@.len(),
            forces@.len() == i,
            forall|k: int| 0 <= k < i ==> #[trigger] forces@[k] == pull_on(g.lattice(), coupled@, k),
        decreases coupled@.len() - i,
    {
        forces.push(g.pull(coupled, i));
        i = i + 1;
    }
    assert(forces@ =~= pulls(g.lattice(), coupled@));
    forces
}

/// Energy of the signs of `x`: half the sum of each sign times the coupling sum
/// on it.
pub open spec fn extended<R: Scalar>(l: Lattice, x: Seq<R>) -> R {
    let signs = all_acting(Coupling::Discrete, x);
    R::of_milli(500).times(pair_sum(signs, pulls(l, signs), signs.len() as int))
}

/// Energy of the signs of `x`. The discrete form has the coupling sums of the
/// signs at hand in `forces`; the continuous form computes them.
pub fn extended_energy<R: Scalar>(
    g: &SbGraph<R>,
    form: Coupling,
    x: &Vec<R>,
    coupled: &Vec<R>,
    forces: &Vec<R>,
) -> (e: R)
    requires
        g.wf(),
        x@.len() == particles(g.lattice()),
        coupled@ == all_acting(form, x@),
        forces@ == pulls(g.lattice(), coupled@),
    ensures
        e == extended(g.lattice(), x@),
{
    let half: R = R::from_milli(500);
    match form {
        Coupling::Discrete => half.product(sum_pairs(coupled, forces)),
        Coupling::Continuous => {
            let signs = act_all(Coupling::Discrete, x);
            let sums = coupling_sums(g, &signs);
            half.product(sum_pairs(&signs, &sums))
        },
    }
}

/// All trajectories of a job, and the smoothed guidance of each.
#[verifier::ext_equal]
pub struct Swarm<R> {
    /// Positions and momenta.
    pub at: Seq<Phase<R>>,
    /// Smoothed guidance.
    pub drift: Seq<Seq<R>>,
}

/// A swarm of `b` trajectories of `m` particles.
pub open spec fn swarm_fits<R>(s: Swarm<R>, b: nat, m: nat) -> bool {
    &&& s.at.len() == b
    &&& s.drift.len() == b
    &&& forall|r: int|
        0 <= r < b ==> (#[trigger] s.at[r]).x.len() == m && s.at[r].y.len() == m
    &&& forall|r: int| 0 <= r < b ==> (#[trigger] s.drift[r]).len() == m
}

/// The position of the leader.
pub open spec fn best_of<R: Scalar>(l: Lattice, s: Swarm<R>) -> Seq<R> {
    let energies = Seq::new(s.at.len(), |r: int| extended(l, s.at[r].x));
    s.at[leader_of(energies, energies.len() as int)].x
}

/// The sign that aligns the leader to a trajectory at `x`.
pub open spec fn aligned<R: Scalar>(l: Lattice, gbest: Seq<R>, x: Seq<R>) -> R {
    let n = l.h.len() as int;
    if biased(l) && gbest[n].under(nil()) != x[n].under(nil()) {
        R::of_milli(-1000)
    } else {
        unit()
    }
}

/// The smoothed guidance of a trajectory after taking in `guid`.
pub open spec fn smoothed<R: Scalar>(ema: R, drift: Seq<R>, guid: Seq<R>) -> Seq<R> {
    Seq::new(
        drift.len(),
        |i: int| ema.times(drift[i]).plus(unit::<R>().minus(ema).times(guid[i])),
    )
}

/// One particle after a guided step.
pub open spec fn swept<R: Scalar>(
    restore: R,
    c0: R,
    amplitude: R,
    x: R,
    y: R,
    f: R,
    v: R,
    hit: bool,
) -> (R, R) {
    let kicked = y.plus(restore.times(x).minus(c0.times(f)).plus(v));
    let free = x.plus(kicked);
    walled(
        if hit {
            free.minus(amplitude)
        } else {
            free
        },
        kicked,
    )
}

/// One trajectory after a guided step.
pub open spec fn driven<R: Scalar>(
    l: Lattice,
    c0: R,
    form: Coupling,
    restore: R,
    amplitude: R,
    s: Phase<R>,
    drift: Seq<R>,
    hits: Seq<bool>,
) -> Phase<R> {
    let f = pulls(l, all_acting(form, s.x));
    Phase {
        x: Seq::new(
            s.x.len(),
            |i: int| swept(restore, c0, amplitude, s.x[i], s.y[i], f[i], drift[i], hits[i]).0,
        ),
        y: Seq::new(
            s.x.len(),
            |i: int| swept(restore, c0, amplitude, s.x[i], s.y[i], f[i], drift[i], hits[i]).1,
        ),
    }
}

/// The smoothed guidance of trajectory `r` at step `k`.
pub open spec fn drift_at<R: Scalar>(
    l: Lattice,
    cfg: GgsbConfig,
    n_step: nat,
    k: nat,
    s: Swarm<R>,
    r: int,
) -> Seq<R> {
    let u = R::fraction(k, n_step);
    let gbest = best_of(l, s);
    let x = s.at[r].x;
    smoothed(
        smoothing(u),
        s.drift[r],
        guided(
            gbest,
            aligned(l, gbest, x),
            x,
            s.at[r].y,
            unit::<R>().minus(u),
            R::of_milli(cfg.flip_milli as int),
        ),
    )
}

/// The swarm after step `k`. `hits` says which coordinates are shifted.
pub open spec fn swarm_stepped<R: Scalar>(
    l: Lattice,
    c0: R,
    form: Coupling,
    cfg: GgsbConfig,
    n_step: nat,
    k: nat,
    hits: Seq<Seq<bool>>,
    s: Swarm<R>,
) -> Swarm<R> {
    let drift = Seq::new(s.at.len(), |r: int| drift_at(l, cfg, n_step, k, s, r));
    Swarm {
        at: Seq::new(
            s.at.len(),
            |r: int|
                driven(
                    l,
                    c0,
                    form,
                    restoring(k, n_step),
                    R::of_milli(cfg.perturb_milli as int),
                    s.at[r],
                    drift[r],
                    hits[r],
                ),
        ),
        drift,
    }
}

/// The swarm after the first `k` of `n_step` steps.
pub open spec fn swarm_at<R: Scalar>(
    l: Lattice,
    c0: R,
    form: Coupling,
    cfg: GgsbConfig,
    n_step: nat,
    k: nat,
    hits: Seq<Seq<Seq<bool>>>,
    s: Swarm<R>,
) -> Swarm<R>
    decreases k,
{
    if k == 0 {
        s
    } else {
        swarm_stepped(
            l,
            c0,
            form,
            cfg,
            n_step,
            (k - 1) as nat,
            hits[k - 1],
            swarm_at(l, c0, form, cfg, n_step, (k - 1) as nat, hits, s),
        )
    }
}

proof fn lemma_swarm_prefix<R: Scalar>(
    l: Lattice,
    c0: R,
    form: Coupling,
    cfg: GgsbConfig,
    n_step: nat,
    k: nat,
    a: Seq<Seq<Seq<bool>>>,
    b: Seq<Seq<Seq<bool>>>,
    s: Swarm<R>,
)
    requires
        k <= a.len(),
        k <= b.len(),
        forall|i: int| 0 <= i < k ==> a[i] == b[i],
    ensures
        swarm_at(l, c0, form, cfg, n_step, k, a, s) == swarm_at(l, c0, form, cfg, n_step, k, b, s),
    decreases k,
{
    if k > 0 {
        lemma_swarm_prefix(l, c0, form, cfg, n_step, (k - 1) as nat, a, b, s);
    }
}

/// All trajectories of a job while they run.
pub struct SwarmState<R> {
    /// Positions.
    pub xs: Vec<Vec<R>>,
    /// Momenta.
    pub ys: Vec<Vec<R>>,
    /// Smoothed guidance.
    pub drift: Vec<Vec<R>>,
}

impl<R> View for SwarmState<R> {
    type V = Swarm<R>;

    open spec fn view(&self) -> Swarm<R> {
        Swarm {
            at: Seq::new(self.xs@.len(), |r: int| Phase { x: self.xs@[r]@, y: self.ys@[r]@ }),
            drift: Seq::new(self.drift@.len(), |r: int| self.drift@[r]@),
        }
    }
}

/// `b` trajectories of `m` particles.
pub open spec fn state_fits<R>(s: SwarmState<R>, b: nat, m: nat) -> bool {
    &&& s.xs@.len() == b
    &&& s.ys@.len() == b
    &&& s.drift@.len() == b
    &&& forall|r: int| 0 <= r < b ==> (#[trigger] s.xs@[r])@.len() == m
    &&& forall|r: int| 0 <= r < b ==> (#[trigger] s.ys@[r])@.len() == m
    &&& forall|r: int| 0 <= r < b ==> (#[trigger] s.drift@[r])@.len() == m
}

/// The coupling sums of every trajectory, and the position of the leader.
fn survey<R: Scalar>(g: &SbGraph<R>, form: Coupling, s: &SwarmState<R>, Ghost(b): Ghost<nat>) -> (r: (
    Vec<Vec<R>>,
    Vec<R>,
))
    requires
        g.wf(),
        b > 0,
        state_fits(*s, b, particles(g.lattice())),
    ensures
        r.0@.len() == b,
        forall|i: int|
            0 <= i < b ==> (#[trigger] r.0@[i])@ == pulls(
                g.lattice(),
                all_acting(form, s.xs@[i]@),
            ),
        r.1@ == best_of(g.lattice(), s@),
        r.1@.len() == particles(g.lattice()),
{
    let mut forces: Vec<Vec<R>> = Vec::new();
    let mut energies: Vec<R> = Vec::new();
    let mut r: usize = 0;
    while r < s.xs.len()
        invariant
            g.wf(),
            state_fits(*s, b, particles(g.lattice())),
            r <= b,
            forces@.len() == r,
            energies@.len() == r,
            forall|i: int|
                0 <= i < r ==> (#[trigger] forces@[i])@ == pulls(
                    g.lattice(),
                    all_acting(form, s.xs@[i]@),
                ),
            forall|i: int|
                0 <= i < r ==> #[trigger] energies@[i] == extended(g.lattice(), s.xs@[i]@),
        decreases s.xs@.len() - r,
    {
        let coupled = act_all(form, &s.xs[r]);
        let f = coupling_sums(g, &coupled);
        energies.push(extended_energy(g, form, &s.xs[r], &coupled, &f));
        forces.push(f);
        r = r + 1;
    }
    let best: usize = leader(&energies);
    proof {
        let named = Seq::new(b, |i: int| extended(g.lattice(), s@.at[i].x));
        assert(named =~= energies@);
        assert(s@.at.len() == b);
    }
    (forces, copy_scalars(&s.xs[best]))
}

/// The smoothed guidance of one trajectory after taking in a new one.
fn smooth<R: Scalar>(ema: R, drift: &Vec<R>, guid: &Vec<R>) -> (r: Vec<R>)
    requires
        drift@.len() == guid@.len(),
    ensures
        r@ == smoothed(ema, drift@, guid@),
{
    let rest: R = one::<R>().difference(ema);
    let mut r: Vec<R> = Vec::with_capacity(drift.len());
    let mut i: usize = 0;
    while i < drift.len()
        invariant
            drift@.len() == guid@.len(),
            rest == unit::<R>().minus(ema),
            i <= drift@.len(),
            r@.len() == i,
            forall|k: int|
                0 <= k < i ==> #[trigger] r@[k] == ema.times(drift@[k]).plus(
                    unit::<R>().minus(ema).times(guid@[k]),
                ),
        decreases drift@.len() - i,
    {
        r.push(ema.product(drift[i]).sum(rest.product(guid[i])));
        i = i + 1;
    }
    assert(r@ =~= smoothed(ema, drift@, guid@));
    r
}

/// Advance one trajectory by a guided step.
fn drive<R: Scalar>(
    restore: R,
    c0: R,
    amplitude: R,
    forces: &Vec<R>,
    drift: &Vec<R>,
    hits: &Vec<bool>,
    x: &Vec<R>,
    y: &Vec<R>,
) -> (r: (Vec<R>, Vec<R>))
    requires
        forces@.len() == x@.len(),
        drift@.len() == x@.len(),
        hits@.len() == x@.len(),
        y@.len() == x@.len(),
    ensures
        r.0@.len() == x@.len(),
        r.1@.len() == x@.len(),
        forall|i: int|
            0 <= i < x@.len() ==> (#[trigger] r.0@[i], r.1@[i]) == swept(
                restore,
                c0,
                amplitude,
                x@[i],
                y@[i],
                forces@[i],
                drift@[i],
                hits@[i],
            ),
{
    let mut nx: Vec<R> = Vec::with_capacity(x.len());
    let mut ny: Vec<R> = Vec::with_capacity(x.len());
    let mut i: usize = 0;
    while i < x.len()
        invariant
            forces@.len() == x@.len(),
            drift@.len() == x@.len(),
            hits@.len() == x@.len(),
            y@.len() == x@.len(),
            i <= x@.len(),
            nx@.len() == i,
            ny@.len() == i,
            forall|k: int|
                0 <= k < i ==> (#[trigger] nx@[k], ny@[k]) == swept(
                    restore,
                    c0,
                    amplitude,
                    x@[k],
                    y@[k],
                    forces@[k],
                    drift@[k],
                    hits@[k],
                ),
        decreases x@.len() - i,
    {
        let kicked: R = y[i].sum(
            restore.product(x[i]).difference(c0.product(forces[i])).sum(drift[i]),
        );
        let free: R = x[i].sum(kicked);
        let shifted: R = if hits[i] {
            free.difference(amplitude)
        } else {
            free
        };
        let (a, b) = wall(shifted, kicked);
        nx.push(a);
        ny.push(b);
        i = i + 1;
    }
    (nx, ny)
}

/// Advance all trajectories by step `k`. `hits` says which coordinates are
/// shifted.
pub fn swarm_step<R: Scalar>(
    g: &SbGraph<R>,
    form: Coupling,
    cfg: GgsbConfig,
    n_step: usize,
    k: usize,
    hits: &Vec<Vec<bool>>,
    s: &SwarmState<R>,
) -> (next: SwarmState<R>)
    requires
        g.wf(),
        k < n_step,
        s.xs@.len() > 0,
        state_fits(*s, s.xs@.len(), particles(g.lattice())),
        hits@.len() == s.xs@.len(),
        forall|r: int|
            0 <= r < hits@.len() ==> (#[trigger] hits@[r])@.len() == particles(g.lattice()),
    ensures
        state_fits(next, s.xs@.len(), particles(g.lattice())),
        next@ == swarm_stepped(
            g.lattice(),
            g.scale(),
            form,
            cfg,
            n_step as nat,
            k as nat,
            Seq::new(hits@.len(), |r: int| hits@[r]@),
            s@,
        ),
{
    let ghost b = s.xs@.len();
    let ghost m = particles(g.lattice());
    let ghost l = g.lattice();
    let ghost flags = Seq::new(hits@.len(), |r: int| hits@[r]@);
    let u: R = R::ratio(k, n_step);
    let restore: R = restore_at(k, n_step);
    let ema: R = ema_coefficient(u);
    let w: R = guidance_weight(u);
    let threshold: R = R::from_milli(cfg.flip_milli);
    let amplitude: R = R::from_milli(cfg.perturb_milli);
    let c0: R = g.c0();
    let n: usize = g.num_nodes();
    let has_bias: bool = g.has_bias();
    let (forces, gbest) = survey(g, form, s, Ghost(b));
    let mut next = SwarmState { xs: Vec::new(), ys: Vec::new(), drift: Vec::new() };
    let ghost target = swarm_stepped(
        l,
        g.scale(),
        form,
        cfg,
        n_step as nat,
        k as nat,
        flags,
        s@,
    );
    let mut guid: Vec<R> = zeros(gbest.len());
    let mut r: usize = 0;
    while r < s.xs.len()
        invariant
            b == s.xs@.len(),
            m == particles(l),
            biased(l) ==> m == n + 1,
            n == l.h.len(),
            has_bias == biased(l),
            state_fits(*s, b, m),
            hits@.len() == b,
            forall|i: int| 0 <= i < hits@.len() ==> (#[trigger] hits@[i])@.len() == m,
            forces@.len() == b,
            forall|i: int|
                0 <= i < b ==> (#[trigger] forces@[i])@ == pulls(l, all_acting(form, s.xs@[i]@)),
            gbest@ == best_of(l, s@),
            gbest@.len() == m,
            guid@.len() == m,
            u == R::fraction(k as nat, n_step as nat),
            restore == restoring::<R>(k as nat, n_step as nat),
            ema == smoothing(u),
            w == unit::<R>().minus(u),
            threshold == R::of_milli(cfg.flip_milli as int),
            amplitude == R::of_milli(cfg.perturb_milli as int),
            c0 == g.scale(),
            flags == Seq::new(hits@.len(), |i: int| hits@[i]@),
            target == swarm_stepped(
                l,
                g.scale(),
                form,
                cfg,
                n_step as nat,
                k as nat,
                flags,
                s@,
            ),
            r <= b,
            state_fits(next, r as nat, m),
            forall|i: int| 0 <= i < r ==> (#[trigger] next.xs@[i])@ == target.at[i].x,
            forall|i: int| 0 <= i < r ==> (#[trigger] next.ys@[i])@ == target.at[i].y,
            forall|i: int| 0 <= i < r ==> (#[trigger] next.drift@[i])@ == target.drift[i],
        decreases b - r,
    {
        assert(s@.at[r as int] == (Phase { x: s.xs@[r as int]@, y: s.ys@[r as int]@ }));
        assert(s@.drift[r as int] == s.drift@[r as int]@);
        let opposed: bool = if has_bias {
            gbest[n].less(zero()) != s.xs[r][n].less(zero())
        } else {
            false
        };
        let gauge: R = if opposed {
            R::from_milli(-1000)
        } else {
            one()
        };
        guidance_into(&mut guid, &gbest, gauge, &s.xs[r], &s.ys[r], w, threshold);
        let drift = smooth(ema, &s.drift[r], &guid);
        proof {
            assert(drift@ == drift_at(l, cfg, n_step as nat, k as nat, s@, r as int));
        }
        let (nx, ny) = drive(
            restore,
            c0,
            amplitude,
            &forces[r],
            &drift,
            &hits[r],
            &s.xs[r],
            &s.ys[r],
        );
        proof {
            let f = pulls(l, all_acting(form, s.xs@[r as int]@));
            assert(forces@[r as int]@ == f);
            assert(flags[r as int] == hits@[r as int]@);
            assert(target.drift[r as int] == drift@);
            assert forall|i: int|
                #![trigger nx@[i]]
                #![trigger ny@[i]]
                0 <= i < m implies nx@[i] == target.at[r as int].x[i] && ny@[i]
                == target.at[r as int].y[i] by {
                assert((nx@[i], ny@[i]) == swept(
                    restore,
                    c0,
                    amplitude,
                    s.xs@[r as int]@[i],
                    s.ys@[r as int]@[i],
                    f[i],
                    drift@[i],
                    hits@[r as int]@[i],
                ));
            }
            assert(nx@ =~= target.at[r as int].x);
            assert(ny@ =~= target.at[r as int].y);
        }
        next.xs.push(nx);
        next.ys.push(ny);
        next.drift.push(drift);
        r = r + 1;
    }
    proof {
        assert(next@.at =~= target.at) by {
            assert forall|i: int| 0 <= i < b implies next@.at[i] == target.at[i] by {
                assert(next@.at[i] == (Phase { x: next.xs@[i]@, y: next.ys@[i]@ }));
                assert(next.xs@[i]@ == target.at[i].x);
                assert(next.ys@[i]@ == target.at[i].y);
            }
        }
        assert(next@.drift =~= target.drift) by {
            assert forall|i: int| 0 <= i < b implies next@.drift[i] == target.drift[i] by {
                assert(next@.drift[i] == next.drift@[i]@);
            }
        }
    }
    next
}

/// `flag` is what `hit` makes of some word against chance `q`.
pub open spec fn hit_by_word<R: Scalar, H: Fn(u32, R) -> bool>(hit: H, q: R, flag: bool) -> bool {
    exists|word: u32| #[trigger] call_ensures(hit, (word, q), flag)
}

/// Each flag of a trajectory is what `hit` makes of some word against chance `q`.
pub open spec fn flags_drawn<R: Scalar, H: Fn(u32, R) -> bool>(
    hit: H,
    q: R,
    m: nat,
    flags: Seq<bool>,
) -> bool {
    flags.len() == m && forall|i: int| 0 <= i < m ==> hit_by_word(hit, q, #[trigger] flags[i])
}

/// The flags of all trajectories at time `u`: drawn against the chance of a shift
/// at that time.
pub open spec fn step_drawn<R: Scalar, C: Fn(R) -> R, H: Fn(u32, R) -> bool>(
    cos_pi: C,
    hit: H,
    u: R,
    b: nat,
    m: nat,
    flags: Seq<Seq<bool>>,
) -> bool {
    &&& flags.len() == b
    &&& exists|q: R| #[trigger]
        is_perturb_probability(cos_pi, u, q) && forall|r: int|
            0 <= r < b ==> flags_drawn(hit, q, m, #[trigger] flags[r])
}

/// The flags of the first steps of a run of `n_step`.
pub open spec fn shifts_drawn<R: Scalar, C: Fn(R) -> R, H: Fn(u32, R) -> bool>(
    cos_pi: C,
    hit: H,
    n_step: nat,
    b: nat,
    m: nat,
    hits: Seq<Seq<Seq<bool>>>,
) -> bool {
    forall|k: int|
        0 <= k < hits.len() ==> step_drawn(
            cos_pi,
            hit,
            R::fraction(k as nat, n_step),
            b,
            m,
            #[trigger] hits[k],
        )
}

/// A swarm whose positions and momenta are drawn and whose guidance is 0.
pub open spec fn swarm_drawn<R: Scalar, D: Fn(u32, R, R) -> R>(draw: D, b: nat, m: nat, s: Swarm<R>) -> bool {
    &&& swarm_fits(s, b, m)
    &&& forall|r: int| 0 <= r < b ==> drawn_start(draw, m, #[trigger] s.at[r])
    &&& forall|r: int, i: int|
        0 <= r < b && 0 <= i < m ==> #[trigger] s.drift[r][i] == nil::<R>()
}

/// The results follow from coupling scale `c0`, starts `s` and shifts `hits`.
pub open spec fn ggsb_from<R: Scalar>(
    g: IsingGraph,
    form: Coupling,
    cfg: GgsbConfig,
    n_step: nat,
    c0: R,
    s: Swarm<R>,
    hits: Seq<Seq<Seq<bool>>>,
    results: Seq<SamplerResult>,
) -> bool {
    forall|r: int|
        0 <= r < results.len() ==> scored(g, #[trigger] results[r]) && results[r].spins@
            == gauged_spins(
            lattice(g),
            swarm_at(lattice(g), c0, form, cfg, n_step, n_step, hits, s).at[r].x,
        )
}

/// The results of a guided job: all reads advance together from drawn starts,
/// shifted where the drawn words say so.
pub open spec fn ggsb_results<
    R: Scalar,
    D: Fn(u32, R, R) -> R,
    W: Scalar,
    N: Fn(W) -> R,
    C: Fn(R) -> R,
    H: Fn(u32, R) -> bool,
>(
    draw: D,
    narrow: N,
    cos_pi: C,
    hit: H,
    g: IsingGraph,
    form: Coupling,
    cfg: GgsbConfig,
    n_step: nat,
    results: Seq<SamplerResult>,
) -> bool {
    exists|c0: R, s: Swarm<R>, hits: Seq<Seq<Seq<bool>>>|
        #![trigger ggsb_from(g, form, cfg, n_step, c0, s, hits, results)]
        {
            &&& scaled(g, narrow, c0)
            &&& swarm_drawn(draw, results.len(), particles(lattice(g)), s)
            &&& hits.len() == n_step
            &&& shifts_drawn(cos_pi, hit, n_step, results.len(), particles(lattice(g)), hits)
            &&& ggsb_from(g, form, cfg, n_step, c0, s, hits, results)
        }
}

/// Each flag is what `hit` makes of the word in its place in `log`, from `from` on,
/// against chance `q`.
pub open spec fn flags_on<R: Scalar, H: Fn(u32, R) -> bool>(
    hit: H,
    q: R,
    log: Seq<Draw>,
    from: int,
    flags: Seq<bool>,
) -> bool {
    &&& from + flags.len() <= log.len()
    &&& forall|i: int|
        0 <= i < flags.len() ==> flag_on(hit, q, log[from + i], #[trigger] flags[i])
}

/// `flag` is what `hit` makes of the drawn word against chance `q`.
pub open spec fn flag_on<R: Scalar, H: Fn(u32, R) -> bool>(hit: H, q: R, d: Draw, flag: bool) -> bool {
    d matches Draw::Half(word) && call_ensures(hit, (word, q), flag)
}

/// Trajectory `r` is what `log` makes: first its start, then, step by step, a word
/// for the shift of every particle, against the chance `qs` of that step.
pub open spec fn trajectory_on<R: Scalar, D: Fn(u32, R, R) -> R, H: Fn(u32, R) -> bool>(
    draw: D,
    hit: H,
    log: Seq<Draw>,
    m: nat,
    qs: Seq<R>,
    s: Phase<R>,
    hits: Seq<Seq<Seq<bool>>>,
    r: int,
) -> bool {
    &&& start_on(draw, log, m, s)
    &&& forall|k: int|
        0 <= k < qs.len() ==> flags_on(
            hit,
            #[trigger] qs[k],
            log,
            2 * m + k * m,
            hits[k][r],
        )
}

/// The draws of a guided job: read `r` draws its start and its shifts from the
/// generator with its own seed, the shifts of a step against the chance of a
/// shift at that time.
pub open spec fn ggsb_draws<
    R: Scalar,
    D: Fn(u32, R, R) -> R,
    C: Fn(R) -> R,
    H: Fn(u32, R) -> bool,
>(
    draw: D,
    cos_pi: C,
    hit: H,
    seed: u64,
    m: nat,
    n_step: nat,
    s: Swarm<R>,
    hits: Seq<Seq<Seq<bool>>>,
    qs: Seq<R>,
    logs: Seq<Seq<Draw>>,
) -> bool {
    &&& qs.len() == n_step
    &&& forall|k: int|
        0 <= k < n_step ==> is_perturb_probability(
            cos_pi,
            R::fraction(k as nat, n_step),
            #[trigger] qs[k],
        )
    &&& forall|r: int|
        0 <= r < logs.len() ==> drawn_from(read_seed_of(seed, r as u64), #[trigger] logs[r])
            && trajectory_on(draw, hit, logs[r], m, qs, s.at[r], hits, r)
}

/// The results of a guided job follow from the draws of its reads.
pub open spec fn ggsb_reads<
    R: Scalar,
    D: Fn(u32, R, R) -> R,
    W: Scalar,
    N: Fn(W) -> R,
    C: Fn(R) -> R,
    H: Fn(u32, R) -> bool,
>(
    draw: D,
    narrow: N,
    cos_pi: C,
    hit: H,
    g: IsingGraph,
    seed: u64,
    form: Coupling,
    cfg: GgsbConfig,
    n_step: nat,
    results: Seq<SamplerResult>,
) -> bool {
    exists|
        c0: R,
        s: Swarm<R>,
        hits: Seq<Seq<Seq<bool>>>,
        qs: Seq<R>,
        logs: Seq<Seq<Draw>>,
    |
        #![trigger ggsb_from(g, form, cfg, n_step, c0, s, hits, results), ggsb_draws(draw, cos_pi, hit, seed, particles(lattice(g)), n_step, s, hits, qs, logs)]
        {
            &&& scaled(g, narrow, c0)
            &&& swarm_drawn(draw, results.len(), particles(lattice(g)), s)
            &&& hits.len() == n_step
            &&& logs.len() == results.len()
            &&& ggsb_draws(
                draw,
                cos_pi,
                hit,
                seed,
                particles(lattice(g)),
                n_step,
                s,
                hits,
                qs,
                logs,
            )
            &&& ggsb_from(g, form, cfg, n_step, c0, s, hits, results)
        }
}

/// The reads of a guided job are independent: read `i` draws its start, and the
/// shifts of every step after it, each from a word of its own, from the generator
/// with the seed of read `i`; no other read of the job has that seed.
pub proof fn every_guided_read_has_its_own_generator<
    R: Scalar,
    D: Fn(u32, R, R) -> R,
    W: Scalar,
    N: Fn(W) -> R,
    C: Fn(R) -> R,
    H: Fn(u32, R) -> bool,
>(
    draw: D,
    narrow: N,
    cos_pi: C,
    hit: H,
    g: IsingGraph,
    seed: u64,
    form: Coupling,
    cfg: GgsbConfig,
    n_step: nat,
    results: Seq<SamplerResult>,
    i: int,
    j: int,
)
    requires
        results.len() <= u64::MAX,
        ggsb_reads(draw, narrow, cos_pi, hit, g, seed, form, cfg, n_step, results),
        0 <= i < results.len(),
        0 <= j < results.len(),
        i != j,
    ensures
        exists|c0: R, s: Swarm<R>, hits: Seq<Seq<Seq<bool>>>, qs: Seq<R>, log: Seq<Draw>|
            #![trigger ggsb_from(g, form, cfg, n_step, c0, s, hits, results), trajectory_on(draw, hit, log, particles(lattice(g)), qs, s.at[i], hits, i)]
            {
                &&& scaled(g, narrow, c0)
                &&& ggsb_from(g, form, cfg, n_step, c0, s, hits, results)
                &&& drawn_from(read_seed_of(seed, i as u64), log)
                &&& start_on(draw, log, particles(lattice(g)), s.at[i])
                &&& qs.len() == n_step
                &&& forall|k: int|
                    0 <= k < n_step ==> is_perturb_probability(
                        cos_pi,
                        R::fraction(k as nat, n_step),
                        #[trigger] qs[k],
                    ) && flags_on(
                        hit,
                        qs[k],
                        log,
                        (2 + k) * particles(lattice(g)),
                        hits[k][i],
                    )
            },
        read_seed_of(seed, i as u64) != read_seed_of(seed, j as u64),
{
    reads_of_a_job_have_distinct_seeds(seed, i as u64, j as u64);
    let m = particles(lattice(g));
    let (c0, s, hits, qs, logs) = choose|
        c0: R,
        s: Swarm<R>,
        hits: Seq<Seq<Seq<bool>>>,
        qs: Seq<R>,
        logs: Seq<Seq<Draw>>,
    |
        #![trigger ggsb_from(g, form, cfg, n_step, c0, s, hits, results), ggsb_draws(draw, cos_pi, hit, seed, particles(lattice(g)), n_step, s, hits, qs, logs)]
        {
            &&& scaled(g, narrow, c0)
            &&& swarm_drawn(draw, results.len(), particles(lattice(g)), s)
            &&& hits.len() == n_step
            &&& logs.len() == results.len()
            &&& ggsb_draws(
                draw,
                cos_pi,
                hit,
                seed,
                particles(lattice(g)),
                n_step,
                s,
                hits,
                qs,
                logs,
            )
            &&& ggsb_from(g, form, cfg, n_step, c0, s, hits, results)
        };
    let log = logs[i];
    assert(trajectory_on(draw, hit, log, m, qs, s.at[i], hits, i));
    assert forall|k: int| 0 <= k < n_step implies is_perturb_probability(
        cos_pi,
        R::fraction(k as nat, n_step),
        #[trigger] qs[k],
    ) && flags_on(hit, qs[k], log, (2 + k) * m, hits[k][i]) by {
        assert((2 + k) * m == 2 * m + k * m) by (nonlinear_arith);
    }
}

/// The record of a trajectory grows by the shifts of one step.
proof fn lemma_trajectory_grows<R: Scalar, D: Fn(u32, R, R) -> R, H: Fn(u32, R) -> bool>(
    draw: D,
    hit: H,
    log: Seq<Draw>,
    more: Seq<Draw>,
    m: nat,
    qs: Seq<R>,
    q: R,
    s: Phase<R>,
    hits: Seq<Seq<Seq<bool>>>,
    shown: Seq<Seq<bool>>,
    r: int,
)
    requires
        trajectory_on(draw, hit, log, m, qs, s, hits, r),
        hits.len() == qs.len(),
        log.len() == 2 * m + qs.len() * m,
        log.len() <= more.len(),
        more.take(log.len() as int) == log,
        flags_on(hit, q, more, log.len() as int, shown[r]),
    ensures
        trajectory_on(draw, hit, more, m, qs.push(q), s, hits.push(shown), r),
{
    lemma_start_extends(draw, log, more, m, s);
    assert forall|i: int| 0 <= i < log.len() implies #[trigger] more[i] == log[i] by {
        assert(more.take(log.len() as int)[i] == more[i]);
    }
    assert forall|k: int| 0 <= k < qs.push(q).len() implies flags_on(
        hit,
        #[trigger] qs.push(q)[k],
        more,
        2 * m + k * m,
        hits.push(shown)[k][r],
    ) by {
        if k < qs.len() {
            let flags = hits[k][r];
            assert(flags_on(hit, qs[k], log, 2 * m + k * m, flags));
            assert(0 <= k * m) by (nonlinear_arith)
                requires
                    0 <= k,
            ;
            assert forall|i: int| 0 <= i < flags.len() implies flag_on(
                hit,
                qs[k],
                more[2 * m + k * m + i],
                #[trigger] flags[i],
            ) by {
                assert(flag_on(hit, qs[k], log[2 * m + k * m + i], flags[i]));
            }
        }
    }
}

/// Draw the flags of one trajectory against chance `q`.
fn draw_flags<R: Scalar, H: Fn(u32, R) -> bool>(
    hit: &H,
    q: R,
    m: usize,
    src: &mut Source,
) -> (flags: Vec<bool>)
    requires
        forall|word: u32, p: R| #[trigger] call_requires(*hit, (word, p)),
        old(src).wf(),
    ensures
        flags_drawn(*hit, q, m as nat, flags@),
        final(src).wf(),
        final(src).start() == old(src).start(),
        final(src).log().len() == old(src).log().len() + m,
        final(src).log().take(old(src).log().len() as int) == old(src).log(),
        flags_on(*hit, q, final(src).log(), old(src).log().len() as int, flags@),
{
    let ghost base = src.log();
    let mut flags: Vec<bool> = Vec::with_capacity(m);
    assert(src.log().take(base.len() as int) =~= base);
    while flags.len() < m
        invariant
            forall|word: u32, p: R| #[trigger] call_requires(*hit, (word, p)),
            flags@.len() <= m,
            flags_drawn(*hit, q, flags@.len(), flags@),
            src.wf(),
            src.start() == old(src).start(),
            src.log().len() == base.len() + flags@.len(),
            src.log().take(base.len() as int) == base,
            flags_on(*hit, q, src.log(), base.len() as int, flags@),
        decreases m - flags@.len(),
    {
        let ghost before = flags@;
        let ghost held = src.log();
        let word: u32 = src.half();
        let flag: bool = hit(word, q);
        flags.push(flag);
        proof {
            assert(call_ensures(*hit, (word, q), flag));
            assert forall|i: int| 0 <= i < flags@.len() implies hit_by_word(
                *hit,
                q,
                #[trigger] flags@[i],
            ) by {
                if i < before.len() {
                    assert(flags@[i] == before[i]);
                }
            }
            assert(src.log().take(base.len() as int) =~= held.take(base.len() as int));
            assert forall|i: int| 0 <= i < flags@.len() implies flag_on(
                *hit,
                q,
                src.log()[base.len() + i],
                #[trigger] flags@[i],
            ) by {
                if i < before.len() {
                    assert(flags@[i] == before[i]);
                    assert(flag_on(*hit, q, held[base.len() + i], before[i]));
                }
            }
        }
    }
    flags
}

/// Draw the flags of all trajectories against chance `q`, each from its own
/// generator.
fn draw_step<R: Scalar, H: Fn(u32, R) -> bool>(
    hit: &H,
    q: R,
    m: usize,
    sources: &mut Vec<Source>,
) -> (flags: Vec<Vec<bool>>)
    requires
        forall|word: u32, p: R| #[trigger] call_requires(*hit, (word, p)),
        forall|r: int| 0 <= r < old(sources)@.len() ==> (#[trigger] old(sources)@[r]).wf(),
    ensures
        final(sources)@.len() == old(sources)@.len(),
        flags@.len() == old(sources)@.len(),
        forall|r: int|
            0 <= r < flags@.len() ==> flags_drawn(*hit, q, m as nat, (#[trigger] flags@[r])@),
        forall|r: int|
            0 <= r < flags@.len() ==> flags_taken(
                *hit,
                q,
                m as nat,
                old(sources)@[r],
                #[trigger] final(sources)@[r],
                flags@[r]@,
            ),
{
    let mut flags: Vec<Vec<bool>> = Vec::with_capacity(sources.len());
    let mut r: usize = 0;
    while r < sources.len()
        invariant
            forall|word: u32, p: R| #[trigger] call_requires(*hit, (word, p)),
            sources@.len() == old(sources)@.len(),
            r <= sources@.len(),
            flags@.len() == r,
            forall|i: int|
                0 <= i < old(sources)@.len() ==> (#[trigger] old(sources)@[i]).wf(),
            forall|i: int|
                r <= i < sources@.len() ==> (#[trigger] sources@[i]) == old(sources)@[i],
            forall|i: int|
                0 <= i < r ==> flags_drawn(*hit, q, m as nat, (#[trigger] flags@[i])@),
            forall|i: int|
                0 <= i < r ==> flags_taken(
                    *hit,
                    q,
                    m as nat,
                    old(sources)@[i],
                    #[trigger] sources@[i],
                    flags@[i]@,
                ),
        decreases sources@.len() - r,
    {
        assert(sources@[r as int] == old(sources)@[r as int]);
        flags.push(draw_flags(hit, q, m, &mut sources[r]));
        r = r + 1;
    }
    flags
}

/// The flags are what the source gave next.
spec fn flags_taken<R: Scalar, H: Fn(u32, R) -> bool>(
    hit: H,
    q: R,
    m: nat,
    before: Source,
    after: Source,
    flags: Seq<bool>,
) -> bool {
    &&& after.wf()
    &&& after.start() == before.start()
    &&& after.log().len() == before.log().len() + m
    &&& after.log().take(before.log().len() as int) == before.log()
    &&& flags_on(hit, q, after.log(), before.log().len() as int, flags)
}

/// The results of all trajectories at their last positions.
fn score_swarm<R: Scalar>(g: &SbGraph<R>, graph: &IsingGraph, xs: &Vec<Vec<R>>) -> (results: Vec<
    SamplerResult,
>)
    requires
        g.wf(),
        g.lattice() == lattice(*graph),
        forall|r: int|
            0 <= r < xs@.len() ==> (#[trigger] xs@[r])@.len() == particles(g.lattice()),
    ensures
        results@.len() == xs@.len(),
        forall|r: int|
            0 <= r < results@.len() ==> scored(*graph, #[trigger] results@[r])
                && results@[r].spins@ == gauged_spins(lattice(*graph), xs@[r]@),
{
    let mut results: Vec<SamplerResult> = Vec::with_capacity(xs.len());
    let mut r: usize = 0;
    while r < xs.len()
        invariant
            g.wf(),
            g.lattice() == lattice(*graph),
            forall|i: int|
                0 <= i < xs@.len() ==> (#[trigger] xs@[i])@.len() == particles(g.lattice()),
            r <= xs@.len(),
            results@.len() == r,
            forall|i: int|
                0 <= i < r ==> scored(*graph, #[trigger] results@[i]) && results@[i].spins@
                    == gauged_spins(lattice(*graph), xs@[i]@),
        decreases xs@.len() - r,
    {
        let spins = gauge_fixed_spins(g, &xs[r]);
        results.push(score_spins(spins, graph));
        r = r + 1;
    }
    results
}

/// The start of read `i` is what its source gave.
spec fn start_taken<R: Scalar, D: Fn(u32, R, R) -> R>(
    draw: D,
    seed: u64,
    m: nat,
    i: int,
    src: Source,
    s: Phase<R>,
) -> bool {
    &&& src.wf()
    &&& seeded(read_seed_of(seed, i as u64), src.start())
    &&& src.log().len() == 2 * m
    &&& start_on(draw, src.log(), m, s)
}

/// Draw the starts of a job, and keep the generator of each read.
fn draw_swarm<R: Scalar, D: Fn(u32, R, R) -> R>(draw: &D, seed: u64, b: usize, m: usize) -> (r: (
    SwarmState<R>,
    Vec<Source>,
))
    requires
        draws_starts::<R, D>(*draw),
    ensures
        state_fits(r.0, b as nat, m as nat),
        swarm_drawn(*draw, b as nat, m as nat, r.0@),
        r.1@.len() == b,
        forall|i: int|
            0 <= i < b ==> start_taken(*draw, seed, m as nat, i, #[trigger] r.1@[i], r.0@.at[i]),
{
    let mut s = SwarmState { xs: Vec::new(), ys: Vec::new(), drift: Vec::new() };
    let mut sources: Vec<Source> = Vec::new();
    let mut r: usize = 0;
    while r < b
        invariant
            draws_starts::<R, D>(*draw),
            r <= b,
            sources@.len() == r,
            state_fits(s, r as nat, m as nat),
            swarm_drawn(*draw, r as nat, m as nat, s@),
            forall|i: int|
                0 <= i < r ==> start_taken(
                    *draw,
                    seed,
                    m as nat,
                    i,
                    #[trigger] sources@[i],
                    s@.at[i],
                ),
        decreases b - r,
    {
        let ghost before = s@;
        let ghost held = sources@;
        let mut src = Source::of_read(seed, r);
        let (x, y) = draw_start(m, draw, &mut src);
        let ghost start = Phase { x: x@, y: y@ };
        assert(drawn_start(*draw, m as nat, start));
        let still: Vec<R> = zeros(m);
        s.xs.push(x);
        s.ys.push(y);
        s.drift.push(still);
        assert(start_taken(*draw, seed, m as nat, r as int, src, start));
        sources.push(src);
        proof {
            assert forall|i: int| 0 <= i < r + 1 implies (#[trigger] s@.at[i]) == (if i < r {
                before.at[i]
            } else {
                start
            }) by {}
            assert forall|i: int| 0 <= i < r + 1 implies (#[trigger] s@.drift[i]) == (if i < r {
                before.drift[i]
            } else {
                still@
            }) by {}
            assert forall|i: int| 0 <= i < r + 1 implies start_taken(
                *draw,
                seed,
                m as nat,
                i,
                #[trigger] sources@[i],
                s@.at[i],
            ) by {
                if i < r {
                    assert(sources@[i] == held[i]);
                    assert(s@.at[i] == before.at[i]);
                }
            }
        }
        r = r + 1;
    }
    (s, sources)
}

/// Trajectory `r` is what its source gave so far.
spec fn trajectory_taken<R: Scalar, D: Fn(u32, R, R) -> R, H: Fn(u32, R) -> bool>(
    draw: D,
    hit: H,
    seed: u64,
    m: nat,
    qs: Seq<R>,
    s: Phase<R>,
    hits: Seq<Seq<Seq<bool>>>,
    r: int,
    src: Source,
) -> bool {
    &&& src.wf()
    &&& seeded(read_seed_of(seed, r as u64), src.start())
    &&& src.log().len() == 2 * m + qs.len() * m
    &&& trajectory_on(draw, hit, src.log(), m, qs, s, hits, r)
}

/// Run a guided job. All reads advance together. `cos_pi` gives the cosine of pi
/// times its argument, and `hit` whether a word falls below a chance.
pub fn sample_ggsb<
    R: Scalar,
    D: Fn(u32, R, R) -> R,
    W: Scalar,
    N: Fn(W) -> R,
    C: Fn(R) -> R,
    H: Fn(u32, R) -> bool,
>(
    graph: &IsingGraph,
    params: &SampleParams,
    variant: SbVariant,
    cfg: GgsbConfig,
    narrow: &N,
    draw: &D,
    cos_pi: &C,
    hit: &H,
) -> (results: Vec<SamplerResult>)
    requires
        graph.fits(),
        forall|x: W| #[trigger] call_requires(*narrow, (x,)),
        draws_starts::<R, D>(*draw),
        forall|x: R| #[trigger] call_requires(*cos_pi, (x,)),
        forall|word: u32, p: R| #[trigger] call_requires(*hit, (word, p)),
    ensures
        results@.len() == params.reads(),
        ggsb_results(
            *draw,
            *narrow,
            *cos_pi,
            *hit,
            *graph,
            variant.coupling,
            cfg,
            at_least_one(params.num_sweeps as nat),
            results@,
        ),
        ggsb_reads(
            *draw,
            *narrow,
            *cos_pi,
            *hit,
            *graph,
            params.seed,
            variant.coupling,
            cfg,
            at_least_one(params.num_sweeps as nat),
            results@,
        ),
{
    let b: usize = or_one(params.num_reads);
    let g = SbGraph::from_base(graph, narrow);
    let m: usize = g.num_particles();
    let n_step: usize = or_one(params.num_sweeps);
    let form = variant.coupling;
    let ghost l = lattice(*graph);
    let ghost c0 = g.scale();
    let (mut s, mut sources) = draw_swarm(draw, params.seed, b, m);
    let ghost start = s@;
    let ghost mut hits: Seq<Seq<Seq<bool>>> = Seq::empty();
    let ghost mut qs: Seq<R> = Seq::empty();
    assert(0 * m == 0) by (nonlinear_arith);
    assert forall|r: int| 0 <= r < b implies trajectory_taken(
        *draw,
        *hit,
        params.seed,
        m as nat,
        qs,
        start.at[r],
        hits,
        r,
        #[trigger] sources@[r],
    ) by {
        assert(start_taken(*draw, params.seed, m as nat, r, sources@[r], start.at[r]));
    }
    let mut k: usize = 0;
    while k < n_step
        invariant
            g.wf(),
            g.lattice() == l,
            g.scale() == c0,
            m == particles(l),
            b > 0,
            forall|x: R| #[trigger] call_requires(*cos_pi, (x,)),
            forall|word: u32, p: R| #[trigger] call_requires(*hit, (word, p)),
            sources@.len() == b,
            state_fits(s, b as nat, m as nat),
            k <= n_step,
            hits.len() == k,
            qs.len() == k,
            forall|i: int|
                0 <= i < k ==> is_perturb_probability(
                    *cos_pi,
                    R::fraction(i as nat, n_step as nat),
                    #[trigger] qs[i],
                ),
            forall|r: int|
                0 <= r < b ==> trajectory_taken(
                    *draw,
                    *hit,
                    params.seed,
                    m as nat,
                    qs,
                    start.at[r],
                    hits,
                    r,
                    #[trigger] sources@[r],
                ),
            shifts_drawn(*cos_pi, *hit, n_step as nat, b as nat, m as nat, hits),
            s@ == swarm_at(l, c0, form, cfg, n_step as nat, k as nat, hits, start),
        decreases n_step - k,
    {
        let q: R = perturb_probability(cos_pi, R::ratio(k, n_step));
        let ghost held = sources@;
        assert forall|r: int| 0 <= r < held.len() implies (#[trigger] held[r]).wf() by {
            assert(trajectory_taken(
                *draw,
                *hit,
                params.seed,
                m as nat,
                qs,
                start.at[r],
                hits,
                r,
                held[r],
            ));
        }
        let flags = draw_step(hit, q, m, &mut sources);
        let ghost shown = Seq::new(flags@.len(), |r: int| flags@[r]@);
        proof {
            assert((k + 1) * m == k * m + m) by (nonlinear_arith);
            assert forall|r: int| 0 <= r < b implies trajectory_taken(
                *draw,
                *hit,
                params.seed,
                m as nat,
                qs.push(q),
                start.at[r],
                hits.push(shown),
                r,
                #[trigger] sources@[r],
            ) by {
                assert(trajectory_taken(
                    *draw,
                    *hit,
                    params.seed,
                    m as nat,
                    qs,
                    start.at[r],
                    hits,
                    r,
                    held[r],
                ));
                assert(shown[r] == flags@[r]@);
                lemma_trajectory_grows(
                    *draw,
                    *hit,
                    held[r].log(),
                    sources@[r].log(),
                    m as nat,
                    qs,
                    q,
                    start.at[r],
                    hits,
                    shown,
                    r,
                );
            }
        }
        let next = swarm_step(&g, form, cfg, n_step, k, &flags, &s);
        proof {
            let before = hits;
            hits = hits.push(shown);
            qs = qs.push(q);
            assert forall|i: int| 0 <= i < hits.len() implies step_drawn(
                *cos_pi,
                *hit,
                R::fraction(i as nat, n_step as nat),
                b as nat,
                m as nat,
                #[trigger] hits[i],
            ) by {
                if i < k {
                    assert(hits[i] == before[i]);
                } else {
                    assert(is_perturb_probability(
                        *cos_pi,
                        R::fraction(i as nat, n_step as nat),
                        q,
                    ));
                    assert forall|r: int| 0 <= r < b implies flags_drawn(
                        *hit,
                        q,
                        m as nat,
                        #[trigger] shown[r],
                    ) by {
                        assert(shown[r] == flags@[r]@);
                    }
                }
            }
            lemma_swarm_prefix(
                l,
                c0,
                form,
                cfg,
                n_step as nat,
                k as nat,
                before,
                hits,
                start,
            );
        }
        s = next;
        k = k + 1;
    }
    let results = score_swarm(&g, graph, &s.xs);
    proof {
        assert forall|r: int| 0 <= r < results@.len() implies scored(*graph, #[trigger] results@[r])
            && results@[r].spins@ == gauged_spins(
            l,
            swarm_at(l, c0, form, cfg, n_step as nat, n_step as nat, hits, start).at[r].x,
        ) by {
            assert(s@.at[r].x == s.xs@[r]@);
        }
        assert(ggsb_from(*graph, form, cfg, n_step as nat, c0, start, hits, results@));
        let logs = Seq::new(b as nat, |r: int| sources@[r].log());
        assert forall|r: int| 0 <= r < logs.len() implies drawn_from(
            read_seed_of(params.seed, r as u64),
            #[trigger] logs[r],
        ) && trajectory_on(*draw, *hit, logs[r], m as nat, qs, start.at[r], hits, r) by {
            assert(trajectory_taken(
                *draw,
                *hit,
                params.seed,
                m as nat,
                qs,
                start.at[r],
                hits,
                r,
                sources@[r],
            ));
            sources@[r].lemma_record(read_seed_of(params.seed, r as u64));
        }
        assert(ggsb_draws(
            *draw,
            *cos_pi,
            *hit,
            params.seed,
            particles(lattice(*graph)),
            n_step as nat,
            start,
            hits,
            qs,
            logs,
        ));
    }
    results
}

/// The guidance of every trajectory is 0.
pub open spec fn unguided<R: Scalar>(s: Swarm<R>) -> bool {
    forall|r: int, i: int|
        0 <= r < s.drift.len() && 0 <= i < s.drift[r].len() ==> #[trigger] s.drift[r][i]
            == nil::<R>()
}

/// A single read without a shift is plain bifurcation, step for step: it leads
/// itself, so its guidance is 0.
pub proof fn single_read_is_plain_bifurcation<R: Scalar>(
    l: Lattice,
    c0: R,
    form: Coupling,
    cfg: GgsbConfig,
    n_step: nat,
    k: nat,
    hits: Seq<Seq<Seq<bool>>>,
    s: Swarm<R>,
    m: nat,
)
    requires
        zero_is_neutral::<R>(),
        cfg.perturb_milli == 0,
        swarm_fits(s, 1, m),
        unguided(s),
    ensures
        swarm_fits(swarm_at(l, c0, form, cfg, n_step, k, hits, s), 1, m),
        unguided(swarm_at(l, c0, form, cfg, n_step, k, hits, s)),
        swarm_at(l, c0, form, cfg, n_step, k, hits, s).at[0] == evolved(
            l,
            c0,
            form,
            None,
            n_step,
            k,
            s.at[0],
        ),
    decreases k,
{
    if k > 0 {
        let t = (k - 1) as nat;
        single_read_is_plain_bifurcation(l, c0, form, cfg, n_step, t, hits, s, m);
        let a = swarm_at(l, c0, form, cfg, n_step, t, hits, s);
        let x = a.at[0].x;
        let y = a.at[0].y;
        let u = R::fraction(t, n_step);
        let gbest = best_of(l, a);
        assert(gbest == x);
        let gauge = aligned(l, gbest, x);
        assert(gauge == unit::<R>());
        let d = way(gbest, gauge, x);
        assert forall|i: int| 0 <= i < d.len() implies #[trigger] d[i] == nil::<R>() by {
            assert(unit::<R>().times(x[i]).minus(x[i]) == nil::<R>());
        }
        let w = unit::<R>().minus(u);
        let scale = w.over(unit::<R>().plus(pair_sum(d, d, d.len() as int).root()));
        let g = stretched(d, scale);
        assert forall|i: int| 0 <= i < g.len() implies #[trigger] g[i] == nil::<R>() by {
            assert(nil::<R>().times(scale) == nil::<R>());
            assert(d[i] == nil::<R>());
        }
        let guid = guided(gbest, gauge, x, y, w, R::of_milli(cfg.flip_milli as int));
        assert forall|i: int| 0 <= i < guid.len() implies #[trigger] guid[i] == nil::<R>() by {
            assert(g[i] == nil::<R>());
            assert(R::of_milli(-1000).times(nil::<R>()) == nil::<R>());
        }
        let ema = smoothing(u);
        let v = smoothed(ema, a.drift[0], guid);
        assert(v == drift_at(l, cfg, n_step, t, a, 0));
        assert forall|i: int| 0 <= i < v.len() implies #[trigger] v[i] == nil::<R>() by {
            assert(a.drift[0][i] == nil::<R>());
            assert(guid[i] == nil::<R>());
            assert(ema.times(nil::<R>()) == nil::<R>());
            assert(unit::<R>().minus(ema).times(nil::<R>()) == nil::<R>());
            assert(nil::<R>().plus(nil::<R>()) == nil::<R>());
        }
        let b = swarm_at(l, c0, form, cfg, n_step, k, hits, s);
        assert(b.drift[0] == v);
        let restore = restoring::<R>(t, n_step);
        let plain = stepped(l, c0, form, None, restore, a.at[0]);
        assert forall|i: int|
            0 <= i < x.len() implies b.at[0].x[i] == plain.x[i] && b.at[0].y[i] == plain.y[i] by {
            assert(v[i] == nil::<R>());
            let f = pull_on(l, all_acting(form, x), i);
            let drive = restore.times(x[i]).minus(c0.times(f));
            assert(drive.plus(nil::<R>()) == drive);
            let free = x[i].plus(y[i].plus(drive));
            assert(free.minus(nil::<R>()) == free);
        }
        assert(b.at[0].x =~= plain.x);
        assert(b.at[0].y =~= plain.y);
    }
}

/// Every solution of a guided job is scored: its spins are valid and its energy
/// is the consensus energy of those spins.
pub proof fn every_guided_result_is_scored<
    R: Scalar,
    D: Fn(u32, R, R) -> R,
    W: Scalar,
    N: Fn(W) -> R,
    C: Fn(R) -> R,
    H: Fn(u32, R) -> bool,
>(
    draw: D,
    narrow: N,
    cos_pi: C,
    hit: H,
    g: IsingGraph,
    form: Coupling,
    cfg: GgsbConfig,
    n_step: nat,
    results: Seq<SamplerResult>,
    i: int,
)
    requires
        ggsb_results(draw, narrow, cos_pi, hit, g, form, cfg, n_step, results),
        0 <= i < results.len(),
    ensures
        scored(g, results[i]),
{
}

/// A guided read without a shift and a plain read end alike from the same start:
/// the same spins and the same energy.
pub proof fn one_guided_read_ends_as_a_plain_one<R: Scalar>(
    g: IsingGraph,
    form: Coupling,
    cfg: GgsbConfig,
    n_step: nat,
    c0: R,
    s: Swarm<R>,
    hits: Seq<Seq<Seq<bool>>>,
    guided: Seq<SamplerResult>,
    plain: SamplerResult,
)
    requires
        zero_is_neutral::<R>(),
        cfg.perturb_milli == 0,
        swarm_fits(s, 1, particles(lattice(g))),
        unguided(s),
        guided.len() == 1,
        ggsb_from(g, form, cfg, n_step, c0, s, hits, guided),
        scored(g, plain),
        plain.spins@ == gauged_spins(
            lattice(g),
            evolved(lattice(g), c0, form, None, n_step, n_step, s.at[0]).x,
        ),
    ensures
        guided[0].spins@ == plain.spins@,
        guided[0].energy_milli == plain.energy_milli,
{
    single_read_is_plain_bifurcation(
        lattice(g),
        c0,
        form,
        cfg,
        n_step,
        n_step,
        hits,
        s,
        particles(lattice(g)),
    );
    assert(scored(g, guided[0]));
}

/// A guided job of one read without a shift is a plain job: what it returns is
/// what plain bifurcation may return.
pub proof fn a_guided_job_of_one_read_is_a_plain_job<
    R: Scalar,
    D: Fn(u32, R, R) -> R,
    W: Scalar,
    N: Fn(W) -> R,
    C: Fn(R) -> R,
    H: Fn(u32, R) -> bool,
>(
    draw: D,
    narrow: N,
    cos_pi: C,
    hit: H,
    g: IsingGraph,
    variant: SbVariant,
    cfg: GgsbConfig,
    n_step: nat,
    results: Seq<SamplerResult>,
)
    requires
        zero_is_neutral::<R>(),
        cfg.perturb_milli == 0,
        variant.gamma_milli == 0,
        results.len() == 1,
        ggsb_results(draw, narrow, cos_pi, hit, g, variant.coupling, cfg, n_step, results),
    ensures
        sb_results(draw, narrow, g, variant, n_step, results),
{
    let l = lattice(g);
    let m = particles(l);
    let form = variant.coupling;
    let (c0, s, hits) = choose|c0: R, s: Swarm<R>, hits: Seq<Seq<Seq<bool>>>|
        #![trigger ggsb_from(g, form, cfg, n_step, c0, s, hits, results)]
        {
            &&& scaled(g, narrow, c0)
            &&& swarm_drawn(draw, results.len(), m, s)
            &&& hits.len() == n_step
            &&& shifts_drawn(cos_pi, hit, n_step, results.len(), m, hits)
            &&& ggsb_from(g, form, cfg, n_step, c0, s, hits, results)
        };
    single_read_is_plain_bifurcation(l, c0, form, cfg, n_step, n_step, hits, s, m);
    assert(drawn_start(draw, m, s.at[0]));
    assert forall|i: int| 0 <= i < results.len() implies scored(g, #[trigger] results[i])
        && sb_end(draw, l, c0, variant, n_step, results[i].spins@) by {
        assert(i == 0);
    }
    assert(scaled(g, narrow, c0));
}

/// One guided step: a trajectory that reaches no wall takes up the restoring
/// force, the force down the slope of the energy and the smoothed guidance, and
/// moves by its new momentum. A shifted coordinate loses the amplitude.
pub proof fn a_guided_step_takes_up_the_guidance<R: Scalar>(
    val: spec_fn(R) -> real,
    l: Lattice,
    c0: R,
    form: Coupling,
    restore: R,
    amplitude: R,
    s: Phase<R>,
    drift: Seq<R>,
    hits: Seq<bool>,
    i: int,
)
    requires
        exact(val),
        0 <= i < s.x.len(),
    ensures
        ({
            let f = val(pull_on(l, all_acting(form, s.x), i));
            let y = val(s.y[i]) + val(restore) * val(s.x[i]) - val(c0) * f + val(drift[i]);
            let shift = if hits[i] {
                val(amplitude)
            } else {
                0int as real
            };
            let x = val(s.x[i]) + y - shift;
            let after = driven(l, c0, form, restore, amplitude, s, drift, hits);
            (-1int as real) <= x <= 1int as real ==> val(after.y[i]) == y && val(after.x[i]) == x
        }),
{
    let f = pulls(l, all_acting(form, s.x))[i];
    let kicked = s.y[i].plus(restore.times(s.x[i]).minus(c0.times(f)).plus(drift[i]));
    let free = s.x[i].plus(kicked);
    walls_stop_a_particle(val, free, kicked);
    walls_stop_a_particle(val, free.minus(amplitude), kicked);
}

proof fn lemma_square_sum<R: Scalar>(val: spec_fn(R) -> real, d: Seq<R>, k: int)
    requires
        exact(val),
    ensures
        val(pair_sum(d, d, k)) >= 0int as real,
    decreases k,
{
    if k > 0 {
        lemma_square_sum(val, d, k - 1);
        let x = val(d[k - 1]);
        assert(x * x >= 0int as real) by (nonlinear_arith);
    }
}

proof fn lemma_sum_with_nothing<R: Scalar>(
    val: spec_fn(R) -> real,
    g: Seq<R>,
    y: Seq<R>,
    k: int,
)
    requires
        exact(val),
        0 <= k <= y.len(),
        forall|i: int| 0 <= i < y.len() ==> val(#[trigger] y[i]) == 0int as real,
    ensures
        val(pair_sum(g, y, k)) == 0int as real,
    decreases k,
{
    if k > 0 {
        lemma_sum_with_nothing(val, g, y, k - 1);
        let x = val(g[k - 1]);
        assert(val(y[k - 1]) == 0int as real);
        assert(x * 0int as real == 0int as real) by (nonlinear_arith);
    }
}

/// The guidance on a trajectory at rest is a part of the way to the leader: the
/// same part of every coordinate, more than nothing and at most the weight.
pub proof fn guidance_at_rest_points_at_the_leader<R: Scalar>(
    val: spec_fn(R) -> real,
    gbest: Seq<R>,
    gauge: R,
    x: Seq<R>,
    y: Seq<R>,
    w: R,
    b: R,
) -> (t: real)
    requires
        exact(val),
        gbest.len() == x.len(),
        y.len() == x.len(),
        forall|i: int| 0 <= i < y.len() ==> val(#[trigger] y[i]) == 0int as real,
        val(w) > 0int as real,
        val(b) >= 0int as real,
    ensures
        (0int as real) < t <= val(w),
        guided(gbest, gauge, x, y, w, b).len() == x.len(),
        forall|i: int|
            0 <= i < x.len() ==> val(#[trigger] guided(gbest, gauge, x, y, w, b)[i]) == t * (val(
                gauge,
            ) * val(gbest[i]) - val(x[i])),
{
    let d = way(gbest, gauge, x);
    let m = d.len() as int;
    let r = pair_sum(d, d, m).root();
    lemma_square_sum(val, d, m);
    let scale = w.over(unit::<R>().plus(r));
    let (vw, vr) = (val(w), val(r));
    assert(val(unit::<R>()) == 1000int as real / 1000int as real);
    let t = val(scale);
    assert(t == vw / (1int as real + vr));
    assert((0int as real) < vw / (1int as real + vr) <= vw) by (nonlinear_arith)
        requires
            vw > 0int as real,
            vr >= 0int as real,
    ;
    let g = stretched(d, scale);
    lemma_sum_with_nothing(val, g, y, m);
    let under = floored(pair_sum(g, g, m).root().times(pair_sum(y, y, m).root()));
    assert(val(R::fraction(1, 100_000_000)) == 1int as real / 100_000_000int as real);
    assert(val(under) > 0int as real);
    let vu = val(under);
    assert(0int as real / vu == 0int as real) by (nonlinear_arith)
        requires
            vu > 0int as real,
    ;
    assert(val(cosine(g, y)) == 0int as real);
    assert(val(opposite(b)) <= 0int as real) by {
        let vb = val(b);
        assert(val(R::of_milli(-1000)) == -1000int as real / 1000int as real);
        assert(-1int as real * vb == -vb) by (nonlinear_arith);
    }
    assert forall|i: int| 0 <= i < x.len() implies val(
        #[trigger] guided(gbest, gauge, x, y, w, b)[i],
    ) == t * (val(gauge) * val(gbest[i]) - val(x[i])) by {
        let way_i = val(gauge) * val(gbest[i]) - val(x[i]);
        assert(val(d[i]) == way_i);
        assert(way_i * t == t * way_i) by (nonlinear_arith);
    }
    t
}

/// Smoothing keeps less than all of what was and takes in some of what is new:
/// with nothing held, a part of the new guidance, the same of every coordinate.
pub proof fn smoothing_takes_in_a_part<R: Scalar>(
    val: spec_fn(R) -> real,
    u: R,
    drift: Seq<R>,
    guid: Seq<R>,
) -> (t: real)
    requires
        exact(val),
        (0int as real) <= val(u) < 1int as real,
        drift.len() == guid.len(),
        forall|i: int| 0 <= i < drift.len() ==> val(#[trigger] drift[i]) == 0int as real,
    ensures
        (0int as real) < t < 1int as real,
        forall|i: int|
            0 <= i < drift.len() ==> val(#[trigger] smoothed(smoothing(u), drift, guid)[i]) == t
                * val(guid[i]),
{
    let ema = smoothing(u);
    let vu = val(u);
    assert(val(R::of_milli(900)) == 900int as real / 1000int as real);
    assert(val(R::of_milli(400)) == 400int as real / 1000int as real);
    assert(val(unit::<R>()) == 1000int as real / 1000int as real);
    let a = val(R::of_milli(400));
    assert((0int as real) <= a * vu <= a) by (nonlinear_arith)
        requires
            (0int as real) <= vu < 1int as real,
            a >= 0int as real,
    ;
    let t = 1int as real - val(ema);
    let e = val(ema);
    assert forall|i: int| 0 <= i < drift.len() implies val(
        #[trigger] smoothed(smoothing(u), drift, guid)[i],
    ) == t * val(guid[i]) by {
        assert(val(drift[i]) == 0int as real);
        assert(e * 0int as real == 0int as real) by (nonlinear_arith);
    }
    t
}

/// Every trajectory is pulled toward the leader. On the last step, where the
/// restoring force is gone, a trajectory at rest without bonds, fields or a shift
/// moves from where it is toward the position of the trajectory of lowest energy,
/// in every coordinate in which the two differ.
pub proof fn a_resting_trajectory_moves_toward_the_leader<R: Scalar>(
    val: spec_fn(R) -> real,
    l: Lattice,
    c0: R,
    form: Coupling,
    cfg: GgsbConfig,
    n_step: nat,
    hits: Seq<Seq<bool>>,
    s: Swarm<R>,
    lead: int,
    r: int,
    i: int,
)
    requires
        exact(val),
        n_step > 0,
        cfg.flip_milli >= 0,
        !biased(l),
        l.rows.len() == l.h.len(),
        forall|v: int| 0 <= v < l.rows.len() ==> (#[trigger] l.rows[v]).len() == 0,
        swarm_fits(s, s.at.len(), l.h.len()),
        0 <= lead < s.at.len(),
        forall|q: int|
            0 <= q < s.at.len() && q != lead ==> val(extended(l, s.at[lead].x)) < val(
                extended(l, (#[trigger] s.at[q]).x),
            ),
        0 <= r < s.at.len(),
        0 <= i < l.h.len(),
        forall|k: int| 0 <= k < l.h.len() ==> val(#[trigger] s.at[r].y[k]) == 0int as real,
        forall|k: int| 0 <= k < l.h.len() ==> val(#[trigger] s.drift[r][k]) == 0int as real,
        (-1int as real) <= val(s.at[r].x[i]) <= 1int as real,
        (-1int as real) <= val(s.at[lead].x[i]) <= 1int as real,
        !hits[r][i],
    ensures
        ({
            let after = swarm_stepped(l, c0, form, cfg, n_step, (n_step - 1) as nat, hits, s);
            let own = val(s.at[r].x[i]);
            let goal = val(s.at[lead].x[i]);
            let now = val(after.at[r].x[i]);
            &&& own < goal ==> own < now < goal && val(after.at[r].y[i]) > 0int as real
            &&& own > goal ==> own > now > goal && val(after.at[r].y[i]) < 0int as real
            &&& own == goal ==> now == own && val(after.at[r].y[i]) == 0int as real
        }),
{
    let k = (n_step - 1) as nat;
    let u = R::fraction(k, n_step);
    let energies = Seq::new(s.at.len(), |q: int| extended(l, s.at[q].x));
    assert(best_of(l, s) == s.at[lead].x) by {
        leader_is_lowest_and_first(energies, energies.len() as int, lead);
        let best = leader_of(energies, energies.len() as int);
        if best != lead {
            assert(val(extended(l, s.at[lead].x)) < val(extended(l, s.at[best].x)));
            assert(energies[lead].under(energies[best]));
        }
    }
    let gbest = s.at[lead].x;
    let (x, y) = (s.at[r].x, s.at[r].y);
    let w = unit::<R>().minus(u);
    let b = R::of_milli(cfg.flip_milli as int);
    let nr = n_step as real;
    assert(val(u) == (n_step - 1) as real / nr);
    assert((0int as real) <= ((n_step - 1) as real / nr) < 1int as real) by (nonlinear_arith)
        requires
            nr == n_step as real,
            n_step > 0,
    ;
    assert(val(unit::<R>()) == 1000int as real / 1000int as real);
    assert(val(b) >= 0int as real) by {
        assert(val(b) == cfg.flip_milli as int as real / 1000int as real);
    }
    assert(aligned(l, gbest, x) == unit::<R>());
    let guid = guided(gbest, unit::<R>(), x, y, w, b);
    let t = guidance_at_rest_points_at_the_leader(val, gbest, unit::<R>(), x, y, w, b);
    let p = smoothing_takes_in_a_part(val, u, s.drift[r], guid);
    let drift = drift_at(l, cfg, n_step, k, s, r);
    let own = val(x[i]);
    let goal = val(gbest[i]);
    let d = goal - own;
    assert(val(guid[i]) == t * d) by {
        assert(1int as real * goal == goal) by (nonlinear_arith);
    }
    assert(val(drift[i]) == p * (t * d));
    let restore = restoring::<R>(k, n_step);
    assert(val(restore) == 0int as real) by {
        assert(val(R::fraction(n_step, n_step)) == n_step as real / n_step as real);
        assert(nr / nr == 1int as real) by (nonlinear_arith)
            requires
                nr == n_step as real,
                n_step > 0,
        ;
    }
    let f = pull_on(l, all_acting(form, x), i);
    assert(val(f) == 0int as real) by {
        assert(l.rows[i].len() == 0);
        assert(val(nil::<R>()) == 0int as real / 1000int as real);
    }
    a_guided_step_takes_up_the_guidance(
        val,
        l,
        c0,
        form,
        restore,
        R::of_milli(cfg.perturb_milli as int),
        s.at[r],
        drift,
        hits[r],
        i,
    );
    let c = val(c0);
    assert(0int as real * own == 0int as real && c * 0int as real == 0int as real)
        by (nonlinear_arith);
    let m = p * (t * d);
    assert(d > 0int as real ==> (0int as real) < m < d) by (nonlinear_arith)
        requires
            (0int as real) < p < 1int as real,
            (0int as real) < t <= 1int as real,
            m == p * (t * d),
    ;
    assert(d < 0int as real ==> d < m < 0int as real) by (nonlinear_arith)
        requires
            (0int as real) < p < 1int as real,
            (0int as real) < t <= 1int as real,
            m == p * (t * d),
    ;
    assert(d == 0int as real ==> m == 0int as real) by (nonlinear_arith)
        requires
            m == p * (t * d),
    ;
}

/// The chance of a shift follows the cosine down: it is 1 where the cosine is 1,
/// a tenth where the cosine is -1, and lower wherever the cosine is lower.
pub proof fn the_chance_of_a_shift_follows_the_cosine<R: Scalar, C: Fn(R) -> R>(
    val: spec_fn(R) -> real,
    cos_pi: C,
    u: R,
    w: R,
    p: R,
    q: R,
    a: real,
    b: real,
)
    requires
        exact(val),
        is_perturb_probability(cos_pi, u, p),
        is_perturb_probability(cos_pi, w, q),
        forall|c: R| #[trigger] call_ensures(cos_pi, (u,), c) ==> val(c) == a,
        forall|c: R| #[trigger] call_ensures(cos_pi, (w,), c) ==> val(c) == b,
    ensures
        a == 1int as real ==> val(p) == 1int as real,
        a == -1int as real ==> 10int as real * val(p) == 1int as real,
        a < b <==> val(p) < val(q),
{
    let c = choose|c: R| #[trigger]
        call_ensures(cos_pi, (u,), c) && p == R::of_milli(100).plus(
            R::of_milli(450).times(unit::<R>().plus(c)),
        );
    let d = choose|d: R| #[trigger]
        call_ensures(cos_pi, (w,), d) && q == R::of_milli(100).plus(
            R::of_milli(450).times(unit::<R>().plus(d)),
        );
    lemma_exact_values(val, c);
    assert(val(R::of_milli(100)) == 100int as real / 1000int as real);
    let f = val(R::of_milli(450));
    assert(f == 450int as real / 1000int as real);
    lemma_swap(f, 1int as real + a);
    lemma_swap(f, 1int as real + b);
    lemma_scaled_order(1int as real + a, 1int as real + b, f);
    lemma_spread(f, 1int as real, a);
    lemma_trivial_factors(f);
    lemma_negated(f);
}

/// The smoothing coefficient falls along a run, from nine tenths at its start to a
/// half at its end.
pub proof fn smoothing_falls_along_a_run<R: Scalar>(val: spec_fn(R) -> real, u: R, w: R)
    requires
        exact(val),
    ensures
        val(u) == 0int as real ==> 10int as real * val(smoothing(u)) == 9int as real,
        val(u) == 1int as real ==> 2int as real * val(smoothing(u)) == 1int as real,
        val(u) < val(w) <==> val(smoothing(w)) < val(smoothing(u)),
{
    let f = val(R::of_milli(400));
    assert(f == 400int as real / 1000int as real);
    assert(val(R::of_milli(900)) == 900int as real / 1000int as real);
    lemma_swap(f, val(u));
    lemma_swap(f, val(w));
    lemma_scaled_order(val(u), val(w), f);
    lemma_trivial_factors(f);
}

} // verus!
