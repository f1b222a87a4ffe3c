//! Simulated bifurcation on rings of replicas.
//!
//! Reads are grouped into periodic rings. Each replica runs discrete
//! bifurcation with a dead zone around 0 that widens over the run, and every
//! step adds a pull toward its two ring neighbors whose strength rises as the
//! transverse field falls. A ring of one replica has no such pull.
use vstd::prelude::*;

use crate::ising::{lattice, IsingGraph, Lattice};
use crate::reals::{
    lemma_cross, lemma_group, lemma_product_above, lemma_quotient, lemma_scaled_order, lemma_spread,
    lemma_swap, lemma_trivial_factors,
};
use crate::rng::{
    drawn_from, read_seed_of, reads_of_a_job_have_distinct_seeds, Draw, Source,
};
use crate::sampler_core::{
    at_least_one, or_one, score_spins, scored, SampleParams, SamplerResult,
};
use crate::sb_core::{
    draw_start, drawn_start, draws_starts, gauge_fixed_spins, gauged_spins, particles,
    pull_on, restore_at, restoring, scaled, start_on, wall, walled, walls_stop_a_particle, Phase,
    SbGraph,
};
use crate::scalar::{
    absolute, distance, exact, lemma_exact_values, nil, one, opposite, unit, zero, Scalar,
};

verus! {

/// Salt on the job seed for the draws of a ring.
pub const RING_SALT: u64 = 0x5342_5141_5249_4E47;

/// Replica-ring settings, in thousandths where they are no counts.
#[derive(Debug, Clone, Copy, PartialEq, Eq)]
pub struct SbqaConfig {
    /// Replicas per ring.
    pub replicas: usize,
    /// Transverse field at the start, per replica and in units of the
    /// temperature.
    pub theta0_milli: i32,
    /// Inverse temperature, drawn uniformly per ring.
    pub beta_range_milli: (i32, i32),
    /// Decay exponent of the transverse field, drawn uniformly per ring.
    pub alpha_range_milli: (i32, i32),
    /// Slope of the dead zone.
    pub dead_zone_milli: i32,
}

impl SbqaConfig {
    /// Both ranges run from low to high.
    pub open spec fn wf(&self) -> bool {
        &&& self.beta_range_milli.0 <= self.beta_range_milli.1
        &&& self.alpha_range_milli.0 <= self.alpha_range_milli.1
    }
}

impl Default for SbqaConfig {
    fn default() -> (c: Self)
        ensures
            c == (SbqaConfig {
                replicas: 16,
                theta0_milli: 2500,
                beta_range_milli: (500, 1500),
                alpha_range_milli: (500, 1000),
                dead_zone_milli: 700,
            }),
            c.wf(),
    {
        SbqaConfig {
            replicas: 16,
            theta0_milli: 2500,
            beta_range_milli: (500, 1500),
            alpha_range_milli: (500, 1000),
            dead_zone_milli: 700,
        }
    }
}

/// 0 inside the dead zone, the sign outside it.
pub open spec fn dead_sign<R: Scalar>(x: R, delta: R) -> R {
    if delta.reaches(distance(x)) {
        nil()
    } else if nil::<R>().under(x) {
        unit()
    } else {
        R::of_milli(-1000)
    }
}

/// 0 inside the dead zone, the sign outside it.
pub fn dead_zone_sign<R: Scalar>(x: R, delta: R) -> (r: R)
    ensures
        r == dead_sign(x, delta),
{
    if delta.at_least(absolute(x)) {
        zero()
    } else if zero::<R>().less(x) {
        one()
    } else {
        R::from_milli(-1000)
    }
}

/// Number of rings.
pub open spec fn ring_count(num_reads: nat, replicas: nat) -> nat {
    let reads = at_least_one(num_reads);
    let size = at_least_one(replicas);
    (reads / size) + if reads % size > 0 {
        1nat
    } else {
        0
    }
}

/// The argument of the ring strength, `theta0 ((1 - u)^alpha + 1e-5)`, where
/// `power` is `(1 - u)^alpha`.
pub open spec fn ring_angle<R: Scalar>(theta0: R, power: R) -> R {
    theta0.times(power.plus(R::fraction(1, 100000)))
}

/// `k` is the strength of a ring of `size` replicas at time `u`,
/// `-(size / 2 beta) ln tanh(theta0 ((1 - u)^alpha + 1e-5))`.
pub open spec fn is_ring_coupling<
    R: Scalar,
    P: Fn(R, R) -> R,
    T: Fn(R) -> R,
    L: Fn(R) -> R,
>(
    pow: P,
    tanh: T,
    ln: L,
    u: R,
    theta0: R,
    alpha: R,
    beta: R,
    size: nat,
    k: R,
) -> bool {
    exists|power: R, t: R, log: R|
        #![trigger call_ensures(pow, (unit::<R>().minus(u), alpha), power), call_ensures(tanh, (ring_angle(theta0, power),), t), call_ensures(ln, (t,), log)]
        {
            &&& call_ensures(pow, (unit::<R>().minus(u), alpha), power)
            &&& call_ensures(tanh, (ring_angle(theta0, power),), t)
            &&& call_ensures(ln, (t,), log)
            &&& k == R::fraction(size, 1).times(
                opposite(unit::<R>().over(R::of_milli(2000).times(beta))).times(log),
            )
        }
}

/// The strength of a ring of `size` replicas at time `u`.
pub fn ring_coupling<R: Scalar, P: Fn(R, R) -> R, T: Fn(R) -> R, L: Fn(R) -> R>(
    pow: &P,
    tanh: &T,
    ln: &L,
    u: R,
    theta0: R,
    alpha: R,
    beta: R,
    size: usize,
) -> (k: R)
    requires
        forall|x: R, y: R| #[trigger] call_requires(*pow, (x, y)),
        forall|x: R| #[trigger] call_requires(*tanh, (x,)),
        forall|x: R| #[trigger] call_requires(*ln, (x,)),
    ensures
        is_ring_coupling(*pow, *tanh, *ln, u, theta0, alpha, beta, size as nat, k),
{
    let power: R = pow(one::<R>().difference(u), alpha);
    let theta: R = theta0.product(power.sum(R::ratio(1, 100000)));
    let t: R = tanh(theta);
    let log: R = ln(t);
    let scale: R = R::from_milli(-1000).product(
        one::<R>().quotient(R::from_milli(2000).product(beta)),
    );
    assert(call_ensures(*pow, (unit::<R>().minus(u), alpha), power));
    assert(call_ensures(*tanh, (ring_angle(theta0, power),), t));
    R::ratio(size, 1).product(scale.product(log))
}

/// The functions that a ring is computed with.
pub struct RingMath<U, P, T, L> {
    /// A number between two others, from a word.
    pub between: U,
    /// A power.
    pub pow: P,
    /// The hyperbolic tangent.
    pub tanh: T,
    /// The natural logarithm.
    pub ln: L,
}

impl<U, P, T, L> RingMath<U, P, T, L> {
    /// `between` answers for every range in order, the others for every argument.
    pub open spec fn total<R: Scalar>(&self) -> bool where
        U: Fn(u32, R, R) -> R,
        P: Fn(R, R) -> R,
        T: Fn(R) -> R,
        L: Fn(R) -> R,
     {
        &&& forall|word: u32, lo: i32, hi: i32|
            lo <= hi ==> #[trigger] call_requires(
                self.between,
                (word, R::of_milli(lo as int), R::of_milli(hi as int)),
            )
        &&& forall|x: R, y: R| #[trigger] call_requires(self.pow, (x, y))
        &&& forall|x: R| #[trigger] call_requires(self.tanh, (x,))
        &&& forall|x: R| #[trigger] call_requires(self.ln, (x,))
    }
}

/// Replicas of ring `i`: all rings are full but a smaller last one.
pub open spec fn ring_size(num_reads: nat, replicas: nat, i: int) -> nat {
    let reads = at_least_one(num_reads);
    let size = at_least_one(replicas);
    if i < reads / size {
        size
    } else {
        reads % size
    }
}

/// Consecutive ring sizes for `num_reads` reads.
pub fn ring_sizes(num_reads: usize, replicas: usize) -> (sizes: Vec<usize>)
    ensures
        sizes@.len() == ring_count(num_reads as nat, replicas as nat),
        forall|i: int|
            0 <= i < sizes@.len() ==> #[trigger] sizes@[i] == ring_size(
                num_reads as nat,
                replicas as nat,
                i,
            ),
{
    let reads: usize = or_one(num_reads);
    let size: usize = or_one(replicas);
    let full: usize = reads / size;
    let rest: usize = reads % size;
    let mut sizes: Vec<usize> = Vec::new();
    while sizes.len() < full
        invariant
            full == reads / size,
            reads == at_least_one(num_reads as nat),
            size == at_least_one(replicas as nat),
            size > 0,
            sizes@.len() <= full,
            forall|i: int|
                0 <= i < sizes@.len() ==> #[trigger] sizes@[i] == ring_size(
                    num_reads as nat,
                    replicas as nat,
                    i,
                ),
        decreases full - sizes@.len(),
    {
        sizes.push(size);
    }
    if rest > 0 {
        sizes.push(rest);
    }
    sizes
}

/// Reads in the first `k` rings.
pub open spec fn reads_before(num_reads: nat, replicas: nat, k: int) -> nat
    decreases k,
{
    if k <= 0 {
        0
    } else {
        reads_before(num_reads, replicas, k - 1) + ring_size(num_reads, replicas, k - 1)
    }
}

/// Every read stands in exactly one ring, and no ring is empty.
pub proof fn rings_hold_every_read(num_reads: nat, replicas: nat, k: int)
    requires
        0 <= k <= ring_count(num_reads, replicas),
    ensures
        k == ring_count(num_reads, replicas) ==> reads_before(num_reads, replicas, k)
            == at_least_one(num_reads),
        k < ring_count(num_reads, replicas) ==> reads_before(num_reads, replicas, k) == k
            * at_least_one(replicas) && ring_size(num_reads, replicas, k) > 0,
    decreases k,
{
    let reads = at_least_one(num_reads) as int;
    let size = at_least_one(replicas) as int;
    assert(reads == size * (reads / size) + reads % size && 0 <= reads % size < size)
        by (nonlinear_arith)
        requires
            size > 0,
    ;
    if k > 0 {
        rings_hold_every_read(num_reads, replicas, k - 1);
        assert(k * size == (k - 1) * size + size) by (nonlinear_arith);
        assert(size * (reads / size) == (reads / size) * size) by (nonlinear_arith);
    } else {
        assert(0 * size == 0) by (nonlinear_arith);
        if reads / size == 0 {
            assert(size * (reads / size) == 0) by (nonlinear_arith)
                requires
                    reads / size == 0,
            ;
        }
    }
}

/// How the particles of a replica act at dead zone `delta`.
pub open spec fn deadened<R: Scalar>(x: Seq<R>, delta: R) -> Seq<R> {
    Seq::new(x.len(), |i: int| dead_sign(x[i], delta))
}

/// The neighbor before replica `q` on a ring.
pub open spec fn ring_before(q: int, size: int) -> int {
    if q == 0 {
        size - 1
    } else {
        q - 1
    }
}

/// The neighbor after replica `q` on a ring.
pub open spec fn ring_after(q: int, size: int) -> int {
    if q + 1 == size {
        0
    } else {
        q + 1
    }
}

/// The momentum of particle `i` of replica `q` after a step: its own forces,
/// and `kring` times the sum of its ring neighbors' old positions.
pub open spec fn ring_kicked<R: Scalar>(
    l: Lattice,
    c0: R,
    restore: R,
    kring: R,
    c: Seq<R>,
    xs: Seq<Seq<R>>,
    y: R,
    q: int,
    i: int,
) -> R {
    let size = xs.len() as int;
    y.plus(
        restore.times(xs[q][i]).minus(c0.times(pull_on(l, c, i))).plus(
            kring.times(xs[ring_before(q, size)][i].plus(xs[ring_after(q, size)][i])),
        ),
    )
}

/// Neighborhood on a ring is mutual and two-sided: a replica stands before
/// another exactly where the other stands after it, both stand on the ring one
/// place apart, and from three replicas on they are two different ones.
pub proof fn ring_neighbors_are_mutual(p: int, q: int, size: int)
    requires
        0 <= p < size,
        0 <= q < size,
    ensures
        0 <= ring_before(q, size) < size,
        0 <= ring_after(q, size) < size,
        ring_before(q, size) == p <==> ring_after(p, size) == q,
        (ring_before(q, size) + 1) % size == q,
        ring_after(q, size) == (q + 1) % size,
        size >= 3 ==> ring_before(q, size) != ring_after(q, size),
        size >= 2 ==> ring_before(q, size) != q && ring_after(q, size) != q,
{
    vstd::arithmetic::div_mod::lemma_small_mod(q as nat, size as nat);
    if q + 1 == size {
        vstd::arithmetic::div_mod::lemma_mod_self_0(size);
    } else {
        vstd::arithmetic::div_mod::lemma_small_mod((q + 1) as nat, size as nat);
    }
    if q == 0 {
        vstd::arithmetic::div_mod::lemma_mod_self_0(size);
    }
}

/// The momentum of a particle takes up its own forces and the pull of both ring
/// neighbors: `kring` for each unit of their positions.
pub proof fn a_replica_is_pulled_toward_both_neighbors<R: Scalar>(
    val: spec_fn(R) -> real,
    l: Lattice,
    c0: R,
    restore: R,
    kring: R,
    c: Seq<R>,
    xs: Seq<Seq<R>>,
    y: R,
    q: int,
    i: int,
    before: int,
    after: int,
)
    requires
        exact(val),
        0 <= q < xs.len(),
        0 <= before < xs.len(),
        0 <= after < xs.len(),
        (before + 1) % (xs.len() as int) == q,
        (q + 1) % (xs.len() as int) == after,
    ensures
        val(ring_kicked(l, c0, restore, kring, c, xs, y, q, i)) - val(y) == val(restore) * val(
            xs[q][i],
        ) - val(c0) * val(pull_on(l, c, i)) + val(kring) * (val(xs[before][i]) + val(xs[after][i])),
{
    let size = xs.len() as int;
    ring_neighbors_are_mutual(before, q, size);
    if before + 1 < size {
        vstd::arithmetic::div_mod::lemma_small_mod((before + 1) as nat, size as nat);
    } else {
        vstd::arithmetic::div_mod::lemma_mod_self_0(size);
    }
    assert(before == ring_before(q, size));
}

/// On a ring of three the ring force on each replica is `kring` times the sum of
/// the positions of the other two.
pub proof fn three_replicas_pull_on_each_other<R: Scalar>(
    val: spec_fn(R) -> real,
    l: Lattice,
    c0: R,
    restore: R,
    kring: R,
    c: Seq<R>,
    xs: Seq<Seq<R>>,
    y: R,
    q: int,
    i: int,
)
    requires
        exact(val),
        xs.len() == 3,
        0 <= q < 3,
    ensures
        val(ring_kicked(l, c0, restore, kring, c, xs, y, q, i)) - val(y) == val(restore) * val(
            xs[q][i],
        ) - val(c0) * val(pull_on(l, c, i)) + val(kring) * (val(xs[0][i]) + val(xs[1][i]) + val(
            xs[2][i],
        ) - val(xs[q][i])),
{
    let before: int = if q == 0 {
        2
    } else {
        q - 1
    };
    let after: int = if q == 2 {
        0
    } else {
        q + 1
    };
    a_replica_is_pulled_toward_both_neighbors(
        val,
        l,
        c0,
        restore,
        kring,
        c,
        xs,
        y,
        q,
        i,
        before,
        after,
    );
}

/// Positions of all replicas.
pub open spec fn positions<R>(ring: Seq<Phase<R>>) -> Seq<Seq<R>> {
    Seq::new(ring.len(), |q: int| ring[q].x)
}

/// A ring after one step.
pub open spec fn ring_stepped<R: Scalar>(
    l: Lattice,
    c0: R,
    restore: R,
    kring: R,
    delta: R,
    ring: Seq<Phase<R>>,
) -> Seq<Phase<R>> {
    let xs = positions(ring);
    Seq::new(
        ring.len(),
        |q: int|
            Phase {
                x: Seq::new(
                    ring[q].x.len(),
                    |i: int|
                        {
                            let y = ring_kicked(
                                l,
                                c0,
                                restore,
                                kring,
                                deadened(xs[q], delta),
                                xs,
                                ring[q].y[i],
                                q,
                                i,
                            );
                            walled(xs[q][i].plus(y), y).0
                        },
                ),
                y: Seq::new(
                    ring[q].x.len(),
                    |i: int|
                        {
                            let y = ring_kicked(
                                l,
                                c0,
                                restore,
                                kring,
                                deadened(xs[q], delta),
                                xs,
                                ring[q].y[i],
                                q,
                                i,
                            );
                            walled(xs[q][i].plus(y), y).1
                        },
                ),
            },
    )
}

/// A ring after the first `k` of `n_step` steps; `pulls[k]` is the ring
/// strength of step `k`.
pub open spec fn ring_at<R: Scalar>(
    l: Lattice,
    c0: R,
    dead_zone: R,
    n_step: nat,
    k: nat,
    strengths: Seq<R>,
    ring: Seq<Phase<R>>,
) -> Seq<Phase<R>>
    decreases k,
{
    if k == 0 {
        ring
    } else {
        ring_stepped(
            l,
            c0,
            restoring((k - 1) as nat, n_step),
            strengths[k - 1],
            dead_zone.times(R::fraction((k - 1) as nat, n_step)),
            ring_at(l, c0, dead_zone, n_step, (k - 1) as nat, strengths, ring),
        )
    }
}

proof fn lemma_ring_prefix<R: Scalar>(
    l: Lattice,
    c0: R,
    dead_zone: R,
    n_step: nat,
    k: nat,
    a: Seq<R>,
    b: Seq<R>,
    ring: Seq<Phase<R>>,
)
    requires
        k <= a.len(),
        k <= b.len(),
        forall|i: int| 0 <= i < k ==> a[i] == b[i],
    ensures
        ring_at(l, c0, dead_zone, n_step, k, a, ring) == ring_at(
            l,
            c0,
            dead_zone,
            n_step,
            k,
            b,
            ring,
        ),
    decreases k,
{
    if k > 0 {
        lemma_ring_prefix(l, c0, dead_zone, n_step, (k - 1) as nat, a, b, ring);
    }
}

/// Each of `size` replicas has `m` particles.
pub open spec fn replicas_fit<R>(v: Seq<Vec<R>>, size: nat, m: nat) -> bool {
    v.len() == size && forall|q: int| 0 <= q < size ==> (#[trigger] v[q])@.len() == m
}

/// The replicas of a ring as phases.
pub open spec fn ring_view<R>(xs: Seq<Vec<R>>, ys: Seq<Vec<R>>) -> Seq<Phase<R>> {
    Seq::new(xs.len(), |q: int| Phase { x: xs[q]@, y: ys[q]@ })
}

/// New momenta of replica `q`.
fn replica_momentum<R: Scalar>(
    g: &SbGraph<R>,
    restore: R,
    kring: R,
    coupled: &Vec<R>,
    xs: &Vec<Vec<R>>,
    y: &Vec<R>,
    q: usize,
) -> (r: Vec<R>)
    requires
        g.wf(),
        q < xs@.len(),
        replicas_fit(xs@, xs@.len(), particles(g.lattice())),
        coupled@.len() == particles(g.lattice()),
        y@.len() == particles(g.lattice()),
    ensures
        r@.len() == y@.len(),
        forall|i: int|
            0 <= i < y@.len() ==> #[trigger] r@[i] == ring_kicked(
                g.lattice(),
                g.scale(),
                restore,
                kring,
                coupled@,
                Seq::new(xs@.len(), |p: int| xs@[p]@),
                y@[i],
                q as int,
                i,
            ),
{
    let size: usize = xs.len();
    let qm: usize = if q == 0 {
        size - 1
    } else {
        q - 1
    };
    let qp: usize = if q + 1 == size {
        0
    } else {
        q + 1
    };
    let c0: R = g.c0();
    let ghost shown = Seq::new(xs@.len(), |p: int| xs@[p]@);
    let mut r: Vec<R> = Vec::with_capacity(y.len());
    let mut i: usize = 0;
    while i < y.len()
        invariant
            g.wf(),
            c0 == g.scale(),
            size == xs@.len(),
            q < size,
            qm == ring_before(q as int, size as int),
            qp == ring_after(q as int, size as int),
            qm < size,
            qp < size,
            shown == Seq::new(xs@.len(), |p: int| xs@[p]@),
            replicas_fit(xs@, xs@.len(), particles(g.lattice())),
            coupled@.len() == particles(g.lattice()),
            y@.len() == particles(g.lattice()),
            i <= y@.len(),
            r@.len() == i,
            forall|k: int|
                0 <= k < i ==> #[trigger] r@[k] == ring_kicked(
                    g.lattice(),
                    g.scale(),
                    restore,
                    kring,
                    coupled@,
                    shown,
                    y@[k],
                    q as int,
                    k,
                ),
        decreases y@.len() - i,
    {
        assert(xs@[q as int]@.len() == y@.len());
        assert(xs@[qm as int]@.len() == y@.len());
        assert(xs@[qp as int]@.len() == y@.len());
        let f: R = g.pull(coupled, i);
        let ring: R = xs[qm][i].sum(xs[qp][i]);
        let x: R = xs[q][i];
        r.push(
            y[i].sum(
                restore.product(x).difference(c0.product(f)).sum(kring.product(ring)),
            ),
        );
        i = i + 1;
    }
    r
}

/// Momentum update for every replica of one ring from the old positions of
/// every replica.
pub fn ring_momentum<R: Scalar>(
    g: &SbGraph<R>,
    restore: R,
    kring: R,
    coupled: &Vec<Vec<R>>,
    xs: &Vec<Vec<R>>,
    ys: &mut Vec<Vec<R>>,
)
    requires
        g.wf(),
        replicas_fit(xs@, xs@.len(), particles(g.lattice())),
        replicas_fit(coupled@, xs@.len(), particles(g.lattice())),
        replicas_fit(old(ys)@, xs@.len(), particles(g.lattice())),
    ensures
        replicas_fit(final(ys)@, xs@.len(), particles(g.lattice())),
        forall|q: int, i: int|
            #![trigger final(ys)@[q]@[i]]
            0 <= q < xs@.len() && 0 <= i < particles(g.lattice()) ==> final(ys)@[q]@[i]
                == ring_kicked(
                g.lattice(),
                g.scale(),
                restore,
                kring,
                coupled@[q]@,
                Seq::new(xs@.len(), |p: int| xs@[p]@),
                old(ys)@[q]@[i],
                q,
                i,
            ),
{
    let ghost m = particles(g.lattice());
    let ghost shown = Seq::new(xs@.len(), |p: int| xs@[p]@);
    let ghost before = ys@;
    let mut q: usize = 0;
    while q < xs.len()
        invariant
            g.wf(),
            m == particles(g.lattice()),
            shown == Seq::new(xs@.len(), |p: int| xs@[p]@),
            replicas_fit(xs@, xs@.len(), m),
            replicas_fit(coupled@, xs@.len(), m),
            replicas_fit(before, xs@.len(), m),
            replicas_fit(ys@, xs@.len(), m),
            q <= xs@.len(),
            forall|p: int| q <= p < xs@.len() ==> #[trigger] ys@[p] == before[p],
            forall|p: int, i: int|
                #![trigger ys@[p]@[i]]
                0 <= p < q && 0 <= i < m ==> ys@[p]@[i] == ring_kicked(
                    g.lattice(),
                    g.scale(),
                    restore,
                    kring,
                    coupled@[p]@,
                    shown,
                    before[p]@[i],
                    p,
                    i,
                ),
        decreases xs@.len() - q,
    {
        let ghost mid = ys@;
        assert(ys@[q as int] == before[q as int]);
        let row = replica_momentum(g, restore, kring, &coupled[q], xs, &ys[q], q);
        ys.set(q, row);
        proof {
            assert forall|p: int, i: int|
                #![trigger ys@[p]@[i]]
                0 <= p < q + 1 && 0 <= i < m implies ys@[p]@[i] == ring_kicked(
                g.lattice(),
                g.scale(),
                restore,
                kring,
                coupled@[p]@,
                shown,
                before[p]@[i],
                p,
                i,
            ) by {
                if p < q {
                    assert(ys@[p] == mid[p]);
                    assert(mid[p]@[i] == ys@[p]@[i]);
                } else {
                    assert(ys@[p]@ == row@);
                }
            }
        }
        q = q + 1;
    }
}

/// How all particles of a replica act.
fn deaden<R: Scalar>(x: &Vec<R>, delta: R) -> (c: Vec<R>)
    ensures
        c@ == deadened(x@, delta),
{
    let mut c: Vec<R> = Vec::with_capacity(x.len());
    let mut i: usize = 0;
    while i < x.len()
        invariant
            i <= x@.len(),
            c@.len() == i,
            forall|k: int| 0 <= k < i ==> #[trigger] c@[k] == dead_sign(x@[k], delta),
        decreases x@.len() - i,
    {
        c.push(dead_zone_sign(x[i], delta));
        i = i + 1;
    }
    assert(c@ =~= deadened(x@, delta));
    c
}

/// How all particles of all replicas act.
fn deaden_all<R: Scalar>(xs: &Vec<Vec<R>>, delta: R) -> (c: Vec<Vec<R>>)
    ensures
        c@.len() == xs@.len(),
        forall|q: int| 0 <= q < xs@.len() ==> (#[trigger] c@[q])@ == deadened(xs@[q]@, delta),
{
    let mut c: Vec<Vec<R>> = Vec::with_capacity(xs.len());
    let mut q: usize = 0;
    while q < xs.len()
        invariant
            q <= xs@.len(),
            c@.len() == q,
            forall|p: int| 0 <= p < q ==> (#[trigger] c@[p])@ == deadened(xs@[p]@, delta),
        decreases xs@.len() - q,
    {
        c.push(deaden(&xs[q], delta));
        q = q + 1;
    }
    c
}

/// Move one replica by its momenta, stopping at the walls.
fn drift_replica<R: Scalar>(x: &Vec<R>, y: &Vec<R>) -> (r: (Vec<R>, Vec<R>))
    requires
        x@.len() == y@.len(),
    ensures
        r.0@.len() == x@.len(),
        r.1@.len() == x@.len(),
        forall|i: int|
            0 <= i < x@.len() ==> (#[trigger] r.0@[i], r.1@[i]) == walled(x@[i].plus(y@[i]), y@[i]),
{
    let mut nx: Vec<R> = Vec::with_capacity(x.len());
    let mut ny: Vec<R> = Vec::with_capacity(x.len());
    let mut i: usize = 0;
    while i < x.len()
        invariant
            x@.len() == y@.len(),
            i <= x@.len(),
            nx@.len() == i,
            ny@.len() == i,
            forall|k: int|
                0 <= k < i ==> (#[trigger] nx@[k], ny@[k]) == walled(
                    x@[k].plus(y@[k]),
                    y@[k],
                ),
        decreases x@.len() - i,
    {
        let (a, b) = wall(x[i].sum(y[i]), y[i]);
        nx.push(a);
        ny.push(b);
        i = i + 1;
    }
    (nx, ny)
}

/// Advance a ring by one step.
pub fn ring_step<R: Scalar>(
    g: &SbGraph<R>,
    restore: R,
    kring: R,
    delta: R,
    xs: &mut Vec<Vec<R>>,
    ys: &mut Vec<Vec<R>>,
)
    requires
        g.wf(),
        replicas_fit(old(xs)@, old(xs)@.len(), particles(g.lattice())),
        replicas_fit(old(ys)@, old(xs)@.len(), particles(g.lattice())),
    ensures
        replicas_fit(final(xs)@, old(xs)@.len(), particles(g.lattice())),
        replicas_fit(final(ys)@, old(xs)@.len(), particles(g.lattice())),
        ring_view(final(xs)@, final(ys)@) == ring_stepped(
            g.lattice(),
            g.scale(),
            restore,
            kring,
            delta,
            ring_view(old(xs)@, old(ys)@),
        ),
{
    let ghost m = particles(g.lattice());
    let ghost size = xs@.len();
    let ghost ring = ring_view(xs@, ys@);
    let ghost shown = Seq::new(xs@.len(), |p: int| xs@[p]@);
    let ghost ys0 = ys@;
    let ghost target = ring_stepped(g.lattice(), g.scale(), restore, kring, delta, ring);
    let coupled = deaden_all(xs, delta);
    assert(replicas_fit(coupled@, size, m)) by {
        assert forall|q: int| 0 <= q < size implies (#[trigger] coupled@[q])@.len() == m by {
            assert(xs@[q]@.len() == m);
        }
    }
    ring_momentum(g, restore, kring, &coupled, xs, ys);
    assert(positions(ring) =~= shown);
    let ghost xs0 = xs@;
    let ghost kicked = ys@;
    let mut q: usize = 0;
    while q < xs.len()
        invariant
            m == particles(g.lattice()),
            size == xs0.len(),
            replicas_fit(xs0, size, m),
            replicas_fit(kicked, size, m),
            replicas_fit(xs@, size, m),
            replicas_fit(ys@, size, m),
            replicas_fit(ys0, size, m),
            ring == ring_view(xs0, ys0),
            shown == Seq::new(size, |p: int| xs0[p]@),
            positions(ring) == shown,
            coupled@.len() == size,
            forall|p: int|
                0 <= p < size ==> (#[trigger] coupled@[p])@ == deadened(xs0[p]@, delta),
            forall|p: int, i: int|
                #![trigger kicked[p]@[i]]
                0 <= p < size && 0 <= i < m ==> kicked[p]@[i] == ring_kicked(
                    g.lattice(),
                    g.scale(),
                    restore,
                    kring,
                    coupled@[p]@,
                    shown,
                    ys0[p]@[i],
                    p,
                    i,
                ),
            target == ring_stepped(g.lattice(), g.scale(), restore, kring, delta, ring),
            q <= size,
            forall|p: int| q <= p < size ==> #[trigger] xs@[p] == xs0[p],
            forall|p: int| q <= p < size ==> #[trigger] ys@[p] == kicked[p],
            forall|p: int| 0 <= p < q ==> (#[trigger] xs@[p])@ == target[p].x,
            forall|p: int| 0 <= p < q ==> (#[trigger] ys@[p])@ == target[p].y,
        decreases size - q,
    {
        assert(xs@[q as int] == xs0[q as int]);
        assert(ys@[q as int] == kicked[q as int]);
        let (nx, ny) = drift_replica(&xs[q], &ys[q]);
        proof {
            let p = q as int;
            assert(ring[p] == (Phase { x: xs0[p]@, y: ys0[p]@ }));
            assert(shown[p] == xs0[p]@);
            assert(coupled@[p]@ == deadened(xs0[p]@, delta));
            assert forall|i: int|
                #![trigger nx@[i]]
                #![trigger ny@[i]]
                0 <= i < m implies nx@[i] == target[p].x[i] && ny@[i] == target[p].y[i] by {
                assert((nx@[i], ny@[i]) == walled(xs0[p]@[i].plus(kicked[p]@[i]), kicked[p]@[i]));
            }
            assert(nx@ =~= target[p].x);
            assert(ny@ =~= target[p].y);
        }
        xs.set(q, nx);
        ys.set(q, ny);
        q = q + 1;
    }
    proof {
        assert(ring_view(xs@, ys@) =~= target) by {
            assert forall|p: int| 0 <= p < size implies ring_view(xs@, ys@)[p] == target[p] by {
                assert(xs@[p]@ == target[p].x);
                assert(ys@[p]@ == target[p].y);
            }
        }
    }
}

/// `v` is the ring strength of step `k`; 0 on a ring of one.
pub open spec fn strength_at<
    R: Scalar,
    U: Fn(u32, R, R) -> R,
    P: Fn(R, R) -> R,
    T: Fn(R) -> R,
    L: Fn(R) -> R,
>(
    math: RingMath<U, P, T, L>,
    theta0: R,
    a: R,
    b: R,
    size: usize,
    n_step: nat,
    k: nat,
    v: R,
) -> bool {
    if size > 1 {
        is_ring_coupling(
            math.pow,
            math.tanh,
            math.ln,
            R::fraction(k, n_step),
            theta0,
            a,
            b,
            size as nat,
            v,
        )
    } else {
        v == nil::<R>()
    }
}

/// `v` is what `between` makes of some word and a range in thousandths.
pub open spec fn drawn_between<R: Scalar, U: Fn(u32, R, R) -> R>(
    between: U,
    range: (i32, i32),
    v: R,
) -> bool {
    exists|word: u32| #[trigger]
        call_ensures(
            between,
            (word, R::of_milli(range.0 as int), R::of_milli(range.1 as int)),
            v,
        )
}

/// `v` is what `between` makes of the drawn word and a range in thousandths.
pub open spec fn between_on<R: Scalar, U: Fn(u32, R, R) -> R>(
    between: U,
    range: (i32, i32),
    d: Draw,
    v: R,
) -> bool {
    d matches Draw::Half(word) && call_ensures(
        between,
        (word, R::of_milli(range.0 as int), R::of_milli(range.1 as int)),
        v,
    )
}

/// `s` is the start that the generator with the seed of read `i` makes.
pub open spec fn start_of_read<R: Scalar, D: Fn(u32, R, R) -> R>(
    draw: D,
    seed: u64,
    i: int,
    m: nat,
    s: Phase<R>,
) -> bool {
    exists|log: Seq<Draw>| #[trigger]
        start_on(draw, log, m, s) && drawn_from(read_seed_of(seed, i as u64), log)
}

/// The inverse temperature `b` and the exponent `a` of ring `ring` are the first
/// two numbers of the generator of that ring.
pub open spec fn numbers_of_ring<R: Scalar, U: Fn(u32, R, R) -> R>(
    between: U,
    cfg: SbqaConfig,
    seed: u64,
    ring: int,
    a: R,
    b: R,
) -> bool {
    exists|log: Seq<Draw>| #[trigger]
        drawn_from(read_seed_of(seed ^ RING_SALT, ring as u64), log) && log.len() == 2
            && between_on(between, cfg.beta_range_milli, log[0], b) && between_on(
            between,
            cfg.alpha_range_milli,
            log[1],
            a,
        )
}

/// The draws of one ring: exponent `a`, inverse temperature `b`, the strength
/// of every step, and a start per replica. Replica `q` is read `first + q`.
pub open spec fn ring_drawn<
    R: Scalar,
    D: Fn(u32, R, R) -> R,
    U: Fn(u32, R, R) -> R,
    P: Fn(R, R) -> R,
    T: Fn(R) -> R,
    L: Fn(R) -> R,
>(
    draw: D,
    math: RingMath<U, P, T, L>,
    cfg: SbqaConfig,
    seed: u64,
    ring: int,
    first: int,
    m: nat,
    size: usize,
    n_step: nat,
    a: R,
    b: R,
    strengths: Seq<R>,
    start: Seq<Phase<R>>,
) -> bool {
    &&& drawn_between(math.between, cfg.alpha_range_milli, a)
    &&& drawn_between(math.between, cfg.beta_range_milli, b)
    &&& numbers_of_ring(math.between, cfg, seed, ring, a, b)
    &&& strengths.len() == n_step
    &&& forall|k: int|
        0 <= k < n_step ==> strength_at(
            math,
            R::of_milli(cfg.theta0_milli as int),
            a,
            b,
            size,
            n_step,
            k as nat,
            #[trigger] strengths[k],
        )
    &&& start.len() == size
    &&& forall|q: int| 0 <= q < size ==> drawn_start(draw, m, #[trigger] start[q])
    &&& forall|q: int|
        0 <= q < size ==> start_of_read(draw, seed, first + q, m, #[trigger] start[q])
}

/// `spins` are where the replicas of some drawn ring end up.
pub open spec fn ring_ends<
    R: Scalar,
    D: Fn(u32, R, R) -> R,
    U: Fn(u32, R, R) -> R,
    P: Fn(R, R) -> R,
    T: Fn(R) -> R,
    L: Fn(R) -> R,
>(
    draw: D,
    math: RingMath<U, P, T, L>,
    l: Lattice,
    c0: R,
    cfg: SbqaConfig,
    seed: u64,
    ring: int,
    first: int,
    n_step: nat,
    size: usize,
    spins: Seq<Seq<i8>>,
) -> bool {
    exists|a: R, b: R, strengths: Seq<R>, start: Seq<Phase<R>>|
        #![trigger ring_drawn(draw, math, cfg, seed, ring, first, particles(l), size, n_step, a, b, strengths, start)]
        ring_drawn(draw, math, cfg, seed, ring, first, particles(l), size, n_step, a, b, strengths, start) && spins
            == Seq::new(
            size as nat,
            |q: int|
                gauged_spins(
                    l,
                    ring_at(
                        l,
                        c0,
                        R::of_milli(cfg.dead_zone_milli as int),
                        n_step,
                        n_step,
                        strengths,
                        start,
                    )[q].x,
                ),
        )
}

/// The spins of `size` results from `first` on.
pub open spec fn spins_from(results: Seq<SamplerResult>, first: int, size: nat) -> Seq<Seq<i8>> {
    Seq::new(size, |q: int| results[first + q].spins@)
}

/// The results of a replica-ring job: each is scored, and consecutive reads
/// form the rings.
pub open spec fn sbqa_results<
    R: Scalar,
    D: Fn(u32, R, R) -> R,
    U: Fn(u32, R, R) -> R,
    P: Fn(R, R) -> R,
    T: Fn(R) -> R,
    L: Fn(R) -> R,
    W: Scalar,
    N: Fn(W) -> R,
>(
    draw: D,
    math: RingMath<U, P, T, L>,
    narrow: N,
    g: IsingGraph,
    cfg: SbqaConfig,
    seed: u64,
    num_reads: nat,
    n_step: nat,
    results: Seq<SamplerResult>,
) -> bool {
    &&& forall|i: int| 0 <= i < results.len() ==> scored(g, #[trigger] results[i])
    &&& exists|c0: R| #[trigger]
        scaled(g, narrow, c0) && forall|j: int|
            0 <= j < ring_count(num_reads, cfg.replicas as nat) ==> ring_ends(
                draw,
                math,
                lattice(g),
                c0,
                cfg,
                seed,
                j,
                reads_before(num_reads, cfg.replicas as nat, j) as int,
                n_step,
                ring_size(num_reads, cfg.replicas as nat, j) as usize,
                #[trigger] ring_spins(results, num_reads, cfg.replicas as nat, j),
            )
}

/// The spins of ring `j`.
pub open spec fn ring_spins(
    results: Seq<SamplerResult>,
    num_reads: nat,
    replicas: nat,
    j: int,
) -> Seq<Seq<i8>> {
    spins_from(
        results,
        reads_before(num_reads, replicas, j) as int,
        ring_size(num_reads, replicas, j),
    )
}

/// The rings of a job are independent, and so are the replicas of a ring: ring `j`
/// draws its inverse temperature and its exponent from two words of a generator
/// that no other ring has, and each of its replicas starts from the generator with
/// the seed of its own read.
pub proof fn every_replica_has_its_own_generator<
    R: Scalar,
    D: Fn(u32, R, R) -> R,
    U: Fn(u32, R, R) -> R,
    P: Fn(R, R) -> R,
    T: Fn(R) -> R,
    L: Fn(R) -> R,
    W: Scalar,
    N: Fn(W) -> R,
>(
    draw: D,
    math: RingMath<U, P, T, L>,
    narrow: N,
    g: IsingGraph,
    cfg: SbqaConfig,
    seed: u64,
    num_reads: nat,
    n_step: nat,
    results: Seq<SamplerResult>,
    j: int,
)
    requires
        results.len() <= u64::MAX,
        sbqa_results(draw, math, narrow, g, cfg, seed, num_reads, n_step, results),
        0 <= j < ring_count(num_reads, cfg.replicas as nat) <= u64::MAX,
    ensures
        exists|
            c0: R,
            a: R,
            b: R,
            strengths: Seq<R>,
            start: Seq<Phase<R>>,
            log: Seq<Draw>,
        |
            #![trigger scaled(g, narrow, c0), ring_at(lattice(g), c0, R::of_milli(cfg.dead_zone_milli as int), n_step, n_step, strengths, start), between_on(math.between, cfg.alpha_range_milli, log[1], a), between_on(math.between, cfg.beta_range_milli, log[0], b)]
            {
                &&& scaled(g, narrow, c0)
                &&& drawn_from(read_seed_of(seed ^ RING_SALT, j as u64), log)
                &&& between_on(math.between, cfg.beta_range_milli, log[0], b)
                &&& between_on(math.between, cfg.alpha_range_milli, log[1], a)
                &&& strengths.len() == n_step
                &&& forall|k: int|
                    0 <= k < n_step ==> strength_at(
                        math,
                        R::of_milli(cfg.theta0_milli as int),
                        a,
                        b,
                        ring_size(num_reads, cfg.replicas as nat, j) as usize,
                        n_step,
                        k as nat,
                        #[trigger] strengths[k],
                    )
                &&& forall|q: int|
                    0 <= q < ring_size(num_reads, cfg.replicas as nat, j) as usize ==> {
                        &&& start_of_read(
                            draw,
                            seed,
                            reads_before(num_reads, cfg.replicas as nat, j) + q,
                            particles(lattice(g)),
                            #[trigger] start[q],
                        )
                        &&& ring_spins(results, num_reads, cfg.replicas as nat, j)[q]
                            == gauged_spins(
                            lattice(g),
                            ring_at(
                                lattice(g),
                                c0,
                                R::of_milli(cfg.dead_zone_milli as int),
                                n_step,
                                n_step,
                                strengths,
                                start,
                            )[q].x,
                        )
                    }
            },
        forall|i: int, s: Phase<R>|
            #[trigger] start_of_read(draw, seed, i, particles(lattice(g)), s) ==> exists|
                own: Seq<Draw>,
            | #[trigger]
                start_on(draw, own, particles(lattice(g)), s) && drawn_from(
                    read_seed_of(seed, i as u64),
                    own,
                ),
        forall|p: int, q: int|
            0 <= p < q < results.len() ==> #[trigger] read_seed_of(seed, p as u64)
                != #[trigger] read_seed_of(seed, q as u64),
        forall|p: int|
            0 <= p < ring_count(num_reads, cfg.replicas as nat) && p != j
                ==> #[trigger] read_seed_of(seed ^ RING_SALT, p as u64) != read_seed_of(
                seed ^ RING_SALT,
                j as u64,
            ),
{
    let replicas = cfg.replicas as nat;
    let l = lattice(g);
    let size = ring_size(num_reads, replicas, j) as usize;
    let first = reads_before(num_reads, replicas, j) as int;
    let c0 = choose|c0: R| #[trigger]
        scaled(g, narrow, c0) && forall|j: int|
            0 <= j < ring_count(num_reads, cfg.replicas as nat) ==> ring_ends(
                draw,
                math,
                lattice(g),
                c0,
                cfg,
                seed,
                j,
                reads_before(num_reads, cfg.replicas as nat, j) as int,
                n_step,
                ring_size(num_reads, cfg.replicas as nat, j) as usize,
                #[trigger] ring_spins(results, num_reads, cfg.replicas as nat, j),
            );
    let spins = ring_spins(results, num_reads, replicas, j);
    assert(ring_ends(draw, math, l, c0, cfg, seed, j, first, n_step, size, spins));
    let dead_zone = R::of_milli(cfg.dead_zone_milli as int);
    let (a, b, strengths, start) = choose|a: R, b: R, strengths: Seq<R>, start: Seq<Phase<R>>|
        #![trigger ring_drawn(draw, math, cfg, seed, j, first, particles(l), size, n_step, a, b, strengths, start)]
        ring_drawn(
            draw,
            math,
            cfg,
            seed,
            j,
            first,
            particles(l),
            size,
            n_step,
            a,
            b,
            strengths,
            start,
        ) && spins == Seq::new(
            size as nat,
            |q: int|
                gauged_spins(
                    l,
                    ring_at(l, c0, dead_zone, n_step, n_step, strengths, start)[q].x,
                ),
        );
    assert(numbers_of_ring(math.between, cfg, seed, j, a, b));
    let log = choose|log: Seq<Draw>| #[trigger]
        drawn_from(read_seed_of(seed ^ RING_SALT, j as u64), log) && log.len() == 2
            && between_on(math.between, cfg.beta_range_milli, log[0], b) && between_on(
            math.between,
            cfg.alpha_range_milli,
            log[1],
            a,
        );
    let end = ring_at(l, c0, dead_zone, n_step, n_step, strengths, start);
    assert forall|q: int| 0 <= q < size implies start_of_read(
        draw,
        seed,
        first + q,
        particles(l),
        #[trigger] start[q],
    ) && spins[q] == gauged_spins(l, end[q].x) by {}
    assert forall|p: int, q: int| 0 <= p < q < results.len() implies #[trigger] read_seed_of(
        seed,
        p as u64,
    ) != #[trigger] read_seed_of(seed, q as u64) by {
        reads_of_a_job_have_distinct_seeds(seed, p as u64, q as u64);
    }
    assert forall|p: int|
        0 <= p < ring_count(num_reads, replicas) && p != j implies #[trigger] read_seed_of(
        seed ^ RING_SALT,
        p as u64,
    ) != read_seed_of(seed ^ RING_SALT, j as u64) by {
        reads_of_a_job_have_distinct_seeds(seed ^ RING_SALT, p as u64, j as u64);
    }
}

/// Draw the starts of a ring whose first read is `first`.
fn draw_ring<R: Scalar, D: Fn(u32, R, R) -> R>(
    draw: &D,
    seed: u64,
    first: usize,
    size: usize,
    m: usize,
) -> (r: (Vec<Vec<R>>, Vec<Vec<R>>))
    requires
        first + size <= usize::MAX,
        draws_starts::<R, D>(*draw),
    ensures
        replicas_fit(r.0@, size as nat, m as nat),
        replicas_fit(r.1@, size as nat, m as nat),
        forall|q: int|
            0 <= q < size ==> drawn_start(*draw, m as nat, #[trigger] ring_view(r.0@, r.1@)[q]),
        forall|q: int|
            0 <= q < size ==> start_of_read(
                *draw,
                seed,
                first + q,
                m as nat,
                #[trigger] ring_view(r.0@, r.1@)[q],
            ),
{
    let mut xs: Vec<Vec<R>> = Vec::with_capacity(size);
    let mut ys: Vec<Vec<R>> = Vec::with_capacity(size);
    let mut q: usize = 0;
    while q < size
        invariant
            first + size <= usize::MAX,
            draws_starts::<R, D>(*draw),
            q <= size,
            replicas_fit(xs@, q as nat, m as nat),
            replicas_fit(ys@, q as nat, m as nat),
            forall|p: int|
                0 <= p < q ==> drawn_start(*draw, m as nat, #[trigger] ring_view(xs@, ys@)[p]),
            forall|p: int|
                0 <= p < q ==> start_of_read(
                    *draw,
                    seed,
                    first + p,
                    m as nat,
                    #[trigger] ring_view(xs@, ys@)[p],
                ),
        decreases size - q,
    {
        let ghost before = ring_view(xs@, ys@);
        let mut src = Source::of_read(seed, first + q);
        let (x, y) = draw_start(m, draw, &mut src);
        let ghost start = Phase { x: x@, y: y@ };
        xs.push(x);
        ys.push(y);
        proof {
            assert(drawn_start(*draw, m as nat, start));
            src.lemma_record(read_seed_of(seed, (first + q) as u64));
            assert(start_on(*draw, src.log(), m as nat, start));
            assert forall|p: int| 0 <= p < q + 1 implies drawn_start(
                *draw,
                m as nat,
                #[trigger] ring_view(xs@, ys@)[p],
            ) && start_of_read(*draw, seed, first + p, m as nat, ring_view(xs@, ys@)[p]) by {
                if p < q {
                    assert(ring_view(xs@, ys@)[p] == before[p]);
                } else {
                    assert(ring_view(xs@, ys@)[p] == start);
                }
            }
        }
        q = q + 1;
    }
    (xs, ys)
}

/// A number from a range in thousandths, from the next word.
fn draw_between<
    R: Scalar,
    U: Fn(u32, R, R) -> R,
    P: Fn(R, R) -> R,
    T: Fn(R) -> R,
    L: Fn(R) -> R,
>(math: &RingMath<U, P, T, L>, range: (i32, i32), src: &mut Source) -> (v: R)
    requires
        math.total::<R>(),
        range.0 <= range.1,
        old(src).wf(),
    ensures
        drawn_between(math.between, range, v),
        final(src).wf(),
        final(src).start() == old(src).start(),
        final(src).log().drop_last() == old(src).log(),
        final(src).log().len() == old(src).log().len() + 1,
        between_on(math.between, range, final(src).log().last(), v),
{
    let word: u32 = src.half();
    assert(src.log().drop_last() =~= old(src).log());
    let lo: R = R::from_milli(range.0);
    let hi: R = R::from_milli(range.1);
    let between = &math.between;
    let v: R = between(word, lo, hi);
    assert(call_ensures(
        math.between,
        (word, R::of_milli(range.0 as int), R::of_milli(range.1 as int)),
        v,
    ));
    v
}

/// Run one ring and score its replicas.
fn sample_ring<
    R: Scalar,
    D: Fn(u32, R, R) -> R,
    U: Fn(u32, R, R) -> R,
    P: Fn(R, R) -> R,
    T: Fn(R) -> R,
    L: Fn(R) -> R,
>(
    g: &SbGraph<R>,
    graph: &IsingGraph,
    seed: u64,
    n_step: usize,
    cfg: SbqaConfig,
    ring_idx: usize,
    first: usize,
    size: usize,
    draw: &D,
    math: &RingMath<U, P, T, L>,
) -> (results: Vec<SamplerResult>)
    requires
        g.wf(),
        g.lattice() == lattice(*graph),
        n_step > 0,
        first + size <= usize::MAX,
        cfg.wf(),
        draws_starts::<R, D>(*draw),
        math.total::<R>(),
    ensures
        results@.len() == size,
        forall|i: int| 0 <= i < size ==> scored(*graph, #[trigger] results@[i]),
        ring_ends(
            *draw,
            *math,
            lattice(*graph),
            g.scale(),
            cfg,
            seed,
            ring_idx as int,
            first as int,
            n_step as nat,
            size,
            spins_from(results@, 0, size as nat),
        ),
{
    let m: usize = g.num_particles();
    let ghost l = lattice(*graph);
    let ghost c0 = g.scale();
    let mut ring_source = Source::of_read(seed ^ RING_SALT, ring_idx);
    let b: R = draw_between(math, cfg.beta_range_milli, &mut ring_source);
    let ghost held = ring_source.log();
    let a: R = draw_between(math, cfg.alpha_range_milli, &mut ring_source);
    proof {
        let log = ring_source.log();
        assert(log[0] == log.drop_last()[0]);
        assert(held[0] == held.last());
        ring_source.lemma_record(read_seed_of(seed ^ RING_SALT, ring_idx as u64));
        assert(numbers_of_ring(math.between, cfg, seed, ring_idx as int, a, b));
    }
    let theta0: R = R::from_milli(cfg.theta0_milli);
    let dead_zone: R = R::from_milli(cfg.dead_zone_milli);
    let (mut xs, mut ys) = draw_ring(draw, seed, first, size, m);
    let ghost start = ring_view(xs@, ys@);
    let ghost mut strengths: Seq<R> = Seq::empty();
    let mut k: usize = 0;
    while k < n_step
        invariant
            g.wf(),
            g.lattice() == l,
            g.scale() == c0,
            m == particles(l),
            math.total::<R>(),
            replicas_fit(xs@, size as nat, m as nat),
            replicas_fit(ys@, size as nat, m as nat),
            k <= n_step,
            strengths.len() == k,
            forall|i: int|
                0 <= i < k ==> strength_at(
                    *math,
                    theta0,
                    a,
                    b,
                    size,
                    n_step as nat,
                    i as nat,
                    #[trigger] strengths[i],
                ),
            ring_view(xs@, ys@) == ring_at(
                l,
                c0,
                dead_zone,
                n_step as nat,
                k as nat,
                strengths,
                start,
            ),
        decreases n_step - k,
    {
        let u: R = R::ratio(k, n_step);
        let restore: R = restore_at(k, n_step);
        let delta: R = dead_zone.product(u);
        let kring: R = if size > 1 {
            ring_coupling(&math.pow, &math.tanh, &math.ln, u, theta0, a, b, size)
        } else {
            zero()
        };
        ring_step(g, restore, kring, delta, &mut xs, &mut ys);
        proof {
            let before = strengths;
            strengths = strengths.push(kring);
            assert(strength_at(*math, theta0, a, b, size, n_step as nat, k as nat, kring));
            assert forall|i: int| 0 <= i < k + 1 implies strength_at(
                *math,
                theta0,
                a,
                b,
                size,
                n_step as nat,
                i as nat,
                #[trigger] strengths[i],
            ) by {
                if i < k {
                    assert(strengths[i] == before[i]);
                }
            }
            lemma_ring_prefix(
                l,
                c0,
                dead_zone,
                n_step as nat,
                k as nat,
                before,
                strengths,
                start,
            );
        }
        k = k + 1;
    }
    let ghost end = ring_view(xs@, ys@);
    let mut results: Vec<SamplerResult> = Vec::with_capacity(size);
    let mut q: usize = 0;
    while q < size
        invariant
            g.wf(),
            g.lattice() == l,
            l == lattice(*graph),
            m == particles(l),
            replicas_fit(xs@, size as nat, m as nat),
            end == ring_view(xs@, ys@),
            q <= size,
            results@.len() == q,
            forall|i: int|
                0 <= i < q ==> scored(*graph, #[trigger] results@[i]) && results@[i].spins@
                    == gauged_spins(l, end[i].x),
        decreases size - q,
    {
        assert(end[q as int].x == xs@[q as int]@);
        let spins = gauge_fixed_spins(g, &xs[q]);
        results.push(score_spins(spins, graph));
        q = q + 1;
    }
    proof {
        assert(ring_drawn(
            *draw,
            *math,
            cfg,
            seed,
            ring_idx as int,
            first as int,
            particles(l),
            size,
            n_step as nat,
            a,
            b,
            strengths,
            start,
        ));
        assert(spins_from(results@, 0, size as nat) =~= Seq::new(
            size as nat,
            |i: int|
                gauged_spins(
                    l,
                    ring_at(
                        l,
                        c0,
                        dead_zone,
                        n_step as nat,
                        n_step as nat,
                        strengths,
                        start,
                    )[i].x,
                ),
        ));
    }
    results
}

/// Run a replica-ring job. The inverse temperature and the exponent of a ring are
/// drawn from one word each.
pub fn sample_sbqa<
    R: Scalar,
    D: Fn(u32, R, R) -> R,
    U: Fn(u32, R, R) -> R,
    P: Fn(R, R) -> R,
    T: Fn(R) -> R,
    L: Fn(R) -> R,
    W: Scalar,
    N: Fn(W) -> R,
>(
    graph: &IsingGraph,
    params: &SampleParams,
    cfg: SbqaConfig,
    narrow: &N,
    draw: &D,
    math: &RingMath<U, P, T, L>,
) -> (results: Vec<SamplerResult>)
    requires
        graph.fits(),
        cfg.wf(),
        forall|x: W| #[trigger] call_requires(*narrow, (x,)),
        draws_starts::<R, D>(*draw),
        math.total::<R>(),
    ensures
        results@.len() == params.reads(),
        sbqa_results(
            *draw,
            *math,
            *narrow,
            *graph,
            cfg,
            params.seed,
            params.num_reads as nat,
            at_least_one(params.num_sweeps as nat),
            results@,
        ),
{
    let g = SbGraph::from_base(graph, narrow);
    let n_step: usize = or_one(params.num_sweeps);
    let sizes = ring_sizes(params.num_reads, cfg.replicas);
    let ghost reads = params.num_reads as nat;
    let ghost replicas = cfg.replicas as nat;
    let ghost l = lattice(*graph);
    let ghost c0 = g.scale();
    let mut results: Vec<SamplerResult> = Vec::new();
    let mut j: usize = 0;
    while j < sizes.len()
        invariant
            g.wf(),
            g.lattice() == l,
            l == lattice(*graph),
            g.scale() == c0,
            n_step == at_least_one(params.num_sweeps as nat),
            n_step > 0,
            reads == params.num_reads as nat,
            replicas == cfg.replicas as nat,
            cfg.wf(),
            draws_starts::<R, D>(*draw),
            math.total::<R>(),
            sizes@.len() == ring_count(reads, replicas),
            forall|i: int|
                0 <= i < sizes@.len() ==> #[trigger] sizes@[i] == ring_size(reads, replicas, i),
            j <= sizes@.len(),
            results@.len() == reads_before(reads, replicas, j as int),
            forall|i: int| 0 <= i < results@.len() ==> scored(*graph, #[trigger] results@[i]),
            forall|i: int|
                0 <= i < j ==> ring_ends(
                    *draw,
                    *math,
                    l,
                    c0,
                    cfg,
                    params.seed,
                    i,
                    reads_before(reads, replicas, i) as int,
                    n_step as nat,
                    ring_size(reads, replicas, i) as usize,
                    #[trigger] ring_spins(results@, reads, replicas, i),
                ),
        decreases sizes@.len() - j,
    {
        let first: usize = results.len();
        let size: usize = sizes[j];
        proof {
            lemma_reads_before(reads, replicas, j as int + 1, ring_count(reads, replicas) as int);
            rings_hold_every_read(reads, replicas, ring_count(reads, replicas) as int);
        }
        let mut part = sample_ring(
            &g,
            graph,
            params.seed,
            n_step,
            cfg,
            j,
            first,
            size,
            draw,
            math,
        );
        let ghost before = results@;
        let ghost added = part@;
        results.append(&mut part);
        proof {
            assert forall|i: int| 0 <= i < j + 1 implies ring_ends(
                *draw,
                *math,
                l,
                c0,
                cfg,
                params.seed,
                i,
                reads_before(reads, replicas, i) as int,
                n_step as nat,
                ring_size(reads, replicas, i) as usize,
                #[trigger] ring_spins(results@, reads, replicas, i),
            ) by {
                if i < j {
                    lemma_reads_before(reads, replicas, i + 1, j as int);
                    assert(ring_spins(results@, reads, replicas, i) =~= ring_spins(
                        before,
                        reads,
                        replicas,
                        i,
                    ));
                } else {
                    assert(ring_spins(results@, reads, replicas, i) =~= spins_from(
                        added,
                        0,
                        size as nat,
                    ));
                }
            }
            assert forall|i: int| 0 <= i < results@.len() implies scored(
                *graph,
                #[trigger] results@[i],
            ) by {
                if i < first {
                    assert(results@[i] == before[i]);
                } else {
                    assert(results@[i] == added[i - first]);
                }
            }
        }
        j = j + 1;
    }
    proof {
        rings_hold_every_read(reads, replicas, ring_count(reads, replicas) as int);
        assert(scaled(*graph, *narrow, c0));
    }
    results
}

proof fn lemma_reads_before(num_reads: nat, replicas: nat, i: int, k: int)
    requires
        0 <= i <= k,
    ensures
        reads_before(num_reads, replicas, i) <= reads_before(num_reads, replicas, k),
    decreases k,
{
    if i < k {
        lemma_reads_before(num_reads, replicas, i, k - 1);
    }
}

/// Step `k` of a ring: each particle takes up its restoring force, the pull of its
/// replica outside the dead zone, and the strength of that step times the sum of
/// its two ring neighbors, all read before the step. It moves by its new momentum,
/// unless a wall stops it.
pub proof fn a_ring_step_takes_up_the_ring<R: Scalar>(
    val: spec_fn(R) -> real,
    l: Lattice,
    c0: R,
    dead_zone: R,
    n_step: nat,
    k: nat,
    strengths: Seq<R>,
    start: Seq<Phase<R>>,
    q: int,
    i: int,
    before: int,
    after: int,
)
    requires
        exact(val),
        0 < n_step,
        ({
            let ring = ring_at(l, c0, dead_zone, n_step, k, strengths, start);
            let size = ring.len() as int;
            &&& 0 <= q < size
            &&& 0 <= before < size
            &&& 0 <= after < size
            &&& (before + 1) % size == q
            &&& (q + 1) % size == after
            &&& 0 <= i < ring[q].x.len()
        }),
    ensures
        ({
            let ring = ring_at(l, c0, dead_zone, n_step, k, strengths, start);
            let next = ring_at(l, c0, dead_zone, n_step, k + 1, strengths, start)[q];
            let delta = dead_zone.times(R::fraction(k, n_step));
            let pull = val(pull_on(l, deadened(ring[q].x, delta), i));
            let near = val(ring[before].x[i]) + val(ring[after].x[i]);
            let x = val(ring[q].x[i]);
            let y = val(ring[q].y[i]) + (val(restoring::<R>(k, n_step)) * x - val(c0) * pull + val(
                strengths[k as int],
            ) * near);
            &&& (-1int as real) <= x + y <= 1int as real ==> val(next.x[i]) == x + y && val(
                next.y[i],
            ) == y
            &&& x + y > 1int as real ==> val(next.x[i]) == 1int as real && val(next.y[i])
                == 0int as real
            &&& x + y < -1int as real ==> val(next.x[i]) == -1int as real && val(next.y[i])
                == 0int as real
        }),
{
    let ring = ring_at(l, c0, dead_zone, n_step, k, strengths, start);
    let delta = dead_zone.times(R::fraction(k, n_step));
    let restore = restoring::<R>(k, n_step);
    let kring = strengths[k as int];
    let next = ring_at(l, c0, dead_zone, n_step, k + 1, strengths, start);
    assert(next == ring_stepped(l, c0, restore, kring, delta, ring));
    let xs = positions(ring);
    assert(xs[q] == ring[q].x && xs[before] == ring[before].x && xs[after] == ring[after].x);
    let c = deadened(xs[q], delta);
    let y = ring_kicked(l, c0, restore, kring, c, xs, ring[q].y[i], q, i);
    a_replica_is_pulled_toward_both_neighbors(
        val,
        l,
        c0,
        restore,
        kring,
        c,
        xs,
        ring[q].y[i],
        q,
        i,
        before,
        after,
    );
    walls_stop_a_particle(val, xs[q][i].plus(y), y);
    assert(next[q].x[i] == walled(xs[q][i].plus(y), y).0);
    assert(next[q].y[i] == walled(xs[q][i].plus(y), y).1);
}

/// A particle acts with its sign outside the dead zone, and not at all inside it.
pub proof fn the_dead_zone_silences_small_positions<R: Scalar>(
    val: spec_fn(R) -> real,
    x: R,
    delta: R,
)
    requires
        exact(val),
        val(delta) >= 0int as real,
    ensures
        val(x) > val(delta) ==> val(dead_sign(x, delta)) == 1int as real,
        val(x) < -val(delta) ==> val(dead_sign(x, delta)) == -1int as real,
        -val(delta) <= val(x) <= val(delta) ==> val(dead_sign(x, delta)) == 0int as real,
{
    lemma_exact_values(val, x);
    assert(val(R::of_milli(-1000)) == -1000int as real / 1000int as real);
}

/// The strength of a ring: `2 beta k` is `-size` times the logarithm of the
/// hyperbolic tangent, so a ring pulls its replicas together wherever that tangent
/// lies below 1; and at the same time and exponent the strength grows with the
/// number of replicas and falls with the inverse temperature in proportion.
pub proof fn a_ring_pulls_together<
    R: Scalar,
    P: Fn(R, R) -> R,
    T: Fn(R) -> R,
    L: Fn(R) -> R,
>(
    val: spec_fn(R) -> real,
    pow: P,
    tanh: T,
    ln: L,
    u: R,
    theta0: R,
    alpha: R,
    beta1: R,
    size1: nat,
    first: R,
    beta2: R,
    size2: nat,
    second: R,
)
    requires
        exact(val),
        forall|x: R, a: R, y: R, z: R| #[trigger]
            call_ensures(pow, (x, a), y) && #[trigger] call_ensures(pow, (x, a), z) ==> y == z,
        forall|x: R, y: R, z: R| #[trigger]
            call_ensures(tanh, (x,), y) && #[trigger] call_ensures(tanh, (x,), z) ==> y == z,
        forall|x: R, y: R, z: R| #[trigger]
            call_ensures(ln, (x,), y) && #[trigger] call_ensures(ln, (x,), z) ==> y == z,
        forall|x: R, y: R| #[trigger] call_ensures(tanh, (x,), y) ==> val(y) < 1int as real,
        forall|x: R, y: R| #[trigger]
            call_ensures(ln, (x,), y) && val(x) < 1int as real ==> val(y) < 0int as real,
        val(beta1) > 0int as real,
        val(beta2) > 0int as real,
        size1 > 0,
        size2 > 0,
        is_ring_coupling(pow, tanh, ln, u, theta0, alpha, beta1, size1, first),
        is_ring_coupling(pow, tanh, ln, u, theta0, alpha, beta2, size2, second),
    ensures
        val(first) > 0int as real,
        (val(first) * val(beta1)) * size2 as real == (val(second) * val(beta2))
            * size1 as real,
{
    let (p1, t1, g1) = choose|power: R, t: R, log: R|
        #![trigger call_ensures(pow, (unit::<R>().minus(u), alpha), power), call_ensures(tanh, (ring_angle(theta0, power),), t), call_ensures(ln, (t,), log)]
        {
            &&& call_ensures(pow, (unit::<R>().minus(u), alpha), power)
            &&& call_ensures(tanh, (ring_angle(theta0, power),), t)
            &&& call_ensures(ln, (t,), log)
            &&& first == R::fraction(size1, 1).times(
                opposite(unit::<R>().over(R::of_milli(2000).times(beta1))).times(log),
            )
        };
    let (p2, t2, g2) = choose|power: R, t: R, log: R|
        #![trigger call_ensures(pow, (unit::<R>().minus(u), alpha), power), call_ensures(tanh, (ring_angle(theta0, power),), t), call_ensures(ln, (t,), log)]
        {
            &&& call_ensures(pow, (unit::<R>().minus(u), alpha), power)
            &&& call_ensures(tanh, (ring_angle(theta0, power),), t)
            &&& call_ensures(ln, (t,), log)
            &&& second == R::fraction(size2, 1).times(
                opposite(unit::<R>().over(R::of_milli(2000).times(beta2))).times(log),
            )
        };
    assert(p1 == p2);
    assert(t1 == t2);
    assert(g1 == g2);
    let g = val(g1);
    assert(val(t1) < 1int as real);
    assert(g < 0int as real);
    let (a, b) = (size1 as real, size2 as real);
    lemma_strength(val, beta1, size1, g1);
    lemma_strength(val, beta2, size2, g1);
    let (k, m) = (val(first) * val(beta1), val(second) * val(beta2));
    assert(2int as real * k == -(a * g));
    assert(2int as real * m == -(b * g));
    lemma_spread(b, 0int as real, a * g);
    lemma_spread(a, 0int as real, b * g);
    lemma_cross(b, a, g);
    lemma_trivial_factors(a);
    lemma_trivial_factors(b);
    lemma_group(b, 2int as real, k);
    lemma_group(a, 2int as real, m);
    lemma_swap(b, 2int as real);
    lemma_swap(a, 2int as real);
    lemma_group(2int as real, b, k);
    lemma_group(2int as real, a, m);
    lemma_swap(b, k);
    lemma_swap(a, m);
    assert(b * (2int as real * k) == a * (2int as real * m));
    lemma_product_above(a, -g);
    lemma_spread(a, 0int as real, g);
    let z = val(beta1);
    assert(k > 0int as real);
    lemma_scaled_order(0int as real, val(first), z);
    lemma_trivial_factors(z);
}

proof fn lemma_strength<R: Scalar>(val: spec_fn(R) -> real, beta: R, size: nat, log: R)
    requires
        exact(val),
        val(beta) > 0int as real,
    ensures
        ({
            let k = R::fraction(size, 1).times(
                opposite(unit::<R>().over(R::of_milli(2000).times(beta))).times(log),
            );
            2int as real * (val(k) * val(beta)) == -(size as real * val(log))
        }),
{
    let (n, z, g) = (size as real, val(beta), val(log));
    assert(val(R::fraction(size, 1)) == n / 1nat as real);
    let two = R::of_milli(2000);
    assert(val(two) == 2000int as real / 1000int as real);
    let d = two.times(beta);
    lemma_product_above(2int as real, z);
    assert(val(d) == 2int as real * z);
    let v = unit::<R>().over(d);
    lemma_exact_values(val, v);
    let w = 1int as real / val(d);
    lemma_quotient(1int as real, val(d));
    assert(w * val(d) == 1int as real);
    let k = R::fraction(size, 1).times(opposite(v).times(log));
    assert(val(k) == n * (-w * g));
    lemma_strength_value(n, w, g, z);
}

proof fn lemma_strength_value(n: real, w: real, g: real, z: real)
    requires
        w * (2int as real * z) == 1int as real,
    ensures
        2int as real * ((n * (-w * g)) * z) == -(n * g),
{
    let s = w * (2int as real * z);
    lemma_strength_order(n, w, g, z);
    assert(2int as real * ((n * (-w * g)) * z) == -((n * g) * s));
    lemma_trivial_factors(n * g);
}

proof fn lemma_strength_order(n: real, w: real, g: real, z: real)
    by (nonlinear_arith)
    ensures
        2int as real * ((n * (-w * g)) * z) == -((n * g) * (w * (2int as real * z))),
{
}

} // verus!
