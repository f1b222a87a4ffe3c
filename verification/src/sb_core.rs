//! Simulated bifurcation over one integrator.
//!
//! Positions and momenta advance in lockstep. The momentum updates first, from
//! the old positions; the position then updates from the new momentum, and a
//! particle that would pass a wall at one stops there. A heated variant adds a
//! share of the momentum from before the step at the end.
//!
//! A problem with a field carries one particle more than it has nodes: the
//! fields couple each node to it, and its sign is the gauge of the solution.
//! The time step and the detuning are both 1.
use rand::rngs::SmallRng;
use vstd::prelude::*;

use crate::gibbs_parallel::{share, shares_tile_the_class, worker_share};
use crate::ising::{
    binds, coupling, lattice, row_field, signed, valid_spins, Bond, IsingGraph, Lattice,
};
use crate::reals::{lemma_quotient, lemma_scaled_order, lemma_swap, lemma_trivial_factors};
use crate::rng::{
    drawn_from, read_seed_of, reads_of_a_job_have_distinct_seeds, streams, Draw, Source,
};
use crate::sampler_core::{
    at_least_one, or_one, score_spins, scored, CpuGraph, SampleParams, SamplerResult,
};
use crate::scalar::{
    exact, is_ordinary, lemma_exact_values, lemma_whole_value, magnitude, nil, one, opposite,
    ordinary, unit, whole, whole_of, zero, Scalar, Thousandths,
};

verus! {

/// Form of the coupling term in the force.
#[derive(Debug, Clone, Copy, PartialEq, Eq, Structural)]
pub enum Coupling {
    /// Neighbors act by the sign of their position.
    Discrete,
    /// Neighbors act by their position.
    Continuous,
}

/// A variant: the coupling form and the heating rate in thousandths.
#[derive(Debug, Clone, Copy, PartialEq, Eq, Structural)]
pub struct SbVariant {
    /// Coupling form for the force term.
    pub coupling: Coupling,
    /// Heating rate in thousandths. Zero disables the heating step entirely.
    pub gamma_milli: i32,
}

/// The discrete variant.
pub fn dsb() -> (v: SbVariant)
    ensures
        v == (SbVariant { coupling: Coupling::Discrete, gamma_milli: 0 }),
{
    SbVariant { coupling: Coupling::Discrete, gamma_milli: 0 }
}

/// The ballistic variant.
pub fn bsb() -> (v: SbVariant)
    ensures
        v == (SbVariant { coupling: Coupling::Continuous, gamma_milli: 0 }),
{
    SbVariant { coupling: Coupling::Continuous, gamma_milli: 0 }
}

/// The heated discrete variant.
pub fn hdsb() -> (v: SbVariant)
    ensures
        v == (SbVariant { coupling: Coupling::Discrete, gamma_milli: 60 }),
{
    SbVariant { coupling: Coupling::Discrete, gamma_milli: 60 }
}

/// The heated ballistic variant.
pub fn hbsb() -> (v: SbVariant)
    ensures
        v == (SbVariant { coupling: Coupling::Continuous, gamma_milli: 500 }),
{
    SbVariant { coupling: Coupling::Continuous, gamma_milli: 500 }
}

/// Some field is not 0.
pub open spec fn biased(l: Lattice) -> bool {
    exists|i: int| 0 <= i < l.h.len() && #[trigger] l.h[i] != 0
}

/// Nodes, and one more where there is a field.
pub open spec fn particles(l: Lattice) -> nat {
    if biased(l) {
        l.h.len() + 1
    } else {
        l.h.len()
    }
}

/// Sum of the squared couplings of the first `k` edges.
pub open spec fn squared_couplings(g: IsingGraph, k: int) -> int
    decreases k,
{
    if k <= 0 {
        0
    } else {
        squared_couplings(g, k - 1) + if binds(g.h@.len() as int, g.edges@[k - 1]) {
            coupling(g.j@, k - 1) * coupling(g.j@, k - 1)
        } else {
            0
        }
    }
}

/// Sum of the first `k` squared fields.
pub open spec fn squared_fields(h: Seq<i32>, k: int) -> int
    decreases k,
{
    if k <= 0 {
        0
    } else {
        squared_fields(h, k - 1) + h[k - 1] * h[k - 1]
    }
}

/// Half the squared norm of the coupling matrix, in squared thousandths: every
/// bond and every field stands in it twice.
pub open spec fn half_norm(g: IsingGraph) -> int {
    squared_couplings(g, g.edges@.len() as int) + squared_fields(g.h@, g.h@.len() as int)
}

/// The coupling scale `0.5 sqrt(count - 1) / ||J||`, where `half` is half the
/// squared norm in squared thousandths.
pub open spec fn wide_scale<W: Scalar>(half: nat, count: nat) -> W {
    W::of_milli(500).times(W::fraction((count - 1) as nat, 1).root()).over(
        whole_of::<W>(half).over(W::fraction(500000, 1)).root(),
    )
}

/// `c0` is that scale in the precision of the kernel; 0 where it is out of range.
pub open spec fn is_coupling_scale<R: Scalar, W: Scalar, N: Fn(W) -> R>(
    narrow: N,
    half: nat,
    count: nat,
    c0: R,
) -> bool {
    exists|x: R| #[trigger]
        call_ensures(narrow, (wide_scale::<W>(half, count),), x) && c0 == if ordinary(x) {
            x
        } else {
            nil()
        }
}

/// The coupling scale of `count` particles and half the squared norm `half`.
pub fn coupling_scale<R: Scalar, W: Scalar, N: Fn(W) -> R>(
    narrow: &N,
    half: u128,
    count: usize,
) -> (c0: R)
    requires
        count > 0,
        forall|x: W| #[trigger] call_requires(*narrow, (x,)),
    ensures
        is_coupling_scale(*narrow, half as nat, count as nat, c0),
{
    let norm: W = whole::<W>(half).quotient(W::ratio(500000, 1)).square_root();
    let wide: W = W::from_milli(500).product(W::ratio(count - 1, 1).square_root()).quotient(norm);
    let x: R = narrow(wide);
    assert(call_ensures(*narrow, (wide_scale::<W>(half as nat, count as nat),), x));
    if is_ordinary(x) {
        x
    } else {
        zero()
    }
}

/// `c0` is the coupling scale of problem `g`: 0 where the problem carries none.
pub open spec fn scaled<R: Scalar, W: Scalar, N: Fn(W) -> R>(
    g: IsingGraph,
    narrow: N,
    c0: R,
) -> bool {
    if half_norm(g) > 0 && particles(lattice(g)) > 1 {
        is_coupling_scale(narrow, half_norm(g) as nat, particles(lattice(g)), c0)
    } else {
        c0 == nil::<R>()
    }
}

/// Per-particle neighbor lists with their couplings as scalars.
///
/// Fields live outside the rows: they reach the force through the extra
/// particle.
pub struct SbGraph<R> {
    base: CpuGraph,
    h: Vec<R>,
    coup: Vec<Vec<R>>,
    biased: bool,
    c0: R,
}

impl<R: Scalar> SbGraph<R> {
    /// The rows and fields as integers.
    pub closed spec fn lattice(&self) -> Lattice {
        self.base@
    }

    /// The coupling scale.
    pub closed spec fn scale(&self) -> R {
        self.c0
    }

    /// The scalars stand for the integers.
    pub closed spec fn wf(&self) -> bool {
        let l = self.base@;
        &&& self.base.wf()
        &&& self.h@.len() == l.h.len()
        &&& forall|i: int| 0 <= i < l.h.len() ==> #[trigger] self.h@[i] == R::of_milli(l.h[i])
        &&& self.coup@.len() == l.h.len()
        &&& forall|i: int|
            0 <= i < l.h.len() ==> row_shown(l.rows[i], (#[trigger] self.coup@[i])@)
        &&& self.biased == biased(l)
    }

    /// A well-formed graph has a well-formed lattice.
    pub proof fn lemma_lattice(&self)
        requires
            self.wf(),
        ensures
            self.lattice().wf(),
            self.lattice().h.len() <= u32::MAX,
            self.lattice().h.len() < usize::MAX,
    {
        self.base.lemma_size();
    }

    /// Build the rows of problem `g`. The coupling scale is computed in the wide
    /// precision, and `narrow` brings it to that of the kernel.
    pub fn from_base<W: Scalar, N: Fn(W) -> R>(g: &IsingGraph, narrow: &N) -> (r: Self)
        requires
            g.fits(),
            forall|x: W| #[trigger] call_requires(*narrow, (x,)),
        ensures
            r.wf(),
            r.lattice() == lattice(*g),
            scaled(*g, *narrow, r.scale()),
    {
        let base = CpuGraph::from_base(g);
        let n: usize = g.h.len();
        let mut h: Vec<R> = Vec::with_capacity(n);
        let mut coup: Vec<Vec<R>> = Vec::with_capacity(n);
        let mut any: bool = false;
        let mut i: usize = 0;
        while i < n
            invariant
                base.wf(),
                base@ == lattice(*g),
                n == g.h@.len(),
                n == base@.h.len(),
                i <= n,
                h@.len() == i,
                coup@.len() == i,
                forall|k: int| 0 <= k < i ==> #[trigger] h@[k] == R::of_milli(base@.h[k]),
                forall|k: int| 0 <= k < i ==> row_shown(base@.rows[k], (#[trigger] coup@[k])@),
                any <==> exists|k: int| 0 <= k < i && #[trigger] base@.h[k] != 0,
            decreases n - i,
        {
            let b: i32 = g.h[i];
            assert(base@.h[i as int] == b);
            h.push(R::from_milli(b));
            coup.push(row_scalars(&base, i));
            if b != 0 {
                any = true;
            }
            i = i + 1;
        }
        let weight: u128 = norm_of(g);
        let count: usize = if any {
            n + 1
        } else {
            n
        };
        let c0: R = if weight > 0 && count > 1 {
            coupling_scale(narrow, weight, count)
        } else {
            zero()
        };
        SbGraph { base, h, coup, biased: any, c0 }
    }

    /// Number of nodes.
    pub fn num_nodes(&self) -> (n: usize)
        ensures
            n == self.lattice().h.len(),
    {
        self.base.num_nodes()
    }

    /// Whether there is a field.
    pub fn has_bias(&self) -> (r: bool)
        requires
            self.wf(),
        ensures
            r == biased(self.lattice()),
    {
        self.biased
    }

    /// Number of particles: nodes, and one more where there is a field.
    pub fn num_particles(&self) -> (m: usize)
        requires
            self.wf(),
        ensures
            m == particles(self.lattice()),
    {
        proof {
            self.base.lemma_size();
        }
        let n: usize = self.base.num_nodes();
        if self.biased {
            n + 1
        } else {
            n
        }
    }

    /// The coupling scale.
    pub fn c0(&self) -> (c: R)
        ensures
            c == self.scale(),
    {
        self.c0
    }

    /// The neighbors of a node and the couplings to them.
    pub fn neighbors(&self, var: usize) -> (r: (&[u32], &Vec<R>))
        requires
            self.wf(),
            var < self.lattice().h.len(),
        ensures
            r.0@.len() == self.lattice().rows[var as int].len(),
            r.1@.len() == r.0@.len(),
            forall|i: int|
                0 <= i < r.0@.len() ==> {
                    &&& #[trigger] r.0@[i] == self.lattice().rows[var as int][i].node
                    &&& r.1@[i] == R::of_milli(self.lattice().rows[var as int][i].coup)
                },
    {
        let (nodes, _) = self.base.neighbors(var);
        (nodes, &self.coup[var])
    }

    /// Coupling sum on particle `i`, with `coupled` acting.
    pub fn pull(&self, coupled: &Vec<R>, i: usize) -> (f: R)
        requires
            self.wf(),
            coupled@.len() == particles(self.lattice()),
            i < coupled@.len(),
        ensures
            f == pull_on(self.lattice(), coupled@, i as int),
    {
        let n: usize = self.base.num_nodes();
        let ghost l = self.base@;
        proof {
            self.base.lemma_size();
        }
        let mut f: R = zero();
        if i == n {
            let mut k: usize = 0;
            while k < n
                invariant
                    self.wf(),
                    l == self.base@,
                    n == l.h.len(),
                    n <= coupled@.len(),
                    k <= n,
                    f == field_sum(l.h, coupled@, k as int),
                decreases n - k,
            {
                f = f.sum(self.h[k].product(coupled[k]));
                k = k + 1;
            }
            f
        } else {
            let (nodes, _) = self.base.neighbors(i);
            let ghost row = l.rows[i as int];
            let mut k: usize = 0;
            while k < nodes.len()
                invariant
                    self.wf(),
                    l == self.base@,
                    i < n,
                    n == l.h.len(),
                    n <= coupled@.len(),
                    row == l.rows[i as int],
                    nodes@.len() == row.len(),
                    forall|t: int|
                        0 <= t < row.len() ==> (#[trigger] row[t]).node == nodes@[t],
                    forall|t: int|
                        0 <= t < row.len() ==> 0 <= (#[trigger] row[t]).node < l.h.len(),
                    k <= nodes@.len(),
                    f == row_sum(row, coupled@, k as int),
                decreases nodes@.len() - k,
            {
                assert(row[k as int].node == nodes@[k as int]);
                assert(row_shown(row, self.coup@[i as int]@));
                let v: usize = nodes[k] as usize;
                f = f.sum(self.coup[i][k].product(coupled[v]));
                k = k + 1;
            }
            if self.biased {
                f = f.sum(self.h[i].product(coupled[n]));
            }
            f
        }
    }
}

/// `coup` holds the couplings of a row as scalars.
pub open spec fn row_shown<R: Scalar>(row: Seq<Bond>, coup: Seq<R>) -> bool {
    coup.len() == row.len() && forall|i: int|
        0 <= i < row.len() ==> #[trigger] coup[i] == R::of_milli(row[i].coup)
}

/// The couplings of a row as scalars.
fn row_scalars<R: Scalar>(base: &CpuGraph, var: usize) -> (r: Vec<R>)
    requires
        base.wf(),
        var < base@.h.len(),
    ensures
        row_shown(base@.rows[var as int], r@),
{
    let (_, coups) = base.neighbors(var);
    let mut r: Vec<R> = Vec::with_capacity(coups.len());
    let mut i: usize = 0;
    while i < coups.len()
        invariant
            coups@.len() == base@.rows[var as int].len(),
            forall|k: int|
                0 <= k < coups@.len() ==> (#[trigger] base@.rows[var as int][k]).coup == coups@[k],
            i <= coups@.len(),
            r@.len() == i,
            forall|k: int|
                0 <= k < i ==> #[trigger] r@[k] == R::of_milli(base@.rows[var as int][k].coup),
        decreases coups@.len() - i,
    {
        assert(base@.rows[var as int][i as int].coup == coups@[i as int]);
        r.push(R::from_milli(coups[i]));
        i = i + 1;
    }
    r
}

/// The square of a 32-bit value.
fn square(x: i32) -> (r: u128)
    ensures
        r == x * x,
        r <= 0x4000_0000_0000_0000,
{
    let size: u128 = if x < 0 {
        (-(x as i128)) as u128
    } else {
        x as u128
    };
    assert(size * size == x * x) by (nonlinear_arith)
        requires
            size == x || size == -x,
    ;
    assert(size * size <= 0x4000_0000_0000_0000) by (nonlinear_arith)
        requires
            0 <= size <= 0x8000_0000,
    ;
    size * size
}

/// Half the squared norm of the coupling matrix.
fn norm_of(g: &IsingGraph) -> (r: u128)
    ensures
        r == half_norm(*g),
{
    let n: usize = g.h.len();
    let mut total: u128 = 0;
    let mut k: usize = 0;
    while k < g.edges.len()
        invariant
            n == g.h@.len(),
            k <= g.edges@.len(),
            total == squared_couplings(*g, k as int),
            total <= k * 0x4000_0000_0000_0000,
        decreases g.edges@.len() - k,
    {
        let (u, v) = g.edges[k];
        if u < n && v < n && u != v {
            let c: i32 = if k < g.j.len() {
                g.j[k]
            } else {
                0
            };
            assert(c == coupling(g.j@, k as int));
            total = total + square(c);
        }
        k = k + 1;
    }
    let mut i: usize = 0;
    while i < n
        invariant
            n == g.h@.len(),
            i <= n,
            total == squared_couplings(*g, g.edges@.len() as int) + squared_fields(g.h@, i as int),
            total <= g.edges@.len() * 0x4000_0000_0000_0000 + i * 0x4000_0000_0000_0000,
            g.edges@.len() <= usize::MAX,
        decreases n - i,
    {
        total = total + square(g.h[i]);
        i = i + 1;
    }
    total
}

/// Sum of the first `k` terms of a row, with `c` acting.
pub open spec fn row_sum<R: Scalar>(row: Seq<Bond>, c: Seq<R>, k: int) -> R
    decreases k,
{
    if k <= 0 {
        nil()
    } else {
        row_sum(row, c, k - 1).plus(R::of_milli(row[k - 1].coup).times(c[row[k - 1].node]))
    }
}

/// Sum of the first `k` field terms, with `c` acting.
pub open spec fn field_sum<R: Scalar>(h: Seq<int>, c: Seq<R>, k: int) -> R
    decreases k,
{
    if k <= 0 {
        nil()
    } else {
        field_sum(h, c, k - 1).plus(R::of_milli(h[k - 1]).times(c[k - 1]))
    }
}

/// Coupling sum on particle `i`, with `c` acting: its row, and the field
/// through the extra particle. The extra particle feels every field.
pub open spec fn pull_on<R: Scalar>(l: Lattice, c: Seq<R>, i: int) -> R {
    let n = l.h.len() as int;
    if i == n {
        field_sum(l.h, c, n)
    } else if biased(l) {
        row_sum(l.rows[i], c, l.rows[i].len() as int).plus(R::of_milli(l.h[i]).times(c[n]))
    } else {
        row_sum(l.rows[i], c, l.rows[i].len() as int)
    }
}

/// The sign of a position; a position of 0 counts as positive.
pub open spec fn sign_of<R: Scalar>(x: R) -> R {
    if x.reaches(nil()) {
        unit()
    } else {
        R::of_milli(-1000)
    }
}

/// How a particle at `x` acts on its neighbors.
pub open spec fn acting<R: Scalar>(form: Coupling, x: R) -> R {
    match form {
        Coupling::Discrete => sign_of(x),
        Coupling::Continuous => x,
    }
}

/// How all particles act.
pub open spec fn all_acting<R: Scalar>(form: Coupling, x: Seq<R>) -> Seq<R> {
    Seq::new(x.len(), |i: int| acting(form, x[i]))
}

/// Restoring coefficient of step `k`: the pump, which reaches 1 on the last
/// step, less the detuning.
pub open spec fn restoring<R: Scalar>(k: nat, n_step: nat) -> R {
    R::fraction(k + 1, n_step).minus(unit())
}

/// A particle stops dead at a wall.
pub open spec fn walled<R: Scalar>(x: R, y: R) -> (R, R) {
    if unit::<R>().under(x) {
        (unit(), nil())
    } else if x.under(R::of_milli(-1000)) {
        (R::of_milli(-1000), nil())
    } else {
        (x, y)
    }
}

/// One particle after a step, with coupling sum `f` on it and heating rate
/// `heat`.
pub open spec fn moved<R: Scalar>(heat: Option<R>, restore: R, c0: R, x: R, y: R, f: R) -> (R, R) {
    let kicked = y.plus(restore.times(x).minus(c0.times(f)));
    let at = walled(x.plus(kicked), kicked);
    match heat {
        None => at,
        Some(gamma) => (at.0, at.1.plus(gamma.times(y))),
    }
}

/// Positions and momenta of all particles.
#[verifier::ext_equal]
pub struct Phase<R> {
    /// Positions.
    pub x: Seq<R>,
    /// Momenta.
    pub y: Seq<R>,
}

/// All particles after step `k`. Every force reads the positions from before
/// the step.
pub open spec fn stepped<R: Scalar>(
    l: Lattice,
    c0: R,
    form: Coupling,
    heat: Option<R>,
    restore: R,
    s: Phase<R>,
) -> Phase<R> {
    let c = all_acting(form, s.x);
    Phase {
        x: Seq::new(
            s.x.len(),
            |i: int| moved(heat, restore, c0, s.x[i], s.y[i], pull_on(l, c, i)).0,
        ),
        y: Seq::new(
            s.x.len(),
            |i: int| moved(heat, restore, c0, s.x[i], s.y[i], pull_on(l, c, i)).1,
        ),
    }
}

/// All particles after the first `k` of `n_step` steps.
pub open spec fn evolved<R: Scalar>(
    l: Lattice,
    c0: R,
    form: Coupling,
    heat: Option<R>,
    n_step: nat,
    k: nat,
    s: Phase<R>,
) -> Phase<R>
    decreases k,
{
    if k == 0 {
        s
    } else {
        stepped(
            l,
            c0,
            form,
            heat,
            restoring((k - 1) as nat, n_step),
            evolved(l, c0, form, heat, n_step, (k - 1) as nat, s),
        )
    }
}

/// The heating rate of a variant, where it heats.
pub open spec fn heat_of<R: Scalar>(variant: SbVariant, heated: bool) -> Option<R> {
    if heated {
        Some(R::of_milli(variant.gamma_milli as int))
    } else {
        None
    }
}

proof fn lemma_evolved_len<R: Scalar>(
    l: Lattice,
    c0: R,
    form: Coupling,
    heat: Option<R>,
    n_step: nat,
    k: nat,
    s: Phase<R>,
)
    requires
        s.x.len() == s.y.len(),
    ensures
        evolved(l, c0, form, heat, n_step, k, s).x.len() == s.x.len(),
        evolved(l, c0, form, heat, n_step, k, s).y.len() == s.x.len(),
    decreases k,
{
    if k > 0 {
        lemma_evolved_len(l, c0, form, heat, n_step, (k - 1) as nat, s);
    }
}

/// How a particle at `x` acts on its neighbors.
pub fn act<R: Scalar>(form: Coupling, x: R) -> (c: R)
    ensures
        c == acting(form, x),
{
    match form {
        Coupling::Discrete => if x.at_least(zero()) {
            one()
        } else {
            R::from_milli(-1000)
        },
        Coupling::Continuous => x,
    }
}

/// How all particles act.
pub fn act_all<R: Scalar>(form: Coupling, x: &Vec<R>) -> (c: Vec<R>)
    ensures
        c@ == all_acting(form, x@),
{
    let mut c: Vec<R> = Vec::with_capacity(x.len());
    let mut i: usize = 0;
    while i < x.len()
        invariant
            i <= x@.len(),
            c@.len() == i,
            forall|k: int| 0 <= k < i ==> #[trigger] c@[k] == acting(form, x@[k]),
        decreases x@.len() - i,
    {
        c.push(act(form, x[i]));
        i = i + 1;
    }
    assert(c@ =~= all_acting(form, x@));
    c
}

/// Pump of step `step`: it rises evenly and reaches 1 on the last step, where
/// the coupling term alone decides the sign of each position.
pub fn pump<R: Scalar>(step: usize, n_step: usize) -> (a: R)
    requires
        step < n_step,
    ensures
        a == R::fraction((step + 1) as nat, n_step as nat),
{
    R::ratio(step + 1, n_step)
}

/// Restoring coefficient of step `k`.
pub fn restore_at<R: Scalar>(k: usize, n_step: usize) -> (r: R)
    requires
        k < n_step,
    ensures
        r == restoring::<R>(k as nat, n_step as nat),
{
    pump::<R>(k, n_step).difference(one())
}

/// A particle stops dead at a wall.
pub fn wall<R: Scalar>(x: R, y: R) -> (r: (R, R))
    ensures
        r == walled(x, y),
{
    let top: R = one();
    let bottom: R = R::from_milli(-1000);
    if top.less(x) {
        (top, zero())
    } else if x.less(bottom) {
        (bottom, zero())
    } else {
        (x, y)
    }
}

/// One particle after a step.
pub fn move_particle<R: Scalar>(heat: Option<R>, restore: R, c0: R, x: R, y: R, f: R) -> (r: (R, R))
    ensures
        r == moved(heat, restore, c0, x, y, f),
{
    let kicked: R = y.sum(restore.product(x).difference(c0.product(f)));
    let (nx, ny) = wall(x.sum(kicked), kicked);
    match heat {
        None => (nx, ny),
        Some(gamma) => (nx, ny.sum(gamma.product(y))),
    }
}

/// The particles from `lo` up to `hi` are those of `after`, the others those of
/// `before`.
pub open spec fn slice_moved<R>(before: Seq<R>, after: Seq<R>, lo: int, hi: int, now: Seq<R>) -> bool {
    &&& now.len() == before.len()
    &&& forall|i: int|
        0 <= i < now.len() ==> #[trigger] now[i] == if lo <= i < hi {
            after[i]
        } else {
            before[i]
        }
}

/// Advance the particles from `lo` up to `hi` by one step. `coupled` holds how
/// every particle acted before the step, so the slices of a step can be
/// advanced in any order, or at once.
pub fn advance_slice<R: Scalar>(
    g: &SbGraph<R>,
    heat: Option<R>,
    restore: R,
    coupled: &Vec<R>,
    x: &mut Vec<R>,
    y: &mut Vec<R>,
    lo: usize,
    hi: usize,
)
    requires
        g.wf(),
        coupled@.len() == particles(g.lattice()),
        old(x)@.len() == coupled@.len(),
        old(y)@.len() == coupled@.len(),
        lo <= hi <= coupled@.len(),
    ensures
        final(x)@.len() == old(x)@.len(),
        final(y)@.len() == old(y)@.len(),
        forall|i: int|
            0 <= i < coupled@.len() ==> (#[trigger] final(x)@[i], final(y)@[i]) == if lo <= i
                < hi {
                moved(
                    heat,
                    restore,
                    g.scale(),
                    old(x)@[i],
                    old(y)@[i],
                    pull_on(g.lattice(), coupled@, i),
                )
            } else {
                (old(x)@[i], old(y)@[i])
            },
{
    let c0: R = g.c0();
    let mut i: usize = lo;
    while i < hi
        invariant
            g.wf(),
            c0 == g.scale(),
            coupled@.len() == particles(g.lattice()),
            x@.len() == coupled@.len(),
            y@.len() == coupled@.len(),
            old(x)@.len() == coupled@.len(),
            old(y)@.len() == coupled@.len(),
            lo <= i <= hi <= coupled@.len(),
            forall|k: int|
                0 <= k < coupled@.len() ==> (#[trigger] x@[k], y@[k]) == if lo <= k < i {
                    moved(
                        heat,
                        restore,
                        c0,
                        old(x)@[k],
                        old(y)@[k],
                        pull_on(g.lattice(), coupled@, k),
                    )
                } else {
                    (old(x)@[k], old(y)@[k])
                },
        decreases hi - i,
    {
        let f: R = g.pull(coupled, i);
        let (nx, ny) = move_particle(heat, restore, c0, x[i], y[i], f);
        x[i] = nx;
        y[i] = ny;
        i = i + 1;
    }
}

/// Heating rate of a variant, where it heats.
pub fn heat_rate<R: Scalar>(variant: SbVariant, heated: bool) -> (r: Option<R>)
    ensures
        r == heat_of::<R>(variant, heated),
{
    if heated {
        Some(R::from_milli(variant.gamma_milli))
    } else {
        None
    }
}

/// Integrate `n_step` steps in place from the given positions and momenta.
///
/// Whether to heat is a parameter of its own, so that a variant with a rate of
/// 0 can run the heated path.
pub fn sb_run<R: Scalar>(
    g: &SbGraph<R>,
    n_step: usize,
    variant: SbVariant,
    heated: bool,
    x: &mut Vec<R>,
    y: &mut Vec<R>,
)
    requires
        g.wf(),
        old(x)@.len() == particles(g.lattice()),
        old(y)@.len() == particles(g.lattice()),
    ensures
        (Phase { x: final(x)@, y: final(y)@ }) == evolved(
            g.lattice(),
            g.scale(),
            variant.coupling,
            heat_of::<R>(variant, heated),
            n_step as nat,
            n_step as nat,
            (Phase { x: old(x)@, y: old(y)@ }),
        ),
{
    sb_run_parallel(g, n_step, variant, heated, x, y, 1)
}

/// Advance all particles by one step, slice by slice.
fn advance_all<R: Scalar>(
    g: &SbGraph<R>,
    form: Coupling,
    heat: Option<R>,
    restore: R,
    x: &mut Vec<R>,
    y: &mut Vec<R>,
    workers: usize,
)
    requires
        g.wf(),
        workers > 0,
        old(x)@.len() == particles(g.lattice()),
        old(y)@.len() == particles(g.lattice()),
    ensures
        (Phase { x: final(x)@, y: final(y)@ }) == stepped(
            g.lattice(),
            g.scale(),
            form,
            heat,
            restore,
            (Phase { x: old(x)@, y: old(y)@ }),
        ),
{
    let m: usize = x.len();
    let coupled = act_all(form, x);
    let ghost before = Phase { x: x@, y: y@ };
    let ghost target = stepped(g.lattice(), g.scale(), form, heat, restore, before);
    let mut wid: usize = 0;
    let ghost mut done: int = 0;
    proof {
        shares_tile_the_class(m as nat, workers as nat, 0);
    }
    while wid < workers
        invariant
            g.wf(),
            m == particles(g.lattice()),
            before.x.len() == m,
            before.y.len() == m,
            coupled@ == all_acting(form, before.x),
            target == stepped(g.lattice(), g.scale(), form, heat, restore, before),
            x@.len() == m,
            y@.len() == m,
            wid <= workers,
            0 <= done <= m,
            wid < workers ==> done == share(m as nat, workers as nat, wid as nat).0,
            wid == workers ==> done == m,
            slice_moved(before.x, target.x, 0, done, x@),
            slice_moved(before.y, target.y, 0, done, y@),
        decreases workers - wid,
    {
        let (lo, hi) = worker_share(m, workers, wid);
        let ghost xs = x@;
        let ghost ys = y@;
        advance_slice(g, heat, restore, &coupled, x, y, lo, hi);
        proof {
            shares_tile_the_class(m as nat, workers as nat, wid as nat);
            assert forall|i: int|
                #![trigger x@[i]]
                #![trigger y@[i]]
                0 <= i < m implies x@[i] == (if 0 <= i < hi {
                target.x[i]
            } else {
                before.x[i]
            }) && y@[i] == (if 0 <= i < hi {
                target.y[i]
            } else {
                before.y[i]
            }) by {
                assert(xs[i] == if 0 <= i < done {
                    target.x[i]
                } else {
                    before.x[i]
                });
                assert(ys[i] == if 0 <= i < done {
                    target.y[i]
                } else {
                    before.y[i]
                });
                assert((x@[i], y@[i]).0 == x@[i]);
            }
            done = hi as int;
        }
        wid = wid + 1;
    }
    assert(x@ =~= target.x);
    assert(y@ =~= target.y);
}

/// Integrate `n_step` steps with the particles split among `workers`: each owns
/// a contiguous slice for the whole run.
///
/// A step carries no ordering constraint: every force reads the positions from
/// before it. The result is that of [`sb_run`] at any number of workers.
pub fn sb_run_parallel<R: Scalar>(
    g: &SbGraph<R>,
    n_step: usize,
    variant: SbVariant,
    heated: bool,
    x: &mut Vec<R>,
    y: &mut Vec<R>,
    workers: usize,
)
    requires
        g.wf(),
        workers > 0,
        old(x)@.len() == particles(g.lattice()),
        old(y)@.len() == particles(g.lattice()),
    ensures
        (Phase { x: final(x)@, y: final(y)@ }) == evolved(
            g.lattice(),
            g.scale(),
            variant.coupling,
            heat_of::<R>(variant, heated),
            n_step as nat,
            n_step as nat,
            (Phase { x: old(x)@, y: old(y)@ }),
        ),
{
    let ghost start = Phase { x: x@, y: y@ };
    let heat: Option<R> = heat_rate(variant, heated);
    let mut k: usize = 0;
    while k < n_step
        invariant
            g.wf(),
            workers > 0,
            k <= n_step,
            heat == heat_of::<R>(variant, heated),
            start.x.len() == particles(g.lattice()),
            start.y.len() == particles(g.lattice()),
            (Phase { x: x@, y: y@ }) == evolved(
                g.lattice(),
                g.scale(),
                variant.coupling,
                heat,
                n_step as nat,
                k as nat,
                start,
            ),
        decreases n_step - k,
    {
        proof {
            lemma_evolved_len(
                g.lattice(),
                g.scale(),
                variant.coupling,
                heat,
                n_step as nat,
                k as nat,
                start,
            );
        }
        let restore: R = restore_at(k, n_step);
        advance_all(g, variant.coupling, heat, restore, x, y, workers);
        k = k + 1;
    }
}

/// The spin of node `i` once the extra particle has fixed the gauge.
pub open spec fn gauged<R: Scalar>(l: Lattice, x: Seq<R>, i: int) -> i8 {
    let flip = biased(l) && x[l.h.len() as int].under(nil());
    let up = x[i].reaches(nil());
    if flip == up {
        -1i8
    } else {
        1i8
    }
}

/// The spins that positions stand for, the extra particle dropped.
pub open spec fn gauged_spins<R: Scalar>(l: Lattice, x: Seq<R>) -> Seq<i8> {
    Seq::new(l.h.len(), |i: int| gauged(l, x, i))
}

/// Fix the gauge and drop the extra particle. A position of 0 counts as
/// positive.
pub fn gauge_fixed_spins<R: Scalar>(g: &SbGraph<R>, x: &Vec<R>) -> (spins: Vec<i8>)
    requires
        g.wf(),
        x@.len() == particles(g.lattice()),
    ensures
        spins@ == gauged_spins(g.lattice(), x@),
        valid_spins(spins@),
{
    let n: usize = g.num_nodes();
    let flip: bool = if g.has_bias() {
        x[n].less(zero())
    } else {
        false
    };
    let mut spins: Vec<i8> = Vec::with_capacity(n);
    let mut i: usize = 0;
    while i < n
        invariant
            n == g.lattice().h.len(),
            n <= x@.len(),
            flip == (biased(g.lattice()) && x@[n as int].under(nil())),
            i <= n,
            spins@.len() == i,
            forall|k: int| 0 <= k < i ==> #[trigger] spins@[k] == gauged(g.lattice(), x@, k),
        decreases n - i,
    {
        let up: bool = x[i].at_least(zero());
        spins.push(
            if flip == up {
                -1i8
            } else {
                1i8
            },
        );
        i = i + 1;
    }
    assert(spins@ =~= gauged_spins(g.lattice(), x@));
    spins
}

/// The half-width of the range of a start, in thousandths.
pub const INIT_RANGE_MILLI: i32 = 100;

/// `draw` answers every word with a number of the start range.
pub open spec fn draws_starts<R: Scalar, D: Fn(u32, R, R) -> R>(draw: D) -> bool {
    forall|word: u32| #[trigger]
        call_requires(
            draw,
            (word, R::of_milli(-INIT_RANGE_MILLI), R::of_milli(INIT_RANGE_MILLI as int)),
        )
}

/// `value` is what `draw` makes of some word in the start range.
pub open spec fn from_word<R: Scalar, D: Fn(u32, R, R) -> R>(draw: D, value: R) -> bool {
    exists|word: u32| #[trigger]
        call_ensures(
            draw,
            (word, R::of_milli(-INIT_RANGE_MILLI), R::of_milli(INIT_RANGE_MILLI as int)),
            value,
        )
}

/// Each value is what `draw` makes of some word.
pub open spec fn drawn_by<R: Scalar, D: Fn(u32, R, R) -> R>(draw: D, values: Seq<R>) -> bool {
    forall|i: int| 0 <= i < values.len() ==> from_word(draw, #[trigger] values[i])
}

/// Each value is what `draw` makes of the word in its place in `log`, from `from`
/// on.
pub open spec fn values_on<R: Scalar, D: Fn(u32, R, R) -> R>(
    draw: D,
    log: Seq<Draw>,
    from: int,
    values: Seq<R>,
) -> bool {
    &&& from + values.len() <= log.len()
    &&& forall|i: int|
        0 <= i < values.len() ==> value_on(draw, log[from + i], #[trigger] values[i])
}

/// `value` is what `draw` makes of the drawn word in the start range.
pub open spec fn value_on<R: Scalar, D: Fn(u32, R, R) -> R>(draw: D, d: Draw, value: R) -> bool {
    d matches Draw::Half(word) && call_ensures(
        draw,
        (word, R::of_milli(-INIT_RANGE_MILLI), R::of_milli(INIT_RANGE_MILLI as int)),
        value,
    )
}

/// The start that `log` makes: a word for every position, then one for every
/// momentum.
pub open spec fn start_on<R: Scalar, D: Fn(u32, R, R) -> R>(
    draw: D,
    log: Seq<Draw>,
    m: nat,
    s: Phase<R>,
) -> bool {
    &&& s.x.len() == m
    &&& s.y.len() == m
    &&& values_on(draw, log, 0, s.x)
    &&& values_on(draw, log, m as int, s.y)
}

/// A start that a record makes is made by every longer one.
pub proof fn lemma_start_extends<R: Scalar, D: Fn(u32, R, R) -> R>(
    draw: D,
    log: Seq<Draw>,
    more: Seq<Draw>,
    m: nat,
    s: Phase<R>,
)
    requires
        start_on(draw, log, m, s),
        log.len() <= more.len(),
        more.take(log.len() as int) == log,
    ensures
        start_on(draw, more, m, s),
{
    assert forall|i: int| 0 <= i < log.len() implies #[trigger] more[i] == log[i] by {
        assert(more.take(log.len() as int)[i] == more[i]);
    }
    assert forall|i: int| 0 <= i < s.x.len() implies value_on(
        draw,
        more[0 + i],
        #[trigger] s.x[i],
    ) by {
        assert(value_on(draw, log[0 + i], s.x[i]));
    }
    assert forall|i: int| 0 <= i < s.y.len() implies value_on(
        draw,
        more[m as int + i],
        #[trigger] s.y[i],
    ) by {
        assert(value_on(draw, log[m as int + i], s.y[i]));
    }
}

/// Draw `m` values, each from one word.
fn draw_values<R: Scalar, D: Fn(u32, R, R) -> R>(m: usize, draw: &D, src: &mut Source) -> (v: Vec<R>)
    requires
        draws_starts::<R, D>(*draw),
        old(src).wf(),
    ensures
        v@.len() == m,
        drawn_by(*draw, v@),
        final(src).wf(),
        final(src).start() == old(src).start(),
        final(src).log().len() == old(src).log().len() + m,
        final(src).log().take(old(src).log().len() as int) == old(src).log(),
        values_on(*draw, final(src).log(), old(src).log().len() as int, v@),
{
    let ghost base = src.log();
    let mut v: Vec<R> = Vec::with_capacity(m);
    assert(src.log().take(base.len() as int) =~= base);
    while v.len() < m
        invariant
            draws_starts::<R, D>(*draw),
            v@.len() <= m,
            drawn_by(*draw, v@),
            src.wf(),
            src.start() == old(src).start(),
            src.log().len() == base.len() + v@.len(),
            src.log().take(base.len() as int) == base,
            values_on(*draw, src.log(), base.len() as int, v@),
        decreases m - v@.len(),
    {
        let ghost before = v@;
        let ghost held = src.log();
        let word: u32 = src.half();
        let low: R = R::from_milli(-INIT_RANGE_MILLI);
        let high: R = R::from_milli(INIT_RANGE_MILLI);
        let value: R = draw(word, low, high);
        v.push(value);
        proof {
            assert(from_word(*draw, value));
            assert forall|i: int| 0 <= i < v@.len() implies from_word(*draw, #[trigger] v@[i]) by {
                if i < before.len() {
                    assert(v@[i] == before[i]);
                }
            }
            assert(src.log().take(base.len() as int) =~= held.take(base.len() as int));
            assert forall|i: int| 0 <= i < v@.len() implies value_on(
                *draw,
                src.log()[base.len() + i],
                #[trigger] v@[i],
            ) by {
                if i < before.len() {
                    assert(v@[i] == before[i]);
                    assert(value_on(*draw, held[base.len() + i], before[i]));
                }
            }
        }
    }
    v
}

/// Draw the positions and momenta of one read from a source, positions first.
pub(crate) fn draw_start<R: Scalar, D: Fn(u32, R, R) -> R>(m: usize, draw: &D, src: &mut Source) -> (r: (
    Vec<R>,
    Vec<R>,
))
    requires
        draws_starts::<R, D>(*draw),
        old(src).wf(),
        old(src).log().len() == 0,
    ensures
        r.0@.len() == m,
        r.1@.len() == m,
        drawn_by(*draw, r.0@),
        drawn_by(*draw, r.1@),
        final(src).wf(),
        final(src).start() == old(src).start(),
        final(src).log().len() == 2 * m,
        start_on(*draw, final(src).log(), m as nat, (Phase { x: r.0@, y: r.1@ })),
{
    let x = draw_values(m, draw, src);
    let ghost held = src.log();
    let y = draw_values(m, draw, src);
    assert forall|i: int| 0 <= i < x@.len() implies value_on(
        *draw,
        src.log()[0 + i],
        #[trigger] x@[i],
    ) by {
        assert(value_on(*draw, held[0 + i], x@[i]));
        assert(src.log().take(held.len() as int)[i] == src.log()[i]);
    }
    (x, y)
}

/// Draw the positions and momenta of one read, positions first.
pub fn draw_initial_conditions<R: Scalar, D: Fn(u32, R, R) -> R>(
    m: usize,
    draw: &D,
    rng: &mut SmallRng,
) -> (r: (Vec<R>, Vec<R>))
    requires
        draws_starts::<R, D>(*draw),
    ensures
        r.0@.len() == m,
        r.1@.len() == m,
        drawn_by(*draw, r.0@),
        drawn_by(*draw, r.1@),
        exists|log: Seq<Draw>| #[trigger]
            streams(*old(rng), log, *final(rng)) && log.len() == 2 * m && start_on(
                *draw,
                log,
                m as nat,
                (Phase { x: r.0@, y: r.1@ }),
            ),
{
    let mut src = Source::taken(rng);
    let r = draw_start(m, draw, &mut src);
    src.give_back(rng);
    r
}

/// A start whose values all come from `draw`.
pub open spec fn drawn_start<R: Scalar, D: Fn(u32, R, R) -> R>(draw: D, m: nat, s: Phase<R>) -> bool {
    s.x.len() == m && s.y.len() == m && drawn_by(draw, s.x) && drawn_by(draw, s.y)
}

/// `spins` is where some drawn start of problem `l` ends up.
pub open spec fn sb_end<R: Scalar, D: Fn(u32, R, R) -> R>(
    draw: D,
    l: Lattice,
    c0: R,
    variant: SbVariant,
    n_step: nat,
    spins: Seq<i8>,
) -> bool {
    exists|s: Phase<R>| #[trigger]
        drawn_start(draw, particles(l), s) && spins == gauged_spins(
            l,
            evolved(
                l,
                c0,
                variant.coupling,
                heat_of::<R>(variant, variant.gamma_milli != 0),
                n_step,
                n_step,
                s,
            ).x,
        )
}

/// The results of a bifurcation job: each read is scored and is where one of
/// its drawn starts ends up.
pub open spec fn sb_results<R: Scalar, D: Fn(u32, R, R) -> R, W: Scalar, N: Fn(W) -> R>(
    draw: D,
    narrow: N,
    g: IsingGraph,
    variant: SbVariant,
    n_step: nat,
    results: Seq<SamplerResult>,
) -> bool {
    exists|c0: R| #[trigger]
        scaled(g, narrow, c0) && forall|i: int|
            0 <= i < results.len() ==> scored(g, #[trigger] results[i]) && sb_end(
                draw,
                lattice(g),
                c0,
                variant,
                n_step,
                results[i].spins@,
            )
}

/// `spins` are read `i` of a bifurcation job: where the start that the generator
/// with the seed of that read makes ends up.
pub open spec fn sb_read<R: Scalar, D: Fn(u32, R, R) -> R>(
    draw: D,
    l: Lattice,
    c0: R,
    seed: u64,
    variant: SbVariant,
    n_step: nat,
    i: int,
    spins: Seq<i8>,
) -> bool {
    exists|log: Seq<Draw>, s: Phase<R>|
        #![trigger start_on(draw, log, particles(l), s)]
        drawn_from(read_seed_of(seed, i as u64), log) && start_on(draw, log, particles(l), s)
            && spins == gauged_spins(
            l,
            evolved(
                l,
                c0,
                variant.coupling,
                heat_of::<R>(variant, variant.gamma_milli != 0),
                n_step,
                n_step,
                s,
            ).x,
        )
}

/// Every read of a bifurcation job is made by the generator with its own seed.
pub open spec fn sb_reads<R: Scalar, D: Fn(u32, R, R) -> R, W: Scalar, N: Fn(W) -> R>(
    draw: D,
    narrow: N,
    g: IsingGraph,
    seed: u64,
    variant: SbVariant,
    n_step: nat,
    results: Seq<SamplerResult>,
) -> bool {
    exists|c0: R| #[trigger]
        scaled(g, narrow, c0) && forall|i: int|
            0 <= i < results.len() ==> sb_read(
                draw,
                lattice(g),
                c0,
                seed,
                variant,
                n_step,
                i,
                (#[trigger] results[i]).spins@,
            )
}

/// Run `num_reads` independent trajectories one after another.
pub fn sample_sb<R: Scalar, D: Fn(u32, R, R) -> R, W: Scalar, N: Fn(W) -> R>(
    graph: &IsingGraph,
    params: &SampleParams,
    variant: SbVariant,
    narrow: &N,
    draw: &D,
) -> (results: Vec<SamplerResult>)
    requires
        graph.fits(),
        forall|x: W| #[trigger] call_requires(*narrow, (x,)),
        draws_starts::<R, D>(*draw),
    ensures
        results@.len() == params.reads(),
        sb_results(
            *draw,
            *narrow,
            *graph,
            variant,
            at_least_one(params.num_sweeps as nat),
            results@,
        ),
        sb_reads(
            *draw,
            *narrow,
            *graph,
            params.seed,
            variant,
            at_least_one(params.num_sweeps as nat),
            results@,
        ),
{
    sample_sb_with_workers(graph, params, variant, 1, narrow, draw)
}

/// Run with `workers` splitting the particles inside every read. The results
/// are the same at every count; 0 counts as 1.
pub fn sample_sb_with_workers<R: Scalar, D: Fn(u32, R, R) -> R, W: Scalar, N: Fn(W) -> R>(
    graph: &IsingGraph,
    params: &SampleParams,
    variant: SbVariant,
    workers: usize,
    narrow: &N,
    draw: &D,
) -> (results: Vec<SamplerResult>)
    requires
        graph.fits(),
        forall|x: W| #[trigger] call_requires(*narrow, (x,)),
        draws_starts::<R, D>(*draw),
    ensures
        results@.len() == params.reads(),
        sb_results(
            *draw,
            *narrow,
            *graph,
            variant,
            at_least_one(params.num_sweeps as nat),
            results@,
        ),
        sb_reads(
            *draw,
            *narrow,
            *graph,
            params.seed,
            variant,
            at_least_one(params.num_sweeps as nat),
            results@,
        ),
{
    let num_reads: usize = or_one(params.num_reads);
    let g = SbGraph::from_base(graph, narrow);
    let n_step: usize = or_one(params.num_sweeps);
    let heated: bool = variant.gamma_milli != 0;
    let m: usize = g.num_particles();
    let team: usize = or_one(workers);
    let ghost l = lattice(*graph);
    let ghost c0 = g.scale();
    let mut results: Vec<SamplerResult> = Vec::new();
    let mut read: usize = 0;
    while read < num_reads
        invariant
            g.wf(),
            g.lattice() == l,
            l == lattice(*graph),
            l.h.len() == graph.h@.len(),
            g.scale() == c0,
            m == particles(l),
            team > 0,
            heated == (variant.gamma_milli != 0),
            draws_starts::<R, D>(*draw),
            read <= num_reads,
            results@.len() == read,
            forall|i: int|
                0 <= i < results@.len() ==> scored(*graph, #[trigger] results@[i]) && sb_end(
                    *draw,
                    l,
                    c0,
                    variant,
                    n_step as nat,
                    results@[i].spins@,
                ),
            forall|i: int|
                0 <= i < results@.len() ==> sb_read(
                    *draw,
                    l,
                    c0,
                    params.seed,
                    variant,
                    n_step as nat,
                    i,
                    (#[trigger] results@[i]).spins@,
                ),
        decreases num_reads - read,
    {
        let mut src = Source::of_read(params.seed, read);
        let (mut x, mut y) = draw_start(m, draw, &mut src);
        proof {
            src.lemma_record(read_seed_of(params.seed, read as u64));
        }
        let ghost start = Phase { x: x@, y: y@ };
        sb_run_parallel(&g, n_step, variant, heated, &mut x, &mut y, team);
        proof {
            lemma_evolved_len(
                l,
                c0,
                variant.coupling,
                heat_of::<R>(variant, heated),
                n_step as nat,
                n_step as nat,
                start,
            );
            assert(drawn_start(*draw, particles(l), start));
        }
        let spins = gauge_fixed_spins(&g, &x);
        proof {
            assert(start_on(*draw, src.log(), particles(l), start));
            assert(sb_read(
                *draw,
                l,
                c0,
                params.seed,
                variant,
                n_step as nat,
                read as int,
                spins@,
            ));
        }
        results.push(score_spins(spins, graph));
        read = read + 1;
    }
    assert(scaled(*graph, *narrow, c0));
    results
}

/// The reads of a bifurcation job are independent: read `i` runs from the start
/// that the generator with the seed of read `i` makes, and no other read of the
/// job has that seed.
pub proof fn every_trajectory_has_its_own_generator<
    R: Scalar,
    D: Fn(u32, R, R) -> R,
    W: Scalar,
    N: Fn(W) -> R,
>(
    draw: D,
    narrow: N,
    g: IsingGraph,
    seed: u64,
    variant: SbVariant,
    n_step: nat,
    results: Seq<SamplerResult>,
    i: int,
    j: int,
)
    requires
        results.len() <= u64::MAX,
        sb_reads(draw, narrow, g, seed, variant, n_step, results),
        0 <= i < results.len(),
        0 <= j < results.len(),
        i != j,
    ensures
        exists|c0: R, log: Seq<Draw>, s: Phase<R>|
            #![trigger scaled(g, narrow, c0), start_on(draw, log, particles(lattice(g)), s)]
            scaled(g, narrow, c0) && drawn_from(read_seed_of(seed, i as u64), log) && start_on(
                draw,
                log,
                particles(lattice(g)),
                s,
            ) && results[i].spins@ == gauged_spins(
                lattice(g),
                evolved(
                    lattice(g),
                    c0,
                    variant.coupling,
                    heat_of::<R>(variant, variant.gamma_milli != 0),
                    n_step,
                    n_step,
                    s,
                ).x,
            ),
        read_seed_of(seed, i as u64) != read_seed_of(seed, j as u64),
{
    reads_of_a_job_have_distinct_seeds(seed, i as u64, j as u64);
    let c0 = choose|c0: R| #[trigger]
        scaled(g, narrow, c0) && forall|i: int|
            0 <= i < results.len() ==> sb_read(
                draw,
                lattice(g),
                c0,
                seed,
                variant,
                n_step,
                i,
                (#[trigger] results[i]).spins@,
            );
    assert(sb_read(draw, lattice(g), c0, seed, variant, n_step, i, results[i].spins@));
}

/// Adding and subtracting 0 change nothing, and 0 times anything is 0.
pub open spec fn zero_is_neutral<R: Scalar>() -> bool {
    &&& forall|a: R| (#[trigger] a.plus(nil())) == a
    &&& forall|a: R| (#[trigger] a.minus(nil())) == a
    &&& forall|a: R| (#[trigger] nil::<R>().times(a)) == nil::<R>()
    &&& forall|a: R| (#[trigger] a.times(nil())) == nil::<R>()
    &&& forall|a: R| (#[trigger] unit::<R>().times(a)).minus(a) == nil::<R>()
}

/// A wall lets nothing through and stops what reaches it; between the walls a
/// particle keeps its position and its momentum.
pub proof fn walls_stop_a_particle<R: Scalar>(val: spec_fn(R) -> real, x: R, y: R)
    requires
        exact(val),
    ensures
        (-1int as real) <= val(walled(x, y).0) <= 1int as real,
        (-1int as real) <= val(x) <= 1int as real ==> walled(x, y) == (x, y),
        val(x) > 1int as real ==> val(walled(x, y).0) == 1int as real && val(walled(x, y).1)
            == 0int as real,
        val(x) < -1int as real ==> val(walled(x, y).0) == -1int as real && val(walled(x, y).1)
            == 0int as real,
{
    assert(val(unit::<R>()) == 1000int as real / 1000int as real);
    assert(val(R::of_milli(-1000)) == -1000int as real / 1000int as real);
    assert(val(nil::<R>()) == 0int as real / 1000int as real);
}

proof fn lemma_row_sum_is_the_field<R: Scalar>(
    val: spec_fn(R) -> real,
    row: Seq<Bond>,
    c: Seq<R>,
    spins: Seq<i8>,
    k: int,
)
    requires
        exact(val),
        0 <= k <= row.len(),
        valid_spins(spins),
        forall|i: int| 0 <= i < row.len() ==> 0 <= (#[trigger] row[i]).node < spins.len(),
        forall|v: int| 0 <= v < spins.len() ==> val(#[trigger] c[v]) == spins[v] as int as real,
    ensures
        val(row_sum(row, c, k)) * 1000int as real == row_field(row.take(k), spins) as real,
    decreases k,
{
    if k == 0 {
        assert(row.take(0).len() == 0);
    } else {
        lemma_row_sum_is_the_field(val, row, c, spins, k - 1);
        let b = row[k - 1];
        assert(row.take(k).drop_last() =~= row.take(k - 1));
        assert(row.take(k).last() == b);
        assert(val(c[b.node]) == spins[b.node] as int as real);
        let j = val(R::of_milli(b.coup));
        let s = val(c[b.node]);
        assert(spins[b.node] == 1 || spins[b.node] == -1);
        assert(j * s * 1000int as real == signed(b.coup, spins[b.node]) as real) by {
            if spins[b.node] == 1 {
                assert(s == 1int as real);
                assert(j * 1int as real == j) by (nonlinear_arith);
            } else {
                assert(s == -1int as real);
                assert(j * -1int as real == -j) by (nonlinear_arith);
            }
        }
        let rest = val(row_sum(row, c, k - 1));
        assert((rest + j * s) * 1000int as real == rest * 1000int as real + j * s * 1000int as real)
            by (nonlinear_arith);
    }
}

/// The pull on a particle is the local field of the problem: where the particles
/// act like spins, and the extra particle like a spin up, the coupling sum on
/// each of them is the field of its node.
pub proof fn the_pull_is_the_field<R: Scalar>(
    val: spec_fn(R) -> real,
    l: Lattice,
    c: Seq<R>,
    spins: Seq<i8>,
    i: int,
)
    requires
        exact(val),
        l.wf(),
        l.fits_spins(spins),
        forall|v: int| 0 <= v < spins.len() ==> val(#[trigger] c[v]) == spins[v] as int as real,
        biased(l) ==> val(c[l.h.len() as int]) == 1int as real,
        0 <= i < l.h.len(),
    ensures
        val(pull_on(l, c, i)) * 1000int as real == l.field(spins, i) as real,
{
    let row = l.rows[i];
    assert forall|k: int| 0 <= k < row.len() implies 0 <= (#[trigger] row[k]).node
        < spins.len() by {
        assert(l.rows[i][k].node == row[k].node);
    }
    lemma_row_sum_is_the_field(val, row, c, spins, row.len() as int);
    assert(row.take(row.len() as int) =~= row);
    if biased(l) {
        let a = val(row_sum(row, c, row.len() as int));
        let b = val(R::of_milli(l.h[i]));
        let one = val(c[l.h.len() as int]);
        assert((a + b * one) * 1000int as real == a * 1000int as real + b * 1000int as real)
            by (nonlinear_arith)
            requires
                one == 1int as real,
        ;
    } else {
        assert(l.h[i] == 0);
    }
}

/// One step is Newton's: a particle that reaches no wall takes up the restoring
/// force on its position and the force down the slope of the energy, and moves
/// by its new momentum.
pub proof fn a_step_takes_up_the_forces<R: Scalar>(
    val: spec_fn(R) -> real,
    l: Lattice,
    c0: R,
    form: Coupling,
    restore: R,
    s: Phase<R>,
    i: int,
)
    requires
        exact(val),
        0 <= i < s.x.len(),
    ensures
        ({
            let f = val(pull_on(l, all_acting(form, s.x), i));
            let y = val(s.y[i]) + val(restore) * val(s.x[i]) - val(c0) * f;
            let x = val(s.x[i]) + y;
            let after = stepped(l, c0, form, None, restore, s);
            (-1int as real) <= x <= 1int as real ==> val(after.y[i]) == y && val(after.x[i]) == x
        }),
{
    let f = pull_on(l, all_acting(form, s.x), i);
    let kicked = s.y[i].plus(restore.times(s.x[i]).minus(c0.times(f)));
    walls_stop_a_particle(val, s.x[i].plus(kicked), kicked);
}

/// Step `k` of a run of `n_step`: the restoring force on a position is `(k + 1) /
/// n_step - 1` times it, a particle that reaches no wall moves by its new momentum,
/// and a heated one then keeps a part of its old momentum on top.
pub proof fn a_run_follows_its_schedule<R: Scalar>(
    val: spec_fn(R) -> real,
    l: Lattice,
    c0: R,
    form: Coupling,
    heat: Option<R>,
    n_step: nat,
    k: nat,
    s: Phase<R>,
    i: int,
)
    requires
        exact(val),
        0 < n_step,
        s.x.len() == s.y.len(),
        0 <= i < s.x.len(),
    ensures
        ({
            let now = evolved(l, c0, form, heat, n_step, k, s);
            let next = evolved(l, c0, form, heat, n_step, k + 1, s);
            let f = val(pull_on(l, all_acting(form, now.x), i));
            let (x, y) = (val(now.x[i]), val(now.y[i]));
            let r = (k + 1) as real / n_step as real - 1int as real;
            let kicked = y + (r * x - val(c0) * f);
            (-1int as real) <= x + kicked <= 1int as real ==> val(next.x[i]) == x + kicked && val(
                next.y[i],
            ) == kicked + match heat {
                Some(gamma) => val(gamma) * y,
                None => 0int as real,
            }
        }),
{
    lemma_evolved_len(l, c0, form, heat, n_step, k, s);
    let now = evolved(l, c0, form, heat, n_step, k, s);
    let next = evolved(l, c0, form, heat, n_step, k + 1, s);
    let restore = restoring::<R>(k, n_step);
    assert(next == stepped(l, c0, form, heat, restore, now));
    lemma_exact_values(val, c0);
    assert(val(R::fraction(k + 1, n_step)) == (k + 1) as real / n_step as real);
    let f = pull_on(l, all_acting(form, now.x), i);
    let kicked = now.y[i].plus(restore.times(now.x[i]).minus(c0.times(f)));
    walls_stop_a_particle(val, now.x[i].plus(kicked), kicked);
}

/// A particle at rest in the middle moves against the pull on it, so toward the
/// side that lowers the energy; without a pull it stays.
pub proof fn a_resting_particle_moves_downhill<R: Scalar>(
    val: spec_fn(R) -> real,
    l: Lattice,
    c0: R,
    form: Coupling,
    restore: R,
    s: Phase<R>,
    i: int,
)
    requires
        exact(val),
        0 <= i < s.x.len(),
        val(s.x[i]) == 0int as real,
        val(s.y[i]) == 0int as real,
        val(c0) > 0int as real,
    ensures
        ({
            let f = val(pull_on(l, all_acting(form, s.x), i));
            let x = val(stepped(l, c0, form, None, restore, s).x[i]);
            &&& f > 0int as real <==> x < 0int as real
            &&& f < 0int as real <==> x > 0int as real
        }),
{
    let f = pull_on(l, all_acting(form, s.x), i);
    let kicked = s.y[i].plus(restore.times(s.x[i]).minus(c0.times(f)));
    walls_stop_a_particle(val, s.x[i].plus(kicked), kicked);
    let g = val(f);
    let k = val(c0);
    let r = val(restore);
    assert(r * 0int as real == 0int as real) by (nonlinear_arith);
    assert(g > 0int as real ==> k * g > 0int as real) by (nonlinear_arith)
        requires
            k > 0int as real,
    ;
    assert(g < 0int as real ==> k * g < 0int as real) by (nonlinear_arith)
        requires
            k > 0int as real,
    ;
    assert(g == 0int as real ==> k * g == 0int as real) by (nonlinear_arith);
}

/// A heating rate of 0 heats nothing: the heated path then runs as the plain
/// one does, step for step.
pub proof fn zero_heat_is_no_heat<R: Scalar>(
    l: Lattice,
    c0: R,
    form: Coupling,
    n_step: nat,
    k: nat,
    s: Phase<R>,
)
    requires
        zero_is_neutral::<R>(),
    ensures
        evolved(l, c0, form, Some(nil::<R>()), n_step, k, s) == evolved(
            l,
            c0,
            form,
            None,
            n_step,
            k,
            s,
        ),
    decreases k,
{
    if k > 0 {
        zero_heat_is_no_heat(l, c0, form, n_step, (k - 1) as nat, s);
        let before = evolved(l, c0, form, None, n_step, (k - 1) as nat, s);
        let restore = restoring::<R>((k - 1) as nat, n_step);
        assert(stepped(l, c0, form, Some(nil::<R>()), restore, before) =~= stepped(
            l,
            c0,
            form,
            None,
            restore,
            before,
        ));
    }
}

/// 1 is not below itself, nor is -1, and 1 is not below -1.
pub open spec fn walls_stand<R: Scalar>() -> bool {
    &&& !unit::<R>().under(unit())
    &&& !R::of_milli(-1000).under(R::of_milli(-1000))
    &&& !unit::<R>().under(R::of_milli(-1000))
}

/// After any step no particle is beyond a wall, heated or not.
pub proof fn positions_stay_between_the_walls<R: Scalar>(
    l: Lattice,
    c0: R,
    form: Coupling,
    heat: Option<R>,
    n_step: nat,
    k: nat,
    s: Phase<R>,
    i: int,
)
    requires
        walls_stand::<R>(),
        k > 0,
        s.x.len() == s.y.len(),
        0 <= i < s.x.len(),
    ensures
        !unit::<R>().under(evolved(l, c0, form, heat, n_step, k, s).x[i]),
        !evolved(l, c0, form, heat, n_step, k, s).x[i].under(R::of_milli(-1000)),
{
    lemma_evolved_len(l, c0, form, heat, n_step, (k - 1) as nat, s);
}

/// A particle that a wall has just stopped leaves a heated step with the heated
/// share of the momentum it had before.
pub proof fn heat_moves_a_stopped_particle<R: Scalar>(
    gamma: R,
    restore: R,
    c0: R,
    x: R,
    y: R,
    f: R,
)
    requires
        unit::<R>().under(x.plus(y.plus(restore.times(x).minus(c0.times(f))))),
    ensures
        moved(Some(gamma), restore, c0, x, y, f) == (
            unit::<R>(),
            nil::<R>().plus(gamma.times(y)),
        ),
        moved(None, restore, c0, x, y, f) == (unit::<R>(), nil::<R>()),
{
}

/// Every operation commutes with negation, and the walls mirror each other.
pub open spec fn sign_symmetric<R: Scalar>() -> bool {
    &&& forall|a: R, b: R|
        (#[trigger] opposite(a).plus(opposite(b))) == opposite(a.plus(b))
    &&& forall|a: R, b: R|
        (#[trigger] opposite(a).minus(opposite(b))) == opposite(a.minus(b))
    &&& forall|a: R, b: R| (#[trigger] a.times(opposite(b))) == opposite(a.times(b))
    &&& opposite(nil::<R>()) == nil::<R>()
    &&& opposite(unit::<R>()) == R::of_milli(-1000)
    &&& opposite(R::of_milli(-1000)) == unit::<R>()
    &&& forall|a: R|
        (#[trigger] unit::<R>().under(opposite(a))) == a.under(R::of_milli(-1000))
    &&& forall|a: R|
        (#[trigger] opposite(a).under(R::of_milli(-1000))) == unit::<R>().under(a)
    &&& forall|a: R| !((#[trigger] unit::<R>().under(a)) && a.under(R::of_milli(-1000)))
}

/// `x` and its negation lie on different sides of 0.
pub open spec fn has_side<R: Scalar>(x: R) -> bool {
    x.reaches(nil()) != opposite(x).reaches(nil()) && x.under(nil()) != opposite(x).under(nil())
}

/// Every particle has a side.
pub open spec fn sides_known<R: Scalar>(x: Seq<R>) -> bool {
    forall|i: int| 0 <= i < x.len() ==> has_side(#[trigger] x[i])
}

/// Every position and momentum negated.
pub open spec fn mirrored<R: Scalar>(s: Phase<R>) -> Phase<R> {
    Phase {
        x: Seq::new(s.x.len(), |i: int| opposite(s.x[i])),
        y: Seq::new(s.y.len(), |i: int| opposite(s.y[i])),
    }
}

proof fn lemma_row_sum_mirrors<R: Scalar>(row: Seq<Bond>, c: Seq<R>, d: Seq<R>, k: int)
    requires
        sign_symmetric::<R>(),
        0 <= k <= row.len(),
        c.len() == d.len(),
        forall|i: int| 0 <= i < c.len() ==> #[trigger] d[i] == opposite(c[i]),
        forall|i: int| 0 <= i < row.len() ==> 0 <= (#[trigger] row[i]).node < c.len(),
    ensures
        row_sum(row, d, k) == opposite(row_sum(row, c, k)),
    decreases k,
{
    if k > 0 {
        lemma_row_sum_mirrors(row, c, d, k - 1);
        let t = R::of_milli(row[k - 1].coup);
        assert(d[row[k - 1].node] == opposite(c[row[k - 1].node]));
        assert(t.times(opposite(c[row[k - 1].node])) == opposite(t.times(c[row[k - 1].node])));
    }
}

proof fn lemma_field_sum_mirrors<R: Scalar>(h: Seq<int>, c: Seq<R>, d: Seq<R>, k: int)
    requires
        sign_symmetric::<R>(),
        0 <= k <= h.len() <= c.len(),
        c.len() == d.len(),
        forall|i: int| 0 <= i < c.len() ==> #[trigger] d[i] == opposite(c[i]),
    ensures
        field_sum(h, d, k) == opposite(field_sum(h, c, k)),
    decreases k,
{
    if k > 0 {
        lemma_field_sum_mirrors(h, c, d, k - 1);
        let t = R::of_milli(h[k - 1]);
        assert(d[k - 1] == opposite(c[k - 1]));
        assert(t.times(opposite(c[k - 1])) == opposite(t.times(c[k - 1])));
    }
}

proof fn lemma_pull_mirrors<R: Scalar>(l: Lattice, c: Seq<R>, d: Seq<R>, i: int)
    requires
        sign_symmetric::<R>(),
        l.wf(),
        c.len() == particles(l),
        c.len() == d.len(),
        0 <= i < c.len(),
        forall|k: int| 0 <= k < c.len() ==> #[trigger] d[k] == opposite(c[k]),
    ensures
        pull_on(l, d, i) == opposite(pull_on(l, c, i)),
{
    let n = l.h.len() as int;
    if i == n {
        lemma_field_sum_mirrors(l.h, c, d, n);
    } else {
        lemma_row_sum_mirrors(l.rows[i], c, d, l.rows[i].len() as int);
        if biased(l) {
            let t = R::of_milli(l.h[i]);
            assert(d[n] == opposite(c[n]));
            assert(t.times(opposite(c[n])) == opposite(t.times(c[n])));
        }
    }
}

proof fn lemma_moved_mirrors<R: Scalar>(heat: Option<R>, restore: R, c0: R, x: R, y: R, f: R)
    requires
        sign_symmetric::<R>(),
    ensures
        moved(heat, restore, c0, opposite(x), opposite(y), opposite(f)) == (
            opposite(moved(heat, restore, c0, x, y, f).0),
            opposite(moved(heat, restore, c0, x, y, f).1),
        ),
{
    let drive = restore.times(x).minus(c0.times(f));
    assert(restore.times(opposite(x)) == opposite(restore.times(x)));
    assert(c0.times(opposite(f)) == opposite(c0.times(f)));
    assert(opposite(restore.times(x)).minus(opposite(c0.times(f))) == opposite(drive));
    let kicked = y.plus(drive);
    assert(opposite(y).plus(opposite(drive)) == opposite(kicked));
    let free = x.plus(kicked);
    assert(opposite(x).plus(opposite(kicked)) == opposite(free));
    assert(unit::<R>().under(opposite(free)) == free.under(R::of_milli(-1000)));
    assert(opposite(free).under(R::of_milli(-1000)) == unit::<R>().under(free));
    let at = walled(free, kicked);
    assert(walled(opposite(free), opposite(kicked)) == (opposite(at.0), opposite(at.1)));
    if let Some(gamma) = heat {
        assert(gamma.times(opposite(y)) == opposite(gamma.times(y)));
        assert(opposite(at.1).plus(opposite(gamma.times(y))) == opposite(
            at.1.plus(gamma.times(y)),
        ));
    }
}

/// Negating every start negates the whole trajectory, where every particle
/// keeps to one side of 0 or acts by its position.
pub proof fn negated_start_negates_the_run<R: Scalar>(
    l: Lattice,
    c0: R,
    form: Coupling,
    heat: Option<R>,
    n_step: nat,
    k: nat,
    s: Phase<R>,
)
    requires
        sign_symmetric::<R>(),
        l.wf(),
        s.x.len() == particles(l),
        s.y.len() == particles(l),
        form is Discrete ==> forall|t: nat|
            t < k ==> sides_known((#[trigger] evolved(l, c0, form, heat, n_step, t, s)).x),
    ensures
        evolved(l, c0, form, heat, n_step, k, mirrored(s)) == mirrored(
            evolved(l, c0, form, heat, n_step, k, s),
        ),
    decreases k,
{
    if k > 0 {
        let t = (k - 1) as nat;
        negated_start_negates_the_run(l, c0, form, heat, n_step, t, s);
        lemma_evolved_len(l, c0, form, heat, n_step, t, s);
        let a = evolved(l, c0, form, heat, n_step, t, s);
        let b = mirrored(a);
        let restore = restoring::<R>(t, n_step);
        let c = all_acting(form, a.x);
        let d = all_acting(form, b.x);
        assert forall|i: int| 0 <= i < c.len() implies #[trigger] d[i] == opposite(c[i]) by {
            assert(b.x[i] == opposite(a.x[i]));
            if form is Discrete {
                assert(sides_known(a.x));
                assert(has_side(a.x[i]));
            }
        }
        let left = stepped(l, c0, form, heat, restore, b);
        let right = mirrored(stepped(l, c0, form, heat, restore, a));
        assert forall|i: int|
            0 <= i < c.len() implies left.x[i] == right.x[i] && left.y[i] == right.y[i] by {
            lemma_pull_mirrors(l, c, d, i);
            lemma_moved_mirrors(heat, restore, c0, a.x[i], a.y[i], pull_on(l, c, i));
        }
        assert(left.x =~= right.x);
        assert(left.y =~= right.y);
    } else {
        assert(mirrored(s) == evolved(l, c0, form, heat, n_step, 0, mirrored(s)));
    }
}

/// The gauge is a symmetry: with a field, negating every position leaves the
/// gauge-fixed spins as they are.
pub proof fn gauge_fixes_the_sign<R: Scalar>(l: Lattice, s: Phase<R>)
    requires
        biased(l),
        s.x.len() == particles(l),
        sides_known(s.x),
    ensures
        gauged_spins(l, mirrored(s).x) == gauged_spins(l, s.x),
{
    let n = l.h.len() as int;
    assert(has_side(s.x[n]));
    assert forall|i: int| 0 <= i < n implies gauged(l, mirrored(s).x, i) == gauged(l, s.x, i) by {
        assert(has_side(s.x[i]));
    }
    assert(gauged_spins(l, mirrored(s).x) =~= gauged_spins(l, s.x));
}

/// Every solution that a bifurcation job reports is scored by the consensus
/// rule on its own spins.
pub proof fn every_bifurcation_result_is_scored<
    R: Scalar,
    D: Fn(u32, R, R) -> R,
    W: Scalar,
    N: Fn(W) -> R,
>(
    draw: D,
    narrow: N,
    g: IsingGraph,
    variant: SbVariant,
    n_step: nat,
    results: Seq<SamplerResult>,
    i: int,
)
    requires
        sb_results(draw, narrow, g, variant, n_step, results),
        0 <= i < results.len(),
    ensures
        scored(g, results[i]),
{
}

/// Thousandths meet what the laws above ask of a scalar: 0 is neutral and the
/// walls stand.
pub proof fn thousandths_are_well_behaved()
    ensures
        zero_is_neutral::<Thousandths>(),
        walls_stand::<Thousandths>(),
{
    assert forall|a: Thousandths| (#[trigger] unit::<Thousandths>().times(a)).minus(a) == nil::<
        Thousandths,
    >() by {
        let size = magnitude(a.0 as int);
        assert((1000 * size) / 1000 == size) by (nonlinear_arith);
        assert(magnitude(unit::<Thousandths>().0 as int) * size == 1000 * size);
    }
    assert forall|a: Thousandths| (#[trigger] nil::<Thousandths>().times(a)) == nil::<
        Thousandths,
    >() by {
        assert(0 * magnitude(a.0 as int) == 0) by (nonlinear_arith);
    }
    assert forall|a: Thousandths| (#[trigger] a.times(nil::<Thousandths>())) == nil::<
        Thousandths,
    >() by {
        assert(magnitude(a.0 as int) * 0 == 0) by (nonlinear_arith);
    }
}

/// The restoring force fades along a run: it never turns outward, it weakens with
/// every step, and it is gone on the last one.
pub proof fn the_restoring_force_fades<R: Scalar>(val: spec_fn(R) -> real, k: nat, n_step: nat)
    requires
        exact(val),
        k < n_step,
    ensures
        val(restoring::<R>(k, n_step)) <= 0int as real,
        val(restoring::<R>(k, n_step)) == 0int as real <==> k + 1 == n_step,
        k + 1 < n_step ==> val(restoring::<R>(k, n_step)) < val(restoring::<R>(k + 1, n_step)),
        n_step as real * (val(restoring::<R>(k, n_step)) + 1int as real) == (k + 1) as real,
{
    let n = n_step as real;
    lemma_exact_values(val, unit::<R>());
    let a = val(R::fraction(k + 1, n_step));
    let b = val(R::fraction(k + 2, n_step));
    assert(a == (k + 1) as real / n);
    assert(b == (k + 2) as real / n);
    lemma_quotient((k + 1) as real, n);
    lemma_quotient((k + 2) as real, n);
    lemma_scaled_order(a, b, n);
    lemma_scaled_order(a, 1int as real, n);
    lemma_trivial_factors(n);
    lemma_swap(a, n);
}

/// The coupling scale `c` brings the couplings to size: `(2 c)^2` times the squared
/// norm of the coupling matrix, in squared units, is the number of particles less
/// one, and `c` is not below 0.
pub proof fn the_coupling_scale_balances_the_norm<W: Scalar>(
    val: spec_fn(W) -> real,
    half: nat,
    count: nat,
)
    requires
        exact(val),
        half > 0,
        count > 0,
    ensures
        ({
            let c = val(wide_scale::<W>(half, count));
            &&& c >= 0int as real
            &&& 4int as real * ((c * c) * (half as real / 500000int as real)) == (count - 1) as real
        }),
{
    let many = W::fraction((count - 1) as nat, 1);
    assert(val(many) == (count - 1) as nat as real / 1nat as real);
    let s = val(many.root());
    lemma_whole_value::<W>(val, half);
    assert(val(W::fraction(500000, 1)) == 500000nat as real / 1nat as real);
    let norm = whole_of::<W>(half).over(W::fraction(500000, 1));
    let m = half as real / 500000int as real;
    assert(val(norm) == m);
    let r = val(norm.root());
    assert(r * r == m);
    if r == 0int as real {
        lemma_trivial_factors(r);
    }
    assert(val(W::of_milli(500)) == 500int as real / 1000int as real);
    let top = W::of_milli(500).times(many.root());
    let c = val(wide_scale::<W>(half, count));
    assert(c == val(top) / r);
    lemma_quotient(val(top), r);
    lemma_square_of_product(c, r);
    lemma_square_of_half(s);
    assert(c >= 0int as real) by {
        lemma_trivial_factors(r);
        lemma_scaled_order(c, 0int as real, r);
        lemma_half_above(s);
    }
}

proof fn lemma_square_of_product(c: real, r: real)
    by (nonlinear_arith)
    ensures
        (c * r) * (c * r) == (c * c) * (r * r),
{
}

proof fn lemma_square_of_half(s: real)
    by (nonlinear_arith)
    ensures
        4int as real * (((500int as real / 1000int as real) * s) * ((500int as real
            / 1000int as real) * s)) == s * s,
{
}

proof fn lemma_half_above(s: real)
    by (nonlinear_arith)
    requires
        s >= 0int as real,
    ensures
        (500int as real / 1000int as real) * s >= 0int as real,
{
}

} // verus!
