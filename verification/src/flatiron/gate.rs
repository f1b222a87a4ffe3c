//! The two-site coupling of a network.
//!
//! Truncation sees the weights of the surrounding bonds: they are absorbed into
//! the two sites before the factorization and released after it.
use vstd::prelude::*;

use crate::flatiron::state::{
    dematricized, left_of, lemma_shape, matricized, rescaled, scaled_bond, stride_of, tensor_wf,
    SiteTensor, Tensor,
};
use crate::matrix::{entry, lemma_inside, lemma_split, table};
use crate::mps::svd::{
    factored, first_cols, jacobi_svd, keep_count, kept, lesser, svd_of, take_cols, truncated_svd,
    JACOBI_MAX_SWEEPS,
};
use crate::scalar::{nil, one, unit, zero, Scalar};

verus! {

/// A tensor after the weights of its first `b` bonds are absorbed, but for bond
/// `skip`. A bond without weights is left alone.
pub open spec fn absorbed<R: Scalar>(
    t: Tensor<R>,
    env: Seq<Seq<R>>,
    skip: int,
    b: int,
) -> Tensor<R>
    decreases b,
{
    if b <= 0 {
        t
    } else {
        let before = absorbed(t, env, skip, b - 1);
        if b - 1 == skip || env[b - 1].len() == 0 {
            before
        } else {
            scaled_bond(before, b - 1, env[b - 1])
        }
    }
}

/// The weights that undo `w`, none of them above the inverse of `floor`.
pub open spec fn undone<R: Scalar>(w: Seq<R>, floor: R) -> Seq<R> {
    Seq::new(
        w.len(),
        |i: int|
            unit::<R>().over(
                if w[i].reaches(floor) {
                    w[i]
                } else {
                    floor
                },
            ),
    )
}

/// The weights of all bonds, undone.
pub open spec fn all_undone<R: Scalar>(env: Seq<Seq<R>>, floor: R) -> Seq<Seq<R>> {
    Seq::new(env.len(), |b: int| undone(env[b], floor))
}

/// Each bond but `skip` has as many weights as its dimension, or none.
pub open spec fn weights_fit<R>(t: Tensor<R>, env: Seq<Seq<R>>, skip: int) -> bool {
    env.len() == t.dims.len() && forall|b: int|
        0 <= b < env.len() && b != skip ==> (#[trigger] env[b]).len() == 0 || env[b].len()
            == t.dims[b]
}

/// The vectors of a vector of vectors.
pub open spec fn rows_of<R>(v: Seq<Vec<R>>) -> Seq<Seq<R>> {
    Seq::new(v.len(), |i: int| v[i]@)
}

proof fn lemma_absorbed<R: Scalar>(t: Tensor<R>, env: Seq<Seq<R>>, skip: int, b: int)
    requires
        tensor_wf(t),
    ensures
        absorbed(t, env, skip, b).phys == t.phys,
        absorbed(t, env, skip, b).dims == t.dims,
        tensor_wf(absorbed(t, env, skip, b)),
    decreases b,
{
    if b > 0 {
        lemma_absorbed(t, env, skip, b - 1);
    }
}

/// Scale every bond but `skip` by its weights.
fn absorb<R: Scalar>(t: &mut SiteTensor<R>, env: &Vec<Vec<R>>, skip: usize)
    requires
        tensor_wf(old(t)@),
        weights_fit(old(t)@, rows_of(env@), skip as int),
    ensures
        final(t)@ == absorbed(old(t)@, rows_of(env@), skip as int, env@.len() as int),
        tensor_wf(final(t)@),
        final(t)@.phys == old(t)@.phys,
        final(t)@.dims == old(t)@.dims,
{
    let ghost start = t@;
    let ghost rows = rows_of(env@);
    let mut b: usize = 0;
    while b < env.len()
        invariant
            tensor_wf(t@),
            tensor_wf(start),
            rows == rows_of(env@),
            weights_fit(start, rows, skip as int),
            b <= env@.len(),
            t@ == absorbed(start, rows, skip as int, b as int),
            t@.phys == start.phys,
            t@.dims == start.dims,
        decreases env@.len() - b,
    {
        assert(rows[b as int] == env@[b as int]@);
        if b != skip && env[b].len() > 0 {
            t.scale_bond(b, &env[b]);
        }
        b = b + 1;
    }
}

/// The weights of all bonds, undone.
fn undo_all<R: Scalar>(env: &Vec<Vec<R>>, floor: R) -> (r: Vec<Vec<R>>)
    ensures
        rows_of(r@) == all_undone(rows_of(env@), floor),
{
    let mut r: Vec<Vec<R>> = Vec::with_capacity(env.len());
    let mut b: usize = 0;
    while b < env.len()
        invariant
            b <= env@.len(),
            r@.len() == b,
            forall|i: int| 0 <= i < b ==> (#[trigger] r@[i])@ == undone(env@[i]@, floor),
        decreases env@.len() - b,
    {
        let mut w: Vec<R> = Vec::with_capacity(env[b].len());
        let mut i: usize = 0;
        while i < env[b].len()
            invariant
                b < env@.len(),
                i <= env@[b as int]@.len(),
                w@.len() == i,
                forall|k: int|
                    0 <= k < i ==> #[trigger] w@[k] == undone(env@[b as int]@, floor)[k],
            decreases env@[b as int]@.len() - i,
        {
            let x: R = env[b][i];
            let kept_up: R = if x.at_least(floor) {
                x
            } else {
                floor
            };
            w.push(one::<R>().quotient(kept_up));
            i = i + 1;
        }
        assert(w@ =~= undone(env@[b as int]@, floor));
        r.push(w);
        b = b + 1;
    }
    assert(rows_of(r@) =~= all_undone(rows_of(env@), floor));
    r
}

/// Sum over the first `c` coordinates of the shared bond.
pub open spec fn bond_sum<R: Scalar>(
    mu: Seq<R>,
    mv: Seq<R>,
    lam: Seq<R>,
    k: int,
    row: int,
    col: int,
    c: int,
) -> R
    decreases c,
{
    if c <= 0 {
        nil()
    } else {
        bond_sum(mu, mv, lam, k, row, col, c - 1).plus(
            entry(mu, k, row, c - 1).times(lam[c - 1]).times(entry(mv, k, col, c - 1)),
        )
    }
}

/// The pair of two sites joined over their bond, under the coupling `t`. Rows
/// and columns start with the physical index, `ru` and `rv` entries each.
pub open spec fn joined<R: Scalar>(
    mu: Seq<R>,
    mv: Seq<R>,
    lam: Seq<R>,
    rows_u: nat,
    rows_v: nat,
    k: nat,
    ru: int,
    rv: int,
    t: R,
) -> Seq<R> {
    table(
        rows_u,
        rows_v,
        |row: int, col: int|
            bond_sum(mu, mv, lam, k as int, row, col, k as int).times(
                if row / ru == col / rv {
                    unit::<R>().minus(t)
                } else {
                    unit::<R>().plus(t)
                },
            ),
    )
}

fn join<R: Scalar>(
    mu: &Vec<R>,
    mv: &Vec<R>,
    lam: &Vec<R>,
    rows_u: usize,
    rows_v: usize,
    k: usize,
    ru: usize,
    rv: usize,
    t: R,
) -> (theta: Vec<R>)
    requires
        mu@.len() == rows_u * k,
        mv@.len() == rows_v * k,
        lam@.len() == k,
        ru > 0,
        rv > 0,
        rows_u * rows_v <= usize::MAX,
    ensures
        theta@ == joined(
            mu@,
            mv@,
            lam@,
            rows_u as nat,
            rows_v as nat,
            k as nat,
            ru as int,
            rv as int,
            t,
        ),
        theta@.len() == rows_u * rows_v,
{
    let len_u: usize = mu.len();
    let len_v: usize = mv.len();
    let total: usize = rows_u * rows_v;
    let same: R = one::<R>().difference(t);
    let other: R = one::<R>().sum(t);
    let ghost goal = joined(
        mu@,
        mv@,
        lam@,
        rows_u as nat,
        rows_v as nat,
        k as nat,
        ru as int,
        rv as int,
        t,
    );
    let mut theta: Vec<R> = Vec::with_capacity(total);
    let mut x: usize = 0;
    while x < total
        invariant
            len_u == mu@.len(),
            len_v == mv@.len(),
            len_u == rows_u * k,
            len_v == rows_v * k,
            lam@.len() == k,
            ru > 0,
            rv > 0,
            total == rows_u * rows_v,
            same == unit::<R>().minus(t),
            other == unit::<R>().plus(t),
            goal == joined(
                mu@,
                mv@,
                lam@,
                rows_u as nat,
                rows_v as nat,
                k as nat,
                ru as int,
                rv as int,
                t,
            ),
            x <= total,
            theta@ == goal.take(x as int),
        decreases total - x,
    {
        proof {
            lemma_split(rows_u as int, rows_v as int, x as int);
        }
        let row: usize = x / rows_v;
        let col: usize = x % rows_v;
        let mut sum: R = zero();
        let mut c: usize = 0;
        while c < k
            invariant
                len_u == mu@.len(),
                len_v == mv@.len(),
                len_u == rows_u * k,
                len_v == rows_v * k,
                lam@.len() == k,
                row < rows_u,
                col < rows_v,
                c <= k,
                sum == bond_sum(mu@, mv@, lam@, k as int, row as int, col as int, c as int),
            decreases k - c,
        {
            proof {
                lemma_inside(rows_u as int, k as int, row as int, c as int);
                lemma_inside(rows_v as int, k as int, col as int, c as int);
            }
            sum = sum.sum(mu[row * k + c].product(lam[c]).product(mv[col * k + c]));
            c = c + 1;
        }
        let factor: R = if row / ru == col / rv {
            same
        } else {
            other
        };
        theta.push(sum.product(factor));
        x = x + 1;
        assert(theta@ =~= goal.take(x as int));
    }
    assert(theta@ =~= goal);
    theta
}

/// The first `keep` rows of a matrix with `n` columns, as columns.
pub open spec fn rows_as_cols<R>(x: Seq<R>, n: nat, keep: nat) -> Seq<R> {
    table(n, keep, |c: int, b: int| entry(x, n as int, b, c))
}

fn lay_rows<R: Scalar>(a: &Vec<R>, n: usize, keep: usize, k: usize) -> (r: Vec<R>)
    requires
        a@.len() == k * n,
        keep <= k,
    ensures
        r@ == rows_as_cols(a@, n as nat, keep as nat),
        r@.len() == n * keep,
{
    let all: usize = a.len();
    assert(n * keep <= k * n) by (nonlinear_arith)
        requires
            keep <= k,
            0 <= n,
    ;
    let total: usize = n * keep;
    let ghost goal = rows_as_cols(a@, n as nat, keep as nat);
    let mut r: Vec<R> = Vec::with_capacity(total);
    let mut x: usize = 0;
    while x < total
        invariant
            all == a@.len(),
            all == k * n,
            keep <= k,
            total == n * keep,
            goal == rows_as_cols(a@, n as nat, keep as nat),
            x <= total,
            r@ == goal.take(x as int),
        decreases total - x,
    {
        proof {
            lemma_split(n as int, keep as int, x as int);
        }
        let c: usize = x / keep;
        let b: usize = x % keep;
        proof {
            lemma_inside(k as int, n as int, b as int, c as int);
        }
        r.push(a[b * n + c]);
        x = x + 1;
        assert(r@ =~= goal.take(x as int));
    }
    assert(r@ =~= goal);
    r
}

/// A pair cut in two: left columns, bond weights, right columns, dimension.
#[verifier::ext_equal]
pub struct Cut<R> {
    /// Left columns.
    pub u: Seq<R>,
    /// Bond weights, the largest 1.
    pub lam: Seq<R>,
    /// Right columns.
    pub v: Seq<R>,
    /// The retained dimension.
    pub keep: nat,
}

/// A pair cut at dimension `cap` at most. Where the decomposition does not
/// converge, the weights are uniform and stay with the right side.
pub open spec fn cut_of<R: Scalar>(eps: R, theta: Seq<R>, m: nat, n: nat, cap: nat) -> Cut<R> {
    match svd_of(eps, theta, m, n, JACOBI_MAX_SWEEPS as nat) {
        Some(d) => {
            let full = lesser(m, n);
            let keep = kept(eps, d.1, lesser(full, cap));
            let s0 = if d.1.len() > 0 {
                d.1[0]
            } else {
                nil()
            };
            Cut {
                u: first_cols(d.0, m, full, keep),
                lam: Seq::new(
                    keep,
                    |b: int|
                        if nil::<R>().under(s0) {
                            d.1[b].over(s0)
                        } else {
                            unit::<R>()
                        },
                ),
                v: rows_as_cols(d.2, n, keep),
                keep,
            }
        },
        None => {
            let f = factored(eps, theta, m, n, cap, JACOBI_MAX_SWEEPS as nat);
            Cut {
                u: f.0,
                lam: Seq::new(f.2, |b: int| unit::<R>()),
                v: rows_as_cols(f.1, n, f.2),
                keep: f.2,
            }
        },
    }
}

/// Ones.
fn ones<R: Scalar>(n: usize) -> (v: Vec<R>)
    ensures
        v@ == Seq::new(n as nat, |b: int| unit::<R>()),
{
    let mut v: Vec<R> = Vec::with_capacity(n);
    while v.len() < n
        invariant
            v@.len() <= n,
            forall|b: int| 0 <= b < v@.len() ==> #[trigger] v@[b] == unit::<R>(),
        decreases n - v@.len(),
    {
        v.push(one());
    }
    assert(v@ =~= Seq::new(n as nat, |b: int| unit::<R>()));
    v
}

/// Cut a pair in two.
fn cut<R: Scalar>(eps: R, theta: &Vec<R>, m: usize, n: usize, cap: usize) -> (r: (
    Vec<R>,
    Vec<R>,
    Vec<R>,
    usize,
))
    requires
        theta@.len() == m * n,
        1 <= m < usize::MAX,
        1 <= n < usize::MAX,
        cap >= 1,
    ensures
        (Cut { u: r.0@, lam: r.1@, v: r.2@, keep: r.3 as nat }) == cut_of(
            eps,
            theta@,
            m as nat,
            n as nat,
            cap as nat,
        ),
        r.0@.len() == m * r.3,
        r.1@.len() == r.3,
        r.2@.len() == n * r.3,
        1 <= r.3 <= cap,
        r.3 <= m,
        r.3 <= n,
{
    match jacobi_svd(eps, theta, m, n, JACOBI_MAX_SWEEPS) {
        Some(d) => {
            let limit: usize = if d.k < cap {
                d.k
            } else {
                cap
            };
            let keep: usize = keep_count(eps, &d.s, limit);
            let u = take_cols(&d.u, m, d.k, keep);
            let v = lay_rows(&d.vt, n, keep, d.k);
            let s0: R = d.s[0];
            let known: bool = zero::<R>().less(s0);
            let mut lam: Vec<R> = Vec::with_capacity(keep);
            let mut b: usize = 0;
            while b < keep
                invariant
                    keep <= d.s@.len(),
                    b <= keep,
                    lam@.len() == b,
                    forall|i: int|
                        0 <= i < b ==> #[trigger] lam@[i] == if known {
                            d.s@[i].over(s0)
                        } else {
                            unit::<R>()
                        },
                decreases keep - b,
            {
                let value: R = if known {
                    d.s[b].quotient(s0)
                } else {
                    one()
                };
                lam.push(value);
                b = b + 1;
            }
            proof {
                let goal = cut_of(eps, theta@, m as nat, n as nat, cap as nat);
                assert(lam@ =~= goal.lam);
            }
            (u, lam, v, keep)
        },
        None => {
            let f = truncated_svd(eps, theta, m, n, cap);
            proof {
                crate::mps::svd::factor_keeps_within_its_cap(
                    eps,
                    theta@,
                    m as nat,
                    n as nat,
                    cap as nat,
                    JACOBI_MAX_SWEEPS as nat,
                );
            }
            let v = lay_rows(&f.carry, n, f.k, f.k);
            let lam = ones(f.k);
            (f.q, lam, v, f.k)
        },
    }
}

/// Two sites and their shared weights after the coupling.
pub open spec fn gated<R: Scalar>(
    eps: R,
    floor: R,
    tu: Tensor<R>,
    tv: Tensor<R>,
    bu: int,
    bv: int,
    t: R,
    lam: Seq<R>,
    env_u: Seq<Seq<R>>,
    env_v: Seq<Seq<R>>,
    chi: nat,
) -> (Tensor<R>, Tensor<R>, Seq<R>) {
    let au = absorbed(tu, env_u, bu, env_u.len() as int);
    let av = absorbed(tv, env_v, bv, env_v.len() as int);
    let rows_u = left_of(au, bu) * stride_of(au, bu);
    let rows_v = left_of(av, bv) * stride_of(av, bv);
    let theta = joined(
        matricized(au, bu),
        matricized(av, bv),
        lam,
        rows_u,
        rows_v,
        au.dims[bu],
        (rows_u / au.phys) as int,
        (rows_v / av.phys) as int,
        t,
    );
    let c = cut_of(
        eps,
        theta,
        rows_u,
        rows_v,
        if chi < 1 {
            1
        } else {
            chi
        },
    );
    let nu = dematricized(au, bu, c.u, c.keep);
    let nv = dematricized(av, bv, c.v, c.keep);
    (
        rescaled(absorbed(nu, all_undone(env_u, floor), bu, env_u.len() as int)),
        rescaled(absorbed(nv, all_undone(env_v, floor), bv, env_v.len() as int)),
        c.lam,
    )
}

/// The rows of a tensor around bond `b`.
pub open spec fn rows_at<R>(t: Tensor<R>, b: int) -> nat {
    left_of(t, b) * stride_of(t, b)
}

proof fn lemma_rows_same<R>(a: Tensor<R>, b: Tensor<R>, at: int)
    requires
        a.phys == b.phys,
        a.dims == b.dims,
    ensures
        rows_at(a, at) == rows_at(b, at),
        left_of(a, at) == left_of(b, at),
        stride_of(a, at) == stride_of(b, at),
{
}

proof fn lemma_rows_per_phys<R>(t: Tensor<R>, b: int)
    requires
        tensor_wf(t),
        0 <= b < t.dims.len(),
    ensures
        rows_at(t, b) / t.phys >= 1,
{
    let h = crate::flatiron::state::prod(t.dims, 0, b);
    let s = stride_of(t, b);
    crate::flatiron::state::lemma_prod_positive(t.dims, 0, b);
    crate::flatiron::state::lemma_prod_positive(t.dims, b + 1, t.dims.len() as int);
    let p = t.phys;
    assert(((p * h) * s) / p >= 1) by (nonlinear_arith)
        requires
            p >= 1,
            h >= 1,
            s >= 1,
    ;
}

/// The coupling `1 - t Z Z` on the bond that joins two sites, truncated to `chi`
/// at most.
///
/// `bu` and `bv` are the places of the bond at each site, `lam` its weights, and
/// `env_u` and `env_v` the weights of every other bond of each site.
pub fn apply_zz<R: Scalar>(
    eps: R,
    floor: R,
    tu: &mut SiteTensor<R>,
    tv: &mut SiteTensor<R>,
    bu: usize,
    bv: usize,
    t: R,
    lam: &mut Vec<R>,
    env_u: &Vec<Vec<R>>,
    env_v: &Vec<Vec<R>>,
    chi: usize,
)
    requires
        tensor_wf(old(tu)@),
        tensor_wf(old(tv)@),
        bu < old(tu)@.dims.len(),
        bv < old(tv)@.dims.len(),
        old(tu)@.dims[bu as int] == old(tv)@.dims[bv as int],
        old(lam)@.len() == old(tu)@.dims[bu as int],
        weights_fit(old(tu)@, rows_of(env_u@), bu as int),
        weights_fit(old(tv)@, rows_of(env_v@), bv as int),
        rows_at(old(tu)@, bu as int) * rows_at(old(tv)@, bv as int) < usize::MAX,
    ensures
        (final(tu)@, final(tv)@, final(lam)@) == gated(
            eps,
            floor,
            old(tu)@,
            old(tv)@,
            bu as int,
            bv as int,
            t,
            old(lam)@,
            rows_of(env_u@),
            rows_of(env_v@),
            chi as nat,
        ),
        tensor_wf(final(tu)@),
        tensor_wf(final(tv)@),
        final(tu)@.phys == old(tu)@.phys,
        final(tv)@.phys == old(tv)@.phys,
        final(tu)@.dims == old(tu)@.dims.update(bu as int, final(lam)@.len()),
        final(tv)@.dims == old(tv)@.dims.update(bv as int, final(lam)@.len()),
        1 <= final(lam)@.len(),
        chi >= 1 ==> final(lam)@.len() <= chi,
        final(lam)@.len() * final(lam)@.len() < usize::MAX,
{
    let ghost u0 = tu@;
    let ghost v0 = tv@;
    let ghost eu = rows_of(env_u@);
    let ghost ev = rows_of(env_v@);
    absorb(tu, env_u, bu);
    absorb(tv, env_v, bv);
    let ghost au = tu@;
    let ghost av = tv@;
    proof {
        lemma_shape(au, bu as int);
        lemma_shape(av, bv as int);
        lemma_rows_same(au, u0, bu as int);
        lemma_rows_same(av, v0, bv as int);
        lemma_rows_per_phys(au, bu as int);
        lemma_rows_per_phys(av, bv as int);
        let (a, b) = (rows_at(au, bu as int), rows_at(av, bv as int));
        assert(a <= a * b && b <= a * b) by (nonlinear_arith)
            requires
                a >= 1,
                b >= 1,
        ;
    }
    let (mu, rows_u, k) = tu.matricize(bu);
    let (mv, rows_v, _) = tv.matricize(bv);
    let ru: usize = rows_u / tu.phys;
    let rv: usize = rows_v / tv.phys;
    let theta = join(&mu, &mv, lam, rows_u, rows_v, k, ru, rv, t);
    let cap: usize = if chi < 1 {
        1
    } else {
        chi
    };
    let (u, new_lam, v, keep) = cut(eps, &theta, rows_u, rows_v, cap);
    assert(keep * keep <= rows_u * rows_v) by (nonlinear_arith)
        requires
            0 <= keep <= rows_u,
            keep <= rows_v,
    ;
    tu.dematricize(bu, &u, keep);
    tv.dematricize(bv, &v, keep);
    *lam = new_lam;
    let inv_u = undo_all(env_u, floor);
    let inv_v = undo_all(env_v, floor);
    proof {
        assert forall|b: int| 0 <= b < eu.len() && b != bu implies (#[trigger] rows_of(
            inv_u@,
        )[b]).len() == 0 || rows_of(inv_u@)[b].len() == tu@.dims[b] by {
            assert(eu[b].len() == 0 || eu[b].len() == u0.dims[b]);
        }
        assert forall|b: int| 0 <= b < ev.len() && b != bv implies (#[trigger] rows_of(
            inv_v@,
        )[b]).len() == 0 || rows_of(inv_v@)[b].len() == tv@.dims[b] by {
            assert(ev[b].len() == 0 || ev[b].len() == v0.dims[b]);
        }
    }
    proof {
        assert(rows_of(inv_u@).len() == eu.len());
        assert(rows_of(inv_v@).len() == ev.len());
        let spec_theta = joined(
            matricized(au, bu as int),
            matricized(av, bv as int),
            old(lam)@,
            rows_at(au, bu as int),
            rows_at(av, bv as int),
            au.dims[bu as int],
            (rows_at(au, bu as int) / au.phys) as int,
            (rows_at(av, bv as int) / av.phys) as int,
            t,
        );
        assert(theta@ == spec_theta);
    }
    absorb(tu, &inv_u, bu);
    absorb(tv, &inv_v, bv);
    tu.renormalize();
    tv.renormalize();
}

} // verus!
