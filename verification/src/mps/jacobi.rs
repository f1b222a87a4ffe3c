//! One-sided Jacobi rotations, and the completion of an orthonormal basis.
//!
//! The sweep order over column pairs is fixed, so a factorization depends on
//! nothing but its input.
use vstd::prelude::*;

use crate::matrix::{entry, lemma_inside, lemma_is_table, lemma_set, lemma_split, table};
use crate::scalar::{absolute, copy_scalars, distance, nil, one, unit, zero, Scalar};

verus! {

/// Product of columns `p` and `q` over the first `k` rows.
pub open spec fn col_dot<R: Scalar>(w: Seq<R>, cols: int, p: int, q: int, k: int) -> R
    decreases k,
{
    if k <= 0 {
        nil()
    } else {
        col_dot(w, cols, p, q, k - 1).plus(entry(w, cols, k - 1, p).times(entry(w, cols, k - 1, q)))
    }
}

/// The squares of columns `p` and `q`, and their product.
pub fn dot_cols<R: Scalar>(w: &Vec<R>, m: usize, n: usize, p: usize, q: usize) -> (r: (R, R, R))
    requires
        w@.len() == m * n,
        p < n,
        q < n,
    ensures
        r.0 == col_dot(w@, n as int, p as int, p as int, m as int),
        r.1 == col_dot(w@, n as int, q as int, q as int, m as int),
        r.2 == col_dot(w@, n as int, p as int, q as int, m as int),
{
    let total: usize = w.len();
    let mut alpha: R = zero();
    let mut beta: R = zero();
    let mut gamma: R = zero();
    let mut i: usize = 0;
    while i < m
        invariant
            w@.len() == m * n,
            total == m * n,
            p < n,
            q < n,
            i <= m,
            alpha == col_dot(w@, n as int, p as int, p as int, i as int),
            beta == col_dot(w@, n as int, q as int, q as int, i as int),
            gamma == col_dot(w@, n as int, p as int, q as int, i as int),
        decreases m - i,
    {
        proof {
            lemma_inside(m as int, n as int, i as int, p as int);
            lemma_inside(m as int, n as int, i as int, q as int);
        }
        let a: R = w[i * n + p];
        let b: R = w[i * n + q];
        alpha = alpha.sum(a.product(a));
        beta = beta.sum(b.product(b));
        gamma = gamma.sum(a.product(b));
        i = i + 1;
    }
    (alpha, beta, gamma)
}

/// A pair of columns counts as orthogonal: the product is at most `eps` of the
/// geometric mean of the squared norms.
pub open spec fn near<R: Scalar>(eps: R, alpha: R, beta: R, gamma: R) -> bool {
    eps.times(alpha.times(beta).root()).reaches(distance(gamma))
}

/// Columns `p` and `q` of a matrix count as orthogonal.
pub open spec fn cols_near<R: Scalar>(eps: R, w: Seq<R>, m: int, n: int, p: int, q: int) -> bool {
    near(eps, col_dot(w, n, p, p, m), col_dot(w, n, q, q, m), col_dot(w, n, p, q, m))
}

/// Cosine and sine of the rotation that makes a column pair orthogonal.
pub open spec fn turn_of<R: Scalar>(alpha: R, beta: R, gamma: R) -> (R, R) {
    let zeta = beta.minus(alpha).over(R::of_milli(2000).times(gamma));
    let sign = if zeta.reaches(nil()) {
        unit::<R>()
    } else {
        R::of_milli(-1000)
    };
    let t = sign.over(distance(zeta).plus(unit::<R>().plus(zeta.times(zeta)).root()));
    let c = unit::<R>().over(unit::<R>().plus(t.times(t)).root());
    (c, c.times(t))
}

fn turn<R: Scalar>(alpha: R, beta: R, gamma: R) -> (r: (R, R))
    ensures
        r == turn_of(alpha, beta, gamma),
{
    let zeta: R = beta.difference(alpha).quotient(R::from_milli(2000).product(gamma));
    let sign: R = if zeta.at_least(zero()) {
        one()
    } else {
        R::from_milli(-1000)
    };
    let t: R = sign.quotient(absolute(zeta).sum(one::<R>().sum(zeta.product(zeta)).square_root()));
    let c: R = one::<R>().quotient(one::<R>().sum(t.product(t)).square_root());
    (c, c.product(t))
}

/// Entry `(i, j)` after rotating columns `p` and `q`.
pub open spec fn turned_entry<R: Scalar>(
    w: Seq<R>,
    n: int,
    p: int,
    q: int,
    c: R,
    s: R,
    i: int,
    j: int,
) -> R {
    let wp = entry(w, n, i, p);
    let wq = entry(w, n, i, q);
    if j == p {
        c.times(wp).minus(s.times(wq))
    } else if j == q {
        s.times(wp).plus(c.times(wq))
    } else {
        entry(w, n, i, j)
    }
}

/// A matrix after rotating columns `p` and `q`.
pub open spec fn turned_cols<R: Scalar>(
    w: Seq<R>,
    m: nat,
    n: nat,
    p: int,
    q: int,
    c: R,
    s: R,
) -> Seq<R> {
    table(m, n, |i: int, j: int| turned_entry(w, n as int, p, q, c, s, i, j))
}

/// Rotate columns `p` and `q`.
pub fn turn_cols<R: Scalar>(w: &mut Vec<R>, m: usize, n: usize, p: usize, q: usize, c: R, s: R)
    requires
        old(w)@.len() == m * n,
        p < q < n,
    ensures
        final(w)@.len() == m * n,
        final(w)@ == turned_cols(old(w)@, m as nat, n as nat, p as int, q as int, c, s),
{
    let ghost w0 = w@;
    let ghost f = |i: int, j: int| turned_entry(w0, n as int, p as int, q as int, c, s, i, j);
    let total: usize = w.len();
    let mut i: usize = 0;
    while i < m
        invariant
            w0.len() == m * n,
            w@.len() == m * n,
            total == m * n,
            p < q < n,
            i <= m,
            f == (|i: int, j: int| turned_entry(w0, n as int, p as int, q as int, c, s, i, j)),
            forall|a: int, b: int|
                0 <= a < m && 0 <= b < n ==> #[trigger] entry(w@, n as int, a, b) == if a < i {
                    f(a, b)
                } else {
                    entry(w0, n as int, a, b)
                },
        decreases m - i,
    {
        proof {
            lemma_inside(m as int, n as int, i as int, p as int);
            lemma_inside(m as int, n as int, i as int, q as int);
            assert(entry(w@, n as int, i as int, p as int) == entry(
                w0,
                n as int,
                i as int,
                p as int,
            ));
            assert(entry(w@, n as int, i as int, q as int) == entry(
                w0,
                n as int,
                i as int,
                q as int,
            ));
        }
        let wp: R = w[i * n + p];
        let wq: R = w[i * n + q];
        let ghost before = w@;
        let np: R = c.product(wp).difference(s.product(wq));
        let nq: R = s.product(wp).sum(c.product(wq));
        w.set(i * n + p, np);
        let ghost mid = w@;
        w.set(i * n + q, nq);
        proof {
            lemma_set(before, m as int, n as int, i as int, p as int, np);
            lemma_set(mid, m as int, n as int, i as int, q as int, nq);
            assert forall|a: int, b: int| 0 <= a < m && 0 <= b < n implies #[trigger] entry(
                w@,
                n as int,
                a,
                b,
            ) == (if a < i + 1 {
                f(a, b)
            } else {
                entry(w0, n as int, a, b)
            }) by {
                assert(entry(mid, n as int, a, b) == if a == i && b == p {
                    np
                } else {
                    entry(before, n as int, a, b)
                });
            }
        }
        i = i + 1;
    }
    proof {
        lemma_is_table(w@, m as nat, n as nat, f);
    }
}

/// The rotated matrix, the rotations gathered so far, and whether any was made.
#[verifier::ext_equal]
pub struct Turning<R> {
    /// The rotated matrix.
    pub w: Seq<R>,
    /// The gathered rotations.
    pub v: Seq<R>,
    /// Whether a rotation was made.
    pub turned: bool,
}

/// One column pair: rotated unless it counts as orthogonal.
pub open spec fn pair_step<R: Scalar>(
    eps: R,
    t: Turning<R>,
    m: nat,
    n: nat,
    p: int,
    q: int,
) -> Turning<R> {
    let alpha = col_dot(t.w, n as int, p, p, m as int);
    let beta = col_dot(t.w, n as int, q, q, m as int);
    let gamma = col_dot(t.w, n as int, p, q, m as int);
    if near(eps, alpha, beta, gamma) {
        t
    } else {
        let (c, s) = turn_of(alpha, beta, gamma);
        Turning {
            w: turned_cols(t.w, m, n, p, q, c, s),
            v: turned_cols(t.v, n, n, p, q, c, s),
            turned: true,
        }
    }
}

/// The state after all pairs before `(p, q)`, in row order.
pub open spec fn pairs_done<R: Scalar>(
    eps: R,
    t: Turning<R>,
    m: nat,
    n: nat,
    p: int,
    q: int,
) -> Turning<R>
    decreases p, q,
{
    if p >= 0 && q > p + 1 {
        pair_step(eps, pairs_done(eps, t, m, n, p, q - 1), m, n, p, q - 1)
    } else if p > 0 {
        pairs_done(eps, t, m, n, p - 1, n as int)
    } else {
        t
    }
}

/// The state after a sweep over all pairs.
pub open spec fn sweep_done<R: Scalar>(eps: R, w: Seq<R>, v: Seq<R>, m: nat, n: nat) -> Turning<R> {
    pairs_done(eps, Turning { w, v, turned: false }, m, n, n as int, n as int + 1)
}

/// Sweep until a sweep makes no rotation; `None` when `left` sweeps do not
/// suffice.
pub open spec fn sweeps<R: Scalar>(
    eps: R,
    w: Seq<R>,
    v: Seq<R>,
    m: nat,
    n: nat,
    left: nat,
) -> Option<(Seq<R>, Seq<R>)>
    decreases left,
{
    if left == 0 {
        None
    } else {
        let t = sweep_done(eps, w, v, m, n);
        if t.turned {
            sweeps(eps, t.w, t.v, m, n, (left - 1) as nat)
        } else {
            Some((t.w, t.v))
        }
    }
}

/// The identity matrix.
pub open spec fn identity<R: Scalar>(n: nat) -> Seq<R> {
    table(
        n,
        n,
        |i: int, j: int|
            if i == j {
                unit::<R>()
            } else {
                nil::<R>()
            },
    )
}

/// The identity matrix.
pub fn identity_matrix<R: Scalar>(n: usize) -> (v: Vec<R>)
    requires
        n * n <= usize::MAX,
    ensures
        v@ == identity::<R>(n as nat),
        v@.len() == n * n,
{
    let total: usize = n * n;
    let mut v: Vec<R> = Vec::with_capacity(total);
    let mut x: usize = 0;
    while x < total
        invariant
            total == n * n,
            x <= total,
            v@ == identity::<R>(n as nat).take(x as int),
        decreases total - x,
    {
        proof {
            lemma_split(n as int, n as int, x as int);
        }
        let value: R = if x / n == x % n {
            one()
        } else {
            zero()
        };
        v.push(value);
        x = x + 1;
        assert(v@ =~= identity::<R>(n as nat).take(x as int));
    }
    assert(v@ =~= identity::<R>(n as nat));
    v
}

proof fn lemma_pairs_len<R: Scalar>(eps: R, t: Turning<R>, m: nat, n: nat, p: int, q: int)
    requires
        t.w.len() == m * n,
        t.v.len() == n * n,
    ensures
        pairs_done(eps, t, m, n, p, q).w.len() == m * n,
        pairs_done(eps, t, m, n, p, q).v.len() == n * n,
    decreases p, q,
{
    if p >= 0 && q > p + 1 {
        lemma_pairs_len(eps, t, m, n, p, q - 1);
    } else if p > 0 {
        lemma_pairs_len(eps, t, m, n, p - 1, n as int);
    }
}

/// One sweep over all column pairs. Tells whether a rotation was made.
fn sweep_once<R: Scalar>(eps: R, w: &mut Vec<R>, v: &mut Vec<R>, m: usize, n: usize) -> (turned: bool)
    requires
        old(w)@.len() == m * n,
        old(v)@.len() == n * n,
        n < usize::MAX,
    ensures
        (Turning { w: final(w)@, v: final(v)@, turned }) == sweep_done(
            eps,
            old(w)@,
            old(v)@,
            m as nat,
            n as nat,
        ),
{
    let ghost start = Turning { w: w@, v: v@, turned: false };
    let mut turned: bool = false;
    let mut p: usize = 0;
    while p < n
        invariant
            n < usize::MAX,
            p <= n,
            start.w.len() == m * n,
            start.v.len() == n * n,
            (Turning { w: w@, v: v@, turned }) == pairs_done(
                eps,
                start,
                m as nat,
                n as nat,
                p as int,
                p as int + 1,
            ),
        decreases n - p,
    {
        let mut q: usize = p + 1;
        while q < n
            invariant
                p < n,
                p < q <= n,
                start.w.len() == m * n,
                start.v.len() == n * n,
                (Turning { w: w@, v: v@, turned }) == pairs_done(
                    eps,
                    start,
                    m as nat,
                    n as nat,
                    p as int,
                    q as int,
                ),
            decreases n - q,
        {
            proof {
                lemma_pairs_len(eps, start, m as nat, n as nat, p as int, q as int);
            }
            let (alpha, beta, gamma) = dot_cols(w, m, n, p, q);
            let limit: R = eps.product(alpha.product(beta).square_root());
            if !limit.at_least(absolute(gamma)) {
                let (c, s) = turn(alpha, beta, gamma);
                turn_cols(w, m, n, p, q, c, s);
                turn_cols(v, n, n, p, q, c, s);
                turned = true;
            }
            q = q + 1;
        }
        p = p + 1;
    }
    turned
}

/// Rotate the columns of a matrix until they are pairwise orthogonal. Gives the
/// rotated matrix and the gathered rotations, or `None` when the sweeps run out.
pub fn jacobi_columns<R: Scalar>(eps: R, a: &Vec<R>, m: usize, n: usize, max_sweeps: usize) -> (r:
    Option<(Vec<R>, Vec<R>)>)
    requires
        a@.len() == m * n,
        n < usize::MAX,
        n * n <= usize::MAX,
    ensures
        r is Some <==> sweeps(
            eps,
            a@,
            identity::<R>(n as nat),
            m as nat,
            n as nat,
            max_sweeps as nat,
        ) is Some,
        r matches Some(x) ==> {
            &&& x.0@.len() == m * n
            &&& x.1@.len() == n * n
            &&& sweeps(
                eps,
                a@,
                identity::<R>(n as nat),
                m as nat,
                n as nat,
                max_sweeps as nat,
            ) == Some((x.0@, x.1@))
        },
{
    let mut w: Vec<R> = copy_scalars(a);
    let mut v: Vec<R> = identity_matrix(n);
    let ghost goal = sweeps(
        eps,
        a@,
        identity::<R>(n as nat),
        m as nat,
        n as nat,
        max_sweeps as nat,
    );
    let mut left: usize = max_sweeps;
    while left > 0
        invariant
            n < usize::MAX,
            w@.len() == m * n,
            v@.len() == n * n,
            goal == sweeps(
                eps,
                a@,
                identity::<R>(n as nat),
                m as nat,
                n as nat,
                max_sweeps as nat,
            ),
            goal == sweeps(eps, w@, v@, m as nat, n as nat, left as nat),
        decreases left,
    {
        proof {
            lemma_pairs_len(
                eps,
                Turning { w: w@, v: v@, turned: false },
                m as nat,
                n as nat,
                n as int,
                n as int + 1,
            );
        }
        if !sweep_once(eps, &mut w, &mut v, m, n) {
            return Some((w, v));
        }
        left = left - 1;
    }
    None
}

proof fn lemma_still_pairs<R: Scalar>(
    eps: R,
    t: Turning<R>,
    m: nat,
    n: nat,
    p: int,
    q: int,
    a: int,
    b: int,
)
    requires
        !pairs_done(eps, t, m, n, p, q).turned,
        !t.turned,
        0 <= p,
        q <= n,
        0 <= a < b < n,
        a < p || (a == p && b < q),
    ensures
        pairs_done(eps, t, m, n, p, q) == t,
        cols_near(eps, t.w, m as int, n as int, a, b),
    decreases p, q,
{
    if q > p + 1 {
        let before = pairs_done(eps, t, m, n, p, q - 1);
        if a < p || b < q - 1 {
            lemma_still_pairs(eps, t, m, n, p, q - 1, a, b);
        } else {
            lemma_still(eps, t, m, n, p, q - 1);
        }
        assert(before == t);
    } else if p > 0 {
        lemma_still_pairs(eps, t, m, n, p - 1, n as int, a, b);
    }
}

proof fn lemma_still<R: Scalar>(eps: R, t: Turning<R>, m: nat, n: nat, p: int, q: int)
    requires
        !pairs_done(eps, t, m, n, p, q).turned,
        !t.turned,
    ensures
        pairs_done(eps, t, m, n, p, q) == t,
    decreases p, q,
{
    if p >= 0 && q > p + 1 {
        lemma_still(eps, t, m, n, p, q - 1);
    } else if p > 0 {
        lemma_still(eps, t, m, n, p - 1, n as int);
    }
}

/// When the sweeps end, every pair of columns counts as orthogonal.
pub proof fn rotated_columns_are_orthogonal<R: Scalar>(
    eps: R,
    w: Seq<R>,
    v: Seq<R>,
    m: nat,
    n: nat,
    left: nat,
    a: int,
    b: int,
)
    requires
        sweeps(eps, w, v, m, n, left) is Some,
        0 <= a < b < n,
    ensures
        cols_near(
            eps,
            sweeps(eps, w, v, m, n, left)->Some_0.0,
            m as int,
            n as int,
            a,
            b,
        ),
    decreases left,
{
    let start = Turning { w, v, turned: false };
    let t = sweep_done(eps, w, v, m, n);
    if t.turned {
        rotated_columns_are_orthogonal(eps, t.w, t.v, m, n, (left - 1) as nat, a, b);
    } else {
        assert(t == pairs_done(eps, start, m, n, n as int - 1, n as int));
        lemma_still_pairs(eps, start, m, n, n as int - 1, n as int, a, b);
    }
}

} // verus!
