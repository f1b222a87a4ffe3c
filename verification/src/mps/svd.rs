//! Singular value decomposition of small matrices, and its truncation.
//!
//! Three rules keep a factorization deterministic: the sweep order is fixed,
//! singular values sort descending with ties in their first order, and the
//! largest entry of each left vector is positive.
use vstd::prelude::*;

use crate::matrix::{
    entry, flipped_over, lemma_inside, lemma_is_table, lemma_set, lemma_split, lemma_table, table,
    transpose,
};
use crate::mps::basis::{
    cleared, col_with, complete, completed, dot_col, has_norm, lemma_completed_keeps, norms,
    remove_col, set_col, split_norms, unit_cols, with_col, without_col,
};
use crate::mps::jacobi::{identity, jacobi_columns, sweeps};
use crate::sb_core::zero_is_neutral;
use crate::scalar::{
    absolute, distance, nil, opposite, pair_sum, sum_pairs, zero, zeros, Scalar,
};

verus! {

/// Sweep cap. Reaching it means that the input is pathological, and the caller
/// falls back.
pub const JACOBI_MAX_SWEEPS: usize = 60;

/// The first place from `t` on whose value is below that of `x`.
pub open spec fn spot<R: Scalar>(order: Seq<int>, s: Seq<R>, x: int, t: int) -> int
    decreases order.len() - t,
{
    if t >= order.len() {
        order.len() as int
    } else if s[order[t]].under(s[x]) {
        t
    } else {
        spot(order, s, x, t + 1)
    }
}

/// The first `k` indices by descending value, equals in their first order.
pub open spec fn ranked<R: Scalar>(s: Seq<R>, k: int) -> Seq<int>
    decreases k,
{
    if k <= 0 {
        Seq::empty()
    } else {
        let order = ranked(s, k - 1);
        order.insert(spot(order, s, k - 1, 0), k - 1)
    }
}

proof fn lemma_spot<R: Scalar>(order: Seq<int>, s: Seq<R>, x: int, t: int)
    requires
        0 <= t <= order.len(),
    ensures
        t <= spot(order, s, x, t) <= order.len(),
        forall|i: int|
            t <= i < spot(order, s, x, t) ==> !(#[trigger] s[order[i]]).under(s[x]),
        spot(order, s, x, t) < order.len() ==> s[order[spot(order, s, x, t)]].under(s[x]),
    decreases order.len() - t,
{
    if t < order.len() && !s[order[t]].under(s[x]) {
        lemma_spot(order, s, x, t + 1);
    }
}

/// A ranking lists every index once.
pub proof fn ranking_lists_every_index_once<R: Scalar>(s: Seq<R>, k: int)
    requires
        0 <= k,
    ensures
        ranked(s, k).len() == k,
        forall|i: int| 0 <= i < k ==> 0 <= #[trigger] ranked(s, k)[i] < k,
        forall|i: int, j: int|
            0 <= i < j < k ==> #[trigger] ranked(s, k)[i] != #[trigger] ranked(s, k)[j],
    decreases k,
{
    if k > 0 {
        ranking_lists_every_index_once(s, k - 1);
        lemma_spot(ranked(s, k - 1), s, k - 1, 0);
        let order = ranked(s, k - 1);
        let t = spot(order, s, k - 1, 0);
        assert forall|i: int| 0 <= i < k implies #[trigger] ranked(s, k)[i] == (if i < t {
            order[i]
        } else if i == t {
            k - 1
        } else {
            order[i - 1]
        }) by {}
    }
}

/// A ranking descends, and equals keep their first order, where the comparison
/// is a strict weak order.
pub proof fn ranking_descends<R: Scalar>(s: Seq<R>, k: int, i: int, j: int)
    requires
        0 <= i < j < k <= s.len(),
        forall|a: R| !(#[trigger] a.under(a)),
        forall|a: R, b: R, c: R|
            #![trigger a.under(b), b.under(c)]
            a.under(b) && b.under(c) ==> a.under(c),
        forall|a: R, b: R, c: R|
            #![trigger a.under(b), a.under(c)]
            a.under(b) ==> a.under(c) || c.under(b),
    ensures
        !s[ranked(s, k)[i]].under(s[ranked(s, k)[j]]),
        !s[ranked(s, k)[j]].under(s[ranked(s, k)[i]]) ==> ranked(s, k)[i] < ranked(s, k)[j],
    decreases k,
{
    let order = ranked(s, k - 1);
    ranking_lists_every_index_once(s, k - 1);
    lemma_spot(order, s, k - 1, 0);
    let t = spot(order, s, k - 1, 0);
    let x = s[k - 1];
    if i < t && j < t {
        ranking_descends(s, k - 1, i, j);
    } else if i < t && j == t {
        assert(!s[order[i]].under(x));
        assert(ranked(s, k)[i] == order[i]);
    } else if i < t && j > t {
        ranking_descends(s, k - 1, i, j - 1);
    } else if i == t {
        // Everything behind the first place below `x` is below `x`.
        let y = s[order[j - 1]];
        assert(s[order[t]].under(x));
        if j - 1 > t {
            ranking_descends(s, k - 1, t, j - 1);
            assert(!s[order[t]].under(y));
            assert(s[order[t]].under(y) || y.under(x));
        }
        assert(y.under(x));
        if x.under(y) {
            assert(y.under(y));
        }
    } else {
        ranking_descends(s, k - 1, i - 1, j - 1);
    }
}

/// Rank indices by descending value.
pub fn rank_desc<R: Scalar>(s: &Vec<R>) -> (order: Vec<usize>)
    ensures
        order@.len() == s@.len(),
        forall|i: int|
            0 <= i < s@.len() ==> #[trigger] order@[i] == ranked(s@, s@.len() as int)[i],
        forall|i: int| 0 <= i < s@.len() ==> #[trigger] order@[i] < s@.len(),
{
    let mut order: Vec<usize> = Vec::with_capacity(s.len());
    let mut k: usize = 0;
    while k < s.len()
        invariant
            k <= s@.len(),
            order@.len() == k,
            ranked(s@, k as int).len() == k,
            forall|i: int| 0 <= i < k ==> #[trigger] order@[i] == ranked(s@, k as int)[i],
            forall|i: int| 0 <= i < k ==> #[trigger] order@[i] < k,
        decreases s@.len() - k,
    {
        let ghost before = ranked(s@, k as int);
        let mut t: usize = 0;
        while t < k && !s[order[t]].less(s[k])
            invariant
                k < s@.len(),
                order@.len() == k,
                before.len() == k,
                forall|i: int| 0 <= i < k ==> #[trigger] order@[i] == before[i],
                forall|i: int| 0 <= i < k ==> #[trigger] order@[i] < k,
                t <= k,
                spot(before, s@, k as int, 0) == spot(before, s@, k as int, t as int),
            decreases k - t,
        {
            assert(order@[t as int] == before[t as int]);
            t = t + 1;
        }
        proof {
            if t < k {
                assert(order@[t as int] == before[t as int]);
            }
            assert(spot(before, s@, k as int, t as int) == t);
        }
        let ghost held = order@;
        order.insert(t, k);
        proof {
            assert forall|i: int| 0 <= i < k + 1 implies #[trigger] order@[i] == ranked(
                s@,
                k + 1,
            )[i] && order@[i] < k + 1 by {
                if i < t {
                    assert(order@[i] == held[i]);
                } else if i > t {
                    assert(order@[i] == held[i - 1]);
                }
            }
        }
        k = k + 1;
    }
    order
}

/// Columns of `u` taken in the given order.
pub open spec fn arranged<R>(u: Seq<R>, rows: nat, k: nat, order: Seq<int>) -> Seq<R> {
    table(rows, k, |i: int, b: int| entry(u, k as int, i, order[b]))
}

fn arrange<R: Scalar>(u: &Vec<R>, rows: usize, k: usize, order: &Vec<usize>, Ghost(ids): Ghost<
    Seq<int>,
>) -> (r: Vec<R>)
    requires
        u@.len() == rows * k,
        order@.len() == k,
        forall|i: int| 0 <= i < k ==> #[trigger] order@[i] < k,
        forall|i: int| 0 <= i < k ==> #[trigger] order@[i] == ids[i],
    ensures
        r@ == arranged(u@, rows as nat, k as nat, ids),
        r@.len() == rows * k,
{
    let total: usize = u.len();
    let ghost goal = arranged(u@, rows as nat, k as nat, ids);
    let mut r: Vec<R> = Vec::with_capacity(total);
    let mut x: usize = 0;
    while x < total
        invariant
            total == u@.len(),
            total == rows * k,
            order@.len() == k,
            forall|i: int| 0 <= i < k ==> #[trigger] order@[i] < k,
            forall|i: int| 0 <= i < k ==> #[trigger] order@[i] == ids[i],
            goal == arranged(u@, rows as nat, k as nat, ids),
            x <= total,
            r@ == goal.take(x as int),
        decreases total - x,
    {
        proof {
            lemma_split(rows as int, k as int, x as int);
        }
        let i: usize = x / k;
        let b: usize = x % k;
        let src: usize = order[b];
        proof {
            lemma_inside(rows as int, k as int, i as int, src as int);
            assert(order@[b as int] == ids[b as int]);
        }
        r.push(u[i * k + src]);
        x = x + 1;
        assert(r@ =~= goal.take(x as int));
    }
    assert(r@ =~= goal);
    r
}

/// The largest magnitude in the first `i` rows of column `b` and the entry that
/// has it; the first of equals.
pub open spec fn peak<R: Scalar>(u: Seq<R>, k: int, b: int, i: int) -> (R, R)
    decreases i,
{
    if i <= 0 {
        (nil(), nil())
    } else {
        let best = peak(u, k, b, i - 1);
        let x = entry(u, k, i - 1, b);
        if best.0.under(distance(x)) {
            (distance(x), x)
        } else {
            best
        }
    }
}

/// Column `b` changes its sign: its largest entry is negative.
pub open spec fn changes_sign<R: Scalar>(u: Seq<R>, m: nat, k: nat, b: int) -> bool {
    peak(u, k as int, b, m as int).1.under(nil())
}

/// `x` with the sign of the flagged columns changed.
pub open spec fn with_signs<R: Scalar>(x: Seq<R>, rows: nat, k: nat, flags: Seq<bool>) -> Seq<R> {
    table(
        rows,
        k,
        |i: int, b: int|
            if flags[b] {
                opposite(entry(x, k as int, i, b))
            } else {
                entry(x, k as int, i, b)
            },
    )
}

/// The columns of `u` that change their sign.
pub open spec fn sign_flags<R: Scalar>(u: Seq<R>, m: nat, k: nat) -> Seq<bool> {
    Seq::new(k, |b: int| changes_sign(u, m, k, b))
}

fn find_flags<R: Scalar>(u: &Vec<R>, m: usize, k: usize) -> (flags: Vec<bool>)
    requires
        u@.len() == m * k,
    ensures
        flags@ == sign_flags(u@, m as nat, k as nat),
{
    let total: usize = u.len();
    let mut flags: Vec<bool> = Vec::with_capacity(k);
    let mut b: usize = 0;
    while b < k
        invariant
            u@.len() == m * k,
            total == m * k,
            b <= k,
            flags@.len() == b,
            forall|c: int| 0 <= c < b ==> #[trigger] flags@[c] == changes_sign(
                u@,
                m as nat,
                k as nat,
                c,
            ),
        decreases k - b,
    {
        let mut best: R = zero();
        let mut value: R = zero();
        let mut i: usize = 0;
        while i < m
            invariant
                u@.len() == m * k,
                total == m * k,
                b < k,
                i <= m,
                (best, value) == peak(u@, k as int, b as int, i as int),
            decreases m - i,
        {
            proof {
                lemma_inside(m as int, k as int, i as int, b as int);
            }
            let x: R = u[i * k + b];
            let size: R = absolute(x);
            if best.less(size) {
                best = size;
                value = x;
            }
            i = i + 1;
        }
        flags.push(value.less(zero()));
        b = b + 1;
    }
    assert(flags@ =~= sign_flags(u@, m as nat, k as nat));
    flags
}

fn apply_flags<R: Scalar>(a: &Vec<R>, rows: usize, k: usize, flags: &Vec<bool>) -> (r: Vec<R>)
    requires
        a@.len() == rows * k,
        flags@.len() == k,
    ensures
        r@ == with_signs(a@, rows as nat, k as nat, flags@),
        r@.len() == rows * k,
{
    let total: usize = a.len();
    let minus: R = R::from_milli(-1000);
    let ghost goal = with_signs(a@, rows as nat, k as nat, flags@);
    let mut r: Vec<R> = Vec::with_capacity(total);
    let mut x: usize = 0;
    while x < total
        invariant
            total == a@.len(),
            total == rows * k,
            flags@.len() == k,
            minus == R::of_milli(-1000),
            goal == with_signs(a@, rows as nat, k as nat, flags@),
            x <= total,
            r@ == goal.take(x as int),
        decreases total - x,
    {
        proof {
            lemma_split(rows as int, k as int, x as int);
        }
        let value: R = if flags[x % k] {
            minus.product(a[x])
        } else {
            a[x]
        };
        r.push(value);
        proof {
            assert(goal[x as int] == value);
        }
        x = x + 1;
        assert(r@ =~= goal.take(x as int));
    }
    assert(r@ =~= goal);
    r
}

/// Left vectors, singular values and right vectors before they are ordered.
pub open spec fn raw_svd<R: Scalar>(eps: R, a: Seq<R>, m: nat, n: nat, max_sweeps: nat) -> Option<
    (Seq<R>, Seq<R>, Seq<R>),
> {
    if m >= n {
        match sweeps(eps, a, identity::<R>(n), m, n, max_sweeps) {
            None => None,
            Some(x) => Some(
                (
                    completed(unit_cols(x.0, m, n), has_norm(x.0, m, n), m, n, n as int).0,
                    norms(x.0, m, n),
                    x.1,
                ),
            ),
        }
    } else {
        match sweeps(eps, flipped_over(a, m, n), identity::<R>(m), n, m, max_sweeps) {
            None => None,
            Some(x) => Some(
                (
                    x.1,
                    norms(x.0, n, m),
                    completed(unit_cols(x.0, n, m), has_norm(x.0, n, m), n, m, m as int).0,
                ),
            ),
        }
    }
}

/// The smaller of two.
pub open spec fn lesser(a: nat, b: nat) -> nat {
    if a < b {
        a
    } else {
        b
    }
}

/// The decomposition of a matrix: left vectors as columns, singular values,
/// right vectors as rows. `None` when the sweeps do not suffice.
pub open spec fn svd_of<R: Scalar>(eps: R, a: Seq<R>, m: nat, n: nat, max_sweeps: nat) -> Option<
    (Seq<R>, Seq<R>, Seq<R>),
> {
    let k = lesser(m, n);
    if k == 0 {
        Some((Seq::empty(), Seq::empty(), Seq::empty()))
    } else {
        match raw_svd(eps, a, m, n, max_sweeps) {
            None => None,
            Some(x) => {
                let order = ranked(x.1, k as int);
                let u = arranged(x.0, m, k, order);
                let v = arranged(x.2, n, k, order);
                let flags = sign_flags(u, m, k);
                Some(
                    (
                        with_signs(u, m, k, flags),
                        Seq::new(k, |b: int| x.1[order[b]]),
                        flipped_over(with_signs(v, n, k, flags), n, k),
                    ),
                )
            },
        }
    }
}

/// A thin singular value decomposition.
pub struct Svd<R> {
    /// Left singular vectors, as the columns of an `m` by `k` matrix.
    pub u: Vec<R>,
    /// Singular values, descending.
    pub s: Vec<R>,
    /// Right singular vectors, as the rows of a `k` by `n` matrix.
    pub vt: Vec<R>,
    /// The smaller of `m` and `n`.
    pub k: usize,
}

proof fn lemma_products(m: int, n: int, k: int)
    requires
        0 <= k <= m,
        k <= n,
    ensures
        0 <= k * k <= m * n,
        0 <= m * k <= m * n,
        0 <= n * k <= m * n,
        k * n <= m * n,
{
    assert(k * k <= m * n && 0 <= k * k) by (nonlinear_arith)
        requires
            0 <= k <= m,
            k <= n,
    ;
    assert(0 <= m * k <= m * n && 0 <= n * k <= m * n && k * n <= m * n) by (nonlinear_arith)
        requires
            0 <= k <= m,
            k <= n,
    ;
}

/// Thin decomposition of an `m` by `n` matrix, or `None` when the sweep cap is
/// reached.
pub fn jacobi_svd<R: Scalar>(eps: R, a: &Vec<R>, m: usize, n: usize, max_sweeps: usize) -> (r: Option<
    Svd<R>,
>)
    requires
        a@.len() == m * n,
        m < usize::MAX,
        n < usize::MAX,
    ensures
        r is Some <==> svd_of(eps, a@, m as nat, n as nat, max_sweeps as nat) is Some,
        r matches Some(d) ==> {
            &&& d.k == lesser(m as nat, n as nat)
            &&& d.u@.len() == m * d.k
            &&& d.s@.len() == d.k
            &&& d.vt@.len() == d.k * n
            &&& svd_of(eps, a@, m as nat, n as nat, max_sweeps as nat) == Some(
                (d.u@, d.s@, d.vt@),
            )
        },
{
    let total: usize = a.len();
    let k: usize = if m < n {
        m
    } else {
        n
    };
    proof {
        lemma_products(m as int, n as int, k as int);
    }
    if k == 0 {
        assert(m * 0 == 0 && 0 * n == 0) by (nonlinear_arith);
        return Some(Svd { u: Vec::new(), s: Vec::new(), vt: Vec::new(), k: 0 });
    }
    let (u_raw, s_raw, v_raw) = if m >= n {
        match jacobi_columns(eps, a, m, n, max_sweeps) {
            None => {
                return None;
            },
            Some((w, rot)) => {
                let (u, s) = split_norms(&w, m, n);
                (u, s, rot)
            },
        }
    } else {
        let at = transpose(a, m, n);
        match jacobi_columns(eps, &at, n, m, max_sweeps) {
            None => {
                return None;
            },
            Some((w, rot)) => {
                let (v, s) = split_norms(&w, n, m);
                (rot, s, v)
            },
        }
    };
    let ghost ids = ranked(s_raw@, k as int);
    let order = rank_desc(&s_raw);
    let u0 = arrange(&u_raw, m, k, &order, Ghost(ids));
    let v0 = arrange(&v_raw, n, k, &order, Ghost(ids));
    let mut s: Vec<R> = Vec::with_capacity(k);
    let mut b: usize = 0;
    while b < k
        invariant
            order@.len() == k,
            s_raw@.len() == k,
            forall|i: int| 0 <= i < k ==> #[trigger] order@[i] < k,
            forall|i: int| 0 <= i < k ==> #[trigger] order@[i] == ids[i],
            b <= k,
            s@.len() == b,
            forall|c: int| 0 <= c < b ==> #[trigger] s@[c] == s_raw@[ids[c]],
        decreases k - b,
    {
        assert(order@[b as int] == ids[b as int]);
        s.push(s_raw[order[b]]);
        b = b + 1;
    }
    assert(s@ =~= Seq::new(k as nat, |c: int| s_raw@[ids[c]]));
    let flags = find_flags(&u0, m, k);
    let u = apply_flags(&u0, m, k, &flags);
    let v = apply_flags(&v0, n, k, &flags);
    let vt = transpose(&v, n, k);
    Some(Svd { u, s, vt, k })
}

/// The state of a Gram-Schmidt factorization: the columns found so far, their
/// products with the columns of the matrix, and how many are found.
#[verifier::ext_equal]
pub struct Qr<R> {
    /// Columns found so far, in the first slots.
    pub q: Seq<R>,
    /// Their products with the columns of the matrix.
    pub r: Seq<R>,
    /// Which slots hold a column.
    pub set: Seq<bool>,
    /// How many columns are found: the next free slot.
    pub found: nat,
}

/// Column `j` of a matrix.
pub open spec fn column<R>(a: Seq<R>, m: nat, n: nat, j: int) -> Seq<R> {
    Seq::new(m, |i: int| entry(a, n as int, i, j))
}

/// The products of `work` with the found columns among the first `c`, each
/// taken off before the next, entered in column `j` of `r`.
pub open spec fn products_in<R: Scalar>(
    t: Qr<R>,
    m: nat,
    n: nat,
    full: nat,
    work: Seq<R>,
    j: int,
    c: int,
) -> Seq<R> {
    table(
        full,
        n,
        |a: int, b: int|
            if b == j && a < c && t.set[a] {
                col_with(
                    t.q,
                    full as int,
                    a,
                    cleared(t.q, full as int, -1, t.set, work, a),
                    m as int,
                )
            } else {
                entry(t.r, n as int, a, b)
            },
    )
}

/// The state after taking in column `j`: what the found columns leave of it
/// fills the next free slot, unless nothing is left.
pub open spec fn qr_step<R: Scalar>(a: Seq<R>, m: nat, n: nat, full: nat, j: int, t: Qr<R>) -> Qr<R> {
    let start = column(a, m, n, j);
    let work = cleared(t.q, full as int, -1, t.set, start, full as int);
    let r = products_in(t, m, n, full, start, j, full as int);
    let norm = pair_sum(work, work, m as int).root();
    if t.found < full && nil::<R>().under(norm) {
        Qr {
            q: with_col(t.q, m, full, t.found as int, work, norm),
            r: r.update(t.found * n + j, norm),
            set: t.set.update(t.found as int, true),
            found: t.found + 1,
        }
    } else {
        Qr { q: t.q, r, set: t.set, found: t.found }
    }
}

/// The state after the first `j` columns.
pub open spec fn qr_at<R: Scalar>(a: Seq<R>, m: nat, n: nat, full: nat, j: int) -> Qr<R>
    decreases j,
{
    if j <= 0 {
        Qr {
            q: Seq::new(m * full, |x: int| nil::<R>()),
            r: Seq::new(full * n, |x: int| nil::<R>()),
            set: Seq::new(full, |x: int| false),
            found: 0,
        }
    } else {
        qr_step(a, m, n, full, j - 1, qr_at(a, m, n, full, j - 1))
    }
}

/// The first `keep` of `k` columns.
pub open spec fn first_cols<R>(u: Seq<R>, rows: nat, k: nat, keep: nat) -> Seq<R> {
    table(rows, keep, |i: int, b: int| entry(u, k as int, i, b))
}

/// The first `keep` of `k` columns.
pub fn take_cols<R: Scalar>(u: &Vec<R>, rows: usize, k: usize, keep: usize) -> (r: Vec<R>)
    requires
        u@.len() == rows * k,
        keep <= k,
    ensures
        r@ == first_cols(u@, rows as nat, k as nat, keep as nat),
        r@.len() == rows * keep,
{
    let all: usize = u.len();
    assert(rows * keep <= rows * k) by (nonlinear_arith)
        requires
            keep <= k,
            0 <= rows,
    ;
    let total: usize = rows * keep;
    let ghost goal = first_cols(u@, rows as nat, k as nat, keep as nat);
    let mut r: Vec<R> = Vec::with_capacity(total);
    let mut x: usize = 0;
    while x < total
        invariant
            all == u@.len(),
            all == rows * k,
            keep <= k,
            total == rows * keep,
            goal == first_cols(u@, rows as nat, k as nat, keep as nat),
            x <= total,
            r@ == goal.take(x as int),
        decreases total - x,
    {
        proof {
            lemma_split(rows as int, keep as int, x as int);
        }
        let i: usize = x / keep;
        let b: usize = x % keep;
        proof {
            lemma_inside(rows as int, k as int, i as int, b as int);
        }
        r.push(u[i * k + b]);
        x = x + 1;
        assert(r@ =~= goal.take(x as int));
    }
    assert(r@ =~= goal);
    r
}

/// A matrix as an isometry times a carry: `q` is `m` by `k`, `carry` is `k` by
/// `n`.
pub struct Factor<R> {
    /// The isometry.
    pub q: Vec<R>,
    /// The carry.
    pub carry: Vec<R>,
    /// The retained dimension.
    pub k: usize,
    /// Whether the decomposition did not converge and Gram-Schmidt took over.
    pub fell_back: bool,
}

/// The truncated Gram-Schmidt factorization: isometry, carry, dimension.
pub open spec fn qr_factor<R: Scalar>(a: Seq<R>, m: nat, n: nat, chi: nat) -> (
    Seq<R>,
    Seq<R>,
    nat,
) {
    let full = lesser(m, n);
    let keep = lesser(
        full,
        if chi < 1 {
            1
        } else {
            chi
        },
    );
    let t = qr_at(a, m, n, full, n as int);
    (
        first_cols(completed(t.q, t.set, m, full, full as int).0, m, full, keep),
        t.r.take((keep * n) as int),
        keep,
    )
}

/// Products of one column with the found columns, each taken off in turn.
fn qr_project<R: Scalar>(
    q: &Vec<R>,
    r: &mut Vec<R>,
    set: &Vec<bool>,
    m: usize,
    n: usize,
    full: usize,
    j: usize,
    work: &mut Vec<R>,
)
    requires
        q@.len() == m * full,
        old(r)@.len() == full * n,
        set@.len() == full,
        j < n,
        old(work)@.len() == m,
    ensures
        final(work)@ == cleared(q@, full as int, -1, set@, old(work)@, full as int),
        final(work)@.len() == m,
        final(r)@.len() == full * n,
        final(r)@ == products_in(
            (Qr { q: q@, r: old(r)@, set: set@, found: 0 }),
            m as nat,
            n as nat,
            full as nat,
            old(work)@,
            j as int,
            full as int,
        ),
{
    let total: usize = r.len();
    let ghost t = Qr { q: q@, r: r@, set: set@, found: 0 };
    let ghost start = work@;
    let mut c: usize = 0;
    while c < full
        invariant
            q@.len() == m * full,
            r@.len() == full * n,
            total == full * n,
            t.r.len() == full * n,
            set@.len() == full,
            j < n,
            work@.len() == m,
            t.q == q@,
            t.set == set@,
            c <= full,
            work@ == cleared(q@, full as int, -1, set@, start, c as int),
            forall|a: int, b: int|
                0 <= a < full && 0 <= b < n ==> #[trigger] entry(r@, n as int, a, b) == if b == j
                    && a < c && set@[a] {
                    col_with(
                        q@,
                        full as int,
                        a,
                        cleared(q@, full as int, -1, set@, start, a),
                        m as int,
                    )
                } else {
                    entry(t.r, n as int, a, b)
                },
        decreases full - c,
    {
        if set[c] {
            let dot: R = dot_col(q, m, full, c, work);
            proof {
                lemma_set(r@, full as int, n as int, c as int, j as int, dot);
                lemma_inside(full as int, n as int, c as int, j as int);
            }
            r.set(c * n + j, dot);
            let ghost mid = work@;
            remove_col(q, m, full, c, dot, work);
            assert(work@ =~= without_col(q@, full as int, c as int, mid));
        }
        c = c + 1;
    }
    proof {
        lemma_is_table(
            r@,
            full as nat,
            n as nat,
            |a: int, b: int|
                if b == j && a < full && t.set[a] {
                    col_with(
                        t.q,
                        full as int,
                        a,
                        cleared(t.q, full as int, -1, t.set, start, a),
                        m as int,
                    )
                } else {
                    entry(t.r, n as int, a, b)
                },
        );
    }
}

/// Column `j` of a matrix.
fn get_column<R: Scalar>(a: &Vec<R>, m: usize, n: usize, j: usize) -> (work: Vec<R>)
    requires
        a@.len() == m * n,
        j < n,
    ensures
        work@ == column(a@, m as nat, n as nat, j as int),
{
    let total: usize = a.len();
    let mut work: Vec<R> = Vec::with_capacity(m);
    let mut i: usize = 0;
    while i < m
        invariant
            a@.len() == m * n,
            total == m * n,
            j < n,
            i <= m,
            work@.len() == i,
            forall|k: int| 0 <= k < i ==> #[trigger] work@[k] == entry(a@, n as int, k, j as int),
        decreases m - i,
    {
        proof {
            lemma_inside(m as int, n as int, i as int, j as int);
        }
        work.push(a[i * n + j]);
        i = i + 1;
    }
    assert(work@ =~= column(a@, m as nat, n as nat, j as int));
    work
}

/// Gram-Schmidt factorization of the columns, truncated to the leading `chi`.
///
/// The fallback where the decomposition does not converge: it keeps the isometry
/// and loses the optimal truncation.
pub fn qr_truncate<R: Scalar>(a: &Vec<R>, m: usize, n: usize, chi: usize) -> (f: Factor<R>)
    requires
        a@.len() == m * n,
    ensures
        (f.q@, f.carry@, f.k as nat) == qr_factor(a@, m as nat, n as nat, chi as nat),
        f.q@.len() == m * f.k,
        f.carry@.len() == f.k * n,
        f.fell_back,
{
    let total: usize = a.len();
    let full: usize = if m < n {
        m
    } else {
        n
    };
    let cap: usize = if chi < 1 {
        1
    } else {
        chi
    };
    let keep: usize = if full < cap {
        full
    } else {
        cap
    };
    proof {
        lemma_products(m as int, n as int, full as int);
        assert(keep * n <= full * n) by (nonlinear_arith)
            requires
                keep <= full,
                0 <= n,
        ;
    }
    let mut q: Vec<R> = zeros(m * full);
    let mut r: Vec<R> = zeros(full * n);
    let mut set: Vec<bool> = vec![false; full];
    proof {
        let t = qr_at(a@, m as nat, n as nat, full as nat, 0);
        assert(q@ =~= t.q);
        assert(r@ =~= t.r);
        assert(set@ =~= t.set);
    }
    let mut found: usize = 0;
    let mut j: usize = 0;
    while j < n
        invariant
            a@.len() == m * n,
            total == m * n,
            full == lesser(m as nat, n as nat),
            full <= n,
            found <= full,
            j <= n,
            q@.len() == m * full,
            r@.len() == full * n,
            set@.len() == full,
            full * n <= usize::MAX,
            (Qr { q: q@, r: r@, set: set@, found: found as nat }) == qr_at(
                a@,
                m as nat,
                n as nat,
                full as nat,
                j as int,
            ),
        decreases n - j,
    {
        let ghost before = Qr { q: q@, r: r@, set: set@, found: found as nat };
        let mut work = get_column(a, m, n, j);
        qr_project(&q, &mut r, &set, m, n, full, j, &mut work);
        if found < full {
            let norm: R = sum_pairs(&work, &work).square_root();
            if zero::<R>().less(norm) {
                set_col(&mut q, m, full, found, &work, norm);
                proof {
                    lemma_inside(full as int, n as int, found as int, j as int);
                }
                r.set(found * n + j, norm);
                set.set(found, true);
                found = found + 1;
            }
        }
        proof {
            assert((Qr { q: q@, r: r@, set: set@, found: found as nat }) =~= qr_step(
                a@,
                m as nat,
                n as nat,
                full as nat,
                j as int,
                before,
            ));
        }
        j = j + 1;
    }
    complete(&mut q, &mut set, m, full);
    let qk = take_cols(&q, m, full, keep);
    let mut rk: Vec<R> = Vec::with_capacity(keep * n);
    let mut x: usize = 0;
    let stop: usize = keep * n;
    while x < stop
        invariant
            stop <= r@.len(),
            x <= stop,
            rk@ == r@.take(x as int),
        decreases stop - x,
    {
        rk.push(r[x]);
        x = x + 1;
        assert(rk@ =~= r@.take(x as int));
    }
    Factor { q: qk, carry: rk, k: keep, fell_back: true }
}

/// What holds of the state after the first `k` columns: the found columns stand in
/// the first slots, and `r` has entries in their rows and in the first `k` columns
/// only.
proof fn lemma_qr_state<R: Scalar>(a: Seq<R>, m: nat, n: nat, full: nat, k: int)
    requires
        0 <= k <= n,
    ensures
        qr_at(a, m, n, full, k).q.len() == m * full,
        qr_at(a, m, n, full, k).r.len() == full * n,
        qr_at(a, m, n, full, k).set.len() == full,
        qr_at(a, m, n, full, k).found <= full,
        forall|c: int|
            0 <= c < full ==> (#[trigger] qr_at(a, m, n, full, k).set[c] <==> c < qr_at(
                a,
                m,
                n,
                full,
                k,
            ).found),
        forall|c: int, j: int|
            0 <= c < full && 0 <= j < n && (c >= qr_at(a, m, n, full, k).found || j >= k)
                ==> #[trigger] entry(qr_at(a, m, n, full, k).r, n as int, c, j) == nil::<R>(),
    decreases k,
{
    if k <= 0 {
        let t = qr_at(a, m, n, full, k);
        assert forall|c: int, j: int| 0 <= c < full && 0 <= j < n implies #[trigger] entry(
            t.r,
            n as int,
            c,
            j,
        ) == nil::<R>() by {
            lemma_inside(full as int, n as int, c, j);
        }
    } else {
        lemma_qr_state(a, m, n, full, k - 1);
        lemma_qr_step(a, m, n, full, k - 1);
    }
}

/// What one step changes: column `j` of `r`, and the next free slot.
proof fn lemma_qr_step<R: Scalar>(a: Seq<R>, m: nat, n: nat, full: nat, j: int)
    requires
        0 <= j < n,
        qr_at(a, m, n, full, j).q.len() == m * full,
        qr_at(a, m, n, full, j).r.len() == full * n,
        qr_at(a, m, n, full, j).set.len() == full,
        qr_at(a, m, n, full, j).found <= full,
    ensures
        ({
            let t = qr_at(a, m, n, full, j);
            let s = qr_at(a, m, n, full, j + 1);
            let start = column(a, m, n, j);
            let work = cleared(t.q, full as int, -1, t.set, start, full as int);
            let norm = pair_sum(work, work, m as int).root();
            let filled = t.found < full && nil::<R>().under(norm);
            &&& s.q.len() == m * full
            &&& s.r.len() == full * n
            &&& s.set.len() == full
            &&& s.found == if filled {
                t.found + 1
            } else {
                t.found
            }
            &&& s.set == if filled {
                t.set.update(t.found as int, true)
            } else {
                t.set
            }
            &&& forall|i: int, c: int|
                0 <= i < m && 0 <= c < full ==> #[trigger] entry(s.q, full as int, i, c) == if filled
                    && c == t.found {
                    work[i].over(norm)
                } else {
                    entry(t.q, full as int, i, c)
                }
            &&& forall|c: int, b: int|
                0 <= c < full && 0 <= b < n ==> #[trigger] entry(s.r, n as int, c, b) == if b != j {
                    entry(t.r, n as int, c, b)
                } else if filled && c == t.found {
                    norm
                } else if t.set[c] {
                    col_with(
                        t.q,
                        full as int,
                        c,
                        cleared(t.q, full as int, -1, t.set, start, c),
                        m as int,
                    )
                } else {
                    entry(t.r, n as int, c, b)
                }
        }),
{
    let t = qr_at(a, m, n, full, j);
    let s = qr_at(a, m, n, full, j + 1);
    let start = column(a, m, n, j);
    let work = cleared(t.q, full as int, -1, t.set, start, full as int);
    let norm = pair_sum(work, work, m as int).root();
    let r = products_in(t, m, n, full, start, j, full as int);
    let f = |c: int, b: int|
        if b == j && c < full && t.set[c] {
            col_with(
                t.q,
                full as int,
                c,
                cleared(t.q, full as int, -1, t.set, start, c),
                m as int,
            )
        } else {
            entry(t.r, n as int, c, b)
        };
    assert(r == table(full, n, f));
    assert forall|c: int, b: int| 0 <= c < full && 0 <= b < n implies #[trigger] entry(
        r,
        n as int,
        c,
        b,
    ) == f(c, b) by {
        lemma_table(full, n, f, c, b);
    }
    if t.found < full && nil::<R>().under(norm) {
        lemma_set(r, full as int, n as int, t.found as int, j, norm);
        let g = |i: int, c: int|
            if c == t.found {
                work[i].over(norm)
            } else {
                entry(t.q, full as int, i, c)
            };
        assert(s.q == table(m, full, g));
        assert forall|i: int, c: int| 0 <= i < m && 0 <= c < full implies #[trigger] entry(
            s.q,
            full as int,
            i,
            c,
        ) == g(i, c) by {
            lemma_table(m, full, g, i, c);
        }
    }
}

/// Later columns leave the found columns and the entries of a column alone.
proof fn lemma_qr_keeps<R: Scalar>(a: Seq<R>, m: nat, n: nat, full: nat, j: int, k: int)
    requires
        0 <= j < k <= n,
    ensures
        qr_at(a, m, n, full, j + 1).found <= qr_at(a, m, n, full, k).found,
        forall|i: int, c: int|
            0 <= i < m && 0 <= c < qr_at(a, m, n, full, j + 1).found ==> #[trigger] entry(
                qr_at(a, m, n, full, k).q,
                full as int,
                i,
                c,
            ) == entry(qr_at(a, m, n, full, j + 1).q, full as int, i, c),
        forall|c: int|
            0 <= c < full ==> #[trigger] entry(qr_at(a, m, n, full, k).r, n as int, c, j) == entry(
                qr_at(a, m, n, full, j + 1).r,
                n as int,
                c,
                j,
            ),
    decreases k,
{
    lemma_qr_state(a, m, n, full, j + 1);
    if k > j + 1 {
        lemma_qr_keeps(a, m, n, full, j, k - 1);
        lemma_qr_state(a, m, n, full, k - 1);
        lemma_qr_step(a, m, n, full, k - 1);
        let t = qr_at(a, m, n, full, k - 1);
        let s = qr_at(a, m, n, full, k);
        let u = qr_at(a, m, n, full, j + 1);
        assert forall|i: int, c: int| 0 <= i < m && 0 <= c < u.found implies #[trigger] entry(
            s.q,
            full as int,
            i,
            c,
        ) == entry(u.q, full as int, i, c) by {
            assert(entry(t.q, full as int, i, c) == entry(u.q, full as int, i, c));
        }
        assert forall|c: int| 0 <= c < full implies #[trigger] entry(s.r, n as int, c, j) == entry(
            u.r,
            n as int,
            c,
            j,
        ) by {
            assert(entry(t.r, n as int, c, j) == entry(u.r, n as int, c, j));
        }
    }
}

/// Entry `(i, j)` of the product of `q` and `r` over the inner indices from `c`
/// on, the last first.
pub open spec fn product_from<R: Scalar>(
    q: Seq<R>,
    r: Seq<R>,
    cols: nat,
    n: nat,
    i: int,
    j: int,
    c: int,
) -> R
    decreases cols - c,
{
    if c >= cols {
        nil()
    } else {
        product_from(q, r, cols, n, i, j, c + 1).plus(
            entry(r, n as int, c, j).times(entry(q, cols as int, i, c)),
        )
    }
}

/// Taking column `j` apart rounds nothing: what is taken off can be put back, and
/// what is scaled to norm 1 can be scaled back.
pub open spec fn exact_column<R: Scalar>(a: Seq<R>, m: nat, n: nat, full: nat, j: int) -> bool {
    let t = qr_at(a, m, n, full, j);
    let start = column(a, m, n, j);
    let rest = cleared(t.q, full as int, -1, t.set, start, full as int);
    let norm = pair_sum(rest, rest, m as int).root();
    &&& forall|i: int, c: int|
        0 <= i < m && 0 <= c < t.found ==> ({
            let before = cleared(t.q, full as int, -1, t.set, start, c);
            let part = col_with(t.q, full as int, c, before, m as int).times(
                #[trigger] entry(t.q, full as int, i, c),
            );
            before[i].minus(part).plus(part) == before[i]
        })
    &&& forall|i: int|
        0 <= i < m ==> nil::<R>().plus(norm.times((#[trigger] rest[i]).over(norm))) == rest[i]
}

/// Column `j` finds a free slot, or the found columns leave nothing of it.
pub open spec fn column_has_room<R: Scalar>(a: Seq<R>, m: nat, n: nat, full: nat, j: int) -> bool {
    let t = qr_at(a, m, n, full, j);
    let rest = cleared(t.q, full as int, -1, t.set, column(a, m, n, j), full as int);
    let norm = pair_sum(rest, rest, m as int).root();
    ||| t.found < full && nil::<R>().under(norm)
    ||| forall|i: int| 0 <= i < m ==> #[trigger] rest[i] == nil::<R>()
}

proof fn lemma_cleared_len<R: Scalar>(q: Seq<R>, cols: int, set: Seq<bool>, work: Seq<R>, c: int)
    ensures
        cleared(q, cols, -1, set, work, c).len() == work.len(),
    decreases c,
{
    if c > 0 {
        lemma_cleared_len(q, cols, set, work, c - 1);
    }
}

proof fn lemma_cleared_rest<R: Scalar>(
    q: Seq<R>,
    cols: int,
    set: Seq<bool>,
    work: Seq<R>,
    from: int,
    c: int,
)
    requires
        0 <= from <= c,
        forall|x: int| from <= x < c ==> !#[trigger] set[x],
    ensures
        cleared(q, cols, -1, set, work, c) == cleared(q, cols, -1, set, work, from),
    decreases c,
{
    if c > from {
        lemma_cleared_rest(q, cols, set, work, from, c - 1);
        assert(!set[c - 1]);
    }
}

/// The fallback is exact: where the dimension is not capped, a column that finds
/// room is the product of the isometry and the carry, up to the rounding of the
/// scalar.
pub proof fn fallback_loses_no_column<R: Scalar>(
    a: Seq<R>,
    m: nat,
    n: nat,
    chi: nat,
    i: int,
    j: int,
)
    requires
        zero_is_neutral::<R>(),
        0 <= i < m,
        0 <= j < n,
        chi >= lesser(m, n),
        exact_column(a, m, n, lesser(m, n), j),
        column_has_room(a, m, n, lesser(m, n), j),
    ensures
        product_from(
            qr_factor(a, m, n, chi).0,
            qr_factor(a, m, n, chi).1,
            lesser(m, n),
            n,
            i,
            j,
            0,
        ) == entry(a, n as int, i, j),
{
    let full = lesser(m, n);
    let t = qr_at(a, m, n, full, j);
    let end = qr_at(a, m, n, full, n as int);
    lemma_qr_state(a, m, n, full, n as int);
    let all = completed(end.q, end.set, m, full, full as int).0;
    let (q, r, keep) = qr_factor(a, m, n, chi);
    assert(keep == full);
    assert(r =~= end.r);
    let f = |p: int, b: int| entry(all, full as int, p, b);
    assert(q == table(m, full, f));
    assert forall|c: int| 0 <= c < full implies #[trigger] entry(q, full as int, i, c) == entry(
        all,
        full as int,
        i,
        c,
    ) by {
        lemma_table(m, full, f, i, c);
    }
    assert forall|c: int| 0 <= c < end.found implies #[trigger] entry(q, full as int, i, c)
        == entry(end.q, full as int, i, c) by {
        lemma_completed_keeps(end.q, end.set, m, full, full as int, i, c);
        assert(entry(q, full as int, i, c) == entry(all, full as int, i, c));
    }
    lemma_product(a, m, n, q, r, i, j, 0);
}

/// The part of the product from slot `c` on is what the slots before `c` leave of
/// the column.
proof fn lemma_product<R: Scalar>(
    a: Seq<R>,
    m: nat,
    n: nat,
    q: Seq<R>,
    r: Seq<R>,
    i: int,
    j: int,
    c: int,
)
    requires
        zero_is_neutral::<R>(),
        0 <= i < m,
        0 <= j < n,
        0 <= c <= lesser(m, n),
        exact_column(a, m, n, lesser(m, n), j),
        column_has_room(a, m, n, lesser(m, n), j),
        r == qr_at(a, m, n, lesser(m, n), n as int).r,
        forall|x: int|
            0 <= x < qr_at(a, m, n, lesser(m, n), n as int).found ==> #[trigger] entry(
                q,
                lesser(m, n) as int,
                i,
                x,
            ) == entry(qr_at(a, m, n, lesser(m, n), n as int).q, lesser(m, n) as int, i, x),
    ensures
        c >= qr_at(a, m, n, lesser(m, n), j + 1).found ==> product_from(
            q,
            r,
            lesser(m, n),
            n,
            i,
            j,
            c,
        ) == nil::<R>(),
        c <= qr_at(a, m, n, lesser(m, n), j).found ==> product_from(q, r, lesser(m, n), n, i, j, c)
            == cleared(
            qr_at(a, m, n, lesser(m, n), j).q,
            lesser(m, n) as int,
            -1,
            qr_at(a, m, n, lesser(m, n), j).set,
            column(a, m, n, j),
            c,
        )[i],
    decreases lesser(m, n) - c,
{
    let full = lesser(m, n);
    let t = qr_at(a, m, n, full, j);
    let s = qr_at(a, m, n, full, j + 1);
    let end = qr_at(a, m, n, full, n as int);
    let start = column(a, m, n, j);
    let rest = cleared(t.q, full as int, -1, t.set, start, full as int);
    let norm = pair_sum(rest, rest, m as int).root();
    let filled = t.found < full && nil::<R>().under(norm);
    lemma_qr_state(a, m, n, full, j);
    lemma_qr_step(a, m, n, full, j);
    lemma_qr_state(a, m, n, full, j + 1);
    lemma_qr_keeps(a, m, n, full, j, n as int);
    lemma_cleared_len(t.q, full as int, t.set, start, full as int);
    lemma_cleared_len(t.q, full as int, t.set, start, c);
    if c < full {
        lemma_product(a, m, n, q, r, i, j, c + 1);
        assert(entry(r, n as int, c, j) == entry(s.r, n as int, c, j));
        let tail = product_from(q, r, full, n, i, j, c + 1);
        let head = entry(r, n as int, c, j).times(entry(q, full as int, i, c));
        assert(product_from(q, r, full, n, i, j, c) == tail.plus(head));
        if c >= s.found {
            assert(entry(s.r, n as int, c, j) == nil::<R>());
            assert(head == nil::<R>());
        } else {
            assert(entry(end.q, full as int, i, c) == entry(s.q, full as int, i, c));
            assert(entry(q, full as int, i, c) == entry(s.q, full as int, i, c));
        }
        if c < t.found {
            let before = cleared(t.q, full as int, -1, t.set, start, c);
            assert(t.set[c]);
            let dot = col_with(t.q, full as int, c, before, m as int);
            let part = dot.times(entry(t.q, full as int, i, c));
            assert(entry(s.q, full as int, i, c) == entry(t.q, full as int, i, c));
            assert(entry(s.r, n as int, c, j) == dot);
            assert(head == part);
            assert(before.len() == m);
            assert(cleared(t.q, full as int, -1, t.set, start, c + 1)[i] == before[i].minus(part));
            assert(before[i].minus(part).plus(part) == before[i]);
        } else if c == t.found {
            lemma_cleared_rest(t.q, full as int, t.set, start, c, full as int);
            if filled {
                assert(s.found == c + 1);
                assert(tail == nil::<R>());
                assert(entry(s.r, n as int, c, j) == norm);
                assert(entry(s.q, full as int, i, c) == rest[i].over(norm));
            } else {
                assert(rest[i] == nil::<R>());
            }
        }
    } else if c == t.found {
        assert(!filled);
        assert(rest[i] == nil::<R>());
    }
}

/// How many of the first `k` values are above `floor`.
pub open spec fn count_above<R: Scalar>(s: Seq<R>, floor: R, k: int) -> nat
    decreases k,
{
    if k <= 0 {
        0
    } else {
        count_above(s, floor, k - 1) + if floor.under(s[k - 1]) {
            1nat
        } else {
            0
        }
    }
}

/// Singular values to keep: those above `eps` of the largest, at least one and
/// at most `cap`.
pub open spec fn kept<R: Scalar>(eps: R, s: Seq<R>, cap: nat) -> nat {
    let s0 = if s.len() > 0 {
        s[0]
    } else {
        nil()
    };
    let floor = if nil::<R>().under(s0) {
        eps.times(s0)
    } else {
        nil()
    };
    let counted = count_above(s, floor, s.len() as int);
    if counted < 1 {
        1
    } else if counted > cap {
        cap
    } else {
        counted
    }
}

/// Singular values to keep, of `cap` at most.
pub fn keep_count<R: Scalar>(eps: R, s: &Vec<R>, cap: usize) -> (keep: usize)
    requires
        cap >= 1,
    ensures
        keep == kept(eps, s@, cap as nat),
        1 <= keep <= cap,
{
    let s0: R = if s.len() > 0 {
        s[0]
    } else {
        zero()
    };
    let floor: R = if zero::<R>().less(s0) {
        eps.product(s0)
    } else {
        zero()
    };
    let mut counted: usize = 0;
    let mut i: usize = 0;
    while i < s.len()
        invariant
            i <= s@.len(),
            counted <= i,
            counted == count_above(s@, floor, i as int),
        decreases s@.len() - i,
    {
        if floor.less(s[i]) {
            counted = counted + 1;
        }
        i = i + 1;
    }
    if counted < 1 {
        1
    } else if counted > cap {
        cap
    } else {
        counted
    }
}

/// Factor a matrix with `left` sweeps at most: isometry, carry, dimension.
pub open spec fn factored<R: Scalar>(
    eps: R,
    a: Seq<R>,
    m: nat,
    n: nat,
    chi: nat,
    max_sweeps: nat,
) -> (Seq<R>, Seq<R>, nat) {
    let full = lesser(m, n);
    let cap = lesser(
        full,
        if chi < 1 {
            1
        } else {
            chi
        },
    );
    if full == 0 {
        (Seq::empty(), Seq::empty(), 0)
    } else {
        match svd_of(eps, a, m, n, max_sweeps) {
            None => qr_factor(a, m, n, chi),
            Some(d) => {
                let keep = kept(eps, d.1, cap);
                (
                    first_cols(d.0, m, full, keep),
                    table(keep, n, |b: int, j: int| d.1[b].times(entry(d.2, n as int, b, j))),
                    keep,
                )
            },
        }
    }
}

/// Factor a matrix into an isometry and a carry, capping the dimension at
/// `chi`.
pub fn truncated_svd<R: Scalar>(eps: R, a: &Vec<R>, m: usize, n: usize, chi: usize) -> (f: Factor<R>)
    requires
        a@.len() == m * n,
        m < usize::MAX,
        n < usize::MAX,
    ensures
        (f.q@, f.carry@, f.k as nat) == factored(
            eps,
            a@,
            m as nat,
            n as nat,
            chi as nat,
            JACOBI_MAX_SWEEPS as nat,
        ),
        f.q@.len() == m * f.k,
        f.carry@.len() == f.k * n,
{
    truncated_svd_sweeps(eps, a, m, n, chi, JACOBI_MAX_SWEEPS)
}

/// [`truncated_svd`] with an explicit sweep budget. A budget of 0 forces the
/// fallback.
pub fn truncated_svd_sweeps<R: Scalar>(
    eps: R,
    a: &Vec<R>,
    m: usize,
    n: usize,
    chi: usize,
    max_sweeps: usize,
) -> (f: Factor<R>)
    requires
        a@.len() == m * n,
        m < usize::MAX,
        n < usize::MAX,
    ensures
        (f.q@, f.carry@, f.k as nat) == factored(
            eps,
            a@,
            m as nat,
            n as nat,
            chi as nat,
            max_sweeps as nat,
        ),
        f.q@.len() == m * f.k,
        f.carry@.len() == f.k * n,
        f.fell_back <==> m > 0 && n > 0 && svd_of(
            eps,
            a@,
            m as nat,
            n as nat,
            max_sweeps as nat,
        ) is None,
{
    let total: usize = a.len();
    let full: usize = if m < n {
        m
    } else {
        n
    };
    if full == 0 {
        assert(m * 0 == 0 && 0 * n == 0) by (nonlinear_arith);
        return Factor { q: Vec::new(), carry: Vec::new(), k: 0, fell_back: false };
    }
    let svd = match jacobi_svd(eps, a, m, n, max_sweeps) {
        Some(d) => d,
        None => {
            return qr_truncate(a, m, n, chi);
        },
    };
    let limit: usize = if chi < 1 {
        1
    } else {
        chi
    };
    let cap: usize = if full < limit {
        full
    } else {
        limit
    };
    let keep: usize = keep_count(eps, &svd.s, cap);
    let q = take_cols(&svd.u, m, full, keep);
    proof {
        lemma_products(m as int, n as int, keep as int);
    }
    let size: usize = keep * n;
    let ghost goal = table(
        keep as nat,
        n as nat,
        |b: int, j: int| svd.s@[b].times(entry(svd.vt@, n as int, b, j)),
    );
    let mut carry: Vec<R> = Vec::with_capacity(size);
    let mut x: usize = 0;
    while x < size
        invariant
            size == keep * n,
            keep <= full,
            svd.k == full,
            svd.s@.len() == full,
            svd.vt@.len() == full * n,
            goal == table(
                keep as nat,
                n as nat,
                |b: int, j: int| svd.s@[b].times(entry(svd.vt@, n as int, b, j)),
            ),
            x <= size,
            carry@ == goal.take(x as int),
        decreases size - x,
    {
        proof {
            lemma_split(keep as int, n as int, x as int);
            lemma_inside(full as int, n as int, x as int / n as int, x as int % n as int);
        }
        let b: usize = x / n;
        carry.push(svd.s[b].product(svd.vt[x]));
        x = x + 1;
        assert(carry@ =~= goal.take(x as int));
    }
    assert(carry@ =~= goal);
    Factor { q, carry, k: keep, fell_back: false }
}

/// The retained dimension is between 1 and both the cap and the rank bound,
/// whichever way the factorization goes.
pub proof fn factor_keeps_within_its_cap<R: Scalar>(
    eps: R,
    a: Seq<R>,
    m: nat,
    n: nat,
    chi: nat,
    max_sweeps: nat,
)
    requires
        m > 0,
        n > 0,
        chi > 0,
    ensures
        1 <= factored(eps, a, m, n, chi, max_sweeps).2 <= chi,
        factored(eps, a, m, n, chi, max_sweeps).2 <= lesser(m, n),
{
}

} // verus!
