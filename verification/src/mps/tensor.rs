//! Operations on the flat tensors of a chain.
//!
//! A site tensor with left bond `dl` and right bond `dr` is a matrix of
//! `2 * dl` rows and `dr` columns: row `2 * l + p` holds left index `l` and
//! physical index `p`. Physical index 0 is spin up and 1 is spin down.
use vstd::prelude::*;

use crate::matrix::{entry, lemma_inside, lemma_split, table};
use crate::scalar::{
    is_ordinary, is_zero, nil, one, opposite, ordinary, pair_sum, sum_pairs, unit, vanishes, zero,
    Scalar,
};

verus! {

/// `v` scaled to norm 1. A norm that is 0 or not ordinary leaves it alone.
pub open spec fn normalized<R: Scalar>(v: Seq<R>) -> Seq<R> {
    let norm = pair_sum(v, v, v.len() as int).root();
    if nil::<R>().under(norm) && ordinary(norm) {
        Seq::new(v.len(), |i: int| v[i].over(norm))
    } else {
        v
    }
}

/// Scale `v` to norm 1. A norm that is 0 or not ordinary leaves it alone.
pub fn normalize_vec<R: Scalar>(v: &mut Vec<R>)
    ensures
        final(v)@ == normalized(old(v)@),
        final(v)@.len() == old(v)@.len(),
{
    let norm: R = sum_pairs(v, v).square_root();
    if zero::<R>().less(norm) && is_ordinary(norm) {
        let ghost before = v@;
        let mut i: usize = 0;
        while i < v.len()
            invariant
                v@.len() == before.len(),
                i <= v@.len(),
                forall|k: int| 0 <= k < i ==> #[trigger] v@[k] == before[k].over(norm),
                forall|k: int| i <= k < v@.len() ==> #[trigger] v@[k] == before[k],
            decreases v@.len() - i,
        {
            v.set(i, v[i].quotient(norm));
            i = i + 1;
        }
        assert(v@ =~= normalized(before));
    }
}

/// The row of the other physical index of a site.
pub open spec fn partner(row: int) -> int {
    if row % 2 == 0 {
        row + 1
    } else {
        row - 1
    }
}

/// A site after `1 + tau X`.
pub open spec fn mixed<R: Scalar>(a: Seq<R>, dl: nat, dr: nat, tau: R) -> Seq<R> {
    table(
        2 * dl,
        dr,
        |row: int, r: int|
            entry(a, dr as int, row, r).plus(tau.times(entry(a, dr as int, partner(row), r))),
    )
}

/// A site after `1 + tau X`.
pub fn mix_site<R: Scalar>(a: &Vec<R>, dl: usize, dr: usize, tau: R) -> (b: Vec<R>)
    requires
        2 * dl <= usize::MAX,
        a@.len() == (2 * dl) * dr,
    ensures
        b@ == mixed(a@, dl as nat, dr as nat, tau),
        b@.len() == a@.len(),
{
    let total: usize = a.len();
    let ghost goal = mixed(a@, dl as nat, dr as nat, tau);
    let mut b: Vec<R> = Vec::with_capacity(total);
    let mut x: usize = 0;
    while x < total
        invariant
            2 * dl <= usize::MAX,
            total == a@.len(),
            total == (2 * dl) * dr,
            goal == mixed(a@, dl as nat, dr as nat, tau),
            x <= total,
            b@ == goal.take(x as int),
        decreases total - x,
    {
        proof {
            lemma_split(2 * dl as int, dr as int, x as int);
        }
        let row: usize = x / dr;
        let r: usize = x % dr;
        let other: usize = if row % 2 == 0 {
            row + 1
        } else {
            row - 1
        };
        proof {
            assert(other < 2 * dl);
            lemma_inside(2 * dl as int, dr as int, other as int, r as int);
        }
        b.push(a[x].sum(tau.product(a[other * dr + r])));
        x = x + 1;
        assert(b@ =~= goal.take(x as int));
    }
    assert(b@ =~= goal);
    b
}

/// A site after the field factor `g` on spin up and its inverse on spin down.
pub open spec fn tilted<R: Scalar>(a: Seq<R>, dl: nat, dr: nat, g: R) -> Seq<R> {
    table(
        2 * dl,
        dr,
        |row: int, r: int|
            if row % 2 == 0 {
                entry(a, dr as int, row, r).times(g)
            } else {
                entry(a, dr as int, row, r).over(g)
            },
    )
}

/// A site after the field factor `g`.
pub fn tilt_site<R: Scalar>(a: &Vec<R>, dl: usize, dr: usize, g: R) -> (b: Vec<R>)
    requires
        2 * dl <= usize::MAX,
        a@.len() == (2 * dl) * dr,
    ensures
        b@ == tilted(a@, dl as nat, dr as nat, g),
        b@.len() == a@.len(),
{
    let total: usize = a.len();
    let ghost goal = tilted(a@, dl as nat, dr as nat, g);
    let mut b: Vec<R> = Vec::with_capacity(total);
    let mut x: usize = 0;
    while x < total
        invariant
            total == a@.len(),
            total == (2 * dl) * dr,
            goal == tilted(a@, dl as nat, dr as nat, g),
            x <= total,
            b@ == goal.take(x as int),
        decreases total - x,
    {
        proof {
            lemma_split(2 * dl as int, dr as int, x as int);
        }
        let value: R = if (x / dr) % 2 == 0 {
            a[x].product(g)
        } else {
            a[x].quotient(g)
        };
        b.push(value);
        proof {
            assert(goal[x as int] == value);
        }
        x = x + 1;
        assert(b@ =~= goal.take(x as int));
    }
    assert(b@ =~= goal);
    b
}

/// Sum over the first `k` inner indices of entry `(i, j)` of a product; a left
/// factor of 0 adds nothing.
pub open spec fn inner_sum<R: Scalar>(
    a: Seq<R>,
    b: Seq<R>,
    inner: int,
    cols: int,
    i: int,
    j: int,
    k: int,
) -> R
    decreases k,
{
    if k <= 0 {
        nil()
    } else {
        let before = inner_sum(a, b, inner, cols, i, j, k - 1);
        let left = entry(a, inner, i, k - 1);
        if vanishes(left) {
            before
        } else {
            before.plus(left.times(entry(b, cols, k - 1, j)))
        }
    }
}

/// The product of a `rows` by `inner` and an `inner` by `cols` matrix.
pub open spec fn multiplied<R: Scalar>(
    a: Seq<R>,
    b: Seq<R>,
    rows: nat,
    inner: nat,
    cols: nat,
) -> Seq<R> {
    table(
        rows,
        cols,
        |i: int, j: int| inner_sum(a, b, inner as int, cols as int, i, j, inner as int),
    )
}

/// The product of a `rows` by `inner` and an `inner` by `cols` matrix.
pub fn multiply<R: Scalar>(a: &Vec<R>, b: &Vec<R>, rows: usize, inner: usize, cols: usize) -> (c: Vec<
    R,
>)
    requires
        a@.len() == rows * inner,
        b@.len() == inner * cols,
        rows * cols <= usize::MAX,
    ensures
        c@ == multiplied(a@, b@, rows as nat, inner as nat, cols as nat),
        c@.len() == rows * cols,
{
    let left: usize = a.len();
    let right: usize = b.len();
    let total: usize = rows * cols;
    let ghost goal = multiplied(a@, b@, rows as nat, inner as nat, cols as nat);
    let mut c: Vec<R> = Vec::with_capacity(total);
    let mut x: usize = 0;
    while x < total
        invariant
            left == a@.len(),
            right == b@.len(),
            left == rows * inner,
            right == inner * cols,
            total == rows * cols,
            goal == multiplied(a@, b@, rows as nat, inner as nat, cols as nat),
            x <= total,
            c@ == goal.take(x as int),
        decreases total - x,
    {
        proof {
            lemma_split(rows as int, cols as int, x as int);
        }
        let i: usize = x / cols;
        let j: usize = x % cols;
        let mut sum: R = zero();
        let mut k: usize = 0;
        while k < inner
            invariant
                left == a@.len(),
                right == b@.len(),
                left == rows * inner,
                right == inner * cols,
                i < rows,
                j < cols,
                k <= inner,
                sum == inner_sum(
                    a@,
                    b@,
                    inner as int,
                    cols as int,
                    i as int,
                    j as int,
                    k as int,
                ),
            decreases inner - k,
        {
            proof {
                lemma_inside(rows as int, inner as int, i as int, k as int);
                lemma_inside(inner as int, cols as int, k as int, j as int);
            }
            let av: R = a[i * inner + k];
            if !is_zero(av) {
                sum = sum.sum(av.product(b[k * cols + j]));
            }
            k = k + 1;
        }
        c.push(sum);
        proof {
            assert(goal[x as int] == sum);
        }
        x = x + 1;
        assert(c@ =~= goal.take(x as int));
    }
    assert(c@ =~= goal);
    c
}

/// Eigenvalue of physical index `p`.
pub open spec fn eigen<R: Scalar>(p: int) -> R {
    if p == 0 {
        unit()
    } else {
        R::of_milli(-1000)
    }
}

fn eigenvalue<R: Scalar>(p: usize) -> (z: R)
    ensures
        z == eigen::<R>(p as int),
{
    if p == 0 {
        one()
    } else {
        R::from_milli(-1000)
    }
}

/// A site with two channels opened on its right bond: the identity, and `-t Z`.
pub open spec fn opened<R: Scalar>(a: Seq<R>, dl: nat, mid: nat, t: R) -> Seq<R> {
    table(
        2 * dl,
        mid * 2,
        |row: int, c: int|
            if c % 2 == 0 {
                entry(a, mid as int, row, c / 2)
            } else {
                opposite(t).times(eigen(row % 2)).times(entry(a, mid as int, row, c / 2))
            },
    )
}

/// Open the two channels on a site.
pub fn open_channels<R: Scalar>(a: &Vec<R>, dl: usize, mid: usize, t: R) -> (b: Vec<R>)
    requires
        a@.len() == (2 * dl) * mid,
        2 * dl <= usize::MAX,
        mid * 2 <= usize::MAX,
        (2 * dl) * (mid * 2) <= usize::MAX,
    ensures
        b@ == opened(a@, dl as nat, mid as nat, t),
        b@.len() == (2 * dl) * (mid * 2),
{
    let rows: usize = 2 * dl;
    let cols: usize = mid * 2;
    let total: usize = rows * cols;
    let ghost goal = opened(a@, dl as nat, mid as nat, t);
    let minus: R = R::from_milli(-1000).product(t);
    let all: usize = a.len();
    let mut b: Vec<R> = Vec::with_capacity(total);
    let mut x: usize = 0;
    while x < total
        invariant
            a@.len() == rows * mid,
            all == rows * mid,
            rows == 2 * dl,
            cols == mid * 2,
            total == rows * cols,
            minus == opposite(t),
            goal == opened(a@, dl as nat, mid as nat, t),
            x <= total,
            b@ == goal.take(x as int),
        decreases total - x,
    {
        proof {
            lemma_split(rows as int, cols as int, x as int);
        }
        let row: usize = x / cols;
        let c: usize = x % cols;
        let r: usize = c / 2;
        proof {
            lemma_inside(rows as int, mid as int, row as int, r as int);
        }
        let av: R = a[row * mid + r];
        let value: R = if c % 2 == 0 {
            av
        } else {
            minus.product(eigenvalue(row % 2)).product(av)
        };
        b.push(value);
        proof {
            assert(goal[x as int] == value);
        }
        x = x + 1;
        assert(b@ =~= goal.take(x as int));
    }
    assert(b@ =~= goal);
    b
}

/// Sum over the first `k` left indices of a carry moved through a site.
pub open spec fn through_sum<R: Scalar>(
    carry: Seq<R>,
    a: Seq<R>,
    mid: int,
    dr: int,
    row: int,
    col: int,
    k: int,
) -> R
    decreases k,
{
    if k <= 0 {
        nil()
    } else {
        let before = through_sum(carry, a, mid, dr, row, col, k - 1);
        let cv = entry(carry, mid * 2, row / 2, (k - 1) * 2 + col % 2);
        if vanishes(cv) {
            before
        } else {
            before.plus(cv.times(entry(a, dr, (k - 1) * 2 + row % 2, col / 2)))
        }
    }
}

/// A carry of `nb` rows moved through a site: both channels pass unchanged.
pub open spec fn passed<R: Scalar>(
    carry: Seq<R>,
    a: Seq<R>,
    nb: nat,
    mid: nat,
    dr: nat,
) -> Seq<R> {
    table(
        2 * nb,
        dr * 2,
        |row: int, col: int|
            through_sum(carry, a, mid as int, dr as int, row, col, mid as int),
    )
}

/// Move a carry through a site.
pub fn pass_carry<R: Scalar>(carry: &Vec<R>, a: &Vec<R>, nb: usize, mid: usize, dr: usize) -> (b: Vec<
    R,
>)
    requires
        mid * 2 <= usize::MAX,
        2 * nb <= usize::MAX,
        dr * 2 <= usize::MAX,
        carry@.len() == nb * (mid * 2),
        a@.len() == (2 * mid) * dr,
        (2 * nb) * (dr * 2) <= usize::MAX,
    ensures
        b@ == passed(carry@, a@, nb as nat, mid as nat, dr as nat),
        b@.len() == (2 * nb) * (dr * 2),
{
    let rows: usize = 2 * nb;
    let cols: usize = dr * 2;
    let wide: usize = mid * 2;
    let total: usize = rows * cols;
    let held: usize = carry.len();
    let all: usize = a.len();
    let ghost goal = passed(carry@, a@, nb as nat, mid as nat, dr as nat);
    let mut b: Vec<R> = Vec::with_capacity(total);
    let mut x: usize = 0;
    while x < total
        invariant
            rows == 2 * nb,
            cols == dr * 2,
            wide == mid * 2,
            held == nb * wide,
            held == carry@.len(),
            all == wide * dr,
            all == a@.len(),
            total == rows * cols,
            goal == passed(carry@, a@, nb as nat, mid as nat, dr as nat),
            x <= total,
            b@ == goal.take(x as int),
        decreases total - x,
    {
        proof {
            lemma_split(rows as int, cols as int, x as int);
        }
        let row: usize = x / cols;
        let col: usize = x % cols;
        let mut sum: R = zero();
        let mut k: usize = 0;
        while k < mid
            invariant
                rows == 2 * nb,
                cols == dr * 2,
                wide == mid * 2,
                held == nb * wide,
                held == carry@.len(),
                all == wide * dr,
                all == a@.len(),
                row < rows,
                col < cols,
                k <= mid,
                sum == through_sum(
                    carry@,
                    a@,
                    mid as int,
                    dr as int,
                    row as int,
                    col as int,
                    k as int,
                ),
            decreases mid - k,
        {
            proof {
                lemma_inside(nb as int, wide as int, row as int / 2, k * 2 + col % 2);
                lemma_inside(wide as int, dr as int, k * 2 + row % 2, col as int / 2);
            }
            let cv: R = carry[(row / 2) * wide + (k * 2 + col % 2)];
            if !is_zero(cv) {
                sum = sum.sum(cv.product(a[(k * 2 + row % 2) * dr + col / 2]));
            }
            k = k + 1;
        }
        b.push(sum);
        proof {
            assert(goal[x as int] == sum);
        }
        x = x + 1;
        assert(b@ =~= goal.take(x as int));
    }
    assert(b@ =~= goal);
    b
}

/// Sum over the first `k` left indices of a carry closed against a site.
pub open spec fn close_sum<R: Scalar>(
    carry: Seq<R>,
    a: Seq<R>,
    mid: int,
    dr: int,
    row: int,
    r: int,
    k: int,
) -> R
    decreases k,
{
    if k <= 0 {
        nil()
    } else {
        let before = close_sum(carry, a, mid, dr, row, r, k - 1);
        let c0 = entry(carry, mid * 2, row / 2, (k - 1) * 2);
        let c1 = entry(carry, mid * 2, row / 2, (k - 1) * 2 + 1);
        let w = c0.plus(eigen::<R>(row % 2).times(c1));
        if vanishes(w) {
            before
        } else {
            before.plus(w.times(entry(a, dr, (k - 1) * 2 + row % 2, r)))
        }
    }
}

/// A site with a carry of `nb` rows closed against the identity and `Z`.
pub open spec fn closed_over<R: Scalar>(
    carry: Seq<R>,
    a: Seq<R>,
    nb: nat,
    mid: nat,
    dr: nat,
) -> Seq<R> {
    table(
        2 * nb,
        dr,
        |row: int, r: int| close_sum(carry, a, mid as int, dr as int, row, r, mid as int),
    )
}

/// Close a carry against a site.
pub fn close_channels<R: Scalar>(
    carry: &Vec<R>,
    a: &Vec<R>,
    nb: usize,
    mid: usize,
    dr: usize,
) -> (b: Vec<R>)
    requires
        mid * 2 <= usize::MAX,
        2 * nb <= usize::MAX,
        carry@.len() == nb * (mid * 2),
        a@.len() == (2 * mid) * dr,
        (2 * nb) * dr <= usize::MAX,
    ensures
        b@ == closed_over(carry@, a@, nb as nat, mid as nat, dr as nat),
        b@.len() == (2 * nb) * dr,
{
    let rows: usize = 2 * nb;
    let wide: usize = mid * 2;
    let total: usize = rows * dr;
    let held: usize = carry.len();
    let all: usize = a.len();
    let ghost goal = closed_over(carry@, a@, nb as nat, mid as nat, dr as nat);
    let mut b: Vec<R> = Vec::with_capacity(total);
    let mut x: usize = 0;
    while x < total
        invariant
            rows == 2 * nb,
            wide == mid * 2,
            held == nb * wide,
            held == carry@.len(),
            all == wide * dr,
            all == a@.len(),
            total == rows * dr,
            goal == closed_over(carry@, a@, nb as nat, mid as nat, dr as nat),
            x <= total,
            b@ == goal.take(x as int),
        decreases total - x,
    {
        proof {
            lemma_split(rows as int, dr as int, x as int);
        }
        let row: usize = x / dr;
        let r: usize = x % dr;
        let z: R = eigenvalue(row % 2);
        let mut sum: R = zero();
        let mut k: usize = 0;
        while k < mid
            invariant
                rows == 2 * nb,
                wide == mid * 2,
                held == nb * wide,
                held == carry@.len(),
                all == wide * dr,
                all == a@.len(),
                row < rows,
                r < dr,
                z == eigen::<R>(row as int % 2),
                k <= mid,
                sum == close_sum(
                    carry@,
                    a@,
                    mid as int,
                    dr as int,
                    row as int,
                    r as int,
                    k as int,
                ),
            decreases mid - k,
        {
            proof {
                lemma_inside(nb as int, wide as int, row as int / 2, k * 2);
                lemma_inside(nb as int, wide as int, row as int / 2, k * 2 + 1);
                lemma_inside(wide as int, dr as int, k * 2 + row % 2, r as int);
            }
            let c0: R = carry[(row / 2) * wide + k * 2];
            let c1: R = carry[(row / 2) * wide + (k * 2 + 1)];
            let w: R = c0.sum(z.product(c1));
            if !is_zero(w) {
                sum = sum.sum(w.product(a[(k * 2 + row % 2) * dr + r]));
            }
            k = k + 1;
        }
        b.push(sum);
        proof {
            assert(goal[x as int] == sum);
        }
        x = x + 1;
        assert(b@ =~= goal.take(x as int));
    }
    assert(b@ =~= goal);
    b
}

/// The pair of two product sites under `1 - t Z Z`, as a 2 by 2 matrix.
pub open spec fn pair_table<R: Scalar>(a: Seq<R>, b: Seq<R>, t: R) -> Seq<R> {
    table(
        2,
        2,
        |p: int, q: int|
            a[p].times(b[q]).times(
                unit::<R>().minus(t.times(eigen(p)).times(eigen(q))),
            ),
    )
}

/// The pair of two product sites under `1 - t Z Z`.
pub fn couple_pair<R: Scalar>(a: &Vec<R>, b: &Vec<R>, t: R) -> (m: Vec<R>)
    requires
        a@.len() == 2,
        b@.len() == 2,
    ensures
        m@ == pair_table(a@, b@, t),
        m@.len() == 4,
{
    let mut m: Vec<R> = Vec::with_capacity(4);
    let ghost goal = pair_table(a@, b@, t);
    let mut x: usize = 0;
    while x < 4
        invariant
            a@.len() == 2,
            b@.len() == 2,
            goal == pair_table(a@, b@, t),
            x <= 4,
            m@ == goal.take(x as int),
        decreases 4 - x,
    {
        let p: usize = x / 2;
        let q: usize = x % 2;
        let factor: R = one::<R>().difference(t.product(eigenvalue(p)).product(eigenvalue(q)));
        m.push(a[p].product(b[q]).product(factor));
        x = x + 1;
        assert(m@ =~= goal.take(x as int));
    }
    assert(m@ =~= goal);
    m
}

} // verus!
