//! Unit columns, and the completion of an orthonormal basis.
//!
//! A rank-deficient matrix leaves columns of norm 0. They are replaced by unit
//! vectors orthogonal to the others, found by trying the standard basis vectors
//! in order.
use vstd::prelude::*;

use crate::matrix::{
    entry, lemma_inside, lemma_is_table, lemma_set, lemma_split, lemma_table, table,
};
use crate::mps::jacobi::{col_dot, dot_cols};
use crate::scalar::{nil, one, pair_sum, sum_pairs, unit, zero, Scalar};

verus! {

/// Standard basis vector `e` of length `m`.
pub open spec fn axis<R: Scalar>(m: nat, e: int) -> Seq<R> {
    Seq::new(
        m,
        |i: int|
            if i == e {
                unit::<R>()
            } else {
                nil::<R>()
            },
    )
}

/// Product of column `c` with `work` over the first `k` rows.
pub open spec fn col_with<R: Scalar>(q: Seq<R>, cols: int, c: int, work: Seq<R>, k: int) -> R
    decreases k,
{
    if k <= 0 {
        nil()
    } else {
        col_with(q, cols, c, work, k - 1).plus(entry(q, cols, k - 1, c).times(work[k - 1]))
    }
}

/// `work` less its part along column `c`.
pub open spec fn without_col<R: Scalar>(q: Seq<R>, cols: int, c: int, work: Seq<R>) -> Seq<R> {
    let dot = col_with(q, cols, c, work, work.len() as int);
    Seq::new(work.len(), |i: int| work[i].minus(dot.times(entry(q, cols, i, c))))
}

/// `work` less its parts along the first `c` columns that `set` flags, but for
/// column `col`.
pub open spec fn cleared<R: Scalar>(
    q: Seq<R>,
    cols: int,
    col: int,
    set: Seq<bool>,
    work: Seq<R>,
    c: int,
) -> Seq<R>
    decreases c,
{
    if c <= 0 {
        work
    } else {
        let before = cleared(q, cols, col, set, work, c - 1);
        if c - 1 == col || !set[c - 1] {
            before
        } else {
            without_col(q, cols, c - 1, before)
        }
    }
}

/// What is left of a basis vector after two passes over the columns.
pub open spec fn candidate<R: Scalar>(
    q: Seq<R>,
    m: nat,
    cols: nat,
    col: int,
    set: Seq<bool>,
    e: int,
) -> Seq<R> {
    let first = cleared(q, cols as int, col, set, axis::<R>(m, e), cols as int);
    cleared(q, cols as int, col, set, first, cols as int)
}

/// The matrix with column `col` replaced by `work / norm`.
pub open spec fn with_col<R: Scalar>(
    q: Seq<R>,
    m: nat,
    cols: nat,
    col: int,
    work: Seq<R>,
    norm: R,
) -> Seq<R> {
    table(
        m,
        cols,
        |i: int, j: int|
            if j == col {
                work[i].over(norm)
            } else {
                entry(q, cols as int, i, j)
            },
    )
}

/// The matrix with column `col` filled by the first basis vector, from `e` on,
/// that survives the two passes; unchanged if none does.
pub open spec fn fill_from<R: Scalar>(
    q: Seq<R>,
    m: nat,
    cols: nat,
    col: int,
    set: Seq<bool>,
    e: int,
) -> Seq<R>
    decreases m - e,
{
    if e >= m {
        q
    } else {
        let work = candidate(q, m, cols, col, set, e);
        let norm = pair_sum(work, work, m as int).root();
        if R::of_milli(500).under(norm) {
            with_col(q, m, cols, col, work, norm)
        } else {
            fill_from(q, m, cols, col, set, e + 1)
        }
    }
}

/// Product of column `c` with a vector.
pub fn dot_col<R: Scalar>(q: &Vec<R>, m: usize, cols: usize, c: usize, work: &Vec<R>) -> (r: R)
    requires
        q@.len() == m * cols,
        c < cols,
        work@.len() == m,
    ensures
        r == col_with(q@, cols as int, c as int, work@, m as int),
{
    let total: usize = q.len();
    let mut r: R = zero();
    let mut i: usize = 0;
    while i < m
        invariant
            q@.len() == m * cols,
            total == m * cols,
            c < cols,
            work@.len() == m,
            i <= m,
            r == col_with(q@, cols as int, c as int, work@, i as int),
        decreases m - i,
    {
        proof {
            lemma_inside(m as int, cols as int, i as int, c as int);
        }
        r = r.sum(q[i * cols + c].product(work[i]));
        i = i + 1;
    }
    r
}

/// Take `dot` times column `c` off a vector.
pub fn remove_col<R: Scalar>(q: &Vec<R>, m: usize, cols: usize, c: usize, dot: R, work: &mut Vec<R>)
    requires
        q@.len() == m * cols,
        c < cols,
        old(work)@.len() == m,
    ensures
        final(work)@ == Seq::new(
            m as nat,
            |i: int| old(work)@[i].minus(dot.times(entry(q@, cols as int, i, c as int))),
        ),
{
    let total: usize = q.len();
    let ghost before = work@;
    let mut i: usize = 0;
    while i < m
        invariant
            q@.len() == m * cols,
            total == m * cols,
            c < cols,
            work@.len() == m,
            before.len() == m,
            i <= m,
            forall|k: int|
                0 <= k < i ==> #[trigger] work@[k] == before[k].minus(
                    dot.times(entry(q@, cols as int, k, c as int)),
                ),
            forall|k: int| i <= k < m ==> #[trigger] work@[k] == before[k],
        decreases m - i,
    {
        proof {
            lemma_inside(m as int, cols as int, i as int, c as int);
        }
        work.set(i, work[i].difference(dot.product(q[i * cols + c])));
        i = i + 1;
    }
    assert(work@ =~= Seq::new(
        m as nat,
        |i: int| before[i].minus(dot.times(entry(q@, cols as int, i, c as int))),
    ));
}

/// Clear a vector of its parts along the flagged columns.
fn clear_cols<R: Scalar>(
    q: &Vec<R>,
    m: usize,
    cols: usize,
    col: usize,
    set: &Vec<bool>,
    work: &mut Vec<R>,
)
    requires
        q@.len() == m * cols,
        set@.len() == cols,
        old(work)@.len() == m,
    ensures
        final(work)@ == cleared(q@, cols as int, col as int, set@, old(work)@, cols as int),
        final(work)@.len() == m,
{
    let ghost before = work@;
    let mut c: usize = 0;
    while c < cols
        invariant
            q@.len() == m * cols,
            set@.len() == cols,
            work@.len() == m,
            c <= cols,
            work@ == cleared(q@, cols as int, col as int, set@, before, c as int),
        decreases cols - c,
    {
        if c != col && set[c] {
            let dot: R = dot_col(q, m, cols, c, work);
            let ghost mid = work@;
            remove_col(q, m, cols, c, dot, work);
            assert(work@ =~= without_col(q@, cols as int, c as int, mid));
        }
        c = c + 1;
    }
}

/// Replace column `col` by `work / norm`.
pub fn set_col<R: Scalar>(
    q: &mut Vec<R>,
    m: usize,
    cols: usize,
    col: usize,
    work: &Vec<R>,
    norm: R,
)
    requires
        old(q)@.len() == m * cols,
        col < cols,
        work@.len() == m,
    ensures
        final(q)@ == with_col(old(q)@, m as nat, cols as nat, col as int, work@, norm),
        final(q)@.len() == m * cols,
{
    let total: usize = q.len();
    let ghost q0 = q@;
    let ghost f = |i: int, j: int|
        if j == col {
            work@[i].over(norm)
        } else {
            entry(q0, cols as int, i, j)
        };
    let mut i: usize = 0;
    while i < m
        invariant
            total == m * cols,
            q@.len() == m * cols,
            q0.len() == m * cols,
            col < cols,
            work@.len() == m,
            i <= m,
            f == (|i: int, j: int|
                if j == col {
                    work@[i].over(norm)
                } else {
                    entry(q0, cols as int, i, j)
                }),
            forall|a: int, b: int|
                0 <= a < m && 0 <= b < cols ==> #[trigger] entry(q@, cols as int, a, b) == if a
                    < i {
                    f(a, b)
                } else {
                    entry(q0, cols as int, a, b)
                },
        decreases m - i,
    {
        let value: R = work[i].quotient(norm);
        proof {
            lemma_set(q@, m as int, cols as int, i as int, col as int, value);
            lemma_inside(m as int, cols as int, i as int, col as int);
        }
        q.set(i * cols + col, value);
        i = i + 1;
    }
    proof {
        lemma_is_table(q@, m as nat, cols as nat, f);
    }
}

/// Fill column `col` with a unit vector orthogonal to every flagged column: the
/// first standard basis vector that survives two passes of Gram-Schmidt. With
/// none left the column stays as it is.
pub fn orthonormal_fill<R: Scalar>(
    q: &mut Vec<R>,
    m: usize,
    cols: usize,
    col: usize,
    set: &Vec<bool>,
)
    requires
        old(q)@.len() == m * cols,
        col < cols,
        set@.len() == cols,
    ensures
        final(q)@ == fill_from(old(q)@, m as nat, cols as nat, col as int, set@, 0),
        final(q)@.len() == m * cols,
{
    let ghost q0 = q@;
    let ghost goal = fill_from(q0, m as nat, cols as nat, col as int, set@, 0);
    let half: R = R::from_milli(500);
    let mut e: usize = 0;
    while e < m
        invariant
            q@ == q0,
            q0 == old(q)@,
            q@.len() == m * cols,
            col < cols,
            set@.len() == cols,
            half == R::of_milli(500),
            e <= m,
            goal == fill_from(q0, m as nat, cols as nat, col as int, set@, 0),
            goal == fill_from(q0, m as nat, cols as nat, col as int, set@, e as int),
        decreases m - e,
    {
        let mut work: Vec<R> = Vec::with_capacity(m);
        while work.len() < m
            invariant
                work@.len() <= m,
                forall|i: int|
                    0 <= i < work@.len() ==> #[trigger] work@[i] == axis::<R>(m as nat, e as int)[i],
            decreases m - work@.len(),
        {
            let value: R = if work.len() == e {
                one()
            } else {
                zero()
            };
            work.push(value);
        }
        assert(work@ =~= axis::<R>(m as nat, e as int));
        clear_cols(q, m, cols, col, set, &mut work);
        clear_cols(q, m, cols, col, set, &mut work);
        let norm: R = sum_pairs(&work, &work).square_root();
        if half.less(norm) {
            set_col(q, m, cols, col, &work, norm);
            return;
        }
        e = e + 1;
    }
}

/// The matrix and the flags once every unflagged one of the first `j` columns
/// is filled.
pub open spec fn completed<R: Scalar>(
    u: Seq<R>,
    set: Seq<bool>,
    m: nat,
    cols: nat,
    j: int,
) -> (Seq<R>, Seq<bool>)
    decreases j,
{
    if j <= 0 {
        (u, set)
    } else {
        let before = completed(u, set, m, cols, j - 1);
        if before.1[j - 1] {
            before
        } else {
            (
                fill_from(before.0, m, cols, j - 1, before.1, 0),
                before.1.update(j - 1, true),
            )
        }
    }
}

proof fn lemma_fill_keeps<R: Scalar>(
    q: Seq<R>,
    m: nat,
    cols: nat,
    col: int,
    set: Seq<bool>,
    e: int,
    i: int,
    c: int,
)
    requires
        0 <= i < m,
        0 <= c < cols,
        c != col,
    ensures
        entry(fill_from(q, m, cols, col, set, e), cols as int, i, c) == entry(
            q,
            cols as int,
            i,
            c,
        ),
    decreases m - e,
{
    if e < m {
        let work = candidate(q, m, cols, col, set, e);
        let norm = pair_sum(work, work, m as int).root();
        if R::of_milli(500).under(norm) {
            lemma_table(
                m,
                cols,
                |p: int, j: int|
                    if j == col {
                        work[p].over(norm)
                    } else {
                        entry(q, cols as int, p, j)
                    },
                i,
                c,
            );
        } else {
            lemma_fill_keeps(q, m, cols, col, set, e + 1, i, c);
        }
    }
}

/// A flagged column stays as it is.
pub proof fn lemma_completed_keeps<R: Scalar>(
    u: Seq<R>,
    set: Seq<bool>,
    m: nat,
    cols: nat,
    j: int,
    i: int,
    c: int,
)
    requires
        0 <= i < m,
        0 <= c < cols,
        0 <= j <= cols,
        set.len() == cols,
        set[c],
    ensures
        entry(completed(u, set, m, cols, j).0, cols as int, i, c) == entry(u, cols as int, i, c),
        completed(u, set, m, cols, j).1.len() == cols,
        completed(u, set, m, cols, j).1[c],
    decreases j,
{
    if j > 0 {
        lemma_completed_keeps(u, set, m, cols, j - 1, i, c);
        let before = completed(u, set, m, cols, j - 1);
        if !before.1[j - 1] {
            lemma_fill_keeps(before.0, m, cols, j - 1, before.1, 0, i, c);
        }
    }
}

/// Fill every unflagged column.
pub fn complete<R: Scalar>(u: &mut Vec<R>, set: &mut Vec<bool>, m: usize, cols: usize)
    requires
        old(u)@.len() == m * cols,
        old(set)@.len() == cols,
    ensures
        (final(u)@, final(set)@) == completed(
            old(u)@,
            old(set)@,
            m as nat,
            cols as nat,
            cols as int,
        ),
        final(u)@.len() == m * cols,
{
    let ghost u0 = u@;
    let ghost s0 = set@;
    let mut j: usize = 0;
    while j < cols
        invariant
            u@.len() == m * cols,
            set@.len() == cols,
            j <= cols,
            (u@, set@) == completed(u0, s0, m as nat, cols as nat, j as int),
        decreases cols - j,
    {
        if !set[j] {
            orthonormal_fill(u, m, cols, j, set);
            set.set(j, true);
        }
        j = j + 1;
    }
}

/// The norms of the columns.
pub open spec fn norms<R: Scalar>(w: Seq<R>, m: nat, n: nat) -> Seq<R> {
    Seq::new(n, |j: int| col_dot(w, n as int, j, j, m as int).root())
}

/// The columns scaled to norm 1; a column of norm 0 becomes 0.
pub open spec fn unit_cols<R: Scalar>(w: Seq<R>, m: nat, n: nat) -> Seq<R> {
    table(
        m,
        n,
        |i: int, j: int|
            if nil::<R>().under(norms(w, m, n)[j]) {
                entry(w, n as int, i, j).over(norms(w, m, n)[j])
            } else {
                nil::<R>()
            },
    )
}

/// Which columns have a norm above 0.
pub open spec fn has_norm<R: Scalar>(w: Seq<R>, m: nat, n: nat) -> Seq<bool> {
    Seq::new(n, |j: int| nil::<R>().under(norms(w, m, n)[j]))
}

/// Split a matrix into unit columns and their norms, completing the basis for
/// any column whose norm is 0.
pub fn split_norms<R: Scalar>(w: &Vec<R>, rows: usize, cols: usize) -> (r: (Vec<R>, Vec<R>))
    requires
        w@.len() == rows * cols,
    ensures
        r.0@ == completed(
            unit_cols(w@, rows as nat, cols as nat),
            has_norm(w@, rows as nat, cols as nat),
            rows as nat,
            cols as nat,
            cols as int,
        ).0,
        r.0@.len() == rows * cols,
        r.1@ == norms(w@, rows as nat, cols as nat),
{
    let total: usize = w.len();
    let mut s: Vec<R> = Vec::with_capacity(cols);
    let mut set: Vec<bool> = Vec::with_capacity(cols);
    let mut j: usize = 0;
    while j < cols
        invariant
            w@.len() == rows * cols,
            j <= cols,
            s@.len() == j,
            set@.len() == j,
            forall|k: int|
                0 <= k < j ==> #[trigger] s@[k] == norms(w@, rows as nat, cols as nat)[k],
            forall|k: int|
                0 <= k < j ==> #[trigger] set@[k] == has_norm(w@, rows as nat, cols as nat)[k],
        decreases cols - j,
    {
        let (square, _, _) = dot_cols(w, rows, cols, j, j);
        let sigma: R = square.square_root();
        set.push(zero::<R>().less(sigma));
        s.push(sigma);
        j = j + 1;
    }
    assert(s@ =~= norms(w@, rows as nat, cols as nat));
    assert(set@ =~= has_norm(w@, rows as nat, cols as nat));
    let ghost goal = unit_cols(w@, rows as nat, cols as nat);
    let mut u: Vec<R> = Vec::with_capacity(total);
    let mut x: usize = 0;
    while x < total
        invariant
            total == w@.len(),
            total == rows * cols,
            s@ == norms(w@, rows as nat, cols as nat),
            set@ == has_norm(w@, rows as nat, cols as nat),
            goal == unit_cols(w@, rows as nat, cols as nat),
            x <= total,
            u@ == goal.take(x as int),
        decreases total - x,
    {
        proof {
            lemma_split(rows as int, cols as int, x as int);
        }
        let c: usize = x % cols;
        let value: R = if set[c] {
            w[x].quotient(s[c])
        } else {
            zero()
        };
        u.push(value);
        proof {
            assert(goal[x as int] == value);
        }
        x = x + 1;
        assert(u@ =~= goal.take(x as int));
    }
    assert(u@ =~= goal);
    complete(&mut u, &mut set, rows, cols);
    (u, s)
}

} // verus!
