//! Row-major matrices in flat vectors.
use vstd::arithmetic::div_mod::lemma_fundamental_div_mod_converse;
use vstd::prelude::*;

verus! {

/// Entry `(i, j)` of a matrix with `cols` columns.
pub open spec fn entry<R>(a: Seq<R>, cols: int, i: int, j: int) -> R {
    a[i * cols + j]
}

/// The matrix whose entry `(i, j)` is `f(i, j)`.
pub open spec fn table<R>(rows: nat, cols: nat, f: spec_fn(int, int) -> R) -> Seq<R> {
    Seq::new(rows * cols, |x: int| f(x / cols as int, x % cols as int))
}

/// Entry `(i, j)` lies inside a matrix of `rows` by `cols`.
pub proof fn lemma_inside(rows: int, cols: int, i: int, j: int)
    requires
        0 <= i < rows,
        0 <= j < cols,
    ensures
        0 <= i * cols + j < rows * cols,
        i * cols + j < (i + 1) * cols <= rows * cols,
        0 <= i * cols,
{
    assert((i + 1) * cols == i * cols + cols) by (nonlinear_arith);
    assert((i + 1) * cols <= rows * cols) by (nonlinear_arith)
        requires
            i + 1 <= rows,
            0 <= cols,
    ;
    assert(0 <= i * cols) by (nonlinear_arith)
        requires
            0 <= i,
            0 <= cols,
    ;
}

/// A flat index inside a matrix names one entry of it.
pub proof fn lemma_split(rows: int, cols: int, x: int)
    requires
        0 <= x < rows * cols,
        0 <= cols,
    ensures
        cols > 0,
        0 <= x / cols < rows,
        0 <= x % cols < cols,
        x == (x / cols) * cols + x % cols,
{
    if cols == 0 {
        assert(rows * cols == 0) by (nonlinear_arith)
            requires
                cols == 0,
        ;
    }
    assert(x == cols * (x / cols) + x % cols && 0 <= x % cols < cols) by (nonlinear_arith)
        requires
            cols > 0,
    ;
    assert(cols * (x / cols) == (x / cols) * cols) by (nonlinear_arith);
    assert(0 <= x / cols < rows) by (nonlinear_arith)
        requires
            0 <= x < rows * cols,
            cols > 0,
            x == (x / cols) * cols + x % cols,
            0 <= x % cols < cols,
    ;
}

/// The row and column of entry `(i, j)`.
pub proof fn lemma_place(cols: int, i: int, j: int)
    requires
        0 <= j < cols,
    ensures
        (i * cols + j) / cols == i,
        (i * cols + j) % cols == j,
{
    assert(i * cols == cols * i) by (nonlinear_arith);
    lemma_fundamental_div_mod_converse(i * cols + j, cols, i, j);
}

/// Entry `(i, j)` of a table.
pub proof fn lemma_table<R>(rows: nat, cols: nat, f: spec_fn(int, int) -> R, i: int, j: int)
    requires
        0 <= i < rows,
        0 <= j < cols,
    ensures
        entry(table(rows, cols, f), cols as int, i, j) == f(i, j),
        0 <= i * cols + j < rows * cols,
{
    lemma_inside(rows as int, cols as int, i, j);
    lemma_place(cols as int, i, j);
}

/// A matrix with the entries of a table is that table.
pub proof fn lemma_is_table<R>(a: Seq<R>, rows: nat, cols: nat, f: spec_fn(int, int) -> R)
    requires
        a.len() == rows * cols,
        forall|i: int, j: int|
            0 <= i < rows && 0 <= j < cols ==> #[trigger] entry(a, cols as int, i, j) == f(i, j),
    ensures
        a == table(rows, cols, f),
{
    assert forall|x: int| 0 <= x < a.len() implies a[x] == table(rows, cols, f)[x] by {
        lemma_split(rows as int, cols as int, x);
        assert(entry(a, cols as int, x / cols as int, x % cols as int) == f(
            x / cols as int,
            x % cols as int,
        ));
    }
    assert(a =~= table(rows, cols, f));
}

/// Replacing entry `(i, j)` changes no other entry.
pub proof fn lemma_set<R>(a: Seq<R>, rows: int, cols: int, i: int, j: int, v: R)
    requires
        a.len() == rows * cols,
        0 <= i < rows,
        0 <= j < cols,
    ensures
        0 <= i * cols + j < a.len(),
        forall|p: int, q: int|
            #![trigger entry(a.update(i * cols + j, v), cols, p, q)]
            0 <= p < rows && 0 <= q < cols ==> entry(a.update(i * cols + j, v), cols, p, q)
                == if p == i && q == j {
                v
            } else {
                entry(a, cols, p, q)
            },
{
    lemma_inside(rows, cols, i, j);
    assert forall|p: int, q: int|
        #![trigger entry(a.update(i * cols + j, v), cols, p, q)]
        0 <= p < rows && 0 <= q < cols implies entry(a.update(i * cols + j, v), cols, p, q)
        == if p == i && q == j {
        v
    } else {
        entry(a, cols, p, q)
    } by {
        lemma_inside(rows, cols, p, q);
        lemma_place(cols, i, j);
        lemma_place(cols, p, q);
    }
}

/// The transposed matrix.
pub open spec fn flipped_over<R>(a: Seq<R>, rows: nat, cols: nat) -> Seq<R> {
    table(cols, rows, |i: int, j: int| entry(a, cols as int, j, i))
}

/// Transpose a matrix of `m` by `n` into one of `n` by `m`.
pub fn transpose<R: Copy>(a: &Vec<R>, m: usize, n: usize) -> (r: Vec<R>)
    requires
        a@.len() == m * n,
    ensures
        r@ == flipped_over(a@, m as nat, n as nat),
        r@.len() == n * m,
{
    let total: usize = a.len();
    assert(m * n == n * m) by (nonlinear_arith);
    let mut r: Vec<R> = Vec::with_capacity(total);
    let mut x: usize = 0;
    while x < total
        invariant
            total == a@.len(),
            total == m * n,
            total == n * m,
            x <= total,
            r@ == flipped_over(a@, m as nat, n as nat).take(x as int),
        decreases total - x,
    {
        proof {
            lemma_split(n as int, m as int, x as int);
        }
        let i: usize = x / m;
        let j: usize = x % m;
        proof {
            lemma_inside(m as int, n as int, j as int, i as int);
        }
        r.push(a[j * n + i]);
        x = x + 1;
        assert(r@ =~= flipped_over(a@, m as nat, n as nat).take(x as int));
    }
    assert(r@ =~= flipped_over(a@, m as nat, n as nat));
    r
}

/// Transposing twice gives the matrix back.
pub proof fn transposing_twice_restores<R>(a: Seq<R>, rows: nat, cols: nat)
    requires
        a.len() == rows * cols,
    ensures
        flipped_over(flipped_over(a, rows, cols), cols, rows) == a,
{
    let b = flipped_over(a, rows, cols);
    let f = |i: int, j: int| entry(b, rows as int, j, i);
    assert forall|i: int, j: int| 0 <= i < rows && 0 <= j < cols implies #[trigger] entry(
        a,
        cols as int,
        i,
        j,
    ) == f(i, j) by {
        lemma_table(cols, rows, |p: int, q: int| entry(a, cols as int, q, p), j, i);
    }
    lemma_is_table(a, rows, cols, f);
}

} // verus!
