//! Site tensors of a network.
//!
//! A tensor has a physical index, slowest, and one index per bond in adjacency
//! order, row-major. Around bond `b` it is a block of `left` by `dims[b]` by
//! `stride`: the indices before the bond, the bond, and those after it.
use vstd::prelude::*;

use crate::matrix::{lemma_inside, lemma_place, lemma_split, table};
use crate::scalar::{
    absolute, distance, is_ordinary, nil, one, ordinary, unit, zero, Scalar,
};

verus! {

/// Product of the dimensions from `i` up to `j`.
pub open spec fn prod(dims: Seq<nat>, i: int, j: int) -> nat
    decreases j - i,
{
    if i >= j {
        1
    } else {
        dims[i] * prod(dims, i + 1, j)
    }
}

/// Every dimension is at least 1.
pub open spec fn dims_ok(dims: Seq<nat>) -> bool {
    forall|b: int| 0 <= b < dims.len() ==> #[trigger] dims[b] >= 1
}

pub proof fn lemma_prod_split(dims: Seq<nat>, i: int, b: int, j: int)
    requires
        i <= b <= j,
    ensures
        prod(dims, i, j) == prod(dims, i, b) * prod(dims, b, j),
    decreases b - i,
{
    if i < b {
        lemma_prod_split(dims, i + 1, b, j);
        assert(dims[i] * (prod(dims, i + 1, b) * prod(dims, b, j)) == (dims[i] * prod(
            dims,
            i + 1,
            b,
        )) * prod(dims, b, j)) by (nonlinear_arith);
    } else {
        assert(1 * prod(dims, b, j) == prod(dims, b, j)) by (nonlinear_arith);
    }
}

pub proof fn lemma_prod_positive(dims: Seq<nat>, i: int, j: int)
    requires
        dims_ok(dims),
        0 <= i,
        j <= dims.len(),
    ensures
        prod(dims, i, j) >= 1,
    decreases j - i,
{
    if i < j {
        lemma_prod_positive(dims, i + 1, j);
        assert(dims[i] >= 1);
        assert(dims[i] * prod(dims, i + 1, j) >= 1) by (nonlinear_arith)
            requires
                dims[i] >= 1,
                prod(dims, i + 1, j) >= 1,
        ;
    }
}

pub proof fn lemma_prod_same(a: Seq<nat>, b: Seq<nat>, i: int, j: int)
    requires
        forall|t: int| i <= t < j ==> a[t] == b[t],
    ensures
        prod(a, i, j) == prod(b, i, j),
    decreases j - i,
{
    if i < j {
        lemma_prod_same(a, b, i + 1, j);
    }
}

/// A site tensor.
pub struct SiteTensor<R> {
    /// Physical dimension: 2, or 1 once the spin is fixed.
    pub phys: usize,
    /// Bond dimensions in adjacency order.
    pub dims: Vec<usize>,
    /// The entries.
    pub data: Vec<R>,
}

/// A tensor.
#[verifier::ext_equal]
pub struct Tensor<R> {
    /// Physical dimension.
    pub phys: nat,
    /// Bond dimensions.
    pub dims: Seq<nat>,
    /// The entries.
    pub data: Seq<R>,
}

impl<R> View for SiteTensor<R> {
    type V = Tensor<R>;

    open spec fn view(&self) -> Tensor<R> {
        Tensor {
            phys: self.phys as nat,
            dims: Seq::new(self.dims@.len(), |b: int| self.dims@[b] as nat),
            data: self.data@,
        }
    }
}

/// Product of all bond dimensions.
pub open spec fn bonds_total<R>(t: Tensor<R>) -> nat {
    prod(t.dims, 0, t.dims.len() as int)
}

/// The entries are as many as the dimensions say.
pub open spec fn tensor_wf<R>(t: Tensor<R>) -> bool {
    t.phys >= 1 && dims_ok(t.dims) && t.data.len() == t.phys * bonds_total(t)
}

/// Entries per step of bond `b`.
pub open spec fn stride_of<R>(t: Tensor<R>, b: int) -> nat {
    prod(t.dims, b + 1, t.dims.len() as int)
}

/// Blocks before bond `b`.
pub open spec fn left_of<R>(t: Tensor<R>, b: int) -> nat {
    t.phys * prod(t.dims, 0, b)
}

/// The entries split around bond `b`.
pub proof fn lemma_shape<R>(t: Tensor<R>, b: int)
    requires
        tensor_wf(t),
        0 <= b < t.dims.len(),
    ensures
        t.data.len() == (left_of(t, b) * t.dims[b]) * stride_of(t, b),
        t.data.len() == (left_of(t, b) * stride_of(t, b)) * t.dims[b],
        left_of(t, b) >= 1,
        stride_of(t, b) >= 1,
        t.dims[b] >= 1,
        left_of(t, b) * stride_of(t, b) <= t.data.len(),
        stride_of(t, b) <= t.data.len(),
        left_of(t, b) <= t.data.len(),
        t.dims[b] <= t.data.len(),
{
    let n = t.dims.len() as int;
    let (p, h, k, s) = (t.phys, prod(t.dims, 0, b), t.dims[b], stride_of(t, b));
    lemma_prod_split(t.dims, 0, b, n);
    lemma_prod_positive(t.dims, 0, b);
    lemma_prod_positive(t.dims, b + 1, n);
    assert(prod(t.dims, b, n) == k * s);
    assert(p * (h * (k * s)) == ((p * h) * k) * s) by (nonlinear_arith);
    assert(((p * h) * k) * s == ((p * h) * s) * k) by (nonlinear_arith);
    assert(k >= 1);
    assert(p * h >= 1) by (nonlinear_arith)
        requires
            p >= 1,
            h >= 1,
    ;
    let l = p * h;
    assert(l * s <= (l * s) * k && s <= l * s && l <= l * s && k <= (l * s) * k)
        by (nonlinear_arith)
        requires
            l >= 1,
            s >= 1,
            k >= 1,
    ;
}

/// A tensor with bond `b` scaled coordinate by coordinate.
pub open spec fn scaled_bond<R: Scalar>(t: Tensor<R>, b: int, w: Seq<R>) -> Tensor<R> {
    Tensor {
        phys: t.phys,
        dims: t.dims,
        data: Seq::new(
            t.data.len(),
            |x: int|
                t.data[x].times(w[(x / stride_of(t, b) as int) % t.dims[b] as int]),
        ),
    }
}

/// A tensor as a matrix with bond `b` as its columns.
pub open spec fn matricized<R>(t: Tensor<R>, b: int) -> Seq<R> {
    let (k, s) = (t.dims[b] as int, stride_of(t, b) as int);
    table(
        left_of(t, b) * stride_of(t, b),
        t.dims[b],
        |row: int, c: int| t.data[((row / s) * k + c) * s + row % s],
    )
}

/// A tensor with the entries of matrix `m`, its bond `b` of dimension `k`.
pub open spec fn dematricized<R>(t: Tensor<R>, b: int, m: Seq<R>, k: nat) -> Tensor<R> {
    let s = stride_of(t, b) as int;
    Tensor {
        phys: t.phys,
        dims: t.dims.update(b, k),
        data: Seq::new(
            (left_of(t, b) * k) * stride_of(t, b),
            |x: int|
                m[(((x / s) / k as int) * s + x % s) * k + (x / s) % k as int],
        ),
    }
}

/// Laying a matrix out again undoes taking it apart.
pub proof fn dematricizing_restores<R>(t: Tensor<R>, b: int)
    requires
        tensor_wf(t),
        0 <= b < t.dims.len(),
    ensures
        dematricized(t, b, matricized(t, b), t.dims[b]) == t,
{
    lemma_shape(t, b);
    let (l, k, s) = (left_of(t, b) as int, t.dims[b] as int, stride_of(t, b) as int);
    let m = matricized(t, b);
    let d = dematricized(t, b, m, t.dims[b]);
    assert(d.dims =~= t.dims);
    assert forall|x: int| 0 <= x < t.data.len() implies d.data[x] == t.data[x] by {
        lemma_split(l * k, s, x);
        let y = x / s;
        lemma_split(l, k, y);
        let row = (y / k) * s + x % s;
        lemma_inside(l, s, y / k, x % s);
        lemma_inside(l * s, k, row, y % k);
        lemma_place(k, row, y % k);
        lemma_place(s, y / k, x % s);
        assert((l * s) * k == (left_of(t, b) * stride_of(t, b)) * t.dims[b]);
        assert(m[row * k + y % k] == t.data[((row / s) * k + y % k) * s + row % s]);
    }
    assert(d.data =~= t.data);
}

/// A tensor with its physical index transformed by a 2 by 2 matrix.
pub open spec fn phys_mixed<R: Scalar>(t: Tensor<R>, g: (R, R, R, R)) -> Tensor<R> {
    let bt = bonds_total(t) as int;
    Tensor {
        phys: t.phys,
        dims: t.dims,
        data: Seq::new(
            t.data.len(),
            |x: int|
                if x < bt {
                    g.0.times(t.data[x]).plus(g.1.times(t.data[bt + x]))
                } else {
                    g.2.times(t.data[x - bt]).plus(g.3.times(t.data[x]))
                },
        ),
    }
}

/// A tensor with each physical value scaled.
pub open spec fn phys_scaled<R: Scalar>(t: Tensor<R>, w: (R, R)) -> Tensor<R> {
    let bt = bonds_total(t) as int;
    Tensor {
        phys: t.phys,
        dims: t.dims,
        data: Seq::new(
            t.data.len(),
            |x: int|
                t.data[x].times(
                    if x < bt {
                        w.0
                    } else {
                        w.1
                    },
                ),
        ),
    }
}

/// The largest magnitude among the first `k` entries.
pub open spec fn largest<R: Scalar>(data: Seq<R>, k: int) -> R
    decreases k,
{
    if k <= 0 {
        nil()
    } else {
        let before = largest(data, k - 1);
        if before.under(distance(data[k - 1])) {
            distance(data[k - 1])
        } else {
            before
        }
    }
}

/// Entries that are not ordinary replaced by 0.
pub open spec fn scrubbed<R: Scalar>(data: Seq<R>) -> Seq<R> {
    Seq::new(
        data.len(),
        |x: int|
            if ordinary(data[x]) {
                data[x]
            } else {
                nil::<R>()
            },
    )
}

/// Entries scaled so that the largest magnitude is 1; all 1 where every entry is
/// lost.
pub open spec fn renormalized<R: Scalar>(data: Seq<R>) -> Seq<R> {
    let clean = scrubbed(data);
    let top = largest(clean, clean.len() as int);
    if nil::<R>().under(top) {
        Seq::new(clean.len(), |x: int| clean[x].over(top))
    } else {
        Seq::new(clean.len(), |x: int| unit::<R>())
    }
}

/// A tensor with its entries rescaled.
pub open spec fn rescaled<R: Scalar>(t: Tensor<R>) -> Tensor<R> {
    Tensor { phys: t.phys, dims: t.dims, data: renormalized(t.data) }
}

/// Half of a site in the uniform superposition: every bond 1.
pub open spec fn plus_tensor<R: Scalar>(degree: nat) -> Tensor<R> {
    Tensor {
        phys: 2,
        dims: Seq::new(degree, |b: int| 1nat),
        data: seq![R::of_milli(500).root(), R::of_milli(500).root()],
    }
}

proof fn lemma_ones(dims: Seq<nat>, i: int, j: int)
    requires
        forall|b: int| 0 <= b < dims.len() ==> #[trigger] dims[b] == 1,
        0 <= i,
        j <= dims.len(),
    ensures
        prod(dims, i, j) == 1,
    decreases j - i,
{
    if i < j {
        lemma_ones(dims, i + 1, j);
    }
}

impl<R: Scalar> SiteTensor<R> {
    /// The uniform superposition with every bond at dimension 1.
    pub fn plus(degree: usize) -> (t: Self)
        ensures
            t@ == plus_tensor::<R>(degree as nat),
            tensor_wf(t@),
    {
        let amp: R = R::from_milli(500).square_root();
        let mut data: Vec<R> = Vec::with_capacity(2);
        data.push(amp);
        data.push(amp);
        let t = SiteTensor { phys: 2, dims: vec![1usize; degree], data };
        proof {
            assert(t@.data =~= plus_tensor::<R>(degree as nat).data);
            assert(t@.dims =~= plus_tensor::<R>(degree as nat).dims);
            lemma_ones(t@.dims, 0, t@.dims.len() as int);
        }
        t
    }

    /// Product of the dimensions from `i` up to `j`.
    fn product_between(&self, i: usize, j: usize) -> (r: usize)
        requires
            dims_ok(self@.dims),
            i <= j <= self@.dims.len(),
            prod(self@.dims, i as int, j as int) <= usize::MAX,
        ensures
            r == prod(self@.dims, i as int, j as int),
    {
        let ghost dims = self@.dims;
        let mut r: usize = 1;
        let mut b: usize = j;
        while b > i
            invariant
                dims == self@.dims,
                dims_ok(dims),
                i <= b <= j <= dims.len(),
                prod(dims, i as int, j as int) <= usize::MAX,
                r == prod(dims, b as int, j as int),
            decreases b - i,
        {
            proof {
                lemma_prod_split(dims, i as int, b - 1, j as int);
                lemma_prod_positive(dims, i as int, b - 1);
                let whole = prod(dims, i as int, b - 1);
                let part = prod(dims, b - 1, j as int);
                assert(part <= whole * part) by (nonlinear_arith)
                    requires
                        whole >= 1,
                        part >= 0,
                ;
                assert(dims[b - 1] == self.dims@[b - 1]);
            }
            r = self.dims[b - 1] * r;
            b = b - 1;
        }
        r
    }

    /// Product of the bond dimensions.
    pub fn bond_total(&self) -> (r: usize)
        requires
            tensor_wf(self@),
        ensures
            r == bonds_total(self@),
    {
        let total: usize = self.data.len();
        proof {
            let bt = bonds_total(self@);
            assert(bt <= self@.phys * bt) by (nonlinear_arith)
                requires
                    self@.phys >= 1,
                    bt >= 0,
            ;
        }
        self.product_between(0, self.dims.len())
    }

    /// Blocks before bond `b`, its dimension, and entries per step of it.
    fn shape(&self, b: usize) -> (r: (usize, usize, usize))
        requires
            tensor_wf(self@),
            b < self@.dims.len(),
        ensures
            r.0 == left_of(self@, b as int),
            r.1 == self@.dims[b as int],
            r.2 == stride_of(self@, b as int),
    {
        let total: usize = self.data.len();
        proof {
            lemma_shape(self@, b as int);
            let h = prod(self@.dims, 0, b as int);
            assert(h <= self@.phys * h) by (nonlinear_arith)
                requires
                    self@.phys >= 1,
                    h >= 0,
            ;
        }
        let n: usize = self.dims.len();
        let stride: usize = self.product_between(b + 1, n);
        let before: usize = self.product_between(0, b);
        (self.phys * before, self.dims[b], stride)
    }

    /// Multiply each physical value by its weight. Only while there are two.
    pub fn scale_phys(&mut self, w: (R, R))
        requires
            tensor_wf(old(self)@),
        ensures
            final(self)@ == phys_scaled(old(self)@, w),
            tensor_wf(final(self)@),
    {
        let bt: usize = self.bond_total();
        let ghost before = self@;
        let ghost goal = phys_scaled(before, w);
        let mut x: usize = 0;
        while x < self.data.len()
            invariant
                bt == bonds_total(before),
                goal == phys_scaled(before, w),
                self@.phys == before.phys,
                self@.dims == before.dims,
                self.data@.len() == before.data.len(),
                x <= self.data@.len(),
                forall|i: int| 0 <= i < x ==> #[trigger] self.data@[i] == goal.data[i],
                forall|i: int| x <= i < self.data@.len() ==> #[trigger] self.data@[i]
                    == before.data[i],
            decreases self.data@.len() - x,
        {
            let weight: R = if x < bt {
                w.0
            } else {
                w.1
            };
            let value: R = self.data[x].product(weight);
            self.data.set(x, value);
            assert(self@.dims =~= before.dims);
            x = x + 1;
        }
        assert(self@ =~= goal) by {
            assert(self@.data =~= goal.data);
        }
    }

    /// Apply a 2 by 2 matrix to the physical index.
    pub fn apply_phys_matrix(&mut self, g: (R, R, R, R))
        requires
            tensor_wf(old(self)@),
            old(self)@.phys == 2,
        ensures
            final(self)@ == phys_mixed(old(self)@, g),
            tensor_wf(final(self)@),
    {
        let bt: usize = self.bond_total();
        let total: usize = self.data.len();
        let ghost before = self@;
        let ghost goal = phys_mixed(before, g);
        let mut k: usize = 0;
        while k < bt
            invariant
                bt == bonds_total(before),
                before.data.len() == 2 * bt,
                2 * bt <= usize::MAX,
                goal == phys_mixed(before, g),
                self@.phys == before.phys,
                self@.dims == before.dims,
                self.data@.len() == before.data.len(),
                k <= bt,
                forall|i: int| 0 <= i < k ==> #[trigger] self.data@[i] == goal.data[i],
                forall|i: int| bt <= i < bt + k ==> #[trigger] self.data@[i] == goal.data[i],
                forall|i: int| k <= i < bt ==> #[trigger] self.data@[i] == before.data[i],
                forall|i: int| bt + k <= i < 2 * bt ==> #[trigger] self.data@[i]
                    == before.data[i],
            decreases bt - k,
        {
            let a: R = self.data[k];
            let b: R = self.data[bt + k];
            self.data.set(k, g.0.product(a).sum(g.1.product(b)));
            self.data.set(bt + k, g.2.product(a).sum(g.3.product(b)));
            assert(self@.dims =~= before.dims);
            k = k + 1;
        }
        assert(self@ =~= goal) by {
            assert(self@.data =~= goal.data);
        }
    }

    /// Multiply along bond `b` by a weight per coordinate.
    pub fn scale_bond(&mut self, b: usize, w: &Vec<R>)
        requires
            tensor_wf(old(self)@),
            b < old(self)@.dims.len(),
            w@.len() == old(self)@.dims[b as int],
        ensures
            final(self)@ == scaled_bond(old(self)@, b as int, w@),
            tensor_wf(final(self)@),
    {
        let (left, k, stride) = self.shape(b);
        let ghost before = self@;
        let ghost goal = scaled_bond(before, b as int, w@);
        proof {
            lemma_shape(before, b as int);
        }
        let mut x: usize = 0;
        while x < self.data.len()
            invariant
                k == before.dims[b as int],
                stride == stride_of(before, b as int),
                k >= 1,
                stride >= 1,
                w@.len() == k,
                goal == scaled_bond(before, b as int, w@),
                self@.phys == before.phys,
                self@.dims == before.dims,
                self.data@.len() == before.data.len(),
                x <= self.data@.len(),
                forall|i: int| 0 <= i < x ==> #[trigger] self.data@[i] == goal.data[i],
                forall|i: int| x <= i < self.data@.len() ==> #[trigger] self.data@[i]
                    == before.data[i],
            decreases self.data@.len() - x,
        {
            let c: usize = (x / stride) % k;
            let value: R = self.data[x].product(w[c]);
            self.data.set(x, value);
            assert(self@.dims =~= before.dims);
            x = x + 1;
        }
        assert(self@ =~= goal) by {
            assert(self@.data =~= goal.data);
        }
    }

    /// The matrix with bond `b` as its columns, its rows and its columns.
    pub fn matricize(&self, b: usize) -> (r: (Vec<R>, usize, usize))
        requires
            tensor_wf(self@),
            b < self@.dims.len(),
        ensures
            r.0@ == matricized(self@, b as int),
            r.1 == left_of(self@, b as int) * stride_of(self@, b as int),
            r.2 == self@.dims[b as int],
            r.0@.len() == r.1 * r.2,
            r.1 >= 1,
            r.2 >= 1,
    {
        let total: usize = self.data.len();
        let (left, k, stride) = self.shape(b);
        let ghost t = self@;
        proof {
            lemma_shape(t, b as int);
            assert(left * k <= (left * k) * stride && left * stride >= 1) by (nonlinear_arith)
                requires
                    left >= 1,
                    stride >= 1,
                    k >= 1,
            ;
        }
        let rows: usize = left * stride;
        let ghost goal = matricized(t, b as int);
        let mut m: Vec<R> = Vec::with_capacity(total);
        let mut x: usize = 0;
        while x < total
            invariant
                t == self@,
                total == self.data@.len(),
                total == rows * k,
                total == (left * k) * stride,
                rows == left * stride,
                left * k <= total,
                k == t.dims[b as int],
                left == left_of(t, b as int),
                stride == stride_of(t, b as int),
                stride >= 1,
                k >= 1,
                goal == matricized(t, b as int),
                x <= total,
                m@ == goal.take(x as int),
            decreases total - x,
        {
            proof {
                lemma_split(rows as int, k as int, x as int);
                lemma_split(left as int, stride as int, x as int / k as int);
                lemma_inside(
                    left as int,
                    k as int,
                    (x as int / k as int) / stride as int,
                    x as int % k as int,
                );
                lemma_inside(
                    left * k,
                    stride as int,
                    ((x as int / k as int) / stride as int) * k + x as int % k as int,
                    (x as int / k as int) % stride as int,
                );
            }
            let row: usize = x / k;
            let c: usize = x % k;
            m.push(self.data[((row / stride) * k + c) * stride + row % stride]);
            x = x + 1;
            assert(m@ =~= goal.take(x as int));
        }
        assert(m@ =~= goal);
        (m, rows, k)
    }

    /// Install a matrix as the new entries, bond `b` of dimension `k`.
    pub fn dematricize(&mut self, b: usize, m: &Vec<R>, k: usize)
        requires
            tensor_wf(old(self)@),
            b < old(self)@.dims.len(),
            k >= 1,
            m@.len() == (left_of(old(self)@, b as int) * stride_of(old(self)@, b as int)) * k,
        ensures
            final(self)@ == dematricized(old(self)@, b as int, m@, k as nat),
            tensor_wf(final(self)@),
    {
        let (left, _, stride) = self.shape(b);
        let ghost t = self@;
        proof {
            lemma_shape(t, b as int);
            assert((left * stride) * k == (left * k) * stride) by (nonlinear_arith);
            assert(left * stride <= (left * stride) * k) by (nonlinear_arith)
                requires
                    left >= 1,
                    stride >= 1,
                    k >= 1,
            ;
        }
        let total: usize = m.len();
        let ghost goal = dematricized(t, b as int, m@, k as nat);
        let mut data: Vec<R> = Vec::with_capacity(total);
        let mut x: usize = 0;
        while x < total
            invariant
                total == m@.len(),
                total == (left * stride) * k,
                total == (left * k) * stride,
                left * stride <= total,
                left == left_of(t, b as int),
                stride == stride_of(t, b as int),
                stride >= 1,
                k >= 1,
                goal == dematricized(t, b as int, m@, k as nat),
                x <= total,
                data@ == goal.data.take(x as int),
            decreases total - x,
        {
            proof {
                lemma_split(left * k, stride as int, x as int);
                lemma_split(left as int, k as int, x as int / stride as int);
                lemma_inside(
                    left as int,
                    stride as int,
                    (x as int / stride as int) / k as int,
                    x as int % stride as int,
                );
                lemma_inside(
                    left * stride,
                    k as int,
                    ((x as int / stride as int) / k as int) * stride + x as int % stride as int,
                    (x as int / stride as int) % k as int,
                );
            }
            let y: usize = x / stride;
            data.push(m[((y / k) * stride + x % stride) * k + y % k]);
            x = x + 1;
            assert(data@ =~= goal.data.take(x as int));
        }
        self.dims.set(b, k);
        self.data = data;
        proof {
            assert(self@.dims =~= t.dims.update(b as int, k as nat));
            assert(self@.data =~= goal.data);
            assert(self@ =~= goal);
            let d = self@.dims;
            let n = d.len() as int;
            assert forall|i: int| 0 <= i < n implies #[trigger] d[i] >= 1 by {
                if i != b {
                    assert(t.dims[i] >= 1);
                }
            }
            lemma_prod_split(d, 0, b as int, n);
            lemma_prod_same(d, t.dims, 0, b as int);
            lemma_prod_same(d, t.dims, b + 1, n);
            let (p, h, s) = (t.phys, prod(t.dims, 0, b as int), stride_of(t, b as int));
            assert(prod(d, b as int, n) == k * s);
            assert(p * (h * (k * s)) == ((p * h) * k) * s) by (nonlinear_arith);
        }
    }

    /// Rescale so that the largest magnitude is 1, replacing entries that are
    /// not ordinary by 0. A tensor that lost every entry becomes uniform.
    pub fn renormalize(&mut self)
        requires
            tensor_wf(old(self)@),
        ensures
            final(self)@ == rescaled(old(self)@),
            tensor_wf(final(self)@),
    {
        let ghost before = self@;
        let n: usize = self.data.len();
        let ghost clean = scrubbed(before.data);
        let mut top: R = zero();
        let mut x: usize = 0;
        while x < n
            invariant
                n == before.data.len(),
                clean == scrubbed(before.data),
                self@.phys == before.phys,
                self@.dims == before.dims,
                self.data@.len() == n,
                x <= n,
                top == largest(clean, x as int),
                forall|i: int| 0 <= i < x ==> #[trigger] self.data@[i] == clean[i],
                forall|i: int| x <= i < n ==> #[trigger] self.data@[i] == before.data[i],
            decreases n - x,
        {
            if !is_ordinary(self.data[x]) {
                self.data.set(x, zero());
                assert(self@.dims =~= before.dims);
            }
            let size: R = absolute(self.data[x]);
            if top.less(size) {
                top = size;
            }
            x = x + 1;
        }
        assert(self.data@ =~= clean);
        let known: bool = zero::<R>().less(top);
        let mut x: usize = 0;
        while x < n
            invariant
                n == clean.len(),
                self@.phys == before.phys,
                self@.dims == before.dims,
                self.data@.len() == n,
                x <= n,
                forall|i: int|
                    0 <= i < x ==> #[trigger] self.data@[i] == if known {
                        clean[i].over(top)
                    } else {
                        unit::<R>()
                    },
                forall|i: int| x <= i < n ==> #[trigger] self.data@[i] == clean[i],
            decreases n - x,
        {
            let value: R = if known {
                self.data[x].quotient(top)
            } else {
                one()
            };
            self.data.set(x, value);
            assert(self@.dims =~= before.dims);
            x = x + 1;
        }
        assert(self@ =~= rescaled(before)) by {
            assert(self@.data =~= renormalized(before.data));
        }
    }
}

} // verus!
