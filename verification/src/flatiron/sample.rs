//! Belief propagation over the double-layer network, and conditioned sampling.
//!
//! A configuration is drawn by fixing one spin at a time from its marginal,
//! projecting the site, and refreshing its outgoing messages.
use rand::rngs::SmallRng;
use vstd::prelude::*;

use crate::flatiron::graph::{bonds_at, NetBond, NetGraph};
use crate::flatiron::state::{
    bonds_total, dematricized, left_of, lemma_shape, matricized, scaled_bond, stride_of, tensor_wf,
    SiteTensor, Tensor,
};
use crate::ising::valid_spins;
use crate::matrix::{entry, flipped_over, lemma_inside, lemma_split, table, transpose};
use crate::mps::state::picked_spins;
use crate::mps::tensor::{multiplied, multiply};
use crate::rng::{draw_from, draw_of, streams, Draw, Source};
use crate::scalar::{
    absolute, copy_scalars, distance, is_ordinary, nil, ordinary, zero, Scalar,
};

verus! {

/// Sweep cap of belief propagation.
pub const BP_MAX_SWEEPS: usize = 40;

/// The adjacency follows from the bonds.
pub open spec fn graph_ok(g: NetGraph) -> bool {
    &&& g.adj@.len() == g.h@.len()
    &&& forall|e: int|
        0 <= e < g.bonds@.len() ==> (#[trigger] g.bonds@[e]).0 < g.bonds@[e].1 < g.h@.len()
    &&& forall|v: int|
        0 <= v < g.adj@.len() ==> (#[trigger] g.adj@[v])@ == bonds_at(
            g.bonds@,
            v,
            g.bonds@.len() as int,
        )
}

/// Bond `e` ends at node `v`.
pub open spec fn ends_at(g: NetGraph, e: int, v: int) -> bool {
    g.bonds@[e].0 == v || g.bonds@[e].1 == v
}

/// The first place from `i` on where a row names bond `e`; 0 where none does.
pub open spec fn place_from(row: Seq<(usize, u32)>, e: int, i: int) -> int
    decreases row.len() - i,
{
    if i >= row.len() {
        0
    } else if row[i].0 == e {
        i
    } else {
        place_from(row, e, i + 1)
    }
}

/// The place of bond `e` at node `v`.
pub open spec fn place_of(g: NetGraph, v: int, e: int) -> int {
    place_from(g.adj@[v]@, e, 0)
}

/// A row names bonds at its node.
pub proof fn lemma_row(bonds: Seq<NetBond>, v: int, k: int, b: int)
    requires
        0 <= k <= bonds.len() <= usize::MAX,
        0 <= b < bonds_at(bonds, v, k).len(),
    ensures
        bonds_at(bonds, v, k)[b].0 < k,
        bonds[bonds_at(bonds, v, k)[b].0 as int].0 == v || bonds[bonds_at(
            bonds,
            v,
            k,
        )[b].0 as int].1 == v,
    decreases k,
{
    if k > 0 {
        let before = bonds_at(bonds, v, k - 1);
        if b < before.len() {
            lemma_row(bonds, v, k - 1, b);
            assert(bonds_at(bonds, v, k)[b] == before[b]);
        }
    }
}

/// A row names its bonds in ascending order.
pub proof fn lemma_row_ascends(bonds: Seq<NetBond>, v: int, k: int, a: int, b: int)
    requires
        0 <= k <= bonds.len() <= usize::MAX,
        0 <= a < b < bonds_at(bonds, v, k).len(),
    ensures
        bonds_at(bonds, v, k)[a].0 < bonds_at(bonds, v, k)[b].0,
    decreases k,
{
    if k > 0 {
        let before = bonds_at(bonds, v, k - 1);
        lemma_row(bonds, v, k, a);
        if b < before.len() {
            lemma_row_ascends(bonds, v, k - 1, a, b);
            assert(bonds_at(bonds, v, k)[b] == before[b]);
        } else {
            lemma_row(bonds, v, k - 1, a);
        }
        assert(bonds_at(bonds, v, k)[a] == before[a]);
    }
}

proof fn lemma_row_has(bonds: Seq<NetBond>, v: int, k: int, e: int) -> (b: int)
    requires
        0 <= e < k <= bonds.len() <= usize::MAX,
        bonds[e].0 == v || bonds[e].1 == v,
    ensures
        0 <= b < bonds_at(bonds, v, k).len(),
        bonds_at(bonds, v, k)[b].0 == e,
    decreases k,
{
    let before = bonds_at(bonds, v, k - 1);
    if e == k - 1 {
        before.len() as int
    } else {
        let b = lemma_row_has(bonds, v, k - 1, e);
        assert(bonds_at(bonds, v, k)[b] == before[b]);
        b
    }
}

proof fn lemma_place(row: Seq<(usize, u32)>, e: int, i: int, b: int)
    requires
        0 <= i <= b < row.len(),
        row[b].0 == e,
    ensures
        i <= place_from(row, e, i) < row.len(),
        row[place_from(row, e, i)].0 == e,
    decreases row.len() - i,
{
    if row[i].0 != e {
        lemma_place(row, e, i + 1, b);
    }
}

/// A bond has a place at each of its nodes.
pub proof fn bond_has_a_place(g: NetGraph, v: int, e: int)
    requires
        graph_ok(g),
        0 <= e < g.bonds@.len() <= usize::MAX,
        0 <= v < g.adj@.len(),
        ends_at(g, e, v),
    ensures
        0 <= place_of(g, v, e) < g.adj@[v]@.len(),
        g.adj@[v]@[place_of(g, v, e)].0 == e,
{
    let row = g.adj@[v]@;
    assert(row == bonds_at(g.bonds@, v, g.bonds@.len() as int));
    let b = lemma_row_has(g.bonds@, v, g.bonds@.len() as int, e);
    lemma_place(row, e, 0, b);
}

/// The place of bond `e` at a node.
pub fn position(row: &Vec<(usize, u32)>, e: usize) -> (b: usize)
    ensures
        b == place_from(row@, e as int, 0),
{
    let mut i: usize = 0;
    while i < row.len()
        invariant
            i <= row@.len(),
            place_from(row@, e as int, 0) == place_from(row@, e as int, i as int),
        decreases row@.len() - i,
    {
        if row[i].0 == e {
            return i;
        }
        i = i + 1;
    }
    0
}

/// The message on bond `e` that flows into `node`.
pub open spec fn into_of(g: NetGraph, e: int, node: int) -> int {
    if node == g.bonds@[e].0 {
        2 * e + 1
    } else {
        2 * e
    }
}

/// The message on bond `e` that flows out of `node`.
pub open spec fn out_of(g: NetGraph, e: int, node: int) -> int {
    if node == g.bonds@[e].0 {
        2 * e
    } else {
        2 * e + 1
    }
}

/// Each message flows out of one end of its bond and into the other.
pub proof fn messages_have_two_ends(g: NetGraph, e: int)
    requires
        graph_ok(g),
        0 <= e < g.bonds@.len(),
    ensures
        into_of(g, e, g.bonds@[e].1 as int) == out_of(g, e, g.bonds@[e].0 as int),
        into_of(g, e, g.bonds@[e].0 as int) == out_of(g, e, g.bonds@[e].1 as int),
        into_of(g, e, g.bonds@[e].0 as int) != into_of(g, e, g.bonds@[e].1 as int),
{
    assert(g.bonds@[e].0 < g.bonds@[e].1);
}

/// The message on bond `e` that flows into `node`.
pub fn msg_into(net: &NetGraph, e: usize, node: usize) -> (m: usize)
    requires
        e < net.bonds@.len(),
        2 * net.bonds@.len() <= usize::MAX,
    ensures
        m == into_of(*net, e as int, node as int),
{
    if node == net.bonds[e].0 as usize {
        2 * e + 1
    } else {
        2 * e
    }
}

/// The message on bond `e` that flows out of `node`.
pub fn msg_out_of(net: &NetGraph, e: usize, node: usize) -> (m: usize)
    requires
        e < net.bonds@.len(),
        2 * net.bonds@.len() <= usize::MAX,
    ensures
        m == out_of(*net, e as int, node as int),
{
    if node == net.bonds[e].0 as usize {
        2 * e
    } else {
        2 * e + 1
    }
}

/// A tensor with a square matrix applied along bond `b`.
pub open spec fn with_axis<R: Scalar>(t: Tensor<R>, b: int, m: Seq<R>) -> Tensor<R> {
    let k = t.dims[b];
    dematricized(
        t,
        b,
        multiplied(matricized(t, b), m, left_of(t, b) * stride_of(t, b), k, k),
        k,
    )
}

/// The identity over its dimension: the neutral message.
pub open spec fn neutral<R: Scalar>(k: nat) -> Seq<R> {
    table(
        k,
        k,
        |i: int, j: int|
            if i == j {
                R::fraction(1, k)
            } else {
                nil::<R>()
            },
    )
}

/// The neutral message.
pub fn identity_message<R: Scalar>(k: usize) -> (m: Vec<R>)
    requires
        k * k <= usize::MAX,
    ensures
        m@ == neutral::<R>(k as nat),
        m@.len() == k * k,
{
    let total: usize = k * k;
    let share: R = R::ratio(1, k);
    let mut m: Vec<R> = Vec::with_capacity(total);
    let mut x: usize = 0;
    while x < total
        invariant
            total == k * k,
            share == R::fraction(1, k as nat),
            x <= total,
            m@ == neutral::<R>(k as nat).take(x as int),
        decreases total - x,
    {
        proof {
            lemma_split(k as int, k as int, x as int);
        }
        let value: R = if x / k == x % k {
            share
        } else {
            zero()
        };
        m.push(value);
        x = x + 1;
        assert(m@ =~= neutral::<R>(k as nat).take(x as int));
    }
    assert(m@ =~= neutral::<R>(k as nat));
    m
}

/// A copy of a tensor.
pub fn copy_tensor<R: Scalar>(t: &SiteTensor<R>) -> (c: SiteTensor<R>)
    ensures
        c@ == t@,
{
    let mut dims: Vec<usize> = Vec::with_capacity(t.dims.len());
    let mut b: usize = 0;
    while b < t.dims.len()
        invariant
            b <= t.dims@.len(),
            dims@ == t.dims@.take(b as int),
        decreases t.dims@.len() - b,
    {
        dims.push(t.dims[b]);
        b = b + 1;
        assert(dims@ =~= t.dims@.take(b as int));
    }
    assert(t.dims@.take(t.dims@.len() as int) =~= t.dims@);
    let c = SiteTensor { phys: t.phys, dims, data: copy_scalars(&t.data) };
    assert(c@ =~= t@);
    c
}

/// Apply a square matrix along bond `b`.
fn apply_axis<R: Scalar>(t: &mut SiteTensor<R>, b: usize, m: &Vec<R>)
    requires
        tensor_wf(old(t)@),
        b < old(t)@.dims.len(),
        m@.len() == old(t)@.dims[b as int] * old(t)@.dims[b as int],
    ensures
        final(t)@ == with_axis(old(t)@, b as int, m@),
        tensor_wf(final(t)@),
        final(t)@.phys == old(t)@.phys,
        final(t)@.dims == old(t)@.dims,
{
    let ghost before = t@;
    let total: usize = t.data.len();
    proof {
        lemma_shape(before, b as int);
    }
    let (mat, rows, k) = t.matricize(b);
    let out = multiply(&mat, m, rows, k, k);
    t.dematricize(b, &out, k);
    assert(t@.dims =~= before.dims);
}

/// Tensors and messages of a network.
#[verifier::ext_equal]
pub struct Net<R> {
    /// Site tensors.
    pub tensors: Seq<Tensor<R>>,
    /// Messages, two per bond.
    pub msgs: Seq<Seq<R>>,
}

/// A state prepared for sampling: the bond weights absorbed into the tensors,
/// and one message per direction of each bond.
pub struct SamplingNet<R> {
    /// Site tensors.
    pub tensors: Vec<SiteTensor<R>>,
    /// Messages: `2 * e` flows from the lower to the higher node of bond `e`,
    /// `2 * e + 1` back.
    pub msgs: Vec<Vec<R>>,
}

impl<R> View for SamplingNet<R> {
    type V = Net<R>;

    open spec fn view(&self) -> Net<R> {
        Net {
            tensors: Seq::new(self.tensors@.len(), |v: int| self.tensors@[v]@),
            msgs: Seq::new(self.msgs@.len(), |i: int| self.msgs@[i]@),
        }
    }
}

/// The tensors fit the graph, with bond dimensions `kd`.
pub open spec fn tensors_fit<R>(g: NetGraph, tensors: Seq<Tensor<R>>, kd: Seq<nat>) -> bool {
    &&& graph_ok(g)
    &&& 2 * g.bonds@.len() <= usize::MAX
    &&& kd.len() == g.bonds@.len()
    &&& forall|e: int| 0 <= e < kd.len() ==> #[trigger] kd[e] >= 1
    &&& tensors.len() == g.adj@.len()
    &&& forall|v: int|
        0 <= v < tensors.len() ==> tensor_wf(#[trigger] tensors[v]) && tensors[v].dims.len()
            == g.adj@[v]@.len()
    &&& forall|v: int, b: int|
        0 <= v < tensors.len() && 0 <= b < tensors[v].dims.len() ==> #[trigger] tensors[v].dims[b]
            == kd[g.adj@[v]@[b].0 as int]
}

/// The messages fit bond dimensions `kd`.
pub open spec fn msgs_fit<R>(msgs: Seq<Seq<R>>, kd: Seq<nat>) -> bool {
    msgs.len() == 2 * kd.len() && forall|i: int|
        0 <= i < msgs.len() ==> (#[trigger] msgs[i]).len() == kd[i / 2] * kd[i / 2]
}

/// A network fits the graph, with bond dimensions `kd`.
pub open spec fn net_fits<R>(g: NetGraph, n: Net<R>, kd: Seq<nat>) -> bool {
    tensors_fit(g, n.tensors, kd) && msgs_fit(n.msgs, kd)
}

/// A network fits the graph, with some bond dimensions.
pub open spec fn net_ok<R>(g: NetGraph, n: Net<R>) -> bool {
    exists|kd: Seq<nat>| #[trigger] net_fits(g, n, kd)
}

/// The square roots of weights, none negative.
pub open spec fn rooted<R: Scalar>(w: Seq<R>) -> Seq<R> {
    Seq::new(
        w.len(),
        |i: int|
            (if w[i].reaches(nil()) {
                w[i]
            } else {
                nil::<R>()
            }).root(),
    )
}

/// The tensors after the first `e` bonds have absorbed the roots of their
/// weights at both ends.
pub open spec fn rooted_upto<R: Scalar>(
    g: NetGraph,
    tensors: Seq<Tensor<R>>,
    lambdas: Seq<Seq<R>>,
    e: int,
) -> Seq<Tensor<R>>
    decreases e,
{
    if e <= 0 {
        tensors
    } else {
        let before = rooted_upto(g, tensors, lambdas, e - 1);
        let u = g.bonds@[e - 1].0 as int;
        let v = g.bonds@[e - 1].1 as int;
        let w = rooted(lambdas[e - 1]);
        let mid = before.update(u, scaled_bond(before[u], place_of(g, u, e - 1), w));
        mid.update(v, scaled_bond(mid[v], place_of(g, v, e - 1), w))
    }
}

/// A network prepared from tensors and bond weights.
pub open spec fn prepared<R: Scalar>(
    g: NetGraph,
    tensors: Seq<Tensor<R>>,
    lambdas: Seq<Seq<R>>,
) -> Net<R> {
    Net {
        tensors: rooted_upto(g, tensors, lambdas, lambdas.len() as int),
        msgs: Seq::new(2 * lambdas.len(), |i: int| neutral::<R>(lambdas[i / 2].len())),
    }
}

/// The square roots of weights.
fn root_weights<R: Scalar>(w: &Vec<R>) -> (r: Vec<R>)
    ensures
        r@ == rooted(w@),
{
    let mut r: Vec<R> = Vec::with_capacity(w.len());
    let mut i: usize = 0;
    while i < w.len()
        invariant
            i <= w@.len(),
            r@.len() == i,
            forall|k: int| 0 <= k < i ==> #[trigger] r@[k] == rooted(w@)[k],
        decreases w@.len() - i,
    {
        let x: R = if w[i].at_least(zero()) {
            w[i]
        } else {
            zero()
        };
        r.push(x.square_root());
        i = i + 1;
    }
    assert(r@ =~= rooted(w@));
    r
}

/// Tensors as their views.
pub open spec fn tensors_view<R>(v: Seq<SiteTensor<R>>) -> Seq<Tensor<R>> {
    Seq::new(v.len(), |i: int| v[i]@)
}

/// The lengths of bond weights.
pub open spec fn weight_dims<R>(lambdas: Seq<Seq<R>>) -> Seq<nat> {
    Seq::new(lambdas.len(), |e: int| lambdas[e].len())
}

/// Bond weights as sequences.
pub open spec fn weights_view<R>(v: Seq<Vec<R>>) -> Seq<Seq<R>> {
    Seq::new(v.len(), |i: int| v[i]@)
}

proof fn lemma_scaled_fits<R: Scalar>(
    g: NetGraph,
    tensors: Seq<Tensor<R>>,
    kd: Seq<nat>,
    v: int,
    t: Tensor<R>,
)
    requires
        tensors_fit(g, tensors, kd),
        0 <= v < tensors.len(),
        tensor_wf(t),
        t.dims == tensors[v].dims,
    ensures
        tensors_fit(g, tensors.update(v, t), kd),
{
    let next = tensors.update(v, t);
    assert forall|w: int, b: int|
        0 <= w < next.len() && 0 <= b < next[w].dims.len() implies #[trigger] next[w].dims[b]
        == kd[g.adj@[w]@[b].0 as int] by {
        assert(tensors[w].dims[b] == kd[g.adj@[w]@[b].0 as int]);
    }
    assert forall|w: int| 0 <= w < next.len() implies tensor_wf(#[trigger] next[w])
        && next[w].dims.len() == g.adj@[w]@.len() by {
        assert(tensor_wf(tensors[w]) && tensors[w].dims.len() == g.adj@[w]@.len());
    }
}

impl<R: Scalar> SamplingNet<R> {
    /// Absorb the roots of the bond weights at both ends of every bond, and
    /// start all messages neutral.
    pub fn build(net: &NetGraph, tensors: Vec<SiteTensor<R>>, lambdas: &Vec<Vec<R>>) -> (r: Self)
        requires
            tensors_fit(*net, tensors_view(tensors@), weight_dims(weights_view(lambdas@))),
            forall|e: int|
                0 <= e < lambdas@.len() ==> (#[trigger] lambdas@[e])@.len() * lambdas@[e]@.len()
                    <= usize::MAX,
        ensures
            r@ == prepared(*net, tensors_view(tensors@), weights_view(lambdas@)),
            net_fits(*net, r@, weight_dims(weights_view(lambdas@))),
    {
        let ghost start = tensors_view(tensors@);
        let ghost lam = weights_view(lambdas@);
        let ghost kd = weight_dims(lam);
        let mut tensors = tensors;
        let mut e: usize = 0;
        while e < lambdas.len()
            invariant
                lam == weights_view(lambdas@),
                kd == weight_dims(lam),
                lambdas@.len() == net.bonds@.len(),
                tensors_fit(*net, tensors_view(tensors@), kd),
                e <= lambdas@.len(),
                tensors_view(tensors@) == rooted_upto(*net, start, lam, e as int),
            decreases lambdas@.len() - e,
        {
            let ghost before = tensors_view(tensors@);
            let count: usize = net.bonds.len();
            let root = root_weights(&lambdas[e]);
            let (u32_, v32_, _) = net.bonds[e];
            let u: usize = u32_ as usize;
            let v: usize = v32_ as usize;
            proof {
                assert(net.bonds@[e as int].0 < net.bonds@[e as int].1);
                bond_has_a_place(*net, u as int, e as int);
                bond_has_a_place(*net, v as int, e as int);
                assert(lam[e as int] == lambdas@[e as int]@);
                assert(kd[e as int] == lambdas@[e as int]@.len());
                assert(before[u as int] == tensors@[u as int]@);
                assert(before[v as int] == tensors@[v as int]@);
            }
            let bu: usize = position(&net.adj[u], e);
            proof {
                assert(before[u as int].dims[bu as int] == kd[net.adj@[u as int]@[bu as int].0 as int]);
            }
            tensors[u].scale_bond(bu, &root);
            let ghost mid = tensors_view(tensors@);
            proof {
                assert(mid =~= before.update(u as int, tensors@[u as int]@));
                lemma_scaled_fits(*net, before, kd, u as int, tensors@[u as int]@);
                assert(mid[v as int] == tensors@[v as int]@);
            }
            let bv: usize = position(&net.adj[v], e);
            proof {
                assert(mid[v as int].dims[bv as int] == kd[net.adj@[v as int]@[bv as int].0 as int]);
            }
            tensors[v].scale_bond(bv, &root);
            proof {
                let now = tensors_view(tensors@);
                assert(now =~= mid.update(v as int, tensors@[v as int]@));
                lemma_scaled_fits(*net, mid, kd, v as int, tensors@[v as int]@);
            }
            e = e + 1;
        }
        let mut msgs: Vec<Vec<R>> = Vec::new();
        let mut i: usize = 0;
        while i < lambdas.len()
            invariant
                lam == weights_view(lambdas@),
                forall|t: int|
                    0 <= t < lambdas@.len() ==> (#[trigger] lambdas@[t])@.len()
                        * lambdas@[t]@.len() <= usize::MAX,
                i <= lambdas@.len(),
                msgs@.len() == 2 * i,
                forall|t: int|
                    0 <= t < msgs@.len() ==> (#[trigger] msgs@[t])@ == neutral::<R>(
                        lam[t / 2].len(),
                    ) && msgs@[t]@.len() == lam[t / 2].len() * lam[t / 2].len(),
            decreases lambdas@.len() - i,
        {
            let k: usize = lambdas[i].len();
            assert(lam[i as int] == lambdas@[i as int]@);
            assert(lambdas@[i as int]@.len() * lambdas@[i as int]@.len() <= usize::MAX);
            msgs.push(identity_message(k));
            msgs.push(identity_message(k));
            i = i + 1;
        }
        let r = SamplingNet { tensors, msgs };
        proof {
            let goal = prepared(*net, start, lam);
            assert(r@.tensors =~= goal.tensors);
            assert(r@.msgs =~= goal.msgs);
            assert forall|t: int| 0 <= t < r@.msgs.len() implies (#[trigger] r@.msgs[t]).len()
                == kd[t / 2] * kd[t / 2] by {
                assert(r@.msgs[t] == msgs@[t]@);
            }
        }
        r
    }

    /// A copy.
    pub fn duplicate(&self) -> (c: Self)
        ensures
            c@ == self@,
    {
        let mut tensors: Vec<SiteTensor<R>> = Vec::with_capacity(self.tensors.len());
        let mut v: usize = 0;
        while v < self.tensors.len()
            invariant
                v <= self.tensors@.len(),
                tensors@.len() == v,
                forall|i: int| 0 <= i < v ==> (#[trigger] tensors@[i])@ == self.tensors@[i]@,
            decreases self.tensors@.len() - v,
        {
            tensors.push(copy_tensor(&self.tensors[v]));
            v = v + 1;
        }
        let mut msgs: Vec<Vec<R>> = Vec::with_capacity(self.msgs.len());
        let mut i: usize = 0;
        while i < self.msgs.len()
            invariant
                i <= self.msgs@.len(),
                msgs@.len() == i,
                forall|t: int| 0 <= t < i ==> (#[trigger] msgs@[t])@ == self.msgs@[t]@,
            decreases self.msgs@.len() - i,
        {
            msgs.push(copy_scalars(&self.msgs[i]));
            i = i + 1;
        }
        let c = SamplingNet { tensors, msgs };
        assert(c@.tensors =~= self@.tensors);
        assert(c@.msgs =~= self@.msgs);
        c
    }
}

/// Site `node` after the messages into its first `b` bonds, but for bond place
/// `skip`. A message over dimension 1 is the identity and is left out.
pub open spec fn dressed_upto<R: Scalar>(
    g: NetGraph,
    n: Net<R>,
    node: int,
    skip: int,
    b: int,
) -> Tensor<R>
    decreases b,
{
    if b <= 0 {
        n.tensors[node]
    } else {
        let before = dressed_upto(g, n, node, skip, b - 1);
        let m = n.msgs[into_of(g, g.adj@[node]@[b - 1].0 as int, node)];
        if b - 1 == skip || m.len() == 1 {
            before
        } else {
            with_axis(before, b - 1, m)
        }
    }
}

/// Site `node` with every message applied but that at place `skip`.
pub open spec fn dressed<R: Scalar>(g: NetGraph, n: Net<R>, node: int, skip: int) -> Tensor<R> {
    dressed_upto(g, n, node, skip, g.adj@[node]@.len() as int)
}

/// Sum of the first `c` diagonal entries.
pub open spec fn diagonal_sum<R: Scalar>(m: Seq<R>, k: int, c: int) -> R
    decreases c,
{
    if c <= 0 {
        nil()
    } else {
        diagonal_sum(m, k, c - 1).plus(entry(m, k, c - 1, c - 1))
    }
}

/// A message scaled to trace 1; neutral where the trace is not positive.
pub open spec fn traced<R: Scalar>(m: Seq<R>, k: nat) -> Seq<R> {
    let trace = diagonal_sum(m, k as int, k as int);
    if ordinary(trace) && nil::<R>().under(trace) {
        Seq::new(m.len(), |x: int| m[x].over(trace))
    } else {
        neutral(k)
    }
}

/// The message out of `node` at bond place `b`.
pub open spec fn outgoing<R: Scalar>(g: NetGraph, n: Net<R>, node: int, b: int) -> Seq<R> {
    let t = n.tensors[node];
    let k = t.dims[b];
    let rows = left_of(t, b) * stride_of(t, b);
    traced(
        multiplied(
            flipped_over(matricized(dressed(g, n, node, b), b), rows, k),
            matricized(t, b),
            k,
            rows,
            k,
        ),
        k,
    )
}

/// The network with the message out of `node` at bond place `b` recomputed.
pub open spec fn refreshed<R: Scalar>(g: NetGraph, n: Net<R>, node: int, b: int) -> Net<R> {
    Net {
        tensors: n.tensors,
        msgs: n.msgs.update(
            out_of(g, g.adj@[node]@[b].0 as int, node),
            outgoing(g, n, node, b),
        ),
    }
}

/// The largest change among the first `k` entries.
pub open spec fn change<R: Scalar>(a: Seq<R>, b: Seq<R>, k: int) -> R
    decreases k,
{
    if k <= 0 {
        nil()
    } else {
        let before = change(a, b, k - 1);
        let here = distance(a[k - 1].minus(b[k - 1]));
        if before.under(here) {
            here
        } else {
            before
        }
    }
}

/// The larger of two.
pub open spec fn larger<R: Scalar>(a: R, b: R) -> R {
    if a.under(b) {
        b
    } else {
        a
    }
}

/// A network and the largest change so far.
pub struct Swept<R> {
    /// The network.
    pub n: Net<R>,
    /// The largest change.
    pub delta: R,
}

/// One message recomputed, its change noted.
pub open spec fn refresh_noted<R: Scalar>(g: NetGraph, s: Swept<R>, node: int, e: int) -> Swept<R> {
    let b = place_of(g, node, e);
    let slot = out_of(g, g.adj@[node]@[b].0 as int, node);
    let next = outgoing(g, s.n, node, b);
    Swept {
        n: refreshed(g, s.n, node, b),
        delta: larger(s.delta, change(s.n.msgs[slot], next, next.len() as int)),
    }
}

/// The network after the messages of the first `e` bonds are recomputed, both
/// directions each; a message over dimension 1 is left alone.
pub open spec fn swept_upto<R: Scalar>(g: NetGraph, n: Net<R>, e: int) -> Swept<R>
    decreases e,
{
    if e <= 0 {
        Swept { n, delta: nil() }
    } else {
        let before = swept_upto(g, n, e - 1);
        if before.n.msgs[2 * (e - 1)].len() == 1 {
            before
        } else {
            let mid = refresh_noted(g, before, g.bonds@[e - 1].0 as int, e - 1);
            refresh_noted(g, mid, g.bonds@[e - 1].1 as int, e - 1)
        }
    }
}

/// The network after belief propagation: sweeps until the change is below a
/// billionth, `left` of them at most.
pub open spec fn propagated<R: Scalar>(g: NetGraph, n: Net<R>, left: nat) -> Net<R>
    decreases left,
{
    if left == 0 {
        n
    } else {
        let s = swept_upto(g, n, g.bonds@.len() as int);
        if s.delta.under(R::fraction(1, 1_000_000_000)) {
            s.n
        } else {
            propagated(g, s.n, (left - 1) as nat)
        }
    }
}

proof fn lemma_swept_tensors<R: Scalar>(g: NetGraph, n: Net<R>, e: int)
    ensures
        swept_upto(g, n, e).n.tensors == n.tensors,
    decreases e,
{
    if e > 0 {
        lemma_swept_tensors(g, n, e - 1);
    }
}

/// Belief propagation leaves the tensors alone.
pub proof fn propagation_keeps_the_tensors<R: Scalar>(g: NetGraph, n: Net<R>, left: nat)
    ensures
        propagated(g, n, left).tensors == n.tensors,
    decreases left,
{
    if left > 0 {
        lemma_swept_tensors(g, n, g.bonds@.len() as int);
        let s = swept_upto(g, n, g.bonds@.len() as int);
        if !s.delta.under(R::fraction(1, 1_000_000_000)) {
            propagation_keeps_the_tensors(g, s.n, (left - 1) as nat);
        }
    }
}

/// Sum of the products of the first `i` entries of block `s`.
pub open spec fn block_sum<R: Scalar>(a: Seq<R>, b: Seq<R>, from: int, i: int) -> R
    decreases i,
{
    if i <= 0 {
        nil()
    } else {
        block_sum(a, b, from, i - 1).plus(a[from + i - 1].times(b[from + i - 1]))
    }
}

/// The weight of physical value `s` at `node`.
pub open spec fn marginal_of<R: Scalar>(g: NetGraph, n: Net<R>, node: int, s: int) -> R {
    let t = n.tensors[node];
    let bt = bonds_total(t) as int;
    block_sum(
        dressed(g, n, node, g.adj@[node]@.len() as int).data,
        t.data,
        s * bt,
        bt,
    )
}

/// A tensor with its physical value fixed at `s`.
pub open spec fn fixed<R>(t: Tensor<R>, s: int) -> Tensor<R> {
    let bt = bonds_total(t) as int;
    Tensor { phys: 1, dims: t.dims, data: t.data.subrange(s * bt, (s + 1) * bt) }
}

/// The network after the first `b` messages out of `node` are recomputed.
pub open spec fn refreshed_upto<R: Scalar>(g: NetGraph, n: Net<R>, node: int, b: int) -> Net<R>
    decreases b,
{
    if b <= 0 {
        n
    } else {
        let before = refreshed_upto(g, n, node, b - 1);
        if before.tensors[node].dims[b - 1] > 1 {
            refreshed(g, before, node, b - 1)
        } else {
            before
        }
    }
}

/// The network with `node` fixed at `s` and its messages recomputed.
pub open spec fn projected<R: Scalar>(g: NetGraph, n: Net<R>, node: int, s: int) -> Net<R> {
    refreshed_upto(
        g,
        Net { tensors: n.tensors.update(node, fixed(n.tensors[node], s)), msgs: n.msgs },
        node,
        g.adj@[node]@.len() as int,
    )
}

impl<R: Scalar> SamplingNet<R> {
    /// Site `node` with every message applied but that at place `skip`.
    fn dress(&self, net: &NetGraph, node: usize, skip: usize) -> (t:
        SiteTensor<R>)
        requires
            net_ok(*net, self@),
            node < self@.tensors.len(),
        ensures
            t@ == dressed(*net, self@, node as int, skip as int),
            tensor_wf(t@),
            t@.phys == self@.tensors[node as int].phys,
            t@.dims == self@.tensors[node as int].dims,
    {
        let ghost n = self@;
        let ghost kd = choose|kd: Seq<nat>| net_fits(*net, n, kd);
        let ghost t0 = n.tensors[node as int];
        let count: usize = net.bonds.len();
        assert(t0 == self.tensors@[node as int]@);
        assert(tensor_wf(t0));
        let mut t = copy_tensor(&self.tensors[node]);
        let mut b: usize = 0;
        while b < net.adj[node].len()
            invariant
                n == self@,
                net_fits(*net, n, kd),
                count == net.bonds@.len(),
                node < n.tensors.len(),
                t0 == n.tensors[node as int],
                b <= net.adj@[node as int]@.len(),
                t@ == dressed_upto(*net, n, node as int, skip as int, b as int),
                tensor_wf(t@),
                t@.phys == t0.phys,
                t@.dims == t0.dims,
            decreases net.adj@[node as int]@.len() - b,
        {
            let (e, _) = net.adj[node][b];
            proof {
                assert(tensor_wf(n.tensors[node as int]) && n.tensors[node as int].dims.len()
                    == net.adj@[node as int]@.len());
                assert(net.adj@[node as int]@ == bonds_at(
                    net.bonds@,
                    node as int,
                    net.bonds@.len() as int,
                ));
                lemma_row(net.bonds@, node as int, net.bonds@.len() as int, b as int);
                assert(n.tensors[node as int].dims[b as int] == kd[e as int]);
            }
            let at: usize = msg_into(net, e, node);
            proof {
                assert(n.msgs[at as int] == self.msgs@[at as int]@);
                assert(at as int / 2 == e);
            }
            if b != skip && self.msgs[at].len() != 1 {
                apply_axis(&mut t, b, &self.msgs[at]);
            }
            b = b + 1;
        }
        t
    }

    /// Recompute the message out of `node` at bond place `b`. Gives the largest
    /// change.
    pub fn refresh_message(
        &mut self,
        net: &NetGraph,
        node: usize,
        b: usize,
    ) -> (delta: R)
        requires
            net_ok(*net, old(self)@),
            node < old(self)@.tensors.len(),
            b < net.adj@[node as int]@.len(),
        ensures
            net_ok(*net, final(self)@),
            final(self)@ == refreshed(*net, old(self)@, node as int, b as int),
            delta == change(
                old(self)@.msgs[out_of(*net, net.adj@[node as int]@[b as int].0 as int, node as int)],
                outgoing(*net, old(self)@, node as int, b as int),
                outgoing(*net, old(self)@, node as int, b as int).len() as int,
            ),
    {
        let ghost n = self@;
        let ghost kd = choose|kd: Seq<nat>| net_fits(*net, n, kd);
        let ghost t0 = n.tensors[node as int];
        let count: usize = net.bonds.len();
        let (e, _) = net.adj[node][b];
        proof {
            assert(t0 == self.tensors@[node as int]@);
            assert(tensor_wf(n.tensors[node as int]) && n.tensors[node as int].dims.len()
                == net.adj@[node as int]@.len());
            assert(net.adj@[node as int]@ == bonds_at(
                net.bonds@,
                node as int,
                net.bonds@.len() as int,
            ));
            lemma_row(net.bonds@, node as int, net.bonds@.len() as int, b as int);
            assert(n.tensors[node as int].dims[b as int] == kd[e as int]);
        }
        let k2 = self.dress(net, node, b);
        let (m2, rows, k) = k2.matricize(b);
        let (m1, _, _) = self.tensors[node].matricize(b);
        let slot: usize = msg_out_of(net, e, node);
        proof {
            assert(n.msgs[slot as int] == self.msgs@[slot as int]@);
            assert(slot as int / 2 == e);
            assert(n.msgs[slot as int].len() == kd[e as int] * kd[e as int]);
        }
        let room: usize = self.msgs[slot].len();
        let mt = transpose(&m2, rows, k);
        let mut rho = multiply(&mt, &m1, k, rows, k);
        let ghost raw = rho@;
        let mut trace: R = zero();
        let mut c: usize = 0;
        while c < k
            invariant
                rho@ == raw,
                rho@.len() == k * k,
                k * k <= usize::MAX,
                c <= k,
                trace == diagonal_sum(raw, k as int, c as int),
            decreases k - c,
        {
            proof {
                lemma_inside(k as int, k as int, c as int, c as int);
            }
            trace = trace.sum(rho[c * k + c]);
            c = c + 1;
        }
        if is_ordinary(trace) && zero::<R>().less(trace) {
            let mut x: usize = 0;
            while x < rho.len()
                invariant
                    rho@.len() == raw.len(),
                    x <= rho@.len(),
                    forall|i: int| 0 <= i < x ==> #[trigger] rho@[i] == raw[i].over(trace),
                    forall|i: int| x <= i < rho@.len() ==> #[trigger] rho@[i] == raw[i],
                decreases rho@.len() - x,
            {
                rho.set(x, rho[x].quotient(trace));
                x = x + 1;
            }
            assert(rho@ =~= traced(raw, k as nat));
        } else {
            rho = identity_message(k);
        }
        let ghost goal = outgoing(*net, n, node as int, b as int);
        assert(rho@ == goal);
        let mut delta: R = zero();
        let mut x: usize = 0;
        while x < rho.len()
            invariant
                rho@ == goal,
                slot < self.msgs@.len(),
                self.msgs@[slot as int]@ == n.msgs[slot as int],
                rho@.len() == self.msgs@[slot as int]@.len(),
                x <= rho@.len(),
                delta == change(n.msgs[slot as int], goal, x as int),
            decreases rho@.len() - x,
        {
            let here: R = absolute(self.msgs[slot][x].difference(rho[x]));
            if delta.less(here) {
                delta = here;
            }
            x = x + 1;
        }
        self.msgs.set(slot, rho);
        proof {
            let next = refreshed(*net, n, node as int, b as int);
            assert(self@.tensors =~= n.tensors);
            assert(self@.msgs =~= n.msgs.update(slot as int, goal));
            assert(self@ =~= next);
            assert forall|i: int| 0 <= i < self@.msgs.len() implies (#[trigger] self@.msgs[i]).len()
                == kd[i / 2] * kd[i / 2] by {
                assert(n.msgs[i].len() == kd[i / 2] * kd[i / 2]);
            }
            assert(net_fits(*net, self@, kd));
        }
        delta
    }

    /// One sweep over all bonds. Gives the largest change.
    fn sweep_messages(&mut self, net: &NetGraph) -> (delta: R)
        requires
            net_ok(*net, old(self)@),
        ensures
            net_ok(*net, final(self)@),
            final(self)@ == swept_upto(*net, old(self)@, net.bonds@.len() as int).n,
            delta == swept_upto(*net, old(self)@, net.bonds@.len() as int).delta,
    {
        let ghost start = self@;
        let count: usize = net.bonds.len();
        let mut delta: R = zero();
        let mut e: usize = 0;
        while e < count
            invariant
                net_ok(*net, self@),
                count == net.bonds@.len(),
                e <= count,
                self@ == swept_upto(*net, start, e as int).n,
                delta == swept_upto(*net, start, e as int).delta,
            decreases count - e,
        {
            let ghost now = self@;
            proof {
                assert(now.msgs[2 * e as int] == self.msgs@[2 * e as int]@);
                assert(net.bonds@[e as int].0 < net.bonds@[e as int].1);
            }
            if self.msgs[2 * e].len() != 1 {
                let u: usize = net.bonds[e].0 as usize;
                let v: usize = net.bonds[e].1 as usize;
                proof {
                    bond_has_a_place(*net, u as int, e as int);
                    bond_has_a_place(*net, v as int, e as int);
                }
                let bu: usize = position(&net.adj[u], e);
                let du: R = self.refresh_message(net, u, bu);
                if delta.less(du) {
                    delta = du;
                }
                let bv: usize = position(&net.adj[v], e);
                let dv: R = self.refresh_message(net, v, bv);
                if delta.less(dv) {
                    delta = dv;
                }
            }
            e = e + 1;
        }
        delta
    }

    /// Run belief propagation to its fixed point or the sweep cap.
    pub fn run_bp(&mut self, net: &NetGraph)
        requires
            net_ok(*net, old(self)@),
        ensures
            net_ok(*net, final(self)@),
            final(self)@ == propagated(*net, old(self)@, BP_MAX_SWEEPS as nat),
    {
        let ghost goal = propagated(*net, self@, BP_MAX_SWEEPS as nat);
        let tol: R = R::ratio(1, 1_000_000_000);
        let mut left: usize = BP_MAX_SWEEPS;
        while left > 0
            invariant
                net_ok(*net, self@),
                tol == R::fraction(1, 1_000_000_000),
                goal == propagated(*net, self@, left as nat),
                goal == propagated(*net, old(self)@, BP_MAX_SWEEPS as nat),
            decreases left,
        {
            let delta: R = self.sweep_messages(net);
            if delta.less(tol) {
                return ;
            }
            left = left - 1;
        }
    }

    /// Weights of the two physical values at `node`, up to a common factor.
    pub fn marginal(&self, net: &NetGraph, node: usize) -> (w: (R, R))
        requires
            net_ok(*net, self@),
            node < self@.tensors.len(),
            self@.tensors[node as int].phys == 2,
        ensures
            w.0 == marginal_of(*net, self@, node as int, 0),
            w.1 == marginal_of(*net, self@, node as int, 1),
    {
        let ghost n = self@;
        let ghost kd = choose|kd: Seq<nat>| net_fits(*net, n, kd);
        let ghost t0 = n.tensors[node as int];
        let deg: usize = net.adj[node].len();
        assert(t0 == self.tensors@[node as int]@);
        assert(tensor_wf(n.tensors[node as int]));
        let k2 = self.dress(net, node, deg);
        let bt: usize = self.tensors[node].bond_total();
        let total: usize = self.tensors[node].data.len();
        let mut w0: R = zero();
        let mut w1: R = zero();
        let mut i: usize = 0;
        while i < bt
            invariant
                node < self.tensors@.len(),
                t0 == self.tensors@[node as int]@,
                t0.data.len() == 2 * bt,
                k2@.data.len() == 2 * bt,
                total == 2 * bt,
                i <= bt,
                w0 == block_sum(k2@.data, t0.data, 0, i as int),
                w1 == block_sum(k2@.data, t0.data, bt as int, i as int),
            decreases bt - i,
        {
            w0 = w0.sum(k2.data[i].product(self.tensors[node].data[i]));
            w1 = w1.sum(k2.data[bt + i].product(self.tensors[node].data[bt + i]));
            i = i + 1;
        }
        assert(0 * bt == 0 && 1 * bt == bt) by (nonlinear_arith);
        (w0, w1)
    }

    /// Fix `node` at physical value `s` and refresh its outgoing messages, so
    /// that later marginals condition on the choice.
    pub fn project(&mut self, net: &NetGraph, node: usize, s: usize)
        requires
            net_ok(*net, old(self)@),
            node < old(self)@.tensors.len(),
            old(self)@.tensors[node as int].phys == 2,
            s < 2,
        ensures
            net_ok(*net, final(self)@),
            final(self)@ == projected(*net, old(self)@, node as int, s as int),
            forall|v: int|
                0 <= v < final(self)@.tensors.len() && v != node ==> (#[trigger] final(self)@.tensors[v])
                    == old(self)@.tensors[v],
    {
        let ghost n = self@;
        let ghost kd = choose|kd: Seq<nat>| net_fits(*net, n, kd);
        let ghost t0 = n.tensors[node as int];
        assert(t0 == self.tensors@[node as int]@);
        assert(tensor_wf(n.tensors[node as int]));
        let bt: usize = self.tensors[node].bond_total();
        let total: usize = self.tensors[node].data.len();
        let from: usize = if s == 0 {
            0
        } else {
            bt
        };
        let mut data: Vec<R> = Vec::with_capacity(bt);
        let mut i: usize = 0;
        while i < bt
            invariant
                node < self.tensors@.len(),
                t0 == self.tensors@[node as int]@,
                t0.data.len() == 2 * bt,
                total == 2 * bt,
                from + bt <= 2 * bt,
                i <= bt,
                data@ == t0.data.subrange(from as int, from + i),
            decreases bt - i,
        {
            data.push(self.tensors[node].data[from + i]);
            i = i + 1;
            assert(data@ =~= t0.data.subrange(from as int, from + i));
        }
        let mut t = copy_tensor(&self.tensors[node]);
        t.data = data;
        t.phys = 1;
        self.tensors.set(node, t);
        let ghost begun = Net {
            tensors: n.tensors.update(node as int, fixed(t0, s as int)),
            msgs: n.msgs,
        };
        proof {
            assert(s * bt == from && (s + 1) * bt == from + bt) by (nonlinear_arith)
                requires
                    (s == 0 && from == 0) || (s == 1 && from == bt),
            ;
            assert(t@.data =~= fixed(t0, s as int).data);
            assert(t@.dims =~= t0.dims);
            assert(t@ =~= fixed(t0, s as int));
            assert(bonds_total(t@) == bonds_total(t0));
            assert(1 * bt == bt) by (nonlinear_arith);
            lemma_scaled_fits(*net, n.tensors, kd, node as int, t@);
            assert(self@.tensors =~= begun.tensors);
            assert(self@.msgs =~= begun.msgs);
            assert(self@ =~= begun);
            assert(net_fits(*net, self@, kd));
        }
        let mut b: usize = 0;
        while b < net.adj[node].len()
            invariant
                net_ok(*net, self@),
                node < self@.tensors.len(),
                self@.tensors == begun.tensors,
                b <= net.adj@[node as int]@.len(),
                self@ == refreshed_upto(*net, begun, node as int, b as int),
            decreases net.adj@[node as int]@.len() - b,
        {
            proof {
                assert(self@.tensors[node as int] == self.tensors@[node as int]@);
                assert(self@.tensors[node as int].dims.len() == net.adj@[node as int]@.len());
                assert(self@.tensors[node as int].dims[b as int]
                    == self.tensors@[node as int].dims@[b as int]);
            }
            if self.tensors[node].dims[b] > 1 {
                let _ = self.refresh_message(net, node, b);
            }
            b = b + 1;
        }
    }
}

/// The network after the first `k` nodes are fixed; a pick takes spin up.
pub open spec fn conditioned<R: Scalar>(g: NetGraph, n: Net<R>, picks: Seq<bool>, k: int) -> Net<R>
    decreases k,
{
    if k <= 0 {
        n
    } else {
        projected(
            g,
            conditioned(g, n, picks, k - 1),
            k - 1,
            if picks[k - 1] {
                0
            } else {
                1
            },
        )
    }
}

/// The share of spin up between two weights; a half where they are no weights.
pub open spec fn share_of<R: Scalar>(w0: R, w1: R) -> R {
    let total = w0.plus(w1);
    if ordinary(total) && nil::<R>().under(total) && w0.reaches(nil()) {
        w0.over(total)
    } else {
        R::of_milli(500)
    }
}

/// Pick `k` follows its marginal given the picks before it: `below` says of the
/// drawn word whether it falls below the share of spin up.
pub open spec fn follows_marginal<R: Scalar, B: Fn(u64, R) -> bool>(
    below: B,
    g: NetGraph,
    n: Net<R>,
    picks: Seq<bool>,
    k: int,
    d: Draw,
) -> bool {
    let m = conditioned(g, n, picks, k);
    d matches Draw::Word(word) && call_ensures(
        below,
        (draw_of(word), share_of(marginal_of(g, m, k, 0), marginal_of(g, m, k, 1))),
        picks[k],
    )
}

/// `spins` is what `log` draws from the network, node by node.
pub open spec fn net_draw<R: Scalar, B: Fn(u64, R) -> bool>(
    below: B,
    g: NetGraph,
    n: Net<R>,
    log: Seq<Draw>,
    spins: Seq<i8>,
) -> bool {
    exists|picks: Seq<bool>| #[trigger]
        picked_spins(picks) == spins && picks.len() == n.tensors.len() && log.len()
            == picks.len() && forall|k: int|
            0 <= k < picks.len() ==> follows_marginal(below, g, n, picks, k, #[trigger] log[k])
}

proof fn lemma_conditioned_prefix<R: Scalar>(
    g: NetGraph,
    n: Net<R>,
    a: Seq<bool>,
    b: Seq<bool>,
    k: int,
)
    requires
        0 <= k <= a.len(),
        k <= b.len(),
        forall|i: int| 0 <= i < k ==> a[i] == b[i],
    ensures
        conditioned(g, n, a, k) == conditioned(g, n, b, k),
    decreases k,
{
    if k > 0 {
        lemma_conditioned_prefix(g, n, a, b, k - 1);
    }
}

impl<R: Scalar> SamplingNet<R> {
    /// Draw one configuration by sequential conditioning.
    pub fn sample_one<B: Fn(u64, R) -> bool>(
        self,
        net: &NetGraph,
        below: &B,
        rng: &mut SmallRng,
    ) -> (spins: Vec<i8>)
        requires
            net_ok(*net, self@),
            forall|v: int|
                0 <= v < self@.tensors.len() ==> (#[trigger] self@.tensors[v]).phys == 2,
            forall|word: u64, x: R| #[trigger] call_requires(*below, (word, x)),
        ensures
            spins@.len() == self@.tensors.len(),
            valid_spins(spins@),
            exists|log: Seq<Draw>| #[trigger]
                streams(*old(rng), log, *final(rng)) && net_draw(
                    *below,
                    *net,
                    self@,
                    log,
                    spins@,
                ),
    {
        let mut src = Source::taken(rng);
        let spins = self.draw_nodes(net, below, &mut src);
        src.give_back(rng);
        spins
    }

    /// Draw one configuration by sequential conditioning, from a fresh source.
    pub(crate) fn draw_nodes<B: Fn(u64, R) -> bool>(
        self,
        net: &NetGraph,
        below: &B,
        src: &mut Source,
    ) -> (spins: Vec<i8>)
        requires
            net_ok(*net, self@),
            forall|v: int|
                0 <= v < self@.tensors.len() ==> (#[trigger] self@.tensors[v]).phys == 2,
            forall|word: u64, x: R| #[trigger] call_requires(*below, (word, x)),
            old(src).wf(),
            old(src).log().len() == 0,
        ensures
            spins@.len() == self@.tensors.len(),
            valid_spins(spins@),
            final(src).wf(),
            final(src).start() == old(src).start(),
            net_draw(*below, *net, self@, final(src).log(), spins@),
    {
        let ghost start = self@;
        let mut state = self;
        let n: usize = state.tensors.len();
        let ghost mut picks: Seq<bool> = Seq::empty();
        let mut spins: Vec<i8> = Vec::with_capacity(n);
        let mut node: usize = 0;
        while node < n
            invariant
                forall|word: u64, x: R| #[trigger] call_requires(*below, (word, x)),
                net_ok(*net, state@),
                n == start.tensors.len(),
                state@.tensors.len() == n,
                node <= n,
                forall|v: int| node <= v < n ==> (#[trigger] state@.tensors[v]).phys == 2,
                picks.len() == node,
                spins@ == picked_spins(picks),
                state@ == conditioned(*net, start, picks, node as int),
                src.wf(),
                src.start() == old(src).start(),
                src.log().len() == node,
                forall|i: int|
                    0 <= i < node ==> follows_marginal(
                        *below,
                        *net,
                        start,
                        picks,
                        i,
                        #[trigger] src.log()[i],
                    ),
            decreases n - node,
        {
            assert(state@.tensors[node as int].phys == 2);
            let (w0, w1) = state.marginal(net, node);
            let total: R = w0.sum(w1);
            let share: R = if is_ordinary(total) && zero::<R>().less(total) && w0.at_least(zero()) {
                w0.quotient(total)
            } else {
                R::from_milli(500)
            };
            let ghost drawn = src.log();
            let word: u64 = src.word();
            let up: bool = below(draw_from(word), share);
            let s: usize = if up {
                0
            } else {
                1
            };
            let ghost held = state@;
            let ghost before = picks;
            proof {
                picks = picks.push(up);
                lemma_conditioned_prefix(*net, start, before, picks, node as int);
                let m = conditioned(*net, start, picks, node as int);
                assert(m == held);
                assert(share == share_of(
                    marginal_of(*net, m, node as int, 0),
                    marginal_of(*net, m, node as int, 1),
                ));
                assert(call_ensures(*below, (draw_of(word), share), picks[node as int]));
                assert(follows_marginal(
                    *below,
                    *net,
                    start,
                    picks,
                    node as int,
                    src.log()[node as int],
                ));
                assert forall|i: int| 0 <= i < node + 1 implies follows_marginal(
                    *below,
                    *net,
                    start,
                    picks,
                    i,
                    #[trigger] src.log()[i],
                ) by {
                    if i < node {
                        assert(follows_marginal(*below, *net, start, before, i, drawn[i]));
                        lemma_conditioned_prefix(*net, start, before, picks, i);
                        assert(picks[i] == before[i]);
                    }
                }
            }
            spins.push(
                if up {
                    1i8
                } else {
                    -1i8
                },
            );
            assert(spins@ =~= picked_spins(picks));
            state.project(net, node, s);
            proof {
                assert(state@.tensors.len() == n);
                assert forall|v: int| node + 1 <= v < n implies (#[trigger] state@.tensors[v]).phys
                    == 2 by {
                    assert(held.tensors[v].phys == 2);
                }
            }
            node = node + 1;
        }
        spins
    }
}

} // verus!
