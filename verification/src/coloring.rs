//! Graph colouring: a partition of the nodes into independent sets.
//!
//! Within one set no node is a neighbor of another, so a whole set can be
//! updated from fields that none of its members influence. The colouring is
//! greedy in Welsh-Powell order, highest degree first.
use vstd::prelude::*;

use crate::ising::{lemma_pair_count, pair_count, Lattice};
use crate::sampler_core::CpuGraph;
use crate::sort::{before, in_order, permutes, stable_order};

verus! {

/// A partition of the nodes into independent sets.
pub struct Coloring {
    /// Node ids per class, ascending.
    classes: Vec<Vec<u32>>,
}

impl View for Coloring {
    type V = Seq<Seq<u32>>;

    closed spec fn view(&self) -> Seq<Seq<u32>> {
        Seq::new(self.classes@.len(), |c: int| self.classes@[c]@)
    }
}

impl Clone for Coloring {
    fn clone(&self) -> (r: Self)
        ensures
            r@ == self@,
    {
        let r = Coloring { classes: self.classes.clone() };
        assert forall|c: int| 0 <= c < self@.len() implies #[trigger] r@[c] == self@[c] by {
            assert(vstd::pervasive::cloned(self.classes@[c], r.classes@[c]));
            assert(r.classes@[c]@ =~= self.classes@[c]@);
        }
        assert(r@ =~= self@);
        r
    }
}

/// Welsh-Powell order: `w` is coloured before `v`.
pub open spec fn precedes(l: Lattice, w: int, v: int) -> bool {
    l.rows[w].len() > l.rows[v].len() || (l.rows[w].len() == l.rows[v].len() && w < v)
}

/// Some neighbor of `v` that is coloured before it has colour `c`.
pub open spec fn blocked(l: Lattice, color: Seq<u32>, v: int, c: int) -> bool {
    exists|i: int|
        0 <= i < l.rows[v].len() && precedes(l, (#[trigger] l.rows[v][i]).node, v)
            && color[l.rows[v][i].node] == c
}

/// `v` has the smallest colour that its earlier neighbors leave free.
pub open spec fn greedy_at(l: Lattice, color: Seq<u32>, v: int) -> bool {
    &&& !blocked(l, color, v, color[v] as int)
    &&& forall|c: int| 0 <= c < color[v] ==> #[trigger] blocked(l, color, v, c)
}

/// The greedy colouring of `l`.
pub open spec fn greedy(l: Lattice, color: Seq<u32>) -> bool {
    color.len() == l.h.len() && forall|v: int|
        0 <= v < color.len() ==> #[trigger] greedy_at(l, color, v)
}

/// Class `c` lists the nodes of colour `c`, ascending.
pub open spec fn lists_class(color: Seq<u32>, class: Seq<u32>, c: int) -> bool {
    &&& forall|i: int, j: int| 0 <= i < j < class.len() ==> #[trigger] class[i] < #[trigger] class[j]
    &&& forall|v: u32|
        #[trigger] class.contains(v) <==> v < color.len() && color[v as int] == c
}

/// The classes of a colouring: one list per colour in use, and none beyond.
pub open spec fn lists_classes(color: Seq<u32>, classes: Seq<Seq<u32>>) -> bool {
    &&& forall|v: int| 0 <= v < color.len() ==> #[trigger] color[v] < classes.len()
    &&& classes.len() > 0 ==> exists|v: int|
        0 <= v < color.len() && #[trigger] color[v] == classes.len() - 1
    &&& forall|c: int| 0 <= c < classes.len() ==> lists_class(color, #[trigger] classes[c], c)
}

/// `classes` are the classes of the greedy colouring of `l`.
pub open spec fn colored(l: Lattice, classes: Seq<Seq<u32>>) -> bool {
    exists|color: Seq<u32>| #[trigger] greedy(l, color) && lists_classes(color, classes)
}

/// Some class holds node `v`.
pub open spec fn stands(classes: Seq<Seq<u32>>, v: u32) -> bool {
    exists|c: int| 0 <= c < classes.len() && (#[trigger] classes[c]).contains(v)
}

/// Every node stands in exactly one class, once.
pub open spec fn partitions(classes: Seq<Seq<u32>>, n: int) -> bool {
    &&& forall|v: u32| v < n ==> #[trigger] stands(classes, v)
    &&& forall|c: int, v: u32|
        0 <= c < classes.len() && #[trigger] classes[c].contains(v) ==> v < n
    &&& forall|c: int, d: int, v: u32|
        0 <= c < classes.len() && 0 <= d < classes.len() && #[trigger] classes[c].contains(v)
            && #[trigger] classes[d].contains(v) ==> c == d
    &&& forall|c: int, i: int, j: int|
        #![trigger classes[c][i], classes[c][j]]
        0 <= c < classes.len() && 0 <= i < j < classes[c].len() ==> classes[c][i] != classes[c][j]
}

/// No class holds two ends of a bond.
pub open spec fn independent(l: Lattice, class: Seq<u32>) -> bool {
    forall|v: u32, i: int|
        #![trigger class.contains(v), l.rows[v as int][i]]
        class.contains(v) && v < l.rows.len() && 0 <= i < l.rows[v as int].len() ==> !class.contains(
            l.rows[v as int][i].node as u32,
        )
}

/// The classes of a greedy colouring partition the nodes.
pub proof fn greedy_classes_partition_the_nodes(
    l: Lattice,
    color: Seq<u32>,
    classes: Seq<Seq<u32>>,
)
    requires
        l.h.len() <= u32::MAX,
        color.len() == l.h.len(),
        lists_classes(color, classes),
    ensures
        partitions(classes, l.h.len() as int),
{
    let n = l.h.len() as int;
    assert forall|v: u32| v < n implies #[trigger] stands(classes, v) by {
        let c = color[v as int] as int;
        assert(lists_class(color, classes[c], c));
        assert(classes[c].contains(v));
    }
    assert forall|c: int, v: u32|
        0 <= c < classes.len() && #[trigger] classes[c].contains(v) implies v < n by {
        assert(lists_class(color, classes[c], c));
    }
    assert forall|c: int, d: int, v: u32|
        0 <= c < classes.len() && 0 <= d < classes.len() && #[trigger] classes[c].contains(v)
            && #[trigger] classes[d].contains(v) implies c == d by {
        assert(lists_class(color, classes[c], c));
        assert(lists_class(color, classes[d], d));
    }
    assert forall|c: int, i: int, j: int|
        #![trigger classes[c][i], classes[c][j]]
        0 <= c < classes.len() && 0 <= i < j < classes[c].len() implies classes[c][i]
        != classes[c][j] by {
        assert(lists_class(color, classes[c], c));
    }
}

/// The ends of a bond have different colours.
pub proof fn neighbors_differ_in_color(l: Lattice, color: Seq<u32>, v: int, i: int)
    requires
        l.wf(),
        greedy(l, color),
        0 <= v < l.h.len(),
        0 <= i < l.rows[v].len(),
    ensures
        color[l.rows[v][i].node] != color[v],
{
    let w = l.rows[v][i].node;
    if precedes(l, w, v) {
        assert(greedy_at(l, color, v));
    } else {
        assert(precedes(l, v, w));
        lemma_pair_count(l.rows[v], w);
        lemma_pair_count(l.rows[w], v);
        assert(pair_count(l.rows[v], w) == pair_count(l.rows[w], v));
        let j = choose|j: int| 0 <= j < l.rows[w].len() && (#[trigger] l.rows[w][j]).node == v;
        assert(greedy_at(l, color, w));
        assert(l.rows[w][j].node == v);
    }
}

/// Every class of a greedy colouring is an independent set.
pub proof fn greedy_classes_are_independent(
    l: Lattice,
    color: Seq<u32>,
    classes: Seq<Seq<u32>>,
    c: int,
)
    requires
        l.wf(),
        l.h.len() <= u32::MAX,
        greedy(l, color),
        lists_classes(color, classes),
        0 <= c < classes.len(),
    ensures
        independent(l, classes[c]),
{
    let class = classes[c];
    assert(lists_class(color, class, c));
    assert forall|v: u32, i: int|
        #![trigger class.contains(v), l.rows[v as int][i]]
        class.contains(v) && v < l.rows.len() && 0 <= i < l.rows[v as int].len()
            implies !class.contains(l.rows[v as int][i].node as u32) by {
        neighbors_differ_in_color(l, color, v as int, i);
        let w = l.rows[v as int][i].node;
        assert(0 <= w < l.rows.len());
        assert((w as u32) as int == w);
    }
}

/// Nodes without bonds get colour 0.
pub proof fn isolated_nodes_share_class_zero(l: Lattice, color: Seq<u32>, v: int)
    requires
        greedy(l, color),
        0 <= v < l.h.len(),
        l.rows[v].len() == 0,
    ensures
        color[v] == 0,
{
    assert(greedy_at(l, color, v));
    if color[v] > 0 {
        assert(blocked(l, color, v, 0));
    }
}

/// `color` gives the greedy colour to every node listed in the first `p`
/// entries of `order`, and leaves the others open.
spec fn colored_upto(l: Lattice, order: Seq<usize>, color: Seq<u32>, p: int) -> bool {
    &&& color.len() == l.h.len()
    &&& forall|q: int|
        0 <= q < p ==> color[(#[trigger] order[q]) as int] != u32::MAX && greedy_at(
            l,
            color,
            order[q] as int,
        )
    &&& forall|q: int| p <= q < order.len() ==> color[(#[trigger] order[q]) as int] == u32::MAX
}

/// Two problems with the same bonds, whatever their weights.
pub open spec fn same_bonds(a: Lattice, b: Lattice) -> bool {
    &&& a.h.len() == b.h.len()
    &&& a.rows.len() == b.rows.len()
    &&& forall|v: int| 0 <= v < a.rows.len() ==> (#[trigger] a.rows[v]).len() == b.rows[v].len()
    &&& forall|v: int, i: int|
        #![trigger a.rows[v][i]]
        0 <= v < a.rows.len() && 0 <= i < a.rows[v].len() ==> a.rows[v][i].node
            == b.rows[v][i].node
}

/// Bonds in the first `k` rows, each counted at both ends.
spec fn row_total(l: Lattice, k: int) -> nat
    decreases k,
{
    if k <= 0 {
        0
    } else {
        row_total(l, k - 1) + l.rows[k - 1].len()
    }
}

proof fn lemma_row_total(l: Lattice, v: int, k: int)
    requires
        0 <= v < k,
    ensures
        l.rows[v].len() <= row_total(l, k),
    decreases k,
{
    if v < k - 1 {
        lemma_row_total(l, v, k - 1);
    }
}

/// A greedy colour is fixed by the bonds.
proof fn lemma_color_unique(a: Lattice, b: Lattice, ca: Seq<u32>, cb: Seq<u32>, v: int)
    requires
        a.wf(),
        same_bonds(a, b),
        greedy(a, ca),
        greedy(b, cb),
        0 <= v < a.h.len(),
    ensures
        ca[v] == cb[v],
    decreases row_total(a, a.rows.len() as int) - a.rows[v].len(), v,
{
    let n = a.rows.len() as int;
    assert(a.rows[v].len() == b.rows[v].len());
    assert forall|i: int|
        0 <= i < a.rows[v].len() && precedes(a, (#[trigger] a.rows[v][i]).node, v) implies
        ca[a.rows[v][i].node] == cb[a.rows[v][i].node] by {
        let w = a.rows[v][i].node;
        lemma_row_total(a, w, n);
        lemma_color_unique(a, b, ca, cb, w);
    }
    assert forall|c: int| #[trigger] blocked(a, ca, v, c) <==> blocked(b, cb, v, c) by {
        if blocked(a, ca, v, c) {
            let i = choose|i: int|
                0 <= i < a.rows[v].len() && precedes(a, (#[trigger] a.rows[v][i]).node, v)
                    && ca[a.rows[v][i].node] == c;
            let w = a.rows[v][i].node;
            assert(a.rows[w].len() == b.rows[w].len());
            assert(b.rows[v][i].node == w && precedes(b, w, v));
        }
        if blocked(b, cb, v, c) {
            let i = choose|i: int|
                0 <= i < b.rows[v].len() && precedes(b, (#[trigger] b.rows[v][i]).node, v)
                    && cb[b.rows[v][i].node] == c;
            let w = a.rows[v][i].node;
            assert(b.rows[v][i].node == w);
            assert(a.rows[w].len() == b.rows[w].len());
            assert(precedes(a, w, v));
        }
    }
    assert(greedy_at(a, ca, v) && greedy_at(b, cb, v));
    if ca[v] < cb[v] {
        assert(blocked(b, cb, v, ca[v] as int));
    }
    if cb[v] < ca[v] {
        assert(blocked(a, ca, v, cb[v] as int));
    }
}

/// What is blocked follows the bonds alone.
proof fn lemma_blocked_transfers(a: Lattice, b: Lattice, color: Seq<u32>, v: int, c: int)
    requires
        a.wf(),
        same_bonds(a, b),
        0 <= v < a.h.len(),
    ensures
        blocked(a, color, v, c) <==> blocked(b, color, v, c),
{
    assert(a.rows[v].len() == b.rows[v].len());
    if blocked(a, color, v, c) {
        let i = choose|i: int|
            0 <= i < a.rows[v].len() && precedes(a, (#[trigger] a.rows[v][i]).node, v)
                && color[a.rows[v][i].node] == c;
        let w = a.rows[v][i].node;
        assert(a.rows[w].len() == b.rows[w].len());
        assert(b.rows[v][i].node == w && precedes(b, w, v));
    }
    if blocked(b, color, v, c) {
        let i = choose|i: int|
            0 <= i < b.rows[v].len() && precedes(b, (#[trigger] b.rows[v][i]).node, v)
                && color[b.rows[v][i].node] == c;
        let w = a.rows[v][i].node;
        assert(b.rows[v][i].node == w);
        assert(a.rows[w].len() == b.rows[w].len());
        assert(precedes(a, w, v));
    }
}

/// Classes of one problem are classes of every problem with the same bonds.
pub proof fn lemma_colored_transfers(a: Lattice, b: Lattice, classes: Seq<Seq<u32>>)
    requires
        a.wf(),
        same_bonds(a, b),
        colored(a, classes),
    ensures
        colored(b, classes),
{
    let color = choose|color: Seq<u32>| #[trigger] greedy(a, color) && lists_classes(color, classes);
    assert forall|v: int| 0 <= v < color.len() implies #[trigger] greedy_at(b, color, v) by {
        assert(greedy_at(a, color, v));
        lemma_blocked_transfers(a, b, color, v, color[v] as int);
        assert forall|c: int| 0 <= c < color[v] implies #[trigger] blocked(b, color, v, c) by {
            lemma_blocked_transfers(a, b, color, v, c);
        }
    }
    assert(greedy(b, color));
}

/// Two ascending lists with the same members are the same list.
proof fn lemma_ascending_unique(a: Seq<u32>, b: Seq<u32>)
    requires
        forall|i: int, j: int| 0 <= i < j < a.len() ==> #[trigger] a[i] < #[trigger] a[j],
        forall|i: int, j: int| 0 <= i < j < b.len() ==> #[trigger] b[i] < #[trigger] b[j],
        forall|v: u32| #[trigger] a.contains(v) <==> b.contains(v),
    ensures
        a == b,
    decreases a.len(),
{
    if a.len() == 0 {
        if b.len() > 0 {
            assert(b.contains(b[0]));
            assert(a.contains(b[0]));
        }
        assert(a =~= b);
    } else {
        assert(a.contains(a.last()));
        assert(b.contains(a.last()));
        assert(b.contains(b.last()));
        assert(a.contains(b.last()));
        let i = choose|i: int| 0 <= i < b.len() && b[i] == a.last();
        let j = choose|j: int| 0 <= j < a.len() && a[j] == b.last();
        assert(a.last() == b.last()) by {
            if i < b.len() - 1 {
                assert(b[i] < b[b.len() - 1]);
                if j < a.len() - 1 {
                    assert(a[j] < a[a.len() - 1]);
                }
            }
        }
        let (x, y) = (a.drop_last(), b.drop_last());
        assert forall|v: u32| #[trigger] x.contains(v) <==> y.contains(v) by {
            if x.contains(v) {
                let k = choose|k: int| 0 <= k < x.len() && x[k] == v;
                assert(a[k] == v && a[k] < a[a.len() - 1]);
                assert(a.contains(v));
                assert(b.contains(v));
                let q = choose|q: int| 0 <= q < b.len() && b[q] == v;
                assert(y[q] == v);
            }
            if y.contains(v) {
                let k = choose|k: int| 0 <= k < y.len() && y[k] == v;
                assert(b[k] == v && b[k] < b[b.len() - 1]);
                assert(b.contains(v));
                assert(a.contains(v));
                let q = choose|q: int| 0 <= q < a.len() && a[q] == v;
                assert(x[q] == v);
            }
        }
        lemma_ascending_unique(x, y);
        assert(a =~= x.push(a.last()) && b =~= y.push(b.last()));
    }
}

/// Problems with the same bonds have the same classes: weights do not matter,
/// so a colouring may be kept for the next problem on the same graph.
pub proof fn classes_depend_on_bonds_alone(
    a: Lattice,
    b: Lattice,
    ka: Seq<Seq<u32>>,
    kb: Seq<Seq<u32>>,
)
    requires
        a.wf(),
        same_bonds(a, b),
        colored(a, ka),
        colored(b, kb),
    ensures
        ka == kb,
{
    let ca = choose|color: Seq<u32>| #[trigger] greedy(a, color) && lists_classes(color, ka);
    let cb = choose|color: Seq<u32>| #[trigger] greedy(b, color) && lists_classes(color, kb);
    assert forall|v: int| 0 <= v < ca.len() implies #[trigger] ca[v] == cb[v] by {
        lemma_color_unique(a, b, ca, cb, v);
    }
    assert(ca =~= cb);
    assert(ka.len() == kb.len()) by {
        if ka.len() > 0 {
            let v = choose|v: int| 0 <= v < ca.len() && #[trigger] ca[v] == ka.len() - 1;
            assert(cb[v] < kb.len());
        }
        if kb.len() > 0 {
            let v = choose|v: int| 0 <= v < cb.len() && #[trigger] cb[v] == kb.len() - 1;
            assert(ca[v] < ka.len());
        }
    }
    assert forall|c: int| 0 <= c < ka.len() implies #[trigger] ka[c] == kb[c] by {
        assert(lists_class(ca, ka[c], c) && lists_class(cb, kb[c], c));
        assert forall|v: u32| #[trigger] ka[c].contains(v) <==> kb[c].contains(v) by {}
        lemma_ascending_unique(ka[c], kb[c]);
    }
    assert(ka =~= kb);
}

impl Coloring {
    /// Every class lists nodes of a graph with `n` nodes.
    pub open spec fn covers(&self, n: int) -> bool {
        forall|c: int, i: int|
            #![trigger self@[c][i]]
            0 <= c < self@.len() && 0 <= i < self@[c].len() ==> self@[c][i] < n
    }

    /// Colour `g` greedily in Welsh-Powell order.
    ///
    /// Nodes without bonds land in class 0. A graph without nodes has no
    /// classes.
    pub fn new(g: &CpuGraph) -> (r: Self)
        requires
            g.wf(),
        ensures
            colored(g@, r@),
            partitions(r@, g@.h.len() as int),
            forall|c: int| 0 <= c < r@.len() ==> independent(g@, #[trigger] r@[c]),
            r.covers(g@.h.len() as int),
    {
        let n: usize = g.num_nodes();
        let ghost l = g@;
        proof {
            g.lemma_size();
        }
        let keys = degree_keys(g);
        let order = stable_order(&keys);
        let (color, num_classes) = color_in_order(g, &keys, &order);
        proof {
            assert forall|v: int| 0 <= v < n implies #[trigger] greedy_at(l, color@, v) by {
                assert(order@.contains(v as usize));
                let q = choose|q: int| 0 <= q < order@.len() && order@[q] == v as usize;
                assert(order@[q] == v);
            }
        }
        proof {
            assert forall|v: int| 0 <= v < n implies #[trigger] color@[v] < num_classes by {
                let q = lemma_position(order@, n as int, v);
                assert(color@[order@[q] as int] < num_classes);
            }
        }
        let r = Coloring { classes: collect_classes(&color, num_classes) };
        proof {
            assert(greedy(l, color@));
            assert(lists_classes(color@, r@));
            greedy_classes_partition_the_nodes(l, color@, r@);
            assert forall|c: int| 0 <= c < r@.len() implies independent(l, #[trigger] r@[c]) by {
                greedy_classes_are_independent(l, color@, r@, c);
            }
            assert forall|c: int, i: int|
                #![trigger r@[c][i]]
                0 <= c < r@.len() && 0 <= i < r@[c].len() implies r@[c][i] < n by {
                assert(r@[c].contains(r@[c][i]));
            }
        }
        r
    }

    /// Number of classes.
    pub fn num_classes(&self) -> (k: usize)
        ensures
            k == self@.len(),
    {
        self.classes.len()
    }

    /// The independent sets, in the order a sampler visits them.
    pub fn classes(&self) -> (r: &Vec<Vec<u32>>)
        ensures
            r@.len() == self@.len(),
            forall|c: int| 0 <= c < r@.len() ==> (#[trigger] r@[c])@ == self@[c],
    {
        &self.classes
    }
}

/// Sort keys that put the highest degree first.
fn degree_keys(g: &CpuGraph) -> (keys: Vec<u64>)
    requires
        g.wf(),
    ensures
        keys@.len() == g@.h.len(),
        forall|v: int| 0 <= v < keys@.len() ==> #[trigger] keys@[v] == u64::MAX - g@.rows[v].len(),
{
    let n: usize = g.num_nodes();
    let mut keys: Vec<u64> = Vec::with_capacity(n);
    let mut v: usize = 0;
    while v < n
        invariant
            g.wf(),
            n == g@.h.len(),
            v <= n,
            keys@.len() == v,
            forall|w: int| 0 <= w < v ==> #[trigger] keys@[w] == u64::MAX - g@.rows[w].len(),
        decreases n - v,
    {
        let (nodes, _coups) = g.neighbors(v);
        let degree: u64 = nodes.len() as u64;
        keys.push(u64::MAX - degree);
        v = v + 1;
    }
    keys
}

/// Where a permutation lists index `w`.
proof fn lemma_position(order: Seq<usize>, n: int, w: int) -> (q: int)
    requires
        permutes(order, n),
        0 <= w < n,
        n <= usize::MAX,
    ensures
        0 <= q < n,
        order[q] == w,
{
    assert(order.contains(w as usize));
    choose|q: int| 0 <= q < order.len() && order[q] == w as usize
}

/// Colour the nodes one after another in the given order.
#[verifier::rlimit(60)]
fn color_in_order(g: &CpuGraph, keys: &Vec<u64>, order: &Vec<usize>) -> (r: (Vec<u32>, usize))
    requires
        g.wf(),
        g@.h.len() <= u32::MAX,
        g@.h.len() < usize::MAX,
        keys@.len() == g@.h.len(),
        forall|v: int| 0 <= v < keys@.len() ==> #[trigger] keys@[v] == u64::MAX - g@.rows[v].len(),
        permutes(order@, g@.h.len() as int),
        in_order(keys@, order@),
    ensures
        colored_upto(g@, order@, r.0@, g@.h.len() as int),
        r.1 <= g@.h.len(),
        forall|q: int| 0 <= q < order@.len() ==> r.0@[(#[trigger] order@[q]) as int] < r.1,
        r.1 > 0 ==> exists|v: int| 0 <= v < r.0@.len() && #[trigger] r.0@[v] == r.1 - 1,
{
    let n: usize = g.num_nodes();
    let ghost l = g@;
    proof {
        g.lemma_size();
    }
    let mut color: Vec<u32> = vec![u32::MAX; n];
    // Last node that met each colour among its neighbors.
    let mut taken: Vec<u32> = vec![u32::MAX; n];
    let mut num_classes: usize = 0;
    let mut p: usize = 0;
    while p < n
        invariant
            g.wf(),
            l == g@,
            l.wf(),
            n == l.h.len(),
            n <= u32::MAX,
            n < usize::MAX,
            keys@.len() == n,
            forall|v: int|
                0 <= v < keys@.len() ==> #[trigger] keys@[v] == u64::MAX - l.rows[v].len(),
            permutes(order@, n as int),
            in_order(keys@, order@),
            p <= n,
            taken@.len() == n,
            colored_upto(l, order@, color@, p as int),
            num_classes <= p,
            forall|q: int| 0 <= q < p ==> color@[(#[trigger] order@[q]) as int] < num_classes,
            num_classes > 0 ==> exists|v: int|
                0 <= v < color@.len() && #[trigger] color@[v] == num_classes - 1,
            forall|c: int, q: int|
                0 <= c < n && p <= q < n ==> #[trigger] taken@[c] != #[trigger] order@[q],
        decreases n - p,
    {
        let v: usize = order[p];
        let (nodes, _coups) = g.neighbors(v);
        let ghost row = l.rows[v as int];
        proof {
            assert forall|w: int| 0 <= w < n && color@[w] != u32::MAX implies #[trigger] color@[w]
                < num_classes by {
                let q = lemma_position(order@, n as int, w);
                assert(color@[order@[q] as int] < num_classes || q >= p);
            }
            assert forall|c: int| 0 <= c < n implies #[trigger] taken@[c] != v by {
                assert(taken@[c] != order@[p as int]);
            }
        }
        let mut i: usize = 0;
        while i < nodes.len()
            invariant
                g.wf(),
                l == g@,
                l.wf(),
                n == l.h.len(),
                n <= u32::MAX,
                n < usize::MAX,
                permutes(order@, n as int),
                p < n,
                v == order@[p as int],
                v < n,
                row == l.rows[v as int],
                nodes@.len() == row.len(),
                forall|k: int| 0 <= k < row.len() ==> (#[trigger] row[k]).node == nodes@[k],
                i <= nodes@.len(),
                taken@.len() == n,
                color@.len() == n,
                num_classes <= p,
                forall|w: int| 0 <= w < n && color@[w] != u32::MAX ==> #[trigger] color@[w] < num_classes,
                forall|c: int, q: int|
                    0 <= c < n && p < q < n ==> #[trigger] taken@[c] != #[trigger] order@[q],
                forall|c: int|
                    0 <= c < n ==> (#[trigger] taken@[c] == v <==> exists|k: int|
                        0 <= k < i && color@[(#[trigger] row[k]).node] == c),
            decreases nodes@.len() - i,
        {
            proof {
                assert(0 <= l.rows[v as int][i as int].node < l.rows.len());
                assert(row[i as int].node == nodes@[i as int]);
            }
            let c: u32 = color[nodes[i] as usize];
            let ghost before_taken = taken@;
            if c != u32::MAX {
                taken[c as usize] = v as u32;
            }
            proof {
                assert forall|d: int| 0 <= d < n implies (#[trigger] taken@[d] == v <==> exists|k:
                    int|
                    0 <= k < i + 1 && color@[(#[trigger] row[k]).node] == d) by {
                    if d == c {
                        assert(color@[row[i as int].node] == d);
                    } else if taken@[d] == v {
                        assert(before_taken[d] == v);
                        let k = choose|k: int| 0 <= k < i && color@[(#[trigger] row[k]).node] == d;
                        assert(color@[row[k].node] == d);
                    }
                }
                assert forall|d: int, q: int| 0 <= d < n && p < q < n implies #[trigger] taken@[d]
                    != #[trigger] order@[q] by {
                    assert(before_taken[d] != order@[q]);
                    assert(order@[p as int] != order@[q]);
                }
            }
            i = i + 1;
        }
        proof {
            assert forall|d: int| num_classes <= d < n implies #[trigger] taken@[d] != v by {
                if taken@[d] == v {
                    let k = choose|k: int|
                        0 <= k < row.len() && color@[(#[trigger] row[k]).node] == d;
                    assert(0 <= l.rows[v as int][k].node < l.rows.len());
                    assert(color@[row[k].node] < num_classes);
                }
            }
        }
        let mut c: usize = 0;
        while c < n && taken[c] == v as u32
            invariant
                n == l.h.len(),
                n <= u32::MAX,
                n < usize::MAX,
                taken@.len() == n,
                c <= num_classes,
                num_classes <= p < n,
                forall|d: int| 0 <= d < c ==> #[trigger] taken@[d] == v,
                forall|d: int| num_classes <= d < n ==> #[trigger] taken@[d] != v,
                v < n,
            decreases n - c,
        {
            c = c + 1;
        }
        let ghost before_color = color@;
        color[v] = c as u32;
        if c + 1 > num_classes {
            num_classes = c + 1;
        }
        proof {
            lemma_colored_step(l, keys@, order@, before_color, color@, taken@, p as int, v as int);
            assert forall|q: int| 0 <= q < p + 1 implies color@[(#[trigger] order@[q]) as int]
                < num_classes by {}
            if c + 1 == num_classes {
                assert(color@[v as int] == num_classes - 1);
            } else {
                let w = choose|w: int|
                    0 <= w < before_color.len() && #[trigger] before_color[w] == num_classes - 1;
                assert(w != v);
                assert(color@[w] == num_classes - 1);
            }
        }
        p = p + 1;
    }
    (color, num_classes)
}

/// Giving `v = order[p]` the first colour that none of its coloured neighbors
/// has extends the greedy colouring.
proof fn lemma_colored_step(
    l: Lattice,
    keys: Seq<u64>,
    order: Seq<usize>,
    before_color: Seq<u32>,
    color: Seq<u32>,
    taken: Seq<u32>,
    p: int,
    v: int,
)
    requires
        l.wf(),
        l.h.len() <= u32::MAX,
        keys.len() == l.h.len(),
        forall|w: int| 0 <= w < keys.len() ==> #[trigger] keys[w] == u64::MAX - l.rows[w].len(),
        permutes(order, l.h.len() as int),
        in_order(keys, order),
        0 <= p < order.len(),
        v == order[p],
        colored_upto(l, order, before_color, p),
        color == before_color.update(v, color[v]),
        color[v] < l.h.len(),
        taken.len() == l.h.len(),
        forall|c: int|
            0 <= c < l.h.len() ==> (#[trigger] taken[c] == v <==> exists|k: int|
                0 <= k < l.rows[v].len() && before_color[(#[trigger] l.rows[v][k]).node] == c),
        forall|d: int| 0 <= d < color[v] ==> #[trigger] taken[d] == v,
        taken[color[v] as int] != v,
    ensures
        colored_upto(l, order, color, p + 1),
{
    // Before `v` is coloured, a node has a colour exactly when it precedes `v`.
    assert forall|w: int| 0 <= w < l.h.len() && w != v implies (#[trigger] before_color[w]
        != u32::MAX <==> precedes(l, w, v)) by {
        assert(order.contains(w as usize));
        let q = choose|q: int| 0 <= q < order.len() && order[q] == w as usize;
        assert(order[q] == w);
        if q < p {
            assert(before(keys, order[q], order[p]));
        } else {
            assert(before(keys, order[p], order[q]));
        }
    }
    assert forall|u: int, c: int| 0 <= u < l.h.len() && u != v && before_color[u] != u32::MAX
        && 0 <= c implies (#[trigger] blocked(l, color, u, c) <==> blocked(l, before_color, u, c)) by {
        assert(precedes(l, u, v));
        if blocked(l, color, u, c) {
            let i = choose|i: int|
                0 <= i < l.rows[u].len() && precedes(l, (#[trigger] l.rows[u][i]).node, u)
                    && color[l.rows[u][i].node] == c;
            assert(precedes(l, l.rows[u][i].node, u) && before_color[l.rows[u][i].node] == c);
        }
        if blocked(l, before_color, u, c) {
            let i = choose|i: int|
                0 <= i < l.rows[u].len() && precedes(l, (#[trigger] l.rows[u][i]).node, u)
                    && before_color[l.rows[u][i].node] == c;
            assert(precedes(l, l.rows[u][i].node, u) && color[l.rows[u][i].node] == c);
        }
    }
    assert(greedy_at(l, color, v)) by {
        if blocked(l, color, v, color[v] as int) {
            let i = choose|i: int|
                0 <= i < l.rows[v].len() && precedes(l, (#[trigger] l.rows[v][i]).node, v)
                    && color[l.rows[v][i].node] == color[v];
            assert(before_color[l.rows[v][i].node] == color[v] as int);
            assert(false);
        }
        assert forall|c: int| 0 <= c < color[v] implies #[trigger] blocked(l, color, v, c) by {
            assert(taken[c] == v);
            let k = choose|k: int|
                0 <= k < l.rows[v].len() && before_color[(#[trigger] l.rows[v][k]).node] == c;
            let w = l.rows[v][k].node;
            assert(w != v);
            assert(before_color[w] != u32::MAX);
            assert(precedes(l, w, v) && color[w] == c);
        }
    }
    assert forall|q: int| 0 <= q < p + 1 implies color[(#[trigger] order[q]) as int] != u32::MAX
        && greedy_at(l, color, order[q] as int) by {
        if q < p {
            let u = order[q] as int;
            assert(order[q] != order[p]);
            assert(greedy_at(l, before_color, u));
            assert(!blocked(l, color, u, color[u] as int));
            assert forall|c: int| 0 <= c < color[u] implies #[trigger] blocked(l, color, u, c) by {
                assert(blocked(l, before_color, u, c));
            }
        }
    }
    assert forall|q: int| p + 1 <= q < order.len() implies color[(#[trigger] order[q]) as int]
        == u32::MAX by {
        assert(order[p] != order[q]);
    }
}

/// List the nodes of each colour.
fn collect_classes(color: &Vec<u32>, num_classes: usize) -> (classes: Vec<Vec<u32>>)
    requires
        color@.len() <= u32::MAX,
        forall|v: int| 0 <= v < color@.len() ==> #[trigger] color@[v] < num_classes,
    ensures
        classes@.len() == num_classes,
        forall|c: int|
            0 <= c < num_classes ==> lists_class(color@, (#[trigger] classes@[c])@, c),
{
    let mut classes: Vec<Vec<u32>> = Vec::with_capacity(num_classes);
    while classes.len() < num_classes
        invariant
            classes@.len() <= num_classes,
            forall|c: int| 0 <= c < classes@.len() ==> (#[trigger] classes@[c])@.len() == 0,
        decreases num_classes - classes@.len(),
    {
        classes.push(Vec::new());
    }
    let mut v: usize = 0;
    while v < color.len()
        invariant
            color@.len() <= u32::MAX,
            forall|v: int| 0 <= v < color@.len() ==> #[trigger] color@[v] < num_classes,
            classes@.len() == num_classes,
            v <= color@.len(),
            forall|c: int|
                0 <= c < num_classes ==> lists_class(
                    color@.take(v as int),
                    (#[trigger] classes@[c])@,
                    c,
                ),
        decreases color@.len() - v,
    {
        let c: usize = color[v] as usize;
        let ghost before_classes = classes@;
        classes[c].push(v as u32);
        proof {
            assert forall|d: int| 0 <= d < num_classes implies lists_class(
                color@.take(v as int + 1),
                (#[trigger] classes@[d])@,
                d,
            ) by {
                let short = before_classes[d]@;
                let long = classes@[d]@;
                assert(lists_class(color@.take(v as int), short, d));
                if d == c {
                    assert(long == short.push(v as u32));
                    assert forall|u: u32| #[trigger] long.contains(u) <==> u < color@.take(
                        v as int + 1,
                    ).len() && color@.take(v as int + 1)[u as int] == d by {
                        if long.contains(u) {
                            let i = choose|i: int| 0 <= i < long.len() && long[i] == u;
                            if i < short.len() {
                                assert(short[i] == u);
                                assert(short.contains(u));
                            }
                        }
                        if u < v && color@[u as int] == d {
                            assert(short.contains(u));
                            let i = choose|i: int| 0 <= i < short.len() && short[i] == u;
                            assert(long[i] == u);
                        }
                        if u == v {
                            assert(long[short.len() as int] == u);
                        }
                    }
                    assert forall|i: int, j: int| 0 <= i < j < long.len() implies #[trigger] long[i]
                        < #[trigger] long[j] by {
                        if j == short.len() {
                            assert(short.contains(short[i]));
                        }
                    }
                } else {
                    assert(long == short);
                    assert forall|u: u32| #[trigger] long.contains(u) <==> u < color@.take(
                        v as int + 1,
                    ).len() && color@.take(v as int + 1)[u as int] == d by {
                        assert(short.contains(u) <==> u < v && color@[u as int] == d);
                    }
                }
            }
        }
        v = v + 1;
    }
    assert(color@.take(color@.len() as int) =~= color@);
    classes
}

} // verus!
