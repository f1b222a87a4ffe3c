//! Problems of graded size, cut from or tiled out of one hardware topology, for
//! comparing the samplers on them.
use rand::rngs::SmallRng;
use vstd::prelude::*;

use crate::bench::source::pairs_inside;
use crate::ising::{binds, IsingGraph};
use crate::rng::{drawn_from, seeded, streams, Draw, Source};
use crate::scalar::Scalar;

verus! {

/// A topology with its nodes numbered from 0 on.
#[derive(Debug)]
pub struct Pivot {
    /// Number of nodes.
    pub num_nodes: usize,
    /// Edges.
    pub edges: Vec<(usize, usize)>,
    /// Couplings to draw from, in thousandths.
    pub allowed_j_milli: Vec<i32>,
}

/// Every edge joins two nodes of the topology.
pub open spec fn edges_inside(n: int, edges: Seq<(usize, usize)>) -> bool {
    forall|k: int| 0 <= k < edges.len() ==> (#[trigger] edges[k]).0 < n && edges[k].1 < n
}

/// The number of the node with hardware id `id` among the first `k`: the last
/// one, and `usize::MAX` where there is none.
pub open spec fn number_of(ids: Seq<usize>, id: int, k: int) -> int
    decreases k,
{
    if k <= 0 {
        usize::MAX as int
    } else if ids[k - 1] == id {
        k - 1
    } else {
        number_of(ids, id, k - 1)
    }
}

/// The highest of the first `k` ids.
pub open spec fn highest(ids: Seq<usize>, k: int) -> usize
    decreases k,
{
    if k <= 1 {
        ids[0]
    } else if highest(ids, k - 1) < ids[k - 1] {
        ids[k - 1]
    } else {
        highest(ids, k - 1)
    }
}

proof fn lemma_highest(ids: Seq<usize>, k: int)
    requires
        0 < k <= ids.len(),
    ensures
        forall|i: int| 0 <= i < k ==> #[trigger] ids[i] <= highest(ids, k),
    decreases k,
{
    if k > 1 {
        lemma_highest(ids, k - 1);
    }
}

/// Number the nodes of a topology from 0 on, in the order of their ids, and name
/// the ends of its edges by these numbers.
pub fn relabel(ids: &Vec<usize>, edges: &Vec<(usize, usize)>) -> (r: Vec<(usize, usize)>)
    requires
        ids@.len() > 0,
        highest(ids@, ids@.len() as int) < usize::MAX,
        edges_inside(highest(ids@, ids@.len() as int) + 1, edges@),
    ensures
        r@.len() == edges@.len(),
        forall|k: int|
            0 <= k < edges@.len() ==> {
                &&& (#[trigger] r@[k]).0 == number_of(
                    ids@,
                    edges@[k].0 as int,
                    ids@.len() as int,
                )
                &&& r@[k].1 == number_of(ids@, edges@[k].1 as int, ids@.len() as int)
            },
{
    let mut top: usize = ids[0];
    let mut i: usize = 1;
    while i < ids.len()
        invariant
            1 <= i <= ids@.len(),
            top == highest(ids@, i as int),
        decreases ids@.len() - i,
    {
        if top < ids[i] {
            top = ids[i];
        }
        i = i + 1;
    }
    let mut index: Vec<usize> = vec![usize::MAX; top + 1];
    let mut d: usize = 0;
    proof {
        lemma_highest(ids@, ids@.len() as int);
    }
    while d < ids.len()
        invariant
            forall|i: int| 0 <= i < ids@.len() ==> #[trigger] ids@[i] <= top,
            top < usize::MAX,
            index@.len() == top + 1,
            d <= ids@.len(),
            forall|id: int| 0 <= id <= top ==> #[trigger] index@[id] == number_of(ids@, id, d as int),
        decreases ids@.len() - d,
    {
        assert(ids@[d as int] <= top);
        index.set(ids[d], d);
        d = d + 1;
    }
    let mut r: Vec<(usize, usize)> = Vec::with_capacity(edges.len());
    let mut k: usize = 0;
    while k < edges.len()
        invariant
            edges_inside(top + 1, edges@),
            index@.len() == top + 1,
            forall|id: int|
                0 <= id <= top ==> #[trigger] index@[id] == number_of(
                    ids@,
                    id,
                    ids@.len() as int,
                ),
            k <= edges@.len(),
            r@.len() == k,
            forall|t: int|
                0 <= t < k ==> {
                    &&& (#[trigger] r@[t]).0 == number_of(
                        ids@,
                        edges@[t].0 as int,
                        ids@.len() as int,
                    )
                    &&& r@[t].1 == number_of(ids@, edges@[t].1 as int, ids@.len() as int)
                },
        decreases edges@.len() - k,
    {
        assert(edges@[k as int].0 <= top && edges@[k as int].1 <= top);
        r.push((index[edges[k].0], index[edges[k].1]));
        k = k + 1;
    }
    r
}

/// The nodes joined to `v` by the first `k` edges, in the order of the edges.
pub open spec fn joined_to(edges: Seq<(usize, usize)>, v: int, k: int) -> Seq<usize>
    decreases k,
{
    if k <= 0 {
        Seq::empty()
    } else {
        let before = joined_to(edges, v, k - 1);
        let mid = if edges[k - 1].0 == v {
            before.push(edges[k - 1].1)
        } else {
            before
        };
        if edges[k - 1].1 == v {
            mid.push(edges[k - 1].0)
        } else {
            mid
        }
    }
}

/// The list `found` with the first `k` of `row` added, each that it lacks.
pub open spec fn with_new(found: Seq<usize>, row: Seq<usize>, k: int) -> Seq<usize>
    decreases k,
{
    if k <= 0 {
        found
    } else {
        let before = with_new(found, row, k - 1);
        if before.contains(row[k - 1]) {
            before
        } else {
            before.push(row[k - 1])
        }
    }
}

/// The nodes found breadth first from node 0, after the neighbors of the first
/// `k` of them have been added.
pub open spec fn found_after(edges: Seq<(usize, usize)>, k: int) -> Seq<usize>
    decreases k,
{
    if k <= 0 {
        seq![0usize]
    } else {
        let before = found_after(edges, k - 1);
        let row = joined_to(edges, before[k - 1] as int, edges.len() as int);
        with_new(before, row, row.len() as int)
    }
}

/// `order` is the breadth-first order from node 0, cut off after `target` nodes;
/// the nodes that node 0 reaches where they are fewer, or `target` is 0.
pub open spec fn breadth_first(
    edges: Seq<(usize, usize)>,
    target: int,
    order: Seq<usize>,
) -> bool {
    let m = order.len() as int;
    &&& m > 0
    &&& order == found_after(edges, m - 1).take(m)
    &&& forall|k: int| 0 < k < m ==> k != target && k < #[trigger] found_after(edges, k).len()
    &&& m == target || found_after(edges, m).len() == m
}

/// The number of node `v` in `order`.
pub open spec fn slot_of(order: Seq<usize>, v: int, k: int) -> Option<usize>
    decreases k,
{
    if k <= 0 {
        None
    } else if order[k - 1] == v {
        Some((k - 1) as usize)
    } else {
        slot_of(order, v, k - 1)
    }
}

/// Of the first `k` edges those between nodes of `order`, by their numbers in it.
pub open spec fn kept_edges(
    edges: Seq<(usize, usize)>,
    order: Seq<usize>,
    k: int,
) -> Seq<(usize, usize)>
    decreases k,
{
    if k <= 0 {
        Seq::empty()
    } else {
        let before = kept_edges(edges, order, k - 1);
        let n = order.len() as int;
        match (
            slot_of(order, edges[k - 1].0 as int, n),
            slot_of(order, edges[k - 1].1 as int, n),
        ) {
            (Some(a), Some(b)) => before.push((a, b)),
            _ => before,
        }
    }
}

/// Neighbor lists of the nodes.
fn neighbor_lists(n: usize, edges: &Vec<(usize, usize)>) -> (adj: Vec<Vec<usize>>)
    requires
        edges_inside(n as int, edges@),
    ensures
        adj@.len() == n,
        forall|v: int|
            0 <= v < n ==> (#[trigger] adj@[v])@ == joined_to(edges@, v, edges@.len() as int),
{
    let mut adj: Vec<Vec<usize>> = Vec::with_capacity(n);
    while adj.len() < n
        invariant
            adj@.len() <= n,
            forall|v: int| 0 <= v < adj@.len() ==> (#[trigger] adj@[v])@.len() == 0,
        decreases n - adj@.len(),
    {
        adj.push(Vec::new());
    }
    let mut k: usize = 0;
    assert forall|v: int| 0 <= v < n implies (#[trigger] adj@[v])@ == joined_to(edges@, v, 0) by {
        assert(adj@[v]@ =~= Seq::empty());
    }
    while k < edges.len()
        invariant
            edges_inside(n as int, edges@),
            adj@.len() == n,
            k <= edges@.len(),
            forall|v: int|
                0 <= v < n ==> (#[trigger] adj@[v])@ == joined_to(edges@, v, k as int),
        decreases edges@.len() - k,
    {
        let (u, v) = edges[k];
        assert(edges@[k as int].0 < n && edges@[k as int].1 < n);
        let ghost before = adj@;
        adj[u].push(v);
        adj[v].push(u);
        proof {
            assert forall|w: int| 0 <= w < n implies (#[trigger] adj@[w])@ == joined_to(
                edges@,
                w,
                k + 1,
            ) by {
                assert(before[w]@ == joined_to(edges@, w, k as int));
            }
        }
        k = k + 1;
    }
    adj
}

proof fn lemma_with_new(found: Seq<usize>, row: Seq<usize>, k: int, n: int)
    requires
        0 <= k <= row.len(),
        forall|t: int| 0 <= t < found.len() ==> #[trigger] found[t] < n,
        forall|t: int| 0 <= t < row.len() ==> #[trigger] row[t] < n,
    ensures
        found.len() <= with_new(found, row, k).len(),
        with_new(found, row, k).take(found.len() as int) == found,
        forall|i: int|
            0 <= i < with_new(found, row, k).len() ==> #[trigger] with_new(found, row, k)[i] < n,
    decreases k,
{
    if k > 0 {
        lemma_with_new(found, row, k - 1, n);
        let before = with_new(found, row, k - 1);
        assert(before.push(row[k - 1]).take(found.len() as int) =~= before.take(
            found.len() as int,
        ));
    } else {
        assert(found.take(found.len() as int) =~= found);
    }
}

proof fn lemma_joined_inside(n: int, edges: Seq<(usize, usize)>, v: int, k: int)
    requires
        edges_inside(n, edges),
        0 <= k <= edges.len(),
    ensures
        forall|t: int|
            0 <= t < joined_to(edges, v, k).len() ==> #[trigger] joined_to(edges, v, k)[t] < n,
    decreases k,
{
    if k > 0 {
        lemma_joined_inside(n, edges, v, k - 1);
        assert(edges[k - 1].0 < n && edges[k - 1].1 < n);
        let (before, all) = (joined_to(edges, v, k - 1), joined_to(edges, v, k));
        assert forall|t: int| 0 <= t < all.len() implies #[trigger] all[t] < n by {
            if t < before.len() {
                assert(before[t] < n);
            }
        }
    }
}

proof fn lemma_new_distinct(found: Seq<usize>, row: Seq<usize>, k: int)
    requires
        0 <= k <= row.len(),
        found.no_duplicates(),
    ensures
        with_new(found, row, k).no_duplicates(),
    decreases k,
{
    if k > 0 {
        lemma_new_distinct(found, row, k - 1);
    }
}

proof fn lemma_distinct_fit(s: Seq<usize>, n: int)
    requires
        n >= 0,
        s.no_duplicates(),
        forall|t: int| 0 <= t < s.len() ==> #[trigger] s[t] < n,
    ensures
        s.len() <= n,
{
    let ints = s.map_values(|x: usize| x as int);
    assert(ints.no_duplicates());
    ints.unique_seq_to_set();
    vstd::set_lib::lemma_int_range(0, n);
    assert forall|x: int| ints.to_set().contains(x) implies vstd::set_lib::set_int_range(
        0,
        n,
    ).contains(x) by {
        let t = choose|t: int| 0 <= t < ints.len() && ints[t] == x;
        assert(s[t] < n);
    }
    vstd::set_lib::lemma_len_subset(ints.to_set(), vstd::set_lib::set_int_range(0, n));
}

/// `keep` marks the nodes in `found`.
spec fn marks(keep: Seq<bool>, found: Seq<usize>) -> bool {
    forall|v: usize| v < keep.len() ==> (#[trigger] keep[v as int] <==> found.contains(v))
}

/// Add the neighbors of a node that have not been found.
fn add_new(found: &mut Vec<usize>, keep: &mut Vec<bool>, row: &Vec<usize>)
    requires
        marks(old(keep)@, old(found)@),
        forall|t: int| 0 <= t < row@.len() ==> #[trigger] row@[t] < old(keep)@.len(),
    ensures
        final(keep)@.len() == old(keep)@.len(),
        final(found)@ == with_new(old(found)@, row@, row@.len() as int),
        marks(final(keep)@, final(found)@),
{
    let ghost start = found@;
    let mut i: usize = 0;
    while i < row.len()
        invariant
            keep@.len() == old(keep)@.len(),
            forall|t: int| 0 <= t < row@.len() ==> #[trigger] row@[t] < keep@.len(),
            i <= row@.len(),
            found@ == with_new(start, row@, i as int),
            marks(keep@, found@),
        decreases row@.len() - i,
    {
        let y: usize = row[i];
        if !keep[y] {
            let ghost before = found@;
            let ghost marked = keep@;
            keep.set(y, true);
            found.push(y);
            proof {
                assert forall|v: usize| v < keep@.len() implies (#[trigger] keep@[v as int]
                    <==> found@.contains(v)) by {
                    assert(marked[v as int] <==> before.contains(v));
                    if before.contains(v) {
                        let t = choose|t: int| 0 <= t < before.len() && before[t] == v;
                        assert(found@[t] == v);
                    }
                    if v == y {
                        assert(found@[before.len() as int] == v);
                    }
                    if found@.contains(v) && v != y {
                        let t = choose|t: int| 0 <= t < found@.len() && found@[t] == v;
                        assert(before[t] == v);
                    }
                }
            }
        }
        i = i + 1;
    }
}

/// The nodes breadth first from node 0, `target` of them at most.
pub fn breadth_first_order(p: &Pivot, target: usize) -> (order: Vec<usize>)
    requires
        p.num_nodes > 0,
        edges_inside(p.num_nodes as int, p.edges@),
    ensures
        breadth_first(p.edges@, target as int, order@),
        forall|i: int| 0 <= i < order@.len() ==> #[trigger] order@[i] < p.num_nodes,
{
    let n: usize = p.num_nodes;
    let ghost edges = p.edges@;
    let adj = neighbor_lists(n, &p.edges);
    let mut keep: Vec<bool> = vec![false; n];
    let mut found: Vec<usize> = Vec::new();
    keep.set(0, true);
    found.push(0);
    let mut k: usize = 0;
    let mut full: bool = false;
    proof {
        assert(found@ =~= seq![0usize]);
        assert(found@[0] == 0);
    }
    while k < found.len() && !full
        invariant
            edges == p.edges@,
            n == p.num_nodes,
            edges_inside(n as int, edges),
            adj@.len() == n,
            forall|v: int|
                0 <= v < n ==> (#[trigger] adj@[v])@ == joined_to(edges, v, edges.len() as int),
            keep@.len() == n,
            found@ == found_after(edges, k as int),
            forall|i: int| 0 <= i < found@.len() ==> #[trigger] found@[i] < n,
            marks(keep@, found@),
            0 < found@.len(),
            k <= found@.len(),
            full ==> k < found@.len() && k + 1 == target,
            target == 0 || k < target,
            found@.no_duplicates(),
            forall|j: int| 0 <= j < k ==> j < #[trigger] found_after(edges, j).len(),
        decreases n - k, !full as int,
    {
        if k + 1 == target {
            full = true;
        } else {
            let x: usize = found[k];
            let ghost before = found@;
            proof {
                assert(before[k as int] < n);
                lemma_joined_inside(n as int, edges, x as int, edges.len() as int);
                lemma_with_new(before, adj@[x as int]@, adj@[x as int]@.len() as int, n as int);
                lemma_new_distinct(before, adj@[x as int]@, adj@[x as int]@.len() as int);
                lemma_distinct_fit(before, n as int);
            }
            add_new(&mut found, &mut keep, &adj[x]);
            k = k + 1;
        }
    }
    let m: usize = if full {
        k + 1
    } else {
        k
    };
    found.truncate(m);
    proof {
        let all = found_after(edges, k as int);
        assert(found@ =~= all.take(m as int));
        if !full {
            let before = found_after(edges, k - 1);
            let row = joined_to(edges, before[k - 1] as int, edges.len() as int);
            lemma_bounded(n as int, edges, k - 1);
            lemma_joined_inside(n as int, edges, before[k - 1] as int, edges.len() as int);
            lemma_with_new(before, row, row.len() as int, n as int);
            assert(before.len() == k);
            assert(all =~= before);
        }
        assert(found@ =~= found_after(edges, m - 1).take(m as int));
    }
    found
}

proof fn lemma_bounded(n: int, edges: Seq<(usize, usize)>, k: int)
    requires
        n > 0,
        edges_inside(n, edges),
        0 <= k,
        forall|j: int| 0 <= j < k ==> j < #[trigger] found_after(edges, j).len(),
    ensures
        forall|i: int|
            0 <= i < found_after(edges, k).len() ==> #[trigger] found_after(edges, k)[i] < n,
    decreases k,
{
    if k > 0 {
        lemma_bounded(n, edges, k - 1);
        let before = found_after(edges, k - 1);
        let row = joined_to(edges, before[k - 1] as int, edges.len() as int);
        assert(before[k - 1] < n);
        lemma_joined_inside(n, edges, before[k - 1] as int, edges.len() as int);
        lemma_with_new(before, row, row.len() as int, n);
    }
}

/// The part of a topology on its first `target` nodes breadth first from node 0,
/// its nodes numbered in that order. The hardware joins low ids to high ones, so
/// a cut on the lowest ids would keep far fewer edges per node.
pub fn cut(p: &Pivot, target: usize) -> (edges: Vec<(usize, usize)>)
    requires
        p.num_nodes > 0,
        edges_inside(p.num_nodes as int, p.edges@),
    ensures
        exists|order: Seq<usize>| #[trigger]
            breadth_first(p.edges@, target as int, order) && edges@ == kept_edges(
                p.edges@,
                order,
                p.edges@.len() as int,
            ),
{
    let order = breadth_first_order(p, target);
    let n: usize = p.num_nodes;
    let mut dense: Vec<usize> = vec![usize::MAX; n];
    let mut i: usize = 0;
    while i < order.len()
        invariant
            forall|t: int| 0 <= t < order@.len() ==> #[trigger] order@[t] < n,
            dense@.len() == n,
            i <= order@.len(),
            forall|v: int|
                0 <= v < n ==> #[trigger] dense@[v] == (match slot_of(order@, v, i as int) {
                    Some(a) => a,
                    None => usize::MAX,
                }),
        decreases order@.len() - i,
    {
        dense.set(order[i], i);
        i = i + 1;
    }
    let mut edges: Vec<(usize, usize)> = Vec::new();
    let mut k: usize = 0;
    while k < p.edges.len()
        invariant
            edges_inside(n as int, p.edges@),
            dense@.len() == n,
            i == order@.len(),
            forall|v: int|
                0 <= v < n ==> #[trigger] dense@[v] == (match slot_of(order@, v, i as int) {
                    Some(a) => a,
                    None => usize::MAX,
                }),
            k <= p.edges@.len(),
            edges@ == kept_edges(p.edges@, order@, k as int),
        decreases p.edges@.len() - k,
    {
        let (u, v) = p.edges[k];
        assert(p.edges@[k as int].0 < n && p.edges@[k as int].1 < n);
        proof {
            lemma_slot(order@, u as int, i as int);
            lemma_slot(order@, v as int, i as int);
        }
        if dense[u] != usize::MAX && dense[v] != usize::MAX {
            edges.push((dense[u], dense[v]));
        }
        k = k + 1;
    }
    assert(breadth_first(p.edges@, target as int, order@));
    edges
}

proof fn lemma_slot(order: Seq<usize>, v: int, k: int)
    requires
        0 <= k <= usize::MAX,
    ensures
        slot_of(order, v, k) matches Some(a) ==> a < k,
    decreases k,
{
    if k > 0 {
        lemma_slot(order, v, k - 1);
    }
}

/// The edges of tiles `0..t`, and the first `k` edges of tile `t`: copies of the
/// topology side by side, without the edges that leave the first `target` nodes.
pub open spec fn tile_edges(
    edges: Seq<(usize, usize)>,
    n: int,
    target: int,
    t: int,
    k: int,
) -> Seq<(usize, usize)>
    decreases t, k,
{
    if k > 0 {
        let before = tile_edges(edges, n, target, t, k - 1);
        let (u, v) = (t * n + edges[k - 1].0, t * n + edges[k - 1].1);
        if u < target && v < target {
            before.push((u as usize, v as usize))
        } else {
            before
        }
    } else if t > 0 {
        tile_edges(edges, n, target, t - 1, edges.len() as int)
    } else {
        Seq::empty()
    }
}

/// How many tiles of `n` nodes cover `target` nodes.
pub open spec fn tiles_for(n: int, target: int) -> int {
    (target + n - 1) / n
}

/// The edges of all tiles.
pub open spec fn all_tiles(edges: Seq<(usize, usize)>, n: int, target: int) -> Seq<(usize, usize)> {
    tile_edges(edges, n, target, tiles_for(n, target), 0)
}

/// Copies of a topology side by side, on `target` nodes.
pub fn tile(p: &Pivot, target: usize) -> (edges: Vec<(usize, usize)>)
    requires
        p.num_nodes > 0,
        edges_inside(p.num_nodes as int, p.edges@),
        target + p.num_nodes <= usize::MAX,
    ensures
        edges@ == all_tiles(p.edges@, p.num_nodes as int, target as int),
{
    let n: usize = p.num_nodes;
    let tiles: usize = (target + (n - 1)) / n;
    let mut edges: Vec<(usize, usize)> = Vec::new();
    let mut t: usize = 0;
    let mut base: usize = 0;
    proof {
        vstd::arithmetic::div_mod::lemma_fundamental_div_mod(target + n - 1, n as int);
        assert(tiles * n <= target + n - 1) by (nonlinear_arith)
            requires
                target + n - 1 == n * tiles + (target + n - 1) % (n as int),
                (target + n - 1) % (n as int) >= 0,
        ;
        assert(0 * n == 0) by (nonlinear_arith);
    }
    while t < tiles
        invariant
            n == p.num_nodes,
            n > 0,
            edges_inside(n as int, p.edges@),
            target + n <= usize::MAX,
            tiles == tiles_for(n as int, target as int),
            tiles * n <= target + n - 1,
            t <= tiles,
            base == t * n,
            edges@ == tile_edges(p.edges@, n as int, target as int, t as int, 0),
        decreases tiles - t,
    {
        proof {
            assert(t * n + n <= tiles * n) by (nonlinear_arith)
                requires
                    t + 1 <= tiles,
                    n > 0,
            ;
            assert((t + 1) * n == t * n + n) by (nonlinear_arith);
        }
        let mut k: usize = 0;
        while k < p.edges.len()
            invariant
                edges_inside(n as int, p.edges@),
                base == t * n,
                base + n <= usize::MAX,
                k <= p.edges@.len(),
                edges@ == tile_edges(p.edges@, n as int, target as int, t as int, k as int),
            decreases p.edges@.len() - k,
        {
            assert(p.edges@[k as int].0 < n && p.edges@[k as int].1 < n);
            let u: usize = base + p.edges[k].0;
            let v: usize = base + p.edges[k].1;
            if u < target && v < target {
                edges.push((u, v));
            }
            k = k + 1;
        }
        base = base + n;
        t = t + 1;
    }
    edges
}

/// `e` joins two nodes of different tiles, the lower first.
pub open spec fn crosses(n: int, target: int, e: (usize, usize)) -> bool {
    e.0 < e.1 && e.1 < target && (e.0 as int) / n != (e.1 as int) / n
}

/// The edge between two drawn nodes, where they stand in different tiles.
pub fn crossing(n: usize, u: usize, v: usize) -> (e: Option<(usize, usize)>)
    requires
        n > 0,
    ensures
        e is Some <==> u as int / n as int != v as int / n as int,
        e matches Some(x) ==> x == if u < v {
            (u, v)
        } else {
            (v, u)
        },
{
    if u != v && u / n != v / n {
        if u < v {
            Some((u, v))
        } else {
            Some((v, u))
        }
    } else {
        None
    }
}

/// The edges that the first `k` pairs make between tiles of `n` nodes, in order
/// and `room` at most: a pair counts where it joins two tiles.
pub open spec fn crossings(n: int, room: int, pairs: Seq<(usize, usize)>, k: int) -> Seq<
    (usize, usize),
>
    decreases k,
{
    if k <= 0 {
        Seq::empty()
    } else {
        let sofar = crossings(n, room, pairs, k - 1);
        let (u, v) = pairs[k - 1];
        if sofar.len() < room && u as int / n != v as int / n {
            sofar.push(
                if u < v {
                    (u, v)
                } else {
                    (v, u)
                },
            )
        } else {
            sofar
        }
    }
}

/// `after` is `before` with edges between tiles from drawn pairs of `target`
/// nodes: `tries` draws at most, and all of them where there are fewer than
/// `want` edges.
pub open spec fn stitched(
    n: int,
    target: int,
    want: int,
    tries: nat,
    before: Seq<(usize, usize)>,
    after: Seq<(usize, usize)>,
    pairs: Seq<(usize, usize)>,
) -> bool {
    &&& pairs_inside(target, pairs)
    &&& pairs.len() <= tries
    &&& after == before + crossings(n, want - before.len(), pairs, pairs.len() as int)
    &&& after.len() >= want || pairs.len() == tries
}

proof fn lemma_crossings(n: int, target: int, room: int, pairs: Seq<(usize, usize)>, k: int)
    requires
        0 < n,
        pairs_inside(target, pairs),
        0 <= k <= pairs.len(),
    ensures
        room >= 0 ==> crossings(n, room, pairs, k).len() <= room,
        room <= 0 ==> crossings(n, room, pairs, k).len() == 0,
        forall|i: int|
            0 <= i < crossings(n, room, pairs, k).len() ==> crosses(
                n,
                target,
                #[trigger] crossings(n, room, pairs, k)[i],
            ),
    decreases k,
{
    if k > 0 {
        lemma_crossings(n, target, room, pairs, k - 1);
        let sofar = crossings(n, room, pairs, k - 1);
        assert forall|i: int| 0 <= i < crossings(n, room, pairs, k).len() implies crosses(
            n,
            target,
            #[trigger] crossings(n, room, pairs, k)[i],
        ) by {
            assert(pairs[k - 1].0 < target && pairs[k - 1].1 < target);
            if i < sofar.len() {
                assert(crossings(n, room, pairs, k)[i] == sofar[i]);
            }
        }
    }
}

proof fn lemma_crossings_prefix(
    n: int,
    room: int,
    a: Seq<(usize, usize)>,
    b: Seq<(usize, usize)>,
    k: int,
)
    requires
        k <= a.len() <= b.len(),
        forall|i: int| 0 <= i < k ==> a[i] == b[i],
    ensures
        crossings(n, room, a, k) == crossings(n, room, b, k),
    decreases k,
{
    if k > 0 {
        lemma_crossings_prefix(n, room, a, b, k - 1);
    }
}

/// Add the edges between tiles that the pairs make, up to `want` edges.
pub fn stitch_pairs(
    edges: &mut Vec<(usize, usize)>,
    pairs: &Vec<(usize, usize)>,
    n: usize,
    want: usize,
)
    requires
        n > 0,
    ensures
        final(edges)@ == old(edges)@ + crossings(
            n as int,
            want - old(edges)@.len(),
            pairs@,
            pairs@.len() as int,
        ),
{
    let ghost start = edges@;
    let mut k: usize = 0;
    assert(edges@ =~= start + crossings(n as int, want - start.len(), pairs@, 0));
    while k < pairs.len()
        invariant
            n > 0,
            k <= pairs@.len(),
            edges@ == start + crossings(n as int, want - start.len(), pairs@, k as int),
        decreases pairs@.len() - k,
    {
        let (u, v) = pairs[k];
        if edges.len() < want {
            if let Some(e) = crossing(n, u, v) {
                edges.push(e);
            }
        }
        k = k + 1;
        assert(edges@ =~= start + crossings(n as int, want - start.len(), pairs@, k as int));
    }
}

/// Pair `k` is draws `2 * k` and `2 * k + 1` of `log`, each a number below `n`.
pub open spec fn pairs_on(n: usize, log: Seq<Draw>, pairs: Seq<(usize, usize)>) -> bool {
    &&& log.len() == 2 * pairs.len()
    &&& forall|k: int|
        0 <= k < pairs.len() ==> pair_on(n, log[2 * k], log[2 * k + 1], #[trigger] pairs[k])
}

/// The pair is these two draws of numbers below `n`.
pub open spec fn pair_on(n: usize, a: Draw, b: Draw, pair: (usize, usize)) -> bool {
    a == Draw::Below(n, pair.0) && b == Draw::Below(n, pair.1)
}

proof fn lemma_pairs_push(
    n: usize,
    log: Seq<Draw>,
    pairs: Seq<(usize, usize)>,
    pair: (usize, usize),
)
    requires
        pairs_on(n, log, pairs),
    ensures
        pairs_on(
            n,
            log.push(Draw::Below(n, pair.0)).push(Draw::Below(n, pair.1)),
            pairs.push(pair),
        ),
{
    let more = log.push(Draw::Below(n, pair.0)).push(Draw::Below(n, pair.1));
    let longer = pairs.push(pair);
    assert forall|k: int| 0 <= k < longer.len() implies pair_on(
        n,
        more[2 * k],
        more[2 * k + 1],
        #[trigger] longer[k],
    ) by {
        if k < pairs.len() {
            assert(pair_on(n, log[2 * k], log[2 * k + 1], pairs[k]));
        }
    }
}

/// Add random edges between tiles up to `want` edges, in `tries` draws at most.
/// Tells whether there are as many.
pub fn stitch(
    edges: &mut Vec<(usize, usize)>,
    n: usize,
    target: usize,
    want: usize,
    tries: usize,
    rng: &mut SmallRng,
) -> (r: bool)
    requires
        0 < n < target,
    ensures
        r == (final(edges)@.len() >= want),
        exists|pairs: Seq<(usize, usize)>, log: Seq<Draw>|
            #![trigger stitched(n as int, target as int, want as int, tries as nat, old(edges)@, final(edges)@, pairs), streams(*old(rng), log, *final(rng))]
            stitched(
                n as int,
                target as int,
                want as int,
                tries as nat,
                old(edges)@,
                final(edges)@,
                pairs,
            ) && streams(*old(rng), log, *final(rng)) && pairs_on(target, log, pairs),
        final(edges)@.len() >= old(edges)@.len(),
        final(edges)@.take(old(edges)@.len() as int) == old(edges)@,
        old(edges)@.len() <= want ==> final(edges)@.len() <= want,
        old(edges)@.len() >= want ==> final(edges)@ == old(edges)@,
        forall|k: int|
            old(edges)@.len() <= k < final(edges)@.len() ==> crosses(
                n as int,
                target as int,
                #[trigger] final(edges)@[k],
            ),
{
    let mut src = Source::taken(rng);
    let r = draw_edges(edges, n, target, want, tries, &mut src);
    src.give_back(rng);
    r
}

/// Add random edges between tiles from a fresh source.
fn draw_edges(
    edges: &mut Vec<(usize, usize)>,
    n: usize,
    target: usize,
    want: usize,
    tries: usize,
    src: &mut Source,
) -> (r: bool)
    requires
        0 < n < target,
        old(src).wf(),
        old(src).log().len() == 0,
    ensures
        r == (final(edges)@.len() >= want),
        final(src).wf(),
        final(src).start() == old(src).start(),
        exists|pairs: Seq<(usize, usize)>| #[trigger]
            stitched(
                n as int,
                target as int,
                want as int,
                tries as nat,
                old(edges)@,
                final(edges)@,
                pairs,
            ) && pairs_on(target, final(src).log(), pairs),
        final(edges)@.len() >= old(edges)@.len(),
        final(edges)@.take(old(edges)@.len() as int) == old(edges)@,
        old(edges)@.len() <= want ==> final(edges)@.len() <= want,
        old(edges)@.len() >= want ==> final(edges)@ == old(edges)@,
        forall|k: int|
            old(edges)@.len() <= k < final(edges)@.len() ==> crosses(
                n as int,
                target as int,
                #[trigger] final(edges)@[k],
            ),
{
    let ghost start = edges@;
    let ghost room = want - start.len();
    let ghost mut pairs: Seq<(usize, usize)> = Seq::empty();
    let mut left: usize = tries;
    assert(edges@ =~= start + crossings(n as int, room, pairs, 0));
    while edges.len() < want && left > 0
        invariant
            0 < n < target,
            room == want - start.len(),
            left <= tries,
            pairs.len() == tries - left,
            pairs_inside(target as int, pairs),
            src.wf(),
            src.start() == old(src).start(),
            pairs_on(target, src.log(), pairs),
            edges@ == start + crossings(n as int, room, pairs, pairs.len() as int),
        decreases left,
    {
        let ghost held = src.log();
        let u: usize = src.below(target);
        let v: usize = src.below(target);
        let ghost before = pairs;
        proof {
            lemma_pairs_push(target, held, before, (u, v));
            pairs = pairs.push((u, v));
            lemma_crossings_prefix(n as int, room, before, pairs, before.len() as int);
        }
        if let Some(e) = crossing(n, u, v) {
            edges.push(e);
        }
        assert(edges@ =~= start + crossings(n as int, room, pairs, pairs.len() as int));
        left = left - 1;
    }
    proof {
        let added = crossings(n as int, room, pairs, pairs.len() as int);
        lemma_crossings(n as int, target as int, room, pairs, pairs.len() as int);
        assert(edges@.take(start.len() as int) =~= start);
        assert forall|k: int| start.len() <= k < edges@.len() implies crosses(
            n as int,
            target as int,
            #[trigger] edges@[k],
        ) by {
            assert(edges@[k] == added[k - start.len()]);
        }
        assert(stitched(
            n as int,
            target as int,
            want as int,
            tries as nat,
            start,
            edges@,
            pairs,
        ));
    }
    edges.len() >= want
}

/// `edges` is the topology at `target` nodes: a breadth-first cut below the size
/// of the topology, and stitched tiles above.
pub open spec fn graded(p: Pivot, target: int, want: int, edges: Seq<(usize, usize)>) -> bool {
    let n = p.num_nodes as int;
    if target < n {
        exists|order: Seq<usize>| #[trigger]
            breadth_first(p.edges@, target, order) && edges == kept_edges(
                p.edges@,
                order,
                p.edges@.len() as int,
            )
    } else {
        let tiles = all_tiles(p.edges@, n, target);
        if tiles_for(n, target) <= 1 || tiles.len() >= want {
            edges == tiles
        } else {
            &&& edges.len() == want
            &&& edges.take(tiles.len() as int) == tiles
            &&& forall|k: int|
                tiles.len() <= k < edges.len() ==> crosses(n, target, #[trigger] edges[k])
        }
    }
}

/// The number of edges that `target` nodes have at the density of a topology.
/// `round` gives the whole number nearest to its argument.
pub fn edge_target<R: Scalar, F: Fn(R) -> usize>(p: &Pivot, target: usize, round: &F) -> (want:
    usize)
    requires
        forall|x: R| #[trigger] call_requires(*round, (x,)),
    ensures
        call_ensures(
            *round,
            (R::fraction(p.edges@.len(), p.num_nodes as nat).times(R::fraction(target as nat, 1)),),
            want,
        ),
{
    round(R::ratio(p.edges.len(), p.num_nodes).product(R::ratio(target, 1)))
}

/// The topology at `target` nodes with `want` edges where tiles are stitched.
/// `None` where `tries` draws did not give enough edges.
pub fn topology_at(p: &Pivot, target: usize, seed: u64, want: usize, tries: usize) -> (r: Option<
    Vec<(usize, usize)>,
>)
    requires
        p.num_nodes > 0,
        edges_inside(p.num_nodes as int, p.edges@),
        target + p.num_nodes <= usize::MAX,
    ensures
        r matches Some(edges) ==> graded(*p, target as int, want as int, edges@),
        target <= p.num_nodes ==> r is Some,
        target > p.num_nodes ==> exists|
            pairs: Seq<(usize, usize)>,
            edges: Seq<(usize, usize)>,
            log: Seq<Draw>,
        |
            #![trigger stitched(p.num_nodes as int, target as int, want as int, tries as nat, all_tiles(p.edges@, p.num_nodes as int, target as int), edges, pairs), drawn_from(seed, log)]
            {
                &&& drawn_from(seed, log)
                &&& pairs_on(target, log, pairs)
                &&& stitched(
                    p.num_nodes as int,
                    target as int,
                    want as int,
                    tries as nat,
                    all_tiles(p.edges@, p.num_nodes as int, target as int),
                    edges,
                    pairs,
                )
                &&& r is Some <==> edges.len() >= want
                &&& r matches Some(x) ==> x@ == edges
            },
{
    let n: usize = p.num_nodes;
    if target < n {
        return Some(cut(p, target));
    }
    let mut edges = tile(p, target);
    proof {
        lemma_tiles(n as int, target as int);
    }
    if target > n {
        let mut src = Source::seeded(seed);
        let enough: bool = draw_edges(&mut edges, n, target, want, tries, &mut src);
        proof {
            src.lemma_record(seed);
        }
        if !enough {
            return None;
        }
    }
    Some(edges)
}

proof fn lemma_tiles(n: int, target: int)
    requires
        0 < n <= target,
    ensures
        tiles_for(n, target) <= 1 <==> target == n,
{
    let q = tiles_for(n, target);
    vstd::arithmetic::div_mod::lemma_fundamental_div_mod(target + n - 1, n);
    let r = (target + n - 1) % n;
    assert(q <= 1 <==> target == n) by (nonlinear_arith)
        requires
            target + n - 1 == n * q + r,
            0 <= r < n,
            0 < n <= target,
    ;
}

/// Each coupling is one of those allowed, by the number in its place in `log`.
pub open spec fn couplings_on(allowed: Seq<i32>, log: Seq<Draw>, j: Seq<i32>) -> bool {
    &&& log.len() == j.len()
    &&& forall|k: int| 0 <= k < j.len() ==> coupling_on(allowed, log[k], #[trigger] j[k])
}

/// The coupling is the one of those allowed that the drawn number picks.
pub open spec fn coupling_on(allowed: Seq<i32>, d: Draw, j: i32) -> bool {
    d matches Draw::Below(n, x) && n == allowed.len() && x < n && j == allowed[x as int]
}

/// A problem on a topology: no fields, and couplings drawn from those allowed.
pub fn instance(edges: Vec<(usize, usize)>, num_nodes: usize, allowed: &Vec<i32>, seed: u64) -> (g:
    IsingGraph)
    requires
        allowed@.len() > 0,
    ensures
        g.edges == edges,
        g.h@.len() == num_nodes,
        forall|v: int| 0 <= v < num_nodes ==> #[trigger] g.h@[v] == 0,
        g.j@.len() == edges@.len(),
        forall|k: int| 0 <= k < g.j@.len() ==> allowed@.contains(#[trigger] g.j@[k]),
        exists|log: Seq<Draw>| #[trigger]
            drawn_from(seed, log) && couplings_on(allowed@, log, g.j@),
{
    let mut src = Source::seeded(seed);
    let mut j: Vec<i32> = Vec::with_capacity(edges.len());
    while j.len() < edges.len()
        invariant
            allowed@.len() > 0,
            j@.len() <= edges@.len(),
            forall|k: int| 0 <= k < j@.len() ==> allowed@.contains(#[trigger] j@[k]),
            src.wf(),
            seeded(seed, src.start()),
            couplings_on(allowed@, src.log(), j@),
        decreases edges@.len() - j@.len(),
    {
        let ghost before = j@;
        let ghost held = src.log();
        let pick: usize = src.below(allowed.len());
        j.push(allowed[pick]);
        assert forall|k: int| 0 <= k < j@.len() implies coupling_on(
            allowed@,
            src.log()[k],
            #[trigger] j@[k],
        ) by {
            if k < before.len() {
                assert(j@[k] == before[k]);
                assert(coupling_on(allowed@, held[k], before[k]));
            }
        }
    }
    proof {
        src.lemma_record(seed);
    }
    IsingGraph::new(vec![0i32; num_nodes], j, edges)
}

/// The pairs among the first `k` that join two different nodes, in order.
pub open spec fn proper_pairs(pairs: Seq<(usize, usize)>, k: int) -> Seq<(usize, usize)>
    decreases k,
{
    if k <= 0 {
        Seq::empty()
    } else if pairs[k - 1].0 != pairs[k - 1].1 {
        proper_pairs(pairs, k - 1).push(pairs[k - 1])
    } else {
        proper_pairs(pairs, k - 1)
    }
}

/// The pairs that join two different nodes, in order.
pub fn proper_edges(pairs: &Vec<(usize, usize)>) -> (edges: Vec<(usize, usize)>)
    ensures
        edges@ == proper_pairs(pairs@, pairs@.len() as int),
{
    let mut edges: Vec<(usize, usize)> = Vec::new();
    let mut k: usize = 0;
    while k < pairs.len()
        invariant
            k <= pairs@.len(),
            edges@ == proper_pairs(pairs@, k as int),
        decreases pairs@.len() - k,
    {
        let (u, v) = pairs[k];
        if u != v {
            edges.push((u, v));
        }
        k = k + 1;
    }
    edges
}

proof fn lemma_proper_pairs(n: int, pairs: Seq<(usize, usize)>, k: int)
    requires
        pairs_inside(n, pairs),
        0 <= k <= pairs.len(),
    ensures
        proper_pairs(pairs, k).len() <= k,
        forall|i: int|
            0 <= i < proper_pairs(pairs, k).len() ==> binds(n, #[trigger] proper_pairs(pairs, k)[i]),
    decreases k,
{
    if k > 0 {
        lemma_proper_pairs(n, pairs, k - 1);
        assert forall|i: int| 0 <= i < proper_pairs(pairs, k).len() implies binds(
            n,
            #[trigger] proper_pairs(pairs, k)[i],
        ) by {
            if i < proper_pairs(pairs, k - 1).len() {
                assert(proper_pairs(pairs, k)[i] == proper_pairs(pairs, k - 1)[i]);
            }
        }
    }
}

/// Random edges between different nodes: `per_node` pairs are drawn for each
/// node, and those that give one node twice are left out.
pub fn random_edges(n: usize, per_node: usize, seed: u64) -> (edges: Vec<(usize, usize)>)
    requires
        per_node * n <= usize::MAX,
    ensures
        exists|pairs: Seq<(usize, usize)>, log: Seq<Draw>|
            {
                &&& drawn_from(seed, log)
                &&& #[trigger] pairs_on(n, log, pairs)
                &&& pairs_inside(n as int, pairs)
                &&& pairs.len() == per_node * n
                &&& edges@ == proper_pairs(pairs, pairs.len() as int)
            },
        edges@.len() <= per_node * n,
        forall|k: int| 0 <= k < edges@.len() ==> binds(n as int, #[trigger] edges@[k]),
{
    let mut src = Source::seeded(seed);
    let count: usize = per_node * n;
    let mut pairs: Vec<(usize, usize)> = Vec::with_capacity(count);
    proof {
        assert(count > 0 ==> n > 0) by (nonlinear_arith)
            requires
                count == per_node * n,
        ;
    }
    while pairs.len() < count
        invariant
            count > 0 ==> n > 0,
            pairs@.len() <= count,
            pairs_inside(n as int, pairs@),
            src.wf(),
            seeded(seed, src.start()),
            pairs_on(n, src.log(), pairs@),
        decreases count - pairs@.len(),
    {
        let ghost before = pairs@;
        let ghost held = src.log();
        let u: usize = src.below(n);
        let v: usize = src.below(n);
        pairs.push((u, v));
        proof {
            lemma_pairs_push(n, held, before, (u, v));
        }
    }
    proof {
        src.lemma_record(seed);
        lemma_proper_pairs(n as int, pairs@, pairs@.len() as int);
    }
    proper_edges(&pairs)
}

/// A topology and a size have one cut.
pub proof fn cut_is_determined(
    edges: Seq<(usize, usize)>,
    target: int,
    a: Seq<usize>,
    b: Seq<usize>,
)
    requires
        breadth_first(edges, target, a),
        breadth_first(edges, target, b),
    ensures
        a == b,
{
    let (m, n) = (a.len() as int, b.len() as int);
    if m < n {
        assert(m < found_after(edges, m).len());
    } else if n < m {
        assert(n < found_after(edges, n).len());
    }
}

/// The samplers compared.
#[derive(Debug, Clone, Copy, PartialEq, Eq, Structural)]
pub enum Kernel {
    /// Metropolis annealing.
    Sa,
    /// Chromatic Gibbs sampling.
    Gibbs,
    /// Discrete simulated bifurcation.
    Sb,
    /// Ballistic simulated bifurcation.
    Bsb,
    /// Matrix product states.
    Mps,
    /// Mean field.
    Mfa,
}

impl Kernel {
    /// Its name.
    pub open spec fn label(self) -> Seq<char> {
        match self {
            Kernel::Sa => "cpu-sa"@,
            Kernel::Gibbs => "cpu-gibbs"@,
            Kernel::Sb => "cpu-sb"@,
            Kernel::Bsb => "cpu-bsb"@,
            Kernel::Mps => "cpu-mps"@,
            Kernel::Mfa => "cpu-mfa"@,
        }
    }

    /// Its name.
    pub fn name(self) -> (r: &'static str)
        ensures
            r@ == self.label(),
    {
        match self {
            Kernel::Sa => "cpu-sa",
            Kernel::Gibbs => "cpu-gibbs",
            Kernel::Sb => "cpu-sb",
            Kernel::Bsb => "cpu-bsb",
            Kernel::Mps => "cpu-mps",
            Kernel::Mfa => "cpu-mfa",
        }
    }
}

proof fn lemma_slot_holds(order: Seq<usize>, v: int, k: int)
    requires
        0 <= k <= order.len() <= usize::MAX,
    ensures
        slot_of(order, v, k) matches Some(s) ==> s < k && order[s as int] == v,
        slot_of(order, v, k) is None ==> forall|i: int| 0 <= i < k ==> #[trigger] order[i] != v,
    decreases k,
{
    if k > 0 {
        lemma_slot_holds(order, v, k - 1);
    }
}

/// Edge `e` between numbers of `order` stands for `edge` between its nodes.
pub open spec fn stands_for(order: Seq<usize>, e: (usize, usize), edge: (usize, usize)) -> bool {
    &&& e.0 < order.len()
    &&& e.1 < order.len()
    &&& order[e.0 as int] == edge.0
    &&& order[e.1 as int] == edge.1
}

/// A cut keeps the edges between its nodes, and no others: every kept edge stands
/// for an edge of the topology, and every edge with both ends in the cut is kept.
pub proof fn a_cut_keeps_the_edges_between_its_nodes(
    edges: Seq<(usize, usize)>,
    order: Seq<usize>,
    k: int,
)
    requires
        0 <= k <= edges.len(),
        order.len() <= usize::MAX,
    ensures
        forall|i: int|
            0 <= i < kept_edges(edges, order, k).len() ==> exists|j: int|
                0 <= j < k && stands_for(
                    order,
                    #[trigger] kept_edges(edges, order, k)[i],
                    #[trigger] edges[j],
                ),
        forall|j: int|
            0 <= j < k && order.contains((#[trigger] edges[j]).0) && order.contains(edges[j].1)
                ==> exists|i: int|
                0 <= i < kept_edges(edges, order, k).len() && stands_for(
                    order,
                    #[trigger] kept_edges(edges, order, k)[i],
                    edges[j],
                ),
    decreases k,
{
    if k > 0 {
        a_cut_keeps_the_edges_between_its_nodes(edges, order, k - 1);
        let n = order.len() as int;
        let (before, after) = (kept_edges(edges, order, k - 1), kept_edges(edges, order, k));
        let edge = edges[k - 1];
        lemma_slot_holds(order, edge.0 as int, n);
        lemma_slot_holds(order, edge.1 as int, n);
        assert forall|i: int| 0 <= i < before.len() implies #[trigger] after[i] == before[i] by {}
        assert forall|i: int| 0 <= i < after.len() implies exists|j: int|
            0 <= j < k && stands_for(order, #[trigger] after[i], #[trigger] edges[j]) by {
            if i < before.len() {
                let j = choose|j: int|
                    0 <= j < k - 1 && stands_for(order, before[i], #[trigger] edges[j]);
                assert(stands_for(order, after[i], edges[j]));
            } else {
                assert(stands_for(order, after[i], edges[k - 1]));
            }
        }
        assert forall|j: int|
            0 <= j < k && order.contains((#[trigger] edges[j]).0) && order.contains(
                edges[j].1,
            ) implies exists|i: int|
            0 <= i < after.len() && stands_for(order, #[trigger] after[i], edges[j]) by {
            if j < k - 1 {
                let i = choose|i: int|
                    0 <= i < before.len() && stands_for(
                        order,
                        #[trigger] before[i],
                        edges[j],
                    );
                assert(stands_for(order, after[i], edges[j]));
            } else {
                let a = choose|a: int| 0 <= a < order.len() && order[a] == edge.0;
                let b = choose|b: int| 0 <= b < order.len() && order[b] == edge.1;
                assert(order[a] == edge.0 && order[b] == edge.1);
                assert(after.len() == before.len() + 1);
                assert(stands_for(order, after[before.len() as int], edges[j]));
            }
        }
    }
}

} // verus!
