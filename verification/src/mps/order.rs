//! Graph-to-chain mapping.
//!
//! The ordering fixes every edge span, and the sum of spans fixes the cost of
//! an anneal on the chain.
use vstd::prelude::*;

use crate::ising::binds;
use crate::sort::{before, in_order, permutes, stable_order};

verus! {

/// Edge `k` binds `u` and `v`.
pub open spec fn joins(n: int, edges: Seq<(usize, usize)>, k: int, u: int, v: int) -> bool {
    binds(n, edges[k]) && ((edges[k].0 == u && edges[k].1 == v) || (edges[k].0 == v && edges[k].1
        == u))
}

/// Some edge binds `u` and `v`.
pub open spec fn linked(n: int, edges: Seq<(usize, usize)>, u: int, v: int) -> bool {
    exists|k: int| 0 <= k < edges.len() && #[trigger] joins(n, edges, k, u, v)
}

/// Nodes below `k` that are linked to `v`.
pub open spec fn links_below(n: int, edges: Seq<(usize, usize)>, v: int, k: int) -> nat
    decreases k,
{
    if k <= 0 {
        0
    } else if linked(n, edges, v, k - 1) {
        links_below(n, edges, v, k - 1) + 1
    } else {
        links_below(n, edges, v, k - 1)
    }
}

/// Distinct neighbors of `v`.
pub open spec fn degree(n: int, edges: Seq<(usize, usize)>, v: int) -> nat {
    links_below(n, edges, v, n)
}

/// `a` goes before `b`: fewer neighbors, or as many and a smaller number.
pub open spec fn lighter(n: int, edges: Seq<(usize, usize)>, a: int, b: int) -> bool {
    degree(n, edges, a) < degree(n, edges, b) || (degree(n, edges, a) == degree(n, edges, b) && a
        < b)
}

/// Slot `q` is the first that is linked to the node in slot `p`.
pub open spec fn first_link(
    n: int,
    edges: Seq<(usize, usize)>,
    s: Seq<u32>,
    q: int,
    p: int,
) -> bool {
    &&& 0 <= q < p
    &&& linked(n, edges, s[q] as int, s[p] as int)
    &&& forall|r: int| 0 <= r < q ==> !linked(n, edges, #[trigger] s[r] as int, s[p] as int)
}

/// Node `v` has no slot before slot `p`.
pub open spec fn waits(n: int, s: Seq<u32>, p: int, v: int) -> bool {
    0 <= v < n && forall|i: int| 0 <= i < p ==> #[trigger] s[i] != v
}

/// Slot `p` opens a component: nothing before it is linked to a node that still
/// waits, and it holds the lightest of those nodes.
pub open spec fn opens(n: int, edges: Seq<(usize, usize)>, s: Seq<u32>, p: int) -> bool {
    &&& forall|q: int, v: int|
        0 <= q < p && #[trigger] waits(n, s, p, v) ==> !linked(
            n,
            edges,
            #[trigger] s[q] as int,
            v,
        )
    &&& forall|v: int|
        #[trigger] waits(n, s, p, v) && v != s[p] ==> lighter(n, edges, s[p] as int, v)
}

/// Slot `p` follows a slot that it is linked to.
pub open spec fn follows(n: int, edges: Seq<(usize, usize)>, s: Seq<u32>, p: int) -> bool {
    exists|q: int| #[trigger] first_link(n, edges, s, q, p)
}

/// Breadth first: what is linked to an earlier slot comes first, and among the
/// nodes first linked to the same slot the lighter one.
pub open spec fn breadth_first(
    n: int,
    edges: Seq<(usize, usize)>,
    s: Seq<u32>,
    q: int,
    p: int,
    t: int,
    r: int,
) -> bool {
    first_link(n, edges, s, q, p) && first_link(n, edges, s, t, r) && p < r ==> q <= t && (q == t
        ==> lighter(n, edges, s[p] as int, s[r] as int))
}

/// `s` lists every node below `n` exactly once.
pub open spec fn lists_nodes(n: int, s: Seq<u32>) -> bool {
    &&& s.len() == n
    &&& forall|i: int| 0 <= i < n ==> #[trigger] s[i] < n
    &&& forall|i: int, j: int| 0 <= i < j < n ==> #[trigger] s[i] != #[trigger] s[j]
    &&& forall|v: u32| v < n ==> #[trigger] s.contains(v)
}

/// `s` is the Cuthill-McKee order.
pub open spec fn cuthill_mckee(n: int, edges: Seq<(usize, usize)>, s: Seq<u32>) -> bool {
    &&& lists_nodes(n, s)
    &&& forall|p: int|
        0 <= p < n ==> #[trigger] opens(n, edges, s, p) || follows(n, edges, s, p)
    &&& forall|q: int, p: int, t: int, r: int|
        0 <= p < r < n ==> #[trigger] breadth_first(n, edges, s, q, p, t, r)
}

/// Whether an edge binds two nodes below `n`.
fn edge_binds(n: usize, e: (usize, usize)) -> (r: bool)
    ensures
        r <==> binds(n as int, e),
{
    e.0 < n && e.1 < n && e.0 != e.1
}

/// Neighbor lists, one entry per edge and end.
fn neighbor_lists(n: usize, edges: &Vec<(usize, usize)>) -> (adj: Vec<Vec<u32>>)
    requires
        n <= u32::MAX,
    ensures
        adj@.len() == n,
        forall|v: int, w: u32|
            0 <= v < n ==> (#[trigger] adj@[v]@.contains(w) <==> linked(
                n as int,
                edges@,
                v,
                w as int,
            )),
{
    let mut adj: Vec<Vec<u32>> = Vec::with_capacity(n);
    while adj.len() < n
        invariant
            adj@.len() <= n,
            forall|v: int| 0 <= v < adj@.len() ==> (#[trigger] adj@[v])@.len() == 0,
        decreases n - adj@.len(),
    {
        adj.push(Vec::new());
    }
    let mut k: usize = 0;
    proof {
        assert forall|v: int, w: u32| 0 <= v < n implies (#[trigger] adj@[v]@.contains(w)
            <==> linked_upto(n as int, edges@, 0, v, w as int)) by {
            assert(adj@[v]@.len() == 0);
        }
    }
    while k < edges.len()
        invariant
            n <= u32::MAX,
            k <= edges@.len(),
            adj@.len() == n,
            forall|v: int, w: u32|
                0 <= v < n ==> (#[trigger] adj@[v]@.contains(w) <==> linked_upto(
                    n as int,
                    edges@,
                    k as int,
                    v,
                    w as int,
                )),
        decreases edges@.len() - k,
    {
        let e = edges[k];
        let ghost prev = adj@;
        if edge_binds(n, e) {
            let u: usize = e.0;
            let v: usize = e.1;
            adj[u].push(v as u32);
            let ghost mid = adj@;
            adj[v].push(u as u32);
            proof {
                assert(mid[u as int]@ == prev[u as int]@.push(v as u32));
                assert(adj@[v as int]@ == prev[v as int]@.push(u as u32));
                assert forall|x: int, w: u32| 0 <= x < n implies (#[trigger] adj@[x]@.contains(w)
                    <==> linked_upto(n as int, edges@, k + 1, x, w as int)) by {
                    lemma_push_contains(prev[u as int]@, v as u32, w);
                    lemma_push_contains(prev[v as int]@, u as u32, w);
                    assert(prev[x]@.contains(w) <==> linked_upto(
                        n as int,
                        edges@,
                        k as int,
                        x,
                        w as int,
                    ));
                    lemma_linked_step(n as int, edges@, k as int, x, w as int);
                }
            }
        } else {
            proof {
                assert forall|x: int, w: u32| 0 <= x < n implies (#[trigger] adj@[x]@.contains(w)
                    <==> linked_upto(n as int, edges@, k + 1, x, w as int)) by {
                    lemma_linked_step(n as int, edges@, k as int, x, w as int);
                }
            }
        }
        k = k + 1;
    }
    adj
}

/// One of the first `k` edges binds `u` and `v`.
spec fn linked_upto(n: int, edges: Seq<(usize, usize)>, k: int, u: int, v: int) -> bool {
    exists|i: int| 0 <= i < k && #[trigger] joins(n, edges, i, u, v)
}

proof fn lemma_linked_step(n: int, edges: Seq<(usize, usize)>, k: int, u: int, v: int)
    requires
        0 <= k < edges.len(),
    ensures
        linked_upto(n, edges, k + 1, u, v) <==> linked_upto(n, edges, k, u, v) || joins(
            n,
            edges,
            k,
            u,
            v,
        ),
{
    if linked_upto(n, edges, k, u, v) {
        let i = choose|i: int| 0 <= i < k && #[trigger] joins(n, edges, i, u, v);
        assert(joins(n, edges, i, u, v));
    }
}

proof fn lemma_push_contains(s: Seq<u32>, x: u32, w: u32)
    ensures
        s.push(x).contains(w) <==> s.contains(w) || w == x,
{
    if s.contains(w) {
        let i = choose|i: int| 0 <= i < s.len() && s[i] == w;
        assert(s.push(x)[i] == w);
    }
    assert(s.push(x)[s.len() as int] == x);
    if s.push(x).contains(w) && w != x {
        let i = choose|i: int| 0 <= i < s.push(x).len() && s.push(x)[i] == w;
        assert(s[i] == w);
    }
}

/// The members of a list, each once, ascending.
fn distinct(row: &Vec<u32>) -> (r: Vec<u32>)
    ensures
        forall|i: int, j: int| 0 <= i < j < r@.len() ==> #[trigger] r@[i] < #[trigger] r@[j],
        forall|w: u32| #[trigger] r@.contains(w) <==> row@.contains(w),
{
    let mut keys: Vec<u64> = Vec::with_capacity(row.len());
    let mut i: usize = 0;
    while i < row.len()
        invariant
            i <= row@.len(),
            keys@.len() == i,
            forall|k: int| 0 <= k < i ==> #[trigger] keys@[k] == row@[k],
        decreases row@.len() - i,
    {
        keys.push(row[i] as u64);
        i = i + 1;
    }
    let order = stable_order(&keys);
    let mut r: Vec<u32> = Vec::new();
    let mut q: usize = 0;
    while q < order.len()
        invariant
            keys@.len() == row@.len(),
            forall|k: int| 0 <= k < keys@.len() ==> #[trigger] keys@[k] == row@[k],
            permutes(order@, keys@.len() as int),
            in_order(keys@, order@),
            q <= order@.len(),
            forall|i: int, j: int| 0 <= i < j < r@.len() ==> #[trigger] r@[i] < #[trigger] r@[j],
            forall|k: int|
                0 <= k < r@.len() ==> exists|i: int|
                    0 <= i < q && #[trigger] r@[k] == row@[(#[trigger] order@[i]) as int],
            forall|i: int|
                0 <= i < q ==> r@.len() > 0 && row@[(#[trigger] order@[i]) as int]
                    <= r@[r@.len() - 1] && r@.contains(row@[order@[i] as int]),
        decreases order@.len() - q,
    {
        let at: usize = order[q];
        let x: u32 = row[at];
        let ghost prev = r@;
        let fresh: bool = r.len() == 0 || r[r.len() - 1] < x;
        proof {
            assert forall|i: int| 0 <= i < q implies row@[(#[trigger] order@[i]) as int] <= x by {
                assert(before(keys@, order@[i], order@[q as int]));
            }
            if r@.len() > 0 {
                let m = r@.len() - 1;
                let i = choose|i: int|
                    0 <= i < q && r@[m] == row@[(#[trigger] order@[i]) as int];
                assert(row@[order@[i] as int] <= x);
            }
        }
        if fresh {
            r.push(x);
            proof {
                assert forall|k: int| 0 <= k < r@.len() implies exists|i: int|
                    0 <= i < q + 1 && #[trigger] r@[k] == row@[(#[trigger] order@[i]) as int] by {
                    if k < prev.len() {
                        assert(r@[k] == prev[k]);
                        let i = choose|i: int|
                            0 <= i < q && prev[k] == row@[(#[trigger] order@[i]) as int];
                        assert(r@[k] == row@[order@[i] as int]);
                    } else {
                        assert(r@[k] == row@[order@[q as int] as int]);
                    }
                }
                assert forall|i: int| 0 <= i < q + 1 implies r@.len() > 0 && row@[(
                #[trigger] order@[i]) as int] <= r@[r@.len() - 1] && r@.contains(
                    row@[order@[i] as int],
                ) by {
                    lemma_push_contains(prev, x, row@[order@[i] as int]);
                }
            }
        } else {
            proof {
                assert(r@[r@.len() - 1] == x);
                assert(r@.contains(x));
                assert forall|k: int| 0 <= k < r@.len() implies exists|i: int|
                    0 <= i < q + 1 && #[trigger] r@[k] == row@[(#[trigger] order@[i]) as int] by {
                    let i = choose|i: int|
                        0 <= i < q && prev[k] == row@[(#[trigger] order@[i]) as int];
                    assert(r@[k] == row@[order@[i] as int]);
                }
            }
        }
        q = q + 1;
    }
    proof {
        assert forall|w: u32| #[trigger] r@.contains(w) <==> row@.contains(w) by {
            if r@.contains(w) {
                let k = choose|k: int| 0 <= k < r@.len() && r@[k] == w;
                let i = choose|i: int|
                    0 <= i < order@.len() && r@[k] == row@[(#[trigger] order@[i]) as int];
                assert(row@[order@[i] as int] == w);
            }
            if row@.contains(w) {
                let k = choose|k: int| 0 <= k < row@.len() && row@[k] == w;
                assert(order@.contains(k as usize));
                let i = choose|i: int| 0 <= i < order@.len() && order@[i] == k as usize;
                assert(r@.contains(row@[order@[i] as int]));
            }
        }
    }
    r
}

/// An ascending list of the neighbors of `v` is as long as its degree.
proof fn lemma_degree(n: int, edges: Seq<(usize, usize)>, v: int, row: Seq<u32>, k: int)
    requires
        0 <= k <= n <= u32::MAX,
        forall|i: int, j: int| 0 <= i < j < row.len() ==> #[trigger] row[i] < #[trigger] row[j],
        forall|w: u32|
            #[trigger] row.contains(w) <==> w < k && linked(n, edges, v, w as int),
    ensures
        row.len() == links_below(n, edges, v, k),
    decreases k,
{
    if k == 0 {
        if row.len() > 0 {
            assert(row.contains(row[0]));
        }
    } else if linked(n, edges, v, k - 1) {
        let top = (k - 1) as u32;
        assert(row.contains(top));
        let p = choose|p: int| 0 <= p < row.len() && row[p] == top;
        if p < row.len() - 1 {
            assert(row.contains(row[row.len() - 1]));
        }
        let rest = row.drop_last();
        assert forall|w: u32| #[trigger] rest.contains(w) <==> w < k - 1 && linked(
            n,
            edges,
            v,
            w as int,
        ) by {
            if rest.contains(w) {
                let i = choose|i: int| 0 <= i < rest.len() && rest[i] == w;
                assert(row[i] == w && row[i] < row[row.len() - 1]);
                assert(row.contains(w));
            }
            if w < k - 1 && linked(n, edges, v, w as int) {
                assert(row.contains(w));
                let i = choose|i: int| 0 <= i < row.len() && row[i] == w;
                assert(rest[i] == w);
            }
        }
        lemma_degree(n, edges, v, rest, k - 1);
    } else {
        assert forall|w: u32| #[trigger] row.contains(w) <==> w < k - 1 && linked(
            n,
            edges,
            v,
            w as int,
        ) by {}
        lemma_degree(n, edges, v, row, k - 1);
    }
}

/// Links end below `n`.
proof fn lemma_linked_range(n: int, edges: Seq<(usize, usize)>, u: int, v: int)
    requires
        linked(n, edges, u, v),
    ensures
        0 <= u < n,
        0 <= v < n,
        u != v,
        linked(n, edges, v, u),
{
    let k = choose|k: int| 0 <= k < edges.len() && #[trigger] joins(n, edges, k, u, v);
    assert(joins(n, edges, k, v, u));
}

/// Sort key of a node: its degree, then its number.
fn weight_key(deg: usize, node: u32) -> (key: u64)
    requires
        deg <= u32::MAX,
    ensures
        key == deg * 0x1_0000_0000 + node,
{
    (deg as u64) * 0x1_0000_0000 + node as u64
}

/// The nodes of a list from light to heavy.
fn by_weight(n: usize, edges: &Vec<(usize, usize)>, row: &Vec<u32>, deg: &Vec<usize>) -> (r: Vec<
    u32,
>)
    requires
        n <= u32::MAX,
        deg@.len() == n,
        forall|v: int|
            0 <= v < n ==> #[trigger] deg@[v] == degree(n as int, edges@, v) && deg@[v] <= n,
        forall|w: u32| #[trigger] row@.contains(w) ==> w < n,
        forall|i: int, j: int| 0 <= i < j < row@.len() ==> #[trigger] row@[i] < #[trigger] row@[j],
    ensures
        forall|w: u32| #[trigger] r@.contains(w) <==> row@.contains(w),
        forall|i: int, j: int|
            0 <= i < j < r@.len() ==> lighter(
                n as int,
                edges@,
                #[trigger] r@[i] as int,
                #[trigger] r@[j] as int,
            ),
{
    let mut keys: Vec<u64> = Vec::with_capacity(row.len());
    let mut i: usize = 0;
    while i < row.len()
        invariant
            n <= u32::MAX,
            deg@.len() == n,
            forall|v: int|
                0 <= v < n ==> #[trigger] deg@[v] == degree(n as int, edges@, v) && deg@[v] <= n,
            forall|w: u32| #[trigger] row@.contains(w) ==> w < n,
            i <= row@.len(),
            keys@.len() == i,
            forall|k: int|
                0 <= k < i ==> #[trigger] keys@[k] == degree(n as int, edges@, row@[k] as int)
                    * 0x1_0000_0000 + row@[k],
        decreases row@.len() - i,
    {
        let v: u32 = row[i];
        assert(row@.contains(v));
        keys.push(weight_key(deg[v as usize], v));
        i = i + 1;
    }
    let order = stable_order(&keys);
    let mut r: Vec<u32> = Vec::with_capacity(row.len());
    let mut q: usize = 0;
    while q < order.len()
        invariant
            permutes(order@, row@.len() as int),
            q <= order@.len(),
            r@.len() == q,
            forall|k: int| 0 <= k < q ==> #[trigger] r@[k] == row@[order@[k] as int],
        decreases order@.len() - q,
    {
        assert(order@[q as int] < row@.len());
        r.push(row[order[q]]);
        q = q + 1;
    }
    proof {
        assert forall|w: u32| #[trigger] r@.contains(w) <==> row@.contains(w) by {
            if r@.contains(w) {
                let k = choose|k: int| 0 <= k < r@.len() && r@[k] == w;
                assert(order@[k] < row@.len());
                assert(row@[order@[k] as int] == w);
            }
            if row@.contains(w) {
                let k = choose|k: int| 0 <= k < row@.len() && row@[k] == w;
                assert(order@.contains(k as usize));
                let m = choose|m: int| 0 <= m < order@.len() && order@[m] == k as usize;
                assert(r@[m] == w);
            }
        }
        assert forall|i: int, j: int| 0 <= i < j < r@.len() implies lighter(
            n as int,
            edges@,
            #[trigger] r@[i] as int,
            #[trigger] r@[j] as int,
        ) by {
            let (x, y) = (order@[i], order@[j]);
            assert(before(keys@, x, y));
            assert(x < row@.len() && y < row@.len() && x != y);
            assert(keys@[x as int] == degree(n as int, edges@, row@[x as int] as int)
                * 0x1_0000_0000 + row@[x as int]);
            assert(keys@[y as int] == degree(n as int, edges@, row@[y as int] as int)
                * 0x1_0000_0000 + row@[y as int]);
            if x < y {
                assert(row@[x as int] < row@[y as int]);
            } else {
                assert(row@[y as int] < row@[x as int]);
            }
        }
    }
    r
}

/// True entries among the first `k`.
spec fn marked(visited: Seq<bool>, k: int) -> nat
    decreases k,
{
    if k <= 0 {
        0
    } else {
        marked(visited, k - 1) + if visited[k - 1] {
            1nat
        } else {
            0
        }
    }
}

proof fn lemma_mark(visited: Seq<bool>, x: int, k: int)
    requires
        0 <= x < visited.len(),
        !visited[x],
        0 <= k <= visited.len(),
    ensures
        marked(visited.update(x, true), k) == marked(visited, k) + if x < k {
            1nat
        } else {
            0
        },
    decreases k,
{
    if k > 0 {
        lemma_mark(visited, x, k - 1);
    }
}

proof fn lemma_all_marked(visited: Seq<bool>, k: int)
    requires
        0 <= k <= visited.len(),
        forall|v: int| 0 <= v < k ==> visited[v],
    ensures
        marked(visited, k) == k,
    decreases k,
{
    if k > 0 {
        lemma_all_marked(visited, k - 1);
    }
}

proof fn lemma_marked_bound(visited: Seq<bool>, k: int)
    ensures
        marked(visited, k) <= if k < 0 {
            0
        } else {
            k
        },
    decreases k,
{
    if k > 0 {
        lemma_marked_bound(visited, k - 1);
    }
}

/// A breadth-first walk that has handled the neighbors of the first `h` slots.
spec fn walked(
    n: int,
    edges: Seq<(usize, usize)>,
    s: Seq<u32>,
    visited: Seq<bool>,
    h: int,
) -> bool {
    &&& 0 <= h <= s.len()
    &&& visited.len() == n
    &&& s.len() == marked(visited, n)
    &&& forall|i: int| 0 <= i < s.len() ==> #[trigger] s[i] < n
    &&& forall|i: int, j: int| 0 <= i < j < s.len() ==> #[trigger] s[i] != #[trigger] s[j]
    &&& forall|v: int| 0 <= v < n ==> (#[trigger] visited[v] <==> s.contains(v as u32))
    &&& forall|p: int|
        0 <= p < s.len() ==> #[trigger] opens(n, edges, s, p) || follows(n, edges, s, p)
    &&& forall|q: int, p: int, t: int, r: int|
        0 <= p < r < s.len() ==> #[trigger] breadth_first(n, edges, s, q, p, t, r)
    &&& forall|q: int, v: int|
        0 <= q < h && #[trigger] linked(n, edges, s[q] as int, v) ==> s.contains(v as u32)
    &&& forall|q: int, p: int|
        p < s.len() && #[trigger] first_link(n, edges, s, q, p) ==> q < h
}

/// What a walk has settled stays settled when it grows.
proof fn lemma_walk_prefix(n: int, edges: Seq<(usize, usize)>, s: Seq<u32>, x: u32)
    ensures
        forall|q: int, p: int|
            p < s.len() ==> (#[trigger] first_link(n, edges, s.push(x), q, p) <==> first_link(
                n,
                edges,
                s,
                q,
                p,
            )),
        forall|p: int|
            0 <= p < s.len() ==> (#[trigger] opens(n, edges, s.push(x), p) <==> opens(
                n,
                edges,
                s,
                p,
            )),
        forall|p: int|
            0 <= p < s.len() ==> (#[trigger] follows(n, edges, s.push(x), p) <==> follows(
                n,
                edges,
                s,
                p,
            )),
        forall|q: int, p: int, t: int, r: int|
            0 <= p < r < s.len() ==> (#[trigger] breadth_first(n, edges, s.push(x), q, p, t, r)
                <==> breadth_first(n, edges, s, q, p, t, r)),
{
    let z = s.push(x);
    assert forall|q: int, p: int| p < s.len() implies (#[trigger] first_link(n, edges, z, q, p)
        <==> first_link(n, edges, s, q, p)) by {
        if 0 <= q < p {
            assert(z[q] == s[q] && z[p] == s[p]);
            assert forall|r: int| 0 <= r < q implies #[trigger] z[r] == s[r] by {}
            if first_link(n, edges, s, q, p) {
                assert forall|r: int| 0 <= r < q implies !linked(
                    n,
                    edges,
                    #[trigger] z[r] as int,
                    z[p] as int,
                ) by {
                    assert(!linked(n, edges, s[r] as int, s[p] as int));
                }
            }
            if first_link(n, edges, z, q, p) {
                assert forall|r: int| 0 <= r < q implies !linked(
                    n,
                    edges,
                    #[trigger] s[r] as int,
                    s[p] as int,
                ) by {
                    assert(!linked(n, edges, z[r] as int, z[p] as int));
                }
            }
        }
    }
    assert forall|p: int| 0 <= p < s.len() implies (#[trigger] opens(n, edges, z, p) <==> opens(
        n,
        edges,
        s,
        p,
    )) by {
        assert(z[p] == s[p]);
        assert forall|v: int| #[trigger] waits(n, z, p, v) <==> waits(n, s, p, v) by {
            if waits(n, s, p, v) {
                assert forall|i: int| 0 <= i < p implies #[trigger] z[i] != v by {
                    assert(s[i] != v);
                }
            }
            if waits(n, z, p, v) {
                assert forall|i: int| 0 <= i < p implies #[trigger] s[i] != v by {
                    assert(z[i] != v);
                }
            }
        }
        if opens(n, edges, s, p) {
            assert forall|q: int, v: int|
                0 <= q < p && #[trigger] waits(n, z, p, v) implies !linked(
                n,
                edges,
                #[trigger] z[q] as int,
                v,
            ) by {
                assert(z[q] == s[q] && waits(n, s, p, v));
            }
        }
        if opens(n, edges, z, p) {
            assert forall|q: int, v: int|
                0 <= q < p && #[trigger] waits(n, s, p, v) implies !linked(
                n,
                edges,
                #[trigger] s[q] as int,
                v,
            ) by {
                assert(z[q] == s[q] && waits(n, z, p, v));
            }
            assert forall|v: int| #[trigger] waits(n, s, p, v) && v != s[p] implies lighter(
                n,
                edges,
                s[p] as int,
                v,
            ) by {
                assert(waits(n, z, p, v));
            }
        }
    }
    assert forall|p: int| 0 <= p < s.len() implies (#[trigger] follows(n, edges, z, p) <==> follows(
        n,
        edges,
        s,
        p,
    )) by {
        if follows(n, edges, s, p) {
            let q = choose|q: int| #[trigger] first_link(n, edges, s, q, p);
            assert(first_link(n, edges, z, q, p));
        }
        if follows(n, edges, z, p) {
            let q = choose|q: int| #[trigger] first_link(n, edges, z, q, p);
            assert(first_link(n, edges, s, q, p));
        }
    }
    assert forall|q: int, p: int, t: int, r: int| 0 <= p < r < s.len() implies (
    #[trigger] breadth_first(n, edges, z, q, p, t, r) <==> breadth_first(
        n,
        edges,
        s,
        q,
        p,
        t,
        r,
    )) by {
        assert(first_link(n, edges, z, q, p) <==> first_link(n, edges, s, q, p));
        assert(first_link(n, edges, z, t, r) <==> first_link(n, edges, s, t, r));
        assert(z[p] == s[p] && z[r] == s[r]);
    }
}

/// The facts of a walk that do not depend on how far its head has come.
proof fn lemma_walk_members(
    n: int,
    s: Seq<u32>,
    visited: Seq<bool>,
    x: u32,
)
    requires
        n <= u32::MAX,
        visited.len() == n,
        x < n,
        !visited[x as int],
        s.len() == marked(visited, n),
        forall|i: int| 0 <= i < s.len() ==> #[trigger] s[i] < n,
        forall|i: int, j: int| 0 <= i < j < s.len() ==> #[trigger] s[i] != #[trigger] s[j],
        forall|v: int| 0 <= v < n ==> (#[trigger] visited[v] <==> s.contains(v as u32)),
    ensures
        s.push(x).len() == marked(visited.update(x as int, true), n),
        forall|i: int| 0 <= i < s.push(x).len() ==> #[trigger] s.push(x)[i] < n,
        forall|i: int, j: int|
            0 <= i < j < s.push(x).len() ==> #[trigger] s.push(x)[i] != #[trigger] s.push(x)[j],
        forall|v: int|
            0 <= v < n ==> (#[trigger] visited.update(x as int, true)[v] <==> s.push(x).contains(
                v as u32,
            )),
        s.push(x).len() <= n,
{
    lemma_mark(visited, x as int, n);
    lemma_marked_bound(visited.update(x as int, true), n);
    assert(!s.contains(x));
    assert forall|v: int| 0 <= v < n implies (#[trigger] visited.update(x as int, true)[v]
        <==> s.push(x).contains(v as u32)) by {
        lemma_push_contains(s, x, v as u32);
    }
}

/// `row` lists the neighbors of `v` from light to heavy.
spec fn sorted_neighbors(n: int, edges: Seq<(usize, usize)>, v: int, row: Seq<u32>) -> bool {
    &&& forall|w: u32| #[trigger] row.contains(w) <==> linked(n, edges, v, w as int)
    &&& forall|i: int, j: int|
        0 <= i < j < row.len() ==> lighter(
            n,
            edges,
            #[trigger] row[i] as int,
            #[trigger] row[j] as int,
        )
}

/// A walk inside the row of slot `h`, with the first `i` entries handled.
spec fn inside_row(
    n: int,
    edges: Seq<(usize, usize)>,
    s: Seq<u32>,
    visited: Seq<bool>,
    h: int,
    row: Seq<u32>,
    i: int,
) -> bool {
    &&& 0 <= h < s.len()
    &&& 0 <= i <= row.len()
    &&& visited.len() == n
    &&& s.len() == marked(visited, n)
    &&& forall|i: int| 0 <= i < s.len() ==> #[trigger] s[i] < n
    &&& forall|i: int, j: int| 0 <= i < j < s.len() ==> #[trigger] s[i] != #[trigger] s[j]
    &&& forall|v: int| 0 <= v < n ==> (#[trigger] visited[v] <==> s.contains(v as u32))
    &&& forall|p: int|
        0 <= p < s.len() ==> #[trigger] opens(n, edges, s, p) || follows(n, edges, s, p)
    &&& forall|q: int, p: int, t: int, r: int|
        0 <= p < r < s.len() ==> #[trigger] breadth_first(n, edges, s, q, p, t, r)
    &&& forall|q: int, v: int|
        0 <= q < h && #[trigger] linked(n, edges, s[q] as int, v) ==> s.contains(v as u32)
    &&& forall|q: int, p: int|
        p < s.len() && #[trigger] first_link(n, edges, s, q, p) ==> q <= h && (q == h
            ==> comes_from(row, i, s[p]))
    &&& forall|k: int| 0 <= k < i ==> s.contains(#[trigger] row[k])
}

/// `x` is among the first `i` entries of `row`.
spec fn comes_from(row: Seq<u32>, i: int, x: u32) -> bool {
    exists|k: int| 0 <= k < i && #[trigger] row[k] == x
}

/// A walk takes the next entry of a row, which has no slot yet.
proof fn lemma_take_entry(
    n: int,
    edges: Seq<(usize, usize)>,
    s: Seq<u32>,
    visited: Seq<bool>,
    h: int,
    row: Seq<u32>,
    i: int,
)
    requires
        n <= u32::MAX,
        i < row.len(),
        inside_row(n, edges, s, visited, h, row, i),
        sorted_neighbors(n, edges, s[h] as int, row),
        !visited[row[i] as int],
        row[i] < n,
    ensures
        inside_row(
            n,
            edges,
            s.push(row[i]),
            visited.update(row[i] as int, true),
            h,
            row,
            i + 1,
        ),
        s.push(row[i])[h] == s[h],
        s.push(row[i]).len() <= n,
{
    let x = row[i];
    let z = s.push(x);
    let last = s.len() as int;
    lemma_walk_prefix(n, edges, s, x);
    lemma_walk_members(n, s, visited, x);
    assert(row.contains(x));
    assert(linked(n, edges, s[h] as int, x as int));
    assert(first_link(n, edges, z, h, last)) by {
        assert(z[h] == s[h] && z[last] == x);
        assert forall|r: int| 0 <= r < h implies !linked(
            n,
            edges,
            #[trigger] z[r] as int,
            z[last] as int,
        ) by {
            if linked(n, edges, s[r] as int, x as int) {
                assert(s.contains(x as int as u32));
            }
        }
    }
    assert forall|q: int| #[trigger] first_link(n, edges, z, q, last) implies q == h by {
        if q < h {
            assert(linked(n, edges, s[q] as int, x as int));
            assert(s.contains(x as int as u32));
        }
        if q > h {
            assert(!linked(n, edges, z[h] as int, z[last] as int));
        }
    }
    assert forall|p: int| 0 <= p < z.len() implies #[trigger] opens(n, edges, z, p) || follows(
        n,
        edges,
        z,
        p,
    ) by {
        if p < last {
            assert(opens(n, edges, s, p) || follows(n, edges, s, p));
        } else {
            assert(first_link(n, edges, z, h, last));
        }
    }
    assert forall|q: int, p: int, t: int, r: int| 0 <= p < r < z.len() implies
    #[trigger] breadth_first(n, edges, z, q, p, t, r) by {
        if r < last {
            assert(breadth_first(n, edges, s, q, p, t, r));
        } else if first_link(n, edges, z, q, p) && first_link(n, edges, z, t, r) {
            assert(first_link(n, edges, s, q, p));
            assert(t == h);
            if q == h {
                assert(comes_from(row, i, s[p]));
                let k = choose|k: int| 0 <= k < i && #[trigger] row[k] == s[p];
                assert(lighter(n, edges, row[k] as int, row[i] as int));
                assert(z[p] == s[p]);
            }
        }
    }
    assert forall|q: int, v: int|
        0 <= q < h && #[trigger] linked(n, edges, z[q] as int, v) implies z.contains(
        v as u32,
    ) by {
        assert(z[q] == s[q]);
        assert(s.contains(v as u32));
        lemma_push_contains(s, x, v as u32);
    }
    assert forall|q: int, p: int|
        p < z.len() && #[trigger] first_link(n, edges, z, q, p) implies q <= h && (q == h
        ==> comes_from(row, i + 1, z[p])) by {
        if p < last {
            assert(first_link(n, edges, s, q, p));
            if q == h {
                let k = choose|k: int| 0 <= k < i && #[trigger] row[k] == s[p];
                assert(row[k] == z[p]);
            }
        } else {
            assert(row[i] == z[p]);
        }
    }
    assert forall|k: int| 0 <= k < i + 1 implies z.contains(#[trigger] row[k]) by {
        lemma_push_contains(s, x, row[k]);
        if k < i {
            assert(s.contains(row[k]));
        }
    }
}

/// Hand the neighbors of slot `h` their slots.
fn visit_row(
    n: usize,
    edges: &Vec<(usize, usize)>,
    row: &Vec<u32>,
    h: usize,
    visited: &mut Vec<bool>,
    out: &mut Vec<u32>,
)
    requires
        n <= u32::MAX,
        h < old(out)@.len(),
        walked(n as int, edges@, old(out)@, old(visited)@, h as int),
        sorted_neighbors(n as int, edges@, old(out)@[h as int] as int, row@),
    ensures
        walked(n as int, edges@, final(out)@, final(visited)@, h + 1),
        final(out)@.len() <= n,
        final(out)@.len() >= old(out)@.len(),
{
    let ghost node = out@[h as int];
    let mut i: usize = 0;
    proof {
        lemma_marked_bound(visited@, n as int);
        assert(inside_row(n as int, edges@, out@, visited@, h as int, row@, 0));
    }
    while i < row.len()
        invariant
            n <= u32::MAX,
            inside_row(n as int, edges@, out@, visited@, h as int, row@, i as int),
            sorted_neighbors(n as int, edges@, node as int, row@),
            out@[h as int] == node,
            out@.len() <= n,
            out@.len() >= old(out)@.len(),
        decreases row@.len() - i,
    {
        let x: u32 = row[i];
        proof {
            assert(row@.contains(x));
            lemma_linked_range(n as int, edges@, node as int, x as int);
        }
        if !visited[x as usize] {
            proof {
                lemma_take_entry(
                    n as int,
                    edges@,
                    out@,
                    visited@,
                    h as int,
                    row@,
                    i as int,
                );
            }
            visited[x as usize] = true;
            out.push(x);
        } else {
            proof {
                assert(visited@[x as int]);
                assert(out@.contains(x as int as u32));
                assert forall|q: int, p: int|
                    p < out@.len() && #[trigger] first_link(
                        n as int,
                        edges@,
                        out@,
                        q,
                        p,
                    ) implies q <= h && (q == h ==> comes_from(row@, i + 1, out@[p])) by {
                    if q == h {
                        let k = choose|k: int| 0 <= k < i && #[trigger] row@[k] == out@[p];
                        assert(row@[k] == out@[p]);
                    }
                }
            }
        }
        i = i + 1;
    }
    proof {
        assert forall|q: int, v: int|
            0 <= q < h + 1 && #[trigger] linked(
                n as int,
                edges@,
                out@[q] as int,
                v,
            ) implies out@.contains(v as u32) by {
            if q == h {
                lemma_linked_range(n as int, edges@, node as int, v);
                assert(row@.contains(v as u32));
                let k = choose|k: int| 0 <= k < row@.len() && row@[k] == v as u32;
                assert(out@.contains(row@[k]));
            }
        }
    }
}

/// The lightest node without a slot.
fn lightest(n: usize, edges: &Vec<(usize, usize)>, deg: &Vec<usize>, visited: &Vec<bool>) -> (r:
    Option<usize>)
    requires
        deg@.len() == n,
        visited@.len() == n,
        forall|v: int| 0 <= v < n ==> #[trigger] deg@[v] == degree(n as int, edges@, v),
    ensures
        r is None ==> forall|v: int| 0 <= v < n ==> #[trigger] visited@[v],
        r matches Some(x) ==> x < n && !visited@[x as int] && forall|v: int|
            0 <= v < n && v != x && !#[trigger] visited@[v] ==> lighter(
                n as int,
                edges@,
                x as int,
                v,
            ),
{
    let mut best: Option<usize> = None;
    let mut v: usize = 0;
    while v < n
        invariant
            deg@.len() == n,
            visited@.len() == n,
            forall|v: int| 0 <= v < n ==> #[trigger] deg@[v] == degree(n as int, edges@, v),
            v <= n,
            best is None ==> forall|w: int| 0 <= w < v ==> #[trigger] visited@[w],
            best matches Some(x) ==> x < v && !visited@[x as int] && forall|w: int|
                0 <= w < v && w != x && !#[trigger] visited@[w] ==> lighter(
                    n as int,
                    edges@,
                    x as int,
                    w,
                ),
        decreases n - v,
    {
        if !visited[v] {
            match best {
                None => {
                    best = Some(v);
                },
                Some(x) => {
                    if deg[v] < deg[x] {
                        best = Some(v);
                    }
                },
            }
        }
        v = v + 1;
    }
    best
}

/// A walk that has handled every slot opens the next component.
proof fn lemma_open_component(
    n: int,
    edges: Seq<(usize, usize)>,
    s: Seq<u32>,
    visited: Seq<bool>,
    x: u32,
)
    requires
        n <= u32::MAX,
        walked(n, edges, s, visited, s.len() as int),
        x < n,
        !visited[x as int],
        forall|v: int|
            0 <= v < n && v != x && !#[trigger] visited[v] ==> lighter(n, edges, x as int, v),
    ensures
        walked(n, edges, s.push(x), visited.update(x as int, true), s.len() as int),
        s.push(x).len() <= n,
{
    let z = s.push(x);
    let last = s.len() as int;
    lemma_walk_prefix(n, edges, s, x);
    lemma_walk_members(n, s, visited, x);
    assert(opens(n, edges, z, last)) by {
        assert forall|v: int| #[trigger] waits(n, z, last, v) implies !visited[v] by {
            if visited[v] {
                assert(s.contains(v as u32));
                let i = choose|i: int| 0 <= i < s.len() && s[i] == v as u32;
                assert(z[i] == v);
            }
        }
        assert forall|q: int, v: int|
            0 <= q < last && #[trigger] waits(n, z, last, v) implies !linked(
            n,
            edges,
            #[trigger] z[q] as int,
            v,
        ) by {
            assert(z[q] == s[q]);
            if linked(n, edges, s[q] as int, v) {
                assert(s.contains(v as u32));
            }
        }
    }
    assert forall|q: int| !(#[trigger] first_link(n, edges, z, q, last)) by {
        if first_link(n, edges, z, q, last) {
            assert(z[q] == s[q]);
            assert(linked(n, edges, s[q] as int, x as int));
            assert(s.contains(x as int as u32));
        }
    }
    assert forall|p: int| 0 <= p < z.len() implies #[trigger] opens(n, edges, z, p) || follows(
        n,
        edges,
        z,
        p,
    ) by {
        if p < last {
            assert(opens(n, edges, s, p) || follows(n, edges, s, p));
        }
    }
    assert forall|q: int, p: int, t: int, r: int| 0 <= p < r < z.len() implies
    #[trigger] breadth_first(n, edges, z, q, p, t, r) by {
        if r < last {
            assert(breadth_first(n, edges, s, q, p, t, r));
        }
    }
    assert forall|q: int, v: int|
        0 <= q < last && #[trigger] linked(n, edges, z[q] as int, v) implies z.contains(
        v as u32,
    ) by {
        assert(z[q] == s[q]);
        assert(s.contains(v as u32));
        lemma_push_contains(s, x, v as u32);
    }
    assert forall|q: int, p: int|
        p < z.len() && #[trigger] first_link(n, edges, z, q, p) implies q < last by {
        if p < last {
            assert(first_link(n, edges, s, q, p));
        }
    }
}

/// Sorted neighbor rows and degrees.
fn weighted_rows(n: usize, edges: &Vec<(usize, usize)>) -> (r: (Vec<Vec<u32>>, Vec<usize>))
    requires
        n <= u32::MAX,
    ensures
        r.0@.len() == n,
        r.1@.len() == n,
        forall|v: int|
            0 <= v < n ==> sorted_neighbors(n as int, edges@, v, (#[trigger] r.0@[v])@),
        forall|v: int| 0 <= v < n ==> #[trigger] r.1@[v] == degree(n as int, edges@, v),
{
    let lists = neighbor_lists(n, edges);
    let mut rows: Vec<Vec<u32>> = Vec::with_capacity(n);
    let mut deg: Vec<usize> = Vec::with_capacity(n);
    let mut v: usize = 0;
    while v < n
        invariant
            n <= u32::MAX,
            lists@.len() == n,
            forall|v: int, w: u32|
                0 <= v < n ==> (#[trigger] lists@[v]@.contains(w) <==> linked(
                    n as int,
                    edges@,
                    v,
                    w as int,
                )),
            v <= n,
            rows@.len() == v,
            deg@.len() == v,
            forall|u: int|
                0 <= u < v ==> #[trigger] deg@[u] == degree(n as int, edges@, u) && deg@[u] <= n,
            forall|u: int, i: int, j: int|
                #![trigger rows@[u]@[i], rows@[u]@[j]]
                0 <= u < v && 0 <= i < j < rows@[u]@.len() ==> rows@[u]@[i] < rows@[u]@[j],
            forall|u: int, w: u32|
                0 <= u < v ==> (#[trigger] rows@[u]@.contains(w) <==> linked(
                    n as int,
                    edges@,
                    u,
                    w as int,
                )),
        decreases n - v,
    {
        let row = distinct(&lists[v]);
        proof {
            assert forall|w: u32| #[trigger] row@.contains(w) <==> w < n && linked(
                n as int,
                edges@,
                v as int,
                w as int,
            ) by {
                assert(row@.contains(w) <==> lists@[v as int]@.contains(w));
                if linked(n as int, edges@, v as int, w as int) {
                    lemma_linked_range(n as int, edges@, v as int, w as int);
                }
            }
            lemma_degree(n as int, edges@, v as int, row@, n as int);
            lemma_links_bound(n as int, edges@, v as int, n as int);
        }
        let ghost before_rows = rows@;
        deg.push(row.len());
        rows.push(row);
        proof {
            assert forall|u: int, w: u32| 0 <= u < v + 1 implies (#[trigger] rows@[u]@.contains(w)
                <==> linked(n as int, edges@, u, w as int)) by {
                if u < v {
                    assert(rows@[u] == before_rows[u]);
                }
            }
            assert forall|u: int, i: int, j: int|
                #![trigger rows@[u]@[i], rows@[u]@[j]]
                0 <= u < v + 1 && 0 <= i < j < rows@[u]@.len() implies rows@[u]@[i]
                < rows@[u]@[j] by {
                if u < v {
                    assert(rows@[u] == before_rows[u]);
                    assert(before_rows[u]@[i] < before_rows[u]@[j]);
                }
            }
        }
        v = v + 1;
    }
    let mut sorted: Vec<Vec<u32>> = Vec::with_capacity(n);
    let mut u: usize = 0;
    while u < n
        invariant
            n <= u32::MAX,
            rows@.len() == n,
            deg@.len() == n,
            forall|v: int|
                0 <= v < n ==> #[trigger] deg@[v] == degree(n as int, edges@, v) && deg@[v] <= n,
            forall|u: int, i: int, j: int|
                #![trigger rows@[u]@[i], rows@[u]@[j]]
                0 <= u < n && 0 <= i < j < rows@[u]@.len() ==> rows@[u]@[i] < rows@[u]@[j],
            forall|u: int, w: u32|
                0 <= u < n ==> (#[trigger] rows@[u]@.contains(w) <==> linked(
                    n as int,
                    edges@,
                    u,
                    w as int,
                )),
            u <= n,
            sorted@.len() == u,
            forall|v: int|
                0 <= v < u ==> sorted_neighbors(n as int, edges@, v, (#[trigger] sorted@[v])@),
        decreases n - u,
    {
        proof {
            assert forall|w: u32| #[trigger] rows@[u as int]@.contains(w) implies w < n by {
                lemma_linked_range(n as int, edges@, u as int, w as int);
            }
        }
        let row = by_weight(n, edges, &rows[u], &deg);
        proof {
            assert forall|w: u32| #[trigger] row@.contains(w) <==> linked(
                n as int,
                edges@,
                u as int,
                w as int,
            ) by {
                assert(row@.contains(w) <==> rows@[u as int]@.contains(w));
            }
            assert(sorted_neighbors(n as int, edges@, u as int, row@));
        }
        sorted.push(row);
        u = u + 1;
    }
    (sorted, deg)
}

proof fn lemma_links_bound(n: int, edges: Seq<(usize, usize)>, v: int, k: int)
    requires
        0 <= k,
    ensures
        links_below(n, edges, v, k) <= k,
    decreases k,
{
    if k > 0 {
        lemma_links_bound(n, edges, v, k - 1);
    }
}

/// Cuthill-McKee order: `r[k]` is the node in slot `k`.
fn forward_order(n: usize, edges: &Vec<(usize, usize)>) -> (out: Vec<u32>)
    requires
        n <= u32::MAX,
    ensures
        cuthill_mckee(n as int, edges@, out@),
{
    let (rows, deg) = weighted_rows(n, edges);
    let mut visited: Vec<bool> = Vec::with_capacity(n);
    while visited.len() < n
        invariant
            visited@.len() <= n,
            forall|v: int| 0 <= v < visited@.len() ==> !(#[trigger] visited@[v]),
        decreases n - visited@.len(),
    {
        visited.push(false);
    }
    let mut out: Vec<u32> = Vec::with_capacity(n);
    let mut head: usize = 0;
    proof {
        lemma_none_marked(visited@, n as int);
        assert(walked(n as int, edges@, out@, visited@, 0));
    }
    loop
        invariant
            n <= u32::MAX,
            rows@.len() == n,
            deg@.len() == n,
            forall|v: int|
                0 <= v < n ==> sorted_neighbors(n as int, edges@, v, (#[trigger] rows@[v])@),
            forall|v: int| 0 <= v < n ==> #[trigger] deg@[v] == degree(n as int, edges@, v),
            walked(n as int, edges@, out@, visited@, head as int),
            head == out@.len(),
            out@.len() <= n,
        ensures
            walked(n as int, edges@, out@, visited@, head as int),
            forall|v: int| 0 <= v < n ==> #[trigger] visited@[v],
        decreases n - out@.len(),
    {
        match lightest(n, edges, &deg, &visited) {
            None => {
                break;
            },
            Some(root) => {
                let ghost started = out@.len();
                proof {
                    lemma_open_component(n as int, edges@, out@, visited@, root as u32);
                }
                visited[root] = true;
                out.push(root as u32);
                while head < out.len()
                    invariant
                        n <= u32::MAX,
                        rows@.len() == n,
                        forall|v: int|
                            0 <= v < n ==> sorted_neighbors(
                                n as int,
                                edges@,
                                v,
                                (#[trigger] rows@[v])@,
                            ),
                        walked(n as int, edges@, out@, visited@, head as int),
                        out@.len() <= n,
                        out@.len() > started,
                    decreases n - head,
                {
                    let cur: usize = out[head] as usize;
                    assert(cur < n);
                    visit_row(n, edges, &rows[cur], head, &mut visited, &mut out);
                    head = head + 1;
                }
            },
        }
    }
    proof {
        lemma_all_marked(visited@, n as int);
        assert forall|v: u32| v < n implies #[trigger] out@.contains(v) by {
            assert(visited@[v as int]);
            assert(out@.contains(v as int as u32));
        }
    }
    out
}

proof fn lemma_none_marked(visited: Seq<bool>, k: int)
    requires
        0 <= k <= visited.len(),
        forall|v: int| 0 <= v < k ==> !visited[v],
    ensures
        marked(visited, k) == 0,
    decreases k,
{
    if k > 0 {
        lemma_none_marked(visited, k - 1);
    }
}

/// Reverse Cuthill-McKee order: entry `k` is the node in chain slot `k`.
///
/// A breadth-first sweep that visits neighbors from light to heavy, then
/// reverses the result. A graph in several components restarts at the lightest
/// node without a slot. Self-loops and edges out of range are skipped.
pub fn reverse_cuthill_mckee(n: usize, edges: &Vec<(usize, usize)>) -> (order: Vec<u32>)
    requires
        n <= u32::MAX,
    ensures
        cuthill_mckee(n as int, edges@, order@.reverse()),
        lists_nodes(n as int, order@),
{
    let forward = forward_order(n, edges);
    let mut order: Vec<u32> = Vec::with_capacity(n);
    let mut left: usize = forward.len();
    while left > 0
        invariant
            left <= forward@.len(),
            order@.len() == forward@.len() - left,
            forall|i: int|
                0 <= i < order@.len() ==> #[trigger] order@[i] == forward@[forward@.len() - 1 - i],
        decreases left,
    {
        left = left - 1;
        order.push(forward[left]);
    }
    proof {
        assert(order@.reverse() =~= forward@);
        assert forall|v: u32| v < n implies #[trigger] order@.contains(v) by {
            assert(forward@.contains(v));
            let k = choose|k: int| 0 <= k < forward@.len() && forward@[k] == v;
            assert(order@[forward@.len() - 1 - k] == v);
        }
        assert forall|i: int, j: int| 0 <= i < j < n implies #[trigger] order@[i]
            != #[trigger] order@[j] by {
            assert(forward@[n - 1 - j] != forward@[n - 1 - i]);
        }
    }
    order
}

/// Two Cuthill-McKee orders agree on their first `k` slots.
proof fn lemma_same_prefix(
    n: int,
    edges: Seq<(usize, usize)>,
    s: Seq<u32>,
    t: Seq<u32>,
    k: int,
)
    requires
        n <= u32::MAX,
        cuthill_mckee(n, edges, s),
        cuthill_mckee(n, edges, t),
        0 <= k <= n,
    ensures
        forall|i: int| 0 <= i < k ==> #[trigger] s[i] == t[i],
    decreases k,
{
    if k > 0 {
        let p = k - 1;
        lemma_same_prefix(n, edges, s, t, p);
        lemma_next_slot(n, edges, s, t, p);
    }
}

/// Orders that agree before slot `p` agree on slot `p`.
proof fn lemma_next_slot(n: int, edges: Seq<(usize, usize)>, s: Seq<u32>, t: Seq<u32>, p: int)
    requires
        n <= u32::MAX,
        cuthill_mckee(n, edges, s),
        cuthill_mckee(n, edges, t),
        0 <= p < n,
        forall|i: int| 0 <= i < p ==> #[trigger] s[i] == t[i],
    ensures
        s[p] == t[p],
{
    assert(waits(n, s, p, s[p] as int));
    assert(waits(n, t, p, t[p] as int));
    assert(waits(n, t, p, s[p] as int)) by {
        assert forall|i: int| 0 <= i < p implies #[trigger] t[i] != s[p] by {
            assert(s[i] == t[i]);
            assert(s[i] != s[p]);
        }
    }
    assert(waits(n, s, p, t[p] as int)) by {
        assert forall|i: int| 0 <= i < p implies #[trigger] s[i] != t[p] by {
            assert(s[i] == t[i]);
            assert(t[i] != t[p]);
        }
    }
    assert(opens(n, edges, s, p) || follows(n, edges, s, p));
    assert(opens(n, edges, t, p) || follows(n, edges, t, p));
    if s[p] != t[p] {
        if opens(n, edges, s, p) {
            if follows(n, edges, t, p) {
                let u = choose|u: int| #[trigger] first_link(n, edges, t, u, p);
                assert(s[u] == t[u]);
                assert(!linked(n, edges, s[u] as int, t[p] as int));
            }
            assert(lighter(n, edges, s[p] as int, t[p] as int));
            assert(lighter(n, edges, t[p] as int, s[p] as int));
        } else if opens(n, edges, t, p) {
            let q = choose|q: int| #[trigger] first_link(n, edges, s, q, p);
            assert(s[q] == t[q]);
            assert(!linked(n, edges, t[q] as int, s[p] as int));
        } else {
            let q = choose|q: int| #[trigger] first_link(n, edges, s, q, p);
            let u = choose|u: int| #[trigger] first_link(n, edges, t, u, p);
            let r = lemma_later_link(n, edges, s, t, u, p);
            let m = lemma_later_link(n, edges, t, s, q, p);
            assert(breadth_first(n, edges, s, q, p, u, r));
            assert(breadth_first(n, edges, t, u, p, q, m));
        }
    }
}

/// The node that `t` puts in slot `p` after its link to slot `u` stands later in
/// `s`, with the same first link.
proof fn lemma_later_link(
    n: int,
    edges: Seq<(usize, usize)>,
    s: Seq<u32>,
    t: Seq<u32>,
    u: int,
    p: int,
) -> (r: int)
    requires
        n <= u32::MAX,
        lists_nodes(n, s),
        lists_nodes(n, t),
        0 <= p < n,
        forall|i: int| 0 <= i < p ==> #[trigger] s[i] == t[i],
        s[p] != t[p],
        first_link(n, edges, t, u, p),
    ensures
        p < r < n,
        s[r] == t[p],
        first_link(n, edges, s, u, r),
{
    assert(t[p] < n);
    assert(s.contains(t[p]));
    let r = choose|r: int| 0 <= r < s.len() && s[r] == t[p];
    if r < p {
        assert(s[r] == t[r]);
        assert(t[r] != t[p]);
    }
    assert(s[u] == t[u]);
    assert forall|i: int| 0 <= i < u implies !linked(
        n,
        edges,
        #[trigger] s[i] as int,
        s[r] as int,
    ) by {
        assert(s[i] == t[i]);
        assert(!linked(n, edges, t[i] as int, t[p] as int));
    }
    r
}

/// A graph has one Cuthill-McKee order: the same edges give the same chain.
pub proof fn ordering_is_unique(n: int, edges: Seq<(usize, usize)>, s: Seq<u32>, t: Seq<u32>)
    requires
        n <= u32::MAX,
        cuthill_mckee(n, edges, s),
        cuthill_mckee(n, edges, t),
    ensures
        s == t,
{
    lemma_same_prefix(n, edges, s, t, n);
    assert(s =~= t);
}

proof fn lemma_same_degree(
    n: int,
    a: Seq<(usize, usize)>,
    b: Seq<(usize, usize)>,
    v: int,
    k: int,
)
    requires
        forall|u: int, w: int| #[trigger] linked(n, a, u, w) == linked(n, b, u, w),
    ensures
        links_below(n, a, v, k) == links_below(n, b, v, k),
    decreases k,
{
    if k > 0 {
        lemma_same_degree(n, a, b, v, k - 1);
        assert(linked(n, a, v, k - 1) == linked(n, b, v, k - 1));
    }
}

proof fn lemma_same_first_link(
    n: int,
    a: Seq<(usize, usize)>,
    b: Seq<(usize, usize)>,
    s: Seq<u32>,
    q: int,
    p: int,
)
    requires
        forall|u: int, w: int| #[trigger] linked(n, a, u, w) == linked(n, b, u, w),
    ensures
        first_link(n, a, s, q, p) == first_link(n, b, s, q, p),
{
    assert(linked(n, a, s[q] as int, s[p] as int) == linked(n, b, s[q] as int, s[p] as int));
    assert forall|r: int| 0 <= r < q implies linked(n, a, #[trigger] s[r] as int, s[p] as int)
        == linked(n, b, s[r] as int, s[p] as int) by {}
    if first_link(n, a, s, q, p) {
        assert forall|r: int| 0 <= r < q implies !linked(
            n,
            b,
            #[trigger] s[r] as int,
            s[p] as int,
        ) by {
            assert(!linked(n, a, s[r] as int, s[p] as int));
        }
    }
    if first_link(n, b, s, q, p) {
        assert forall|r: int| 0 <= r < q implies !linked(
            n,
            a,
            #[trigger] s[r] as int,
            s[p] as int,
        ) by {
            assert(!linked(n, b, s[r] as int, s[p] as int));
        }
    }
}

/// The order follows from which nodes are linked: the order of the edge list,
/// the orientation of an edge, repeated edges, self-loops and edges to nodes
/// that do not exist leave it alone.
pub proof fn ordering_depends_on_links_alone(
    n: int,
    a: Seq<(usize, usize)>,
    b: Seq<(usize, usize)>,
    s: Seq<u32>,
)
    requires
        n <= u32::MAX,
        forall|u: int, v: int| #[trigger] linked(n, a, u, v) == linked(n, b, u, v),
        cuthill_mckee(n, a, s),
    ensures
        cuthill_mckee(n, b, s),
{
    assert forall|x: int, y: int| lighter(n, a, x, y) == #[trigger] lighter(n, b, x, y) by {
        lemma_same_degree(n, a, b, x, n);
        lemma_same_degree(n, a, b, y, n);
    }
    assert forall|q: int, p: int| first_link(n, a, s, q, p) == #[trigger] first_link(
        n,
        b,
        s,
        q,
        p,
    ) by {
        lemma_same_first_link(n, a, b, s, q, p);
    }
    assert forall|p: int| 0 <= p < n implies #[trigger] opens(n, b, s, p) || follows(
        n,
        b,
        s,
        p,
    ) by {
        assert(opens(n, a, s, p) || follows(n, a, s, p));
        if follows(n, a, s, p) {
            let q = choose|q: int| #[trigger] first_link(n, a, s, q, p);
            assert(first_link(n, b, s, q, p));
        } else {
            assert forall|q: int, v: int|
                0 <= q < p && #[trigger] waits(n, s, p, v) implies !linked(
                n,
                b,
                #[trigger] s[q] as int,
                v,
            ) by {
                assert(!linked(n, a, s[q] as int, v));
            }
            assert forall|v: int| #[trigger] waits(n, s, p, v) && v != s[p] implies lighter(
                n,
                b,
                s[p] as int,
                v,
            ) by {
                assert(lighter(n, a, s[p] as int, v));
            }
        }
    }
    assert forall|q: int, p: int, t: int, r: int| 0 <= p < r < n implies #[trigger] breadth_first(
        n,
        b,
        s,
        q,
        p,
        t,
        r,
    ) by {
        assert(breadth_first(n, a, s, q, p, t, r));
        assert(first_link(n, b, s, q, p) == first_link(n, a, s, q, p));
        assert(first_link(n, b, s, t, r) == first_link(n, a, s, t, r));
        assert(lighter(n, b, s[p] as int, s[r] as int) == lighter(n, a, s[p] as int, s[r] as int));
    }
}

/// Edge lists that link the same nodes have one order.
pub proof fn same_links_give_the_same_order(
    n: int,
    a: Seq<(usize, usize)>,
    b: Seq<(usize, usize)>,
    s: Seq<u32>,
    t: Seq<u32>,
)
    requires
        n <= u32::MAX,
        forall|u: int, v: int| #[trigger] linked(n, a, u, v) == linked(n, b, u, v),
        cuthill_mckee(n, a, s),
        cuthill_mckee(n, b, t),
    ensures
        s == t,
{
    ordering_depends_on_links_alone(n, a, b, s);
    ordering_is_unique(n, b, s, t);
}

/// `b` is `a` or linked to it.
pub open spec fn hop(n: int, edges: Seq<(usize, usize)>, a: int, b: int) -> bool {
    a == b || linked(n, edges, a, b)
}

/// `b` can be reached from `a` over at most `k` links.
pub open spec fn reaches(n: int, edges: Seq<(usize, usize)>, a: int, b: int, k: nat) -> bool
    decreases k,
{
    if k == 0 {
        a == b
    } else {
        exists|m: int|
            reaches(n, edges, a, m, (k - 1) as nat) && #[trigger] hop(n, edges, m, b)
    }
}

/// `a` and `b` stand in one component.
pub open spec fn connected(n: int, edges: Seq<(usize, usize)>, a: int, b: int) -> bool {
    exists|k: nat| #[trigger] reaches(n, edges, a, b, k)
}

proof fn lemma_one_hop(n: int, edges: Seq<(usize, usize)>, a: int, b: int)
    requires
        hop(n, edges, a, b),
    ensures
        reaches(n, edges, a, b, 1),
{
    assert(reaches(n, edges, a, a, 0));
    assert(hop(n, edges, a, b));
}

proof fn lemma_reach_join(
    n: int,
    edges: Seq<(usize, usize)>,
    a: int,
    b: int,
    c: int,
    j: nat,
    k: nat,
)
    requires
        reaches(n, edges, a, b, j),
        reaches(n, edges, b, c, k),
    ensures
        reaches(n, edges, a, c, j + k),
    decreases k,
{
    if k > 0 {
        let m = choose|m: int|
            reaches(n, edges, b, m, (k - 1) as nat) && #[trigger] hop(n, edges, m, c);
        lemma_reach_join(n, edges, a, b, m, j, (k - 1) as nat);
        assert(hop(n, edges, m, c));
    }
}

proof fn lemma_reach_back(n: int, edges: Seq<(usize, usize)>, a: int, b: int, k: nat)
    requires
        reaches(n, edges, a, b, k),
    ensures
        reaches(n, edges, b, a, k),
    decreases k,
{
    if k > 0 {
        let m = choose|m: int|
            reaches(n, edges, a, m, (k - 1) as nat) && #[trigger] hop(n, edges, m, b);
        lemma_reach_back(n, edges, a, m, (k - 1) as nat);
        if linked(n, edges, m, b) {
            lemma_linked_range(n, edges, m, b);
        }
        lemma_one_hop(n, edges, b, m);
        lemma_reach_join(n, edges, b, m, a, 1, (k - 1) as nat);
    }
}

/// Components are symmetric and transitive.
proof fn lemma_connected_join(n: int, edges: Seq<(usize, usize)>, a: int, b: int, c: int)
    requires
        connected(n, edges, a, b),
        connected(n, edges, b, c),
    ensures
        connected(n, edges, a, c),
{
    let j = choose|j: nat| #[trigger] reaches(n, edges, a, b, j);
    let k = choose|k: nat| #[trigger] reaches(n, edges, b, c, k);
    lemma_reach_join(n, edges, a, b, c, j, k);
}

proof fn lemma_connected_back(n: int, edges: Seq<(usize, usize)>, a: int, b: int)
    requires
        connected(n, edges, a, b),
    ensures
        connected(n, edges, b, a),
{
    let k = choose|k: nat| #[trigger] reaches(n, edges, a, b, k);
    lemma_reach_back(n, edges, a, b, k);
}

/// What a node with a slot before an opening slot reaches has one there too.
proof fn lemma_reach_stays(
    n: int,
    edges: Seq<(usize, usize)>,
    s: Seq<u32>,
    p: int,
    a: int,
    b: int,
    k: nat,
)
    requires
        lists_nodes(n, s),
        0 <= p < n,
        opens(n, edges, s, p),
        0 <= a < n,
        !waits(n, s, p, a),
        reaches(n, edges, a, b, k),
    ensures
        0 <= b < n,
        !waits(n, s, p, b),
    decreases k,
{
    if k > 0 {
        let m = choose|m: int|
            reaches(n, edges, a, m, (k - 1) as nat) && #[trigger] hop(n, edges, m, b);
        lemma_reach_stays(n, edges, s, p, a, m, (k - 1) as nat);
        if m != b {
            lemma_linked_range(n, edges, m, b);
            let i = choose|i: int| 0 <= i < p && #[trigger] s[i] == m;
            if waits(n, s, p, b) {
                assert(!linked(n, edges, s[i] as int, b));
            }
        }
    }
}

/// Slots from an opening one on, with no other opening slot among them, are
/// connected to it.
proof fn lemma_block_connected(n: int, edges: Seq<(usize, usize)>, s: Seq<u32>, c: int, p: int)
    requires
        n <= u32::MAX,
        cuthill_mckee(n, edges, s),
        0 <= c <= p < n,
        opens(n, edges, s, c),
        forall|i: int| c < i <= p ==> !#[trigger] opens(n, edges, s, i),
    ensures
        connected(n, edges, s[c] as int, s[p] as int),
    decreases p,
{
    if p == c {
        assert(reaches(n, edges, s[c] as int, s[p] as int, 0));
    } else {
        assert(!opens(n, edges, s, p));
        let t = choose|t: int| #[trigger] first_link(n, edges, s, t, p);
        if t < c {
            assert(waits(n, s, c, s[p] as int));
            assert(!linked(n, edges, s[t] as int, s[p] as int));
        }
        lemma_block_connected(n, edges, s, c, t);
        lemma_one_hop(n, edges, s[t] as int, s[p] as int);
        lemma_connected_join(n, edges, s[c] as int, s[t] as int, s[p] as int);
    }
}

/// The last opening slot up to `p`.
proof fn lemma_block_start(n: int, edges: Seq<(usize, usize)>, s: Seq<u32>, p: int) -> (c: int)
    requires
        cuthill_mckee(n, edges, s),
        0 <= p < n,
    ensures
        0 <= c <= p,
        opens(n, edges, s, c),
        forall|i: int| c < i <= p ==> !#[trigger] opens(n, edges, s, i),
    decreases p,
{
    if opens(n, edges, s, p) {
        p
    } else if p == 0 {
        assert(follows(n, edges, s, 0));
        let t = choose|t: int| #[trigger] first_link(n, edges, s, t, 0);
        assert(false);
        0
    } else {
        lemma_block_start(n, edges, s, p - 1)
    }
}

/// A component takes consecutive slots: what stands between two of its nodes
/// belongs to it.
pub proof fn components_are_contiguous(
    n: int,
    edges: Seq<(usize, usize)>,
    s: Seq<u32>,
    a: int,
    b: int,
    c: int,
)
    requires
        n <= u32::MAX,
        cuthill_mckee(n, edges, s),
        0 <= a < b < c < n,
        connected(n, edges, s[a] as int, s[c] as int),
    ensures
        connected(n, edges, s[a] as int, s[b] as int),
{
    let k = choose|k: nat| #[trigger] reaches(n, edges, s[a] as int, s[c] as int, k);
    assert forall|i: int| a < i <= c implies !#[trigger] opens(n, edges, s, i) by {
        if opens(n, edges, s, i) {
            assert(!waits(n, s, i, s[a] as int)) by {
                assert(s[a] == s[a]);
            }
            lemma_reach_stays(n, edges, s, i, s[a] as int, s[c] as int, k);
            let m = choose|m: int| 0 <= m < i && #[trigger] s[m] == s[c];
            assert(s[m] != s[c]);
        }
    }
    let top = lemma_block_start(n, edges, s, a);
    lemma_block_connected(n, edges, s, top, a);
    lemma_block_connected(n, edges, s, top, b);
    lemma_connected_back(n, edges, s[top] as int, s[a] as int);
    lemma_connected_join(n, edges, s[a] as int, s[top] as int, s[b] as int);
}

/// A component takes consecutive slots of the chain.
pub proof fn chain_components_are_contiguous(
    n: int,
    edges: Seq<(usize, usize)>,
    order: Seq<u32>,
    a: int,
    b: int,
    c: int,
)
    requires
        n <= u32::MAX,
        cuthill_mckee(n, edges, order.reverse()),
        0 <= a < b < c < n,
        connected(n, edges, order[a] as int, order[c] as int),
    ensures
        connected(n, edges, order[a] as int, order[b] as int),
{
    let s = order.reverse();
    let (x, y, z) = (order[a] as int, order[b] as int, order[c] as int);
    assert(s.len() == order.len());
    assert(s[n - 1 - c] == order[c] && s[n - 1 - b] == order[b] && s[n - 1 - a] == order[a]);
    lemma_connected_back(n, edges, x, z);
    components_are_contiguous(n, edges, s, n - 1 - c, n - 1 - b, n - 1 - a);
    lemma_connected_join(n, edges, x, z, y);
}

/// Distance of two slots.
pub open spec fn distance(a: int, b: int) -> int {
    if a < b {
        b - a
    } else {
        a - b
    }
}

/// The widest span among the first `k` edges.
pub open spec fn widest(slot: Seq<u32>, edges: Seq<(usize, usize)>, k: int) -> int
    decreases k,
{
    if k <= 0 {
        0
    } else {
        let rest = widest(slot, edges, k - 1);
        if binds(slot.len() as int, edges[k - 1]) && distance(
            slot[edges[k - 1].0 as int] as int,
            slot[edges[k - 1].1 as int] as int,
        ) > rest {
            distance(slot[edges[k - 1].0 as int] as int, slot[edges[k - 1].1 as int] as int)
        } else {
            rest
        }
    }
}

/// Largest slot distance across any edge that binds two nodes.
pub fn bandwidth(slot: &Vec<u32>, edges: &Vec<(usize, usize)>) -> (w: usize)
    ensures
        w == widest(slot@, edges@, edges@.len() as int),
{
    let n: usize = slot.len();
    let mut best: usize = 0;
    let mut k: usize = 0;
    while k < edges.len()
        invariant
            n == slot@.len(),
            k <= edges@.len(),
            best == widest(slot@, edges@, k as int),
        decreases edges@.len() - k,
    {
        let e = edges[k];
        if edge_binds(n, e) {
            let a: usize = slot[e.0] as usize;
            let b: usize = slot[e.1] as usize;
            let span: usize = if a < b {
                b - a
            } else {
                a - b
            };
            if span > best {
                best = span;
            }
        }
        k = k + 1;
    }
    best
}

/// No edge spans more than the bandwidth.
pub proof fn bandwidth_covers_every_edge(
    slot: Seq<u32>,
    edges: Seq<(usize, usize)>,
    k: int,
    m: int,
)
    requires
        0 <= k < m <= edges.len(),
        binds(slot.len() as int, edges[k]),
    ensures
        distance(slot[edges[k].0 as int] as int, slot[edges[k].1 as int] as int) <= widest(
            slot,
            edges,
            m,
        ),
    decreases m,
{
    if k < m - 1 {
        bandwidth_covers_every_edge(slot, edges, k, m - 1);
    }
}

/// `slot[v]` is the slot of node `v`.
pub open spec fn inverts(order: Seq<u32>, slot: Seq<u32>) -> bool {
    &&& slot.len() == order.len()
    &&& forall|k: int| 0 <= k < order.len() ==> slot[(#[trigger] order[k]) as int] == k
}

/// The slot of every node.
pub fn inverse(order: &Vec<u32>) -> (slot: Vec<u32>)
    requires
        order@.len() <= u32::MAX,
        lists_nodes(order@.len() as int, order@),
    ensures
        inverts(order@, slot@),
        forall|v: int| 0 <= v < slot@.len() ==> #[trigger] slot@[v] < slot@.len(),
{
    let n: usize = order.len();
    let mut slot: Vec<u32> = Vec::with_capacity(n);
    while slot.len() < n
        invariant
            slot@.len() <= n,
            forall|v: int| 0 <= v < slot@.len() ==> #[trigger] slot@[v] == 0,
        decreases n - slot@.len(),
    {
        slot.push(0);
    }
    let mut k: usize = 0;
    while k < n
        invariant
            n == order@.len(),
            n <= u32::MAX,
            lists_nodes(n as int, order@),
            slot@.len() == n,
            k <= n,
            forall|v: int| 0 <= v < n ==> #[trigger] slot@[v] < n,
            forall|i: int| 0 <= i < k ==> slot@[(#[trigger] order@[i]) as int] == i,
        decreases n - k,
    {
        let ghost prev = slot@;
        assert(order@[k as int] < n);
        slot[order[k] as usize] = k as u32;
        proof {
            assert forall|i: int| 0 <= i < k + 1 implies slot@[(#[trigger] order@[i]) as int]
                == i by {
                if i < k {
                    assert(order@[i] != order@[k as int]);
                    assert(prev[order@[i] as int] == i);
                }
            }
        }
        k = k + 1;
    }
    slot
}

} // verus!
