//! Compressed sparse rows over the bonds of a problem.
//!
//! Every node owns one contiguous row. A row lists, in edge order, the node at
//! the far end of each bond and the edge that makes it, so a bond appears once
//! in the row of each of its two ends.
use vstd::prelude::*;

use crate::ising::{binds, far_end};

verus! {

/// Row offsets and the flattened rows.
pub struct Csr {
    /// Row offsets, one more than there are nodes.
    pub start: Vec<u32>,
    /// Far ends, row after row.
    pub node: Vec<u32>,
    /// Edge indices, parallel to `node`.
    pub edge: Vec<usize>,
}

/// Whether edge `e` ends at node `v`.
pub open spec fn ends_at(e: (usize, usize), v: int) -> bool {
    e.0 == v || e.1 == v
}

/// The row of node `v` over the first `k` edges: far end and edge index of each
/// edge that `mask` admits.
pub open spec fn entry_row(
    edges: Seq<(usize, usize)>,
    mask: Seq<bool>,
    v: int,
    k: int,
) -> Seq<(int, int)>
    decreases k,
{
    if k <= 0 {
        Seq::empty()
    } else if mask[k - 1] && ends_at(edges[k - 1], v) {
        entry_row(edges, mask, v, k - 1).push((far_end(edges[k - 1], v), k - 1))
    } else {
        entry_row(edges, mask, v, k - 1)
    }
}

/// How many of the first `k` edges `mask` admits.
pub open spec fn admitted(mask: Seq<bool>, k: int) -> int
    decreases k,
{
    if k <= 0 {
        0
    } else {
        admitted(mask, k - 1) + if mask[k - 1] {
            1int
        } else {
            0
        }
    }
}

/// Total length of the first `v` rows over the first `k` edges.
pub open spec fn offset(edges: Seq<(usize, usize)>, mask: Seq<bool>, v: int, k: int) -> int
    decreases v,
{
    if v <= 0 {
        0
    } else {
        offset(edges, mask, v - 1, k) + entry_row(edges, mask, v - 1, k).len()
    }
}

/// `mask` admits only edges that bind two of the `n` nodes.
pub open spec fn admits_bonds(n: int, edges: Seq<(usize, usize)>, mask: Seq<bool>) -> bool {
    mask.len() == edges.len() && forall|k: int|
        0 <= k < mask.len() && #[trigger] mask[k] ==> binds(n, edges[k])
}

impl Csr {
    /// The rows are those of the edges that `mask` admits.
    pub open spec fn holds(
        &self,
        n: int,
        edges: Seq<(usize, usize)>,
        mask: Seq<bool>,
    ) -> bool {
        &&& self.start@.len() == n + 1
        &&& self.node@.len() == self.edge@.len()
        &&& self.start@[n] == self.node@.len()
        &&& forall|v: int|
            0 <= v <= n ==> #[trigger] self.start@[v] == offset(
                edges,
                mask,
                v,
                edges.len() as int,
            )
        &&& rows_filled(self.start@, self.node@, self.edge@, n, edges, mask, edges.len() as int)
    }
}

/// The rows of the first `k` edges stand at their places.
pub open spec fn rows_filled(
    start: Seq<u32>,
    node: Seq<u32>,
    edge: Seq<usize>,
    n: int,
    edges: Seq<(usize, usize)>,
    mask: Seq<bool>,
    k: int,
) -> bool {
    forall|v: int, i: int|
        #![trigger entry_row(edges, mask, v, k)[i]]
        0 <= v < n && 0 <= i < entry_row(edges, mask, v, k).len() ==> {
            &&& node[start[v] + i] == entry_row(edges, mask, v, k)[i].0
            &&& edge[start[v] + i] == entry_row(edges, mask, v, k)[i].1
        }
}

/// A longer edge prefix never shortens a row and keeps its entries.
pub proof fn lemma_row_grows(
    edges: Seq<(usize, usize)>,
    mask: Seq<bool>,
    v: int,
    k: int,
    m: int,
)
    requires
        0 <= k <= m,
    ensures
        entry_row(edges, mask, v, k).len() <= entry_row(edges, mask, v, m).len(),
        forall|i: int|
            0 <= i < entry_row(edges, mask, v, k).len() ==> #[trigger] entry_row(
                edges,
                mask,
                v,
                m,
            )[i] == entry_row(edges, mask, v, k)[i],
    decreases m,
{
    if k < m {
        lemma_row_grows(edges, mask, v, k, m - 1);
        assert forall|i: int| 0 <= i < entry_row(edges, mask, v, k).len() implies #[trigger]
            entry_row(edges, mask, v, m)[i] == entry_row(edges, mask, v, k)[i] by {
            assert(entry_row(edges, mask, v, m - 1)[i] == entry_row(edges, mask, v, k)[i]);
        }
    }
}

/// Row offsets grow with the node, by at least the rows in between.
pub proof fn lemma_offset_grows(
    edges: Seq<(usize, usize)>,
    mask: Seq<bool>,
    v: int,
    w: int,
    k: int,
)
    requires
        0 <= v <= w,
    ensures
        0 <= offset(edges, mask, v, k) <= offset(edges, mask, w, k),
        v < w ==> offset(edges, mask, v, k) + entry_row(edges, mask, v, k).len() <= offset(
            edges,
            mask,
            w,
            k,
        ),
    decreases w,
{
    if v < w {
        lemma_offset_grows(edges, mask, v, w - 1, k);
    } else if w > 0 {
        lemma_offset_grows(edges, mask, w - 1, w - 1, k);
    }
}

/// One more admitted edge lengthens exactly the rows of its two ends.
proof fn lemma_offset_step(
    edges: Seq<(usize, usize)>,
    mask: Seq<bool>,
    v: int,
    k: int,
)
    requires
        0 < k <= edges.len(),
        edges[k - 1].0 != edges[k - 1].1,
        0 <= v,
    ensures
        offset(edges, mask, v, k) == offset(edges, mask, v, k - 1) + (if mask[k - 1]
            && edges[k - 1].0 < v {
            1int
        } else {
            0
        }) + (if mask[k - 1] && edges[k - 1].1 < v {
            1int
        } else {
            0
        }),
    decreases v,
{
    if v > 0 {
        lemma_offset_step(edges, mask, v - 1, k);
    }
}

proof fn lemma_offset_skip(edges: Seq<(usize, usize)>, mask: Seq<bool>, v: int, k: int)
    requires
        0 < k,
        !mask[k - 1],
    ensures
        offset(edges, mask, v, k) == offset(edges, mask, v, k - 1),
    decreases v,
{
    if v > 0 {
        lemma_offset_skip(edges, mask, v - 1, k);
    }
}

proof fn lemma_offset_start(edges: Seq<(usize, usize)>, mask: Seq<bool>, v: int)
    ensures
        offset(edges, mask, v, 0) == 0,
    decreases v,
{
    if v > 0 {
        lemma_offset_start(edges, mask, v - 1);
    }
}

/// All rows together hold every admitted edge twice.
pub proof fn lemma_total(n: int, edges: Seq<(usize, usize)>, mask: Seq<bool>, k: int)
    requires
        admits_bonds(n, edges, mask),
        0 <= n,
        0 <= k <= edges.len(),
    ensures
        offset(edges, mask, n, k) == 2 * admitted(mask, k),
    decreases k,
{
    if k > 0 {
        lemma_total(n, edges, mask, k - 1);
        if mask[k - 1] {
            lemma_offset_step(edges, mask, n, k);
        } else {
            lemma_offset_skip(edges, mask, n, k);
        }
    } else {
        lemma_offset_start(edges, mask, n);
    }
}

/// `n` zeros.
pub(crate) fn zeros_u32(n: usize) -> (v: Vec<u32>)
    ensures
        v@.len() == n,
        forall|i: int| 0 <= i < n ==> #[trigger] v@[i] == 0,
{
    vec![0u32; n]
}

/// Build the rows of the edges that `mask` admits.
#[verifier::rlimit(80)]
pub(crate) fn build_rows(n: usize, edges: &Vec<(usize, usize)>, mask: &Vec<bool>) -> (r: Csr)
    requires
        n <= u32::MAX,
        n < usize::MAX,
        admits_bonds(n as int, edges@, mask@),
        2 * admitted(mask@, edges@.len() as int) <= u32::MAX,
    ensures
        r.holds(n as int, edges@, mask@),
{
    let m: usize = edges.len();
    proof {
        lemma_total(n as int, edges@, mask@, m as int);
    }
    // Row lengths.
    let mut deg: Vec<u32> = zeros_u32(n);
    let mut k: usize = 0;
    while k < m
        invariant
            m == edges@.len(),
            admits_bonds(n as int, edges@, mask@),
            offset(edges@, mask@, n as int, m as int) <= u32::MAX,
            deg@.len() == n,
            k <= m,
            forall|v: int|
                0 <= v < n ==> #[trigger] deg@[v] == entry_row(edges@, mask@, v, k as int).len(),
        decreases m - k,
    {
        if mask[k] {
            let (u, w) = edges[k];
            proof {
                assert(mask@[k as int]);
                lemma_row_grows(edges@, mask@, u as int, k as int + 1, m as int);
                lemma_row_grows(edges@, mask@, w as int, k as int + 1, m as int);
                lemma_offset_grows(edges@, mask@, u as int, n as int, m as int);
                lemma_offset_grows(edges@, mask@, w as int, n as int, m as int);
            }
            let du: u32 = deg[u];
            deg[u] = du + 1;
            let dw: u32 = deg[w];
            deg[w] = dw + 1;
        }
        k = k + 1;
    }
    // Row offsets.
    let mut start: Vec<u32> = zeros_u32(n + 1);
    let mut i: usize = 0;
    while i < n
        invariant
            m == edges@.len(),
            i <= n,
            n <= u32::MAX,
            n < usize::MAX,
            deg@.len() == n,
            start@.len() == n + 1,
            offset(edges@, mask@, n as int, m as int) <= u32::MAX,
            forall|v: int|
                0 <= v < n ==> #[trigger] deg@[v] == entry_row(edges@, mask@, v, m as int).len(),
            forall|v: int|
                0 <= v <= i ==> #[trigger] start@[v] == offset(edges@, mask@, v, m as int),
        decreases n - i,
    {
        proof {
            lemma_offset_grows(edges@, mask@, i as int, n as int, m as int);
        }
        let next: u32 = start[i] + deg[i];
        start[i + 1] = next;
        i = i + 1;
    }
    let total: usize = start[n] as usize;
    let mut node: Vec<u32> = zeros_u32(total);
    let mut edge: Vec<usize> = vec![0usize; total];
    let mut cursor: Vec<u32> = zeros_u32(n);
    let mut c: usize = 0;
    while c < n
        invariant
            c <= n,
            cursor@.len() == n,
            start@.len() == n + 1,
            forall|v: int| 0 <= v < c ==> #[trigger] cursor@[v] == start@[v],
        decreases n - c,
    {
        cursor[c] = start[c];
        c = c + 1;
    }
    let mut k: usize = 0;
    while k < m
        invariant
            m == edges@.len(),
            n <= u32::MAX,
            n < usize::MAX,
            admits_bonds(n as int, edges@, mask@),
            k <= m,
            start@.len() == n + 1,
            cursor@.len() == n,
            node@.len() == total,
            edge@.len() == total,
            total == offset(edges@, mask@, n as int, m as int),
            total <= u32::MAX,
            forall|v: int|
                0 <= v <= n ==> #[trigger] start@[v] == offset(edges@, mask@, v, m as int),
            forall|v: int|
                0 <= v < n ==> #[trigger] cursor@[v] == start@[v] + entry_row(
                    edges@,
                    mask@,
                    v,
                    k as int,
                ).len(),
            rows_filled(start@, node@, edge@, n as int, edges@, mask@, k as int),
        decreases m - k,
    {
        if mask[k] {
            let (u, w) = edges[k];
            let ghost before_node = node@;
            let ghost before_edge = edge@;
            proof {
                assert(mask@[k as int]);
                lemma_row_grows(edges@, mask@, u as int, k as int + 1, m as int);
                lemma_row_grows(edges@, mask@, w as int, k as int + 1, m as int);
                lemma_offset_grows(edges@, mask@, u as int, n as int, m as int);
                lemma_offset_grows(edges@, mask@, w as int, n as int, m as int);
            }
            let pu: usize = cursor[u] as usize;
            node[pu] = w as u32;
            edge[pu] = k;
            cursor[u] = cursor[u] + 1;
            let pw: usize = cursor[w] as usize;
            node[pw] = u as u32;
            edge[pw] = k;
            cursor[w] = cursor[w] + 1;
            proof {
                assert forall|v: int, i: int|
                    #![trigger entry_row(edges@, mask@, v, k as int + 1)[i]]
                    0 <= v < n && 0 <= i < entry_row(edges@, mask@, v, k as int + 1).len() implies {
                    &&& node@[start@[v] + i] == entry_row(edges@, mask@, v, k as int + 1)[i].0
                    &&& edge@[start@[v] + i] == entry_row(edges@, mask@, v, k as int + 1)[i].1
                } by {
                    let row = entry_row(edges@, mask@, v, k as int);
                    lemma_row_grows(edges@, mask@, v, k as int, k as int + 1);
                    lemma_row_grows(edges@, mask@, v, k as int + 1, m as int);
                    lemma_offset_grows(edges@, mask@, v, n as int, m as int);
                    lemma_slots_apart(edges@, mask@, v, u as int, n as int, m as int);
                    lemma_slots_apart(edges@, mask@, v, w as int, n as int, m as int);
                    if i < row.len() {
                        assert(entry_row(edges@, mask@, v, k as int + 1)[i] == row[i]);
                        assert(before_node[start@[v] + i] == row[i].0);
                        assert(before_edge[start@[v] + i] == row[i].1);
                    }
                }
            }
        } else {
            proof {
                assert forall|v: int, i: int|
                    #![trigger entry_row(edges@, mask@, v, k as int + 1)[i]]
                    0 <= v < n && 0 <= i < entry_row(edges@, mask@, v, k as int + 1).len() implies {
                    &&& node@[start@[v] + i] == entry_row(edges@, mask@, v, k as int + 1)[i].0
                    &&& edge@[start@[v] + i] == entry_row(edges@, mask@, v, k as int + 1)[i].1
                } by {
                    assert(entry_row(edges@, mask@, v, k as int + 1)[i] == entry_row(
                        edges@,
                        mask@,
                        v,
                        k as int,
                    )[i]);
                }
            }
        }
        k = k + 1;
    }
    Csr { start, node, edge }
}

/// The rows of two nodes share no slot.
proof fn lemma_slots_apart(
    edges: Seq<(usize, usize)>,
    mask: Seq<bool>,
    v: int,
    w: int,
    n: int,
    m: int,
)
    requires
        0 <= v < n,
        0 <= w < n,
    ensures
        v < w ==> offset(edges, mask, v, m) + entry_row(edges, mask, v, m).len() <= offset(
            edges,
            mask,
            w,
            m,
        ),
        w < v ==> offset(edges, mask, w, m) + entry_row(edges, mask, w, m).len() <= offset(
            edges,
            mask,
            v,
            m,
        ),
{
    if v < w {
        lemma_offset_grows(edges, mask, v, w, m);
    } else {
        lemma_offset_grows(edges, mask, w, v, m);
    }
}

} // verus!
