//! A problem as a tensor network: one tensor per node, one bond per coupled
//! pair.
use vstd::prelude::*;

use crate::ising::{
    bias_energy, binds, bonds_upto, coupling, edge_energy, energy, signed, IsingGraph,
};
use crate::sampler_core::copy_i32;
use crate::sums::{lemma_picked_is_total, lemma_total_one, lemma_total_same, picked, total};

verus! {

/// A bond: its lower node, its higher node and its coupling in thousandths.
pub type NetBond = (u32, u32, i64);

/// Edge `k` joins nodes `a` and `b`.
pub open spec fn joins(g: IsingGraph, k: int, a: int, b: int) -> bool {
    binds(g.h@.len() as int, g.edges@[k]) && ((g.edges@[k].0 == a && g.edges@[k].1 == b) || (
    g.edges@[k].0 == b && g.edges@[k].1 == a))
}

/// Sum of the couplings of the first `k` edges that join `a` and `b`.
pub open spec fn pair_total(g: IsingGraph, a: int, b: int, k: int) -> int
    decreases k,
{
    if k <= 0 {
        0
    } else {
        pair_total(g, a, b, k - 1) + if joins(g, k - 1, a, b) {
            coupling(g.j@, k - 1)
        } else {
            0
        }
    }
}

/// Sum of all couplings between `a` and `b`.
pub open spec fn total_of(g: IsingGraph, a: int, b: int) -> int {
    pair_total(g, a, b, g.edges@.len() as int)
}

/// Bond `x` stands before bond `y`.
pub open spec fn bond_before(x: NetBond, y: NetBond) -> bool {
    x.0 < y.0 || (x.0 == y.0 && x.1 < y.1)
}

/// `bonds` lists the pairs whose couplings do not sum to 0, ascending, each once
/// with its sum.
pub open spec fn lists_bonds(g: IsingGraph, bonds: Seq<NetBond>) -> bool {
    &&& forall|i: int, j: int|
        0 <= i < j < bonds.len() ==> bond_before(#[trigger] bonds[i], #[trigger] bonds[j])
    &&& forall|i: int|
        0 <= i < bonds.len() ==> {
            &&& (#[trigger] bonds[i]).0 < bonds[i].1 < g.h@.len()
            &&& bonds[i].2 == total_of(g, bonds[i].0 as int, bonds[i].1 as int)
            &&& bonds[i].2 != 0
        }
    &&& forall|a: int, b: int|
        0 <= a < b < g.h@.len() && #[trigger] total_of(g, a, b) != 0 ==> has_bond(bonds, a, b)
}

/// `bonds` has a bond between `a` and `b`.
pub open spec fn has_bond(bonds: Seq<NetBond>, a: int, b: int) -> bool {
    exists|i: int| 0 <= i < bonds.len() && (#[trigger] bonds[i]).0 == a && bonds[i].1 == b
}

/// The bonds at node `v` among the first `k`, with the node at the other end.
pub open spec fn bonds_at(bonds: Seq<NetBond>, v: int, k: int) -> Seq<(usize, u32)>
    decreases k,
{
    if k <= 0 {
        Seq::empty()
    } else {
        let before = bonds_at(bonds, v, k - 1);
        if bonds[k - 1].0 == v {
            before.push(((k - 1) as usize, bonds[k - 1].1))
        } else if bonds[k - 1].1 == v {
            before.push(((k - 1) as usize, bonds[k - 1].0))
        } else {
            before
        }
    }
}

/// A problem as a tensor network.
#[derive(Debug)]
pub struct NetGraph {
    /// Bonds, ascending. Parallel edges are merged: their factors commute.
    pub bonds: Vec<NetBond>,
    /// Per node, its bonds in ascending order with the node at the other end.
    pub adj: Vec<Vec<(usize, u32)>>,
    /// Fields.
    pub h: Vec<i32>,
}

/// The partners of one node so far, ascending, with their sums.
pub open spec fn ascending_partners(row: Seq<(u32, i64)>) -> bool {
    forall|i: int, j: int| 0 <= i < j < row.len() ==> (#[trigger] row[i]).0 < (#[trigger] row[j]).0
}

/// The sum that a row holds for partner `b`; 0 where it has none.
pub open spec fn held_for(row: Seq<(u32, i64)>, b: int, k: int) -> int
    decreases k,
{
    if k <= 0 {
        0
    } else if row[k - 1].0 == b {
        row[k - 1].1 as int
    } else {
        held_for(row, b, k - 1)
    }
}

proof fn lemma_held(row: Seq<(u32, i64)>, i: int, k: int)
    requires
        ascending_partners(row),
        0 <= i < k <= row.len(),
    ensures
        held_for(row, row[i].0 as int, k) == row[i].1,
    decreases k,
{
    if k - 1 > i {
        assert(row[i].0 < row[k - 1].0);
        lemma_held(row, i, k - 1);
    }
}

proof fn lemma_not_held(row: Seq<(u32, i64)>, b: int, k: int)
    requires
        0 <= k <= row.len(),
        forall|i: int| 0 <= i < k ==> (#[trigger] row[i]).0 != b,
    ensures
        held_for(row, b, k) == 0,
    decreases k,
{
    if k > 0 {
        lemma_not_held(row, b, k - 1);
    }
}

/// The sums of one row, in range.
pub open spec fn row_bounded(row: Seq<(u32, i64)>, limit: int) -> bool {
    forall|i: int| 0 <= i < row.len() ==> -limit <= (#[trigger] row[i]).1 <= limit
}

/// Add `j` to the sum of partner `b`.
fn add_partner(row: &mut Vec<(u32, i64)>, b: u32, j: i32, Ghost(limit): Ghost<int>)
    requires
        ascending_partners(old(row)@),
        row_bounded(old(row)@, limit),
        0 <= limit <= 0x7fff_ffff_7fff_ffff,
    ensures
        ascending_partners(final(row)@),
        row_bounded(final(row)@, limit + 0x8000_0000),
        forall|c: int|
            #[trigger] held_for(final(row)@, c, final(row)@.len() as int) == held_for(
                old(row)@,
                c,
                old(row)@.len() as int,
            ) + if c == b {
                j as int
            } else {
                0
            },
        forall|i: int|
            0 <= i < final(row)@.len() ==> (#[trigger] final(row)@[i]).0 == b || exists|t: int|
                0 <= t < old(row)@.len() && (#[trigger] old(row)@[t]).0 == final(row)@[i].0,
        final(row)@.len() <= old(row)@.len() + 1,
{
    let ghost before = row@;
    let mut i: usize = 0;
    while i < row.len() && row[i].0 < b
        invariant
            row@ == before,
            i <= row@.len(),
            forall|t: int| 0 <= t < i ==> (#[trigger] row@[t]).0 < b,
        decreases row@.len() - i,
    {
        i = i + 1;
    }
    if i < row.len() && row[i].0 == b {
        let held: i64 = row[i].1;
        assert(-limit <= before[i as int].1 <= limit);
        row.set(i, (b, held + j as i64));
        proof {
            assert(row@ =~= before.update(i as int, (b, (held + j) as i64)));
            assert forall|c: int| #[trigger] held_for(row@, c, row@.len() as int) == held_for(
                before,
                c,
                before.len() as int,
            ) + (if c == b {
                j as int
            } else {
                0
            }) by {
                if c == b {
                    lemma_held(row@, i as int, row@.len() as int);
                    lemma_held(before, i as int, before.len() as int);
                } else {
                    lemma_same_held(before, row@, c, row@.len() as int);
                }
            }
            assert forall|t: int| 0 <= t < row@.len() implies ((#[trigger] row@[t]).0 == b
                || exists|q: int| 0 <= q < before.len() && (#[trigger] before[q]).0 == row@[t].0) by {
                assert(before[t].0 == row@[t].0);
            }
        }
    } else {
        row.insert(i, (b, j as i64));
        proof {
            assert(row@ == before.insert(i as int, (b, j as i64)));
            assert forall|s: int, t: int| 0 <= s < t < row@.len() implies (#[trigger] row@[s]).0
                < (#[trigger] row@[t]).0 by {
                if t < i {
                    assert(before[s].0 < before[t].0);
                } else if t == i {
                    assert(before[s].0 < b);
                } else {
                    assert(row@[t] == before[t - 1]);
                    if i < before.len() {
                        assert(before[i as int].0 > b);
                        if t - 1 > i {
                            assert(before[i as int].0 < before[t - 1].0);
                        }
                    }
                    if s < i {
                        assert(before[s].0 < before[t - 1].0);
                    } else if s > i {
                        assert(row@[s] == before[s - 1]);
                        assert(before[s - 1].0 < before[t - 1].0);
                    }
                }
            }
            assert forall|t: int| 0 <= t < before.len() implies (#[trigger] before[t]).0 != b by {
                if t > i {
                    assert(before[i as int].0 < before[t].0);
                }
            }
            assert forall|c: int| #[trigger] held_for(row@, c, row@.len() as int) == held_for(
                before,
                c,
                before.len() as int,
            ) + (if c == b {
                j as int
            } else {
                0
            }) by {
                if c == b {
                    lemma_held(row@, i as int, row@.len() as int);
                    lemma_not_held(before, c, before.len() as int);
                } else {
                    lemma_insert_held(before, i as int, (b, j as i64), c, before.len() as int);
                }
            }
            assert forall|t: int| 0 <= t < row@.len() implies ((#[trigger] row@[t]).0 == b
                || exists|q: int| 0 <= q < before.len() && (#[trigger] before[q]).0 == row@[t].0) by {
                if t < i {
                    assert(before[t].0 == row@[t].0);
                } else if t > i {
                    assert(before[t - 1].0 == row@[t].0);
                }
            }
            assert forall|t: int| 0 <= t < row@.len() implies -(limit + 0x8000_0000) <= (
            #[trigger] row@[t]).1 <= limit + 0x8000_0000 by {
                if t < i {
                    assert(before[t] == row@[t]);
                } else if t > i {
                    assert(before[t - 1] == row@[t]);
                }
            }
        }
    }
}

proof fn lemma_same_held(a: Seq<(u32, i64)>, b: Seq<(u32, i64)>, c: int, k: int)
    requires
        a.len() == b.len(),
        0 <= k <= a.len(),
        forall|i: int| 0 <= i < a.len() ==> (#[trigger] a[i]).0 == b[i].0,
        forall|i: int| 0 <= i < a.len() && (#[trigger] a[i]).0 == c ==> a[i] == b[i],
    ensures
        held_for(a, c, k) == held_for(b, c, k),
    decreases k,
{
    if k > 0 {
        assert(a[k - 1].0 == b[k - 1].0);
        lemma_same_held(a, b, c, k - 1);
    }
}

proof fn lemma_insert_held(a: Seq<(u32, i64)>, at: int, x: (u32, i64), c: int, k: int)
    requires
        0 <= at <= k <= a.len(),
        x.0 != c,
    ensures
        held_for(a.insert(at, x), c, k + 1) == held_for(a, c, k),
    decreases k,
{
    let b = a.insert(at, x);
    if k > at {
        assert(b[k] == a[k - 1]);
        lemma_insert_held(a, at, x, c, k - 1);
    } else {
        assert(b[k] == x);
        lemma_prefix_held(a, b, c, k);
    }
}

proof fn lemma_prefix_held(a: Seq<(u32, i64)>, b: Seq<(u32, i64)>, c: int, k: int)
    requires
        0 <= k <= a.len(),
        k <= b.len(),
        forall|i: int| 0 <= i < k ==> a[i] == b[i],
    ensures
        held_for(a, c, k) == held_for(b, c, k),
    decreases k,
{
    if k > 0 {
        lemma_prefix_held(a, b, c, k - 1);
    }
}

/// The rows hold the sums over the first `k` edges: node `a` those with its
/// higher partners.
pub open spec fn rows_hold(g: IsingGraph, rows: Seq<Vec<(u32, i64)>>, k: int) -> bool {
    &&& rows.len() == g.h@.len()
    &&& forall|a: int| 0 <= a < rows.len() ==> ascending_partners((#[trigger] rows[a])@)
    &&& forall|a: int, b: int|
        0 <= a < rows.len() && a < b ==> #[trigger] held_for(rows[a]@, b, rows[a]@.len() as int)
            == pair_total(g, a, b, k)
    &&& forall|a: int, i: int|
        0 <= a < rows.len() && 0 <= i < rows[a]@.len() ==> a < (#[trigger] rows[a]@[i]).0
            < g.h@.len()
}

/// Partners in the first `k` rows.
pub open spec fn partners_in(rows: Seq<Vec<(u32, i64)>>, k: int) -> int
    decreases k,
{
    if k <= 0 {
        0
    } else {
        partners_in(rows, k - 1) + rows[k - 1]@.len()
    }
}

proof fn lemma_partners_empty(rows: Seq<Vec<(u32, i64)>>, k: int)
    requires
        0 <= k <= rows.len(),
        forall|a: int| 0 <= a < rows.len() ==> (#[trigger] rows[a])@.len() == 0,
    ensures
        partners_in(rows, k) == 0,
    decreases k,
{
    if k > 0 {
        lemma_partners_empty(rows, k - 1);
    }
}

proof fn lemma_partners_grow(a: Seq<Vec<(u32, i64)>>, b: Seq<Vec<(u32, i64)>>, at: int, k: int)
    requires
        a.len() == b.len(),
        0 <= k <= a.len(),
        0 <= at < a.len(),
        forall|w: int| 0 <= w < a.len() && w != at ==> #[trigger] b[w] == a[w],
        b[at]@.len() <= a[at]@.len() + 1,
    ensures
        partners_in(b, k) <= partners_in(a, k) + if at < k {
            1int
        } else {
            0
        },
    decreases k,
{
    if k > 0 {
        lemma_partners_grow(a, b, at, k - 1);
    }
}

/// Merge parallel edges into rows.
fn merge_edges(g: &IsingGraph) -> (rows: Vec<Vec<(u32, i64)>>)
    requires
        g.fits(),
    ensures
        rows_hold(*g, rows@, g.edges@.len() as int),
        2 * partners_in(rows@, rows@.len() as int) <= u32::MAX,
{
    let n: usize = g.h.len();
    let mut rows: Vec<Vec<(u32, i64)>> = Vec::with_capacity(n);
    while rows.len() < n
        invariant
            rows@.len() <= n,
            forall|a: int| 0 <= a < rows@.len() ==> (#[trigger] rows@[a])@.len() == 0,
        decreases n - rows@.len(),
    {
        rows.push(Vec::new());
    }
    let mut k: usize = 0;
    let ghost mut count: int = 0;
    proof {
        lemma_partners_empty(rows@, n as int);
    }
    while k < g.edges.len()
        invariant
            g.fits(),
            n == g.h@.len(),
            k <= g.edges@.len(),
            count == bonds_upto(n as int, g.edges@, k as int),
            partners_in(rows@, n as int) <= count,
            rows_hold(*g, rows@, k as int),
            forall|a: int|
                0 <= a < rows@.len() ==> row_bounded((#[trigger] rows@[a])@, count * 0x8000_0000),
        decreases g.edges@.len() - k,
    {
        let (u, v) = g.edges[k];
        let ghost before = rows@;
        proof {
            lemma_count_grows(*g, k as int + 1, g.edges@.len() as int);
            lemma_count_grows(*g, 0, k as int);
        }
        if u < n && v < n && u != v {
            let c: i32 = if k < g.j.len() {
                g.j[k]
            } else {
                0
            };
            let (a, b) = if u < v {
                (u, v)
            } else {
                (v, u)
            };
            proof {
                assert(row_bounded(rows@[a as int]@, count * 0x8000_0000));
                assert(ascending_partners(rows@[a as int]@));
            }
            add_partner(&mut rows[a], b as u32, c, Ghost(count * 0x8000_0000));
            proof {
                assert(forall|w: int| 0 <= w < n && w != a ==> #[trigger] rows@[w] == before[w]);
                lemma_partners_grow(before, rows@, a as int, n as int);
                assert forall|w: int, p: int| 0 <= w < rows@.len() && w < p implies #[trigger]
                    held_for(rows@[w]@, p, rows@[w]@.len() as int) == pair_total(
                    *g,
                    w,
                    p,
                    k + 1,
                ) by {
                    assert(held_for(before[w]@, p, before[w]@.len() as int) == pair_total(
                        *g,
                        w,
                        p,
                        k as int,
                    ));
                }
                assert forall|w: int, i: int|
                    0 <= w < rows@.len() && 0 <= i < rows@[w]@.len() implies w < (
                #[trigger] rows@[w]@[i]).0 < g.h@.len() by {
                    if w == a {
                        if rows@[w]@[i].0 != b {
                            let t = choose|t: int|
                                0 <= t < before[w]@.len() && (#[trigger] before[w]@[t]).0
                                    == rows@[w]@[i].0;
                            assert(before[w]@[t].0 == rows@[w]@[i].0);
                        }
                    } else {
                        assert(before[w]@[i] == rows@[w]@[i]);
                    }
                }
                count = count + 1;
                assert forall|w: int| 0 <= w < rows@.len() implies row_bounded(
                    (#[trigger] rows@[w])@,
                    count * 0x8000_0000,
                ) by {
                    if w != a {
                        assert(row_bounded(before[w]@, (count - 1) * 0x8000_0000));
                    }
                }
                assert forall|w: int| 0 <= w < rows@.len() implies ascending_partners(
                    (#[trigger] rows@[w])@,
                ) by {
                    if w != a {
                        assert(ascending_partners(before[w]@));
                    }
                }
            }
        } else {
            proof {
                assert forall|w: int, p: int| 0 <= w < rows@.len() && w < p implies #[trigger]
                    held_for(rows@[w]@, p, rows@[w]@.len() as int) == pair_total(
                    *g,
                    w,
                    p,
                    k + 1,
                ) by {}
            }
        }
        k = k + 1;
    }
    rows
}

proof fn lemma_count_grows(g: IsingGraph, i: int, k: int)
    requires
        0 <= i <= k,
    ensures
        0 <= bonds_upto(g.h@.len() as int, g.edges@, i) <= bonds_upto(
            g.h@.len() as int,
            g.edges@,
            k,
        ),
    decreases k,
{
    if i < k {
        lemma_count_grows(g, i, k - 1);
    } else if k > 0 {
        lemma_count_grows(g, k - 1, k - 1);
    }
}

/// The bonds of the rows before `a`, and of the first `i` partners of `a`, have
/// been listed.
pub open spec fn listed_upto(
    g: IsingGraph,
    rows: Seq<Vec<(u32, i64)>>,
    bonds: Seq<NetBond>,
    a: int,
    i: int,
) -> bool {
    &&& forall|s: int, t: int|
        0 <= s < t < bonds.len() ==> bond_before(#[trigger] bonds[s], #[trigger] bonds[t])
    &&& forall|s: int|
        0 <= s < bonds.len() ==> {
            &&& (#[trigger] bonds[s]).0 < bonds[s].1 < g.h@.len()
            &&& bonds[s].2 == total_of(g, bonds[s].0 as int, bonds[s].1 as int)
            &&& bonds[s].2 != 0
            &&& bonds[s].0 < a || (bonds[s].0 == a && exists|t: int|
                0 <= t < i && (#[trigger] rows[a]@[t]).0 == bonds[s].1)
        }
    &&& forall|w: int, t: int|
        0 <= w < rows.len() && 0 <= t < rows[w]@.len() && (w < a || (w == a && t < i)) && (
        #[trigger] rows[w]@[t]).1 != 0 ==> has_bond(bonds, w, rows[w]@[t].0 as int)
}

/// List the merged bonds.
fn list_merged(g: &IsingGraph, rows: &Vec<Vec<(u32, i64)>>) -> (bonds: Vec<NetBond>)
    requires
        g.fits(),
        rows_hold(*g, rows@, g.edges@.len() as int),
    ensures
        lists_bonds(*g, bonds@),
        bonds@.len() <= partners_in(rows@, rows@.len() as int),
{
    let n: usize = rows.len();
    let mut bonds: Vec<NetBond> = Vec::new();
    let mut a: usize = 0;
    while a < n
        invariant
            g.fits(),
            rows_hold(*g, rows@, g.edges@.len() as int),
            n == rows@.len(),
            a <= n,
            bonds@.len() <= partners_in(rows@, a as int),
            listed_upto(*g, rows@, bonds@, a as int, 0),
        decreases n - a,
    {
        let mut i: usize = 0;
        while i < rows[a].len()
            invariant
                g.fits(),
                rows_hold(*g, rows@, g.edges@.len() as int),
                n == rows@.len(),
                a < n,
                i <= rows@[a as int]@.len(),
                bonds@.len() <= partners_in(rows@, a as int) + i,
                listed_upto(*g, rows@, bonds@, a as int, i as int),
            decreases rows@[a as int]@.len() - i,
        {
            let (b, sum) = rows[a][i];
            let ghost before = bonds@;
            let ghost row = rows@[a as int]@;
            proof {
                assert(rows@[a as int]@[i as int].0 == b);
                assert(ascending_partners(row));
                lemma_held(row, i as int, row.len() as int);
                assert(held_for(rows@[a as int]@, b as int, rows@[a as int]@.len() as int)
                    == pair_total(*g, a as int, b as int, g.edges@.len() as int));
            }
            if sum != 0 {
                bonds.push((a as u32, b, sum));
            }
            proof {
                let now = bonds@;
                assert forall|s: int, t: int| 0 <= s < t < now.len() implies bond_before(
                    #[trigger] now[s],
                    #[trigger] now[t],
                ) by {
                    if t < before.len() {
                        assert(bond_before(before[s], before[t]));
                    } else {
                        assert(before[s] == now[s]);
                        if before[s].0 == a {
                            let q = choose|q: int|
                                0 <= q < i && (#[trigger] rows@[a as int]@[q]).0 == before[s].1;
                            assert(row[q].0 < row[i as int].0);
                        }
                    }
                }
                assert forall|s: int| 0 <= s < now.len() implies ({
                    &&& (#[trigger] now[s]).0 < now[s].1 < g.h@.len()
                    &&& now[s].2 == total_of(*g, now[s].0 as int, now[s].1 as int)
                    &&& now[s].2 != 0
                    &&& now[s].0 < a || (now[s].0 == a && exists|t: int|
                        0 <= t < i + 1 && (#[trigger] rows@[a as int]@[t]).0 == now[s].1)
                }) by {
                    if s < before.len() {
                        assert(now[s] == before[s]);
                        if before[s].0 == a {
                            let q = choose|q: int|
                                0 <= q < i && (#[trigger] rows@[a as int]@[q]).0 == before[s].1;
                            assert(rows@[a as int]@[q].0 == now[s].1);
                        }
                    } else {
                        assert(rows@[a as int]@[i as int].0 == now[s].1);
                    }
                }
                assert forall|w: int, t: int|
                    0 <= w < rows@.len() && 0 <= t < rows@[w]@.len() && (w < a || (w == a && t < i
                        + 1)) && (#[trigger] rows@[w]@[t]).1 != 0 implies has_bond(
                    now,
                    w,
                    rows@[w]@[t].0 as int,
                ) by {
                    if w < a || t < i {
                        assert(has_bond(before, w, rows@[w]@[t].0 as int));
                        let s = choose|s: int|
                            0 <= s < before.len() && (#[trigger] before[s]).0 == w && before[s].1
                                == rows@[w]@[t].0;
                        assert(now[s] == before[s]);
                    } else {
                        assert(now[before.len() as int].0 == w);
                    }
                }
            }
            i = i + 1;
        }
        proof {
            assert(listed_upto(*g, rows@, bonds@, a + 1, 0)) by {
                assert forall|w: int, t: int|
                    0 <= w < rows@.len() && 0 <= t < rows@[w]@.len() && (w < a + 1 || (w == a + 1
                        && t < 0)) && (#[trigger] rows@[w]@[t]).1 != 0 implies has_bond(
                    bonds@,
                    w,
                    rows@[w]@[t].0 as int,
                ) by {}
            }
        }
        a = a + 1;
    }
    proof {
        assert forall|x: int, y: int|
            0 <= x < y < g.h@.len() && #[trigger] total_of(*g, x, y) != 0 implies has_bond(
            bonds@,
            x,
            y,
        ) by {
            let row = rows@[x]@;
            assert(held_for(rows@[x]@, y, rows@[x]@.len() as int) == pair_total(
                *g,
                x,
                y,
                g.edges@.len() as int,
            ));
            if forall|t: int| 0 <= t < row.len() ==> (#[trigger] row[t]).0 != y {
                lemma_not_held(row, y, row.len() as int);
            } else {
                let t = choose|t: int| 0 <= t < row.len() && (#[trigger] row[t]).0 == y;
                assert(ascending_partners(row));
                lemma_held(row, t, row.len() as int);
                assert(rows@[x]@[t].1 != 0);
            }
        }
    }
    bonds
}

/// `net` is problem `g` as a network.
pub open spec fn net_of(g: IsingGraph, net: NetGraph) -> bool {
    &&& lists_bonds(g, net.bonds@)
    &&& net.h@ == g.h@
    &&& net.adj@.len() == g.h@.len()
    &&& forall|v: int|
        0 <= v < net.adj@.len() ==> (#[trigger] net.adj@[v])@ == bonds_at(
            net.bonds@,
            v,
            net.bonds@.len() as int,
        )
}

impl NetGraph {
    /// Build the network of a problem.
    ///
    /// Self-loops and edges out of range are skipped, a missing coupling is 0,
    /// and parallel edges merge into one bond. A pair whose couplings sum to 0
    /// has none.
    pub fn from_graph(g: &IsingGraph) -> (net: Self)
        requires
            g.fits(),
        ensures
            net_of(*g, net),
            2 * net.bonds@.len() <= u32::MAX,
    {
        let n: usize = g.h.len();
        let rows = merge_edges(g);
        let bonds = list_merged(g, &rows);
        let mut adj: Vec<Vec<(usize, u32)>> = Vec::with_capacity(n);
        while adj.len() < n
            invariant
                adj@.len() <= n,
                forall|v: int| 0 <= v < adj@.len() ==> (#[trigger] adj@[v])@.len() == 0,
            decreases n - adj@.len(),
        {
            adj.push(Vec::new());
        }
        assert forall|v: int| 0 <= v < n implies (#[trigger] adj@[v])@ == bonds_at(bonds@, v, 0) by {
            assert(adj@[v]@ =~= bonds_at(bonds@, v, 0));
        }
        let mut e: usize = 0;
        while e < bonds.len()
            invariant
                n == g.h@.len(),
                lists_bonds(*g, bonds@),
                adj@.len() == n,
                e <= bonds@.len(),
                forall|v: int|
                    0 <= v < n ==> (#[trigger] adj@[v])@ == bonds_at(bonds@, v, e as int),
            decreases bonds@.len() - e,
        {
            let (u, v, _) = bonds[e];
            assert(bonds@[e as int].0 < bonds@[e as int].1 < n);
            let ghost before = adj@;
            adj[u as usize].push((e, v));
            let ghost mid = adj@;
            adj[v as usize].push((e, u));
            proof {
                assert forall|w: int| 0 <= w < n implies (#[trigger] adj@[w])@ == bonds_at(
                    bonds@,
                    w,
                    e + 1,
                ) by {
                    assert(before[w]@ == bonds_at(bonds@, w, e as int));
                }
            }
            e = e + 1;
        }
        NetGraph { bonds, adj, h: copy_i32(&g.h) }
    }

    /// Number of nodes.
    pub fn num_nodes(&self) -> (n: usize)
        ensures
            n == self.h@.len(),
    {
        self.h.len()
    }

    /// Largest number of bonds at a node; 0 without bonds.
    pub fn max_degree(&self) -> (d: usize)
        ensures
            forall|v: int| 0 <= v < self.adj@.len() ==> (#[trigger] self.adj@[v])@.len() <= d,
            d > 0 ==> exists|v: int|
                0 <= v < self.adj@.len() && (#[trigger] self.adj@[v])@.len() == d,
    {
        let mut d: usize = 0;
        let mut v: usize = 0;
        while v < self.adj.len()
            invariant
                v <= self.adj@.len(),
                forall|w: int| 0 <= w < v ==> (#[trigger] self.adj@[w])@.len() <= d,
                d > 0 ==> exists|w: int|
                    0 <= w < self.adj@.len() && (#[trigger] self.adj@[w])@.len() == d,
            decreases self.adj@.len() - v,
        {
            let here: usize = self.adj[v].len();
            if here > d {
                d = here;
                assert(self.adj@[v as int]@.len() == d);
            }
            v = v + 1;
        }
        d
    }
}

/// Two networks of a problem have the same bonds.
pub proof fn network_is_determined(g: IsingGraph, a: Seq<NetBond>, b: Seq<NetBond>)
    requires
        lists_bonds(g, a),
        lists_bonds(g, b),
    ensures
        a == b,
{
    lemma_bonds_agree(g, a, b, if a.len() < b.len() {
        a.len() as int
    } else {
        b.len() as int
    });
    if a.len() < b.len() {
        lemma_no_more(g, a, b);
    }
    if b.len() < a.len() {
        lemma_no_more(g, b, a);
    }
    assert(a =~= b);
}

proof fn lemma_bonds_agree(g: IsingGraph, a: Seq<NetBond>, b: Seq<NetBond>, k: int)
    requires
        lists_bonds(g, a),
        lists_bonds(g, b),
        0 <= k <= a.len(),
        k <= b.len(),
    ensures
        forall|i: int| 0 <= i < k ==> a[i] == b[i],
    decreases k,
{
    if k > 0 {
        lemma_bonds_agree(g, a, b, k - 1);
        let x = a[k - 1];
        let y = b[k - 1];
        assert(total_of(g, x.0 as int, x.1 as int) != 0);
        assert(total_of(g, y.0 as int, y.1 as int) != 0);
        let i = choose|i: int| 0 <= i < b.len() && (#[trigger] b[i]).0 == x.0 && b[i].1 == x.1;
        let j = choose|j: int| 0 <= j < a.len() && (#[trigger] a[j]).0 == y.0 && a[j].1 == y.1;
        if i < k - 1 {
            assert(bond_before(a[i], a[k - 1]));
        }
        if j < k - 1 {
            assert(bond_before(b[j], b[k - 1]));
        }
        if i > k - 1 {
            assert(bond_before(b[k - 1], b[i]));
            if j > k - 1 {
                assert(bond_before(a[k - 1], a[j]));
            }
        }
    }
}

proof fn lemma_no_more(g: IsingGraph, a: Seq<NetBond>, b: Seq<NetBond>)
    requires
        lists_bonds(g, a),
        lists_bonds(g, b),
        a.len() <= b.len(),
        forall|i: int| 0 <= i < a.len() ==> a[i] == b[i],
    ensures
        a.len() == b.len(),
{
    if a.len() < b.len() {
        let k = a.len() as int;
        let y = b[k];
        assert(total_of(g, y.0 as int, y.1 as int) != 0);
        let j = choose|j: int| 0 <= j < a.len() && (#[trigger] a[j]).0 == y.0 && a[j].1 == y.1;
        assert(bond_before(b[j], b[k]));
    }
}

/// Energy of one bond.
pub open spec fn bond_term(bond: NetBond, spins: Seq<i8>) -> int {
    signed(signed(bond.2 as int, spins[bond.0 as int]), spins[bond.1 as int])
}

/// Energy of the first `k` bonds.
pub open spec fn bond_energy(bonds: Seq<NetBond>, spins: Seq<i8>, k: int) -> int
    decreases k,
{
    if k <= 0 {
        0
    } else {
        bond_energy(bonds, spins, k - 1) + bond_term(bonds[k - 1], spins)
    }
}

/// Energy of spins on a network.
pub open spec fn net_energy(net: NetGraph, spins: Seq<i8>) -> int {
    bias_energy(net.h@, spins, net.h@.len() as int) + bond_energy(
        net.bonds@,
        spins,
        net.bonds@.len() as int,
    )
}

/// What the first `k` edges add to the energy between the pair of nodes with
/// number `p`; 0 unless the lower node comes first.
spec fn pair_term(g: IsingGraph, spins: Seq<i8>, k: int, p: int) -> int {
    let n = g.h@.len() as int;
    let a = p / n;
    let b = p % n;
    if a < b {
        signed(signed(pair_total(g, a, b, k), spins[a]), spins[b])
    } else {
        0
    }
}

proof fn lemma_pair_number(n: int, a: int, b: int)
    requires
        0 <= a < n,
        0 <= b < n,
    ensures
        0 <= a * n + b < n * n,
        (a * n + b) / n == a,
        (a * n + b) % n == b,
{
    assert(0 <= a * n + b < n * n) by (nonlinear_arith)
        requires
            0 <= a < n,
            0 <= b < n,
    ;
    vstd::arithmetic::div_mod::lemma_fundamental_div_mod_converse(a * n + b, n, a, b);
}

proof fn lemma_pair_of(n: int, p: int)
    requires
        0 < n,
        0 <= p < n * n,
    ensures
        0 <= p / n < n,
        0 <= p % n < n,
        (p / n) * n + p % n == p,
{
    vstd::arithmetic::div_mod::lemma_fundamental_div_mod(p, n);
    assert(n * (p / n) == (p / n) * n) by (nonlinear_arith);
    assert(0 <= p / n < n) by (nonlinear_arith)
        requires
            0 < n,
            0 <= p < n * n,
    ;
}

/// The pairs share out the energy of the first `k` edges.
proof fn lemma_pairs_share(g: IsingGraph, spins: Seq<i8>, k: int)
    requires
        0 <= k <= g.edges@.len(),
        0 < g.h@.len(),
        spins.len() == g.h@.len(),
        forall|i: int|
            0 <= i < g.edges@.len() && (#[trigger] g.edges@[i]).0 == g.edges@[i].1 ==> coupling(
                g.j@,
                i,
            ) == 0,
    ensures
        total(|p: int| pair_term(g, spins, k, p), (g.h@.len() * g.h@.len()) as int) == edge_energy(
            g.j@,
            g.edges@,
            spins,
            k,
        ),
    decreases k,
{
    let n = g.h@.len() as int;
    let now = |p: int| pair_term(g, spins, k, p);
    if k == 0 {
        lemma_nothing(now, n * n);
    } else {
        let before = |p: int| pair_term(g, spins, k - 1, p);
        lemma_pairs_share(g, spins, k - 1);
        let e = g.edges@[k - 1];
        if binds(n, e) {
            let a = if e.0 < e.1 {
                e.0 as int
            } else {
                e.1 as int
            };
            let b = if e.0 < e.1 {
                e.1 as int
            } else {
                e.0 as int
            };
            let here = a * n + b;
            lemma_pair_number(n, a, b);
            assert forall|p: int| 0 <= p < n * n && p != here implies #[trigger] before(p)
                == now(p) by {
                lemma_pair_of(n, p);
                if p / n == a && p % n == b {
                    assert(p == here);
                }
            }
            lemma_total_one(before, now, here, n * n);
            assert(joins(g, k - 1, a, b));
        } else {
            assert(e.0 == e.1 ==> coupling(g.j@, k - 1) == 0);
            lemma_total_same(before, now, n * n);
        }
    }
}

proof fn lemma_nothing(f: spec_fn(int) -> int, n: int)
    requires
        forall|p: int| 0 <= p < n ==> #[trigger] f(p) == 0,
    ensures
        total(f, n) == 0,
    decreases n,
{
    if n > 0 {
        lemma_nothing(f, n - 1);
    }
}

proof fn lemma_bonds_picked(
    bonds: Seq<NetBond>,
    spins: Seq<i8>,
    f: spec_fn(int) -> int,
    at: Seq<int>,
    k: int,
)
    requires
        0 <= k <= at.len(),
        forall|i: int| 0 <= i < k ==> bond_term(#[trigger] bonds[i], spins) == f(at[i]),
    ensures
        bond_energy(bonds, spins, k) == picked(f, at.take(k)),
    decreases k,
{
    if k > 0 {
        lemma_bonds_picked(bonds, spins, f, at, k - 1);
        assert(at.take(k).drop_last() =~= at.take(k - 1));
    }
}

/// The network holds the problem: spins have the energy on the network that they
/// have on the graph, though parallel edges share a bond. An edge from a node to
/// itself makes no bond, so such an edge may carry no coupling.
pub proof fn network_keeps_the_energy(g: IsingGraph, net: NetGraph, spins: Seq<i8>)
    requires
        net_of(g, net),
        spins.len() == g.h@.len(),
        forall|i: int|
            0 <= i < g.edges@.len() && (#[trigger] g.edges@[i]).0 == g.edges@[i].1 ==> coupling(
                g.j@,
                i,
            ) == 0,
    ensures
        net_energy(net, spins) == energy(g.h@, g.j@, g.edges@, spins),
{
    let n = g.h@.len() as int;
    let m = g.edges@.len() as int;
    let bonds = net.bonds@;
    if n == 0 {
        if bonds.len() > 0 {
            assert(bonds[0].1 < n);
        }
        lemma_no_edges(g, spins, m);
    } else {
        let f = |p: int| pair_term(g, spins, m, p);
        let at = Seq::new(bonds.len(), |i: int| bonds[i].0 * n + bonds[i].1);
        assert forall|i: int| 0 <= i < at.len() implies 0 <= #[trigger] at[i] < n * n && bond_term(
            bonds[i],
            spins,
        ) == f(at[i]) by {
            assert(bonds[i].0 < bonds[i].1 < g.h@.len());
            lemma_pair_number(n, bonds[i].0 as int, bonds[i].1 as int);
        }
        assert forall|i: int, j: int| 0 <= i < j < at.len() implies #[trigger] at[i]
            != #[trigger] at[j] by {
            assert(bond_before(bonds[i], bonds[j]));
            assert(bonds[i].0 < bonds[i].1 < g.h@.len());
            assert(bonds[j].0 < bonds[j].1 < g.h@.len());
            lemma_pair_number(n, bonds[i].0 as int, bonds[i].1 as int);
            lemma_pair_number(n, bonds[j].0 as int, bonds[j].1 as int);
        }
        assert forall|p: int| 0 <= p < n * n && !at.contains(p) implies #[trigger] f(p) == 0 by {
            lemma_pair_of(n, p);
            let a = p / n;
            let b = p % n;
            if a < b && total_of(g, a, b) != 0 {
                assert(has_bond(bonds, a, b));
                let i = choose|i: int|
                    0 <= i < bonds.len() && (#[trigger] bonds[i]).0 == a && bonds[i].1 == b;
                assert(at[i] == p);
            }
        }
        assert(0 <= n * n) by (nonlinear_arith)
            requires
                0 < n,
        ;
        lemma_picked_is_total(f, at, n * n);
        lemma_pairs_share(g, spins, m);
        lemma_bonds_picked(bonds, spins, f, at, at.len() as int);
        assert(at.take(at.len() as int) =~= at);
    }
}

proof fn lemma_no_edges(g: IsingGraph, spins: Seq<i8>, k: int)
    requires
        spins.len() == 0,
    ensures
        edge_energy(g.j@, g.edges@, spins, k) == 0,
    decreases k,
{
    if k > 0 {
        lemma_no_edges(g, spins, k - 1);
    }
}

} // verus!
