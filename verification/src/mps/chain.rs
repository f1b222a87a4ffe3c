//! A problem in chain order.
use vstd::prelude::*;

use crate::ising::{
    bias_energy, binds, bonds_upto, coupling, edge_energy, edge_term, energy, signed, IsingGraph,
};
use crate::mps::order::{
    cuthill_mckee, inverse, inverts, lists_nodes, reverse_cuthill_mckee,
};
use crate::sort::{before, in_order, permutes, stable_order};
use crate::sums::{lemma_picked_is_total, picked, total};

verus! {

/// A coupling on the chain: its two slots, the lower one first, and its weight.
pub type Gate = (u32, u32, i32);

/// Edge `k` makes a gate: it binds two nodes and its coupling is not 0.
pub open spec fn makes_gate(g: IsingGraph, k: int) -> bool {
    binds(g.h@.len() as int, g.edges@[k]) && coupling(g.j@, k) != 0
}

/// Gate made by edge `k`.
pub open spec fn gate_of(g: IsingGraph, slot: Seq<u32>, k: int) -> Gate {
    let a = slot[g.edges@[k].0 as int];
    let b = slot[g.edges@[k].1 as int];
    if a < b {
        (a, b, coupling(g.j@, k) as i32)
    } else {
        (b, a, coupling(g.j@, k) as i32)
    }
}

/// Slots that a gate spans.
pub open spec fn span(gate: Gate) -> int {
    gate.1 - gate.0
}

/// Gate `a` of edge `i` runs before gate `b` of edge `j`: shorter, then lower,
/// then received first.
pub open spec fn runs_before(a: Gate, i: int, b: Gate, j: int) -> bool {
    span(a) < span(b) || (span(a) == span(b) && (a.0 < b.0 || (a.0 == b.0 && i < j)))
}

/// `gates` holds one gate per edge in `from`, and `from` lists every edge
/// that makes a gate once, in running order.
pub open spec fn lists_gates(
    g: IsingGraph,
    slot: Seq<u32>,
    gates: Seq<Gate>,
    from: Seq<usize>,
) -> bool {
    &&& gates.len() == from.len()
    &&& forall|i: int|
        0 <= i < from.len() ==> #[trigger] from[i] < g.edges@.len() && makes_gate(
            g,
            from[i] as int,
        )
    &&& forall|k: usize|
        k < g.edges@.len() && makes_gate(g, k as int) ==> #[trigger] from.contains(k)
    &&& forall|i: int|
        0 <= i < gates.len() ==> #[trigger] gates[i] == gate_of(g, slot, from[i] as int)
    &&& forall|i: int, j: int|
        0 <= i < j < gates.len() ==> runs_before(
            #[trigger] gates[i],
            from[i] as int,
            #[trigger] gates[j],
            from[j] as int,
        )
}

/// Sum of the spans of the first `k` gates.
pub open spec fn spans(gates: Seq<Gate>, k: int) -> int
    decreases k,
{
    if k <= 0 {
        0
    } else {
        spans(gates, k - 1) + span(gates[k - 1])
    }
}

/// A problem in chain order, built once per job.
#[derive(Debug)]
pub struct ChainProblem {
    /// The node in each chain slot.
    pub order: Vec<u32>,
    /// Couplings by ascending span.
    pub gates: Vec<Gate>,
    /// Fields in chain order.
    pub h: Vec<i32>,
}

/// `r` is problem `g` in chain order.
pub open spec fn chain_of(g: IsingGraph, r: ChainProblem) -> bool {
    &&& cuthill_mckee(g.h@.len() as int, g.edges@, r.order@.reverse())
    &&& r.h@.len() == g.h@.len()
    &&& forall|k: int| 0 <= k < r.h@.len() ==> #[trigger] r.h@[k] == g.h@[r.order@[k] as int]
    &&& exists|slot: Seq<u32>, from: Seq<usize>|
        inverts(r.order@, slot) && #[trigger] lists_gates(g, slot, r.gates@, from)
}

/// Edges that make gates, in received order.
fn gate_edges(g: &IsingGraph) -> (kept: Vec<usize>)
    requires
        g.fits(),
    ensures
        forall|i: int|
            0 <= i < kept@.len() ==> #[trigger] kept@[i] < g.edges@.len() && makes_gate(
                *g,
                kept@[i] as int,
            ),
        forall|i: int, j: int| 0 <= i < j < kept@.len() ==> #[trigger] kept@[i] < #[trigger] kept@[j],
        forall|k: usize|
            k < g.edges@.len() && makes_gate(*g, k as int) ==> #[trigger] kept@.contains(k),
        kept@.len() <= u32::MAX,
{
    let n: usize = g.h.len();
    let mut kept: Vec<usize> = Vec::new();
    let mut k: usize = 0;
    while k < g.edges.len()
        invariant
            g.fits(),
            n == g.h@.len(),
            k <= g.edges@.len(),
            forall|i: int|
                0 <= i < kept@.len() ==> #[trigger] kept@[i] < k && makes_gate(
                    *g,
                    kept@[i] as int,
                ),
            forall|i: int, j: int|
                0 <= i < j < kept@.len() ==> #[trigger] kept@[i] < #[trigger] kept@[j],
            forall|m: usize| m < k && makes_gate(*g, m as int) ==> #[trigger] kept@.contains(m),
            kept@.len() <= bonds_upto(n as int, g.edges@, k as int),
        decreases g.edges@.len() - k,
    {
        let e = g.edges[k];
        let ghost prev = kept@;
        let weight: i32 = if k < g.j.len() {
            g.j[k]
        } else {
            0
        };
        assert(weight == coupling(g.j@, k as int));
        if e.0 < n && e.1 < n && e.0 != e.1 && weight != 0 {
            kept.push(k);
            proof {
                assert forall|m: usize| m < k + 1 && makes_gate(*g, m as int) implies
                #[trigger] kept@.contains(m) by {
                    if m < k {
                        assert(prev.contains(m));
                        let i = choose|i: int| 0 <= i < prev.len() && prev[i] == m;
                        assert(kept@[i] == m);
                    } else {
                        assert(kept@[prev.len() as int] == m);
                    }
                }
            }
        }
        k = k + 1;
    }
    proof {
        assert(2 * bonds_upto(n as int, g.edges@, k as int) <= u32::MAX);
    }
    kept
}

/// The gates of the listed edges.
fn gate_list(g: &IsingGraph, slot: &Vec<u32>, kept: &Vec<usize>) -> (gates: Vec<Gate>)
    requires
        slot@.len() == g.h@.len(),
        forall|i: int|
            0 <= i < kept@.len() ==> #[trigger] kept@[i] < g.edges@.len() && makes_gate(
                *g,
                kept@[i] as int,
            ),
    ensures
        gates@.len() == kept@.len(),
        forall|i: int|
            0 <= i < gates@.len() ==> #[trigger] gates@[i] == gate_of(*g, slot@, kept@[i] as int),
{
    let mut gates: Vec<Gate> = Vec::with_capacity(kept.len());
    let mut i: usize = 0;
    while i < kept.len()
        invariant
            slot@.len() == g.h@.len(),
            forall|i: int|
                0 <= i < kept@.len() ==> #[trigger] kept@[i] < g.edges@.len() && makes_gate(
                    *g,
                    kept@[i] as int,
                ),
            i <= kept@.len(),
            gates@.len() == i,
            forall|m: int|
                0 <= m < i ==> #[trigger] gates@[m] == gate_of(*g, slot@, kept@[m] as int),
        decreases kept@.len() - i,
    {
        let k: usize = kept[i];
        assert(makes_gate(*g, kept@[i as int] as int));
        let e = g.edges[k];
        let a: u32 = slot[e.0];
        let b: u32 = slot[e.1];
        if a < b {
            gates.push((a, b, g.j[k]));
        } else {
            gates.push((b, a, g.j[k]));
        }
        i = i + 1;
    }
    gates
}

impl ChainProblem {
    /// Slots are in range, gates run from a lower slot to a higher one, and
    /// there are few enough of them to add their spans up.
    pub open spec fn wf(&self) -> bool {
        &&& self.order@.len() <= u32::MAX
        &&& self.order@.len() < usize::MAX
        &&& lists_nodes(self.order@.len() as int, self.order@)
        &&& self.h@.len() == self.order@.len()
        &&& self.gates@.len() <= u32::MAX
        &&& forall|i: int|
            0 <= i < self.gates@.len() ==> (#[trigger] self.gates@[i]).0 < self.gates@[i].1
                < self.order@.len()
    }

    /// Map a problem onto the chain.
    ///
    /// Self-loops and edges out of range are skipped, a missing coupling is 0,
    /// and a coupling of 0 makes no gate. Parallel edges each make one.
    pub fn from_graph(g: &IsingGraph) -> (r: Self)
        requires
            g.fits(),
        ensures
            r.wf(),
            chain_of(*g, r),
    {
        let n: usize = g.h.len();
        let order = reverse_cuthill_mckee(n, &g.edges);
        let slot = inverse(&order);
        let mut h: Vec<i32> = Vec::with_capacity(n);
        let mut i: usize = 0;
        while i < n
            invariant
                n == g.h@.len(),
                lists_nodes(n as int, order@),
                i <= n,
                h@.len() == i,
                forall|k: int| 0 <= k < i ==> #[trigger] h@[k] == g.h@[order@[k] as int],
            decreases n - i,
        {
            assert(order@[i as int] < n);
            h.push(g.h[order[i] as usize]);
            i = i + 1;
        }
        let kept = gate_edges(g);
        let unsorted = gate_list(g, &slot, &kept);
        let mut keys: Vec<u64> = Vec::with_capacity(unsorted.len());
        let mut m: usize = 0;
        proof {
            assert forall|i: int| 0 <= i < unsorted@.len() implies (#[trigger] unsorted@[i]).0
                < unsorted@[i].1 < n by {
                lemma_gate_slots(*g, order@, slot@, kept@[i] as int);
            }
        }
        while m < unsorted.len()
            invariant
                m <= unsorted@.len(),
                keys@.len() == m,
                forall|i: int|
                    0 <= i < unsorted@.len() ==> (#[trigger] unsorted@[i]).0 < unsorted@[i].1 < n,
                forall|i: int|
                    0 <= i < m ==> #[trigger] keys@[i] == span(unsorted@[i]) * 0x1_0000_0000
                        + unsorted@[i].0,
            decreases unsorted@.len() - m,
        {
            let gate = unsorted[m];
            let width: u64 = (gate.1 - gate.0) as u64;
            keys.push(width * 0x1_0000_0000 + gate.0 as u64);
            m = m + 1;
        }
        let by_span = stable_order(&keys);
        let mut gates: Vec<Gate> = Vec::with_capacity(unsorted.len());
        let ghost mut from: Seq<usize> = Seq::empty();
        let mut q: usize = 0;
        while q < by_span.len()
            invariant
                kept@.len() == unsorted@.len(),
                permutes(by_span@, unsorted@.len() as int),
                q <= by_span@.len(),
                gates@.len() == q,
                from.len() == q,
                forall|i: int|
                    0 <= i < q ==> #[trigger] gates@[i] == unsorted@[by_span@[i] as int],
                forall|i: int| 0 <= i < q ==> #[trigger] from[i] == kept@[by_span@[i] as int],
            decreases by_span@.len() - q,
        {
            assert(by_span@[q as int] < unsorted@.len());
            let at: usize = by_span[q];
            gates.push(unsorted[at]);
            proof {
                from = from.push(kept@[at as int]);
            }
            q = q + 1;
        }
        proof {
            lemma_gates_listed(
                *g,
                slot@,
                kept@,
                unsorted@,
                keys@,
                by_span@,
                gates@,
                from,
                n as int,
            );
            assert forall|i: int| 0 <= i < gates@.len() implies (#[trigger] gates@[i]).0
                < gates@[i].1 < n by {
                assert(by_span@[i] < unsorted@.len());
                assert(gates@[i] == unsorted@[by_span@[i] as int]);
            }
        }
        let r = ChainProblem { order, gates, h };
        assert(lists_gates(*g, slot@, r.gates@, from));
        r
    }

    /// Sum of all spans, which the cost of an anneal scales with.
    pub fn span_sum(&self) -> (total: u64)
        requires
            self.wf(),
        ensures
            total == spans(self.gates@, self.gates@.len() as int),
    {
        let mut total: u64 = 0;
        let mut i: usize = 0;
        while i < self.gates.len()
            invariant
                self.wf(),
                i <= self.gates@.len(),
                total == spans(self.gates@, i as int),
                total <= i * 0xffff_ffff,
            decreases self.gates@.len() - i,
        {
            let gate = self.gates[i];
            assert(self.gates@[i as int].0 < self.gates@[i as int].1);
            total = total + (gate.1 - gate.0) as u64;
            i = i + 1;
        }
        total
    }
}

/// A gate runs between two different slots of the chain.
proof fn lemma_gate_slots(g: IsingGraph, order: Seq<u32>, slot: Seq<u32>, k: int)
    requires
        lists_nodes(g.h@.len() as int, order),
        inverts(order, slot),
        g.h@.len() <= u32::MAX,
        0 <= k < g.edges@.len(),
        makes_gate(g, k),
    ensures
        gate_of(g, slot, k).0 < gate_of(g, slot, k).1 < g.h@.len(),
{
    let (u, v) = (g.edges@[k].0, g.edges@[k].1);
    assert(order.contains(u as u32) && order.contains(v as u32));
    let a = choose|a: int| 0 <= a < order.len() && order[a] == u as u32;
    let b = choose|b: int| 0 <= b < order.len() && order[b] == v as u32;
    assert(slot[order[a] as int] == a && slot[order[b] as int] == b);
}

/// A stable order by span and lower slot lists the gates in running order.
proof fn lemma_gates_listed(
    g: IsingGraph,
    slot: Seq<u32>,
    kept: Seq<usize>,
    unsorted: Seq<Gate>,
    keys: Seq<u64>,
    by_span: Seq<usize>,
    gates: Seq<Gate>,
    from: Seq<usize>,
    n: int,
)
    requires
        kept.len() == unsorted.len(),
        keys.len() == unsorted.len(),
        gates.len() == unsorted.len(),
        from.len() == unsorted.len(),
        n <= u32::MAX,
        kept.len() <= u32::MAX,
        forall|i: int|
            0 <= i < kept.len() ==> #[trigger] kept[i] < g.edges@.len() && makes_gate(
                g,
                kept[i] as int,
            ),
        forall|i: int, j: int| 0 <= i < j < kept.len() ==> #[trigger] kept[i] < #[trigger] kept[j],
        forall|k: usize|
            k < g.edges@.len() && makes_gate(g, k as int) ==> #[trigger] kept.contains(k),
        forall|i: int|
            0 <= i < unsorted.len() ==> #[trigger] unsorted[i] == gate_of(g, slot, kept[i] as int),
        forall|i: int|
            0 <= i < unsorted.len() ==> (#[trigger] unsorted[i]).0 < unsorted[i].1 < n,
        forall|i: int|
            0 <= i < keys.len() ==> #[trigger] keys[i] == span(unsorted[i]) * 0x1_0000_0000
                + unsorted[i].0,
        permutes(by_span, unsorted.len() as int),
        in_order(keys, by_span),
        forall|i: int| 0 <= i < gates.len() ==> #[trigger] gates[i] == unsorted[by_span[i] as int],
        forall|i: int| 0 <= i < from.len() ==> #[trigger] from[i] == kept[by_span[i] as int],
    ensures
        lists_gates(g, slot, gates, from),
{
    assert forall|i: int| 0 <= i < from.len() implies #[trigger] from[i] < g.edges@.len()
        && makes_gate(g, from[i] as int) by {
        assert(by_span[i] < unsorted.len());
        assert(kept[by_span[i] as int] < g.edges@.len());
    }
    assert forall|k: usize| k < g.edges@.len() && makes_gate(g, k as int) implies
    #[trigger] from.contains(k) by {
        assert(kept.contains(k));
        let m = choose|m: int| 0 <= m < kept.len() && kept[m] == k;
        assert(by_span.contains(m as usize));
        let i = choose|i: int| 0 <= i < by_span.len() && by_span[i] == m as usize;
        assert(from[i] == k);
    }
    assert forall|i: int| 0 <= i < gates.len() implies #[trigger] gates[i] == gate_of(
        g,
        slot,
        from[i] as int,
    ) by {
        assert(by_span[i] < unsorted.len());
        assert(unsorted[by_span[i] as int] == gate_of(g, slot, kept[by_span[i] as int] as int));
    }
    assert forall|i: int, j: int| 0 <= i < j < gates.len() implies runs_before(
        #[trigger] gates[i],
        from[i] as int,
        #[trigger] gates[j],
        from[j] as int,
    ) by {
        let (x, y) = (by_span[i], by_span[j]);
        assert(before(keys, x, y));
        assert(x < unsorted.len() && y < unsorted.len());
        assert(keys[x as int] == span(unsorted[x as int]) * 0x1_0000_0000 + unsorted[x as int].0);
        assert(keys[y as int] == span(unsorted[y as int]) * 0x1_0000_0000 + unsorted[y as int].0);
        assert(unsorted[x as int].0 < unsorted[x as int].1);
        assert(unsorted[y as int].0 < unsorted[y as int].1);
        if x < y {
            assert(kept[x as int] < kept[y as int]);
        }
    }
}

/// Gates run from short to long.
pub proof fn gates_run_short_to_long(
    g: IsingGraph,
    slot: Seq<u32>,
    gates: Seq<Gate>,
    from: Seq<usize>,
    i: int,
    j: int,
)
    requires
        lists_gates(g, slot, gates, from),
        0 <= i < j < gates.len(),
    ensures
        span(gates[i]) <= span(gates[j]),
{
    assert(runs_before(gates[i], from[i] as int, gates[j], from[j] as int));
}

/// Spins in chain order.
pub open spec fn in_chain(order: Seq<u32>, spins: Seq<i8>) -> Seq<i8> {
    Seq::new(order.len(), |k: int| spins[order[k] as int])
}

/// Energy of one gate.
pub open spec fn gate_term(gate: Gate, spins: Seq<i8>) -> int {
    signed(signed(gate.2 as int, spins[gate.0 as int]), spins[gate.1 as int])
}

/// Energy of the first `k` gates.
pub open spec fn gate_energy(gates: Seq<Gate>, spins: Seq<i8>, k: int) -> int
    decreases k,
{
    if k <= 0 {
        0
    } else {
        gate_energy(gates, spins, k - 1) + gate_term(gates[k - 1], spins)
    }
}

/// Energy of spins in chain order.
pub open spec fn chain_energy(r: ChainProblem, spins: Seq<i8>) -> int {
    bias_energy(r.h@, spins, r.h@.len() as int) + gate_energy(
        r.gates@,
        spins,
        r.gates@.len() as int,
    )
}

proof fn lemma_bias_total(
    h: Seq<i32>,
    spins: Seq<i8>,
    f: spec_fn(int) -> int,
    k: int,
)
    requires
        forall|i: int| 0 <= i < k ==> #[trigger] f(i) == signed(h[i] as int, spins[i]),
    ensures
        bias_energy(h, spins, k) == total(f, k),
    decreases k,
{
    if k > 0 {
        lemma_bias_total(h, spins, f, k - 1);
    }
}

proof fn lemma_bias_picked(
    h: Seq<i32>,
    spins: Seq<i8>,
    f: spec_fn(int) -> int,
    at: Seq<int>,
    k: int,
)
    requires
        0 <= k <= at.len(),
        forall|i: int| 0 <= i < k ==> signed(#[trigger] h[i] as int, spins[i]) == f(at[i]),
    ensures
        bias_energy(h, spins, k) == picked(f, at.take(k)),
    decreases k,
{
    if k > 0 {
        lemma_bias_picked(h, spins, f, at, k - 1);
        assert(at.take(k).drop_last() =~= at.take(k - 1));
    }
}

proof fn lemma_edge_total(g: IsingGraph, spins: Seq<i8>, f: spec_fn(int) -> int, k: int)
    requires
        forall|i: int| 0 <= i < k ==> #[trigger] f(i) == edge_term(g.j@, g.edges@, spins, i),
    ensures
        edge_energy(g.j@, g.edges@, spins, k) == total(f, k),
    decreases k,
{
    if k > 0 {
        lemma_edge_total(g, spins, f, k - 1);
    }
}

proof fn lemma_gates_picked(
    gates: Seq<Gate>,
    spins: Seq<i8>,
    f: spec_fn(int) -> int,
    at: Seq<int>,
    k: int,
)
    requires
        0 <= k <= at.len(),
        forall|i: int| 0 <= i < k ==> gate_term(#[trigger] gates[i], spins) == f(at[i]),
    ensures
        gate_energy(gates, spins, k) == picked(f, at.take(k)),
    decreases k,
{
    if k > 0 {
        lemma_gates_picked(gates, spins, f, at, k - 1);
        assert(at.take(k).drop_last() =~= at.take(k - 1));
    }
}

proof fn lemma_chain_bias(g: IsingGraph, r: ChainProblem, spins: Seq<i8>)
    requires
        g.fits(),
        chain_of(g, r),
        spins.len() == g.h@.len(),
    ensures
        bias_energy(r.h@, in_chain(r.order@, spins), r.h@.len() as int) == bias_energy(
            g.h@,
            spins,
            g.h@.len() as int,
        ),
{
    let n = g.h@.len() as int;
    let back = r.order@.reverse();
    let moved = in_chain(r.order@, spins);
    let f = |i: int| signed(g.h@[i] as int, spins[i]);
    let at = Seq::new(r.order@.len(), |k: int| r.order@[k] as int);
    assert(back.len() == n);
    assert forall|k: int| 0 <= k < n implies 0 <= #[trigger] at[k] < n by {
        assert(back[n - 1 - k] < n);
    }
    assert forall|i: int, j: int| 0 <= i < j < at.len() implies #[trigger] at[i]
        != #[trigger] at[j] by {
        assert(back[n - 1 - j] != back[n - 1 - i]);
    }
    assert forall|k: int| 0 <= k < n && !at.contains(k) implies #[trigger] f(k) == 0 by {
        assert(back.contains(k as u32));
        let q = choose|q: int| 0 <= q < back.len() && back[q] == k as u32;
        assert(at[n - 1 - q] == k);
    }
    assert(lists_nodes(n, back));
    lemma_picked_is_total(f, at, n);
    lemma_bias_total(g.h@, spins, f, n);
    lemma_bias_picked(r.h@, moved, f, at, n);
    assert(at.take(n) =~= at);
}

proof fn lemma_chain_gates(
    g: IsingGraph,
    r: ChainProblem,
    slot: Seq<u32>,
    from: Seq<usize>,
    spins: Seq<i8>,
)
    requires
        g.fits(),
        lists_nodes(g.h@.len() as int, r.order@.reverse()),
        inverts(r.order@, slot),
        lists_gates(g, slot, r.gates@, from),
        spins.len() == g.h@.len(),
        forall|k: int|
            0 <= k < g.edges@.len() && (#[trigger] g.edges@[k]).0 == g.edges@[k].1 ==> coupling(
                g.j@,
                k,
            ) == 0,
    ensures
        gate_energy(r.gates@, in_chain(r.order@, spins), r.gates@.len() as int) == edge_energy(
            g.j@,
            g.edges@,
            spins,
            g.edges@.len() as int,
        ),
{
    let n = g.h@.len() as int;
    let m = g.edges@.len() as int;
    let moved = in_chain(r.order@, spins);
    let back = r.order@.reverse();
    let f = |i: int| edge_term(g.j@, g.edges@, spins, i);
    let at = Seq::new(from.len(), |i: int| from[i] as int);
    assert forall|v: int| 0 <= v < n implies 0 <= #[trigger] slot[v] < n && moved[slot[v] as int]
        == spins[v] by {
        assert(back.contains(v as u32));
        let q = choose|q: int| 0 <= q < back.len() && back[q] == v as u32;
        assert(r.order@[n - 1 - q] == v as u32);
        assert(slot[r.order@[n - 1 - q] as int] == n - 1 - q);
    }
    assert forall|i: int| 0 <= i < at.len() implies 0 <= #[trigger] at[i] < m by {
        assert(from[i] < g.edges@.len());
    }
    assert forall|i: int, j: int| 0 <= i < j < at.len() implies #[trigger] at[i]
        != #[trigger] at[j] by {
        assert(runs_before(r.gates@[i], from[i] as int, r.gates@[j], from[j] as int));
    }
    assert forall|k: int| 0 <= k < m && !at.contains(k) implies #[trigger] f(k) == 0 by {
        if makes_gate(g, k) {
            assert(g.edges.len() == m);
            assert(from.contains(k as usize));
            let i = choose|i: int| 0 <= i < from.len() && from[i] == k as usize;
            assert(at[i] == k);
        } else {
            assert(g.edges@[k].0 == g.edges@[k].1 ==> coupling(g.j@, k) == 0);
        }
    }
    assert forall|i: int| 0 <= i < at.len() implies gate_term(#[trigger] r.gates@[i], moved) == f(
        at[i],
    ) by {
        let k = from[i] as int;
        assert(from[i] < g.edges@.len() && makes_gate(g, k));
        assert(r.gates@[i] == gate_of(g, slot, k));
        assert(moved[slot[g.edges@[k].0 as int] as int] == spins[g.edges@[k].0 as int]);
        assert(moved[slot[g.edges@[k].1 as int] as int] == spins[g.edges@[k].1 as int]);
    }
    lemma_picked_is_total(f, at, m);
    lemma_edge_total(g, spins, f, m);
    lemma_gates_picked(r.gates@, moved, f, at, at.len() as int);
    assert(at.take(at.len() as int) =~= at);
}

/// The chain holds the problem: spins have the energy on the chain that they
/// have on the graph. An edge from a node to itself makes no gate, so such an
/// edge may carry no coupling.
pub proof fn chain_keeps_the_energy(g: IsingGraph, r: ChainProblem, spins: Seq<i8>)
    requires
        g.fits(),
        chain_of(g, r),
        spins.len() == g.h@.len(),
        forall|k: int|
            0 <= k < g.edges@.len() && (#[trigger] g.edges@[k]).0 == g.edges@[k].1 ==> coupling(
                g.j@,
                k,
            ) == 0,
    ensures
        chain_energy(r, in_chain(r.order@, spins)) == energy(g.h@, g.j@, g.edges@, spins),
{
    let (slot, from) = choose|slot: Seq<u32>, from: Seq<usize>|
        inverts(r.order@, slot) && #[trigger] lists_gates(g, slot, r.gates@, from);
    lemma_chain_bias(g, r, spins);
    lemma_chain_gates(g, r, slot, from, spins);
}

} // verus!
