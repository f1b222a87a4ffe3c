//! Metropolis annealing and greedy descent over exact integer fields.
//!
//! A kernel keeps the local field of every node in a cache. The cache is seeded
//! once, and a flip then updates only the fields of the flipped node's
//! neighbors.
use rand::rngs::SmallRng;
use quip_solver_core::CancelToken;
use vstd::prelude::*;

use crate::accept::Odds;
use crate::coloring::{classes_depend_on_bonds_alone, colored};
use crate::csr::{admits_bonds, admitted, build_rows, entry_row, lemma_offset_grows, offset};
use crate::gibbs_parallel::{
    fewer_gibbs_reads_are_a_prefix, gibbs_results, lemma_colored_is_visitable,
    sample_gibbs_parallel, DEFAULT_GIBBS_WORKERS,
};
use crate::ising::{
    binds, bond_row, bonds_upto, coupling, flip_moves_neighbor_fields, flipped, graph_energy,
    lattice, lattice_is_wf, lemma_flipped_valid, pair_coupling, row_field, valid_spins, clamp_i64,
    energy_from_milli, Bond, IsingGraph, Lattice,
};
use crate::scalar::Scalar;
use crate::sweep::{
    ascending, decided, decided_sweep, descent, descent_pass, downhill, full_sweep, history,
    lemma_decided_prefix, lemma_decided_sweeps_agree, lemma_history_push, metropolis_rule, sweep,
    visit, Answers,
};
use crate::rng::{
    drawn_from, may_cancel, poll, read_seed_of, reads_of_a_job_have_distinct_seeds, streams, Draw,
    SampleCancelled, Source,
};

verus! {

/// Per-node neighbor lists in flat rows.
///
/// Edges that bind no pair of spins are left out, so a node never sees its own
/// spin in its local field.
pub struct CpuGraph {
    h: Vec<i32>,
    /// Row offsets, one more than there are nodes.
    nbr_start: Vec<u32>,
    /// Flattened neighbor ids.
    nbr_node: Vec<u32>,
    /// Flattened couplings, parallel to `nbr_node`.
    nbr_coup: Vec<i32>,
}

/// The bonds that a flat row holds.
pub open spec fn slots(node: Seq<u32>, coup: Seq<i32>, from: int, to: int) -> Seq<Bond> {
    Seq::new(
        (to - from) as nat,
        |i: int| Bond { node: node[from + i] as int, coup: coup[from + i] as int },
    )
}

impl View for CpuGraph {
    type V = Lattice;

    closed spec fn view(&self) -> Lattice {
        Lattice {
            h: Seq::new(self.h@.len(), |v: int| self.h@[v] as int),
            rows: Seq::new(
                self.h@.len(),
                |v: int|
                    slots(
                        self.nbr_node@,
                        self.nbr_coup@,
                        self.nbr_start@[v] as int,
                        self.nbr_start@[v + 1] as int,
                    ),
            ),
        }
    }
}

/// The mask of the edges that bind two of `n` nodes.
pub(crate) fn bond_mask(n: usize, edges: &Vec<(usize, usize)>) -> (mask: Vec<bool>)
    ensures
        mask@.len() == edges@.len(),
        forall|k: int|
            0 <= k < mask@.len() ==> #[trigger] mask@[k] == binds(n as int, edges@[k]),
        admits_bonds(n as int, edges@, mask@),
        admitted(mask@, edges@.len() as int) == bonds_upto(
            n as int,
            edges@,
            edges@.len() as int,
        ),
{
    let mut mask: Vec<bool> = Vec::with_capacity(edges.len());
    let mut k: usize = 0;
    while k < edges.len()
        invariant
            k <= edges@.len(),
            mask@.len() == k,
            forall|i: int| 0 <= i < k ==> #[trigger] mask@[i] == binds(n as int, edges@[i]),
        decreases edges@.len() - k,
    {
        let (u, v) = edges[k];
        mask.push(u < n && v < n && u != v);
        k = k + 1;
    }
    proof {
        lemma_mask_counts(n as int, edges@, mask@, edges@.len() as int);
    }
    mask
}

proof fn lemma_mask_counts(n: int, edges: Seq<(usize, usize)>, mask: Seq<bool>, k: int)
    requires
        mask.len() == edges.len(),
        forall|i: int| 0 <= i < mask.len() ==> #[trigger] mask[i] == binds(n, edges[i]),
        k <= edges.len(),
    ensures
        admitted(mask, k) == bonds_upto(n, edges, k),
    decreases k,
{
    if k > 0 {
        lemma_mask_counts(n, edges, mask, k - 1);
    }
}

/// A bond row is the entry row with the coupling of each edge filled in.
proof fn lemma_bond_row_is_entry_row(g: IsingGraph, mask: Seq<bool>, v: int, k: int)
    requires
        mask.len() == g.edges@.len(),
        forall|i: int|
            0 <= i < mask.len() ==> #[trigger] mask[i] == binds(g.h@.len() as int, g.edges@[i]),
        0 <= k <= g.edges@.len(),
    ensures
        bond_row(g, v, k).len() == entry_row(g.edges@, mask, v, k).len(),
        forall|i: int|
            0 <= i < bond_row(g, v, k).len() ==> (#[trigger] bond_row(g, v, k)[i]) == (Bond {
                node: entry_row(g.edges@, mask, v, k)[i].0,
                coup: coupling(g.j@, entry_row(g.edges@, mask, v, k)[i].1),
            }),
        forall|i: int|
            0 <= i < entry_row(g.edges@, mask, v, k).len() ==> 0 <= (#[trigger] entry_row(
                g.edges@,
                mask,
                v,
                k,
            )[i]).1 < g.edges@.len(),
    decreases k,
{
    if k > 0 {
        lemma_bond_row_is_entry_row(g, mask, v, k - 1);
        let b0 = bond_row(g, v, k - 1);
        let e0 = entry_row(g.edges@, mask, v, k - 1);
        assert forall|i: int| 0 <= i < bond_row(g, v, k).len() implies (#[trigger] bond_row(
            g,
            v,
            k,
        )[i]) == (Bond {
            node: entry_row(g.edges@, mask, v, k)[i].0,
            coup: coupling(g.j@, entry_row(g.edges@, mask, v, k)[i].1),
        }) by {
            if i < b0.len() {
                assert(bond_row(g, v, k)[i] == b0[i]);
                assert(entry_row(g.edges@, mask, v, k)[i] == e0[i]);
            }
        }
        assert forall|i: int| 0 <= i < entry_row(g.edges@, mask, v, k).len() implies 0 <= (
        #[trigger] entry_row(g.edges@, mask, v, k)[i]).1 < g.edges@.len() by {
            if i < e0.len() {
                assert(entry_row(g.edges@, mask, v, k)[i] == e0[i]);
            }
        }
    }
}

/// A copy of an edge list.
pub(crate) fn copy_edges(edges: &Vec<(usize, usize)>) -> (r: Vec<(usize, usize)>)
    ensures
        r@ == edges@,
{
    let mut r: Vec<(usize, usize)> = Vec::with_capacity(edges.len());
    let mut i: usize = 0;
    while i < edges.len()
        invariant
            i <= edges@.len(),
            r@ == edges@.take(i as int),
        decreases edges@.len() - i,
    {
        r.push(edges[i]);
        i = i + 1;
        assert(r@ =~= edges@.take(i as int));
    }
    assert(edges@.take(edges@.len() as int) =~= edges@);
    r
}

/// A copy of `v`.
pub(crate) fn copy_i32(v: &Vec<i32>) -> (c: Vec<i32>)
    ensures
        c@ == v@,
{
    let mut c: Vec<i32> = Vec::with_capacity(v.len());
    let mut i: usize = 0;
    while i < v.len()
        invariant
            i <= v@.len(),
            c@ == v@.take(i as int),
        decreases v@.len() - i,
    {
        c.push(v[i]);
        i = i + 1;
    }
    assert(v@.take(v@.len() as int) =~= v@);
    c
}

impl CpuGraph {
    /// Offsets stay in order and inside the rows, and the rows are those of a
    /// well-formed lattice.
    pub closed spec fn wf(&self) -> bool {
        &&& self.h@.len() <= u32::MAX && self.h@.len() < usize::MAX
        &&& self.nbr_start@.len() == self.h@.len() + 1
        &&& self.nbr_node@.len() == self.nbr_coup@.len()
        &&& self.nbr_node@.len() <= u32::MAX
        &&& forall|v: int|
            0 <= v < self.h@.len() ==> (#[trigger] self.nbr_start@[v]) <= self.nbr_start@[v + 1]
                <= self.nbr_node@.len()
        &&& self@.wf()
    }

    /// Build the rows of problem `g`.
    pub fn from_base(g: &IsingGraph) -> (r: Self)
        requires
            g.fits(),
        ensures
            r.wf(),
            r@ == lattice(*g),
    {
        let n: usize = g.h.len();
        let mask = bond_mask(n, &g.edges);
        let csr = build_rows(n, &g.edges, &mask);
        let ghost m = g.edges@.len() as int;
        let total: usize = csr.node.len();
        let mut coup: Vec<i32> = Vec::with_capacity(total);
        let mut p: usize = 0;
        while p < total
            invariant
                p <= total,
                total == csr.edge@.len(),
                coup@.len() == p,
                forall|i: int|
                    0 <= i < p ==> #[trigger] coup@[i] == coupling(g.j@, csr.edge@[i] as int),
            decreases total - p,
        {
            let k: usize = csr.edge[p];
            let c: i32 = if k < g.j.len() {
                g.j[k]
            } else {
                0
            };
            coup.push(c);
            p = p + 1;
        }
        let r = CpuGraph {
            h: copy_i32(&g.h),
            nbr_start: csr.start,
            nbr_node: csr.node,
            nbr_coup: coup,
        };
        proof {
            let l = lattice(*g);
            assert(r@.h =~= l.h);
            assert forall|v: int| 0 <= v < n implies #[trigger] r@.rows[v] == l.rows[v] by {
                lemma_bond_row_is_entry_row(*g, mask@, v, m);
                lemma_offset_grows(g.edges@, mask@, v, n as int, m);
                assert(csr.start@[v] == offset(g.edges@, mask@, v, m));
                assert(csr.start@[v + 1] == offset(g.edges@, mask@, v + 1, m));
                let row = entry_row(g.edges@, mask@, v, m);
                assert forall|i: int| 0 <= i < row.len() implies r@.rows[v][i] == l.rows[v][i] by {
                    assert(csr.node@[csr.start@[v] + i] == row[i].0);
                    assert(csr.edge@[csr.start@[v] + i] == row[i].1);
                    assert(bond_row(*g, v, m)[i] == (Bond {
                        node: row[i].0,
                        coup: coupling(g.j@, row[i].1),
                    }));
                }
                assert(r@.rows[v] =~= l.rows[v]);
            }
            assert(r@.rows =~= l.rows);
            lattice_is_wf(*g);
            assert forall|v: int| 0 <= v < n implies (#[trigger] r.nbr_start@[v])
                <= r.nbr_start@[v + 1] <= r.nbr_node@.len() by {
                lemma_offset_grows(g.edges@, mask@, v, n as int, m);
                lemma_offset_grows(g.edges@, mask@, v + 1, n as int, m);
                assert(csr.start@[v] == offset(g.edges@, mask@, v, m));
                assert(csr.start@[v + 1] == offset(g.edges@, mask@, v + 1, m));
                assert(csr.start@[n as int] == offset(g.edges@, mask@, n as int, m));
            }
        }
        r
    }

    /// A well-formed graph fits 32-bit node ids.
    pub proof fn lemma_size(&self)
        requires
            self.wf(),
        ensures
            self@.h.len() <= u32::MAX,
            self@.h.len() < usize::MAX,
            self@.wf(),
    {
    }

    /// Linear bias at `var`.
    pub fn bias(&self, var: usize) -> (b: i32)
        requires
            var < self@.h.len(),
        ensures
            b == self@.h[var as int],
    {
        self.h[var]
    }

    /// Number of nodes.
    pub fn num_nodes(&self) -> (n: usize)
        ensures
            n == self@.h.len(),
    {
        self.h.len()
    }

    /// Neighbor ids and couplings of `var`.
    pub fn neighbors(&self, var: usize) -> (r: (&[u32], &[i32]))
        requires
            self.wf(),
            var < self@.h.len(),
        ensures
            r.0@.len() == self@.rows[var as int].len(),
            r.1@.len() == self@.rows[var as int].len(),
            forall|i: int|
                0 <= i < r.0@.len() ==> (#[trigger] self@.rows[var as int][i]) == (Bond {
                    node: r.0@[i] as int,
                    coup: r.1@[i] as int,
                }),
            r.0@.len() <= u32::MAX,
    {
        let s: usize = self.nbr_start[var] as usize;
        let e: usize = self.nbr_start[var + 1] as usize;
        (
            vstd::slice::slice_subrange(self.nbr_node.as_slice(), s, e),
            vstd::slice::slice_subrange(self.nbr_coup.as_slice(), s, e),
        )
    }
}

/// The spin of a fair coin.
pub fn spin_of(up: bool) -> (s: i8)
    ensures
        s == if up {
            1i8
        } else {
            -1i8
        },
{
    if up {
        1
    } else {
        -1
    }
}

/// The coins in `log` from `from` on are those of `spins`, one to a spin.
pub open spec fn tossed(log: Seq<Draw>, from: int, spins: Seq<i8>) -> bool {
    &&& from + spins.len() <= log.len()
    &&& forall|v: int|
        0 <= v < spins.len() ==> log[from + v] == Draw::Coin((#[trigger] spins[v]) == 1)
}

/// `n` independent random spins, a coin for each.
pub(crate) fn toss_spins(n: usize, src: &mut Source) -> (spins: Vec<i8>)
    requires
        old(src).wf(),
    ensures
        final(src).wf(),
        final(src).start() == old(src).start(),
        final(src).log().len() == old(src).log().len() + n,
        final(src).log().take(old(src).log().len() as int) == old(src).log(),
        tossed(final(src).log(), old(src).log().len() as int, spins@),
        spins@.len() == n,
        valid_spins(spins@),
{
    let ghost base = src.log();
    let mut spins: Vec<i8> = Vec::with_capacity(n);
    assert(src.log().take(base.len() as int) =~= base);
    while spins.len() < n
        invariant
            src.wf(),
            src.start() == old(src).start(),
            src.log().len() == base.len() + spins@.len(),
            src.log().take(base.len() as int) == base,
            tossed(src.log(), base.len() as int, spins@),
            spins@.len() <= n,
            valid_spins(spins@),
        decreases n - spins@.len(),
    {
        let ghost held = src.log();
        spins.push(spin_of(src.coin()));
        assert(src.log().take(base.len() as int) =~= held.take(base.len() as int));
    }
    spins
}

/// `n` independent random spins, a coin of the generator for each.
pub fn random_spins(n: usize, rng: &mut SmallRng) -> (spins: Vec<i8>)
    ensures
        spins@.len() == n,
        valid_spins(spins@),
        exists|log: Seq<Draw>| #[trigger]
            streams(*old(rng), log, *final(rng)) && log.len() == n && tossed(log, 0, spins@),
{
    let mut src = Source::taken(rng);
    let spins = toss_spins(n, &mut src);
    src.give_back(rng);
    spins
}

/// The largest value that a local field of such a graph can have.
pub const FIELD_LIMIT: i128 = 0x1_0000_0000_0000_0000;

/// A field of a graph whose couplings fit `i32` stays within
/// [`FIELD_LIMIT`].
proof fn lemma_field_bound(row: Seq<Bond>, spins: Seq<i8>)
    requires
        forall|i: int|
            0 <= i < row.len() ==> i32::MIN <= (#[trigger] row[i]).coup <= i32::MAX,
    ensures
        -0x8000_0000 * row.len() <= row_field(row, spins) <= 0x8000_0000 * row.len(),
    decreases row.len(),
{
    if row.len() > 0 {
        assert forall|i: int| 0 <= i < row.drop_last().len() implies i32::MIN <= (
        #[trigger] row.drop_last()[i]).coup <= i32::MAX by {
            assert(row.drop_last()[i] == row[i]);
        }
        lemma_field_bound(row.drop_last(), spins);
        assert(row.last() == row[row.len() - 1]);
    }
}

/// Local field `h_v + sum J_vw s_w`, recomputed from the spins.
pub fn effective_field(var: usize, spins: &Vec<i8>, graph: &CpuGraph) -> (f: i128)
    requires
        graph.wf(),
        var < graph@.h.len(),
        spins@.len() == graph@.h.len(),
    ensures
        f == graph@.field(spins@, var as int),
        -FIELD_LIMIT <= f <= FIELD_LIMIT,
{
    let (nodes, coups) = graph.neighbors(var);
    let ghost row = graph@.rows[var as int];
    let mut f: i128 = graph.h[var] as i128;
    let mut i: usize = 0;
    assert(row.take(0) =~= Seq::<Bond>::empty());
    while i < nodes.len()
        invariant
            graph.wf(),
            var < graph@.h.len(),
            spins@.len() == graph@.h.len(),
            row == graph@.rows[var as int],
            nodes@.len() == row.len(),
            coups@.len() == row.len(),
            row.len() <= u32::MAX,
            i <= nodes@.len(),
            forall|k: int|
                0 <= k < nodes@.len() ==> (#[trigger] row[k]) == (Bond {
                    node: nodes@[k] as int,
                    coup: coups@[k] as int,
                }),
            f == graph@.h[var as int] + row_field(row.take(i as int), spins@),
            i32::MIN <= graph@.h[var as int] <= i32::MAX,
        decreases nodes@.len() - i,
    {
        proof {
            assert(row.take(i as int + 1).drop_last() =~= row.take(i as int));
            assert(row.take(i as int + 1).last() == row[i as int]);
            assert forall|k: int| 0 <= k < row.take(i as int).len() implies i32::MIN <= (
            #[trigger] row.take(i as int)[k]).coup <= i32::MAX by {
                assert(row.take(i as int)[k] == row[k]);
            }
            lemma_field_bound(row.take(i as int), spins@);
            assert(0 <= graph@.rows[var as int][i as int].node < graph@.rows.len());
        }
        let c: i128 = coups[i] as i128;
        if spins[nodes[i] as usize] > 0 {
            f = f + c;
        } else {
            f = f - c;
        }
        i = i + 1;
    }
    proof {
        assert(row.take(row.len() as int) =~= row);
        assert forall|k: int| 0 <= k < row.len() implies i32::MIN <= (#[trigger] row[k]).coup
            <= i32::MAX by {}
        lemma_field_bound(row, spins@);
    }
    f
}

/// The cache holds the local field of every node.
pub open spec fn cached(l: Lattice, spins: Seq<i8>, heff: Seq<i128>) -> bool {
    heff.len() == l.h.len() && forall|w: int|
        0 <= w < heff.len() ==> #[trigger] heff[w] == l.field(spins, w)
}

/// Seed the field cache.
pub fn seed_cache(graph: &CpuGraph, spins: &Vec<i8>) -> (heff: Vec<i128>)
    requires
        graph.wf(),
        spins@.len() == graph@.h.len(),
    ensures
        cached(graph@, spins@, heff@),
{
    let n: usize = graph.num_nodes();
    let mut heff: Vec<i128> = Vec::with_capacity(n);
    let mut v: usize = 0;
    while v < n
        invariant
            graph.wf(),
            n == graph@.h.len(),
            spins@.len() == n,
            v <= n,
            heff@.len() == v,
            forall|w: int| 0 <= w < v ==> #[trigger] heff@[w] == graph@.field(spins@, w),
        decreases n - v,
    {
        heff.push(effective_field(v, spins, graph));
        v = v + 1;
    }
    heff
}

/// Propagate a spin change of `ds` at `var` into its neighbors' cached fields.
pub fn apply_field_delta(graph: &CpuGraph, heff: &mut Vec<i128>, var: usize, ds: i8)
    requires
        graph.wf(),
        var < graph@.h.len(),
        old(heff)@.len() == graph@.h.len(),
        -2 <= ds <= 2,
        forall|w: int|
            0 <= w < old(heff)@.len() ==> -FIELD_LIMIT <= #[trigger] old(heff)@[w] <= FIELD_LIMIT,
    ensures
        final(heff)@.len() == old(heff)@.len(),
        forall|w: int|
            0 <= w < final(heff)@.len() ==> #[trigger] final(heff)@[w] == old(heff)@[w]
                + pair_coupling(graph@.rows[var as int], w) * ds,
{
    let (nodes, coups) = graph.neighbors(var);
    let ghost row = graph@.rows[var as int];
    let ghost before = heff@;
    let mut i: usize = 0;
    assert(row.take(0) =~= Seq::<Bond>::empty());
    while i < nodes.len()
        invariant
            graph.wf(),
            var < graph@.h.len(),
            row == graph@.rows[var as int],
            nodes@.len() == row.len(),
            coups@.len() == row.len(),
            row.len() <= u32::MAX,
            i <= nodes@.len(),
            -2 <= ds <= 2,
            before.len() == graph@.h.len(),
            heff@.len() == before.len(),
            forall|k: int|
                0 <= k < nodes@.len() ==> (#[trigger] row[k]) == (Bond {
                    node: nodes@[k] as int,
                    coup: coups@[k] as int,
                }),
            forall|w: int|
                0 <= w < before.len() ==> -FIELD_LIMIT <= #[trigger] before[w] <= FIELD_LIMIT,
            forall|w: int|
                0 <= w < heff@.len() ==> #[trigger] heff@[w] == before[w] + pair_coupling(
                    row.take(i as int),
                    w,
                ) * ds,
        decreases nodes@.len() - i,
    {
        let w: usize = nodes[i] as usize;
        proof {
            assert(row.take(i as int + 1).drop_last() =~= row.take(i as int));
            assert(row.take(i as int + 1).last() == row[i as int]);
            assert forall|k: int| 0 <= k < row.take(i as int).len() implies i32::MIN <= (
            #[trigger] row.take(i as int)[k]).coup <= i32::MAX by {
                assert(row.take(i as int)[k] == row[k]);
            }
            lemma_pair_bound(row.take(i as int), w as int);
            assert(0 <= graph@.rows[var as int][i as int].node < graph@.rows.len());
            let a = pair_coupling(row.take(i as int), w as int);
            let c = coups@[i as int] as int;
            assert(-0x1_0000_0000_0000_0000_0000 <= a * ds <= 0x1_0000_0000_0000_0000_0000)
                by (nonlinear_arith)
                requires
                    -0x8000_0000 * 0x1_0000_0000 <= a <= 0x8000_0000 * 0x1_0000_0000,
                    -2 <= ds <= 2,
            ;
            assert(-0x1_0000_0000_0000 <= c * ds <= 0x1_0000_0000_0000) by (nonlinear_arith)
                requires
                    i32::MIN <= c <= i32::MAX,
                    -2 <= ds <= 2,
            ;
            assert((a + c) * ds == a * ds + c * ds) by (nonlinear_arith);
        }
        let step: i128 = coups[i] as i128 * ds as i128;
        heff[w] = heff[w] + step;
        i = i + 1;
    }
    assert(row.take(row.len() as int) =~= row);
}

proof fn lemma_pair_bound(row: Seq<Bond>, w: int)
    requires
        row.len() <= u32::MAX,
        forall|i: int|
            0 <= i < row.len() ==> i32::MIN <= (#[trigger] row[i]).coup <= i32::MAX,
    ensures
        -0x8000_0000 * row.len() <= pair_coupling(row, w) <= 0x8000_0000 * row.len(),
        -0x8000_0000 * 0x1_0000_0000 <= pair_coupling(row, w) <= 0x8000_0000 * 0x1_0000_0000,
    decreases row.len(),
{
    if row.len() > 0 {
        assert forall|i: int| 0 <= i < row.drop_last().len() implies i32::MIN <= (
        #[trigger] row.drop_last()[i]).coup <= i32::MAX by {
            assert(row.drop_last()[i] == row[i]);
        }
        lemma_pair_bound(row.drop_last(), w);
        assert(row.last() == row[row.len() - 1]);
    }
}

/// Fields of a graph stay within [`FIELD_LIMIT`] at every spin vector.
proof fn lemma_fields_bounded(graph: &CpuGraph, spins: Seq<i8>, v: int)
    requires
        graph.wf(),
        0 <= v < graph@.h.len(),
    ensures
        -FIELD_LIMIT <= graph@.field(spins, v) <= FIELD_LIMIT,
{
    let row = graph@.rows[v];
    assert forall|k: int| 0 <= k < row.len() implies i32::MIN <= (#[trigger] row[k]).coup
        <= i32::MAX by {}
    lemma_field_bound(row, spins);
    assert(graph.nbr_start@[v] <= graph.nbr_start@[v + 1]);
}

/// Flip `var` and bring the cache up to date.
pub fn flip_spin(graph: &CpuGraph, spins: &mut Vec<i8>, heff: &mut Vec<i128>, var: usize)
    requires
        graph.wf(),
        var < graph@.h.len(),
        graph@.fits_spins(old(spins)@),
        cached(graph@, old(spins)@, old(heff)@),
    ensures
        final(spins)@ == flipped(old(spins)@, var as int),
        graph@.fits_spins(final(spins)@),
        cached(graph@, final(spins)@, final(heff)@),
{
    let ghost before = spins@;
    let s: i8 = spins[var];
    assert(s == 1 || s == -1);
    spins[var] = -s;
    let ds: i8 = if s > 0 {
        -2
    } else {
        2
    };
    proof {
        assert forall|w: int| 0 <= w < heff@.len() implies -FIELD_LIMIT <= #[trigger] heff@[w]
            <= FIELD_LIMIT by {
            lemma_fields_bounded(graph, before, w);
        }
        lemma_flipped_valid(before, var as int);
    }
    apply_field_delta(graph, heff, var, ds);
    proof {
        assert(spins@ =~= flipped(before, var as int));
        assert forall|w: int| 0 <= w < heff@.len() implies #[trigger] heff@[w] == graph@.field(
            spins@,
            w,
        ) by {
            flip_moves_neighbor_fields(graph@, before, var as int, w);
            let p = pair_coupling(graph@.rows[var as int], w);
            assert(p * 2 == 2 * p && p * (-2) == -(2 * p)) by (nonlinear_arith);
        }
    }
}

/// Descend from `spins` to a local minimum by single flips, in node order.
///
/// Stops after a full pass without a flip, or when `max_sweeps` passes have
/// run. Only strictly downhill flips are taken. A spin vector of another length
/// than the graph's is left alone.
pub fn polish_from(spins: &mut Vec<i8>, graph: &CpuGraph, max_sweeps: usize)
    requires
        graph.wf(),
        valid_spins(old(spins)@),
    ensures
        old(spins)@.len() == graph@.h.len() ==> final(spins)@ == descent(
            graph@,
            old(spins)@,
            max_sweeps as nat,
        ),
        old(spins)@.len() != graph@.h.len() ==> final(spins)@ == old(spins)@,
        valid_spins(final(spins)@),
        final(spins)@.len() == old(spins)@.len(),
{
    let n: usize = graph.num_nodes();
    if n == 0 || spins.len() != n {
        proof {
            if spins@.len() == n {
                lemma_descent_empty(graph@, spins@, max_sweeps as nat);
            }
        }
        return ;
    }
    let ghost l = graph@;
    let ghost start = spins@;
    let mut heff: Vec<i128> = seed_cache(graph, spins);
    let mut left: usize = max_sweeps;
    while left > 0
        invariant
            graph.wf(),
            l == graph@,
            n == l.h.len(),
            l.fits_spins(spins@),
            cached(l, spins@, heff@),
            descent(l, start, max_sweeps as nat) == descent(l, spins@, left as nat),
        ensures
            l.fits_spins(spins@),
            descent(l, start, max_sweeps as nat) == spins@,
        decreases left,
    {
        let ghost before = spins@;
        let moved = descend_once(graph, spins, &mut heff);
        if !moved {
            break;
        }
        left = left - 1;
    }
}

proof fn lemma_descent_empty(l: Lattice, spins: Seq<i8>, budget: nat)
    requires
        l.h.len() == 0,
        spins.len() == 0,
    ensures
        descent(l, spins, budget) == spins,
{
    assert(descent_pass(l, spins) == spins);
}

/// One descent pass. Returns whether it flipped anything.
fn descend_once(graph: &CpuGraph, spins: &mut Vec<i8>, heff: &mut Vec<i128>) -> (moved: bool)
    requires
        graph.wf(),
        graph@.fits_spins(old(spins)@),
        cached(graph@, old(spins)@, old(heff)@),
    ensures
        graph@.fits_spins(final(spins)@),
        cached(graph@, final(spins)@, final(heff)@),
        final(spins)@ == descent_pass(graph@, old(spins)@),
        moved <==> final(spins)@ != old(spins)@,
{
    let n: usize = graph.num_nodes();
    let ghost l = graph@;
    let ghost before = spins@;
    let ghost order = ascending(n as int);
    let mut moved: bool = false;
    let mut var: usize = 0;
    while var < n
        invariant
            graph.wf(),
            l == graph@,
            n == l.h.len(),
            order == ascending(n as int),
            l.fits_spins(before),
            l.fits_spins(spins@),
            cached(l, spins@, heff@),
            var <= n,
            spins@ == sweep(l, before, order, var as int, downhill()),
            forall|i: int| var <= i < n ==> #[trigger] spins@[i] == before[i],
            moved <==> exists|i: int| 0 <= i < var && #[trigger] spins@[i] != before[i],
        decreases n - var,
    {
        let up: bool = spins[var] > 0;
        let f: i128 = heff[var];
        let ghost prev = spins@;
        assert(f == l.field(spins@, var as int));
        assert(order[var as int] == var);
        if (up && f > 0) || (!up && f < 0) {
            proof {
                lemma_flipped_valid(prev, var as int);
            }
            flip_spin(graph, spins, heff, var);
            proof {
                assert(prev[var as int] == 1 || prev[var as int] == -1);
                assert(spins@[var as int] != before[var as int]);
            }
            moved = true;
        } else {
            proof {
                if moved {
                    let i = choose|i: int| 0 <= i < var && #[trigger] spins@[i] != before[i];
                    assert(spins@[i] != before[i]);
                }
            }
        }
        var = var + 1;
    }
    proof {
        if !moved {
            assert(spins@ =~= before);
        }
    }
    moved
}

/// What one job asks of a sampler.
#[derive(Debug, Clone, Copy, PartialEq, Eq, Structural)]
pub struct SampleParams {
    /// Solutions to return.
    pub num_reads: usize,
    /// Sweeps of one read.
    pub num_sweeps: usize,
    /// Sweeps at each rung of the temperature ladder.
    pub sweeps_per_beta: usize,
    /// Seed of the job.
    pub seed: u64,
}

/// One solution.
#[derive(Debug, Clone, PartialEq, Eq)]
pub struct SamplerResult {
    /// One spin of `+1` or `-1` per node.
    pub spins: Vec<i8>,
    /// Consensus energy of the spins, in thousandths.
    pub energy_milli: i64,
}

/// `x`, or 1 when `x` is 0.
pub open spec fn at_least_one(x: nat) -> nat {
    if x == 0 {
        1
    } else {
        x
    }
}

/// `x`, or 1 when `x` is 0.
pub fn or_one(x: usize) -> (r: usize)
    ensures
        r == at_least_one(x as nat),
{
    if x == 0 {
        1
    } else {
        x
    }
}

impl SampleParams {
    /// Reads that a job runs: at least one.
    pub open spec fn reads(&self) -> nat {
        at_least_one(self.num_reads as nat)
    }

    /// Sweeps at each rung: at least one.
    pub open spec fn per_rung(&self) -> nat {
        at_least_one(self.sweeps_per_beta as nat)
    }

    /// Rungs of the temperature ladder: as many as the sweep budget fills, and
    /// at least one.
    pub open spec fn rungs(&self) -> nat {
        at_least_one((self.num_sweeps as nat) / self.per_rung())
    }

    /// Rungs of the temperature ladder.
    pub fn num_betas(&self) -> (r: usize)
        ensures
            r == self.rungs(),
            r * self.per_rung() <= usize::MAX,
    {
        let per: usize = or_one(self.sweeps_per_beta);
        let whole: usize = self.num_sweeps / per;
        proof {
            assert(whole * per <= self.num_sweeps) by (nonlinear_arith)
                requires
                    whole == self.num_sweeps as int / per as int,
                    per > 0,
            ;
        }
        let rungs: usize = or_one(whole);
        proof {
            if whole == 0 {
                assert(rungs * self.per_rung() == self.per_rung()) by (nonlinear_arith)
                    requires
                        rungs == 1,
                ;
            }
        }
        rungs
    }
}

/// `r` is a scored solution of `g`: valid spins and their consensus energy.
pub open spec fn scored(g: IsingGraph, r: SamplerResult) -> bool {
    &&& r.spins@.len() == g.h@.len()
    &&& valid_spins(r.spins@)
    &&& r.energy_milli == clamp_i64(graph_energy(g, r.spins@))
}

/// Score a spin vector with the consensus rule.
pub fn score_spins(spins: Vec<i8>, graph: &IsingGraph) -> (r: SamplerResult)
    ensures
        r.spins@ == spins@,
        r.energy_milli == clamp_i64(graph_energy(*graph, spins@)),
{
    let energy_milli = energy_from_milli(
        spins.as_slice(),
        graph.h.as_slice(),
        graph.j.as_slice(),
        graph.edges.as_slice(),
    );
    SamplerResult { spins, energy_milli }
}

/// `after` follows from `before` by the Metropolis sweep of rung `b` on these
/// words, one to a node.
pub open spec fn sweep_on<R: Scalar, E: Fn(R) -> R, B: Fn(u64, R) -> bool>(
    odds: Odds<R, E, B>,
    l: Lattice,
    b: int,
    words: Seq<u64>,
    before: Seq<i8>,
    after: Seq<i8>,
) -> bool {
    decided_sweep(odds.answers(b), l, words, before, after)
}

/// `after` follows from `before` by one Metropolis sweep of rung `b`.
pub open spec fn metropolis_sweep<R: Scalar, E: Fn(R) -> R, B: Fn(u64, R) -> bool>(
    odds: Odds<R, E, B>,
    l: Lattice,
    b: int,
    before: Seq<i8>,
    after: Seq<i8>,
) -> bool {
    exists|words: Seq<u64>| #[trigger] sweep_on(odds, l, b, words, before, after)
}

/// One Metropolis sweep as a step of a run.
pub open spec fn metropolis_step<R: Scalar, E: Fn(R) -> R, B: Fn(u64, R) -> bool>(
    odds: Odds<R, E, B>,
    l: Lattice,
) -> spec_fn(int, Seq<i8>, Seq<i8>) -> bool {
    |b: int, before: Seq<i8>, after: Seq<i8>| metropolis_sweep(odds, l, b, before, after)
}

/// How strongly the field of node `v` opposes its flip when a sweep with the
/// answers `yes` gets to it.
pub open spec fn opposed(l: Lattice, before: Seq<i8>, yes: Seq<bool>, v: int) -> int {
    -l.gain(sweep(l, before, ascending(l.h.len() as int), v, metropolis_rule(yes)), v)
}

/// The first `k` nodes of a sweep take their words from `log`, one after another:
/// `at[v]` counts what was read before node `v`. A node whose flip nothing
/// opposes reads nothing.
pub open spec fn words_read(
    l: Lattice,
    before: Seq<i8>,
    yes: Seq<bool>,
    words: Seq<u64>,
    at: Seq<nat>,
    log: Seq<Draw>,
    k: int,
) -> bool {
    &&& at.len() == k + 1
    &&& forall|v: int|
        0 <= v < k ==> if opposed(l, before, yes, v) > 0 {
            &&& #[trigger] at[v] < log.len()
            &&& log[at[v] as int] == Draw::Word(words[v])
            &&& at[v + 1] == at[v] + 1
        } else {
            at[v + 1] == at[v]
        }
}

/// What each rung answers.
pub open spec fn rung_answers<R: Scalar, E: Fn(R) -> R, B: Fn(u64, R) -> bool>(odds: Odds<R, E, B>) -> spec_fn(
    int,
) -> Answers {
    |b: int| odds.answers(b)
}

/// `after` follows from `before` by the Metropolis sweep with these answers on the
/// words of `log` from `from` up to `to`.
pub open spec fn sweep_reads(
    ans: Answers,
    l: Lattice,
    log: Seq<Draw>,
    from: nat,
    to: nat,
    before: Seq<i8>,
    after: Seq<i8>,
) -> bool {
    exists|yes: Seq<bool>, words: Seq<u64>, at: Seq<nat>|
        {
            &&& #[trigger] words_read(l, before, yes, words, at, log, l.h.len() as int)
            &&& decided(ans, l, before, yes, words, l.h.len() as int)
            &&& after == full_sweep(l, before, metropolis_rule(yes))
            &&& at[0] == from
            &&& at[l.h.len() as int] == to
        }
}

/// `spins` end the Metropolis read that `log` makes: a coin for every start spin,
/// and then the words that the sweeps of the rungs ask for, `per` sweeps to a
/// rung. Nothing of `log` is left over.
pub open spec fn read_on(
    answers: spec_fn(int) -> Answers,
    rungs: nat,
    l: Lattice,
    per: nat,
    log: Seq<Draw>,
    spins: Seq<i8>,
) -> bool {
    exists|states: Seq<Seq<i8>>, marks: Seq<nat>| #[trigger]
        read_history(answers, l, per as int, log, states, marks) && states.len() == rungs * per
            + 1 && spins == states.last() && marks.last() == log.len()
}

/// `states` are the spins of a Metropolis read on `log`, sweep after sweep, and
/// `marks` counts what was read before each.
pub open spec fn read_history(
    answers: spec_fn(int) -> Answers,
    l: Lattice,
    per: int,
    log: Seq<Draw>,
    states: Seq<Seq<i8>>,
    marks: Seq<nat>,
) -> bool {
    &&& states.len() > 0
    &&& marks.len() == states.len()
    &&& l.fits_spins(states[0])
    &&& tossed(log, 0, states[0])
    &&& marks[0] == l.h.len()
    &&& forall|t: int|
        0 <= t < states.len() - 1 ==> sweep_reads(
            answers(t / per),
            l,
            log,
            marks[t],
            marks[t + 1],
            #[trigger] states[t],
            states[t + 1],
        )
}

/// A longer record serves a sweep as the shorter one did.
pub proof fn lemma_sweep_reads_on(
    ans: Answers,
    l: Lattice,
    log: Seq<Draw>,
    more: Seq<Draw>,
    from: nat,
    to: nat,
    before: Seq<i8>,
    after: Seq<i8>,
)
    requires
        sweep_reads(ans, l, log, from, to, before, after),
        log.len() <= more.len(),
        more.take(log.len() as int) == log,
    ensures
        sweep_reads(ans, l, more, from, to, before, after),
{
    let (yes, words, at) = choose|yes: Seq<bool>, words: Seq<u64>, at: Seq<nat>|
        {
            &&& #[trigger] words_read(l, before, yes, words, at, log, l.h.len() as int)
            &&& decided(ans, l, before, yes, words, l.h.len() as int)
            &&& after == full_sweep(l, before, metropolis_rule(yes))
            &&& at[0] == from
            &&& at[l.h.len() as int] == to
        };
    assert forall|k: int| 0 <= k < log.len() implies more[k] == #[trigger] log[k] by {
        assert(more.take(log.len() as int)[k] == more[k]);
    }
    assert(words_read(l, before, yes, words, at, more, l.h.len() as int));
}

/// A read grows by one sweep.
pub proof fn lemma_read_push(
    answers: spec_fn(int) -> Answers,
    l: Lattice,
    per: int,
    log: Seq<Draw>,
    more: Seq<Draw>,
    states: Seq<Seq<i8>>,
    marks: Seq<nat>,
    b: int,
    k: int,
    after: Seq<i8>,
    to: nat,
)
    requires
        read_history(answers, l, per, log, states, marks),
        log.len() <= more.len(),
        more.take(log.len() as int) == log,
        0 <= b,
        0 <= k < per,
        states.len() == b * per + k + 1,
        sweep_reads(answers(b), l, more, marks.last(), to, states.last(), after),
    ensures
        read_history(answers, l, per, more, states.push(after), marks.push(to)),
{
    let last = states.len() - 1;
    assert(last / per == b) by (nonlinear_arith)
        requires
            last == b * per + k,
            0 <= k < per,
            0 <= b,
    ;
    let (longer, reached) = (states.push(after), marks.push(to));
    assert forall|k: int| 0 <= k < log.len() implies more[k] == #[trigger] log[k] by {
        assert(more.take(log.len() as int)[k] == more[k]);
    }
    assert forall|v: int| 0 <= v < longer[0].len() implies more[0 + v] == Draw::Coin(
        (#[trigger] longer[0][v]) == 1,
    ) by {
        assert(states[0][v] == longer[0][v]);
        assert(log[0 + v] == Draw::Coin(states[0][v] == 1));
    }
    assert forall|t: int| 0 <= t < longer.len() - 1 implies sweep_reads(
        answers(t / per),
        l,
        more,
        reached[t],
        reached[t + 1],
        #[trigger] longer[t],
        longer[t + 1],
    ) by {
        if t < last {
            assert(longer[t] == states[t] && longer[t + 1] == states[t + 1]);
            assert(reached[t] == marks[t] && reached[t + 1] == marks[t + 1]);
            lemma_sweep_reads_on(
                answers(t / per),
                l,
                log,
                more,
                marks[t],
                marks[t + 1],
                states[t],
                states[t + 1],
            );
        } else {
            assert(longer[t] == states.last());
        }
    }
}

/// `spins` end a Metropolis run along the ladder, `per` sweeps to a rung.
pub open spec fn metropolis_run<R: Scalar, E: Fn(R) -> R, B: Fn(u64, R) -> bool>(
    odds: Odds<R, E, B>,
    l: Lattice,
    per: nat,
    spins: Seq<i8>,
) -> bool {
    exists|states: Seq<Seq<i8>>|
        {
            &&& #[trigger] history(l, states, per as int, metropolis_step(odds, l))
            &&& states.len() == odds.ladder@.len() * per + 1
            &&& spins == states.last()
        }
}

/// Visit one node: flip it when nothing opposes the flip or when `take` is set.
pub fn visit_spin(
    graph: &CpuGraph,
    spins: &mut Vec<i8>,
    heff: &mut Vec<i128>,
    var: usize,
    take: bool,
)
    requires
        graph.wf(),
        var < graph@.h.len(),
        graph@.fits_spins(old(spins)@),
        cached(graph@, old(spins)@, old(heff)@),
    ensures
        final(spins)@ == visit(
            graph@,
            old(spins)@,
            var as int,
            |v: int, gain: int| gain >= 0 || take,
        ),
        graph@.fits_spins(final(spins)@),
        cached(graph@, final(spins)@, final(heff)@),
{
    if take || opposing_field(graph, spins, heff, var) <= 0 {
        flip_spin(graph, spins, heff, var);
    }
}

/// How strongly the field of `var` opposes a flip.
fn opposing_field(graph: &CpuGraph, spins: &Vec<i8>, heff: &Vec<i128>, var: usize) -> (f: i128)
    requires
        graph.wf(),
        var < graph@.h.len(),
        graph@.fits_spins(spins@),
        cached(graph@, spins@, heff@),
    ensures
        f == -graph@.gain(spins@, var as int),
{
    proof {
        lemma_fields_bounded(graph, spins@, var as int);
        assert(heff@[var as int] == graph@.field(spins@, var as int));
    }
    if spins[var] > 0 {
        -heff[var]
    } else {
        heff[var]
    }
}

/// A sweep is determined by the spins before it and its words.
pub proof fn sweeps_on_the_same_words_agree<R: Scalar, E: Fn(R) -> R, B: Fn(u64, R) -> bool>(
    odds: Odds<R, E, B>,
    l: Lattice,
    b: int,
    words: Seq<u64>,
    before: Seq<i8>,
    one: Seq<i8>,
    two: Seq<i8>,
)
    requires
        odds.steady(),
        l.fits_spins(before),
        sweep_on(odds, l, b, words, before, one),
        sweep_on(odds, l, b, words, before, two),
    ensures
        one == two,
        l.fits_spins(one),
{
    odds.lemma_answers_once(b);
    lemma_decided_sweeps_agree(odds.answers(b), l, words, before, one, two);
}

/// A Metropolis run is determined by its start and its words: two runs from the
/// same spins whose sweeps get the same words pass through the same spins.
pub proof fn runs_on_the_same_words_agree<R: Scalar, E: Fn(R) -> R, B: Fn(u64, R) -> bool>(
    odds: Odds<R, E, B>,
    l: Lattice,
    per: int,
    words: Seq<Seq<u64>>,
    one: Seq<Seq<i8>>,
    two: Seq<Seq<i8>>,
    t: int,
)
    requires
        odds.steady(),
        l.fits_spins(one[0]),
        one[0] == two[0],
        0 <= t < one.len(),
        t < two.len(),
        forall|k: int|
            0 <= k < t ==> sweep_on(odds, l, k / per, words[k], #[trigger] one[k], one[k + 1]),
        forall|k: int|
            0 <= k < t ==> sweep_on(odds, l, k / per, words[k], #[trigger] two[k], two[k + 1]),
    ensures
        one[t] == two[t],
        l.fits_spins(one[t]),
    decreases t,
{
    if t > 0 {
        runs_on_the_same_words_agree(odds, l, per, words, one, two, t - 1);
        let k = t - 1;
        assert(sweep_on(odds, l, k / per, words[k], one[k], one[k + 1]));
        assert(sweep_on(odds, l, k / per, words[k], two[k], two[k + 1]));
        sweeps_on_the_same_words_agree(odds, l, k / per, words[k], one[k], one[t], two[t]);
    }
}

/// One Metropolis sweep over all nodes in ascending order.
fn sweep_metropolis<R: Scalar, E: Fn(R) -> R, B: Fn(u64, R) -> bool>(
    graph: &CpuGraph,
    b: usize,
    odds: &Odds<R, E, B>,
    spins: &mut Vec<i8>,
    heff: &mut Vec<i128>,
    src: &mut Source,
)
    requires
        graph.wf(),
        graph@.fits_spins(old(spins)@),
        cached(graph@, old(spins)@, old(heff)@),
        odds.total(),
        b < odds.ladder@.len(),
        old(src).wf(),
    ensures
        graph@.fits_spins(final(spins)@),
        cached(graph@, final(spins)@, final(heff)@),
        metropolis_sweep(*odds, graph@, b as int, old(spins)@, final(spins)@),
        final(src).wf(),
        final(src).start() == old(src).start(),
        old(src).log().len() <= final(src).log().len(),
        final(src).log().take(old(src).log().len() as int) == old(src).log(),
        sweep_reads(
            odds.answers(b as int),
            graph@,
            final(src).log(),
            old(src).log().len(),
            final(src).log().len(),
            old(spins)@,
            final(spins)@,
        ),
{
    let ghost base = src.log();
    let ghost mut at: Seq<nat> = seq![base.len()];
    assert(src.log().take(base.len() as int) =~= base);
    let n: usize = graph.num_nodes();
    let ghost l = graph@;
    let ghost before = spins@;
    let ghost order = ascending(n as int);
    let ghost ans = odds.answers(b as int);
    let ghost mut yes: Seq<bool> = Seq::empty();
    let ghost mut words: Seq<u64> = Seq::empty();
    let mut var: usize = 0;
    while var < n
        invariant
            graph.wf(),
            l == graph@,
            n == l.h.len(),
            order == ascending(n as int),
            ans == odds.answers(b as int),
            l.fits_spins(before),
            l.fits_spins(spins@),
            cached(l, spins@, heff@),
            odds.total(),
            b < odds.ladder@.len(),
            var <= n,
            yes.len() == var,
            words.len() == var,
            decided(ans, l, before, yes, words, var as int),
            spins@ == sweep(l, before, order, var as int, metropolis_rule(yes)),
            src.wf(),
            src.start() == old(src).start(),
            base.len() <= src.log().len(),
            src.log().take(base.len() as int) == base,
            words_read(l, before, yes, words, at, src.log(), var as int),
            at[0] == base.len(),
            at[var as int] == src.log().len(),
        decreases n - var,
    {
        let ghost old_yes = yes;
        let ghost old_words = words;
        let ghost here = spins@;
        let ghost old_at = at;
        let ghost held = src.log();
        let opposing: i128 = opposing_field(graph, spins, heff, var);
        let mut take: bool = false;
        if opposing > 0 {
            let word: u64 = src.word();
            take = odds.accept(b, opposing, word);
            proof {
                words = words.push(word);
                at = at.push(at[var as int] + 1);
                assert(src.log().take(base.len() as int) =~= held.take(base.len() as int));
            }
        } else {
            proof {
                words = words.push(0);
                at = at.push(at[var as int]);
            }
        }
        visit_spin(graph, spins, heff, var, take);
        proof {
            yes = yes.push(take);
            lemma_decided_prefix(
                ans,
                l,
                before,
                old_yes,
                yes,
                old_words,
                words,
                var as int,
            );
            assert(order[var as int] == var);
            assert(here == sweep(l, before, order, var as int, metropolis_rule(yes)));
            assert(yes[var as int] == take);
            assert forall|v: int| 0 <= v < var + 1 implies if opposed(l, before, yes, v) > 0 {
                &&& #[trigger] at[v] < src.log().len()
                &&& src.log()[at[v] as int] == Draw::Word(words[v])
                &&& at[v + 1] == at[v] + 1
            } else {
                at[v + 1] == at[v]
            } by {
                if v < var {
                    assert(decided(ans, l, before, old_yes, old_words, v));
                    lemma_decided_prefix(ans, l, before, old_yes, yes, old_words, words, v);
                    assert(opposed(l, before, yes, v) == opposed(l, before, old_yes, v));
                    assert(at[v] == old_at[v] && at[v + 1] == old_at[v + 1]);
                    assert(words[v] == old_words[v]);
                    if opposed(l, before, yes, v) > 0 {
                        assert(held[old_at[v] as int] == Draw::Word(old_words[v]));
                    }
                } else {
                    assert(opposed(l, before, yes, v) == opposing);
                }
            }
        }
        var = var + 1;
    }
    assert(sweep_on(*odds, l, b as int, words, before, spins@));
    assert(words_read(l, before, yes, words, at, src.log(), n as int));
}

/// One Metropolis read on the draws of a source.
fn anneal_read<R: Scalar, E: Fn(R) -> R, B: Fn(u64, R) -> bool>(
    graph: &CpuGraph,
    sweeps_per_beta: usize,
    odds: &Odds<R, E, B>,
    src: &mut Source,
    cancel: Option<(&CancelToken, Option<u64>)>,
) -> (r: Result<Vec<i8>, SampleCancelled>)
    requires
        graph.wf(),
        odds.total(),
        old(src).wf(),
        old(src).log().len() == 0,
    ensures
        r is Err ==> may_cancel(cancel),
        final(src).wf(),
        final(src).start() == old(src).start(),
        r matches Ok(spins) ==> graph@.fits_spins(spins@) && metropolis_run(
            *odds,
            graph@,
            sweeps_per_beta as nat,
            spins@,
        ) && read_on(
            rung_answers(*odds),
            odds.ladder@.len(),
            graph@,
            sweeps_per_beta as nat,
            final(src).log(),
            spins@,
        ),
{
    let n: usize = graph.num_nodes();
    let rungs: usize = odds.ladder.len();
    let ghost l = graph@;
    let ghost step = metropolis_step(*odds, l);
    let ghost per = sweeps_per_beta as int;
    let mut spins = toss_spins(n, src);
    let mut heff = seed_cache(graph, &spins);
    let ghost mut states: Seq<Seq<i8>> = seq![spins@];
    let ghost mut marks: Seq<nat> = seq![n as nat];
    let mut b: usize = 0;
    while b < rungs
        invariant
            graph.wf(),
            l == graph@,
            n == l.h.len(),
            rungs == odds.ladder@.len(),
            per == sweeps_per_beta,
            step == metropolis_step(*odds, l),
            odds.total(),
            l.fits_spins(spins@),
            cached(l, spins@, heff@),
            b <= rungs,
            states.len() == b * per + 1,
            states.last() == spins@,
            history(l, states, per, step),
            src.wf(),
            src.start() == old(src).start(),
            marks.last() == src.log().len(),
            read_history(rung_answers(*odds), l, per, src.log(), states, marks),
        decreases rungs - b,
    {
        let mut k: usize = 0;
        while k < sweeps_per_beta
            invariant
                graph.wf(),
                l == graph@,
                n == l.h.len(),
                rungs == odds.ladder@.len(),
                per == sweeps_per_beta,
                step == metropolis_step(*odds, l),
                odds.total(),
                l.fits_spins(spins@),
                cached(l, spins@, heff@),
                b < rungs,
                k <= sweeps_per_beta,
                states.len() == b * per + k + 1,
                states.last() == spins@,
                history(l, states, per, step),
                src.wf(),
                src.start() == old(src).start(),
                marks.last() == src.log().len(),
                read_history(rung_answers(*odds), l, per, src.log(), states, marks),
            decreases sweeps_per_beta - k,
        {
            if poll(cancel) {
                return Err(SampleCancelled);
            }
            let ghost held = src.log();
            sweep_metropolis(graph, b, odds, &mut spins, &mut heff, src);
            proof {
                lemma_read_push(
                    rung_answers(*odds),
                    l,
                    per,
                    held,
                    src.log(),
                    states,
                    marks,
                    b as int,
                    k as int,
                    spins@,
                    src.log().len(),
                );
                marks = marks.push(src.log().len());
                assert(step(b as int, states.last(), spins@));
                lemma_history_push(l, states, per, step, b as int, k as int, spins@);
                states = states.push(spins@);
            }
            k = k + 1;
        }
        proof {
            assert((b + 1) * per == b * per + per) by (nonlinear_arith);
        }
        b = b + 1;
    }
    Ok(spins)
}

/// One Metropolis read from random spins.
///
/// A word is drawn only for a flip that would raise the energy.
pub fn anneal_one_read<R: Scalar, E: Fn(R) -> R, B: Fn(u64, R) -> bool>(
    graph: &CpuGraph,
    sweeps_per_beta: usize,
    odds: &Odds<R, E, B>,
    rng: &mut SmallRng,
    cancel: Option<(&CancelToken, Option<u64>)>,
) -> (r: Result<Vec<i8>, SampleCancelled>)
    requires
        graph.wf(),
        odds.total(),
    ensures
        r is Err ==> may_cancel(cancel),
        r matches Ok(spins) ==> graph@.fits_spins(spins@) && metropolis_run(
            *odds,
            graph@,
            sweeps_per_beta as nat,
            spins@,
        ),
        r matches Ok(spins) ==> exists|log: Seq<Draw>| #[trigger]
            streams(*old(rng), log, *final(rng)) && read_on(
                rung_answers(*odds),
                odds.ladder@.len(),
                graph@,
                sweeps_per_beta as nat,
                log,
                spins@,
            ),
{
    let mut src = Source::taken(rng);
    let r = anneal_read(graph, sweeps_per_beta, odds, &mut src, cancel);
    src.give_back(rng);
    r
}

/// `spins` are read `i` of a Metropolis job: the read that the generator with the
/// seed of that read makes.
pub open spec fn metropolis_read<R: Scalar, E: Fn(R) -> R, B: Fn(u64, R) -> bool>(
    odds: Odds<R, E, B>,
    l: Lattice,
    params: SampleParams,
    i: int,
    spins: Seq<i8>,
) -> bool {
    exists|log: Seq<Draw>| #[trigger]
        drawn_from(read_seed_of(params.seed, i as u64), log) && read_on(
            rung_answers(odds),
            odds.ladder@.len(),
            l,
            params.per_rung(),
            log,
            spins,
        )
}

/// The results are scored solutions, each the end of a Metropolis run on the
/// generator of its own read.
pub open spec fn metropolis_results<R: Scalar, E: Fn(R) -> R, B: Fn(u64, R) -> bool>(
    odds: Odds<R, E, B>,
    g: IsingGraph,
    params: SampleParams,
    results: Seq<SamplerResult>,
) -> bool {
    forall|i: int|
        0 <= i < results.len() ==> scored(g, #[trigger] results[i]) && metropolis_run(
            odds,
            lattice(g),
            params.per_rung(),
            results[i].spins@,
        ) && metropolis_read(odds, lattice(g), params, i, results[i].spins@)
}

/// Run `num_reads` independent Metropolis anneals one after another, polling
/// the cancellation point before every sweep.
pub fn sample_sa_cancellable<R: Scalar, E: Fn(R) -> R, B: Fn(u64, R) -> bool>(
    graph: &IsingGraph,
    params: &SampleParams,
    odds: &Odds<R, E, B>,
    cancel: Option<(&CancelToken, Option<u64>)>,
) -> (r: Result<Vec<SamplerResult>, SampleCancelled>)
    requires
        graph.fits(),
        odds.total(),
        odds.ladder@.len() == params.rungs(),
    ensures
        r is Err ==> may_cancel(cancel),
        r matches Ok(results) ==> results@.len() == params.reads() && metropolis_results(
            *odds,
            *graph,
            *params,
            results@,
        ),
{
    let num_reads: usize = or_one(params.num_reads);
    let cpu = CpuGraph::from_base(graph);
    let sweeps_per: usize = or_one(params.sweeps_per_beta);
    let mut results: Vec<SamplerResult> = Vec::new();
    let mut read: usize = 0;
    while read < num_reads
        invariant
            cpu.wf(),
            cpu@ == lattice(*graph),
            odds.total(),
            sweeps_per == params.per_rung(),
            read <= num_reads,
            results@.len() == read,
            metropolis_results(*odds, *graph, *params, results@),
        decreases num_reads - read,
    {
        let mut src = Source::of_read(params.seed, read);
        let ghost before = results@;
        match anneal_read(&cpu, sweeps_per, odds, &mut src, cancel) {
            Ok(spins) => {
                proof {
                    src.lemma_record(read_seed_of(params.seed, read as u64));
                    assert(metropolis_read(
                        *odds,
                        lattice(*graph),
                        *params,
                        read as int,
                        spins@,
                    ));
                }
                results.push(score_spins(spins, graph));
            },
            Err(e) => {
                return Err(e);
            },
        }
        proof {
            assert forall|i: int| 0 <= i < results@.len() implies scored(
                *graph,
                #[trigger] results@[i],
            ) && metropolis_run(
                *odds,
                lattice(*graph),
                params.per_rung(),
                results@[i].spins@,
            ) && metropolis_read(
                *odds,
                lattice(*graph),
                *params,
                i,
                results@[i].spins@,
            ) by {
                if i < read {
                    assert(results@[i] == before[i]);
                }
            }
        }
        read = read + 1;
    }
    Ok(results)
}

/// Which annealing algorithm a job runs.
#[derive(Debug, Clone, Copy, PartialEq, Eq, Structural)]
pub enum Algorithm {
    /// Metropolis annealing.
    Sa,
    /// Chromatic Gibbs sampling along the same ladder.
    Gibbs,
}

/// The results of a job under `algorithm`.
pub open spec fn ising_results<R: Scalar, E: Fn(R) -> R, B: Fn(u64, R) -> bool>(
    odds: Odds<R, E, B>,
    g: IsingGraph,
    params: SampleParams,
    algorithm: Algorithm,
    results: Seq<SamplerResult>,
) -> bool {
    match algorithm {
        Algorithm::Sa => metropolis_results(odds, g, params, results),
        Algorithm::Gibbs => exists|classes: Seq<Seq<u32>>| #[trigger]
            colored(lattice(g), classes) && gibbs_results(odds, g, classes, params, results),
    }
}

/// Run `num_reads` independent reads one after another.
///
/// A Metropolis job polls the cancellation point before every sweep.
pub fn sample_ising_cancellable<R: Scalar, E: Fn(R) -> R, B: Fn(u64, R) -> bool>(
    graph: &IsingGraph,
    params: &SampleParams,
    algorithm: Algorithm,
    odds: &Odds<R, E, B>,
    cancel: Option<(&CancelToken, Option<u64>)>,
) -> (r: Result<Vec<SamplerResult>, SampleCancelled>)
    requires
        graph.fits(),
        odds.total(),
        odds.ladder@.len() == params.rungs(),
    ensures
        r is Err ==> may_cancel(cancel) && algorithm == Algorithm::Sa,
        r matches Ok(results) ==> results@.len() == params.reads() && ising_results(
            *odds,
            *graph,
            *params,
            algorithm,
            results@,
        ),
{
    match algorithm {
        Algorithm::Sa => sample_sa_cancellable(graph, params, odds, cancel),
        Algorithm::Gibbs => Ok(sample_gibbs_parallel(graph, params, DEFAULT_GIBBS_WORKERS, odds)),
    }
}

/// Run `num_reads` independent reads one after another.
pub fn sample_ising<R: Scalar, E: Fn(R) -> R, B: Fn(u64, R) -> bool>(
    graph: &IsingGraph,
    params: &SampleParams,
    algorithm: Algorithm,
    odds: &Odds<R, E, B>,
) -> (results: Vec<SamplerResult>)
    requires
        graph.fits(),
        odds.total(),
        odds.ladder@.len() == params.rungs(),
    ensures
        results@.len() == params.reads(),
        ising_results(*odds, *graph, *params, algorithm, results@),
{
    match sample_ising_cancellable(graph, params, algorithm, odds, None) {
        Ok(results) => results,
        Err(_) => Vec::new(),
    }
}

/// Every solution that a job returns is scored: its spins are valid and its
/// energy is the consensus energy of those spins.
pub proof fn every_result_is_scored<R: Scalar, E: Fn(R) -> R, B: Fn(u64, R) -> bool>(
    odds: Odds<R, E, B>,
    g: IsingGraph,
    params: SampleParams,
    algorithm: Algorithm,
    results: Seq<SamplerResult>,
    i: int,
)
    requires
        ising_results(odds, g, params, algorithm, results),
        0 <= i < results.len(),
    ensures
        scored(g, results[i]),
{
    match algorithm {
        Algorithm::Sa => {},
        Algorithm::Gibbs => {
            let classes = choose|classes: Seq<Seq<u32>>| #[trigger]
                colored(lattice(g), classes) && gibbs_results(odds, g, classes, params, results);
            assert(gibbs_results(odds, g, classes, params, results));
        },
    }
}

/// The reads of a Metropolis job are independent: read `i` is made of what the
/// generator with the seed of read `i` gives first, to the last draw, and no other
/// read of the job has that seed.
pub proof fn every_read_has_its_own_generator<R: Scalar, E: Fn(R) -> R, B: Fn(u64, R) -> bool>(
    odds: Odds<R, E, B>,
    g: IsingGraph,
    params: SampleParams,
    results: Seq<SamplerResult>,
    i: int,
    j: int,
)
    requires
        results.len() <= u64::MAX,
        ising_results(odds, g, params, Algorithm::Sa, results),
        0 <= i < results.len(),
        0 <= j < results.len(),
        i != j,
    ensures
        exists|log: Seq<Draw>| #[trigger]
            drawn_from(read_seed_of(params.seed, i as u64), log) && read_on(
                rung_answers(odds),
                odds.ladder@.len(),
                lattice(g),
                params.per_rung(),
                log,
                results[i].spins@,
            ),
        read_seed_of(params.seed, i as u64) != read_seed_of(params.seed, j as u64),
{
    assert(metropolis_read(odds, lattice(g), params, i, results[i].spins@));
    reads_of_a_job_have_distinct_seeds(params.seed, i as u64, j as u64);
}

/// A Metropolis read starts at the coins that its generator gives first.
pub proof fn a_read_starts_at_its_coins(
    answers: spec_fn(int) -> Answers,
    rungs: nat,
    l: Lattice,
    log: Seq<Draw>,
    spins: Seq<i8>,
    v: int,
)
    requires
        read_on(answers, rungs, l, 0, log, spins),
        0 <= v < l.h.len(),
    ensures
        log.len() == l.h.len(),
        spins.len() == l.h.len(),
        log[v] == Draw::Coin(true) ==> spins[v] == 1,
        log[v] == Draw::Coin(false) ==> spins[v] == -1,
        log[v] == Draw::Coin(true) || log[v] == Draw::Coin(false),
{
    let (states, marks) = choose|states: Seq<Seq<i8>>, marks: Seq<nat>| #[trigger]
        read_history(answers, l, 0, log, states, marks) && states.len() == rungs * 0nat + 1 && spins == states.last() && marks.last() == log.len();
    assert(rungs * 0nat == 0) by (nonlinear_arith);
    assert(log[0 + v] == Draw::Coin(states[0][v] == 1));
}

/// The first reads of a job answer the same job with fewer reads: a read depends
/// on its own draws alone, and for Gibbs on the seed of the job and its place.
pub proof fn the_first_reads_answer_a_smaller_job<
    R: Scalar,
    E: Fn(R) -> R,
    B: Fn(u64, R) -> bool,
>(
    odds: Odds<R, E, B>,
    g: IsingGraph,
    few: SampleParams,
    many: SampleParams,
    algorithm: Algorithm,
    results: Seq<SamplerResult>,
)
    requires
        few.seed == many.seed,
        few.per_rung() == many.per_rung(),
        few.reads() <= results.len(),
        ising_results(odds, g, many, algorithm, results),
    ensures
        ising_results(odds, g, few, algorithm, results.take(few.reads() as int)),
{
    let first = results.take(few.reads() as int);
    assert forall|i: int| 0 <= i < first.len() implies #[trigger] first[i] == results[i] by {}
    match algorithm {
        Algorithm::Sa => {},
        Algorithm::Gibbs => {
            let classes = choose|classes: Seq<Seq<u32>>| #[trigger]
                colored(lattice(g), classes) && gibbs_results(odds, g, classes, many, results);
            assert(gibbs_results(odds, g, classes, few, first));
        },
    }
}

/// Fewer reads of a Gibbs job are the first of more, as long as the same
/// question gets the same answer twice.
pub proof fn fewer_reads_of_a_gibbs_job_are_a_prefix<
    R: Scalar,
    E: Fn(R) -> R,
    B: Fn(u64, R) -> bool,
>(
    odds: Odds<R, E, B>,
    g: IsingGraph,
    few: SampleParams,
    many: SampleParams,
    one: Seq<SamplerResult>,
    two: Seq<SamplerResult>,
    i: int,
)
    requires
        odds.steady(),
        g.fits(),
        few.seed == many.seed,
        few.per_rung() == many.per_rung(),
        ising_results(odds, g, few, Algorithm::Gibbs, one),
        ising_results(odds, g, many, Algorithm::Gibbs, two),
        0 <= i < one.len(),
        i < two.len(),
    ensures
        one[i].spins@ == two[i].spins@,
        one[i].energy_milli == two[i].energy_milli,
{
    let l = lattice(g);
    let a = choose|classes: Seq<Seq<u32>>| #[trigger]
        colored(l, classes) && gibbs_results(odds, g, classes, few, one);
    let b = choose|classes: Seq<Seq<u32>>| #[trigger]
        colored(l, classes) && gibbs_results(odds, g, classes, many, two);
    lattice_is_wf(g);
    classes_depend_on_bonds_alone(l, l, a, b);
    lemma_colored_is_visitable(l, a);
    fewer_gibbs_reads_are_a_prefix(odds, g, a, few, many, one, two, i);
}

} // verus!
