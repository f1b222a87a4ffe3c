//! Annealing on unit couplings and whole-number fields.
//!
//! When every coupling is `+1`, `-1` or 0 and every field is a whole number, the
//! energy change of a flip takes only a handful of values. The acceptance test
//! of a rung can then be tabulated once, and a field fits a single byte.
use rand::rngs::SmallRng;
use quip_solver_core::CancelToken;
use vstd::prelude::*;

use crate::accept::{level_exponent, uphill_exponent, Odds};
use crate::csr::{
    admits_bonds, admitted, build_rows, entry_row, lemma_offset_grows, offset,
};
use crate::ising::{
    binds, bond_row, bonds, bonds_upto, coupling, far_end, flip_moves_neighbor_fields, flipped,
    lattice, lemma_flipped_valid, pair_count, pair_coupling, row_field, signed, touches, Bond,
    IsingGraph, Lattice,
};
use crate::rng::{
    draw_from, draw_of, may_cancel, poll, streams, Draw, SampleCancelled, Source,
};
use crate::sampler_core::{
    lemma_read_push, opposed, read_history, read_on, sweep_on, sweep_reads, toss_spins, words_read,
};
use crate::scalar::{nil, zero, Scalar};
use crate::sweep::{
    ascending, decided, decided_sweep, full_sweep, history, lemma_decided_alike,
    lemma_decided_prefix, lemma_history_push, lemma_sweep_fits, metropolis_rule, sweep, Answers,
    Rule,
};

verus! {

/// Largest `|h| + degree` this path tabulates. Keeps every field inside an
/// `i8`.
pub const MAX_FIELD: usize = 100;

/// Coupling sign of a packed neighbor entry: set means `J = -1`.
pub const SIGN_BIT: u32 = 0x8000_0000;

/// The node bits of a packed neighbor entry.
pub const NODE_BITS: u32 = 0x7fff_ffff;

/// One whole unit, in thousandths.
pub const UNIT: i32 = 1000;

/// Integer view of a problem with unit couplings and whole-number fields.
///
/// Neighbor id and coupling sign share one word.
pub struct IntGraph {
    h: Vec<i8>,
    /// Row offsets, one more than there are nodes.
    nbr_start: Vec<u32>,
    /// Node id in the low 31 bits, coupling sign in the top bit.
    nbr: Vec<u32>,
    /// `max (|h| + degree)`, the largest field any state can reach.
    max_field: usize,
}

/// The bond that a packed entry stands for.
pub open spec fn unpack(e: u32) -> Bond {
    Bond {
        node: (e & NODE_BITS) as int,
        coup: if e & SIGN_BIT != 0 {
            -1
        } else {
            1
        },
    }
}

/// Whether edge `k` of `g` binds two nodes with a coupling other than 0.
pub open spec fn is_unit_bond(g: IsingGraph, k: int) -> bool {
    binds(g.h@.len() as int, g.edges@[k]) && coupling(g.j@, k) != 0
}

/// The bond of edge `k` in whole units.
pub open spec fn unit_bond(g: IsingGraph, node: int, k: int) -> Bond {
    Bond {
        node,
        coup: if coupling(g.j@, k) < 0 {
            -1
        } else {
            1
        },
    }
}

/// The nonzero bonds at `v` among the first `k` edges, in whole units.
pub open spec fn unit_row(g: IsingGraph, v: int, k: int) -> Seq<Bond>
    decreases k,
{
    if k <= 0 {
        Seq::empty()
    } else if is_unit_bond(g, k - 1) && touches(g.h@.len() as int, g.edges@[k - 1], v) {
        unit_row(g, v, k - 1).push(
            unit_bond(g, far_end(g.edges@[k - 1], v), k - 1),
        )
    } else {
        unit_row(g, v, k - 1)
    }
}

/// The lattice of `g` in whole units, without its zero couplings.
pub open spec fn unit_lattice(g: IsingGraph) -> Lattice {
    Lattice {
        h: Seq::new(g.h@.len(), |v: int| g.h@[v] as int / 1000),
        rows: Seq::new(g.h@.len(), |v: int| unit_row(g, v, g.edges@.len() as int)),
    }
}

/// `|x|`.
pub open spec fn magnitude(x: int) -> int {
    if x < 0 {
        -x
    } else {
        x
    }
}

/// The largest field that node `v` of `l` can reach with unit couplings.
pub open spec fn reach(l: Lattice, v: int) -> int {
    magnitude(l.h[v]) + l.rows[v].len()
}

/// The largest reach among the first `k` nodes.
pub open spec fn max_reach(l: Lattice, k: int) -> int
    decreases k,
{
    if k <= 0 {
        0
    } else if reach(l, k - 1) > max_reach(l, k - 1) {
        reach(l, k - 1)
    } else {
        max_reach(l, k - 1)
    }
}

/// Every field is a whole number within [`MAX_FIELD`].
pub open spec fn whole_fields(h: Seq<i32>) -> bool {
    forall|v: int|
        0 <= v < h.len() ==> (#[trigger] h[v]) as int % 1000 == 0 && -100_000 <= h[v] <= 100_000
}

/// Every coupling that binds two nodes is `+1`, `-1` or 0.
pub open spec fn unit_couplings(g: IsingGraph) -> bool {
    forall|k: int|
        0 <= k < g.edges@.len() && is_unit_bond(g, k) ==> #[trigger] coupling(g.j@, k) == 1000
            || coupling(g.j@, k) == -1000
}

/// `g` has an integer view.
pub open spec fn representable(g: IsingGraph) -> bool {
    &&& 0 < g.h@.len() <= 0x7fff_ffff
    &&& whole_fields(g.h@)
    &&& unit_couplings(g)
    &&& max_reach(unit_lattice(g), g.h@.len() as int) <= MAX_FIELD
}

/// Every bond has coupling `+1` or `-1`.
pub open spec fn unit_bonds(row: Seq<Bond>) -> bool {
    forall|i: int| 0 <= i < row.len() ==> (#[trigger] row[i]).coup == 1 || row[i].coup == -1
}

/// A well-formed lattice with unit couplings.
pub open spec fn unit_wf(l: Lattice) -> bool {
    &&& l.wf()
    &&& forall|v: int| 0 <= v < l.rows.len() ==> unit_bonds(#[trigger] l.rows[v])
}

proof fn lemma_unit_row_nodes(g: IsingGraph, v: int, k: int)
    requires
        0 <= k <= g.edges@.len(),
    ensures
        unit_bonds(unit_row(g, v, k)),
        forall|i: int|
            0 <= i < unit_row(g, v, k).len() ==> 0 <= (#[trigger] unit_row(g, v, k)[i]).node
                < g.h@.len() && unit_row(g, v, k)[i].node != v,
    decreases k,
{
    if k > 0 {
        lemma_unit_row_nodes(g, v, k - 1);
        let before = unit_row(g, v, k - 1);
        assert forall|i: int| 0 <= i < unit_row(g, v, k).len() implies 0 <= (
        #[trigger] unit_row(g, v, k)[i]).node < g.h@.len() && unit_row(g, v, k)[i].node != v && (
        unit_row(g, v, k)[i].coup == 1 || unit_row(g, v, k)[i].coup == -1) by {
            if i < before.len() {
                assert(unit_row(g, v, k)[i] == before[i]);
            }
        }
    }
}

proof fn lemma_unit_pairs(g: IsingGraph, v: int, w: int, k: int)
    requires
        0 <= k <= g.edges@.len(),
    ensures
        pair_coupling(unit_row(g, v, k), w) == pair_coupling(unit_row(g, w, k), v),
        pair_count(unit_row(g, v, k), w) == pair_count(unit_row(g, w, k), v),
    decreases k,
{
    if k > 0 {
        lemma_unit_pairs(g, v, w, k - 1);
        let e = g.edges@[k - 1];
        let n = g.h@.len() as int;
        if is_unit_bond(g, k - 1) && touches(n, e, v) {
            assert(unit_row(g, v, k).drop_last() =~= unit_row(g, v, k - 1));
        }
        if is_unit_bond(g, k - 1) && touches(n, e, w) {
            assert(unit_row(g, w, k).drop_last() =~= unit_row(g, w, k - 1));
        }
    }
}

/// The whole-unit lattice of a problem is well formed.
pub proof fn unit_lattice_is_wf(g: IsingGraph)
    ensures
        unit_wf(unit_lattice(g)),
{
    let l = unit_lattice(g);
    let m = g.edges@.len() as int;
    assert forall|v: int, i: int|
        #![trigger l.rows[v][i]]
        0 <= v < l.rows.len() && 0 <= i < l.rows[v].len() implies 0 <= l.rows[v][i].node
        < l.rows.len() && l.rows[v][i].node != v by {
        lemma_unit_row_nodes(g, v, m);
    }
    assert forall|v: int, w: int|
        #![trigger pair_coupling(l.rows[v], w)]
        0 <= v < l.rows.len() && 0 <= w < l.rows.len() implies pair_coupling(l.rows[v], w)
        == pair_coupling(l.rows[w], v) by {
        lemma_unit_pairs(g, v, w, m);
    }
    assert forall|v: int, w: int|
        #![trigger pair_count(l.rows[v], w)]
        0 <= v < l.rows.len() && 0 <= w < l.rows.len() implies pair_count(l.rows[v], w)
        == pair_count(l.rows[w], v) by {
        lemma_unit_pairs(g, v, w, m);
    }
    assert forall|v: int| 0 <= v < l.rows.len() implies unit_bonds(#[trigger] l.rows[v]) by {
        lemma_unit_row_nodes(g, v, m);
    }
}

proof fn lemma_unit_row_field(g: IsingGraph, spins: Seq<i8>, v: int, k: int)
    requires
        unit_couplings(g),
        0 <= k <= g.edges@.len(),
    ensures
        row_field(bond_row(g, v, k), spins) == 1000 * row_field(unit_row(g, v, k), spins),
    decreases k,
{
    if k > 0 {
        lemma_unit_row_field(g, spins, v, k - 1);
        let e = g.edges@[k - 1];
        let n = g.h@.len() as int;
        if touches(n, e, v) {
            assert(bond_row(g, v, k).drop_last() =~= bond_row(g, v, k - 1));
            if is_unit_bond(g, k - 1) {
                assert(unit_row(g, v, k).drop_last() =~= unit_row(g, v, k - 1));
                assert(coupling(g.j@, k - 1) == 1000 || coupling(g.j@, k - 1) == -1000);
            }
        }
    }
}

/// On a representable problem both views compute the same local fields.
pub proof fn integer_view_keeps_every_field(g: IsingGraph, spins: Seq<i8>, v: int)
    requires
        representable(g),
        0 <= v < g.h@.len(),
    ensures
        lattice(g).field(spins, v) == 1000 * unit_lattice(g).field(spins, v),
{
    lemma_unit_row_field(g, spins, v, g.edges@.len() as int);
    assert(g.h@[v] as int % 1000 == 0);
}

proof fn lemma_unit_row_bound(row: Seq<Bond>, spins: Seq<i8>)
    requires
        unit_bonds(row),
    ensures
        -row.len() <= row_field(row, spins) <= row.len(),
    decreases row.len(),
{
    if row.len() > 0 {
        assert(unit_bonds(row.drop_last())) by {
            assert forall|i: int| 0 <= i < row.drop_last().len() implies (
            #[trigger] row.drop_last()[i]).coup == 1 || row.drop_last()[i].coup == -1 by {
                assert(row.drop_last()[i] == row[i]);
            }
        }
        lemma_unit_row_bound(row.drop_last(), spins);
        assert(row.last() == row[row.len() - 1]);
    }
}

proof fn lemma_max_reach_covers(l: Lattice, v: int, k: int)
    requires
        0 <= v < k,
    ensures
        reach(l, v) <= max_reach(l, k),
    decreases k,
{
    if v < k - 1 {
        lemma_max_reach_covers(l, v, k - 1);
    }
}

/// No state drives a field past the largest reach.
pub proof fn max_reach_bounds_every_field(l: Lattice, spins: Seq<i8>, v: int)
    requires
        unit_wf(l),
        0 <= v < l.h.len(),
    ensures
        magnitude(l.field(spins, v)) <= reach(l, v) <= max_reach(l, l.h.len() as int),
{
    assert(unit_bonds(l.rows[v]));
    lemma_unit_row_bound(l.rows[v], spins);
    lemma_max_reach_covers(l, v, l.h.len() as int);
}

impl View for IntGraph {
    type V = Lattice;

    closed spec fn view(&self) -> Lattice {
        Lattice {
            h: Seq::new(self.h@.len(), |v: int| self.h@[v] as int),
            rows: Seq::new(
                self.h@.len(),
                |v: int|
                    packed_slots(
                        self.nbr@,
                        self.nbr_start@[v] as int,
                        self.nbr_start@[v + 1] as int,
                    ),
            ),
        }
    }
}

/// The bonds that a flat packed row holds.
pub open spec fn packed_slots(nbr: Seq<u32>, from: int, to: int) -> Seq<Bond> {
    Seq::new((to - from) as nat, |i: int| unpack(nbr[from + i]))
}

/// A packed entry gives back its node and its sign.
proof fn lemma_unpack(node: u32, negative: bool)
    requires
        node <= 0x7fff_ffff,
    ensures
        unpack(
            node | (if negative {
                SIGN_BIT
            } else {
                0
            }),
        ) == (Bond {
            node: node as int,
            coup: if negative {
                -1
            } else {
                1
            },
        }),
{
    assert((node | 0x8000_0000u32) & 0x7fff_ffff == node) by (bit_vector)
        requires
            node <= 0x7fff_ffff,
    ;
    assert((node | 0x8000_0000u32) & 0x8000_0000u32 != 0) by (bit_vector);
    assert((node | 0u32) & 0x7fff_ffff == node) by (bit_vector)
        requires
            node <= 0x7fff_ffff,
    ;
    assert((node | 0u32) & 0x8000_0000u32 == 0) by (bit_vector)
        requires
            node <= 0x7fff_ffff,
    ;
}

/// The fields in whole units, or `None` when one is not a whole number within
/// [`MAX_FIELD`].
fn whole_field_list(h: &Vec<i32>) -> (r: Option<Vec<i8>>)
    ensures
        r is Some <==> whole_fields(h@),
        r matches Some(w) ==> w@.len() == h@.len() && forall|v: int|
            0 <= v < h@.len() ==> #[trigger] w@[v] == h@[v] as int / 1000 && -100 <= w@[v] <= 100,
{
    let mut w: Vec<i8> = Vec::with_capacity(h.len());
    let mut v: usize = 0;
    while v < h.len()
        invariant
            v <= h@.len(),
            w@.len() == v,
            forall|i: int|
                0 <= i < v ==> (#[trigger] h@[i]) as int % 1000 == 0 && -100_000 <= h@[i]
                    <= 100_000,
            forall|i: int|
                0 <= i < v ==> #[trigger] w@[i] == h@[i] as int / 1000 && -100 <= w@[i] <= 100,
        decreases h@.len() - v,
    {
        let x: i32 = h[v];
        if x < -100_000 || x > 100_000 {
            return None;
        }
        let shifted: i32 = x + 100_000;
        if shifted % UNIT != 0 {
            assert((h@[v as int] as int) % 1000 != 0);
            return None;
        }
        let units: i32 = shifted / UNIT - 100;
        assert(units == x as int / 1000);
        w.push(units as i8);
        v = v + 1;
    }
    Some(w)
}

/// The mask of the nonzero bonds of `g`, or `None` when one has a coupling
/// other than `+1` or `-1`.
fn unit_mask(g: &IsingGraph) -> (r: Option<Vec<bool>>)
    ensures
        r is Some <==> unit_couplings(*g),
        r matches Some(mask) ==> {
            &&& mask@.len() == g.edges@.len()
            &&& forall|k: int|
                0 <= k < mask@.len() ==> #[trigger] mask@[k] == is_unit_bond(*g, k)
            &&& admits_bonds(g.h@.len() as int, g.edges@, mask@)
            &&& admitted(mask@, g.edges@.len() as int) <= bonds_upto(
                g.h@.len() as int,
                g.edges@,
                g.edges@.len() as int,
            )
        },
{
    let n: usize = g.h.len();
    let m: usize = g.edges.len();
    let mut mask: Vec<bool> = Vec::with_capacity(m);
    let mut k: usize = 0;
    while k < m
        invariant
            n == g.h@.len(),
            m == g.edges@.len(),
            k <= m,
            mask@.len() == k,
            forall|i: int| 0 <= i < k ==> #[trigger] mask@[i] == is_unit_bond(*g, i),
            forall|i: int|
                0 <= i < k && is_unit_bond(*g, i) ==> #[trigger] coupling(g.j@, i) == 1000
                    || coupling(g.j@, i) == -1000,
        decreases m - k,
    {
        let (u, v) = g.edges[k];
        if u >= n || v >= n || u == v {
            mask.push(false);
        } else {
            let c: i32 = if k < g.j.len() {
                g.j[k]
            } else {
                0
            };
            assert(c == coupling(g.j@, k as int));
            if c == 0 {
                mask.push(false);
            } else {
                if c != UNIT && c != -UNIT {
                    assert(is_unit_bond(*g, k as int));
                    return None;
                }
                mask.push(true);
            }
        }
        k = k + 1;
    }
    proof {
        lemma_fewer_admitted(*g, mask@, m as int);
    }
    Some(mask)
}

proof fn lemma_fewer_admitted(g: IsingGraph, mask: Seq<bool>, k: int)
    requires
        mask.len() == g.edges@.len(),
        forall|i: int| 0 <= i < mask.len() ==> #[trigger] mask[i] == is_unit_bond(g, i),
        k <= g.edges@.len(),
    ensures
        admitted(mask, k) <= bonds_upto(g.h@.len() as int, g.edges@, k),
    decreases k,
{
    if k > 0 {
        lemma_fewer_admitted(g, mask, k - 1);
    }
}

/// A unit row is the entry row with the sign of each edge filled in.
proof fn lemma_unit_row_is_entry_row(g: IsingGraph, mask: Seq<bool>, v: int, k: int)
    requires
        mask.len() == g.edges@.len(),
        forall|i: int| 0 <= i < mask.len() ==> #[trigger] mask[i] == is_unit_bond(g, i),
        0 <= k <= g.edges@.len(),
    ensures
        unit_row(g, v, k).len() == entry_row(g.edges@, mask, v, k).len(),
        forall|i: int|
            0 <= i < unit_row(g, v, k).len() ==> (#[trigger] unit_row(g, v, k)[i]) == unit_bond(
                g,
                entry_row(g.edges@, mask, v, k)[i].0,
                entry_row(g.edges@, mask, v, k)[i].1,
            ),
    decreases k,
{
    if k > 0 {
        lemma_unit_row_is_entry_row(g, mask, v, k - 1);
        let b0 = unit_row(g, v, k - 1);
        let e0 = entry_row(g.edges@, mask, v, k - 1);
        assert forall|i: int| 0 <= i < unit_row(g, v, k).len() implies (#[trigger] unit_row(
            g,
            v,
            k,
        )[i]) == unit_bond(
            g,
            entry_row(g.edges@, mask, v, k)[i].0,
            entry_row(g.edges@, mask, v, k)[i].1,
        ) by {
            if i < b0.len() {
                assert(unit_row(g, v, k)[i] == b0[i]);
                assert(entry_row(g.edges@, mask, v, k)[i] == e0[i]);
            }
        }
    }
}

impl IntGraph {
    /// Offsets stay in order and inside the rows, the rows are those of a
    /// well-formed unit lattice, and no field can pass `max_field`.
    pub closed spec fn wf(&self) -> bool {
        &&& 0 < self.h@.len() <= 0x7fff_ffff
        &&& self.nbr_start@.len() == self.h@.len() + 1
        &&& forall|v: int|
            0 <= v < self.h@.len() ==> (#[trigger] self.nbr_start@[v]) <= self.nbr_start@[v + 1]
                <= self.nbr@.len()
        &&& unit_wf(self@)
        &&& self.max_field == max_reach(self@, self@.h.len() as int)
        &&& self.max_field <= MAX_FIELD
    }

    /// The largest field any state can reach.
    pub closed spec fn top(&self) -> int {
        self.max_field as int
    }

    /// Build the integer view, or `None` when `g` has none.
    ///
    /// An edge that binds no pair of spins is skipped before its coupling is
    /// looked at, so it never stands in the way.
    pub fn from_base(g: &IsingGraph) -> (r: Option<Self>)
        requires
            g.fits(),
        ensures
            r is Some <==> representable(*g),
            r matches Some(view) ==> {
                &&& view.wf()
                &&& view@ == unit_lattice(*g)
                &&& view.top() == max_reach(unit_lattice(*g), g.h@.len() as int)
            },
    {
        let n: usize = g.h.len();
        if n == 0 || n > 0x7fff_ffff {
            return None;
        }
        let h: Vec<i8> = match whole_field_list(&g.h) {
            Some(h) => h,
            None => {
                return None;
            },
        };
        let mask: Vec<bool> = match unit_mask(g) {
            Some(mask) => mask,
            None => {
                return None;
            },
        };
        let csr = build_rows(n, &g.edges, &mask);
        let ghost m = g.edges@.len() as int;
        let ghost l = unit_lattice(*g);
        let nbr = pack_rows(g, &csr.node, &csr.edge);
        let nbr_start = csr.start;
        proof {
            assert forall|v: int| 0 <= v <= n implies #[trigger] nbr_start@[v] == offset(
                g.edges@,
                mask@,
                v,
                m,
            ) by {}
            assert forall|v: int| 0 <= v < n implies l.rows[v].len() == nbr_start@[v + 1]
                - nbr_start@[v] && (#[trigger] nbr_start@[v]) <= nbr_start@[v + 1]
                <= nbr@.len() by {
                lemma_unit_row_is_entry_row(*g, mask@, v, m);
                lemma_offset_grows(g.edges@, mask@, v, n as int, m);
                lemma_offset_grows(g.edges@, mask@, v + 1, n as int, m);
                assert(nbr_start@[v + 1] == offset(g.edges@, mask@, v + 1, m));
                assert(nbr_start@[n as int] == offset(g.edges@, mask@, n as int, m));
            }
        }
        let mut max_field: usize = 0;
        let mut i: usize = 0;
        while i < n
            invariant
                n == g.h@.len(),
                h@.len() == n,
                l == unit_lattice(*g),
                nbr_start@.len() == n + 1,
                i <= n,
                max_field == max_reach(l, i as int),
                max_field <= MAX_FIELD,
                forall|v: int|
                    0 <= v < n ==> #[trigger] h@[v] == g.h@[v] as int / 1000 && -100 <= h@[v]
                        <= 100,
                forall|v: int|
                    0 <= v < n ==> l.rows[v].len() == nbr_start@[v + 1] - nbr_start@[v] && (
                    #[trigger] nbr_start@[v]) <= nbr_start@[v + 1] <= nbr@.len(),
            decreases n - i,
        {
            let b: i8 = h[i];
            let size: u64 = if b < 0 {
                (-b) as u64
            } else {
                b as u64
            };
            assert(nbr_start@[i as int] <= nbr_start@[i + 1]);
            let degree: u64 = (nbr_start[i + 1] - nbr_start[i]) as u64;
            let here: u64 = size + degree;
            assert(here == reach(l, i as int));
            if here > MAX_FIELD as u64 {
                proof {
                    lemma_max_reach_covers(l, i as int, n as int);
                }
                return None;
            }
            if here as usize > max_field {
                max_field = here as usize;
            }
            i = i + 1;
        }
        let r = IntGraph { h, nbr_start, nbr, max_field };
        proof {
            assert(r@.h =~= l.h);
            assert forall|v: int| 0 <= v < n implies #[trigger] r@.rows[v] == l.rows[v] by {
                lemma_unit_row_is_entry_row(*g, mask@, v, m);
                assert(nbr_start@[v] <= nbr_start@[v + 1]);
                let row = entry_row(g.edges@, mask@, v, m);
                assert forall|i: int| 0 <= i < row.len() implies r@.rows[v][i] == l.rows[v][i] by {
                    assert(csr.node@[nbr_start@[v] + i] == row[i].0);
                    assert(csr.edge@[nbr_start@[v] + i] == row[i].1);
                    lemma_unit_row_nodes(*g, v, m);
                    assert(unit_row(*g, v, m)[i] == unit_bond(*g, row[i].0, row[i].1));
                    lemma_unpack(
                        csr.node@[nbr_start@[v] + i],
                        coupling(g.j@, csr.edge@[nbr_start@[v] + i] as int) < 0,
                    );
                }
                assert(r@.rows[v] =~= l.rows[v]);
            }
            assert(r@.rows =~= l.rows);
            unit_lattice_is_wf(*g);
        }
        Some(r)
    }

    /// The rows of a well-formed view are those of a well-formed lattice, and
    /// their fields stay within [`IntGraph::top`].
    pub proof fn lemma_lattice(&self)
        requires
            self.wf(),
        ensures
            unit_wf(self@),
            0 < self@.h.len() <= 0x7fff_ffff,
            self.top() == max_reach(self@, self@.h.len() as int),
            self.top() <= MAX_FIELD,
    {
    }

    /// Number of nodes.
    pub fn num_nodes(&self) -> (n: usize)
        ensures
            n == self@.h.len(),
    {
        self.h.len()
    }

    /// Whole-number field at `var`.
    pub fn bias(&self, var: usize) -> (b: i8)
        requires
            var < self@.h.len(),
        ensures
            b == self@.h[var as int],
    {
        self.h[var]
    }

    /// Largest field any state of this problem can reach.
    pub fn max_field(&self) -> (m: usize)
        ensures
            m == self.top(),
    {
        self.max_field
    }

    /// One row of the acceptance table, indexed by the size of the field.
    pub fn row_len(&self) -> (m: usize)
        requires
            self.wf(),
        ensures
            m == self.top() + 1,
    {
        self.max_field + 1
    }

    /// Packed neighbor entries of `var`.
    pub fn neighbors(&self, var: usize) -> (r: &[u32])
        requires
            self.wf(),
            var < self@.h.len(),
        ensures
            r@.len() == self@.rows[var as int].len(),
            forall|i: int|
                0 <= i < r@.len() ==> unpack(#[trigger] r@[i]) == self@.rows[var as int][i],
    {
        let s: usize = self.nbr_start[var] as usize;
        let e: usize = self.nbr_start[var + 1] as usize;
        vstd::slice::slice_subrange(self.nbr.as_slice(), s, e)
    }
}

/// Pack far ends and coupling signs into one word each.
fn pack_rows(g: &IsingGraph, node: &Vec<u32>, edge: &Vec<usize>) -> (nbr: Vec<u32>)
    requires
        node@.len() == edge@.len(),
    ensures
        nbr@.len() == node@.len(),
        forall|i: int|
            0 <= i < nbr@.len() ==> #[trigger] nbr@[i] == node@[i] | (if coupling(
                g.j@,
                edge@[i] as int,
            ) < 0 {
                SIGN_BIT
            } else {
                0
            }),
{
    let mut nbr: Vec<u32> = Vec::with_capacity(node.len());
    let mut p: usize = 0;
    while p < node.len()
        invariant
            p <= node@.len(),
            node@.len() == edge@.len(),
            nbr@.len() == p,
            forall|i: int|
                0 <= i < p ==> #[trigger] nbr@[i] == node@[i] | (if coupling(
                    g.j@,
                    edge@[i] as int,
                ) < 0 {
                    SIGN_BIT
                } else {
                    0
                }),
        decreases node@.len() - p,
    {
        let k: usize = edge[p];
        let c: i32 = if k < g.j.len() {
            g.j[k]
        } else {
            0
        };
        let sign: u32 = if c < 0 {
            SIGN_BIT
        } else {
            0
        };
        nbr.push(node[p] | sign);
        p = p + 1;
    }
    nbr
}

/// The byte cache holds the field of every node.
pub open spec fn cached_bytes(l: Lattice, spins: Seq<i8>, heff: Seq<i8>) -> bool {
    heff.len() == l.h.len() && forall|w: int|
        0 <= w < heff.len() ==> #[trigger] heff[w] == l.field(spins, w)
}

/// Seed the field cache for `spins`.
pub fn seed_fields(graph: &IntGraph, spins: &Vec<i8>) -> (heff: Vec<i8>)
    requires
        graph.wf(),
        spins@.len() == graph@.h.len(),
    ensures
        cached_bytes(graph@, spins@, heff@),
{
    let n: usize = graph.num_nodes();
    let mut heff: Vec<i8> = Vec::with_capacity(n);
    let mut v: usize = 0;
    while v < n
        invariant
            graph.wf(),
            n == graph@.h.len(),
            spins@.len() == n,
            v <= n,
            heff@.len() == v,
            forall|w: int| 0 <= w < v ==> #[trigger] heff@[w] == graph@.field(spins@, w),
        decreases n - v,
    {
        let row = graph.neighbors(v);
        let ghost bonds = graph@.rows[v as int];
        let mut f: i8 = graph.bias(v);
        let mut i: usize = 0;
        assert(bonds.take(0) =~= Seq::<Bond>::empty());
        while i < row.len()
            invariant
                graph.wf(),
                n == graph@.h.len(),
                spins@.len() == n,
                v < n,
                bonds == graph@.rows[v as int],
                row@.len() == bonds.len(),
                i <= row@.len(),
                forall|k: int| 0 <= k < row@.len() ==> unpack(#[trigger] row@[k]) == bonds[k],
                f == graph@.h[v as int] + row_field(bonds.take(i as int), spins@),
            decreases row@.len() - i,
        {
            proof {
                assert(bonds.take(i as int + 1).drop_last() =~= bonds.take(i as int));
                assert(bonds.take(i as int + 1).last() == bonds[i as int]);
                assert(unit_bonds(graph@.rows[v as int]));
                assert(unit_bonds(bonds.take(i as int))) by {
                    assert forall|k: int| 0 <= k < bonds.take(i as int).len() implies (
                    #[trigger] bonds.take(i as int)[k]).coup == 1 || bonds.take(i as int)[k].coup
                        == -1 by {
                        assert(bonds.take(i as int)[k] == bonds[k]);
                    }
                }
                lemma_unit_row_bound(bonds.take(i as int), spins@);
                lemma_max_reach_covers(graph@, v as int, n as int);
                assert(unpack(row@[i as int]) == graph@.rows[v as int][i as int]);
            }
            let e: u32 = row[i];
            let s: i8 = if spins[(e & NODE_BITS) as usize] > 0 {
                1
            } else {
                -1
            };
            if e & SIGN_BIT != 0 {
                f = f - s;
            } else {
                f = f + s;
            }
            i = i + 1;
        }
        assert(bonds.take(bonds.len() as int) =~= bonds);
        heff.push(f);
        v = v + 1;
    }
    heff
}

/// What the bonds of `row` to other nodes than `v` add to a field.
proof fn lemma_rest_bound(row: Seq<Bond>, spins: Seq<i8>, v: int)
    requires
        unit_bonds(row),
    ensures
        -(row.len() - pair_count(row, v)) <= row_field(row, spins) - signed(
            pair_coupling(row, v),
            spins[v],
        ) <= row.len() - pair_count(row, v),
        0 <= pair_count(row, v) <= row.len(),
        -pair_count(row, v) <= pair_coupling(row, v) <= pair_count(row, v),
    decreases row.len(),
{
    if row.len() > 0 {
        assert(unit_bonds(row.drop_last())) by {
            assert forall|i: int| 0 <= i < row.drop_last().len() implies (
            #[trigger] row.drop_last()[i]).coup == 1 || row.drop_last()[i].coup == -1 by {
                assert(row.drop_last()[i] == row[i]);
            }
        }
        lemma_rest_bound(row.drop_last(), spins, v);
        assert(row.last() == row[row.len() - 1]);
    }
}

/// With some of a pair's bonds flipped and some not, the pair still adds no
/// more than its bond count.
proof fn lemma_partial_pair(row: Seq<Bond>, w: int, i: int)
    requires
        unit_bonds(row),
        0 <= i <= row.len(),
    ensures
        -pair_count(row, w) <= pair_coupling(row, w) - 2 * pair_coupling(row.take(i), w)
            <= pair_count(row, w),
    decreases row.len(),
{
    if row.len() > 0 {
        let short = row.drop_last();
        assert(unit_bonds(short)) by {
            assert forall|k: int| 0 <= k < short.len() implies (#[trigger] short[k]).coup == 1
                || short[k].coup == -1 by {
                assert(short[k] == row[k]);
            }
        }
        assert(row.last() == row[row.len() - 1]);
        if i == row.len() {
            assert(row.take(i) =~= row);
            lemma_pair_within_count(row, w);
        } else {
            lemma_partial_pair(short, w, i);
            assert(short.take(i) =~= row.take(i));
        }
    }
}

proof fn lemma_pair_within_count(row: Seq<Bond>, w: int)
    requires
        unit_bonds(row),
    ensures
        -pair_count(row, w) <= pair_coupling(row, w) <= pair_count(row, w),
    decreases row.len(),
{
    if row.len() > 0 {
        let short = row.drop_last();
        assert(unit_bonds(short)) by {
            assert forall|k: int| 0 <= k < short.len() implies (#[trigger] short[k]).coup == 1
                || short[k].coup == -1 by {
                assert(short[k] == row[k]);
            }
        }
        assert(row.last() == row[row.len() - 1]);
        lemma_pair_within_count(short, w);
    }
}

/// While `v` flips, the cached field of `w` stays within its reach after any
/// number `i` of `v`'s bonds.
proof fn lemma_partial_field(l: Lattice, spins: Seq<i8>, v: int, w: int, i: int)
    requires
        unit_wf(l),
        l.fits_spins(spins),
        0 <= v < l.h.len(),
        0 <= w < l.h.len(),
        0 <= i <= l.rows[v].len(),
    ensures
        -reach(l, w) <= l.field(spins, w) - 2 * signed(
            pair_coupling(l.rows[v].take(i), w),
            spins[v],
        ) <= reach(l, w),
{
    assert(unit_bonds(l.rows[v]) && unit_bonds(l.rows[w]));
    lemma_rest_bound(l.rows[w], spins, v);
    lemma_partial_pair(l.rows[v], w, i);
    assert(pair_count(l.rows[v], w) == pair_count(l.rows[w], v));
    assert(pair_coupling(l.rows[v], w) == pair_coupling(l.rows[w], v));
}

/// Flip `var` and propagate the change into its neighbors' cached fields.
pub fn flip(graph: &IntGraph, spins: &mut Vec<i8>, heff: &mut Vec<i8>, var: usize)
    requires
        graph.wf(),
        var < graph@.h.len(),
        graph@.fits_spins(old(spins)@),
        cached_bytes(graph@, old(spins)@, old(heff)@),
    ensures
        final(spins)@ == flipped(old(spins)@, var as int),
        graph@.fits_spins(final(spins)@),
        cached_bytes(graph@, final(spins)@, final(heff)@),
{
    let ghost l = graph@;
    let ghost before = spins@;
    let ghost fields = heff@;
    let ghost bonds = l.rows[var as int];
    let s: i8 = spins[var];
    assert(s == 1 || s == -1);
    spins[var] = -s;
    let ds: i8 = if s > 0 {
        -2
    } else {
        2
    };
    let row = graph.neighbors(var);
    let mut i: usize = 0;
    assert(bonds.take(0) =~= Seq::<Bond>::empty());
    while i < row.len()
        invariant
            graph.wf(),
            l == graph@,
            var < l.h.len(),
            l.fits_spins(before),
            s == before[var as int],
            s == 1 || s == -1,
            ds == -2 * s,
            cached_bytes(l, before, fields),
            bonds == l.rows[var as int],
            row@.len() == bonds.len(),
            i <= row@.len(),
            heff@.len() == fields.len(),
            forall|k: int| 0 <= k < row@.len() ==> unpack(#[trigger] row@[k]) == bonds[k],
            forall|w: int|
                0 <= w < heff@.len() ==> #[trigger] heff@[w] == fields[w] - 2 * signed(
                    pair_coupling(bonds.take(i as int), w),
                    s,
                ),
        decreases row@.len() - i,
    {
        let e: u32 = row[i];
        let node: usize = (e & NODE_BITS) as usize;
        proof {
            assert(bonds.take(i as int + 1).drop_last() =~= bonds.take(i as int));
            assert(bonds.take(i as int + 1).last() == bonds[i as int]);
            assert(unpack(row@[i as int]) == l.rows[var as int][i as int]);
            assert(node < l.h.len());
            lemma_partial_field(l, before, var as int, node as int, i as int);
            lemma_partial_field(l, before, var as int, node as int, i as int + 1);
            lemma_max_reach_covers(l, node as int, l.h.len() as int);
        }
        let f: i8 = heff[node];
        if e & SIGN_BIT != 0 {
            heff[node] = f - ds;
        } else {
            heff[node] = f + ds;
        }
        i = i + 1;
    }
    proof {
        assert(bonds.take(bonds.len() as int) =~= bonds);
        assert(spins@ =~= flipped(before, var as int));
        lemma_flipped_valid(before, var as int);
        assert forall|w: int| 0 <= w < heff@.len() implies #[trigger] heff@[w] == l.field(
            spins@,
            w,
        ) by {
            flip_moves_neighbor_fields(l, before, var as int, w);
        }
    }
}

/// Acceptance thresholds of one rung. A power of two, so that a sweep can wrap
/// around the row with a mask.
pub const DRAW_ROW: usize = 8192;

/// Largest threshold table, in bytes.
pub const MAX_DRAW_BYTES: usize = 0x400_0000;

/// Largest acceptance table, in entries.
pub const MAX_TABLE_ENTRIES: usize = 0x10_0000;

/// Width of one threshold row.
pub fn draw_row() -> (n: usize)
    ensures
        n == DRAW_ROW,
{
    DRAW_ROW
}

/// Whether the threshold table of `rungs` rungs stays within its cap.
pub fn draws_fit(rungs: usize) -> (r: bool)
    ensures
        r <==> rungs * DRAW_ROW <= MAX_DRAW_BYTES,
{
    match rungs.checked_mul(DRAW_ROW) {
        Some(bytes) => bytes <= MAX_DRAW_BYTES,
        None => false,
    }
}

/// Whether an acceptance table of `rungs` rows stays within its cap.
pub fn table_fits(rungs: usize, row_len: usize) -> (r: bool)
    ensures
        r <==> rungs * row_len <= MAX_TABLE_ENTRIES,
{
    match rungs.checked_mul(row_len) {
        Some(entries) => entries <= MAX_TABLE_ENTRIES,
        None => false,
    }
}

/// Entry `n` of row `b` of a flat table.
pub open spec fn cell<R>(t: Seq<R>, row_len: int, b: int, n: int) -> R {
    t[b * row_len + n]
}

/// `p` is the chance `exp(-2 beta n)` of rung `b` against a field of size `n`;
/// entry 0 is blank.
pub open spec fn is_chance<R: Scalar, E: Fn(R) -> R, B: Fn(u64, R) -> bool>(
    odds: Odds<R, E, B>,
    b: int,
    n: int,
    p: R,
) -> bool {
    if n == 0 {
        p == nil::<R>()
    } else {
        call_ensures(odds.exp, (level_exponent(odds.ladder@[b], n as nat),), p)
    }
}

/// `t` holds the chances of the first `rungs` rungs in rows of `row_len`.
pub open spec fn holds_chances<R: Scalar, E: Fn(R) -> R, B: Fn(u64, R) -> bool>(
    odds: Odds<R, E, B>,
    rungs: int,
    row_len: int,
    t: Seq<R>,
) -> bool {
    &&& t.len() == rungs * row_len
    &&& forall|b: int, n: int|
        0 <= b < rungs && 0 <= n < row_len ==> is_chance(
            odds,
            b,
            n,
            #[trigger] cell(t, row_len, b, n),
        )
}

/// Metropolis chances of every rung in one flat table, or `None` when the ladder
/// is too long for it.
///
/// Row `b` holds `exp(-2 beta n)` at index `n`. Index 0 is never read: a flip that
/// is not uphill is accepted without a draw.
pub fn acceptance_table<R: Scalar, E: Fn(R) -> R, B: Fn(u64, R) -> bool>(
    odds: &Odds<R, E, B>,
    row_len: usize,
) -> (r: Option<Vec<R>>)
    requires
        odds.total(),
    ensures
        r is Some <==> odds.ladder@.len() * row_len <= MAX_TABLE_ENTRIES,
        r matches Some(t) ==> holds_chances(
            *odds,
            odds.ladder@.len() as int,
            row_len as int,
            t@,
        ),
{
    if !table_fits(odds.ladder.len(), row_len) {
        return None;
    }
    let mut t: Vec<R> = Vec::new();
    let mut b: usize = 0;
    while b < odds.ladder.len()
        invariant
            odds.total(),
            b <= odds.ladder@.len(),
            odds.ladder@.len() * row_len <= MAX_TABLE_ENTRIES,
            holds_chances(*odds, b as int, row_len as int, t@),
        decreases odds.ladder@.len() - b,
    {
        let ghost start = t@;
        let beta: R = odds.ladder[b];
        let exp = &odds.exp;
        let mut n: usize = 0;
        while n < row_len
            invariant
                odds.total(),
                *exp == odds.exp,
                n <= row_len,
                b < odds.ladder@.len(),
                beta == odds.ladder@[b as int],
                start.len() == b * row_len,
                t@.len() == start.len() + n,
                forall|i: int| 0 <= i < start.len() ==> #[trigger] t@[i] == start[i],
                forall|i: int|
                    0 <= i < n ==> is_chance(
                        *odds,
                        b as int,
                        i,
                        #[trigger] t@[start.len() + i],
                    ),
            decreases row_len - n,
        {
            let p: R = if n == 0 {
                zero()
            } else {
                exp(R::from_milli(-2000).product(beta).product(R::ratio(n, 1)))
            };
            assert(is_chance(*odds, b as int, n as int, p));
            t.push(p);
            n = n + 1;
        }
        proof {
            assert((b + 1) * row_len == b * row_len + row_len) by (nonlinear_arith);
            assert forall|c: int, n: int| 0 <= c < b + 1 && 0 <= n < row_len implies is_chance(
                *odds,
                c,
                n,
                #[trigger] cell(t@, row_len as int, c, n),
            ) by {
                if c < b {
                    assert(c * row_len + row_len <= b * row_len) by (nonlinear_arith)
                        requires
                            c + 1 <= b,
                            0 <= row_len,
                    ;
                    assert(0 <= c * row_len) by (nonlinear_arith)
                        requires
                            0 <= c,
                            0 <= row_len,
                    ;
                    assert(is_chance(*odds, c, n, cell(start, row_len as int, c, n)));
                    assert(t@[c * row_len + n] == start[c * row_len + n]);
                } else {
                    assert(is_chance(*odds, b as int, n, t@[start.len() + n]));
                }
            }
        }
        b = b + 1;
    }
    Some(t)
}

/// `thr` is where the leading run of levels above the draw `u` ends: levels 1
/// to `thr` of `cut` are above `u` and the next one, if there is one, is not.
pub open spec fn is_threshold(cut: Seq<u64>, u: u64, thr: u8) -> bool {
    &&& forall|k: int| 1 <= k <= thr ==> k < cut.len() && u < #[trigger] cut[k]
    &&& thr + 1 < cut.len() ==> u >= cut[thr + 1]
}

/// The acceptance threshold that the draw `u` makes on a rung with levels
/// `cut`.
///
/// An uphill flip against a field of size `n` is accepted when `n` does not
/// pass the threshold.
pub fn threshold_of(cut: &Vec<u64>, u: u64) -> (thr: u8)
    requires
        cut@.len() <= 256,
    ensures
        is_threshold(cut@, u, thr),
{
    let mut k: usize = 1;
    while k < cut.len() && u < cut[k]
        invariant
            1 <= k,
            cut@.len() <= 256,
            k <= cut@.len() || k == 1,
            forall|i: int| 1 <= i < k ==> i < cut@.len() && u < #[trigger] cut@[i],
        decreases cut@.len() - k,
    {
        k = k + 1;
    }
    (k - 1) as u8
}

/// A draw makes one threshold only.
pub proof fn threshold_is_unique(cut: Seq<u64>, u: u64, a: u8, b: u8)
    requires
        is_threshold(cut, u, a),
        is_threshold(cut, u, b),
    ensures
        a == b,
{
    if a < b {
        assert(u < cut[a + 1]);
    } else if b < a {
        assert(u < cut[b + 1]);
    }
}

/// On non-increasing levels a flip against a field of size `n` passes the
/// threshold test exactly when its own level admits the draw.
pub proof fn threshold_decides_like_the_level(cut: Seq<u64>, u: u64, thr: u8, n: int)
    requires
        is_threshold(cut, u, thr),
        1 <= n < cut.len(),
        forall|i: int, j: int| 1 <= i <= j < cut.len() ==> cut[j] <= cut[i],
    ensures
        n <= thr <==> u < cut[n],
{
    if n > thr {
        assert(cut[n] <= cut[thr + 1]);
    }
}

/// No threshold passes the last level.
pub proof fn threshold_stays_below_the_levels(cut: Seq<u64>, u: u64, thr: u8)
    requires
        is_threshold(cut, u, thr),
        cut.len() > 0,
    ensures
        thr < cut.len(),
{
    if thr >= cut.len() {
        assert(u < cut[thr as int]);
    }
}

/// The thresholds that `words` make on one rung.
pub fn threshold_row(cut: &Vec<u64>, words: &Vec<u64>) -> (row: Vec<u8>)
    requires
        cut@.len() <= 256,
    ensures
        row@.len() == words@.len(),
        forall|i: int|
            0 <= i < row@.len() ==> is_threshold(cut@, words@[i], #[trigger] row@[i]),
{
    let mut row: Vec<u8> = Vec::with_capacity(words.len());
    let mut i: usize = 0;
    while i < words.len()
        invariant
            cut@.len() <= 256,
            i <= words@.len(),
            row@.len() == i,
            forall|k: int|
                0 <= k < i ==> is_threshold(cut@, words@[k], #[trigger] row@[k]),
        decreases words@.len() - i,
    {
        row.push(threshold_of(cut, words[i]));
        i = i + 1;
    }
    row
}

/// The words in `log` from `from` on are `words`.
pub open spec fn words_on(log: Seq<Draw>, from: int, words: Seq<u64>) -> bool {
    &&& from + words.len() <= log.len()
    &&& forall|i: int|
        0 <= i < words.len() ==> log[from + i] == Draw::Word(#[trigger] words[i])
}

/// `after` is `before` with `count` more draws.
pub open spec fn drawn_on(before: Source, after: Source, count: nat) -> bool {
    &&& after.wf()
    &&& after.start() == before.start()
    &&& after.log().len() == before.log().len() + count
    &&& after.log().take(before.log().len() as int) == before.log()
}

/// `count` random words.
pub(crate) fn draw_words(count: usize, src: &mut Source) -> (words: Vec<u64>)
    requires
        old(src).wf(),
    ensures
        words@.len() == count,
        drawn_on(*old(src), *final(src), count as nat),
        words_on(final(src).log(), old(src).log().len() as int, words@),
{
    let ghost base = src.log();
    let mut words: Vec<u64> = Vec::with_capacity(count);
    assert(src.log().take(base.len() as int) =~= base);
    while words.len() < count
        invariant
            words@.len() <= count,
            src.wf(),
            src.start() == old(src).start(),
            src.log().len() == base.len() + words@.len(),
            src.log().take(base.len() as int) == base,
            words_on(src.log(), base.len() as int, words@),
        decreases count - words@.len(),
    {
        let ghost before = words@;
        let ghost held = src.log();
        words.push(src.word());
        proof {
            assert(src.log().take(base.len() as int) =~= held.take(base.len() as int));
            assert forall|i: int| 0 <= i < words@.len() implies src.log()[base.len() + i]
                == Draw::Word(#[trigger] words@[i]) by {
                if i < before.len() {
                    assert(words@[i] == before[i]);
                    assert(held[base.len() + i] == Draw::Word(before[i]));
                }
            }
        }
    }
    words
}

/// Each threshold of `row` is what the word in its place in `log`, from `from` on,
/// makes on the levels `cut`.
pub open spec fn row_on(cut: Seq<u64>, log: Seq<Draw>, from: int, row: Seq<u8>) -> bool {
    &&& row.len() == DRAW_ROW
    &&& from + DRAW_ROW <= log.len()
    &&& forall|i: int|
        0 <= i < DRAW_ROW ==> threshold_on(cut, log[from + i], #[trigger] row[i])
}

/// `thr` is the threshold that the drawn word makes on the levels `cut`.
pub open spec fn threshold_on(cut: Seq<u64>, d: Draw, thr: u8) -> bool {
    d matches Draw::Word(word) && is_threshold(cut, word, thr)
}

/// Each shift is what the word in its place in `log`, from `from` on, makes.
pub open spec fn shifts_on(log: Seq<Draw>, from: int, offs: Seq<usize>) -> bool {
    &&& from + offs.len() <= log.len()
    &&& forall|i: int|
        0 <= i < offs.len() ==> shift_on(log[from + i], #[trigger] offs[i])
}

/// `off` is the shift that the drawn word makes.
pub open spec fn shift_on(d: Draw, off: usize) -> bool {
    d matches Draw::Word(word) && off == word % 8192
}

/// A row that a record makes is made by every longer one.
pub proof fn lemma_row_extends(
    cut: Seq<u64>,
    log: Seq<Draw>,
    more: Seq<Draw>,
    from: int,
    row: Seq<u8>,
)
    requires
        row_on(cut, log, from, row),
        0 <= from,
        log.len() <= more.len(),
        more.take(log.len() as int) == log,
    ensures
        row_on(cut, more, from, row),
{
    assert forall|i: int| 0 <= i < DRAW_ROW implies threshold_on(
        cut,
        more[from + i],
        #[trigger] row[i],
    ) by {
        assert(threshold_on(cut, log[from + i], row[i]));
        assert(more.take(log.len() as int)[from + i] == more[from + i]);
    }
}

/// Some words make the thresholds of `row` on the levels `cut`.
pub open spec fn drawn_row(cut: Seq<u64>, row: Seq<u8>) -> bool {
    row.len() == DRAW_ROW && exists|words: Seq<u64>|
        words.len() == DRAW_ROW && forall|i: int|
            0 <= i < DRAW_ROW ==> is_threshold(cut, #[trigger] words[i], row[i])
}

/// Draw one threshold row for a rung.
pub fn fill_threshold_row(cut: &Vec<u64>, rng: &mut SmallRng) -> (row: Vec<u8>)
    requires
        cut@.len() <= 256,
    ensures
        drawn_row(cut@, row@),
        exists|log: Seq<Draw>| #[trigger]
            streams(*old(rng), log, *final(rng)) && log.len() == DRAW_ROW && row_on(
                cut@,
                log,
                0,
                row@,
            ),
{
    let mut src = Source::taken(rng);
    let row = next_row(cut, &mut src);
    src.give_back(rng);
    row
}

/// Draw one threshold row for a rung from a source.
pub(crate) fn next_row(cut: &Vec<u64>, src: &mut Source) -> (row: Vec<u8>)
    requires
        cut@.len() <= 256,
        old(src).wf(),
    ensures
        drawn_row(cut@, row@),
        drawn_on(*old(src), *final(src), DRAW_ROW as nat),
        row_on(cut@, final(src).log(), old(src).log().len() as int, row@),
{
    let ghost from = src.log().len() as int;
    let words = draw_words(DRAW_ROW, src);
    let row = threshold_row(cut, &words);
    assert forall|i: int| 0 <= i < DRAW_ROW implies is_threshold(
        cut@,
        #[trigger] words@[i],
        row@[i],
    ) by {
        assert(is_threshold(cut@, words@[i], row@[i]));
    }
    assert forall|i: int| 0 <= i < DRAW_ROW implies threshold_on(
        cut@,
        src.log()[from + i],
        #[trigger] row@[i],
    ) by {
        assert(src.log()[from + i] == Draw::Word(words@[i]));
    }
    row
}

/// The threshold row of rung `b` in a flat table.
pub open spec fn rung_row(draws: Seq<u8>, b: int) -> Seq<u8> {
    draws.subrange(b * DRAW_ROW, (b + 1) * DRAW_ROW)
}

/// The rows of a table are what `log` makes, one after another.
pub open spec fn table_on(cuts: Seq<Vec<u64>>, log: Seq<Draw>, draws: Seq<u8>) -> bool {
    forall|b: int|
        0 <= b < cuts.len() ==> row_on(
            (#[trigger] cuts[b])@,
            log,
            b * DRAW_ROW,
            rung_row(draws, b),
        )
}

/// Draw a table of acceptance thresholds, one row per rung, or `None` when the
/// ladder is too long for it.
pub fn threshold_draws(cuts: &Vec<Vec<u64>>, rng: &mut SmallRng) -> (r: Option<Vec<u8>>)
    requires
        forall|b: int| 0 <= b < cuts@.len() ==> (#[trigger] cuts@[b])@.len() <= 256,
    ensures
        r is Some <==> cuts@.len() * DRAW_ROW <= MAX_DRAW_BYTES,
        r matches Some(draws) ==> draws@.len() == cuts@.len() * DRAW_ROW && forall|b: int|
            0 <= b < cuts@.len() ==> drawn_row((#[trigger] cuts@[b])@, rung_row(draws@, b)),
        r matches Some(draws) ==> (exists|log: Seq<Draw>| #[trigger]
            streams(*old(rng), log, *final(rng)) && log.len() == draws@.len() && table_on(
                cuts@,
                log,
                draws@,
            )),
{
    let mut src = Source::taken(rng);
    let r = draw_table(cuts, &mut src);
    src.give_back(rng);
    r
}

/// Draw a table of acceptance thresholds from a fresh source.
pub(crate) fn draw_table(cuts: &Vec<Vec<u64>>, src: &mut Source) -> (r: Option<Vec<u8>>)
    requires
        forall|b: int| 0 <= b < cuts@.len() ==> (#[trigger] cuts@[b])@.len() <= 256,
        old(src).wf(),
        old(src).log().len() == 0,
    ensures
        final(src).wf(),
        final(src).start() == old(src).start(),
        r is Some <==> cuts@.len() * DRAW_ROW <= MAX_DRAW_BYTES,
        r matches Some(draws) ==> draws@.len() == cuts@.len() * DRAW_ROW && forall|b: int|
            0 <= b < cuts@.len() ==> drawn_row((#[trigger] cuts@[b])@, rung_row(draws@, b)),
        r matches Some(draws) ==> final(src).log().len() == draws@.len() && table_on(
            cuts@,
            final(src).log(),
            draws@,
        ),
{
    if !draws_fit(cuts.len()) {
        return None;
    }
    let mut draws: Vec<u8> = Vec::new();
    let mut b: usize = 0;
    while b < cuts.len()
        invariant
            b <= cuts@.len(),
            forall|b: int| 0 <= b < cuts@.len() ==> (#[trigger] cuts@[b])@.len() <= 256,
            draws@.len() == b * DRAW_ROW,
            src.wf(),
            src.start() == old(src).start(),
            src.log().len() == b * DRAW_ROW,
            forall|c: int|
                0 <= c < b ==> drawn_row((#[trigger] cuts@[c])@, rung_row(draws@, c)),
            forall|c: int|
                0 <= c < b ==> row_on(
                    (#[trigger] cuts@[c])@,
                    src.log(),
                    c * DRAW_ROW,
                    rung_row(draws@, c),
                ),
        decreases cuts@.len() - b,
    {
        let ghost before = draws@;
        let ghost held = src.log();
        let mut row = next_row(&cuts[b], src);
        let ghost drawn = row@;
        draws.append(&mut row);
        proof {
            assert forall|c: int| 0 <= c < b + 1 implies drawn_row(
                (#[trigger] cuts@[c])@,
                rung_row(draws@, c),
            ) && row_on(cuts@[c]@, src.log(), c * DRAW_ROW, rung_row(draws@, c)) by {
                if c < b {
                    assert(rung_row(draws@, c) =~= rung_row(before, c));
                    lemma_row_extends(
                        cuts@[c]@,
                        held,
                        src.log(),
                        c * DRAW_ROW,
                        rung_row(before, c),
                    );
                } else {
                    assert(rung_row(draws@, c) =~= drawn);
                }
            }
        }
        b = b + 1;
    }
    Some(draws)
}

/// The shift into a threshold row that a random word makes.
pub fn offset_of(word: u64) -> (off: usize)
    ensures
        off == word % 8192,
        off < DRAW_ROW,
{
    assert(word & 8191 == word % 8192) by (bit_vector);
    (word & 8191) as usize
}

/// Cyclic shifts into the threshold rows, one per sweep.
pub fn sweep_offsets(rungs: usize, sweeps_per_beta: usize, rng: &mut SmallRng) -> (offs: Vec<usize>)
    requires
        rungs * sweeps_per_beta <= usize::MAX,
    ensures
        offs@.len() == rungs * sweeps_per_beta,
        forall|i: int| 0 <= i < offs@.len() ==> #[trigger] offs@[i] < DRAW_ROW,
        exists|log: Seq<Draw>| #[trigger]
            streams(*old(rng), log, *final(rng)) && log.len() == offs@.len() && shifts_on(
                log,
                0,
                offs@,
            ),
{
    let mut src = Source::taken(rng);
    let offs = draw_shifts(rungs * sweeps_per_beta, &mut src);
    src.give_back(rng);
    offs
}

/// `total` cyclic shifts from a source.
pub(crate) fn draw_shifts(total: usize, src: &mut Source) -> (offs: Vec<usize>)
    requires
        old(src).wf(),
    ensures
        offs@.len() == total,
        forall|i: int| 0 <= i < offs@.len() ==> #[trigger] offs@[i] < DRAW_ROW,
        drawn_on(*old(src), *final(src), total as nat),
        shifts_on(final(src).log(), old(src).log().len() as int, offs@),
{
    let ghost base = src.log();
    let mut offs: Vec<usize> = Vec::with_capacity(total);
    assert(src.log().take(base.len() as int) =~= base);
    while offs.len() < total
        invariant
            offs@.len() <= total,
            forall|i: int| 0 <= i < offs@.len() ==> #[trigger] offs@[i] < DRAW_ROW,
            src.wf(),
            src.start() == old(src).start(),
            src.log().len() == base.len() + offs@.len(),
            src.log().take(base.len() as int) == base,
            shifts_on(src.log(), base.len() as int, offs@),
        decreases total - offs@.len(),
    {
        let ghost before = offs@;
        let ghost held = src.log();
        offs.push(offset_of(src.word()));
        proof {
            assert(src.log().take(base.len() as int) =~= held.take(base.len() as int));
            assert forall|i: int| 0 <= i < offs@.len() implies shift_on(
                src.log()[base.len() + i],
                #[trigger] offs@[i],
            ) by {
                if i < before.len() {
                    assert(offs@[i] == before[i]);
                    assert(shift_on(held[base.len() + i], before[i]));
                }
            }
        }
    }
    offs
}

/// The flip rule of a threshold row shifted by `off`: flip unless the node's
/// field opposes the flip by more than the threshold.
pub open spec fn threshold_rule(row: Seq<u8>, off: int) -> Rule {
    |v: int, gain: int| gain >= -(row[(v + off) % row.len() as int] as int)
}

/// The shift of sweep `k`, 0 past the end of the list.
pub open spec fn shift_at(offsets: Seq<usize>, k: int) -> int {
    if 0 <= k < offsets.len() {
        offsets[k] as int
    } else {
        0
    }
}

/// The spins after `b` rungs of `per` sweeps each and `k` sweeps of the next.
pub open spec fn annealed(
    l: Lattice,
    spins: Seq<i8>,
    draws: Seq<u8>,
    per: nat,
    offsets: Seq<usize>,
    b: nat,
    k: nat,
) -> Seq<i8>
    decreases b, k,
{
    if k > 0 {
        full_sweep(
            l,
            annealed(l, spins, draws, per, offsets, b, (k - 1) as nat),
            threshold_rule(rung_row(draws, b as int), shift_at(offsets, b * per + k - 1)),
        )
    } else if b > 0 {
        annealed(l, spins, draws, per, offsets, (b - 1) as nat, per)
    } else {
        spins
    }
}

/// One sweep against row `b` of the threshold table.
fn sweep_thresholds(
    graph: &IntGraph,
    draws: &Vec<u8>,
    b: usize,
    off: usize,
    spins: &mut Vec<i8>,
    heff: &mut Vec<i8>,
)
    requires
        graph.wf(),
        graph@.fits_spins(old(spins)@),
        cached_bytes(graph@, old(spins)@, old(heff)@),
        (b + 1) * DRAW_ROW <= draws@.len(),
        forall|i: int| 0 <= i < draws@.len() ==> #[trigger] draws@[i] <= 127,
        off + graph@.h.len() <= usize::MAX,
    ensures
        graph@.fits_spins(final(spins)@),
        cached_bytes(graph@, final(spins)@, final(heff)@),
        final(spins)@ == full_sweep(
            graph@,
            old(spins)@,
            threshold_rule(rung_row(draws@, b as int), off as int),
        ),
{
    let n: usize = graph.num_nodes();
    let ghost l = graph@;
    let ghost before = spins@;
    let ghost rule = threshold_rule(rung_row(draws@, b as int), off as int);
    let entries: usize = draws.len();
    assert(b * DRAW_ROW <= entries);
    let base: usize = b * DRAW_ROW;
    let mut var: usize = 0;
    while var < n
        invariant
            graph.wf(),
            l == graph@,
            n == l.h.len(),
            l.fits_spins(before),
            l.fits_spins(spins@),
            cached_bytes(l, spins@, heff@),
            var <= n,
            base == b * DRAW_ROW,
            (b + 1) * DRAW_ROW <= draws@.len(),
            entries == draws@.len(),
            off + n <= usize::MAX,
            forall|i: int| 0 <= i < draws@.len() ==> #[trigger] draws@[i] <= 127,
            rule == threshold_rule(rung_row(draws@, b as int), off as int),
            spins@ == sweep(l, before, ascending(n as int), var as int, rule),
        decreases n - var,
    {
        let pos: usize = var + off;
        let slot: usize = pos & 8191;
        assert(pos & 8191 == pos % 8192) by (bit_vector);
        proof {
            max_reach_bounds_every_field(l, spins@, var as int);
            assert(rung_row(draws@, b as int)[slot as int] == draws@[base + slot]);
            assert(ascending(n as int)[var as int] == var);
            assert(heff@[var as int] == l.field(spins@, var as int));
        }
        let f: i8 = heff[var];
        let m: i8 = if spins[var] > 0 {
            f
        } else {
            -f
        };
        let thr: i8 = draws[base + slot] as i8;
        if m >= -thr {
            flip(graph, spins, heff, var);
        }
        var = var + 1;
    }
}

/// Anneal `spins` against a table of acceptance thresholds.
///
/// Sweep `k` of the whole run shifts its row by `offsets[k]`, or by 0 past the
/// end of the list.
pub fn anneal_from(
    graph: &IntGraph,
    draws: &Vec<u8>,
    sweeps_per_beta: usize,
    spins: &mut Vec<i8>,
    offsets: &Vec<usize>,
    cancel: Option<(&CancelToken, Option<u64>)>,
) -> (r: Result<(), SampleCancelled>)
    requires
        graph.wf(),
        graph@.fits_spins(old(spins)@),
        forall|i: int| 0 <= i < draws@.len() ==> #[trigger] draws@[i] <= 127,
        (draws@.len() as int / 8192) * sweeps_per_beta <= usize::MAX,
        forall|i: int|
            0 <= i < offsets@.len() ==> (#[trigger] offsets@[i]) + graph@.h.len() <= usize::MAX,
    ensures
        graph@.fits_spins(final(spins)@),
        r is Ok ==> final(spins)@ == annealed(
            graph@,
            old(spins)@,
            draws@,
            sweeps_per_beta as nat,
            offsets@,
            (draws@.len() as int / 8192) as nat,
            0,
        ),
        r is Err ==> may_cancel(cancel) && exists|b: nat, k: nat|
            b < draws@.len() as int / 8192 && k < sweeps_per_beta && final(spins)@
                == #[trigger] annealed(
                graph@,
                old(spins)@,
                draws@,
                sweeps_per_beta as nat,
                offsets@,
                b,
                k,
            ),
{
    let ghost l = graph@;
    let ghost start = spins@;
    let ghost per = sweeps_per_beta as nat;
    let mut heff = seed_fields(graph, spins);
    let rungs: usize = draws.len() / DRAW_ROW;
    let mut b: usize = 0;
    let mut sweep_no: usize = 0;
    while b < rungs
        invariant
            graph.wf(),
            l == graph@,
            l.fits_spins(start),
            l.fits_spins(spins@),
            start == old(spins)@,
            cached_bytes(l, spins@, heff@),
            rungs == draws@.len() as int / 8192,
            rungs * sweeps_per_beta <= usize::MAX,
            per == sweeps_per_beta,
            b <= rungs,
            sweep_no == b * sweeps_per_beta,
            forall|i: int| 0 <= i < draws@.len() ==> #[trigger] draws@[i] <= 127,
            forall|i: int|
                0 <= i < offsets@.len() ==> (#[trigger] offsets@[i]) + l.h.len() <= usize::MAX,
            spins@ == annealed(l, start, draws@, per, offsets@, b as nat, 0),
        decreases rungs - b,
    {
        proof {
            assert((b + 1) * DRAW_ROW <= draws@.len());
            assert((b + 1) * sweeps_per_beta <= rungs * sweeps_per_beta) by (nonlinear_arith)
                requires
                    b + 1 <= rungs,
                    0 <= sweeps_per_beta,
            ;
            assert((b + 1) * sweeps_per_beta == b * sweeps_per_beta + sweeps_per_beta)
                by (nonlinear_arith);
        }
        let mut k: usize = 0;
        while k < sweeps_per_beta
            invariant
                graph.wf(),
                l == graph@,
                l.fits_spins(start),
                l.fits_spins(spins@),
                start == old(spins)@,
                cached_bytes(l, spins@, heff@),
                rungs == draws@.len() as int / 8192,
                per == sweeps_per_beta,
                b < rungs,
                (b + 1) * DRAW_ROW <= draws@.len(),
                k <= sweeps_per_beta,
                sweep_no == b * sweeps_per_beta + k,
                b * sweeps_per_beta + sweeps_per_beta <= usize::MAX,
                forall|i: int| 0 <= i < draws@.len() ==> #[trigger] draws@[i] <= 127,
                forall|i: int|
                    0 <= i < offsets@.len() ==> (#[trigger] offsets@[i]) + l.h.len()
                        <= usize::MAX,
                spins@ == annealed(l, start, draws@, per, offsets@, b as nat, k as nat),
            decreases sweeps_per_beta - k,
        {
            if poll(cancel) {
                return Err(SampleCancelled);
            }
            let off: usize = if sweep_no < offsets.len() {
                offsets[sweep_no]
            } else {
                0
            };
            assert(off == shift_at(offsets@, b * per + k));
            sweep_thresholds(graph, draws, b, off, spins, &mut heff);
            sweep_no = sweep_no + 1;
            k = k + 1;
        }
        b = b + 1;
    }
    Ok(())
}

/// What row `b` of a table of chances answers: whether the draw of a word falls
/// below the chance for the size of the field.
pub open spec fn row_answers<R: Scalar, B: Fn(u64, R) -> bool>(
    below: B,
    table: Seq<R>,
    row_len: int,
    b: int,
) -> Answers {
    |opposing: int, word: u64, yes: bool|
        call_ensures(below, (draw_of(word), cell(table, row_len, b, opposing)), yes)
}

/// `after` follows from `before` by one sweep of row `b` on these words.
pub open spec fn row_sweep_on<R: Scalar, B: Fn(u64, R) -> bool>(
    below: B,
    l: Lattice,
    table: Seq<R>,
    row_len: int,
    b: int,
    words: Seq<u64>,
    before: Seq<i8>,
    after: Seq<i8>,
) -> bool {
    decided_sweep(row_answers(below, table, row_len, b), l, words, before, after)
}

/// `after` follows from `before` by one sweep of row `b`.
pub open spec fn row_sweep<R: Scalar, B: Fn(u64, R) -> bool>(
    below: B,
    l: Lattice,
    table: Seq<R>,
    row_len: int,
    b: int,
    before: Seq<i8>,
    after: Seq<i8>,
) -> bool {
    exists|words: Seq<u64>| #[trigger]
        row_sweep_on(below, l, table, row_len, b, words, before, after)
}

/// One sweep of a row, as a step of a run.
pub open spec fn row_step<R: Scalar, B: Fn(u64, R) -> bool>(
    below: B,
    l: Lattice,
    table: Seq<R>,
    row_len: int,
) -> spec_fn(int, Seq<i8>, Seq<i8>) -> bool {
    |b: int, before: Seq<i8>, after: Seq<i8>| row_sweep(below, l, table, row_len, b, before, after)
}

/// `spins` end a run over the rows of `table`, `per` sweeps to a row.
pub open spec fn row_run<R: Scalar, B: Fn(u64, R) -> bool>(
    below: B,
    l: Lattice,
    table: Seq<R>,
    row_len: int,
    per: nat,
    spins: Seq<i8>,
) -> bool {
    exists|states: Seq<Seq<i8>>|
        {
            &&& #[trigger] history(l, states, per as int, row_step(below, l, table, row_len))
            &&& states.len() == (table.len() as int / row_len) * per + 1
            &&& spins == states.last()
        }
}

/// One annealing sweep that draws a word for every uphill candidate.
fn sweep_row<R: Scalar, B: Fn(u64, R) -> bool>(
    graph: &IntGraph,
    table: &Vec<R>,
    b: usize,
    below: &B,
    spins: &mut Vec<i8>,
    heff: &mut Vec<i8>,
    src: &mut Source,
)
    requires
        graph.wf(),
        graph@.fits_spins(old(spins)@),
        cached_bytes(graph@, old(spins)@, old(heff)@),
        (b + 1) * (graph.top() + 1) <= table@.len(),
        forall|bits: u64, p: R| #[trigger] call_requires(*below, (bits, p)),
        old(src).wf(),
    ensures
        graph@.fits_spins(final(spins)@),
        cached_bytes(graph@, final(spins)@, final(heff)@),
        row_sweep(
            *below,
            graph@,
            table@,
            graph.top() + 1,
            b as int,
            old(spins)@,
            final(spins)@,
        ),
        final(src).wf(),
        final(src).start() == old(src).start(),
        old(src).log().len() <= final(src).log().len(),
        final(src).log().take(old(src).log().len() as int) == old(src).log(),
        sweep_reads(
            row_answers(*below, table@, graph.top() + 1, b as int),
            graph@,
            final(src).log(),
            old(src).log().len(),
            final(src).log().len(),
            old(spins)@,
            final(spins)@,
        ),
{
    let ghost base_log = src.log();
    let ghost mut at: Seq<nat> = seq![base_log.len()];
    assert(src.log().take(base_log.len() as int) =~= base_log);
    let n: usize = graph.num_nodes();
    let row_len: usize = graph.row_len();
    let ghost l = graph@;
    let ghost before = spins@;
    let ghost ans = row_answers(*below, table@, row_len as int, b as int);
    let ghost mut yes: Seq<bool> = Seq::empty();
    let ghost mut words: Seq<u64> = Seq::empty();
    proof {
        assert((b + 1) * row_len == b * row_len + row_len) by (nonlinear_arith);
        assert(0 <= b * row_len) by (nonlinear_arith);
    }
    let entries: usize = table.len();
    let base: usize = b * row_len;
    let mut var: usize = 0;
    while var < n
        invariant
            graph.wf(),
            l == graph@,
            n == l.h.len(),
            row_len == graph.top() + 1,
            base == b * row_len,
            base + row_len <= entries,
            entries == table@.len(),
            forall|bits: u64, p: R| #[trigger] call_requires(*below, (bits, p)),
            ans == row_answers(*below, table@, row_len as int, b as int),
            l.fits_spins(before),
            l.fits_spins(spins@),
            cached_bytes(l, spins@, heff@),
            var <= n,
            yes.len() == var,
            words.len() == var,
            decided(ans, l, before, yes, words, var as int),
            spins@ == sweep(l, before, ascending(n as int), var as int, metropolis_rule(yes)),
            src.wf(),
            src.start() == old(src).start(),
            base_log.len() <= src.log().len(),
            src.log().take(base_log.len() as int) == base_log,
            words_read(l, before, yes, words, at, src.log(), var as int),
            at[0] == base_log.len(),
            at[var as int] == src.log().len(),
        decreases n - var,
    {
        let ghost old_yes = yes;
        let ghost old_words = words;
        let ghost old_at = at;
        let ghost held = src.log();
        let ghost here = spins@;
        proof {
            max_reach_bounds_every_field(l, spins@, var as int);
            assert(heff@[var as int] == l.field(spins@, var as int));
            assert(ascending(n as int)[var as int] == var);
        }
        let f: i8 = heff[var];
        let m: i8 = if spins[var] > 0 {
            f
        } else {
            -f
        };
        let mut take: bool = false;
        if m < 0 {
            let size: usize = (-(m as i16)) as usize;
            let word: u64 = src.word();
            take = below(draw_from(word), table[base + size]);
            proof {
                at = at.push(at[var as int] + 1);
                assert(src.log().take(base_log.len() as int) =~= held.take(
                    base_log.len() as int,
                ));
                words = words.push(word);
                assert(table@[base + size] == cell(
                    table@,
                    row_len as int,
                    b as int,
                    size as int,
                ));
                assert(ans(-l.gain(here, var as int), word, take));
            }
        } else {
            proof {
                at = at.push(at[var as int]);
                words = words.push(0);
            }
        }
        if m >= 0 || take {
            flip(graph, spins, heff, var);
        }
        proof {
            yes = yes.push(take);
            lemma_decided_prefix(
                ans,
                l,
                before,
                old_yes,
                yes,
                old_words,
                words,
                var as int,
            );
            assert(l.gain(here, var as int) == m);
            assert(yes[var as int] == take);
            assert(here == sweep(
                l,
                before,
                ascending(n as int),
                var as int,
                metropolis_rule(yes),
            ));
            assert forall|v: int| 0 <= v < var + 1 implies if opposed(l, before, yes, v) > 0 {
                &&& #[trigger] at[v] < src.log().len()
                &&& src.log()[at[v] as int] == Draw::Word(words[v])
                &&& at[v + 1] == at[v] + 1
            } else {
                at[v + 1] == at[v]
            } by {
                if v < var {
                    assert(decided(ans, l, before, old_yes, old_words, v));
                    lemma_decided_prefix(ans, l, before, old_yes, yes, old_words, words, v);
                    assert(opposed(l, before, yes, v) == opposed(l, before, old_yes, v));
                    assert(at[v] == old_at[v] && at[v + 1] == old_at[v + 1]);
                    assert(words[v] == old_words[v]);
                    if opposed(l, before, yes, v) > 0 {
                        assert(held[old_at[v] as int] == Draw::Word(old_words[v]));
                    }
                } else {
                    assert(opposed(l, before, yes, v) == -m);
                }
            }
        }
        var = var + 1;
    }
    assert(words_read(l, before, yes, words, at, src.log(), n as int));
    assert(row_sweep_on(
        *below,
        l,
        table@,
        row_len as int,
        b as int,
        words,
        before,
        spins@,
    ));
}

/// What each row of a table of chances answers.
pub open spec fn table_answers<R: Scalar, B: Fn(u64, R) -> bool>(
    below: B,
    table: Seq<R>,
    row_len: int,
) -> spec_fn(int) -> Answers {
    |b: int| row_answers(below, table, row_len, b)
}

/// One annealing read over the integer kernel.
///
/// `table` is the flat table of [`acceptance_table`] in rows of
/// `graph.row_len()`. A word is drawn for an uphill candidate only.
pub fn anneal_one_read_int<R: Scalar, B: Fn(u64, R) -> bool>(
    graph: &IntGraph,
    table: &Vec<R>,
    sweeps_per_beta: usize,
    below: &B,
    rng: &mut SmallRng,
    cancel: Option<(&CancelToken, Option<u64>)>,
) -> (r: Result<Vec<i8>, SampleCancelled>)
    requires
        graph.wf(),
        forall|bits: u64, p: R| #[trigger] call_requires(*below, (bits, p)),
    ensures
        r is Err ==> may_cancel(cancel),
        r matches Ok(spins) ==> graph@.fits_spins(spins@) && row_run(
            *below,
            graph@,
            table@,
            graph.top() + 1,
            sweeps_per_beta as nat,
            spins@,
        ),
        r matches Ok(spins) ==> exists|log: Seq<Draw>| #[trigger]
            streams(*old(rng), log, *final(rng)) && read_on(
                table_answers(*below, table@, graph.top() + 1),
                (table@.len() as int / (graph.top() + 1)) as nat,
                graph@,
                sweeps_per_beta as nat,
                log,
                spins@,
            ),
{
    let mut src = Source::taken(rng);
    let r = anneal_rows(graph, table, sweeps_per_beta, below, &mut src, cancel);
    src.give_back(rng);
    r
}

/// One annealing read over the integer kernel, from a fresh source.
fn anneal_rows<R: Scalar, B: Fn(u64, R) -> bool>(
    graph: &IntGraph,
    table: &Vec<R>,
    sweeps_per_beta: usize,
    below: &B,
    src: &mut Source,
    cancel: Option<(&CancelToken, Option<u64>)>,
) -> (r: Result<Vec<i8>, SampleCancelled>)
    requires
        graph.wf(),
        forall|bits: u64, p: R| #[trigger] call_requires(*below, (bits, p)),
        old(src).wf(),
        old(src).log().len() == 0,
    ensures
        r is Err ==> may_cancel(cancel),
        final(src).wf(),
        final(src).start() == old(src).start(),
        r matches Ok(spins) ==> graph@.fits_spins(spins@) && row_run(
            *below,
            graph@,
            table@,
            graph.top() + 1,
            sweeps_per_beta as nat,
            spins@,
        ) && read_on(
            table_answers(*below, table@, graph.top() + 1),
            (table@.len() as int / (graph.top() + 1)) as nat,
            graph@,
            sweeps_per_beta as nat,
            final(src).log(),
            spins@,
        ),
{
    let n: usize = graph.num_nodes();
    let row_len: usize = graph.row_len();
    let ghost l = graph@;
    let ghost per = sweeps_per_beta as int;
    let ghost answers = table_answers(*below, table@, row_len as int);
    let ghost step = row_step(*below, l, table@, row_len as int);
    let mut spins = toss_spins(n, src);
    let mut heff = seed_fields(graph, &spins);
    let ghost mut states: Seq<Seq<i8>> = seq![spins@];
    let ghost mut marks: Seq<nat> = seq![n as nat];
    let rungs: usize = table.len() / row_len;
    let mut b: usize = 0;
    while b < rungs
        invariant
            graph.wf(),
            l == graph@,
            n == l.h.len(),
            row_len == graph.top() + 1,
            per == sweeps_per_beta,
            step == row_step(*below, l, table@, row_len as int),
            forall|bits: u64, p: R| #[trigger] call_requires(*below, (bits, p)),
            l.fits_spins(spins@),
            cached_bytes(l, spins@, heff@),
            rungs == table@.len() as int / row_len as int,
            b <= rungs,
            states.len() == b * per + 1,
            states.last() == spins@,
            history(l, states, per, step),
            answers == table_answers(*below, table@, row_len as int),
            src.wf(),
            src.start() == old(src).start(),
            marks.last() == src.log().len(),
            read_history(answers, l, per, src.log(), states, marks),
        decreases rungs - b,
    {
        proof {
            assert((b + 1) * row_len <= table@.len()) by (nonlinear_arith)
                requires
                    b + 1 <= table@.len() as int / row_len as int,
                    row_len > 0,
            ;
            assert((b + 1) * per == b * per + per) by (nonlinear_arith);
        }
        let mut k: usize = 0;
        while k < sweeps_per_beta
            invariant
                graph.wf(),
                l == graph@,
                n == l.h.len(),
                row_len == graph.top() + 1,
                per == sweeps_per_beta,
                step == row_step(*below, l, table@, row_len as int),
                forall|bits: u64, p: R| #[trigger] call_requires(*below, (bits, p)),
                l.fits_spins(spins@),
                cached_bytes(l, spins@, heff@),
                b < rungs,
                (b + 1) * row_len <= table@.len(),
                k <= sweeps_per_beta,
                states.len() == b * per + k + 1,
                states.last() == spins@,
                history(l, states, per, step),
                answers == table_answers(*below, table@, row_len as int),
                src.wf(),
                src.start() == old(src).start(),
                marks.last() == src.log().len(),
                read_history(answers, l, per, src.log(), states, marks),
            decreases sweeps_per_beta - k,
        {
            if poll(cancel) {
                return Err(SampleCancelled);
            }
            let ghost held = src.log();
            sweep_row(graph, table, b, below, &mut spins, &mut heff, src);
            proof {
                lemma_read_push(
                    answers,
                    l,
                    per,
                    held,
                    src.log(),
                    states,
                    marks,
                    b as int,
                    k as int,
                    spins@,
                    src.log().len(),
                );
                marks = marks.push(src.log().len());
                assert(step(b as int, states.last(), spins@));
                lemma_history_push(l, states, per, step, b as int, k as int, spins@);
                states = states.push(spins@);
            }
            k = k + 1;
        }
        b = b + 1;
    }
    Ok(spins)
}

/// On a representable problem both views compute the same gains.
proof fn lemma_gains_agree(g: IsingGraph, spins: Seq<i8>, v: int)
    requires
        representable(g),
        0 <= v < g.h@.len(),
        lattice(g).fits_spins(spins),
    ensures
        lattice(g).gain(spins, v) == 1000 * unit_lattice(g).gain(spins, v),
{
    integer_view_keeps_every_field(g, spins, v);
}

/// The two exponents of a flip, from thousandths and from whole units, are the
/// same number on every rung and for every field that can occur.
pub open spec fn exponents_agree<R: Scalar>(ladder: Seq<R>, top: int) -> bool {
    forall|b: int, n: int|
        0 <= b < ladder.len() && 0 < n <= top ==> #[trigger] level_exponent(ladder[b], n as nat)
            == uphill_exponent(ladder[b], 1000 * n)
}

/// The integer kernel is not another sampler: on the same words its sweep takes
/// exactly the flips of the general kernel.
pub proof fn integer_sweep_matches_the_general_one<R: Scalar, E: Fn(R) -> R, B: Fn(u64, R) -> bool>(
    odds: Odds<R, E, B>,
    g: IsingGraph,
    table: Seq<R>,
    b: int,
    words: Seq<u64>,
    before: Seq<i8>,
    one: Seq<i8>,
    two: Seq<i8>,
)
    requires
        representable(g),
        odds.steady(),
        exponents_agree(odds.ladder@, max_reach(unit_lattice(g), g.h@.len() as int)),
        holds_chances(
            odds,
            odds.ladder@.len() as int,
            max_reach(unit_lattice(g), g.h@.len() as int) + 1,
            table,
        ),
        0 <= b < odds.ladder@.len(),
        lattice(g).fits_spins(before),
        sweep_on(odds, lattice(g), b, words, before, one),
        row_sweep_on(
            odds.below,
            unit_lattice(g),
            table,
            max_reach(unit_lattice(g), g.h@.len() as int) + 1,
            b,
            words,
            before,
            two,
        ),
    ensures
        one == two,
        lattice(g).fits_spins(one),
{
    let l = lattice(g);
    let m = unit_lattice(g);
    let n = l.h.len() as int;
    let top = max_reach(m, n);
    let ans = odds.answers(b);
    let other = row_answers(odds.below, table, top + 1, b);
    unit_lattice_is_wf(g);
    assert forall|spins: Seq<i8>, v: int|
        l.fits_spins(spins) && 0 <= v < l.h.len() implies #[trigger] l.gain(spins, v) == 1000
        * m.gain(spins, v) by {
        lemma_gains_agree(g, spins, v);
    }
    assert forall|spins: Seq<i8>, v: int, word: u64, y: bool, z: bool|
        l.fits_spins(spins) && 0 <= v < l.h.len() && #[trigger] m.gain(spins, v) < 0
            && #[trigger] ans(-l.gain(spins, v), word, y) && #[trigger] other(
            -m.gain(spins, v),
            word,
            z,
        ) implies y == z by {
        lemma_gains_agree(g, spins, v);
        max_reach_bounds_every_field(m, spins, v);
        let size = -m.gain(spins, v);
        assert(0 < size <= top);
        let p = cell(table, top + 1, b, size);
        assert(is_chance(odds, b, size, p));
        assert(level_exponent(odds.ladder@[b], size as nat) == uphill_exponent(
            odds.ladder@[b],
            1000 * size,
        ));
        assert(odds.accepts(b, 1000 * size, word, y));
        let q = choose|q: R| #[trigger]
            call_ensures(odds.exp, (uphill_exponent(odds.ladder@[b], 1000 * size),), q)
                && call_ensures(odds.below, (draw_of(word), q), y);
        assert(p == q);
    }
    let y = choose|yes: Seq<bool>| #[trigger]
        decided(ans, l, before, yes, words, n) && one == full_sweep(
            l,
            before,
            metropolis_rule(yes),
        );
    let z = choose|yes: Seq<bool>| #[trigger]
        decided(other, m, before, yes, words, n) && two == full_sweep(
            m,
            before,
            metropolis_rule(yes),
        );
    lemma_decided_alike(ans, other, l, m, 1000, before, y, z, words, n);
    lemma_sweep_fits(l, before, ascending(n), n, metropolis_rule(y));
}

/// Run for run: from the same spins and on the same words the integer kernel and
/// the general kernel pass through the same spins.
pub proof fn integer_run_matches_the_general_one<R: Scalar, E: Fn(R) -> R, B: Fn(u64, R) -> bool>(
    odds: Odds<R, E, B>,
    g: IsingGraph,
    table: Seq<R>,
    per: int,
    words: Seq<Seq<u64>>,
    one: Seq<Seq<i8>>,
    two: Seq<Seq<i8>>,
    t: int,
)
    requires
        representable(g),
        odds.steady(),
        exponents_agree(odds.ladder@, max_reach(unit_lattice(g), g.h@.len() as int)),
        holds_chances(
            odds,
            odds.ladder@.len() as int,
            max_reach(unit_lattice(g), g.h@.len() as int) + 1,
            table,
        ),
        per > 0,
        lattice(g).fits_spins(one[0]),
        one[0] == two[0],
        0 <= t < one.len(),
        t < two.len(),
        t <= odds.ladder@.len() * per,
        forall|k: int|
            0 <= k < t ==> sweep_on(
                odds,
                lattice(g),
                k / per,
                words[k],
                #[trigger] one[k],
                one[k + 1],
            ),
        forall|k: int|
            0 <= k < t ==> row_sweep_on(
                odds.below,
                unit_lattice(g),
                table,
                max_reach(unit_lattice(g), g.h@.len() as int) + 1,
                k / per,
                words[k],
                #[trigger] two[k],
                two[k + 1],
            ),
    ensures
        one[t] == two[t],
        lattice(g).fits_spins(one[t]),
    decreases t,
{
    if t > 0 {
        integer_run_matches_the_general_one(odds, g, table, per, words, one, two, t - 1);
        let k = t - 1;
        assert(0 <= k / per < odds.ladder@.len()) by (nonlinear_arith)
            requires
                0 <= k < odds.ladder@.len() * per,
                per > 0,
        ;
        assert(one[k] == two[k]);
        assert(sweep_on(odds, lattice(g), k / per, words[k], one[k], one[k + 1]));
        integer_sweep_matches_the_general_one(
            odds,
            g,
            table,
            k / per,
            words[k],
            one[k],
            one[t],
            two[t],
        );
    }
}

/// A shift moves the row along the nodes: node `v` reads what node `v + off` reads
/// of the row as it stands.
pub proof fn a_shift_moves_the_row_along_the_nodes(row: Seq<u8>, off: int, v: int, gain: int)
    requires
        row.len() > 0,
        0 <= v,
        0 <= off,
    ensures
        threshold_rule(row, off)(v, gain) == threshold_rule(row, 0)(v + off, gain),
        threshold_rule(row, off)(v, gain) == threshold_rule(row, off + row.len())(v, gain),
        v + off < row.len() ==> (threshold_rule(row, off)(v, gain) <==> 0 <= gain + row[v + off]),
{
    let n = row.len() as int;
    vstd::arithmetic::div_mod::lemma_mod_add_multiples_vanish(v + off, n);
    if v + off < n {
        vstd::arithmetic::div_mod::lemma_small_mod((v + off) as nat, n as nat);
    }
}

/// A tabulated flip follows the level of its field: against a field of size `n`
/// node `v` flips exactly where the word behind its threshold lies below level `n`
/// of the rung, and a flip that nothing opposes is always taken.
pub proof fn a_tabulated_flip_follows_its_level(
    cut: Seq<u64>,
    log: Seq<Draw>,
    from: int,
    row: Seq<u8>,
    off: int,
    v: int,
    n: int,
    gain: int,
    word: u64,
)
    requires
        row_on(cut, log, from, row),
        forall|i: int, j: int| 1 <= i <= j < cut.len() ==> cut[j] <= cut[i],
        0 <= v,
        0 <= off,
        1 <= n < cut.len(),
        0 <= gain,
        log[from + (v + off) % 8192] == Draw::Word(word),
    ensures
        threshold_rule(row, off)(v, -n) <==> word < cut[n],
        threshold_rule(row, off)(v, gain),
{
    let i = (v + off) % 8192;
    assert(0 <= i < 8192);
    assert(threshold_on(cut, log[from + i], row[i]));
    threshold_decides_like_the_level(cut, word, row[i], n);
}

} // verus!
