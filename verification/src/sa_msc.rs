//! Multi-spin coded annealing.
//!
//! One word holds the same spin across 64 independent replicas, so a single
//! stream of bitwise instructions advances 64 annealing runs at once. Bit `r`
//! of word `i` is node `i` in replica `r`. A clear bit means spin `+1` and a set
//! bit means spin `-1`.
//!
//! A bond is satisfied in a replica when it lowers the energy there. A node
//! with `d` bonds of which `L` are satisfied has a field of `d - 2L` along its
//! own spin, and a field bias of one unit enters as one more bond to a spin
//! pinned at `+1`. The flip test `d - 2L >= -M` is then the comparison
//! `L <= (d + M) / 2` of a bit-sliced count with a scalar.
use rand::rngs::SmallRng;
use quip_solver_core::CancelToken;
use vstd::arithmetic::power2::{lemma2_to64, lemma_pow2_pos, pow2};
use vstd::prelude::*;

use crate::coloring::Coloring;
use crate::ising::{flipped, row_field, signed, valid_spins, Bond, Lattice};
use crate::mix::{splitmix, splitmix64, splitmix_is_one_to_one};
use crate::planes::{
    add_plane, bit, count_at, le_constant, lemma_constant_lanes, lemma_lanes, ones_at, popcount21,
    MAX_DEGREE,
};
use crate::rng::{
    drawn_from, may_cancel, poll, seeded, streams, Draw, SampleCancelled, Source,
};
use crate::sa_int::{
    annealed, draw_words, drawn_row, lemma_row_extends, max_reach_bounds_every_field, next_row,
    row_on, rung_row, shift_at, threshold_rule, unpack, words_on, IntGraph, DRAW_ROW, NODE_BITS,
    SIGN_BIT,
};
use crate::sampler_core::{at_least_one, or_one};
use crate::sweep::{full_sweep, sweep, Rule};

verus! {

/// Neighbors that the carry-save counter takes. The bias bond, if there is one,
/// occupies the input after them.
pub const CSA_NEIGHBORS: usize = 20;

/// Spin words of one block of 64 replicas.
pub struct MscState {
    /// Bit `r` of `spin[i]` is node `i` of replica `r`; clear is `+1`.
    spin: Vec<u64>,
}

/// The spins of replica `lane`.
pub open spec fn lane_spins(spin: Seq<u64>, lane: u64) -> Seq<i8> {
    Seq::new(
        spin.len(),
        |i: int|
            if bit(spin[i], lane) == 0 {
                1i8
            } else {
                -1i8
            },
    )
}

impl View for MscState {
    type V = Seq<u64>;

    closed spec fn view(&self) -> Seq<u64> {
        self.spin@
    }
}

impl MscState {
    /// A block with these spin words.
    pub fn from_words(spin: Vec<u64>) -> (s: Self)
        ensures
            s@ == spin@,
    {
        MscState { spin }
    }

    /// Random initial configurations, one word per node.
    pub fn random(n: usize, rng: &mut SmallRng) -> (s: Self)
        ensures
            s@.len() == n,
            exists|log: Seq<Draw>| #[trigger]
                streams(*old(rng), log, *final(rng)) && log.len() == n && words_on(log, 0, s@),
    {
        let mut src = Source::taken(rng);
        let spin = draw_words(n, &mut src);
        src.give_back(rng);
        MscState { spin }
    }

    /// The spin words.
    pub fn words(&self) -> (r: &Vec<u64>)
        ensures
            r@ == self@,
    {
        &self.spin
    }

    /// Replica `lane` as spins.
    pub fn lane(&self, lane: usize) -> (r: Vec<i8>)
        requires
            lane < 64,
        ensures
            r@ == lane_spins(self@, lane as u64),
            valid_spins(r@),
    {
        let mut r: Vec<i8> = Vec::with_capacity(self.spin.len());
        let mut i: usize = 0;
        while i < self.spin.len()
            invariant
                lane < 64,
                i <= self.spin@.len(),
                r@ == lane_spins(self.spin@, lane as u64).take(i as int),
            decreases self.spin@.len() - i,
        {
            let w: u64 = self.spin[i];
            assert((w >> (lane as u64)) & 1 == 0 || (w >> (lane as u64)) & 1 == 1) by (bit_vector);
            if (w >> (lane as u64)) & 1 == 0 {
                r.push(1);
            } else {
                r.push(-1);
            }
            i = i + 1;
            assert(r@ =~= lane_spins(self.spin@, lane as u64).take(i as int));
        }
        assert(lane_spins(self.spin@, lane as u64).take(self.spin@.len() as int) =~= lane_spins(
            self.spin@,
            lane as u64,
        ));
        r
    }
}

/// Bonds at node `v`, with one more for a bias.
pub open spec fn bond_total(l: Lattice, v: int) -> int {
    l.rows[v].len() + if l.h[v] != 0 {
        1int
    } else {
        0
    }
}

/// Every bias is at most one unit and every bond count fits the planes.
pub open spec fn packable(l: Lattice) -> bool {
    forall|v: int|
        0 <= v < l.h.len() ==> -1 <= #[trigger] l.h[v] <= 1 && bond_total(l, v) <= MAX_DEGREE
}

/// `counts` holds the bond total of every node of a packable lattice.
pub open spec fn counts_bonds(l: Lattice, counts: Seq<u8>) -> bool {
    &&& packable(l)
    &&& counts.len() == l.h.len()
    &&& forall|v: int| 0 <= v < counts.len() ==> #[trigger] counts[v] == bond_total(l, v)
}

/// The bond total of every node, or `None` when the planes cannot hold one or a
/// bias is larger than a single bond.
pub fn bond_counts(graph: &IntGraph) -> (r: Option<Vec<u8>>)
    requires
        graph.wf(),
    ensures
        r is Some <==> packable(graph@),
        r matches Some(counts) ==> counts_bonds(graph@, counts@),
{
    let n: usize = graph.num_nodes();
    let ghost l = graph@;
    let mut counts: Vec<u8> = Vec::with_capacity(n);
    let mut v: usize = 0;
    while v < n
        invariant
            graph.wf(),
            l == graph@,
            n == l.h.len(),
            v <= n,
            counts@.len() == v,
            forall|w: int|
                0 <= w < v ==> -1 <= #[trigger] l.h[w] <= 1 && bond_total(l, w) <= MAX_DEGREE,
            forall|w: int| 0 <= w < v ==> #[trigger] counts@[w] == bond_total(l, w),
        decreases n - v,
    {
        let h: i8 = graph.bias(v);
        if h < -1 || h > 1 {
            assert(!(-1 <= l.h[v as int] <= 1));
            return None;
        }
        let degree: usize = graph.neighbors(v).len();
        let ghost total = bond_total(l, v as int);
        assert(l.h[v as int] == h);
        if degree > MAX_DEGREE || (h != 0 && degree >= MAX_DEGREE) {
            return None;
        }
        let d: usize = if h != 0 {
            degree + 1
        } else {
            degree
        };
        counts.push(d as u8);
        v = v + 1;
    }
    Some(counts)
}

/// The word that marks where the bond of packed entry `e` is satisfied, for a
/// node with spin word `bi`.
pub open spec fn bond_word(e: u32, bi: u64, spin: Seq<u64>) -> u64 {
    (if e & SIGN_BIT != 0 {
        u64::MAX
    } else {
        0
    }) ^ bi ^ spin[(e & NODE_BITS) as int]
}

/// The word that marks where a bias of sign `h` is satisfied.
pub open spec fn bias_word(h: int, bi: u64) -> u64 {
    if h < 0 {
        !bi
    } else if h > 0 {
        bi
    } else {
        0
    }
}

/// Satisfied bonds among the first `k` entries of `nbrs` in replica `lane`.
pub open spec fn satisfied_upto(
    nbrs: Seq<u32>,
    bi: u64,
    spin: Seq<u64>,
    lane: u64,
    k: int,
) -> int
    decreases k,
{
    if k <= 0 {
        0
    } else {
        satisfied_upto(nbrs, bi, spin, lane, k - 1) + bit(bond_word(nbrs[k - 1], bi, spin), lane)
    }
}

/// Satisfied bonds in replica `lane`, the bias bond among them.
pub open spec fn satisfied(nbrs: Seq<u32>, h: int, bi: u64, spin: Seq<u64>, lane: u64) -> int {
    satisfied_upto(nbrs, bi, spin, lane, nbrs.len() as int) + bit(bias_word(h, bi), lane)
}

/// A bond lowers the energy by one where it is satisfied and raises it by one
/// elsewhere.
proof fn lemma_bond_bit(e: u32, bi: u64, spin: Seq<u64>, lane: u64)
    requires
        lane < 64,
    ensures
        1 - 2 * bit(bond_word(e, bi, spin), lane) == signed(
            signed(
                unpack(e).coup,
                if bit(spin[unpack(e).node], lane) == 0 {
                    1i8
                } else {
                    -1i8
                },
            ),
            if bit(bi, lane) == 0 {
                1i8
            } else {
                -1i8
            },
        ),
{
    let sign: u64 = if e & SIGN_BIT != 0 {
        u64::MAX
    } else {
        0
    };
    let other = spin[(e & NODE_BITS) as int];
    lemma_constant_lanes(lane);
    lemma_lanes(sign, bi, lane);
    lemma_lanes(sign ^ bi, other, lane);
}

/// The field along a node's own spin is its bond count less twice the
/// satisfied bonds.
proof fn lemma_row_bits(
    row: Seq<Bond>,
    nbrs: Seq<u32>,
    bi: u64,
    spin: Seq<u64>,
    lane: u64,
    k: int,
)
    requires
        lane < 64,
        0 <= k <= row.len(),
        row.len() == nbrs.len(),
        forall|i: int| 0 <= i < nbrs.len() ==> unpack(#[trigger] nbrs[i]) == row[i],
        forall|i: int| 0 <= i < row.len() ==> 0 <= (#[trigger] row[i]).node < spin.len(),
    ensures
        signed(
            row_field(row.take(k), lane_spins(spin, lane)),
            if bit(bi, lane) == 0 {
                1i8
            } else {
                -1i8
            },
        ) == k - 2 * satisfied_upto(nbrs, bi, spin, lane, k),
    decreases k,
{
    if k > 0 {
        lemma_row_bits(row, nbrs, bi, spin, lane, k - 1);
        assert(row.take(k).drop_last() =~= row.take(k - 1));
        assert(row.take(k).last() == row[k - 1]);
        assert(unpack(nbrs[k - 1]) == row[k - 1]);
        lemma_bond_bit(nbrs[k - 1], bi, spin, lane);
    } else {
        assert(row.take(0) =~= Seq::<Bond>::empty());
    }
}

/// The gain of `var` in replica `lane`.
proof fn lemma_lane_gain(l: Lattice, nbrs: Seq<u32>, spin: Seq<u64>, var: int, lane: u64)
    requires
        lane < 64,
        l.wf(),
        0 <= var < l.h.len(),
        spin.len() == l.h.len(),
        -1 <= l.h[var] <= 1,
        nbrs.len() == l.rows[var].len(),
        forall|i: int| 0 <= i < nbrs.len() ==> unpack(#[trigger] nbrs[i]) == l.rows[var][i],
    ensures
        l.gain(lane_spins(spin, lane), var) == bond_total(l, var) - 2 * satisfied(
            nbrs,
            l.h[var],
            spin[var],
            spin,
            lane,
        ),
{
    let row = l.rows[var];
    assert forall|i: int| 0 <= i < row.len() implies 0 <= (#[trigger] row[i]).node < spin.len() by {
        assert(0 <= l.rows[var][i].node < l.rows.len());
    }
    lemma_row_bits(row, nbrs, spin[var], spin, lane, row.len() as int);
    assert(row.take(row.len() as int) =~= row);
    lemma_constant_lanes(lane);
    lemma_lanes(spin[var], spin[var], lane);
}

/// The word where the bond of entry `e` is satisfied.
fn bond_bits(e: u32, bi: u64, spin: &Vec<u64>) -> (w: u64)
    requires
        unpack(e).node < spin@.len(),
    ensures
        w == bond_word(e, bi, spin@),
{
    let top: u32 = e >> 31;
    assert(e >> 31 == if e & 0x8000_0000u32 != 0 {
        1u32
    } else {
        0u32
    }) by (bit_vector);
    let sign: u64 = 0u64.wrapping_sub(top as u64);
    sign ^ bi ^ spin[(e & NODE_BITS) as usize]
}

/// The word where a bias of sign `h` is satisfied.
fn bias_bits(h: i8, bi: u64) -> (w: u64)
    ensures
        w == bias_word(h as int, bi),
{
    if h < 0 {
        !bi
    } else if h > 0 {
        bi
    } else {
        0
    }
}

/// Bit-sliced satisfied-bond count of a node with at most 20 neighbors.
pub fn count_planes_csa(nbrs: &[u32], h: i8, bi: u64, spin: &Vec<u64>) -> (planes: [u64; 6])
    requires
        nbrs@.len() <= CSA_NEIGHBORS,
        forall|i: int| 0 <= i < nbrs@.len() ==> unpack(#[trigger] nbrs@[i]).node < spin@.len(),
    ensures
        forall|lane: u64|
            lane < 64 ==> #[trigger] count_at(planes@, lane) == satisfied(
                nbrs@,
                h as int,
                bi,
                spin@,
                lane,
            ),
{
    let mut x: [u64; 21] = [0;21];
    let mut q: usize = 0;
    while q < nbrs.len()
        invariant
            nbrs@.len() <= CSA_NEIGHBORS,
            q <= nbrs@.len(),
            forall|i: int| 0 <= i < nbrs@.len() ==> unpack(#[trigger] nbrs@[i]).node < spin@.len(),
            forall|i: int| 0 <= i < q ==> #[trigger] x@[i] == bond_word(nbrs@[i], bi, spin@),
            forall|i: int| q <= i < 21 ==> #[trigger] x@[i] == 0,
        decreases nbrs@.len() - q,
    {
        x[q] = bond_bits(nbrs[q], bi, spin);
        q = q + 1;
    }
    x[20] = bias_bits(h, bi);
    let planes = popcount21(&x);
    proof {
        assert forall|lane: u64| lane < 64 implies #[trigger] count_at(planes@, lane) == satisfied(
            nbrs@,
            h as int,
            bi,
            spin@,
            lane,
        ) by {
            lemma_padded_sum(x@, nbrs@, bi, spin@, lane, 20);
            assert(x@.take(21) =~= x@);
            assert(x@.drop_last() =~= x@.take(20));
        }
    }
    planes
}

/// Zero words past the neighbors add nothing to the count.
proof fn lemma_padded_sum(
    x: Seq<u64>,
    nbrs: Seq<u32>,
    bi: u64,
    spin: Seq<u64>,
    lane: u64,
    k: int,
)
    requires
        lane < 64,
        x.len() == 21,
        nbrs.len() <= 20,
        0 <= k <= 20,
        forall|i: int|
            0 <= i < nbrs.len() ==> #[trigger] x[i] == bond_word(nbrs[i], bi, spin),
        forall|i: int| nbrs.len() <= i < 20 ==> #[trigger] x[i] == 0,
    ensures
        ones_at(x.take(k), lane) == satisfied_upto(
            nbrs,
            bi,
            spin,
            lane,
            if k < nbrs.len() {
                k
            } else {
                nbrs.len() as int
            },
        ),
    decreases k,
{
    if k > 0 {
        lemma_padded_sum(x, nbrs, bi, spin, lane, k - 1);
        assert(x.take(k).drop_last() =~= x.take(k - 1));
        lemma_constant_lanes(lane);
    }
}

/// Bit-sliced satisfied-bond count by ripple carries.
pub fn count_planes_ripple(nbrs: &[u32], h: i8, bi: u64, spin: &Vec<u64>) -> (planes: [u64; 6])
    requires
        nbrs@.len() + (if h != 0 {
            1int
        } else {
            0
        }) <= MAX_DEGREE,
        forall|i: int| 0 <= i < nbrs@.len() ==> unpack(#[trigger] nbrs@[i]).node < spin@.len(),
    ensures
        forall|lane: u64|
            lane < 64 ==> #[trigger] count_at(planes@, lane) == satisfied(
                nbrs@,
                h as int,
                bi,
                spin@,
                lane,
            ),
{
    let mut planes: [u64; 6] = [0;6];
    let mut filled: usize = 0;
    proof {
        assert forall|lane: u64| lane < 64 implies #[trigger] count_at(planes@, lane) == 0 by {
            crate::planes::lemma_count_expand(planes@, lane);
            lemma_constant_lanes(lane);
        }
    }
    if h != 0 {
        add_plane(&mut planes, &mut filled, bias_bits(h, bi));
    } else {
        proof {
            assert forall|lane: u64| lane < 64 implies #[trigger] count_at(planes@, lane) == bit(
                bias_word(h as int, bi),
                lane,
            ) by {
                lemma_constant_lanes(lane);
            }
        }
    }
    let ghost base = filled as int;
    let mut i: usize = 0;
    while i < nbrs.len()
        invariant
            i <= nbrs@.len(),
            base <= 1,
            filled == base + i,
            base + nbrs@.len() <= MAX_DEGREE,
            forall|k: int| 0 <= k < nbrs@.len() ==> unpack(#[trigger] nbrs@[k]).node < spin@.len(),
            forall|lane: u64|
                lane < 64 ==> #[trigger] count_at(planes@, lane) == satisfied_upto(
                    nbrs@,
                    bi,
                    spin@,
                    lane,
                    i as int,
                ) + bit(bias_word(h as int, bi), lane),
            forall|lane: u64| lane < 64 ==> #[trigger] count_at(planes@, lane) <= filled,
            forall|lane: u64| lane < 64 ==> 0 <= #[trigger] count_at(planes@, lane),
        decreases nbrs@.len() - i,
    {
        let w: u64 = bond_bits(nbrs[i], bi, spin);
        add_plane(&mut planes, &mut filled, w);
        i = i + 1;
    }
    planes
}

/// Bit-sliced satisfied-bond count of `var` for every replica.
///
/// At most 20 neighbors and one bias bond use the carry-save counter, wider
/// neighborhoods the ripple counter.
pub fn count_planes(graph: &IntGraph, var: usize, bi: u64, spin: &Vec<u64>) -> (planes: [u64; 6])
    requires
        graph.wf(),
        packable(graph@),
        var < graph@.h.len(),
        spin@.len() == graph@.h.len(),
        bi == spin@[var as int],
    ensures
        forall|lane: u64|
            lane < 64 ==> bond_total(graph@, var as int) - 2 * #[trigger] count_at(planes@, lane)
                == graph@.gain(lane_spins(spin@, lane), var as int),
{
    let nbrs = graph.neighbors(var);
    let h: i8 = graph.bias(var);
    let ghost l = graph@;
    proof {
        graph.lemma_lattice();
        assert forall|i: int| 0 <= i < nbrs@.len() implies unpack(#[trigger] nbrs@[i]).node
            < spin@.len() by {
            assert(unpack(nbrs@[i]) == l.rows[var as int][i]);
        }
        assert(-1 <= l.h[var as int] <= 1);
    }
    let planes = if nbrs.len() <= CSA_NEIGHBORS {
        count_planes_csa(nbrs, h, bi, spin)
    } else {
        count_planes_ripple(nbrs, h, bi, spin)
    };
    proof {
        assert forall|lane: u64| lane < 64 implies bond_total(l, var as int) - 2
            * #[trigger] count_at(planes@, lane) == l.gain(lane_spins(spin@, lane), var as int) by {
            lemma_lane_gain(l, nbrs@, spin@, var as int, lane);
        }
    }
    planes
}

/// Node ids as a visiting order.
pub open spec fn visit_order(nodes: Seq<u32>) -> Seq<int> {
    Seq::new(nodes.len(), |i: int| nodes[i] as int)
}

/// `n` is a power of two of 64 bits.
pub open spec fn is_power_of_two(n: nat) -> bool {
    exists|e: nat| e < 64 && n == #[trigger] pow2(e)
}

/// The length of a drawn row is a power of two.
proof fn lemma_draw_row()
    ensures
        is_power_of_two(DRAW_ROW as nat),
{
    lemma2_to64();
    assert(pow2(13) == 8192);
}

/// `x` modulo a power of two.
fn wrapped(x: usize, n: usize) -> (r: usize)
    requires
        is_power_of_two(n as nat),
    ensures
        r == x as int % n as int,
        r < n,
{
    proof {
        let e = choose|e: nat| e < 64 && n as nat == #[trigger] pow2(e);
        vstd::bits::lemma_u64_low_bits_mask_is_mod(x as u64, e);
        lemma_pow2_pos(e);
    }
    let mask: u64 = (n - 1) as u64;
    ((x as u64) & mask) as usize
}

/// Update the nodes of one class in one block from a shared threshold row.
///
/// In every replica this is a scalar sweep over the same nodes with the same
/// thresholds.
pub fn sweep_word(
    graph: &IntGraph,
    counts: &Vec<u8>,
    row: &Vec<u8>,
    nodes: &Vec<u32>,
    off: usize,
    state: &mut MscState,
)
    requires
        graph.wf(),
        counts_bonds(graph@, counts@),
        is_power_of_two(row@.len()),
        forall|i: int| 0 <= i < nodes@.len() ==> #[trigger] nodes@[i] < graph@.h.len(),
        off + graph@.h.len() <= usize::MAX,
        old(state)@.len() == graph@.h.len(),
    ensures
        final(state)@.len() == graph@.h.len(),
        forall|lane: u64|
            lane < 64 ==> #[trigger] lane_spins(final(state)@, lane) == sweep(
                graph@,
                lane_spins(old(state)@, lane),
                visit_order(nodes@),
                nodes@.len() as int,
                threshold_rule(row@, off as int),
            ),
{
    let ghost l = graph@;
    let ghost before = state@;
    let ghost rule = threshold_rule(row@, off as int);
    let mut i: usize = 0;
    while i < nodes.len()
        invariant
            graph.wf(),
            l == graph@,
            counts_bonds(l, counts@),
            is_power_of_two(row@.len()),
            forall|i: int| 0 <= i < nodes@.len() ==> #[trigger] nodes@[i] < l.h.len(),
            off + l.h.len() <= usize::MAX,
            rule == threshold_rule(row@, off as int),
            i <= nodes@.len(),
            state@.len() == l.h.len(),
            forall|lane: u64|
                lane < 64 ==> #[trigger] lane_spins(state@, lane) == sweep(
                    l,
                    lane_spins(before, lane),
                    visit_order(nodes@),
                    i as int,
                    rule,
                ),
        decreases nodes@.len() - i,
    {
        let var: usize = nodes[i] as usize;
        let d: usize = counts[var] as usize;
        let at: usize = wrapped(var + off, row.len());
        let m: usize = row[at] as usize;
        let ghost here = state@;
        let bi: u64 = state.spin[var];
        // With the threshold at or above the bond count every replica accepts
        // and the satisfied bonds need no counting.
        let mask: u64 = if m >= d {
            u64::MAX
        } else {
            let planes = count_planes(graph, var, bi, &state.spin);
            let accept: u64 = le_constant(&planes, (d + m) / 2);
            proof {
                assert forall|lane: u64| lane < 64 implies (bit(accept, lane) == 1 <==> rule(
                    var as int,
                    #[trigger] l.gain(lane_spins(here, lane), var as int),
                )) by {
                    assert(bond_total(l, var as int) - 2 * count_at(planes@, lane) == l.gain(
                        lane_spins(here, lane),
                        var as int,
                    ));
                }
            }
            accept
        };
        proof {
            graph.lemma_lattice();
            assert forall|lane: u64| lane < 64 implies (bit(mask, lane) == 1 <==> rule(
                var as int,
                #[trigger] l.gain(lane_spins(here, lane), var as int),
            )) by {
                lemma_constant_lanes(lane);
                max_reach_bounds_every_field(l, lane_spins(here, lane), var as int);
                assert(-1 <= l.h[var as int] <= 1);
            }
        }
        state.spin[var] = bi ^ mask;
        proof {
            assert forall|lane: u64| lane < 64 implies #[trigger] lane_spins(state@, lane) == sweep(
                l,
                lane_spins(before, lane),
                visit_order(nodes@),
                i as int + 1,
                rule,
            ) by {
                lemma_flip_lane(here, var as int, mask, lane);
                assert(lane_spins(here, lane) == sweep(
                    l,
                    lane_spins(before, lane),
                    visit_order(nodes@),
                    i as int,
                    rule,
                ));
                assert(visit_order(nodes@)[i as int] == var);
                let g = l.gain(lane_spins(here, lane), var as int);
            }
        }
        i = i + 1;
    }
}

/// Exclusive or with a mask flips the spin in the masked replicas.
proof fn lemma_flip_lane(spin: Seq<u64>, var: int, mask: u64, lane: u64)
    requires
        lane < 64,
        0 <= var < spin.len(),
    ensures
        lane_spins(spin.update(var, spin[var] ^ mask), lane) == if bit(mask, lane) == 1 {
            flipped(lane_spins(spin, lane), var)
        } else {
            lane_spins(spin, lane)
        },
{
    lemma_lanes(spin[var], mask, lane);
    if bit(mask, lane) == 1 {
        assert(lane_spins(spin.update(var, spin[var] ^ mask), lane) =~= flipped(
            lane_spins(spin, lane),
            var,
        ));
    } else {
        assert(lane_spins(spin.update(var, spin[var] ^ mask), lane) =~= lane_spins(spin, lane));
    }
}

/// Salt of the stream that the threshold rows are drawn from.
pub const TABLE_SALT: u64 = 0x5341_5F54_424C_4531;

/// The shift that every replica block uses in one sweep.
pub open spec fn shift_of(seed: u64, beta_idx: u64, sweep_no: u64) -> u64 {
    splitmix(seed ^ (beta_idx << 20) ^ sweep_no) % 8192
}

/// The shift that every replica block uses in one sweep of one rung.
pub fn sweep_offset(seed: u64, beta_idx: usize, sweep_no: usize) -> (off: usize)
    ensures
        off == shift_of(seed, beta_idx as u64, sweep_no as u64),
        off < DRAW_ROW,
{
    let x: u64 = splitmix64(seed ^ ((beta_idx as u64) << 20) ^ (sweep_no as u64));
    assert(x & 8191 == x % 8192) by (bit_vector);
    (x & 8191) as usize
}

/// The word that the shift of one sweep of one rung is cut from.
pub open spec fn shift_word(seed: u64, beta_idx: u64, sweep_no: u64) -> u64 {
    splitmix(seed ^ (beta_idx << 20) ^ sweep_no)
}

/// Every sweep has a shift of its own: no two sweeps of a job, of one rung or of
/// two, cut their shifts from one word, nor do equal sweeps of jobs with different
/// seeds. This holds for rungs of fewer than 2^20 sweeps.
pub proof fn shifts_are_cut_from_different_words(
    seed: u64,
    other_seed: u64,
    b: u64,
    k: u64,
    other_b: u64,
    other_k: u64,
)
    requires
        b < 0x1000_0000_0000,
        other_b < 0x1000_0000_0000,
        k < 0x10_0000,
        other_k < 0x10_0000,
    ensures
        shift_of(seed, b, k) == shift_word(seed, b, k) % 8192,
        b != other_b || k != other_k ==> shift_word(seed, b, k) != shift_word(
            seed,
            other_b,
            other_k,
        ),
        seed != other_seed ==> shift_word(seed, b, k) != shift_word(other_seed, b, k),
{
    let one = seed ^ (b << 20) ^ k;
    let two = seed ^ (other_b << 20) ^ other_k;
    let far = other_seed ^ (b << 20) ^ k;
    assert(b != other_b || k != other_k ==> one != two) by (bit_vector)
        requires
            one == seed ^ (b << 20) ^ k,
            two == seed ^ (other_b << 20) ^ other_k,
            b < 0x1000_0000_0000u64,
            other_b < 0x1000_0000_0000u64,
            k < 0x10_0000u64,
            other_k < 0x10_0000u64,
    ;
    assert(seed != other_seed ==> one != far) by (bit_vector)
        requires
            one == seed ^ (b << 20) ^ k,
            far == other_seed ^ (b << 20) ^ k,
    ;
    if one != two {
        splitmix_is_one_to_one(one, two);
    }
    if one != far {
        splitmix_is_one_to_one(one, far);
    }
}

/// The spins after the first `c` classes of one sweep.
pub open spec fn color_sweep(
    l: Lattice,
    spins: Seq<i8>,
    classes: Seq<Seq<u32>>,
    c: int,
    rule: Rule,
) -> Seq<i8>
    decreases c,
{
    if c <= 0 {
        spins
    } else {
        sweep(
            l,
            color_sweep(l, spins, classes, c - 1, rule),
            visit_order(classes[c - 1]),
            classes[c - 1].len() as int,
            rule,
        )
    }
}

/// The spins of one replica after `k` sweeps of rung `b`.
pub open spec fn color_rung(
    l: Lattice,
    spins: Seq<i8>,
    classes: Seq<Seq<u32>>,
    row: Seq<u8>,
    seed: u64,
    b: nat,
    k: nat,
) -> Seq<i8>
    decreases k,
{
    if k == 0 {
        spins
    } else {
        color_sweep(
            l,
            color_rung(l, spins, classes, row, seed, b, (k - 1) as nat),
            classes,
            classes.len() as int,
            threshold_rule(row, shift_of(seed, b as u64, (k - 1) as u64) as int),
        )
    }
}

/// The spins of one replica after `b` rungs of `per` sweeps each, with one
/// threshold row per rung.
pub open spec fn color_annealed(
    l: Lattice,
    spins: Seq<i8>,
    classes: Seq<Seq<u32>>,
    rows: Seq<Seq<u8>>,
    seed: u64,
    per: nat,
    b: nat,
) -> Seq<i8>
    decreases b,
{
    if b == 0 {
        spins
    } else {
        color_rung(
            l,
            color_annealed(l, spins, classes, rows, seed, per, (b - 1) as nat),
            classes,
            rows[b - 1],
            seed,
            (b - 1) as nat,
            per,
        )
    }
}

/// Every block stands, in every replica, where `f` puts its start.
pub open spec fn blocks_at(
    states: Seq<MscState>,
    starts: Seq<MscState>,
    n: int,
    f: spec_fn(Seq<i8>) -> Seq<i8>,
) -> bool {
    &&& states.len() == starts.len()
    &&& forall|j: int| 0 <= j < states.len() ==> (#[trigger] states[j])@.len() == n
    &&& forall|j: int, lane: u64|
        #![trigger lane_spins(states[j]@, lane)]
        0 <= j < states.len() && lane < 64 ==> lane_spins(states[j]@, lane) == f(
            lane_spins(starts[j]@, lane),
        )
}

/// Advance every block by one sweep over all classes.
fn sweep_blocks(
    graph: &IntGraph,
    counts: &Vec<u8>,
    colors: &Coloring,
    row: &Vec<u8>,
    off: usize,
    states: &mut Vec<MscState>,
)
    requires
        graph.wf(),
        counts_bonds(graph@, counts@),
        colors.covers(graph@.h.len() as int),
        row@.len() == DRAW_ROW,
        off < DRAW_ROW,
        graph@.h.len() <= 0x7fff_ffff,
        forall|j: int| 0 <= j < old(states)@.len() ==> (#[trigger] old(states)@[j])@.len()
            == graph@.h.len(),
    ensures
        blocks_at(
            final(states)@,
            old(states)@,
            graph@.h.len() as int,
            |s: Seq<i8>|
                color_sweep(
                    graph@,
                    s,
                    colors@,
                    colors@.len() as int,
                    threshold_rule(row@, off as int),
                ),
        ),
{
    let ghost l = graph@;
    let ghost starts = states@;
    let ghost rule = threshold_rule(row@, off as int);
    let ghost n = l.h.len() as int;
    let classes = colors.classes();
    let mut c: usize = 0;
    while c < classes.len()
        invariant
            graph.wf(),
            l == graph@,
            n == l.h.len(),
            n <= 0x7fff_ffff,
            counts_bonds(l, counts@),
            colors.covers(n),
            row@.len() == DRAW_ROW,
            off < DRAW_ROW,
            rule == threshold_rule(row@, off as int),
            classes@.len() == colors@.len(),
            forall|d: int| 0 <= d < classes@.len() ==> (#[trigger] classes@[d])@ == colors@[d],
            c <= classes@.len(),
            blocks_at(
                states@,
                starts,
                n,
                |s: Seq<i8>| color_sweep(l, s, colors@, c as int, rule),
            ),
        decreases classes@.len() - c,
    {
        let ghost mid = states@;
        proof {
            assert forall|i: int| 0 <= i < classes@[c as int]@.len() implies #[trigger] classes@[
            c as int]@[i] < l.h.len() by {
                assert(colors@[c as int][i] < n);
            }
        }
        let mut j: usize = 0;
        while j < states.len()
            invariant
                graph.wf(),
                l == graph@,
                n == l.h.len(),
                n <= 0x7fff_ffff,
                counts_bonds(l, counts@),
                row@.len() == DRAW_ROW,
                off < DRAW_ROW,
                rule == threshold_rule(row@, off as int),
                c < classes@.len(),
                classes@[c as int]@ == colors@[c as int],
                forall|i: int|
                    0 <= i < classes@[c as int]@.len() ==> #[trigger] classes@[c as int]@[i]
                        < l.h.len(),
                states@.len() == mid.len(),
                mid.len() == starts.len(),
                j <= states@.len(),
                forall|i: int| 0 <= i < states@.len() ==> (#[trigger] states@[i])@.len() == n,
                forall|i: int| j <= i < states@.len() ==> #[trigger] states@[i] == mid[i],
                forall|i: int, lane: u64|
                    #![trigger lane_spins(states@[i]@, lane)]
                    0 <= i < j && lane < 64 ==> lane_spins(states@[i]@, lane) == sweep(
                        l,
                        lane_spins(mid[i]@, lane),
                        visit_order(colors@[c as int]),
                        colors@[c as int].len() as int,
                        rule,
                    ),
            decreases states@.len() - j,
        {
            let ghost prev = states@;
            proof {
                lemma_draw_row();
            }
            sweep_word(graph, counts, row, &classes[c], off, &mut states[j]);
            proof {
                assert forall|i: int, lane: u64|
                    #![trigger lane_spins(states@[i]@, lane)]
                    0 <= i < j + 1 && lane < 64 implies lane_spins(states@[i]@, lane) == sweep(
                    l,
                    lane_spins(mid[i]@, lane),
                    visit_order(colors@[c as int]),
                    colors@[c as int].len() as int,
                    rule,
                ) by {
                    if i < j {
                        assert(states@[i] == prev[i]);
                        assert(lane_spins(prev[i]@, lane) == sweep(
                            l,
                            lane_spins(mid[i]@, lane),
                            visit_order(colors@[c as int]),
                            colors@[c as int].len() as int,
                            rule,
                        ));
                    }
                }
            }
            j = j + 1;
        }
        proof {
            let f = |s: Seq<i8>| color_sweep(l, s, colors@, c as int, rule);
            let g = |s: Seq<i8>| color_sweep(l, s, colors@, c as int + 1, rule);
            assert forall|i: int, lane: u64|
                #![trigger lane_spins(states@[i]@, lane)]
                0 <= i < states@.len() && lane < 64 implies lane_spins(states@[i]@, lane) == g(
                lane_spins(starts[i]@, lane),
            ) by {
                assert(lane_spins(mid[i]@, lane) == f(lane_spins(starts[i]@, lane)));
            }
        }
        c = c + 1;
    }
}

/// Advance every block through the first sweeps of rung `b`, `sweeps` of them,
/// against one threshold row.
pub fn anneal_rung(
    graph: &IntGraph,
    counts: &Vec<u8>,
    colors: &Coloring,
    row: &Vec<u8>,
    seed: u64,
    b: usize,
    sweeps: usize,
    states: &mut Vec<MscState>,
    cancel: Option<(&CancelToken, Option<u64>)>,
) -> (r: Result<(), SampleCancelled>)
    requires
        graph.wf(),
        counts_bonds(graph@, counts@),
        colors.covers(graph@.h.len() as int),
        row@.len() == DRAW_ROW,
        graph@.h.len() <= 0x7fff_ffff,
        forall|j: int| 0 <= j < old(states)@.len() ==> (#[trigger] old(states)@[j])@.len()
            == graph@.h.len(),
    ensures
        r is Ok ==> blocks_at(
            final(states)@,
            old(states)@,
            graph@.h.len() as int,
            |s: Seq<i8>|
                color_rung(graph@, s, colors@, row@, seed, b as nat, sweeps as nat),
        ),
        r is Err ==> may_cancel(cancel) && exists|k: nat|
            k < sweeps && #[trigger] rung_reached(
                graph@,
                colors@,
                row@,
                seed,
                b as nat,
                k,
                old(states)@,
                final(states)@,
            ),
{
    let ghost l = graph@;
    let ghost n = l.h.len() as int;
    let ghost starts = states@;
    let mut k: usize = 0;
    while k < sweeps
        invariant
            graph.wf(),
            l == graph@,
            n == l.h.len(),
            n <= 0x7fff_ffff,
            counts_bonds(l, counts@),
            colors.covers(n),
            row@.len() == DRAW_ROW,
            k <= sweeps,
            starts == old(states)@,
            rung_reached(l, colors@, row@, seed, b as nat, k as nat, starts, states@),
        decreases sweeps - k,
    {
        if poll(cancel) {
            return Err(SampleCancelled);
        }
        let off: usize = sweep_offset(seed, b, k);
        let ghost mid = states@;
        sweep_blocks(graph, counts, colors, row, off, states);
        proof {
            let f = |s: Seq<i8>| color_rung(l, s, colors@, row@, seed, b as nat, k as nat);
            let g = |s: Seq<i8>| color_rung(l, s, colors@, row@, seed, b as nat, (k + 1) as nat);
            let step = |s: Seq<i8>|
                color_sweep(
                    l,
                    s,
                    colors@,
                    colors@.len() as int,
                    threshold_rule(row@, off as int),
                );
            assert forall|j: int, lane: u64|
                #![trigger lane_spins(states@[j]@, lane)]
                0 <= j < states@.len() && lane < 64 implies lane_spins(states@[j]@, lane) == g(
                lane_spins(starts[j]@, lane),
            ) by {
                assert(lane_spins(states@[j]@, lane) == step(lane_spins(mid[j]@, lane)));
                assert(lane_spins(mid[j]@, lane) == f(lane_spins(starts[j]@, lane)));
            }
            assert(blocks_at(states@, starts, n, g));
        }
        k = k + 1;
    }
    Ok(())
}

/// `states` are `starts` after `k` sweeps of rung `b`.
pub open spec fn rung_reached(
    l: Lattice,
    classes: Seq<Seq<u32>>,
    row: Seq<u8>,
    seed: u64,
    b: nat,
    k: nat,
    starts: Seq<MscState>,
    states: Seq<MscState>,
) -> bool {
    blocks_at(
        states,
        starts,
        l.h.len() as int,
        |s: Seq<i8>| color_rung(l, s, classes, row, seed, b, k),
    )
}

/// `states` are `starts` after `b` whole rungs, whose threshold rows are drawn
/// from the levels `cuts`.
pub open spec fn rungs_reached(
    l: Lattice,
    classes: Seq<Seq<u32>>,
    cuts: Seq<Vec<u64>>,
    seed: u64,
    per: nat,
    b: nat,
    starts: Seq<MscState>,
    states: Seq<MscState>,
) -> bool {
    exists|rows: Seq<Seq<u8>>, log: Seq<Draw>|
        #![trigger follows_rows(l, classes, rows, seed, per, starts, states), rows_on(cuts, log, rows)]
        {
            &&& rows.len() == b
            &&& forall|c: int| 0 <= c < b ==> drawn_row(cuts[c]@, #[trigger] rows[c])
            &&& drawn_from(seed ^ TABLE_SALT, log)
            &&& rows_on(cuts, log, rows)
            &&& follows_rows(l, classes, rows, seed, per, starts, states)
        }
}

/// The threshold rows are what `log` makes on the levels `cuts`, one after another.
pub open spec fn rows_on(cuts: Seq<Vec<u64>>, log: Seq<Draw>, rows: Seq<Seq<u8>>) -> bool {
    forall|c: int|
        0 <= c < rows.len() ==> row_on(cuts[c]@, log, c * DRAW_ROW, #[trigger] rows[c])
}

/// `states` are `starts` after one rung for each row of `rows`.
pub open spec fn follows_rows(
    l: Lattice,
    classes: Seq<Seq<u32>>,
    rows: Seq<Seq<u8>>,
    seed: u64,
    per: nat,
    starts: Seq<MscState>,
    states: Seq<MscState>,
) -> bool {
    blocks_at(
        states,
        starts,
        l.h.len() as int,
        |s: Seq<i8>| color_annealed(l, s, classes, rows, seed, per, rows.len()),
    )
}

/// An anneal reads only the rows of the rungs that it runs.
proof fn lemma_rows_prefix(
    l: Lattice,
    spins: Seq<i8>,
    classes: Seq<Seq<u32>>,
    short: Seq<Seq<u8>>,
    long: Seq<Seq<u8>>,
    seed: u64,
    per: nat,
    b: nat,
)
    requires
        b <= short.len(),
        b <= long.len(),
        forall|c: int| 0 <= c < b ==> short[c] == long[c],
    ensures
        color_annealed(l, spins, classes, short, seed, per, b) == color_annealed(
            l,
            spins,
            classes,
            long,
            seed,
            per,
            b,
        ),
    decreases b,
{
    if b > 0 {
        lemma_rows_prefix(l, spins, classes, short, long, seed, per, (b - 1) as nat);
        assert(short[b - 1] == long[b - 1]);
    }
}

/// What one more rung adds to a run.
proof fn lemma_next_rung(
    l: Lattice,
    classes: Seq<Seq<u32>>,
    rows: Seq<Seq<u8>>,
    row: Seq<u8>,
    seed: u64,
    per: nat,
    starts: Seq<MscState>,
    mid: Seq<MscState>,
    states: Seq<MscState>,
)
    requires
        follows_rows(l, classes, rows, seed, per, starts, mid),
        rung_reached(l, classes, row, seed, rows.len(), per, mid, states),
    ensures
        follows_rows(l, classes, rows.push(row), seed, per, starts, states),
{
    let f = |s: Seq<i8>| color_annealed(l, s, classes, rows, seed, per, rows.len());
    let step = |s: Seq<i8>| color_rung(l, s, classes, row, seed, rows.len(), per);
    let long = rows.push(row);
    let g = |s: Seq<i8>| color_annealed(l, s, classes, long, seed, per, long.len());
    assert forall|j: int, lane: u64|
        #![trigger lane_spins(states[j]@, lane)]
        0 <= j < states.len() && lane < 64 implies lane_spins(states[j]@, lane) == g(
        lane_spins(starts[j]@, lane),
    ) by {
        let s = lane_spins(starts[j]@, lane);
        assert(lane_spins(states[j]@, lane) == step(lane_spins(mid[j]@, lane)));
        assert(lane_spins(mid[j]@, lane) == f(s));
        lemma_rows_prefix(l, s, classes, rows, long, seed, per, rows.len());
        assert(long[rows.len() as int] == row);
    }
}

/// Advance all replica blocks together.
///
/// One threshold row is drawn at each rung from the levels `cuts[b]` and shared
/// by every block. Each sweep shifts it by [`sweep_offset`] and visits the color
/// classes in sequence.
pub fn anneal_words(
    graph: &IntGraph,
    counts: &Vec<u8>,
    colors: &Coloring,
    cuts: &Vec<Vec<u64>>,
    sweeps_per_beta: usize,
    seed: u64,
    states: &mut Vec<MscState>,
    cancel: Option<(&CancelToken, Option<u64>)>,
) -> (r: Result<(), SampleCancelled>)
    requires
        graph.wf(),
        counts_bonds(graph@, counts@),
        colors.covers(graph@.h.len() as int),
        graph@.h.len() <= 0x7fff_ffff,
        forall|b: int| 0 <= b < cuts@.len() ==> (#[trigger] cuts@[b])@.len() <= 256,
        forall|j: int| 0 <= j < old(states)@.len() ==> (#[trigger] old(states)@[j])@.len()
            == graph@.h.len(),
    ensures
        r is Ok ==> rungs_reached(
            graph@,
            colors@,
            cuts@,
            seed,
            at_least_one(sweeps_per_beta as nat),
            cuts@.len(),
            old(states)@,
            final(states)@,
        ),
        r is Err ==> may_cancel(cancel) && cuts@.len() > 0,
{
    let sweeps: usize = or_one(sweeps_per_beta);
    let ghost l = graph@;
    let ghost starts = states@;
    let ghost mut rows: Seq<Seq<u8>> = Seq::empty();
    let mut src = Source::seeded(seed ^ TABLE_SALT);
    let mut b: usize = 0;
    while b < cuts.len()
        invariant
            graph.wf(),
            l == graph@,
            l.h.len() <= 0x7fff_ffff,
            counts_bonds(l, counts@),
            colors.covers(l.h.len() as int),
            forall|b: int| 0 <= b < cuts@.len() ==> (#[trigger] cuts@[b])@.len() <= 256,
            b <= cuts@.len(),
            rows.len() == b,
            forall|c: int| 0 <= c < b ==> drawn_row(cuts@[c]@, #[trigger] rows[c]),
            src.wf(),
            seeded(seed ^ TABLE_SALT, src.start()),
            src.log().len() == b * DRAW_ROW,
            rows_on(cuts@, src.log(), rows),
            follows_rows(l, colors@, rows, seed, sweeps as nat, starts, states@),
        decreases cuts@.len() - b,
    {
        if poll(cancel) {
            return Err(SampleCancelled);
        }
        let ghost held = src.log();
        let row = next_row(&cuts[b], &mut src);
        let ghost mid = states@;
        anneal_rung(graph, counts, colors, &row, seed, b, sweeps, states, cancel)?;
        proof {
            lemma_next_rung(
                l,
                colors@,
                rows,
                row@,
                seed,
                sweeps as nat,
                starts,
                mid,
                states@,
            );
            let before = rows;
            rows = rows.push(row@);
            assert forall|c: int| 0 <= c < rows.len() implies row_on(
                cuts@[c]@,
                src.log(),
                c * DRAW_ROW,
                #[trigger] rows[c],
            ) by {
                if c < b {
                    assert(rows[c] == before[c]);
                    lemma_row_extends(cuts@[c]@, held, src.log(), c * DRAW_ROW, before[c]);
                }
            }
        }
        b = b + 1;
    }
    proof {
        src.lemma_record(seed ^ TABLE_SALT);
    }
    Ok(())
}

/// Every replica of a word traces exactly the trajectory that the scalar kernel
/// traces from the same spins and the same thresholds.
///
/// `words[t]` is the block before sweep `t`; each sweep visits the nodes in
/// ascending order against the threshold row of its rung.
pub proof fn every_lane_matches_the_scalar_kernel(
    l: Lattice,
    words: Seq<Seq<u64>>,
    draws: Seq<u8>,
    per: nat,
    offsets: Seq<usize>,
    b: nat,
    k: nat,
    lane: u64,
)
    requires
        lane < 64,
        per > 0,
        k <= per,
        b * per + k < words.len(),
        forall|t: int|
            0 <= t < words.len() - 1 ==> lane_spins(#[trigger] words[t + 1], lane) == full_sweep(
                l,
                lane_spins(words[t], lane),
                threshold_rule(rung_row(draws, t / per as int), shift_at(offsets, t)),
            ),
    ensures
        lane_spins(words[(b * per + k) as int], lane) == annealed(
            l,
            lane_spins(words[0], lane),
            draws,
            per,
            offsets,
            b,
            k,
        ),
    decreases b, k,
{
    assert(0 <= b * per) by (nonlinear_arith);
    if k > 0 {
        every_lane_matches_the_scalar_kernel(
            l,
            words,
            draws,
            per,
            offsets,
            b,
            (k - 1) as nat,
            lane,
        );
        let t = b * per + k - 1;
        assert(t / per as int == b) by (nonlinear_arith)
            requires
                t == b * per + (k - 1),
                0 <= k - 1 < per,
        ;
        assert(lane_spins(words[t + 1], lane) == full_sweep(
            l,
            lane_spins(words[t], lane),
            threshold_rule(rung_row(draws, t / per as int), shift_at(offsets, t)),
        ));
    } else if b > 0 {
        assert(b * per == (b - 1) * per + per) by (nonlinear_arith);
        every_lane_matches_the_scalar_kernel(
            l,
            words,
            draws,
            per,
            offsets,
            (b - 1) as nat,
            per,
            lane,
        );
    } else {
        assert(b * per == 0) by (nonlinear_arith)
            requires
                b == 0,
        ;
    }
}

/// An anneal over colour classes is a sequence of sweeps: sweep `t` visits all
/// classes against the threshold row of rung `t / per`, shifted by the word that
/// the seed gives for that rung and the place of the sweep in it.
pub proof fn a_color_anneal_sweeps_rung_by_rung(
    l: Lattice,
    classes: Seq<Seq<u32>>,
    rows: Seq<Seq<u8>>,
    seed: u64,
    per: nat,
    states: Seq<Seq<i8>>,
    b: nat,
    k: nat,
)
    requires
        per > 0,
        k <= per,
        b * per + k < states.len(),
        forall|t: int|
            0 <= t < states.len() - 1 ==> #[trigger] states[t + 1] == color_sweep(
                l,
                states[t],
                classes,
                classes.len() as int,
                threshold_rule(
                    rows[t / per as int],
                    (shift_word(seed, (t / per as int) as u64, (t % per as int) as u64)
                        % 8192) as int,
                ),
            ),
    ensures
        k == 0 ==> states[(b * per) as int] == color_annealed(
            l,
            states[0],
            classes,
            rows,
            seed,
            per,
            b,
        ),
        states[(b * per + k) as int] == color_rung(
            l,
            color_annealed(l, states[0], classes, rows, seed, per, b),
            classes,
            rows[b as int],
            seed,
            b,
            k,
        ),
    decreases b, k,
{
    assert(0 <= b * per) by (nonlinear_arith);
    if k > 0 {
        a_color_anneal_sweeps_rung_by_rung(
            l,
            classes,
            rows,
            seed,
            per,
            states,
            b,
            (k - 1) as nat,
        );
        let t = b * per + k - 1;
        assert(t / per as int == b && t % per as int == k - 1) by {
            vstd::arithmetic::div_mod::lemma_fundamental_div_mod_converse(
                t,
                per as int,
                b as int,
                k - 1,
            );
        }
        assert(states[t + 1] == color_sweep(
            l,
            states[t],
            classes,
            classes.len() as int,
            threshold_rule(
                rows[t / per as int],
                (shift_word(seed, (t / per as int) as u64, (t % per as int) as u64) % 8192) as int,
            ),
        ));
    } else if b > 0 {
        assert(b * per == (b - 1) * per + per) by (nonlinear_arith);
        a_color_anneal_sweeps_rung_by_rung(
            l,
            classes,
            rows,
            seed,
            per,
            states,
            (b - 1) as nat,
            per,
        );
    } else {
        assert(b * per == 0) by (nonlinear_arith)
            requires
                b == 0,
        ;
    }
}

} // verus!
