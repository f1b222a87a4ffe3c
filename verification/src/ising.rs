//! Ising problems with coefficients in integer thousandths.
//!
//! The energy of a spin vector is `sum h_i s_i + sum j_k s_u s_v`. A spin above
//! zero counts as `+1` and any other spin as `-1`. Coefficients travel as `i32`
//! thousandths, so every local field and every energy is an exact integer.
use vstd::prelude::*;

verus! {

/// An Ising problem: biases, couplings aligned with `edges`, and edges.
///
/// An edge with an endpoint outside the bias list, or from a node to itself,
/// binds no pair of spins. An edge past the end of `j` has coupling 0.
#[derive(Debug, Clone, PartialEq, Eq)]
pub struct IsingGraph {
    /// Linear biases, one per node, in thousandths.
    pub h: Vec<i32>,
    /// Couplings aligned with `edges`, in thousandths.
    pub j: Vec<i32>,
    /// Undirected edges in received order.
    pub edges: Vec<(usize, usize)>,
}

impl IsingGraph {
    /// Store flat bias, coupling and edge lists as a problem.
    pub fn new(h: Vec<i32>, j: Vec<i32>, edges: Vec<(usize, usize)>) -> (g: Self)
        ensures
            g.h == h,
            g.j == j,
            g.edges == edges,
    {
        IsingGraph { h, j, edges }
    }

    /// Number of variables.
    pub fn num_nodes(&self) -> (n: usize)
        ensures
            n == self.h@.len(),
    {
        self.h.len()
    }

    /// The node count and the number of bonds fit the 32-bit offsets of the
    /// adjacency structures.
    pub open spec fn fits(&self) -> bool {
        &&& self.h@.len() <= u32::MAX && self.h@.len() < usize::MAX
        &&& 2 * bonds_upto(self.h@.len() as int, self.edges@, self.edges@.len() as int) <= u32::MAX
    }

    /// Whether the nodes and the bonds can be numbered in 32 bits.
    pub fn is_indexable(&self) -> (r: bool)
        ensures
            r == self.fits(),
    {
        let n: usize = self.h.len();
        let mut bonds: usize = 0;
        let mut k: usize = 0;
        while k < self.edges.len()
            invariant
                n == self.h@.len(),
                k <= self.edges@.len(),
                bonds <= k,
                bonds == bonds_upto(n as int, self.edges@, k as int),
            decreases self.edges@.len() - k,
        {
            let e = self.edges[k];
            if e.0 < n && e.1 < n && e.0 != e.1 {
                bonds = bonds + 1;
            }
            k = k + 1;
        }
        n <= u32::MAX as usize && n < usize::MAX && bonds <= 0x7fff_ffff
    }
}

/// Whether edge `e` binds two distinct nodes of a problem with `n` nodes.
pub open spec fn binds(n: int, e: (usize, usize)) -> bool {
    e.0 < n && e.1 < n && e.0 != e.1
}

/// The coupling of edge `k`, 0 past the end of the list.
pub open spec fn coupling(j: Seq<i32>, k: int) -> int {
    if 0 <= k < j.len() {
        j[k] as int
    } else {
        0
    }
}

/// How many of the first `k` edges bind two nodes.
pub open spec fn bonds_upto(n: int, edges: Seq<(usize, usize)>, k: int) -> int
    decreases k,
{
    if k <= 0 {
        0
    } else {
        bonds_upto(n, edges, k - 1) + if binds(n, edges[k - 1]) {
            1int
        } else {
            0
        }
    }
}

/// `c` times the sign of `s`.
pub open spec fn signed(c: int, s: i8) -> int {
    if s > 0 {
        c
    } else {
        -c
    }
}

/// Every spin is `+1` or `-1`.
pub open spec fn valid_spins(spins: Seq<i8>) -> bool {
    forall|i: int| 0 <= i < spins.len() ==> #[trigger] spins[i] == 1 || spins[i] == -1
}

/// `spins` with spin `v` negated.
pub open spec fn flipped(spins: Seq<i8>, v: int) -> Seq<i8> {
    spins.update(v, (-spins[v]) as i8)
}

/// Bias part of the energy, over the first `k` nodes.
pub open spec fn bias_energy(h: Seq<i32>, spins: Seq<i8>, k: int) -> int
    decreases k,
{
    if k <= 0 {
        0
    } else {
        bias_energy(h, spins, k - 1) + signed(h[k - 1] as int, spins[k - 1])
    }
}

/// Energy of edge `k`: nothing unless its coupling and both spins exist.
pub open spec fn edge_term(
    j: Seq<i32>,
    edges: Seq<(usize, usize)>,
    spins: Seq<i8>,
    k: int,
) -> int {
    if k < j.len() && edges[k].0 < spins.len() && edges[k].1 < spins.len() {
        signed(signed(j[k] as int, spins[edges[k].0 as int]), spins[edges[k].1 as int])
    } else {
        0
    }
}

/// Coupling part of the energy, over the first `k` edges.
pub open spec fn edge_energy(
    j: Seq<i32>,
    edges: Seq<(usize, usize)>,
    spins: Seq<i8>,
    k: int,
) -> int
    decreases k,
{
    if k <= 0 {
        0
    } else {
        edge_energy(j, edges, spins, k - 1) + edge_term(j, edges, spins, k - 1)
    }
}

/// The smaller of two lengths.
pub open spec fn least(a: int, b: int) -> int {
    if a < b {
        a
    } else {
        b
    }
}

/// Energy of `spins` in thousandths.
pub open spec fn energy(
    h: Seq<i32>,
    j: Seq<i32>,
    edges: Seq<(usize, usize)>,
    spins: Seq<i8>,
) -> int {
    bias_energy(h, spins, least(h.len() as int, spins.len() as int)) + edge_energy(
        j,
        edges,
        spins,
        edges.len() as int,
    )
}

/// The `i64` nearest to `x`.
pub open spec fn clamp_i64(x: int) -> i64 {
    if x < i64::MIN {
        i64::MIN
    } else if x > i64::MAX {
        i64::MAX
    } else {
        x as i64
    }
}

/// Consensus energy, from `quip_protocol::scoring::energy_from_milli`.
///
/// Claimed of it: the result is the exact sum of the bias terms and of the
/// couplings whose edge names two present spins, clamped to `i64`.
#[verifier::external_body]
pub(crate) fn energy_from_milli(
    spins: &[i8],
    h: &[i32],
    j: &[i32],
    edges: &[(usize, usize)],
) -> (e: i64)
    ensures
        e == clamp_i64(energy(h@, j@, edges@, spins@)),
{
    quip_protocol::scoring::energy_from_milli(spins, h, j, edges)
}

/// One bond as seen from a node: the node at its other end and its coupling.
pub struct Bond {
    /// Node at the other end.
    pub node: int,
    /// Coupling in thousandths.
    pub coup: int,
}

/// The bond that edge `k` makes at node `v`, seen from `v`.
pub open spec fn far_end(e: (usize, usize), v: int) -> int {
    if e.0 == v {
        e.1 as int
    } else {
        e.0 as int
    }
}

/// Whether edge `k` binds node `v` to another node.
pub open spec fn touches(n: int, e: (usize, usize), v: int) -> bool {
    binds(n, e) && (e.0 == v || e.1 == v)
}

/// The bonds at node `v` among the first `k` edges, in edge order.
pub open spec fn bond_row(g: IsingGraph, v: int, k: int) -> Seq<Bond>
    decreases k,
{
    if k <= 0 {
        Seq::empty()
    } else if touches(g.h@.len() as int, g.edges@[k - 1], v) {
        bond_row(g, v, k - 1).push(
            Bond { node: far_end(g.edges@[k - 1], v), coup: coupling(g.j@, k - 1) },
        )
    } else {
        bond_row(g, v, k - 1)
    }
}

/// All bonds at node `v`, in edge order.
pub open spec fn bonds(g: IsingGraph, v: int) -> Seq<Bond> {
    bond_row(g, v, g.edges@.len() as int)
}

/// What the bonds of `row` add to a node's local field.
pub open spec fn row_field(row: Seq<Bond>, spins: Seq<i8>) -> int
    decreases row.len(),
{
    if row.len() == 0 {
        0
    } else {
        row_field(row.drop_last(), spins) + signed(row.last().coup, spins[row.last().node])
    }
}

/// Total coupling of the bonds of `row` that end at node `w`.
pub open spec fn pair_coupling(row: Seq<Bond>, w: int) -> int
    decreases row.len(),
{
    if row.len() == 0 {
        0
    } else {
        pair_coupling(row.drop_last(), w) + if row.last().node == w {
            row.last().coup
        } else {
            0
        }
    }
}

/// How many bonds of `row` end at `w`.
pub open spec fn pair_count(row: Seq<Bond>, w: int) -> int
    decreases row.len(),
{
    if row.len() == 0 {
        0
    } else {
        pair_count(row.drop_last(), w) + if row.last().node == w {
            1int
        } else {
            0
        }
    }
}

/// A row has a bond to `w` exactly when it counts one.
pub proof fn lemma_pair_count(row: Seq<Bond>, w: int)
    ensures
        pair_count(row, w) >= 0,
        pair_count(row, w) > 0 <==> exists|i: int| 0 <= i < row.len() && (#[trigger] row[i]).node == w,
    decreases row.len(),
{
    if row.len() > 0 {
        let short = row.drop_last();
        lemma_pair_count(short, w);
        if row.last().node == w {
            assert(row[row.len() - 1].node == w);
        } else if pair_count(row, w) > 0 {
            let i = choose|i: int| 0 <= i < short.len() && (#[trigger] short[i]).node == w;
            assert(row[i].node == w);
        } else {
            assert forall|i: int| 0 <= i < row.len() implies (#[trigger] row[i]).node != w by {
                if i < short.len() {
                    assert(short[i].node != w);
                }
            }
        }
    }
}

/// A problem as the kernels read it: a bias and a row of bonds per node.
pub struct Lattice {
    /// Biases.
    pub h: Seq<int>,
    /// Bonds, one row per node.
    pub rows: Seq<Seq<Bond>>,
}

impl Lattice {
    /// Local field `h_v + sum J_vw s_w` of node `v`.
    pub open spec fn field(self, spins: Seq<i8>, v: int) -> int {
        self.h[v] + row_field(self.rows[v], spins)
    }

    /// The field of node `v` along its own spin. A flip of `v` costs minus
    /// twice this much energy.
    pub open spec fn gain(self, spins: Seq<i8>, v: int) -> int {
        signed(self.field(spins, v), spins[v])
    }

    /// Bonds end inside the problem and away from their own node, and the two
    /// ends of a pair agree on the bonds between them and on their coupling.
    pub open spec fn wf(self) -> bool {
        &&& self.rows.len() == self.h.len()
        &&& forall|v: int, i: int|
            #![trigger self.rows[v][i]]
            0 <= v < self.rows.len() && 0 <= i < self.rows[v].len() ==> 0 <= self.rows[v][i].node
                < self.rows.len() && self.rows[v][i].node != v
        &&& forall|v: int, w: int|
            #![trigger pair_coupling(self.rows[v], w)]
            0 <= v < self.rows.len() && 0 <= w < self.rows.len() ==> pair_coupling(self.rows[v], w)
                == pair_coupling(self.rows[w], v)
        &&& forall|v: int, w: int|
            #![trigger pair_count(self.rows[v], w)]
            0 <= v < self.rows.len() && 0 <= w < self.rows.len() ==> pair_count(self.rows[v], w)
                == pair_count(self.rows[w], v)
    }

    /// `spins` holds one spin of `+1` or `-1` per node.
    pub open spec fn fits_spins(self, spins: Seq<i8>) -> bool {
        spins.len() == self.h.len() && valid_spins(spins)
    }
}

/// The lattice of problem `g`.
pub open spec fn lattice(g: IsingGraph) -> Lattice {
    Lattice {
        h: Seq::new(g.h@.len(), |v: int| g.h@[v] as int),
        rows: Seq::new(g.h@.len(), |v: int| bonds(g, v)),
    }
}

/// Energy of `spins` on problem `g`.
pub open spec fn graph_energy(g: IsingGraph, spins: Seq<i8>) -> int {
    energy(g.h@, g.j@, g.edges@, spins)
}

/// Flipping one spin moves a row's field by the coupling to that spin.
pub proof fn lemma_row_field_flip(row: Seq<Bond>, spins: Seq<i8>, v: int)
    requires
        0 <= v < spins.len(),
        valid_spins(spins),
        forall|i: int| 0 <= i < row.len() ==> 0 <= (#[trigger] row[i]).node < spins.len(),
    ensures
        row_field(row, flipped(spins, v)) == row_field(row, spins) - 2 * signed(
            pair_coupling(row, v),
            spins[v],
        ),
    decreases row.len(),
{
    if row.len() > 0 {
        assert forall|i: int| 0 <= i < row.drop_last().len() implies 0 <= (
        #[trigger] row.drop_last()[i]).node < spins.len() by {
            assert(row.drop_last()[i] == row[i]);
        }
        lemma_row_field_flip(row.drop_last(), spins, v);
        assert(row.last() == row[row.len() - 1]);
    }
}

/// A bond row names only nodes of the problem, and never its own node.
pub proof fn lemma_bond_row_nodes(g: IsingGraph, v: int, k: int)
    requires
        0 <= k <= g.edges@.len(),
    ensures
        forall|i: int|
            0 <= i < bond_row(g, v, k).len() ==> 0 <= (#[trigger] bond_row(g, v, k)[i]).node
                < g.h@.len() && bond_row(g, v, k)[i].node != v,
    decreases k,
{
    if k > 0 {
        lemma_bond_row_nodes(g, v, k - 1);
        let before = bond_row(g, v, k - 1);
        assert forall|i: int| 0 <= i < bond_row(g, v, k).len() implies 0 <= (
        #[trigger] bond_row(g, v, k)[i]).node < g.h@.len() && bond_row(g, v, k)[i].node != v by {
            if i < before.len() {
                assert(bond_row(g, v, k)[i] == before[i]);
            }
        }
    }
}

/// Two nodes see the same bonds and the same total coupling between them, over
/// the first `k` edges.
pub proof fn lemma_pair_symmetric(g: IsingGraph, v: int, w: int, k: int)
    requires
        0 <= k <= g.edges@.len(),
    ensures
        pair_coupling(bond_row(g, v, k), w) == pair_coupling(bond_row(g, w, k), v),
        pair_count(bond_row(g, v, k), w) == pair_count(bond_row(g, w, k), v),
    decreases k,
{
    if k > 0 {
        lemma_pair_symmetric(g, v, w, k - 1);
        let e = g.edges@[k - 1];
        let n = g.h@.len() as int;
        if touches(n, e, v) {
            assert(bond_row(g, v, k).drop_last() =~= bond_row(g, v, k - 1));
        }
        if touches(n, e, w) {
            assert(bond_row(g, w, k).drop_last() =~= bond_row(g, w, k - 1));
        }
    }
}

/// Flipping spin `v` changes the energy of the first `k` edges by twice the
/// field that their bonds make at `v`, against the old spin.
proof fn lemma_edge_energy_flip(g: IsingGraph, spins: Seq<i8>, v: int, k: int)
    requires
        spins.len() == g.h@.len(),
        valid_spins(spins),
        0 <= v < spins.len(),
        0 <= k <= g.edges@.len(),
    ensures
        edge_energy(g.j@, g.edges@, flipped(spins, v), k) == edge_energy(g.j@, g.edges@, spins, k)
            - 2 * signed(row_field(bond_row(g, v, k), spins), spins[v]),
    decreases k,
{
    if k > 0 {
        lemma_edge_energy_flip(g, spins, v, k - 1);
        let e = g.edges@[k - 1];
        let n = g.h@.len() as int;
        if touches(n, e, v) {
            assert(bond_row(g, v, k).drop_last() =~= bond_row(g, v, k - 1));
        }
        let fl = flipped(spins, v);
        if e.0 < n && e.1 < n {
            assert(fl[e.0 as int] == if e.0 == v {
                (-spins[v]) as i8
            } else {
                spins[e.0 as int]
            });
            assert(fl[e.1 as int] == if e.1 == v {
                (-spins[v]) as i8
            } else {
                spins[e.1 as int]
            });
            assert(spins[e.0 as int] == 1 || spins[e.0 as int] == -1);
            assert(spins[e.1 as int] == 1 || spins[e.1 as int] == -1);
        }
    }
}

proof fn lemma_bias_energy_flip(h: Seq<i32>, spins: Seq<i8>, v: int, k: int)
    requires
        spins.len() == h.len(),
        valid_spins(spins),
        0 <= v < spins.len(),
        0 <= k <= h.len(),
    ensures
        bias_energy(h, flipped(spins, v), k) == bias_energy(h, spins, k) - if v < k {
            2 * signed(h[v] as int, spins[v])
        } else {
            0
        },
    decreases k,
{
    if k > 0 {
        lemma_bias_energy_flip(h, spins, v, k - 1);
    }
}

/// The lattice of a problem is well formed.
pub proof fn lattice_is_wf(g: IsingGraph)
    ensures
        lattice(g).wf(),
{
    let l = lattice(g);
    let m = g.edges@.len() as int;
    assert forall|v: int, i: int|
        #![trigger l.rows[v][i]]
        0 <= v < l.rows.len() && 0 <= i < l.rows[v].len() implies 0 <= l.rows[v][i].node
        < l.rows.len() && l.rows[v][i].node != v by {
        lemma_bond_row_nodes(g, v, m);
    }
    assert forall|v: int, w: int|
        #![trigger pair_coupling(l.rows[v], w)]
        0 <= v < l.rows.len() && 0 <= w < l.rows.len() implies pair_coupling(l.rows[v], w)
        == pair_coupling(l.rows[w], v) by {
        lemma_pair_symmetric(g, v, w, m);
    }
    assert forall|v: int, w: int|
        #![trigger pair_count(l.rows[v], w)]
        0 <= v < l.rows.len() && 0 <= w < l.rows.len() implies pair_count(l.rows[v], w)
        == pair_count(l.rows[w], v) by {
        lemma_pair_symmetric(g, v, w, m);
    }
}

/// Flipping spin `v` changes the energy by `-2 s_v` times its local field.
///
/// Self-loops, edges with an end outside the problem and edges without a
/// coupling play no part: the local field leaves them out and the energy keeps
/// them constant.
pub proof fn flip_changes_energy_by_local_field(g: IsingGraph, spins: Seq<i8>, v: int)
    requires
        lattice(g).fits_spins(spins),
        0 <= v < spins.len(),
    ensures
        graph_energy(g, flipped(spins, v)) == graph_energy(g, spins) - 2 * lattice(g).gain(
            spins,
            v,
        ),
{
    lemma_edge_energy_flip(g, spins, v, g.edges@.len() as int);
    lemma_bias_energy_flip(g.h@, spins, v, g.h@.len() as int);
}

/// A row without bonds to `v` has no coupling to it.
proof fn lemma_no_pair(row: Seq<Bond>, v: int)
    requires
        forall|i: int| 0 <= i < row.len() ==> (#[trigger] row[i]).node != v,
    ensures
        pair_coupling(row, v) == 0,
    decreases row.len(),
{
    if row.len() > 0 {
        assert forall|i: int| 0 <= i < row.drop_last().len() implies (
        #[trigger] row.drop_last()[i]).node != v by {
            assert(row.drop_last()[i] == row[i]);
        }
        lemma_no_pair(row.drop_last(), v);
        assert(row.last() == row[row.len() - 1]);
    }
}

/// Flipping spin `v` moves the local field of every node by the coupling
/// between the two, and leaves the field of `v` itself alone.
pub proof fn flip_moves_neighbor_fields(l: Lattice, spins: Seq<i8>, v: int, w: int)
    requires
        l.wf(),
        l.fits_spins(spins),
        0 <= v < spins.len(),
        0 <= w < spins.len(),
    ensures
        l.field(flipped(spins, v), w) == l.field(spins, w) - 2 * signed(
            pair_coupling(l.rows[v], w),
            spins[v],
        ),
        w == v ==> l.field(flipped(spins, v), w) == l.field(spins, w),
{
    assert forall|i: int| 0 <= i < l.rows[w].len() implies 0 <= (#[trigger] l.rows[w][i]).node
        < spins.len() by {}
    lemma_row_field_flip(l.rows[w], spins, v);
    assert(pair_coupling(l.rows[v], w) == pair_coupling(l.rows[w], v));
    if w == v {
        assert forall|i: int| 0 <= i < l.rows[v].len() implies (#[trigger] l.rows[v][i]).node
            != v by {}
        lemma_no_pair(l.rows[v], v);
    }
}

/// A flip keeps a spin vector valid.
pub proof fn lemma_flipped_valid(spins: Seq<i8>, v: int)
    requires
        valid_spins(spins),
        0 <= v < spins.len(),
    ensures
        valid_spins(flipped(spins, v)),
        flipped(spins, v).len() == spins.len(),
        flipped(spins, v)[v] == -spins[v],
{
    assert(spins[v] == 1 || spins[v] == -1);
}

/// Two flips of one spin restore the vector.
pub proof fn flipping_twice_restores(spins: Seq<i8>, v: int)
    requires
        valid_spins(spins),
        0 <= v < spins.len(),
    ensures
        flipped(flipped(spins, v), v) == spins,
{
    assert(flipped(flipped(spins, v), v) =~= spins);
}

} // verus!
