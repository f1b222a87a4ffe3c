//! Tabulated-threshold and multi-spin annealing backends.
//!
//! Both need whole-number fields and unit couplings, and a problem that does
//! not qualify falls back one step at a time. A problem without an integer view
//! runs on the Metropolis kernel. A problem with one, but whose field or degree
//! is too large for a machine word, runs on the tabulated kernel.
use quip_solver_core::CancelToken;
use vstd::prelude::*;

use crate::accept::{level_answer, level_of_field, Odds};
use crate::coloring::{
    classes_depend_on_bonds_alone, colored, lemma_colored_transfers, same_bonds, Coloring,
};
use crate::cpu_sampler::{budget_after, num_cpus_of, CoreBudget, NumCpusError};
use crate::ising::{bond_row, lattice, lattice_is_wf, IsingGraph, Lattice};
use crate::planes::LANES;
use crate::rng::{
    drawn_from, may_cancel, poll, read_seed_of, reads_of_a_job_have_distinct_seeds, Draw,
    SampleCancelled, Source,
};
use crate::sa_int::{
    anneal_from, annealed, draw_shifts, draw_table, draw_words, drawn_row, is_threshold, max_reach,
    representable, rung_row, shifts_on, table_on, threshold_stays_below_the_levels, unit_lattice,
    words_on, IntGraph, DRAW_ROW, MAX_DRAW_BYTES,
};
use crate::sa_msc::{
    anneal_words, bond_counts, counts_bonds, lane_spins, packable, rungs_reached, MscState,
    TABLE_SALT,
};
use crate::sampler_core::{
    copy_edges, ising_results, metropolis_results, or_one, sample_sa_cancellable, score_spins,
    scored, toss_spins, tossed, Algorithm, CpuGraph, SampleParams, SamplerResult,
};
use crate::scalar::Scalar;

verus! {

/// Which annealing kernel a backend drives.
#[derive(Debug, Clone, Copy, PartialEq, Eq, Structural)]
pub enum SaVariant {
    /// Scalar kernel with tabulated acceptance thresholds.
    Tabulated,
    /// Multi-spin coded kernel, 64 reads per machine word.
    MultiSpin,
}

/// A colouring kept for the next problem on the same graph.
///
/// Fields and couplings are no part of the key: a colouring follows the bonds
/// alone.
pub struct CachedColoring {
    nodes: usize,
    edges: Vec<(usize, usize)>,
    colors: Coloring,
}

/// `classes` are the greedy classes of a problem with these nodes and edges.
pub open spec fn colors_graph(
    nodes: nat,
    edges: Seq<(usize, usize)>,
    classes: Seq<Seq<u32>>,
) -> bool {
    exists|g: IsingGraph|
        g.h@.len() == nodes && g.edges@ == edges && #[trigger] colored(lattice(g), classes)
}

/// The nodes at the far ends of a row do not depend on the weights.
proof fn lemma_row_shape(a: IsingGraph, b: IsingGraph, v: int, k: int)
    requires
        a.h@.len() == b.h@.len(),
        a.edges@ == b.edges@,
        k <= a.edges@.len(),
    ensures
        bond_row(a, v, k).len() == bond_row(b, v, k).len(),
        forall|i: int|
            0 <= i < bond_row(a, v, k).len() ==> (#[trigger] bond_row(a, v, k)[i]).node
                == bond_row(b, v, k)[i].node,
    decreases k,
{
    if k > 0 {
        lemma_row_shape(a, b, v, k - 1);
    }
}

/// Problems with the same nodes and the same edge list have the same bonds.
pub proof fn weights_do_not_change_bonds(a: IsingGraph, b: IsingGraph)
    requires
        a.h@.len() == b.h@.len(),
        a.edges@ == b.edges@,
    ensures
        same_bonds(lattice(a), lattice(b)),
{
    let (la, lb) = (lattice(a), lattice(b));
    let m = a.edges@.len() as int;
    assert forall|v: int| 0 <= v < la.rows.len() implies (#[trigger] la.rows[v]).len()
        == lb.rows[v].len() by {
        lemma_row_shape(a, b, v, m);
    }
    assert forall|v: int, i: int|
        #![trigger la.rows[v][i]]
        0 <= v < la.rows.len() && 0 <= i < la.rows[v].len() implies la.rows[v][i].node
        == lb.rows[v][i].node by {
        lemma_row_shape(a, b, v, m);
        assert(bond_row(a, v, m)[i].node == bond_row(b, v, m)[i].node);
    }
}

impl Clone for CachedColoring {
    fn clone(&self) -> (r: Self)
        ensures
            r.wf() == self.wf(),
            r.classes() == self.classes(),
            forall|g: IsingGraph| #[trigger] r.serves(g) == self.serves(g),
    {
        CachedColoring {
            nodes: self.nodes,
            edges: copy_edges(&self.edges),
            colors: self.colors.clone(),
        }
    }
}

impl CachedColoring {
    /// The classes are those of the graph in the key.
    pub closed spec fn wf(&self) -> bool {
        colors_graph(self.nodes as nat, self.edges@, self.colors@) && self.colors.covers(
            self.nodes as int,
        )
    }

    /// The key is the node count and the edge list of `g`, in order.
    pub closed spec fn serves(&self, g: IsingGraph) -> bool {
        self.nodes == g.h@.len() && self.edges@ == g.edges@
    }

    /// The classes that it holds.
    pub closed spec fn classes(&self) -> Seq<Seq<u32>> {
        self.colors@
    }

    /// Colour a problem and key the result by its graph.
    pub fn build(graph: &IsingGraph) -> (r: Self)
        requires
            graph.fits(),
        ensures
            r.wf(),
            r.serves(*graph),
            colored(lattice(*graph), r.classes()),
    {
        let cpu = CpuGraph::from_base(graph);
        CachedColoring {
            nodes: graph.h.len(),
            edges: copy_edges(&graph.edges),
            colors: Coloring::new(&cpu),
        }
    }

    /// Whether the key fits `graph`.
    pub fn matches_graph(&self, graph: &IsingGraph) -> (r: bool)
        ensures
            r <==> self.serves(*graph),
    {
        self.nodes == graph.h.len() && same_edges(&self.edges, &graph.edges)
    }

    /// Number of nodes in the key.
    pub fn nodes(&self) -> (n: usize)
        ensures
            forall|g: IsingGraph| #[trigger] self.serves(g) ==> n == g.h@.len(),
    {
        self.nodes
    }

    /// Edge list in the key.
    pub fn edges(&self) -> (e: &Vec<(usize, usize)>)
        ensures
            forall|g: IsingGraph| #[trigger] self.serves(g) ==> e@ == g.edges@,
    {
        &self.edges
    }

    /// The colouring.
    fn colors(&self) -> (c: &Coloring)
        requires
            self.wf(),
        ensures
            c@ == self.classes(),
            forall|g: IsingGraph| #[trigger] self.serves(g) ==> c.covers(g.h@.len() as int),
    {
        &self.colors
    }

    /// A kept colouring is the one that a fresh start would make: it is keyed by
    /// the graph and the weights do not enter.
    pub proof fn kept_colors_match_fresh_ones(&self, g: IsingGraph, fresh: Seq<Seq<u32>>)
        requires
            self.wf(),
            self.serves(g),
            colored(lattice(g), fresh),
        ensures
            self.classes() == fresh,
    {
        let old_g = choose|old_g: IsingGraph|
            old_g.h@.len() == self.nodes && old_g.edges@ == self.edges@ && #[trigger] colored(
                lattice(old_g),
                self.colors@,
            );
        weights_do_not_change_bonds(old_g, g);
        lattice_is_wf(old_g);
        classes_depend_on_bonds_alone(lattice(old_g), lattice(g), self.classes(), fresh);
    }

    /// A kept colouring colours every problem that it serves.
    proof fn lemma_colors(&self, g: IsingGraph)
        requires
            self.wf(),
            self.serves(g),
        ensures
            colored(lattice(g), self.classes()),
    {
        let old_g = choose|old_g: IsingGraph|
            old_g.h@.len() == self.nodes && old_g.edges@ == self.edges@ && #[trigger] colored(
                lattice(old_g),
                self.colors@,
            );
        weights_do_not_change_bonds(old_g, g);
        lattice_is_wf(old_g);
        lemma_colored_transfers(lattice(old_g), lattice(g), self.classes());
    }
}

/// Whether two edge lists are equal, order and direction included.
fn same_edges(a: &Vec<(usize, usize)>, b: &Vec<(usize, usize)>) -> (r: bool)
    ensures
        r <==> a@ == b@,
{
    if a.len() != b.len() {
        return false;
    }
    let mut i: usize = 0;
    while i < a.len()
        invariant
            i <= a@.len(),
            a@.len() == b@.len(),
            forall|k: int| 0 <= k < i ==> #[trigger] a@[k] == b@[k],
        decreases a@.len() - i,
    {
        if a[i].0 != b[i].0 || a[i].1 != b[i].1 {
            return false;
        }
        i = i + 1;
    }
    assert(a@ =~= b@);
    true
}

/// Bring the cache to the graph of `graph`: an entry that fits stays, any other
/// is replaced.
pub fn cached_coloring(cache: &mut Option<CachedColoring>, graph: &IsingGraph)
    requires
        graph.fits(),
        *old(cache) matches Some(entry) ==> entry.wf(),
    ensures
        *final(cache) matches Some(entry) && entry.wf() && entry.serves(*graph),
        (*old(cache) matches Some(entry) && entry.serves(*graph)) ==> *final(cache) == *old(cache),
{
    let hit: bool = match cache {
        Some(entry) => entry.matches_graph(graph),
        None => false,
    };
    if !hit {
        *cache = Some(CachedColoring::build(graph));
    }
}

/// `x` is how many of the 2^64 draws of rung `b` accept an uphill flip against a
/// whole field of size `n`.
pub open spec fn level_at<R: Scalar, E: Fn(R) -> R, B: Fn(u64, R) -> bool, C: Fn(R) -> u64>(
    odds: Odds<R, E, B>,
    cut: C,
    b: int,
    n: int,
    x: u64,
) -> bool {
    level_answer(odds.exp, cut, odds.ladder@[b], n as nat, x)
}

/// `cuts` holds the levels of every rung, `row_len` to a rung.
pub open spec fn tabulates<R: Scalar, E: Fn(R) -> R, B: Fn(u64, R) -> bool, C: Fn(R) -> u64>(
    odds: Odds<R, E, B>,
    cut: C,
    row_len: nat,
    cuts: Seq<Vec<u64>>,
) -> bool {
    &&& cuts.len() == odds.ladder@.len()
    &&& forall|b: int| 0 <= b < cuts.len() ==> (#[trigger] cuts[b])@.len() == row_len
    &&& forall|b: int, n: int|
        #![trigger cuts[b]@[n]]
        0 <= b < cuts.len() && 0 <= n < row_len ==> level_at(odds, cut, b, n, cuts[b]@[n])
}

/// The levels of one rung.
fn level_row<R: Scalar, E: Fn(R) -> R, B: Fn(u64, R) -> bool, C: Fn(R) -> u64>(
    odds: &Odds<R, E, B>,
    cut: &C,
    b: usize,
    row_len: usize,
) -> (row: Vec<u64>)
    requires
        odds.total(),
        b < odds.ladder@.len(),
        forall|p: R| #[trigger] call_requires(*cut, (p,)),
    ensures
        row@.len() == row_len,
        forall|n: int|
            0 <= n < row_len ==> level_at(*odds, *cut, b as int, n, #[trigger] row@[n]),
{
    let mut row: Vec<u64> = Vec::with_capacity(row_len);
    let mut n: usize = 0;
    while n < row_len
        invariant
            odds.total(),
            b < odds.ladder@.len(),
            forall|p: R| #[trigger] call_requires(*cut, (p,)),
            n <= row_len,
            row@.len() == n,
            forall|k: int|
                0 <= k < n ==> level_at(*odds, *cut, b as int, k, #[trigger] row@[k]),
        decreases row_len - n,
    {
        let x: u64 = level_of_field(&odds.exp, cut, odds.ladder[b], n);
        row.push(x);
        n = n + 1;
    }
    row
}

/// The levels of every rung.
pub fn level_rows<R: Scalar, E: Fn(R) -> R, B: Fn(u64, R) -> bool, C: Fn(R) -> u64>(
    odds: &Odds<R, E, B>,
    cut: &C,
    row_len: usize,
) -> (cuts: Vec<Vec<u64>>)
    requires
        odds.total(),
        forall|p: R| #[trigger] call_requires(*cut, (p,)),
    ensures
        tabulates(*odds, *cut, row_len as nat, cuts@),
{
    let mut cuts: Vec<Vec<u64>> = Vec::new();
    let mut b: usize = 0;
    while b < odds.ladder.len()
        invariant
            odds.total(),
            forall|p: R| #[trigger] call_requires(*cut, (p,)),
            b <= odds.ladder@.len(),
            cuts@.len() == b,
            forall|c: int| 0 <= c < cuts@.len() ==> (#[trigger] cuts@[c])@.len() == row_len,
            forall|c: int, n: int|
                #![trigger cuts@[c]@[n]]
                0 <= c < cuts@.len() && 0 <= n < row_len ==> level_at(
                    *odds,
                    *cut,
                    c,
                    n,
                    cuts@[c]@[n],
                ),
        decreases odds.ladder@.len() - b,
    {
        let ghost before = cuts@;
        let row = level_row(odds, cut, b, row_len);
        cuts.push(row);
        assert forall|c: int, n: int|
            #![trigger cuts@[c]@[n]]
            0 <= c < cuts@.len() && 0 <= n < row_len implies level_at(
            *odds,
            *cut,
            c,
            n,
            cuts@[c]@[n],
        ) by {
            if c < b {
                assert(cuts@[c] == before[c]);
                assert(level_at(*odds, *cut, c, n, before[c]@[n]));
            } else {
                assert(cuts@[c] == row);
            }
        }
        b = b + 1;
    }
    cuts
}

/// A threshold table drawn from these levels by the table generator of a job with
/// this seed.
pub open spec fn drawn_table(seed: u64, cuts: Seq<Vec<u64>>, draws: Seq<u8>) -> bool {
    &&& draws.len() == cuts.len() * DRAW_ROW
    &&& exists|log: Seq<Draw>| #[trigger]
        table_on(cuts, log, draws) && drawn_from(seed ^ TABLE_SALT, log)
    &&& forall|b: int|
        0 <= b < cuts.len() ==> drawn_row((#[trigger] cuts[b])@, rung_row(draws, b))
}

/// `spins` end the tabulated anneal of read `i` on `l` against this table: its
/// start spins, and then a shift for each sweep, come from the generator with the
/// seed of that read.
pub open spec fn tabulated_run(
    l: Lattice,
    draws: Seq<u8>,
    seed: u64,
    rungs: nat,
    per: nat,
    i: int,
    spins: Seq<i8>,
) -> bool {
    exists|log: Seq<Draw>, start: Seq<i8>, offsets: Seq<usize>|
        #![trigger annealed(l, start, draws, per, offsets, rungs, 0), drawn_from(read_seed_of(seed, i as u64), log)]
        {
            &&& drawn_from(read_seed_of(seed, i as u64), log)
            &&& tossed(log, 0, start)
            &&& shifts_on(log, l.h.len() as int, offsets)
            &&& l.fits_spins(start)
            &&& offsets.len() == rungs * per
            &&& forall|i: int| 0 <= i < offsets.len() ==> #[trigger] offsets[i] < DRAW_ROW
            &&& spins == annealed(l, start, draws, per, offsets, rungs, 0)
        }
}

/// The results of the tabulated kernel: scored solutions that all anneal
/// against one threshold table.
pub open spec fn tabulated_results(
    g: IsingGraph,
    draws: Seq<u8>,
    params: SampleParams,
    results: Seq<SamplerResult>,
) -> bool {
    forall|i: int|
        0 <= i < results.len() ==> scored(g, #[trigger] results[i]) && tabulated_run(
            unit_lattice(g),
            draws,
            params.seed,
            params.rungs(),
            params.per_rung(),
            i,
            results[i].spins@,
        )
}

/// Thresholds of a drawn table stay below the length of a row of levels.
proof fn lemma_table_bound(seed: u64, cuts: Seq<Vec<u64>>, draws: Seq<u8>, i: int)
    requires
        drawn_table(seed, cuts, draws),
        0 <= i < draws.len(),
        forall|b: int| 0 <= b < cuts.len() ==> 0 < (#[trigger] cuts[b])@.len() <= 101,
    ensures
        draws[i] <= 127,
{
    let b = i / 8192;
    let q = i % 8192;
    assert(0 <= b < cuts.len());
    assert(drawn_row(cuts[b]@, rung_row(draws, b)));
    let words = choose|words: Seq<u64>|
        words.len() == DRAW_ROW && forall|k: int|
            0 <= k < DRAW_ROW ==> is_threshold(
                cuts[b]@,
                #[trigger] words[k],
                rung_row(draws, b)[k],
            );
    assert(is_threshold(cuts[b]@, words[q], rung_row(draws, b)[q]));
    threshold_stays_below_the_levels(cuts[b]@, words[q], rung_row(draws, b)[q]);
    assert(rung_row(draws, b)[q] == draws[i]);
}

/// All reads of the tabulated kernel, or `None` when the ladder is too long for
/// the threshold table.
fn sample_tabulated<R: Scalar, E: Fn(R) -> R, B: Fn(u64, R) -> bool, C: Fn(R) -> u64>(
    graph: &IsingGraph,
    view: &IntGraph,
    params: &SampleParams,
    odds: &Odds<R, E, B>,
    cut: &C,
    cancel: Option<(&CancelToken, Option<u64>)>,
) -> (r: Result<Option<Vec<SamplerResult>>, SampleCancelled>)
    requires
        graph.fits(),
        view.wf(),
        view@ == unit_lattice(*graph),
        odds.total(),
        odds.ladder@.len() == params.rungs(),
        forall|p: R| #[trigger] call_requires(*cut, (p,)),
    ensures
        r is Err ==> may_cancel(cancel),
        r matches Ok(x) ==> (x is Some <==> params.rungs() * DRAW_ROW <= MAX_DRAW_BYTES),
        r matches Ok(Some(results)) ==> results@.len() == params.reads() && tabulated_with(
            *odds,
            *cut,
            *graph,
            view.top(),
            *params,
            results@,
        ),
{
    let rungs: usize = params.num_betas();
    let sweeps_per: usize = or_one(params.sweeps_per_beta);
    let num_reads: usize = or_one(params.num_reads);
    proof {
        view.lemma_lattice();
    }
    let cuts = level_rows(odds, cut, view.row_len());
    let mut table_source = Source::seeded(params.seed ^ TABLE_SALT);
    let draws = match draw_table(&cuts, &mut table_source) {
        Some(draws) => draws,
        None => {
            return Ok(None);
        },
    };
    proof {
        table_source.lemma_record(params.seed ^ TABLE_SALT);
        assert(table_on(cuts@, table_source.log(), draws@));
        assert(drawn_table(params.seed, cuts@, draws@));
        assert forall|i: int| 0 <= i < draws@.len() implies #[trigger] draws@[i] <= 127 by {
            lemma_table_bound(params.seed, cuts@, draws@, i);
        }
        assert(draws@.len() as int / 8192 == rungs);
    }
    let mut results: Vec<SamplerResult> = Vec::new();
    let mut read: usize = 0;
    while read < num_reads
        invariant
            view.wf(),
            0 < view@.h.len() <= 0x7fff_ffff,
            view@ == unit_lattice(*graph),
            rungs == params.rungs(),
            sweeps_per == params.per_rung(),
            rungs * sweeps_per <= usize::MAX,
            draws@.len() as int / 8192 == rungs,
            forall|i: int| 0 <= i < draws@.len() ==> #[trigger] draws@[i] <= 127,
            read <= num_reads,
            results@.len() == read,
            tabulated_results(*graph, draws@, *params, results@),
        decreases num_reads - read,
    {
        if poll(cancel) {
            return Err(SampleCancelled);
        }
        let ghost before = results@;
        let mut src = Source::of_read(params.seed, read);
        let mut spins = toss_spins(view.num_nodes(), &mut src);
        let ghost start = spins@;
        let ghost coins = src.log();
        let offsets = draw_shifts(rungs * sweeps_per, &mut src);
        proof {
            src.lemma_record(read_seed_of(params.seed, read as u64));
            assert forall|v: int| 0 <= v < start.len() implies src.log()[0 + v] == Draw::Coin(
                (#[trigger] start[v]) == 1,
            ) by {
                assert(coins[0 + v] == Draw::Coin(start[v] == 1));
                assert(src.log().take(coins.len() as int)[v] == src.log()[v]);
            }
            assert(tossed(src.log(), 0, start));
        }
        match anneal_from(view, &draws, sweeps_per, &mut spins, &offsets, cancel) {
            Ok(_) => {},
            Err(e) => {
                return Err(e);
            },
        }
        proof {
            assert(tabulated_run(
                unit_lattice(*graph),
                draws@,
                params.seed,
                params.rungs(),
                params.per_rung(),
                read as int,
                spins@,
            ));
        }
        results.push(score_spins(spins, graph));
        proof {
            assert forall|i: int| 0 <= i < results@.len() implies scored(
                *graph,
                #[trigger] results@[i],
            ) && tabulated_run(
                unit_lattice(*graph),
                draws@,
                params.seed,
                params.rungs(),
                params.per_rung(),
                i,
                results@[i].spins@,
            ) by {
                if i < read {
                    assert(results@[i] == before[i]);
                }
            }
        }
        read = read + 1;
    }
    Ok(Some(results))
}

/// The results of the tabulated kernel for the levels of the ladder.
pub open spec fn tabulated_with<R: Scalar, E: Fn(R) -> R, B: Fn(u64, R) -> bool, C: Fn(R) -> u64>(
    odds: Odds<R, E, B>,
    cut: C,
    g: IsingGraph,
    top: int,
    params: SampleParams,
    results: Seq<SamplerResult>,
) -> bool {
    exists|cuts: Seq<Vec<u64>>, draws: Seq<u8>|
        {
            &&& tabulates(odds, cut, (top + 1) as nat, cuts)
            &&& #[trigger] drawn_table(params.seed, cuts, draws)
            &&& tabulated_results(g, draws, params, results)
        }
}

/// Blocks of 64 reads that hold `reads` reads.
pub open spec fn blocks_for(reads: nat) -> nat {
    (reads + 63) as nat / 64
}

/// Result `i` is a scored solution and lane `i % 64` of block `i / 64`.
pub open spec fn unpacks(
    g: IsingGraph,
    states: Seq<MscState>,
    results: Seq<SamplerResult>,
) -> bool {
    forall|i: int|
        0 <= i < results.len() ==> scored(g, #[trigger] results[i]) && results[i].spins@
            == lane_spins(states[i / 64]@, (i % 64) as u64)
}

/// Block `j` holds the first words of the generator of its first read.
pub open spec fn blocks_drawn(seed: u64, starts: Seq<MscState>) -> bool {
    forall|j: int| 0 <= j < starts.len() ==> block_drawn(seed, j, #[trigger] starts[j])
}

/// The block holds the first words of the generator of read `64 * j`.
pub open spec fn block_drawn(seed: u64, j: int, start: MscState) -> bool {
    exists|log: Seq<Draw>| #[trigger]
        words_on(log, 0, start@) && drawn_from(read_seed_of(seed, (64 * j) as u64), log)
}

/// The results of the multi-spin kernel for the levels of the ladder: the
/// lanes of blocks that anneal together over these classes.
pub open spec fn multi_spin_with<R: Scalar, E: Fn(R) -> R, B: Fn(u64, R) -> bool, C: Fn(R) -> u64>(
    odds: Odds<R, E, B>,
    cut: C,
    g: IsingGraph,
    classes: Seq<Seq<u32>>,
    top: int,
    params: SampleParams,
    results: Seq<SamplerResult>,
) -> bool {
    exists|cuts: Seq<Vec<u64>>, starts: Seq<MscState>, states: Seq<MscState>|
        {
            &&& tabulates(odds, cut, (top + 1) as nat, cuts)
            &&& states.len() == blocks_for(params.reads())
            &&& blocks_drawn(params.seed, starts)
            &&& #[trigger] rungs_reached(
                unit_lattice(g),
                classes,
                cuts,
                params.seed,
                params.per_rung(),
                params.rungs(),
                starts,
                states,
            )
            &&& unpacks(g, states, results)
        }
}

/// Score the lanes of the blocks, `num_reads` of them.
fn unpack_reads(graph: &IsingGraph, states: &Vec<MscState>, num_reads: usize) -> (results: Vec<
    SamplerResult,
>)
    requires
        states@.len() == blocks_for(num_reads as nat),
        forall|j: int| 0 <= j < states@.len() ==> (#[trigger] states@[j])@.len() == graph.h@.len(),
    ensures
        results@.len() == num_reads,
        unpacks(*graph, states@, results@),
{
    let mut results: Vec<SamplerResult> = Vec::new();
    let mut read: usize = 0;
    while read < num_reads
        invariant
            states@.len() == blocks_for(num_reads as nat),
            forall|j: int|
                0 <= j < states@.len() ==> (#[trigger] states@[j])@.len() == graph.h@.len(),
            read <= num_reads,
            results@.len() == read,
            unpacks(*graph, states@, results@),
        decreases num_reads - read,
    {
        let ghost before = results@;
        let state = &states[read / LANES];
        let spins = state.lane(read % LANES);
        results.push(score_spins(spins, graph));
        proof {
            assert forall|i: int| 0 <= i < results@.len() implies scored(
                *graph,
                #[trigger] results@[i],
            ) && results@[i].spins@ == lane_spins(states@[i / 64]@, (i % 64) as u64) by {
                if i < read {
                    assert(results@[i] == before[i]);
                }
            }
        }
        read = read + 1;
    }
    results
}

/// Random blocks for `num_reads` reads, each from the generator of its first
/// read.
fn random_blocks(
    n: usize,
    num_reads: usize,
    seed: u64,
    cancel: Option<(&CancelToken, Option<u64>)>,
) -> (r: Result<Vec<MscState>, SampleCancelled>)
    ensures
        r is Err ==> may_cancel(cancel),
        r matches Ok(states) ==> states@.len() == blocks_for(num_reads as nat) && forall|j: int|
            0 <= j < states@.len() ==> (#[trigger] states@[j])@.len() == n,
        r matches Ok(states) ==> blocks_drawn(seed, states@),
{
    let mut states: Vec<MscState> = Vec::new();
    let mut left: usize = num_reads;
    while left > 0
        invariant
            left <= num_reads,
            left > 0 ==> num_reads - left == states@.len() * 64,
            left == 0 ==> states@.len() == blocks_for(num_reads as nat),
            forall|j: int| 0 <= j < states@.len() ==> (#[trigger] states@[j])@.len() == n,
            blocks_drawn(seed, states@),
        decreases left,
    {
        if poll(cancel) {
            return Err(SampleCancelled);
        }
        let ghost before = states@;
        let mut src = Source::of_read(seed, num_reads - left);
        let state = MscState::from_words(draw_words(n, &mut src));
        proof {
            src.lemma_record(read_seed_of(seed, (num_reads - left) as u64));
            assert(words_on(src.log(), 0, state@));
            assert(block_drawn(seed, before.len() as int, state));
        }
        states.push(state);
        assert forall|j: int| 0 <= j < states@.len() implies block_drawn(
            seed,
            j,
            #[trigger] states@[j],
        ) by {
            if j < before.len() {
                assert(states@[j] == before[j]);
            }
        }
        left = if left > LANES {
            left - LANES
        } else {
            0
        };
    }
    Ok(states)
}

/// All reads of the multi-spin kernel over these classes.
fn sample_multi_spin<R: Scalar, E: Fn(R) -> R, B: Fn(u64, R) -> bool, C: Fn(R) -> u64>(
    graph: &IsingGraph,
    view: &IntGraph,
    counts: &Vec<u8>,
    colors: &Coloring,
    params: &SampleParams,
    odds: &Odds<R, E, B>,
    cut: &C,
    cancel: Option<(&CancelToken, Option<u64>)>,
) -> (r: Result<Vec<SamplerResult>, SampleCancelled>)
    requires
        graph.fits(),
        view.wf(),
        view@ == unit_lattice(*graph),
        counts_bonds(view@, counts@),
        colors.covers(graph.h@.len() as int),
        odds.total(),
        odds.ladder@.len() == params.rungs(),
        forall|p: R| #[trigger] call_requires(*cut, (p,)),
    ensures
        r is Err ==> may_cancel(cancel),
        r matches Ok(results) ==> results@.len() == params.reads() && multi_spin_with(
            *odds,
            *cut,
            *graph,
            colors@,
            view.top(),
            *params,
            results@,
        ),
{
    let rungs: usize = params.num_betas();
    let num_reads: usize = or_one(params.num_reads);
    proof {
        view.lemma_lattice();
    }
    let cuts = level_rows(odds, cut, view.row_len());
    let mut states = match random_blocks(view.num_nodes(), num_reads, params.seed, cancel) {
        Ok(states) => states,
        Err(e) => {
            return Err(e);
        },
    };
    let ghost starts = states@;
    match anneal_words(
        view,
        counts,
        colors,
        &cuts,
        params.sweeps_per_beta,
        params.seed,
        &mut states,
        cancel,
    ) {
        Ok(_) => {},
        Err(e) => {
            return Err(e);
        },
    }
    proof {
        lemma_blocks_keep_size(
            view@,
            colors@,
            cuts@,
            params.seed,
            params.per_rung(),
            rungs as nat,
            starts,
            states@,
        );
    }
    let results = unpack_reads(graph, &states, num_reads);
    Ok(results)
}

/// An anneal keeps the number of blocks and their size.
proof fn lemma_blocks_keep_size(
    l: Lattice,
    classes: Seq<Seq<u32>>,
    cuts: Seq<Vec<u64>>,
    seed: u64,
    per: nat,
    b: nat,
    starts: Seq<MscState>,
    states: Seq<MscState>,
)
    requires
        rungs_reached(l, classes, cuts, seed, per, b, starts, states),
    ensures
        states.len() == starts.len(),
        forall|j: int| 0 <= j < states.len() ==> (#[trigger] states[j])@.len() == l.h.len(),
{
}

/// The reads of the tabulated kernel are independent given the table: read `i`
/// tosses its start spins and then draws a shift for each sweep, all from the
/// generator with the seed of read `i`, which no other read of the job has.
pub proof fn every_tabulated_read_has_its_own_generator(
    g: IsingGraph,
    draws: Seq<u8>,
    params: SampleParams,
    results: Seq<SamplerResult>,
    i: int,
    j: int,
)
    requires
        results.len() <= u64::MAX,
        tabulated_results(g, draws, params, results),
        0 <= i < results.len(),
        0 <= j < results.len(),
        i != j,
    ensures
        exists|log: Seq<Draw>, start: Seq<i8>, offsets: Seq<usize>|
            #![trigger tossed(log, 0, start), shifts_on(log, start.len() as int, offsets)]
            {
                &&& drawn_from(read_seed_of(params.seed, i as u64), log)
                &&& start.len() == g.h@.len()
                &&& tossed(log, 0, start)
                &&& offsets.len() == params.rungs() * params.per_rung()
                &&& shifts_on(log, start.len() as int, offsets)
                &&& results[i].spins@ == annealed(
                    unit_lattice(g),
                    start,
                    draws,
                    params.per_rung(),
                    offsets,
                    params.rungs(),
                    0,
                )
            },
        read_seed_of(params.seed, i as u64) != read_seed_of(params.seed, j as u64),
{
    reads_of_a_job_have_distinct_seeds(params.seed, i as u64, j as u64);
    let l = unit_lattice(g);
    let (rungs, per) = (params.rungs(), params.per_rung());
    assert(scored(g, results[i]));
    let (log, start, offsets) = choose|log: Seq<Draw>, start: Seq<i8>, offsets: Seq<usize>|
        #![trigger annealed(l, start, draws, per, offsets, rungs, 0), drawn_from(read_seed_of(params.seed, i as u64), log)]
        {
            &&& drawn_from(read_seed_of(params.seed, i as u64), log)
            &&& tossed(log, 0, start)
            &&& shifts_on(log, l.h.len() as int, offsets)
            &&& l.fits_spins(start)
            &&& offsets.len() == rungs * per
            &&& forall|i: int| 0 <= i < offsets.len() ==> #[trigger] offsets[i] < DRAW_ROW
            &&& results[i].spins@ == annealed(l, start, draws, per, offsets, rungs, 0)
        };
    assert(tossed(log, 0, start));
    assert(shifts_on(log, start.len() as int, offsets));
}

/// The blocks of the multi-spin kernel start independently: block `j` is made of
/// the first words of the generator of read `64 * j`, its own first read, and no
/// other block has that generator.
pub proof fn every_block_has_its_own_generator(seed: u64, starts: Seq<MscState>, i: int, j: int)
    requires
        64 * starts.len() <= u64::MAX,
        blocks_drawn(seed, starts),
        0 <= i < starts.len(),
        0 <= j < starts.len(),
        i != j,
    ensures
        exists|log: Seq<Draw>| #[trigger]
            drawn_from(read_seed_of(seed, (64 * i) as u64), log) && starts[i]@.len() <= log.len()
                && forall|v: int|
                0 <= v < starts[i]@.len() ==> log[v] == Draw::Word(#[trigger] starts[i]@[v]),
        read_seed_of(seed, (64 * i) as u64) != read_seed_of(seed, (64 * j) as u64),
{
    reads_of_a_job_have_distinct_seeds(seed, (64 * i) as u64, (64 * j) as u64);
    assert(block_drawn(seed, i, starts[i]));
    let log = choose|log: Seq<Draw>| #[trigger]
        words_on(log, 0, starts[i]@) && drawn_from(read_seed_of(seed, (64 * i) as u64), log);
    assert forall|v: int| 0 <= v < starts[i]@.len() implies log[v] == Draw::Word(
        #[trigger] starts[i]@[v],
    ) by {
        assert(log[0 + v] == Draw::Word(starts[i]@[v]));
    }
}

/// What a job on `g` returns: which kernel serves it and what that kernel makes.
pub open spec fn variant_results<
    R: Scalar,
    E: Fn(R) -> R,
    B: Fn(u64, R) -> bool,
    C: Fn(R) -> u64,
>(
    odds: Odds<R, E, B>,
    cut: C,
    g: IsingGraph,
    params: SampleParams,
    variant: SaVariant,
    results: Seq<SamplerResult>,
) -> bool {
    let l = unit_lattice(g);
    let top = max_reach(l, g.h@.len() as int);
    if !representable(g) {
        metropolis_results(odds, g, params, results)
    } else if variant == SaVariant::MultiSpin && packable(l) {
        exists|classes: Seq<Seq<u32>>| #[trigger]
            colored(lattice(g), classes) && multi_spin_with(
                odds,
                cut,
                g,
                classes,
                top,
                params,
                results,
            )
    } else if params.rungs() * DRAW_ROW <= MAX_DRAW_BYTES {
        tabulated_with(odds, cut, g, top, params, results)
    } else {
        metropolis_results(odds, g, params, results)
    }
}

/// Whether a job runs on the multi-spin kernel, which visits colour classes.
pub open spec fn colors_job(variant: SaVariant, g: IsingGraph) -> bool {
    variant == SaVariant::MultiSpin && representable(g) && packable(unit_lattice(g))
}

/// Run one job on the selected kernel, or on the next one down when the problem
/// does not qualify.
///
/// `cut` says how many of the 2^64 draws fall below a probability under 1. The
/// cache holds the last colouring.
pub fn sample_sa_variant_with_cache<
    R: Scalar,
    E: Fn(R) -> R,
    B: Fn(u64, R) -> bool,
    C: Fn(R) -> u64,
>(
    graph: &IsingGraph,
    params: &SampleParams,
    variant: SaVariant,
    odds: &Odds<R, E, B>,
    cut: &C,
    cancel: Option<(&CancelToken, Option<u64>)>,
    cache: &mut Option<CachedColoring>,
) -> (r: Result<Vec<SamplerResult>, SampleCancelled>)
    requires
        graph.fits(),
        *old(cache) matches Some(entry) ==> entry.wf(),
        odds.total(),
        odds.ladder@.len() == params.rungs(),
        forall|p: R| #[trigger] call_requires(*cut, (p,)),
    ensures
        *final(cache) matches Some(entry) ==> entry.wf(),
        (*old(cache) matches Some(entry) && entry.serves(*graph)) ==> *final(cache) == *old(cache),
        colors_job(variant, *graph) ==> (*final(cache) matches Some(entry) && entry.serves(
            *graph,
        )),
        !colors_job(variant, *graph) ==> *final(cache) == *old(cache),
        r is Err ==> may_cancel(cancel),
        r matches Ok(results) ==> results@.len() == params.reads() && variant_results(
            *odds,
            *cut,
            *graph,
            *params,
            variant,
            results@,
        ),
{
    let view = match IntGraph::from_base(graph) {
        Some(view) => view,
        None => {
            return sample_sa_cancellable(graph, params, odds, cancel);
        },
    };
    if variant == SaVariant::MultiSpin {
        if let Some(counts) = bond_counts(&view) {
            cached_coloring(cache, graph);
            if let Some(entry) = cache {
                proof {
                    entry.lemma_colors(*graph);
                }
                return sample_multi_spin(
                    graph,
                    &view,
                    &counts,
                    entry.colors(),
                    params,
                    odds,
                    cut,
                    cancel,
                );
            }
        }
    }
    match sample_tabulated(graph, &view, params, odds, cut, cancel) {
        Ok(Some(results)) => Ok(results),
        Ok(None) => sample_sa_cancellable(graph, params, odds, cancel),
        Err(e) => Err(e),
    }
}

/// What the clones of a sampler share: the core budget and the colouring of the
/// last graph. It stands beside the clones and has no copies.
pub struct SaShared {
    budget: CoreBudget,
    coloring: Option<CachedColoring>,
}

impl SaShared {
    /// The colouring that is kept is one of a graph.
    pub closed spec fn wf(&self) -> bool {
        self.coloring matches Some(entry) ==> entry.wf()
    }

    /// The core budget.
    pub closed spec fn budget(&self) -> CoreBudget {
        self.budget
    }

    /// The colouring that is kept.
    pub closed spec fn kept(&self) -> Option<CachedColoring> {
        self.coloring
    }

    /// No budget set and nothing kept.
    pub fn new() -> (r: Self)
        ensures
            r.wf(),
            r.budget().stored() == 0,
            r.kept() is None,
    {
        SaShared { budget: CoreBudget::new(), coloring: None }
    }

    /// The colouring that is kept, if there is one.
    pub fn cached(&self) -> (r: &Option<CachedColoring>)
        ensures
            *r == self.kept(),
    {
        &self.coloring
    }
}

/// Tabulated and multi-spin backend. A clone runs on the shared state of its
/// owner.
#[derive(Debug, Clone, Copy)]
pub struct SaSampler {
    variant: SaVariant,
}

impl SaSampler {
    /// The kernel that it drives.
    pub closed spec fn drives(&self) -> SaVariant {
        self.variant
    }

    /// A sampler for `variant`.
    pub fn new(variant: SaVariant) -> (s: Self)
        ensures
            s.drives() == variant,
    {
        SaSampler { variant }
    }

    /// Models to run at once on a host with this parallelism.
    pub fn stream_width(&self, shared: &SaShared, host: usize) -> (w: usize)
        ensures
            w == shared.budget().cores(host),
    {
        shared.budget.get(host)
    }

    /// Apply the operator settings to the shared budget.
    pub fn apply_config(&self, shared: &mut SaShared, backend_toml: &str, host: usize) -> (r:
        Result<(), NumCpusError>)
        ensures
            final(shared).kept() == old(shared).kept(),
            final(shared).wf() == old(shared).wf(),
            final(shared).budget().stored() == budget_after(
                old(shared).budget().stored(),
                num_cpus_of(backend_toml@),
                host,
            ),
            r is Ok <==> num_cpus_of(backend_toml@) is Ok,
            r matches Err(e) ==> num_cpus_of(backend_toml@) == Err::<Option<usize>, NumCpusError>(
                e,
            ),
    {
        shared.budget.apply(backend_toml, host)
    }

    /// Serve one job with the colouring that the clones share.
    pub fn sample<R: Scalar, E: Fn(R) -> R, B: Fn(u64, R) -> bool, C: Fn(R) -> u64>(
        &self,
        shared: &mut SaShared,
        graph: &IsingGraph,
        params: &SampleParams,
        odds: &Odds<R, E, B>,
        cut: &C,
    ) -> (results: Vec<SamplerResult>)
        requires
            old(shared).wf(),
            graph.fits(),
            odds.total(),
            odds.ladder@.len() == params.rungs(),
            forall|p: R| #[trigger] call_requires(*cut, (p,)),
        ensures
            final(shared).wf(),
            final(shared).budget() == old(shared).budget(),
            (old(shared).kept() matches Some(entry) && entry.serves(*graph)) ==> (final(shared).kept()
                == old(shared).kept()),
            colors_job(self.drives(), *graph) ==> (final(shared).kept() matches Some(entry)
                && entry.serves(*graph)),
            !colors_job(self.drives(), *graph) ==> final(shared).kept() == old(shared).kept(),
            results@.len() == params.reads(),
            variant_results(*odds, *cut, *graph, *params, self.drives(), results@),
    {
        match sample_sa_variant_with_cache(
            graph,
            params,
            self.variant,
            odds,
            cut,
            None,
            &mut shared.coloring,
        ) {
            Ok(results) => results,
            Err(_) => Vec::new(),
        }
    }
}

/// Every solution of an annealing job is scored, whichever kernel serves it: its
/// spins are valid and its energy is the consensus energy of those spins.
pub proof fn every_annealed_result_is_scored<
    R: Scalar,
    E: Fn(R) -> R,
    B: Fn(u64, R) -> bool,
    C: Fn(R) -> u64,
>(
    odds: Odds<R, E, B>,
    cut: C,
    g: IsingGraph,
    params: SampleParams,
    variant: SaVariant,
    results: Seq<SamplerResult>,
    i: int,
)
    requires
        variant_results(odds, cut, g, params, variant, results),
        0 <= i < results.len(),
    ensures
        scored(g, results[i]),
{
}

/// A cache never changes an answer: what the multi-spin kernel makes of a kept
/// colouring is what it makes of a fresh one.
pub proof fn a_kept_coloring_gives_the_same_answers<
    R: Scalar,
    E: Fn(R) -> R,
    B: Fn(u64, R) -> bool,
    C: Fn(R) -> u64,
>(
    entry: CachedColoring,
    odds: Odds<R, E, B>,
    cut: C,
    g: IsingGraph,
    fresh: Seq<Seq<u32>>,
    params: SampleParams,
    results: Seq<SamplerResult>,
)
    requires
        entry.wf(),
        entry.serves(g),
        colored(lattice(g), fresh),
    ensures
        multi_spin_with(
            odds,
            cut,
            g,
            entry.classes(),
            max_reach(unit_lattice(g), g.h@.len() as int),
            params,
            results,
        ) <==> multi_spin_with(
            odds,
            cut,
            g,
            fresh,
            max_reach(unit_lattice(g), g.h@.len() as int),
            params,
            results,
        ),
        colors_job(SaVariant::MultiSpin, g) ==> (variant_results(
            odds,
            cut,
            g,
            params,
            SaVariant::MultiSpin,
            results,
        ) <==> multi_spin_with(
            odds,
            cut,
            g,
            entry.classes(),
            max_reach(unit_lattice(g), g.h@.len() as int),
            params,
            results,
        )),
{
    entry.kept_colors_match_fresh_ones(g, fresh);
    if colors_job(SaVariant::MultiSpin, g) && variant_results(
        odds,
        cut,
        g,
        params,
        SaVariant::MultiSpin,
        results,
    ) {
        let classes = choose|classes: Seq<Seq<u32>>| #[trigger]
            colored(lattice(g), classes) && multi_spin_with(
                odds,
                cut,
                g,
                classes,
                max_reach(unit_lattice(g), g.h@.len() as int),
                params,
                results,
            );
        entry.kept_colors_match_fresh_ones(g, classes);
    }
}

/// A problem without an integer view is served as a plain Metropolis job, under
/// either variant.
pub proof fn other_problems_run_the_general_kernel<
    R: Scalar,
    E: Fn(R) -> R,
    B: Fn(u64, R) -> bool,
    C: Fn(R) -> u64,
>(
    odds: Odds<R, E, B>,
    cut: C,
    g: IsingGraph,
    params: SampleParams,
    variant: SaVariant,
    results: Seq<SamplerResult>,
)
    requires
        !representable(g),
    ensures
        variant_results(odds, cut, g, params, variant, results) <==> ising_results(
            odds,
            g,
            params,
            Algorithm::Sa,
            results,
        ),
{
}

} // verus!
