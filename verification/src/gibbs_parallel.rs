//! Chromatic Gibbs sampling.
//!
//! One sweep visits every colour class in order. A class is an independent set,
//! so every member's conditional distribution depends only on nodes outside the
//! class, and the whole class resamples at once. Classes run in sequence,
//! because a class reads what the class before it wrote. Workers split the
//! members of a single class.
//!
//! Randomness is counter-based, keyed on read, step and node, so that one seed
//! gives one result at any worker count.
use vstd::prelude::*;

use crate::accept::Odds;
use crate::coloring::{
    colored, greedy, greedy_classes_are_independent, independent, lists_class, lists_classes,
    Coloring,
};
use crate::ising::{lattice, lattice_is_wf, row_field, valid_spins, Bond, IsingGraph, Lattice};
use crate::mix::{
    lemma_odd_scale_is_one_to_one, splitmix, splitmix64, splitmix_is_one_to_one, GOLDEN,
};
use crate::rng::{read_seed, read_seed_of, reads_of_a_job_have_distinct_seeds};
use crate::sampler_core::{
    effective_field, or_one, score_spins, scored, CpuGraph, SampleParams, SamplerResult,
};
use crate::scalar::Scalar;

verus! {

/// Default workers per model.
pub const DEFAULT_GIBBS_WORKERS: usize = 4;

/// Multiplier that spreads the step counter over the key space.
pub const STEP_MULTIPLIER: u64 = 0x2545_F491_4F6C_DD1D;

/// Bits below which a draw of 53 bits is under one half.
pub const HALF: u64 = 0x10_0000_0000_0000;

/// The mixed word of one node at one step, from which its draw is cut.
pub open spec fn word_at(seed: u64, step: u64, node: u32) -> u64 {
    splitmix(
        seed ^ splitmix(step.wrapping_mul(STEP_MULTIPLIER)) ^ splitmix(
            (node as u64).wrapping_mul(GOLDEN),
        ),
    )
}

/// The 53 random bits of one node at one step.
pub open spec fn bits_of(seed: u64, step: u64, node: u32) -> u64 {
    word_at(seed, step, node) >> 11
}

/// The 53 random bits of one node at one step of the schedule.
pub fn draw_bits(seed: u64, step: u64, node: u32) -> (bits: u64)
    ensures
        bits == bits_of(seed, step, node),
{
    let key: u64 = seed ^ splitmix64(step.wrapping_mul(STEP_MULTIPLIER)) ^ splitmix64(
        (node as u64).wrapping_mul(GOLDEN),
    );
    splitmix64(key) >> 11
}

/// A draw has 53 bits.
pub proof fn draws_have_53_bits(seed: u64, step: u64, node: u32)
    ensures
        bits_of(seed, step, node) < 0x20_0000_0000_0000,
{
    let key = seed ^ splitmix(step.wrapping_mul(STEP_MULTIPLIER)) ^ splitmix(
        (node as u64).wrapping_mul(GOLDEN),
    );
    let z = splitmix(key);
    assert(z >> 11 < 0x20_0000_0000_0000) by (bit_vector);
}

/// A draw is keyed on all of seed, step and node: where two keys differ in one of
/// them, the draws are the top bits of two different words.
pub proof fn draws_are_cut_from_different_words(
    seed: u64,
    step: u64,
    node: u32,
    other_seed: u64,
    other_step: u64,
    other_node: u32,
)
    ensures
        bits_of(seed, step, node) == word_at(seed, step, node) >> 11,
        step != other_step ==> word_at(seed, step, node) != word_at(seed, other_step, node),
        node != other_node ==> word_at(seed, step, node) != word_at(seed, step, other_node),
        seed != other_seed ==> word_at(seed, step, node) != word_at(other_seed, step, node),
{
    let s = splitmix(step.wrapping_mul(STEP_MULTIPLIER));
    let v = splitmix((node as u64).wrapping_mul(GOLDEN));
    if step != other_step {
        let t = splitmix(other_step.wrapping_mul(STEP_MULTIPLIER));
        if step.wrapping_mul(STEP_MULTIPLIER) == other_step.wrapping_mul(STEP_MULTIPLIER) {
            lemma_odd_scale_is_one_to_one(
                step,
                other_step,
                STEP_MULTIPLIER,
                0x5907_1D96_D81E_CD35,
            );
        }
        splitmix_is_one_to_one(
            step.wrapping_mul(STEP_MULTIPLIER),
            other_step.wrapping_mul(STEP_MULTIPLIER),
        );
        assert(s != t ==> seed ^ s ^ v != seed ^ t ^ v) by (bit_vector);
        splitmix_is_one_to_one(seed ^ s ^ v, seed ^ t ^ v);
    }
    if node != other_node {
        let w = splitmix((other_node as u64).wrapping_mul(GOLDEN));
        if (node as u64).wrapping_mul(GOLDEN) == (other_node as u64).wrapping_mul(GOLDEN) {
            lemma_odd_scale_is_one_to_one(
                node as u64,
                other_node as u64,
                GOLDEN,
                0xF1DE_83E1_9937_733D,
            );
        }
        splitmix_is_one_to_one(
            (node as u64).wrapping_mul(GOLDEN),
            (other_node as u64).wrapping_mul(GOLDEN),
        );
        assert(v != w ==> seed ^ s ^ v != seed ^ s ^ w) by (bit_vector);
        splitmix_is_one_to_one(seed ^ s ^ v, seed ^ s ^ w);
    }
    if seed != other_seed {
        assert(seed != other_seed ==> seed ^ s ^ v != other_seed ^ s ^ v) by (bit_vector);
        splitmix_is_one_to_one(seed ^ s ^ v, other_seed ^ s ^ v);
    }
}

/// No two class updates of a run cut the draw of a node from one word, and none
/// shares its word with the draw of the node's start spin.
pub proof fn class_updates_draw_afresh(seed: u64, a: int, b: int, node: u32)
    requires
        0 <= a < b < u64::MAX,
    ensures
        word_at(seed, step_of(a), node) != word_at(seed, step_of(b), node),
        word_at(seed, step_of(a), node) != word_at(seed, u64::MAX, node),
{
    lemma_steps_differ(a, b);
    draws_are_cut_from_different_words(seed, step_of(a), node, seed, step_of(b), node);
    draws_are_cut_from_different_words(seed, step_of(a), node, seed, u64::MAX, node);
}

proof fn lemma_steps_differ(a: int, b: int)
    requires
        0 <= a < b < u64::MAX,
    ensures
        step_of(a) != step_of(b),
        step_of(a) != u64::MAX,
{
    vstd::arithmetic::div_mod::lemma_small_mod(a as nat, 0x1_0000_0000_0000_0000);
    vstd::arithmetic::div_mod::lemma_small_mod(b as nat, 0x1_0000_0000_0000_0000);
}

/// The spins that a read starts from: up where the draw is under one half.
pub open spec fn start_of(n: nat, seed: u64) -> Seq<i8> {
    Seq::new(
        n,
        |v: int|
            if bits_of(seed, u64::MAX, v as u32) < HALF {
                1i8
            } else {
                -1i8
            },
    )
}

/// The spins that a read with this seed starts from.
pub fn start_spins(n: usize, seed: u64) -> (spins: Vec<i8>)
    requires
        n <= u32::MAX,
    ensures
        spins@ == start_of(n as nat, seed),
        valid_spins(spins@),
{
    let mut spins: Vec<i8> = Vec::with_capacity(n);
    let mut v: usize = 0;
    while v < n
        invariant
            v <= n,
            n <= u32::MAX,
            spins@.len() == v,
            forall|i: int| 0 <= i < v ==> #[trigger] spins@[i] == start_of(n as nat, seed)[i],
        decreases n - v,
    {
        let s: i8 = if draw_bits(seed, u64::MAX, v as u32) < HALF {
            1
        } else {
            -1
        };
        spins.push(s);
        v = v + 1;
    }
    assert(spins@ =~= start_of(n as nat, seed));
    spins
}

/// `s` is a spin that rung `b` draws for node `v` at this step, given its field.
pub open spec fn resamples<R: Scalar, E: Fn(R) -> R, B: Fn(u64, R) -> bool>(
    odds: Odds<R, E, B>,
    b: int,
    field: int,
    seed: u64,
    step: u64,
    v: u32,
    s: i8,
) -> bool {
    odds.draws(b, field, bits_of(seed, step, v), s)
}

/// `after` follows from `before` by resampling the nodes of `part`, each from
/// the field that `before` gives it.
pub open spec fn part_step<R: Scalar, E: Fn(R) -> R, B: Fn(u64, R) -> bool>(
    odds: Odds<R, E, B>,
    l: Lattice,
    b: int,
    seed: u64,
    step: u64,
    part: Seq<u32>,
    before: Seq<i8>,
    after: Seq<i8>,
) -> bool {
    &&& after.len() == before.len()
    &&& forall|v: int|
        0 <= v < before.len() && !part.contains(v as u32) ==> #[trigger] after[v] == before[v]
    &&& forall|i: int|
        0 <= i < part.len() ==> resamples(
            odds,
            b,
            l.field(before, part[i] as int),
            seed,
            step,
            #[trigger] part[i],
            after[part[i] as int],
        )
}

/// A field does not feel spins outside its bonds.
proof fn lemma_field_local(l: Lattice, v: int, a: Seq<i8>, b: Seq<i8>)
    requires
        forall|i: int|
            0 <= i < l.rows[v].len() ==> a[(#[trigger] l.rows[v][i]).node] == b[l.rows[v][i].node],
    ensures
        l.field(a, v) == l.field(b, v),
{
    lemma_row_local(l.rows[v], a, b);
}

proof fn lemma_row_local(row: Seq<Bond>, a: Seq<i8>, b: Seq<i8>)
    requires
        forall|i: int| 0 <= i < row.len() ==> a[(#[trigger] row[i]).node] == b[row[i].node],
    ensures
        row_field(row, a) == row_field(row, b),
    decreases row.len(),
{
    if row.len() > 0 {
        assert forall|i: int| 0 <= i < row.drop_last().len() implies a[(
        #[trigger] row.drop_last()[i]).node] == b[row.drop_last()[i].node] by {
            assert(row.drop_last()[i] == row[i]);
        }
        lemma_row_local(row.drop_last(), a, b);
        assert(a[row[row.len() - 1].node] == b[row[row.len() - 1].node]);
    }
}

/// The new spins of the nodes of `part`, each from its field under `spins`.
///
/// Reads `spins` only, so that workers with different parts of one class can
/// run it at once.
pub fn conditional_spins<R: Scalar, E: Fn(R) -> R, B: Fn(u64, R) -> bool>(
    graph: &CpuGraph,
    spins: &Vec<i8>,
    part: &[u32],
    b: usize,
    seed: u64,
    step: u64,
    odds: &Odds<R, E, B>,
) -> (fresh: Vec<i8>)
    requires
        graph.wf(),
        graph@.fits_spins(spins@),
        forall|i: int| 0 <= i < part@.len() ==> #[trigger] part@[i] < graph@.h.len(),
        odds.total(),
        b < odds.ladder@.len(),
    ensures
        fresh@.len() == part@.len(),
        valid_spins(fresh@),
        forall|i: int|
            0 <= i < part@.len() ==> resamples(
                *odds,
                b as int,
                graph@.field(spins@, part@[i] as int),
                seed,
                step,
                #[trigger] part@[i],
                fresh@[i],
            ),
{
    let mut fresh: Vec<i8> = Vec::with_capacity(part.len());
    let mut i: usize = 0;
    while i < part.len()
        invariant
            graph.wf(),
            graph@.fits_spins(spins@),
            forall|i: int| 0 <= i < part@.len() ==> #[trigger] part@[i] < graph@.h.len(),
            odds.total(),
            b < odds.ladder@.len(),
            i <= part@.len(),
            fresh@.len() == i,
            valid_spins(fresh@),
            forall|k: int|
                0 <= k < i ==> resamples(
                    *odds,
                    b as int,
                    graph@.field(spins@, part@[k] as int),
                    seed,
                    step,
                    #[trigger] part@[k],
                    fresh@[k],
                ),
        decreases part@.len() - i,
    {
        let v: u32 = part[i];
        let field: i128 = effective_field(v as usize, spins, graph);
        let bits: u64 = draw_bits(seed, step, v);
        let s: i8 = odds.draw(b, field, bits);
        fresh.push(s);
        assert(resamples(*odds, b as int, field as int, seed, step, v, s));
        i = i + 1;
    }
    fresh
}

/// Write the new spins of the nodes of `part`.
pub fn store_spins(part: &[u32], fresh: &Vec<i8>, spins: &mut Vec<i8>)
    requires
        fresh@.len() == part@.len(),
        forall|i: int| 0 <= i < part@.len() ==> #[trigger] part@[i] < old(spins)@.len(),
        forall|i: int, j: int|
            0 <= i < j < part@.len() ==> #[trigger] part@[i] != #[trigger] part@[j],
    ensures
        final(spins)@.len() == old(spins)@.len(),
        forall|i: int|
            0 <= i < part@.len() ==> final(spins)@[(#[trigger] part@[i]) as int] == fresh@[i],
        forall|v: int|
            0 <= v < old(spins)@.len() && !part@.contains(v as u32)
                ==> #[trigger] final(spins)@[v] == old(spins)@[v],
        valid_spins(old(spins)@) && valid_spins(fresh@) ==> valid_spins(final(spins)@),
{
    let ghost before = spins@;
    let mut i: usize = 0;
    while i < part.len()
        invariant
            spins@.len() == before.len(),
            fresh@.len() == part@.len(),
            forall|i: int| 0 <= i < part@.len() ==> #[trigger] part@[i] < before.len(),
            forall|i: int, j: int|
                0 <= i < j < part@.len() ==> #[trigger] part@[i] != #[trigger] part@[j],
            i <= part@.len(),
            forall|k: int| 0 <= k < i ==> spins@[(#[trigger] part@[k]) as int] == fresh@[k],
            forall|v: int|
                0 <= v < before.len() && !part@.contains(v as u32) ==> #[trigger] spins@[v]
                    == before[v],
            valid_spins(before) && valid_spins(fresh@) ==> valid_spins(spins@),
        decreases part@.len() - i,
    {
        spins[part[i] as usize] = fresh[i];
        proof {
            assert forall|k: int| 0 <= k < i + 1 implies spins@[(#[trigger] part@[k]) as int]
                == fresh@[k] by {
                if k < i {
                    assert(part@[k] != part@[i as int]);
                }
            }
            assert forall|v: int|
                0 <= v < before.len() && !part@.contains(v as u32) implies #[trigger] spins@[v]
                == before[v] by {
                assert(part@.contains(part@[i as int]));
            }
        }
        i = i + 1;
    }
}

/// Resample every node of `part`, which lies inside one colour class.
pub fn update_range<R: Scalar, E: Fn(R) -> R, B: Fn(u64, R) -> bool>(
    graph: &CpuGraph,
    spins: &mut Vec<i8>,
    part: &[u32],
    b: usize,
    seed: u64,
    step: u64,
    odds: &Odds<R, E, B>,
)
    requires
        graph.wf(),
        graph@.fits_spins(old(spins)@),
        forall|i: int| 0 <= i < part@.len() ==> #[trigger] part@[i] < graph@.h.len(),
        forall|i: int, j: int|
            0 <= i < j < part@.len() ==> #[trigger] part@[i] != #[trigger] part@[j],
        odds.total(),
        b < odds.ladder@.len(),
    ensures
        graph@.fits_spins(final(spins)@),
        part_step(
            *odds,
            graph@,
            b as int,
            seed,
            step,
            part@,
            old(spins)@,
            final(spins)@,
        ),
{
    let ghost before = spins@;
    let fresh = conditional_spins(graph, spins, part, b, seed, step, odds);
    store_spins(part, &fresh, spins);
    assert forall|i: int| 0 <= i < part@.len() implies resamples(
        *odds,
        b as int,
        graph@.field(before, part@[i] as int),
        seed,
        step,
        #[trigger] part@[i],
        spins@[part@[i] as int],
    ) by {
        assert(spins@[part@[i] as int] == fresh@[i]);
    }
}

/// The members of a class of `len` that worker `wid` of `workers` takes: from
/// the first index up to the second.
pub open spec fn share(len: nat, workers: nat, wid: nat) -> (nat, nat) {
    let chunk = (len + workers - 1) as nat / workers;
    let start = if wid * chunk < len {
        wid * chunk
    } else {
        len
    };
    let end = if start + chunk < len {
        (start + chunk) as nat
    } else {
        len
    };
    (start, end)
}

/// The members of a class that one worker takes.
pub fn worker_share(len: usize, workers: usize, wid: usize) -> (r: (usize, usize))
    requires
        wid < workers,
    ensures
        r.0 == share(len as nat, workers as nat, wid as nat).0,
        r.1 == share(len as nat, workers as nat, wid as nat).1,
        r.0 <= r.1 <= len,
{
    let whole: usize = len / workers;
    let rest: usize = len % workers;
    proof {
        let (n, w) = (len as int, workers as int);
        assert(n == w * (n / w) + n % w && 0 <= n % w < w) by (nonlinear_arith)
            requires
                w > 0,
        ;
        if rest == 0 {
            assert((n + w - 1) / w == n / w) by (nonlinear_arith)
                requires
                    w > 0,
                    n == w * (n / w),
            ;
        } else {
            assert((n + w - 1) / w == n / w + 1) by (nonlinear_arith)
                requires
                    w > 0,
                    n == w * (n / w) + n % w,
                    0 < n % w < w,
            ;
        }
        if w >= 2 {
            assert(n / w < n || n == 0) by (nonlinear_arith)
                requires
                    w >= 2,
                    n >= 0,
            ;
            assert(n == 0 ==> n / w == 0) by (nonlinear_arith)
                requires
                    w > 0,
            ;
        }
    }
    let chunk: usize = if rest == 0 {
        whole
    } else {
        whole + 1
    };
    let start: usize = match wid.checked_mul(chunk) {
        Some(s) => if s < len {
            s
        } else {
            len
        },
        None => len,
    };
    let end: usize = if chunk < len - start {
        start + chunk
    } else {
        len
    };
    (start, end)
}

/// The shares of the workers stand one after another and cover the class.
pub proof fn shares_tile_the_class(len: nat, workers: nat, wid: nat)
    requires
        wid < workers,
    ensures
        wid == 0 ==> share(len, workers, wid).0 == 0,
        wid + 1 < workers ==> share(len, workers, wid).1 == share(len, workers, wid + 1).0,
        wid + 1 == workers ==> share(len, workers, wid).1 == len,
{
    let chunk = (len + workers - 1) as nat / workers;
    assert((wid + 1) * chunk == wid * chunk + chunk) by (nonlinear_arith);
    assert(workers * chunk >= len) by (nonlinear_arith)
        requires
            chunk == (len + workers - 1) as int / workers as int,
            workers > 0,
    ;
    if wid == 0 {
        assert(wid * chunk == 0) by (nonlinear_arith)
            requires
                wid == 0,
        ;
    }
    if wid + 1 == workers {
        assert((wid + 1) * chunk == workers * chunk) by (nonlinear_arith)
            requires
                wid + 1 == workers,
        ;
    }
}

/// Two parts of an independent class, one after the other, resample as the two
/// together.
proof fn lemma_parts_join<R: Scalar, E: Fn(R) -> R, B: Fn(u64, R) -> bool>(
    odds: Odds<R, E, B>,
    l: Lattice,
    b: int,
    seed: u64,
    step: u64,
    class: Seq<u32>,
    cut: int,
    end: int,
    before: Seq<i8>,
    mid: Seq<i8>,
    after: Seq<i8>,
)
    requires
        l.wf(),
        l.fits_spins(before),
        l.h.len() <= u32::MAX,
        0 <= cut <= end <= class.len(),
        independent(l, class),
        forall|i: int| 0 <= i < class.len() ==> #[trigger] class[i] < l.h.len(),
        forall|i: int, j: int|
            0 <= i < j < class.len() ==> #[trigger] class[i] != #[trigger] class[j],
        part_step(odds, l, b, seed, step, class.subrange(0, cut), before, mid),
        part_step(odds, l, b, seed, step, class.subrange(cut, end), mid, after),
    ensures
        part_step(odds, l, b, seed, step, class.subrange(0, end), before, after),
{
    let first = class.subrange(0, cut);
    let second = class.subrange(cut, end);
    let both = class.subrange(0, end);
    assert forall|v: int|
        0 <= v < before.len() && !both.contains(v as u32) implies #[trigger] after[v]
        == before[v] by {
        if first.contains(v as u32) {
            let k = choose|k: int| 0 <= k < first.len() && first[k] == v as u32;
            assert(both[k] == v as u32);
        }
        if second.contains(v as u32) {
            let k = choose|k: int| 0 <= k < second.len() && second[k] == v as u32;
            assert(both[cut + k] == v as u32);
        }
        assert(mid[v] == before[v]);
    }
    assert forall|i: int| 0 <= i < both.len() implies resamples(
        odds,
        b,
        l.field(before, both[i] as int),
        seed,
        step,
        #[trigger] both[i],
        after[both[i] as int],
    ) by {
        let v = both[i];
        assert(class[i] == v);
        if i < cut {
            assert(first[i] == v);
            if second.contains(v) {
                let k = choose|k: int| 0 <= k < second.len() && second[k] == v;
                assert(class[cut + k] == v);
            }
            assert(after[v as int] == mid[v as int]);
        } else {
            assert(second[i - cut] == v);
            assert(class.contains(v));
            assert forall|k: int| 0 <= k < l.rows[v as int].len() implies before[(
            #[trigger] l.rows[v as int][k]).node] == mid[l.rows[v as int][k].node] by {
                let w = l.rows[v as int][k].node;
                assert(!class.contains(w as u32));
                if first.contains(w as u32) {
                    let q = choose|q: int| 0 <= q < first.len() && first[q] == w as u32;
                    assert(class[q] == w as u32);
                }
                assert(mid[w] == before[w]);
            }
            lemma_field_local(l, v as int, before, mid);
        }
    }
}

/// Resample one class, worker after worker.
fn update_class<R: Scalar, E: Fn(R) -> R, B: Fn(u64, R) -> bool>(
    graph: &CpuGraph,
    class: &Vec<u32>,
    workers: usize,
    b: usize,
    seed: u64,
    step: u64,
    odds: &Odds<R, E, B>,
    spins: &mut Vec<i8>,
)
    requires
        graph.wf(),
        graph@.wf(),
        graph@.h.len() <= u32::MAX,
        graph@.fits_spins(old(spins)@),
        independent(graph@, class@),
        forall|i: int| 0 <= i < class@.len() ==> #[trigger] class@[i] < graph@.h.len(),
        forall|i: int, j: int|
            0 <= i < j < class@.len() ==> #[trigger] class@[i] != #[trigger] class@[j],
        odds.total(),
        b < odds.ladder@.len(),
        workers > 0,
    ensures
        graph@.fits_spins(final(spins)@),
        part_step(
            *odds,
            graph@,
            b as int,
            seed,
            step,
            class@,
            old(spins)@,
            final(spins)@,
        ),
{
    let ghost l = graph@;
    let ghost before = spins@;
    let ghost mut done: int = 0;
    let mut wid: usize = 0;
    while wid < workers
        invariant
            graph.wf(),
            l == graph@,
            l.wf(),
            l.h.len() <= u32::MAX,
            l.fits_spins(before),
            l.fits_spins(spins@),
            independent(l, class@),
            forall|i: int| 0 <= i < class@.len() ==> #[trigger] class@[i] < l.h.len(),
            forall|i: int, j: int|
                0 <= i < j < class@.len() ==> #[trigger] class@[i] != #[trigger] class@[j],
            odds.total(),
            b < odds.ladder@.len(),
            wid <= workers,
            0 <= done <= class@.len(),
            wid < workers ==> done == share(class@.len(), workers as nat, wid as nat).0,
            wid == workers ==> done == class@.len(),
            part_step(
                *odds,
                l,
                b as int,
                seed,
                step,
                class@.subrange(0, done),
                before,
                spins@,
            ),
        decreases workers - wid,
    {
        let (start, end) = worker_share(class.len(), workers, wid);
        let ghost mid = spins@;
        let part = vstd::slice::slice_subrange(class.as_slice(), start, end);
        assert forall|i: int| 0 <= i < part@.len() implies #[trigger] part@[i] < l.h.len() by {
            assert(part@[i] == class@[start + i]);
        }
        assert forall|i: int, j: int| 0 <= i < j < part@.len() implies #[trigger] part@[i]
            != #[trigger] part@[j] by {
            assert(part@[i] == class@[start + i] && part@[j] == class@[start + j]);
        }
        update_range(graph, spins, part, b, seed, step, odds);
        proof {
            shares_tile_the_class(class@.len(), workers as nat, wid as nat);
            lemma_parts_join(
                *odds,
                l,
                b as int,
                seed,
                step,
                class@,
                start as int,
                end as int,
                before,
                mid,
                spins@,
            );
            done = end as int;
        }
        wid = wid + 1;
    }
    assert(class@.subrange(0, done) =~= class@);
}

/// The step counter after `t` class updates.
pub open spec fn step_of(t: int) -> u64 {
    (t % 0x1_0000_0000_0000_0000) as u64
}

/// `states` is a Gibbs run, class update after class update, in sweeps over all
/// classes and rungs of `per` sweeps.
pub open spec fn gibbs_history<R: Scalar, E: Fn(R) -> R, B: Fn(u64, R) -> bool>(
    odds: Odds<R, E, B>,
    l: Lattice,
    classes: Seq<Seq<u32>>,
    per: int,
    seed: u64,
    states: Seq<Seq<i8>>,
) -> bool {
    &&& states.len() > 0
    &&& l.fits_spins(states[0])
    &&& forall|t: int|
        0 <= t < states.len() - 1 ==> #[trigger] updates_at(
            odds,
            l,
            classes,
            per,
            seed,
            states,
            t,
        )
}

/// Class update `t` of a run leads from state `t` to the next.
pub open spec fn updates_at<R: Scalar, E: Fn(R) -> R, B: Fn(u64, R) -> bool>(
    odds: Odds<R, E, B>,
    l: Lattice,
    classes: Seq<Seq<u32>>,
    per: int,
    seed: u64,
    states: Seq<Seq<i8>>,
    t: int,
) -> bool {
    part_step(
        odds,
        l,
        t / (classes.len() as int) / per,
        seed,
        step_of(t),
        classes[t % (classes.len() as int)],
        states[t],
        states[t + 1],
    )
}

/// `spins` end a Gibbs run along the ladder, `per` sweeps to a rung, that starts
/// at `start`.
pub open spec fn gibbs_run<R: Scalar, E: Fn(R) -> R, B: Fn(u64, R) -> bool>(
    odds: Odds<R, E, B>,
    l: Lattice,
    classes: Seq<Seq<u32>>,
    per: nat,
    seed: u64,
    start: Seq<i8>,
    spins: Seq<i8>,
) -> bool {
    exists|states: Seq<Seq<i8>>|
        {
            &&& #[trigger] gibbs_history(odds, l, classes, per as int, seed, states)
            &&& states.len() == odds.ladder@.len() * per * classes.len() + 1
            &&& states[0] == start
            &&& states.last() == spins
        }
}

/// The classes that a Gibbs kernel may visit: independent sets of nodes of `l`,
/// none of which lists a node twice.
pub open spec fn visitable(l: Lattice, classes: Seq<Seq<u32>>) -> bool {
    &&& forall|c: int| 0 <= c < classes.len() ==> independent(l, #[trigger] classes[c])
    &&& forall|c: int, i: int|
        #![trigger classes[c][i]]
        0 <= c < classes.len() && 0 <= i < classes[c].len() ==> classes[c][i] < l.h.len()
    &&& forall|c: int, i: int, j: int|
        #![trigger classes[c][i], classes[c][j]]
        0 <= c < classes.len() && 0 <= i < j < classes[c].len() ==> classes[c][i] != classes[c][j]
}

/// The greedy classes may be visited.
pub proof fn lemma_colored_is_visitable(l: Lattice, classes: Seq<Seq<u32>>)
    requires
        l.wf(),
        l.h.len() <= u32::MAX,
        colored(l, classes),
    ensures
        visitable(l, classes),
{
    let color = choose|color: Seq<u32>| #[trigger] greedy(l, color) && lists_classes(color, classes);
    assert forall|c: int| 0 <= c < classes.len() implies independent(l, #[trigger] classes[c]) by {
        greedy_classes_are_independent(l, color, classes, c);
    }
    assert forall|c: int, i: int|
        0 <= c < classes.len() && 0 <= i < classes[c].len() implies #[trigger] classes[c][i]
        < l.h.len() by {
        assert(lists_class(color, classes[c], c));
        assert(classes[c].contains(classes[c][i]));
    }
    assert forall|c: int, i: int, j: int|
        0 <= c < classes.len() && 0 <= i < j < classes[c].len() implies #[trigger] classes[c][i]
        != #[trigger] classes[c][j] by {
        assert(lists_class(color, classes[c], c));
    }
}

/// Where class update `c` of sweep `k` of rung `b` stands in a run.
proof fn lemma_position_in_run(b: int, k: int, c: int, per: int, nc: int)
    requires
        0 <= b,
        0 <= k < per,
        0 <= c < nc,
    ensures
        ((b * per + k) * nc + c) % nc == c,
        ((b * per + k) * nc + c) / nc == b * per + k,
        (b * per + k) / per == b,
        0 <= b * per + k,
        0 <= (b * per + k) * nc,
{
    let q = b * per + k;
    assert(0 <= b * per) by (nonlinear_arith)
        requires
            0 <= b,
            0 < per,
    ;
    assert(0 <= q * nc) by (nonlinear_arith)
        requires
            0 <= q,
            0 < nc,
    ;
    assert((q * nc + c) % nc == c && (q * nc + c) / nc == q) by (nonlinear_arith)
        requires
            0 <= c < nc,
            0 <= q,
    ;
    assert(q / per == b) by (nonlinear_arith)
        requires
            q == b * per + k,
            0 <= k < per,
            0 <= b,
    ;
}

/// One class update of a run.
#[derive(Debug, Clone, Copy, PartialEq, Eq, Structural)]
pub struct ClassUpdate {
    /// The rung of the ladder.
    pub rung: usize,
    /// The colour class.
    pub class: usize,
    /// The step counter that keys its draws.
    pub step: u64,
}

/// The class updates of a run, handed out in order: every class in each sweep,
/// the sweeps of a rung, the rungs of a ladder.
pub struct ClassPlan {
    rungs: usize,
    per: usize,
    classes: usize,
    rung: usize,
    sweep: usize,
    class: usize,
    step: u64,
}

impl ClassPlan {
    /// Rungs, sweeps to a rung, and classes to a sweep.
    pub closed spec fn shape(&self) -> (nat, nat, nat) {
        (self.rungs as nat, self.per as nat, self.classes as nat)
    }

    /// The number of updates of the whole run.
    pub open spec fn total(&self) -> nat {
        self.shape().0 * self.shape().1 * self.shape().2
    }

    /// The number of updates handed out so far.
    pub closed spec fn done(&self) -> int {
        (self.rung * self.per + self.sweep) * self.classes + self.class
    }

    /// The place in the run is one of its updates, or its end.
    pub closed spec fn wf(&self) -> bool {
        &&& if self.rung == self.rungs {
            self.sweep == 0 && self.class == 0
        } else {
            self.rung < self.rungs && self.sweep < self.per && self.class < self.classes
        }
        &&& self.step == step_of(self.done())
    }

    /// The plan of a run at its start.
    pub fn new(rungs: usize, per: usize, classes: usize) -> (plan: Self)
        ensures
            plan.wf(),
            plan.shape() == (rungs as nat, per as nat, classes as nat),
            plan.done() == 0,
    {
        let rung: usize = if per == 0 || classes == 0 {
            rungs
        } else {
            0
        };
        let plan = ClassPlan { rungs, per, classes, rung, sweep: 0, class: 0, step: 0 };
        proof {
            assert((rung * per + 0) * classes + 0 == 0) by (nonlinear_arith)
                requires
                    rung == 0 || per == 0 || classes == 0,
            ;
        }
        plan
    }

    /// Hand out the next update, or say that the run is complete.
    pub fn next_update(&mut self) -> (r: Option<ClassUpdate>)
        requires
            old(self).wf(),
        ensures
            final(self).wf(),
            final(self).shape() == old(self).shape(),
            0 <= old(self).done() <= old(self).total(),
            r is Some <==> old(self).done() < old(self).total(),
            r is None ==> final(self).done() == old(self).done(),
            r matches Some(u) ==> {
                &&& final(self).done() == old(self).done() + 1
                &&& u.rung < old(self).shape().0
                &&& u.class < old(self).shape().2
                &&& u.rung == old(self).done() / (old(self).shape().2 as int) / (
                old(self).shape().1 as int)
                &&& u.class == old(self).done() % (old(self).shape().2 as int)
                &&& u.step == step_of(old(self).done())
            },
    {
        let ghost b = self.rung as int;
        let ghost k = self.sweep as int;
        let ghost c = self.class as int;
        let ghost per = self.per as int;
        let ghost nc = self.classes as int;
        let ghost top = self.rungs as int;
        if self.rung == self.rungs {
            proof {
                assert((top * per + 0) * nc + 0 == top * per * nc) by (nonlinear_arith);
                assert(0 <= top * per * nc) by (nonlinear_arith)
                    requires
                        0 <= top,
                        0 <= per,
                        0 <= nc,
                ;
            }
            return None;
        }
        let u = ClassUpdate { rung: self.rung, class: self.class, step: self.step };
        proof {
            lemma_position_in_run(b, k, c, per, nc);
            assert((b * per + k) * nc + c < top * per * nc) by (nonlinear_arith)
                requires
                    0 <= b < top,
                    0 <= k < per,
                    0 <= c < nc,
            {
                assert(b * per + k < top * per);
                assert((b * per + k + 1) * nc <= top * per * nc);
            }
            assert((b * per + k + 1) * nc == (b * per + k) * nc + nc) by (nonlinear_arith);
            assert(((b + 1) * per + 0) * nc == (b * per + per) * nc) by (nonlinear_arith);
        }
        self.step = self.step.wrapping_add(1);
        self.class = self.class + 1;
        if self.class == self.classes {
            self.class = 0;
            self.sweep = self.sweep + 1;
            if self.sweep == self.per {
                self.sweep = 0;
                self.rung = self.rung + 1;
            }
        }
        Some(u)
    }
}

/// A run grows by one class update.
proof fn lemma_gibbs_push<R: Scalar, E: Fn(R) -> R, B: Fn(u64, R) -> bool>(
    odds: Odds<R, E, B>,
    l: Lattice,
    classes: Seq<Seq<u32>>,
    per: int,
    seed: u64,
    states: Seq<Seq<i8>>,
    after: Seq<i8>,
)
    requires
        gibbs_history(odds, l, classes, per, seed, states),
        part_step(
            odds,
            l,
            (states.len() - 1) / (classes.len() as int) / per,
            seed,
            step_of(states.len() - 1),
            classes[(states.len() - 1) % (classes.len() as int)],
            states.last(),
            after,
        ),
    ensures
        gibbs_history(odds, l, classes, per, seed, states.push(after)),
{
    let last = states.len() - 1;
    let longer = states.push(after);
    assert forall|t: int| 0 <= t < longer.len() - 1 implies #[trigger] updates_at(
        odds,
        l,
        classes,
        per,
        seed,
        longer,
        t,
    ) by {
        if t < last {
            assert(updates_at(odds, l, classes, per, seed, states, t));
            assert(longer[t] == states[t] && longer[t + 1] == states[t + 1]);
        } else {
            assert(longer[t] == states.last());
        }
    }
}

/// Resample class `c` of a colouring.
fn update_nth_class<R: Scalar, E: Fn(R) -> R, B: Fn(u64, R) -> bool>(
    graph: &CpuGraph,
    coloring: &Coloring,
    c: usize,
    workers: usize,
    b: usize,
    seed: u64,
    step: u64,
    odds: &Odds<R, E, B>,
    spins: &mut Vec<i8>,
)
    requires
        graph.wf(),
        graph@.wf(),
        graph@.h.len() <= u32::MAX,
        graph@.fits_spins(old(spins)@),
        visitable(graph@, coloring@),
        c < coloring@.len(),
        odds.total(),
        b < odds.ladder@.len(),
        workers > 0,
    ensures
        graph@.fits_spins(final(spins)@),
        part_step(
            *odds,
            graph@,
            b as int,
            seed,
            step,
            coloring@[c as int],
            old(spins)@,
            final(spins)@,
        ),
{
    let class = &coloring.classes()[c];
    assert forall|i: int| 0 <= i < class@.len() implies #[trigger] class@[i] < graph@.h.len() by {
        assert(coloring@[c as int][i] < graph@.h.len());
    }
    assert forall|i: int, j: int| 0 <= i < j < class@.len() implies #[trigger] class@[i]
        != #[trigger] class@[j] by {
        assert(coloring@[c as int][i] != coloring@[c as int][j]);
    }
    update_class(graph, class, workers, b, seed, step, odds, spins);
}

/// Run one read of chromatic Gibbs from `spins`.
///
/// `workers` splits each colour class; the result does not depend on it.
pub fn gibbs_read<R: Scalar, E: Fn(R) -> R, B: Fn(u64, R) -> bool>(
    graph: &CpuGraph,
    coloring: &Coloring,
    sweeps_per_beta: usize,
    seed: u64,
    workers: usize,
    odds: &Odds<R, E, B>,
    spins: &mut Vec<i8>,
)
    requires
        graph.wf(),
        graph@.wf(),
        graph@.h.len() <= u32::MAX,
        graph@.fits_spins(old(spins)@),
        visitable(graph@, coloring@),
        odds.total(),
    ensures
        graph@.fits_spins(final(spins)@),
        gibbs_run(
            *odds,
            graph@,
            coloring@,
            sweeps_per_beta as nat,
            seed,
            old(spins)@,
            final(spins)@,
        ),
{
    let ghost l = graph@;
    let ghost start = spins@;
    let pool: usize = or_one(workers);
    let ghost per = sweeps_per_beta as int;
    let ghost mut states: Seq<Seq<i8>> = seq![spins@];
    let mut plan = ClassPlan::new(odds.ladder.len(), sweeps_per_beta, coloring.num_classes());
    loop
        invariant
            graph.wf(),
            l == graph@,
            l.wf(),
            l.h.len() <= u32::MAX,
            visitable(l, coloring@),
            odds.total(),
            l.fits_spins(spins@),
            per == sweeps_per_beta,
            pool > 0,
            plan.wf(),
            plan.shape() == (odds.ladder@.len(), per as nat, coloring@.len()),
            plan.done() == states.len() - 1,
            states[0] == start,
            states.last() == spins@,
            gibbs_history(*odds, l, coloring@, per, seed, states),
        ensures
            plan.done() == plan.total(),
        decreases plan.total() - plan.done(),
    {
        match plan.next_update() {
            None => {
                break;
            },
            Some(u) => {
                update_nth_class(graph, coloring, u.class, pool, u.rung, seed, u.step, odds, spins);
                proof {
                    lemma_gibbs_push(*odds, l, coloring@, per, seed, states, spins@);
                    states = states.push(spins@);
                }
            },
        }
    }
}

/// One seed gives one result: two runs over the same classes from the same
/// spins agree, however the classes were split among workers, as long as the
/// same question gets the same answer twice.
pub proof fn gibbs_runs_agree<R: Scalar, E: Fn(R) -> R, B: Fn(u64, R) -> bool>(
    odds: Odds<R, E, B>,
    l: Lattice,
    classes: Seq<Seq<u32>>,
    per: int,
    seed: u64,
    one: Seq<Seq<i8>>,
    two: Seq<Seq<i8>>,
    t: int,
)
    requires
        gibbs_history(odds, l, classes, per, seed, one),
        gibbs_history(odds, l, classes, per, seed, two),
        one[0] == two[0],
        0 <= t < one.len(),
        t < two.len(),
        visitable(l, classes),
        l.h.len() <= u32::MAX,
        odds.steady(),
    ensures
        one[t] == two[t],
        one[t].len() == l.h.len(),
    decreases t,
{
    if t > 0 {
        gibbs_runs_agree(odds, l, classes, per, seed, one, two, t - 1);
        let nc = classes.len() as int;
        let b = (t - 1) / nc / per;
        let class = classes[(t - 1) % nc];
        let step = step_of(t - 1);
        let before = one[t - 1];
        assert(updates_at(odds, l, classes, per, seed, one, t - 1));
        assert(updates_at(odds, l, classes, per, seed, two, t - 1));
        assert forall|v: int| 0 <= v < one[t].len() implies #[trigger] one[t][v] == two[t][v] by {
            if class.contains(v as u32) {
                let i = choose|i: int| 0 <= i < class.len() && class[i] == v as u32;
                let f = l.field(before, v);
                assert(resamples(odds, b, f, seed, step, class[i], one[t][class[i] as int]));
                assert(resamples(odds, b, f, seed, step, class[i], two[t][class[i] as int]));
            }
        }
        assert(one[t] =~= two[t]);
    }
}

/// The members of a class may be visited in any order, and hence by any
/// interleaving of workers.
pub proof fn member_order_is_irrelevant<R: Scalar, E: Fn(R) -> R, B: Fn(u64, R) -> bool>(
    odds: Odds<R, E, B>,
    l: Lattice,
    b: int,
    seed: u64,
    step: u64,
    class: Seq<u32>,
    other: Seq<u32>,
    before: Seq<i8>,
    after: Seq<i8>,
)
    requires
        forall|v: u32| #[trigger] class.contains(v) <==> other.contains(v),
        part_step(odds, l, b, seed, step, class, before, after),
    ensures
        part_step(odds, l, b, seed, step, other, before, after),
{
    assert forall|v: int|
        0 <= v < before.len() && !other.contains(v as u32) implies #[trigger] after[v]
        == before[v] by {
        assert(!class.contains(v as u32));
    }
    assert forall|i: int| 0 <= i < other.len() implies resamples(
        odds,
        b,
        l.field(before, other[i] as int),
        seed,
        step,
        #[trigger] other[i],
        after[other[i] as int],
    ) by {
        assert(other.contains(other[i]));
        assert(class.contains(other[i]));
        let k = choose|k: int| 0 <= k < class.len() && class[k] == other[i];
        assert(class[k] == other[i]);
    }
}

/// The results of a Gibbs job on problem `g`: scored solutions, each the end of
/// a run from the start spins of its read over the greedy classes.
pub open spec fn gibbs_results<R: Scalar, E: Fn(R) -> R, B: Fn(u64, R) -> bool>(
    odds: Odds<R, E, B>,
    g: IsingGraph,
    classes: Seq<Seq<u32>>,
    params: SampleParams,
    results: Seq<SamplerResult>,
) -> bool {
    forall|i: int|
        0 <= i < results.len() ==> scored(g, #[trigger] results[i]) && gibbs_run(
            odds,
            lattice(g),
            classes,
            params.per_rung(),
            read_seed_of(params.seed, i as u64),
            start_of(g.h@.len(), read_seed_of(params.seed, i as u64)),
            results[i].spins@,
        )
}

/// Read `read` of a Gibbs job over a colouring that is already there.
pub fn sample_gibbs_read<R: Scalar, E: Fn(R) -> R, B: Fn(u64, R) -> bool>(
    graph: &IsingGraph,
    cpu: &CpuGraph,
    coloring: &Coloring,
    params: &SampleParams,
    read: usize,
    workers: usize,
    odds: &Odds<R, E, B>,
) -> (result: SamplerResult)
    requires
        graph.fits(),
        cpu.wf(),
        cpu@ == lattice(*graph),
        visitable(cpu@, coloring@),
        odds.total(),
    ensures
        scored(*graph, result),
        gibbs_run(
            *odds,
            lattice(*graph),
            coloring@,
            params.per_rung(),
            read_seed_of(params.seed, read as u64),
            start_of(graph.h@.len(), read_seed_of(params.seed, read as u64)),
            result.spins@,
        ),
{
    proof {
        lattice_is_wf(*graph);
    }
    let sweeps_per: usize = or_one(params.sweeps_per_beta);
    let seed: u64 = read_seed(params.seed, read);
    let mut spins = start_spins(cpu.num_nodes(), seed);
    gibbs_read(cpu, coloring, sweeps_per, seed, workers, odds, &mut spins);
    score_spins(spins, graph)
}

/// All reads of a Gibbs job over a colouring that is already there.
fn sample_classes<R: Scalar, E: Fn(R) -> R, B: Fn(u64, R) -> bool>(
    graph: &IsingGraph,
    cpu: &CpuGraph,
    coloring: &Coloring,
    params: &SampleParams,
    workers: usize,
    odds: &Odds<R, E, B>,
) -> (results: Vec<SamplerResult>)
    requires
        graph.fits(),
        cpu.wf(),
        cpu@ == lattice(*graph),
        visitable(cpu@, coloring@),
        odds.total(),
        odds.ladder@.len() == params.rungs(),
    ensures
        results@.len() == params.reads(),
        gibbs_results(*odds, *graph, coloring@, *params, results@),
{
    let num_reads: usize = or_one(params.num_reads);
    let mut results: Vec<SamplerResult> = Vec::new();
    let mut read: usize = 0;
    while read < num_reads
        invariant
            graph.fits(),
            cpu.wf(),
            cpu@ == lattice(*graph),
            visitable(cpu@, coloring@),
            odds.total(),
            read <= num_reads,
            results@.len() == read,
            gibbs_results(*odds, *graph, coloring@, *params, results@),
        decreases num_reads - read,
    {
        let ghost before = results@;
        results.push(sample_gibbs_read(graph, cpu, coloring, params, read, workers, odds));
        proof {
            assert forall|i: int| 0 <= i < results@.len() implies scored(
                *graph,
                #[trigger] results@[i],
            ) && gibbs_run(
                *odds,
                lattice(*graph),
                coloring@,
                params.per_rung(),
                read_seed_of(params.seed, i as u64),
                start_of(graph.h@.len(), read_seed_of(params.seed, i as u64)),
                results@[i].spins@,
            ) by {
                if i < read {
                    assert(results@[i] == before[i]);
                }
            }
        }
        read = read + 1;
    }
    results
}

/// Sample `num_reads` independent chromatic Gibbs reads.
///
/// `workers` splits each colour class. It changes throughput only.
pub fn sample_gibbs_parallel<R: Scalar, E: Fn(R) -> R, B: Fn(u64, R) -> bool>(
    graph: &IsingGraph,
    params: &SampleParams,
    workers: usize,
    odds: &Odds<R, E, B>,
) -> (results: Vec<SamplerResult>)
    requires
        graph.fits(),
        odds.total(),
        odds.ladder@.len() == params.rungs(),
    ensures
        results@.len() == params.reads(),
        exists|classes: Seq<Seq<u32>>|
            {
                &&& #[trigger] colored(lattice(*graph), classes)
                &&& gibbs_results(*odds, *graph, classes, *params, results@)
            },
{
    let cpu = CpuGraph::from_base(graph);
    let coloring = Coloring::new(&cpu);
    sample_classes(graph, &cpu, &coloring, params, workers, odds)
}

/// How the workers of one model divide its work.
#[derive(Debug, Clone, Copy, PartialEq, Eq, Structural)]
pub enum GibbsParallelism {
    /// Each worker takes whole reads.
    Reads,
    /// The workers split each colour class.
    Colors,
}

/// Settings of the chromatic Gibbs kernel.
#[derive(Debug, Clone, Copy, PartialEq, Eq, Structural)]
pub struct GibbsConfig {
    /// Workers per model.
    pub workers: usize,
    /// Refuse any graph that needs more colour classes than this.
    pub max_colors: Option<usize>,
    /// How the workers divide a model.
    pub parallelism: GibbsParallelism,
}

impl Default for GibbsConfig {
    fn default() -> (r: Self)
        ensures
            r.workers == DEFAULT_GIBBS_WORKERS,
            r.max_colors is None,
            r.parallelism == GibbsParallelism::Reads,
    {
        GibbsConfig {
            workers: DEFAULT_GIBBS_WORKERS,
            max_colors: None,
            parallelism: GibbsParallelism::Reads,
        }
    }
}

/// Why a Gibbs configuration cannot serve.
#[derive(Debug, Clone, Copy, PartialEq, Eq, Structural)]
pub enum ConfigError {
    /// More workers than the host has cores for.
    Oversubscribed {
        /// Workers asked for.
        workers: usize,
        /// Cores of the host.
        available: usize,
    },
    /// The graph needs more colour classes than the budget allows.
    TooManyColors {
        /// Classes that the graph needs.
        needed: usize,
        /// Classes that the budget allows.
        allowed: usize,
    },
}

impl GibbsConfig {
    /// Check the worker count against the cores of the host.
    pub fn validate(&self, available: usize) -> (r: Result<(), ConfigError>)
        ensures
            r is Ok <==> self.workers <= available,
            r matches Err(e) ==> e == (ConfigError::Oversubscribed {
                workers: self.workers,
                available,
            }),
    {
        if self.workers > available {
            Err(ConfigError::Oversubscribed { workers: self.workers, available })
        } else {
            Ok(())
        }
    }

    /// Whether a graph with this many colour classes is served.
    pub open spec fn allows(&self, colors: nat) -> bool {
        self.max_colors matches Some(cap) ==> colors <= cap
    }

    /// Check the colour classes that a graph needs against the budget.
    pub fn check_colors(&self, needed: usize) -> (r: Result<(), ConfigError>)
        ensures
            r is Ok <==> self.allows(needed as nat),
            r matches Err(e) ==> e == (ConfigError::TooManyColors {
                needed,
                allowed: self.max_colors->0,
            }),
    {
        match self.max_colors {
            Some(allowed) => if needed > allowed {
                return Err(ConfigError::TooManyColors { needed, allowed });
            },
            None => {},
        }
        Ok(())
    }
}

/// Sample under a configuration, or refuse a graph that needs too many colours.
pub fn sample_gibbs_with<R: Scalar, E: Fn(R) -> R, B: Fn(u64, R) -> bool>(
    graph: &IsingGraph,
    params: &SampleParams,
    config: &GibbsConfig,
    odds: &Odds<R, E, B>,
) -> (r: Result<Vec<SamplerResult>, ConfigError>)
    requires
        graph.fits(),
        odds.total(),
        odds.ladder@.len() == params.rungs(),
    ensures
        exists|classes: Seq<Seq<u32>>|
            {
                &&& #[trigger] colored(lattice(*graph), classes)
                &&& r is Ok <==> config.allows(classes.len())
                &&& r matches Ok(results) ==> results@.len() == params.reads() && gibbs_results(
                    *odds,
                    *graph,
                    classes,
                    *params,
                    results@,
                )
                &&& r matches Err(e) ==> e == (ConfigError::TooManyColors {
                    needed: classes.len() as usize,
                    allowed: config.max_colors->0,
                })
            },
{
    let cpu = CpuGraph::from_base(graph);
    let coloring = Coloring::new(&cpu);
    match config.check_colors(coloring.num_classes()) {
        Ok(()) => Ok(sample_classes(graph, &cpu, &coloring, params, config.workers, odds)),
        Err(e) => Err(e),
    }
}

/// A Gibbs read is determined by its seed and its start, at any number of workers.
pub proof fn gibbs_reads_agree<R: Scalar, E: Fn(R) -> R, B: Fn(u64, R) -> bool>(
    odds: Odds<R, E, B>,
    l: Lattice,
    classes: Seq<Seq<u32>>,
    per: nat,
    seed: u64,
    start: Seq<i8>,
    one: Seq<i8>,
    two: Seq<i8>,
)
    requires
        odds.steady(),
        visitable(l, classes),
        l.h.len() <= u32::MAX,
        gibbs_run(odds, l, classes, per, seed, start, one),
        gibbs_run(odds, l, classes, per, seed, start, two),
    ensures
        one == two,
{
    let len = odds.ladder@.len() * per * classes.len() + 1;
    let a = choose|states: Seq<Seq<i8>>|
        {
            &&& #[trigger] gibbs_history(odds, l, classes, per as int, seed, states)
            &&& states.len() == len
            &&& states[0] == start
            &&& states.last() == one
        };
    let b = choose|states: Seq<Seq<i8>>|
        {
            &&& #[trigger] gibbs_history(odds, l, classes, per as int, seed, states)
            &&& states.len() == len
            &&& states[0] == start
            &&& states.last() == two
        };
    gibbs_runs_agree(odds, l, classes, per as int, seed, a, b, a.len() - 1);
}

/// A Gibbs read with nothing to do leaves the spins as they are: without rungs,
/// without sweeps, without classes.
pub proof fn an_idle_gibbs_read_changes_nothing<R: Scalar, E: Fn(R) -> R, B: Fn(u64, R) -> bool>(
    odds: Odds<R, E, B>,
    l: Lattice,
    classes: Seq<Seq<u32>>,
    per: nat,
    seed: u64,
    start: Seq<i8>,
    spins: Seq<i8>,
)
    requires
        odds.ladder@.len() == 0 || per == 0 || classes.len() == 0,
        gibbs_run(odds, l, classes, per, seed, start, spins),
    ensures
        spins == start,
{
    assert(odds.ladder@.len() * per * classes.len() == 0) by (nonlinear_arith)
        requires
            odds.ladder@.len() == 0 || per == 0 || classes.len() == 0,
    ;
}

/// Fewer reads are the first of more reads: a read depends on the seed of the job
/// and on its own place alone.
pub proof fn fewer_gibbs_reads_are_a_prefix<R: Scalar, E: Fn(R) -> R, B: Fn(u64, R) -> bool>(
    odds: Odds<R, E, B>,
    g: IsingGraph,
    classes: Seq<Seq<u32>>,
    few: SampleParams,
    many: SampleParams,
    one: Seq<SamplerResult>,
    two: Seq<SamplerResult>,
    i: int,
)
    requires
        odds.steady(),
        g.fits(),
        visitable(lattice(g), classes),
        few.seed == many.seed,
        few.per_rung() == many.per_rung(),
        gibbs_results(odds, g, classes, few, one),
        gibbs_results(odds, g, classes, many, two),
        0 <= i < one.len(),
        i < two.len(),
    ensures
        one[i].spins@ == two[i].spins@,
        one[i].energy_milli == two[i].energy_milli,
{
    let seed = read_seed_of(few.seed, i as u64);
    assert(scored(g, one[i]) && scored(g, two[i]));
    gibbs_reads_agree(
        odds,
        lattice(g),
        classes,
        few.per_rung(),
        seed,
        start_of(g.h@.len(), seed),
        one[i].spins@,
        two[i].spins@,
    );
}

/// Class update `t` of a Gibbs run draws every spin of its class from the heat bath
/// of the rung that the run has reached, in the field of the state before it, by
/// the word of that node at step `t`. It leaves all other spins alone.
pub proof fn a_class_update_draws_its_class<R: Scalar, E: Fn(R) -> R, B: Fn(u64, R) -> bool>(
    odds: Odds<R, E, B>,
    l: Lattice,
    classes: Seq<Seq<u32>>,
    per: int,
    seed: u64,
    states: Seq<Seq<i8>>,
    t: int,
    v: u32,
)
    requires
        gibbs_history(odds, l, classes, per, seed, states),
        0 <= t < states.len() - 1,
        t <= u64::MAX,
        v < states[t].len(),
    ensures
        classes[t % (classes.len() as int)].contains(v) ==> odds.draws(
            (t / (classes.len() as int)) / per,
            l.field(states[t], v as int),
            word_at(seed, t as u64, v) >> 11,
            states[t + 1][v as int],
        ),
        !classes[t % (classes.len() as int)].contains(v) ==> states[t + 1][v as int]
            == states[t][v as int],
{
    assert(updates_at(odds, l, classes, per, seed, states, t));
    vstd::arithmetic::div_mod::lemma_small_mod(t as nat, 0x1_0000_0000_0000_0000);
    let class = classes[t % (classes.len() as int)];
    if class.contains(v) {
        let k = choose|k: int| 0 <= k < class.len() && class[k] == v;
        assert(class[k] == v);
    } else {
        assert(v as int as u32 == v);
    }
}

/// The reads of a Gibbs job are independent: read `i` runs on the seed of read `i`
/// alone, which no other read of the job has. It starts with a spin up wherever
/// the word of that node at the last step number lies in the lower half.
pub proof fn every_gibbs_read_has_its_own_seed<R: Scalar, E: Fn(R) -> R, B: Fn(u64, R) -> bool>(
    odds: Odds<R, E, B>,
    g: IsingGraph,
    classes: Seq<Seq<u32>>,
    params: SampleParams,
    results: Seq<SamplerResult>,
    i: int,
    j: int,
)
    requires
        g.h@.len() <= u32::MAX,
        results.len() <= u64::MAX,
        gibbs_results(odds, g, classes, params, results),
        0 <= i < results.len(),
        0 <= j < results.len(),
        i != j,
    ensures
        exists|states: Seq<Seq<i8>>|
            {
                &&& #[trigger] gibbs_history(
                    odds,
                    lattice(g),
                    classes,
                    params.per_rung() as int,
                    read_seed_of(params.seed, i as u64),
                    states,
                )
                &&& states.len() == odds.ladder@.len() * params.per_rung() * classes.len() + 1
                &&& states[0].len() == g.h@.len()
                &&& forall|v: int|
                    0 <= v < g.h@.len() ==> (#[trigger] states[0][v] == 1 <==> word_at(
                        read_seed_of(params.seed, i as u64),
                        u64::MAX,
                        v as u32,
                    ) >> 11 < 0x10_0000_0000_0000)
                &&& results[i].spins@ == states.last()
            },
        read_seed_of(params.seed, i as u64) != read_seed_of(params.seed, j as u64),
{
    reads_of_a_job_have_distinct_seeds(params.seed, i as u64, j as u64);
    let seed = read_seed_of(params.seed, i as u64);
    let start = start_of(g.h@.len(), seed);
    let per = params.per_rung();
    assert(scored(g, results[i]));
    let states = choose|states: Seq<Seq<i8>>|
        {
            &&& #[trigger] gibbs_history(odds, lattice(g), classes, per as int, seed, states)
            &&& states.len() == odds.ladder@.len() * per * classes.len() + 1
            &&& states[0] == start
            &&& states.last() == results[i].spins@
        };
    assert(gibbs_history(odds, lattice(g), classes, per as int, seed, states));
    assert forall|v: int| 0 <= v < g.h@.len() implies (#[trigger] states[0][v] == 1 <==> word_at(
        seed,
        u64::MAX,
        v as u32,
    ) >> 11 < 0x10_0000_0000_0000) by {
        assert(start[v] == states[0][v]);
    }
}

} // verus!
