//! Random draws, and the cancellation point that long runs poll.
use rand::rngs::SmallRng;
use quip_solver_core::CancelToken;
use vstd::prelude::*;

use crate::bench::source::next_below;

verus! {

/// The generator of the `rand` crate behind every read.
#[verifier::external_type_specification]
#[verifier::external_body]
pub struct ExSmallRng(rand::rngs::SmallRng);

/// The cancellation point of `quip_solver_core`.
#[verifier::external_type_specification]
#[verifier::external_body]
pub struct ExCancelToken(quip_solver_core::CancelToken);

/// A generator seeded with `seed`, from `rand::SeedableRng::seed_from_u64`.
///
/// Nothing is claimed of the stream: the algorithm behind `SmallRng` depends on
/// the platform.
#[verifier::external_body]
pub(crate) fn seed_rng(seed: u64) -> SmallRng {
    rand::SeedableRng::seed_from_u64(seed)
}

/// The next 64 random bits, from `rand::Rng::gen`.
///
/// Nothing is claimed of the word: it depends on the state of a
/// platform-dependent generator.
#[verifier::external_body]
pub(crate) fn next_word(rng: &mut SmallRng) -> u64 {
    rand::Rng::gen::<u64>(rng)
}

/// The next 32 random bits, from `rand::Rng::gen`.
///
/// Nothing is claimed of the word: it depends on the state of a
/// platform-dependent generator.
#[verifier::external_body]
pub(crate) fn next_half(rng: &mut SmallRng) -> u32 {
    rand::Rng::gen::<u32>(rng)
}

/// The draw that a word of random bits stands for: its top 53 bits.
pub open spec fn draw_of(word: u64) -> u64 {
    word >> 11
}

/// The draw that a word of random bits stands for.
pub fn draw_from(word: u64) -> (bits: u64)
    ensures
        bits == draw_of(word),
{
    word >> 11
}

/// A draw has 53 bits.
pub proof fn a_draw_has_53_bits(word: u64)
    ensures
        draw_of(word) < 0x20_0000_0000_0000,
{
    assert(word >> 11 < 0x20_0000_0000_0000) by (bit_vector);
}

/// One fair coin, from `rand::Rng::gen`.
///
/// Nothing is claimed of the coin: it depends on the state of a
/// platform-dependent generator.
#[verifier::external_body]
pub(crate) fn next_coin(rng: &mut SmallRng) -> bool {
    rand::Rng::gen::<bool>(rng)
}

/// `quip_solver_core::CancelToken::is_cancelled`: whether the job with this
/// watermark has been abandoned.
///
/// Claimed of it: a job without a watermark is never cancelled. For any other
/// job the answer rests on what other threads have stored in the token.
pub assume_specification[ CancelToken::is_cancelled ](
    token: &CancelToken,
    watermark: Option<u64>,
) -> (r: bool)
    ensures
        watermark is None ==> !r,
;

/// A run was abandoned before it finished.
#[derive(Debug, Clone, Copy, PartialEq, Eq, Structural)]
pub struct SampleCancelled;

/// Whether a run with this cancellation point may end early.
pub open spec fn may_cancel(cancel: Option<(&CancelToken, Option<u64>)>) -> bool {
    cancel matches Some(c) && c.1 is Some
}

/// `r` is an answer of the cancellation point for the job's watermark; no where
/// there is none.
pub open spec fn polled(cancel: Option<(&CancelToken, Option<u64>)>, r: bool) -> bool {
    match cancel {
        Some((token, watermark)) => call_ensures(CancelToken::is_cancelled, (token, watermark), r),
        None => !r,
    }
}

/// Poll the cancellation point, if there is one.
pub fn poll(cancel: Option<(&CancelToken, Option<u64>)>) -> (r: bool)
    ensures
        polled(cancel, r),
        r ==> may_cancel(cancel),
{
    match cancel {
        Some((token, watermark)) => token.is_cancelled(watermark),
        None => false,
    }
}

/// The seed of read `read_idx` of a job.
pub open spec fn read_seed_of(base: u64, read_idx: u64) -> u64 {
    let scrambled = ((base * 0x9E37_79B9_7F4A_7C15) % 0x1_0000_0000_0000_0000) as u64;
    ((scrambled + read_idx + 1) % 0x1_0000_0000_0000_0000) as u64
}

/// The seed of read `read_idx` of a job: distinct per read, and distinct even
/// for a job seed of 0.
pub fn read_seed(base: u64, read_idx: usize) -> (seed: u64)
    ensures
        seed == read_seed_of(base, read_idx as u64),
{
    base.wrapping_mul(0x9E37_79B9_7F4A_7C15).wrapping_add(read_idx as u64).wrapping_add(1)
}

/// Reads of one job draw from different seeds.
pub proof fn reads_of_a_job_have_distinct_seeds(base: u64, a: u64, b: u64)
    requires
        a != b,
    ensures
        read_seed_of(base, a) != read_seed_of(base, b),
{
}

/// One draw from a generator.
#[derive(Debug, Clone, Copy, PartialEq, Eq, Structural)]
pub enum Draw {
    /// 64 random bits.
    Word(u64),
    /// 32 random bits.
    Half(u32),
    /// A fair coin.
    Coin(bool),
    /// A number below a bound: the bound, and the number.
    Below(usize, usize),
}

/// The next 64 bits of a generator, and the generator after them.
fn step_word(rng: SmallRng) -> (u64, SmallRng) {
    let mut rng = rng;
    let w: u64 = next_word(&mut rng);
    (w, rng)
}

/// The next 32 bits of a generator, and the generator after them.
fn step_half(rng: SmallRng) -> (u32, SmallRng) {
    let mut rng = rng;
    let w: u32 = next_half(&mut rng);
    (w, rng)
}

/// The next coin of a generator, and the generator after it.
fn step_coin(rng: SmallRng) -> (bool, SmallRng) {
    let mut rng = rng;
    let c: bool = next_coin(&mut rng);
    (c, rng)
}

/// The next number of a generator below a bound, and the generator after it.
fn step_below(a: (SmallRng, usize)) -> (r: (usize, SmallRng))
    requires
        a.1 > 0,
    ensures
        r.0 < a.1,
{
    let (own, n) = a;
    let mut rng = own;
    let x: usize = next_below(&mut rng, n);
    (x, rng)
}

/// What a function gives for an argument.
fn ask<A, B, F: Fn(A) -> B>(f: F, a: A) -> (b: B)
    requires
        call_requires(f, (a,)),
    ensures
        call_ensures(f, (a,), b),
{
    f(a)
}

/// `rng` is a generator that `seed` gives.
pub closed spec fn seeded(seed: u64, rng: SmallRng) -> bool {
    call_ensures(seed_rng, (seed,), rng)
}

/// The generator of read `read_idx`.
pub(crate) fn read_rng(base: u64, read_idx: usize) -> (rng: SmallRng)
    ensures
        seeded(read_seed_of(base, read_idx as u64), rng),
{
    ask(seed_rng, read_seed(base, read_idx))
}

/// The generator `before` gives `d` as its next draw and is `after` then.
pub closed spec fn gives(before: SmallRng, d: Draw, after: SmallRng) -> bool {
    match d {
        Draw::Word(w) => call_ensures(step_word, (before,), (w, after)),
        Draw::Half(w) => call_ensures(step_half, (before,), (w, after)),
        Draw::Coin(c) => call_ensures(step_coin, (before,), (c, after)),
        Draw::Below(n, x) => call_ensures(step_below, ((before, n),), (x, after)),
    }
}

/// The generator `from` gives `log`, draw by draw, and is `to` then.
pub open spec fn streams(from: SmallRng, log: Seq<Draw>, to: SmallRng) -> bool
    decreases log.len(),
{
    if log.len() == 0 {
        from == to
    } else {
        exists|mid: SmallRng|
            streams(from, log.drop_last(), mid) && #[trigger] gives(mid, log.last(), to)
    }
}

/// `log` is what a generator with this seed gives first.
pub open spec fn drawn_from(seed: u64, log: Seq<Draw>) -> bool {
    exists|from: SmallRng, to: SmallRng|
        #![trigger streams(from, log, to)]
        seeded(seed, from) && streams(from, log, to)
}

/// A generator, with a record of what it has given.
pub struct Source {
    rng: Option<SmallRng>,
    from: Ghost<SmallRng>,
    log: Ghost<Seq<Draw>>,
}

impl Source {
    /// The record is what the generator gave.
    pub closed spec fn wf(&self) -> bool {
        self.rng is Some && streams(self.from@, self.log@, self.rng->0)
    }

    /// The generator at its start.
    pub closed spec fn start(&self) -> SmallRng {
        self.from@
    }

    /// What it has given.
    pub closed spec fn log(&self) -> Seq<Draw> {
        self.log@
    }

    /// The generator with this seed.
    pub(crate) fn seeded(seed: u64) -> (s: Self)
        ensures
            s.wf(),
            seeded(seed, s.start()),
            s.log() == Seq::<Draw>::empty(),
    {
        let rng = ask(seed_rng, seed);
        let ghost from = rng;
        Source { rng: Some(rng), from: Ghost(from), log: Ghost(Seq::empty()) }
    }

    /// The generator of read `read_idx` of a job.
    pub(crate) fn of_read(base: u64, read_idx: usize) -> (s: Self)
        ensures
            s.wf(),
            seeded(read_seed_of(base, read_idx as u64), s.start()),
            s.log() == Seq::<Draw>::empty(),
    {
        let rng = read_rng(base, read_idx);
        let ghost from = rng;
        Source { rng: Some(rng), from: Ghost(from), log: Ghost(Seq::empty()) }
    }

    /// A generator taken from its owner, to be given back. Another one stands in
    /// its place meanwhile.
    pub(crate) fn taken(rng: &mut SmallRng) -> (s: Self)
        ensures
            s.wf(),
            s.start() == *old(rng),
            s.log() == Seq::<Draw>::empty(),
    {
        let mut own = seed_rng(0);
        std::mem::swap(rng, &mut own);
        let ghost from = own;
        Source { rng: Some(own), from: Ghost(from), log: Ghost(Seq::empty()) }
    }

    /// Give the generator back to its owner.
    pub(crate) fn give_back(self, rng: &mut SmallRng)
        requires
            self.wf(),
        ensures
            streams(self.start(), self.log(), *final(rng)),
    {
        if let Some(own) = self.rng {
            *rng = own;
        }
    }

    /// What is recorded was given first by the seed of the source.
    pub proof fn lemma_record(&self, seed: u64)
        requires
            self.wf(),
            seeded(seed, self.start()),
        ensures
            drawn_from(seed, self.log()),
    {
        assert(streams(self.from@, self.log@, self.rng->0));
    }

    /// Draw 64 bits.
    pub(crate) fn word(&mut self) -> (w: u64)
        requires
            old(self).wf(),
        ensures
            final(self).wf(),
            final(self).start() == old(self).start(),
            final(self).log() == old(self).log().push(Draw::Word(w)),
    {
        let ghost before = self.rng->0;
        let own = self.rng.take().unwrap();
        let (w, next) = ask(step_word, own);
        proof {
            lemma_streams_push(self.from@, self.log@, before, Draw::Word(w), next);
            self.log@ = self.log@.push(Draw::Word(w));
        }
        self.rng = Some(next);
        w
    }

    /// Draw 32 bits.
    pub(crate) fn half(&mut self) -> (w: u32)
        requires
            old(self).wf(),
        ensures
            final(self).wf(),
            final(self).start() == old(self).start(),
            final(self).log() == old(self).log().push(Draw::Half(w)),
    {
        let ghost before = self.rng->0;
        let own = self.rng.take().unwrap();
        let (w, next) = ask(step_half, own);
        proof {
            lemma_streams_push(self.from@, self.log@, before, Draw::Half(w), next);
            self.log@ = self.log@.push(Draw::Half(w));
        }
        self.rng = Some(next);
        w
    }

    /// Draw a number below `n`.
    pub(crate) fn below(&mut self, n: usize) -> (x: usize)
        requires
            old(self).wf(),
            n > 0,
        ensures
            x < n,
            final(self).wf(),
            final(self).start() == old(self).start(),
            final(self).log() == old(self).log().push(Draw::Below(n, x)),
    {
        let ghost before = self.rng->0;
        let own = self.rng.take().unwrap();
        let (x, next) = ask(step_below, (own, n));
        proof {
            lemma_streams_push(self.from@, self.log@, before, Draw::Below(n, x), next);
            self.log@ = self.log@.push(Draw::Below(n, x));
        }
        self.rng = Some(next);
        x
    }

    /// Draw a coin.
    pub(crate) fn coin(&mut self) -> (c: bool)
        requires
            old(self).wf(),
        ensures
            final(self).wf(),
            final(self).start() == old(self).start(),
            final(self).log() == old(self).log().push(Draw::Coin(c)),
    {
        let ghost before = self.rng->0;
        let own = self.rng.take().unwrap();
        let (c, next) = ask(step_coin, own);
        proof {
            lemma_streams_push(self.from@, self.log@, before, Draw::Coin(c), next);
            self.log@ = self.log@.push(Draw::Coin(c));
        }
        self.rng = Some(next);
        c
    }
}

proof fn lemma_streams_push(
    from: SmallRng,
    log: Seq<Draw>,
    mid: SmallRng,
    d: Draw,
    to: SmallRng,
)
    requires
        streams(from, log, mid),
        gives(mid, d, to),
    ensures
        streams(from, log.push(d), to),
{
    assert(log.push(d).drop_last() =~= log);
    assert(log.push(d).last() == d);
}

} // verus!
