//! Tensor-network sampling: an imaginary-time anneal with a falling transverse
//! field, exact samples of the final state, and a greedy polish.
//!
//! The ladder of inverse temperatures comes from outside, and so do `tanh` and
//! `exp`. `late` says when the time is up; it is asked only where a job has a
//! time limit.
use vstd::prelude::*;

use crate::ising::{lattice, valid_spins, IsingGraph};
use crate::mps::chain::{chain_of, spans, ChainProblem, Gate};
use crate::mps::order::lists_nodes;
use crate::mps::schedule::{
    angle_factor, eta_seq, gain_factor, gamma_seq, is_angle, is_gain, is_tau, job_schedule,
    polish_sweeps, ramp_top, split_sweeps, tau_factor, trotter_steps, Schedule,
};
use crate::mps::state::{
    canonical, chain_draw, chain_wf, coupled, fielded, plus_chain, transversed, Chain, Mps,
    BOND_LIMIT,
};
use crate::rng::{
    drawn_from, read_seed_of, reads_of_a_job_have_distinct_seeds, Draw, Source,
};
use crate::sampler_core::{
    at_least_one, or_one, polish_from, score_spins, scored, toss_spins, tossed, CpuGraph, SampleParams,
    SamplerResult,
};
use crate::scalar::Scalar;
use crate::sweep::descent;

verus! {

/// Memory cap of one model in bytes.
pub const MPS_MEMORY_CAP_BYTES: u64 = 67_000_000;

/// Flops per unit of span and cubed bond dimension in one step.
pub const JACOBI_FLOP_CONST: u64 = 50;

/// Where the reads start.
#[derive(Debug, Clone, Copy, PartialEq, Eq, Structural)]
pub enum InitMode {
    /// Anneal, and sample the final state.
    Anneal,
    /// Skip the anneal; start from uniform random spins.
    Random,
}

/// Settings of one job.
#[derive(Debug, Clone, Copy, PartialEq, Eq, Structural)]
pub struct MpsConfig {
    /// Upper bound on the bond dimension.
    pub chi_max: usize,
    /// Where the reads start.
    pub init: InitMode,
    /// Time limit of a job in milliseconds. 0 disables it.
    pub time_budget_ms: u64,
    /// Flop budget of a job, which selects the bond dimension. It is no measured
    /// time, so that a seed gives the same output on every machine.
    pub flop_budget: u64,
}

impl MpsConfig {
    /// The settings of a process. `setting` is its starting-configuration
    /// setting: `random` skips the anneal, anything else runs it.
    pub fn from_setting(chi_max: usize, setting: Option<&str>) -> (c: Self)
        ensures
            c.chi_max == chi_max,
            c.init == if setting matches Some(s) && s@ == "random"@ {
                InitMode::Random
            } else {
                InitMode::Anneal
            },
            c.time_budget_ms == 2000,
            c.flop_budget == 1_250_000_000,
    {
        let init = match setting {
            Some(s) => if crate::text::same_text(s, "random") {
                InitMode::Random
            } else {
                InitMode::Anneal
            },
            None => InitMode::Anneal,
        };
        MpsConfig { chi_max, init, time_budget_ms: 2000, flop_budget: 1_250_000_000 }
    }
}

/// Bond dimension `c` fits the memory cap and the flop budget.
pub open spec fn affordable(n: nat, span_sum: nat, steps: nat, budget: nat, c: nat) -> bool {
    &&& 16 * n * (c * c) <= MPS_MEMORY_CAP_BYTES
    &&& JACOBI_FLOP_CONST * at_least_one(steps) * span_sum * (c * c * c) <= budget
}

/// `chi` is the bond dimension of a job: the largest one up to `chi_max` that
/// is affordable, and never below 1.
pub open spec fn selected(
    n: nat,
    span_sum: nat,
    steps: nat,
    chi_max: nat,
    budget: nat,
    chi: nat,
) -> bool {
    if n == 0 {
        chi == 1
    } else {
        &&& 1 <= chi <= at_least_one(chi_max)
        &&& chi > 1 ==> affordable(n, span_sum, steps, budget, chi)
        &&& forall|c: nat|
            chi < c <= chi_max ==> !(#[trigger] affordable(n, span_sum, steps, budget, c))
    }
}

proof fn lemma_affordable_falls(n: nat, span_sum: nat, steps: nat, budget: nat, a: nat, b: nat)
    requires
        a <= b,
        affordable(n, span_sum, steps, budget, b),
    ensures
        affordable(n, span_sum, steps, budget, a),
{
    assert(a * a <= b * b) by (nonlinear_arith)
        requires
            a <= b,
    ;
    assert(a * a * a <= b * b * b) by (nonlinear_arith)
        requires
            a <= b,
            a * a <= b * b,
    ;
    let w = 16 * n;
    assert(w * (a * a) <= w * (b * b)) by (nonlinear_arith)
        requires
            a * a <= b * b,
            0 <= w,
    ;
    let v = JACOBI_FLOP_CONST * at_least_one(steps) * span_sum;
    assert(0 <= v) by (nonlinear_arith)
        requires
            v == JACOBI_FLOP_CONST * at_least_one(steps) * span_sum,
    ;
    assert(v * (a * a * a) <= v * (b * b * b)) by (nonlinear_arith)
        requires
            a * a * a <= b * b * b,
            0 <= v,
    ;
}

/// A bond dimension within the memory cap stays below the limit of a chain.
proof fn lemma_memory_limits(n: nat, c: nat)
    requires
        n > 0,
        16 * n * (c * c) <= MPS_MEMORY_CAP_BYTES,
    ensures
        c <= 2046,
{
    assert(c * c <= n * (c * c)) by (nonlinear_arith)
        requires
            n >= 1,
    ;
    assert(16 * n * (c * c) == 16 * (n * (c * c))) by (nonlinear_arith);
    if c > 2046 {
        assert(c * c >= 2047 * 2047) by (nonlinear_arith)
            requires
                c >= 2047,
        ;
    }
}

/// Whether bond dimension `c` is affordable.
fn affords(n: usize, span_sum: u64, steps: usize, budget: u64, c: usize) -> (r: bool)
    requires
        n > 0,
    ensures
        r == affordable(n as nat, span_sum as nat, steps as nat, budget as nat, c as nat),
{
    proof {
        if affordable(n as nat, span_sum as nat, steps as nat, budget as nat, c as nat) {
            lemma_memory_limits(n as nat, c as nat);
        }
    }
    if c > 2046 {
        return false;
    }
    let square: u128 = {
        assert(c * c <= 2046 * 2046) by (nonlinear_arith)
            requires
                0 <= c <= 2046,
        ;
        (c * c) as u128
    };
    let bytes: u128 = {
        assert((16 * n) * (c * c) <= (16 * n) * (2046 * 2046)) by (nonlinear_arith)
            requires
                0 <= c * c <= 2046 * 2046,
                0 <= n,
        ;
        (16 * n as u128) * square
    };
    if bytes > MPS_MEMORY_CAP_BYTES as u128 {
        return false;
    }
    let cube: u128 = {
        assert(c * c * c <= 2046 * 2046 * 2046) by (nonlinear_arith)
            requires
                0 <= c <= 2046,
                0 <= c * c <= 2046 * 2046,
        ;
        square * c as u128
    };
    let held: u128 = or_one(steps) as u128;
    let unit: u128 = 50 * held;
    let ghost total = JACOBI_FLOP_CONST * at_least_one(steps as nat) * span_sum * (c * c * c);
    match unit.checked_mul(span_sum as u128) {
        Some(per) => match per.checked_mul(cube) {
            Some(flops) => {
                assert(flops == total);
                flops <= budget as u128
            },
            None => {
                assert(per * cube == total);
                false
            },
        },
        None => {
            proof {
                let per = unit * span_sum;
                assert(per * cube == total);
                if c > 0 {
                    assert(cube >= 1) by (nonlinear_arith)
                        requires
                            cube == c * c * c,
                            c >= 1,
                    ;
                    assert(per * cube >= per) by (nonlinear_arith)
                        requires
                            cube >= 1,
                            per >= 0,
                    ;
                } else {
                    assert(cube == 0) by (nonlinear_arith)
                        requires
                            cube == c * c * c,
                            c == 0,
                    ;
                    assert(per * cube == 0) by (nonlinear_arith)
                        requires
                            cube == 0,
                    ;
                }
            }
            c == 0
        },
    }
}

/// Bond dimension of one job: the largest affordable one up to `chi_max`, and
/// never below 1. No job is rejected for being wide; it degrades to a product
/// state.
pub fn select_chi(n: usize, span_sum: u64, steps: usize, cfg: &MpsConfig) -> (chi: usize)
    ensures
        selected(
            n as nat,
            span_sum as nat,
            steps as nat,
            cfg.chi_max as nat,
            cfg.flop_budget as nat,
            chi as nat,
        ),
        1 <= chi <= BOND_LIMIT,
{
    if n == 0 {
        return 1;
    }
    let chi_max: usize = or_one(cfg.chi_max);
    let ghost budget = cfg.flop_budget as nat;
    let mut chi: usize = 1;
    while chi < chi_max
        invariant
            n > 0,
            chi_max == at_least_one(cfg.chi_max as nat),
            budget == cfg.flop_budget as nat,
            1 <= chi <= chi_max,
            chi <= 2046,
            chi > 1 ==> affordable(n as nat, span_sum as nat, steps as nat, budget, chi as nat),
        decreases chi_max - chi,
    {
        if affords(n, span_sum, steps, cfg.flop_budget, chi + 1) {
            proof {
                lemma_memory_limits(n as nat, (chi + 1) as nat);
            }
            chi = chi + 1;
        } else {
            proof {
                assert forall|c: nat| chi < c <= cfg.chi_max implies !(#[trigger] affordable(
                    n as nat,
                    span_sum as nat,
                    steps as nat,
                    budget,
                    c,
                )) by {
                    if affordable(n as nat, span_sum as nat, steps as nat, budget, c) {
                        lemma_affordable_falls(
                            n as nat,
                            span_sum as nat,
                            steps as nat,
                            budget,
                            (chi + 1) as nat,
                            c,
                        );
                    }
                }
            }
            return chi;
        }
    }
    chi
}

/// The factors of one step: transverse, per field in chain order, per coupling.
#[verifier::ext_equal]
pub struct StepFactors<R> {
    /// Transverse factor.
    pub tau: R,
    /// Field factors in chain order, where a field has one.
    pub gains: Seq<Option<R>>,
    /// Coupling factors.
    pub angles: Seq<R>,
}

/// A chain after the first `i` field factors.
pub open spec fn fields_done<R: Scalar>(c: Chain<R>, gains: Seq<Option<R>>, i: int) -> Chain<R>
    decreases i,
{
    if i <= 0 {
        c
    } else {
        fielded(fields_done(c, gains, i - 1), i - 1, gains[i - 1])
    }
}

/// A chain after the first `i` couplings.
pub open spec fn couplings_done<R: Scalar>(
    eps: R,
    c: Chain<R>,
    gates: Seq<Gate>,
    angles: Seq<R>,
    chi: nat,
    i: int,
) -> Chain<R>
    decreases i,
{
    if i <= 0 {
        c
    } else {
        coupled(
            eps,
            couplings_done(eps, c, gates, angles, chi, i - 1),
            gates[i - 1].0 as int,
            gates[i - 1].1 as int,
            angles[i - 1],
            chi,
        )
    }
}

/// A chain after one step: half a transverse layer, the fields and couplings,
/// half a transverse layer again, and the canonical form.
pub open spec fn step_done<R: Scalar>(
    eps: R,
    c: Chain<R>,
    gates: Seq<Gate>,
    chi: nat,
    f: StepFactors<R>,
) -> Chain<R> {
    let first = transversed(c, f.tau);
    let fields = fields_done(first, f.gains, f.gains.len() as int);
    let all = couplings_done(eps, fields, gates, f.angles, chi, gates.len() as int);
    canonical(eps, transversed(all, f.tau), chi)
}

/// A chain after the first `k` steps; a held step does nothing.
pub open spec fn steps_done<R: Scalar>(
    eps: R,
    c: Chain<R>,
    gates: Seq<Gate>,
    chi: nat,
    fs: Seq<Option<StepFactors<R>>>,
    k: int,
) -> Chain<R>
    decreases k,
{
    if k <= 0 {
        c
    } else {
        let before = steps_done(eps, c, gates, chi, fs, k - 1);
        match fs[k - 1] {
            None => before,
            Some(f) => step_done(eps, before, gates, chi, f),
        }
    }
}

/// `f` holds the factors of a step of imaginary time `eta` in a transverse field
/// of `gamma`.
pub open spec fn factors_of<
    R: Scalar,
    T: Fn(R) -> R,
    E: Fn(R) -> R,
>(
    tanh: T,
    exp: E,
    h: Seq<i32>,
    gates: Seq<Gate>,
    eta: R,
    gamma: R,
    f: Option<StepFactors<R>>,
) -> bool {
    match f {
        None => is_tau(tanh, eta, gamma, None),
        Some(x) => {
            &&& is_tau(tanh, eta, gamma, Some(x.tau))
            &&& x.gains.len() == h.len()
            &&& forall|i: int|
                0 <= i < h.len() ==> is_gain(exp, eta, h[i] as int, #[trigger] x.gains[i])
            &&& x.angles.len() == gates.len()
            &&& forall|i: int|
                0 <= i < gates.len() ==> is_angle(
                    tanh,
                    eta,
                    gates[i].2 as int,
                    #[trigger] x.angles[i],
                )
        },
    }
}

/// `fs` holds the factors of the steps that ran: all of them, or those before
/// the time was up. A step runs where the time was asked for and not up. A
/// budget of 0 is no limit.
pub open spec fn schedule_of<
    R: Scalar,
    T: Fn(R) -> R,
    E: Fn(R) -> R,
    L: Fn(usize) -> bool,
>(
    tanh: T,
    exp: E,
    late: L,
    budget: nat,
    h: Seq<i32>,
    gates: Seq<Gate>,
    eta: Seq<R>,
    gamma: Seq<R>,
    fs: Seq<Option<StepFactors<R>>>,
) -> bool {
    &&& fs.len() <= eta.len()
    &&& fs.len() < eta.len() ==> budget > 0 && call_ensures(late, (fs.len() as usize,), true)
    &&& forall|k: int|
        0 <= k < fs.len() && budget > 0 ==> #[trigger] call_ensures(late, (k as usize,), false)
    &&& forall|k: int|
        0 <= k < fs.len() ==> factors_of(
            tanh,
            exp,
            h,
            gates,
            eta[k],
            gamma[k],
            #[trigger] fs[k],
        )
}

/// `c` is the final state of an anneal of the chain problem.
pub open spec fn annealed<
    R: Scalar,
    T: Fn(R) -> R,
    E: Fn(R) -> R,
    L: Fn(usize) -> bool,
>(
    tanh: T,
    exp: E,
    late: L,
    budget: nat,
    h: Seq<i32>,
    gates: Seq<Gate>,
    eta: Seq<R>,
    gamma: Seq<R>,
    eps: R,
    chi: nat,
    c: Chain<R>,
) -> bool {
    exists|fs: Seq<Option<StepFactors<R>>>| #[trigger]
        schedule_of(tanh, exp, late, budget, h, gates, eta, gamma, fs) && c == canonical(
            eps,
            steps_done(eps, plus_chain::<R>(h.len()), gates, chi, fs, fs.len() as int),
            chi,
        )
}

/// Run the fields and couplings of one step.
fn classical_layer<
    R: Scalar,
    T: Fn(R) -> R,
    E: Fn(R) -> R,
>(
    mps: &mut Mps<R>,
    chain: &ChainProblem,
    eta: R,
    eps: R,
    chi: usize,
    tanh: &T,
    exp: &E,
) -> (r: Ghost<(Seq<Option<R>>, Seq<R>)>)
    requires
        chain_wf(old(mps)@),
        old(mps)@.site.len() == chain.h@.len(),
        1 <= chi <= BOND_LIMIT,
        forall|x: R| #[trigger] call_requires(*tanh, (x,)),
        forall|x: R| #[trigger] call_requires(*exp, (x,)),
    ensures
        chain_wf(final(mps)@),
        final(mps)@.site.len() == chain.h@.len(),
        r@.0.len() == chain.h@.len(),
        forall|i: int|
            0 <= i < chain.h@.len() ==> is_gain(
                *exp,
                eta,
                chain.h@[i] as int,
                #[trigger] r@.0[i],
            ),
        r@.1.len() == chain.gates@.len(),
        forall|i: int|
            0 <= i < chain.gates@.len() ==> is_angle(
                *tanh,
                eta,
                chain.gates@[i].2 as int,
                #[trigger] r@.1[i],
            ),
        final(mps)@ == couplings_done(
            eps,
            fields_done(old(mps)@, r@.0, chain.h@.len() as int),
            chain.gates@,
            r@.1,
            chi as nat,
            chain.gates@.len() as int,
        ),
{
    let ghost start = mps@;
    let ghost mut gains: Seq<Option<R>> = Seq::empty();
    let mut i: usize = 0;
    while i < chain.h.len()
        invariant
            forall|x: R| #[trigger] call_requires(*exp, (x,)),
            chain_wf(mps@),
            mps@.site.len() == chain.h@.len(),
            i <= chain.h@.len(),
            gains.len() == i,
            forall|t: int|
                0 <= t < i ==> is_gain(*exp, eta, chain.h@[t] as int, #[trigger] gains[t]),
            mps@ == fields_done(start, gains, i as int),
        decreases chain.h@.len() - i,
    {
        let g: Option<R> = gain_factor(exp, eta, chain.h[i]);
        mps.apply_field(i, g);
        proof {
            let before = gains;
            gains = gains.push(g);
            lemma_fields_prefix(start, before, gains, i as int);
        }
        i = i + 1;
    }
    let ghost mid = mps@;
    let ghost mut angles: Seq<R> = Seq::empty();
    let mut j: usize = 0;
    while j < chain.gates.len()
        invariant
            forall|x: R| #[trigger] call_requires(*tanh, (x,)),
            chain_wf(mps@),
            1 <= chi <= BOND_LIMIT,
            mps@.site.len() == chain.h@.len(),
            j <= chain.gates@.len(),
            angles.len() == j,
            forall|t: int|
                0 <= t < j ==> is_angle(
                    *tanh,
                    eta,
                    chain.gates@[t].2 as int,
                    #[trigger] angles[t],
                ),
            mps@ == couplings_done(eps, mid, chain.gates@, angles, chi as nat, j as int),
        decreases chain.gates@.len() - j,
    {
        let (u, v, w) = chain.gates[j];
        let t: R = angle_factor(tanh, eta, w as i64);
        mps.apply_zz(eps, u as usize, v as usize, t, chi);
        proof {
            let before = angles;
            angles = angles.push(t);
            lemma_couplings_prefix(
                eps,
                mid,
                chain.gates@,
                before,
                angles,
                chi as nat,
                j as int,
            );
        }
        j = j + 1;
    }
    Ghost((gains, angles))
}

proof fn lemma_fields_prefix<R: Scalar>(
    c: Chain<R>,
    a: Seq<Option<R>>,
    b: Seq<Option<R>>,
    i: int,
)
    requires
        0 <= i <= a.len(),
        i <= b.len(),
        forall|t: int| 0 <= t < i ==> a[t] == b[t],
    ensures
        fields_done(c, a, i) == fields_done(c, b, i),
    decreases i,
{
    if i > 0 {
        lemma_fields_prefix(c, a, b, i - 1);
    }
}

proof fn lemma_couplings_prefix<R: Scalar>(
    eps: R,
    c: Chain<R>,
    gates: Seq<Gate>,
    a: Seq<R>,
    b: Seq<R>,
    chi: nat,
    i: int,
)
    requires
        0 <= i <= a.len(),
        i <= b.len(),
        forall|t: int| 0 <= t < i ==> a[t] == b[t],
    ensures
        couplings_done(eps, c, gates, a, chi, i) == couplings_done(eps, c, gates, b, chi, i),
    decreases i,
{
    if i > 0 {
        lemma_couplings_prefix(eps, c, gates, a, b, chi, i - 1);
    }
}

proof fn lemma_steps_prefix<R: Scalar>(
    eps: R,
    c: Chain<R>,
    gates: Seq<Gate>,
    chi: nat,
    a: Seq<Option<StepFactors<R>>>,
    b: Seq<Option<StepFactors<R>>>,
    k: int,
)
    requires
        0 <= k <= a.len(),
        k <= b.len(),
        forall|t: int| 0 <= t < k ==> a[t] == b[t],
    ensures
        steps_done(eps, c, gates, chi, a, k) == steps_done(eps, c, gates, chi, b, k),
    decreases k,
{
    if k > 0 {
        lemma_steps_prefix(eps, c, gates, chi, a, b, k - 1);
    }
}

/// Anneal the uniform superposition down to a zero transverse field.
///
/// One step is half a transverse layer, the commuting fields and couplings, and
/// half a transverse layer again.
pub fn anneal<
    R: Scalar,
    T: Fn(R) -> R,
    E: Fn(R) -> R,
    L: Fn(usize) -> bool,
>(
    chain: &ChainProblem,
    schedule: &Schedule<R>,
    budget: u64,
    eps: R,
    chi: usize,
    tanh: &T,
    exp: &E,
    late: &L,
) -> (mps: Mps<R>)
    requires
        chain.wf(),
        1 <= chi <= BOND_LIMIT,
        schedule.gamma@.len() == schedule.eta@.len(),
        forall|x: R| #[trigger] call_requires(*tanh, (x,)),
        forall|x: R| #[trigger] call_requires(*exp, (x,)),
        forall|a: usize| #[trigger] call_requires(*late, (a,)),
    ensures
        chain_wf(mps@),
        mps@.site.len() == chain.h@.len(),
        annealed(
            *tanh,
            *exp,
            *late,
            budget as nat,
            chain.h@,
            chain.gates@,
            schedule.eta@,
            schedule.gamma@,
            eps,
            chi as nat,
            mps@,
        ),
        forall|k: int| 0 < k < mps@.site.len() ==> #[trigger] mps@.bond[k] <= chi,
{
    let n: usize = chain.h.len();
    let steps: usize = schedule.eta.len();
    let mut mps: Mps<R> = Mps::plus_state(n);
    let ghost start = plus_chain::<R>(n as nat);
    let ghost mut fs: Seq<Option<StepFactors<R>>> = Seq::empty();
    let mut k: usize = 0;
    let mut stop: bool = false;
    while k < steps && !stop
        invariant
            chain_wf(mps@),
            mps@.site.len() == n,
            n == chain.h@.len(),
            1 <= chi <= BOND_LIMIT,
            steps == schedule.eta@.len(),
            schedule.gamma@.len() == schedule.eta@.len(),
            forall|x: R| #[trigger] call_requires(*tanh, (x,)),
            forall|x: R| #[trigger] call_requires(*exp, (x,)),
            forall|a: usize| #[trigger] call_requires(*late, (a,)),
            k <= steps,
            fs.len() == k,
            stop ==> budget > 0 && call_ensures(*late, (k,), true),
            forall|i: int|
                0 <= i < k && budget > 0 ==> #[trigger] call_ensures(
                    *late,
                    (i as usize,),
                    false,
                ),
            forall|i: int|
                0 <= i < fs.len() ==> factors_of(
                    *tanh,
                    *exp,
                    chain.h@,
                    chain.gates@,
                    schedule.eta@[i],
                    schedule.gamma@[i],
                    #[trigger] fs[i],
                ),
            mps@ == steps_done(eps, start, chain.gates@, chi as nat, fs, k as int),
        decreases steps - k, !stop as int,
    {
        if budget > 0 && late(k) {
            stop = true;
        } else {
            let ghost held = fs;
            let eta: R = schedule.eta[k];
            match tau_factor(tanh, eta, schedule.gamma[k]) {
                None => {
                    proof {
                        fs = fs.push(None);
                        lemma_steps_prefix(
                            eps,
                            start,
                            chain.gates@,
                            chi as nat,
                            held,
                            fs,
                            k as int,
                        );
                    }
                },
                Some(t) => {
                    mps.apply_transverse(t);
                    let Ghost(parts) = classical_layer(&mut mps, chain, eta, eps, chi, tanh, exp);
                    mps.apply_transverse(t);
                    mps.right_canonicalize(eps, chi);
                    proof {
                        let f = StepFactors { tau: t, gains: parts.0, angles: parts.1 };
                        fs = fs.push(Some(f));
                        lemma_steps_prefix(
                            eps,
                            start,
                            chain.gates@,
                            chi as nat,
                            held,
                            fs,
                            k as int,
                        );
                    }
                },
            }
            proof {
                assert forall|i: int| 0 <= i < fs.len() implies factors_of(
                    *tanh,
                    *exp,
                    chain.h@,
                    chain.gates@,
                    schedule.eta@[i],
                    schedule.gamma@[i],
                    #[trigger] fs[i],
                ) by {
                    if i < k {
                        assert(fs[i] == held[i]);
                    }
                }
            }
            k = k + 1;
        }
    }
    mps.right_canonicalize(eps, chi);
    assert(schedule_of(
        *tanh,
        *exp,
        *late,
        budget as nat,
        chain.h@,
        chain.gates@,
        schedule.eta@,
        schedule.gamma@,
        fs,
    ));
    mps
}

/// `s` holds chain spins at the nodes of their slots.
pub open spec fn scattered(order: Seq<u32>, d: Seq<i8>, s: Seq<i8>) -> bool {
    s.len() == d.len() && forall|k: int| 0 <= k < d.len() ==> #[trigger] d[k] == s[order[k] as int]
}

/// Put chain spins at the nodes of their slots.
fn scatter(order: &Vec<u32>, d: &Vec<i8>) -> (s: Vec<i8>)
    requires
        order@.len() == d@.len(),
        lists_nodes(order@.len() as int, order@),
        valid_spins(d@),
    ensures
        scattered(order@, d@, s@),
        valid_spins(s@),
{
    let n: usize = d.len();
    let mut s: Vec<i8> = vec![1i8; n];
    let mut k: usize = 0;
    while k < n
        invariant
            n == d@.len(),
            n == order@.len(),
            lists_nodes(order@.len() as int, order@),
            valid_spins(d@),
            s@.len() == n,
            valid_spins(s@),
            k <= n,
            forall|i: int| 0 <= i < k ==> #[trigger] d@[i] == s@[order@[i] as int],
        decreases n - k,
    {
        let node: usize = order[k] as usize;
        assert(order@[k as int] < n);
        let ghost before = s@;
        s.set(node, d[k]);
        proof {
            assert forall|i: int| 0 <= i < k + 1 implies #[trigger] d@[i] == s@[order@[i] as int] by {
                if i < k {
                    assert(order@[i] != order@[k as int]);
                }
            }
            assert forall|i: int| 0 <= i < n implies (#[trigger] s@[i] == 1 || s@[i] == -1) by {
                assert(before[i] == 1 || before[i] == -1);
                assert(d@[k as int] == 1 || d@[k as int] == -1);
            }
        }
        k = k + 1;
    }
    s
}

/// `s` is the start of a read that `log` makes: a draw from state `c`, or a coin
/// for every spin.
pub open spec fn read_start<R: Scalar, B: Fn(u64, R) -> bool>(
    below: B,
    init: InitMode,
    order: Seq<u32>,
    c: Chain<R>,
    n: nat,
    log: Seq<Draw>,
    s: Seq<i8>,
) -> bool {
    &&& s.len() == n
    &&& valid_spins(s)
    &&& init is Anneal ==> exists|d: Seq<i8>| #[trigger]
        chain_draw(below, c, log, d) && scattered(order, d, s)
    &&& init is Random ==> tossed(log, 0, s)
}

/// `spins` is read `i`, polished: its start comes from the generator with the seed
/// of that read.
pub open spec fn polished_read<R: Scalar, B: Fn(u64, R) -> bool>(
    below: B,
    init: InitMode,
    order: Seq<u32>,
    c: Chain<R>,
    g: IsingGraph,
    seed: u64,
    polish: nat,
    i: int,
    spins: Seq<i8>,
) -> bool {
    exists|log: Seq<Draw>, s: Seq<i8>| #[trigger]
        read_start(below, init, order, c, g.h@.len(), log, s) && drawn_from(
            read_seed_of(seed, i as u64),
            log,
        ) && spins == descent(lattice(g), s, polish)
}

/// The results follow from chain problem `chain` and final state `c`: each is
/// scored and is a polished start.
pub open spec fn mps_from<R: Scalar, B: Fn(u64, R) -> bool>(
    below: B,
    init: InitMode,
    g: IsingGraph,
    seed: u64,
    polish: nat,
    chain: ChainProblem,
    c: Chain<R>,
    results: Seq<SamplerResult>,
) -> bool {
    forall|i: int|
        0 <= i < results.len() ==> scored(g, #[trigger] results[i]) && polished_read(
            below,
            init,
            chain.order@,
            c,
            g,
            seed,
            polish,
            i,
            results[i].spins@,
        )
}

/// `chi` is the bond dimension of the job.
pub open spec fn job_chi(
    g: IsingGraph,
    cfg: MpsConfig,
    steps: nat,
    chain: ChainProblem,
    chi: nat,
) -> bool {
    selected(
        g.h@.len(),
        spans(chain.gates@, chain.gates@.len() as int) as nat,
        steps,
        cfg.chi_max as nat,
        cfg.flop_budget as nat,
        chi,
    )
}

/// The results of a tensor-network job.
pub open spec fn mps_results<
    R: Scalar,
    T: Fn(R) -> R,
    E: Fn(R) -> R,
    L: Fn(usize) -> bool,
    B: Fn(u64, R) -> bool,
>(
    tanh: T,
    exp: E,
    late: L,
    below: B,
    eps: R,
    cfg: MpsConfig,
    g: IsingGraph,
    seed: u64,
    ladder: Seq<R>,
    num_sweeps: nat,
    per: nat,
    results: Seq<SamplerResult>,
) -> bool {
    let steps = trotter_steps(num_sweeps as int);
    let polish = polish_sweeps(num_sweeps as int);
    exists|chain: ChainProblem, c: Chain<R>, chi: nat|
        #![trigger mps_from(below, cfg.init, g, seed, polish as nat, chain, c, results), job_chi(g, cfg, steps as nat, chain, chi)]
        {
            &&& chain_of(g, chain)
            &&& job_chi(g, cfg, steps as nat, chain, chi)
            &&& cfg.init is Anneal ==> annealed(
                tanh,
                exp,
                late,
                cfg.time_budget_ms as nat,
                chain.h@,
                chain.gates@,
                eta_seq(ladder, steps as nat, per),
                gamma_seq(ramp_top::<R>(g), steps as nat),
                eps,
                chi,
                c,
            )
            &&& mps_from(below, cfg.init, g, seed, polish as nat, chain, c, results)
        }
}

/// Sample `num_reads` configurations with the tensor network. Every job that
/// fits returns as many results as it has reads.
pub fn sample_ising_mps<
    R: Scalar,
    T: Fn(R) -> R,
    E: Fn(R) -> R,
    L: Fn(usize) -> bool,
    B: Fn(u64, R) -> bool,
>(
    graph: &IsingGraph,
    params: &SampleParams,
    cfg: &MpsConfig,
    eps: R,
    ladder: &Vec<R>,
    tanh: &T,
    exp: &E,
    late: &L,
    below: &B,
) -> (results: Vec<SamplerResult>)
    requires
        graph.fits(),
        forall|x: R| #[trigger] call_requires(*tanh, (x,)),
        forall|x: R| #[trigger] call_requires(*exp, (x,)),
        forall|a: usize| #[trigger] call_requires(*late, (a,)),
        forall|word: u64, x: R| #[trigger] call_requires(*below, (word, x)),
    ensures
        results@.len() == params.reads(),
        mps_results(
            *tanh,
            *exp,
            *late,
            *below,
            eps,
            *cfg,
            *graph,
            params.seed,
            ladder@,
            params.num_sweeps as nat,
            params.sweeps_per_beta as nat,
            results@,
        ),
{
    let num_reads: usize = or_one(params.num_reads);
    let n: usize = graph.h.len();
    let (steps, polish) = split_sweeps(params.num_sweeps);
    let cpu = CpuGraph::from_base(graph);
    let chain = ChainProblem::from_graph(graph);
    let chi: usize = select_chi(n, chain.span_sum(), steps, cfg);
    let schedule = job_schedule(graph, ladder, steps, params.sweeps_per_beta);
    let state: Option<Mps<R>> = match cfg.init {
        InitMode::Anneal => Some(
            anneal(&chain, &schedule, cfg.time_budget_ms, eps, chi, tanh, exp, late),
        ),
        InitMode::Random => None,
    };
    let ghost c: Chain<R> = match &state {
        Some(m) => m@,
        None => plus_chain::<R>(0),
    };
    let mut results: Vec<SamplerResult> = Vec::new();
    let mut read: usize = 0;
    while read < num_reads
        invariant
            forall|word: u64, x: R| #[trigger] call_requires(*below, (word, x)),
            chain.wf(),
            chain_of(*graph, chain),
            n == graph.h@.len(),
            n == chain.order@.len(),
            cpu.wf(),
            cpu@ == lattice(*graph),
            state is Some <==> cfg.init is Anneal,
            state matches Some(m) ==> m@ == c && chain_wf(m@) && m@.site.len() == n,
            read <= num_reads,
            results@.len() == read,
            mps_from(*below, cfg.init, *graph, params.seed, polish as nat, chain, c, results@),
        decreases num_reads - read,
    {
        let mut src = Source::of_read(params.seed, read);
        let mut spins: Vec<i8> = match &state {
            Some(m) => {
                let d = m.draw_sites(below, &mut src);
                let s = scatter(&chain.order, &d);
                assert(chain_draw(*below, c, src.log(), d@));
                s
            },
            None => toss_spins(n, &mut src),
        };
        let ghost start = spins@;
        proof {
            src.lemma_record(read_seed_of(params.seed, read as u64));
            assert(read_start(*below, cfg.init, chain.order@, c, n as nat, src.log(), start));
        }
        polish_from(&mut spins, &cpu, polish);
        let ghost before = results@;
        results.push(score_spins(spins, graph));
        proof {
            assert(polished_read(
                *below,
                cfg.init,
                chain.order@,
                c,
                *graph,
                params.seed,
                polish as nat,
                read as int,
                results@[read as int].spins@,
            ));
            assert forall|i: int| 0 <= i < results@.len() implies scored(
                *graph,
                #[trigger] results@[i],
            ) && polished_read(
                *below,
                cfg.init,
                chain.order@,
                c,
                *graph,
                params.seed,
                polish as nat,
                i,
                results@[i].spins@,
            ) by {
                if i < read {
                    assert(results@[i] == before[i]);
                }
            }
        }
        read = read + 1;
    }
    proof {
        let sweeps = params.num_sweeps as nat;
        assert(steps as nat == trotter_steps(sweeps as int) as nat);
        assert(polish as nat == polish_sweeps(sweeps as int) as nat);
        assert(job_chi(*graph, *cfg, trotter_steps(sweeps as int) as nat, chain, chi as nat));
        let n_step = trotter_steps(sweeps as int) as nat;
        assert(cfg.init is Anneal ==> annealed(
            *tanh,
            *exp,
            *late,
            cfg.time_budget_ms as nat,
            chain.h@,
            chain.gates@,
            eta_seq(ladder@, n_step, params.sweeps_per_beta as nat),
            gamma_seq(ramp_top::<R>(*graph), n_step),
            eps,
            chi as nat,
            c,
        ));
        assert(mps_from(*below, cfg.init, *graph, params.seed, polish_sweeps(sweeps as int) as nat, chain, c, results@));
        assert(mps_from(*below, cfg.init, *graph, params.seed, polish as nat, chain, c, results@));
    }
    results
}

/// A job has one bond dimension: budget and shape determine it.
pub proof fn bond_dimension_is_determined(
    n: nat,
    span_sum: nat,
    steps: nat,
    chi_max: nat,
    budget: nat,
    a: nat,
    b: nat,
)
    requires
        selected(n, span_sum, steps, chi_max, budget, a),
        selected(n, span_sum, steps, chi_max, budget, b),
    ensures
        a == b,
{
    if n > 0 && a < b {
        assert(!affordable(n, span_sum, steps, budget, b));
    }
    if n > 0 && b < a {
        assert(!affordable(n, span_sum, steps, budget, a));
    }
}

/// A larger budget never lowers the bond dimension.
pub proof fn bond_dimension_grows_with_the_budget(
    n: nat,
    span_sum: nat,
    steps: nat,
    chi_max: nat,
    small: nat,
    large: nat,
    a: nat,
    b: nat,
)
    requires
        selected(n, span_sum, steps, chi_max, small, a),
        selected(n, span_sum, steps, chi_max, large, b),
        small <= large,
    ensures
        a <= b,
{
    if n > 0 && b < a {
        assert(affordable(n, span_sum, steps, large, a));
    }
}

/// With a bound of 1 every job runs as a product state.
pub proof fn bound_of_one_is_mean_field(
    n: nat,
    span_sum: nat,
    steps: nat,
    budget: nat,
    chi: nat,
)
    requires
        selected(n, span_sum, steps, 1, budget, chi),
    ensures
        chi == 1,
{
}

/// The reads of a tensor-network job are independent: read `i` is drawn from the
/// job's state, or tossed, by the generator with the seed of read `i`, one draw to
/// a site, and then polished; no other read of the job has that seed.
pub proof fn every_chain_read_has_its_own_generator<
    R: Scalar,
    T: Fn(R) -> R,
    E: Fn(R) -> R,
    L: Fn(usize) -> bool,
    B: Fn(u64, R) -> bool,
>(
    tanh: T,
    exp: E,
    late: L,
    below: B,
    eps: R,
    cfg: MpsConfig,
    g: IsingGraph,
    seed: u64,
    ladder: Seq<R>,
    num_sweeps: nat,
    per: nat,
    results: Seq<SamplerResult>,
    i: int,
    j: int,
)
    requires
        results.len() <= u64::MAX,
        mps_results(tanh, exp, late, below, eps, cfg, g, seed, ladder, num_sweeps, per, results),
        0 <= i < results.len(),
        0 <= j < results.len(),
        i != j,
    ensures
        cfg.init is Anneal ==> exists|
            chain: ChainProblem,
            c: Chain<R>,
            log: Seq<Draw>,
            d: Seq<i8>,
            s: Seq<i8>,
        |
            #![trigger chain_of(g, chain), chain_draw(below, c, log, d), scattered(chain.order@, d, s)]
            {
                &&& chain_of(g, chain)
                &&& drawn_from(read_seed_of(seed, i as u64), log)
                &&& chain_draw(below, c, log, d)
                &&& scattered(chain.order@, d, s)
                &&& results[i].spins@ == descent(
                    lattice(g),
                    s,
                    polish_sweeps(num_sweeps as int) as nat,
                )
            },
        cfg.init is Random ==> exists|log: Seq<Draw>, s: Seq<i8>| #[trigger]
            tossed(log, 0, s) && s.len() == g.h@.len() && drawn_from(
                read_seed_of(seed, i as u64),
                log,
            ) && results[i].spins@ == descent(
                lattice(g),
                s,
                polish_sweeps(num_sweeps as int) as nat,
            ),
        read_seed_of(seed, i as u64) != read_seed_of(seed, j as u64),
{
    reads_of_a_job_have_distinct_seeds(seed, i as u64, j as u64);
    let steps = trotter_steps(num_sweeps as int);
    let polish = polish_sweeps(num_sweeps as int);
    let (chain, c, chi) = choose|chain: ChainProblem, c: Chain<R>, chi: nat|
        #![trigger mps_from(below, cfg.init, g, seed, polish as nat, chain, c, results), job_chi(g, cfg, steps as nat, chain, chi)]
        {
            &&& chain_of(g, chain)
            &&& job_chi(g, cfg, steps as nat, chain, chi)
            &&& cfg.init is Anneal ==> annealed(
                tanh,
                exp,
                late,
                cfg.time_budget_ms as nat,
                chain.h@,
                chain.gates@,
                eta_seq(ladder, steps as nat, per),
                gamma_seq(ramp_top::<R>(g), steps as nat),
                eps,
                chi,
                c,
            )
            &&& mps_from(below, cfg.init, g, seed, polish as nat, chain, c, results)
        };
    assert(scored(g, results[i]));
    let (log, s) = choose|log: Seq<Draw>, s: Seq<i8>| #[trigger]
        read_start(below, cfg.init, chain.order@, c, g.h@.len(), log, s) && drawn_from(
            read_seed_of(seed, i as u64),
            log,
        ) && results[i].spins@ == descent(lattice(g), s, polish as nat);
    if cfg.init is Anneal {
        let d = choose|d: Seq<i8>| #[trigger]
            chain_draw(below, c, log, d) && scattered(chain.order@, d, s);
        assert(chain_draw(below, c, log, d));
    } else {
        assert(tossed(log, 0, s));
    }
}

/// Every solution of a tensor-network job is scored: its spins are valid and its
/// energy is the consensus energy of those spins.
pub proof fn every_chain_result_is_scored<
    R: Scalar,
    T: Fn(R) -> R,
    E: Fn(R) -> R,
    L: Fn(usize) -> bool,
    B: Fn(u64, R) -> bool,
>(
    tanh: T,
    exp: E,
    late: L,
    below: B,
    eps: R,
    cfg: MpsConfig,
    g: IsingGraph,
    seed: u64,
    ladder: Seq<R>,
    num_sweeps: nat,
    per: nat,
    results: Seq<SamplerResult>,
    i: int,
)
    requires
        mps_results(tanh, exp, late, below, eps, cfg, g, seed, ladder, num_sweeps, per, results),
        0 <= i < results.len(),
    ensures
        scored(g, results[i]),
{
}

} // verus!
