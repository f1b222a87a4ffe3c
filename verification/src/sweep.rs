//! What one sweep over a list of nodes does to a spin vector.
//!
//! A sweep visits nodes one after another. At each node a rule looks at the
//! node's gain, which is its local field along its own spin, and either flips
//! the spin or leaves it. The kernels differ in the rule and in the visiting
//! order only.
use vstd::prelude::*;

use crate::ising::{
    flip_changes_energy_by_local_field, flipped, graph_energy, lattice, lemma_flipped_valid,
    IsingGraph, Lattice,
};

verus! {

/// A flip rule: the node and its gain decide.
pub type Rule = spec_fn(int, int) -> bool;

/// The spins after one visit to node `v`.
pub open spec fn visit(l: Lattice, spins: Seq<i8>, v: int, rule: Rule) -> Seq<i8> {
    if rule(v, l.gain(spins, v)) {
        flipped(spins, v)
    } else {
        spins
    }
}

/// The spins after visits to the first `k` nodes of `order`.
pub open spec fn sweep(l: Lattice, spins: Seq<i8>, order: Seq<int>, k: int, rule: Rule) -> Seq<i8>
    decreases k,
{
    if k <= 0 {
        spins
    } else {
        visit(l, sweep(l, spins, order, k - 1, rule), order[k - 1], rule)
    }
}

/// Every node once, in ascending order.
pub open spec fn ascending(n: int) -> Seq<int> {
    Seq::new(n as nat, |i: int| i)
}

/// One sweep over all nodes in ascending order.
pub open spec fn full_sweep(l: Lattice, spins: Seq<i8>, rule: Rule) -> Seq<i8> {
    sweep(l, spins, ascending(l.h.len() as int), l.h.len() as int, rule)
}

/// `states` is a run of sweeps in rungs of `per`: `step` holds of the rung and
/// of the spins before and after each sweep.
pub open spec fn history(
    l: Lattice,
    states: Seq<Seq<i8>>,
    per: int,
    step: spec_fn(int, Seq<i8>, Seq<i8>) -> bool,
) -> bool {
    &&& states.len() > 0
    &&& l.fits_spins(states[0])
    &&& forall|t: int|
        0 <= t < states.len() - 1 ==> step(t / per, #[trigger] states[t], states[t + 1])
}

/// A run grows by one sweep.
pub proof fn lemma_history_push(
    l: Lattice,
    states: Seq<Seq<i8>>,
    per: int,
    step: spec_fn(int, Seq<i8>, Seq<i8>) -> bool,
    b: int,
    k: int,
    after: Seq<i8>,
)
    requires
        history(l, states, per, step),
        0 <= b,
        0 <= k < per,
        states.len() == b * per + k + 1,
        step(b, states.last(), after),
    ensures
        history(l, states.push(after), per, step),
{
    let last = states.len() - 1;
    assert(last / per == b) by (nonlinear_arith)
        requires
            last == b * per + k,
            0 <= k < per,
            0 <= b,
    ;
    let longer = states.push(after);
    assert forall|t: int| 0 <= t < longer.len() - 1 implies step(
        t / per,
        #[trigger] longer[t],
        longer[t + 1],
    ) by {
        if t < last {
            assert(longer[t] == states[t] && longer[t + 1] == states[t + 1]);
        } else {
            assert(longer[t] == states.last());
        }
    }
}

/// Every entry of `order` is a node.
pub open spec fn orders_nodes(l: Lattice, order: Seq<int>) -> bool {
    forall|i: int| 0 <= i < order.len() ==> 0 <= #[trigger] order[i] < l.h.len()
}

/// A sweep keeps the spins valid.
pub proof fn lemma_sweep_fits(l: Lattice, spins: Seq<i8>, order: Seq<int>, k: int, rule: Rule)
    requires
        l.fits_spins(spins),
        orders_nodes(l, order),
        0 <= k <= order.len(),
    ensures
        l.fits_spins(sweep(l, spins, order, k, rule)),
    decreases k,
{
    if k > 0 {
        lemma_sweep_fits(l, spins, order, k - 1, rule);
        lemma_flipped_valid(sweep(l, spins, order, k - 1, rule), order[k - 1]);
    }
}

/// A node that the first `k` visits leave out keeps its spin.
pub proof fn lemma_sweep_frame(
    l: Lattice,
    spins: Seq<i8>,
    order: Seq<int>,
    k: int,
    rule: Rule,
    v: int,
)
    requires
        l.fits_spins(spins),
        orders_nodes(l, order),
        0 <= k <= order.len(),
        0 <= v < spins.len(),
        forall|i: int| 0 <= i < k ==> #[trigger] order[i] != v,
    ensures
        sweep(l, spins, order, k, rule)[v] == spins[v],
    decreases k,
{
    if k > 0 {
        lemma_sweep_frame(l, spins, order, k - 1, rule, v);
        lemma_sweep_fits(l, spins, order, k - 1, rule);
    }
}

/// The rule that flips strictly downhill and nowhere else.
pub open spec fn downhill() -> Rule {
    |v: int, gain: int| gain > 0
}

/// A sweep that flips strictly downhill never raises the energy.
pub proof fn downhill_sweep_never_raises_energy(g: IsingGraph, spins: Seq<i8>, order: Seq<int>, k: int)
    requires
        lattice(g).fits_spins(spins),
        orders_nodes(lattice(g), order),
        0 <= k <= order.len(),
    ensures
        graph_energy(g, sweep(lattice(g), spins, order, k, downhill())) <= graph_energy(g, spins),
    decreases k,
{
    if k > 0 {
        let l = lattice(g);
        downhill_sweep_never_raises_energy(g, spins, order, k - 1);
        lemma_sweep_fits(l, spins, order, k - 1, downhill());
        flip_changes_energy_by_local_field(
            g,
            sweep(l, spins, order, k - 1, downhill()),
            order[k - 1],
        );
    }
}

/// No single flip lowers the energy.
pub open spec fn local_minimum(g: IsingGraph, spins: Seq<i8>) -> bool {
    forall|v: int|
        0 <= v < spins.len() ==> graph_energy(g, #[trigger] flipped(spins, v)) >= graph_energy(
            g,
            spins,
        )
}

/// One descent pass over all nodes.
pub open spec fn descent_pass(l: Lattice, spins: Seq<i8>) -> Seq<i8> {
    sweep(l, spins, ascending(l.h.len() as int), l.h.len() as int, downhill())
}

/// At most `budget` descent passes, stopping after one that moves nothing.
pub open spec fn descent(l: Lattice, spins: Seq<i8>, budget: nat) -> Seq<i8>
    decreases budget,
{
    if budget == 0 {
        spins
    } else if descent_pass(l, spins) == spins {
        spins
    } else {
        descent(l, descent_pass(l, spins), (budget - 1) as nat)
    }
}

/// A descent keeps the spins valid.
pub proof fn lemma_descent_fits(l: Lattice, spins: Seq<i8>, budget: nat)
    requires
        l.fits_spins(spins),
    ensures
        l.fits_spins(descent(l, spins, budget)),
        l.fits_spins(descent_pass(l, spins)),
    decreases budget,
{
    let n = l.h.len() as int;
    lemma_sweep_fits(l, spins, ascending(n), n, downhill());
    if budget > 0 {
        lemma_descent_fits(l, descent_pass(l, spins), (budget - 1) as nat);
    }
}

/// Descent never raises the energy.
pub proof fn descent_never_raises_energy(g: IsingGraph, spins: Seq<i8>, budget: nat)
    requires
        lattice(g).fits_spins(spins),
    ensures
        graph_energy(g, descent(lattice(g), spins, budget)) <= graph_energy(g, spins),
    decreases budget,
{
    let l = lattice(g);
    let n = l.h.len() as int;
    downhill_sweep_never_raises_energy(g, spins, ascending(n), n);
    if budget > 0 {
        lemma_descent_fits(l, spins, budget);
        descent_never_raises_energy(g, descent_pass(l, spins), (budget - 1) as nat);
    }
}

/// A pass that moves nothing leaves every prefix of it in place too.
proof fn lemma_still_prefix(l: Lattice, spins: Seq<i8>, k: int)
    requires
        l.fits_spins(spins),
        0 <= k <= l.h.len(),
        descent_pass(l, spins) == spins,
    ensures
        sweep(l, spins, ascending(l.h.len() as int), k, downhill()) == spins,
    decreases l.h.len() - k,
{
    let n = l.h.len() as int;
    let order = ascending(n);
    if k < n {
        lemma_still_prefix(l, spins, k + 1);
        let before = sweep(l, spins, order, k, downhill());
        lemma_sweep_fits(l, spins, order, k, downhill());
        assert forall|i: int| 0 <= i < k implies #[trigger] order[i] != k by {}
        lemma_sweep_frame(l, spins, order, k, downhill(), k);
        if downhill()(k, l.gain(before, k)) {
            lemma_flipped_valid(before, k);
            assert(before[k] == spins[k]);
            assert(spins[k] == 1 || spins[k] == -1);
            assert(false);
        }
    }
}

/// A spin vector that a descent pass leaves alone is a local minimum.
pub proof fn resting_descent_is_a_local_minimum(g: IsingGraph, spins: Seq<i8>)
    requires
        lattice(g).fits_spins(spins),
        descent_pass(lattice(g), spins) == spins,
    ensures
        local_minimum(g, spins),
{
    let l = lattice(g);
    let n = l.h.len() as int;
    assert forall|v: int| 0 <= v < spins.len() implies graph_energy(g, #[trigger] flipped(spins, v))
        >= graph_energy(g, spins) by {
        lemma_still_prefix(l, spins, v);
        lemma_still_prefix(l, spins, v + 1);
        flip_changes_energy_by_local_field(g, spins, v);
        assert(ascending(n)[v] == v);
        if downhill()(v, l.gain(spins, v)) {
            lemma_flipped_valid(spins, v);
            assert(spins[v] == 1 || spins[v] == -1);
            assert(false);
        }
    }
}

/// More budget never ends higher.
pub proof fn more_descent_never_ends_higher(g: IsingGraph, spins: Seq<i8>, small: nat, large: nat)
    requires
        lattice(g).fits_spins(spins),
        small <= large,
    ensures
        graph_energy(g, descent(lattice(g), spins, large)) <= graph_energy(
            g,
            descent(lattice(g), spins, small),
        ),
    decreases small,
{
    let l = lattice(g);
    if small == 0 {
        descent_never_raises_energy(g, spins, large);
    } else if descent_pass(l, spins) != spins {
        lemma_descent_fits(l, spins, small);
        more_descent_never_ends_higher(
            g,
            descent_pass(l, spins),
            (small - 1) as nat,
            (large - 1) as nat,
        );
    }
}

/// What a kernel may answer to a flip: the field that opposes it, a word, and
/// whether the flip is taken.
pub type Answers = spec_fn(int, u64, bool) -> bool;

/// The same question has one answer.
pub open spec fn answers_once(ans: Answers) -> bool {
    forall|opposing: int, word: u64, y: bool, z: bool| #[trigger]
        ans(opposing, word, y) && #[trigger] ans(opposing, word, z) ==> y == z
}

/// The Metropolis rule: a flip that does not raise the energy is taken, any
/// other when `yes` says so for the node.
pub open spec fn metropolis_rule(yes: Seq<bool>) -> Rule {
    |v: int, gain: int| gain >= 0 || yes[v]
}

/// `yes` is an answer to a field of `opposing` against the flip. Nothing is asked
/// when nothing opposes the flip.
pub open spec fn answered(ans: Answers, opposing: int, word: u64, yes: bool) -> bool {
    opposing > 0 ==> ans(opposing, word, yes)
}

/// `yes` holds the answers to the first `k` nodes of a sweep, each on its opposing
/// field and its word.
pub open spec fn decided(
    ans: Answers,
    l: Lattice,
    before: Seq<i8>,
    yes: Seq<bool>,
    words: Seq<u64>,
    k: int,
) -> bool {
    &&& k <= yes.len()
    &&& k <= words.len()
    &&& forall|v: int|
        0 <= v < k ==> answered(
            ans,
            -l.gain(
                sweep(l, before, ascending(l.h.len() as int), v, metropolis_rule(yes)),
                v,
            ),
            words[v],
            #[trigger] yes[v],
        )
}

/// `after` follows from `before` by a sweep with these answers on these words.
pub open spec fn decided_sweep(
    ans: Answers,
    l: Lattice,
    words: Seq<u64>,
    before: Seq<i8>,
    after: Seq<i8>,
) -> bool {
    exists|yes: Seq<bool>|
        {
            &&& #[trigger] decided(ans, l, before, yes, words, l.h.len() as int)
            &&& after == full_sweep(l, before, metropolis_rule(yes))
        }
}

/// Answers given so far stay, and a sweep prefix reads only those.
pub proof fn lemma_decided_prefix(
    ans: Answers,
    l: Lattice,
    before: Seq<i8>,
    short: Seq<bool>,
    long: Seq<bool>,
    words: Seq<u64>,
    more: Seq<u64>,
    k: int,
)
    requires
        0 <= k <= l.h.len(),
        decided(ans, l, before, short, words, k),
        k <= long.len(),
        k <= more.len(),
        forall|i: int| 0 <= i < k ==> short[i] == long[i],
        forall|i: int| 0 <= i < k ==> words[i] == more[i],
    ensures
        decided(ans, l, before, long, more, k),
        sweep(l, before, ascending(l.h.len() as int), k, metropolis_rule(short)) == sweep(
            l,
            before,
            ascending(l.h.len() as int),
            k,
            metropolis_rule(long),
        ),
    decreases k,
{
    if k > 0 {
        assert(decided(ans, l, before, short, words, k - 1));
        lemma_decided_prefix(ans, l, before, short, long, words, more, k - 1);
        assert(ascending(l.h.len() as int)[k - 1] == k - 1);
        assert(short[k - 1] == long[k - 1]);
        assert(words[k - 1] == more[k - 1]);
        assert forall|v: int| 0 <= v < k implies answered(
            ans,
            -l.gain(
                sweep(l, before, ascending(l.h.len() as int), v, metropolis_rule(long)),
                v,
            ),
            more[v],
            #[trigger] long[v],
        ) by {
            if v == k - 1 {
                assert(answered(
                    ans,
                    -l.gain(
                        sweep(l, before, ascending(l.h.len() as int), v, metropolis_rule(short)),
                        v,
                    ),
                    words[v],
                    short[v],
                ));
            }
        }
    }
}

/// Two sweeps on the same words, over lattices whose gains are `scale` apart and
/// with answers that agree, decide every node alike.
pub proof fn lemma_decided_alike(
    ans: Answers,
    other: Answers,
    l: Lattice,
    m: Lattice,
    scale: int,
    before: Seq<i8>,
    one: Seq<bool>,
    two: Seq<bool>,
    words: Seq<u64>,
    k: int,
)
    requires
        scale > 0,
        l.h.len() == m.h.len(),
        l.fits_spins(before),
        0 <= k <= l.h.len(),
        forall|spins: Seq<i8>, v: int|
            l.fits_spins(spins) && 0 <= v < l.h.len() ==> #[trigger] l.gain(spins, v) == scale
                * m.gain(spins, v),
        forall|spins: Seq<i8>, v: int, word: u64, y: bool, z: bool|
            l.fits_spins(spins) && 0 <= v < l.h.len() && #[trigger] m.gain(spins, v) < 0
                && #[trigger] ans(-l.gain(spins, v), word, y) && #[trigger] other(
                -m.gain(spins, v),
                word,
                z,
            ) ==> y == z,
        decided(ans, l, before, one, words, l.h.len() as int),
        decided(other, m, before, two, words, l.h.len() as int),
    ensures
        sweep(l, before, ascending(l.h.len() as int), k, metropolis_rule(one)) == sweep(
            m,
            before,
            ascending(l.h.len() as int),
            k,
            metropolis_rule(two),
        ),
    decreases k,
{
    if k > 0 {
        lemma_decided_alike(ans, other, l, m, scale, before, one, two, words, k - 1);
        let v = k - 1;
        let order = ascending(l.h.len() as int);
        let here = sweep(l, before, order, v, metropolis_rule(one));
        lemma_sweep_fits(l, before, order, v, metropolis_rule(one));
        assert(order[v] == v);
        assert(l.gain(here, v) == scale * m.gain(here, v));
        assert(answered(ans, -l.gain(here, v), words[v], one[v]));
        assert(answered(other, -m.gain(here, v), words[v], two[v]));
        let g = m.gain(here, v);
        assert(scale * g >= 0 <==> g >= 0) by (nonlinear_arith)
            requires
                scale > 0,
        ;
    }
}

/// A sweep is determined by the spins before it, its words and its answers.
pub proof fn lemma_decided_sweeps_agree(
    ans: Answers,
    l: Lattice,
    words: Seq<u64>,
    before: Seq<i8>,
    one: Seq<i8>,
    two: Seq<i8>,
)
    requires
        answers_once(ans),
        l.fits_spins(before),
        decided_sweep(ans, l, words, before, one),
        decided_sweep(ans, l, words, before, two),
    ensures
        one == two,
        l.fits_spins(one),
{
    let n = l.h.len() as int;
    let y = choose|yes: Seq<bool>| #[trigger]
        decided(ans, l, before, yes, words, n) && one == full_sweep(
            l,
            before,
            metropolis_rule(yes),
        );
    let z = choose|yes: Seq<bool>| #[trigger]
        decided(ans, l, before, yes, words, n) && two == full_sweep(
            l,
            before,
            metropolis_rule(yes),
        );
    lemma_decided_alike(ans, ans, l, l, 1, before, y, z, words, n);
    lemma_sweep_fits(l, before, ascending(n), n, metropolis_rule(y));
}

} // verus!
