//! Sums over listed places.
use vstd::prelude::*;

verus! {

/// Sum of `f` below `n`.
pub open spec fn total(f: spec_fn(int) -> int, n: int) -> int
    decreases n,
{
    if n <= 0 {
        0
    } else {
        total(f, n - 1) + f(n - 1)
    }
}

/// Sum of `f` at the listed places.
pub open spec fn picked(f: spec_fn(int) -> int, at: Seq<int>) -> int
    decreases at.len(),
{
    if at.len() == 0 {
        0
    } else {
        picked(f, at.drop_last()) + f(at.last())
    }
}

proof fn lemma_pick_one(f: spec_fn(int) -> int, at: Seq<int>, p: int)
    requires
        0 <= p < at.len(),
    ensures
        picked(f, at) == picked(f, at.remove(p)) + f(at[p]),
    decreases at.len(),
{
    if p == at.len() - 1 {
        assert(at.remove(p) =~= at.drop_last());
    } else {
        lemma_pick_one(f, at.drop_last(), p);
        assert(at.remove(p).drop_last() =~= at.drop_last().remove(p));
        assert(at.remove(p).last() == at.last());
    }
}

/// Places that are listed once, where every other place adds nothing, add up to
/// the whole sum.
pub proof fn lemma_picked_is_total(f: spec_fn(int) -> int, at: Seq<int>, n: int)
    requires
        0 <= n,
        forall|i: int| 0 <= i < at.len() ==> 0 <= #[trigger] at[i] < n,
        forall|i: int, j: int| 0 <= i < j < at.len() ==> #[trigger] at[i] != #[trigger] at[j],
        forall|k: int| 0 <= k < n && !at.contains(k) ==> #[trigger] f(k) == 0,
    ensures
        picked(f, at) == total(f, n),
    decreases n,
{
    if n == 0 {
        if at.len() > 0 {
            assert(0 <= at[0] < n);
        }
    } else if at.contains(n - 1) {
        let p = choose|p: int| 0 <= p < at.len() && at[p] == n - 1;
        let rest = at.remove(p);
        lemma_pick_one(f, at, p);
        assert forall|i: int| 0 <= i < rest.len() implies 0 <= #[trigger] rest[i] < n - 1 by {
            let q = if i < p {
                i
            } else {
                i + 1
            };
            assert(rest[i] == at[q]);
        }
        assert forall|i: int, j: int| 0 <= i < j < rest.len() implies #[trigger] rest[i]
            != #[trigger] rest[j] by {
            let a = if i < p {
                i
            } else {
                i + 1
            };
            let b = if j < p {
                j
            } else {
                j + 1
            };
            assert(at[a] != at[b]);
        }
        assert forall|k: int| 0 <= k < n - 1 && !rest.contains(k) implies #[trigger] f(k) == 0 by {
            if at.contains(k) {
                let q = choose|q: int| 0 <= q < at.len() && at[q] == k;
                let i = if q < p {
                    q
                } else {
                    q - 1
                };
                assert(rest[i] == k);
            }
        }
        lemma_picked_is_total(f, rest, n - 1);
    } else {
        assert forall|i: int| 0 <= i < at.len() implies 0 <= #[trigger] at[i] < n - 1 by {
            assert(at[i] != n - 1);
        }
        assert(f(n - 1) == 0);
        lemma_picked_is_total(f, at, n - 1);
    }
}

/// Changing one term changes the sum by as much.
pub proof fn lemma_total_one(f: spec_fn(int) -> int, g: spec_fn(int) -> int, p: int, n: int)
    requires
        0 <= p < n,
        forall|k: int| 0 <= k < n && k != p ==> #[trigger] f(k) == g(k),
    ensures
        total(g, n) == total(f, n) + g(p) - f(p),
    decreases n,
{
    if p == n - 1 {
        lemma_total_same(f, g, n - 1);
    } else {
        lemma_total_one(f, g, p, n - 1);
        assert(f(n - 1) == g(n - 1));
    }
}

/// Equal terms have equal sums.
pub proof fn lemma_total_same(f: spec_fn(int) -> int, g: spec_fn(int) -> int, n: int)
    requires
        forall|k: int| 0 <= k < n ==> #[trigger] f(k) == g(k),
    ensures
        total(f, n) == total(g, n),
    decreases n,
{
    if n > 0 {
        lemma_total_same(f, g, n - 1);
        assert(f(n - 1) == g(n - 1));
    }
}

} // verus!
