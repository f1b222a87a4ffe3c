//! Stable ordering of indices by key.
use vstd::prelude::*;

verus! {

/// Index `a` comes before index `b`: a smaller key, or the same key and a
/// smaller index.
pub open spec fn before(keys: Seq<u64>, a: usize, b: usize) -> bool {
    keys[a as int] < keys[b as int] || (keys[a as int] == keys[b as int] && a < b)
}

/// `order` runs strictly upward.
pub open spec fn in_order(keys: Seq<u64>, order: Seq<usize>) -> bool {
    forall|i: int, j: int|
        0 <= i < j < order.len() ==> before(keys, #[trigger] order[i], #[trigger] order[j])
}

/// Every entry indexes a key.
pub open spec fn indexes(keys: Seq<u64>, order: Seq<usize>) -> bool {
    forall|i: int| 0 <= i < order.len() ==> #[trigger] order[i] < keys.len()
}

/// `order` lists every index below `n` exactly once.
pub open spec fn permutes(order: Seq<usize>, n: int) -> bool {
    &&& order.len() == n
    &&& forall|i: int| 0 <= i < n ==> #[trigger] order[i] < n
    &&& forall|i: int, j: int|
        0 <= i < j < n ==> #[trigger] order[i] != #[trigger] order[j]
    &&& forall|v: usize| v < n ==> #[trigger] order.contains(v)
}

/// Merge two ordered lists with no entry in common.
fn merge(keys: &Vec<u64>, a: &Vec<usize>, b: &Vec<usize>) -> (r: Vec<usize>)
    requires
        indexes(keys@, a@),
        indexes(keys@, b@),
        in_order(keys@, a@),
        in_order(keys@, b@),
        forall|i: int, j: int|
            0 <= i < a@.len() && 0 <= j < b@.len() ==> #[trigger] a@[i] != #[trigger] b@[j],
        a@.len() + b@.len() <= usize::MAX,
    ensures
        indexes(keys@, r@),
        in_order(keys@, r@),
        r@.len() == a@.len() + b@.len(),
        forall|x: usize| #[trigger] r@.contains(x) <==> a@.contains(x) || b@.contains(x),
{
    let mut r: Vec<usize> = Vec::with_capacity(a.len() + b.len());
    let mut i: usize = 0;
    let mut j: usize = 0;
    while i < a.len() || j < b.len()
        invariant
            i <= a@.len(),
            j <= b@.len(),
            indexes(keys@, a@),
            indexes(keys@, b@),
            in_order(keys@, a@),
            in_order(keys@, b@),
            forall|i: int, j: int|
                0 <= i < a@.len() && 0 <= j < b@.len() ==> #[trigger] a@[i] != #[trigger] b@[j],
            r@.len() == i + j,
            indexes(keys@, r@),
            in_order(keys@, r@),
            forall|k: int, p: int|
                0 <= k < r@.len() && i <= p < a@.len() ==> before(
                    keys@,
                    #[trigger] r@[k],
                    #[trigger] a@[p],
                ),
            forall|k: int, p: int|
                0 <= k < r@.len() && j <= p < b@.len() ==> before(
                    keys@,
                    #[trigger] r@[k],
                    #[trigger] b@[p],
                ),
            forall|k: int|
                0 <= k < r@.len() ==> a@.contains(#[trigger] r@[k]) || b@.contains(r@[k]),
            forall|p: int| 0 <= p < i ==> r@.contains(#[trigger] a@[p]),
            forall|p: int| 0 <= p < j ==> r@.contains(#[trigger] b@[p]),
        decreases a@.len() - i + b@.len() - j,
    {
        let take_a: bool = if i >= a.len() {
            false
        } else if j >= b.len() {
            true
        } else {
            let x: usize = a[i];
            let y: usize = b[j];
            keys[x] < keys[y] || (keys[x] == keys[y] && x < y)
        };
        let ghost old_r = r@;
        if take_a {
            let x: usize = a[i];
            r.push(x);
            proof {
                assert(a@.contains(x));
                assert(r@[r@.len() - 1] == x);
                lemma_push_keeps(old_r, x);
                assert forall|p: int| 0 <= p < i + 1 implies r@.contains(#[trigger] a@[p]) by {
                    if p < i {
                        assert(old_r.contains(a@[p]));
                    }
                }
                assert forall|p: int| 0 <= p < j implies r@.contains(#[trigger] b@[p]) by {
                    assert(old_r.contains(b@[p]));
                }
            }
            i = i + 1;
        } else {
            let y: usize = b[j];
            r.push(y);
            proof {
                assert(b@.contains(y));
                assert(r@[r@.len() - 1] == y);
                lemma_push_keeps(old_r, y);
                assert forall|p: int| 0 <= p < i implies r@.contains(#[trigger] a@[p]) by {
                    assert(old_r.contains(a@[p]));
                }
                assert forall|p: int| 0 <= p < j + 1 implies r@.contains(#[trigger] b@[p]) by {
                    if p < j {
                        assert(old_r.contains(b@[p]));
                    }
                }
            }
            j = j + 1;
        }
    }
    r
}

proof fn lemma_push_keeps(s: Seq<usize>, x: usize)
    ensures
        forall|y: usize| s.contains(y) ==> #[trigger] s.push(x).contains(y),
        s.push(x).contains(x),
{
    assert forall|y: usize| s.contains(y) implies #[trigger] s.push(x).contains(y) by {
        let i = choose|i: int| 0 <= i < s.len() && s[i] == y;
        assert(s.push(x)[i] == y);
    }
    assert(s.push(x)[s.len() as int] == x);
}

/// The indices from `lo` up to but not including `hi`, ordered by key.
fn order_range(keys: &Vec<u64>, lo: usize, hi: usize) -> (r: Vec<usize>)
    requires
        lo <= hi <= keys@.len(),
    ensures
        indexes(keys@, r@),
        in_order(keys@, r@),
        r@.len() == hi - lo,
        forall|x: usize| #[trigger] r@.contains(x) <==> lo <= x < hi,
    decreases hi - lo,
{
    if hi - lo <= 1 {
        let mut r: Vec<usize> = Vec::new();
        if lo < hi {
            r.push(lo);
            assert(r@[0] == lo);
        }
        return r;
    }
    let mid: usize = lo + (hi - lo) / 2;
    let a = order_range(keys, lo, mid);
    let b = order_range(keys, mid, hi);
    proof {
        assert forall|i: int, j: int| 0 <= i < a@.len() && 0 <= j < b@.len() implies
            #[trigger] a@[i] != #[trigger] b@[j] by {
            assert(a@.contains(a@[i]));
            assert(b@.contains(b@[j]));
        }
    }
    merge(keys, &a, &b)
}

/// The indices of `keys` in stable ascending order of their keys.
pub fn stable_order(keys: &Vec<u64>) -> (order: Vec<usize>)
    ensures
        permutes(order@, keys@.len() as int),
        in_order(keys@, order@),
{
    let order = order_range(keys, 0, keys.len());
    proof {
        assert forall|i: int, j: int| 0 <= i < j < order@.len() implies #[trigger] order@[i]
            != #[trigger] order@[j] by {
            assert(before(keys@, order@[i], order@[j]));
        }
    }
    order
}

/// A value that stands somewhere in an order of integers.
pub trait Keyed: Copy {
    /// Where it stands.
    spec fn key(self) -> int;

    /// Whether it stands after another value.
    fn stands_after(self, other: Self) -> (r: bool)
        ensures
            r == (self.key() > other.key()),
    ;
}

impl Keyed for u128 {
    open spec fn key(self) -> int {
        self as int
    }

    fn stands_after(self, other: u128) -> (r: bool) {
        self > other
    }
}

impl Keyed for i64 {
    open spec fn key(self) -> int {
        self as int
    }

    fn stands_after(self, other: i64) -> (r: bool) {
        self > other
    }
}

/// The values run upward.
pub open spec fn runs_upward<K: Keyed>(s: Seq<K>) -> bool {
    forall|i: int, j: int| 0 <= i < j < s.len() ==> (#[trigger] s[i]).key() <= (#[trigger] s[j]).key()
}

/// `s` holds the values of `a`, upward.
pub open spec fn arranged<K: Keyed>(a: Seq<K>, s: Seq<K>) -> bool {
    runs_upward(s) && s.to_multiset() == a.to_multiset()
}

proof fn lemma_swap_keeps<K>(s: Seq<K>, i: int, j: int)
    requires
        0 <= i < j < s.len(),
    ensures
        s.update(i, s[j]).update(j, s[i]).to_multiset() == s.to_multiset(),
{
    broadcast use vstd::seq_lib::group_to_multiset_ensures;

    let mid = s.update(i, s[j]);
    vstd::seq_lib::to_multiset_update(s, i, s[j]);
    vstd::seq_lib::to_multiset_update(mid, j, s[i]);
    assert(mid[j] == s[j]);
    assert(s.to_multiset().count(s[i]) > 0);
    assert(s.update(i, s[j]).update(j, s[i]).to_multiset() =~= s.to_multiset());
}

/// Put values in upward order.
pub fn arrange<K: Keyed>(v: &mut Vec<K>)
    ensures
        arranged(old(v)@, final(v)@),
        final(v)@.len() == old(v)@.len(),
{
    let ghost start = v@;
    let mut i: usize = 0;
    while i < v.len()
        invariant
            i <= v@.len(),
            v@.len() == start.len(),
            v@.to_multiset() == start.to_multiset(),
            runs_upward(v@.take(i as int)),
        decreases v@.len() - i,
    {
        let mut j: usize = i;
        let ghost base = v@.take(i as int);
        assert forall|a: int, b: int| 0 <= a < b <= i && b != j implies (#[trigger] v@[a]).key() <= (
        #[trigger] v@[b]).key() by {
            assert(base[a] == v@[a] && base[b] == v@[b]);
        }
        while j > 0 && v[j - 1].stands_after(v[j])
            invariant
                j <= i < v@.len(),
                v@.len() == start.len(),
                v@.to_multiset() == start.to_multiset(),
                forall|a: int, b: int|
                    0 <= a < b <= i && b != j ==> (#[trigger] v@[a]).key() <= (
                    #[trigger] v@[b]).key(),
            decreases j,
        {
            let ghost before = v@;
            let x: K = v[j - 1];
            let y: K = v[j];
            v.set(j - 1, y);
            v.set(j, x);
            proof {
                lemma_swap_keeps(before, j - 1, j as int);
                assert(v@ =~= before.update(j - 1, before[j as int]).update(
                    j as int,
                    before[j - 1],
                ));
                assert forall|a: int, b: int|
                    0 <= a < b <= i && b != j - 1 implies (#[trigger] v@[a]).key() <= (
                #[trigger] v@[b]).key() by {
                    if b == j {
                        assert(before[a].key() <= before[j - 1].key() || a == j - 1);
                    } else if b > j {
                        let from = if a == j {
                            j - 1
                        } else if a == j - 1 {
                            j as int
                        } else {
                            a
                        };
                        assert(before[from].key() <= before[b].key());
                    } else {
                        assert(before[a].key() <= before[b].key());
                    }
                }
            }
            j = j - 1;
        }
        proof {
            let next = v@.take(i + 1);
            assert forall|a: int, b: int| 0 <= a < b < next.len() implies (#[trigger] next[a]).key()
                <= (#[trigger] next[b]).key() by {
                assert(next[a] == v@[a] && next[b] == v@[b]);
                if b == j {
                    assert(v@[j - 1].key() <= v@[j as int].key());
                    if a < j - 1 {
                        assert(v@[a].key() <= v@[j - 1].key());
                    }
                }
            }
        }
        i = i + 1;
    }
    assert(v@.take(v@.len() as int) =~= v@);
}

} // verus!
