//! Busy time and counts per named part of a run.
use vstd::prelude::*;
use vstd::string::StringExecFns;

use crate::text::{
    lemma_precedes_chain, lemma_precedes_total, precedes, rank, same_text, Standing,
};

verus! {

/// Busy time and number of closes of one part.
#[derive(Debug, Clone, Copy, Default, PartialEq, Eq, Structural)]
pub struct PartAccum {
    /// Summed busy time in nanoseconds.
    pub total_ns: u128,
    /// Number of closes.
    pub count: u64,
}

/// A part by name.
pub type NamedPart = (String, PartAccum);

/// Parts stand in the order of their names, each name once.
pub open spec fn sorted_parts(parts: Seq<NamedPart>) -> bool {
    forall|i: int, j: int|
        0 <= i < j < parts.len() ==> precedes(
            (#[trigger] parts[i]).0@,
            (#[trigger] parts[j]).0@,
        )
}

/// Some part has this name.
pub open spec fn names_part(parts: Seq<NamedPart>, name: Seq<char>) -> bool {
    exists|i: int| 0 <= i < parts.len() && (#[trigger] parts[i]).0@ == name
}

/// The totals of the part with this name, nothing where there is none.
pub open spec fn part_of(parts: Seq<NamedPart>, name: Seq<char>) -> PartAccum {
    if names_part(parts, name) {
        parts[choose|i: int| 0 <= i < parts.len() && (#[trigger] parts[i]).0@ == name].1
    } else {
        PartAccum { total_ns: 0, count: 0 }
    }
}

/// A name stands for one part.
pub proof fn lemma_part_at(parts: Seq<NamedPart>, i: int)
    requires
        sorted_parts(parts),
        0 <= i < parts.len(),
    ensures
        part_of(parts, parts[i].0@) == parts[i].1,
{
    let name = parts[i].0@;
    let k = choose|k: int| 0 <= k < parts.len() && (#[trigger] parts[k]).0@ == name;
    lemma_precedes_total(name, name);
    if k < i {
        assert(precedes(parts[k].0@, parts[i].0@));
    }
    if i < k {
        assert(precedes(parts[i].0@, parts[k].0@));
    }
}

/// One more close of a part, with sums that stop at their range.
pub open spec fn closed_once(a: PartAccum, busy_ns: u128) -> PartAccum {
    PartAccum {
        total_ns: if a.total_ns + busy_ns > u128::MAX {
            u128::MAX
        } else {
            (a.total_ns + busy_ns) as u128
        },
        count: if a.count == u64::MAX {
            u64::MAX
        } else {
            (a.count + 1) as u64
        },
    }
}

/// Totals per part, and the number of accepted flips.
#[derive(Debug)]
pub struct TimingAggregator {
    parts: Vec<NamedPart>,
    accepts: u64,
}

impl Default for TimingAggregator {
    fn default() -> (r: Self)
        ensures
            r.wf(),
            r.parts().len() == 0,
            r.flips() == 0,
    {
        TimingAggregator::new()
    }
}

impl TimingAggregator {
    /// Parts are sorted by name.
    pub closed spec fn wf(&self) -> bool {
        sorted_parts(self.parts@)
    }

    /// The parts, in the order of their names.
    pub closed spec fn parts(&self) -> Seq<NamedPart> {
        self.parts@
    }

    /// The accepted flips.
    pub closed spec fn flips(&self) -> u64 {
        self.accepts
    }

    /// Nothing recorded.
    pub fn new() -> (r: Self)
        ensures
            r.wf(),
            r.parts().len() == 0,
            r.flips() == 0,
    {
        TimingAggregator { parts: Vec::new(), accepts: 0 }
    }

    /// The totals so far, in the order of their names.
    pub fn snapshot(&self) -> (r: Vec<NamedPart>)
        requires
            self.wf(),
        ensures
            sorted_parts(r@),
            r@.len() == self.parts().len(),
            forall|i: int|
                0 <= i < r@.len() ==> (#[trigger] r@[i]).0@ == self.parts()[i].0@ && r@[i].1
                    == self.parts()[i].1,
    {
        let mut r: Vec<NamedPart> = Vec::with_capacity(self.parts.len());
        let mut i: usize = 0;
        while i < self.parts.len()
            invariant
                i <= self.parts@.len(),
                r@.len() == i,
                forall|k: int|
                    0 <= k < i ==> (#[trigger] r@[k]).0@ == self.parts@[k].0@ && r@[k].1
                        == self.parts@[k].1,
            decreases self.parts@.len() - i,
        {
            let name: String = self.parts[i].0.clone();
            r.push((name, self.parts[i].1));
            i = i + 1;
        }
        r
    }

    /// Add `n` to the accepted flips, modulo 2^64.
    pub fn add_accepts(&mut self, n: u64)
        ensures
            final(self).flips() == (old(self).flips() + n) % 0x1_0000_0000_0000_0000,
            final(self).parts() == old(self).parts(),
            final(self).wf() == old(self).wf(),
    {
        self.accepts = self.accepts.wrapping_add(n);
    }

    /// The accepted flips so far.
    pub fn accepts(&self) -> (n: u64)
        ensures
            n == self.flips(),
    {
        self.accepts
    }

    /// Where a part stands or would stand: everything before comes before it.
    fn place(&self, name: &str) -> (at: usize)
        requires
            self.wf(),
        ensures
            at <= self.parts@.len(),
            forall|i: int| 0 <= i < at ==> precedes((#[trigger] self.parts@[i]).0@, name@),
            at < self.parts@.len() ==> !precedes(self.parts@[at as int].0@, name@),
    {
        let mut at: usize = 0;
        while at < self.parts.len()
            invariant
                at <= self.parts@.len(),
                forall|i: int| 0 <= i < at ==> precedes((#[trigger] self.parts@[i]).0@, name@),
            decreases self.parts@.len() - at,
        {
            match rank(self.parts[at].0.as_str(), name) {
                Standing::Before => {},
                _ => {
                    return at;
                },
            }
            at = at + 1;
        }
        at
    }

    /// Record one close of a part.
    pub fn record(&mut self, name: &str, busy_ns: u128)
        requires
            old(self).wf(),
        ensures
            final(self).wf(),
            final(self).flips() == old(self).flips(),
            part_of(final(self).parts(), name@) == closed_once(
                part_of(old(self).parts(), name@),
                busy_ns,
            ),
            names_part(final(self).parts(), name@),
            forall|other: Seq<char>|
                other != name@ ==> #[trigger] part_of(final(self).parts(), other) == part_of(
                    old(self).parts(),
                    other,
                ),
            forall|other: Seq<char>|
                other != name@ ==> (#[trigger] names_part(final(self).parts(), other)
                    <==> names_part(old(self).parts(), other)),
    {
        let ghost before = self.parts@;
        let at: usize = self.place(name);
        let found: bool = at < self.parts.len() && same_text(
            self.parts[at].0.as_str(),
            name,
        );
        if found {
            let (held, a) = (self.parts[at].0.clone(), self.parts[at].1);
            let next = close_part(a, busy_ns);
            self.parts.set(at, (held, next));
            proof {
                lemma_replaced(before, self.parts@, at as int, name@);
                lemma_part_at(before, at as int);
                lemma_part_at(self.parts@, at as int);
            }
        } else {
            let fresh = PartAccum { total_ns: 0, count: 0 };
            let next = close_part(fresh, busy_ns);
            let held: String = String::from_str(name);
            self.parts.insert(at, (held, next));
            proof {
                if at < before.len() {
                    lemma_precedes_total(before[at as int].0@, name@);
                    assert(precedes(name@, before[at as int].0@));
                }
                lemma_inserted(before, self.parts@, at as int, name@);
                lemma_part_at(self.parts@, at as int);
            }
        }
    }
}

/// One more close of a part.
fn close_part(a: PartAccum, busy_ns: u128) -> (r: PartAccum)
    ensures
        r == closed_once(a, busy_ns),
{
    PartAccum { total_ns: a.total_ns.saturating_add(busy_ns), count: a.count.saturating_add(1) }
}

/// New totals under an old name leave the order and the other parts alone.
proof fn lemma_replaced(before: Seq<NamedPart>, after: Seq<NamedPart>, at: int, name: Seq<char>)
    requires
        sorted_parts(before),
        0 <= at < before.len(),
        after.len() == before.len(),
        before[at].0@ == name,
        after[at].0@ == name,
        forall|i: int| 0 <= i < before.len() && i != at ==> #[trigger] after[i] == before[i],
    ensures
        sorted_parts(after),
        names_part(after, name),
        forall|other: Seq<char>|
            other != name ==> #[trigger] part_of(after, other) == part_of(before, other),
        forall|other: Seq<char>|
            other != name ==> (#[trigger] names_part(after, other) <==> names_part(before, other)),
{
    assert forall|i: int, j: int| 0 <= i < j < after.len() implies precedes(
        (#[trigger] after[i]).0@,
        (#[trigger] after[j]).0@,
    ) by {
        assert(precedes(before[i].0@, before[j].0@));
    }
    assert(after[at].0@ == name);
    assert forall|other: Seq<char>| other != name implies (#[trigger] names_part(after, other)
        <==> names_part(before, other)) by {
        if names_part(before, other) {
            let i = choose|i: int| 0 <= i < before.len() && (#[trigger] before[i]).0@ == other;
            assert(after[i].0@ == other);
        }
        if names_part(after, other) {
            let i = choose|i: int| 0 <= i < after.len() && (#[trigger] after[i]).0@ == other;
            assert(before[i].0@ == other);
        }
    }
    assert forall|other: Seq<char>| other != name implies #[trigger] part_of(after, other)
        == part_of(before, other) by {
        assert(names_part(after, other) <==> names_part(before, other));
        if names_part(before, other) {
            let i = choose|i: int| 0 <= i < before.len() && (#[trigger] before[i]).0@ == other;
            assert(after[i].0@ == other);
            lemma_part_at(before, i);
            lemma_part_at(after, i);
        }
    }
}

/// A new part keeps the order and the other parts.
proof fn lemma_inserted(before: Seq<NamedPart>, after: Seq<NamedPart>, at: int, name: Seq<char>)
    requires
        sorted_parts(before),
        0 <= at <= before.len(),
        after.len() == before.len() + 1,
        after[at].0@ == name,
        forall|i: int| 0 <= i < at ==> #[trigger] after[i] == before[i],
        forall|i: int| at < i < after.len() ==> #[trigger] after[i] == before[i - 1],
        forall|i: int| 0 <= i < at ==> precedes((#[trigger] before[i]).0@, name),
        at < before.len() ==> precedes(name, before[at].0@),
    ensures
        sorted_parts(after),
        names_part(after, name),
        part_of(before, name) == (PartAccum { total_ns: 0, count: 0 }),
        forall|other: Seq<char>|
            other != name ==> #[trigger] part_of(after, other) == part_of(before, other),
        forall|other: Seq<char>|
            other != name ==> (#[trigger] names_part(after, other) <==> names_part(before, other)),
{
    assert forall|i: int| at <= i < before.len() implies precedes(
        name,
        (#[trigger] before[i]).0@,
    ) by {
        if i > at {
            assert(precedes(before[at].0@, before[i].0@));
            lemma_precedes_chain(name, before[at].0@, before[i].0@);
        }
    }
    assert forall|i: int, j: int| 0 <= i < j < after.len() implies precedes(
        (#[trigger] after[i]).0@,
        (#[trigger] after[j]).0@,
    ) by {
        let x = if i < at {
            i
        } else {
            i - 1
        };
        let y = if j < at {
            j
        } else {
            j - 1
        };
        if i != at && j != at {
            assert(after[i] == before[x] && after[j] == before[y]);
            assert(precedes(before[x].0@, before[y].0@));
        } else if i == at {
            assert(after[j] == before[j - 1]);
        } else {
            assert(after[i] == before[i]);
        }
    }
    assert(after[at].0@ == name);
    assert(!names_part(before, name)) by {
        if names_part(before, name) {
            let i = choose|i: int| 0 <= i < before.len() && (#[trigger] before[i]).0@ == name;
            lemma_precedes_total(name, name);
            if i < at {
                assert(precedes(before[i].0@, name));
            } else {
                assert(precedes(name, before[i].0@));
            }
        }
    }
    assert forall|other: Seq<char>| other != name implies (#[trigger] names_part(after, other)
        <==> names_part(before, other)) by {
        if names_part(before, other) {
            let i = choose|i: int| 0 <= i < before.len() && (#[trigger] before[i]).0@ == other;
            if i < at {
                assert(after[i].0@ == other);
            } else {
                assert(after[i + 1].0@ == other);
            }
        }
        if names_part(after, other) {
            let i = choose|i: int| 0 <= i < after.len() && (#[trigger] after[i]).0@ == other;
            if i < at {
                assert(before[i].0@ == other);
            } else {
                assert(before[i - 1].0@ == other);
            }
        }
    }
    assert forall|other: Seq<char>| other != name implies #[trigger] part_of(after, other)
        == part_of(before, other) by {
        assert(names_part(after, other) <==> names_part(before, other));
        if names_part(before, other) {
            let i = choose|i: int| 0 <= i < before.len() && (#[trigger] before[i]).0@ == other;
            lemma_part_at(before, i);
            if i < at {
                assert(after[i].0@ == other);
                lemma_part_at(after, i);
            } else {
                assert(after[i + 1].0@ == other);
                lemma_part_at(after, i + 1);
            }
        }
    }
}

/// Feeds the closes of timed spans to an aggregator.
#[derive(Debug)]
pub struct TimingLayer {
    agg: TimingAggregator,
}

impl TimingLayer {
    /// The aggregator that it feeds.
    pub closed spec fn feeds(&self) -> TimingAggregator {
        self.agg
    }

    /// A layer that feeds `agg`.
    pub fn new(agg: TimingAggregator) -> (r: Self)
        ensures
            r.feeds() == agg,
    {
        TimingLayer { agg }
    }

    /// A span with this name closed after `busy_ns` nanoseconds.
    pub fn on_close(&mut self, name: &str, busy_ns: u128)
        requires
            old(self).feeds().wf(),
        ensures
            final(self).feeds().wf(),
            final(self).feeds().flips() == old(self).feeds().flips(),
            part_of(final(self).feeds().parts(), name@) == closed_once(
                part_of(old(self).feeds().parts(), name@),
                busy_ns,
            ),
            names_part(final(self).feeds().parts(), name@),
            forall|other: Seq<char>|
                other != name@ ==> #[trigger] part_of(final(self).feeds().parts(), other)
                    == part_of(old(self).feeds().parts(), other),
            forall|other: Seq<char>|
                other != name@ ==> (#[trigger] names_part(final(self).feeds().parts(), other)
                    <==> names_part(old(self).feeds().parts(), other)),
    {
        self.agg.record(name, busy_ns);
    }

    /// The aggregator.
    pub fn into_inner(self) -> (r: TimingAggregator)
        ensures
            r == self.feeds(),
    {
        self.agg
    }
}

/// Push `n` accepted flips to the active aggregator, if there is one.
pub fn record_accepts(active: &mut Option<TimingAggregator>, n: u64)
    ensures
        *old(active) is None ==> *final(active) is None,
        *old(active) matches Some(a) ==> *final(active) matches Some(b) && b.flips() == (a.flips()
            + n) % 0x1_0000_0000_0000_0000 && b.parts() == a.parts() && b.wf() == a.wf(),
{
    let mut held: Option<TimingAggregator> = None;
    std::mem::swap(&mut held, active);
    match held {
        Some(mut agg) => {
            agg.add_accepts(n);
            *active = Some(agg);
        },
        None => {},
    }
}

/// Run `f` with `agg` as the active aggregator. What was active before is active
/// again after it.
///
/// `f` takes the active slot and gives it back with its own result.
pub fn with_active_agg<
    R,
    F: FnOnce(Option<TimingAggregator>) -> (Option<TimingAggregator>, R),
>(active: &mut Option<TimingAggregator>, agg: TimingAggregator, f: F) -> (r: (
    Option<TimingAggregator>,
    R,
))
    requires
        call_requires(f, (Some(agg),)),
    ensures
        call_ensures(f, (Some(agg),), r),
        *final(active) == *old(active),
{
    let mut outer: Option<TimingAggregator> = None;
    std::mem::swap(&mut outer, active);
    let r = f(Some(agg));
    *active = outer;
    r
}

} // verus!
