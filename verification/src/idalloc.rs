//! Vector-id allocation.
//!
//! The allocator hands out contiguous ranges of vector identifiers from a
//! single counter. It is seeded at startup from the vector-map log's line
//! count, which keeps freshly assigned ids consistent with the number of
//! vectors already committed.

use vstd::prelude::*;

verus! {

/// The next unused vector identifier, as a single counter.
#[derive(Debug, Clone)]
pub struct IdAllocator {
    pub next: usize,
}

impl IdAllocator {
    /// A fresh allocator whose next id is `seed` (the map log's line count).
    pub fn new(seed: usize) -> (r: IdAllocator)
        ensures
            r.next == seed,
    {
        IdAllocator { next: seed }
    }

    /// Reserves `n` consecutive ids and returns the first: the range
    /// `start .. start + n` belongs to this caller alone.
    pub fn reserve(&mut self, n: usize) -> (start: usize)
        requires
            old(self).next + n <= usize::MAX,
        ensures
            start == old(self).next,
            final(self).next == old(self).next + n,
    {
        let start = self.next;
        self.next = self.next + n;
        start
    }
}

/// The sum of a sequence of reservation amounts.
pub open spec fn amounts_sum(ns: Seq<nat>) -> nat
    decreases ns.len(),
{
    if ns.len() == 0 {
        0
    } else {
        amounts_sum(ns.drop_last()) + ns.last()
    }
}

/// The start of the range the i-th `reserve` call returns, when the counter
/// began at `c0` and the calls requested the amounts `ns` in order: `reserve`
/// returns the counter's value before the call, and each call advances the
/// counter by its amount.
pub open spec fn range_start(c0: nat, ns: Seq<nat>, i: int) -> nat {
    c0 + amounts_sum(ns.take(i))
}

proof fn lemma_amounts_sum_take_succ(ns: Seq<nat>, i: int)
    requires
        0 <= i < ns.len(),
    ensures
        amounts_sum(ns.take(i + 1)) == amounts_sum(ns.take(i)) + ns[i],
{
    assert(ns.take(i + 1).drop_last() =~= ns.take(i));
    assert(ns.take(i + 1).last() == ns[i]);
}

proof fn lemma_amounts_sum_monotonic(ns: Seq<nat>, i: int, j: int)
    requires
        0 <= i <= j <= ns.len(),
    ensures
        amounts_sum(ns.take(i)) <= amounts_sum(ns.take(j)),
    decreases j - i,
{
    if i < j {
        lemma_amounts_sum_take_succ(ns, j - 1);
        lemma_amounts_sum_monotonic(ns, i, j - 1);
    }
}

/// Id monotonicity: for any sequence of `reserve` calls with amounts `ns`
/// from a counter that began at `c0`, the ranges handed out are pairwise
/// disjoint — each earlier range ends no later than a later range begins.
pub proof fn lemma_reserve_ranges_disjoint(c0: nat, ns: Seq<nat>, i: int, j: int)
    requires
        0 <= i < j < ns.len(),
    ensures
        range_start(c0, ns, i) + ns[i] <= range_start(c0, ns, j),
{
    lemma_amounts_sum_take_succ(ns, i);
    lemma_amounts_sum_monotonic(ns, i + 1, j);
}

/// Id monotonicity, counter part: after a sequence of `reserve` calls with
/// amounts `ns` from a counter that began at `c0`, the counter equals `c0`
/// plus the sum of all amounts.
pub proof fn lemma_reserve_counter_total(c0: nat, ns: Seq<nat>)
    ensures
        range_start(c0, ns, ns.len() as int) == c0 + amounts_sum(ns),
{
    assert(ns.take(ns.len() as int) =~= ns);
}

} // verus!
