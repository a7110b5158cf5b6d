//! Counts of what joins build.

use vstd::prelude::*;

verus! {

/// How many choices and zero amounts were built, and how deep choices nest. A count
/// stays at its largest value once it is there.
#[derive(Debug, Clone, Copy, PartialEq, Eq, Structural)]
pub struct MergeTrace {
    pub selects_built: u64,
    pub zero_leaves: u64,
    pub max_depth: u32,
}

/// The counts so far, and whether anything is counted.
#[derive(Debug, Clone, Copy, PartialEq, Eq, Structural)]
pub struct Tracer {
    pub on: bool,
    pub counts: MergeTrace,
}

pub open spec fn next_count(n: u64) -> u64 {
    if n < u64::MAX {
        (n + 1) as u64
    } else {
        n
    }
}

pub open spec fn deeper(a: u32, b: u32) -> u32 {
    if a < b {
        b
    } else {
        a
    }
}

impl MergeTrace {
    /// Counts of nothing.
    pub fn zero() -> (r: MergeTrace)
        ensures
            r == (MergeTrace { selects_built: 0, zero_leaves: 0, max_depth: 0 }),
    {
        MergeTrace { selects_built: 0, zero_leaves: 0, max_depth: 0 }
    }

    /// The counts so far, which start again from zero; `None` where nothing is
    /// counted.
    pub fn take(tracer: &mut Tracer) -> (r: Option<MergeTrace>)
        ensures
            r == (if old(tracer).on {
                Some(old(tracer).counts)
            } else {
                None::<MergeTrace>
            }),
            final(tracer).on == old(tracer).on,
            final(tracer).counts == (if old(tracer).on {
                MergeTrace { selects_built: 0, zero_leaves: 0, max_depth: 0 }
            } else {
                old(tracer).counts
            }),
    {
        if !tracer.on {
            return None;
        }
        let t = tracer.counts;
        tracer.counts = MergeTrace::zero();
        Some(t)
    }
}

impl Tracer {
    pub fn new(on: bool) -> (r: Tracer)
        ensures
            r.on == on,
            r.counts == (MergeTrace { selects_built: 0, zero_leaves: 0, max_depth: 0 }),
    {
        Tracer { on, counts: MergeTrace::zero() }
    }

    /// Counts a choice of a given depth.
    pub fn bump_select(&mut self, depth: u32)
        ensures
            final(self).on == old(self).on,
            final(self).counts == (if old(self).on {
                counted(old(self).counts, Counted::Select(depth))
            } else {
                old(self).counts
            }),
    {
        if !self.on {
            return;
        }
        if self.counts.selects_built < u64::MAX {
            self.counts.selects_built = self.counts.selects_built + 1;
        }
        if self.counts.max_depth < depth {
            self.counts.max_depth = depth;
        }
    }

    /// Counts a zero amount.
    pub fn bump_zero(&mut self)
        ensures
            final(self).on == old(self).on,
            final(self).counts == (if old(self).on {
                counted(old(self).counts, Counted::Zero)
            } else {
                old(self).counts
            }),
    {
        if !self.on {
            return;
        }
        if self.counts.zero_leaves < u64::MAX {
            self.counts.zero_leaves = self.counts.zero_leaves + 1;
        }
    }
}

/// A call that counts.
pub ghost enum Counted {
    Select(u32),
    Zero,
}

/// What a call makes of the counts.
pub open spec fn counted(t: MergeTrace, c: Counted) -> MergeTrace {
    match c {
        Counted::Select(depth) => MergeTrace {
            selects_built: next_count(t.selects_built),
            zero_leaves: t.zero_leaves,
            max_depth: deeper(t.max_depth, depth),
        },
        Counted::Zero => MergeTrace {
            selects_built: t.selects_built,
            zero_leaves: next_count(t.zero_leaves),
            max_depth: t.max_depth,
        },
    }
}

/// What calls make of the counts, in turn.
pub open spec fn counted_all(t: MergeTrace, cs: Seq<Counted>) -> MergeTrace
    decreases cs.len(),
{
    if cs.len() == 0 {
        t
    } else {
        counted(counted_all(t, cs.drop_last()), cs.last())
    }
}

/// How many calls count a choice.
pub open spec fn selects(cs: Seq<Counted>) -> nat
    decreases cs.len(),
{
    if cs.len() == 0 {
        0
    } else {
        selects(cs.drop_last()) + if cs.last() is Select {
            1nat
        } else {
            0nat
        }
    }
}

/// A number that stays at the largest value that fits.
pub open spec fn at_most_max(n: int) -> int {
    if n > u64::MAX {
        u64::MAX as int
    } else {
        n
    }
}

/// After calls, the counts are how many choices and zero amounts were counted since the
/// start, and the depth is that of the deepest.
pub proof fn law_counts(t: MergeTrace, cs: Seq<Counted>)
    ensures
        counted_all(t, cs).selects_built == at_most_max(t.selects_built + selects(cs)),
        counted_all(t, cs).zero_leaves == at_most_max(t.zero_leaves + cs.len() - selects(cs)),
        selects(cs) <= cs.len(),
        t.max_depth <= counted_all(t, cs).max_depth,
        forall|i: int|
            0 <= i < cs.len() && (#[trigger] cs[i]) is Select ==> cs[i]->Select_0 <= counted_all(
                t,
                cs,
            ).max_depth,
        counted_all(t, cs).max_depth == t.max_depth || exists|i: int|
            0 <= i < cs.len() && (#[trigger] cs[i]) is Select && cs[i]->Select_0 == counted_all(
                t,
                cs,
            ).max_depth,
    decreases cs.len(),
{
    if cs.len() > 0 {
        let front = cs.drop_last();
        law_counts(t, front);
        assert forall|i: int| 0 <= i < cs.len() && (#[trigger] cs[i]) is Select implies cs[i]->Select_0
            <= counted_all(t, cs).max_depth by {
            if i < front.len() {
                assert(front[i] == cs[i]);
            }
        }
        let was = counted_all(t, front).max_depth;
        let now = counted_all(t, cs).max_depth;
        if now != was {
            assert(cs[cs.len() - 1] is Select);
        } else if was != t.max_depth {
            let i = choose|i: int|
                0 <= i < front.len() && (#[trigger] front[i]) is Select && front[i]->Select_0
                    == was;
            assert(cs[i] == front[i]);
        }
    }
}

} // verus!
