//! Counters and distributions: pure observers of the simulation.

use vstd::prelude::*;

verus! {

/// Cumulative counters of the simulation.
#[derive(Clone, Copy, Debug)]
pub struct Stats {
    /// Ticks recorded so far.
    pub ticks: u64,
    /// Nodes alive at the last recorded tick.
    pub nodes: u64,
    /// Sections alive at the last recorded tick.
    pub sections: u64,
    /// Merges materialized, cumulative.
    pub merges: u64,
    /// Splits materialized, cumulative.
    pub splits: u64,
    /// Relocations delivered, cumulative.
    pub relocations: u64,
    /// Join rejections, cumulative.
    pub rejections: u64,
}

impl Stats {
    /// All counters at zero.
    pub fn new() -> (r: Stats)
        ensures
            r == (Stats {
                ticks: 0u64,
                nodes: 0u64,
                sections: 0u64,
                merges: 0u64,
                splits: 0u64,
                relocations: 0u64,
                rejections: 0u64,
            }),
    {
        Stats { ticks: 0, nodes: 0, sections: 0, merges: 0, splits: 0, relocations: 0, rejections: 0 }
    }

    /// Records one tick: the current node and section totals replace the old
    /// ones, the event counters accumulate (saturating).
    pub fn record(
        &mut self,
        nodes: u64,
        sections: u64,
        merges: u64,
        splits: u64,
        relocations: u64,
        rejections: u64,
    )
        ensures
            final(self).ticks == if old(self).ticks < u64::MAX {
                old(self).ticks + 1
            } else {
                u64::MAX as int
            },
            final(self).nodes == nodes,
            final(self).sections == sections,
            final(self).merges == if old(self).merges + merges <= u64::MAX {
                old(self).merges + merges
            } else {
                u64::MAX as int
            },
            final(self).splits == if old(self).splits + splits <= u64::MAX {
                old(self).splits + splits
            } else {
                u64::MAX as int
            },
            final(self).relocations == if old(self).relocations + relocations <= u64::MAX {
                old(self).relocations + relocations
            } else {
                u64::MAX as int
            },
            final(self).rejections == if old(self).rejections + rejections <= u64::MAX {
                old(self).rejections + rejections
            } else {
                u64::MAX as int
            },
    {
        self.ticks = if self.ticks < u64::MAX {
            self.ticks + 1
        } else {
            u64::MAX
        };
        self.nodes = nodes;
        self.sections = sections;
        self.merges = sat_add(self.merges, merges);
        self.splits = sat_add(self.splits, splits);
        self.relocations = sat_add(self.relocations, relocations);
        self.rejections = sat_add(self.rejections, rejections);
    }

    /// A copy of the counters.
    pub fn summary(&self) -> (r: Stats)
        ensures
            r == *self,
    {
        *self
    }
}

/// Saturating 64-bit addition of two values.
pub open spec fn spec_sat_add(a: u64, b: u64) -> u64 {
    if a + b <= u64::MAX {
        (a + b) as u64
    } else {
        u64::MAX
    }
}

/// Saturating 64-bit addition.
pub fn sat_add(a: u64, b: u64) -> (r: u64)
    ensures
        r == spec_sat_add(a, b),
{
    if a <= u64::MAX - b {
        a + b
    } else {
        u64::MAX
    }
}

/// Minimum, maximum, sum and count of a value list.
#[derive(Clone, Copy, Debug)]
pub struct Distribution {
    /// Smallest value, 0 when the list is empty.
    pub min: u64,
    /// Largest value, 0 when the list is empty.
    pub max: u64,
    /// Sum of all values.
    pub sum: u128,
    /// Number of values.
    pub count: u64,
}

/// The sum of a value sequence.
pub open spec fn seq_sum(s: Seq<u64>) -> int
    decreases s.len(),
{
    if s.len() == 0 {
        0
    } else {
        seq_sum(s.drop_last()) + s.last()
    }
}

impl Distribution {
    /// The distribution of a value list: exact minimum, maximum, sum and
    /// count.
    pub fn new(values: &Vec<u64>) -> (r: Distribution)
        ensures
            r.count == values@.len(),
            r.sum == seq_sum(values@),
            values@.len() == 0 ==> r.min == 0 && r.max == 0,
            values@.len() > 0 ==> (exists|i: int|
                0 <= i < values@.len() && r.min == #[trigger] values@[i]) && (exists|i: int|
                0 <= i < values@.len() && r.max == #[trigger] values@[i]) && (forall|i: int|
                0 <= i < values@.len() ==> r.min <= #[trigger] values@[i] && values@[i] <= r.max),
    {
        let mut min: u64 = 0;
        let mut max: u64 = 0;
        let mut sum: u128 = 0;
        let mut i: usize = 0;
        while i < values.len()
            invariant
                i <= values@.len(),
                sum == seq_sum(values@.subrange(0, i as int)),
                sum <= i * 0xffff_ffff_ffff_ffff,
                i == 0 ==> min == 0 && max == 0,
                i > 0 ==> (exists|j: int| 0 <= j < i && min == #[trigger] values@[j]) && (exists|
                    j: int,
                |
                    0 <= j < i && max == #[trigger] values@[j]) && (forall|j: int|
                    0 <= j < i ==> min <= #[trigger] values@[j] && values@[j] <= max),
            decreases values@.len() - i,
        {
            proof {
                assert(values@.subrange(0, i + 1).drop_last() =~= values@.subrange(0, i as int));
            }
            let v = values[i];
            if i == 0 {
                min = v;
                max = v;
            } else {
                if v < min {
                    min = v;
                }
                if v > max {
                    max = v;
                }
            }
            proof {
                assert((i + 1) * 0xffff_ffff_ffff_ffffu128 == i * 0xffff_ffff_ffff_ffffu128
                    + 0xffff_ffff_ffff_ffffu128) by (nonlinear_arith);
                assert(sum <= 0xffff_ffff_ffff_ffffu128 * 0xffff_ffff_ffff_ffffu128)
                    by (nonlinear_arith)
                    requires
                        sum <= i * 0xffff_ffff_ffff_ffffu128,
                        0 <= i <= 0xffff_ffff_ffff_ffffu128,
                ;
            }
            sum = sum + (v as u128);
            i = i + 1;
        }
        proof {
            assert(values@.subrange(0, values@.len() as int) =~= values@);
        }
        Distribution { min, max, sum, count: values.len() as u64 }
    }
}

} // verus!
