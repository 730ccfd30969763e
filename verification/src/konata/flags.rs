//! Per-row and per-stage quality flags and the trace quality counters.
use vstd::prelude::*;

verus! {

/// Whether an instruction was flushed from the pipeline.
#[derive(Debug, Clone, Copy, PartialEq, Eq, Structural)]
pub enum FlushState {
    False,
    True,
    Unknown,
}

/// Quality flags of one instruction row.
#[derive(Debug, Clone, Copy, PartialEq, Eq, Structural)]
pub struct RowFlags(pub u16);

impl RowFlags {
    pub const BEGIN_REGRESSION: u16 = 1;
    pub const MISSING_RID: u16 = 2;
    pub const DUPLICATE_RID: u16 = 4;

    /// No flag set.
    pub fn none() -> (flags: Self)
        ensures
            flags.0 == 0,
    {
        RowFlags(0)
    }

    pub open spec fn has(self, flag: u16) -> bool {
        self.0 & flag != 0
    }

    /// Sets the bits of `flag`.
    pub fn insert(&mut self, flag: u16)
        ensures
            final(self).0 == old(self).0 | flag,
            flag != 0 ==> final(self).has(flag),
            forall|other: u16| old(self).has(other) ==> final(self).has(other),
    {
        let before = self.0;
        self.0 = self.0 | flag;
        proof {
            let after = self.0;
            assert(flag != 0 ==> (before | flag) & flag != 0) by (bit_vector);
            assert forall|other: u16| before & other != 0 implies (before | flag) & other != 0 by {
                assert(before & other != 0 ==> (before | flag) & other != 0) by (bit_vector);
            }
        }
    }

    /// Whether any bit of `flag` is set.
    pub fn contains(self, flag: u16) -> (set: bool)
        ensures
            set == self.has(flag),
    {
        self.0 & flag != 0
    }
}

impl Default for RowFlags {
    fn default() -> (flags: Self)
        ensures
            flags.0 == 0,
    {
        RowFlags(0)
    }
}

/// Quality flags of one pipeline stage.
#[derive(Debug, Clone, Copy, PartialEq, Eq, Structural)]
pub struct StageFlags(pub u8);

impl StageFlags {
    pub const OUT_OF_RANGE: u8 = 1;
    pub const END_BEFORE_START: u8 = 2;
    pub const UNNAMED: u8 = 4;
    pub const MULTIPLE_PARENTS: u8 = 8;

    /// No flag set.
    pub fn none() -> (flags: Self)
        ensures
            flags.0 == 0,
    {
        StageFlags(0)
    }

    pub open spec fn has(self, flag: u8) -> bool {
        self.0 & flag != 0
    }

    /// Sets the bits of `flag`.
    pub fn insert(&mut self, flag: u8)
        ensures
            final(self).0 == old(self).0 | flag,
            flag != 0 ==> final(self).has(flag),
            forall|other: u8| old(self).has(other) ==> final(self).has(other),
    {
        let before = self.0;
        self.0 = self.0 | flag;
        proof {
            assert(flag != 0 ==> (before | flag) & flag != 0) by (bit_vector);
            assert forall|other: u8| before & other != 0 implies (before | flag) & other != 0 by {
                assert(before & other != 0 ==> (before | flag) & other != 0) by (bit_vector);
            }
        }
    }

    /// Whether any bit of `flag` is set.
    pub fn contains(self, flag: u8) -> (set: bool)
        ensures
            set == self.has(flag),
    {
        self.0 & flag != 0
    }
}

impl Default for StageFlags {
    fn default() -> (flags: Self)
        ensures
            flags.0 == 0,
    {
        StageFlags(0)
    }
}

/// Counts of the malformed-data cases found while projecting a trace.
#[derive(Debug, Clone, PartialEq, Eq, Structural)]
pub struct KonataQualityCounters {
    pub orphans: u64,
    pub multiple_parents: u64,
    pub unnamed_stages: u64,
    pub out_of_range: u64,
    pub end_before_start: u64,
    pub begin_regressions: u64,
    pub unknown_lanes: u64,
    pub missing_rid: u64,
    pub duplicate_rid: u64,
}

impl KonataQualityCounters {
    /// All counters zero.
    pub fn zero() -> (counters: Self)
        ensures
            counters.total_spec() == 0,
            counters.orphans == 0 && counters.multiple_parents == 0 && counters.unnamed_stages == 0
                && counters.out_of_range == 0 && counters.end_before_start == 0
                && counters.begin_regressions == 0 && counters.unknown_lanes == 0
                && counters.missing_rid == 0 && counters.duplicate_rid == 0,
    {
        KonataQualityCounters {
            orphans: 0,
            multiple_parents: 0,
            unnamed_stages: 0,
            out_of_range: 0,
            end_before_start: 0,
            begin_regressions: 0,
            unknown_lanes: 0,
            missing_rid: 0,
            duplicate_rid: 0,
        }
    }

    pub open spec fn total_spec(&self) -> int {
        self.orphans + self.multiple_parents + self.unnamed_stages + self.out_of_range
            + self.end_before_start + self.begin_regressions + self.unknown_lanes
            + self.missing_rid + self.duplicate_rid
    }

    /// Sum of all counters.
    pub fn total(&self) -> (total: u64)
        requires
            self.total_spec() <= u64::MAX,
        ensures
            total == self.total_spec(),
    {
        self.orphans + self.multiple_parents + self.unnamed_stages + self.out_of_range
            + self.end_before_start + self.begin_regressions + self.unknown_lanes
            + self.missing_rid + self.duplicate_rid
    }
}

impl Default for KonataQualityCounters {
    fn default() -> (counters: Self)
        ensures
            counters.total_spec() == 0,
    {
        Self::zero()
    }
}

} // verus!
