//! Column storage of the instruction rows, and the stage and dependency records.
use vstd::prelude::*;
use crate::konata::flags::{FlushState, RowFlags, StageFlags};

verus! {

/// Marker for an absent 64-bit column value.
pub const MISSING_U64: u64 = 0xFFFF_FFFF_FFFF_FFFF;

/// Marker for an absent 32-bit column value.
pub const MISSING_U32: u32 = 0xFFFF_FFFF;

/// The value of a 64-bit column entry, `None` for the missing marker.
pub open spec fn present_u64(value: u64) -> Option<u64> {
    if value != MISSING_U64 {
        Some(value)
    } else {
        None
    }
}

/// The value of a 32-bit column entry, `None` for the missing marker.
pub open spec fn present_u32(value: u32) -> Option<u32> {
    if value != MISSING_U32 {
        Some(value)
    } else {
        None
    }
}

/// One column per instruction attribute; row `i` is entry `i` of every column.
#[derive(Debug, Clone)]
pub struct InstructionColumns {
    pub begin: Vec<u64>,
    pub end: Vec<u64>,
    pub tx_id: Vec<u64>,
    pub sid: Vec<u64>,
    pub rid: Vec<u64>,
    pub tid: Vec<u32>,
    pub flags: Vec<RowFlags>,
    pub flushed: Vec<FlushState>,
    pub label: Vec<u32>,
    pub detail: Vec<u32>,
}

impl InstructionColumns {
    /// Every column has one entry per row.
    pub open spec fn wf(&self) -> bool {
        let n = self.begin.len();
        &&& self.end.len() == n
        &&& self.tx_id.len() == n
        &&& self.sid.len() == n
        &&& self.rid.len() == n
        &&& self.tid.len() == n
        &&& self.flags.len() == n
        &&& self.flushed.len() == n
        &&& self.label.len() == n
        &&& self.detail.len() == n
    }

    /// Empty columns.
    pub fn with_capacity(capacity: usize) -> (columns: Self)
        ensures
            columns.wf(),
            columns.begin.len() == 0,
    {
        Self {
            begin: Vec::with_capacity(capacity),
            end: Vec::with_capacity(capacity),
            tx_id: Vec::with_capacity(capacity),
            sid: Vec::with_capacity(capacity),
            rid: Vec::with_capacity(capacity),
            tid: Vec::with_capacity(capacity),
            flags: Vec::with_capacity(capacity),
            flushed: Vec::with_capacity(capacity),
            label: Vec::with_capacity(capacity),
            detail: Vec::with_capacity(capacity),
        }
    }

    /// Number of rows.
    pub fn len(&self) -> (len: usize)
        ensures
            len == self.begin.len(),
    {
        self.begin.len()
    }

    /// Whether there is no row.
    pub fn is_empty(&self) -> (empty: bool)
        ensures
            empty == (self.begin.len() == 0),
    {
        self.begin.len() == 0
    }

    /// Simulator instruction id of `row`, if recorded.
    pub fn sid(&self, row: usize) -> (sid: Option<u64>)
        requires
            row < self.sid.len(),
        ensures
            sid == present_u64(self.sid@[row as int]),
    {
        if self.sid[row] != MISSING_U64 {
            Some(self.sid[row])
        } else {
            None
        }
    }

    /// Retire id of `row`, if recorded.
    pub fn rid(&self, row: usize) -> (rid: Option<u64>)
        requires
            row < self.rid.len(),
        ensures
            rid == present_u64(self.rid@[row as int]),
    {
        if self.rid[row] != MISSING_U64 {
            Some(self.rid[row])
        } else {
            None
        }
    }

    /// Thread id of `row`, if recorded.
    pub fn tid(&self, row: usize) -> (tid: Option<u32>)
        requires
            row < self.tid.len(),
        ensures
            tid == present_u32(self.tid@[row as int]),
    {
        if self.tid[row] != MISSING_U32 {
            Some(self.tid[row])
        } else {
            None
        }
    }

    /// Label string id of `row`, if recorded.
    pub fn label(&self, row: usize) -> (label: Option<u32>)
        requires
            row < self.label.len(),
        ensures
            label == present_u32(self.label@[row as int]),
    {
        if self.label[row] != MISSING_U32 {
            Some(self.label[row])
        } else {
            None
        }
    }

    /// Detail string id of `row`, if recorded.
    pub fn detail(&self, row: usize) -> (detail: Option<u32>)
        requires
            row < self.detail.len(),
        ensures
            detail == present_u32(self.detail@[row as int]),
    {
        if self.detail[row] != MISSING_U32 {
            Some(self.detail[row])
        } else {
            None
        }
    }
}

/// One pipeline stage of an instruction row.
#[derive(Debug, Clone, Copy, PartialEq, Eq, Structural)]
pub struct KonataStage {
    pub start: u64,
    pub end: u64,
    pub event_tx: u64,
    pub name: u16,
    pub lane: u16,
    pub flags: StageFlags,
    pub detail_page: u32,
    pub annotation_start: u32,
    pub annotation_end: u32,
}

/// A producer/consumer edge between two rows.
#[derive(Debug, Clone, Copy, PartialEq, Eq, Structural)]
pub struct KonataDependency {
    pub producer_row: u32,
    pub consumer_row: u32,
    pub name: u16,
    /// Exact endpoint timestamp when the relation names a stage event.
    pub producer_tick: Option<u64>,
    pub consumer_tick: Option<u64>,
}

} // verus!
