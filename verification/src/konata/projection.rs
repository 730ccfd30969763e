//! Plain records that the pipeline model is built from: the normalized instruction rows,
//! the pending stage events, and the event-to-instruction and dependency relations.
use vstd::prelude::*;
use crate::konata::columns::MISSING_U32;

verus! {

/// A stage event before it is attached to its instruction row.
#[derive(Debug, Clone, Copy, PartialEq, Eq, Structural)]
pub struct PendingStage {
    pub start: u64,
    pub end: u64,
    pub event_tx: u64,
    pub name: u16,
    pub lane: u16,
    pub unnamed: bool,
    pub unknown_lane: bool,
    pub annotation_start: u32,
    pub annotation_end: u32,
}

/// The instruction rows that an event names as parents: the first one, and how many.
#[derive(Debug, Clone, Copy, PartialEq, Eq, Structural)]
pub struct ProjectedEventParent {
    pub first_row: u32,
    pub count: u32,
}

impl ProjectedEventParent {
    /// No parent yet.
    pub open spec fn empty_spec() -> Self {
        ProjectedEventParent { first_row: MISSING_U32, count: 0 }
    }

    /// No parent yet.
    pub fn none() -> (parent: Self)
        ensures
            parent.first_row == MISSING_U32,
            parent.count == 0,
    {
        Self { first_row: MISSING_U32, count: 0 }
    }
}

impl Default for ProjectedEventParent {
    fn default() -> (parent: Self)
        ensures
            parent.first_row == MISSING_U32,
            parent.count == 0,
    {
        Self::none()
    }
}

/// A relation between two known transactions that may become a dependency edge.
#[derive(Debug, Clone)]
pub struct ProjectedDependency {
    pub input_order: u64,
    pub name: String,
    pub source_tx: u64,
    pub sink_tx: u64,
}

/// The event parents (one entry per pending stage) and the candidate dependency edges.
#[derive(Debug, Clone)]
pub struct KonataRelationProjection {
    pub event_parents: Vec<ProjectedEventParent>,
    pub dependencies: Vec<ProjectedDependency>,
}


} // verus!
