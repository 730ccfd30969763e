//! The schedule on which a model that is still loading is shown in part: after 512
//! instructions, then each time their count has doubled, up to 4096.
use vstd::prelude::*;

verus! {

/// Largest instruction count at which a partial model is still shown.
pub const LAST_PARTIAL_ROWS: usize = 4096;

/// When the next partial model of a loading trace is due, and what it is built from.
pub struct KonataProgressivePublisher {
    pub parent_generator: u64,
    pub event_generator: u64,
    pub stream: u64,
    pub detail_cache_budget: usize,
    pub next_rows: usize,
}

/// The threshold after a partial model of `rows` instructions: twice the previous one
/// (held at `usize::MAX`), and past `rows`.
pub open spec fn next_threshold(previous: usize, rows: usize) -> int {
    let doubled = if 2 * previous > usize::MAX { usize::MAX as int } else { 2 * previous };
    if doubled > rows + 1 {
        doubled
    } else {
        rows + 1
    }
}

impl KonataProgressivePublisher {
    /// A schedule whose first partial model is due at 512 instructions.
    pub fn new(parent_generator: u64, event_generator: u64, stream: u64, detail_cache_budget: usize) -> (publisher: Self)
        ensures
            publisher.parent_generator == parent_generator,
            publisher.event_generator == event_generator,
            publisher.stream == stream,
            publisher.detail_cache_budget == detail_cache_budget,
            publisher.next_rows == 512,
    {
        KonataProgressivePublisher { parent_generator, event_generator, stream, detail_cache_budget, next_rows: 512 }
    }

    /// Whether a partial model of `rows` instructions (with stage events loaded when
    /// `has_events`) is due now: the schedule has not ended and `rows` reached the
    /// threshold. When it is, the threshold moves past `rows`.
    pub fn publish_if_due(&mut self, rows: usize, has_events: bool) -> (due: bool)
        requires
            rows < usize::MAX,
        ensures
            due == (old(self).next_rows <= LAST_PARTIAL_ROWS && rows >= old(self).next_rows && has_events),
            due ==> final(self).next_rows == next_threshold(old(self).next_rows, rows),
            !due ==> final(self).next_rows == old(self).next_rows,
            final(self).parent_generator == old(self).parent_generator,
            final(self).event_generator == old(self).event_generator,
            final(self).stream == old(self).stream,
            final(self).detail_cache_budget == old(self).detail_cache_budget,
    {
        if self.next_rows > LAST_PARTIAL_ROWS || rows < self.next_rows || !has_events {
            return false;
        }
        while self.next_rows <= rows
            invariant
                rows < usize::MAX,
                old(self).next_rows <= rows,
                self.next_rows == old(self).next_rows || self.next_rows == next_threshold(old(self).next_rows, rows),
                self.parent_generator == old(self).parent_generator,
                self.event_generator == old(self).event_generator,
                self.stream == old(self).stream,
                self.detail_cache_budget == old(self).detail_cache_budget,
            decreases usize::MAX - self.next_rows,
        {
            let doubled = if self.next_rows > usize::MAX / 2 { usize::MAX } else { self.next_rows * 2 };
            self.next_rows = if doubled > rows + 1 { doubled } else { rows + 1 };
        }
        true
    }

    /// Whether more partial models may still be due.
    pub fn accepts_more(&self) -> (more: bool)
        ensures
            more == (self.next_rows <= LAST_PARTIAL_ROWS),
    {
        self.next_rows <= LAST_PARTIAL_ROWS
    }
}

} // verus!
