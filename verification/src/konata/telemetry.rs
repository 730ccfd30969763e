//! Counters that describe the storage of the stage details.
use vstd::prelude::*;

verus! {

/// Sizes and cache counters of the stage detail storage.
#[derive(Debug, Clone, Copy, PartialEq, Eq, Structural)]
pub struct KonataDetailCacheTelemetry {
    pub budget_bytes: usize,
    pub encoded_bytes: usize,
    pub page_count: usize,
    pub resident_bytes: usize,
    pub resident_pages: usize,
    pub pending_pages: usize,
    pub hits: u64,
    pub misses: u64,
    pub evictions: u64,
    pub decode_errors: u64,
}

impl Default for KonataDetailCacheTelemetry {
    fn default() -> (t: Self)
        ensures
            t.budget_bytes == 0 && t.encoded_bytes == 0 && t.page_count == 0 && t.resident_bytes == 0
                && t.resident_pages == 0 && t.pending_pages == 0 && t.hits == 0 && t.misses == 0 && t.evictions == 0
                && t.decode_errors == 0,
    {
        KonataDetailCacheTelemetry {
            budget_bytes: 0,
            encoded_bytes: 0,
            page_count: 0,
            resident_bytes: 0,
            resident_pages: 0,
            pending_pages: 0,
            hits: 0,
            misses: 0,
            evictions: 0,
            decode_errors: 0,
        }
    }
}

} // verus!
