//! The pipeline model: instruction rows, their stages, dependency edges, and the lookup
//! indexes that the view queries.
use vstd::prelude::*;
use crate::konata::bits;
use crate::konata::annotations::{annotation_index_ok, KonataAnnotation};
use crate::konata::columns::{InstructionColumns, KonataDependency, KonataStage, MISSING_U32};
use crate::konata::csr;
use crate::konata::csr::dependency_slice;
use crate::konata::flags::{FlushState, KonataQualityCounters};
use crate::konata::index;
use crate::konata::index::{nearest_row_for_tick, sorted_id_lookup, unique_index_lookup};
use crate::konata::range_index;
use crate::konata::range_index::BlockRangeIndex;
use crate::konata::rows::KonataRowSet;
use crate::konata::thread_index;
use crate::konata::thread_index::{pack_thread_rid, wide_unique_lookup};
use crate::konata::visibility;
use crate::konata::visibility::VisibilityIndex;
use std::sync::atomic::AtomicBool;

verus! {

/// The (begin, end) pair of every row.
pub open spec fn row_ranges(rows: InstructionColumns) -> Seq<(u64, u64)> {
    Seq::new(rows.begin.len() as nat, |r: int| (rows.begin@[r], rows.end@[r]))
}

/// The (begin, end) pair of every visible row, in row order: the visible row with `k`
/// visible rows before it is entry `k`.
pub open spec fn visible_ranges_of(rows: InstructionColumns, vis: Seq<bool>, ranges: Seq<(u64, u64)>) -> bool {
    &&& ranges.len() == bits::count_true(vis, vis.len() as int)
    &&& forall|r: int|
        0 <= r < vis.len() && vis[r] ==> ranges[#[trigger] bits::count_true(vis, r) as int] == (rows.begin@[r], rows.end@[r])
}

/// The larger row of an edge.
pub open spec fn edge_max_row(d: KonataDependency) -> u32 {
    if d.producer_row >= d.consumer_row {
        d.producer_row
    } else {
        d.consumer_row
    }
}

/// The edges are ordered by their larger row.
pub open spec fn sorted_by_max_row(deps: Seq<KonataDependency>) -> bool {
    forall|i: int, j: int| 0 <= i <= j < deps.len() ==> edge_max_row(#[trigger] deps[i]) <= edge_max_row(#[trigger] deps[j])
}

/// Stage ranges per row: row `r` owns `stages[offsets[r] .. offsets[r + 1]]`.
pub open spec fn stage_ranges_ok(offsets: Seq<u32>, row_count: int, stage_count: int) -> bool {
    &&& offsets.len() == row_count + 1
    &&& offsets[0] == 0
    &&& offsets[row_count] == stage_count
    &&& forall|a: int, b: int| 0 <= a <= b <= row_count ==> #[trigger] offsets[a] <= #[trigger] offsets[b]
}

/// The row whose stage range holds stage `k`.
pub open spec fn stage_owner(offsets: Seq<u32>, k: int, r: int) -> bool {
    offsets[r] <= k < offsets[r + 1]
}

/// `index` lists, for every stage, its event transaction and owning row, and nothing else.
pub open spec fn indexes_events(index: Seq<(u64, u32)>, stages: Seq<KonataStage>, offsets: Seq<u32>, row_count: int) -> bool {
    &&& index::sorted_pairs(index)
    &&& forall|i: int|
        0 <= i < index.len() ==> {
            let (event, row) = #[trigger] index[i];
            &&& (row as int) < row_count
            &&& exists|k: int| #[trigger] stage_owner(offsets, k, row as int) && stages[k].event_tx == event
        }
    &&& forall|r: int, k: int|
        #![trigger stage_owner(offsets, k, r)]
        0 <= r < row_count && stage_owner(offsets, k, r) ==> index.contains(
            (stages[k].event_tx, r as u32),
        )
}

/// Instruction rows, stages and dependency edges of one pipeline trace, with lookup indexes.
pub struct KonataModel {
    pub rows: InstructionColumns,
    pub stages: Vec<KonataStage>,
    pub stage_offsets: Vec<u32>,
    pub strings: Vec<String>,
    pub stage_names: Vec<u32>,
    pub thread_names: Vec<u32>,
    pub lane_names: Vec<u32>,
    pub dependency_names: Vec<u32>,
    pub dependencies: Vec<KonataDependency>,
    pub quality: KonataQualityCounters,
    pub visibility: VisibilityIndex,
    pub flushed_count: usize,
    pub all_values: Vec<(u64, u64)>,
    pub visible_values: Vec<(u64, u64)>,
    pub all_ranges: BlockRangeIndex,
    pub visible_ranges: BlockRangeIndex,
    pub tx_to_row: Vec<(u64, u32)>,
    pub event_to_row: Vec<(u64, u32)>,
    pub sid_to_row: Vec<(u64, u32)>,
    pub rid_to_row: Vec<(u64, u32)>,
    pub thread_rid_to_row: Vec<(u128, u32)>,
    pub time_to_row: Vec<(u64, u32)>,
    pub producer_offsets: Vec<u32>,
    pub producer_edges: Vec<u32>,
    pub consumer_offsets: Vec<u32>,
    pub consumer_edges: Vec<u32>,
    pub stage_annotations: Vec<KonataAnnotation>,
    pub row_annotations: Vec<KonataAnnotation>,
    pub row_annotation_offsets: Vec<u32>,
}

impl KonataModel {
    /// Number of rows.
    pub open spec fn row_count_spec(&self) -> int {
        self.rows.begin.len() as int
    }

    pub closed spec fn wf(&self) -> bool {
        let n = self.row_count_spec();
        &&& self.rows.wf()
        &&& n < visibility::max_rows()
        &&& n <= u32::MAX
        &&& stage_ranges_ok(self.stage_offsets@, n, self.stages.len() as int)
        &&& self.visibility.wf()
        &&& self.visibility@ == self.rows.flushed@.map_values(|s: FlushState| visibility::shown(s))
        &&& self.flushed_count == n - self.visibility.visible_spec()
        &&& self.all_values@ == row_ranges(self.rows)
        &&& self.all_ranges.wf()
        &&& self.all_ranges.values() == self.all_values@
        &&& visible_ranges_of(self.rows, self.visibility@, self.visible_values@)
        &&& self.visible_ranges.wf()
        &&& self.visible_ranges.values() == self.visible_values@
        &&& index::indexes_rows(self.tx_to_row@, self.rows.tx_id@, false)
        &&& index::indexes_rows(self.sid_to_row@, self.rows.sid@, true)
        &&& index::indexes_rows(self.rid_to_row@, self.rows.rid@, true)
        &&& index::indexes_rows(self.time_to_row@, self.rows.begin@, false)
        &&& thread_index::indexes_thread_rids(self.thread_rid_to_row@, self.rows.tid@, self.rows.rid@)
        &&& indexes_events(self.event_to_row@, self.stages@, self.stage_offsets@, n)
        &&& self.dependencies.len() <= u32::MAX
        &&& self.thread_names.len() <= u32::MAX
        &&& forall|e: int|
            0 <= e < self.dependencies.len() ==> (#[trigger] self.dependencies@[e]).producer_row < n
                && self.dependencies@[e].consumer_row < n
        &&& sorted_by_max_row(self.dependencies@)
        &&& csr::csr_of(self.producer_offsets@, self.producer_edges@, self.dependencies@, true, n)
        &&& csr::csr_of(self.consumer_offsets@, self.consumer_edges@, self.dependencies@, false, n)
        &&& annotation_index_ok(self.row_annotation_offsets@, n, self.row_annotations@.len() as int)
        &&& forall|k: int|
            0 <= k < self.stages@.len() ==> (#[trigger] self.stages@[k]).annotation_start <= self.stages@[k].annotation_end
                <= self.stage_annotations@.len()
    }

    /// The well-formedness conditions, established one by one, give `wf`.
    pub(crate) proof fn lemma_wf_intro(m: &KonataModel)
        requires
            m.rows.wf(),
            (m.rows.begin.len() as int) < visibility::max_rows(),
            (m.rows.begin.len() as int) <= u32::MAX,
            stage_ranges_ok(m.stage_offsets@, m.rows.begin.len() as int, m.stages.len() as int),
            m.visibility.wf(),
            m.visibility@ == m.rows.flushed@.map_values(|s: FlushState| visibility::shown(s)),
            m.flushed_count == m.rows.begin.len() - m.visibility.visible_spec(),
            m.all_values@ == row_ranges(m.rows),
            m.all_ranges.wf(),
            m.all_ranges.values() == m.all_values@,
            visible_ranges_of(m.rows, m.visibility@, m.visible_values@),
            m.visible_ranges.wf(),
            m.visible_ranges.values() == m.visible_values@,
            index::indexes_rows(m.tx_to_row@, m.rows.tx_id@, false),
            index::indexes_rows(m.sid_to_row@, m.rows.sid@, true),
            index::indexes_rows(m.rid_to_row@, m.rows.rid@, true),
            index::indexes_rows(m.time_to_row@, m.rows.begin@, false),
            thread_index::indexes_thread_rids(m.thread_rid_to_row@, m.rows.tid@, m.rows.rid@),
            indexes_events(m.event_to_row@, m.stages@, m.stage_offsets@, m.rows.begin.len() as int),
            m.dependencies.len() <= u32::MAX,
            m.thread_names.len() <= u32::MAX,
            forall|e: int|
                0 <= e < m.dependencies.len() ==> (#[trigger] m.dependencies@[e]).producer_row < m.rows.begin.len()
                    && m.dependencies@[e].consumer_row < m.rows.begin.len(),
            sorted_by_max_row(m.dependencies@),
            csr::csr_of(m.producer_offsets@, m.producer_edges@, m.dependencies@, true, m.rows.begin.len() as int),
            csr::csr_of(m.consumer_offsets@, m.consumer_edges@, m.dependencies@, false, m.rows.begin.len() as int),
            annotation_index_ok(m.row_annotation_offsets@, m.rows.begin.len() as int, m.row_annotations@.len() as int),
            forall|k: int|
                0 <= k < m.stages@.len() ==> (#[trigger] m.stages@[k]).annotation_start <= m.stages@[k].annotation_end
                    <= m.stage_annotations@.len(),
        ensures
            m.wf(),
    {
    }

    /// The columns have one entry per row, and row numbers fit `u32`.
    pub proof fn lemma_rows_wf(&self)
        requires
            self.wf(),
        ensures
            self.rows.wf(),
            self.row_count_spec() <= u32::MAX,
            crate::konata::model::stage_ranges_ok(self.stage_offsets@, self.row_count_spec(), self.stages.len() as int),
    {
    }

    /// The visibility index holds, for every row, whether its flush state shows it.
    pub proof fn lemma_visibility(&self)
        requires
            self.wf(),
        ensures
            self.rows.wf(),
            self.visibility.wf(),
            self.visibility@ == self.rows.flushed@.map_values(|s: FlushState| visibility::shown(s)),
    {
    }

    /// Every edge joins two existing rows.
    pub proof fn lemma_edges_in_range(&self)
        requires
            self.wf(),
        ensures
            forall|e: int|
                0 <= e < self.dependencies.len() ==> (#[trigger] self.dependencies@[e]).producer_row < self.row_count_spec()
                    && self.dependencies@[e].consumer_row < self.row_count_spec(),
    {
    }

    /// Thread ids fit `u32`.
    pub proof fn lemma_thread_names_fit(&self)
        requires
            self.wf(),
        ensures
            self.thread_names.len() <= u32::MAX,
    {
    }

    /// Number of rows.
    pub fn row_count(&self) -> (count: usize)
        ensures
            count == self.row_count_spec(),
    {
        self.rows.len()
    }

    /// The stages of `row` (empty for a row past the end).
    pub fn stages_for_row(&self, row: usize) -> (stages: &[KonataStage])
        requires
            self.wf(),
        ensures
            row < self.row_count_spec() ==> stages@ == self.stages@.subrange(
                self.stage_offsets@[row as int] as int,
                self.stage_offsets@[row + 1] as int,
            ),
            row >= self.row_count_spec() ==> stages@.len() == 0,
    {
        if row < self.rows.len() {
            let start = self.stage_offsets[row] as usize;
            let end = self.stage_offsets[row + 1] as usize;
            &self.stages.as_slice()[start..end]
        } else {
            &self.stages.as_slice()[0..0]
        }
    }

    /// The annotations that a stage of the model owns (none for a range outside the
    /// model's stage annotations).
    pub fn annotations_for_stage(&self, stage: &KonataStage) -> (annotations: &[KonataAnnotation])
        requires
            self.wf(),
        ensures
            stage.annotation_start <= stage.annotation_end <= self.stage_annotations@.len() ==> annotations@
                == self.stage_annotations@.subrange(stage.annotation_start as int, stage.annotation_end as int),
            !(stage.annotation_start <= stage.annotation_end <= self.stage_annotations@.len()) ==> annotations@.len() == 0,
    {
        let start = stage.annotation_start as usize;
        let end = stage.annotation_end as usize;
        if start <= end && end <= self.stage_annotations.len() {
            &self.stage_annotations.as_slice()[start..end]
        } else {
            &self.stage_annotations.as_slice()[0..0]
        }
    }

    /// The annotations of `row`, none past the last row.
    pub fn annotations_for_row(&self, row: usize) -> (annotations: Option<&[KonataAnnotation]>)
        requires
            self.wf(),
        ensures
            row < self.row_count_spec() ==> (annotations matches Some(a) && a@ == self.row_annotations@.subrange(
                self.row_annotation_offsets@[row as int] as int,
                self.row_annotation_offsets@[row + 1] as int,
            )),
            row >= self.row_count_spec() ==> annotations is None,
    {
        if row < self.rows.len() {
            let start = self.row_annotation_offsets[row] as usize;
            let end = self.row_annotation_offsets[row + 1] as usize;
            proof {
                assert(self.row_annotation_offsets@[row as int] <= self.row_annotation_offsets@[row + 1]);
                assert(self.row_annotation_offsets@[row + 1] <= self.row_annotation_offsets@[self.row_count_spec()]);
            }
            Some(&self.row_annotations.as_slice()[start..end])
        } else {
            None
        }
    }

    /// String `id` of the string table, or the empty string.
    pub fn string(&self, id: u32) -> (text: &str)
        ensures
            (id as int) < self.strings.len() ==> text@ == self.strings@[id as int]@,
            (id as int) >= self.strings.len() ==> text@.len() == 0,
    {
        if (id as usize) < self.strings.len() {
            self.strings[id as usize].as_str()
        } else {
            proof {
                reveal_strlit("");
            }
            ""
        }
    }

    /// The row of transaction `tx_id`; with repeated ids some row carrying it.
    pub fn row_for_transaction(&self, tx_id: u64) -> (row: Option<usize>)
        requires
            self.wf(),
        ensures
            row is None <==> forall|r: int| 0 <= r < self.row_count_spec() ==> self.rows.tx_id@[r] != tx_id,
            row matches Some(r) ==> r < self.row_count_spec() && self.rows.tx_id@[r as int] == tx_id,
    {
        proof {
            index::lemma_sorted_pairs_keys(self.tx_to_row@);
        }
        let found = sorted_id_lookup(self.tx_to_row.as_slice(), tx_id);
        proof {
            let idx = self.tx_to_row@;
            if found is None {
                assert forall|r: int| 0 <= r < self.row_count_spec() implies self.rows.tx_id@[r] != tx_id by {
                    if self.rows.tx_id@[r] == tx_id {
                        assert(idx.contains((self.rows.tx_id@[r], r as u32)));
                        let i = choose|i: int| 0 <= i < idx.len() && idx[i] == (self.rows.tx_id@[r], r as u32);
                        assert(idx[i].0 == tx_id);
                    }
                }
            } else {
                let v = found->0;
                let i = choose|i: int| 0 <= i < idx.len() && idx[i] == (tx_id, v);
                assert(idx[i] == (tx_id, v));
            }
        }
        match found {
            Some(r) => Some(r as usize),
            None => None,
        }
    }

    /// The row owning the stage of event transaction `event_tx`.
    pub fn row_for_event(&self, event_tx: u64) -> (row: Option<usize>)
        requires
            self.wf(),
        ensures
            row is None <==> forall|r: int, k: int|
                #![trigger stage_owner(self.stage_offsets@, k, r)]
                0 <= r < self.row_count_spec() && stage_owner(self.stage_offsets@, k, r)
                    ==> self.stages@[k].event_tx != event_tx,
            row matches Some(r) ==> r < self.row_count_spec() && exists|k: int|
                #[trigger] stage_owner(self.stage_offsets@, k, r as int) && self.stages@[k].event_tx == event_tx,
    {
        proof {
            index::lemma_sorted_pairs_keys(self.event_to_row@);
        }
        let found = sorted_id_lookup(self.event_to_row.as_slice(), event_tx);
        proof {
            let idx = self.event_to_row@;
            if found is None {
                assert forall|r: int, k: int|
                    #![trigger stage_owner(self.stage_offsets@, k, r)]
                    0 <= r < self.row_count_spec() && stage_owner(self.stage_offsets@, k, r) implies self.stages@[k].event_tx
                    != event_tx by {
                    if self.stages@[k].event_tx == event_tx {
                        assert(idx.contains((self.stages@[k].event_tx, r as u32)));
                        let i = choose|i: int| 0 <= i < idx.len() && idx[i] == (self.stages@[k].event_tx, r as u32);
                        assert(idx[i].0 == event_tx);
                    }
                }
            } else {
                let v = found->0;
                let i = choose|i: int| 0 <= i < idx.len() && idx[i] == (event_tx, v);
                assert(idx[i] == (event_tx, v));
            }
        }
        match found {
            Some(r) => Some(r as usize),
            None => None,
        }
    }

    /// The row with simulator id `sid`, when exactly one row has it.
    pub fn row_for_sid(&self, sid: u64) -> (row: Option<usize>)
        requires
            self.wf(),
        ensures
            row is Some <==> unique_row(self.rows.sid@, sid),
            row matches Some(r) ==> r < self.row_count_spec() && self.rows.sid@[r as int] == sid,
    {
        let found = lookup_unique_row(&self.sid_to_row, &self.rows.sid, sid);
        found
    }

    /// The row with retire id `rid`, when exactly one row has it.
    pub fn row_for_rid(&self, rid: u64) -> (row: Option<usize>)
        requires
            self.wf(),
        ensures
            row is Some <==> unique_row(self.rows.rid@, rid),
            row matches Some(r) ==> r < self.row_count_spec() && self.rows.rid@[r as int] == rid,
    {
        lookup_unique_row(&self.rid_to_row, &self.rows.rid, rid)
    }

    /// The row with retire id `rid` on thread `tid` (`None` for rows without a thread),
    /// when exactly one row has that pair.
    pub fn row_for_thread_id_rid(&self, tid: Option<u32>, rid: u64) -> (row: Option<usize>)
        requires
            self.wf(),
        ensures
            row is Some <==> unique_thread_row(
                self.rows.tid@,
                self.rows.rid@,
                match tid {
                    Some(t) => t,
                    None => MISSING_U32,
                },
                rid,
            ),
            row matches Some(r) ==> r < self.row_count_spec() && self.rows.rid@[r as int] == rid
                && self.rows.tid@[r as int] == match tid {
                    Some(t) => t,
                    None => MISSING_U32,
                },
    {
        let t = match tid {
            Some(t) => t,
            None => MISSING_U32,
        };
        let key = pack_thread_rid(t, rid);
        let ghost idx = self.thread_rid_to_row@;
        let ghost tids = self.rows.tid@;
        let ghost rids = self.rows.rid@;
        proof {
            thread_index::lemma_wide_sorted_pairs_keys(idx);
        }
        let found = wide_unique_lookup(self.thread_rid_to_row.as_slice(), key);
        proof {
            if thread_index::wide_has_unique_key(idx, key) {
                lemma_unique_thread_forward(idx, tids, rids, t, rid);
            }
            if unique_thread_row(tids, rids, t, rid) {
                lemma_unique_thread_backward(idx, tids, rids, t, rid);
            }
            if let Some(r) = found {
                lemma_unique_thread_entry(idx, tids, rids, t, rid, r as int);
            }
        }
        found
    }

    /// The row whose begin tick is nearest to `tick` (the earlier one on a tie).
    pub fn nearest_row_for_tick(&self, tick: u64) -> (row: Option<usize>)
        requires
            self.wf(),
        ensures
            row is None <==> self.row_count_spec() == 0,
            row matches Some(r) ==> r < self.row_count_spec() && forall|q: int|
                0 <= q < self.row_count_spec() ==> index::tick_distance(self.rows.begin@[r as int], tick)
                    <= index::tick_distance(#[trigger] self.rows.begin@[q], tick),
            row matches Some(r) ==> forall|q: int|
                0 <= q < self.row_count_spec() && (#[trigger] self.rows.begin@[q]) < tick && index::tick_distance(
                    self.rows.begin@[q],
                    tick,
                ) == index::tick_distance(self.rows.begin@[r as int], tick) ==> self.rows.begin@[r as int] < tick,
    {
        let ghost idx = self.time_to_row@;
        proof {
            index::lemma_sorted_pairs_keys(idx);
        }
        let found = nearest_row_for_tick(self.time_to_row.as_slice(), tick);
        proof {
            let begins = self.rows.begin@;
            if self.row_count_spec() > 0 {
                assert(idx.contains((begins[0], 0u32)));
            }
            if idx.len() > 0 {
                assert(idx[0].1 < self.row_count_spec());
            }
            if let Some(r) = found {
                let i = choose|i: int|
                    0 <= i < idx.len() && (#[trigger] idx[i]).1 == r && (forall|j: int|
                        0 <= j < idx.len() ==> index::tick_distance(idx[i].0, tick) <= index::tick_distance(
                            #[trigger] idx[j].0,
                            tick,
                        )) && (forall|j: int|
                        0 <= j < idx.len() && (#[trigger] idx[j]).0 < tick && index::tick_distance(idx[j].0, tick)
                            <= index::tick_distance(idx[i].0, tick) ==> idx[i].0 < tick);
                assert(idx[i].1 == r);
                assert(begins[r as int] == idx[i].0);
                assert forall|q: int|
                    0 <= q < self.row_count_spec() && (#[trigger] begins[q]) < tick && index::tick_distance(begins[q], tick)
                        == index::tick_distance(begins[r as int], tick) implies begins[r as int] < tick by {
                    assert(idx.contains((begins[q], q as u32)));
                    let j = choose|j: int| 0 <= j < idx.len() && idx[j] == (begins[q], q as u32);
                    assert(idx[j].0 == begins[q]);
                }
                assert forall|q: int| 0 <= q < self.row_count_spec() implies index::tick_distance(
                    begins[r as int],
                    tick,
                ) <= index::tick_distance(#[trigger] begins[q], tick) by {
                    assert(idx.contains((begins[q], q as u32)));
                    let j = choose|j: int| 0 <= j < idx.len() && idx[j] == (begins[q], q as u32);
                    assert(idx[j].0 == begins[q]);
                }
            }
        }
        found
    }

    /// Begin/end envelope, flushed-row count and row count of the logical rows
    /// `start .. end` (clamped to the logical row count); logical rows are the visible rows
    /// when `hide_flushed`, all rows otherwise.
    pub fn range_extent(&self, start: usize, end: usize, hide_flushed: bool) -> (extent: Option<(u64, u64, usize, usize)>)
        requires
            self.wf(),
        ensures
            ({
                let logical = if hide_flushed { self.visibility.visible_spec() as int } else { self.row_count_spec() };
                let s = if (start as int) < logical { start as int } else { logical };
                let e = if (end as int) < logical { end as int } else { logical };
                let values = if hide_flushed { self.visible_values_spec() } else { row_ranges(self.rows) };
                match extent {
                    None => range_index::range_query_result(values, s, e) is None,
                    Some((min_begin, max_end, flushed, count)) => {
                        &&& range_index::range_query_result(values, s, e) == Some((min_begin, max_end))
                        &&& count == e - s
                        &&& flushed == if hide_flushed {
                            0
                        } else {
                            (e - s) - (bits::count_true(self.visibility@, e) - bits::count_true(self.visibility@, s))
                        }
                    },
                }
            }),
    {
        let logical_count = if hide_flushed { self.visibility.visible_count() } else { self.rows.len() };
        let start = if start < logical_count { start } else { logical_count };
        let end = if end < logical_count { end } else { logical_count };
        let found = if hide_flushed {
            self.visible_ranges.query(self.visible_values.as_slice(), start, end)
        } else {
            self.all_ranges.query(self.all_values.as_slice(), start, end)
        };
        match found {
            None => None,
            Some((min_begin, max_end)) => {
                let count = end - start;
                let flushed = if hide_flushed {
                    0
                } else {
                    let to = self.visibility.rank(end);
                    let from = self.visibility.rank(start);
                    proof {
                        bits::lemma_count_true_monotone(self.visibility@, start as int, end as int);
                        lemma_count_true_span(self.visibility@, start as int, end as int);
                    }
                    count - (to - from)
                };
                Some((min_begin, max_end, flushed, count))
            },
        }
    }

    /// The edges of `row` as producer (or as consumer), in edge order: every edge filed
    /// under `row`, and no other.
    fn edges_of(&self, row: usize, by_producer: bool) -> (edges: Vec<KonataDependency>)
        requires
            self.wf(),
        ensures
            forall|i: int|
                0 <= i < edges@.len() ==> csr::edge_row(#[trigger] edges@[i], by_producer) == row
                    && self.dependencies@.contains(edges@[i]),
            forall|e: int|
                0 <= e < self.dependencies.len() && csr::edge_row(#[trigger] self.dependencies@[e], by_producer)
                    == row ==> edges@.contains(self.dependencies@[e]),
            row < self.row_count_spec() ==> edges@.len() == csr::count_row(
                self.dependencies@,
                by_producer,
                row as int,
                self.dependencies.len() as int,
            ),
            row >= self.row_count_spec() ==> edges@.len() == 0,
    {
        if by_producer {
            collect_edges(&self.dependencies, &self.producer_offsets, &self.producer_edges, self.rows.len(), row, true)
        } else {
            collect_edges(&self.dependencies, &self.consumer_offsets, &self.consumer_edges, self.rows.len(), row, false)
        }
    }

    /// The edges leaving `row` (where `row` is the producer), in edge order.
    pub fn outgoing_dependencies(&self, row: usize) -> (edges: Vec<KonataDependency>)
        requires
            self.wf(),
        ensures
            forall|i: int|
                0 <= i < edges@.len() ==> (#[trigger] edges@[i]).producer_row == row
                    && self.dependencies@.contains(edges@[i]),
            forall|e: int|
                0 <= e < self.dependencies.len() && (#[trigger] self.dependencies@[e]).producer_row == row
                    ==> edges@.contains(self.dependencies@[e]),
            edges@.len() == csr::count_row(self.dependencies@, true, row as int, self.dependencies.len() as int),
    {
        let edges = self.edges_of(row, true);
        proof {
            if row >= self.row_count_spec() {
                lemma_count_row_absent(self.dependencies@, true, row as int, self.dependencies.len() as int);
            }
            assert forall|i: int| 0 <= i < edges@.len() implies (#[trigger] edges@[i]).producer_row == row by {
                assert(csr::edge_row(edges@[i], true) == row);
            }
        }
        edges
    }

    /// The edges entering `row` (where `row` is the consumer), in edge order.
    pub fn incoming_dependencies(&self, row: usize) -> (edges: Vec<KonataDependency>)
        requires
            self.wf(),
        ensures
            forall|i: int|
                0 <= i < edges@.len() ==> (#[trigger] edges@[i]).consumer_row == row
                    && self.dependencies@.contains(edges@[i]),
            forall|e: int|
                0 <= e < self.dependencies.len() && (#[trigger] self.dependencies@[e]).consumer_row == row
                    ==> edges@.contains(self.dependencies@[e]),
            edges@.len() == csr::count_row(self.dependencies@, false, row as int, self.dependencies.len() as int),
    {
        let edges = self.edges_of(row, false);
        proof {
            if row >= self.row_count_spec() {
                lemma_count_row_absent(self.dependencies@, false, row as int, self.dependencies.len() as int);
            }
            assert forall|i: int| 0 <= i < edges@.len() implies (#[trigger] edges@[i]).consumer_row == row by {
                assert(csr::edge_row(edges@[i], false) == row);
            }
        }
        edges
    }

    /// Every row that `row` depends on, directly or through other rows, together with
    /// `row` itself: the smallest producer-closed set containing `row`. Empty for a row past
    /// the end.
    pub fn producer_chain(&self, row: usize) -> (chain: KonataRowSet)
        requires
            self.wf(),
        ensures
            self.is_producer_chain(row, chain),
    {
        self.chain_until_cancelled(row, None).unwrap()
    }

    /// The producer chain of `row`, or `None` when `cancel` was found set. The flag is read
    /// before the first row is added and again after every 1024 added rows.
    pub fn producer_chain_cancellable(&self, row: usize, cancel: &AtomicBool) -> (chain: Option<KonataRowSet>)
        requires
            self.wf(),
        ensures
            row >= self.row_count_spec() ==> chain is Some,
            chain matches Some(c) ==> self.is_producer_chain(row, c),
    {
        self.chain_until_cancelled(row, Some(cancel))
    }

    /// `chain` is the producer chain of `row`: the smallest producer-closed set of rows
    /// containing `row`, and empty for a row past the end.
    pub open spec fn is_producer_chain(&self, row: usize, chain: KonataRowSet) -> bool {
        &&& chain.wf()
        &&& chain@.len() >= self.row_count_spec()
        &&& forall|i: int| self.row_count_spec() <= i < chain@.len() ==> !chain@[i]
        &&& row >= self.row_count_spec() ==> forall|i: int| 0 <= i < chain@.len() ==> !chain@[i]
        &&& row < self.row_count_spec() ==> chain@[row as int]
        &&& row < self.row_count_spec() ==> seq_producer_closed(self.dependencies@, chain@)
        &&& forall|s: Set<int>|
            s.contains(row as int) && set_producer_closed(self.dependencies@, s) ==> forall|i: int|
                0 <= i < chain@.len() && #[trigger] chain@[i] ==> s.contains(i)
    }

    /// The producer chain of `row`, by a walk from `row` over incoming edges; `None` when
    /// `cancel` is given and found set.
    fn chain_until_cancelled(&self, row: usize, cancel: Option<&AtomicBool>) -> (chain: Option<KonataRowSet>)
        requires
            self.wf(),
        ensures
            cancel is None || row >= self.row_count_spec() ==> chain is Some,
            chain matches Some(c) ==> self.is_producer_chain(row, c),
    {
        let n = self.rows.len();
        let mut result = KonataRowSet::empty(n);
        if row >= n {
            return Some(result);
        }
        let ghost deps = self.dependencies@;
        let ghost cap = result@.len() as int;
        let mut pending: Vec<usize> = Vec::new();
        pending.push(row);
        assert(pending@[0] == row);
        while pending.len() > 0
            invariant
                self.wf(),
                n == self.row_count_spec(),
                deps == self.dependencies@,
                row < n,
                result.wf(),
                result@.len() == cap,
                cap >= n,
                forall|i: int| 0 <= i < pending@.len() ==> (#[trigger] pending@[i]) < n,
                forall|i: int| n <= i < cap ==> !result@[i],
                forall|s: Set<int>|
                    s.contains(row as int) && set_producer_closed(deps, s) ==> (forall|x: int|
                        0 <= x < cap && #[trigger] result@[x] ==> s.contains(x)) && (forall|i: int|
                        0 <= i < pending@.len() ==> s.contains(#[trigger] pending@[i] as int)),
                result@[row as int] || pending@.contains(row),
                forall|e: int|
                    0 <= e < deps.len() && result@[(#[trigger] deps[e]).consumer_row as int]
                        ==> result@[deps[e].producer_row as int] || pending@.contains(deps[e].producer_row as usize),
            decreases cap - result.count_spec(), pending.len(),
        {
            if result.count() % 1024 == 0 {
                if let Some(flag) = cancel {
                    if cancel_requested(flag) {
                        return None;
                    }
                }
            }
            let ghost prev = pending@;
            let consumer = pending.pop().unwrap();
            let ghost popped = pending@;
            let ghost before = result@;
            assert(prev =~= old_pending(popped, consumer));
            if result.contains(consumer) {
                proof {
                    assert(result@[row as int] || pending@.contains(row)) by {
                        if row != consumer && !before[row as int] {
                            let j = choose|j: int| 0 <= j < prev.len() && prev[j] == row;
                            assert(j < popped.len());
                            assert(pending@[j] == row);
                        }
                    }
                    assert forall|e: int|
                        0 <= e < deps.len() && result@[(#[trigger] deps[e]).consumer_row as int]
                            implies result@[deps[e].producer_row as int] || pending@.contains(deps[e].producer_row as usize) by {
                        let p = deps[e].producer_row as usize;
                        if p != consumer && !result@[p as int] {
                            let j = choose|j: int| 0 <= j < prev.len() && prev[j] == p;
                            assert(j < popped.len());
                            assert(pending@[j] == p);
                        }
                    }
                }
                continue;
            }
            proof {
                bits::lemma_count_true_bounds(before, cap);
            }
            result.insert(consumer);
            proof {
                bits::lemma_count_true_set(before, consumer as int, cap);
                bits::lemma_count_true_bounds(result@, cap);
            }
            let incoming = collect_edges(&self.dependencies, &self.consumer_offsets, &self.consumer_edges, n, consumer, false);
            let mut k: usize = 0;
            while k < incoming.len()
                invariant
                    k <= incoming.len(),
                    n == self.row_count_spec(),
                    deps == self.dependencies@,
                    self.wf(),
                    pending@ == popped + Seq::new(k as nat, |i: int| incoming@[i].producer_row as usize),
                    forall|i: int| 0 <= i < incoming@.len() ==> deps.contains(#[trigger] incoming@[i]),
                decreases incoming.len() - k,
            {
                proof {
                    let d = incoming@[k as int];
                    assert(deps.contains(d));
                    let e = choose|e: int| 0 <= e < deps.len() && deps[e] == d;
                    assert(d.producer_row < n);
                }
                pending.push(incoming[k].producer_row as usize);
                proof {
                    assert(pending@ =~= popped + Seq::new((k + 1) as nat, |i: int| incoming@[i].producer_row as usize));
                }
                k = k + 1;
            }
            proof {
                let pushed = Seq::new(incoming@.len(), |i: int| incoming@[i].producer_row as usize);
                assert(pending@ == popped + pushed);
                assert forall|i: int| 0 <= i < pending@.len() implies (#[trigger] pending@[i]) < n by {
                    if i >= popped.len() {
                        let d = incoming@[i - popped.len()];
                        assert(deps.contains(d));
                        let e = choose|e: int| 0 <= e < deps.len() && deps[e] == d;
                    } else {
                        assert(pending@[i] == popped[i]);
                    }
                }
                assert forall|s: Set<int>|
                    s.contains(row as int) && set_producer_closed(deps, s) implies (forall|x: int|
                        0 <= x < cap && #[trigger] result@[x] ==> s.contains(x)) && (forall|i: int|
                        0 <= i < pending@.len() ==> s.contains(#[trigger] pending@[i] as int)) by {
                    assert(s.contains(consumer as int)) by {
                        assert(prev[popped.len() as int] == consumer);
                    }
                    assert forall|i: int| 0 <= i < pending@.len() implies s.contains(#[trigger] pending@[i] as int) by {
                        if i >= popped.len() {
                            let d = incoming@[i - popped.len()];
                            assert(deps.contains(d));
                            let e = choose|e: int| 0 <= e < deps.len() && deps[e] == d;
                            assert(d.consumer_row == consumer);
                            assert(s.contains(deps[e].consumer_row as int));
                        } else {
                            assert(pending@[i] == popped[i]);
                            assert(prev[i] == popped[i]);
                        }
                    }
                }
                assert(result@[row as int] || pending@.contains(row)) by {
                    if row != consumer && !before[row as int] {
                        let j = choose|j: int| 0 <= j < prev.len() && prev[j] == row;
                        assert(j < popped.len());
                        assert(pending@[j] == row);
                    }
                }
                assert forall|e: int|
                    0 <= e < deps.len() && result@[(#[trigger] deps[e]).consumer_row as int]
                        implies result@[deps[e].producer_row as int] || pending@.contains(deps[e].producer_row as usize) by {
                    let p = deps[e].producer_row as usize;
                    if deps[e].consumer_row as usize == consumer {
                        assert(incoming@.contains(deps[e]));
                        let j = choose|j: int| 0 <= j < incoming@.len() && incoming@[j] == deps[e];
                        assert(pending@[popped.len() + j] == p);
                    } else if !result@[p as int] {
                        assert(before[deps[e].consumer_row as int]);
                        assert(prev.contains(p));
                        let j = choose|j: int| 0 <= j < prev.len() && prev[j] == p;
                        assert(j < popped.len());
                        assert(pending@[j] == p);
                    }
                }
            }
        }
        proof {
            assert forall|e: int| 0 <= e < deps.len() && result@[(#[trigger] deps[e]).consumer_row as int]
                implies result@[deps[e].producer_row as int] by {
                assert(!pending@.contains(deps[e].producer_row as usize));
            }
        }
        Some(result)
    }

    /// The visible rows' (begin, end) pairs.
    pub closed spec fn visible_values_spec(&self) -> Seq<(u64, u64)> {
        self.visible_values@
    }

    /// The visible ranges are the (begin, end) pairs of the visible rows in row order: a
    /// row is visible when it was not flushed, and the visible row with `k` visible rows
    /// before it gives entry `k`.
    pub proof fn lemma_visible_values(&self)
        requires
            self.wf(),
        ensures
            self.visibility@ == self.rows.flushed@.map_values(|s: FlushState| visibility::shown(s)),
            visible_ranges_of(self.rows, self.visibility@, self.visible_values_spec()),
            self.visible_values_spec().len() == self.visibility.visible_spec(),
    {
    }

    /// The edges whose larger row lies in `start .. end` (row numbers taken as `u32`).
    pub fn dependencies_in_row_window(&self, start: usize, end: usize) -> (window: &[KonataDependency])
        requires
            self.wf(),
        ensures
            forall|d: KonataDependency| window@.contains(d) ==> self.dependencies@.contains(d),
            forall|i: int| 0 <= i < window@.len() ==> (start as u32) <= edge_max_row(#[trigger] window@[i]) && edge_max_row(window@[i]) < (end as u32),
            forall|i: int|
                0 <= i < self.dependencies.len() && (start as u32) <= edge_max_row(#[trigger] self.dependencies@[i])
                    < (end as u32) ==> window@.contains(self.dependencies@[i]),
    {
        let start = start as u32;
        let end = end as u32;
        let first = max_row_partition(&self.dependencies, start);
        let last = max_row_partition(&self.dependencies, end);
        let ghost deps = self.dependencies@;
        if first <= last {
            let window = &self.dependencies.as_slice()[first..last];
            proof {
                assert(window@ == deps.subrange(first as int, last as int));
                assert forall|d: KonataDependency| window@.contains(d) implies deps.contains(d) by {
                    let i = choose|i: int| 0 <= i < window@.len() && window@[i] == d;
                    assert(deps[first + i] == d);
                }
                assert forall|i: int|
                    0 <= i < deps.len() && start <= edge_max_row(#[trigger] deps[i]) < end implies window@.contains(
                    deps[i],
                ) by {
                    assert(window@[i - first] == deps[i]);
                }
            }
            window
        } else {
            proof {
                assert forall|i: int|
                    0 <= i < deps.len() && start <= edge_max_row(#[trigger] deps[i]) < end implies false by {
                }
            }
            &self.dependencies.as_slice()[0..0]
        }
    }
}


/// Whether cancellation was requested through `flag`.
fn cancel_requested(flag: &AtomicBool) -> bool {
    flag.load(std::sync::atomic::Ordering::Relaxed)
}

/// Exactly one row carries `key` in the column, and the key is not the missing marker.
pub open spec fn unique_row(col: Seq<u64>, key: u64) -> bool {
    key != crate::konata::columns::MISSING_U64 && exists|r: int|
        0 <= r < col.len() && col[r] == key && forall|q: int| 0 <= q < col.len() && #[trigger] col[q] == key ==> q == r
}

/// Exactly one row with a retire id carries the (thread, retire id) pair.
pub open spec fn unique_thread_row(tids: Seq<u32>, rids: Seq<u64>, tid: u32, rid: u64) -> bool {
    rid != crate::konata::columns::MISSING_U64 && exists|r: int|
        0 <= r < rids.len() && rids[r] == rid && tids[r] == tid && forall|q: int|
            0 <= q < rids.len() && #[trigger] rids[q] == rid && tids[q] == tid ==> q == r
}

proof fn lemma_unique_row_forward(idx: Seq<(u64, u32)>, c: Seq<u64>, key: u64)
    requires
        index::indexes_rows(idx, c, true),
        c.len() <= u32::MAX,
        index::has_unique_key(idx, key),
    ensures
        unique_row(c, key),
{
    let i = choose|i: int|
        0 <= i < idx.len() && (#[trigger] idx[i]).0 == key && forall|j: int|
            0 <= j < idx.len() && (#[trigger] idx[j]).0 == key ==> j == i;
    let r = idx[i].1 as int;
    assert(c[r] == key);
    assert forall|q: int| 0 <= q < c.len() && #[trigger] c[q] == key implies q == r by {
        assert(idx.contains((c[q], q as u32)));
        let j = choose|j: int| 0 <= j < idx.len() && idx[j] == (c[q], q as u32);
        assert(idx[j].0 == key);
        assert(j == i);
    }
}

proof fn lemma_unique_row_backward(idx: Seq<(u64, u32)>, c: Seq<u64>, key: u64)
    requires
        index::indexes_rows(idx, c, true),
        c.len() <= u32::MAX,
        unique_row(c, key),
    ensures
        index::has_unique_key(idx, key),
{
    let r = choose|r: int|
        0 <= r < c.len() && c[r] == key && forall|q: int| 0 <= q < c.len() && #[trigger] c[q] == key ==> q == r;
    assert(idx.contains((c[r], r as u32)));
    let i = choose|i: int| 0 <= i < idx.len() && idx[i] == (c[r], r as u32);
    assert forall|j: int| 0 <= j < idx.len() && (#[trigger] idx[j]).0 == key implies j == i by {
        let q = idx[j].1 as int;
        assert(c[q] == key);
        assert(idx[j] == idx[i]);
    }
    assert(idx[i].0 == key);
}

proof fn lemma_unique_entry_row(idx: Seq<(u64, u32)>, c: Seq<u64>, key: u64, r: int)
    requires
        index::indexes_rows(idx, c, true),
        index::unique_entry(idx, key, r),
        0 <= r <= u32::MAX,
        c.len() <= u32::MAX,
    ensures
        r < c.len(),
        c[r] == key,
{
    let i = choose|i: int|
        0 <= i < idx.len() && #[trigger] idx[i] == (key, r as u32) && forall|j: int|
            0 <= j < idx.len() && (#[trigger] idx[j]).0 == key ==> j == i;
    assert(idx[i] == (key, r as u32));
}

/// Looks `key` up in a sorted index of a column, answering only unique keys.
fn lookup_unique_row(index: &Vec<(u64, u32)>, col: &Vec<u64>, key: u64) -> (row: Option<usize>)
    requires
        index::indexes_rows(index@, col@, true),
        col.len() <= u32::MAX,
    ensures
        row is Some <==> unique_row(col@, key),
        row matches Some(r) ==> r < col.len() && col@[r as int] == key,
{
    proof {
        index::lemma_sorted_pairs_keys(index@);
    }
    let found = unique_index_lookup(index.as_slice(), key);
    proof {
        if index::has_unique_key(index@, key) {
            lemma_unique_row_forward(index@, col@, key);
        }
        if unique_row(col@, key) {
            lemma_unique_row_backward(index@, col@, key);
        }
        if let Some(r) = found {
            lemma_unique_entry_row(index@, col@, key, r as int);
        }
    }
    found
}

proof fn lemma_unique_thread_forward(idx: Seq<(u128, u32)>, tids: Seq<u32>, rids: Seq<u64>, t: u32, rid: u64)
    requires
        thread_index::indexes_thread_rids(idx, tids, rids),
        tids.len() == rids.len(),
        rids.len() <= u32::MAX,
        thread_index::wide_has_unique_key(idx, thread_index::thread_rid_key(t, rid)),
    ensures
        unique_thread_row(tids, rids, t, rid),
{
    let key = thread_index::thread_rid_key(t, rid);
    let i = choose|i: int|
        0 <= i < idx.len() && (#[trigger] idx[i]).0 == key && forall|j: int|
            0 <= j < idx.len() && (#[trigger] idx[j]).0 == key ==> j == i;
    let r = idx[i].1 as int;
    thread_index::lemma_thread_rid_key_injective(tids[r], rids[r], t, rid);
    assert forall|q: int| 0 <= q < rids.len() && #[trigger] rids[q] == rid && tids[q] == t implies q == r by {
        assert(idx.contains((thread_index::thread_rid_key(tids[q], rids[q]), q as u32)));
        let j = choose|j: int| 0 <= j < idx.len() && idx[j] == (thread_index::thread_rid_key(tids[q], rids[q]), q as u32);
        assert(idx[j].0 == key);
        assert(j == i);
    }
}

proof fn lemma_unique_thread_backward(idx: Seq<(u128, u32)>, tids: Seq<u32>, rids: Seq<u64>, t: u32, rid: u64)
    requires
        thread_index::indexes_thread_rids(idx, tids, rids),
        tids.len() == rids.len(),
        rids.len() <= u32::MAX,
        unique_thread_row(tids, rids, t, rid),
    ensures
        thread_index::wide_has_unique_key(idx, thread_index::thread_rid_key(t, rid)),
{
    let key = thread_index::thread_rid_key(t, rid);
    let r = choose|r: int|
        0 <= r < rids.len() && rids[r] == rid && tids[r] == t && forall|q: int|
            0 <= q < rids.len() && #[trigger] rids[q] == rid && tids[q] == t ==> q == r;
    assert(idx.contains((thread_index::thread_rid_key(tids[r], rids[r]), r as u32)));
    let i = choose|i: int| 0 <= i < idx.len() && idx[i] == (thread_index::thread_rid_key(tids[r], rids[r]), r as u32);
    assert forall|j: int| 0 <= j < idx.len() && (#[trigger] idx[j]).0 == key implies j == i by {
        let q = idx[j].1 as int;
        thread_index::lemma_thread_rid_key_injective(tids[q], rids[q], t, rid);
        assert(idx[j] == idx[i]);
    }
    assert(idx[i].0 == key);
}

proof fn lemma_unique_thread_entry(idx: Seq<(u128, u32)>, tids: Seq<u32>, rids: Seq<u64>, t: u32, rid: u64, r: int)
    requires
        thread_index::indexes_thread_rids(idx, tids, rids),
        tids.len() == rids.len(),
        rids.len() <= u32::MAX,
        0 <= r <= u32::MAX,
        thread_index::wide_unique_entry(idx, thread_index::thread_rid_key(t, rid), r),
    ensures
        r < rids.len(),
        rids[r] == rid,
        tids[r] == t,
{
    let key = thread_index::thread_rid_key(t, rid);
    let i = choose|i: int|
        0 <= i < idx.len() && #[trigger] idx[i] == (key, r as u32) && forall|j: int|
            0 <= j < idx.len() && (#[trigger] idx[j]).0 == key ==> j == i;
    assert(idx[i] == (key, r as u32));
    thread_index::lemma_thread_rid_key_injective(tids[r], rids[r], t, rid);
}

/// The edges filed under `row` in per-row edge lists.
fn collect_edges(
    dependencies: &Vec<KonataDependency>,
    offsets: &Vec<u32>,
    edge_list: &Vec<u32>,
    n: usize,
    row: usize,
    by_producer: bool,
) -> (edges: Vec<KonataDependency>)
    requires
        csr::csr_of(offsets@, edge_list@, dependencies@, by_producer, n as int),
        forall|e: int| 0 <= e < dependencies.len() ==> csr::edge_row(#[trigger] dependencies@[e], by_producer) < n,
    ensures
        forall|i: int|
            0 <= i < edges@.len() ==> csr::edge_row(#[trigger] edges@[i], by_producer) == row
                && dependencies@.contains(edges@[i]),
        forall|e: int|
            0 <= e < dependencies.len() && csr::edge_row(#[trigger] dependencies@[e], by_producer)
                == row ==> edges@.contains(dependencies@[e]),
        row < n ==> edges@.len() == csr::count_row(
            dependencies@,
            by_producer,
            row as int,
            dependencies.len() as int,
        ),
        row >= n ==> edges@.len() == 0,
{
    let ghost deps = dependencies@;
    proof {
        csr::lemma_csr_offsets(offsets@, edge_list@, deps, by_producer, n as int);
    }
    let slice = dependency_slice(offsets, edge_list, row);
    proof {
        lemma_slice_edges(offsets@, edge_list@, deps, by_producer, n as int, row as int, slice@);
    }
    let mut edges: Vec<KonataDependency> = Vec::new();
    let mut i: usize = 0;
    while i < slice.len()
        invariant
            i <= slice.len(),
            deps == dependencies@,
            forall|j: int| 0 <= j < slice@.len() ==> (#[trigger] slice@[j] as int) < deps.len()
                && csr::edge_row(deps[slice@[j] as int], by_producer) == row,
            edges@.len() == i,
            forall|j: int| 0 <= j < i ==> #[trigger] edges@[j] == deps[slice@[j] as int],
            forall|j: int|
                0 <= j < edges@.len() ==> csr::edge_row(#[trigger] edges@[j], by_producer) == row
                    && deps.contains(edges@[j]),
        decreases slice.len() - i,
    {
        let e = slice[i] as usize;
        edges.push(dependencies[e]);
        proof {
            assert(deps[e as int] == edges@[i as int]);
        }
        i = i + 1;
    }
    proof {
        lemma_slice_complete(offsets@, edge_list@, deps, by_producer, n as int, row as int, slice@, edges@);
    }
    edges
}

proof fn lemma_slice_edges(
    offsets: Seq<u32>,
    edge_list: Seq<u32>,
    deps: Seq<KonataDependency>,
    by_producer: bool,
    n: int,
    row: int,
    slice: Seq<u32>,
)
    requires
        csr::csr_of(offsets, edge_list, deps, by_producer, n),
        0 <= row,
        row < n ==> slice == edge_list.subrange(offsets[row] as int, offsets[row + 1] as int),
        row >= n ==> slice.len() == 0,
    ensures
        forall|j: int| 0 <= j < slice.len() ==> (#[trigger] slice[j] as int) < deps.len()
            && csr::edge_row(deps[slice[j] as int], by_producer) == row,
{
    csr::lemma_csr_offsets(offsets, edge_list, deps, by_producer, n);
    assert forall|j: int| 0 <= j < slice.len() implies (#[trigger] slice[j] as int) < deps.len()
        && csr::edge_row(deps[slice[j] as int], by_producer) == row by {
        let p = offsets[row] + j;
        assert(slice[j] == edge_list[p]);
        csr::lemma_csr_entry(offsets, edge_list, deps, by_producer, n, row, p);
    }
}

proof fn lemma_slice_complete(
    offsets: Seq<u32>,
    edge_list: Seq<u32>,
    deps: Seq<KonataDependency>,
    by_producer: bool,
    n: int,
    row: int,
    slice: Seq<u32>,
    edges: Seq<KonataDependency>,
)
    requires
        csr::csr_of(offsets, edge_list, deps, by_producer, n),
        0 <= row < n ==> slice == edge_list.subrange(offsets[row] as int, offsets[row + 1] as int),
        row >= n ==> slice.len() == 0,
        edges.len() == slice.len(),
        forall|j: int| 0 <= j < slice.len() ==> #[trigger] edges[j] == deps[slice[j] as int],
        row >= 0,
        forall|e: int| 0 <= e < deps.len() ==> csr::edge_row(#[trigger] deps[e], by_producer) < n,
    ensures
        forall|e: int|
            0 <= e < deps.len() && csr::edge_row(#[trigger] deps[e], by_producer) == row ==> edges.contains(deps[e]),
{
    csr::lemma_csr_offsets(offsets, edge_list, deps, by_producer, n);
    assert forall|e: int|
        0 <= e < deps.len() && csr::edge_row(#[trigger] deps[e], by_producer) == row implies edges.contains(
        deps[e],
    ) by {
        csr::lemma_csr_complete(offsets, edge_list, deps, by_producer, n, e);
        let p = choose|p: int| offsets[row] <= p < offsets[row + 1] && #[trigger] edge_list[p] == e;
        let j = p - offsets[row];
        assert(slice[j] == edge_list[p]);
        assert(edges[j] == deps[e]);
    }
}

/// Every edge whose consumer is in `s` has its producer in `s`.
pub open spec fn set_producer_closed(deps: Seq<KonataDependency>, s: Set<int>) -> bool {
    forall|e: int|
        0 <= e < deps.len() && s.contains((#[trigger] deps[e]).consumer_row as int) ==> s.contains(
            deps[e].producer_row as int,
        )
}

/// Every edge whose consumer is marked has its producer marked.
pub open spec fn seq_producer_closed(deps: Seq<KonataDependency>, m: Seq<bool>) -> bool {
    forall|e: int|
        0 <= e < deps.len() && (#[trigger] deps[e]).consumer_row < m.len() && m[deps[e].consumer_row as int]
            ==> deps[e].producer_row < m.len() && m[deps[e].producer_row as int]
}

/// The work stack before its top was popped.
pub open spec fn old_pending(popped: Seq<usize>, top: usize) -> Seq<usize> {
    popped.push(top)
}

/// No edge is filed under a row that no edge names.
proof fn lemma_count_row_absent(deps: Seq<KonataDependency>, by_producer: bool, row: int, n: int)
    requires
        0 <= n <= deps.len(),
        forall|e: int| 0 <= e < deps.len() ==> csr::edge_row(#[trigger] deps[e], by_producer) != row,
    ensures
        csr::count_row(deps, by_producer, row, n) == 0,
    decreases n,
{
    if n > 0 {
        lemma_count_row_absent(deps, by_producer, row, n - 1);
    }
}

/// Number of visible rows in `a .. b` is at most `b - a`.
proof fn lemma_count_true_span(s: Seq<bool>, a: int, b: int)
    requires
        0 <= a <= b,
    ensures
        bits::count_true(s, b) - bits::count_true(s, a) <= b - a,
    decreases b - a,
{
    if a < b {
        lemma_count_true_span(s, a, b - 1);
    }
}

/// First position whose edge's larger row is at least `bound`, in edges ordered by larger row.
fn max_row_partition(deps: &Vec<KonataDependency>, bound: u32) -> (pos: usize)
    requires
        sorted_by_max_row(deps@),
    ensures
        pos <= deps.len(),
        forall|i: int| 0 <= i < pos ==> edge_max_row(#[trigger] deps@[i]) < bound,
        forall|i: int| pos <= i < deps.len() ==> edge_max_row(#[trigger] deps@[i]) >= bound,
{
    let mut lo: usize = 0;
    let mut hi: usize = deps.len();
    while lo < hi
        invariant
            0 <= lo <= hi <= deps.len(),
            sorted_by_max_row(deps@),
            forall|i: int| 0 <= i < lo ==> edge_max_row(#[trigger] deps@[i]) < bound,
            forall|i: int| hi <= i < deps.len() ==> edge_max_row(#[trigger] deps@[i]) >= bound,
        decreases hi - lo,
    {
        let mid = lo + (hi - lo) / 2;
        let d = &deps[mid];
        let m = if d.producer_row >= d.consumer_row { d.producer_row } else { d.consumer_row };
        if m < bound {
            proof {
                assert forall|i: int| 0 <= i <= mid implies edge_max_row(#[trigger] deps@[i]) < bound by {
                    assert(edge_max_row(deps@[i]) <= edge_max_row(deps@[mid as int]));
                }
            }
            lo = mid + 1;
        } else {
            proof {
                assert forall|i: int| mid <= i < deps.len() implies edge_max_row(#[trigger] deps@[i]) >= bound by {
                    assert(edge_max_row(deps@[mid as int]) <= edge_max_row(deps@[i]));
                }
            }
            hi = mid;
        }
    }
    lo
}

} // verus!
