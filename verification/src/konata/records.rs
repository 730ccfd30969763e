//! Normalization of instruction and stage transactions into instruction rows and pending
//! stage events.
use vstd::prelude::*;
use std::collections::HashMap;
use crate::konata::annotations::{
    events_total, lemma_annotation_counts, push_row_annotations, push_stage_annotations, row_annotations_of,
    stage_annotations_of, KonataAnnotation,
};
use crate::konata::columns::{InstructionColumns, MISSING_U32, MISSING_U64};
use crate::konata::construct::name_slot;
use crate::konata::flags::{FlushState, KonataQualityCounters, RowFlags};
use crate::konata::projection::PendingStage;
use crate::konata::texts::{interned, StringInterner};
use crate::konata::trace::{
    find_attribute, find_event_name, format_value, intern_value, typed_key, unsigned_value, AttrValue, KeyInterner, TxRecord,
    TypedKey,
};

verus! {

/// The instruction id of a row: the unsigned value of `insn_id_in_sim`, else missing.
pub open spec fn sid_of(attrs: Seq<crate::konata::trace::TxAttribute>) -> u64 {
    match crate::konata::trace::attribute_value(attrs, "insn_id_in_sim"@) {
        Some(v) => match crate::konata::trace::unsigned_of(v) {
            Some(u) => u,
            None => MISSING_U64,
        },
        None => MISSING_U64,
    }
}

/// The flush state of a row: the boolean `flushed` attribute, else unknown.
pub open spec fn flush_of(attrs: Seq<crate::konata::trace::TxAttribute>) -> FlushState {
    match crate::konata::trace::attribute_value(attrs, "flushed"@) {
        Some(AttrValue::Boolean(b)) => if b {
            FlushState::True
        } else {
            FlushState::False
        },
        _ => FlushState::Unknown,
    }
}

/// The retire id of a row that was not flushed: the unsigned value of `retire_id`, else
/// missing.
pub open spec fn rid_of(attrs: Seq<crate::konata::trace::TxAttribute>) -> u64 {
    if flush_of(attrs) == FlushState::True {
        MISSING_U64
    } else {
        match crate::konata::trace::attribute_value(attrs, "retire_id"@) {
            Some(v) => match crate::konata::trace::unsigned_of(v) {
                Some(u) => u,
                None => MISSING_U64,
            },
            None => MISSING_U64,
        }
    }
}

/// The begin tick runs backwards against the previous row.
pub open spec fn regresses(previous: Option<u64>, begin: u64) -> bool {
    previous matches Some(p) && begin < p
}

/// A row that was not flushed but has no retire id.
pub open spec fn misses_rid(attrs: Seq<crate::konata::trace::TxAttribute>) -> bool {
    rid_of(attrs) == MISSING_U64 && flush_of(attrs) != FlushState::True
}

/// The flags of a new row.
pub open spec fn row_flag_bits(previous: Option<u64>, tx: TxRecord) -> u16 {
    (if regresses(previous, tx.start) { RowFlags::BEGIN_REGRESSION } else { 0u16 }) | (if misses_rid(tx.attributes@) {
        RowFlags::MISSING_RID
    } else {
        0u16
    })
}

/// The key of the `thread_id` attribute, if it makes one.
pub open spec fn thread_key_of(attrs: Seq<crate::konata::trace::TxAttribute>) -> Option<(u8, int, Seq<char>)> {
    match crate::konata::trace::attribute_value(attrs, "thread_id"@) {
        Some(v) => crate::konata::trace::key_of(v),
        None => None,
    }
}

/// The string table after interning the display text of an optional value.
pub open spec fn interned_value(table: Seq<Seq<char>>, v: Option<AttrValue>) -> Seq<Seq<char>> {
    match v {
        Some(value) => interned(table, crate::konata::trace::value_text(value)),
        None => table,
    }
}

/// A string-valued column entry: missing without a value, else the id of the value's text.
pub open spec fn text_entry(id: u32, table: Seq<Seq<char>>, v: Option<AttrValue>) -> bool {
    match v {
        Some(value) => (id as int) < table.len() && table[id as int] == crate::konata::trace::value_text(value),
        None => id == MISSING_U32,
    }
}

/// The text that names a stage that has no name attribute.
pub open spec fn unnamed_stage_text() -> Seq<char> {
    "<unnamed stage>"@
}

/// The text of a lane whose value makes no key.
pub open spec fn unknown_lane_text(v: AttrValue) -> Seq<char> {
    "<unknown lane "@ + crate::konata::trace::value_text(v) + ">"@
}

/// The normalized instruction rows and pending stage events of one trace, with the
/// string table and the name tables that they refer to.
pub struct KonataRecordProjector {
    pub parent_generator: u64,
    pub event_generator: u64,
    pub stream: u64,
    pub event_name_attribute: String,
    pub strings: StringInterner,
    pub thread_keys: KeyInterner,
    pub rows: InstructionColumns,
    pub quality: KonataQualityCounters,
    pub previous_begin: Option<u64>,
    pub pending_stages: Vec<PendingStage>,
    pub stage_name_ids: HashMap<u32, u16>,
    pub stage_names: Vec<u32>,
    pub lane_keys: KeyInterner,
    pub default_lane: u16,
    pub instruction_annotations: Vec<KonataAnnotation>,
    pub instruction_annotation_offsets: Vec<u32>,
    pub pending_annotations: Vec<KonataAnnotation>,
}

impl KonataRecordProjector {
    /// The tables agree with each other.
    pub open spec fn wf(&self) -> bool {
        &&& self.strings.wf()
        &&& self.thread_keys.wf()
        &&& self.lane_keys.wf()
        &&& self.thread_keys.names_in(self.strings@)
        &&& self.lane_keys.names_in(self.strings@)
        &&& self.rows.wf()
        &&& self.stage_names@.no_duplicates()
        &&& forall|x: u32| #[trigger] self.stage_name_ids@.contains_key(x) <==> self.stage_names@.contains(x)
        &&& forall|x: u32| #[trigger] self.stage_name_ids@.contains_key(x) ==> self.stage_name_ids@[x] == name_slot(self.stage_names@, x)
        &&& (self.default_lane as int) < self.lane_keys@.len()
        &&& self.lane_keys@[self.default_lane as int] == (2u8, 0int, Seq::<char>::empty())
        &&& self.annotations_ok()
    }

    /// The annotation lists agree with the rows and pending stages: the instruction
    /// annotations are indexed by row, every pending stage owns a range of the pending
    /// annotations, and the ranges together are the whole list.
    pub open spec fn annotations_ok(&self) -> bool {
        &&& self.instruction_annotation_offsets@.len() == self.rows.begin@.len() + 1
        &&& self.instruction_annotation_offsets@[0] == 0
        &&& self.instruction_annotation_offsets@.last() == self.instruction_annotations@.len()
        &&& forall|i: int, j: int|
            0 <= i <= j < self.instruction_annotation_offsets@.len() ==> self.instruction_annotation_offsets@[i]
                <= self.instruction_annotation_offsets@[j]
        &&& forall|k: int|
            0 <= k < self.pending_stages@.len() ==> (#[trigger] self.pending_stages@[k]).annotation_start
                <= self.pending_stages@[k].annotation_end <= self.pending_annotations@.len()
        &&& events_total(self.pending_stages@) == self.pending_annotations@.len()
        &&& self.pending_annotations@.len() <= u32::MAX
    }

    /// The tables and counters grew by at most what `n` transactions add: three strings, one
    /// thread key, one lane key, one stage name and one regression and one missing retire id
    /// each; the other counters are unchanged.
    pub open spec fn grew_by_at_most(&self, before: Self, n: int) -> bool {
        &&& self.strings@.len() <= before.strings@.len() + 3 * n
        &&& self.thread_keys@.len() <= before.thread_keys@.len() + n
        &&& self.lane_keys@.len() <= before.lane_keys@.len() + n
        &&& self.stage_names@.len() <= before.stage_names@.len() + n
        &&& self.quality.begin_regressions <= before.quality.begin_regressions + n
        &&& self.quality.missing_rid <= before.quality.missing_rid + n
        &&& self.quality.orphans == before.quality.orphans
        &&& self.quality.multiple_parents == before.quality.multiple_parents
        &&& self.quality.unnamed_stages == before.quality.unnamed_stages
        &&& self.quality.out_of_range == before.quality.out_of_range
        &&& self.quality.end_before_start == before.quality.end_before_start
        &&& self.quality.unknown_lanes == before.quality.unknown_lanes
        &&& self.quality.duplicate_rid == before.quality.duplicate_rid
    }

    /// Room for `n` more transactions: string and key ids fit `u32`, counters fit `u64`.
    pub open spec fn has_room(&self, n: int) -> bool {
        &&& self.strings@.len() + 3 * n < u32::MAX
        &&& self.thread_keys@.len() + n < u32::MAX
        &&& self.lane_keys@.len() + n < u32::MAX
        &&& self.stage_names@.len() + n < u32::MAX
        &&& self.quality.begin_regressions + n <= u64::MAX
        &&& self.quality.missing_rid + n <= u64::MAX
    }

    /// An empty projector for the instruction and stage generators of `stream`; stage
    /// events are named by their `event_name_attribute` attribute. The default lane is
    /// the unsigned key 0.
    pub fn new(
        parent_generator: u64,
        event_generator: u64,
        stream: u64,
        capacity: usize,
        event_name_attribute: String,
    ) -> (projector: Self)
        ensures
            projector.wf(),
            projector.parent_generator == parent_generator,
            projector.event_generator == event_generator,
            projector.stream == stream,
            projector.event_name_attribute@ == event_name_attribute@,
            projector.rows.begin.len() == 0,
            projector.pending_stages.len() == 0,
            projector.quality.total_spec() == 0,
            projector.previous_begin is None,
            projector.strings@ == seq![crate::konata::trace::decimal(0)],
            projector.thread_keys@.len() == 0,
            projector.lane_keys@ == seq![(2u8, 0int, Seq::<char>::empty())],
            projector.stage_names@.len() == 0,
            projector.default_lane == 0,
            projector.instruction_annotations@.len() == 0,
            projector.instruction_annotation_offsets@ == seq![0u32],
            projector.pending_annotations@.len() == 0,
    {
        let mut strings = StringInterner::new();
        let mut lane_keys = KeyInterner::new();
        let thread_keys = KeyInterner::new();
        proof {
            crate::konata::trace::lemma_empty_names_in(lane_keys, strings@);
            crate::konata::trace::lemma_empty_names_in(thread_keys, strings@);
        }
        let default_lane = lane_keys.intern(TypedKey::Unsigned(0), &mut strings) as u16;
        proof {
            crate::konata::trace::lemma_empty_names_in(thread_keys, strings@);
            assert(strings@ =~= seq![crate::konata::trace::decimal(0)]);
            assert(lane_keys@ =~= seq![(2u8, 0int, Seq::<char>::empty())]);
        }
        let stage_names: Vec<u32> = Vec::new();
        let mut instruction_annotation_offsets: Vec<u32> = Vec::new();
        instruction_annotation_offsets.push(0);
        let projector = KonataRecordProjector {
            parent_generator,
            event_generator,
            stream,
            event_name_attribute,
            strings,
            thread_keys,
            rows: InstructionColumns::with_capacity(capacity),
            quality: KonataQualityCounters::zero(),
            previous_begin: None,
            pending_stages: Vec::new(),
            stage_name_ids: HashMap::new(),
            stage_names,
            lane_keys,
            default_lane,
            instruction_annotations: Vec::new(),
            instruction_annotation_offsets,
            pending_annotations: Vec::new(),
        };
        proof {
            broadcast use vstd::std_specs::hash::group_hash_axioms;

            assert(projector.stage_names@ =~= Seq::<u32>::empty());
            assert(projector.instruction_annotation_offsets@ =~= seq![0u32]);
        }
        projector
    }

    /// Number of instruction rows.
    pub fn row_count(&self) -> (n: usize)
        requires
            self.rows.wf(),
        ensures
            n == self.rows.begin.len(),
    {
        self.rows.len()
    }

    /// Number of pending stage events.
    pub fn event_count(&self) -> (n: usize)
        ensures
            n == self.pending_stages.len(),
    {
        self.pending_stages.len()
    }

    /// The value of the first attribute named `name`.
    fn attribute<'a>(tx: &'a TxRecord, name: &str) -> (value: Option<&'a AttrValue>)
        ensures
            value matches Some(v) ==> crate::konata::trace::attribute_value(tx.attributes@, name@) == Some(*v),
            value is None ==> crate::konata::trace::attribute_value(tx.attributes@, name@) is None,
    {
        match find_attribute(&tx.attributes, name) {
            Some(i) => Some(&tx.attributes[i].value),
            None => None,
        }
    }

    /// Appends an instruction row for `tx`: begin and end ticks, transaction id, the
    /// instruction, thread and retire ids, flush state, label and detail, with flags for a
    /// begin tick below the previous row's and for a missing retire id.
    #[verifier::rlimit(100)]
    #[verifier::spinoff_prover]
    pub fn push_parent(&mut self, tx: &TxRecord)
        requires
            old(self).wf(),
            old(self).has_room(1),
            old(self).instruction_annotations@.len() + tx.attributes@.len() <= u32::MAX,
        ensures
            final(self).instruction_annotations@ == old(self).instruction_annotations@ + row_annotations_of(tx.attributes@),
            final(self).instruction_annotation_offsets@ == old(self).instruction_annotation_offsets@.push(
                final(self).instruction_annotations@.len() as u32,
            ),
            final(self).pending_annotations@ == old(self).pending_annotations@,
            final(self).wf(),
            final(self).has_room(0),
            final(self).strings@.len() <= old(self).strings@.len() + 3,
            final(self).thread_keys@.len() <= old(self).thread_keys@.len() + 1,
            old(self).strings@.is_prefix_of(final(self).strings@),
            final(self).lane_keys@ == old(self).lane_keys@,
            final(self).stage_names@ == old(self).stage_names@,
            final(self).default_lane == old(self).default_lane,
            final(self).pending_stages@ == old(self).pending_stages@,
            final(self).parent_generator == old(self).parent_generator,
            final(self).event_generator == old(self).event_generator,
            final(self).stream == old(self).stream,
            final(self).event_name_attribute@ == old(self).event_name_attribute@,
            final(self).previous_begin == Some(tx.start),
            final(self).rows.begin@ == old(self).rows.begin@.push(tx.start),
            final(self).rows.end@ == old(self).rows.end@.push(tx.end),
            final(self).rows.tx_id@ == old(self).rows.tx_id@.push(tx.tx_id),
            final(self).rows.sid@ == old(self).rows.sid@.push(sid_of(tx.attributes@)),
            final(self).rows.rid@ == old(self).rows.rid@.push(rid_of(tx.attributes@)),
            final(self).rows.flushed@ == old(self).rows.flushed@.push(flush_of(tx.attributes@)),
            final(self).rows.flags@ == old(self).rows.flags@.push(RowFlags(row_flag_bits(old(self).previous_begin, *tx))),
            final(self).rows.tid@.drop_last() == old(self).rows.tid@,
            final(self).rows.tid@.len() == old(self).rows.tid@.len() + 1,
            match thread_key_of(tx.attributes@) {
                Some(k) => {
                    &&& final(self).thread_keys@ == crate::konata::trace::key_interned(old(self).thread_keys@, k)
                    &&& (final(self).rows.tid@.last() as int) < final(self).thread_keys@.len()
                    &&& final(self).thread_keys@[final(self).rows.tid@.last() as int] == k
                },
                None => final(self).rows.tid@.last() == MISSING_U32 && final(self).thread_keys@ == old(self).thread_keys@,
            },
            final(self).rows.label@.drop_last() == old(self).rows.label@,
            final(self).rows.label@.len() == old(self).rows.label@.len() + 1,
            text_entry(
                final(self).rows.label@.last(),
                final(self).strings@,
                crate::konata::trace::attribute_value(tx.attributes@, "label"@),
            ),
            final(self).rows.detail@.drop_last() == old(self).rows.detail@,
            final(self).rows.detail@.len() == old(self).rows.detail@.len() + 1,
            text_entry(
                final(self).rows.detail@.last(),
                final(self).strings@,
                crate::konata::trace::attribute_value(tx.attributes@, "detail"@),
            ),
            final(self).quality.begin_regressions == old(self).quality.begin_regressions + if regresses(
                old(self).previous_begin,
                tx.start,
            ) {
                1int
            } else {
                0int
            },
            final(self).quality.missing_rid == old(self).quality.missing_rid + if misses_rid(tx.attributes@) {
                1int
            } else {
                0int
            },
            final(self).quality.orphans == old(self).quality.orphans,
            final(self).quality.multiple_parents == old(self).quality.multiple_parents,
            final(self).quality.unnamed_stages == old(self).quality.unnamed_stages,
            final(self).quality.out_of_range == old(self).quality.out_of_range,
            final(self).quality.end_before_start == old(self).quality.end_before_start,
            final(self).quality.unknown_lanes == old(self).quality.unknown_lanes,
            final(self).quality.duplicate_rid == old(self).quality.duplicate_rid,
    {
        let begin = tx.start;
        let mut flags = RowFlags::none();
        let regress = match self.previous_begin {
            Some(previous) => begin < previous,
            None => false,
        };
        if regress {
            flags.insert(RowFlags::BEGIN_REGRESSION);
            self.quality.begin_regressions = self.quality.begin_regressions + 1;
        }
        self.previous_begin = Some(begin);
        let sid = match Self::attribute(tx, "insn_id_in_sim") {
            Some(v) => match unsigned_value(v) {
                Some(u) => u,
                None => MISSING_U64,
            },
            None => MISSING_U64,
        };
        let ghost strings0 = self.strings@;
        let tid = match Self::attribute(tx, "thread_id") {
            Some(v) => match typed_key(v) {
                Some(key) => self.thread_keys.intern(key, &mut self.strings),
                None => MISSING_U32,
            },
            None => MISSING_U32,
        };
        proof {
            assert(strings0.is_prefix_of(self.strings@));
            crate::konata::trace::lemma_names_in_grow(self.lane_keys, strings0, self.strings@);
        }
        let flushed = match Self::attribute(tx, "flushed") {
            Some(AttrValue::Boolean(b)) => if *b {
                FlushState::True
            } else {
                FlushState::False
            },
            _ => FlushState::Unknown,
        };
        let rid = if flushed != FlushState::True {
            match Self::attribute(tx, "retire_id") {
                Some(v) => match unsigned_value(v) {
                    Some(u) => u,
                    None => MISSING_U64,
                },
                None => MISSING_U64,
            }
        } else {
            MISSING_U64
        };
        if rid == MISSING_U64 && flushed != FlushState::True {
            flags.insert(RowFlags::MISSING_RID);
            self.quality.missing_rid = self.quality.missing_rid + 1;
        }
        let ghost strings1 = self.strings@;
        let label = match Self::attribute(tx, "label") {
            Some(v) => intern_value(&mut self.strings, v),
            None => MISSING_U32,
        };
        let ghost strings2 = self.strings@;
        let detail = match Self::attribute(tx, "detail") {
            Some(v) => intern_value(&mut self.strings, v),
            None => MISSING_U32,
        };
        proof {
            assert(strings1.is_prefix_of(strings2));
            assert(strings2.is_prefix_of(self.strings@));
            assert(strings0.is_prefix_of(self.strings@));
            crate::konata::trace::lemma_names_in_grow(self.lane_keys, strings1, self.strings@);
            crate::konata::trace::lemma_names_in_grow(self.thread_keys, strings1, self.strings@);
            if label != MISSING_U32 || crate::konata::trace::attribute_value(tx.attributes@, "label"@) is Some {
                assert(strings2[label as int] == self.strings@[label as int]);
            }
            let a: u16 = if regress { 1u16 } else { 0u16 };
            let b: u16 = if rid == MISSING_U64 && flushed != FlushState::True { 2u16 } else { 0u16 };
            assert((0u16 | a) | b == a | b) by (bit_vector);
            assert(0u16 | a == a) by (bit_vector);
            assert(a | 0u16 == a) by (bit_vector);
        }
        self.rows.begin.push(begin);
        self.rows.end.push(tx.end);
        self.rows.tx_id.push(tx.tx_id);
        self.rows.sid.push(sid);
        self.rows.rid.push(rid);
        self.rows.tid.push(tid);
        self.rows.flags.push(flags);
        self.rows.flushed.push(flushed);
        self.rows.label.push(label);
        self.rows.detail.push(detail);
        let ghost offsets0 = self.instruction_annotation_offsets@;
        push_row_annotations(&mut self.instruction_annotations, &tx.attributes);
        proof {
            lemma_annotation_counts(tx.attributes@, Seq::empty());
        }
        self.instruction_annotation_offsets.push(self.instruction_annotations.len() as u32);
        proof {
            assert forall|i: int, j: int|
                0 <= i <= j < self.instruction_annotation_offsets@.len() implies self.instruction_annotation_offsets@[i]
                <= self.instruction_annotation_offsets@[j] by {
                if j == offsets0.len() && i < j {
                    assert(offsets0[i] <= offsets0[offsets0.len() - 1]);
                }
            }
        }
    }

    /// Appends a pending stage for event `tx`: time span and transaction id, the stage name
    /// (the text of the event's name attribute, else the unnamed-stage text) as an id in the
    /// stage name table, and the lane: the default lane without a `lane` attribute, else the
    /// lane of its key, else (for a value that makes no key) a lane named after the value.
    pub fn push_event(&mut self, tx: &TxRecord)
        requires
            old(self).wf(),
            old(self).has_room(1),
            old(self).pending_annotations@.len() + tx.attributes@.len() <= u32::MAX,
        ensures
            final(self).pending_annotations@ == old(self).pending_annotations@ + stage_annotations_of(
                tx.attributes@,
                old(self).event_name_attribute@,
            ),
            final(self).pending_stages@.last().annotation_start == old(self).pending_annotations@.len(),
            final(self).pending_stages@.last().annotation_end == final(self).pending_annotations@.len(),
            final(self).instruction_annotations@ == old(self).instruction_annotations@,
            final(self).instruction_annotation_offsets@ == old(self).instruction_annotation_offsets@,
            final(self).wf(),
            final(self).has_room(0),
            final(self).strings@.len() <= old(self).strings@.len() + 2,
            final(self).lane_keys@.len() <= old(self).lane_keys@.len() + 1,
            final(self).stage_names@.len() <= old(self).stage_names@.len() + 1,
            old(self).strings@.is_prefix_of(final(self).strings@),
            final(self).thread_keys@ == old(self).thread_keys@,
            final(self).rows == old(self).rows,
            final(self).quality == old(self).quality,
            final(self).previous_begin == old(self).previous_begin,
            final(self).default_lane == old(self).default_lane,
            final(self).parent_generator == old(self).parent_generator,
            final(self).event_generator == old(self).event_generator,
            final(self).stream == old(self).stream,
            final(self).event_name_attribute@ == old(self).event_name_attribute@,
            final(self).pending_stages@.drop_last() == old(self).pending_stages@,
            final(self).pending_stages@.len() == old(self).pending_stages@.len() + 1,
            ({
                let st = final(self).pending_stages@.last();
                let pos = crate::konata::trace::event_name_position(tx.attributes@, old(self).event_name_attribute@);
                let text = match pos {
                    Some(i) => crate::konata::trace::value_text(tx.attributes@[i].value),
                    None => unnamed_stage_text(),
                };
                let id = final(self).strings@.index_of(text) as u32;
                &&& st.start == tx.start
                &&& st.end == tx.end
                &&& st.event_tx == tx.tx_id
                &&& st.unnamed == (pos is None)
                &&& final(self).strings@.contains(text)
                &&& final(self).stage_names@ == if old(self).stage_names@.contains(id) {
                    old(self).stage_names@
                } else {
                    old(self).stage_names@.push(id)
                }
                &&& st.name == name_slot(final(self).stage_names@, id)
                &&& match crate::konata::trace::attribute_value(tx.attributes@, "lane"@) {
                    None => st.lane == old(self).default_lane && !st.unknown_lane && final(self).lane_keys@ == old(self).lane_keys@,
                    Some(v) => {
                        let k = match crate::konata::trace::key_of(v) {
                            Some(k) => k,
                            None => (3u8, 0int, unknown_lane_text(v)),
                        };
                        &&& st.unknown_lane == (crate::konata::trace::key_of(v) is None)
                        &&& final(self).lane_keys@ == crate::konata::trace::key_interned(old(self).lane_keys@, k)
                        &&& st.lane == final(self).lane_keys@.index_of(k) as u16
                    },
                }
            }),
    {
        broadcast use vstd::std_specs::hash::group_hash_axioms;

        let ghost strings0 = self.strings@;
        let pos = find_event_name(&tx.attributes, self.event_name_attribute.as_str());
        let (name_string, unnamed) = match pos {
            Some(i) => (intern_value(&mut self.strings, &tx.attributes[i].value), false),
            None => {
                let text = String::from_str("<unnamed stage>");
                (self.strings.intern(text), true)
            },
        };
        let ghost strings1 = self.strings@;
        proof {
            self.strings.lemma_distinct();
            assert(strings0.is_prefix_of(strings1));
            crate::konata::trace::lemma_names_in_grow(self.lane_keys, strings0, strings1);
            crate::konata::trace::lemma_names_in_grow(self.thread_keys, strings0, strings1);
            let text = match pos {
                Some(i) => crate::konata::trace::value_text(tx.attributes@[i as int].value),
                None => unnamed_stage_text(),
            };
            assert(strings1[name_string as int] == text);
            assert(strings1.contains(text));
            let j = strings1.index_of(text);
            assert(0 <= j < strings1.len() && strings1[j] == text);
        }
        let ghost old_names = self.stage_names@;
        let name: u16 = match self.stage_name_ids.get(&name_string) {
            Some(slot) => *slot,
            None => {
                let next: u16 = if self.stage_names.len() < 0xFFFF { self.stage_names.len() as u16 } else { 0xFFFF };
                proof {
                    assert(!self.stage_names@.contains(name_string));
                }
                self.stage_names.push(name_string);
                self.stage_name_ids.insert(name_string, next);
                proof {
                    assert forall|x: u32| old_names.contains(x) implies name_slot(self.stage_names@, x) == name_slot(old_names, x) by {
                        crate::konata::construct::lemma_slot_push(old_names, x, name_string);
                    }
                    crate::konata::construct::lemma_slot_push(old_names, name_string, name_string);
                    assert forall|x: u32| #[trigger] self.stage_name_ids@.contains_key(x) <==> self.stage_names@.contains(x) by {
                        if x != name_string {
                            if self.stage_names@.contains(x) {
                                let q = choose|q: int| 0 <= q < self.stage_names@.len() && self.stage_names@[q] == x;
                                assert(old_names[q] == x);
                            }
                            if old_names.contains(x) {
                                let q = choose|q: int| 0 <= q < old_names.len() && old_names[q] == x;
                                assert(self.stage_names@[q] == x);
                            }
                        } else {
                            assert(self.stage_names@[old_names.len() as int] == x);
                        }
                    }
                    assert forall|x: u32| #[trigger] self.stage_name_ids@.contains_key(x) implies self.stage_name_ids@[x]
                        == name_slot(self.stage_names@, x) by {
                        if x != name_string {
                            assert(old_names.contains(x));
                        }
                    }
                }
                next
            },
        };
        let ghost lanes0 = self.lane_keys@;
        let (lane, unknown_lane) = match Self::attribute(tx, "lane") {
            None => (self.default_lane, false),
            Some(v) => match typed_key(v) {
                Some(key) => {
                    let id = self.lane_keys.intern(key, &mut self.strings);
                    proof {
                        let k = self.lane_keys@[id as int];
                        crate::konata::trace::lemma_key_index(self.lane_keys, id as int);
                    }
                    (id as u16, false)
                },
                None => {
                    let text = String::from_str("<unknown lane ").concat(format_value(v).as_str()).concat(">");
                    let id = self.lane_keys.intern(TypedKey::Text(text), &mut self.strings);
                    proof {
                        crate::konata::trace::lemma_key_index(self.lane_keys, id as int);
                    }
                    (id as u16, true)
                },
            },
        };
        proof {
            assert(strings1.is_prefix_of(self.strings@));
            crate::konata::trace::lemma_names_in_grow(self.thread_keys, strings1, self.strings@);
            self.strings.lemma_distinct();
            let text = match pos {
                Some(i) => crate::konata::trace::value_text(tx.attributes@[i as int].value),
                None => unnamed_stage_text(),
            };
            let j = strings1.index_of(text);
            assert(self.strings@[j] == strings1[j]);
            assert(self.strings@.contains(text));
            let j2 = self.strings@.index_of(text);
            assert(0 <= j2 < self.strings@.len() && self.strings@[j2] == text);
            assert(j2 == j);
            assert(name_string == j) by {
                assert(strings1[name_string as int] == text);
            }
            assert(lanes0.is_prefix_of(self.lane_keys@));
            assert(lanes0[self.default_lane as int] == self.lane_keys@[self.default_lane as int]);
        }
        let annotation_start = self.pending_annotations.len() as u32;
        push_stage_annotations(&mut self.pending_annotations, &tx.attributes, self.event_name_attribute.as_str());
        proof {
            lemma_annotation_counts(tx.attributes@, self.event_name_attribute@);
        }
        let annotation_end = self.pending_annotations.len() as u32;
        let ghost stages0 = self.pending_stages@;
        let stage = PendingStage {
            start: tx.start,
            end: tx.end,
            event_tx: tx.tx_id,
            name,
            lane,
            unnamed,
            unknown_lane,
            annotation_start,
            annotation_end,
        };
        self.pending_stages.push(stage);
        proof {
            assert(self.pending_stages@.drop_last() =~= stages0);
            assert(events_total(self.pending_stages@) == events_total(stages0) + (annotation_end - annotation_start));
        }
    }

    /// Appends the instruction transactions (those of the parent generator) as rows and
    /// the stage transactions (those of the event generator) as pending stages, in order;
    /// transactions of other generators are skipped.
    #[verifier::rlimit(100)]
    #[verifier::spinoff_prover]
    pub fn push(&mut self, transactions: &[TxRecord])
        requires
            old(self).wf(),
            old(self).has_room(transactions.len() as int),
            old(self).instruction_annotations@.len() + attribute_total(transactions@) <= u32::MAX,
            old(self).pending_annotations@.len() + attribute_total(transactions@) <= u32::MAX,
        ensures
            final(self).instruction_annotations@.len() <= old(self).instruction_annotations@.len() + attribute_total(
                transactions@,
            ),
            final(self).pending_annotations@.len() <= old(self).pending_annotations@.len() + attribute_total(
                transactions@,
            ),
            final(self).wf(),
            final(self).has_room(0),
            final(self).parent_generator == old(self).parent_generator,
            final(self).event_generator == old(self).event_generator,
            final(self).stream == old(self).stream,
            final(self).rows.tx_id@ == old(self).rows.tx_id@ + ids_from(transactions@, old(self).parent_generator, None),
            final(self).pending_stages@.map_values(|st: PendingStage| st.event_tx) == old(self).pending_stages@.map_values(
                |st: PendingStage| st.event_tx,
            ) + ids_from(transactions@, old(self).event_generator, Some(old(self).parent_generator)),
            final(self).grew_by_at_most(*old(self), transactions.len() as int),
            pushed(*old(self), transactions@, *final(self)),
    {
        proof {
            assert(old(self).rows.begin@.is_prefix_of(old(self).rows.begin@));
        }
        let mut i: usize = 0;
        while i < transactions.len()
            invariant
                i <= transactions.len(),
                self.wf(),
                self.has_room(transactions.len() - i),
                self.parent_generator == old(self).parent_generator,
                self.event_generator == old(self).event_generator,
                self.stream == old(self).stream,
                self.rows.tx_id@ == old(self).rows.tx_id@ + ids_from(
                    transactions@.take(i as int),
                    old(self).parent_generator,
                    None,
                ),
                self.pending_stages@.map_values(|st: PendingStage| st.event_tx) == old(self).pending_stages@.map_values(
                    |st: PendingStage| st.event_tx,
                ) + ids_from(transactions@.take(i as int), old(self).event_generator, Some(old(self).parent_generator)),
                self.grew_by_at_most(*old(self), i as int),
                self.event_name_attribute@ == old(self).event_name_attribute@,
                old(self).instruction_annotations@.len() + attribute_total(transactions@) <= u32::MAX,
                old(self).pending_annotations@.len() + attribute_total(transactions@) <= u32::MAX,
                self.instruction_annotations@.len() <= old(self).instruction_annotations@.len() + attribute_total(
                    transactions@.take(i as int),
                ),
                self.pending_annotations@.len() <= old(self).pending_annotations@.len() + attribute_total(
                    transactions@.take(i as int),
                ),
                extends(*self, *old(self)),
                rows_hold(
                    *self,
                    old(self).rows.begin@.len() as int,
                    txs_from(transactions@.take(i as int), old(self).parent_generator, None),
                    old(self).previous_begin,
                ),
                self.previous_begin == (if txs_from(transactions@.take(i as int), old(self).parent_generator, None).len() > 0 {
                    Some(txs_from(transactions@.take(i as int), old(self).parent_generator, None).last().start)
                } else {
                    old(self).previous_begin
                }),
                stages_hold(
                    *self,
                    old(self).pending_stages@.len() as int,
                    txs_from(transactions@.take(i as int), old(self).event_generator, Some(old(self).parent_generator)),
                    old(self).event_name_attribute@,
                ),
                self.quality.begin_regressions == old(self).quality.begin_regressions + regressions(
                    txs_from(transactions@.take(i as int), old(self).parent_generator, None),
                    old(self).previous_begin,
                ),
                self.quality.missing_rid == old(self).quality.missing_rid + missing_rids(
                    txs_from(transactions@.take(i as int), old(self).parent_generator, None),
                ),
            decreases transactions.len() - i,
        {
            let tx = &transactions[i];
            let ghost before_rows = self.rows.tx_id@;
            let ghost before_events = self.pending_stages@;
            proof {
                assert(transactions@.take(i + 1).drop_last() =~= transactions@.take(i as int));
                assert(transactions@.take(i + 1).last() == *tx);
            }
            let ghost cur = *self;
            let ghost n0 = old(self).rows.begin@.len() as int;
            let ghost m0 = old(self).pending_stages@.len() as int;
            let ghost first = old(self).previous_begin;
            let ghost p0 = txs_from(transactions@.take(i as int), old(self).parent_generator, None);
            let ghost p1 = txs_from(transactions@.take(i + 1), old(self).parent_generator, None);
            let ghost e0 = txs_from(transactions@.take(i as int), old(self).event_generator, Some(old(self).parent_generator));
            let ghost e1 = txs_from(transactions@.take(i + 1), old(self).event_generator, Some(old(self).parent_generator));
            proof {
                lemma_attribute_total_take(transactions@, i as int);
                lemma_annotation_counts(tx.attributes@, old(self).event_name_attribute@);
            }
            if tx.generator == self.parent_generator {
                self.push_parent(tx);
                proof {
                    assert(self.instruction_annotation_offsets@.drop_last() =~= cur.instruction_annotation_offsets@);
                    assert(self.instruction_annotations@.subrange(
                        self.instruction_annotation_offsets@[cur.rows.begin@.len() as int] as int,
                        self.instruction_annotation_offsets@[cur.rows.begin@.len() as int + 1] as int,
                    ) =~= row_annotations_of(tx.attributes@));
                    assert(self.pending_stages@.map_values(|st: PendingStage| st.event_tx) =~= before_events.map_values(
                        |st: PendingStage| st.event_tx,
                    ));
                    lemma_push_parent_extends(cur, *self, *tx);
                    lemma_extends_trans(*old(self), cur, *self);
                    assert(p1 =~= p0.push(*tx));
                    assert(p1.drop_last() =~= p0);
                    assert(begin_before(p1, p1.len() - 1, first) == cur.previous_begin);
                    assert(e1 == e0);
                    lemma_tables_distinct(*self);
                    lemma_rows_hold_push(cur, *self, n0, p0, first, *tx);
                    lemma_stages_hold_extends(cur, *self, m0, e0, old(self).event_name_attribute@);
                }
            } else if tx.generator == self.event_generator {
                self.push_event(tx);
                proof {
                    assert(self.pending_stages@ =~= before_events.push(self.pending_stages@.last()));
                    assert(self.pending_stages@.map_values(|st: PendingStage| st.event_tx) =~= before_events.map_values(
                        |st: PendingStage| st.event_tx,
                    ).push(tx.tx_id));
                    lemma_push_event_tables(cur, *self, *tx);
                    lemma_push_event_extends(cur, *self, *tx, old(self).event_name_attribute@);
                    lemma_extends_trans(*old(self), cur, *self);
                    assert(p1 == p0);
                    assert(e1 =~= e0.push(*tx));
                    lemma_tables_distinct(*self);
                    lemma_rows_hold_extends(cur, *self, n0, p0, first);
                    lemma_stages_hold_push(cur, *self, m0, e0, old(self).event_name_attribute@, *tx);
                }
            } else {
                proof {
                    assert(p1 == p0);
                    assert(e1 == e0);
                }
            }
            i = i + 1;
        }
        proof {
            assert(transactions@.take(transactions.len() as int) =~= transactions@);
        }
    }

    /// A relation projector for the rows and pending stages projected so far; the relation
    /// named `parent_relation` attaches stage events to their instruction rows.
    pub fn relation_projector(&self, parent_relation: String) -> (projector: crate::konata::relations::KonataRelationProjector)
        requires
            self.rows.wf(),
            self.rows.begin.len() <= u32::MAX,
            self.pending_stages.len() <= u32::MAX,
        ensures
            projector.wf(),
            projector.stream == self.stream,
            projector.parent_relation@ == parent_relation@,
            projector.row_count == self.rows.begin.len(),
            crate::konata::index::indexes_rows(projector.parent_rows@, self.rows.tx_id@, false),
            crate::konata::index::indexes_rows(
                projector.event_indices@,
                self.pending_stages@.map_values(|st: PendingStage| st.event_tx),
                false,
            ),
            projector.event_parents@.len() == self.pending_stages.len(),
            forall|e: int| 0 <= e < projector.event_parents@.len() ==> #[trigger] projector.event_parents@[e].count == 0,
            projector.dependencies@.len() == 0,
            projector.next_input_order == 0,
    {
        let mut event_ids: Vec<u64> = Vec::with_capacity(self.pending_stages.len());
        let mut i: usize = 0;
        while i < self.pending_stages.len()
            invariant
                i <= self.pending_stages.len(),
                event_ids@ == self.pending_stages@.take(i as int).map_values(|st: PendingStage| st.event_tx),
            decreases self.pending_stages.len() - i,
        {
            event_ids.push(self.pending_stages[i].event_tx);
            proof {
                assert(self.pending_stages@.take(i + 1).map_values(|st: PendingStage| st.event_tx) =~= self.pending_stages@.take(
                    i as int,
                ).map_values(|st: PendingStage| st.event_tx).push(self.pending_stages@[i as int].event_tx));
            }
            i = i + 1;
        }
        proof {
            assert(self.pending_stages@.take(self.pending_stages.len() as int) =~= self.pending_stages@);
        }
        crate::konata::relations::KonataRelationProjector::from_ids(&self.rows.tx_id, &event_ids, self.stream, parent_relation)
    }
}

/// The attributes of the transactions, counted.
pub open spec fn attribute_total(txs: Seq<TxRecord>) -> int
    decreases txs.len(),
{
    if txs.len() == 0 {
        0
    } else {
        attribute_total(txs.drop_last()) + txs.last().attributes@.len()
    }
}

/// Counting one more transaction of a list adds its attributes, and a prefix counts no
/// more than the list.
proof fn lemma_attribute_total_take(txs: Seq<TxRecord>, i: int)
    requires
        0 <= i < txs.len(),
    ensures
        attribute_total(txs.take(i + 1)) == attribute_total(txs.take(i)) + txs[i].attributes@.len(),
        0 <= attribute_total(txs.take(i)),
        attribute_total(txs.take(i + 1)) <= attribute_total(txs),
    decreases txs.len() - i,
{
    assert(txs.take(i + 1).drop_last() =~= txs.take(i));
    lemma_attribute_total_nonneg(txs.take(i));
    if i + 1 < txs.len() {
        lemma_attribute_total_take(txs, i + 1);
    } else {
        assert(txs.take(i + 1) =~= txs);
    }
}

pub proof fn lemma_attribute_total_nonneg(txs: Seq<TxRecord>)
    ensures
        0 <= attribute_total(txs),
    decreases txs.len(),
{
    if txs.len() > 0 {
        lemma_attribute_total_nonneg(txs.drop_last());
    }
}

/// The transactions of generator `generator`, except those of generator `skip`, in order.
pub open spec fn txs_from(txs: Seq<TxRecord>, generator: u64, skip: Option<u64>) -> Seq<TxRecord>
    decreases txs.len(),
{
    if txs.len() == 0 {
        Seq::empty()
    } else {
        let prev = txs_from(txs.drop_last(), generator, skip);
        let last = txs.last();
        if last.generator == generator && skip != Some(last.generator) {
            prev.push(last)
        } else {
            prev
        }
    }
}

/// The begin tick of the row before the `k`-th of `txs`: that of the `k - 1`-th, or
/// `first` for the first one.
pub open spec fn begin_before(txs: Seq<TxRecord>, k: int, first: Option<u64>) -> Option<u64> {
    if k == 0 {
        first
    } else {
        Some(txs[k - 1].start)
    }
}

/// Row `r` of the projector holds transaction `tx`, which followed a row that began at
/// `previous`: its ticks, ids, flush state and flags, its label and detail by their
/// texts, and its thread by its key.
pub open spec fn row_holds(p: KonataRecordProjector, r: int, tx: TxRecord, previous: Option<u64>) -> bool {
    &&& p.rows.begin@[r] == tx.start
    &&& p.rows.end@[r] == tx.end
    &&& p.rows.tx_id@[r] == tx.tx_id
    &&& p.rows.sid@[r] == sid_of(tx.attributes@)
    &&& p.rows.rid@[r] == rid_of(tx.attributes@)
    &&& p.rows.flushed@[r] == flush_of(tx.attributes@)
    &&& p.rows.flags@[r] == RowFlags(row_flag_bits(previous, tx))
    &&& text_entry(p.rows.label@[r], p.strings@, crate::konata::trace::attribute_value(tx.attributes@, "label"@))
    &&& text_entry(p.rows.detail@[r], p.strings@, crate::konata::trace::attribute_value(tx.attributes@, "detail"@))
    &&& match thread_key_of(tx.attributes@) {
        Some(k) => (p.rows.tid@[r] as int) < p.thread_keys@.len() && p.thread_keys@[p.rows.tid@[r] as int] == k,
        None => p.rows.tid@[r] == MISSING_U32,
    }
    &&& r + 1 < p.instruction_annotation_offsets@.len()
    &&& p.instruction_annotation_offsets@[r] <= p.instruction_annotation_offsets@[r + 1] <= p.instruction_annotations@.len()
    &&& p.instruction_annotations@.subrange(
        p.instruction_annotation_offsets@[r] as int,
        p.instruction_annotation_offsets@[r + 1] as int,
    ) == row_annotations_of(tx.attributes@)
}

/// A pending stage holds event `tx`: its ticks and transaction id, and whether it lacks
/// a name attribute.
pub open spec fn stage_holds(st: PendingStage, tx: TxRecord, name_attribute: Seq<char>) -> bool {
    &&& st.start == tx.start
    &&& st.end == tx.end
    &&& st.event_tx == tx.tx_id
    &&& st.unnamed == (crate::konata::trace::event_name_position(tx.attributes@, name_attribute) is None)
}

/// The text that names event `tx`: the value of its name attribute, else the
/// unnamed-stage text.
pub open spec fn stage_text(tx: TxRecord, name_attribute: Seq<char>) -> Seq<char> {
    match crate::konata::trace::event_name_position(tx.attributes@, name_attribute) {
        Some(i) => crate::konata::trace::value_text(tx.attributes@[i].value),
        None => unnamed_stage_text(),
    }
}

/// The lane key of event `tx`: the default lane without a `lane` attribute, else the key
/// of its value, else a key named after the value.
pub open spec fn lane_key(tx: TxRecord) -> (u8, int, Seq<char>) {
    match crate::konata::trace::attribute_value(tx.attributes@, "lane"@) {
        None => (2u8, 0int, Seq::<char>::empty()),
        Some(v) => match crate::konata::trace::key_of(v) {
            Some(k) => k,
            None => (3u8, 0int, unknown_lane_text(v)),
        },
    }
}

/// A pending stage of `p` names event `tx` through the tables of `p`: its name slot is
/// that of the id of its text in the stage name table, and its lane is the id of its lane
/// key.
pub open spec fn stage_named(p: KonataRecordProjector, st: PendingStage, tx: TxRecord, name_attribute: Seq<char>) -> bool {
    let text = stage_text(tx, name_attribute);
    let id = p.strings@.index_of(text) as u32;
    &&& p.strings@.contains(text)
    &&& p.stage_names@.contains(id)
    &&& st.name == name_slot(p.stage_names@, id)
    &&& p.lane_keys@.contains(lane_key(tx))
    &&& st.lane == p.lane_keys@.index_of(lane_key(tx)) as u16
    &&& st.unknown_lane == (match crate::konata::trace::attribute_value(tx.attributes@, "lane"@) {
        None => false,
        Some(v) => crate::konata::trace::key_of(v) is None,
    })
    &&& st.annotation_start <= st.annotation_end <= p.pending_annotations@.len()
    &&& p.pending_annotations@.subrange(st.annotation_start as int, st.annotation_end as int) == stage_annotations_of(
        tx.attributes@,
        name_attribute,
    )
}

/// How many of the rows `txs` begin below the row before them (`first` before the first).
pub open spec fn regressions(txs: Seq<TxRecord>, first: Option<u64>) -> nat
    decreases txs.len(),
{
    if txs.len() == 0 {
        0
    } else {
        regressions(txs.drop_last(), first) + if regresses(begin_before(txs, txs.len() - 1, first), txs.last().start) {
            1nat
        } else {
            0nat
        }
    }
}

/// How many of the rows `txs` were not flushed and have no retire id.
pub open spec fn missing_rids(txs: Seq<TxRecord>) -> nat
    decreases txs.len(),
{
    if txs.len() == 0 {
        0
    } else {
        missing_rids(txs.drop_last()) + if misses_rid(txs.last().attributes@) {
            1nat
        } else {
            0nat
        }
    }
}

/// The begin tick of the last of `txs`, or `first` when there is none.
pub open spec fn begin_after(txs: Seq<TxRecord>, first: Option<u64>) -> Option<u64> {
    if txs.len() > 0 {
        Some(txs.last().start)
    } else {
        first
    }
}

/// `p` is `q` after pushing `txs`: the instruction transactions appended as rows and the
/// stage events as pending stages (what they hold, in order), the regressions and missing
/// retire ids counted, and nothing else changed but appended table entries.
pub open spec fn pushed(q: KonataRecordProjector, txs: Seq<TxRecord>, p: KonataRecordProjector) -> bool {
    let parents = txs_from(txs, q.parent_generator, None);
    let events = txs_from(txs, q.event_generator, Some(q.parent_generator));
    &&& p.parent_generator == q.parent_generator
    &&& p.event_generator == q.event_generator
    &&& p.stream == q.stream
    &&& p.event_name_attribute@ == q.event_name_attribute@
    &&& extends(p, q)
    &&& rows_hold(p, q.rows.begin@.len() as int, parents, q.previous_begin)
    &&& p.previous_begin == begin_after(parents, q.previous_begin)
    &&& stages_hold(p, q.pending_stages@.len() as int, events, q.event_name_attribute@)
    &&& p.quality.begin_regressions == q.quality.begin_regressions + regressions(parents, q.previous_begin)
    &&& p.quality.missing_rid == q.quality.missing_rid + missing_rids(parents)
}

/// `p` only appended to the rows, pending stages, strings and thread keys of `q`.
pub open spec fn extends(p: KonataRecordProjector, q: KonataRecordProjector) -> bool {
    &&& q.rows.begin@.is_prefix_of(p.rows.begin@)
    &&& q.rows.end@.is_prefix_of(p.rows.end@)
    &&& q.rows.tx_id@.is_prefix_of(p.rows.tx_id@)
    &&& q.rows.sid@.is_prefix_of(p.rows.sid@)
    &&& q.rows.rid@.is_prefix_of(p.rows.rid@)
    &&& q.rows.tid@.is_prefix_of(p.rows.tid@)
    &&& q.rows.flags@.is_prefix_of(p.rows.flags@)
    &&& q.rows.flushed@.is_prefix_of(p.rows.flushed@)
    &&& q.rows.label@.is_prefix_of(p.rows.label@)
    &&& q.rows.detail@.is_prefix_of(p.rows.detail@)
    &&& q.pending_stages@.is_prefix_of(p.pending_stages@)
    &&& q.strings@.is_prefix_of(p.strings@)
    &&& q.thread_keys@.is_prefix_of(p.thread_keys@)
    &&& q.stage_names@.is_prefix_of(p.stage_names@)
    &&& q.lane_keys@.is_prefix_of(p.lane_keys@)
    &&& q.instruction_annotations@.is_prefix_of(p.instruction_annotations@)
    &&& q.instruction_annotation_offsets@.is_prefix_of(p.instruction_annotation_offsets@)
    &&& q.pending_annotations@.is_prefix_of(p.pending_annotations@)
}

/// Rows `n0 ..` of `p` are all its rows from `n0` on, and hold the transactions `txs` in
/// order, the first after a row that began at `first`.
pub open spec fn rows_hold(p: KonataRecordProjector, n0: int, txs: Seq<TxRecord>, first: Option<u64>) -> bool {
    &&& p.rows.begin@.len() == n0 + txs.len()
    &&& forall|k: int| 0 <= k < txs.len() ==> row_holds(p, n0 + k, #[trigger] txs[k], begin_before(txs, k, first))
}

/// Pending stages `m0 ..` of `p` are all its pending stages from `m0` on, and hold the
/// events `txs` in order.
pub open spec fn stages_hold(p: KonataRecordProjector, m0: int, txs: Seq<TxRecord>, name_attribute: Seq<char>) -> bool {
    &&& p.pending_stages@.len() == m0 + txs.len()
    &&& forall|k: int|
        0 <= k < txs.len() ==> stage_holds(p.pending_stages@[m0 + k], #[trigger] txs[k], name_attribute) && stage_named(
            p,
            p.pending_stages@[m0 + k],
            txs[k],
            name_attribute,
        )
}

/// Appending twice is appending.
proof fn lemma_extends_trans(a: KonataRecordProjector, b: KonataRecordProjector, c: KonataRecordProjector)
    requires
        extends(b, a),
        extends(c, b),
    ensures
        extends(c, a),
{
    assert(a.rows.begin@.is_prefix_of(c.rows.begin@)) by {
        assert(a.rows.begin@ =~= c.rows.begin@.subrange(0, a.rows.begin@.len() as int));
    }
    assert(a.rows.end@.is_prefix_of(c.rows.end@)) by {
        assert(a.rows.end@ =~= c.rows.end@.subrange(0, a.rows.end@.len() as int));
    }
    assert(a.rows.tx_id@.is_prefix_of(c.rows.tx_id@)) by {
        assert(a.rows.tx_id@ =~= c.rows.tx_id@.subrange(0, a.rows.tx_id@.len() as int));
    }
    assert(a.rows.sid@.is_prefix_of(c.rows.sid@)) by {
        assert(a.rows.sid@ =~= c.rows.sid@.subrange(0, a.rows.sid@.len() as int));
    }
    assert(a.rows.rid@.is_prefix_of(c.rows.rid@)) by {
        assert(a.rows.rid@ =~= c.rows.rid@.subrange(0, a.rows.rid@.len() as int));
    }
    assert(a.rows.tid@.is_prefix_of(c.rows.tid@)) by {
        assert(a.rows.tid@ =~= c.rows.tid@.subrange(0, a.rows.tid@.len() as int));
    }
    assert(a.rows.flags@.is_prefix_of(c.rows.flags@)) by {
        assert(a.rows.flags@ =~= c.rows.flags@.subrange(0, a.rows.flags@.len() as int));
    }
    assert(a.rows.flushed@.is_prefix_of(c.rows.flushed@)) by {
        assert(a.rows.flushed@ =~= c.rows.flushed@.subrange(0, a.rows.flushed@.len() as int));
    }
    assert(a.rows.label@.is_prefix_of(c.rows.label@)) by {
        assert(a.rows.label@ =~= c.rows.label@.subrange(0, a.rows.label@.len() as int));
    }
    assert(a.rows.detail@.is_prefix_of(c.rows.detail@)) by {
        assert(a.rows.detail@ =~= c.rows.detail@.subrange(0, a.rows.detail@.len() as int));
    }
    assert(a.pending_stages@.is_prefix_of(c.pending_stages@)) by {
        assert(a.pending_stages@ =~= c.pending_stages@.subrange(0, a.pending_stages@.len() as int));
    }
    assert(a.strings@.is_prefix_of(c.strings@)) by {
        assert(a.strings@ =~= c.strings@.subrange(0, a.strings@.len() as int));
    }
    assert(a.thread_keys@.is_prefix_of(c.thread_keys@)) by {
        assert(a.thread_keys@ =~= c.thread_keys@.subrange(0, a.thread_keys@.len() as int));
    }
    assert(a.stage_names@.is_prefix_of(c.stage_names@)) by {
        assert(a.stage_names@ =~= c.stage_names@.subrange(0, a.stage_names@.len() as int));
    }
    assert(a.lane_keys@.is_prefix_of(c.lane_keys@)) by {
        assert(a.lane_keys@ =~= c.lane_keys@.subrange(0, a.lane_keys@.len() as int));
    }
    assert(a.instruction_annotations@.is_prefix_of(c.instruction_annotations@)) by {
        assert(a.instruction_annotations@ =~= c.instruction_annotations@.subrange(0, a.instruction_annotations@.len() as int));
    }
    assert(a.instruction_annotation_offsets@.is_prefix_of(c.instruction_annotation_offsets@)) by {
        assert(a.instruction_annotation_offsets@ =~= c.instruction_annotation_offsets@.subrange(
            0,
            a.instruction_annotation_offsets@.len() as int,
        ));
    }
    assert(a.pending_annotations@.is_prefix_of(c.pending_annotations@)) by {
        assert(a.pending_annotations@ =~= c.pending_annotations@.subrange(0, a.pending_annotations@.len() as int));
    }
}

/// Appending an instruction row only appends.
proof fn lemma_push_parent_extends(q: KonataRecordProjector, p: KonataRecordProjector, tx: TxRecord)
    requires
        p.rows.begin@ == q.rows.begin@.push(tx.start),
        p.rows.end@ == q.rows.end@.push(tx.end),
        p.rows.tx_id@ == q.rows.tx_id@.push(tx.tx_id),
        p.rows.sid@ == q.rows.sid@.push(sid_of(tx.attributes@)),
        p.rows.rid@ == q.rows.rid@.push(rid_of(tx.attributes@)),
        p.rows.flushed@ == q.rows.flushed@.push(flush_of(tx.attributes@)),
        p.rows.flags@ == q.rows.flags@.push(RowFlags(row_flag_bits(q.previous_begin, tx))),
        p.rows.tid@.drop_last() == q.rows.tid@,
        p.rows.tid@.len() == q.rows.tid@.len() + 1,
        p.rows.label@.drop_last() == q.rows.label@,
        p.rows.label@.len() == q.rows.label@.len() + 1,
        p.rows.detail@.drop_last() == q.rows.detail@,
        p.rows.detail@.len() == q.rows.detail@.len() + 1,
        p.pending_stages@ == q.pending_stages@,
        q.strings@.is_prefix_of(p.strings@),
        p.stage_names@ == q.stage_names@,
        p.lane_keys@ == q.lane_keys@,
        match thread_key_of(tx.attributes@) {
            Some(k) => p.thread_keys@ == crate::konata::trace::key_interned(q.thread_keys@, k),
            None => p.thread_keys@ == q.thread_keys@,
        },
        p.instruction_annotations@ == q.instruction_annotations@ + row_annotations_of(tx.attributes@),
        p.instruction_annotation_offsets@.drop_last() == q.instruction_annotation_offsets@,
        p.instruction_annotation_offsets@.len() == q.instruction_annotation_offsets@.len() + 1,
        p.pending_annotations@ == q.pending_annotations@,
    ensures
        extends(p, q),
{
    assert(q.instruction_annotations@ =~= p.instruction_annotations@.subrange(0, q.instruction_annotations@.len() as int));
    assert(q.instruction_annotation_offsets@ =~= p.instruction_annotation_offsets@.subrange(
        0,
        q.instruction_annotation_offsets@.len() as int,
    ));
    assert(q.pending_annotations@ =~= p.pending_annotations@.subrange(0, q.pending_annotations@.len() as int));
    assert(q.rows.begin@ =~= p.rows.begin@.subrange(0, q.rows.begin@.len() as int));
    assert(q.rows.end@ =~= p.rows.end@.subrange(0, q.rows.end@.len() as int));
    assert(q.rows.tx_id@ =~= p.rows.tx_id@.subrange(0, q.rows.tx_id@.len() as int));
    assert(q.rows.sid@ =~= p.rows.sid@.subrange(0, q.rows.sid@.len() as int));
    assert(q.rows.rid@ =~= p.rows.rid@.subrange(0, q.rows.rid@.len() as int));
    assert(q.rows.flushed@ =~= p.rows.flushed@.subrange(0, q.rows.flushed@.len() as int));
    assert(q.rows.flags@ =~= p.rows.flags@.subrange(0, q.rows.flags@.len() as int));
    assert(q.rows.tid@ =~= p.rows.tid@.subrange(0, q.rows.tid@.len() as int));
    assert(q.rows.label@ =~= p.rows.label@.subrange(0, q.rows.label@.len() as int));
    assert(q.rows.detail@ =~= p.rows.detail@.subrange(0, q.rows.detail@.len() as int));
    assert(q.pending_stages@ =~= p.pending_stages@.subrange(0, q.pending_stages@.len() as int));
    assert(q.thread_keys@ =~= p.thread_keys@.subrange(0, q.thread_keys@.len() as int));
    assert(q.stage_names@ =~= p.stage_names@.subrange(0, q.stage_names@.len() as int));
    assert(q.lane_keys@ =~= p.lane_keys@.subrange(0, q.lane_keys@.len() as int));
}

/// Appending a pending stage only appends.
proof fn lemma_push_event_extends(q: KonataRecordProjector, p: KonataRecordProjector, tx: TxRecord, a: Seq<char>)
    requires
        p.instruction_annotations@ == q.instruction_annotations@,
        p.instruction_annotation_offsets@ == q.instruction_annotation_offsets@,
        p.pending_annotations@ == q.pending_annotations@ + stage_annotations_of(tx.attributes@, a),
        p.rows == q.rows,
        p.pending_stages@.drop_last() == q.pending_stages@,
        p.pending_stages@.len() == q.pending_stages@.len() + 1,
        q.strings@.is_prefix_of(p.strings@),
        p.thread_keys@ == q.thread_keys@,
        q.stage_names@.is_prefix_of(p.stage_names@),
        q.lane_keys@.is_prefix_of(p.lane_keys@),
    ensures
        extends(p, q),
{
    assert(q.rows.begin@ =~= p.rows.begin@.subrange(0, q.rows.begin@.len() as int));
    assert(q.rows.end@ =~= p.rows.end@.subrange(0, q.rows.end@.len() as int));
    assert(q.rows.tx_id@ =~= p.rows.tx_id@.subrange(0, q.rows.tx_id@.len() as int));
    assert(q.rows.sid@ =~= p.rows.sid@.subrange(0, q.rows.sid@.len() as int));
    assert(q.rows.rid@ =~= p.rows.rid@.subrange(0, q.rows.rid@.len() as int));
    assert(q.rows.flushed@ =~= p.rows.flushed@.subrange(0, q.rows.flushed@.len() as int));
    assert(q.rows.flags@ =~= p.rows.flags@.subrange(0, q.rows.flags@.len() as int));
    assert(q.rows.tid@ =~= p.rows.tid@.subrange(0, q.rows.tid@.len() as int));
    assert(q.rows.label@ =~= p.rows.label@.subrange(0, q.rows.label@.len() as int));
    assert(q.rows.detail@ =~= p.rows.detail@.subrange(0, q.rows.detail@.len() as int));
    assert(q.pending_stages@ =~= p.pending_stages@.subrange(0, q.pending_stages@.len() as int));
    assert(q.thread_keys@ =~= p.thread_keys@.subrange(0, q.thread_keys@.len() as int));
    assert(q.instruction_annotations@ =~= p.instruction_annotations@.subrange(0, q.instruction_annotations@.len() as int));
    assert(q.instruction_annotation_offsets@ =~= p.instruction_annotation_offsets@.subrange(
        0,
        q.instruction_annotation_offsets@.len() as int,
    ));
    assert(q.pending_annotations@ =~= p.pending_annotations@.subrange(0, q.pending_annotations@.len() as int));
}

/// The tables of a well-formed projector hold no entry twice.
proof fn lemma_tables_distinct(p: KonataRecordProjector)
    requires
        p.wf(),
    ensures
        p.strings@.no_duplicates(),
        p.stage_names@.no_duplicates(),
        p.lane_keys@.no_duplicates(),
{
    p.strings.lemma_distinct();
    p.lane_keys.lemma_len();
}

/// In a sequence without duplicates that extends `a`, an element of `a` keeps its index.
proof fn lemma_index_of_prefix<A>(a: Seq<A>, b: Seq<A>, x: A)
    requires
        a.is_prefix_of(b),
        a.contains(x),
        b.no_duplicates(),
    ensures
        b.contains(x),
        b.index_of(x) == a.index_of(x),
        0 <= a.index_of(x) < a.len(),
{
    let i = a.index_of(x);
    assert(a[i] == x);
    assert(b[i] == a[i]);
    let j = b.index_of(x);
    assert(b[j] == x);
}

/// The element at an index of a sequence without duplicates has that index.
proof fn lemma_index_of_at<A>(s: Seq<A>, i: int)
    requires
        0 <= i < s.len(),
        s.no_duplicates(),
    ensures
        s.index_of(s[i]) == i,
{
    assert(s.contains(s[i]));
    let j = s.index_of(s[i]);
    assert(s[j] == s[i]);
}

/// How a stage names its event stays when the projector only appends.
proof fn lemma_stage_named_extends(q: KonataRecordProjector, p: KonataRecordProjector, st: PendingStage, tx: TxRecord, a: Seq<char>)
    requires
        extends(p, q),
        p.strings@.no_duplicates(),
        p.stage_names@.no_duplicates(),
        p.lane_keys@.no_duplicates(),
        stage_named(q, st, tx, a),
    ensures
        stage_named(p, st, tx, a),
{
    let text = stage_text(tx, a);
    lemma_index_of_prefix(q.strings@, p.strings@, text);
    let id = q.strings@.index_of(text) as u32;
    lemma_index_of_prefix(q.stage_names@, p.stage_names@, id);
    lemma_index_of_prefix(q.lane_keys@, p.lane_keys@, lane_key(tx));
    assert(p.pending_annotations@.subrange(st.annotation_start as int, st.annotation_end as int) =~= q.pending_annotations@.subrange(
        st.annotation_start as int,
        st.annotation_end as int,
    ));
}

/// The rows hold the same transactions when the projector only appends pending stages.
proof fn lemma_rows_hold_extends(q: KonataRecordProjector, p: KonataRecordProjector, n0: int, txs: Seq<TxRecord>, first: Option<u64>)
    requires
        q.rows.wf(),
        extends(p, q),
        p.rows.begin@.len() == q.rows.begin@.len(),
        rows_hold(q, n0, txs, first),
        0 <= n0,
    ensures
        rows_hold(p, n0, txs, first),
{
    assert forall|k: int| 0 <= k < txs.len() implies row_holds(p, n0 + k, #[trigger] txs[k], begin_before(txs, k, first)) by {
        assert(row_holds(q, n0 + k, txs[k], begin_before(txs, k, first)));
        lemma_row_holds_extends(q, p, n0 + k, txs[k], begin_before(txs, k, first));
    }
}

/// The rows hold one more transaction after an instruction row was appended for it.
proof fn lemma_rows_hold_push(q: KonataRecordProjector, p: KonataRecordProjector, n0: int, txs: Seq<TxRecord>, first: Option<u64>, tx: TxRecord)
    requires
        q.rows.wf(),
        extends(p, q),
        p.rows.begin@.len() == q.rows.begin@.len() + 1,
        rows_hold(q, n0, txs, first),
        0 <= n0,
        row_holds(p, q.rows.begin@.len() as int, tx, begin_before(txs.push(tx), txs.len() as int, first)),
    ensures
        rows_hold(p, n0, txs.push(tx), first),
{
    let t1 = txs.push(tx);
    assert forall|k: int| 0 <= k < t1.len() implies row_holds(p, n0 + k, #[trigger] t1[k], begin_before(t1, k, first)) by {
        if k < txs.len() {
            assert(t1[k] == txs[k]);
            assert(begin_before(t1, k, first) == begin_before(txs, k, first));
            assert(row_holds(q, n0 + k, txs[k], begin_before(txs, k, first)));
            lemma_row_holds_extends(q, p, n0 + k, txs[k], begin_before(txs, k, first));
        }
    }
}

/// The pending stages hold the same events when the projector only appends rows and
/// table entries.
proof fn lemma_stages_hold_extends(q: KonataRecordProjector, p: KonataRecordProjector, m0: int, txs: Seq<TxRecord>, a: Seq<char>)
    requires
        extends(p, q),
        p.pending_stages@ == q.pending_stages@,
        p.strings@.no_duplicates(),
        p.stage_names@.no_duplicates(),
        p.lane_keys@.no_duplicates(),
        stages_hold(q, m0, txs, a),
    ensures
        stages_hold(p, m0, txs, a),
{
    assert forall|k: int| 0 <= k < txs.len() implies stage_holds(p.pending_stages@[m0 + k], #[trigger] txs[k], a)
        && stage_named(p, p.pending_stages@[m0 + k], txs[k], a) by {
        assert(stage_holds(q.pending_stages@[m0 + k], txs[k], a) && stage_named(q, q.pending_stages@[m0 + k], txs[k], a));
        lemma_stage_named_extends(q, p, q.pending_stages@[m0 + k], txs[k], a);
    }
}

/// The pending stages hold one more event after a pending stage was appended for it.
proof fn lemma_stages_hold_push(q: KonataRecordProjector, p: KonataRecordProjector, m0: int, txs: Seq<TxRecord>, a: Seq<char>, tx: TxRecord)
    requires
        extends(p, q),
        p.pending_stages@.drop_last() == q.pending_stages@,
        p.pending_stages@.len() == q.pending_stages@.len() + 1,
        p.strings@.no_duplicates(),
        p.stage_names@.no_duplicates(),
        p.lane_keys@.no_duplicates(),
        stages_hold(q, m0, txs, a),
        0 <= m0,
        stage_holds(p.pending_stages@.last(), tx, a),
        stage_named(p, p.pending_stages@.last(), tx, a),
    ensures
        stages_hold(p, m0, txs.push(tx), a),
{
    let t1 = txs.push(tx);
    assert forall|k: int| 0 <= k < t1.len() implies stage_holds(p.pending_stages@[m0 + k], #[trigger] t1[k], a)
        && stage_named(p, p.pending_stages@[m0 + k], t1[k], a) by {
        if k < txs.len() {
            assert(t1[k] == txs[k]);
            assert(p.pending_stages@[m0 + k] == q.pending_stages@[m0 + k]);
            assert(stage_holds(q.pending_stages@[m0 + k], txs[k], a) && stage_named(q, q.pending_stages@[m0 + k], txs[k], a));
            lemma_stage_named_extends(q, p, q.pending_stages@[m0 + k], txs[k], a);
        } else {
            assert(m0 + k == q.pending_stages@.len());
        }
    }
}

/// What appending a pending stage for `tx` leaves in the tables: the new stage holds and
/// names `tx`, and the stage name and lane tables only grew.
proof fn lemma_push_event_tables(q: KonataRecordProjector, p: KonataRecordProjector, tx: TxRecord)
    requires
        q.wf(),
        p.wf(),
        p.default_lane == q.default_lane,
        p.event_name_attribute@ == q.event_name_attribute@,
        p.pending_stages@.len() == q.pending_stages@.len() + 1,
        q.strings@.is_prefix_of(p.strings@),
        p.pending_annotations@ == q.pending_annotations@ + stage_annotations_of(tx.attributes@, q.event_name_attribute@),
        p.pending_stages@.last().annotation_start == q.pending_annotations@.len(),
        p.pending_stages@.last().annotation_end == p.pending_annotations@.len(),
        ({
            let st = p.pending_stages@.last();
            let pos = crate::konata::trace::event_name_position(tx.attributes@, q.event_name_attribute@);
            let text = match pos {
                Some(i) => crate::konata::trace::value_text(tx.attributes@[i].value),
                None => unnamed_stage_text(),
            };
            let id = p.strings@.index_of(text) as u32;
            &&& st.start == tx.start
            &&& st.end == tx.end
            &&& st.event_tx == tx.tx_id
            &&& st.unnamed == (pos is None)
            &&& p.strings@.contains(text)
            &&& p.stage_names@ == if q.stage_names@.contains(id) {
                q.stage_names@
            } else {
                q.stage_names@.push(id)
            }
            &&& st.name == name_slot(p.stage_names@, id)
            &&& match crate::konata::trace::attribute_value(tx.attributes@, "lane"@) {
                None => st.lane == q.default_lane && !st.unknown_lane && p.lane_keys@ == q.lane_keys@,
                Some(v) => {
                    let k = match crate::konata::trace::key_of(v) {
                        Some(k) => k,
                        None => (3u8, 0int, unknown_lane_text(v)),
                    };
                    &&& st.unknown_lane == (crate::konata::trace::key_of(v) is None)
                    &&& p.lane_keys@ == crate::konata::trace::key_interned(q.lane_keys@, k)
                    &&& st.lane == p.lane_keys@.index_of(k) as u16
                },
            }
        }),
    ensures
        q.stage_names@.is_prefix_of(p.stage_names@),
        q.lane_keys@.is_prefix_of(p.lane_keys@),
        stage_holds(p.pending_stages@.last(), tx, q.event_name_attribute@),
        stage_named(p, p.pending_stages@.last(), tx, q.event_name_attribute@),
{
    let st = p.pending_stages@.last();
    let text = stage_text(tx, q.event_name_attribute@);
    let id = p.strings@.index_of(text) as u32;
    assert(p.pending_annotations@.subrange(st.annotation_start as int, st.annotation_end as int) =~= stage_annotations_of(
        tx.attributes@,
        q.event_name_attribute@,
    ));
    assert(q.stage_names@ =~= p.stage_names@.subrange(0, q.stage_names@.len() as int));
    assert(q.lane_keys@ =~= p.lane_keys@.subrange(0, q.lane_keys@.len() as int));
    if !q.stage_names@.contains(id) {
        assert(p.stage_names@[q.stage_names@.len() as int] == id);
    }
    lemma_tables_distinct(p);
    match crate::konata::trace::attribute_value(tx.attributes@, "lane"@) {
        None => {
            lemma_index_of_at(p.lane_keys@, p.default_lane as int);
        },
        Some(v) => {
            if !q.lane_keys@.contains(lane_key(tx)) {
                assert(p.lane_keys@[q.lane_keys@.len() as int] == lane_key(tx));
            }
        },
    }
}

/// What a row holds stays when the projector only appends.
pub proof fn lemma_row_holds_extends(q: KonataRecordProjector, p: KonataRecordProjector, r: int, tx: TxRecord, previous: Option<u64>)
    requires
        q.rows.wf(),
        0 <= r < q.rows.begin@.len(),
        extends(p, q),
        row_holds(q, r, tx, previous),
    ensures
        row_holds(p, r, tx, previous),
{
    assert(p.rows.begin@[r] == q.rows.begin@[r]);
    assert(p.rows.end@[r] == q.rows.end@[r]);
    assert(p.rows.tx_id@[r] == q.rows.tx_id@[r]);
    assert(p.rows.sid@[r] == q.rows.sid@[r]);
    assert(p.rows.rid@[r] == q.rows.rid@[r]);
    assert(p.rows.tid@[r] == q.rows.tid@[r]);
    assert(p.rows.flags@[r] == q.rows.flags@[r]);
    assert(p.rows.flushed@[r] == q.rows.flushed@[r]);
    assert(p.rows.label@[r] == q.rows.label@[r]);
    assert(p.rows.detail@[r] == q.rows.detail@[r]);
    let l = q.rows.label@[r];
    let d = q.rows.detail@[r];
    if (l as int) < q.strings@.len() {
        assert(p.strings@[l as int] == q.strings@[l as int]);
    }
    if (d as int) < q.strings@.len() {
        assert(p.strings@[d as int] == q.strings@[d as int]);
    }
    let t = q.rows.tid@[r];
    if (t as int) < q.thread_keys@.len() {
        assert(p.thread_keys@[t as int] == q.thread_keys@[t as int]);
    }
    assert(p.instruction_annotation_offsets@[r] == q.instruction_annotation_offsets@[r]);
    assert(p.instruction_annotation_offsets@[r + 1] == q.instruction_annotation_offsets@[r + 1]);
    assert(p.instruction_annotations@.subrange(
        q.instruction_annotation_offsets@[r] as int,
        q.instruction_annotation_offsets@[r + 1] as int,
    ) =~= q.instruction_annotations@.subrange(
        q.instruction_annotation_offsets@[r] as int,
        q.instruction_annotation_offsets@[r + 1] as int,
    ));
}

/// The ids of the transactions of generator `generator`, except those of generator
/// `skip`.
pub open spec fn ids_from(txs: Seq<TxRecord>, generator: u64, skip: Option<u64>) -> Seq<u64>
    decreases txs.len(),
{
    if txs.len() == 0 {
        Seq::empty()
    } else {
        let prev = ids_from(txs.drop_last(), generator, skip);
        let last = txs.last();
        if last.generator == generator && skip != Some(last.generator) {
            prev.push(last.tx_id)
        } else {
            prev
        }
    }
}

/// Filtering a concatenation filters each part.
proof fn lemma_txs_from_add(a: Seq<TxRecord>, b: Seq<TxRecord>, generator: u64, skip: Option<u64>)
    ensures
        txs_from(a + b, generator, skip) == txs_from(a, generator, skip) + txs_from(b, generator, skip),
    decreases b.len(),
{
    if b.len() == 0 {
        assert(a + b =~= a);
        assert(txs_from(a, generator, skip) + txs_from(b, generator, skip) =~= txs_from(a, generator, skip));
    } else {
        lemma_txs_from_add(a, b.drop_last(), generator, skip);
        assert((a + b).drop_last() =~= a + b.drop_last());
        assert((a + b).last() == b.last());
        let fa = txs_from(a, generator, skip);
        let fb = txs_from(b.drop_last(), generator, skip);
        assert((fa + fb).push(b.last()) =~= fa + fb.push(b.last()));
    }
}

/// Regressions of two runs of rows add up; the second run follows the last row of the
/// first.
proof fn lemma_regressions_add(xs: Seq<TxRecord>, ys: Seq<TxRecord>, first: Option<u64>)
    ensures
        regressions(xs + ys, first) == regressions(xs, first) + regressions(ys, begin_after(xs, first)),
    decreases ys.len(),
{
    if ys.len() == 0 {
        assert(xs + ys =~= xs);
    } else {
        lemma_regressions_add(xs, ys.drop_last(), first);
        let zs = xs + ys;
        assert(zs.drop_last() =~= xs + ys.drop_last());
        assert(zs.last() == ys.last());
        assert(begin_before(zs, zs.len() - 1, first) == begin_before(ys, ys.len() - 1, begin_after(xs, first)));
    }
}

/// Missing retire ids of two runs of rows add up.
proof fn lemma_missing_rids_add(xs: Seq<TxRecord>, ys: Seq<TxRecord>)
    ensures
        missing_rids(xs + ys) == missing_rids(xs) + missing_rids(ys),
    decreases ys.len(),
{
    if ys.len() == 0 {
        assert(xs + ys =~= xs);
    } else {
        lemma_missing_rids_add(xs, ys.drop_last());
        assert((xs + ys).drop_last() =~= xs + ys.drop_last());
        assert((xs + ys).last() == ys.last());
    }
}

/// Pushing transactions in two batches leaves what pushing them at once leaves: the same
/// rows, pending stages, counts and last begin tick, so a batch can be dropped once it
/// has been pushed.
#[verifier::rlimit(100)]
#[verifier::spinoff_prover]
pub proof fn lemma_push_batches(
    q: KonataRecordProjector,
    p1: KonataRecordProjector,
    p2: KonataRecordProjector,
    a: Seq<TxRecord>,
    b: Seq<TxRecord>,
)
    requires
        q.wf(),
        p1.wf(),
        p2.wf(),
        pushed(q, a, p1),
        pushed(p1, b, p2),
    ensures
        pushed(q, a + b, p2),
{
    let pg = q.parent_generator;
    let eg = q.event_generator;
    let attr = q.event_name_attribute@;
    let first = q.previous_begin;
    let n0 = q.rows.begin@.len() as int;
    let m0 = q.pending_stages@.len() as int;
    lemma_txs_from_add(a, b, pg, None);
    lemma_txs_from_add(a, b, eg, Some(pg));
    let pa = txs_from(a, pg, None);
    let pb = txs_from(b, pg, None);
    let ea = txs_from(a, eg, Some(pg));
    let eb = txs_from(b, eg, Some(pg));
    lemma_extends_trans(q, p1, p2);
    lemma_tables_distinct(p2);
    lemma_regressions_add(pa, pb, first);
    lemma_missing_rids_add(pa, pb);
    lemma_rows_hold_concat(p1, p2, n0, pa, pb, first);
    lemma_stages_hold_concat(p1, p2, m0, ea, eb, attr);
}

/// Rows that hold two runs of transactions in turn hold their concatenation.
#[verifier::rlimit(100)]
#[verifier::spinoff_prover]
proof fn lemma_rows_hold_concat(
    p1: KonataRecordProjector,
    p2: KonataRecordProjector,
    n0: int,
    pa: Seq<TxRecord>,
    pb: Seq<TxRecord>,
    first: Option<u64>,
)
    requires
        0 <= n0,
        p1.rows.wf(),
        extends(p2, p1),
        rows_hold(p1, n0, pa, first),
        rows_hold(p2, n0 + pa.len(), pb, begin_after(pa, first)),
    ensures
        rows_hold(p2, n0, pa + pb, first),
{
    let ps = pa + pb;
    assert forall|k: int| 0 <= k < ps.len() implies row_holds(p2, n0 + k, #[trigger] ps[k], begin_before(ps, k, first)) by {
        if k < pa.len() {
            assert(ps[k] == pa[k]);
            assert(begin_before(ps, k, first) == begin_before(pa, k, first));
            assert(row_holds(p1, n0 + k, pa[k], begin_before(pa, k, first)));
            lemma_row_holds_extends(p1, p2, n0 + k, pa[k], begin_before(pa, k, first));
        } else {
            let j = k - pa.len();
            assert(ps[k] == pb[j]);
            assert(begin_before(ps, k, first) == begin_before(pb, j, begin_after(pa, first)));
            assert(row_holds(p2, n0 + pa.len() + j, pb[j], begin_before(pb, j, begin_after(pa, first))));
        }
    }
}

/// Pending stages that hold two runs of events in turn hold their concatenation.
proof fn lemma_stages_hold_concat(
    p1: KonataRecordProjector,
    p2: KonataRecordProjector,
    m0: int,
    ea: Seq<TxRecord>,
    eb: Seq<TxRecord>,
    attr: Seq<char>,
)
    requires
        0 <= m0,
        extends(p2, p1),
        p2.strings@.no_duplicates(),
        p2.stage_names@.no_duplicates(),
        p2.lane_keys@.no_duplicates(),
        stages_hold(p1, m0, ea, attr),
        stages_hold(p2, m0 + ea.len(), eb, attr),
    ensures
        stages_hold(p2, m0, ea + eb, attr),
{
    let es = ea + eb;
    assert forall|k: int| 0 <= k < es.len() implies stage_holds(p2.pending_stages@[m0 + k], #[trigger] es[k], attr)
        && stage_named(p2, p2.pending_stages@[m0 + k], es[k], attr) by {
        if k < ea.len() {
            assert(es[k] == ea[k]);
            assert(stage_holds(p1.pending_stages@[m0 + k], ea[k], attr) && stage_named(p1, p1.pending_stages@[m0 + k], ea[k], attr));
            assert(p2.pending_stages@[m0 + k] == p1.pending_stages@[m0 + k]);
            lemma_stage_named_extends(p1, p2, p1.pending_stages@[m0 + k], ea[k], attr);
        } else {
            let j = k - ea.len();
            assert(es[k] == eb[j]);
            assert(stage_holds(p2.pending_stages@[m0 + ea.len() + j], eb[j], attr) && stage_named(
                p2,
                p2.pending_stages@[m0 + ea.len() + j],
                eb[j],
                attr,
            ));
        }
    }
}

} // verus!
