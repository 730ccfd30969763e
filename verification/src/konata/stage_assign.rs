//! Attaching stage events to their instruction rows: flags and quality counters for
//! malformed events, and per-row stage lists ordered by start tick, lane and input order.
use vstd::prelude::*;
use crate::konata::columns::{InstructionColumns, KonataStage};
use crate::konata::flags::{KonataQualityCounters, StageFlags};
use crate::konata::projection::{PendingStage, ProjectedEventParent};
use crate::konata::sorting::sort_unstable;
use crate::konata::annotations::unannotated;

verus! {

/// The event has at least one parent row.
pub open spec fn attached(parent: ProjectedEventParent) -> bool {
    parent.count > 0
}

/// The event lies (partly) outside its row's begin/end interval.
pub open spec fn out_of_range(rows: InstructionColumns, ev: PendingStage, row: int) -> bool {
    ev.start < rows.begin@[row] || ev.end > rows.end@[row]
}

/// The flags of an attached event, set in the order multiple parents, end before start,
/// out of range, unnamed.
pub open spec fn stage_flag_bits(rows: InstructionColumns, ev: PendingStage, parent: ProjectedEventParent) -> u8 {
    let a: u8 = if parent.count > 1 { StageFlags::MULTIPLE_PARENTS } else { 0 };
    let b: u8 = if ev.end < ev.start { StageFlags::END_BEFORE_START } else { 0 };
    let c: u8 = if out_of_range(rows, ev, parent.first_row as int) { StageFlags::OUT_OF_RANGE } else { 0 };
    let d: u8 = if ev.unnamed { StageFlags::UNNAMED } else { 0 };
    a | b | c | d
}

/// The stage that an attached event becomes.
pub open spec fn stage_of(rows: InstructionColumns, ev: PendingStage, parent: ProjectedEventParent) -> KonataStage {
    KonataStage {
        start: ev.start,
        end: ev.end,
        event_tx: ev.event_tx,
        name: ev.name,
        lane: ev.lane,
        flags: StageFlags(stage_flag_bits(rows, ev, parent)),
        detail_page: 0,
        annotation_start: 0,
        annotation_end: 0,
    }
}

/// Kinds of malformed events that the quality counters track.
pub enum EventCheck {
    Orphan,
    MultipleParents,
    EndBeforeStart,
    OutOfRange,
    Unnamed,
    UnknownLane,
}

pub open spec fn check_holds(
    kind: EventCheck,
    rows: InstructionColumns,
    ev: PendingStage,
    parent: ProjectedEventParent,
) -> bool {
    match kind {
        EventCheck::Orphan => !attached(parent),
        EventCheck::MultipleParents => parent.count > 1,
        EventCheck::EndBeforeStart => attached(parent) && ev.end < ev.start,
        EventCheck::OutOfRange => attached(parent) && out_of_range(rows, ev, parent.first_row as int),
        EventCheck::Unnamed => attached(parent) && ev.unnamed,
        EventCheck::UnknownLane => attached(parent) && ev.unknown_lane,
    }
}

/// Number of the first `n` events for which the check holds.
pub open spec fn check_count(
    kind: EventCheck,
    rows: InstructionColumns,
    events: Seq<PendingStage>,
    parents: Seq<ProjectedEventParent>,
    n: int,
) -> nat
    decreases n,
{
    if n <= 0 {
        0
    } else {
        check_count(kind, rows, events, parents, n - 1) + if check_holds(kind, rows, events[n - 1], parents[n - 1]) {
            1nat
        } else {
            0nat
        }
    }
}

pub proof fn lemma_check_count_bound(
    kind: EventCheck,
    rows: InstructionColumns,
    events: Seq<PendingStage>,
    parents: Seq<ProjectedEventParent>,
    n: int,
)
    ensures
        n >= 0 ==> check_count(kind, rows, events, parents, n) <= n,
    decreases n,
{
    if n > 0 {
        lemma_check_count_bound(kind, rows, events, parents, n - 1);
    }
}

/// The counters after attaching the first `n` events.
pub open spec fn counted(
    q: KonataQualityCounters,
    rows: InstructionColumns,
    events: Seq<PendingStage>,
    parents: Seq<ProjectedEventParent>,
    n: int,
) -> KonataQualityCounters {
    KonataQualityCounters {
        orphans: (q.orphans + check_count(EventCheck::Orphan, rows, events, parents, n)) as u64,
        multiple_parents: (q.multiple_parents + check_count(EventCheck::MultipleParents, rows, events, parents, n)) as u64,
        unnamed_stages: (q.unnamed_stages + check_count(EventCheck::Unnamed, rows, events, parents, n)) as u64,
        out_of_range: (q.out_of_range + check_count(EventCheck::OutOfRange, rows, events, parents, n)) as u64,
        end_before_start: (q.end_before_start + check_count(EventCheck::EndBeforeStart, rows, events, parents, n)) as u64,
        begin_regressions: q.begin_regressions,
        unknown_lanes: (q.unknown_lanes + check_count(EventCheck::UnknownLane, rows, events, parents, n)) as u64,
        missing_rid: q.missing_rid,
        duplicate_rid: q.duplicate_rid,
    }
}

/// Room in every counter for one more count per event.
pub open spec fn counters_have_room(q: KonataQualityCounters, n: int) -> bool {
    &&& q.orphans + n <= u64::MAX
    &&& q.multiple_parents + n <= u64::MAX
    &&& q.unnamed_stages + n <= u64::MAX
    &&& q.out_of_range + n <= u64::MAX
    &&& q.end_before_start + n <= u64::MAX
    &&& q.unknown_lanes + n <= u64::MAX
}

/// Lexicographic order on stage sort keys (row, start, lane, event).
pub open spec fn key_le(a: (u32, u64, u16, u64), b: (u32, u64, u16, u64)) -> bool {
    a.0 < b.0 || (a.0 == b.0 && (a.1 < b.1 || (a.1 == b.1 && (a.2 < b.2 || (a.2 == b.2 && a.3 <= b.3)))))
}

pub open spec fn sorted_keys(s: Seq<(u32, u64, u16, u64)>) -> bool {
    forall|i: int, j: int| 0 <= i < j < s.len() ==> key_le(#[trigger] s[i], #[trigger] s[j])
}

/// Sorts stage keys in ascending lexicographic order.
fn sort_stage_keys(v: &mut Vec<(u32, u64, u16, u64)>)
    ensures
        sorted_keys(final(v)@),
        final(v)@.to_multiset() == old(v)@.to_multiset(),
{
    sort_unstable(v);
    proof {
        assert forall|i: int, j: int| 0 <= i < j < v@.len() implies key_le(#[trigger] v@[i], #[trigger] v@[j]) by {
            crate::konata::sorting::lemma_stage_key_order(v@[i], v@[j]);
        }
    }
}

/// Computes the flags of an attached event.
fn stage_flags(rows: &InstructionColumns, ev: &PendingStage, parent: &ProjectedEventParent) -> (flags: StageFlags)
    requires
        rows.wf(),
        (parent.first_row as int) < rows.begin.len(),
    ensures
        flags.0 == stage_flag_bits(*rows, *ev, *parent),
{
    let row = parent.first_row as usize;
    let mut flags = StageFlags::none();
    if parent.count > 1 {
        flags.insert(StageFlags::MULTIPLE_PARENTS);
    }
    if ev.end < ev.start {
        flags.insert(StageFlags::END_BEFORE_START);
    }
    if ev.start < rows.begin[row] || ev.end > rows.end[row] {
        flags.insert(StageFlags::OUT_OF_RANGE);
    }
    if ev.unnamed {
        flags.insert(StageFlags::UNNAMED);
    }
    proof {
        let a: u8 = if parent.count > 1 { 8u8 } else { 0u8 };
        let b: u8 = if ev.end < ev.start { 2u8 } else { 0u8 };
        let c: u8 = if out_of_range(*rows, *ev, parent.first_row as int) { 1u8 } else { 0u8 };
        let d: u8 = if ev.unnamed { 4u8 } else { 0u8 };
        assert(((0u8 | a) | b | c | d) == (a | b | c | d)) by (bit_vector);
        assert(0u8 | a == a) by (bit_vector);
        assert(a | 0u8 == a) by (bit_vector);
        assert((a | b) | 0u8 == a | b) by (bit_vector);
        assert((a | b | c) | 0u8 == a | b | c) by (bit_vector);
    }
    flags
}

/// The sort key of attached event `i`.
pub open spec fn key_of(events: Seq<PendingStage>, parents: Seq<ProjectedEventParent>, i: int) -> (u32, u64, u16, u64) {
    (parents[i].first_row, events[i].start, events[i].lane, i as u64)
}

proof fn lemma_key_permutation(v: Seq<(u32, u64, u16, u64)>, s: Seq<(u32, u64, u16, u64)>)
    requires
        v.to_multiset() == s.to_multiset(),
        v.no_duplicates(),
    ensures
        forall|x: (u32, u64, u16, u64)| v.contains(x) <==> s.contains(x),
        s.no_duplicates(),
{
    broadcast use vstd::seq_lib::group_to_multiset_ensures;

    v.lemma_multiset_has_no_duplicates();
    s.lemma_multiset_has_no_duplicates_conv();
    assert forall|x: (u32, u64, u16, u64)| v.contains(x) <==> s.contains(x) by {
        assert(v.contains(x) <==> v.to_multiset().count(x) > 0);
        assert(s.contains(x) <==> s.to_multiset().count(x) > 0);
    }
}

/// Collects the sort keys of the attached events, counting the malformed events.
fn collect_stage_keys(
    rows: &InstructionColumns,
    events: &Vec<PendingStage>,
    parents: &Vec<ProjectedEventParent>,
    quality: &mut KonataQualityCounters,
) -> (keys: Vec<(u32, u64, u16, u64)>)
    requires
        rows.wf(),
        events.len() == parents.len(),
        events.len() <= u32::MAX,
        forall|i: int| 0 <= i < parents.len() && attached(#[trigger] parents@[i]) ==> (parents@[i].first_row as int) < rows.begin.len(),
        counters_have_room(*old(quality), events.len() as int),
    ensures
        *final(quality) == counted(*old(quality), *rows, events@, parents@, events.len() as int),
        keys@.len() <= events.len(),
        keys@.no_duplicates(),
        forall|j: int| 0 <= j < keys@.len() ==> {
            let i = (#[trigger] keys@[j]).3 as int;
            &&& 0 <= i < events.len()
            &&& attached(parents@[i])
            &&& keys@[j] == key_of(events@, parents@, i)
        },
        forall|i: int| 0 <= i < events.len() && attached(#[trigger] parents@[i]) ==> keys@.contains(key_of(events@, parents@, i)),
{
    let ghost q0 = *quality;
    let mut keys: Vec<(u32, u64, u16, u64)> = Vec::new();
    let mut i: usize = 0;
    while i < events.len()
        invariant
            i <= events.len(),
            rows.wf(),
            events.len() == parents.len(),
            events.len() <= u32::MAX,
            forall|i2: int| 0 <= i2 < parents.len() && attached(#[trigger] parents@[i2]) ==> (parents@[i2].first_row as int) < rows.begin.len(),
            counters_have_room(q0, events.len() as int),
            *quality == counted(q0, *rows, events@, parents@, i as int),
            keys@.len() <= i,
            forall|j: int| 0 <= j < keys@.len() ==> {
                let i2 = (#[trigger] keys@[j]).3 as int;
                &&& 0 <= i2 < i
                &&& attached(parents@[i2])
                &&& keys@[j] == key_of(events@, parents@, i2)
            },
            forall|j1: int, j2: int| 0 <= j1 < j2 < keys@.len() ==> (#[trigger] keys@[j1]).3 < (#[trigger] keys@[j2]).3,
            forall|i2: int| 0 <= i2 < i && attached(#[trigger] parents@[i2]) ==> keys@.contains(key_of(events@, parents@, i2)),
        decreases events.len() - i,
    {
        proof {
            lemma_check_count_bound(EventCheck::Orphan, *rows, events@, parents@, i as int);
            lemma_check_count_bound(EventCheck::MultipleParents, *rows, events@, parents@, i as int);
            lemma_check_count_bound(EventCheck::EndBeforeStart, *rows, events@, parents@, i as int);
            lemma_check_count_bound(EventCheck::OutOfRange, *rows, events@, parents@, i as int);
            lemma_check_count_bound(EventCheck::Unnamed, *rows, events@, parents@, i as int);
            lemma_check_count_bound(EventCheck::UnknownLane, *rows, events@, parents@, i as int);
        }
        let parent = parents[i];
        let ev = events[i];
        if parent.count == 0 {
            quality.orphans = quality.orphans + 1;
        } else {
            let row = parent.first_row as usize;
            if parent.count > 1 {
                quality.multiple_parents = quality.multiple_parents + 1;
            }
            if ev.end < ev.start {
                quality.end_before_start = quality.end_before_start + 1;
            }
            if ev.start < rows.begin[row] || ev.end > rows.end[row] {
                quality.out_of_range = quality.out_of_range + 1;
            }
            if ev.unnamed {
                quality.unnamed_stages = quality.unnamed_stages + 1;
            }
            if ev.unknown_lane {
                quality.unknown_lanes = quality.unknown_lanes + 1;
            }
            let ghost before = keys@;
            keys.push((parent.first_row, ev.start, ev.lane, i as u64));
            proof {
                assert(keys@[before.len() as int] == key_of(events@, parents@, i as int));
                assert forall|i2: int| 0 <= i2 < i + 1 && attached(#[trigger] parents@[i2]) implies keys@.contains(
                    key_of(events@, parents@, i2),
                ) by {
                    if i2 < i {
                        let j = choose|j: int| 0 <= j < before.len() && before[j] == key_of(events@, parents@, i2);
                        assert(keys@[j] == before[j]);
                    }
                }
            }
        }
        i = i + 1;
    }
    proof {
        assert forall|j1: int, j2: int| 0 <= j1 < keys@.len() && 0 <= j2 < keys@.len() && j1 != j2 implies keys@[j1]
            != keys@[j2] by {
            if j1 < j2 {
                assert(keys@[j1].3 < keys@[j2].3);
            } else {
                assert(keys@[j2].3 < keys@[j1].3);
            }
        }
    }
    keys
}

/// The first `p` keys have rows below `a`, the others not.
pub open spec fn row_boundary(keys: Seq<(u32, u64, u16, u64)>, a: int, p: int) -> bool {
    &&& 0 <= p <= keys.len()
    &&& forall|j: int| 0 <= j < p ==> ((#[trigger] keys[j]).0 as int) < a
    &&& forall|j: int| p <= j < keys.len() ==> ((#[trigger] keys[j]).0 as int) >= a
}

proof fn lemma_assignment(
    rows: InstructionColumns,
    events: Seq<PendingStage>,
    parents: Seq<ProjectedEventParent>,
    keys: Seq<(u32, u64, u16, u64)>,
    offsets: Seq<u32>,
    stages: Seq<KonataStage>,
    src: Seq<int>,
)
    requires
        rows.wf(),
        events.len() == parents.len(),
        events.len() <= u32::MAX,
        forall|i: int| 0 <= i < parents.len() && attached(#[trigger] parents[i]) ==> (parents[i].first_row as int) < rows.begin.len(),
        sorted_keys(keys),
        keys.no_duplicates(),
        forall|j: int| 0 <= j < keys.len() ==> {
            let i = (#[trigger] keys[j]).3 as int;
            &&& 0 <= i < events.len()
            &&& attached(parents[i])
            &&& keys[j] == key_of(events, parents, i)
        },
        forall|i: int| 0 <= i < events.len() && attached(#[trigger] parents[i]) ==> keys.contains(key_of(events, parents, i)),
        stages.len() == keys.len(),
        forall|j: int| 0 <= j < keys.len() ==> #[trigger] stages[j] == stage_of(rows, events[keys[j].3 as int], parents[keys[j].3 as int]),
        offsets.len() == rows.begin.len() + 1,
        forall|a: int| 0 <= a <= rows.begin.len() ==> row_boundary(keys, a, #[trigger] offsets[a] as int),
        src == Seq::new(keys.len(), |j: int| keys[j].3 as int),
    ensures
        crate::konata::model::stage_ranges_ok(offsets, rows.begin.len() as int, stages.len() as int),
        src.len() == stages.len(),
        forall|k: int| 0 <= k < stages.len() ==> {
            let i = #[trigger] src[k];
            &&& 0 <= i < events.len()
            &&& attached(parents[i])
            &&& stages[k] == stage_of(rows, events[i], parents[i])
        },
        forall|r: int, k: int|
            #![trigger crate::konata::model::stage_owner(offsets, k, r)]
            0 <= r < rows.begin.len() && crate::konata::model::stage_owner(offsets, k, r) ==> parents[src[k]].first_row == r,
        forall|k1: int, k2: int| 0 <= k1 < k2 < stages.len() ==> #[trigger] src[k1] != #[trigger] src[k2],
        forall|i: int| 0 <= i < events.len() && attached(#[trigger] parents[i]) ==> exists|k: int| 0 <= k < stages.len() && src[k] == i,
        forall|r: int, k: int|
            #![trigger crate::konata::model::stage_owner(offsets, k, r), crate::konata::model::stage_owner(offsets, k + 1, r)]
            0 <= r < rows.begin.len() && crate::konata::model::stage_owner(offsets, k, r) && crate::konata::model::stage_owner(offsets, k + 1, r)
                ==> stage_order(stages[k], src[k], stages[k + 1], src[k + 1]),
{
    let n = rows.begin.len() as int;
    let total = keys.len() as int;
    // Boundaries: first at 0, last at the end, nondecreasing.
    assert(offsets[0] == 0) by {
        if offsets[0] > 0 {
            assert(row_boundary(keys, 0, offsets[0] as int));
            assert((keys[0].0 as int) < 0);
        }
    }
    assert(offsets[n] == total) by {
        assert(row_boundary(keys, n, offsets[n] as int));
        if (offsets[n] as int) < total {
            let j = offsets[n] as int;
            assert((keys[j].0 as int) >= n);
            let i = keys[j].3 as int;
            assert(attached(parents[i]));
        }
    }
    assert forall|a: int, b: int| 0 <= a <= b <= n implies #[trigger] offsets[a] <= #[trigger] offsets[b] by {
        assert(row_boundary(keys, a, offsets[a] as int));
        assert(row_boundary(keys, b, offsets[b] as int));
        if offsets[a] > offsets[b] {
            let j = offsets[b] as int;
            assert((keys[j].0 as int) < a);
            assert((keys[j].0 as int) >= b);
        }
    }
    assert forall|k: int| 0 <= k < stages.len() implies {
        let i = #[trigger] src[k];
        &&& 0 <= i < events.len()
        &&& attached(parents[i])
        &&& stages[k] == stage_of(rows, events[i], parents[i])
    } by {
        assert(src[k] == keys[k].3 as int);
    }
    assert forall|r: int, k: int|
        #![trigger crate::konata::model::stage_owner(offsets, k, r)]
        0 <= r < n && crate::konata::model::stage_owner(offsets, k, r) implies parents[src[k]].first_row == r by {
        assert(row_boundary(keys, r, offsets[r] as int));
        assert(row_boundary(keys, r + 1, offsets[r + 1] as int));
        assert(keys[k] == key_of(events, parents, keys[k].3 as int));
    }
    assert forall|k1: int, k2: int| 0 <= k1 < k2 < stages.len() implies #[trigger] src[k1] != #[trigger] src[k2] by {
        if src[k1] == src[k2] {
            assert(keys[k1] == key_of(events, parents, keys[k1].3 as int));
            assert(keys[k2] == key_of(events, parents, keys[k2].3 as int));
            assert(keys[k1] == keys[k2]);
        }
    }
    assert forall|i: int| 0 <= i < events.len() && attached(#[trigger] parents[i]) implies exists|k: int|
        0 <= k < stages.len() && src[k] == i by {
        assert(keys.contains(key_of(events, parents, i)));
        let k = choose|k: int| 0 <= k < keys.len() && keys[k] == key_of(events, parents, i);
        assert(src[k] == i);
    }
    assert forall|r: int, k: int|
        #![trigger crate::konata::model::stage_owner(offsets, k, r), crate::konata::model::stage_owner(offsets, k + 1, r)]
        0 <= r < n && crate::konata::model::stage_owner(offsets, k, r) && crate::konata::model::stage_owner(offsets, k + 1, r)
            implies stage_order(stages[k], src[k], stages[k + 1], src[k + 1]) by {
        assert(row_boundary(keys, r, offsets[r] as int));
        assert(row_boundary(keys, r + 1, offsets[r + 1] as int));
        assert(key_le(keys[k], keys[k + 1]));
        assert(keys[k] != keys[k + 1]);
        assert(keys[k] == key_of(events, parents, keys[k].3 as int));
        assert(keys[k + 1] == key_of(events, parents, keys[k + 1].3 as int));
    }
}

/// Stages of row `r` are ordered by start tick, then lane, then event input order.
pub open spec fn stage_order(a: KonataStage, ia: int, b: KonataStage, ib: int) -> bool {
    a.start < b.start || (a.start == b.start && (a.lane < b.lane || (a.lane == b.lane && ia < ib)))
}

/// `stages` and `offsets` hold, for every row in turn, the stages of the events attached
/// to it, ordered by start tick, lane and input order; `src` names the event of each stage.
pub open spec fn stages_assigned(
    rows: InstructionColumns,
    events: Seq<PendingStage>,
    parents: Seq<ProjectedEventParent>,
    stages: Seq<KonataStage>,
    offsets: Seq<u32>,
    src: Seq<int>,
) -> bool {
    &&& crate::konata::model::stage_ranges_ok(offsets, rows.begin.len() as int, stages.len() as int)
    &&& src.len() == stages.len()
    &&& forall|k: int| 0 <= k < stages.len() ==> {
        let i = #[trigger] src[k];
        &&& 0 <= i < events.len()
        &&& attached(parents[i])
        &&& unannotated(stages[k]) == stage_of(rows, events[i], parents[i])
    }
    &&& forall|r: int, k: int|
        #![trigger crate::konata::model::stage_owner(offsets, k, r)]
        0 <= r < rows.begin.len() && crate::konata::model::stage_owner(offsets, k, r) ==> parents[src[k]].first_row == r
    &&& forall|k1: int, k2: int| 0 <= k1 < k2 < stages.len() ==> #[trigger] src[k1] != #[trigger] src[k2]
    &&& forall|i: int| 0 <= i < events.len() && attached(#[trigger] parents[i]) ==> exists|k: int| 0 <= k < stages.len() && src[k] == i
    &&& forall|r: int, k: int|
        #![trigger crate::konata::model::stage_owner(offsets, k, r), crate::konata::model::stage_owner(offsets, k + 1, r)]
        0 <= r < rows.begin.len() && crate::konata::model::stage_owner(offsets, k, r) && crate::konata::model::stage_owner(offsets, k + 1, r)
            ==> stage_order(stages[k], src[k], stages[k + 1], src[k + 1])
}

/// Attaches every event that has a parent to its first parent row, in per-row ranges
/// ordered by start tick, lane and input order; counts the malformed events. The ghost
/// sequence names the event of every stage.
pub(crate) fn assign_stages(
    rows: &InstructionColumns,
    events: &Vec<PendingStage>,
    parents: &Vec<ProjectedEventParent>,
    quality: &mut KonataQualityCounters,
) -> (result: (Vec<KonataStage>, Vec<u32>, Ghost<Seq<int>>, Vec<u32>))
    requires
        rows.wf(),
        rows.begin.len() < u32::MAX,
        events.len() == parents.len(),
        events.len() <= u32::MAX,
        forall|i: int| 0 <= i < parents.len() && attached(#[trigger] parents@[i]) ==> (parents@[i].first_row as int) < rows.begin.len(),
        counters_have_room(*old(quality), events.len() as int),
    ensures
        *final(quality) == counted(*old(quality), *rows, events@, parents@, events.len() as int),
        stages_assigned(*rows, events@, parents@, result.0@, result.1@, result.2@),
        forall|k: int| 0 <= k < result.0@.len() ==> (#[trigger] result.0@[k]).annotation_start == 0 && result.0@[k].annotation_end == 0,
        result.3@.len() == result.0@.len(),
        forall|k: int| 0 <= k < result.3@.len() ==> #[trigger] result.3@[k] as int == result.2@[k],
{
    let n = rows.len();
    let mut keys = collect_stage_keys(rows, events, parents, quality);
    let ghost unsorted = keys@;
    sort_stage_keys(&mut keys);
    proof {
        assert(keys@.len() == unsorted.len()) by {
            broadcast use vstd::seq_lib::group_to_multiset_ensures;
            assert(keys@.to_multiset().len() == unsorted.to_multiset().len());
        }
    }
    proof {
        lemma_key_permutation(unsorted, keys@);
        assert forall|j: int| 0 <= j < keys@.len() implies {
            let i = (#[trigger] keys@[j]).3 as int;
            &&& 0 <= i < events.len()
            &&& attached(parents@[i])
            &&& keys@[j] == key_of(events@, parents@, i)
        } by {
            assert(keys@.contains(keys@[j]));
            assert(unsorted.contains(keys@[j]));
        }
    }
    // Stages in key order.
    let mut stages: Vec<KonataStage> = Vec::with_capacity(keys.len());
    let mut order: Vec<u32> = Vec::with_capacity(keys.len());
    let mut k: usize = 0;
    while k < keys.len()
        invariant
            k <= keys.len(),
            rows.wf(),
            n == rows.begin.len(),
            events.len() == parents.len(),
            forall|i: int| 0 <= i < parents.len() && attached(#[trigger] parents@[i]) ==> (parents@[i].first_row as int) < rows.begin.len(),
            forall|j: int| 0 <= j < keys@.len() ==> {
                let i = (#[trigger] keys@[j]).3 as int;
                &&& 0 <= i < events.len()
                &&& attached(parents@[i])
                &&& keys@[j] == key_of(events@, parents@, i)
            },
            stages@.len() == k,
            order@.len() == k,
            events.len() <= u32::MAX,
            forall|j: int| 0 <= j < k ==> #[trigger] order@[j] as int == keys@[j].3 as int,
            forall|j: int| 0 <= j < k ==> #[trigger] stages@[j] == stage_of(*rows, events@[keys@[j].3 as int], parents@[keys@[j].3 as int]),
        decreases keys.len() - k,
    {
        let i = keys[k].3 as usize;
        proof {
            assert(0 <= keys@[k as int].3 < events.len());
        }
        let ev = events[i];
        let parent = parents[i];
        let flags = stage_flags(rows, &ev, &parent);
        stages.push(KonataStage {
            start: ev.start,
            end: ev.end,
            event_tx: ev.event_tx,
            name: ev.name,
            lane: ev.lane,
            flags,
            detail_page: 0,
            annotation_start: 0,
            annotation_end: 0,
        });
        order.push(keys[k].3 as u32);
        k = k + 1;
    }
    // Row boundaries.
    let total = keys.len();
    let mut offsets: Vec<u32> = Vec::with_capacity(n + 1);
    let mut p: usize = 0;
    let mut r: usize = 0;
    while r <= n
        invariant
            r <= n + 1,
            n < u32::MAX,
            total == keys@.len(),
            total <= u32::MAX,
            p <= total,
            sorted_keys(keys@),
            offsets@.len() == r,
            forall|j: int| 0 <= j < p ==> ((#[trigger] keys@[j]).0 as int) < r,
            forall|a: int| 0 <= a < r ==> #[trigger] offsets@[a] <= p,
            forall|a: int| 0 <= a < r ==> row_boundary(keys@, a, #[trigger] offsets@[a] as int),
        decreases n + 1 - r,
    {
        while p < total && (keys[p].0 as usize) < r
            invariant
                p <= total,
                total == keys@.len(),
                sorted_keys(keys@),
                forall|j: int| 0 <= j < p ==> ((#[trigger] keys@[j]).0 as int) < r,
            decreases total - p,
        {
            p = p + 1;
        }
        proof {
            assert forall|j: int| p <= j < total implies (#[trigger] keys@[j]).0 as int >= r by {
                if j > p {
                    assert(key_le(keys@[p as int], keys@[j]));
                }
            }
            assert(row_boundary(keys@, r as int, p as int));
        }
        offsets.push(p as u32);
        r = r + 1;
    }
    let ghost src = Seq::new(keys@.len(), |j: int| keys@[j].3 as int);
    proof {
        let off = offsets@;
        lemma_assignment(*rows, events@, parents@, keys@, off, stages@, src);
        assert forall|k: int| 0 <= k < stages@.len() implies unannotated(#[trigger] stages@[k]) == stages@[k] by {
            assert(unannotated(stages@[k]) =~= stages@[k]);
        }
    }
    (stages, offsets, Ghost(src), order)
}

/// The assignment of events to stages does not look at the stages' annotation ranges.
pub proof fn lemma_assigned_unannotated(
    rows: InstructionColumns,
    events: Seq<PendingStage>,
    parents: Seq<ProjectedEventParent>,
    a: Seq<KonataStage>,
    b: Seq<KonataStage>,
    offsets: Seq<u32>,
    src: Seq<int>,
)
    requires
        stages_assigned(rows, events, parents, a, offsets, src),
        b.len() == a.len(),
        forall|k: int| 0 <= k < a.len() ==> #[trigger] unannotated(b[k]) == unannotated(a[k]),
    ensures
        stages_assigned(rows, events, parents, b, offsets, src),
{
    assert forall|k: int| 0 <= k < b.len() implies b[k].start == a[k].start && b[k].lane == a[k].lane by {
        assert(unannotated(b[k]) == unannotated(a[k]));
        assert(unannotated(b[k]).start == b[k].start);
        assert(unannotated(a[k]).start == a[k].start);
    }
    assert forall|r: int, k: int|
        #![trigger crate::konata::model::stage_owner(offsets, k, r), crate::konata::model::stage_owner(offsets, k + 1, r)]
        0 <= r < rows.begin.len() && crate::konata::model::stage_owner(offsets, k, r) && crate::konata::model::stage_owner(offsets, k + 1, r)
            implies stage_order(b[k], src[k], b[k + 1], src[k + 1]) by {
        assert(stage_order(a[k], src[k], a[k + 1], src[k + 1]));
        assert(0 <= k < b.len() && 0 <= k + 1 < b.len()) by {
            assert(crate::konata::model::stage_ranges_ok(offsets, rows.begin.len() as int, a.len() as int));
        }
        assert(unannotated(b[k]) == unannotated(a[k]));
        assert(unannotated(b[k + 1]) == unannotated(a[k + 1]));
    }
    assert forall|k: int| 0 <= k < b.len() implies {
        let i = #[trigger] src[k];
        &&& 0 <= i < events.len()
        &&& attached(parents[i])
        &&& unannotated(b[k]) == stage_of(rows, events[i], parents[i])
    } by {
        assert(unannotated(b[k]) == unannotated(a[k]));
    }
}

/// The attached events among the first `n`.
pub open spec fn attached_below(parents: Seq<ProjectedEventParent>, n: int) -> Set<int> {
    Set::new(|i: int| 0 <= i < n && i < parents.len() && attached(parents[i]))
}

proof fn lemma_attached_below(
    rows: InstructionColumns,
    events: Seq<PendingStage>,
    parents: Seq<ProjectedEventParent>,
    n: int,
)
    requires
        0 <= n <= parents.len(),
        n <= events.len(),
    ensures
        attached_below(parents, n).finite(),
        attached_below(parents, n).len() + check_count(EventCheck::Orphan, rows, events, parents, n) == n,
    decreases n,
{
    if n == 0 {
        assert(attached_below(parents, 0) =~= Set::<int>::empty());
    } else {
        lemma_attached_below(rows, events, parents, n - 1);
        if attached(parents[n - 1]) {
            assert(attached_below(parents, n) =~= attached_below(parents, n - 1).insert(n - 1));
        } else {
            assert(attached_below(parents, n) =~= attached_below(parents, n - 1));
        }
    }
}

/// Every attached event becomes exactly one stage and no orphan does: the stages and
/// the orphans together are the events.
pub proof fn lemma_stage_count(
    rows: InstructionColumns,
    events: Seq<PendingStage>,
    parents: Seq<ProjectedEventParent>,
    stages: Seq<KonataStage>,
    offsets: Seq<u32>,
    src: Seq<int>,
)
    requires
        stages_assigned(rows, events, parents, stages, offsets, src),
        events.len() == parents.len(),
    ensures
        stages.len() + check_count(EventCheck::Orphan, rows, events, parents, events.len() as int) == events.len(),
{
    let n = events.len() as int;
    lemma_attached_below(rows, events, parents, n);
    assert(src.no_duplicates()) by {
        assert forall|a: int, b: int| 0 <= a < src.len() && 0 <= b < src.len() && a != b implies src[a] != src[b] by {
            if a < b {
                assert(src[a] != src[b]);
            } else {
                assert(src[b] != src[a]);
            }
        }
    }
    src.unique_seq_to_set();
    assert forall|i: int| #[trigger] src.to_set().contains(i) == attached_below(parents, n).contains(i) by {
        if src.to_set().contains(i) {
            let k = choose|k: int| 0 <= k < src.len() && src[k] == i;
            assert(0 <= src[k] < events.len() && attached(parents[src[k]]));
        }
        if attached_below(parents, n).contains(i) {
            assert(attached(parents[i]));
            let k = choose|k: int| 0 <= k < stages.len() && src[k] == i;
            assert(src.contains(i));
        }
    }
    assert(src.to_set() =~= attached_below(parents, n));
}

} // verus!
