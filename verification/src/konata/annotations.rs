//! Annotations: the attributes of instruction and stage transactions that the rows and
//! stages do not take into their own columns, kept by name and value.
use vstd::prelude::*;
use crate::konata::columns::KonataStage;
use crate::konata::projection::PendingStage;
use crate::konata::texts::str_eq;
use crate::konata::trace::{key_of, typed_key, AttrValue, TxAttribute};

verus! {

/// An attribute kept beside a row or a stage: its name and its value (a floating-point
/// value by its text).
#[derive(Clone)]
pub struct KonataAnnotation {
    pub name: String,
    pub value: AttrValue,
}

/// The annotation that an attribute becomes.
pub open spec fn annotation_spec(a: TxAttribute) -> KonataAnnotation {
    KonataAnnotation { name: a.name, value: a.value }
}

/// A copy of a value.
pub fn copy_value(v: &AttrValue) -> (copy: AttrValue)
    ensures
        copy == *v,
{
    match v {
        AttrValue::Boolean(b) => AttrValue::Boolean(*b),
        AttrValue::Enumeration(s) => AttrValue::Enumeration(s.clone()),
        AttrValue::Integer(i) => AttrValue::Integer(*i),
        AttrValue::Unsigned(u) => AttrValue::Unsigned(*u),
        AttrValue::FloatingPointNumber(s) => AttrValue::FloatingPointNumber(s.clone()),
        AttrValue::BitVector(s) => AttrValue::BitVector(s.clone()),
        AttrValue::LogicVector(s) => AttrValue::LogicVector(s.clone()),
        AttrValue::FixedPointInteger(s) => AttrValue::FixedPointInteger(s.clone()),
        AttrValue::UnsignedFixedPointInteger(s) => AttrValue::UnsignedFixedPointInteger(s.clone()),
        AttrValue::Pointer(u) => AttrValue::Pointer(*u),
        AttrValue::Text(s) => AttrValue::Text(s.clone()),
        AttrValue::Time(u) => AttrValue::Time(*u),
        AttrValue::Error => AttrValue::Error,
    }
}

/// A copy of an annotation.
pub fn copy_annotation(a: &KonataAnnotation) -> (copy: KonataAnnotation)
    ensures
        copy == *a,
{
    KonataAnnotation { name: a.name.clone(), value: copy_value(&a.value) }
}

/// The annotation that an attribute becomes.
fn annotation_of(a: &TxAttribute) -> (annotation: KonataAnnotation)
    ensures
        annotation == annotation_spec(*a),
{
    KonataAnnotation { name: a.name.clone(), value: copy_value(&a.value) }
}

/// The attributes that an instruction row takes into its own columns.
pub open spec fn projected_instruction_attribute(name: Seq<char>) -> bool {
    name == "label"@ || name == "detail"@ || name == "insn_id_in_sim"@ || name == "thread_id"@ || name
        == "retire_id"@ || name == "flushed"@
}

fn is_projected_instruction_attribute(name: &str) -> (projected: bool)
    ensures
        projected == projected_instruction_attribute(name@),
{
    str_eq(name, "label") || str_eq(name, "detail") || str_eq(name, "insn_id_in_sim") || str_eq(name, "thread_id")
        || str_eq(name, "retire_id") || str_eq(name, "flushed")
}

/// The annotations of an instruction: its attributes but those the row takes into its
/// columns, in order.
pub open spec fn row_annotations_of(attrs: Seq<TxAttribute>) -> Seq<KonataAnnotation>
    decreases attrs.len(),
{
    if attrs.len() == 0 {
        Seq::empty()
    } else {
        let prev = row_annotations_of(attrs.drop_last());
        if projected_instruction_attribute(attrs.last().name@) {
            prev
        } else {
            prev.push(annotation_spec(attrs.last()))
        }
    }
}

/// A stage event keeps the attribute as an annotation: it is not the name attribute,
/// and not a `lane` attribute whose value makes a lane key.
pub open spec fn keeps_stage_attribute(a: TxAttribute, name_attribute: Seq<char>) -> bool {
    a.name@ != name_attribute && (a.name@ != "lane"@ || key_of(a.value) is None)
}

/// The annotations of a stage event: its attributes that it keeps, in order.
pub open spec fn stage_annotations_of(attrs: Seq<TxAttribute>, name_attribute: Seq<char>) -> Seq<KonataAnnotation>
    decreases attrs.len(),
{
    if attrs.len() == 0 {
        Seq::empty()
    } else {
        let prev = stage_annotations_of(attrs.drop_last(), name_attribute);
        if keeps_stage_attribute(attrs.last(), name_attribute) {
            prev.push(annotation_spec(attrs.last()))
        } else {
            prev
        }
    }
}

/// An instruction or event has no more annotations than attributes.
pub proof fn lemma_annotation_counts(attrs: Seq<TxAttribute>, name_attribute: Seq<char>)
    ensures
        row_annotations_of(attrs).len() <= attrs.len(),
        stage_annotations_of(attrs, name_attribute).len() <= attrs.len(),
    decreases attrs.len(),
{
    if attrs.len() > 0 {
        lemma_annotation_counts(attrs.drop_last(), name_attribute);
    }
}

/// Appends the annotations of an instruction with these attributes.
pub fn push_row_annotations(out: &mut Vec<KonataAnnotation>, attrs: &Vec<TxAttribute>)
    ensures
        final(out)@ == old(out)@ + row_annotations_of(attrs@),
{
    let ghost start = out@;
    let mut i: usize = 0;
    while i < attrs.len()
        invariant
            i <= attrs@.len(),
            out@ == start + row_annotations_of(attrs@.take(i as int)),
        decreases attrs@.len() - i,
    {
        proof {
            assert(attrs@.take(i + 1).drop_last() =~= attrs@.take(i as int));
            assert(attrs@.take(i + 1).last() == attrs@[i as int]);
        }
        if !is_projected_instruction_attribute(attrs[i].name.as_str()) {
            let a = annotation_of(&attrs[i]);
            out.push(a);
        }
        proof {
            assert(out@ =~= start + row_annotations_of(attrs@.take(i + 1)));
        }
        i = i + 1;
    }
    proof {
        assert(attrs@.take(attrs@.len() as int) =~= attrs@);
    }
}

/// Appends the annotations of a stage event with these attributes, named by the
/// attribute `name_attribute`.
pub fn push_stage_annotations(out: &mut Vec<KonataAnnotation>, attrs: &Vec<TxAttribute>, name_attribute: &str)
    ensures
        final(out)@ == old(out)@ + stage_annotations_of(attrs@, name_attribute@),
{
    let ghost start = out@;
    let mut i: usize = 0;
    while i < attrs.len()
        invariant
            i <= attrs@.len(),
            out@ == start + stage_annotations_of(attrs@.take(i as int), name_attribute@),
        decreases attrs@.len() - i,
    {
        proof {
            assert(attrs@.take(i + 1).drop_last() =~= attrs@.take(i as int));
            assert(attrs@.take(i + 1).last() == attrs@[i as int]);
        }
        let a = &attrs[i];
        let keep = if str_eq(a.name.as_str(), name_attribute) {
            false
        } else if str_eq(a.name.as_str(), "lane") {
            typed_key(&a.value).is_none()
        } else {
            true
        };
        if keep {
            let annotation = annotation_of(a);
            out.push(annotation);
        }
        proof {
            assert(out@ =~= start + stage_annotations_of(attrs@.take(i + 1), name_attribute@));
        }
        i = i + 1;
    }
    proof {
        assert(attrs@.take(attrs@.len() as int) =~= attrs@);
    }
}

/// `offsets` indexes `rows` rows into a list of `len` annotations: one offset more than
/// rows, from 0 to `len`, never decreasing.
pub open spec fn annotation_index_ok(offsets: Seq<u32>, rows: int, len: int) -> bool {
    &&& offsets.len() == rows + 1
    &&& offsets[0] == 0
    &&& offsets[rows] == len
    &&& forall|i: int, j: int| 0 <= i <= j <= rows ==> offsets[i] <= offsets[j]
}

/// The annotations a pending stage owns.
pub open spec fn event_span(ev: PendingStage) -> int {
    ev.annotation_end - ev.annotation_start
}

/// The annotations owned by the events of the first `k` stages, counted.
pub open spec fn gathered_before(events: Seq<PendingStage>, src: Seq<int>, k: int) -> int
    decreases k,
{
    if k <= 0 {
        0
    } else {
        gathered_before(events, src, k - 1) + event_span(events[src[k - 1]])
    }
}

/// The stages own, one after another, copies of the annotations of their events: stage
/// `k` owns `annotations[start..end]`, which holds the annotations of event `src[k]` in
/// the pending list, and the stages own all of `annotations`.
pub open spec fn annotations_gathered(
    stages: Seq<KonataStage>,
    src: Seq<int>,
    events: Seq<PendingStage>,
    pending: Seq<KonataAnnotation>,
    annotations: Seq<KonataAnnotation>,
) -> bool {
    &&& annotations.len() == gathered_before(events, src, stages.len() as int)
    &&& forall|k: int|
        0 <= k < stages.len() ==> {
            let ev = events[src[k]];
            &&& (#[trigger] stages[k]).annotation_start == gathered_before(events, src, k)
            &&& stages[k].annotation_end == gathered_before(events, src, k) + event_span(ev)
            &&& annotations.subrange(stages[k].annotation_start as int, stages[k].annotation_end as int)
                == pending.subrange(ev.annotation_start as int, ev.annotation_end as int)
        }
}

/// The stage with its annotation range replaced by none, as the attaching of events
/// leaves it.
pub open spec fn unannotated(s: KonataStage) -> KonataStage {
    KonataStage { annotation_start: 0, annotation_end: 0, ..s }
}

pub proof fn lemma_gathered_monotone(events: Seq<PendingStage>, src: Seq<int>, a: int, b: int)
    requires
        0 <= a <= b,
        forall|k: int| 0 <= k < b ==> 0 <= #[trigger] src[k] < events.len(),
        forall|i: int| 0 <= i < events.len() ==> (#[trigger] events[i]).annotation_start <= events[i].annotation_end,
    ensures
        0 <= gathered_before(events, src, a) <= gathered_before(events, src, b),
    decreases b,
{
    if b > a {
        lemma_gathered_monotone(events, src, a, b - 1);
        assert(0 <= src[b - 1] < events.len());
        assert(events[src[b - 1]].annotation_start <= events[src[b - 1]].annotation_end);
    } else if a > 0 {
        lemma_gathered_monotone(events, src, a - 1, a - 1);
        assert(0 <= src[a - 1] < events.len());
        assert(events[src[a - 1]].annotation_start <= events[src[a - 1]].annotation_end);
    }
}

/// The annotations owned by all pending stages, counted.
pub open spec fn events_total(events: Seq<PendingStage>) -> int
    decreases events.len(),
{
    if events.len() == 0 {
        0
    } else {
        events_total(events.drop_last()) + event_span(events.last())
    }
}

/// Counting the first `k` stages only reads their events.
proof fn lemma_gathered_prefix(events: Seq<PendingStage>, a: Seq<int>, b: Seq<int>, k: int)
    requires
        0 <= k <= a.len(),
        k <= b.len(),
        forall|j: int| 0 <= j < k ==> a[j] == b[j],
    ensures
        gathered_before(events, a, k) == gathered_before(events, b, k),
    decreases k,
{
    if k > 0 {
        lemma_gathered_prefix(events, a, b, k - 1);
    }
}

/// Counting stages by their events does not depend on the events they do not name.
proof fn lemma_gathered_events(e1: Seq<PendingStage>, e2: Seq<PendingStage>, src: Seq<int>, k: int)
    requires
        0 <= k <= src.len(),
        forall|j: int| 0 <= j < k ==> 0 <= #[trigger] src[j] < e1.len() && src[j] < e2.len() && e1[src[j]] == e2[src[j]],
    ensures
        gathered_before(e1, src, k) == gathered_before(e2, src, k),
    decreases k,
{
    if k > 0 {
        lemma_gathered_events(e1, e2, src, k - 1);
        assert(0 <= src[k - 1] < e1.len());
    }
}

/// Taking one stage out of the count takes its event's annotations out.
proof fn lemma_gathered_remove(events: Seq<PendingStage>, src: Seq<int>, p: int)
    requires
        0 <= p < src.len(),
    ensures
        gathered_before(events, src, src.len() as int) == gathered_before(events, src.remove(p), src.len() - 1)
            + event_span(events[src[p]]),
    decreases src.len(),
{
    let n = src.len() as int;
    if p == n - 1 {
        lemma_gathered_prefix(events, src, src.remove(p), n - 1);
    } else {
        let t = src.drop_last();
        lemma_gathered_remove(events, t, p);
        lemma_gathered_prefix(events, src, t, n - 1);
        assert(src.remove(p).drop_last() =~= t.remove(p));
        lemma_gathered_prefix(events, src.remove(p), t.remove(p), n - 2);
        assert(src.remove(p)[n - 2] == src[n - 1]);
    }
}

/// Distinct stages own no more annotations than all events together.
proof fn lemma_gathered_subset(events: Seq<PendingStage>, src: Seq<int>)
    requires
        forall|j: int| 0 <= j < src.len() ==> 0 <= #[trigger] src[j] < events.len(),
        forall|j1: int, j2: int| 0 <= j1 < j2 < src.len() ==> #[trigger] src[j1] != #[trigger] src[j2],
        forall|i: int| 0 <= i < events.len() ==> (#[trigger] events[i]).annotation_start <= events[i].annotation_end,
    ensures
        gathered_before(events, src, src.len() as int) <= events_total(events),
    decreases events.len(),
{
    let n = events.len() as int;
    if n == 0 {
        if src.len() > 0 {
            assert(0 <= src[0] < 0);
        }
    } else {
        let last = n - 1;
        let rest = events.drop_last();
        if exists|p: int| 0 <= p < src.len() && src[p] == last {
            let p = choose|p: int| 0 <= p < src.len() && src[p] == last;
            let s2 = src.remove(p);
            lemma_gathered_remove(events, src, p);
            assert forall|j: int| 0 <= j < s2.len() implies 0 <= #[trigger] s2[j] < rest.len() by {
                let j2 = if j < p { j } else { j + 1 };
                assert(s2[j] == src[j2]);
                if src[j2] == last {
                    if j2 < p {
                        assert(src[j2] != src[p]);
                    } else {
                        assert(src[p] != src[j2]);
                    }
                }
            }
            assert forall|j1: int, j2: int| 0 <= j1 < j2 < s2.len() implies #[trigger] s2[j1] != #[trigger] s2[j2] by {
                let a = if j1 < p { j1 } else { j1 + 1 };
                let b = if j2 < p { j2 } else { j2 + 1 };
                assert(s2[j1] == src[a] && s2[j2] == src[b]);
            }
            lemma_gathered_events(events, rest, s2, s2.len() as int);
            lemma_gathered_subset(rest, s2);
        } else {
            assert forall|j: int| 0 <= j < src.len() implies 0 <= #[trigger] src[j] < rest.len() by {
                assert(src[j] != last);
            }
            lemma_gathered_events(events, rest, src, src.len() as int);
            lemma_gathered_subset(rest, src);
            assert(events[last].annotation_start <= events[last].annotation_end);
        }
    }
}

/// The first `k` stages own no more annotations than all events together.
proof fn lemma_gathered_bounded(events: Seq<PendingStage>, src: Seq<int>, k: int)
    requires
        0 <= k <= src.len(),
        forall|j: int| 0 <= j < src.len() ==> 0 <= #[trigger] src[j] < events.len(),
        forall|j1: int, j2: int| 0 <= j1 < j2 < src.len() ==> #[trigger] src[j1] != #[trigger] src[j2],
        forall|i: int| 0 <= i < events.len() ==> (#[trigger] events[i]).annotation_start <= events[i].annotation_end,
    ensures
        gathered_before(events, src, k) <= events_total(events),
{
    let t = src.take(k);
    lemma_gathered_prefix(events, src, t, k);
    lemma_gathered_subset(events, t);
}

/// Gives every stage, in order, a copy of the annotations of its event (`order[k]` is the
/// event of stage `k`), and returns the copies, one stage after another.
pub fn gather_stage_annotations(
    stages: &mut Vec<KonataStage>,
    order: &Vec<u32>,
    events: &Vec<PendingStage>,
    pending: &Vec<KonataAnnotation>,
) -> (annotations: Vec<KonataAnnotation>)
    requires
        order@.len() == old(stages)@.len(),
        forall|k: int| 0 <= k < order@.len() ==> (#[trigger] order@[k] as int) < events@.len(),
        forall|i: int|
            0 <= i < events@.len() ==> (#[trigger] events@[i]).annotation_start <= events@[i].annotation_end
                <= pending@.len(),
        forall|k1: int, k2: int| 0 <= k1 < k2 < order@.len() ==> #[trigger] order@[k1] != #[trigger] order@[k2],
        events_total(events@) <= u32::MAX,
    ensures
        final(stages)@.len() == old(stages)@.len(),
        forall|k: int| 0 <= k < old(stages)@.len() ==> #[trigger] unannotated(final(stages)@[k]) == unannotated(old(stages)@[k]),
        annotations_gathered(
            final(stages)@,
            order@.map_values(|i: u32| i as int),
            events@,
            pending@,
            annotations@,
        ),
        annotations@.len() <= events_total(events@),
{
    let ghost src = order@.map_values(|i: u32| i as int);
    let ghost before = stages@;
    proof {
        assert forall|j: int| 0 <= j < src.len() implies 0 <= #[trigger] src[j] < events@.len() by {
            assert(src[j] == order@[j] as int);
        }
        assert forall|j1: int, j2: int| 0 <= j1 < j2 < src.len() implies #[trigger] src[j1] != #[trigger] src[j2] by {
            assert(src[j1] == order@[j1] as int);
            assert(src[j2] == order@[j2] as int);
        }
    }
    let mut annotations: Vec<KonataAnnotation> = Vec::new();
    let mut k: usize = 0;
    while k < stages.len()
        invariant
            k <= stages@.len(),
            stages@.len() == before.len(),
            order@.len() == before.len(),
            src == order@.map_values(|i: u32| i as int),
            src.len() == before.len(),
            forall|j: int| 0 <= j < src.len() ==> 0 <= #[trigger] src[j] < events@.len(),
            forall|j1: int, j2: int| 0 <= j1 < j2 < src.len() ==> #[trigger] src[j1] != #[trigger] src[j2],
            forall|j: int| 0 <= j < order@.len() ==> (#[trigger] order@[j] as int) < events@.len(),
            forall|i: int|
                0 <= i < events@.len() ==> (#[trigger] events@[i]).annotation_start <= events@[i].annotation_end
                    <= pending@.len(),
            forall|k1: int, k2: int| 0 <= k1 < k2 < order@.len() ==> #[trigger] order@[k1] != #[trigger] order@[k2],
            events_total(events@) <= u32::MAX,
            forall|j: int| 0 <= j < before.len() ==> #[trigger] unannotated(stages@[j]) == unannotated(before[j]),
            annotations@.len() == gathered_before(events@, src, k as int),
            forall|j: int|
                0 <= j < k ==> {
                    let ev = events@[src[j]];
                    &&& (#[trigger] stages@[j]).annotation_start == gathered_before(events@, src, j)
                    &&& stages@[j].annotation_end == gathered_before(events@, src, j) + event_span(ev)
                    &&& annotations@.subrange(stages@[j].annotation_start as int, stages@[j].annotation_end as int)
                        == pending@.subrange(ev.annotation_start as int, ev.annotation_end as int)
                },
        decreases before.len() - k,
    {
        let i = order[k] as usize;
        let ev = events[i];
        let ghost base = annotations@;
        proof {
            assert(src[k as int] == i as int);
            assert forall|j: int| 0 <= j < k + 1 implies 0 <= #[trigger] src[j] < events@.len() by {
                assert(src[j] == order@[j] as int);
            }
            lemma_gathered_monotone(events@, src, k as int, k + 1);
            assert(gathered_before(events@, src, k + 1) == base.len() + event_span(ev));
            lemma_gathered_bounded(events@, src, k + 1);
        }
        let start = annotations.len();
        let mut t = ev.annotation_start as usize;
        while t < ev.annotation_end as usize
            invariant
                ev.annotation_start <= t <= ev.annotation_end <= pending@.len(),
                annotations@.len() == base.len() + (t - ev.annotation_start),
                annotations@.subrange(0, base.len() as int) == base,
                annotations@.subrange(base.len() as int, annotations@.len() as int) == pending@.subrange(
                    ev.annotation_start as int,
                    t as int,
                ),
            decreases ev.annotation_end - t,
        {
            let copy = copy_annotation(&pending[t]);
            annotations.push(copy);
            proof {
                assert(annotations@.subrange(0, base.len() as int) =~= base);
                assert(annotations@.subrange(base.len() as int, annotations@.len() as int) =~= pending@.subrange(
                    ev.annotation_start as int,
                    t + 1,
                ));
            }
            t = t + 1;
        }
        let end = annotations.len();
        let ghost old_stage = stages@[k as int];
        let mut stage = stages[k];
        stage.annotation_start = start as u32;
        stage.annotation_end = end as u32;
        let ghost prev = stages@;
        stages.set(k, stage);
        proof {
            assert forall|j: int| 0 <= j < k + 1 implies {
                let e = events@[src[j]];
                &&& (#[trigger] stages@[j]).annotation_start == gathered_before(events@, src, j)
                &&& stages@[j].annotation_end == gathered_before(events@, src, j) + event_span(e)
                &&& annotations@.subrange(stages@[j].annotation_start as int, stages@[j].annotation_end as int)
                    == pending@.subrange(e.annotation_start as int, e.annotation_end as int)
            } by {
                if j < k {
                    let e = events@[src[j]];
                    assert(stages@[j] == prev[j]);
                    lemma_gathered_monotone(events@, src, j + 1, k as int);
                    lemma_gathered_monotone(events@, src, 0, j);
                    assert(0 <= src[j] < events@.len()) by {
                        assert(src[j] == order@[j] as int);
                    }
                    assert(annotations@.subrange(stages@[j].annotation_start as int, stages@[j].annotation_end as int)
                        =~= base.subrange(stages@[j].annotation_start as int, stages@[j].annotation_end as int));
                } else {
                    assert(annotations@.subrange(start as int, end as int) =~= annotations@.subrange(
                        base.len() as int,
                        annotations@.len() as int,
                    ));
                }
            }
            assert forall|j: int| 0 <= j < before.len() implies #[trigger] unannotated(stages@[j]) == unannotated(before[j]) by {
                if j != k {
                    assert(stages@[j] == prev[j]);
                } else {
                    assert(stages@[j] == stage);
                    assert(unannotated(stage) =~= unannotated(prev[j]));
                }
            }
        }
        k = k + 1;
    }
    proof {
        lemma_gathered_bounded(events@, src, before.len() as int);
    }
    annotations
}

} // verus!
