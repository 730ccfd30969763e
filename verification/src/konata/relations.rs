//! Projection of the trace relations: the relations that attach stage events to their
//! instruction rows, and the relations between known transactions that may become
//! dependency edges.
use vstd::prelude::*;
use crate::konata::index::{build_row_index, indexes_rows, sorted_id_lookup, sorted_pairs};
use crate::konata::projection::{KonataRelationProjection, ProjectedDependency, ProjectedEventParent};
use crate::konata::trace::{TxRecord, TxRelationRecord};

verus! {

/// The smallest row stored under `key` in the index, if any.
pub open spec fn first_in(index: Seq<(u64, u32)>, key: u64) -> Option<u32> {
    if exists|i: int| 0 <= i < index.len() && (#[trigger] index[i]).0 == key {
        Some(
            choose|r: u32|
                index.contains((key, r)) && forall|i: int| 0 <= i < index.len() && (#[trigger] index[i]).0 == key ==> r <= index[i].1,
        )
    } else {
        None
    }
}

/// Looks up the smallest row stored under `key`.
fn lookup_first(index: &Vec<(u64, u32)>, key: u64) -> (row: Option<u32>)
    requires
        sorted_pairs(index@),
    ensures
        row == first_in(index@, key),
        row matches Some(r) ==> index@.contains((key, r)),
{
    proof {
        crate::konata::index::lemma_sorted_pairs_keys(index@);
    }
    let row = sorted_id_lookup(index.as_slice(), key);
    proof {
        match row {
            Some(r) => {
                let j = choose|j: int| 0 <= j < index@.len() && index@[j] == (key, r);
                assert(index@[j].0 == key);
                let c = choose|c: u32|
                    index@.contains((key, c)) && forall|i: int| 0 <= i < index@.len() && (#[trigger] index@[i]).0 == key ==> c <= index@[i].1;
                let jc = choose|jc: int| 0 <= jc < index@.len() && index@[jc] == (key, c);
                assert(index@[jc].0 == key);
                assert(c <= index@[j].1);
                assert(r <= index@[jc].1);
            },
            None => {},
        }
    }
    row
}

/// The ids of the transactions, in order.
pub open spec fn tx_ids(txs: Seq<TxRecord>) -> Seq<u64> {
    txs.map_values(|tx: TxRecord| tx.tx_id)
}

/// Collects the ids of the transactions, in order.
fn collect_tx_ids(txs: &[TxRecord]) -> (ids: Vec<u64>)
    ensures
        ids@ == tx_ids(txs@),
{
    let mut ids: Vec<u64> = Vec::with_capacity(txs.len());
    let mut i: usize = 0;
    while i < txs.len()
        invariant
            i <= txs.len(),
            ids@ == tx_ids(txs@.take(i as int)),
        decreases txs.len() - i,
    {
        ids.push(txs[i].tx_id);
        proof {
            assert(tx_ids(txs@.take(i + 1)) =~= tx_ids(txs@.take(i as int)).push(txs@[i as int].tx_id));
        }
        i = i + 1;
    }
    proof {
        assert(txs@.take(txs.len() as int) =~= txs@);
    }
    ids
}

/// The parent entry after one more parent row: the first parent stays, the count
/// saturates.
pub open spec fn parent_after(pe: ProjectedEventParent, row: u32) -> ProjectedEventParent {
    ProjectedEventParent {
        first_row: if pe.count == 0 {
            row
        } else {
            pe.first_row
        },
        count: if pe.count == u32::MAX {
            u32::MAX
        } else {
            (pe.count + 1) as u32
        },
    }
}

/// The event parents and candidate edges after one relation.
pub open spec fn relation_step(
    parent_rows: Seq<(u64, u32)>,
    event_indices: Seq<(u64, u32)>,
    stream: u64,
    parent_relation: Seq<char>,
    parents: Seq<ProjectedEventParent>,
    deps: Seq<ProjectedDependency>,
    order: u64,
    rel: TxRelationRecord,
) -> (Seq<ProjectedEventParent>, Seq<ProjectedDependency>) {
    if rel.name@ == parent_relation && rel.source_stream == stream && first_in(event_indices, rel.sink_tx) is Some {
        match first_in(parent_rows, rel.source_tx) {
            Some(row) => {
                let e = first_in(event_indices, rel.sink_tx).unwrap() as int;
                (parents.update(e, parent_after(parents[e], row)), deps)
            },
            None => (parents, deps),
        }
    } else if rel.source_stream != stream || rel.sink_stream != stream {
        (parents, deps)
    } else if (first_in(parent_rows, rel.source_tx) is Some || first_in(event_indices, rel.source_tx) is Some) && (first_in(
        parent_rows,
        rel.sink_tx,
    ) is Some || first_in(event_indices, rel.sink_tx) is Some) {
        (
            parents,
            deps.push(
                ProjectedDependency { input_order: order, name: rel.name, source_tx: rel.source_tx, sink_tx: rel.sink_tx },
            ),
        )
    } else {
        (parents, deps)
    }
}

/// The event parents, candidate edges and next input order after the relations in turn.
pub open spec fn relations_fold(
    parent_rows: Seq<(u64, u32)>,
    event_indices: Seq<(u64, u32)>,
    stream: u64,
    parent_relation: Seq<char>,
    parents: Seq<ProjectedEventParent>,
    deps: Seq<ProjectedDependency>,
    order: u64,
    rels: Seq<TxRelationRecord>,
) -> (Seq<ProjectedEventParent>, Seq<ProjectedDependency>, u64)
    decreases rels.len(),
{
    if rels.len() == 0 {
        (parents, deps, order)
    } else {
        let prev = relations_fold(parent_rows, event_indices, stream, parent_relation, parents, deps, order, rels.drop_last());
        let next = relation_step(parent_rows, event_indices, stream, parent_relation, prev.0, prev.1, prev.2, rels.last());
        (next.0, next.1, vstd::wrapping::u64_specs::wrapping_add(prev.2, 1))
    }
}

/// Attaches stage events to instruction rows and collects the candidate dependency edges
/// of one stream, relation batch by relation batch.
pub struct KonataRelationProjector {
    pub stream: u64,
    pub parent_relation: String,
    pub row_count: usize,
    pub parent_rows: Vec<(u64, u32)>,
    pub event_indices: Vec<(u64, u32)>,
    pub event_parents: Vec<ProjectedEventParent>,
    pub dependencies: Vec<ProjectedDependency>,
    pub next_input_order: u64,
}

impl KonataRelationProjector {
    /// The indexes are sorted and name existing rows and events.
    pub open spec fn wf(&self) -> bool {
        &&& sorted_pairs(self.parent_rows@)
        &&& sorted_pairs(self.event_indices@)
        &&& forall|i: int| 0 <= i < self.parent_rows@.len() ==> ((#[trigger] self.parent_rows@[i]).1 as int) < self.row_count
        &&& forall|i: int|
            0 <= i < self.event_indices@.len() ==> ((#[trigger] self.event_indices@[i]).1 as int) < self.event_parents@.len()
        &&& forall|e: int|
            0 <= e < self.event_parents@.len() && (#[trigger] self.event_parents@[e]).count > 0 ==> (
            self.event_parents@[e].first_row as int) < self.row_count
    }

    /// A projector for the instruction transactions `parents` (row `r` is `parents[r]`)
    /// and the stage transactions `events` of `stream`.
    pub fn new(parents: &[TxRecord], events: &[TxRecord], stream: u64, parent_relation: String) -> (projector: Self)
        requires
            parents.len() <= u32::MAX,
            events.len() <= u32::MAX,
        ensures
            projector.wf(),
            projector.stream == stream,
            projector.parent_relation@ == parent_relation@,
            projector.row_count == parents.len(),
            indexes_rows(projector.parent_rows@, tx_ids(parents@), false),
            indexes_rows(projector.event_indices@, tx_ids(events@), false),
            projector.event_parents@.len() == events.len(),
            forall|e: int| 0 <= e < projector.event_parents@.len() ==> #[trigger] projector.event_parents@[e]
                == ProjectedEventParent::empty_spec(),
            projector.dependencies@.len() == 0,
            projector.next_input_order == 0,
    {
        let parent_ids = collect_tx_ids(parents);
        let event_ids = collect_tx_ids(events);
        Self::from_ids(&parent_ids, &event_ids, stream, parent_relation)
    }

    /// A projector for the instruction transactions `parent_ids` (row `r` has id
    /// `parent_ids[r]`) and the stage transactions `event_ids` of `stream`.
    pub fn from_ids(parent_ids: &Vec<u64>, event_ids: &Vec<u64>, stream: u64, parent_relation: String) -> (projector: Self)
        requires
            parent_ids.len() <= u32::MAX,
            event_ids.len() <= u32::MAX,
        ensures
            projector.wf(),
            projector.stream == stream,
            projector.parent_relation@ == parent_relation@,
            projector.row_count == parent_ids.len(),
            indexes_rows(projector.parent_rows@, parent_ids@, false),
            indexes_rows(projector.event_indices@, event_ids@, false),
            projector.event_parents@.len() == event_ids.len(),
            forall|e: int| 0 <= e < projector.event_parents@.len() ==> #[trigger] projector.event_parents@[e]
                == ProjectedEventParent::empty_spec(),
            projector.dependencies@.len() == 0,
            projector.next_input_order == 0,
    {
        let parent_rows = build_row_index(parent_ids, false);
        let event_indices = build_row_index(event_ids, false);
        let mut event_parents: Vec<ProjectedEventParent> = Vec::with_capacity(event_ids.len());
        let mut i: usize = 0;
        while i < event_ids.len()
            invariant
                i <= event_ids.len(),
                event_parents@.len() == i,
                forall|e: int| 0 <= e < i ==> #[trigger] event_parents@[e] == ProjectedEventParent::empty_spec(),
            decreases event_ids.len() - i,
        {
            event_parents.push(ProjectedEventParent::none());
            i = i + 1;
        }
        KonataRelationProjector {
            stream,
            parent_relation,
            row_count: parent_ids.len(),
            parent_rows,
            event_indices,
            event_parents,
            dependencies: Vec::new(),
            next_input_order: 0,
        }
    }

    /// Applies the relations in turn: a relation named after the parent relation from this
    /// stream to a known event attaches the event to its source row (when that is a known
    /// row); any other relation within this stream between two known transactions becomes
    /// a candidate edge. Every relation takes the next input order.
    pub fn push(&mut self, relations: &[TxRelationRecord])
        requires
            old(self).wf(),
        ensures
            final(self).wf(),
            final(self).stream == old(self).stream,
            final(self).parent_relation@ == old(self).parent_relation@,
            final(self).row_count == old(self).row_count,
            final(self).parent_rows@ == old(self).parent_rows@,
            final(self).event_indices@ == old(self).event_indices@,
            (final(self).event_parents@, final(self).dependencies@, final(self).next_input_order) == relations_fold(
                old(self).parent_rows@,
                old(self).event_indices@,
                old(self).stream,
                old(self).parent_relation@,
                old(self).event_parents@,
                old(self).dependencies@,
                old(self).next_input_order,
                relations@,
            ),
            final(self).event_parents@.len() == old(self).event_parents@.len(),
            final(self).dependencies@.len() <= old(self).dependencies@.len() + relations.len(),
    {
        let mut i: usize = 0;
        while i < relations.len()
            invariant
                i <= relations.len(),
                self.wf(),
                self.stream == old(self).stream,
                self.parent_relation@ == old(self).parent_relation@,
                self.row_count == old(self).row_count,
                self.parent_rows@ == old(self).parent_rows@,
                self.event_indices@ == old(self).event_indices@,
                (self.event_parents@, self.dependencies@, self.next_input_order) == relations_fold(
                    old(self).parent_rows@,
                    old(self).event_indices@,
                    old(self).stream,
                    old(self).parent_relation@,
                    old(self).event_parents@,
                    old(self).dependencies@,
                    old(self).next_input_order,
                    relations@.take(i as int),
                ),
                self.event_parents@.len() == old(self).event_parents@.len(),
                self.dependencies@.len() <= old(self).dependencies@.len() + i,
            decreases relations.len() - i,
        {
            let relation = &relations[i];
            proof {
                assert(relations@.take(i + 1).drop_last() =~= relations@.take(i as int));
                assert(relations@.take(i + 1).last() == *relation);
            }
            let input_order = self.next_input_order;
            self.next_input_order = self.next_input_order.wrapping_add(1);
            let event = lookup_first(&self.event_indices, relation.sink_tx);
            let is_parent = relation.source_stream == self.stream && event.is_some() && crate::konata::texts::str_eq(
                relation.name.as_str(),
                self.parent_relation.as_str(),
            );
            if is_parent {
                let e = event.unwrap();
                proof {
                    let j = choose|j: int| 0 <= j < self.event_indices@.len() && self.event_indices@[j] == (relation.sink_tx, e);
                    assert((self.event_indices@[j].1 as int) < self.event_parents@.len());
                }
                if let Some(row) = lookup_first(&self.parent_rows, relation.source_tx) {
                    proof {
                        let j = choose|j: int| 0 <= j < self.parent_rows@.len() && self.parent_rows@[j] == (relation.source_tx, row);
                        assert((self.parent_rows@[j].1 as int) < self.row_count);
                    }
                    let mut projected = self.event_parents[e as usize];
                    if projected.count == 0 {
                        projected.first_row = row;
                    }
                    projected.count = projected.count.saturating_add(1);
                    self.event_parents.set(e as usize, projected);
                }
            } else if relation.source_stream == self.stream && relation.sink_stream == self.stream {
                let source_known = lookup_first(&self.parent_rows, relation.source_tx).is_some() || lookup_first(
                    &self.event_indices,
                    relation.source_tx,
                ).is_some();
                let sink_known = lookup_first(&self.parent_rows, relation.sink_tx).is_some() || lookup_first(
                    &self.event_indices,
                    relation.sink_tx,
                ).is_some();
                if source_known && sink_known {
                    self.dependencies.push(
                        ProjectedDependency {
                            input_order,
                            name: relation.name.clone(),
                            source_tx: relation.source_tx,
                            sink_tx: relation.sink_tx,
                        },
                    );
                }
            }
            i = i + 1;
        }
        proof {
            assert(relations@.take(relations.len() as int) =~= relations@);
        }
    }

    /// The event parents and candidate edges collected so far.
    pub fn finish(self) -> (projection: KonataRelationProjection)
        requires
            self.wf(),
        ensures
            projection.event_parents@ == self.event_parents@,
            projection.dependencies@ == self.dependencies@,
            forall|e: int|
                0 <= e < projection.event_parents@.len() && (#[trigger] projection.event_parents@[e]).count > 0 ==> (
                projection.event_parents@[e].first_row as int) < self.row_count,
    {
        KonataRelationProjection { event_parents: self.event_parents, dependencies: self.dependencies }
    }
}

/// Pushing relations in batches projects the same as pushing them at once: the fold over
/// `a + b` is the fold over `b` from where the fold over `a` ended.
pub proof fn lemma_fold_batches(
    parent_rows: Seq<(u64, u32)>,
    event_indices: Seq<(u64, u32)>,
    stream: u64,
    parent_relation: Seq<char>,
    parents: Seq<ProjectedEventParent>,
    deps: Seq<ProjectedDependency>,
    order: u64,
    a: Seq<TxRelationRecord>,
    b: Seq<TxRelationRecord>,
)
    ensures
        ({
            let mid = relations_fold(parent_rows, event_indices, stream, parent_relation, parents, deps, order, a);
            relations_fold(parent_rows, event_indices, stream, parent_relation, parents, deps, order, a + b)
                == relations_fold(parent_rows, event_indices, stream, parent_relation, mid.0, mid.1, mid.2, b)
        }),
    decreases b.len(),
{
    if b.len() == 0 {
        assert(a + b =~= a);
    } else {
        lemma_fold_batches(parent_rows, event_indices, stream, parent_relation, parents, deps, order, a, b.drop_last());
        assert((a + b).drop_last() =~= a + b.drop_last());
        assert((a + b).last() == b.last());
    }
}


} // verus!
