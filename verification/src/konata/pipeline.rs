//! The whole projection of a trace stream into a pipeline model: the relations attach the
//! stage events to their instructions, the transactions become rows and pending stages,
//! and the model is built from both.
use vstd::prelude::*;
use crate::konata::construct::built_from;
use crate::konata::index::indexes_rows;
use crate::konata::model::KonataModel;
use crate::konata::projection::{KonataRelationProjection, ProjectedEventParent};
use crate::konata::records::{
    attribute_total, lemma_row_holds_extends, missing_rids, regressions, rows_hold, stages_hold, txs_from, KonataRecordProjector,
};
use crate::konata::relations::{relations_fold, tx_ids, KonataRelationProjector};
use crate::konata::trace::{TxRecord, TxRelationRecord};

verus! {

/// The transactions of one stream that a model is built from: the instruction
/// transactions of the parent generator, the stage transactions of the event generator,
/// and the stream's relations.
pub struct KonataBuildInput {
    pub parent_generator: u64,
    pub event_generator: u64,
    pub stream: u64,
    pub parents: Vec<TxRecord>,
    pub events: Vec<TxRecord>,
    pub relations: Vec<TxRelationRecord>,
}

/// The instruction list holds transactions of the parent generator, the stage list those
/// of the (other) event generator, and there are few enough of them, and of their
/// attributes, for the `u32` string, key, row and annotation ids of the model.
pub open spec fn input_ok(input: KonataBuildInput) -> bool {
    &&& input.parent_generator != input.event_generator
    &&& forall|k: int| 0 <= k < input.parents@.len() ==> (#[trigger] input.parents@[k]).generator == input.parent_generator
    &&& forall|k: int| 0 <= k < input.events@.len() ==> (#[trigger] input.events@[k]).generator == input.event_generator
    &&& 3 * (input.parents@.len() + input.events@.len()) + input.relations@.len() + 2 < u32::MAX
    &&& attribute_total(input.parents@) + attribute_total(input.events@) <= u32::MAX
}

/// The records hold the instructions of the input as rows and its stage events as pending
/// stages, with the regressions and missing retire ids counted.
pub open spec fn records_hold(records: KonataRecordProjector, input: KonataBuildInput, name_attribute: Seq<char>) -> bool {
    &&& rows_hold(records, 0, input.parents@, None)
    &&& stages_hold(records, 0, input.events@, name_attribute)
    &&& records.quality.begin_regressions == regressions(input.parents@, None)
    &&& records.quality.missing_rid == missing_rids(input.parents@)
    &&& records.quality.orphans == 0
    &&& records.quality.multiple_parents == 0
    &&& records.quality.unnamed_stages == 0
    &&& records.quality.out_of_range == 0
    &&& records.quality.end_before_start == 0
    &&& records.quality.unknown_lanes == 0
    &&& records.quality.duplicate_rid == 0
}

/// The projection is the relations of the input applied in turn to the instructions and
/// stage events of the input, with no event attached at first.
pub open spec fn projects_relations(
    projection: KonataRelationProjection,
    input: KonataBuildInput,
    parent_relation: Seq<char>,
) -> bool {
    exists|parent_rows: Seq<(u64, u32)>, event_indices: Seq<(u64, u32)>|
        #[trigger] indexes_rows(parent_rows, tx_ids(input.parents@), false) && #[trigger] indexes_rows(
            event_indices,
            tx_ids(input.events@),
            false,
        ) && ({
            let fold = relations_fold(
                parent_rows,
                event_indices,
                input.stream,
                parent_relation,
                Seq::new(input.events@.len(), |i: int| ProjectedEventParent::empty_spec()),
                Seq::empty(),
                0,
                input.relations@,
            );
            projection.event_parents@ == fold.0 && projection.dependencies@ == fold.1
        })
}

/// The projection fits the input: one parent entry per stage event, attached entries name
/// instruction rows, and few enough edges for the model's ids.
pub open spec fn projection_fits(projection: KonataRelationProjection, input: KonataBuildInput) -> bool {
    &&& projection.event_parents@.len() == input.events@.len()
    &&& forall|e: int|
        0 <= e < projection.event_parents@.len() && (#[trigger] projection.event_parents@[e]).count > 0 ==> (
        projection.event_parents@[e].first_row as int) < input.parents@.len()
    &&& 3 * (input.parents@.len() + input.events@.len()) + projection.dependencies@.len() + 2 < u32::MAX
}

/// `txs_from` keeps every transaction of a list that holds only its generator.
proof fn lemma_txs_from_all(txs: Seq<TxRecord>, generator: u64, skip: Option<u64>)
    requires
        skip != Some(generator),
        forall|k: int| 0 <= k < txs.len() ==> (#[trigger] txs[k]).generator == generator,
    ensures
        txs_from(txs, generator, skip) == txs,
    decreases txs.len(),
{
    if txs.len() > 0 {
        lemma_txs_from_all(txs.drop_last(), generator, skip);
        assert(txs.drop_last().push(txs.last()) =~= txs);
    }
}

/// `txs_from` keeps nothing of a list that holds only another generator, or only the
/// skipped one.
proof fn lemma_txs_from_none(txs: Seq<TxRecord>, generator: u64, skip: Option<u64>, other: u64)
    requires
        other != generator || skip == Some(other),
        forall|k: int| 0 <= k < txs.len() ==> (#[trigger] txs[k]).generator == other,
    ensures
        txs_from(txs, generator, skip) == Seq::<TxRecord>::empty(),
    decreases txs.len(),
{
    if txs.len() > 0 {
        lemma_txs_from_none(txs.drop_last(), generator, skip, other);
    }
}

impl KonataModel {
    /// Builds the model of the input: projects its relations, then builds from them.
    pub fn build(input: &KonataBuildInput, event_name_attribute: String, parent_relation: String) -> (model: KonataModel)
        requires
            input_ok(*input),
        ensures
            model.wf(),
            exists|records: KonataRecordProjector, projection: KonataRelationProjection|
                #[trigger] built_from(model, records, projection) && records_hold(records, *input, event_name_attribute@)
                    && projects_relations(projection, *input, parent_relation@),
    {
        let mut projector = KonataRelationProjector::new(
            input.parents.as_slice(),
            input.events.as_slice(),
            input.stream,
            parent_relation,
        );
        let ghost start = projector;
        projector.push(input.relations.as_slice());
        let projection = projector.finish();
        proof {
            assert(start.event_parents@ =~= Seq::new(input.events@.len(), |i: int| ProjectedEventParent::empty_spec()));
            assert(start.dependencies@ =~= Seq::<crate::konata::projection::ProjectedDependency>::empty());
            assert(indexes_rows(start.parent_rows@, tx_ids(input.parents@), false));
            assert(indexes_rows(start.event_indices@, tx_ids(input.events@), false));
            assert(projects_relations(projection, *input, start.parent_relation@));
        }
        Self::build_projected(input, event_name_attribute, projection)
    }

    /// Builds the model of the input from the projection of its relations: the
    /// instructions become rows and the stage events pending stages, and the model is
    /// built from them and the projection.
    #[verifier::rlimit(60)]
    pub fn build_projected(
        input: &KonataBuildInput,
        event_name_attribute: String,
        projection: KonataRelationProjection,
    ) -> (model: KonataModel)
        requires
            input_ok(*input),
            projection_fits(projection, *input),
        ensures
            model.wf(),
            exists|records: KonataRecordProjector|
                #[trigger] built_from(model, records, projection) && records_hold(records, *input, event_name_attribute@),
    {
        let ghost attr = event_name_attribute@;
        let ghost parents = input.parents@;
        let ghost events = input.events@;
        let ghost pg = input.parent_generator;
        let ghost eg = input.event_generator;
        let mut records = KonataRecordProjector::new(
            input.parent_generator,
            input.event_generator,
            input.stream,
            input.parents.len(),
            event_name_attribute,
        );
        proof {
            crate::konata::records::lemma_attribute_total_nonneg(input.parents@);
            crate::konata::records::lemma_attribute_total_nonneg(input.events@);
        }
        records.push(input.parents.as_slice());
        let ghost r1 = records;
        proof {
            lemma_txs_from_all(parents, pg, None);
            lemma_txs_from_none(parents, eg, Some(pg), pg);
        }
        records.push(input.events.as_slice());
        let ghost r2 = records;
        proof {
            lemma_txs_from_none(events, pg, None, eg);
            lemma_txs_from_all(events, eg, Some(pg));
            assert forall|k: int| 0 <= k < parents.len() implies crate::konata::records::row_holds(
                r2,
                0 + k,
                #[trigger] parents[k],
                crate::konata::records::begin_before(parents, k, None),
            ) by {
                assert(crate::konata::records::row_holds(r1, 0 + k, parents[k], crate::konata::records::begin_before(parents, k, None)));
                lemma_row_holds_extends(r1, r2, k, parents[k], crate::konata::records::begin_before(parents, k, None));
            }
            assert(records_hold(r2, *input, attr));
        }
        let model = records.finish(projection);
        proof {
            assert(built_from(model, r2, projection));
        }
        model
    }
}

} // verus!
