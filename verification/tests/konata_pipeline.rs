use std::sync::atomic::AtomicBool;
use libsurfer::konata::model::KonataModel;
use libsurfer::konata::pipeline::KonataBuildInput;
use libsurfer::konata::records::KonataRecordProjector;
use libsurfer::konata::trace::{AttrValue, TxAttribute, TxRecord, TxRelationRecord};
use libsurfer::konata::StageFlags;
use libsurfer::konata::KonataRowSet;
use libsurfer::konata::controller::{konata_step, KonataAction, KonataEvent, KonataFind, KonataNav};
use libsurfer::konata::rows::KonataSearchHits;

const NAME_ATTRIBUTE: &str = "stage_name";
const PARENT_RELATION: &str = "stage_of";

fn named(name: &str, value: AttrValue) -> TxAttribute {
    TxAttribute {
        begins: false,
        name: name.to_string(),
        value,
    }
}

fn tx(id: u64, generator: u64, start: u64, end: u64, name: Option<&str>) -> TxRecord {
    let mut attributes = Vec::new();
    if let Some(name) = name {
        attributes.push(TxAttribute {
            begins: true,
            name: NAME_ATTRIBUTE.to_string(),
            value: AttrValue::Text(name.to_string()),
        });
    }
    TxRecord {
        tx_id: id,
        generator,
        start,
        end,
        attributes,
    }
}

fn relation(name: &str, source: u64, sink: u64) -> TxRelationRecord {
    TxRelationRecord {
        name: name.to_string(),
        source_tx: source,
        sink_tx: sink,
        source_stream: 1,
        sink_stream: 1,
    }
}

fn build(parents: Vec<TxRecord>, events: Vec<TxRecord>, relations: Vec<TxRelationRecord>) -> KonataModel {
    let mut records =
        KonataRecordProjector::new(10, 11, 1, parents.len(), NAME_ATTRIBUTE.to_string());
    records.push(&parents);
    records.push(&events);
    let mut projector = records.relation_projector(PARENT_RELATION.to_string());
    projector.push(&relations);
    records.finish(projector.finish())
}

#[test]
fn malformed_pipeline_data_is_preserved_and_counted() {
    let mut invalid = tx(5, 11, 160, 150, None);
    invalid.attributes.push(named(
        "lane",
        AttrValue::FloatingPointNumber("1.5".to_string()),
    ));
    let parents = vec![tx(1, 10, 100, 200, None), tx(3, 10, 50, 180, None)];
    let events = vec![
        tx(2, 11, 90, 210, Some("X")),
        tx(4, 11, 120, 120, Some("orphan")),
        invalid,
    ];
    let relations = vec![
        relation(PARENT_RELATION, 1, 2),
        relation(PARENT_RELATION, 3, 2),
        relation(PARENT_RELATION, 1, 5),
        relation("wakeup", 1, 3),
    ];
    let model = build(parents, events, relations);

    assert_eq!(model.quality.orphans, 1);
    assert_eq!(model.quality.multiple_parents, 1);
    assert_eq!(model.quality.unnamed_stages, 1);
    assert_eq!(model.quality.out_of_range, 1);
    assert_eq!(model.quality.end_before_start, 1);
    assert_eq!(model.quality.begin_regressions, 1);
    assert_eq!(model.quality.unknown_lanes, 1);
    let stages = model.stages_for_row(0);
    assert_eq!(stages.len(), 2);
    assert_eq!((stages[0].start, stages[0].end), (90, 210));
    assert!(stages[0].flags.contains(StageFlags::OUT_OF_RANGE));
    assert!(stages[0].flags.contains(StageFlags::MULTIPLE_PARENTS));
    assert_eq!((stages[1].start, stages[1].end), (160, 150));
    assert!(stages[1].flags.contains(StageFlags::END_BEFORE_START));
    assert!(stages[1].flags.contains(StageFlags::UNNAMED));
    assert_eq!(model.lane_name(stages[1].lane), "<unknown lane 1.5>");
    assert!(
        model
            .annotations_for_stage(&stages[1])
            .iter()
            .any(|annotation| annotation.name == "lane"
                && matches!(&annotation.value, AttrValue::FloatingPointNumber(text) if text == "1.5"))
    );
    assert_eq!(model.dependencies.len(), 1);
    assert_eq!(model.dependency_name(&model.dependencies[0]), "wakeup");
    assert_eq!(
        (
            model.dependencies[0].producer_row,
            model.dependencies[0].consumer_row
        ),
        (0, 1)
    );
    assert_eq!(model.outgoing_dependencies(0).len(), 1);
    assert_eq!(model.incoming_dependencies(1).len(), 1);
    assert_eq!(model.incoming_dependencies(0).len(), 0);
    let chain = model.producer_chain(1);
    assert_eq!(chain.count(), 2);
    assert!(chain.contains(0));
    assert!(chain.contains(1));
}

#[test]
fn rows_keep_their_attributes_and_flags() {
    let mut first = tx(7, 10, 10, 40, None);
    first.attributes.push(named("insn_id_in_sim", AttrValue::Unsigned(8)));
    first.attributes.push(named("thread_id", AttrValue::Unsigned(2)));
    first.attributes.push(named("retire_id", AttrValue::Integer(0)));
    first.attributes.push(named("label", AttrValue::Text("add x1, x2".to_string())));
    let mut flushed = tx(9, 10, 20, 30, None);
    flushed.attributes.push(named("flushed", AttrValue::Boolean(true)));
    flushed.attributes.push(named("retire_id", AttrValue::Unsigned(4)));
    let mut missing = tx(11, 10, 25, 35, None);
    missing.attributes.push(named("thread_id", AttrValue::Unsigned(2)));
    let model = build(vec![first, flushed, missing], vec![], vec![]);

    assert_eq!(model.row_count(), 3);
    assert_eq!(model.rows.sid(0), Some(8));
    assert_eq!(model.rows.rid(0), Some(0));
    assert_eq!(model.rows.rid(1), None);
    assert_eq!(model.rows.rid(2), None);
    assert_eq!(model.rows.flushed[1], libsurfer::konata::FlushState::True);
    assert_eq!(model.quality.missing_rid, 1);
    assert_eq!(model.flushed_count, 1);
    assert_eq!(model.visibility.visible_count(), 2);
    assert_eq!(model.row_for_transaction(9), Some(1));
    assert_eq!(model.row_for_sid(8), Some(0));
    assert_eq!(model.row_for_rid(0), Some(0));
    let thread = model.rows.tid(0).map(|tid| model.thread_name(tid).to_string());
    assert_eq!(thread.as_deref(), Some("2"));
    assert_eq!(model.row_for_thread_rid(thread.as_deref(), 0), Some(0));
    assert_eq!(model.row_for_thread_rid(Some("3"), 0), None);
    assert_eq!(model.nearest_row_for_tick(0), Some(0));
    assert_eq!(model.rows.label(0).map(|id| model.string(id)), Some("add x1, x2"));
    assert_eq!(model.rows.flags[2].0, 2);
    assert_eq!(
        model.search_text(0),
        "ID 0 tx 7 SID 8 TID 2 RID 0\nadd x1, x2\n"
    );
}

#[test]
fn stages_sort_by_start_lane_and_input_order() {
    let parents = vec![tx(1, 10, 0, 100, None)];
    let mut late = tx(20, 11, 30, 40, Some("C"));
    late.attributes.push(named("lane", AttrValue::Unsigned(1)));
    let events = vec![
        late,
        tx(21, 11, 10, 20, Some("F")),
        tx(22, 11, 30, 50, Some("X")),
    ];
    let relations = vec![
        relation(PARENT_RELATION, 1, 20),
        relation(PARENT_RELATION, 1, 21),
        relation(PARENT_RELATION, 1, 22),
    ];
    let model = build(parents, events, relations);
    let stages = model.stages_for_row(0);
    let order: Vec<u64> = stages.iter().map(|stage| stage.event_tx).collect();
    assert_eq!(order, vec![21, 22, 20]);
    assert_eq!(model.stage_name(&stages[0]), "F");
    assert_eq!(model.lane_name(stages[2].lane), "1");
    assert_eq!(model.execution_tick(0), Some(30));
    assert_eq!(model.row_for_event(21), Some(0));
    assert_eq!(model.stage_count(), 3);
}

#[test]
fn dependency_endpoints_resolve_rows_then_stage_events() {
    let parents = vec![tx(1, 10, 0, 10, None), tx(2, 10, 5, 15, None)];
    let events = vec![tx(30, 11, 7, 9, Some("X"))];
    let relations = vec![
        relation(PARENT_RELATION, 2, 30),
        relation("data", 30, 1),
        relation("data", 1, 99),
        relation("ctrl", 1, 2),
    ];
    let model = build(parents, events, relations);
    assert_eq!(model.dependencies.len(), 2);
    let first = model.dependencies[0];
    assert_eq!((first.producer_row, first.consumer_row), (1, 0));
    assert_eq!(first.producer_tick, Some(7));
    assert_eq!(first.consumer_tick, None);
    assert_eq!(model.dependency_name(&first), "data");
    assert_eq!(model.dependency_name(&model.dependencies[1]), "ctrl");
    assert_eq!(model.dependency_names.len(), 2);
}

#[test]
fn cancelled_producer_chains_give_nothing() {
    let parents = vec![tx(1, 10, 0, 10, None), tx(2, 10, 5, 15, None), tx(3, 10, 6, 16, None)];
    let relations = vec![relation("data", 1, 2), relation("data", 2, 3)];
    let model = build(parents, vec![], relations);
    let running = AtomicBool::new(false);
    let chain = model.producer_chain_cancellable(2, &running).unwrap();
    assert_eq!(chain.count(), 3);
    assert_eq!(chain, model.producer_chain(2));
    let cancelled = AtomicBool::new(true);
    assert!(model.producer_chain_cancellable(2, &cancelled).is_none());
    let past_end = model.producer_chain_cancellable(9, &cancelled).unwrap();
    assert_eq!(past_end.count(), 0);
}

fn sample_input() -> (Vec<TxRecord>, Vec<TxRecord>, Vec<TxRelationRecord>) {
    let mut first = tx(1, 10, 0, 100, None);
    first.attributes.push(named("retire_id", AttrValue::Unsigned(3)));
    let parents = vec![first, tx(2, 10, 5, 15, None)];
    let events = vec![tx(30, 11, 7, 9, Some("X")), tx(31, 11, 20, 30, Some("F"))];
    let relations = vec![
        relation(PARENT_RELATION, 2, 30),
        relation(PARENT_RELATION, 1, 31),
        relation("data", 30, 1),
    ];
    (parents, events, relations)
}

#[test]
fn whole_build_matches_the_steps() {
    let (parents, events, relations) = sample_input();
    let stepwise = build(parents, events, relations);
    let (parents, events, relations) = sample_input();
    let input = KonataBuildInput {
        parent_generator: 10,
        event_generator: 11,
        stream: 1,
        parents,
        events,
        relations,
    };
    let whole = KonataModel::build(&input, NAME_ATTRIBUTE.to_string(), PARENT_RELATION.to_string());
    assert_eq!(whole.row_count(), 2);
    assert_eq!(whole.rows.tx_id, stepwise.rows.tx_id);
    assert_eq!(whole.rows.begin, stepwise.rows.begin);
    assert_eq!(whole.rows.rid, stepwise.rows.rid);
    assert_eq!(whole.rows.flags, stepwise.rows.flags);
    for row in 0..2 {
        assert_eq!(whole.stages_for_row(row), stepwise.stages_for_row(row));
    }
    assert_eq!(whole.stages_for_row(0)[0].event_tx, 31);
    assert_eq!(whole.stages_for_row(1)[0].event_tx, 30);
    assert_eq!(whole.dependencies, stepwise.dependencies);
    assert_eq!(whole.strings, stepwise.strings);
    assert_eq!(whole.quality, stepwise.quality);
    assert_eq!(whole.quality.missing_rid, 1);
}

#[test]
fn pushing_in_batches_projects_like_pushing_at_once() {
    let (parents, events, _) = sample_input();
    let mut all = parents;
    all.extend(events);
    let mut at_once = KonataRecordProjector::new(10, 11, 1, 2, NAME_ATTRIBUTE.to_string());
    at_once.push(&all);
    let mut batched = KonataRecordProjector::new(10, 11, 1, 2, NAME_ATTRIBUTE.to_string());
    batched.push(&all[..1]);
    batched.push(&all[1..3]);
    batched.push(&all[3..]);
    assert_eq!(batched.rows.tx_id, at_once.rows.tx_id);
    assert_eq!(batched.rows.begin, at_once.rows.begin);
    assert_eq!(batched.rows.flags, at_once.rows.flags);
    assert_eq!(batched.rows.rid, at_once.rows.rid);
    assert_eq!(batched.pending_stages, at_once.pending_stages);
    assert_eq!(batched.quality, at_once.quality);
    assert_eq!(batched.previous_begin, at_once.previous_begin);
    assert_eq!(at_once.row_count(), 2);
    assert_eq!(at_once.event_count(), 2);
}

#[test]
fn instruction_and_stage_annotations_are_kept() {
    let mut parent = tx(1, 10, 100, 200, None);
    parent.attributes.push(named("label", AttrValue::Text("add".to_string())));
    parent.attributes.push(named("opcode", AttrValue::Unsigned(51)));
    parent.attributes.push(named("retire_id", AttrValue::Unsigned(7)));
    parent.attributes.push(named("unit", AttrValue::Text("alu".to_string())));
    let mut event = tx(2, 11, 110, 120, Some("E"));
    event.attributes.push(named("lane", AttrValue::Unsigned(1)));
    event.attributes.push(named("latency", AttrValue::Integer(3)));
    let parents = vec![parent, tx(3, 10, 120, 220, None)];
    let events = vec![event];
    let relations = vec![relation(PARENT_RELATION, 1, 2)];
    let model = build(parents, events, relations);

    let row0 = model.annotations_for_row(0).unwrap();
    assert_eq!(row0.len(), 2);
    assert_eq!(row0[0].name, "opcode");
    assert!(matches!(row0[0].value, AttrValue::Unsigned(51)));
    assert_eq!(row0[1].name, "unit");
    assert!(matches!(&row0[1].value, AttrValue::Text(text) if text == "alu"));
    assert_eq!(model.annotations_for_row(1).unwrap().len(), 0);
    assert!(model.annotations_for_row(2).is_none());

    let stages = model.stages_for_row(0);
    assert_eq!(stages.len(), 1);
    let annotations = model.annotations_for_stage(&stages[0]);
    assert_eq!(annotations.len(), 1);
    assert_eq!(annotations[0].name, "latency");
    assert!(matches!(annotations[0].value, AttrValue::Integer(3)));
}

fn retired(id: u64, generator: u64, start: u64, end: u64, rid: u64, flushed: bool) -> TxRecord {
    let mut t = tx(id, generator, start, end, None);
    t.attributes.push(named("retire_id", AttrValue::Unsigned(rid)));
    t.attributes.push(named("flushed", AttrValue::Boolean(flushed)));
    t
}

fn nav(hide_flushed: bool) -> KonataNav {
    KonataNav {
        hide_flushed,
        producer_chain_root: None,
        producer_chain_revision: 0,
        producer_chain: None,
        find: KonataFind {
            hits: None,
            active_row: None,
            anchor_row: 0,
            revision: 0,
            searching: false,
            query: String::new(),
            valid_pattern: None,
            error: None,
            partial_first: None,
            partial_count: 0,
        },
    }
}

fn hits_at(row_count: usize, rows: &[usize]) -> KonataSearchHits {
    let mut hits = KonataSearchHits::empty(row_count);
    for row in rows {
        hits.insert(*row);
    }
    hits.finish();
    hits
}

fn three_rows() -> KonataModel {
    let parents = vec![
        retired(1, 10, 100, 200, 7, false),
        retired(2, 10, 110, 210, 8, true),
        retired(3, 10, 120, 220, 9, false),
    ];
    build(parents, Vec::new(), Vec::new())
}

#[test]
fn find_steps_through_hits_and_wraps() {
    let model = three_rows();
    let mut state = nav(false);
    assert!(matches!(konata_step(&mut state, &model, KonataEvent::FindNext(false)), KonataAction::Stay));
    state.find.hits = Some(hits_at(3, &[0, 2]));
    assert!(matches!(
        konata_step(&mut state, &model, KonataEvent::FindNext(false)),
        KonataAction::ShowFindResult { row: 2, visible: 2 }
    ));
    assert_eq!(state.find.active_row, Some(2));
    assert!(matches!(
        konata_step(&mut state, &model, KonataEvent::FindNext(false)),
        KonataAction::ShowFindResult { row: 0, visible: 0 }
    ));
    assert!(matches!(
        konata_step(&mut state, &model, KonataEvent::FindNext(true)),
        KonataAction::ShowFindResult { row: 2, visible: 2 }
    ));
    let mut hidden = nav(true);
    hidden.find.hits = Some(hits_at(3, &[2]));
    assert!(matches!(
        konata_step(&mut hidden, &model, KonataEvent::FindNext(false)),
        KonataAction::ShowFindResult { row: 2, visible: 1 }
    ));
    hidden.find.hits = Some(hits_at(3, &[]));
    hidden.find.active_row = None;
    assert!(matches!(konata_step(&mut hidden, &model, KonataEvent::FindNext(false)), KonataAction::Stay));
}

#[test]
fn finished_search_is_taken_only_when_current() {
    let model = three_rows();
    let mut state = nav(false);
    state.find.revision = 4;
    state.find.searching = true;
    state.find.query = "add".to_string();
    state.find.anchor_row = 1;
    assert!(matches!(
        konata_step(&mut state, &model, KonataEvent::FindFinished { revision: 3, outcome: Ok(hits_at(3, &[0])) }),
        KonataAction::Stay
    ));
    assert!(state.find.searching);
    assert!(matches!(
        konata_step(&mut state, &model, KonataEvent::FindFinished { revision: 4, outcome: Ok(hits_at(3, &[0, 2])) }),
        KonataAction::ShowFindResult { row: 2, visible: 2 }
    ));
    assert!(!state.find.searching);
    assert_eq!(state.find.active_row, Some(2));
    assert_eq!(state.find.valid_pattern.as_deref(), Some("add"));
    assert!(matches!(
        konata_step(
            &mut state,
            &model,
            KonataEvent::FindFinished { revision: 4, outcome: Err("bad pattern".to_string()) }
        ),
        KonataAction::Redraw
    ));
    assert_eq!(state.find.error.as_deref(), Some("bad pattern"));
    let mut cancelled = nav(false);
    assert!(matches!(
        konata_step(
            &mut cancelled,
            &model,
            KonataEvent::FindFinished { revision: 0, outcome: Err("Search cancelled".to_string()) }
        ),
        KonataAction::Redraw
    ));
    assert!(cancelled.find.error.is_none());
}

#[test]
fn search_progress_shows_the_first_hit_once() {
    let model = three_rows();
    let mut state = nav(true);
    state.find.revision = 2;
    assert!(matches!(
        konata_step(&mut state, &model, KonataEvent::FindProgress { revision: 2, rows: vec![2] }),
        KonataAction::Stay
    ));
    state.find.searching = true;
    assert!(matches!(
        konata_step(&mut state, &model, KonataEvent::FindProgress { revision: 2, rows: Vec::new() }),
        KonataAction::Redraw
    ));
    assert!(matches!(
        konata_step(&mut state, &model, KonataEvent::FindProgress { revision: 2, rows: vec![2, 0] }),
        KonataAction::ShowFindResult { row: 2, visible: 1 }
    ));
    assert_eq!(state.find.partial_first, Some(2));
    assert!(matches!(
        konata_step(&mut state, &model, KonataEvent::FindProgress { revision: 2, rows: vec![0] }),
        KonataAction::Redraw
    ));
    assert_eq!(state.find.partial_count, 3);
}

#[test]
fn cancelling_a_search_keeps_only_a_finished_hit() {
    let model = three_rows();
    let mut state = nav(false);
    state.find.searching = true;
    state.find.hits = Some(hits_at(3, &[1, 2]));
    state.find.active_row = Some(0);
    state.find.partial_count = 5;
    assert!(matches!(konata_step(&mut state, &model, KonataEvent::CancelFind), KonataAction::CancelSearch));
    assert!(!state.find.searching);
    assert_eq!(state.find.partial_count, 0);
    assert_eq!(state.find.active_row, Some(1));
    assert_eq!(state.find.revision, 1);
    state.find.active_row = Some(2);
    konata_step(&mut state, &model, KonataEvent::CancelFind);
    assert_eq!(state.find.active_row, Some(2));
}

#[test]
fn bookmarks_save_and_restore_rows() {
    let model = three_rows();
    let mut state = nav(false);
    assert!(matches!(
        konata_step(&mut state, &model, KonataEvent::BookmarkSet { slot: 10, top_visible: 0 }),
        KonataAction::Stay
    ));
    assert!(matches!(
        konata_step(&mut state, &model, KonataEvent::BookmarkSet { slot: 3, top_visible: 7 }),
        KonataAction::SaveBookmark { slot: 3, tx_id: 3 }
    ));
    let mut hidden = nav(true);
    assert!(matches!(
        konata_step(&mut hidden, &model, KonataEvent::BookmarkSet { slot: 0, top_visible: 1 }),
        KonataAction::SaveBookmark { slot: 0, tx_id: 3 }
    ));
    assert!(matches!(
        konata_step(&mut hidden, &model, KonataEvent::BookmarkSet { slot: 0, top_visible: 2 }),
        KonataAction::Stay
    ));
    assert!(matches!(
        konata_step(&mut hidden, &model, KonataEvent::BookmarkGoto { tx_id: 3, tick: 0 }),
        KonataAction::ShowBookmark { row: 2, visible: 1 }
    ));
    assert!(matches!(
        konata_step(&mut state, &model, KonataEvent::BookmarkGoto { tx_id: 99, tick: 114 }),
        KonataAction::ShowBookmark { row: 1, visible: 1 }
    ));
    assert!(matches!(
        konata_step(&mut state, &model, KonataEvent::BookmarkGoto { tx_id: 99, tick: 115 }),
        KonataAction::ShowBookmark { row: 1, visible: 1 }
    ));
    assert!(matches!(
        konata_step(&mut state, &model, KonataEvent::BookmarkGoto { tx_id: 99, tick: -5 }),
        KonataAction::ShowBookmark { row: 0, visible: 0 }
    ));
}

#[test]
fn goto_events_navigate_or_report() {
    let parents = vec![
        retired(1, 10, 100, 200, 7, false),
        retired(2, 10, 110, 210, 8, true),
        retired(3, 10, 120, 220, 9, false),
    ];
    let model = build(parents, Vec::new(), Vec::new());
    let mut state = nav(true);
    assert!(matches!(
        konata_step(&mut state, &model, KonataEvent::GotoRow(2)),
        KonataAction::Navigate { row: 2, visible: 1 }
    ));
    assert!(matches!(
        konata_step(&mut state, &model, KonataEvent::GotoRow(3)),
        KonataAction::Error(text) if text == "Konata row 3 is unavailable"
    ));
    assert!(matches!(
        konata_step(&mut state, &model, KonataEvent::GotoRid(9)),
        KonataAction::Navigate { row: 2, visible: 1 }
    ));
    assert!(matches!(
        konata_step(&mut state, &model, KonataEvent::GotoRid(5)),
        KonataAction::Error(text) if text == "Retire ID 5 is missing or ambiguous; specify a thread in the table"
    ));
    assert!(matches!(
        konata_step(&mut state, &model, KonataEvent::GotoSid(4)),
        KonataAction::Error(text) if text == "Simulator serial ID 4 is missing or ambiguous"
    ));
    assert!(matches!(
        konata_step(&mut state, &model, KonataEvent::GotoThreadRid("t0".to_string(), 7)),
        KonataAction::Error(text) if text == "Retire ID 7 for thread t0 is unavailable"
    ));
    let mut shown = nav(false);
    assert!(matches!(
        konata_step(&mut shown, &model, KonataEvent::GotoRow(2)),
        KonataAction::Navigate { row: 2, visible: 2 }
    ));
}

#[test]
fn producer_chain_toggle_keeps_only_the_current_result() {
    let model = build(vec![tx(1, 10, 100, 200, None)], Vec::new(), Vec::new());
    let mut state = nav(false);
    assert!(matches!(
        konata_step(&mut state, &model, KonataEvent::ToggleProducerChain(0)),
        KonataAction::StartProducerChain { row: 0, revision: 1 }
    ));
    assert_eq!(state.producer_chain_root, Some(0));
    let stale = KonataRowSet::empty(1);
    assert!(matches!(
        konata_step(&mut state, &model, KonataEvent::ProducerChainBuilt { revision: 0, row: 0, result: Some(stale) }),
        KonataAction::Redraw
    ));
    assert!(state.producer_chain.is_none());
    let mut chain = KonataRowSet::empty(1);
    chain.insert(0);
    assert!(matches!(
        konata_step(&mut state, &model, KonataEvent::ProducerChainBuilt { revision: 1, row: 0, result: Some(chain) }),
        KonataAction::Redraw
    ));
    assert_eq!(state.producer_chain.as_ref().map(|set| set.count()), Some(1));
    assert!(matches!(
        konata_step(&mut state, &model, KonataEvent::ToggleProducerChain(0)),
        KonataAction::CancelProducerChain
    ));
    assert_eq!(state.producer_chain_root, None);
    assert!(state.producer_chain.is_none());
    assert_eq!(state.producer_chain_revision, 2);
}

#[test]
fn row_set_counts_distinct_rows() {
    let mut set = KonataRowSet::empty(100);
    assert!(set.insert(3));
    assert!(set.insert(70));
    assert!(!set.insert(3));
    assert_eq!(set.count(), 2);
    assert!(set.contains(70));
    assert!(!set.contains(4));
    assert!(!set.contains(1000));
}

#[test]
fn stages_and_orphans_together_are_the_events() {
    let parents = vec![tx(1, 10, 100, 200, None)];
    let events = vec![
        tx(2, 11, 110, 120, Some("A")),
        tx(4, 11, 120, 130, Some("B")),
        tx(6, 11, 130, 140, Some("C")),
    ];
    let relations = vec![relation(PARENT_RELATION, 1, 2), relation(PARENT_RELATION, 1, 6)];
    let model = build(parents, events, relations);
    assert_eq!(model.quality.orphans, 1);
    assert_eq!(model.stages.len() as u64 + model.quality.orphans, 3);
}
