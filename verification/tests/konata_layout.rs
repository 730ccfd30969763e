use libsurfer::konata::progress::KonataProgressivePublisher;
use libsurfer::konata::layout::{
    advance_keyboard_row, aligned_row, alignment_label, keyboard_or_center_row, physical_row,
    shift_tick, visible_index_of, visible_row_count, whole_cycle_count,
};
use libsurfer::konata::state::{konata_waveform_sync_enabled, synchronization_group};
use libsurfer::konata::model::KonataModel;
use libsurfer::konata::records::KonataRecordProjector;
use libsurfer::konata::state::KonataAlignmentMode;
use libsurfer::konata::trace::{AttrValue, TxAttribute, TxRecord, TxRelationRecord};

const NAME_ATTRIBUTE: &str = "stage_name";
const PARENT_RELATION: &str = "stage_of";

fn named(name: &str, value: AttrValue) -> TxAttribute {
    TxAttribute {
        begins: false,
        name: name.to_string(),
        value,
    }
}

fn tx(id: u64, generator: u64, start: u64, end: u64, stage: Option<&str>) -> TxRecord {
    let mut attributes = Vec::new();
    if let Some(stage) = stage {
        attributes.push(TxAttribute {
            begins: true,
            name: NAME_ATTRIBUTE.to_string(),
            value: AttrValue::Text(stage.to_string()),
        });
    }
    TxRecord {
        tx_id: id,
        generator,
        start,
        end,
        attributes,
    }
}

fn relation(source: u64, sink: u64) -> TxRelationRecord {
    TxRelationRecord {
        name: PARENT_RELATION.to_string(),
        source_tx: source,
        sink_tx: sink,
        source_stream: 1,
        sink_stream: 1,
    }
}

fn build(parents: Vec<TxRecord>, events: Vec<TxRecord>, relations: Vec<TxRelationRecord>) -> KonataModel {
    let mut records =
        KonataRecordProjector::new(10, 11, 1, parents.len(), NAME_ATTRIBUTE.to_string());
    records.push(&parents);
    records.push(&events);
    let mut projector = records.relation_projector(PARENT_RELATION.to_string());
    projector.push(&relations);
    records.finish(projector.finish())
}

/// Rows 0 and 2 are shown, row 1 was flushed.
fn flushed_in_the_middle() -> KonataModel {
    let mut first = tx(1, 10, 10, 20, None);
    first.attributes.push(named("thread_id", AttrValue::Unsigned(0)));
    first.attributes.push(named("retire_id", AttrValue::Unsigned(5)));
    let mut flushed = tx(2, 10, 20, 30, None);
    flushed.attributes.push(named("flushed", AttrValue::Boolean(true)));
    let mut last = tx(3, 10, 40, 50, None);
    last.attributes.push(named("thread_id", AttrValue::Unsigned(1)));
    last.attributes.push(named("retire_id", AttrValue::Unsigned(6)));
    build(vec![first, flushed, last], vec![], vec![])
}

#[test]
fn logical_rows_skip_flushed_rows_only_when_hidden() {
    let model = flushed_in_the_middle();
    assert_eq!(visible_row_count(&model, false), 3);
    assert_eq!(visible_row_count(&model, true), 2);
    assert_eq!(physical_row(&model, true, 0), Some(0));
    assert_eq!(physical_row(&model, true, 1), Some(2));
    assert_eq!(physical_row(&model, true, 2), None);
    assert_eq!(physical_row(&model, false, 1), Some(1));
    assert_eq!(physical_row(&model, false, 3), None);
    assert_eq!(visible_index_of(&model, true, 2), 1);
    assert_eq!(visible_index_of(&model, true, 7), 2);
    assert_eq!(visible_index_of(&model, false, 7), 7);
}

#[test]
fn logical_row_of_a_physical_row_round_trips() {
    let model = flushed_in_the_middle();
    for visible in 0..visible_row_count(&model, true) {
        let row = physical_row(&model, true, visible).unwrap();
        assert_eq!(visible_index_of(&model, true, row), visible);
    }
}

#[test]
fn alignment_follows_thread_and_retire_id_fetch_id_or_time() {
    let source = flushed_in_the_middle();
    let mut shifted_first = tx(7, 10, 100, 110, None);
    shifted_first.attributes.push(named("thread_id", AttrValue::Unsigned(1)));
    shifted_first.attributes.push(named("retire_id", AttrValue::Unsigned(6)));
    let mut shifted_second = tx(8, 10, 38, 120, None);
    shifted_second.attributes.push(named("thread_id", AttrValue::Unsigned(0)));
    shifted_second.attributes.push(named("retire_id", AttrValue::Unsigned(5)));
    let target = build(vec![shifted_first, shifted_second], vec![], vec![]);

    assert_eq!(aligned_row(&source, &target, 0, KonataAlignmentMode::ThreadRid), Some(1));
    assert_eq!(aligned_row(&source, &target, 2, KonataAlignmentMode::ThreadRid), Some(0));
    assert_eq!(aligned_row(&source, &target, 1, KonataAlignmentMode::ThreadRid), None);
    assert_eq!(aligned_row(&source, &target, 1, KonataAlignmentMode::FetchId), Some(1));
    assert_eq!(aligned_row(&source, &target, 2, KonataAlignmentMode::FetchId), None);
    assert_eq!(aligned_row(&source, &target, 2, KonataAlignmentMode::Timestamp), Some(1));
    assert_eq!(aligned_row(&source, &target, 0, KonataAlignmentMode::Timestamp), Some(1));
    assert_eq!(alignment_label(KonataAlignmentMode::ThreadRid), "thread + RID");
    assert_eq!(alignment_label(KonataAlignmentMode::FetchId), "fetch ID");
    assert_eq!(alignment_label(KonataAlignmentMode::Timestamp), "timestamp");
}

#[test]
fn shifted_ticks_stop_at_both_ends() {
    assert_eq!(shift_tick(10, 5), 15);
    assert_eq!(shift_tick(10, -4), 6);
    assert_eq!(shift_tick(10, -40), 0);
    assert_eq!(shift_tick(u64::MAX - 1, 9), u64::MAX);
    assert_eq!(shift_tick(3, i128::MIN), 0);
    assert_eq!(shift_tick(0, i128::MAX), u64::MAX);
}

#[test]
fn whole_cycles_only_for_exact_multiples() {
    assert_eq!(whole_cycle_count(12, 4), Some(3));
    assert_eq!(whole_cycle_count(10, 4), None);
    assert_eq!(whole_cycle_count(0, 7), Some(0));
}

#[test]
fn row_labels_name_ids_thread_and_retire_id() {
    let mut labelled = tx(7, 10, 10, 40, None);
    labelled.attributes.push(named("insn_id_in_sim", AttrValue::Unsigned(8)));
    labelled.attributes.push(named("thread_id", AttrValue::Unsigned(2)));
    labelled.attributes.push(named("retire_id", AttrValue::Unsigned(0)));
    labelled.attributes.push(named("label", AttrValue::Text("add x1, x2".to_string())));
    let mut flushed = tx(9, 10, 20, 30, None);
    flushed.attributes.push(named("flushed", AttrValue::Boolean(true)));
    let mut unretired = tx(11, 10, 25, 35, None);
    unretired.attributes.push(named("thread_id", AttrValue::Unsigned(2)));
    let plain = tx(12, 10, 26, 36, None);
    let model = build(vec![labelled, flushed, unretired, plain], vec![], vec![]);

    assert_eq!(model.row_label(0), "0: s8 (t2: r0): add x1, x2");
    assert_eq!(model.row_label(1), "1 (r—): tx#9");
    assert_eq!(model.row_label(2), "2 (t2r—): tx#11 ⚠");
    assert_eq!(model.row_label(3), "3: tx#12 ⚠");
    assert_eq!(
        model.accessible_row_name(0),
        "Instruction ID 0, SID 8, thread 2, RID 0, add x1, x2, flush state unknown, 0 stages"
    );
    assert_eq!(
        model.accessible_row_name(1),
        "Instruction ID 1, flushed, 0 stages"
    );
}

#[test]
fn stage_names_read_out_duration_lane_and_warning() {
    let parents = vec![tx(1, 10, 0, 100, None)];
    let mut late = tx(20, 11, 30, 45, Some("C"));
    late.attributes.push(named("lane", AttrValue::Unsigned(1)));
    let events = vec![late, tx(21, 11, 50, 40, Some("X"))];
    let model = build(parents, events, vec![relation(1, 20), relation(1, 21)]);
    let stages = model.stages_for_row(0);
    assert_eq!(
        model.accessible_stage_name(0, &stages[0]),
        "Stage C, start 30, end 45, duration 15, lane 1, parent instruction ID 0"
    );
    assert_eq!(
        model.accessible_stage_name(0, &stages[1]),
        "Stage X, start 50, end 40, duration 0, lane 0, parent instruction ID 0, warning"
    );
    assert_eq!(
        model.accessible_row_name(0),
        "Instruction ID 0, flush state unknown, data-quality warning, 2 stages"
    );
}

#[test]
fn keyboard_rows_move_over_shown_rows_and_stop_at_the_ends() {
    let model = flushed_in_the_middle();
    assert_eq!(advance_keyboard_row(&model, true, Some(0), 0, 1), Some(2));
    assert_eq!(advance_keyboard_row(&model, true, Some(1), 0, 1), Some(2));
    assert_eq!(advance_keyboard_row(&model, false, Some(1), 0, 5), Some(2));
    assert_eq!(advance_keyboard_row(&model, true, None, 9, -1), Some(0));
    assert_eq!(advance_keyboard_row(&model, false, None, 0, isize::MIN), Some(0));
    assert_eq!(keyboard_or_center_row(&model, true, Some(1), 0), Some(0));
    assert_eq!(keyboard_or_center_row(&model, true, None, 7), Some(2));
    assert_eq!(keyboard_or_center_row(&model, false, Some(1), 0), Some(1));
    let empty = build(vec![], vec![], vec![]);
    assert_eq!(advance_keyboard_row(&empty, false, None, 0, 1), None);
    assert_eq!(keyboard_or_center_row(&empty, true, Some(0), 0), None);
}

#[test]
fn tiles_without_a_group_follow_group_zero_when_they_synchronize() {
    assert_eq!(synchronization_group(Some(3), true), Some(3));
    assert_eq!(synchronization_group(None, true), Some(0));
    assert_eq!(synchronization_group(None, false), None);
    assert!(konata_waveform_sync_enabled(None, true));
    assert!(konata_waveform_sync_enabled(Some(0), false));
    assert!(!konata_waveform_sync_enabled(Some(2), true));
}

#[test]
fn partial_models_are_due_at_doubling_row_counts_up_to_the_last() {
    let mut publisher = KonataProgressivePublisher::new(10, 11, 1, 0);
    assert_eq!(publisher.next_rows, 512);
    assert!(!publisher.publish_if_due(100, true));
    assert!(!publisher.publish_if_due(511, true));
    assert!(!publisher.publish_if_due(512, false));
    assert!(publisher.publish_if_due(512, true));
    assert_eq!(publisher.next_rows, 1024);
    assert!(!publisher.publish_if_due(1000, true));
    assert!(publisher.accepts_more());
    assert!(publisher.publish_if_due(5000, true));
    assert_eq!(publisher.next_rows, 5001);
    assert!(!publisher.accepts_more());
    assert!(!publisher.publish_if_due(10000, true));
}
