use libsurfer::konata::lists::comma_list_matches;
use libsurfer::konata::model::KonataModel;
use libsurfer::konata::records::KonataRecordProjector;
use libsurfer::konata::trace::{AttrValue, TxAttribute, TxRecord, TxRelationRecord};
use libsurfer::konata::walk::{dependency_walk_target, DependencyWalk};

const NAME_ATTRIBUTE: &str = "stage_name";
const PARENT_RELATION: &str = "stage_of";
const EXECUTION_STAGES: &str = "X,x,Ex,execute";

fn tx(id: u64, generator: u64, start: u64, end: u64, name: Option<&str>) -> TxRecord {
    let mut attributes = Vec::new();
    if let Some(name) = name {
        attributes.push(TxAttribute {
            begins: true,
            name: NAME_ATTRIBUTE.to_string(),
            value: AttrValue::Text(name.to_string()),
        });
    }
    TxRecord {
        tx_id: id,
        generator,
        start,
        end,
        attributes,
    }
}

fn relation(name: &str, source: u64, sink: u64) -> TxRelationRecord {
    TxRelationRecord {
        name: name.to_string(),
        source_tx: source,
        sink_tx: sink,
        source_stream: 1,
        sink_stream: 1,
    }
}

fn build(parents: Vec<TxRecord>, events: Vec<TxRecord>, relations: Vec<TxRelationRecord>) -> KonataModel {
    let mut records =
        KonataRecordProjector::new(10, 11, 1, parents.len(), NAME_ATTRIBUTE.to_string());
    records.push(&parents);
    records.push(&events);
    let mut projector = records.relation_projector(PARENT_RELATION.to_string());
    projector.push(&relations);
    records.finish(projector.finish())
}

#[test]
fn dependency_walk_cycles_equal_time_ties_in_row_order() {
    let parents = vec![
        tx(1, 10, 0, 8, None),
        tx(2, 10, 0, 8, None),
        tx(3, 10, 2, 10, None),
    ];
    let relations = vec![relation("wakeup", 1, 3), relation("wakeup", 2, 3)];
    let model = build(parents, vec![], relations);
    let mut walk = DependencyWalk::new();
    assert_eq!(
        dependency_walk_target(&model, EXECUTION_STAGES, &mut walk, 2, false),
        Some(0)
    );
    assert_eq!(
        dependency_walk_target(&model, EXECUTION_STAGES, &mut walk, 0, false),
        Some(1)
    );
    assert_eq!(
        dependency_walk_target(&model, EXECUTION_STAGES, &mut walk, 1, false),
        Some(0)
    );
}

#[test]
fn forward_walk_goes_to_the_earliest_execution() {
    let parents = vec![
        tx(1, 10, 0, 50, None),
        tx(2, 10, 5, 50, None),
        tx(3, 10, 6, 50, None),
    ];
    let events = vec![tx(20, 11, 40, 45, Some("X")), tx(21, 11, 30, 35, Some("x"))];
    let relations = vec![
        relation(PARENT_RELATION, 2, 20),
        relation(PARENT_RELATION, 3, 21),
        relation("dep", 1, 2),
        relation("dep", 1, 3),
    ];
    let model = build(parents, events, relations);
    assert_eq!(model.execution_tick_in(EXECUTION_STAGES, 1), Some(40));
    let mut walk = DependencyWalk::new();
    assert_eq!(
        dependency_walk_target(&model, EXECUTION_STAGES, &mut walk, 0, true),
        Some(2)
    );
    assert_eq!(walk, DependencyWalk::new());
    assert_eq!(
        dependency_walk_target(&model, EXECUTION_STAGES, &mut walk, 2, true),
        None
    );
    assert_eq!(walk, DependencyWalk::new());
}

#[test]
fn comma_lists_match_trimmed_pieces() {
    assert!(comma_list_matches("X, x ,Ex,execute", "x", true));
    assert!(comma_list_matches("X,x,Ex,execute", "execute", true));
    assert!(!comma_list_matches("X,x,Ex,execute", "ex", true));
    assert!(comma_list_matches("X,x,Ex,execute", "EXECUTE", false));
    assert!(comma_list_matches("f,stl", "STL", false));
    assert!(!comma_list_matches("f,stl", "STL", true));
    assert!(comma_list_matches("a,,b", "", true));
    assert!(comma_list_matches("", "", true));
    assert!(!comma_list_matches("", "a", true));
}
