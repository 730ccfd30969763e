use std::collections::HashMap;

use libsurfer::item_list::{
    apply_selection, insert_placement_allowed, next_item_ref, valid_nesting, DisplayedItemRef,
    ItemEditError, ItemSelection, NestingNode, SelectionRow,
};
use libsurfer::keyboard_shortcuts::{
    modifier_priority, KeyboardShortcut, ShortcutAction, ShortcutModifiers, SurferShortcuts,
};
use libsurfer::keys::get_count;
use libsurfer::konata::state::{KonataModelSpec, SourceId, TransactionStreamRef};
use libsurfer::session::{MoveDir, WcpClientCapabilities};

fn node(level: u8, group: bool) -> NestingNode {
    NestingNode {
        level,
        present: true,
        group,
    }
}

fn modifiers(shift: bool, alt: bool) -> ShortcutModifiers {
    ShortcutModifiers {
        alt,
        ctrl: false,
        shift,
        mac_cmd: false,
        command: false,
    }
}

fn shortcut(shift: bool, alt: bool, key: &str) -> KeyboardShortcut {
    KeyboardShortcut {
        modifiers: modifiers(shift, alt),
        key: key.to_string(),
    }
}

#[test]
fn counts_parse_trimmed_unsigned_literals() {
    assert_eq!(get_count(None), 1);
    assert_eq!(get_count(Some(" 12 ")), 12);
    assert_eq!(get_count(Some("+3")), 3);
    assert_eq!(get_count(Some("-3")), 1);
    assert_eq!(get_count(Some("")), 1);
    assert_eq!(get_count(Some("+")), 1);
    assert_eq!(get_count(Some("4x")), 1);
    assert_eq!(get_count(Some("\u{3000}7\t")), 7);
    assert_eq!(get_count(Some("007")), 7);
    assert_eq!(get_count(Some("99999999999999999999999")), 1);
}

#[test]
fn nesting_requires_groups_above_deeper_items() {
    assert!(valid_nesting(&[]));
    assert!(valid_nesting(&[node(0, true), node(1, false), node(0, false)]));
    assert!(!valid_nesting(&[node(1, false)]));
    assert!(!valid_nesting(&[node(0, false), node(1, false)]));
    assert!(!valid_nesting(&[node(0, true), node(2, false)]));
    assert!(!valid_nesting(&[NestingNode {
        level: 0,
        present: false,
        group: false,
    }]));
}

#[test]
fn insert_placement_follows_the_nesting_rule() {
    assert!(insert_placement_allowed(None, None, 0, false));
    assert!(!insert_placement_allowed(None, None, 1, false));
    assert!(insert_placement_allowed(Some(node(0, true)), None, 1, false));
    assert!(!insert_placement_allowed(Some(node(0, false)), None, 1, false));
    assert!(!insert_placement_allowed(Some(node(0, true)), Some(node(1, false)), 0, false));
    assert!(insert_placement_allowed(Some(node(0, true)), Some(node(1, false)), 0, true));
}

#[test]
fn item_identities_stop_below_the_maximum() {
    assert_eq!(next_item_ref(4), Ok(DisplayedItemRef(5)));
    assert_eq!(next_item_ref(usize::MAX - 1), Err(ItemEditError::IdentityExhausted));
    assert_eq!(next_item_ref(usize::MAX), Err(ItemEditError::IdentityExhausted));
    assert_eq!(ItemEditError::Placement.message(), "invalid item placement");
}

#[test]
fn modifier_priority_prefers_shift_alt_then_alt_then_shift() {
    assert_eq!(modifier_priority(&[]), 3);
    assert_eq!(modifier_priority(&[shortcut(false, false, "A")]), 3);
    assert_eq!(modifier_priority(&[shortcut(true, true, "A")]), 0);
    assert_eq!(modifier_priority(&[shortcut(false, true, "A")]), 1);
    assert_eq!(modifier_priority(&[shortcut(true, false, "A")]), 2);
    assert_eq!(
        modifier_priority(&[shortcut(false, false, "A"), shortcut(true, false, "B")]),
        2
    );
}

#[test]
fn dispatch_table_sorts_actions_stably_by_priority() {
    let mut shortcuts = SurferShortcuts {
        open_file: vec![],
        switch_file: vec![],
        undo: vec![shortcut(false, false, "U")],
        redo: vec![shortcut(true, false, "U")],
        toggle_side_panel: vec![],
        toggle_toolbar: vec![],
        goto_end: vec![],
        goto_start: vec![],
        save_state_file: vec![],
        goto_top: vec![],
        goto_bottom: vec![],
        group_new: vec![],
        item_focus: vec![],
        select_all: vec![],
        select_toggle: vec![],
        reload_waveform: vec![],
        zoom_in: vec![],
        zoom_out: vec![],
        ui_zoom_in: vec![],
        ui_zoom_out: vec![],
        scroll_up: vec![],
        scroll_down: vec![],
        delete_selected: vec![],
        marker_add: vec![],
        toggle_menu: vec![],
        show_command_prompt: vec![],
        rename_item: vec![],
        divider_add: vec![],
        zoom_to_fit: vec![],
        zoom_to_cursor: vec![],
        go_to_time: vec![],
        focus_variable_name_filter: vec![],
        tile_split_right: vec![],
        tile_split_down: vec![],
        tile_close: vec![],
        tile_next: vec![],
        tile_prev: vec![],
        tile_focus_left: vec![],
        tile_focus_right: vec![],
        tile_focus_up: vec![],
        tile_focus_down: vec![],
        tile_move_left: vec![],
        tile_move_right: vec![],
        tile_move_up: vec![],
        tile_move_down: vec![shortcut(true, true, "Down")],
        show_logs: vec![shortcut(false, true, "L")],
    };
    let table = shortcuts.build_dispatch_table();
    assert_eq!(table.len(), 46);
    assert!(matches!(table[0].action, ShortcutAction::TileMoveDown));
    assert!(matches!(table[1].action, ShortcutAction::ShowLogs));
    assert!(matches!(table[2].action, ShortcutAction::Redo));
    assert!(matches!(table[3].action, ShortcutAction::OpenFile));
    assert!(matches!(table[4].action, ShortcutAction::SwitchFile));
    assert!(matches!(table[5].action, ShortcutAction::Undo));
    assert_eq!(
        table.iter().map(|entry| entry.priority).collect::<Vec<_>>()[..4],
        [0, 1, 2, 3]
    );
    shortcuts.zoom_in.push(shortcut(false, false, "Plus"));
    assert_eq!(shortcuts.shortcuts_for_action(ShortcutAction::ZoomIn).len(), 1);
}

#[test]
fn model_specs_follow_source_remapping() {
    let mut spec = KonataModelSpec {
        source: SourceId(3),
        generator: TransactionStreamRef::new_gen(1, 10, "instruction".to_string()),
    };
    assert!(spec.references_source(SourceId(3)));
    assert!(!spec.references_source(SourceId(4)));
    let mut map = HashMap::new();
    map.insert(5u64, 6u64);
    spec.remap_sources(&map);
    assert_eq!(spec.source, SourceId(3));
    map.insert(3u64, 8u64);
    spec.remap_sources(&map);
    assert_eq!(spec.source, SourceId(8));
    assert_eq!(spec.generator.gen_id, Some(10));
}

#[test]
fn small_session_values() {
    assert_eq!(MoveDir::Up.name(), "up");
    assert_eq!(MoveDir::Down.name(), "down");
    let caps = WcpClientCapabilities::new();
    assert!(!caps.waveforms_loaded && !caps.goto_declaration && !caps.add_drivers && !caps.add_loads);
}

fn selected_rows(rows: &[SelectionRow]) -> Vec<DisplayedItemRef> {
    rows.iter()
        .filter(|row| row.visible && row.selected)
        .map(|row| row.item)
        .collect()
}

fn divider_row(id: usize) -> SelectionRow {
    SelectionRow {
        item: DisplayedItemRef(id),
        visible: true,
        selected: false,
    }
}

#[test]
fn selection_tracks_rows_across_reordering_and_rejects_invalid_ranges_atomically() {
    let first = DisplayedItemRef(1);
    let second = DisplayedItemRef(2);
    let third = DisplayedItemRef(3);
    // The tree after moving `first` to the end.
    let mut rows = vec![divider_row(2), divider_row(3), divider_row(1)];
    let captured = ItemSelection::SetSelected {
        item: first,
        selected: true,
    };
    assert!(apply_selection(&mut rows, captured).unwrap());
    assert_eq!(selected_rows(&rows), [first]);
    assert!(!apply_selection(
        &mut rows,
        ItemSelection::SetSelected {
            item: first,
            selected: true
        }
    )
    .unwrap());
    let before = rows.clone();
    assert!(apply_selection(
        &mut rows,
        ItemSelection::Range {
            from: second,
            to: DisplayedItemRef(999),
            selected: true
        }
    )
    .is_err());
    assert_eq!(rows, before);
    assert!(apply_selection(
        &mut rows,
        ItemSelection::Range {
            from: first,
            to: third,
            selected: true
        }
    )
    .unwrap());
    assert_eq!(selected_rows(&rows), [third, first]);
    assert!(apply_selection(&mut rows, ItemSelection::Clear).unwrap());
    assert!(!apply_selection(&mut rows, ItemSelection::Clear).unwrap());
}

#[test]
fn selection_skips_hidden_rows_and_toggles() {
    let mut rows = vec![
        divider_row(1),
        SelectionRow {
            item: DisplayedItemRef(2),
            visible: false,
            selected: false,
        },
        divider_row(3),
    ];
    assert!(apply_selection(&mut rows, ItemSelection::AllVisible(true)).unwrap());
    assert!(!rows[1].selected);
    assert_eq!(
        apply_selection(
            &mut rows,
            ItemSelection::Range {
                from: DisplayedItemRef(2),
                to: DisplayedItemRef(3),
                selected: false
            }
        ),
        Err(ItemEditError::Missing(DisplayedItemRef(2)))
    );
    assert!(apply_selection(&mut rows, ItemSelection::Toggle(DisplayedItemRef(2))).unwrap());
    assert!(rows[1].selected);
    assert_eq!(
        apply_selection(&mut rows, ItemSelection::Toggle(DisplayedItemRef(7))),
        Err(ItemEditError::Missing(DisplayedItemRef(7)))
    );
}
