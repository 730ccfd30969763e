use libsurfer::keyboard_shortcuts::keyboard_shortcuts_serde::{
    deserialize, format_binding, parse_binding, serialize,
};
use libsurfer::keyboard_shortcuts::{KeyboardShortcut, ShortcutModifiers};

fn held(alt: bool, ctrl: bool, shift: bool, mac_cmd: bool, command: bool) -> ShortcutModifiers {
    ShortcutModifiers {
        alt,
        ctrl,
        shift,
        mac_cmd,
        command,
    }
}

#[test]
fn bindings_read_modifiers_in_any_case_and_key_names() {
    let shortcut = parse_binding("ctrl+shift+A").unwrap();
    assert_eq!(shortcut.modifiers, held(false, true, true, false, false));
    assert_eq!(shortcut.key, "A");

    let shortcut = parse_binding(" CTRL + Down ").unwrap();
    assert_eq!(shortcut.modifiers, held(false, true, false, false, false));
    assert_eq!(shortcut.key, "ArrowDown");

    let shortcut = parse_binding("Cmd+alt+0").unwrap();
    assert_eq!(shortcut.modifiers, held(true, false, false, false, true));
    assert_eq!(shortcut.key, "Num0");

    let shortcut = parse_binding("Mac_Cmd+Command+Escape").unwrap();
    assert_eq!(shortcut.modifiers, held(false, false, false, true, true));
    assert_eq!(shortcut.key, "Escape");
}

#[test]
fn bindings_report_the_unknown_key_before_unknown_modifiers() {
    assert_eq!(parse_binding("hyper+A").unwrap_err(), "Unknown modifier: hyper");
    assert_eq!(parse_binding("ctrl+Nope").unwrap_err(), "Unknown key: Nope");
    assert_eq!(parse_binding("hyper+Nope").unwrap_err(), "Unknown key: Nope");
    assert_eq!(parse_binding("").unwrap_err(), "Unknown key: ");
    assert_eq!(parse_binding("ctrl+").unwrap_err(), "Unknown key: ");
}

#[test]
fn bindings_write_every_covered_modifier_name() {
    assert_eq!(format_binding(held(false, false, false, false, false), "A"), "A");
    assert_eq!(
        format_binding(held(false, true, true, false, false), "A"),
        "Ctrl+Shift+Command+A"
    );
    assert_eq!(
        format_binding(held(false, false, false, false, true), "Num0"),
        "Ctrl+Mac_cmd+Command+Num0"
    );
    assert_eq!(
        format_binding(held(true, false, false, true, false), "Space"),
        "Alt+Mac_cmd+Command+Space"
    );
}

#[test]
fn shortcut_lists_write_and_read_in_order() {
    let shortcuts = vec![
        KeyboardShortcut {
            modifiers: held(false, false, true, false, false),
            key: "Tab".to_string(),
        },
        KeyboardShortcut {
            modifiers: held(true, false, false, false, false),
            key: "ArrowUp".to_string(),
        },
    ];
    let bindings = serialize(&shortcuts);
    assert_eq!(bindings, vec!["Shift+Tab".to_string(), "Alt+ArrowUp".to_string()]);
    let read = deserialize(&bindings).unwrap();
    assert_eq!(read.len(), 2);
    assert_eq!(read[0].modifiers, shortcuts[0].modifiers);
    assert_eq!(read[0].key, "Tab");
    assert_eq!(read[1].modifiers, shortcuts[1].modifiers);
    assert_eq!(read[1].key, "ArrowUp");

    let broken = vec!["Shift+Tab".to_string(), "bad+X".to_string(), "ctrl+Nope".to_string()];
    assert_eq!(deserialize(&broken).unwrap_err(), "Unknown modifier: bad");
}
