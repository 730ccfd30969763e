//! The text form of keyboard shortcuts in the configuration: a binding names its modifiers
//! and then its key, joined by `+` (such as `Ctrl+Shift+A`).
use vstd::prelude::*;
use crate::keyboard_shortcuts::{KeyboardShortcut, ShortcutModifiers};
use crate::keys::trimmed;
use crate::konata::lists::{piece_bounds, pieces, trim_range};
use crate::konata::texts::{chars_of, str_eq, string_of};

verus! {

/// The key that egui's key table gives to `name` (a name or symbol), by the variant name
/// that its `Debug` form writes; none for a name that the table does not hold.
pub uninterp spec fn key_variant_named(name: Seq<char>) -> Option<Seq<char>>;

/// The text with every character replaced by its Unicode lowercase mapping.
pub uninterp spec fn lowercased(text: Seq<char>) -> Seq<char>;

/// `egui::Key::from_name`: looks `name` up in egui's table of key names and symbols, and
/// writes the key it finds with `Debug`, which gives its variant name.
#[verifier::external_body]
fn key_from_name(name: &str) -> (key: Option<String>)
    ensures
        match key {
            Some(k) => key_variant_named(name@) == Some(k@),
            None => key_variant_named(name@) is None,
        },
{
    match egui::Key::from_name(name) {
        Some(key) => Some(format!("{key:?}")),
        None => None,
    }
}

/// `str::to_lowercase`: the lowercase mapping of every character.
#[verifier::external_body]
fn lowercase(text: &str) -> (lower: String)
    ensures
        lower@ == lowercased(text@),
{
    text.to_lowercase()
}

/// Whether the held modifiers cover the queried ones, as `egui::Modifiers::contains`
/// decides it: Alt and Shift must be held when queried; Ctrl is covered by Ctrl or Command,
/// the Mac Command key by itself or Command, and Command by Ctrl, Command or the Mac
/// Command key.
pub open spec fn covers(held: ShortcutModifiers, query: ShortcutModifiers) -> bool {
    &&& query.alt ==> held.alt
    &&& query.shift ==> held.shift
    &&& query.ctrl ==> held.ctrl || held.command
    &&& query.mac_cmd ==> held.mac_cmd || held.command
    &&& query.command ==> held.ctrl || held.command || held.mac_cmd
}

/// `egui::Modifiers::contains`: its recursion removes a queried modifier once a held one
/// covers it and answers whether nothing queried is left; that is `covers`.
#[verifier::external_body]
fn modifiers_contain(held: ShortcutModifiers, query: ShortcutModifiers) -> (contained: bool)
    ensures
        contained == covers(held, query),
{
    let held = egui::Modifiers {
        alt: held.alt,
        ctrl: held.ctrl,
        shift: held.shift,
        mac_cmd: held.mac_cmd,
        command: held.command,
    };
    let query = egui::Modifiers {
        alt: query.alt,
        ctrl: query.ctrl,
        shift: query.shift,
        mac_cmd: query.mac_cmd,
        command: query.command,
    };
    held.contains(query)
}

/// No modifier held.
pub open spec fn no_modifiers() -> ShortcutModifiers {
    ShortcutModifiers { alt: false, ctrl: false, shift: false, mac_cmd: false, command: false }
}

/// The modifiers held in `a` or in `b`.
pub open spec fn either(a: ShortcutModifiers, b: ShortcutModifiers) -> ShortcutModifiers {
    ShortcutModifiers {
        alt: a.alt || b.alt,
        ctrl: a.ctrl || b.ctrl,
        shift: a.shift || b.shift,
        mac_cmd: a.mac_cmd || b.mac_cmd,
        command: a.command || b.command,
    }
}

/// The modifier that a lowercase name stands for: `ctrl`, `shift`, `alt`, `mac_cmd`, and
/// `command` or `cmd`.
pub open spec fn modifier_named(lower: Seq<char>) -> Option<ShortcutModifiers> {
    let none = no_modifiers();
    if lower == "ctrl"@ {
        Some(ShortcutModifiers { ctrl: true, ..none })
    } else if lower == "shift"@ {
        Some(ShortcutModifiers { shift: true, ..none })
    } else if lower == "alt"@ {
        Some(ShortcutModifiers { alt: true, ..none })
    } else if lower == "mac_cmd"@ {
        Some(ShortcutModifiers { mac_cmd: true, ..none })
    } else if lower == "command"@ || lower == "cmd"@ {
        Some(ShortcutModifiers { command: true, ..none })
    } else {
        None
    }
}

/// The modifiers that the modifier names stand for (matched without regard to case), or
/// the first name that stands for none.
pub open spec fn fold_modifiers(names: Seq<Seq<char>>) -> Result<ShortcutModifiers, Seq<char>>
    decreases names.len(),
{
    if names.len() == 0 {
        Ok(no_modifiers())
    } else {
        match fold_modifiers(names.drop_last()) {
            Err(name) => Err(name),
            Ok(held) => match modifier_named(lowercased(names.last())) {
                Some(m) => Ok(either(held, m)),
                None => Err(names.last()),
            },
        }
    }
}

/// The parts of a binding: its pieces between `+` signs, trimmed.
pub open spec fn binding_parts(binding: Seq<char>) -> Seq<Seq<char>> {
    pieces(binding, '+').map_values(|piece: Seq<char>| trimmed(piece))
}

/// What a binding reads as: the last part names the key, the parts before it the
/// modifiers; an unknown key is reported before an unknown modifier.
pub open spec fn binding_parse(binding: Seq<char>) -> Result<(ShortcutModifiers, Seq<char>), Seq<char>> {
    let parts = binding_parts(binding);
    let key_name = parts.last();
    match key_variant_named(key_name) {
        None => Err("Unknown key: "@ + key_name),
        Some(key) => match fold_modifiers(parts.drop_last()) {
            Err(name) => Err("Unknown modifier: "@ + name),
            Ok(held) => Ok((held, key)),
        },
    }
}

/// `name` and a `+` when the held modifiers cover `query`, else nothing.
pub open spec fn name_if(held: ShortcutModifiers, query: ShortcutModifiers, name: Seq<char>) -> Seq<char> {
    if covers(held, query) {
        name + "+"@
    } else {
        Seq::empty()
    }
}

/// The binding text of a shortcut: the names of the covered modifiers in the order Ctrl,
/// Shift, Alt, Mac_cmd, Command, each followed by `+`, then the key.
pub open spec fn binding_text(held: ShortcutModifiers, key: Seq<char>) -> Seq<char> {
    let none = no_modifiers();
    name_if(held, ShortcutModifiers { ctrl: true, ..none }, "Ctrl"@) + name_if(
        held,
        ShortcutModifiers { shift: true, ..none },
        "Shift"@,
    ) + name_if(held, ShortcutModifiers { alt: true, ..none }, "Alt"@) + name_if(
        held,
        ShortcutModifiers { mac_cmd: true, ..none },
        "Mac_cmd"@,
    ) + name_if(held, ShortcutModifiers { command: true, ..none }, "Command"@) + key
}

/// The modifiers with only the given ones held.
fn modifiers(alt: bool, ctrl: bool, shift: bool, mac_cmd: bool, command: bool) -> (held: ShortcutModifiers)
    ensures
        held == (ShortcutModifiers { alt, ctrl, shift, mac_cmd, command }),
{
    ShortcutModifiers { alt, ctrl, shift, mac_cmd, command }
}

/// `name` and a `+` when `held` covers `query`, else nothing.
fn name_part(held: ShortcutModifiers, query: ShortcutModifiers, name: &str) -> (text: String)
    ensures
        text@ == name_if(held, query, name@),
{
    if modifiers_contain(held, query) {
        String::from_str(name).concat("+")
    } else {
        String::new()
    }
}

/// Writes a shortcut as a binding: the names of the modifiers it holds, then its key,
/// joined by `+`.
pub fn format_binding(held: ShortcutModifiers, key: &str) -> (text: String)
    ensures
        text@ == binding_text(held, key@),
{
    let text = name_part(held, modifiers(false, true, false, false, false), "Ctrl").concat(
        name_part(held, modifiers(false, false, true, false, false), "Shift").as_str(),
    ).concat(name_part(held, modifiers(true, false, false, false, false), "Alt").as_str()).concat(
        name_part(held, modifiers(false, false, false, true, false), "Mac_cmd").as_str(),
    ).concat(name_part(held, modifiers(false, false, false, false, true), "Command").as_str()).concat(key);
    proof {
        assert(text@ =~= binding_text(held, key@));
    }
    text
}

/// The modifier that a lowercase name stands for.
fn modifier_for(lower: &str) -> (m: Option<ShortcutModifiers>)
    ensures
        m == modifier_named(lower@),
{
    if str_eq(lower, "ctrl") {
        Some(modifiers(false, true, false, false, false))
    } else if str_eq(lower, "shift") {
        Some(modifiers(false, false, true, false, false))
    } else if str_eq(lower, "alt") {
        Some(modifiers(true, false, false, false, false))
    } else if str_eq(lower, "mac_cmd") {
        Some(modifiers(false, false, false, true, false))
    } else if str_eq(lower, "command") || str_eq(lower, "cmd") {
        Some(modifiers(false, false, false, false, true))
    } else {
        None
    }
}

/// Reads a binding: the last `+`-separated part names the key (a name or symbol from
/// egui's key table), the parts before it the modifiers `ctrl`, `shift`, `alt`, `mac_cmd`,
/// `command` or `cmd` in any case; parts are trimmed. An unknown key or modifier is
/// reported with its text.
pub fn parse_binding(binding: &str) -> (parsed: Result<KeyboardShortcut, String>)
    ensures
        match parsed {
            Ok(shortcut) => binding_parse(binding@) == Ok::<(ShortcutModifiers, Seq<char>), Seq<char>>(
                (shortcut.modifiers, shortcut.key@),
            ),
            Err(message) => binding_parse(binding@) == Err::<(ShortcutModifiers, Seq<char>), Seq<char>>(message@),
        },
{
    let chars = chars_of(binding);
    let bounds = piece_bounds(&chars, '+');
    let ghost parts = binding_parts(binding@);
    let n = bounds.len();
    let (ka, kb) = trim_range(&chars, bounds[n - 1].0, bounds[n - 1].1);
    let key_name = string_of(&chars.as_slice()[ka..kb]);
    proof {
        assert(parts.last() == trimmed(pieces(binding@, '+')[n - 1]));
        assert(key_name@ == parts.last());
    }
    let key = match key_from_name(key_name.as_str()) {
        Some(key) => key,
        None => {
            return Err(String::from_str("Unknown key: ").concat(key_name.as_str()));
        },
    };
    let mut held = modifiers(false, false, false, false, false);
    let mut k: usize = 0;
    while k < n - 1
        invariant
            n == bounds@.len() == parts.len(),
            1 <= n,
            k <= n - 1,
            parts == binding_parts(binding@),
            chars@ == binding@,
            forall|j: int|
                0 <= j < bounds@.len() ==> (#[trigger] bounds@[j]).0 <= bounds@[j].1 <= chars@.len()
                    && chars@.subrange(bounds@[j].0 as int, bounds@[j].1 as int) == pieces(chars@, '+')[j],
            fold_modifiers(parts.take(k as int)) == Ok::<ShortcutModifiers, Seq<char>>(held),
            key_variant_named(parts.last()) == Some(key@),
        decreases n - 1 - k,
    {
        let (a, b) = trim_range(&chars, bounds[k].0, bounds[k].1);
        let name = string_of(&chars.as_slice()[a..b]);
        proof {
            assert(name@ == parts[k as int]);
            assert(parts.take(k + 1).drop_last() =~= parts.take(k as int));
            assert(parts.take(k + 1).last() == parts[k as int]);
        }
        let lower = lowercase(name.as_str());
        match modifier_for(lower.as_str()) {
            Some(m) => {
                held = ShortcutModifiers {
                    alt: held.alt || m.alt,
                    ctrl: held.ctrl || m.ctrl,
                    shift: held.shift || m.shift,
                    mac_cmd: held.mac_cmd || m.mac_cmd,
                    command: held.command || m.command,
                };
            },
            None => {
                proof {
                    assert(parts.drop_last().take(k + 1) =~= parts.take(k + 1));
                    assert(fold_modifiers(parts.take(k + 1)) == Err::<ShortcutModifiers, Seq<char>>(parts[k as int]));
                    lemma_fold_stops(parts.drop_last(), k as int);
                }
                return Err(String::from_str("Unknown modifier: ").concat(name.as_str()));
            },
        }
        k = k + 1;
    }
    proof {
        assert(parts.take(k as int) =~= parts.drop_last());
    }
    Ok(KeyboardShortcut { modifiers: held, key })
}

/// Once the fold meets an unknown name, later names do not change its answer.
proof fn lemma_fold_stops(names: Seq<Seq<char>>, k: int)
    requires
        0 <= k < names.len(),
        fold_modifiers(names.take(k + 1)) is Err,
    ensures
        fold_modifiers(names) == fold_modifiers(names.take(k + 1)),
    decreases names.len(),
{
    if names.len() > k + 1 {
        assert(names.drop_last().take(k + 1) =~= names.take(k + 1));
        lemma_fold_stops(names.drop_last(), k);
    } else {
        assert(names.take(k + 1) =~= names);
    }
}

/// The binding texts of the shortcuts, in order.
pub fn serialize(shortcuts: &[KeyboardShortcut]) -> (bindings: Vec<String>)
    ensures
        bindings@.len() == shortcuts@.len(),
        forall|i: int|
            0 <= i < shortcuts@.len() ==> (#[trigger] bindings@[i])@ == binding_text(
                shortcuts@[i].modifiers,
                shortcuts@[i].key@,
            ),
{
    let mut bindings: Vec<String> = Vec::with_capacity(shortcuts.len());
    let mut i: usize = 0;
    while i < shortcuts.len()
        invariant
            i <= shortcuts@.len(),
            bindings@.len() == i,
            forall|j: int|
                0 <= j < i ==> (#[trigger] bindings@[j])@ == binding_text(shortcuts@[j].modifiers, shortcuts@[j].key@),
        decreases shortcuts.len() - i,
    {
        bindings.push(format_binding(shortcuts[i].modifiers, shortcuts[i].key.as_str()));
        i = i + 1;
    }
    bindings
}

/// Reads the bindings in order; the first binding that does not read gives the error.
pub fn deserialize(bindings: &[String]) -> (shortcuts: Result<Vec<KeyboardShortcut>, String>)
    ensures
        match shortcuts {
            Ok(read) => read@.len() == bindings@.len() && forall|i: int|
                0 <= i < bindings@.len() ==> binding_parse(#[trigger] bindings@[i]@)
                    == Ok::<(ShortcutModifiers, Seq<char>), Seq<char>>((read@[i].modifiers, read@[i].key@)),
            Err(message) => exists|i: int|
                0 <= i < bindings@.len() && binding_parse(#[trigger] bindings@[i]@) == Err::<
                    (ShortcutModifiers, Seq<char>),
                    Seq<char>,
                >(message@) && forall|j: int| 0 <= j < i ==> binding_parse(#[trigger] bindings@[j]@) is Ok,
        },
{
    let mut read: Vec<KeyboardShortcut> = Vec::with_capacity(bindings.len());
    let mut i: usize = 0;
    while i < bindings.len()
        invariant
            i <= bindings@.len(),
            read@.len() == i,
            forall|j: int|
                0 <= j < i ==> binding_parse(#[trigger] bindings@[j]@) == Ok::<(ShortcutModifiers, Seq<char>), Seq<char>>(
                    (read@[j].modifiers, read@[j].key@),
                ),
        decreases bindings.len() - i,
    {
        match parse_binding(bindings[i].as_str()) {
            Ok(shortcut) => read.push(shortcut),
            Err(message) => {
                proof {
                    assert(binding_parse(bindings@[i as int]@) == Err::<(ShortcutModifiers, Seq<char>), Seq<char>>(
                        message@,
                    ));
                }
                return Err(message);
            },
        }
        i = i + 1;
    }
    Ok(read)
}

} // verus!
