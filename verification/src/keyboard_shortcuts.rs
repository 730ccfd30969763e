//! Keyboard shortcuts: the actions they trigger, the shortcuts bound to each action, and
//! the order in which actions are matched against a key press.
use vstd::prelude::*;

pub mod keyboard_shortcuts_serde;

verus! {

/// An action that a keyboard shortcut triggers.
#[derive(Debug, Clone, Copy, PartialEq, Eq, Structural)]
pub enum ShortcutAction {
    OpenFile,
    SwitchFile,
    Redo,
    Undo,
    ToggleSidePanel,
    ToggleToolbar,
    GoToEnd,
    GoToStart,
    SaveStateFile,
    GoToTop,
    GoToBottom,
    ItemFocus,
    GroupNew,
    SelectAll,
    SelectToggle,
    ReloadWaveform,
    ZoomIn,
    ZoomOut,
    UiZoomIn,
    UiZoomOut,
    ScrollUp,
    ScrollDown,
    DeleteSelected,
    MarkerAdd,
    ToggleMenu,
    ShowCommandPrompt,
    RenameItem,
    DividerAdd,
    ZoomToFit,
    ZoomToCursor,
    GoToTime,
    FocusVariableNameFilter,
    TileSplitRight,
    TileSplitDown,
    TileClose,
    TileNext,
    TilePrev,
    TileFocusLeft,
    TileFocusRight,
    TileFocusUp,
    TileFocusDown,
    TileMoveLeft,
    TileMoveRight,
    TileMoveUp,
    TileMoveDown,
    ShowLogs,
}

/// The modifier keys held with a shortcut.
#[derive(Debug, Clone, Copy, PartialEq, Eq, Structural)]
pub struct ShortcutModifiers {
    pub alt: bool,
    pub ctrl: bool,
    pub shift: bool,
    pub mac_cmd: bool,
    pub command: bool,
}

/// A shortcut: modifiers and the name of the logical key.
#[derive(Debug, Clone)]
pub struct KeyboardShortcut {
    pub modifiers: ShortcutModifiers,
    pub key: String,
}

/// The priority of a shortcut's modifiers, when they decide one: Shift+Alt first, then
/// Alt, then Shift.
pub open spec fn shortcut_priority(modifiers: ShortcutModifiers) -> Option<u8> {
    if modifiers.shift && modifiers.alt {
        Some(0u8)
    } else if modifiers.alt {
        Some(1u8)
    } else if modifiers.shift {
        Some(2u8)
    } else {
        None
    }
}

/// The priority of an action's shortcuts: that of the first shortcut with Shift or Alt,
/// else the lowest, 3.
pub open spec fn priority_of(shortcuts: Seq<KeyboardShortcut>) -> u8
    decreases shortcuts.len(),
{
    if shortcuts.len() == 0 {
        3u8
    } else {
        match shortcut_priority(shortcuts[0].modifiers) {
            Some(p) => p,
            None => priority_of(shortcuts.drop_first()),
        }
    }
}

/// Determines the priority of an action's shortcuts. Actions whose shortcuts hold more
/// modifiers are matched first, because a key press also matches shortcuts with fewer
/// modifiers.
pub fn modifier_priority(shortcuts: &[KeyboardShortcut]) -> (priority: u8)
    ensures
        priority == priority_of(shortcuts@),
{
    proof {
        assert(shortcuts@.skip(0) =~= shortcuts@);
    }
    let mut i: usize = 0;
    while i < shortcuts.len()
        invariant
            i <= shortcuts.len(),
            priority_of(shortcuts@) == priority_of(shortcuts@.skip(i as int)),
        decreases shortcuts.len() - i,
    {
        let m = shortcuts[i].modifiers;
        proof {
            assert(shortcuts@.skip(i as int)[0] == shortcuts@[i as int]);
            assert(shortcuts@.skip(i as int).drop_first() =~= shortcuts@.skip(i + 1));
        }
        if m.shift && m.alt {
            return 0;
        } else if m.alt {
            return 1;
        } else if m.shift {
            return 2;
        }
        i = i + 1;
    }
    proof {
        assert(shortcuts@.skip(i as int).len() == 0);
    }
    3
}

/// An action with the priority of its shortcuts.
#[derive(Debug, Clone, Copy, PartialEq, Eq, Structural)]
pub struct DispatchEntry {
    pub action: ShortcutAction,
    pub priority: u8,
}

/// The actions in the order in which they are listed before sorting.
pub open spec fn listed_actions() -> Seq<ShortcutAction> {
    seq![
        ShortcutAction::OpenFile,
        ShortcutAction::SwitchFile,
        ShortcutAction::Redo,
        ShortcutAction::Undo,
        ShortcutAction::ToggleSidePanel,
        ShortcutAction::ToggleToolbar,
        ShortcutAction::GoToEnd,
        ShortcutAction::GoToStart,
        ShortcutAction::SaveStateFile,
        ShortcutAction::GoToTop,
        ShortcutAction::GoToBottom,
        ShortcutAction::GroupNew,
        ShortcutAction::ItemFocus,
        ShortcutAction::SelectAll,
        ShortcutAction::SelectToggle,
        ShortcutAction::ReloadWaveform,
        ShortcutAction::ZoomIn,
        ShortcutAction::ZoomOut,
        ShortcutAction::UiZoomIn,
        ShortcutAction::UiZoomOut,
        ShortcutAction::ScrollUp,
        ShortcutAction::ScrollDown,
        ShortcutAction::DeleteSelected,
        ShortcutAction::MarkerAdd,
        ShortcutAction::ToggleMenu,
        ShortcutAction::ShowCommandPrompt,
        ShortcutAction::RenameItem,
        ShortcutAction::DividerAdd,
        ShortcutAction::ZoomToFit,
        ShortcutAction::ZoomToCursor,
        ShortcutAction::GoToTime,
        ShortcutAction::FocusVariableNameFilter,
        ShortcutAction::TileSplitRight,
        ShortcutAction::TileSplitDown,
        ShortcutAction::TileClose,
        ShortcutAction::TileNext,
        ShortcutAction::TilePrev,
        ShortcutAction::TileFocusLeft,
        ShortcutAction::TileFocusRight,
        ShortcutAction::TileFocusUp,
        ShortcutAction::TileFocusDown,
        ShortcutAction::TileMoveLeft,
        ShortcutAction::TileMoveRight,
        ShortcutAction::TileMoveUp,
        ShortcutAction::TileMoveDown,
        ShortcutAction::ShowLogs,
    ]
}

/// The entries of `table` with priority `p`, in order.
pub open spec fn with_priority(table: Seq<DispatchEntry>, p: u8) -> Seq<DispatchEntry> {
    table.filter(|e: DispatchEntry| e.priority == p)
}

/// `table` stably sorted by priority.
pub open spec fn by_priority(table: Seq<DispatchEntry>) -> Seq<DispatchEntry> {
    with_priority(table, 0) + with_priority(table, 1) + with_priority(table, 2) + with_priority(table, 3)
}

/// The shortcuts bound to each action.
#[derive(Debug, Clone)]
pub struct SurferShortcuts {
    pub open_file: Vec<KeyboardShortcut>,
    pub switch_file: Vec<KeyboardShortcut>,
    pub undo: Vec<KeyboardShortcut>,
    pub redo: Vec<KeyboardShortcut>,
    pub toggle_side_panel: Vec<KeyboardShortcut>,
    pub toggle_toolbar: Vec<KeyboardShortcut>,
    pub goto_end: Vec<KeyboardShortcut>,
    pub goto_start: Vec<KeyboardShortcut>,
    pub save_state_file: Vec<KeyboardShortcut>,
    pub goto_top: Vec<KeyboardShortcut>,
    pub goto_bottom: Vec<KeyboardShortcut>,
    pub group_new: Vec<KeyboardShortcut>,
    pub item_focus: Vec<KeyboardShortcut>,
    pub select_all: Vec<KeyboardShortcut>,
    pub select_toggle: Vec<KeyboardShortcut>,
    pub reload_waveform: Vec<KeyboardShortcut>,
    pub zoom_in: Vec<KeyboardShortcut>,
    pub zoom_out: Vec<KeyboardShortcut>,
    pub ui_zoom_in: Vec<KeyboardShortcut>,
    pub ui_zoom_out: Vec<KeyboardShortcut>,
    pub scroll_up: Vec<KeyboardShortcut>,
    pub scroll_down: Vec<KeyboardShortcut>,
    pub delete_selected: Vec<KeyboardShortcut>,
    pub marker_add: Vec<KeyboardShortcut>,
    pub toggle_menu: Vec<KeyboardShortcut>,
    pub show_command_prompt: Vec<KeyboardShortcut>,
    pub rename_item: Vec<KeyboardShortcut>,
    pub divider_add: Vec<KeyboardShortcut>,
    pub zoom_to_fit: Vec<KeyboardShortcut>,
    pub zoom_to_cursor: Vec<KeyboardShortcut>,
    pub go_to_time: Vec<KeyboardShortcut>,
    pub focus_variable_name_filter: Vec<KeyboardShortcut>,
    pub tile_split_right: Vec<KeyboardShortcut>,
    pub tile_split_down: Vec<KeyboardShortcut>,
    pub tile_close: Vec<KeyboardShortcut>,
    pub tile_next: Vec<KeyboardShortcut>,
    pub tile_prev: Vec<KeyboardShortcut>,
    pub tile_focus_left: Vec<KeyboardShortcut>,
    pub tile_focus_right: Vec<KeyboardShortcut>,
    pub tile_focus_up: Vec<KeyboardShortcut>,
    pub tile_focus_down: Vec<KeyboardShortcut>,
    pub tile_move_left: Vec<KeyboardShortcut>,
    pub tile_move_right: Vec<KeyboardShortcut>,
    pub tile_move_up: Vec<KeyboardShortcut>,
    pub tile_move_down: Vec<KeyboardShortcut>,
    pub show_logs: Vec<KeyboardShortcut>,
}

impl SurferShortcuts {
    /// The shortcuts bound to `action`.
    pub open spec fn bound(&self, action: ShortcutAction) -> Seq<KeyboardShortcut> {
        match action {
            ShortcutAction::OpenFile => self.open_file@,
            ShortcutAction::SwitchFile => self.switch_file@,
            ShortcutAction::Redo => self.redo@,
            ShortcutAction::Undo => self.undo@,
            ShortcutAction::ToggleSidePanel => self.toggle_side_panel@,
            ShortcutAction::ToggleToolbar => self.toggle_toolbar@,
            ShortcutAction::GoToEnd => self.goto_end@,
            ShortcutAction::GoToStart => self.goto_start@,
            ShortcutAction::SaveStateFile => self.save_state_file@,
            ShortcutAction::GoToTop => self.goto_top@,
            ShortcutAction::GoToBottom => self.goto_bottom@,
            ShortcutAction::ItemFocus => self.item_focus@,
            ShortcutAction::GroupNew => self.group_new@,
            ShortcutAction::SelectAll => self.select_all@,
            ShortcutAction::SelectToggle => self.select_toggle@,
            ShortcutAction::ReloadWaveform => self.reload_waveform@,
            ShortcutAction::ZoomIn => self.zoom_in@,
            ShortcutAction::ZoomOut => self.zoom_out@,
            ShortcutAction::UiZoomIn => self.ui_zoom_in@,
            ShortcutAction::UiZoomOut => self.ui_zoom_out@,
            ShortcutAction::ScrollUp => self.scroll_up@,
            ShortcutAction::ScrollDown => self.scroll_down@,
            ShortcutAction::DeleteSelected => self.delete_selected@,
            ShortcutAction::MarkerAdd => self.marker_add@,
            ShortcutAction::ToggleMenu => self.toggle_menu@,
            ShortcutAction::ShowCommandPrompt => self.show_command_prompt@,
            ShortcutAction::RenameItem => self.rename_item@,
            ShortcutAction::DividerAdd => self.divider_add@,
            ShortcutAction::ZoomToFit => self.zoom_to_fit@,
            ShortcutAction::ZoomToCursor => self.zoom_to_cursor@,
            ShortcutAction::GoToTime => self.go_to_time@,
            ShortcutAction::FocusVariableNameFilter => self.focus_variable_name_filter@,
            ShortcutAction::TileSplitRight => self.tile_split_right@,
            ShortcutAction::TileSplitDown => self.tile_split_down@,
            ShortcutAction::TileClose => self.tile_close@,
            ShortcutAction::TileNext => self.tile_next@,
            ShortcutAction::TilePrev => self.tile_prev@,
            ShortcutAction::TileFocusLeft => self.tile_focus_left@,
            ShortcutAction::TileFocusRight => self.tile_focus_right@,
            ShortcutAction::TileFocusUp => self.tile_focus_up@,
            ShortcutAction::TileFocusDown => self.tile_focus_down@,
            ShortcutAction::TileMoveLeft => self.tile_move_left@,
            ShortcutAction::TileMoveRight => self.tile_move_right@,
            ShortcutAction::TileMoveUp => self.tile_move_up@,
            ShortcutAction::TileMoveDown => self.tile_move_down@,
            ShortcutAction::ShowLogs => self.show_logs@,
        }
    }

    /// The shortcuts bound to `action`.
    pub fn shortcuts_for_action(&self, action: ShortcutAction) -> (shortcuts: &Vec<KeyboardShortcut>)
        ensures
            shortcuts@ == self.bound(action),
    {
        match action {
            ShortcutAction::OpenFile => &self.open_file,
            ShortcutAction::SwitchFile => &self.switch_file,
            ShortcutAction::Redo => &self.redo,
            ShortcutAction::Undo => &self.undo,
            ShortcutAction::ToggleSidePanel => &self.toggle_side_panel,
            ShortcutAction::ToggleToolbar => &self.toggle_toolbar,
            ShortcutAction::GoToEnd => &self.goto_end,
            ShortcutAction::GoToStart => &self.goto_start,
            ShortcutAction::SaveStateFile => &self.save_state_file,
            ShortcutAction::GoToTop => &self.goto_top,
            ShortcutAction::GoToBottom => &self.goto_bottom,
            ShortcutAction::ItemFocus => &self.item_focus,
            ShortcutAction::GroupNew => &self.group_new,
            ShortcutAction::SelectAll => &self.select_all,
            ShortcutAction::SelectToggle => &self.select_toggle,
            ShortcutAction::ReloadWaveform => &self.reload_waveform,
            ShortcutAction::ZoomIn => &self.zoom_in,
            ShortcutAction::ZoomOut => &self.zoom_out,
            ShortcutAction::UiZoomIn => &self.ui_zoom_in,
            ShortcutAction::UiZoomOut => &self.ui_zoom_out,
            ShortcutAction::ScrollUp => &self.scroll_up,
            ShortcutAction::ScrollDown => &self.scroll_down,
            ShortcutAction::DeleteSelected => &self.delete_selected,
            ShortcutAction::MarkerAdd => &self.marker_add,
            ShortcutAction::ToggleMenu => &self.toggle_menu,
            ShortcutAction::ShowCommandPrompt => &self.show_command_prompt,
            ShortcutAction::RenameItem => &self.rename_item,
            ShortcutAction::DividerAdd => &self.divider_add,
            ShortcutAction::ZoomToFit => &self.zoom_to_fit,
            ShortcutAction::ZoomToCursor => &self.zoom_to_cursor,
            ShortcutAction::GoToTime => &self.go_to_time,
            ShortcutAction::FocusVariableNameFilter => &self.focus_variable_name_filter,
            ShortcutAction::TileSplitRight => &self.tile_split_right,
            ShortcutAction::TileSplitDown => &self.tile_split_down,
            ShortcutAction::TileClose => &self.tile_close,
            ShortcutAction::TileNext => &self.tile_next,
            ShortcutAction::TilePrev => &self.tile_prev,
            ShortcutAction::TileFocusLeft => &self.tile_focus_left,
            ShortcutAction::TileFocusRight => &self.tile_focus_right,
            ShortcutAction::TileFocusUp => &self.tile_focus_up,
            ShortcutAction::TileFocusDown => &self.tile_focus_down,
            ShortcutAction::TileMoveLeft => &self.tile_move_left,
            ShortcutAction::TileMoveRight => &self.tile_move_right,
            ShortcutAction::TileMoveUp => &self.tile_move_up,
            ShortcutAction::TileMoveDown => &self.tile_move_down,
            ShortcutAction::ShowLogs => &self.show_logs,
        }
    }

    /// The dispatch entries of the listed actions, in listing order.
    pub open spec fn listed_entries(&self) -> Seq<DispatchEntry> {
        listed_actions().map_values(|a: ShortcutAction| DispatchEntry { action: a, priority: priority_of(self.bound(a)) })
    }

    /// Every action with the priority of its shortcuts, in listing order.
    #[verifier::rlimit(60)]
    pub fn listed_dispatch_entries(&self) -> (listed: Vec<DispatchEntry>)
        ensures
            listed@ == self.listed_entries(),
    {
        let mut listed: Vec<DispatchEntry> = Vec::with_capacity(46);
        listed.push(DispatchEntry { action: ShortcutAction::OpenFile, priority: modifier_priority(self.open_file.as_slice()) });
        listed.push(DispatchEntry { action: ShortcutAction::SwitchFile, priority: modifier_priority(self.switch_file.as_slice()) });
        listed.push(DispatchEntry { action: ShortcutAction::Redo, priority: modifier_priority(self.redo.as_slice()) });
        listed.push(DispatchEntry { action: ShortcutAction::Undo, priority: modifier_priority(self.undo.as_slice()) });
        listed.push(DispatchEntry { action: ShortcutAction::ToggleSidePanel, priority: modifier_priority(self.toggle_side_panel.as_slice()) });
        listed.push(DispatchEntry { action: ShortcutAction::ToggleToolbar, priority: modifier_priority(self.toggle_toolbar.as_slice()) });
        listed.push(DispatchEntry { action: ShortcutAction::GoToEnd, priority: modifier_priority(self.goto_end.as_slice()) });
        listed.push(DispatchEntry { action: ShortcutAction::GoToStart, priority: modifier_priority(self.goto_start.as_slice()) });
        listed.push(DispatchEntry { action: ShortcutAction::SaveStateFile, priority: modifier_priority(self.save_state_file.as_slice()) });
        listed.push(DispatchEntry { action: ShortcutAction::GoToTop, priority: modifier_priority(self.goto_top.as_slice()) });
        listed.push(DispatchEntry { action: ShortcutAction::GoToBottom, priority: modifier_priority(self.goto_bottom.as_slice()) });
        listed.push(DispatchEntry { action: ShortcutAction::GroupNew, priority: modifier_priority(self.group_new.as_slice()) });
        listed.push(DispatchEntry { action: ShortcutAction::ItemFocus, priority: modifier_priority(self.item_focus.as_slice()) });
        listed.push(DispatchEntry { action: ShortcutAction::SelectAll, priority: modifier_priority(self.select_all.as_slice()) });
        listed.push(DispatchEntry { action: ShortcutAction::SelectToggle, priority: modifier_priority(self.select_toggle.as_slice()) });
        listed.push(DispatchEntry { action: ShortcutAction::ReloadWaveform, priority: modifier_priority(self.reload_waveform.as_slice()) });
        listed.push(DispatchEntry { action: ShortcutAction::ZoomIn, priority: modifier_priority(self.zoom_in.as_slice()) });
        listed.push(DispatchEntry { action: ShortcutAction::ZoomOut, priority: modifier_priority(self.zoom_out.as_slice()) });
        listed.push(DispatchEntry { action: ShortcutAction::UiZoomIn, priority: modifier_priority(self.ui_zoom_in.as_slice()) });
        listed.push(DispatchEntry { action: ShortcutAction::UiZoomOut, priority: modifier_priority(self.ui_zoom_out.as_slice()) });
        listed.push(DispatchEntry { action: ShortcutAction::ScrollUp, priority: modifier_priority(self.scroll_up.as_slice()) });
        listed.push(DispatchEntry { action: ShortcutAction::ScrollDown, priority: modifier_priority(self.scroll_down.as_slice()) });
        listed.push(DispatchEntry { action: ShortcutAction::DeleteSelected, priority: modifier_priority(self.delete_selected.as_slice()) });
        listed.push(DispatchEntry { action: ShortcutAction::MarkerAdd, priority: modifier_priority(self.marker_add.as_slice()) });
        listed.push(DispatchEntry { action: ShortcutAction::ToggleMenu, priority: modifier_priority(self.toggle_menu.as_slice()) });
        listed.push(DispatchEntry { action: ShortcutAction::ShowCommandPrompt, priority: modifier_priority(self.show_command_prompt.as_slice()) });
        listed.push(DispatchEntry { action: ShortcutAction::RenameItem, priority: modifier_priority(self.rename_item.as_slice()) });
        listed.push(DispatchEntry { action: ShortcutAction::DividerAdd, priority: modifier_priority(self.divider_add.as_slice()) });
        listed.push(DispatchEntry { action: ShortcutAction::ZoomToFit, priority: modifier_priority(self.zoom_to_fit.as_slice()) });
        listed.push(DispatchEntry { action: ShortcutAction::ZoomToCursor, priority: modifier_priority(self.zoom_to_cursor.as_slice()) });
        listed.push(DispatchEntry { action: ShortcutAction::GoToTime, priority: modifier_priority(self.go_to_time.as_slice()) });
        listed.push(DispatchEntry { action: ShortcutAction::FocusVariableNameFilter, priority: modifier_priority(self.focus_variable_name_filter.as_slice()) });
        listed.push(DispatchEntry { action: ShortcutAction::TileSplitRight, priority: modifier_priority(self.tile_split_right.as_slice()) });
        listed.push(DispatchEntry { action: ShortcutAction::TileSplitDown, priority: modifier_priority(self.tile_split_down.as_slice()) });
        listed.push(DispatchEntry { action: ShortcutAction::TileClose, priority: modifier_priority(self.tile_close.as_slice()) });
        listed.push(DispatchEntry { action: ShortcutAction::TileNext, priority: modifier_priority(self.tile_next.as_slice()) });
        listed.push(DispatchEntry { action: ShortcutAction::TilePrev, priority: modifier_priority(self.tile_prev.as_slice()) });
        listed.push(DispatchEntry { action: ShortcutAction::TileFocusLeft, priority: modifier_priority(self.tile_focus_left.as_slice()) });
        listed.push(DispatchEntry { action: ShortcutAction::TileFocusRight, priority: modifier_priority(self.tile_focus_right.as_slice()) });
        listed.push(DispatchEntry { action: ShortcutAction::TileFocusUp, priority: modifier_priority(self.tile_focus_up.as_slice()) });
        listed.push(DispatchEntry { action: ShortcutAction::TileFocusDown, priority: modifier_priority(self.tile_focus_down.as_slice()) });
        listed.push(DispatchEntry { action: ShortcutAction::TileMoveLeft, priority: modifier_priority(self.tile_move_left.as_slice()) });
        listed.push(DispatchEntry { action: ShortcutAction::TileMoveRight, priority: modifier_priority(self.tile_move_right.as_slice()) });
        listed.push(DispatchEntry { action: ShortcutAction::TileMoveUp, priority: modifier_priority(self.tile_move_up.as_slice()) });
        listed.push(DispatchEntry { action: ShortcutAction::TileMoveDown, priority: modifier_priority(self.tile_move_down.as_slice()) });
        listed.push(DispatchEntry { action: ShortcutAction::ShowLogs, priority: modifier_priority(self.show_logs.as_slice()) });
        proof {
            assert(listed@ =~= self.listed_entries());
        }
        listed
    }

    /// Every action with the priority of its shortcuts, stably sorted by priority (Shift+Alt
    /// first, unmodified last).
    pub fn build_dispatch_table(&self) -> (table: Vec<DispatchEntry>)
        ensures
            table@ == by_priority(self.listed_entries()),
    {
        let listed = self.listed_dispatch_entries();
        let mut table: Vec<DispatchEntry> = Vec::with_capacity(46);
        let mut p: u8 = 0;
        while p < 4
            invariant
                p <= 4,
                listed@ == self.listed_entries(),
                table@ == (if p == 0 {
                    Seq::<DispatchEntry>::empty()
                } else if p == 1 {
                    with_priority(listed@, 0)
                } else if p == 2 {
                    with_priority(listed@, 0) + with_priority(listed@, 1)
                } else if p == 3 {
                    with_priority(listed@, 0) + with_priority(listed@, 1) + with_priority(listed@, 2)
                } else {
                    by_priority(listed@)
                }),
            decreases 4 - p,
        {
            let ghost before = table@;
            let mut i: usize = 0;
            while i < listed.len()
                invariant
                    i <= listed@.len(),
                    p < 4,
                    table@ == before + with_priority(listed@.take(i as int), p),
                decreases listed.len() - i,
            {
                let entry = listed[i];
                proof {
                    lemma_filter_step(listed@, i as int, p);
                }
                if entry.priority == p {
                    table.push(entry);
                }
                i = i + 1;
            }
            proof {
                assert(listed@.take(listed@.len() as int) =~= listed@);
            }
            p = p + 1;
        }
        table
    }
}

proof fn lemma_filter_step(s: Seq<DispatchEntry>, i: int, p: u8)
    requires
        0 <= i < s.len(),
    ensures
        with_priority(s.take(i + 1), p) == if s[i].priority == p {
            with_priority(s.take(i), p).push(s[i])
        } else {
            with_priority(s.take(i), p)
        },
{
    reveal(Seq::filter);
    assert(s.take(i + 1).drop_last() =~= s.take(i));
    assert(s.take(i + 1).last() == s[i]);
}

} // verus!
