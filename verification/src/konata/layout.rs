//! How a view lays out a model's rows: the logical rows it shows (all rows, or only the
//! rows that were not flushed), how a row of one trace is aligned with a row of another,
//! and the tick and cycle arithmetic of the view.
use vstd::prelude::*;
use crate::konata::bits::count_true;
use crate::konata::columns::{present_u32, present_u64, MISSING_U32};
use crate::konata::flags::FlushState;
use crate::konata::index::tick_distance;
use crate::konata::model::{unique_thread_row, KonataModel};
use crate::konata::names::{table_text, thread_rid_answer};
use crate::konata::state::KonataAlignmentMode;
use crate::konata::visibility::shown;

verus! {

/// For every row, whether it is shown while flushed rows are hidden.
pub open spec fn shown_rows(m: KonataModel) -> Seq<bool> {
    m.rows.flushed@.map_values(|s: FlushState| shown(s))
}

/// Number of logical rows: the shown rows when flushed rows are hidden, all rows otherwise.
pub open spec fn logical_row_count(m: KonataModel, hide_flushed: bool) -> nat {
    if hide_flushed {
        count_true(shown_rows(m), m.row_count_spec())
    } else {
        m.row_count_spec() as nat
    }
}

/// Number of logical rows of the view.
pub fn visible_row_count(model: &KonataModel, hide_flushed: bool) -> (count: usize)
    requires
        model.wf(),
    ensures
        count == logical_row_count(*model, hide_flushed),
{
    proof {
        model.lemma_visibility();
    }
    if hide_flushed {
        model.visibility.visible_count()
    } else {
        model.row_count()
    }
}

/// The model row shown as logical row `visible`, if there are that many logical rows.
pub fn physical_row(model: &KonataModel, hide_flushed: bool, visible: usize) -> (row: Option<usize>)
    requires
        model.wf(),
    ensures
        row is None <==> visible >= logical_row_count(*model, hide_flushed),
        hide_flushed ==> (row matches Some(r) ==> r < model.row_count_spec() && shown_rows(*model)[r as int]
            && count_true(shown_rows(*model), r as int) == visible),
        !hide_flushed ==> (row matches Some(r) ==> r == visible),
{
    proof {
        model.lemma_visibility();
    }
    if hide_flushed {
        model.visibility.select(visible)
    } else if visible < model.row_count() {
        Some(visible)
    } else {
        None
    }
}

/// The logical row of model row `row`: the number of shown rows before it when flushed
/// rows are hidden (rows past the end count as the end), the row itself otherwise.
pub fn visible_index_of(model: &KonataModel, hide_flushed: bool, row: usize) -> (index: usize)
    requires
        model.wf(),
    ensures
        hide_flushed ==> index == count_true(
            shown_rows(*model),
            if row < model.row_count_spec() { row as int } else { model.row_count_spec() },
        ),
        !hide_flushed ==> index == row,
{
    proof {
        model.lemma_visibility();
    }
    if hide_flushed {
        model.visibility.rank(row)
    } else {
        row
    }
}

/// Model row `row` is shown in the view: it exists, and is not flushed when flushed rows
/// are hidden.
pub open spec fn row_shown(m: KonataModel, hide_flushed: bool, row: usize) -> bool {
    row < m.row_count_spec() && (!hide_flushed || shown_rows(m)[row as int])
}

/// The keyboard row when it is shown, else the model row of logical row `center` (held at
/// the last logical row).
pub fn keyboard_or_center_row(model: &KonataModel, hide_flushed: bool, keyboard_row: Option<usize>, center: usize) -> (row: Option<usize>)
    requires
        model.wf(),
    ensures
        match keyboard_row {
            Some(k) if row_shown(*model, hide_flushed, k) => row == Some(k),
            _ => {
                let count = logical_row_count(*model, hide_flushed);
                let visible = if center < count { center as int } else if count > 0 { count - 1 } else { 0 };
                row is None <==> count == 0
                    && (row matches Some(r) ==> visible_index_spec(*model, hide_flushed, r) == visible && row_shown(*model, hide_flushed, r))
            },
        },
{
    proof {
        model.lemma_visibility();
    }
    if let Some(k) = keyboard_row {
        if k < model.row_count() && (!hide_flushed || model.visibility.is_visible(k)) {
            return Some(k);
        }
    }
    let count = visible_row_count(model, hide_flushed);
    let visible = if center < count { center } else if count > 0 { count - 1 } else { 0 };
    let row = physical_row(model, hide_flushed, visible);
    proof {
        if let Some(r) = row {
            lemma_logical_index(*model, hide_flushed, r, visible);
        }
    }
    row
}

/// The model row `delta` logical rows from the keyboard row (when it is shown) or else
/// from logical row `top` (held at the last logical row); the move stops at the first and
/// the last logical row. None when no row is shown.
pub fn advance_keyboard_row(
    model: &KonataModel,
    hide_flushed: bool,
    keyboard_row: Option<usize>,
    top: usize,
    delta: isize,
) -> (row: Option<usize>)
    requires
        model.wf(),
    ensures
        ({
            let count = logical_row_count(*model, hide_flushed);
            let current = match keyboard_row {
                Some(k) if row_shown(*model, hide_flushed, k) => visible_index_spec(*model, hide_flushed, k),
                _ => if top < count { top as int } else { count - 1 },
            };
            let moved = current + delta;
            let next = if moved < 0 { 0 } else if moved > count - 1 { count - 1 } else { moved };
            &&& row is None <==> count == 0
            &&& row matches Some(r) ==> visible_index_spec(*model, hide_flushed, r) == next && row_shown(*model, hide_flushed, r)
        }),
{
    proof {
        model.lemma_visibility();
    }
    let count = visible_row_count(model, hide_flushed);
    if count == 0 {
        return None;
    }
    let current = match keyboard_row {
        Some(k) if k < model.row_count() && (!hide_flushed || model.visibility.is_visible(k)) => {
            let index = visible_index_of(model, hide_flushed, k);
            proof {
                if hide_flushed {
                    crate::konata::bits::lemma_count_true_bounds(shown_rows(*model), k as int);
                    crate::konata::bits::lemma_count_true_monotone(shown_rows(*model), k as int + 1, model.row_count_spec());
                    assert(crate::konata::bits::count_true(shown_rows(*model), k + 1) == crate::konata::bits::count_true(shown_rows(*model), k as int) + 1);
                }
            }
            index
        },
        _ => if top < count { top } else { count - 1 },
    };
    let next = if delta < 0 {
        let back: usize = if delta == isize::MIN { isize::MAX as usize + 1 } else { (-delta) as usize };
        if back > current { 0 } else { current - back }
    } else {
        let forward = delta as usize;
        if forward > count - 1 - current { count - 1 } else { current + forward }
    };
    let row = physical_row(model, hide_flushed, next);
    proof {
        if let Some(r) = row {
            lemma_logical_index(*model, hide_flushed, r, next);
        }
    }
    row
}

/// The logical row of model row `r` (shown rows before it when flushed rows are hidden).
pub open spec fn visible_index_spec(m: KonataModel, hide_flushed: bool, r: usize) -> int {
    if hide_flushed {
        count_true(shown_rows(m), r as int) as int
    } else {
        r as int
    }
}

/// The row that `physical_row` gives for logical row `v` has logical row `v` and is shown.
proof fn lemma_logical_index(m: KonataModel, hide_flushed: bool, r: usize, v: usize)
    requires
        r < m.row_count_spec(),
        hide_flushed ==> shown_rows(m)[r as int] && count_true(shown_rows(m), r as int) == v,
        !hide_flushed ==> r == v,
    ensures
        visible_index_spec(m, hide_flushed, r) == v,
        row_shown(m, hide_flushed, r),
{
}

/// The row of `target` aligned with `source_row` of `source` under `mode`.
///
/// - `ThreadRid`: the row of `target` with the same retire id on the thread of the same
///   name (rows without a thread match rows without a thread), when exactly one row has
///   that pair; none when the source row has no retire id.
/// - `FetchId`: the row with the same number, when `target` has it.
/// - `Timestamp`: the row of `target` whose begin tick is nearest to the source row's.
pub open spec fn aligned_row_answer(
    source: KonataModel,
    target: KonataModel,
    source_row: int,
    mode: KonataAlignmentMode,
    row: Option<usize>,
) -> bool {
    match mode {
        KonataAlignmentMode::ThreadRid => match present_u64(source.rows.rid@[source_row]) {
            None => row is None,
            Some(rid) => match present_u32(source.rows.tid@[source_row]) {
                Some(tid) => thread_rid_answer(
                    target,
                    table_text(source.strings@, source.thread_names@, tid as int, Seq::empty()),
                    rid,
                    row,
                ),
                None => (row is Some <==> unique_thread_row(target.rows.tid@, target.rows.rid@, MISSING_U32, rid))
                    && (row matches Some(r) ==> r < target.row_count_spec() && target.rows.rid@[r as int] == rid
                    && target.rows.tid@[r as int] == MISSING_U32),
            },
        },
        KonataAlignmentMode::FetchId => row == (if source_row < target.row_count_spec() {
            Some(source_row as usize)
        } else {
            None
        }),
        KonataAlignmentMode::Timestamp => (row is None <==> target.row_count_spec() == 0) && (row matches Some(r)
            ==> r < target.row_count_spec() && forall|q: int|
            0 <= q < target.row_count_spec() ==> tick_distance(target.rows.begin@[r as int], source.rows.begin@[source_row])
                <= tick_distance(#[trigger] target.rows.begin@[q], source.rows.begin@[source_row])),
    }
}

/// The row of `target` aligned with `source_row` of `source` under `mode`.
pub fn aligned_row(source: &KonataModel, target: &KonataModel, source_row: usize, mode: KonataAlignmentMode) -> (row: Option<usize>)
    requires
        source.wf(),
        target.wf(),
        source_row < source.row_count_spec(),
    ensures
        aligned_row_answer(*source, *target, source_row as int, mode, row),
{
    proof {
        source.lemma_rows_wf();
    }
    match mode {
        KonataAlignmentMode::ThreadRid => {
            let rid = match source.rows.rid(source_row) {
                Some(rid) => rid,
                None => return None,
            };
            match source.rows.tid(source_row) {
                Some(tid) => target.row_for_thread_named(source.thread_name(tid), rid),
                None => target.row_for_thread_id_rid(None, rid),
            }
        },
        KonataAlignmentMode::FetchId => if source_row < target.row_count() {
            Some(source_row)
        } else {
            None
        },
        KonataAlignmentMode::Timestamp => target.nearest_row_for_tick(source.rows.begin[source_row]),
    }
}

/// The label of an alignment mode.
pub fn alignment_label(mode: KonataAlignmentMode) -> (label: &'static str)
    ensures
        label@ == match mode {
            KonataAlignmentMode::ThreadRid => "thread + RID"@,
            KonataAlignmentMode::FetchId => "fetch ID"@,
            KonataAlignmentMode::Timestamp => "timestamp"@,
        },
{
    match mode {
        KonataAlignmentMode::ThreadRid => "thread + RID",
        KonataAlignmentMode::FetchId => "fetch ID",
        KonataAlignmentMode::Timestamp => "timestamp",
    }
}

/// `tick` moved by `shift`, held within the range of ticks.
pub open spec fn shifted_tick(tick: u64, shift: i128) -> int {
    let moved = tick + shift;
    if moved < 0 {
        0
    } else if moved > u64::MAX {
        u64::MAX as int
    } else {
        moved
    }
}

/// Moves a tick by a signed amount, stopping at tick zero and at the largest tick.
pub fn shift_tick(tick: u64, shift: i128) -> (moved: u64)
    ensures
        moved == shifted_tick(tick, shift),
{
    let wide = tick as i128;
    if shift < 0 {
        let back = if shift == i128::MIN { u64::MAX as i128 + 1 } else { -shift };
        if back > wide {
            0
        } else {
            (wide - back) as u64
        }
    } else if shift > u64::MAX as i128 - wide {
        u64::MAX
    } else {
        (wide + shift) as u64
    }
}

/// A duration counted in whole clock periods, when it is a whole number of them.
pub fn whole_cycle_count(duration: u64, period: u64) -> (cycles: Option<u64>)
    requires
        period > 0,
    ensures
        cycles == (if duration % period == 0 { Some((duration / period) as u64) } else { None::<u64> }),
{
    if duration % period == 0 {
        Some(duration / period)
    } else {
        None
    }
}

} // verus!
