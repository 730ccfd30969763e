//! Edits of the shared item list: selection commands, edit errors, item identities and
//! the nesting rule that every edit keeps.
use vstd::prelude::*;

verus! {

/// Identity of a displayed item.
#[derive(Debug, Clone, Copy, PartialEq, Eq, Structural, Hash)]
pub struct DisplayedItemRef(pub usize);

/// Selection commands capture stable row identities at the input boundary.
#[derive(Debug, Clone, Copy, PartialEq, Eq, Structural)]
pub enum ItemSelection {
    SetSelected { item: DisplayedItemRef, selected: bool },
    Toggle(DisplayedItemRef),
    Range { from: DisplayedItemRef, to: DisplayedItemRef, selected: bool },
    AllVisible(bool),
    Clear,
}

/// Why an edit of the item list was refused.
#[derive(Debug, Clone, Copy, PartialEq, Eq, Structural)]
pub enum ItemEditError {
    IdentityExhausted,
    Missing(DisplayedItemRef),
    Placement,
}

impl ItemEditError {
    /// The message that describes the error.
    pub fn message(&self) -> (text: String)
        ensures
            text@ == match *self {
                ItemEditError::IdentityExhausted => "item identity counter exhausted"@,
                ItemEditError::Missing(_) => "missing item"@,
                ItemEditError::Placement => "invalid item placement"@,
            },
    {
        match self {
            ItemEditError::IdentityExhausted => String::from_str("item identity counter exhausted"),
            ItemEditError::Missing(_) => String::from_str("missing item"),
            ItemEditError::Placement => String::from_str("invalid item placement"),
        }
    }
}

/// The identity that the next inserted item takes: one past the counter, kept below
/// `usize::MAX`.
pub fn next_item_ref(counter: usize) -> (next: Result<DisplayedItemRef, ItemEditError>)
    ensures
        counter + 1 < usize::MAX ==> next == Ok::<DisplayedItemRef, ItemEditError>(DisplayedItemRef((counter + 1) as usize)),
        counter + 1 >= usize::MAX ==> next == Err::<DisplayedItemRef, ItemEditError>(ItemEditError::IdentityExhausted),
{
    match counter.checked_add(1) {
        Some(id) => if id < usize::MAX {
            Ok(DisplayedItemRef(id))
        } else {
            Err(ItemEditError::IdentityExhausted)
        },
        None => Err(ItemEditError::IdentityExhausted),
    }
}

/// One node of the item tree as the nesting rule reads it: its level, and whether its item
/// exists and is a group.
#[derive(Debug, Clone, Copy, PartialEq, Eq, Structural)]
pub struct NestingNode {
    pub level: u8,
    pub present: bool,
    pub group: bool,
}

/// Node `i` may follow node `i - 1`: a deeper node sits exactly one level below a group.
pub open spec fn step_ok(prev: NestingNode, node: NestingNode) -> bool {
    node.level > prev.level ==> prev.group && prev.level < 255 && node.level == prev.level + 1
}

/// Every item exists, the first node is at the top level, and every node deeper than its
/// predecessor sits one level below a group.
pub open spec fn nesting_valid(nodes: Seq<NestingNode>) -> bool {
    &&& forall|i: int| 0 <= i < nodes.len() ==> (#[trigger] nodes[i]).present
    &&& nodes.len() > 0 ==> nodes[0].level == 0
    &&& forall|i: int| 0 < i < nodes.len() ==> step_ok(nodes[i - 1], #[trigger] nodes[i])
}

/// Whether the tree nodes, in order, nest validly.
pub fn valid_nesting(nodes: &[NestingNode]) -> (valid: bool)
    ensures
        valid == nesting_valid(nodes@),
{
    let mut previous: Option<NestingNode> = None;
    let mut i: usize = 0;
    while i < nodes.len()
        invariant
            i <= nodes.len(),
            previous == (if i == 0 { None } else { Some(nodes@[i - 1]) }),
            forall|j: int| 0 <= j < i ==> (#[trigger] nodes@[j]).present,
            i > 0 ==> nodes@[0].level == 0,
            forall|j: int| 0 < j < i ==> step_ok(nodes@[j - 1], #[trigger] nodes@[j]),
        decreases nodes.len() - i,
    {
        let node = nodes[i];
        if !node.present {
            return false;
        }
        match previous {
            None => {
                if node.level != 0 {
                    return false;
                }
            },
            Some(prev) => {
                if node.level > prev.level && (!prev.group || prev.level.checked_add(1) != Some(node.level)) {
                    proof {
                        assert(!step_ok(nodes@[i - 1], nodes@[i as int]));
                    }
                    return false;
                }
            },
        }
        previous = Some(node);
        i = i + 1;
    }
    true
}

/// Whether an item may be inserted at `level` between `previous` and `next`: without a
/// previous node only at the top level; deeper than the previous node only exactly one
/// level below a previous group; above a deeper next node only as a group exactly one
/// level above it.
pub open spec fn placement_ok(previous: Option<NestingNode>, next: Option<NestingNode>, level: u8, item_group: bool) -> bool {
    &&& previous is None ==> level == 0
    &&& previous matches Some(p) ==> (level > p.level ==> p.level < 255 && p.level + 1 == level && p.present && p.group)
    &&& next matches Some(n) ==> (n.level > level ==> level < 255 && level + 1 == n.level && item_group)
}

/// Checks where an item may be inserted.
pub fn insert_placement_allowed(previous: Option<NestingNode>, next: Option<NestingNode>, level: u8, item_group: bool) -> (allowed: bool)
    ensures
        allowed == placement_ok(previous, next, level, item_group),
{
    if previous.is_none() && level != 0 {
        return false;
    }
    if let Some(p) = previous {
        if level > p.level && (p.level.checked_add(1) != Some(level) || !(p.present && p.group)) {
            return false;
        }
    }
    if let Some(n) = next {
        if n.level > level && (level.checked_add(1) != Some(n.level) || !item_group) {
            return false;
        }
    }
    true
}


/// A row of the item tree as selection sees it, in tree order: its item, whether it is
/// shown (not inside a folded group), and whether it is selected.
#[derive(Debug, Clone, Copy, PartialEq, Eq, Structural)]
pub struct SelectionRow {
    pub item: DisplayedItemRef,
    pub visible: bool,
    pub selected: bool,
}

/// The number of shown rows before position `p`: the shown index of a shown row.
pub open spec fn visible_before(rows: Seq<SelectionRow>, p: int) -> nat
    decreases p,
{
    if p <= 0 {
        0
    } else {
        visible_before(rows, p - 1) + if rows[p - 1].visible {
            1nat
        } else {
            0nat
        }
    }
}

/// `p` is the first row of `item`.
pub open spec fn first_row_of(rows: Seq<SelectionRow>, item: DisplayedItemRef, p: int) -> bool {
    &&& 0 <= p < rows.len()
    &&& rows[p].item == item
    &&& forall|q: int| 0 <= q < p ==> rows[q].item != item
}

/// `p` is the first shown row of `item`.
pub open spec fn first_shown_row_of(rows: Seq<SelectionRow>, item: DisplayedItemRef, p: int) -> bool {
    &&& 0 <= p < rows.len()
    &&& rows[p].visible
    &&& rows[p].item == item
    &&& forall|q: int| 0 <= q < p ==> !(rows[q].visible && rows[q].item == item)
}

/// Whether a fill reaches row `p`: every row, or the shown rows whose shown index lies
/// in `lo ..= hi`.
pub open spec fn fill_reaches(rows: Seq<SelectionRow>, all: bool, lo: int, hi: int, p: int) -> bool {
    all || (rows[p].visible && lo <= visible_before(rows, p) <= hi)
}

/// The rows after setting the selection of the reached rows to `value`.
pub open spec fn filled(rows: Seq<SelectionRow>, all: bool, lo: int, hi: int, value: bool) -> Seq<SelectionRow> {
    Seq::new(
        rows.len(),
        |p: int|
            if fill_reaches(rows, all, lo, hi, p) {
                SelectionRow { selected: value, ..rows[p] }
            } else {
                rows[p]
            },
    )
}

/// Whether the fill changes a selection bit.
pub open spec fn fill_changes(rows: Seq<SelectionRow>, all: bool, lo: int, hi: int, value: bool) -> bool {
    exists|p: int| 0 <= p < rows.len() && #[trigger] fill_reaches(rows, all, lo, hi, p) && rows[p].selected != value
}

/// The rows and result of a selection command: one row set or toggled, a range of shown
/// rows, every shown row, or every row cleared; the result tells whether a selection bit
/// changed, and a command that names an item with no row (no shown row, for a range) is
/// refused and changes nothing.
pub open spec fn selection_applied(rows: Seq<SelectionRow>, command: ItemSelection, after: Seq<SelectionRow>, result: Result<bool, ItemEditError>) -> bool {
    match command {
        ItemSelection::SetSelected { item, selected } => if exists|p: int| #[trigger] first_row_of(rows, item, p) {
            exists|p: int|
                #[trigger] first_row_of(rows, item, p) && after == rows.update(p, SelectionRow { selected, ..rows[p] })
                    && result == Ok::<bool, ItemEditError>(rows[p].selected != selected)
        } else {
            after == rows && result == Err::<bool, ItemEditError>(ItemEditError::Missing(item))
        },
        ItemSelection::Toggle(item) => if exists|p: int| #[trigger] first_row_of(rows, item, p) {
            exists|p: int|
                #[trigger] first_row_of(rows, item, p) && after == rows.update(
                    p,
                    SelectionRow { selected: !rows[p].selected, ..rows[p] },
                ) && result == Ok::<bool, ItemEditError>(true)
        } else {
            after == rows && result == Err::<bool, ItemEditError>(ItemEditError::Missing(item))
        },
        ItemSelection::Range { from, to, selected } => if !exists|p: int| #[trigger] first_shown_row_of(rows, from, p) {
            after == rows && result == Err::<bool, ItemEditError>(ItemEditError::Missing(from))
        } else if !exists|p: int| #[trigger] first_shown_row_of(rows, to, p) {
            after == rows && result == Err::<bool, ItemEditError>(ItemEditError::Missing(to))
        } else {
            exists|a: int, b: int|
                #[trigger] first_shown_row_of(rows, from, a) && #[trigger] first_shown_row_of(rows, to, b) && {
                    let va = visible_before(rows, a) as int;
                    let vb = visible_before(rows, b) as int;
                    let lo = if va <= vb { va } else { vb };
                    let hi = if va <= vb { vb } else { va };
                    after == filled(rows, false, lo, hi, selected) && result == Ok::<bool, ItemEditError>(
                        fill_changes(rows, false, lo, hi, selected),
                    )
                }
        },
        ItemSelection::AllVisible(selected) => after == filled(rows, false, 0, rows.len() as int, selected) && result
            == Ok::<bool, ItemEditError>(fill_changes(rows, false, 0, rows.len() as int, selected)),
        ItemSelection::Clear => after == filled(rows, true, 0, 0, false) && result == Ok::<bool, ItemEditError>(
            fill_changes(rows, true, 0, 0, false),
        ),
    }
}

/// A shown row's shown index is below the number of rows.
proof fn lemma_visible_before_bound(rows: Seq<SelectionRow>, p: int)
    requires
        0 <= p <= rows.len(),
    ensures
        visible_before(rows, p) <= p,
    decreases p,
{
    if p > 0 {
        lemma_visible_before_bound(rows, p - 1);
    }
}

/// Sets the selection of the rows that the fill reaches, telling whether a bit changed.
fn fill_selection(rows: &mut Vec<SelectionRow>, all: bool, lo: usize, hi: usize, value: bool) -> (changed: bool)
    ensures
        final(rows)@ == filled(old(rows)@, all, lo as int, hi as int, value),
        changed == fill_changes(old(rows)@, all, lo as int, hi as int, value),
{
    let ghost start = rows@;
    let mut changed = false;
    let mut shown: usize = 0;
    let mut i: usize = 0;
    while i < rows.len()
        invariant
            rows@.len() == start.len(),
            i <= start.len(),
            shown == visible_before(start, i as int),
            forall|p: int| 0 <= p < i ==> rows@[p] == #[trigger] filled(start, all, lo as int, hi as int, value)[p],
            forall|p: int| i <= p < start.len() ==> rows@[p] == start[p],
            changed == exists|p: int|
                0 <= p < i && #[trigger] fill_reaches(start, all, lo as int, hi as int, p) && start[p].selected != value,
        decreases start.len() - i,
    {
        proof {
            lemma_visible_before_bound(start, i as int);
        }
        let row = rows[i];
        let reaches = all || (row.visible && lo <= shown && shown <= hi);
        if reaches {
            if row.selected != value {
                changed = true;
            }
            rows.set(i, SelectionRow { selected: value, ..row });
        }
        if row.visible {
            shown = shown + 1;
        }
        proof {
            assert(fill_reaches(start, all, lo as int, hi as int, i as int) == reaches);
        }
        i = i + 1;
    }
    proof {
        assert(rows@ =~= filled(start, all, lo as int, hi as int, value));
    }
    changed
}

/// The first row of `item` (the first shown row, when `shown_only`), with its shown index.
fn find_row(rows: &Vec<SelectionRow>, item: DisplayedItemRef, shown_only: bool) -> (found: Option<(usize, usize)>)
    ensures
        !shown_only ==> (found is None <==> !exists|p: int| #[trigger] first_row_of(rows@, item, p)),
        !shown_only ==> (found matches Some((p, _)) ==> first_row_of(rows@, item, p as int)),
        shown_only ==> (found is None <==> !exists|p: int| #[trigger] first_shown_row_of(rows@, item, p)),
        shown_only ==> (found matches Some((p, v)) ==> first_shown_row_of(rows@, item, p as int) && v
            == visible_before(rows@, p as int)),
{
    let mut shown: usize = 0;
    let mut i: usize = 0;
    while i < rows.len()
        invariant
            i <= rows@.len(),
            shown == visible_before(rows@, i as int),
            !shown_only ==> forall|q: int| 0 <= q < i ==> rows@[q].item != item,
            shown_only ==> forall|q: int| 0 <= q < i ==> !(rows@[q].visible && rows@[q].item == item),
        decreases rows@.len() - i,
    {
        proof {
            lemma_visible_before_bound(rows@, i as int);
        }
        let row = rows[i];
        if row.item.0 == item.0 && (!shown_only || row.visible) {
            proof {
                assert(row.item == item);
                if shown_only {
                    assert(first_shown_row_of(rows@, item, i as int));
                } else {
                    assert(first_row_of(rows@, item, i as int));
                }
            }
            return Some((i, shown));
        }
        if row.visible {
            shown = shown + 1;
        }
        i = i + 1;
    }
    None
}

/// Applies a selection command to the rows, in tree order. Returns whether a selection
/// bit changed; a command whose item has no row (no shown row, for a range) is refused.
pub fn apply_selection(rows: &mut Vec<SelectionRow>, command: ItemSelection) -> (result: Result<bool, ItemEditError>)
    ensures
        selection_applied(old(rows)@, command, final(rows)@, result),
{
    match command {
        ItemSelection::SetSelected { item, selected } => match find_row(rows, item, false) {
            None => Err(ItemEditError::Missing(item)),
            Some((p, _)) => {
                let row = rows[p];
                rows.set(p, SelectionRow { selected, ..row });
                Ok(row.selected != selected)
            },
        },
        ItemSelection::Toggle(item) => match find_row(rows, item, false) {
            None => Err(ItemEditError::Missing(item)),
            Some((p, _)) => {
                let row = rows[p];
                rows.set(p, SelectionRow { selected: !row.selected, ..row });
                Ok(true)
            },
        },
        ItemSelection::Range { from, to, selected } => {
            let a = match find_row(rows, from, true) {
                None => return Err(ItemEditError::Missing(from)),
                Some((_, v)) => v,
            };
            let b = match find_row(rows, to, true) {
                None => return Err(ItemEditError::Missing(to)),
                Some((_, v)) => v,
            };
            let lo = if a <= b { a } else { b };
            let hi = if a <= b { b } else { a };
            Ok(fill_selection(rows, false, lo, hi, selected))
        },
        ItemSelection::AllVisible(selected) => {
            let n = rows.len();
            Ok(fill_selection(rows, false, 0, n, selected))
        },
        ItemSelection::Clear => Ok(fill_selection(rows, true, 0, 0, false)),
    }
}

} // verus!
