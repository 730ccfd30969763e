//! The navigation decisions of a pipeline view: going to a row by its number, retire id,
//! thread and retire id, or simulator id; toggling the producer chain of a row, whose
//! computation the host runs and hands back; stepping through and taking in the hits of a
//! find; and saving and restoring bookmarks.
use vstd::prelude::*;
use crate::konata::model::{unique_row, KonataModel};
use crate::konata::names::thread_rid_answer;
use crate::konata::rows::{next_hit_after, next_hit_before, KonataRowSet, KonataSearchHits};
use crate::konata::texts::str_eq;
use crate::konata::index;
use crate::konata::trace::{decimal, unsigned_text};
use crate::konata::bits;

verus! {

/// The plain navigation state of a view: whether flushed rows are hidden; the producer
/// chain being shown, with the row it starts at and the revision that tells a current
/// computation from a stale one; and the state of its find.
pub struct KonataNav {
    pub hide_flushed: bool,
    pub producer_chain_root: Option<usize>,
    pub producer_chain_revision: u64,
    pub producer_chain: Option<KonataRowSet>,
    pub find: KonataFind,
}

/// The find of a view: the finished hits and the hit shown, the row a new search starts
/// after, the revision of the search under way, its query and the last pattern that
/// searched without error, the error of the last search, and what a running search has
/// reported so far (its first hit and the number of hits).
pub struct KonataFind {
    pub hits: Option<KonataSearchHits>,
    pub active_row: Option<usize>,
    pub anchor_row: usize,
    pub revision: u64,
    pub searching: bool,
    pub query: String,
    pub valid_pattern: Option<String>,
    pub error: Option<String>,
    pub partial_first: Option<usize>,
    pub partial_count: usize,
}

/// What the view is asked to do.
pub enum KonataEvent {
    GotoRow(u64),
    GotoRid(u64),
    GotoThreadRid(String, u64),
    GotoSid(u64),
    ToggleProducerChain(usize),
    ProducerChainBuilt { revision: u64, row: usize, result: Option<KonataRowSet> },
    /// Show the next hit of the find (the previous one, when `true`).
    FindNext(bool),
    FindFinished { revision: u64, outcome: Result<KonataSearchHits, String> },
    FindProgress { revision: u64, rows: Vec<u64> },
    CancelFind,
    /// Save the bookmark in `slot` at the row shown at the top of the view.
    BookmarkSet { slot: u8, top_visible: usize },
    /// Go to a bookmark: to the row of its transaction, or else the row that begins
    /// nearest its tick.
    BookmarkGoto { tx_id: u64, tick: i64 },
}

/// What the host does next: move the view to a row (`visible` is its position among the
/// rows shown), report an error, start or cancel the computation of a producer chain,
/// redraw, show a hit of the find (and focus its transaction), cancel the search, store
/// a bookmark for a transaction, restore a bookmark's view at a row, or nothing.
pub enum KonataAction {
    Navigate { row: usize, visible: usize },
    Error(String),
    StartProducerChain { row: usize, revision: u64 },
    CancelProducerChain,
    Redraw,
    ShowFindResult { row: usize, visible: usize },
    CancelSearch,
    SaveBookmark { slot: u8, tx_id: u64 },
    ShowBookmark { row: usize, visible: usize },
    Stay,
}

/// Every hit of `hits` is a row of the model, and the hits can be stepped through.
pub open spec fn hits_fit(hits: KonataSearchHits, model: KonataModel) -> bool {
    &&& hits.wf()
    &&& hits.is_finished()
    &&& forall|i: int| 0 <= i < hits@.len() && #[trigger] hits@[i] ==> i < model.row_count_spec()
}

/// What a navigation event asks of the view and the model: hits and hit rows that belong
/// to the model.
pub open spec fn event_fits(nav: KonataNav, model: KonataModel, event: KonataEvent) -> bool {
    &&& nav.find.hits matches Some(h) ==> hits_fit(h, model)
    &&& nav.find.active_row matches Some(r) ==> r < model.row_count_spec()
    &&& event matches KonataEvent::FindFinished { outcome: Ok(h), .. } ==> hits_fit(h, model)
    &&& event matches KonataEvent::FindProgress { rows, .. } ==> forall|i: int|
        0 <= i < rows@.len() ==> #[trigger] rows@[i] < model.row_count_spec()
}

/// `r` is the first hit of `s`.
pub open spec fn is_first_hit(s: Seq<bool>, r: int) -> bool {
    &&& 0 <= r < s.len()
    &&& s[r]
    &&& forall|i: int| 0 <= i < r ==> !s[i]
}

/// `s` holds no hit.
pub open spec fn no_hit(s: Seq<bool>) -> bool {
    forall|i: int| 0 <= i < s.len() ==> !s[i]
}

/// Stepping from `from` lands on hit `t`, forwards or, when `reverse`, backwards.
pub open spec fn stepped_hit(s: Seq<bool>, from: int, reverse: bool, t: int) -> bool {
    &&& 0 <= t < s.len()
    &&& s[t]
    &&& !reverse ==> next_hit_after(s, from, t)
    &&& reverse ==> next_hit_before(s, from, t)
}

/// The row a step through the hits starts from: the hit shown, or else the first hit,
/// or else row 0.
pub open spec fn step_origin(active: Option<usize>, s: Seq<bool>, from: int) -> bool {
    match active {
        Some(r) => from == r,
        None => if no_hit(s) {
            from == 0
        } else {
            is_first_hit(s, from)
        },
    }
}

/// The hit shown after a finished search from `anchor`: the next hit after it, which is
/// none exactly when there are no hits.
pub open spec fn finished_active(s: Seq<bool>, anchor: int, active: Option<usize>) -> bool {
    &&& active is None <==> no_hit(s)
    &&& active matches Some(t) ==> stepped_hit(s, anchor, false, t as int)
}

/// Showing hit `row`: the view's find shows it, and the host is asked to.
pub open spec fn shows_hit(nav: KonataNav, model: KonataModel, row: usize, after: KonataNav, action: KonataAction) -> bool {
    &&& after == KonataNav { find: KonataFind { active_row: Some(row), ..nav.find }, ..nav }
    &&& action == KonataAction::ShowFindResult { row, visible: visible_position(nav, model, row as int) as usize }
}

/// The row a bookmark goes to: the row of its transaction, or, with no such row, the row
/// that begins nearest `tick` (one before it on a tie), none in an empty model.
pub open spec fn bookmark_answer(model: KonataModel, tx_id: u64, tick: u64, found: Option<usize>) -> bool {
    let n = model.row_count_spec();
    let begin = model.rows.begin@;
    if exists|r: int| 0 <= r < n && model.rows.tx_id@[r] == tx_id {
        found matches Some(r) && r < n && model.rows.tx_id@[r as int] == tx_id
    } else {
        &&& found is None <==> n == 0
        &&& found matches Some(r) ==> r < n && forall|q: int|
            0 <= q < n ==> index::tick_distance(begin[r as int], tick) <= index::tick_distance(
                #[trigger] begin[q],
                tick,
            )
        &&& found matches Some(r) ==> forall|q: int|
            0 <= q < n && (#[trigger] begin[q]) < tick && index::tick_distance(begin[q], tick)
                == index::tick_distance(begin[r as int], tick) ==> begin[r as int] < tick
    }
}

/// The row shown at the top of the view, from its position among the rows shown.
pub open spec fn top_row(nav: KonataNav, model: KonataModel, top_visible: usize) -> Option<usize> {
    let n = model.row_count_spec();
    if nav.hide_flushed {
        let shown = model.visibility@;
        if exists|r: int| 0 <= r < shown.len() && shown[r] && bits::count_true(shown, r) == top_visible {
            Some(
                (choose|r: int| 0 <= r < shown.len() && shown[r] && bits::count_true(shown, r) == top_visible) as usize,
            )
        } else {
            None
        }
    } else if n == 0 {
        None
    } else if top_visible < n {
        Some(top_visible)
    } else {
        Some((n - 1) as usize)
    }
}

/// The position of `row` among the rows the view shows.
pub open spec fn visible_position(nav: KonataNav, model: KonataModel, row: int) -> int {
    if nav.hide_flushed {
        bits::count_true(model.visibility@, row) as int
    } else {
        row
    }
}

/// The answer to a lookup that found `found`: move to the row, or report `message`.
pub open spec fn navigation(nav: KonataNav, model: KonataModel, found: Option<usize>, message: Seq<char>, action: KonataAction) -> bool {
    match found {
        Some(r) => action matches KonataAction::Navigate { row, visible } && row == r && visible == visible_position(
            nav,
            model,
            r as int,
        ),
        None => action matches KonataAction::Error(text) && text@ == message,
    }
}

/// The one row that carries `key` in the column, if exactly one does.
pub open spec fn unique_lookup(col: Seq<u64>, key: u64) -> Option<usize> {
    if unique_row(col, key) {
        Some((choose|r: int| 0 <= r < col.len() && col[r] == key) as usize)
    } else {
        None
    }
}

/// A step through the hits: none when there is no hit, else to the hit after (or before)
/// the one shown, or the first.
pub open spec fn find_next_stepped(nav: KonataNav, model: KonataModel, reverse: bool, after: KonataNav, action: KonataAction) -> bool {
    match nav.find.hits {
        None => after == nav && action is Stay,
        Some(h) => if no_hit(h@) {
            after == nav && action is Stay
        } else {
            exists|from: int, t: usize|
                step_origin(nav.find.active_row, h@, from) && #[trigger] stepped_hit(h@, from, reverse, t as int)
                    && shows_hit(nav, model, t, after, action)
        },
    }
}

/// Taking in a finished search: ignored unless it is the one under way; its hits, with
/// the hit after the anchor shown, or its error, unless it was cancelled.
pub open spec fn find_finished_stepped(nav: KonataNav, model: KonataModel, revision: u64, outcome: Result<KonataSearchHits, String>, after: KonataNav, action: KonataAction) -> bool {
    if revision != nav.find.revision {
        after == nav && action is Stay
    } else {
        let base = KonataFind { searching: false, partial_first: None, partial_count: 0, ..nav.find };
        &&& match outcome {
            Ok(h) => exists|active: Option<usize>|
                #[trigger] finished_active(h@, nav.find.anchor_row as int, active) && after == KonataNav {
                    find: KonataFind {
                        hits: Some(h),
                        active_row: active,
                        valid_pattern: Some(nav.find.query),
                        error: None,
                        ..base
                    },
                    ..nav
                },
            Err(e) => if e@ == "Search cancelled"@ {
                after == KonataNav { find: base, ..nav }
            } else {
                after == KonataNav { find: KonataFind { error: Some(e), ..base }, ..nav }
            },
        }
        &&& if after.find.active_row is Some && after.find.error is None {
            action == KonataAction::ShowFindResult {
                row: after.find.active_row.unwrap(),
                visible: visible_position(nav, model, after.find.active_row.unwrap() as int) as usize,
            }
        } else {
            action is Redraw
        }
    }
}

/// Taking in the progress of a search: ignored unless it is the one under way; the count
/// grows, and the first hit reported is shown.
pub open spec fn find_progress_stepped(nav: KonataNav, model: KonataModel, revision: u64, rows: Vec<u64>, after: KonataNav, action: KonataAction) -> bool {
    if revision != nav.find.revision || !nav.find.searching {
        after == nav && action is Stay
    } else {
        let total = nav.find.partial_count + rows@.len();
        let count = if total > usize::MAX { usize::MAX } else { total as usize };
        let counted = KonataNav { find: KonataFind { partial_count: count, ..nav.find }, ..nav };
        if nav.find.partial_first is None && rows@.len() > 0 {
            let row = rows@[0] as usize;
            let first = KonataNav { find: KonataFind { partial_first: Some(row), ..counted.find }, ..counted };
            shows_hit(first, model, row, after, action)
        } else {
            after == counted && action is Redraw
        }
    }
}

/// Cancelling the search: it stops, its partial results go, a hit shown that is not a
/// finished hit gives way to the first finished hit, and the revision moves on.
pub open spec fn cancel_find_stepped(nav: KonataNav, after: KonataNav, action: KonataAction) -> bool {
    let kept = match nav.find.active_row {
        Some(r) => match nav.find.hits {
            Some(h) => r < h@.len() && h@[r as int],
            None => false,
        },
        None => true,
    };
    let revision = if nav.find.revision == u64::MAX {
        0u64
    } else {
        (nav.find.revision + 1) as u64
    };
    &&& action is CancelSearch
    &&& after == KonataNav {
        find: KonataFind {
            searching: false,
            partial_first: None,
            partial_count: 0,
            revision,
            active_row: after.find.active_row,
            ..nav.find
        },
        ..nav
    }
    &&& kept ==> after.find.active_row == nav.find.active_row
    &&& !kept ==> match nav.find.hits {
        None => after.find.active_row is None,
        Some(h) => (after.find.active_row is None <==> no_hit(h@)) && (after.find.active_row matches Some(
            t,
        ) ==> is_first_hit(h@, t as int)),
    }
}

/// Saving a bookmark: in one of ten slots, for the transaction of the row at the top.
pub open spec fn bookmark_set_stepped(nav: KonataNav, model: KonataModel, slot: u8, top_visible: usize, after: KonataNav, action: KonataAction) -> bool {
    &&& after == nav
    &&& if slot > 9 {
        action is Stay
    } else {
        match top_row(nav, model, top_visible) {
            None => action is Stay,
            Some(r) => action == KonataAction::SaveBookmark { slot, tx_id: model.rows.tx_id@[r as int] },
        }
    }
}

/// Going to a bookmark: to the row of its transaction, or the row nearest its tick.
pub open spec fn bookmark_goto_stepped(nav: KonataNav, model: KonataModel, tx_id: u64, tick: i64, after: KonataNav, action: KonataAction) -> bool {
    let fallback = if tick < 0 {
        0u64
    } else {
        tick as u64
    };
    &&& after == nav
    &&& match action {
        KonataAction::Stay => bookmark_answer(model, tx_id, fallback, None),
        KonataAction::ShowBookmark { row, visible } => bookmark_answer(model, tx_id, fallback, Some(row)) && visible
            == visible_position(nav, model, row as int),
        _ => false,
    }
}

/// The view after a navigation event and the action it asks for.
pub open spec fn stepped(nav: KonataNav, model: KonataModel, event: KonataEvent, after: KonataNav, action: KonataAction) -> bool {
    match event {
        KonataEvent::GotoRow(row) => {
            &&& after == nav
            &&& navigation(
                nav,
                model,
                if row < model.row_count_spec() { Some(row as usize) } else { None },
                "Konata row "@ + decimal(row as nat) + " is unavailable"@,
                action,
            )
        },
        KonataEvent::GotoRid(rid) => {
            &&& after == nav
            &&& navigation(
                nav,
                model,
                unique_lookup(model.rows.rid@, rid),
                "Retire ID "@ + decimal(rid as nat) + " is missing or ambiguous; specify a thread in the table"@,
                action,
            )
        },
        KonataEvent::GotoThreadRid(thread, rid) => {
            &&& after == nav
            &&& exists|found: Option<usize>|
                thread_rid_answer(model, thread@, rid, found) && #[trigger] navigation(
                    nav,
                    model,
                    found,
                    "Retire ID "@ + decimal(rid as nat) + " for thread "@ + thread@ + " is unavailable"@,
                    action,
                )
        },
        KonataEvent::GotoSid(sid) => {
            &&& after == nav
            &&& navigation(
                nav,
                model,
                unique_lookup(model.rows.sid@, sid),
                "Simulator serial ID "@ + decimal(sid as nat) + " is missing or ambiguous"@,
                action,
            )
        },
        KonataEvent::ToggleProducerChain(row) => {
            let revision = if nav.producer_chain_revision == u64::MAX {
                0u64
            } else {
                (nav.producer_chain_revision + 1) as u64
            };
            &&& after.hide_flushed == nav.hide_flushed
            &&& after.producer_chain is None
            &&& after.producer_chain_revision == revision
            &&& if nav.producer_chain_root == Some(row) {
                &&& after.producer_chain_root is None
                &&& action is CancelProducerChain
            } else {
                &&& after.producer_chain_root == Some(row)
                &&& action == KonataAction::StartProducerChain { row, revision }
            }
        },
        KonataEvent::ProducerChainBuilt { revision, row, result } => {
            &&& action is Redraw
            &&& if nav.producer_chain_revision == revision && nav.producer_chain_root == Some(row) {
                after == KonataNav { producer_chain: result, ..nav }
            } else {
                after == nav
            }
        },
        KonataEvent::FindNext(reverse) => find_next_stepped(nav, model, reverse, after, action),
        KonataEvent::FindFinished { revision, outcome } => find_finished_stepped(nav, model, revision, outcome, after, action),
        KonataEvent::FindProgress { revision, rows } => find_progress_stepped(nav, model, revision, rows, after, action),
        KonataEvent::CancelFind => cancel_find_stepped(nav, after, action),
        KonataEvent::BookmarkSet { slot, top_visible } => bookmark_set_stepped(nav, model, slot, top_visible, after, action),
        KonataEvent::BookmarkGoto { tx_id, tick } => bookmark_goto_stepped(nav, model, tx_id, tick, after, action),
    }
}

/// The row that carries `key` in the column, if exactly one does, through a lookup that
/// answers so.
proof fn lemma_unique_lookup(col: Seq<u64>, key: u64, found: Option<usize>)
    requires
        found is Some <==> unique_row(col, key),
        found matches Some(r) ==> (r as int) < col.len() && col[r as int] == key,
    ensures
        found == unique_lookup(col, key),
{
    if let Some(r) = found {
        let c = choose|q: int| 0 <= q < col.len() && col[q] == key;
        let u = choose|u: int|
            0 <= u < col.len() && col[u] == key && forall|q: int| 0 <= q < col.len() && #[trigger] col[q] == key ==> q == u;
        assert(c == u);
        assert(r as int == u);
    }
}

/// Decides what a navigation event does to the view and what the host must do.
pub fn konata_step(nav: &mut KonataNav, model: &KonataModel, event: KonataEvent) -> (action: KonataAction)
    requires
        model.wf(),
        event_fits(*old(nav), *model, event),
    ensures
        stepped(*old(nav), *model, event, *final(nav), action),
{
    match event {
        KonataEvent::GotoRow(row) => {
            if row < model.row_count() as u64 {
                let r = row as usize;
                let visible = visible_of(nav, model, r);
                KonataAction::Navigate { row: r, visible }
            } else {
                let text = String::from_str("Konata row ").concat(unsigned_text(row).as_str()).concat(" is unavailable");
                KonataAction::Error(text)
            }
        },
        KonataEvent::GotoRid(rid) => {
            let found = model.row_for_rid(rid);
            proof {
                model.lemma_visibility();
                lemma_unique_lookup(model.rows.rid@, rid, found);
            }
            match found {
                Some(r) => {
                    let visible = visible_of(nav, model, r);
                    KonataAction::Navigate { row: r, visible }
                },
                None => {
                    let text = String::from_str("Retire ID ").concat(unsigned_text(rid).as_str()).concat(
                        " is missing or ambiguous; specify a thread in the table",
                    );
                    KonataAction::Error(text)
                },
            }
        },
        KonataEvent::GotoThreadRid(thread, rid) => {
            let found = model.row_for_thread_named(thread.as_str(), rid);
            let action = match found {
                Some(r) => {
                    let visible = visible_of(nav, model, r);
                    KonataAction::Navigate { row: r, visible }
                },
                None => {
                    let text = String::from_str("Retire ID ").concat(unsigned_text(rid).as_str()).concat(
                        " for thread ",
                    ).concat(thread.as_str()).concat(" is unavailable");
                    KonataAction::Error(text)
                },
            };
            proof {
                assert(navigation(
                    *nav,
                    *model,
                    found,
                    "Retire ID "@ + decimal(rid as nat) + " for thread "@ + thread@ + " is unavailable"@,
                    action,
                ));
            }
            action
        },
        KonataEvent::GotoSid(sid) => {
            let found = model.row_for_sid(sid);
            proof {
                model.lemma_visibility();
                lemma_unique_lookup(model.rows.sid@, sid, found);
            }
            match found {
                Some(r) => {
                    let visible = visible_of(nav, model, r);
                    KonataAction::Navigate { row: r, visible }
                },
                None => {
                    let text = String::from_str("Simulator serial ID ").concat(unsigned_text(sid).as_str()).concat(
                        " is missing or ambiguous",
                    );
                    KonataAction::Error(text)
                },
            }
        },
        KonataEvent::ToggleProducerChain(row) => {
            let revision = nav.producer_chain_revision.wrapping_add(1);
            nav.producer_chain = None;
            nav.producer_chain_revision = revision;
            if nav.producer_chain_root == Some(row) {
                nav.producer_chain_root = None;
                KonataAction::CancelProducerChain
            } else {
                nav.producer_chain_root = Some(row);
                KonataAction::StartProducerChain { row, revision }
            }
        },
        KonataEvent::ProducerChainBuilt { revision, row, result } => {
            if nav.producer_chain_revision == revision && nav.producer_chain_root == Some(row) {
                nav.producer_chain = result;
            }
            KonataAction::Redraw
        },
        KonataEvent::FindNext(reverse) => find_next(nav, model, reverse),
        KonataEvent::FindFinished { revision, outcome } => find_finished(nav, model, revision, outcome),
        KonataEvent::FindProgress { revision, rows } => find_progress(nav, model, revision, rows),
        KonataEvent::CancelFind => cancel_find(nav),
        KonataEvent::BookmarkSet { slot, top_visible } => bookmark_set(nav, model, slot, top_visible),
        KonataEvent::BookmarkGoto { tx_id, tick } => bookmark_goto(nav, model, tx_id, tick),
    }
}

/// The hit that a step from the hit shown (or the first hit) lands on.
fn step_target(find: &KonataFind, reverse: bool) -> (target: Option<usize>)
    requires
        find.hits matches Some(h) ==> h.wf() && h.is_finished(),
    ensures
        find.hits is None ==> target is None,
        find.hits matches Some(h) ==> (target is None <==> no_hit(h@)),
        find.hits matches Some(h) ==> (target matches Some(t) ==> exists|from: int|
            step_origin(find.active_row, h@, from) && #[trigger] stepped_hit(h@, from, reverse, t as int)),
{
    match &find.hits {
        None => None,
        Some(h) => {
            let from = match find.active_row {
                Some(r) => r,
                None => match h.first() {
                    Some(f) => f,
                    None => 0,
                },
            };
            let target = h.next(from, reverse);
            proof {
                if let Some(t) = target {
                    assert(stepped_hit(h@, from as int, reverse, t as int));
                }
            }
            target
        },
    }
}

/// Cancels the search under way.
fn cancel_find(nav: &mut KonataNav) -> (action: KonataAction)
    requires
        old(nav).find.hits matches Some(h) ==> h.wf() && h.is_finished(),
    ensures
        cancel_find_stepped(*old(nav), *final(nav), action),
{
    nav.find.searching = false;
    nav.find.partial_first = None;
    nav.find.partial_count = 0;
    let kept = match nav.find.active_row {
        Some(r) => match &nav.find.hits {
            Some(h) => h.contains(r),
            None => false,
        },
        None => true,
    };
    if !kept {
        nav.find.active_row = match &nav.find.hits {
            Some(h) => h.first(),
            None => None,
        };
    }
    nav.find.revision = nav.find.revision.wrapping_add(1);
    KonataAction::CancelSearch
}

/// Saves a bookmark at the row shown at the top of the view.
fn bookmark_set(nav: &mut KonataNav, model: &KonataModel, slot: u8, top_visible: usize) -> (action: KonataAction)
    requires
        model.wf(),
    ensures
        bookmark_set_stepped(*old(nav), *model, slot, top_visible, *final(nav), action),
{
    if slot > 9 {
        return KonataAction::Stay;
    }
    proof {
        model.lemma_visibility();
    }
    let row = if nav.hide_flushed {
        let found = model.visibility.select(top_visible);
        proof {
            let shown = model.visibility@;
            if let Some(r) = found {
                let c = choose|q: int| 0 <= q < shown.len() && shown[q] && bits::count_true(shown, q) == top_visible;
                if c < r as int {
                    bits::lemma_rank_injective(shown, c, r as int);
                } else if (r as int) < c {
                    bits::lemma_rank_injective(shown, r as int, c);
                }
            } else {
                assert forall|q: int| 0 <= q < shown.len() && shown[q] implies bits::count_true(shown, q)
                    != top_visible by {
                    bits::lemma_count_true_step(shown, q, shown.len() as int);
                }
            }
        }
        found
    } else {
        let n = model.row_count();
        if n == 0 {
            None
        } else if top_visible < n {
            Some(top_visible)
        } else {
            Some(n - 1)
        }
    };
    match row {
        None => KonataAction::Stay,
        Some(r) => KonataAction::SaveBookmark { slot, tx_id: model.rows.tx_id[r] },
    }
}

/// Goes to a bookmark.
fn bookmark_goto(nav: &mut KonataNav, model: &KonataModel, tx_id: u64, tick: i64) -> (action: KonataAction)
    requires
        model.wf(),
    ensures
        bookmark_goto_stepped(*old(nav), *model, tx_id, tick, *final(nav), action),
{
    let fallback: u64 = if tick < 0 {
        0
    } else {
        tick as u64
    };
    let found = match model.row_for_transaction(tx_id) {
        Some(r) => Some(r),
        None => model.nearest_row_for_tick(fallback),
    };
    proof {
        assert(bookmark_answer(*model, tx_id, fallback, found));
    }
    let action = match found {
        None => KonataAction::Stay,
        Some(r) => {
            let visible = visible_of(nav, model, r);
            KonataAction::ShowBookmark { row: r, visible }
        },
    };
    action
}

/// Steps from the hit shown (or the first hit) to the next or previous hit and shows it.
fn find_next(nav: &mut KonataNav, model: &KonataModel, reverse: bool) -> (action: KonataAction)
    requires
        model.wf(),
        event_fits(*old(nav), *model, KonataEvent::FindNext(reverse)),
    ensures
        stepped(*old(nav), *model, KonataEvent::FindNext(reverse), *final(nav), action),
{
    let target = step_target(&nav.find, reverse);
    match target {
        None => KonataAction::Stay,
        Some(t) => {
            let visible = visible_of(nav, model, t);
            nav.find.active_row = Some(t);
            KonataAction::ShowFindResult { row: t, visible }
        },
    }
}

/// Takes in the result of the search of `revision`, if it is the one under way.
fn find_finished(nav: &mut KonataNav, model: &KonataModel, revision: u64, result: Result<KonataSearchHits, String>) -> (action: KonataAction)
    requires
        model.wf(),
        event_fits(*old(nav), *model, KonataEvent::FindFinished { revision, outcome: result }),
    ensures
        stepped(*old(nav), *model, KonataEvent::FindFinished { revision, outcome: result }, *final(nav), action),
{
    if revision != nav.find.revision {
        return KonataAction::Stay;
    }
    nav.find.searching = false;
    nav.find.partial_first = None;
    nav.find.partial_count = 0;
    match result {
        Ok(h) => {
            let active = match h.next(nav.find.anchor_row, false) {
                Some(t) => Some(t),
                None => h.first(),
            };
            proof {
                assert(finished_active(h@, nav.find.anchor_row as int, active));
            }
            nav.find.hits = Some(h);
            nav.find.active_row = active;
            nav.find.valid_pattern = Some(nav.find.query.clone());
            nav.find.error = None;
        },
        Err(e) => {
            if !str_eq(e.as_str(), "Search cancelled") {
                nav.find.error = Some(e);
            }
        },
    }
    match nav.find.active_row {
        Some(r) => {
            if nav.find.error.is_none() {
                let visible = visible_of(nav, model, r);
                KonataAction::ShowFindResult { row: r, visible }
            } else {
                KonataAction::Redraw
            }
        },
        None => KonataAction::Redraw,
    }
}

/// Takes in what the search of `revision` has found so far, showing its first hit.
fn find_progress(nav: &mut KonataNav, model: &KonataModel, revision: u64, rows: Vec<u64>) -> (action: KonataAction)
    requires
        model.wf(),
        forall|i: int| 0 <= i < rows@.len() ==> #[trigger] rows@[i] < model.row_count_spec(),
    ensures
        stepped(*old(nav), *model, KonataEvent::FindProgress { revision, rows }, *final(nav), action),
{
    if revision != nav.find.revision || !nav.find.searching {
        return KonataAction::Stay;
    }
    nav.find.partial_count = nav.find.partial_count.saturating_add(rows.len());
    if nav.find.partial_first.is_none() && rows.len() > 0 {
        let row = rows[0] as usize;
        nav.find.partial_first = Some(row);
        let visible = visible_of(nav, model, row);
        nav.find.active_row = Some(row);
        KonataAction::ShowFindResult { row, visible }
    } else {
        KonataAction::Redraw
    }
}

/// The position of `row` among the rows the view shows.
fn visible_of(nav: &KonataNav, model: &KonataModel, row: usize) -> (visible: usize)
    requires
        model.wf(),
        row < model.row_count_spec(),
    ensures
        visible == visible_position(*nav, *model, row as int),
{
    proof {
        model.lemma_visibility();
    }
    if nav.hide_flushed {
        model.visibility.rank(row)
    } else {
        row
    }
}

} // verus!
