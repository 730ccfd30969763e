//! Keyboard walks along dependency edges: from a row to the earliest consumer (or latest
//! producer), cycling through rows that tie at that tick.
use vstd::prelude::*;
use crate::konata::columns::{KonataDependency, KonataStage};
use crate::konata::lists::{comma_list_matches, list_names};
use crate::konata::model::KonataModel;
use crate::konata::names::table_text;
use crate::konata::sorting::sort_rows;

verus! {

/// The name of a stage in the model.
pub open spec fn stage_name_text(m: KonataModel, stage: KonataStage) -> Seq<char> {
    table_text(m.strings@, m.stage_names@, stage.name as int, "<unnamed stage>"@)
}

/// The start of the first of `stages` whose name is in `list`.
pub open spec fn first_listed_start(m: KonataModel, list: Seq<char>, stages: Seq<KonataStage>) -> Option<u64>
    decreases stages.len(),
{
    if stages.len() == 0 {
        None
    } else if list_names(list, stage_name_text(m, stages[0]), true) {
        Some(stages[0].start)
    } else {
        first_listed_start(m, list, stages.drop_first())
    }
}

/// The stages of row `r`.
pub open spec fn row_stages(m: KonataModel, r: int) -> Seq<KonataStage> {
    m.stages@.subrange(m.stage_offsets@[r] as int, m.stage_offsets@[r + 1] as int)
}

/// The row at the far end of an edge walked forward (the consumer) or backward (the
/// producer).
pub open spec fn edge_end(e: KonataDependency, forward: bool) -> int {
    if forward {
        e.consumer_row as int
    } else {
        e.producer_row as int
    }
}

/// The edge leaves `origin` in the walking direction.
pub open spec fn walks_from(e: KonataDependency, origin: int, forward: bool) -> bool {
    if forward {
        e.producer_row == origin
    } else {
        e.consumer_row == origin
    }
}

/// The tick at which the walk reaches the far end of an edge: the edge's own endpoint
/// tick, else the start of the far row's first execution stage, else the far row's begin.
pub open spec fn edge_tick(m: KonataModel, list: Seq<char>, e: KonataDependency, forward: bool) -> u64 {
    let end = edge_end(e, forward);
    let own = if forward {
        e.consumer_tick
    } else {
        e.producer_tick
    };
    match own {
        Some(t) => t,
        None => match first_listed_start(m, list, row_stages(m, end)) {
            Some(t) => t,
            None => m.rows.begin@[end],
        },
    }
}

/// `best` is the earliest (forward) or latest (backward) tick over the edges from `origin`.
pub open spec fn is_best(m: KonataModel, list: Seq<char>, origin: int, forward: bool, best: u64) -> bool {
    &&& exists|e: int|
        0 <= e < m.dependencies@.len() && walks_from(#[trigger] m.dependencies@[e], origin, forward) && edge_tick(
            m,
            list,
            m.dependencies@[e],
            forward,
        ) == best
    &&& forall|e: int|
        0 <= e < m.dependencies@.len() && walks_from(#[trigger] m.dependencies@[e], origin, forward) ==> if forward {
            best <= edge_tick(m, list, m.dependencies@[e], forward)
        } else {
            best >= edge_tick(m, list, m.dependencies@[e], forward)
        }
}

/// `ties` lists, in ascending order and once each, the rows reached at tick `best`.
pub open spec fn tie_list(m: KonataModel, list: Seq<char>, origin: int, forward: bool, best: u64, ties: Seq<usize>) -> bool {
    &&& forall|i: int, j: int| 0 <= i < j < ties.len() ==> #[trigger] ties[i] < #[trigger] ties[j]
    &&& forall|r: usize|
        #[trigger] ties.contains(r) <==> exists|e: int|
            0 <= e < m.dependencies@.len() && walks_from(#[trigger] m.dependencies@[e], origin, forward) && edge_end(
                m.dependencies@[e],
                forward,
            ) == r && edge_tick(m, list, m.dependencies@[e], forward) == best
}

/// A walk in progress: where it started, where it stands, its direction and which of the
/// tied rows it stands on.
#[derive(Debug, Clone, Copy, PartialEq, Eq, Structural)]
pub struct DependencyWalk {
    pub origin: Option<usize>,
    pub target: Option<usize>,
    pub forward: bool,
    pub index: usize,
}

impl DependencyWalk {
    /// No walk in progress.
    pub fn new() -> (walk: Self)
        ensures
            walk == (DependencyWalk { origin: None, target: None, forward: false, index: 0 }),
    {
        DependencyWalk { origin: None, target: None, forward: false, index: 0 }
    }
}

/// The walk continues the previous step: same direction, standing on its target.
pub open spec fn continues(walk: DependencyWalk, focused_row: usize, forward: bool) -> bool {
    walk.forward == forward && walk.target == Some(focused_row) && walk.origin is Some
}

/// The row the walk starts from: the previous origin when it continues, else the focused
/// row.
pub open spec fn walk_origin(walk: DependencyWalk, focused_row: usize, forward: bool) -> usize {
    if continues(walk, focused_row, forward) {
        walk.origin.unwrap()
    } else {
        focused_row
    }
}

impl KonataModel {
    /// The start of the first stage of `row` whose name is in the comma-separated `list`.
    pub fn execution_tick_in(&self, list: &str, row: usize) -> (tick: Option<u64>)
        requires
            self.wf(),
            row < self.row_count_spec(),
        ensures
            tick == first_listed_start(*self, list@, row_stages(*self, row as int)),
    {
        let stages = self.stages_for_row(row);
        proof {
            assert(stages@.skip(0) =~= stages@);
        }
        let mut k: usize = 0;
        while k < stages.len()
            invariant
                k <= stages@.len(),
                stages@ == row_stages(*self, row as int),
                first_listed_start(*self, list@, stages@) == first_listed_start(*self, list@, stages@.skip(k as int)),
            decreases stages.len() - k,
        {
            proof {
                assert(stages@.skip(k as int)[0] == stages@[k as int]);
                assert(stages@.skip(k as int).drop_first() =~= stages@.skip(k + 1));
            }
            if comma_list_matches(list, self.stage_name(&stages[k]), true) {
                return Some(stages[k].start);
            }
            k = k + 1;
        }
        proof {
            assert(stages@.skip(k as int).len() == 0);
        }
        None
    }
}

/// The tick at which the walk reaches the far end of one edge.
fn tick_of(model: &KonataModel, list: &str, e: &KonataDependency, forward: bool) -> (tick: u64)
    requires
        model.wf(),
        model.dependencies@.contains(*e),
    ensures
        tick == edge_tick(*model, list@, *e, forward),
{
    proof {
        model.lemma_edges_in_range();
    }
    let end = if forward {
        e.consumer_row as usize
    } else {
        e.producer_row as usize
    };
    let own = if forward {
        e.consumer_tick
    } else {
        e.producer_tick
    };
    match own {
        Some(t) => t,
        None => match model.execution_tick_in(list, end) {
            Some(t) => t,
            None => model.rows.begin[end],
        },
    }
}

/// Steps a keyboard walk from `focused_row` along the dependency edges: to the rows reached
/// first (forward, through consumers) or last (backward, through producers); among rows
/// that tie, in ascending row order, cycling on repeated steps. Without edges the walk is
/// left as it was.
pub fn dependency_walk_target(
    model: &KonataModel,
    execution_stages: &str,
    walk: &mut DependencyWalk,
    focused_row: usize,
    forward: bool,
) -> (target: Option<usize>)
    requires
        model.wf(),
        old(walk).index < usize::MAX,
    ensures
        ({
            let origin = walk_origin(*old(walk), focused_row, forward);
            &&& target is None <==> forall|e: int|
                0 <= e < model.dependencies@.len() ==> !walks_from(#[trigger] model.dependencies@[e], origin as int, forward)
            &&& target is None ==> *final(walk) == *old(walk)
            &&& target matches Some(t) ==> exists|best: u64, ties: Seq<usize>|
                #[trigger] is_best(*model, execution_stages@, origin as int, forward, best) && #[trigger] tie_list(
                    *model,
                    execution_stages@,
                    origin as int,
                    forward,
                    best,
                    ties,
                ) && ties.len() > 0 && ({
                    let idx = if continues(*old(walk), focused_row, forward) {
                        ((old(walk).index + 1) % (ties.len() as int)) as usize
                    } else {
                        0usize
                    };
                    &&& t == ties[idx as int]
                    &&& *final(walk) == if ties.len() > 1 {
                        DependencyWalk { origin: Some(origin), target: Some(t), forward, index: idx }
                    } else {
                        DependencyWalk { origin: None, target: None, forward: old(walk).forward, index: 0 }
                    }
                })
        }),
{
    let continuing = walk.forward == forward && walk.target == Some(focused_row) && walk.origin.is_some();
    let origin = if continuing {
        walk.origin.unwrap()
    } else {
        focused_row
    };
    let edges = if forward {
        model.outgoing_dependencies(origin)
    } else {
        model.incoming_dependencies(origin)
    };
    let ghost deps = model.dependencies@;
    let ghost list = execution_stages@;
    proof {
        assert forall|i: int| 0 <= i < edges@.len() implies #[trigger] deps.contains(edges@[i]) && walks_from(
            edges@[i],
            origin as int,
            forward,
        ) by {}
    }
    if edges.len() == 0 {
        proof {
            assert forall|e: int| 0 <= e < deps.len() implies !walks_from(#[trigger] deps[e], origin as int, forward) by {
                if walks_from(deps[e], origin as int, forward) {
                    assert(edges@.contains(deps[e]));
                }
            }
        }
        return None;
    }
    // Ticks of the edges, and the best of them.
    let mut ticks: Vec<u64> = Vec::with_capacity(edges.len());
    let mut best: u64 = 0;
    let mut k: usize = 0;
    while k < edges.len()
        invariant
            k <= edges@.len(),
            edges@.len() > 0,
            model.wf(),
            forall|i: int| 0 <= i < edges@.len() ==> #[trigger] deps.contains(edges@[i]) && walks_from(edges@[i], origin as int, forward),
            deps == model.dependencies@,
            list == execution_stages@,
            ticks@.len() == k,
            forall|i: int| 0 <= i < k ==> #[trigger] ticks@[i] == edge_tick(*model, list, edges@[i], forward),
            k > 0 ==> exists|i: int| 0 <= i < k && ticks@[i] == best,
            forall|i: int| 0 <= i < k ==> if forward { best <= #[trigger] ticks@[i] } else { best >= #[trigger] ticks@[i] },
        decreases edges.len() - k,
    {
        let t = tick_of(model, execution_stages, &edges[k], forward);
        let ghost old_best = best;
        let update = k == 0 || (forward && t < best) || (!forward && t > best);
        if update {
            best = t;
        }
        let ghost before = ticks@;
        ticks.push(t);
        proof {
            assert(ticks@[k as int] == t);
            if !update {
                let w = choose|i: int| 0 <= i < k && before[i] == old_best;
                assert(ticks@[w] == before[w]);
            }
            assert forall|i: int| 0 <= i < k + 1 implies if forward { best <= #[trigger] ticks@[i] } else { best >= #[trigger] ticks@[i] } by {
                if i < k {
                    assert(ticks@[i] == before[i]);
                }
            }
        }
        k = k + 1;
    }
    proof {
        let w = choose|i: int| 0 <= i < edges@.len() && ticks@[i] == best;
        let e0 = choose|e: int| 0 <= e < deps.len() && deps[e] == edges@[w];
        assert(walks_from(deps[e0], origin as int, forward) && edge_tick(*model, list, deps[e0], forward) == best);
        assert forall|e: int| 0 <= e < deps.len() && walks_from(#[trigger] deps[e], origin as int, forward) implies if forward {
            best <= edge_tick(*model, list, deps[e], forward)
        } else {
            best >= edge_tick(*model, list, deps[e], forward)
        } by {
            assert(edges@.contains(deps[e]));
            let i = choose|i: int| 0 <= i < edges@.len() && edges@[i] == deps[e];
            assert(ticks@[i] == edge_tick(*model, list, edges@[i], forward));
        }
        assert(is_best(*model, list, origin as int, forward, best));
    }
    // The rows reached at the best tick.
    let mut rows: Vec<usize> = Vec::new();
    let mut k: usize = 0;
    while k < edges.len()
        invariant
            k <= edges@.len(),
            model.wf(),
            forall|i: int| 0 <= i < edges@.len() ==> #[trigger] deps.contains(edges@[i]) && walks_from(edges@[i], origin as int, forward),
            deps == model.dependencies@,
            list == execution_stages@,
            ticks@.len() == edges@.len(),
            forall|i: int| 0 <= i < edges@.len() ==> #[trigger] ticks@[i] == edge_tick(*model, list, edges@[i], forward),
            forall|r: usize|
                #[trigger] rows@.contains(r) <==> exists|i: int|
                    0 <= i < k && edge_end(#[trigger] edges@[i], forward) == r && ticks@[i] == best,
        decreases edges.len() - k,
    {
        if ticks[k] == best {
            let end = if forward {
                edges[k].consumer_row as usize
            } else {
                edges[k].producer_row as usize
            };
            let ghost before = rows@;
            rows.push(end);
            proof {
                assert forall|r: usize| #[trigger] rows@.contains(r) <==> exists|i: int|
                    0 <= i < k + 1 && edge_end(#[trigger] edges@[i], forward) == r && ticks@[i] == best by {
                    if rows@.contains(r) && r != end {
                        let q = choose|q: int| 0 <= q < rows@.len() && rows@[q] == r;
                        assert(before[q] == r);
                        assert(before.contains(r));
                    }
                    if r == end {
                        assert(rows@[before.len() as int] == r);
                        assert(edge_end(edges@[k as int], forward) == r);
                    }
                    if exists|i: int| 0 <= i < k && edge_end(#[trigger] edges@[i], forward) == r && ticks@[i] == best {
                        assert(before.contains(r));
                        let q = choose|q: int| 0 <= q < before.len() && before[q] == r;
                        assert(rows@[q] == r);
                    }
                }
            }
        } else {
            proof {
                assert forall|r: usize| #[trigger] rows@.contains(r) <==> exists|i: int|
                    0 <= i < k + 1 && edge_end(#[trigger] edges@[i], forward) == r && ticks@[i] == best by {
                    if exists|i: int| 0 <= i < k + 1 && edge_end(#[trigger] edges@[i], forward) == r && ticks@[i] == best {
                        let i = choose|i: int| 0 <= i < k + 1 && edge_end(#[trigger] edges@[i], forward) == r && ticks@[i] == best;
                        assert(i < k);
                    }
                }
            }
        }
        k = k + 1;
    }
    let ghost unsorted = rows@;
    sort_rows(&mut rows);
    proof {
        broadcast use vstd::seq_lib::group_to_multiset_ensures;

        assert forall|r: usize| rows@.contains(r) <==> unsorted.contains(r) by {
            assert(rows@.contains(r) <==> rows@.to_multiset().count(r) > 0);
            assert(unsorted.contains(r) <==> unsorted.to_multiset().count(r) > 0);
        }
    }
    // Each row once.
    let mut ties: Vec<usize> = Vec::new();
    let mut k: usize = 0;
    while k < rows.len()
        invariant
            k <= rows@.len(),
            forall|i: int, j: int| 0 <= i < j < rows@.len() ==> #[trigger] rows@[i] <= #[trigger] rows@[j],
            forall|i: int, j: int| 0 <= i < j < ties@.len() ==> #[trigger] ties@[i] < #[trigger] ties@[j],
            forall|r: usize| #[trigger] ties@.contains(r) <==> exists|i: int| 0 <= i < k && rows@[i] == r,
            k > 0 ==> ties@.len() > 0 && ties@.last() == rows@[k - 1],
        decreases rows.len() - k,
    {
        let r = rows[k];
        let ghost before = ties@;
        if ties.len() == 0 || ties[ties.len() - 1] != r {
            proof {
                if k > 0 {
                    assert(rows@[k - 1] <= rows@[k as int]);
                }
            }
            ties.push(r);
            proof {
                if before.len() > 0 {
                    if k == 0 {
                        assert(before.contains(before[0]));
                    }
                    assert(before.last() == rows@[k - 1]);
                    assert(rows@[k - 1] <= rows@[k as int]);
                    assert(before.last() < r);
                }
                assert forall|i: int, j: int| 0 <= i < j < ties@.len() implies #[trigger] ties@[i] < #[trigger] ties@[j] by {
                    if j == before.len() {
                        if i < before.len() - 1 {
                            assert(before[i] < before[before.len() - 1]);
                        }
                    } else {
                        assert(ties@[i] == before[i] && ties@[j] == before[j]);
                    }
                }
                assert forall|x: usize| #[trigger] ties@.contains(x) <==> exists|i: int| 0 <= i < k + 1 && rows@[i] == x by {
                    if ties@.contains(x) && x != r {
                        let q = choose|q: int| 0 <= q < ties@.len() && ties@[q] == x;
                        assert(before[q] == x);
                        assert(before.contains(x));
                    }
                    if x == r {
                        assert(ties@[before.len() as int] == x);
                    }
                    if exists|i: int| 0 <= i < k && rows@[i] == x {
                        assert(before.contains(x));
                        let q = choose|q: int| 0 <= q < before.len() && before[q] == x;
                        assert(ties@[q] == x);
                    }
                }
            }
        } else {
            proof {
                assert(before.contains(r)) by {
                    assert(before[before.len() - 1] == r);
                }
            }
        }
        k = k + 1;
    }
    proof {
        let w = choose|i: int| 0 <= i < edges@.len() && ticks@[i] == best;
        assert(unsorted.contains(edge_end(edges@[w], forward) as usize));
        assert(rows@.len() > 0);
        assert(ties@.len() > 0);
        assert forall|r: usize| #[trigger] ties@.contains(r) <==> exists|e: int|
            0 <= e < deps.len() && walks_from(#[trigger] deps[e], origin as int, forward) && edge_end(deps[e], forward) == r
                && edge_tick(*model, list, deps[e], forward) == best by {
            if ties@.contains(r) {
                let i = choose|i: int| 0 <= i < rows@.len() && rows@[i] == r;
                assert(rows@.contains(r));
                assert(unsorted.contains(r));
                let j = choose|j: int| 0 <= j < edges@.len() && edge_end(#[trigger] edges@[j], forward) == r && ticks@[j] == best;
                let e = choose|e: int| 0 <= e < deps.len() && deps[e] == edges@[j];
            }
            if exists|e: int|
                0 <= e < deps.len() && walks_from(#[trigger] deps[e], origin as int, forward) && edge_end(deps[e], forward) == r
                    && edge_tick(*model, list, deps[e], forward) == best {
                let e = choose|e: int|
                    0 <= e < deps.len() && walks_from(#[trigger] deps[e], origin as int, forward) && edge_end(deps[e], forward)
                        == r && edge_tick(*model, list, deps[e], forward) == best;
                assert(edges@.contains(deps[e]));
                let j = choose|j: int| 0 <= j < edges@.len() && edges@[j] == deps[e];
                assert(ticks@[j] == best);
                assert(unsorted.contains(r));
                assert(rows@.contains(r));
                let i = choose|i: int| 0 <= i < rows@.len() && rows@[i] == r;
            }
        }
        assert(tie_list(*model, list, origin as int, forward, best, ties@));
    }
    let index = if continuing {
        (walk.index + 1) % ties.len()
    } else {
        0
    };
    let target = ties[index];
    if ties.len() > 1 {
        walk.origin = Some(origin);
        walk.target = Some(target);
        walk.forward = forward;
        walk.index = index;
    } else {
        walk.origin = None;
        walk.target = None;
        walk.index = 0;
    }
    Some(target)
}

} // verus!
