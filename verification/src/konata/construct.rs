//! Building the pipeline model from the normalized records: stage assignment, dependency
//! resolution and the lookup indexes.
use vstd::prelude::*;
use std::collections::HashMap;
use crate::konata::columns::{KonataDependency, KonataStage};
use crate::konata::model::stage_owner;
use crate::konata::projection::ProjectedDependency;
use crate::konata::sorting::sort_unstable;
use crate::konata::texts::{interned, StringInterner};
use crate::konata::model::edge_max_row;
use crate::konata::index::sort_pairs;
use crate::konata::columns::InstructionColumns;
use crate::konata::csr::dependency_csr;
use crate::konata::duplicates::mark_duplicate_rids;
use crate::konata::flags::KonataQualityCounters;
use crate::konata::index::build_row_index;
use crate::konata::model::KonataModel;
use crate::konata::projection::{KonataRelationProjection, PendingStage, ProjectedEventParent};
use crate::konata::records::KonataRecordProjector;
use crate::konata::range_index::BlockRangeIndex;
use crate::konata::stage_assign::assign_stages;
use crate::konata::thread_index::build_thread_rid_index;
use crate::konata::visibility::VisibilityIndex;

verus! {

/// `r` is the last row carrying transaction `tx`.
pub open spec fn last_row_of(txs: Seq<u64>, tx: u64, r: int) -> bool {
    &&& 0 <= r < txs.len()
    &&& txs[r] == tx
    &&& forall|q: int| r < q < txs.len() ==> #[trigger] txs[q] != tx
}

/// `k` is the last stage of event transaction `tx`.
pub open spec fn last_stage_of(stages: Seq<KonataStage>, tx: u64, k: int) -> bool {
    &&& 0 <= k < stages.len()
    &&& stages[k].event_tx == tx
    &&& forall|q: int| k < q < stages.len() ==> (#[trigger] stages[q]).event_tx != tx
}

/// Maps every transaction id to the last row that carries it.
fn build_tx_map(txs: &Vec<u64>) -> (map: HashMap<u64, usize>)
    ensures
        forall|tx: u64| #[trigger] map@.contains_key(tx) <==> exists|r: int| 0 <= r < txs.len() && txs@[r] == tx,
        forall|tx: u64| #[trigger] map@.contains_key(tx) ==> last_row_of(txs@, tx, map@[tx] as int),
{
    broadcast use vstd::std_specs::hash::group_hash_axioms;

    let mut map: HashMap<u64, usize> = HashMap::new();
    let mut r: usize = 0;
    while r < txs.len()
        invariant
            r <= txs.len(),
            forall|tx: u64| #[trigger] map@.contains_key(tx) <==> exists|q: int| 0 <= q < r && txs@[q] == tx,
            forall|tx: u64|
                #[trigger] map@.contains_key(tx) ==> {
                    let p = map@[tx] as int;
                    &&& 0 <= p < r
                    &&& txs@[p] == tx
                    &&& forall|q: int| p < q < r ==> #[trigger] txs@[q] != tx
                },
        decreases txs.len() - r,
    {
        let tx = txs[r];
        map.insert(tx, r);
        proof {
            assert forall|t: u64| #[trigger] map@.contains_key(t) <==> exists|q: int| 0 <= q < r + 1 && txs@[q] == t by {
                if t != tx && map@.contains_key(t) {
                    let q = choose|q: int| 0 <= q < r && txs@[q] == t;
                    assert(0 <= q < r + 1 && txs@[q] == t);
                }
                if exists|q: int| 0 <= q < r + 1 && txs@[q] == t {
                    let q = choose|q: int| 0 <= q < r + 1 && txs@[q] == t;
                    if q < r {
                        assert(exists|q2: int| 0 <= q2 < r && txs@[q2] == t);
                    }
                }
            }
        }
        r = r + 1;
    }
    map
}

/// Maps every event transaction to the row and start tick of its last stage.
fn build_event_endpoints(stages: &Vec<KonataStage>, offsets: &Vec<u32>, row_count: usize) -> (map: HashMap<
    u64,
    (u32, u64),
>)
    requires
        crate::konata::model::stage_ranges_ok(offsets@, row_count as int, stages.len() as int),
        row_count <= u32::MAX,
    ensures
        forall|tx: u64| #[trigger] map@.contains_key(tx) <==> exists|k: int| 0 <= k < stages.len() && stages@[k].event_tx == tx,
        forall|tx: u64|
            #[trigger] map@.contains_key(tx) ==> exists|k: int|
                last_stage_of(stages@, tx, k) && #[trigger] stage_owner(offsets@, k, map@[tx].0 as int) && (map@[tx].0 as int)
                    < row_count && map@[tx].1 == stages@[k].start,
{
    broadcast use vstd::std_specs::hash::group_hash_axioms;

    let mut map: HashMap<u64, (u32, u64)> = HashMap::new();
    let mut r: usize = 0;
    while r < row_count
        invariant
            r <= row_count <= u32::MAX,
            crate::konata::model::stage_ranges_ok(offsets@, row_count as int, stages.len() as int),
            forall|tx: u64| #[trigger] map@.contains_key(tx) <==> exists|k: int| 0 <= k < offsets@[r as int] && stages@[k].event_tx == tx,
            forall|tx: u64|
                #[trigger] map@.contains_key(tx) ==> exists|k: int|
                    0 <= k < offsets@[r as int] && stages@[k].event_tx == tx && (forall|q: int|
                        k < q < offsets@[r as int] ==> (#[trigger] stages@[q]).event_tx != tx) && #[trigger] stage_owner(
                        offsets@,
                        k,
                        map@[tx].0 as int,
                    ) && (map@[tx].0 as int) < r && map@[tx].1 == stages@[k].start,
        decreases row_count - r,
    {
        let start = offsets[r] as usize;
        let end = offsets[r + 1] as usize;
        proof {
            assert(offsets@[r as int] <= offsets@[r + 1]);
            assert(offsets@[r + 1] <= offsets@[row_count as int]);
        }
        let mut k: usize = start;
        while k < end
            invariant
                start <= k <= end <= stages.len(),
                start == offsets@[r as int],
                end == offsets@[r + 1],
                r < row_count <= u32::MAX,
                crate::konata::model::stage_ranges_ok(offsets@, row_count as int, stages.len() as int),
                forall|tx: u64| #[trigger] map@.contains_key(tx) <==> exists|j: int| 0 <= j < k && stages@[j].event_tx == tx,
                forall|tx: u64|
                    #[trigger] map@.contains_key(tx) ==> exists|j: int|
                        0 <= j < k && stages@[j].event_tx == tx && (forall|q: int| j < q < k ==> (#[trigger] stages@[q]).event_tx != tx)
                            && #[trigger] stage_owner(offsets@, j, map@[tx].0 as int) && (map@[tx].0 as int) <= r && map@[tx].1
                            == stages@[j].start,
            decreases end - k,
        {
            let tx = stages[k].event_tx;
            map.insert(tx, (r as u32, stages[k].start));
            proof {
                assert(stage_owner(offsets@, k as int, r as int));
                assert forall|t: u64| #[trigger] map@.contains_key(t) <==> exists|j: int| 0 <= j < k + 1 && stages@[j].event_tx == t by {
                    if exists|j: int| 0 <= j < k + 1 && stages@[j].event_tx == t {
                        let j = choose|j: int| 0 <= j < k + 1 && stages@[j].event_tx == t;
                        if j < k {
                            assert(exists|j2: int| 0 <= j2 < k && stages@[j2].event_tx == t);
                        }
                    }
                    if t != tx && map@.contains_key(t) {
                        let j = choose|j: int| 0 <= j < k && stages@[j].event_tx == t;
                        assert(0 <= j < k + 1 && stages@[j].event_tx == t);
                    }
                }
                assert forall|t: u64| #[trigger] map@.contains_key(t) implies exists|j: int|
                    0 <= j < k + 1 && stages@[j].event_tx == t && (forall|q: int| j < q < k + 1 ==> (#[trigger] stages@[q]).event_tx != t)
                        && #[trigger] stage_owner(offsets@, j, map@[t].0 as int) && (map@[t].0 as int) <= r && map@[t].1
                        == stages@[j].start by {
                    if t == tx {
                        assert(stage_owner(offsets@, k as int, map@[t].0 as int));
                    } else {
                        let j = choose|j: int|
                            0 <= j < k && stages@[j].event_tx == t && (forall|q: int| j < q < k ==> (#[trigger] stages@[q]).event_tx != t)
                                && #[trigger] stage_owner(offsets@, j, map@[t].0 as int) && (map@[t].0 as int) <= r
                                && map@[t].1 == stages@[j].start;
                        assert(stage_owner(offsets@, j, map@[t].0 as int));
                    }
                }
            }
            k = k + 1;
        }
        r = r + 1;
    }
    proof {
        assert forall|tx: u64| #[trigger] map@.contains_key(tx) implies exists|k: int|
            last_stage_of(stages@, tx, k) && #[trigger] stage_owner(offsets@, k, map@[tx].0 as int) && (map@[tx].0 as int)
                < row_count && map@[tx].1 == stages@[k].start by {
            let k = choose|k: int|
                0 <= k < offsets@[row_count as int] && stages@[k].event_tx == tx && (forall|q: int|
                    k < q < offsets@[row_count as int] ==> (#[trigger] stages@[q]).event_tx != tx) && #[trigger] stage_owner(
                    offsets@,
                    k,
                    map@[tx].0 as int,
                ) && (map@[tx].0 as int) < row_count && map@[tx].1 == stages@[k].start;
            assert(last_stage_of(stages@, tx, k));
        }
    }
    map
}


/// Some row carries transaction `tx`.
pub open spec fn has_row(txs: Seq<u64>, tx: u64) -> bool {
    exists|r: int| 0 <= r < txs.len() && #[trigger] txs[r] == tx
}

/// Some stage belongs to event transaction `tx`.
pub open spec fn has_stage(stages: Seq<KonataStage>, tx: u64) -> bool {
    exists|k: int| 0 <= k < stages.len() && (#[trigger] stages[k]).event_tx == tx
}

/// The row whose stage range holds stage `k`.
pub open spec fn owner_row(offsets: Seq<u32>, row_count: int, k: int) -> int {
    choose|r: int| 0 <= r < row_count && #[trigger] stage_owner(offsets, k, r)
}

/// Where a relation endpoint lands: the last row carrying the transaction; failing that,
/// the row and start tick of the last stage of the event transaction; failing that,
/// nowhere.
pub open spec fn endpoint(txs: Seq<u64>, stages: Seq<KonataStage>, offsets: Seq<u32>, row_count: int, tx: u64) -> Option<
    (u32, Option<u64>),
> {
    if has_row(txs, tx) {
        Some(((choose|r: int| last_row_of(txs, tx, r)) as u32, None))
    } else if has_stage(stages, tx) {
        let k = choose|k: int| last_stage_of(stages, tx, k);
        Some((owner_row(offsets, row_count, k) as u32, Some(stages[k].start)))
    } else {
        None
    }
}

/// Both endpoints of the relation land somewhere.
pub open spec fn resolvable(txs: Seq<u64>, stages: Seq<KonataStage>, offsets: Seq<u32>, row_count: int, d: ProjectedDependency) -> bool {
    endpoint(txs, stages, offsets, row_count, d.source_tx) is Some && endpoint(txs, stages, offsets, row_count, d.sink_tx) is Some
}

/// The resolvable relations, in input order.
pub open spec fn kept(
    txs: Seq<u64>,
    stages: Seq<KonataStage>,
    offsets: Seq<u32>,
    row_count: int,
    deps: Seq<ProjectedDependency>,
) -> Seq<ProjectedDependency>
    decreases deps.len(),
{
    if deps.len() == 0 {
        Seq::empty()
    } else {
        let prev = kept(txs, stages, offsets, row_count, deps.drop_last());
        if resolvable(txs, stages, offsets, row_count, deps.last()) {
            prev.push(deps.last())
        } else {
            prev
        }
    }
}

/// The distinct names of `names` in order of first occurrence.
pub open spec fn first_names(names: Seq<u32>) -> Seq<u32>
    decreases names.len(),
{
    if names.len() == 0 {
        Seq::empty()
    } else {
        let prev = first_names(names.drop_last());
        if prev.contains(names.last()) {
            prev
        } else {
            prev.push(names.last())
        }
    }
}

/// The name texts of the relations.
pub open spec fn relation_texts(deps: Seq<ProjectedDependency>) -> Seq<Seq<char>> {
    deps.map_values(|d: ProjectedDependency| d.name@)
}

/// The string table after interning each text in turn.
pub open spec fn intern_all(table: Seq<Seq<char>>, texts: Seq<Seq<char>>) -> Seq<Seq<char>>
    decreases texts.len(),
{
    if texts.len() == 0 {
        table
    } else {
        interned(intern_all(table, texts.drop_last()), texts.last())
    }
}

/// The string ids of the relations' names in `table`.
pub open spec fn relation_names(deps: Seq<ProjectedDependency>, table: Seq<Seq<char>>) -> Seq<u32> {
    deps.map_values(|d: ProjectedDependency| table.index_of(d.name@) as u32)
}

/// The position of `name` in the name table, saturated at `u16::MAX`.
pub open spec fn name_slot(table: Seq<u32>, name: u32) -> u16 {
    let i = table.index_of(name);
    if i < 0xFFFF {
        i as u16
    } else {
        0xFFFFu16
    }
}

/// The edge a resolvable relation becomes.
pub open spec fn edge_of(
    txs: Seq<u64>,
    stages: Seq<KonataStage>,
    offsets: Seq<u32>,
    row_count: int,
    strings: Seq<Seq<char>>,
    table: Seq<u32>,
    d: ProjectedDependency,
) -> KonataDependency {
    let p = endpoint(txs, stages, offsets, row_count, d.source_tx).unwrap();
    let c = endpoint(txs, stages, offsets, row_count, d.sink_tx).unwrap();
    KonataDependency {
        producer_row: p.0,
        consumer_row: c.0,
        name: name_slot(table, strings.index_of(d.name@) as u32),
        producer_tick: p.1,
        consumer_tick: c.1,
    }
}

proof fn lemma_last_row_unique(txs: Seq<u64>, tx: u64, a: int, b: int)
    requires
        last_row_of(txs, tx, a),
        last_row_of(txs, tx, b),
    ensures
        a == b,
{
    if a < b {
        assert(txs[b] != tx);
    } else if b < a {
        assert(txs[a] != tx);
    }
}

proof fn lemma_last_stage_unique(stages: Seq<KonataStage>, tx: u64, a: int, b: int)
    requires
        last_stage_of(stages, tx, a),
        last_stage_of(stages, tx, b),
    ensures
        a == b,
{
    if a < b {
        assert(stages[b].event_tx != tx);
    } else if b < a {
        assert(stages[a].event_tx != tx);
    }
}

proof fn lemma_owner_unique(offsets: Seq<u32>, row_count: int, stage_count: int, k: int, a: int, b: int)
    requires
        crate::konata::model::stage_ranges_ok(offsets, row_count, stage_count),
        0 <= a < row_count,
        0 <= b < row_count,
        stage_owner(offsets, k, a),
        stage_owner(offsets, k, b),
    ensures
        a == b,
{
    if a < b {
        assert(offsets[a + 1] <= offsets[b]);
    } else if b < a {
        assert(offsets[b + 1] <= offsets[a]);
    }
}

/// The maps that `build_tx_map` and `build_event_endpoints` produce.
pub open spec fn endpoint_maps(
    txs: Seq<u64>,
    stages: Seq<KonataStage>,
    offsets: Seq<u32>,
    row_count: int,
    tx_map: Map<u64, usize>,
    events: Map<u64, (u32, u64)>,
) -> bool {
    &&& crate::konata::model::stage_ranges_ok(offsets, row_count, stages.len() as int)
    &&& row_count == txs.len()
    &&& row_count <= u32::MAX
    &&& forall|tx: u64| #[trigger] tx_map.contains_key(tx) <==> exists|r: int| 0 <= r < txs.len() && txs[r] == tx
    &&& forall|tx: u64| #[trigger] tx_map.contains_key(tx) ==> last_row_of(txs, tx, tx_map[tx] as int)
    &&& forall|tx: u64| #[trigger] events.contains_key(tx) <==> exists|k: int| 0 <= k < stages.len() && stages[k].event_tx == tx
    &&& forall|tx: u64|
        #[trigger] events.contains_key(tx) ==> exists|k: int|
            last_stage_of(stages, tx, k) && #[trigger] stage_owner(offsets, k, events[tx].0 as int) && (events[tx].0 as int)
                < row_count && events[tx].1 == stages[k].start
}

/// Looks up where a relation endpoint lands.
fn lookup_endpoint(
    tx: u64,
    tx_map: &HashMap<u64, usize>,
    events: &HashMap<u64, (u32, u64)>,
    Ghost(txs): Ghost<Seq<u64>>,
    Ghost(stages): Ghost<Seq<KonataStage>>,
    Ghost(offsets): Ghost<Seq<u32>>,
    Ghost(row_count): Ghost<int>,
) -> (result: Option<(u32, Option<u64>)>)
    requires
        endpoint_maps(txs, stages, offsets, row_count, tx_map@, events@),
    ensures
        result == endpoint(txs, stages, offsets, row_count, tx),
{
    match tx_map.get(&tx) {
        Some(row) => {
            proof {
                assert(tx_map@.contains_key(tx));
                assert(has_row(txs, tx)) by {
                    assert(txs[*row as int] == tx);
                }
                let c = choose|r: int| last_row_of(txs, tx, r);
                lemma_last_row_unique(txs, tx, c, *row as int);
            }
            Some((*row as u32, None))
        },
        None => {
            proof {
                assert(!has_row(txs, tx)) by {
                    if has_row(txs, tx) {
                        let r = choose|r: int| 0 <= r < txs.len() && #[trigger] txs[r] == tx;
                        assert(exists|q: int| 0 <= q < txs.len() && txs[q] == tx);
                    }
                }
            }
            match events.get(&tx) {
                Some(hit) => {
                    proof {
                        assert(events@.contains_key(tx));
                        let k = choose|k: int|
                            last_stage_of(stages, tx, k) && #[trigger] stage_owner(offsets, k, events@[tx].0 as int) && (
                            events@[tx].0 as int) < row_count && events@[tx].1 == stages[k].start;
                        assert(has_stage(stages, tx)) by {
                            assert(stages[k].event_tx == tx);
                        }
                        let c = choose|c: int| last_stage_of(stages, tx, c);
                        lemma_last_stage_unique(stages, tx, c, k);
                        let o = owner_row(offsets, row_count, k);
                        assert(0 <= hit.0 < row_count && stage_owner(offsets, k, hit.0 as int));
                        lemma_owner_unique(offsets, row_count, stages.len() as int, k, o, hit.0 as int);
                    }
                    Some((hit.0, Some(hit.1)))
                },
                None => {
                    proof {
                        assert(!has_stage(stages, tx)) by {
                            if has_stage(stages, tx) {
                                let k = choose|k: int| 0 <= k < stages.len() && (#[trigger] stages[k]).event_tx == tx;
                                assert(exists|q: int| 0 <= q < stages.len() && stages[q].event_tx == tx);
                            }
                        }
                    }
                    None
                },
            }
        },
    }
}


proof fn lemma_kept_step(
    txs: Seq<u64>,
    stages: Seq<KonataStage>,
    offsets: Seq<u32>,
    row_count: int,
    deps: Seq<ProjectedDependency>,
    i: int,
)
    requires
        0 <= i < deps.len(),
    ensures
        kept(txs, stages, offsets, row_count, deps.take(i + 1)) == if resolvable(txs, stages, offsets, row_count, deps[i]) {
            kept(txs, stages, offsets, row_count, deps.take(i)).push(deps[i])
        } else {
            kept(txs, stages, offsets, row_count, deps.take(i))
        },
{
    assert(deps.take(i + 1).drop_last() =~= deps.take(i));
    assert(deps.take(i + 1).last() == deps[i]);
}

proof fn lemma_first_names_step(ks: Seq<ProjectedDependency>, d: ProjectedDependency, table: Seq<Seq<char>>)
    ensures
        relation_names(ks.push(d), table) == relation_names(ks, table).push(table.index_of(d.name@) as u32),
        first_names(relation_names(ks.push(d), table)) == if first_names(relation_names(ks, table)).contains(
            table.index_of(d.name@) as u32,
        ) {
            first_names(relation_names(ks, table))
        } else {
            first_names(relation_names(ks, table)).push(table.index_of(d.name@) as u32)
        },
{
    assert(relation_names(ks.push(d), table) =~= relation_names(ks, table).push(table.index_of(d.name@) as u32));
    assert(relation_names(ks.push(d), table).drop_last() =~= relation_names(ks, table));
}

/// In a table without duplicates, the index of an entry is its position.
proof fn lemma_index_of_unique(t: Seq<Seq<char>>, x: Seq<char>, i: int)
    requires
        t.no_duplicates(),
        0 <= i < t.len(),
        t[i] == x,
    ensures
        t.index_of(x) == i,
{
    assert(t.contains(x));
    let j = t.index_of(x);
    assert(0 <= j < t.len() && t[j] == x);
}

/// Interning keeps every earlier entry where it was.
proof fn lemma_interned_prefix(t: Seq<Seq<char>>, x: Seq<char>)
    ensures
        t.is_prefix_of(interned(t, x)),
        interned(t, x).contains(x),
{
    if !t.contains(x) {
        assert(interned(t, x)[t.len() as int] == x);
    }
}

pub proof fn lemma_slot_push(t: Seq<u32>, x: u32, y: u32)
    requires
        t.no_duplicates(),
        !t.contains(y),
    ensures
        t.push(y).no_duplicates(),
        name_slot(t.push(y), y) == (if t.len() < 0xFFFF { t.len() as u16 } else { 0xFFFFu16 }),
        t.contains(x) ==> name_slot(t.push(y), x) == name_slot(t, x),
{
    let u = t.push(y);
    assert(u.no_duplicates()) by {
        assert forall|a: int, b: int| 0 <= a < u.len() && 0 <= b < u.len() && a != b implies u[a] != u[b] by {
            if a == t.len() {
                assert(!t.contains(u[b]) || u[b] != y);
                if u[b] == y {
                    assert(t[b] == y);
                    assert(t.contains(y));
                }
            } else if b == t.len() {
                if u[a] == y {
                    assert(t[a] == y);
                    assert(t.contains(y));
                }
            }
        }
    }
    assert(u[t.len() as int] == y);
    let iy = u.index_of(y);
    assert(0 <= iy < u.len() && u[iy] == y);
    if iy != t.len() {
        assert(u[iy] != u[t.len() as int]);
    }
    if t.contains(x) {
        let j = choose|j: int| 0 <= j < t.len() && t[j] == x;
        let it = t.index_of(x);
        assert(0 <= it < t.len() && t[it] == x);
        let iu = u.index_of(x);
        assert(u[j] == x);
        assert(0 <= iu < u.len() && u[iu] == x);
        assert(u[it] == x);
        if iu != it {
            assert(u[iu] != u[it]);
        }
    }
}

/// Resolves the relations to edges in input order, interning the names of the edges
/// into the string table and numbering the distinct edge names in order of first use; each
/// edge keeps its relation's input order.
fn resolve_dependencies(
    deps: &Vec<ProjectedDependency>,
    tx_map: &HashMap<u64, usize>,
    events: &HashMap<u64, (u32, u64)>,
    strings: &mut StringInterner,
    Ghost(txs): Ghost<Seq<u64>>,
    Ghost(stages): Ghost<Seq<KonataStage>>,
    Ghost(offsets): Ghost<Seq<u32>>,
    Ghost(row_count): Ghost<int>,
) -> (result: (Vec<(u64, KonataDependency)>, Vec<u32>))
    requires
        endpoint_maps(txs, stages, offsets, row_count, tx_map@, events@),
        old(strings).wf(),
        old(strings)@.len() + deps.len() < u32::MAX,
    ensures
        final(strings).wf(),
        final(strings)@ == intern_all(old(strings)@, relation_texts(kept(txs, stages, offsets, row_count, deps@))),
        result.1@ == first_names(relation_names(kept(txs, stages, offsets, row_count, deps@), final(strings)@)),
        result.1@.no_duplicates(),
        result.0@.len() == kept(txs, stages, offsets, row_count, deps@).len(),
        forall|i: int|
            0 <= i < result.0@.len() ==> #[trigger] result.0@[i] == (
                kept(txs, stages, offsets, row_count, deps@)[i].input_order,
                edge_of(
                    txs,
                    stages,
                    offsets,
                    row_count,
                    final(strings)@,
                    result.1@,
                    kept(txs, stages, offsets, row_count, deps@)[i],
                ),
            ),
{
    broadcast use vstd::std_specs::hash::group_hash_axioms;

    let ghost s0 = strings@;
    let mut edges: Vec<(u64, KonataDependency)> = Vec::new();
    let mut names: Vec<u32> = Vec::new();
    let mut ids: HashMap<u32, u16> = HashMap::new();
    let mut i: usize = 0;
    while i < deps.len()
        invariant
            i <= deps.len(),
            endpoint_maps(txs, stages, offsets, row_count, tx_map@, events@),
            strings.wf(),
            s0.len() + deps.len() < u32::MAX,
            strings@ == intern_all(s0, relation_texts(kept(txs, stages, offsets, row_count, deps@.take(i as int)))),
            strings@.len() <= s0.len() + i,
            names@ == first_names(relation_names(kept(txs, stages, offsets, row_count, deps@.take(i as int)), strings@)),
            names@.no_duplicates(),
            forall|x: u32| #[trigger] ids@.contains_key(x) <==> names@.contains(x),
            forall|x: u32| #[trigger] ids@.contains_key(x) ==> ids@[x] == name_slot(names@, x),
            edges@.len() == kept(txs, stages, offsets, row_count, deps@.take(i as int)).len(),
            forall|j: int|
                0 <= j < edges@.len() ==> #[trigger] edges@[j] == (
                    kept(txs, stages, offsets, row_count, deps@.take(i as int))[j].input_order,
                    edge_of(
                        txs,
                        stages,
                        offsets,
                        row_count,
                        strings@,
                        names@,
                        kept(txs, stages, offsets, row_count, deps@.take(i as int))[j],
                    ),
                ),
            forall|j: int|
                0 <= j < edges@.len() ==> strings@.contains(
                    (#[trigger] kept(txs, stages, offsets, row_count, deps@.take(i as int))[j]).name@,
                ),
            forall|j: int|
                0 <= j < edges@.len() ==> names@.contains(
                    strings@.index_of((#[trigger] kept(txs, stages, offsets, row_count, deps@.take(i as int))[j]).name@) as u32,
                ),
        decreases deps.len() - i,
    {
        let d = &deps[i];
        let ghost ks = kept(txs, stages, offsets, row_count, deps@.take(i as int));
        proof {
            lemma_kept_step(txs, stages, offsets, row_count, deps@, i as int);
        }
        let producer = lookup_endpoint(d.source_tx, tx_map, events, Ghost(txs), Ghost(stages), Ghost(offsets), Ghost(row_count));
        let consumer = lookup_endpoint(d.sink_tx, tx_map, events, Ghost(txs), Ghost(stages), Ghost(offsets), Ghost(row_count));
        if let (Some(p), Some(c)) = (producer, consumer) {
            let ghost strings_before = strings@;
            proof {
                strings.lemma_distinct();
            }
            let name_id = strings.intern(d.name.clone());
            let ghost table = strings@;
            proof {
                strings.lemma_distinct();
                lemma_interned_prefix(strings_before, d.name@);
                lemma_index_of_unique(table, d.name@, name_id as int);
                assert(relation_texts(ks.push(*d)) =~= relation_texts(ks).push(d.name@));
                assert(relation_texts(ks.push(*d)).drop_last() =~= relation_texts(ks));
                assert(relation_names(ks, table) =~= relation_names(ks, strings_before)) by {
                    assert forall|j: int| 0 <= j < ks.len() implies table.index_of(ks[j].name@) == strings_before.index_of(
                        ks[j].name@,
                    ) by {
                        assert(strings_before.contains(ks[j].name@));
                        let q = strings_before.index_of(ks[j].name@);
                        assert(table[q] == strings_before[q]);
                        lemma_index_of_unique(table, ks[j].name@, q);
                    }
                }
                lemma_first_names_step(ks, *d, table);
            }
            let ghost old_names = names@;
            let slot: u16 = match ids.get(&name_id) {
                Some(slot) => *slot,
                None => {
                    let next: u16 = if names.len() < 0xFFFF { names.len() as u16 } else { 0xFFFF };
                    proof {
                        assert(!names@.contains(name_id));
                    }
                    names.push(name_id);
                    ids.insert(name_id, next);
                    proof {
                        assert forall|x: u32| old_names.contains(x) implies name_slot(names@, x) == name_slot(old_names, x) by {
                            lemma_slot_push(old_names, x, name_id);
                        }
                        lemma_slot_push(old_names, name_id, name_id);
                        assert forall|x: u32| #[trigger] ids@.contains_key(x) <==> names@.contains(x) by {
                            if x != name_id {
                                if names@.contains(x) {
                                    let q = choose|q: int| 0 <= q < names@.len() && names@[q] == x;
                                    assert(old_names[q] == x);
                                }
                                if old_names.contains(x) {
                                    let q = choose|q: int| 0 <= q < old_names.len() && old_names[q] == x;
                                    assert(names@[q] == x);
                                }
                            } else {
                                assert(names@[old_names.len() as int] == x);
                            }
                        }
                        assert forall|x: u32| #[trigger] ids@.contains_key(x) implies ids@[x] == name_slot(names@, x) by {
                            if x != name_id {
                                assert(old_names.contains(x));
                            }
                        }
                    }
                    next
                },
            };
            let edge = KonataDependency {
                producer_row: p.0,
                consumer_row: c.0,
                name: slot,
                producer_tick: p.1,
                consumer_tick: c.1,
            };
            let ghost old_edges = edges@;
            edges.push((d.input_order, edge));
            proof {
                let ks2 = ks.push(*d);
                assert(ids@.contains_key(name_id));
                assert(names@.contains(name_id));
                assert forall|j: int| 0 <= j < edges@.len() implies strings@.contains(#[trigger] ks2[j].name@) by {
                    if j < old_edges.len() {
                        assert(ks2[j] == ks[j]);
                        let q = choose|q: int| 0 <= q < strings_before.len() && strings_before[q] == ks[j].name@;
                        assert(table[q] == strings_before[q]);
                    } else {
                        assert(table[name_id as int] == d.name@);
                    }
                }
                assert forall|j: int| 0 <= j < edges@.len() implies #[trigger] edges@[j] == (
                    ks2[j].input_order,
                    edge_of(txs, stages, offsets, row_count, strings@, names@, ks2[j]),
                ) by {
                    if j < old_edges.len() {
                        assert(ks2[j] == ks[j]);
                        let q = strings_before.index_of(ks[j].name@);
                        assert(strings_before.contains(ks[j].name@));
                        assert(table[q] == strings_before[q]);
                        lemma_index_of_unique(table, ks[j].name@, q);
                        assert(old_names.contains(q as u32));
                        if names@ != old_names {
                            lemma_slot_push(old_names, q as u32, name_id);
                        }
                    }
                }
                assert forall|j: int| 0 <= j < edges@.len() implies names@.contains(
                    strings@.index_of((#[trigger] ks2[j]).name@) as u32,
                ) by {
                    if j < old_edges.len() {
                        assert(ks2[j] == ks[j]);
                        let q = strings_before.index_of(ks[j].name@);
                        assert(strings_before.contains(ks[j].name@));
                        assert(table[q] == strings_before[q]);
                        lemma_index_of_unique(table, ks[j].name@, q);
                        assert(old_names.contains(q as u32));
                        if names@ != old_names {
                            let r = choose|r: int| 0 <= r < old_names.len() && old_names[r] == q as u32;
                            assert(names@[r] == q as u32);
                        }
                    }
                }
            }
        }
        i = i + 1;
    }
    proof {
        assert(deps@.take(deps.len() as int) =~= deps@);
    }
    (edges, names)
}


/// The smaller row of an edge.
pub open spec fn edge_min_row(d: KonataDependency) -> u32 {
    if d.producer_row <= d.consumer_row {
        d.producer_row
    } else {
        d.consumer_row
    }
}

/// The order of an edge: larger row, smaller row, input order, position.
pub open spec fn edge_key(e: (u64, KonataDependency), pos: int) -> (u32, u32, u64, u32) {
    (edge_max_row(e.1), edge_min_row(e.1), e.0, pos as u32)
}

/// Strict lexicographic order on edge keys.
pub open spec fn edge_key_lt(a: (u32, u32, u64, u32), b: (u32, u32, u64, u32)) -> bool {
    a.0 < b.0 || (a.0 == b.0 && (a.1 < b.1 || (a.1 == b.1 && (a.2 < b.2 || (a.2 == b.2 && a.3 < b.3)))))
}

/// `out` lists the edges of `edges` in ascending key order; `perm` names the source of each.
pub open spec fn sorts_edges(edges: Seq<(u64, KonataDependency)>, perm: Seq<int>, out: Seq<KonataDependency>) -> bool {
    &&& perm.len() == edges.len()
    &&& out.len() == edges.len()
    &&& forall|k: int| 0 <= k < out.len() ==> 0 <= #[trigger] perm[k] < edges.len() && out[k] == edges[perm[k]].1
    &&& forall|k1: int, k2: int|
        0 <= k1 < k2 < out.len() ==> edge_key_lt(
            edge_key(edges[#[trigger] perm[k1]], perm[k1]),
            edge_key(edges[#[trigger] perm[k2]], perm[k2]),
        )
    &&& forall|i: int| 0 <= i < edges.len() ==> #[trigger] perm.contains(i)
}

proof fn lemma_edge_key_permutation(v: Seq<(u32, u32, u64, u32)>, s: Seq<(u32, u32, u64, u32)>)
    requires
        v.to_multiset() == s.to_multiset(),
        v.no_duplicates(),
    ensures
        forall|x: (u32, u32, u64, u32)| v.contains(x) <==> s.contains(x),
        s.no_duplicates(),
        s.len() == v.len(),
{
    broadcast use vstd::seq_lib::group_to_multiset_ensures;

    v.lemma_multiset_has_no_duplicates();
    s.lemma_multiset_has_no_duplicates_conv();
    assert forall|x: (u32, u32, u64, u32)| v.contains(x) <==> s.contains(x) by {
        assert(v.contains(x) <==> v.to_multiset().count(x) > 0);
        assert(s.contains(x) <==> s.to_multiset().count(x) > 0);
    }
    assert(v.to_multiset().len() == v.len());
    assert(s.to_multiset().len() == s.len());
}

/// Lexicographic order on edge keys.
pub open spec fn edge_key_le(a: (u32, u32, u64, u32), b: (u32, u32, u64, u32)) -> bool {
    a.0 < b.0 || (a.0 == b.0 && (a.1 < b.1 || (a.1 == b.1 && (a.2 < b.2 || (a.2 == b.2 && a.3 <= b.3)))))
}

/// Sorts edge keys in ascending lexicographic order.
fn sort_edge_keys(v: &mut Vec<(u32, u32, u64, u32)>)
    ensures
        forall|a: int, b: int| 0 <= a < b < final(v)@.len() ==> edge_key_le(#[trigger] final(v)@[a], #[trigger] final(v)@[b]),
        final(v)@.to_multiset() == old(v)@.to_multiset(),
{
    sort_unstable(v);
    proof {
        assert forall|a: int, b: int| 0 <= a < b < v@.len() implies edge_key_le(#[trigger] v@[a], #[trigger] v@[b]) by {
            crate::konata::sorting::lemma_edge_key_order(v@[a], v@[b]);
        }
    }
}

/// Orders the edges by larger row, smaller row and input order (stable for equal keys).
fn sort_dependencies(edges: &Vec<(u64, KonataDependency)>) -> (sorted: Vec<KonataDependency>)
    requires
        edges.len() <= u32::MAX,
    ensures
        exists|perm: Seq<int>| sorts_edges(edges@, perm, sorted@),
{
    let n = edges.len();
    let mut keys: Vec<(u32, u32, u64, u32)> = Vec::with_capacity(n);
    let mut i: usize = 0;
    while i < n
        invariant
            i <= n == edges.len() <= u32::MAX,
            keys@.len() == i,
            forall|j: int| 0 <= j < i ==> #[trigger] keys@[j] == edge_key(edges@[j], j),
        decreases n - i,
    {
        let (order, d) = edges[i];
        let hi = if d.producer_row >= d.consumer_row { d.producer_row } else { d.consumer_row };
        let lo = if d.producer_row <= d.consumer_row { d.producer_row } else { d.consumer_row };
        keys.push((hi, lo, order, i as u32));
        i = i + 1;
    }
    let ghost unsorted = keys@;
    proof {
        assert(unsorted.no_duplicates()) by {
            assert forall|a: int, b: int| 0 <= a < unsorted.len() && 0 <= b < unsorted.len() && a != b implies unsorted[a]
                != unsorted[b] by {
                assert(unsorted[a].3 == a as u32);
                assert(unsorted[b].3 == b as u32);
            }
        }
    }
    sort_edge_keys(&mut keys);
    proof {
        lemma_edge_key_permutation(unsorted, keys@);
        assert forall|a: int, b: int| 0 <= a < b < keys@.len() implies edge_key_lt(#[trigger] keys@[a], #[trigger] keys@[b]) by {
            assert(edge_key_le(keys@[a], keys@[b]));
            assert(keys@[a] != keys@[b]);
        }
        assert forall|k: int| 0 <= k < keys@.len() implies {
            &&& 0 <= (#[trigger] keys@[k]).3 < n
            &&& keys@[k] == edge_key(edges@[keys@[k].3 as int], keys@[k].3 as int)
        } by {
            assert(keys@.contains(keys@[k]));
            assert(unsorted.contains(keys@[k]));
            let j = choose|j: int| 0 <= j < unsorted.len() && unsorted[j] == keys@[k];
            assert(unsorted[j].3 == j as u32);
        }
    }
    let mut out: Vec<KonataDependency> = Vec::with_capacity(n);
    let mut k: usize = 0;
    while k < n
        invariant
            k <= n == edges.len() == keys@.len(),
            out@.len() == k,
            forall|j: int|
                0 <= j < keys@.len() ==> {
                    &&& 0 <= (#[trigger] keys@[j]).3 < n
                    &&& keys@[j] == edge_key(edges@[keys@[j].3 as int], keys@[j].3 as int)
                },
            forall|j: int| 0 <= j < k ==> #[trigger] out@[j] == edges@[keys@[j].3 as int].1,
        decreases n - k,
    {
        let p = keys[k].3 as usize;
        proof {
            assert(0 <= keys@[k as int].3 < n);
        }
        out.push(edges[p].1);
        k = k + 1;
    }
    let ghost perm = Seq::new(n as nat, |j: int| keys@[j].3 as int);
    proof {
        assert forall|k1: int, k2: int| 0 <= k1 < k2 < out@.len() implies edge_key_lt(
            edge_key(edges@[#[trigger] perm[k1]], perm[k1]),
            edge_key(edges@[#[trigger] perm[k2]], perm[k2]),
        ) by {
            assert(keys@[k1] == edge_key(edges@[perm[k1]], perm[k1]));
            assert(keys@[k2] == edge_key(edges@[perm[k2]], perm[k2]));
            assert(edge_key_lt(keys@[k1], keys@[k2]));
        }
        assert forall|i2: int| 0 <= i2 < edges@.len() implies #[trigger] perm.contains(i2) by {
            assert(unsorted.contains(unsorted[i2]));
            assert(keys@.contains(unsorted[i2]));
            let k2 = choose|k2: int| 0 <= k2 < keys@.len() && keys@[k2] == unsorted[i2];
            assert(unsorted[i2].3 == i2 as u32);
            assert(perm[k2] == i2);
        }
        assert forall|k2: int| 0 <= k2 < out@.len() implies 0 <= #[trigger] perm[k2] < edges@.len() && out@[k2]
            == edges@[perm[k2]].1 by {
            assert(0 <= keys@[k2].3 < n);
        }
        assert(sorts_edges(edges@, perm, out@));
    }
    out
}


/// Builds the sorted (event transaction, row) index of all stages.
fn build_event_index(stages: &Vec<KonataStage>, offsets: &Vec<u32>, row_count: usize) -> (index: Vec<(u64, u32)>)
    requires
        crate::konata::model::stage_ranges_ok(offsets@, row_count as int, stages.len() as int),
        row_count <= u32::MAX,
    ensures
        crate::konata::model::indexes_events(index@, stages@, offsets@, row_count as int),
{
    let mut v: Vec<(u64, u32)> = Vec::with_capacity(stages.len());
    let mut r: usize = 0;
    while r < row_count
        invariant
            r <= row_count <= u32::MAX,
            crate::konata::model::stage_ranges_ok(offsets@, row_count as int, stages.len() as int),
            forall|i: int|
                0 <= i < v.len() ==> {
                    let (event, row) = #[trigger] v@[i];
                    &&& (row as int) < row_count
                    &&& exists|k: int| #[trigger] stage_owner(offsets@, k, row as int) && stages@[k].event_tx == event
                },
            forall|r2: int, k: int|
                #![trigger stage_owner(offsets@, k, r2)]
                0 <= r2 < r && stage_owner(offsets@, k, r2) ==> v@.contains((stages@[k].event_tx, r2 as u32)),
        decreases row_count - r,
    {
        let start = offsets[r] as usize;
        let end = offsets[r + 1] as usize;
        proof {
            assert(offsets@[r as int] <= offsets@[r + 1]);
            assert(offsets@[r + 1] <= offsets@[row_count as int]);
        }
        let mut k: usize = start;
        while k < end
            invariant
                start <= k <= end <= stages.len(),
                start == offsets@[r as int],
                end == offsets@[r + 1],
                r < row_count <= u32::MAX,
                crate::konata::model::stage_ranges_ok(offsets@, row_count as int, stages.len() as int),
                forall|i: int|
                    0 <= i < v.len() ==> {
                        let (event, row) = #[trigger] v@[i];
                        &&& (row as int) < row_count
                        &&& exists|k2: int| #[trigger] stage_owner(offsets@, k2, row as int) && stages@[k2].event_tx == event
                    },
                forall|r2: int, k2: int|
                    #![trigger stage_owner(offsets@, k2, r2)]
                    0 <= r2 < r && stage_owner(offsets@, k2, r2) ==> v@.contains((stages@[k2].event_tx, r2 as u32)),
                forall|k2: int| start <= k2 < k ==> v@.contains((#[trigger] stages@[k2].event_tx, r as u32)),
            decreases end - k,
        {
            let ghost before = v@;
            v.push((stages[k].event_tx, r as u32));
            proof {
                assert(stage_owner(offsets@, k as int, r as int));
                assert(v@[before.len() as int] == (stages@[k as int].event_tx, r as u32));
                assert forall|i: int| 0 <= i < v.len() implies {
                    let (event, row) = #[trigger] v@[i];
                    &&& (row as int) < row_count
                    &&& exists|k2: int| #[trigger] stage_owner(offsets@, k2, row as int) && stages@[k2].event_tx == event
                } by {
                    if i < before.len() {
                        assert(v@[i] == before[i]);
                    } else {
                        assert(stage_owner(offsets@, k as int, v@[i].1 as int));
                    }
                }
                assert forall|r2: int, k2: int|
                    #![trigger stage_owner(offsets@, k2, r2)]
                    0 <= r2 < r && stage_owner(offsets@, k2, r2) implies v@.contains((stages@[k2].event_tx, r2 as u32)) by {
                    let j = choose|j: int| 0 <= j < before.len() && before[j] == (stages@[k2].event_tx, r2 as u32);
                    assert(v@[j] == before[j]);
                }
                assert forall|k2: int| start <= k2 < k + 1 implies v@.contains((#[trigger] stages@[k2].event_tx, r as u32)) by {
                    if k2 < k {
                        let j = choose|j: int| 0 <= j < before.len() && before[j] == (stages@[k2].event_tx, r as u32);
                        assert(v@[j] == before[j]);
                    }
                }
            }
            k = k + 1;
        }
        proof {
            assert forall|r2: int, k2: int|
                #![trigger stage_owner(offsets@, k2, r2)]
                0 <= r2 < r + 1 && stage_owner(offsets@, k2, r2) implies v@.contains((stages@[k2].event_tx, r2 as u32)) by {
                if r2 == r {
                    assert(start <= k2 < end);
                }
            }
        }
        r = r + 1;
    }
    let ghost unsorted = v@;
    sort_pairs(&mut v);
    proof {
        crate::konata::index::lemma_same_members(unsorted, v@);
        assert forall|i: int| 0 <= i < v.len() implies {
            let (event, row) = #[trigger] v@[i];
            &&& (row as int) < row_count
            &&& exists|k: int| #[trigger] stage_owner(offsets@, k, row as int) && stages@[k].event_tx == event
        } by {
            assert(v@.contains(v@[i]));
            assert(unsorted.contains(v@[i]));
        }
    }
    v
}


proof fn lemma_owner_exists(offsets: Seq<u32>, row_count: int, stage_count: int, k: int, r: int)
    requires
        crate::konata::model::stage_ranges_ok(offsets, row_count, stage_count),
        0 <= r < row_count,
        0 <= k < offsets[r + 1],
    ensures
        exists|q: int| 0 <= q <= r && #[trigger] stage_owner(offsets, k, q),
    decreases r,
{
    if offsets[r] <= k {
        assert(stage_owner(offsets, k, r));
    } else {
        lemma_owner_exists(offsets, row_count, stage_count, k, r - 1);
    }
}

proof fn lemma_endpoint_in_range(txs: Seq<u64>, stages: Seq<KonataStage>, offsets: Seq<u32>, row_count: int, tx: u64)
    requires
        crate::konata::model::stage_ranges_ok(offsets, row_count, stages.len() as int),
        row_count == txs.len(),
        row_count <= u32::MAX,
        endpoint(txs, stages, offsets, row_count, tx) is Some,
    ensures
        (endpoint(txs, stages, offsets, row_count, tx).unwrap().0 as int) < row_count,
{
    if has_row(txs, tx) {
        let r = choose|r: int| 0 <= r < txs.len() && #[trigger] txs[r] == tx;
        let q = choose|q: int| 0 <= q < txs.len() && txs[q] == tx && forall|p: int| q < p < txs.len() ==> #[trigger] txs[p] != tx;
        assert(exists|q: int| last_row_of(txs, tx, q)) by {
            lemma_last_exists(txs, tx, r, txs.len() - 1);
        }
    } else {
        let k0 = choose|k: int| 0 <= k < stages.len() && (#[trigger] stages[k]).event_tx == tx;
        assert(exists|k: int| last_stage_of(stages, tx, k)) by {
            lemma_last_stage_exists(stages, tx, k0, stages.len() - 1);
        }
        let k = choose|k: int| last_stage_of(stages, tx, k);
        assert(row_count > 0) by {
            if row_count == 0 {
                assert(offsets[0] == stages.len());
            }
        }
        lemma_owner_exists(offsets, row_count, stages.len() as int, k, row_count - 1);
    }
}

proof fn lemma_last_exists(txs: Seq<u64>, tx: u64, r: int, top: int)
    requires
        0 <= r <= top < txs.len(),
        txs[r] == tx,
        forall|q: int| top < q < txs.len() ==> #[trigger] txs[q] != tx,
    ensures
        exists|q: int| last_row_of(txs, tx, q),
    decreases top - r,
{
    if txs[top] == tx {
        assert(last_row_of(txs, tx, top));
    } else {
        lemma_last_exists(txs, tx, r, top - 1);
    }
}

proof fn lemma_last_stage_exists(stages: Seq<KonataStage>, tx: u64, k: int, top: int)
    requires
        0 <= k <= top < stages.len(),
        stages[k].event_tx == tx,
        forall|q: int| top < q < stages.len() ==> (#[trigger] stages[q]).event_tx != tx,
    ensures
        exists|q: int| last_stage_of(stages, tx, q),
    decreases top - k,
{
    if stages[top].event_tx == tx {
        assert(last_stage_of(stages, tx, top));
    } else {
        lemma_last_stage_exists(stages, tx, k, top - 1);
    }
}

proof fn lemma_kept_len(
    txs: Seq<u64>,
    stages: Seq<KonataStage>,
    offsets: Seq<u32>,
    row_count: int,
    deps: Seq<ProjectedDependency>,
)
    ensures
        kept(txs, stages, offsets, row_count, deps).len() <= deps.len(),
        forall|i: int|
            0 <= i < kept(txs, stages, offsets, row_count, deps).len() ==> resolvable(
                txs,
                stages,
                offsets,
                row_count,
                #[trigger] kept(txs, stages, offsets, row_count, deps)[i],
            ),
    decreases deps.len(),
{
    if deps.len() > 0 {
        lemma_kept_len(txs, stages, offsets, row_count, deps.drop_last());
    }
}

/// The (begin, end) pair of every row.
fn row_values(rows: &InstructionColumns) -> (values: Vec<(u64, u64)>)
    requires
        rows.wf(),
    ensures
        values@ == crate::konata::model::row_ranges(*rows),
{
    let n = rows.len();
    let mut values: Vec<(u64, u64)> = Vec::with_capacity(n);
    let mut r: usize = 0;
    while r < n
        invariant
            r <= n == rows.begin.len(),
            rows.wf(),
            values@.len() == r,
            forall|j: int| 0 <= j < r ==> #[trigger] values@[j] == (rows.begin@[j], rows.end@[j]),
        decreases n - r,
    {
        values.push((rows.begin[r], rows.end[r]));
        r = r + 1;
    }
    proof {
        assert(values@ =~= crate::konata::model::row_ranges(*rows));
    }
    values
}

/// The (begin, end) pair of every visible row, in row order.
fn visible_row_values(rows: &InstructionColumns, visibility: &VisibilityIndex) -> (values: Vec<(u64, u64)>)
    requires
        rows.wf(),
        visibility.wf(),
        visibility@.len() == rows.begin.len(),
    ensures
        crate::konata::model::visible_ranges_of(*rows, visibility@, values@),
{
    let count = visibility.visible_count();
    let mut values: Vec<(u64, u64)> = Vec::with_capacity(count);
    let mut v: usize = 0;
    while v < count
        invariant
            v <= count == visibility.visible_spec(),
            rows.wf(),
            visibility.wf(),
            visibility@.len() == rows.begin.len(),
            values@.len() == v,
            forall|r: int|
                0 <= r < visibility@.len() && visibility@[r] && #[trigger] crate::konata::bits::count_true(visibility@, r) < v
                    ==> values@[crate::konata::bits::count_true(visibility@, r) as int] == (rows.begin@[r], rows.end@[r]),
        decreases count - v,
    {
        let row = visibility.select(v);
        match row {
            Some(r) => {
                let ghost before = values@;
                values.push((rows.begin[r], rows.end[r]));
                proof {
                    assert forall|r2: int|
                        0 <= r2 < visibility@.len() && visibility@[r2] && #[trigger] crate::konata::bits::count_true(visibility@, r2)
                            < v + 1 implies values@[crate::konata::bits::count_true(visibility@, r2) as int] == (
                        rows.begin@[r2],
                        rows.end@[r2],
                    ) by {
                        let c = crate::konata::bits::count_true(visibility@, r2) as int;
                        if c < v {
                            assert(values@[c] == before[c]);
                        } else {
                            if r2 < r {
                                crate::konata::bits::lemma_rank_injective(visibility@, r2, r as int);
                            } else if r < r2 {
                                crate::konata::bits::lemma_rank_injective(visibility@, r as int, r2);
                            }
                        }
                    }
                }
            },
            None => {},
        }
        v = v + 1;
    }
    proof {
        assert forall|r: int| 0 <= r < visibility@.len() && visibility@[r] implies #[trigger] crate::konata::bits::count_true(
            visibility@,
            r,
        ) < count by {
            crate::konata::bits::lemma_count_true_step(visibility@, r, visibility@.len() as int);
        }
    }
    values
}

/// The quality counters with the duplicate retire ids of `rows` counted.
pub open spec fn with_duplicates(q: KonataQualityCounters, rows: InstructionColumns) -> KonataQualityCounters {
    KonataQualityCounters {
        orphans: q.orphans,
        multiple_parents: q.multiple_parents,
        unnamed_stages: q.unnamed_stages,
        out_of_range: q.out_of_range,
        end_before_start: q.end_before_start,
        begin_regressions: q.begin_regressions,
        unknown_lanes: q.unknown_lanes,
        missing_rid: q.missing_rid,
        duplicate_rid: (q.duplicate_rid + crate::konata::duplicates::duplicate_increment(
            rows.tid@,
            rows.rid@,
            rows.flags@,
        )) as u64,
    }
}

/// The resolvable relations as edges with their input order, before sorting.
pub open spec fn resolved_edges(
    txs: Seq<u64>,
    stages: Seq<KonataStage>,
    offsets: Seq<u32>,
    row_count: int,
    strings: Seq<Seq<char>>,
    table: Seq<u32>,
    deps: Seq<ProjectedDependency>,
) -> Seq<(u64, KonataDependency)> {
    let ks = kept(txs, stages, offsets, row_count, deps);
    Seq::new(ks.len(), |i: int| (ks[i].input_order, edge_of(txs, stages, offsets, row_count, strings, table, ks[i])))
}

/// The inputs that `finish` accepts: every attached event names an existing row, and the
/// counts fit the row and edge numbering and the counters.
pub open spec fn finish_inputs_ok(records: KonataRecordProjector, projection: KonataRelationProjection) -> bool {
    let n = records.rows.begin.len();
    let events = records.pending_stages@;
    let parents = projection.event_parents@;
    &&& records.rows.wf()
    &&& n < crate::konata::visibility::max_rows()
    &&& parents.len() == events.len()
    &&& events.len() <= u32::MAX
    &&& projection.dependencies.len() <= u32::MAX
    &&& forall|i: int|
        0 <= i < parents.len() && crate::konata::stage_assign::attached(#[trigger] parents[i]) ==> (parents[i].first_row as int) < n
    &&& crate::konata::stage_assign::counters_have_room(records.quality, events.len() as int)
    &&& records.quality.duplicate_rid + n <= u64::MAX
    &&& records.strings.wf()
    &&& records.thread_keys.wf()
    &&& records.strings@.len() + projection.dependencies.len() < u32::MAX
    &&& records.annotations_ok()
}

/// `model` is what `finish` builds from `records` and `projection`: the rows with
/// duplicate retire ids flagged, the quality counters, the stages assigned to their rows,
/// the string table with the relation names interned, the name tables, and the edges
/// resolved and sorted.
pub open spec fn built_from(model: KonataModel, records: KonataRecordProjector, projection: KonataRelationProjection) -> bool {
    let kept_edges = kept(
        model.rows.tx_id@,
        model.stages@,
        model.stage_offsets@,
        model.rows.begin.len() as int,
        projection.dependencies@,
    );
    &&& model.rows.begin == records.rows.begin
    &&& model.rows.end == records.rows.end
    &&& model.rows.tx_id == records.rows.tx_id
    &&& model.rows.sid == records.rows.sid
    &&& model.rows.rid == records.rows.rid
    &&& model.rows.tid == records.rows.tid
    &&& model.rows.flushed == records.rows.flushed
    &&& model.rows.label == records.rows.label
    &&& model.rows.detail == records.rows.detail
    &&& forall|r: int|
        0 <= r < records.rows.flags.len() ==> #[trigger] model.rows.flags@[r]
            == crate::konata::duplicates::marked_flags(records.rows.tid@, records.rows.rid@, records.rows.flags@, r)
    &&& model.quality == crate::konata::stage_assign::counted(
        with_duplicates(records.quality, records.rows),
        model.rows,
        records.pending_stages@,
        projection.event_parents@,
        records.pending_stages.len() as int,
    )
    &&& exists|src: Seq<int>|
        crate::konata::stage_assign::stages_assigned(
            model.rows,
            records.pending_stages@,
            projection.event_parents@,
            model.stages@,
            model.stage_offsets@,
            src,
        ) && crate::konata::annotations::annotations_gathered(
            model.stages@,
            src,
            records.pending_stages@,
            records.pending_annotations@,
            model.stage_annotations@,
        )
    &&& model.row_annotations@ == records.instruction_annotations@
    &&& model.row_annotation_offsets@ == records.instruction_annotation_offsets@
    &&& crate::konata::texts::texts_of(model.strings@) == intern_all(records.strings@, relation_texts(kept_edges))
    &&& model.stage_names@ == records.stage_names@
    &&& model.thread_names@ == records.thread_keys.name_ids()
    &&& model.lane_names@ == records.lane_keys.name_ids()
    &&& model.dependency_names@ == first_names(
        relation_names(kept_edges, crate::konata::texts::texts_of(model.strings@)),
    )
    &&& exists|perm: Seq<int>|
        sorts_edges(
            resolved_edges(
                model.rows.tx_id@,
                model.stages@,
                model.stage_offsets@,
                model.rows.begin.len() as int,
                crate::konata::texts::texts_of(model.strings@),
                model.dependency_names@,
                projection.dependencies@,
            ),
            perm,
            model.dependencies@,
        )
}

/// The model has one stage per stage event that found its instruction: the stages and
/// the orphaned events counted by `finish` together are the pending stage events.
pub proof fn lemma_finish_stage_count(model: KonataModel, records: KonataRecordProjector, projection: KonataRelationProjection)
    requires
        built_from(model, records, projection),
        projection.event_parents@.len() == records.pending_stages@.len(),
        records.quality.orphans + records.pending_stages@.len() <= u64::MAX,
    ensures
        model.stages@.len() + (model.quality.orphans - records.quality.orphans) == records.pending_stages@.len(),
{
    let src = choose|src: Seq<int>|
        crate::konata::stage_assign::stages_assigned(
            model.rows,
            records.pending_stages@,
            projection.event_parents@,
            model.stages@,
            model.stage_offsets@,
            src,
        ) && crate::konata::annotations::annotations_gathered(
            model.stages@,
            src,
            records.pending_stages@,
            records.pending_annotations@,
            model.stage_annotations@,
        );
    crate::konata::stage_assign::lemma_stage_count(
        model.rows,
        records.pending_stages@,
        projection.event_parents@,
        model.stages@,
        model.stage_offsets@,
        src,
    );
    crate::konata::stage_assign::lemma_check_count_bound(
        crate::konata::stage_assign::EventCheck::Orphan,
        model.rows,
        records.pending_stages@,
        projection.event_parents@,
        records.pending_stages@.len() as int,
    );
}

impl KonataRecordProjector {
    /// Builds the model: flags duplicate retire ids, attaches each stage event to its first
    /// parent row, resolves the relations to dependency edges (ordered by larger row,
    /// smaller row and input order) and builds the lookup indexes.
    pub fn finish(self, projection: KonataRelationProjection) -> (model: KonataModel)
        requires
            finish_inputs_ok(self, projection),
        ensures
            model.wf(),
            built_from(model, self, projection),
    {
        let KonataRecordProjector {
            mut rows,
            mut quality,
            pending_stages,
            mut strings,
            stage_names,
            thread_keys,
            lane_keys,
            instruction_annotations,
            instruction_annotation_offsets,
            pending_annotations,
            ..
        } = self;
        proof {
            thread_keys.lemma_len();
        }
        let thread_names = thread_keys.into_names();
        let lane_names = lane_keys.into_names();
        let KonataRelationProjection { event_parents, dependencies: relations } = projection;
        let ghost rows0 = rows;
        let ghost q0 = quality;
        mark_duplicate_rids(&mut rows, &mut quality);
        let ghost q1 = quality;
        proof {
            assert(q1 == with_duplicates(q0, rows0));
        }
        let (mut stages, stage_offsets, Ghost(src), order) = assign_stages(
            &rows,
            &pending_stages,
            &event_parents,
            &mut quality,
        );
        let ghost assigned = stages@;
        proof {
            assert forall|k: int| 0 <= k < order@.len() implies (#[trigger] order@[k] as int) < pending_stages@.len() by {
                assert(order@[k] as int == src[k]);
            }
            assert forall|k1: int, k2: int| 0 <= k1 < k2 < order@.len() implies #[trigger] order@[k1] != #[trigger] order@[k2] by {
                assert(order@[k1] as int == src[k1]);
                assert(order@[k2] as int == src[k2]);
            }
        }
        let stage_annotations = crate::konata::annotations::gather_stage_annotations(
            &mut stages,
            &order,
            &pending_stages,
            &pending_annotations,
        );
        proof {
            assert(order@.map_values(|i: u32| i as int) =~= src);
            crate::konata::stage_assign::lemma_assigned_unannotated(
                rows,
                pending_stages@,
                event_parents@,
                assigned,
                stages@,
                stage_offsets@,
                src,
            );
            assert forall|k: int| 0 <= k < stages@.len() implies (#[trigger] stages@[k]).annotation_start
                <= stages@[k].annotation_end <= stage_annotations@.len() by {
                assert(0 <= src[k] < pending_stages@.len());
                assert(pending_stages@[src[k]].annotation_start <= pending_stages@[src[k]].annotation_end);
                assert forall|j: int| 0 <= j < stages@.len() implies 0 <= #[trigger] src[j] < pending_stages@.len() by {}
                crate::konata::annotations::lemma_gathered_monotone(pending_stages@, src, k + 1, stages@.len() as int);
            }
        }
        let n = rows.len();
        let tx_map = build_tx_map(&rows.tx_id);
        let endpoints = build_event_endpoints(&stages, &stage_offsets, n);
        let ghost txs = rows.tx_id@;
        let ghost st = stages@;
        let ghost offs = stage_offsets@;
        let (resolved, dependency_names) = resolve_dependencies(
            &relations,
            &tx_map,
            &endpoints,
            &mut strings,
            Ghost(txs),
            Ghost(st),
            Ghost(offs),
            Ghost(n as int),
        );
        proof {
            lemma_kept_len(txs, st, offs, n as int, relations@);
        }
        let dependencies = sort_dependencies(&resolved);
        let ghost table = strings@;
        let ghost resolved_spec = resolved_edges(txs, st, offs, n as int, table, dependency_names@, relations@);
        proof {
            assert(resolved@ =~= resolved_spec);
            let perm = choose|perm: Seq<int>| sorts_edges(resolved@, perm, dependencies@);
            assert forall|e: int| 0 <= e < dependencies.len() implies (#[trigger] dependencies@[e]).producer_row < n
                && dependencies@[e].consumer_row < n by {
                let d = kept(txs, st, offs, n as int, relations@)[perm[e]];
                assert(resolvable(txs, st, offs, n as int, d));
                lemma_endpoint_in_range(txs, st, offs, n as int, d.source_tx);
                lemma_endpoint_in_range(txs, st, offs, n as int, d.sink_tx);
            }
            assert forall|i: int, j: int| 0 <= i <= j < dependencies@.len() implies crate::konata::model::edge_max_row(
                #[trigger] dependencies@[i],
            ) <= crate::konata::model::edge_max_row(#[trigger] dependencies@[j]) by {
                if i < j {
                    assert(edge_key_lt(edge_key(resolved@[perm[i]], perm[i]), edge_key(resolved@[perm[j]], perm[j])));
                }
            }
        }
        let (producer_offsets, producer_edges) = dependency_csr(n, &dependencies, true);
        let (consumer_offsets, consumer_edges) = dependency_csr(n, &dependencies, false);
        let tx_to_row = build_row_index(&rows.tx_id, false);
        let event_to_row = build_event_index(&stages, &stage_offsets, n);
        let sid_to_row = build_row_index(&rows.sid, true);
        let rid_to_row = build_row_index(&rows.rid, true);
        let thread_rid_to_row = build_thread_rid_index(&rows.tid, &rows.rid);
        let time_to_row = build_row_index(&rows.begin, false);
        let visibility = VisibilityIndex::from_flush_states(rows.flushed.as_slice());
        let all_values = row_values(&rows);
        let all_ranges = BlockRangeIndex::build(all_values.as_slice());
        let visible_values = visible_row_values(&rows, &visibility);
        proof {
            crate::konata::bits::lemma_count_true_bounds(visibility@, visibility@.len() as int);
        }
        let visible_ranges = BlockRangeIndex::build(visible_values.as_slice());
        proof {
            crate::konata::bits::lemma_count_true_bounds(visibility@, visibility@.len() as int);
        }
        let flushed_count = n - visibility.visible_count();
        let strings = strings.into_values();
        let model = KonataModel {
            rows,
            stages,
            stage_offsets,
            strings,
            stage_names,
            thread_names,
            lane_names,
            dependency_names,
            dependencies,
            quality,
            visibility,
            flushed_count,
            all_values,
            visible_values,
            all_ranges,
            visible_ranges,
            tx_to_row,
            event_to_row,
            sid_to_row,
            rid_to_row,
            thread_rid_to_row,
            time_to_row,
            producer_offsets,
            producer_edges,
            consumer_offsets,
            consumer_edges,
            stage_annotations,
            row_annotations: instruction_annotations,
            row_annotation_offsets: instruction_annotation_offsets,
        };
        proof {
            KonataModel::lemma_wf_intro(&model);
            let perm = choose|perm: Seq<int>| sorts_edges(resolved@, perm, model.dependencies@);
            assert(sorts_edges(
                resolved_edges(
                    model.rows.tx_id@,
                    model.stages@,
                    model.stage_offsets@,
                    model.rows.begin.len() as int,
                    crate::konata::texts::texts_of(model.strings@),
                    model.dependency_names@,
                    relations@,
                ),
                perm,
                model.dependencies@,
            ));
            assert(crate::konata::stage_assign::stages_assigned(
                model.rows,
                pending_stages@,
                event_parents@,
                model.stages@,
                model.stage_offsets@,
                src,
            ));
            assert(crate::konata::annotations::annotations_gathered(
                model.stages@,
                src,
                pending_stages@,
                pending_annotations@,
                model.stage_annotations@,
            ));
        }
        model
    }
}

} // verus!
