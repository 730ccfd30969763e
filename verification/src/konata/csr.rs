//! Compressed per-row adjacency (offsets + edge list) of the dependency edges, by producer
//! row or by consumer row.
use vstd::prelude::*;
use crate::konata::columns::KonataDependency;

verus! {

/// The row an edge is filed under: its producer or its consumer.
pub open spec fn edge_row(d: KonataDependency, by_producer: bool) -> int {
    if by_producer {
        d.producer_row as int
    } else {
        d.consumer_row as int
    }
}

/// Number of the first `n` edges filed under `row`.
pub open spec fn count_row(deps: Seq<KonataDependency>, by_producer: bool, row: int, n: int) -> nat
    decreases n,
{
    if n <= 0 {
        0
    } else {
        count_row(deps, by_producer, row, n - 1) + if edge_row(deps[n - 1], by_producer) == row {
            1nat
        } else {
            0nat
        }
    }
}

/// Number of the first `n` edges filed under a row below `row`.
pub open spec fn count_below(deps: Seq<KonataDependency>, by_producer: bool, row: int, n: int) -> nat
    decreases n,
{
    if n <= 0 {
        0
    } else {
        count_below(deps, by_producer, row, n - 1) + if edge_row(deps[n - 1], by_producer) < row {
            1nat
        } else {
            0nat
        }
    }
}

#[verifier::opaque]
/// `offsets`/`edges` list, for every row `r`, the indices of the edges filed under `r` in
/// ascending order at `edges[offsets[r] .. offsets[r + 1]]`.
pub open spec fn csr_of(
    offsets: Seq<u32>,
    edges: Seq<u32>,
    deps: Seq<KonataDependency>,
    by_producer: bool,
    row_count: int,
) -> bool {
    &&& offsets.len() == row_count + 1
    &&& edges.len() == deps.len()
    &&& offsets[0] == 0
    &&& offsets[row_count] == deps.len()
    &&& forall|r: int| 0 <= r < row_count ==> #[trigger] offsets[r] <= offsets[r + 1]
    &&& forall|r: int|
        0 <= r < row_count ==> offsets[r + 1] - offsets[r] == #[trigger] count_row(
            deps,
            by_producer,
            r,
            deps.len() as int,
        )
    &&& forall|r: int, p: int|
        0 <= r < row_count && offsets[r] <= p < offsets[r + 1] ==> {
            &&& (#[trigger] edges[p] as int) < deps.len()
            &&& edge_row(deps[edges[p] as int], by_producer) == r
            &&& (#[trigger] offsets[r] <= p && p + 1 < offsets[r + 1] ==> edges[p] < edges[p + 1])
        }
    &&& forall|e: int|
        #![trigger deps[e]]
        0 <= e < deps.len() ==> exists|p: int|
            offsets[edge_row(deps[e], by_producer)] <= p < offsets[edge_row(deps[e], by_producer) + 1]
                && #[trigger] edges[p] == e
}

proof fn lemma_count_row_bound(deps: Seq<KonataDependency>, by_producer: bool, row: int, n: int)
    ensures
        n >= 0 ==> count_row(deps, by_producer, row, n) <= n,
    decreases n,
{
    if n > 0 {
        lemma_count_row_bound(deps, by_producer, row, n - 1);
    }
}

proof fn lemma_count_row_monotone(deps: Seq<KonataDependency>, by_producer: bool, row: int, a: int, b: int)
    requires
        a <= b,
    ensures
        count_row(deps, by_producer, row, a) <= count_row(deps, by_producer, row, b),
    decreases b - a,
{
    if a < b {
        lemma_count_row_monotone(deps, by_producer, row, a, b - 1);
    }
}

proof fn lemma_count_below_step(deps: Seq<KonataDependency>, by_producer: bool, row: int, n: int)
    ensures
        count_below(deps, by_producer, row + 1, n) == count_below(deps, by_producer, row, n)
            + count_row(deps, by_producer, row, n),
    decreases n,
{
    if n > 0 {
        lemma_count_below_step(deps, by_producer, row, n - 1);
    }
}

proof fn lemma_count_below_bound(deps: Seq<KonataDependency>, by_producer: bool, row: int, n: int)
    ensures
        n >= 0 ==> count_below(deps, by_producer, row, n) <= n,
    decreases n,
{
    if n > 0 {
        lemma_count_below_bound(deps, by_producer, row, n - 1);
    }
}

proof fn lemma_count_below_all(deps: Seq<KonataDependency>, by_producer: bool, row_count: int, n: int)
    requires
        0 <= n <= deps.len(),
        forall|e: int| 0 <= e < deps.len() ==> edge_row(#[trigger] deps[e], by_producer) < row_count,
    ensures
        count_below(deps, by_producer, row_count, n) == n,
    decreases n,
{
    if n > 0 {
        lemma_count_below_all(deps, by_producer, row_count, n - 1);
    }
}

proof fn lemma_count_below_zero(deps: Seq<KonataDependency>, by_producer: bool, n: int)
    ensures
        count_below(deps, by_producer, 0, n) == 0,
    decreases n,
{
    if n > 0 {
        lemma_count_below_zero(deps, by_producer, n - 1);
    }
}

/// Counts the edges of every row (entry `r + 1` counts row `r`).
fn count_edges(row_count: usize, dependencies: &Vec<KonataDependency>, by_producer: bool) -> (offsets: Vec<u32>)
    requires
        row_count < usize::MAX,
        dependencies.len() <= u32::MAX,
        forall|e: int|
            0 <= e < dependencies.len() ==> edge_row(#[trigger] dependencies@[e], by_producer)
                < row_count,
    ensures
        offsets.len() == row_count + 1,
        offsets@[0] == 0,
        forall|r: int| 0 <= r < row_count ==> #[trigger] offsets@[r + 1] == count_row(dependencies@, by_producer, r, dependencies.len() as int),
{
    let ghost deps = dependencies@;
    let n = dependencies.len();
    let mut offsets: Vec<u32> = Vec::with_capacity(row_count + 1);
    let mut i: usize = 0;
    while i <= row_count
        invariant
            i <= row_count + 1,
            row_count < usize::MAX,
            offsets.len() == i,
            forall|j: int| 0 <= j < i ==> offsets@[j] == 0,
        decreases row_count + 1 - i,
    {
        offsets.push(0);
        i = i + 1;
    }
    let mut e: usize = 0;
    while e < n
        invariant
            e <= n,
            n == dependencies.len(),
            n <= u32::MAX,
            deps == dependencies@,
            offsets.len() == row_count + 1,
            offsets@[0] == 0,
            forall|e2: int| 0 <= e2 < n ==> edge_row(#[trigger] deps[e2], by_producer) < row_count,
            forall|r: int| 0 <= r < row_count ==> #[trigger] offsets@[r + 1] == count_row(deps, by_producer, r, e as int),
        decreases n - e,
    {
        let d = &dependencies[e];
        let row = if by_producer { d.producer_row } else { d.consumer_row } as usize;
        proof {
            lemma_count_row_bound(deps, by_producer, row as int, e as int);
        }
        let current = offsets[row + 1];
        offsets.set(row + 1, current + 1);
        e = e + 1;
    }
    offsets
}

/// Turns per-row counts into start offsets.
fn prefix_sums(offsets: &mut Vec<u32>, row_count: usize, dependencies: &Vec<KonataDependency>, by_producer: bool)
    requires
        old(offsets).len() == row_count + 1,
        old(offsets)@[0] == 0,
        dependencies.len() <= u32::MAX,
        forall|e: int|
            0 <= e < dependencies.len() ==> edge_row(#[trigger] dependencies@[e], by_producer)
                < row_count,
        forall|r: int| 0 <= r < row_count ==> #[trigger] old(offsets)@[r + 1] == count_row(dependencies@, by_producer, r, dependencies.len() as int),
    ensures
        final(offsets).len() == row_count + 1,
        final(offsets)@[0] == 0,
        final(offsets)@[row_count as int] == dependencies.len(),
        forall|r: int| 0 <= r < row_count ==> #[trigger] final(offsets)@[r] <= final(offsets)@[r + 1],
        forall|r: int|
            0 <= r < row_count ==> final(offsets)@[r + 1] - final(offsets)@[r] == #[trigger] count_row(
                dependencies@,
                by_producer,
                r,
                dependencies.len() as int,
            ),
{
    let ghost deps = dependencies@;
    let n = dependencies.len();
    proof {
        lemma_count_below_zero(deps, by_producer, n as int);
    }
    let mut row: usize = 0;
    while row < row_count
        invariant
            row <= row_count,
            n == dependencies.len(),
            n <= u32::MAX,
            deps == dependencies@,
            offsets.len() == row_count + 1,
            offsets@[0] == 0,
            forall|r: int| 0 <= r <= row ==> #[trigger] offsets@[r] == count_below(deps, by_producer, r, n as int),
            forall|r: int| row <= r < row_count ==> #[trigger] offsets@[r + 1] == count_row(deps, by_producer, r, n as int),
        decreases row_count - row,
    {
        proof {
            lemma_count_below_step(deps, by_producer, row as int, n as int);
            lemma_count_below_bound(deps, by_producer, row as int + 1, n as int);
        }
        let sum = offsets[row + 1] + offsets[row];
        offsets.set(row + 1, sum);
        row = row + 1;
    }
    proof {
        lemma_count_below_all(deps, by_producer, row_count as int, n as int);
        assert forall|r: int| 0 <= r < row_count implies #[trigger] offsets@[r] <= offsets@[r + 1]
            && offsets@[r + 1] - offsets@[r] == count_row(deps, by_producer, r, n as int) by {
            lemma_count_below_step(deps, by_producer, r, n as int);
        }
    }
}

/// Places every edge index at the tail of its row's range.
fn place_edges(offsets: &Vec<u32>, row_count: usize, dependencies: &Vec<KonataDependency>, by_producer: bool) -> (edges: Vec<u32>)
    requires
        dependencies.len() <= u32::MAX,
        offsets.len() == row_count + 1,
        offsets@[0] == 0,
        offsets@[row_count as int] == dependencies.len(),
        forall|e: int|
            0 <= e < dependencies.len() ==> edge_row(#[trigger] dependencies@[e], by_producer)
                < row_count,
        forall|r: int| 0 <= r < row_count ==> #[trigger] offsets@[r] <= offsets@[r + 1],
        forall|r: int|
            0 <= r < row_count ==> offsets@[r + 1] - offsets@[r] == #[trigger] count_row(
                dependencies@,
                by_producer,
                r,
                dependencies.len() as int,
            ),
    ensures
        csr_of(offsets@, edges@, dependencies@, by_producer, row_count as int),
{
    let ghost deps = dependencies@;
    let n = dependencies.len();
    proof {
        lemma_offsets_ordered(offsets@, row_count as int);
    }
    let mut edges: Vec<u32> = Vec::with_capacity(n);
    let mut k: usize = 0;
    while k < n
        invariant
            k <= n,
            edges.len() == k,
        decreases n - k,
    {
        edges.push(0);
        k = k + 1;
    }
    let mut tails: Vec<u32> = Vec::with_capacity(row_count);
    let mut r: usize = 0;
    while r < row_count
        invariant
            r <= row_count,
            offsets.len() == row_count + 1,
            tails.len() == r,
            forall|j: int| 0 <= j < r ==> tails@[j] == offsets@[j],
        decreases row_count - r,
    {
        tails.push(offsets[r]);
        r = r + 1;
    }
    let mut e: usize = 0;
    while e < n
        invariant
            e <= n,
            n == dependencies.len(),
            n <= u32::MAX,
            deps == dependencies@,
            offsets.len() == row_count + 1,
            edges.len() == n,
            tails.len() == row_count,
            offsets@[row_count as int] == n,
            forall|e2: int| 0 <= e2 < n ==> edge_row(#[trigger] deps[e2], by_producer) < row_count,
            forall|a: int, b: int| 0 <= a <= b <= row_count ==> offsets@[a] <= offsets@[b],
            forall|r2: int|
                0 <= r2 < row_count ==> offsets@[r2 + 1] - offsets@[r2] == #[trigger] count_row(
                    deps,
                    by_producer,
                    r2,
                    n as int,
                ),
            forall|r2: int|
                0 <= r2 < row_count ==> #[trigger] tails@[r2] == offsets@[r2] + count_row(
                    deps,
                    by_producer,
                    r2,
                    e as int,
                ),
            forall|r2: int| 0 <= r2 < row_count ==> #[trigger] tails@[r2] <= offsets@[r2 + 1],
            forall|r2: int, p: int|
                0 <= r2 < row_count && offsets@[r2] <= p < tails@[r2] ==> {
                    &&& (#[trigger] edges@[p] as int) < e
                    &&& edge_row(deps[edges@[p] as int], by_producer) == r2
                    &&& (#[trigger] offsets@[r2] <= p && p + 1 < tails@[r2] ==> edges@[p] < edges@[p + 1])
                },
            forall|e2: int|
                #![trigger deps[e2]]
                0 <= e2 < e ==> exists|p: int|
                    offsets@[edge_row(deps[e2], by_producer)] <= p < tails@[edge_row(deps[e2], by_producer)]
                        && #[trigger] edges@[p] == e2,
        decreases n - e,
    {
        let d = &dependencies[e];
        let row = if by_producer { d.producer_row } else { d.consumer_row } as usize;
        let ghost old_edges = edges@;
        let ghost old_tails = tails@;
        proof {
            lemma_count_row_monotone(deps, by_producer, row as int, e as int + 1, n as int);
        }
        let slot = tails[row];
        edges.set(slot as usize, e as u32);
        tails.set(row, slot + 1);
        proof {
            assert forall|r2: int| 0 <= r2 < row_count implies #[trigger] tails@[r2] == offsets@[r2]
                + count_row(deps, by_producer, r2, e as int + 1) by {
                if r2 != row {
                    assert(tails@[r2] == old_tails[r2]);
                }
            }
            assert forall|e2: int|
                #![trigger deps[e2]]
                0 <= e2 < e + 1 implies exists|p: int|
                    offsets@[edge_row(deps[e2], by_producer)] <= p < tails@[edge_row(deps[e2], by_producer)]
                        && #[trigger] edges@[p] == e2 by {
                if e2 == e {
                    assert(edges@[slot as int] == e2);
                } else {
                    let k = edge_row(deps[e2], by_producer);
                    let p = choose|p: int| offsets@[k] <= p < old_tails[k] && #[trigger] old_edges[p] == e2;
                    assert(old_edges[p] < e);
                    assert(p != slot) by {
                        if k != row {
                            if k < row {
                                assert(offsets@[k + 1] <= offsets@[row as int]);
                            } else {
                                assert(offsets@[row as int + 1] <= offsets@[k]);
                            }
                        }
                    }
                    assert(edges@[p] == e2);
                    if k != row {
                        assert(tails@[k] == old_tails[k]);
                    }
                }
            }
            assert forall|r2: int, p: int|
                0 <= r2 < row_count && offsets@[r2] <= p < tails@[r2] implies {
                &&& (#[trigger] edges@[p] as int) < e + 1
                &&& edge_row(deps[edges@[p] as int], by_producer) == r2
                &&& (#[trigger] offsets@[r2] <= p && p + 1 < tails@[r2] ==> edges@[p] < edges@[p + 1])
            } by {
                if r2 == row {
                    if p < slot {
                        assert(edges@[p] == old_edges[p]);
                        if p + 1 < slot {
                            assert(edges@[p + 1] == old_edges[p + 1]);
                        }
                    }
                } else {
                    assert(tails@[r2] == old_tails[r2]);
                    if r2 < row {
                        assert(offsets@[r2 + 1] <= offsets@[row as int]);
                    } else {
                        assert(offsets@[row as int + 1] <= offsets@[r2]);
                    }
                    assert(p != slot);
                    assert(edges@[p] == old_edges[p]);
                    if p + 1 < tails@[r2] {
                        assert(p + 1 != slot);
                        assert(edges@[p + 1] == old_edges[p + 1]);
                    }
                }
            }
        }
        e = e + 1;
    }
    proof {
        lemma_placed(offsets@, edges@, tails@, deps, by_producer, row_count as int);
    }
    edges
}

/// Once every edge is placed, each row's tail reached the next row's start.
proof fn lemma_placed(
    offsets: Seq<u32>,
    edges: Seq<u32>,
    tails: Seq<u32>,
    deps: Seq<KonataDependency>,
    by_producer: bool,
    row_count: int,
)
    requires
        deps.len() <= u32::MAX,
        offsets.len() == row_count + 1,
        edges.len() == deps.len(),
        tails.len() == row_count,
        offsets[0] == 0,
        offsets[row_count] == deps.len(),
        forall|e2: int| 0 <= e2 < deps.len() ==> edge_row(#[trigger] deps[e2], by_producer) < row_count,
        forall|r: int| 0 <= r < row_count ==> #[trigger] offsets[r] <= offsets[r + 1],
        forall|r2: int|
            0 <= r2 < row_count ==> offsets[r2 + 1] - offsets[r2] == #[trigger] count_row(
                deps,
                by_producer,
                r2,
                deps.len() as int,
            ),
        forall|r2: int|
            0 <= r2 < row_count ==> #[trigger] tails[r2] == offsets[r2] + count_row(
                deps,
                by_producer,
                r2,
                deps.len() as int,
            ),
        forall|r2: int, p: int|
            0 <= r2 < row_count && offsets[r2] <= p < tails[r2] ==> {
                &&& (#[trigger] edges[p] as int) < deps.len()
                &&& edge_row(deps[edges[p] as int], by_producer) == r2
                &&& (#[trigger] offsets[r2] <= p && p + 1 < tails[r2] ==> edges[p] < edges[p + 1])
            },
        forall|e2: int|
            #![trigger deps[e2]]
            0 <= e2 < deps.len() ==> exists|p: int|
                offsets[edge_row(deps[e2], by_producer)] <= p < tails[edge_row(deps[e2], by_producer)]
                    && #[trigger] edges[p] == e2,
    ensures
        csr_of(offsets, edges, deps, by_producer, row_count),
{
    reveal(csr_of);
    assert forall|r2: int, p: int|
        0 <= r2 < row_count && offsets[r2] <= p < offsets[r2 + 1] implies {
        &&& (#[trigger] edges[p] as int) < deps.len()
        &&& edge_row(deps[edges[p] as int], by_producer) == r2
        &&& (#[trigger] offsets[r2] <= p && p + 1 < offsets[r2 + 1] ==> edges[p] < edges[p + 1])
    } by {
        assert(tails[r2] == offsets[r2] + count_row(deps, by_producer, r2, deps.len() as int));
    }
    assert forall|e2: int| #![trigger deps[e2]] 0 <= e2 < deps.len() implies exists|p: int|
        offsets[edge_row(deps[e2], by_producer)] <= p < offsets[edge_row(deps[e2], by_producer) + 1]
            && #[trigger] edges[p] == e2 by {
        let k = edge_row(deps[e2], by_producer);
        assert(tails[k] == offsets[k] + count_row(deps, by_producer, k, deps.len() as int));
        let p = choose|p: int| offsets[k] <= p < tails[k] && #[trigger] edges[p] == e2;
    }
}

/// Builds the per-row edge lists of the edges filed by producer (or consumer) row.
pub fn dependency_csr(row_count: usize, dependencies: &Vec<KonataDependency>, by_producer: bool) -> (result: (
    Vec<u32>,
    Vec<u32>,
))
    requires
        row_count < usize::MAX,
        dependencies.len() <= u32::MAX,
        forall|e: int|
            0 <= e < dependencies.len() ==> edge_row(#[trigger] dependencies@[e], by_producer)
                < row_count,
    ensures
        csr_of(result.0@, result.1@, dependencies@, by_producer, row_count as int),
{
    let mut offsets = count_edges(row_count, dependencies, by_producer);
    prefix_sums(&mut offsets, row_count, dependencies, by_producer);
    let edges = place_edges(&offsets, row_count, dependencies, by_producer);
    (offsets, edges)
}

/// Offsets of well-formed edge lists: one per row plus one, nondecreasing, from 0 to the
/// number of edges.
pub proof fn lemma_csr_offsets(offsets: Seq<u32>, edges: Seq<u32>, deps: Seq<KonataDependency>, by_producer: bool, row_count: int)
    requires
        csr_of(offsets, edges, deps, by_producer, row_count),
    ensures
        offsets.len() == row_count + 1,
        edges.len() == deps.len(),
        offsets[0] == 0,
        offsets[row_count] == deps.len(),
        forall|a: int, b: int| 0 <= a <= b <= row_count ==> offsets[a] <= offsets[b],
        forall|r: int|
            0 <= r < row_count ==> offsets[r + 1] - offsets[r] == #[trigger] count_row(
                deps,
                by_producer,
                r,
                deps.len() as int,
            ),
{
    reveal(csr_of);
    lemma_offsets_ordered(offsets, row_count);
}

/// Every entry of row `r`'s range names an edge filed under `r`.
pub proof fn lemma_csr_entry(offsets: Seq<u32>, edges: Seq<u32>, deps: Seq<KonataDependency>, by_producer: bool, row_count: int, r: int, p: int)
    requires
        csr_of(offsets, edges, deps, by_producer, row_count),
        0 <= r < row_count,
        offsets[r] <= p < offsets[r + 1],
    ensures
        (edges[p] as int) < deps.len(),
        edge_row(deps[edges[p] as int], by_producer) == r,
        p + 1 < offsets[r + 1] ==> edges[p] < edges[p + 1],
{
    reveal(csr_of);
}

/// Every edge is listed in the range of the row it is filed under.
pub proof fn lemma_csr_complete(offsets: Seq<u32>, edges: Seq<u32>, deps: Seq<KonataDependency>, by_producer: bool, row_count: int, e: int)
    requires
        csr_of(offsets, edges, deps, by_producer, row_count),
        0 <= e < deps.len(),
    ensures
        exists|p: int|
            offsets[edge_row(deps[e], by_producer)] <= p < offsets[edge_row(deps[e], by_producer) + 1]
                && #[trigger] edges[p] == e,
{
    reveal(csr_of);
    let d = deps[e];
    assert(exists|p: int|
        offsets[edge_row(d, by_producer)] <= p < offsets[edge_row(d, by_producer) + 1]
            && #[trigger] edges[p] == e);
}

/// Nondecreasing neighbours make the whole offset list nondecreasing.
proof fn lemma_offsets_ordered(offsets: Seq<u32>, row_count: int)
    requires
        offsets.len() == row_count + 1,
        forall|r: int| 0 <= r < row_count ==> #[trigger] offsets[r] <= offsets[r + 1],
    ensures
        forall|a: int, b: int| 0 <= a <= b <= row_count ==> offsets[a] <= offsets[b],
{
    assert forall|a: int, b: int| 0 <= a <= b <= row_count implies offsets[a] <= offsets[b] by {
        lemma_offsets_ordered_from(offsets, row_count, a, b);
    }
}

proof fn lemma_offsets_ordered_from(offsets: Seq<u32>, row_count: int, a: int, b: int)
    requires
        offsets.len() == row_count + 1,
        forall|r: int| 0 <= r < row_count ==> #[trigger] offsets[r] <= offsets[r + 1],
        0 <= a <= b <= row_count,
    ensures
        offsets[a] <= offsets[b],
    decreases b - a,
{
    if a < b {
        lemma_offsets_ordered_from(offsets, row_count, a, b - 1);
        assert(offsets[b - 1] <= offsets[b]);
    }
}

/// The edges of `row`: empty when the row is past the offsets.
pub fn dependency_slice<'a>(offsets: &Vec<u32>, edges: &'a Vec<u32>, row: usize) -> (slice: &'a [u32])
    requires
        offsets.len() >= 1,
        offsets@[offsets.len() - 1] <= edges.len(),
        forall|r: int| 0 <= r < offsets.len() - 1 ==> #[trigger] offsets@[r] <= offsets@[r + 1],
    ensures
        row + 1 < offsets.len() ==> slice@ == edges@.subrange(
            offsets@[row as int] as int,
            offsets@[row + 1] as int,
        ),
        row + 1 >= offsets.len() ==> slice@.len() == 0,
{
    if row < offsets.len() - 1 {
        proof {
            lemma_offsets_ordered(offsets@, offsets.len() - 1);
        }
        let start = offsets[row] as usize;
        let end = offsets[row + 1] as usize;
        &edges.as_slice()[start..end]
    } else {
        &edges.as_slice()[0..0]
    }
}

} // verus!
