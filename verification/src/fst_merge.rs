//! The body of an FST export: the value changes of the exported signals merged in time
//! order, each new time written once before its changes, and a last time change that
//! makes the export span the source's time table.
use vstd::prelude::*;
use crate::fst_export::scale_time;

verus! {

/// One write into an FST body: a change of the current time, or the `change`-th value
/// change of signal `signal`.
#[derive(Debug, Clone, Copy, PartialEq, Eq, Structural)]
pub enum FstWriteEvent {
    TimeChange(u64),
    ValueChange { signal: usize, change: usize },
}

/// How many of the first `m` merged changes belong to signal `j`.
pub open spec fn taken(order: Seq<(usize, usize)>, m: int, j: int) -> nat
    decreases m,
{
    if m <= 0 {
        0
    } else {
        taken(order, m - 1, j) + if order[m - 1].0 == j {
            1nat
        } else {
            0nat
        }
    }
}

/// Signal `j` still has changes after the first `m` merged ones.
pub open spec fn active(times: Seq<Vec<u32>>, order: Seq<(usize, usize)>, m: int, j: int) -> bool {
    0 <= j < times.len() && taken(order, m, j) < times[j]@.len()
}

/// The time index of the next change of signal `j` after the first `m` merged ones.
pub open spec fn head_time(times: Seq<Vec<u32>>, order: Seq<(usize, usize)>, m: int, j: int) -> u32 {
    times[j]@[taken(order, m, j) as int]
}

/// Signal `i`'s next change comes first: the earliest time, the lowest signal on a tie.
pub open spec fn head_first(times: Seq<Vec<u32>>, order: Seq<(usize, usize)>, m: int, i: int) -> bool {
    &&& active(times, order, m, i)
    &&& forall|j: int|
        #[trigger] active(times, order, m, j) ==> head_time(times, order, m, i) < head_time(times, order, m, j) || (
        head_time(times, order, m, i) == head_time(times, order, m, j) && i <= j)
}

/// `order` lists every change of every signal as (signal, change), each signal's changes
/// in their own order, always taking next the change that comes first.
pub open spec fn merged(times: Seq<Vec<u32>>, order: Seq<(usize, usize)>) -> bool {
    &&& forall|m: int|
        0 <= m < order.len() ==> #[trigger] head_first(times, order, m, order[m].0 as int) && order[m].1 == taken(
            order,
            m,
            order[m].0 as int,
        )
    &&& forall|j: int| 0 <= j < times.len() ==> !#[trigger] active(times, order, order.len() as int, j)
}

/// The time index of the `q`-th merged change.
pub open spec fn merged_time(times: Seq<Vec<u32>>, order: Seq<(usize, usize)>, q: int) -> u32 {
    times[order[q].0 as int]@[order[q].1 as int]
}

/// The time stamp of a time index, rescaled; an index past the table reads as zero.
pub open spec fn stamp(time_table: Seq<u64>, idx: u32, divisor: u128) -> u64 {
    ((if (idx as int) < time_table.len() {
        time_table[idx as int]
    } else {
        0u64
    }) as nat / divisor as nat) as u64
}

/// The writes of the first `m` merged changes: a time change before a change whose time
/// differs from the previous change's, then the change.
pub open spec fn writes_upto(
    times: Seq<Vec<u32>>,
    order: Seq<(usize, usize)>,
    time_table: Seq<u64>,
    divisor: u128,
    m: int,
) -> Seq<FstWriteEvent>
    decreases m,
{
    if m <= 0 {
        Seq::empty()
    } else {
        let t = merged_time(times, order, m - 1);
        let before = writes_upto(times, order, time_table, divisor, m - 1);
        let timed = if m == 1 || merged_time(times, order, m - 2) != t {
            before.push(FstWriteEvent::TimeChange(stamp(time_table, t, divisor)))
        } else {
            before
        };
        timed.push(FstWriteEvent::ValueChange { signal: order[m - 1].0, change: order[m - 1].1 })
    }
}

/// All writes of the body: the merged changes, and, when the time table is not empty and
/// the last change is not at its last entry, a time change to `end_time`.
pub open spec fn body_writes(
    times: Seq<Vec<u32>>,
    order: Seq<(usize, usize)>,
    time_table: Seq<u64>,
    divisor: u128,
    end_time: u64,
) -> Seq<FstWriteEvent> {
    let writes = writes_upto(times, order, time_table, divisor, order.len() as int);
    let ends_at_last = order.len() > 0 && merged_time(times, order, order.len() - 1) as int == time_table.len() - 1;
    if time_table.len() > 0 && !ends_at_last {
        writes.push(FstWriteEvent::TimeChange(end_time))
    } else {
        writes
    }
}

/// Changes still to merge among signals `0 .. n`.
pub open spec fn remaining(times: Seq<Vec<u32>>, order: Seq<(usize, usize)>, m: int, n: int) -> int
    decreases n,
{
    if n <= 0 {
        0
    } else {
        remaining(times, order, m, n - 1) + (times[n - 1]@.len() - taken(order, m, n - 1))
    }
}

proof fn lemma_taken_prefix(order: Seq<(usize, usize)>, x: (usize, usize), m: int, j: int)
    requires
        m <= order.len(),
    ensures
        taken(order.push(x), m, j) == taken(order, m, j),
    decreases m,
{
    if m > 0 {
        lemma_taken_prefix(order, x, m - 1, j);
    }
}

proof fn lemma_writes_prefix(
    times: Seq<Vec<u32>>,
    order: Seq<(usize, usize)>,
    x: (usize, usize),
    time_table: Seq<u64>,
    divisor: u128,
    m: int,
)
    requires
        m <= order.len(),
    ensures
        writes_upto(times, order.push(x), time_table, divisor, m) == writes_upto(times, order, time_table, divisor, m),
    decreases m,
{
    if m > 0 {
        lemma_writes_prefix(times, order, x, time_table, divisor, m - 1);
    }
}

proof fn lemma_remaining_step(times: Seq<Vec<u32>>, order: Seq<(usize, usize)>, x: (usize, usize), n: int)
    ensures
        remaining(times, order.push(x), (order.len() + 1) as int, n) == remaining(times, order, order.len() as int, n) - (
        if 0 <= x.0 < n {
            1int
        } else {
            0int
        }),
    decreases n,
{
    if n > 0 {
        lemma_remaining_step(times, order, x, n - 1);
        lemma_taken_prefix(order, x, order.len() as int, n - 1);
    }
}

proof fn lemma_remaining_nonneg(times: Seq<Vec<u32>>, order: Seq<(usize, usize)>, m: int, n: int)
    requires
        n <= times.len(),
        forall|j: int| 0 <= j < n ==> taken(order, m, j) <= times[j]@.len(),
    ensures
        remaining(times, order, m, n) >= 0,
    decreases n,
{
    if n > 0 {
        lemma_remaining_nonneg(times, order, m, n - 1);
    }
}

/// The time stamp of a time index, as the body writes it.
fn stamp_of(time_table: &Vec<u64>, idx: u32, divisor: u128) -> (scaled: u64)
    requires
        divisor != 0,
    ensures
        scaled == stamp(time_table@, idx, divisor),
{
    let t = if (idx as usize) < time_table.len() {
        time_table[idx as usize]
    } else {
        0
    };
    scale_time(t, divisor)
}

/// The signal whose next change comes first, if any signal has changes left.
fn first_head(times: &Vec<Vec<u32>>, pos: &Vec<usize>, Ghost(order): Ghost<Seq<(usize, usize)>>) -> (best: Option<usize>)
    requires
        pos@.len() == times@.len(),
        forall|j: int| 0 <= j < times@.len() ==> #[trigger] pos@[j] == taken(order, order.len() as int, j),
    ensures
        best matches Some(i) ==> head_first(times@, order, order.len() as int, i as int),
        best is None ==> forall|j: int| 0 <= j < times@.len() ==> !#[trigger] active(times@, order, order.len() as int, j),
{
    let ghost m = order.len() as int;
    let mut best: Option<usize> = None;
    let mut j: usize = 0;
    while j < times.len()
        invariant
            j <= times@.len(),
            pos@.len() == times@.len(),
            forall|q: int| 0 <= q < times@.len() ==> #[trigger] pos@[q] == taken(order, m, q),
            best matches Some(b) ==> b < j && active(times@, order, m, b as int) && forall|q: int|
                0 <= q < j && #[trigger] active(times@, order, m, q) ==> head_time(times@, order, m, b as int)
                    < head_time(times@, order, m, q) || (head_time(times@, order, m, b as int) == head_time(
                    times@,
                    order,
                    m,
                    q,
                ) && b <= q),
            best is None ==> forall|q: int| 0 <= q < j ==> !#[trigger] active(times@, order, m, q),
        decreases times@.len() - j,
    {
        if pos[j] < times[j].len() {
            let t = times[j][pos[j]];
            match best {
                None => {
                    best = Some(j);
                },
                Some(b) => {
                    if t < times[b][pos[b]] {
                        best = Some(j);
                    }
                },
            }
        }
        j = j + 1;
    }
    best
}

/// Merges the value changes of the signals, given as the time indices of each signal's
/// changes, into the writes of an FST body: each new time index is written once, as its
/// time-table stamp divided by `divisor`, before the changes at it; changes at one time
/// come in signal order, and each signal's changes in their own order. When the time
/// table is not empty and the last change is not at its last entry, the body ends with a
/// time change to `end_time`.
pub fn merge_value_changes(times: &Vec<Vec<u32>>, time_table: &Vec<u64>, divisor: u128, end_time: u64) -> (writes: Vec<
    FstWriteEvent,
>)
    requires
        divisor != 0,
        time_table@.len() <= u32::MAX as int + 1,
    ensures
        exists|order: Seq<(usize, usize)>|
            #[trigger] merged(times@, order) && writes@ == body_writes(times@, order, time_table@, divisor, end_time),
{
    let n = times.len();
    let mut pos: Vec<usize> = Vec::new();
    let mut z: usize = 0;
    while z < n
        invariant
            z <= n,
            n == times@.len(),
            pos@.len() == z,
            forall|q: int| 0 <= q < z ==> pos@[q] == 0,
        decreases n - z,
    {
        pos.push(0);
        z = z + 1;
    }
    let ghost mut order: Seq<(usize, usize)> = Seq::empty();
    let mut writes: Vec<FstWriteEvent> = Vec::new();
    let mut last: Option<u32> = None;
    loop
        invariant
            n == times@.len(),
            divisor != 0,
            pos@.len() == n,
            forall|j: int| 0 <= j < n ==> #[trigger] pos@[j] == taken(order, order.len() as int, j),
            forall|j: int| 0 <= j < n ==> taken(order, order.len() as int, j) <= times@[j]@.len(),
            forall|m: int|
                0 <= m < order.len() ==> #[trigger] head_first(times@, order, m, order[m].0 as int) && order[m].1
                    == taken(order, m, order[m].0 as int),
            last == (if order.len() == 0 {
                None::<u32>
            } else {
                Some(merged_time(times@, order, order.len() - 1))
            }),
            writes@ == writes_upto(times@, order, time_table@, divisor, order.len() as int),
        ensures
            forall|j: int| 0 <= j < n ==> !#[trigger] active(times@, order, order.len() as int, j),
            forall|m: int|
                0 <= m < order.len() ==> #[trigger] head_first(times@, order, m, order[m].0 as int) && order[m].1
                    == taken(order, m, order[m].0 as int),
            last == (if order.len() == 0 {
                None::<u32>
            } else {
                Some(merged_time(times@, order, order.len() - 1))
            }),
            writes@ == writes_upto(times@, order, time_table@, divisor, order.len() as int),
        decreases remaining(times@, order, order.len() as int, n as int),
    {
        proof {
            lemma_remaining_nonneg(times@, order, order.len() as int, n as int);
        }
        let best = first_head(times, &pos, Ghost(order));
        let i = match best {
            None => break,
            Some(i) => i,
        };
        let ghost m = order.len() as int;
        proof {
            assert(pos@[i as int] == taken(order, m, i as int));
            assert(active(times@, order, m, i as int));
        }
        let k = pos[i];
        let len_i = times[i].len();
        assert(k < len_i);
        let t = times[i][k];
        let ghost next = order.push((i, k));
        proof {
            lemma_writes_prefix(times@, order, (i, k), time_table@, divisor, m);
            lemma_remaining_step(times@, order, (i, k), n as int);
            assert(merged_time(times@, next, m) == t);
            if m > 0 {
                assert(merged_time(times@, next, m - 1) == merged_time(times@, order, m - 1));
            }
        }
        if last != Some(t) {
            let s = stamp_of(time_table, t, divisor);
            writes.push(FstWriteEvent::TimeChange(s));
            last = Some(t);
        }
        writes.push(FstWriteEvent::ValueChange { signal: i, change: k });
        pos.set(i, k + 1);
        proof {
            assert forall|j: int| 0 <= j < n implies #[trigger] pos@[j] == taken(next, m + 1, j) && taken(
                next,
                m + 1,
                j,
            ) <= times@[j]@.len() by {
                lemma_taken_prefix(order, (i, k), m, j);
                assert(pos@[j] == taken(order, m, j) + if j == i { 1int } else { 0int });
            }
            assert forall|mm: int|
                0 <= mm < next.len() implies #[trigger] head_first(times@, next, mm, next[mm].0 as int) && next[mm].1
                == taken(next, mm, next[mm].0 as int) by {
                assert forall|j: int| true implies taken(next, mm, j) == taken(order, mm, j) by {
                    if mm <= m {
                        lemma_taken_prefix(order, (i, k), mm, j);
                    }
                }
                if mm < m {
                    assert(head_first(times@, order, mm, order[mm].0 as int));
                    assert forall|j: int| #[trigger] active(times@, next, mm, j) == active(times@, order, mm, j) by {
                        lemma_taken_prefix(order, (i, k), mm, j);
                    }
                } else {
                    assert forall|j: int| #[trigger] active(times@, next, mm, j) == active(times@, order, mm, j) by {
                        lemma_taken_prefix(order, (i, k), mm, j);
                    }
                }
            }
            assert forall|j: int| 0 <= j < n implies #[trigger] taken(next, m + 1, j) <= times@[j]@.len() by {
                assert(pos@[j] == taken(next, m + 1, j));
            }
            assert(writes@ =~= writes_upto(times@, next, time_table@, divisor, m + 1));
            assert(remaining(times@, next, m + 1, n as int) == remaining(times@, order, m, n as int) - 1);
            lemma_remaining_nonneg(times@, next, m + 1, n as int);
            order = next;
        }
    }
    if time_table.len() > 0 && last != Some((time_table.len() - 1) as u32) {
        writes.push(FstWriteEvent::TimeChange(end_time));
    }
    proof {
        assert(forall|j: int| 0 <= j < times@.len() ==> !#[trigger] active(times@, order, order.len() as int, j));
        assert(forall|mm: int|
            0 <= mm < order.len() ==> #[trigger] head_first(times@, order, mm, order[mm].0 as int) && order[mm].1
                == taken(order, mm, order[mm].0 as int));
        assert(merged(times@, order));
        assert(writes@ =~= body_writes(times@, order, time_table@, divisor, end_time));
    }
    writes
}

} // verus!
