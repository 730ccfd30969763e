//! Detection of instruction rows that share a (thread, retire id) pair.
use vstd::prelude::*;
use std::collections::HashMap;
use crate::konata::columns::{InstructionColumns, MISSING_U64};
use crate::konata::flags::{KonataQualityCounters, RowFlags};
use crate::konata::thread_index::{pack_thread_rid, thread_rid_key, lemma_thread_rid_key_injective};

verus! {

/// Rows `a` and `b` carry the same retire id (present) on the same thread.
pub open spec fn same_rid(tids: Seq<u32>, rids: Seq<u64>, a: int, b: int) -> bool {
    rids[a] != MISSING_U64 && rids[a] == rids[b] && tids[a] == tids[b]
}

/// Some row before `r` has the same (thread, retire id).
pub open spec fn has_earlier(tids: Seq<u32>, rids: Seq<u64>, r: int) -> bool {
    exists|q: int| 0 <= q < r && #[trigger] same_rid(tids, rids, q, r)
}

/// Some row strictly between `r` and `upto` has the same (thread, retire id).
pub open spec fn has_later_before(tids: Seq<u32>, rids: Seq<u64>, r: int, upto: int) -> bool {
    exists|q: int| r < q < upto && #[trigger] same_rid(tids, rids, q, r)
}

/// Row `r` shares its (thread, retire id) with another row.
pub open spec fn is_duplicate(tids: Seq<u32>, rids: Seq<u64>, r: int) -> bool {
    has_earlier(tids, rids, r) || has_later_before(tids, rids, r, rids.len() as int)
}

/// The duplicate flag bit.
pub open spec fn dup_bit(f: RowFlags) -> bool {
    f.0 & RowFlags::DUPLICATE_RID != 0
}

/// Number of rows below `n` that repeat an earlier row's (thread, retire id).
pub open spec fn earlier_count(tids: Seq<u32>, rids: Seq<u64>, n: int) -> nat
    decreases n,
{
    if n <= 0 {
        0
    } else {
        earlier_count(tids, rids, n - 1) + if has_earlier(tids, rids, n - 1) {
            1nat
        } else {
            0nat
        }
    }
}

/// Row `q` is the first of a group that has a later member before `upto`, and was not
/// flagged as a duplicate beforehand.
pub open spec fn first_term(tids: Seq<u32>, rids: Seq<u64>, flags: Seq<RowFlags>, q: int, upto: int) -> bool {
    !has_earlier(tids, rids, q) && has_later_before(tids, rids, q, upto) && !dup_bit(flags[q])
}

/// Number of rows below `n` satisfying `first_term` for `upto`.
pub open spec fn first_count(tids: Seq<u32>, rids: Seq<u64>, flags: Seq<RowFlags>, upto: int, n: int) -> nat
    decreases n,
{
    if n <= 0 {
        0
    } else {
        first_count(tids, rids, flags, upto, n - 1) + if first_term(tids, rids, flags, n - 1, upto) {
            1nat
        } else {
            0nat
        }
    }
}

/// How much the duplicate counter grows: one for every row repeating an earlier row, and one
/// for the first row of every repeated group unless it was already flagged.
pub open spec fn duplicate_increment(tids: Seq<u32>, rids: Seq<u64>, flags: Seq<RowFlags>) -> nat {
    earlier_count(tids, rids, rids.len() as int) + first_count(
        tids,
        rids,
        flags,
        rids.len() as int,
        rids.len() as int,
    )
}

/// The flags of row `r` after marking: the duplicate bit added to duplicated rows.
pub open spec fn marked_flags(tids: Seq<u32>, rids: Seq<u64>, flags: Seq<RowFlags>, r: int) -> RowFlags {
    if is_duplicate(tids, rids, r) {
        RowFlags(flags[r].0 | RowFlags::DUPLICATE_RID)
    } else {
        flags[r]
    }
}

proof fn lemma_first_count_pointwise(
    tids: Seq<u32>,
    rids: Seq<u64>,
    flags: Seq<RowFlags>,
    upto: int,
    g: int,
    n: int,
)
    requires
        forall|q: int|
            0 <= q < n && q != g ==> first_term(tids, rids, flags, q, upto + 1) == first_term(
                tids,
                rids,
                flags,
                q,
                upto,
            ),
    ensures
        first_count(tids, rids, flags, upto + 1, n) + (if 0 <= g < n && first_term(tids, rids, flags, g, upto) {
            1int
        } else {
            0int
        }) == first_count(tids, rids, flags, upto, n) + (if 0 <= g < n && first_term(
            tids,
            rids,
            flags,
            g,
            upto + 1,
        ) {
            1int
        } else {
            0int
        }),
    decreases n,
{
    if n > 0 {
        lemma_first_count_pointwise(tids, rids, flags, upto, g, n - 1);
    }
}

/// Every row with a retire id has a first row of its group: an earlier or equal row with
/// the same key that has no earlier one.
proof fn lemma_exists_first(tids: Seq<u32>, rids: Seq<u64>, p: int)
    requires
        0 <= p < rids.len(),
        tids.len() == rids.len(),
        rids[p] != MISSING_U64,
    ensures
        exists|g: int|
            0 <= g <= p && (g == p || same_rid(tids, rids, g, p)) && !has_earlier(tids, rids, g),
    decreases p,
{
    if has_earlier(tids, rids, p) {
        let q = choose|q: int| 0 <= q < p && #[trigger] same_rid(tids, rids, q, p);
        lemma_exists_first(tids, rids, q);
        let g = choose|g: int|
            0 <= g <= q && (g == q || same_rid(tids, rids, g, q)) && !has_earlier(tids, rids, g);
        assert(same_rid(tids, rids, g, p));
    } else {
        assert(0 <= p <= p && !has_earlier(tids, rids, p));
    }
}

proof fn lemma_counts_bounded(tids: Seq<u32>, rids: Seq<u64>, flags: Seq<RowFlags>, upto: int, n: int)
    ensures
        n >= 0 ==> earlier_count(tids, rids, n) <= n,
        n >= 0 ==> first_count(tids, rids, flags, upto, n) <= n,
    decreases n,
{
    if n > 0 {
        lemma_counts_bounded(tids, rids, flags, upto, n - 1);
    }
}

/// No row is counted twice: a row that repeats an earlier one is never the first of its
/// group, so the two counts together are at most the number of rows.
proof fn lemma_counts_sum_bounded(tids: Seq<u32>, rids: Seq<u64>, flags: Seq<RowFlags>, upto: int, n: int)
    ensures
        n >= 0 ==> earlier_count(tids, rids, n) + first_count(tids, rids, flags, upto, n) <= n,
    decreases n,
{
    if n > 0 {
        lemma_counts_sum_bounded(tids, rids, flags, upto, n - 1);
    }
}

/// Flags every row that shares its (thread, retire id) with another row, and counts them.
pub fn mark_duplicate_rids(rows: &mut InstructionColumns, quality: &mut KonataQualityCounters)
    requires
        old(rows).wf(),
        old(quality).duplicate_rid + old(rows).rid.len() <= u64::MAX,
    ensures
        final(rows).wf(),
        final(rows).begin == old(rows).begin,
        final(rows).end == old(rows).end,
        final(rows).tx_id == old(rows).tx_id,
        final(rows).sid == old(rows).sid,
        final(rows).rid == old(rows).rid,
        final(rows).tid == old(rows).tid,
        final(rows).flushed == old(rows).flushed,
        final(rows).label == old(rows).label,
        final(rows).detail == old(rows).detail,
        final(rows).flags.len() == old(rows).flags.len(),
        forall|r: int|
            0 <= r < old(rows).flags.len() ==> #[trigger] final(rows).flags@[r] == marked_flags(
                old(rows).tid@,
                old(rows).rid@,
                old(rows).flags@,
                r,
            ),
        final(quality).duplicate_rid == old(quality).duplicate_rid + duplicate_increment(
            old(rows).tid@,
            old(rows).rid@,
            old(rows).flags@,
        ),
        final(quality).orphans == old(quality).orphans,
        final(quality).multiple_parents == old(quality).multiple_parents,
        final(quality).unnamed_stages == old(quality).unnamed_stages,
        final(quality).out_of_range == old(quality).out_of_range,
        final(quality).end_before_start == old(quality).end_before_start,
        final(quality).begin_regressions == old(quality).begin_regressions,
        final(quality).unknown_lanes == old(quality).unknown_lanes,
        final(quality).missing_rid == old(quality).missing_rid,
{
    broadcast use vstd::std_specs::hash::group_hash_axioms;

    let ghost tids = rows.tid@;
    let ghost rids = rows.rid@;
    let ghost init = rows.flags@;
    let ghost init_count = quality.duplicate_rid as int;
    let n = rows.rid.len();
    let mut first: HashMap<u128, usize> = HashMap::new();
    let mut row: usize = 0;
    while row < n
        invariant
            row <= n,
            n == rows.rid.len(),
            rows.wf(),
            rows.tid@ == tids,
            rows.rid@ == rids,
            rows.flags.len() == n,
            old(rows).wf(),
            old(rows).tid@ == tids,
            old(rows).rid@ == rids,
            old(rows).flags@ == init,
            init.len() == n,
            rows.begin == old(rows).begin,
            rows.end == old(rows).end,
            rows.tx_id == old(rows).tx_id,
            rows.sid == old(rows).sid,
            rows.rid == old(rows).rid,
            rows.tid == old(rows).tid,
            rows.flushed == old(rows).flushed,
            rows.label == old(rows).label,
            rows.detail == old(rows).detail,
            quality.orphans == old(quality).orphans,
            quality.multiple_parents == old(quality).multiple_parents,
            quality.unnamed_stages == old(quality).unnamed_stages,
            quality.out_of_range == old(quality).out_of_range,
            quality.end_before_start == old(quality).end_before_start,
            quality.begin_regressions == old(quality).begin_regressions,
            quality.unknown_lanes == old(quality).unknown_lanes,
            quality.missing_rid == old(quality).missing_rid,
            init_count == old(quality).duplicate_rid,
            init_count + n <= u64::MAX,
            quality.duplicate_rid == init_count + earlier_count(tids, rids, row as int) + first_count(
                tids,
                rids,
                init,
                row as int,
                row as int,
            ),
            forall|key: u128|
                #[trigger] first@.contains_key(key) ==> {
                    let p = first@[key] as int;
                    &&& 0 <= p < row
                    &&& rids[p] != MISSING_U64
                    &&& thread_rid_key(tids[p], rids[p]) == key
                    &&& forall|q: int| p < q < row && #[trigger] same_rid(tids, rids, q, p) ==> false
                },
            forall|q: int|
                0 <= q < row && rids[q] != MISSING_U64 ==> first@.contains_key(
                    #[trigger] thread_rid_key(tids[q], rids[q]),
                ),
            forall|q: int|
                0 <= q < n ==> #[trigger] rows.flags@[q] == if q < row && (has_earlier(tids, rids, q)
                    || has_later_before(tids, rids, q, row as int)) {
                    RowFlags(init[q].0 | RowFlags::DUPLICATE_RID)
                } else {
                    init[q]
                },
        decreases n - row,
    {
        let rid = rows.rid[row];
        let ghost r = row as int;
        proof {
            lemma_counts_bounded(tids, rids, init, r, r);
        }
        if rid == MISSING_U64 {
            proof {
                assert(!has_earlier(tids, rids, r));
                assert forall|q: int| 0 <= q < r + 1 && q != -1 implies first_term(tids, rids, init, q, r + 1)
                    == first_term(tids, rids, init, q, r) by {
                    if q < r {
                        if has_later_before(tids, rids, q, r + 1) {
                            let q2 = choose|q2: int| q < q2 < r + 1 && #[trigger] same_rid(tids, rids, q2, q);
                            assert(q2 != r);
                        }
                    } else {
                        assert(!has_later_before(tids, rids, q, r + 1));
                        assert(!has_later_before(tids, rids, q, r));
                    }
                }
                lemma_first_count_pointwise(tids, rids, init, r, -1, r + 1);
                assert forall|q: int| 0 <= q < n implies #[trigger] rows.flags@[q] == if q < r + 1 && (has_earlier(tids, rids, q)
                    || has_later_before(tids, rids, q, r + 1)) {
                    RowFlags(init[q].0 | RowFlags::DUPLICATE_RID)
                } else {
                    init[q]
                } by {
                    if has_later_before(tids, rids, q, r + 1) && q < r {
                        let q2 = choose|q2: int| q < q2 < r + 1 && #[trigger] same_rid(tids, rids, q2, q);
                        assert(q2 != r);
                        assert(has_later_before(tids, rids, q, r));
                    }
                    if q == r {
                        assert(!has_later_before(tids, rids, q, r + 1));
                    }
                }
            }
            row = row + 1;
            continue;
        }
        let key = pack_thread_rid(rows.tid[row], rid);
        let previous = first.insert(key, row);
        match previous {
            None => {
                proof {
                    assert(!has_earlier(tids, rids, r)) by {
                        if has_earlier(tids, rids, r) {
                            let q = choose|q: int| 0 <= q < r && #[trigger] same_rid(tids, rids, q, r);
                            assert(first@.contains_key(thread_rid_key(tids[q], rids[q])));
                        }
                    }
                    assert forall|q: int| 0 <= q < r + 1 && q != -1 implies first_term(tids, rids, init, q, r + 1)
                        == first_term(tids, rids, init, q, r) by {
                        if q < r {
                            if has_later_before(tids, rids, q, r + 1) {
                                let q2 = choose|q2: int| q < q2 < r + 1 && #[trigger] same_rid(tids, rids, q2, q);
                                if q2 == r {
                                    assert(same_rid(tids, rids, q, r));
                                }
                                assert(has_later_before(tids, rids, q, r));
                            }
                        } else {
                            assert(!has_later_before(tids, rids, q, r + 1));
                            assert(!has_later_before(tids, rids, q, r));
                        }
                    }
                    lemma_first_count_pointwise(tids, rids, init, r, -1, r + 1);
                    assert forall|q: int| 0 <= q < n implies #[trigger] rows.flags@[q] == if q < r + 1 && (has_earlier(tids, rids, q)
                        || has_later_before(tids, rids, q, r + 1)) {
                        RowFlags(init[q].0 | RowFlags::DUPLICATE_RID)
                    } else {
                        init[q]
                    } by {
                        if has_later_before(tids, rids, q, r + 1) && q < r {
                            let q2 = choose|q2: int| q < q2 < r + 1 && #[trigger] same_rid(tids, rids, q2, q);
                            if q2 == r {
                                assert(same_rid(tids, rids, q, r));
                            }
                            assert(has_later_before(tids, rids, q, r));
                        }
                        if q == r {
                            assert(!has_later_before(tids, rids, q, r + 1));
                        }
                    }
                    assert forall|k: u128| #[trigger] first@.contains_key(k) implies {
                        let p = first@[k] as int;
                        &&& 0 <= p < r + 1
                        &&& rids[p] != MISSING_U64
                        &&& thread_rid_key(tids[p], rids[p]) == k
                        &&& forall|q: int| p < q < r + 1 && #[trigger] same_rid(tids, rids, q, p) ==> false
                    } by {
                        if k != key {
                            let p = first@[k] as int;
                            assert forall|q: int| p < q < r + 1 && #[trigger] same_rid(tids, rids, q, p) implies false by {
                                if q == r {
                                    lemma_thread_rid_key_injective(tids[p], rids[p], tids[r], rids[r]);
                                }
                            }
                        }
                    }
                }
            },
            Some(p) => {
                let ghost pi = p as int;
                proof {
                    lemma_thread_rid_key_injective(tids[pi], rids[pi], tids[r], rids[r]);
                    assert(same_rid(tids, rids, pi, r));
                    assert(has_earlier(tids, rids, r));
                    assert(!has_later_before(tids, rids, pi, r)) by {
                        if has_later_before(tids, rids, pi, r) {
                            let q = choose|q: int| pi < q < r && #[trigger] same_rid(tids, rids, q, pi);
                        }
                    }
                }
                proof {
                    let g = choose|g: int|
                        0 <= g <= pi && (g == pi || same_rid(tids, rids, g, pi)) && !has_earlier(tids, rids, g);
                    assert(exists|g: int|
                        0 <= g <= pi && (g == pi || same_rid(tids, rids, g, pi)) && !has_earlier(tids, rids, g)) by {
                        lemma_exists_first(tids, rids, pi);
                    }
                    assert(same_rid(tids, rids, g, r));
                    assert forall|q: int| 0 <= q < r + 1 && q != g implies first_term(tids, rids, init, q, r + 1)
                        == first_term(tids, rids, init, q, r) by {
                        if q == r {
                        } else if same_rid(tids, rids, q, r) {
                            if q < g {
                                assert(same_rid(tids, rids, q, g));
                                assert(has_earlier(tids, rids, g));
                            } else {
                                assert(same_rid(tids, rids, g, q));
                                assert(has_earlier(tids, rids, q));
                            }
                        } else {
                            if has_later_before(tids, rids, q, r + 1) {
                                let q2 = choose|q2: int| q < q2 < r + 1 && #[trigger] same_rid(tids, rids, q2, q);
                                assert(q2 != r);
                                assert(has_later_before(tids, rids, q, r));
                            }
                        }
                    }
                    lemma_first_count_pointwise(tids, rids, init, r, g, r + 1);
                    assert(has_later_before(tids, rids, g, r + 1)) by {
                        assert(same_rid(tids, rids, r, g));
                    }
                    if g != pi {
                        assert(has_later_before(tids, rids, g, r)) by {
                            assert(same_rid(tids, rids, pi, g));
                        }
                        assert(has_earlier(tids, rids, pi)) by {
                            assert(same_rid(tids, rids, g, pi));
                        }
                    }
                    assert(earlier_count(tids, rids, r + 1) == earlier_count(tids, rids, r) + 1);
                    let x = init[pi].0;
                    assert(x & 4u16 != 0 ==> x | 4u16 == x) by (bit_vector);
                    assert((x | 4u16) & 4u16 != 0) by (bit_vector);
                    lemma_counts_sum_bounded(tids, rids, init, r + 1, r + 1);
                    assert(quality.duplicate_rid + 1 + (if !dup_bit(rows.flags@[pi]) { 1int } else { 0int })
                        == init_count + earlier_count(tids, rids, r + 1) + first_count(tids, rids, init, r + 1, r + 1));
                }
                let pflags = rows.flags[p];
                if !pflags.contains(RowFlags::DUPLICATE_RID) {
                    let mut updated = pflags;
                    updated.insert(RowFlags::DUPLICATE_RID);
                    rows.flags.set(p, updated);
                    quality.duplicate_rid = quality.duplicate_rid + 1;
                }
                let mut current = rows.flags[row];
                current.insert(RowFlags::DUPLICATE_RID);
                rows.flags.set(row, current);
                quality.duplicate_rid = quality.duplicate_rid + 1;
                proof {
                    let x = init[pi].0;
                    assert(x & 4u16 != 0 ==> x | 4u16 == x) by (bit_vector);
                    assert((x | 4u16) & 4u16 != 0) by (bit_vector);
                    assert forall|q: int| 0 <= q < n implies #[trigger] rows.flags@[q] == if q < r + 1 && (has_earlier(tids, rids, q)
                        || has_later_before(tids, rids, q, r + 1)) {
                        RowFlags(init[q].0 | RowFlags::DUPLICATE_RID)
                    } else {
                        init[q]
                    } by {
                        if q < r && q != pi {
                            if has_later_before(tids, rids, q, r + 1) && !has_later_before(tids, rids, q, r) {
                                let q2 = choose|q2: int| q < q2 < r + 1 && #[trigger] same_rid(tids, rids, q2, q);
                                assert(q2 == r);
                                if q < pi {
                                    assert(same_rid(tids, rids, pi, q));
                                } else {
                                    assert(same_rid(tids, rids, q, pi));
                                }
                            }
                        }
                        if q == pi {
                            assert(same_rid(tids, rids, r, pi));
                        }
                    }
                    assert forall|k: u128| #[trigger] first@.contains_key(k) implies {
                        let p2 = first@[k] as int;
                        &&& 0 <= p2 < r + 1
                        &&& rids[p2] != MISSING_U64
                        &&& thread_rid_key(tids[p2], rids[p2]) == k
                        &&& forall|q: int| p2 < q < r + 1 && #[trigger] same_rid(tids, rids, q, p2) ==> false
                    } by {
                        if k != key {
                            let p2 = first@[k] as int;
                            assert forall|q: int| p2 < q < r + 1 && #[trigger] same_rid(tids, rids, q, p2) implies false by {
                                if q == r {
                                    lemma_thread_rid_key_injective(tids[p2], rids[p2], tids[r], rids[r]);
                                }
                            }
                        }
                    }
                }
            },
        }
        row = row + 1;
    }
    proof {
        assert forall|q: int| 0 <= q < n implies #[trigger] rows.flags@[q] == marked_flags(tids, rids, init, q) by {
        }
    }
}

} // verus!
