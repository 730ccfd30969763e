//! Sorted index from (thread, retire id) to rows; the thread id and the retire id are
//! packed into one 128-bit key, thread in the high half, so that the key order is the
//! lexicographic order of the pair.
use vstd::prelude::*;
use crate::konata::columns::MISSING_U64;
use crate::konata::sorting::sort_unstable;

verus! {

/// The packed (thread, retire id) key.
pub open spec fn thread_rid_key(tid: u32, rid: u64) -> u128 {
    (tid as int * 0x1_0000_0000_0000_0000 + rid as int) as u128
}

/// Packs a (thread, retire id) pair.
pub fn pack_thread_rid(tid: u32, rid: u64) -> (key: u128)
    ensures
        key == thread_rid_key(tid, rid),
        key as int == tid as int * 0x1_0000_0000_0000_0000 + rid as int,
{
    (tid as u128) * 0x1_0000_0000_0000_0000u128 + (rid as u128)
}

/// Packing is injective.
pub proof fn lemma_thread_rid_key_injective(t1: u32, r1: u64, t2: u32, r2: u64)
    ensures
        thread_rid_key(t1, r1) == thread_rid_key(t2, r2) <==> (t1 == t2 && r1 == r2),
{
}

/// Lexicographic order on `(key, row)` pairs, as derived by `Ord` on tuples.
pub open spec fn wide_pair_le(a: (u128, u32), b: (u128, u32)) -> bool {
    a.0 < b.0 || (a.0 == b.0 && a.1 <= b.1)
}

/// The pairs are in ascending lexicographic order.
pub open spec fn wide_sorted_pairs(s: Seq<(u128, u32)>) -> bool {
    forall|i: int, j: int| 0 <= i < j < s.len() ==> wide_pair_le(#[trigger] s[i], #[trigger] s[j])
}

/// The keys are in ascending order.
pub open spec fn wide_sorted_keys(s: Seq<(u128, u32)>) -> bool {
    forall|i: int, j: int| 0 <= i <= j < s.len() ==> (#[trigger] s[i]).0 <= (#[trigger] s[j]).0
}

/// Sorts `(key, row)` pairs in ascending lexicographic order.
fn sort_wide_pairs(v: &mut Vec<(u128, u32)>)
    ensures
        wide_sorted_pairs(final(v)@),
        final(v)@.to_multiset() == old(v)@.to_multiset(),
{
    sort_unstable(v);
    proof {
        assert forall|i: int, j: int| 0 <= i < j < v@.len() implies wide_pair_le(#[trigger] v@[i], #[trigger] v@[j]) by {
            crate::konata::sorting::lemma_wide_pair_order(v@[i], v@[j]);
        }
    }
}

pub proof fn lemma_wide_sorted_pairs_keys(s: Seq<(u128, u32)>)
    requires
        wide_sorted_pairs(s),
    ensures
        wide_sorted_keys(s),
{
    assert forall|i: int, j: int| 0 <= i <= j < s.len() implies (#[trigger] s[i]).0 <= (
    #[trigger] s[j]).0 by {
        if i < j {
            assert(wide_pair_le(s[i], s[j]));
        }
    }
}

/// A permutation keeps membership and the absence of duplicates.
proof fn lemma_wide_permutation(v: Seq<(u128, u32)>, s: Seq<(u128, u32)>)
    requires
        v.to_multiset() == s.to_multiset(),
        v.no_duplicates(),
    ensures
        forall|x: (u128, u32)| v.contains(x) <==> s.contains(x),
        s.no_duplicates(),
{
    broadcast use vstd::seq_lib::group_to_multiset_ensures;

    v.lemma_multiset_has_no_duplicates();
    s.lemma_multiset_has_no_duplicates_conv();
    assert forall|x: (u128, u32)| v.contains(x) <==> s.contains(x) by {
        assert(v.contains(x) <==> v.to_multiset().count(x) > 0);
        assert(s.contains(x) <==> s.to_multiset().count(x) > 0);
    }
}

/// Position of the first pair whose key is not below `key` in an index sorted by key.
pub fn wide_lower_bound(index: &[(u128, u32)], key: u128) -> (pos: usize)
    requires
        wide_sorted_keys(index@),
    ensures
        pos <= index.len(),
        forall|i: int| 0 <= i < pos ==> (#[trigger] index@[i]).0 < key,
        forall|i: int| pos <= i < index.len() ==> (#[trigger] index@[i]).0 >= key,
{
    let mut lo: usize = 0;
    let mut hi: usize = index.len();
    while lo < hi
        invariant
            0 <= lo <= hi <= index.len(),
            wide_sorted_keys(index@),
            forall|i: int| 0 <= i < lo ==> (#[trigger] index@[i]).0 < key,
            forall|i: int| hi <= i < index.len() ==> (#[trigger] index@[i]).0 >= key,
        decreases hi - lo,
    {
        let mid = lo + (hi - lo) / 2;
        if index[mid].0 < key {
            proof {
                assert forall|i: int| 0 <= i <= mid implies (#[trigger] index@[i]).0 < key by {
                    assert(index@[i].0 <= index@[mid as int].0);
                }
            }
            lo = mid + 1;
        } else {
            proof {
                assert forall|i: int| mid <= i < index.len() implies (#[trigger] index@[i]).0
                    >= key by {
                    assert(index@[mid as int].0 <= index@[i].0);
                }
            }
            hi = mid;
        }
    }
    lo
}

/// Exactly one entry of `index` carries `key`, and it names `row`.
pub open spec fn wide_unique_entry(index: Seq<(u128, u32)>, key: u128, row: int) -> bool {
    exists|i: int|
        0 <= i < index.len() && #[trigger] index[i] == (key, row as u32) && forall|j: int|
            0 <= j < index.len() && (#[trigger] index[j]).0 == key ==> j == i
}

/// Some entry of `index` carries `key`, and no other entry does.
pub open spec fn wide_has_unique_key(index: Seq<(u128, u32)>, key: u128) -> bool {
    exists|i: int|
        0 <= i < index.len() && (#[trigger] index[i]).0 == key && forall|j: int|
            0 <= j < index.len() && (#[trigger] index[j]).0 == key ==> j == i
}

/// The row stored under `key`, only when exactly one entry carries it.
pub fn wide_unique_lookup(index: &[(u128, u32)], key: u128) -> (row: Option<usize>)
    requires
        wide_sorted_keys(index@),
    ensures
        row is Some <==> wide_has_unique_key(index@, key),
        row matches Some(r) ==> wide_unique_entry(index@, key, r as int) && r <= u32::MAX,
{
    let first = wide_lower_bound(index, key);
    if first < index.len() && index[first].0 == key {
        let unique = first + 1 >= index.len() || index[first + 1].0 != key;
        if unique {
            proof {
                assert forall|j: int| 0 <= j < index.len() && (#[trigger] index@[j]).0 == key implies j
                    == first by {
                    if j > first + 1 {
                        assert(index@[first + 1].0 <= index@[j].0);
                    }
                }
                assert(index@[first as int] == (key, index@[first as int].1));
            }
            Some(index[first].1 as usize)
        } else {
            proof {
                if wide_has_unique_key(index@, key) {
                    let i = choose|i: int|
                        0 <= i < index.len() && (#[trigger] index@[i]).0 == key && forall|j: int|
                            0 <= j < index.len() && (#[trigger] index@[j]).0 == key ==> j == i;
                    assert(index@[first as int].0 == key);
                    assert(index@[first + 1].0 == key);
                }
            }
            None
        }
    } else {
        proof {
            if wide_has_unique_key(index@, key) {
                let i = choose|i: int|
                    0 <= i < index.len() && (#[trigger] index@[i]).0 == key && forall|j: int|
                        0 <= j < index.len() && (#[trigger] index@[j]).0 == key ==> j == i;
                assert(index@[i].0 == key);
            }
        }
        None
    }
}


/// `index` holds exactly one pair `(key(tids[r], rids[r]), r)` for every row `r` with a
/// retire id, in ascending order.
pub open spec fn indexes_thread_rids(index: Seq<(u128, u32)>, tids: Seq<u32>, rids: Seq<u64>) -> bool {
    &&& wide_sorted_pairs(index)
    &&& index.no_duplicates()
    &&& forall|i: int|
        0 <= i < index.len() ==> {
            let (key, row) = #[trigger] index[i];
            &&& (row as int) < rids.len()
            &&& rids[row as int] != MISSING_U64
            &&& key == thread_rid_key(tids[row as int], rids[row as int])
        }
    &&& forall|r: int|
        0 <= r < rids.len() && #[trigger] rids[r] != MISSING_U64 ==> index.contains(
            (thread_rid_key(tids[r], rids[r]), r as u32),
        )
}

/// Builds the (thread, retire id) index of the rows that have a retire id.
pub fn build_thread_rid_index(tids: &Vec<u32>, rids: &Vec<u64>) -> (index: Vec<(u128, u32)>)
    requires
        tids.len() == rids.len(),
        rids.len() <= u32::MAX,
    ensures
        indexes_thread_rids(index@, tids@, rids@),
{
    let mut v: Vec<(u128, u32)> = Vec::with_capacity(rids.len());
    let mut r: usize = 0;
    while r < rids.len()
        invariant
            r <= rids.len() <= u32::MAX,
            tids.len() == rids.len(),
            forall|i: int|
                0 <= i < v.len() ==> {
                    let (key, row) = #[trigger] v@[i];
                    &&& (row as int) < r
                    &&& rids@[row as int] != MISSING_U64
                    &&& key == thread_rid_key(tids@[row as int], rids@[row as int])
                },
            forall|i: int, j: int| 0 <= i < j < v.len() ==> (#[trigger] v@[i]).1 < (#[trigger] v@[j]).1,
            forall|q: int|
                0 <= q < r && #[trigger] rids@[q] != MISSING_U64 ==> v@.contains(
                    (thread_rid_key(tids@[q], rids@[q]), q as u32),
                ),
        decreases rids.len() - r,
    {
        let rid = rids[r];
        if rid != MISSING_U64 {
            let ghost before = v@;
            let key = pack_thread_rid(tids[r], rid);
            v.push((key, r as u32));
            proof {
                assert forall|q: int|
                    0 <= q < r + 1 && #[trigger] rids@[q] != MISSING_U64 implies v@.contains(
                    (thread_rid_key(tids@[q], rids@[q]), q as u32),
                ) by {
                    if q < r {
                        let j = choose|j: int|
                            0 <= j < before.len() && before[j] == (
                                thread_rid_key(tids@[q], rids@[q]),
                                q as u32,
                            );
                        assert(v@[j] == before[j]);
                    } else {
                        assert(v@[before.len() as int] == (
                            thread_rid_key(tids@[q], rids@[q]),
                            q as u32,
                        ));
                    }
                }
            }
        }
        r = r + 1;
    }
    proof {
        assert(v@.no_duplicates()) by {
            assert forall|i: int, j: int| 0 <= i < v.len() && 0 <= j < v.len() && i != j implies v@[i]
                != v@[j] by {
                if i < j {
                    assert(v@[i].1 < v@[j].1);
                } else {
                    assert(v@[j].1 < v@[i].1);
                }
            }
        }
    }
    let ghost unsorted = v@;
    sort_wide_pairs(&mut v);
    proof {
        broadcast use vstd::seq_lib::group_to_multiset_ensures;

        lemma_wide_permutation(unsorted, v@);
        assert forall|i: int| 0 <= i < v.len() implies {
            let (key, row) = #[trigger] v@[i];
            &&& (row as int) < rids.len()
            &&& rids@[row as int] != MISSING_U64
            &&& key == thread_rid_key(tids@[row as int], rids@[row as int])
        } by {
            assert(v@.contains(v@[i]));
            assert(unsorted.contains(v@[i]));
        }
    }
    v
}

} // verus!
