//! Sorted lookup indexes from a key (transaction id, instruction id, retire id, begin tick)
//! to the rows that carry it.
use vstd::prelude::*;
use crate::konata::columns::MISSING_U64;
use crate::konata::sorting::sort_unstable;

verus! {

/// Lexicographic order on `(key, row)` pairs, as derived by `Ord` on tuples.
pub open spec fn pair_le(a: (u64, u32), b: (u64, u32)) -> bool {
    a.0 < b.0 || (a.0 == b.0 && a.1 <= b.1)
}

/// The pairs are in ascending lexicographic order.
pub open spec fn sorted_pairs(s: Seq<(u64, u32)>) -> bool {
    forall|i: int, j: int| 0 <= i < j < s.len() ==> pair_le(#[trigger] s[i], #[trigger] s[j])
}

/// The keys are in ascending order.
pub open spec fn sorted_keys(s: Seq<(u64, u32)>) -> bool {
    forall|i: int, j: int| 0 <= i <= j < s.len() ==> (#[trigger] s[i]).0 <= (#[trigger] s[j]).0
}

/// Whether a row's key is listed: every key, or only the present ones.
pub open spec fn listed(key: u64, skip_missing: bool) -> bool {
    !(skip_missing && key == MISSING_U64)
}

/// `index` holds exactly one pair `(keys[r], r)` for every listed row `r`, in ascending order.
pub open spec fn indexes_rows(index: Seq<(u64, u32)>, keys: Seq<u64>, skip_missing: bool) -> bool {
    &&& sorted_pairs(index)
    &&& index.no_duplicates()
    &&& forall|i: int|
        0 <= i < index.len() ==> {
            let (key, row) = #[trigger] index[i];
            &&& (row as int) < keys.len()
            &&& keys[row as int] == key
            &&& listed(key, skip_missing)
        }
    &&& forall|r: int|
        0 <= r < keys.len() && listed(keys[r], skip_missing) ==> index.contains(
            (#[trigger] keys[r], r as u32),
        )
}

/// Sorts `(key, row)` pairs in ascending lexicographic order.
pub fn sort_pairs(v: &mut Vec<(u64, u32)>)
    ensures
        sorted_pairs(final(v)@),
        final(v)@.to_multiset() == old(v)@.to_multiset(),
{
    sort_unstable(v);
    proof {
        assert forall|i: int, j: int| 0 <= i < j < v@.len() implies pair_le(#[trigger] v@[i], #[trigger] v@[j]) by {
            crate::konata::sorting::lemma_pair_order(v@[i], v@[j]);
        }
    }
}

pub proof fn lemma_sorted_pairs_keys(s: Seq<(u64, u32)>)
    requires
        sorted_pairs(s),
    ensures
        sorted_keys(s),
{
    assert forall|i: int, j: int| 0 <= i <= j < s.len() implies (#[trigger] s[i]).0 <= (
    #[trigger] s[j]).0 by {
        if i < j {
            assert(pair_le(s[i], s[j]));
        }
    }
}

/// A permutation keeps membership.
pub proof fn lemma_same_members(v: Seq<(u64, u32)>, s: Seq<(u64, u32)>)
    requires
        v.to_multiset() == s.to_multiset(),
    ensures
        forall|x: (u64, u32)| v.contains(x) <==> s.contains(x),
{
    broadcast use vstd::seq_lib::group_to_multiset_ensures;

    assert forall|x: (u64, u32)| v.contains(x) <==> s.contains(x) by {
        assert(v.contains(x) <==> v.to_multiset().count(x) > 0);
        assert(s.contains(x) <==> s.to_multiset().count(x) > 0);
    }
}

/// A permutation keeps membership and the absence of duplicates.
proof fn lemma_permutation(v: Seq<(u64, u32)>, s: Seq<(u64, u32)>)
    requires
        v.to_multiset() == s.to_multiset(),
        v.no_duplicates(),
    ensures
        forall|x: (u64, u32)| v.contains(x) <==> s.contains(x),
        s.no_duplicates(),
{
    broadcast use vstd::seq_lib::group_to_multiset_ensures;

    v.lemma_multiset_has_no_duplicates();
    s.lemma_multiset_has_no_duplicates_conv();
    assert forall|x: (u64, u32)| v.contains(x) <==> s.contains(x) by {
        assert(v.contains(x) <==> v.to_multiset().count(x) > 0);
        assert(s.contains(x) <==> s.to_multiset().count(x) > 0);
    }
}

/// Builds the sorted index of the listed rows of a key column.
pub fn build_row_index(keys: &Vec<u64>, skip_missing: bool) -> (index: Vec<(u64, u32)>)
    requires
        keys.len() <= u32::MAX,
    ensures
        indexes_rows(index@, keys@, skip_missing),
{
    let mut v: Vec<(u64, u32)> = Vec::with_capacity(keys.len());
    let mut r: usize = 0;
    while r < keys.len()
        invariant
            r <= keys.len() <= u32::MAX,
            forall|i: int|
                0 <= i < v.len() ==> {
                    let (key, row) = #[trigger] v@[i];
                    &&& (row as int) < r
                    &&& keys@[row as int] == key
                    &&& listed(key, skip_missing)
                },
            forall|i: int, j: int| 0 <= i < j < v.len() ==> (#[trigger] v@[i]).1 < (#[trigger] v@[j]).1,
            forall|q: int|
                0 <= q < r && listed(keys@[q], skip_missing) ==> v@.contains(
                    (#[trigger] keys@[q], q as u32),
                ),
        decreases keys.len() - r,
    {
        let key = keys[r];
        if !(skip_missing && key == MISSING_U64) {
            let ghost before = v@;
            v.push((key, r as u32));
            proof {
                assert forall|q: int|
                    0 <= q < r + 1 && listed(keys@[q], skip_missing) implies v@.contains(
                    (#[trigger] keys@[q], q as u32),
                ) by {
                    if q < r {
                        let j = choose|j: int| 0 <= j < before.len() && before[j] == (keys@[q], q as u32);
                        assert(v@[j] == before[j]);
                    } else {
                        assert(v@[before.len() as int] == (keys@[q], q as u32));
                    }
                }
            }
        }
        r = r + 1;
    }
    proof {
        assert(v@.no_duplicates()) by {
            assert forall|i: int, j: int| 0 <= i < v.len() && 0 <= j < v.len() && i != j implies v@[i]
                != v@[j] by {
                if i < j {
                    assert(v@[i].1 < v@[j].1);
                } else {
                    assert(v@[j].1 < v@[i].1);
                }
            }
        }
    }
    let ghost unsorted = v@;
    sort_pairs(&mut v);
    proof {
        broadcast use vstd::seq_lib::group_to_multiset_ensures;

        lemma_permutation(unsorted, v@);
        assert forall|i: int| 0 <= i < v.len() implies {
            let (key, row) = #[trigger] v@[i];
            &&& (row as int) < keys.len()
            &&& keys@[row as int] == key
            &&& listed(key, skip_missing)
        } by {
            assert(v@.contains(v@[i]));
            assert(unsorted.contains(v@[i]));
        }
    }
    v
}

/// Position of the first pair whose key is not below `key` in an index sorted by key.
pub fn lower_bound(index: &[(u64, u32)], key: u64) -> (pos: usize)
    requires
        sorted_keys(index@),
    ensures
        pos <= index.len(),
        forall|i: int| 0 <= i < pos ==> (#[trigger] index@[i]).0 < key,
        forall|i: int| pos <= i < index.len() ==> (#[trigger] index@[i]).0 >= key,
{
    let mut lo: usize = 0;
    let mut hi: usize = index.len();
    while lo < hi
        invariant
            0 <= lo <= hi <= index.len(),
            sorted_keys(index@),
            forall|i: int| 0 <= i < lo ==> (#[trigger] index@[i]).0 < key,
            forall|i: int| hi <= i < index.len() ==> (#[trigger] index@[i]).0 >= key,
        decreases hi - lo,
    {
        let mid = lo + (hi - lo) / 2;
        if index[mid].0 < key {
            proof {
                assert forall|i: int| 0 <= i <= mid implies (#[trigger] index@[i]).0 < key by {
                    assert(index@[i].0 <= index@[mid as int].0);
                }
            }
            lo = mid + 1;
        } else {
            proof {
                assert forall|i: int| mid <= i < index.len() implies (#[trigger] index@[i]).0
                    >= key by {
                    assert(index@[mid as int].0 <= index@[i].0);
                }
            }
            hi = mid;
        }
    }
    lo
}

/// Some row stored under `key` in an index sorted by key, if any; which one, when several
/// share the key, is left open.
pub fn sorted_id_lookup(index: &[(u64, u32)], key: u64) -> (row: Option<u32>)
    requires
        sorted_keys(index@),
    ensures
        row is None <==> forall|i: int| 0 <= i < index.len() ==> (#[trigger] index@[i]).0 != key,
        row matches Some(r) ==> index@.contains((key, r)),
        sorted_pairs(index@) ==> (row matches Some(r) ==> forall|i: int|
            0 <= i < index.len() && (#[trigger] index@[i]).0 == key ==> r <= index@[i].1),
{
    let pos = lower_bound(index, key);
    if pos < index.len() && index[pos].0 == key {
        proof {
            assert(index@[pos as int] == (key, index@[pos as int].1));
            if sorted_pairs(index@) {
                assert forall|i: int| 0 <= i < index.len() && (#[trigger] index@[i]).0 == key implies index@[pos as int].1
                    <= index@[i].1 by {
                    if i > pos {
                        assert(pair_le(index@[pos as int], index@[i]));
                    }
                }
            }
        }
        Some(index[pos].1)
    } else {
        None
    }
}

/// Exactly one entry of `index` carries `key`, and it names `row`.
pub open spec fn unique_entry(index: Seq<(u64, u32)>, key: u64, row: int) -> bool {
    exists|i: int|
        0 <= i < index.len() && #[trigger] index[i] == (key, row as u32) && forall|j: int|
            0 <= j < index.len() && (#[trigger] index[j]).0 == key ==> j == i
}

/// Some entry of `index` carries `key`, and no other entry does.
pub open spec fn has_unique_key(index: Seq<(u64, u32)>, key: u64) -> bool {
    exists|i: int|
        0 <= i < index.len() && (#[trigger] index[i]).0 == key && forall|j: int|
            0 <= j < index.len() && (#[trigger] index[j]).0 == key ==> j == i
}

/// The row stored under `key`, only when exactly one entry carries it.
pub fn unique_index_lookup(index: &[(u64, u32)], key: u64) -> (row: Option<usize>)
    requires
        sorted_keys(index@),
    ensures
        row is Some <==> has_unique_key(index@, key),
        row matches Some(r) ==> unique_entry(index@, key, r as int) && r <= u32::MAX,
{
    let first = lower_bound(index, key);
    if first < index.len() && index[first].0 == key {
        let unique = first + 1 >= index.len() || index[first + 1].0 != key;
        if unique {
            proof {
                assert forall|j: int| 0 <= j < index.len() && (#[trigger] index@[j]).0 == key implies j
                    == first by {
                    if j > first + 1 {
                        assert(index@[first + 1].0 <= index@[j].0);
                    }
                }
                assert(index@[first as int] == (key, index@[first as int].1));
            }
            Some(index[first].1 as usize)
        } else {
            proof {
                if has_unique_key(index@, key) {
                    let i = choose|i: int|
                        0 <= i < index.len() && (#[trigger] index@[i]).0 == key && forall|j: int|
                            0 <= j < index.len() && (#[trigger] index@[j]).0 == key ==> j == i;
                    assert(index@[first as int].0 == key);
                    assert(index@[first + 1].0 == key);
                }
            }
            None
        }
    } else {
        proof {
            if has_unique_key(index@, key) {
                let i = choose|i: int|
                    0 <= i < index.len() && (#[trigger] index@[i]).0 == key && forall|j: int|
                        0 <= j < index.len() && (#[trigger] index@[j]).0 == key ==> j == i;
                assert(index@[i].0 == key);
            }
        }
        None
    }
}

/// Distance between two ticks.
pub open spec fn tick_distance(a: u64, b: u64) -> int {
    if a <= b {
        b - a
    } else {
        a - b
    }
}

/// What the nearest-row query answers for an index whose first `pos` keys are below `tick`
/// and whose remaining keys are not: the last entry below the tick or the first one at or
/// after it, whichever is closer, preferring the earlier one on a tie.
pub open spec fn nearest_choice(index: Seq<(u64, u32)>, tick: u64, pos: int) -> Option<usize> {
    if index.len() == 0 {
        None
    } else if pos == 0 {
        Some(index[0].1 as usize)
    } else if pos == index.len() {
        Some(index[pos - 1].1 as usize)
    } else if tick - index[pos - 1].0 <= index[pos].0 - tick {
        Some(index[pos - 1].1 as usize)
    } else {
        Some(index[pos].1 as usize)
    }
}

/// The row whose key is nearest to `tick` in an index of `(begin tick, row)` pairs.
pub fn nearest_row_for_tick(index: &[(u64, u32)], tick: u64) -> (row: Option<usize>)
    requires
        sorted_keys(index@),
    ensures
        exists|pos: int|
            0 <= pos <= index.len() && (forall|i: int| 0 <= i < pos ==> (#[trigger] index@[i]).0 < tick)
                && (forall|i: int| pos <= i < index.len() ==> (#[trigger] index@[i]).0 >= tick)
                && row == nearest_choice(index@, tick, pos),
        row is None <==> index.len() == 0,
        row matches Some(r) ==> exists|i: int|
            0 <= i < index.len() && (#[trigger] index@[i]).1 == r && (forall|j: int|
                0 <= j < index.len() ==> tick_distance(index@[i].0, tick) <= tick_distance(
                    #[trigger] index@[j].0,
                    tick,
                )) && (forall|j: int|
                0 <= j < index.len() && (#[trigger] index@[j]).0 < tick && tick_distance(index@[j].0, tick)
                    <= tick_distance(index@[i].0, tick) ==> index@[i].0 < tick),
{
    let position = lower_bound(index, tick);
    let row = if index.len() == 0 {
        None
    } else if position == 0 {
        Some(index[0].1 as usize)
    } else if position == index.len() {
        Some(index[position - 1].1 as usize)
    } else {
        let previous_tick = index[position - 1].0;
        let next_tick = index[position].0;
        if tick - previous_tick <= next_tick - tick {
            Some(index[position - 1].1 as usize)
        } else {
            Some(index[position].1 as usize)
        }
    };
    proof {
        assert(row == nearest_choice(index@, tick, position as int));
        if index.len() > 0 {
            let i = if position == 0 {
                0
            } else if position == index.len() {
                position - 1
            } else if tick - index@[position - 1].0 <= index@[position as int].0 - tick {
                position - 1
            } else {
                position as int
            };
            assert forall|j: int| 0 <= j < index.len() implies tick_distance(index@[i].0, tick)
                <= tick_distance(#[trigger] index@[j].0, tick) by {
                if j < position {
                    assert(index@[j].0 <= index@[position - 1].0);
                } else {
                    assert(index@[position as int].0 <= index@[j].0);
                }
            }
            assert forall|j: int|
                0 <= j < index.len() && (#[trigger] index@[j]).0 < tick && tick_distance(index@[j].0, tick)
                    <= tick_distance(index@[i].0, tick) implies index@[i].0 < tick by {
                if j >= position {
                    assert(index@[j].0 >= tick);
                }
                assert(index@[j].0 <= index@[position - 1].0);
            }
        }
    }
    row
}

} // verus!
