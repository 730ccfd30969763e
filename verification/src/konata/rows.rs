//! Row sets used by the pipeline view: producer-chain sets and search-hit sets.
use vstd::prelude::*;
use crate::konata::bits;
use crate::konata::bits::{prefix_ranks, rank_of, select_of, test_bit, words_needed};

verus! {

/// Zero-filled word vector of the given length.
fn zero_words(n: usize) -> (words: Vec<u64>)
    ensures
        words.len() == n,
        forall|k: int| 0 <= k < n ==> words@[k] == 0u64,
{
    let mut words: Vec<u64> = Vec::with_capacity(n);
    let mut i: usize = 0;
    while i < n
        invariant
            i <= n,
            words.len() == i,
            forall|k: int| 0 <= k < i ==> words@[k] == 0u64,
        decreases n - i,
    {
        words.push(0);
        i = i + 1;
    }
    words
}

/// Sets bit `row` of a word vector; returns whether it was clear before.
fn set_row_bit(words: &mut Vec<u64>, row: usize) -> (was_clear: bool)
    requires
        row < 64 * old(words).len(),
    ensures
        final(words).len() == old(words).len(),
        was_clear == !bits::word_bits(old(words)@)[row as int],
        bits::word_bits(final(words)@) == bits::word_bits(old(words)@).update(row as int, true),
{
    let word = row / 64;
    let bit = (row % 64) as u64;
    let current = words[word];
    proof {
        bits::lemma_div_mod_64(word as int, bit as int);
        assert(bits::word_bits(words@)[row as int] == bits::bit_at(current, bit as int));
    }
    let set = test_bit(current, bit);
    let updated = current | (1u64 << bit);
    proof {
        bits::lemma_set_bit(current, bit);
        bits::lemma_word_bits_update(words@, word as int, updated, bit as int);
    }
    words.set(word, updated);
    !set
}

/// Whether bit `row` of a word vector is set; rows past the end are not.
fn row_bit(words: &Vec<u64>, row: usize) -> (set: bool)
    ensures
        set == (row < 64 * words.len() && bits::word_bits(words@)[row as int]),
{
    let word = row / 64;
    if word < words.len() {
        let bit = (row % 64) as u64;
        proof {
            bits::lemma_div_mod_64(word as int, bit as int);
        }
        test_bit(words[word], bit)
    } else {
        false
    }
}

/// The rows a membership sequence holds among its first `n` entries.
pub open spec fn members_below(s: Seq<bool>, n: int) -> Set<int> {
    Set::new(|r: int| 0 <= r < n && r < s.len() && s[r])
}

/// The membership after inserting `rows`, in order, into `base`.
pub open spec fn after_inserts(base: Seq<bool>, rows: Seq<int>) -> Seq<bool>
    decreases rows.len(),
{
    if rows.len() == 0 {
        base
    } else {
        after_inserts(base, rows.drop_last()).update(rows.last(), true)
    }
}

/// The number of `true` entries among the first `n` is the number of rows they hold.
pub proof fn lemma_count_true_members(s: Seq<bool>, n: int)
    requires
        0 <= n <= s.len(),
    ensures
        members_below(s, n).finite(),
        bits::count_true(s, n) == members_below(s, n).len(),
    decreases n,
{
    if n == 0 {
        assert(members_below(s, 0) =~= Set::<int>::empty());
    } else {
        lemma_count_true_members(s, n - 1);
        if s[n - 1] {
            assert(members_below(s, n) =~= members_below(s, n - 1).insert(n - 1));
        } else {
            assert(members_below(s, n) =~= members_below(s, n - 1));
        }
    }
}

/// Inserting rows into a set that holds none holds exactly the rows inserted.
pub proof fn lemma_after_inserts(base: Seq<bool>, rows: Seq<int>)
    requires
        forall|i: int| 0 <= i < base.len() ==> !base[i],
        forall|k: int| 0 <= k < rows.len() ==> 0 <= #[trigger] rows[k] < base.len(),
    ensures
        after_inserts(base, rows).len() == base.len(),
        members_below(after_inserts(base, rows), base.len() as int) == rows.to_set(),
    decreases rows.len(),
{
    if rows.len() == 0 {
        assert(members_below(base, base.len() as int) =~= Set::<int>::empty());
        assert(rows.to_set() =~= Set::<int>::empty());
    } else {
        let prev = rows.drop_last();
        lemma_after_inserts(base, prev);
        let a = after_inserts(base, prev);
        assert(0 <= rows.last() < base.len()) by {
            assert(rows.last() == rows[rows.len() - 1]);
        }
        assert forall|r: int| #[trigger] members_below(a.update(rows.last(), true), base.len() as int).contains(r)
            == rows.to_set().contains(r) by {
            if rows.to_set().contains(r) {
                let k = choose|k: int| 0 <= k < rows.len() && rows[k] == r;
                if k < rows.len() - 1 {
                    assert(prev[k] == r);
                    assert(prev.to_set().contains(r));
                }
            }
            if prev.to_set().contains(r) {
                let k = choose|k: int| 0 <= k < prev.len() && prev[k] == r;
                assert(rows[k] == r);
            }
        }
        assert(members_below(a.update(rows.last(), true), base.len() as int) =~= rows.to_set());
    }
}

/// A row set counts the distinct rows inserted into it: after `empty` and the inserts of
/// `rows` (in any order, with repeats), the count is the number of distinct rows.
pub proof fn lemma_count_distinct_inserts(base: Seq<bool>, rows: Seq<int>)
    requires
        forall|i: int| 0 <= i < base.len() ==> !base[i],
        forall|k: int| 0 <= k < rows.len() ==> 0 <= #[trigger] rows[k] < base.len(),
    ensures
        bits::count_true(after_inserts(base, rows), base.len() as int) == rows.to_set().len(),
        forall|r: int| 0 <= r < base.len() ==> (after_inserts(base, rows)[r] <==> rows.contains(r)),
{
    lemma_after_inserts(base, rows);
    lemma_count_true_members(after_inserts(base, rows), base.len() as int);
    assert forall|r: int| 0 <= r < base.len() implies (after_inserts(base, rows)[r] <==> rows.contains(r)) by {
        assert(members_below(after_inserts(base, rows), base.len() as int).contains(r) == rows.to_set().contains(r));
    }
}

/// A set of rows (the producer chain of a row), with its cardinality.
#[derive(Debug, Clone, PartialEq, Eq)]
pub struct KonataRowSet {
    bits: Vec<u64>,
    count: usize,
}

impl View for KonataRowSet {
    type V = Seq<bool>;

    /// Membership of every representable row.
    closed spec fn view(&self) -> Seq<bool> {
        bits::word_bits(self.bits@)
    }
}

impl KonataRowSet {
    pub closed spec fn wf(&self) -> bool {
        &&& 64 * self.bits.len() <= usize::MAX
        &&& self.count == bits::count_true(self@, self@.len() as int)
    }

    /// The number of representable rows (the requested row count rounded up to whole words).
    pub open spec fn capacity(&self) -> nat {
        self@.len()
    }

    /// An empty set able to hold rows `0 .. row_count`.
    pub fn empty(row_count: usize) -> (set: Self)
        requires
            row_count <= usize::MAX - 63,
        ensures
            set.wf(),
            set@.len() == 64 * bits::words_for(row_count as nat),
            forall|i: int| 0 <= i < set@.len() ==> !set@[i],
            set.count_spec() == 0,
    {
        let n = words_needed(row_count);
        let bits = zero_words(n);
        proof {
            bits::lemma_zero_words(bits@, 64 * n);
        }
        Self { bits, count: 0 }
    }

    pub open spec fn count_spec(&self) -> nat {
        bits::count_true(self@, self@.len() as int)
    }

    /// Adds `row`; returns whether it was new.
    pub fn insert(&mut self, row: usize) -> (added: bool)
        requires
            old(self).wf(),
            row < old(self)@.len(),
        ensures
            final(self).wf(),
            added == !old(self)@[row as int],
            final(self)@ == old(self)@.update(row as int, true),
    {
        let ghost before = self@;
        let added = set_row_bit(&mut self.bits, row);
        if added {
            proof {
                bits::lemma_count_true_set(before, row as int, before.len() as int);
                bits::lemma_count_true_bounds(self@, self@.len() as int);
            }
            self.count = self.count + 1;
        } else {
            assert(before.update(row as int, true) =~= before);
        }
        added
    }

    /// Whether `row` is in the set.
    pub fn contains(&self, row: usize) -> (found: bool)
        ensures
            found == (row < self@.len() && self@[row as int]),
    {
        row_bit(&self.bits, row)
    }

    /// Number of rows in the set.
    pub fn count(&self) -> (count: usize)
        requires
            self.wf(),
        ensures
            count == self.count_spec(),
    {
        self.count
    }
}

/// Rows matching a search, with rank/select navigation once `finish` has been called.
#[derive(Debug, Clone, PartialEq, Eq)]
pub struct KonataSearchHits {
    bits: Vec<u64>,
    ranks: Vec<u32>,
    count: usize,
}

impl View for KonataSearchHits {
    type V = Seq<bool>;

    closed spec fn view(&self) -> Seq<bool> {
        bits::word_bits(self.bits@)
    }
}

/// Upper bound on the number of words, so that every count fits the `u32` prefix counts.
pub open spec fn max_hit_words() -> nat {
    0x400_0000
}

impl KonataSearchHits {
    pub closed spec fn wf(&self) -> bool {
        &&& self.bits.len() < max_hit_words()
        &&& self.count == bits::count_true(self@, self@.len() as int)
    }

    /// The per-word prefix counts agree with the current hits.
    pub closed spec fn is_finished(&self) -> bool {
        bits::ranks_match(self.bits@, self.ranks@)
    }

    pub open spec fn count_spec(&self) -> nat {
        bits::count_true(self@, self@.len() as int)
    }

    /// An empty hit set for rows `0 .. row_count`.
    pub fn empty(row_count: usize) -> (hits: Self)
        requires
            bits::words_for(row_count as nat) < max_hit_words(),
        ensures
            hits.wf(),
            hits.is_finished(),
            hits@.len() == 64 * bits::words_for(row_count as nat),
            forall|i: int| 0 <= i < hits@.len() ==> !hits@[i],
    {
        let n = words_needed(row_count);
        let bits = zero_words(n);
        let mut ranks: Vec<u32> = Vec::with_capacity(n);
        let mut k: usize = 0;
        while k < n
            invariant
                k <= n,
                ranks@.len() == k,
                forall|j: int| 0 <= j < k ==> ranks@[j] == 0u32,
            decreases n - k,
        {
            ranks.push(0);
            k = k + 1;
        }
        proof {
            bits::lemma_zero_words(bits@, 64 * n);
            assert forall|j: int| 0 <= j < bits@.len() implies #[trigger] ranks@[j] == bits::count_true(
                bits::word_bits(bits@),
                64 * j,
            ) by {
                bits::lemma_zero_words(bits@, 64 * j);
            }
        }
        Self { bits, ranks, count: 0 }
    }

    /// Computes the prefix counts; required before navigating the hits.
    pub fn finish(&mut self)
        requires
            old(self).wf(),
        ensures
            final(self).wf(),
            final(self).is_finished(),
            final(self)@ == old(self)@,
    {
        proof {
            bits::lemma_count_true_bounds(self@, self@.len() as int);
        }
        let (ranks, total) = prefix_ranks(&self.bits);
        self.ranks = ranks;
        self.count = total as usize;
    }

    /// Marks `row` as a hit.
    pub fn insert(&mut self, row: usize)
        requires
            old(self).wf(),
            row < old(self)@.len(),
        ensures
            final(self).wf(),
            final(self)@ == old(self)@.update(row as int, true),
            old(self)@[row as int] && old(self).is_finished() ==> final(self).is_finished(),
    {
        let ghost before = self@;
        let added = set_row_bit(&mut self.bits, row);
        if added {
            proof {
                bits::lemma_count_true_set(before, row as int, before.len() as int);
                bits::lemma_count_true_bounds(self@, self@.len() as int);
            }
            self.count = self.count + 1;
        } else {
            assert(before.update(row as int, true) =~= before);
        }
    }

    /// Number of hits.
    pub fn count(&self) -> (count: usize)
        requires
            self.wf(),
        ensures
            count == self.count_spec(),
    {
        self.count
    }

    /// Whether `row` is a hit.
    pub fn contains(&self, row: usize) -> (found: bool)
        ensures
            found == (row < self@.len() && self@[row as int]),
    {
        row_bit(&self.bits, row)
    }

    /// Number of hits strictly before `row`.
    pub fn rank_before(&self, row: usize) -> (rank: usize)
        requires
            self.wf(),
            self.is_finished(),
        ensures
            rank == bits::count_true(self@, if row < self@.len() { row as int } else { self@.len() as int }),
    {
        let word = row / 64;
        if word >= self.bits.len() {
            return self.count;
        }
        rank_of(&self.bits, &self.ranks, row)
    }

    /// The hit whose rank is `rank`, if there are more than `rank` hits.
    pub fn select(&self, rank: usize) -> (row: Option<usize>)
        requires
            self.wf(),
            self.is_finished(),
        ensures
            row is None <==> rank >= self.count_spec(),
            row matches Some(r) ==> r < self@.len() && self@[r as int] && bits::count_true(self@, r as int)
                == rank,
    {
        if rank >= self.count {
            return None;
        }
        Some(select_of(&self.bits, &self.ranks, self.count, rank))
    }

    /// The first hit.
    pub fn first(&self) -> (row: Option<usize>)
        requires
            self.wf(),
            self.is_finished(),
        ensures
            row is None <==> forall|i: int| 0 <= i < self@.len() ==> !self@[i],
            row matches Some(r) ==> r < self@.len() && self@[r as int] && forall|i: int|
                0 <= i < r ==> !self@[i],
    {
        let row = self.select(0);
        proof {
            lemma_none_set(self@);
            if let Some(r) = row {
                bits::lemma_count_true_flat(self@, 0, r as int);
            }
        }
        row
    }

    /// The 1-based position of `row` among the hits, if it is a hit.
    pub fn ordinal(&self, row: usize) -> (position: Option<usize>)
        requires
            self.wf(),
            self.is_finished(),
        ensures
            position is Some <==> (row < self@.len() && self@[row as int]),
            position matches Some(p) ==> p == bits::count_true(self@, row as int) + 1,
    {
        if self.contains(row) {
            let rank = self.rank_before(row);
            proof {
                bits::lemma_count_true_step(self@, row as int, self@.len() as int);
            }
            Some(rank + 1)
        } else {
            None
        }
    }

    /// The next hit after `row` (or before it, when `reverse`), wrapping around at either end.
    pub fn next(&self, row: usize, reverse: bool) -> (target: Option<usize>)
        requires
            self.wf(),
            self.is_finished(),
        ensures
            target is None <==> forall|i: int| 0 <= i < self@.len() ==> !self@[i],
            target matches Some(h) ==> h < self@.len() && self@[h as int],
            !reverse ==> (target matches Some(h) ==> next_hit_after(self@, row as int, h as int)),
            reverse ==> (target matches Some(h) ==> next_hit_before(self@, row as int, h as int)),
    {
        let ghost s = self@;
        let ghost len = s.len() as int;
        proof {
            lemma_none_set(s);
        }
        if self.count == 0 {
            return None;
        }
        if reverse {
            let rank = self.rank_before(row);
            let target = self.select(if rank == 0 { self.count - 1 } else { rank - 1 });
            proof {
                let m = if row < len { row as int } else { len };
                bits::lemma_count_true_monotone(s, m, len);
                assert(target is Some);
                let h = target->0 as int;
                if rank == 0 {
                    bits::lemma_count_true_flat(s, 0, m);
                    bits::lemma_count_true_step(s, h, len);
                    bits::lemma_count_true_bounds(s, len);
                    bits::lemma_count_true_flat(s, h + 1, len);
                } else {
                    if h >= m {
                        bits::lemma_count_true_monotone(s, m, h);
                    }
                    bits::lemma_count_true_flat(s, h + 1, m);
                }
            }
            target
        } else {
            let after = if row < usize::MAX { row + 1 } else { usize::MAX };
            let rank = self.rank_before(after);
            let target = self.select(if rank == self.count { 0 } else { rank });
            proof {
                let m = if (after as int) < len { after as int } else { len };
                bits::lemma_count_true_monotone(s, m, len);
                assert(target is Some);
                let h = target->0 as int;
                if rank == self.count {
                    bits::lemma_count_true_flat(s, 0, h);
                    bits::lemma_count_true_flat(s, m, len);
                } else {
                    if h < m {
                        bits::lemma_count_true_step(s, h, m);
                    }
                    bits::lemma_count_true_flat(s, m, h);
                }
            }
            target
        }
    }
}

/// `h` is the first hit after `row`, or, when there is none after `row`, the first hit overall.
pub open spec fn next_hit_after(s: Seq<bool>, row: int, h: int) -> bool {
    ||| (row < h && forall|j: int| row < j < h ==> !s[j])
    ||| ((forall|j: int| row < j < s.len() ==> !s[j]) && forall|j: int| 0 <= j < h ==> !s[j])
}

/// `h` is the last hit before `row`, or, when there is none before `row`, the last hit overall.
pub open spec fn next_hit_before(s: Seq<bool>, row: int, h: int) -> bool {
    ||| (h < row && forall|j: int| h < j < row && j < s.len() ==> !s[j])
    ||| ((forall|j: int| 0 <= j < row && j < s.len() ==> !s[j]) && forall|j: int|
        h < j < s.len() ==> !s[j])
}

/// A zero count over the whole sequence means that no entry is set, and conversely.
pub proof fn lemma_none_set(s: Seq<bool>)
    ensures
        (bits::count_true(s, s.len() as int) == 0) <==> forall|i: int| 0 <= i < s.len() ==> !s[i],
{
    if bits::count_true(s, s.len() as int) == 0 {
        bits::lemma_count_true_flat(s, 0, s.len() as int);
    } else {
        if forall|i: int| 0 <= i < s.len() ==> !s[i] {
            lemma_all_clear_counts_zero(s, s.len() as int);
        }
    }
}

proof fn lemma_all_clear_counts_zero(s: Seq<bool>, n: int)
    requires
        n <= s.len(),
        forall|i: int| 0 <= i < s.len() ==> !s[i],
    ensures
        bits::count_true(s, n) == 0,
    decreases n,
{
    if n > 0 {
        lemma_all_clear_counts_zero(s, n - 1);
    }
}

} // verus!
