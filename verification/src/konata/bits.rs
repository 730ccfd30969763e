//! Word-packed bit vectors with rank/select support, shared by the row sets, the search
//! hit sets and the visibility index of the pipeline model.
use vstd::prelude::*;

verus! {

/// Bit `i` (0 = least significant) of a 64-bit word.
pub open spec fn bit_at(w: u64, i: int) -> bool {
    (w >> (i as u64)) & 1u64 == 1u64
}

/// The bits of one word as a sequence of 64 booleans.
pub open spec fn word_seq(w: u64) -> Seq<bool> {
    Seq::new(64, |i: int| bit_at(w, i))
}

/// The bits of a word vector, word `k` covering positions `64 k .. 64 k + 64`.
pub open spec fn word_bits(words: Seq<u64>) -> Seq<bool> {
    Seq::new((words.len() * 64) as nat, |i: int| bit_at(words[i / 64], i % 64))
}

/// Number of `true` entries among the first `n` entries of `s`.
pub open spec fn count_true(s: Seq<bool>, n: int) -> nat
    decreases n,
{
    if n <= 0 {
        0
    } else {
        count_true(s, n - 1) + if s[n - 1] {
            1nat
        } else {
            0nat
        }
    }
}

/// `ranks[k]` is the number of set bits before word `k`.
pub open spec fn ranks_match(words: Seq<u64>, ranks: Seq<u32>) -> bool {
    &&& ranks.len() == words.len()
    &&& forall|k: int| 0 <= k < words.len() ==> #[trigger] ranks[k] == count_true(word_bits(words), 64 * k)
}

pub proof fn lemma_count_true_bounds(s: Seq<bool>, n: int)
    ensures
        n >= 0 ==> count_true(s, n) <= n,
    decreases n,
{
    if n > 0 {
        lemma_count_true_bounds(s, n - 1);
    }
}

pub proof fn lemma_count_true_monotone(s: Seq<bool>, a: int, b: int)
    requires
        a <= b,
    ensures
        count_true(s, a) <= count_true(s, b),
    decreases b - a,
{
    if a < b {
        lemma_count_true_monotone(s, a, b - 1);
    }
}

/// Counts only depend on the entries that they cover.
pub proof fn lemma_count_true_same_prefix(s: Seq<bool>, t: Seq<bool>, n: int)
    requires
        forall|i: int| 0 <= i < n ==> s[i] == t[i],
    ensures
        count_true(s, n) == count_true(t, n),
    decreases n,
{
    if n > 0 {
        lemma_count_true_same_prefix(s, t, n - 1);
    }
}

/// Equal counts at `a <= b` mean that no entry in `a .. b` is set.
pub proof fn lemma_count_true_flat(s: Seq<bool>, a: int, b: int)
    requires
        0 <= a <= b,
        count_true(s, a) == count_true(s, b),
    ensures
        forall|i: int| a <= i < b ==> !s[i],
    decreases b - a,
{
    if a < b {
        lemma_count_true_monotone(s, a, b - 1);
        lemma_count_true_flat(s, a, b - 1);
    }
}

/// A set entry at `i` is counted by every prefix that covers it.
pub proof fn lemma_count_true_step(s: Seq<bool>, i: int, b: int)
    requires
        0 <= i < b,
        s[i],
    ensures
        count_true(s, i) < count_true(s, b),
{
    lemma_count_true_monotone(s, i + 1, b);
}

/// Two different set entries have different ranks.
pub proof fn lemma_rank_injective(s: Seq<bool>, i: int, j: int)
    requires
        0 <= i < j,
        s[i],
    ensures
        count_true(s, i) < count_true(s, j),
{
    lemma_count_true_step(s, i, j);
}

/// Setting one entry from `false` to `true` adds one to every count that covers it.
pub proof fn lemma_count_true_set(s: Seq<bool>, p: int, n: int)
    requires
        0 <= p < s.len(),
        !s[p],
        0 <= n <= s.len(),
    ensures
        count_true(s.update(p, true), n) == count_true(s, n) + if p < n {
            1nat
        } else {
            0nat
        },
    decreases n,
{
    if n > 0 {
        lemma_count_true_set(s, p, n - 1);
    }
}

pub proof fn lemma_div_mod_64(k: int, b: int)
    requires
        0 <= k,
        0 <= b < 64,
    ensures
        (64 * k + b) / 64 == k,
        (64 * k + b) % 64 == b,
{
    vstd::arithmetic::div_mod::lemma_fundamental_div_mod_converse(64 * k + b, 64, k, b);
}

/// The count up to a position inside word `k` is the count before the word plus the
/// count of the word's own bits below that position.
pub proof fn lemma_count_split(words: Seq<u64>, k: int, b: int)
    requires
        0 <= k < words.len(),
        0 <= b <= 64,
    ensures
        count_true(word_bits(words), 64 * k + b) == count_true(word_bits(words), 64 * k)
            + count_true(word_seq(words[k]), b),
    decreases b,
{
    if b > 0 {
        lemma_count_split(words, k, b - 1);
        lemma_div_mod_64(k, b - 1);
        assert(word_bits(words)[64 * k + b - 1] == word_seq(words[k])[b - 1]);
    }
}

/// A zero word has no set bit.
pub proof fn lemma_zero_word(i: int)
    requires
        0 <= i < 64,
    ensures
        !bit_at(0u64, i),
{
    let iu = i as u64;
    assert((0u64 >> iu) & 1u64 == 0u64) by (bit_vector);
}

/// An all-zero word vector has no set bit and counts zero everywhere.
pub proof fn lemma_zero_words(words: Seq<u64>, n: int)
    requires
        forall|k: int| 0 <= k < words.len() ==> words[k] == 0u64,
        n <= words.len() * 64,
    ensures
        forall|i: int| 0 <= i < words.len() * 64 ==> !(#[trigger] word_bits(words)[i]),
        count_true(word_bits(words), n) == 0,
    decreases n,
{
    assert forall|i: int| 0 <= i < words.len() * 64 implies !(#[trigger] word_bits(words)[i]) by {
        vstd::arithmetic::div_mod::lemma_fundamental_div_mod(i, 64);
        lemma_zero_word(i % 64);
    }
    if n > 0 {
        lemma_zero_words(words, n - 1);
    }
}

/// `bit_at` as the executable mask test.
pub proof fn lemma_mask_test(w: u64, b: u64)
    requires
        b < 64,
    ensures
        ((w & (1u64 << b)) != 0) == bit_at(w, b as int),
{
    assert(((w & (1u64 << b)) != 0) == ((w >> b) & 1u64 == 1u64)) by (bit_vector)
        requires
            b < 64,
    ;
}

/// Or-ing in one bit sets exactly that bit.
pub proof fn lemma_set_bit(w: u64, b: u64)
    requires
        b < 64,
    ensures
        word_seq(w | (1u64 << b)) == word_seq(w).update(b as int, true),
{
    assert forall|j: int| 0 <= j < 64 implies word_seq(w | (1u64 << b))[j] == word_seq(w).update(
        b as int,
        true,
    )[j] by {
        let ju = j as u64;
        assert((((w | (1u64 << b)) >> ju) & 1u64 == 1u64) == (ju == b || ((w >> ju) & 1u64
            == 1u64))) by (bit_vector)
            requires
                b < 64,
                ju < 64,
        ;
    }
    assert(word_seq(w | (1u64 << b)) =~= word_seq(w).update(b as int, true));
}

/// Replacing word `k` replaces exactly the positions of that word.
pub proof fn lemma_word_bits_update(words: Seq<u64>, k: int, w: u64, b: int)
    requires
        0 <= k < words.len(),
        0 <= b < 64,
        word_seq(w) == word_seq(words[k]).update(b, true),
    ensures
        word_bits(words.update(k, w)) == word_bits(words).update(64 * k + b, true),
{
    let old_bits = word_bits(words);
    let new_bits = word_bits(words.update(k, w));
    lemma_div_mod_64(k, b);
    assert forall|i: int| 0 <= i < new_bits.len() implies new_bits[i] == old_bits.update(
        64 * k + b,
        true,
    )[i] by {
        let q = i / 64;
        let r = i % 64;
        vstd::arithmetic::div_mod::lemma_fundamental_div_mod(i, 64);
        if q == k {
            assert(word_seq(w)[r] == bit_at(w, r));
            assert(word_seq(words[k])[r] == bit_at(words[k], r));
            if r == b {
                assert(i == 64 * k + b);
            } else {
                assert(i != 64 * k + b);
            }
        } else {
            assert(i != 64 * k + b);
        }
    }
    assert(new_bits =~= old_bits.update(64 * k + b, true));
}

/// Number of set bits of `w` below position `below`.
pub fn count_ones_below(w: u64, below: u32) -> (count: u32)
    requires
        below <= 64,
    ensures
        count == count_true(word_seq(w), below as int),
        count <= below,
{
    let mut count: u32 = 0;
    let mut i: u32 = 0;
    while i < below
        invariant
            i <= below <= 64,
            count == count_true(word_seq(w), i as int),
            count <= i,
        decreases below - i,
    {
        if (w >> (i as u64)) & 1u64 == 1u64 {
            count = count + 1;
        }
        assert(word_seq(w)[i as int] == bit_at(w, i as int));
        i = i + 1;
    }
    count
}

/// Whether bit `b` of `w` is set.
pub fn test_bit(w: u64, b: u64) -> (set: bool)
    requires
        b < 64,
    ensures
        set == bit_at(w, b as int),
{
    proof {
        lemma_mask_test(w, b);
    }
    w & (1u64 << b) != 0
}

/// Number of 64-bit words needed for `n` bits.
pub open spec fn words_for(n: nat) -> nat {
    if n % 64 == 0 {
        n / 64
    } else {
        n / 64 + 1
    }
}

pub fn words_needed(n: usize) -> (words: usize)
    ensures
        words == words_for(n as nat),
        words * 64 >= n,
        n + 64 > words * 64,
{
    if n % 64 == 0 {
        n / 64
    } else {
        n / 64 + 1
    }
}

/// The per-word prefix counts of a word vector, and the total number of set bits.
pub fn prefix_ranks(words: &Vec<u64>) -> (result: (Vec<u32>, u32))
    requires
        count_true(word_bits(words@), 64 * words.len()) <= u32::MAX,
    ensures
        ranks_match(words@, result.0@),
        result.1 == count_true(word_bits(words@), 64 * words.len()),
{
    let ghost bits = word_bits(words@);
    let mut ranks: Vec<u32> = Vec::with_capacity(words.len());
    let mut running: u32 = 0;
    let mut k: usize = 0;
    while k < words.len()
        invariant
            k <= words.len(),
            bits == word_bits(words@),
            count_true(bits, 64 * words.len()) <= u32::MAX,
            running == count_true(bits, 64 * k),
            ranks@.len() == k,
            forall|j: int| 0 <= j < k ==> #[trigger] ranks@[j] == count_true(bits, 64 * j),
        decreases words.len() - k,
    {
        ranks.push(running);
        let ones = count_ones_below(words[k], 64);
        proof {
            lemma_count_split(words@, k as int, 64);
            lemma_count_true_monotone(bits, 64 * (k + 1), 64 * words.len());
        }
        running = running + ones;
        k = k + 1;
    }
    (ranks, running)
}

/// Number of set bits strictly before position `row`, using the per-word prefix counts.
pub fn rank_of(words: &Vec<u64>, ranks: &Vec<u32>, row: usize) -> (rank: usize)
    requires
        ranks_match(words@, ranks@),
        row < 64 * words.len(),
    ensures
        rank == count_true(word_bits(words@), row as int),
{
    let word = row / 64;
    let bit = row % 64;
    let below = count_ones_below(words[word], bit as u32);
    proof {
        lemma_count_split(words@, word as int, bit as int);
        lemma_count_true_bounds(word_bits(words@), 64 * word);
    }
    ranks[word] as usize + below as usize
}

/// Position of the set bit whose rank is `rank`: the bit is set and exactly `rank` set bits
/// come before it.
pub fn select_of(words: &Vec<u64>, ranks: &Vec<u32>, total: usize, rank: usize) -> (row: usize)
    requires
        ranks_match(words@, ranks@),
        total == count_true(word_bits(words@), 64 * words.len()),
        rank < total,
        64 * words.len() <= usize::MAX,
    ensures
        row < 64 * words.len(),
        word_bits(words@)[row as int],
        count_true(word_bits(words@), row as int) == rank,
{
    let ghost bits = word_bits(words@);
    proof {
        lemma_count_true_bounds(bits, 64 * words.len());
    }
    // Binary search for the number of words whose prefix count is at most `rank`.
    let mut lo: usize = 0;
    let mut hi: usize = ranks.len();
    while lo < hi
        invariant
            0 <= lo <= hi <= ranks.len(),
            ranks_match(words@, ranks@),
            bits == word_bits(words@),
            forall|i: int| 0 <= i < lo ==> #[trigger] ranks@[i] <= rank,
            forall|i: int| hi <= i < ranks.len() ==> #[trigger] ranks@[i] > rank,
        decreases hi - lo,
    {
        let mid = lo + (hi - lo) / 2;
        if ranks[mid] as usize <= rank {
            proof {
                assert forall|i: int| 0 <= i <= mid implies #[trigger] ranks@[i] <= rank by {
                    lemma_count_true_monotone(bits, 64 * i, 64 * mid);
                }
            }
            lo = mid + 1;
        } else {
            proof {
                assert forall|i: int| mid <= i < ranks.len() implies #[trigger] ranks@[i]
                    > rank by {
                    lemma_count_true_monotone(bits, 64 * mid, 64 * i);
                }
            }
            hi = mid;
        }
    }
    // ranks[0] == 0 <= rank, so at least one word qualifies.
    assert(words.len() > 0) by {
        if words.len() == 0 {
            assert(count_true(bits, 0) == 0);
        }
    }
    assert(ranks@[0] == count_true(bits, 0));
    assert(lo >= 1);
    let word_index = lo - 1;
    let base = ranks[word_index] as usize;
    let ghost w = words@[word_index as int];
    // The next word boundary counts more than `rank` bits.
    proof {
        if lo < ranks.len() {
            assert(ranks@[lo as int] > rank);
        }
        lemma_count_split(words@, word_index as int, 64);
        assert(count_true(bits, 64 * word_index + 64) > rank);
    }
    let mut remaining: usize = rank - base;
    let mut i: u64 = 0;
    while i < 64
        invariant
            i <= 64,
            bits == word_bits(words@),
            w == words@[word_index as int],
            word_index < words.len(),
            64 * words.len() <= usize::MAX,
            base == count_true(bits, 64 * word_index),
            base + count_true(word_seq(w), i as int) + remaining == rank,
            base + count_true(word_seq(w), 64) > rank,
        decreases 64 - i,
    {
        let set = test_bit(words[word_index], i);
        assert(word_seq(w)[i as int] == bit_at(w, i as int));
        if set {
            if remaining == 0 {
                proof {
                    lemma_count_split(words@, word_index as int, i as int);
                    lemma_div_mod_64(word_index as int, i as int);
                }
                return word_index * 64 + i as usize;
            }
            remaining = remaining - 1;
        }
        i = i + 1;
    }
    proof {
        assert(false);
    }
    0
}

} // verus!
