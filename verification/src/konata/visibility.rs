//! Rank/select index over the rows that are not explicitly flushed.
use vstd::prelude::*;
use crate::konata::bits;
use crate::konata::bits::{prefix_ranks, rank_of, select_of, test_bit, words_needed};
use crate::konata::flags::FlushState;

verus! {

/// Whether a row with this flush state is shown when flushed rows are hidden.
pub open spec fn shown(state: FlushState) -> bool {
    state != FlushState::True
}

/// Upper bound on the number of rows, so that counts fit the `u32` prefix counts.
pub open spec fn max_rows() -> nat {
    0xFFFF_FFC0
}

/// Rank/select bit vector containing every row that is not explicitly flushed.
#[derive(Debug, Clone, PartialEq, Eq)]
pub struct VisibilityIndex {
    words: Vec<u64>,
    ranks: Vec<u32>,
    visible: usize,
    rows: usize,
}

impl View for VisibilityIndex {
    type V = Seq<bool>;

    /// Visibility of each row.
    closed spec fn view(&self) -> Seq<bool> {
        bits::word_bits(self.words@).subrange(0, self.rows as int)
    }
}

impl VisibilityIndex {
    pub closed spec fn wf(&self) -> bool {
        &&& self.rows < max_rows()
        &&& self.words.len() == bits::words_for(self.rows as nat)
        &&& bits::ranks_match(self.words@, self.ranks@)
        &&& self.visible == bits::count_true(bits::word_bits(self.words@), 64 * self.words.len())
        &&& forall|i: int|
            self.rows <= i < 64 * self.words.len() ==> !#[trigger] bits::word_bits(self.words@)[i]
    }

    /// Number of visible rows.
    pub open spec fn visible_spec(&self) -> nat {
        bits::count_true(self@, self@.len() as int)
    }

    proof fn lemma_view(&self)
        requires
            self.wf(),
        ensures
            self@.len() == self.rows,
            forall|n: int|
                0 <= n <= self.rows ==> #[trigger] bits::count_true(self@, n) == bits::count_true(
                    bits::word_bits(self.words@),
                    n,
                ),
            self.visible == self.visible_spec(),
            forall|i: int| 0 <= i < self.rows ==> #[trigger] self@[i] == bits::word_bits(self.words@)[i],
    {
        let full = bits::word_bits(self.words@);
        assert forall|n: int| 0 <= n <= self.rows implies #[trigger] bits::count_true(self@, n)
            == bits::count_true(full, n) by {
            bits::lemma_count_true_same_prefix(self@, full, n);
        }
        lemma_padding_counts(full, self.rows as int, 64 * self.words.len());
    }

    /// Builds the index from the flush state of every row.
    pub fn from_flush_states(states: &[FlushState]) -> (index: Self)
        requires
            states.len() < max_rows(),
        ensures
            index.wf(),
            index@ == states@.map_values(|s: FlushState| shown(s)),
    {
        let n = states.len();
        let nwords = words_needed(n);
        let mut words: Vec<u64> = Vec::with_capacity(nwords);
        let mut k: usize = 0;
        while k < nwords
            invariant
                k <= nwords,
                words.len() == k,
                forall|j: int| 0 <= j < k ==> words@[j] == 0u64,
            decreases nwords - k,
        {
            words.push(0);
            k = k + 1;
        }
        proof {
            bits::lemma_zero_words(words@, 0);
        }
        let mut row: usize = 0;
        while row < n
            invariant
                n == states.len(),
                row <= n,
                words.len() == nwords,
                nwords == bits::words_for(n as nat),
                64 * nwords >= n,
                n + 64 > 64 * nwords,
                n < max_rows(),
                forall|i: int|
                    0 <= i < 64 * nwords ==> #[trigger] bits::word_bits(words@)[i] == (i < row
                        && shown(states@[i])),
            decreases n - row,
        {
            let state = states[row];
            let show = match state {
                FlushState::True => false,
                _ => true,
            };
            if show {
                let word = row / 64;
                let bit = (row % 64) as u64;
                let current = words[word];
                let updated = current | (1u64 << bit);
                proof {
                    bits::lemma_div_mod_64(word as int, bit as int);
                    bits::lemma_set_bit(current, bit);
                    bits::lemma_word_bits_update(words@, word as int, updated, bit as int);
                }
                words.set(word, updated);
            }
            row = row + 1;
        }
        let ghost full = bits::word_bits(words@);
        proof {
            lemma_padding_counts(full, n as int, 64 * nwords);
            bits::lemma_count_true_bounds(full, n as int);
        }
        let (ranks, total) = prefix_ranks(&words);
        let index = Self { words, ranks, visible: total as usize, rows: n };
        proof {
            assert(index@ =~= states@.map_values(|s: FlushState| shown(s)));
        }
        index
    }

    /// Number of visible rows.
    pub fn visible_count(&self) -> (count: usize)
        requires
            self.wf(),
        ensures
            count == self.visible_spec(),
    {
        proof {
            self.lemma_view();
        }
        self.visible
    }

    /// Whether `row` exists and is visible.
    pub fn is_visible(&self, row: usize) -> (visible: bool)
        requires
            self.wf(),
        ensures
            visible == (row < self@.len() && self@[row as int]),
    {
        proof {
            self.lemma_view();
        }
        if row < self.rows {
            let word = row / 64;
            let bit = (row % 64) as u64;
            proof {
                bits::lemma_div_mod_64(word as int, bit as int);
            }
            test_bit(self.words[word], bit)
        } else {
            false
        }
    }

    /// Number of visible rows strictly before `row` (rows past the end count as the end).
    pub fn rank(&self, row: usize) -> (rank: usize)
        requires
            self.wf(),
        ensures
            rank == bits::count_true(self@, if row < self@.len() { row as int } else { self@.len() as int }),
    {
        proof {
            self.lemma_view();
        }
        let row = if row < self.rows { row } else { self.rows };
        let word = row / 64;
        if word == self.words.len() {
            return self.visible;
        }
        rank_of(&self.words, &self.ranks, row)
    }

    /// The row of the `visible_row`-th visible row, if there are that many.
    pub fn select(&self, visible_row: usize) -> (row: Option<usize>)
        requires
            self.wf(),
        ensures
            row is None <==> visible_row >= self.visible_spec(),
            row matches Some(r) ==> r < self@.len() && self@[r as int] && bits::count_true(self@, r as int)
                == visible_row,
    {
        proof {
            self.lemma_view();
        }
        if visible_row >= self.visible {
            return None;
        }
        let r = select_of(&self.words, &self.ranks, self.visible, visible_row);
        proof {
            if r >= self.rows {
                assert(!bits::word_bits(self.words@)[r as int]);
            }
        }
        Some(r)
    }
}

/// Entries past `rows` are clear, so counts beyond `rows` equal the count at `rows`.
proof fn lemma_padding_counts(s: Seq<bool>, rows: int, n: int)
    requires
        0 <= rows <= n,
        forall|i: int| rows <= i < n ==> !#[trigger] s[i],
    ensures
        bits::count_true(s, n) == bits::count_true(s, rows),
    decreases n - rows,
{
    if n > rows {
        lemma_padding_counts(s, rows, n - 1);
    }
}

/// Select inverts rank on visible rows: two visible rows with the same rank are the same row,
/// so the row that `select(rank(r))` returns for a visible `r` is `r` itself.
pub proof fn lemma_select_inverts_rank(s: Seq<bool>, r: int, h: int)
    requires
        0 <= r < s.len(),
        0 <= h < s.len(),
        s[r],
        s[h],
        bits::count_true(s, h) == bits::count_true(s, r),
    ensures
        h == r,
{
    if h < r {
        bits::lemma_rank_injective(s, h, r);
    } else if r < h {
        bits::lemma_rank_injective(s, r, h);
    }
}

/// Rank is monotone and grows by one exactly at visible rows.
pub proof fn lemma_rank_steps(s: Seq<bool>, r: int)
    requires
        0 <= r < s.len(),
    ensures
        bits::count_true(s, r + 1) == bits::count_true(s, r) + if s[r] {
            1nat
        } else {
            0nat
        },
{
}

} // verus!
