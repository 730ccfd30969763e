//! Block range index: the begin/end envelope (smallest begin, largest end) of any range of
//! rows, answered from 64-row blocks summarised in a binary tree plus at most two partial
//! blocks scanned directly.
use vstd::prelude::*;
use crate::konata::bits::{words_for, words_needed};

verus! {

/// Rows per summarised block.
pub const RANGE_BLOCK_ROWS: usize = 64;

/// The envelope of nothing: no begin seen yet, and no end.
pub open spec fn empty_envelope() -> (u64, u64) {
    (u64::MAX, 0)
}

/// Merges two envelopes.
pub open spec fn combine(a: (u64, u64), b: (u64, u64)) -> (u64, u64) {
    (if a.0 <= b.0 { a.0 } else { b.0 }, if a.1 >= b.1 { a.1 } else { b.1 })
}

/// Smallest begin and largest end among `values[start .. end]`, starting from the empty
/// envelope.
pub open spec fn envelope(values: Seq<(u64, u64)>, start: int, end: int) -> (u64, u64)
    decreases end - start,
{
    if end <= start {
        empty_envelope()
    } else {
        combine(envelope(values, start, end - 1), values[end - 1])
    }
}

/// What a range query reports: nothing for an empty range or when no begin was below the
/// `u64::MAX` sentinel, otherwise the envelope.
pub open spec fn range_query_result(values: Seq<(u64, u64)>, start: int, end: int) -> Option<(u64, u64)> {
    if start >= end || envelope(values, start, end).0 == u64::MAX {
        None
    } else {
        Some(envelope(values, start, end))
    }
}

/// Envelopes of adjacent ranges combine into the envelope of their union.
pub proof fn lemma_envelope_split(values: Seq<(u64, u64)>, a: int, b: int, c: int)
    requires
        a <= b <= c,
    ensures
        envelope(values, a, c) == combine(envelope(values, a, b), envelope(values, b, c)),
    decreases c - b,
{
    if b < c {
        lemma_envelope_split(values, a, b, c - 1);
    }
}

/// Merges `value` into `target`.
pub fn merge_range(target: &mut (u64, u64), value: (u64, u64))
    ensures
        *final(target) == combine(*old(target), value),
{
    if value.0 < target.0 {
        target.0 = value.0;
    }
    if value.1 > target.1 {
        target.1 = value.1;
    }
}

/// `2^h`.
pub open spec fn pow2(h: nat) -> nat
    decreases h,
{
    if h == 0 {
        1
    } else {
        2 * pow2((h - 1) as nat)
    }
}

/// Summary of block `b` as stored in the tree leaves: its envelope, or the empty envelope
/// for padding leaves past the last block.
pub open spec fn block_summary(values: Seq<(u64, u64)>, block_count: int, b: int) -> (u64, u64) {
    if 0 <= b < block_count {
        let end = if 64 * b + 64 <= values.len() { 64 * b + 64 } else { values.len() as int };
        envelope(values, 64 * b, end)
    } else {
        empty_envelope()
    }
}

/// Combined summaries of blocks `a .. b`.
pub open spec fn blocks_envelope(values: Seq<(u64, u64)>, block_count: int, a: int, b: int) -> (u64, u64)
    decreases b - a,
{
    if b <= a {
        empty_envelope()
    } else {
        combine(blocks_envelope(values, block_count, a, b - 1), block_summary(values, block_count, b - 1))
    }
}

proof fn lemma_blocks_split(values: Seq<(u64, u64)>, bc: int, a: int, b: int, c: int)
    requires
        a <= b <= c,
    ensures
        blocks_envelope(values, bc, a, c) == combine(
            blocks_envelope(values, bc, a, b),
            blocks_envelope(values, bc, b, c),
        ),
    decreases c - b,
{
    if b < c {
        lemma_blocks_split(values, bc, a, b, c - 1);
    }
}

/// Whole blocks `a .. b` summarise exactly their rows.
proof fn lemma_blocks_are_rows(values: Seq<(u64, u64)>, bc: int, a: int, b: int)
    requires
        bc == words_for(values.len()),
        0 <= a <= b <= bc,
    ensures
        blocks_envelope(values, bc, a, b) == envelope(
            values,
            64 * a,
            if 64 * b <= values.len() { 64 * b } else { values.len() as int },
        ),
    decreases b - a,
{
    if a < b {
        lemma_blocks_are_rows(values, bc, a, b - 1);
        let prev_end = if 64 * (b - 1) <= values.len() { 64 * (b - 1) } else { values.len() as int };
        assert(64 * (b - 1) < values.len()) by {
            vstd::arithmetic::div_mod::lemma_fundamental_div_mod(values.len() as int, 64);
        }
        let end = if 64 * b <= values.len() { 64 * b } else { values.len() as int };
        lemma_envelope_split(values, 64 * a, 64 * (b - 1), end);
    }
}

/// Padding blocks contribute nothing.
proof fn lemma_blocks_padding(values: Seq<(u64, u64)>, bc: int, a: int, b: int)
    requires
        0 <= bc <= a,
    ensures
        blocks_envelope(values, bc, a, b) == empty_envelope(),
    decreases b - a,
{
    if a < b {
        lemma_blocks_padding(values, bc, a, b - 1);
    }
}

/// Index over 64-row blocks: a perfect binary tree of block envelopes, leaf `b` at position
/// `tree_size + b`.
pub struct BlockRangeIndex {
    block_count: usize,
    tree_size: usize,
    min_tree: Vec<u64>,
    max_tree: Vec<u64>,
    source: Ghost<Seq<(u64, u64)>>,
}

impl BlockRangeIndex {
    /// The begin/end pairs that the index was built from.
    pub closed spec fn values(&self) -> Seq<(u64, u64)> {
        self.source@
    }

    closed spec fn node(&self, i: int) -> (u64, u64) {
        (self.min_tree@[i], self.max_tree@[i])
    }

    pub closed spec fn wf(&self) -> bool {
        let size = self.tree_size as int;
        let bc = self.block_count as int;
        &&& self.source@.len() <= usize::MAX - 63
        &&& bc == words_for(self.source@.len())
        &&& exists|h: nat| pow2(h) == size
        &&& size >= 1
        &&& size >= bc
        &&& 4 * size <= usize::MAX
        &&& self.min_tree.len() == 2 * size
        &&& self.max_tree.len() == 2 * size
        &&& forall|b: int| 0 <= b < size ==> #[trigger] self.node(size + b) == block_summary(self.source@, bc, b)
        &&& forall|i: int| 1 <= i < size ==> #[trigger] self.node(i) == combine(self.node(2 * i), self.node(2 * i + 1))
    }

    /// Node `idx`, whose subtree spans `w` leaves, summarises exactly those leaves' blocks.
    proof fn lemma_node_covers(&self, idx: int, h: nat)
        requires
            self.wf(),
            idx * pow2(h) >= self.tree_size,
            (idx + 1) * pow2(h) <= 2 * self.tree_size,
        ensures
            self.node(idx) == blocks_envelope(
                self.source@,
                self.block_count as int,
                idx * pow2(h) - self.tree_size,
                (idx + 1) * pow2(h) - self.tree_size,
            ),
        decreases h,
    {
        let size = self.tree_size as int;
        let bc = self.block_count as int;
        let w = pow2(h);
        lemma_pow2_positive(h);
        if h == 0 {
            assert(idx * 1 == idx);
            assert((idx + 1) * 1 == idx + 1);
            let b = idx - size;
            assert(self.node(size + b) == block_summary(self.source@, bc, b));
            assert(blocks_envelope(self.source@, bc, b, b) == empty_envelope());
            assert(blocks_envelope(self.source@, bc, b, b + 1) == combine(
                empty_envelope(),
                block_summary(self.source@, bc, b),
            ));
            assert(combine(empty_envelope(), block_summary(self.source@, bc, b)) == block_summary(
                self.source@,
                bc,
                b,
            ));
        } else {
            let hw = pow2((h - 1) as nat);
            lemma_pow2_positive((h - 1) as nat);
            assert(w == 2 * hw);
            assert(idx * w < (idx + 1) * w) by (nonlinear_arith)
                requires
                    w > 0,
            ;
            assert(idx * 2 <= idx * w) by (nonlinear_arith)
                requires
                    w >= 2,
                    idx * w >= size,
                    size >= 1,
            ;
            assert(idx >= 1) by (nonlinear_arith)
                requires
                    idx * w >= size,
                    size >= 1,
                    w >= 1,
            ;
            assert(idx < size);
            assert((2 * idx) * hw == idx * w) by (nonlinear_arith)
                requires
                    w == 2 * hw,
            ;
            assert((2 * idx + 1) * hw == idx * w + hw) by (nonlinear_arith)
                requires
                    w == 2 * hw,
            ;
            assert((2 * idx + 2) * hw == (idx + 1) * w) by (nonlinear_arith)
                requires
                    w == 2 * hw,
            ;
            assert((idx + 1) * w == idx * w + w) by (nonlinear_arith);
            self.lemma_node_covers(2 * idx, (h - 1) as nat);
            self.lemma_node_covers(2 * idx + 1, (h - 1) as nat);
            assert(self.node(idx) == combine(self.node(2 * idx), self.node(2 * idx + 1)));
            lemma_blocks_split(self.source@, bc, idx * w - size, idx * w + hw - size, (idx + 1) * w - size);
        }
    }

    /// Builds the index over `values`.
    pub fn build(values: &[(u64, u64)]) -> (index: Self)
        requires
            values.len() <= usize::MAX - 63,
        ensures
            index.wf(),
            index.values() == values@,
    {
        let length = values.len();
        let block_count = words_needed(length);
        let target = if block_count == 0 { 1 } else { block_count };
        let mut tree_size: usize = 1;
        let ghost mut h: nat = 0;
        while tree_size < target
            invariant
                1 <= tree_size,
                target >= 1,
                tree_size < 2 * target,
                target <= usize::MAX / 64 + 1,
                pow2(h) == tree_size,
            decreases 2 * target - tree_size,
        {
            tree_size = tree_size * 2;
            proof {
                h = h + 1;
            }
        }
        let ghost vals = values@;
        let mut min_tree: Vec<u64> = Vec::with_capacity(2 * tree_size);
        let mut max_tree: Vec<u64> = Vec::with_capacity(2 * tree_size);
        let mut i: usize = 0;
        while i < 2 * tree_size
            invariant
                i <= 2 * tree_size,
                4 * tree_size <= usize::MAX,
                min_tree.len() == i,
                max_tree.len() == i,
            decreases 2 * tree_size - i,
        {
            min_tree.push(u64::MAX);
            max_tree.push(0);
            i = i + 1;
        }
        // Leaves.
        let mut block: usize = 0;
        while block < tree_size
            invariant
                block <= tree_size,
                4 * tree_size <= usize::MAX,
                tree_size >= block_count,
                block_count == words_for(length as nat),
                vals == values@,
                length == values.len(),
                length <= usize::MAX - 63,
                min_tree.len() == 2 * tree_size,
                max_tree.len() == 2 * tree_size,
                forall|b: int|
                    0 <= b < block ==> (#[trigger] min_tree@[tree_size + b], max_tree@[tree_size + b])
                        == block_summary(vals, block_count as int, b),
            decreases tree_size - block,
        {
            let mut summary: (u64, u64) = (u64::MAX, 0);
            if block < block_count {
                let start = block * RANGE_BLOCK_ROWS;
                let end = if start + RANGE_BLOCK_ROWS <= length { start + RANGE_BLOCK_ROWS } else { length };
                proof {
                    vstd::arithmetic::div_mod::lemma_fundamental_div_mod(length as int, 64);
                }
                let mut row = start;
                while row < end
                    invariant
                        start <= row <= end,
                        end <= length,
                        length == values.len(),
                        vals == values@,
                        summary == envelope(vals, start as int, row as int),
                    decreases end - row,
                {
                    merge_range(&mut summary, values[row]);
                    row = row + 1;
                }
            }
            min_tree.set(tree_size + block, summary.0);
            max_tree.set(tree_size + block, summary.1);
            block = block + 1;
        }
        // Internal nodes, children before parents.
        let mut node: usize = tree_size;
        while node > 1
            invariant
                1 <= node <= tree_size,
                4 * tree_size <= usize::MAX,
                min_tree.len() == 2 * tree_size,
                max_tree.len() == 2 * tree_size,
                forall|b: int|
                    0 <= b < tree_size ==> (#[trigger] min_tree@[tree_size + b], max_tree@[tree_size + b])
                        == block_summary(vals, block_count as int, b),
                forall|j: int|
                    node <= j < tree_size ==> (#[trigger] min_tree@[j], max_tree@[j]) == combine(
                        (min_tree@[2 * j], max_tree@[2 * j]),
                        (min_tree@[2 * j + 1], max_tree@[2 * j + 1]),
                    ),
            decreases node,
        {
            node = node - 1;
            let lo = if min_tree[2 * node] <= min_tree[2 * node + 1] { min_tree[2 * node] } else { min_tree[2 * node + 1] };
            let hi = if max_tree[2 * node] >= max_tree[2 * node + 1] { max_tree[2 * node] } else { max_tree[2 * node + 1] };
            min_tree.set(node, lo);
            max_tree.set(node, hi);
        }
        let index = Self { block_count, tree_size, min_tree, max_tree, source: Ghost(vals) };
        proof {
            assert(pow2(h) == tree_size);
            assert forall|b: int| 0 <= b < tree_size implies #[trigger] index.node(tree_size + b)
                == block_summary(vals, block_count as int, b) by {
                assert((min_tree@[tree_size + b], max_tree@[tree_size + b]) == block_summary(
                    vals,
                    block_count as int,
                    b,
                ));
            }
            assert forall|j: int| 1 <= j < tree_size implies #[trigger] index.node(j) == combine(
                index.node(2 * j),
                index.node(2 * j + 1),
            ) by {
                assert((min_tree@[j], max_tree@[j]) == combine(
                    (min_tree@[2 * j], max_tree@[2 * j]),
                    (min_tree@[2 * j + 1], max_tree@[2 * j + 1]),
                ));
            }
        }
        index
    }

    /// Envelope of whole blocks `start .. end`.
    pub fn query_blocks(&self, start: usize, end: usize) -> (result: (u64, u64))
        requires
            self.wf(),
            start < end <= words_for(self.values().len()),
        ensures
            result == envelope(
                self.values(),
                64 * start,
                if 64 * end <= self.values().len() { 64 * end } else { self.values().len() as int },
            ),
    {
        let size = self.tree_size;
        let ghost bc = self.block_count as int;
        let ghost vals = self.source@;
        let mut left = start + size;
        let mut right = end + size;
        let mut result: (u64, u64) = (u64::MAX, 0);
        let ghost mut h: nat = 0;
        let ghost mut lw: int = left as int;
        let ghost mut rw: int = right as int;
        assert(pow2(0) == 1);
        assert(left * pow2(0) == left);
        assert(right * pow2(0) == right);
        while left < right
            invariant
                self.wf(),
                size == self.tree_size,
                bc == self.block_count,
                vals == self.source@,
                start < end <= bc,
                left <= right,
                left * pow2(h) == lw,
                right * pow2(h) == rw,
                size + start <= lw <= rw <= size + end,
                result == combine(
                    blocks_envelope(vals, bc, start as int, lw - size),
                    blocks_envelope(vals, bc, rw - size, end as int),
                ),
            decreases right - left,
        {
            let ghost w = pow2(h);
            proof {
                lemma_pow2_positive(h);
            }
            if left % 2 == 1 {
                proof {
                    assert((left + 1) * w == lw + w) by (nonlinear_arith)
                        requires
                            left * w == lw,
                    ;
                    assert((left + 1) * w <= right * w) by (nonlinear_arith)
                        requires
                            left + 1 <= right,
                            w > 0,
                    ;
                    assert(left <= left * w) by (nonlinear_arith)
                        requires
                            w >= 1,
                    ;
                    self.lemma_node_covers(left as int, h);
                    lemma_blocks_split(vals, bc, start as int, lw - size, lw + w - size);
                }
                merge_range(&mut result, (self.min_tree[left], self.max_tree[left]));
                left = left + 1;
                proof {
                    lw = lw + w;
                }
            }
            if right % 2 == 1 {
                right = right - 1;
                proof {
                    assert(right * w == rw - w) by (nonlinear_arith)
                        requires
                            (right + 1) * w == rw,
                    ;
                    assert(left <= right);
                    assert(left * w <= right * w) by (nonlinear_arith)
                        requires
                            left <= right,
                            w > 0,
                    ;
                    assert(right <= right * w) by (nonlinear_arith)
                        requires
                            w >= 1,
                    ;
                    self.lemma_node_covers(right as int, h);
                    lemma_blocks_split(vals, bc, rw - w - size, rw - size, end as int);
                }
                merge_range(&mut result, (self.min_tree[right], self.max_tree[right]));
                proof {
                    rw = rw - w;
                }
            }
            proof {
                assert((left / 2) * (2 * w) == left * w) by (nonlinear_arith)
                    requires
                        left % 2 == 0,
                ;
                assert((right / 2) * (2 * w) == right * w) by (nonlinear_arith)
                    requires
                        right % 2 == 0,
                ;
                h = h + 1;
            }
            left = left / 2;
            right = right / 2;
        }
        proof {
            assert(lw == rw);
            lemma_blocks_split(vals, bc, start as int, lw - size, end as int);
            lemma_blocks_are_rows(vals, bc, start as int, end as int);
        }
        result
    }

    /// Envelope of rows `start .. end`; `None` for an empty range or when no begin was below
    /// `u64::MAX`.
    pub fn query(&self, values: &[(u64, u64)], start: usize, end: usize) -> (result: Option<(u64, u64)>)
        requires
            self.wf(),
            values@ == self.values(),
            end <= values.len(),
        ensures
            result == range_query_result(values@, start as int, end as int),
    {
        if start >= end {
            return None;
        }
        let ghost vals = values@;
        let first_full = start / RANGE_BLOCK_ROWS + if start % RANGE_BLOCK_ROWS == 0 { 0 } else { 1 };
        let last_full = end / RANGE_BLOCK_ROWS;
        let leading_end = if end <= first_full * RANGE_BLOCK_ROWS { end } else { first_full * RANGE_BLOCK_ROWS };
        let trailing_start = if start >= last_full * RANGE_BLOCK_ROWS { start } else { last_full * RANGE_BLOCK_ROWS };
        let mut result: (u64, u64) = (u64::MAX, 0);
        let mut logical = start;
        while logical < leading_end
            invariant
                start <= logical <= leading_end <= end <= values.len(),
                vals == values@,
                result == envelope(vals, start as int, logical as int),
            decreases leading_end - logical,
        {
            merge_range(&mut result, values[logical]);
            logical = logical + 1;
        }
        proof {
            vstd::arithmetic::div_mod::lemma_fundamental_div_mod(start as int, 64);
            vstd::arithmetic::div_mod::lemma_fundamental_div_mod(end as int, 64);
            vstd::arithmetic::div_mod::lemma_fundamental_div_mod(values.len() as int, 64);
        }
        let ghost before_blocks = result;
        if first_full < last_full {
            let blocks = self.query_blocks(first_full, last_full);
            proof {
                lemma_envelope_split(vals, start as int, 64 * first_full, 64 * last_full);
            }
            merge_range(&mut result, blocks);
        }
        let tail_from = if trailing_start >= leading_end { trailing_start } else { leading_end };
        let ghost covered = result;
        let ghost mid: int = if first_full < last_full { 64 * last_full } else { leading_end as int };
        assert(tail_from == mid);
        assert(covered == envelope(vals, start as int, mid));
        let mut logical = tail_from;
        while logical < end
            invariant
                tail_from <= logical <= end <= values.len(),
                vals == values@,
                start <= tail_from,
                result == combine(covered, envelope(vals, tail_from as int, logical as int)),
            decreases end - logical,
        {
            merge_range(&mut result, values[logical]);
            logical = logical + 1;
        }
        proof {
            lemma_envelope_split(vals, start as int, tail_from as int, end as int);
        }
        if result.0 != u64::MAX {
            Some(result)
        } else {
            None
        }
    }
}

proof fn lemma_pow2_positive(h: nat)
    ensures
        pow2(h) >= 1,
    decreases h,
{
    if h > 0 {
        lemma_pow2_positive((h - 1) as nat);
    }
}

} // verus!
