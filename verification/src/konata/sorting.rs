//! Ascending sorts of key tuples, through `slice::sort_unstable`.
use vstd::prelude::*;
use vstd::std_specs::cmp::OrdSpec;
use core::cmp::Ordering;

verus! {

/// Sorts with `slice::sort_unstable`: afterwards no element compares greater than a later
/// one under `Ord::cmp` (vstd's `cmp_spec`), and the elements are the same as before. Only
/// for element types whose `cmp` is that total order (which `sort_unstable` may panic
/// without).
#[verifier::external_body]
pub(crate) fn sort_unstable<T: Ord>(v: &mut Vec<T>)
    requires
        T::obeys_cmp_spec(),
    ensures
        forall|i: int, j: int|
            #![trigger final(v)@[i], final(v)@[j]]
            0 <= i < j < final(v)@.len() ==> final(v)@[i].cmp_spec(&final(v)@[j]) != Ordering::Greater,
        final(v)@.to_multiset() == old(v)@.to_multiset(),
{
    v.sort_unstable();
}

/// Tuples of `(u64, u32)` compare lexicographically.
pub proof fn lemma_pair_order(a: (u64, u32), b: (u64, u32))
    ensures
        (a.cmp_spec(&b) != Ordering::Greater) == (a.0 < b.0 || (a.0 == b.0 && a.1 <= b.1)),
{
}

/// Tuples of `(u128, u32)` compare lexicographically.
pub proof fn lemma_wide_pair_order(a: (u128, u32), b: (u128, u32))
    ensures
        (a.cmp_spec(&b) != Ordering::Greater) == (a.0 < b.0 || (a.0 == b.0 && a.1 <= b.1)),
{
}

/// Tuples of `(u32, u64, u16, u64)` compare lexicographically.
pub proof fn lemma_stage_key_order(a: (u32, u64, u16, u64), b: (u32, u64, u16, u64))
    ensures
        (a.cmp_spec(&b) != Ordering::Greater) == (a.0 < b.0 || (a.0 == b.0 && (a.1 < b.1 || (a.1 == b.1 && (a.2 < b.2 || (
        a.2 == b.2 && a.3 <= b.3)))))),
{
}

/// Tuples of `(u32, u32, u64, u32)` compare lexicographically.
pub proof fn lemma_edge_key_order(a: (u32, u32, u64, u32), b: (u32, u32, u64, u32))
    ensures
        (a.cmp_spec(&b) != Ordering::Greater) == (a.0 < b.0 || (a.0 == b.0 && (a.1 < b.1 || (a.1 == b.1 && (a.2 < b.2 || (
        a.2 == b.2 && a.3 <= b.3)))))),
{
}

/// Row numbers compare as numbers.
pub proof fn lemma_row_order(a: usize, b: usize)
    ensures
        (a.cmp_spec(&b) != Ordering::Greater) == (a <= b),
{
}

/// Sorts row numbers in ascending order.
pub fn sort_rows(v: &mut Vec<usize>)
    ensures
        forall|i: int, j: int| 0 <= i < j < final(v)@.len() ==> #[trigger] final(v)@[i] <= #[trigger] final(v)@[j],
        final(v)@.to_multiset() == old(v)@.to_multiset(),
{
    sort_unstable(v);
    proof {
        assert forall|i: int, j: int| 0 <= i < j < v@.len() implies #[trigger] v@[i] <= #[trigger] v@[j] by {
            lemma_row_order(v@[i], v@[j]);
        }
    }
}

} // verus!
