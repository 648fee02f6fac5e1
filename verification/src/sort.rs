//! Sorting of record numbers, samples and keyed positions.

use vstd::prelude::*;

verus! {

/// `s` is in ascending order.
pub open spec fn ascending(s: Seq<u64>) -> bool {
    forall|i: int, j: int| 0 <= i <= j < s.len() ==> s[i] <= s[j]
}

/// `a` comes no later than `b` when pairs are ordered by their first
/// component, then by their second.
pub open spec fn pair_le(a: (u64, u64), b: (u64, u64)) -> bool {
    a.0 < b.0 || (a.0 == b.0 && a.1 <= b.1)
}

/// `s` is in ascending order of pairs.
pub open spec fn pairs_ascending(s: Seq<(u64, u64)>) -> bool {
    forall|i: int, j: int| 0 <= i <= j < s.len() ==> pair_le(#[trigger] s[i], #[trigger] s[j])
}

/// Sorts `values` in ascending order with `<[u64]>::sort_unstable`, which
/// its documentation describes as sorting the slice in ascending order
/// (equal elements in any order): the result is a reordering of the input,
/// in ascending order.
#[verifier::external_body]
pub(crate) fn sort_u64s(values: &mut [u64])
    ensures
        final(values)@.len() == old(values)@.len(),
        final(values)@.to_multiset() == old(values)@.to_multiset(),
        ascending(final(values)@),
{
    values.sort_unstable();
}

/// Sorts `values` with `<[(u64, u64)]>::sort_unstable`. Tuples compare
/// lexicographically (std's `Ord` for tuples), so the result is a reordering
/// of the input, ascending by the first component and then by the second.
#[verifier::external_body]
pub(crate) fn sort_pairs(values: &mut [(u64, u64)])
    ensures
        final(values)@.len() == old(values)@.len(),
        final(values)@.to_multiset() == old(values)@.to_multiset(),
        pairs_ascending(final(values)@),
{
    values.sort_unstable();
}

} // verus!
