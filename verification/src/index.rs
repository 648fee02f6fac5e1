//! The index file maps record numbers to record locations: one 16-byte
//! slot per record number. This module holds the bytes that are staged for
//! a slot and the planning of batched slot reads.

use vstd::prelude::*;
use crate::format::{
    page_down, slot_bytes, spec_page_down, spec_slot_file_offset, zeros, Slot, SLOT_SIZE,
    PAGE_SIZE_U64, TOMBSTONE_BIT,
};

verus! {

broadcast use vstd::slice::group_slice_axioms;

pub const SLOTS_PER_PAGE: u64 = 256;

/// The 16 bytes staged for a record's slot: the slot, or zeros that clear it.
pub fn slot_image(slot: Option<Slot>) -> (r: Vec<u8>)
    ensures
        r@ == match slot {
            Some(s) => slot_bytes(s),
            None => zeros(16),
        },
{
    let mut buffer: Vec<u8> = Vec::new();
    let mut k: usize = 0;
    while k < SLOT_SIZE
        invariant
            k <= 16,
            buffer@ == zeros(k as nat),
        decreases 16 - k,
    {
        buffer.push(0);
        k += 1;
        assert(buffer@ =~= zeros(k as nat));
    }
    if let Some(s) = slot {
        s.encode(buffer.as_mut_slice());
        proof {
            vstd::bytes::lemma_auto_spec_u64_to_from_le_bytes();
            assert(buffer@ =~= slot_bytes(s));
        }
    }
    buffer
}

/// The tombstone of a slot: the same slot with the deleted bit set.
pub open spec fn tombstone_of(old_slot: Slot) -> Slot {
    Slot { offset: old_slot.offset | TOMBSTONE_BIT, total_len: old_slot.total_len }
}

/// The 16 bytes staged when the record that `old_slot` points at is deleted.
pub fn tombstone_image(old_slot: Slot) -> (r: Vec<u8>)
    ensures
        r@ == slot_bytes(tombstone_of(old_slot)),
{
    slot_image(Some(Slot { offset: old_slot.offset | TOMBSTONE_BIT, total_len: old_slot.total_len }))
}

/// The page of the index file that holds record `id`'s slot.
pub open spec fn slot_page(id: u64) -> int {
    spec_page_down(spec_slot_file_offset(id))
}

/// The record numbers have slots within the file's address range.
pub open spec fn ids_fit(ids: Seq<u64>) -> bool {
    forall|k: int| 0 <= k < ids.len() ==> 4096 + (#[trigger] ids[k]) * 16 + 4096 <= u64::MAX
}

/// Some group covers the page that starts at `p`.
pub open spec fn covered(groups: Seq<(u64, u64)>, p: int) -> bool {
    exists|g: int| 0 <= g < groups.len() && (#[trigger] groups[g]).0 <= p < groups[g].1
}

/// Page `p` lies in group `g`.
pub open spec fn in_group(groups: Seq<(u64, u64)>, g: int, p: int) -> bool {
    0 <= g < groups.len() && groups[g].0 <= p < groups[g].1 && p % 4096 == 0
}

/// Page `p` holds the slot of one of `ids`.
pub open spec fn needed(ids: Seq<u64>, p: int) -> bool {
    exists|k: int| 0 <= k < ids.len() && slot_page(#[trigger] ids[k]) == p
}

/// Page `p` is among the first `k` of `pages`.
pub open spec fn listed(pages: Seq<u64>, k: int, p: int) -> bool {
    exists|j: int| 0 <= j < k && #[trigger] pages[j] == p
}

/// The groups read the pages that hold the slots of `ids`, and only those:
/// each group is a run of whole pages, the runs are in ascending order and
/// no two of them touch, so that every run of adjacent pages is read at once.
pub open spec fn slot_groups(ids: Seq<u64>, groups: Seq<(u64, u64)>) -> bool {
    &&& forall|g: int|
        0 <= g < groups.len() ==> (#[trigger] groups[g]).0 % 4096 == 0 && groups[g].1 % 4096 == 0
            && groups[g].0 < groups[g].1
    &&& forall|g: int| 0 <= g < groups.len() - 1 ==> (#[trigger] groups[g]).1 < groups[g + 1].0
    &&& forall|k: int| 0 <= k < ids.len() ==> #[trigger] covered(groups, slot_page(ids[k]))
    &&& forall|g: int, p: int| #[trigger] in_group(groups, g, p) ==> needed(ids, p)
}

/// Plans the reads of the slots of `ids`: the pages that hold them, in
/// ascending order and each once, joined into runs of adjacent pages.
pub fn plan_slot_reads(ids: &[u64]) -> (groups: Vec<(u64, u64)>)
    requires
        ids_fit(ids@),
    ensures
        slot_groups(ids@, groups@),
{
    let n = ids.len();
    let mut pages: Vec<u64> = Vec::new();
    let mut k: usize = 0;
    while k < n
        invariant
            k <= n,
            n == ids@.len(),
            ids_fit(ids@),
            pages@.len() == k,
            forall|j: int| 0 <= j < k ==> #[trigger] pages@[j] == slot_page(ids@[j]),
        decreases n - k,
    {
        proof {
            assert(4096 + ids@[k as int] * 16 + 4096 <= u64::MAX);
        }
        pages.push(page_down(Slot::file_offset(ids[k])));
        k += 1;
    }
    let ghost unsorted = pages@;
    crate::sort::sort_u64s(pages.as_mut_slice());
    proof {
        broadcast use vstd::seq_lib::group_to_multiset_ensures;

        assert forall|j: int| 0 <= j < pages@.len() implies #[trigger] unsorted.contains(pages@[j]) by {
            assert(pages@.contains(pages@[j]));
            assert(pages@.to_multiset().count(pages@[j]) > 0);
        }
        assert forall|j: int| 0 <= j < n implies #[trigger] pages@.contains(unsorted[j]) by {
            assert(unsorted.contains(unsorted[j]));
            assert(unsorted.to_multiset().count(unsorted[j]) > 0);
        }
    }
    let mut groups: Vec<(u64, u64)> = Vec::new();
    let mut k: usize = 0;
    while k < n
        invariant
            k <= n,
            n == ids@.len(),
            ids_fit(ids@),
            pages@.len() == n,
            unsorted.len() == n,
            forall|j: int| 0 <= j < n ==> #[trigger] unsorted[j] == slot_page(ids@[j]),
            forall|j: int| 0 <= j < n ==> #[trigger] unsorted.contains(pages@[j]),
            forall|a: int, b: int| 0 <= a <= b < n ==> pages@[a] <= pages@[b],
            k == 0 <==> groups@.len() == 0,
            groups@.len() > 0 ==> groups@.last().1 == pages@[k - 1] + 4096,
            forall|g: int|
                0 <= g < groups@.len() ==> (#[trigger] groups@[g]).0 % 4096 == 0 && groups@[g].1 % 4096
                    == 0 && groups@[g].0 < groups@[g].1,
            forall|g: int| 0 <= g < groups@.len() - 1 ==> (#[trigger] groups@[g]).1 < groups@[g + 1].0,
            forall|j: int| 0 <= j < k ==> #[trigger] covered(groups@, pages@[j] as int),
            forall|g: int, p: int| #[trigger] in_group(groups@, g, p) ==> listed(pages@, k as int, p),
        decreases n - k,
    {
        let page = pages[k];
        proof {
            assert(unsorted.contains(pages@[k as int]));
            let w = choose|w: int| 0 <= w < unsorted.len() && unsorted[w] == pages@[k as int];
            assert(unsorted[w] == slot_page(ids@[w]));
            assert(4096 + ids@[w] * 16 + 4096 <= u64::MAX);
        }
        let glen = groups.len();
        if glen > 0 && page == groups[glen - 1].1 {
            let last = groups[glen - 1];
            let ghost pre = groups@;
            groups.set(glen - 1, (last.0, last.1 + PAGE_SIZE_U64));
            proof {
                assert forall|j: int| 0 <= j < k + 1 implies #[trigger] covered(groups@, pages@[j] as int) by {
                    if j < k {
                        assert(covered(pre, pages@[j] as int));
                        let g = choose|g: int| 0 <= g < pre.len() && (#[trigger] pre[g]).0 <= (pages@[j] as int) < pre[g].1;
                        if g == glen - 1 {
                            assert(groups@[g].0 <= pages@[j] < groups@[g].1);
                        } else {
                            assert(groups@[g] == pre[g]);
                        }
                    } else {
                        assert(groups@[glen - 1].0 <= pages@[j] < groups@[glen - 1].1);
                    }
                }
                assert forall|g: int, p: int| #[trigger] in_group(groups@, g, p) implies listed(
                    pages@,
                    k + 1,
                    p,
                ) by {
                    if g == glen - 1 && p >= last.1 {
                        assert(pages@[k as int] == p);
                    } else {
                        assert(in_group(pre, g, p));
                        let j = choose|j: int| 0 <= j < k && #[trigger] pages@[j] == p;
                        assert(pages@[j] == p);
                    }
                }
            }
        } else if glen > 0 && page < groups[glen - 1].1 {
            proof {
                assert(pages@[k - 1] <= pages@[k as int]);
                assert(groups@.last().0 <= pages@[k as int]);
                assert(covered(groups@, pages@[k as int] as int));
            }
        } else {
            let ghost pre = groups@;
            groups.push((page, page + PAGE_SIZE_U64));
            proof {
                assert forall|j: int| 0 <= j < k + 1 implies #[trigger] covered(groups@, pages@[j] as int) by {
                    if j < k {
                        assert(covered(pre, pages@[j] as int));
                        let g = choose|g: int| 0 <= g < pre.len() && (#[trigger] pre[g]).0 <= (pages@[j] as int) < pre[g].1;
                        assert(groups@[g] == pre[g]);
                    } else {
                        assert(groups@[glen as int].0 <= pages@[j] < groups@[glen as int].1);
                    }
                }
                assert forall|g: int, p: int| #[trigger] in_group(groups@, g, p) implies listed(
                    pages@,
                    k + 1,
                    p,
                ) by {
                    if g == glen {
                        assert(pages@[k as int] == p);
                    } else {
                        assert(in_group(pre, g, p));
                        let j = choose|j: int| 0 <= j < k && #[trigger] pages@[j] == p;
                        assert(pages@[j] == p);
                    }
                }
            }
        }
        k += 1;
    }
    proof {
        assert forall|j: int| 0 <= j < n implies #[trigger] covered(groups@, slot_page(ids@[j])) by {
            assert(pages@.contains(unsorted[j]));
            let w = choose|w: int| 0 <= w < pages@.len() && pages@[w] == unsorted[j];
            assert(covered(groups@, pages@[w] as int));
        }
        assert forall|g: int, p: int| #[trigger] in_group(groups@, g, p) implies needed(ids@, p) by {
            let j = choose|j: int| 0 <= j < n && #[trigger] pages@[j] == p;
            assert(unsorted.contains(pages@[j]));
            let w = choose|w: int| 0 <= w < unsorted.len() && unsorted[w] == pages@[j];
            assert(slot_page(ids@[w]) == p);
        }
    }
    groups
}

/// Where record `id`'s slot lies among the bytes that `groups` read: the
/// group that holds it and the offset within that group's bytes.
pub fn locate_slot(groups: &[(u64, u64)], id: u64) -> (r: (usize, usize))
    requires
        4096 + id * 16 + 4096 <= u64::MAX,
        covered(groups@, slot_page(id)),
        forall|g: int|
            0 <= g < groups@.len() ==> (#[trigger] groups@[g]).0 % 4096 == 0 && groups@[g].1 % 4096 == 0
                && groups@[g].0 < groups@[g].1,
        forall|g: int| 0 <= g < groups@.len() - 1 ==> (#[trigger] groups@[g]).1 < groups@[g + 1].0,
        forall|g: int| 0 <= g < groups@.len() ==> (#[trigger] groups@[g]).1 - groups@[g].0 <= usize::MAX,
    ensures
        r.0 < groups@.len(),
        groups@[r.0 as int].0 <= spec_slot_file_offset(id),
        spec_slot_file_offset(id) + 16 <= groups@[r.0 as int].1,
        r.1 == spec_slot_file_offset(id) - groups@[r.0 as int].0,
{
    let slot_offset = Slot::file_offset(id);
    proof {
        assert forall|a: int, b: int| 0 <= a < b < groups@.len() implies (#[trigger] groups@[a]).1 < (
        #[trigger] groups@[b]).1 by {
            lemma_groups_ordered(groups@, a, b);
        }
    }
    let mut lo: usize = 0;
    let mut hi: usize = groups.len();
    while lo < hi
        invariant
            0 <= lo <= hi <= groups@.len(),
            forall|g: int| 0 <= g < lo ==> (#[trigger] groups@[g]).1 <= slot_offset,
            forall|g: int| hi <= g < groups@.len() ==> (#[trigger] groups@[g]).1 > slot_offset,
            forall|a: int, b: int| 0 <= a < b < groups@.len() ==> (#[trigger] groups@[a]).1 < (#[trigger] groups@[b]).1,
        decreases hi - lo,
    {
        let mid = lo + (hi - lo) / 2;
        if groups[mid].1 <= slot_offset {
            lo = mid + 1;
        } else {
            hi = mid;
        }
    }
    proof {
        let g0 = choose|g: int| 0 <= g < groups@.len() && (#[trigger] groups@[g]).0 <= slot_page(id) < groups@[g].1;
        let p = slot_page(id);
        lemma_slot_in_page(id);
        assert(groups@[g0].1 >= p + 4096);
        if lo < g0 {
            lemma_groups_ordered(groups@, lo as int, g0);
        }
        if lo > g0 {
            assert(groups@[g0].1 <= slot_offset);
        }
        assert(lo == g0);
    }
    (lo, (slot_offset - groups[lo].0) as usize)
}

/// A slot lies within one page of the index file.
proof fn lemma_slot_in_page(id: u64)
    requires
        4096 + id * 16 + 4096 <= u64::MAX,
    ensures
        slot_page(id) % 4096 == 0,
        slot_page(id) <= spec_slot_file_offset(id),
        spec_slot_file_offset(id) + 16 <= slot_page(id) + 4096,
{
    let x = (4096 + id * 16) as u64;
    assert(x % 4096 <= 4080) by (bit_vector)
        requires
            x == 4096 + id * 16,
            id < 0x1000_0000_0000_0000u64,
    ;
}

proof fn lemma_groups_ordered(groups: Seq<(u64, u64)>, a: int, b: int)
    requires
        0 <= a < b < groups.len(),
        forall|g: int| 0 <= g < groups.len() ==> (#[trigger] groups[g]).0 < groups[g].1,
        forall|g: int| 0 <= g < groups.len() - 1 ==> (#[trigger] groups[g]).1 < groups[g + 1].0,
    ensures
        groups[a].1 < groups[b].0,
    decreases b - a,
{
    if b > a + 1 {
        lemma_groups_ordered(groups, a, b - 1);
        assert(groups[b - 1].1 < groups[b].0);
    }
}

} // verus!
