//! Append placement: records are laid out in allocation order and numbered
//! consecutively.

use vstd::prelude::*;
use vstd::bytes::*;
use crate::error::HeapError;
use crate::format::{spec_slot_state, Slot, SlotState, PAGE_SIZE_U64, SLOT_SIZE};
use crate::heap::HeapConfig;
use crate::bucket::PlacementEffect;
use crate::recovery::{lemma_tail_restore_numbers_below, tail_list, tail_state, update_list, Found};

verus! {

broadcast use vstd::slice::group_slice_axioms;

pub struct AppendPlacement {
    /// Where the next record goes in the data file.
    pub cursor: u64,
    /// The number of the next record.
    pub next_id: u64,
}

/// The state of slot `k` in a run of index bytes.
pub open spec fn slot_in(bytes: Seq<u8>, k: int) -> SlotState {
    spec_slot_state(bytes.subrange(16 * k, 16 * k + 16))
}

/// The record number after the last non-empty slot among the first `k`
/// slots of `bytes` (whose first slot is number `first_id`), or `next_id`
/// when they are all empty.
pub open spec fn scanned_next_id(bytes: Seq<u8>, first_id: int, next_id: int, k: int) -> int
    decreases k,
{
    if k <= 0 {
        next_id
    } else if slot_in(bytes, k - 1) is Empty {
        scanned_next_id(bytes, first_id, next_id, k - 1)
    } else {
        first_id + k
    }
}

/// The end of the slot's record in the data file.
pub open spec fn slot_end(state: SlotState) -> int {
    match state {
        SlotState::Live(slot) => slot.offset + slot.total_len,
        SlotState::Deleted(slot) => slot.offset + slot.total_len,
        SlotState::Empty => 0,
    }
}

/// The largest record end among the first `k` slots of `bytes`, and `max_end`.
pub open spec fn scanned_max_end(bytes: Seq<u8>, max_end: int, k: int) -> int
    decreases k,
{
    if k <= 0 {
        max_end
    } else {
        let prev = scanned_max_end(bytes, max_end, k - 1);
        if slot_end(slot_in(bytes, k - 1)) > prev {
            slot_end(slot_in(bytes, k - 1))
        } else {
            prev
        }
    }
}

/// One successful step of an append placement: a new record
/// (`is_record`) takes the cursor and the next number, which moves on by
/// one; a new version of a record takes the cursor only. The cursor moves
/// past the bytes placed.
pub open spec fn append_step(
    before: AppendPlacement,
    is_record: bool,
    total_len: u64,
    after: AppendPlacement,
    offset: u64,
    id: u64,
) -> bool {
    &&& offset == before.cursor
    &&& after.cursor == before.cursor + total_len
    &&& if is_record {
        id == before.next_id && after.next_id == before.next_id + 1
    } else {
        after.next_id == before.next_id
    }
}

/// The bytes placed by the first `k` steps.
pub open spec fn lens_sum(steps: Seq<(bool, u64)>, k: int) -> int
    decreases k,
{
    if k <= 0 {
        0
    } else {
        lens_sum(steps, k - 1) + steps[k - 1].1
    }
}

/// The new records among the first `k` steps.
pub open spec fn records_before(steps: Seq<(bool, u64)>, k: int) -> int
    decreases k,
{
    if k <= 0 {
        0
    } else {
        records_before(steps, k - 1) + if steps[k - 1].0 {
            1int
        } else {
            0int
        }
    }
}

proof fn lemma_append_states(
    states: Seq<AppendPlacement>,
    steps: Seq<(bool, u64)>,
    placed: Seq<(u64, u64)>,
    k: int,
)
    requires
        states.len() == steps.len() + 1,
        placed.len() == steps.len(),
        states[0].cursor == 4096,
        states[0].next_id == 0,
        forall|i: int|
            0 <= i < steps.len() ==> #[trigger] append_step(
                states[i],
                steps[i].0,
                steps[i].1,
                states[i + 1],
                placed[i].0,
                placed[i].1,
            ),
        0 <= k <= steps.len(),
    ensures
        states[k].cursor == 4096 + lens_sum(steps, k),
        states[k].next_id == records_before(steps, k),
    decreases k,
{
    if k > 0 {
        lemma_append_states(states, steps, placed, k - 1);
        let i = k - 1;
        assert(append_step(states[i], steps[i].0, steps[i].1, states[i + 1], placed[i].0, placed[i].1));
    }
}

/// Records are numbered in the order they are placed: starting from a new
/// placement, over any run of successful steps (new records and new
/// versions), the `i`-th step's bytes go to 4096 plus the bytes placed
/// before it, a new record gets the count of new records before it (so the
/// numbers handed out are 0, 1, 2, ...), and the cursor ends past all the
/// bytes placed.
pub proof fn lemma_append_numbers_in_order(
    states: Seq<AppendPlacement>,
    steps: Seq<(bool, u64)>,
    placed: Seq<(u64, u64)>,
)
    requires
        states.len() == steps.len() + 1,
        placed.len() == steps.len(),
        states[0].cursor == 4096,
        states[0].next_id == 0,
        forall|i: int|
            0 <= i < steps.len() ==> #[trigger] append_step(
                states[i],
                steps[i].0,
                steps[i].1,
                states[i + 1],
                placed[i].0,
                placed[i].1,
            ),
    ensures
        forall|i: int|
            0 <= i < steps.len() ==> (#[trigger] placed[i]).0 == 4096 + lens_sum(steps, i) && (
            steps[i].0 ==> placed[i].1 == records_before(steps, i)),
        states.last().cursor == 4096 + lens_sum(steps, steps.len() as int),
        states.last().next_id == records_before(steps, steps.len() as int),
{
    assert forall|i: int| 0 <= i < steps.len() implies (#[trigger] placed[i]).0 == 4096 + lens_sum(
        steps,
        i,
    ) && (steps[i].0 ==> placed[i].1 == records_before(steps, i)) by {
        lemma_append_states(states, steps, placed, i);
        assert(append_step(states[i], steps[i].0, steps[i].1, states[i + 1], placed[i].0, placed[i].1));
    }
    lemma_append_states(states, steps, placed, steps.len() as int);
}

/// A scan of index slots moves the next number past every slot in use;
/// when the scan starts at or past the next number, the next number does
/// not go back.
pub proof fn lemma_scan_passes_every_slot(bytes: Seq<u8>, first_id: int, next_id: int, k: int)
    ensures
        forall|j: int|
            0 <= j < k && !(#[trigger] slot_in(bytes, j) is Empty) ==> first_id + j < scanned_next_id(
                bytes,
                first_id,
                next_id,
                k,
            ),
        next_id <= first_id ==> next_id <= scanned_next_id(bytes, first_id, next_id, k),
    decreases k,
{
    if k > 0 {
        lemma_scan_passes_every_slot(bytes, first_id, next_id, k - 1);
    }
}

/// Record numbers are never handed out twice after a reopen: the next
/// number that reopening an append heap arrives at, from a run of index
/// slots whose first slot is number `first_id` and from the records found
/// past what the index covers, lies above every number held by a slot in
/// use and every number of a record that the tail restore restores or
/// takes as an update; scanning runs in order of their numbers, it never
/// goes back.
pub proof fn lemma_reopened_numbers_are_fresh(
    bytes: Seq<u8>,
    first_id: int,
    next_id: int,
    found: Seq<Found>,
)
    ensures
        ({
            let scanned = scanned_next_id(bytes, first_id, next_id, (bytes.len() / 16) as int);
            let fresh = tail_state(found, scanned).0;
            &&& forall|j: int|
                0 <= j < bytes.len() / 16 && !(#[trigger] slot_in(bytes, j) is Empty) ==> first_id + j
                    < fresh
            &&& forall|i: int|
                0 <= i < tail_list(found, scanned).len() ==> (#[trigger] tail_list(found, scanned)[i]).0
                    < fresh
            &&& forall|i: int|
                0 <= i < update_list(found, scanned).len() ==> (#[trigger] update_list(
                    found,
                    scanned,
                )[i]).0 < fresh
            &&& next_id <= first_id ==> next_id <= fresh
        }),
{
    let scanned = scanned_next_id(bytes, first_id, next_id, (bytes.len() / 16) as int);
    lemma_scan_passes_every_slot(bytes, first_id, next_id, (bytes.len() / 16) as int);
    lemma_tail_restore_numbers_below(found, scanned);
}

impl AppendPlacement {
    /// The placement of a newly created heap: the first record goes right
    /// after the header page and gets number 0.
    pub fn new() -> (r: Self)
        ensures
            r.cursor == 4096,
            r.next_id == 0,
    {
        AppendPlacement { cursor: PAGE_SIZE_U64, next_id: 0 }
    }

    /// Places a record of `total_len` bytes at the cursor and gives it the
    /// next record number.
    pub fn alloc_record(
        &mut self,
        config: &HeapConfig,
        bucket: u64,
        total_len: u64,
        effects: &mut Vec<PlacementEffect>,
    ) -> (res: Result<(u64, u64), HeapError>)
        ensures
            res is Ok <==> old(self).cursor + total_len <= u64::MAX && old(self).next_id < u64::MAX,
            res matches Ok((offset, id)) ==> append_step(*old(self), true, total_len, *final(self), offset, id),
            res is Ok ==> {
                &&& res == Ok::<(u64, u64), HeapError>((old(self).cursor, old(self).next_id))
                &&& final(self).cursor == old(self).cursor + total_len
                &&& final(self).next_id == old(self).next_id + 1
                &&& final(effects)@ == old(effects)@.push(
                    PlacementEffect::EnsureAlloc {
                        upto: (old(self).cursor + total_len) as u64,
                        chunk: config.growth,
                    },
                )
            },
            res is Err ==> final(self).cursor == old(self).cursor && final(self).next_id == old(
                self,
            ).next_id && final(effects)@ == old(effects)@,
    {
        let offset = self.cursor;
        if total_len > u64::MAX - offset || self.next_id == u64::MAX {
            return Err(HeapError::InvalidArg("data file offset overflow"));
        }
        effects.push(PlacementEffect::EnsureAlloc { upto: offset + total_len, chunk: config.growth });
        self.cursor += total_len;
        let id = self.next_id;
        self.next_id += 1;
        Ok((offset, id))
    }

    /// Places a new version of a record at the cursor.
    pub fn alloc_update(
        &mut self,
        config: &HeapConfig,
        bucket: u64,
        total_len: u64,
        effects: &mut Vec<PlacementEffect>,
    ) -> (res: Result<u64, HeapError>)
        ensures
            res is Ok <==> old(self).cursor + total_len <= u64::MAX,
            res matches Ok(offset) ==> append_step(*old(self), false, total_len, *final(self), offset, 0),
            res is Ok ==> {
                &&& res == Ok::<u64, HeapError>(old(self).cursor)
                &&& final(self).cursor == old(self).cursor + total_len
                &&& final(self).next_id == old(self).next_id
                &&& final(effects)@ == old(effects)@.push(
                    PlacementEffect::EnsureAlloc {
                        upto: (old(self).cursor + total_len) as u64,
                        chunk: config.growth,
                    },
                )
            },
            res is Err ==> final(self).cursor == old(self).cursor && final(self).next_id == old(
                self,
            ).next_id && final(effects)@ == old(effects)@,
    {
        let offset = self.cursor;
        if total_len > u64::MAX - offset {
            return Err(HeapError::InvalidArg("data file offset overflow"));
        }
        effects.push(PlacementEffect::EnsureAlloc { upto: offset + total_len, chunk: config.growth });
        self.cursor += total_len;
        Ok(offset)
    }

    /// Bytes taken by records since the header page.
    pub fn used_bytes(&self) -> (r: u64)
        requires
            self.cursor >= 4096,
        ensures
            r == self.cursor - 4096,
    {
        self.cursor - PAGE_SIZE_U64
    }
}

/// Scans a run of index slots whose first slot is record number
/// `first_id`: every slot that is not empty moves `next_id` past its record
/// number and `max_end` up to the end of its record in the data file.
pub fn scan_slots(bytes: &[u8], first_id: u64, next_id: &mut u64, max_end: &mut u64) -> (res: Result<
    (),
    HeapError,
>)
    requires
        first_id + bytes@.len() / 16 <= u64::MAX,
    ensures
        res is Ok ==> *final(next_id) == scanned_next_id(
            bytes@,
            first_id as int,
            *old(next_id) as int,
            (bytes@.len() / 16) as int,
        ) && *final(max_end) == scanned_max_end(bytes@, *old(max_end) as int, (bytes@.len() / 16) as int),
        res is Err <==> exists|k: int|
            0 <= k < bytes@.len() / 16 && slot_end(#[trigger] slot_in(bytes@, k)) > u64::MAX,
{
    let count = bytes.len() / SLOT_SIZE;
    let mut k: usize = 0;
    while k < count
        invariant
            count == bytes@.len() / 16,
            k <= count,
            first_id + count <= u64::MAX,
            *next_id == scanned_next_id(bytes@, first_id as int, *old(next_id) as int, k as int),
            *max_end == scanned_max_end(bytes@, *old(max_end) as int, k as int),
            forall|j: int| 0 <= j < k ==> slot_end(#[trigger] slot_in(bytes@, j)) <= u64::MAX,
        decreases count - k,
    {
        let total = bytes.len();
        assert(k * 16 + 16 <= total) by (nonlinear_arith)
            requires
                k < count,
                count == total / 16,
        ;
        let state = Slot::state(&bytes[k * SLOT_SIZE..k * SLOT_SIZE + SLOT_SIZE]);
        proof {
            assert(bytes@.subrange(k * 16, k * 16 + 16) == bytes@.subrange(16 * k, 16 * k + 16));
        }
        match state {
            SlotState::Live(slot) | SlotState::Deleted(slot) => {
                if slot.total_len > u64::MAX - slot.offset {
                    assert(slot_end(slot_in(bytes@, k as int)) > u64::MAX);
                    return Err(HeapError::Corrupt { what: "index slot", offset: 0 });
                }
                *next_id = first_id + k as u64 + 1;
                if slot.offset + slot.total_len > *max_end {
                    *max_end = slot.offset + slot.total_len;
                }
            },
            SlotState::Empty => {},
        }
        proof {
            assert(slot_end(slot_in(bytes@, k as int)) <= u64::MAX);
        }
        k += 1;
    }
    Ok(())
}

} // verus!
