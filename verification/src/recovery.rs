//! Recovery: scanning the data file for records, choosing which version of
//! each record counts, and planning the index and registry that a rebuild
//! writes.

use vstd::prelude::*;
use std::collections::HashMap;
use vstd::bytes::*;
use crate::crc32::{crc32c, spec_crc32c};
use crate::format::{
    header_len, page_down, page_up, spec_decode_record_header, spec_slot_file_offset, RecordHeader,
    RegistryRow, Slot, SlotState, RECORD_MAGIC,
};
use crate::sort::{ascending, sort_u64s};

verus! {

broadcast use vstd::std_specs::hash::group_hash_axioms, vstd::slice::group_slice_axioms;

#[derive(Debug, Default, Clone, Copy)]
pub struct WalkStats {
    pub records: u64,
    pub resyncs: u64,
    pub bad_payload: u64,
    pub last_end: u64,
}

#[derive(Debug, Default, Clone, Copy)]
pub struct RecoveryReport {
    pub rebuilt: bool,
    pub restored_slots: u64,
    pub rebuild: WalkStats,
}

/// A record found in the data file: number, offset, version, length with
/// header, bucket.
pub type Found = (u64, u64, u16, u64, u64);

/// Whether a record found in the data file at `offset` with `version`
/// replaces what the index says of its number: a deleted record stays
/// deleted, a slot that points at this very record needs nothing, a slot
/// that points elsewhere is replaced unless the record there has a version
/// at least as new (`existing_version`, when its header could be read),
/// and an empty slot is filled.
pub open spec fn spec_should_restore(
    known: SlotState,
    existing_version: Option<u16>,
    offset: u64,
    version: u16,
) -> bool {
    match known {
        SlotState::Deleted(_) => false,
        SlotState::Live(slot) => slot.offset != offset && !(existing_version matches Some(v) && v
            >= version),
        SlotState::Empty => true,
    }
}

/// A restore never moves a record back to an older version: where the
/// index points at another copy whose version is at least as new as the
/// found one, the slot is kept; only a strictly newer found copy, a copy
/// whose header could not be read, or an empty slot is restored, and a
/// deleted record or a slot that already points at the found copy never is.
pub proof fn lemma_restore_never_goes_back(
    known: SlotState,
    existing_version: Option<u16>,
    offset: u64,
    version: u16,
)
    ensures
        known is Live && existing_version is Some && existing_version.unwrap() >= version
            ==> !spec_should_restore(
            known,
            existing_version,
            offset,
            version,
        ),
        spec_should_restore(known, existing_version, offset, version) ==> (known is Empty || (
        known matches SlotState::Live(slot) && slot.offset != offset && (existing_version is None
            || existing_version.unwrap() < version))),
        known matches SlotState::Live(slot) && slot.offset != offset && existing_version is Some
            && existing_version.unwrap() < version ==> spec_should_restore(
            known,
            existing_version,
            offset,
            version,
        ),
{
}

/// Whether deciding on a found record needs the header of the record that
/// the index points at.
pub open spec fn spec_needs_existing_header(known: SlotState, offset: u64) -> bool {
    known matches SlotState::Live(slot) && slot.offset != offset
}

pub fn needs_existing_header(known: SlotState, offset: u64) -> (r: bool)
    ensures
        r == spec_needs_existing_header(known, offset),
{
    match known {
        SlotState::Live(slot) => slot.offset != offset,
        _ => false,
    }
}

pub fn should_restore(known: SlotState, existing_version: Option<u16>, offset: u64, version: u16) -> (r:
    bool)
    ensures
        r == spec_should_restore(known, existing_version, offset, version),
        known is Deleted ==> !r,
        known is Empty ==> r,
        known matches SlotState::Live(slot) && slot.offset == offset ==> !r,
        known matches SlotState::Live(slot) && slot.offset != offset ==> match existing_version {
            Some(v) => r == (v < version),
            None => r,
        },
{
    match known {
        SlotState::Deleted(_) => false,
        SlotState::Live(slot) => {
            if slot.offset == offset {
                false
            } else {
                match existing_version {
                    Some(v) => v < version,
                    None => true,
                }
            }
        },
        SlotState::Empty => true,
    }
}

/// `found[i]` is the version of its record that counts among `found`: none
/// has a newer version, and none after it has the same.
pub open spec fn is_best(found: Seq<Found>, i: int) -> bool {
    &&& 0 <= i < found.len()
    &&& forall|j: int|
        0 <= j < found.len() && (#[trigger] found[j]).0 == found[i].0 ==> found[j].2 <= found[i].2
    &&& forall|j: int|
        i < j < found.len() && (#[trigger] found[j]).0 == found[i].0 ==> found[j].2 < found[i].2
}

/// For every record number among `found`, the version that counts: a
/// later entry replaces an earlier one unless its version is older.
pub open spec fn best_map(found: Seq<Found>) -> Map<u64, Found>
    decreases found.len(),
{
    if found.len() == 0 {
        Map::empty()
    } else {
        let m = best_map(found.drop_last());
        let it = found.last();
        if m.contains_key(it.0) && it.2 < m[it.0].2 {
            m
        } else {
            m.insert(it.0, it)
        }
    }
}

/// `best` lists the versions that count, each record number once.
pub open spec fn lists_best(found: Seq<Found>, best: Seq<Found>) -> bool {
    &&& forall|a: int, b: int|
        0 <= a < b < best.len() ==> (#[trigger] best[a]).0 != (#[trigger] best[b]).0
    &&& forall|a: int|
        0 <= a < best.len() ==> best_map(found).contains_key((#[trigger] best[a]).0) && best_map(
            found,
        )[best[a].0] == best[a]
    &&& forall|x: u64|
        #[trigger] best_map(found).contains_key(x) ==> exists|a: int|
            0 <= a < best.len() && #[trigger] best[a].0 == x
}

/// The version of each record that counts: the newest, and among equally
/// new ones the last found.
pub fn best_versions(found: &[Found]) -> (best: Vec<Found>)
    ensures
        lists_best(found@, best@),
{
    let mut best: Vec<Found> = Vec::new();
    let mut position: HashMap<u64, usize> = HashMap::new();
    let mut k: usize = 0;
    while k < found.len()
        invariant
            k <= found@.len(),
            forall|a: int, b: int|
                0 <= a < b < best@.len() ==> (#[trigger] best@[a]).0 != (#[trigger] best@[b]).0,
            forall|a: int|
                0 <= a < best@.len() ==> position@.contains_key((#[trigger] best@[a]).0)
                    && position@[best@[a].0] == a && best_map(found@.take(k as int))[best@[a].0]
                    == best@[a],
            forall|x: u64| #[trigger]
                position@.contains_key(x) ==> (position@[x] as int) < best@.len()
                    && best@[position@[x] as int].0 == x,
            forall|x: u64|
                #[trigger] best_map(found@.take(k as int)).contains_key(x) <==> position@.contains_key(x),
        decreases found@.len() - k,
    {
        let item = found[k];
        let ghost pre = found@.take(k as int);
        let ghost post = found@.take(k as int + 1);
        proof {
            assert(post.drop_last() =~= pre);
            assert(post.last() == item);
        }
        let ghost m = best_map(pre);
        match position.get(&item.0) {
            Some(found_at) => {
                let a = *found_at;
                let entry = best[a];
                if item.2 >= entry.2 {
                    best.set(a, item);
                }
                proof {
                    assert(best_map(post) == (if item.2 < m[item.0].2 { m } else { m.insert(item.0, item) }));
                }
            },
            None => {
                let a = best.len();
                best.push(item);
                position.insert(item.0, a);
                proof {
                    assert(best_map(post) == m.insert(item.0, item));
                }
            },
        }
        k += 1;
    }
    proof {
        assert(found@.take(k as int) =~= found@);
        assert forall|x: u64| #[trigger] best_map(found@).contains_key(x) implies exists|a: int|
            0 <= a < best@.len() && #[trigger] best@[a].0 == x by {
            assert(best@[position@[x] as int].0 == x);
        }
    }
    best
}

/// The version that counts is found, has no newer version, and no later
/// entry has the same version.
pub proof fn lemma_best_is_newest(found: Seq<Found>, x: u64)
    requires
        best_map(found).contains_key(x),
    ensures
        exists|i: int| is_best(found, i) && found[i] == best_map(found)[x],
    decreases found.len(),
{
    let pre = found.drop_last();
    let n = found.len() - 1;
    let it = found.last();
    assert(found[n] == it);
    assert forall|i: int| 0 <= i < n implies #[trigger] found[i] == pre[i] by {}
    let m = best_map(pre);
    if m.contains_key(x) {
        lemma_best_values(pre, x);
    }
    if it.0 == x && !(m.contains_key(x) && it.2 < m[x].2) {
        // the last entry counts
        if m.contains_key(x) {
            lemma_best_is_newest(pre, x);
            let i0 = choose|i: int| is_best(pre, i) && pre[i] == m[x];
            assert forall|j: int| 0 <= j < found.len() && (#[trigger] found[j]).0 == x implies found[j].2
                <= it.2 by {
                if j < n {
                    assert(pre[j].2 <= pre[i0].2);
                }
            }
        } else {
            assert forall|j: int| 0 <= j < n implies (#[trigger] found[j]).0 != x by {
                lemma_best_keys(pre, j);
            }
        }
        assert(is_best(found, n));
    } else {
        lemma_best_is_newest(pre, x);
        let i0 = choose|i: int| is_best(pre, i) && pre[i] == m[x];
        assert(is_best(found, i0));
    }
}

proof fn lemma_best_values(found: Seq<Found>, x: u64)
    requires
        best_map(found).contains_key(x),
    ensures
        best_map(found)[x].0 == x,
    decreases found.len(),
{
    if found.len() > 0 {
        let m = best_map(found.drop_last());
        if m.contains_key(x) {
            lemma_best_values(found.drop_last(), x);
        }
    }
}

proof fn lemma_best_keys(found: Seq<Found>, j: int)
    requires
        0 <= j < found.len(),
    ensures
        best_map(found).contains_key(found[j].0),
    decreases found.len(),
{
    let pre = found.drop_last();
    if j < found.len() - 1 {
        lemma_best_keys(pre, j);
        assert(pre[j] == found[j]);
    }
}

/// After the found records, in order: the next record number of a
/// contiguous tail that starts at `next_id`, and whether the tail ended at a
/// record numbered past it.
pub open spec fn tail_state(found: Seq<Found>, next_id: int) -> (int, bool)
    decreases found.len(),
{
    if found.len() == 0 {
        (next_id, false)
    } else {
        let (n, stopped) = tail_state(found.drop_last(), next_id);
        let it = found.last();
        if stopped {
            (n, true)
        } else if it.0 == n {
            (n + 1, false)
        } else if it.0 < n {
            (n, false)
        } else {
            (n, true)
        }
    }
}

/// The found records that extend the contiguous tail of record numbers.
pub open spec fn tail_list(found: Seq<Found>, next_id: int) -> Seq<Found>
    decreases found.len(),
{
    if found.len() == 0 {
        Seq::empty()
    } else {
        let prev = tail_list(found.drop_last(), next_id);
        let (n, stopped) = tail_state(found.drop_last(), next_id);
        if !stopped && found.last().0 == n {
            prev.push(found.last())
        } else {
            prev
        }
    }
}

/// The found records, before the tail ends, that are newer versions of
/// records already numbered.
pub open spec fn update_list(found: Seq<Found>, next_id: int) -> Seq<Found>
    decreases found.len(),
{
    if found.len() == 0 {
        Seq::empty()
    } else {
        let prev = update_list(found.drop_last(), next_id);
        let (n, stopped) = tail_state(found.drop_last(), next_id);
        if !stopped && found.last().0 < n {
            prev.push(found.last())
        } else {
            prev
        }
    }
}

/// The number after a restored tail is at least the number the tail
/// started from, and above the number of every record the plan restores or
/// takes as an update.
pub proof fn lemma_tail_restore_numbers_below(found: Seq<Found>, next_id: int)
    ensures
        tail_state(found, next_id).0 >= next_id,
        forall|i: int|
            0 <= i < tail_list(found, next_id).len() ==> (#[trigger] tail_list(found, next_id)[i]).0
                < tail_state(found, next_id).0,
        forall|i: int|
            0 <= i < update_list(found, next_id).len() ==> (#[trigger] update_list(found, next_id)[i]).0
                < tail_state(found, next_id).0,
    decreases found.len(),
{
    if found.len() > 0 {
        let pre = found.drop_last();
        lemma_tail_restore_numbers_below(pre, next_id);
        let t = tail_list(pre, next_id);
        let u = update_list(pre, next_id);
        assert forall|i: int| 0 <= i < tail_list(found, next_id).len() implies (
        #[trigger] tail_list(found, next_id)[i]).0 < tail_state(found, next_id).0 by {
            if i < t.len() {
                assert(tail_list(found, next_id)[i] == t[i]);
            }
        }
        assert forall|i: int| 0 <= i < update_list(found, next_id).len() implies (
        #[trigger] update_list(found, next_id)[i]).0 < tail_state(found, next_id).0 by {
            if i < u.len() {
                assert(update_list(found, next_id)[i] == u[i]);
            }
        }
    }
}

/// Plans the recovery of records found past the end of what the index
/// covers: only a contiguous tail of record numbers is restored as new
/// records; records with smaller numbers are candidates for updates (the
/// version that counts of each); the scan stops at the first record whose
/// number would leave a gap.
pub fn plan_tail_restore(found: &[Found], next_id: u64) -> (r: (Vec<Found>, Vec<Found>, u64))
    requires
        next_id + found@.len() <= u64::MAX,
    ensures
        r.0@ == tail_list(found@, next_id as int),
        lists_best(update_list(found@, next_id as int), r.1@),
        r.2 == tail_state(found@, next_id as int).0,
{
    let mut tail: Vec<Found> = Vec::new();
    let mut candidates: Vec<Found> = Vec::new();
    let mut next = next_id;
    let mut k: usize = 0;
    let mut stopped = false;
    while k < found.len()
        invariant
            k <= found@.len(),
            next_id + found@.len() <= u64::MAX,
            next <= next_id + k,
            (next as int, stopped) == tail_state(found@.take(k as int), next_id as int),
            tail@ == tail_list(found@.take(k as int), next_id as int),
            candidates@ == update_list(found@.take(k as int), next_id as int),
        decreases found@.len() - k,
    {
        let item = found[k];
        let ghost pre = found@.take(k as int);
        proof {
            assert(found@.take(k as int + 1).drop_last() =~= pre);
            assert(found@.take(k as int + 1).last() == item);
        }
        if !stopped {
            if item.0 == next {
                tail.push(item);
                next += 1;
            } else if item.0 < next {
                candidates.push(item);
            } else {
                stopped = true;
            }
        }
        k += 1;
    }
    proof {
        assert(found@.take(k as int) =~= found@);
    }
    let updates = best_versions(candidates.as_slice());
    (tail, updates, next)
}

/// How much a walk reads at a time.
pub const RECOVERY_SCAN_CHUNK_SIZE: u64 = 0x10_0000;

/// The record header that starts `rel` bytes into `content`, if its header
/// checks out and the record ends by `end_rel`.
pub open spec fn header_at(content: Seq<u8>, rel: int, end_rel: int, with_bucket: bool) -> Option<
    RecordHeader,
> {
    let n = header_len(with_bucket) as int;
    match spec_decode_record_header(content.subrange(rel, rel + n), with_bucket) {
        Some(h) => if rel + n + h.len <= end_rel {
            Some(h)
        } else {
            None
        },
        None => None,
    }
}

/// The record magic number starts `rel` bytes into `content`.
pub open spec fn magic_at(content: Seq<u8>, rel: int) -> bool {
    0 <= rel && rel + 4 <= content.len() && content.subrange(rel, rel + 4) == spec_u32_to_le_bytes(
        RECORD_MAGIC,
    )
}

/// Whether the payload of a record passes the integrity check.
pub open spec fn payload_ok(content: Seq<u8>, rel: int, h: RecordHeader, integrity: bool, with_bucket: bool) -> bool {
    let n = header_len(with_bucket) as int;
    !integrity || spec_crc32c(content.subrange(rel + n, rel + n + h.len)) == h.crc
}

/// What the walk does next.
#[derive(Debug, Clone, Copy, PartialEq, Eq, Structural)]
pub enum WalkStep {
    /// Feed the `len` bytes of the data file at `offset`.
    Read { offset: u64, len: u64 },
    /// A record at `offset`; say with `advance` whether to go on.
    Record { offset: u64, header: RecordHeader, payload_valid: bool },
    /// No record starts at `from`; the next record magic number is at `to`.
    Resync { from: u64, to: u64 },
    /// The walk is over.
    Done,
}

/// A walk over the records of a data file from `start_offset` to
/// `end_offset`, fed with the file's bytes as it asks for them.
pub struct Walker {
    pub with_bucket: bool,
    pub integrity: bool,
    pub allow_resync: bool,
    pub start_offset: u64,
    pub end_offset: u64,
    /// Where the walk stands: the record that is looked at, or the position
    /// whose header was bad while a search for the next magic number runs.
    pub position: u64,
    pub searching: bool,
    /// While searching: the next position to look at for the magic number.
    pub search_offset: u64,
    /// A record was handed out and waits for `advance`.
    pub awaiting: bool,
    pub record_len: u64,
    /// A read was asked for and waits for `feed`.
    pub expected: u64,
    pub finished: bool,
    pub stopped_by_visitor: bool,
    pub buffer: Vec<u8>,
    pub buffer_start: u64,
    pub stats: WalkStats,
    /// The bytes fed so far, from `start_offset` on.
    pub content: Ghost<Seq<u8>>,
}

impl Walker {
    pub open spec fn buffer_end(&self) -> int {
        self.start_offset + self.content@.len()
    }

    pub open spec fn hlen(&self) -> int {
        header_len(self.with_bucket) as int
    }

    /// The position relative to the start of the content.
    pub open spec fn rel(&self, abs: int) -> int {
        abs - self.start_offset
    }

    pub open spec fn wf(&self) -> bool {
        &&& self.start_offset <= self.buffer_start <= self.buffer_end() <= self.end_offset
        &&& self.buffer@ == self.content@.subrange(
            self.buffer_start - self.start_offset,
            self.content@.len() as int,
        )
        &&& self.start_offset <= self.position <= self.end_offset
        &&& self.stats.records + self.stats.resyncs <= self.position - self.start_offset + (if self.awaiting {
            1int
        } else {
            0int
        })
        &&& self.stats.bad_payload <= self.stats.records
        &&& self.stats.last_end <= self.position
        &&& !self.searching ==> self.buffer_start <= self.position <= self.buffer_end()
        &&& self.searching ==> {
            &&& self.allow_resync
            &&& self.position < self.search_offset
            &&& self.buffer_start <= self.search_offset
            &&& self.search_offset + 3 <= self.buffer_end()
            &&& header_at(
                self.content@,
                self.rel(self.position as int),
                self.rel(self.end_offset as int),
                self.with_bucket,
            ) is None
            &&& self.position + self.hlen() <= self.buffer_end()
            &&& forall|r: int|
                self.position - self.start_offset < r < self.search_offset - self.start_offset
                    ==> !#[trigger] magic_at(self.content@, r)
        }
        &&& self.awaiting ==> {
            &&& !self.searching
            &&& header_at(
                self.content@,
                self.rel(self.position as int),
                self.rel(self.end_offset as int),
                self.with_bucket,
            ) matches Some(h) && self.record_len == self.hlen() + h.len
            &&& self.position + self.record_len <= self.buffer_end()
        }
        &&& self.expected > 0 ==> self.buffer_end() + self.expected <= self.end_offset
        &&& self.awaiting ==> self.expected == 0
    }

    /// A walk from `start_offset` to `end_offset`.
    pub fn new(
        with_bucket: bool,
        integrity: bool,
        allow_resync: bool,
        start_offset: u64,
        end_offset: u64,
    ) -> (w: Walker)
        requires
            start_offset <= end_offset,
        ensures
            w.wf(),
            w.position == start_offset,
            w.content@ == Seq::<u8>::empty(),
            !w.finished && !w.awaiting && !w.searching && w.expected == 0,
            w.stats == (WalkStats { records: 0, resyncs: 0, bad_payload: 0, last_end: start_offset }),
            w.with_bucket == with_bucket && w.integrity == integrity && w.allow_resync
                == allow_resync,
            w.start_offset == start_offset && w.end_offset == end_offset,
    {
        let w = Walker {
            with_bucket,
            integrity,
            allow_resync,
            start_offset,
            end_offset,
            position: start_offset,
            searching: false,
            search_offset: 0,
            awaiting: false,
            record_len: 0,
            expected: 0,
            finished: false,
            stopped_by_visitor: false,
            buffer: Vec::new(),
            buffer_start: start_offset,
            stats: WalkStats { records: 0, resyncs: 0, bad_payload: 0, last_end: start_offset },
            content: Ghost(Seq::empty()),
        };
        assert(w.buffer@ =~= w.content@.subrange(0, 0));
        w
    }
}

impl Walker {
    /// Hands the walk the bytes it asked for.
    pub fn feed(&mut self, bytes: &[u8])
        requires
            old(self).wf(),
            old(self).expected > 0,
            bytes@.len() == old(self).expected,
        ensures
            final(self).wf(),
            final(self).content@ == old(self).content@ + bytes@,
            final(self).expected == 0,
            final(self).position == old(self).position,
            final(self).searching == old(self).searching,
            final(self).search_offset == old(self).search_offset,
            final(self).awaiting == old(self).awaiting,
            final(self).finished == old(self).finished,
            final(self).stats == old(self).stats,
            final(self).start_offset == old(self).start_offset,
            final(self).end_offset == old(self).end_offset,
            final(self).with_bucket == old(self).with_bucket,
            final(self).integrity == old(self).integrity,
            final(self).allow_resync == old(self).allow_resync,
    {
        let ghost c0 = self.content@;
        self.buffer.extend_from_slice(bytes);
        self.content = Ghost(c0 + bytes@);
        self.expected = 0;
        proof {
            let c = self.content@;
            assert(self.buffer@ =~= c.subrange(self.buffer_start - self.start_offset, c.len() as int));
            if self.searching || self.awaiting {
                lemma_content_grows(c0, bytes@, self.start_offset as int, self.end_offset as int, self.position as int, self.with_bucket);
            }
            if self.awaiting {
                assert(self.position + self.record_len <= self.buffer_end());
            }
            if self.searching {
                assert forall|r: int| self.position - self.start_offset < r < self.search_offset - self.start_offset implies !#[trigger] magic_at(
                    c,
                    r,
                ) by {
                    assert(!magic_at(c0, r));
                    if 0 <= r && r + 4 <= c0.len() {
                        assert(c.subrange(r, r + 4) =~= c0.subrange(r, r + 4));
                    }
                }
            }
        }
    }

    /// After a record: go on (`continue_walk`) past it, or end the walk.
    pub fn advance(&mut self, continue_walk: bool)
        requires
            old(self).wf(),
            old(self).awaiting,
        ensures
            final(self).wf(),
            final(self).position == old(self).position + old(self).record_len,
            final(self).stats == (WalkStats { last_end: final(self).position, ..old(self).stats }),
            !final(self).awaiting,
            final(self).finished == (old(self).finished || !continue_walk),
            final(self).stopped_by_visitor == (old(self).stopped_by_visitor || !continue_walk),
            final(self).content@ == old(self).content@,
            final(self).expected == old(self).expected,
            !final(self).searching,
            final(self).start_offset == old(self).start_offset,
            final(self).end_offset == old(self).end_offset,
            final(self).with_bucket == old(self).with_bucket,
            final(self).integrity == old(self).integrity,
            final(self).allow_resync == old(self).allow_resync,
    {
        proof {
            assert(self.hlen() >= 30);
        }
        self.position = self.position + self.record_len;
        self.stats.last_end = self.position;
        self.awaiting = false;
        if !continue_walk {
            self.finished = true;
            self.stopped_by_visitor = true;
        }
    }

    /// The statistics of the walk so far.
    pub fn stats(&self) -> (r: WalkStats)
        ensures
            r == self.stats,
    {
        self.stats
    }

    /// Asks for the next chunk of the file after the bytes fed so far.
    fn request_read(&mut self) -> (r: WalkStep)
        requires
            old(self).wf(),
            old(self).expected == 0,
            !old(self).awaiting,
            old(self).buffer_end() < old(self).end_offset,
        ensures
            final(self).wf(),
            r == (WalkStep::Read {
                offset: old(self).buffer_end() as u64,
                len: final(self).expected,
            }),
            final(self).expected > 0,
            final(self).expected == if old(self).end_offset - old(self).buffer_end() < 0x10_0000 {
                old(self).end_offset - old(self).buffer_end()
            } else {
                0x10_0000
            },
            final(self).content@ == old(self).content@,
            final(self).position == old(self).position,
            final(self).searching == old(self).searching,
            final(self).search_offset == old(self).search_offset,
            final(self).finished == old(self).finished,
            final(self).awaiting == old(self).awaiting,
            final(self).stats == old(self).stats,
            final(self).start_offset == old(self).start_offset,
            final(self).end_offset == old(self).end_offset,
            final(self).with_bucket == old(self).with_bucket,
            final(self).integrity == old(self).integrity,
            final(self).allow_resync == old(self).allow_resync,
    {
        assert(self.buffer@.len() == self.content@.len() - (self.buffer_start - self.start_offset));
        let read_offset = self.buffer_start + self.buffer.len() as u64;
        let remaining = self.end_offset - read_offset;
        let read_len = if remaining < RECOVERY_SCAN_CHUNK_SIZE {
            remaining
        } else {
            RECOVERY_SCAN_CHUNK_SIZE
        };
        self.expected = read_len;
        assert(self.expected > 0 ==> self.buffer_end() + self.expected <= self.end_offset);
        assert(self.start_offset <= self.buffer_start <= self.buffer_end() <= self.end_offset);
        WalkStep::Read { offset: read_offset, len: read_len }
    }
}

impl Walker {
    /// The next thing the walk does: ask for bytes, hand out a record, skip
    /// a bad stretch to the next magic number (when resynchronizing is
    /// allowed), or end.
    pub fn step(&mut self) -> (r: WalkStep)
        requires
            old(self).wf(),
            !old(self).awaiting,
            old(self).expected == 0,
        ensures
            final(self).wf(),
            final(self).content@ == old(self).content@,
            final(self).start_offset == old(self).start_offset,
            final(self).end_offset == old(self).end_offset,
            final(self).with_bucket == old(self).with_bucket,
            final(self).integrity == old(self).integrity,
            final(self).allow_resync == old(self).allow_resync,
            match r {
                WalkStep::Read { offset, len } => {
                    &&& offset == old(self).buffer_end()
                    &&& len == final(self).expected
                    &&& len > 0
                    &&& offset + len <= old(self).end_offset
                    &&& len == if old(self).end_offset - offset < 0x10_0000 {
                        old(self).end_offset - offset
                    } else {
                        0x10_0000
                    }
                    &&& final(self).position == old(self).position
                    &&& !final(self).finished
                    &&& !final(self).awaiting
                    &&& final(self).stats == old(self).stats
                },
                WalkStep::Record { offset, header, payload_valid } => {
                    &&& offset == old(self).position
                    &&& offset == final(self).position
                    &&& !old(self).searching
                    &&& !old(self).finished
                    &&& header_at(
                        final(self).content@,
                        offset - old(self).start_offset,
                        old(self).end_offset - old(self).start_offset,
                        old(self).with_bucket,
                    ) == Some(header)
                    &&& payload_valid == payload_ok(
                        final(self).content@,
                        offset - old(self).start_offset,
                        header,
                        old(self).integrity,
                        old(self).with_bucket,
                    )
                    &&& final(self).awaiting
                    &&& final(self).record_len == header_len(old(self).with_bucket) + header.len
                    &&& final(self).stats == (WalkStats {
                        records: (old(self).stats.records + 1) as u64,
                        bad_payload: (old(self).stats.bad_payload + if payload_valid {
                            0int
                        } else {
                            1int
                        }) as u64,
                        ..old(self).stats
                    })
                },
                WalkStep::Resync { from, to } => {
                    &&& old(self).allow_resync
                    &&& !old(self).finished
                    &&& from == old(self).position
                    &&& to == final(self).position
                    &&& from < to
                    &&& !final(self).searching
                    &&& !final(self).finished
                    &&& header_at(
                        final(self).content@,
                        from - old(self).start_offset,
                        old(self).end_offset - old(self).start_offset,
                        old(self).with_bucket,
                    ) is None
                    &&& magic_at(final(self).content@, to - old(self).start_offset)
                    &&& forall|q: int|
                        from - old(self).start_offset < q < to - old(self).start_offset ==> !#[trigger] magic_at(
                            final(self).content@,
                            q,
                        )
                    &&& final(self).stats == (WalkStats {
                        resyncs: (old(self).stats.resyncs + 1) as u64,
                        ..old(self).stats
                    })
                },
                WalkStep::Done => {
                    &&& final(self).finished
                    &&& final(self).stats == old(self).stats
                    &&& final(self).position == old(self).position
                    &&& (old(self).finished || final(self).position + header_len(old(self).with_bucket)
                        > old(self).end_offset || (header_at(
                        final(self).content@,
                        final(self).position - old(self).start_offset,
                        old(self).end_offset - old(self).start_offset,
                        old(self).with_bucket,
                    ) is None && (!old(self).allow_resync || forall|q: int|
                        final(self).position - old(self).start_offset < q ==> !#[trigger] magic_at(
                            final(self).content@,
                            q,
                        ))))
                },
            },
    {
        if self.finished {
            return WalkStep::Done;
        }
        self.compact();
        if !self.searching {
            match self.look_at_position() {
                Some(r) => {
                    return r;
                },
                None => {},
            }
        }
        self.search_magic()
    }

    /// Looks at the record at the current position: asks for its bytes,
    /// hands it out, ends the walk, or (bad header, resynchronizing allowed)
    /// starts a search for the next magic number and gives `None`.
    #[verifier::rlimit(50)]
    fn look_at_position(&mut self) -> (r: Option<WalkStep>)
        requires
            old(self).wf(),
            !old(self).awaiting,
            !old(self).searching,
            !old(self).finished,
            old(self).expected == 0,
        ensures
            final(self).wf(),
            final(self).content@ == old(self).content@,
            final(self).start_offset == old(self).start_offset,
            final(self).end_offset == old(self).end_offset,
            final(self).with_bucket == old(self).with_bucket,
            final(self).integrity == old(self).integrity,
            final(self).allow_resync == old(self).allow_resync,
            final(self).position == old(self).position,
            r is None ==> {
                &&& final(self).searching
                &&& final(self).search_offset == old(self).position + 1
                &&& !final(self).finished
                &&& !final(self).awaiting
                &&& final(self).expected == 0
                &&& final(self).stats == old(self).stats
            },
            r matches Some(step) ==> match step {
                WalkStep::Read { offset, len } => {
                    &&& offset == old(self).buffer_end()
                    &&& len == final(self).expected
                    &&& len > 0
                    &&& offset + len <= old(self).end_offset
                    &&& len == if old(self).end_offset - offset < 0x10_0000 {
                        old(self).end_offset - offset
                    } else {
                        0x10_0000
                    }
                    &&& !final(self).finished
                    &&& !final(self).awaiting
                    &&& final(self).stats == old(self).stats
                },
                WalkStep::Record { offset, header, payload_valid } => {
                    &&& offset == old(self).position
                    &&& header_at(
                        final(self).content@,
                        offset - old(self).start_offset,
                        old(self).end_offset - old(self).start_offset,
                        old(self).with_bucket,
                    ) == Some(header)
                    &&& payload_valid == payload_ok(
                        final(self).content@,
                        offset - old(self).start_offset,
                        header,
                        old(self).integrity,
                        old(self).with_bucket,
                    )
                    &&& final(self).awaiting
                    &&& final(self).record_len == header_len(old(self).with_bucket) + header.len
                    &&& final(self).stats == (WalkStats {
                        records: (old(self).stats.records + 1) as u64,
                        bad_payload: (old(self).stats.bad_payload + if payload_valid {
                            0int
                        } else {
                            1int
                        }) as u64,
                        ..old(self).stats
                    })
                },
                WalkStep::Resync { .. } => false,
                WalkStep::Done => {
                    &&& final(self).finished
                    &&& final(self).stats == old(self).stats
                    &&& (final(self).position + header_len(old(self).with_bucket)
                        > old(self).end_offset || (header_at(
                        final(self).content@,
                        final(self).position - old(self).start_offset,
                        old(self).end_offset - old(self).start_offset,
                        old(self).with_bucket,
                    ) is None && !old(self).allow_resync))
                },
            },
    {
        let hs = header_len(self.with_bucket) as u64;
        let buffer_end = self.buffer_start + self.buffer.len() as u64;
        proof {
            assert(self.buffer@.len() == self.content@.len() - (self.buffer_start - self.start_offset));
        }
        if hs > self.end_offset - self.position {
            self.finished = true;
            return Some(WalkStep::Done);
        }
        if buffer_end - self.position < hs {
            return Some(self.request_read());
        }
        let idx = (self.position - self.buffer_start) as usize;
        let header = RecordHeader::decode(&self.buffer[idx..idx + hs as usize], self.with_bucket);
        proof {
            let rel = self.position - self.start_offset;
            assert(self.buffer@.subrange(idx as int, idx + hs) =~= self.content@.subrange(rel, rel + hs));
        }
        let fits = match header {
            Some(h) => h.len <= self.end_offset - self.position - hs,
            None => false,
        };
        if fits {
            let h = header.unwrap();
            let total = hs + h.len;
            if buffer_end - self.position < total {
                return Some(self.request_read());
            }
            let start = idx + hs as usize;
            let stop = idx + total as usize;
            let valid = !self.integrity || crc32c(&self.buffer[start..stop]) == h.crc;
            proof {
                let rel = self.position - self.start_offset;
                assert(self.buffer@.subrange(start as int, stop as int) =~= self.content@.subrange(
                    rel + hs,
                    rel + hs + h.len,
                ));
            }
            self.stats.records = self.stats.records + 1;
            if !valid {
                self.stats.bad_payload = self.stats.bad_payload + 1;
            }
            self.awaiting = true;
            self.record_len = total;
            return Some(WalkStep::Record { offset: self.position, header: h, payload_valid: valid });
        }
        if !self.allow_resync {
            self.finished = true;
            return Some(WalkStep::Done);
        }
        self.searching = true;
        self.search_offset = self.position + 1;
        None
    }

    /// Searches for the next record magic number after a bad header.
    fn search_magic(&mut self) -> (r: WalkStep)
        requires
            old(self).wf(),
            old(self).searching,
            !old(self).awaiting,
            !old(self).finished,
            old(self).expected == 0,
        ensures
            final(self).wf(),
            final(self).content@ == old(self).content@,
            final(self).start_offset == old(self).start_offset,
            final(self).end_offset == old(self).end_offset,
            final(self).with_bucket == old(self).with_bucket,
            final(self).integrity == old(self).integrity,
            final(self).allow_resync == old(self).allow_resync,
            match r {
                WalkStep::Read { offset, len } => {
                    &&& offset == old(self).buffer_end()
                    &&& len == final(self).expected
                    &&& len > 0
                    &&& offset + len <= old(self).end_offset
                    &&& len == if old(self).end_offset - offset < 0x10_0000 {
                        old(self).end_offset - offset
                    } else {
                        0x10_0000
                    }
                    &&& final(self).position == old(self).position
                    &&& !final(self).finished
                    &&& !final(self).awaiting
                    &&& final(self).stats == old(self).stats
                },
                WalkStep::Record { .. } => false,
                WalkStep::Resync { from, to } => {
                    &&& from == old(self).position
                    &&& to == final(self).position
                    &&& from < to
                    &&& !final(self).searching
                    &&& !final(self).finished
                    &&& magic_at(final(self).content@, to - old(self).start_offset)
                    &&& forall|q: int|
                        from - old(self).start_offset < q < to - old(self).start_offset ==> !#[trigger] magic_at(
                            final(self).content@,
                            q,
                        )
                    &&& final(self).stats == (WalkStats {
                        resyncs: (old(self).stats.resyncs + 1) as u64,
                        ..old(self).stats
                    })
                },
                WalkStep::Done => {
                    &&& final(self).finished
                    &&& final(self).stats == old(self).stats
                    &&& final(self).position == old(self).position
                    &&& forall|q: int|
                        final(self).position - old(self).start_offset < q ==> !#[trigger] magic_at(
                            final(self).content@,
                            q,
                        )
                },
            },
    {
        let buffer_end = self.buffer_start + self.buffer.len() as u64;
        proof {
            assert(self.buffer@.len() == self.content@.len() - (self.buffer_start - self.start_offset));
            lemma_auto_spec_u32_to_from_le_bytes();
        }
        let magic = u32_to_le_bytes(RECORD_MAGIC);
        let mut q = self.search_offset;
        while buffer_end - q >= 4
            invariant
                self.wf(),
                self.searching,
                !self.finished,
                !self.awaiting,
                self.expected == 0,
                self.content@ == old(self).content@,
                self.position == old(self).position,
                self.stats == old(self).stats,
                self.start_offset == old(self).start_offset,
                self.end_offset == old(self).end_offset,
                self.with_bucket == old(self).with_bucket,
                self.integrity == old(self).integrity,
                self.allow_resync == old(self).allow_resync,
                buffer_end == self.buffer_end(),
                self.buffer_start + self.buffer@.len() == buffer_end,
                magic@ == spec_u32_to_le_bytes(RECORD_MAGIC),
                magic@.len() == 4,
                self.search_offset <= q,
                q + 3 <= buffer_end,
                forall|r: int|
                    self.position - self.start_offset < r < q - self.start_offset ==> !#[trigger] magic_at(
                        self.content@,
                        r,
                    ),
            decreases buffer_end - q,
        {
            let blen = self.buffer.len();
            let i = (q - self.buffer_start) as usize;
            assert(i + 4 <= blen);
            let hit = self.buffer[i] == magic[0] && self.buffer[i + 1] == magic[1] && self.buffer[i
                + 2] == magic[2] && self.buffer[i + 3] == magic[3];
            proof {
                let rq = q - self.start_offset;
                let window = self.content@.subrange(rq, rq + 4);
                assert(self.buffer@.subrange(i as int, i + 4) =~= window);
                assert(window[0] == self.buffer@[i as int]);
                assert(window[1] == self.buffer@[i + 1]);
                assert(window[2] == self.buffer@[i + 2]);
                assert(window[3] == self.buffer@[i + 3]);
                if hit {
                    assert(window =~= magic@);
                } else {
                    assert(window != magic@);
                }
            }
            if hit {
                let from = self.position;
                self.position = q;
                self.searching = false;
                self.stats.resyncs = self.stats.resyncs + 1;
                return WalkStep::Resync { from, to: q };
            }
            q += 1;
        }
        self.search_offset = q;
        if buffer_end >= self.end_offset {
            self.finished = true;
            return WalkStep::Done;
        }
        self.request_read()
    }

    /// Lets go of the bytes that the walk no longer needs.
    fn compact(&mut self)
        requires
            old(self).wf(),
        ensures
            final(self).wf(),
            final(self).content@ == old(self).content@,
            final(self).position == old(self).position,
            final(self).searching == old(self).searching,
            final(self).search_offset == old(self).search_offset,
            final(self).awaiting == old(self).awaiting,
            final(self).record_len == old(self).record_len,
            final(self).expected == old(self).expected,
            final(self).finished == old(self).finished,
            final(self).stats == old(self).stats,
            final(self).start_offset == old(self).start_offset,
            final(self).end_offset == old(self).end_offset,
            final(self).with_bucket == old(self).with_bucket,
            final(self).integrity == old(self).integrity,
            final(self).allow_resync == old(self).allow_resync,
            final(self).stopped_by_visitor == old(self).stopped_by_visitor,
            final(self).buffer_start == ({
                let keep = if old(self).searching {
                    old(self).search_offset
                } else {
                    old(self).position
                };
                if keep - old(self).buffer_start > 8 * RECOVERY_SCAN_CHUNK_SIZE && keep - old(
                    self,
                ).buffer_start <= old(self).buffer@.len() {
                    keep
                } else {
                    old(self).buffer_start
                }
            }),
    {
        let keep = if self.searching {
            self.search_offset
        } else {
            self.position
        };
        proof {
            assert(self.buffer@.len() == self.content@.len() - (self.buffer_start - self.start_offset));
        }
        if keep - self.buffer_start > 8 * RECOVERY_SCAN_CHUNK_SIZE && keep - self.buffer_start <= self.buffer.len() as u64 {
            let cut = (keep - self.buffer_start) as usize;
            let tail = self.buffer.split_off(cut);
            self.buffer = tail;
            self.buffer_start = keep;
            proof {
                assert(self.buffer@ =~= self.content@.subrange(
                    self.buffer_start - self.start_offset,
                    self.content@.len() as int,
                ));
            }
        }
    }
}

/// What a walk over the tail of a data file gathers: the records whose
/// payload checks out, in file order, up to the first that does not, and
/// the end of the last of them (`lo` when there is none).
pub struct TailScan {
    pub lo: u64,
    pub hi: u64,
    pub with_bucket: bool,
    pub found: Vec<Found>,
    pub end: u64,
}

impl TailScan {
    pub open spec fn wf(&self) -> bool {
        &&& self.lo <= self.end <= self.hi
        &&& forall|k: int|
            0 <= k < self.found@.len() ==> self.lo <= (#[trigger] self.found@[k]).1 && self.found@[k].1
                + self.found@[k].3 <= self.hi
        &&& self.found@.len() > 0 ==> self.end == self.found@.last().1 + self.found@.last().3
    }

    /// A walk over `[lo, hi)` of a data file that has not met a record yet.
    pub fn new(lo: u64, hi: u64, with_bucket: bool) -> (r: Self)
        requires
            lo <= hi,
        ensures
            r.wf(),
            r.lo == lo && r.hi == hi && r.with_bucket == with_bucket,
            r.found@ == Seq::<Found>::empty(),
            r.end == lo,
    {
        TailScan { lo, hi, with_bucket, found: Vec::new(), end: lo }
    }

    /// A record that the walk met at `offset`. A record whose payload checks
    /// out, and which lies within `[lo, hi)`, is kept and the walk goes on;
    /// at any other the walk stops.
    pub fn visit(&mut self, offset: u64, header: &RecordHeader, payload_valid: bool) -> (r: bool)
        requires
            old(self).wf(),
        ensures
            final(self).wf(),
            final(self).lo == old(self).lo && final(self).hi == old(self).hi,
            final(self).with_bucket == old(self).with_bucket,
            r == (payload_valid && old(self).lo <= offset && offset + header_len(old(self).with_bucket)
                + header.len <= old(self).hi),
            r ==> final(self).found@ == old(self).found@.push(
                (
                    header.id,
                    offset,
                    header.version,
                    (header_len(old(self).with_bucket) + header.len) as u64,
                    header.bucket,
                ),
            ) && final(self).end == offset + header_len(old(self).with_bucket) + header.len,
            !r ==> final(self).found@ == old(self).found@ && final(self).end == old(self).end,
    {
        let header_size = header_len(self.with_bucket) as u64;
        if !payload_valid || offset < self.lo || offset > self.hi || header_size > self.hi - offset
            || header.len > self.hi - offset - header_size {
            return false;
        }
        let record_len = header_size + header.len;
        self.found.push((header.id, offset, header.version, record_len, header.bucket));
        self.end = offset + record_len;
        true
    }
}

/// Runs of consecutive records of one bucket, as `(bucket, start, end)`:
/// a record right after the end of the last run, of the same bucket,
/// extends it.
pub open spec fn runs_of(found: Seq<Found>) -> Seq<(u64, u64, u64)>
    decreases found.len(),
{
    if found.len() == 0 {
        Seq::empty()
    } else {
        let prev = runs_of(found.drop_last());
        let it = found.last();
        if prev.len() > 0 && prev.last().0 == it.4 && prev.last().2 == it.1 {
            prev.update(prev.len() - 1, (prev.last().0, prev.last().1, (it.1 + it.3) as u64))
        } else {
            prev.push((it.4, it.1, (it.1 + it.3) as u64))
        }
    }
}

/// What a rebuild gathers from a walk over the whole data file.
pub struct RebuildPlan {
    /// The records whose payload checks out, in file order.
    pub found: Vec<Found>,
    /// Runs of consecutive records of one bucket.
    pub runs: Vec<(u64, u64, u64)>,
}

impl RebuildPlan {
    pub open spec fn wf(&self) -> bool {
        &&& self.runs@ == runs_of(self.found@)
        &&& forall|k: int|
            0 <= k < self.found@.len() ==> (#[trigger] self.found@[k]).1 + self.found@[k].3 + 4096
                <= u64::MAX
    }

    pub fn new() -> (r: Self)
        ensures
            r.wf(),
            r.found@ == Seq::<Found>::empty(),
    {
        RebuildPlan { found: Vec::new(), runs: Vec::new() }
    }

    /// A record that the walk met at `offset`: it counts only if its payload
    /// checks out. The walk always goes on.
    pub fn visit(&mut self, offset: u64, header: &RecordHeader, payload_valid: bool, with_bucket: bool) -> (r: bool)
        requires
            old(self).wf(),
            offset + header_len(with_bucket) + header.len + 4096 <= u64::MAX,
        ensures
            r,
            final(self).wf(),
            final(self).found@ == if payload_valid {
                old(self).found@.push(
                    (
                        header.id,
                        offset,
                        header.version,
                        (header_len(with_bucket) + header.len) as u64,
                        header.bucket,
                    ),
                )
            } else {
                old(self).found@
            },
    {
        if !payload_valid {
            return true;
        }
        let record_len = header_len(with_bucket) as u64 + header.len;
        let item: Found = (header.id, offset, header.version, record_len, header.bucket);
        let ghost pre = self.found@;
        self.found.push(item);
        proof {
            assert(self.found@.drop_last() =~= pre);
        }
        let n = self.runs.len();
        if n > 0 && self.runs[n - 1].0 == header.bucket && self.runs[n - 1].2 == offset {
            let run = self.runs[n - 1];
            self.runs.set(n - 1, (run.0, run.1, offset + record_len));
        } else {
            self.runs.push((header.bucket, offset, offset + record_len));
        }
        true
    }

    /// For every record number found, the version that counts, in
    /// ascending order of record numbers.
    pub fn best_sorted(&self) -> (r: Vec<Found>)
        requires
            self.wf(),
        ensures
            is_sorted_best(self.found@, r@),
    {
        let best = best_versions(self.found.as_slice());
        let mut ids: Vec<u64> = Vec::new();
        let mut position: HashMap<u64, usize> = HashMap::new();
        let mut k: usize = 0;
        while k < best.len()
            invariant
                k <= best@.len(),
                lists_best(self.found@, best@),
                ids@.len() == k,
                forall|a: int| 0 <= a < k ==> (#[trigger] ids@[a]) == best@[a].0,
                forall|a: int|
                    0 <= a < k ==> position@.contains_key(#[trigger] best@[a].0) && position@[best@[a].0] == a,
                forall|x: u64| #[trigger]
                    position@.contains_key(x) ==> (position@[x] as int) < k && best@[position@[x] as int].0 == x,
            decreases best@.len() - k,
        {
            ids.push(best[k].0);
            position.insert(best[k].0, k);
            k += 1;
        }
        proof {
            assert(ids@.no_duplicates()) by {
                assert forall|i: int, j: int| 0 <= i < ids@.len() && 0 <= j < ids@.len() && i != j implies ids@[i] != ids@[j] by {
                    if i < j {
                        assert(best@[i].0 != best@[j].0);
                    } else {
                        assert(best@[j].0 != best@[i].0);
                    }
                }
            }
            ids@.lemma_multiset_has_no_duplicates();
        }
        let ghost unsorted = ids@;
        sort_u64s(ids.as_mut_slice());
        proof {
            broadcast use vstd::seq_lib::group_to_multiset_ensures;
            ids@.lemma_multiset_has_no_duplicates_conv();
            assert forall|a: int| 0 <= a < ids@.len() implies position@.contains_key(#[trigger] ids@[a]) by {
                assert(ids@.to_multiset().count(ids@[a]) > 0);
                assert(unsorted.contains(ids@[a]));
                let b = choose|b: int| 0 <= b < unsorted.len() && unsorted[b] == ids@[a];
                assert(best@[b].0 == ids@[a]);
            }
        }
        let mut out: Vec<Found> = Vec::new();
        let mut j: usize = 0;
        while j < ids.len()
            invariant
                j <= ids@.len(),
                ids@.no_duplicates(),
                ascending(ids@),
                lists_best(self.found@, best@),
                forall|a: int| 0 <= a < ids@.len() ==> position@.contains_key(#[trigger] ids@[a]),
                forall|x: u64| #[trigger]
                    position@.contains_key(x) ==> (position@[x] as int) < best@.len() && best@[position@[x] as int].0 == x,
                out@.len() == j,
                forall|a: int| 0 <= a < j ==> (#[trigger] out@[a]).0 == ids@[a],
                forall|a: int|
                    0 <= a < j ==> best_map(self.found@).contains_key((#[trigger] out@[a]).0)
                        && out@[a] == best_map(self.found@)[out@[a].0],
            decreases ids@.len() - j,
        {
            let id = ids[j];
            let at = *position.get(&id).unwrap();
            let entry = best[at];
            out.push(entry);
            j += 1;
        }
        proof {
            broadcast use vstd::seq_lib::group_to_multiset_ensures;
            assert forall|a: int, b: int| 0 <= a < b < out@.len() implies (#[trigger] out@[a]).0 < (#[trigger] out@[b]).0 by {
                assert(ids@[a] <= ids@[b]);
                assert(ids@[a] != ids@[b]);
            }
            assert forall|x: u64| #[trigger] best_map(self.found@).contains_key(x) implies exists|a: int|
                0 <= a < out@.len() && #[trigger] out@[a].0 == x by {
                let b = choose|b: int| 0 <= b < best@.len() && #[trigger] best@[b].0 == x;
                assert(unsorted[b] == x);
                assert(unsorted.to_multiset().count(x) > 0);
                assert(ids@.contains(x));
                let a = choose|a: int| 0 <= a < ids@.len() && ids@[a] == x;
                assert(out@[a].0 == x);
            }
        }
        out
    }

    /// The index slots that a rebuild writes: for every record number
    /// found, the slot of the version that counts, in ascending order of
    /// record numbers.
    pub fn index_slots(&self) -> (r: Vec<(u64, Slot)>)
        requires
            self.wf(),
        ensures
            forall|a: int, b: int| 0 <= a < b < r@.len() ==> (#[trigger] r@[a]).0 < (#[trigger] r@[b]).0,
            forall|a: int|
                0 <= a < r@.len() ==> best_map(self.found@).contains_key((#[trigger] r@[a]).0)
                    && r@[a].1 == (Slot {
                    offset: best_map(self.found@)[r@[a].0].1,
                    total_len: best_map(self.found@)[r@[a].0].3,
                }),
            forall|x: u64|
                #[trigger] best_map(self.found@).contains_key(x) ==> exists|a: int|
                    0 <= a < r@.len() && #[trigger] r@[a].0 == x,
    {
        let best = self.best_sorted();
        let mut out: Vec<(u64, Slot)> = Vec::new();
        let mut j: usize = 0;
        while j < best.len()
            invariant
                j <= best@.len(),
                out@.len() == j,
                forall|a: int| 0 <= a < j ==> (#[trigger] out@[a]).0 == best@[a].0 && out@[a].1 == (Slot { offset: best@[a].1, total_len: best@[a].3 }),
            decreases best@.len() - j,
        {
            let entry = best[j];
            out.push((entry.0, Slot { offset: entry.1, total_len: entry.3 }));
            j += 1;
        }
        proof {
            assert forall|a: int, b: int| 0 <= a < b < out@.len() implies (#[trigger] out@[a]).0 < (#[trigger] out@[b]).0 by {
                assert(best@[a].0 < best@[b].0);
            }
            assert forall|x: u64| #[trigger] best_map(self.found@).contains_key(x) implies exists|a: int|
                0 <= a < out@.len() && #[trigger] out@[a].0 == x by {
                let a = choose|a: int| 0 <= a < best@.len() && #[trigger] best@[a].0 == x;
                assert(out@[a].0 == x);
            }
        }
        out
    }

    /// The registry rows that a rebuild writes: a data row for every run of
    /// records of one bucket, widened to whole pages, then a region row for
    /// every region of record numbers that holds a record, with the bucket of
    /// its smallest record number, in ascending order of regions.
    pub fn registry_rows(&self, region_slots: u64) -> (r: Vec<RegistryRow>)
        requires
            self.wf(),
            region_slots >= 1,
        ensures
            exists|s: Seq<Found>|
                is_sorted_best(self.found@, s) && r@ == data_rows(self.runs@) + region_rows(
                    s,
                    region_slots,
                ),
    {
        let mut rows: Vec<RegistryRow> = Vec::new();
        let mut k: usize = 0;
        while k < self.runs.len()
            invariant
                self.wf(),
                k <= self.runs@.len(),
                rows@ == data_rows(self.runs@.take(k as int)),
            decreases self.runs@.len() - k,
        {
            let run = self.runs[k];
            proof {
                lemma_run_bounds(self.found@, k as int);
                assert(self.runs@.take(k as int + 1).drop_last() =~= self.runs@.take(k as int));
            }
            let start = page_down(run.1);
            rows.push(RegistryRow { kind: 0x44, bucket: run.0, start, size: page_up(run.2) - start });
            k += 1;
        }
        proof {
            assert(self.runs@.take(k as int) =~= self.runs@);
        }
        let best = self.best_sorted();
        let ghost data = rows@;
        let mut j: usize = 0;
        let mut last_region: u64 = 0;
        while j < best.len()
            invariant
                j <= best@.len(),
                region_slots >= 1,
                rows@ == data + region_rows(best@.take(j as int), region_slots),
                j > 0 ==> region_rows(best@.take(j as int), region_slots).len() > 0 && last_region == region_rows(best@.take(j as int), region_slots).last().start,
                j == 0 ==> region_rows(best@.take(j as int), region_slots).len() == 0,
            decreases best@.len() - j,
        {
            let entry = best[j];
            let quotient = entry.0 / region_slots;
            assert(quotient * region_slots <= entry.0) by (nonlinear_arith)
                requires
                    quotient == entry.0 / region_slots,
                    region_slots >= 1,
            ;
            let region = quotient * region_slots;
            proof {
                assert(best@.take(j as int + 1).drop_last() =~= best@.take(j as int));
            }
            if j == 0 || region != last_region {
                rows.push(RegistryRow { kind: 0x53, bucket: entry.4, start: region, size: region_slots });
                last_region = region;
            }
            proof {
                assert(rows@ =~= data + region_rows(best@.take(j as int + 1), region_slots));
            }
            j += 1;
        }
        proof {
            assert(best@.take(j as int) =~= best@);
            assert(is_sorted_best(self.found@, best@));
        }
        rows
    }
}

/// The data rows of a rebuilt registry, one per run.
pub open spec fn data_rows(runs: Seq<(u64, u64, u64)>) -> Seq<RegistryRow>
    decreases runs.len(),
{
    if runs.len() == 0 {
        Seq::empty()
    } else {
        let run = runs.last();
        data_rows(runs.drop_last()).push(
            RegistryRow {
                kind: 0x44,
                bucket: run.0,
                start: (run.1 - run.1 % 4096) as u64,
                size: ((run.2 + 4095) - (run.2 + 4095) % 4096 - (run.1 - run.1 % 4096)) as u64,
            },
        )
    }
}

/// The region row of a record number.
pub open spec fn region_of(id: u64, region_slots: u64) -> u64 {
    (id / region_slots * region_slots) as u64
}

/// The region rows of a rebuilt registry for records in ascending order of
/// record numbers: one per region, with the bucket of its first record.
pub open spec fn region_rows(sorted: Seq<Found>, region_slots: u64) -> Seq<RegistryRow>
    decreases sorted.len(),
{
    if sorted.len() == 0 {
        Seq::empty()
    } else {
        let prev = region_rows(sorted.drop_last(), region_slots);
        let e = sorted.last();
        let region = region_of(e.0, region_slots);
        if prev.len() > 0 && prev.last().start == region {
            prev
        } else {
            prev.push(RegistryRow { kind: 0x53, bucket: e.4, start: region, size: region_slots })
        }
    }
}

/// `s` holds the versions that count of the records in `found`, in
/// ascending order of record numbers.
pub open spec fn is_sorted_best(found: Seq<Found>, s: Seq<Found>) -> bool {
    &&& forall|a: int, b: int| 0 <= a < b < s.len() ==> (#[trigger] s[a]).0 < (#[trigger] s[b]).0
    &&& forall|a: int|
        0 <= a < s.len() ==> best_map(found).contains_key((#[trigger] s[a]).0) && s[a] == best_map(
            found,
        )[s[a].0]
    &&& forall|x: u64|
        #[trigger] best_map(found).contains_key(x) ==> exists|a: int|
            0 <= a < s.len() && #[trigger] s[a].0 == x
}

/// The runs of `found` start before they end, and end well within `u64`.
proof fn lemma_run_bounds(found: Seq<Found>, k: int)
    requires
        0 <= k < runs_of(found).len(),
        forall|i: int| 0 <= i < found.len() ==> (#[trigger] found[i]).1 + found[i].3 + 4096 <= u64::MAX,
    ensures
        runs_of(found)[k].1 <= runs_of(found)[k].2,
        runs_of(found)[k].2 + 4096 <= u64::MAX,
    decreases found.len(),
{
    let pre = found.drop_last();
    let prev = runs_of(pre);
    let it = found.last();
    assert(found[found.len() - 1] == it);
    assert forall|i: int| 0 <= i < pre.len() implies (#[trigger] pre[i]).1 + pre[i].3 + 4096 <= u64::MAX by {
        assert(pre[i] == found[i]);
    }
    if k < prev.len() {
        lemma_run_bounds(pre, k);
    }
    if prev.len() > 0 {
        lemma_run_bounds(pre, prev.len() - 1);
    }
}

/// What is known of the content so far stays true when more is fed.
proof fn lemma_content_grows(c0: Seq<u8>, more: Seq<u8>, start: int, end: int, position: int, with_bucket: bool)
    requires
        start <= position,
        position + header_len(with_bucket) <= start + c0.len(),
    ensures
        header_at(c0 + more, position - start, end - start, with_bucket) == header_at(
            c0,
            position - start,
            end - start,
            with_bucket,
        ),
{
    let n = header_len(with_bucket) as int;
    let r = position - start;
    assert((c0 + more).subrange(r, r + n) =~= c0.subrange(r, r + n));
}

} // verus!
