//! Opening a bucket placement: replaying the rows of its registry, then
//! settling how much of each extent and region is used from what the index
//! and the data file hold.

use vstd::prelude::*;
use std::collections::HashMap;
use crate::bucket::{
    cut_size, data_after_grant, extent_fits, extents_apart, free_room, grant_cuts, granted_extent,
    last_extent, lemma_section_base_next, victim_of, BucketPlacement, BucketState, Extent,
    OFFSET_LIMIT,
};
use crate::recovery::{Found, TailScan};
use crate::data::is_corrupt;
use crate::error::HeapError;
use crate::append::{slot_end, slot_in};
use crate::format::{
    lemma_page_up_bounds, spec_decode_registry_row, spec_page_down, RegistryRow, Slot, SlotState,
    REGISTRY_ROW_SIZE,
};

verus! {

broadcast use vstd::std_specs::hash::group_hash_axioms, vstd::slice::group_slice_axioms;

/// A bucket as plain values.
#[verifier::ext_equal]
pub struct BucketModel {
    pub id: u64,
    pub data: Seq<Extent>,
    pub slots: Seq<Extent>,
}

/// A placement as plain values.
#[verifier::ext_equal]
pub struct PlacementModel {
    pub buckets: Seq<BucketModel>,
    pub grants: int,
    pub file_size: int,
    pub next_region: int,
    pub registry_end: int,
}

pub open spec fn bucket_model(s: BucketState) -> BucketModel {
    BucketModel { id: s.id, data: s.data@, slots: s.slots@ }
}

pub open spec fn buckets_model(states: Seq<BucketState>) -> Seq<BucketModel> {
    states.map_values(|s: BucketState| bucket_model(s))
}

impl BucketPlacement {
    pub open spec fn model(&self) -> PlacementModel {
        PlacementModel {
            buckets: buckets_model(self.states@),
            grants: self.extent_grant_count as int,
            file_size: self.file_size as int,
            next_region: self.next_region as int,
            registry_end: self.registry_end as int,
        }
    }

    /// Nothing is used yet: every extent and region has `used == 0`.
    pub open spec fn unsettled(&self) -> bool {
        &&& forall|i: int, j: int|
            0 <= i < self.states@.len() && 0 <= j < self.states@[i].data@.len()
                ==> (#[trigger] self.states@[i].data@[j]).used == 0
        &&& forall|i: int, j: int|
            0 <= i < self.states@.len() && 0 <= j < self.states@[i].slots@.len()
                ==> (#[trigger] self.states@[i].slots@[j]).used == 0
    }
}

/// The registry row kind of a data extent.
pub const ROW_DATA: u8 = 0x44;

/// The registry row kind of a region of record numbers.
pub const ROW_SLOTS: u8 = 0x53;

/// The extent that a row describes, not yet used.
pub open spec fn row_extent(row: RegistryRow) -> Extent {
    Extent { start: row.start, size: row.size, used: 0 }
}

/// `e` holds the whole range that `row` describes.
pub open spec fn holds_row(e: Extent, row: RegistryRow) -> bool {
    row.start >= e.start && row.start + row.size <= e.start + e.size
}

/// Data extent `j` of bucket `i` is the first, in the order of buckets and
/// then of their extents, that holds the range of `row`.
pub open spec fn first_holder(bs: Seq<BucketModel>, row: RegistryRow, i: int, j: int) -> bool {
    &&& 0 <= i < bs.len()
    &&& 0 <= j < bs[i].data.len()
    &&& holds_row(bs[i].data[j], row)
    &&& forall|i2: int, j2: int|
        0 <= i2 < bs.len() && 0 <= j2 < bs[i2].data.len() && (i2 < i || (i2 == i && j2 < j))
            ==> !holds_row(#[trigger] bs[i2].data[j2], row)
}

/// Some bucket has the id `id`.
pub open spec fn has_bucket(bs: Seq<BucketModel>, id: u64) -> bool {
    exists|i: int| 0 <= i < bs.len() && (#[trigger] bs[i]).id == id
}

/// The position of the bucket with id `id`.
pub open spec fn bucket_pos(bs: Seq<BucketModel>, id: u64) -> int {
    choose|i: int| 0 <= i < bs.len() && (#[trigger] bs[i]).id == id
}

/// The buckets, with an empty bucket `id` added at the end when there is none.
pub open spec fn with_bucket(bs: Seq<BucketModel>, id: u64) -> Seq<BucketModel> {
    if has_bucket(bs, id) {
        bs
    } else {
        bs.push(BucketModel { id, data: Seq::empty(), slots: Seq::empty() })
    }
}

/// The buckets, with the first extent that holds the range of `row` cut
/// back to end where that range starts.
pub open spec fn cut_holder(bs: Seq<BucketModel>, row: RegistryRow) -> Seq<BucketModel> {
    if exists|i: int, j: int| first_holder(bs, row, i, j) {
        let (i, j) = choose|i: int, j: int| first_holder(bs, row, i, j);
        let e = bs[i].data[j];
        bs.update(
            i,
            BucketModel {
                data: bs[i].data.update(j, Extent { size: (row.start - e.start) as u64, ..e }),
                ..bs[i]
            },
        )
    } else {
        bs
    }
}

/// A row is accepted: it describes a data extent or a region, and its end
/// lies within the offsets that a placement hands out.
pub open spec fn row_ok(row: RegistryRow) -> bool {
    (row.kind == ROW_DATA || row.kind == ROW_SLOTS) && row.start + row.size <= OFFSET_LIMIT
}

/// What replaying `row` makes of `m`: its bucket is added if new; a data
/// extent cuts back the first extent that holds it, grows the file to hold
/// it and is added to its bucket; a region raises the next free record
/// number past its end and is added to its bucket.
pub open spec fn apply_row(m: PlacementModel, row: RegistryRow) -> PlacementModel {
    let bs = with_bucket(m.buckets, row.bucket);
    if row.kind == ROW_DATA {
        let cut = cut_holder(bs, row);
        let b = bucket_pos(cut, row.bucket);
        PlacementModel {
            buckets: cut.update(b, BucketModel { data: cut[b].data.push(row_extent(row)), ..cut[b] }),
            grants: m.grants + 1,
            file_size: if m.file_size >= row.start + row.size {
                m.file_size
            } else {
                row.start + row.size
            },
            next_region: m.next_region,
            registry_end: m.registry_end + 64,
        }
    } else {
        let b = bucket_pos(bs, row.bucket);
        PlacementModel {
            buckets: bs.update(b, BucketModel { slots: bs[b].slots.push(row_extent(row)), ..bs[b] }),
            grants: m.grants + 1,
            file_size: m.file_size,
            next_region: if m.next_region >= row.start + row.size {
                m.next_region
            } else {
                row.start + row.size
            },
            registry_end: m.registry_end + 64,
        }
    }
}

/// Row chunk `k` of the registry bytes.
pub open spec fn chunk(bytes: Seq<u8>, k: int) -> Seq<u8> {
    bytes.subrange(64 * k, 64 * k + 64)
}

/// The row that chunk `k` decodes to.
pub open spec fn row_at(bytes: Seq<u8>, k: int) -> RegistryRow {
    spec_decode_registry_row(chunk(bytes, k))->0
}

/// The first `k` chunks all decode.
pub open spec fn decodes_upto(bytes: Seq<u8>, k: int) -> bool {
    forall|g: int| 0 <= g < k ==> #[trigger] spec_decode_registry_row(chunk(bytes, g)) is Some
}

/// Chunk `k` is all zero bytes.
pub open spec fn chunk_zero(bytes: Seq<u8>, k: int) -> bool {
    forall|j: int| 64 * k <= j < 64 * k + 64 ==> #[trigger] bytes[j] == 0
}

/// The rows of the first `k` chunks replayed in order onto `m`.
pub open spec fn replay_rows(m: PlacementModel, bytes: Seq<u8>, k: int) -> PlacementModel
    decreases k,
{
    if k <= 0 {
        m
    } else {
        apply_row(replay_rows(m, bytes, k - 1), row_at(bytes, k - 1))
    }
}

/// An empty placement over a data file of `initial_size` bytes, and at
/// least its header page.
pub open spec fn empty_model(initial_size: u64) -> PlacementModel {
    PlacementModel {
        buckets: Seq::empty(),
        grants: 0,
        file_size: if initial_size < 4096 {
            4096
        } else {
            initial_size as int
        },
        next_region: 0,
        registry_end: 4096,
    }
}

proof fn lemma_first_holder_unique(bs: Seq<BucketModel>, row: RegistryRow, i: int, j: int, i2: int, j2: int)
    requires
        first_holder(bs, row, i, j),
        first_holder(bs, row, i2, j2),
    ensures
        i == i2 && j == j2,
{
    if i2 < i || (i2 == i && j2 < j) {
        assert(!holds_row(bs[i2].data[j2], row));
    }
    if i < i2 || (i == i2 && j < j2) {
        assert(!holds_row(bs[i].data[j], row));
    }
}

/// The first extent of `states` that holds the range of `row`.
fn find_holder(states: &Vec<BucketState>, row: RegistryRow) -> (r: Option<(usize, usize)>)
    ensures
        r matches Some((i, j)) ==> first_holder(buckets_model(states@), row, i as int, j as int),
        r is None ==> !exists|i: int, j: int| first_holder(buckets_model(states@), row, i, j),
{
    let ghost bs = buckets_model(states@);
    let mut i: usize = 0;
    while i < states.len()
        invariant
            i <= states@.len(),
            bs == buckets_model(states@),
            forall|i2: int, j2: int|
                0 <= i2 < i && 0 <= j2 < bs[i2].data.len() ==> !holds_row(#[trigger] bs[i2].data[j2], row),
        decreases states@.len() - i,
    {
        let data = &states[i].data;
        assert(data@ == bs[i as int].data);
        let mut j: usize = 0;
        while j < data.len()
            invariant
                i < states@.len(),
                j <= data@.len(),
                data@ == bs[i as int].data,
                bs == buckets_model(states@),
                forall|i2: int, j2: int|
                    0 <= i2 < i && 0 <= j2 < bs[i2].data.len() ==> !holds_row(#[trigger] bs[i2].data[j2], row),
                forall|j2: int| 0 <= j2 < j ==> !holds_row(#[trigger] bs[i as int].data[j2], row),
            decreases data@.len() - j,
        {
            let e = data[j];
            if row.start >= e.start && row.start - e.start <= e.size && row.size <= e.size - (row.start
                - e.start) {
                proof {
                    assert forall|i2: int, j2: int|
                        0 <= i2 < bs.len() && 0 <= j2 < bs[i2].data.len() && (i2 < i || (i2 == i && j2
                            < j)) implies !holds_row(#[trigger] bs[i2].data[j2], row) by {}
                }
                return Some((i, j));
            }
            j += 1;
        }
        i += 1;
    }
    proof {
        assert forall|a: int, b: int| !first_holder(bs, row, a, b) by {
            if 0 <= a < bs.len() && 0 <= b < bs[a].data.len() {
                assert(!holds_row(bs[a].data[b], row));
            }
        }
    }
    None
}

impl BucketPlacement {
    /// Replays one registry row (see `apply_row`). A row whose range
    /// overflows is reported as a corrupt row at the current end of the
    /// registry; a row of another kind as a corrupt row kind just past it.
    fn replay_row(&mut self, row: RegistryRow) -> (res: Result<(), HeapError>)
        requires
            old(self).wf(),
            old(self).unsettled(),
            old(self).registry_end + 64 <= u64::MAX,
            old(self).extent_grant_count < u64::MAX,
        ensures
            res is Ok <==> row_ok(row),
            res is Ok ==> final(self).wf(),
            res is Ok ==> final(self).unsettled(),
            res is Ok ==> final(self).model() == apply_row(old(self).model(), row),
            row.start + row.size > OFFSET_LIMIT ==> (res matches Err(e) && is_corrupt(
                e,
                "registry row"@,
                old(self).registry_end,
            )),
            row.start + row.size <= OFFSET_LIMIT && !row_ok(row) ==> (res matches Err(e)
                && is_corrupt(e, "registry row kind"@, (old(self).registry_end + 64) as u64)),
    {
        if row.size > OFFSET_LIMIT || row.start > OFFSET_LIMIT - row.size {
            return Err(HeapError::Corrupt { what: "registry row", offset: self.registry_end });
        }
        if row.kind != ROW_DATA && row.kind != ROW_SLOTS {
            return Err(
                HeapError::Corrupt {
                    what: "registry row kind",
                    offset: self.registry_end + REGISTRY_ROW_SIZE as u64,
                },
            );
        }
        let ghost m0 = self.model();
        let ghost bs = with_bucket(m0.buckets, row.bucket);
        let ghost pre = self.states@;
        let bucket_index = match self.bucket_indices.get(&row.bucket) {
            Some(found) => {
                proof {
                    let b = *found as int;
                    assert(m0.buckets[b].id == row.bucket);
                    assert(has_bucket(m0.buckets, row.bucket));
                }
                *found
            },
            None => {
                proof {
                    assert forall|i: int| 0 <= i < m0.buckets.len() implies (#[trigger] m0.buckets[i]).id
                        != row.bucket by {
                        assert(self.bucket_indices@.contains_key(pre[i].id));
                    }
                }
                let bucket_index = self.states.len();
                self.states.push(BucketState { id: row.bucket, data: Vec::new(), slots: Vec::new() });
                self.bucket_indices.insert(row.bucket, bucket_index);
                proof {
                    assert(buckets_model(self.states@) =~= bs);
                }
                bucket_index
            },
        };
        self.extent_grant_count += 1;
        self.registry_end += REGISTRY_ROW_SIZE as u64;
        let ghost mid = self.states@;
        proof {
            assert(buckets_model(mid) =~= bs);
            assert forall|i: int| 0 <= i < mid.len() implies self.bucket_indices@.contains_key(
                #[trigger] mid[i].id,
            ) && self.bucket_indices@[mid[i].id] == i by {
                if i < pre.len() {
                    assert(old(self).bucket_indices@.contains_key(pre[i].id));
                }
            }
            assert forall|k: u64| #[trigger] self.bucket_indices@.contains_key(k) implies (
            self.bucket_indices@[k] as int) < mid.len() && mid[self.bucket_indices@[k] as int].id
                == k by {
                if k != row.bucket {
                    assert(old(self).bucket_indices@.contains_key(k));
                }
            }
        }
        if row.kind == ROW_DATA {
            let holder = find_holder(&self.states, row);
            let ghost cut = cut_holder(bs, row);
            match holder {
                Some((i, j)) => {
                    let e = self.states[i].data[j];
                    self.states[i].data[j].size = row.start - e.start;
                    proof {
                        assert forall|a: int, b: int|
                            0 <= a < mid.len() && 0 <= b < mid[a].data@.len() implies (
                            #[trigger] self.states@[a].data@[b]).start == mid[a].data@[b].start
                            && self.states@[a].data@[b].size <= mid[a].data@[b].size
                            && self.states@[a].data@[b].used == mid[a].data@[b].used by {
                            if a == i {
                                if b == j {
                                    assert(holds_row(bs[a].data[b], row));
                                }
                            }
                        }
                        let (ci, cj) = choose|a: int, b: int| first_holder(bs, row, a, b);
                        lemma_first_holder_unique(bs, row, i as int, j as int, ci, cj);
                        assert(buckets_model(self.states@) =~~= cut);
                    }
                },
                None => {
                    proof {
                        assert(buckets_model(self.states@) =~~= cut);
                    }
                },
            }
            let ghost mid2 = self.states@;
            assert forall|a: int, b: int|
                0 <= a < mid.len() && 0 <= b < mid[a].data@.len() implies (
                #[trigger] mid2[a].data@[b]).start == mid[a].data@[b].start && mid2[a].data@[b].size
                <= mid[a].data@[b].size && mid2[a].data@[b].used == mid[a].data@[b].used by {
                assert(buckets_model(mid2)[a].data[b] == cut[a].data[b]);
            }
            if row.start + row.size > self.file_size {
                self.file_size = row.start + row.size;
            }
            self.states[bucket_index].data.push(
                Extent { start: row.start, size: row.size, used: 0 },
            );
            proof {
                let p = bucket_pos(cut, row.bucket);
                assert(cut[bucket_index as int].id == row.bucket);
                assert(mid[p].id == row.bucket);
                assert(self.bucket_indices@[mid[p].id] == p);
                assert(buckets_model(self.states@) =~~= cut.update(
                    p,
                    BucketModel { data: cut[p].data.push(row_extent(row)), ..cut[p] },
                ));
            }
        } else {
            if row.start + row.size > self.next_region {
                self.next_region = row.start + row.size;
            }
            self.states[bucket_index].slots.push(
                Extent { start: row.start, size: row.size, used: 0 },
            );
            proof {
                let p = bucket_pos(bs, row.bucket);
                assert(bs[bucket_index as int].id == row.bucket);
                assert(mid[p].id == row.bucket);
                assert(self.bucket_indices@[mid[p].id] == p);
                assert(buckets_model(self.states@) =~~= bs.update(
                    p,
                    BucketModel { slots: bs[p].slots.push(row_extent(row)), ..bs[p] },
                ));
            }
        }
        proof {
            assert(self.model() =~~= apply_row(m0, row));
            let qs = self.states@;
            assert forall|a: int, b: int|
                0 <= a < qs.len() && 0 <= b < qs[a].data@.len() implies extent_fits(
                #[trigger] qs[a].data@[b],
                self.file_size as int,
            ) && qs[a].data@[b].used == 0 by {
                if a < pre.len() && b < pre[a].data@.len() {
                    assert(extent_fits(pre[a].data@[b], old(self).file_size as int));
                    assert(pre[a].data@[b].used == 0);
                }
            }
            assert forall|a: int, b: int|
                0 <= a < qs.len() && 0 <= b < qs[a].slots@.len() implies extent_fits(
                #[trigger] qs[a].slots@[b],
                self.next_region as int,
            ) && qs[a].slots@[b].used == 0 by {
                if a < pre.len() && b < pre[a].slots@.len() {
                    assert(extent_fits(pre[a].slots@[b], old(self).next_region as int));
                    assert(pre[a].slots@[b].used == 0);
                }
            }
            assert forall|a: int| 0 <= a < qs.len() implies self.bucket_indices@.contains_key(
                #[trigger] qs[a].id,
            ) && self.bucket_indices@[qs[a].id] == a by {
                assert(qs[a].id == mid[a].id);
            }
            assert forall|k: u64| #[trigger] self.bucket_indices@.contains_key(k) implies (
            self.bucket_indices@[k] as int) < qs.len() && qs[self.bucket_indices@[k] as int].id
                == k by {
                assert(qs[self.bucket_indices@[k] as int].id == mid[self.bucket_indices@[k] as int].id);
            }
        }
        Ok(())
    }
}

/// Whether every byte of `bytes` is zero.
fn all_zero(bytes: &[u8]) -> (r: bool)
    ensures
        r <==> forall|j: int| 0 <= j < bytes@.len() ==> bytes@[j] == 0,
{
    let mut k: usize = 0;
    while k < bytes.len()
        invariant
            k <= bytes@.len(),
            forall|j: int| 0 <= j < k ==> bytes@[j] == 0,
        decreases bytes@.len() - k,
    {
        if bytes[k] != 0 {
            return false;
        }
        k += 1;
    }
    true
}

/// `s` is where the rows of the registry bytes stop: the first chunk that
/// does not decode, or the number of whole chunks when all do.
pub open spec fn rows_stop(bytes: Seq<u8>, s: int) -> bool {
    &&& 0 <= s <= bytes.len() / 64
    &&& decodes_upto(bytes, s)
    &&& s < bytes.len() / 64 ==> spec_decode_registry_row(chunk(bytes, s)) is None
}

/// Row `f` is the first row that is not accepted.
pub open spec fn first_bad_row(bytes: Seq<u8>, f: int) -> bool {
    &&& !row_ok(row_at(bytes, f))
    &&& forall|g: int| 0 <= g < f ==> row_ok(#[trigger] row_at(bytes, g))
}

impl BucketPlacement {
    /// Rebuilds a placement over a data file of `initial_size` bytes (at
    /// least its header page) from the rows of its registry, `rows` being the registry after its header
    /// page, cut in chunks of 64 bytes. The rows are replayed in order up to
    /// the first chunk that does not decode; that chunk must be all zero (or
    /// the chunks must end), else the registry is corrupt there. Every row
    /// replayed must be accepted (`row_ok`).
    pub fn replay(initial_size: u64, rows: &[u8]) -> (res: Result<BucketPlacement, HeapError>)
        requires
            initial_size <= OFFSET_LIMIT,
            4096 + rows@.len() + 64 <= u64::MAX,
        ensures
            forall|s: int|
                #![trigger rows_stop(rows@, s)]
                rows_stop(rows@, s) ==> {
                    &&& res is Ok <==> (forall|f: int| 0 <= f < s ==> row_ok(#[trigger] row_at(rows@, f)))
                        && (s == rows@.len() / 64 || chunk_zero(rows@, s))
                    &&& res matches Ok(p) ==> p.wf() && p.unsettled() && p.model() == replay_rows(
                        empty_model(initial_size),
                        rows@,
                        s,
                    )
                    &&& forall|f: int|
                        0 <= f < s && #[trigger] first_bad_row(rows@, f) ==> (res matches Err(e) && if row_at(
                            rows@,
                            f,
                        ).start + row_at(rows@, f).size > OFFSET_LIMIT {
                            is_corrupt(e, "registry row"@, (4096 + 64 * f) as u64)
                        } else {
                            is_corrupt(e, "registry row kind"@, (4096 + 64 * f + 64) as u64)
                        })
                    &&& (forall|f: int| 0 <= f < s ==> row_ok(#[trigger] row_at(rows@, f))) && s < rows@.len()
                        / 64 && !chunk_zero(rows@, s) ==> (res matches Err(e) && is_corrupt(
                        e,
                        "registry row"@,
                        (4096 + 64 * s) as u64,
                    ))
                },
    {
        let start_size = if initial_size < crate::format::PAGE_SIZE_U64 {
            crate::format::PAGE_SIZE_U64
        } else {
            initial_size
        };
        let mut p = BucketPlacement::new(start_size);
        proof {
            assert(p.model() =~~= empty_model(initial_size));
        }
        let n = rows.len() / REGISTRY_ROW_SIZE;
        let mut k: usize = 0;
        while k < n
            invariant
                n == rows@.len() / 64,
                k <= n,
                4096 + rows@.len() + 64 <= u64::MAX,
                p.wf(),
                p.unsettled(),
                p.model() == replay_rows(empty_model(initial_size), rows@, k as int),
                decodes_upto(rows@, k as int),
                forall|f: int| 0 <= f < k ==> row_ok(#[trigger] row_at(rows@, f)),
                p.registry_end == 4096 + 64 * k,
                p.extent_grant_count == k,
            decreases n - k,
        {
            let total = rows.len();
            assert(64 * k + 64 <= total) by (nonlinear_arith)
                requires
                    k < n,
                    n == total / 64,
            ;
            let piece = &rows[k * REGISTRY_ROW_SIZE..k * REGISTRY_ROW_SIZE + REGISTRY_ROW_SIZE];
            assert(piece@ =~= chunk(rows@, k as int));
            match RegistryRow::decode(piece) {
                None => {
                    proof {
                        assert(rows_stop(rows@, k as int));
                        assert forall|s: int| rows_stop(rows@, s) implies s == k by {
                            if s < k {
                                assert(spec_decode_registry_row(chunk(rows@, s)) is Some);
                            }
                            if s > k {
                                assert(spec_decode_registry_row(chunk(rows@, k as int)) is Some);
                            }
                        }
                    }
                    if all_zero(piece) {
                        proof {
                            assert forall|j: int| 64 * k <= j < 64 * k + 64 implies #[trigger] rows@[j] == 0 by {
                                assert(piece@[j - 64 * k] == 0);
                            }
                        }
                        return Ok(p);
                    } else {
                        proof {
                            assert(!chunk_zero(rows@, k as int)) by {
                                let j = choose|j: int| 0 <= j < piece@.len() && piece@[j] != 0;
                                assert(rows@[64 * k + j] != 0);
                            }
                        }
                        return Err(HeapError::Corrupt { what: "registry row", offset: p.registry_end });
                    }
                },
                Some(row) => {
                    let ghost before = p.model();
                    let step = p.replay_row(row);
                    proof {
                        assert(row == row_at(rows@, k as int));
                        assert(decodes_upto(rows@, k + 1));
                        assert forall|s: int| rows_stop(rows@, s) implies s > k by {
                            if s <= k {
                                assert(spec_decode_registry_row(chunk(rows@, k as int)) is Some);
                                if s < k {
                                    assert(spec_decode_registry_row(chunk(rows@, s)) is Some);
                                }
                            }
                        }
                    }
                    match step {
                        Ok(()) => {},
                        Err(e) => {
                            proof {
                                assert(first_bad_row(rows@, k as int));
                                assert forall|f: int| 0 <= f && #[trigger] first_bad_row(rows@, f) implies f == k by {
                                    if f < k {
                                        assert(row_ok(row_at(rows@, f)));
                                    }
                                    if f > k {
                                        assert(row_ok(row_at(rows@, k as int)));
                                    }
                                }
                            }
                            return Err(e);
                        },
                    }
                },
            }
            k += 1;
        }
        proof {
            assert forall|s: int| rows_stop(rows@, s) implies s == n by {
                if s < n {
                    assert(spec_decode_registry_row(chunk(rows@, s)) is Some);
                }
            }
        }
        Ok(p)
    }
}

/// The slot's record lies within `[lo, hi)` of the data file.
pub open spec fn slot_within(state: SlotState, lo: int, hi: int) -> bool {
    match state {
        SlotState::Live(slot) => lo <= slot.offset && slot.offset + slot.total_len <= hi,
        SlotState::Deleted(slot) => lo <= slot.offset && slot.offset + slot.total_len <= hi,
        SlotState::Empty => false,
    }
}

/// What the index slots of one bucket's regions say, gathered region by
/// region: the state of every record number whose slot is not empty, the
/// largest such number, and the furthest end of the records that lie in
/// the bucket's last data extent, `[lo, hi)`.
pub struct SlotScan {
    pub known: HashMap<u64, SlotState>,
    pub lo: u64,
    pub hi: u64,
    pub max_end: u64,
    pub max_id: Option<u64>,
}

impl SlotScan {
    pub open spec fn wf(&self) -> bool {
        &&& self.lo <= self.max_end
        &&& forall|id: u64| #[trigger] self.known@.contains_key(id) ==> !(self.known@[id] is Empty)
        &&& forall|id: u64|
            #[trigger] self.known@.contains_key(id) && slot_within(
                self.known@[id],
                self.lo as int,
                self.hi as int,
            ) ==> slot_end(self.known@[id]) <= self.max_end
        &&& self.max_end == self.lo || exists|id: u64|
            #[trigger] self.known@.contains_key(id) && slot_within(
                self.known@[id],
                self.lo as int,
                self.hi as int,
            ) && slot_end(self.known@[id]) == self.max_end
        &&& forall|id: u64| #[trigger] self.known@.contains_key(id) ==> (self.max_id matches Some(m) && id <= m)
        &&& self.max_id matches Some(m) ==> self.known@.contains_key(m)
    }

    /// Nothing scanned yet, for a bucket whose last data extent is `[lo, hi)`.
    pub fn new(lo: u64, hi: u64) -> (r: Self)
        ensures
            r.wf(),
            r.known@ == Map::<u64, SlotState>::empty(),
            r.lo == lo,
            r.hi == hi,
    {
        let r = SlotScan { known: HashMap::new(), lo, hi, max_end: lo, max_id: None };
        assert(r.known@ =~= Map::empty());
        r
    }

    /// What the index says of record number `id`.
    pub fn state_of(&self, id: u64) -> (r: SlotState)
        ensures
            r == (if self.known@.contains_key(id) {
                self.known@[id]
            } else {
                SlotState::Empty
            }),
    {
        match self.known.get(&id) {
            Some(state) => *state,
            None => SlotState::Empty,
        }
    }
}

/// The number of leading slots, among the first `k` of `bytes`, up to and
/// including the last one that is not empty.
pub open spec fn last_used(bytes: Seq<u8>, k: int) -> int
    decreases k,
{
    if k <= 0 {
        0
    } else if !(slot_in(bytes, k - 1) is Empty) {
        k
    } else {
        last_used(bytes, k - 1)
    }
}

/// The states of the non-empty slots among the first `k` of a region
/// whose first record number is `start`.
pub open spec fn region_states(bytes: Seq<u8>, start: int, k: int) -> Map<u64, SlotState> {
    Map::new(
        |id: u64| start <= id < start + k && !(slot_in(bytes, id - start) is Empty),
        |id: u64| slot_in(bytes, id - start),
    )
}

impl BucketPlacement {
    /// Takes in the index slots of region `r` of bucket `b` (`slots` holds
    /// one 16-byte slot per record number of the region): each slot that is
    /// not empty is recorded in `scan`; the region counts as used up to its
    /// last slot that is not empty when it is the bucket's last region, and
    /// as full otherwise. A record number met again with another state is
    /// a corrupt index slot.
    pub fn settle_region(&mut self, b: usize, r: usize, slots: &[u8], scan: &mut SlotScan) -> (res:
        Result<(), HeapError>)
        requires
            old(self).wf(),
            b < old(self).states@.len(),
            r < old(self).states@[b as int].slots@.len(),
            slots@.len() == 16 * old(self).states@[b as int].slots@[r as int].size,
            old(scan).wf(),
        ensures
            final(self).wf(),
            final(scan).wf(),
            final(scan).lo == old(scan).lo,
            final(scan).hi == old(scan).hi,
            final(self).extent_grant_count == old(self).extent_grant_count,
            final(self).file_size == old(self).file_size,
            final(self).next_region == old(self).next_region,
            final(self).registry_end == old(self).registry_end,
            final(self).bucket_indices@ == old(self).bucket_indices@,
            ({
                let region = old(self).states@[b as int].slots@[r as int];
                let fresh = region_states(slots@, region.start as int, region.size as int);
                &&& res is Err <==> exists|id: u64|
                    #[trigger] fresh.contains_key(id) && old(scan).known@.contains_key(id)
                        && old(scan).known@[id] != fresh[id]
                &&& res is Err ==> (res matches Err(e) && is_corrupt(e, "index slot"@, 0))
                &&& res is Ok ==> {
                    &&& final(scan).known@ == old(scan).known@.union_prefer_right(fresh)
                    &&& final(self).states@.len() == old(self).states@.len()
                    &&& forall|i: int|
                        0 <= i < old(self).states@.len() && i != b ==> #[trigger] final(self).states@[i]
                            == old(self).states@[i]
                    &&& final(self).states@[b as int].id == old(self).states@[b as int].id
                    &&& final(self).states@[b as int].data@ == old(self).states@[b as int].data@
                    &&& final(self).states@[b as int].slots@ == old(self).states@[b as int].slots@.update(
                        r as int,
                        Extent {
                            used: if r + 1 == old(self).states@[b as int].slots@.len() {
                                last_used(slots@, region.size as int) as u64
                            } else {
                                region.size
                            },
                            ..region
                        },
                    )
                }
            }),
    {
        let region = self.states[b].slots[r];
        let ghost fresh = region_states(slots@, region.start as int, region.size as int);
        proof {
            assert(extent_fits(self.states@[b as int].slots@[r as int], self.next_region as int));
        }
        let count = region.size;
        let mut idx: u64 = 0;
        let mut last: u64 = 0;
        while idx < count
            invariant
                idx <= count,
                count == region.size,
                region.start + region.size <= u64::MAX,
                slots@.len() == 16 * count,
                last == last_used(slots@, idx as int),
                *self == *old(self),
                old(self).wf(),
                b < old(self).states@.len(),
                r < old(self).states@[b as int].slots@.len(),
                region == old(self).states@[b as int].slots@[r as int],
                scan.wf(),
                scan.lo == old(scan).lo,
                scan.hi == old(scan).hi,
                fresh == region_states(slots@, region.start as int, region.size as int),
                scan.known@ == old(scan).known@.union_prefer_right(
                    region_states(slots@, region.start as int, idx as int),
                ),
                forall|id: u64|
                    #[trigger] fresh.contains_key(id) && old(scan).known@.contains_key(id) && id
                        < region.start + idx ==> old(scan).known@[id] == fresh[id],
            decreases count - idx,
        {
            let total = slots.len();
            assert(16 * idx + 16 <= total) by (nonlinear_arith)
                requires
                    idx < count,
                    total == 16 * count,
            ;
            let at = (idx * 16) as usize;
            let piece = &slots[at..at + 16];
            let state = Slot::state(piece);
            proof {
                assert(piece@ =~= slots@.subrange(16 * idx, 16 * idx + 16));
            }
            let id = region.start + idx;
            match state {
                SlotState::Empty => {
                    proof {
                        assert(scan.known@ =~= old(scan).known@.union_prefer_right(
                            region_states(slots@, region.start as int, idx + 1),
                        ));
                    }
                },
                _ => {
                    match scan.known.get(&id) {
                        Some(prev) => {
                            if *prev != state {
                                proof {
                                    assert(fresh.contains_key(id));
                                    assert(!region_states(slots@, region.start as int, idx as int).contains_key(id));
                                    assert(old(scan).known@.contains_key(id));
                                    assert(fresh[id] == state);
                                }
                                return Err(HeapError::Corrupt { what: "index slot", offset: 0 });
                            }
                        },
                        None => {},
                    }
                    let ghost pk = scan.known@;
                    scan.known.insert(id, state);
                    if state_within(state, scan.lo, scan.hi) {
                        let end = state_end(state);
                        if end > scan.max_end {
                            scan.max_end = end;
                        }
                    }
                    scan.max_id = match scan.max_id {
                        Some(m) => if id > m { Some(id) } else { Some(m) },
                        None => Some(id),
                    };
                    proof {
                        assert(scan.known@ =~= old(scan).known@.union_prefer_right(
                            region_states(slots@, region.start as int, idx + 1),
                        ));
                        if scan.max_end != scan.lo {
                            if slot_within(state, scan.lo as int, scan.hi as int) && slot_end(state) == scan.max_end {
                                assert(scan.known@.contains_key(id));
                            } else {
                                let w = choose|w: u64| #[trigger] pk.contains_key(w) && slot_within(
                                    pk[w],
                                    scan.lo as int,
                                    scan.hi as int,
                                ) && slot_end(pk[w]) == scan.max_end;
                                assert(scan.known@.contains_key(w));
                            }
                        }
                    }
                },
            }
            if state != SlotState::Empty {
                last = idx + 1;
            }
            idx += 1;
        }
        proof {
            assert(region_states(slots@, region.start as int, idx as int) =~= fresh);
        }
        let region_count = self.states[b].slots.len();
        let used = if r == region_count - 1 {
            last
        } else {
            region.size
        };
        self.states[b].slots[r].used = used;
        proof {
            assert(last <= count) by {
                lemma_last_used_bound(slots@, count as int);
            }
            let qs = self.states@;
            assert forall|a: int, c: int|
                0 <= a < qs.len() && 0 <= c < qs[a].slots@.len() implies extent_fits(
                #[trigger] qs[a].slots@[c],
                self.next_region as int,
            ) by {
                assert(extent_fits(old(self).states@[a].slots@[c], self.next_region as int));
            }
            assert forall|a: int, c: int|
                0 <= a < qs.len() && 0 <= c < qs[a].data@.len() implies extent_fits(
                #[trigger] qs[a].data@[c],
                self.file_size as int,
            ) by {
                assert(extent_fits(old(self).states@[a].data@[c], self.file_size as int));
            }
            assert forall|a: int| 0 <= a < qs.len() implies self.bucket_indices@.contains_key(
                #[trigger] qs[a].id,
            ) && self.bucket_indices@[qs[a].id] == a by {
                assert(qs[a].id == old(self).states@[a].id);
            }
            assert forall|k: u64| #[trigger] self.bucket_indices@.contains_key(k) implies (
            self.bucket_indices@[k] as int) < qs.len() && qs[self.bucket_indices@[k] as int].id
                == k by {
                assert(qs[self.bucket_indices@[k] as int].id == old(self).states@[self.bucket_indices@[k] as int].id);
            }
            assert(self.states@[b as int].slots@ =~= old(self).states@[b as int].slots@.update(
                r as int,
                Extent { used: used, ..region },
            ));
        }
        Ok(())
    }
}

proof fn lemma_last_used_bound(bytes: Seq<u8>, k: int)
    requires
        0 <= k,
    ensures
        0 <= last_used(bytes, k) <= k,
    decreases k,
{
    if k > 0 {
        lemma_last_used_bound(bytes, k - 1);
    }
}

/// Whether the slot's record lies within `[lo, hi)`.
fn state_within(state: SlotState, lo: u64, hi: u64) -> (r: bool)
    ensures
        r == slot_within(state, lo as int, hi as int),
{
    match state {
        SlotState::Live(slot) | SlotState::Deleted(slot) => lo <= slot.offset && slot.offset <= hi
            && slot.total_len <= hi - slot.offset,
        SlotState::Empty => false,
    }
}

/// The end of the slot's record, for a slot that lies within a range.
fn state_end(state: SlotState) -> (r: u64)
    requires
        exists|lo: int, hi: int| hi <= u64::MAX && slot_within(state, lo, hi),
    ensures
        r == slot_end(state),
{
    match state {
        SlotState::Live(slot) | SlotState::Deleted(slot) => slot.offset + slot.total_len,
        SlotState::Empty => 0,
    }
}

/// The data extents of a bucket once settled: all but the last are full;
/// the last is used up to the furthest end of the records found in it by
/// the walk (`walk_end`) and of those the index points into it
/// (`slot_end`).
pub open spec fn settled_data(data: Seq<Extent>, walk_end: int, slot_end: int) -> Seq<Extent> {
    Seq::new(
        data.len(),
        |j: int|
            if j < data.len() - 1 {
                Extent { used: data[j].size, ..data[j] }
            } else {
                Extent {
                    used: (if walk_end >= slot_end {
                        walk_end
                    } else {
                        slot_end
                    } - data[j].start) as u64,
                    ..data[j]
                }
            },
    )
}

/// The largest record number among those the index knows (`known_max`) and
/// those found.
pub open spec fn max_id_of(known_max: Option<u64>, found: Seq<Found>) -> Option<u64>
    decreases found.len(),
{
    if found.len() == 0 {
        known_max
    } else {
        let m = max_id_of(known_max, found.drop_last());
        let id = found.last().0;
        if m matches Some(v) && v >= id {
            m
        } else {
            Some(id)
        }
    }
}

/// The settled number is the largest one: none at all only when the index
/// knows none and nothing was found; otherwise it is at least the index's
/// largest and every found number, and is one of them.
pub proof fn lemma_max_id_is_largest(known_max: Option<u64>, found: Seq<Found>)
    ensures
        max_id_of(known_max, found) is None <==> (known_max is None && found.len() == 0),
        max_id_of(known_max, found) is Some ==> {
            let m = max_id_of(known_max, found).unwrap();
            &&& known_max is Some ==> known_max.unwrap() <= m
            &&& forall|i: int| 0 <= i < found.len() ==> (#[trigger] found[i]).0 <= m
            &&& known_max == Some(m) || exists|i: int| 0 <= i < found.len() && (#[trigger] found[i]).0 == m
        },
    decreases found.len(),
{
    if found.len() > 0 {
        let rest = found.drop_last();
        lemma_max_id_is_largest(known_max, rest);
        let m = max_id_of(known_max, found).unwrap();
        assert forall|i: int| 0 <= i < found.len() implies (#[trigger] found[i]).0 <= m by {
            if i < found.len() - 1 {
                assert(found[i] == rest[i]);
            }
        }
        if !(known_max == Some(m)) {
            if m == found.last().0 {
                assert(found[found.len() - 1].0 == m);
            } else {
                let j = choose|j: int| 0 <= j < rest.len() && (#[trigger] rest[j]).0 == m;
                assert(found[j] == rest[j]);
            }
        }
    }
}

/// The largest record number among `known_max` and the numbers of `found`.
pub fn max_found_id(known_max: Option<u64>, found: &[Found]) -> (r: Option<u64>)
    ensures
        r == max_id_of(known_max, found@),
        r is None <==> (known_max is None && found@.len() == 0),
        r matches Some(m) ==> {
            &&& known_max is Some ==> known_max.unwrap() <= m
            &&& forall|i: int| 0 <= i < found@.len() ==> (#[trigger] found@[i]).0 <= m
            &&& known_max == Some(m) || exists|i: int|
                0 <= i < found@.len() && (#[trigger] found@[i]).0 == m
        },
{
    proof {
        lemma_max_id_is_largest(known_max, found@);
    }
    let mut m = known_max;
    let mut k: usize = 0;
    while k < found.len()
        invariant
            k <= found@.len(),
            m == max_id_of(known_max, found@.take(k as int)),
        decreases found@.len() - k,
    {
        proof {
            assert(found@.take(k + 1).drop_last() =~= found@.take(k as int));
        }
        let id = found[k].0;
        m = match m {
            Some(v) => if v >= id { Some(v) } else { Some(id) },
            None => Some(id),
        };
        k += 1;
    }
    proof {
        assert(found@.take(k as int) =~= found@);
    }
    m
}

impl BucketPlacement {
    /// Settles the data extents of bucket `b` after its slots were scanned
    /// (`slots`) and its last data extent was walked (`tail`), both over that
    /// extent: all extents but the last are full, the last is used up to the
    /// furthest end of the records that the walk found or that the index
    /// points into it.
    pub fn settle_extents(&mut self, b: usize, slots: &SlotScan, tail: &TailScan)
        requires
            old(self).wf(),
            b < old(self).states@.len(),
            old(self).states@[b as int].data@.len() > 0,
            slots.wf(),
            tail.wf(),
            slots.lo == tail.lo == last_extent(old(self).states@[b as int]).start,
            slots.hi == tail.hi == last_extent(old(self).states@[b as int]).start + last_extent(
                old(self).states@[b as int],
            ).size,
        ensures
            final(self).wf(),
            final(self).extent_grant_count == old(self).extent_grant_count,
            final(self).file_size == old(self).file_size,
            final(self).next_region == old(self).next_region,
            final(self).registry_end == old(self).registry_end,
            final(self).bucket_indices@ == old(self).bucket_indices@,
            final(self).states@.len() == old(self).states@.len(),
            forall|i: int|
                0 <= i < old(self).states@.len() && i != b ==> #[trigger] final(self).states@[i]
                    == old(self).states@[i],
            final(self).states@[b as int].id == old(self).states@[b as int].id,
            final(self).states@[b as int].slots@ == old(self).states@[b as int].slots@,
            final(self).states@[b as int].data@ == settled_data(
                old(self).states@[b as int].data@,
                tail.end as int,
                slots.max_end as int,
            ),
    {
        let count = self.states[b].data.len();
        let ghost pre = self.states@;
        let mut e: usize = 0;
        while e + 1 < count
            invariant
                count == pre[b as int].data@.len(),
                count > 0,
                pre == old(self).states@,
                old(self).wf(),
                self.file_size == old(self).file_size,
                self.next_region == old(self).next_region,
                self.extent_grant_count == old(self).extent_grant_count,
                self.registry_end == old(self).registry_end,
                self.bucket_indices@ == old(self).bucket_indices@,
                e + 1 <= count,
                b < pre.len(),
                self.states@.len() == pre.len(),
                forall|i: int| 0 <= i < pre.len() && i != b ==> #[trigger] self.states@[i] == pre[i],
                self.states@[b as int].id == pre[b as int].id,
                self.states@[b as int].slots@ == pre[b as int].slots@,
                self.states@[b as int].data@.len() == count,
                forall|j: int|
                    0 <= j < count ==> #[trigger] self.states@[b as int].data@[j] == if j < e {
                        Extent { used: pre[b as int].data@[j].size, ..pre[b as int].data@[j] }
                    } else {
                        pre[b as int].data@[j]
                    },
            decreases count - e,
        {
            let size = self.states[b].data[e].size;
            self.states[b].data[e].used = size;
            e += 1;
        }
        let last = self.states[b].data[count - 1];
        proof {
            assert(slots.max_end <= slots.hi) by {
                if slots.max_end != slots.lo {
                    let w = choose|w: u64| #[trigger] slots.known@.contains_key(w) && slot_within(
                        slots.known@[w],
                        slots.lo as int,
                        slots.hi as int,
                    ) && slot_end(slots.known@[w]) == slots.max_end;
                }
            }
        }
        let reach = if tail.end >= slots.max_end {
            tail.end
        } else {
            slots.max_end
        };
        self.states[b].data[count - 1].used = reach - last.start;
        proof {
            assert(self.states@[b as int].data@ =~= settled_data(
                pre[b as int].data@,
                tail.end as int,
                slots.max_end as int,
            ));
            let qs = self.states@;
            assert forall|a: int, c: int|
                0 <= a < qs.len() && 0 <= c < qs[a].data@.len() implies extent_fits(
                #[trigger] qs[a].data@[c],
                self.file_size as int,
            ) by {
                assert(extent_fits(pre[a].data@[c], self.file_size as int));
            }
            assert forall|a: int, c: int|
                0 <= a < qs.len() && 0 <= c < qs[a].slots@.len() implies extent_fits(
                #[trigger] qs[a].slots@[c],
                self.next_region as int,
            ) by {
                assert(extent_fits(pre[a].slots@[c], self.next_region as int));
            }
            assert forall|a: int| 0 <= a < qs.len() implies self.bucket_indices@.contains_key(
                #[trigger] qs[a].id,
            ) && self.bucket_indices@[qs[a].id] == a by {
                assert(qs[a].id == pre[a].id);
            }
            assert forall|k: u64| #[trigger] self.bucket_indices@.contains_key(k) implies (
            self.bucket_indices@[k] as int) < qs.len() && qs[self.bucket_indices@[k] as int].id
                == k by {
                assert(qs[self.bucket_indices@[k] as int].id == pre[self.bucket_indices@[k] as int].id);
            }
        }
    }

    /// Raises how much of bucket `b`'s last region is used so that it
    /// covers record number `max_id` (the largest the index or the walk
    /// met), when that number lies in or past the region; the count stays
    /// within the region's size, a full region being all that allocation
    /// looks at.
    pub fn bump_region(&mut self, b: usize, max_id: Option<u64>)
        requires
            old(self).wf(),
            b < old(self).states@.len(),
            old(self).states@[b as int].slots@.len() > 0,
        ensures
            final(self).wf(),
            final(self).extent_grant_count == old(self).extent_grant_count,
            final(self).file_size == old(self).file_size,
            final(self).next_region == old(self).next_region,
            final(self).registry_end == old(self).registry_end,
            final(self).bucket_indices@ == old(self).bucket_indices@,
            final(self).states@.len() == old(self).states@.len(),
            forall|i: int|
                0 <= i < old(self).states@.len() && i != b ==> #[trigger] final(self).states@[i]
                    == old(self).states@[i],
            final(self).states@[b as int].id == old(self).states@[b as int].id,
            final(self).states@[b as int].data@ == old(self).states@[b as int].data@,
            ({
                let rs = old(self).states@[b as int].slots@;
                let reg = rs.last();
                final(self).states@[b as int].slots@ == if max_id is Some && max_id->0 >= reg.start {
                    let m = max_id->0;
                    let want = if reg.used >= m - reg.start + 1 {
                        reg.used as int
                    } else {
                        m - reg.start + 1
                    };
                    rs.update(
                        rs.len() - 1,
                        Extent {
                            used: if want <= reg.size {
                                want as u64
                            } else {
                                reg.size
                            },
                            ..reg
                        },
                    )
                } else {
                    rs
                }
            }),
    {
        let count = self.states[b].slots.len();
        let reg = self.states[b].slots[count - 1];
        let ghost pre = self.states@;
        if let Some(m) = max_id {
            if m >= reg.start {
                let span = m - reg.start;
                let mut used = reg.used;
                if span >= reg.used {
                    if span >= reg.size {
                        used = reg.size;
                    } else {
                        used = span + 1;
                    }
                }
                self.states[b].slots[count - 1].used = used;
                proof {
                    let qs = self.states@;
                    assert(extent_fits(pre[b as int].slots@[count - 1], self.next_region as int));
                    assert forall|a: int, c: int|
                        0 <= a < qs.len() && 0 <= c < qs[a].slots@.len() implies extent_fits(
                        #[trigger] qs[a].slots@[c],
                        self.next_region as int,
                    ) by {
                        assert(extent_fits(pre[a].slots@[c], self.next_region as int));
                    }
                    assert forall|a: int, c: int|
                        0 <= a < qs.len() && 0 <= c < qs[a].data@.len() implies extent_fits(
                        #[trigger] qs[a].data@[c],
                        self.file_size as int,
                    ) by {
                        assert(extent_fits(pre[a].data@[c], self.file_size as int));
                    }
                    assert forall|a: int| 0 <= a < qs.len() implies self.bucket_indices@.contains_key(
                        #[trigger] qs[a].id,
                    ) && self.bucket_indices@[qs[a].id] == a by {
                        assert(qs[a].id == pre[a].id);
                    }
                    assert forall|k: u64| #[trigger] self.bucket_indices@.contains_key(k) implies (
                    self.bucket_indices@[k] as int) < qs.len() && qs[self.bucket_indices@[k] as int].id
                        == k by {
                        assert(qs[self.bucket_indices@[k] as int].id == pre[self.bucket_indices@[k] as int].id);
                    }
                    assert(self.states@[b as int].slots@ =~= pre[b as int].slots@.update(
                        count - 1,
                        Extent { used, ..reg },
                    ));
                }
            }
        }
    }
}

impl BucketPlacement {
    /// Takes in the size that the data file has on disk: the placement's
    /// view of the file grows to it when it is larger.
    pub fn note_file_size(&mut self, size: u64)
        requires
            old(self).wf(),
            size <= OFFSET_LIMIT,
        ensures
            final(self).wf(),
            final(self).file_size == if size > old(self).file_size {
                size
            } else {
                old(self).file_size
            },
            final(self).states == old(self).states,
            final(self).bucket_indices == old(self).bucket_indices,
            final(self).extent_grant_count == old(self).extent_grant_count,
            final(self).next_region == old(self).next_region,
            final(self).registry_end == old(self).registry_end,
    {
        if size > self.file_size {
            self.file_size = size;
        }
        proof {
            let qs = self.states@;
            assert forall|a: int, c: int|
                0 <= a < qs.len() && 0 <= c < qs[a].data@.len() implies extent_fits(
                #[trigger] qs[a].data@[c],
                self.file_size as int,
            ) by {
                assert(extent_fits(old(self).states@[a].data@[c], old(self).file_size as int));
            }
        }
    }
}

/// The extents with nothing counted as used: what the registry records of them.
pub open spec fn unused(data: Seq<Extent>) -> Seq<Extent> {
    data.map_values(|e: Extent| Extent { used: 0, ..e })
}

/// The registry row that the grant of extent `e` to bucket `id` writes.
pub open spec fn grant_row(id: u64, e: Extent) -> RegistryRow {
    RegistryRow { kind: ROW_DATA, bucket: id, start: e.start, size: e.size }
}

/// Replaying the registry row that a grant writes does what the grant did:
/// it cuts the same extent back and gives the bucket the same new extent,
/// so that, up to what is counted as used, every bucket's data extents
/// after the replay are those after the grant. This holds for a grant of
/// a positive number of bytes (`need > 0`) on a placement whose extents do
/// not overlap; `g` is the grant number that succeeds, with the conditions
/// under which `grant_extent` picks it.
pub proof fn lemma_grant_row_replays(p: BucketPlacement, g: nat, need: u64, growth: u64, b: int)
    requires
        p.wf(),
        p.extents_disjoint(),
        0 <= b < p.states@.len(),
        need > 0,
        g == 0 ==> p.extent_grant_count == 0,
        grant_cuts(p.states@, g) ==> p.states@[victim_of(g)].data@.len() > 0 && free_room(
            last_extent(p.states@[victim_of(g)]),
        ) >= need,
    ensures
        ({
            let e = granted_extent(p.states@, p.file_size as int, g, need as int, growth as int);
            let replayed = apply_row(p.model(), grant_row(p.states@[b].id, e));
            &&& replayed.buckets.len() == p.states@.len()
            &&& forall|i: int|
                0 <= i < p.states@.len() ==> unused(#[trigger] replayed.buckets[i].data) == unused(
                    data_after_grant(p.states@, g, need as int, i, b, e),
                )
        }),
{
    let states = p.states@;
    let e = granted_extent(states, p.file_size as int, g, need as int, growth as int);
    if g >= 1 {
        lemma_section_base_next(g);
    }
    let id = states[b].id;
    let row = grant_row(id, e);
    let bs = buckets_model(states);
    assert(bs[b].id == id);
    assert(has_bucket(bs, id));
    assert(with_bucket(bs, id) == bs);
    if grant_cuts(states, g) {
        let v = victim_of(g);
        let k = states[v].data@.len() - 1;
        let last = states[v].data@[k];
        let cut = cut_size(free_room(last), need as int);
        assert(extent_fits(last, p.file_size as int));
        assert(0 <= free_room(last) <= last.size);
        assert(spec_page_down(free_room(last) / 2) <= free_room(last)) by {
            lemma_page_up_bounds(free_room(last) / 2);
        }
        assert(need <= cut <= last.size);
        assert(holds_row(bs[v].data[k], row));
        assert forall|i2: int, j2: int|
            0 <= i2 < bs.len() && 0 <= j2 < bs[i2].data.len() && (i2 < v || (i2 == v && j2 < k))
                implies !holds_row(#[trigger] bs[i2].data[j2], row) by {
            assert(extents_apart(states[i2].data@[j2], states[v].data@[k]));
        }
        assert(first_holder(bs, row, v, k));
        let (ci, cj) = choose|i: int, j: int| first_holder(bs, row, i, j);
        lemma_first_holder_unique(bs, row, v, k, ci, cj);
    } else {
        assert forall|i: int, j: int| !first_holder(bs, row, i, j) by {
            if 0 <= i < bs.len() && 0 <= j < bs[i].data.len() {
                assert(extent_fits(states[i].data@[j], p.file_size as int));
                if g == 0 {
                    assert(states[i].data@.len() == 0);
                }
            }
        }
    }
    let cut = cut_holder(bs, row);
    assert forall|i: int| 0 <= i < cut.len() implies (#[trigger] cut[i]).id == states[i].id by {}
    let pos = bucket_pos(cut, id);
    assert(cut[b].id == id);
    assert(0 <= pos < cut.len() && cut[pos].id == id);
    assert(p.bucket_indices@[states[pos].id] == pos);
    assert(p.bucket_indices@[states[b].id] == b);
    assert(pos == b);
    let replayed = apply_row(p.model(), row);
    assert forall|i: int|
        0 <= i < states.len() implies unused(#[trigger] replayed.buckets[i].data) == unused(
            data_after_grant(states, g, need as int, i, b, e),
        ) by {
        assert(unused(replayed.buckets[i].data) =~= unused(
            data_after_grant(states, g, need as int, i, b, e),
        ));
    }
}

/// Replaying the registry row that the grant of a region writes does what
/// that grant did: bucket `b` gets the region of `region_slots` record
/// numbers from the next free one on, and the next free number moves past
/// it.
pub proof fn lemma_region_row_replays(p: BucketPlacement, b: int, region_slots: u64)
    requires
        p.wf(),
        0 <= b < p.states@.len(),
    ensures
        ({
            let row = RegistryRow {
                kind: ROW_SLOTS,
                bucket: p.states@[b].id,
                start: p.next_region,
                size: region_slots,
            };
            let replayed = apply_row(p.model(), row);
            &&& replayed.buckets.len() == p.states@.len()
            &&& replayed.buckets[b].slots == p.states@[b].slots@.push(
                Extent { start: p.next_region, size: region_slots, used: 0 },
            )
            &&& forall|i: int|
                0 <= i < p.states@.len() && i != b ==> (#[trigger] replayed.buckets[i]).slots
                    == p.states@[i].slots@
            &&& forall|i: int|
                0 <= i < p.states@.len() ==> (#[trigger] replayed.buckets[i]).data == p.states@[i].data@
            &&& replayed.next_region == p.next_region + region_slots
        }),
{
    let states = p.states@;
    let id = states[b].id;
    let bs = buckets_model(states);
    assert(bs[b].id == id);
    assert(has_bucket(bs, id));
    let pos = bucket_pos(bs, id);
    assert(p.bucket_indices@[states[pos].id] == pos);
    assert(p.bucket_indices@[states[b].id] == b);
}

} // verus!
