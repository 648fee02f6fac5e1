//! Records in the data file: how a record is laid out (header, then
//! payload), how a read record is checked, how a batch of record reads is
//! grouped into page-aligned reads, and how far the file is allocated.

use vstd::prelude::*;
use crate::crc32::{crc32c, spec_crc32c};
use crate::error::HeapError;
use crate::format::{
    header_len, lemma_record_header_len, lemma_record_header_roundtrip, page_down, page_up,
    record_header_bytes, spec_decode_file_header, spec_decode_record_header, spec_page_down,
    spec_page_up, stored_header, FileHeader, RecordHeader,
};
use crate::sort::{pair_le, pairs_ascending, sort_pairs};

verus! {

broadcast use vstd::slice::group_slice_axioms;

/// How records are written in one data file: with or without the bucket
/// field, and with or without a payload checksum.
#[derive(Debug, Clone, Copy)]
pub struct DataFile {
    pub with_bucket: bool,
    pub integrity: bool,
}

/// The header that is written in front of `payload`.
pub open spec fn header_for(
    file: DataFile,
    bucket: u64,
    id: u64,
    version: u16,
    payload: Seq<u8>,
) -> RecordHeader {
    RecordHeader {
        len: payload.len() as u64,
        bucket,
        id,
        version,
        crc: if file.integrity {
            spec_crc32c(payload)
        } else {
            0
        },
    }
}

/// The bytes of a record: its header, then its payload.
pub open spec fn record_image(
    file: DataFile,
    bucket: u64,
    id: u64,
    version: u16,
    payload: Seq<u8>,
) -> Seq<u8> {
    record_header_bytes(header_for(file, bucket, id, version, payload), file.with_bucket) + payload
}

/// `e` is the error `Corrupt` with the given description and offset.
pub open spec fn is_corrupt(e: HeapError, what: Seq<char>, offset: u64) -> bool {
    e matches HeapError::Corrupt { what: w, offset: o } && w@ == what && o == offset
}

/// The header that `parse` reads at `buffer_offset`.
pub open spec fn header_at(file: DataFile, buffer: Seq<u8>, buffer_offset: int) -> Option<
    RecordHeader,
> {
    spec_decode_record_header(buffer.skip(buffer_offset), file.with_bucket)
}

/// The payload that follows a header of `file` at `buffer_offset`.
pub open spec fn payload_at(
    file: DataFile,
    buffer: Seq<u8>,
    buffer_offset: int,
    h: RecordHeader,
) -> Seq<u8> {
    let start = buffer_offset + header_len(file.with_bucket);
    buffer.subrange(start, start + h.len)
}

/// `h` is the header of record `expect_id`, of `total_len` bytes in all.
pub open spec fn identity_ok(file: DataFile, h: RecordHeader, expect_id: u64, total_len: u64) -> bool {
    h.id == expect_id && h.len + header_len(file.with_bucket) == total_len
}

/// The payload passes the integrity check, when there is one.
pub open spec fn checksum_ok(file: DataFile, h: RecordHeader, payload: Seq<u8>) -> bool {
    !file.integrity || spec_crc32c(payload) == h.crc
}

/// Zero bytes of length `n`.
fn zeroed(n: usize) -> (r: Vec<u8>)
    ensures
        r@ == Seq::new(n as nat, |j: int| 0u8),
{
    let mut r: Vec<u8> = Vec::new();
    let mut k: usize = 0;
    while k < n
        invariant
            k <= n,
            r@ == Seq::new(k as nat, |j: int| 0u8),
        decreases n - k,
    {
        r.push(0);
        k += 1;
        assert(r@ =~= Seq::new(k as nat, |j: int| 0u8));
    }
    r
}

impl DataFile {
    /// Size of the header in front of every record of this file.
    pub fn record_header_len(&self) -> (r: u64)
        ensures
            r == header_len(self.with_bucket),
    {
        header_len(self.with_bucket) as u64
    }

    /// The bytes that are staged for a record: its header (with the
    /// payload's checksum when the file checks integrity, else 0), then the
    /// payload.
    pub fn frame_record(&self, bucket: u64, id: u64, version: u16, payload: &[u8]) -> (r: Vec<u8>)
        requires
            payload@.len() + 38 <= usize::MAX,
        ensures
            r@ == record_image(*self, bucket, id, version, payload@),
    {
        let crc = if self.integrity {
            crc32c(payload)
        } else {
            0
        };
        let header = RecordHeader { len: payload.len() as u64, bucket, id, version, crc };
        let header_size = header_len(self.with_bucket);
        let mut out = zeroed(header_size);
        header.encode(self.with_bucket, out.as_mut_slice());
        let ghost head = out@;
        out.extend_from_slice(payload);
        proof {
            let image = record_header_bytes(header, self.with_bucket);
            lemma_record_header_len(header, self.with_bucket);
            assert(head =~= image);
            assert(out@ =~= image + payload@);
        }
        out
    }

    /// Checks the record that starts at `buffer_offset` of `buffer` (read
    /// from file offset `offset`): its header must decode, name record
    /// `expect_id` and give the record `total_len` bytes in all, and when
    /// the file checks integrity the payload must match its checksum. On
    /// success `out` holds the payload and the header is returned.
    pub fn parse(
        &self,
        buffer: &[u8],
        buffer_offset: usize,
        total_len: u64,
        expect_id: u64,
        offset: u64,
        out: &mut Vec<u8>,
    ) -> (res: Result<RecordHeader, HeapError>)
        requires
            buffer_offset + total_len <= buffer@.len(),
        ensures
            match header_at(*self, buffer@, buffer_offset as int) {
                None => res matches Err(e) && is_corrupt(e, "record header"@, offset),
                Some(h) => if !identity_ok(*self, h, expect_id, total_len) {
                    res matches Err(e) && is_corrupt(e, "record identity"@, offset)
                } else if !checksum_ok(*self, h, payload_at(*self, buffer@, buffer_offset as int, h)) {
                    res matches Err(e) && is_corrupt(e, "record payload"@, offset)
                } else {
                    res == Ok::<RecordHeader, HeapError>(h) && final(out)@ == payload_at(
                        *self,
                        buffer@,
                        buffer_offset as int,
                        h,
                    )
                },
            },
            res is Err ==> final(out)@ == old(out)@,
    {
        let header_size = header_len(self.with_bucket);
        let rest = &buffer[buffer_offset..buffer.len()];
        assert(rest@ =~= buffer@.skip(buffer_offset as int));
        let header = match RecordHeader::decode(rest, self.with_bucket) {
            Some(h) => h,
            None => {
                return Err(HeapError::Corrupt { what: "record header", offset });
            },
        };
        if header.id != expect_id || total_len < header_size as u64 || header.len != total_len
            - header_size as u64 {
            return Err(HeapError::Corrupt { what: "record identity", offset });
        }
        let start = buffer_offset + header_size;
        let payload_end = start + header.len as usize;
        let payload = &buffer[start..payload_end];
        if self.integrity && crc32c(payload) != header.crc {
            return Err(HeapError::Corrupt { what: "record payload", offset });
        }
        out.clear();
        out.extend_from_slice(payload);
        assert(out@ =~= payload_at(*self, buffer@, buffer_offset as int, header));
        Ok(header)
    }

    /// Checks a header read on its own from file offset `offset`: it must
    /// decode and name record `expect_id`.
    pub fn check_header(&self, buffer: &[u8], buffer_offset: usize, expect_id: u64, offset: u64) -> (res:
        Result<RecordHeader, HeapError>)
        requires
            buffer_offset <= buffer@.len(),
        ensures
            match header_at(*self, buffer@, buffer_offset as int) {
                None => res matches Err(e) && is_corrupt(e, "record header"@, offset),
                Some(h) => if h.id != expect_id {
                    res matches Err(e) && is_corrupt(e, "record identity"@, offset)
                } else {
                    res == Ok::<RecordHeader, HeapError>(h)
                },
            },
    {
        let rest = &buffer[buffer_offset..buffer.len()];
        assert(rest@ =~= buffer@.skip(buffer_offset as int));
        match RecordHeader::decode(rest, self.with_bucket) {
            None => Err(HeapError::Corrupt { what: "record header", offset }),
            Some(h) => {
                if h.id != expect_id {
                    Err(HeapError::Corrupt { what: "record identity", offset })
                } else {
                    Ok(h)
                }
            },
        }
    }
}

/// Checks the first page of a file opened as a file of `kind` in `layout`:
/// its header must decode and name that kind and layout, else the file
/// header is corrupt.
pub fn check_file_header(page: &[u8], kind: u8, layout: u8) -> (res: Result<(), HeapError>)
    requires
        page@.len() >= 4096,
    ensures
        res is Ok <==> spec_decode_file_header(page@) == Some((kind, layout)),
        res is Err ==> (res matches Err(e) && is_corrupt(e, "file header"@, 0)),
{
    match FileHeader::decode(page) {
        Some(header) => {
            if header.kind == kind && header.layout == layout {
                Ok(())
            } else {
                Err(HeapError::Corrupt { what: "file header", offset: 0 })
            }
        },
        None => Err(HeapError::Corrupt { what: "file header", offset: 0 }),
    }
}

/// What is read back of a record that was framed by `frame_record` is its
/// payload: parsing the framed bytes, wherever they stand in a buffer,
/// accepts them and gives the payload back.
pub proof fn lemma_frame_then_parse(
    file: DataFile,
    bucket: u64,
    id: u64,
    version: u16,
    payload: Seq<u8>,
    before: Seq<u8>,
    after: Seq<u8>,
)
    requires
        payload.len() + 38 <= u64::MAX,
    ensures
        ({
            let buffer = before + record_image(file, bucket, id, version, payload) + after;
            let h = stored_header(header_for(file, bucket, id, version, payload), file.with_bucket);
            let total = payload.len() + header_len(file.with_bucket);
            &&& header_at(file, buffer, before.len() as int) == Some(h)
            &&& identity_ok(file, h, id, total as u64)
            &&& checksum_ok(file, h, payload_at(file, buffer, before.len() as int, h))
            &&& payload_at(file, buffer, before.len() as int, h) == payload
        }),
{
    let h0 = header_for(file, bucket, id, version, payload);
    let buffer = before + record_image(file, bucket, id, version, payload) + after;
    let hb = record_header_bytes(h0, file.with_bucket);
    let n = before.len() as int;
    assert(buffer.skip(n) =~= hb + (payload + after));
    lemma_record_header_roundtrip(h0, file.with_bucket, payload + after);
    let hs = header_len(file.with_bucket) as int;
    lemma_record_header_len(h0, file.with_bucket);
    assert(buffer.subrange(n + hs, n + hs + payload.len()) =~= payload);
}

/// The first page boundary at or before an item's start.
pub open spec fn item_lo(items: Seq<(u64, u64, u64)>, i: int) -> int {
    spec_page_down(items[i].0 as int)
}

/// The first page boundary at or after an item's end.
pub open spec fn item_hi(items: Seq<(u64, u64, u64)>, i: int) -> int {
    spec_page_up(items[i].0 + items[i].1)
}

/// The furthest page boundary that the items `order[from..k]` reach.
pub open spec fn reach(items: Seq<(u64, u64, u64)>, order: Seq<usize>, from: int, k: int) -> int
    decreases k - from,
{
    if k <= from {
        0
    } else {
        let prev = reach(items, order, from, k - 1);
        let hi = item_hi(items, order[k - 1] as int);
        if prev >= hi {
            prev
        } else {
            hi
        }
    }
}

/// One page-aligned read that covers the items `order[from..to]`.
#[derive(Debug, Clone, Copy)]
pub struct ReadGroup {
    pub start: u64,
    pub end: u64,
    pub from: usize,
    pub to: usize,
}

/// A batch of record reads: the items in order of their offsets, cut into
/// groups that are read at once.
pub struct ReadPlan {
    pub order: Vec<usize>,
    pub groups: Vec<ReadGroup>,
}

/// The items of a batch lie within the file's address range with room for
/// a page of rounding.
pub open spec fn items_fit(items: Seq<(u64, u64, u64)>) -> bool {
    forall|i: int| 0 <= i < items.len() ==> #[trigger] items[i].0 + items[i].1 + 4096 <= u64::MAX
}

/// `order` lists every item once, in ascending order of offsets (items
/// with equal offsets in the order they were given).
pub open spec fn read_order(items: Seq<(u64, u64, u64)>, order: Seq<usize>) -> bool {
    &&& order.len() == items.len()
    &&& forall|k: int| 0 <= k < order.len() ==> (#[trigger] order[k]) < items.len()
    &&& forall|i: int| 0 <= i < items.len() ==> #[trigger] order.contains(i as usize)
    &&& forall|k: int, l: int|
        0 <= k <= l < order.len() ==> pair_le(
            (items[#[trigger] order[k] as int].0, order[k] as u64),
            (items[#[trigger] order[l] as int].0, order[l] as u64),
        )
}

/// The groups cut `order` into consecutive runs. A run goes on while the
/// next item starts in a page that the run already reaches; each group
/// reads from the page of its first item's start to the furthest page its
/// items reach.
pub open spec fn grouped(items: Seq<(u64, u64, u64)>, order: Seq<usize>, groups: Seq<ReadGroup>) -> bool {
    &&& order.len() == 0 <==> groups.len() == 0
    &&& groups.len() > 0 ==> groups[0].from == 0 && groups.last().to == order.len()
    &&& forall|g: int|
        0 <= g < groups.len() ==> {
            let gr = #[trigger] groups[g];
            &&& gr.from < gr.to <= order.len()
            &&& gr.start == item_lo(items, order[gr.from as int] as int)
            &&& gr.end == reach(items, order, gr.from as int, gr.to as int)
            &&& forall|k: int|
                gr.from < k < gr.to ==> item_lo(items, #[trigger] order[k] as int) <= reach(
                    items,
                    order,
                    gr.from as int,
                    k,
                )
        }
    &&& forall|g: int|
        0 <= g < groups.len() - 1 ==> {
            &&& (#[trigger] groups[g]).to == groups[g + 1].from
            &&& groups[g].end < groups[g + 1].start
        }
}

/// Plans the reads of a batch of records, each given as (offset, length,
/// record number): the items are ordered by offset and cut into groups of
/// page-aligned reads, a new group starting where an item begins past the
/// pages that the current group reaches.
#[verifier::rlimit(40)]
pub fn plan_reads(items: &[(u64, u64, u64)]) -> (plan: ReadPlan)
    requires
        items_fit(items@),
        items@.len() <= u64::MAX,
    ensures
        read_order(items@, plan.order@),
        grouped(items@, plan.order@, plan.groups@),
{
    let n = items.len();
    let mut pairs: Vec<(u64, u64)> = Vec::new();
    let mut i: usize = 0;
    while i < n
        invariant
            i <= n,
            n == items@.len(),
            n <= u64::MAX,
            pairs@.len() == i,
            forall|j: int| 0 <= j < i ==> #[trigger] pairs@[j] == (items@[j].0, j as u64),
        decreases n - i,
    {
        pairs.push((items[i].0, i as u64));
        i += 1;
    }
    let ghost unsorted = pairs@;
    sort_pairs(pairs.as_mut_slice());
    proof {
        broadcast use vstd::seq_lib::group_to_multiset_ensures;

        assert forall|k: int| 0 <= k < pairs@.len() implies #[trigger] unsorted.contains(pairs@[k]) by {
            assert(pairs@.contains(pairs@[k]));
            assert(pairs@.to_multiset().count(pairs@[k]) > 0);
        }
        assert forall|j: int| 0 <= j < n implies #[trigger] pairs@.contains(unsorted[j]) by {
            assert(unsorted.contains(unsorted[j]));
            assert(unsorted.to_multiset().count(unsorted[j]) > 0);
        }
    }
    let mut order: Vec<usize> = Vec::new();
    let mut k: usize = 0;
    while k < n
        invariant
            k <= n,
            n == items@.len(),
            n <= u64::MAX,
            pairs@.len() == n,
            order@.len() == k,
            forall|j: int| 0 <= j < k ==> #[trigger] order@[j] as u64 == pairs@[j].1,
            forall|j: int| 0 <= j < k ==> (#[trigger] order@[j]) < n,
            forall|j: int| 0 <= j < n ==> #[trigger] unsorted[j] == (items@[j].0, j as u64),
            unsorted.len() == n,
            forall|j: int| 0 <= j < n ==> #[trigger] unsorted.contains(pairs@[j]),
        decreases n - k,
    {
        let p = pairs[k];
        proof {
            assert(unsorted.contains(pairs@[k as int]));
            let w = choose|w: int| 0 <= w < unsorted.len() && unsorted[w] == pairs@[k as int];
            assert(unsorted[w] == (items@[w].0, w as u64));
        }
        order.push(p.1 as usize);
        k += 1;
    }
    proof {
        assert forall|a: int| 0 <= a < n implies pairs@[a] == (
            items@[order@[a] as int].0,
            order@[a] as u64,
        ) by {
            assert(unsorted.contains(pairs@[a]));
            let w = choose|w: int| 0 <= w < unsorted.len() && unsorted[w] == pairs@[a];
            assert(unsorted[w] == (items@[w].0, w as u64));
        }
        assert forall|a: int, b: int| 0 <= a <= b < order@.len() implies pair_le(
            (items@[#[trigger] order@[a] as int].0, order@[a] as u64),
            (items@[#[trigger] order@[b] as int].0, order@[b] as u64),
        ) by {
            assert(pair_le(pairs@[a], pairs@[b]));
        }
        assert forall|j: int| 0 <= j < n implies #[trigger] order@.contains(j as usize) by {
            assert(pairs@.contains(unsorted[j]));
            let w = choose|w: int| 0 <= w < pairs@.len() && pairs@[w] == unsorted[j];
            assert(order@[w] as u64 == j as u64);
            assert(order@[w] == j as usize);
        }
    }
    let mut groups: Vec<ReadGroup> = Vec::new();
    let mut k: usize = 0;
    while k < n
        invariant
            k <= n,
            n == items@.len(),
            order@.len() == n,
            items_fit(items@),
            forall|j: int| 0 <= j < n ==> (#[trigger] order@[j]) < n,
            k == 0 <==> groups@.len() == 0,
            groups@.len() > 0 ==> groups@[0].from == 0 && groups@.last().to == k,
            forall|g: int|
                0 <= g < groups@.len() ==> {
                    let gr = #[trigger] groups@[g];
                    &&& gr.from < gr.to <= k
                    &&& gr.start == item_lo(items@, order@[gr.from as int] as int)
                    &&& gr.end == reach(items@, order@, gr.from as int, gr.to as int)
                    &&& forall|j: int|
                        gr.from < j < gr.to ==> item_lo(items@, #[trigger] order@[j] as int) <= reach(
                            items@,
                            order@,
                            gr.from as int,
                            j,
                        )
                },
            forall|g: int|
                0 <= g < groups@.len() - 1 ==> {
                    &&& (#[trigger] groups@[g]).to == groups@[g + 1].from
                    &&& groups@[g].end < groups@[g + 1].start
                },
        decreases n - k,
    {
        let item_index = order[k];
        let (offset, length, _) = items[item_index];
        proof {
            assert(items@[item_index as int].0 + items@[item_index as int].1 + 4096 <= u64::MAX);
        }
        let group_start = page_down(offset);
        let group_end = page_up(offset + length);
        let glen = groups.len();
        if glen > 0 && group_start <= groups[glen - 1].end {
            let last = groups[glen - 1];
            let new_end = if group_end > last.end {
                group_end
            } else {
                last.end
            };
            proof {
                assert(groups@[glen - 1] == last);
                reveal_with_fuel(reach, 2);
            }
            groups.set(glen - 1, ReadGroup { start: last.start, end: new_end, from: last.from, to: k + 1 });
        } else {
            proof {
                reveal_with_fuel(reach, 2);
            }
            groups.push(ReadGroup { start: group_start, end: group_end, from: k, to: k + 1 });
        }
        k += 1;
    }
    ReadPlan { order, groups }
}

/// Where allocation of a file must reach so that byte `upto` is covered:
/// nothing when it already reaches past `upto` (`allocated_end`), else the
/// page boundary at or after the larger of `upto` and `allocated_end +
/// chunk`.
pub fn grow_to(allocated_end: u64, upto: u64, chunk: u64) -> (r: Option<u64>)
    requires
        upto + 4096 <= u64::MAX,
        allocated_end + chunk + 4096 <= u64::MAX,
    ensures
        upto <= allocated_end <==> r is None,
        r matches Some(new_end) ==> new_end == spec_page_up(
            if upto >= allocated_end + chunk {
                upto as int
            } else {
                allocated_end + chunk
            },
        ) && new_end > allocated_end,
{
    if upto <= allocated_end {
        return None;
    }
    let target = if upto >= allocated_end + chunk {
        upto
    } else {
        allocated_end + chunk
    };
    Some(page_up(target))
}

} // verus!
