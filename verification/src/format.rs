//! The durable byte format: file headers, record headers, index slots and
//! registry rows, each with an integrity check.

use vstd::prelude::*;
use vstd::bytes::*;
use crate::crc32::{crc32c, spec_crc32c};

verus! {

broadcast use vstd::slice::group_slice_axioms;

pub const PAGE: usize = 4096;

pub const PAGE_SIZE_U64: u64 = 4096;

pub const RECORD_MAGIC: u32 = 0x4452_4352;

pub const REGISTRY_MAGIC: u32 = 0x5847_4552;

pub const LAYOUT_APPEND: u8 = 0;

pub const LAYOUT_BUCKET: u8 = 1;

pub const SLOT_SIZE: usize = 16;

pub const REGISTRY_ROW_SIZE: usize = 64;

/// Set in a slot's offset when the record it points to was deleted.
pub const TOMBSTONE_BIT: u64 = 0x8000_0000_0000_0000;

/// `s` with the bytes from `pos` on replaced by `b`.
pub open spec fn overwrite(s: Seq<u8>, pos: int, b: Seq<u8>) -> Seq<u8> {
    Seq::new(s.len(), |j: int| if pos <= j < pos + b.len() { b[j - pos] } else { s[j] })
}

/// `n` zero bytes.
pub open spec fn zeros(n: nat) -> Seq<u8> {
    Seq::new(n, |j: int| 0u8)
}

/// The start of the page that holds byte `x`.
pub open spec fn spec_page_down(x: int) -> int {
    x - x % 4096
}

/// The first page boundary at or after `x`.
pub open spec fn spec_page_up(x: int) -> int {
    (x + 4095) - (x + 4095) % 4096
}

/// Rounding up to a page gives a page boundary less than a page past `x`.
pub proof fn lemma_page_up_bounds(x: int)
    requires
        0 <= x,
    ensures
        spec_page_up(x) % 4096 == 0,
        x <= spec_page_up(x) < x + 4096,
        spec_page_down(x) % 4096 == 0,
        x - 4096 < spec_page_down(x) <= x,
{
}

/// A page boundary at or before `x` is at or before the page that holds `x`.
pub proof fn lemma_page_down_below(a: int, x: int)
    requires
        0 <= a <= x,
        a % 4096 == 0,
    ensures
        a <= spec_page_down(x),
{
    assert(a <= x - x % 4096) by (nonlinear_arith)
        requires
            0 <= a <= x,
            a % 4096 == 0,
    {
        let q = x / 4096;
        let m = a / 4096;
        assert(x == 4096 * q + x % 4096);
        assert(a == 4096 * m);
        if m > q {
            assert(a >= 4096 * (q + 1));
        }
    }
}

/// The start of the page that holds byte `off`.
pub fn page_down(off: u64) -> (r: u64)
    ensures
        r == off - off % 4096,
{
    let r = off & !(PAGE_SIZE_U64 - 1);
    assert(r == off - off % 4096) by (bit_vector)
        requires
            r == off & !4095u64,
    ;
    r
}

/// The first page boundary at or after `off`.
pub fn page_up(off: u64) -> (r: u64)
    requires
        off + 4095 <= u64::MAX,
    ensures
        r == (off + 4095) - (off + 4095) % 4096,
        r % 4096 == 0,
        off <= r < off + 4096,
{
    let t = off + (PAGE_SIZE_U64 - 1);
    let r = t & !(PAGE_SIZE_U64 - 1);
    assert(r == t - t % 4096) by (bit_vector)
        requires
            r == t & !4095u64,
    ;
    r
}

/// Copies `bytes` into `out` at `pos`.
pub(crate) fn put(out: &mut [u8], pos: usize, bytes: &[u8])
    requires
        pos + bytes@.len() <= old(out)@.len(),
    ensures
        final(out)@ == overwrite(old(out)@, pos as int, bytes@),
{
    let total = out.len();
    let mut k: usize = 0;
    while k < bytes.len()
        invariant
            total == out@.len(),
            k <= bytes@.len(),
            pos + bytes@.len() <= out@.len(),
            out@.len() == old(out)@.len(),
            forall|j: int|
                0 <= j < out@.len() ==> #[trigger] out@[j] == (if pos <= j < pos + k {
                    bytes@[j - pos]
                } else {
                    old(out)@[j]
                }),
        decreases bytes@.len() - k,
    {
        out[pos + k] = bytes[k];
        k += 1;
    }
    assert(out@ =~= overwrite(old(out)@, pos as int, bytes@));
}

/// Sets `len` bytes of `out` from `pos` on to zero.
fn put_zeros(out: &mut [u8], pos: usize, len: usize)
    requires
        pos + len <= old(out)@.len(),
    ensures
        final(out)@ == overwrite(old(out)@, pos as int, zeros(len as nat)),
{
    let total = out.len();
    let mut k: usize = 0;
    while k < len
        invariant
            total == out@.len(),
            k <= len,
            pos + len <= out@.len(),
            out@.len() == old(out)@.len(),
            forall|j: int|
                0 <= j < out@.len() ==> #[trigger] out@[j] == (if pos <= j < pos + k {
                    0u8
                } else {
                    old(out)@[j]
                }),
        decreases len - k,
    {
        out[pos + k] = 0;
        k += 1;
    }
    assert(out@ =~= overwrite(old(out)@, pos as int, zeros(len as nat)));
}

/// The tag that starts every file.
pub open spec fn file_tag() -> Seq<u8> {
    seq![0x48u8, 0x53u8, 0x46u8, 0x31u8]
}

pub struct FileHeader {
    pub kind: u8,
    pub layout: u8,
}

/// The checked part of a file header.
pub open spec fn file_header_body(kind: u8, layout: u8) -> Seq<u8> {
    file_tag() + seq![kind, layout, 0u8, 0u8]
}

/// The first page of a file with the given header.
pub open spec fn file_header_page(kind: u8, layout: u8) -> Seq<u8> {
    file_header_body(kind, layout) + spec_u32_to_le_bytes(spec_crc32c(file_header_body(kind, layout)))
        + zeros(4084)
}

/// What decoding reads from a page.
pub open spec fn spec_decode_file_header(s: Seq<u8>) -> Option<(u8, u8)> {
    if s.take(4) != file_tag() {
        None
    } else if spec_u32_from_le_bytes(s.subrange(8, 12)) != spec_crc32c(s.take(8)) {
        None
    } else {
        Some((s[4], s[5]))
    }
}

impl FileHeader {
    /// Writes the header page into the first 4096 bytes of `page`.
    pub fn encode(&self, page: &mut [u8])
        requires
            old(page)@.len() >= 4096,
        ensures
            final(page)@ == overwrite(old(page)@, 0, file_header_page(self.kind, self.layout)),
    {
        put_zeros(page, 0, PAGE);
        page[0] = 0x48;
        page[1] = 0x53;
        page[2] = 0x46;
        page[3] = 0x31;
        page[4] = self.kind;
        page[5] = self.layout;
        let ghost body = file_header_body(self.kind, self.layout);
        assert(page@.take(8) =~= body);
        let crc = crc32c(&page[0..8]);
        let crc_bytes = u32_to_le_bytes(crc);
        put(page, 8, crc_bytes.as_slice());
        proof {
            lemma_auto_spec_u32_to_from_le_bytes();
        }
        assert(page@ =~= overwrite(old(page)@, 0, file_header_page(self.kind, self.layout)));
    }

    /// Reads a header page: `None` when the tag or the checksum is wrong.
    pub fn decode(page: &[u8]) -> (r: Option<FileHeader>)
        requires
            page@.len() >= 4,
            page@.len() >= 12 || page@.take(4) != file_tag(),
        ensures
            match r {
                Some(h) => spec_decode_file_header(page@) == Some((h.kind, h.layout)),
                None => spec_decode_file_header(page@) is None,
            },
    {
        if page[0] != 0x48 || page[1] != 0x53 || page[2] != 0x46 || page[3] != 0x31 {
            assert(page@.take(4) != file_tag()) by {
                if page@.take(4) == file_tag() {
                    assert(page@.take(4)[0] == page@[0]);
                    assert(page@.take(4)[1] == page@[1]);
                    assert(page@.take(4)[2] == page@[2]);
                    assert(page@.take(4)[3] == page@[3]);
                }
            }
            return None;
        }
        assert(page@.take(4) =~= file_tag());
        let crc = u32_from_le_bytes(&page[8..12]);
        if crc != crc32c(&page[0..8]) {
            return None;
        }
        Some(FileHeader { kind: page[4], layout: page[5] })
    }
}

/// Decoding the page that `encode` writes gives the header back.
pub proof fn lemma_file_header_roundtrip(kind: u8, layout: u8, rest: Seq<u8>)
    ensures
        spec_decode_file_header(file_header_page(kind, layout) + rest) == Some((kind, layout)),
{
    lemma_auto_spec_u32_to_from_le_bytes();
    let s = file_header_page(kind, layout) + rest;
    let body = file_header_body(kind, layout);
    assert(s.take(4) =~= file_tag());
    assert(s.take(8) =~= body);
    assert(s.subrange(8, 12) =~= spec_u32_to_le_bytes(spec_crc32c(body)));
}

#[derive(Debug, Clone, Copy, PartialEq, Eq, Structural)]
pub struct RecordHeader {
    pub len: u64,
    pub bucket: u64,
    pub id: u64,
    pub version: u16,
    pub crc: u32,
}

/// Size of a record header: the bucket field is present in the bucket layout only.
#[verifier::allow_in_spec]
pub fn header_len(with_bucket: bool) -> usize
    returns
        (if with_bucket {
            38usize
        } else {
            30usize
        }),
{
    if with_bucket {
        38
    } else {
        30
    }
}

/// The checked part of a record header.
pub open spec fn record_header_body(h: RecordHeader, with_bucket: bool) -> Seq<u8> {
    spec_u32_to_le_bytes(RECORD_MAGIC) + spec_u64_to_le_bytes(h.len) + (if with_bucket {
        spec_u64_to_le_bytes(h.bucket)
    } else {
        Seq::empty()
    }) + spec_u64_to_le_bytes(h.id) + spec_u16_to_le_bytes(h.version) + spec_u32_to_le_bytes(h.crc)
}

/// The bytes of a record header: the body, then the checksum of the body.
pub open spec fn record_header_bytes(h: RecordHeader, with_bucket: bool) -> Seq<u8> {
    record_header_body(h, with_bucket) + spec_u32_to_le_bytes(
        spec_crc32c(record_header_body(h, with_bucket)),
    )
}

/// The header that decoding reads from `s`, if the magic number and the
/// header checksum are right.
pub open spec fn spec_decode_record_header(s: Seq<u8>, with_bucket: bool) -> Option<RecordHeader> {
    let n = header_len(with_bucket) as int;
    let f: int = if with_bucket {
        20
    } else {
        12
    };
    if s.len() < n || spec_u32_from_le_bytes(s.take(4)) != RECORD_MAGIC {
        None
    } else if spec_u32_from_le_bytes(s.subrange(n - 4, n)) != spec_crc32c(s.take(n - 4)) {
        None
    } else {
        Some(
            RecordHeader {
                len: spec_u64_from_le_bytes(s.subrange(4, 12)),
                bucket: if with_bucket {
                    spec_u64_from_le_bytes(s.subrange(12, 20))
                } else {
                    0
                },
                id: spec_u64_from_le_bytes(s.subrange(f, f + 8)),
                version: spec_u16_from_le_bytes(s.subrange(f + 8, f + 10)),
                crc: spec_u32_from_le_bytes(s.subrange(f + 10, f + 14)),
            },
        )
    }
}

/// A record header takes `header_len(with_bucket)` bytes.
pub proof fn lemma_record_header_len(h: RecordHeader, with_bucket: bool)
    ensures
        record_header_bytes(h, with_bucket).len() == header_len(with_bucket),
{
    lemma_auto_spec_u32_to_from_le_bytes();
    lemma_auto_spec_u64_to_from_le_bytes();
    lemma_auto_spec_u16_to_from_le_bytes();
}

impl RecordHeader {
    /// Writes the header into the first `header_len(with_bucket)` bytes of `out`.
    pub fn encode(&self, with_bucket: bool, out: &mut [u8])
        requires
            old(out)@.len() >= header_len(with_bucket),
        ensures
            final(out)@ == overwrite(old(out)@, 0, record_header_bytes(*self, with_bucket)),
    {
        proof {
            lemma_auto_spec_u32_to_from_le_bytes();
            lemma_auto_spec_u64_to_from_le_bytes();
            lemma_auto_spec_u16_to_from_le_bytes();
        }
        let magic = u32_to_le_bytes(RECORD_MAGIC);
        put(out, 0, magic.as_slice());
        let len_bytes = u64_to_le_bytes(self.len);
        put(out, 4, len_bytes.as_slice());
        let mut field_offset: usize = 12;
        if with_bucket {
            let bucket_bytes = u64_to_le_bytes(self.bucket);
            put(out, 12, bucket_bytes.as_slice());
            field_offset = 20;
        }
        let id_bytes = u64_to_le_bytes(self.id);
        put(out, field_offset, id_bytes.as_slice());
        let version_bytes = u16_to_le_bytes(self.version);
        put(out, field_offset + 8, version_bytes.as_slice());
        let crc_field = u32_to_le_bytes(self.crc);
        put(out, field_offset + 10, crc_field.as_slice());
        let ghost body = record_header_body(*self, with_bucket);
        assert(out@.take(field_offset + 14) =~= body);
        let header_crc = crc32c(&out[0..field_offset + 14]);
        let crc_bytes = u32_to_le_bytes(header_crc);
        put(out, field_offset + 14, crc_bytes.as_slice());
        assert(out@ =~= overwrite(old(out)@, 0, record_header_bytes(*self, with_bucket)));
    }

    /// Reads a header from the start of `buf`: `None` when `buf` is too
    /// short, the magic number is wrong or the header checksum does not match.
    pub fn decode(buf: &[u8], with_bucket: bool) -> (r: Option<RecordHeader>)
        ensures
            r == spec_decode_record_header(buf@, with_bucket),
    {
        let header_size = header_len(with_bucket);
        if buf.len() < header_size || u32_from_le_bytes(&buf[0..4]) != RECORD_MAGIC {
            return None;
        }
        let stored = u32_from_le_bytes(&buf[header_size - 4..header_size]);
        if stored != crc32c(&buf[0..header_size - 4]) {
            return None;
        }
        let len = u64_from_le_bytes(&buf[4..12]);
        let (bucket, field_offset) = if with_bucket {
            (u64_from_le_bytes(&buf[12..20]), 20usize)
        } else {
            (0u64, 12usize)
        };
        Some(
            RecordHeader {
                len,
                bucket,
                id: u64_from_le_bytes(&buf[field_offset..field_offset + 8]),
                version: u16_from_le_bytes(&buf[field_offset + 8..field_offset + 10]),
                crc: u32_from_le_bytes(&buf[field_offset + 10..field_offset + 14]),
            },
        )
    }
}

/// The header as decoding gives it back: without the bucket field, the
/// bucket reads as 0.
pub open spec fn stored_header(h: RecordHeader, with_bucket: bool) -> RecordHeader {
    RecordHeader { bucket: if with_bucket { h.bucket } else { 0 }, ..h }
}

/// Decoding the bytes that `encode` writes gives the header back, whatever
/// follows them.
pub proof fn lemma_record_header_roundtrip(h: RecordHeader, with_bucket: bool, rest: Seq<u8>)
    ensures
        spec_decode_record_header(record_header_bytes(h, with_bucket) + rest, with_bucket) == Some(
            stored_header(h, with_bucket),
        ),
{
    lemma_auto_spec_u32_to_from_le_bytes();
    lemma_auto_spec_u64_to_from_le_bytes();
    lemma_auto_spec_u16_to_from_le_bytes();
    let s = record_header_bytes(h, with_bucket) + rest;
    let body = record_header_body(h, with_bucket);
    let n = header_len(with_bucket) as int;
    let f: int = if with_bucket { 20 } else { 12 };
    assert(body.len() == n - 4);
    assert(s.take(4) =~= spec_u32_to_le_bytes(RECORD_MAGIC));
    assert(s.take(n - 4) =~= body);
    assert(s.subrange(n - 4, n) =~= spec_u32_to_le_bytes(spec_crc32c(body)));
    assert(s.subrange(4, 12) =~= spec_u64_to_le_bytes(h.len));
    if with_bucket {
        assert(s.subrange(12, 20) =~= spec_u64_to_le_bytes(h.bucket));
    }
    assert(s.subrange(f, f + 8) =~= spec_u64_to_le_bytes(h.id));
    assert(s.subrange(f + 8, f + 10) =~= spec_u16_to_le_bytes(h.version));
    assert(s.subrange(f + 10, f + 14) =~= spec_u32_to_le_bytes(h.crc));
}

#[derive(Debug, Clone, Copy, PartialEq, Eq, Structural)]
pub struct Slot {
    pub offset: u64,
    pub total_len: u64,
}

#[derive(Debug, Clone, Copy, PartialEq, Eq, Structural)]
pub enum SlotState {
    Empty,
    Deleted(Slot),
    Live(Slot),
}

/// The bytes of an index slot.
pub open spec fn slot_bytes(slot: Slot) -> Seq<u8> {
    spec_u64_to_le_bytes(slot.offset) + spec_u64_to_le_bytes(slot.total_len)
}

/// What a slot's bytes say: an offset of 0 marks an empty slot, an offset
/// with the tombstone bit a deleted record.
pub open spec fn spec_slot_state(s: Seq<u8>) -> SlotState {
    let offset = spec_u64_from_le_bytes(s.subrange(0, 8));
    let total_len = spec_u64_from_le_bytes(s.subrange(8, 16));
    if offset == 0 {
        SlotState::Empty
    } else if offset & TOMBSTONE_BIT != 0 {
        SlotState::Deleted(Slot { offset: offset & !TOMBSTONE_BIT, total_len })
    } else {
        SlotState::Live(Slot { offset, total_len })
    }
}

/// The slot of a live record, if `s` holds one.
pub open spec fn spec_decode_slot(s: Seq<u8>) -> Option<Slot> {
    match spec_slot_state(s) {
        SlotState::Live(slot) => Some(slot),
        _ => None,
    }
}

/// Where the slot of record `id` lies in the index file.
pub open spec fn spec_slot_file_offset(id: u64) -> int {
    4096 + id * 16
}

impl Slot {
    /// Writes the slot into the first 16 bytes of `out`.
    pub fn encode(&self, out: &mut [u8])
        requires
            old(out)@.len() >= 16,
        ensures
            final(out)@ == overwrite(old(out)@, 0, slot_bytes(*self)),
    {
        proof {
            lemma_auto_spec_u64_to_from_le_bytes();
        }
        let offset_bytes = u64_to_le_bytes(self.offset);
        put(out, 0, offset_bytes.as_slice());
        let len_bytes = u64_to_le_bytes(self.total_len);
        put(out, 8, len_bytes.as_slice());
        assert(out@ =~= overwrite(old(out)@, 0, slot_bytes(*self)));
    }

    /// The live slot in `buf`, if there is one.
    pub fn decode(buf: &[u8]) -> (r: Option<Slot>)
        requires
            buf@.len() >= 16,
        ensures
            r == spec_decode_slot(buf@),
    {
        match Slot::state(buf) {
            SlotState::Live(slot) => Some(slot),
            _ => None,
        }
    }

    /// What the 16 bytes at the start of `buf` say.
    pub fn state(buf: &[u8]) -> (r: SlotState)
        requires
            buf@.len() >= 16,
        ensures
            r == spec_slot_state(buf@),
    {
        let offset = u64_from_le_bytes(&buf[0..8]);
        let total_len = u64_from_le_bytes(&buf[8..16]);
        // tombstones prevent deleted records from returning.
        if offset == 0 {
            SlotState::Empty
        } else if offset & TOMBSTONE_BIT != 0 {
            SlotState::Deleted(Slot { offset: offset & !TOMBSTONE_BIT, total_len })
        } else {
            SlotState::Live(Slot { offset, total_len })
        }
    }

    /// Where the slot of record `id` lies in the index file.
    pub fn file_offset(id: u64) -> (r: u64)
        requires
            4096 + id * 16 <= u64::MAX,
        ensures
            r == spec_slot_file_offset(id),
    {
        PAGE_SIZE_U64 + id * 16
    }
}

/// A slot written by `encode` reads back as the record it points to; an
/// offset of 0 reads as an empty slot, one with the tombstone bit as deleted.
pub proof fn lemma_slot_roundtrip(slot: Slot, rest: Seq<u8>)
    ensures
        slot.offset == 0 ==> spec_slot_state(slot_bytes(slot) + rest) == SlotState::Empty,
        slot.offset != 0 && slot.offset & TOMBSTONE_BIT == 0 ==> spec_slot_state(
            slot_bytes(slot) + rest,
        ) == SlotState::Live(slot),
        slot.offset != 0 && slot.offset & TOMBSTONE_BIT == 0 ==> spec_decode_slot(
            slot_bytes(slot) + rest,
        ) == Some(slot),
{
    lemma_auto_spec_u64_to_from_le_bytes();
    let s = slot_bytes(slot) + rest;
    assert(s.subrange(0, 8) =~= spec_u64_to_le_bytes(slot.offset));
    assert(s.subrange(8, 16) =~= spec_u64_to_le_bytes(slot.total_len));
}

/// A tombstone (the slot's offset with the tombstone bit set) reads back as
/// the deleted slot.
pub proof fn lemma_tombstone_roundtrip(slot: Slot, rest: Seq<u8>)
    requires
        slot.offset & TOMBSTONE_BIT == 0,
    ensures
        spec_slot_state(
            slot_bytes(Slot { offset: slot.offset | TOMBSTONE_BIT, total_len: slot.total_len })
                + rest,
        ) == SlotState::Deleted(slot),
{
    lemma_auto_spec_u64_to_from_le_bytes();
    let t = Slot { offset: slot.offset | TOMBSTONE_BIT, total_len: slot.total_len };
    let s = slot_bytes(t) + rest;
    assert(s.subrange(0, 8) =~= spec_u64_to_le_bytes(t.offset));
    assert(s.subrange(8, 16) =~= spec_u64_to_le_bytes(t.total_len));
    let o = slot.offset;
    assert((o | 0x8000_0000_0000_0000u64) != 0 && (o | 0x8000_0000_0000_0000u64)
        & 0x8000_0000_0000_0000u64 != 0 && ((o | 0x8000_0000_0000_0000u64)
        & !0x8000_0000_0000_0000u64) == o) by (bit_vector)
        requires
            o & 0x8000_0000_0000_0000u64 == 0,
    ;
}

#[derive(Debug, Clone, Copy, PartialEq, Eq, Structural)]
pub struct RegistryRow {
    pub kind: u8,
    pub bucket: u64,
    pub start: u64,
    pub size: u64,
}

/// The checked part of a registry row.
pub open spec fn registry_row_body(row: RegistryRow) -> Seq<u8> {
    spec_u32_to_le_bytes(REGISTRY_MAGIC) + seq![row.kind, 0u8, 0u8, 0u8] + spec_u64_to_le_bytes(
        row.bucket,
    ) + spec_u64_to_le_bytes(row.start) + spec_u64_to_le_bytes(row.size)
}

/// The 64 bytes of a registry row.
pub open spec fn registry_row_bytes(row: RegistryRow) -> Seq<u8> {
    registry_row_body(row) + spec_u32_to_le_bytes(spec_crc32c(registry_row_body(row))) + zeros(28)
}

/// The row that decoding reads from `s`, if the magic number and the
/// checksum are right.
pub open spec fn spec_decode_registry_row(s: Seq<u8>) -> Option<RegistryRow> {
    if spec_u32_from_le_bytes(s.take(4)) != REGISTRY_MAGIC {
        None
    } else if spec_u32_from_le_bytes(s.subrange(32, 36)) != spec_crc32c(s.take(32)) {
        None
    } else {
        Some(
            RegistryRow {
                kind: s[4],
                bucket: spec_u64_from_le_bytes(s.subrange(8, 16)),
                start: spec_u64_from_le_bytes(s.subrange(16, 24)),
                size: spec_u64_from_le_bytes(s.subrange(24, 32)),
            },
        )
    }
}

impl RegistryRow {
    /// Writes the row into the first 64 bytes of `out`.
    pub fn encode(&self, out: &mut [u8])
        requires
            old(out)@.len() >= 64,
        ensures
            final(out)@ == overwrite(old(out)@, 0, registry_row_bytes(*self)),
    {
        proof {
            lemma_auto_spec_u32_to_from_le_bytes();
            lemma_auto_spec_u64_to_from_le_bytes();
        }
        put_zeros(out, 0, REGISTRY_ROW_SIZE);
        let magic = u32_to_le_bytes(REGISTRY_MAGIC);
        put(out, 0, magic.as_slice());
        out[4] = self.kind;
        let bucket_bytes = u64_to_le_bytes(self.bucket);
        put(out, 8, bucket_bytes.as_slice());
        let start_bytes = u64_to_le_bytes(self.start);
        put(out, 16, start_bytes.as_slice());
        let size_bytes = u64_to_le_bytes(self.size);
        put(out, 24, size_bytes.as_slice());
        assert(out@.take(32) =~= registry_row_body(*self));
        let crc = crc32c(&out[0..32]);
        let crc_bytes = u32_to_le_bytes(crc);
        put(out, 32, crc_bytes.as_slice());
        assert(out@ =~= overwrite(old(out)@, 0, registry_row_bytes(*self)));
    }

    /// Reads a row from the start of `buf`: `None` when the magic number or
    /// the checksum is wrong.
    pub fn decode(buf: &[u8]) -> (r: Option<RegistryRow>)
        requires
            buf@.len() >= 4,
            buf@.len() >= 36 || spec_u32_from_le_bytes(buf@.take(4)) != REGISTRY_MAGIC,
        ensures
            r == spec_decode_registry_row(buf@),
    {
        if u32_from_le_bytes(&buf[0..4]) != REGISTRY_MAGIC {
            return None;
        }
        if u32_from_le_bytes(&buf[32..36]) != crc32c(&buf[0..32]) {
            return None;
        }
        Some(
            RegistryRow {
                kind: buf[4],
                bucket: u64_from_le_bytes(&buf[8..16]),
                start: u64_from_le_bytes(&buf[16..24]),
                size: u64_from_le_bytes(&buf[24..32]),
            },
        )
    }
}

/// Decoding the bytes that `encode` writes gives the row back.
pub proof fn lemma_registry_row_roundtrip(row: RegistryRow, rest: Seq<u8>)
    ensures
        spec_decode_registry_row(registry_row_bytes(row) + rest) == Some(row),
{
    lemma_auto_spec_u32_to_from_le_bytes();
    lemma_auto_spec_u64_to_from_le_bytes();
    let s = registry_row_bytes(row) + rest;
    let body = registry_row_body(row);
    assert(s.take(4) =~= spec_u32_to_le_bytes(REGISTRY_MAGIC));
    assert(s.take(32) =~= body);
    assert(s.subrange(32, 36) =~= spec_u32_to_le_bytes(spec_crc32c(body)));
    assert(s.subrange(8, 16) =~= spec_u64_to_le_bytes(row.bucket));
    assert(s.subrange(16, 24) =~= spec_u64_to_le_bytes(row.start));
    assert(s.subrange(24, 32) =~= spec_u64_to_le_bytes(row.size));
}


/// Two four-byte little-endian fields with the same value are the same bytes.
proof fn lemma_le_u32_injective(a: Seq<u8>, b: Seq<u8>)
    requires
        a.len() == 4,
        b.len() == 4,
        spec_u32_from_le_bytes(a) == spec_u32_from_le_bytes(b),
    ensures
        a == b,
{
    lemma_auto_spec_u32_to_from_le_bytes();
    assert(spec_u32_to_le_bytes(spec_u32_from_le_bytes(a)) == a);
    assert(spec_u32_to_le_bytes(spec_u32_from_le_bytes(b)) == b);
}

/// Changing any one byte of an encoded record header makes it fail to
/// decode, whatever follows it: the magic number, the header checksum or
/// the bytes the checksum covers no longer agree.
pub proof fn lemma_record_header_change_detected(
    h: RecordHeader,
    with_bucket: bool,
    k: int,
    x: u8,
    rest: Seq<u8>,
)
    requires
        0 <= k < header_len(with_bucket),
        record_header_bytes(h, with_bucket)[k] != x,
    ensures
        spec_decode_record_header(record_header_bytes(h, with_bucket).update(k, x) + rest, with_bucket)
            is None,
{
    lemma_auto_spec_u32_to_from_le_bytes();
    lemma_auto_spec_u64_to_from_le_bytes();
    lemma_auto_spec_u16_to_from_le_bytes();
    let bytes = record_header_bytes(h, with_bucket);
    let body = record_header_body(h, with_bucket);
    let n = header_len(with_bucket) as int;
    let changed = bytes.update(k, x);
    let s = changed + rest;
    assert(body.len() == n - 4);
    assert(bytes.len() == n);
    assert(bytes.take(4) =~= spec_u32_to_le_bytes(RECORD_MAGIC));
    assert(bytes.take(n - 4) =~= body);
    assert(bytes.subrange(n - 4, n) =~= spec_u32_to_le_bytes(spec_crc32c(body)));
    if k < 4 {
        if spec_u32_from_le_bytes(s.take(4)) == RECORD_MAGIC {
            lemma_le_u32_injective(s.take(4), bytes.take(4));
            assert(s.take(4)[k] == x);
        }
    } else if k < n - 4 {
        assert(s.take(4) =~= bytes.take(4));
        assert(s.take(n - 4) =~= body.update(k, x));
        crate::crc32::lemma_crc32c_one_byte_change(body, k, x);
        assert(s.subrange(n - 4, n) =~= bytes.subrange(n - 4, n));
    } else {
        assert(s.take(4) =~= bytes.take(4));
        assert(s.take(n - 4) =~= body);
        if spec_u32_from_le_bytes(s.subrange(n - 4, n)) == spec_crc32c(s.take(n - 4)) {
            lemma_le_u32_injective(s.subrange(n - 4, n), bytes.subrange(n - 4, n));
            assert(s.subrange(n - 4, n)[k - (n - 4)] == x);
        }
    }
}

/// Changing any one byte of the checked part of an encoded registry row
/// (its first 36 bytes: the row and its checksum) makes it fail to decode.
pub proof fn lemma_registry_row_change_detected(row: RegistryRow, k: int, x: u8, rest: Seq<u8>)
    requires
        0 <= k < 36,
        registry_row_bytes(row)[k] != x,
    ensures
        spec_decode_registry_row(registry_row_bytes(row).update(k, x) + rest) is None,
{
    lemma_auto_spec_u32_to_from_le_bytes();
    lemma_auto_spec_u64_to_from_le_bytes();
    let bytes = registry_row_bytes(row);
    let body = registry_row_body(row);
    let changed = bytes.update(k, x);
    let s = changed + rest;
    assert(body.len() == 32);
    assert(bytes.take(4) =~= spec_u32_to_le_bytes(REGISTRY_MAGIC));
    assert(bytes.take(32) =~= body);
    assert(bytes.subrange(32, 36) =~= spec_u32_to_le_bytes(spec_crc32c(body)));
    if k < 4 {
        if spec_u32_from_le_bytes(s.take(4)) == REGISTRY_MAGIC {
            lemma_le_u32_injective(s.take(4), bytes.take(4));
            assert(s.take(4)[k] == x);
        }
    } else if k < 32 {
        assert(s.take(4) =~= bytes.take(4));
        assert(s.take(32) =~= body.update(k, x));
        crate::crc32::lemma_crc32c_one_byte_change(body, k, x);
        assert(s.subrange(32, 36) =~= bytes.subrange(32, 36));
    } else {
        assert(s.take(4) =~= bytes.take(4));
        assert(s.take(32) =~= body);
        if spec_u32_from_le_bytes(s.subrange(32, 36)) == spec_crc32c(s.take(32)) {
            lemma_le_u32_injective(s.subrange(32, 36), bytes.subrange(32, 36));
            assert(s.subrange(32, 36)[k - 32] == x);
        }
    }
}

}
