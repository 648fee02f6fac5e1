//! Behaviour of the library's logic on concrete values: record framing,
//! read planning, placement, registry replay, recovery walks, staging, the
//! commit policy and the ring bookkeeping.

use std::collections::HashMap;

use heapstore::bucket::{BucketPlacement, Extent, PlacementEffect};
use heapstore::append::{scan_slots, AppendPlacement};
use heapstore::crc32::crc32c;
use heapstore::data::{grow_to, plan_reads, DataFile};
use heapstore::error::HeapError;
use heapstore::format::{page_down, page_up, RecordHeader, RegistryRow, Slot, SlotState};
use heapstore::heap::{after_write, batch_items, open_start, rebuild_after_failure, HeapConfig, OpenStart, SyncPolicy};
use heapstore::index::{locate_slot, plan_slot_reads, slot_image, tombstone_image};
use heapstore::io::{IoCounters, SyncIo};
use heapstore::measure::{grouped_sample, median_u64};
use heapstore::paged::{PagedFile, StageStep};
use heapstore::recovery::{
    best_versions, needs_existing_header, plan_tail_restore, should_restore, Found, RebuildPlan,
    TailScan, WalkStep, Walker,
};
use heapstore::registry::{max_found_id, SlotScan};
use heapstore::ring::{ring_shape, split, Completed, RingFailure, RingRun, Segment, Submission};
use heapstore::rng::payload_for;

fn small_config() -> HeapConfig {
    HeapConfig {
        initial_size: 16 << 20,
        growth: 8 << 20,
        min_extent: 256 << 10,
        region_slots: 4096,
        ..HeapConfig::default()
    }
}

fn is_corrupt(error: &HeapError, expected_what: &str, expected_offset: u64) -> bool {
    matches!(error, HeapError::Corrupt { what, offset } if *what == expected_what && *offset == expected_offset)
}

#[test]
fn default_config_values() {
    let config = HeapConfig::default();

    assert_eq!(config.sync_policy, SyncPolicy::Never);
    assert!(config.integrity);
    assert_eq!(config.initial_size, 64 << 20);
    assert_eq!(config.growth, 64 << 20);
    assert_eq!(config.min_extent, 1 << 20);
    assert_eq!(config.region_slots, 4096);
    assert_eq!(config.pending_limit, 8 << 20);
}

#[test]
fn page_rounding() {
    assert_eq!(page_down(0), 0);
    assert_eq!(page_down(4097), 4096);
    assert_eq!(page_up(4096), 4096);
    assert_eq!(page_up(4097), 8192);
    assert_eq!(page_up(0), 0);
}

#[test]
fn framed_record_parses_back_to_its_payload() {
    for with_bucket in [false, true] {
        let file = DataFile { with_bucket, integrity: true };
        let payload = b"hello heap, this is a record".to_vec();
        let framed = file.frame_record(3, 17, 2, &payload);

        assert_eq!(framed.len() as u64, file.record_header_len() + payload.len() as u64);

        let mut buffer = vec![0xAAu8; 100];
        buffer.extend_from_slice(&framed);
        buffer.extend_from_slice(&[0u8; 50]);

        let mut out = Vec::new();
        let header = file
            .parse(&buffer, 100, framed.len() as u64, 17, 8192, &mut out)
            .expect("parse");

        assert_eq!(out, payload);
        assert_eq!(header.id, 17);
        assert_eq!(header.version, 2);
        assert_eq!(header.crc, crc32c(&payload));
        assert_eq!(header.bucket, if with_bucket { 3 } else { 0 });
    }
}

#[test]
fn parse_reports_each_kind_of_damage() {
    let file = DataFile { with_bucket: false, integrity: true };
    let payload = vec![5u8; 40];
    let framed = file.frame_record(0, 9, 1, &payload);
    let total = framed.len() as u64;
    let mut out = vec![1u8, 2, 3];

    let error = file.parse(&framed, 0, total, 10, 777, &mut out).unwrap_err();
    assert!(is_corrupt(&error, "record identity", 777));
    assert_eq!(out, vec![1u8, 2, 3]);

    let error = file.parse(&framed, 0, total - 1, 9, 777, &mut out).unwrap_err();
    assert!(is_corrupt(&error, "record identity", 777));

    let mut damaged_payload = framed.clone();
    damaged_payload[35] ^= 0xFF;
    let error = file.parse(&damaged_payload, 0, total, 9, 777, &mut out).unwrap_err();
    assert!(is_corrupt(&error, "record payload", 777));

    let mut damaged_header = framed.clone();
    damaged_header[6] ^= 0x01;
    let error = file.parse(&damaged_header, 0, total, 9, 777, &mut out).unwrap_err();
    assert!(is_corrupt(&error, "record header", 777));

    let lax = DataFile { with_bucket: false, integrity: false };
    let framed = lax.frame_record(0, 9, 1, &payload);
    let mut damaged_payload = framed.clone();
    damaged_payload[35] ^= 0xFF;
    let header = lax.parse(&damaged_payload, 0, total, 9, 777, &mut out).expect("no payload check");
    assert_eq!(header.crc, 0);
    assert_eq!(out[5], 5 ^ 0xFF);
}

#[test]
fn check_header_names_the_record() {
    let file = DataFile { with_bucket: true, integrity: true };
    let framed = file.frame_record(4, 21, 6, &[1, 2, 3]);

    let header = file.check_header(&framed, 0, 21, 4096).expect("header");
    assert_eq!(header.version, 6);
    assert_eq!(header.bucket, 4);

    let error = file.check_header(&framed, 0, 22, 4096).unwrap_err();
    assert!(is_corrupt(&error, "record identity", 4096));

    let error = file.check_header(&framed, 1, 21, 4096).unwrap_err();
    assert!(is_corrupt(&error, "record header", 4096));
}

#[test]
fn reads_are_grouped_by_page_runs() {
    let items = [(20000u64, 100u64, 1u64), (4096, 100, 0), (4300, 5000, 2), (40960, 10, 3)];
    let plan = plan_reads(&items);

    assert_eq!(plan.order, vec![1, 2, 0, 3]);
    assert_eq!(plan.groups.len(), 3);
    assert_eq!((plan.groups[0].start, plan.groups[0].end), (4096, 12288));
    assert_eq!((plan.groups[0].from, plan.groups[0].to), (0, 2));
    assert_eq!((plan.groups[1].start, plan.groups[1].end), (16384, 20480));
    assert_eq!((plan.groups[1].from, plan.groups[1].to), (2, 3));
    assert_eq!((plan.groups[2].start, plan.groups[2].end), (40960, 45056));
    assert_eq!((plan.groups[2].from, plan.groups[2].to), (3, 4));

    let same = [(8192u64, 10u64, 5u64), (8192, 10, 6)];
    let plan = plan_reads(&same);
    assert_eq!(plan.order, vec![0, 1]);
    assert_eq!(plan.groups.len(), 1);

    assert!(plan_reads(&[]).groups.is_empty());
}

#[test]
fn allocation_grows_in_whole_pages() {
    assert_eq!(grow_to(4096, 100, 65536), None);
    assert_eq!(grow_to(4096, 5000, 65536), Some(69632));
    assert_eq!(grow_to(4096, 100000, 10), Some(102400));
}

#[test]
fn slot_images_read_back() {
    let slot = Slot { offset: 8192, total_len: 77 };

    assert_eq!(slot_image(None), vec![0u8; 16]);
    assert_eq!(Slot::state(&slot_image(Some(slot))), SlotState::Live(slot));
    assert_eq!(Slot::state(&tombstone_image(slot)), SlotState::Deleted(slot));
    assert_eq!(Slot::decode(&tombstone_image(slot)), None);
}

#[test]
fn slot_reads_join_adjacent_pages() {
    let ids = [0u64, 300, 255, 256, 1000];
    let groups = plan_slot_reads(&ids);

    assert_eq!(groups, vec![(4096, 12288), (16384, 20480)]);
    assert_eq!(locate_slot(&groups, 300), (0, 4800));
    assert_eq!(locate_slot(&groups, 0), (0, 0));
    assert_eq!(locate_slot(&groups, 1000), (1, 3712));
}

#[test]
fn bucket_allocation_follows_the_victim_order() {
    let config = small_config();
    let mut placement = BucketPlacement::new(config.initial_size);
    let mut effects = Vec::new();

    assert_eq!(placement.alloc_record(&config, 3, 100, &mut effects).unwrap(), (4096, 0));
    assert_eq!(
        effects,
        vec![
            PlacementEffect::StageRow {
                offset: 4096,
                row: RegistryRow { kind: b'D', bucket: 3, start: 4096, size: (16 << 20) - 4096 },
            },
            PlacementEffect::StageRow {
                offset: 4160,
                row: RegistryRow { kind: b'S', bucket: 3, start: 0, size: 4096 },
            },
        ]
    );

    effects.clear();
    assert_eq!(placement.alloc_record(&config, 5, 100, &mut effects).unwrap(), (8392704, 4096));
    assert_eq!(
        effects[0],
        PlacementEffect::StageRow {
            offset: 4224,
            row: RegistryRow { kind: b'D', bucket: 5, start: 8392704, size: 8384512 },
        }
    );
    assert_eq!(placement.states[0].data[0].size, 8388608);

    effects.clear();
    assert_eq!(placement.alloc_record(&config, 3, 200, &mut effects).unwrap(), (4196, 1));
    assert!(effects.is_empty());
    assert_eq!(placement.used_bytes(), 400);

    assert_eq!(placement.alloc_update(&config, 5, 50, &mut effects).unwrap(), 8392804);
    assert!(matches!(
        placement.alloc_update(&config, 9, 50, &mut effects),
        Err(HeapError::InvalidArg(_))
    ));
}

#[test]
fn a_record_that_does_not_fit_takes_a_granted_extent() {
    let config = small_config();
    let mut placement = BucketPlacement::new(config.initial_size);
    let mut effects = Vec::new();

    placement.alloc_record(&config, 3, 100, &mut effects).unwrap();
    placement.alloc_record(&config, 5, 100, &mut effects).unwrap();
    effects.clear();

    let free = placement.states[1].data[0].size - placement.states[1].data[0].used;
    let (offset, id) = placement.alloc_record(&config, 5, free + 1, &mut effects).unwrap();
    let rows: Vec<RegistryRow> = effects
        .iter()
        .filter_map(|effect| match effect {
            PlacementEffect::StageRow { row, .. } => Some(*row),
            PlacementEffect::EnsureAlloc { .. } => None,
        })
        .collect();

    assert_eq!(id, 4097);
    assert_eq!(rows.len(), 1);
    assert_eq!(rows[0].kind, b'D');
    assert_eq!(rows[0].bucket, 5);
    assert_eq!(rows[0].start, offset);
    assert!(rows[0].size >= page_up(free + 1));
    assert_eq!(placement.states[1].data.len(), 2);
    assert_eq!(placement.states[1].data[1].start, offset);
    assert_eq!(placement.states[1].data[1].used, free + 1);
    assert_eq!(placement.used_bytes(), 200 + free + 1);
}

#[test]
fn append_allocation_is_sequential() {
    let config = small_config();
    let mut placement = AppendPlacement::new();
    let mut effects = Vec::new();

    assert_eq!(placement.alloc_record(&config, 0, 100, &mut effects).unwrap(), (4096, 0));
    assert_eq!(placement.alloc_record(&config, 0, 50, &mut effects).unwrap(), (4196, 1));
    assert_eq!(placement.alloc_update(&config, 0, 10, &mut effects).unwrap(), 4246);
    assert_eq!(placement.used_bytes(), 160);
    assert_eq!(effects.len(), 3);
}

#[test]
fn slot_scan_finds_the_last_record() {
    let mut bytes = vec![0u8; 16 * 4];
    Slot { offset: 4096, total_len: 100 }.encode(&mut bytes[16..32]);
    Slot { offset: 9000 | 0x8000_0000_0000_0000, total_len: 50 }.encode(&mut bytes[32..48]);

    let mut next_id = 0;
    let mut max_end = 4096;
    scan_slots(&bytes, 10, &mut next_id, &mut max_end).unwrap();

    assert_eq!(next_id, 13);
    assert_eq!(max_end, 9050);
}

fn row_bytes(rows: &[RegistryRow]) -> Vec<u8> {
    let mut bytes = vec![0u8; 64 * (rows.len() + 1)];

    for (k, row) in rows.iter().enumerate() {
        row.encode(&mut bytes[64 * k..64 * k + 64]);
    }

    bytes
}

fn granted_rows() -> Vec<RegistryRow> {
    vec![
        RegistryRow { kind: b'D', bucket: 3, start: 4096, size: (16 << 20) - 4096 },
        RegistryRow { kind: b'S', bucket: 3, start: 0, size: 4096 },
        RegistryRow { kind: b'D', bucket: 5, start: 8392704, size: 8384512 },
        RegistryRow { kind: b'S', bucket: 5, start: 4096, size: 4096 },
    ]
}

#[test]
fn registry_replay_rebuilds_extents_and_regions() {
    let placement = BucketPlacement::replay(16 << 20, &row_bytes(&granted_rows())).expect("replay");

    assert_eq!(placement.states.len(), 2);
    assert_eq!(placement.states[0].id, 3);
    assert_eq!(placement.states[1].id, 5);
    assert_eq!(placement.states[0].data.len(), 1);
    assert_eq!((placement.states[0].data[0].start, placement.states[0].data[0].size), (4096, 8388608));
    assert_eq!((placement.states[1].data[0].start, placement.states[1].data[0].size), (8392704, 8384512));
    assert_eq!((placement.states[1].slots[0].start, placement.states[1].slots[0].size), (4096, 4096));
    assert_eq!(placement.registry_end, 4096 + 4 * 64);
    assert_eq!(placement.extent_grant_count, 4);
    assert_eq!(placement.file_size, 16 << 20);
    assert_eq!(placement.next_region, 8192);
}

#[test]
fn registry_replay_reports_damage() {
    let mut bytes = row_bytes(&granted_rows());
    bytes[64 + 20] ^= 1;
    let error = BucketPlacement::replay(16 << 20, &bytes).err().expect("damaged row");
    assert!(is_corrupt(&error, "registry row", 4160));

    let mut rows = granted_rows();
    rows[2].kind = b'X';
    let error = BucketPlacement::replay(16 << 20, &row_bytes(&rows)).err().expect("bad kind");
    assert!(is_corrupt(&error, "registry row kind", 4096 + 3 * 64));

    let empty = BucketPlacement::replay(16 << 20, &[0u8; 128]).expect("empty registry");
    assert!(empty.states.is_empty());
}

#[test]
fn settling_a_bucket_after_replay() {
    let mut placement = BucketPlacement::replay(16 << 20, &row_bytes(&granted_rows())).expect("replay");
    let last = placement.states[0].data[0];
    let (lo, hi) = (last.start, last.start + last.size);
    let mut scan = SlotScan::new(lo, hi);
    let mut slots = vec![0u8; 16 * 4096];
    Slot { offset: 4096, total_len: 138 }.encode(&mut slots[0..16]);
    Slot { offset: 4234, total_len: 238 }.encode(&mut slots[16..32]);

    placement.settle_region(0, 0, &slots, &mut scan).unwrap();
    assert_eq!(placement.states[0].slots[0].used, 2);
    assert_eq!(scan.max_end, 4472);
    assert_eq!(scan.max_id, Some(1));
    assert_eq!(scan.state_of(1), SlotState::Live(Slot { offset: 4234, total_len: 238 }));
    assert_eq!(scan.state_of(2), SlotState::Empty);

    let tail = TailScan::new(lo, hi, true);
    placement.settle_extents(0, &scan, &tail);
    assert_eq!(placement.states[0].data[0].used, 376);

    placement.bump_region(0, max_found_id(scan.max_id, &[(5, 0, 1, 0, 3)]));
    assert_eq!(placement.states[0].slots[0].used, 6);

    let mut other = SlotScan::new(lo, hi);
    let mut conflicting = slots.clone();
    Slot { offset: 5000, total_len: 10 }.encode(&mut conflicting[16..32]);
    placement.settle_region(0, 0, &slots, &mut other).unwrap();
    let error = placement.settle_region(0, 0, &conflicting, &mut other).unwrap_err();
    assert!(is_corrupt(&error, "index slot", 0));
}

fn record_stream(file: DataFile, ids: &[u64]) -> Vec<u8> {
    let mut content = Vec::new();

    for &id in ids {
        let mut payload = Vec::new();
        payload_for(11, id, 60 + id as usize, &mut payload);
        content.extend_from_slice(&file.frame_record(0, id, 1, &payload));
    }

    content
}

fn walk_all(walker: &mut Walker, content: &[u8], start: u64) -> Vec<(u64, u64, bool)> {
    let mut seen = Vec::new();

    loop {
        match walker.step() {
            WalkStep::Read { offset, len } => {
                let from = (offset - start) as usize;
                walker.feed(&content[from..from + len as usize]);
            }
            WalkStep::Record { offset, header, payload_valid } => {
                seen.push((offset, header.id, payload_valid));
                walker.advance(true);
            }
            WalkStep::Resync { .. } => {}
            WalkStep::Done => break,
        }
    }

    seen
}

#[test]
fn walk_finds_records_and_flags_bad_payloads() {
    let file = DataFile { with_bucket: false, integrity: true };
    let mut content = record_stream(file, &[1, 2, 3]);
    content.extend_from_slice(&[0u8; 20]);
    let first_len = 30 + 61;

    let end = 4096 + content.len() as u64;
    let mut walker = Walker::new(false, true, false, 4096, end);
    let seen = walk_all(&mut walker, &content, 4096);
    assert_eq!(seen.len(), 3);
    assert_eq!(seen[0], (4096, 1, true));
    assert_eq!(seen[1].0, 4096 + first_len);
    assert_eq!(walker.stats().records, 3);

    let mut damaged = content.clone();
    damaged[40] ^= 0xFF;
    let mut walker = Walker::new(false, true, false, 4096, end);
    let seen = walk_all(&mut walker, &damaged, 4096);
    assert_eq!(seen[0], (4096, 1, false));
    assert_eq!(walker.stats().bad_payload, 1);
    assert_eq!(seen.len(), 3);
}

#[test]
fn walk_resyncs_past_a_bad_header() {
    let file = DataFile { with_bucket: false, integrity: true };
    let content = record_stream(file, &[1, 2]);
    let mut damaged = content.clone();
    damaged[0] ^= 0x10;
    let end = 4096 + content.len() as u64;

    let mut strict = Walker::new(false, true, false, 4096, end);
    assert!(walk_all(&mut strict, &damaged, 4096).is_empty());

    let mut walker = Walker::new(false, true, true, 4096, end);
    let seen = walk_all(&mut walker, &damaged, 4096);
    assert_eq!(seen, vec![(4096 + 91, 2, true)]);
    assert_eq!(walker.stats().resyncs, 1);
}

#[test]
fn tail_scan_stops_at_the_first_bad_record() {
    let header = RecordHeader { len: 62, bucket: 0, id: 4, version: 1, crc: 0 };
    let mut tail = TailScan::new(4096, 8192, false);

    assert!(tail.visit(4096, &header, true));
    assert_eq!(tail.end, 4096 + 92);
    assert!(!tail.visit(4188, &header, false));
    assert!(!tail.visit(8150, &header, true));
    assert_eq!(tail.found, vec![(4, 4096, 1, 92, 0)]);
}

#[test]
fn newest_version_counts() {
    let found: Vec<Found> = vec![
        (7, 100, 1, 50, 0),
        (7, 200, 2, 50, 0),
        (8, 300, 1, 50, 0),
        (7, 400, 2, 50, 0),
    ];
    let best = best_versions(&found);

    assert_eq!(best.len(), 2);
    assert!(best.contains(&(7, 400, 2, 50, 0)));
    assert!(best.contains(&(8, 300, 1, 50, 0)));
}

#[test]
fn only_a_contiguous_tail_is_restored() {
    let found: Vec<Found> = [5u64, 6, 3, 7, 9, 8]
        .iter()
        .map(|&id| (id, id * 100, 1, 40, 0))
        .collect();
    let (tail, updates, next) = plan_tail_restore(&found, 5);

    assert_eq!(tail.iter().map(|f| f.0).collect::<Vec<_>>(), vec![5, 6, 7]);
    assert_eq!(updates, vec![(3, 300, 1, 40, 0)]);
    assert_eq!(next, 8);
}

#[test]
fn restore_decisions() {
    let slot = Slot { offset: 4096, total_len: 50 };

    assert!(!should_restore(SlotState::Deleted(slot), None, 8192, 2));
    assert!(!should_restore(SlotState::Live(slot), None, 4096, 2));
    assert!(should_restore(SlotState::Live(slot), None, 8192, 2));
    assert!(!should_restore(SlotState::Live(slot), Some(2), 8192, 2));
    assert!(should_restore(SlotState::Live(slot), Some(1), 8192, 2));
    assert!(should_restore(SlotState::Empty, None, 8192, 1));
    assert!(needs_existing_header(SlotState::Live(slot), 8192));
    assert!(!needs_existing_header(SlotState::Empty, 8192));
}

#[test]
fn rebuild_plans_index_and_registry() {
    let mut plan = RebuildPlan::new();
    let first = RecordHeader { len: 70, bucket: 1, id: 0, version: 1, crc: 0 };
    let second = RecordHeader { len: 70, bucket: 1, id: 1, version: 1, crc: 0 };

    assert!(plan.visit(4096, &first, true, true));
    assert!(plan.visit(4204, &second, true, true));
    assert_eq!(plan.runs, vec![(1, 4096, 4312)]);

    let slots = plan.index_slots();
    assert_eq!(slots, vec![(0, Slot { offset: 4096, total_len: 108 }), (1, Slot { offset: 4204, total_len: 108 })]);

    let rows = plan.registry_rows(4096);
    assert_eq!(
        rows,
        vec![
            RegistryRow { kind: b'D', bucket: 1, start: 4096, size: 4096 },
            RegistryRow { kind: b'S', bucket: 1, start: 0, size: 4096 },
        ]
    );
}

#[test]
fn staging_joins_runs_and_keeps_page_bytes() {
    let mut pages = PagedFile::new(40960);

    assert_eq!(pages.stage(4096, &[1u8; 100], None), StageStep::Staged);
    assert_eq!(pages.stage(4196, &[2u8; 50], None), StageStep::Staged);
    assert_eq!(pages.staged_writes.len(), 1);
    assert_eq!(pages.pending_bytes(), 150);

    assert_eq!(pages.stage(20490, &[3u8; 20], None), StageStep::NeedPage(20480));
    let read_page = vec![9u8; 4096];
    assert_eq!(pages.stage(20490, &[3u8; 20], Some(&read_page)), StageStep::Staged);
    assert!(pages.has_pending());

    assert_eq!(pages.flush_reads(), vec![4096]);
    let mut disk = HashMap::new();
    disk.insert(4096u64, vec![7u8; 4096]);
    let writes = pages.flush(&disk);

    assert_eq!(writes.len(), 2);
    assert_eq!(writes[0].0, 4096);
    assert_eq!(writes[0].1.len(), 4096);
    assert_eq!(&writes[0].1[..100], &[1u8; 100][..]);
    assert_eq!(&writes[0].1[100..150], &[2u8; 50][..]);
    assert!(writes[0].1[150..].iter().all(|&b| b == 7));
    assert_eq!(writes[1].0, 20480);
    assert_eq!(&writes[1].1[..10], &[9u8; 10][..]);
    assert_eq!(&writes[1].1[10..30], &[3u8; 20][..]);
    assert!(writes[1].1[30..].iter().all(|&b| b == 9));
    assert_eq!(pages.pending_bytes(), 0);
    assert!(!pages.has_pending());
    assert_eq!(pages.tail_pages.get(&4096), Some(&writes[0].1));

    assert_eq!(pages.stage(4246, &[4u8; 10], None), StageStep::Staged);
    assert_eq!(&pages.staged_writes[0].buffer[..150], &writes[0].1[..150]);
    assert_eq!(&pages.staged_writes[0].buffer[150..], &[4u8; 10][..]);
}

#[test]
fn staging_flushes_before_overlapping_runs() {
    let mut pages = PagedFile::new(40960);

    assert_eq!(pages.stage(4096, &[1u8; 100], None), StageStep::Staged);
    assert_eq!(pages.stage(4096, &[2u8; 10], None), StageStep::FlushFirst);

    for k in 1..64u64 {
        assert_eq!(pages.stage(k * 8192 + 4096, &[0u8; 16], None), StageStep::Staged);
    }
    assert_eq!(pages.stage(64 * 8192 + 4096, &[0u8; 16], None), StageStep::FlushFirst);
}

#[test]
fn commit_policy() {
    let config = HeapConfig { sync_policy: SyncPolicy::EveryN(3), pending_limit: 100, ..HeapConfig::default() };
    let mut count = 0u32;

    assert!(!after_write(&config, &mut count, 0, 0));
    assert!(!after_write(&config, &mut count, 0, 0));
    assert!(after_write(&config, &mut count, 0, 0));
    assert_eq!(count, 3);
    assert!(after_write(&config, &mut count, 60, 50));
    assert!(!after_write(&config, &mut count, 50, 50));

    let mut wrapping = u32::MAX;
    let never = HeapConfig::default();
    assert!(!after_write(&never, &mut wrapping, 0, 0));
    assert_eq!(wrapping, 0);

    let mut count = u32::MAX - 1;
    let every_seven = HeapConfig { sync_policy: SyncPolicy::EveryN(7), ..HeapConfig::default() };
    assert!(!after_write(&every_seven, &mut count, 0, 0));
    assert!(after_write(&every_seven, &mut count, 0, 0));
}

#[test]
fn batch_reports_the_first_missing_record() {
    let slot = Slot { offset: 4096, total_len: 40 };

    let items = batch_items(&[4, 5], &[Some(slot), Some(slot)]).unwrap();
    assert_eq!(items, vec![(4096, 40, 4), (4096, 40, 5)]);

    let error = batch_items(&[1, 2, 3], &[Some(slot), None, None]).unwrap_err();
    assert!(matches!(error, HeapError::NotFound(2)));
}

#[test]
fn ring_segments_and_completions() {
    let mut segments = Vec::new();
    split(4, 100, 10, &mut segments);

    assert_eq!(segments.len(), 3);
    assert_eq!((segments[0].offset, segments[0].len), (100, 4));
    assert_eq!((segments[2].offset, segments[2].len), (108, 2));

    let mut run = RingRun::new(segments, 2, true, IoCounters::default());
    assert_eq!(run.next_submission(), Some(Submission { index: 0, offset: 100, pos: 0, len: 4 }));
    assert_eq!(run.next_submission(), Some(Submission { index: 1, offset: 104, pos: 0, len: 4 }));
    assert_eq!(run.next_submission(), None);

    assert_eq!(run.complete(0, 4), Completed::Settled);
    assert_eq!(run.next_submission(), Some(Submission { index: 2, offset: 108, pos: 0, len: 2 }));
    assert_eq!(
        run.complete(1, 2),
        Completed::Resubmit(Submission { index: 1, offset: 106, pos: 2, len: 2 })
    );
    assert_eq!(run.complete(1, 0), Completed::ZeroFill { index: 1, pos: 2, len: 2 });
    assert_eq!(run.complete(2, 2), Completed::Settled);
    assert_eq!(run.pending, 0);
    assert_eq!(run.outcome(), Ok(()));
    assert_eq!(run.counters.reads, 4);
    assert_eq!(run.counters.read_bytes, 8);
    assert!(run.segments.iter().all(|segment: &Segment| segment.settled));
}

#[test]
fn ring_failures() {
    let mut segments = Vec::new();
    split(8, 0, 8, &mut segments);
    let mut run = RingRun::new(segments.clone(), 4, false, IoCounters::default());
    run.next_submission();
    assert_eq!(run.complete(0, 0), Completed::Settled);
    assert_eq!(run.outcome(), Err(RingFailure::WriteZero));

    let mut run = RingRun::new(segments, 4, true, IoCounters::default());
    run.next_submission();
    assert_eq!(run.complete(0, -5), Completed::Settled);
    assert_eq!(run.outcome(), Err(RingFailure::Os(5)));
    assert_eq!(run.next_submission(), None);
}

#[test]
fn ring_shape_rejects_zero_chunk() {
    assert_eq!(ring_shape(8, 0), None);
    assert_eq!(ring_shape(0, 1), Some((1, 1)));
    assert_eq!(ring_shape(5, 4096), Some((8, 5)));
    assert_eq!(ring_shape(32, 512 << 10), Some((32, 32)));
}

#[test]
fn median_of_samples() {
    let mut odd = [5u64, 1, 4, 2, 3];
    assert_eq!(median_u64(&mut odd), 3);
    assert_eq!(odd, [1, 2, 3, 4, 5]);

    let mut even = [4u64, 1, 3, 2];
    assert_eq!(median_u64(&mut even), 3);
}

#[test]
fn sync_io_starts_at_zero() {
    let io = SyncIo::new();

    assert_eq!(io.counters.reads, 0);
    assert_eq!(io.counters.syncs, 0);
}

#[test]
fn extent_end() {
    assert_eq!(Extent { start: 4096, size: 8192, used: 0 }.end(), 12288);
}

#[test]
fn replayed_registry_matches_allocation() {
    let config = HeapConfig { min_extent: 4096, region_slots: 8, ..small_config() };
    let mut placement = BucketPlacement::new(config.initial_size);
    let mut effects = Vec::new();

    for step in 0..200u64 {
        let bucket = step % 5;
        let len = 1000 + (step * 7919) % 300_000;

        placement.alloc_record(&config, bucket, len, &mut effects).unwrap();
    }

    let rows: Vec<RegistryRow> = effects
        .iter()
        .filter_map(|effect| match effect {
            PlacementEffect::StageRow { row, .. } => Some(*row),
            PlacementEffect::EnsureAlloc { .. } => None,
        })
        .collect();
    let replayed = BucketPlacement::replay(config.initial_size, &row_bytes(&rows)).expect("replay");

    assert_eq!(replayed.states.len(), placement.states.len());
    assert_eq!(replayed.next_region, placement.next_region);
    assert_eq!(replayed.registry_end, placement.registry_end);

    for (live, again) in placement.states.iter().zip(replayed.states.iter()) {
        assert_eq!(live.id, again.id);

        let live_extents: Vec<(u64, u64)> = live.data.iter().map(|e| (e.start, e.size)).collect();
        let again_extents: Vec<(u64, u64)> = again.data.iter().map(|e| (e.start, e.size)).collect();
        assert_eq!(live_extents, again_extents);

        let live_regions: Vec<(u64, u64)> = live.slots.iter().map(|e| (e.start, e.size)).collect();
        let again_regions: Vec<(u64, u64)> = again.slots.iter().map(|e| (e.start, e.size)).collect();
        assert_eq!(live_regions, again_regions);
    }
}

#[test]
fn every_checked_registry_byte_is_covered() {
    let row = RegistryRow { kind: b'S', bucket: 9, start: 8192, size: 4096 };
    let mut buffer = [0u8; 64];

    row.encode(&mut buffer);

    for byte_index in 0..36 {
        let mut corrupted = buffer;

        corrupted[byte_index] ^= 0x80;

        assert_eq!(RegistryRow::decode(&corrupted), None, "byte {byte_index} undetected");
    }
}

#[test]
fn one_changed_byte_changes_the_checksum() {
    let mut data = vec![0u8; 100];
    payload_for(5, 6, 100, &mut data);
    let before = crc32c(&data);

    for index in [0usize, 1, 50, 99] {
        let mut changed = data.clone();

        changed[index] = changed[index].wrapping_add(1);

        assert_ne!(crc32c(&changed), before);
    }
}

#[test]
fn opening_decides_between_create_open_and_rebuild() {
    assert_eq!(open_start(false, true, true, true), OpenStart::Create);
    assert_eq!(open_start(false, false, false, false), OpenStart::Create);
    assert_eq!(open_start(true, true, true, true), OpenStart::Open);
    assert_eq!(open_start(true, true, false, false), OpenStart::Open);
    assert_eq!(open_start(true, true, false, true), OpenStart::RebuildThenOpen);
    assert_eq!(open_start(true, false, true, false), OpenStart::RebuildThenOpen);
}

#[test]
fn only_damage_found_in_old_files_is_rebuilt_once() {
    let damage = HeapError::Corrupt { what: "index slot", offset: 0 };

    assert!(rebuild_after_failure(&damage, false, false));
    assert!(!rebuild_after_failure(&damage, true, false));
    assert!(!rebuild_after_failure(&damage, false, true));
    assert!(!rebuild_after_failure(&HeapError::NotFound(3), false, false));
    assert!(!rebuild_after_failure(&HeapError::InvalidArg("x"), false, false));
}

#[test]
fn placed_records_never_share_bytes() {
    let config = HeapConfig { min_extent: 4096, ..small_config() };
    let mut placement = BucketPlacement::new(config.initial_size);
    let mut effects = Vec::new();
    let mut ranges: Vec<(u64, u64)> = Vec::new();
    let mut ids = Vec::new();

    for key in 0..300u64 {
        let total_len = 100 + (key * 7919) % 20_000;
        let (offset, id) = placement.alloc_record(&config, key % 5, total_len, &mut effects).unwrap();

        ranges.push((offset, offset + total_len));
        ids.push(id);
    }

    ranges.sort_unstable();

    for pair in ranges.windows(2) {
        assert!(pair[0].1 <= pair[1].0, "{:?} overlaps {:?}", pair[0], pair[1]);
    }

    ids.sort_unstable();
    ids.dedup();
    assert_eq!(ids.len(), 300);
}

#[test]
fn staged_bytes_are_in_the_file_after_the_images_are_written() {
    let mut file: Vec<u8> = (0..40960u32).map(|value| (value % 251) as u8).collect();
    let mut pages = PagedFile::new(40960);
    let staged: Vec<(u64, Vec<u8>)> = vec![
        (5000, vec![1u8; 300]),
        (5300, vec![2u8; 50]),
        (12288, vec![3u8; 4096]),
        (20000, vec![4u8; 9000]),
    ];

    for (offset, bytes) in &staged {
        let page = (offset / 4096) * 4096;
        let head = file[page as usize..page as usize + 4096].to_vec();
        let step = match pages.stage(*offset, bytes, None) {
            StageStep::NeedPage(_) => pages.stage(*offset, bytes, Some(&head)),
            other => other,
        };

        assert_eq!(step, StageStep::Staged);
    }

    let mut disk = HashMap::new();

    for page in pages.flush_reads() {
        disk.insert(page, file[page as usize..page as usize + 4096].to_vec());
    }

    let before = file.clone();

    for (base, image) in pages.flush(&disk) {
        file[base as usize..base as usize + image.len()].copy_from_slice(&image);
    }

    let mut written = vec![false; file.len()];

    for (offset, bytes) in &staged {
        assert_eq!(&file[*offset as usize..*offset as usize + bytes.len()], &bytes[..]);

        for k in 0..bytes.len() {
            written[*offset as usize + k] = true;
        }
    }

    for (k, &was_written) in written.iter().enumerate() {
        if !was_written {
            assert_eq!(file[k], before[k], "byte {k} changed");
        }
    }
}

#[test]
fn records_that_need_new_room_are_placed() {
    let config = small_config();
    let mut placement = BucketPlacement::new(config.initial_size);
    let mut effects = Vec::new();

    placement.alloc_record(&config, 3, 100, &mut effects).unwrap();
    placement.alloc_record(&config, 5, 100, &mut effects).unwrap();

    let free = placement.states[1].data[0].size - placement.states[1].data[0].used;
    let offset = placement.alloc_update(&config, 5, free + 1, &mut effects).unwrap();

    assert_eq!(placement.states[1].data.len(), 2);
    assert_eq!(placement.states[1].data[1].start, offset);

    let tiny_regions = HeapConfig { region_slots: 1, ..small_config() };
    let mut placement = BucketPlacement::new(tiny_regions.initial_size);

    assert_eq!(placement.alloc_record(&tiny_regions, 1, 10, &mut effects).unwrap().1, 0);
    assert_eq!(placement.alloc_record(&tiny_regions, 1, 10, &mut effects).unwrap().1, 1);
    assert_eq!(placement.alloc_record(&tiny_regions, 2, 10, &mut effects).unwrap().1, 2);
}

#[test]
fn placement_refuses_only_at_numeric_limits() {
    let huge_regions = HeapConfig { region_slots: u64::MAX, ..small_config() };
    let mut placement = BucketPlacement::new(huge_regions.initial_size);
    let mut effects = Vec::new();

    assert!(placement.alloc_record(&huge_regions, 1, 10, &mut effects).is_ok());
    assert!(matches!(
        placement.alloc_record(&huge_regions, 2, 10, &mut effects),
        Err(HeapError::InvalidArg(_))
    ));
    assert!(matches!(
        placement.alloc_record(&huge_regions, 1, u64::MAX - 100, &mut effects),
        Err(HeapError::InvalidArg(_))
    ));
}

#[test]
fn a_registry_replays_under_any_initial_size() {
    let placement = BucketPlacement::replay(0, &row_bytes(&granted_rows())).expect("replay");
    let sized = BucketPlacement::replay(16 << 20, &row_bytes(&granted_rows())).expect("replay");

    assert!(placement.file_size >= 4096);
    assert_eq!(placement.extent_grant_count, sized.extent_grant_count);
    assert_eq!(BucketPlacement::replay(100, &[]).expect("empty").file_size, 4096);
}

#[test]
fn rounding_up_reaches_the_last_page() {
    assert_eq!(page_up(u64::MAX - 4095), u64::MAX - 4095);
    assert_eq!(page_up(u64::MAX - 8190), u64::MAX - 4095);
}

#[test]
fn grouped_samples_follow_the_round_robin_layout() {
    let ids: Vec<u64> = (100..132).collect();

    assert_eq!(grouped_sample(&ids, 4, 1, 2, 3), vec![109, 113, 117]);
    assert_eq!(grouped_sample(&ids, 4, 3, 0, 0), Vec::<u64>::new());
}

#[test]
fn append_numbers_records_in_order_across_updates() {
    let config = small_config();
    let mut placement = AppendPlacement::new();
    let mut effects = Vec::new();
    let mut cursor = 4096u64;
    let mut next = 0u64;

    for (k, len) in [100u64, 40, 7, 300, 1, 55].iter().enumerate() {
        if k % 3 == 2 {
            assert_eq!(placement.alloc_update(&config, 0, *len, &mut effects).unwrap(), cursor);
        } else {
            assert_eq!(placement.alloc_record(&config, 0, *len, &mut effects).unwrap(), (cursor, next));
            next += 1;
        }
        cursor += len;
    }

    assert_eq!(placement.cursor, cursor);
    assert_eq!(placement.next_id, 4);
}

#[test]
fn a_grant_follows_the_victim_order_when_called_directly() {
    let config = small_config();
    let mut placement = BucketPlacement::new(config.initial_size);
    let mut effects = Vec::new();

    placement.alloc_record(&config, 3, 100, &mut effects).unwrap();
    placement.alloc_record(&config, 5, 100, &mut effects).unwrap();
    effects.clear();

    let before = placement.states[0].data[0];

    placement.grant_extent(config.growth, 1, 4096, &mut effects).unwrap();

    let taken = placement.states[1].data[1];

    assert_eq!(placement.states[0].data[0].size + taken.size, before.size);
    assert_eq!(taken.start, before.start + placement.states[0].data[0].size);
    assert_eq!(taken.used, 0);
    assert!(matches!(effects[0], PlacementEffect::StageRow { row: RegistryRow { kind: b'D', bucket: 5, .. }, .. }));
}
