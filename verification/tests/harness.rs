//! The pieces of the measurement and reliability programs that the library
//! holds: the stopping rule of timed repetitions, workload planning, the random pick of
//! records, the log of confirmed writes, and checksums with shared tables.

use heapstore::confirmed::{commit_line, log_entry, parse_decimal_u64, written_line, ConfirmedLog, LogEntry};
use heapstore::crc32::{crc32c, Crc32c};
use heapstore::measure::{
    bucket_count_for, grouped_read_fits, needs_fresh_heap, population_for, repetition_done, repetition_limits,
    warmup_count, write_bucket, write_fits_budget, HUGE_OPERATION_BYTES,
};
use heapstore::rng::{RandomSource, SplitMix64};

fn fields(line: &str) -> Vec<Vec<u8>> {
    line.split_whitespace().map(|field| field.as_bytes().to_vec()).collect()
}

#[test]
fn repetitions_of_small_operations_stop_by_time_or_count() {
    let limits = repetition_limits(4096);

    assert_eq!(limits.min_iterations, 12);
    assert_eq!(limits.max_iterations, 300);
    assert!(!repetition_done(4096, 11, 10_000_000_000));
    assert!(repetition_done(4096, 12, 400_000_000));
    assert!(!repetition_done(4096, 12, 399_999_999));
    assert!(repetition_done(4096, 300, 0));
    assert!(!repetition_done(4096, 299, 399_999_999));
    assert!(!repetition_done(4096, 11, 19_999_999_999));
    assert!(repetition_done(4096, 1, 20_000_000_000));
}

#[test]
fn repetitions_of_huge_operations_are_short() {
    let limits = repetition_limits(HUGE_OPERATION_BYTES);

    assert_eq!(limits.min_iterations, 3);
    assert_eq!(limits.max_iterations, 6);
    assert!(repetition_done(HUGE_OPERATION_BYTES, 6, 0));
    assert!(!repetition_done(HUGE_OPERATION_BYTES, 5, 5_999_999_999));
    assert!(repetition_done(HUGE_OPERATION_BYTES, 3, 6_000_000_000));
    assert!(!repetition_done(HUGE_OPERATION_BYTES - 1, 6, 0));
    assert!(repetition_done(u64::MAX, 1, 30_000_000_000));
}

#[test]
fn decimal_fields_read_as_str_parse_reads_them() {
    for text in ["0", "7", "+7", "007", "18446744073709551615", "", "+", "-5", "12a", " 1", "18446744073709551616", "99999999999999999999"] {
        assert_eq!(parse_decimal_u64(text.as_bytes()), text.parse::<u64>().ok(), "{text:?}");
    }
    assert_eq!(parse_decimal_u64(b"1234567890"), Some(1_234_567_890));
}

#[test]
fn log_lines_are_written_as_text() {
    assert_eq!(written_line(12, 345), b"12 345\n".to_vec());
    assert_eq!(written_line(0, u64::MAX), b"0 18446744073709551615\n".to_vec());
    assert_eq!(commit_line(32), b"C 32\n".to_vec());
    assert_eq!(commit_line(0), b"C 0\n".to_vec());
}

#[test]
fn log_lines_read_back_as_what_they_record() {
    for (key, id) in [(0u64, 0u64), (9, 10), (123_456, u64::MAX)] {
        let line = String::from_utf8(written_line(key, id)).unwrap();

        assert_eq!(log_entry(&fields(&line)), LogEntry::Written { key, id });

        let commit = String::from_utf8(commit_line(key)).unwrap();

        assert_eq!(log_entry(&fields(&commit)), LogEntry::Commit);
    }
    assert_eq!(log_entry(&fields("C anything")), LogEntry::Commit);
    assert_eq!(log_entry(&fields("C")), LogEntry::Other);
    assert_eq!(log_entry(&fields("1 2 3")), LogEntry::Other);
    assert_eq!(log_entry(&fields("1 x")), LogEntry::Other);
    assert_eq!(log_entry(&fields("")), LogEntry::Other);
}

#[test]
fn confirmed_pairs_are_those_before_the_last_commit() {
    let text = "0 10\n1 11\nC 2\n2 12\n3 13\nC 4\n4 14\nnoise\n5 1";
    let lines: Vec<Vec<Vec<u8>>> = text.lines().map(fields).collect();
    let log = ConfirmedLog::read(&lines);

    assert_eq!(log.confirmed, vec![(0, 10), (1, 11), (2, 12), (3, 13)]);
    assert_eq!(log.tail, vec![(4, 14), (5, 1)]);
}

#[test]
fn a_log_that_ends_in_a_commit_has_no_tail() {
    let mut text = Vec::new();

    for key in 0..5u64 {
        text.extend_from_slice(&written_line(key, 100 + key));
    }
    text.extend_from_slice(&commit_line(5));

    let text = String::from_utf8(text).unwrap();
    let lines: Vec<Vec<Vec<u8>>> = text.lines().map(fields).collect();
    let log = ConfirmedLog::read(&lines);

    assert_eq!(log.confirmed, (0..5u64).map(|key| (key, 100 + key)).collect::<Vec<_>>());
    assert!(log.tail.is_empty());
    assert!(ConfirmedLog::read(&Vec::new()).confirmed.is_empty());
}

#[test]
fn shuffled_prefix_picks_distinct_items_and_keeps_the_pool() {
    let mut pool: Vec<u32> = (0..100).collect();
    let mut rng = SplitMix64::new(0xC0FFEE);

    rng.shuffle_prefix(&mut pool, 32);

    let mut prefix = pool[..32].to_vec();

    prefix.sort_unstable();
    prefix.dedup();
    assert_eq!(prefix.len(), 32);

    let mut all = pool.clone();

    all.sort_unstable();
    assert_eq!(all, (0..100).collect::<Vec<u32>>());

    let mut again: Vec<u32> = (0..100).collect();

    SplitMix64::new(0xC0FFEE).shuffle_prefix(&mut again, 32);
    assert_eq!(again, pool);
    assert_ne!(pool[..32], (0..32).collect::<Vec<u32>>()[..]);
}

#[test]
fn shuffled_prefix_steps_follow_the_draws() {
    let mut pool: Vec<u32> = vec![10, 20, 30, 40];
    let mut rng = SplitMix64::new(7);
    let mut draws = SplitMix64::new(7);
    let mut expected = pool.clone();

    for i in 0..2usize {
        let j = i + draws.below((expected.len() - i) as u64) as usize;

        expected.swap(i, j);
    }
    rng.shuffle_prefix(&mut pool, 2);
    assert_eq!(pool, expected);
    assert_eq!(rng.next_u64(), draws.next_u64());

    let mut whole: Vec<u32> = vec![1];

    SplitMix64::new(3).shuffle_prefix(&mut whole, 1);
    assert_eq!(whole, vec![1]);
}

#[test]
fn shared_tables_give_the_same_checksums() {
    let crc = Crc32c::new();

    assert_eq!(crc.checksum(b"123456789"), 0xE306_9283);
    assert_eq!(crc.checksum(b""), 0);

    let payload: Vec<u8> = (0..1000u32).map(|value| (value * 7) as u8).collect();

    assert_eq!(crc.checksum(&payload), crc32c(&payload));
}

#[test]
fn the_source_defaults_draw_like_the_generator() {
    let mut through_trait = SplitMix64::new(77);
    let mut direct = SplitMix64::new(77);

    assert_eq!(RandomSource::below(&mut through_trait, 1000), direct.below(1000));
    assert_eq!(RandomSource::below(&mut through_trait, 0), 0);
    direct.below(0);

    let mut a = [0u8; 21];
    let mut b = [0u8; 21];

    RandomSource::fill(&mut through_trait, &mut a);
    direct.fill(&mut b);
    assert_eq!(a, b);
    assert_eq!(RandomSource::next_u64(&mut through_trait), direct.next_u64());
}

#[test]
fn workload_planning_follows_the_budgets() {
    assert_eq!(population_for(1_900_000_000, 1 << 10, 1024), 1024);
    assert_eq!(population_for(1_900_000_000, 7 << 20, 1024), 1_900_000_000 / ((7 << 20) + 64));
    assert_eq!(population_for(2_100_000_000, 2 << 20, 2000), 2_100_000_000 / ((2 << 20) + 64));
    assert_eq!(bucket_count_for(7 << 20), 8);
    assert_eq!(bucket_count_for((7 << 20) - 1), 16);
    assert!(grouped_read_fits(1024, 16, 32));
    assert!(!grouped_read_fits(1024, 16, 65));
    assert_eq!(warmup_count(10, 16), 10);
    assert_eq!(warmup_count(1000, 16), 32);
    assert!(write_fits_budget(32, 64 << 10, 1000 * (64 << 10), 2_100_000_000));
    assert!(!write_fits_budget(16, 7 << 20, 1000 * (7 << 20), 2_100_000_000));
    assert!(write_fits_budget(u64::MAX, u64::MAX, u64::MAX, u64::MAX) == false);
    assert!(!needs_fresh_heap(0, 100, 400));
    assert!(needs_fresh_heap(1, 100, 400));
    assert_eq!(write_bucket(true, 21, 10, 7, 16), 5);
    assert_eq!(write_bucket(false, 21, 10, 7, 16), (21 * 10 + 7) % 16);
}
