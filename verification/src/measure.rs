//! Summaries of timing samples.

use vstd::prelude::*;
use crate::sort::{ascending, sort_u64s};

verus! {

/// Latency percentiles and the total time of a run of one operation, in
/// nanoseconds.
#[derive(Debug, Default, Clone, Copy)]
pub struct OperationStats {
    pub iterations: u64,
    pub p50_ns: u64,
    pub p95_ns: u64,
    pub p99_ns: u64,
    pub total_ns: u64,
}

/// Sorts `values` in ascending order and gives the one in the middle (the
/// upper one of the two middle values when there is an even number).
pub fn median_u64(values: &mut [u64]) -> (r: u64)
    requires
        old(values)@.len() > 0,
    ensures
        final(values)@.to_multiset() == old(values)@.to_multiset(),
        ascending(final(values)@),
        final(values)@.len() == old(values)@.len(),
        r == final(values)@[(old(values)@.len() / 2) as int],
{
    sort_u64s(values);
    values[values.len() / 2]
}

/// Operations of at least this many bytes (256 MiB) are measured with
/// fewer, longer repetitions.
pub const HUGE_OPERATION_BYTES: u64 = 268435456;

/// How long a repetition of one timed operation runs: at least
/// `min_iterations` and `target_ns` together, or else until
/// `max_iterations` or `max_ns`, whichever comes first.
#[derive(Debug, Clone, Copy)]
pub struct RepetitionLimits {
    pub min_iterations: u64,
    pub target_ns: u64,
    pub max_iterations: u64,
    pub max_ns: u64,
}

/// The limits for operations of `op_bytes` bytes: 3 to 6 iterations, 6 s
/// wanted and 30 s at most for huge ones; 12 to 300 iterations, 0.4 s
/// wanted and 20 s at most for the others.
pub open spec fn limits_for(op_bytes: u64) -> RepetitionLimits {
    if op_bytes >= HUGE_OPERATION_BYTES {
        RepetitionLimits {
            min_iterations: 3,
            target_ns: 6_000_000_000,
            max_iterations: 6,
            max_ns: 30_000_000_000,
        }
    } else {
        RepetitionLimits {
            min_iterations: 12,
            target_ns: 400_000_000,
            max_iterations: 300,
            max_ns: 20_000_000_000,
        }
    }
}

/// Whether a repetition under `limits` is over after `iterations` timed
/// operations and `elapsed_ns` nanoseconds.
pub open spec fn limits_reached(limits: RepetitionLimits, iterations: u64, elapsed_ns: u64) -> bool {
    (iterations >= limits.min_iterations && elapsed_ns >= limits.target_ns) || iterations
        >= limits.max_iterations || elapsed_ns >= limits.max_ns
}

/// The repetition limits for operations of `op_bytes` bytes.
pub fn repetition_limits(op_bytes: u64) -> (r: RepetitionLimits)
    ensures
        r == limits_for(op_bytes),
{
    if op_bytes >= HUGE_OPERATION_BYTES {
        RepetitionLimits {
            min_iterations: 3,
            target_ns: 6_000_000_000,
            max_iterations: 6,
            max_ns: 30_000_000_000,
        }
    } else {
        RepetitionLimits {
            min_iterations: 12,
            target_ns: 400_000_000,
            max_iterations: 300,
            max_ns: 20_000_000_000,
        }
    }
}

/// Whether a repetition of operations of `op_bytes` bytes stops after
/// `iterations` timed operations that took `elapsed_ns` nanoseconds since
/// the repetition began.
pub fn repetition_done(op_bytes: u64, iterations: u64, elapsed_ns: u64) -> (r: bool)
    ensures
        r == limits_reached(limits_for(op_bytes), iterations, elapsed_ns),
{
    let limits = repetition_limits(op_bytes);
    (iterations >= limits.min_iterations && elapsed_ns >= limits.target_ns) || iterations
        >= limits.max_iterations || elapsed_ns >= limits.max_ns
}

/// A repetition never runs more than 300 timed operations, and one of
/// huge operations never more than 6, however fast or slow they are; once
/// over, it stays over as operations and time add up.
pub proof fn lemma_repetition_bounded(op_bytes: u64, iterations: u64, elapsed_ns: u64, later_iterations: u64, later_ns: u64)
    requires
        iterations <= later_iterations,
        elapsed_ns <= later_ns,
    ensures
        iterations >= 300 ==> limits_reached(limits_for(op_bytes), iterations, elapsed_ns),
        op_bytes >= HUGE_OPERATION_BYTES && iterations >= 6 ==> limits_reached(
            limits_for(op_bytes),
            iterations,
            elapsed_ns,
        ),
        limits_reached(limits_for(op_bytes), iterations, elapsed_ns) ==> limits_reached(
            limits_for(op_bytes),
            later_iterations,
            later_ns,
        ),
{
}

/// A grouped read's records: `width` consecutive records of bucket `bucket`
/// from its `start`-th on, where records were inserted round-robin over
/// `bucket_count` buckets, so that record number `k` of a bucket is item
/// `k * bucket_count + bucket` of `ids`.
pub fn grouped_sample(ids: &Vec<u64>, bucket_count: u64, bucket: u64, start: u64, width: u64) -> (r: Vec<u64>)
    requires
        width > 0 ==> (start + width - 1) * bucket_count + bucket < ids@.len(),
    ensures
        r@.len() == width,
        forall|i: int| 0 <= i < width ==> #[trigger] r@[i] == ids@[(start + i) * bucket_count + bucket],
{
    let mut r: Vec<u64> = Vec::new();
    let mut i: u64 = 0;
    while i < width
        invariant
            i <= width,
            width > 0 ==> (start + width - 1) * bucket_count + bucket < ids@.len(),
            r@.len() == i,
            forall|j: int| 0 <= j < i ==> #[trigger] r@[j] == ids@[(start + j) * bucket_count + bucket],
        decreases width - i,
    {
        let n = ids.len();
        assert((start + i) * bucket_count <= (start + width - 1) * bucket_count) by (nonlinear_arith)
            requires
                i < width,
        ;
        let k: u64 = if bucket_count == 0 {
            bucket
        } else {
            assert(start + i <= (start + i) * bucket_count) by (nonlinear_arith)
                requires
                    bucket_count >= 1,
            ;
            (start + i) * bucket_count + bucket
        };
        proof {
            if bucket_count == 0 {
                assert((start + i) * bucket_count == 0) by (nonlinear_arith)
                    requires
                        bucket_count == 0,
                ;
            }
        }
        r.push(ids[k as usize]);
        i = i + 1;
    }
    r
}

/// How many records of `size` bytes a read workload creates: as many as a
/// byte budget holds at `size` plus 64 bytes each, and at most `cap`.
pub fn population_for(budget: u64, size: u64, cap: u64) -> (r: u64)
    requires
        size + 64 <= u64::MAX,
    ensures
        r == if budget as int / (size + 64) < cap {
            budget as int / (size + 64)
        } else {
            cap as int
        },
{
    let fit = budget / (size + 64);
    if fit < cap {
        fit
    } else {
        cap
    }
}

/// How many buckets a workload of records of `size` bytes spreads them
/// over: 8 for records of 7 MiB or more, 16 otherwise.
pub fn bucket_count_for(size: u64) -> (r: u64)
    ensures
        r == if size >= 7340032 {
            8u64
        } else {
            16u64
        },
{
    if size >= 7340032 {
        8
    } else {
        16
    }
}

/// Whether a grouped read of `width` records fits in one bucket of a
/// population spread round-robin over `bucket_count` buckets.
pub fn grouped_read_fits(population: u64, bucket_count: u64, width: u64) -> (r: bool)
    requires
        bucket_count > 0,
    ensures
        r == (population / bucket_count >= width),
{
    population / bucket_count >= width
}

/// How many records a write workload inserts before it is timed: one
/// operation's worth, but at most two per bucket.
pub fn warmup_count(width: u64, bucket_count: u64) -> (r: u64)
    requires
        2 * bucket_count <= u64::MAX,
    ensures
        r == if width < 2 * bucket_count {
            width as int
        } else {
            2 * bucket_count
        },
{
    if width < 2 * bucket_count {
        width
    } else {
        2 * bucket_count
    }
}

/// Whether a write workload fits the device budget: its warm-up records
/// of `size` bytes and one operation of `op_bytes` bytes.
pub fn write_fits_budget(warmup: u64, size: u64, op_bytes: u64, budget: u64) -> (r: bool)
    ensures
        r == (warmup * size + op_bytes <= budget),
{
    let w = warmup as u128;
    let z = size as u128;
    assert(w * z <= 0xFFFF_FFFF_FFFF_FFFFu128 * 0xFFFF_FFFF_FFFF_FFFFu128) by (nonlinear_arith)
        requires
            w <= 0xFFFF_FFFF_FFFF_FFFFu128,
            z <= 0xFFFF_FFFF_FFFF_FFFFu128,
    ;
    w * z + (op_bytes as u128) <= budget as u128
}

/// Whether a write workload starts again on a fresh heap: when four more
/// operations of `op_bytes` bytes would pass the budget.
pub fn needs_fresh_heap(written: u64, op_bytes: u64, budget: u64) -> (r: bool)
    ensures
        r == (written + 4 * op_bytes > budget),
{
    (written as u128) + 4 * (op_bytes as u128) > budget as u128
}

/// The bucket of record `record_index` of write operation `iteration`: a
/// grouped operation puts all its records in one bucket, taken in turn; an
/// arbitrary one spreads its records round-robin.
pub fn write_bucket(grouped: bool, iteration: u64, width: u64, record_index: u64, bucket_count: u64) -> (r:
    u64)
    requires
        bucket_count > 0,
        iteration * width + record_index <= u64::MAX,
    ensures
        r == if grouped {
            iteration % bucket_count
        } else {
            ((iteration * width + record_index) % bucket_count as int) as u64
        },
{
    if grouped {
        iteration % bucket_count
    } else {
        (iteration * width + record_index) % bucket_count
    }
}

} // verus!
