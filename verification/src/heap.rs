//! Configuration of a heap, its statistics, and the policy that decides
//! when staged writes are committed.

use vstd::prelude::*;
use crate::error::HeapError;
use crate::format::Slot;

verus! {

#[derive(Debug, Clone, Copy, PartialEq, Eq, Structural)]
pub enum SyncPolicy {
    Never,
    EveryN(u32),
}

#[derive(Debug, Clone)]
pub struct HeapConfig {
    pub sync_policy: SyncPolicy,
    pub integrity: bool,
    pub initial_size: u64,
    pub growth: u64,
    pub min_extent: u64,
    pub region_slots: u64,
    pub pending_limit: usize,
}

impl Default for HeapConfig {
    fn default() -> (r: Self)
        ensures
            r.sync_policy == SyncPolicy::Never,
            r.integrity,
            r.initial_size == 64 * 1024 * 1024,
            r.growth == 64 * 1024 * 1024,
            r.min_extent == 1024 * 1024,
            r.region_slots == 4096,
            r.pending_limit == 8 * 1024 * 1024,
    {
        assert((64u64 << 20u64) == 64 * 1024 * 1024) by (bit_vector);
        assert((1u64 << 20u64) == 1024 * 1024) by (bit_vector);
        assert((8usize << 20usize) == 8 * 1024 * 1024) by (bit_vector);
        HeapConfig {
            sync_policy: SyncPolicy::Never,
            integrity: true,
            initial_size: 64 << 20,
            growth: 64 << 20,
            min_extent: 1 << 20,
            region_slots: 4096,
            pending_limit: 8 << 20,
        }
    }
}

#[derive(Debug, Default, Clone, Copy)]
pub struct HeapStats {
    pub data_file_bytes: u64,
    pub data_used_bytes: u64,
    pub index_file_bytes: u64,
    pub registry_file_bytes: u64,
}

/// The count of writes since the last commit, one write later: it wraps
/// around past `u32::MAX`.
pub open spec fn next_count(count: u32) -> u32 {
    if count == u32::MAX {
        0
    } else {
        (count + 1) as u32
    }
}

/// Whether a write that brings the count to `count`, with `pending` staged
/// bytes, commits: when the sync policy commits every `n` writes (`n > 0`)
/// and `n` divides the count, or when more than the limit is staged.
pub open spec fn commits_after(policy: SyncPolicy, count: u32, pending: int, limit: int) -> bool {
    (policy matches SyncPolicy::EveryN(n) && n > 0 && count % n == 0) || pending > limit
}

/// More than the limit staged is always committed, whatever the sync
/// policy; otherwise a write commits exactly when the policy commits every
/// `n` writes and the count is a multiple of `n`, so under `Never` only the
/// limit ever commits.
pub proof fn lemma_over_limit_commits(policy: SyncPolicy, count: u32, pending: int, limit: int)
    ensures
        pending > limit ==> commits_after(policy, count, pending, limit),
        pending <= limit ==> (commits_after(policy, count, pending, limit) <==> (
        policy matches SyncPolicy::EveryN(n) && n > 0 && count % n == 0)),
        policy is Never ==> (commits_after(policy, count, pending, limit) <==> pending > limit),
{
}

/// Counts a write and decides whether the staged writes are committed now
/// (`data_pending` and `index_pending` bytes are staged in the data and the
/// index file).
pub fn after_write(
    config: &HeapConfig,
    operations_since_sync: &mut u32,
    data_pending: usize,
    index_pending: usize,
) -> (commit: bool)
    ensures
        *final(operations_since_sync) == next_count(*old(operations_since_sync)),
        commit == commits_after(
            config.sync_policy,
            *final(operations_since_sync),
            data_pending + index_pending,
            config.pending_limit as int,
        ),
        *old(operations_since_sync) < u32::MAX ==> *final(operations_since_sync) == *old(
            operations_since_sync,
        ) + 1,
        *old(operations_since_sync) == u32::MAX ==> *final(operations_since_sync) == 0,
        data_pending + index_pending > config.pending_limit ==> commit,
        config.sync_policy matches SyncPolicy::EveryN(n) && n > 0 && *final(operations_since_sync)
            % n == 0 ==> commit,
        commit ==> (data_pending + index_pending > config.pending_limit || (
        config.sync_policy matches SyncPolicy::EveryN(n) && n > 0 && *final(operations_since_sync)
            % n == 0)),
        config.sync_policy is Never ==> (commit <==> data_pending + index_pending
            > config.pending_limit),
{
    proof {
        lemma_over_limit_commits(
            config.sync_policy,
            next_count(*old(operations_since_sync)),
            data_pending + index_pending,
            config.pending_limit as int,
        );
    }
    *operations_since_sync = operations_since_sync.wrapping_add(1);
    if let SyncPolicy::EveryN(sync_interval) = config.sync_policy {
        if sync_interval > 0 && *operations_since_sync % sync_interval == 0 {
            return true;
        }
    }
    data_pending > config.pending_limit || index_pending > config.pending_limit - data_pending
}

/// `k` is the first position of `slots` that holds no slot.
pub open spec fn first_missing(slots: Seq<Option<Slot>>, k: int) -> bool {
    &&& 0 <= k < slots.len()
    &&& slots[k] is None
    &&& forall|j: int| 0 <= j < k ==> (#[trigger] slots[j]) is Some
}

/// The reads of a batch: for every record number, the location that its
/// slot gives, as (offset, length, number). A number without a live slot
/// is not found; the first such number is reported.
pub fn batch_items(ids: &[u64], slots: &[Option<Slot>]) -> (r: Result<Vec<(u64, u64, u64)>, HeapError>)
    requires
        ids@.len() == slots@.len(),
    ensures
        (forall|k: int| 0 <= k < slots@.len() ==> (#[trigger] slots@[k]) is Some) <==> r is Ok,
        r matches Ok(items) ==> items@.len() == ids@.len() && forall|k: int|
            0 <= k < ids@.len() ==> #[trigger] items@[k] == (
                slots@[k]->0.offset,
                slots@[k]->0.total_len,
                ids@[k],
            ),
        forall|k: int|
            #[trigger] first_missing(slots@, k) ==> (r matches Err(e) && e matches HeapError::NotFound(
                id,
            ) && id == ids@[k]),
{
    let mut items: Vec<(u64, u64, u64)> = Vec::new();
    let mut k: usize = 0;
    while k < ids.len()
        invariant
            k <= ids@.len(),
            ids@.len() == slots@.len(),
            items@.len() == k,
            forall|j: int| 0 <= j < k ==> (#[trigger] slots@[j]) is Some,
            forall|j: int|
                0 <= j < k ==> #[trigger] items@[j] == (
                    slots@[j]->0.offset,
                    slots@[j]->0.total_len,
                    ids@[j],
                ),
        decreases ids@.len() - k,
    {
        match slots[k] {
            Some(slot) => {
                items.push((slot.offset, slot.total_len, ids[k]));
            },
            None => {
                proof {
                    assert(first_missing(slots@, k as int));
                    assert forall|f: int| #[trigger] first_missing(slots@, f) implies f == k by {
                        if f < k {
                            assert(slots@[f] is Some);
                        }
                        if f > k {
                            assert(slots@[k as int] is None);
                        }
                    }
                }
                return Err(HeapError::NotFound(ids[k]));
            },
        }
        k += 1;
    }
    Ok(items)
}

/// The count after `k` more writes.
pub open spec fn count_after(count: u32, k: nat) -> u32
    decreases k,
{
    if k == 0 {
        count
    } else {
        next_count(count_after(count, (k - 1) as nat))
    }
}

/// With a policy that commits every `n` writes, of any `n` writes in a
/// row at least one commits, whatever is staged: a crash loses at most the
/// `n - 1` writes since the last commit.
pub proof fn lemma_every_n_commits(n: u32, count: u32, pending: int, limit: int)
    requires
        n > 0,
    ensures
        exists|k: nat| 1 <= k <= n && #[trigger] commits_after(
            SyncPolicy::EveryN(n),
            count_after(count, k),
            pending,
            limit,
        ),
{
    let r = (count % n) as int;
    let k = (n - r) as nat;
    lemma_count_after(count, k);
    if count + k <= u32::MAX {
        assert((count + k) % (n as int) == 0) by (nonlinear_arith)
            requires
                r == count % n,
                k == n - r,
                n > 0,
        ;
        assert(commits_after(SyncPolicy::EveryN(n), count_after(count, k), pending, limit));
    } else {
        let z = (u32::MAX - count + 1) as nat;
        assert(1 <= z <= k);
        lemma_count_after(count, z);
        assert(count_after(count, z) == 0);
        assert(commits_after(SyncPolicy::EveryN(n), count_after(count, z), pending, limit));
    }
}

proof fn lemma_count_after(count: u32, k: nat)
    ensures
        count_after(count, k) == (count + k) % 0x1_0000_0000,
    decreases k,
{
    if k > 0 {
        lemma_count_after(count, (k - 1) as nat);
    }
}

/// How opening a heap starts.
#[derive(Debug, Clone, Copy, PartialEq, Eq, Structural)]
pub enum OpenStart {
    /// No data file yet: create all the files.
    Create,
    /// Open the files as they are.
    Open,
    /// The index, or the registry of a bucket layout, is missing or does not
    /// open: rebuild them from the data file, then open.
    RebuildThenOpen,
}

/// How opening starts, given whether the data file exists and whether the
/// index and (for a bucket layout) the registry open.
pub fn open_start(data_exists: bool, index_opens: bool, registry_opens: bool, with_bucket: bool) -> (r:
    OpenStart)
    ensures
        r == if !data_exists {
            OpenStart::Create
        } else if !index_opens || (with_bucket && !registry_opens) {
            OpenStart::RebuildThenOpen
        } else {
            OpenStart::Open
        },
{
    if !data_exists {
        OpenStart::Create
    } else if !index_opens || (with_bucket && !registry_opens) {
        OpenStart::RebuildThenOpen
    } else {
        OpenStart::Open
    }
}

/// Whether recovering placement from existing files, having failed with
/// `error`, is retried after a rebuild: only damage is, only for files that
/// were not just created, and only once.
pub fn rebuild_after_failure(error: &HeapError, created: bool, rebuilt: bool) -> (r: bool)
    ensures
        r == (error is Corrupt && !created && !rebuilt),
{
    match error {
        HeapError::Corrupt { .. } => !created && !rebuilt,
        _ => false,
    }
}

} // verus!
