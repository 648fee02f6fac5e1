//! Counters of the block I/O that a heap performs, and the plain blocking
//! I/O engine's state.

use vstd::prelude::*;

verus! {

/// Requests and bytes moved, and syncs, since the counters were reset.
#[derive(Debug, Default, Clone, Copy)]
pub struct IoCounters {
    pub reads: u64,
    pub writes: u64,
    pub read_bytes: u64,
    pub write_bytes: u64,
    pub syncs: u64,
}

/// Blocking positioned reads and writes, one request at a time.
#[derive(Debug, Default)]
pub struct SyncIo {
    pub counters: IoCounters,
}

impl SyncIo {
    /// An engine whose counters are all zero.
    pub fn new() -> (r: Self)
        ensures
            r.counters == (IoCounters { reads: 0, writes: 0, read_bytes: 0, write_bytes: 0, syncs: 0 }),
    {
        SyncIo { counters: IoCounters { reads: 0, writes: 0, read_bytes: 0, write_bytes: 0, syncs: 0 } }
    }
}

} // verus!
