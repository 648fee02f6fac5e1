//! The bookkeeping of a batch of positioned reads or writes run through a
//! submission ring: requests are cut into segments, at most `depth`
//! segments are in flight at a time, a short transfer is continued, a read
//! that meets the end of the file fills the rest with zeros, and the first
//! failure ends the batch.

use vstd::prelude::*;
use vstd::arithmetic::power2::{
    pow2, lemma2_to64, lemma_pow2_pos, lemma_pow2_strictly_increases, lemma_pow2_unfold,
};
use crate::io::IoCounters;

verus! {

/// A part of a request: `len` bytes at `offset` of the file, of which the
/// first `done` are transferred.
#[derive(Debug, Clone, Copy)]
pub struct Segment {
    pub offset: u64,
    pub len: usize,
    pub done: usize,
    pub in_flight: bool,
    pub settled: bool,
}

/// Why a batch failed: the error number that a transfer returned, or a
/// write that transferred nothing.
#[derive(Debug, Clone, Copy, PartialEq, Eq, Structural)]
pub enum RingFailure {
    Os(i32),
    WriteZero,
}

/// A transfer to hand to the ring: segment `index`, from byte `pos` of the
/// segment on, `len` bytes at `offset` of the file.
#[derive(Debug, Clone, Copy, PartialEq, Eq, Structural)]
pub struct Submission {
    pub index: usize,
    pub offset: u64,
    pub pos: usize,
    pub len: usize,
}

/// What a completion asks for.
#[derive(Debug, Clone, Copy, PartialEq, Eq, Structural)]
pub enum Completed {
    /// Nothing more to do for the segment.
    Settled,
    /// Fill bytes `pos..pos + len` of segment `index` with zeros: the read
    /// met the end of the file.
    ZeroFill { index: usize, pos: usize, len: usize },
    /// Hand this transfer to the ring: the rest of a short transfer.
    Resubmit(Submission),
}

/// The number of segments in flight.
pub open spec fn in_flight_count(segments: Seq<Segment>) -> nat
    decreases segments.len(),
{
    if segments.len() == 0 {
        0
    } else {
        in_flight_count(segments.drop_last()) + if segments.last().in_flight {
            1nat
        } else {
            0nat
        }
    }
}

proof fn lemma_in_flight_update(segments: Seq<Segment>, i: int, s: Segment)
    requires
        0 <= i < segments.len(),
    ensures
        in_flight_count(segments.update(i, s)) + (if segments[i].in_flight {
            1int
        } else {
            0int
        }) == in_flight_count(segments) + (if s.in_flight {
            1int
        } else {
            0int
        }),
    decreases segments.len(),
{
    if i < segments.len() - 1 {
        lemma_in_flight_update(segments.drop_last(), i, s);
        assert(segments.update(i, s).drop_last() =~= segments.drop_last().update(i, s));
    } else {
        assert(segments.update(i, s).drop_last() =~= segments.drop_last());
    }
}

proof fn lemma_in_flight_zero(segments: Seq<Segment>)
    requires
        in_flight_count(segments) == 0,
    ensures
        forall|i: int| 0 <= i < segments.len() ==> !(#[trigger] segments[i]).in_flight,
    decreases segments.len(),
{
    if segments.len() > 0 {
        lemma_in_flight_zero(segments.drop_last());
        assert forall|i: int| 0 <= i < segments.len() implies !(#[trigger] segments[i]).in_flight by {
            if i < segments.len() - 1 {
                assert(segments.drop_last()[i] == segments[i]);
            }
        }
    }
}

proof fn lemma_in_flight_bound(segments: Seq<Segment>)
    ensures
        in_flight_count(segments) <= segments.len(),
    decreases segments.len(),
{
    if segments.len() > 0 {
        lemma_in_flight_bound(segments.drop_last());
    }
}

/// A batch of transfers in one direction.
pub struct RingRun {
    pub segments: Vec<Segment>,
    /// The next segment to hand out for the first time.
    pub next: usize,
    pub pending: usize,
    pub depth: usize,
    pub is_read: bool,
    pub error: Option<RingFailure>,
    pub counters: IoCounters,
}

/// The counter moved by `n`, wrapping around past `u64::MAX`.
pub open spec fn bump(c: u64, n: u64) -> u64 {
    ((c + n) % 0x1_0000_0000_0000_0000) as u64
}

impl RingRun {
    pub open spec fn wf(&self) -> bool {
        &&& self.next <= self.segments@.len()
        &&& self.pending == in_flight_count(self.segments@)
        &&& 1 <= self.depth
        &&& self.pending <= self.depth
        &&& forall|i: int|
            0 <= i < self.segments@.len() ==> {
                let s = #[trigger] self.segments@[i];
                &&& s.done <= s.len
                &&& s.offset + s.len <= u64::MAX
                &&& (s.in_flight || s.settled) ==> i < self.next
                &&& i >= self.next ==> s.done == 0
                &&& s.settled ==> s.done == s.len
                &&& !(s.in_flight && s.settled)
            }
        &&& self.error is None ==> forall|i: int|
            0 <= i < self.next ==> (#[trigger] self.segments@[i]).in_flight || self.segments@[i].settled
    }

    /// Every transfer is over: all segments were handed out and none is in flight.
    pub open spec fn over(&self) -> bool {
        self.next == self.segments@.len() && self.pending == 0
    }

    /// A batch over `segments` (none started) with at most `depth` in flight.
    pub fn new(segments: Vec<Segment>, depth: usize, is_read: bool, counters: IoCounters) -> (r: Self)
        requires
            depth >= 1,
            forall|i: int|
                0 <= i < segments@.len() ==> {
                    let s = #[trigger] segments@[i];
                    s.done == 0 && !s.in_flight && !s.settled && s.offset + s.len <= u64::MAX
                },
        ensures
            r.wf(),
            r.segments@ == segments@,
            r.next == 0 && r.pending == 0 && r.error is None,
            r.depth == depth && r.is_read == is_read && r.counters == counters,
    {
        let r = RingRun { segments, next: 0, pending: 0, depth, is_read, error: None, counters };
        proof {
            assert(in_flight_count(r.segments@) == 0) by {
                lemma_none_in_flight(r.segments@);
            }
        }
        r
    }

    /// The next transfer to hand to the ring: the next segment not yet
    /// started, while fewer than `depth` are in flight and nothing failed.
    pub fn next_submission(&mut self) -> (r: Option<Submission>)
        requires
            old(self).wf(),
        ensures
            final(self).wf(),
            final(self).depth == old(self).depth,
            final(self).is_read == old(self).is_read,
            final(self).error == old(self).error,
            final(self).counters == old(self).counters,
            final(self).segments@.len() == old(self).segments@.len(),
            (old(self).pending < old(self).depth && old(self).next < old(self).segments@.len()
                && old(self).error is None) <==> r is Some,
            r matches Some(sub) ==> {
                let s = old(self).segments@[old(self).next as int];
                &&& sub == Submission { index: old(self).next, offset: s.offset, pos: 0, len: s.len }
                &&& final(self).next == old(self).next + 1
                &&& final(self).pending == old(self).pending + 1
                &&& final(self).segments@ == old(self).segments@.update(
                    old(self).next as int,
                    Segment { in_flight: true, ..s },
                )
            },
            r is None ==> *final(self) == *old(self),
    {
        if self.pending < self.depth && self.next < self.segments.len() && self.error.is_none() {
            let index = self.next;
            let s = self.segments[index];
            proof {
                assert(!s.in_flight && !s.settled && s.done == 0);
                lemma_in_flight_update(self.segments@, index as int, Segment { in_flight: true, ..s });
                lemma_in_flight_bound(self.segments@);
            }
            self.segments.set(index, Segment { in_flight: true, ..s });
            self.next = index + 1;
            self.pending = self.pending + 1;
            return Some(Submission { index, offset: s.offset, pos: 0, len: s.len });
        }
        None
    }
}

proof fn lemma_none_in_flight(segments: Seq<Segment>)
    requires
        forall|i: int| 0 <= i < segments.len() ==> !(#[trigger] segments[i]).in_flight,
    ensures
        in_flight_count(segments) == 0,
    decreases segments.len(),
{
    if segments.len() > 0 {
        lemma_none_in_flight(segments.drop_last());
    }
}

impl RingRun {
    /// Takes in the completion of a transfer of segment `index` that
    /// returned `result` (bytes moved, or a negated error number). A failure
    /// is kept (the first one only) and the segment dropped. Otherwise the
    /// bytes count; a segment whose rest is moved, or any segment once the
    /// batch has failed, is done with; a read that moved nothing met the end
    /// of the file and its rest is filled with zeros; a write that moved
    /// nothing fails the batch; the rest of a short transfer is handed out
    /// again.
    pub fn complete(&mut self, index: usize, result: i32) -> (r: Completed)
        requires
            old(self).wf(),
            index < old(self).segments@.len(),
            old(self).segments@[index as int].in_flight,
        ensures
            final(self).wf(),
            final(self).next == old(self).next,
            final(self).depth == old(self).depth,
            final(self).is_read == old(self).is_read,
            final(self).segments@.len() == old(self).segments@.len(),
            forall|i: int|
                0 <= i < old(self).segments@.len() && i != index ==> #[trigger] final(self).segments@[i]
                    == old(self).segments@[i],
            ({
                let s = old(self).segments@[index as int];
                let rest = s.len - s.done;
                let f = final(self).segments@[index as int];
                if result < 0 {
                    &&& r == Completed::Settled
                    &&& final(self).error == if old(self).error is None {
                        Some(RingFailure::Os(vstd::wrapping::i32_specs::wrapping_sub(0, result)))
                    } else {
                        old(self).error
                    }
                    &&& f == Segment { in_flight: false, ..s }
                    &&& final(self).pending == old(self).pending - 1
                    &&& final(self).counters == old(self).counters
                } else {
                    &&& final(self).counters == if old(self).is_read {
                        IoCounters {
                            reads: bump(old(self).counters.reads, 1),
                            read_bytes: bump(old(self).counters.read_bytes, result as u64),
                            ..old(self).counters
                        }
                    } else {
                        IoCounters {
                            writes: bump(old(self).counters.writes, 1),
                            write_bytes: bump(old(self).counters.write_bytes, result as u64),
                            ..old(self).counters
                        }
                    }
                    &&& if result >= rest {
                        &&& r == Completed::Settled
                        &&& f == Segment { in_flight: false, settled: true, done: s.len, ..s }
                        &&& final(self).error == old(self).error
                        &&& final(self).pending == old(self).pending - 1
                    } else if old(self).error is Some {
                        &&& r == Completed::Settled
                        &&& f == Segment { in_flight: false, ..s }
                        &&& final(self).error == old(self).error
                        &&& final(self).pending == old(self).pending - 1
                    } else if result == 0 && old(self).is_read {
                        &&& r == Completed::ZeroFill { index, pos: s.done, len: rest as usize }
                        &&& f == Segment { in_flight: false, settled: true, done: s.len, ..s }
                        &&& final(self).error == old(self).error
                        &&& final(self).pending == old(self).pending - 1
                    } else if result == 0 {
                        &&& r == Completed::Settled
                        &&& f == Segment { in_flight: false, ..s }
                        &&& final(self).error == Some(RingFailure::WriteZero)
                        &&& final(self).pending == old(self).pending - 1
                    } else {
                        &&& r == Completed::Resubmit(
                            Submission {
                                index,
                                offset: (s.offset + s.done + result) as u64,
                                pos: (s.done + result) as usize,
                                len: (rest - result) as usize,
                            },
                        )
                        &&& f == Segment { done: (s.done + result) as usize, ..s }
                        &&& final(self).error == old(self).error
                        &&& final(self).pending == old(self).pending
                    }
                }
            }),
    {
        let s = self.segments[index];
        if result < 0 {
            if self.error.is_none() {
                self.error = Some(RingFailure::Os(0i32.wrapping_sub(result)));
            }
            self.drop_flight(index, Segment { in_flight: false, ..s });
            return Completed::Settled;
        }
        let moved = result as usize;
        if self.is_read {
            self.counters.reads = self.counters.reads.wrapping_add(1);
            self.counters.read_bytes = self.counters.read_bytes.wrapping_add(moved as u64);
        } else {
            self.counters.writes = self.counters.writes.wrapping_add(1);
            self.counters.write_bytes = self.counters.write_bytes.wrapping_add(moved as u64);
        }
        let rest = s.len - s.done;
        if moved >= rest {
            self.drop_flight(index, Segment { in_flight: false, settled: true, done: s.len, ..s });
            return Completed::Settled;
        }
        if self.error.is_some() {
            self.drop_flight(index, Segment { in_flight: false, ..s });
            return Completed::Settled;
        }
        if moved == 0 {
            if self.is_read {
                self.drop_flight(index, Segment { in_flight: false, settled: true, done: s.len, ..s });
                return Completed::ZeroFill { index, pos: s.done, len: rest };
            }
            self.error = Some(RingFailure::WriteZero);
            self.drop_flight(index, Segment { in_flight: false, ..s });
            return Completed::Settled;
        }
        let done = s.done + moved;
        proof {
            lemma_in_flight_update(self.segments@, index as int, Segment { done, ..s });
        }
        self.segments.set(index, Segment { done, ..s });
        Completed::Resubmit(Submission { index, offset: s.offset + done as u64, pos: done, len: s.len - done })
    }

    /// Replaces segment `index`, in flight, by `seg`, which is not.
    fn drop_flight(&mut self, index: usize, seg: Segment)
        requires
            index < old(self).segments@.len(),
            old(self).segments@[index as int].in_flight,
            !seg.in_flight,
            old(self).pending == in_flight_count(old(self).segments@),
        ensures
            final(self).segments@ == old(self).segments@.update(index as int, seg),
            final(self).pending == old(self).pending - 1,
            final(self).pending == in_flight_count(final(self).segments@),
            final(self).next == old(self).next,
            final(self).depth == old(self).depth,
            final(self).is_read == old(self).is_read,
            final(self).error == old(self).error,
            final(self).counters == old(self).counters,
    {
        proof {
            lemma_in_flight_update(self.segments@, index as int, seg);
        }
        self.segments.set(index, seg);
        self.pending = self.pending - 1;
    }

    /// The outcome of a batch whose transfers are over: the failure that
    /// ended it, if any.
    pub fn outcome(&self) -> (r: Result<(), RingFailure>)
        ensures
            r is Ok <==> self.error is None,
            r matches Err(e) ==> self.error == Some(e),
    {
        match self.error {
            Some(e) => Err(e),
            None => Ok(()),
        }
    }
}

/// A batch whose transfers are over without a failure moved every byte of
/// every segment (a read past the end of the file counting as filled with
/// zeros).
pub proof fn lemma_clean_run_is_complete(run: RingRun)
    requires
        run.wf(),
        run.over(),
        run.error is None,
    ensures
        forall|i: int|
            0 <= i < run.segments@.len() ==> (#[trigger] run.segments@[i]).settled
                && run.segments@[i].done == run.segments@[i].len,
{
    lemma_in_flight_zero(run.segments@);
    assert forall|i: int| 0 <= i < run.segments@.len() implies (#[trigger] run.segments@[i]).settled by {
        assert(run.segments@[i].in_flight || run.segments@[i].settled);
    }
}

/// Cuts a request of `length` bytes at `offset` into segments of at most
/// `chunk` bytes, in order, and appends them to `segments`.
pub fn split(chunk: usize, offset: u64, length: usize, segments: &mut Vec<Segment>)
    requires
        chunk > 0,
        offset + length <= u64::MAX,
    ensures
        final(segments)@.len() >= old(segments)@.len(),
        final(segments)@.take(old(segments)@.len() as int) == old(segments)@,
        forall|k: int|
            old(segments)@.len() <= k < final(segments)@.len() ==> {
                let s = #[trigger] final(segments)@[k];
                let j = k - old(segments)@.len();
                &&& s.offset == offset + j * chunk
                &&& s.len == if length - j * chunk < chunk {
                    length - j * chunk
                } else {
                    chunk as int
                }
                &&& s.len > 0
                &&& s.done == 0 && !s.in_flight && !s.settled
            },
        (final(segments)@.len() - old(segments)@.len()) * chunk >= length,
        (final(segments)@.len() - old(segments)@.len()) * chunk < length + chunk,
{
    let ghost first = segments@.len();
    let mut done: usize = 0;
    let mut count: usize = 0;
    while done < length
        invariant
            chunk > 0,
            offset + length <= u64::MAX,
            done <= length,
            count <= done,
            segments@.len() == first + count,
            segments@.take(first as int) == old(segments)@,
            done == length || done == count * chunk,
            done <= count * chunk,
            forall|k: int|
                first <= k < segments@.len() ==> {
                    let s = #[trigger] segments@[k];
                    let j = k - first;
                    &&& s.offset == offset + j * chunk
                    &&& s.len == if length - j * chunk < chunk {
                        length - j * chunk
                    } else {
                        chunk as int
                    }
                    &&& s.len > 0
                    &&& s.done == 0 && !s.in_flight && !s.settled
                },
            count > 0 ==> (count - 1) * chunk < length,
        decreases length - done,
    {
        let segment_length = if length - done < chunk {
            length - done
        } else {
            chunk
        };
        let ghost pre = segments@;
        segments.push(
            Segment {
                offset: offset + done as u64,
                len: segment_length,
                done: 0,
                in_flight: false,
                settled: false,
            },
        );
        proof {
            assert(segments@.take(first as int) =~= pre.take(first as int));
            assert((count + 1) * chunk == count * chunk + chunk) by (nonlinear_arith);
        }
        done = done + segment_length;
        count = count + 1;
    }
    proof {
        if count > 0 {
            assert((count - 1) * chunk + chunk == count * chunk) by (nonlinear_arith)
                requires
                    count > 0,
            ;
        }
    }
}

/// The shape of a ring for at most `depth` transfers in flight and
/// segments of at most `chunk` bytes: at least one transfer in flight, and
/// a ring whose number of entries is the least power of two that holds
/// them. Segments of zero bytes are refused.
pub fn ring_shape(depth: u32, chunk: usize) -> (r: Option<(u32, usize)>)
    requires
        depth <= 0x8000_0000,
    ensures
        r is None <==> chunk == 0,
        r matches Some((entries, d)) ==> {
            &&& d == if depth == 0 {
                1
            } else {
                depth
            }
            &&& exists|k: nat| entries == pow2(k)
            &&& entries >= d
            &&& entries == 1 || entries / 2 < d
        },
{
    if chunk == 0 {
        return None;
    }
    let d: u32 = if depth == 0 {
        1
    } else {
        depth
    };
    let mut entries: u32 = 1;
    let ghost mut k: nat = 0;
    proof {
        lemma2_to64();
    }
    while entries < d
        invariant
            1 <= d <= 0x8000_0000,
            entries == pow2(k),
            entries == 1 || entries / 2 < d,
            entries <= 0x8000_0000,
        decreases 2 * (d as int) - entries,
    {
        proof {
            lemma_pow2_unfold(k + 1);
            lemma_pow2_pos(k);
            if k >= 31 {
                if k > 31 {
                    lemma_pow2_strictly_increases(31, k);
                }
                assert(pow2(31) == 0x8000_0000) by {
                    lemma2_to64();
                }
            }
            if k < 31 {
                if k < 30 {
                    lemma_pow2_strictly_increases(k, 30);
                }
                assert(pow2(30) == 0x4000_0000) by {
                    lemma2_to64();
                }
            }
        }
        entries = entries * 2;
        proof {
            k = k + 1;
        }
    }
    Some((entries, d as usize))
}

} // verus!
