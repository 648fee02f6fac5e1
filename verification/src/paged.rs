//! Staging of writes to a file of pages. Writes are gathered in memory as
//! runs of page-aligned bytes and written out together; the part of a page
//! before a write's start and after its end keeps the bytes the file has
//! there, taken from the last page of an earlier write when that is still
//! known, else read from the file.

use vstd::prelude::*;
use std::collections::HashMap;
use crate::format::{
    page_down, page_up, spec_page_down, spec_page_up, lemma_page_down_below, lemma_page_up_bounds,
    header_len, stored_header,
};
use crate::data::{
    checksum_ok, header_at, header_for, identity_ok, lemma_frame_then_parse, payload_at,
    record_image, DataFile,
};
use crate::format::lemma_record_header_len;

verus! {

broadcast use vstd::std_specs::hash::group_hash_axioms, vstd::slice::group_slice_axioms;

/// At most this many runs are staged at once.
pub const MAX_STAGED_WRITES: usize = 64;

/// A run of bytes staged for the file: `buffer` is written at the start of
/// the page that holds `start`; it begins with the bytes of that page
/// before `start` (`head`, the whole page, when `start` is not at a page
/// boundary).
pub struct StagedWrite {
    pub start: u64,
    pub buffer: Vec<u8>,
    pub head: Option<Vec<u8>>,
}

/// Where a staged run is written: the page of its start.
pub open spec fn run_base(w: StagedWrite) -> int {
    spec_page_down(w.start as int)
}

/// Where a staged run ends.
pub open spec fn run_end(w: StagedWrite) -> int {
    run_base(w) + w.buffer@.len()
}

/// The first page boundary at or after a run's end.
pub open spec fn run_top(w: StagedWrite) -> int {
    spec_page_up(run_end(w))
}

/// The page ranges `[b1, t1)` and `[b2, t2)` share no byte.
pub open spec fn apart(b1: int, t1: int, b2: int, t2: int) -> bool {
    t1 <= b2 || t2 <= b1
}

impl StagedWrite {
    pub open spec fn wf(&self) -> bool {
        &&& run_end(*self) + 8192 <= u64::MAX
        &&& self.buffer@.len() >= self.start - run_base(*self)
        &&& self.head is Some <==> self.start % 4096 != 0
        &&& self.head matches Some(h) ==> h@.len() == 4096
    }

    pub fn base(&self) -> (r: u64)
        ensures
            r == run_base(*self),
    {
        page_down(self.start)
    }

    pub fn end(&self) -> (r: u64)
        requires
            self.wf(),
        ensures
            r == run_end(*self),
    {
        self.base() + self.buffer.len() as u64
    }
}

/// What a paged file keeps in memory: the last page of the runs written
/// out when it was only partly written (`tail_pages`, by page offset), the
/// staged runs, the count of bytes staged, and how far the file is
/// allocated.
pub struct PagedFile {
    pub tail_pages: HashMap<u64, Vec<u8>>,
    pub staged_writes: Vec<StagedWrite>,
    pub pending_bytes: usize,
    pub allocated_end: u64,
}

/// What staging asks for next.
#[derive(Debug, Clone, Copy, PartialEq, Eq, Structural)]
pub enum StageStep {
    /// The bytes are staged.
    Staged,
    /// Write out the staged runs first, then stage again.
    FlushFirst,
    /// Read the page at this offset of the file and stage again with it.
    NeedPage(u64),
}

/// Run `w` is the first of `ws` that ends at `off`.
pub open spec fn first_ending_at(ws: Seq<StagedWrite>, off: int, w: int) -> bool {
    &&& 0 <= w < ws.len()
    &&& run_end(ws[w]) == off
    &&& forall|v: int| 0 <= v < w ==> run_end(#[trigger] ws[v]) != off
}

/// Run `w` can grow up to `top` without touching a page of another run.
pub open spec fn grows_apart(ws: Seq<StagedWrite>, w: int, top: int) -> bool {
    forall|v: int|
        0 <= v < ws.len() && v != w ==> apart(run_base(ws[w]), top, run_base(#[trigger] ws[v]), run_top(ws[v]))
}

/// The pages `[lo, hi)` touch no page of a staged run.
pub open spec fn clear_of(ws: Seq<StagedWrite>, lo: int, hi: int) -> bool {
    forall|v: int| 0 <= v < ws.len() ==> apart(lo, hi, run_base(#[trigger] ws[v]), run_top(ws[v]))
}

impl PagedFile {
    pub open spec fn wf(&self) -> bool {
        &&& forall|v: int| 0 <= v < self.staged_writes@.len() ==> (#[trigger] self.staged_writes@[v]).wf()
        &&& forall|v: int, u: int|
            0 <= v < self.staged_writes@.len() && 0 <= u < self.staged_writes@.len() && v != u
                ==> apart(
                run_base(#[trigger] self.staged_writes@[v]),
                run_top(self.staged_writes@[v]),
                run_base(#[trigger] self.staged_writes@[u]),
                run_top(self.staged_writes@[u]),
            )
        &&& forall|p: u64| #[trigger]
            self.tail_pages@.contains_key(p) ==> p % 4096 == 0 && self.tail_pages@[p]@.len() == 4096
    }

    /// A file with nothing staged or remembered, allocated up to `allocated_end`.
    pub fn new(allocated_end: u64) -> (r: Self)
        ensures
            r.wf(),
            r.tail_pages@ == Map::<u64, Vec<u8>>::empty(),
            r.staged_writes@ == Seq::<StagedWrite>::empty(),
            r.pending_bytes == 0,
            r.allocated_end == allocated_end,
    {
        let r = PagedFile {
            tail_pages: HashMap::new(),
            staged_writes: Vec::new(),
            pending_bytes: 0,
            allocated_end,
        };
        assert(r.tail_pages@ =~= Map::empty());
        r
    }

    /// Whether runs are staged.
    pub fn has_pending(&self) -> (r: bool)
        ensures
            r == (self.staged_writes@.len() > 0),
    {
        self.staged_writes.len() > 0
    }

    /// The bytes staged since the last write-out.
    pub fn pending_bytes(&self) -> (r: usize)
        ensures
            r == self.pending_bytes,
    {
        self.pending_bytes
    }

    /// Takes in that the file is allocated up to `upto`.
    pub fn note_alloc(&mut self, upto: u64)
        ensures
            final(self).allocated_end == if upto > old(self).allocated_end {
                upto
            } else {
                old(self).allocated_end
            },
            final(self).tail_pages == old(self).tail_pages,
            final(self).staged_writes == old(self).staged_writes,
            final(self).pending_bytes == old(self).pending_bytes,
    {
        if upto > self.allocated_end {
            self.allocated_end = upto;
        }
    }

    /// The first staged run that ends at `off`.
    fn run_ending_at(&self, off: u64) -> (r: Option<usize>)
        requires
            self.wf(),
        ensures
            r matches Some(w) ==> first_ending_at(self.staged_writes@, off as int, w as int),
            r is None ==> forall|v: int|
                0 <= v < self.staged_writes@.len() ==> run_end(#[trigger] self.staged_writes@[v]) != off,
    {
        let mut v: usize = 0;
        while v < self.staged_writes.len()
            invariant
                self.wf(),
                v <= self.staged_writes@.len(),
                forall|u: int| 0 <= u < v ==> run_end(#[trigger] self.staged_writes@[u]) != off,
            decreases self.staged_writes@.len() - v,
        {
            assert(self.staged_writes@[v as int].wf());
            if self.staged_writes[v].end() == off {
                return Some(v);
            }
            v += 1;
        }
        None
    }

    /// Whether run `w` can grow up to `top` without touching another run.
    fn can_grow(&self, w: usize, top: u64) -> (r: bool)
        requires
            self.wf(),
            w < self.staged_writes@.len(),
        ensures
            r == grows_apart(self.staged_writes@, w as int, top as int),
    {
        let base = self.staged_writes[w].base();
        let mut v: usize = 0;
        while v < self.staged_writes.len()
            invariant
                self.wf(),
                w < self.staged_writes@.len(),
                base == run_base(self.staged_writes@[w as int]),
                v <= self.staged_writes@.len(),
                forall|u: int|
                    0 <= u < v && u != w ==> apart(
                        base as int,
                        top as int,
                        run_base(#[trigger] self.staged_writes@[u]),
                        run_top(self.staged_writes@[u]),
                    ),
            decreases self.staged_writes@.len() - v,
        {
            if v != w {
                let other = &self.staged_writes[v];
                assert(other.wf());
                let other_top = page_up(other.end());
                if other.base() < top && base < other_top {
                    return false;
                }
            }
            v += 1;
        }
        true
    }

    /// Whether the pages `[lo, hi)` touch no staged run.
    fn is_clear(&self, lo: u64, hi: u64) -> (r: bool)
        requires
            self.wf(),
        ensures
            r == clear_of(self.staged_writes@, lo as int, hi as int),
    {
        let mut v: usize = 0;
        while v < self.staged_writes.len()
            invariant
                self.wf(),
                v <= self.staged_writes@.len(),
                forall|u: int|
                    0 <= u < v ==> apart(
                        lo as int,
                        hi as int,
                        run_base(#[trigger] self.staged_writes@[u]),
                        run_top(self.staged_writes@[u]),
                    ),
            decreases self.staged_writes@.len() - v,
        {
            let other = &self.staged_writes[v];
            assert(other.wf());
            let other_top = page_up(other.end());
            if other.base() < hi && lo < other_top {
                return false;
            }
            v += 1;
        }
        true
    }
}

/// Byte `b` is staged for offset `a` of the file: a run holds it there,
/// past the head that the run copied from the file.
pub open spec fn staged_byte(ws: Seq<StagedWrite>, a: int, b: u8) -> bool {
    exists|k: int, pos: int|
        0 <= k < ws.len() && ws[k].start - run_base(ws[k]) <= pos < ws[k].buffer@.len() && run_base(ws[k])
            + pos == a && #[trigger] ws[k].buffer@[pos] == b
}

/// The bytes of the page at `hp` that a new run takes its head from: the
/// remembered last page of an earlier run, else the page read from the file.
pub open spec fn head_source(tail: Map<u64, Vec<u8>>, hp: u64, head_page: Option<&[u8]>) -> Seq<u8> {
    if tail.contains_key(hp) {
        tail[hp]@
    } else {
        head_page->0@
    }
}

impl PagedFile {
    /// Stages `data` for offset `off` of the file. It joins the first
    /// staged run that ends at `off` when that run can grow over the new
    /// bytes without touching the pages of another run. Otherwise a new run
    /// starts at `off`: that needs a free slot among the runs and pages that
    /// no run touches, else the runs are written out first (`FlushFirst`);
    /// and when `off` is not at a page boundary, the bytes of its page
    /// before `off`, which come from the remembered last page of an earlier
    /// run or from the page read from the file (`head_page`; `NeedPage`
    /// asks for it).
    pub fn stage(&mut self, off: u64, data: &[u8], head_page: Option<&[u8]>) -> (step: StageStep)
        requires
            old(self).wf(),
            off + data@.len() + 8192 <= u64::MAX,
            old(self).pending_bytes + data@.len() <= usize::MAX,
            head_page matches Some(p) ==> p@.len() == 4096,
        ensures
            final(self).wf(),
            final(self).allocated_end == old(self).allocated_end,
            final(self).tail_pages@ == old(self).tail_pages@,
            forall|a: int, b: u8|
                #[trigger] staged_byte(old(self).staged_writes@, a, b) ==> staged_byte(
                    final(self).staged_writes@,
                    a,
                    b,
                ),
            step == StageStep::Staged ==> forall|i: int|
                0 <= i < data@.len() ==> staged_byte(final(self).staged_writes@, off + i, #[trigger] data@[i]),
            ({
                let ws = old(self).staged_writes@;
                let top = spec_page_up(off + data@.len());
                let hp = spec_page_down(off as int);
                let pad = off - hp;
                if exists|w: int| first_ending_at(ws, off as int, w) && grows_apart(ws, w, top) {
                    let w = choose|w: int| first_ending_at(ws, off as int, w) && grows_apart(ws, w, top);
                    &&& step == StageStep::Staged
                    &&& final(self).staged_writes@.len() == ws.len()
                    &&& final(self).staged_writes@[w].start == ws[w].start
                    &&& final(self).staged_writes@[w].head == ws[w].head
                    &&& final(self).staged_writes@[w].buffer@ == ws[w].buffer@ + data@
                    &&& forall|v: int| 0 <= v < ws.len() && v != w ==> #[trigger] final(self).staged_writes@[v] == ws[v]
                    &&& final(self).pending_bytes == old(self).pending_bytes + data@.len()
                } else if ws.len() >= 64 || !clear_of(ws, hp, top) {
                    &&& step == StageStep::FlushFirst
                    &&& final(self).staged_writes == old(self).staged_writes
                    &&& final(self).pending_bytes == old(self).pending_bytes
                } else if pad > 0 && !old(self).tail_pages@.contains_key(hp as u64) && head_page is None {
                    &&& step == StageStep::NeedPage(hp as u64)
                    &&& final(self).staged_writes == old(self).staged_writes
                    &&& final(self).pending_bytes == old(self).pending_bytes
                } else {
                    let src = head_source(old(self).tail_pages@, hp as u64, head_page);
                    let nw = final(self).staged_writes@.last();
                    &&& step == StageStep::Staged
                    &&& final(self).staged_writes@.len() == ws.len() + 1
                    &&& final(self).staged_writes@.drop_last() == ws
                    &&& nw.start == off
                    &&& nw.buffer@ == (if pad > 0 {
                        src.take(pad)
                    } else {
                        Seq::empty()
                    }) + data@
                    &&& (pad > 0 ==> (nw.head matches Some(h) && h@ == src))
                    &&& final(self).pending_bytes == old(self).pending_bytes + data@.len()
                }
            }),
    {
        let len = data.len() as u64;
        proof {
            lemma_page_up_bounds(off + len);
            lemma_page_up_bounds(off as int);
        }
        let top = page_up(off + len);
        let ghost ws = self.staged_writes@;
        match self.run_ending_at(off) {
            Some(w) => {
                if self.can_grow(w, top) {
                    self.staged_writes[w].buffer.extend_from_slice(data);
                    self.pending_bytes = self.pending_bytes + data.len();
                    proof {
                        let c = choose|c: int| first_ending_at(ws, off as int, c) && grows_apart(ws, c, top as int);
                        if c != w {
                            if c < w {
                                assert(run_end(ws[c]) != off);
                            } else {
                                assert(run_end(ws[w as int]) != off);
                            }
                        }
                        assert(self.staged_writes@[w as int].buffer@ =~= ws[w as int].buffer@ + data@);
                        let nw = self.staged_writes@[w as int];
                        assert(run_base(nw) == run_base(ws[w as int]));
                        assert(run_end(nw) == off + len);
                        assert forall|v: int, u: int|
                            0 <= v < self.staged_writes@.len() && 0 <= u < self.staged_writes@.len() && v != u
                                implies apart(
                                run_base(#[trigger] self.staged_writes@[v]),
                                run_top(self.staged_writes@[v]),
                                run_base(#[trigger] self.staged_writes@[u]),
                                run_top(self.staged_writes@[u]),
                            ) by {
                            if v == w {
                                assert(apart(run_base(ws[w as int]), top as int, run_base(ws[u]), run_top(ws[u])));
                            } else if u == w {
                                assert(apart(run_base(ws[w as int]), top as int, run_base(ws[v]), run_top(ws[v])));
                            } else {
                                assert(self.staged_writes@[v] == ws[v]);
                                assert(self.staged_writes@[u] == ws[u]);
                            }
                        }
                        assert(nw.wf());
                        let nws = self.staged_writes@;
                        assert forall|a: int, b: u8| #[trigger] staged_byte(ws, a, b) implies staged_byte(
                            nws,
                            a,
                            b,
                        ) by {
                            let (k, pos) = choose|k: int, pos: int|
                                0 <= k < ws.len() && ws[k].start - run_base(ws[k]) <= pos < ws[k].buffer@.len()
                                    && run_base(ws[k]) + pos == a && #[trigger] ws[k].buffer@[pos] == b;
                            if k != w {
                                assert(nws[k] == ws[k]);
                            }
                            assert(nws[k].buffer@[pos] == ws[k].buffer@[pos]);
                        }
                        assert forall|i: int| 0 <= i < data@.len() implies staged_byte(
                            nws,
                            off + i,
                            #[trigger] data@[i],
                        ) by {
                            let pos = ws[w as int].buffer@.len() + i;
                            assert(nws[w as int].buffer@[pos] == data@[i]);
                        }
                    }
                    return StageStep::Staged;
                }
                proof {
                    assert forall|c: int| !(first_ending_at(ws, off as int, c) && grows_apart(ws, c, top as int)) by {
                        if first_ending_at(ws, off as int, c) {
                            if c < w {
                                assert(run_end(ws[c]) != off);
                            } else if c > w {
                                assert(run_end(ws[w as int]) != off);
                            }
                        }
                    }
                }
            },
            None => {},
        }
        if self.staged_writes.len() >= MAX_STAGED_WRITES {
            return StageStep::FlushFirst;
        }
        let head_start = page_down(off);
        if !self.is_clear(head_start, top) {
            return StageStep::FlushFirst;
        }
        let pad = (off - head_start) as usize;
        let mut buffer: Vec<u8> = Vec::new();
        let mut head: Option<Vec<u8>> = None;
        let ghost src = head_source(self.tail_pages@, head_start, head_page);
        if pad > 0 {
            let page: Vec<u8> = match self.tail_pages.get(&head_start) {
                Some(remembered) => vstd::slice::slice_to_vec(remembered.as_slice()),
                None => match head_page {
                    Some(read) => vstd::slice::slice_to_vec(read),
                    None => {
                        return StageStep::NeedPage(head_start);
                    },
                },
            };
            assert(page@ == src);
            buffer.extend_from_slice(&page[0..pad]);
            assert(buffer@ =~= src.take(pad as int));
            head = Some(page);
        }
        let ghost prefix = buffer@;
        buffer.extend_from_slice(data);
        assert(buffer@ =~= prefix + data@);
        self.pending_bytes = self.pending_bytes + data.len();
        let nw = StagedWrite { start: off, buffer, head };
        proof {
            assert(run_base(nw) == head_start);
            assert(nw.wf());
        }
        self.staged_writes.push(nw);
        proof {
            assert(self.staged_writes@.drop_last() =~= ws);
            assert forall|v: int, u: int|
                0 <= v < self.staged_writes@.len() && 0 <= u < self.staged_writes@.len() && v != u
                    implies apart(
                    run_base(#[trigger] self.staged_writes@[v]),
                    run_top(self.staged_writes@[v]),
                    run_base(#[trigger] self.staged_writes@[u]),
                    run_top(self.staged_writes@[u]),
                ) by {
                if v == ws.len() {
                    assert(apart(head_start as int, top as int, run_base(ws[u]), run_top(ws[u])));
                } else if u == ws.len() {
                    assert(apart(head_start as int, top as int, run_base(ws[v]), run_top(ws[v])));
                } else {
                    assert(self.staged_writes@[v] == ws[v]);
                    assert(self.staged_writes@[u] == ws[u]);
                }
            }
            assert forall|v: int| 0 <= v < self.staged_writes@.len() implies (#[trigger] self.staged_writes@[v]).wf() by {
                if v < ws.len() {
                    assert(self.staged_writes@[v] == ws[v]);
                }
            }
            let nws = self.staged_writes@;
            assert forall|a: int, b: u8| #[trigger] staged_byte(ws, a, b) implies staged_byte(nws, a, b) by {
                let (k, pos) = choose|k: int, pos: int|
                    0 <= k < ws.len() && ws[k].start - run_base(ws[k]) <= pos < ws[k].buffer@.len()
                        && run_base(ws[k]) + pos == a && #[trigger] ws[k].buffer@[pos] == b;
                assert(nws[k] == ws[k]);
            }
            let last = ws.len() as int;
            assert(nws[last] == nw);
            assert forall|i: int| 0 <= i < data@.len() implies staged_byte(nws, off + i, #[trigger] data@[i]) by {
                let pos = pad + i;
                assert(nws[last].buffer@[pos] == data@[i]);
            }
        }
        StageStep::Staged
    }
}

/// A run's end is not at a page boundary: its last page is only partly its own.
pub open spec fn partial(w: StagedWrite) -> bool {
    run_end(w) % 4096 != 0
}

/// The page that holds a run's last byte, when the run ends within a page.
pub open spec fn last_page(w: StagedWrite) -> int {
    spec_page_down(run_end(w))
}

/// The run's last page is its first page, whose bytes before the run are
/// known from its head.
pub open spec fn head_is_last(w: StagedWrite) -> bool {
    last_page(w) == run_base(w) && w.head is Some
}

/// Writing the run out needs its last page read from the file: the run ends
/// within a page that neither its head nor the remembered pages give.
pub open spec fn needs_read(w: StagedWrite, tail: Map<u64, Vec<u8>>) -> bool {
    partial(w) && !head_is_last(w) && !tail.contains_key(last_page(w) as u64)
}

/// The page whose bytes after a run's end are written back with the run.
pub open spec fn suffix_page(w: StagedWrite, tail: Map<u64, Vec<u8>>, disk: Map<u64, Vec<u8>>) -> Seq<u8> {
    if head_is_last(w) {
        w.head->0@
    } else if tail.contains_key(last_page(w) as u64) {
        tail[last_page(w) as u64]@
    } else {
        disk[last_page(w) as u64]@
    }
}

/// The bytes written for a run: its buffer, then, when it ends within a
/// page, the rest of that page as the file has it.
pub open spec fn run_image(w: StagedWrite, tail: Map<u64, Vec<u8>>, disk: Map<u64, Vec<u8>>) -> Seq<u8> {
    if partial(w) {
        w.buffer@ + suffix_page(w, tail, disk).subrange(run_end(w) - last_page(w), 4096)
    } else {
        w.buffer@
    }
}

/// The pages that writing out `ws` needs read from the file, in order.
pub open spec fn reads_needed(ws: Seq<StagedWrite>, tail: Map<u64, Vec<u8>>) -> Seq<u64>
    decreases ws.len(),
{
    if ws.len() == 0 {
        Seq::empty()
    } else {
        let prev = reads_needed(ws.drop_last(), tail);
        if needs_read(ws.last(), tail) {
            prev.push(last_page(ws.last()) as u64)
        } else {
            prev
        }
    }
}

/// Page `p` is the partly written last page of run `i`.
pub open spec fn is_tail_of(ws: Seq<StagedWrite>, i: int, p: int) -> bool {
    0 <= i < ws.len() && partial(ws[i]) && last_page(ws[i]) == p
}

impl PagedFile {
    /// The pages of the file that writing out the staged runs needs read.
    pub fn flush_reads(&self) -> (r: Vec<u64>)
        requires
            self.wf(),
        ensures
            r@ == reads_needed(self.staged_writes@, self.tail_pages@),
    {
        let mut r: Vec<u64> = Vec::new();
        let mut i: usize = 0;
        while i < self.staged_writes.len()
            invariant
                self.wf(),
                i <= self.staged_writes@.len(),
                r@ == reads_needed(self.staged_writes@.take(i as int), self.tail_pages@),
            decreases self.staged_writes@.len() - i,
        {
            let w = &self.staged_writes[i];
            assert(w.wf());
            proof {
                assert(self.staged_writes@.take(i + 1).drop_last() =~= self.staged_writes@.take(i as int));
                lemma_page_up_bounds(run_end(*w));
            }
            let end = w.end();
            if end % 4096 != 0 {
                let last = page_down(end);
                let head_last = last == w.base() && w.head.is_some();
                if !head_last && !self.tail_pages.contains_key(&last) {
                    r.push(last);
                }
            }
            i += 1;
        }
        proof {
            assert(self.staged_writes@.take(i as int) =~= self.staged_writes@);
        }
        r
    }
}

/// Page `p` lies in one of the first `k` runs.
pub open spec fn in_runs_before(ws: Seq<StagedWrite>, k: int, p: int) -> bool {
    exists|i: int| 0 <= i < k && run_base(#[trigger] ws[i]) <= p < run_top(ws[i])
}

/// What the remembered pages are after the first `k` runs of `ws` were
/// written out over `tail`: a page of one of those runs is remembered only
/// as the partly written last page of its run; any other page is as before.
pub open spec fn tail_after(
    ws: Seq<StagedWrite>,
    k: int,
    tail: Map<u64, Vec<u8>>,
    disk: Map<u64, Vec<u8>>,
    now: Map<u64, Vec<u8>>,
) -> bool {
    &&& forall|p: u64|
        #[trigger] now.contains_key(p) <==> if in_runs_before(ws, k, p as int) {
            exists|i: int| 0 <= i < k && #[trigger] is_tail_of(ws, i, p as int)
        } else {
            tail.contains_key(p)
        }
    &&& forall|p: u64, i: int|
        0 <= i < k && #[trigger] is_tail_of(ws, i, p as int) ==> #[trigger] now[p]@ == run_image(
            ws[i],
            tail,
            disk,
        ).subrange(last_page(ws[i]) - run_base(ws[i]), last_page(ws[i]) - run_base(ws[i]) + 4096)
    &&& forall|p: u64|
        !in_runs_before(ws, k, p as int) && #[trigger] tail.contains_key(p) ==> now[p] == tail[p]
}

impl PagedFile {
    /// Writes out the staged runs: gives, in order, the offset and bytes of
    /// each run's write (see `run_image`; `disk` holds the pages that
    /// `flush_reads` named, as read from the file), forgets the remembered
    /// pages that the runs cover and remembers the last page of each run
    /// that ends within a page.
    pub fn flush(&mut self, disk: &HashMap<u64, Vec<u8>>) -> (r: Vec<(u64, Vec<u8>)>)
        requires
            old(self).wf(),
            forall|i: int|
                0 <= i < old(self).staged_writes@.len() && needs_read(
                    #[trigger] old(self).staged_writes@[i],
                    old(self).tail_pages@,
                ) ==> disk@.contains_key(last_page(old(self).staged_writes@[i]) as u64) && disk@[last_page(
                    old(self).staged_writes@[i],
                ) as u64]@.len() == 4096,
        ensures
            final(self).wf(),
            final(self).staged_writes@.len() == 0,
            final(self).pending_bytes == 0,
            final(self).allocated_end == old(self).allocated_end,
            r@.len() == old(self).staged_writes@.len(),
            forall|i: int|
                0 <= i < r@.len() ==> (#[trigger] r@[i]).0 == run_base(old(self).staged_writes@[i]) && r@[i].1@
                    == run_image(old(self).staged_writes@[i], old(self).tail_pages@, disk@),
            images_of(old(self).staged_writes@, old(self).tail_pages@, disk@, r@),
            tail_after(
                old(self).staged_writes@,
                old(self).staged_writes@.len() as int,
                old(self).tail_pages@,
                disk@,
                final(self).tail_pages@,
            ),
    {
        let mut runs: Vec<StagedWrite> = Vec::new();
        std::mem::swap(&mut runs, &mut self.staged_writes);
        let ghost ws = runs@;
        let ghost tail0 = self.tail_pages@;
        let mut out: Vec<(u64, Vec<u8>)> = Vec::new();
        let mut i: usize = 0;
        let total = runs.len();
        proof {
            assert(runs@ =~= ws.skip(0));
        }
        while runs.len() > 0
            invariant
                total == ws.len(),
                i + runs@.len() == ws.len(),
                runs@ == ws.skip(i as int),
                out@.len() == i,
                forall|j: int| 0 <= j < ws.len() ==> (#[trigger] ws[j]).wf(),
                forall|v: int, u: int|
                    0 <= v < ws.len() && 0 <= u < ws.len() && v != u ==> apart(
                        run_base(#[trigger] ws[v]),
                        run_top(ws[v]),
                        run_base(#[trigger] ws[u]),
                        run_top(ws[u]),
                    ),
                forall|j: int|
                    0 <= j < ws.len() && needs_read(#[trigger] ws[j], tail0) ==> disk@.contains_key(
                        last_page(ws[j]) as u64,
                    ) && disk@[last_page(ws[j]) as u64]@.len() == 4096,
                forall|p: u64| #[trigger]
                    tail0.contains_key(p) ==> p % 4096 == 0 && tail0[p]@.len() == 4096,
                forall|p: u64| #[trigger]
                    self.tail_pages@.contains_key(p) ==> p % 4096 == 0 && self.tail_pages@[p]@.len()
                        == 4096,
                forall|j: int|
                    0 <= j < i ==> (#[trigger] out@[j]).0 == run_base(ws[j]) && out@[j].1@ == run_image(
                        ws[j],
                        tail0,
                        disk@,
                    ),
                tail_after(ws, i as int, tail0, disk@, self.tail_pages@),
                self.staged_writes@.len() == 0,
                self.allocated_end == old(self).allocated_end,
            decreases runs@.len(),
        {
            let mut w = runs.remove(0);
            let ghost wi = ws[i as int];
            proof {
                assert(w == wi);
                assert(runs@ =~= ws.skip(i + 1));
                assert(wi.wf());
                lemma_page_up_bounds(run_end(wi));
                lemma_page_up_bounds(wi.start as int);
            }
            let base = w.base();
            let end = w.end();
            let top = page_up(end);
            let ghost before = self.tail_pages@;
            let mut kept: Option<Vec<u8>> = None;
            if end % 4096 != 0 {
                let last = page_down(end);
                proof {
                    lemma_page_down_below(base as int, end as int);
                }
                let within = (end - last) as usize;
                proof {
                    assert(!in_runs_before(ws, i as int, last as int)) by {
                        if in_runs_before(ws, i as int, last as int) {
                            let j = choose|j: int| 0 <= j < i && run_base(#[trigger] ws[j]) <= last < run_top(ws[j]);
                            assert(apart(run_base(ws[j]), run_top(ws[j]), run_base(wi), run_top(wi)));
                        }
                    }
                }
                let suffix: Vec<u8> = if last == base && w.head.is_some() {
                    match &w.head {
                        Some(h) => vstd::slice::slice_to_vec(h.as_slice()),
                        None => Vec::new(),
                    }
                } else {
                    match self.tail_pages.get(&last) {
                        Some(page) => vstd::slice::slice_to_vec(page.as_slice()),
                        None => {
                            proof {
                                assert(needs_read(ws[i as int], tail0));
                            }
                            vstd::slice::slice_to_vec(disk.get(&last).unwrap().as_slice())
                        },
                    }
                };
                proof {
                    assert(suffix@ == suffix_page(wi, tail0, disk@));
                    assert(suffix@.len() == 4096);
                }
                let ghost buffer0 = w.buffer@;
                w.buffer.extend_from_slice(&suffix[within..4096]);
                proof {
                    assert(w.buffer@ =~= run_image(wi, tail0, disk@));
                    assert(w.buffer@.len() == (last - base) + 4096);
                }
                let blen = w.buffer.len();
                let po = blen - 4096;
                let page = vstd::slice::slice_to_vec(&w.buffer[po..blen]);
                proof {
                    assert(po == last - base);
                    assert(page@ == w.buffer@.subrange(last - base, last - base + 4096));
                }
                kept = Some(page);
            }
            let mut p = base;
            while p < top
                invariant
                    base <= p,
                    p <= top,
                    base % 4096 == 0,
                    top % 4096 == 0,
                    p % 4096 == 0,
                    top + 4096 <= u64::MAX,
                    forall|q: u64| #[trigger]
                        self.tail_pages@.contains_key(q) <==> before.contains_key(q) && !(base <= q < p),
                    forall|q: u64| #[trigger]
                        self.tail_pages@.contains_key(q) ==> self.tail_pages@[q] == before[q],
                    forall|q: u64| #[trigger]
                        before.contains_key(q) ==> q % 4096 == 0 && before[q]@.len() == 4096,
                    self.staged_writes@.len() == 0,
                    self.allocated_end == old(self).allocated_end,
                decreases top - p,
            {
                self.tail_pages.remove(&p);
                p = p + 4096;
            }
            let ghost removed = self.tail_pages@;
            if let Some(page) = kept {
                self.tail_pages.insert(page_down(end), page);
            }
            let ghost image = w.buffer@;
            out.push((base, w.buffer));
            proof {
                assert(image == run_image(wi, tail0, disk@));
                if partial(wi) {
                    lemma_page_down_below(base as int, end as int);
                    assert(self.tail_pages@[last_page(wi) as u64]@ == image.subrange(
                        last_page(wi) - base,
                        last_page(wi) - base + 4096,
                    ));
                }
                lemma_tail_step(ws, i as int, tail0, disk@, before, self.tail_pages@);
            }
            i += 1;
        }
        self.pending_bytes = 0;
        out
    }
}

/// Writing out run `i` keeps `tail_after` going: the run's pages are
/// forgotten, then its last page is remembered when it is partial.
proof fn lemma_tail_step(
    ws: Seq<StagedWrite>,
    i: int,
    tail: Map<u64, Vec<u8>>,
    disk: Map<u64, Vec<u8>>,
    before: Map<u64, Vec<u8>>,
    now: Map<u64, Vec<u8>>,
)
    requires
        0 <= i < ws.len(),
        forall|j: int| 0 <= j < ws.len() ==> (#[trigger] ws[j]).wf(),
        forall|v: int, u: int|
            0 <= v < ws.len() && 0 <= u < ws.len() && v != u ==> apart(
                run_base(#[trigger] ws[v]),
                run_top(ws[v]),
                run_base(#[trigger] ws[u]),
                run_top(ws[u]),
            ),
        tail_after(ws, i, tail, disk, before),
        forall|q: u64| #[trigger]
            now.contains_key(q) <==> (before.contains_key(q) && !(run_base(ws[i]) <= q < run_top(ws[i])))
                || (partial(ws[i]) && q == last_page(ws[i])),
        forall|q: u64|
            #[trigger] now.contains_key(q) && !(partial(ws[i]) && q == last_page(ws[i])) ==> now[q]
                == before[q],
        partial(ws[i]) ==> now[last_page(ws[i]) as u64]@ == run_image(ws[i], tail, disk).subrange(
            last_page(ws[i]) - run_base(ws[i]),
            last_page(ws[i]) - run_base(ws[i]) + 4096,
        ),
        partial(ws[i]) ==> run_base(ws[i]) <= last_page(ws[i]) < run_top(ws[i]),
    ensures
        tail_after(ws, i + 1, tail, disk, now),
{
    let wi = ws[i];
    assert forall|p: u64, j: int| 0 <= j < i && #[trigger] is_tail_of(ws, j, p as int) implies !(run_base(
        wi,
    ) <= p < run_top(wi)) && run_base(ws[j]) <= p < run_top(ws[j]) by {
        lemma_page_up_bounds(run_end(ws[j]));
        lemma_page_down_below(run_base(ws[j]), run_end(ws[j]));
        assert(apart(run_base(ws[j]), run_top(ws[j]), run_base(wi), run_top(wi)));
    }
    assert forall|p: u64| #[trigger] now.contains_key(p) <==> if in_runs_before(ws, i + 1, p as int) {
        exists|j: int| 0 <= j < i + 1 && #[trigger] is_tail_of(ws, j, p as int)
    } else {
        tail.contains_key(p)
    } by {
        if run_base(wi) <= p < run_top(wi) {
            assert(in_runs_before(ws, i + 1, p as int));
            if now.contains_key(p) {
                assert(is_tail_of(ws, i, p as int));
            }
            if exists|j: int| 0 <= j < i + 1 && #[trigger] is_tail_of(ws, j, p as int) {
                let j = choose|j: int| 0 <= j < i + 1 && #[trigger] is_tail_of(ws, j, p as int);
                if j < i {
                    assert(!(run_base(wi) <= p < run_top(wi)));
                }
            }
        } else {
            if in_runs_before(ws, i + 1, p as int) {
                let j = choose|j: int| 0 <= j < i + 1 && run_base(#[trigger] ws[j]) <= p < run_top(ws[j]);
                assert(j < i);
                assert(in_runs_before(ws, i, p as int));
                if exists|j: int| 0 <= j < i + 1 && #[trigger] is_tail_of(ws, j, p as int) {
                    let k = choose|k: int| 0 <= k < i + 1 && #[trigger] is_tail_of(ws, k, p as int);
                    if k == i {
                        assert(run_base(wi) <= p < run_top(wi));
                    }
                    assert(exists|j: int| 0 <= j < i && #[trigger] is_tail_of(ws, j, p as int));
                }
            } else {
                assert(!in_runs_before(ws, i, p as int)) by {
                    if in_runs_before(ws, i, p as int) {
                        let j = choose|j: int| 0 <= j < i && run_base(#[trigger] ws[j]) <= p < run_top(ws[j]);
                        assert(in_runs_before(ws, i + 1, p as int));
                    }
                }
            }
        }
    }
    assert forall|p: u64, j: int|
        0 <= j < i + 1 && #[trigger] is_tail_of(ws, j, p as int) implies #[trigger] now[p]@ == run_image(
        ws[j],
        tail,
        disk,
    ).subrange(last_page(ws[j]) - run_base(ws[j]), last_page(ws[j]) - run_base(ws[j]) + 4096) by {
        if j < i {
            assert(!(run_base(wi) <= p < run_top(wi)));
            assert(before.contains_key(p)) by {
                assert(in_runs_before(ws, i, p as int));
            }
            assert(now.contains_key(p));
        }
    }
    assert forall|p: u64|
        !in_runs_before(ws, i + 1, p as int) && #[trigger] tail.contains_key(p) implies now[p] == tail[p] by {
        assert(!(run_base(wi) <= p < run_top(wi)));
        assert(!in_runs_before(ws, i, p as int)) by {
            if in_runs_before(ws, i, p as int) {
                let j = choose|j: int| 0 <= j < i && run_base(#[trigger] ws[j]) <= p < run_top(ws[j]);
                assert(in_runs_before(ws, i + 1, p as int));
            }
        }
        assert(before.contains_key(p));
        assert(now.contains_key(p));
    }
}

/// Writing out a run writes whole pages from the page of its start on:
/// first its buffer, then, when it ends within a page, the bytes of that
/// page past its end as the file has them.
pub proof fn lemma_run_image_pages(w: StagedWrite, tail: Map<u64, Vec<u8>>, disk: Map<u64, Vec<u8>>)
    requires
        w.wf(),
        partial(w) ==> suffix_page(w, tail, disk).len() == 4096,
    ensures
        run_image(w, tail, disk).len() == run_top(w) - run_base(w),
        (run_top(w) - run_base(w)) % 4096 == 0,
        run_image(w, tail, disk).take(w.buffer@.len() as int) == w.buffer@,
        partial(w) ==> run_image(w, tail, disk).skip(w.buffer@.len() as int) == suffix_page(
            w,
            tail,
            disk,
        ).skip(run_end(w) - last_page(w)),
{
    lemma_page_up_bounds(run_end(w));
    lemma_page_up_bounds(w.start as int);
    let image = run_image(w, tail, disk);
    assert(image.take(w.buffer@.len() as int) =~= w.buffer@);
    if partial(w) {
        lemma_page_down_below(run_base(w), run_end(w));
        assert(image.skip(w.buffer@.len() as int) =~= suffix_page(w, tail, disk).skip(
            run_end(w) - last_page(w),
        ));
    }
}

/// Bytes that a run holds at `pos` are written there: the image of the run
/// has them at the same place (a run starts at its base page, so these are
/// the bytes that land at file offset `run_base + pos`).
pub proof fn lemma_staged_bytes_written(
    w: StagedWrite,
    pos: int,
    bytes: Seq<u8>,
    tail: Map<u64, Vec<u8>>,
    disk: Map<u64, Vec<u8>>,
)
    requires
        w.wf(),
        0 <= pos,
        pos + bytes.len() <= w.buffer@.len(),
        w.buffer@.subrange(pos, pos + bytes.len()) == bytes,
        partial(w) ==> suffix_page(w, tail, disk).len() == 4096,
    ensures
        run_image(w, tail, disk).subrange(pos, pos + bytes.len()) == bytes,
{
    lemma_run_image_pages(w, tail, disk);
    let image = run_image(w, tail, disk);
    assert(image.take(w.buffer@.len() as int) == w.buffer@);
    assert(image.subrange(pos, pos + bytes.len()) =~= w.buffer@.subrange(pos, pos + bytes.len()));
}

/// A record framed into a staged run reads back from the image that the
/// run is written as: at the record's place the image holds a header that
/// decodes, names the record's number and length, passes the checksum, and
/// is followed by the payload that was written.
pub proof fn lemma_staged_record_reads_back(
    w: StagedWrite,
    pos: int,
    file: DataFile,
    bucket: u64,
    id: u64,
    version: u16,
    payload: Seq<u8>,
    tail: Map<u64, Vec<u8>>,
    disk: Map<u64, Vec<u8>>,
)
    requires
        w.wf(),
        0 <= pos,
        payload.len() + 38 <= u64::MAX,
        pos + record_image(file, bucket, id, version, payload).len() <= w.buffer@.len(),
        w.buffer@.subrange(pos, pos + record_image(file, bucket, id, version, payload).len())
            == record_image(file, bucket, id, version, payload),
        partial(w) ==> suffix_page(w, tail, disk).len() == 4096,
    ensures
        ({
            let image = run_image(w, tail, disk);
            let h = stored_header(header_for(file, bucket, id, version, payload), file.with_bucket);
            &&& header_at(file, image, pos) == Some(h)
            &&& identity_ok(file, h, id, (payload.len() + header_len(file.with_bucket)) as u64)
            &&& checksum_ok(file, h, payload_at(file, image, pos, h))
            &&& payload_at(file, image, pos, h) == payload
        }),
{
    let rec = record_image(file, bucket, id, version, payload);
    lemma_staged_bytes_written(w, pos, rec, tail, disk);
    lemma_run_image_pages(w, tail, disk);
    let image = run_image(w, tail, disk);
    let before = image.take(pos);
    let after = image.skip(pos + rec.len());
    assert(image =~= before + rec + after);
    lemma_frame_then_parse(file, bucket, id, version, payload, before, after);
}

/// The file `f` with `bytes` written at offset `at`; a gap past the end of
/// the file reads as zeros.
pub open spec fn write_at(f: Seq<u8>, at: int, bytes: Seq<u8>) -> Seq<u8> {
    let n = if at + bytes.len() > f.len() {
        at + bytes.len()
    } else {
        f.len() as int
    };
    Seq::new(
        n as nat,
        |i: int|
            if at <= i < at + bytes.len() {
                bytes[i - at]
            } else if i < f.len() {
                f[i]
            } else {
                0u8
            },
    )
}

/// The file `f` after the images `out` are written at their offsets, in
/// order.
pub open spec fn write_images(f: Seq<u8>, out: Seq<(u64, Vec<u8>)>) -> Seq<u8>
    decreases out.len(),
{
    if out.len() == 0 {
        f
    } else {
        write_at(write_images(f, out.drop_last()), out.last().0 as int, out.last().1@)
    }
}

/// The images that writing out the runs `ws` gives, as `flush` returns them.
pub open spec fn images_of(
    ws: Seq<StagedWrite>,
    tail: Map<u64, Vec<u8>>,
    disk: Map<u64, Vec<u8>>,
    out: Seq<(u64, Vec<u8>)>,
) -> bool {
    &&& out.len() == ws.len()
    &&& forall|i: int|
        0 <= i < out.len() ==> (#[trigger] out[i]).0 == run_base(ws[i]) && out[i].1@ == run_image(
            ws[i],
            tail,
            disk,
        )
}

proof fn lemma_images_keep_run(
    p: PagedFile,
    disk: Map<u64, Vec<u8>>,
    out: Seq<(u64, Vec<u8>)>,
    f: Seq<u8>,
    k: int,
    pos: int,
    j: int,
)
    requires
        p.wf(),
        forall|i: int|
            0 <= i < p.staged_writes@.len() && needs_read(#[trigger] p.staged_writes@[i], p.tail_pages@)
                ==> disk.contains_key(last_page(p.staged_writes@[i]) as u64) && disk[last_page(
                p.staged_writes@[i],
            ) as u64]@.len() == 4096,
        images_of(p.staged_writes@, p.tail_pages@, disk, out),
        0 <= k < j <= out.len(),
        0 <= pos < p.staged_writes@[k].buffer@.len(),
    ensures
        run_base(p.staged_writes@[k]) + pos < write_images(f, out.take(j)).len(),
        write_images(f, out.take(j))[run_base(p.staged_writes@[k]) + pos]
            == p.staged_writes@[k].buffer@[pos],
    decreases j,
{
    let ws = p.staged_writes@;
    let tail = p.tail_pages@;
    let a = run_base(ws[k]) + pos;
    let i = j - 1;
    let w = ws[i];
    assert(w.wf());
    if partial(w) {
        if !head_is_last(w) && !tail.contains_key(last_page(w) as u64) {
            assert(needs_read(w, tail));
        }
    }
    lemma_run_image_pages(w, tail, disk);
    assert(out.take(j).drop_last() =~= out.take(i));
    assert(out.take(j).last() == out[i]);
    if i == k {
        assert(out[i].1@.take(w.buffer@.len() as int) == w.buffer@);
        assert(out[i].1@[pos] == w.buffer@[pos]);
    } else {
        lemma_images_keep_run(p, disk, out, f, k, pos, i);
        let wk = ws[k];
        assert(wk.wf());
        lemma_page_up_bounds(run_end(wk));
        assert(apart(run_base(w), run_top(w), run_base(wk), run_top(wk)));
    }
}

/// Writing out the staged runs puts every staged byte in the file: once the
/// images that `flush` gives are written at their offsets, in order, the
/// file holds each byte that staging left for an offset at that offset.
pub proof fn lemma_flushed_file_holds_staged_bytes(
    p: PagedFile,
    disk: Map<u64, Vec<u8>>,
    out: Seq<(u64, Vec<u8>)>,
    f: Seq<u8>,
    a: int,
    b: u8,
)
    requires
        p.wf(),
        forall|i: int|
            0 <= i < p.staged_writes@.len() && needs_read(#[trigger] p.staged_writes@[i], p.tail_pages@)
                ==> disk.contains_key(last_page(p.staged_writes@[i]) as u64) && disk[last_page(
                p.staged_writes@[i],
            ) as u64]@.len() == 4096,
        images_of(p.staged_writes@, p.tail_pages@, disk, out),
        staged_byte(p.staged_writes@, a, b),
    ensures
        0 <= a < write_images(f, out).len(),
        write_images(f, out)[a] == b,
{
    let ws = p.staged_writes@;
    let (k, pos) = choose|k: int, pos: int|
        0 <= k < ws.len() && ws[k].start - run_base(ws[k]) <= pos < ws[k].buffer@.len() && run_base(ws[k])
            + pos == a && #[trigger] ws[k].buffer@[pos] == b;
    lemma_page_up_bounds(ws[k].start as int);
    lemma_images_keep_run(p, disk, out, f, k, pos, out.len() as int);
    assert(out.take(out.len() as int) =~= out);
}

/// A record staged at `off` and written out reads back from the file: once
/// the images that `flush` gives are written, the bytes at `off` hold a
/// header that decodes, names the record's number and length, passes the
/// checksum, and is followed by the payload that was written.
pub proof fn lemma_flushed_record_reads_back(
    p: PagedFile,
    disk: Map<u64, Vec<u8>>,
    out: Seq<(u64, Vec<u8>)>,
    f: Seq<u8>,
    off: int,
    file: DataFile,
    bucket: u64,
    id: u64,
    version: u16,
    payload: Seq<u8>,
)
    requires
        p.wf(),
        forall|i: int|
            0 <= i < p.staged_writes@.len() && needs_read(#[trigger] p.staged_writes@[i], p.tail_pages@)
                ==> disk.contains_key(last_page(p.staged_writes@[i]) as u64) && disk[last_page(
                p.staged_writes@[i],
            ) as u64]@.len() == 4096,
        images_of(p.staged_writes@, p.tail_pages@, disk, out),
        payload.len() + 38 <= u64::MAX,
        0 <= off,
        forall|i: int|
            0 <= i < record_image(file, bucket, id, version, payload).len() ==> staged_byte(
                p.staged_writes@,
                off + i,
                #[trigger] record_image(file, bucket, id, version, payload)[i],
            ),
    ensures
        ({
            let g = write_images(f, out);
            let h = stored_header(header_for(file, bucket, id, version, payload), file.with_bucket);
            &&& off + record_image(file, bucket, id, version, payload).len() <= g.len()
            &&& g.subrange(off, off + record_image(file, bucket, id, version, payload).len())
                == record_image(file, bucket, id, version, payload)
            &&& header_at(file, g, off) == Some(h)
            &&& identity_ok(file, h, id, (payload.len() + header_len(file.with_bucket)) as u64)
            &&& checksum_ok(file, h, payload_at(file, g, off, h))
            &&& payload_at(file, g, off, h) == payload
        }),
{
    let rec = record_image(file, bucket, id, version, payload);
    let g = write_images(f, out);
    let n = rec.len() as int;
    lemma_record_header_len(header_for(file, bucket, id, version, payload), file.with_bucket);
    assert(n > 0);
    assert forall|i: int| 0 <= i < n implies off + i < g.len() && g[off + i] == #[trigger] rec[i] by {
        assert(staged_byte(p.staged_writes@, off + i, rec[i]));
        lemma_flushed_file_holds_staged_bytes(p, disk, out, f, off + i, rec[i]);
    }
    assert(staged_byte(p.staged_writes@, off + (n - 1), rec[n - 1]));
    lemma_flushed_file_holds_staged_bytes(p, disk, out, f, off + (n - 1), rec[n - 1]);
    assert(g.subrange(off, off + n) =~= rec);
    let before = g.take(off);
    let after = g.skip(off + n);
    assert(g =~= before + rec + after);
    lemma_frame_then_parse(file, bucket, id, version, payload, before, after);
}

} // verus!
