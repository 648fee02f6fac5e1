//! Bucket placement: every bucket owns extents of the data file and regions
//! of record numbers, so that the records of one bucket lie close together.
//! New extents are cut from the free tail of other buckets' extents, in a
//! fixed victim order, or taken from newly grown file space.

use vstd::prelude::*;
use vstd::arithmetic::power2::{pow2, lemma_pow2_pos, lemma_pow2_unfold};
use vstd::std_specs::bits::u64_leading_zeros;
use std::collections::HashMap;
use crate::error::HeapError;
use crate::heap::HeapConfig;
use crate::format::{
    page_down, page_up, spec_page_down, spec_page_up, RegistryRow, PAGE_SIZE_U64, REGISTRY_ROW_SIZE,
};

verus! {

broadcast use vstd::std_specs::hash::group_hash_axioms;

/// A run of the data file (offsets in bytes) or of the record numbers
/// (in slots), of which the first `used` units are taken.
#[derive(Debug, Clone, Copy)]
pub struct Extent {
    pub start: u64,
    pub size: u64,
    pub used: u64,
}

impl Extent {
    pub fn end(&self) -> (r: u64)
        requires
            self.start + self.size <= u64::MAX,
        ensures
            r == self.start + self.size,
    {
        self.start + self.size
    }
}

#[derive(Clone)]
pub struct BucketState {
    pub id: u64,
    /// Data extents, in the order they were granted; records go to the last.
    pub data: Vec<Extent>,
    /// Regions of record numbers; new numbers come from the last.
    pub slots: Vec<Extent>,
}

/// Outside work that a placement decision asks for, in order.
#[derive(Debug, Clone, Copy, PartialEq, Eq, Structural)]
pub enum PlacementEffect {
    /// Allocate the data file up to `upto`, growing it by at least `chunk`.
    EnsureAlloc { upto: u64, chunk: u64 },
    /// Stage `row` at `offset` of the registry file.
    StageRow { offset: u64, row: RegistryRow },
}

#[derive(Clone)]
pub struct BucketPlacement {
    pub states: Vec<BucketState>,
    pub bucket_indices: HashMap<u64, usize>,
    pub extent_grant_count: u64,
    pub file_size: u64,
    pub next_region: u64,
    pub registry_end: u64,
}

/// Largest byte offset that the placement hands out, so that rounding any
/// offset up to a page stays within `u64`.
pub const OFFSET_LIMIT: u64 = 0xFFFF_FFFF_FFFF_EFFF;

/// `floor(log2(n))` for `n >= 1`.
pub open spec fn floor_log2(n: nat) -> nat
    decreases n,
{
    if n <= 1 {
        0
    } else {
        1 + floor_log2(n / 2)
    }
}

/// The largest power of two not above `n` (for `n >= 1`): grant numbers
/// from one power of two to the next form a section.
pub open spec fn section_base(n: nat) -> nat {
    pow2(floor_log2(n))
}

/// The bucket that grant number `n` tries to cut from.
pub open spec fn victim_of(n: nat) -> int {
    n - section_base(n)
}

/// Free room at the end of an extent: what lies past the page that holds
/// its last used byte.
pub open spec fn free_room(e: Extent) -> int {
    if e.size >= spec_page_up(e.used as int) {
        e.size - spec_page_up(e.used as int)
    } else {
        0
    }
}

/// How much a cut takes from a victim with `free` room, for a need of `need`.
pub open spec fn cut_size(free: int, need: int) -> int {
    if spec_page_down(free / 2) >= need {
        spec_page_down(free / 2)
    } else {
        need
    }
}

/// A cut from a victim with `free` room takes what is needed, and no more
/// than half the room unless the need itself is more: it is the larger of
/// `need` and every page multiple not above `free / 2`, and it is one of
/// them; the victim keeps the rest of its room.
pub proof fn lemma_cut_takes_what_is_needed(free: int, need: int)
    requires
        0 <= need <= free,
    ensures
        need <= cut_size(free, need) <= free,
        forall|k: int| 0 <= k && #[trigger] (k * 4096) <= free / 2 ==> k * 4096 <= cut_size(free, need),
        cut_size(free, need) == need || (cut_size(free, need) % 4096 == 0 && 2 * cut_size(free, need)
            <= free),
{
    let h = free / 2;
    let p = spec_page_down(h);
    assert(h == 4096 * (h / 4096) + h % 4096) by (nonlinear_arith);
    assert(p == 4096 * (h / 4096));
    assert forall|k: int| 0 <= k && #[trigger] (k * 4096) <= h implies k * 4096 <= p by {
        assert(k <= h / 4096) by (nonlinear_arith)
            requires
                0 <= k,
                k * 4096 <= h,
                h == 4096 * (h / 4096) + h % 4096,
                0 <= h % 4096 < 4096,
        ;
        assert(k * 4096 <= 4096 * (h / 4096)) by (nonlinear_arith)
            requires
                k <= h / 4096,
        ;
    }
    assert(p % 4096 == 0) by (nonlinear_arith)
        requires
            p == 4096 * (h / 4096),
    ;
}

proof fn lemma_pow2_floor_log2(n: nat)
    requires
        n >= 1,
    ensures
        pow2(floor_log2(n)) <= n < 2 * pow2(floor_log2(n)),
    decreases n,
{
    reveal(pow2);
    if n <= 1 {
        vstd::arithmetic::power2::lemma2_to64();
    } else {
        lemma_pow2_floor_log2(n / 2);
        lemma_pow2_unfold(floor_log2(n));
    }
}

proof fn lemma_floor_log2_unique(n: nat, k: nat)
    requires
        n >= 1,
        pow2(k) <= n < 2 * pow2(k),
    ensures
        floor_log2(n) == k,
    decreases n,
{
    reveal(pow2);
    if n <= 1 {
        if k > 0 {
            lemma_pow2_unfold(k);
            lemma_pow2_pos((k - 1) as nat);
        }
    } else {
        if k == 0 {
            vstd::arithmetic::power2::lemma2_to64();
        } else {
            lemma_pow2_unfold(k);
            lemma_floor_log2_unique(n / 2, (k - 1) as nat);
        }
    }
}

/// The section base of the next grant number: the same, or doubled when a
/// new section begins.
pub(crate) proof fn lemma_section_base_next(n: nat)
    requires
        n >= 1,
    ensures
        n + 1 < 2 * section_base(n) ==> section_base(n + 1) == section_base(n),
        n + 1 == 2 * section_base(n) ==> section_base(n + 1) == 2 * section_base(n),
        section_base(n) <= n < 2 * section_base(n),
{
    lemma_pow2_floor_log2(n);
    let k = floor_log2(n);
    if n + 1 < 2 * pow2(k) {
        lemma_floor_log2_unique(n + 1, k);
    } else {
        lemma_pow2_unfold(k + 1);
        lemma_floor_log2_unique(n + 1, k + 1);
    }
}

proof fn lemma_leading_zeros_log2(n: u64)
    requires
        n >= 1,
    ensures
        u64_leading_zeros(n) == 63 - floor_log2(n as nat),
        floor_log2(n as nat) < 64,
    decreases n,
{
    reveal(u64_leading_zeros);
    if n == 1 {
        assert(u64_leading_zeros(0) == 64);
        assert(1u64 / 2 == 0);
        assert(u64_leading_zeros(1) == u64_leading_zeros(0) - 1);
        assert(floor_log2(1) == 0);
    } else {
        lemma_leading_zeros_log2(n / 2);
        assert(u64_leading_zeros(n) == u64_leading_zeros(n / 2) - 1);
        assert((n / 2) as nat == (n as nat) / 2);
        assert(floor_log2(n as nat) == 1 + floor_log2((n as nat) / 2));
    }
}

/// The section base of grant number `n`.
fn section_base_of(n: u64) -> (b: u64)
    requires
        n >= 1,
    ensures
        b == section_base(n as nat),
{
    proof {
        lemma_leading_zeros_log2(n);
        lemma_pow2_floor_log2(n as nat);
        vstd::bits::lemma_u64_shl_is_mul(1, floor_log2(n as nat) as u64);
    }
    1u64 << (63 - n.leading_zeros())
}

/// An extent whose used part lies inside it and which ends by `limit`.
pub open spec fn extent_fits(e: Extent, limit: int) -> bool {
    e.used <= e.size && e.start + e.size <= limit
}

/// Two extents that share no unit.
pub open spec fn extents_apart(a: Extent, b: Extent) -> bool {
    a.start + a.size <= b.start || b.start + b.size <= a.start
}

/// The last data extent of a bucket.
pub open spec fn last_extent(st: BucketState) -> Extent {
    st.data@.last()
}

/// What grant number `n` finds when it fails and the search goes on: a
/// victim bucket among the existing ones, with an extent, but without
/// enough free room.
pub open spec fn grant_fails(states: Seq<BucketState>, n: nat, need: int) -> bool {
    &&& n != 0
    &&& 0 <= victim_of(n) < states.len()
    &&& states[victim_of(n)].data@.len() > 0
    &&& free_room(last_extent(states[victim_of(n)])) < need
}

impl BucketPlacement {
    /// The internal consistency of a placement.
    pub open spec fn wf(&self) -> bool {
        &&& 4096 <= self.file_size <= OFFSET_LIMIT
        &&& forall|i: int|
            0 <= i < self.states@.len() ==> self.bucket_indices@.contains_key(
                #[trigger] self.states@[i].id,
            ) && self.bucket_indices@[self.states@[i].id] == i
        &&& forall|k: u64| #[trigger]
            self.bucket_indices@.contains_key(k) ==> (self.bucket_indices@[k] as int)
                < self.states@.len() && self.states@[self.bucket_indices@[k] as int].id == k
        &&& forall|i: int, j: int|
            0 <= i < self.states@.len() && 0 <= j < self.states@[i].data@.len() ==> extent_fits(
                #[trigger] self.states@[i].data@[j],
                self.file_size as int,
            )
        &&& forall|i: int, j: int|
            0 <= i < self.states@.len() && 0 <= j < self.states@[i].slots@.len() ==> extent_fits(
                #[trigger] self.states@[i].slots@[j],
                self.next_region as int,
            )
        &&& self.extent_grant_count == 0 ==> forall|i: int|
            0 <= i < self.states@.len() ==> (#[trigger] self.states@[i].data@.len()) == 0
    }

    /// No two record-number regions overlap.
    pub open spec fn regions_disjoint(&self) -> bool {
        forall|i1: int, j1: int, i2: int, j2: int|
            0 <= i1 < self.states@.len() && 0 <= j1 < self.states@[i1].slots@.len() && 0 <= i2
                < self.states@.len() && 0 <= j2 < self.states@[i2].slots@.len() && (i1 != i2 || j1
                != j2) ==> extents_apart(
                #[trigger] self.states@[i1].slots@[j1],
                #[trigger] self.states@[i2].slots@[j2],
            )
    }

    /// No two data extents overlap, all lie after the header page, and none
    /// exists before the first grant.
    pub open spec fn extents_disjoint(&self) -> bool {
        &&& forall|i: int, j: int|
            0 <= i < self.states@.len() && 0 <= j < self.states@[i].data@.len() ==> 4096
                <= (#[trigger] self.states@[i].data@[j]).start
        &&& forall|i1: int, j1: int, i2: int, j2: int|
            0 <= i1 < self.states@.len() && 0 <= j1 < self.states@[i1].data@.len() && 0 <= i2
                < self.states@.len() && 0 <= j2 < self.states@[i2].data@.len() && (i1 != i2 || j1
                != j2) ==> extents_apart(
                #[trigger] self.states@[i1].data@[j1],
                #[trigger] self.states@[i2].data@[j2],
            )
        &&& self.extent_grant_count == 0 ==> forall|i: int|
            0 <= i < self.states@.len() ==> (#[trigger] self.states@[i].data@.len()) == 0
    }

    /// An empty placement over a data file of `initial_size` bytes.
    pub fn new(initial_size: u64) -> (r: Self)
        requires
            4096 <= initial_size <= OFFSET_LIMIT,
        ensures
            r.wf(),
            r.extents_disjoint(),
            r.states@.len() == 0,
            r.extent_grant_count == 0,
            r.file_size == initial_size,
            r.next_region == 0,
            r.registry_end == 4096,
    {
        let r = BucketPlacement {
            states: Vec::new(),
            bucket_indices: HashMap::new(),
            extent_grant_count: 0,
            file_size: initial_size,
            next_region: 0,
            registry_end: PAGE_SIZE_U64,
        };
        assert(r.bucket_indices@ =~= Map::empty());
        r
    }

    /// Stages `row` at the end of the registry.
    fn push_row(&mut self, row: RegistryRow, effects: &mut Vec<PlacementEffect>) -> (res: Result<(), HeapError>)
        ensures
            final(self).states == old(self).states,
            final(self).bucket_indices == old(self).bucket_indices,
            final(self).extent_grant_count == old(self).extent_grant_count,
            final(self).file_size == old(self).file_size,
            final(self).next_region == old(self).next_region,
            res is Ok <==> old(self).registry_end + 64 <= u64::MAX,
            res is Ok ==> final(self).registry_end == old(self).registry_end + 64 && final(effects)@
                == old(effects)@.push(
                PlacementEffect::StageRow { offset: old(self).registry_end, row },
            ),
            res is Err ==> final(self).registry_end == old(self).registry_end && final(effects)@
                == old(effects)@,
    {
        if self.registry_end > u64::MAX - 64 {
            return Err(HeapError::InvalidArg("registry offset overflow"));
        }
        effects.push(PlacementEffect::StageRow { offset: self.registry_end, row });
        self.registry_end += REGISTRY_ROW_SIZE as u64;
        Ok(())
    }
}

/// The bigger of two numbers.
pub open spec fn spec_max(a: int, b: int) -> int {
    if a >= b {
        a
    } else {
        b
    }
}

/// Whether grant number `g` grows the file.
pub open spec fn grant_grows(states: Seq<BucketState>, g: nat) -> bool {
    g != 0 && victim_of(g) >= states.len()
}

/// Whether grant number `g` cuts from the victim's last extent.
pub open spec fn grant_cuts(states: Seq<BucketState>, g: nat) -> bool {
    g != 0 && 0 <= victim_of(g) < states.len()
}

/// The extent that grant number `g` hands out: the data area of a new file
/// for the very first grant, new file space past the end when the victim
/// number is past the last bucket, otherwise the tail cut from the
/// victim's last extent.
pub open spec fn granted_extent(
    states: Seq<BucketState>,
    file_size: int,
    g: nat,
    need: int,
    growth: int,
) -> Extent {
    if g == 0 {
        Extent { start: 4096, size: (file_size - 4096) as u64, used: 0 }
    } else if victim_of(g) >= states.len() {
        Extent { start: file_size as u64, size: spec_max(need, growth) as u64, used: 0 }
    } else {
        let last = last_extent(states[victim_of(g)]);
        let cut = cut_size(free_room(last), need);
        Extent { start: (last.start + last.size - cut) as u64, size: cut as u64, used: 0 }
    }
}

/// The data extents of bucket `i` after grant number `g` gave extent `e` to
/// bucket `b`.
pub open spec fn data_after_grant(
    states: Seq<BucketState>,
    g: nat,
    need: int,
    i: int,
    b: int,
    e: Extent,
) -> Seq<Extent> {
    let d = states[i].data@;
    let shrunk = if grant_cuts(states, g) && victim_of(g) == i {
        let last = d.last();
        let cut = cut_size(free_room(last), need);
        d.update(d.len() - 1, Extent { size: (last.size - cut) as u64, ..last })
    } else {
        d
    };
    if i == b {
        shrunk.push(e)
    } else {
        shrunk
    }
}

/// The outside work that grant number `g` to bucket `b` asks for: the file
/// grows by the extent when the grant goes past the last bucket, then the
/// grant's registry row goes to `registry_end`.
pub open spec fn grant_effects(
    pre: Seq<BucketState>,
    pre_file: int,
    g: nat,
    need: int,
    growth: int,
    b: int,
    registry_end: u64,
) -> Seq<PlacementEffect> {
    let e = granted_extent(pre, pre_file, g, need, growth);
    (if grant_grows(pre, g) {
        seq![PlacementEffect::EnsureAlloc { upto: (pre_file + e.size) as u64, chunk: e.size }]
    } else {
        Seq::empty()
    }) + seq![
        PlacementEffect::StageRow {
            offset: registry_end,
            row: RegistryRow { kind: 0x44, bucket: pre[b].id, start: e.start, size: e.size },
        },
    ]
}

/// `with_new` is `states` with bucket `bucket` added last, before it has
/// any extent.
pub open spec fn with_empty_bucket(
    states: Seq<BucketState>,
    with_new: Seq<BucketState>,
    bucket: u64,
) -> bool {
    &&& with_new.len() == states.len() + 1
    &&& with_new.drop_last() == states
    &&& with_new.last().id == bucket
    &&& with_new.last().data@.len() == 0
}

/// The data extents after bucket `b` took a newly granted extent for a
/// record that did not fit: grant numbers from `pre_count` on were tried in
/// turn, every one before the taken number `post_count - 1` failing, and a
/// victim that gave up its tail had the room for it; every
/// bucket's extents are then those that grant leaves, the new extent last in
/// bucket `b` with its first `used` bytes in use; the file grew by the new
/// extent exactly when the grant went past the last bucket.
pub open spec fn granted(
    pre: Seq<BucketState>,
    pre_file: int,
    pre_count: nat,
    post: Seq<BucketState>,
    post_file: int,
    post_count: nat,
    b: int,
    need: int,
    growth: int,
    used: int,
) -> bool {
    let g = (post_count - 1) as nat;
    let e = granted_extent(pre, pre_file, g, need, growth);
    &&& post_count >= 1
    &&& pre_count <= g
    &&& forall|n: nat| pre_count <= n < g ==> #[trigger] grant_fails(pre, n, need)
    &&& grant_cuts(pre, g) ==> pre[victim_of(g)].data@.len() > 0 && free_room(
        last_extent(pre[victim_of(g)]),
    ) >= need
    &&& post.len() == pre.len()
    &&& forall|i: int|
        0 <= i < pre.len() ==> (#[trigger] post[i]).data@ == data_after_grant(
            pre,
            g,
            need,
            i,
            b,
            Extent { used: used as u64, ..e },
        )
    &&& post_file == if grant_grows(pre, g) {
        pre_file + e.size
    } else {
        pre_file
    }
}

/// The search for a grant, started at grant number `count`, reaches number
/// `g` (every number before it fails) and ends there with an error: the
/// grant counter is exhausted, growing the file would pass the offset
/// limit, the victim has no extent, or the grant's registry row would pass
/// the end of the offsets.
pub open spec fn grant_ends_in_error(
    states: Seq<BucketState>,
    count: nat,
    g: nat,
    need: int,
    growth: int,
    file_size: int,
    registry_end: int,
) -> bool {
    &&& count <= g
    &&& forall|n: nat| count <= n < g ==> #[trigger] grant_fails(states, n, need)
    &&& {
        ||| g >= u64::MAX
        ||| (g != 0 && victim_of(g) >= states.len() && spec_max(need, growth) > OFFSET_LIMIT
            - file_size)
        ||| (g != 0 && 0 <= victim_of(g) < states.len() && states[victim_of(g)].data@.len() == 0)
        ||| (!grant_fails(states, g, need) && registry_end + 64 > u64::MAX)
    }
}

/// The search for the first extent of a new bucket `bucket`, added after
/// `states`, ends in an error.
pub open spec fn new_bucket_grant_fails(
    states: Seq<BucketState>,
    bucket: u64,
    count: nat,
    need: int,
    growth: int,
    file_size: int,
    registry_end: int,
) -> bool {
    exists|w: Seq<BucketState>, g: nat|
        #[trigger] with_empty_bucket(states, w, bucket) && #[trigger] grant_ends_in_error(
            w,
            count,
            g,
            need,
            growth,
            file_size,
            registry_end,
        )
}

/// Any two ways of adding the same empty bucket have the same data extents.
proof fn lemma_with_empty_bucket_same_data(
    states: Seq<BucketState>,
    w1: Seq<BucketState>,
    w2: Seq<BucketState>,
    bucket: u64,
)
    requires
        with_empty_bucket(states, w1, bucket),
        with_empty_bucket(states, w2, bucket),
    ensures
        same_data(w1, w2),
{
    assert forall|i: int| 0 <= i < w1.len() implies #[trigger] w1[i].data@ == w2[i].data@ by {
        if i < states.len() {
            assert(w1[i] == w1.drop_last()[i]);
            assert(w2[i] == w2.drop_last()[i]);
        } else {
            assert(w1[i].data@ =~= w2[i].data@);
        }
    }
}

/// `w` is `states` (by their data extents) with a bucket added last whose
/// only extent is the data area of a new file of `file_size` bytes.
pub open spec fn with_first_extent(states: Seq<BucketState>, w: Seq<BucketState>, file_size: int) -> bool {
    &&& w.len() == states.len() + 1
    &&& forall|i: int| 0 <= i < states.len() ==> #[trigger] w[i].data@ == states[i].data@
    &&& w.last().data@ == seq![Extent { start: 4096, size: (file_size - 4096) as u64, used: 0 }]
}

/// Placing the first record of a new bucket fails when that bucket holds
/// only the data area of a new file of `file_size` bytes.
pub open spec fn first_extent_placing_fails(
    states: Seq<BucketState>,
    file_size: int,
    registry_end: int,
    total_len: int,
    min_extent: int,
    growth: int,
) -> bool {
    exists|w: Seq<BucketState>|
        #[trigger] with_first_extent(states, w, file_size) && placing_fails(
            w,
            1,
            file_size,
            registry_end,
            states.len() as int,
            total_len,
            min_extent,
            growth,
        )
}

/// Placing a record of `total_len` bytes in bucket `bucket` fails. The
/// record is too large to round up to pages; or, for a known bucket,
/// placing its bytes fails, the bucket has no region, or its last region is
/// full and the next region of record numbers or its registry row does not
/// fit; or, for a new bucket, there are too many buckets, its first grant
/// fails, its first region or that region's row does not fit, or (when no
/// grant was ever made and the record does not fit the data area of the
/// file) placing the record after that first grant fails.
#[verifier::opaque]
pub open spec fn record_fails(p: BucketPlacement, bucket: u64, total_len: int, min_extent: int, growth: int, region_slots: int) -> bool {
    let need = spec_required_extent_size(min_extent, total_len);
    let ob = p.bucket_indices@[bucket] as int;
    let d = p.states@[ob].data@;
    let rs = p.states@[ob].slots@;
    let fits = d.len() > 0 && total_len <= d.last().size - d.last().used;
    let room = rs.len() > 0 && rs.last().used < rs.last().size;
    let end_after_place = if fits {
        p.registry_end as int
    } else {
        p.registry_end + 64
    };
    ||| total_len + 4096 > u64::MAX
    ||| (p.bucket_indices@.contains_key(bucket) && {
        ||| placing_fails(
            p.states@,
            p.extent_grant_count as nat,
            p.file_size as int,
            p.registry_end as int,
            ob,
            total_len,
            min_extent,
            growth,
        )
        ||| rs.len() == 0
        ||| (!room && (p.next_region + region_slots > u64::MAX || end_after_place + 64 > u64::MAX))
    })
    ||| (!p.bucket_indices@.contains_key(bucket) && {
        ||| p.states@.len() >= usize::MAX
        ||| new_bucket_grant_fails(
            p.states@,
            bucket,
            p.extent_grant_count as nat,
            need,
            growth,
            p.file_size as int,
            p.registry_end as int,
        )
        ||| p.next_region + region_slots > u64::MAX
        ||| p.registry_end + 128 > u64::MAX
        ||| (p.extent_grant_count == 0 && total_len + 4096 > p.file_size
            && first_extent_placing_fails(
            p.states@,
            p.file_size as int,
            p.registry_end + 128,
            total_len,
            min_extent,
            growth,
        ))
    })
}

proof fn lemma_record_fails_known(
    p: BucketPlacement,
    bucket: u64,
    total_len: int,
    min_extent: int,
    growth: int,
    region_slots: int,
)
    requires
        p.bucket_indices@.contains_key(bucket),
    ensures
        ({
            let ob = p.bucket_indices@[bucket] as int;
            let d = p.states@[ob].data@;
            let rs = p.states@[ob].slots@;
            let fits = d.len() > 0 && total_len <= d.last().size - d.last().used;
            let room = rs.len() > 0 && rs.last().used < rs.last().size;
            let end_after_place = if fits {
                p.registry_end as int
            } else {
                p.registry_end + 64
            };
            record_fails(p, bucket, total_len, min_extent, growth, region_slots) == (total_len
                + 4096 > u64::MAX || placing_fails(
                p.states@,
                p.extent_grant_count as nat,
                p.file_size as int,
                p.registry_end as int,
                ob,
                total_len,
                min_extent,
                growth,
            ) || rs.len() == 0 || (!room && (p.next_region + region_slots > u64::MAX
                || end_after_place + 64 > u64::MAX)))
        }),
{
    reveal(record_fails);
}

proof fn lemma_record_fails_new(
    p: BucketPlacement,
    bucket: u64,
    total_len: int,
    min_extent: int,
    growth: int,
    region_slots: int,
)
    requires
        !p.bucket_indices@.contains_key(bucket),
    ensures
        record_fails(p, bucket, total_len, min_extent, growth, region_slots) == (total_len + 4096
            > u64::MAX || p.states@.len() >= usize::MAX || new_bucket_grant_fails(
            p.states@,
            bucket,
            p.extent_grant_count as nat,
            spec_required_extent_size(min_extent, total_len),
            growth,
            p.file_size as int,
            p.registry_end as int,
        ) || p.next_region + region_slots > u64::MAX || p.registry_end + 128 > u64::MAX || (
        p.extent_grant_count == 0 && total_len + 4096 > p.file_size && first_extent_placing_fails(
            p.states@,
            p.file_size as int,
            p.registry_end + 128,
            total_len,
            min_extent,
            growth,
        ))),
{
    reveal(record_fails);
}

/// Record numbers of the bucket layout are never handed out twice: every
/// region of every bucket lies below the next region to be granted, which
/// is where the next region starts.
pub proof fn lemma_regions_below_next(p: BucketPlacement)
    requires
        p.wf(),
    ensures
        forall|i: int, j: int|
            0 <= i < p.states@.len() && 0 <= j < p.states@[i].slots@.len() ==> (
            #[trigger] p.states@[i].slots@[j]).start + p.states@[i].slots@[j].size <= p.next_region,
{
    assert forall|i: int, j: int|
        0 <= i < p.states@.len() && 0 <= j < p.states@[i].slots@.len() implies (
        #[trigger] p.states@[i].slots@[j]).start + p.states@[i].slots@[j].size <= p.next_region by {
        assert(extent_fits(p.states@[i].slots@[j], p.next_region as int));
    }
}

/// Two lists of buckets with the same data extents, bucket by bucket.
pub open spec fn same_data(a: Seq<BucketState>, b: Seq<BucketState>) -> bool {
    &&& a.len() == b.len()
    &&& forall|i: int| 0 <= i < a.len() ==> #[trigger] a[i].data@ == b[i].data@
}

/// Placing `total_len` bytes in bucket `b` fails: the bucket has no
/// extent, or the bytes do not fit its last extent and either the record is
/// too large to round up to pages or the search for a grant ends in an error.
pub open spec fn placing_fails(
    states: Seq<BucketState>,
    count: nat,
    file_size: int,
    registry_end: int,
    b: int,
    total_len: int,
    min_extent: int,
    growth: int,
) -> bool {
    let d = states[b].data@;
    ||| d.len() == 0
    ||| (!(total_len <= d.last().size - d.last().used) && (total_len + 4096 > u64::MAX || exists|
        g: nat,
    |
        #[trigger] grant_ends_in_error(
            states,
            count,
            g,
            spec_required_extent_size(min_extent, total_len),
            growth,
            file_size,
            registry_end,
        )))
}

/// The search for a grant, and placing a record, look only at the data
/// extents of the buckets.
pub proof fn lemma_same_data_same_failures(
    a: Seq<BucketState>,
    b: Seq<BucketState>,
    count: nat,
    need: int,
    growth: int,
    file_size: int,
    registry_end: int,
)
    requires
        same_data(a, b),
    ensures
        forall|g: nat|
            #[trigger] grant_ends_in_error(a, count, g, need, growth, file_size, registry_end)
                == grant_ends_in_error(b, count, g, need, growth, file_size, registry_end),
{
    assert forall|n: nat| #[trigger] grant_fails(a, n, need) == grant_fails(b, n, need) by {
        if 0 <= victim_of(n) < a.len() {
            assert(a[victim_of(n)].data@ == b[victim_of(n)].data@);
        }
    }
    assert forall|g: nat|
        #[trigger] grant_ends_in_error(a, count, g, need, growth, file_size, registry_end)
            == grant_ends_in_error(b, count, g, need, growth, file_size, registry_end) by {
        if 0 <= victim_of(g) < a.len() {
            assert(a[victim_of(g)].data@ == b[victim_of(g)].data@);
        }
        assert(grant_fails(a, g, need) == grant_fails(b, g, need));
        if forall|n: nat| count <= n < g ==> #[trigger] grant_fails(a, n, need) {
            assert forall|n: nat| count <= n < g implies #[trigger] grant_fails(b, n, need) by {
                assert(grant_fails(a, n, need));
            }
        }
        if forall|n: nat| count <= n < g ==> #[trigger] grant_fails(b, n, need) {
            assert forall|n: nat| count <= n < g implies #[trigger] grant_fails(a, n, need) by {
                assert(grant_fails(b, n, need));
            }
        }
    }
}

/// Placing a record fails alike in two lists with the same data extents.
pub proof fn lemma_same_data_same_placing(
    a: Seq<BucketState>,
    c: Seq<BucketState>,
    count: nat,
    file_size: int,
    registry_end: int,
    b: int,
    total_len: int,
    min_extent: int,
    growth: int,
)
    requires
        same_data(a, c),
        0 <= b < a.len(),
    ensures
        placing_fails(a, count, file_size, registry_end, b, total_len, min_extent, growth)
            == placing_fails(c, count, file_size, registry_end, b, total_len, min_extent, growth),
{
    lemma_same_data_same_failures(
        a,
        c,
        count,
        spec_required_extent_size(min_extent, total_len),
        growth,
        file_size,
        registry_end,
    );
    assert(a[b].data@ == c[b].data@);
    let need = spec_required_extent_size(min_extent, total_len);
    if exists|g: nat| #[trigger] grant_ends_in_error(a, count, g, need, growth, file_size, registry_end) {
        let g = choose|g: nat| #[trigger] grant_ends_in_error(a, count, g, need, growth, file_size, registry_end);
        assert(grant_ends_in_error(c, count, g, need, growth, file_size, registry_end));
    }
    if exists|g: nat| #[trigger] grant_ends_in_error(c, count, g, need, growth, file_size, registry_end) {
        let g = choose|g: nat| #[trigger] grant_ends_in_error(c, count, g, need, growth, file_size, registry_end);
        assert(grant_ends_in_error(a, count, g, need, growth, file_size, registry_end));
    }
}

impl BucketPlacement {
    /// Grants bucket `bucket_index` a new data extent of at least `need`
    /// bytes. Grant numbers are tried from the grant counter on: number
    /// 0 takes the whole data area of a new file; number `n` otherwise names
    /// the victim bucket `n - section_base(n)`; past the last bucket the file
    /// grows by `max(need, growth)`; a victim whose last extent has `free`
    /// bytes past its used pages, with `free >= need`, gives up its tail of
    /// `max(page_down(free / 2), need)` bytes; any other victim is passed over.
    pub fn grant_extent(
        &mut self,
        growth: u64,
        bucket_index: usize,
        need: u64,
        effects: &mut Vec<PlacementEffect>,
    ) -> (res: Result<(), HeapError>)
        requires
            old(self).wf(),
            bucket_index < old(self).states@.len(),
        ensures
            final(self).wf(),
            res is Err <==> exists|g: nat|
                #[trigger] grant_ends_in_error(
                    old(self).states@,
                    old(self).extent_grant_count as nat,
                    g,
                    need as int,
                    growth as int,
                    old(self).file_size as int,
                    old(self).registry_end as int,
                ),
            res is Ok && old(self).extents_disjoint() ==> final(self).extents_disjoint(),
            res is Ok ==> data_kept(old(self).states@, final(self).states@),
            final(self).states@.len() == old(self).states@.len(),
            final(self).bucket_indices@ == old(self).bucket_indices@,
            final(self).next_region == old(self).next_region,
            forall|i: int|
                0 <= i < old(self).states@.len() ==> (#[trigger] final(self).states@[i]).id == old(
                    self,
                ).states@[i].id && final(self).states@[i].slots@ == old(self).states@[i].slots@,
            res is Ok ==> ({
                let g = (final(self).extent_grant_count - 1) as nat;
                let pre = old(self).states@;
                let e = granted_extent(
                    pre,
                    old(self).file_size as int,
                    g,
                    need as int,
                    growth as int,
                );
                &&& old(self).extent_grant_count <= g
                &&& forall|n: nat|
                    old(self).extent_grant_count <= n < g ==> #[trigger] grant_fails(
                        pre,
                        n,
                        need as int,
                    )
                &&& grant_cuts(pre, g) ==> pre[victim_of(g)].data@.len() > 0 && free_room(
                    last_extent(pre[victim_of(g)]),
                ) >= need
                &&& grant_grows(pre, g) ==> e.start == old(self).file_size && need <= e.size
                    && growth <= e.size && (e.size == need || e.size == growth)
                &&& grant_cuts(pre, g) ==> e.start + e.size == last_extent(pre[victim_of(g)]).start
                    + last_extent(pre[victim_of(g)]).size
                &&& grant_cuts(pre, g) ==> ({
                    let v = victim_of(g);
                    let free = free_room(last_extent(pre[v]));
                    &&& need <= e.size <= free
                    &&& e.size == need || (e.size % 4096 == 0 && 2 * e.size <= free)
                    &&& forall|k: int|
                        0 <= k && #[trigger] (k * 4096) <= free / 2 ==> k * 4096 <= e.size
                    &&& final(self).states@[v].data@[pre[v].data@.len() - 1].size + e.size
                        == last_extent(pre[v]).size
                })
                &&& forall|i: int|
                    0 <= i < pre.len() ==> (#[trigger] final(self).states@[i]).data@
                        == data_after_grant(pre, g, need as int, i, bucket_index as int, e)
                &&& final(self).file_size == if grant_grows(pre, g) {
                    old(self).file_size + e.size
                } else {
                    old(self).file_size as int
                }
                &&& final(self).registry_end == old(self).registry_end + 64
                &&& final(effects)@ == old(effects)@ + (if grant_grows(pre, g) {
                    seq![
                        PlacementEffect::EnsureAlloc {
                            upto: (old(self).file_size + e.size) as u64,
                            chunk: e.size,
                        },
                    ]
                } else {
                    Seq::empty()
                }) + seq![
                    PlacementEffect::StageRow {
                        offset: old(self).registry_end,
                        row: RegistryRow {
                            kind: 0x44,
                            bucket: pre[bucket_index as int].id,
                            start: e.start,
                            size: e.size,
                        },
                    },
                ]
            }),
    {
        let ghost pre = self.states@;
        let ghost n0 = self.extent_grant_count as nat;
        let ghost eff0 = effects@;
        let mut cut_victim: bool = false;
        let mut new_extent = Extent { start: 0, size: 0, used: 0 };
        loop
            invariant_except_break
                self.wf(),
                self.states@ == pre,
                self.bucket_indices@ == old(self).bucket_indices@,
                self.file_size == old(self).file_size,
                self.next_region == old(self).next_region,
                self.registry_end == old(self).registry_end,
                effects@ == eff0,
                !cut_victim,
                n0 == old(self).extent_grant_count,
                pre == old(self).states@,
                bucket_index < pre.len(),
                n0 <= self.extent_grant_count,
                forall|n: nat|
                    n0 <= n < self.extent_grant_count ==> #[trigger] grant_fails(pre, n, need as int),
            ensures
                self.wf(),
                self.states@.len() == pre.len(),
                self.bucket_indices@ == old(self).bucket_indices@,
                self.next_region == old(self).next_region,
                self.registry_end == old(self).registry_end,
                n0 == old(self).extent_grant_count,
                pre == old(self).states@,
                bucket_index < pre.len(),
                n0 < self.extent_grant_count,
                ({
                    let g = (self.extent_grant_count - 1) as nat;
                    &&& forall|n: nat|
                        n0 <= n < g ==> #[trigger] grant_fails(pre, n, need as int)
                    &&& new_extent == granted_extent(
                        pre,
                        old(self).file_size as int,
                        g,
                        need as int,
                        growth as int,
                    )
                    &&& cut_victim == grant_cuts(pre, g)
                    &&& grant_cuts(pre, g) ==> pre[victim_of(g)].data@.len() > 0 && free_room(
                        last_extent(pre[victim_of(g)]),
                    ) >= need
                    &&& forall|i: int|
                        0 <= i < pre.len() ==> (#[trigger] self.states@[i]).id == pre[i].id
                            && self.states@[i].slots@ == pre[i].slots@ && self.states@[i].data@
                            == data_after_grant(pre, g, need as int, i, -1, new_extent)
                    &&& self.file_size == if grant_grows(pre, g) {
                        old(self).file_size + new_extent.size
                    } else {
                        old(self).file_size as int
                    }
                    &&& effects@ == eff0 + (if grant_grows(pre, g) {
                        seq![
                            PlacementEffect::EnsureAlloc {
                                upto: (old(self).file_size + new_extent.size) as u64,
                                chunk: new_extent.size,
                            },
                        ]
                    } else {
                        Seq::empty()
                    })
                    &&& extent_fits(new_extent, self.file_size as int)
                }),
            decreases
                (if self.states@.len() < section_base(self.extent_grant_count as nat) {
                    0
                } else {
                    self.states@.len() - section_base(self.extent_grant_count as nat) + 1
                }),
                2 * section_base(self.extent_grant_count as nat) - self.extent_grant_count,
        {
            if self.extent_grant_count == u64::MAX {
                proof {
                    assert(grant_ends_in_error(
                        pre,
                        n0,
                        self.extent_grant_count as nat,
                        need as int,
                        growth as int,
                        old(self).file_size as int,
                        old(self).registry_end as int,
                    ));
                }
                return Err(HeapError::InvalidArg("extent grant counter overflow"));
            }
            let grant_number = self.extent_grant_count;
            self.extent_grant_count += 1;
            if grant_number == 0 {
                new_extent = Extent {
                    start: PAGE_SIZE_U64,
                    size: self.file_size - PAGE_SIZE_U64,
                    used: 0,
                };
                proof {
                    assert forall|i: int| 0 <= i < pre.len() implies self.states@[i].data@
                        == data_after_grant(pre, 0, need as int, i, -1, new_extent) by {}
                    assert(effects@ =~= eff0 + Seq::<PlacementEffect>::empty());
                    assert(!grant_grows(pre, 0));
                    assert(new_extent == granted_extent(pre, old(self).file_size as int, 0, need as int, growth as int));
                    assert(extent_fits(new_extent, self.file_size as int));
                }
                break;
            }
            let section_base = section_base_of(grant_number);
            proof {
                lemma_section_base_next(grant_number as nat);
            }
            let victim_index = grant_number - section_base;
            if victim_index >= self.states.len() as u64 {
                let grow = need.max(growth);
                if grow > OFFSET_LIMIT - self.file_size {
                    proof {
                        assert(grant_ends_in_error(
                            pre,
                            n0,
                            grant_number as nat,
                            need as int,
                            growth as int,
                            old(self).file_size as int,
                            old(self).registry_end as int,
                        ));
                    }
                    return Err(HeapError::InvalidArg("data file size overflow"));
                }
                effects.push(PlacementEffect::EnsureAlloc { upto: self.file_size + grow, chunk: grow });
                new_extent = Extent { start: self.file_size, size: grow, used: 0 };
                self.file_size += grow;
                proof {
                    assert forall|i: int| 0 <= i < pre.len() implies self.states@[i].data@
                        == data_after_grant(pre, grant_number as nat, need as int, i, -1, new_extent)
                        by {}
                    assert(grant_grows(pre, grant_number as nat));
                    assert(new_extent == granted_extent(pre, old(self).file_size as int, grant_number as nat, need as int, growth as int));
                    assert(extent_fits(new_extent, self.file_size as int));
                    assert(effects@ =~= eff0 + seq![
                            PlacementEffect::EnsureAlloc {
                                upto: (old(self).file_size + new_extent.size) as u64,
                                chunk: new_extent.size,
                            },
                        ]);
                }
                break;
            }
            let vi = victim_index as usize;
            let dlen = self.states[vi].data.len();
            if dlen == 0 {
                proof {
                    assert(grant_ends_in_error(
                        pre,
                        n0,
                        grant_number as nat,
                        need as int,
                        growth as int,
                        old(self).file_size as int,
                        old(self).registry_end as int,
                    ));
                }
                return Err(HeapError::Corrupt { what: "bucket without extent", offset: 0 });
            }
            let last = self.states[vi].data[dlen - 1];
            let free = last.size.saturating_sub(page_up(last.used));
            if free >= need {
                let cut = page_down(free / 2).max(need);
                let new_size = last.size - cut;
                self.states[vi].data[dlen - 1].size = new_size;
                new_extent = Extent { start: last.start + new_size, size: cut, used: 0 };
                cut_victim = true;
                break;
            }
        }
        let bucket = self.states[bucket_index].id;
        let ghost g_taken = (self.extent_grant_count - 1) as nat;
        proof {
            assert(!grant_fails(pre, g_taken, need as int));
        }
        let pushed = self.push_row(
            RegistryRow { kind: 0x44, bucket, start: new_extent.start, size: new_extent.size },
            effects,
        );
        if pushed.is_err() {
            proof {
                assert(grant_ends_in_error(
                    pre,
                    n0,
                    g_taken,
                    need as int,
                    growth as int,
                    old(self).file_size as int,
                    old(self).registry_end as int,
                ));
            }
            return pushed;
        }
        self.states[bucket_index].data.push(new_extent);
        proof {
            let g = (self.extent_grant_count - 1) as nat;
            assert forall|h: nat| !grant_ends_in_error(
                pre,
                n0,
                h,
                need as int,
                growth as int,
                old(self).file_size as int,
                old(self).registry_end as int,
            ) by {
                if n0 <= h < g {
                    assert(grant_fails(pre, h, need as int));
                } else if h > g && n0 <= h {
                    if forall|n: nat| n0 <= n < h ==> #[trigger] grant_fails(pre, n, need as int) {
                        assert(grant_fails(pre, g, need as int));
                    }
                }
            }
            assert forall|i: int| 0 <= i < pre.len() implies (#[trigger] self.states@[i]).data@
                == data_after_grant(pre, g, need as int, i, bucket_index as int, new_extent) by {}
            assert forall|i: int, j: int|
                0 <= i < pre.len() && 0 <= j < pre[i].data@.len() implies j < self.states@[i].data@.len()
                && (#[trigger] self.states@[i].data@[j]).start == pre[i].data@[j].start
                && self.states@[i].data@[j].used == pre[i].data@[j].used by {
                assert(self.states@[i].data@ == data_after_grant(pre, g, need as int, i, bucket_index as int, new_extent));
            }
            if grant_cuts(pre, g) {
                let v = victim_of(g);
                lemma_cut_takes_what_is_needed(free_room(last_extent(pre[v])), need as int);
                assert(self.states@[v].data@ == data_after_grant(pre, g, need as int, v, bucket_index as int, new_extent));
            }
            if old(self).extents_disjoint() {
                lemma_grant_keeps_disjoint(*old(self), *self, g, need as int, growth as int,
                    bucket_index as int, new_extent);
            }
        }
        Ok(())
    }
}

/// A grant keeps the data extents apart: the victim keeps the head of its
/// last extent, the new extent is the tail that it gave up or lies past the
/// old end of the file.
proof fn lemma_grant_keeps_disjoint(
    pre: BucketPlacement,
    post: BucketPlacement,
    g: nat,
    need: int,
    growth: int,
    b: int,
    e: Extent,
)
    requires
        pre.wf(),
        pre.extents_disjoint(),
        0 <= b < pre.states@.len(),
        post.states@.len() == pre.states@.len(),
        post.extent_grant_count >= 1,
        g == 0 ==> pre.extent_grant_count == 0,
        e == granted_extent(pre.states@, pre.file_size as int, g, need, growth),
        grant_cuts(pre.states@, g) ==> pre.states@[victim_of(g)].data@.len() > 0 && free_room(
            last_extent(pre.states@[victim_of(g)]),
        ) >= need,
        forall|i: int|
            0 <= i < pre.states@.len() ==> (#[trigger] post.states@[i]).data@ == data_after_grant(
                pre.states@,
                g,
                need,
                i,
                b,
                e,
            ),
    ensures
        post.extents_disjoint(),
{
    let ps = pre.states@;
    let qs = post.states@;
    if g >= 1 {
        lemma_section_base_next(g);
    }
    // Every extent after the grant is an old one, a head of an old one, or the new one.
    assert forall|i: int, j: int|
        0 <= i < qs.len() && 0 <= j < qs[i].data@.len() implies ({
        let x = #[trigger] qs[i].data@[j];
        if i == b && j == ps[i].data@.len() {
            x == e
        } else {
            &&& j < ps[i].data@.len()
            &&& x.start == ps[i].data@[j].start
            &&& x.size <= ps[i].data@[j].size
        }
    }) by {
        assert(qs[i].data@ == data_after_grant(ps, g, need, i, b, e));
    }
    if grant_cuts(ps, g) {
        let v = victim_of(g);
        let d = ps[v].data@;
        let last = d.last();
        assert(d[d.len() - 1] == last);
        assert(extent_fits(ps[v].data@[d.len() - 1], pre.file_size as int));
        let free = free_room(last);
        let cut = cut_size(free, need);
        assert(free >= 0);
        assert(spec_page_down(free / 2) <= free);
        assert(cut <= free);
        assert(free <= last.size);
        assert(e.start + e.size == last.start + last.size);
        assert(e.start >= last.start);
        assert forall|i: int, j: int| 0 <= i < qs.len() && 0 <= j < qs[i].data@.len() && !(i == b
            && j == ps[i].data@.len()) implies extents_apart(#[trigger] qs[i].data@[j], e) by {
            if i == v && j == d.len() - 1 {
                assert(qs[i].data@ == data_after_grant(ps, g, need, i, b, e));
                assert(qs[i].data@[j].start + qs[i].data@[j].size == e.start);
            } else {
                assert(j < ps[i].data@.len());
                assert(qs[i].data@[j].start == ps[i].data@[j].start);
                assert(qs[i].data@[j].size <= ps[i].data@[j].size);
                assert(extents_apart(ps[i].data@[j], ps[v].data@[d.len() - 1]));
            }
        }
    } else if g == 0 {
        assert forall|i: int| 0 <= i < ps.len() implies (#[trigger] ps[i].data@.len()) == 0 by {}
    } else {
        assert forall|i: int, j: int| 0 <= i < qs.len() && 0 <= j < qs[i].data@.len() && !(i == b
            && j == ps[i].data@.len()) implies extents_apart(#[trigger] qs[i].data@[j], e) by {
            assert(j < ps[i].data@.len());
            assert(qs[i].data@[j].start == ps[i].data@[j].start);
            assert(qs[i].data@[j].size <= ps[i].data@[j].size);
            assert(extent_fits(ps[i].data@[j], pre.file_size as int));
        }
    }
    assert forall|i1: int, j1: int, i2: int, j2: int|
        0 <= i1 < qs.len() && 0 <= j1 < qs[i1].data@.len() && 0 <= i2 < qs.len() && 0 <= j2
            < qs[i2].data@.len() && (i1 != i2 || j1 != j2) implies extents_apart(
        #[trigger] qs[i1].data@[j1],
        #[trigger] qs[i2].data@[j2],
    ) by {
        let new1 = i1 == b && j1 == ps[i1].data@.len();
        let new2 = i2 == b && j2 == ps[i2].data@.len();
        if !new1 && !new2 {
            assert(extents_apart(ps[i1].data@[j1], ps[i2].data@[j2]));
        }
    }
    assert forall|i: int, j: int|
        0 <= i < qs.len() && 0 <= j < qs[i].data@.len() implies 4096 <= (
        #[trigger] qs[i].data@[j]).start by {
        if !(i == b && j == ps[i].data@.len()) {
            assert(4096 <= ps[i].data@[j].start);
        } else if grant_cuts(ps, g) {
            let v = victim_of(g);
            assert(4096 <= ps[v].data@[ps[v].data@.len() - 1].start);
        }
    }
}

/// The range `lo..hi` shares no byte with the used part of `e`.
pub open spec fn apart_from_used(e: Extent, lo: int, hi: int) -> bool {
    hi <= e.start || e.start + e.used <= lo || lo == hi
}

/// The size of extent that a record of `total_len` bytes asks for.
pub open spec fn spec_required_extent_size(min_extent: int, total_len: int) -> int {
    spec_max(spec_page_up(total_len), min_extent)
}

/// The extent size a record of `total_len` bytes asks for: whole pages,
/// and at least the configured minimum.
fn required_extent_size(config: &HeapConfig, total_len: u64) -> (r: Result<u64, HeapError>)
    ensures
        r is Ok <==> total_len + 4096 <= u64::MAX,
        r matches Ok(n) ==> n == spec_required_extent_size(config.min_extent as int, total_len as int),
{
    if total_len > u64::MAX - 4096 {
        return Err(HeapError::InvalidArg("record too large"));
    }
    Ok(page_up(total_len).max(config.min_extent))
}

impl BucketPlacement {
    /// Grants bucket `bucket_index` the next region of record numbers.
    fn grant_region(
        &mut self,
        config: &HeapConfig,
        bucket_index: usize,
        effects: &mut Vec<PlacementEffect>,
    ) -> (res: Result<(), HeapError>)
        requires
            old(self).wf(),
            bucket_index < old(self).states@.len(),
        ensures
            final(self).wf(),
            final(self).states@.len() == old(self).states@.len(),
            final(self).bucket_indices@ == old(self).bucket_indices@,
            final(self).extent_grant_count == old(self).extent_grant_count,
            final(self).file_size == old(self).file_size,
            forall|i: int|
                0 <= i < old(self).states@.len() ==> (#[trigger] final(self).states@[i]).id == old(
                    self,
                ).states@[i].id && final(self).states@[i].data@ == old(self).states@[i].data@,
            forall|i: int|
                0 <= i < old(self).states@.len() && i != bucket_index ==> (
                #[trigger] final(self).states@[i]).slots@ == old(self).states@[i].slots@,
            old(self).extents_disjoint() ==> final(self).extents_disjoint(),
            res is Ok <==> old(self).next_region + config.region_slots <= u64::MAX && old(
                self,
            ).registry_end + 64 <= u64::MAX,
            res is Ok ==> {
                &&& final(self).next_region == old(self).next_region + config.region_slots
                &&& final(self).states@[bucket_index as int].slots@ == old(self).states@[bucket_index as int].slots@.push(
                    Extent { start: old(self).next_region, size: config.region_slots, used: 0 },
                )
                &&& final(self).registry_end == old(self).registry_end + 64
                &&& final(effects)@ == old(effects)@.push(
                    PlacementEffect::StageRow {
                        offset: old(self).registry_end,
                        row: RegistryRow {
                            kind: 0x53,
                            bucket: old(self).states@[bucket_index as int].id,
                            start: old(self).next_region,
                            size: config.region_slots,
                        },
                    },
                )
            },
            res is Ok && old(self).regions_disjoint() ==> final(self).regions_disjoint(),
    {
        if config.region_slots > u64::MAX - self.next_region {
            return Err(HeapError::InvalidArg("record number overflow"));
        }
        let region = Extent { start: self.next_region, size: config.region_slots, used: 0 };
        self.next_region += config.region_slots;
        let bucket = self.states[bucket_index].id;
        self.push_row(
            RegistryRow { kind: 0x53, bucket, start: region.start, size: region.size },
            effects,
        )?;
        let ghost mid = self.states@;
        self.states[bucket_index].slots.push(region);
        proof {
            let qs = self.states@;
            let ps = old(self).states@;
            assert forall|i: int, j: int|
                0 <= i < qs.len() && 0 <= j < qs[i].slots@.len() implies extent_fits(
                #[trigger] qs[i].slots@[j],
                self.next_region as int,
            ) by {
                if !(i == bucket_index && j == ps[i].slots@.len()) {
                    assert(extent_fits(ps[i].slots@[j], old(self).next_region as int));
                }
            }
            assert forall|i: int, j: int|
                0 <= i < qs.len() && 0 <= j < qs[i].data@.len() implies extent_fits(
                #[trigger] qs[i].data@[j],
                self.file_size as int,
            ) by {
                assert(qs[i].data@[j] == ps[i].data@[j]);
            }
            if old(self).regions_disjoint() {
                assert forall|i1: int, j1: int, i2: int, j2: int|
                    0 <= i1 < qs.len() && 0 <= j1 < qs[i1].slots@.len() && 0 <= i2 < qs.len() && 0
                        <= j2 < qs[i2].slots@.len() && (i1 != i2 || j1 != j2) implies extents_apart(
                    #[trigger] qs[i1].slots@[j1],
                    #[trigger] qs[i2].slots@[j2],
                ) by {
                    let new1 = i1 == bucket_index && j1 == ps[i1].slots@.len();
                    let new2 = i2 == bucket_index && j2 == ps[i2].slots@.len();
                    if !new1 {
                        assert(extent_fits(ps[i1].slots@[j1], old(self).next_region as int));
                    }
                    if !new2 {
                        assert(extent_fits(ps[i2].slots@[j2], old(self).next_region as int));
                    }
                    if !new1 && !new2 {
                        assert(extents_apart(ps[i1].slots@[j1], ps[i2].slots@[j2]));
                    }
                }
            }
            if old(self).extents_disjoint() {
                assert forall|i1: int, j1: int, i2: int, j2: int|
                    0 <= i1 < qs.len() && 0 <= j1 < qs[i1].data@.len() && 0 <= i2 < qs.len() && 0
                        <= j2 < qs[i2].data@.len() && (i1 != i2 || j1 != j2) implies extents_apart(
                    #[trigger] qs[i1].data@[j1],
                    #[trigger] qs[i2].data@[j2],
                ) by {
                    assert(extents_apart(ps[i1].data@[j1], ps[i2].data@[j2]));
                }
                assert forall|i: int, j: int|
                    0 <= i < qs.len() && 0 <= j < qs[i].data@.len() implies 4096 <= (
                    #[trigger] qs[i].data@[j]).start by {
                    assert(4096 <= ps[i].data@[j].start);
                }
            }
        }
        Ok(())
    }
}

/// Every extent of `pre` is still in `post`, at the same place, with the
/// same used part.
pub open spec fn data_kept(pre: Seq<BucketState>, post: Seq<BucketState>) -> bool {
    &&& pre.len() <= post.len()
    &&& forall|i: int| 0 <= i < pre.len() ==> (#[trigger] post[i]).id == pre[i].id
    &&& forall|i: int, j: int|
        0 <= i < pre.len() && 0 <= j < pre[i].data@.len() ==> j < post[i].data@.len() && (
        #[trigger] post[i].data@[j]).start == pre[i].data@[j].start && post[i].data@[j].used
            == pre[i].data@[j].used
}

/// Extent number `j` of `data` starts where `e` starts and has at least as
/// much of it in use.
pub open spec fn extent_kept(e: Extent, data: Seq<Extent>, j: int) -> bool {
    j < data.len() && data[j].start == e.start && data[j].used >= e.used
}

/// Every extent of `pre` is still in `post`, at the same place in its
/// bucket and at the same start, with at least as much of it in use.
pub open spec fn used_kept(pre: Seq<BucketState>, post: Seq<BucketState>) -> bool {
    &&& pre.len() <= post.len()
    &&& forall|i: int, j: int|
        0 <= i < pre.len() && 0 <= j < pre[i].data@.len() ==> #[trigger] extent_kept(
            pre[i].data@[j],
            post[i].data@,
            j,
        )
}

proof fn lemma_data_kept_used_kept(pre: Seq<BucketState>, post: Seq<BucketState>)
    requires
        data_kept(pre, post),
    ensures
        used_kept(pre, post),
{
    assert forall|i: int, j: int| 0 <= i < pre.len() && 0 <= j < pre[i].data@.len() implies #[trigger] extent_kept(
        pre[i].data@[j],
        post[i].data@,
        j,
    ) by {
        assert(post[i].data@[j].start == pre[i].data@[j].start);
    }
}

/// Bytes `lo..hi` lie in the used part of an extent.
pub open spec fn in_used_part(states: Seq<BucketState>, lo: int, hi: int) -> bool {
    exists|i: int, j: int|
        0 <= i < states.len() && 0 <= j < states[i].data@.len() && (#[trigger] states[i].data@[j]).start
            <= lo && hi <= states[i].data@[j].start + states[i].data@[j].used
}

/// Used parts stay used from one placement to the next, so over any number
/// of them.
pub proof fn lemma_used_kept_chain(a: Seq<BucketState>, b: Seq<BucketState>, c: Seq<BucketState>)
    requires
        used_kept(a, b),
        used_kept(b, c),
    ensures
        used_kept(a, c),
{
    assert forall|i: int, j: int| 0 <= i < a.len() && 0 <= j < a[i].data@.len() implies #[trigger] extent_kept(
        a[i].data@[j],
        c[i].data@,
        j,
    ) by {
        assert(extent_kept(a[i].data@[j], b[i].data@, j));
        assert(extent_kept(b[i].data@[j], c[i].data@, j));
    }
}

/// Bytes once placed for a record are never placed again: bytes placed
/// later, apart from the used parts of every extent at that time, are
/// apart from the earlier record's bytes.
pub proof fn lemma_placed_bytes_stay_apart(
    earlier: Seq<BucketState>,
    later: Seq<BucketState>,
    lo1: int,
    hi1: int,
    lo2: int,
    hi2: int,
)
    requires
        in_used_part(earlier, lo1, hi1),
        used_kept(earlier, later),
        lo1 < hi1,
        forall|i: int, j: int|
            0 <= i < later.len() && 0 <= j < later[i].data@.len() ==> apart_from_used(
                #[trigger] later[i].data@[j],
                lo2,
                hi2,
            ),
    ensures
        hi1 <= lo2 || hi2 <= lo1 || lo2 == hi2,
{
    let (i, j) = choose|i: int, j: int|
        0 <= i < earlier.len() && 0 <= j < earlier[i].data@.len() && (
        #[trigger] earlier[i].data@[j]).start <= lo1 && hi1 <= earlier[i].data@[j].start
            + earlier[i].data@[j].used;
    assert(extent_kept(earlier[i].data@[j], later[i].data@, j));
    assert(apart_from_used(later[i].data@[j], lo2, hi2));
}

/// Sum of the used parts of some extents.
pub open spec fn sum_used(data: Seq<Extent>) -> int
    decreases data.len(),
{
    if data.len() == 0 {
        0
    } else {
        sum_used(data.drop_last()) + data.last().used
    }
}

/// Sum of the used parts of all data extents of some buckets.
pub open spec fn total_used(states: Seq<BucketState>) -> int
    decreases states.len(),
{
    if states.len() == 0 {
        0
    } else {
        total_used(states.drop_last()) + sum_used(states.last().data@)
    }
}

impl BucketPlacement {
    /// The index of `bucket`; a bucket seen for the first time gets a state
    /// with a data extent of at least `need` bytes and a region of record
    /// numbers.
    fn bucket_index(
        &mut self,
        config: &HeapConfig,
        bucket: u64,
        need: u64,
        effects: &mut Vec<PlacementEffect>,
    ) -> (res: Result<usize, HeapError>)
        requires
            old(self).wf(),
        ensures
            final(self).wf(),
            !old(self).bucket_indices@.contains_key(bucket) ==> (res is Err <==> old(self).states@.len()
                >= usize::MAX || new_bucket_grant_fails(
                old(self).states@,
                bucket,
                old(self).extent_grant_count as nat,
                need as int,
                config.growth as int,
                old(self).file_size as int,
                old(self).registry_end as int,
            ) || old(self).next_region + config.region_slots > u64::MAX || old(self).registry_end
                + 128 > u64::MAX),
            res is Ok && old(self).extents_disjoint() ==> final(self).extents_disjoint(),
            res is Ok && old(self).regions_disjoint() ==> final(self).regions_disjoint(),
            res is Ok ==> data_kept(old(self).states@, final(self).states@),
            res is Ok ==> forall|i: int|
                0 <= i < old(self).states@.len() ==> (#[trigger] final(self).states@[i]).slots@ == old(
                    self,
                ).states@[i].slots@,
            res matches Ok(b) ==> b < final(self).states@.len() && final(self).states@[b as int].id
                == bucket && final(self).bucket_indices@.contains_key(bucket)
                && final(self).bucket_indices@[bucket] == b,
            old(self).bucket_indices@.contains_key(bucket) ==> res == Ok::<usize, HeapError>(
                old(self).bucket_indices@[bucket],
            ) && final(self).states@ == old(self).states@ && final(self).bucket_indices@ == old(
                self,
            ).bucket_indices@ && final(self).extent_grant_count == old(self).extent_grant_count
                && final(self).file_size == old(self).file_size && final(self).next_region == old(
                self,
            ).next_region && final(self).registry_end == old(self).registry_end && final(effects)@
                == old(effects)@,
            !old(self).bucket_indices@.contains_key(bucket) ==> (res matches Ok(b) ==> {
                let nb = final(self).states@[b as int];
                &&& nb.data@.len() == 1
                &&& nb.data@[0].used == 0
                &&& old(self).extent_grant_count >= 1 ==> nb.data@[0].size >= need
                &&& nb.slots@.len() == 1
                &&& nb.slots@[0].used == 0
                &&& nb.slots@[0].size == config.region_slots
                &&& b == old(self).states@.len()
                &&& final(self).next_region == old(self).next_region + config.region_slots
                &&& nb.slots@[0].start == old(self).next_region
                &&& final(self).registry_end == old(self).registry_end + 128
                &&& exists|with_new: Seq<BucketState>|
                    #[trigger] with_empty_bucket(old(self).states@, with_new, bucket) && granted(
                        with_new,
                        old(self).file_size as int,
                        old(self).extent_grant_count as nat,
                        final(self).states@,
                        final(self).file_size as int,
                        final(self).extent_grant_count as nat,
                        b as int,
                        need as int,
                        config.growth as int,
                        0,
                    ) && final(effects)@ == old(effects)@ + grant_effects(
                        with_new,
                        old(self).file_size as int,
                        (final(self).extent_grant_count - 1) as nat,
                        need as int,
                        config.growth as int,
                        b as int,
                        old(self).registry_end,
                    ) + seq![
                        PlacementEffect::StageRow {
                            offset: (old(self).registry_end + 64) as u64,
                            row: RegistryRow {
                                kind: 0x53,
                                bucket,
                                start: old(self).next_region,
                                size: config.region_slots,
                            },
                        },
                    ]
            }),
    {
        if let Some(found) = self.bucket_indices.get(&bucket) {
            return Ok(*found);
        }
        if self.states.len() == usize::MAX {
            return Err(HeapError::InvalidArg("too many buckets"));
        }
        let bucket_index = self.states.len();
        let ghost pre = self.states@;
        self.states.push(BucketState { id: bucket, data: Vec::new(), slots: Vec::new() });
        self.bucket_indices.insert(bucket, bucket_index);
        proof {
            let qs = self.states@;
            assert forall|i: int| 0 <= i < qs.len() implies self.bucket_indices@.contains_key(
                #[trigger] qs[i].id,
            ) && self.bucket_indices@[qs[i].id] == i by {
                if i < pre.len() {
                    assert(old(self).bucket_indices@.contains_key(pre[i].id));
                }
            }
            assert forall|k: u64| #[trigger] self.bucket_indices@.contains_key(k) implies (
            self.bucket_indices@[k] as int) < qs.len() && qs[self.bucket_indices@[k] as int].id
                == k by {
                if k != bucket {
                    assert(old(self).bucket_indices@.contains_key(k));
                }
            }
            assert forall|i: int, j: int|
                0 <= i < qs.len() && 0 <= j < qs[i].data@.len() implies extent_fits(
                #[trigger] qs[i].data@[j],
                self.file_size as int,
            ) by {
                assert(qs[i].data@[j] == pre[i].data@[j]);
            }
            assert forall|i: int, j: int|
                0 <= i < qs.len() && 0 <= j < qs[i].slots@.len() implies extent_fits(
                #[trigger] qs[i].slots@[j],
                self.next_region as int,
            ) by {
                assert(qs[i].slots@[j] == pre[i].slots@[j]);
            }
            if old(self).extents_disjoint() {
                assert forall|i1: int, j1: int, i2: int, j2: int|
                    0 <= i1 < qs.len() && 0 <= j1 < qs[i1].data@.len() && 0 <= i2 < qs.len() && 0
                        <= j2 < qs[i2].data@.len() && (i1 != i2 || j1 != j2) implies extents_apart(
                    #[trigger] qs[i1].data@[j1],
                    #[trigger] qs[i2].data@[j2],
                ) by {
                    assert(extents_apart(pre[i1].data@[j1], pre[i2].data@[j2]));
                }
                assert forall|i: int, j: int|
                    0 <= i < qs.len() && 0 <= j < qs[i].data@.len() implies 4096 <= (
                    #[trigger] qs[i].data@[j]).start by {
                    assert(4096 <= pre[i].data@[j].start);
                }
            }
            if old(self).regions_disjoint() {
                assert forall|i1: int, j1: int, i2: int, j2: int|
                    0 <= i1 < qs.len() && 0 <= j1 < qs[i1].slots@.len() && 0 <= i2 < qs.len() && 0
                        <= j2 < qs[i2].slots@.len() && (i1 != i2 || j1 != j2) implies extents_apart(
                    #[trigger] qs[i1].slots@[j1],
                    #[trigger] qs[i2].slots@[j2],
                ) by {
                    assert(extents_apart(pre[i1].slots@[j1], pre[i2].slots@[j2]));
                }
            }
        }
        let ghost mid = self.states@;
        let ghost mid_size = self.file_size;
        let ghost mid_effects = effects@;
        proof {
            assert(mid.drop_last() =~= old(self).states@);
        }
        let ghost mid_count = self.extent_grant_count;
        let ghost mid_end = self.registry_end;
        let granted_first = self.grant_extent(config.growth, bucket_index, need, effects);
        proof {
            assert(with_empty_bucket(old(self).states@, mid, bucket));
            assert forall|w: Seq<BucketState>, h: nat|
                #[trigger] with_empty_bucket(old(self).states@, w, bucket) && #[trigger] grant_ends_in_error(
                    w,
                    mid_count as nat,
                    h,
                    need as int,
                    config.growth as int,
                    mid_size as int,
                    mid_end as int,
                ) implies grant_ends_in_error(
                mid,
                mid_count as nat,
                h,
                need as int,
                config.growth as int,
                mid_size as int,
                mid_end as int,
            ) by {
                lemma_with_empty_bucket_same_data(old(self).states@, w, mid, bucket);
                lemma_same_data_same_failures(
                    w,
                    mid,
                    mid_count as nat,
                    need as int,
                    config.growth as int,
                    mid_size as int,
                    mid_end as int,
                );
            }
        }
        if granted_first.is_err() {
            proof {
                let h = choose|h: nat|
                    #[trigger] grant_ends_in_error(
                        mid,
                        mid_count as nat,
                        h,
                        need as int,
                        config.growth as int,
                        mid_size as int,
                        mid_end as int,
                    );
                assert(with_empty_bucket(old(self).states@, mid, bucket) && grant_ends_in_error(
                    mid,
                    mid_count as nat,
                    h,
                    need as int,
                    config.growth as int,
                    mid_size as int,
                    mid_end as int,
                ));
            }
            return Err(granted_first.unwrap_err());
        }
        proof {
            let g = (self.extent_grant_count - 1) as nat;
            let e = granted_extent(mid, mid_size as int, g, need as int, config.growth as int);
            assert(Extent { used: 0u64, ..e } == e);
            assert(mid[bucket_index as int].data@.len() == 0);
            assert(self.states@[bucket_index as int].data@ == data_after_grant(
                mid,
                g,
                need as int,
                bucket_index as int,
                bucket_index as int,
                e,
            ));
            if old(self).extent_grant_count >= 1 {
                lemma_section_base_next(g);
                assert(e.size >= need);
            }
            assert(self.states@[bucket_index as int].data@ =~= seq![e]);
        }
        let ghost mid2 = self.states@;
        self.grant_region(config, bucket_index, effects)?;
        proof {
            let qs = self.states@;
            assert forall|i: int, j: int|
                0 <= i < pre.len() && 0 <= j < pre[i].data@.len() implies j < qs[i].data@.len() && (
                #[trigger] qs[i].data@[j]).start == pre[i].data@[j].start && qs[i].data@[j].used
                    == pre[i].data@[j].used by {
                assert(mid[i].data@[j] == pre[i].data@[j]);
                assert(qs[i].data@ == mid2[i].data@);
            }
            assert forall|i: int| 0 <= i < pre.len() implies (#[trigger] qs[i]).slots@ == pre[i].slots@ by {
                assert(mid[i].slots@ == pre[i].slots@);
            }
            assert forall|i: int| 0 <= i < mid.len() implies (#[trigger] qs[i]).data@ == mid2[i].data@ by {}
            assert(with_empty_bucket(old(self).states@, mid, bucket));
        }
        Ok(bucket_index)
    }
}

impl BucketPlacement {
    /// Places `total_len` bytes at the end of the used part of the bucket's
    /// last extent, or, when they do not fit there, at the start of a newly
    /// granted extent.
    fn place_bytes(
        &mut self,
        config: &HeapConfig,
        bucket_index: usize,
        total_len: u64,
        effects: &mut Vec<PlacementEffect>,
    ) -> (res: Result<u64, HeapError>)
        requires
            old(self).wf(),
            bucket_index < old(self).states@.len(),
        ensures
            final(self).wf(),
            res is Err <==> placing_fails(
                old(self).states@,
                old(self).extent_grant_count as nat,
                old(self).file_size as int,
                old(self).registry_end as int,
                bucket_index as int,
                total_len as int,
                config.min_extent as int,
                config.growth as int,
            ),
            final(self).states@.len() == old(self).states@.len(),
            final(self).bucket_indices@ == old(self).bucket_indices@,
            final(self).next_region == old(self).next_region,
            forall|i: int|
                0 <= i < old(self).states@.len() ==> (#[trigger] final(self).states@[i]).id == old(
                    self,
                ).states@[i].id && final(self).states@[i].slots@ == old(self).states@[i].slots@,
            res is Ok && old(self).extents_disjoint() ==> final(self).extents_disjoint(),
            res is Ok ==> used_kept(old(self).states@, final(self).states@),
            res matches Ok(offset) ==> {
                let e = last_extent(final(self).states@[bucket_index as int]);
                &&& final(self).states@[bucket_index as int].data@.len() > 0
                &&& e.start <= offset
                &&& offset + total_len == e.start + e.used
            },
            res matches Ok(offset) ==> (old(self).extents_disjoint() ==> forall|i: int, j: int|
                0 <= i < old(self).states@.len() && 0 <= j < old(self).states@[i].data@.len()
                    ==> apart_from_used(
                    #[trigger] old(self).states@[i].data@[j],
                    offset as int,
                    offset + total_len,
                )),
            ({
                let d = old(self).states@[bucket_index as int].data@;
                d.len() > 0 && total_len <= d.last().size - d.last().used ==> {
                    &&& res == Ok::<u64, HeapError>((d.last().start + d.last().used) as u64)
                    &&& final(self).states@[bucket_index as int].data@ == d.update(
                        d.len() - 1,
                        Extent { used: (d.last().used + total_len) as u64, ..d.last() },
                    )
                    &&& forall|i: int|
                        0 <= i < old(self).states@.len() && i != bucket_index
                            ==> (#[trigger] final(self).states@[i]).data@ == old(self).states@[i].data@
                    &&& final(self).extent_grant_count == old(self).extent_grant_count
                    &&& final(self).file_size == old(self).file_size
                    &&& final(self).registry_end == old(self).registry_end
                    &&& final(effects)@ == old(effects)@
                }
            }),
            ({
                let d = old(self).states@[bucket_index as int].data@;
                !(d.len() > 0 && total_len <= d.last().size - d.last().used) ==> (res matches Ok(
                    offset,
                ) ==> {
                    let f = final(self).states@[bucket_index as int].data@;
                    &&& f.len() == d.len() + 1
                    &&& offset == f.last().start
                    &&& f.last().used == total_len
                    &&& f.last().size >= spec_required_extent_size(
                        config.min_extent as int,
                        total_len as int,
                    )
                    &&& granted(
                        old(self).states@,
                        old(self).file_size as int,
                        old(self).extent_grant_count as nat,
                        final(self).states@,
                        final(self).file_size as int,
                        final(self).extent_grant_count as nat,
                        bucket_index as int,
                        spec_required_extent_size(config.min_extent as int, total_len as int),
                        config.growth as int,
                        total_len as int,
                    )
                    &&& final(self).registry_end == old(self).registry_end + 64
                    &&& final(effects)@ == old(effects)@ + grant_effects(
                        old(self).states@,
                        old(self).file_size as int,
                        (final(self).extent_grant_count - 1) as nat,
                        spec_required_extent_size(config.min_extent as int, total_len as int),
                        config.growth as int,
                        bucket_index as int,
                        old(self).registry_end,
                    )
                })
            }),
    {
        let dlen = self.states[bucket_index].data.len();
        if dlen == 0 {
            return Err(HeapError::Corrupt { what: "bucket without extent", offset: 0 });
        }
        let extent = self.states[bucket_index].data[dlen - 1];
        proof {
            assert(extent_fits(self.states@[bucket_index as int].data@[dlen - 1], self.file_size as int));
        }
        if total_len <= extent.size - extent.used {
            let offset = extent.start + extent.used;
            let ghost pre = self.states@;
            self.states[bucket_index].data[dlen - 1].used = extent.used + total_len;
            proof {
                let qs = self.states@;
                assert forall|i: int, j: int|
                    0 <= i < qs.len() && 0 <= j < qs[i].data@.len() implies extent_fits(
                    #[trigger] qs[i].data@[j],
                    self.file_size as int,
                ) by {
                    assert(extent_fits(pre[i].data@[j], self.file_size as int));
                }
                assert forall|i: int, j: int|
                    0 <= i < qs.len() && 0 <= j < qs[i].slots@.len() implies extent_fits(
                    #[trigger] qs[i].slots@[j],
                    self.next_region as int,
                ) by {
                    assert(qs[i].slots@[j] == pre[i].slots@[j]);
                }
                if old(self).extents_disjoint() {
                    lemma_used_change_keeps_disjoint(pre, qs);
                    assert forall|i: int, j: int|
                        0 <= i < pre.len() && 0 <= j < pre[i].data@.len() implies apart_from_used(
                        #[trigger] pre[i].data@[j],
                        offset as int,
                        offset + total_len,
                    ) by {
                        if i != bucket_index || j != dlen - 1 {
                            assert(extents_apart(pre[i].data@[j], pre[bucket_index as int].data@[dlen - 1]));
                            assert(extent_fits(pre[i].data@[j], self.file_size as int));
                        }
                    }
                }
            }
            return Ok(offset);
        }
        let need = required_extent_size(config, total_len)?;
        let ghost pre = self.states@;
        let ghost count0 = self.extent_grant_count;
        let granted_now = self.grant_extent(config.growth, bucket_index, need, effects);
        if granted_now.is_err() {
            return Err(granted_now.unwrap_err());
        }
        proof {
            let g = (self.extent_grant_count - 1) as nat;
            assert(count0 >= 1);
            let e = granted_extent(pre, old(self).file_size as int, g, need as int, config.growth as int);
            assert(self.states@[bucket_index as int].data@ == data_after_grant(pre, g, need as int, bucket_index as int, bucket_index as int, e));
            if g >= 1 {
                lemma_section_base_next(g);
            }
            assert(e.size >= need);
            assert(need >= spec_page_up(total_len as int));
        }
        let dlen = self.states[bucket_index].data.len();
        let ghost mid = self.states@;
        let ghost mid_self_disjoint = self.extents_disjoint();
        self.states[bucket_index].data[dlen - 1].used = total_len;
        let start = self.states[bucket_index].data[dlen - 1].start;
        proof {
            let qs = self.states@;
            let g = (self.extent_grant_count - 1) as nat;
            let e = granted_extent(pre, old(self).file_size as int, g, need as int, config.growth as int);
            let e_used = Extent { used: total_len, ..e };
            assert forall|i: int| 0 <= i < pre.len() implies (#[trigger] qs[i]).data@ == data_after_grant(
                pre,
                g,
                need as int,
                i,
                bucket_index as int,
                e_used,
            ) by {
                if i == bucket_index {
                    assert(qs[i].data@ =~= data_after_grant(pre, g, need as int, i, bucket_index as int, e_used));
                } else {
                    assert(qs[i].data@ == mid[i].data@);
                }
            }
            assert forall|i: int, j: int|
                0 <= i < qs.len() && 0 <= j < qs[i].data@.len() implies extent_fits(
                #[trigger] qs[i].data@[j],
                self.file_size as int,
            ) by {
                assert(extent_fits(mid[i].data@[j], self.file_size as int));
            }
            assert forall|i: int, j: int|
                0 <= i < qs.len() && 0 <= j < qs[i].slots@.len() implies extent_fits(
                #[trigger] qs[i].slots@[j],
                self.next_region as int,
            ) by {
                assert(qs[i].slots@[j] == mid[i].slots@[j]);
            }
            if old(self).extents_disjoint() {
                lemma_used_change_keeps_disjoint(mid, qs);
                assert forall|i: int, j: int|
                    0 <= i < pre.len() && 0 <= j < pre[i].data@.len() implies apart_from_used(
                    #[trigger] pre[i].data@[j],
                    start as int,
                    start + total_len,
                ) by {
                    assert(j < mid[i].data@.len());
                    assert(mid[i].data@[j].start == pre[i].data@[j].start);
                    assert(mid[i].data@[j].used == pre[i].data@[j].used);
                    assert(extent_fits(mid[i].data@[j], self.file_size as int));
                    if i == bucket_index {
                        assert(j < dlen - 1);
                    }
                    assert(extents_apart(mid[i].data@[j], mid[bucket_index as int].data@[dlen - 1]));
                }
            }
        }
        Ok(start)
    }
}

/// Changing how much of some extents is used keeps them apart.
proof fn lemma_used_change_keeps_disjoint(pre: Seq<BucketState>, post: Seq<BucketState>)
    requires
        pre.len() == post.len(),
        forall|i: int| 0 <= i < pre.len() ==> (#[trigger] post[i]).data@.len() == pre[i].data@.len(),
        forall|i: int, j: int|
            0 <= i < pre.len() && 0 <= j < pre[i].data@.len() ==> (#[trigger] post[i].data@[j]).start
                == pre[i].data@[j].start && post[i].data@[j].size == pre[i].data@[j].size,
        forall|i: int, j: int|
            0 <= i < pre.len() && 0 <= j < pre[i].data@.len() ==> 4096 <= (
            #[trigger] pre[i].data@[j]).start,
        forall|i1: int, j1: int, i2: int, j2: int|
            0 <= i1 < pre.len() && 0 <= j1 < pre[i1].data@.len() && 0 <= i2 < pre.len() && 0 <= j2
                < pre[i2].data@.len() && (i1 != i2 || j1 != j2) ==> extents_apart(
                #[trigger] pre[i1].data@[j1],
                #[trigger] pre[i2].data@[j2],
            ),
    ensures
        forall|i: int, j: int|
            0 <= i < post.len() && 0 <= j < post[i].data@.len() ==> 4096 <= (
            #[trigger] post[i].data@[j]).start,
        forall|i1: int, j1: int, i2: int, j2: int|
            0 <= i1 < post.len() && 0 <= j1 < post[i1].data@.len() && 0 <= i2 < post.len() && 0
                <= j2 < post[i2].data@.len() && (i1 != i2 || j1 != j2) ==> extents_apart(
                #[trigger] post[i1].data@[j1],
                #[trigger] post[i2].data@[j2],
            ),
{
    assert forall|i: int, j: int|
        0 <= i < post.len() && 0 <= j < post[i].data@.len() implies 4096 <= (
        #[trigger] post[i].data@[j]).start by {
        assert(4096 <= pre[i].data@[j].start);
    }
    assert forall|i1: int, j1: int, i2: int, j2: int|
        0 <= i1 < post.len() && 0 <= j1 < post[i1].data@.len() && 0 <= i2 < post.len() && 0 <= j2
            < post[i2].data@.len() && (i1 != i2 || j1 != j2) implies extents_apart(
        #[trigger] post[i1].data@[j1],
        #[trigger] post[i2].data@[j2],
    ) by {
        assert(extents_apart(pre[i1].data@[j1], pre[i2].data@[j2]));
    }
}

/// What a grant left stays as it was when only the regions change.
proof fn lemma_granted_same_data(
    pre: Seq<BucketState>,
    pre_file: int,
    pre_count: nat,
    mid: Seq<BucketState>,
    post: Seq<BucketState>,
    post_file: int,
    post_count: nat,
    b: int,
    need: int,
    growth: int,
    used: int,
)
    requires
        granted(pre, pre_file, pre_count, mid, post_file, post_count, b, need, growth, used),
        post.len() == mid.len(),
        forall|i: int| 0 <= i < mid.len() ==> (#[trigger] post[i]).data@ == mid[i].data@,
    ensures
        granted(pre, pre_file, pre_count, post, post_file, post_count, b, need, growth, used),
{
}

/// A bucket that had no extent gets the granted extent as its only one;
/// placing the first `total_len` bytes in it leaves what the grant gave with
/// those bytes in use.
proof fn lemma_granted_first_record(
    pre: Seq<BucketState>,
    pre_file: int,
    pre_count: nat,
    mid: Seq<BucketState>,
    post: Seq<BucketState>,
    file: int,
    count: nat,
    b: int,
    need: int,
    growth: int,
    total_len: int,
)
    requires
        granted(pre, pre_file, pre_count, mid, file, count, b, need, growth, 0),
        0 <= b < pre.len(),
        pre[b].data@.len() == 0,
        post.len() == mid.len(),
        post[b].data@ == mid[b].data@.update(0, Extent { used: total_len as u64, ..mid[b].data@[0] }),
        forall|i: int| 0 <= i < mid.len() && i != b ==> (#[trigger] post[i]).data@ == mid[i].data@,
        0 <= total_len <= u64::MAX,
    ensures
        mid[b].data@ == seq![granted_extent(pre, pre_file, (count - 1) as nat, need, growth)],
        granted(pre, pre_file, pre_count, post, file, count, b, need, growth, total_len),
{
    let g = (count - 1) as nat;
    let e = granted_extent(pre, pre_file, g, need, growth);
    assert(Extent { used: 0u64, ..e } == e);
    assert(mid[b].data@ == data_after_grant(pre, g, need, b, b, e));
    assert(pre[b].data@ =~= Seq::<Extent>::empty());
    assert(mid[b].data@ =~= seq![e]);
    let e_used = Extent { used: total_len as u64, ..e };
    assert(post[b].data@ =~= data_after_grant(pre, g, need, b, b, e_used));
    assert forall|i: int| 0 <= i < pre.len() implies (#[trigger] post[i]).data@ == data_after_grant(
        pre,
        g,
        need,
        i,
        b,
        e_used,
    ) by {
        if i != b {
            assert(post[i].data@ == mid[i].data@);
        }
    }
}

/// The last region of record numbers of a bucket.
pub open spec fn last_region(st: BucketState) -> Extent {
    st.slots@.last()
}

impl BucketPlacement {
    /// Places a record of `total_len` bytes in `bucket` and gives it a
    /// record number: the bytes go to the end of the used part of the
    /// bucket's last extent (or a newly granted one), the number is the next
    /// one of the bucket's last region (or the first of a new region).
    /// The outside work that this asks for is appended to `effects`.
    #[verifier::rlimit(80)]
    pub fn alloc_record(
        &mut self,
        config: &HeapConfig,
        bucket: u64,
        total_len: u64,
        effects: &mut Vec<PlacementEffect>,
    ) -> (res: Result<(u64, u64), HeapError>)
        requires
            old(self).wf(),
            config.region_slots >= 1,
        ensures
            final(self).wf(),
            res is Err <==> record_fails(
                *old(self),
                bucket,
                total_len as int,
                config.min_extent as int,
                config.growth as int,
                config.region_slots as int,
            ),
            res is Ok && old(self).extents_disjoint() ==> final(self).extents_disjoint(),
            res is Ok && old(self).regions_disjoint() ==> final(self).regions_disjoint(),
            res is Ok ==> used_kept(old(self).states@, final(self).states@),
            res matches Ok((offset, id)) ==> in_used_part(
                final(self).states@,
                offset as int,
                offset + total_len,
            ),
            res matches Ok((offset, id)) ==> {
                let b = final(self).bucket_indices@[bucket] as int;
                let e = last_extent(final(self).states@[b]);
                let r = last_region(final(self).states@[b]);
                &&& final(self).bucket_indices@.contains_key(bucket)
                &&& final(self).states@[b].id == bucket
                &&& final(self).states@[b].data@.len() > 0
                &&& final(self).states@[b].slots@.len() > 0
                &&& e.start <= offset
                &&& offset + total_len == e.start + e.used
                &&& id + 1 == r.start + r.used
            },
            res matches Ok((offset, id)) ==> (old(self).extents_disjoint() ==> forall|i: int, j: int|
                0 <= i < old(self).states@.len() && 0 <= j < old(self).states@[i].data@.len()
                    ==> apart_from_used(
                    #[trigger] old(self).states@[i].data@[j],
                    offset as int,
                    offset + total_len,
                )),
            res matches Ok((offset, id)) ==> (old(self).regions_disjoint() ==> forall|i: int, j: int|
                0 <= i < old(self).states@.len() && 0 <= j < old(self).states@[i].slots@.len()
                    ==> apart_from_used(
                    #[trigger] old(self).states@[i].slots@[j],
                    id as int,
                    id + 1,
                )),
            ({
                let b = old(self).bucket_indices@[bucket] as int;
                let d = old(self).states@[b].data@;
                let rs = old(self).states@[b].slots@;
                old(self).bucket_indices@.contains_key(bucket) && d.len() > 0 && total_len
                    <= d.last().size - d.last().used && rs.len() > 0 && rs.last().used
                    < rs.last().size ==> {
                    &&& res == Ok::<(u64, u64), HeapError>(
                        (
                            (d.last().start + d.last().used) as u64,
                            (rs.last().start + rs.last().used) as u64,
                        ),
                    )
                    &&& final(effects)@ == old(effects)@
                }
            }),
            res matches Ok((offset, id)) ==> {
                let b = final(self).bucket_indices@[bucket] as int;
                let fd = final(self).states@[b].data@;
                let fr = final(self).states@[b].slots@;
                let known = old(self).bucket_indices@.contains_key(bucket);
                let ob = old(self).bucket_indices@[bucket] as int;
                let od = if known {
                    old(self).states@[ob].data@
                } else {
                    Seq::<Extent>::empty()
                };
                let orr = if known {
                    old(self).states@[ob].slots@
                } else {
                    Seq::<Extent>::empty()
                };
                &&& !(od.len() > 0 && total_len <= od.last().size - od.last().used) ==> offset
                    == fd.last().start && fd.last().used == total_len
                &&& !(orr.len() > 0 && orr.last().used < orr.last().size) ==> fr.len() == orr.len()
                    + 1 && id == fr.last().start && fr.last().used == 1
                &&& known && !(od.len() > 0 && total_len <= od.last().size - od.last().used)
                    ==> granted(
                    old(self).states@,
                    old(self).file_size as int,
                    old(self).extent_grant_count as nat,
                    final(self).states@,
                    final(self).file_size as int,
                    final(self).extent_grant_count as nat,
                    ob,
                    spec_required_extent_size(config.min_extent as int, total_len as int),
                    config.growth as int,
                    total_len as int,
                )
            },
            ({
                let ob = old(self).bucket_indices@[bucket] as int;
                let d = old(self).states@[ob].data@;
                let rs = old(self).states@[ob].slots@;
                let need = spec_required_extent_size(config.min_extent as int, total_len as int);
                let fits = d.len() > 0 && total_len <= d.last().size - d.last().used;
                let room = rs.len() > 0 && rs.last().used < rs.last().size;
                let g = (final(self).extent_grant_count - 1) as nat;
                let e = granted_extent(
                    old(self).states@,
                    old(self).file_size as int,
                    g,
                    need,
                    config.growth as int,
                );
                let mid_end = if fits {
                    old(self).registry_end as int
                } else {
                    old(self).registry_end + 64
                };
                old(self).bucket_indices@.contains_key(bucket) ==> (res matches Ok((offset, id)) ==> {
                    &&& final(self).bucket_indices@ == old(self).bucket_indices@
                    &&& final(self).states@.len() == old(self).states@.len()
                    &&& forall|i: int|
                        0 <= i < old(self).states@.len() ==> (#[trigger] final(self).states@[i]).id
                            == old(self).states@[i].id
                    &&& forall|i: int|
                        0 <= i < old(self).states@.len() && i != ob ==> (
                        #[trigger] final(self).states@[i]).slots@ == old(self).states@[i].slots@
                    &&& final(self).states@[ob].slots@ == if room {
                        rs.update(rs.len() - 1, Extent { used: (rs.last().used + 1) as u64, ..rs.last() })
                    } else {
                        rs.push(
                            Extent { start: old(self).next_region, size: config.region_slots, used: 1 },
                        )
                    }
                    &&& fits ==> {
                        &&& final(self).states@[ob].data@ == d.update(
                            d.len() - 1,
                            Extent { used: (d.last().used + total_len) as u64, ..d.last() },
                        )
                        &&& forall|i: int|
                            0 <= i < old(self).states@.len() && i != ob ==> (
                            #[trigger] final(self).states@[i]).data@ == old(self).states@[i].data@
                        &&& final(self).file_size == old(self).file_size
                        &&& final(self).extent_grant_count == old(self).extent_grant_count
                    }
                    &&& offset == if fits {
                        d.last().start + d.last().used
                    } else {
                        e.start as int
                    }
                    &&& id == if room {
                        rs.last().start + rs.last().used
                    } else {
                        old(self).next_region as int
                    }
                    &&& final(self).next_region == if room {
                        old(self).next_region as int
                    } else {
                        old(self).next_region + config.region_slots
                    }
                    &&& final(self).registry_end == mid_end + if room {
                        0int
                    } else {
                        64int
                    }
                    &&& final(effects)@ == old(effects)@ + (if fits {
                        Seq::empty()
                    } else {
                        grant_effects(
                            old(self).states@,
                            old(self).file_size as int,
                            g,
                            need,
                            config.growth as int,
                            ob,
                            old(self).registry_end,
                        )
                    }) + (if room {
                        Seq::empty()
                    } else {
                        seq![
                            PlacementEffect::StageRow {
                                offset: mid_end as u64,
                                row: RegistryRow {
                                    kind: 0x53,
                                    bucket,
                                    start: old(self).next_region,
                                    size: config.region_slots,
                                },
                            },
                        ]
                    })
                })
            }),
            ({
                let b = old(self).states@.len() as int;
                let need = spec_required_extent_size(config.min_extent as int, total_len as int);
                !old(self).bucket_indices@.contains_key(bucket) && (old(self).extent_grant_count >= 1
                    || total_len + 4096 <= old(self).file_size) ==> (res matches Ok((offset, id)) ==> {
                    &&& final(self).states@.len() == b + 1
                    &&& final(self).states@[b].id == bucket
                    &&& forall|i: int|
                        0 <= i < b ==> (#[trigger] final(self).states@[i]).id == old(self).states@[i].id
                            && final(self).states@[i].slots@ == old(self).states@[i].slots@
                    &&& final(self).states@[b].slots@ == seq![
                        Extent { start: old(self).next_region, size: config.region_slots, used: 1 },
                    ]
                    &&& id == old(self).next_region
                    &&& final(self).next_region == old(self).next_region + config.region_slots
                    &&& final(self).registry_end == old(self).registry_end + 128
                    &&& exists|with_new: Seq<BucketState>|
                        #[trigger] with_empty_bucket(old(self).states@, with_new, bucket) && granted(
                            with_new,
                            old(self).file_size as int,
                            old(self).extent_grant_count as nat,
                            final(self).states@,
                            final(self).file_size as int,
                            final(self).extent_grant_count as nat,
                            b,
                            need,
                            config.growth as int,
                            total_len as int,
                        ) && offset == granted_extent(
                            with_new,
                            old(self).file_size as int,
                            (final(self).extent_grant_count - 1) as nat,
                            need,
                            config.growth as int,
                        ).start && final(effects)@ == old(effects)@ + grant_effects(
                            with_new,
                            old(self).file_size as int,
                            (final(self).extent_grant_count - 1) as nat,
                            need,
                            config.growth as int,
                            b,
                            old(self).registry_end,
                        ) + seq![
                            PlacementEffect::StageRow {
                                offset: (old(self).registry_end + 64) as u64,
                                row: RegistryRow {
                                    kind: 0x53,
                                    bucket,
                                    start: old(self).next_region,
                                    size: config.region_slots,
                                },
                            },
                        ]
                })
            }),
    {
        let ghost op = *old(self);
        proof {
            if op.bucket_indices@.contains_key(bucket) {
                lemma_record_fails_known(
                    op,
                    bucket,
                    total_len as int,
                    config.min_extent as int,
                    config.growth as int,
                    config.region_slots as int,
                );
            } else {
                lemma_record_fails_new(
                    op,
                    bucket,
                    total_len as int,
                    config.min_extent as int,
                    config.growth as int,
                    config.region_slots as int,
                );
            }
        }
        let need = match required_extent_size(config, total_len) {
            Ok(need) => need,
            Err(error) => {
                return Err(error);
            },
        };
        let ghost pre = self.states@;
        let bucket_index = match self.bucket_index(config, bucket, need, effects) {
            Ok(found) => found,
            Err(error) => {
                return Err(error);
            },
        };
        let ghost mid = self.states@;
        let ghost mid_disjoint = self.extents_disjoint();
        let ghost known = old(self).bucket_indices@.contains_key(bucket);
        let ghost first_fits = !known && (old(self).extent_grant_count >= 1 || total_len + 4096
            <= old(self).file_size);
        let ghost mid_file = self.file_size;
        let ghost mid_count = self.extent_grant_count;
        let ghost mid_end = self.registry_end;
        let ghost mid_effects = effects@;
        let ghost with_new: Seq<BucketState> = choose|w: Seq<BucketState>|
            with_empty_bucket(pre, w, bucket) && granted(
                w,
                old(self).file_size as int,
                old(self).extent_grant_count as nat,
                mid,
                mid_file as int,
                mid_count as nat,
                bucket_index as int,
                need as int,
                config.growth as int,
                0,
            ) && mid_effects == old(effects)@ + grant_effects(
                w,
                old(self).file_size as int,
                (mid_count - 1) as nat,
                need as int,
                config.growth as int,
                bucket_index as int,
                old(self).registry_end,
            ) + seq![
                PlacementEffect::StageRow {
                    offset: (old(self).registry_end + 64) as u64,
                    row: RegistryRow {
                        kind: 0x53,
                        bucket,
                        start: old(self).next_region,
                        size: config.region_slots,
                    },
                },
            ];
        proof {
            if first_fits {
                let g = (mid_count - 1) as nat;
                let e = granted_extent(with_new, old(self).file_size as int, g, need as int, config.growth as int);
                assert(Extent { used: 0u64, ..e } == e);
                assert(mid[bucket_index as int].data@ == data_after_grant(
                    with_new,
                    g,
                    need as int,
                    bucket_index as int,
                    bucket_index as int,
                    e,
                ));
                assert(with_new[bucket_index as int].data@ =~= Seq::<Extent>::empty());
                assert(mid[bucket_index as int].data@ =~= seq![e]);
                crate::format::lemma_page_up_bounds(total_len as int);
                if old(self).extent_grant_count == 0 {
                    assert(!grant_fails(with_new, 0, need as int));
                    assert(g == 0);
                }
                assert(total_len <= e.size);
            }
        }
        proof {
            if !known && !first_fits {
                let e = granted_extent(with_new, op.file_size as int, 0, need as int, config.growth as int);
                assert(!grant_fails(with_new, 0, need as int));
                assert(mid_count == 1);
                assert(Extent { used: 0u64, ..e } == e);
                assert forall|i: int| 0 <= i < pre.len() implies #[trigger] mid[i].data@ == pre[i].data@ by {
                    assert(mid[i].data@ == data_after_grant(with_new, 0, need as int, i, bucket_index as int, e));
                    assert(with_new[i] == with_new.drop_last()[i]);
                }
                assert(mid[bucket_index as int].data@ == data_after_grant(
                    with_new,
                    0,
                    need as int,
                    bucket_index as int,
                    bucket_index as int,
                    e,
                ));
                assert(with_new[bucket_index as int].data@ =~= Seq::<Extent>::empty());
                assert(mid[bucket_index as int].data@ =~= seq![e]);
                assert(with_first_extent(pre, mid, op.file_size as int));
                assert forall|w: Seq<BucketState>| #[trigger] with_first_extent(pre, w, op.file_size as int) implies same_data(
                    w,
                    mid,
                ) by {
                    assert forall|i: int| 0 <= i < w.len() implies #[trigger] w[i].data@ == mid[i].data@ by {
                        if i < pre.len() {
                            assert(w[i].data@ == pre[i].data@);
                        }
                    }
                }
                assert forall|w: Seq<BucketState>| #[trigger] with_first_extent(pre, w, op.file_size as int) implies placing_fails(
                    w,
                    1,
                    op.file_size as int,
                    op.registry_end + 128,
                    pre.len() as int,
                    total_len as int,
                    config.min_extent as int,
                    config.growth as int,
                ) == placing_fails(
                    mid,
                    1,
                    op.file_size as int,
                    op.registry_end + 128,
                    pre.len() as int,
                    total_len as int,
                    config.min_extent as int,
                    config.growth as int,
                ) by {
                    lemma_same_data_same_placing(
                        w,
                        mid,
                        1,
                        op.file_size as int,
                        op.registry_end + 128,
                        pre.len() as int,
                        total_len as int,
                        config.min_extent as int,
                        config.growth as int,
                    );
                }
            }
        }
        let placed = self.place_bytes(config, bucket_index, total_len, effects);
        if placed.is_err() {
            return Err(placed.unwrap_err());
        }
        let offset = placed.unwrap();
        let ghost mid2 = self.states@;
        proof {
            if first_fits {
                lemma_granted_first_record(
                    with_new,
                    old(self).file_size as int,
                    old(self).extent_grant_count as nat,
                    mid,
                    mid2,
                    mid_file as int,
                    mid_count as nat,
                    bucket_index as int,
                    need as int,
                    config.growth as int,
                    total_len as int,
                );
            }
        }
        let rlen = self.states[bucket_index].slots.len();
        if rlen == 0 {
            return Err(HeapError::Corrupt { what: "bucket without region", offset: 0 });
        }
        let region = self.states[bucket_index].slots[rlen - 1];
        proof {
            assert(extent_fits(mid2[bucket_index as int].slots@[rlen - 1], self.next_region as int));
            if old(self).extents_disjoint() {
                assert forall|i: int, j: int|
                    0 <= i < pre.len() && 0 <= j < pre[i].data@.len() implies apart_from_used(
                    #[trigger] pre[i].data@[j],
                    offset as int,
                    offset + total_len,
                ) by {
                    assert(mid[i].data@[j].start == pre[i].data@[j].start);
                    assert(j < mid[i].data@.len());
                    assert(apart_from_used(mid[i].data@[j], offset as int, offset + total_len));
                }
            }
        }
        let ghost placed_file = self.file_size;
        let ghost placed_count = self.extent_grant_count;
        let id = if region.used < region.size {
            let ghost before = self.states@;
            self.states[bucket_index].slots[rlen - 1].used = region.used + 1;
            proof {
                let qs = self.states@;
                assert forall|i: int, j: int|
                    0 <= i < qs.len() && 0 <= j < qs[i].slots@.len() implies extent_fits(
                    #[trigger] qs[i].slots@[j],
                    self.next_region as int,
                ) by {
                    assert(extent_fits(before[i].slots@[j], self.next_region as int));
                }
                assert forall|i: int, j: int|
                    0 <= i < qs.len() && 0 <= j < qs[i].data@.len() implies extent_fits(
                    #[trigger] qs[i].data@[j],
                    self.file_size as int,
                ) by {
                    assert(qs[i].data@[j] == before[i].data@[j]);
                }
                if old(self).extents_disjoint() {
                    assert forall|i1: int, j1: int, i2: int, j2: int|
                        0 <= i1 < qs.len() && 0 <= j1 < qs[i1].data@.len() && 0 <= i2 < qs.len() && 0
                            <= j2 < qs[i2].data@.len() && (i1 != i2 || j1 != j2) implies extents_apart(
                        #[trigger] qs[i1].data@[j1],
                        #[trigger] qs[i2].data@[j2],
                    ) by {
                        assert(extents_apart(before[i1].data@[j1], before[i2].data@[j2]));
                    }
                    assert forall|i: int, j: int|
                        0 <= i < qs.len() && 0 <= j < qs[i].data@.len() implies 4096 <= (
                        #[trigger] qs[i].data@[j]).start by {
                        assert(4096 <= before[i].data@[j].start);
                    }
                }
                if old(self).regions_disjoint() {
                    assert forall|i1: int, j1: int, i2: int, j2: int|
                        0 <= i1 < qs.len() && 0 <= j1 < qs[i1].slots@.len() && 0 <= i2 < qs.len() && 0
                            <= j2 < qs[i2].slots@.len() && (i1 != i2 || j1 != j2) implies extents_apart(
                        #[trigger] qs[i1].slots@[j1],
                        #[trigger] qs[i2].slots@[j2],
                    ) by {
                        assert(extents_apart(before[i1].slots@[j1], before[i2].slots@[j2]));
                    }
                    assert forall|i: int, j: int|
                        0 <= i < pre.len() && 0 <= j < pre[i].slots@.len() implies apart_from_used(
                        #[trigger] pre[i].slots@[j],
                        (region.start + region.used) as int,
                        region.start + region.used + 1,
                    ) by {
                        assert(pre[i].slots@[j] == before[i].slots@[j]);
                        if i != bucket_index || j != rlen - 1 {
                            assert(extents_apart(before[i].slots@[j], before[bucket_index as int].slots@[rlen - 1]));
                            assert(extent_fits(before[i].slots@[j], self.next_region as int));
                        }
                    }
                }
            }
            region.start + region.used
        } else {
            let ghost before = self.states@;
            let ghost next0 = self.next_region;
            self.grant_region(config, bucket_index, effects)?;
            let rlen2 = self.states[bucket_index].slots.len();
            let ghost before2 = self.states@;
            let ghost before2_disjoint = self.regions_disjoint();
            self.states[bucket_index].slots[rlen2 - 1].used = 1;
            let start = self.states[bucket_index].slots[rlen2 - 1].start;
            proof {
                let qs = self.states@;
                assert forall|i: int, j: int|
                    0 <= i < qs.len() && 0 <= j < qs[i].slots@.len() implies extent_fits(
                    #[trigger] qs[i].slots@[j],
                    self.next_region as int,
                ) by {
                    assert(extent_fits(before2[i].slots@[j], self.next_region as int));
                }
                assert forall|i: int, j: int|
                    0 <= i < qs.len() && 0 <= j < qs[i].data@.len() implies extent_fits(
                    #[trigger] qs[i].data@[j],
                    self.file_size as int,
                ) by {
                    assert(qs[i].data@[j] == before2[i].data@[j]);
                }
                if old(self).extents_disjoint() {
                    assert forall|i1: int, j1: int, i2: int, j2: int|
                        0 <= i1 < qs.len() && 0 <= j1 < qs[i1].data@.len() && 0 <= i2 < qs.len() && 0
                            <= j2 < qs[i2].data@.len() && (i1 != i2 || j1 != j2) implies extents_apart(
                        #[trigger] qs[i1].data@[j1],
                        #[trigger] qs[i2].data@[j2],
                    ) by {
                        assert(extents_apart(before2[i1].data@[j1], before2[i2].data@[j2]));
                    }
                    assert forall|i: int, j: int|
                        0 <= i < qs.len() && 0 <= j < qs[i].data@.len() implies 4096 <= (
                        #[trigger] qs[i].data@[j]).start by {
                        assert(4096 <= before2[i].data@[j].start);
                    }
                }
                if old(self).regions_disjoint() {
                    assert forall|i1: int, j1: int, i2: int, j2: int|
                        0 <= i1 < qs.len() && 0 <= j1 < qs[i1].slots@.len() && 0 <= i2 < qs.len() && 0
                            <= j2 < qs[i2].slots@.len() && (i1 != i2 || j1 != j2) implies extents_apart(
                        #[trigger] qs[i1].slots@[j1],
                        #[trigger] qs[i2].slots@[j2],
                    ) by {
                        assert(extents_apart(before2[i1].slots@[j1], before2[i2].slots@[j2]));
                    }
                    assert forall|i: int, j: int|
                        0 <= i < pre.len() && 0 <= j < pre[i].slots@.len() implies apart_from_used(
                        #[trigger] pre[i].slots@[j],
                        start as int,
                        start + 1,
                    ) by {
                        assert(pre[i].slots@[j] == before[i].slots@[j]);
                        assert(extent_fits(before[i].slots@[j], next0 as int));
                    }
                }
            }
            start
        };
        proof {
            assert(self.file_size == placed_file);
            assert(self.extent_grant_count == placed_count);
            assert forall|i: int| 0 <= i < mid2.len() implies (#[trigger] self.states@[i]).data@ == mid2[i].data@ by {
            }
            lemma_data_kept_used_kept(pre, mid);
            lemma_used_kept_chain(pre, mid, mid2);
            assert(used_kept(mid2, self.states@)) by {
                assert forall|i: int, j: int| 0 <= i < mid2.len() && 0 <= j < mid2[i].data@.len() implies #[trigger] extent_kept(
                    mid2[i].data@[j],
                    self.states@[i].data@,
                    j,
                ) by {
                    assert(self.states@[i].data@ == mid2[i].data@);
                }
            }
            lemma_used_kept_chain(pre, mid2, self.states@);
            let fd = self.states@[bucket_index as int].data@;
            assert(fd[fd.len() - 1] == last_extent(self.states@[bucket_index as int]));
            assert(in_used_part(self.states@, offset as int, offset + total_len));
            if first_fits {
                lemma_granted_same_data(
                    with_new,
                    old(self).file_size as int,
                    old(self).extent_grant_count as nat,
                    mid2,
                    self.states@,
                    mid_file as int,
                    mid_count as nat,
                    bucket_index as int,
                    need as int,
                    config.growth as int,
                    total_len as int,
                );
                assert(with_empty_bucket(old(self).states@, with_new, bucket));
            }
        }
        Ok((offset, id))
    }

    /// Places the new version of a record of `bucket`, `total_len` bytes
    /// long; the bucket must be known.
    pub fn alloc_update(
        &mut self,
        config: &HeapConfig,
        bucket: u64,
        total_len: u64,
        effects: &mut Vec<PlacementEffect>,
    ) -> (res: Result<u64, HeapError>)
        requires
            old(self).wf(),
        ensures
            final(self).wf(),
            res is Ok && old(self).extents_disjoint() ==> final(self).extents_disjoint(),
            res is Ok ==> used_kept(old(self).states@, final(self).states@),
            res matches Ok(offset) ==> in_used_part(final(self).states@, offset as int, offset + total_len),
            res is Err <==> !old(self).bucket_indices@.contains_key(bucket) || placing_fails(
                old(self).states@,
                old(self).extent_grant_count as nat,
                old(self).file_size as int,
                old(self).registry_end as int,
                old(self).bucket_indices@[bucket] as int,
                total_len as int,
                config.min_extent as int,
                config.growth as int,
            ),
            res matches Ok(offset) ==> {
                let b = final(self).bucket_indices@[bucket] as int;
                let e = last_extent(final(self).states@[b]);
                &&& final(self).bucket_indices@.contains_key(bucket)
                &&& final(self).states@[b].data@.len() > 0
                &&& e.start <= offset
                &&& offset + total_len == e.start + e.used
            },
            res matches Ok(offset) ==> (old(self).extents_disjoint() ==> forall|i: int, j: int|
                0 <= i < old(self).states@.len() && 0 <= j < old(self).states@[i].data@.len()
                    ==> apart_from_used(
                    #[trigger] old(self).states@[i].data@[j],
                    offset as int,
                    offset + total_len,
                )),
            ({
                let b = old(self).bucket_indices@[bucket] as int;
                let d = old(self).states@[b].data@;
                old(self).bucket_indices@.contains_key(bucket) && d.len() > 0 && total_len
                    <= d.last().size - d.last().used ==> res == Ok::<u64, HeapError>(
                    (d.last().start + d.last().used) as u64,
                ) && final(effects)@ == old(effects)@
            }),
            res matches Ok(offset) ==> {
                let b = final(self).bucket_indices@[bucket] as int;
                let d = old(self).states@[b].data@;
                let f = final(self).states@[b].data@;
                !(d.len() > 0 && total_len <= d.last().size - d.last().used) ==> f.len() == d.len()
                    + 1 && offset == f.last().start && f.last().used == total_len && granted(
                    old(self).states@,
                    old(self).file_size as int,
                    old(self).extent_grant_count as nat,
                    final(self).states@,
                    final(self).file_size as int,
                    final(self).extent_grant_count as nat,
                    b,
                    spec_required_extent_size(config.min_extent as int, total_len as int),
                    config.growth as int,
                    total_len as int,
                ) && final(self).registry_end == old(self).registry_end + 64 && final(effects)@ == old(
                    effects,
                )@ + grant_effects(
                    old(self).states@,
                    old(self).file_size as int,
                    (final(self).extent_grant_count - 1) as nat,
                    spec_required_extent_size(config.min_extent as int, total_len as int),
                    config.growth as int,
                    b,
                    old(self).registry_end,
                )
            },
    {
        let bucket_index = match self.bucket_indices.get(&bucket) {
            Some(found) => *found,
            None => {
                return Err(HeapError::InvalidArg("update refers to unknown bucket"));
            },
        };
        self.place_bytes(config, bucket_index, total_len, effects)
    }

    /// Bytes used in all data extents.
    pub fn used_bytes(&self) -> (r: u64)
        requires
            total_used(self.states@) <= u64::MAX,
        ensures
            r == total_used(self.states@),
    {
        let mut sum: u64 = 0;
        let mut i: usize = 0;
        while i < self.states.len()
            invariant
                i <= self.states@.len(),
                total_used(self.states@) <= u64::MAX,
                sum == total_used(self.states@.take(i as int)),
            decreases self.states@.len() - i,
        {
            let data = &self.states[i].data;
            let mut inner: u64 = 0;
            let mut j: usize = 0;
            proof {
                lemma_total_used_prefix(self.states@, i as int + 1);
                assert(self.states@.take(i as int + 1).drop_last() =~= self.states@.take(i as int));
            }
            while j < data.len()
                invariant
                    j <= data@.len(),
                    data@ == self.states@[i as int].data@,
                    i < self.states@.len(),
                    sum + sum_used(data@) <= u64::MAX,
                    inner == sum_used(data@.take(j as int)),
                decreases data@.len() - j,
            {
                proof {
                    lemma_sum_used_prefix(data@, j as int + 1);
                    assert(data@.take(j as int + 1).drop_last() =~= data@.take(j as int));
                }
                inner = inner + data[j].used;
                j += 1;
            }
            proof {
                assert(data@.take(j as int) =~= data@);
            }
            sum = sum + inner;
            i += 1;
        }
        proof {
            assert(self.states@.take(i as int) =~= self.states@);
        }
        sum
    }
}

proof fn lemma_sum_used_prefix(data: Seq<Extent>, k: int)
    requires
        0 <= k <= data.len(),
    ensures
        0 <= sum_used(data.take(k)) <= sum_used(data),
    decreases data.len(),
{
    if data.len() > 0 {
        if k == data.len() {
            assert(data.take(k) =~= data);
            lemma_sum_used_prefix(data.drop_last(), k - 1);
        } else {
            lemma_sum_used_prefix(data.drop_last(), k);
            assert(data.drop_last().take(k) =~= data.take(k));
        }
        lemma_sum_used_prefix(data.drop_last(), data.len() - 1);
        assert(data.drop_last().take(data.len() - 1) =~= data.drop_last());
    }
}

proof fn lemma_total_used_prefix(states: Seq<BucketState>, k: int)
    requires
        0 <= k <= states.len(),
    ensures
        0 <= total_used(states.take(k)) <= total_used(states),
    decreases states.len(),
{
    if states.len() > 0 {
        lemma_sum_used_prefix(states.last().data@, states.last().data@.len() as int);
        assert(states.last().data@.take(states.last().data@.len() as int) =~= states.last().data@);
        if k == states.len() {
            assert(states.take(k) =~= states);
            lemma_total_used_prefix(states.drop_last(), k - 1);
        } else {
            lemma_total_used_prefix(states.drop_last(), k);
            assert(states.drop_last().take(k) =~= states.take(k));
        }
        lemma_total_used_prefix(states.drop_last(), states.len() - 1);
        assert(states.drop_last().take(states.len() - 1) =~= states.drop_last());
    }
}

}
