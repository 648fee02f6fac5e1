//! Deterministic pseudo-random numbers (SplitMix64) for workloads and payloads.

use vstd::prelude::*;
use vstd::bytes::*;
use vstd::wrapping::u64_specs;
use crate::format::{put, overwrite};

verus! {

broadcast use vstd::slice::group_slice_axioms;

/// The increment of the SplitMix64 state.
pub const GOLDEN_GAMMA: u64 = 0x9E37_79B9_7F4A_7C15;

/// The output function of SplitMix64 applied to a state.
pub open spec fn splitmix_mix(z: u64) -> u64 {
    let a = u64_specs::wrapping_mul(z ^ (z >> 30), 0xBF58_476D_1CE4_E5B9u64);
    let b = u64_specs::wrapping_mul(a ^ (a >> 27), 0x94D0_49BB_1331_11EBu64);
    b ^ (b >> 31)
}

/// The state after `k` draws.
pub open spec fn advance(state: u64, k: nat) -> u64
    decreases k,
{
    if k == 0 {
        state
    } else {
        u64_specs::wrapping_add(advance(state, (k - 1) as nat), GOLDEN_GAMMA)
    }
}

/// Draw number `k` (counting from 0) from a generator in state `state`.
pub open spec fn draw(state: u64, k: nat) -> u64 {
    splitmix_mix(advance(state, k + 1))
}

/// The first `n` bytes of the little-endian byte stream of draws.
pub open spec fn stream_bytes(state: u64, n: nat) -> Seq<u8> {
    Seq::new(n, |j: int| spec_u64_to_le_bytes(draw(state, (j / 8) as nat))[j % 8])
}

/// The draw scaled into `0..bound`: the high half of the 128-bit product.
pub open spec fn scale_below(value: u64, bound: u64) -> u64 {
    ((((value as u128) * (bound as u128)) as u128) >> 64u128) as u64
}

/// Number of draws that filling `n` bytes takes.
pub open spec fn draws_for(n: nat) -> nat {
    (n / 8 + if n % 8 == 0 {
        0nat
    } else {
        1nat
    }) as nat
}

/// A source of 64-bit random numbers.
pub trait RandomSource: Sized {
    /// The number the source gives next.
    spec fn next_draw(&self) -> u64;

    /// The source once it has given its next number.
    spec fn after_draw(&self) -> Self;

    /// The source after `k` draws.
    spec fn after_draws(&self, k: nat) -> Self;

    /// No draw leaves the source as it is; one more draw moves it on once.
    proof fn lemma_after_draws(&self, k: nat)
        ensures
            self.after_draws(0) == *self,
            self.after_draws(k + 1) == self.after_draws(k).after_draw(),
    ;

    fn next_u64(&mut self) -> (r: u64)
        ensures
            r == old(self).next_draw(),
            *final(self) == old(self).after_draw(),
    ;

    /// A number below `bound` (0 when `bound` is 0): the next draw scaled
    /// into `0..bound`.
    fn below(&mut self, bound: u64) -> (r: u64)
        ensures
            r == scale_below(old(self).next_draw(), bound),
            *final(self) == old(self).after_draw(),
            bound > 0 ==> r < bound,
            bound == 0 ==> r == 0,
    {
        let value = self.next_u64();
        proof {
            lemma_scale_below(value, bound);
        }
        ((value as u128 * bound as u128) >> 64) as u64
    }

    /// Fills `buf` with the little-endian bytes of successive draws, eight
    /// bytes per draw; the bytes of the last draw that do not fit are
    /// dropped.
    fn fill(&mut self, buf: &mut [u8])
        ensures
            final(buf)@.len() == old(buf)@.len(),
            forall|j: int|
                0 <= j < old(buf)@.len() ==> #[trigger] final(buf)@[j] == spec_u64_to_le_bytes(
                    old(self).after_draws((j / 8) as nat).next_draw(),
                )[j % 8],
            *final(self) == old(self).after_draws(draws_for(old(buf)@.len())),
    {
        let ghost start = *self;
        proof {
            start.lemma_after_draws(0);
        }
        let n = buf.len();
        let mut pos: usize = 0;
        while n - pos >= 8
            invariant
                n == buf@.len(),
                n == old(buf)@.len(),
                pos <= n,
                pos % 8 == 0,
                *self == start.after_draws((pos / 8) as nat),
                forall|j: int|
                    0 <= j < pos ==> #[trigger] buf@[j] == spec_u64_to_le_bytes(
                        start.after_draws((j / 8) as nat).next_draw(),
                    )[j % 8],
            decreases n - pos,
        {
            let ghost k = (pos / 8) as nat;
            proof {
                start.lemma_after_draws(k);
            }
            let ghost current = *self;
            let value = self.next_u64();
            let bytes = u64_to_le_bytes(value);
            let ghost before = buf@;
            put(buf, pos, bytes.as_slice());
            proof {
                assert(value == current.next_draw());
                assert(*self == start.after_draws(k + 1));
                assert forall|j: int| 0 <= j < pos + 8 implies #[trigger] buf@[j] == spec_u64_to_le_bytes(
                    start.after_draws((j / 8) as nat).next_draw(),
                )[j % 8] by {
                    if j >= pos {
                        assert(j / 8 == k);
                        assert(j % 8 == j - pos);
                    } else {
                        assert(buf@[j] == before[j]);
                    }
                }
            }
            pos += 8;
        }
        let ghost full = (pos / 8) as nat;
        proof {
            start.lemma_after_draws(full);
        }
        if pos < n {
            let ghost current = *self;
            let value = self.next_u64();
            let bytes = u64_to_le_bytes(value);
            let ghost before = buf@;
            put(buf, pos, &bytes.as_slice()[0..n - pos]);
            proof {
                assert(value == current.next_draw());
                assert(*self == start.after_draws(full + 1));
                assert forall|j: int| 0 <= j < n implies #[trigger] buf@[j] == spec_u64_to_le_bytes(
                    start.after_draws((j / 8) as nat).next_draw(),
                )[j % 8] by {
                    if j >= pos {
                        assert(j / 8 == full);
                        assert(j % 8 == j - pos);
                    } else {
                        assert(buf@[j] == before[j]);
                    }
                }
                assert(draws_for(n as nat) == full + 1);
            }
        } else {
            proof {
                assert(draws_for(n as nat) == full);
            }
        }
    }
}

proof fn lemma_scale_below(value: u64, bound: u64)
    ensures
        bound > 0 ==> scale_below(value, bound) < bound,
        bound == 0 ==> scale_below(value, bound) == 0,
        (value as int) * (bound as int) <= u128::MAX,
        scale_below(value, bound) == ((((value as u128) * (bound as u128)) as u128) >> 64u128),
{
    let v = value as u128;
    assert((value as int) * (bound as int) <= 0xFFFF_FFFF_FFFF_FFFFint * 0xFFFF_FFFF_FFFF_FFFFint)
        by (nonlinear_arith)
        requires
            value <= 0xFFFF_FFFF_FFFF_FFFFu64,
            bound <= 0xFFFF_FFFF_FFFF_FFFFu64,
    ;
    let b = bound as u128;
    assert(v * b <= 0xFFFF_FFFF_FFFF_FFFFu128 * b) by (nonlinear_arith)
        requires
            v <= 0xFFFF_FFFF_FFFF_FFFFu128,
    ;
    assert(0xFFFF_FFFF_FFFF_FFFFu128 * b < 0x1_0000_0000_0000_0000u128 * b || b == 0)
        by (nonlinear_arith);
    let p: u128 = (v * b) as u128;
    assert(p == v * b);
    assert(b > 0 ==> p < 0x1_0000_0000_0000_0000u128 * b);
    assert(b > 0 ==> p / 0x1_0000_0000_0000_0000u128 < b) by (nonlinear_arith)
        requires
            b > 0 ==> p < 0x1_0000_0000_0000_0000u128 * b,
    ;
    assert(p >> 64u128 == p / 0x1_0000_0000_0000_0000u128) by (bit_vector);
    assert(p >> 64u128 <= 0xFFFF_FFFF_FFFF_FFFFu128) by (bit_vector);
    assert(b == 0 ==> p == 0) by (nonlinear_arith)
        requires
            p == v * b,
    ;
}

pub struct SplitMix64(pub u64);

impl SplitMix64 {
    pub fn new(seed: u64) -> (r: Self)
        ensures
            r.0 == seed,
    {
        SplitMix64(seed)
    }

    /// The next draw: the state moves on by the golden gamma, and the draw
    /// is the output function of the new state.
    pub fn next_u64(&mut self) -> (r: u64)
        ensures
            final(self).0 == advance(old(self).0, 1),
            r == draw(old(self).0, 0),
    {
        self.0 = self.0.wrapping_add(GOLDEN_GAMMA);
        let mut value = self.0;
        value = (value ^ (value >> 30)).wrapping_mul(0xBF58_476D_1CE4_E5B9);
        value = (value ^ (value >> 27)).wrapping_mul(0x94D0_49BB_1331_11EB);
        proof {
            reveal_with_fuel(advance, 2);
        }
        value ^ (value >> 31)
    }

    /// The next draw scaled into `0..bound`.
    pub fn below(&mut self, bound: u64) -> (r: u64)
        ensures
            final(self).0 == advance(old(self).0, 1),
            r == scale_below(draw(old(self).0, 0), bound),
            bound > 0 ==> r < bound,
    {
        let value = self.next_u64();
        proof {
            lemma_scale_below(value, bound);
        }
        ((value as u128 * bound as u128) >> 64) as u64
    }

    /// Fills `buf` with the little-endian bytes of successive draws; the
    /// bytes of the last draw that do not fit are dropped.
    pub fn fill(&mut self, buf: &mut [u8])
        ensures
            final(buf)@ == stream_bytes(old(self).0, old(buf)@.len()),
            final(self).0 == advance(old(self).0, draws_for(old(buf)@.len())),
    {
        let ghost start = self.0;
        let n = buf.len();
        let mut pos: usize = 0;
        while n - pos >= 8
            invariant
                n == buf@.len(),
                n == old(buf)@.len(),
                pos <= n,
                pos % 8 == 0,
                self.0 == advance(start, (pos / 8) as nat),
                forall|j: int|
                    0 <= j < pos ==> #[trigger] buf@[j] == stream_bytes(start, n as nat)[j],
            decreases n - pos,
        {
            let ghost k = (pos / 8) as nat;
            let value = self.next_u64();
            let bytes = u64_to_le_bytes(value);
            let ghost before = buf@;
            put(buf, pos, bytes.as_slice());
            proof {
                lemma_advance_step(start, k);
                assert forall|j: int| 0 <= j < pos + 8 implies #[trigger] buf@[j] == stream_bytes(
                    start,
                    n as nat,
                )[j] by {
                    if j >= pos {
                        assert(j / 8 == k);
                        assert(j % 8 == j - pos);
                    } else {
                        assert(buf@[j] == before[j]);
                    }
                }
            }
            pos += 8;
        }
        let ghost full = (pos / 8) as nat;
        if pos < n {
            let value = self.next_u64();
            let bytes = u64_to_le_bytes(value);
            let ghost before = buf@;
            put(buf, pos, &bytes.as_slice()[0..n - pos]);
            proof {
                lemma_advance_step(start, full);
                assert forall|j: int| 0 <= j < n implies #[trigger] buf@[j] == stream_bytes(
                    start,
                    n as nat,
                )[j] by {
                    if j >= pos {
                        assert(j / 8 == full);
                        assert(j % 8 == j - pos);
                    } else {
                        assert(buf@[j] == before[j]);
                    }
                }
                assert(draws_for(n as nat) == full + 1);
            }
        } else {
            proof {
                assert(draws_for(n as nat) == full);
            }
        }
        assert(buf@ =~= stream_bytes(start, n as nat));
    }
}

proof fn lemma_advance_step(state: u64, k: nat)
    ensures
        advance(advance(state, k), 1) == advance(state, k + 1),
        splitmix_mix(advance(advance(state, k), 1)) == draw(state, k),
{
    reveal_with_fuel(advance, 2);
}

/// `s` with the items at `i` and `j` exchanged.
pub open spec fn swapped(s: Seq<u32>, i: int, j: int) -> Seq<u32> {
    s.update(i, s[j]).update(j, s[i])
}

/// The pool after the first `k` steps of a shuffle driven by a generator in
/// state `state`: step `i` exchanges the item at `i` with the one at `i`
/// plus draw number `i` scaled below the number of items from `i` on.
pub open spec fn shuffled_prefix(pool: Seq<u32>, state: u64, k: nat) -> Seq<u32>
    decreases k,
{
    if k == 0 {
        pool
    } else {
        let i = k - 1;
        let j = i + scale_below(draw(state, i as nat), (pool.len() - i) as u64);
        swapped(shuffled_prefix(pool, state, (k - 1) as nat), i, j)
    }
}

/// Each shuffle step exchanges two items of the pool, so the pool keeps
/// its items.
pub proof fn lemma_shuffle_keeps_items(pool: Seq<u32>, state: u64, k: nat)
    requires
        k <= pool.len(),
        pool.len() <= u64::MAX,
    ensures
        shuffled_prefix(pool, state, k).len() == pool.len(),
        shuffled_prefix(pool, state, k).to_multiset() == pool.to_multiset(),
    decreases k,
{
    broadcast use vstd::seq_lib::to_multiset_update;
    broadcast use vstd::seq_lib::to_multiset_contains;
    broadcast use vstd::multiset::group_multiset_axioms;

    if k > 0 {
        let i = k - 1;
        lemma_shuffle_keeps_items(pool, state, (k - 1) as nat);
        let before = shuffled_prefix(pool, state, (k - 1) as nat);
        let bound = (pool.len() - i) as u64;
        let j = i + scale_below(draw(state, i as nat), bound);
        lemma_scale_below(draw(state, i as nat), bound);
        let once = before.update(i, before[j]);
        assert(once[j] == before[j]);
        assert(once.to_multiset() == before.to_multiset().insert(before[j]).remove(before[i]));
        assert(once.update(j, before[i]).to_multiset() == once.to_multiset().insert(before[i]).remove(
            once[j],
        ));
        let m = before.to_multiset();
        assert(before.contains(before[i]));
        assert(m.count(before[i]) > 0);
        assert(m.insert(before[j]).remove(before[i]).insert(before[i]).remove(before[j]) =~= m);
        assert(once.update(j, before[i]).to_multiset() =~= before.to_multiset());
    }
}

impl SplitMix64 {
    /// Moves `width` items picked at random, without repeats, to the front
    /// of `pool`: step `i` exchanges the item at `i` with one at `i` or
    /// later, drawn with `below`.
    pub fn shuffle_prefix(&mut self, pool: &mut Vec<u32>, width: usize)
        requires
            width <= old(pool)@.len(),
        ensures
            final(pool)@ == shuffled_prefix(old(pool)@, old(self).0, width as nat),
            final(pool)@.to_multiset() == old(pool)@.to_multiset(),
            old(pool)@.no_duplicates() ==> final(pool)@.no_duplicates(),
            final(self).0 == advance(old(self).0, width as nat),
    {
        let ghost start = self.0;
        let n = pool.len();
        let mut i: usize = 0;
        while i < width
            invariant
                i <= width <= n,
                n == old(pool)@.len(),
                pool@ == shuffled_prefix(old(pool)@, start, i as nat),
                self.0 == advance(start, i as nat),
            decreases width - i,
        {
            proof {
                reveal_with_fuel(advance, 2);
                assert(advance(advance(start, i as nat), 1) == advance(start, (i + 1) as nat));
                lemma_shuffle_keeps_items(old(pool)@, start, i as nat);
            }
            let step = self.below((n - i) as u64);
            proof {
                lemma_scale_below(draw(start, i as nat), (n - i) as u64);
            }
            let j: usize = i + step as usize;
            let a = pool[i];
            let b = pool[j];
            pool.set(i, b);
            pool.set(j, a);
            proof {
                assert(pool@ =~= swapped(shuffled_prefix(old(pool)@, start, i as nat), i as int, j as int));
            }
            i = i + 1;
        }
        proof {
            lemma_shuffle_keeps_items(old(pool)@, start, width as nat);
            if old(pool)@.no_duplicates() {
                old(pool)@.lemma_multiset_has_no_duplicates();
                pool@.lemma_multiset_has_no_duplicates_conv();
            }
        }
    }
}

impl RandomSource for SplitMix64 {
    open spec fn next_draw(&self) -> u64 {
        draw(self.0, 0)
    }

    open spec fn after_draw(&self) -> Self {
        SplitMix64(advance(self.0, 1))
    }

    open spec fn after_draws(&self, k: nat) -> Self {
        SplitMix64(advance(self.0, k))
    }

    proof fn lemma_after_draws(&self, k: nat) {
        lemma_advance_step(self.0, k);
    }

    fn next_u64(&mut self) -> (r: u64) {
        SplitMix64::next_u64(self)
    }
}

/// Fills `out` with `len` bytes determined by `seed` and `key`.
pub fn payload_for(seed: u64, key: u64, len: usize, out: &mut Vec<u8>)
    ensures
        final(out)@ == stream_bytes(
            seed ^ u64_specs::wrapping_mul(key, 0xA076_1D64_78BD_642Fu64),
            len as nat,
        ),
{
    out.clear();
    out.resize(len, 0);
    SplitMix64::new(seed ^ key.wrapping_mul(0xA076_1D64_78BD_642F)).fill(out.as_mut_slice());
}

}
