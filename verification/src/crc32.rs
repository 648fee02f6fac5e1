//! CRC-32C (Castagnoli) checksums, computed eight bytes at a time with
//! lookup tables.

use vstd::prelude::*;

verus! {

/// The reflected CRC-32C polynomial.
pub const CRC32C_POLYNOMIAL: u32 = 0x82F6_3B78;

/// One shift of the bitwise CRC register.
pub open spec fn crc_shift(c: u32) -> u32 {
    if c & 1 != 0 {
        (c >> 1) ^ 0x82F6_3B78u32
    } else {
        c >> 1
    }
}

/// The CRC register after eight shifts: the table entry of one byte.
pub open spec fn byte_table(b: u32) -> u32 {
    crc_shift(crc_shift(crc_shift(crc_shift(crc_shift(crc_shift(crc_shift(crc_shift(b))))))))
}

/// `n` shifts of the register.
pub open spec fn crc_shifts(c: u32, n: nat) -> u32
    decreases n,
{
    if n == 0 {
        c
    } else {
        crc_shift(crc_shifts(c, (n - 1) as nat))
    }
}

/// The register after one more byte `x` of input.
pub open spec fn crc_step(c: u32, x: u8) -> u32 {
    (c >> 8) ^ byte_table((c ^ (x as u32)) & 0xFF)
}

/// The register after the bytes of `s`, starting from `c`.
pub open spec fn crc_register(c: u32, s: Seq<u8>) -> u32
    decreases s.len(),
{
    if s.len() == 0 {
        c
    } else {
        crc_step(crc_register(c, s.drop_last()), s.last())
    }
}

/// The CRC-32C of a byte sequence: initial register all ones, final
/// register inverted.
pub open spec fn spec_crc32c(s: Seq<u8>) -> u32 {
    !crc_register(0xFFFF_FFFFu32, s)
}

/// The register after one zero byte.
pub open spec fn zero_step(c: u32) -> u32 {
    (c >> 8) ^ byte_table(c & 0xFF)
}

/// `k` zero bytes.
pub open spec fn zero_steps(c: u32, k: nat) -> u32
    decreases k,
{
    if k == 0 {
        c
    } else {
        zero_step(zero_steps(c, (k - 1) as nat))
    }
}

/// Table `k` of the slicing-by-8 method: a byte followed by `k` zero bytes.
pub open spec fn slice_table(k: nat, b: u32) -> u32
    decreases k,
{
    if k == 0 {
        byte_table(b)
    } else {
        zero_step(slice_table((k - 1) as nat, b))
    }
}

proof fn lemma_shift_xor(a: u32, b: u32)
    ensures
        crc_shift(a ^ b) == crc_shift(a) ^ crc_shift(b),
{
    assert(crc_shift(a ^ b) == crc_shift(a) ^ crc_shift(b)) by (bit_vector);
}

proof fn lemma_shifts_xor(a: u32, b: u32, n: nat)
    ensures
        crc_shifts(a ^ b, n) == crc_shifts(a, n) ^ crc_shifts(b, n),
    decreases n,
{
    if n > 0 {
        lemma_shifts_xor(a, b, (n - 1) as nat);
        lemma_shift_xor(crc_shifts(a, (n - 1) as nat), crc_shifts(b, (n - 1) as nat));
    }
}

proof fn lemma_byte_table_xor(a: u32, b: u32)
    ensures
        byte_table(a ^ b) == byte_table(a) ^ byte_table(b),
{
    lemma_shifts_xor(a, b, 8);
    lemma_byte_table_is_shifts(a ^ b);
    lemma_byte_table_is_shifts(a);
    lemma_byte_table_is_shifts(b);
}

proof fn lemma_byte_table_is_shifts(c: u32)
    ensures
        byte_table(c) == crc_shifts(c, 8),
{
    reveal_with_fuel(crc_shifts, 9);
}

proof fn lemma_zero_step_xor(a: u32, b: u32)
    ensures
        zero_step(a ^ b) == zero_step(a) ^ zero_step(b),
{
    assert((a ^ b) & 0xFF == (a & 0xFF) ^ (b & 0xFF)) by (bit_vector);
    assert((a ^ b) >> 8 == (a >> 8) ^ (b >> 8)) by (bit_vector);
    lemma_byte_table_xor(a & 0xFF, b & 0xFF);
    let ta = byte_table(a & 0xFF);
    let tb = byte_table(b & 0xFF);
    let ha = a >> 8;
    let hb = b >> 8;
    assert((ha ^ hb) ^ (ta ^ tb) == (ha ^ ta) ^ (hb ^ tb)) by (bit_vector);
}

proof fn lemma_zero_steps_xor(a: u32, b: u32, k: nat)
    ensures
        zero_steps(a ^ b, k) == zero_steps(a, k) ^ zero_steps(b, k),
    decreases k,
{
    if k > 0 {
        lemma_zero_steps_xor(a, b, (k - 1) as nat);
        lemma_zero_step_xor(zero_steps(a, (k - 1) as nat), zero_steps(b, (k - 1) as nat));
    }
}

proof fn lemma_zero_steps_add(c: u32, i: nat, j: nat)
    ensures
        zero_steps(zero_steps(c, i), j) == zero_steps(c, i + j),
    decreases j,
{
    if j > 0 {
        lemma_zero_steps_add(c, i, (j - 1) as nat);
        assert((i + j - 1) as nat == i + (j - 1) as nat);
    }
}

/// A byte moved up by one byte position is shifted down again by one zero byte.
proof fn lemma_zero_step_shifted(x: u32)
    requires
        x < 256,
    ensures
        zero_step(x << 8) == x,
        zero_step(x << 16) == x << 8,
        zero_step(x << 24) == x << 16,
        zero_step(x) == byte_table(x),
{
    assert(zero_step(x << 8) == x) by (bit_vector)
        requires
            x < 256,
    ;
    assert(zero_step(x << 16) == x << 8) by (bit_vector)
        requires
            x < 256,
    ;
    assert(zero_step(x << 24) == x << 16) by (bit_vector)
        requires
            x < 256,
    ;
    assert(zero_step(x) == byte_table(x)) by (bit_vector)
        requires
            x < 256,
    ;
}

proof fn lemma_zero_steps_one(c: u32)
    ensures
        zero_steps(c, 1) == zero_step(c),
{
    reveal_with_fuel(zero_steps, 2);
}

proof fn lemma_zero_steps_of_shifted(x: u32, n: nat)
    requires
        x < 256,
    ensures
        n >= 1 ==> zero_steps(x << 8, n) == zero_steps(x, (n - 1) as nat),
        n >= 2 ==> zero_steps(x << 16, n) == zero_steps(x, (n - 2) as nat),
        n >= 3 ==> zero_steps(x << 24, n) == zero_steps(x, (n - 3) as nat),
{
    lemma_zero_step_shifted(x);
    if n >= 1 {
        lemma_zero_steps_add(x << 8, 1, (n - 1) as nat);
        lemma_zero_steps_one(x << 8);
    }
    if n >= 2 {
        lemma_zero_steps_add(x << 16, 2, (n - 2) as nat);
        lemma_zero_steps_one(x << 16);
        lemma_zero_steps_add(x << 16, 1, 1);
        lemma_zero_steps_one(x << 8);
    }
    if n >= 3 {
        lemma_zero_steps_add(x << 24, 3, (n - 3) as nat);
        lemma_zero_steps_one(x << 24);
        lemma_zero_steps_one(x << 16);
        lemma_zero_steps_one(x << 8);
        lemma_zero_steps_add(x << 24, 1, 1);
        lemma_zero_steps_add(x << 24, 2, 1);
    }
}

proof fn lemma_slice_table_zero_steps(k: nat, b: u32)
    requires
        b < 256,
    ensures
        slice_table(k, b) == zero_steps(b, k + 1),
    decreases k,
{
    if k == 0 {
        lemma_zero_step_shifted(b);
        lemma_zero_steps_one(b);
    } else {
        lemma_slice_table_zero_steps((k - 1) as nat, b);
        assert((k - 1 + 1) as nat == k);
    }
}

proof fn lemma_step_is_zero_step(c: u32, x: u8)
    ensures
        crc_step(c, x) == zero_step(c ^ (x as u32)),
{
    let y = x as u32;
    assert(y < 256);
    assert((c ^ y) >> 8 == c >> 8) by (bit_vector)
        requires
            y < 256,
    ;
}

proof fn lemma_register_concat(c: u32, a: Seq<u8>, b: Seq<u8>)
    ensures
        crc_register(c, a + b) == crc_register(crc_register(c, a), b),
    decreases b.len(),
{
    if b.len() == 0 {
        assert(a + b =~= a);
    } else {
        lemma_register_concat(c, a, b.drop_last());
        assert((a + b).drop_last() =~= a + b.drop_last());
        assert((a + b).last() == b.last());
    }
}

/// Little-endian value of four bytes.
pub open spec fn le_word(t: Seq<u8>) -> u32 {
    (t[0] as u32) | ((t[1] as u32) << 8) | ((t[2] as u32) << 16) | ((t[3] as u32) << 24)
}

/// Four bytes of input act on the register as one word xor-ed in, followed
/// by four zero bytes.
proof fn lemma_register_word(c: u32, t: Seq<u8>)
    requires
        t.len() == 4,
    ensures
        crc_register(c, t) == zero_steps(c ^ le_word(t), 4),
{
    let x0 = t[0] as u32;
    let x1 = t[1] as u32;
    let x2 = t[2] as u32;
    let x3 = t[3] as u32;
    let t1 = t.take(1);
    let t2 = t.take(2);
    let t3 = t.take(3);
    assert(t.drop_last() =~= t3);
    assert(t3.drop_last() =~= t2);
    assert(t2.drop_last() =~= t1);
    assert(t1.drop_last() =~= Seq::<u8>::empty());
    let r1 = crc_register(c, t1);
    let r2 = crc_register(c, t2);
    let r3 = crc_register(c, t3);
    let r4 = crc_register(c, t);
    lemma_step_is_zero_step(c, t[0]);
    lemma_step_is_zero_step(r1, t[1]);
    lemma_step_is_zero_step(r2, t[2]);
    lemma_step_is_zero_step(r3, t[3]);
    assert(crc_register(c, Seq::<u8>::empty()) == c);
    assert(r1 == crc_step(c, t[0]));
    assert(r2 == crc_step(r1, t[1]));
    assert(r3 == crc_step(r2, t[2]));
    assert(r4 == crc_step(r3, t[3]));
    let w1 = c ^ x0;
    lemma_zero_steps_one(w1);
    assert(zero_steps(x1, 0) == x1);
    assert(zero_steps(x2, 0) == x2);
    assert(zero_steps(x3, 0) == x3);
    lemma_zero_steps_one(r1 ^ x1);
    lemma_zero_steps_one(r2 ^ x2);
    lemma_zero_steps_one(r3 ^ x3);
    // second byte
    lemma_zero_steps_of_shifted(x1, 1);
    lemma_zero_steps_xor(w1, x1 << 8, 1);
    let w2 = w1 ^ (x1 << 8);
    assert(r1 ^ x1 == zero_steps(w2, 1));
    lemma_zero_steps_add(w2, 1, 1);
    assert(r2 == zero_steps(w2, 2));
    // third byte
    lemma_zero_steps_of_shifted(x2, 2);
    lemma_zero_steps_xor(w2, x2 << 16, 2);
    let w3 = w2 ^ (x2 << 16);
    assert(r2 ^ x2 == zero_steps(w3, 2));
    lemma_zero_steps_add(w3, 2, 1);
    assert(r3 == zero_steps(w3, 3));
    // fourth byte
    lemma_zero_steps_of_shifted(x3, 3);
    lemma_zero_steps_xor(w3, x3 << 24, 3);
    let w4 = w3 ^ (x3 << 24);
    assert(r3 ^ x3 == zero_steps(w4, 3));
    lemma_zero_steps_add(w4, 3, 1);
    assert(r4 == zero_steps(w4, 4));
    assert(w4 == c ^ ((x0 | (x1 << 8)) | (x2 << 16) | (x3 << 24))) by (bit_vector)
        requires
            w4 == ((c ^ x0) ^ (x1 << 8)) ^ (x2 << 16) ^ (x3 << 24),
            x0 < 256,
            x1 < 256,
            x2 < 256,
            x3 < 256,
    ;
}

/// A word followed by `m + 4` zero bytes is the xor of four table entries.
proof fn lemma_word_tables(v: u32, m: nat)
    ensures
        zero_steps(v, m + 4) == slice_table(m + 3, v & 0xFF) ^ slice_table(m + 2, (v >> 8) & 0xFF)
            ^ slice_table(m + 1, (v >> 16) & 0xFF) ^ slice_table(m, v >> 24),
{
    let b0 = v & 0xFF;
    let b1 = (v >> 8) & 0xFF;
    let b2 = (v >> 16) & 0xFF;
    let b3 = v >> 24;
    assert(b0 < 256 && b1 < 256 && b2 < 256 && b3 < 256) by (bit_vector)
        requires
            b0 == v & 0xFF,
            b1 == (v >> 8) & 0xFF,
            b2 == (v >> 16) & 0xFF,
            b3 == v >> 24,
    ;
    assert(v == ((b0 ^ (b1 << 8)) ^ (b2 << 16)) ^ (b3 << 24)) by (bit_vector)
        requires
            b0 == v & 0xFF,
            b1 == (v >> 8) & 0xFF,
            b2 == (v >> 16) & 0xFF,
            b3 == v >> 24,
    ;
    let n = m + 4;
    lemma_zero_steps_xor((b0 ^ (b1 << 8)) ^ (b2 << 16), b3 << 24, n);
    lemma_zero_steps_xor(b0 ^ (b1 << 8), b2 << 16, n);
    lemma_zero_steps_xor(b0, b1 << 8, n);
    lemma_zero_steps_of_shifted(b1, n);
    lemma_zero_steps_of_shifted(b2, n);
    lemma_zero_steps_of_shifted(b3, n);
    lemma_slice_table_zero_steps(m + 3, b0);
    lemma_slice_table_zero_steps(m + 2, b1);
    lemma_slice_table_zero_steps(m + 1, b2);
    lemma_slice_table_zero_steps(m, b3);
    assert((n - 1) as nat == m + 3);
    assert((n - 2) as nat == m + 2);
    assert((n - 3) as nat == m + 1);
}

/// Eight bytes of input, processed with the eight slicing tables.
proof fn lemma_register_eight(c: u32, s: Seq<u8>)
    requires
        s.len() == 8,
    ensures
        ({
            let lower = le_word(s.take(4)) ^ c;
            let upper = le_word(s.skip(4));
            crc_register(c, s) == slice_table(7, lower & 0xFF) ^ slice_table(6, (lower >> 8) & 0xFF)
                ^ slice_table(5, (lower >> 16) & 0xFF) ^ slice_table(4, lower >> 24)
                ^ slice_table(3, upper & 0xFF) ^ slice_table(2, (upper >> 8) & 0xFF)
                ^ slice_table(1, (upper >> 16) & 0xFF) ^ slice_table(0, upper >> 24)
        }),
{
    let a = s.take(4);
    let b = s.skip(4);
    assert(s =~= a + b);
    lemma_register_concat(c, a, b);
    let lw = le_word(a);
    let uw = le_word(b);
    let lower = lw ^ c;
    assert(c ^ lw == lower) by (bit_vector)
        requires
            lower == lw ^ c,
    ;
    lemma_register_word(c, a);
    let r = crc_register(c, a);
    assert(r == zero_steps(lower, 4));
    lemma_register_word(r, b);
    lemma_zero_steps_xor(r, uw, 4);
    lemma_zero_steps_add(lower, 4, 4);
    assert(crc_register(c, s) == zero_steps(lower, 8) ^ zero_steps(uw, 4));
    lemma_word_tables(lower, 4);
    lemma_word_tables(uw, 0);
    let p7 = slice_table(7, lower & 0xFF);
    let p6 = slice_table(6, (lower >> 8) & 0xFF);
    let p5 = slice_table(5, (lower >> 16) & 0xFF);
    let p4 = slice_table(4, lower >> 24);
    let p3 = slice_table(3, uw & 0xFF);
    let p2 = slice_table(2, (uw >> 8) & 0xFF);
    let p1 = slice_table(1, (uw >> 16) & 0xFF);
    let p0 = slice_table(0, uw >> 24);
    let hi = zero_steps(lower, 8);
    let lo = zero_steps(uw, 4);
    assert(hi ^ lo == p7 ^ p6 ^ p5 ^ p4 ^ p3 ^ p2 ^ p1 ^ p0) by (bit_vector)
        requires
            hi == p7 ^ p6 ^ p5 ^ p4,
            lo == p3 ^ p2 ^ p1 ^ p0,
    ;
}

/// The eight slicing tables, table `k` at positions `k * 256 .. k * 256 + 256`.
pub open spec fn tables_valid(tables: Seq<u32>) -> bool {
    &&& tables.len() == 2048
    &&& forall|k: int, b: int|
        0 <= k < 8 && 0 <= b < 256 ==> #[trigger] tables[k * 256 + b] == slice_table(
            k as nat,
            b as u32,
        )
}

/// Computes the eight lookup tables of the slicing-by-8 method.
pub fn build_tables() -> (tables: Vec<u32>)
    ensures
        tables_valid(tables@),
{
    let mut tables: Vec<u32> = Vec::with_capacity(2048);
    let mut byte_value: u32 = 0;
    while byte_value < 256
        invariant
            byte_value <= 256,
            tables@.len() == byte_value,
            forall|b: int| 0 <= b < byte_value ==> #[trigger] tables@[b] == byte_table(b as u32),
        decreases 256 - byte_value,
    {
        let mut crc: u32 = byte_value;
        let mut bit_index: u32 = 0;
        while bit_index < 8
            invariant
                bit_index <= 8,
                crc == crc_shifts(byte_value, bit_index as nat),
            decreases 8 - bit_index,
        {
            crc = if crc & 1 != 0 {
                (crc >> 1) ^ CRC32C_POLYNOMIAL
            } else {
                crc >> 1
            };
            bit_index += 1;
        }
        proof {
            lemma_byte_table_is_shifts(byte_value);
        }
        tables.push(crc);
        byte_value += 1;
    }
    let mut table_index: usize = 1;
    while table_index < 8
        invariant
            1 <= table_index <= 8,
            tables@.len() == table_index * 256,
            forall|b: int| 0 <= b < 256 ==> #[trigger] tables@[b] == byte_table(b as u32),
            forall|k: int, b: int|
                0 <= k < table_index && 0 <= b < 256 ==> #[trigger] tables@[k * 256 + b]
                    == slice_table(k as nat, b as u32),
        decreases 8 - table_index,
    {
        let mut byte_value: usize = 0;
        while byte_value < 256
            invariant
                1 <= table_index < 8,
                byte_value <= 256,
                tables@.len() == table_index * 256 + byte_value,
                forall|b: int| 0 <= b < 256 ==> #[trigger] tables@[b] == byte_table(b as u32),
                forall|k: int, b: int|
                    0 <= k < table_index && 0 <= b < 256 ==> #[trigger] tables@[k * 256 + b]
                        == slice_table(k as nat, b as u32),
                forall|b: int|
                    0 <= b < byte_value ==> #[trigger] tables@[table_index * 256 + b]
                        == slice_table(table_index as nat, b as u32),
            decreases 256 - byte_value,
        {
            let prev = tables[(table_index - 1) * 256 + byte_value];
            let low = prev & 0xFF;
            assert(low < 256) by (bit_vector)
                requires
                    low == prev & 0xFF,
            ;
            let next = (prev >> 8) ^ tables[low as usize];
            proof {
                assert(prev == slice_table((table_index - 1) as nat, byte_value as u32));
                assert(next == zero_step(prev));
            }
            tables.push(next);
            byte_value += 1;
        }
        proof {
            assert forall|k: int, b: int|
                0 <= k < table_index + 1 && 0 <= b < 256 implies #[trigger] tables@[k * 256 + b]
                == slice_table(k as nat, b as u32) by {
                if k == table_index {
                } else {
                }
            }
        }
        table_index += 1;
    }
    proof {
        assert forall|b: int| 0 <= b < 256 implies #[trigger] tables@[0 * 256 + b] == slice_table(
            0,
            b as u32,
        ) by {
            assert(0 * 256 + b == b);
        }
    }
    tables
}

proof fn lemma_register_prefix_step(c: u32, s: Seq<u8>, i: int)
    requires
        0 <= i < s.len(),
    ensures
        crc_register(c, s.take(i + 1)) == crc_step(crc_register(c, s.take(i)), s[i]),
{
    assert(s.take(i + 1).drop_last() =~= s.take(i));
}

proof fn lemma_register_prefix_eight(c: u32, s: Seq<u8>, i: int)
    requires
        0 <= i,
        i + 8 <= s.len(),
    ensures
        crc_register(c, s.take(i + 8)) == crc_register(
            crc_register(c, s.take(i)),
            s.subrange(i, i + 8),
        ),
{
    assert(s.take(i + 8) =~= s.take(i) + s.subrange(i, i + 8));
    lemma_register_concat(c, s.take(i), s.subrange(i, i + 8));
}

/// The CRC-32C of `data`.
pub fn crc32c(data: &[u8]) -> (crc: u32)
    ensures
        crc == spec_crc32c(data@),
{
    let tables = build_tables();
    checksum_with(&tables, data)
}

/// The slicing tables, built once for many checksums.
pub struct Crc32c {
    tables: Vec<u32>,
}

impl View for Crc32c {
    type V = Seq<u32>;

    /// The slicing tables the checksums are computed with.
    closed spec fn view(&self) -> Seq<u32> {
        self.tables@
    }
}

impl Crc32c {
    #[verifier::type_invariant]
    spec fn tables_built(self) -> bool {
        tables_valid(self.tables@)
    }

    /// Builds the tables.
    pub fn new() -> (r: Self)
        ensures
            tables_valid(r@),
    {
        Crc32c { tables: build_tables() }
    }

    /// The CRC-32C of `data`.
    pub fn checksum(&self, data: &[u8]) -> (crc: u32)
        ensures
            crc == spec_crc32c(data@),
    {
        proof {
            use_type_invariant(self);
        }
        checksum_with(&self.tables, data)
    }
}

/// The CRC-32C of `data` by the slicing-by-8 method: eight bytes per step
/// through the eight tables, then one byte per step through the first.
fn checksum_with(tables: &Vec<u32>, data: &[u8]) -> (crc: u32)
    requires
        tables_valid(tables@),
    ensures
        crc == spec_crc32c(data@),
{
    let mut crc: u32 = !0u32;
    assert(crc == 0xFFFF_FFFFu32) by (bit_vector)
        requires
            crc == !0u32,
    ;
    assert(data@.take(0) =~= Seq::<u8>::empty());
    let n = data.len();
    let full = n - n % 8;
    let mut i: usize = 0;
    while i < full
        invariant
            tables_valid(tables@),
            n == data@.len(),
            full <= n,
            full % 8 == 0,
            i % 8 == 0,
            i <= full,
            crc == crc_register(0xFFFF_FFFFu32, data@.take(i as int)),
        decreases full - i,
    {
        let lower = ((data[i] as u32) | ((data[i + 1] as u32) << 8) | ((data[i + 2] as u32) << 16)
            | ((data[i + 3] as u32) << 24)) ^ crc;
        let upper = (data[i + 4] as u32) | ((data[i + 5] as u32) << 8) | ((data[i + 6] as u32)
            << 16) | ((data[i + 7] as u32) << 24);
        let l0 = lower & 0xFF;
        let l1 = (lower >> 8) & 0xFF;
        let l2 = (lower >> 16) & 0xFF;
        let l3 = lower >> 24;
        let u0 = upper & 0xFF;
        let u1 = (upper >> 8) & 0xFF;
        let u2 = (upper >> 16) & 0xFF;
        let u3 = upper >> 24;
        assert(l0 < 256 && l1 < 256 && l2 < 256 && l3 < 256) by (bit_vector)
            requires
                l0 == lower & 0xFF,
                l1 == (lower >> 8) & 0xFF,
                l2 == (lower >> 16) & 0xFF,
                l3 == lower >> 24,
        ;
        assert(u0 < 256 && u1 < 256 && u2 < 256 && u3 < 256) by (bit_vector)
            requires
                u0 == upper & 0xFF,
                u1 == (upper >> 8) & 0xFF,
                u2 == (upper >> 16) & 0xFF,
                u3 == upper >> 24,
        ;
        let next = tables[7 * 256 + l0 as usize] ^ tables[6 * 256 + l1 as usize] ^ tables[5 * 256
            + l2 as usize] ^ tables[4 * 256 + l3 as usize] ^ tables[3 * 256 + u0 as usize]
            ^ tables[2 * 256 + u1 as usize] ^ tables[256 + u2 as usize] ^ tables[u3 as usize];
        proof {
            let s = data@.subrange(i as int, i + 8);
            lemma_register_prefix_eight(0xFFFF_FFFFu32, data@, i as int);
            lemma_register_eight(crc, s);
            assert(le_word(s.take(4)) ^ crc == lower);
            assert(le_word(s.skip(4)) == upper);
            assert(tables@[1 * 256 + u2 as int] == slice_table(1, u2));
            assert(tables@[0 * 256 + u3 as int] == slice_table(0, u3));
            assert(tables@[7 * 256 + l0 as int] == slice_table(7, l0));
            assert(tables@[6 * 256 + l1 as int] == slice_table(6, l1));
            assert(tables@[5 * 256 + l2 as int] == slice_table(5, l2));
            assert(tables@[4 * 256 + l3 as int] == slice_table(4, l3));
            assert(tables@[3 * 256 + u0 as int] == slice_table(3, u0));
            assert(tables@[2 * 256 + u1 as int] == slice_table(2, u1));
        }
        crc = next;
        i += 8;
    }
    while i < n
        invariant
            tables_valid(tables@),
            n == data@.len(),
            i <= n,
            crc == crc_register(0xFFFF_FFFFu32, data@.take(i as int)),
        decreases n - i,
    {
        let byte = data[i] as u32;
        let index = (crc ^ byte) & 0xFF;
        assert(index < 256) by (bit_vector)
            requires
                index == (crc ^ byte) & 0xFF,
        ;
        proof {
            lemma_register_prefix_step(0xFFFF_FFFFu32, data@, i as int);
            assert(tables@[0 * 256 + index as int] == slice_table(0, index));
        }
        crc = (crc >> 8) ^ tables[index as usize];
        i += 1;
    }
    proof {
        assert(data@.take(n as int) =~= data@);
    }
    !crc
}

/// A zero byte never turns a nonzero register into zero: the step is
/// multiplication by a power of x modulo a polynomial with a constant term.
proof fn lemma_zero_step_nonzero(c: u32)
    requires
        c != 0,
    ensures
        zero_step(c) != 0,
{
    assert(c != 0 ==> ((c >> 8) ^ byte_table(c & 0xFF)) != 0) by (bit_vector);
}

proof fn lemma_zero_steps_nonzero(c: u32, k: nat)
    requires
        c != 0,
    ensures
        zero_steps(c, k) != 0,
    decreases k,
{
    if k > 0 {
        lemma_zero_steps_nonzero(c, (k - 1) as nat);
        lemma_zero_step_nonzero(zero_steps(c, (k - 1) as nat));
    }
}

/// Two inputs of the same length that differ in one byte leave registers
/// that differ by that byte's difference followed by the zero bytes after it.
proof fn lemma_register_one_byte(c: u32, s: Seq<u8>, t: Seq<u8>, i: int)
    requires
        s.len() == t.len(),
        0 <= i < s.len(),
        forall|j: int| 0 <= j < s.len() && j != i ==> s[j] == t[j],
    ensures
        crc_register(c, s) ^ crc_register(c, t) == zero_steps(
            ((s[i] as u32) ^ (t[i] as u32)),
            (s.len() - i) as nat,
        ),
    decreases s.len(),
{
    let n = s.len() as int;
    if i == n - 1 {
        assert(s.drop_last() =~= t.drop_last());
        let r = crc_register(c, s.drop_last());
        lemma_step_is_zero_step(r, s.last());
        lemma_step_is_zero_step(r, t.last());
        let x = s.last() as u32;
        let y = t.last() as u32;
        let a = r ^ x;
        let b = r ^ y;
        lemma_zero_step_xor(a, b);
        assert(a ^ b == x ^ y) by (bit_vector)
            requires
                a == r ^ x,
                b == r ^ y,
        ;
        lemma_zero_steps_one(x ^ y);
    } else {
        lemma_register_one_byte(c, s.drop_last(), t.drop_last(), i);
        assert(s.last() == t.last());
        let rs = crc_register(c, s.drop_last());
        let rt = crc_register(c, t.drop_last());
        let y = s.last() as u32;
        lemma_step_is_zero_step(rs, s.last());
        lemma_step_is_zero_step(rt, s.last());
        lemma_zero_step_xor(rs ^ y, rt ^ y);
        assert((rs ^ y) ^ (rt ^ y) == rs ^ rt) by (bit_vector);
        assert((n - 1 - i) as nat + 1 == (n - i) as nat);
    }
}

/// Changing one byte of the input changes the checksum.
pub proof fn lemma_crc32c_one_byte_change(s: Seq<u8>, i: int, x: u8)
    requires
        0 <= i < s.len(),
        s[i] != x,
    ensures
        spec_crc32c(s.update(i, x)) != spec_crc32c(s),
{
    let t = s.update(i, x);
    lemma_register_one_byte(0xFFFF_FFFFu32, s, t, i);
    let si = s[i];
    let d = (si as u32) ^ (x as u32);
    assert(d != 0) by (bit_vector)
        requires
            d == (si as u32) ^ (x as u32),
            si != x,
    ;
    lemma_zero_steps_nonzero(d, (s.len() - i) as nat);
    let a = crc_register(0xFFFF_FFFFu32, s);
    let b = crc_register(0xFFFF_FFFFu32, t);
    assert(a != b) by (bit_vector)
        requires
            a ^ b != 0,
    ;
    assert(!a != !b) by (bit_vector)
        requires
            a != b,
    ;
}

}
