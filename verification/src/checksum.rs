//! CRC32C (Castagnoli) page checksums.
//!
//! The checksum is specified bit by bit: the reflected CRC with polynomial
//! `0x82F63B78`, initial value `0xFFFFFFFF` and final XOR `0xFFFFFFFF`. The
//! implementation processes eight bytes per step through eight lookup tables
//! (slice-by-eight) and is proved equal to that specification.
use vstd::prelude::*;

verus! {

/// CRC32C generator polynomial, bit-reflected for the right-shifting form.
pub const POLY: u32 = 0x82F6_3B78;

/// The register value a fresh checksum starts from (and the final XOR mask).
pub const CRC_INIT: u32 = 0xFFFF_FFFF;

/// One shift of the CRC register: shift right, folding in the polynomial when
/// the bit shifted out is set.
pub open spec fn bit_step(c: u32) -> u32 {
    if c & 1u32 != 0u32 {
        (c >> 1u32) ^ 0x82F6_3B78u32
    } else {
        c >> 1u32
    }
}

/// Eight register shifts: the effect of one byte on the register.
pub open spec fn byte_step(c: u32) -> u32 {
    bit_step(bit_step(bit_step(bit_step(bit_step(bit_step(bit_step(bit_step(c))))))))
}

/// `j` register shifts.
pub open spec fn bit_steps(c: u32, j: nat) -> u32
    decreases j,
{
    if j == 0 {
        c
    } else {
        bit_step(bit_steps(c, (j - 1) as nat))
    }
}

/// `k` byte steps.
pub open spec fn byte_steps(c: u32, k: nat) -> u32
    decreases k,
{
    if k == 0 {
        c
    } else {
        byte_step(byte_steps(c, (k - 1) as nat))
    }
}

/// Fold one data byte into the register.
pub open spec fn crc_byte(state: u32, b: u8) -> u32 {
    byte_step(state ^ (b as u32))
}

/// Fold a byte string into the register, first byte first.
pub open spec fn crc_update(state: u32, data: Seq<u8>) -> u32
    decreases data.len(),
{
    if data.len() == 0 {
        state
    } else {
        crc_byte(crc_update(state, data.drop_last()), data.last())
    }
}

/// The CRC32C of a byte string.
pub open spec fn crc32c_spec(data: Seq<u8>) -> u32 {
    crc_update(CRC_INIT, data) ^ CRC_INIT
}

// ---------------------------------------------------------------------------
// Register algebra (bit-vector facts).

proof fn lemma_byte_step_bits(c: u32)
    ensures
        bit_steps(c, 8) == byte_step(c),
{
    reveal_with_fuel(bit_steps, 9);
}

proof fn lemma_bit_step_xor(a: u32, b: u32)
    ensures
        bit_step(a ^ b) == bit_step(a) ^ bit_step(b),
{
    assert(bit_step(a ^ b) == bit_step(a) ^ bit_step(b)) by (bit_vector);
}

proof fn lemma_bit_steps_xor(j: nat, a: u32, b: u32)
    ensures
        bit_steps(a ^ b, j) == bit_steps(a, j) ^ bit_steps(b, j),
    decreases j,
{
    if j > 0 {
        lemma_bit_steps_xor((j - 1) as nat, a, b);
        lemma_bit_step_xor(bit_steps(a, (j - 1) as nat), bit_steps(b, (j - 1) as nat));
    }
}

/// A byte step is linear over GF(2).
pub proof fn lemma_byte_step_xor(a: u32, b: u32)
    ensures
        byte_step(a ^ b) == byte_step(a) ^ byte_step(b),
{
    lemma_bit_steps_xor(8, a, b);
    lemma_byte_step_bits(a);
    lemma_byte_step_bits(b);
    lemma_byte_step_bits(a ^ b);
}

/// Bits above the low byte only shift through a byte step.
pub proof fn lemma_byte_step_high(a: u32, y: u32)
    requires
        y < 0x100_0000,
    ensures
        byte_step(a ^ (y << 8u32)) == byte_step(a) ^ y,
{
    assert(y < 0x100_0000 ==> byte_step(a ^ (y << 8u32)) == byte_step(a) ^ y) by (bit_vector);
}

/// A byte step is the table entry of the low byte, XORed with the shifted
/// register.
pub proof fn lemma_byte_step_split(x: u32)
    ensures
        byte_step(x) == (x >> 8u32) ^ byte_step(x & 0xffu32),
{
    assert(byte_step(x) == (x >> 8u32) ^ byte_step(x & 0xffu32)) by (bit_vector);
}

/// A byte step loses no information.
pub proof fn lemma_byte_step_injective(a: u32, b: u32)
    ensures
        byte_step(a) == byte_step(b) ==> a == b,
{
    assert(byte_step(a) == byte_step(b) ==> a == b) by (bit_vector);
}

proof fn lemma_xor_facts(a: u32, b: u32, c: u32)
    ensures
        (a ^ b) ^ c == a ^ (b ^ c),
        a ^ b == b ^ a,
        a ^ 0 == a,
        a ^ a == 0,
{
    assert((a ^ b) ^ c == a ^ (b ^ c)) by (bit_vector);
    assert(a ^ b == b ^ a) by (bit_vector);
    assert(a ^ 0 == a) by (bit_vector);
    assert(a ^ a == 0) by (bit_vector);
}

proof fn lemma_byte_steps_zero(k: nat)
    ensures
        byte_steps(0, k) == 0,
    decreases k,
{
    if k > 0 {
        lemma_byte_steps_zero((k - 1) as nat);
        assert(byte_step(0) == 0) by (bit_vector);
    }
}

/// `k` byte steps are linear over GF(2).
pub proof fn lemma_byte_steps_xor(k: nat, a: u32, b: u32)
    ensures
        byte_steps(a ^ b, k) == byte_steps(a, k) ^ byte_steps(b, k),
    decreases k,
{
    if k > 0 {
        lemma_byte_steps_xor((k - 1) as nat, a, b);
        lemma_byte_step_xor(byte_steps(a, (k - 1) as nat), byte_steps(b, (k - 1) as nat));
    }
}

proof fn lemma_byte_steps_succ(k: nat, a: u32)
    ensures
        byte_steps(a, k + 1) == byte_steps(byte_step(a), k),
    decreases k,
{
    reveal_with_fuel(byte_steps, 2);
    if k > 0 {
        lemma_byte_steps_succ((k - 1) as nat, a);
        assert(((k - 1) as nat) + 1 == k);
        assert(byte_steps(a, k) == byte_steps(byte_step(a), (k - 1) as nat));
        assert(byte_steps(a, k + 1) == byte_step(byte_steps(a, k)));
        assert(byte_steps(byte_step(a), k) == byte_step(
            byte_steps(byte_step(a), (k - 1) as nat),
        ));
    }
}

proof fn lemma_byte_steps_add(j: nat, k: nat, a: u32)
    ensures
        byte_steps(byte_steps(a, j), k) == byte_steps(a, j + k),
    decreases k,
{
    if k > 0 {
        lemma_byte_steps_add(j, (k - 1) as nat, a);
    }
}

/// Four bytes folded in one at a time from `s`, expressed through the linear
/// maps: `L(L(L(L(s ^ y0) ^ y1) ^ y2) ^ y3) == L⁴(s) ^ L⁴(y0) ^ L³(y1) ^ L²(y2) ^ L(y3)`.
proof fn lemma_four_bytes_linear(s: u32, y0: u32, y1: u32, y2: u32, y3: u32)
    ensures
        byte_step(byte_step(byte_step(byte_step(s ^ y0) ^ y1) ^ y2) ^ y3) == byte_steps(s, 4)
            ^ byte_steps(y0, 4) ^ byte_steps(y1, 3) ^ byte_steps(y2, 2) ^ byte_steps(y3, 1),
{
    reveal_with_fuel(byte_steps, 5);
    let l = |x: u32| byte_step(x);
    // one byte
    lemma_byte_step_xor(s, y0);
    let t1 = byte_step(s) ^ byte_step(y0);
    // two bytes
    lemma_byte_step_xor(t1, y1);
    lemma_byte_step_xor(byte_step(s), byte_step(y0));
    let t2 = byte_steps(s, 2) ^ byte_steps(y0, 2) ^ byte_steps(y1, 1);
    assert(byte_step(t1 ^ y1) == t2);
    // three bytes
    lemma_byte_step_xor(t2, y2);
    lemma_byte_step_xor(byte_steps(s, 2) ^ byte_steps(y0, 2), byte_steps(y1, 1));
    lemma_byte_step_xor(byte_steps(s, 2), byte_steps(y0, 2));
    let t3 = byte_steps(s, 3) ^ byte_steps(y0, 3) ^ byte_steps(y1, 2) ^ byte_steps(y2, 1);
    assert(byte_step(t2 ^ y2) == t3);
    // four bytes
    lemma_byte_step_xor(t3, y3);
    lemma_byte_step_xor(
        byte_steps(s, 3) ^ byte_steps(y0, 3) ^ byte_steps(y1, 2),
        byte_steps(y2, 1),
    );
    lemma_byte_step_xor(byte_steps(s, 3) ^ byte_steps(y0, 3), byte_steps(y1, 2));
    lemma_byte_step_xor(byte_steps(s, 3), byte_steps(y0, 3));
    assert(byte_step(t3 ^ y3) == byte_steps(s, 4) ^ byte_steps(y0, 4) ^ byte_steps(y1, 3)
        ^ byte_steps(y2, 2) ^ byte_steps(y3, 1));
}


/// The little-endian word made of four bytes.
pub open spec fn le_word(x0: u32, x1: u32, x2: u32, x3: u32) -> u32 {
    x0 | (x1 << 8u32) | (x2 << 16u32) | (x3 << 24u32)
}

/// Folding four bytes in one at a time equals four byte steps of the register
/// XORed with their little-endian word.
proof fn lemma_four_bytes_word(c: u32, x0: u32, x1: u32, x2: u32, x3: u32)
    requires
        x0 < 256,
        x1 < 256,
        x2 < 256,
        x3 < 256,
    ensures
        byte_step(byte_step(byte_step(byte_step(c ^ x0) ^ x1) ^ x2) ^ x3) == byte_steps(
            c ^ le_word(x0, x1, x2, x3),
            4,
        ),
{
    reveal_with_fuel(byte_steps, 5);
    let lo = le_word(x0, x1, x2, x3);
    let r1 = x1 | (x2 << 8u32) | (x3 << 16u32);
    let r2 = x2 | (x3 << 8u32);
    assert(x0 < 256 && x1 < 256 && x2 < 256 && x3 < 256 ==> c ^ (x0 | (x1 << 8u32) | (x2 << 16u32)
        | (x3 << 24u32)) == (c ^ x0) ^ ((x1 | (x2 << 8u32) | (x3 << 16u32)) << 8u32)) by (bit_vector);
    assert(x1 < 256 && x2 < 256 && x3 < 256 ==> (x1 | (x2 << 8u32) | (x3 << 16u32)) < 0x100_0000)
        by (bit_vector);
    let s1 = byte_step(c ^ x0);
    lemma_byte_step_high(c ^ x0, r1);
    assert(byte_step(c ^ lo) == s1 ^ r1);
    assert(x1 < 256 && x2 < 256 && x3 < 256 ==> s1 ^ (x1 | (x2 << 8u32) | (x3 << 16u32)) == (s1
        ^ x1) ^ ((x2 | (x3 << 8u32)) << 8u32)) by (bit_vector);
    assert(x2 < 256 && x3 < 256 ==> (x2 | (x3 << 8u32)) < 0x100_0000) by (bit_vector);
    let s2 = byte_step(s1 ^ x1);
    lemma_byte_step_high(s1 ^ x1, r2);
    assert(byte_step(s1 ^ r1) == s2 ^ r2);
    assert(x2 < 256 && x3 < 256 ==> s2 ^ (x2 | (x3 << 8u32)) == (s2 ^ x2) ^ (x3 << 8u32))
        by (bit_vector);
    let s3 = byte_step(s2 ^ x2);
    lemma_byte_step_high(s2 ^ x2, x3);
    assert(byte_step(s2 ^ r2) == s3 ^ x3);
}

/// A register value is the little-endian word of its own four bytes.
proof fn lemma_word_bytes(c: u32)
    ensures
        c == le_word(c & 0xffu32, (c >> 8u32) & 0xffu32, (c >> 16u32) & 0xffu32, (c >> 24u32)
            & 0xffu32),
        c & 0xffu32 < 256,
        (c >> 8u32) & 0xffu32 < 256,
        (c >> 16u32) & 0xffu32 < 256,
        (c >> 24u32) & 0xffu32 < 256,
{
    assert(c == (c & 0xffu32) | (((c >> 8u32) & 0xffu32) << 8u32) | (((c >> 16u32) & 0xffu32)
        << 16u32) | (((c >> 24u32) & 0xffu32) << 24u32)) by (bit_vector);
    assert(c & 0xffu32 < 256) by (bit_vector);
    assert((c >> 8u32) & 0xffu32 < 256) by (bit_vector);
    assert((c >> 16u32) & 0xffu32 < 256) by (bit_vector);
    assert((c >> 24u32) & 0xffu32 < 256) by (bit_vector);
}

/// The bytes of a little-endian word are the bytes it was made of.
proof fn lemma_word_of_bytes(x0: u32, x1: u32, x2: u32, x3: u32)
    requires
        x0 < 256,
        x1 < 256,
        x2 < 256,
        x3 < 256,
    ensures
        le_word(x0, x1, x2, x3) & 0xffu32 == x0,
        (le_word(x0, x1, x2, x3) >> 8u32) & 0xffu32 == x1,
        (le_word(x0, x1, x2, x3) >> 16u32) & 0xffu32 == x2,
        (le_word(x0, x1, x2, x3) >> 24u32) & 0xffu32 == x3,
{
    assert(x0 < 256 && x1 < 256 && x2 < 256 && x3 < 256 ==> {
        let w = x0 | (x1 << 8u32) | (x2 << 16u32) | (x3 << 24u32);
        &&& w & 0xffu32 == x0
        &&& (w >> 8u32) & 0xffu32 == x1
        &&& (w >> 16u32) & 0xffu32 == x2
        &&& (w >> 24u32) & 0xffu32 == x3
    }) by (bit_vector);
}

/// Folding data in two parts equals folding their concatenation.
pub proof fn lemma_crc_update_concat(s: u32, a: Seq<u8>, b: Seq<u8>)
    ensures
        crc_update(s, a + b) == crc_update(crc_update(s, a), b),
    decreases b.len(),
{
    if b.len() == 0 {
        assert(a + b =~= a);
    } else {
        lemma_crc_update_concat(s, a, b.drop_last());
        assert((a + b).drop_last() =~= a + b.drop_last());
        assert((a + b).last() == b.last());
    }
}

proof fn lemma_crc_update_take(s: u32, d: Seq<u8>, m: int)
    requires
        0 <= m < d.len(),
    ensures
        crc_update(s, d.take(m + 1)) == crc_byte(crc_update(s, d.take(m)), d[m]),
{
    assert(d.take(m + 1).drop_last() =~= d.take(m));
}

/// The slice-by-eight identity: eight bytes folded into register `s` equal
/// eight table lookups, indexed by the bytes of `s` XOR the first four data
/// bytes and by the last four data bytes.
pub proof fn lemma_eight_bytes(s: u32, d: Seq<u8>)
    requires
        d.len() == 8,
    ensures
        ({
            let c = s ^ le_word(d[0] as u32, d[1] as u32, d[2] as u32, d[3] as u32);
            let hi = le_word(d[4] as u32, d[5] as u32, d[6] as u32, d[7] as u32);
            crc_update(s, d) == byte_steps(c & 0xffu32, 8) ^ byte_steps((c >> 8u32) & 0xffu32, 7)
                ^ byte_steps((c >> 16u32) & 0xffu32, 6) ^ byte_steps((c >> 24u32) & 0xffu32, 5)
                ^ byte_steps(hi & 0xffu32, 4) ^ byte_steps((hi >> 8u32) & 0xffu32, 3)
                ^ byte_steps((hi >> 16u32) & 0xffu32, 2) ^ byte_steps((hi >> 24u32) & 0xffu32, 1)
        }),
{
    let x0 = d[0] as u32;
    let x1 = d[1] as u32;
    let x2 = d[2] as u32;
    let x3 = d[3] as u32;
    let x4 = d[4] as u32;
    let x5 = d[5] as u32;
    let x6 = d[6] as u32;
    let x7 = d[7] as u32;
    let lo = le_word(x0, x1, x2, x3);
    let hi = le_word(x4, x5, x6, x7);
    let c = s ^ lo;
    // The register after each prefix.
    assert(d.take(0) =~= Seq::<u8>::empty());
    assert(d.take(8) =~= d);
    lemma_crc_update_take(s, d, 0);
    lemma_crc_update_take(s, d, 1);
    lemma_crc_update_take(s, d, 2);
    lemma_crc_update_take(s, d, 3);
    lemma_crc_update_take(s, d, 4);
    lemma_crc_update_take(s, d, 5);
    lemma_crc_update_take(s, d, 6);
    lemma_crc_update_take(s, d, 7);
    let s4 = crc_update(s, d.take(4));
    assert(s4 == byte_step(byte_step(byte_step(byte_step(s ^ x0) ^ x1) ^ x2) ^ x3));
    lemma_four_bytes_word(s, x0, x1, x2, x3);
    assert(s4 == byte_steps(c, 4));
    let s8 = crc_update(s, d);
    assert(s8 == byte_step(byte_step(byte_step(byte_step(s4 ^ x4) ^ x5) ^ x6) ^ x7));
    lemma_four_bytes_linear(s4, x4, x5, x6, x7);
    lemma_byte_steps_add(4, 4, c);
    // The register word in terms of its bytes.
    let b0 = c & 0xffu32;
    let b1 = (c >> 8u32) & 0xffu32;
    let b2 = (c >> 16u32) & 0xffu32;
    let b3 = (c >> 24u32) & 0xffu32;
    lemma_word_bytes(c);
    lemma_xor_facts(0, c, 0);
    lemma_four_bytes_word(0, b0, b1, b2, b3);
    lemma_four_bytes_linear(0, b0, b1, b2, b3);
    lemma_byte_steps_zero(4);
    lemma_xor_facts(0, byte_steps(b0, 4), 0);
    lemma_xor_facts(byte_steps(b0, 4), 0, 0);
    assert(byte_steps(c, 4) == byte_steps(b0, 4) ^ byte_steps(b1, 3) ^ byte_steps(b2, 2)
        ^ byte_steps(b3, 1)) by {
        lemma_xor_facts(0, b0, 0);
        lemma_xor_facts(b0, 0, 0);
        lemma_xor_facts(0, byte_steps(b0, 4), 0);
        lemma_xor_facts(byte_steps(b0, 4), 0, 0);
        lemma_xor_facts(c, 0, 0);
        lemma_xor_facts(0, c, 0);
        let w = le_word(b0, b1, b2, b3);
        assert(w == c);
        assert(0u32 ^ w == c);
        assert(byte_steps(0u32 ^ w, 4) == byte_steps(c, 4));
        assert(byte_steps(0, 4) ^ byte_steps(b0, 4) == byte_steps(b0, 4));
    }
    lemma_byte_steps_xor(
        4,
        byte_steps(b0, 4) ^ byte_steps(b1, 3) ^ byte_steps(b2, 2),
        byte_steps(b3, 1),
    );
    lemma_byte_steps_xor(4, byte_steps(b0, 4) ^ byte_steps(b1, 3), byte_steps(b2, 2));
    lemma_byte_steps_xor(4, byte_steps(b0, 4), byte_steps(b1, 3));
    lemma_byte_steps_add(4, 4, b0);
    lemma_byte_steps_add(3, 4, b1);
    lemma_byte_steps_add(2, 4, b2);
    lemma_byte_steps_add(1, 4, b3);
    lemma_word_of_bytes(x4, x5, x6, x7);
}

/// Folding data into two different registers never lands on the same value.
proof fn lemma_crc_update_distinct_states(p: u32, q: u32, d: Seq<u8>)
    requires
        p != q,
    ensures
        crc_update(p, d) != crc_update(q, d),
    decreases d.len(),
{
    if d.len() > 0 {
        lemma_crc_update_distinct_states(p, q, d.drop_last());
        let a = crc_update(p, d.drop_last());
        let b = crc_update(q, d.drop_last());
        let z = d.last() as u32;
        assert(a != b ==> a ^ z != b ^ z) by (bit_vector);
        lemma_byte_step_injective(a ^ z, b ^ z);
    }
}

/// Changing exactly one byte of the data changes the folded register.
pub proof fn lemma_crc_update_single_byte(s: u32, a: Seq<u8>, b: Seq<u8>, j: int)
    requires
        a.len() == b.len(),
        0 <= j < a.len(),
        a[j] != b[j],
        forall|i: int| 0 <= i < a.len() && i != j ==> a[i] == b[i],
    ensures
        crc_update(s, a) != crc_update(s, b),
    decreases a.len(),
{
    if j == a.len() - 1 {
        assert(a.drop_last() =~= b.drop_last());
        let p = crc_update(s, a.drop_last());
        let x = a.last() as u32;
        let y = b.last() as u32;
        assert(x != y ==> p ^ x != p ^ y) by (bit_vector);
        lemma_byte_step_injective(p ^ x, p ^ y);
    } else {
        lemma_crc_update_single_byte(s, a.drop_last(), b.drop_last(), j);
        let p = crc_update(s, a.drop_last());
        let q = crc_update(s, b.drop_last());
        let z = a.last() as u32;
        assert(a.last() == b.last());
        assert(p != q ==> p ^ z != q ^ z) by (bit_vector);
        lemma_byte_step_injective(p ^ z, q ^ z);
    }
}

/// A CRC32C detects every single-byte change: two byte strings of equal
/// length that differ in exactly one position have different checksums.
pub proof fn lemma_crc32c_detects_single_byte_change(a: Seq<u8>, b: Seq<u8>, j: int)
    requires
        a.len() == b.len(),
        0 <= j < a.len(),
        a[j] != b[j],
        forall|i: int| 0 <= i < a.len() && i != j ==> a[i] == b[i],
    ensures
        crc32c_spec(a) != crc32c_spec(b),
{
    lemma_crc_update_single_byte(CRC_INIT, a, b, j);
    let p = crc_update(CRC_INIT, a);
    let q = crc_update(CRC_INIT, b);
    assert(p != q ==> p ^ 0xFFFF_FFFFu32 != q ^ 0xFFFF_FFFFu32) by (bit_vector);
}

/// Streaming two parts through one register equals checksumming their
/// concatenation.
pub proof fn lemma_crc32c_streaming(a: Seq<u8>, b: Seq<u8>)
    ensures
        crc_update(crc_update(CRC_INIT, a), b) ^ CRC_INIT == crc32c_spec(a + b),
{
    lemma_crc_update_concat(CRC_INIT, a, b);
}

// ---------------------------------------------------------------------------
// Executable checksum.

/// `t` holds the eight slice-by-eight lookup tables.
pub open spec fn crc_tables(t: Seq<u32>) -> bool {
    &&& t.len() == 2048
    &&& forall|k: int, i: int|
        0 <= k < 8 && 0 <= i < 256 ==> #[trigger] t[k * 256 + i] == byte_steps(i as u32, (k + 1) as nat)
}

/// The eight slice-by-eight lookup tables, table `k` at offsets
/// `k * 256 .. (k + 1) * 256`: entry `i` of table `k` is the register after
/// `k + 1` byte steps from `i`.
fn generate_tables() -> (tables: Vec<u32>)
    ensures
        tables@.len() == 2048,
        forall|k: int, i: int|
            0 <= k < 8 && 0 <= i < 256 ==> #[trigger] tables@[k * 256 + i] == byte_steps(
                i as u32,
                (k + 1) as nat,
            ),
{
    let mut tables: Vec<u32> = Vec::with_capacity(2048);
    // Table 0: the register after one byte step from each byte value.
    let mut n: usize = 0;
    while n < 256
        invariant
            n <= 256,
            tables@.len() == n,
            forall|i: int| 0 <= i < n ==> #[trigger] tables@[i] == byte_steps(i as u32, 1),
        decreases 256 - n,
    {
        let mut crc: u32 = n as u32;
        let mut bit: usize = 0;
        while bit < 8
            invariant
                n < 256,
                bit <= 8,
                crc == bit_steps(n as u32, bit as nat),
            decreases 8 - bit,
        {
            crc = if crc & 1 != 0 {
                (crc >> 1) ^ POLY
            } else {
                crc >> 1
            };
            bit += 1;
        }
        proof {
            lemma_byte_step_bits(n as u32);
            reveal_with_fuel(byte_steps, 2);
        }
        tables.push(crc);
        n += 1;
    }
    // Tables 1..8: each extends the previous by one byte step.
    let mut slice: usize = 1;
    while slice < 8
        invariant
            1 <= slice <= 8,
            tables@.len() == slice * 256,
            forall|k: int, i: int|
                0 <= k < slice && 0 <= i < 256 ==> #[trigger] tables@[k * 256 + i] == byte_steps(
                    i as u32,
                    (k + 1) as nat,
                ),
        decreases 8 - slice,
    {
        let mut i: usize = 0;
        while i < 256
            invariant
                1 <= slice < 8,
                i <= 256,
                tables@.len() == slice * 256 + i,
                forall|k: int, j: int|
                    0 <= k < slice && 0 <= j < 256 ==> #[trigger] tables@[k * 256 + j]
                        == byte_steps(j as u32, (k + 1) as nat),
                forall|j: int|
                    0 <= j < i ==> #[trigger] tables@[slice * 256 + j] == byte_steps(
                        j as u32,
                        (slice + 1) as nat,
                    ),
            decreases 256 - i,
        {
            let prev = tables[(slice - 1) * 256 + i];
            assert(prev & 0xff < 256) by (bit_vector);
            let low = (prev & 0xff) as usize;
            let next = (prev >> 8) ^ tables[low];
            proof {
                assert(tables@[(slice - 1) * 256 + i] == byte_steps(i as u32, slice as nat));
                assert(tables@[0 * 256 + low] == byte_steps(low as u32, 1));
                reveal_with_fuel(byte_steps, 2);
                lemma_byte_step_split(prev);
                assert(low as u32 == prev & 0xff);
            }
            tables.push(next);
            proof {
                assert forall|k: int, j: int|
                    0 <= k < slice && 0 <= j < 256 implies #[trigger] tables@[k * 256 + j]
                    == byte_steps(j as u32, (k + 1) as nat) by {
                    assert(k * 256 + j < slice * 256);
                }
            }
            i += 1;
        }
        slice += 1;
    }
    tables
}

/// Advance the register `crc` over `data`.
fn process(tables: &Vec<u32>, crc: u32, data: &[u8]) -> (out: u32)
    requires
        crc_tables(tables@),
    ensures
        out == crc_update(crc, data@),
{
    let ghost start = crc;
    let mut crc = crc;
    let len = data.len();
    let mut i: usize = 0;
    while len - i >= 8
        invariant
            len == data@.len(),
            i <= len,
            tables@.len() == 2048,
            forall|k: int, j: int|
                0 <= k < 8 && 0 <= j < 256 ==> #[trigger] tables@[k * 256 + j] == byte_steps(
                    j as u32,
                    (k + 1) as nat,
                ),
            crc == crc_update(start, data@.take(i as int)),
        decreases len - i,
    {
        let ghost chunk = data@.subrange(i as int, i + 8);
        let lo = (data[i] as u32) | ((data[i + 1] as u32) << 8) | ((data[i + 2] as u32) << 16) | ((
        data[i + 3] as u32) << 24);
        let hi = (data[i + 4] as u32) | ((data[i + 5] as u32) << 8) | ((data[i + 6] as u32) << 16)
            | ((data[i + 7] as u32) << 24);
        let c = crc ^ lo;
        proof {
            lemma_word_bytes(c);
            lemma_word_bytes(hi);
        }
        let next = tables[7 * 256 + (c & 0xff) as usize] ^ tables[6 * 256 + ((c >> 8) & 0xff) as usize]
            ^ tables[5 * 256 + ((c >> 16) & 0xff) as usize] ^ tables[4 * 256 + ((c >> 24) & 0xff) as usize]
            ^ tables[3 * 256 + (hi & 0xff) as usize] ^ tables[2 * 256 + ((hi >> 8) & 0xff) as usize]
            ^ tables[256 + ((hi >> 16) & 0xff) as usize] ^ tables[((hi >> 24) & 0xff) as usize];
        proof {
            lemma_eight_bytes(crc, chunk);
            lemma_crc_update_concat(start, data@.take(i as int), chunk);
            assert(data@.take(i as int) + chunk =~= data@.take(i + 8));
            assert(tables@[0 * 256 + ((hi >> 24u32) & 0xffu32) as int] == byte_steps(
                (hi >> 24u32) & 0xffu32,
                1,
            ));
            assert(tables@[1 * 256 + ((hi >> 16u32) & 0xffu32) as int] == byte_steps(
                (hi >> 16u32) & 0xffu32,
                2,
            ));
        }
        crc = next;
        i += 8;
    }
    while i < len
        invariant
            len == data@.len(),
            i <= len,
            tables@.len() == 2048,
            forall|k: int, j: int|
                0 <= k < 8 && 0 <= j < 256 ==> #[trigger] tables@[k * 256 + j] == byte_steps(
                    j as u32,
                    (k + 1) as nat,
                ),
            crc == crc_update(start, data@.take(i as int)),
        decreases len - i,
    {
        let x = crc ^ data[i] as u32;
        assert(x & 0xff < 256) by (bit_vector);
        let low = (x & 0xff) as usize;
        let next = (crc >> 8) ^ tables[low];
        proof {
            lemma_crc_update_take(start, data@, i as int);
            assert(tables@[0 * 256 + low] == byte_steps(low as u32, 1));
            reveal_with_fuel(byte_steps, 2);
            lemma_byte_step_split(x);
            let b = data@[i as int] as u32;
            assert(b < 256 ==> (crc ^ b) >> 8u32 == crc >> 8u32) by (bit_vector);
        }
        crc = next;
        i += 1;
    }
    proof {
        assert(data@.take(len as int) =~= data@);
    }
    crc
}

/// A streaming CRC32C accumulator.
///
/// Feeding several byte ranges through one accumulator gives the same result
/// as checksumming their concatenation.
#[derive(Debug)]
pub struct Crc32c {
    state: u32,
    tables: Vec<u32>,
}

impl View for Crc32c {
    type V = u32;

    /// The CRC register.
    closed spec fn view(&self) -> u32 {
        self.state
    }
}

impl Clone for Crc32c {
    /// A copy of the accumulator, at the same point of its checksum.
    fn clone(&self) -> (h: Self)
        ensures
            h@ == self@,
    {
        proof {
            use_type_invariant(self);
        }
        let mut tables: Vec<u32> = Vec::with_capacity(2048);
        let mut i: usize = 0;
        while i < self.tables.len()
            invariant
                self.tables@.len() == 2048,
                i <= 2048,
                tables@ == self.tables@.subrange(0, i as int),
            decreases 2048 - i,
        {
            tables.push(self.tables[i]);
            i += 1;
            proof {
                assert(tables@ =~= self.tables@.subrange(0, i as int));
            }
        }
        proof {
            assert(tables@ =~= self.tables@);
        }
        Crc32c { state: self.state, tables }
    }
}

impl Default for Crc32c {
    fn default() -> (h: Self)
        ensures
            h@ == CRC_INIT,
    {
        Self::new()
    }
}

impl Crc32c {
    #[verifier::type_invariant]
    closed spec fn inv(self) -> bool {
        crc_tables(self.tables@)
    }

    /// Start a fresh checksum. The lookup tables are built here, once for
    /// every range this accumulator is fed.
    pub fn new() -> (h: Self)
        ensures
            h@ == CRC_INIT,
    {
        Crc32c { state: CRC_INIT, tables: generate_tables() }
    }

    /// Fold `data` into the running checksum.
    pub fn update(&mut self, data: &[u8])
        ensures
            final(self)@ == crc_update(old(self)@, data@),
    {
        proof {
            use_type_invariant(&*self);
        }
        let next = process(&self.tables, self.state, data);
        self.state = next;
    }

    /// Consume the accumulator and return the final CRC32C value.
    pub fn finalize(self) -> (crc: u32)
        ensures
            crc == self@ ^ CRC_INIT,
    {
        self.state ^ CRC_INIT
    }
}

/// The CRC32C of a single contiguous buffer.
pub fn crc32c(data: &[u8]) -> (crc: u32)
    ensures
        crc == crc32c_spec(data@),
{
    let mut h = Crc32c::new();
    h.update(data);
    h.finalize()
}

} // verus!
