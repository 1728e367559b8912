//! Little-endian integer fields inside byte buffers.
//!
//! Every multi-byte integer that page-db stores is little-endian. The model is
//! arithmetic: a field of `n` bytes holds `b[0] + 256 * b[1] + ... + 256^(n-1) * b[n-1]`.
use vstd::prelude::*;

verus! {

/// `256^n`: one more than the largest value an `n`-byte field holds.
pub open spec fn byte_bound(n: nat) -> nat
    decreases n,
{
    if n == 0 {
        1
    } else {
        256 * byte_bound((n - 1) as nat)
    }
}

/// The unsigned value of a little-endian byte string.
pub open spec fn le_value(s: Seq<u8>) -> nat
    decreases s.len(),
{
    if s.len() == 0 {
        0
    } else {
        (s[0] + 256 * le_value(s.drop_first())) as nat
    }
}

/// The `n`-byte little-endian encoding of `v` (the low `n` bytes of `v`).
pub open spec fn le_bytes(v: nat, n: nat) -> Seq<u8>
    decreases n,
{
    if n == 0 {
        Seq::empty()
    } else {
        seq![(v % 256) as u8] + le_bytes(v / 256, (n - 1) as nat)
    }
}

/// The value of the `n`-byte field at offset `off` of `s`.
pub open spec fn field(s: Seq<u8>, off: int, n: nat) -> nat {
    le_value(s.subrange(off, off + n))
}

/// `s` with the `n`-byte field at `off` replaced by the encoding of `v`.
pub open spec fn put_field(s: Seq<u8>, off: int, n: nat, v: nat) -> Seq<u8> {
    s.subrange(0, off) + le_bytes(v, n) + s.subrange(off + n, s.len() as int)
}

pub proof fn lemma_le_bytes_len(v: nat, n: nat)
    ensures
        le_bytes(v, n).len() == n,
    decreases n,
{
    if n > 0 {
        lemma_le_bytes_len(v / 256, (n - 1) as nat);
    }
}

pub proof fn lemma_le_value_bound(s: Seq<u8>)
    ensures
        le_value(s) < byte_bound(s.len()),
    decreases s.len(),
{
    if s.len() > 0 {
        lemma_le_value_bound(s.drop_first());
    }
}

/// Decoding an encoding gives back the value, when it fits in the field.
pub proof fn lemma_le_roundtrip(v: nat, n: nat)
    requires
        v < byte_bound(n),
    ensures
        le_value(le_bytes(v, n)) == v,
    decreases n,
{
    if n > 0 {
        lemma_le_bytes_len(v / 256, (n - 1) as nat);
        lemma_le_roundtrip(v / 256, (n - 1) as nat);
        assert(le_bytes(v, n).drop_first() =~= le_bytes(v / 256, (n - 1) as nat));
    }
}

/// Encoding a decoded string gives back the string.
pub proof fn lemma_le_bytes_of_value(s: Seq<u8>)
    ensures
        le_bytes(le_value(s), s.len()) == s,
    decreases s.len(),
{
    if s.len() > 0 {
        lemma_le_bytes_of_value(s.drop_first());
        let t = le_bytes(le_value(s), s.len());
        lemma_le_bytes_len(le_value(s), s.len());
        assert(t =~= s) by {
            assert(t.drop_first() == le_bytes(le_value(s.drop_first()), s.drop_first().len()));
        }
    }
}

pub proof fn lemma_byte_bounds()
    ensures
        byte_bound(2) == 0x1_0000,
        byte_bound(4) == 0x1_0000_0000,
        byte_bound(8) == 0x1_0000_0000_0000_0000,
{
    reveal_with_fuel(byte_bound, 9);
}

/// Writing a field and reading it back gives the written value; the rest of
/// the buffer is untouched.
pub proof fn lemma_put_field(s: Seq<u8>, off: int, n: nat, v: nat)
    requires
        0 <= off,
        off + n <= s.len(),
        v < byte_bound(n),
    ensures
        put_field(s, off, n, v).len() == s.len(),
        field(put_field(s, off, n, v), off, n) == v,
        forall|i: int|
            0 <= i < s.len() && !(off <= i < off + n) ==> #[trigger] put_field(s, off, n, v)[i]
                == s[i],
{
    lemma_le_bytes_len(v, n);
    let t = put_field(s, off, n, v);
    assert(t.subrange(off, off + n) =~= le_bytes(v, n));
    lemma_le_roundtrip(v, n);
}

/// Writing one field leaves every field that does not overlap it unchanged.
pub proof fn lemma_put_field_other(s: Seq<u8>, off: int, n: nat, v: nat, off2: int, n2: nat)
    requires
        0 <= off,
        off + n <= s.len(),
        v < byte_bound(n),
        0 <= off2,
        off2 + n2 <= s.len(),
        off2 + n2 <= off || off + n <= off2,
    ensures
        field(put_field(s, off, n, v), off2, n2) == field(s, off2, n2),
        put_field(s, off, n, v).subrange(off2, off2 + n2) == s.subrange(off2, off2 + n2),
{
    lemma_put_field(s, off, n, v);
    assert(put_field(s, off, n, v).subrange(off2, off2 + n2) =~= s.subrange(off2, off2 + n2));
}

/// Two fields with equal values have equal bytes.
pub proof fn lemma_field_injective(s: Seq<u8>, t: Seq<u8>, off: int, n: nat)
    requires
        0 <= off,
        off + n <= s.len(),
        off + n <= t.len(),
        field(s, off, n) == field(t, off, n),
    ensures
        s.subrange(off, off + n) == t.subrange(off, off + n),
{
    lemma_le_bytes_of_value(s.subrange(off, off + n));
    lemma_le_bytes_of_value(t.subrange(off, off + n));
}

/// Read the `n`-byte little-endian field at `off`.
pub fn read_le(bytes: &[u8], off: usize, n: usize) -> (v: u64)
    requires
        n <= 8,
        off + n <= bytes@.len(),
    ensures
        v as nat == field(bytes@, off as int, n as nat),
{
    proof {
        lemma_byte_bounds();
    }
    let mut v: u64 = 0;
    let mut i: usize = n;
    assert(off + n <= bytes.len());
    while i > 0
        invariant
            n <= 8,
            off + n <= bytes@.len(),
            off + n <= usize::MAX,
            i <= n,
            v as nat == le_value(bytes@.subrange(off + i, off + n)),
            byte_bound(8) == 0x1_0000_0000_0000_0000,
        decreases i,
    {
        let ghost rest = bytes@.subrange(off + i, off + n);
        let ghost s = bytes@.subrange(off + i - 1, off + n);
        proof {
            assert(s.drop_first() =~= rest);
            lemma_le_value_bound(rest);
            lemma_bound_mono(rest.len(), 7);
        }
        v = v * 256 + bytes[off + i - 1] as u64;
        i = i - 1;
    }
    v
}

pub proof fn lemma_bound_mono(a: nat, b: nat)
    requires
        a <= b,
    ensures
        byte_bound(a) <= byte_bound(b),
    decreases b,
{
    if a < b {
        lemma_bound_mono(a, (b - 1) as nat);
    }
}

/// Write `v` as the `n`-byte little-endian field at `off`.
pub fn write_le(bytes: &mut [u8], off: usize, n: usize, v: u64)
    requires
        n <= 8,
        off + n <= old(bytes)@.len(),
        (v as nat) < byte_bound(n as nat),
    ensures
        final(bytes)@ == put_field(old(bytes)@, off as int, n as nat, v as nat),
        final(bytes)@.len() == old(bytes)@.len(),
{
    let ghost orig = bytes@;
    assert(off + n <= bytes.len());
    let mut rem: u64 = v;
    let mut i: usize = 0;
    while i < n
        invariant
            n <= 8,
            off + n <= orig.len(),
            off + n <= usize::MAX,
            bytes@.len() == orig.len(),
            i <= n,
            le_bytes(v as nat, n as nat) == bytes@.subrange(off as int, off + i) + le_bytes(
                rem as nat,
                (n - i) as nat,
            ),
            forall|j: int|
                0 <= j < orig.len() && !(off <= j < off + i) ==> #[trigger] bytes@[j] == orig[j],
        decreases n - i,
    {
        let ghost before = bytes@;
        proof {
            lemma_le_bytes_len(rem as nat / 256, (n - i - 1) as nat);
        }
        bytes[off + i] = (rem % 256) as u8;
        proof {
            assert(bytes@.subrange(off as int, off + i + 1) =~= before.subrange(off as int, off + i)
                + seq![(rem % 256) as u8]);
            assert(le_bytes(rem as nat, (n - i) as nat) == seq![(rem as nat % 256) as u8]
                + le_bytes(rem as nat / 256, (n - i - 1) as nat));
        }
        rem = rem / 256;
        i = i + 1;
    }
    proof {
        lemma_le_bytes_len(v as nat, n as nat);
        assert(le_bytes(rem as nat, 0) =~= Seq::<u8>::empty());
        assert(bytes@ =~= put_field(orig, off as int, n as nat, v as nat));
    }
}

/// Read the `u16` at `off`.
pub fn read_u16(bytes: &[u8], off: usize) -> (v: u16)
    requires
        off + 2 <= bytes@.len(),
    ensures
        v as nat == field(bytes@, off as int, 2),
{
    proof {
        lemma_le_value_bound(bytes@.subrange(off as int, off + 2));
        lemma_byte_bounds();
    }
    read_le(bytes, off, 2) as u16
}

/// Read the `u32` at `off`.
pub fn read_u32(bytes: &[u8], off: usize) -> (v: u32)
    requires
        off + 4 <= bytes@.len(),
    ensures
        v as nat == field(bytes@, off as int, 4),
{
    proof {
        lemma_le_value_bound(bytes@.subrange(off as int, off + 4));
        lemma_byte_bounds();
    }
    read_le(bytes, off, 4) as u32
}

/// Read the `u64` at `off`.
pub fn read_u64(bytes: &[u8], off: usize) -> (v: u64)
    requires
        off + 8 <= bytes@.len(),
    ensures
        v as nat == field(bytes@, off as int, 8),
{
    read_le(bytes, off, 8)
}

/// Write the `u16` `value` at `off`.
pub fn write_u16(bytes: &mut [u8], off: usize, value: u16)
    requires
        off + 2 <= old(bytes)@.len(),
    ensures
        final(bytes)@ == put_field(old(bytes)@, off as int, 2, value as nat),
        final(bytes)@.len() == old(bytes)@.len(),
{
    proof {
        lemma_byte_bounds();
    }
    write_le(bytes, off, 2, value as u64);
}

/// Write the `u32` `value` at `off`.
pub fn write_u32(bytes: &mut [u8], off: usize, value: u32)
    requires
        off + 4 <= old(bytes)@.len(),
    ensures
        final(bytes)@ == put_field(old(bytes)@, off as int, 4, value as nat),
        final(bytes)@.len() == old(bytes)@.len(),
{
    proof {
        lemma_byte_bounds();
    }
    write_le(bytes, off, 4, value as u64);
}

/// Write the `u64` `value` at `off`.
pub fn write_u64(bytes: &mut [u8], off: usize, value: u64)
    requires
        off + 8 <= old(bytes)@.len(),
    ensures
        final(bytes)@ == put_field(old(bytes)@, off as int, 8, value as nat),
        final(bytes)@.len() == old(bytes)@.len(),
{
    proof {
        lemma_byte_bounds();
    }
    write_le(bytes, off, 8, value);
}

} // verus!
