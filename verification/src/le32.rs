//! Little-endian encoding of signed 32-bit integers as four bytes.

use vstd::prelude::*;

verus! {

/// The unsigned value that four bytes hold in little-endian order: the
/// first byte is the least significant.
pub open spec fn le_quad(b0: u8, b1: u8, b2: u8, b3: u8) -> int {
    b0 + 0x100 * b1 + 0x1_0000 * b2 + 0x100_0000 * b3
}

/// The signed reading (two's complement) of an unsigned value below 2^32.
pub open spec fn signed32(n: int) -> int
    recommends
        0 <= n < 0x1_0000_0000,
{
    if n < 0x8000_0000 {
        n
    } else {
        n - 0x1_0000_0000
    }
}

/// The unsigned value below 2^32 whose signed reading is `v`.
pub open spec fn unsigned32(v: i32) -> int {
    if v >= 0 {
        v as int
    } else {
        v + 0x1_0000_0000
    }
}

/// The signed 32-bit value stored little-endian at offset `i` of `s`.
pub open spec fn le_i32_at(s: Seq<u8>, i: int) -> i32
    recommends
        0 <= i,
        i + 4 <= s.len(),
{
    signed32(le_quad(s[i], s[i + 1], s[i + 2], s[i + 3])) as i32
}

/// Byte `k` (0 = least significant) of the little-endian encoding of `v`:
/// digit `k` of `v`'s unsigned reading in base 256.
pub open spec fn le_byte_of(v: i32, k: int) -> u8
    recommends
        0 <= k < 4,
{
    let n = unsigned32(v);
    if k == 0 {
        (n % 0x100) as u8
    } else if k == 1 {
        ((n / 0x100) % 0x100) as u8
    } else if k == 2 {
        ((n / 0x1_0000) % 0x100) as u8
    } else {
        ((n / 0x100_0000) % 0x100) as u8
    }
}

/// The four bytes that encode `v` little-endian.
pub open spec fn le_bytes_of(v: i32) -> Seq<u8> {
    seq![le_byte_of(v, 0), le_byte_of(v, 1), le_byte_of(v, 2), le_byte_of(v, 3)]
}

/// The signed and the unsigned reading name the same 32-bit pattern:
/// `signed32` undoes `unsigned32`.
pub proof fn lemma_signed_of_unsigned(v: i32)
    ensures
        0 <= unsigned32(v) < 0x1_0000_0000,
        signed32(unsigned32(v)) == v,
{
}

/// Reassembling the four base-256 digits of `v`'s encoding gives back
/// `v`'s unsigned reading: `le_quad` undoes `le_bytes_of`.
pub proof fn lemma_le_quad_of_bytes(v: i32)
    ensures
        le_quad(le_byte_of(v, 0), le_byte_of(v, 1), le_byte_of(v, 2), le_byte_of(v, 3))
            == unsigned32(v),
{
    let n = unsigned32(v);
    vstd::arithmetic::div_mod::lemma_fundamental_div_mod(n, 0x100);
    vstd::arithmetic::div_mod::lemma_fundamental_div_mod(n / 0x100, 0x100);
    vstd::arithmetic::div_mod::lemma_fundamental_div_mod(n / 0x1_0000, 0x100);
    vstd::arithmetic::div_mod::lemma_div_denominator(n, 0x100, 0x100);
    vstd::arithmetic::div_mod::lemma_div_denominator(n, 0x1_0000, 0x100);
    vstd::arithmetic::div_mod::lemma_mod_division_less_than_divisor(n, 0x100);
    vstd::arithmetic::div_mod::lemma_mod_division_less_than_divisor(n / 0x100, 0x100);
    vstd::arithmetic::div_mod::lemma_mod_division_less_than_divisor(n / 0x1_0000, 0x100);
    assert(0 <= n / 0x100_0000 < 0x100) by {
        vstd::arithmetic::div_mod::lemma_div_pos_is_pos(n, 0x100_0000);
        vstd::arithmetic::div_mod::lemma_multiply_divide_lt(n, 0x100_0000, 0x100);
    }
    vstd::arithmetic::div_mod::lemma_small_mod((n / 0x100_0000) as nat, 0x100);
}

/// Decodes the little-endian signed 32-bit integer at offset `i` of `bytes`.
pub fn read_i32_le(bytes: &[u8], i: usize) -> (r: i32)
    requires
        i + 4 <= bytes@.len(),
    ensures
        r == le_i32_at(bytes@, i as int),
{
    let n: u32 = bytes[i] as u32 + 0x100 * (bytes[i + 1] as u32) + 0x1_0000 * (bytes[i + 2] as u32)
        + 0x100_0000 * (bytes[i + 3] as u32);
    if n < 0x8000_0000 {
        n as i32
    } else {
        let m: u32 = u32::MAX - n;
        -(m as i32) - 1
    }
}

/// Appends the four little-endian bytes of `v` to `out`.
pub fn push_i32_le(out: &mut Vec<u8>, v: i32)
    ensures
        final(out)@ == old(out)@ + le_bytes_of(v),
{
    let n: u32 = if v >= 0 {
        v as u32
    } else {
        ((v as i64) + 0x1_0000_0000) as u32
    };
    out.push((n % 0x100) as u8);
    out.push(((n / 0x100) % 0x100) as u8);
    out.push(((n / 0x1_0000) % 0x100) as u8);
    out.push((n / 0x100_0000) as u8);
    proof {
        assert(n == unsigned32(v));
        assert(0 <= n / 0x100_0000 < 0x100) by {
            vstd::arithmetic::div_mod::lemma_div_pos_is_pos(n as int, 0x100_0000);
            vstd::arithmetic::div_mod::lemma_multiply_divide_lt(n as int, 0x100_0000, 0x100);
        }
        vstd::arithmetic::div_mod::lemma_small_mod((n / 0x100_0000) as nat, 0x100);
        assert(out@ =~= old(out)@ + le_bytes_of(v));
    }
}

} // verus!
