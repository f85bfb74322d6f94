//! Small facts about machine-word bit operations, shared by the modules.
use vstd::prelude::*;

verus! {

/// Masking a word never gives more than the mask.
pub proof fn lemma_mask_le(x: usize, m: usize)
    by (bit_vector)
    ensures
        x & m <= m,
{
}

/// The target of a bit on the 12-bit probability scale.
pub proof fn lemma_bit_target(bit: u32)
    by (bit_vector)
    requires
        bit <= 1,
    ensures
        ((bit as i32) << 12i32) == 0 || ((bit as i32) << 12i32) == 4096,
        bit == 0 ==> ((bit as i32) << 12i32) == 0,
        bit == 1 ==> ((bit as i32) << 12i32) == 4096,
{
}

/// Both nibbles of a byte are below 16.
pub proof fn lemma_nibbles(x: u8)
    by (bit_vector)
    ensures
        x >> 4u8 < 16,
        x & 15u8 < 16,
{
}

/// A single bit of a byte is 0 or 1.
pub proof fn lemma_bit_of_byte(x: u8, i: u32)
    by (bit_vector)
    ensures
        (x >> i) & 1u8 <= 1,
{
}

/// An arithmetic shift by 12 of a value within 2^24 stays within 2^12.
pub proof fn lemma_shr12_small(y: i32)
    by (bit_vector)
    requires
        -0x100_0000 <= y <= 0x100_0000,
    ensures
        -4096 <= y >> 12u32 <= 4096,
        -4096 <= y >> 12i32 <= 4096,
        y == 0 ==> y >> 12u32 == 0,
{
}

/// XOR with the same value twice is the identity.
pub proof fn lemma_xor_twice(a: u16, b: u16)
    by (bit_vector)
    ensures
        (a ^ b) ^ b == a,
{
}

/// XOR of two values below 2^bits stays below 2^bits.
pub proof fn lemma_xor_fits(a: u16, b: u16, bits: u32)
    by (bit_vector)
    requires
        (a as u32) < (1u32 << bits),
        (b as u32) < (1u32 << bits),
    ensures
        ((a ^ b) as u32) < (1u32 << bits),
{
}

/// A logit within 2^11 splits into its 128-wide segment and offset, and a
/// non-negative value shifted right by 7 is its quotient by 128.
pub proof fn lemma_logit_split(d: i32, n: i32)
    by (bit_vector)
    requires
        -2048 <= d <= 2047,
        0 <= n,
    ensures
        d == 128 * (d >> 7i32) + (d & 127i32),
        0 <= d & 127i32 <= 127,
        -16 <= d >> 7i32 <= 15,
        n >> 7i32 == n / 128,
{
}

/// A one shifted below the width of a `u16`, `u32` or `u64` is positive.
pub proof fn lemma_one_shl(b: u32)
    by (bit_vector)
    ensures
        b < 16 ==> 1u16 << b >= 1,
        b < 32 ==> 1u32 << b >= 1,
        b < 64 ==> 1u64 << b >= 1,
{
}

/// Shifting a word left by `b`, putting `s` in the freed low bits and
/// keeping the low `m` bits keeps the low `m - b` bits of the word, moved up.
pub proof fn lemma_shift_in(c: u64, s: u64, b: u64, m: u64)
    by (bit_vector)
    requires
        1 <= b <= 16,
        m < 64,
    ensures
        (b <= m && s < (1u64 << b)) ==> ((c << b) | s) & (((1u64 << m) - 1) as u64) == ((c & (((
            1u64 << ((m - b) as u64)) - 1) as u64)) << b) + s,
        m == 0 ==> ((c << b) | s) & (((1u64 << m) - 1) as u64) == 0,
{
}

} // verus!
