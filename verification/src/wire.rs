//! Little-endian integer fields of archive headers.
use vstd::prelude::*;

verus! {

pub open spec fn u64_le(n: u64) -> Seq<u8> {
    seq![
        n as u8,
        (n >> 8u64) as u8,
        (n >> 16u64) as u8,
        (n >> 24u64) as u8,
        (n >> 32u64) as u8,
        (n >> 40u64) as u8,
        (n >> 48u64) as u8,
        (n >> 56u64) as u8,
    ]
}

pub open spec fn u64_of(b0: u8, b1: u8, b2: u8, b3: u8, b4: u8, b5: u8, b6: u8, b7: u8) -> u64 {
    (b0 as u64) | ((b1 as u64) << 8u64) | ((b2 as u64) << 16u64) | ((b3 as u64) << 24u64) | ((
    b4 as u64) << 32u64) | ((b5 as u64) << 40u64) | ((b6 as u64) << 48u64) | ((b7 as u64) << 56u64)
}

/// The little-endian `u64` stored at `off` in `s`.
pub open spec fn le_u64_at(s: Seq<u8>, off: int) -> u64 {
    u64_of(s[off], s[off + 1], s[off + 2], s[off + 3], s[off + 4], s[off + 5], s[off + 6], s[off + 7])
}

pub open spec fn u32_le(n: u32) -> Seq<u8> {
    seq![n as u8, (n >> 8u32) as u8, (n >> 16u32) as u8, (n >> 24u32) as u8]
}

pub open spec fn le_u32_at(s: Seq<u8>, off: int) -> u32 {
    (s[off] as u32) | ((s[off + 1] as u32) << 8u32) | ((s[off + 2] as u32) << 16u32) | ((s[off
        + 3] as u32) << 24u32)
}

pub open spec fn u16_le(n: u16) -> Seq<u8> {
    seq![n as u8, (n >> 8u16) as u8]
}

pub open spec fn le_u16_at(s: Seq<u8>, off: int) -> u16 {
    (s[off] as u16) | ((s[off + 1] as u16) << 8u16)
}

/// Reading back what `u64_le` wrote.
pub proof fn lemma_u64_roundtrip(n: u64, pre: Seq<u8>, post: Seq<u8>)
    ensures
        le_u64_at(pre + u64_le(n) + post, pre.len() as int) == n,
{
    let s = pre + u64_le(n) + post;
    let o = pre.len() as int;
    assert(s[o] == n as u8);
    assert(s[o + 1] == (n >> 8u64) as u8);
    assert(s[o + 2] == (n >> 16u64) as u8);
    assert(s[o + 3] == (n >> 24u64) as u8);
    assert(s[o + 4] == (n >> 32u64) as u8);
    assert(s[o + 5] == (n >> 40u64) as u8);
    assert(s[o + 6] == (n >> 48u64) as u8);
    assert(s[o + 7] == (n >> 56u64) as u8);
    assert(u64_of(
        n as u8,
        (n >> 8u64) as u8,
        (n >> 16u64) as u8,
        (n >> 24u64) as u8,
        (n >> 32u64) as u8,
        (n >> 40u64) as u8,
        (n >> 48u64) as u8,
        (n >> 56u64) as u8,
    ) == n) by (bit_vector);
}

pub proof fn lemma_u32_roundtrip(n: u32, pre: Seq<u8>, post: Seq<u8>)
    ensures
        le_u32_at(pre + u32_le(n) + post, pre.len() as int) == n,
{
    let s = pre + u32_le(n) + post;
    let o = pre.len() as int;
    assert(s[o] == n as u8);
    assert(s[o + 1] == (n >> 8u32) as u8);
    assert(s[o + 2] == (n >> 16u32) as u8);
    assert(s[o + 3] == (n >> 24u32) as u8);
    let b0 = n as u8;
    let b1 = (n >> 8u32) as u8;
    let b2 = (n >> 16u32) as u8;
    let b3 = (n >> 24u32) as u8;
    assert((b0 as u32) | ((b1 as u32) << 8u32) | ((b2 as u32) << 16u32) | ((b3 as u32) << 24u32)
        == n) by (bit_vector)
        requires
            b0 == n as u8,
            b1 == (n >> 8u32) as u8,
            b2 == (n >> 16u32) as u8,
            b3 == (n >> 24u32) as u8,
    ;
}

pub proof fn lemma_u16_roundtrip(n: u16, pre: Seq<u8>, post: Seq<u8>)
    ensures
        le_u16_at(pre + u16_le(n) + post, pre.len() as int) == n,
{
    let s = pre + u16_le(n) + post;
    let o = pre.len() as int;
    assert(s[o] == n as u8);
    assert(s[o + 1] == (n >> 8u16) as u8);
    let b0 = n as u8;
    let b1 = (n >> 8u16) as u8;
    assert((b0 as u16) | ((b1 as u16) << 8u16) == n) by (bit_vector)
        requires
            b0 == n as u8,
            b1 == (n >> 8u16) as u8,
    ;
}

/// Append `n` in little-endian order.
pub fn push_u64_le(out: &mut Vec<u8>, n: u64)
    ensures
        final(out)@ == old(out)@ + u64_le(n),
{
    out.push(n as u8);
    out.push((n >> 8) as u8);
    out.push((n >> 16) as u8);
    out.push((n >> 24) as u8);
    out.push((n >> 32) as u8);
    out.push((n >> 40) as u8);
    out.push((n >> 48) as u8);
    out.push((n >> 56) as u8);
    assert(final(out)@ =~= old(out)@ + u64_le(n));
}

pub fn push_u32_le(out: &mut Vec<u8>, n: u32)
    ensures
        final(out)@ == old(out)@ + u32_le(n),
{
    out.push(n as u8);
    out.push((n >> 8) as u8);
    out.push((n >> 16) as u8);
    out.push((n >> 24) as u8);
    assert(final(out)@ =~= old(out)@ + u32_le(n));
}

pub fn push_u16_le(out: &mut Vec<u8>, n: u16)
    ensures
        final(out)@ == old(out)@ + u16_le(n),
{
    out.push(n as u8);
    out.push((n >> 8) as u8);
    assert(final(out)@ =~= old(out)@ + u16_le(n));
}

/// The little-endian `u64` at `off`.
pub fn read_u64_le(s: &[u8], off: usize) -> (n: u64)
    requires
        off + 8 <= s@.len(),
    ensures
        n == le_u64_at(s@, off as int),
{
    (s[off] as u64) | ((s[off + 1] as u64) << 8) | ((s[off + 2] as u64) << 16) | ((s[off
        + 3] as u64) << 24) | ((s[off + 4] as u64) << 32) | ((s[off + 5] as u64) << 40) | ((s[off
        + 6] as u64) << 48) | ((s[off + 7] as u64) << 56)
}

pub fn read_u32_le(s: &[u8], off: usize) -> (n: u32)
    requires
        off + 4 <= s@.len(),
    ensures
        n == le_u32_at(s@, off as int),
{
    (s[off] as u32) | ((s[off + 1] as u32) << 8) | ((s[off + 2] as u32) << 16) | ((s[off
        + 3] as u32) << 24)
}

pub fn read_u16_le(s: &[u8], off: usize) -> (n: u16)
    requires
        off + 2 <= s@.len(),
    ensures
        n == le_u16_at(s@, off as int),
{
    (s[off] as u16) | ((s[off + 1] as u16) << 8)
}

/// Append all of `src`.
pub fn append_bytes(out: &mut Vec<u8>, src: &[u8])
    ensures
        final(out)@ == old(out)@ + src@,
{
    let ghost o = out@;
    let mut k: usize = 0;
    while k < src.len()
        invariant
            k <= src.len(),
            out@ == o + src@.take(k as int),
        decreases src.len() - k,
    {
        out.push(src[k]);
        proof {
            assert(src@.take(k + 1) == src@.take(k as int).push(src@[k as int]));
        }
        k += 1;
    }
    assert(src@.take(src.len() as int) == src@);
}

/// The bytes `s[start..end]`.
pub fn slice_range(s: &[u8], start: usize, end: usize) -> (r: &[u8])
    requires
        start <= end <= s@.len(),
    ensures
        r@ == s@.subrange(start as int, end as int),
{
    &s[start..end]
}

} // verus!
