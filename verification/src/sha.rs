//! SHA-256 (FIPS 180-4) and lower-case hex encoding.
use vstd::prelude::*;
use vstd::string::StringExecFns;

verus! {

pub const SHA_K: [u32; 64] = [
    0x428a2f98, 0x71374491, 0xb5c0fbcf, 0xe9b5dba5, 0x3956c25b, 0x59f111f1, 0x923f82a4, 0xab1c5ed5,
    0xd807aa98, 0x12835b01, 0x243185be, 0x550c7dc3, 0x72be5d74, 0x80deb1fe, 0x9bdc06a7, 0xc19bf174,
    0xe49b69c1, 0xefbe4786, 0x0fc19dc6, 0x240ca1cc, 0x2de92c6f, 0x4a7484aa, 0x5cb0a9dc, 0x76f988da,
    0x983e5152, 0xa831c66d, 0xb00327c8, 0xbf597fc7, 0xc6e00bf3, 0xd5a79147, 0x06ca6351, 0x14292967,
    0x27b70a85, 0x2e1b2138, 0x4d2c6dfc, 0x53380d13, 0x650a7354, 0x766a0abb, 0x81c2c92e, 0x92722c85,
    0xa2bfe8a1, 0xa81a664b, 0xc24b8b70, 0xc76c51a3, 0xd192e819, 0xd6990624, 0xf40e3585, 0x106aa070,
    0x19a4c116, 0x1e376c08, 0x2748774c, 0x34b0bcb5, 0x391c0cb3, 0x4ed8aa4a, 0x5b9cca4f, 0x682e6ff3,
    0x748f82ee, 0x78a5636f, 0x84c87814, 0x8cc70208, 0x90befffa, 0xa4506ceb, 0xbef9a3f7, 0xc67178f2,
];

pub const SHA_IV: [u32; 8] = [
    0x6a09e667, 0xbb67ae85, 0x3c6ef372, 0xa54ff53a, 0x510e527f, 0x9b05688c, 0x1f83d9ab, 0x5be0cd19,
];

pub open spec fn rotr(x: u32, n: u32) -> u32 {
    (x >> n) | (x << ((32 - n) as u32))
}

pub open spec fn add32(a: u32, b: u32) -> u32 {
    a.wrapping_add(b)
}

/// Working variables a..h of the compression function.
pub struct Vars {
    pub a: u32,
    pub b: u32,
    pub c: u32,
    pub d: u32,
    pub e: u32,
    pub f: u32,
    pub g: u32,
    pub h: u32,
}

pub open spec fn vars_of(h: Seq<u32>) -> Vars {
    Vars { a: h[0], b: h[1], c: h[2], d: h[3], e: h[4], f: h[5], g: h[6], h: h[7] }
}

pub open spec fn big_s0(a: u32) -> u32 {
    rotr(a, 2) ^ rotr(a, 13) ^ rotr(a, 22)
}

pub open spec fn big_s1(e: u32) -> u32 {
    rotr(e, 6) ^ rotr(e, 11) ^ rotr(e, 25)
}

pub open spec fn small_s0(x: u32) -> u32 {
    rotr(x, 7) ^ rotr(x, 18) ^ (x >> 3u32)
}

pub open spec fn small_s1(x: u32) -> u32 {
    rotr(x, 17) ^ rotr(x, 19) ^ (x >> 10u32)
}

pub open spec fn ch(e: u32, f: u32, g: u32) -> u32 {
    (e & f) ^ ((!e) & g)
}

pub open spec fn maj(a: u32, b: u32, c: u32) -> u32 {
    (a & b) ^ (a & c) ^ (b & c)
}

/// Number of zero bytes after the 0x80 marker so that the length field ends
/// on a 64-byte boundary.
pub open spec fn zero_pad(len: nat) -> nat {
    ((119 - (len % 64)) % 64) as nat
}

pub open spec fn u64_be(n: u64) -> Seq<u8> {
    seq![
        (n >> 56u64) as u8,
        (n >> 48u64) as u8,
        (n >> 40u64) as u8,
        (n >> 32u64) as u8,
        (n >> 24u64) as u8,
        (n >> 16u64) as u8,
        (n >> 8u64) as u8,
        n as u8,
    ]
}

/// The padded message: data, 0x80, zeros, then the bit length (mod 2^64)
/// big-endian.
pub open spec fn padded(data: Seq<u8>) -> Seq<u8> {
    data + seq![0x80u8] + Seq::new(zero_pad(data.len()), |i: int| 0u8) + u64_be(
        ((data.len() * 8) % 0x1_0000_0000_0000_0000) as u64,
    )
}

/// Big-endian word at byte offset `off`.
pub open spec fn word_at(m: Seq<u8>, off: int) -> u32 {
    ((m[off] as u32) << 24u32) | ((m[off + 1] as u32) << 16u32) | ((m[off + 2] as u32) << 8u32) | (
    m[off + 3] as u32)
}

/// Message schedule word `i` of the block at `base`.
pub open spec fn sched(m: Seq<u8>, base: int, i: int) -> u32
    decreases i,
{
    if i < 16 {
        word_at(m, base + 4 * i)
    } else {
        add32(
            add32(add32(sched(m, base, i - 16), small_s0(sched(m, base, i - 15))), sched(m, base, i - 7)),
            small_s1(sched(m, base, i - 2)),
        )
    }
}

/// One compression round on the working variables.
pub open spec fn round(v: Vars, k: u32, w: u32) -> Vars {
    let t1 = add32(add32(add32(add32(v.h, big_s1(v.e)), ch(v.e, v.f, v.g)), k), w);
    let t2 = add32(big_s0(v.a), maj(v.a, v.b, v.c));
    Vars { a: add32(t1, t2), b: v.a, c: v.b, d: v.c, e: add32(v.d, t1), f: v.e, g: v.f, h: v.g }
}

pub open spec fn rounds(h: Seq<u32>, m: Seq<u8>, base: int, i: int) -> Vars
    decreases i,
{
    if i <= 0 {
        vars_of(h)
    } else {
        round(rounds(h, m, base, i - 1), SHA_K@[i - 1], sched(m, base, i - 1))
    }
}

pub open spec fn compress_block(h: Seq<u32>, m: Seq<u8>, base: int) -> Seq<u32> {
    let v = rounds(h, m, base, 64);
    seq![
        add32(h[0], v.a),
        add32(h[1], v.b),
        add32(h[2], v.c),
        add32(h[3], v.d),
        add32(h[4], v.e),
        add32(h[5], v.f),
        add32(h[6], v.g),
        add32(h[7], v.h),
    ]
}

/// Hash state after the first `n` blocks of the padded message.
pub open spec fn hash_blocks(m: Seq<u8>, n: nat) -> Seq<u32>
    decreases n,
{
    if n == 0 {
        SHA_IV@
    } else {
        compress_block(hash_blocks(m, (n - 1) as nat), m, 64 * (n - 1))
    }
}

pub open spec fn digest_bytes(h: Seq<u32>) -> Seq<u8> {
    Seq::new(32, |i: int| (h[i / 4] >> ((24 - 8 * (i % 4)) as u32)) as u8)
}

/// SHA-256 of `data`.
pub open spec fn spec_sha256(data: Seq<u8>) -> Seq<u8> {
    digest_bytes(hash_blocks(padded(data), padded(data).len() / 64))
}

fn rotate_right(x: u32, n: u32) -> (r: u32)
    requires
        0 < n < 32,
    ensures
        r == rotr(x, n),
{
    (x >> n) | (x << (32 - n))
}

fn push_u64_be(out: &mut Vec<u8>, n: u64)
    ensures
        final(out)@ == old(out)@ + u64_be(n),
{
    out.push((n >> 56) as u8);
    out.push((n >> 48) as u8);
    out.push((n >> 40) as u8);
    out.push((n >> 32) as u8);
    out.push((n >> 24) as u8);
    out.push((n >> 16) as u8);
    out.push((n >> 8) as u8);
    out.push(n as u8);
    assert(final(out)@ =~= old(out)@ + u64_be(n));
}

fn be_word(m: &Vec<u8>, off: usize) -> (w: u32)
    requires
        off + 4 <= m@.len(),
    ensures
        w == word_at(m@, off as int),
{
    let n = m.len();
    ((m[off] as u32) << 24) | ((m[off + 1] as u32) << 16) | ((m[off + 2] as u32) << 8) | (m[off
        + 3] as u32)
}

fn sha_round(v: Vars, k: u32, w: u32) -> (r: Vars)
    ensures
        r == round(v, k, w),
{
    let s1 = rotate_right(v.e, 6) ^ rotate_right(v.e, 11) ^ rotate_right(v.e, 25);
    let cbh = (v.e & v.f) ^ ((!v.e) & v.g);
    let t1 = v.h.wrapping_add(s1).wrapping_add(cbh).wrapping_add(k).wrapping_add(w);
    let s0 = rotate_right(v.a, 2) ^ rotate_right(v.a, 13) ^ rotate_right(v.a, 22);
    let mj = (v.a & v.b) ^ (v.a & v.c) ^ (v.b & v.c);
    let t2 = s0.wrapping_add(mj);
    Vars { a: t1.wrapping_add(t2), b: v.a, c: v.b, d: v.c, e: v.d.wrapping_add(t1), f: v.e, g: v.f, h: v.g }
}

/// Pad `data` as SHA-256 prescribes.
fn pad_message(data: &[u8]) -> (msg: Vec<u8>)
    ensures
        msg@ == padded(data@),
        msg@.len() % 64 == 0,
{
    let mut msg: Vec<u8> = Vec::new();
    let mut k: usize = 0;
    while k < data.len()
        invariant
            k <= data.len(),
            msg@ == data@.take(k as int),
        decreases data.len() - k,
    {
        msg.push(data[k]);
        proof {
            assert(data@.take(k + 1) == data@.take(k as int).push(data@[k as int]));
        }
        k += 1;
    }
    assert(data@.take(data.len() as int) == data@);
    let bl = (msg.len() as u64).wrapping_mul(8);
    msg.push(0x80);
    let ghost base = msg@;
    let ghost zp = zero_pad(data@.len());
    proof {
        assert((base.len() + zp) % 64 == 56);
    }
    while msg.len() % 64 != 56
        invariant
            base.len() == data@.len() + 1,
            zp == zero_pad(data@.len()),
            (base.len() + zp) % 64 == 56,
            base.len() <= msg@.len() <= base.len() + zp,
            msg@ == base + Seq::new((msg@.len() - base.len()) as nat, |i: int| 0u8),
        decreases base.len() + zp - msg@.len(),
    {
        let ghost z = (msg@.len() - base.len()) as nat;
        msg.push(0);
        proof {
            assert(msg@ =~= base + Seq::new((z + 1) as nat, |i: int| 0u8));
        }
    }
    proof {
        let z = (msg@.len() - base.len()) as nat;
        assert(z == zp);
        assert(bl == ((data@.len() * 8) % 0x1_0000_0000_0000_0000) as u64);
    }
    push_u64_be(&mut msg, bl);
    msg
}

/// SHA-256 digest of `data`.
pub fn sha256(data: &[u8]) -> (o: [u8; 32])
    ensures
        o@ == spec_sha256(data@),
{
    let msg = pad_message(data);
    let ghost m = msg@;
    let mut h: [u32; 8] = SHA_IV;
    let nblk = msg.len() / 64;
    let mut blk: usize = 0;
    let mut w: Vec<u32> = vec![0u32; 64];
    while blk < nblk
        invariant
            nblk == m.len() / 64,
            m.len() <= usize::MAX,
            m.len() % 64 == 0,
            msg@ == m,
            blk <= nblk,
            h@ == hash_blocks(m, blk as nat),
            w@.len() == 64,
        decreases nblk - blk,
    {
        assert(blk * 64 + 64 <= m.len()) by (nonlinear_arith)
            requires
                blk < nblk,
                nblk == m.len() / 64,
        ;
        let base = blk * 64;
        let mut i: usize = 0;
        while i < 16
            invariant
                i <= 16,
                base + 64 <= m.len(),
                base == blk * 64,
                msg@ == m,
                w@.len() == 64,
                forall|j: int| 0 <= j < i ==> w@[j] == sched(m, base as int, j),
            decreases 16 - i,
        {
            let v = be_word(&msg, base + i * 4);
            w.set(i, v);
            i += 1;
        }
        while i < 64
            invariant
                16 <= i <= 64,
                msg@ == m,
                w@.len() == 64,
                forall|j: int| 0 <= j < i ==> w@[j] == sched(m, base as int, j),
            decreases 64 - i,
        {
            let x15 = w[i - 15];
            let x2 = w[i - 2];
            let s0 = rotate_right(x15, 7) ^ rotate_right(x15, 18) ^ (x15 >> 3);
            let s1 = rotate_right(x2, 17) ^ rotate_right(x2, 19) ^ (x2 >> 10);
            let v = w[i - 16].wrapping_add(s0).wrapping_add(w[i - 7]).wrapping_add(s1);
            w.set(i, v);
            i += 1;
        }
        let mut v = Vars { a: h[0], b: h[1], c: h[2], d: h[3], e: h[4], f: h[5], g: h[6], h: h[7] };
        let ghost h0 = h@;
        let mut r: usize = 0;
        while r < 64
            invariant
                r <= 64,
                w@.len() == 64,
                forall|j: int| 0 <= j < 64 ==> w@[j] == sched(m, base as int, j),
                v == rounds(h0, m, base as int, r as int),
            decreases 64 - r,
        {
            v = sha_round(v, SHA_K[r], w[r]);
            r += 1;
        }
        h[0] = h[0].wrapping_add(v.a);
        h[1] = h[1].wrapping_add(v.b);
        h[2] = h[2].wrapping_add(v.c);
        h[3] = h[3].wrapping_add(v.d);
        h[4] = h[4].wrapping_add(v.e);
        h[5] = h[5].wrapping_add(v.f);
        h[6] = h[6].wrapping_add(v.g);
        h[7] = h[7].wrapping_add(v.h);
        proof {
            assert(h@ =~= compress_block(h0, m, base as int));
        }
        blk += 1;
    }
    let mut o = [0u8; 32];
    let mut i: usize = 0;
    while i < 8
        invariant
            i <= 8,
            h@ == hash_blocks(m, nblk as nat),
            h@.len() == 8,
            forall|j: int| 0 <= j < 4 * i ==> o@[j] == digest_bytes(h@)[j],
        decreases 8 - i,
    {
        let v = h[i];
        o[i * 4] = (v >> 24) as u8;
        o[i * 4 + 1] = (v >> 16) as u8;
        o[i * 4 + 2] = (v >> 8) as u8;
        o[i * 4 + 3] = v as u8;
        proof {
            assert(digest_bytes(h@)[4 * i] == (v >> 24u32) as u8);
            assert(digest_bytes(h@)[4 * i + 1] == (v >> 16u32) as u8);
            assert(digest_bytes(h@)[4 * i + 2] == (v >> 8u32) as u8);
            assert((v >> 0u32) == v) by (bit_vector);
            assert(digest_bytes(h@)[4 * i + 3] == v as u8);
        }
        i += 1;
    }
    assert(o@ =~= digest_bytes(h@));
    o
}

pub const HEX_DIGITS: [u8; 16] = [
    0x30, 0x31, 0x32, 0x33, 0x34, 0x35, 0x36, 0x37, 0x38, 0x39, 0x61, 0x62, 0x63, 0x64, 0x65, 0x66,
];

/// Lower-case hex digit for `v` < 16.
pub open spec fn hex_digit(v: u8) -> u8 {
    if v < 10 {
        (0x30 + v) as u8
    } else {
        (0x61 + v - 10) as u8
    }
}

/// Two lower-case hex digits per byte, high nibble first.
pub open spec fn hex_ascii(b: Seq<u8>) -> Seq<u8> {
    Seq::new(2 * b.len(), |i: int| if i % 2 == 0 { hex_digit(b[i / 2] >> 4u8) } else { hex_digit(b[i / 2] & 15u8) })
}

pub open spec fn ascii_chars(b: Seq<u8>) -> Seq<char> {
    Seq::new(b.len(), |i: int| b[i] as char)
}

/// Hex digits of `b` as ASCII bytes.
pub fn hex_bytes(b: &[u8]) -> (s: Vec<u8>)
    ensures
        s@ == hex_ascii(b@),
{
    let mut s: Vec<u8> = Vec::new();
    let mut k: usize = 0;
    while k < b.len()
        invariant
            k <= b.len(),
            s@ == hex_ascii(b@.take(k as int)),
        decreases b.len() - k,
    {
        let x = b[k];
        proof {
            crate::bitfacts::lemma_nibbles(x);
        }
        let hi = HEX_DIGITS[(x >> 4) as usize];
        let lo = HEX_DIGITS[(x & 15) as usize];
        proof {
            assert(hi == hex_digit(x >> 4u8)) by {
                assert(HEX_DIGITS@ =~= seq![
                    0x30u8, 0x31, 0x32, 0x33, 0x34, 0x35, 0x36, 0x37, 0x38, 0x39, 0x61, 0x62, 0x63,
                    0x64, 0x65, 0x66,
                ]);
            }
            assert(lo == hex_digit(x & 15u8)) by {
                assert(HEX_DIGITS@ =~= seq![
                    0x30u8, 0x31, 0x32, 0x33, 0x34, 0x35, 0x36, 0x37, 0x38, 0x39, 0x61, 0x62, 0x63,
                    0x64, 0x65, 0x66,
                ]);
            }
        }
        s.push(hi);
        s.push(lo);
        proof {
            assert(s@ =~= hex_ascii(b@.take(k + 1)));
        }
        k += 1;
    }
    assert(b@.take(b.len() as int) == b@);
    s
}

/// The lower-case hex digit of `v` < 16, as a one-character string.
fn digit_str(v: u8) -> (s: &'static str)
    requires
        v < 16,
    ensures
        s@ == seq![hex_digit(v) as char],
{
    if v == 0 {
        proof {
            reveal_strlit("0");
        }
        "0"
    } else if v == 1 {
        proof {
            reveal_strlit("1");
        }
        "1"
    } else if v == 2 {
        proof {
            reveal_strlit("2");
        }
        "2"
    } else if v == 3 {
        proof {
            reveal_strlit("3");
        }
        "3"
    } else if v == 4 {
        proof {
            reveal_strlit("4");
        }
        "4"
    } else if v == 5 {
        proof {
            reveal_strlit("5");
        }
        "5"
    } else if v == 6 {
        proof {
            reveal_strlit("6");
        }
        "6"
    } else if v == 7 {
        proof {
            reveal_strlit("7");
        }
        "7"
    } else if v == 8 {
        proof {
            reveal_strlit("8");
        }
        "8"
    } else if v == 9 {
        proof {
            reveal_strlit("9");
        }
        "9"
    } else if v == 10 {
        proof {
            reveal_strlit("a");
        }
        "a"
    } else if v == 11 {
        proof {
            reveal_strlit("b");
        }
        "b"
    } else if v == 12 {
        proof {
            reveal_strlit("c");
        }
        "c"
    } else if v == 13 {
        proof {
            reveal_strlit("d");
        }
        "d"
    } else if v == 14 {
        proof {
            reveal_strlit("e");
        }
        "e"
    } else {
        proof {
            reveal_strlit("f");
        }
        "f"
    }
}

/// Lower-case hex encoding of `b`.
pub fn hex(b: &[u8]) -> (s: String)
    ensures
        s@ == ascii_chars(hex_ascii(b@)),
{
    let mut s = String::new();
    let mut k: usize = 0;
    while k < b.len()
        invariant
            k <= b.len(),
            s@ == ascii_chars(hex_ascii(b@.take(k as int))),
        decreases b.len() - k,
    {
        let x = b[k];
        proof {
            crate::bitfacts::lemma_nibbles(x);
        }
        s.append(digit_str(x >> 4));
        s.append(digit_str(x & 15));
        proof {
            assert(s@ =~= ascii_chars(hex_ascii(b@.take(k + 1))));
        }
        k += 1;
    }
    assert(b@.take(b.len() as int) == b@);
    s
}

/// Hex of the SHA-256 digest of `d`.
pub fn sha_hex(d: &[u8]) -> (s: String)
    ensures
        s@ == ascii_chars(hex_ascii(spec_sha256(d@))),
{
    let h = sha256(d);
    hex(&h)
}

} // verus!
