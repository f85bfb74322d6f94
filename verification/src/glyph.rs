//! Glyph streams: fixed-width symbols (at most 16 bits) and the reversible
//! views ("directions") played over them.  Every view has an inverse; the
//! laws at the end of this file state each pair.
use vstd::prelude::*;
use vstd::arithmetic::power2::pow2;
use vstd::bits::{lemma_u32_pow2_no_overflow, lemma_u32_shl_is_mul};

verus! {

/// A symbol fits in `bits` bits.
pub open spec fn fits(g: u16, bits: u32) -> bool {
    (g as nat) < pow2(bits as nat)
}

pub open spec fn all_fit(d: Seq<u16>, bits: u32) -> bool {
    forall|i: int| 0 <= i < d.len() ==> fits(#[trigger] d[i], bits)
}

// ---------------------------------------------------------------------------
// Element transforms.
// ---------------------------------------------------------------------------
/// Low-`h`-bit mask.
pub open spec fn mask16(h: u32) -> u16 {
    ((1u16 << h) - 1) as u16
}

/// Swap the low and high halves of a symbol of `2h` bits.
pub open spec fn half_swap(g: u16, h: u32) -> u16 {
    ((g & mask16(h)) << h) | (g >> h)
}

/// Rotate a `bits`-bit symbol left by one.
pub open spec fn rol_spec(g: u16, bits: u32) -> u16 {
    ((g << 1u16) | (g >> ((bits - 1) as u32))) & mask16(bits)
}

/// Rotate a `bits`-bit symbol right by one.
pub open spec fn ror_spec(g: u16, bits: u32) -> u16 {
    ((g >> 1u16) | ((g & 1u16) << ((bits - 1) as u32))) & mask16(bits)
}

/// The low `i` bits of `v` reversed into an `n`-bit field.
pub open spec fn revb_upto(v: u16, n: u32, i: u32) -> u16
    decreases i,
{
    if i == 0 {
        0
    } else {
        let o = revb_upto(v, n, (i - 1) as u32);
        if v & (1u16 << ((i - 1) as u32)) != 0 {
            o | (1u16 << ((n - 1 - (i - 1)) as u32))
        } else {
            o
        }
    }
}

/// Bit-reversal of the low `n` bits of `v`.
pub open spec fn revb_spec(v: u16, n: u32) -> u16 {
    revb_upto(v, n, n)
}

pub open spec fn quarter(g: u16, h: u32) -> u16 {
    (revb_spec(g >> h, h) << h) | revb_spec(g & mask16(h), h)
}

pub fn revb(v: u16, n: u32) -> (o: u16)
    requires
        n <= 16,
    ensures
        o == revb_spec(v, n),
{
    let mut o: u16 = 0;
    let mut i: u32 = 0;
    while i < n
        invariant
            i <= n <= 16,
            o == revb_upto(v, n, i),
        decreases n - i,
    {
        if v & (1 << i) != 0 {
            o |= 1 << (n - 1 - i);
        }
        i += 1;
    }
    o
}

pub fn rol(g: u16, bits: u32) -> (r: u16)
    requires
        1 <= bits < 16,
    ensures
        r == rol_spec(g, bits),
{
    proof {
        crate::bitfacts::lemma_one_shl(bits);
    }
    let m = (1u16 << bits) - 1;
    ((g << 1) | (g >> (bits - 1))) & m
}

pub fn ror(g: u16, bits: u32) -> (r: u16)
    requires
        1 <= bits < 16,
    ensures
        r == ror_spec(g, bits),
{
    proof {
        crate::bitfacts::lemma_one_shl(bits);
    }
    let m = (1u16 << bits) - 1;
    ((g >> 1) | ((g & 1) << (bits - 1))) & m
}

// ---------------------------------------------------------------------------
// Stream views.
// ---------------------------------------------------------------------------
/// Reversed stream.
pub fn g_r(d: &[u16]) -> (o: Vec<u16>)
    ensures
        o@ == d@.reverse(),
{
    let mut o: Vec<u16> = Vec::new();
    let mut k: usize = d.len();
    while k > 0
        invariant
            k <= d.len(),
            o@ == d@.reverse().take((d.len() - k) as int),
        decreases k,
    {
        k -= 1;
        o.push(d[k]);
        proof {
            assert(o@ =~= d@.reverse().take((d.len() - k) as int));
        }
    }
    assert(d@.reverse().take(d.len() as int) == d@.reverse());
    o
}

pub open spec fn g_n_spec(d: Seq<u16>, bits: u32) -> Seq<u16> {
    Seq::new(d.len(), |i: int| half_swap(d[i], bits / 2))
}

/// Each symbol with its two halves swapped.
pub fn g_n(d: &[u16], bits: u32) -> (o: Vec<u16>)
    requires
        bits < 32,
    ensures
        o@ == g_n_spec(d@, bits),
{
    let h = bits / 2;
    proof {
        if h < 16 {
            crate::bitfacts::lemma_one_shl(h);
        }
    }
    let hm = (1u16 << h) - 1;
    let mut o: Vec<u16> = Vec::new();
    let mut k: usize = 0;
    while k < d.len()
        invariant
            k <= d.len(),
            h == bits / 2,
            h < 16,
            hm == mask16(h),
            o@ == g_n_spec(d@, bits).take(k as int),
        decreases d.len() - k,
    {
        let g = d[k];
        o.push(((g & hm) << h) | (g >> h));
        proof {
            assert(o@ =~= g_n_spec(d@, bits).take(k + 1));
        }
        k += 1;
    }
    assert(g_n_spec(d@, bits).take(d.len() as int) == g_n_spec(d@, bits));
    o
}

pub open spec fn g_q_spec(d: Seq<u16>, bits: u32) -> Seq<u16> {
    Seq::new(d.len(), |i: int| quarter(d[i], bits / 2))
}

/// Each symbol with each half bit-reversed in place.
pub fn g_q(d: &[u16], bits: u32) -> (o: Vec<u16>)
    requires
        bits < 32,
    ensures
        o@ == g_q_spec(d@, bits),
{
    let h = bits / 2;
    proof {
        if h < 16 {
            crate::bitfacts::lemma_one_shl(h);
        }
    }
    let hm = (1u16 << h) - 1;
    let mut o: Vec<u16> = Vec::new();
    let mut k: usize = 0;
    while k < d.len()
        invariant
            k <= d.len(),
            h == bits / 2,
            h < 16,
            hm == mask16(h),
            o@ == g_q_spec(d@, bits).take(k as int),
        decreases d.len() - k,
    {
        let g = d[k];
        let hi = revb(g >> h, h);
        let lo = revb(g & hm, h);
        o.push((hi << h) | lo);
        proof {
            assert(o@ =~= g_q_spec(d@, bits).take(k + 1));
        }
        k += 1;
    }
    assert(g_q_spec(d@, bits).take(d.len() as int) == g_q_spec(d@, bits));
    o
}

/// The view of `d` selected by the three flag bits of `m`: reverse, half
/// swap, half reversal, applied in that order.
pub open spec fn gview_spec(d: Seq<u16>, m: u8, bits: u32) -> Seq<u16> {
    let o1 = if m & 1u8 != 0 {
        d.reverse()
    } else {
        d
    };
    let o2 = if m & 2u8 != 0 {
        g_n_spec(o1, bits)
    } else {
        o1
    };
    if m & 4u8 != 0 {
        g_q_spec(o2, bits)
    } else {
        o2
    }
}

pub fn gview(d: &[u16], m: u8, bits: u32) -> (o: Vec<u16>)
    requires
        bits < 32,
    ensures
        o@ == gview_spec(d@, m, bits),
{
    let mut o = copy_symbols(d);
    if m & 1 != 0 {
        o = g_r(&o);
    }
    if m & 2 != 0 {
        o = g_n(&o, bits);
    }
    if m & 4 != 0 {
        o = g_q(&o, bits);
    }
    o
}

/// A copy of `d`.
pub fn copy_symbols(d: &[u16]) -> (o: Vec<u16>)
    ensures
        o@ == d@,
{
    let mut o: Vec<u16> = Vec::new();
    let mut k: usize = 0;
    while k < d.len()
        invariant
            k <= d.len(),
            o@ == d@.take(k as int),
        decreases d.len() - k,
    {
        o.push(d[k]);
        proof {
            assert(o@ =~= d@.take(k + 1));
        }
        k += 1;
    }
    assert(d@.take(d.len() as int) == d@);
    o
}

pub open spec fn xd_spec(d: Seq<u16>) -> Seq<u16> {
    Seq::new(d.len(), |i: int| if i == 0 { d[0] } else { d[i] ^ d[i - 1] })
}

/// XOR of each symbol with its predecessor (the first kept).
pub fn xd(d: &[u16]) -> (o: Vec<u16>)
    ensures
        o@ == xd_spec(d@),
{
    let mut o: Vec<u16> = Vec::new();
    if d.len() == 0 {
        assert(o@ =~= xd_spec(d@));
        return o;
    }
    o.push(d[0]);
    let mut i: usize = 1;
    while i < d.len()
        invariant
            1 <= i <= d.len(),
            o@ == xd_spec(d@).take(i as int),
        decreases d.len() - i,
    {
        o.push(d[i] ^ d[i - 1]);
        proof {
            assert(o@ =~= xd_spec(d@).take(i + 1));
        }
        i += 1;
    }
    assert(xd_spec(d@).take(d.len() as int) == xd_spec(d@));
    o
}

/// Prefix XOR: symbol `i` of the undone delta stream.
pub open spec fn xu_at(d: Seq<u16>, i: int) -> u16
    decreases i,
{
    if i <= 0 {
        d[0]
    } else {
        d[i] ^ xu_at(d, i - 1)
    }
}

pub open spec fn xu_spec(d: Seq<u16>) -> Seq<u16> {
    Seq::new(d.len(), |i: int| xu_at(d, i))
}

/// Running XOR, the inverse of `xd`.
pub fn xu(d: &[u16]) -> (o: Vec<u16>)
    ensures
        o@ == xu_spec(d@),
{
    let mut o: Vec<u16> = Vec::new();
    if d.len() == 0 {
        assert(o@ =~= xu_spec(d@));
        return o;
    }
    o.push(d[0]);
    let mut i: usize = 1;
    while i < d.len()
        invariant
            1 <= i <= d.len(),
            o@ == xu_spec(d@).take(i as int),
        decreases d.len() - i,
    {
        let b = d[i] ^ o[i - 1];
        o.push(b);
        proof {
            assert(o@ =~= xu_spec(d@).take(i + 1));
        }
        i += 1;
    }
    assert(xu_spec(d@).take(d.len() as int) == xu_spec(d@));
    o
}

/// Index into `d` of output position `i` of the block reversal.
pub open spec fn blkrev_src(len: int, bl: int, i: int) -> int {
    let start = (i / bl) * bl;
    let end = if start + bl <= len {
        start + bl
    } else {
        len
    };
    start + end - 1 - i
}

pub open spec fn blkrev_spec(d: Seq<u16>, bl: int) -> Seq<u16> {
    Seq::new(d.len(), |i: int| d[blkrev_src(d.len() as int, bl, i)])
}

proof fn lemma_blkrev_src(len: int, bl: int, i: int)
    requires
        bl > 0,
        0 <= i < len,
    ensures
        0 <= blkrev_src(len, bl, i) < len,
        blkrev_src(len, bl, i) / bl == i / bl,
        blkrev_src(len, bl, blkrev_src(len, bl, i)) == i,
{
    let c = i / bl;
    let start = c * bl;
    assert(start <= i < start + bl) by (nonlinear_arith)
        requires
            c == i / bl,
            start == c * bl,
            bl > 0,
            i >= 0,
    ;
    assert(start >= 0) by (nonlinear_arith)
        requires
            c == i / bl,
            start == c * bl,
            bl > 0,
            i >= 0,
    ;
    let end = if start + bl <= len {
        start + bl
    } else {
        len
    };
    let j = start + end - 1 - i;
    assert(start <= j < start + bl);
    assert(j / bl == c) by (nonlinear_arith)
        requires
            start <= j < start + bl,
            start == c * bl,
            bl > 0,
    ;
}

pub proof fn lemma_blkrev_src_pub(len: int, bl: int, i: int)
    requires
        bl > 0,
        0 <= i < len,
    ensures
        0 <= blkrev_src(len, bl, i) < len,
{
    lemma_blkrev_src(len, bl, i);
}

/// Each consecutive block of `bl` symbols reversed in place.
pub fn blkrev(d: &[u16], bl: usize) -> (o: Vec<u16>)
    requires
        bl > 0,
    ensures
        o@ == blkrev_spec(d@, bl as int),
{
    let mut o: Vec<u16> = Vec::new();
    let mut start: usize = 0;
    while start < d.len()
        invariant
            start <= d.len(),
            bl > 0,
            (start as int) % (bl as int) == 0 || start == d.len(),
            o@ == blkrev_spec(d@, bl as int).take(start as int),
        decreases d.len() - start,
    {
        let end = if d.len() - start >= bl {
            start + bl
        } else {
            d.len()
        };
        let mut k: usize = end;
        while k > start
            invariant
                start <= k <= end <= d.len(),
                bl > 0,
                end == (if start + bl <= d.len() {
                    start + bl
                } else {
                    d.len() as int
                }),
                (start as int) % (bl as int) == 0,
                o@ == blkrev_spec(d@, bl as int).take((start + (end - k)) as int),
            decreases k - start,
        {
            k -= 1;
            proof {
                let i = (start + (end - 1 - k)) as int;
                assert(i / (bl as int) == (start as int) / (bl as int)) by (nonlinear_arith)
                    requires
                        start <= i < start + bl,
                        (start as int) % (bl as int) == 0,
                        bl > 0,
                ;
                assert((i / (bl as int)) * (bl as int) == start) by (nonlinear_arith)
                    requires
                        i / (bl as int) == (start as int) / (bl as int),
                        (start as int) % (bl as int) == 0,
                        bl > 0,
                        start >= 0,
                ;
                assert(blkrev_src(d@.len() as int, bl as int, i) == k);
            }
            o.push(d[k]);
            proof {
                assert(o@ =~= blkrev_spec(d@, bl as int).take((start + (end - k)) as int));
            }
        }
        assert((end as int) % (bl as int) == 0 || end == d.len()) by (nonlinear_arith)
            requires
                (start as int) % (bl as int) == 0,
                end == start + bl || end == d.len(),
                bl > 0,
        ;
        start = end;
    }
    assert(blkrev_spec(d@, bl as int).take(d.len() as int) == blkrev_spec(d@, bl as int));
    o
}

pub open spec fn evo_spec(d: Seq<u16>) -> Seq<u16> {
    let e = (d.len() + 1) / 2;
    Seq::new(d.len(), |i: int| if i < e { d[2 * i] } else { d[2 * (i - e) + 1] })
}

/// Even positions, then odd positions.
pub fn evo(d: &[u16]) -> (o: Vec<u16>)
    ensures
        o@ == evo_spec(d@),
{
    let mut o: Vec<u16> = Vec::new();
    let n = d.len();
    let e = (n - n / 2);
    let mut i: usize = 0;
    assert(e == (n + 1) / 2);
    while i < e
        invariant
            i <= e,
            e == (n + 1) / 2,
            n == d.len(),
            o@ == evo_spec(d@).take(i as int),
        decreases e - i,
    {
        o.push(d[2 * i]);
        proof {
            assert(o@ =~= evo_spec(d@).take(i + 1));
        }
        i += 1;
    }
    let mut k: usize = 1;
    while k < n
        invariant
            e == (n + 1) / 2,
            n == d.len(),
            k % 2 == 1,
            1 <= k <= n + 1,
            o@ == evo_spec(d@).take(e + (k - 1) / 2),
        decreases n + 1 - k,
    {
        o.push(d[k]);
        proof {
            assert(o@ =~= evo_spec(d@).take(e + (k + 1) / 2));
        }
        k += 2;
    }
    assert(e + (k - 1) / 2 == n);
    assert(evo_spec(d@).take(n as int) == evo_spec(d@));
    o
}

pub open spec fn uevo_spec(d: Seq<u16>) -> Seq<u16> {
    let e = (d.len() + 1) / 2;
    Seq::new(d.len(), |j: int| if j % 2 == 0 { d[j / 2] } else { d[e + j / 2] })
}

/// Interleave the two halves back, the inverse of `evo`.
pub fn uevo(d: &[u16]) -> (o: Vec<u16>)
    ensures
        o@ == uevo_spec(d@),
{
    let n = d.len();
    let e = n - n / 2;
    let mut o: Vec<u16> = vec![0u16; n];
    let mut i: usize = 0;
    while i < e
        invariant
            i <= e,
            e == (n + 1) / 2,
            n == d.len(),
            o@.len() == n,
            forall|j: int| 0 <= j < n ==> #[trigger] o@[j] == (if j % 2 == 0 && j / 2 < i {
                uevo_spec(d@)[j]
            } else {
                0u16
            }),
        decreases e - i,
    {
        o.set(i * 2, d[i]);
        i += 1;
    }
    let mut i: usize = e;
    while i < n
        invariant
            e <= i <= n,
            e == (n + 1) / 2,
            n == d.len(),
            o@.len() == n,
            forall|j: int| 0 <= j < n ==> #[trigger] o@[j] == (if j % 2 == 0 || e + j / 2 < i {
                uevo_spec(d@)[j]
            } else {
                0u16
            }),
        decreases n - i,
    {
        o.set((i - e) * 2 + 1, d[i]);
        i += 1;
    }
    assert(o@ =~= uevo_spec(d@));
    o
}

pub open spec fn map_spec(input: Seq<u16>, map: Seq<u16>) -> Seq<u16> {
    Seq::new(input.len(), |i: int| map[input[i] as int])
}

/// Each symbol through the table `map`.
pub fn map_symbols(input: &[u16], map: &[u16]) -> (o: Vec<u16>)
    requires
        forall|i: int| 0 <= i < input@.len() ==> (#[trigger] input@[i] as int) < map@.len(),
    ensures
        o@ == map_spec(input@, map@),
{
    let mut o: Vec<u16> = Vec::new();
    let mut k: usize = 0;
    while k < input.len()
        invariant
            k <= input.len(),
            forall|i: int| 0 <= i < input@.len() ==> (#[trigger] input@[i] as int) < map@.len(),
            o@ == map_spec(input@, map@).take(k as int),
        decreases input.len() - k,
    {
        o.push(map[input[k] as usize]);
        proof {
            assert(o@ =~= map_spec(input@, map@).take(k + 1));
        }
        k += 1;
    }
    assert(map_spec(input@, map@).take(input.len() as int) == map_spec(input@, map@));
    o
}

/// A glyph stream spoken in a language: each glyph through its codebook.
pub fn speak(g: &[u16], p: &[u16]) -> (o: Vec<u16>)
    requires
        forall|i: int| 0 <= i < g@.len() ==> (#[trigger] g@[i] as int) < p@.len(),
    ensures
        o@ == map_spec(g@, p@),
{
    map_symbols(g, p)
}

/// Quotient and residual streams of division by `step`.
pub fn quantize(input: &[u16], step: u16) -> (r: (Vec<u16>, Vec<u16>))
    requires
        step > 0,
    ensures
        r.0@ == Seq::new(input@.len(), |i: int| (input@[i] / step) as u16),
        r.1@ == Seq::new(input@.len(), |i: int| (input@[i] % step) as u16),
{
    let mut q: Vec<u16> = Vec::new();
    let mut rr: Vec<u16> = Vec::new();
    let mut k: usize = 0;
    while k < input.len()
        invariant
            k <= input.len(),
            step > 0,
            q@ == Seq::new(input@.len(), |i: int| (input@[i] / step) as u16).take(k as int),
            rr@ == Seq::new(input@.len(), |i: int| (input@[i] % step) as u16).take(k as int),
        decreases input.len() - k,
    {
        q.push(input[k] / step);
        rr.push(input[k] % step);
        proof {
            assert(q@ =~= Seq::new(input@.len(), |i: int| (input@[i] / step) as u16).take(k + 1));
            assert(rr@ =~= Seq::new(input@.len(), |i: int| (input@[i] % step) as u16).take(k + 1));
        }
        k += 1;
    }
    proof {
        assert(q@ =~= Seq::new(input@.len(), |i: int| (input@[i] / step) as u16));
        assert(rr@ =~= Seq::new(input@.len(), |i: int| (input@[i] % step) as u16));
    }
    (q, rr)
}

pub open spec fn dequantize_spec(buckets: Seq<u16>, residuals: Seq<u16>, step: u16) -> Seq<u16> {
    let n = if buckets.len() <= residuals.len() {
        buckets.len()
    } else {
        residuals.len()
    };
    Seq::new(n, |i: int| (buckets[i] * step + residuals[i]) as u16)
}

/// q * step + r position by position (as far as both streams go).
pub fn dequantize(buckets: &[u16], residuals: &[u16], step: u16) -> (o: Vec<u16>)
    requires
        forall|i: int|
            0 <= i < buckets@.len() && i < residuals@.len() ==> #[trigger] buckets@[i] * step
                + residuals@[i] <= u16::MAX,
    ensures
        o@ == dequantize_spec(buckets@, residuals@, step),
{
    let n = if buckets.len() <= residuals.len() {
        buckets.len()
    } else {
        residuals.len()
    };
    let mut o: Vec<u16> = Vec::new();
    let mut k: usize = 0;
    while k < n
        invariant
            k <= n,
            n <= buckets@.len(),
            n <= residuals@.len(),
            n == dequantize_spec(buckets@, residuals@, step).len(),
            forall|i: int|
                0 <= i < buckets@.len() && i < residuals@.len() ==> #[trigger] buckets@[i] * step
                    + residuals@[i] <= u16::MAX,
            o@ == dequantize_spec(buckets@, residuals@, step).take(k as int),
        decreases n - k,
    {
        let b = buckets[k];
        let r = residuals[k];
        assert(b * step + r <= u16::MAX);
        assert(b * step <= u16::MAX);
        o.push(b * step + r);
        proof {
            assert(o@ =~= dequantize_spec(buckets@, residuals@, step).take(k + 1));
        }
        k += 1;
    }
    assert(dequantize_spec(buckets@, residuals@, step).take(n as int) == dequantize_spec(
        buckets@,
        residuals@,
        step,
    ));
    o
}

// ---------------------------------------------------------------------------
// Laws.
// ---------------------------------------------------------------------------
/// Reversing twice gives the stream back.
pub proof fn lemma_g_r_involution(d: Seq<u16>)
    ensures
        d.reverse().reverse() == d,
{
    assert(d.reverse().reverse() =~= d);
}

/// Swapping halves twice gives every symbol of an even width back.
pub proof fn lemma_g_n_involution(d: Seq<u16>, bits: u32)
    requires
        bits <= 16,
        bits % 2 == 0,
        all_fit(d, bits),
    ensures
        g_n_spec(g_n_spec(d, bits), bits) == d,
{
    let h = bits / 2;
    assert forall|i: int| 0 <= i < d.len() implies #[trigger] g_n_spec(g_n_spec(d, bits), bits)[i]
        == d[i] by {
        let g = d[i];
        lemma_fits_shift(g, bits);
        assert(h <= 8 && (g as u32) < (1u32 << (2 * h)) ==> half_swap(half_swap(g, h), h) == g)
            by (bit_vector);
    }
    assert(g_n_spec(g_n_spec(d, bits), bits) =~= d);
}

/// `fits` as a shift bound.
pub proof fn lemma_fits_shift(g: u16, bits: u32)
    requires
        bits < 32,
        fits(g, bits),
    ensures
        (g as u32) < (1u32 << bits),
{
    lemma_pow2_shift(bits);
}

pub proof fn lemma_pow2_shift(n: u32)
    requires
        n < 32,
    ensures
        pow2(n as nat) == (1u32 << n) as nat,
{
    lemma_u32_pow2_no_overflow(n as nat);
    lemma_u32_shl_is_mul(1u32, n);
}

/// Rotating right undoes rotating left.
pub proof fn lemma_rol_ror(g: u16, bits: u32)
    requires
        1 <= bits < 16,
        fits(g, bits),
    ensures
        ror_spec(rol_spec(g, bits), bits) == g,
        rol_spec(ror_spec(g, bits), bits) == g,
{
    lemma_fits_shift(g, bits);
    assert(1 <= bits && bits < 16 && (g as u32) < (1u32 << bits) ==> (ror_spec(rol_spec(g, bits), bits)
        == g && rol_spec(ror_spec(g, bits), bits) == g)) by (bit_vector);
}

/// Running XOR undoes the XOR delta.
pub proof fn lemma_xu_xd(d: Seq<u16>)
    ensures
        xu_spec(xd_spec(d)) == d,
{
    assert forall|i: int| 0 <= i < d.len() implies #[trigger] xu_at(xd_spec(d), i) == d[i] by {
        lemma_xu_xd_at(d, i);
    }
    assert(xu_spec(xd_spec(d)) =~= d);
}

proof fn lemma_xu_xd_at(d: Seq<u16>, i: int)
    requires
        0 <= i < d.len(),
    ensures
        xu_at(xd_spec(d), i) == d[i],
    decreases i,
{
    if i > 0 {
        lemma_xu_xd_at(d, i - 1);
        let a = d[i];
        let b = d[i - 1];
        crate::bitfacts::lemma_xor_twice(a, b);
    }
}

/// Reversing every block twice gives the stream back.
pub proof fn lemma_blkrev_involution(d: Seq<u16>, bl: int)
    requires
        bl > 0,
    ensures
        blkrev_spec(blkrev_spec(d, bl), bl) == d,
{
    assert forall|i: int| 0 <= i < d.len() implies #[trigger] blkrev_spec(blkrev_spec(d, bl), bl)[i]
        == d[i] by {
        lemma_blkrev_src(d.len() as int, bl, i);
    }
    assert(blkrev_spec(blkrev_spec(d, bl), bl) =~= d);
}

/// Interleaving undoes the even/odd split.
pub proof fn lemma_uevo_evo(d: Seq<u16>)
    ensures
        uevo_spec(evo_spec(d)) == d,
{
    let e = (d.len() + 1) / 2;
    assert forall|j: int| 0 <= j < d.len() implies #[trigger] uevo_spec(evo_spec(d))[j] == d[j] by {
        if j % 2 == 0 {
            assert(j / 2 < e);
            assert(2 * (j / 2) == j);
        } else {
            assert(e + j / 2 < d.len());
            assert(2 * (j / 2) + 1 == j);
        }
    }
    assert(uevo_spec(evo_spec(d)) =~= d);
}

/// Mapping through a table and then through its inverse table gives the
/// stream back.
pub proof fn lemma_map_inverse(d: Seq<u16>, fwd: Seq<u16>, inv: Seq<u16>)
    requires
        forall|i: int| 0 <= i < d.len() ==> (#[trigger] d[i] as int) < fwd.len(),
        forall|x: int| 0 <= x < fwd.len() ==> (#[trigger] fwd[x] as int) < inv.len() && inv[fwd[x]
            as int] == x,
    ensures
        map_spec(map_spec(d, fwd), inv) == d,
{
    assert(map_spec(map_spec(d, fwd), inv) =~= d);
}

/// Quotient times step plus residual is the symbol.
pub proof fn lemma_dequantize_quantize(d: Seq<u16>, step: u16)
    requires
        step > 0,
    ensures
        dequantize_spec(
            Seq::new(d.len(), |i: int| (d[i] / step) as u16),
            Seq::new(d.len(), |i: int| (d[i] % step) as u16),
            step,
        ) == d,
{
    let q = Seq::new(d.len(), |i: int| (d[i] / step) as u16);
    let r = Seq::new(d.len(), |i: int| (d[i] % step) as u16);
    assert forall|i: int| 0 <= i < d.len() implies #[trigger] dequantize_spec(q, r, step)[i]
        == d[i] by {
        let v = d[i] as int;
        let s = step as int;
        assert(v == (v / s) * s + v % s) by (nonlinear_arith)
            requires
                s > 0,
        ;
    }
    assert(dequantize_spec(q, r, step) =~= d);
}


/// Swapping the halves of a symbol keeps it within its width.
pub proof fn lemma_half_swap_fits(g: u16, bits: u32)
    requires
        2 <= bits <= 16,
        bits % 2 == 0,
        fits(g, bits),
    ensures
        fits(half_swap(g, bits / 2), bits),
        (half_swap(g, bits / 2) as u32) < (1u32 << bits),
{
    let h = bits / 2;
    lemma_fits_shift(g, bits);
    assert(h <= 8 && bits == 2 * h && (g as u32) < (1u32 << bits) ==> (half_swap(g, h) as u32) < (1u32
        << bits)) by (bit_vector);
    lemma_pow2_shift(bits);
}

/// Reversing the low bits of a value into an `n`-bit field stays below 2^n.
pub proof fn lemma_revb_fits(v: u16, n: u32, i: u32)
    requires
        i <= n <= 16,
    ensures
        (revb_upto(v, n, i) as u32) < (1u32 << n),
    decreases i,
{
    if i > 0 {
        lemma_revb_fits(v, n, (i - 1) as u32);
        let o = revb_upto(v, n, (i - 1) as u32);
        let k = (n - 1 - (i - 1)) as u32;
        assert((o as u32) < (1u32 << n) && k < n && n <= 16 ==> ((o | (1u16 << k)) as u32) < (1u32
            << n)) by (bit_vector);
    } else {
        crate::bitfacts::lemma_one_shl(n);
    }
}

/// Reversing each half of a symbol keeps it within its width.
pub proof fn lemma_quarter_fits(g: u16, bits: u32)
    requires
        2 <= bits <= 16,
        bits % 2 == 0,
    ensures
        fits(quarter(g, bits / 2), bits),
{
    let h = bits / 2;
    lemma_revb_fits(g >> h, h, h);
    lemma_revb_fits(g & mask16(h), h, h);
    let a = revb_spec(g >> h, h);
    let b = revb_spec(g & mask16(h), h);
    assert(h <= 8 && bits == 2 * h && (a as u32) < (1u32 << h) && (b as u32) < (1u32 << h) ==> (((a
        << h) | b) as u32) < (1u32 << bits)) by (bit_vector);
    lemma_pow2_shift(bits);
}

/// Every glyph view keeps symbols within their width.
pub proof fn lemma_gview_fits(d: Seq<u16>, m: u8, bits: u32)
    requires
        2 <= bits <= 16,
        bits % 2 == 0,
        all_fit(d, bits),
    ensures
        all_fit(gview_spec(d, m, bits), bits),
        gview_spec(d, m, bits).len() == d.len(),
{
    let o1 = if m & 1u8 != 0 {
        d.reverse()
    } else {
        d
    };
    assert(all_fit(o1, bits)) by {
        if m & 1u8 != 0 {
            assert forall|i: int| 0 <= i < o1.len() implies fits(#[trigger] o1[i], bits) by {
                assert(o1[i] == d[d.len() - 1 - i]);
            }
        }
    }
    let o2 = if m & 2u8 != 0 {
        g_n_spec(o1, bits)
    } else {
        o1
    };
    assert(all_fit(o2, bits)) by {
        if m & 2u8 != 0 {
            assert forall|i: int| 0 <= i < o2.len() implies fits(#[trigger] o2[i], bits) by {
                lemma_half_swap_fits(o1[i], bits);
            }
        }
    }
    if m & 4u8 != 0 {
        let o3 = g_q_spec(o2, bits);
        assert forall|i: int| 0 <= i < o3.len() implies fits(#[trigger] o3[i], bits) by {
            lemma_quarter_fits(o2[i], bits);
        }
    }
}

// ---------------------------------------------------------------------------
// Bit-level view of the glyph transforms.
// ---------------------------------------------------------------------------
/// Bit `k` of `v`.
pub open spec fn bit16(v: u16, k: u32) -> bool {
    (v >> k) & 1u16 == 1u16
}

/// How single bits pass through the word operations of the transforms.
proof fn lemma_bit_ops(x: u16, y: u16, h: u32, k: u32, m: u32)
    by (bit_vector)
    requires
        k < 16,
        h < 16,
    ensures
        bit16(x | y, k) == (bit16(x, k) || bit16(y, k)),
        bit16(x << h, k) == (k >= h && bit16(x, (k - h) as u32)),
        bit16(x >> h, k) == (k + h < 16 && bit16(x, (k + h) as u32)),
        bit16(x & mask16(h), k) == (k < h && bit16(x, k)),
        bit16(1u16 << h, k) == (k == h),
        ((x & (1u16 << h)) != 0) == bit16(x, h),
        !bit16(0u16, k),
        (m <= 16 && (x as u32) < (1u32 << m) && k >= m) ==> !bit16(x, k),
{
}

/// Words with the same sixteen bits are equal.
proof fn lemma_bits_eq(a: u16, b: u16)
    by (bit_vector)
    requires
        bit16(a, 0) == bit16(b, 0),
        bit16(a, 1) == bit16(b, 1),
        bit16(a, 2) == bit16(b, 2),
        bit16(a, 3) == bit16(b, 3),
        bit16(a, 4) == bit16(b, 4),
        bit16(a, 5) == bit16(b, 5),
        bit16(a, 6) == bit16(b, 6),
        bit16(a, 7) == bit16(b, 7),
        bit16(a, 8) == bit16(b, 8),
        bit16(a, 9) == bit16(b, 9),
        bit16(a, 10) == bit16(b, 10),
        bit16(a, 11) == bit16(b, 11),
        bit16(a, 12) == bit16(b, 12),
        bit16(a, 13) == bit16(b, 13),
        bit16(a, 14) == bit16(b, 14),
        bit16(a, 15) == bit16(b, 15),
    ensures
        a == b,
{
}

proof fn lemma_eq_by_bits(a: u16, b: u16)
    requires
        forall|k: u32| k < 16 ==> #[trigger] bit16(a, k) == bit16(b, k),
    ensures
        a == b,
{
    assert(bit16(a, 0) == bit16(b, 0));
    assert(bit16(a, 1) == bit16(b, 1));
    assert(bit16(a, 2) == bit16(b, 2));
    assert(bit16(a, 3) == bit16(b, 3));
    assert(bit16(a, 4) == bit16(b, 4));
    assert(bit16(a, 5) == bit16(b, 5));
    assert(bit16(a, 6) == bit16(b, 6));
    assert(bit16(a, 7) == bit16(b, 7));
    assert(bit16(a, 8) == bit16(b, 8));
    assert(bit16(a, 9) == bit16(b, 9));
    assert(bit16(a, 10) == bit16(b, 10));
    assert(bit16(a, 11) == bit16(b, 11));
    assert(bit16(a, 12) == bit16(b, 12));
    assert(bit16(a, 13) == bit16(b, 13));
    assert(bit16(a, 14) == bit16(b, 14));
    assert(bit16(a, 15) == bit16(b, 15));
    lemma_bits_eq(a, b);
}

/// Bit `k` of the reversal of the low `i` bits of `v` into `n` bits.
proof fn lemma_revb_bits(v: u16, n: u32, i: u32)
    requires
        i <= n <= 16,
    ensures
        forall|k: u32|
            k < 16 ==> #[trigger] bit16(revb_upto(v, n, i), k) == (k < n && n - 1 - k < i
                && bit16(v, (n - 1 - k) as u32)),
    decreases i,
{
    if i > 0 {
        lemma_revb_bits(v, n, (i - 1) as u32);
        let o = revb_upto(v, n, (i - 1) as u32);
        let j = (i - 1) as u32;
        let m = (n - 1 - (i - 1)) as u32;
        assert forall|k: u32| k < 16 implies #[trigger] bit16(revb_upto(v, n, i), k) == (k < n && n
            - 1 - k < i && bit16(v, (n - 1 - k) as u32)) by {
            lemma_bit_ops(v, 0, j, k, 0);
            lemma_bit_ops(o, 1u16 << m, m, k, 0);
            lemma_bit_ops(v, 0, j, j, 0);
        }
    } else {
        assert forall|k: u32| k < 16 implies #[trigger] bit16(revb_upto(v, n, i), k) == (k < n && n
            - 1 - k < i && bit16(v, (n - 1 - k) as u32)) by {
            lemma_bit_ops(v, 0, 0, k, 0);
        }
    }
}

/// Bit `k` of a symbol with each half reversed: the low half mirrored
/// in place, the high half mirrored in place, nothing above.
proof fn lemma_quarter_bits(g: u16, h: u32)
    requires
        1 <= h <= 8,
    ensures
        forall|k: u32|
            k < 16 ==> #[trigger] bit16(quarter(g, h), k) == (if k < h {
                bit16(g, (h - 1 - k) as u32)
            } else if k < 2 * h {
                bit16(g, (3 * h - 1 - k) as u32)
            } else {
                false
            }),
{
    let r1 = revb_spec(g >> h, h);
    let r2 = revb_spec(g & mask16(h), h);
    lemma_revb_bits(g >> h, h, h);
    lemma_revb_bits(g & mask16(h), h, h);
    assert forall|k: u32| k < 16 implies #[trigger] bit16(quarter(g, h), k) == (if k < h {
        bit16(g, (h - 1 - k) as u32)
    } else if k < 2 * h {
        bit16(g, (3 * h - 1 - k) as u32)
    } else {
        false
    }) by {
        lemma_bit_ops(r1 << h, r2, h, k, 0);
        lemma_bit_ops(r1, r2, h, k, 0);
        if k >= h {
            let j = (k - h) as u32;
            assert(bit16(r1, j) == (j < h && bit16(g >> h, (h - 1 - j) as u32)));
            if j < h {
                lemma_bit_ops(g, 0, h, (h - 1 - j) as u32, 0);
            }
        }
        assert(bit16(r2, k) == (k < h && bit16(g & mask16(h), (h - 1 - k) as u32)));
        if k < h {
            lemma_bit_ops(g, 0, h, (h - 1 - k) as u32, 0);
        }
    }
}

/// Bit `k` of a symbol of `2h` bits with its halves swapped.
proof fn lemma_half_swap_bits(g: u16, h: u32)
    requires
        1 <= h <= 8,
        (g as u32) < (1u32 << ((2 * h) as u32)),
    ensures
        forall|k: u32|
            k < 16 ==> #[trigger] bit16(half_swap(g, h), k) == (if k < h {
                bit16(g, (k + h) as u32)
            } else if k < 2 * h {
                bit16(g, (k - h) as u32)
            } else {
                false
            }),
{
    let a = g & mask16(h);
    assert forall|k: u32| k < 16 implies #[trigger] bit16(half_swap(g, h), k) == (if k < h {
        bit16(g, (k + h) as u32)
    } else if k < 2 * h {
        bit16(g, (k - h) as u32)
    } else {
        false
    }) by {
        lemma_bit_ops(a << h, g >> h, h, k, 0);
        lemma_bit_ops(a, 0, h, k, 0);
        lemma_bit_ops(g, 0, h, k, 0);
        if k >= h {
            lemma_bit_ops(g, 0, h, (k - h) as u32, 0);
        }
        if k + h < 16 {
            lemma_bit_ops(g, 0, h, (k + h) as u32, (2 * h) as u32);
        }
    }
}

/// The three identities of the glyph views on one symbol of `2h` bits:
/// reversing each half twice gives it back, swapping halves commutes with
/// reversing each half, and together they reverse all `2h` bits.
pub proof fn lemma_view_identities(g: u16, h: u32)
    requires
        1 <= h <= 8,
        (g as u32) < (1u32 << ((2 * h) as u32)),
    ensures
        quarter(quarter(g, h), h) == g,
        half_swap(quarter(g, h), h) == quarter(half_swap(g, h), h),
        quarter(half_swap(g, h), h) == revb_spec(g, (2 * h) as u32),
{
    let q = quarter(g, h);
    let s = half_swap(g, h);
    lemma_quarter_bits(g, h);
    lemma_half_swap_bits(g, h);
    lemma_quarter_bits(q, h);
    lemma_quarter_bits(s, h);
    lemma_revb_bits(g, (2 * h) as u32, (2 * h) as u32);
    assert forall|k: u32| k < 16 implies #[trigger] bit16(g, k) == (k < 2 * h && bit16(g, k)) by {
        lemma_bit_ops(g, 0, 0, k, (2 * h) as u32);
    }
    assert forall|k: u32| k < 16 implies #[trigger] bit16(q, k) == (k < 2 * h && bit16(q, k)) by {
    }
    assert((q as u32) < (1u32 << ((2 * h) as u32))) by {
        lemma_quarter_fits(g, (2 * h) as u32);
        lemma_fits_shift(q, (2 * h) as u32);
    }
    lemma_half_swap_bits(q, h);
    assert forall|k: u32| k < 16 implies #[trigger] bit16(quarter(q, h), k) == bit16(g, k) by {
        if k < h {
            assert(bit16(q, (h - 1 - k) as u32) == bit16(g, k));
        } else if k < 2 * h {
            assert(bit16(q, (3 * h - 1 - k) as u32) == bit16(g, k));
        }
    }
    lemma_eq_by_bits(quarter(q, h), g);
    assert forall|k: u32| k < 16 implies #[trigger] bit16(half_swap(q, h), k) == bit16(
        quarter(s, h),
        k,
    ) by {
        if k < h {
            assert(bit16(q, (k + h) as u32) == bit16(g, (2 * h - 1 - k) as u32));
            assert(bit16(s, (h - 1 - k) as u32) == bit16(g, (2 * h - 1 - k) as u32));
        } else if k < 2 * h {
            assert(bit16(q, (k - h) as u32) == bit16(g, (2 * h - 1 - k) as u32));
            assert(bit16(s, (3 * h - 1 - k) as u32) == bit16(g, (2 * h - 1 - k) as u32));
        }
    }
    lemma_eq_by_bits(half_swap(q, h), quarter(s, h));
    assert forall|k: u32| k < 16 implies #[trigger] bit16(quarter(s, h), k) == bit16(
        revb_spec(g, (2 * h) as u32),
        k,
    ) by {
        if k < h {
            assert(bit16(s, (h - 1 - k) as u32) == bit16(g, (2 * h - 1 - k) as u32));
        } else if k < 2 * h {
            assert(bit16(s, (3 * h - 1 - k) as u32) == bit16(g, (2 * h - 1 - k) as u32));
        }
    }
    lemma_eq_by_bits(quarter(s, h), revb_spec(g, (2 * h) as u32));
}

} // verus!
