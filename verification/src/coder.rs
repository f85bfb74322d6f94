//! Carry-less binary arithmetic coder over a 32-bit interval with 12-bit
//! probabilities (`p` is P(bit = 1) scaled to 0..4095).
//!
//! The encoder keeps an interval `[x1, x2]`; each bit narrows it at
//! `xmid = x1 + (range >> 12) * p`, and whenever the two ends share their top
//! byte that byte is emitted and both ends are shifted left.  The decoder
//! mirrors the encoder and keeps a 32-bit window `x` onto the code stream.
//!
//! `lemma_decoder_step` is the heart of the codec's losslessness: a decoder
//! synchronised with an encoder recovers exactly the bit the encoder coded.
use vstd::prelude::*;

verus! {

/// Abstract state of an [`Encoder`].
pub struct EncState {
    pub x1: u32,
    pub x2: u32,
    pub out: Seq<u8>,
}

/// Abstract state of a [`Decoder`].
pub struct DecState {
    pub x1: u32,
    pub x2: u32,
    pub x: u32,
    pub inp: Seq<u8>,
    pub pos: int,
}

/// Number of leading bytes that `x1` and `x2` share.
pub open spec fn shared_bytes(x1: u32, x2: u32) -> nat {
    if x1 >> 24u32 != x2 >> 24u32 {
        0
    } else if x1 >> 16u32 != x2 >> 16u32 {
        1
    } else if x1 >> 8u32 != x2 >> 8u32 {
        2
    } else if x1 != x2 {
        3
    } else {
        4
    }
}

pub open spec fn same_top(x1: u32, x2: u32) -> bool {
    x1 >> 24u32 == x2 >> 24u32
}

pub open spec fn shl8(x: u32) -> u32 {
    x << 8u32
}

pub open spec fn shl8_fill(x: u32) -> u32 {
    (x << 8u32) | 0xffu32
}

pub open spec fn top_byte(x: u32) -> u8 {
    (x >> 24u32) as u8
}

/// Split point of the interval for probability `p`.
pub open spec fn xmid(x1: u32, x2: u32, p: u32) -> u32 {
    (x1 + ((((x2 - x1) as u32) >> 12u32) * p)) as u32
}

/// An encoder interval in normal form: the two ends differ in their top byte.
pub open spec fn enc_valid(s: EncState) -> bool {
    s.x1 <= s.x2 && !same_top(s.x1, s.x2)
}

/// Shift out the leading bytes the two ends share.
pub open spec fn renorm(x1: u32, x2: u32, out: Seq<u8>) -> EncState
    decreases shared_bytes(x1, x2),
{
    if same_top(x1, x2) {
        proof {
            lemma_shared_decreases(x1, x2);
        }
        renorm(shl8(x1), shl8_fill(x2), out.push(top_byte(x2)))
    } else {
        EncState { x1, x2, out }
    }
}

/// Narrow the interval to the half that codes `bit`.
pub open spec fn narrow(s: EncState, bit: u32, p: u32) -> EncState {
    let m = xmid(s.x1, s.x2, p);
    if bit == 1 {
        EncState { x1: s.x1, x2: m, out: s.out }
    } else {
        EncState { x1: (m + 1) as u32, x2: s.x2, out: s.out }
    }
}

/// One coded bit.
pub open spec fn enc_step(s: EncState, bit: u32, p: u32) -> EncState {
    let n = narrow(s, bit, p);
    renorm(n.x1, n.x2, n.out)
}

/// Coding a whole sequence of bits with their probabilities, front first.
pub open spec fn enc_run(s: EncState, bits: Seq<u32>, probs: Seq<u32>) -> EncState
    decreases bits.len(),
{
    if bits.len() == 0 {
        s
    } else {
        enc_run(enc_step(s, bits[0], probs[0]), bits.drop_first(), probs.drop_first())
    }
}

pub open spec fn be32(x: u32) -> Seq<u8> {
    seq![(x >> 24u32) as u8, (x >> 16u32) as u8, (x >> 8u32) as u8, x as u8]
}

/// The complete code stream of an encoder: what it emitted, then the four
/// bytes of the low end.
pub open spec fn flushed(s: EncState) -> Seq<u8> {
    s.out + be32(s.x1)
}

pub open spec fn enc_init() -> EncState {
    EncState { x1: 0, x2: 0xffff_ffff, out: Seq::empty() }
}

/// Stream of an encoder started fresh, fed `bits`, then flushed.
pub open spec fn stream_of(bits: Seq<u32>, probs: Seq<u32>) -> Seq<u8> {
    flushed(enc_run(enc_init(), bits, probs))
}

/// Byte `i` of `s`, zero past the end (the decoder reads zeros there).
pub open spec fn byte_at(s: Seq<u8>, i: int) -> u8 {
    if 0 <= i < s.len() {
        s[i]
    } else {
        0
    }
}

pub open spec fn bytes_to_u32(b0: u8, b1: u8, b2: u8, b3: u8) -> u32 {
    ((b0 as u32) << 24u32) | ((b1 as u32) << 16u32) | ((b2 as u32) << 8u32) | (b3 as u32)
}

/// Big-endian 32-bit window of `s` starting at `i`.
pub open spec fn win(s: Seq<u8>, i: int) -> u32 {
    bytes_to_u32(byte_at(s, i), byte_at(s, i + 1), byte_at(s, i + 2), byte_at(s, i + 3))
}

pub open spec fn min_int(a: int, b: int) -> int {
    if a <= b {
        a
    } else {
        b
    }
}

pub open spec fn dec_renorm(d: DecState) -> DecState
    decreases shared_bytes(d.x1, d.x2),
{
    if same_top(d.x1, d.x2) {
        proof {
            lemma_shared_decreases(d.x1, d.x2);
        }
        dec_renorm(
            DecState {
                x1: shl8(d.x1),
                x2: shl8_fill(d.x2),
                x: (d.x << 8u32) | (byte_at(d.inp, d.pos) as u32),
                inp: d.inp,
                pos: min_int(d.pos + 1, d.inp.len() as int),
            },
        )
    } else {
        d
    }
}

/// One decoded bit: the bit and the decoder after it.
pub open spec fn dec_step(d: DecState, p: u32) -> (u32, DecState) {
    let m = xmid(d.x1, d.x2, p);
    if d.x <= m {
        (1, dec_renorm(DecState { x2: m, ..d }))
    } else {
        (0, dec_renorm(DecState { x1: (m + 1) as u32, ..d }))
    }
}

pub open spec fn dec_init(inp: Seq<u8>) -> DecState {
    DecState { x1: 0, x2: 0xffff_ffff, x: win(inp, 0), inp, pos: min_int(4, inp.len() as int) }
}

pub open spec fn prefix_of(a: Seq<u8>, b: Seq<u8>) -> bool {
    a.len() <= b.len() && forall|i: int| 0 <= i < a.len() ==> a[i] == b[i]
}

/// A decoder reading stream `f` is in step with encoder state `e`.
pub open spec fn synced(d: DecState, e: EncState, f: Seq<u8>) -> bool {
    &&& d.x1 == e.x1
    &&& d.x2 == e.x2
    &&& d.inp == f
    &&& prefix_of(e.out, f)
    &&& d.pos == min_int(e.out.len() as int + 4, f.len() as int)
    &&& d.x == win(f, e.out.len() as int)
}

pub open spec fn bits_ok(bits: Seq<u32>, probs: Seq<u32>) -> bool {
    &&& bits.len() == probs.len()
    &&& forall|i: int| 0 <= i < bits.len() ==> bits[i] <= 1
    &&& forall|i: int| 0 <= i < probs.len() ==> probs[i] <= 4095
}

// ---------------------------------------------------------------------------
// Bit-level facts.
// ---------------------------------------------------------------------------
pub proof fn lemma_same_top_xor(x1: u32, x2: u32)
    ensures
        ((x1 ^ x2) & 0xff00_0000u32 == 0) == same_top(x1, x2),
{
    assert(((x1 ^ x2) & 0xff00_0000u32 == 0) == (x1 >> 24u32 == x2 >> 24u32)) by (bit_vector);
}

pub proof fn lemma_shared_decreases(x1: u32, x2: u32)
    requires
        same_top(x1, x2),
    ensures
        shared_bytes(shl8(x1), shl8_fill(x2)) < shared_bytes(x1, x2),
{
    let a = x1 << 8u32;
    let b = (x2 << 8u32) | 0xffu32;
    assert(x1 >> 24u32 == x2 >> 24u32 ==> (((a >> 24u32 == b >> 24u32) == (x1 >> 16u32 == x2
        >> 16u32)) && ((a >> 16u32 == b >> 16u32) == (x1 >> 8u32 == x2 >> 8u32)) && ((a >> 8u32
        == b >> 8u32) == (x1 == x2)) && a != b)) by (bit_vector)
        requires
            a == x1 << 8u32,
            b == (x2 << 8u32) | 0xffu32,
    ;
}

proof fn lemma_shift_keeps_order(x1: u32, x2: u32)
    requires
        same_top(x1, x2),
        x1 <= x2,
    ensures
        shl8(x1) <= shl8_fill(x2),
        top_byte(x2) == top_byte(x1),
{
    assert((x1 >> 24u32 == x2 >> 24u32 && x1 <= x2) ==> (x1 << 8u32) <= ((x2 << 8u32) | 0xffu32))
        by (bit_vector);
}

/// The bytes of `be32(x)` read back as `x`.
proof fn lemma_be32_win(out: Seq<u8>, x: u32)
    ensures
        win(out + be32(x), out.len() as int) == x,
{
    let f = out + be32(x);
    let n = out.len() as int;
    assert(byte_at(f, n) == (x >> 24u32) as u8);
    assert(byte_at(f, n + 1) == (x >> 16u32) as u8);
    assert(byte_at(f, n + 2) == (x >> 8u32) as u8);
    assert(byte_at(f, n + 3) == x as u8);
    assert(bytes_to_u32((x >> 24u32) as u8, (x >> 16u32) as u8, (x >> 8u32) as u8, x as u8) == x)
        by (bit_vector);
}

/// Reading one byte further shifts the window by one byte.
proof fn lemma_win_next(f: Seq<u8>, i: int)
    ensures
        win(f, i + 1) == (win(f, i) << 8u32) | (byte_at(f, i + 4) as u32),
        win(f, i) == ((byte_at(f, i) as u32) << 24u32) | (win(f, i + 1) >> 8u32),
{
    let b0 = byte_at(f, i);
    let b1 = byte_at(f, i + 1);
    let b2 = byte_at(f, i + 2);
    let b3 = byte_at(f, i + 3);
    let b4 = byte_at(f, i + 4);
    assert(bytes_to_u32(b1, b2, b3, b4) == (bytes_to_u32(b0, b1, b2, b3) << 8u32) | (b4 as u32)
        && bytes_to_u32(b0, b1, b2, b3) == ((b0 as u32) << 24u32) | (bytes_to_u32(b1, b2, b3, b4)
        >> 8u32)) by (bit_vector);
}

/// Undoing one emitted byte keeps the window inside the interval.
proof fn lemma_unshift_window(x1: u32, x2: u32, t: u8, w0: u32, w1: u32)
    requires
        same_top(x1, x2),
        t == top_byte(x2),
        shl8(x1) <= w1,
        w1 <= shl8_fill(x2),
        w0 == ((t as u32) << 24u32) | (w1 >> 8u32),
    ensures
        x1 <= w0 <= x2,
{
    assert(x1 >> 24u32 == x2 >> 24u32 && t == (x2 >> 24u32) as u8 && (x1 << 8u32) <= w1 && w1 <= ((
    x2 << 8u32) | 0xffu32) && w0 == ((t as u32) << 24u32) | (w1 >> 8u32) ==> x1 <= w0 && w0 <= x2)
        by (bit_vector);
}

/// The initial interval spans every top byte.
pub proof fn lemma_initial_interval()
    ensures
        !same_top(0u32, 0xffff_ffffu32),
{
    assert(0u32 >> 24u32 != 0xffff_ffffu32 >> 24u32) by (bit_vector);
}

pub proof fn lemma_shr12(r: u32)
    ensures
        r >> 12u32 == r / 4096,
{
    assert(r >> 12u32 == r / 4096) by (bit_vector);
}

/// The split point stays inside the interval and leaves room on both sides.
pub proof fn lemma_xmid_bounds(x1: u32, x2: u32, p: u32)
    requires
        x1 < x2,
        p <= 4095,
    ensures
        x1 + ((((x2 - x1) as u32) >> 12u32) * p) < x2,
        x1 <= xmid(x1, x2, p) < x2,
        ((((x2 - x1) as u32) >> 12u32) * p) <= 0xffff_ffff,
{
    let r = (x2 - x1) as u32;
    lemma_shr12(r);
    let q = r / 4096;
    assert(q * 4096 <= r) by (nonlinear_arith)
        requires
            q == r / 4096,
            r >= 0,
    ;
    assert(q * p <= q * 4095) by (nonlinear_arith)
        requires
            p <= 4095,
            q >= 0,
    ;
    assert(q * p < r) by (nonlinear_arith)
        requires
            q * 4096 <= r,
            q * p <= q * 4095,
            r >= 1,
            q >= 0,
    ;
}

// ---------------------------------------------------------------------------
// Encoder-side facts.
// ---------------------------------------------------------------------------
/// Renormalisation ends in a valid state and only appends bytes.
pub proof fn lemma_renorm_valid(x1: u32, x2: u32, out: Seq<u8>)
    requires
        x1 <= x2,
    ensures
        enc_valid(renorm(x1, x2, out)),
        renorm(x1, x2, out).out.len() >= out.len(),
        prefix_of(out, renorm(x1, x2, out).out),
    decreases shared_bytes(x1, x2),
{
    if same_top(x1, x2) {
        lemma_shared_decreases(x1, x2);
        lemma_shift_keeps_order(x1, x2);
        lemma_renorm_valid(shl8(x1), shl8_fill(x2), out.push(top_byte(x2)));
        let r = renorm(shl8(x1), shl8_fill(x2), out.push(top_byte(x2)));
        assert forall|i: int| 0 <= i < out.len() implies out[i] == r.out[i] by {
            assert(out.push(top_byte(x2))[i] == out[i]);
        }
    }
}

pub proof fn lemma_narrow(s: EncState, bit: u32, p: u32)
    requires
        enc_valid(s),
        p <= 4095,
    ensures
        s.x1 <= narrow(s, bit, p).x1,
        narrow(s, bit, p).x1 <= narrow(s, bit, p).x2,
        narrow(s, bit, p).x2 <= s.x2,
        narrow(s, bit, p).out == s.out,
{
    lemma_xmid_bounds(s.x1, s.x2, p);
}

pub proof fn lemma_enc_step_valid(s: EncState, bit: u32, p: u32)
    requires
        enc_valid(s),
        p <= 4095,
    ensures
        enc_valid(enc_step(s, bit, p)),
        prefix_of(s.out, enc_step(s, bit, p).out),
{
    lemma_narrow(s, bit, p);
    let n = narrow(s, bit, p);
    lemma_renorm_valid(n.x1, n.x2, n.out);
}

/// If the renormalised state's window lies in its interval, so does the
/// window of the state before renormalisation.
proof fn lemma_renorm_window(x1: u32, x2: u32, out: Seq<u8>, f: Seq<u8>)
    requires
        x1 <= x2,
        prefix_of(renorm(x1, x2, out).out, f),
        renorm(x1, x2, out).x1 <= win(f, renorm(x1, x2, out).out.len() as int) <= renorm(
            x1,
            x2,
            out,
        ).x2,
    ensures
        prefix_of(out, f),
        x1 <= win(f, out.len() as int) <= x2,
    decreases shared_bytes(x1, x2),
{
    if same_top(x1, x2) {
        lemma_shared_decreases(x1, x2);
        lemma_shift_keeps_order(x1, x2);
        let o1 = out.push(top_byte(x2));
        lemma_renorm_window(shl8(x1), shl8_fill(x2), o1, f);
        assert(prefix_of(out, f)) by {
            assert forall|i: int| 0 <= i < out.len() implies out[i] == f[i] by {
                assert(o1[i] == out[i]);
            }
        }
        let n = out.len() as int;
        assert(f[n] == o1[n]);
        assert(byte_at(f, n) == top_byte(x2));
        lemma_win_next(f, n);
        lemma_unshift_window(x1, x2, top_byte(x2), win(f, n), win(f, n + 1));
    }
}

/// For every state reachable in coding and every continuation, the final
/// stream extends what was emitted so far, and its window at the current
/// position lies inside the current interval.
pub proof fn lemma_window_in_interval(e: EncState, bits: Seq<u32>, probs: Seq<u32>)
    requires
        enc_valid(e),
        bits_ok(bits, probs),
    ensures
        prefix_of(e.out, flushed(enc_run(e, bits, probs))),
        e.x1 <= win(flushed(enc_run(e, bits, probs)), e.out.len() as int) <= e.x2,
    decreases bits.len(),
{
    let f = flushed(enc_run(e, bits, probs));
    if bits.len() == 0 {
        lemma_be32_win(e.out, e.x1);
        assert(prefix_of(e.out, f)) by {
            assert forall|i: int| 0 <= i < e.out.len() implies e.out[i] == f[i] by {}
        }
    } else {
        let n = narrow(e, bits[0], probs[0]);
        lemma_narrow(e, bits[0], probs[0]);
        lemma_enc_step_valid(e, bits[0], probs[0]);
        let e1 = enc_step(e, bits[0], probs[0]);
        assert(bits_ok(bits.drop_first(), probs.drop_first())) by {
            assert forall|i: int| 0 <= i < bits.drop_first().len() implies bits.drop_first()[i]
                <= 1 by {
                assert(bits.drop_first()[i] == bits[i + 1]);
            }
            assert forall|i: int| 0 <= i < probs.drop_first().len() implies probs.drop_first()[i]
                <= 4095 by {
                assert(probs.drop_first()[i] == probs[i + 1]);
            }
        }
        lemma_window_in_interval(e1, bits.drop_first(), probs.drop_first());
        lemma_renorm_window(n.x1, n.x2, n.out, f);
    }
}

// ---------------------------------------------------------------------------
// Decoder-side facts.
// ---------------------------------------------------------------------------
pub open spec fn dec_wf(d: DecState) -> bool {
    &&& d.x1 <= d.x2
    &&& !same_top(d.x1, d.x2)
    &&& 0 <= d.pos <= d.inp.len()
}

/// Renormalising a decoder in step with a (not yet renormalised) encoder
/// interval keeps them in step.
proof fn lemma_dec_renorm_sync(d: DecState, x1: u32, x2: u32, out: Seq<u8>, f: Seq<u8>)
    requires
        x1 <= x2,
        d.x1 == x1,
        d.x2 == x2,
        d.inp == f,
        prefix_of(renorm(x1, x2, out).out, f),
        d.pos == min_int(out.len() as int + 4, f.len() as int),
        d.x == win(f, out.len() as int),
    ensures
        synced(dec_renorm(d), renorm(x1, x2, out), f),
    decreases shared_bytes(x1, x2),
{
    lemma_renorm_valid(x1, x2, out);
    if same_top(x1, x2) {
        lemma_shared_decreases(x1, x2);
        lemma_shift_keeps_order(x1, x2);
        let o1 = out.push(top_byte(x2));
        let n = out.len() as int;
        lemma_win_next(f, n);
        assert(byte_at(d.inp, d.pos) == byte_at(f, n + 4));
        let d1 = DecState {
            x1: shl8(d.x1),
            x2: shl8_fill(d.x2),
            x: (d.x << 8u32) | (byte_at(d.inp, d.pos) as u32),
            inp: d.inp,
            pos: min_int(d.pos + 1, d.inp.len() as int),
        };
        lemma_dec_renorm_sync(d1, shl8(x1), shl8_fill(x2), o1, f);
    } else {
        assert(prefix_of(out, f));
    }
}

/// A decoder in step with an encoder that goes on to code `bits` decodes
/// the first of them with the same probability, and stays in step.
pub proof fn lemma_decoder_step(d: DecState, e: EncState, bits: Seq<u32>, probs: Seq<u32>)
    requires
        enc_valid(e),
        bits_ok(bits, probs),
        bits.len() > 0,
        synced(d, e, flushed(enc_run(e, bits, probs))),
    ensures
        dec_step(d, probs[0]).0 == bits[0],
        synced(
            dec_step(d, probs[0]).1,
            enc_step(e, bits[0], probs[0]),
            flushed(enc_run(e, bits, probs)),
        ),
        flushed(enc_run(e, bits, probs)) == flushed(
            enc_run(enc_step(e, bits[0], probs[0]), bits.drop_first(), probs.drop_first()),
        ),
{
    let f = flushed(enc_run(e, bits, probs));
    let b = bits[0];
    let p = probs[0];
    let n = narrow(e, b, p);
    lemma_narrow(e, b, p);
    lemma_enc_step_valid(e, b, p);
    let e1 = enc_step(e, b, p);
    assert(bits_ok(bits.drop_first(), probs.drop_first())) by {
        assert forall|i: int| 0 <= i < bits.drop_first().len() implies bits.drop_first()[i]
            <= 1 by {
            assert(bits.drop_first()[i] == bits[i + 1]);
        }
        assert forall|i: int| 0 <= i < probs.drop_first().len() implies probs.drop_first()[i]
            <= 4095 by {
            assert(probs.drop_first()[i] == probs[i + 1]);
        }
    }
    lemma_window_in_interval(e1, bits.drop_first(), probs.drop_first());
    lemma_renorm_window(n.x1, n.x2, n.out, f);
    let m = xmid(e.x1, e.x2, p);
    lemma_xmid_bounds(e.x1, e.x2, p);
    if b == 1 {
        assert(d.x <= m);
        lemma_dec_renorm_sync(DecState { x2: m, ..d }, n.x1, n.x2, n.out, f);
    } else {
        assert(!(d.x <= m));
        lemma_dec_renorm_sync(DecState { x1: (m + 1) as u32, ..d }, n.x1, n.x2, n.out, f);
    }
}

/// A fresh decoder on the stream of a fresh encoder is in step with it.
pub proof fn lemma_decoder_init(bits: Seq<u32>, probs: Seq<u32>)
    ensures
        synced(dec_init(stream_of(bits, probs)), enc_init(), stream_of(bits, probs)),
{
    let f = stream_of(bits, probs);
    assert(prefix_of(enc_init().out, f));
}

/// Coding `bits` then `more` is coding their concatenation.
pub proof fn lemma_enc_run_append(
    e: EncState,
    bits: Seq<u32>,
    probs: Seq<u32>,
    more_bits: Seq<u32>,
    more_probs: Seq<u32>,
)
    requires
        bits.len() == probs.len(),
    ensures
        enc_run(e, bits + more_bits, probs + more_probs) == enc_run(
            enc_run(e, bits, probs),
            more_bits,
            more_probs,
        ),
    decreases bits.len(),
{
    if bits.len() > 0 {
        assert((bits + more_bits).drop_first() == bits.drop_first() + more_bits);
        assert((probs + more_probs).drop_first() == probs.drop_first() + more_probs);
        lemma_enc_run_append(
            enc_step(e, bits[0], probs[0]),
            bits.drop_first(),
            probs.drop_first(),
            more_bits,
            more_probs,
        );
    } else {
        assert(bits + more_bits == more_bits);
        assert(probs + more_probs == more_probs);
    }
}

/// Decoding one bit per probability of `probs`, front first: the bits and
/// the decoder after them.
pub open spec fn dec_run(d: DecState, probs: Seq<u32>) -> (Seq<u32>, DecState)
    decreases probs.len(),
{
    if probs.len() == 0 {
        (Seq::empty(), d)
    } else {
        let (b, d1) = dec_step(d, probs[0]);
        let (r, d2) = dec_run(d1, probs.drop_first());
        (seq![b] + r, d2)
    }
}

proof fn lemma_dec_run_synced(d: DecState, e: EncState, bits: Seq<u32>, probs: Seq<u32>)
    requires
        enc_valid(e),
        bits_ok(bits, probs),
        synced(d, e, flushed(enc_run(e, bits, probs))),
    ensures
        dec_run(d, probs).0 == bits,
    decreases bits.len(),
{
    if bits.len() > 0 {
        lemma_decoder_step(d, e, bits, probs);
        lemma_enc_step_valid(e, bits[0], probs[0]);
        let e1 = enc_step(e, bits[0], probs[0]);
        let d1 = dec_step(d, probs[0]).1;
        assert(bits_ok(bits.drop_first(), probs.drop_first())) by {
            assert forall|i: int| 0 <= i < bits.drop_first().len() implies bits.drop_first()[i]
                <= 1 by {
                assert(bits.drop_first()[i] == bits[i + 1]);
            }
            assert forall|i: int| 0 <= i < probs.drop_first().len() implies probs.drop_first()[i]
                <= 4095 by {
                assert(probs.drop_first()[i] == probs[i + 1]);
            }
        }
        lemma_dec_run_synced(d1, e1, bits.drop_first(), probs.drop_first());
        assert(seq![bits[0]] + bits.drop_first() =~= bits);
    } else {
        assert(bits =~= Seq::<u32>::empty());
    }
}

/// A fresh decoder on the stream of a fresh encoder, given the same
/// probabilities, decodes every bit the encoder coded: bit `k` comes back
/// as the `k`-th decoded bit.
pub proof fn lemma_decode_replays(bits: Seq<u32>, probs: Seq<u32>)
    requires
        bits_ok(bits, probs),
    ensures
        dec_run(dec_init(stream_of(bits, probs)), probs).0 == bits,
{
    lemma_initial_interval();
    lemma_decoder_init(bits, probs);
    lemma_dec_run_synced(dec_init(stream_of(bits, probs)), enc_init(), bits, probs);
}

/// Renormalising only appends to the emitted bytes.
proof fn lemma_renorm_extends(x1: u32, x2: u32, out: Seq<u8>)
    ensures
        out.is_prefix_of(renorm(x1, x2, out).out),
    decreases shared_bytes(x1, x2),
{
    if same_top(x1, x2) {
        lemma_shared_decreases(x1, x2);
        let o2 = out.push(top_byte(x2));
        lemma_renorm_extends(shl8(x1), shl8_fill(x2), o2);
        let r = renorm(shl8(x1), shl8_fill(x2), o2).out;
        assert(r.subrange(0, out.len() as int) =~= o2.subrange(0, out.len() as int));
        assert(o2.subrange(0, out.len() as int) =~= out);
    } else {
        assert(out.subrange(0, out.len() as int) =~= out);
    }
}

/// Coding a bit only appends to what the encoder has emitted.
pub proof fn lemma_enc_step_extends(s: EncState, bit: u32, p: u32)
    ensures
        s.out.is_prefix_of(enc_step(s, bit, p).out),
{
    let n = narrow(s, bit, p);
    lemma_renorm_extends(n.x1, n.x2, n.out);
}

/// Coding any run of bits only appends to what the encoder has emitted.
pub proof fn lemma_enc_run_extends(s: EncState, bits: Seq<u32>, probs: Seq<u32>)
    ensures
        s.out.is_prefix_of(enc_run(s, bits, probs).out),
    decreases bits.len(),
{
    if bits.len() == 0 {
        assert(s.out.subrange(0, s.out.len() as int) =~= s.out);
    } else {
        let s1 = enc_step(s, bits[0], probs[0]);
        lemma_enc_step_extends(s, bits[0], probs[0]);
        lemma_enc_run_extends(s1, bits.drop_first(), probs.drop_first());
        let r = enc_run(s1, bits.drop_first(), probs.drop_first()).out;
        assert(r.subrange(0, s.out.len() as int) =~= s1.out.subrange(0, s.out.len() as int));
    }
}

// ---------------------------------------------------------------------------
// Executable coder.
// ---------------------------------------------------------------------------
/// Arithmetic encoder: the interval `[x1, x2]` and the bytes emitted so far.
pub struct Encoder {
    pub x1: u32,
    pub x2: u32,
    pub out: Vec<u8>,
}

impl View for Encoder {
    type V = EncState;

    open spec fn view(&self) -> EncState {
        EncState { x1: self.x1, x2: self.x2, out: self.out@ }
    }
}

impl Encoder {
    pub fn new() -> (e: Self)
        ensures
            e@ == enc_init(),
            enc_valid(e@),
    {
        let e = Encoder { x1: 0, x2: 0xFFFF_FFFF, out: Vec::new() };
        proof {
            lemma_initial_interval();
        }
        e
    }

    /// Code `bit` (1 narrows to the low part) with P(bit = 1) = `p` / 4096.
    pub fn encode(&mut self, bit: u32, p: u32)
        requires
            enc_valid(old(self)@),
            p <= 4095,
        ensures
            final(self)@ == enc_step(old(self)@, bit, p),
            enc_valid(final(self)@),
            old(self)@.out.is_prefix_of(final(self)@.out),
    {
        proof {
            lemma_xmid_bounds(self.x1, self.x2, p);
            lemma_enc_step_valid(self@, bit, p);
            lemma_enc_step_extends(self@, bit, p);
        }
        // p in [0,4095]; xmid always in [x1, x2-1] since p < 4096.
        let range = self.x2 - self.x1;
        let xmid = self.x1 + (range >> 12) * p;
        if bit == 1 {
            self.x2 = xmid;
        } else {
            self.x1 = xmid + 1;
        }
        let ghost n = self@;
        while (self.x1 ^ self.x2) & 0xFF00_0000 == 0
            invariant
                self.x1 <= self.x2,
                renorm(self.x1, self.x2, self.out@) == renorm(n.x1, n.x2, n.out),
            decreases shared_bytes(self.x1, self.x2),
        {
            proof {
                lemma_same_top_xor(self.x1, self.x2);
                lemma_shared_decreases(self.x1, self.x2);
                lemma_shift_keeps_order(self.x1, self.x2);
            }
            self.out.push((self.x2 >> 24) as u8);
            self.x1 = self.x1 << 8;
            self.x2 = (self.x2 << 8) | 0xFF;
        }
        proof {
            lemma_same_top_xor(self.x1, self.x2);
        }
    }

    /// Emit the four bytes of the low end; the stream is then complete.
    pub fn flush(&mut self)
        ensures
            final(self).out@ == flushed(old(self)@),
    {
        let ghost x = self.x1;
        let ghost o = self.out@;
        let mut k: usize = 0;
        while k < 4
            invariant
                k <= 4,
                self.out@ == o + be32(x).take(k as int),
                self.x1 == (if k == 0 {
                    x
                } else if k == 1 {
                    x << 8u32
                } else if k == 2 {
                    x << 16u32
                } else if k == 3 {
                    x << 24u32
                } else {
                    0u32
                }),
            decreases 4 - k,
        {
            let ghost cur = self.x1;
            self.out.push((self.x1 >> 24) as u8);
            self.x1 = self.x1 << 8;
            proof {
                assert(((x << 8u32) >> 24u32 == (x >> 16u32) & 0xff && (x << 8u32) << 8u32 == x
                    << 16u32 && ((x >> 16u32) & 0xff) as u8 == (x >> 16u32) as u8) && ((x << 16u32)
                    >> 24u32 == (x >> 8u32) & 0xff && (x << 16u32) << 8u32 == x << 24u32 && ((x
                    >> 8u32) & 0xff) as u8 == (x >> 8u32) as u8) && ((x << 24u32) >> 24u32 == x
                    & 0xff && (x & 0xff) as u8 == x as u8 && (x << 24u32) << 8u32 == 0))
                    by (bit_vector);
                assert(be32(x).take(k + 1) == be32(x).take(k as int).push(be32(x)[k as int]));
            }
            k += 1;
        }
        assert(be32(x).take(4) == be32(x));
    }
}

/// Arithmetic decoder over the code stream `inp`.
pub struct Decoder<'a> {
    pub x1: u32,
    pub x2: u32,
    pub x: u32,
    pub inp: &'a [u8],
    pub pos: usize,
}

impl<'a> View for Decoder<'a> {
    type V = DecState;

    open spec fn view(&self) -> DecState {
        DecState { x1: self.x1, x2: self.x2, x: self.x, inp: self.inp@, pos: self.pos as int }
    }
}

impl<'a> Decoder<'a> {
    pub fn new(inp: &'a [u8]) -> (d: Self)
        ensures
            d@ == dec_init(inp@),
            dec_wf(d@),
    {
        let mut d = Decoder { x1: 0, x2: 0xFFFF_FFFF, x: 0, inp, pos: 0 };
        let mut k: usize = 0;
        proof {
            assert(win(inp@, -4) == 0) by {
                assert(bytes_to_u32(0u8, 0u8, 0u8, 0u8) == 0) by (bit_vector);
            }
        }
        while k < 4
            invariant
                k <= 4,
                d.inp@ == inp@,
                d.x1 == 0,
                d.x2 == 0xffff_ffff,
                d.pos == min_int(k as int, inp@.len() as int),
                d.x == win(inp@, k as int - 4),
            decreases 4 - k,
        {
            proof {
                lemma_win_next(inp@, k as int - 4);
                assert(byte_at(inp@, d.pos as int) == byte_at(inp@, k as int));
            }
            d.x = (d.x << 8) | d.next() as u32;
            k += 1;
        }
        proof {
            lemma_initial_interval();
        }
        d
    }

    /// Next stream byte, zero past the end.
    pub fn next(&mut self) -> (b: u8)
        requires
            old(self).pos <= old(self).inp@.len(),
        ensures
            b == byte_at(old(self).inp@, old(self).pos as int),
            final(self).pos == min_int(old(self).pos + 1, old(self).inp@.len() as int),
            final(self).inp == old(self).inp,
            final(self).x1 == old(self).x1,
            final(self).x2 == old(self).x2,
            final(self).x == old(self).x,
    {
        if self.pos >= self.inp.len() {
            return 0;
        }
        let b = self.inp[self.pos];
        self.pos += 1;
        b
    }

    /// Decode one bit with P(bit = 1) = `p` / 4096.
    pub fn decode(&mut self, p: u32) -> (bit: u32)
        requires
            dec_wf(old(self)@),
            p <= 4095,
        ensures
            (bit, final(self)@) == dec_step(old(self)@, p),
            dec_wf(final(self)@),
            bit <= 1,
    {
        proof {
            lemma_xmid_bounds(self.x1, self.x2, p);
        }
        let range = self.x2 - self.x1;
        let xmid = self.x1 + (range >> 12) * p;
        let bit = if self.x <= xmid { 1 } else { 0 };
        if bit == 1 {
            self.x2 = xmid;
        } else {
            self.x1 = xmid + 1;
        }
        let ghost n = self@;
        while (self.x1 ^ self.x2) & 0xFF00_0000 == 0
            invariant
                self.x1 <= self.x2,
                self.pos <= self.inp@.len(),
                self.inp@ == n.inp,
                dec_renorm(self@) == dec_renorm(n),
            decreases shared_bytes(self.x1, self.x2),
        {
            proof {
                lemma_same_top_xor(self.x1, self.x2);
                lemma_shared_decreases(self.x1, self.x2);
                lemma_shift_keeps_order(self.x1, self.x2);
            }
            self.x1 = self.x1 << 8;
            self.x2 = (self.x2 << 8) | 0xFF;
            self.x = (self.x << 8) | self.next() as u32;
        }
        proof {
            lemma_same_top_xor(self.x1, self.x2);
        }
        bit
    }
}

} // verus!
