//! The epoch predictor: for each context of the last `order` glyphs it
//! counts which glyph followed and predicts the most frequent (ties to the
//! smaller glyph).  Encoding replaces each glyph by its XOR with the
//! prediction; decoding undoes it with an identically trained predictor.
//! Each epoch ends by folding the epoch's packed glyphs and the number of
//! counted (context, glyph) pairs into a running commitment.
use vstd::prelude::*;
use std::collections::HashMap;
use crate::bitpack::{fit_all, pack, pack_spec};
use crate::sha::{sha256, spec_sha256};
use crate::wire::{append_bytes, push_u32_le, push_u64_le, u32_le, u64_le};
use vstd::arithmetic::power2::pow2;

verus! {

broadcast use vstd::std_specs::hash::group_hash_axioms;

/// "PAIS-PREDICTOR-STATE-V2|"
pub const PREDICTOR_TAG: [u8; 24] = [
    0x50, 0x41, 0x49, 0x53, 0x2d, 0x50, 0x52, 0x45, 0x44, 0x49, 0x43, 0x54, 0x4f, 0x52, 0x2d, 0x53,
    0x54, 0x41, 0x54, 0x45, 0x2d, 0x56, 0x32, 0x7c,
];

/// The best glyph seen after a context: total count, glyph, its count.
#[derive(Clone, Copy, Debug, PartialEq, Eq, Structural)]
pub struct BS {
    pub total: u32,
    pub bsym: u16,
    pub bcnt: u32,
}

pub struct PM {
    pub bits: u32,
    pub order: u8,
    pub dir: u8,
    /// Count of each (context key, glyph), keyed by `key * 65536 + glyph`.
    pub counts: HashMap<u128, u32>,
    pub best: HashMap<u64, BS>,
    pub commit: [u8; 32],
    pub ep: u32,
}

pub struct PMState {
    pub bits: u32,
    pub order: u8,
    pub dir: u8,
    pub counts: Map<u128, u32>,
    pub best: Map<u64, BS>,
    pub commit: Seq<u8>,
    pub ep: u32,
}

impl View for PM {
    type V = PMState;

    open spec fn view(&self) -> PMState {
        PMState {
            bits: self.bits,
            order: self.order,
            dir: self.dir,
            counts: self.counts@,
            best: self.best@,
            commit: self.commit@,
            ep: self.ep,
        }
    }
}

pub open spec fn pm_wf(s: PMState) -> bool {
    &&& 1 <= s.bits <= 16
    &&& (s.order as u32) * s.bits < 64
    &&& forall|k: u64| #[trigger] s.best.contains_key(k) ==> (s.best[k].bsym as nat) < pow2(s.bits as nat)
}

pub open spec fn pm_init(bits: u32, order: u8, dir: u8) -> PMState {
    PMState {
        bits,
        order,
        dir,
        counts: Map::empty(),
        best: Map::empty(),
        commit: spec_sha256(PREDICTOR_TAG@ + seq![bits as u8, order, dir]),
        ep: 0,
    }
}

/// The counts key of `sym` after the context key `k`.
pub open spec fn ckey(k: u64, sym: u16) -> u128 {
    ((k as u128) * 65536 + (sym as u128)) as u128
}

pub open spec fn mask_spec(s: PMState) -> u64 {
    ((1u64 << ((s.order as u32) * s.bits)) - 1) as u64
}

pub open spec fn key_spec(s: PMState, ctx: u64, seen: int) -> u64 {
    let n: u64 = if seen < s.order {
        seen as u64
    } else {
        s.order as u64
    };
    ctx | (n << 50u64) | ((s.order as u64) << 56u64)
}

pub open spec fn pred_spec(s: PMState, k: u64) -> (u16, u32, u32) {
    if s.best.contains_key(k) {
        (s.best[k].bsym, s.best[k].bcnt, s.best[k].total)
    } else {
        (0, 0, 0)
    }
}

pub open spec fn upd_spec(s: PMState, k: u64, sym: u16) -> PMState {
    let ck = ckey(k, sym);
    let nc: u32 = if s.counts.contains_key(ck) {
        s.counts[ck].wrapping_add(1)
    } else {
        1
    };
    let b0 = if s.best.contains_key(k) {
        s.best[k]
    } else {
        BS { total: 0, bsym: 0, bcnt: 0 }
    };
    let t: u32 = if b0.total == u32::MAX {
        u32::MAX
    } else {
        (b0.total + 1) as u32
    };
    let b1 = if nc > b0.bcnt || (nc == b0.bcnt && sym < b0.bsym) {
        BS { total: t, bsym: sym, bcnt: nc }
    } else {
        BS { total: t, ..b0 }
    };
    PMState { counts: s.counts.insert(ck, nc), best: s.best.insert(k, b1), ..s }
}

pub open spec fn next_ctx(s: PMState, ctx: u64, sym: u16) -> u64 {
    ((ctx << (s.bits as u64)) | (sym as u64)) & mask_spec(s)
}

/// How often `sym` was counted after the context key `k`.
pub open spec fn count_of(s: PMState, k: u64, sym: u16) -> u32 {
    if s.counts.contains_key(ckey(k, sym)) {
        s.counts[ckey(k, sym)]
    } else {
        0
    }
}

/// Every key's best glyph is its most counted glyph, the smallest such on
/// ties, and a key without a best glyph has counted nothing.
pub open spec fn best_ok(s: PMState) -> bool {
    forall|k: u64|
        #![trigger s.best.contains_key(k)]
        if s.best.contains_key(k) {
            &&& count_of(s, k, s.best[k].bsym) == s.best[k].bcnt
            &&& forall|x: u16| #[trigger] count_of(s, k, x) <= s.best[k].bcnt
            &&& forall|x: u16| x < s.best[k].bsym ==> #[trigger] count_of(s, k, x) < s.best[k].bcnt
        } else {
            forall|x: u16| #[trigger] count_of(s, k, x) == 0
        }
}

proof fn lemma_ckey_injective(k1: u64, s1: u16, k2: u64, s2: u16)
    requires
        ckey(k1, s1) == ckey(k2, s2),
    ensures
        k1 == k2 && s1 == s2,
{
}

/// A fresh predictor's best glyphs are right: it has counted nothing.
pub proof fn lemma_init_best_ok(bits: u32, order: u8, dir: u8)
    ensures
        best_ok(pm_init(bits, order, dir)),
{
}

/// Counting `sym` after `k` adds one to its count, counts the key's total
/// (saturating), and keeps every key's best glyph its most counted glyph,
/// ties to the smaller, as long as the count does not wrap.
pub proof fn lemma_upd_best_ok(s: PMState, k: u64, sym: u16)
    requires
        best_ok(s),
        count_of(s, k, sym) < u32::MAX,
    ensures
        best_ok(upd_spec(s, k, sym)),
        count_of(upd_spec(s, k, sym), k, sym) == count_of(s, k, sym) + 1,
        forall|k2: u64, x: u16|
            (k2 != k || x != sym) ==> #[trigger] count_of(upd_spec(s, k, sym), k2, x) == count_of(
                s,
                k2,
                x,
            ),
        upd_spec(s, k, sym).best[k].total == (if s.best.contains_key(k) {
            if s.best[k].total == u32::MAX {
                u32::MAX as int
            } else {
                s.best[k].total + 1
            }
        } else {
            1
        }),
{
    let t = upd_spec(s, k, sym);
    assert forall|k2: u64, x: u16| (k2 != k || x != sym) implies #[trigger] count_of(t, k2, x)
        == count_of(s, k2, x) by {
        if ckey(k2, x) == ckey(k, sym) {
            lemma_ckey_injective(k2, x, k, sym);
        }
    }
    assert(count_of(t, k, sym) == count_of(s, k, sym) + 1);
    assert forall|k2: u64| #[trigger] t.best.contains_key(k2) implies {
        &&& count_of(t, k2, t.best[k2].bsym) == t.best[k2].bcnt
        &&& forall|x: u16| #[trigger] count_of(t, k2, x) <= t.best[k2].bcnt
        &&& forall|x: u16| x < t.best[k2].bsym ==> #[trigger] count_of(t, k2, x) < t.best[k2].bcnt
    } by {
        if k2 != k {
            assert(s.best.contains_key(k2));
            assert forall|x: u16| #[trigger] count_of(t, k2, x) <= t.best[k2].bcnt by {
                assert(count_of(t, k2, x) == count_of(s, k2, x));
            }
            assert forall|x: u16| x < t.best[k2].bsym implies #[trigger] count_of(t, k2, x)
                < t.best[k2].bcnt by {
                assert(count_of(t, k2, x) == count_of(s, k2, x));
            }
            assert(count_of(t, k2, t.best[k2].bsym) == count_of(s, k2, s.best[k2].bsym));
        } else {
            assert forall|x: u16| #[trigger] count_of(t, k, x) <= t.best[k].bcnt by {
                if x != sym {
                    assert(count_of(t, k, x) == count_of(s, k, x));
                }
            }
            assert forall|x: u16| x < t.best[k].bsym implies #[trigger] count_of(t, k, x)
                < t.best[k].bcnt by {
                if x != sym {
                    assert(count_of(t, k, x) == count_of(s, k, x));
                }
            }
            if t.best[k].bsym != sym {
                assert(count_of(t, k, t.best[k].bsym) == count_of(s, k, t.best[k].bsym));
            }
        }
    }
    assert forall|k2: u64| !#[trigger] t.best.contains_key(k2) implies forall|x: u16|
        #[trigger] count_of(t, k2, x) == 0 by {
        assert(k2 != k);
        assert(!s.best.contains_key(k2));
        assert forall|x: u16| #[trigger] count_of(t, k2, x) == 0 by {
            assert(count_of(t, k2, x) == count_of(s, k2, x));
        }
    }
}

/// Encoding the first `i` glyphs: predictor, context, residuals.
pub open spec fn enc_prefix(s0: PMState, seq: Seq<u16>, i: nat) -> (PMState, u64, Seq<u16>)
    decreases i,
{
    if i == 0 {
        (s0, 0u64, Seq::empty())
    } else {
        let (s, c, r) = enc_prefix(s0, seq, (i - 1) as nat);
        let k = key_spec(s, c, i - 1);
        let sym = seq[i - 1];
        let p = pred_spec(s, k).0;
        (upd_spec(s, k, sym), next_ctx(s, c, sym), r.push(sym ^ p))
    }
}

/// The last `n` glyphs before position `i` as one number, the newest in
/// the low `bits` bits: the sum of `seq[i-j] * 2^(bits*(j-1))`, `j` in
/// `1..=n`.
pub open spec fn window(seq: Seq<u16>, i: int, n: nat, bits: nat) -> nat
    decreases n,
{
    if n == 0 {
        0
    } else {
        seq[i - 1] as nat + pow2(bits) * window(seq, i - 1, (n - 1) as nat, bits)
    }
}

pub open spec fn min_nat(a: nat, b: nat) -> nat {
    if a <= b {
        a
    } else {
        b
    }
}

proof fn lemma_window_bound(seq: Seq<u16>, i: int, n: nat, bits: nat)
    requires
        n <= i <= seq.len(),
        fit_all(seq, bits),
    ensures
        window(seq, i, n, bits) < pow2(bits * n),
    decreases n,
{
    if n == 0 {
        vstd::arithmetic::power2::lemma_pow2_pos(0);
        assert(bits * 0 == 0);
    } else {
        lemma_window_bound(seq, i - 1, (n - 1) as nat, bits);
        let w = window(seq, i - 1, (n - 1) as nat, bits);
        let p = pow2(bits);
        let q = pow2((bits * (n - 1)) as nat);
        assert(bits * n == bits + bits * (n - 1)) by (nonlinear_arith)
            requires
                n >= 1,
        ;
        vstd::arithmetic::power2::lemma_pow2_adds(bits, (bits * (n - 1)) as nat);
        assert((seq[i - 1] as nat) < p);
        assert(seq[i - 1] as nat + p * w < p * q) by (nonlinear_arith)
            requires
                (seq[i - 1] as nat) < p,
                w < q,
                w >= 0,
        ;
    }
}

/// The oldest glyph of a window sits on top of the younger ones.
proof fn lemma_window_top(seq: Seq<u16>, i: int, n: nat, bits: nat)
    requires
        n >= 1,
    ensures
        window(seq, i, n, bits) == window(seq, i, (n - 1) as nat, bits) + pow2(
            (bits * (n - 1)) as nat,
        ) * (seq[i - n] as nat),
    decreases n,
{
    let p = pow2(bits);
    if n == 1 {
        assert(bits * 0 == 0);
        assert(pow2(0) == 1) by {
            vstd::arithmetic::power2::lemma2_to64();
        }
        assert(window(seq, i - 1, 0, bits) == 0);
        assert(window(seq, i, 1, bits) == seq[i - 1] as nat + p * 0);
        assert(window(seq, i, 0, bits) == 0);
    } else {
        lemma_window_top(seq, i - 1, (n - 1) as nat, bits);
        let a = window(seq, i - 1, (n - 2) as nat, bits);
        let t = seq[i - n] as nat;
        let q = pow2((bits * (n - 2)) as nat);
        assert((i - 1) - (n - 1) == i - n);
        assert(window(seq, i - 1, (n - 1) as nat, bits) == a + q * t);
        assert(window(seq, i, n, bits) == seq[i - 1] as nat + p * window(
            seq,
            i - 1,
            (n - 1) as nat,
            bits,
        ));
        assert(window(seq, i, (n - 1) as nat, bits) == seq[i - 1] as nat + p * a);
        vstd::arithmetic::power2::lemma_pow2_adds(bits, (bits * (n - 2)) as nat);
        assert(bits + bits * (n - 2) == bits * (n - 1)) by (nonlinear_arith)
            requires
                n >= 2,
        ;
        assert(p * (a + q * t) == p * a + (p * q) * t) by (nonlinear_arith);
    }
}

/// After the first `i` glyphs, the encoder's context is the window of the
/// last `min(i, order)` glyphs.
proof fn lemma_enc_ctx(s0: PMState, seq: Seq<u16>, i: nat)
    requires
        pm_wf(s0),
        fit_all(seq, s0.bits as nat),
        i <= seq.len(),
    ensures
        enc_prefix(s0, seq, i).1 as nat == window(
            seq,
            i as int,
            min_nat(i, s0.order as nat),
            s0.bits as nat,
        ),
    decreases i,
{
    if i > 0 {
        lemma_enc_ctx(s0, seq, (i - 1) as nat);
        lemma_enc_prefix(s0, seq, (i - 1) as nat);
        let (s, c, r) = enc_prefix(s0, seq, (i - 1) as nat);
        let sym = seq[i - 1];
        let b = s0.bits as nat;
        let o = s0.order as nat;
        let k = min_nat((i - 1) as nat, o);
        let m = ((s0.order as u32) * s0.bits) as u64;
        assert(m == o * b);
        crate::glyph::lemma_pow2_shift(s0.bits);
        assert((sym as u64) < (1u64 << (s0.bits as u64))) by {
            assert((sym as nat) < pow2(b));
            vstd::bits::lemma_u64_shl_is_mul(1u64, s0.bits as u64);
            vstd::bits::lemma_u64_pow2_no_overflow(b);
        }
        crate::bitfacts::lemma_shift_in(c, sym as u64, s0.bits as u64, m);
        assert(mask_spec(s) == ((1u64 << m) - 1) as u64);
        let nc = next_ctx(s, c, sym);
        assert(enc_prefix(s0, seq, i).1 == nc);
        if o == 0 {
            assert(o * b == 0) by (nonlinear_arith)
                requires
                    o == 0,
            ;
            assert(m == 0);
            assert(((c << (s0.bits as u64)) | (sym as u64)) & (((1u64 << m) - 1) as u64) == 0);
            assert(nc == ((c << (s0.bits as u64)) | (sym as u64)) & (((1u64 << m) - 1) as u64));
            assert(nc == 0);
        } else {
            assert(m as nat >= b) by (nonlinear_arith)
                requires
                    m == o * b,
                    o >= 1,
            ;
            let e: u64 = (m - (s0.bits as u64)) as u64;
            assert(e == b * (o - 1)) by (nonlinear_arith)
                requires
                    e == m - b,
                    m == o * b,
                    o >= 1,
            ;
            vstd::bits::lemma_u64_pow2_no_overflow(e as nat);
            vstd::bits::lemma_u64_shl_is_mul(1u64, e);
            vstd::bits::lemma_u64_low_bits_mask_is_mod(c, e as nat);
            let lowc = c & (((1u64 << e) - 1) as u64);
            assert(lowc == c % (pow2(e as nat) as u64));
            assert(lowc < pow2(e as nat));
            vstd::arithmetic::power2::lemma_pow2_adds(e as nat, b);
            assert(e + b == m as nat);
            vstd::bits::lemma_u64_pow2_no_overflow(m as nat);
            assert(lowc * pow2(b) < pow2(m as nat)) by (nonlinear_arith)
                requires
                    lowc < pow2(e as nat),
                    pow2(m as nat) == pow2(e as nat) * pow2(b),
                    pow2(b) > 0,
            ;
            vstd::bits::lemma_u64_shl_is_mul(lowc, s0.bits as u64);
            assert(nc as nat == (c as nat % pow2(e as nat)) * pow2(b) + sym as nat);
            lemma_window_bound(seq, (i - 1) as int, k, b);
            if k < o {
                assert(b * k <= e) by (nonlinear_arith)
                    requires
                        k < o,
                        e == b * (o - 1),
                ;
                if b * k < e {
                    vstd::arithmetic::power2::lemma_pow2_strictly_increases(b * k, e as nat);
                }
                vstd::arithmetic::div_mod::lemma_small_mod(c as nat, pow2(e as nat));
                assert(min_nat(i, o) == k + 1);
                assert(window(seq, i as int, k + 1, b) == sym as nat + pow2(b) * window(
                    seq,
                    (i - 1) as int,
                    k,
                    b,
                ));
                assert(nc as nat == sym as nat + pow2(b) * (c as nat)) by (nonlinear_arith)
                    requires
                        nc as nat == (c as nat % pow2(e as nat)) * pow2(b) + sym as nat,
                        c as nat % pow2(e as nat) == c as nat,
                ;
            } else {
                lemma_window_top(seq, (i - 1) as int, o, b);
                let lo = window(seq, (i - 1) as int, (o - 1) as nat, b);
                lemma_window_bound(seq, (i - 1) as int, (o - 1) as nat, b);
                assert(b * (o - 1) == e);
                let t = seq[(i - 1) - o] as nat;
                assert(k == o);
                assert(c as nat == lo + pow2(e as nat) * t);
                assert(c as int == t * pow2(e as nat) + lo) by (nonlinear_arith)
                    requires
                        c as nat == lo + pow2(e as nat) * t,
                ;
                vstd::arithmetic::div_mod::lemma_fundamental_div_mod_converse(
                    c as int,
                    pow2(e as nat) as int,
                    seq[(i - 1) - o] as int,
                    lo as int,
                );
                assert(min_nat(i, o) == o);
                assert(c as nat % pow2(e as nat) == lo);
                assert(window(seq, i as int, o, b) == sym as nat + pow2(b) * window(
                    seq,
                    (i - 1) as int,
                    (o - 1) as nat,
                    b,
                ));
                assert(nc as nat == sym as nat + pow2(b) * lo) by (nonlinear_arith)
                    requires
                        nc as nat == (c as nat % pow2(e as nat)) * pow2(b) + sym as nat,
                        c as nat % pow2(e as nat) == lo,
                ;
            }
        }
    }
}

/// The residual of glyph `i` is the glyph XOR the best glyph recorded for the
/// key built from the last `min(i, order)` glyphs of the input, with the
/// predictor as it stood after the first `i` glyphs.
pub proof fn lemma_residual_law(s0: PMState, seq: Seq<u16>, i: nat)
    requires
        pm_wf(s0),
        fit_all(seq, s0.bits as nat),
        i < seq.len(),
    ensures
        ({
            let n = min_nat(i, s0.order as nat);
            let key = (window(seq, i as int, n, s0.bits as nat) as u64) | ((n as u64) << 50u64) | ((
            s0.order as u64) << 56u64);
            pm_enc(s0, seq).0[i as int] == seq[i as int] ^ pred_spec(enc_prefix(s0, seq, i).0, key).0
        }),
{
    lemma_enc_ctx(s0, seq, i);
    lemma_enc_prefix(s0, seq, i);
    lemma_enc_prefix_stable(s0, seq, i + 1, seq.len());
    lemma_enc_prefix_stable(s0, seq, i, i);
    let (s, c, r) = enc_prefix(s0, seq, i);
    let n = min_nat(i, s0.order as nat);
    assert(key_spec(s, c, i as int) == (window(seq, i as int, n, s0.bits as nat) as u64) | ((
    n as u64) << 50u64) | ((s0.order as u64) << 56u64));
}

/// Decoding the first `i` residuals: predictor, context, glyphs.
pub open spec fn dec_prefix(s0: PMState, res: Seq<u16>, i: nat) -> (PMState, u64, Seq<u16>)
    decreases i,
{
    if i == 0 {
        (s0, 0u64, Seq::empty())
    } else {
        let (s, c, y) = dec_prefix(s0, res, (i - 1) as nat);
        let k = key_spec(s, c, i - 1);
        let sym = res[i - 1] ^ pred_spec(s, k).0;
        (upd_spec(s, k, sym), next_ctx(s, c, sym), y.push(sym))
    }
}

/// The epoch's end: fold the packed glyphs and the number of counted pairs
/// into the commitment.
pub open spec fn fin_spec(s: PMState, seq: Seq<u16>) -> PMState {
    let b = s.commit + spec_sha256(pack_spec(seq, s.bits)) + u32_le((s.ep + 1) as u32) + u64_le(
        s.counts.dom().len() as u64,
    );
    PMState { commit: spec_sha256(b), ep: (s.ep + 1) as u32, ..s }
}

pub open spec fn pm_enc(s: PMState, seq: Seq<u16>) -> (Seq<u16>, PMState) {
    let r = enc_prefix(s, seq, seq.len());
    (r.2, fin_spec(r.0, seq))
}

pub open spec fn pm_dec(s: PMState, res: Seq<u16>) -> (Seq<u16>, PMState) {
    let r = dec_prefix(s, res, res.len());
    (r.2, fin_spec(r.0, r.2))
}

proof fn lemma_upd_wf(s: PMState, k: u64, sym: u16)
    requires
        pm_wf(s),
        (sym as nat) < pow2(s.bits as nat),
    ensures
        pm_wf(upd_spec(s, k, sym)),
{
}

proof fn lemma_enc_prefix(s0: PMState, seq: Seq<u16>, i: nat)
    requires
        pm_wf(s0),
        i <= seq.len(),
        fit_all(seq, s0.bits as nat),
    ensures
        pm_wf(enc_prefix(s0, seq, i).0),
        enc_prefix(s0, seq, i).0.bits == s0.bits,
        enc_prefix(s0, seq, i).0.order == s0.order,
        enc_prefix(s0, seq, i).0.ep == s0.ep,
        enc_prefix(s0, seq, i).2.len() == i,
        fit_all(enc_prefix(s0, seq, i).2, s0.bits as nat),
    decreases i,
{
    if i > 0 {
        lemma_enc_prefix(s0, seq, (i - 1) as nat);
        let (s, c, r) = enc_prefix(s0, seq, (i - 1) as nat);
        let k = key_spec(s, c, i - 1);
        lemma_upd_wf(s, k, seq[i - 1]);
        let p = pred_spec(s, k).0;
        crate::glyph::lemma_pow2_shift(s0.bits);
        assert((p as nat) < pow2(s0.bits as nat));
        assert((seq[i - 1] as nat) < pow2(s0.bits as nat));
        crate::bitfacts::lemma_xor_fits(seq[i - 1], p, s0.bits);
        let r2 = enc_prefix(s0, seq, i).2;
        assert forall|j: int| 0 <= j < r2.len() implies (#[trigger] r2[j] as nat) < pow2(
            s0.bits as nat,
        ) by {
            if j < r.len() {
                assert(r2[j] == r[j]);
            }
        }
    }
}

/// One epoch keeps the predictor well formed, keeps its width and order,
/// counts the epoch, and gives one residual of the same width per glyph.
pub proof fn lemma_pm_enc_shape(s: PMState, seq: Seq<u16>)
    requires
        pm_wf(s),
        fit_all(seq, s.bits as nat),
        s.ep < u32::MAX,
    ensures
        pm_wf(pm_enc(s, seq).1),
        pm_enc(s, seq).1.bits == s.bits,
        pm_enc(s, seq).1.order == s.order,
        pm_enc(s, seq).1.ep == s.ep + 1,
        pm_enc(s, seq).0.len() == seq.len(),
        fit_all(pm_enc(s, seq).0, s.bits as nat),
{
    lemma_enc_prefix(s, seq, seq.len());
}

/// Residuals already written stay as they are.
proof fn lemma_enc_prefix_stable(s0: PMState, seq: Seq<u16>, i: nat, n: nat)
    requires
        i <= n,
    ensures
        enc_prefix(s0, seq, n).2.len() == n,
        forall|j: int| 0 <= j < i ==> #[trigger] enc_prefix(s0, seq, n).2[j] == enc_prefix(s0, seq, i).2[j],
    decreases n,
{
    if n > 0 {
        let i2: nat = if i < n {
            i
        } else {
            (n - 1) as nat
        };
        lemma_enc_prefix_stable(s0, seq, i2, (n - 1) as nat);
    }
}

/// Decoding the first `i` residuals retraces the encoder.
proof fn lemma_dec_tracks_enc(s0: PMState, seq: Seq<u16>, i: nat)
    requires
        i <= seq.len(),
    ensures
        dec_prefix(s0, enc_prefix(s0, seq, seq.len()).2, i) == (
            enc_prefix(s0, seq, i).0,
            enc_prefix(s0, seq, i).1,
            seq.take(i as int),
        ),
    decreases i,
{
    let r = enc_prefix(s0, seq, seq.len()).2;
    if i == 0 {
        assert(seq.take(0) =~= Seq::<u16>::empty());
    } else {
        lemma_dec_tracks_enc(s0, seq, (i - 1) as nat);
        lemma_enc_prefix_stable(s0, seq, i, seq.len());
        let (s, c, rr) = enc_prefix(s0, seq, (i - 1) as nat);
        let k = key_spec(s, c, i - 1);
        let p = pred_spec(s, k).0;
        lemma_enc_prefix_stable(s0, seq, (i - 1) as nat, (i - 1) as nat);
        assert(enc_prefix(s0, seq, i).2[i - 1] == seq[i - 1] ^ p);
        assert(r[i - 1] == seq[i - 1] ^ p);
        crate::bitfacts::lemma_xor_twice(seq[i - 1], p);
        assert(seq.take(i - 1).push(seq[i - 1]) =~= seq.take(i as int));
    }
}

/// Decoding the residuals with a predictor in the encoder's starting state
/// gives the glyphs back and ends in the encoder's final state, commitment
/// included.
pub proof fn lemma_pm_roundtrip(s: PMState, seq: Seq<u16>)
    ensures
        pm_dec(s, pm_enc(s, seq).0) == (seq, pm_enc(s, seq).1),
{
    lemma_dec_tracks_enc(s, seq, seq.len());
    lemma_enc_prefix_stable(s, seq, 0, seq.len());
    assert(seq.take(seq.len() as int) =~= seq);
}

impl PM {
    pub fn new(bits: u32, order: u8, dir: u8) -> (p: Self)
        ensures
            p@ == pm_init(bits, order, dir),
    {
        let mut dm: Vec<u8> = Vec::new();
        append_bytes(&mut dm, &PREDICTOR_TAG);
        dm.push(bits as u8);
        dm.push(order);
        dm.push(dir);
        assert(dm@ =~= PREDICTOR_TAG@ + seq![bits as u8, order, dir]);
        PM {
            bits,
            order,
            dir,
            counts: HashMap::new(),
            best: HashMap::new(),
            commit: sha256(dm.as_slice()),
            ep: 0,
        }
    }

    /// Mask of `order` glyphs of context.
    pub fn mask(&self) -> (m: u64)
        requires
            pm_wf(self@),
        ensures
            m == mask_spec(self@),
    {
        proof {
            crate::bitfacts::lemma_one_shl(((self.order as u32) * self.bits) as u32);
        }
        (1u64 << (self.order as u32 * self.bits)) - 1
    }

    /// Context key of `ctx` after `seen` glyphs.
    pub fn key(&self, ctx: u64, seen: usize) -> (k: u64)
        ensures
            k == key_spec(self@, ctx, seen as int),
    {
        let n: u64 = if seen < self.order as usize {
            seen as u64
        } else {
            self.order as u64
        };
        ctx | (n << 50) | ((self.order as u64) << 56)
    }

    /// Best glyph, its count and the total count after key `k`.
    pub fn pred(&self, k: u64) -> (r: (u16, u32, u32))
        ensures
            r == pred_spec(self@, k),
    {
        match self.best.get(&k) {
            Some(s) => (s.bsym, s.bcnt, s.total),
            None => (0, 0, 0),
        }
    }

    /// Count `sym` after key `k`.
    pub fn upd(&mut self, k: u64, sym: u16)
        ensures
            final(self)@ == upd_spec(old(self)@, k, sym),
    {
        let ck = (k as u128) * 65536 + (sym as u128);
        let nc: u32 = match self.counts.get(&ck) {
            Some(c) => c.wrapping_add(1),
            None => 1,
        };
        self.counts.insert(ck, nc);
        let b0: BS = match self.best.get(&k) {
            Some(s) => *s,
            None => BS { total: 0, bsym: 0, bcnt: 0 },
        };
        let t = b0.total.saturating_add(1);
        let b1 = if nc > b0.bcnt || (nc == b0.bcnt && sym < b0.bsym) {
            BS { total: t, bsym: sym, bcnt: nc }
        } else {
            BS { total: t, bsym: b0.bsym, bcnt: b0.bcnt }
        };
        self.best.insert(k, b1);
    }

    /// End the epoch over the glyphs `seq`.
    pub fn fin(&mut self, seq: &[u16])
        requires
            pm_wf(old(self)@),
            fit_all(seq@, old(self)@.bits as nat),
            old(self)@.ep < u32::MAX,
        ensures
            final(self)@ == fin_spec(old(self)@, seq@),
    {
        let pk = pack(seq, self.bits);
        let mut b: Vec<u8> = Vec::new();
        append_bytes(&mut b, &self.commit);
        append_bytes(&mut b, &sha256(pk.as_slice()));
        push_u32_le(&mut b, self.ep + 1);
        push_u64_le(&mut b, self.counts.len() as u64);
        self.commit = sha256(b.as_slice());
        self.ep = self.ep + 1;
    }

    /// Residuals of `seq` against the predictions, learning as it goes,
    /// then the epoch's end.
    pub fn enc(&mut self, seq: &[u16]) -> (r: Vec<u16>)
        requires
            pm_wf(old(self)@),
            fit_all(seq@, old(self)@.bits as nat),
            old(self)@.ep < u32::MAX,
        ensures
            (r@, final(self)@) == pm_enc(old(self)@, seq@),
            pm_wf(final(self)@),
    {
        let ghost s0 = self@;
        let mut r: Vec<u16> = Vec::new();
        let mut ctx: u64 = 0;
        let m = self.mask();
        let mut i: usize = 0;
        while i < seq.len()
            invariant
                i <= seq@.len(),
                pm_wf(s0),
                fit_all(seq@, s0.bits as nat),
                m == mask_spec(s0),
                s0.ep < u32::MAX,
                (self@, ctx, r@) == enc_prefix(s0, seq@, i as nat),
            decreases seq@.len() - i,
        {
            proof {
                lemma_enc_prefix(s0, seq@, i as nat);
            }
            let sym = seq[i];
            let k = self.key(ctx, i);
            let (p, _, _) = self.pred(k);
            r.push(sym ^ p);
            self.upd(k, sym);
            ctx = ((ctx << self.bits) | (sym as u64)) & m;
            i += 1;
        }
        proof {
            lemma_enc_prefix(s0, seq@, seq@.len());
        }
        self.fin(seq);
        r
    }

    /// Glyphs from the residuals `res`, learning as it goes, then the
    /// epoch's end.
    pub fn dec(&mut self, res: &[u16]) -> (seq: Vec<u16>)
        requires
            pm_wf(old(self)@),
            fit_all(res@, old(self)@.bits as nat),
            old(self)@.ep < u32::MAX,
        ensures
            (seq@, final(self)@) == pm_dec(old(self)@, res@),
            pm_wf(final(self)@),
    {
        let ghost s0 = self@;
        let mut seq: Vec<u16> = Vec::new();
        let mut ctx: u64 = 0;
        let m = self.mask();
        let mut i: usize = 0;
        while i < res.len()
            invariant
                i <= res@.len(),
                pm_wf(s0),
                fit_all(res@, s0.bits as nat),
                m == mask_spec(s0),
                s0.ep < u32::MAX,
                (self@, ctx, seq@) == dec_prefix(s0, res@, i as nat),
                pm_wf(self@),
                self@.bits == s0.bits,
                self@.order == s0.order,
                self@.ep == s0.ep,
                fit_all(seq@, s0.bits as nat),
            decreases res@.len() - i,
        {
            let k = self.key(ctx, i);
            let (p, _, _) = self.pred(k);
            let sym = res[i] ^ p;
            proof {
                crate::glyph::lemma_pow2_shift(s0.bits);
                let pv = pred_spec(self@, k).0;
                assert((pv as nat) < pow2(s0.bits as nat));
                assert((res@[i as int] as nat) < pow2(s0.bits as nat));
                crate::bitfacts::lemma_xor_fits(res@[i as int], pv, s0.bits);
                lemma_upd_wf(self@, k, sym);
            }
            self.upd(k, sym);
            seq.push(sym);
            ctx = ((ctx << self.bits) | (sym as u64)) & m;
            i += 1;
        }
        self.fin(seq.as_slice());
        seq
    }
}

} // verus!
