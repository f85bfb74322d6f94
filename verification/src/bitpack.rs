//! Re-grouping bit strings: bytes into `bits`-wide symbols and back, and
//! symbols packed into bytes and back.  All four directions are one
//! accumulator algorithm; the spec is the bit string, most significant bit
//! first, cut into groups (the last group zero-padded where a function pads).
use vstd::prelude::*;
use vstd::arithmetic::power2::{
    pow2, lemma_pow2_adds, lemma_pow2_pos, lemma_pow2_unfold, lemma_pow2_strictly_increases,
};
use vstd::arithmetic::div_mod::{lemma_fundamental_div_mod_converse, lemma_div_denominator};
use vstd::bits::{
    lemma_u32_shl_is_mul, lemma_u32_shr_is_div, lemma_u32_low_bits_mask_is_mod,
    lemma_u32_pow2_no_overflow, low_bits_mask,
};

verus! {

/// Bit `j` of `b`, false past the end.
pub open spec fn xb(b: Seq<bool>, j: int) -> bool {
    0 <= j < b.len() && b[j]
}

/// Value of the `n` bits of `b` from `s` on (most significant first).
pub open spec fn val(b: Seq<bool>, s: int, n: nat) -> nat
    decreases n,
{
    if n == 0 {
        0
    } else {
        2 * val(b, s, (n - 1) as nat) + (if xb(b, s + n - 1) {
            1nat
        } else {
            0nat
        })
    }
}

/// The bit string of `w`-bit symbols, each most significant bit first.
pub open spec fn bitstr(xs: Seq<u16>, w: nat) -> Seq<bool> {
    Seq::new(xs.len() * w, |j: int| (xs[j / (w as int)] as nat / pow2((w - 1 - j % (w as int)) as nat)) % 2 == 1)
}

pub open spec fn widen(b: Seq<u8>) -> Seq<u16> {
    Seq::new(b.len(), |i: int| b[i] as u16)
}

pub open spec fn narrow(v: Seq<u16>) -> Seq<u8> {
    Seq::new(v.len(), |i: int| v[i] as u8)
}

/// The bits of a byte string.
pub open spec fn bitstr8(b: Seq<u8>) -> Seq<bool> {
    bitstr(widen(b), 8)
}

/// Every complete `w`-bit group of `b`.
pub open spec fn groups(b: Seq<bool>, w: nat) -> Seq<u16> {
    Seq::new(b.len() / w, |k: int| val(b, k * w, w) as u16)
}

/// Every `w`-bit group of `b`, the last one zero-padded.
pub open spec fn groups_padded(b: Seq<bool>, w: nat) -> Seq<u16> {
    Seq::new(((b.len() + w - 1) as nat) / w, |k: int| val(b, k * w, w) as u16)
}

pub open spec fn fit_all(xs: Seq<u16>, w: nat) -> bool {
    forall|i: int| 0 <= i < xs.len() ==> (#[trigger] xs[i] as nat) < pow2(w)
}

pub open spec fn m32(n: u32) -> u32 {
    ((1u32 << n) - 1) as u32
}

pub open spec fn min_nat(a: nat, b: nat) -> nat {
    if a <= b {
        a
    } else {
        b
    }
}

// ---------------------------------------------------------------------------
// Value lemmas.
// ---------------------------------------------------------------------------
pub proof fn lemma_val_bound(b: Seq<bool>, s: int, n: nat)
    ensures
        val(b, s, n) < pow2(n),
    decreases n,
{
    if n == 0 {
        assert(pow2(0) == 1) by {
            vstd::arithmetic::power2::lemma2_to64();
        }
    } else {
        lemma_val_bound(b, s, (n - 1) as nat);
        lemma_pow2_unfold(n);
    }
}

pub proof fn lemma_val_split(b: Seq<bool>, s: int, n: nat, m: nat)
    ensures
        val(b, s, n + m) == val(b, s, n) * pow2(m) + val(b, s + n, m),
    decreases m,
{
    if m == 0 {
        assert(pow2(0) == 1) by {
            vstd::arithmetic::power2::lemma2_to64();
        }
        assert(n + m == n);
    } else {
        lemma_val_split(b, s, n, (m - 1) as nat);
        lemma_pow2_unfold(m);
        let v = val(b, s, n);
        let p = pow2((m - 1) as nat);
        assert(2 * (v * p) == v * (2 * p)) by (nonlinear_arith);
        assert(val(b, s, n + m) == 2 * val(b, s, (n + m - 1) as nat) + (if xb(b, s + (n + m) - 1) {
            1nat
        } else {
            0nat
        }));
        assert((n + m - 1) as nat == n + (m - 1) as nat);
        assert(s + n + m - 1 == s + (n + m) - 1);
    }
}

/// Equal bits in the range read give equal values.
pub proof fn lemma_val_congruent(b1: Seq<bool>, b2: Seq<bool>, s: int, n: nat)
    requires
        forall|j: int| s <= j < s + n ==> xb(b1, j) == xb(b2, j),
    ensures
        val(b1, s, n) == val(b2, s, n),
    decreases n,
{
    if n > 0 {
        lemma_val_congruent(b1, b2, s, (n - 1) as nat);
    }
}

/// Bits past the end read as zero.
pub proof fn lemma_val_past_end(b: Seq<bool>, s: int, n: nat)
    requires
        s >= b.len(),
    ensures
        val(b, s, n) == 0,
    decreases n,
{
    if n > 0 {
        lemma_val_past_end(b, s, (n - 1) as nat);
    }
}

proof fn lemma_divmod_pos(k: int, w: int, t: int)
    requires
        w > 0,
        0 <= t < w,
        k >= 0,
    ensures
        (k * w + t) / w == k,
        (k * w + t) % w == t,
{
    lemma_fundamental_div_mod_converse(k * w + t, w, k, t);
}

/// The first `n` bits of symbol `k` in a `w`-bit stream read as the symbol
/// with its low `w - n` bits dropped.
proof fn lemma_val_symbol_prefix(xs: Seq<u16>, w: nat, k: int, n: nat)
    requires
        w >= 1,
        0 <= k < xs.len(),
        n <= w,
        (xs[k] as nat) < pow2(w),
    ensures
        val(bitstr(xs, w), k * w, n) == (xs[k] as nat) / pow2((w - n) as nat),
    decreases n,
{
    let x = xs[k] as nat;
    let b = bitstr(xs, w);
    if n == 0 {
        lemma_pow2_pos(w);
        lemma_fundamental_div_mod_converse(x as int, pow2(w) as int, 0, x as int);
    } else {
        lemma_val_symbol_prefix(xs, w, k, (n - 1) as nat);
        let j = k * w + n - 1;
        lemma_divmod_pos(k, w as int, n - 1);
        assert(0 <= k * w) by (nonlinear_arith)
            requires
                k >= 0,
                w >= 1,
        ;
        assert(j < xs.len() * w) by (nonlinear_arith)
            requires
                j == k * w + n - 1,
                n <= w,
                k < xs.len(),
                w >= 1,
        ;
        assert(xb(b, j) == ((x / pow2((w - 1 - (n - 1)) as nat)) % 2 == 1));
        let e = (w - n) as nat;
        assert((w - 1 - (n - 1)) as nat == e);
        lemma_pow2_pos(e);
        lemma_pow2_unfold(e + 1);
        assert((w - (n - 1)) as nat == e + 1);
        let q = x / pow2(e);
        lemma_div_denominator(x as int, pow2(e) as int, 2);
        assert(x / pow2(e + 1) == q / 2);
        assert(2 * (q / 2) + q % 2 == q);
    }
}

/// Cutting the bit string of fitting `w`-bit symbols into `w`-bit groups
/// gives the symbols back.
pub proof fn lemma_groups_of_bitstr(xs: Seq<u16>, w: nat)
    requires
        1 <= w <= 16,
        fit_all(xs, w),
    ensures
        groups(bitstr(xs, w), w) == xs,
        groups_padded(bitstr(xs, w), w) == xs,
{
    let b = bitstr(xs, w);
    assert(b.len() == xs.len() * w);
    assert(b.len() / w == xs.len()) by {
        lemma_fundamental_div_mod_converse(b.len() as int, w as int, xs.len() as int, 0);
    }
    assert(((b.len() + w - 1) as nat) / w == xs.len()) by {
        lemma_fundamental_div_mod_converse((b.len() + w - 1) as int, w as int, xs.len() as int, w - 1);
    }
    assert forall|k: int| 0 <= k < xs.len() implies #[trigger] groups(b, w)[k] == xs[k] by {
        lemma_val_symbol_prefix(xs, w, k, w);
        assert(pow2(0) == 1) by {
            vstd::arithmetic::power2::lemma2_to64();
        }
        assert((w - w) as nat == 0);
        let x = xs[k] as nat;
        assert(x / 1 == x) by (nonlinear_arith);
        assert(val(b, k * w, w) == xs[k] as nat);
    }
    assert(groups(b, w) =~= xs);
    assert(groups_padded(b, w) =~= xs);
}

/// Bit `t` of a group read from `b` is the bit of `b` it was read from.
proof fn lemma_group_bit(b: Seq<bool>, w: nat, k: int, t: int)
    requires
        1 <= w,
        k >= 0,
        0 <= t < w,
    ensures
        (val(b, k * w, w) / pow2((w - 1 - t) as nat)) % 2 == (if xb(b, k * w + t) {
            1nat
        } else {
            0nat
        }),
{
    let e = (w - 1 - t) as nat;
    lemma_val_split(b, k * w, (t + 1) as nat, e);
    assert((t + 1) as nat + e == w);
    lemma_val_bound(b, k * w + (t + 1), e);
    lemma_pow2_pos(e);
    let hi = val(b, k * w, (t + 1) as nat);
    lemma_fundamental_div_mod_converse(
        val(b, k * w, w) as int,
        pow2(e) as int,
        hi as int,
        val(b, k * w + (t + 1), e) as int,
    );
    assert(hi == 2 * val(b, k * w, t as nat) + (if xb(b, k * w + t) {
        1nat
    } else {
        0nat
    }));
}

/// The bit string of groups read from `b` is `b` (then zeros).
pub proof fn lemma_bitstr_of_groups(b: Seq<bool>, w: nat, gs: Seq<u16>)
    requires
        1 <= w <= 16,
        forall|k: int| 0 <= k < gs.len() ==> #[trigger] gs[k] == val(b, k * w, w) as u16,
    ensures
        forall|j: int| 0 <= j < gs.len() * w ==> #[trigger] bitstr(gs, w)[j] == xb(b, j),
{
    assert forall|j: int| 0 <= j < gs.len() * w implies #[trigger] bitstr(gs, w)[j] == xb(b, j) by {
        let k = j / (w as int);
        let t = j % (w as int);
        assert(k >= 0 && 0 <= t < w && j == k * w + t) by (nonlinear_arith)
            requires
                k == j / (w as int),
                t == j % (w as int),
                w >= 1,
                j >= 0,
        ;
        assert(k < gs.len()) by (nonlinear_arith)
            requires
                j == k * w + t,
                j < gs.len() * w,
                0 <= t,
                w >= 1,
        ;
        lemma_val_bound(b, k * w, w);
        assert(pow2(w) <= pow2(16)) by {
            if w < 16 {
                lemma_pow2_strictly_increases(w, 16);
            }
        }
        assert(pow2(16) == 0x10000) by {
            vstd::arithmetic::power2::lemma2_to64();
        }
        assert(gs[k] as nat == val(b, k * w, w));
        lemma_group_bit(b, w, k, t);
    }
}

// ---------------------------------------------------------------------------
// Accumulator facts.
// ---------------------------------------------------------------------------
proof fn lemma_m32_mod(x: u32, n: u32)
    requires
        n < 32,
    ensures
        (x & m32(n)) as nat == (x as nat) % pow2(n as nat),
        (1u32 << n) as nat == pow2(n as nat),
{
    lemma_u32_pow2_no_overflow(n as nat);
    lemma_u32_shl_is_mul(1u32, n);
    lemma_u32_low_bits_mask_is_mod(x, n as nat);
    lemma_pow2_pos(n as nat);
    assert(low_bits_mask(n as nat) == pow2(n as nat) - 1);
}

proof fn lemma_consume(a: u32, x: u32, nb: u32, win: u32)
    requires
        nb + win <= 31,
        1 <= win,
        (x as nat) < pow2(win as nat),
    ensures
        (((a << win) | x) & m32((nb + win) as u32)) as nat == ((a & m32(nb)) as nat) * pow2(win as nat) + x,
{
    lemma_m32_mod(x, win);
    lemma_m32_mod(a, nb);
    let v = a & m32(nb);
    assert(((a << win) | x) & m32((nb + win) as u32) == ((v << win) | x)) by (bit_vector)
        requires
            nb + win <= 31,
            (x as u32) < (1u32 << win),
            v == a & m32(nb),
    ;
    assert((v << win) | x == (v << win) + x && (v << win) + x <= 0xffff_ffffu32) by (bit_vector)
        requires
            nb + win <= 31,
            (x as u32) < (1u32 << win),
            v == a & m32(nb),
    ;
    lemma_pow2_adds(nb as nat, win as nat);
    lemma_u32_pow2_no_overflow((nb + win) as nat);
    assert((v as nat) < pow2(nb as nat)) by {
        lemma_pow2_pos(nb as nat);
    }
    assert(v * pow2(win as nat) < pow2(nb as nat) * pow2(win as nat)) by (nonlinear_arith)
        requires
            (v as nat) < pow2(nb as nat),
            pow2(win as nat) > 0,
    ;
    lemma_pow2_pos(win as nat);
    lemma_u32_shl_is_mul(v, win);
}

proof fn lemma_emit(a: u32, nb: u32, nb2: u32, wout: u32, hi: nat, lo: nat)
    requires
        nb == nb2 + wout,
        nb <= 31,
        1 <= wout,
        (a & m32(nb)) as nat == hi * pow2(nb2 as nat) + lo,
        lo < pow2(nb2 as nat),
    ensures
        ((a >> nb2) & m32(wout)) as nat == hi,
        (a & m32(nb2)) as nat == lo,
{
    let v = a & m32(nb);
    assert((a >> nb2) & m32(wout) == v >> nb2 && a & m32(nb2) == v & m32(nb2)) by (bit_vector)
        requires
            nb == nb2 + wout,
            nb <= 31,
            v == a & m32(nb),
    ;
    lemma_u32_shr_is_div(v, nb2);
    lemma_m32_mod(v, nb2);
    lemma_pow2_pos(nb2 as nat);
    lemma_fundamental_div_mod_converse(v as int, pow2(nb2 as nat) as int, hi as int, lo as int);
}

proof fn lemma_pad(a: u32, nb: u32, wout: u32)
    requires
        0 < nb < wout,
        wout <= 16,
    ensures
        ((a << ((wout - nb) as u32)) & m32(wout)) as nat == ((a & m32(nb)) as nat) * pow2(
            (wout - nb) as nat,
        ),
{
    let sh = (wout - nb) as u32;
    let v = a & m32(nb);
    assert((a << sh) & m32(wout) == v << sh) by (bit_vector)
        requires
            sh == wout - nb,
            0 < nb < wout,
            wout <= 16,
            v == a & m32(nb),
    ;
    lemma_m32_mod(a, nb);
    lemma_pow2_pos(nb as nat);
    lemma_pow2_pos(sh as nat);
    lemma_pow2_adds(nb as nat, sh as nat);
    lemma_u32_pow2_no_overflow((nb + sh) as nat);
    assert(v * pow2(sh as nat) < pow2(nb as nat) * pow2(sh as nat)) by (nonlinear_arith)
        requires
            (v as nat) < pow2(nb as nat),
            pow2(sh as nat) > 0,
    ;
    lemma_u32_shl_is_mul(v, sh);
}

proof fn lemma_u16_fit(v: nat, w: nat)
    requires
        v < pow2(w),
        w <= 16,
    ensures
        v < 0x10000,
{
    if w < 16 {
        lemma_pow2_strictly_increases(w, 16);
    }
    assert(pow2(16) == 0x10000) by {
        vstd::arithmetic::power2::lemma2_to64();
    }
}

pub open spec fn regroup_spec(input: Seq<u16>, win: u32, wout: u32, pad: bool) -> Seq<u16> {
    if pad {
        groups_padded(bitstr(input, win as nat), wout as nat)
    } else {
        groups(bitstr(input, win as nat), wout as nat)
    }
}

/// Re-cut a stream of `win`-bit symbols into `wout`-bit symbols, padding
/// the last one with zeros when `pad` is set.
pub fn regroup(input: &[u16], win: u32, wout: u32, pad: bool) -> (out: Vec<u16>)
    requires
        1 <= win <= 16,
        1 <= wout <= 16,
        fit_all(input@, win as nat),
    ensures
        out@ == regroup_spec(input@, win, wout, pad),
{
    let ghost b = bitstr(input@, win as nat);
    let ghost w: int = wout as int;
    proof {
        crate::bitfacts::lemma_one_shl(wout);
    }
    let mask: u32 = (1u32 << wout) - 1;
    let mut out: Vec<u16> = Vec::new();
    let mut a: u32 = 0;
    let mut nb: u32 = 0;
    let mut k: usize = 0;
    assert(0u32 & m32(0u32) == 0) by (bit_vector);
    while k < input.len()
        invariant
            1 <= win <= 16,
            1 <= wout <= 16,
            mask == m32(wout),
            b == bitstr(input@, win as nat),
            w == wout as int,
            fit_all(input@, win as nat),
            k <= input@.len(),
            nb < wout,
            out@.len() * w + nb == k * win,
            out@ == groups(b, w as nat).take(out@.len() as int),
            (a & m32(nb)) as nat == val(b, out@.len() * w, nb as nat),
        decreases input@.len() - k,
    {
        let x = input[k] as u32;
        proof {
            assert(fit_all(input@, win as nat));
            assert((input@[k as int] as nat) < pow2(win as nat));
            lemma_consume(a, x, nb, win);
            lemma_val_split(b, out@.len() * w, nb as nat, win as nat);
            lemma_val_symbol_prefix(input@, win as nat, k as int, win as nat);
            assert(pow2(0) == 1) by {
                vstd::arithmetic::power2::lemma2_to64();
            }
            assert(x as nat / 1 == x as nat) by (nonlinear_arith);
            assert(((win as nat) - (win as nat)) as nat == 0);
        }
        a = (a << win) | x;
        nb += win;
        assert(out@.len() * w + nb == (k + 1) * win) by (nonlinear_arith)
            requires
                out@.len() * w + (nb - win) == k * win,
        ;
        while nb >= wout
            invariant
                1 <= win <= 16,
                1 <= wout <= 16,
                mask == m32(wout),
                b == bitstr(input@, win as nat),
                w == wout as int,
                k < input@.len(),
                nb < wout + win,
                out@.len() * w + nb == (k + 1) * win,
                out@ == groups(b, w as nat).take(out@.len() as int),
                (a & m32(nb)) as nat == val(b, out@.len() * w, nb as nat),
            decreases nb,
        {
            let ghost e: int = out@.len() as int;
            let ghost nb2 = (nb - wout) as u32;
            proof {
                lemma_val_split(b, e * w, w as nat, nb2 as nat);
                lemma_val_bound(b, e * w + w, nb2 as nat);
                lemma_emit(a, nb, nb2, wout, val(b, e * w, w as nat), val(b, e * w + w, nb2 as nat));
                lemma_val_bound(b, e * w, w as nat);
                lemma_u16_fit(val(b, e * w, w as nat), w as nat);
                assert(b.len() == input@.len() * win);
                assert((e + 1) * w <= b.len()) by (nonlinear_arith)
                    requires
                        e * w + nb == (k + 1) * win,
                        nb >= w,
                        k < input@.len(),
                        b.len() == input@.len() * win,
                ;
                assert(e < (b.len() as int) / w) by {
                    assert(e * w + w <= b.len()) by (nonlinear_arith)
                        requires
                            (e + 1) * w <= b.len(),
                    ;
                    vstd::arithmetic::div_mod::lemma_div_is_ordered(
                        (e * w + w) as int,
                        b.len() as int,
                        w as int,
                    );
                    assert((e + 1) * w + 0 == e * w + w) by (nonlinear_arith);
                    lemma_fundamental_div_mod_converse((e * w + w) as int, w as int, (e + 1) as int, 0);
                }
                assert((e + 1) * w == e * w + w) by (nonlinear_arith);
            }
            nb -= wout;
            out.push(((a >> nb) & mask) as u16);
            proof {
                assert(out@ =~= groups(b, w as nat).take(out@.len() as int));
            }
        }
        k += 1;
    }
    proof {
        let e: int = out@.len() as int;
        assert(b.len() == input@.len() * win);
        lemma_fundamental_div_mod_converse(b.len() as int, w as int, e as int, nb as int);
        assert(groups(b, w as nat).take(e as int) == groups(b, w as nat));
    }
    if pad && nb > 0 {
        proof {
            let e: int = out@.len() as int;
            lemma_pad(a, nb, wout);
            lemma_val_split(b, e * w, nb as nat, (wout - nb) as nat);
            assert(e * w + nb == b.len());
            lemma_val_past_end(b, e * w + nb, (wout - nb) as nat);
            assert(nb as nat + (wout - nb) as nat == w as nat);
            lemma_val_bound(b, e * w, w as nat);
            lemma_u16_fit(val(b, e * w, w as nat), w as nat);
            assert((b.len() + w - 1) == (e + 1) * w + (nb - 1)) by (nonlinear_arith)
                requires
                    e * w + nb == b.len(),
            ;
            lemma_fundamental_div_mod_converse(
                (b.len() + w - 1) as int,
                w as int,
                (e + 1) as int,
                (nb - 1) as int,
            );
        }
        out.push(((a << (wout - nb)) & mask) as u16);
        proof {
            assert(out@ =~= groups_padded(b, w as nat));
        }
    } else if pad {
        proof {
            let e: int = out@.len() as int;
            lemma_fundamental_div_mod_converse((b.len() + w - 1) as int, w as int, e as int, (w - 1) as int);
            assert(out@ =~= groups_padded(b, w as nat));
        }
    }
    out
}

// ---------------------------------------------------------------------------
// Public transcoders.
// ---------------------------------------------------------------------------
/// `s` limited to its first `n` elements.
pub open spec fn take_upto<T>(s: Seq<T>, n: nat) -> Seq<T> {
    if n <= s.len() {
        s.take(n as int)
    } else {
        s
    }
}

pub open spec fn symbols_spec(bytes: Seq<u8>, bits: u32) -> Seq<u16> {
    groups_padded(bitstr8(bytes), bits as nat)
}

pub open spec fn pack_spec(syms: Seq<u16>, bits: u32) -> Seq<u8> {
    narrow(groups_padded(bitstr(syms, bits as nat), 8))
}

pub open spec fn unpack_spec(b: Seq<u8>, bits: u32, cnt: nat) -> Seq<u16> {
    take_upto(groups(bitstr8(b), bits as nat), cnt)
}

pub open spec fn mask_syms(syms: Seq<u16>, bits: u32) -> Seq<u16> {
    Seq::new(syms.len(), |i: int| ((syms[i] as u32) & m32(bits)) as u16)
}

pub open spec fn unsymbols_spec(syms: Seq<u16>, bits: u32, len: nat) -> Seq<u8> {
    take_upto(narrow(groups(bitstr(mask_syms(syms, bits), bits as nat), 8)), len)
}

pub open spec fn g2b_spec(g: Seq<u16>, bits: u32, nl: nat) -> Seq<u8> {
    take_upto(narrow(groups_padded(bitstr(g, bits as nat), 8)), nl)
}

pub open spec fn sym_count_spec(l: nat, bits: nat) -> nat {
    (l * 8 + bits - 1) as nat / bits
}

pub open spec fn pack_len_spec(cnt: nat, bits: nat) -> nat {
    (cnt * bits + 7) / 8
}

pub proof fn lemma_groups_fit(b: Seq<bool>, w: nat, gs: Seq<u16>)
    requires
        1 <= w <= 16,
        forall|k: int| 0 <= k < gs.len() ==> #[trigger] gs[k] == val(b, k * w, w) as u16,
    ensures
        fit_all(gs, w),
        forall|k: int| 0 <= k < gs.len() ==> (#[trigger] gs[k] as nat) == val(b, k * w, w),
{
    assert forall|k: int| 0 <= k < gs.len() implies (#[trigger] gs[k] as nat) == val(b, k * w, w)
        && (gs[k] as nat) < pow2(w) by {
        lemma_val_bound(b, k * w, w);
        lemma_u16_fit(val(b, k * w, w), w);
    }
}

fn widen_bytes(b: &[u8]) -> (v: Vec<u16>)
    ensures
        v@ == widen(b@),
        fit_all(v@, 8),
{
    let mut v: Vec<u16> = Vec::new();
    let mut k: usize = 0;
    while k < b.len()
        invariant
            k <= b.len(),
            v@ == widen(b@).take(k as int),
        decreases b.len() - k,
    {
        v.push(b[k] as u16);
        proof {
            assert(v@ =~= widen(b@).take(k + 1));
        }
        k += 1;
    }
    proof {
        assert(v@ =~= widen(b@));
        assert(pow2(8) == 256) by {
            vstd::arithmetic::power2::lemma2_to64();
        }
    }
    v
}

fn narrow_syms(v: &Vec<u16>) -> (b: Vec<u8>)
    ensures
        b@ == narrow(v@),
{
    let mut b: Vec<u8> = Vec::new();
    let mut k: usize = 0;
    while k < v.len()
        invariant
            k <= v.len(),
            b@ == narrow(v@).take(k as int),
        decreases v.len() - k,
    {
        b.push(v[k] as u8);
        proof {
            assert(b@ =~= narrow(v@).take(k + 1));
        }
        k += 1;
    }
    assert(b@ =~= narrow(v@));
    b
}

/// Bytes -> `bits`-wide symbols, most significant bit first, the last
/// symbol zero-padded.
pub fn symbols(bytes: &[u8], bits: u32) -> (out: Vec<u16>)
    requires
        1 <= bits <= 16,
    ensures
        out@ == symbols_spec(bytes@, bits),
        out@.len() == sym_count_spec(bytes@.len(), bits as nat),
{
    proof {
        lemma_symbols_roundtrip(bytes@, bits);
    }
    let w = widen_bytes(bytes);
    regroup(w.as_slice(), 8, bits, true)
}

/// Bytes -> glyphs (the same cut as `symbols`).
pub fn b2g(b: &[u8], bits: u32) -> (out: Vec<u16>)
    requires
        1 <= bits <= 16,
    ensures
        out@ == symbols_spec(b@, bits),
        out@.len() == sym_count_spec(b@.len(), bits as nat),
{
    symbols(b, bits)
}

/// Symbols (each masked to `bits`) -> bytes, cut to `byte_len`.
pub fn unsymbols(syms: &[u16], bits: u32, byte_len: usize) -> (out: Vec<u8>)
    requires
        1 <= bits <= 16,
    ensures
        out@ == unsymbols_spec(syms@, bits, byte_len as nat),
{
    proof {
        crate::bitfacts::lemma_one_shl(bits);
    }
    let mask = (1u32 << bits) - 1;
    let mut m: Vec<u16> = Vec::new();
    let mut k: usize = 0;
    while k < syms.len()
        invariant
            k <= syms.len(),
            1 <= bits <= 16,
            mask == m32(bits),
            m@ == mask_syms(syms@, bits).take(k as int),
        decreases syms.len() - k,
    {
        let x = ((syms[k] as u32) & mask) as u16;
        m.push(x);
        proof {
            assert(m@ =~= mask_syms(syms@, bits).take(k + 1));
        }
        k += 1;
    }
    proof {
        assert(m@ =~= mask_syms(syms@, bits));
        assert forall|i: int| 0 <= i < m@.len() implies (#[trigger] m@[i] as nat) < pow2(bits as nat) by {
            let s = syms@[i];
            lemma_m32_mod(s as u32, bits);
            lemma_pow2_pos(bits as nat);
            assert((s as u32) & m32(bits) <= 0xffffu32) by (bit_vector)
                requires
                    bits <= 16,
            ;
        }
    }
    let g = regroup(m.as_slice(), bits, 8, false);
    let mut out = narrow_syms(&g);
    out.truncate(byte_len);
    out
}

/// Symbols -> bytes, the last byte zero-padded, then cut to `nl`.
pub fn g2b(g: &[u16], bits: u32, nl: usize) -> (out: Vec<u8>)
    requires
        1 <= bits <= 16,
        fit_all(g@, bits as nat),
    ensures
        out@ == g2b_spec(g@, bits, nl as nat),
{
    let v = regroup(g, bits, 8, true);
    let mut out = narrow_syms(&v);
    out.truncate(nl);
    out
}

/// Pack `bits`-wide symbols into bytes (last byte zero-padded).
pub fn pack(syms: &[u16], bits: u32) -> (out: Vec<u8>)
    requires
        1 <= bits <= 16,
        fit_all(syms@, bits as nat),
    ensures
        out@ == pack_spec(syms@, bits),
{
    let v = regroup(syms, bits, 8, true);
    narrow_syms(&v)
}

/// Exactly `cnt` `bits`-wide symbols from the front of `b` (fewer if `b`
/// runs out).
pub fn unpack(b: &[u8], bits: u32, cnt: usize) -> (out: Vec<u16>)
    requires
        1 <= bits <= 16,
    ensures
        out@ == unpack_spec(b@, bits, cnt as nat),
{
    let w = widen_bytes(b);
    let mut out = regroup(w.as_slice(), 8, bits, false);
    out.truncate(cnt);
    out
}

/// Number of symbols `symbols` gives for `l` bytes.
pub fn sym_count(l: usize, bits: u32) -> (n: usize)
    requires
        1 <= bits,
        l * 8 + bits - 1 <= usize::MAX,
    ensures
        n == sym_count_spec(l as nat, bits as nat),
{
    (l * 8 + (bits as usize - 1)) / bits as usize
}

/// Number of bytes `pack` gives for `cnt` symbols.
pub fn pack_len(cnt: usize, bits: u32) -> (n: usize)
    requires
        cnt * bits + 7 <= usize::MAX,
    ensures
        n == pack_len_spec(cnt as nat, bits as nat),
{
    (cnt * bits as usize + 7) / 8
}

// ---------------------------------------------------------------------------
// Laws.
// ---------------------------------------------------------------------------
/// Bytes cut into symbols and joined back, cut to their own length,
/// are the same bytes.
pub proof fn lemma_symbols_roundtrip(bytes: Seq<u8>, bits: u32)
    requires
        1 <= bits <= 16,
    ensures
        unsymbols_spec(symbols_spec(bytes, bits), bits, bytes.len()) == bytes,
        symbols_spec(bytes, bits).len() == sym_count_spec(bytes.len(), bits as nat),
{
    let w = bits as nat;
    let b8 = bitstr8(bytes);
    let s = symbols_spec(bytes, bits);
    assert(b8.len() == bytes.len() * 8);
    lemma_groups_fit(b8, w, s);
    assert(mask_syms(s, bits) =~= s) by {
        assert forall|i: int| 0 <= i < s.len() implies #[trigger] mask_syms(s, bits)[i] == s[i] by {
            let x = s[i];
            lemma_m32_mod(x as u32, bits);
            lemma_small_mod_nat(x as nat, pow2(w));
        }
    }
    lemma_bitstr_of_groups(b8, w, s);
    let bs = bitstr(s, w);
    // s covers all the bytes' bits
    assert(s.len() * w >= b8.len()) by {
        let q = s.len();
        assert(q == ((b8.len() + w - 1) as nat) / w);
        vstd::arithmetic::div_mod::lemma_fundamental_div_mod((b8.len() + w - 1) as int, w as int);
        vstd::arithmetic::div_mod::lemma_mod_pos_bound((b8.len() + w - 1) as int, w as int);
        assert(b8.len() + w - 1 == w * q + ((b8.len() + w - 1) as int) % (w as int));
        assert(q * w == w * q) by (nonlinear_arith);
    }
    let gs = groups(bs, 8);
    assert(gs.len() >= bytes.len()) by {
        vstd::arithmetic::div_mod::lemma_div_is_ordered((bytes.len() * 8) as int, bs.len() as int, 8);
        lemma_fundamental_div_mod_converse((bytes.len() * 8) as int, 8, bytes.len() as int, 0);
    }
    let wb = widen(bytes);
    assert(pow2(8) == 256) by {
        vstd::arithmetic::power2::lemma2_to64();
    }
    assert(fit_all(wb, 8));
    lemma_groups_of_bitstr(wb, 8);
    let out = unsymbols_spec(s, bits, bytes.len());
    assert forall|i: int| 0 <= i < bytes.len() implies #[trigger] out[i] == bytes[i] by {
        assert(0 <= i * 8) by (nonlinear_arith)
            requires
                i >= 0,
        ;
        assert(i * 8 + 8 <= b8.len()) by (nonlinear_arith)
            requires
                i < bytes.len(),
                b8.len() == bytes.len() * 8,
        ;
        assert forall|j: int| i * 8 <= j < i * 8 + 8 implies xb(bs, j) == xb(b8, j) by {
            assert(bs[j] == xb(b8, j));
        }
        lemma_val_congruent(bs, b8, i * 8, 8);
        assert(groups(b8, 8)[i] == wb[i]);
        lemma_val_bound(bs, i * 8, 8);
        assert(gs[i] as nat == val(bs, i * 8, 8));
    }
    assert(out =~= bytes);
    // length
    assert(s.len() == sym_count_spec(bytes.len(), w));
}

proof fn lemma_small_mod_nat(x: nat, m: nat)
    requires
        x < m,
    ensures
        x % m == x,
{
    vstd::arithmetic::div_mod::lemma_small_mod(x, m);
}

/// Symbols packed into bytes and unpacked by count are the symbols.
pub proof fn lemma_pack_roundtrip(syms: Seq<u16>, bits: u32)
    requires
        1 <= bits <= 16,
        fit_all(syms, bits as nat),
    ensures
        unpack_spec(pack_spec(syms, bits), bits, syms.len()) == syms,
        pack_spec(syms, bits).len() == pack_len_spec(syms.len(), bits as nat),
{
    let w = bits as nat;
    let bs = bitstr(syms, w);
    let gp = groups_padded(bs, 8);
    lemma_groups_fit(bs, 8, gp);
    let p = pack_spec(syms, bits);
    assert(pow2(8) == 256) by {
        vstd::arithmetic::power2::lemma2_to64();
    }
    assert(widen(p) =~= gp);
    lemma_bitstr_of_groups(bs, 8, gp);
    let b8 = bitstr8(p);
    assert(gp.len() * 8 >= bs.len()) by {
        let q = gp.len();
        vstd::arithmetic::div_mod::lemma_fundamental_div_mod((bs.len() + 7) as int, 8);
    }
    assert(bs.len() == syms.len() * w);
    let g = groups(b8, w);
    assert(g.len() >= syms.len()) by {
        assert(b8.len() >= syms.len() * w);
        vstd::arithmetic::div_mod::lemma_div_is_ordered((syms.len() * w) as int, b8.len() as int, w as int);
        lemma_fundamental_div_mod_converse((syms.len() * w) as int, w as int, syms.len() as int, 0);
    }
    lemma_groups_of_bitstr(syms, w);
    let out = unpack_spec(p, bits, syms.len());
    assert forall|k: int| 0 <= k < syms.len() implies #[trigger] out[k] == syms[k] by {
        assert(0 <= k * w) by (nonlinear_arith)
            requires
                k >= 0,
        ;
        assert(k * w + w <= bs.len()) by (nonlinear_arith)
            requires
                k < syms.len(),
                bs.len() == syms.len() * w,
        ;
        assert forall|j: int| k * w <= j < k * w + w implies xb(b8, j) == xb(bs, j) by {
            assert(b8[j] == xb(bs, j));
        }
        lemma_val_congruent(b8, bs, k * w, w);
        assert(groups(bs, w)[k] == syms[k]);
    }
    assert(out =~= syms);
}

/// Bytes cut into symbols and joined back with `g2b`, cut to their own
/// length, are the same bytes.
pub proof fn lemma_g2b_symbols(bytes: Seq<u8>, bits: u32)
    requires
        1 <= bits <= 16,
    ensures
        g2b_spec(symbols_spec(bytes, bits), bits, bytes.len()) == bytes,
{
    lemma_symbols_roundtrip(bytes, bits);
    let w = bits as nat;
    let b8 = bitstr8(bytes);
    let s = symbols_spec(bytes, bits);
    assert(b8.len() == bytes.len() * 8);
    lemma_groups_fit(b8, w, s);
    assert(mask_syms(s, bits) =~= s) by {
        assert forall|i: int| 0 <= i < s.len() implies #[trigger] mask_syms(s, bits)[i] == s[i] by {
            let x = s[i];
            lemma_m32_mod(x as u32, bits);
            lemma_small_mod_nat(x as nat, pow2(w));
        }
    }
    assert(s.len() * w >= b8.len()) by {
        let q = s.len();
        assert(q == ((b8.len() + w - 1) as nat) / w);
        vstd::arithmetic::div_mod::lemma_fundamental_div_mod((b8.len() + w - 1) as int, w as int);
        vstd::arithmetic::div_mod::lemma_mod_pos_bound((b8.len() + w - 1) as int, w as int);
        assert(q * w == w * q) by (nonlinear_arith);
    }
    let bs = bitstr(s, w);
    let ga = groups(bs, 8);
    let gb = groups_padded(bs, 8);
    assert(ga.len() >= bytes.len()) by {
        vstd::arithmetic::div_mod::lemma_div_is_ordered((bytes.len() * 8) as int, bs.len() as int, 8);
        lemma_fundamental_div_mod_converse((bytes.len() * 8) as int, 8, bytes.len() as int, 0);
    }
    assert(gb.len() >= ga.len()) by {
        vstd::arithmetic::div_mod::lemma_div_is_ordered(bs.len() as int, (bs.len() + 7) as int, 8);
    }
    let x = g2b_spec(s, bits, bytes.len());
    let y = unsymbols_spec(s, bits, bytes.len());
    assert(y == take_upto(narrow(ga), bytes.len()));
    assert(x =~= y);
}

} // verus!
