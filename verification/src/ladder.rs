//! The band ladder: bytes are cut into 6-, 8-, 10- and 12-bit symbols in
//! turn; at each band the symbols are spoken through a seeded codebook,
//! viewed through a seeded A-view, and split into quotient and residual by
//! the band's step.  Residuals are entropy-coded; the quotients, packed, feed
//! the next band.  Everything seeded comes from one fixed root, so the
//! decoder rebuilds it from the archive length alone.
use vstd::prelude::*;
use crate::bitmodel::{data_stream, dec_data, decode_bytes, encode_bytes};
use crate::coder::{dec_init, Decoder, Encoder};
use crate::mix::{mix_init, Model};
use crate::sha::{sha256, spec_sha256};
use crate::wire::{append_bytes, push_u32_le, u32_le};
use crate::prism::{
    a_ap, a_ap_spec, a_in, a_in_spec, codebook_fwd, codebook_inv, codebook_ok,
    lemma_a_roundtrip, lemma_codebook_inverse, lemma_codebook_spec_ok, lemma_pow2_nat_shift,
    lemma_seeded_order_perm, seeded_codebook, seeded_order,
};
use crate::bitpack::{
    fit_all, lemma_pack_roundtrip, lemma_symbols_roundtrip, pack, pack_spec, symbols,
    symbols_spec, unpack, unpack_spec, unsymbols, unsymbols_spec, bitstr8, lemma_groups_fit,
    sym_count_spec, pack_len_spec,
};
use crate::glyph::{
    all_fit, dequantize, dequantize_spec, lemma_dequantize_quantize, lemma_map_inverse, map_spec,
    map_symbols, quantize,
};
use vstd::arithmetic::div_mod::lemma_fundamental_div_mod;
use vstd::arithmetic::power2::pow2;

verus! {

/// "ASOLARIA-OMEGA-OMNIBIT-LADDER-V1|8467a937cba309f7"
pub const ROOT_LABEL: [u8; 49] = [
    0x41, 0x53, 0x4f, 0x4c, 0x41, 0x52, 0x49, 0x41, 0x2d, 0x4f, 0x4d, 0x45, 0x47, 0x41, 0x2d, 0x4f,
    0x4d, 0x4e, 0x49, 0x42, 0x49, 0x54, 0x2d, 0x4c, 0x41, 0x44, 0x44, 0x45, 0x52, 0x2d, 0x56, 0x31,
    0x7c, 0x38, 0x34, 0x36, 0x37, 0x61, 0x39, 0x33, 0x37, 0x63, 0x62, 0x61, 0x33, 0x30, 0x39, 0x66,
    0x37,
];

/// "BAND-CODEBOOK|"
pub const BAND_CODEBOOK_TAG: [u8; 14] = [
    0x42, 0x41, 0x4e, 0x44, 0x2d, 0x43, 0x4f, 0x44, 0x45, 0x42, 0x4f, 0x4f, 0x4b, 0x7c,
];

/// "BAND-DIRECTION|"
pub const BAND_DIRECTION_TAG: [u8; 15] = [
    0x42, 0x41, 0x4e, 0x44, 0x2d, 0x44, 0x49, 0x52, 0x45, 0x43, 0x54, 0x49, 0x4f, 0x4e, 0x7c,
];

/// "OMNIBIT-LADDER-LANGUAGE-V1\0"
pub const LANGUAGE_TAG: [u8; 27] = [
    0x4f, 0x4d, 0x4e, 0x49, 0x42, 0x49, 0x54, 0x2d, 0x4c, 0x41, 0x44, 0x44, 0x45, 0x52, 0x2d, 0x4c,
    0x41, 0x4e, 0x47, 0x55, 0x41, 0x47, 0x45, 0x2d, 0x56, 0x31, 0x00,
];

/// "QPRISM_LADDER_V1|"
pub const QPRISM_TAG: [u8; 17] = [
    0x51, 0x50, 0x52, 0x49, 0x53, 0x4d, 0x5f, 0x4c, 0x41, 0x44, 0x44, 0x45, 0x52, 0x5f, 0x56, 0x31,
    0x7c,
];

/// "OOL1"
pub const MAGIC: [u8; 4] = [0x4f, 0x4f, 0x4c, 0x31];

pub open spec fn ladder_root() -> Seq<u8> {
    spec_sha256(ROOT_LABEL@)
}

pub open spec fn band_cb_seed_spec(rt: Seq<u8>, bits: u32) -> Seq<u8> {
    spec_sha256(BAND_CODEBOOK_TAG@ + rt + u32_le(bits))
}

pub open spec fn band_dir_seed_spec(rt: Seq<u8>, bits: u32) -> Seq<u8> {
    spec_sha256(BAND_DIRECTION_TAG@ + rt + u32_le(bits))
}

pub open spec fn band_dir_spec(rt: Seq<u8>, bi: int) -> usize {
    (rt[bi] % 8) as usize
}

/// Band `k` reads its A-view from the low three bits of byte `k` of the
/// root: the byte's remainder by 8.
pub proof fn lemma_band_dir_low_bits(rt: Seq<u8>, k: int)
    requires
        0 <= k < rt.len(),
    ensures
        band_dir_spec(rt, k) as int == (rt[k] as int) % 8,
        band_dir_spec(rt, k) < 8,
{
}

/// The ladder's fixed root.
pub fn root() -> (r: [u8; 32])
    ensures
        r@ == ladder_root(),
{
    sha256(&ROOT_LABEL)
}

fn tagged_hash(tag: &[u8], rt: &[u8; 32], bits: u32) -> (r: [u8; 32])
    ensures
        r@ == spec_sha256(tag@ + rt@ + u32_le(bits)),
{
    let mut s: Vec<u8> = Vec::new();
    append_bytes(&mut s, tag);
    append_bytes(&mut s, rt);
    push_u32_le(&mut s, bits);
    sha256(s.as_slice())
}

/// Seed of the codebook of the `bits`-wide band.
pub fn band_cb_seed(rt: &[u8; 32], bits: u32) -> (r: [u8; 32])
    ensures
        r@ == band_cb_seed_spec(rt@, bits),
{
    tagged_hash(&BAND_CODEBOOK_TAG, rt, bits)
}

/// A-view of band `bi`.
pub fn band_dir(rt: &[u8; 32], bi: usize) -> (d: usize)
    requires
        bi < 32,
    ensures
        d == band_dir_spec(rt@, bi as int),
        d < 8,
        d as int == (rt@[bi as int] as int) % 8,
{
    (rt[bi] as usize) % 8
}

/// Seed of the block order of the `bits`-wide band.
pub fn band_dir_seed(rt: &[u8; 32], bits: u32) -> (r: [u8; 32])
    ensures
        r@ == band_dir_seed_spec(rt@, bits),
{
    tagged_hash(&BAND_DIRECTION_TAG, rt, bits)
}

/// The band's codebook: forward and inverse tables.
pub fn codebook(seed: &[u8; 32], bits: u32) -> (r: (Vec<u16>, Vec<u16>))
    requires
        bits <= 16,
    ensures
        r.0@ == codebook_fwd(LANGUAGE_TAG@, seed@, pow2(bits as nat)),
        r.1@ == codebook_inv(LANGUAGE_TAG@, seed@, pow2(bits as nat)),
        codebook_ok(r.0@, r.1@, LANGUAGE_TAG@, seed@, pow2(bits as nat)),
{
    seeded_codebook(&LANGUAGE_TAG, seed, bits)
}

/// Code stream of `data` under the order-0..4 mixing model.
pub fn sgram_compress(data: &[u8]) -> (s: Vec<u8>)
    ensures
        s@ == data_stream::<Model>(mix_init(), data@),
{
    let mut m = Model::new();
    let mut e = Encoder::new();
    encode_bytes(&mut m, &mut e, data);
    e.flush();
    e.out
}

/// `n` bytes decoded from `arc` under the order-0..4 mixing model.
pub fn sgram_decompress(arc: &[u8], n: usize) -> (out: Vec<u8>)
    ensures
        out@ == dec_data::<Model>(mix_init(), dec_init(arc@), n as nat).2,
{
    let mut m = Model::new();
    let mut d = Decoder::new(arc);
    decode_bytes(&mut m, &mut d, n)
}

/// Symbol width of band `bi` (0..4).
pub open spec fn band_bits(bi: int) -> u32 {
    if bi == 0 {
        6
    } else if bi == 1 {
        8
    } else if bi == 2 {
        10
    } else {
        12
    }
}

/// Quantisation step of band `bi`.
pub open spec fn band_step(bi: int) -> u16 {
    if bi == 0 {
        2
    } else if bi == 1 {
        4
    } else if bi == 2 {
        8
    } else {
        16
    }
}

/// (bits, step) of the 64/256/1024/4096 bands.
pub const BAND_BITS: [u32; 4] = [6, 8, 10, 12];

pub const BAND_STEPS: [u16; 4] = [2, 4, 8, 16];

pub open spec fn band_fwd(rt: Seq<u8>, bi: int) -> Seq<u16> {
    codebook_fwd(LANGUAGE_TAG@, band_cb_seed_spec(rt, band_bits(bi)), pow2(band_bits(bi) as nat))
}

pub open spec fn band_inv(rt: Seq<u8>, bi: int) -> Seq<u16> {
    codebook_inv(LANGUAGE_TAG@, band_cb_seed_spec(rt, band_bits(bi)), pow2(band_bits(bi) as nat))
}

/// Block order of band `bi` for a stream of `n` symbols.
pub open spec fn band_order(rt: Seq<u8>, bi: int, n: nat) -> Seq<usize> {
    seeded_order(QPRISM_TAG@, band_dir_seed_spec(rt, band_bits(bi)), n / 257)
}

/// The band's directed stream: symbols, spoken, then viewed.
pub open spec fn band_directed(w: Seq<u8>, rt: Seq<u8>, bi: int) -> Seq<u16> {
    let spoken = map_spec(symbols_spec(w, band_bits(bi)), band_fwd(rt, bi));
    a_ap_spec(band_dir_spec(rt, bi), spoken, band_bits(bi), band_order(rt, bi, spoken.len()))
}

pub open spec fn quotients(d: Seq<u16>, step: u16) -> Seq<u16> {
    Seq::new(d.len(), |i: int| (d[i] / step) as u16)
}

pub open spec fn residuals(d: Seq<u16>, step: u16) -> Seq<u16> {
    Seq::new(d.len(), |i: int| (d[i] % step) as u16)
}

/// Packed quotients of band `bi`: the working bytes of the next band.
pub open spec fn band_next(w: Seq<u8>, rt: Seq<u8>, bi: int) -> Seq<u8> {
    pack_spec(quotients(band_directed(w, rt, bi), band_step(bi)), band_bits(bi))
}

/// Packed residuals of band `bi`.
pub open spec fn band_res(w: Seq<u8>, rt: Seq<u8>, bi: int) -> Seq<u8> {
    pack_spec(residuals(band_directed(w, rt, bi), band_step(bi)), band_bits(bi))
}

proof fn lemma_band_consts(bi: int)
    requires
        0 <= bi < 4,
    ensures
        BAND_BITS@[bi] == band_bits(bi),
        BAND_STEPS@[bi] == band_step(bi),
        6 <= band_bits(bi) <= 12,
        band_bits(bi) % 2 == 0,
        band_step(bi) >= 2,
        (band_step(bi) as nat) <= pow2(band_bits(bi) as nat),
        pow2(band_bits(bi) as nat) <= 4096,
        pow2(band_bits(bi) as nat) * (band_step(bi) as nat) <= 0x1_0000,
{
    assert(BAND_BITS@ =~= seq![6u32, 8, 10, 12]);
    assert(BAND_STEPS@ =~= seq![2u16, 4, 8, 16]);
    vstd::arithmetic::power2::lemma2_to64();
    assert(pow2(6) * 2 == 128 && pow2(8) * 4 == 1024 && pow2(10) * 8 == 8192 && pow2(12) * 16
        == 65536);
}

/// The band table entries: widths 6 to 12, steps 2 to 16.
pub proof fn lemma_band_consts_pub(bi: int)
    requires
        0 <= bi < 4,
    ensures
        BAND_BITS@[bi] == band_bits(bi),
        6 <= band_bits(bi) <= 12,
        band_step(bi) >= 2,
{
    lemma_band_consts(bi);
}

proof fn lemma_symbols_fit(w: Seq<u8>, bits: u32)
    requires
        1 <= bits <= 16,
    ensures
        all_fit(symbols_spec(w, bits), bits),
{
    lemma_groups_fit(bitstr8(w), bits as nat, symbols_spec(w, bits));
}

proof fn lemma_spoken_fit(syms: Seq<u16>, rt: Seq<u8>, bi: int)
    requires
        0 <= bi < 4,
        all_fit(syms, band_bits(bi)),
        codebook_ok(
            band_fwd(rt, bi),
            band_inv(rt, bi),
            LANGUAGE_TAG@,
            band_cb_seed_spec(rt, band_bits(bi)),
            pow2(band_bits(bi) as nat),
        ),
    ensures
        all_fit(map_spec(syms, band_fwd(rt, bi)), band_bits(bi)),
        forall|i: int| 0 <= i < syms.len() ==> (#[trigger] syms[i] as int) < band_fwd(rt, bi).len(),
{
    lemma_band_consts(bi);
    let n = pow2(band_bits(bi) as nat);
    lemma_codebook_inverse(
        band_fwd(rt, bi),
        band_inv(rt, bi),
        LANGUAGE_TAG@,
        band_cb_seed_spec(rt, band_bits(bi)),
        n,
    );
    assert forall|i: int| 0 <= i < syms.len() implies (#[trigger] syms[i] as int) < band_fwd(
        rt,
        bi,
    ).len() by {
        assert(crate::glyph::fits(syms[i], band_bits(bi)));
    }
    assert forall|i: int| 0 <= i < syms.len() implies crate::glyph::fits(
        #[trigger] map_spec(syms, band_fwd(rt, bi))[i],
        band_bits(bi),
    ) by {
        assert(crate::glyph::fits(syms[i], band_bits(bi)));
    }
}

proof fn lemma_quant_fit(d: Seq<u16>, bi: int)
    requires
        0 <= bi < 4,
        all_fit(d, band_bits(bi)),
    ensures
        fit_all(quotients(d, band_step(bi)), band_bits(bi) as nat),
        fit_all(residuals(d, band_step(bi)), band_bits(bi) as nat),
{
    lemma_band_consts(bi);
    let st = band_step(bi);
    assert forall|i: int| 0 <= i < d.len() implies (#[trigger] quotients(d, st)[i] as nat) < pow2(
        band_bits(bi) as nat,
    ) by {
        assert(crate::glyph::fits(d[i], band_bits(bi)));
        assert(d[i] / st <= d[i]);
    }
    assert forall|i: int| 0 <= i < d.len() implies (#[trigger] residuals(d, st)[i] as nat) < pow2(
        band_bits(bi) as nat,
    ) by {
        assert(d[i] % st < st);
    }
}

/// One band forward: the packed quotients (next band's bytes), the packed
/// residuals, and the A-view used.
pub fn band_forward(w: &[u8], rt: &[u8; 32], bi: usize) -> (r: (Vec<u8>, Vec<u8>, usize))
    requires
        bi < 4,
    ensures
        r.0@ == band_next(w@, rt@, bi as int),
        r.1@ == band_res(w@, rt@, bi as int),
        r.2 == band_dir_spec(rt@, bi as int),
        r.2 < 8,
{
    proof {
        lemma_band_consts(bi as int);
    }
    let bits = BAND_BITS[bi];
    let step = BAND_STEPS[bi];
    let cb_seed = band_cb_seed(rt, bits);
    let (fwd, inv) = codebook(&cb_seed, bits);
    let dir = band_dir(rt, bi);
    let dseed = band_dir_seed(rt, bits);
    let syms = symbols(w, bits);
    proof {
        lemma_symbols_fit(w@, bits);
        lemma_spoken_fit(syms@, rt@, bi as int);
    }
    let spoken = map_symbols(syms.as_slice(), fwd.as_slice());
    let directed = a_ap(dir, spoken.as_slice(), bits, &dseed, &QPRISM_TAG);
    proof {
        crate::prism::lemma_a_ap_fits(dir, spoken@, bits, band_order(rt@, bi as int, spoken@.len()));
        lemma_quant_fit(directed@, bi as int);
    }
    let (q, r) = quantize(directed.as_slice(), step);
    let r_bytes = pack(r.as_slice(), bits);
    let next = pack(q.as_slice(), bits);
    (next, r_bytes, dir)
}

/// Why a ladder archive could not be restored.
#[derive(Clone, Copy, Debug, PartialEq, Eq)]
pub enum LadderError {
    /// Shorter than the fixed header.
    TooShort,
    /// The magic bytes are not "OOL1".
    BadMagic,
    /// A band's quotient or residual stream held too few symbols.
    BandLength { band: usize, q: usize, r: usize, want: usize },
    /// The restored bytes are not as long as the header says.
    FinalLength { got: usize, want: usize },
    /// The restored bytes do not hash to the stored SHA-256.
    ShaMismatch,
}

pub open spec fn res_view(r: Result<Vec<u8>, LadderError>) -> Result<Seq<u8>, LadderError> {
    match r {
        Ok(v) => Ok(v@),
        Err(e) => Err(e),
    }
}

/// The directed stream rebuilt from decoded quotients and residuals.
pub open spec fn band_dir_dec(q: Seq<u16>, r: Seq<u16>, bi: int) -> Seq<u16> {
    dequantize_spec(q, r, band_step(bi))
}

/// The spoken stream rebuilt by undoing the band's A-view.
pub open spec fn band_spoken_dec(q: Seq<u16>, r: Seq<u16>, rt: Seq<u8>, bi: int) -> Seq<u16> {
    let d = band_dir_dec(q, r, bi);
    a_in_spec(band_dir_spec(rt, bi), d, band_bits(bi), band_order(rt, bi, d.len()))
}

/// One band backward.
pub open spec fn band_back_spec(
    w_next: Seq<u8>,
    r_bytes: Seq<u8>,
    rt: Seq<u8>,
    bi: int,
    nsym: nat,
    l_in: nat,
) -> Result<Seq<u8>, LadderError> {
    let bits = band_bits(bi);
    let q = unpack_spec(w_next, bits, nsym);
    let r = unpack_spec(r_bytes, bits, nsym);
    if q.len() != nsym || r.len() != nsym {
        Err(
            LadderError::BandLength {
                band: bi as usize,
                q: q.len() as usize,
                r: r.len() as usize,
                want: nsym as usize,
            },
        )
    } else {
        Ok(
            unsymbols_spec(
                map_spec(band_spoken_dec(q, r, rt, bi), band_inv(rt, bi)),
                bits,
                l_in,
            ),
        )
    }
}

/// Going back through band `bi` never indexes a codebook out of range.
pub open spec fn band_back_safe(
    w_next: Seq<u8>,
    r_bytes: Seq<u8>,
    rt: Seq<u8>,
    bi: int,
    nsym: nat,
) -> bool {
    let bits = band_bits(bi);
    let q = unpack_spec(w_next, bits, nsym);
    let r = unpack_spec(r_bytes, bits, nsym);
    (q.len() == nsym && r.len() == nsym) ==> {
        &&& forall|i: int| 0 <= i < nsym ==> #[trigger] q[i] * band_step(bi) + r[i] <= u16::MAX
        &&& all_fit(band_spoken_dec(q, r, rt, bi), bits)
    }
}

/// Whether `q[i] * step + r[i]` fits a `u16` at every position.
fn products_fit(q: &[u16], r: &[u16], step: u16) -> (ok: bool)
    requires
        q@.len() == r@.len(),
    ensures
        ok == (forall|i: int| 0 <= i < q@.len() ==> #[trigger] q@[i] * step + r@[i] <= u16::MAX),
{
    let mut k: usize = 0;
    while k < q.len()
        invariant
            k <= q@.len(),
            q@.len() == r@.len(),
            forall|i: int| 0 <= i < k ==> #[trigger] q@[i] * step + r@[i] <= u16::MAX,
        decreases q@.len() - k,
    {
        let a = q[k] as u64;
        let b = step as u64;
        assert(a * b <= 0xffff * 0xffff) by (nonlinear_arith)
            requires
                a <= 0xffff,
                b <= 0xffff,
        ;
        if a * b + (r[k] as u64) > 0xffff {
            return false;
        }
        k += 1;
    }
    true
}

/// Whether every symbol is below `n`.
fn all_below(d: &[u16], n: usize) -> (ok: bool)
    ensures
        ok == (forall|i: int| 0 <= i < d@.len() ==> (#[trigger] d@[i] as int) < n),
{
    let mut k: usize = 0;
    while k < d.len()
        invariant
            k <= d@.len(),
            forall|i: int| 0 <= i < k ==> (#[trigger] d@[i] as int) < n,
        decreases d@.len() - k,
    {
        if d[k] as usize >= n {
            return false;
        }
        k += 1;
    }
    true
}

/// One band backward: undo the quantisation, the A-view, the codebook and
/// the symbol cut.  `None` where a quotient and residual overflow a symbol or
/// an undone symbol falls outside the codebook.
pub fn band_backward(
    w_next: &[u8],
    r_bytes: &[u8],
    rt: &[u8; 32],
    bi: usize,
    nsym: usize,
    l_in: usize,
) -> (res: Option<Result<Vec<u8>, LadderError>>)
    requires
        bi < 4,
    ensures
        res is None <==> !band_back_safe(w_next@, r_bytes@, rt@, bi as int, nsym as nat),
        res matches Some(r) ==> res_view(r) == band_back_spec(
            w_next@,
            r_bytes@,
            rt@,
            bi as int,
            nsym as nat,
            l_in as nat,
        ),
{
    proof {
        lemma_band_consts(bi as int);
        lemma_pow2_nat_shift(BAND_BITS@[bi as int]);
    }
    let bits = BAND_BITS[bi];
    let step = BAND_STEPS[bi];
    let cb_seed = band_cb_seed(rt, bits);
    let (_fwd, inv) = codebook(&cb_seed, bits);
    let dir = band_dir(rt, bi);
    let dseed = band_dir_seed(rt, bits);
    let q = unpack(w_next, bits, nsym);
    let r = unpack(r_bytes, bits, nsym);
    if q.len() != nsym || r.len() != nsym {
        return Some(Err(LadderError::BandLength { band: bi, q: q.len(), r: r.len(), want: nsym }));
    }
    if !products_fit(q.as_slice(), r.as_slice(), step) {
        return None;
    }
    let directed = dequantize(q.as_slice(), r.as_slice(), step);
    let spoken = a_in(dir, directed.as_slice(), bits, &dseed, &QPRISM_TAG);
    if !all_below(spoken.as_slice(), inv.len()) {
        proof {
            let i = choose|i: int| 0 <= i < spoken@.len() && !((spoken@[i] as int) < inv@.len());
            assert(!crate::glyph::fits(spoken@[i], bits));
        }
        return None;
    }
    proof {
        assert forall|i: int| 0 <= i < spoken@.len() implies crate::glyph::fits(#[trigger] spoken@[i], bits) by {
            assert((spoken@[i] as int) < inv@.len());
        }
    }
    let syms = map_symbols(spoken.as_slice(), inv.as_slice());
    Some(Ok(unsymbols(syms.as_slice(), bits, l_in)))
}

/// One band undone: its packed quotients and residuals give its working
/// bytes back, and going back through the band is safe.
#[verifier::rlimit(50)]
pub proof fn lemma_band_roundtrip(w: Seq<u8>, rt: Seq<u8>, bi: int)
    requires
        0 <= bi < 4,
        w.len() * 8 + 16 <= usize::MAX,
    ensures
        band_back_safe(
            band_next(w, rt, bi),
            band_res(w, rt, bi),
            rt,
            bi,
            sym_count_spec(w.len(), band_bits(bi) as nat),
        ),
        band_back_spec(
            band_next(w, rt, bi),
            band_res(w, rt, bi),
            rt,
            bi,
            sym_count_spec(w.len(), band_bits(bi) as nat),
            w.len(),
        ) == Ok::<Seq<u8>, LadderError>(w),
        band_next(w, rt, bi).len() == pack_len_spec(
            sym_count_spec(w.len(), band_bits(bi) as nat),
            band_bits(bi) as nat,
        ),
        band_res(w, rt, bi).len() == pack_len_spec(
            sym_count_spec(w.len(), band_bits(bi) as nat),
            band_bits(bi) as nat,
        ),
{
    lemma_band_consts(bi);
    let bits = band_bits(bi);
    let step = band_step(bi);
    let nsym = sym_count_spec(w.len(), bits as nat);
    let syms = symbols_spec(w, bits);
    let spoken = map_spec(syms, band_fwd(rt, bi));
    let o = band_order(rt, bi, spoken.len());
    let dir = band_dir_spec(rt, bi);
    let directed = a_ap_spec(dir, spoken, bits, o);
    lemma_band_front(w, rt, bi);
    let q = quotients(directed, step);
    let r = residuals(directed, step);
    assert(unpack_spec(pack_spec(q, bits), bits, nsym) == q && unpack_spec(pack_spec(r, bits), bits, nsym)
        == r && pack_spec(q, bits).len() == pack_len_spec(nsym, bits as nat) && pack_spec(r, bits).len()
        == pack_len_spec(nsym, bits as nat)) by {
        lemma_quant_fit(directed, bi);
        lemma_pack_roundtrip(q, bits);
        lemma_pack_roundtrip(r, bits);
    }
    assert(band_dir_dec(q, r, bi) == directed) by {
        lemma_dequantize_quantize(directed, step);
    }
    assert(band_spoken_dec(q, r, rt, bi) == spoken);
    assert forall|i: int| 0 <= i < nsym implies #[trigger] q[i] * step + r[i] <= u16::MAX by {
        lemma_fundamental_div_mod(directed[i] as int, step as int);
    }
}

/// The forward half of a band: symbols, spoken symbols and the A-view, each
/// undone by its inverse.
proof fn lemma_band_front(w: Seq<u8>, rt: Seq<u8>, bi: int)
    requires
        0 <= bi < 4,
        w.len() * 8 + 16 <= usize::MAX,
    ensures
        ({
            let bits = band_bits(bi);
            let syms = symbols_spec(w, bits);
            let spoken = map_spec(syms, band_fwd(rt, bi));
            let o = band_order(rt, bi, spoken.len());
            let directed = a_ap_spec(band_dir_spec(rt, bi), spoken, bits, o);
            &&& unsymbols_spec(syms, bits, w.len()) == w
            &&& syms.len() == sym_count_spec(w.len(), bits as nat)
            &&& map_spec(spoken, band_inv(rt, bi)) == syms
            &&& all_fit(spoken, bits)
            &&& all_fit(directed, bits)
            &&& directed.len() == spoken.len()
            &&& spoken.len() == syms.len()
            &&& a_in_spec(band_dir_spec(rt, bi), directed, bits, o) == spoken
        }),
{
    lemma_band_consts(bi);
    let bits = band_bits(bi);
    let nsym = sym_count_spec(w.len(), bits as nat);
    let syms = symbols_spec(w, bits);
    let fwd = band_fwd(rt, bi);
    let inv = band_inv(rt, bi);
    assert(unsymbols_spec(syms, bits, w.len()) == w && syms.len() == nsym && all_fit(syms, bits)
        && syms.len() <= usize::MAX) by {
        lemma_symbols_roundtrip(w, bits);
        lemma_symbols_fit(w, bits);
        lemma_sym_count_le(w.len(), bits as nat);
    }
    let spoken = map_spec(syms, fwd);
    assert(all_fit(spoken, bits) && map_spec(spoken, inv) == syms) by {
        lemma_codebook_spec_ok(LANGUAGE_TAG@, band_cb_seed_spec(rt, bits), pow2(bits as nat));
        lemma_spoken_fit(syms, rt, bi);
        lemma_codebook_inverse(fwd, inv, LANGUAGE_TAG@, band_cb_seed_spec(rt, bits), pow2(bits as nat));
        lemma_map_inverse(syms, fwd, inv);
    }
    let o = band_order(rt, bi, spoken.len());
    let dir = band_dir_spec(rt, bi);
    let directed = a_ap_spec(dir, spoken, bits, o);
    assert(all_fit(directed, bits) && directed.len() == spoken.len() && a_in_spec(
        dir,
        directed,
        bits,
        o,
    ) == spoken) by {
        lemma_seeded_order_perm(
            QPRISM_TAG@,
            band_dir_seed_spec(rt, bits),
            (spoken.len() / 257) as nat,
        );
        crate::prism::lemma_a_ap_fits(dir, spoken, bits, o);
        lemma_a_roundtrip(dir, spoken, bits, o);
    }
}

/// Symbols of `l` bytes are no more than the bits of them.
pub proof fn lemma_sym_count_le(l: nat, bits: nat)
    requires
        6 <= bits <= 16,
    ensures
        sym_count_spec(l, bits) <= l * 8 + bits,
        sym_count_spec(l, bits) * bits <= l * 8 + bits - 1,
        pack_len_spec(sym_count_spec(l, bits), bits) <= l + 2,
{
    let c = sym_count_spec(l, bits);
    vstd::arithmetic::div_mod::lemma_fundamental_div_mod((l * 8 + bits - 1) as int, bits as int);
    vstd::arithmetic::div_mod::lemma_mod_pos_bound((l * 8 + bits - 1) as int, bits as int);
    assert(c * bits <= l * 8 + bits - 1) by (nonlinear_arith)
        requires
            (l * 8 + bits - 1) as int == bits * (c as int) + ((l * 8 + bits - 1) as int) % (bits as int),
            ((l * 8 + bits - 1) as int) % (bits as int) >= 0,
    ;
    assert(c <= c * bits) by (nonlinear_arith)
        requires
            bits >= 1,
    ;
    vstd::arithmetic::div_mod::lemma_div_is_ordered((c * bits + 7) as int, (l * 8 + 22) as int, 8);
    assert((l * 8 + 22) / 8 == l + 2) by {
        vstd::arithmetic::div_mod::lemma_fundamental_div_mod_converse((l * 8 + 22) as int, 8, (l + 2) as int, 6);
    }
}

} // verus!
