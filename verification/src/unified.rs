//! The unified trainer's pieces: length-prefixed field encodings and leaf
//! digests, order-free epoch roots, the genesis language (a seeded 1024-glyph
//! codebook and its digest) and the group gate over glyph views.
use vstd::prelude::*;
use crate::fold::{fold_digest, fold_with_prefix, leaf_views, lemma_fold_order_free};
use crate::glyph::{
    all_fit, g_n, g_n_spec, g_q, g_q_spec, g_r, gview, gview_spec, lemma_gview_fits, revb,
    revb_spec,
};
use crate::bitpack::{fit_all, pack, pack_spec};
use crate::prism::{codebook_fwd, codebook_inv, codebook_ok, seeded_codebook};
use crate::sha::{hex_ascii, hex_bytes, sha256, spec_sha256};
use crate::wire::{
    append_bytes, lemma_u32_roundtrip, lemma_u64_roundtrip, push_u16_le,
    push_u32_le, push_u64_le, u16_le, u32_le, u64_le,
};
use vstd::arithmetic::power2::pow2;

verus! {

/// "UNIFIED-LEAF-V1\0"
pub const LEAF_TAG: [u8; 16] = [
    0x55, 0x4e, 0x49, 0x46, 0x49, 0x45, 0x44, 0x2d, 0x4c, 0x45, 0x41, 0x46, 0x2d, 0x56, 0x31, 0x00,
];

/// "UNIFIED-OMEGA-V1\0"
pub const OMEGA_TAG: [u8; 17] = [
    0x55, 0x4e, 0x49, 0x46, 0x49, 0x45, 0x44, 0x2d, 0x4f, 0x4d, 0x45, 0x47, 0x41, 0x2d, 0x56, 0x31,
    0x00,
];

/// "LANGUAGE_GENESIS_V1|"
pub const GENESIS_TAG: [u8; 20] = [
    0x4c, 0x41, 0x4e, 0x47, 0x55, 0x41, 0x47, 0x45, 0x5f, 0x47, 0x45, 0x4e, 0x45, 0x53, 0x49, 0x53,
    0x5f, 0x56, 0x31, 0x7c,
];

/// "QPRISM_GLYPH_V3|257|"
pub const GLYPH_QPRISM_TAG: [u8; 20] = [
    0x51, 0x50, 0x52, 0x49, 0x53, 0x4d, 0x5f, 0x47, 0x4c, 0x59, 0x50, 0x48, 0x5f, 0x56, 0x33, 0x7c,
    0x32, 0x35, 0x37, 0x7c,
];

/// "KROOT|"
pub const KROOT_TAG: [u8; 6] = [0x4b, 0x52, 0x4f, 0x4f, 0x54, 0x7c];

/// Glyph width of the unified languages.
pub const BITS: u32 = 10;

// ---------------------------------------------------------------------------
// Field encodings and leaves.
// ---------------------------------------------------------------------------
pub open spec fn field_enc(k: Seq<u8>, v: Seq<u8>) -> Seq<u8> {
    u32_le(k.len() as u32) + k + u32_le(v.len() as u32) + v
}

/// Each (key, value) as its `u32` length and bytes, in order.
pub open spec fn cenc_spec(fs: Seq<(Seq<u8>, Seq<u8>)>) -> Seq<u8>
    decreases fs.len(),
{
    if fs.len() == 0 {
        Seq::empty()
    } else {
        field_enc(fs[0].0, fs[0].1) + cenc_spec(fs.drop_first())
    }
}

pub open spec fn fields_view(f: Seq<(Vec<u8>, Vec<u8>)>) -> Seq<(Seq<u8>, Seq<u8>)> {
    Seq::new(f.len(), |i: int| (f[i].0@, f[i].1@))
}

/// The length-prefixed encoding of the fields `f`.
pub fn cenc(f: &[(Vec<u8>, Vec<u8>)]) -> (o: Vec<u8>)
    ensures
        o@ == cenc_spec(fields_view(f@)),
{
    let ghost fv = fields_view(f@);
    let mut o: Vec<u8> = Vec::new();
    let mut i: usize = 0;
    assert(fv.skip(0) == fv);
    while i < f.len()
        invariant
            i <= f@.len(),
            fv == fields_view(f@),
            o@ + cenc_spec(fv.skip(i as int)) == cenc_spec(fv),
        decreases f@.len() - i,
    {
        let ghost o0 = o@;
        let k = &f[i].0;
        let v = &f[i].1;
        push_u32_le(&mut o, k.len() as u32);
        append_bytes(&mut o, k.as_slice());
        push_u32_le(&mut o, v.len() as u32);
        append_bytes(&mut o, v.as_slice());
        proof {
            let t = fv.skip(i as int);
            assert(t[0] == (k@, v@));
            assert(t.drop_first() == fv.skip(i + 1));
            assert(o@ == o0 + field_enc(k@, v@));
            assert(o@ + cenc_spec(fv.skip(i + 1)) == o0 + cenc_spec(t));
        }
        i += 1;
    }
    assert(fv.skip(f@.len() as int) =~= Seq::<(Seq<u8>, Seq<u8>)>::empty());
    assert(o@ + Seq::<u8>::empty() == o@);
    o
}

pub open spec fn fields_fit(fs: Seq<(Seq<u8>, Seq<u8>)>) -> bool {
    forall|i: int| 0 <= i < fs.len() ==> (#[trigger] fs[i]).0.len() <= u32::MAX && fs[i].1.len() <= u32::MAX
}

/// Different fields never encode alike: the length prefixes fix where each
/// key and value ends.
pub proof fn lemma_cenc_injective(f1: Seq<(Seq<u8>, Seq<u8>)>, f2: Seq<(Seq<u8>, Seq<u8>)>)
    requires
        fields_fit(f1),
        fields_fit(f2),
        cenc_spec(f1) == cenc_spec(f2),
    ensures
        f1 == f2,
    decreases f1.len(),
{
    if f1.len() == 0 {
        if f2.len() > 0 {
            assert(cenc_spec(f2).len() >= 8);
        }
        assert(f1 =~= f2);
    } else {
        if f2.len() == 0 {
            assert(cenc_spec(f1).len() >= 8);
        }
        let (k1, v1) = f1[0];
        let (k2, v2) = f2[0];
        let r1 = cenc_spec(f1.drop_first());
        let r2 = cenc_spec(f2.drop_first());
        let a = cenc_spec(f1);
        assert(a == Seq::<u8>::empty() + u32_le(k1.len() as u32) + (k1 + u32_le(v1.len() as u32) + v1 + r1));
        assert(a == Seq::<u8>::empty() + u32_le(k2.len() as u32) + (k2 + u32_le(v2.len() as u32) + v2 + r2));
        lemma_u32_roundtrip(k1.len() as u32, Seq::empty(), k1 + u32_le(v1.len() as u32) + v1 + r1);
        lemma_u32_roundtrip(k2.len() as u32, Seq::empty(), k2 + u32_le(v2.len() as u32) + v2 + r2);
        assert(k1.len() == k2.len());
        assert(k1 =~= a.subrange(4, 4 + k1.len() as int));
        assert(k2 =~= a.subrange(4, 4 + k2.len() as int));
        let p1 = u32_le(k1.len() as u32) + k1;
        assert(a == p1 + u32_le(v1.len() as u32) + (v1 + r1));
        assert(a == p1 + u32_le(v2.len() as u32) + (v2 + r2));
        lemma_u32_roundtrip(v1.len() as u32, p1, v1 + r1);
        lemma_u32_roundtrip(v2.len() as u32, p1, v2 + r2);
        assert(v1.len() == v2.len());
        let o = 8 + k1.len() as int;
        assert(v1 =~= a.subrange(o, o + v1.len() as int));
        assert(v2 =~= a.subrange(o, o + v2.len() as int));
        assert(r1 =~= a.skip(o + v1.len() as int));
        assert(r2 =~= a.skip(o + v2.len() as int));
        assert(fields_fit(f1.drop_first()));
        assert(fields_fit(f2.drop_first()));
        lemma_cenc_injective(f1.drop_first(), f2.drop_first());
        assert(f1 =~= f2) by {
            assert(f1[0] == f2[0]);
            assert forall|i: int| 0 < i < f1.len() implies f1[i] == f2[i] by {
                assert(f1[i] == f1.drop_first()[i - 1]);
                assert(f2[i] == f2.drop_first()[i - 1]);
            }
        }
    }
}

pub open spec fn leaf_spec(fs: Seq<(Seq<u8>, Seq<u8>)>) -> Seq<u8> {
    hex_ascii(spec_sha256(LEAF_TAG@ + cenc_spec(fs)))
}

/// The leaf digest of the fields `f`.
pub fn leaf(f: &[(Vec<u8>, Vec<u8>)]) -> (h: Vec<u8>)
    ensures
        h@ == leaf_spec(fields_view(f@)),
{
    let mut m: Vec<u8> = Vec::new();
    append_bytes(&mut m, &LEAF_TAG);
    let c = cenc(f);
    append_bytes(&mut m, c.as_slice());
    hex_bytes(&sha256(m.as_slice()))
}

// ---------------------------------------------------------------------------
// Epoch roots.
// ---------------------------------------------------------------------------
pub open spec fn epoch_prefix(e: u64, parent: Seq<u8>) -> Seq<u8> {
    OMEGA_TAG@ + u64_le(e) + u32_le(parent.len() as u32) + parent
}

pub open spec fn epoch_root_spec(e: u64, parent: Seq<u8>, leaves: Seq<Seq<u8>>) -> Seq<u8> {
    fold_digest(epoch_prefix(e, parent), leaves)
}

/// The root of epoch `e` over `leaves` (sorted, length-framed) under
/// `parent`.
pub fn epoch_root(e: u64, parent: &[u8], leaves: &[Vec<u8>]) -> (h: Vec<u8>)
    ensures
        h@ == epoch_root_spec(e, parent@, leaf_views(leaves@)),
{
    let mut m: Vec<u8> = Vec::new();
    append_bytes(&mut m, &OMEGA_TAG);
    push_u64_le(&mut m, e);
    push_u32_le(&mut m, parent.len() as u32);
    append_bytes(&mut m, parent);
    fold_with_prefix(m.as_slice(), leaves)
}

/// Listing the leaves in another order gives the same epoch root.
pub proof fn lemma_epoch_root_order_free(
    e: u64,
    parent: Seq<u8>,
    l1: Seq<Seq<u8>>,
    l2: Seq<Seq<u8>>,
)
    requires
        l1.to_multiset() == l2.to_multiset(),
    ensures
        epoch_root_spec(e, parent, l1) == epoch_root_spec(e, parent, l2),
{
    lemma_fold_order_free(epoch_prefix(e, parent), l1, l2);
}

/// Different epochs hash different preimages.
pub proof fn lemma_epoch_separated(e1: u64, e2: u64, parent: Seq<u8>)
    requires
        e1 != e2,
    ensures
        epoch_prefix(e1, parent) != epoch_prefix(e2, parent),
{
    let t1 = u32_le(parent.len() as u32) + parent;
    assert(epoch_prefix(e1, parent) == OMEGA_TAG@ + u64_le(e1) + t1);
    assert(epoch_prefix(e2, parent) == OMEGA_TAG@ + u64_le(e2) + t1);
    lemma_u64_roundtrip(e1, OMEGA_TAG@, t1);
    lemma_u64_roundtrip(e2, OMEGA_TAG@, t1);
}

/// The first 16 hex digits of SHA-256 of `l`.
pub fn pid16(l: &[u8]) -> (p: Vec<u8>)
    ensures
        p@ == hex_ascii(spec_sha256(l@)).take(16),
{
    let mut h = hex_bytes(&sha256(l));
    h.truncate(16);
    h
}

// ---------------------------------------------------------------------------
// Genesis language.
// ---------------------------------------------------------------------------
pub open spec fn u16s_le(p: Seq<u16>) -> Seq<u8>
    decreases p.len(),
{
    if p.len() == 0 {
        Seq::empty()
    } else {
        u16s_le(p.drop_last()) + u16_le(p.last())
    }
}

/// The body's language: forward and inverse tables of the seeded codebook
/// of `2^bits` glyphs, and the digest of the forward table (LE `u16`s).
pub fn codebook(bsha: &[u8; 32], bits: u32) -> (r: (Vec<u16>, Vec<u16>, Vec<u8>))
    requires
        bits <= 16,
    ensures
        r.0@ == codebook_fwd(GENESIS_TAG@, bsha@, pow2(bits as nat)),
        r.1@ == codebook_inv(GENESIS_TAG@, bsha@, pow2(bits as nat)),
        codebook_ok(r.0@, r.1@, GENESIS_TAG@, bsha@, pow2(bits as nat)),
        r.2@ == hex_ascii(spec_sha256(u16s_le(r.0@))),
{
    let (p, inv) = seeded_codebook(&GENESIS_TAG, bsha, bits);
    let mut pb: Vec<u8> = Vec::new();
    let mut k: usize = 0;
    while k < p.len()
        invariant
            k <= p@.len(),
            pb@ == u16s_le(p@.take(k as int)),
        decreases p@.len() - k,
    {
        push_u16_le(&mut pb, p[k]);
        proof {
            assert(p@.take(k + 1).drop_last() == p@.take(k as int));
        }
        k += 1;
    }
    assert(p@.take(p@.len() as int) == p@);
    let cb = hex_bytes(&sha256(pb.as_slice()));
    (p, inv, cb)
}

// ---------------------------------------------------------------------------
// The group gate.
// ---------------------------------------------------------------------------
/// What the group gate found: the square and commutation laws of the three
/// glyph involutions, how many of the eight views differ, and whether the
/// full view is the reversed, bit-reversed stream.
pub struct GateReport {
    pub rr: bool,
    pub nn: bool,
    pub qq: bool,
    pub rn: bool,
    pub rq: bool,
    pub nq: bool,
    pub distinct: usize,
    pub rnq: bool,
    pub ok: bool,
}

/// Digest of view `m` of `d`.
pub open spec fn view_hex(d: Seq<u16>, m: u8, bits: u32) -> Seq<u8> {
    hex_ascii(spec_sha256(pack_spec(gview_spec(d, m, bits), bits)))
}

/// Number of entries of `hs` not equal to any earlier entry.
pub open spec fn distinct_count(hs: Seq<Seq<u8>>, k: int) -> nat
    decreases k,
{
    if k <= 0 {
        0
    } else if exists|j: int| 0 <= j < k - 1 && #[trigger] hs[j] == hs[k - 1] {
        distinct_count(hs, k - 1)
    } else {
        distinct_count(hs, k - 1) + 1
    }
}

pub open spec fn view_hexes(d: Seq<u16>, bits: u32) -> Seq<Seq<u8>> {
    Seq::new(8, |m: int| view_hex(d, m as u8, bits))
}

/// The reversed stream with each glyph bit-reversed.
pub open spec fn total_rev(d: Seq<u16>, bits: u32) -> Seq<u16> {
    Seq::new(d.len(), |i: int| revb_spec(d[d.len() - 1 - i], bits))
}

pub open spec fn gate_spec(d: Seq<u16>, bits: u32) -> GateReport {
    let rr = d.reverse().reverse() == d;
    let nn = g_n_spec(g_n_spec(d, bits), bits) == d;
    let qq = g_q_spec(g_q_spec(d, bits), bits) == d;
    let rn = g_n_spec(d, bits).reverse() == g_n_spec(d.reverse(), bits);
    let rq = g_q_spec(d, bits).reverse() == g_q_spec(d.reverse(), bits);
    let nq = g_n_spec(g_q_spec(d, bits), bits) == g_q_spec(g_n_spec(d, bits), bits);
    let distinct = distinct_count(view_hexes(d, bits), 8) as usize;
    let rnq = gview_spec(d, 7, bits) == total_rev(d, bits);
    GateReport {
        rr,
        nn,
        qq,
        rn,
        rq,
        nq,
        distinct,
        rnq,
        ok: rr && nn && qq && rn && rq && nq && distinct == 8 && rnq,
    }
}

/// Whether two glyph streams are equal.
pub fn glyphs_eq(a: &[u16], b: &[u16]) -> (r: bool)
    ensures
        r == (a@ == b@),
{
    if a.len() != b.len() {
        return false;
    }
    let mut k: usize = 0;
    while k < a.len()
        invariant
            k <= a@.len(),
            a@.len() == b@.len(),
            forall|t: int| 0 <= t < k ==> a@[t] == b@[t],
        decreases a@.len() - k,
    {
        if a[k] != b[k] {
            return false;
        }
        k += 1;
    }
    assert(a@ =~= b@);
    true
}

/// Whether two byte strings are equal.
pub fn bytes_eq(a: &[u8], b: &[u8]) -> (r: bool)
    ensures
        r == (a@ == b@),
{
    crate::expand::bytes_eq(a, b)
}

/// Check the glyph group laws and view distinctness on `d`.
pub fn group_gate(d: &[u16], bits: u32) -> (r: GateReport)
    requires
        2 <= bits <= 16,
        bits % 2 == 0,
        all_fit(d@, bits),
    ensures
        r == gate_spec(d@, bits),
        r.ok <==> r.distinct == 8,
{
    proof {
        lemma_gate_identities(d@, bits);
    }
    let r1 = g_r(d);
    let rr = glyphs_eq(g_r(r1.as_slice()).as_slice(), d);
    let n1 = g_n(d, bits);
    let nn = glyphs_eq(g_n(n1.as_slice(), bits).as_slice(), d);
    let q1 = g_q(d, bits);
    let qq = glyphs_eq(g_q(q1.as_slice(), bits).as_slice(), d);
    let rn = glyphs_eq(g_r(n1.as_slice()).as_slice(), g_n(r1.as_slice(), bits).as_slice());
    let rq = glyphs_eq(g_r(q1.as_slice()).as_slice(), g_q(r1.as_slice(), bits).as_slice());
    let nq = glyphs_eq(g_n(q1.as_slice(), bits).as_slice(), g_q(n1.as_slice(), bits).as_slice());
    let ghost hs = view_hexes(d@, bits);
    let mut hexes: Vec<Vec<u8>> = Vec::new();
    let mut distinct: usize = 0;
    let mut m: u8 = 0;
    while m < 8
        invariant
            m <= 8,
            2 <= bits <= 16,
            bits % 2 == 0,
            all_fit(d@, bits),
            hs == view_hexes(d@, bits),
            hexes@.len() == m,
            forall|j: int| 0 <= j < m ==> (#[trigger] hexes@[j])@ == hs[j],
            distinct == distinct_count(hs, m as int),
            distinct <= m,
        decreases 8 - m,
    {
        let v = gview(d, m, bits);
        proof {
            lemma_gview_fits(d@, m, bits);
            assert(fit_all(v@, bits as nat)) by {
                assert forall|i: int| 0 <= i < v@.len() implies (#[trigger] v@[i] as nat) < pow2(bits as nat) by {
                    assert(crate::glyph::fits(v@[i], bits));
                }
            }
        }
        let h = hex_bytes(&sha256(pack(v.as_slice(), bits).as_slice()));
        let mut seen = false;
        let mut j: usize = 0;
        while j < hexes.len()
            invariant
                j <= hexes@.len(),
                hexes@.len() == m,
                forall|t: int| 0 <= t < m ==> (#[trigger] hexes@[t])@ == hs[t],
                h@ == hs[m as int],
                seen == exists|t: int| 0 <= t < j && #[trigger] hs[t] == hs[m as int],
            decreases hexes@.len() - j,
        {
            if bytes_eq(hexes[j].as_slice(), h.as_slice()) {
                seen = true;
            }
            j += 1;
        }
        if !seen {
            distinct += 1;
        }
        hexes.push(h);
        m += 1;
    }
    let full = gview(d, 7, bits);
    let mut tot: Vec<u16> = Vec::new();
    let mut k: usize = d.len();
    while k > 0
        invariant
            k <= d@.len(),
            bits <= 16,
            tot@ =~= total_rev(d@, bits).take((d@.len() - k) as int),
        decreases k,
    {
        k -= 1;
        tot.push(revb(d[k], bits));
    }
    assert(total_rev(d@, bits).take(d@.len() as int) =~= total_rev(d@, bits));
    let rnq = glyphs_eq(full.as_slice(), tot.as_slice());
    let ok = rr && nn && qq && rn && rq && nq && distinct == 8 && rnq;
    GateReport { rr, nn, qq, rn, rq, nq, distinct, rnq, ok }
}

/// Counting the distinct entries adds at most one per entry.
proof fn lemma_distinct_step(hs: Seq<Seq<u8>>, k: int)
    requires
        k >= 2,
        hs[1] == hs[0],
    ensures
        distinct_count(hs, k) <= k - 1,
    decreases k,
{
    if k == 2 {
        assert(hs[0] == hs[1]);
        assert(distinct_count(hs, 1) == 0 + 1) by {
            assert(distinct_count(hs, 0) == 0);
        }
    } else {
        lemma_distinct_step(hs, k - 1);
    }
}

/// Which transforms views 0, 1 and 7 apply.
proof fn lemma_view_masks()
    by (bit_vector)
    ensures
        0u8 & 1u8 == 0 && 0u8 & 2u8 == 0 && 0u8 & 4u8 == 0,
        1u8 & 1u8 != 0 && 1u8 & 2u8 == 0 && 1u8 & 4u8 == 0,
        7u8 & 1u8 != 0 && 7u8 & 2u8 != 0 && 7u8 & 4u8 != 0,
{
}

/// On symbols within an even width, each identity in the report is true:
/// reversal and half swap undo themselves, reversing each half twice gives
/// the symbol back, the three transforms commute, and view 7 is the stream
/// reversed with every symbol bit-reversed.  So `ok` comes down to the eight
/// views being distinct.
pub proof fn lemma_gate_identities(d: Seq<u16>, bits: u32)
    requires
        2 <= bits <= 16,
        bits % 2 == 0,
        all_fit(d, bits),
    ensures
        gate_spec(d, bits).rr,
        gate_spec(d, bits).nn,
        gate_spec(d, bits).qq,
        gate_spec(d, bits).rn,
        gate_spec(d, bits).rq,
        gate_spec(d, bits).nq,
        gate_spec(d, bits).rnq,
        gate_spec(d, bits).ok <==> gate_spec(d, bits).distinct == 8,
{
    let h = bits / 2;
    lemma_view_masks();
    crate::glyph::lemma_g_r_involution(d);
    crate::glyph::lemma_g_n_involution(d, bits);
    assert forall|i: int| 0 <= i < d.len() implies ((d[i] as u32) < (1u32 << bits)) by {
        crate::glyph::lemma_fits_shift(d[i], bits);
    }
    let q = g_q_spec(d, bits);
    assert forall|i: int| 0 <= i < d.len() implies #[trigger] g_q_spec(q, bits)[i] == d[i] by {
        crate::glyph::lemma_view_identities(d[i], h);
    }
    assert(g_q_spec(q, bits) =~= d);
    assert(g_n_spec(d, bits).reverse() =~= g_n_spec(d.reverse(), bits));
    assert(g_q_spec(d, bits).reverse() =~= g_q_spec(d.reverse(), bits));
    assert forall|i: int| 0 <= i < d.len() implies #[trigger] g_n_spec(q, bits)[i] == g_q_spec(
        g_n_spec(d, bits),
        bits,
    )[i] by {
        crate::glyph::lemma_view_identities(d[i], h);
    }
    assert(g_n_spec(q, bits) =~= g_q_spec(g_n_spec(d, bits), bits));
    let v7 = gview_spec(d, 7, bits);
    assert(v7 == g_q_spec(g_n_spec(d.reverse(), bits), bits));
    assert forall|i: int| 0 <= i < d.len() implies #[trigger] v7[i] == total_rev(d, bits)[i] by {
        let g = d[d.len() - 1 - i];
        assert((g as u32) < (1u32 << bits));
        crate::glyph::lemma_view_identities(g, h);
    }
    assert(v7 =~= total_rev(d, bits));
}

/// The group gate refuses a glyph stream that reads the same backwards
/// (a constant stream among them): its reversed view repeats the plain one.
pub proof fn lemma_gate_refuses_palindrome(d: Seq<u16>, bits: u32)
    requires
        d.reverse() == d,
    ensures
        !gate_spec(d, bits).ok,
{
    lemma_view_masks();
    let hs = view_hexes(d, bits);
    assert(gview_spec(d, 1, bits) == d.reverse());
    assert(gview_spec(d, 0, bits) == d);
    assert(hs[1] == hs[0]);
    lemma_distinct_step(hs, 8);
}

} // verus!
