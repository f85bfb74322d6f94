//! The ladder archive: "OOL1", the input length, its SHA-256, five
//! (code length, raw length) pairs, then the five code streams: the four
//! bands' packed residuals and the last band's packed quotients, each coded
//! under the order-0..4 mixing model.
use vstd::prelude::*;
use crate::bitmodel::{data_stream, dec_data};
use crate::coder::dec_init;
use crate::mix::{mix_init, Model};
use crate::sha::{hex_ascii, hex_bytes, sha256, spec_sha256};
use crate::wire::{append_bytes, push_u64_le, u64_le, le_u64_at, read_u64_le, lemma_u64_roundtrip, slice_range};
use crate::fold::{fold_digest, fold_with_prefix, leaf_views};
use crate::bitpack::{pack_len_spec, sym_count_spec, sym_count, pack_len};
use crate::ladder::{
    band_backward, band_back_safe, band_back_spec, band_bits, band_forward, band_next, band_res,
    band_dir_spec, ladder_root, lemma_band_roundtrip, res_view, root, sgram_compress,
    lemma_sym_count_le, lemma_band_consts_pub,
    sgram_decompress, LadderError, MAGIC, BAND_BITS,
};

verus! {

/// "OMNIBIT-FLOOR-V1"
pub const FLOOR_DOMAIN: [u8; 16] = [
    0x4f, 0x4d, 0x4e, 0x49, 0x42, 0x49, 0x54, 0x2d, 0x46, 0x4c, 0x4f, 0x4f, 0x52, 0x2d, 0x56, 0x31,
];

/// "OMNIBIT-UNIFIED-OMEGA-V1"
pub const UNIFIED_DOMAIN: [u8; 24] = [
    0x4f, 0x4d, 0x4e, 0x49, 0x42, 0x49, 0x54, 0x2d, 0x55, 0x4e, 0x49, 0x46, 0x49, 0x45, 0x44, 0x2d,
    0x4f, 0x4d, 0x45, 0x47, 0x41, 0x2d, 0x56, 0x31,
];

/// Bytes before the code streams: magic, length, digest, ten length words.
pub const HEADER_LEN: usize = 124;

// ---------------------------------------------------------------------------
// Folds.
// ---------------------------------------------------------------------------
/// `fold(domain, parent, leaves)`: the commitment after `domain`, a zero
/// byte and `parent`.
pub open spec fn fold_spec(domain: Seq<u8>, parent: Seq<u8>, leaves: Seq<Seq<u8>>) -> Seq<u8> {
    fold_digest(domain + seq![0u8] + parent, leaves)
}

/// Hex of SHA-256 over `domain`, 0, `parent` and the sorted, length-framed
/// leaves.
pub fn fold(domain: &[u8], parent: &[u8], leaves: &[Vec<u8>]) -> (h: Vec<u8>)
    ensures
        h@ == fold_spec(domain@, parent@, leaf_views(leaves@)),
{
    let mut prefix: Vec<u8> = Vec::new();
    append_bytes(&mut prefix, domain);
    prefix.push(0u8);
    append_bytes(&mut prefix, parent);
    proof {
        assert(prefix@ == domain@ + seq![0u8] + parent@);
    }
    fold_with_prefix(prefix.as_slice(), leaves)
}

// ---------------------------------------------------------------------------
// The archive.
// ---------------------------------------------------------------------------
/// The working bytes entering band `k` (band 0 gets the input).
pub open spec fn ladder_w(x: Seq<u8>, rt: Seq<u8>, k: nat) -> Seq<u8>
    decreases k,
{
    if k == 0 {
        x
    } else {
        band_next(ladder_w(x, rt, (k - 1) as nat), rt, k - 1)
    }
}

/// Raw stream `i`: band `i`'s packed residuals, or (for 4) the last packed
/// quotients.
pub open spec fn seg_raw(x: Seq<u8>, rt: Seq<u8>, i: int) -> Seq<u8> {
    if i < 4 {
        band_res(ladder_w(x, rt, i as nat), rt, i)
    } else {
        ladder_w(x, rt, 4)
    }
}

#[verifier::opaque]
pub open spec fn seg_comp(x: Seq<u8>, rt: Seq<u8>, i: int) -> Seq<u8> {
    data_stream::<Model>(mix_init(), seg_raw(x, rt, i))
}

pub open spec fn seg_comps(x: Seq<u8>, rt: Seq<u8>) -> Seq<Seq<u8>> {
    Seq::new(5, |i: int| seg_comp(x, rt, i))
}

/// The ten header words: code length and raw length of each stream.
pub open spec fn meta_words(x: Seq<u8>, rt: Seq<u8>) -> Seq<u64> {
    Seq::new(
        10,
        |j: int|
            if j % 2 == 0 {
                seg_comp(x, rt, j / 2).len() as u64
            } else {
                seg_raw(x, rt, j / 2).len() as u64
            },
    )
}

pub open spec fn u64s_le(ws: Seq<u64>) -> Seq<u8>
    decreases ws.len(),
{
    if ws.len() == 0 {
        Seq::empty()
    } else {
        u64s_le(ws.drop_last()) + u64_le(ws.last())
    }
}

pub open spec fn concat(cs: Seq<Seq<u8>>) -> Seq<u8>
    decreases cs.len(),
{
    if cs.len() == 0 {
        Seq::empty()
    } else {
        concat(cs.drop_last()) + cs.last()
    }
}

pub open spec fn ladder_header(x: Seq<u8>) -> Seq<u8> {
    MAGIC@ + u64_le(x.len() as u64) + spec_sha256(x) + u64s_le(meta_words(x, ladder_root()))
}

/// The ladder archive of `x`.
pub open spec fn ladder_archive(x: Seq<u8>) -> Seq<u8> {
    ladder_header(x) + concat(seg_comps(x, ladder_root()))
}

/// Band `k`'s floor commitment: its residual digest over its quotient digest.
#[verifier::opaque]
pub open spec fn floor_spec(x: Seq<u8>, rt: Seq<u8>, k: int) -> Seq<u8> {
    fold_spec(
        FLOOR_DOMAIN@,
        hex_ascii(spec_sha256(band_res(ladder_w(x, rt, k as nat), rt, k))),
        seq![hex_ascii(spec_sha256(band_next(ladder_w(x, rt, k as nat), rt, k)))],
    )
}

pub open spec fn floors_spec(x: Seq<u8>, rt: Seq<u8>) -> Seq<Seq<u8>> {
    Seq::new(4, |k: int| floor_spec(x, rt, k))
}

/// The unified commitment over the input digest and the four floors.
pub open spec fn unified_spec(x: Seq<u8>) -> Seq<u8> {
    fold_spec(UNIFIED_DOMAIN@, hex_ascii(spec_sha256(x)), floors_spec(x, ladder_root()))
}

/// What a band reports: its A-view, floor commitment and residual sizes.
pub struct BandReport {
    pub band: usize,
    pub dir: usize,
    pub floor_omega: Vec<u8>,
    pub residual_bytes: usize,
    pub residual_comp: usize,
}

pub open spec fn report_ok(r: BandReport, x: Seq<u8>, k: int) -> bool {
    let rt = ladder_root();
    &&& r.band == k
    &&& r.dir == band_dir_spec(rt, k)
    &&& r.floor_omega@ == floor_spec(x, rt, k)
    &&& r.residual_bytes == seg_raw(x, rt, k).len()
    &&& r.residual_comp == seg_comp(x, rt, k).len()
}

proof fn lemma_u64s_len(ws: Seq<u64>)
    ensures
        u64s_le(ws).len() == 8 * ws.len(),
    decreases ws.len(),
{
    if ws.len() > 0 {
        lemma_u64s_len(ws.drop_last());
    }
}

proof fn lemma_u64s_read(ws: Seq<u64>, pre: Seq<u8>, post: Seq<u8>, j: int)
    requires
        0 <= j < ws.len(),
    ensures
        le_u64_at(pre + u64s_le(ws) + post, pre.len() + 8 * j) == ws[j],
    decreases ws.len(),
{
    let init = ws.drop_last();
    lemma_u64s_len(init);
    if j == ws.len() - 1 {
        assert(pre + u64s_le(ws) + post == (pre + u64s_le(init)) + u64_le(ws.last()) + post);
        lemma_u64_roundtrip(ws.last(), pre + u64s_le(init), post);
    } else {
        assert(pre + u64s_le(ws) + post == pre + u64s_le(init) + (u64_le(ws.last()) + post));
        lemma_u64s_read(init, pre, u64_le(ws.last()) + post, j);
    }
}

proof fn lemma_concat_take_len(cs: Seq<Seq<u8>>, i: int)
    requires
        0 <= i < cs.len(),
    ensures
        concat(cs.take(i + 1)).len() == concat(cs.take(i)).len() + cs[i].len(),
        concat(cs.take(i + 1)) == concat(cs.take(i)) + cs[i],
{
    assert(cs.take(i + 1).drop_last() == cs.take(i));
}

proof fn lemma_concat_split(a: Seq<Seq<u8>>, b: Seq<Seq<u8>>)
    ensures
        concat(a + b) == concat(a) + concat(b),
    decreases b.len(),
{
    if b.len() == 0 {
        assert(a + b == a);
    } else {
        assert((a + b).drop_last() == a + b.drop_last());
        lemma_concat_split(a, b.drop_last());
    }
}

/// Stream `i` sits right after the streams before it.
proof fn lemma_concat_piece(cs: Seq<Seq<u8>>, i: int, pre: Seq<u8>)
    requires
        0 <= i < cs.len(),
    ensures
        (pre + concat(cs)).subrange(
            (pre.len() + concat(cs.take(i)).len()) as int,
            (pre.len() + concat(cs.take(i)).len() + cs[i].len()) as int,
        ) == cs[i],
        pre.len() + concat(cs.take(i)).len() + cs[i].len() <= (pre + concat(cs)).len(),
{
    assert(cs == cs.take(i + 1) + cs.skip(i + 1));
    lemma_concat_split(cs.take(i + 1), cs.skip(i + 1));
    lemma_concat_take_len(cs, i);
    let s = pre + concat(cs);
    let a = (pre.len() + concat(cs.take(i)).len()) as int;
    assert(s == pre + concat(cs.take(i)) + cs[i] + concat(cs.skip(i + 1)));
    assert(s.subrange(a, a + cs[i].len()) =~= cs[i]);
}

proof fn lemma_u64s_step(ws: Seq<u64>, j: int)
    requires
        0 <= j,
        2 * j + 2 <= ws.len(),
    ensures
        u64s_le(ws.take(2 * j + 2)) == u64s_le(ws.take(2 * j)) + u64_le(ws[2 * j]) + u64_le(
            ws[2 * j + 1],
        ),
{
    let t = ws.take(2 * j + 2);
    let t1 = ws.take(2 * j + 1);
    assert(t.drop_last() == t1);
    assert(t1.drop_last() == ws.take(2 * j));
    assert(t.last() == ws[2 * j + 1]);
    assert(t1.last() == ws[2 * j]);
    assert(u64s_le(t) == u64s_le(t1) + u64_le(ws[2 * j + 1]));
    assert(u64s_le(t1) == u64s_le(ws.take(2 * j)) + u64_le(ws[2 * j]));
}

// ---------------------------------------------------------------------------
// Compression.
// ---------------------------------------------------------------------------
/// The ladder archive of `input`, each band's report, and the unified
/// commitment.
pub fn compress(input: &[u8]) -> (r: (Vec<u8>, Vec<BandReport>, Vec<u8>))
    ensures
        r.0@ == ladder_archive(input@),
        r.1@.len() == 4,
        forall|k: int| 0 <= k < 4 ==> report_ok(#[trigger] r.1@[k], input@, k),
        r.2@ == unified_spec(input@),
{
    let rt = root();
    let ghost x = input@;
    let ghost rs = rt@;
    let src_sha = sha256(input);
    let mut w: Vec<u8> = Vec::new();
    append_bytes(&mut w, input);
    let mut comps: Vec<Vec<u8>> = Vec::new();
    let mut raws: Vec<usize> = Vec::new();
    let mut reports: Vec<BandReport> = Vec::new();
    let mut floors: Vec<Vec<u8>> = Vec::new();
    let mut bi: usize = 0;
    while bi < 4
        invariant
            bi <= 4,
            rs == ladder_root(),
            rt@ == rs,
            x == input@,
            w@ == ladder_w(x, rs, bi as nat),
            comps@.len() == bi,
            raws@.len() == bi,
            reports@.len() == bi,
            floors@.len() == bi,
            forall|k: int| 0 <= k < bi ==> (#[trigger] comps@[k])@ == seg_comp(x, rs, k),
            forall|k: int| 0 <= k < bi ==> #[trigger] raws@[k] == seg_raw(x, rs, k).len(),
            forall|k: int| 0 <= k < bi ==> report_ok(#[trigger] reports@[k], x, k),
            forall|k: int| 0 <= k < bi ==> (#[trigger] floors@[k])@ == floor_spec(x, rs, k),
        decreases 4 - bi,
    {
        let (next, r_bytes, dir) = band_forward(w.as_slice(), &rt, bi);
        let r_comp = sgram_compress(r_bytes.as_slice());
        assert(r_comp@ == seg_comp(x, rs, bi as int)) by {
            reveal(seg_comp);
        }
        let parent = hex_bytes(&sha256(r_bytes.as_slice()));
        let mut leaves: Vec<Vec<u8>> = Vec::new();
        leaves.push(hex_bytes(&sha256(next.as_slice())));
        proof {
            assert(leaf_views(leaves@) =~= seq![hex_ascii(spec_sha256(next@))]);
        }
        let floor = fold(&FLOOR_DOMAIN, parent.as_slice(), leaves.as_slice());
        assert(floor@ == floor_spec(x, rs, bi as int)) by {
            reveal(floor_spec);
        }
        let mut floor_copy: Vec<u8> = Vec::new();
        append_bytes(&mut floor_copy, floor.as_slice());
        let rep = BandReport {
            band: bi,
            dir,
            floor_omega: floor,
            residual_bytes: r_bytes.len(),
            residual_comp: r_comp.len(),
        };
        reports.push(rep);
        floors.push(floor_copy);
        raws.push(r_bytes.len());
        comps.push(r_comp);
        w = next;
        bi += 1;
    }
    let w_comp = sgram_compress(w.as_slice());
    assert(w_comp@ == seg_comp(x, rs, 4)) by {
        reveal(seg_comp);
    }
    raws.push(w.len());
    comps.push(w_comp);
    let src_hex = hex_bytes(&src_sha);
    proof {
        assert(leaf_views(floors@) =~= floors_spec(x, rs));
    }
    let unified = fold(&UNIFIED_DOMAIN, src_hex.as_slice(), floors.as_slice());
    // header
    let mut arc: Vec<u8> = Vec::new();
    append_bytes(&mut arc, &MAGIC);
    push_u64_le(&mut arc, input.len() as u64);
    append_bytes(&mut arc, &src_sha);
    let ghost head = arc@;
    let ghost ws = meta_words(x, rs);
    assert forall|k: int| 0 <= k < 10 implies #[trigger] ws[k] == (if k % 2 == 0 {
        comps@[k / 2]@.len() as u64
    } else {
        raws@[k / 2] as u64
    }) by {}
    let mut j: usize = 0;
    while j < 5
        invariant
            j <= 5,
            ws.len() == 10,
            comps@.len() == 5,
            raws@.len() == 5,
            forall|k: int| 0 <= k < 10 ==> #[trigger] ws[k] == (if k % 2 == 0 {
                comps@[k / 2]@.len() as u64
            } else {
                raws@[k / 2] as u64
            }),
            arc@ == head + u64s_le(ws.take(2 * j)),
        decreases 5 - j,
    {
        push_u64_le(&mut arc, comps[j].len() as u64);
        push_u64_le(&mut arc, raws[j] as u64);
        proof {
            assert(ws[2 * j] == comps@[j as int]@.len() as u64);
            assert(ws[2 * j + 1] == raws@[j as int] as u64);
            lemma_u64s_step(ws, j as int);
        }
        j += 1;
    }
    assert(ws.take(10) == ws);
    let ghost cs = seg_comps(x, rs);
    let ghost hdr = arc@;
    let mut j: usize = 0;
    while j < 5
        invariant
            j <= 5,
            cs == seg_comps(x, rs),
            comps@.len() == 5,
            forall|k: int| 0 <= k < 5 ==> (#[trigger] comps@[k])@ == seg_comp(x, rs, k),
            arc@ == hdr + concat(cs.take(j as int)),
        decreases 5 - j,
    {
        append_bytes(&mut arc, comps[j].as_slice());
        proof {
            lemma_concat_take_len(cs, j as int);
        }
        j += 1;
    }
    assert(cs.take(5) == cs);
    (arc, reports, unified)
}


// ---------------------------------------------------------------------------
// Restoring.
// ---------------------------------------------------------------------------
/// The input length stored in the header.
pub open spec fn hdr_l0(arc: Seq<u8>) -> usize {
    le_u64_at(arc, 4) as usize
}

/// Code length of stream `i`.
pub open spec fn hdr_comp(arc: Seq<u8>, i: int) -> usize {
    le_u64_at(arc, 44 + 16 * i) as usize
}

/// Raw length of stream `i`.
pub open spec fn hdr_raw(arc: Seq<u8>, i: int) -> usize {
    le_u64_at(arc, 52 + 16 * i) as usize
}

/// Where code stream `i` starts.
pub open spec fn seg_off(arc: Seq<u8>, i: nat) -> int
    decreases i,
{
    if i == 0 {
        HEADER_LEN as int
    } else {
        seg_off(arc, (i - 1) as nat) + hdr_comp(arc, i - 1)
    }
}

/// Every code stream lies inside the archive.
pub open spec fn segs_in_bounds(arc: Seq<u8>) -> bool {
    forall|i: nat| i < 5 ==> #[trigger] seg_off(arc, i) + hdr_comp(arc, i as int) <= arc.len()
}

pub open spec fn seg_bytes(arc: Seq<u8>, i: int) -> Seq<u8> {
    arc.subrange(seg_off(arc, i as nat), seg_off(arc, i as nat) + hdr_comp(arc, i))
}

/// Raw stream `i` decoded from its code stream.
#[verifier::opaque]
pub open spec fn dec_seg(arc: Seq<u8>, i: int) -> Seq<u8> {
    dec_data::<Model>(mix_init(), dec_init(seg_bytes(arc, i)), hdr_raw(arc, i) as nat).2
}

/// Byte length entering band `b` for an input of `l0` bytes.
pub open spec fn lin(l0: nat, b: nat) -> nat
    decreases b,
{
    if b == 0 {
        l0
    } else {
        pack_len_spec(
            sym_count_spec(lin(l0, (b - 1) as nat), band_bits(b - 1) as nat),
            band_bits(b - 1) as nat,
        )
    }
}

/// Symbols in band `b`.
pub open spec fn nsym(l0: nat, b: nat) -> nat {
    sym_count_spec(lin(l0, b), band_bits(b as int) as nat)
}

/// The band lengths are computed without overflow.
pub open spec fn lens_fit(l0: nat) -> bool {
    forall|b: nat|
        b < 4 ==> #[trigger] lin(l0, b) * 8 + band_bits(b as int) - 1 <= usize::MAX && nsym(l0, b)
            * band_bits(b as int) + 7 <= usize::MAX
}

/// The bytes entering band `k`, rebuilt from band 3 down.
pub open spec fn back_from(arc: Seq<u8>, rt: Seq<u8>, k: nat) -> Result<Seq<u8>, LadderError>
    decreases 4 - k,
{
    if k >= 4 {
        Ok(dec_seg(arc, 4))
    } else {
        match back_from(arc, rt, k + 1) {
            Err(e) => Err(e),
            Ok(wn) => band_back_spec(
                wn,
                dec_seg(arc, k as int),
                rt,
                k as int,
                nsym(hdr_l0(arc) as nat, k),
                lin(hdr_l0(arc) as nat, k),
            ),
        }
    }
}

/// Going back from band 3 down to band `k` stays in range.
pub open spec fn back_safe(arc: Seq<u8>, rt: Seq<u8>, k: nat) -> bool
    decreases 4 - k,
{
    if k >= 4 {
        true
    } else {
        &&& back_safe(arc, rt, k + 1)
        &&& (back_from(arc, rt, k + 1) matches Ok(wn) ==> band_back_safe(
            wn,
            dec_seg(arc, k as int),
            rt,
            k as int,
            nsym(hdr_l0(arc) as nat, k),
        ))
    }
}

pub open spec fn header_ok(arc: Seq<u8>) -> bool {
    arc.len() >= HEADER_LEN && arc.subrange(0, 4) == MAGIC@
}

/// Restoring `arc` runs without overflow or out-of-range access.
pub open spec fn restorable(arc: Seq<u8>) -> bool {
    header_ok(arc) ==> {
        &&& segs_in_bounds(arc)
        &&& lens_fit(hdr_l0(arc) as nat)
        &&& back_safe(arc, ladder_root(), 0)
    }
}

/// What restoring `arc` gives.
pub open spec fn restore_spec(arc: Seq<u8>) -> Result<Seq<u8>, LadderError> {
    if arc.len() < HEADER_LEN {
        Err(LadderError::TooShort)
    } else if arc.subrange(0, 4) != MAGIC@ {
        Err(LadderError::BadMagic)
    } else {
        match back_from(arc, ladder_root(), 0) {
            Err(e) => Err(e),
            Ok(w) => if w.len() != hdr_l0(arc) {
                Err(LadderError::FinalLength { got: w.len() as usize, want: hdr_l0(arc) })
            } else if spec_sha256(w) != arc.subrange(12, 44) {
                Err(LadderError::ShaMismatch)
            } else {
                Ok(w)
            },
        }
    }
}


proof fn lemma_safe_mono(arc: Seq<u8>, rt: Seq<u8>, k: nat)
    requires
        back_safe(arc, rt, 0),
        k <= 4,
    ensures
        back_safe(arc, rt, k),
    decreases k,
{
    if k > 0 {
        lemma_safe_mono(arc, rt, (k - 1) as nat);
    }
}

proof fn lemma_err_down(arc: Seq<u8>, rt: Seq<u8>, k: nat)
    requires
        k <= 4,
        back_from(arc, rt, k) is Err,
        back_safe(arc, rt, k),
    ensures
        back_from(arc, rt, 0) == back_from(arc, rt, k),
        back_safe(arc, rt, 0),
    decreases k,
{
    if k > 0 {
        lemma_err_down(arc, rt, (k - 1) as nat);
    }
}

/// Whether the first four archive bytes are the magic.
fn has_magic(arc: &[u8]) -> (ok: bool)
    requires
        arc@.len() >= 4,
    ensures
        ok == (arc@.subrange(0, 4) == MAGIC@),
{
    let ok = arc[0] == MAGIC[0] && arc[1] == MAGIC[1] && arc[2] == MAGIC[2] && arc[3] == MAGIC[3];
    proof {
        if ok {
            assert(arc@.subrange(0, 4) =~= MAGIC@);
        } else {
            if arc@.subrange(0, 4) == MAGIC@ {
                assert(arc@.subrange(0, 4)[0] == arc@[0]);
                assert(arc@.subrange(0, 4)[1] == arc@[1]);
                assert(arc@.subrange(0, 4)[2] == arc@[2]);
                assert(arc@.subrange(0, 4)[3] == arc@[3]);
            }
        }
    }
    ok
}

/// Whether `a[i] == b[off + i]` for `i < a.len()`.
fn bytes_match(a: &[u8], b: &[u8], off: usize) -> (ok: bool)
    requires
        off + a@.len() <= b@.len(),
    ensures
        ok == (a@ == b@.subrange(off as int, off + a@.len())),
{
    let bl = b.len();
    let mut k: usize = 0;
    while k < a.len()
        invariant
            k <= a@.len(),
            off + a@.len() <= b@.len(),
            b@.len() == bl,
            forall|t: int| 0 <= t < k ==> a@[t] == #[trigger] b@[off + t],
        decreases a@.len() - k,
    {
        if a[k] != b[off + k] {
            proof {
                if a@ == b@.subrange(off as int, off + a@.len()) {
                    assert(b@.subrange(off as int, off + a@.len())[k as int] == b@[off + k]);
                }
            }
            return false;
        }
        k += 1;
    }
    assert forall|t: int| 0 <= t < a@.len() implies a@[t] == b@.subrange(off as int, off + a@.len())[t] by {
        assert(a@[t] == b@[off + t]);
    }
    assert(a@ =~= b@.subrange(off as int, off + a@.len()));
    true
}

/// Where the five code streams lie: offsets, code lengths, raw lengths;
/// `None` where one runs past the end of the archive.
fn parse_segments(arc: &[u8]) -> (r: Option<(Vec<usize>, Vec<usize>, Vec<usize>)>)
    requires
        arc@.len() >= HEADER_LEN,
    ensures
        r is None <==> !segs_in_bounds(arc@),
        r matches Some(t) ==> {
            &&& t.0@.len() == 5
            &&& t.1@.len() == 5
            &&& t.2@.len() == 5
            &&& forall|k: int| 0 <= k < 5 ==> #[trigger] t.0@[k] == seg_off(arc@, k as nat)
            &&& forall|k: int| 0 <= k < 5 ==> #[trigger] t.1@[k] == hdr_comp(arc@, k)
            &&& forall|k: int| 0 <= k < 5 ==> #[trigger] t.2@[k] == hdr_raw(arc@, k)
        },
{
    let ghost a = arc@;
    let mut offs: Vec<usize> = Vec::new();
    let mut clens: Vec<usize> = Vec::new();
    let mut rlens: Vec<usize> = Vec::new();
    let mut off: usize = HEADER_LEN;
    let mut i: usize = 0;
    while i < 5
        invariant
            i <= 5,
            a == arc@,
            a.len() >= HEADER_LEN,
            off == seg_off(a, i as nat),
            off <= a.len(),
            offs@.len() == i,
            clens@.len() == i,
            rlens@.len() == i,
            forall|k: int| 0 <= k < i ==> #[trigger] offs@[k] == seg_off(a, k as nat),
            forall|k: int| 0 <= k < i ==> #[trigger] clens@[k] == hdr_comp(a, k),
            forall|k: int| 0 <= k < i ==> #[trigger] rlens@[k] == hdr_raw(a, k),
            forall|k: nat| k < i ==> #[trigger] seg_off(a, k) + hdr_comp(a, k as int) <= a.len(),
        decreases 5 - i,
    {
        let c = read_u64_le(arc, 44 + 16 * i) as usize;
        let rw = read_u64_le(arc, 52 + 16 * i) as usize;
        if c > arc.len() - off {
            proof {
                assert(!(seg_off(a, i as nat) + hdr_comp(a, i as int) <= a.len()));
            }
            return None;
        }
        offs.push(off);
        clens.push(c);
        rlens.push(rw);
        off = off + c;
        i += 1;
    }
    Some((offs, clens, rlens))
}

/// Byte lengths entering, and symbol counts of, the four bands for an
/// input of `l0` bytes; `None` where one overflows.
fn band_lengths(l0: usize) -> (r: Option<(Vec<usize>, Vec<usize>)>)
    ensures
        r is None <==> !lens_fit(l0 as nat),
        r matches Some(t) ==> {
            &&& t.0@.len() == 4
            &&& t.1@.len() == 4
            &&& forall|k: int| 0 <= k < 4 ==> #[trigger] t.0@[k] == lin(l0 as nat, k as nat)
            &&& forall|k: int| 0 <= k < 4 ==> #[trigger] t.1@[k] == nsym(l0 as nat, k as nat)
        },
{
    let mut lins: Vec<usize> = Vec::new();
    let mut nsyms: Vec<usize> = Vec::new();
    let mut lb: usize = l0;
    let mut b: usize = 0;
    while b < 4
        invariant
            b <= 4,
            lb == lin(l0 as nat, b as nat),
            lins@.len() == b,
            nsyms@.len() == b,
            forall|k: int| 0 <= k < b ==> #[trigger] lins@[k] == lin(l0 as nat, k as nat),
            forall|k: int| 0 <= k < b ==> #[trigger] nsyms@[k] == nsym(l0 as nat, k as nat),
            forall|k: nat|
                k < b ==> #[trigger] lin(l0 as nat, k) * 8 + band_bits(k as int) - 1 <= usize::MAX
                    && nsym(l0 as nat, k) * band_bits(k as int) + 7 <= usize::MAX,
        decreases 4 - b,
    {
        let bits = BAND_BITS[b];
        proof {
            assert(BAND_BITS@ =~= seq![6u32, 8, 10, 12]);
            assert(bits == band_bits(b as int));
        }
        let m = lb.checked_mul(8);
        if m.is_none() {
            return None;
        }
        let m = m.unwrap();
        if m.checked_add(bits as usize - 1).is_none() {
            return None;
        }
        let n = sym_count(lb, bits);
        let nb = n.checked_mul(bits as usize);
        if nb.is_none() {
            return None;
        }
        if nb.unwrap().checked_add(7).is_none() {
            return None;
        }
        let nl = pack_len(n, bits);
        lins.push(lb);
        nsyms.push(n);
        lb = nl;
        b += 1;
    }
    Some((lins, nsyms))
}

/// The five raw streams decoded from their code streams.
fn decode_segments(arc: &[u8], offs: &Vec<usize>, clens: &Vec<usize>, rlens: &Vec<usize>) -> (dec: Vec<Vec<u8>>)
    requires
        segs_in_bounds(arc@),
        offs@.len() == 5,
        clens@.len() == 5,
        rlens@.len() == 5,
        forall|k: int| 0 <= k < 5 ==> #[trigger] offs@[k] == seg_off(arc@, k as nat),
        forall|k: int| 0 <= k < 5 ==> #[trigger] clens@[k] == hdr_comp(arc@, k),
        forall|k: int| 0 <= k < 5 ==> #[trigger] rlens@[k] == hdr_raw(arc@, k),
    ensures
        dec@.len() == 5,
        forall|k: int| 0 <= k < 5 ==> (#[trigger] dec@[k])@ == dec_seg(arc@, k),
{
    let mut dec: Vec<Vec<u8>> = Vec::new();
    let alen = arc.len();
    let mut i: usize = 0;
    while i < 5
        invariant
            i <= 5,
            arc@.len() == alen,
            offs@.len() == 5,
            clens@.len() == 5,
            rlens@.len() == 5,
            forall|k: int| 0 <= k < 5 ==> #[trigger] offs@[k] == seg_off(arc@, k as nat),
            forall|k: int| 0 <= k < 5 ==> #[trigger] clens@[k] == hdr_comp(arc@, k),
            forall|k: int| 0 <= k < 5 ==> #[trigger] rlens@[k] == hdr_raw(arc@, k),
            segs_in_bounds(arc@),
            dec@.len() == i,
            forall|k: int| 0 <= k < i ==> (#[trigger] dec@[k])@ == dec_seg(arc@, k),
        decreases 5 - i,
    {
        assert(seg_off(arc@, i as nat) + hdr_comp(arc@, i as int) <= arc@.len());
        assert(offs@[i as int] == seg_off(arc@, i as nat));
        assert(clens@[i as int] == hdr_comp(arc@, i as int));
        let seg = slice_range(arc, offs[i], offs[i] + clens[i]);
        let d = sgram_decompress(seg, rlens[i]);
        assert(d@ == dec_seg(arc@, i as int)) by {
            reveal(dec_seg);
        }
        dec.push(d);
        i += 1;
    }
    dec
}

/// Bands 3 down to 0 undone from the decoded raw streams.
fn climb_down(arc: &[u8], dec: &Vec<Vec<u8>>, lins: &Vec<usize>, nsyms: &Vec<usize>) -> (r: Option<
    Result<Vec<u8>, LadderError>,
>)
    requires
        dec@.len() == 5,
        lins@.len() == 4,
        nsyms@.len() == 4,
        forall|j: int| 0 <= j < 5 ==> (#[trigger] dec@[j])@ == dec_seg(arc@, j),
        forall|j: int| 0 <= j < 4 ==> #[trigger] lins@[j] == lin(hdr_l0(arc@) as nat, j as nat),
        forall|j: int| 0 <= j < 4 ==> #[trigger] nsyms@[j] == nsym(hdr_l0(arc@) as nat, j as nat),
    ensures
        r is None <==> !back_safe(arc@, ladder_root(), 0),
        r matches Some(v) ==> res_view(v) == back_from(arc@, ladder_root(), 0),
{
    let rt = root();
    let ghost a = arc@;
    let ghost rs = rt@;
    let mut w: Vec<u8> = Vec::new();
    append_bytes(&mut w, dec[4].as_slice());
    let mut k: usize = 4;
    while k > 0
        invariant
            k <= 4,
            a == arc@,
            rs == ladder_root(),
            rt@ == rs,
            dec@.len() == 5,
            lins@.len() == 4,
            nsyms@.len() == 4,
            forall|j: int| 0 <= j < 5 ==> (#[trigger] dec@[j])@ == dec_seg(a, j),
            forall|j: int| 0 <= j < 4 ==> #[trigger] lins@[j] == lin(hdr_l0(a) as nat, j as nat),
            forall|j: int| 0 <= j < 4 ==> #[trigger] nsyms@[j] == nsym(hdr_l0(a) as nat, j as nat),
            back_from(a, rs, k as nat) == Ok::<Seq<u8>, LadderError>(w@),
            back_safe(a, rs, k as nat),
        decreases k,
    {
        k -= 1;
        match band_backward(w.as_slice(), dec[k].as_slice(), &rt, k, nsyms[k], lins[k]) {
            None => {
                proof {
                    if back_safe(a, rs, 0) {
                        lemma_safe_mono(a, rs, k as nat);
                    }
                }
                return None;
            },
            Some(Err(e)) => {
                proof {
                    lemma_err_down(a, rs, k as nat);
                }
                return Some(Err(e));
            },
            Some(Ok(v)) => {
                w = v;
            },
        }
    }
    Some(Ok(w))
}

/// Restore a ladder archive; `None` where the archive's lengths would run
/// past its end or overflow, or a band would go out of range.
pub fn try_decompress(arc: &[u8]) -> (r: Option<Result<Vec<u8>, LadderError>>)
    ensures
        r is None <==> !restorable(arc@),
        r matches Some(v) ==> res_view(v) == restore_spec(arc@),
{
    if arc.len() < HEADER_LEN {
        return Some(Err(LadderError::TooShort));
    }
    if !has_magic(arc) {
        return Some(Err(LadderError::BadMagic));
    }
    let l0 = read_u64_le(arc, 4) as usize;
    let segs = parse_segments(arc);
    if segs.is_none() {
        return None;
    }
    let (offs, clens, rlens) = segs.unwrap();
    let lens = band_lengths(l0);
    if lens.is_none() {
        return None;
    }
    let (lins, nsyms) = lens.unwrap();
    let dec = decode_segments(arc, &offs, &clens, &rlens);
    let w = match climb_down(arc, &dec, &lins, &nsyms) {
        None => {
            return None;
        },
        Some(Err(e)) => {
            return Some(Err(e));
        },
        Some(Ok(w)) => w,
    };
    if w.len() != l0 {
        return Some(Err(LadderError::FinalLength { got: w.len(), want: l0 }));
    }
    let h = sha256(w.as_slice());
    if !bytes_match(&h, arc, 12) {
        return Some(Err(LadderError::ShaMismatch));
    }
    Some(Ok(w))
}

/// Restore a ladder archive.
pub fn decompress(arc: &[u8]) -> (r: Result<Vec<u8>, LadderError>)
    requires
        restorable(arc@),
    ensures
        res_view(r) == restore_spec(arc@),
{
    match try_decompress(arc) {
        Some(r) => r,
        None => Err(LadderError::TooShort),
    }
}


// ---------------------------------------------------------------------------
// The round trip.
// ---------------------------------------------------------------------------
/// The bytes entering band `k` are `lin` long and grow by at most two bytes
/// a band.
proof fn lemma_w_len(x: Seq<u8>, rt: Seq<u8>, k: nat)
    requires
        k <= 4,
        x.len() * 8 + 100 <= usize::MAX,
    ensures
        ladder_w(x, rt, k).len() == lin(x.len(), k),
        ladder_w(x, rt, k).len() <= x.len() + 2 * k,
    decreases k,
{
    if k > 0 {
        let w = ladder_w(x, rt, (k - 1) as nat);
        lemma_w_len(x, rt, (k - 1) as nat);
        lemma_band_roundtrip(w, rt, k - 1);
        lemma_band_consts_pub(k - 1);
        lemma_sym_count_le(w.len(), band_bits(k - 1) as nat);
    }
}

/// The band lengths of an input that fits are computed without overflow.
proof fn lemma_lens_fit(x: Seq<u8>, rt: Seq<u8>)
    requires
        x.len() * 8 + 100 <= usize::MAX,
    ensures
        lens_fit(x.len()),
{
    assert forall|b: nat| b < 4 implies #[trigger] lin(x.len(), b) * 8 + band_bits(b as int) - 1
        <= usize::MAX && nsym(x.len(), b) * band_bits(b as int) + 7 <= usize::MAX by {
        lemma_w_len(x, rt, b);
        lemma_band_consts_pub(b as int);
        lemma_sym_count_le(lin(x.len(), b), band_bits(b as int) as nat);
    }
}

/// Going back through the bands of `x`'s archive rebuilds each band's bytes.
proof fn lemma_climb(x: Seq<u8>, arc: Seq<u8>, k: nat)
    requires
        k <= 4,
        x.len() * 8 + 100 <= usize::MAX,
        hdr_l0(arc) == x.len(),
        forall|i: int| 0 <= i < 5 ==> #[trigger] dec_seg(arc, i) == seg_raw(x, ladder_root(), i),
    ensures
        back_from(arc, ladder_root(), k) == Ok::<Seq<u8>, LadderError>(ladder_w(x, ladder_root(), k)),
        back_safe(arc, ladder_root(), k),
    decreases 4 - k,
{
    let rt = ladder_root();
    if k < 4 {
        lemma_climb(x, arc, k + 1);
        let w = ladder_w(x, rt, k);
        lemma_w_len(x, rt, k);
        lemma_band_roundtrip(w, rt, k as int);
        assert(dec_seg(arc, k as int) == seg_raw(x, rt, k as int));
        assert(ladder_w(x, rt, k + 1) == band_next(w, rt, k as int));
    } else {
        assert(dec_seg(arc, 4) == seg_raw(x, rt, 4));
    }
}

/// Stream `i` starts after the header and the streams before it.
proof fn lemma_seg_off(arc: Seq<u8>, cs: Seq<Seq<u8>>, i: nat)
    requires
        i <= 5,
        cs.len() == 5,
        forall|j: int| 0 <= j < 5 ==> #[trigger] hdr_comp(arc, j) == cs[j].len(),
    ensures
        seg_off(arc, i) == HEADER_LEN + concat(cs.take(i as int)).len(),
    decreases i,
{
    if i == 0 {
        assert(cs.take(0) =~= Seq::<Seq<u8>>::empty());
    } else {
        lemma_seg_off(arc, cs, (i - 1) as nat);
        lemma_concat_take_len(cs, i - 1);
    }
}

proof fn lemma_archive_head(x: Seq<u8>)
    ensures
        ladder_archive(x) == MAGIC@ + u64_le(x.len() as u64) + spec_sha256(x) + u64s_le(
            meta_words(x, ladder_root()),
        ) + concat(seg_comps(x, ladder_root())),
        ladder_archive(x).len() >= HEADER_LEN,
        ladder_archive(x).subrange(0, 4) == MAGIC@,
        ladder_archive(x).subrange(12, 44) == spec_sha256(x),
        x.len() <= usize::MAX ==> hdr_l0(ladder_archive(x)) == x.len(),
{
    let rt = ladder_root();
    let arc = ladder_archive(x);
    let ws = meta_words(x, rt);
    let sha = spec_sha256(x);
    let meta = u64s_le(ws);
    let body = concat(seg_comps(x, rt));
    lemma_u64s_len(ws);
    assert(sha.len() == 32);
    assert(arc.subrange(0, 4) =~= MAGIC@);
    assert(arc == MAGIC@ + u64_le(x.len() as u64) + (sha + meta + body));
    lemma_u64_roundtrip(x.len() as u64, MAGIC@, sha + meta + body);
    assert(arc.subrange(12, 44) =~= sha);
}

/// Reading the header words and code streams of an archive laid out as
/// head, words, streams.
proof fn lemma_layout(h0: Seq<u8>, ws: Seq<u64>, cs: Seq<Seq<u8>>, j: int)
    requires
        h0.len() == 44,
        ws.len() == 10,
        cs.len() == 5,
        0 <= j < 5,
    ensures
        le_u64_at(h0 + u64s_le(ws) + concat(cs), 44 + 16 * j) == ws[2 * j],
        le_u64_at(h0 + u64s_le(ws) + concat(cs), 52 + 16 * j) == ws[2 * j + 1],
        (h0 + u64s_le(ws) + concat(cs)).subrange(
            (HEADER_LEN + concat(cs.take(j)).len()) as int,
            (HEADER_LEN + concat(cs.take(j)).len() + cs[j].len()) as int,
        ) == cs[j],
        HEADER_LEN + concat(cs.take(j)).len() + cs[j].len() <= (h0 + u64s_le(ws) + concat(cs)).len(),
{
    lemma_u64s_len(ws);
    lemma_u64s_read(ws, h0, concat(cs), 2 * j);
    lemma_u64s_read(ws, h0, concat(cs), 2 * j + 1);
    assert(h0 + u64s_le(ws) + concat(cs) == (h0 + u64s_le(ws)) + concat(cs));
    lemma_concat_piece(cs, j, h0 + u64s_le(ws));
}

proof fn lemma_raw_len(x: Seq<u8>, j: int)
    requires
        0 <= j < 5,
        x.len() * 8 + 100 <= usize::MAX,
    ensures
        seg_raw(x, ladder_root(), j).len() <= usize::MAX,
{
    let rt = ladder_root();
    if j < 4 {
        lemma_w_len(x, rt, j as nat);
        lemma_band_roundtrip(ladder_w(x, rt, j as nat), rt, j);
        lemma_band_consts_pub(j);
        lemma_sym_count_le(ladder_w(x, rt, j as nat).len(), band_bits(j) as nat);
    } else {
        lemma_w_len(x, rt, 4);
    }
}

#[verifier::rlimit(30)]
proof fn lemma_archive_words(x: Seq<u8>)
    requires
        x.len() * 8 + 100 <= usize::MAX,
        ladder_archive(x).len() <= usize::MAX,
    ensures
        forall|j: int| 0 <= j < 5 ==> #[trigger] hdr_comp(ladder_archive(x), j) == seg_comps(x, ladder_root())[j].len(),
        forall|j: int| 0 <= j < 5 ==> #[trigger] hdr_raw(ladder_archive(x), j) == seg_raw(x, ladder_root(), j).len(),
{
    let rt = ladder_root();
    let arc = ladder_archive(x);
    let ws = meta_words(x, rt);
    let cs = seg_comps(x, rt);
    let h0 = MAGIC@ + u64_le(x.len() as u64) + spec_sha256(x);
    lemma_archive_head(x);
    assert(spec_sha256(x).len() == 32);
    assert(arc == h0 + u64s_le(ws) + concat(cs));
    assert forall|j: int| 0 <= j < 5 implies #[trigger] hdr_comp(arc, j) == cs[j].len() by {
        lemma_layout(h0, ws, cs, j);
        assert(ws[2 * j] == seg_comp(x, rt, j).len() as u64);
    }
    assert forall|j: int| 0 <= j < 5 implies #[trigger] hdr_raw(arc, j) == seg_raw(x, rt, j).len() by {
        lemma_layout(h0, ws, cs, j);
        lemma_raw_len(x, j);
        assert(ws[2 * j + 1] == seg_raw(x, rt, j).len() as u64);
    }
}

#[verifier::rlimit(30)]
proof fn lemma_archive_streams(x: Seq<u8>)
    requires
        x.len() * 8 + 100 <= usize::MAX,
        ladder_archive(x).len() <= usize::MAX,
    ensures
        segs_in_bounds(ladder_archive(x)),
        forall|i: int| 0 <= i < 5 ==> #[trigger] dec_seg(ladder_archive(x), i) == seg_raw(x, ladder_root(), i),
{
    let rt = ladder_root();
    let arc = ladder_archive(x);
    let ws = meta_words(x, rt);
    let cs = seg_comps(x, rt);
    let h0 = MAGIC@ + u64_le(x.len() as u64) + spec_sha256(x);
    lemma_archive_head(x);
    lemma_archive_words(x);
    assert(spec_sha256(x).len() == 32);
    assert(arc == h0 + u64s_le(ws) + concat(cs));
    assert forall|i: int| 0 <= i < 5 implies #[trigger] dec_seg(arc, i) == seg_raw(x, rt, i) by {
        lemma_seg_off(arc, cs, i as nat);
        lemma_layout(h0, ws, cs, i);
        assert(seg_bytes(arc, i) == cs[i]);
        assert(cs[i] == seg_comp(x, rt, i));
        reveal(dec_seg);
        reveal(seg_comp);
        crate::mix::lemma_init_wf();
        crate::bitmodel::lemma_stream_roundtrip::<Model>(mix_init(), seg_raw(x, rt, i));
    }
    assert forall|i: nat| i < 5 implies #[trigger] seg_off(arc, i) + hdr_comp(arc, i as int) <= arc.len() by {
        lemma_seg_off(arc, cs, i);
        lemma_layout(h0, ws, cs, i as int);
    }
}

/// Restoring the ladder archive of `x` gives `x` back, and never runs out
/// of range.
pub proof fn lemma_ladder_roundtrip(x: Seq<u8>)
    requires
        x.len() * 8 + 100 <= usize::MAX,
        ladder_archive(x).len() <= usize::MAX,
    ensures
        restorable(ladder_archive(x)),
        restore_spec(ladder_archive(x)) == Ok::<Seq<u8>, LadderError>(x),
{
    let rt = ladder_root();
    let arc = ladder_archive(x);
    lemma_archive_head(x);
    lemma_archive_streams(x);
    lemma_lens_fit(x, rt);
    lemma_climb(x, arc, 0);
    assert(ladder_w(x, rt, 0) == x);
}


/// Size of the flat archive of `input`: an 8-byte length and the code
/// stream of the whole input (saturating at `usize::MAX`).
pub fn flat_sgram_archive(input: &[u8]) -> (n: usize)
    ensures
        n == if 8 + data_stream::<Model>(mix_init(), input@).len() <= usize::MAX {
            (8 + data_stream::<Model>(mix_init(), input@).len()) as usize
        } else {
            usize::MAX
        },
{
    let c = sgram_compress(input);
    c.len().saturating_add(8)
}

} // verus!
