//! Training one body of the unified construct.
//!
//! A body's bytes are cut into 10-bit glyphs and spoken in the body's own
//! seeded language; the group gate is checked; then for each of the eight
//! A-views, both directions and predictor orders 1 to 5, a predictor pair
//! runs `epochs` epochs: the encoder's residuals are packed, archived with
//! the LZ container, restored, and decoded by the twin predictor.  An epoch
//! whose archive is smaller than the packed view counts as accepted, with
//! the bytes saved as gain; any other is held.
use vstd::prelude::*;
use crate::bitpack::{
    b2g, fit_all, g2b, lemma_g2b_symbols, lemma_groups_fit, lemma_pack_roundtrip, pack,
    pack_spec, symbols_spec, unpack, bitstr8,
};
use crate::glyph::{all_fit, g_r, map_spec, speak};
use crate::lz::{lz_c, lz_comp_spec, lz_d, LzError};
use crate::pm::{lemma_pm_enc_shape, lemma_pm_roundtrip, pm_enc, pm_init, pm_wf, PMState, PM};
use crate::prism::{
    a_ap, a_ap_spec, a_in, codebook_fwd, lemma_a_ap_fits, lemma_a_roundtrip,
    lemma_codebook_inverse, seeded_order,
};
use crate::sha::{hex_ascii, hex_bytes, sha256, spec_sha256};
use crate::unified::{
    bytes_eq, codebook, gate_spec, glyphs_eq, group_gate, u16s_le, GateReport, BITS, GENESIS_TAG,
    GLYPH_QPRISM_TAG, KROOT_TAG,
};
use crate::wire::{append_bytes, push_u64_le, u64_le};
use vstd::arithmetic::power2::pow2;

verus! {

/// Why training a body stopped.
pub enum BodyError {
    /// The language did not give the glyphs or the bytes back.
    Language,
    /// The group gate failed; its report.
    GroupGate(GateReport),
    /// A-view `a` was not undone by its inverse.
    Inverse(usize),
    /// A cell (A-view, direction, order) did not restore.
    CellRestore(usize, u8, u8),
    /// An archive was refused.
    Archive(LzError),
    /// The cells counted and the cells expected.
    CellCount(u64, u64),
}

/// What training a body measured.
pub struct BodyCore {
    /// Number of glyphs.
    pub glyphs: usize,
    /// Hex digest of the language's forward table.
    pub codebook: Vec<u8>,
    /// The group gate's report.
    pub gate: GateReport,
    /// Hex digest of each packed A-view.
    pub views: Vec<Vec<u8>>,
    pub accepted: u64,
    pub held: u64,
    pub gain: u64,
    pub cells: u64,
}

/// The seed of a body's language: a child of the shared root by family and
/// index.
pub open spec fn body_seed(root: Seq<u8>, fam: Seq<u8>, index: u64) -> Seq<u8> {
    spec_sha256(KROOT_TAG@ + root + seq![0x7cu8] + fam + u64_le(index))
}

/// Size of the language: 2^10 glyphs.
pub open spec fn alphabet() -> nat {
    pow2(BITS as nat)
}

/// The body's bytes spoken in the language seeded by `seed`.
pub open spec fn body_glyphs(bytes: Seq<u8>, seed: Seq<u8>) -> Seq<u16> {
    map_spec(symbols_spec(bytes, BITS), codebook_fwd(GENESIS_TAG@, seed, alphabet()))
}

/// The block order of the seeded A-view of `g`.
pub open spec fn view_order(g: Seq<u16>) -> Seq<usize> {
    seeded_order(GLYPH_QPRISM_TAG@, spec_sha256(pack_spec(g, BITS)), (g.len() / 257) as nat)
}

#[verifier::opaque]
pub open spec fn a_view(g: Seq<u16>, a: int) -> Seq<u16> {
    a_ap_spec(a as usize, g, BITS, view_order(g))
}

/// A view read forwards (direction 0) or backwards.
pub open spec fn dir_seq(v: Seq<u16>, dir: u8) -> Seq<u16> {
    if dir == 0 {
        v
    } else {
        v.reverse()
    }
}

/// The predictor after `e` epochs over `seq`.
pub open spec fn epoch_state(s: PMState, seq: Seq<u16>, e: nat) -> PMState
    decreases e,
{
    if e == 0 {
        s
    } else {
        pm_enc(epoch_state(s, seq, (e - 1) as nat), seq).1
    }
}

/// The archive size of epoch `e` (from 0).
pub open spec fn epoch_cost(s: PMState, seq: Seq<u16>, e: nat) -> nat {
    lz_comp_spec(pack_spec(pm_enc(epoch_state(s, seq, e), seq).0, BITS)).len()
}

/// Accepted, held and gain after one more epoch of archive size `cost`
/// against the packed view's size `base`.
pub open spec fn score(t: (nat, nat, nat), base: nat, cost: nat) -> (nat, nat, nat) {
    if base > cost {
        (t.0 + 1, t.1, t.2 + (base - cost) as nat)
    } else {
        (t.0, t.1 + 1, t.2)
    }
}

pub open spec fn add3(a: (nat, nat, nat), b: (nat, nat, nat)) -> (nat, nat, nat) {
    (a.0 + b.0, a.1 + b.1, a.2 + b.2)
}

/// The tally of one cell after `e` epochs.
#[verifier::opaque]
pub open spec fn cell_tally(s: PMState, seq: Seq<u16>, base: nat, e: nat) -> (nat, nat, nat)
    decreases e,
{
    if e == 0 {
        (0, 0, 0)
    } else {
        score(cell_tally(s, seq, base, (e - 1) as nat), base, epoch_cost(s, seq, (e - 1) as nat))
    }
}

/// The archive sizes of a cell's first `e` epochs.
pub open spec fn epoch_costs(s: PMState, seq: Seq<u16>, e: nat) -> Seq<nat> {
    Seq::new(e, |j: int| epoch_cost(s, seq, j as nat))
}

/// A cell accepts exactly the epochs whose archive is smaller than the
/// packed view and holds every other; each accepted epoch gains at least one
/// byte and at most the packed size.
pub proof fn lemma_cell_tally_counts(s: PMState, seq: Seq<u16>, base: nat, e: nat)
    ensures
        cell_tally(s, seq, base, e).0 == epoch_costs(s, seq, e).filter(|c: nat| c < base).len(),
        cell_tally(s, seq, base, e).1 == epoch_costs(s, seq, e).filter(|c: nat| c >= base).len(),
        cell_tally(s, seq, base, e).0 <= cell_tally(s, seq, base, e).2,
        cell_tally(s, seq, base, e).2 <= cell_tally(s, seq, base, e).0 * base,
    decreases e,
{
    reveal(cell_tally);
    let lt = |c: nat| c < base;
    let ge = |c: nat| c >= base;
    if e == 0 {
        assert(epoch_costs(s, seq, 0) =~= Seq::<nat>::empty());
        reveal(Seq::filter);
    } else {
        let k = (e - 1) as nat;
        lemma_cell_tally_counts(s, seq, base, k);
        let prev = epoch_costs(s, seq, k);
        let c = epoch_cost(s, seq, k);
        assert(epoch_costs(s, seq, e) =~= prev.push(c));
        prev.lemma_filter_len_push(lt, c);
        prev.lemma_filter_len_push(ge, c);
        let t = cell_tally(s, seq, base, k);
        if base > c {
            assert(t.2 + (base - c) <= (t.0 + 1) * base) by (nonlinear_arith)
                requires
                    t.2 <= t.0 * base,
                    c < base,
            ;
        }
    }
}

/// Cell `k` of a view: direction `k / 5`, order `k % 5 + 1`.
pub open spec fn cell_dir(k: nat) -> u8 {
    (k / 5) as u8
}

pub open spec fn cell_order(k: nat) -> u8 {
    (k % 5 + 1) as u8
}

/// The tally of the first `c` of a view's ten cells.
#[verifier::opaque]
pub open spec fn view_tally(v: Seq<u16>, base: nat, epochs: nat, c: nat) -> (nat, nat, nat)
    decreases c,
{
    if c == 0 {
        (0, 0, 0)
    } else {
        let k = (c - 1) as nat;
        add3(
            view_tally(v, base, epochs, k),
            cell_tally(
                pm_init(BITS, cell_order(k), cell_dir(k)),
                dir_seq(v, cell_dir(k)),
                base,
                epochs,
            ),
        )
    }
}

/// The tally of the first `a` A-views of `g`.
pub open spec fn body_tally(g: Seq<u16>, epochs: nat, a: nat) -> (nat, nat, nat)
    decreases a,
{
    if a == 0 {
        (0, 0, 0)
    } else {
        let v = a_view(g, a - 1);
        add3(body_tally(g, epochs, (a - 1) as nat), view_tally(v, pack_spec(v, BITS).len(), epochs, 10))
    }
}

proof fn lemma_cell_tally_bound(s: PMState, seq: Seq<u16>, base: nat, e: nat)
    ensures
        cell_tally(s, seq, base, e).0 + cell_tally(s, seq, base, e).1 == e,
        cell_tally(s, seq, base, e).2 <= e * base,
    decreases e,
{
    reveal(cell_tally);
    if e > 0 {
        lemma_cell_tally_bound(s, seq, base, (e - 1) as nat);
        assert((e - 1) * base + base == e * base) by (nonlinear_arith);
    }
}

proof fn lemma_view_tally_bound(v: Seq<u16>, base: nat, epochs: nat, c: nat)
    ensures
        view_tally(v, base, epochs, c).0 + view_tally(v, base, epochs, c).1 == c * epochs,
        view_tally(v, base, epochs, c).2 <= c * epochs * base,
    decreases c,
{
    reveal(view_tally);
    if c > 0 {
        let k = (c - 1) as nat;
        lemma_view_tally_bound(v, base, epochs, k);
        lemma_cell_tally_bound(
            pm_init(BITS, cell_order(k), cell_dir(k)),
            dir_seq(v, cell_dir(k)),
            base,
            epochs,
        );
        assert(k * epochs + epochs == c * epochs) by (nonlinear_arith)
            requires
                k + 1 == c,
        ;
        assert(k * epochs * base + epochs * base == c * epochs * base) by (nonlinear_arith)
            requires
                k + 1 == c,
        ;
    }
}

/// The predictor of every epoch is well formed, of width 10, and has
/// counted its epochs.
proof fn lemma_epoch_state(s: PMState, seq: Seq<u16>, e: nat)
    requires
        pm_wf(s),
        s.bits == BITS,
        s.ep == 0,
        fit_all(seq, BITS as nat),
        e < u32::MAX,
    ensures
        pm_wf(epoch_state(s, seq, e)),
        epoch_state(s, seq, e).bits == BITS,
        epoch_state(s, seq, e).ep == e,
    decreases e,
{
    if e > 0 {
        lemma_epoch_state(s, seq, (e - 1) as nat);
        lemma_pm_enc_shape(epoch_state(s, seq, (e - 1) as nat), seq);
    }
}

/// One epoch of a cell: encode, archive, restore, decode; the archive's
/// size.
fn run_epoch(a: usize, seq: &[u16], dir: u8, order: u8, enc: &mut PM, dec: &mut PM) -> (r: Result<
    usize,
    BodyError,
>)
    requires
        pm_wf(old(enc)@),
        old(enc)@.bits == BITS,
        old(enc)@.ep < u32::MAX,
        old(dec)@ == old(enc)@,
        fit_all(seq@, BITS as nat),
    ensures
        r is Ok,
        final(enc)@ == pm_enc(old(enc)@, seq@).1,
        final(dec)@ == final(enc)@,
        r matches Ok(c) && c == lz_comp_spec(pack_spec(pm_enc(old(enc)@, seq@).0, BITS)).len(),
{
    proof {
        lemma_pm_enc_shape(enc@, seq@);
        lemma_pm_roundtrip(enc@, seq@);
    }
    let res = enc.enc(seq);
    proof {
        lemma_pack_roundtrip(res@, BITS);
    }
    let pk = pack(res.as_slice(), BITS);
    let pl = lz_c(pk.as_slice());
    let unl = match lz_d(pl.as_slice()) {
        Ok(x) => x,
        Err(er) => {
            return Err(BodyError::Archive(er));
        },
    };
    let dr = unpack(unl.as_slice(), BITS, seq.len());
    assert(dr@ == res@);
    let ds = dec.dec(dr.as_slice());
    if !glyphs_eq(ds.as_slice(), seq) || !bytes_eq(&enc.commit, &dec.commit) {
        return Err(BodyError::CellRestore(a, dir, order));
    }
    Ok(pl.len())
}

/// Run one cell: `epochs` epochs of a predictor pair over `seq`, each
/// epoch's residuals archived and restored; tally against `base`.
fn run_cell(a: usize, seq: &[u16], dir: u8, order: u8, epochs: usize, base: usize) -> (r: Result<
    (u64, u64, u64),
    BodyError,
>)
    requires
        fit_all(seq@, BITS as nat),
        1 <= order <= 5,
        epochs < u32::MAX,
        epochs * base <= u64::MAX,
    ensures
        r is Ok,
        r matches Ok(t) && (t.0 as nat, t.1 as nat, t.2 as nat) == cell_tally(
            pm_init(BITS, order, dir),
            seq@,
            base as nat,
            epochs as nat,
        ),
{
    let ghost s0 = pm_init(BITS, order, dir);
    let mut enc = PM::new(BITS, order, dir);
    let mut dec = PM::new(BITS, order, dir);
    let mut acc: u64 = 0;
    let mut held: u64 = 0;
    let mut gain: u64 = 0;
    let mut e: usize = 0;
    proof {
        assert(pm_wf(s0));
        reveal(cell_tally);
    }
    while e < epochs
        invariant
            e <= epochs,
            epochs < u32::MAX,
            epochs * base <= u64::MAX,
            fit_all(seq@, BITS as nat),
            1 <= order <= 5,
            s0 == pm_init(BITS, order, dir),
            pm_wf(s0),
            enc@ == epoch_state(s0, seq@, e as nat),
            dec@ == enc@,
            (acc as nat, held as nat, gain as nat) == cell_tally(s0, seq@, base as nat, e as nat),
        decreases epochs - e,
    {
        proof {
            reveal(cell_tally);
            lemma_epoch_state(s0, seq@, e as nat);
            lemma_cell_tally_bound(s0, seq@, base as nat, e as nat);
        }
        let cost = match run_epoch(a, seq, dir, order, &mut enc, &mut dec) {
            Ok(c) => c,
            Err(er) => {
                return Err(er);
            },
        };
        let gg = base.saturating_sub(cost) as u64;
        if gg > 0 {
            proof {
                assert((e as nat) * (base as nat) + (base as nat) <= (epochs as nat) * (base as nat))
                    by (nonlinear_arith)
                    requires
                        e < epochs,
                ;
            }
            acc += 1;
            gain += gg;
        } else {
            held += 1;
        }
        e += 1;
    }
    Ok((acc, held, gain))
}

/// Run a view's ten cells: both directions, orders 1 to 5.
fn run_view(a: usize, v: &[u16], base: usize, epochs: usize) -> (r: Result<
    (u64, u64, u64),
    BodyError,
>)
    requires
        fit_all(v@, BITS as nat),
        epochs < u32::MAX,
        10 * epochs * base <= u64::MAX,
    ensures
        r is Ok,
        r matches Ok(t) && (t.0 as nat, t.1 as nat, t.2 as nat) == view_tally(
            v@,
            base as nat,
            epochs as nat,
            10,
        ),
{
    let rv = g_r(v);
    assert(fit_all(rv@, BITS as nat)) by {
        assert forall|i: int| 0 <= i < rv@.len() implies (#[trigger] rv@[i] as nat) < pow2(
            BITS as nat,
        ) by {
            assert(rv@[i] == v@[v@.len() - 1 - i]);
        }
    }
    assert(epochs * base <= u64::MAX) by (nonlinear_arith)
        requires
            10 * epochs * base <= u64::MAX,
    ;
    let mut acc: u64 = 0;
    let mut held: u64 = 0;
    let mut gain: u64 = 0;
    let mut c: usize = 0;
    proof {
        reveal(view_tally);
    }
    while c < 10
        invariant
            c <= 10,
            fit_all(v@, BITS as nat),
            fit_all(rv@, BITS as nat),
            rv@ == v@.reverse(),
            epochs < u32::MAX,
            10 * epochs * base <= u64::MAX,
            epochs * base <= u64::MAX,
            (acc as nat, held as nat, gain as nat) == view_tally(
                v@,
                base as nat,
                epochs as nat,
                c as nat,
            ),
        decreases 10 - c,
    {
        let dir: u8 = (c / 5) as u8;
        let order: u8 = (c % 5 + 1) as u8;
        let seq: &[u16] = if dir == 0 {
            v
        } else {
            rv.as_slice()
        };
        assert(seq@ == dir_seq(v@, dir));
        proof {
            reveal(view_tally);
        }
        let t = match run_cell(a, seq, dir, order, epochs, base) {
            Ok(t) => t,
            Err(er) => {
                return Err(er);
            },
        };
        proof {
            lemma_view_tally_bound(v@, base as nat, epochs as nat, (c + 1) as nat);
            assert((c + 1) * epochs <= 10 * epochs) by (nonlinear_arith)
                requires
                    c < 10,
            ;
            assert((c + 1) * epochs * base <= 10 * epochs * base) by (nonlinear_arith)
                requires
                    c < 10,
            ;
        }
        acc += t.0;
        held += t.1;
        gain += t.2;
        c += 1;
    }
    Ok((acc, held, gain))
}

proof fn lemma_body_tally_bound(g: Seq<u16>, epochs: nat, a: nat, base: nat)
    requires
        forall|j: int| 0 <= j < a ==> #[trigger] pack_spec(a_view(g, j), BITS).len() == base,
    ensures
        body_tally(g, epochs, a).0 + body_tally(g, epochs, a).1 == a * 10 * epochs,
        body_tally(g, epochs, a).2 <= a * 10 * epochs * base,
    decreases a,
{
    if a > 0 {
        let k = (a - 1) as nat;
        lemma_body_tally_bound(g, epochs, k, base);
        let v = a_view(g, k as int);
        assert(pack_spec(v, BITS).len() == base);
        lemma_view_tally_bound(v, base, epochs, 10);
        assert(k * 10 * epochs + 10 * epochs == a * 10 * epochs) by (nonlinear_arith)
            requires
                k + 1 == a,
        ;
        assert(k * 10 * epochs * base + 10 * epochs * base == a * 10 * epochs * base)
            by (nonlinear_arith)
            requires
                k + 1 == a,
        ;
    }
}

/// Every A-view of `g` keeps its length and width, so all pack to the
/// same size.
proof fn lemma_view_shape(g: Seq<u16>, j: int)
    requires
        all_fit(g, BITS),
        g.len() <= usize::MAX,
        0 <= j < 8,
    ensures
        a_view(g, j).len() == g.len(),
        all_fit(a_view(g, j), BITS),
        fit_all(a_view(g, j), BITS as nat),
        pack_spec(a_view(g, j), BITS).len() == crate::bitpack::pack_len_spec(g.len(), BITS as nat),
{
    reveal(a_view);
    crate::prism::lemma_seeded_order_perm(
        GLYPH_QPRISM_TAG@,
        spec_sha256(pack_spec(g, BITS)),
        (g.len() / 257) as nat,
    );
    lemma_a_ap_fits(j as usize, g, BITS, view_order(g));
    let v = a_view(g, j);
    assert forall|i: int| 0 <= i < v.len() implies (#[trigger] v[i] as nat) < pow2(BITS as nat) by {
        assert(crate::glyph::fits(v[i], BITS));
    }
    lemma_pack_roundtrip(v, BITS);
}

/// The body's glyphs in its own language and the language's digest, after
/// checking that the language gives the glyphs and the bytes back.
fn speak_body(fam: &[u8], index: usize, bytes: &[u8], root: &[u8]) -> (r: Result<
    (Vec<u16>, Vec<u8>),
    BodyError,
>)
    ensures
        r is Ok,
        r matches Ok(p) && {
            let seed = body_seed(root@, fam@, index as u64);
            &&& p.0@ == body_glyphs(bytes@, seed)
            &&& p.1@ == hex_ascii(spec_sha256(u16s_le(codebook_fwd(GENESIS_TAG@, seed, alphabet()))))
            &&& all_fit(p.0@, BITS)
            &&& p.0@.len() == crate::bitpack::sym_count_spec(bytes@.len(), BITS as nat)
        },
{
    proof {
        vstd::arithmetic::power2::lemma2_to64();
    }
    let raw = b2g(bytes, BITS);
    proof {
        lemma_groups_fit(bitstr8(bytes@), BITS as nat, raw@);
        lemma_g2b_symbols(bytes@, BITS);
        crate::bitpack::lemma_symbols_roundtrip(bytes@, BITS);
    }
    let mut kseed: Vec<u8> = Vec::new();
    append_bytes(&mut kseed, &KROOT_TAG);
    append_bytes(&mut kseed, root);
    kseed.push(0x7c);
    append_bytes(&mut kseed, fam);
    push_u64_le(&mut kseed, index as u64);
    assert(kseed@ =~= KROOT_TAG@ + root@ + seq![0x7cu8] + fam@ + u64_le(index as u64));
    let kbody = sha256(kseed.as_slice());
    let (perm, inv, cb) = codebook(&kbody, BITS);
    let ghost n = alphabet();
    proof {
        lemma_codebook_inverse(perm@, inv@, GENESIS_TAG@, kbody@, n);
    }
    let g = speak(raw.as_slice(), perm.as_slice());
    assert(forall|i: int| 0 <= i < g@.len() ==> (#[trigger] g@[i] as nat) < n);
    let heard = speak(g.as_slice(), inv.as_slice());
    assert(heard@ =~= raw@);
    if !glyphs_eq(heard.as_slice(), raw.as_slice()) || !bytes_eq(
        g2b(heard.as_slice(), BITS, bytes.len()).as_slice(),
        bytes,
    ) {
        return Err(BodyError::Language);
    }
    assert(all_fit(g@, BITS)) by {
        assert forall|i: int| 0 <= i < g@.len() implies crate::glyph::fits(#[trigger] g@[i], BITS) by {
        }
    }
    Ok((g, cb))
}

/// The packed size of each A-view of `len` glyphs is at most `bytes + 2`
/// when the glyphs were cut from `bytes` bytes.
proof fn lemma_base_bound(l: nat, epochs: nat)
    requires
        80 * epochs * (l + 2) <= u64::MAX,
    ensures
        80 * epochs * crate::bitpack::pack_len_spec(
            crate::bitpack::sym_count_spec(l, BITS as nat),
            BITS as nat,
        ) <= u64::MAX,
{
    let q = crate::bitpack::sym_count_spec(l, BITS as nat);
    let base = crate::bitpack::pack_len_spec(q, BITS as nat);
    assert(q == (l * 8 + 9) / 10);
    assert(q * 10 <= l * 8 + 9) by (nonlinear_arith)
        requires
            q == (l * 8 + 9) / 10,
    ;
    assert(base <= l + 2) by (nonlinear_arith)
        requires
            base == (q * 10 + 7) / 8,
            q * 10 <= l * 8 + 9,
    ;
    assert(80 * epochs * base <= 80 * epochs * (l + 2)) by (nonlinear_arith)
        requires
            base <= l + 2,
    ;
}

/// The eight A-views' digests and the tally of all their cells.
fn train_views(g: &[u16], epochs: usize) -> (r: Result<(Vec<Vec<u8>>, u64, u64, u64), BodyError>)
    requires
        all_fit(g@, BITS),
        epochs < u32::MAX,
        80 * epochs * crate::bitpack::pack_len_spec(g@.len(), BITS as nat) <= u64::MAX,
    ensures
        r is Ok,
        r matches Ok(t) && {
            &&& t.0@.len() == 8
            &&& forall|j: int|
                0 <= j < 8 ==> (#[trigger] t.0@[j])@ == hex_ascii(
                    spec_sha256(pack_spec(a_view(g@, j), BITS)),
                )
            &&& (t.1 as nat, t.2 as nat, t.3 as nat) == body_tally(g@, epochs as nat, 8)
        },
{
    assert(fit_all(g@, BITS as nat)) by {
        assert forall|i: int| 0 <= i < g@.len() implies (#[trigger] g@[i] as nat) < pow2(
            BITS as nat,
        ) by {
            assert(crate::glyph::fits(g@[i], BITS));
        }
    }
    let nsha = sha256(pack(g, BITS).as_slice());
    let ghost base: nat = crate::bitpack::pack_len_spec(g@.len(), BITS as nat);
    let mut views: Vec<Vec<u8>> = Vec::new();
    let mut acc: u64 = 0;
    let mut held: u64 = 0;
    let mut gain: u64 = 0;
    let glen = g.len();
    let mut a: usize = 0;
    while a < 8
        invariant
            a <= 8,
            glen == g@.len(),
            all_fit(g@, BITS),
            nsha@ == spec_sha256(pack_spec(g@, BITS)),
            epochs < u32::MAX,
            base == crate::bitpack::pack_len_spec(g@.len(), BITS as nat),
            80 * epochs * base <= u64::MAX,
            views@.len() == a,
            forall|j: int|
                0 <= j < a ==> (#[trigger] views@[j])@ == hex_ascii(
                    spec_sha256(pack_spec(a_view(g@, j), BITS)),
                ),
            (acc as nat, held as nat, gain as nat) == body_tally(g@, epochs as nat, a as nat),
        decreases 8 - a,
    {
        let v = a_ap(a, g, BITS, &nsha, &GLYPH_QPRISM_TAG);
        proof {
            reveal(a_view);
            assert(v@ == a_view(g@, a as int));
            lemma_view_shape(g@, a as int);
            lemma_a_roundtrip(a, g@, BITS, view_order(g@));
        }
        let back = a_in(a, v.as_slice(), BITS, &nsha, &GLYPH_QPRISM_TAG);
        if !glyphs_eq(back.as_slice(), g) {
            return Err(BodyError::Inverse(a));
        }
        let vp = pack(v.as_slice(), BITS);
        proof {
            assert(10 * epochs * base <= 80 * epochs * base) by (nonlinear_arith);
            assert forall|j: int| 0 <= j < a + 1 implies #[trigger] pack_spec(a_view(g@, j), BITS).len()
                == base by {
                lemma_view_shape(g@, j);
            }
            lemma_body_tally_bound(g@, epochs as nat, (a + 1) as nat, base);
            assert((a + 1) * 10 * epochs * base <= 80 * epochs * base) by (nonlinear_arith)
                requires
                    a < 8,
            ;
            assert((a + 1) * 10 * epochs <= 80 * epochs) by (nonlinear_arith)
                requires
                    a < 8,
            ;
        }
        let t = match run_view(a, v.as_slice(), vp.len(), epochs) {
            Ok(t) => t,
            Err(er) => {
                return Err(er);
            },
        };
        views.push(hex_bytes(&sha256(vp.as_slice())));
        acc += t.0;
        held += t.1;
        gain += t.2;
        a += 1;
    }
    Ok((views, acc, held, gain))
}

/// Train one body: its language, group gate, A-view digests and the tally
/// of its cells.  Fails only where the group gate fails.
#[verifier::rlimit(40)]
pub fn train_core(fam: &[u8], index: usize, bytes: &[u8], epochs: usize, root: &[u8]) -> (r: Result<
    BodyCore,
    BodyError,
>)
    requires
        epochs < u32::MAX,
        80 * epochs * (bytes@.len() + 2) <= u64::MAX,
    ensures
        ({
            let seed = body_seed(root@, fam@, index as u64);
            let g = body_glyphs(bytes@, seed);
            let gate = gate_spec(g, BITS);
            &&& (r is Err <==> !gate.ok)
            &&& r matches Err(e) ==> (e matches BodyError::GroupGate(rep) && rep == gate)
            &&& r matches Ok(c) ==> {
                &&& c.glyphs == g.len()
                &&& c.codebook@ == hex_ascii(
                    spec_sha256(u16s_le(codebook_fwd(GENESIS_TAG@, seed, alphabet()))),
                )
                &&& c.gate == gate
                &&& c.views@.len() == 8
                &&& forall|j: int|
                    0 <= j < 8 ==> (#[trigger] c.views@[j])@ == hex_ascii(
                        spec_sha256(pack_spec(a_view(g, j), BITS)),
                    )
                &&& (c.accepted as nat, c.held as nat, c.gain as nat) == body_tally(
                    g,
                    epochs as nat,
                    8,
                )
                &&& c.cells == 80 * epochs
                &&& c.accepted + c.held == c.cells
            }
        }),
{
    let (g, cb) = match speak_body(fam, index, bytes, root) {
        Ok(p) => p,
        Err(er) => {
            return Err(er);
        },
    };
    let gate = group_gate(g.as_slice(), BITS);
    if !gate.ok {
        return Err(BodyError::GroupGate(gate));
    }
    proof {
        lemma_base_bound(bytes@.len(), epochs as nat);
    }
    let (views, acc, held, gain) = match train_views(g.as_slice(), epochs) {
        Ok(t) => t,
        Err(er) => {
            return Err(er);
        },
    };
    let total_cells: u64 = 80 * (epochs as u64);
    let glen = g.len();
    proof {
        assert forall|j: int| 0 <= j < 8 implies #[trigger] pack_spec(a_view(g@, j), BITS).len()
            == crate::bitpack::pack_len_spec(g@.len(), BITS as nat) by {
            lemma_view_shape(g@, j);
        }
        lemma_body_tally_bound(
            g@,
            epochs as nat,
            8,
            crate::bitpack::pack_len_spec(g@.len(), BITS as nat),
        );
    }
    if acc + held != total_cells {
        return Err(BodyError::CellCount(acc + held, total_cells));
    }
    Ok(
        BodyCore {
            glyphs: g.len(),
            codebook: cb,
            gate,
            views,
            accepted: acc,
            held,
            gain,
            cells: total_cells,
        },
    )
}

/// Body `i` of `n` (from 1) takes bytes `[(i-1)*ln/n, i*ln/n)` of a
/// source of `ln` bytes.
pub fn body_span(i: usize, n: usize, ln: usize) -> (r: (usize, usize))
    requires
        1 <= i <= n,
    ensures
        r.0 == ((i - 1) * ln) / (n as int),
        r.1 == (i * ln) / (n as int),
        r.0 <= r.1 <= ln,
{
    proof {
        assert((i - 1) * ln <= i * ln <= n * ln) by (nonlinear_arith)
            requires
                1 <= i <= n,
        ;
        assert(i * ln <= 0xffff_ffff_ffff_ffff_ffff_ffff_ffff_ffff) by (nonlinear_arith)
            requires
                i <= usize::MAX,
                ln <= usize::MAX,
                usize::MAX <= 0xffff_ffff_ffff_ffff,
        ;
        vstd::arithmetic::div_mod::lemma_div_is_ordered((i - 1) * ln, i * ln, n as int);
        vstd::arithmetic::div_mod::lemma_div_is_ordered(i * ln, n * ln, n as int);
        vstd::arithmetic::div_mod::lemma_div_by_multiple(ln as int, n as int);
        assert(n * ln == ln * n) by (nonlinear_arith);
    }
    // The products are formed in 128 bits so that no source length overflows.
    let a = ((i - 1) as u128) * (ln as u128) / (n as u128);
    let b = (i as u128) * (ln as u128) / (n as u128);
    (a as usize, b as usize)
}

/// Whether `x` is one of `list`.
pub fn contains_bytes(list: &[Vec<u8>], x: &[u8]) -> (r: bool)
    ensures
        r == exists|j: int| 0 <= j < list@.len() && (#[trigger] list@[j])@ == x@,
{
    let mut k: usize = 0;
    while k < list.len()
        invariant
            k <= list@.len(),
            forall|j: int| 0 <= j < k ==> (#[trigger] list@[j])@ != x@,
        decreases list@.len() - k,
    {
        if bytes_eq(list[k].as_slice(), x) {
            return true;
        }
        k += 1;
    }
    false
}

} // verus!
