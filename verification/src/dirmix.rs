//! Several context projections ("directions") — order-1, order-2, order-3
//! and a skip context — each with its own hashed table, mixed by a logistic
//! mixer whose weight set is chosen by the bit position.  The archive codes
//! the first half of the input, lets both sides sweep that half again
//! `passes - 1` times, then codes the second half with the warmed model.
use vstd::prelude::*;
use crate::bitmodel::{
    code_data, data_stream, dec_data, decode_bytes, encode_bytes, lemma_code_data_ok,
    lemma_stream_roundtrip, train_bytes, BitModel,
};
use crate::coder::{dec_init, Decoder, Encoder};
use crate::logistic::{
    adapt, adapt_counter, build_stretch, lemma_adapt_bound, lemma_squash_range,
    lemma_stretch_range, spec_squash, squash, stretch_of,
};
use crate::wire::{
    append_bytes, le_u32_at, le_u64_at, lemma_u32_roundtrip, lemma_u64_roundtrip, push_u32_le,
    push_u64_le, read_u32_le, read_u64_le, slice_range, u32_le, u64_le,
};

verus! {

/// Number of directions.
pub const NDIR: usize = 4;

pub const TBITS: u32 = 22;

/// Entries of each direction's table.
pub const TSIZE: usize = 0x40_0000;

pub const RATE: u32 = 5;

/// Fixed header: n, t, passes, mode, train stream length.
pub const HDR: usize = 29;

/// Which directions the model mixes.
#[derive(Clone, Copy, Debug, PartialEq, Eq, Structural)]
pub enum DirMode {
    /// order-1, order-2, order-3 and skip.
    Expand,
    /// order-2 four times.
    Dup,
    /// the four distinct directions, weight slots permuted every bit.
    Shuffle,
}

pub open spec fn mode_code(m: DirMode) -> u8 {
    match m {
        DirMode::Expand => 0,
        DirMode::Dup => 1,
        DirMode::Shuffle => 2,
    }
}

pub open spec fn mode_of(v: u8) -> DirMode {
    if v == 1 {
        DirMode::Dup
    } else if v == 2 {
        DirMode::Shuffle
    } else {
        DirMode::Expand
    }
}

impl DirMode {
    pub fn as_u8(self) -> (r: u8)
        ensures
            r == mode_code(self),
    {
        match self {
            DirMode::Expand => 0,
            DirMode::Dup => 1,
            DirMode::Shuffle => 2,
        }
    }

    /// The mode stored as `v` (unknown codes read as `Expand`).
    pub fn from_u8(v: u8) -> (m: DirMode)
        ensures
            m == mode_of(v),
    {
        match v {
            1 => DirMode::Dup,
            2 => DirMode::Shuffle,
            _ => DirMode::Expand,
        }
    }

    pub fn name(self) -> (s: &'static str)
        ensures
            self == DirMode::Expand ==> s@ == "expand"@,
            self == DirMode::Dup ==> s@ == "dup"@,
            self == DirMode::Shuffle ==> s@ == "shuffle"@,
    {
        match self {
            DirMode::Expand => "expand",
            DirMode::Dup => "dup",
            DirMode::Shuffle => "shuffle",
        }
    }

    /// The mode named `s` (any other name reads as `Expand`).
    pub fn parse(s: &str) -> (m: DirMode)
        ensures
            m == (if s@ == "dup"@ {
                DirMode::Dup
            } else if s@ == "shuffle"@ {
                DirMode::Shuffle
            } else {
                DirMode::Expand
            }),
    {
        let owned = s.to_owned();
        if owned == "dup".to_owned() {
            DirMode::Dup
        } else if owned == "shuffle".to_owned() {
            DirMode::Shuffle
        } else {
            DirMode::Expand
        }
    }
}

/// Table slot of direction `slot` for context value `cv` and tree `node`.
pub open spec fn tidx_spec(slot: usize, cv: u32, node: u32) -> usize {
    let h1 = (cv as u64).wrapping_mul(0x9E37_79B9_7F4A_7C15u64);
    let h2 = h1 ^ (node as u64).wrapping_mul(0xC2B2_AE3D_27D4_EB4Fu64);
    let h3 = h2 ^ (slot as u64).wrapping_mul(0x1656_67B1_9E37_79F9u64);
    let h4 = h3 ^ (h3 >> 29u64);
    (h4 as usize) & ((TSIZE - 1) as usize)
}

/// Deterministic hash of (slot, context value, node) to a table slot.
pub fn tidx(slot: usize, cv: u32, node: u32) -> (r: usize)
    ensures
        r == tidx_spec(slot, cv, node),
        r < TSIZE,
{
    let mut h = (cv as u64).wrapping_mul(0x9E37_79B9_7F4A_7C15);
    h ^= (node as u64).wrapping_mul(0xC2B2_AE3D_27D4_EB4F);
    h ^= (slot as u64).wrapping_mul(0x1656_67B1_9E37_79F9);
    h ^= h >> 29;
    proof {
        crate::bitfacts::lemma_mask_le(h as usize, (TSIZE - 1) as usize);
    }
    (h as usize) & (TSIZE - 1)
}

pub struct Model {
    /// The direction tables, one after another (`NDIR * TSIZE`).
    pub tabs: Vec<u16>,
    pub dir_kind: [u8; 4],
    pub hist: [u32; 5],
    pub w: Vec<i32>,
    pub st_buf: [i32; 4],
    pub idx_buf: [usize; 4],
    pub wslot: [usize; 4],
    pub bitpos: u32,
    pub mode: DirMode,
    pub lcg: u64,
    pub stretch: Vec<i32>,
}

pub struct DirState {
    pub tabs: Seq<u16>,
    pub dir_kind: Seq<u8>,
    pub hist: Seq<u32>,
    pub w: Seq<i32>,
    pub st_buf: Seq<i32>,
    pub idx_buf: Seq<usize>,
    pub wslot: Seq<usize>,
    pub bitpos: u32,
    pub mode: DirMode,
    pub lcg: u64,
    pub stretch: Seq<i32>,
}

impl View for Model {
    type V = DirState;

    open spec fn view(&self) -> DirState {
        DirState {
            tabs: self.tabs@,
            dir_kind: self.dir_kind@,
            hist: self.hist@,
            w: self.w@,
            st_buf: self.st_buf@,
            idx_buf: self.idx_buf@,
            wslot: self.wslot@,
            bitpos: self.bitpos,
            mode: self.mode,
            lcg: self.lcg,
            stretch: self.stretch@,
        }
    }
}

pub open spec fn dir_wf(s: DirState) -> bool {
    &&& s.tabs.len() == NDIR * TSIZE
    &&& forall|i: int| 0 <= i < s.tabs.len() ==> #[trigger] s.tabs[i] <= 4095
    &&& s.dir_kind.len() == 4
    &&& s.hist.len() == 5
    &&& forall|i: int| 0 <= i < 5 ==> #[trigger] s.hist[i] < 256
    &&& s.w.len() == 8 * NDIR
    &&& s.st_buf.len() == 4
    &&& forall|i: int| 0 <= i < 4 ==> -2047 <= #[trigger] s.st_buf[i] <= 2047
    &&& s.idx_buf.len() == 4
    &&& forall|i: int| 0 <= i < 4 ==> #[trigger] s.idx_buf[i] < TSIZE
    &&& s.wslot.len() == 4
    &&& forall|i: int| 0 <= i < 4 ==> #[trigger] s.wslot[i] < 8 * NDIR
    &&& s.bitpos < 8
    &&& s.stretch.len() == 4096
    &&& forall|i: int| 0 <= i < 4096 ==> -2047 <= #[trigger] s.stretch[i] <= 2047
}

pub open spec fn kinds_of(mode: DirMode) -> Seq<u8> {
    if mode == DirMode::Dup {
        seq![1u8, 1, 1, 1]
    } else {
        seq![0u8, 1, 2, 3]
    }
}

pub open spec fn dir_init(mode: DirMode) -> DirState {
    DirState {
        tabs: Seq::new((NDIR * TSIZE) as nat, |i: int| 2048u16),
        dir_kind: kinds_of(mode),
        hist: seq![0u32, 0, 0, 0, 0],
        w: Seq::new((8 * NDIR) as nat, |i: int| 16384i32),
        st_buf: seq![0i32, 0, 0, 0],
        idx_buf: seq![0usize, 0, 0, 0],
        wslot: seq![0usize, 0, 0, 0],
        bitpos: 0,
        mode,
        lcg: 0x9E37_79B9_7F4A_7C15,
        stretch: Seq::new(4096, |q: int| stretch_of(q) as i32),
    }
}

/// The context value a direction of kind `kind` reads from the history.
pub open spec fn cv_spec(hist: Seq<u32>, kind: u8) -> u32 {
    if kind == 0 {
        hist[1]
    } else if kind == 1 {
        hist[1] | (hist[2] << 8u32)
    } else if kind == 2 {
        hist[1] | (hist[2] << 8u32) | (hist[3] << 16u32)
    } else {
        hist[2] | (hist[4] << 8u32)
    }
}

/// A fresh model mixes order-1, order-2, order-3 and skip contexts, except
/// in `Dup` mode, where all four directions read the order-2 context.
pub proof fn lemma_init_kinds(mode: DirMode)
    ensures
        mode == DirMode::Dup ==> forall|i: int| 0 <= i < 4 ==> #[trigger] dir_init(mode).dir_kind[i]
            == 1,
        mode != DirMode::Dup ==> forall|i: int|
            0 <= i < 4 ==> #[trigger] dir_init(mode).dir_kind[i] == i,
        dir_init(mode).dir_kind.len() == 4,
{
}

/// The context value of direction kind 1 is the previous two bytes, and
/// pushing bytes `b1` then `b2` makes that context `(b1, b2)`.
pub proof fn lemma_order2_context(s: DirState, b1: u8, b2: u8)
    requires
        s.hist.len() == 5,
    ensures
        push_of(push_of(s, b1), b2).hist[1] == b2 as u32,
        push_of(push_of(s, b1), b2).hist[2] == b1 as u32,
        cv_spec(push_of(push_of(s, b1), b2).hist, 1) == (b2 as u32) | ((b1 as u32) << 8u32),
{
}

pub open spec fn lcg_step(x: u64) -> u64 {
    x.wrapping_mul(6364136223846793005u64).wrapping_add(1442695040888963407u64)
}

pub open spec fn swap_at(p: Seq<usize>, a: int, b: int) -> Seq<usize> {
    p.update(a, p[b]).update(b, p[a])
}

/// The generator after three steps and the weight-slot permutation they
/// draw (Fisher-Yates from the top).
pub open spec fn shuffled(x: u64) -> (u64, Seq<usize>) {
    let l1 = lcg_step(x);
    let p1 = swap_at(seq![0usize, 1, 2, 3], 3, ((l1 >> 33u64) as usize % 4) as int);
    let l2 = lcg_step(l1);
    let p2 = swap_at(p1, 2, ((l2 >> 33u64) as usize % 3) as int);
    let l3 = lcg_step(l2);
    let p3 = swap_at(p2, 1, ((l3 >> 33u64) as usize % 2) as int);
    (l3, p3)
}

pub open spec fn perm_lcg(s: DirState) -> (u64, Seq<usize>) {
    if s.mode == DirMode::Shuffle {
        shuffled(s.lcg)
    } else {
        (s.lcg, seq![0usize, 1, 2, 3])
    }
}

/// Table slot of direction `i`.
pub open spec fn slot_of(s: DirState, node: u32, i: int) -> usize {
    tidx_spec(i as usize, cv_spec(s.hist, s.dir_kind[i]), node)
}

/// Stretched prediction of direction `i`.
pub open spec fn input_of(s: DirState, node: u32, i: int) -> i32 {
    s.stretch[s.tabs[i * TSIZE + slot_of(s, node, i)] as int]
}

pub open spec fn clamp_logit(d: i32) -> i32 {
    if d > 2047 {
        2047
    } else if d < -2047 {
        -2047i32
    } else {
        d
    }
}

pub open spec fn clamp_prob(p: i32) -> i32 {
    if p < 1 {
        1
    } else if p > 4094 {
        4094
    } else {
        p
    }
}

pub open spec fn predict_of(s: DirState, node: u32) -> (u32, DirState) {
    let (lcg, perm) = perm_lcg(s);
    let base = (s.bitpos as usize) * NDIR;
    let ws = Seq::new(4, |i: int| (base + perm[i]) as usize);
    let st = Seq::new(4, |i: int| input_of(s, node, i));
    let dot = (s.w[ws[0] as int] as i64) * (st[0] as i64) + (s.w[ws[1] as int] as i64) * (st[1] as i64)
        + (s.w[ws[2] as int] as i64) * (st[2] as i64) + (s.w[ws[3] as int] as i64) * (st[3] as i64);
    let d = clamp_logit(((dot as i64) >> 16i64) as i32);
    let p = clamp_prob(spec_squash(d));
    (
        p as u32,
        DirState {
            lcg,
            idx_buf: Seq::new(4, |i: int| slot_of(s, node, i)),
            st_buf: st,
            wslot: ws,
            ..s
        },
    )
}

/// Weight step of direction `i` for the error `err`.
pub open spec fn delta_of(st: i32, err: i32) -> i32 {
    ((st * err + 0x8000) as i32) >> 16i32
}

pub open spec fn learn_of(s: DirState, bit: u32, pr: u32) -> DirState {
    let err = ((((bit as i32) << 12i32) - (pr as i32)) * 7) as i32;
    DirState { tabs: learn_tabs(s, bit, 4), w: learn_w(s, err, 4), bitpos: ((s.bitpos + 1) % 8) as u32, ..s }
}

pub open spec fn push_of(s: DirState, b: u8) -> DirState {
    DirState { hist: seq![s.hist[0], b as u32, s.hist[1], s.hist[2], s.hist[3]], ..s }
}

pub open spec fn reset_of(s: DirState) -> DirState {
    DirState { hist: seq![0u32, 0, 0, 0, 0], ..s }
}


proof fn lemma_predict_wf(s: DirState, node: u32)
    requires
        dir_wf(s),
    ensures
        dir_wf(predict_of(s, node).1),
        predict_of(s, node).0 <= 4095,
{
    let (lcg, perm) = perm_lcg(s);
    lemma_perm_range(s);
    let r = predict_of(s, node).1;
    assert forall|i: int| 0 <= i < 4 implies #[trigger] r.idx_buf[i] < TSIZE by {
        lemma_tidx(i as usize, cv_spec(s.hist, s.dir_kind[i]), node);
    }
    assert forall|i: int| 0 <= i < 4 implies -2047 <= #[trigger] r.st_buf[i] <= 2047 by {
        lemma_tidx(i as usize, cv_spec(s.hist, s.dir_kind[i]), node);
        assert(i * TSIZE + slot_of(s, node, i) < NDIR * TSIZE) by (nonlinear_arith)
            requires
                0 <= i < 4,
                slot_of(s, node, i) < TSIZE,
        ;
    }
    assert forall|i: int| 0 <= i < 4 implies #[trigger] r.wslot[i] < 8 * NDIR by {
        assert(perm[i] < 4);
    }
    let st = r.st_buf;
    let ws = r.wslot;
    let dot = (s.w[ws[0] as int] as i64) * (st[0] as i64) + (s.w[ws[1] as int] as i64) * (st[1] as i64)
        + (s.w[ws[2] as int] as i64) * (st[2] as i64) + (s.w[ws[3] as int] as i64) * (st[3] as i64);
    lemma_squash_range(clamp_logit(((dot as i64) >> 16i64) as i32));
}

proof fn lemma_tidx(slot: usize, cv: u32, node: u32)
    ensures
        tidx_spec(slot, cv, node) < TSIZE,
{
    let h1 = (cv as u64).wrapping_mul(0x9E37_79B9_7F4A_7C15u64);
    let h2 = h1 ^ (node as u64).wrapping_mul(0xC2B2_AE3D_27D4_EB4Fu64);
    let h3 = h2 ^ (slot as u64).wrapping_mul(0x1656_67B1_9E37_79F9u64);
    let h4 = h3 ^ (h3 >> 29u64);
    crate::bitfacts::lemma_mask_le(h4 as usize, (TSIZE - 1) as usize);
}

/// The weight-slot permutation only holds slots 0..4.
proof fn lemma_perm_range(s: DirState)
    ensures
        perm_lcg(s).1.len() == 4,
        forall|i: int| 0 <= i < 4 ==> #[trigger] perm_lcg(s).1[i] < 4,
{
    let p = perm_lcg(s).1;
    if s.mode == DirMode::Shuffle {
        let x = s.lcg;
        let l1 = lcg_step(x);
        let j1 = (l1 >> 33u64) as usize % 4;
        let p1 = swap_at(seq![0usize, 1, 2, 3], 3, j1 as int);
        let l2 = lcg_step(l1);
        let j2 = (l2 >> 33u64) as usize % 3;
        let p2 = swap_at(p1, 2, j2 as int);
        let l3 = lcg_step(l2);
        let j3 = (l3 >> 33u64) as usize % 2;
        assert(forall|i: int| 0 <= i < 4 ==> #[trigger] p1[i] < 4);
        assert(forall|i: int| 0 <= i < 4 ==> #[trigger] p2[i] < 4);
    }
}

proof fn lemma_learn_wf(s: DirState, bit: u32, pr: u32)
    requires
        dir_wf(s),
        bit <= 1,
        pr <= 4095,
    ensures
        dir_wf(learn_of(s, bit, pr)),
{
    lemma_learn_tabs_range(s, bit, 4);
    lemma_learn_w_len(s, ((((bit as i32) << 12i32) - (pr as i32)) * 7) as i32, 4);
}

proof fn lemma_learn_w_len(s: DirState, err: i32, k: int)
    requires
        dir_wf(s),
        0 <= k <= 4,
    ensures
        learn_w(s, err, k).len() == s.w.len(),
    decreases k,
{
    if k > 0 {
        lemma_learn_w_len(s, err, k - 1);
    }
}

proof fn lemma_init_wf(mode: DirMode)
    ensures
        dir_wf(dir_init(mode)),
{
    assert forall|q: int| 0 <= q < 4096 implies -2047 <= #[trigger] dir_init(mode).stretch[q] <= 2047 by {
        lemma_stretch_range(q);
    }
}

/// A weight times a stretched input, in 64 bits.
fn wmul(w: i32, x: i32) -> (r: i64)
    requires
        -2047 <= x <= 2047,
    ensures
        r == (w as i64) * (x as i64),
        -0x400_0000_0000 <= r <= 0x400_0000_0000,
{
    assert(-0x400_0000_0000 <= (w as i64) * (x as i64) <= 0x400_0000_0000) by (nonlinear_arith)
        requires
            -0x8000_0000 <= w <= 0x7fff_ffff,
            -2047 <= x <= 2047,
    ;
    (w as i64) * (x as i64)
}

impl Model {
    pub fn new(mode: DirMode) -> (m: Self)
        ensures
            m@ == dir_init(mode),
            dir_wf(m@),
            mode == DirMode::Dup ==> m.dir_kind@ == seq![1u8, 1, 1, 1],
            mode != DirMode::Dup ==> m.dir_kind@ == seq![0u8, 1, 2, 3],
    {
        let dir_kind: [u8; 4] = if mode == DirMode::Dup {
            [1u8, 1, 1, 1]
        } else {
            [0u8, 1, 2, 3]
        };
        let init_w: i32 = 65536 / NDIR as i32;
        let m = Model {
            tabs: vec![2048u16; NDIR * TSIZE],
            dir_kind,
            hist: [0; 5],
            w: vec![init_w; 8 * NDIR],
            st_buf: [0; 4],
            idx_buf: [0; 4],
            wslot: [0; 4],
            bitpos: 0,
            mode,
            lcg: 0x9E37_79B9_7F4A_7C15,
            stretch: build_stretch(),
        };
        proof {
            assert(m@.tabs =~= dir_init(mode).tabs);
            assert(m@.w =~= dir_init(mode).w);
            assert(m@.stretch =~= dir_init(mode).stretch);
            assert(m@.dir_kind =~= dir_init(mode).dir_kind);
            assert(m@.hist =~= dir_init(mode).hist);
            assert(m@.st_buf =~= dir_init(mode).st_buf);
            assert(m@.idx_buf =~= dir_init(mode).idx_buf);
            assert(m@.wslot =~= dir_init(mode).wslot);
            lemma_init_wf(mode);
        }
        m
    }

    /// Forget the byte history (a new sweep starts).
    pub fn reset_hist(&mut self)
        ensures
            final(self)@ == reset_of(old(self)@),
    {
        self.hist = [0; 5];
        assert(self@.hist =~= seq![0u32, 0, 0, 0, 0]);
    }

    /// Shift `b` into the byte history.
    pub fn push_byte(&mut self, b: u8)
        requires
            old(self)@.hist.len() == 5,
        ensures
            final(self)@ == push_of(old(self)@, b),
    {
        self.hist[4] = self.hist[3];
        self.hist[3] = self.hist[2];
        self.hist[2] = self.hist[1];
        self.hist[1] = b as u32;
        assert(self@.hist =~= push_of(old(self)@, b).hist);
    }

    /// The context value direction kind `kind` reads.
    pub fn context_value(&self, kind: u8) -> (v: u32)
        ensures
            v == cv_spec(self.hist@, kind),
    {
        if kind == 0 {
            self.hist[1]
        } else if kind == 1 {
            self.hist[1] | (self.hist[2] << 8)
        } else if kind == 2 {
            self.hist[1] | (self.hist[2] << 8) | (self.hist[3] << 16)
        } else {
            self.hist[2] | (self.hist[4] << 8)
        }
    }

    fn input(&mut self, i: usize, node: u32, ws: usize) -> (st: i32)
        requires
            dir_wf(old(self)@),
            i < 4,
            ws < 8 * NDIR,
        ensures
            st == input_of(old(self)@, node, i as int),
            final(self)@ == (DirState {
                idx_buf: old(self)@.idx_buf.update(i as int, slot_of(old(self)@, node, i as int)),
                st_buf: old(self)@.st_buf.update(i as int, st),
                wslot: old(self)@.wslot.update(i as int, ws),
                ..old(self)@
            }),
            -2047 <= st <= 2047,
            dir_wf(final(self)@),
    {
        let cv = self.context_value(self.dir_kind[i]);
        let idx = tidx(i, cv, node);
        self.idx_buf[i] = idx;
        assert(i * TSIZE + idx < NDIR * TSIZE) by (nonlinear_arith)
            requires
                i < 4,
                idx < TSIZE,
        ;
        let p = self.tabs[i * TSIZE + idx] as usize;
        let st = self.stretch[p];
        self.st_buf[i] = st;
        self.wslot[i] = ws;
        st
    }

    /// P(bit = 1) of the bit at `node`.
    pub fn predict(&mut self, node: u32) -> (p: u32)
        requires
            dir_wf(old(self)@),
        ensures
            (p, final(self)@) == predict_of(old(self)@, node),
    {
        let ghost s = self@;
        proof {
            lemma_predict_wf(s, node);
            lemma_perm_range(s);
        }
        let base = (self.bitpos as usize) * NDIR;
        let mut perm: [usize; 4] = [0, 1, 2, 3];
        if self.mode == DirMode::Shuffle {
            self.lcg = self.lcg.wrapping_mul(6364136223846793005).wrapping_add(1442695040888963407);
            let j = ((self.lcg >> 33) as usize) % 4;
            let tmp = perm[3];
            perm[3] = perm[j];
            perm[j] = tmp;
            self.lcg = self.lcg.wrapping_mul(6364136223846793005).wrapping_add(1442695040888963407);
            let j = ((self.lcg >> 33) as usize) % 3;
            let tmp = perm[2];
            perm[2] = perm[j];
            perm[j] = tmp;
            self.lcg = self.lcg.wrapping_mul(6364136223846793005).wrapping_add(1442695040888963407);
            let j = ((self.lcg >> 33) as usize) % 2;
            let tmp = perm[1];
            perm[1] = perm[j];
            perm[j] = tmp;
        }
        assert(perm@ =~= perm_lcg(s).1);
        assert(self.lcg == perm_lcg(s).0);
        let s0 = self.input(0, node, base + perm[0]);
        let s1 = self.input(1, node, base + perm[1]);
        let s2 = self.input(2, node, base + perm[2]);
        let s3 = self.input(3, node, base + perm[3]);
        let dot: i64 = wmul(self.w[base + perm[0]], s0) + wmul(self.w[base + perm[1]], s1) + wmul(
            self.w[base + perm[2]],
            s2,
        ) + wmul(self.w[base + perm[3]], s3);
        let mut d = (dot >> 16) as i32;
        if d > 2047 {
            d = 2047;
        }
        if d < -2047 {
            d = -2047;
        }
        let mut pr = squash(d);
        if pr < 1 {
            pr = 1;
        }
        if pr > 4094 {
            pr = 4094;
        }
        proof {
            assert(self@.idx_buf =~= predict_of(s, node).1.idx_buf);
            assert(self@.st_buf =~= predict_of(s, node).1.st_buf);
            assert(self@.wslot =~= predict_of(s, node).1.wslot);
        }
        pr as u32
    }

    /// Learn that the bit was `bit`, predicted with `pr`.
    pub fn update(&mut self, bit: u32, pr: u32)
        requires
            dir_wf(old(self)@),
            bit <= 1,
            pr <= 4095,
        ensures
            final(self)@ == learn_of(old(self)@, bit, pr),
    {
        let ghost s = self@;
        proof {
            lemma_learn_wf(s, bit, pr);
            crate::bitfacts::lemma_bit_target(bit);
        }
        let err = (((bit as i32) << 12) - pr as i32) * 7;
        assert(-28672 <= err <= 28672);
        let mut i: usize = 0;
        while i < 4
            invariant
                i <= 4,
                dir_wf(s),
                bit <= 1,
                err == ((((bit as i32) << 12i32) - (pr as i32)) * 7) as i32,
                -28672 <= err <= 28672,
                self@.tabs.len() == NDIR * TSIZE,
                self@.w.len() == 8 * NDIR,
                self@.idx_buf == s.idx_buf,
                self@.wslot == s.wslot,
                self@.st_buf == s.st_buf,
                self@.bitpos == s.bitpos,
                self@.hist == s.hist,
                self@.dir_kind == s.dir_kind,
                self@.mode == s.mode,
                self@.lcg == s.lcg,
                self@.stretch == s.stretch,
                self@.tabs == learn_tabs(s, bit, i as int),
                self@.w == learn_w(s, err, i as int),
            decreases 4 - i,
        {
            let idx = i * TSIZE + self.idx_buf[i];
            assert(idx < NDIR * TSIZE) by (nonlinear_arith)
                requires
                    i < 4,
                    idx == i * TSIZE + s.idx_buf[i as int],
                    s.idx_buf[i as int] < TSIZE,
            ;
            proof {
                lemma_learn_tabs_range(s, bit, i as int);
            }
            let v = adapt_counter(self.tabs[idx], bit, RATE);
            self.tabs.set(idx, v);
            let ws = self.wslot[i];
            let x = self.st_buf[i];
            assert(-0x380_0000 <= x * err <= 0x380_0000) by (nonlinear_arith)
                requires
                    -2047 <= x <= 2047,
                    -28672 <= err <= 28672,
            ;
            let delta = (x * err + 0x8000) >> 16;
            let nw = self.w[ws].wrapping_add(delta);
            self.w.set(ws, nw);
            i += 1;
        }
        self.bitpos = (self.bitpos + 1) % 8;
    }
}

/// The tables after updating directions `0..k`.
pub open spec fn learn_tabs(s: DirState, bit: u32, k: int) -> Seq<u16>
    decreases k,
{
    if k <= 0 {
        s.tabs
    } else {
        let t = learn_tabs(s, bit, k - 1);
        let j = (k - 1) * TSIZE + s.idx_buf[k - 1];
        t.update(j, adapt(t[j], bit, RATE))
    }
}

/// The weights after updating directions `0..k`.
pub open spec fn learn_w(s: DirState, err: i32, k: int) -> Seq<i32>
    decreases k,
{
    if k <= 0 {
        s.w
    } else {
        let w = learn_w(s, err, k - 1);
        let j = s.wslot[k - 1] as int;
        w.update(j, w[j].wrapping_add(delta_of(s.st_buf[k - 1], err)))
    }
}

proof fn lemma_learn_tabs_range(s: DirState, bit: u32, k: int)
    requires
        dir_wf(s),
        bit <= 1,
        0 <= k <= 4,
    ensures
        learn_tabs(s, bit, k).len() == s.tabs.len(),
        forall|j: int| 0 <= j < s.tabs.len() ==> #[trigger] learn_tabs(s, bit, k)[j] <= 4095,
    decreases k,
{
    if k > 0 {
        lemma_learn_tabs_range(s, bit, k - 1);
        let t = learn_tabs(s, bit, k - 1);
        let j = (k - 1) * TSIZE + s.idx_buf[k - 1];
        assert(0 <= j < NDIR * TSIZE) by (nonlinear_arith)
            requires
                1 <= k <= 4,
                j == (k - 1) * TSIZE + s.idx_buf[k - 1],
                s.idx_buf[k - 1] < TSIZE,
        ;
        lemma_adapt_bound(t[j], bit, RATE);
    }
}


impl BitModel for Model {
    open spec fn wf(s: DirState) -> bool {
        dir_wf(s)
    }

    open spec fn sp_begin(s: DirState) -> DirState {
        s
    }

    open spec fn sp_predict(s: DirState, node: u32, i: u32) -> (u32, DirState) {
        predict_of(s, node)
    }

    open spec fn sp_learn(s: DirState, node: u32, i: u32, bit: u32, p: u32) -> DirState {
        learn_of(s, bit, p)
    }

    open spec fn sp_end(s: DirState, b: u8) -> DirState {
        push_of(s, b)
    }

    proof fn lemma_begin_wf(s: DirState) {
    }

    proof fn lemma_predict_wf(s: DirState, node: u32, i: u32) {
        lemma_predict_wf(s, node);
    }

    proof fn lemma_learn_wf(s: DirState, node: u32, i: u32, bit: u32, p: u32) {
        lemma_learn_wf(s, bit, p);
    }

    proof fn lemma_end_wf(s: DirState, b: u8) {
    }

    fn begin_bits(&mut self) {
    }

    fn predict_bit(&mut self, node: u32, i: u32) -> (p: u32) {
        self.predict(node)
    }

    fn learn_bit(&mut self, node: u32, i: u32, bit: u32, p: u32) {
        self.update(bit, p)
    }

    fn end_bits(&mut self, b: u8) {
        self.push_byte(b)
    }
}

/// Run the model over known `bytes`, coding them into `enc` when there is
/// one (a transmitted pass) and only learning otherwise (a warm-up sweep).
pub fn feed_bytes(m: &mut Model, bytes: &[u8], enc: &mut Option<Encoder>)
    requires
        dir_wf(old(m)@),
        *old(enc) matches Some(e) ==> crate::coder::enc_valid(e@),
    ensures
        final(m)@ == code_data::<Model>(old(m)@, bytes@).0,
        dir_wf(final(m)@),
        *old(enc) is None ==> *final(enc) is None,
        *old(enc) matches Some(e0) ==> (*final(enc) matches Some(e1) && e1@ == crate::coder::enc_run(
            e0@,
            code_data::<Model>(old(m)@, bytes@).1,
            code_data::<Model>(old(m)@, bytes@).2,
        ) && crate::coder::enc_valid(e1@) && e0@.out.is_prefix_of(e1@.out)),
{
    match enc {
        Some(e) => encode_bytes(m, e, bytes),
        None => train_bytes(m, bytes),
    }
}

/// One warm-up sweep over `train` from an empty history.
#[verifier::opaque]
pub open spec fn sweep(s: DirState, train: Seq<u8>) -> DirState {
    code_data::<Model>(reset_of(s), train).0
}

/// `k` warm-up sweeps over `train`.
pub open spec fn warm(s: DirState, train: Seq<u8>, k: nat) -> DirState
    decreases k,
{
    if k == 0 {
        s
    } else {
        warm(sweep(s, train), train, (k - 1) as nat)
    }
}

pub open spec fn warm_count(passes: u32) -> nat {
    if passes >= 1 {
        (passes - 1) as nat
    } else {
        0
    }
}

/// The two code streams: the first half of `data` from a fresh model, and
/// the second half from the model warmed over the first.
pub open spec fn dir_streams(data: Seq<u8>, passes: u32, mode: DirMode) -> (Seq<u8>, Seq<u8>) {
    let t = data.len() / 2;
    let train = data.take(t as int);
    let held = data.skip(t as int);
    let s0 = dir_init(mode);
    let w = warm(code_data::<Model>(s0, train).0, train, warm_count(passes));
    (data_stream::<Model>(s0, train), data_stream::<Model>(w, held))
}

/// The archive: n, t = n / 2, passes, mode, first stream length, streams.
pub open spec fn dir_archive(data: Seq<u8>, passes: u32, mode: DirMode) -> Seq<u8> {
    let st = dir_streams(data, passes, mode);
    u64_le(data.len() as u64) + u64_le((data.len() / 2) as u64) + u32_le(passes) + seq![mode_code(mode)]
        + u64_le(st.0.len() as u64) + st.0 + st.1
}

pub struct CompRes {
    pub archive: Vec<u8>,
    /// Length of the second (held-out) code stream.
    pub heldout_bytes: usize,
}

proof fn lemma_warm_wf(s: DirState, train: Seq<u8>, k: nat)
    requires
        dir_wf(s),
    ensures
        dir_wf(warm(s, train, k)),
    decreases k,
{
    if k > 0 {
        lemma_code_data_ok::<Model>(reset_of(s), train);
        reveal(sweep);
        lemma_warm_wf(sweep(s, train), train, (k - 1) as nat);
    }
}

/// The code stream of `bytes` from the model `m`, which learns them.
fn code_stream(m: &mut Model, bytes: &[u8]) -> (out: Vec<u8>)
    requires
        dir_wf(old(m)@),
    ensures
        out@ == data_stream::<Model>(old(m)@, bytes@),
        final(m)@ == code_data::<Model>(old(m)@, bytes@).0,
        dir_wf(final(m)@),
{
    let mut e: Option<Encoder> = Some(Encoder::new());
    proof {
        crate::coder::lemma_initial_interval();
    }
    feed_bytes(m, bytes, &mut e);
    let mut e = e.unwrap();
    e.flush();
    e.out
}

/// `passes - 1` warm-up sweeps of `m` over `train`.
fn warm_up(m: &mut Model, train: &[u8], passes: u32)
    requires
        dir_wf(old(m)@),
    ensures
        final(m)@ == warm(old(m)@, train@, warm_count(passes)),
        dir_wf(final(m)@),
{
    let ghost c1 = m@;
    let mut k: u32 = 1;
    while k < passes
        invariant
            1 <= k,
            k <= passes || (passes == 0 && k == 1),
            dir_wf(m@),
            m@ == warm(c1, train@, (k - 1) as nat),
        decreases passes - k,
    {
        let ghost before = m@;
        m.reset_hist();
        let mut none: Option<Encoder> = None;
        proof {
            lemma_warm_step(c1, train@, (k - 1) as nat);
        }
        feed_bytes(m, train, &mut none);
        assert(m@ == sweep(before, train@)) by {
            reveal(sweep);
        }
        k += 1;
    }
    assert((k - 1) as nat == warm_count(passes));
}

/// Code `data` under `passes` and `mode`.
pub fn compress(data: &[u8], passes: u32, mode: DirMode) -> (r: CompRes)
    ensures
        r.archive@ == dir_archive(data@, passes, mode),
        r.heldout_bytes == dir_streams(data@, passes, mode).1.len(),
{
    let n = data.len();
    let t = n / 2;
    let train = slice_range(data, 0, t);
    let held = slice_range(data, t, n);
    let mut m = Model::new(mode);
    let s1 = code_stream(&mut m, train);
    warm_up(&mut m, train, passes);
    let s2 = code_stream(&mut m, held);
    let mut archive: Vec<u8> = Vec::new();
    push_u64_le(&mut archive, n as u64);
    push_u64_le(&mut archive, t as u64);
    push_u32_le(&mut archive, passes);
    archive.push(mode.as_u8());
    push_u64_le(&mut archive, s1.len() as u64);
    append_bytes(&mut archive, s1.as_slice());
    append_bytes(&mut archive, s2.as_slice());
    proof {
        assert(train@ == data@.take(t as int));
        assert(held@ == data@.skip(t as int));
    }
    CompRes { archive, heldout_bytes: s2.len() }
}

/// One more sweep on top of `k` sweeps.
proof fn lemma_warm_step(s: DirState, train: Seq<u8>, k: nat)
    ensures
        warm(s, train, k + 1) == sweep(warm(s, train, k), train),
    decreases k,
{
    if k == 0 {
        assert(warm(sweep(s, train), train, 0) == sweep(s, train));
    } else {
        lemma_warm_step(sweep(s, train), train, (k - 1) as nat);
        assert(warm(s, train, k) == warm(sweep(s, train), train, (k - 1) as nat));
        assert(warm(s, train, k + 1) == warm(sweep(s, train), train, k));
    }
}


pub open spec fn hdr_n(a: Seq<u8>) -> usize {
    le_u64_at(a, 0) as usize
}

pub open spec fn hdr_t(a: Seq<u8>) -> usize {
    le_u64_at(a, 8) as usize
}

pub open spec fn hdr_tsl(a: Seq<u8>) -> usize {
    le_u64_at(a, 21) as usize
}

/// The header is complete, the first stream lies inside the archive and
/// the first half is no longer than the whole.
pub open spec fn dir_restorable(a: Seq<u8>) -> bool {
    &&& a.len() >= HDR
    &&& HDR + hdr_tsl(a) <= a.len()
    &&& hdr_t(a) <= hdr_n(a)
}

/// What decoding the archive `a` gives.
pub open spec fn dir_restore(a: Seq<u8>) -> Seq<u8> {
    let n = hdr_n(a);
    let t = hdr_t(a);
    let tsl = hdr_tsl(a);
    let mode = mode_of(a[20]);
    let r1 = dec_data::<Model>(dir_init(mode), dec_init(a.subrange(HDR as int, HDR + tsl)), t as nat);
    let w = warm(r1.0, r1.2, warm_count(le_u32_at(a, 16)));
    let r2 = dec_data::<Model>(w, dec_init(a.subrange(HDR + tsl, a.len() as int)), (n - t) as nat);
    r1.2 + r2.2
}

/// Decode an archive written by `compress`.
pub fn decompress(archive: &[u8]) -> (out: Vec<u8>)
    requires
        dir_restorable(archive@),
    ensures
        out@ == dir_restore(archive@),
{
    let n = read_u64_le(archive, 0) as usize;
    let t = read_u64_le(archive, 8) as usize;
    let passes = read_u32_le(archive, 16);
    let mode = DirMode::from_u8(archive[20]);
    let tsl = read_u64_le(archive, 21) as usize;
    let train_stream = slice_range(archive, HDR, HDR + tsl);
    let held_stream = slice_range(archive, HDR + tsl, archive.len());
    let mut m = Model::new(mode);
    let mut d1 = Decoder::new(train_stream);
    let train_known = decode_bytes(&mut m, &mut d1, t);
    warm_up(&mut m, train_known.as_slice(), passes);
    let mut d2 = Decoder::new(held_stream);
    let held = decode_bytes(&mut m, &mut d2, n - t);
    let mut out: Vec<u8> = Vec::new();
    append_bytes(&mut out, train_known.as_slice());
    append_bytes(&mut out, held.as_slice());
    out
}

/// Decode an archive, or `None` where its header or first stream does not
/// fit it.
pub fn try_decompress(archive: &[u8]) -> (r: Option<Vec<u8>>)
    ensures
        r is None <==> !dir_restorable(archive@),
        r matches Some(out) ==> out@ == dir_restore(archive@),
{
    if archive.len() < HDR {
        return None;
    }
    let n = read_u64_le(archive, 0) as usize;
    let t = read_u64_le(archive, 8) as usize;
    let tsl = read_u64_le(archive, 21) as usize;
    if tsl > archive.len() - HDR || t > n {
        return None;
    }
    Some(decompress(archive))
}

/// Reading back the fields of an archive laid out by `compress`.
proof fn lemma_dir_layout(n: u64, t: u64, passes: u32, code: u8, s1: Seq<u8>, s2: Seq<u8>)
    requires
        s1.len() <= u64::MAX,
    ensures
        ({
            let a = u64_le(n) + u64_le(t) + u32_le(passes) + seq![code] + u64_le(s1.len() as u64) + s1
                + s2;
            &&& a.len() == HDR + s1.len() + s2.len()
            &&& le_u64_at(a, 0) == n
            &&& le_u64_at(a, 8) == t
            &&& le_u32_at(a, 16) == passes
            &&& a[20] == code
            &&& le_u64_at(a, 21) == s1.len() as u64
            &&& a.subrange(HDR as int, HDR + s1.len()) == s1
            &&& a.subrange(HDR + s1.len(), a.len() as int) == s2
        }),
{
    let h1 = u64_le(n);
    let h2 = u64_le(t);
    let h3 = u32_le(passes);
    let h4 = seq![code];
    let h5 = u64_le(s1.len() as u64);
    let a = h1 + h2 + h3 + h4 + h5 + s1 + s2;
    assert(a == Seq::<u8>::empty() + h1 + (h2 + h3 + h4 + h5 + s1 + s2));
    lemma_u64_roundtrip(n, Seq::empty(), h2 + h3 + h4 + h5 + s1 + s2);
    assert(a == h1 + h2 + (h3 + h4 + h5 + s1 + s2));
    lemma_u64_roundtrip(t, h1, h3 + h4 + h5 + s1 + s2);
    assert(a == (h1 + h2) + h3 + (h4 + h5 + s1 + s2));
    lemma_u32_roundtrip(passes, h1 + h2, h4 + h5 + s1 + s2);
    assert(a == (h1 + h2 + h3 + h4) + h5 + (s1 + s2));
    lemma_u64_roundtrip(s1.len() as u64, h1 + h2 + h3 + h4, s1 + s2);
    assert(a.subrange(HDR as int, HDR + s1.len()) =~= s1);
    assert(a.subrange(HDR + s1.len(), a.len() as int) =~= s2);
}

proof fn lemma_dir_header(data: Seq<u8>, passes: u32, mode: DirMode)
    requires
        data.len() <= usize::MAX,
        dir_archive(data, passes, mode).len() <= usize::MAX,
    ensures
        ({
            let a = dir_archive(data, passes, mode);
            let st = dir_streams(data, passes, mode);
            &&& dir_restorable(a)
            &&& hdr_n(a) == data.len()
            &&& hdr_t(a) == data.len() / 2
            &&& hdr_tsl(a) == st.0.len()
            &&& le_u32_at(a, 16) == passes
            &&& mode_of(a[20]) == mode
            &&& a.subrange(HDR as int, HDR + st.0.len()) == st.0
            &&& a.subrange(HDR + st.0.len(), a.len() as int) == st.1
        }),
{
    let st = dir_streams(data, passes, mode);
    lemma_dir_layout(data.len() as u64, (data.len() / 2) as u64, passes, mode_code(mode), st.0, st.1);
    assert(mode_of(mode_code(mode)) == mode);
}

/// Decoding the archive of `data` gives `data` back, for every number of
/// passes and every mode.
#[verifier::rlimit(40)]
pub proof fn lemma_roundtrip(data: Seq<u8>, passes: u32, mode: DirMode)
    requires
        data.len() <= usize::MAX,
        dir_archive(data, passes, mode).len() <= usize::MAX,
    ensures
        dir_restorable(dir_archive(data, passes, mode)),
        dir_restore(dir_archive(data, passes, mode)) == data,
{
    let t = data.len() / 2;
    let train = data.take(t as int);
    let held = data.skip(t as int);
    let s0 = dir_init(mode);
    lemma_dir_header(data, passes, mode);
    lemma_init_wf(mode);
    lemma_stream_roundtrip::<Model>(s0, train);
    let c1 = code_data::<Model>(s0, train).0;
    lemma_code_data_ok::<Model>(s0, train);
    let w = warm(c1, train, warm_count(passes));
    lemma_warm_wf(c1, train, warm_count(passes));
    lemma_stream_roundtrip::<Model>(w, held);
    assert(train + held =~= data);
}

} // verus!
