//! An order-2 direct context mixed with an LZP match model: the hash of the
//! last four bytes points at where that context was last followed, and the
//! byte found there is predicted bit by bit while the partial byte agrees.
//! A two-input logistic mixer, whose weight set is chosen by the match
//! state, combines the two.  Archive = 8-byte little-endian length, then the
//! code stream.
use vstd::prelude::*;
use crate::bitmodel::{data_stream, dec_data, decode_bytes, encode_bytes, lemma_stream_roundtrip, BitModel};
use crate::coder::{dec_init, Decoder, Encoder};
use crate::logistic::{
    adapt, adapt_counter, build_stretch_by, lemma_adapt_bound, lemma_squash_with_range,
    lemma_stretch_with_range, nodes_ok, squash_by, squash_with, stretch_with,
};
use crate::wire::{
    append_bytes, le_u64_at, lemma_u64_roundtrip, push_u64_le, read_u64_le, slice_range, u64_le,
};

verus! {

/// Order-2 contexts: (prev2, prev1, node).
pub const NCTX: usize = 0x100_0000;

pub const HTBITS: u32 = 22;

/// Hash table: hash(last 4 bytes) -> position.
pub const HTSIZE: usize = 0x40_0000;

/// Match-model counters: (length bucket, bit position, predicted bit).
pub const MM_SIZE: usize = 1024;

/// Context length hashed for the match search.
pub const MINLEN: usize = 4;

/// Mixer weight sets, chosen by the match state.
pub const WCTX: usize = 16;

pub const WBOUND: i32 = 0x10_0000;

pub const RATE: u32 = 5;

/// Interpolation nodes of this model's logistic curve.
pub const MATCH_SQUASH_T: [i32; 33] = [
    1, 2, 3, 6, 10, 16, 27, 45, 73, 120, 194, 310, 488, 747, 1101, 1546, 2047, 2549, 2994, 3348,
    3607, 3785, 3901, 3968, 4004, 4022, 4030, 4034, 4036, 4038, 4038, 4038, 4038,
];

pub open spec fn match_nodes() -> Seq<i32> {
    seq![
        1i32, 2, 3, 6, 10, 16, 27, 45, 73, 120, 194, 310, 488, 747, 1101, 1546, 2047, 2549, 2994,
        3348, 3607, 3785, 3901, 3968, 4004, 4022, 4030, 4034, 4036, 4038, 4038, 4038, 4038,
    ]
}

proof fn lemma_match_nodes()
    ensures
        MATCH_SQUASH_T@ == match_nodes(),
        nodes_ok(match_nodes()),
{
    assert(MATCH_SQUASH_T@ =~= match_nodes());
}

/// Logit -> 12-bit probability on this model's curve.
pub fn squash(d: i32) -> (r: i32)
    ensures
        r == squash_with(match_nodes(), d),
        0 <= r <= 4095,
{
    proof {
        lemma_match_nodes();
    }
    squash_by(&MATCH_SQUASH_T, d)
}

pub struct Model {
    pub t: Vec<u16>,
    pub c1: u32,
    pub c2: u32,
    pub mm: Vec<u16>,
    pub hist: Vec<u8>,
    pub ht: Vec<u32>,
    pub mptr: usize,
    pub mlen: u32,
    pub mvalid: bool,
    pub match_byte: u8,
    pub mm_active: bool,
    pub w: Vec<i32>,
    pub stretch_tab: Vec<i32>,
    pub tx0: i32,
    pub tx1: i32,
    pub wctx: usize,
    pub mm_idx: usize,
    pub mm_used: bool,
    pub pr: u32,
}

pub struct MatchState {
    pub t: Seq<u16>,
    pub c1: u32,
    pub c2: u32,
    pub mm: Seq<u16>,
    pub hist: Seq<u8>,
    pub ht: Seq<u32>,
    pub mptr: usize,
    pub mlen: u32,
    pub mvalid: bool,
    pub match_byte: u8,
    pub mm_active: bool,
    pub w: Seq<i32>,
    pub stretch: Seq<i32>,
    pub tx0: i32,
    pub tx1: i32,
    pub wctx: usize,
    pub mm_idx: usize,
    pub mm_used: bool,
    pub pr: u32,
}

impl View for Model {
    type V = MatchState;

    open spec fn view(&self) -> MatchState {
        MatchState {
            t: self.t@,
            c1: self.c1,
            c2: self.c2,
            mm: self.mm@,
            hist: self.hist@,
            ht: self.ht@,
            mptr: self.mptr,
            mlen: self.mlen,
            mvalid: self.mvalid,
            match_byte: self.match_byte,
            mm_active: self.mm_active,
            w: self.w@,
            stretch: self.stretch_tab@,
            tx0: self.tx0,
            tx1: self.tx1,
            wctx: self.wctx,
            mm_idx: self.mm_idx,
            mm_used: self.mm_used,
            pr: self.pr,
        }
    }
}

pub open spec fn match_wf(s: MatchState) -> bool {
    &&& s.t.len() == NCTX
    &&& forall|i: int| 0 <= i < s.t.len() ==> #[trigger] s.t[i] <= 4095
    &&& s.mm.len() == MM_SIZE
    &&& forall|i: int| 0 <= i < s.mm.len() ==> #[trigger] s.mm[i] <= 4095
    &&& s.ht.len() == HTSIZE
    &&& s.w.len() == 2 * WCTX
    &&& forall|i: int| 0 <= i < s.w.len() ==> -WBOUND <= #[trigger] s.w[i] <= WBOUND
    &&& s.stretch.len() == 4096
    &&& forall|i: int| 0 <= i < s.stretch.len() ==> -2047 <= #[trigger] s.stretch[i] <= 2047
    &&& s.c1 < 256
    &&& s.c2 < 256
    &&& s.mvalid ==> s.mptr < s.hist.len()
    &&& -2047 <= s.tx0 <= 2047
    &&& -2047 <= s.tx1 <= 2047
    &&& s.wctx < WCTX
    &&& s.mm_idx < MM_SIZE
    &&& s.pr <= 4095
}

pub open spec fn init_w(j: int) -> i32 {
    if j % 2 == 0 {
        0x1_0000
    } else {
        0
    }
}

pub open spec fn match_init() -> MatchState {
    MatchState {
        t: Seq::new(NCTX as nat, |i: int| 2048u16),
        c1: 0,
        c2: 0,
        mm: Seq::new(MM_SIZE as nat, |i: int| 2048u16),
        hist: Seq::empty(),
        ht: Seq::new(HTSIZE as nat, |i: int| u32::MAX),
        mptr: 0,
        mlen: 0,
        mvalid: false,
        match_byte: 0,
        mm_active: false,
        w: Seq::new((2 * WCTX) as nat, |j: int| init_w(j)),
        stretch: Seq::new(4096, |q: int| stretch_with(match_nodes(), q) as i32),
        tx0: 0,
        tx1: 0,
        wctx: 0,
        mm_idx: 0,
        mm_used: false,
        pr: 2048,
    }
}

/// Order-2 table slot of `node` after the bytes `c2`, `c1`.
pub open spec fn ctx_idx(c1: u32, c2: u32, node: u32) -> usize {
    ((((c2 << 8u32) | c1) << 8u32) | node) as usize & ((NCTX - 1) as usize)
}

pub open spec fn begin_of(s: MatchState) -> MatchState {
    if s.mvalid {
        MatchState { match_byte: s.hist[s.mptr as int], mm_active: true, ..s }
    } else {
        MatchState { match_byte: 0, mm_active: false, ..s }
    }
}

/// Match-model counter slot for a run of `mlen`, bit position `i` and the
/// predicted bit `pb`.
pub open spec fn mm_slot(mlen: u32, i: u32, pb: usize) -> usize {
    let lb: usize = if mlen > 63 {
        63
    } else {
        mlen as usize
    };
    (lb * 16 + (i as usize) * 2 + pb) as usize
}

pub open spec fn weight_set(mm_active: bool, mlen: u32) -> usize {
    if mm_active {
        (1 + if mlen < 14 {
            mlen as usize
        } else {
            14usize
        }) as usize
    } else {
        0
    }
}

pub open spec fn clamp_dot(d: i64) -> i64 {
    if d > 2047 {
        2047
    } else if d < -2047 {
        -2047i64
    } else {
        d
    }
}

pub open spec fn clamp_p(p: i32) -> i32 {
    if p < 1 {
        1
    } else if p > 4094 {
        4094
    } else {
        p
    }
}

pub open spec fn predict_of(s: MatchState, node: u32, i: u32) -> (u32, MatchState) {
    let st0 = s.stretch[s.t[ctx_idx(s.c1, s.c2, node) as int] as int];
    let used = s.mm_active;
    let pb: usize = if used {
        ((s.match_byte >> i) & 1u8) as usize
    } else {
        0
    };
    let mi = mm_slot(s.mlen, i, pb);
    let st1 = if used {
        s.stretch[s.mm[mi as int] as int]
    } else {
        0i32
    };
    let wctx = weight_set(s.mm_active, s.mlen);
    let w0 = s.w[(wctx * 2) as int] as i64;
    let w1 = s.w[(wctx * 2 + 1) as int] as i64;
    let dot = clamp_dot(((w0 * (st0 as i64) + w1 * (st1 as i64)) as i64) >> 16i64);
    let p = clamp_p(squash_with(match_nodes(), dot as i32));
    (
        p as u32,
        MatchState { tx0: st0, tx1: st1, wctx, mm_idx: mi, mm_used: used, pr: p as u32, ..s },
    )
}

pub open spec fn clamp_w(v: int) -> i32 {
    if v > WBOUND {
        WBOUND
    } else if v < -WBOUND {
        (-WBOUND) as i32
    } else {
        v as i32
    }
}

pub open spec fn learn_of(s: MatchState, node: u32, i: u32, bit: u32) -> MatchState {
    let target = (bit as i32) << 12i32;
    let oi = ctx_idx(s.c1, s.c2, node) as int;
    let t = s.t.update(oi, adapt(s.t[oi], bit, RATE));
    let mm = if s.mm_used {
        s.mm.update(s.mm_idx as int, adapt(s.mm[s.mm_idx as int], bit, RATE))
    } else {
        s.mm
    };
    let err = (target - (s.pr as i32)) as i32;
    let k = (s.wctx * 2) as int;
    let nw0 = clamp_w(s.w[k] + (((s.tx0 * err) as i32) >> 12i32));
    let nw1 = clamp_w(s.w[k + 1] + (((s.tx1 * err) as i32) >> 12i32));
    let w = s.w.update(k, nw0).update(k + 1, nw1);
    let mm_active = if s.mm_active && bit != ((s.match_byte >> i) & 1u8) as u32 {
        false
    } else {
        s.mm_active
    };
    MatchState { t, mm, w, mm_active, ..s }
}

/// Hash slot of the four bytes ending at position `len` of `h`.
pub open spec fn ctx_hash(h: Seq<u8>, len: int) -> usize {
    let ctx32 = ((h[len - 4] as u32) << 24u32) | ((h[len - 3] as u32) << 16u32) | ((h[len - 2] as u32)
        << 8u32) | (h[len - 1] as u32);
    (ctx32.wrapping_mul(2654435761u32) >> (32 - HTBITS) as u32) as usize
}

/// Advancing or breaking the match run once `b` is known.
pub open spec fn advance(s: MatchState, b: u8, len: int) -> (bool, u32, usize) {
    if s.mvalid {
        if s.hist[s.mptr as int] == b {
            let ml = s.mlen.wrapping_add(1);
            let mp = (s.mptr + 1) as usize;
            if mp >= len {
                (false, 0u32, mp)
            } else {
                (true, ml, mp)
            }
        } else {
            (false, 0u32, s.mptr)
        }
    } else {
        (s.mvalid, s.mlen, s.mptr)
    }
}

pub open spec fn end_of(s: MatchState, b: u8) -> MatchState {
    let hist = s.hist.push(b);
    let len = hist.len() as int;
    let (mv, ml, mp) = advance(s, b, len);
    if len >= MINLEN {
        let h = ctx_hash(hist, len);
        let cand = s.ht[h as int];
        let (mv2, ml2, mp2) = if !mv && cand != u32::MAX && (cand as usize) < len {
            (true, 0u32, cand as usize)
        } else {
            (mv, ml, mp)
        };
        MatchState {
            c2: s.c1,
            c1: b as u32,
            hist,
            mvalid: mv2,
            mlen: ml2,
            mptr: mp2,
            ht: s.ht.update(h as int, len as u32),
            ..s
        }
    } else {
        MatchState { c2: s.c1, c1: b as u32, hist, mvalid: mv, mlen: ml, mptr: mp, ..s }
    }
}

proof fn lemma_ctx_idx(c1: u32, c2: u32, node: u32)
    ensures
        ctx_idx(c1, c2, node) < NCTX,
{
    crate::bitfacts::lemma_mask_le((((((c2 << 8u32) | c1) << 8u32) | node) as usize), (NCTX - 1) as usize);
}

proof fn lemma_ctx_hash(h: Seq<u8>, len: int)
    ensures
        ctx_hash(h, len) < HTSIZE,
{
    let ctx32 = ((h[len - 4] as u32) << 24u32) | ((h[len - 3] as u32) << 16u32) | ((h[len - 2] as u32)
        << 8u32) | (h[len - 1] as u32);
    let x = ctx32.wrapping_mul(2654435761u32);
    vstd::bits::lemma_u32_shr_is_div(x, 10);
    vstd::arithmetic::power2::lemma2_to64();
}

proof fn lemma_predict_wf(s: MatchState, node: u32, i: u32)
    requires
        match_wf(s),
        i < 8,
    ensures
        match_wf(predict_of(s, node, i).1),
        predict_of(s, node, i).0 <= 4095,
{
    lemma_ctx_idx(s.c1, s.c2, node);
    let st0 = s.stretch[s.t[ctx_idx(s.c1, s.c2, node) as int] as int];
    let pb: usize = if s.mm_active {
        ((s.match_byte >> i) & 1u8) as usize
    } else {
        0
    };
    crate::bitfacts::lemma_bit_of_byte(s.match_byte, i);
    let mi = mm_slot(s.mlen, i, pb);
    let st1 = if s.mm_active {
        s.stretch[s.mm[mi as int] as int]
    } else {
        0i32
    };
    let wctx = weight_set(s.mm_active, s.mlen);
    let w0 = s.w[(wctx * 2) as int] as i64;
    let w1 = s.w[(wctx * 2 + 1) as int] as i64;
    assert(-0x8_0000_0000 <= w0 * (st0 as i64) <= 0x8_0000_0000) by (nonlinear_arith)
        requires
            -0x10_0000 <= w0 <= 0x10_0000,
            -2047 <= st0 <= 2047,
    ;
    assert(-0x8_0000_0000 <= w1 * (st1 as i64) <= 0x8_0000_0000) by (nonlinear_arith)
        requires
            -0x10_0000 <= w1 <= 0x10_0000,
            -2047 <= st1 <= 2047,
    ;
    let dot = clamp_dot(((w0 * (st0 as i64) + w1 * (st1 as i64)) as i64) >> 16i64);
    lemma_match_nodes();
    lemma_squash_with_range(match_nodes(), dot as i32);
}

proof fn lemma_learn_wf(s: MatchState, node: u32, i: u32, bit: u32)
    requires
        match_wf(s),
        bit <= 1,
    ensures
        match_wf(learn_of(s, node, i, bit)),
{
    lemma_ctx_idx(s.c1, s.c2, node);
    let oi = ctx_idx(s.c1, s.c2, node) as int;
    lemma_adapt_bound(s.t[oi], bit, RATE);
    lemma_adapt_bound(s.mm[s.mm_idx as int], bit, RATE);
    crate::bitfacts::lemma_bit_target(bit);
    let err = (((bit as i32) << 12i32) - (s.pr as i32)) as i32;
    assert(-0x80_0000 <= s.tx0 * err <= 0x80_0000) by (nonlinear_arith)
        requires
            -2047 <= s.tx0 <= 2047,
            -4096 <= err <= 4096,
    ;
    assert(-0x80_0000 <= s.tx1 * err <= 0x80_0000) by (nonlinear_arith)
        requires
            -2047 <= s.tx1 <= 2047,
            -4096 <= err <= 4096,
    ;
}

proof fn lemma_end_wf(s: MatchState, b: u8)
    requires
        match_wf(s),
    ensures
        match_wf(end_of(s, b)),
{
    let hist = s.hist.push(b);
    let len = hist.len() as int;
    if len >= MINLEN {
        lemma_ctx_hash(hist, len);
    }
}

proof fn lemma_init_wf()
    ensures
        match_wf(match_init()),
{
    assert forall|q: int| 0 <= q < 4096 implies -2047 <= #[trigger] match_init().stretch[q] <= 2047 by {
        lemma_stretch_with_range(match_nodes(), q);
    }
}

impl Model {
    pub fn new() -> (m: Self)
        ensures
            m@ == match_init(),
            match_wf(m@),
    {
        proof {
            lemma_match_nodes();
        }
        let st = build_stretch_by(&MATCH_SQUASH_T);
        let mut w: Vec<i32> = Vec::new();
        let mut c: usize = 0;
        while c < 2 * WCTX
            invariant
                c <= 2 * WCTX,
                w@.len() == c,
                forall|j: int| 0 <= j < c ==> #[trigger] w@[j] == init_w(j),
            decreases 2 * WCTX - c,
        {
            if c % 2 == 0 {
                w.push(0x1_0000);
            } else {
                w.push(0);
            }
            c += 1;
        }
        let m = Model {
            t: vec![2048u16; NCTX],
            c1: 0,
            c2: 0,
            mm: vec![2048u16; MM_SIZE],
            hist: Vec::new(),
            ht: vec![u32::MAX; HTSIZE],
            mptr: 0,
            mlen: 0,
            mvalid: false,
            match_byte: 0,
            mm_active: false,
            w,
            stretch_tab: st,
            tx0: 0,
            tx1: 0,
            wctx: 0,
            mm_idx: 0,
            mm_used: false,
            pr: 2048,
        };
        proof {
            assert(m@.t =~= match_init().t);
            assert(m@.mm =~= match_init().mm);
            assert(m@.ht =~= match_init().ht);
            assert(m@.w =~= match_init().w);
            assert(m@.stretch =~= match_init().stretch);
            lemma_init_wf();
        }
        m
    }

    /// Order-2 table slot of `node`.
    pub fn idx(&self, node: u32) -> (i: usize)
        ensures
            i == ctx_idx(self.c1, self.c2, node),
            i < NCTX,
    {
        proof {
            lemma_ctx_idx(self.c1, self.c2, node);
        }
        ((((self.c2 << 8) | self.c1) << 8) | node) as usize & (NCTX - 1)
    }

    /// Capture the predicted byte, if a match is running.
    pub fn begin_byte(&mut self)
        requires
            match_wf(old(self)@),
        ensures
            final(self)@ == begin_of(old(self)@),
            match_wf(final(self)@),
    {
        if self.mvalid {
            self.match_byte = self.hist[self.mptr];
            self.mm_active = true;
        } else {
            self.match_byte = 0;
            self.mm_active = false;
        }
    }

    /// P(bit = 1) of the bit at `node`, bit position `i`.
    pub fn predict(&mut self, node: u32, i: u32) -> (p: u32)
        requires
            match_wf(old(self)@),
            i < 8,
        ensures
            (p, final(self)@) == predict_of(old(self)@, node, i),
            match_wf(final(self)@),
            p <= 4095,
    {
        proof {
            lemma_predict_wf(self@, node, i);
        }
        proof {
            lemma_predict_wf(self@, node, i);
        }
        let ghost s = self@;
        let oi = self.idx(node);
        let p0 = self.t[oi] as usize;
        let st0 = self.stretch_tab[p0];
        let mm_used = self.mm_active;
        let predicted_bit: usize = if mm_used {
            ((self.match_byte >> i) & 1) as usize
        } else {
            0
        };
        proof {
            crate::bitfacts::lemma_bit_of_byte(self.match_byte, i);
        }
        let len_bucket: usize = if self.mlen > 63 {
            63
        } else {
            self.mlen as usize
        };
        let mm_idx = len_bucket * 16 + (i as usize) * 2 + predicted_bit;
        let st1 = if mm_used {
            self.stretch_tab[self.mm[mm_idx] as usize]
        } else {
            0
        };
        let wctx: usize = if self.mm_active {
            1 + if (self.mlen as usize) < WCTX - 2 {
                self.mlen as usize
            } else {
                WCTX - 2
            }
        } else {
            0
        };
        let w0 = self.w[wctx * 2] as i64;
        let w1 = self.w[wctx * 2 + 1] as i64;
        assert(-0x8_0000_0000 <= w0 * (st0 as i64) <= 0x8_0000_0000) by (nonlinear_arith)
            requires
                -0x10_0000 <= w0 <= 0x10_0000,
                -2047 <= st0 <= 2047,
        ;
        assert(-0x8_0000_0000 <= w1 * (st1 as i64) <= 0x8_0000_0000) by (nonlinear_arith)
            requires
                -0x10_0000 <= w1 <= 0x10_0000,
                -2047 <= st1 <= 2047,
        ;
        let mut dot = ((w0 * st0 as i64) + (w1 * st1 as i64)) >> 16;
        if dot > 2047 {
            dot = 2047;
        } else if dot < -2047 {
            dot = -2047;
        }
        let mut p = squash(dot as i32);
        if p < 1 {
            p = 1;
        } else if p > 4094 {
            p = 4094;
        }
        self.tx0 = st0;
        self.tx1 = st1;
        self.wctx = wctx;
        self.mm_idx = mm_idx;
        self.mm_used = mm_used;
        self.pr = p as u32;
        p as u32
    }

    /// Learn that the bit at `node`, bit position `i`, was `bit`.
    pub fn update_bit(&mut self, node: u32, i: u32, bit: u32)
        requires
            match_wf(old(self)@),
            i < 8,
            bit <= 1,
        ensures
            final(self)@ == learn_of(old(self)@, node, i, bit),
            match_wf(final(self)@),
    {
        proof {
            lemma_learn_wf(self@, node, i, bit);
            crate::bitfacts::lemma_bit_target(bit);
        }
        let target = (bit as i32) << 12;
        let oi = self.idx(node);
        let v = adapt_counter(self.t[oi], bit, RATE);
        self.t.set(oi, v);
        if self.mm_used {
            let mi = self.mm_idx;
            let v = adapt_counter(self.mm[mi], bit, RATE);
            self.mm.set(mi, v);
        }
        let err = target - self.pr as i32;
        assert(-0x80_0000 <= self.tx0 * err <= 0x80_0000) by (nonlinear_arith)
            requires
                -2047 <= self.tx0 <= 2047,
                -4096 <= err <= 4096,
        ;
        assert(-0x80_0000 <= self.tx1 * err <= 0x80_0000) by (nonlinear_arith)
            requires
                -2047 <= self.tx1 <= 2047,
                -4096 <= err <= 4096,
        ;
        let k = self.wctx * 2;
        proof {
            crate::bitfacts::lemma_shr12_small((self.tx0 * err) as i32);
            crate::bitfacts::lemma_shr12_small((self.tx1 * err) as i32);
        }
        let mut nw0 = self.w[k] + ((self.tx0 * err) >> 12);
        let mut nw1 = self.w[k + 1] + ((self.tx1 * err) >> 12);
        if nw0 > WBOUND {
            nw0 = WBOUND;
        } else if nw0 < -WBOUND {
            nw0 = -WBOUND;
        }
        if nw1 > WBOUND {
            nw1 = WBOUND;
        } else if nw1 < -WBOUND {
            nw1 = -WBOUND;
        }
        self.w.set(k, nw0);
        self.w.set(k + 1, nw1);
        if self.mm_active {
            let predicted_bit = ((self.match_byte >> i) & 1) as u32;
            if bit != predicted_bit {
                self.mm_active = false;
            }
        }
    }

    /// Take in the whole byte `b`: contexts, history, match run and hash.
    pub fn end_byte(&mut self, b: u8)
        requires
            match_wf(old(self)@),
        ensures
            final(self)@ == end_of(old(self)@, b),
            match_wf(final(self)@),
    {
        proof {
            lemma_end_wf(self@, b);
        }
        let ghost s = self@;
        self.c2 = self.c1;
        self.c1 = b as u32;
        self.hist.push(b);
        let len = self.hist.len();
        if self.mvalid {
            if self.hist[self.mptr] == b {
                self.mlen = self.mlen.wrapping_add(1);
                self.mptr += 1;
                if self.mptr >= len {
                    self.mvalid = false;
                    self.mlen = 0;
                }
            } else {
                self.mvalid = false;
                self.mlen = 0;
            }
        }
        if len >= MINLEN {
            let c0 = self.hist[len - 4] as u32;
            let c1 = self.hist[len - 3] as u32;
            let c2 = self.hist[len - 2] as u32;
            let c3 = self.hist[len - 1] as u32;
            let ctx32 = (c0 << 24) | (c1 << 16) | (c2 << 8) | c3;
            let h = (ctx32.wrapping_mul(2654435761) >> (32 - HTBITS)) as usize;
            proof {
                lemma_ctx_hash(self.hist@, len as int);
            }
            if !self.mvalid {
                let cand = self.ht[h];
                if cand != u32::MAX && (cand as usize) < len {
                    self.mptr = cand as usize;
                    self.mvalid = true;
                    self.mlen = 0;
                }
            }
            self.ht.set(h, len as u32);
        }
        proof {
            assert(self@ == end_of(s, b));
        }
    }
}

impl BitModel for Model {
    open spec fn wf(s: MatchState) -> bool {
        match_wf(s)
    }

    open spec fn sp_begin(s: MatchState) -> MatchState {
        begin_of(s)
    }

    open spec fn sp_predict(s: MatchState, node: u32, i: u32) -> (u32, MatchState) {
        predict_of(s, node, i)
    }

    open spec fn sp_learn(s: MatchState, node: u32, i: u32, bit: u32, p: u32) -> MatchState {
        learn_of(s, node, i, bit)
    }

    open spec fn sp_end(s: MatchState, b: u8) -> MatchState {
        end_of(s, b)
    }

    proof fn lemma_begin_wf(s: MatchState) {
    }

    proof fn lemma_predict_wf(s: MatchState, node: u32, i: u32) {
        lemma_predict_wf(s, node, i);
    }

    proof fn lemma_learn_wf(s: MatchState, node: u32, i: u32, bit: u32, p: u32) {
        lemma_learn_wf(s, node, i, bit);
    }

    proof fn lemma_end_wf(s: MatchState, b: u8) {
        lemma_end_wf(s, b);
    }

    fn begin_bits(&mut self) {
        self.begin_byte()
    }

    fn predict_bit(&mut self, node: u32, i: u32) -> (p: u32) {
        self.predict(node, i)
    }

    fn learn_bit(&mut self, node: u32, i: u32, bit: u32, p: u32) {
        self.update_bit(node, i, bit)
    }

    fn end_bits(&mut self, b: u8) {
        self.end_byte(b)
    }
}

/// The archive of `data`: its length, then its code stream.
pub open spec fn spec_compress(data: Seq<u8>) -> Seq<u8> {
    u64_le(data.len() as u64) + data_stream::<Model>(match_init(), data)
}

pub open spec fn spec_decompress(archive: Seq<u8>) -> Seq<u8> {
    dec_data::<Model>(
        match_init(),
        dec_init(archive.subrange(8, archive.len() as int)),
        (le_u64_at(archive, 0) as usize) as nat,
    ).2
}

pub fn compress(data: &[u8]) -> (archive: Vec<u8>)
    ensures
        archive@ == spec_compress(data@),
{
    let mut m = Model::new();
    let mut e = Encoder::new();
    let mut archive: Vec<u8> = Vec::new();
    push_u64_le(&mut archive, data.len() as u64);
    encode_bytes(&mut m, &mut e, data);
    e.flush();
    append_bytes(&mut archive, e.out.as_slice());
    archive
}

pub fn decompress(archive: &[u8]) -> (out: Vec<u8>)
    requires
        archive@.len() >= 8,
    ensures
        out@ == spec_decompress(archive@),
{
    let n = read_u64_le(archive, 0) as usize;
    let mut m = Model::new();
    let mut d = Decoder::new(slice_range(archive, 8, archive.len()));
    decode_bytes(&mut m, &mut d, n)
}

/// Decompressing a compressed archive gives back the input, byte for byte.
pub proof fn lemma_roundtrip(data: Seq<u8>)
    requires
        data.len() <= usize::MAX,
    ensures
        spec_decompress(spec_compress(data)) == data,
{
    let a = spec_compress(data);
    let st = data_stream::<Model>(match_init(), data);
    lemma_u64_roundtrip(data.len() as u64, Seq::empty(), st);
    assert(Seq::<u8>::empty() + u64_le(data.len() as u64) + st == a);
    assert(a.subrange(8, a.len() as int) == st);
    lemma_init_wf();
    lemma_stream_roundtrip::<Model>(match_init(), data);
}

} // verus!
