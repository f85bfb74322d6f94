//! Logistic context mixing over order-0..4 byte contexts plus a bias input,
//! with a 16.16 fixed-point mixer whose weight set is selected by the
//! previous byte.  Archive = 8-byte little-endian length, then the stream.
use vstd::prelude::*;
use crate::bitmodel::{
    data_stream, dec_data, decode_bytes, encode_bytes, lemma_stream_roundtrip,
    BitModel,
};
use crate::coder::{dec_init, Decoder, Encoder};
use crate::logistic::{
    adapt, adapt_counter, build_stretch, hidx, lemma_adapt_bound, lemma_squash_range,
    lemma_stretch_range, spec_hidx, spec_squash, squash, stretch_of,
};
use crate::wire::{
    append_bytes, le_u64_at, lemma_u64_roundtrip, push_u64_le, read_u64_le, slice_range, u64_le,
};

verus! {

/// 5 context inputs (orders 0..4) + 1 bias input.
pub const NIN: usize = 6;

pub const O0SIZE: usize = 256;

pub const O1SIZE: usize = 0x1_0000;

/// Hashed tables for orders 2..4.
pub const HSIZE: usize = 0x40_0000;

/// Mixer weight sets, selected by the previous byte.
pub const MC: usize = 256;

pub const RATE: u32 = 4;

pub const LR_SHIFT: u32 = 12;

pub const WCLAMP: i32 = 0x100_0000;

pub struct Model {
    pub t0: Vec<u16>,
    pub t1: Vec<u16>,
    pub t2: Vec<u16>,
    pub t3: Vec<u16>,
    pub t4: Vec<u16>,
    pub w: Vec<i32>,
    pub c1: u32,
    pub c2: u32,
    pub c3: u32,
    pub c4: u32,
    pub h2: u32,
    pub h3: u32,
    pub h4: u32,
    pub idx: [usize; 5],
    pub st: [i32; 6],
    pub wctx: usize,
    pub pr: i32,
    pub stretch: Vec<i32>,
}

pub struct MixState {
    pub t0: Seq<u16>,
    pub t1: Seq<u16>,
    pub t2: Seq<u16>,
    pub t3: Seq<u16>,
    pub t4: Seq<u16>,
    pub w: Seq<i32>,
    pub c1: u32,
    pub c2: u32,
    pub c3: u32,
    pub c4: u32,
    pub h2: u32,
    pub h3: u32,
    pub h4: u32,
    pub idx: Seq<usize>,
    pub st: Seq<i32>,
    pub wctx: usize,
    pub pr: i32,
    pub stretch: Seq<i32>,
}

impl View for Model {
    type V = MixState;

    open spec fn view(&self) -> MixState {
        MixState {
            t0: self.t0@,
            t1: self.t1@,
            t2: self.t2@,
            t3: self.t3@,
            t4: self.t4@,
            w: self.w@,
            c1: self.c1,
            c2: self.c2,
            c3: self.c3,
            c4: self.c4,
            h2: self.h2,
            h3: self.h3,
            h4: self.h4,
            idx: self.idx@,
            st: self.st@,
            wctx: self.wctx,
            pr: self.pr,
            stretch: self.stretch@,
        }
    }
}

pub open spec fn counters_ok(t: Seq<u16>, n: nat) -> bool {
    &&& t.len() == n
    &&& forall|i: int| 0 <= i < t.len() ==> t[i] <= 4095
}

pub open spec fn weights_ok(w: Seq<i32>, n: nat) -> bool {
    &&& w.len() == n
    &&& forall|i: int| 0 <= i < w.len() ==> -WCLAMP <= #[trigger] w[i] <= WCLAMP
}

pub open spec fn stretch_ok(st: Seq<i32>) -> bool {
    &&& st.len() == 4096
    &&& forall|q: int| 0 <= q < 4096 ==> -2047 <= #[trigger] st[q] <= 2047
}

pub open spec fn inputs_ok(st: Seq<i32>, n: nat) -> bool {
    &&& st.len() == n
    &&& forall|i: int| 0 <= i < st.len() ==> -2047 <= #[trigger] st[i] <= 2047
}

pub open spec fn mix_wf(s: MixState) -> bool {
    &&& counters_ok(s.t0, O0SIZE as nat)
    &&& counters_ok(s.t1, O1SIZE as nat)
    &&& counters_ok(s.t2, HSIZE as nat)
    &&& counters_ok(s.t3, HSIZE as nat)
    &&& counters_ok(s.t4, HSIZE as nat)
    &&& weights_ok(s.w, (MC * NIN) as nat)
    &&& stretch_ok(s.stretch)
    &&& s.idx.len() == 5
    &&& s.idx[0] < O0SIZE
    &&& s.idx[1] < O1SIZE
    &&& s.idx[2] < HSIZE
    &&& s.idx[3] < HSIZE
    &&& s.idx[4] < HSIZE
    &&& inputs_ok(s.st, NIN as nat)
    &&& s.wctx < MC
    &&& 1 <= s.pr <= 4094
}

/// Initial weight `j`: 65536/5 on the five context inputs, 0 on the bias.
pub open spec fn init_weight(j: int) -> i32 {
    if j % 6 < 5 {
        13107
    } else {
        0
    }
}

pub open spec fn stretch_table() -> Seq<i32> {
    Seq::new(4096, |q: int| stretch_of(q) as i32)
}

pub open spec fn mix_init() -> MixState {
    MixState {
        t0: Seq::new(O0SIZE as nat, |i: int| 2048u16),
        t1: Seq::new(O1SIZE as nat, |i: int| 2048u16),
        t2: Seq::new(HSIZE as nat, |i: int| 2048u16),
        t3: Seq::new(HSIZE as nat, |i: int| 2048u16),
        t4: Seq::new(HSIZE as nat, |i: int| 2048u16),
        w: Seq::new((MC * NIN) as nat, |j: int| init_weight(j)),
        c1: 0,
        c2: 0,
        c3: 0,
        c4: 0,
        h2: 0,
        h3: 0,
        h4: 0,
        idx: seq![0usize, 0, 0, 0, 0],
        st: seq![0i32, 0, 0, 0, 0, 0],
        wctx: 0,
        pr: 2048,
        stretch: stretch_table(),
    }
}

/// Sum of the first `k` input * weight products of the set at `base`.
pub open spec fn dot_upto(st: Seq<i32>, w: Seq<i32>, base: int, k: int) -> int
    decreases k,
{
    if k <= 0 {
        0
    } else {
        dot_upto(st, w, base, k - 1) + st[k - 1] * w[base + k - 1]
    }
}

pub open spec fn clamp_logit(d: i32) -> i32 {
    if d > 2047 {
        2047
    } else if d < -2047 {
        -2047i32
    } else {
        d
    }
}

pub open spec fn clamp_prob(p: i32) -> i32 {
    if p < 1 {
        1
    } else if p > 4094 {
        4094
    } else {
        p
    }
}

/// Mixer output probability for the dot product `dot` (16.16 fixed point).
pub open spec fn mix_prob(dot: int) -> i32 {
    clamp_prob(spec_squash(clamp_logit(((dot as i64) >> 16i64) as i32)))
}

pub open spec fn predict_of(s: MixState, node: u32) -> (u32, MixState) {
    let i0 = (node as usize) & 255usize;
    let i1 = (((s.c1 << 8u32) | node) as usize) & 0xffffusize;
    let i2 = spec_hidx(s.h2, node, HSIZE);
    let i3 = spec_hidx(s.h3, node, HSIZE);
    let i4 = spec_hidx(s.h4, node, HSIZE);
    let st = seq![
        s.stretch[s.t0[i0 as int] as int],
        s.stretch[s.t1[i1 as int] as int],
        s.stretch[s.t2[i2 as int] as int],
        s.stretch[s.t3[i3 as int] as int],
        s.stretch[s.t4[i4 as int] as int],
        256i32,
    ];
    let wctx = (s.c1 as usize) & 255usize;
    let p = mix_prob(dot_upto(st, s.w, wctx * NIN, NIN as int));
    (p as u32, MixState { idx: seq![i0, i1, i2, i3, i4], st, wctx, pr: p, ..s })
}

/// A weight after one learning step: w += (input * err) >> 12, clamped.
pub open spec fn weight_step(w: i32, x: i32, err: i32) -> i32 {
    let nw = w + (((x * err) as i32) >> LR_SHIFT);
    if nw > WCLAMP {
        WCLAMP
    } else if nw < -WCLAMP {
        (-WCLAMP) as i32
    } else {
        nw as i32
    }
}

/// The weight set at `base` after learning with error `err`.
pub open spec fn weights_after(w: Seq<i32>, st: Seq<i32>, base: int, err: i32, k: int) -> Seq<i32> {
    Seq::new(
        w.len(),
        |j: int|
            if base <= j < base + k {
                weight_step(w[j], st[j - base], err)
            } else {
                w[j]
            },
    )
}

pub open spec fn counter_step(t: Seq<u16>, i: usize, bit: u32) -> Seq<u16> {
    t.update(i as int, adapt(t[i as int], bit, RATE))
}

pub open spec fn learn_of(s: MixState, bit: u32) -> MixState {
    let err = (((bit as i32) << 12i32) - s.pr) as i32;
    MixState {
        t0: counter_step(s.t0, s.idx[0], bit),
        t1: counter_step(s.t1, s.idx[1], bit),
        t2: counter_step(s.t2, s.idx[2], bit),
        t3: counter_step(s.t3, s.idx[3], bit),
        t4: counter_step(s.t4, s.idx[4], bit),
        w: weights_after(s.w, s.st, s.wctx * NIN, err, NIN as int),
        ..s
    }
}

/// Learning a bit touches only the five counters that predicted it and the
/// weight row of the current mixer context; everything else is kept.
pub proof fn lemma_learn_frame(s: MixState, bit: u32)
    requires
        mix_wf(s),
    ensures
        ({
            let t = learn_of(s, bit);
            &&& forall|i: int| 0 <= i < s.t0.len() && i != s.idx[0] ==> #[trigger] t.t0[i] == s.t0[i]
            &&& forall|i: int| 0 <= i < s.t1.len() && i != s.idx[1] ==> #[trigger] t.t1[i] == s.t1[i]
            &&& forall|i: int| 0 <= i < s.t2.len() && i != s.idx[2] ==> #[trigger] t.t2[i] == s.t2[i]
            &&& forall|i: int| 0 <= i < s.t3.len() && i != s.idx[3] ==> #[trigger] t.t3[i] == s.t3[i]
            &&& forall|i: int| 0 <= i < s.t4.len() && i != s.idx[4] ==> #[trigger] t.t4[i] == s.t4[i]
            &&& forall|j: int|
                0 <= j < s.w.len() && !(s.wctx * NIN <= j < s.wctx * NIN + NIN) ==> #[trigger] t.w[j]
                    == s.w[j]
            &&& t.w.len() == s.w.len()
            &&& t.t0.len() == s.t0.len() && t.t1.len() == s.t1.len() && t.t2.len() == s.t2.len()
            &&& t.t3.len() == s.t3.len() && t.t4.len() == s.t4.len()
            &&& t.idx == s.idx && t.st == s.st && t.wctx == s.wctx && t.pr == s.pr
            &&& t.c1 == s.c1 && t.c2 == s.c2 && t.c3 == s.c3 && t.c4 == s.c4
            &&& t.h2 == s.h2 && t.h3 == s.h3 && t.h4 == s.h4 && t.stretch == s.stretch
        }),
{
}

pub open spec fn push_of(s: MixState, b: u8) -> MixState {
    let c1 = b as u32;
    let c2 = s.c1;
    let c3 = s.c2;
    let c4 = s.c3;
    let h2 = c1.wrapping_mul(0x6B43_A9B5u32).wrapping_add(c2.wrapping_add(1).wrapping_mul(0x9E37_79B1u32));
    let h3 = h2.wrapping_mul(0x2545_F491u32).wrapping_add(c3.wrapping_add(1).wrapping_mul(0x85EB_CA77u32));
    let h4 = h3.wrapping_mul(0x2545_F491u32).wrapping_add(c4.wrapping_add(1).wrapping_mul(0xC2B2_AE35u32));
    MixState { c1, c2, c3, c4, h2, h3, h4, ..s }
}

pub proof fn lemma_dot_bound(st: Seq<i32>, w: Seq<i32>, base: int, k: int)
    requires
        0 <= k <= st.len(),
        0 <= base,
        base + k <= w.len(),
        forall|i: int| 0 <= i < st.len() ==> -2047 <= #[trigger] st[i] <= 2047,
        forall|i: int| 0 <= i < w.len() ==> -WCLAMP <= #[trigger] w[i] <= WCLAMP,
    ensures
        -k * 0x8_0000_0000 <= dot_upto(st, w, base, k) <= k * 0x8_0000_0000,
    decreases k,
{
    if k > 0 {
        lemma_dot_bound(st, w, base, k - 1);
        let a = st[k - 1] as int;
        let b = w[base + k - 1] as int;
        assert(-0x8_0000_0000 <= a * b <= 0x8_0000_0000) by (nonlinear_arith)
            requires
                -2047 <= a <= 2047,
                -0x100_0000 <= b <= 0x100_0000,
        ;
    }
}

pub proof fn lemma_weight_step(w: i32, x: i32, err: i32)
    requires
        -WCLAMP <= w <= WCLAMP,
        -2047 <= x <= 2047,
        -4096 <= err <= 4096,
    ensures
        -WCLAMP <= weight_step(w, x, err) <= WCLAMP,
        -0x100_0000 <= x * err <= 0x100_0000,
{
    assert(-0x100_0000 <= x * err <= 0x100_0000) by (nonlinear_arith)
        requires
            -2047 <= x <= 2047,
            -4096 <= err <= 4096,
    ;
}

impl Model {
    pub fn new() -> (m: Self)
        ensures
            m@ == mix_init(),
            mix_wf(m@),
    {
        let mut w = vec![0i32; MC * NIN];
        // init the 5 context-input weights so the initial prediction is the
        // average of the inputs; leave the bias weight at 0.
        let init = (65536 / 5) as i32;
        let mut c: usize = 0;
        while c < MC
            invariant
                c <= MC,
                init == 13107,
                w@.len() == MC * NIN,
                forall|j: int|
                    0 <= j < MC * NIN ==> #[trigger] w@[j] == (if j < c * 6 {
                        init_weight(j)
                    } else {
                        0i32
                    }),
            decreases MC - c,
        {
            let mut i: usize = 0;
            while i < 5
                invariant
                    c < MC,
                    init == 13107,
                    i <= 5,
                    w@.len() == MC * NIN,
                    forall|j: int|
                        0 <= j < MC * NIN ==> #[trigger] w@[j] == (if j < c * 6 {
                            init_weight(j)
                        } else if j < c * 6 + i {
                            13107i32
                        } else {
                            0i32
                        }),
                decreases 5 - i,
            {
                let ghost w0 = w@;
                w.set(c * NIN + i, init);
                assert forall|j: int| 0 <= j < MC * NIN implies #[trigger] w@[j] == (if j < c * 6 {
                    init_weight(j)
                } else if j < c * 6 + i + 1 {
                    13107i32
                } else {
                    0i32
                }) by {
                    if j != c * 6 + i {
                        assert(w@[j] == w0[j]);
                    }
                }
                i += 1;
            }
            proof {
                assert forall|j: int| 0 <= j < MC * NIN implies #[trigger] w@[j] == (if j < (c + 1)
                    * 6 {
                    init_weight(j)
                } else {
                    0i32
                }) by {
                    if c * 6 <= j < c * 6 + 6 {
                        let k = j - c * 6;
                        assert(j % 6 == k) by (nonlinear_arith)
                            requires
                                j == c * 6 + k,
                                0 <= k < 6,
                                c >= 0,
                        ;
                    }
                }
            }
            c += 1;
        }
        let stretch = build_stretch();
        let m = Model {
            t0: vec![2048u16; O0SIZE],
            t1: vec![2048u16; O1SIZE],
            t2: vec![2048u16; HSIZE],
            t3: vec![2048u16; HSIZE],
            t4: vec![2048u16; HSIZE],
            w,
            c1: 0,
            c2: 0,
            c3: 0,
            c4: 0,
            h2: 0,
            h3: 0,
            h4: 0,
            idx: [0; 5],
            st: [0; NIN],
            wctx: 0,
            pr: 2048,
            stretch,
        };
        proof {
            assert(m.t0@ =~= mix_init().t0);
            assert(m.t1@ =~= mix_init().t1);
            assert(m.t2@ =~= mix_init().t2);
            assert(m.t3@ =~= mix_init().t3);
            assert(m.t4@ =~= mix_init().t4);
            assert(m.w@ =~= mix_init().w);
            assert(m.idx@ =~= mix_init().idx);
            assert(m.st@ =~= mix_init().st);
            assert(m.stretch@ =~= stretch_table());
            assert forall|q: int| 0 <= q < 4096 implies -2047 <= #[trigger] m.stretch@[q] <= 2047 by {
                lemma_stretch_range(q);
            }
        }
        m
    }

    pub fn predict(&mut self, node: u32) -> (p: u32)
        requires
            mix_wf(old(self)@),
        ensures
            (p, final(self)@) == predict_of(old(self)@, node),
            mix_wf(final(self)@),
            p <= 4095,
    {
        let ghost s0 = self@;
        let ghost r = predict_of(s0, node);
        self.idx[0] = (node as usize) & (O0SIZE - 1);
        self.idx[1] = (((self.c1 << 8) | node) as usize) & (O1SIZE - 1);
        self.idx[2] = hidx(self.h2, node, HSIZE);
        self.idx[3] = hidx(self.h3, node, HSIZE);
        self.idx[4] = hidx(self.h4, node, HSIZE);
        let x1 = ((self.c1 << 8) | node) as usize;
        proof {
            crate::bitfacts::lemma_mask_le(node as usize, 255usize);
            crate::bitfacts::lemma_mask_le(x1, 0xffffusize);
        }

        let p0 = self.t0[self.idx[0]] as usize;
        let p1 = self.t1[self.idx[1]] as usize;
        let p2 = self.t2[self.idx[2]] as usize;
        let p3 = self.t3[self.idx[3]] as usize;
        let p4 = self.t4[self.idx[4]] as usize;

        self.st[0] = self.stretch[p0];
        self.st[1] = self.stretch[p1];
        self.st[2] = self.stretch[p2];
        self.st[3] = self.stretch[p3];
        self.st[4] = self.stretch[p4];
        self.st[5] = 256;  // bias input (constant)

        let c1 = self.c1;
        proof {
            crate::bitfacts::lemma_mask_le(c1 as usize, 255usize);
        }
        self.wctx = (self.c1 as usize) & (MC - 1);
        let base = self.wctx * NIN;
        let mut dot: i64 = 0;
        let mut i: usize = 0;
        assert(self.st@ =~= r.1.st);
        while i < NIN
            invariant
                i <= NIN,
                base == self.wctx * NIN,
                self.wctx < MC,
                self.st@ == r.1.st,
                self.w@ == s0.w,
                weights_ok(self.w@, (MC * NIN) as nat),
                inputs_ok(self.st@, NIN as nat) || self.st@[5] == 256,
                forall|k: int| 0 <= k < 5 ==> -2047 <= #[trigger] self.st@[k] <= 2047,
                self.st@[5] == 256,
                self.st@.len() == 6,
                dot == dot_upto(self.st@, self.w@, base as int, i as int),
                -(i as int) * 0x8_0000_0000 <= dot <= (i as int) * 0x8_0000_0000,
            decreases NIN - i,
        {
            let a = self.st[i] as i64;
            let b = self.w[base + i] as i64;
            assert(-0x8_0000_0000 <= a * b <= 0x8_0000_0000) by (nonlinear_arith)
                requires
                    -2047 <= a <= 2047,
                    -0x100_0000 <= b <= 0x100_0000,
            ;
            dot += a * b;
            i += 1;
        }
        let mut d = (dot >> 16) as i32;
        if d > 2047 {
            d = 2047;
        }
        if d < -2047 {
            d = -2047;
        }
        let mut p = squash(d);
        if p < 1 {
            p = 1;
        }
        if p > 4094 {
            p = 4094;
        }
        self.pr = p;
        proof {
            assert(self.idx@ =~= r.1.idx);
            assert(self@ == r.1);
        }
        p as u32
    }

    pub fn update(&mut self, bit: u32)
        requires
            mix_wf(old(self)@),
            bit <= 1,
        ensures
            final(self)@ == learn_of(old(self)@, bit),
            mix_wf(final(self)@),
    {
        let ghost s0 = self@;
        let i0 = self.idx[0];
        let v0 = adapt_counter(self.t0[i0], bit, RATE);
        self.t0.set(i0, v0);
        let i1 = self.idx[1];
        let v1 = adapt_counter(self.t1[i1], bit, RATE);
        self.t1.set(i1, v1);
        let i2 = self.idx[2];
        let v2 = adapt_counter(self.t2[i2], bit, RATE);
        self.t2.set(i2, v2);
        let i3 = self.idx[3];
        let v3 = adapt_counter(self.t3[i3], bit, RATE);
        self.t3.set(i3, v3);
        let i4 = self.idx[4];
        let v4 = adapt_counter(self.t4[i4], bit, RATE);
        self.t4.set(i4, v4);
        // mixer weight update: w += (input * err) >> LR_SHIFT
        let target = (bit as i32) << 12;
        proof {
            crate::bitfacts::lemma_bit_target(bit);
        }
        let err = target - self.pr;
        let base = self.wctx * NIN;
        let mut i: usize = 0;
        proof {
            let r = learn_of(s0, bit);
            assert(self.t0@ =~= r.t0);
            assert(self.t1@ =~= r.t1);
            assert(self.t2@ =~= r.t2);
            assert(self.t3@ =~= r.t3);
            assert(self.t4@ =~= r.t4);
        }
        while i < NIN
            invariant
                i <= NIN,
                self.t0@ == learn_of(s0, bit).t0,
                self.t1@ == learn_of(s0, bit).t1,
                self.t2@ == learn_of(s0, bit).t2,
                self.t3@ == learn_of(s0, bit).t3,
                self.t4@ == learn_of(s0, bit).t4,
                self.idx@ == s0.idx,
                self.pr == s0.pr,
                self.stretch@ == s0.stretch,
                self.c1 == s0.c1 && self.c2 == s0.c2 && self.c3 == s0.c3 && self.c4 == s0.c4,
                self.h2 == s0.h2 && self.h3 == s0.h3 && self.h4 == s0.h4,
                base == s0.wctx * NIN,
                s0.wctx < MC,
                self.st@ == s0.st,
                self.wctx == s0.wctx,
                mix_wf(s0),
                -4096 <= err <= 4096,
                err == (((bit as i32) << 12i32) - s0.pr) as i32,
                self.w@ == weights_after(s0.w, s0.st, base as int, err, i as int),
                weights_ok(self.w@, (MC * NIN) as nat),
            decreases NIN - i,
        {
            let x = self.st[i];
            let old_w = self.w[base + i];
            proof {
                lemma_weight_step(old_w, x, err);
            }
            let y = x * err;
            proof {
                crate::bitfacts::lemma_shr12_small(y);
            }
            let mut nw = old_w + (y >> LR_SHIFT);
            if nw > WCLAMP {
                nw = WCLAMP;
            }
            if nw < -WCLAMP {
                nw = -WCLAMP;
            }
            self.w.set(base + i, nw);
            proof {
                assert(self.w@ =~= weights_after(s0.w, s0.st, base as int, err, i + 1));
            }
            i += 1;
        }
        proof {
            lemma_learn_wf(s0, bit);
        }
    }

    pub fn push_byte(&mut self, b: u8)
        ensures
            final(self)@ == push_of(old(self)@, b),
    {
        self.c4 = self.c3;
        self.c3 = self.c2;
        self.c2 = self.c1;
        self.c1 = b as u32;
        self.h2 = self.c1.wrapping_mul(0x6B43_A9B5).wrapping_add(
            self.c2.wrapping_add(1).wrapping_mul(0x9E37_79B1),
        );
        self.h3 = self.h2.wrapping_mul(0x2545_F491).wrapping_add(
            self.c3.wrapping_add(1).wrapping_mul(0x85EB_CA77),
        );
        self.h4 = self.h3.wrapping_mul(0x2545_F491).wrapping_add(
            self.c4.wrapping_add(1).wrapping_mul(0xC2B2_AE35),
        );
    }
}

proof fn lemma_learn_wf(s: MixState, bit: u32)
    requires
        mix_wf(s),
        bit <= 1,
    ensures
        mix_wf(learn_of(s, bit)),
{
    let r = learn_of(s, bit);
    let t = (bit as i32) << 12i32;
    crate::bitfacts::lemma_bit_target(bit);
    let err = (t - s.pr) as i32;
    lemma_adapt_bound(s.t0[s.idx[0] as int], bit, RATE);
    lemma_adapt_bound(s.t1[s.idx[1] as int], bit, RATE);
    lemma_adapt_bound(s.t2[s.idx[2] as int], bit, RATE);
    lemma_adapt_bound(s.t3[s.idx[3] as int], bit, RATE);
    lemma_adapt_bound(s.t4[s.idx[4] as int], bit, RATE);
    let base = s.wctx * NIN;
    assert forall|j: int| 0 <= j < r.w.len() implies -WCLAMP <= #[trigger] r.w[j] <= WCLAMP by {
        if base <= j < base + NIN {
            lemma_weight_step(s.w[j], s.st[j - base], err);
        }
    }
}

proof fn lemma_predict_wf(s: MixState, node: u32)
    requires
        mix_wf(s),
    ensures
        mix_wf(predict_of(s, node).1),
        predict_of(s, node).0 <= 4095,
{
    let r = predict_of(s, node);
    crate::bitfacts::lemma_mask_le(node as usize, 255usize);
    let x1 = ((s.c1 << 8u32) | node) as usize;
    crate::bitfacts::lemma_mask_le(x1, 0xffffusize);
    let c1 = s.c1;
    crate::bitfacts::lemma_mask_le(c1 as usize, 255usize);
    let hm = (HSIZE - 1) as usize;
    let h2 = s.h2;
    let h3 = s.h3;
    let h4 = s.h4;
    let a2 = ((h2 ^ node.wrapping_mul(0x9E37_79B1u32)).wrapping_mul(0x2545_F491u32) as usize);
    let a3 = ((h3 ^ node.wrapping_mul(0x9E37_79B1u32)).wrapping_mul(0x2545_F491u32) as usize);
    let a4 = ((h4 ^ node.wrapping_mul(0x9E37_79B1u32)).wrapping_mul(0x2545_F491u32) as usize);
    crate::bitfacts::lemma_mask_le(a2, hm);
    crate::bitfacts::lemma_mask_le(a3, hm);
    crate::bitfacts::lemma_mask_le(a4, hm);
    lemma_squash_range(clamp_logit(((dot_upto(r.1.st, s.w, r.1.wctx * NIN, NIN as int)) as i64
        >> 16i64) as i32));
}

impl BitModel for Model {
    open spec fn wf(s: MixState) -> bool {
        mix_wf(s)
    }

    open spec fn sp_begin(s: MixState) -> MixState {
        s
    }

    open spec fn sp_predict(s: MixState, node: u32, i: u32) -> (u32, MixState) {
        predict_of(s, node)
    }

    open spec fn sp_learn(s: MixState, node: u32, i: u32, bit: u32, p: u32) -> MixState {
        learn_of(s, bit)
    }

    open spec fn sp_end(s: MixState, b: u8) -> MixState {
        push_of(s, b)
    }

    proof fn lemma_begin_wf(s: MixState) {
    }

    proof fn lemma_predict_wf(s: MixState, node: u32, i: u32) {
        lemma_predict_wf(s, node);
    }

    proof fn lemma_learn_wf(s: MixState, node: u32, i: u32, bit: u32, p: u32) {
        lemma_learn_wf(s, bit);
    }

    proof fn lemma_end_wf(s: MixState, b: u8) {
    }

    fn begin_bits(&mut self) {
    }

    fn predict_bit(&mut self, node: u32, i: u32) -> (p: u32) {
        self.predict(node)
    }

    fn learn_bit(&mut self, node: u32, i: u32, bit: u32, p: u32) {
        self.update(bit)
    }

    fn end_bits(&mut self, b: u8) {
        self.push_byte(b)
    }
}

/// The archive of `data`: its length, then its code stream.
pub open spec fn spec_compress(data: Seq<u8>) -> Seq<u8> {
    u64_le(data.len() as u64) + data_stream::<Model>(mix_init(), data)
}

pub open spec fn spec_decompress(archive: Seq<u8>) -> Seq<u8> {
    dec_data::<Model>(
        mix_init(),
        dec_init(archive.subrange(8, archive.len() as int)),
        (le_u64_at(archive, 0) as usize) as nat,
    ).2
}

pub fn compress(data: &[u8]) -> (archive: Vec<u8>)
    ensures
        archive@ == spec_compress(data@),
{
    let mut m = Model::new();
    let mut e = Encoder::new();
    let n = data.len() as u64;
    let mut archive = Vec::with_capacity(data.len() / 2 + 16);
    push_u64_le(&mut archive, n);  // 8-byte length header
    encode_bytes(&mut m, &mut e, data);
    e.flush();
    append_bytes(&mut archive, e.out.as_slice());
    archive
}

pub fn decompress(archive: &[u8]) -> (out: Vec<u8>)
    requires
        archive@.len() >= 8,
    ensures
        out@ == spec_decompress(archive@),
{
    let n = read_u64_le(archive, 0) as usize;
    let mut m = Model::new();
    let mut d = Decoder::new(slice_range(archive, 8, archive.len()));
    decode_bytes(&mut m, &mut d, n)
}

/// Decompressing a compressed archive gives back the input, byte for byte.
pub proof fn lemma_roundtrip(data: Seq<u8>)
    requires
        data.len() <= usize::MAX,
    ensures
        spec_decompress(spec_compress(data)) == data,
{
    let a = spec_compress(data);
    let st = data_stream::<Model>(mix_init(), data);
    lemma_u64_roundtrip(data.len() as u64, Seq::empty(), st);
    assert(Seq::<u8>::empty() + u64_le(data.len() as u64) + st == a);
    assert(a.subrange(8, a.len() as int) == st);
    lemma_init_wf();
    lemma_stream_roundtrip::<Model>(mix_init(), data);
}

pub proof fn lemma_init_wf()
    ensures
        mix_wf(mix_init()),
{
    assert forall|q: int| 0 <= q < 4096 implies -2047 <= #[trigger] stretch_table()[q] <= 2047 by {
        lemma_stretch_range(q);
    }
    assert(mix_init().st =~= seq![0i32, 0, 0, 0, 0, 0]);
}

} // verus!
