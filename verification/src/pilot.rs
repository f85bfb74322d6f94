//! The base codec: an exact order-2 adaptive bit model driving the
//! arithmetic coder.  Archive = 8-byte little-endian length, then the code
//! stream.
use vstd::prelude::*;
use crate::bitmodel::{
    data_stream, dec_data, decode_bytes, encode_bytes, lemma_stream_roundtrip,
    BitModel,
};
use crate::coder::{dec_init, Decoder, Encoder};
use crate::logistic::{adapt, adapt_counter, lemma_adapt_bound};
use crate::wire::{
    append_bytes, le_u64_at, lemma_u64_roundtrip, push_u64_le, read_u64_le, slice_range, u64_le,
};

verus! {

/// Order-2 exact contexts: (prev2 << 8 | prev1) << 8 | node.
pub const NCTX: usize = 0x100_0000;

pub struct Model {
    pub t: Vec<u16>,
    pub c1: u32,
    pub c2: u32,
}

pub struct ModelState {
    pub t: Seq<u16>,
    pub c1: u32,
    pub c2: u32,
}

impl View for Model {
    type V = ModelState;

    open spec fn view(&self) -> ModelState {
        ModelState { t: self.t@, c1: self.c1, c2: self.c2 }
    }
}

/// Table slot of `node` under the two previous bytes.
pub open spec fn ctx_index(c1: u32, c2: u32, node: u32) -> int {
    (((((c2 << 8u32) | c1) << 8u32) | node) as usize & 0xff_ffffusize) as int
}

pub open spec fn model_wf(s: ModelState) -> bool {
    &&& s.t.len() == NCTX
    &&& forall|i: int| 0 <= i < s.t.len() ==> s.t[i] <= 4095
}

pub open spec fn model_init() -> ModelState {
    ModelState { t: Seq::new(NCTX as nat, |i: int| 2048u16), c1: 0, c2: 0 }
}

pub open spec fn predict_of(s: ModelState, node: u32) -> u32 {
    s.t[ctx_index(s.c1, s.c2, node)] as u32
}

pub open spec fn learn_of(s: ModelState, node: u32, bit: u32) -> ModelState {
    let i = ctx_index(s.c1, s.c2, node);
    ModelState { t: s.t.update(i, adapt(s.t[i], bit, 5)), ..s }
}

pub open spec fn push_of(s: ModelState, b: u8) -> ModelState {
    ModelState { c2: s.c1, c1: b as u32, ..s }
}

/// After bytes `b1` then `b2` the model's context is those two bytes, the
/// older one second: every bit is predicted from the slot of `(b1, b2)`.
pub proof fn lemma_push_context(s: ModelState, b1: u8, b2: u8, node: u32)
    ensures
        push_of(push_of(s, b1), b2).c2 == b1 as u32,
        push_of(push_of(s, b1), b2).c1 == b2 as u32,
        push_of(push_of(s, b1), b2).t == s.t,
        predict_of(push_of(push_of(s, b1), b2), node) == s.t[ctx_index(
            b2 as u32,
            b1 as u32,
            node,
        )] as u32,
{
}

proof fn lemma_ctx_index_bound(c1: u32, c2: u32, node: u32)
    ensures
        0 <= ctx_index(c1, c2, node) < NCTX,
{
    let x = (((c2 << 8u32) | c1) << 8u32) | node;
    crate::bitfacts::lemma_mask_le(x as usize, 0xff_ffffusize);
}

impl Model {
    pub fn new() -> (m: Self)
        ensures
            m@ == model_init(),
            model_wf(m@),
    {
        let m = Model { t: vec![2048u16; NCTX], c1: 0, c2: 0 };
        assert(m.t@ =~= model_init().t);
        m
    }

    pub fn idx(&self, node: u32) -> (i: usize)
        ensures
            i as int == ctx_index(self.c1, self.c2, node),
            i < NCTX,
    {
        proof {
            lemma_ctx_index_bound(self.c1, self.c2, node);
        }
        ((((self.c2 << 8) | self.c1) << 8) | node) as usize & (NCTX - 1)
    }

    /// 12-bit P(bit = 1), 0..4095.
    pub fn p(&self, node: u32) -> (r: u32)
        requires
            model_wf(self@),
        ensures
            r == predict_of(self@, node),
            r <= 4095,
    {
        let i = self.idx(node);
        self.t[i] as u32
    }

    pub fn update(&mut self, node: u32, bit: u32)
        requires
            model_wf(old(self)@),
            bit <= 1,
        ensures
            final(self)@ == learn_of(old(self)@, node, bit),
            model_wf(final(self)@),
    {
        let i = self.idx(node);
        let v = adapt_counter(self.t[i], bit, 5);
        self.t.set(i, v);
        assert(self.t@ =~= learn_of(old(self)@, node, bit).t);
    }

    pub fn push_byte(&mut self, b: u8)
        ensures
            final(self)@ == push_of(old(self)@, b),
            final(self).c2 == old(self).c1,
            final(self).c1 == b as u32,
            final(self).t@ == old(self).t@,
    {
        self.c2 = self.c1;
        self.c1 = b as u32;
    }
}

impl BitModel for Model {
    open spec fn wf(s: ModelState) -> bool {
        model_wf(s)
    }

    open spec fn sp_begin(s: ModelState) -> ModelState {
        s
    }

    open spec fn sp_predict(s: ModelState, node: u32, i: u32) -> (u32, ModelState) {
        (predict_of(s, node), s)
    }

    open spec fn sp_learn(s: ModelState, node: u32, i: u32, bit: u32, p: u32) -> ModelState {
        learn_of(s, node, bit)
    }

    open spec fn sp_end(s: ModelState, b: u8) -> ModelState {
        push_of(s, b)
    }

    proof fn lemma_begin_wf(s: ModelState) {
    }

    proof fn lemma_predict_wf(s: ModelState, node: u32, i: u32) {
        lemma_ctx_index_bound(s.c1, s.c2, node);
    }

    proof fn lemma_learn_wf(s: ModelState, node: u32, i: u32, bit: u32, p: u32) {
        let k = ctx_index(s.c1, s.c2, node);
        lemma_ctx_index_bound(s.c1, s.c2, node);
        lemma_adapt_bound(s.t[k], bit, 5);
    }

    proof fn lemma_end_wf(s: ModelState, b: u8) {
    }

    fn begin_bits(&mut self) {
    }

    fn predict_bit(&mut self, node: u32, i: u32) -> (p: u32) {
        self.p(node)
    }

    fn learn_bit(&mut self, node: u32, i: u32, bit: u32, p: u32) {
        self.update(node, bit)
    }

    fn end_bits(&mut self, b: u8) {
        self.push_byte(b)
    }
}

/// The archive of `data`: its length, then its code stream.
pub open spec fn spec_compress(data: Seq<u8>) -> Seq<u8> {
    u64_le(data.len() as u64) + data_stream::<Model>(model_init(), data)
}

/// What `decompress` gives for an archive (header length, then decoding).
pub open spec fn spec_decompress(archive: Seq<u8>) -> Seq<u8> {
    dec_data::<Model>(
        model_init(),
        dec_init(archive.subrange(8, archive.len() as int)),
        (le_u64_at(archive, 0) as usize) as nat,
    ).2
}

pub fn compress(data: &[u8]) -> (archive: Vec<u8>)
    ensures
        archive@ == spec_compress(data@),
{
    let mut m = Model::new();
    let mut e = Encoder::new();
    let n = data.len() as u64;
    let mut archive = Vec::with_capacity(data.len() / 2 + 16);
    push_u64_le(&mut archive, n);  // 8-byte length header
    encode_bytes(&mut m, &mut e, data);
    e.flush();
    append_bytes(&mut archive, e.out.as_slice());
    archive
}

pub fn decompress(archive: &[u8]) -> (out: Vec<u8>)
    requires
        archive@.len() >= 8,
    ensures
        out@ == spec_decompress(archive@),
{
    let n = read_u64_le(archive, 0) as usize;
    let mut m = Model::new();
    let mut d = Decoder::new(slice_range(archive, 8, archive.len()));
    decode_bytes(&mut m, &mut d, n)
}

/// Decompressing a compressed archive gives back the input, byte for byte.
pub proof fn lemma_roundtrip(data: Seq<u8>)
    requires
        data.len() <= usize::MAX,
    ensures
        spec_decompress(spec_compress(data)) == data,
{
    let a = spec_compress(data);
    let st = data_stream::<Model>(model_init(), data);
    lemma_u64_roundtrip(data.len() as u64, Seq::empty(), st);
    assert(Seq::<u8>::empty() + u64_le(data.len() as u64) + st == a);
    assert(a.subrange(8, a.len() as int) == st);
    assert(model_wf(model_init()));
    lemma_stream_roundtrip::<Model>(model_init(), data);
}

} // verus!
