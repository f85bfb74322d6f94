//! Byte coding through an adaptive bit model.
//!
//! Each byte is coded as eight binary decisions, most significant bit first,
//! walking the binary tree of partial bytes: `node` starts at 1 and becomes
//! `node * 2 + bit` after each bit.  A [`BitModel`] predicts every bit and
//! learns from it; encoder and decoder run the same model on the same bits,
//! so they see the same probabilities.  `lemma_stream_roundtrip` states that
//! decoding what the encoder produced gives back the data, for every model.
use vstd::prelude::*;
use crate::coder::{
    bits_ok, dec_init, dec_step, dec_wf, enc_run, enc_step, enc_valid, flushed, lemma_decoder_init,
    lemma_decoder_step, lemma_enc_run_append, lemma_enc_step_valid, stream_of, synced,
    DecState, Decoder, EncState, Encoder, enc_init,
};

verus! {

/// An adaptive predictor of the bits of a byte stream.  Its behaviour is a
/// function of its abstract state, given by the spec functions below.
pub trait BitModel: View + Sized {
    /// Well-formedness of the model state.
    spec fn wf(s: Self::V) -> bool;

    /// State after the byte-start hook.
    spec fn sp_begin(s: Self::V) -> Self::V;

    /// Probability (12-bit) that the bit at tree `node`, bit position `i`,
    /// is 1, with the state after predicting.
    spec fn sp_predict(s: Self::V, node: u32, i: u32) -> (u32, Self::V);

    /// State after learning that the bit was `bit`, predicted with `p`.
    spec fn sp_learn(s: Self::V, node: u32, i: u32, bit: u32, p: u32) -> Self::V;

    /// State after the whole byte `b` is known.
    spec fn sp_end(s: Self::V, b: u8) -> Self::V;

    proof fn lemma_begin_wf(s: Self::V)
        requires
            Self::wf(s),
        ensures
            Self::wf(Self::sp_begin(s)),
    ;

    proof fn lemma_predict_wf(s: Self::V, node: u32, i: u32)
        requires
            Self::wf(s),
            1 <= node < 256,
            i < 8,
        ensures
            Self::sp_predict(s, node, i).0 <= 4095,
            Self::wf(Self::sp_predict(s, node, i).1),
    ;

    proof fn lemma_learn_wf(s: Self::V, node: u32, i: u32, bit: u32, p: u32)
        requires
            Self::wf(s),
            1 <= node < 256,
            i < 8,
            bit <= 1,
            p <= 4095,
        ensures
            Self::wf(Self::sp_learn(s, node, i, bit, p)),
    ;

    proof fn lemma_end_wf(s: Self::V, b: u8)
        requires
            Self::wf(s),
        ensures
            Self::wf(Self::sp_end(s, b)),
    ;

    fn begin_bits(&mut self)
        requires
            Self::wf(old(self)@),
        ensures
            final(self)@ == Self::sp_begin(old(self)@),
    ;

    fn predict_bit(&mut self, node: u32, i: u32) -> (p: u32)
        requires
            Self::wf(old(self)@),
            1 <= node < 256,
            i < 8,
        ensures
            (p, final(self)@) == Self::sp_predict(old(self)@, node, i),
    ;

    fn learn_bit(&mut self, node: u32, i: u32, bit: u32, p: u32)
        requires
            Self::wf(old(self)@),
            1 <= node < 256,
            i < 8,
            bit <= 1,
            p <= 4095,
        ensures
            final(self)@ == Self::sp_learn(old(self)@, node, i, bit, p),
    ;

    fn end_bits(&mut self, b: u8)
        requires
            Self::wf(old(self)@),
        ensures
            final(self)@ == Self::sp_end(old(self)@, b),
    ;
}

/// Tree node before the bit at depth `j` (0..8) of `byte`.
pub open spec fn node_of(byte: u8, j: u32) -> u32 {
    ((byte as u32) >> ((8 - j) as u32)) | (1u32 << j)
}

/// Bit `i` (0 = least significant) of `byte`.
pub open spec fn bit_of(byte: u8, i: u32) -> u32 {
    ((byte >> i) & 1u8) as u32
}

/// Coding the bits of `byte` from depth `j` on: the final state, the bits
/// and their probabilities.
pub open spec fn code_bits<M: BitModel>(s: M::V, byte: u8, j: u32) -> (M::V, Seq<u32>, Seq<u32>)
    decreases 8 - j,
{
    if j >= 8 {
        (s, Seq::empty(), Seq::empty())
    } else {
        let i = (7 - j) as u32;
        let node = node_of(byte, j);
        let (p, s1) = M::sp_predict(s, node, i);
        let bit = bit_of(byte, i);
        let s2 = M::sp_learn(s1, node, i, bit, p);
        let r = code_bits::<M>(s2, byte, (j + 1) as u32);
        (r.0, seq![bit] + r.1, seq![p] + r.2)
    }
}

pub open spec fn code_byte<M: BitModel>(s: M::V, byte: u8) -> (M::V, Seq<u32>, Seq<u32>) {
    let r = code_bits::<M>(M::sp_begin(s), byte, 0);
    (M::sp_end(r.0, byte), r.1, r.2)
}

/// Coding a byte sequence: final model state, all bits, all probabilities.
pub open spec fn code_data<M: BitModel>(s: M::V, data: Seq<u8>) -> (M::V, Seq<u32>, Seq<u32>)
    decreases data.len(),
{
    if data.len() == 0 {
        (s, Seq::empty(), Seq::empty())
    } else {
        let r1 = code_byte::<M>(s, data[0]);
        let r2 = code_data::<M>(r1.0, data.drop_first());
        (r2.0, r1.1 + r2.1, r1.2 + r2.2)
    }
}

/// The code stream of `data` for a model starting in state `s`.
pub open spec fn data_stream<M: BitModel>(s: M::V, data: Seq<u8>) -> Seq<u8> {
    stream_of(code_data::<M>(s, data).1, code_data::<M>(s, data).2)
}

/// Decoding bits from depth `j`: final state, decoder, and tree node.
pub open spec fn dec_bits<M: BitModel>(s: M::V, d: DecState, node: u32, j: u32) -> (
    M::V,
    DecState,
    u32,
)
    decreases 8 - j,
{
    if j >= 8 {
        (s, d, node)
    } else {
        let i = (7 - j) as u32;
        let (p, s1) = M::sp_predict(s, node, i);
        let (bit, d1) = dec_step(d, p);
        let s2 = M::sp_learn(s1, node, i, bit, p);
        dec_bits::<M>(s2, d1, (node << 1u32) | bit, (j + 1) as u32)
    }
}

pub open spec fn dec_byte<M: BitModel>(s: M::V, d: DecState) -> (M::V, DecState, u8) {
    let r = dec_bits::<M>(M::sp_begin(s), d, 1, 0);
    let b = (r.2 & 0xffu32) as u8;
    (M::sp_end(r.0, b), r.1, b)
}

/// Decoding `n` bytes: final model state, decoder, and the bytes.
pub open spec fn dec_data<M: BitModel>(s: M::V, d: DecState, n: nat) -> (M::V, DecState, Seq<u8>)
    decreases n,
{
    if n == 0 {
        (s, d, Seq::empty())
    } else {
        let r1 = dec_byte::<M>(s, d);
        let r2 = dec_data::<M>(r1.0, r1.1, (n - 1) as nat);
        (r2.0, r2.1, seq![r1.2] + r2.2)
    }
}

// ---------------------------------------------------------------------------
// Proofs.
// ---------------------------------------------------------------------------
proof fn lemma_node_step(byte: u8, j: u32)
    requires
        j < 8,
    ensures
        (node_of(byte, j) << 1u32) | bit_of(byte, (7 - j) as u32) == node_of(byte, (j + 1) as u32),
        1 <= node_of(byte, j) < 256,
        bit_of(byte, (7 - j) as u32) <= 1,
{
    let k = (7 - j) as u32;
    assert(j < 8 && k == 7 - j ==> ((((byte as u32) >> ((8 - j) as u32)) | (1u32 << j)) << 1u32) | (((
    byte >> k) & 1u8) as u32) == ((byte as u32) >> ((8 - (j + 1)) as u32)) | (1u32 << ((j
        + 1) as u32)) && 1 <= (((byte as u32) >> ((8 - j) as u32)) | (1u32 << j)) && (((byte as u32)
        >> ((8 - j) as u32)) | (1u32 << j)) < 256 && ((byte >> k) & 1u8) as u32 <= 1) by (bit_vector);
}

proof fn lemma_node_final(byte: u8)
    ensures
        (node_of(byte, 8) & 0xffu32) as u8 == byte,
        node_of(byte, 0) == 1,
{
    assert(((((byte as u32) >> 0u32) | (1u32 << 8u32)) & 0xffu32) as u8 == byte && (((byte as u32)
        >> 8u32) | (1u32 << 0u32)) == 1) by (bit_vector);
}

proof fn lemma_bits_ok_concat(b1: Seq<u32>, p1: Seq<u32>, b2: Seq<u32>, p2: Seq<u32>)
    requires
        bits_ok(b1, p1),
        bits_ok(b2, p2),
    ensures
        bits_ok(b1 + b2, p1 + p2),
{
    assert forall|i: int| 0 <= i < (b1 + b2).len() implies (b1 + b2)[i] <= 1 by {
        if i < b1.len() {
            assert((b1 + b2)[i] == b1[i]);
        } else {
            assert((b1 + b2)[i] == b2[i - b1.len()]);
        }
    }
    assert forall|i: int| 0 <= i < (p1 + p2).len() implies (p1 + p2)[i] <= 4095 by {
        if i < p1.len() {
            assert((p1 + p2)[i] == p1[i]);
        } else {
            assert((p1 + p2)[i] == p2[i - p1.len()]);
        }
    }
}

proof fn lemma_code_bits_ok<M: BitModel>(s: M::V, byte: u8, j: u32)
    requires
        M::wf(s),
        j <= 8,
    ensures
        M::wf(code_bits::<M>(s, byte, j).0),
        bits_ok(code_bits::<M>(s, byte, j).1, code_bits::<M>(s, byte, j).2),
        code_bits::<M>(s, byte, j).1.len() == 8 - j,
    decreases 8 - j,
{
    if j < 8 {
        let i = (7 - j) as u32;
        let node = node_of(byte, j);
        lemma_node_step(byte, j);
        M::lemma_predict_wf(s, node, i);
        let (p, s1) = M::sp_predict(s, node, i);
        let bit = bit_of(byte, i);
        M::lemma_learn_wf(s1, node, i, bit, p);
        let s2 = M::sp_learn(s1, node, i, bit, p);
        lemma_code_bits_ok::<M>(s2, byte, (j + 1) as u32);
        let r = code_bits::<M>(s2, byte, (j + 1) as u32);
        assert(bits_ok(seq![bit], seq![p]));
        lemma_bits_ok_concat(seq![bit], seq![p], r.1, r.2);
    }
}

pub proof fn lemma_code_data_ok<M: BitModel>(s: M::V, data: Seq<u8>)
    requires
        M::wf(s),
    ensures
        M::wf(code_data::<M>(s, data).0),
        bits_ok(code_data::<M>(s, data).1, code_data::<M>(s, data).2),
    decreases data.len(),
{
    if data.len() > 0 {
        M::lemma_begin_wf(s);
        lemma_code_bits_ok::<M>(M::sp_begin(s), data[0], 0);
        let r = code_bits::<M>(M::sp_begin(s), data[0], 0);
        M::lemma_end_wf(r.0, data[0]);
        let r1 = code_byte::<M>(s, data[0]);
        lemma_code_data_ok::<M>(r1.0, data.drop_first());
        let r2 = code_data::<M>(r1.0, data.drop_first());
        lemma_bits_ok_concat(r1.1, r1.2, r2.1, r2.2);
    }
}

proof fn lemma_dec_bits_sync<M: BitModel>(
    s: M::V,
    d: DecState,
    e: EncState,
    byte: u8,
    j: u32,
    rest_b: Seq<u32>,
    rest_p: Seq<u32>,
    f: Seq<u8>,
)
    requires
        M::wf(s),
        j <= 8,
        enc_valid(e),
        bits_ok(code_bits::<M>(s, byte, j).1 + rest_b, code_bits::<M>(s, byte, j).2 + rest_p),
        f == flushed(
            enc_run(e, code_bits::<M>(s, byte, j).1 + rest_b, code_bits::<M>(s, byte, j).2 + rest_p),
        ),
        synced(d, e, f),
    ensures
        dec_bits::<M>(s, d, node_of(byte, j), j).0 == code_bits::<M>(s, byte, j).0,
        dec_bits::<M>(s, d, node_of(byte, j), j).2 == node_of(byte, 8),
        synced(
            dec_bits::<M>(s, d, node_of(byte, j), j).1,
            enc_run(e, code_bits::<M>(s, byte, j).1, code_bits::<M>(s, byte, j).2),
            f,
        ),
        enc_valid(enc_run(e, code_bits::<M>(s, byte, j).1, code_bits::<M>(s, byte, j).2)),
    decreases 8 - j,
{
    let cb = code_bits::<M>(s, byte, j);
    if j < 8 {
        let i = (7 - j) as u32;
        let node = node_of(byte, j);
        lemma_node_step(byte, j);
        M::lemma_predict_wf(s, node, i);
        let (p, s1) = M::sp_predict(s, node, i);
        let bit = bit_of(byte, i);
        M::lemma_learn_wf(s1, node, i, bit, p);
        let s2 = M::sp_learn(s1, node, i, bit, p);
        let r = code_bits::<M>(s2, byte, (j + 1) as u32);
        let all_b = cb.1 + rest_b;
        let all_p = cb.2 + rest_p;
        assert(all_b[0] == bit);
        assert(all_p[0] == p);
        assert(all_b.drop_first() == r.1 + rest_b);
        assert(all_p.drop_first() == r.2 + rest_p);
        lemma_decoder_step(d, e, all_b, all_p);
        let (dbit, d1) = dec_step(d, p);
        let e1 = enc_step(e, bit, p);
        lemma_enc_step_valid(e, bit, p);
        assert(bits_ok(r.1 + rest_b, r.2 + rest_p)) by {
            assert forall|k: int| 0 <= k < (r.1 + rest_b).len() implies (r.1 + rest_b)[k] <= 1 by {
                assert((r.1 + rest_b)[k] == all_b[k + 1]);
            }
            assert forall|k: int| 0 <= k < (r.2 + rest_p).len() implies (r.2 + rest_p)[k]
                <= 4095 by {
                assert((r.2 + rest_p)[k] == all_p[k + 1]);
            }
        }
        lemma_dec_bits_sync::<M>(s2, d1, e1, byte, (j + 1) as u32, rest_b, rest_p, f);
        assert(cb.1.drop_first() == r.1);
        assert(cb.2.drop_first() == r.2);
    }
}

proof fn lemma_dec_data_sync<M: BitModel>(
    s: M::V,
    d: DecState,
    e: EncState,
    data: Seq<u8>,
    f: Seq<u8>,
    rest_b: Seq<u32>,
    rest_p: Seq<u32>,
)
    requires
        M::wf(s),
        enc_valid(e),
        bits_ok(code_data::<M>(s, data).1 + rest_b, code_data::<M>(s, data).2 + rest_p),
        f == flushed(
            enc_run(e, code_data::<M>(s, data).1 + rest_b, code_data::<M>(s, data).2 + rest_p),
        ),
        synced(d, e, f),
    ensures
        dec_data::<M>(s, d, data.len()).0 == code_data::<M>(s, data).0,
        dec_data::<M>(s, d, data.len()).2 == data,
    decreases data.len(),
{
    if data.len() > 0 {
        let byte = data[0];
        M::lemma_begin_wf(s);
        let sb = M::sp_begin(s);
        let cb = code_bits::<M>(sb, byte, 0);
        lemma_code_bits_ok::<M>(sb, byte, 0);
        let r1 = code_byte::<M>(s, byte);
        M::lemma_end_wf(cb.0, byte);
        let r2 = code_data::<M>(r1.0, data.drop_first());
        let cd = code_data::<M>(s, data);
        assert(cd.1 + rest_b == cb.1 + (r2.1 + rest_b));
        assert(cd.2 + rest_p == cb.2 + (r2.2 + rest_p));
        lemma_node_final(byte);
        lemma_dec_bits_sync::<M>(sb, d, e, byte, 0, r2.1 + rest_b, r2.2 + rest_p, f);
        let db = dec_bits::<M>(sb, d, 1, 0);
        let e1 = enc_run(e, cb.1, cb.2);
        lemma_enc_run_append(e, cb.1, cb.2, r2.1 + rest_b, r2.2 + rest_p);
        lemma_code_data_ok::<M>(r1.0, data.drop_first());
        assert(bits_ok(r2.1 + rest_b, r2.2 + rest_p)) by {
            let all_b = cb.1 + (r2.1 + rest_b);
            let all_p = cb.2 + (r2.2 + rest_p);
            assert forall|k: int| 0 <= k < (r2.1 + rest_b).len() implies (r2.1 + rest_b)[k]
                <= 1 by {
                assert((r2.1 + rest_b)[k] == all_b[k + cb.1.len()]);
            }
            assert forall|k: int| 0 <= k < (r2.2 + rest_p).len() implies (r2.2 + rest_p)[k]
                <= 4095 by {
                assert((r2.2 + rest_p)[k] == all_p[k + cb.2.len()]);
            }
        }
        lemma_dec_data_sync::<M>(r1.0, db.1, e1, data.drop_first(), f, rest_b, rest_p);
        let dd = dec_data::<M>(s, d, data.len());
        assert(dd.2 == seq![byte] + data.drop_first());
        assert(seq![byte] + data.drop_first() == data);
    }
}

/// Decoding the stream that a model in state `s` produced for `data`, with a
/// second copy of the model started in the same state, gives back `data`
/// and leaves the copy in the same state as the encoding model.
pub proof fn lemma_stream_roundtrip<M: BitModel>(s: M::V, data: Seq<u8>)
    requires
        M::wf(s),
    ensures
        dec_data::<M>(s, dec_init(data_stream::<M>(s, data)), data.len()).2 == data,
        dec_data::<M>(s, dec_init(data_stream::<M>(s, data)), data.len()).0 == code_data::<M>(
            s,
            data,
        ).0,
{
    let cd = code_data::<M>(s, data);
    lemma_code_data_ok::<M>(s, data);
    lemma_decoder_init(cd.1, cd.2);
    assert(cd.1 + Seq::<u32>::empty() == cd.1);
    assert(cd.2 + Seq::<u32>::empty() == cd.2);
    crate::coder::lemma_initial_interval();
    lemma_dec_data_sync::<M>(
        s,
        dec_init(data_stream::<M>(s, data)),
        enc_init(),
        data,
        data_stream::<M>(s, data),
        Seq::empty(),
        Seq::empty(),
    );
}

// ---------------------------------------------------------------------------
// Executable byte loops.
// ---------------------------------------------------------------------------
/// Code every byte of `data` through `m` into `e`.
pub fn encode_bytes<M: BitModel>(m: &mut M, e: &mut Encoder, data: &[u8])
    requires
        M::wf(old(m)@),
        enc_valid(old(e)@),
    ensures
        final(m)@ == code_data::<M>(old(m)@, data@).0,
        final(e)@ == enc_run(
            old(e)@,
            code_data::<M>(old(m)@, data@).1,
            code_data::<M>(old(m)@, data@).2,
        ),
        M::wf(final(m)@),
        enc_valid(final(e)@),
        old(e)@.out.is_prefix_of(final(e)@.out),
{
    let ghost s0 = m@;
    let ghost e0 = e@;
    let ghost all = code_data::<M>(s0, data@);
    let mut k: usize = 0;
    proof {
        assert(data@.skip(0) == data@);
    }
    while k < data.len()
        invariant
            k <= data.len(),
            M::wf(m@),
            enc_valid(e@),
            code_data::<M>(m@, data@.skip(k as int)).0 == all.0,
            enc_run(
                e@,
                code_data::<M>(m@, data@.skip(k as int)).1,
                code_data::<M>(m@, data@.skip(k as int)).2,
            ) == enc_run(e0, all.1, all.2),
        decreases data.len() - k,
    {
        let byte = data[k];
        let ghost sk = m@;
        let ghost ek = e@;
        proof {
            assert(data@.skip(k as int)[0] == byte);
            assert(data@.skip(k as int).drop_first() == data@.skip(k + 1));
            M::lemma_begin_wf(sk);
        }
        m.begin_bits();
        let ghost sb = m@;
        let ghost cb = code_bits::<M>(sb, byte, 0);
        let mut node: u32 = 1;
        let mut j: u32 = 0;
        proof {
            lemma_node_final(byte);
        }
        while j < 8
            invariant
                j <= 8,
                M::wf(m@),
                enc_valid(e@),
                node == node_of(byte, j),
                code_bits::<M>(m@, byte, j).0 == cb.0,
                enc_run(e@, code_bits::<M>(m@, byte, j).1, code_bits::<M>(m@, byte, j).2)
                    == enc_run(ek, cb.1, cb.2),
            decreases 8 - j,
        {
            let i = 7 - j;
            proof {
                lemma_node_step(byte, j);
            }
            let bit = ((byte >> i) & 1) as u32;
            let ghost sj = m@;
            proof {
                M::lemma_predict_wf(sj, node, i);
            }
            let p = m.predict_bit(node, i);
            proof {
                M::lemma_learn_wf(m@, node, i, bit, p);
            }
            e.encode(bit, p);
            m.learn_bit(node, i, bit, p);
            node = (node << 1) | bit;
            j += 1;
            proof {
                let r = code_bits::<M>(m@, byte, j);
                assert((seq![bit] + r.1).drop_first() == r.1);
                assert((seq![p] + r.2).drop_first() == r.2);
            }
        }
        proof {
            lemma_code_bits_ok::<M>(sb, byte, 0);
            M::lemma_end_wf(m@, byte);
        }
        m.end_bits(byte);
        proof {
            let r2 = code_data::<M>(m@, data@.skip(k + 1));
            lemma_enc_run_append(ek, cb.1, cb.2, r2.1, r2.2);
        }
        k += 1;
    }
    proof {
        assert(data@.skip(data.len() as int) == Seq::<u8>::empty());
        lemma_code_data_ok::<M>(s0, data@);
        crate::coder::lemma_enc_run_extends(e0, all.1, all.2);
    }
}

/// Adapt `m` over `data` without coding anything.
pub fn train_bytes<M: BitModel>(m: &mut M, data: &[u8])
    requires
        M::wf(old(m)@),
    ensures
        final(m)@ == code_data::<M>(old(m)@, data@).0,
        M::wf(final(m)@),
{
    let ghost s0 = m@;
    let ghost all = code_data::<M>(s0, data@);
    let mut k: usize = 0;
    proof {
        assert(data@.skip(0) == data@);
    }
    while k < data.len()
        invariant
            k <= data.len(),
            M::wf(m@),
            code_data::<M>(m@, data@.skip(k as int)).0 == all.0,
        decreases data.len() - k,
    {
        let byte = data[k];
        let ghost sk = m@;
        proof {
            assert(data@.skip(k as int)[0] == byte);
            assert(data@.skip(k as int).drop_first() == data@.skip(k + 1));
            M::lemma_begin_wf(sk);
        }
        m.begin_bits();
        let ghost sb = m@;
        let ghost cb = code_bits::<M>(sb, byte, 0);
        let mut node: u32 = 1;
        let mut j: u32 = 0;
        proof {
            lemma_node_final(byte);
        }
        while j < 8
            invariant
                j <= 8,
                M::wf(m@),
                node == node_of(byte, j),
                code_bits::<M>(m@, byte, j).0 == cb.0,
            decreases 8 - j,
        {
            let i = 7 - j;
            proof {
                lemma_node_step(byte, j);
            }
            let bit = ((byte >> i) & 1) as u32;
            proof {
                M::lemma_predict_wf(m@, node, i);
            }
            let p = m.predict_bit(node, i);
            proof {
                M::lemma_learn_wf(m@, node, i, bit, p);
            }
            m.learn_bit(node, i, bit, p);
            node = (node << 1) | bit;
            j += 1;
        }
        proof {
            M::lemma_end_wf(m@, byte);
        }
        m.end_bits(byte);
        k += 1;
    }
    proof {
        assert(data@.skip(data.len() as int) == Seq::<u8>::empty());
    }
}

/// Decode `n` bytes from `d` through `m`.
pub fn decode_bytes<M: BitModel>(m: &mut M, d: &mut Decoder, n: usize) -> (out: Vec<u8>)
    requires
        M::wf(old(m)@),
        dec_wf(old(d)@),
    ensures
        (final(m)@, final(d)@, out@) == dec_data::<M>(old(m)@, old(d)@, n as nat),
        M::wf(final(m)@),
        dec_wf(final(d)@),
{
    let ghost s0 = m@;
    let ghost d0 = d@;
    let ghost all = dec_data::<M>(s0, d0, n as nat);
    let mut out: Vec<u8> = Vec::new();
    let mut k: usize = 0;
    while k < n
        invariant
            k <= n,
            M::wf(m@),
            dec_wf(d@),
            dec_data::<M>(m@, d@, (n - k) as nat).0 == all.0,
            dec_data::<M>(m@, d@, (n - k) as nat).1 == all.1,
            out@ + dec_data::<M>(m@, d@, (n - k) as nat).2 == all.2,
        decreases n - k,
    {
        let ghost sk = m@;
        let ghost dk = d@;
        proof {
            M::lemma_begin_wf(sk);
        }
        m.begin_bits();
        let ghost sb = m@;
        let ghost db = dec_bits::<M>(sb, dk, 1, 0);
        let mut node: u32 = 1;
        let mut j: u32 = 0;
        assert((1u32 << 0u32) * 2 == 2) by (bit_vector);
        while j < 8
            invariant
                j <= 8,
                M::wf(m@),
                dec_wf(d@),
                1 <= node < (1u32 << j) * 2,
                dec_bits::<M>(m@, d@, node, j) == db,
            decreases 8 - j,
        {
            let i = 7 - j;
            proof {
                assert(j < 8 ==> (1u32 << j) * 2 <= 256) by (bit_vector);
                M::lemma_predict_wf(m@, node, i);
            }
            let p = m.predict_bit(node, i);
            let bit = d.decode(p);
            proof {
                M::lemma_learn_wf(m@, node, i, bit, p);
            }
            m.learn_bit(node, i, bit, p);
            proof {
                assert(j < 8 && 1 <= node && node < (1u32 << j) * 2 && bit <= 1 ==> 1 <= ((node
                    << 1u32) | bit) && ((node << 1u32) | bit) < (1u32 << ((j + 1) as u32)) * 2)
                    by (bit_vector);
            }
            node = (node << 1) | bit;
            j += 1;
        }
        assert(node & 0xffu32 <= 255) by (bit_vector);
        let byte = (node & 0xFF) as u8;
        proof {
            M::lemma_end_wf(m@, byte);
        }
        m.end_bits(byte);
        out.push(byte);
        k += 1;
        proof {
            let rest = dec_data::<M>(m@, d@, (n - k) as nat);
            assert(out@ + rest.2 == out@.drop_last() + (seq![byte] + rest.2));
        }
    }
    proof {
        assert(out@ + Seq::<u8>::empty() == out@);
    }
    out
}

} // verus!
