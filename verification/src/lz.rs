//! A byte-oriented LZ77 container.
//!
//! The archive is `"LZ1\0"`, the plain length as a little-endian `u64`, and
//! a stream of tokens: a literal run (`0`, `u16` length, the bytes) or a
//! back-reference (`1`, `u16` offset, `u16` length) that copies byte by
//! byte from `offset` bytes back, so that a reference may overlap its own
//! output.  The compressor is greedy: at each position it tries the last
//! earlier position that began with the same three bytes.
use vstd::prelude::*;
use std::collections::HashMap;
use crate::wire::{le_u16_at, le_u64_at, lemma_u16_roundtrip, lemma_u64_roundtrip, push_u16_le, push_u64_le, read_u16_le, read_u64_le, u16_le, u64_le};

verus! {

broadcast use vstd::std_specs::hash::group_hash_axioms;

/// Why an archive was refused.
#[derive(Clone, Copy, Debug, PartialEq, Eq, Structural)]
pub enum LzError {
    /// Shorter than the header, or the magic is wrong.
    Header,
    /// A literal token without its length field.
    Literal,
    /// A literal run that runs past the end.
    LiteralOverflow,
    /// A back-reference without its two fields.
    Match,
    /// A back-reference with offset zero or reaching before the start.
    MatchOffset,
    /// A token tag other than 0 and 1.
    Tag,
    /// The tokens ran out or overshot the stored length.
    Length,
}

impl LzError {
    /// The short name of the error.
    pub fn message(self) -> (s: &'static str)
        ensures
            self == LzError::Header ==> s@ == "lz hdr"@,
            self == LzError::Literal ==> s@ == "lit"@,
            self == LzError::LiteralOverflow ==> s@ == "lit ov"@,
            self == LzError::Match ==> s@ == "m"@,
            self == LzError::MatchOffset ==> s@ == "moff"@,
            self == LzError::Tag ==> s@ == "tag"@,
            self == LzError::Length ==> s@ == "len"@,
    {
        match self {
            LzError::Header => "lz hdr",
            LzError::Literal => "lit",
            LzError::LiteralOverflow => "lit ov",
            LzError::Match => "m",
            LzError::MatchOffset => "moff",
            LzError::Tag => "tag",
            LzError::Length => "len",
        }
    }
}

/// "LZ1\0"
pub const LZ_MAGIC: [u8; 4] = [0x4c, 0x5a, 0x31, 0x00];

/// The longest literal run and the longest back-reference.
pub const RUN_MAX: usize = 65535;

pub open spec fn min_nat(a: nat, b: nat) -> nat {
    if a <= b {
        a
    } else {
        b
    }
}

/// Literal runs carrying `l`, each of at most `RUN_MAX` bytes.
pub open spec fn lit_runs(l: Seq<u8>) -> Seq<u8>
    decreases l.len(),
{
    if l.len() == 0 {
        Seq::empty()
    } else {
        let n = min_nat(l.len(), RUN_MAX as nat);
        seq![0u8] + u16_le(n as u16) + l.take(n as int) + lit_runs(l.skip(n as int))
    }
}

/// A back-reference token.
pub open spec fn match_tok(off: nat, len: nat) -> Seq<u8> {
    seq![1u8] + u16_le(off as u16) + u16_le(len as u16)
}

/// `o` extended by `n` bytes, each a copy of the byte `of` places back.
pub open spec fn copy_back(o: Seq<u8>, of: nat, n: nat) -> Seq<u8>
    decreases n,
{
    if n == 0 {
        o
    } else {
        copy_back(o.push(o[o.len() - of]), of, (n - 1) as nat)
    }
}

pub open spec fn has_magic(d: Seq<u8>) -> bool {
    d.len() >= 4 && d[0] == LZ_MAGIC[0] && d[1] == LZ_MAGIC[1] && d[2] == LZ_MAGIC[2] && d[3]
        == LZ_MAGIC[3]
}

/// Decoding tokens from position `a` onto `o` until the input ends or `want`
/// bytes are out, then checking that exactly `want` are.
pub open spec fn lz_run(d: Seq<u8>, a: int, o: Seq<u8>, want: nat) -> Result<Seq<u8>, LzError>
    decreases d.len() - a,
{
    if 0 <= a < d.len() && o.len() < want {
        let t = d[a];
        let a1 = a + 1;
        if t == 0 {
            if a1 + 2 > d.len() {
                Err(LzError::Literal)
            } else {
                let n = le_u16_at(d, a1) as int;
                let a2 = a1 + 2;
                if a2 + n > d.len() {
                    Err(LzError::LiteralOverflow)
                } else {
                    lz_run(d, a2 + n, o + d.subrange(a2, a2 + n), want)
                }
            }
        } else if t == 1 {
            if a1 + 4 > d.len() {
                Err(LzError::Match)
            } else {
                let of = le_u16_at(d, a1) as nat;
                let n = le_u16_at(d, a1 + 2) as nat;
                if of == 0 || of > o.len() {
                    Err(LzError::MatchOffset)
                } else {
                    lz_run(d, a1 + 4, copy_back(o, of, n), want)
                }
            }
        } else {
            Err(LzError::Tag)
        }
    } else if o.len() != want {
        Err(LzError::Length)
    } else {
        Ok(o)
    }
}

/// What decompressing the archive `d` gives.
pub open spec fn lz_dec_spec(d: Seq<u8>) -> Result<Seq<u8>, LzError> {
    if d.len() < 12 || !has_magic(d) {
        Err(LzError::Header)
    } else {
        lz_run(d, 12, Seq::empty(), ((le_u64_at(d, 4) as usize) as nat))
    }
}

/// The three bytes at `i` as one key.
pub open spec fn key3(d: Seq<u8>, i: int) -> u32 {
    ((d[i] as u32) << 16u32) | ((d[i + 1] as u32) << 8u32) | (d[i + 2] as u32)
}

/// The length of the common run of `d` at `p` and at `i`, counted on from
/// `b` and capped at `mx`.
pub open spec fn match_run(d: Seq<u8>, p: int, i: int, b: nat, mx: nat) -> nat
    decreases mx - b,
{
    if b < mx && d[p + b] == d[i + b] {
        match_run(d, p, i, b + 1, mx)
    } else {
        b
    }
}

/// `d` holds the same byte `j` places after `p` and after `i`.
pub open spec fn agree(d: Seq<u8>, p: int, i: int, j: int) -> bool {
    d[p + j] == d[i + j]
}

/// The compressor's state: position, last position of each key, pending
/// literals, output so far.
pub struct LzState {
    pub i: nat,
    pub last: Map<u32, usize>,
    pub lit: Seq<u8>,
    pub out: Seq<u8>,
}

pub open spec fn lz_header(d: Seq<u8>) -> Seq<u8> {
    LZ_MAGIC@ + u64_le(d.len() as u64)
}

pub open spec fn lz_init(d: Seq<u8>) -> LzState {
    LzState { i: 0, last: Map::empty(), lit: Seq::empty(), out: lz_header(d) }
}

/// The match found at `i`: its length and offset, or `(0, 0)`.
pub open spec fn candidate(d: Seq<u8>, last: Map<u32, usize>, i: nat) -> (nat, nat) {
    if i + 2 < d.len() && last.contains_key(key3(d, i as int)) {
        let p = last[key3(d, i as int)] as int;
        let o2 = i - p;
        if 0 < o2 <= RUN_MAX {
            let mx = min_nat((d.len() - i) as nat, RUN_MAX as nat);
            let best = match_run(d, p, i as int, 0, mx);
            (best, if best >= 4 {
                o2 as nat
            } else {
                0
            })
        } else {
            (0, 0)
        }
    } else {
        (0, 0)
    }
}

/// `last` after recording the keys of positions `from..to`.
pub open spec fn insert_keys(d: Seq<u8>, last: Map<u32, usize>, from: nat, to: nat) -> Map<
    u32,
    usize,
>
    decreases to - from,
{
    if from < to {
        let l1 = if from + 2 < d.len() {
            last.insert(key3(d, from as int), from as usize)
        } else {
            last
        };
        insert_keys(d, l1, from + 1, to)
    } else {
        last
    }
}

/// One step of the compressor: a back-reference of at least four bytes, or
/// one more literal.
pub open spec fn lz_step(d: Seq<u8>, s: LzState) -> LzState {
    let (best, off) = candidate(d, s.last, s.i);
    if best >= 4 {
        LzState {
            i: s.i + best,
            last: insert_keys(d, s.last, s.i, s.i + best),
            lit: Seq::empty(),
            out: s.out + lit_runs(s.lit) + match_tok(off, best),
        }
    } else {
        let last1 = if s.i + 2 < d.len() {
            s.last.insert(key3(d, s.i as int), s.i as usize)
        } else {
            s.last
        };
        let lit1 = s.lit.push(d[s.i as int]);
        if lit1.len() == RUN_MAX {
            LzState { i: s.i + 1, last: last1, lit: Seq::empty(), out: s.out + lit_runs(lit1) }
        } else {
            LzState { i: s.i + 1, last: last1, lit: lit1, out: s.out }
        }
    }
}

pub proof fn lemma_match_run(d: Seq<u8>, p: int, i: int, b: nat, mx: nat)
    requires
        b <= mx,
    ensures
        b <= match_run(d, p, i, b, mx) <= mx,
        forall|j: int| b <= j < match_run(d, p, i, b, mx) ==> #[trigger] agree(d, p, i, j),
    decreases mx - b,
{
    if b < mx && d[p + b] == d[i + b] {
        lemma_match_run(d, p, i, b + 1, mx);
    }
}

pub proof fn lemma_candidate(d: Seq<u8>, last: Map<u32, usize>, i: nat)
    requires
        i < d.len(),
    ensures
        candidate(d, last, i).0 >= 4 ==> {
            let (best, off) = candidate(d, last, i);
            &&& i + best <= d.len()
            &&& best <= RUN_MAX
            &&& 1 <= off <= i
            &&& off <= RUN_MAX
            &&& forall|j: int| 0 <= j < best ==> #[trigger] agree(d, i - off, i as int, j)
        },
{
    if i + 2 < d.len() && last.contains_key(key3(d, i as int)) {
        let p = last[key3(d, i as int)] as int;
        let o2 = i - p;
        if 0 < o2 <= RUN_MAX {
            let mx = min_nat((d.len() - i) as nat, RUN_MAX as nat);
            lemma_match_run(d, p, i as int, 0, mx);
        }
    }
}

/// Running the compressor from `s` until the input is used up.
pub open spec fn lz_steps(d: Seq<u8>, s: LzState) -> LzState
    decreases d.len() - s.i,
{
    if s.i < d.len() {
        proof {
            lemma_candidate(d, s.last, s.i);
        }
        lz_steps(d, lz_step(d, s))
    } else {
        s
    }
}

/// What compressing `d` gives.
pub open spec fn lz_comp_spec(d: Seq<u8>) -> Seq<u8> {
    let s = lz_steps(d, lz_init(d));
    s.out + lit_runs(s.lit)
}


/// Decoding a token stream in which every token yields at least one byte,
/// until the stream ends.
spec fn run_strict(b: Seq<u8>, o: Seq<u8>) -> Option<Seq<u8>>
    decreases b.len(),
{
    if b.len() == 0 {
        Some(o)
    } else if b[0] == 0 && b.len() >= 3 {
        let n = le_u16_at(b, 1) as int;
        if n >= 1 && 3 + n <= b.len() {
            run_strict(b.skip(3 + n), o + b.subrange(3, 3 + n))
        } else {
            None
        }
    } else if b[0] == 1 && b.len() >= 5 {
        let of = le_u16_at(b, 1) as nat;
        let n = le_u16_at(b, 3) as nat;
        if n >= 1 && 1 <= of <= o.len() {
            run_strict(b.skip(5), copy_back(o, of, n))
        } else {
            None
        }
    } else {
        None
    }
}

proof fn lemma_copy_back_len(o: Seq<u8>, of: nat, n: nat)
    ensures
        copy_back(o, of, n).len() == o.len() + n,
    decreases n,
{
    if n > 0 {
        lemma_copy_back_len(o.push(o[o.len() - of]), of, (n - 1) as nat);
    }
}

/// A back-reference whose source agrees with what follows it copies that.
proof fn lemma_copy_back_prefix(d: Seq<u8>, i: nat, of: nat, n: nat)
    requires
        1 <= of <= i,
        i + n <= d.len(),
        forall|j: int| 0 <= j < n ==> #[trigger] agree(d, i - of, i as int, j),
    ensures
        copy_back(d.take(i as int), of, n) == d.take((i + n) as int),
    decreases n,
{
    if n > 0 {
        assert(agree(d, i - of, i as int, 0));
        assert(d.take(i as int).push(d.take(i as int)[i - of]) =~= d.take((i + 1) as int));
        assert forall|j: int| 0 <= j < n - 1 implies #[trigger] agree(d, (i + 1) - of, (i + 1) as int, j) by {
            assert(agree(d, i - of, i as int, j + 1));
        }
        lemma_copy_back_prefix(d, i + 1, of, (n - 1) as nat);
    }
}

/// Decoding runs on past a completely decoded prefix.
proof fn lemma_run_strict_append(b1: Seq<u8>, b2: Seq<u8>, o: Seq<u8>)
    requires
        run_strict(b1, o) is Some,
    ensures
        run_strict(b1 + b2, o) == run_strict(b2, run_strict(b1, o)->0),
    decreases b1.len(),
{
    let b = b1 + b2;
    if b1.len() == 0 {
        assert(b =~= b2);
    } else if b1[0] == 0 && b1.len() >= 3 {
        let n = le_u16_at(b1, 1) as int;
        assert(le_u16_at(b, 1) == le_u16_at(b1, 1));
        assert(b.skip(3 + n) =~= b1.skip(3 + n) + b2);
        assert(b.subrange(3, 3 + n) =~= b1.subrange(3, 3 + n));
        lemma_run_strict_append(b1.skip(3 + n), b2, o + b1.subrange(3, 3 + n));
    } else {
        let of = le_u16_at(b1, 1) as nat;
        let n = le_u16_at(b1, 3) as nat;
        assert(le_u16_at(b, 1) == le_u16_at(b1, 1));
        assert(le_u16_at(b, 3) == le_u16_at(b1, 3));
        assert(b.skip(5) =~= b1.skip(5) + b2);
        lemma_run_strict_append(b1.skip(5), b2, copy_back(o, of, n));
    }
}

/// Literal runs decode to their bytes.
proof fn lemma_lit_runs(l: Seq<u8>, o: Seq<u8>)
    ensures
        run_strict(lit_runs(l), o) == Some(o + l),
    decreases l.len(),
{
    if l.len() == 0 {
        assert(o + l =~= o);
    } else {
        let n = min_nat(l.len(), RUN_MAX as nat);
        let rest = lit_runs(l.skip(n as int));
        let b = lit_runs(l);
        assert(b =~= seq![0u8] + u16_le(n as u16) + (l.take(n as int) + rest));
        lemma_u16_roundtrip(n as u16, seq![0u8], l.take(n as int) + rest);
        assert(b.skip((3 + n) as int) =~= rest);
        assert(b.subrange(3, (3 + n) as int) =~= l.take(n as int));
        lemma_lit_runs(l.skip(n as int), o + l.take(n as int));
        assert(o + l.take(n as int) + l.skip(n as int) =~= o + l);
    }
}

/// A back-reference token decodes to its copy.
proof fn lemma_match_tok(off: nat, len: nat, o: Seq<u8>)
    requires
        1 <= off <= o.len(),
        off <= RUN_MAX,
        1 <= len <= RUN_MAX,
    ensures
        run_strict(match_tok(off, len), o) == Some(copy_back(o, off, len)),
{
    let b = match_tok(off, len);
    lemma_u16_roundtrip(off as u16, seq![1u8], u16_le(len as u16));
    assert(b =~= seq![1u8] + u16_le(off as u16) + u16_le(len as u16) + Seq::<u8>::empty());
    lemma_u16_roundtrip(len as u16, seq![1u8] + u16_le(off as u16), Seq::<u8>::empty());
    assert(b.skip(5) =~= Seq::<u8>::empty());
    assert(le_u16_at(b, 1) as nat == off);
    assert(le_u16_at(b, 3) as nat == len);
    assert(run_strict(Seq::<u8>::empty(), copy_back(o, off, len)) == Some(copy_back(o, off, len)));
}

/// A stream that decodes with every token non-empty decodes the same way
/// under the length-bounded decoder.
proof fn lemma_strict_run(d: Seq<u8>, a: int, o: Seq<u8>, want: nat)
    requires
        0 <= a <= d.len(),
        run_strict(d.skip(a), o) is Some,
        run_strict(d.skip(a), o)->0.len() == want,
    ensures
        o.len() <= want,
        a < d.len() ==> o.len() < want,
        lz_run(d, a, o, want) == Ok::<Seq<u8>, LzError>(run_strict(d.skip(a), o)->0),
    decreases d.len() - a,
{
    let b = d.skip(a);
    if a < d.len() {
        if b[0] == 0 && b.len() >= 3 {
            let n = le_u16_at(b, 1) as int;
            assert(le_u16_at(b, 1) == le_u16_at(d, a + 1));
            assert(b.skip(3 + n) =~= d.skip(a + 3 + n));
            assert(b.subrange(3, 3 + n) =~= d.subrange(a + 3, a + 3 + n));
            lemma_strict_run(d, a + 3 + n, o + b.subrange(3, 3 + n), want);
        } else {
            let of = le_u16_at(b, 1) as nat;
            let n = le_u16_at(b, 3) as nat;
            assert(le_u16_at(b, 1) == le_u16_at(d, a + 1));
            assert(le_u16_at(b, 3) == le_u16_at(d, a + 3));
            assert(b.skip(5) =~= d.skip(a + 5));
            lemma_copy_back_len(o, of, n);
            lemma_strict_run(d, a + 5, copy_back(o, of, n), want);
        }
    }
}

/// What the compressor keeps true between steps.
spec fn lz_inv(d: Seq<u8>, s: LzState) -> bool {
    &&& s.i <= d.len()
    &&& s.lit.len() <= s.i
    &&& s.lit.len() < RUN_MAX
    &&& s.lit == d.subrange(s.i - s.lit.len(), s.i as int)
    &&& s.out.len() >= 12
    &&& s.out.take(12) == lz_header(d)
    &&& run_strict(s.out.skip(12), Seq::empty()) == Some(d.take(s.i - s.lit.len()))
    &&& forall|k: u32| #[trigger] s.last.contains_key(k) ==> (s.last[k] as int) < s.i
}

proof fn lemma_insert_keys(d: Seq<u8>, last: Map<u32, usize>, from: nat, to: nat)
    requires
        from <= to,
        to <= usize::MAX,
        forall|k: u32| #[trigger] last.contains_key(k) ==> (last[k] as int) < to,
    ensures
        forall|k: u32| #[trigger] insert_keys(d, last, from, to).contains_key(k) ==> (insert_keys(
            d,
            last,
            from,
            to,
        )[k] as int) < to,
    decreases to - from,
{
    if from < to {
        let l1 = if from + 2 < d.len() {
            last.insert(key3(d, from as int), from as usize)
        } else {
            last
        };
        assert forall|k: u32| #[trigger] l1.contains_key(k) implies (l1[k] as int) < to by {
            if from + 2 < d.len() && k == key3(d, from as int) {
                assert(l1[k] == from as usize);
            } else {
                assert(l1[k] == last[k]);
            }
        }
        lemma_insert_keys(d, l1, from + 1, to);
        assert(insert_keys(d, last, from, to) == insert_keys(d, l1, from + 1, to));
    }
}

/// Appending to an output that keeps its header.
proof fn lemma_out_append(out: Seq<u8>, x: Seq<u8>)
    requires
        out.len() >= 12,
    ensures
        (out + x).take(12) == out.take(12),
        (out + x).skip(12) == out.skip(12) + x,
{
    assert((out + x).take(12) =~= out.take(12));
    assert((out + x).skip(12) =~= out.skip(12) + x);
}

proof fn lemma_step_inv(d: Seq<u8>, s: LzState)
    requires
        lz_inv(d, s),
        s.i < d.len(),
        d.len() <= usize::MAX,
    ensures
        lz_inv(d, lz_step(d, s)),
{
    let (best, off) = candidate(d, s.last, s.i);
    lemma_candidate(d, s.last, s.i);
    let m = d.take(s.i - s.lit.len());
    let body = s.out.skip(12);
    lemma_run_strict_append(body, lit_runs(s.lit), Seq::empty());
    lemma_lit_runs(s.lit, m);
    assert(m + s.lit =~= d.take(s.i as int));
    if best >= 4 {
        let t = lz_step(d, s);
        lemma_match_tok(off, best, d.take(s.i as int));
        lemma_run_strict_append(body + lit_runs(s.lit), match_tok(off, best), Seq::empty());
        lemma_copy_back_prefix(d, s.i, off, best);
        lemma_out_append(s.out, lit_runs(s.lit));
        lemma_out_append(s.out + lit_runs(s.lit), match_tok(off, best));
        lemma_insert_keys(d, s.last, s.i, s.i + best);
        assert(t.lit =~= d.subrange(t.i - 0, t.i as int));
    } else {
        let t = lz_step(d, s);
        let lit1 = s.lit.push(d[s.i as int]);
        assert(lit1 =~= d.subrange(s.i + 1 - lit1.len(), (s.i + 1) as int));
        if lit1.len() == RUN_MAX {
            lemma_run_strict_append(body, lit_runs(lit1), Seq::empty());
            lemma_lit_runs(lit1, m);
            assert(m + lit1 =~= d.take((s.i + 1) as int));
            lemma_out_append(s.out, lit_runs(lit1));
            assert(t.lit =~= d.subrange(t.i - 0, t.i as int));
        } else {
            assert(d.take(t.i - t.lit.len()) =~= m);
        }
    }
}

proof fn lemma_steps_inv(d: Seq<u8>, s: LzState)
    requires
        lz_inv(d, s),
        d.len() <= usize::MAX,
    ensures
        lz_inv(d, lz_steps(d, s)),
        lz_steps(d, s).i == d.len(),
    decreases d.len() - s.i,
{
    if s.i < d.len() {
        lemma_step_inv(d, s);
        lemma_steps_inv(d, lz_step(d, s));
    }
}

/// Decompressing what the compressor wrote gives the input back.
pub proof fn lemma_lz_roundtrip(d: Seq<u8>)
    requires
        d.len() <= usize::MAX,
    ensures
        lz_dec_spec(lz_comp_spec(d)) == Ok::<Seq<u8>, LzError>(d),
{
    let s0 = lz_init(d);
    assert(s0.out.take(12) =~= lz_header(d));
    assert(s0.out.skip(12) =~= Seq::<u8>::empty());
    assert(d.take(0) =~= Seq::<u8>::empty());
    assert(s0.lit =~= d.subrange(0, 0));
    lemma_steps_inv(d, s0);
    let s = lz_steps(d, s0);
    let out = lz_comp_spec(d);
    let body = s.out.skip(12);
    lemma_run_strict_append(body, lit_runs(s.lit), Seq::empty());
    lemma_lit_runs(s.lit, d.take(s.i - s.lit.len()));
    assert(d.take(s.i - s.lit.len()) + s.lit =~= d);
    lemma_out_append(s.out, lit_runs(s.lit));
    assert(out.take(12) == lz_header(d));
    assert(out[0] == out.take(12)[0]);
    assert(out[1] == out.take(12)[1]);
    assert(out[2] == out.take(12)[2]);
    assert(out[3] == out.take(12)[3]);
    assert(out =~= LZ_MAGIC@ + u64_le(d.len() as u64) + out.skip(12));
    lemma_u64_roundtrip(d.len() as u64, LZ_MAGIC@, out.skip(12));
    lemma_strict_run(out, 12, Seq::empty(), d.len());
}


/// Append `l` as literal runs to `o` and empty `l`.
pub fn flush(o: &mut Vec<u8>, l: &mut Vec<u8>)
    ensures
        final(o)@ == old(o)@ + lit_runs(old(l)@),
        final(l)@ == Seq::<u8>::empty(),
{
    let ghost o0 = o@;
    let n_all = l.len();
    let mut a: usize = 0;
    assert(l@.skip(0) =~= l@);
    while a < n_all
        invariant
            n_all == l@.len(),
            a <= n_all,
            o@ + lit_runs(l@.skip(a as int)) == o0 + lit_runs(l@),
        decreases n_all - a,
    {
        let n: usize = if n_all - a < RUN_MAX {
            n_all - a
        } else {
            RUN_MAX
        };
        let ghost rest = l@.skip(a as int);
        proof {
            assert(rest.take(n as int) =~= l@.subrange(a as int, (a + n) as int));
            assert(rest.skip(n as int) =~= l@.skip((a + n) as int));
        }
        let ghost before = o@;
        o.push(0);
        push_u16_le(o, n as u16);
        let end = a + n;
        let mut k: usize = a;
        while k < end
            invariant
                a <= k <= end,
                end == a + n,
                end <= l@.len(),
                o@ == before + seq![0u8] + u16_le(n as u16) + l@.subrange(a as int, k as int),
            decreases end - k,
        {
            o.push(l[k]);
            proof {
                assert(l@.subrange(a as int, k + 1) =~= l@.subrange(a as int, k as int).push(
                    l@[k as int],
                ));
            }
            k += 1;
        }
        proof {
            assert(o@ + lit_runs(l@.skip((a + n) as int)) =~= before + lit_runs(rest));
        }
        a += n;
    }
    proof {
        assert(l@.skip(n_all as int) =~= Seq::<u8>::empty());
        assert(o@ =~= o0 + lit_runs(l@));
    }
    l.clear();
}


/// The key of the three bytes at `i`.
fn key_at(d: &[u8], i: usize) -> (k: u32)
    requires
        i + 2 < d@.len(),
    ensures
        k == key3(d@, i as int),
{
    ((d[i] as u32) << 16u32) | ((d[i + 1] as u32) << 8u32) | (d[i + 2] as u32)
}

/// Compress `d`: the archive decompresses to `d`.
pub fn lz_c(d: &[u8]) -> (out: Vec<u8>)
    ensures
        out@ == lz_comp_spec(d@),
        lz_dec_spec(out@) == Ok::<Seq<u8>, LzError>(d@),
{
    let len = d.len();
    let mut o: Vec<u8> = Vec::new();
    crate::wire::append_bytes(&mut o, &LZ_MAGIC);
    push_u64_le(&mut o, len as u64);
    let mut last: HashMap<u32, usize> = HashMap::new();
    let mut lit: Vec<u8> = Vec::new();
    let mut i: usize = 0;
    proof {
        lemma_lz_roundtrip(d@);
        assert(o@ =~= lz_header(d@));
        assert(lit@ =~= Seq::<u8>::empty());
    }
    while i < len
        invariant
            len == d@.len(),
            i <= len,
            lz_steps(d@, LzState { i: i as nat, last: last@, lit: lit@, out: o@ }) == lz_steps(
                d@,
                lz_init(d@),
            ),
            forall|k: u32| #[trigger] last@.contains_key(k) ==> (last@[k] as int) < i,
        decreases len - i,
    {
        let ghost s = LzState { i: i as nat, last: last@, lit: lit@, out: o@ };
        let ghost last0 = last@;
        let mut best: usize = 0;
        let mut off: usize = 0;
        let has_key = len - i > 2;
        let mut kk: u32 = 0;
        if has_key {
            kk = key_at(d, i);
            match last.get(&kk) {
                Some(pr) => {
                    let p = *pr;
                    let o2 = i - p;
                    if o2 > 0 && o2 <= RUN_MAX {
                        let mx = if len - i < RUN_MAX {
                            len - i
                        } else {
                            RUN_MAX
                        };
                        while best < mx && d[p + best] == d[i + best]
                            invariant
                                best <= mx,
                                mx <= len - i,
                                p < i,
                                len == d@.len(),
                                match_run(d@, p as int, i as int, best as nat, mx as nat)
                                    == match_run(d@, p as int, i as int, 0, mx as nat),
                            decreases mx - best,
                        {
                            best += 1;
                        }
                        if best >= 4 {
                            off = o2;
                        }
                    }
                },
                None => {},
            }
        }
        proof {
            lemma_candidate(d@, last0, i as nat);
        }
        assert(candidate(d@, last0, i as nat) == (best as nat, off as nat));
        if best >= 4 {
            flush(&mut o, &mut lit);
            o.push(1);
            push_u16_le(&mut o, off as u16);
            push_u16_le(&mut o, best as u16);
            let end = i + best;
            let mut pos = i;
            while pos < end
                invariant
                    i <= pos <= end,
                    end <= len,
                    len == d@.len(),
                    insert_keys(d@, last@, pos as nat, end as nat) == insert_keys(
                        d@,
                        last0,
                        i as nat,
                        end as nat,
                    ),
                    forall|k: u32| #[trigger] last@.contains_key(k) ==> (last@[k] as int) < end,
                decreases end - pos,
            {
                let ghost lp = last@;
                if len - pos > 2 {
                    let k2 = key_at(d, pos);
                    last.insert(k2, pos);
                }
                assert(insert_keys(d@, lp, pos as nat, end as nat) == insert_keys(
                    d@,
                    last@,
                    (pos + 1) as nat,
                    end as nat,
                ));
                pos += 1;
            }
            proof {
                assert(o@ =~= s.out + lit_runs(s.lit) + match_tok(off as nat, best as nat));
            }
            i = end;
        } else {
            if has_key {
                last.insert(kk, i);
            }
            lit.push(d[i]);
            i += 1;
            if lit.len() == RUN_MAX {
                flush(&mut o, &mut lit);
            }
        }
        assert(LzState { i: i as nat, last: last@, lit: lit@, out: o@ } == lz_step(d@, s));
    }
    flush(&mut o, &mut lit);
    o
}


/// Decompress the archive `d`, or say why it is refused.
pub fn lz_d(d: &[u8]) -> (r: Result<Vec<u8>, LzError>)
    ensures
        match r {
            Ok(v) => lz_dec_spec(d@) == Ok::<Seq<u8>, LzError>(v@),
            Err(e) => lz_dec_spec(d@) == Err::<Seq<u8>, LzError>(e),
        },
{
    let len = d.len();
    if len < 12 || !(d[0] == LZ_MAGIC[0] && d[1] == LZ_MAGIC[1] && d[2] == LZ_MAGIC[2] && d[3]
        == LZ_MAGIC[3]) {
        return Err(LzError::Header);
    }
    let want = read_u64_le(d, 4) as usize;
    let mut a: usize = 12;
    let mut o: Vec<u8> = Vec::new();
    while a < len && o.len() < want
        invariant
            len == d@.len(),
            12 <= a <= len,
            lz_run(d@, a as int, o@, want as nat) == lz_dec_spec(d@),
        decreases len - a,
    {
        let t = d[a];
        a += 1;
        if t == 0 {
            if len - a < 2 {
                return Err(LzError::Literal);
            }
            let n = read_u16_le(d, a) as usize;
            a += 2;
            if len - a < n {
                return Err(LzError::LiteralOverflow);
            }
            let ghost o0 = o@;
            let end = a + n;
            let mut k = a;
            while k < end
                invariant
                    a <= k <= end,
                    end <= len,
                    len == d@.len(),
                    o@ == o0 + d@.subrange(a as int, k as int),
                decreases end - k,
            {
                o.push(d[k]);
                proof {
                    assert(d@.subrange(a as int, k + 1) =~= d@.subrange(a as int, k as int).push(
                        d@[k as int],
                    ));
                }
                k += 1;
            }
            a = end;
        } else if t == 1 {
            if len - a < 4 {
                return Err(LzError::Match);
            }
            let of = read_u16_le(d, a) as usize;
            let n = read_u16_le(d, a + 2) as usize;
            a += 4;
            if of == 0 || of > o.len() {
                return Err(LzError::MatchOffset);
            }
            let ghost o0 = o@;
            let mut k: usize = 0;
            while k < n
                invariant
                    k <= n,
                    1 <= of <= o@.len(),
                    copy_back(o@, of as nat, (n - k) as nat) == copy_back(o0, of as nat, n as nat),
                decreases n - k,
            {
                let b = o[o.len() - of];
                o.push(b);
                k += 1;
            }
        } else {
            return Err(LzError::Tag);
        }
    }
    if o.len() != want {
        return Err(LzError::Length);
    }
    Ok(o)
}

} // verus!
