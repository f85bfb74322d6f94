//! Seed-derived permutations: SHA-256 keyed orders of block indices and of
//! symbol alphabets (codebooks), and the eight reversible stream views
//! (A-views) they complete.
use vstd::prelude::*;
use crate::glyph::{
    all_fit, blkrev, blkrev_spec, copy_symbols, evo, evo_spec, g_n, g_n_spec, g_r,
    lemma_blkrev_involution, lemma_g_n_involution, lemma_rol_ror, lemma_uevo_evo, lemma_xu_xd,
    rol, rol_spec, ror, ror_spec, uevo, uevo_spec, xd, xd_spec, xu, xu_spec,
};
use crate::order::{
    covers, is_perm, key_order, key_views, lemma_is_key_order, lemma_key_order_perm, sort_indices,
};
use crate::sha::{sha256, spec_sha256};
use crate::glyph::lemma_pow2_shift;
use vstd::arithmetic::power2::pow2;
use crate::wire::{append_bytes, push_u64_le, u64_le};
use vstd::arithmetic::div_mod::lemma_fundamental_div_mod_converse;

verus! {

/// Key `i` of a seeded order: SHA-256(tag || seed || i as u64 LE).
pub open spec fn seeded_key(tag: Seq<u8>, seed: Seq<u8>, i: int) -> Seq<u8> {
    spec_sha256(tag + seed + u64_le(i as u64))
}

pub open spec fn seeded_keys_spec(tag: Seq<u8>, seed: Seq<u8>, n: nat) -> Seq<Seq<u8>> {
    Seq::new(n, |i: int| seeded_key(tag, seed, i))
}

/// The seeded order of `0..n`.
pub open spec fn seeded_order(tag: Seq<u8>, seed: Seq<u8>, n: nat) -> Seq<usize> {
    key_order(seeded_keys_spec(tag, seed, n))
}

/// The keys of `0..n`.
pub fn seeded_keys(tag: &[u8], seed: &[u8; 32], n: usize) -> (keys: Vec<[u8; 32]>)
    ensures
        key_views(keys@) == seeded_keys_spec(tag@, seed@, n as nat),
{
    let mut keys: Vec<[u8; 32]> = Vec::new();
    let mut i: usize = 0;
    while i < n
        invariant
            i <= n,
            keys@.len() == i,
            forall|j: int| 0 <= j < i ==> #[trigger] keys@[j]@ == seeded_key(tag@, seed@, j),
        decreases n - i,
    {
        let mut s: Vec<u8> = Vec::new();
        append_bytes(&mut s, tag);
        append_bytes(&mut s, seed);
        push_u64_le(&mut s, i as u64);
        let h = sha256(s.as_slice());
        keys.push(h);
        i += 1;
    }
    assert(key_views(keys@) =~= seeded_keys_spec(tag@, seed@, n as nat));
    keys
}

/// The order of `0..nb` by seeded key.
pub fn qpo(nb: usize, ss: &[u8; 32], tag: &[u8]) -> (o: Vec<usize>)
    ensures
        o@ == seeded_order(tag@, ss@, nb as nat),
        is_perm(o@, nb as nat),
{
    let keys = seeded_keys(tag, ss, nb);
    let o = sort_indices(&keys);
    proof {
        lemma_is_key_order(key_views(keys@), o@);
    }
    o
}

pub open spec fn qp_spec(d: Seq<u16>, o: Seq<usize>, bl: int) -> Seq<u16> {
    let n = (d.len() as int) / bl;
    Seq::new(
        d.len(),
        |i: int|
            if i < n * bl {
                d[o[i / bl] * bl + i % bl]
            } else {
                d[i]
            },
    )
}

/// The position of block `b` in `o`.
pub open spec fn pos_in(o: Seq<usize>, b: int) -> int {
    choose|p: int| 0 <= p < o.len() && o[p] as int == b
}

pub open spec fn uqp_spec(d: Seq<u16>, o: Seq<usize>, bl: int) -> Seq<u16> {
    let n = (d.len() as int) / bl;
    Seq::new(
        d.len(),
        |j: int|
            if j < n * bl {
                d[pos_in(o, j / bl) * bl + j % bl]
            } else {
                d[j]
            },
    )
}

proof fn lemma_block_pos(b: int, bl: int, t: int)
    requires
        bl > 0,
        b >= 0,
        0 <= t < bl,
    ensures
        (b * bl + t) / bl == b,
        (b * bl + t) % bl == t,
        b * bl + t >= 0,
{
    lemma_fundamental_div_mod_converse(b * bl + t, bl, b, t);
    assert(b * bl >= 0) by (nonlinear_arith)
        requires
            b >= 0,
            bl > 0,
    ;
}

proof fn lemma_block_bound(b: int, n: int, bl: int, t: int)
    requires
        bl > 0,
        0 <= b < n,
        0 <= t < bl,
    ensures
        b * bl + t < n * bl,
        0 <= b * bl + t,
{
    assert(b * bl + t < n * bl && 0 <= b * bl + t) by (nonlinear_arith)
        requires
            bl > 0,
            0 <= b < n,
            0 <= t < bl,
    ;
}

proof fn lemma_block_split(j: int, bl: int)
    requires
        bl > 0,
        j >= 0,
    ensures
        j == (j / bl) * bl + j % bl,
        0 <= j % bl < bl,
        j / bl >= 0,
{
    assert(j == (j / bl) * bl + j % bl && 0 <= j % bl < bl && j / bl >= 0) by (nonlinear_arith)
        requires
            bl > 0,
            j >= 0,
    ;
}

/// The 257-symbol blocks of `d` in seeded order, then the tail.
pub fn qp(d: &[u16], ss: &[u8; 32], tag: &[u8]) -> (r: Vec<u16>)
    ensures
        r@ == qp_spec(d@, seeded_order(tag@, ss@, (d@.len() / 257) as nat), 257),
        is_perm(seeded_order(tag@, ss@, (d@.len() / 257) as nat), (d@.len() / 257) as nat),
{
    let bl: usize = 257;
    let n = d.len() / bl;
    let o = qpo(n, ss, tag);
    let ghost spec = qp_spec(d@, o@, 257);
    let mut r: Vec<u16> = Vec::new();
    proof {
        lemma_block_split(d@.len() as int, 257);
    }
    let mut p: usize = 0;
    while p < n
        invariant
            p <= n,
            n == d@.len() / 257,
            n * 257 <= d@.len(),
            d@.len() <= usize::MAX,
            bl == 257,
            is_perm(o@, n as nat),
            spec == qp_spec(d@, o@, 257),
            r@ == spec.take(p * 257),
        decreases n - p,
    {
        let i = o[p];
        let mut t: usize = 0;
        proof {
            lemma_block_bound(i as int, n as int, 257, 256);
            lemma_block_bound(p as int, n as int, 257, 256);
        }
        while t < bl
            invariant
                p < n,
                n == d@.len() / 257,
                n * 257 <= d@.len(),
                bl == 257,
                i < n,
                i == o@[p as int],
                (i + 1) * 257 <= n * 257,
                (p + 1) * 257 <= n * 257,
                t <= 257,
                d@.len() <= usize::MAX,
                o@.len() == n,
                spec == qp_spec(d@, o@, 257),
                r@ == spec.take(p * 257 + t),
            decreases 257 - t,
        {
            assert(i * 257 + t < n * 257) by (nonlinear_arith)
                requires
                    (i + 1) * 257 <= n * 257,
                    t < 257,
            ;
            r.push(d[i * bl + t]);
            proof {
                lemma_block_pos(p as int, 257, t as int);
                assert(r@ =~= spec.take(p * 257 + t + 1));
            }
            t += 1;
        }
        p += 1;
    }
    let mut j: usize = n * bl;
    while j < d.len()
        invariant
            n * 257 <= j <= d@.len(),
            n == d@.len() / 257,
            spec == qp_spec(d@, o@, 257),
            r@ == spec.take(j as int),
        decreases d@.len() - j,
    {
        r.push(d[j]);
        proof {
            assert(r@ =~= spec.take(j + 1));
        }
        j += 1;
    }
    assert(spec.take(d@.len() as int) == spec);
    r
}

/// Put the blocks `qp` moved back where they came from.
pub fn uqp(d: &[u16], ss: &[u8; 32], tag: &[u8]) -> (r: Vec<u16>)
    ensures
        r@ == uqp_spec(d@, seeded_order(tag@, ss@, (d@.len() / 257) as nat), 257),
        is_perm(seeded_order(tag@, ss@, (d@.len() / 257) as nat), (d@.len() / 257) as nat),
{
    let bl: usize = 257;
    let n = d.len() / bl;
    let o = qpo(n, ss, tag);
    let mut r: Vec<u16> = vec![0u16; d.len()];
    proof {
        lemma_block_split(d@.len() as int, 257);
    }
    let mut p: usize = 0;
    while p < n
        invariant
            p <= n,
            n == d@.len() / 257,
            n * 257 <= d@.len(),
            d@.len() <= usize::MAX,
            r@.len() == d@.len(),
            bl == 257,
            is_perm(o@, n as nat),
            forall|q: int, t: int|
                0 <= q < p && 0 <= t < 257 ==> #[trigger] r@[o@[q] * 257 + t] == d@[q * 257 + t],
        decreases n - p,
    {
        let i = o[p];
        let mut t: usize = 0;
        proof {
            lemma_block_bound(i as int, n as int, 257, 256);
            lemma_block_bound(p as int, n as int, 257, 256);
        }
        while t < bl
            invariant
                p < n,
                n == d@.len() / 257,
                n * 257 <= d@.len(),
                r@.len() == d@.len(),
                bl == 257,
                i < n,
                i == o@[p as int],
                is_perm(o@, n as nat),
                (i + 1) * 257 <= n * 257,
                (p + 1) * 257 <= n * 257,
                t <= 257,
                d@.len() <= usize::MAX,
                forall|q: int, t2: int|
                    0 <= q < p && 0 <= t2 < 257 ==> #[trigger] r@[o@[q] * 257 + t2] == d@[q * 257
                        + t2],
                forall|t2: int| 0 <= t2 < t ==> #[trigger] r@[i * 257 + t2] == d@[p * 257 + t2],
            decreases 257 - t,
        {
            let ghost r0 = r@;
            assert(i * 257 + t < n * 257 && p * 257 + t < n * 257) by (nonlinear_arith)
                requires
                    (i + 1) * 257 <= n * 257,
                    (p + 1) * 257 <= n * 257,
                    t < 257,
            ;
            r.set(i * bl + t, d[p * bl + t]);
            proof {
                assert forall|q: int, t2: int|
                    0 <= q < p && 0 <= t2 < 257 implies #[trigger] r@[o@[q] * 257 + t2] == d@[q
                    * 257 + t2] by {
                    assert(o@[q] != o@[p as int]);
                    lemma_block_pos(o@[q] as int, 257, t2);
                    lemma_block_pos(i as int, 257, t as int);
                    assert(r0[o@[q] * 257 + t2] == d@[q * 257 + t2]);
                }
                assert forall|t2: int| 0 <= t2 < t + 1 implies #[trigger] r@[i * 257 + t2] == d@[p
                    * 257 + t2] by {
                    if t2 < t {
                        assert(r0[i * 257 + t2] == d@[p * 257 + t2]);
                    }
                }
            }
            t += 1;
        }
        p += 1;
    }
    let mut j: usize = n * bl;
    while j < d.len()
        invariant
            n * 257 <= j <= d@.len(),
            n == d@.len() / 257,
            r@.len() == d@.len(),
            is_perm(o@, n as nat),
            forall|q: int, t: int|
                0 <= q < n && 0 <= t < 257 ==> #[trigger] r@[o@[q] * 257 + t] == d@[q * 257 + t],
            forall|k: int| n * 257 <= k < j ==> #[trigger] r@[k] == d@[k],
        decreases d@.len() - j,
    {
        let ghost r0 = r@;
        r.set(j, d[j]);
        proof {
            assert forall|q: int, t: int|
                0 <= q < n && 0 <= t < 257 implies #[trigger] r@[o@[q] * 257 + t] == d@[q * 257
                + t] by {
                lemma_block_bound(o@[q] as int, n as int, 257, t);
                assert(r0[o@[q] * 257 + t] == d@[q * 257 + t]);
            }
        }
        j += 1;
    }
    proof {
        let spec = uqp_spec(d@, o@, 257);
        assert forall|k: int| 0 <= k < d@.len() implies #[trigger] r@[k] == spec[k] by {
            if k < n * 257 {
                lemma_block_split(k, 257);
                let b = k / 257;
                assert(b < n) by (nonlinear_arith)
                    requires
                        k < n * 257,
                        k == b * 257 + k % 257,
                        0 <= k % 257,
                ;
                assert(covers(o@, b));
                let q = pos_in(o@, b);
                assert(r@[o@[q] * 257 + k % 257] == d@[q * 257 + k % 257]);
            }
        }
        assert(r@ =~= spec);
    }
    r
}

/// Every position of the block-ordered stream reads a position of `d`.
pub proof fn lemma_qp_index(d: Seq<u16>, o: Seq<usize>, i: int)
    requires
        is_perm(o, (d.len() / 257) as nat),
        0 <= i < d.len(),
    ensures
        (i < (d.len() as int / 257) * 257) ==> 0 <= o[i / 257] * 257 + i % 257 < d.len(),
{
    let n = (d.len() as int) / 257;
    if i < n * 257 {
        lemma_block_split(i, 257);
        let b = i / 257;
        assert(b < n) by (nonlinear_arith)
            requires
                i < n * 257,
                i == b * 257 + i % 257,
                0 <= i % 257,
        ;
        lemma_block_bound(o[b] as int, n, 257, i % 257);
        lemma_block_split(d.len() as int, 257);
    }
}

/// A block order undone: the blocks go back where they came from.
pub proof fn lemma_uqp_qp(d: Seq<u16>, o: Seq<usize>)
    requires
        is_perm(o, (d.len() / 257) as nat),
    ensures
        uqp_spec(qp_spec(d, o, 257), o, 257) == d,
{
    let n = (d.len() as int) / 257;
    let q = qp_spec(d, o, 257);
    assert forall|j: int| 0 <= j < d.len() implies #[trigger] uqp_spec(q, o, 257)[j] == d[j] by {
        if j < n * 257 {
            lemma_block_split(j, 257);
            let b = j / 257;
            let t = j % 257;
            assert(b < n) by (nonlinear_arith)
                requires
                    j < n * 257,
                    j == b * 257 + t,
                    0 <= t,
            ;
            assert(covers(o, b));
            let p = pos_in(o, b);
            lemma_block_pos(p, 257, t);
            lemma_block_bound(p, n, 257, t);
            assert(q[p * 257 + t] == d[o[(p * 257 + t) / 257] * 257 + (p * 257 + t) % 257]);
        }
    }
    assert(uqp_spec(q, o, 257) =~= d);
}

// ---------------------------------------------------------------------------
// Codebooks.
// ---------------------------------------------------------------------------
/// A seeded codebook: `inverse` lists the alphabet `0..2^bits` in seeded
/// key order and `forward` gives each symbol's position in that list.
pub open spec fn codebook_ok(
    forward: Seq<u16>,
    inverse: Seq<u16>,
    tag: Seq<u8>,
    seed: Seq<u8>,
    n: nat,
) -> bool {
    let o = seeded_order(tag, seed, n);
    &&& is_perm(o, n)
    &&& forward.len() == n
    &&& inverse.len() == n
    &&& forall|p: int| 0 <= p < n ==> #[trigger] inverse[p] as int == o[p] as int
    &&& forall|p: int| 0 <= p < n ==> #[trigger] forward[o[p] as int] as int == p
}

/// Forward table of the seeded codebook of `n` symbols.
pub open spec fn codebook_fwd(tag: Seq<u8>, seed: Seq<u8>, n: nat) -> Seq<u16> {
    Seq::new(n, |v: int| pos_in(seeded_order(tag, seed, n), v) as u16)
}

/// Inverse table of the seeded codebook of `n` symbols.
pub open spec fn codebook_inv(tag: Seq<u8>, seed: Seq<u8>, n: nat) -> Seq<u16> {
    Seq::new(n, |p: int| seeded_order(tag, seed, n)[p] as u16)
}

pub proof fn lemma_codebook_tables(
    forward: Seq<u16>,
    inverse: Seq<u16>,
    tag: Seq<u8>,
    seed: Seq<u8>,
    n: nat,
)
    requires
        codebook_ok(forward, inverse, tag, seed, n),
        n <= 0x1_0000,
    ensures
        forward == codebook_fwd(tag, seed, n),
        inverse == codebook_inv(tag, seed, n),
{
    let o = seeded_order(tag, seed, n);
    assert forall|v: int| 0 <= v < n implies #[trigger] forward[v] == codebook_fwd(tag, seed, n)[v] by {
        assert(covers(o, v));
        let p = pos_in(o, v);
        assert(forward[o[p] as int] as int == p);
        assert(o[p] as int == v);
    }
    assert(forward =~= codebook_fwd(tag, seed, n));
    assert(inverse =~= codebook_inv(tag, seed, n));
}

pub fn seeded_codebook(tag: &[u8], seed: &[u8; 32], bits: u32) -> (r: (Vec<u16>, Vec<u16>))
    requires
        bits <= 16,
    ensures
        codebook_ok(r.0@, r.1@, tag@, seed@, pow2(bits as nat)),
        r.0@ == codebook_fwd(tag@, seed@, pow2(bits as nat)),
        r.1@ == codebook_inv(tag@, seed@, pow2(bits as nat)),
        pow2(bits as nat) == (1usize << bits) as nat,
{
    proof {
        lemma_pow2_nat_shift(bits);
    }
    let size = 1usize << bits;
    let keys = seeded_keys(tag, seed, size);
    let o = sort_indices(&keys);
    proof {
        lemma_is_key_order(key_views(keys@), o@);
    }
    let mut forward: Vec<u16> = vec![0u16; size];
    let mut p: usize = 0;
    while p < size
        invariant
            p <= size,
            size <= 0x1_0000,
            forward@.len() == size,
            is_perm(o@, size as nat),
            forall|q: int| 0 <= q < p ==> #[trigger] forward@[o@[q] as int] as int == q,
        decreases size - p,
    {
        let ghost f0 = forward@;
        forward.set(o[p], p as u16);
        proof {
            assert forall|q: int| 0 <= q < p + 1 implies #[trigger] forward@[o@[q] as int] as int
                == q by {
                if q < p {
                    assert(o@[q] != o@[p as int]);
                    assert(f0[o@[q] as int] as int == q);
                }
            }
        }
        p += 1;
    }
    let mut inverse: Vec<u16> = vec![0u16; size];
    let mut v: usize = 0;
    while v < size
        invariant
            v <= size,
            size <= 0x1_0000,
            forward@.len() == size,
            inverse@.len() == size,
            is_perm(o@, size as nat),
            forall|q: int| 0 <= q < size ==> #[trigger] forward@[o@[q] as int] as int == q,
            forall|q: int| 0 <= q < size && (o@[q] as int) < v ==> #[trigger] inverse@[q] as int
                == o@[q] as int,
        decreases size - v,
    {
        assert(covers(o@, v as int));
        let ghost q0 = pos_in(o@, v as int);
        let f = forward[v] as usize;
        let ghost i0 = inverse@;
        inverse.set(f, v as u16);
        proof {
            assert(f == q0);
            assert forall|q: int| 0 <= q < size && (o@[q] as int) < v + 1 implies #[trigger] inverse@[q]
                as int == o@[q] as int by {
                if q != q0 {
                    assert(o@[q] != o@[q0]);
                    assert(i0[q] as int == o@[q] as int);
                }
            }
        }
        v += 1;
    }
    proof {
        lemma_codebook_tables(forward@, inverse@, tag@, seed@, size as nat);
    }
    (forward, inverse)
}

/// A seeded order of `n` blocks lists every block once.
pub proof fn lemma_seeded_order_perm(tag: Seq<u8>, seed: Seq<u8>, n: nat)
    requires
        n <= usize::MAX,
    ensures
        is_perm(seeded_order(tag, seed, n), n),
{
    let keys = seeded_keys_spec(tag, seed, n);
    assert forall|i: int, j: int| 0 <= i < keys.len() && 0 <= j < keys.len() implies (
    #[trigger] keys[i]).len() == (#[trigger] keys[j]).len() by {
        assert(keys[i].len() == 32);
        assert(keys[j].len() == 32);
    }
    lemma_key_order_perm(keys);
}

/// The seeded tables of up to 2^16 symbols form a codebook.
pub proof fn lemma_codebook_spec_ok(tag: Seq<u8>, seed: Seq<u8>, n: nat)
    requires
        n <= 0x1_0000,
    ensures
        codebook_ok(codebook_fwd(tag, seed, n), codebook_inv(tag, seed, n), tag, seed, n),
{
    let o = seeded_order(tag, seed, n);
    lemma_seeded_order_perm(tag, seed, n);
    let f = codebook_fwd(tag, seed, n);
    let v = codebook_inv(tag, seed, n);
    assert forall|p: int| 0 <= p < n implies #[trigger] v[p] as int == o[p] as int by {
        assert((o[p] as int) < n);
    }
    assert forall|p: int| 0 <= p < n implies #[trigger] f[o[p] as int] as int == p by {
        let x = o[p] as int;
        assert(covers(o, x));
        let q = pos_in(o, x);
        assert(0 <= q < n && o[q] as int == x);
        if q != p {
            if q < p {
                assert(o[q] != o[p]);
            } else {
                assert(o[p] != o[q]);
            }
        }
    }
}

pub proof fn lemma_pow2_nat_shift(bits: u32)
    requires
        bits <= 16,
    ensures
        pow2(bits as nat) == (1usize << bits) as nat,
        (1usize << bits) <= 0x1_0000,
{
    lemma_pow2_shift(bits);
    assert(bits <= 16 ==> (1usize << bits) == (1u32 << bits) as usize && (1usize << bits) <= 0x1_0000)
        by (bit_vector);
}

/// A codebook's two tables undo each other.
pub proof fn lemma_codebook_inverse(
    forward: Seq<u16>,
    inverse: Seq<u16>,
    tag: Seq<u8>,
    seed: Seq<u8>,
    n: nat,
)
    requires
        codebook_ok(forward, inverse, tag, seed, n),
        n <= 0x1_0000,
    ensures
        forall|x: int| 0 <= x < n ==> (#[trigger] forward[x] as int) < n && inverse[forward[x] as int] as int == x,
        forall|x: int| 0 <= x < n ==> (#[trigger] inverse[x] as int) < n && forward[inverse[x] as int] as int == x,
{
    let o = seeded_order(tag, seed, n);
    assert forall|x: int| 0 <= x < n implies (#[trigger] forward[x] as int) < n && inverse[forward[x]
        as int] as int == x by {
        assert(covers(o, x));
        let p = pos_in(o, x);
        assert(forward[o[p] as int] as int == p);
    }
}

// ---------------------------------------------------------------------------
// The eight A-views.
// ---------------------------------------------------------------------------
/// Reverse the stream and rotate every symbol left.
pub open spec fn rev_rol_spec(d: Seq<u16>, bits: u32) -> Seq<u16> {
    Seq::new(d.len(), |i: int| rol_spec(d[d.len() - 1 - i], bits))
}

/// Rotate every symbol right and reverse the stream.
pub open spec fn ror_rev_spec(d: Seq<u16>, bits: u32) -> Seq<u16> {
    Seq::new(d.len(), |i: int| ror_spec(d[d.len() - 1 - i], bits))
}

/// A-view `ix`: identity, reverse, XOR delta, reverse+rotate, half swap,
/// 256-block reversal, even/odd split, seeded 257-block order.
pub open spec fn a_ap_spec(ix: usize, d: Seq<u16>, bits: u32, o: Seq<usize>) -> Seq<u16> {
    if ix == 0 {
        d
    } else if ix == 1 {
        d.reverse()
    } else if ix == 2 {
        xd_spec(d)
    } else if ix == 3 {
        rev_rol_spec(d, bits)
    } else if ix == 4 {
        g_n_spec(d, bits)
    } else if ix == 5 {
        blkrev_spec(d, 256)
    } else if ix == 6 {
        evo_spec(d)
    } else {
        qp_spec(d, o, 257)
    }
}

/// The inverse of A-view `ix`.
pub open spec fn a_in_spec(ix: usize, d: Seq<u16>, bits: u32, o: Seq<usize>) -> Seq<u16> {
    if ix == 0 {
        d
    } else if ix == 1 {
        d.reverse()
    } else if ix == 2 {
        xu_spec(d)
    } else if ix == 3 {
        ror_rev_spec(d, bits)
    } else if ix == 4 {
        g_n_spec(d, bits)
    } else if ix == 5 {
        blkrev_spec(d, 256)
    } else if ix == 6 {
        uevo_spec(d)
    } else {
        uqp_spec(d, o, 257)
    }
}

fn rev_map_rol(d: &[u16], bits: u32) -> (o: Vec<u16>)
    requires
        1 <= bits < 16,
    ensures
        o@ == rev_rol_spec(d@, bits),
{
    let mut o: Vec<u16> = Vec::new();
    let mut k: usize = d.len();
    while k > 0
        invariant
            k <= d.len(),
            1 <= bits < 16,
            o@ == rev_rol_spec(d@, bits).take((d.len() - k) as int),
        decreases k,
    {
        k -= 1;
        o.push(rol(d[k], bits));
        proof {
            assert(o@ =~= rev_rol_spec(d@, bits).take((d.len() - k) as int));
        }
    }
    assert(rev_rol_spec(d@, bits).take(d.len() as int) == rev_rol_spec(d@, bits));
    o
}

fn map_ror_rev(d: &[u16], bits: u32) -> (o: Vec<u16>)
    requires
        1 <= bits < 16,
    ensures
        o@ == ror_rev_spec(d@, bits),
{
    let mut o: Vec<u16> = Vec::new();
    let mut k: usize = d.len();
    while k > 0
        invariant
            k <= d.len(),
            1 <= bits < 16,
            o@ == ror_rev_spec(d@, bits).take((d.len() - k) as int),
        decreases k,
    {
        k -= 1;
        o.push(ror(d[k], bits));
        proof {
            assert(o@ =~= ror_rev_spec(d@, bits).take((d.len() - k) as int));
        }
    }
    assert(ror_rev_spec(d@, bits).take(d.len() as int) == ror_rev_spec(d@, bits));
    o
}

/// Apply A-view `ix` (blocks ordered by `ss` under `tag`).
pub fn a_ap(ix: usize, d: &[u16], bits: u32, ss: &[u8; 32], tag: &[u8]) -> (r: Vec<u16>)
    requires
        ix < 8,
        1 <= bits < 16,
    ensures
        r@ == a_ap_spec(ix, d@, bits, seeded_order(tag@, ss@, (d@.len() / 257) as nat)),
        ix == 7 ==> is_perm(seeded_order(tag@, ss@, (d@.len() / 257) as nat), (d@.len() / 257) as nat),
{
    let r = if ix == 0 {
        copy_symbols(d)
    } else if ix == 1 {
        g_r(d)
    } else if ix == 2 {
        xd(d)
    } else if ix == 3 {
        rev_map_rol(d, bits)
    } else if ix == 4 {
        g_n(d, bits)
    } else if ix == 5 {
        blkrev(d, 256)
    } else if ix == 6 {
        evo(d)
    } else {
        qp(d, ss, tag)
    };
    r
}

/// Undo A-view `ix`.
pub fn a_in(ix: usize, d: &[u16], bits: u32, ss: &[u8; 32], tag: &[u8]) -> (r: Vec<u16>)
    requires
        ix < 8,
        1 <= bits < 16,
    ensures
        r@ == a_in_spec(ix, d@, bits, seeded_order(tag@, ss@, (d@.len() / 257) as nat)),
        ix == 7 ==> is_perm(seeded_order(tag@, ss@, (d@.len() / 257) as nat), (d@.len() / 257) as nat),
{
    let r = if ix == 0 {
        copy_symbols(d)
    } else if ix == 1 {
        g_r(d)
    } else if ix == 2 {
        xu(d)
    } else if ix == 3 {
        map_ror_rev(d, bits)
    } else if ix == 4 {
        g_n(d, bits)
    } else if ix == 5 {
        blkrev(d, 256)
    } else if ix == 6 {
        uevo(d)
    } else {
        uqp(d, ss, tag)
    };
    r
}

/// Every A-view is undone by its inverse.
pub proof fn lemma_a_roundtrip(ix: usize, d: Seq<u16>, bits: u32, o: Seq<usize>)
    requires
        ix < 8,
        1 <= bits < 16,
        all_fit(d, bits),
        ix == 4 ==> bits % 2 == 0,
        ix == 7 ==> is_perm(o, (d.len() / 257) as nat),
    ensures
        a_in_spec(ix, a_ap_spec(ix, d, bits, o), bits, o) == d,
{
    if ix == 1 {
        assert(d.reverse().reverse() =~= d);
    } else if ix == 2 {
        lemma_xu_xd(d);
    } else if ix == 3 {
        let a = rev_rol_spec(d, bits);
        assert forall|i: int| 0 <= i < d.len() implies #[trigger] ror_rev_spec(a, bits)[i] == d[i] by {
            let j = d.len() - 1 - i;
            assert(a[j] == rol_spec(d[i], bits));
            lemma_rol_ror(d[i], bits);
        }
        assert(ror_rev_spec(a, bits) =~= d);
    } else if ix == 4 {
        lemma_g_n_involution(d, bits);
    } else if ix == 5 {
        lemma_blkrev_involution(d, 256);
    } else if ix == 6 {
        lemma_uevo_evo(d);
    } else if ix == 7 {
        lemma_uqp_qp(d, o);
    }
}

/// Every A-view keeps symbols within their width.
pub proof fn lemma_a_ap_fits(ix: usize, d: Seq<u16>, bits: u32, o: Seq<usize>)
    requires
        ix < 8,
        1 <= bits < 16,
        bits % 2 == 0,
        all_fit(d, bits),
        ix == 7 ==> is_perm(o, (d.len() / 257) as nat),
    ensures
        all_fit(a_ap_spec(ix, d, bits, o), bits),
        a_ap_spec(ix, d, bits, o).len() == d.len(),
{
    let r = a_ap_spec(ix, d, bits, o);
    crate::glyph::lemma_pow2_shift(bits);
    assert forall|i: int| 0 <= i < r.len() implies crate::glyph::fits(#[trigger] r[i], bits) by {
        if ix == 1 {
            assert(r[i] == d[d.len() - 1 - i]);
        } else if ix == 2 {
            if i > 0 {
                let a = d[i];
                let b = d[i - 1];
                crate::glyph::lemma_fits_shift(a, bits);
                crate::glyph::lemma_fits_shift(b, bits);
                crate::bitfacts::lemma_xor_fits(a, b, bits);
            }
        } else if ix == 3 {
            let g = d[d.len() - 1 - i];
            assert(1 <= bits && bits < 16 ==> (crate::glyph::rol_spec(g, bits) as u32) < (1u32
                << bits)) by (bit_vector);
        } else if ix == 4 {
            crate::glyph::lemma_half_swap_fits(d[i], bits);
        } else if ix == 5 {
            crate::glyph::lemma_blkrev_src_pub(d.len() as int, 256, i);
        } else if ix == 6 {
            let e = (d.len() + 1) / 2;
            if i >= e {
                assert(2 * (i - e) + 1 < d.len());
            }
        } else if ix == 7 {
            crate::prism::lemma_qp_index(d, o, i);
        }
    }
}

} // verus!
