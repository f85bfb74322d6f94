//! Directional expansion: forty context features ("directions") hashed from
//! the causal window of the last eight bytes — eight A-view projections,
//! twelve skip sectors and twenty multi-width lenses — each an extra input
//! of an order-0..4 logistic mixer.  The coded stream is the raw bytes.
use vstd::prelude::*;
use crate::sha::{hex_ascii, hex_bytes, sha256, spec_sha256};
use crate::wire::{le_u32_at, read_u32_le, u32_le, push_u32_le, append_bytes};
use crate::fold::{leaf_views, sorted_leaves};
use crate::bitmodel::{
    code_data, data_stream, dec_data, decode_bytes, encode_bytes, lemma_stream_roundtrip, train_bytes, BitModel,
};
use crate::coder::{dec_init, Decoder, Encoder};
use crate::dirmix::DirMode;
use crate::logistic::{adapt, adapt_counter, build_stretch, hidx, lemma_adapt_bound, lemma_squash_range, lemma_stretch_range, spec_hidx, squash, stretch_of};
use crate::mix::{
    counter_step, counters_ok, dot_upto, inputs_ok, lemma_dot_bound, lemma_weight_step, mix_prob,
    stretch_ok, weight_step, weights_after, weights_ok, MC, O0SIZE, O1SIZE, HSIZE, RATE, WCLAMP, LR_SHIFT,
};
use crate::wire::{le_u64_at, le_u16_at, lemma_u64_roundtrip, lemma_u16_roundtrip, push_u64_le, push_u16_le, read_u64_le, read_u16_le, slice_range, u64_le, u16_le};

verus! {

/// Bytes of causal history the directions read.
pub const WLEN: usize = 8;

/// Directions.
pub const NDIR: usize = 40;

/// "ASOLARIA-OMEGA-EXPAND-V2|8467a937cba309f7"
pub const EXPAND_ROOT_LABEL: [u8; 41] = [
    0x41, 0x53, 0x4f, 0x4c, 0x41, 0x52, 0x49, 0x41, 0x2d, 0x4f, 0x4d, 0x45, 0x47, 0x41, 0x2d, 0x45,
    0x58, 0x50, 0x41, 0x4e, 0x44, 0x2d, 0x56, 0x32, 0x7c, 0x38, 0x34, 0x36, 0x37, 0x61, 0x39, 0x33,
    0x37, 0x63, 0x62, 0x61, 0x33, 0x30, 0x39, 0x66, 0x37,
];

/// "OMEGA-EXPAND-FLOOR|"
pub const FLOOR_TAG: [u8; 19] = [
    0x4f, 0x4d, 0x45, 0x47, 0x41, 0x2d, 0x45, 0x58, 0x50, 0x41, 0x4e, 0x44, 0x2d, 0x46, 0x4c, 0x4f,
    0x4f, 0x52, 0x7c,
];

/// "OMEGA-EXPAND-UNIFIED\0"
pub const UNIFIED_TAG: [u8; 21] = [
    0x4f, 0x4d, 0x45, 0x47, 0x41, 0x2d, 0x45, 0x58, 0x50, 0x41, 0x4e, 0x44, 0x2d, 0x55, 0x4e, 0x49,
    0x46, 0x49, 0x45, 0x44, 0x00,
];

// ---------------------------------------------------------------------------
// Root and seeds.
// ---------------------------------------------------------------------------
pub open spec fn root_spec() -> Seq<u8> {
    spec_sha256(EXPAND_ROOT_LABEL@)
}

/// The root of the expansion codec.
pub fn root_hash() -> (r: [u8; 32])
    ensures
        r@ == root_spec(),
{
    sha256(&EXPAND_ROOT_LABEL)
}

/// The root hashed `i` more times.
pub open spec fn seed_block(i: nat) -> Seq<u8>
    decreases i,
{
    if i == 0 {
        root_spec()
    } else {
        spec_sha256(seed_block((i - 1) as nat))
    }
}

/// The 64 direction seeds: eight little-endian words from each of eight
/// successive hashes of the root.
pub open spec fn seeds_spec() -> Seq<u32> {
    Seq::new(64, |k: int| le_u32_at(seed_block((k / 8) as nat), 4 * (k % 8)))
}

pub fn root_seeds() -> (seeds: Vec<u32>)
    ensures
        seeds@ == seeds_spec(),
{
    let mut seeds: Vec<u32> = Vec::new();
    let mut cur = root_hash();
    let mut b: usize = 0;
    while b < 8
        invariant
            b <= 8,
            cur@ == seed_block(b as nat),
            seeds@ == seeds_spec().take(8 * b as int),
        decreases 8 - b,
    {
        let mut i: usize = 0;
        while i < 8
            invariant
                i <= 8,
                b < 8,
                cur@ == seed_block(b as nat),
                cur@.len() == 32,
                seeds@ == seeds_spec().take(8 * b + i),
            decreases 8 - i,
        {
            seeds.push(read_u32_le(&cur, 4 * i));
            proof {
                assert(seeds_spec()[8 * b + i] == le_u32_at(seed_block(b as nat), 4 * (i as int))) by {
                    assert((8 * b + i) / 8 == b);
                    assert((8 * b + i) % 8 == i);
                }
                assert(seeds@ =~= seeds_spec().take(8 * b + i + 1));
            }
            i += 1;
        }
        cur = sha256(&cur);
        b += 1;
    }
    assert(seeds_spec().take(64) =~= seeds_spec());
    seeds
}

// ---------------------------------------------------------------------------
// Hashing and permutations.
// ---------------------------------------------------------------------------
/// The running hash after the first `k` values.
pub open spec fn mix_upto(seed: u32, vals: Seq<u32>, k: int) -> u32
    decreases k,
{
    if k <= 0 {
        seed ^ 0x811C_9DC5u32
    } else {
        let h = mix_upto(seed, vals, k - 1) ^ vals[k - 1].wrapping_add(0x9E37_79B1u32);
        let h2 = h.wrapping_mul(0x2545_F491u32);
        h2 ^ (h2 >> 15u32)
    }
}

pub open spec fn mixhash_spec(seed: u32, vals: Seq<u32>) -> u32 {
    mix_upto(seed, vals, vals.len() as int).wrapping_mul(0x85EB_CA77u32)
}

/// Hash of a list of values under `seed`.
pub fn mixhash(seed: u32, vals: &[u32]) -> (h: u32)
    ensures
        h == mixhash_spec(seed, vals@),
{
    let mut h = seed ^ 0x811C_9DC5;
    let mut k: usize = 0;
    while k < vals.len()
        invariant
            k <= vals@.len(),
            h == mix_upto(seed, vals@, k as int),
        decreases vals@.len() - k,
    {
        h ^= vals[k].wrapping_add(0x9E37_79B1);
        h = h.wrapping_mul(0x2545_F491);
        h ^= h >> 15;
        k += 1;
    }
    h.wrapping_mul(0x85EB_CA77)
}

pub open spec fn lcg32(s: u32) -> u32 {
    s.wrapping_mul(1664525u32).wrapping_add(1013904223u32)
}

pub open spec fn swap_at(p: Seq<usize>, a: int, b: int) -> Seq<usize> {
    p.update(a, p[b]).update(b, p[a])
}

/// The shuffle of `p` from position `i` down to 1, with generator state `s`.
pub open spec fn shuffle_down(p: Seq<usize>, s: u32, i: int) -> Seq<usize>
    decreases i,
{
    if i <= 0 {
        p
    } else {
        let s2 = lcg32(s);
        let j = ((s2 >> 8u32) as usize % ((i + 1) as usize)) as int;
        shuffle_down(swap_at(p, i, j), s2, i - 1)
    }
}

/// The seeded permutation of `0..n`.
pub open spec fn perm_spec(n: nat, seed: u32) -> Seq<usize> {
    shuffle_down(Seq::new(n, |k: int| k as usize), seed | 1u32, n - 1)
}

proof fn lemma_shuffle_range(p: Seq<usize>, s: u32, i: int, n: nat)
    requires
        n <= usize::MAX,
        p.len() == n,
        i < n,
        forall|k: int| 0 <= k < n ==> #[trigger] p[k] < n,
    ensures
        shuffle_down(p, s, i).len() == n,
        forall|k: int| 0 <= k < n ==> #[trigger] shuffle_down(p, s, i)[k] < n,
    decreases i,
{
    if i > 0 {
        let s2 = lcg32(s);
        let j = ((s2 >> 8u32) as usize % ((i + 1) as usize)) as int;
        lemma_shuffle_range(swap_at(p, i, j), s2, i - 1, n);
    }
}

pub proof fn lemma_perm_range(n: nat, seed: u32)
    requires
        n <= usize::MAX,
    ensures
        perm_spec(n, seed).len() == n,
        forall|k: int| 0 <= k < n ==> #[trigger] perm_spec(n, seed)[k] < n,
{
    lemma_shuffle_range(Seq::new(n, |k: int| k as usize), seed | 1u32, n - 1, n);
}

/// Swapping two entries keeps a permutation a permutation.
proof fn lemma_swap_perm(p: Seq<usize>, n: nat, a: int, b: int)
    requires
        crate::order::is_perm(p, n),
        0 <= a < n,
        0 <= b < n,
    ensures
        crate::order::is_perm(swap_at(p, a, b), n),
{
    let q = swap_at(p, a, b);
    assert forall|x: int| 0 <= x < n implies q[x] == p[if x == b {
        a
    } else if x == a {
        b
    } else {
        x
    }] by {}
    assert forall|x: int, y: int| 0 <= x < y < n implies #[trigger] q[x] != #[trigger] q[y] by {
        let fx = if x == b {
            a
        } else if x == a {
            b
        } else {
            x
        };
        let fy = if y == b {
            a
        } else if y == a {
            b
        } else {
            y
        };
        if fx < fy {
            assert(p[fx] != p[fy]);
        } else if fy < fx {
            assert(p[fy] != p[fx]);
        }
    }
    assert forall|v: int| 0 <= v < n implies #[trigger] crate::order::covers(q, v) by {
        assert(crate::order::covers(p, v));
        let w = choose|w: int| 0 <= w < p.len() && p[w] as int == v;
        let w2 = if w == a {
            b
        } else if w == b {
            a
        } else {
            w
        };
        assert(q[w2] as int == v);
    }
}

proof fn lemma_shuffle_perm(p: Seq<usize>, s: u32, i: int, n: nat)
    requires
        crate::order::is_perm(p, n),
        i < n,
        n <= usize::MAX,
    ensures
        crate::order::is_perm(shuffle_down(p, s, i), n),
    decreases i,
{
    if i > 0 {
        let s2 = lcg32(s);
        let j = ((s2 >> 8u32) as usize % ((i + 1) as usize)) as int;
        assert(0 <= j < i + 1);
        lemma_swap_perm(p, n, i, j);
        lemma_shuffle_perm(swap_at(p, i, j), s2, i - 1, n);
    }
}

/// The seeded order is a true permutation of `0..n`: every value below `n`
/// exactly once.
pub proof fn lemma_perm_is_perm(n: nat, seed: u32)
    requires
        n <= usize::MAX,
    ensures
        crate::order::is_perm(perm_spec(n, seed), n),
{
    let id = Seq::new(n, |k: int| k as usize);
    assert forall|v: int| 0 <= v < n implies #[trigger] crate::order::covers(id, v) by {
        assert(id[v] as int == v);
    }
    lemma_shuffle_perm(id, seed | 1u32, n - 1, n);
}

/// The seeded permutation of `0..n` (a Fisher-Yates shuffle).
pub fn perm_of(n: usize, seed: u32) -> (p: Vec<usize>)
    ensures
        p@ == perm_spec(n as nat, seed),
{
    let mut p: Vec<usize> = Vec::new();
    let mut k: usize = 0;
    while k < n
        invariant
            k <= n,
            p@ == Seq::new(k as nat, |t: int| t as usize),
        decreases n - k,
    {
        p.push(k);
        proof {
            assert(p@ =~= Seq::new((k + 1) as nat, |t: int| t as usize));
        }
        k += 1;
    }
    let mut s = seed | 1;
    if n == 0 {
        return p;
    }
    let mut i: usize = n - 1;
    while i > 0
        invariant
            i < n,
            p@.len() == n,
            shuffle_down(p@, s, i as int) == perm_spec(n as nat, seed),
        decreases i,
    {
        s = s.wrapping_mul(1664525).wrapping_add(1013904223);
        let j = ((s >> 8) as usize) % (i + 1);
        let a = p[i];
        let b = p[j];
        p.set(i, b);
        p.set(j, a);
        i -= 1;
    }
    p
}

// ---------------------------------------------------------------------------
// Byte views.
// ---------------------------------------------------------------------------
/// Bits `0..i` of `b` mirrored into bits `7..7-i`.
pub open spec fn revbyte_upto(b: u8, i: u32) -> u8
    decreases i,
{
    if i == 0 {
        0
    } else {
        let r = revbyte_upto(b, (i - 1) as u32);
        if b & (1u8 << ((i - 1) as u8)) != 0 {
            r | (1u8 << ((7 - (i - 1)) as u8))
        } else {
            r
        }
    }
}

pub open spec fn revbyte_spec(b: u8) -> u8 {
    revbyte_upto(b, 8)
}

/// `b` with its bit order reversed.
pub fn revbyte(b: u8) -> (r: u8)
    ensures
        r == revbyte_spec(b),
{
    let mut r: u8 = 0;
    let mut i: u32 = 0;
    while i < 8
        invariant
            i <= 8,
            r == revbyte_upto(b, i),
        decreases 8 - i,
    {
        if b & (1u8 << (i as u8)) != 0 {
            r = r | (1u8 << ((7 - i) as u8));
        }
        i += 1;
    }
    r
}

pub open spec fn rol8_spec(b: u8) -> u8 {
    (b << 1u8) | (b >> 7u8)
}

/// `b` rotated left by one.
pub fn rol8(b: u8) -> (r: u8)
    ensures
        r == rol8_spec(b),
{
    (b << 1) | (b >> 7)
}

pub open spec fn swapnib_spec(b: u8) -> u8 {
    (b << 4u8) | (b >> 4u8)
}

/// `b` with its nibbles swapped.
pub fn swapnib(b: u8) -> (r: u8)
    ensures
        r == swapnib_spec(b),
{
    (b << 4) | (b >> 4)
}

// ---------------------------------------------------------------------------
// Lenses.
// ---------------------------------------------------------------------------
/// The first `k` window bytes, most recent first, as one big-endian number.
pub open spec fn window_bits(win: Seq<u8>, k: int) -> u64
    decreases k,
{
    if k <= 0 {
        0
    } else {
        (window_bits(win, k - 1) << 8u64) | (win[k - 1] as u64)
    }
}

/// The first `nb` window bytes cut into `b`-bit groups, first group first.
pub open spec fn lens_spec(win: Seq<u8>, nb: usize, b: u32) -> Seq<u32> {
    let bits = window_bits(win, nb as int);
    let totbits = (nb * 8) as u32;
    let groups = totbits / b;
    let mask = ((1u64 << b) - 1) as u64;
    Seq::new(groups as nat, |g: int| ((bits >> ((totbits - (g + 1) * b) as u64)) & mask) as u32)
}

pub fn lens_vals(win: &[u8; 8], nb: usize, b: u32) -> (out: Vec<u32>)
    requires
        1 <= nb <= 8,
        1 <= b <= 32,
    ensures
        out@ == lens_spec(win@, nb, b),
{
    let mut bits: u64 = 0;
    let mut k: usize = 0;
    while k < nb
        invariant
            k <= nb <= 8,
            bits == window_bits(win@, k as int),
        decreases nb - k,
    {
        bits = (bits << 8) | (win[k] as u64);
        k += 1;
    }
    let totbits = (nb * 8) as u32;
    let groups = totbits / b;
    proof {
        crate::bitfacts::lemma_one_shl(b);
    }
    let mask = (1u64 << b) - 1;
    let mut out: Vec<u32> = Vec::new();
    let mut g: u32 = 0;
    while g < groups
        invariant
            g <= groups,
            groups == totbits / b,
            totbits == (nb * 8) as u32,
            1 <= b <= 32,
            nb <= 8,
            bits == window_bits(win@, nb as int),
            mask == ((1u64 << b) - 1) as u64,
            out@ == lens_spec(win@, nb, b).take(g as int),
        decreases groups - g,
    {
        assert((g + 1) * b <= totbits && (g + 1) * b >= b) by (nonlinear_arith)
            requires
                g < groups,
                groups == totbits / b,
                b >= 1,
        ;
        let shift = totbits - (g + 1) * b;
        assert(shift < 64);
        out.push(((bits >> (shift as u64)) & mask) as u32);
        proof {
            assert(out@ =~= lens_spec(win@, nb, b).take(g + 1));
        }
        g += 1;
    }
    assert(out@ =~= lens_spec(win@, nb, b));
    out
}


// ---------------------------------------------------------------------------
// The forty directions.
// ---------------------------------------------------------------------------
/// Offsets (1 = most recent byte) of the twelve skip sectors.
pub open spec fn sector_spec(j: int) -> Seq<usize> {
    if j == 0 {
        seq![1usize, 2]
    } else if j == 1 {
        seq![1usize, 3]
    } else if j == 2 {
        seq![1usize, 4]
    } else if j == 3 {
        seq![2usize, 3]
    } else if j == 4 {
        seq![2usize, 4]
    } else if j == 5 {
        seq![3usize, 4]
    } else if j == 6 {
        seq![1usize, 5]
    } else if j == 7 {
        seq![1usize, 6]
    } else if j == 8 {
        seq![2usize, 5]
    } else if j == 9 {
        seq![1usize, 2, 3]
    } else if j == 10 {
        seq![1usize, 2, 4]
    } else {
        seq![2usize, 4, 6]
    }
}

pub fn sector(j: usize) -> (s: Vec<usize>)
    ensures
        s@ == sector_spec(j as int),
{
    let s: Vec<usize> = if j == 0 {
        vec![1, 2]
    } else if j == 1 {
        vec![1, 3]
    } else if j == 2 {
        vec![1, 4]
    } else if j == 3 {
        vec![2, 3]
    } else if j == 4 {
        vec![2, 4]
    } else if j == 5 {
        vec![3, 4]
    } else if j == 6 {
        vec![1, 5]
    } else if j == 7 {
        vec![1, 6]
    } else if j == 8 {
        vec![2, 5]
    } else if j == 9 {
        vec![1, 2, 3]
    } else if j == 10 {
        vec![1, 2, 4]
    } else {
        vec![2, 4, 6]
    };
    assert(s@ =~= sector_spec(j as int));
    s
}

/// Lens widths (bits per group) and window byte counts.
pub open spec fn lens_bits_spec(bi: int) -> u32 {
    if bi == 0 {
        6
    } else if bi == 1 {
        8
    } else if bi == 2 {
        10
    } else {
        12
    }
}

pub open spec fn lens_nb_spec(ni: int) -> usize {
    if ni == 0 {
        2
    } else if ni == 1 {
        3
    } else if ni == 2 {
        4
    } else if ni == 3 {
        6
    } else {
        8
    }
}

/// The window values direction `i` hashes.
pub open spec fn dir_vals(win: Seq<u8>, perm8: Seq<usize>, i: int) -> Seq<u32> {
    if i == 0 {
        Seq::new(6, |k: int| win[k] as u32)
    } else if i == 1 {
        Seq::new(5, |k: int| revbyte_spec(win[k]) as u32)
    } else if i == 2 {
        Seq::new(5, |k: int| (win[k] ^ win[k + 1]) as u32)
    } else if i == 3 {
        Seq::new(5, |k: int| rol8_spec(win[k]) as u32)
    } else if i == 4 {
        Seq::new(5, |k: int| swapnib_spec(win[k]) as u32)
    } else if i == 5 {
        Seq::new(8, |k: int| win[7 - k] as u32)
    } else if i == 6 {
        Seq::new(4, |k: int| win[2 * k] as u32)
    } else if i == 7 {
        Seq::new(8, |k: int| win[perm8[k] as int] as u32)
    } else if i < 20 {
        let set = sector_spec(i - 8);
        Seq::new(set.len(), |k: int| win[set[k] - 1] as u32)
    } else {
        lens_spec(win, lens_nb_spec((i - 20) % 5), lens_bits_spec((i - 20) / 5))
    }
}

pub open spec fn dir_hashes_spec(win: Seq<u8>, seeds: Seq<u32>, perm8: Seq<usize>) -> Seq<u32> {
    Seq::new(NDIR as nat, |i: int| mixhash_spec(seeds[i], dir_vals(win, perm8, i)))
}

/// The values direction `i` hashes, from the window `win`.
fn dir_values(win: &[u8; 8], perm8: &Vec<usize>, i: usize) -> (v: Vec<u32>)
    requires
        i < NDIR,
        perm8@.len() == 8,
        forall|k: int| 0 <= k < 8 ==> #[trigger] perm8@[k] < 8,
    ensures
        v@ == dir_vals(win@, perm8@, i as int),
{
    let mut v: Vec<u32> = Vec::new();
    if i == 0 {
        let mut k: usize = 0;
        while k < 6
            invariant
                k <= 6,
                v@ =~= Seq::new(k as nat, |t: int| win@[t] as u32),
            decreases 6 - k,
        {
            v.push(win[k] as u32);
            k += 1;
        }
    } else if i == 1 {
        let mut k: usize = 0;
        while k < 5
            invariant
                k <= 5,
                v@ =~= Seq::new(k as nat, |t: int| revbyte_spec(win@[t]) as u32),
            decreases 5 - k,
        {
            v.push(revbyte(win[k]) as u32);
            k += 1;
        }
    } else if i == 2 {
        let mut k: usize = 0;
        while k < 5
            invariant
                k <= 5,
                v@ =~= Seq::new(k as nat, |t: int| (win@[t] ^ win@[t + 1]) as u32),
            decreases 5 - k,
        {
            v.push((win[k] ^ win[k + 1]) as u32);
            k += 1;
        }
    } else if i == 3 {
        let mut k: usize = 0;
        while k < 5
            invariant
                k <= 5,
                v@ =~= Seq::new(k as nat, |t: int| rol8_spec(win@[t]) as u32),
            decreases 5 - k,
        {
            v.push(rol8(win[k]) as u32);
            k += 1;
        }
    } else if i == 4 {
        let mut k: usize = 0;
        while k < 5
            invariant
                k <= 5,
                v@ =~= Seq::new(k as nat, |t: int| swapnib_spec(win@[t]) as u32),
            decreases 5 - k,
        {
            v.push(swapnib(win[k]) as u32);
            k += 1;
        }
    } else if i == 5 {
        let mut k: usize = 0;
        while k < 8
            invariant
                k <= 8,
                v@ =~= Seq::new(k as nat, |t: int| win@[7 - t] as u32),
            decreases 8 - k,
        {
            v.push(win[7 - k] as u32);
            k += 1;
        }
    } else if i == 6 {
        let mut k: usize = 0;
        while k < 4
            invariant
                k <= 4,
                v@ =~= Seq::new(k as nat, |t: int| win@[2 * t] as u32),
            decreases 4 - k,
        {
            v.push(win[2 * k] as u32);
            k += 1;
        }
    } else if i == 7 {
        let mut k: usize = 0;
        while k < 8
            invariant
                k <= 8,
                perm8@.len() == 8,
                forall|q: int| 0 <= q < 8 ==> #[trigger] perm8@[q] < 8,
                v@ =~= Seq::new(k as nat, |t: int| win@[perm8@[t] as int] as u32),
            decreases 8 - k,
        {
            v.push(win[perm8[k]] as u32);
            k += 1;
        }
    } else if i < 20 {
        let set = sector(i - 8);
        let mut k: usize = 0;
        while k < set.len()
            invariant
                k <= set@.len(),
                8 <= i < 20,
                set@ == sector_spec(i - 8),
                forall|q: int| 0 <= q < set@.len() ==> 1 <= #[trigger] set@[q] <= 8,
                v@ =~= Seq::new(k as nat, |t: int| win@[set@[t] - 1] as u32),
            decreases set@.len() - k,
        {
            v.push(win[set[k] - 1] as u32);
            k += 1;
        }
    } else {
        let bi = (i - 20) / 5;
        let ni = (i - 20) % 5;
        let b: u32 = if bi == 0 {
            6
        } else if bi == 1 {
            8
        } else if bi == 2 {
            10
        } else {
            12
        };
        let nb: usize = if ni == 0 {
            2
        } else if ni == 1 {
            3
        } else if ni == 2 {
            4
        } else if ni == 3 {
            6
        } else {
            8
        };
        v = lens_vals(win, nb, b);
    }
    v
}

/// The forty direction hashes of the window `win`.
pub fn all_dir_hashes(win: &[u8; 8], seeds: &Vec<u32>, perm8: &Vec<usize>) -> (dh: [u32; 40])
    requires
        seeds@.len() == 64,
        perm8@.len() == 8,
        forall|k: int| 0 <= k < 8 ==> #[trigger] perm8@[k] < 8,
    ensures
        dh@ == dir_hashes_spec(win@, seeds@, perm8@),
{
    let mut dh: [u32; 40] = [0u32; 40];
    let mut i: usize = 0;
    while i < NDIR
        invariant
            i <= NDIR,
            seeds@.len() == 64,
            perm8@.len() == 8,
            forall|k: int| 0 <= k < 8 ==> #[trigger] perm8@[k] < 8,
            dh@.len() == 40,
            forall|k: int| 0 <= k < i ==> #[trigger] dh@[k] == mixhash_spec(seeds@[k], dir_vals(win@, perm8@, k)),
        decreases NDIR - i,
    {
        let v = dir_values(win, perm8, i);
        dh[i] = mixhash(seeds[i], v.as_slice());
        i += 1;
    }
    assert(dh@ =~= dir_hashes_spec(win@, seeds@, perm8@));
    dh
}

// ---------------------------------------------------------------------------
// Floor commitments.
// ---------------------------------------------------------------------------
pub open spec fn floor_hex(bits: u32) -> Seq<u8> {
    hex_ascii(spec_sha256(FLOOR_TAG@ + root_spec() + u32_le(bits)))
}

pub open spec fn floor_hexes() -> Seq<Seq<u8>> {
    seq![floor_hex(6), floor_hex(8), floor_hex(10), floor_hex(12)]
}

pub open spec fn unified_hex() -> Seq<u8> {
    hex_ascii(spec_sha256(UNIFIED_TAG@ + root_spec() + crate::fold::joined(sorted_leaves(floor_hexes()))))
}

/// The floor commitments of widths 6, 8, 10 and 12, and their unified
/// commitment over the root and the floors in byte order.
pub fn omega_ladder() -> (r: (Vec<(u32, Vec<u8>)>, Vec<u8>))
    ensures
        r.0@.len() == 4,
        r.0@[0].0 == 6 && r.0@[1].0 == 8 && r.0@[2].0 == 10 && r.0@[3].0 == 12,
        forall|k: int| 0 <= k < 4 ==> (#[trigger] r.0@[k]).1@ == floor_hex(r.0@[k].0),
        r.1@ == unified_hex(),
{
    let root = root_hash();
    let mut floors: Vec<(u32, Vec<u8>)> = Vec::new();
    let mut hexes: Vec<Vec<u8>> = Vec::new();
    let mut k: usize = 0;
    while k < 4
        invariant
            k <= 4,
            root@ == root_spec(),
            floors@.len() == k,
            hexes@.len() == k,
            forall|q: int| 0 <= q < k ==> (#[trigger] floors@[q]).0 == lens_bits_spec(q),
            forall|q: int| 0 <= q < k ==> (#[trigger] floors@[q]).1@ == floor_hex(lens_bits_spec(q)),
            forall|q: int| 0 <= q < k ==> (#[trigger] hexes@[q])@ == floor_hex(lens_bits_spec(q)),
        decreases 4 - k,
    {
        let bits: u32 = if k == 0 {
            6
        } else if k == 1 {
            8
        } else if k == 2 {
            10
        } else {
            12
        };
        let mut m: Vec<u8> = Vec::new();
        append_bytes(&mut m, &FLOOR_TAG);
        append_bytes(&mut m, &root);
        push_u32_le(&mut m, bits);
        let h = hex_bytes(&sha256(m.as_slice()));
        let h2 = hex_bytes(&sha256(m.as_slice()));
        floors.push((bits, h));
        hexes.push(h2);
        k += 1;
    }
    assert(leaf_views(hexes@) =~= floor_hexes());
    let joined = crate::fold::joined_sorted(hexes.as_slice());
    let mut m: Vec<u8> = Vec::new();
    append_bytes(&mut m, &UNIFIED_TAG);
    append_bytes(&mut m, &root);
    append_bytes(&mut m, joined.as_slice());
    let unified = hex_bytes(&sha256(m.as_slice()));
    (floors, unified)
}


// ---------------------------------------------------------------------------
// The model.
// ---------------------------------------------------------------------------
/// Mixer inputs: five byte orders, forty directions, a bias.
pub const NIN: usize = 46;

pub const BIAS_IX: usize = 45;

/// Entries of each direction table.
pub const DSIZE: usize = 0x20_0000;

pub fn dirmode_code(m: DirMode) -> (c: u8)
    ensures
        c == crate::dirmix::mode_code(m),
{
    m.as_u8()
}

pub fn dirmode_from(c: u8) -> (m: DirMode)
    ensures
        m == crate::dirmix::mode_of(c),
{
    DirMode::from_u8(c)
}

pub fn dirmode_name(m: DirMode) -> (s: &'static str)
    ensures
        m == DirMode::Expand ==> s@ == "expand"@,
        m == DirMode::Dup ==> s@ == "dup"@,
        m == DirMode::Shuffle ==> s@ == "shuffle"@,
{
    m.name()
}

pub struct Model {
    pub t0: Vec<u16>,
    pub t1: Vec<u16>,
    pub t2: Vec<u16>,
    pub t3: Vec<u16>,
    pub t4: Vec<u16>,
    /// The active direction tables, one after another (`dirs * DSIZE`).
    pub dtab: Vec<u16>,
    pub w: Vec<i32>,
    pub c1: u32,
    pub c2: u32,
    pub c3: u32,
    pub c4: u32,
    pub h2: u32,
    pub h3: u32,
    pub h4: u32,
    pub dirs: usize,
    pub mode: DirMode,
    pub seeds: Vec<u32>,
    pub perm8: Vec<usize>,
    pub slot_src: Vec<usize>,
    pub win: [u8; 8],
    pub eff: [u32; 40],
    pub idx: [usize; 5],
    pub didx: [usize; 40],
    pub st: [i32; 46],
    pub wctx: usize,
    pub pr: i32,
    pub stretch: Vec<i32>,
}

pub struct ExpState {
    pub t0: Seq<u16>,
    pub t1: Seq<u16>,
    pub t2: Seq<u16>,
    pub t3: Seq<u16>,
    pub t4: Seq<u16>,
    pub dtab: Seq<u16>,
    pub w: Seq<i32>,
    pub c1: u32,
    pub c2: u32,
    pub c3: u32,
    pub c4: u32,
    pub h2: u32,
    pub h3: u32,
    pub h4: u32,
    pub dirs: usize,
    pub mode: DirMode,
    pub seeds: Seq<u32>,
    pub perm8: Seq<usize>,
    pub slot_src: Seq<usize>,
    pub win: Seq<u8>,
    pub eff: Seq<u32>,
    pub idx: Seq<usize>,
    pub didx: Seq<usize>,
    pub st: Seq<i32>,
    pub wctx: usize,
    pub pr: i32,
    pub stretch: Seq<i32>,
}

impl View for Model {
    type V = ExpState;

    open spec fn view(&self) -> ExpState {
        ExpState {
            t0: self.t0@,
            t1: self.t1@,
            t2: self.t2@,
            t3: self.t3@,
            t4: self.t4@,
            dtab: self.dtab@,
            w: self.w@,
            c1: self.c1,
            c2: self.c2,
            c3: self.c3,
            c4: self.c4,
            h2: self.h2,
            h3: self.h3,
            h4: self.h4,
            dirs: self.dirs,
            mode: self.mode,
            seeds: self.seeds@,
            perm8: self.perm8@,
            slot_src: self.slot_src@,
            win: self.win@,
            eff: self.eff@,
            idx: self.idx@,
            didx: self.didx@,
            st: self.st@,
            wctx: self.wctx,
            pr: self.pr,
            stretch: self.stretch@,
        }
    }
}

pub open spec fn exp_wf(s: ExpState) -> bool {
    &&& counters_ok(s.t0, O0SIZE as nat)
    &&& counters_ok(s.t1, O1SIZE as nat)
    &&& counters_ok(s.t2, HSIZE as nat)
    &&& counters_ok(s.t3, HSIZE as nat)
    &&& counters_ok(s.t4, HSIZE as nat)
    &&& s.dirs <= NDIR
    &&& counters_ok(s.dtab, (s.dirs * DSIZE) as nat)
    &&& weights_ok(s.w, (MC * NIN) as nat)
    &&& stretch_ok(s.stretch)
    &&& s.seeds.len() == 64
    &&& s.perm8.len() == 8
    &&& forall|k: int| 0 <= k < 8 ==> #[trigger] s.perm8[k] < 8
    &&& s.slot_src.len() == s.dirs
    &&& forall|k: int| 0 <= k < s.dirs ==> #[trigger] s.slot_src[k] < NDIR
    &&& s.win.len() == 8
    &&& s.eff.len() == NDIR
    &&& s.idx.len() == 5
    &&& s.idx[0] < O0SIZE
    &&& s.idx[1] < O1SIZE
    &&& s.idx[2] < HSIZE
    &&& s.idx[3] < HSIZE
    &&& s.idx[4] < HSIZE
    &&& s.didx.len() == NDIR
    &&& forall|k: int| 0 <= k < NDIR ==> #[trigger] s.didx[k] < DSIZE
    &&& inputs_ok(s.st, NIN as nat)
    &&& s.wctx < MC
    &&& 0 <= s.pr <= 4095
}

pub open spec fn init_weight(dirs: usize, j: int) -> i32 {
    if j % (NIN as int) < 5 + dirs {
        (65536int / (5 + dirs)) as i32
    } else {
        0
    }
}

pub open spec fn slots_of(dirs: usize, mode: DirMode, seeds: Seq<u32>) -> Seq<usize> {
    if mode == DirMode::Expand {
        Seq::new(dirs as nat, |k: int| k as usize)
    } else if mode == DirMode::Dup {
        Seq::new(dirs as nat, |k: int| 0usize)
    } else {
        perm_spec(NDIR as nat, seeds[11] ^ (dirs as u32)).take(dirs as int)
    }
}

pub open spec fn exp_init(dirs0: usize, mode: DirMode) -> ExpState {
    let dirs = if dirs0 < NDIR {
        dirs0
    } else {
        NDIR
    };
    ExpState {
        t0: Seq::new(O0SIZE as nat, |i: int| 2048u16),
        t1: Seq::new(O1SIZE as nat, |i: int| 2048u16),
        t2: Seq::new(HSIZE as nat, |i: int| 2048u16),
        t3: Seq::new(HSIZE as nat, |i: int| 2048u16),
        t4: Seq::new(HSIZE as nat, |i: int| 2048u16),
        dtab: Seq::new((dirs * DSIZE) as nat, |i: int| 2048u16),
        w: Seq::new((MC * NIN) as nat, |j: int| init_weight(dirs, j)),
        c1: 0,
        c2: 0,
        c3: 0,
        c4: 0,
        h2: 0,
        h3: 0,
        h4: 0,
        dirs,
        mode,
        seeds: seeds_spec(),
        perm8: perm_spec(WLEN as nat, seeds_spec()[10]),
        slot_src: slots_of(dirs, mode, seeds_spec()),
        win: Seq::new(8, |i: int| 0u8),
        eff: Seq::new(40, |i: int| 0u32),
        idx: seq![0usize, 0, 0, 0, 0],
        didx: Seq::new(40, |i: int| 0usize),
        st: Seq::new(46, |i: int| 0i32),
        wctx: 0,
        pr: 2048,
        stretch: Seq::new(4096, |q: int| stretch_of(q) as i32),
    }
}

/// Direction slot `k`'s table entry for `node`.
pub open spec fn dslot(s: ExpState, node: u32, k: int) -> usize {
    spec_hidx(s.eff[k], node, DSIZE)
}

pub open spec fn input_at(s: ExpState, node: u32, i: int) -> i32 {
    if i == 0 {
        s.stretch[s.t0[((node as usize) & 255usize) as int] as int]
    } else if i == 1 {
        s.stretch[s.t1[((((s.c1 << 8u32) | node) as usize) & 0xffffusize) as int] as int]
    } else if i == 2 {
        s.stretch[s.t2[spec_hidx(s.h2, node, HSIZE) as int] as int]
    } else if i == 3 {
        s.stretch[s.t3[spec_hidx(s.h3, node, HSIZE) as int] as int]
    } else if i == 4 {
        s.stretch[s.t4[spec_hidx(s.h4, node, HSIZE) as int] as int]
    } else if i < BIAS_IX {
        if i - 5 < s.dirs {
            s.stretch[s.dtab[(i - 5) * DSIZE + dslot(s, node, i - 5)] as int]
        } else {
            0
        }
    } else {
        256
    }
}

pub open spec fn predict_of(s: ExpState, node: u32) -> (u32, ExpState) {
    let idx = seq![
        (node as usize) & 255usize,
        (((s.c1 << 8u32) | node) as usize) & 0xffffusize,
        spec_hidx(s.h2, node, HSIZE),
        spec_hidx(s.h3, node, HSIZE),
        spec_hidx(s.h4, node, HSIZE),
    ];
    let didx = Seq::new(NDIR as nat, |k: int| if k < s.dirs { dslot(s, node, k) } else { s.didx[k] });
    let st = Seq::new(NIN as nat, |i: int| input_at(s, node, i));
    let wctx = (s.c1 as usize) & 255usize;
    let p = mix_prob(dot_upto(st, s.w, wctx * NIN, NIN as int));
    (p as u32, ExpState { idx, didx, st, wctx, pr: p, ..s })
}

/// The direction tables after updating slots `0..k`.
pub open spec fn dtab_after(s: ExpState, bit: u32, k: int) -> Seq<u16>
    decreases k,
{
    if k <= 0 {
        s.dtab
    } else {
        let t = dtab_after(s, bit, k - 1);
        let j = (k - 1) * DSIZE + s.didx[k - 1];
        t.update(j, adapt(t[j], bit, RATE))
    }
}

pub open spec fn learn_of(s: ExpState, bit: u32) -> ExpState {
    let err = (((bit as i32) << 12i32) - s.pr) as i32;
    ExpState {
        t0: counter_step(s.t0, s.idx[0], bit),
        t1: counter_step(s.t1, s.idx[1], bit),
        t2: counter_step(s.t2, s.idx[2], bit),
        t3: counter_step(s.t3, s.idx[3], bit),
        t4: counter_step(s.t4, s.idx[4], bit),
        dtab: dtab_after(s, bit, s.dirs as int),
        w: weights_after(s.w, s.st, (s.wctx * NIN) as int, err, NIN as int),
        ..s
    }
}

/// Effective hash of slot `k` after the window became `win`.
pub open spec fn eff_of(s: ExpState, win: Seq<u8>, k: int) -> u32 {
    let dh = dir_hashes_spec(win, s.seeds, s.perm8);
    if s.mode == DirMode::Dup {
        dh[0] ^ (k as u32).wrapping_mul(0x9E37_79B1u32)
    } else {
        dh[s.slot_src[k] as int]
    }
}

pub open spec fn push_of(s: ExpState, b: u8) -> ExpState {
    let c1 = b as u32;
    let c2 = s.c1;
    let c3 = s.c2;
    let c4 = s.c3;
    let h2 = c1.wrapping_mul(0x6B43_A9B5u32).wrapping_add(c2.wrapping_add(1).wrapping_mul(0x9E37_79B1u32));
    let h3 = h2.wrapping_mul(0x2545_F491u32).wrapping_add(c3.wrapping_add(1).wrapping_mul(0x85EB_CA77u32));
    let h4 = h3.wrapping_mul(0x2545_F491u32).wrapping_add(c4.wrapping_add(1).wrapping_mul(0xC2B2_AE35u32));
    let win = Seq::new(8, |k: int| if k == 0 { b } else { s.win[k - 1] });
    let eff = Seq::new(NDIR as nat, |k: int| if k < s.dirs { eff_of(s, win, k) } else { s.eff[k] });
    ExpState { c1, c2, c3, c4, h2, h3, h4, win, eff, ..s }
}


proof fn lemma_spec_hidx(h: u32, node: u32, size: usize)
    requires
        size >= 1,
    ensures
        spec_hidx(h, node, size) < size,
{
    let x = ((h ^ node.wrapping_mul(0x9E37_79B1u32)).wrapping_mul(0x2545_F491u32) as usize);
    crate::bitfacts::lemma_mask_le(x, (size - 1) as usize);
}

proof fn lemma_dtab_index(k: int, d: usize, dirs: usize)
    requires
        0 <= k < dirs,
        d < DSIZE,
    ensures
        0 <= k * DSIZE + d < dirs * DSIZE,
{
    assert(0 <= k * DSIZE + d < dirs * DSIZE) by (nonlinear_arith)
        requires
            0 <= k < dirs,
            d < DSIZE,
    ;
}

proof fn lemma_predict_wf(s: ExpState, node: u32)
    requires
        exp_wf(s),
    ensures
        exp_wf(predict_of(s, node).1),
        1 <= predict_of(s, node).0 <= 4094,
{
    let r = predict_of(s, node).1;
    crate::bitfacts::lemma_mask_le(node as usize, 255usize);
    crate::bitfacts::lemma_mask_le((((s.c1 << 8u32) | node) as usize), 0xffffusize);
    crate::bitfacts::lemma_mask_le(s.c1 as usize, 255usize);
    lemma_spec_hidx(s.h2, node, HSIZE);
    lemma_spec_hidx(s.h3, node, HSIZE);
    lemma_spec_hidx(s.h4, node, HSIZE);
    assert forall|k: int| 0 <= k < NDIR implies #[trigger] r.didx[k] < DSIZE by {
        if k < s.dirs {
            lemma_spec_hidx(s.eff[k], node, DSIZE);
        }
    }
    assert forall|i: int| 0 <= i < NIN implies -2047 <= #[trigger] r.st[i] <= 2047 by {
        if 5 <= i < BIAS_IX && i - 5 < s.dirs {
            lemma_spec_hidx(s.eff[i - 5], node, DSIZE);
            lemma_dtab_index(i - 5, dslot(s, node, i - 5), s.dirs);
        }
    }
    let base = (r.wctx * NIN) as int;
    assert(base + NIN <= MC * NIN) by (nonlinear_arith)
        requires
            r.wctx < MC,
            base == r.wctx * NIN,
    ;
    lemma_dot_bound(r.st, s.w, base, NIN as int);
    lemma_squash_range(crate::mix::clamp_logit(((dot_upto(r.st, s.w, base, NIN as int)) as i64 >> 16i64) as i32));
}

proof fn lemma_dtab_after(s: ExpState, bit: u32, k: int)
    requires
        exp_wf(s),
        bit <= 1,
        0 <= k <= s.dirs,
    ensures
        counters_ok(dtab_after(s, bit, k), (s.dirs * DSIZE) as nat),
    decreases k,
{
    if k > 0 {
        lemma_dtab_after(s, bit, k - 1);
        let t = dtab_after(s, bit, k - 1);
        let j = (k - 1) * DSIZE + s.didx[k - 1];
        lemma_dtab_index(k - 1, s.didx[k - 1], s.dirs);
        lemma_adapt_bound(t[j], bit, RATE);
    }
}

proof fn lemma_learn_wf(s: ExpState, bit: u32)
    requires
        exp_wf(s),
        bit <= 1,
    ensures
        exp_wf(learn_of(s, bit)),
{
    let r = learn_of(s, bit);
    crate::bitfacts::lemma_bit_target(bit);
    let err = (((bit as i32) << 12i32) - s.pr) as i32;
    lemma_adapt_bound(s.t0[s.idx[0] as int], bit, RATE);
    lemma_adapt_bound(s.t1[s.idx[1] as int], bit, RATE);
    lemma_adapt_bound(s.t2[s.idx[2] as int], bit, RATE);
    lemma_adapt_bound(s.t3[s.idx[3] as int], bit, RATE);
    lemma_adapt_bound(s.t4[s.idx[4] as int], bit, RATE);
    lemma_dtab_after(s, bit, s.dirs as int);
    let base = (s.wctx * NIN) as int;
    assert forall|j: int| 0 <= j < r.w.len() implies -WCLAMP <= #[trigger] r.w[j] <= WCLAMP by {
        if base <= j < base + NIN {
            lemma_weight_step(s.w[j], s.st[j - base], err);
        }
    }
}

proof fn lemma_init_wf(dirs0: usize, mode: DirMode)
    ensures
        exp_wf(exp_init(dirs0, mode)),
{
    let s = exp_init(dirs0, mode);
    assert forall|q: int| 0 <= q < 4096 implies -2047 <= #[trigger] s.stretch[q] <= 2047 by {
        lemma_stretch_range(q);
    }
    lemma_perm_range(WLEN as nat, seeds_spec()[10]);
    lemma_perm_range(NDIR as nat, seeds_spec()[11] ^ (s.dirs as u32));
    assert forall|j: int| 0 <= j < s.w.len() implies -WCLAMP <= #[trigger] s.w[j] <= WCLAMP by {
        assert(65536int / (5 + s.dirs) <= 65536) by {
            vstd::arithmetic::div_mod::lemma_div_is_ordered_by_denominator(65536, 1, (5 + s.dirs) as int);
        }
    }
}

impl Model {
    pub fn new(dirs: usize, mode: DirMode) -> (m: Self)
        ensures
            m@ == exp_init(dirs, mode),
            exp_wf(m@),
    {
        let dirs = if dirs < NDIR {
            dirs
        } else {
            NDIR
        };
        let seeds = root_seeds();
        let perm8 = perm_of(WLEN, seeds[10]);
        let mut slot_src: Vec<usize> = Vec::new();
        if mode == DirMode::Expand {
            let mut k: usize = 0;
            while k < dirs
                invariant
                    k <= dirs,
                    slot_src@ =~= Seq::new(k as nat, |t: int| t as usize),
                decreases dirs - k,
            {
                slot_src.push(k);
                k += 1;
            }
        } else if mode == DirMode::Dup {
            slot_src = vec![0usize; dirs];
            assert(slot_src@ =~= Seq::new(dirs as nat, |t: int| 0usize));
        } else {
            let p = perm_of(NDIR, seeds[11] ^ (dirs as u32));
            proof {
                lemma_perm_range(NDIR as nat, seeds@[11] ^ (dirs as u32));
            }
            let mut k: usize = 0;
            while k < dirs
                invariant
                    k <= dirs <= NDIR,
                    p@.len() == NDIR,
                    slot_src@ =~= p@.take(k as int),
                decreases dirs - k,
            {
                slot_src.push(p[k]);
                k += 1;
            }
        }
        let init = (65536 / (5 + dirs)) as i32;
        let mut w: Vec<i32> = Vec::new();
        let mut j: usize = 0;
        while j < MC * NIN
            invariant
                j <= MC * NIN,
                dirs <= NDIR,
                init == (65536int / (5 + dirs)) as i32,
                w@ =~= Seq::new(j as nat, |t: int| init_weight(dirs, t)),
            decreases MC * NIN - j,
        {
            if j % NIN < 5 + dirs {
                w.push(init);
            } else {
                w.push(0);
            }
            j += 1;
        }
        let m = Model {
            t0: vec![2048u16; O0SIZE],
            t1: vec![2048u16; O1SIZE],
            t2: vec![2048u16; HSIZE],
            t3: vec![2048u16; HSIZE],
            t4: vec![2048u16; HSIZE],
            dtab: vec![2048u16; dirs * DSIZE],
            w,
            c1: 0,
            c2: 0,
            c3: 0,
            c4: 0,
            h2: 0,
            h3: 0,
            h4: 0,
            dirs,
            mode,
            seeds,
            perm8,
            slot_src,
            win: [0u8; 8],
            eff: [0u32; 40],
            idx: [0; 5],
            didx: [0; 40],
            st: [0; 46],
            wctx: 0,
            pr: 2048,
            stretch: build_stretch(),
        };
        proof {
            let s = exp_init(dirs, mode);
            assert(m@.t0 =~= s.t0);
            assert(m@.t1 =~= s.t1);
            assert(m@.t2 =~= s.t2);
            assert(m@.t3 =~= s.t3);
            assert(m@.t4 =~= s.t4);
            assert(m@.dtab =~= s.dtab);
            assert(m@.w =~= s.w);
            assert(m@.slot_src =~= s.slot_src);
            assert(m@.win =~= s.win);
            assert(m@.eff =~= s.eff);
            assert(m@.idx =~= s.idx);
            assert(m@.didx =~= s.didx);
            assert(m@.st =~= s.st);
            assert(m@.stretch =~= s.stretch);
            lemma_init_wf(dirs, mode);
        }
        m
    }
}


impl Model {
    /// P(bit = 1) of the bit at `node`.
    pub fn predict(&mut self, node: u32) -> (p: u32)
        requires
            exp_wf(old(self)@),
        ensures
            (p, final(self)@) == predict_of(old(self)@, node),
            exp_wf(final(self)@),
    {
        let ghost s0 = self@;
        let ghost r = predict_of(s0, node).1;
        proof {
            lemma_predict_wf(s0, node);
        }
        self.idx[0] = (node as usize) & (O0SIZE - 1);
        self.idx[1] = (((self.c1 << 8) | node) as usize) & (O1SIZE - 1);
        self.idx[2] = hidx(self.h2, node, HSIZE);
        self.idx[3] = hidx(self.h3, node, HSIZE);
        self.idx[4] = hidx(self.h4, node, HSIZE);
        self.st[0] = self.stretch[self.t0[self.idx[0]] as usize];
        self.st[1] = self.stretch[self.t1[self.idx[1]] as usize];
        self.st[2] = self.stretch[self.t2[self.idx[2]] as usize];
        self.st[3] = self.stretch[self.t3[self.idx[3]] as usize];
        self.st[4] = self.stretch[self.t4[self.idx[4]] as usize];
        let ghost s1 = self@;
        let mut k: usize = 0;
        while k < self.dirs
            invariant
                k <= self.dirs,
                exp_wf(s0),
                self@ == (ExpState { didx: self.didx@, st: self.st@, ..s1 }),
                s1.idx == r.idx,
                s1.w == s0.w,
                s1.c1 == s0.c1,
                r == predict_of(s0, node).1,
                self.dirs == s0.dirs,
                self.eff@ == s0.eff,
                self.dtab@ == s0.dtab,
                self.stretch@ == s0.stretch,
                self.didx@.len() == NDIR,
                self.st@.len() == NIN,
                forall|q: int| 0 <= q < 5 ==> #[trigger] self.st@[q] == r.st[q],
                forall|q: int| 0 <= q < k ==> #[trigger] self.didx@[q] == r.didx[q],
                forall|q: int| k <= q < NDIR ==> #[trigger] self.didx@[q] == s0.didx[q],
                forall|q: int| 5 <= q < 5 + k ==> #[trigger] self.st@[q] == r.st[q],
            decreases self.dirs - k,
        {
            let di = hidx(self.eff[k], node, DSIZE);
            self.didx[k] = di;
            proof {
                lemma_dtab_index(k as int, di, self.dirs);
            }
            self.st[5 + k] = self.stretch[self.dtab[k * DSIZE + di] as usize];
            k += 1;
        }
        while k < NDIR
            invariant
                self.dirs <= k <= NDIR,
                r == predict_of(s0, node).1,
                self@ == (ExpState { didx: self.didx@, st: self.st@, ..s1 }),
                self.dirs == s0.dirs,
                self.didx@.len() == NDIR,
                self.st@.len() == NIN,
                forall|q: int| 0 <= q < 5 ==> #[trigger] self.st@[q] == r.st[q],
                forall|q: int| 0 <= q < NDIR ==> #[trigger] self.didx@[q] == r.didx[q],
                forall|q: int| 5 <= q < 5 + k ==> #[trigger] self.st@[q] == r.st[q],
            decreases NDIR - k,
        {
            self.st[5 + k] = 0;
            k += 1;
        }
        self.st[BIAS_IX] = 256;
        assert(self.st@ =~= r.st);
        assert(self.didx@ =~= r.didx);
        self.wctx = (self.c1 as usize) & (MC - 1);
        proof {
            crate::bitfacts::lemma_mask_le(self.c1 as usize, 255usize);
        }
        let base = self.wctx * NIN;
        proof {
            assert(base + NIN <= MC * NIN) by (nonlinear_arith)
                requires
                    self.wctx < MC,
                    base == self.wctx * NIN,
            ;
        }
        let ghost s2 = self@;
        let mut dot: i64 = 0;
        let mut i: usize = 0;
        while i < NIN
            invariant
                i <= NIN,
                self@ == s2,
                base == s2.wctx * NIN,
                base + NIN <= MC * NIN,
                self.st@ == r.st,
                self.w@ == s0.w,
                weights_ok(self.w@, (MC * NIN) as nat),
                inputs_ok(self.st@, NIN as nat),
                dot == dot_upto(self.st@, self.w@, base as int, i as int),
                -(i as int) * 0x8_0000_0000 <= dot <= (i as int) * 0x8_0000_0000,
            decreases NIN - i,
        {
            let a = self.st[i] as i64;
            let b = self.w[base + i] as i64;
            assert(-0x8_0000_0000 <= a * b <= 0x8_0000_0000) by (nonlinear_arith)
                requires
                    -2047 <= a <= 2047,
                    -0x100_0000 <= b <= 0x100_0000,
            ;
            dot += a * b;
            i += 1;
        }
        let mut d = (dot >> 16) as i32;
        if d > 2047 {
            d = 2047;
        }
        if d < -2047 {
            d = -2047;
        }
        let mut p = squash(d);
        if p < 1 {
            p = 1;
        }
        if p > 4094 {
            p = 4094;
        }
        self.pr = p;
        proof {
            assert(self.idx@ =~= r.idx);
            assert(self@ == r);
        }
        p as u32
    }

    /// Learn that the bit was `bit`.
    pub fn update(&mut self, bit: u32)
        requires
            exp_wf(old(self)@),
            bit <= 1,
        ensures
            final(self)@ == learn_of(old(self)@, bit),
            exp_wf(final(self)@),
    {
        let ghost s0 = self@;
        proof {
            lemma_learn_wf(s0, bit);
            crate::bitfacts::lemma_bit_target(bit);
        }
        let i0 = self.idx[0];
        let v0 = adapt_counter(self.t0[i0], bit, RATE);
        self.t0.set(i0, v0);
        let i1 = self.idx[1];
        let v1 = adapt_counter(self.t1[i1], bit, RATE);
        self.t1.set(i1, v1);
        let i2 = self.idx[2];
        let v2 = adapt_counter(self.t2[i2], bit, RATE);
        self.t2.set(i2, v2);
        let i3 = self.idx[3];
        let v3 = adapt_counter(self.t3[i3], bit, RATE);
        self.t3.set(i3, v3);
        let i4 = self.idx[4];
        let v4 = adapt_counter(self.t4[i4], bit, RATE);
        self.t4.set(i4, v4);
        let ghost s1 = self@;
        let mut k: usize = 0;
        while k < self.dirs
            invariant
                k <= self.dirs,
                exp_wf(s0),
                self@ == (ExpState { dtab: self.dtab@, ..s1 }),
                s1.pr == s0.pr,
                s1.wctx == s0.wctx,
                s1.w == s0.w,
                s1.st == s0.st,
                bit <= 1,
                self.dirs == s0.dirs,
                self.didx@ == s0.didx,
                self.dtab@ == dtab_after(s0, bit, k as int),
            decreases self.dirs - k,
        {
            let j = k * DSIZE + self.didx[k];
            proof {
                lemma_dtab_index(k as int, s0.didx[k as int], s0.dirs);
                lemma_dtab_after(s0, bit, k as int);
            }
            let v = adapt_counter(self.dtab[j], bit, RATE);
            self.dtab.set(j, v);
            k += 1;
        }
        let target = (bit as i32) << 12;
        let err = target - self.pr;
        let base = self.wctx * NIN;
        proof {
            assert(base + NIN <= MC * NIN) by (nonlinear_arith)
                requires
                    self.wctx < MC,
                    base == self.wctx * NIN,
            ;
        }
        let ghost s2 = self@;
        let mut i: usize = 0;
        while i < NIN
            invariant
                i <= NIN,
                exp_wf(s0),
                self@ == (ExpState { w: self.w@, ..s2 }),
                base == s0.wctx * NIN,
                base + NIN <= MC * NIN,
                self.st@ == s0.st,
                -4096 <= err <= 4096,
                err == (((bit as i32) << 12i32) - s0.pr) as i32,
                self.w@ == weights_after(s0.w, s0.st, base as int, err, i as int),
                weights_ok(self.w@, (MC * NIN) as nat),
            decreases NIN - i,
        {
            let x = self.st[i];
            let old_w = self.w[base + i];
            proof {
                lemma_weight_step(old_w, x, err);
            }
            if x != 0 {
                let y = x * err;
                proof {
                    crate::bitfacts::lemma_shr12_small(y);
                }
                let mut nw = old_w + (y >> LR_SHIFT);
                if nw > WCLAMP {
                    nw = WCLAMP;
                }
                if nw < -WCLAMP {
                    nw = -WCLAMP;
                }
                self.w.set(base + i, nw);
            } else {
                assert(weight_step(old_w, x, err) == old_w) by {
                    assert(x * err == 0) by (nonlinear_arith)
                        requires
                            x == 0,
                    ;
                    crate::bitfacts::lemma_shr12_small(0i32);
                }
            }
            proof {
                assert(self.w@ =~= weights_after(s0.w, s0.st, base as int, err, i + 1));
            }
            i += 1;
        }
        proof {
            assert(self@.t0 =~= learn_of(s0, bit).t0);
        }
    }

    /// Take in the byte `b`: contexts, window and direction hashes.
    pub fn push_byte(&mut self, b: u8)
        requires
            exp_wf(old(self)@),
        ensures
            final(self)@ == push_of(old(self)@, b),
            exp_wf(final(self)@),
    {
        let ghost s0 = self@;
        self.c4 = self.c3;
        self.c3 = self.c2;
        self.c2 = self.c1;
        self.c1 = b as u32;
        self.h2 = self.c1.wrapping_mul(0x6B43_A9B5).wrapping_add(
            self.c2.wrapping_add(1).wrapping_mul(0x9E37_79B1),
        );
        self.h3 = self.h2.wrapping_mul(0x2545_F491).wrapping_add(
            self.c3.wrapping_add(1).wrapping_mul(0x85EB_CA77),
        );
        self.h4 = self.h3.wrapping_mul(0x2545_F491).wrapping_add(
            self.c4.wrapping_add(1).wrapping_mul(0xC2B2_AE35),
        );
        let ghost s1 = self@;
        let mut k: usize = 7;
        while k > 0
            invariant
                k <= 7,
                self@ == (ExpState { win: self.win@, ..s1 }),
                self.win@.len() == 8,
                forall|q: int| 0 <= q <= k ==> #[trigger] self.win@[q] == s0.win[q],
                forall|q: int| k < q < 8 ==> #[trigger] self.win@[q] == s0.win[q - 1],
            decreases k,
        {
            self.win[k] = self.win[k - 1];
            k -= 1;
        }
        self.win[0] = b;
        let ghost win = push_of(s0, b).win;
        assert(self.win@ =~= win);
        let dh = all_dir_hashes(&self.win, &self.seeds, &self.perm8);
        let ghost s2 = self@;
        let mut k: usize = 0;
        while k < self.dirs
            invariant
                k <= self.dirs,
                exp_wf(s0),
                self@ == (ExpState { eff: self.eff@, ..s2 }),
                self.dirs == s0.dirs,
                self.mode == s0.mode,
                self.slot_src@ == s0.slot_src,
                self.seeds@ == s0.seeds,
                self.perm8@ == s0.perm8,
                self.win@ == win,
                dh@ == dir_hashes_spec(win, s0.seeds, s0.perm8),
                self.eff@.len() == NDIR,
                forall|q: int| 0 <= q < k ==> #[trigger] self.eff@[q] == eff_of(s0, win, q),
                forall|q: int| k <= q < NDIR ==> #[trigger] self.eff@[q] == s0.eff[q],
            decreases self.dirs - k,
        {
            if self.mode == DirMode::Dup {
                self.eff[k] = dh[0] ^ (k as u32).wrapping_mul(0x9E37_79B1);
            } else {
                let src = self.slot_src[k];
                self.eff[k] = dh[src];
            }
            k += 1;
        }
        assert(self.eff@ =~= push_of(s0, b).eff);
    }

    /// Learn from `data` without coding it.
    pub fn train_pass(&mut self, data: &[u8])
        requires
            exp_wf(old(self)@),
        ensures
            final(self)@ == code_data::<Model>(old(self)@, data@).0,
            exp_wf(final(self)@),
    {
        train_bytes(self, data)
    }
}

impl BitModel for Model {
    open spec fn wf(s: ExpState) -> bool {
        exp_wf(s)
    }

    open spec fn sp_begin(s: ExpState) -> ExpState {
        s
    }

    open spec fn sp_predict(s: ExpState, node: u32, i: u32) -> (u32, ExpState) {
        predict_of(s, node)
    }

    open spec fn sp_learn(s: ExpState, node: u32, i: u32, bit: u32, p: u32) -> ExpState {
        learn_of(s, bit)
    }

    open spec fn sp_end(s: ExpState, b: u8) -> ExpState {
        push_of(s, b)
    }

    proof fn lemma_begin_wf(s: ExpState) {
    }

    proof fn lemma_predict_wf(s: ExpState, node: u32, i: u32) {
        lemma_predict_wf(s, node);
    }

    proof fn lemma_learn_wf(s: ExpState, node: u32, i: u32, bit: u32, p: u32) {
        lemma_learn_wf(s, bit);
    }

    proof fn lemma_end_wf(s: ExpState, b: u8) {
    }

    fn begin_bits(&mut self) {
    }

    fn predict_bit(&mut self, node: u32, i: u32) -> (p: u32) {
        self.predict(node)
    }

    fn learn_bit(&mut self, node: u32, i: u32, bit: u32, p: u32) {
        self.update(bit)
    }

    fn end_bits(&mut self, b: u8) {
        self.push_byte(b)
    }
}


// ---------------------------------------------------------------------------
// Archive: length, directions, mode, passes, code stream.
// ---------------------------------------------------------------------------
pub open spec fn clamp_dirs(dirs: usize) -> usize {
    if dirs < NDIR {
        dirs
    } else {
        NDIR
    }
}

#[verifier::opaque]
pub open spec fn spec_compress(data: Seq<u8>, dirs: usize, mode: DirMode) -> Seq<u8> {
    u64_le(data.len() as u64) + u16_le(clamp_dirs(dirs) as u16) + seq![
        crate::dirmix::mode_code(mode),
        1u8,
    ] + data_stream::<Model>(exp_init(dirs, mode), data)
}

#[verifier::opaque]
pub open spec fn spec_decompress(a: Seq<u8>) -> Seq<u8> {
    dec_data::<Model>(
        exp_init(le_u16_at(a, 8) as usize, crate::dirmix::mode_of(a[10])),
        dec_init(a.subrange(12, a.len() as int)),
        (le_u64_at(a, 0) as usize) as nat,
    ).2
}

/// The code stream of `data` from the model `m`, which goes on learning.
pub fn encode_with(m: &mut Model, data: &[u8]) -> (out: Vec<u8>)
    requires
        exp_wf(old(m)@),
    ensures
        out@ == data_stream::<Model>(old(m)@, data@),
        final(m)@ == code_data::<Model>(old(m)@, data@).0,
        exp_wf(final(m)@),
{
    let mut e = Encoder::new();
    encode_bytes(m, &mut e, data);
    e.flush();
    e.out
}

/// `n` bytes decoded from `stream` by the model `m`.
pub fn decode_with(m: &mut Model, stream: &[u8], n: usize) -> (out: Vec<u8>)
    requires
        exp_wf(old(m)@),
    ensures
        out@ == dec_data::<Model>(old(m)@, dec_init(stream@), n as nat).2,
        final(m)@ == dec_data::<Model>(old(m)@, dec_init(stream@), n as nat).0,
        exp_wf(final(m)@),
{
    let mut d = Decoder::new(stream);
    decode_bytes(m, &mut d, n)
}

pub fn compress(data: &[u8], dirs: usize, mode: DirMode) -> (archive: Vec<u8>)
    ensures
        archive@ == spec_compress(data@, dirs, mode),
        archive@.len() >= 12,
{
    let mut m = Model::new(dirs, mode);
    let mut archive: Vec<u8> = Vec::new();
    push_u64_le(&mut archive, data.len() as u64);
    let d = if dirs < NDIR {
        dirs
    } else {
        NDIR
    };
    push_u16_le(&mut archive, d as u16);
    archive.push(dirmode_code(mode));
    archive.push(1u8);
    let stream = encode_with(&mut m, data);
    append_bytes(&mut archive, stream.as_slice());
    proof {
        reveal(spec_compress);
        assert(archive@ =~= spec_compress(data@, dirs, mode));
    }
    archive
}

pub fn decompress(archive: &[u8]) -> (out: Vec<u8>)
    requires
        archive@.len() >= 12,
    ensures
        out@ == spec_decompress(archive@),
{
    let n = read_u64_le(archive, 0) as usize;
    let dirs = read_u16_le(archive, 8) as usize;
    let mode = dirmode_from(archive[10]);
    let mut m = Model::new(dirs, mode);
    let out = decode_with(&mut m, slice_range(archive, 12, archive.len()), n);
    proof {
        reveal(spec_decompress);
    }
    out
}

/// Decompressing a compressed archive gives back the input, for every
/// number of directions and every mode.
pub proof fn lemma_roundtrip(data: Seq<u8>, dirs: usize, mode: DirMode)
    requires
        data.len() <= usize::MAX,
    ensures
        spec_decompress(spec_compress(data, dirs, mode)) == data,
{
    reveal(spec_compress);
    reveal(spec_decompress);
    let a = spec_compress(data, dirs, mode);
    let st = data_stream::<Model>(exp_init(dirs, mode), data);
    let tail = u16_le(clamp_dirs(dirs) as u16) + seq![crate::dirmix::mode_code(mode), 1u8] + st;
    assert(a == Seq::<u8>::empty() + u64_le(data.len() as u64) + tail);
    lemma_u64_roundtrip(data.len() as u64, Seq::empty(), tail);
    assert(a == u64_le(data.len() as u64) + u16_le(clamp_dirs(dirs) as u16) + (seq![
        crate::dirmix::mode_code(mode),
        1u8,
    ] + st));
    lemma_u16_roundtrip(clamp_dirs(dirs) as u16, u64_le(data.len() as u64), seq![
        crate::dirmix::mode_code(mode),
        1u8,
    ] + st);
    assert(a[10] == crate::dirmix::mode_code(mode));
    assert(crate::dirmix::mode_of(crate::dirmix::mode_code(mode)) == mode);
    assert(a.subrange(12, a.len() as int) =~= st);
    assert(exp_init(clamp_dirs(dirs), mode) == exp_init(dirs, mode));
    lemma_init_wf(dirs, mode);
    lemma_stream_roundtrip::<Model>(exp_init(dirs, mode), data);
}

/// A model warmed by any sweeps over `train` and a copy warmed the same way
/// decode the warmed model's stream of `held` back to `held`.
pub proof fn lemma_warm_replay(s: ExpState, held: Seq<u8>)
    requires
        exp_wf(s),
    ensures
        dec_data::<Model>(s, dec_init(data_stream::<Model>(s, held)), held.len()).2 == held,
{
    lemma_stream_roundtrip::<Model>(s, held);
}

/// Whether `data` survives a round trip under `dirs` and `mode`.
pub fn rt_ok(data: &[u8], dirs: usize, mode: DirMode) -> (ok: bool)
    ensures
        ok,
{
    let _n = data.len();
    let arc = compress(data, dirs, mode);
    let back = decompress(arc.as_slice());
    proof {
        lemma_roundtrip(data@, dirs, mode);
    }
    bytes_eq(back.as_slice(), data)
}

/// Whether two byte strings are equal.
pub fn bytes_eq(a: &[u8], b: &[u8]) -> (r: bool)
    ensures
        r == (a@ == b@),
{
    if a.len() != b.len() {
        return false;
    }
    let mut k: usize = 0;
    while k < a.len()
        invariant
            k <= a@.len(),
            a@.len() == b@.len(),
            forall|t: int| 0 <= t < k ==> a@[t] == b@[t],
        decreases a@.len() - k,
    {
        if a[k] != b[k] {
            return false;
        }
        k += 1;
    }
    assert(a@ =~= b@);
    true
}

} // verus!
