//! Probability counters and the logistic squash / stretch tables shared by
//! the mixing models.
use vstd::prelude::*;

verus! {

/// A 12-bit probability counter moved toward the observed bit by
/// 1/2^`rate` of the distance (target 0 or 4096).
pub open spec fn adapt(pr: u16, bit: u32, rate: u32) -> u16 {
    ((pr as i32) + (((((bit as i32) << 12i32) - (pr as i32)) as i32) >> rate)) as u16
}

pub proof fn lemma_adapt_bound(pr: u16, bit: u32, rate: u32)
    requires
        pr <= 4095,
        bit <= 1,
        1 <= rate <= 8,
    ensures
        adapt(pr, bit, rate) <= 4095,
        0 <= (pr as i32) + (((((bit as i32) << 12i32) - (pr as i32)) as i32) >> rate) <= 4095,
{
    let p = pr as i32;
    let t = (bit as i32) << 12i32;
    crate::bitfacts::lemma_bit_target(bit);
    assert((0 <= p && p <= 4095 && (t == 0 || t == 4096) && 1 <= rate && rate <= 8) ==> (0 <= p
        + (((t - p) as i32) >> rate) && p + (((t - p) as i32) >> rate) <= 4095)) by (bit_vector);
}

/// Move a stored counter toward `bit`, as the models do after each bit.
pub fn adapt_counter(pr: u16, bit: u32, rate: u32) -> (r: u16)
    requires
        pr <= 4095,
        bit <= 1,
        1 <= rate <= 8,
    ensures
        r == adapt(pr, bit, rate),
        r <= 4095,
{
    proof {
        lemma_adapt_bound(pr, bit, rate);
    }
    let target = (bit as i32) << 12;
    let p = pr as i32;
    proof {
        crate::bitfacts::lemma_bit_target(bit);
    }
    (p + ((target - p) >> rate)) as u16
}

/// Interpolation nodes of the logistic curve, 4096 / (1 + e^-x) sampled
/// every 128 logit steps.
pub const SQUASH_T: [i32; 33] = [
    1, 2, 3, 6, 10, 16, 27, 45, 73, 120, 194, 310, 488, 747, 1101, 1546, 2047, 2549, 2994, 3348,
    3607, 3785, 3901, 3975, 4022, 4050, 4068, 4079, 4085, 4089, 4092, 4093, 4094,
];

pub open spec fn squash_nodes() -> Seq<i32> {
    seq![
        1i32, 2, 3, 6, 10, 16, 27, 45, 73, 120, 194, 310, 488, 747, 1101, 1546, 2047, 2549, 2994,
        3348, 3607, 3785, 3901, 3975, 4022, 4050, 4068, 4079, 4085, 4089, 4092, 4093, 4094,
    ]
}

/// A table of 33 interpolation nodes, each a probability in 1..4094.
pub open spec fn nodes_ok(t: Seq<i32>) -> bool {
    t.len() == 33 && forall|i: int| 0 <= i < 33 ==> 1 <= #[trigger] t[i] <= 4094
}

/// Probability (0..4095) of the logit `d` by linear interpolation between
/// the nodes `t`.
pub open spec fn squash_with(t: Seq<i32>, d: i32) -> i32 {
    if d > 2047 {
        4095
    } else if d < -2047 {
        0
    } else {
        let w = d & 127i32;
        let idx = ((d >> 7i32) + 16) as int;
        ((t[idx] * (128 - w) + t[idx + 1] * w + 64) as i32) >> 7i32
    }
}

/// Probability (0..4095) of the logit `d` on the standard curve.
pub open spec fn spec_squash(d: i32) -> i32 {
    squash_with(squash_nodes(), d)
}

proof fn lemma_squash_nodes()
    ensures
        SQUASH_T@ == squash_nodes(),
        nodes_ok(squash_nodes()),
{
    assert(SQUASH_T@ =~= squash_nodes());
}

pub proof fn lemma_squash_with_range(t: Seq<i32>, d: i32)
    requires
        nodes_ok(t),
    ensures
        0 <= squash_with(t, d) <= 4095,
{
    if -2047 <= d <= 2047 {
        let w = d & 127i32;
        let k = d >> 7i32;
        assert(0 <= w <= 127 && -16 <= k <= 15) by (bit_vector)
            requires
                -2047 <= d <= 2047,
                w == d & 127i32,
                k == d >> 7i32,
        ;
        let idx = (k + 16) as int;
        let a = t[idx] as int;
        let b = t[idx + 1] as int;
        assert(0 <= a * (128 - w) + b * w + 64 <= 4094 * 128 + 64) by (nonlinear_arith)
            requires
                1 <= a <= 4094,
                1 <= b <= 4094,
                0 <= w <= 127,
        ;
        let n = (a * (128 - w) + b * w + 64) as i32;
        assert(0 <= n <= 4094 * 128 + 64 ==> 0 <= (n >> 7i32) <= 4095) by (bit_vector);
    }
}

/// Nodes that never decrease.
pub open spec fn nodes_rising(t: Seq<i32>) -> bool {
    forall|i: int, j: int| 0 <= i <= j < 33 ==> #[trigger] t[i] <= #[trigger] t[j]
}

/// The interpolation numerator of logit `d` (within the table's span).
spec fn numer(t: Seq<i32>, d: i32) -> int {
    let w = (d & 127i32) as int;
    let idx = ((d >> 7i32) + 16) as int;
    t[idx] * (128 - w) + t[idx + 1] * w + 64
}

proof fn lemma_numer_rising(t: Seq<i32>, d1: i32, d2: i32)
    requires
        nodes_ok(t),
        nodes_rising(t),
        -2047 <= d1 <= d2 <= 2047,
    ensures
        numer(t, d1) <= numer(t, d2),
{
    crate::bitfacts::lemma_logit_split(d1, 0);
    crate::bitfacts::lemma_logit_split(d2, 0);
    let k1 = (d1 >> 7i32) as int;
    let k2 = (d2 >> 7i32) as int;
    let w1 = (d1 & 127i32) as int;
    let w2 = (d2 & 127i32) as int;
    let a1 = t[k1 + 16] as int;
    let b1 = t[k1 + 17] as int;
    let a2 = t[k2 + 16] as int;
    let b2 = t[k2 + 17] as int;
    assert(a1 <= b1 && a2 <= b2);
    if k1 == k2 {
        assert(w1 <= w2);
        assert(a1 * (128 - w1) + b1 * w1 <= a1 * (128 - w2) + b1 * w2) by (nonlinear_arith)
            requires
                a1 <= b1,
                w1 <= w2,
        ;
    } else {
        assert(k1 < k2) by (nonlinear_arith)
            requires
                d1 <= d2,
                d1 == 128 * k1 + w1,
                d2 == 128 * k2 + w2,
                0 <= w1 <= 127,
                0 <= w2 <= 127,
                k1 != k2,
        ;
        assert(b1 <= a2);
        assert(a1 * (128 - w1) + b1 * w1 <= 128 * b1) by (nonlinear_arith)
            requires
                a1 <= b1,
                0 <= w1 <= 128,
        ;
        assert(128 * a2 <= a2 * (128 - w2) + b2 * w2) by (nonlinear_arith)
            requires
                a2 <= b2,
                0 <= w2 <= 128,
        ;
    }
}

/// Squashing by rising nodes never decreases: a larger logit gives at
/// least as large a probability.
pub proof fn lemma_squash_with_monotone(t: Seq<i32>, d1: i32, d2: i32)
    requires
        nodes_ok(t),
        nodes_rising(t),
        d1 <= d2,
    ensures
        squash_with(t, d1) <= squash_with(t, d2),
{
    lemma_squash_with_range(t, d1);
    lemma_squash_with_range(t, d2);
    if -2047 <= d1 && d2 <= 2047 {
        lemma_numer_rising(t, d1, d2);
        crate::bitfacts::lemma_logit_split(d1, 0);
        crate::bitfacts::lemma_logit_split(d2, 0);
        let k1 = (d1 >> 7i32) as int;
        let k2 = (d2 >> 7i32) as int;
        let w1 = (d1 & 127i32) as int;
        let w2 = (d2 & 127i32) as int;
        assert(0 <= numer(t, d1) <= 4094 * 128 + 64) by (nonlinear_arith)
            requires
                numer(t, d1) == t[k1 + 16] * (128 - w1) + t[k1 + 17] * w1 + 64,
                1 <= t[k1 + 16] <= 4094,
                1 <= t[k1 + 17] <= 4094,
                0 <= w1 <= 127,
        ;
        assert(0 <= numer(t, d2) <= 4094 * 128 + 64) by (nonlinear_arith)
            requires
                numer(t, d2) == t[k2 + 16] * (128 - w2) + t[k2 + 17] * w2 + 64,
                1 <= t[k2 + 16] <= 4094,
                1 <= t[k2 + 17] <= 4094,
                0 <= w2 <= 127,
        ;
        let n1 = numer(t, d1) as i32;
        let n2 = numer(t, d2) as i32;
        crate::bitfacts::lemma_logit_split(0, n1);
        crate::bitfacts::lemma_logit_split(0, n2);
        vstd::arithmetic::div_mod::lemma_div_is_ordered(n1 as int, n2 as int, 128);
    }
}

/// The standard squash never decreases.
pub proof fn lemma_squash_monotone(d1: i32, d2: i32)
    requires
        d1 <= d2,
    ensures
        spec_squash(d1) <= spec_squash(d2),
{
    lemma_squash_nodes();
    let t = squash_nodes();
    assert forall|i: int, j: int| 0 <= i <= j < 33 implies #[trigger] t[i] <= #[trigger] t[j] by {
        assert(t[0] <= t[1] && t[1] <= t[2] && t[2] <= t[3] && t[3] <= t[4] && t[4] <= t[5]
            && t[5] <= t[6] && t[6] <= t[7] && t[7] <= t[8] && t[8] <= t[9] && t[9] <= t[10]
            && t[10] <= t[11] && t[11] <= t[12] && t[12] <= t[13] && t[13] <= t[14] && t[14]
            <= t[15] && t[15] <= t[16] && t[16] <= t[17] && t[17] <= t[18] && t[18] <= t[19]
            && t[19] <= t[20] && t[20] <= t[21] && t[21] <= t[22] && t[22] <= t[23] && t[23]
            <= t[24] && t[24] <= t[25] && t[25] <= t[26] && t[26] <= t[27] && t[27] <= t[28]
            && t[28] <= t[29] && t[29] <= t[30] && t[30] <= t[31] && t[31] <= t[32]);
        assert(t[i] <= t[j]);
    }
    lemma_squash_with_monotone(t, d1, d2);
}

pub proof fn lemma_squash_range(d: i32)
    ensures
        0 <= spec_squash(d) <= 4095,
{
    lemma_squash_nodes();
    lemma_squash_with_range(squash_nodes(), d);
}

/// Logit -> 12-bit probability by the nodes `t`.
pub fn squash_by(t: &[i32; 33], d: i32) -> (r: i32)
    requires
        nodes_ok(t@),
    ensures
        r == squash_with(t@, d),
        0 <= r <= 4095,
{
    proof {
        lemma_squash_with_range(t@, d);
    }
    if d > 2047 {
        return 4095;
    }
    if d < -2047 {
        return 0;
    }
    let w = d & 127;
    assert(0 <= w <= 127 && -16 <= d >> 7i32 <= 15) by (bit_vector)
        requires
            -2047 <= d <= 2047,
            w == d & 127i32,
    ;
    let idx = ((d >> 7) + 16) as usize;
    let a = t[idx];
    let b = t[idx + 1];
    assert(0 <= a * (128 - w) + b * w + 64 <= 4094 * 128 + 64) by (nonlinear_arith)
        requires
            1 <= a <= 4094,
            1 <= b <= 4094,
            0 <= w <= 127,
    ;
    (a * (128 - w) + b * w + 64) >> 7
}

/// Logit -> 12-bit probability.
pub fn squash(d: i32) -> (r: i32)
    ensures
        r == spec_squash(d),
        0 <= r <= 4095,
{
    proof {
        lemma_squash_nodes();
    }
    squash_by(&SQUASH_T, d)
}

/// Smallest logit at or above `x` whose probability reaches `q`, or 2047.
pub open spec fn first_at_least_with(t: Seq<i32>, q: int, x: int) -> int
    decreases 2048 - x,
{
    if x > 2047 {
        2047
    } else if squash_with(t, x as i32) >= q {
        x
    } else {
        first_at_least_with(t, q, x + 1)
    }
}

/// Inverse of the curve of nodes `t`: the logit of probability `q`.
pub open spec fn stretch_with(t: Seq<i32>, q: int) -> int {
    first_at_least_with(t, q, -2047)
}

/// Inverse of squash: the logit of probability `q`.
pub open spec fn stretch_of(q: int) -> int {
    stretch_with(squash_nodes(), q)
}

pub proof fn lemma_first_at_least_range(t: Seq<i32>, q: int, x: int)
    requires
        x >= -2047,
    ensures
        -2047 <= first_at_least_with(t, q, x) <= 2047,
    decreases 2048 - x,
{
    if x <= 2047 && squash_with(t, x as i32) < q {
        lemma_first_at_least_range(t, q, x + 1);
    }
}

pub proof fn lemma_stretch_with_range(t: Seq<i32>, q: int)
    ensures
        -2047 <= stretch_with(t, q) <= 2047,
{
    lemma_first_at_least_range(t, q, -2047);
}

pub proof fn lemma_stretch_range(q: int)
    ensures
        -2047 <= stretch_of(q) <= 2047,
{
    lemma_stretch_with_range(squash_nodes(), q);
}

/// stretch[p] for every 12-bit probability p, on the curve of nodes `t`.
pub fn build_stretch_by(t: &[i32; 33]) -> (stretch: Vec<i32>)
    requires
        nodes_ok(t@),
    ensures
        stretch@.len() == 4096,
        forall|q: int| 0 <= q < 4096 ==> stretch@[q] == stretch_with(t@, q),
{
    let mut stretch = vec![0i32; 4096];
    let mut pi: i32 = 0;
    let mut x: i32 = -2047;
    while x <= 2047
        invariant
            -2047 <= x <= 2048,
            0 <= pi <= 4096,
            nodes_ok(t@),
            stretch@.len() == 4096,
            forall|q: int| 0 <= q < pi ==> stretch@[q] == stretch_with(t@, q),
            forall|q: int| pi <= q ==> stretch_with(t@, q) == first_at_least_with(t@, q, x as int),
        decreases 2048 - x,
    {
        let p = squash_by(t, x);
        let ghost pi0 = pi;
        while pi <= p
            invariant
                0 <= pi0 <= pi <= 4096,
                pi == pi0 || pi <= p + 1,
                p == squash_with(t@, x),
                0 <= p <= 4095,
                -2047 <= x <= 2047,
                stretch@.len() == 4096,
                forall|q: int| 0 <= q < pi ==> stretch@[q] == stretch_with(t@, q),
                forall|q: int| pi0 <= q ==> stretch_with(t@, q) == first_at_least_with(t@, q, x as int),
            decreases p + 1 - pi,
        {
            stretch.set(pi as usize, x);
            pi += 1;
        }
        proof {
            assert forall|q: int| pi <= q implies stretch_with(t@, q) == first_at_least_with(t@, q, x + 1) by {
                assert(first_at_least_with(t@, q, x as int) == first_at_least_with(t@, q, x + 1));
            }
        }
        x += 1;
    }
    while (pi as usize) < 4096
        invariant
            0 <= pi <= 4096,
            stretch@.len() == 4096,
            forall|q: int| 0 <= q < pi ==> stretch@[q] == stretch_with(t@, q),
            forall|q: int| pi <= q ==> stretch_with(t@, q) == 2047,
        decreases 4096 - pi,
    {
        stretch.set(pi as usize, 2047);
        pi += 1;
    }
    stretch
}

/// stretch[p] for every 12-bit probability p.
pub fn build_stretch() -> (stretch: Vec<i32>)
    ensures
        stretch@.len() == 4096,
        forall|q: int| 0 <= q < 4096 ==> stretch@[q] == stretch_of(q),
{
    proof {
        lemma_squash_nodes();
    }
    build_stretch_by(&SQUASH_T)
}

/// Hashed table slot of `node` under the context hash `h`.
pub open spec fn spec_hidx(h: u32, node: u32, size: usize) -> usize {
    ((h ^ node.wrapping_mul(0x9E37_79B1u32)).wrapping_mul(0x2545_F491u32) as usize) & ((size
        - 1) as usize)
}

pub fn hidx(h: u32, node: u32, size: usize) -> (r: usize)
    requires
        size >= 1,
    ensures
        r == spec_hidx(h, node, size),
        r < size,
{
    let x = (h ^ node.wrapping_mul(0x9E37_79B1)).wrapping_mul(0x2545_F491);
    let m = size - 1;
    proof {
        crate::bitfacts::lemma_mask_le(x as usize, m);
    }
    (x as usize) & (size - 1)
}

} // verus!
