//! Order-free commitments: a list of byte-string leaves is sorted (byte
//! order, a proper prefix first), each leaf framed by its `u32` length, and
//! the whole hashed after a domain prefix.  Any listing of the same leaves
//! gives the same digest.
use vstd::prelude::*;
use vstd::relations::{sorted_by, total_ordering};
use vstd::seq_lib::lemma_sorted_unique;
use crate::sha::{hex_ascii, hex_bytes, sha256, spec_sha256};
use crate::wire::{append_bytes, push_u32_le, u32_le};

verus! {

broadcast use vstd::seq_lib::group_to_multiset_ensures;

// ---------------------------------------------------------------------------
// Byte-string order.
// ---------------------------------------------------------------------------
/// `a` sorts before `b` judging from byte `i` on (a proper prefix first).
pub open spec fn str_lt_from(a: Seq<u8>, b: Seq<u8>, i: int) -> bool
    decreases a.len() - i,
{
    if i < 0 || i >= b.len() {
        false
    } else if i >= a.len() {
        true
    } else if a[i] < b[i] {
        true
    } else if a[i] > b[i] {
        false
    } else {
        str_lt_from(a, b, i + 1)
    }
}

/// Byte order of strings, as `String`'s `Ord` has it.
pub open spec fn str_lt(a: Seq<u8>, b: Seq<u8>) -> bool {
    str_lt_from(a, b, 0)
}

pub open spec fn str_le(a: Seq<u8>, b: Seq<u8>) -> bool {
    !str_lt(b, a)
}

pub open spec fn str_leq() -> spec_fn(Seq<u8>, Seq<u8>) -> bool {
    |a: Seq<u8>, b: Seq<u8>| str_le(a, b)
}

proof fn lemma_lt_irrefl(a: Seq<u8>, i: int)
    ensures
        !str_lt_from(a, a, i),
    decreases a.len() - i,
{
    if 0 <= i < a.len() {
        lemma_lt_irrefl(a, i + 1);
    }
}

proof fn lemma_lt_trans(a: Seq<u8>, b: Seq<u8>, c: Seq<u8>, i: int)
    requires
        str_lt_from(a, b, i),
        str_lt_from(b, c, i),
    ensures
        str_lt_from(a, c, i),
    decreases a.len() - i,
{
    if i < a.len() && a[i] == b[i] && b[i] == c[i] {
        lemma_lt_trans(a, b, c, i + 1);
    }
}

proof fn lemma_lt_total(a: Seq<u8>, b: Seq<u8>, i: int)
    requires
        0 <= i,
        forall|k: int| 0 <= k < i ==> a[k] == b[k],
        i <= a.len(),
        i <= b.len(),
    ensures
        str_lt_from(a, b, i) || str_lt_from(b, a, i) || a == b,
    decreases a.len() - i,
{
    if i < a.len() && i < b.len() && a[i] == b[i] {
        lemma_lt_total(a, b, i + 1);
    } else if i == a.len() && i == b.len() {
        assert(a =~= b);
    }
}

proof fn lemma_lt_asym(a: Seq<u8>, b: Seq<u8>, i: int)
    requires
        str_lt_from(a, b, i),
    ensures
        !str_lt_from(b, a, i),
    decreases a.len() - i,
{
    if i < a.len() && a[i] == b[i] {
        lemma_lt_asym(a, b, i + 1);
    }
}

/// Byte order is a total order.
pub proof fn lemma_str_order()
    ensures
        total_ordering(str_leq()),
{
    let leq = str_leq();
    assert forall|a: Seq<u8>| #[trigger] leq(a, a) by {
        lemma_lt_irrefl(a, 0);
    }
    assert forall|a: Seq<u8>, b: Seq<u8>| #[trigger] leq(a, b) && #[trigger] leq(b, a) implies a == b by {
        lemma_lt_total(a, b, 0);
    }
    assert forall|a: Seq<u8>, b: Seq<u8>, c: Seq<u8>| #[trigger] leq(a, b) && #[trigger] leq(b, c) implies leq(
        a,
        c,
    ) by {
        lemma_lt_total(a, b, 0);
        lemma_lt_total(b, c, 0);
        if str_lt(c, a) {
            if a != b && b != c {
                lemma_lt_trans(a, b, c, 0);
                lemma_lt_asym(a, c, 0);
            } else if a == b {
            } else {
            }
        }
    }
    assert forall|a: Seq<u8>, b: Seq<u8>| #[trigger] leq(a, b) || #[trigger] leq(b, a) by {
        if str_lt(b, a) {
            lemma_lt_asym(b, a, 0);
        }
    }
}

/// Whether `a` sorts before `b`.
pub fn str_less(a: &[u8], b: &[u8]) -> (r: bool)
    ensures
        r == str_lt(a@, b@),
{
    let mut k: usize = 0;
    while k < a.len() && k < b.len()
        invariant
            k <= a@.len(),
            k <= b@.len(),
            str_lt(a@, b@) == str_lt_from(a@, b@, k as int),
        decreases a.len() - k,
    {
        if a[k] < b[k] {
            return true;
        }
        if a[k] > b[k] {
            return false;
        }
        k += 1;
    }
    k < b.len()
}

// ---------------------------------------------------------------------------
// Sorted leaves.
// ---------------------------------------------------------------------------
/// `s` lists the leaves of `ls` in byte order.
pub open spec fn is_sorted_listing(s: Seq<Seq<u8>>, ls: Seq<Seq<u8>>) -> bool {
    s.to_multiset() == ls.to_multiset() && sorted_by(s, str_leq())
}

/// The leaves of `ls` in byte order.
pub open spec fn sorted_leaves(ls: Seq<Seq<u8>>) -> Seq<Seq<u8>> {
    ls.sort_by(str_leq())
}

/// Each leaf after its length as a `u32`, little-endian.
pub open spec fn framed(ls: Seq<Seq<u8>>) -> Seq<u8>
    decreases ls.len(),
{
    if ls.len() == 0 {
        Seq::empty()
    } else {
        framed(ls.drop_last()) + u32_le(ls.last().len() as u32) + ls.last()
    }
}

/// The commitment to `leaves` under `prefix`: hex of the SHA-256 of the
/// prefix and the framed leaves in byte order.
pub open spec fn fold_digest(prefix: Seq<u8>, leaves: Seq<Seq<u8>>) -> Seq<u8> {
    hex_ascii(spec_sha256(prefix + framed(sorted_leaves(leaves))))
}

pub open spec fn leaf_views(leaves: Seq<Vec<u8>>) -> Seq<Seq<u8>> {
    Seq::new(leaves.len(), |i: int| leaves[i]@)
}

/// A sorted listing is the sorted leaves.
pub proof fn lemma_sorted_listing(s: Seq<Seq<u8>>, ls: Seq<Seq<u8>>)
    requires
        is_sorted_listing(s, ls),
    ensures
        sorted_leaves(ls) == s,
{
    let c = sorted_leaves(ls);
    lemma_str_order();
    ls.lemma_sort_by_ensures(str_leq());
    lemma_sorted_unique(s, c, str_leq());
}

/// The order in which leaves are listed does not change the commitment.
pub proof fn lemma_fold_order_free(prefix: Seq<u8>, l1: Seq<Seq<u8>>, l2: Seq<Seq<u8>>)
    requires
        l1.to_multiset() == l2.to_multiset(),
    ensures
        fold_digest(prefix, l1) == fold_digest(prefix, l2),
{
    lemma_str_order();
    l1.lemma_sort_by_ensures(str_leq());
    lemma_sorted_listing(sorted_leaves(l1), l2);
}

/// Putting `x` before the first element it sorts before keeps a list sorted.
proof fn lemma_insert_sorted(g: Seq<Seq<u8>>, p: int, x: Seq<u8>)
    requires
        0 <= p <= g.len(),
        sorted_by(g, str_leq()),
        forall|q: int| 0 <= q < p ==> !str_lt(x, #[trigger] g[q]),
        p < g.len() ==> str_lt(x, g[p]),
    ensures
        sorted_by(g.insert(p, x), str_leq()),
{
    lemma_str_order();
    let leq = str_leq();
    let g2 = g.insert(p, x);
    g.insert_ensures(p, x);
    assert forall|a: int, b: int| 0 <= a < b < g2.len() implies #[trigger] leq(g2[a], g2[b]) by {
        if b < p {
            assert(g2[a] == g[a] && g2[b] == g[b]);
        } else if b == p {
            assert(g2[a] == g[a]);
            assert(!str_lt(x, g[a]));
        } else if a < p {
            assert(g2[a] == g[a] && g2[b] == g[b - 1]);
            assert(leq(g[a], g[b - 1]));
        } else if a == p {
            assert(g2[b] == g[b - 1]);
            lemma_lt_asym(x, g[p], 0);
            if b - 1 > p {
                assert(leq(g[p], g[b - 1]));
                assert(leq(x, g[p]));
            }
        } else {
            assert(g2[a] == g[a - 1] && g2[b] == g[b - 1]);
            assert(leq(g[a - 1], g[b - 1]));
        }
    }
}

/// The positions of `leaves` in byte order (stable for equal leaves).
fn sort_positions(leaves: &[Vec<u8>]) -> (r: (Vec<usize>, Ghost<Seq<Seq<u8>>>))
    ensures
        r.0@.len() == leaves@.len(),
        r.1@.len() == leaves@.len(),
        forall|p: int| 0 <= p < r.0@.len() ==> (#[trigger] r.0@[p] as int) < leaves@.len() && r.1@[p]
            == leaves@[r.0@[p] as int]@,
        is_sorted_listing(r.1@, leaf_views(leaves@)),
{
    let ghost lv = leaf_views(leaves@);
    let mut o: Vec<usize> = Vec::new();
    let ghost mut g: Seq<Seq<u8>> = Seq::empty();
    let mut i: usize = 0;
    while i < leaves.len()
        invariant
            i <= leaves@.len(),
            lv == leaf_views(leaves@),
            o@.len() == i,
            g.len() == i,
            forall|p: int| 0 <= p < i ==> (#[trigger] o@[p] as int) < i && g[p] == leaves@[o@[p] as int]@,
            g.to_multiset() == lv.take(i as int).to_multiset(),
            sorted_by(g, str_leq()),
        decreases leaves.len() - i,
    {
        // first position whose leaf sorts after x
        let mut p: usize = 0;
        while p < o.len() && !str_less(leaves[i].as_slice(), leaves[o[p]].as_slice())
            invariant
                p <= o@.len(),
                o@.len() == i,
                i < leaves@.len(),
                g.len() == i,
                forall|q: int| 0 <= q < i ==> (#[trigger] o@[q] as int) < i && g[q] == leaves@[o@[q] as int]@,
                forall|q: int| 0 <= q < p ==> !str_lt(leaves@[i as int]@, #[trigger] g[q]),
            decreases o@.len() - p,
        {
            assert(g[p as int] == leaves@[o@[p as int] as int]@);
            p += 1;
        }
        let ghost xv = leaves@[i as int]@;
        let ghost g_prev = g;
        proof {
            lemma_str_order();
            let g2 = g.insert(p as int, xv);
            if p < o@.len() {
                assert(g[p as int] == leaves@[o@[p as int] as int]@);
            }
            lemma_insert_sorted(g, p as int, xv);
            assert(lv.take(i + 1) == lv.take(i as int).push(xv));
            vstd::seq_lib::to_multiset_insert(g, p as int, xv);
            g = g2;
        }
        let ghost o0 = o@;
        o.insert(p, i);
        proof {
            o0.insert_ensures(p as int, i);
            g_prev.insert_ensures(p as int, xv);
            assert forall|q: int| 0 <= q < i + 1 implies (#[trigger] o@[q] as int) < i + 1 && g[q]
                == leaves@[o@[q] as int]@ by {
                if q < p {
                    assert(o@[q] == o0[q]);
                } else if q == p {
                } else {
                    assert(o@[q] == o0[q - 1]);
                }
            }
        }
        i += 1;
    }
    assert(lv.take(leaves@.len() as int) == lv);
    (o, Ghost(g))
}

/// The leaves framed in byte order.
pub fn framed_sorted(leaves: &[Vec<u8>]) -> (out: Vec<u8>)
    ensures
        out@ == framed(sorted_leaves(leaf_views(leaves@))),
{
    let (o, g) = sort_positions(leaves);
    proof {
        lemma_sorted_listing(g@, leaf_views(leaves@));
    }
    let mut out: Vec<u8> = Vec::new();
    let mut p: usize = 0;
    while p < o.len()
        invariant
            p <= o@.len(),
            o@.len() == g@.len(),
            forall|q: int| 0 <= q < o@.len() ==> (#[trigger] o@[q] as int) < leaves@.len() && g@[q]
                == leaves@[o@[q] as int]@,
            out@ == framed(g@.take(p as int)),
        decreases o@.len() - p,
    {
        let leaf = &leaves[o[p]];
        push_u32_le(&mut out, leaf.len() as u32);
        append_bytes(&mut out, leaf.as_slice());
        proof {
            let t = g@.take(p + 1);
            assert(t.drop_last() == g@.take(p as int));
            assert(t.last() == leaf@);
        }
        p += 1;
    }
    assert(g@.take(o@.len() as int) =~= g@);
    out
}

/// Hex of the SHA-256 of `prefix` then the framed leaves in byte order.
pub fn fold_with_prefix(prefix: &[u8], leaves: &[Vec<u8>]) -> (h: Vec<u8>)
    ensures
        h@ == fold_digest(prefix@, leaf_views(leaves@)),
{
    let mut m: Vec<u8> = Vec::new();
    append_bytes(&mut m, prefix);
    let f = framed_sorted(leaves);
    append_bytes(&mut m, f.as_slice());
    let d = sha256(m.as_slice());
    hex_bytes(&d)
}


/// The leaves one after another.
pub open spec fn joined(ls: Seq<Seq<u8>>) -> Seq<u8>
    decreases ls.len(),
{
    if ls.len() == 0 {
        Seq::empty()
    } else {
        joined(ls.drop_last()) + ls.last()
    }
}

/// The leaves joined in byte order, without length frames.
pub fn joined_sorted(leaves: &[Vec<u8>]) -> (out: Vec<u8>)
    ensures
        out@ == joined(sorted_leaves(leaf_views(leaves@))),
{
    let (o, g) = sort_positions(leaves);
    proof {
        lemma_sorted_listing(g@, leaf_views(leaves@));
    }
    let mut out: Vec<u8> = Vec::new();
    let mut p: usize = 0;
    while p < o.len()
        invariant
            p <= o@.len(),
            o@.len() == g@.len(),
            forall|q: int| 0 <= q < o@.len() ==> (#[trigger] o@[q] as int) < leaves@.len() && g@[q]
                == leaves@[o@[q] as int]@,
            out@ == joined(g@.take(p as int)),
        decreases o@.len() - p,
    {
        let leaf = &leaves[o[p]];
        append_bytes(&mut out, leaf.as_slice());
        proof {
            let t = g@.take(p + 1);
            assert(t.drop_last() == g@.take(p as int));
            assert(t.last() == leaf@);
        }
        p += 1;
    }
    assert(g@.take(o@.len() as int) =~= g@);
    out
}

} // verus!
