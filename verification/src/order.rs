//! Ordering indices by 32-byte keys (lexicographic, ties by index), as the
//! seeded permutations (codebooks, block orders) need.
use vstd::prelude::*;

verus! {

/// `a` sorts before `b` from byte `i` on.
pub open spec fn lex_lt(a: Seq<u8>, b: Seq<u8>, i: int) -> bool
    decreases a.len() - i,
{
    if i < 0 || i >= a.len() || i >= b.len() {
        false
    } else if a[i] < b[i] {
        true
    } else if a[i] > b[i] {
        false
    } else {
        lex_lt(a, b, i + 1)
    }
}

/// Key order: bytes lexicographically, then the index.
pub open spec fn key_lt(a: Seq<u8>, ai: int, b: Seq<u8>, bi: int) -> bool {
    lex_lt(a, b, 0) || (a == b && ai < bi)
}

/// Index `x` sorts before index `y` under `keys`.
pub open spec fn klt(keys: Seq<Seq<u8>>, x: int, y: int) -> bool {
    key_lt(keys[x], x, keys[y], y)
}

pub open spec fn key_views(keys: Seq<[u8; 32]>) -> Seq<Seq<u8>> {
    Seq::new(keys.len(), |i: int| keys[i]@)
}

/// `o` lists `0..n`, each once.
pub open spec fn is_perm(o: Seq<usize>, n: nat) -> bool {
    &&& o.len() == n
    &&& forall|p: int| 0 <= p < n ==> (#[trigger] o[p] as int) < n
    &&& forall|p: int, q: int| 0 <= p < q < n ==> #[trigger] o[p] != #[trigger] o[q]
    &&& forall|v: int| 0 <= v < n ==> #[trigger] covers(o, v)
}

/// `v` occurs in `o`.
pub open spec fn covers(o: Seq<usize>, v: int) -> bool {
    exists|p: int| 0 <= p < o.len() && o[p] as int == v
}

/// `o` is in strictly increasing key order.
pub open spec fn sorted_by(keys: Seq<Seq<u8>>, o: Seq<usize>) -> bool {
    forall|p: int, q: int| 0 <= p < q < o.len() ==> klt(keys, #[trigger] o[p] as int, #[trigger] o[q] as int)
}

proof fn lemma_lex_irrefl(a: Seq<u8>, i: int)
    ensures
        !lex_lt(a, a, i),
    decreases a.len() - i,
{
    if 0 <= i < a.len() {
        lemma_lex_irrefl(a, i + 1);
    }
}

proof fn lemma_lex_trans(a: Seq<u8>, b: Seq<u8>, c: Seq<u8>, i: int)
    requires
        lex_lt(a, b, i),
        lex_lt(b, c, i),
    ensures
        lex_lt(a, c, i),
    decreases a.len() - i,
{
    if a[i] == b[i] && b[i] == c[i] {
        lemma_lex_trans(a, b, c, i + 1);
    }
}

proof fn lemma_lex_asym(a: Seq<u8>, b: Seq<u8>, i: int)
    requires
        lex_lt(a, b, i),
    ensures
        !lex_lt(b, a, i),
    decreases a.len() - i,
{
    if a[i] == b[i] {
        lemma_lex_asym(a, b, i + 1);
    }
}

proof fn lemma_lex_total(a: Seq<u8>, b: Seq<u8>, i: int)
    requires
        a.len() == b.len(),
        0 <= i <= a.len(),
    ensures
        lex_lt(a, b, i) || lex_lt(b, a, i) || (forall|k: int| i <= k < a.len() ==> a[k] == b[k]),
    decreases a.len() - i,
{
    if i < a.len() {
        lemma_lex_total(a, b, i + 1);
    }
}

pub proof fn lemma_key_trans(a: Seq<u8>, ai: int, b: Seq<u8>, bi: int, c: Seq<u8>, ci: int)
    requires
        key_lt(a, ai, b, bi),
        key_lt(b, bi, c, ci),
    ensures
        key_lt(a, ai, c, ci),
{
    if lex_lt(a, b, 0) && lex_lt(b, c, 0) {
        lemma_lex_trans(a, b, c, 0);
    }
}

pub proof fn lemma_key_asym(a: Seq<u8>, ai: int, b: Seq<u8>, bi: int)
    requires
        key_lt(a, ai, b, bi),
    ensures
        !key_lt(b, bi, a, ai),
{
    if lex_lt(a, b, 0) {
        lemma_lex_asym(a, b, 0);
        if b == a {
            lemma_lex_irrefl(a, 0);
        }
    } else {
        lemma_lex_irrefl(a, 0);
    }
}

pub proof fn lemma_key_total(a: Seq<u8>, ai: int, b: Seq<u8>, bi: int)
    requires
        a.len() == b.len(),
        ai != bi,
    ensures
        key_lt(a, ai, b, bi) || key_lt(b, bi, a, ai),
{
    lemma_lex_total(a, b, 0);
    if !lex_lt(a, b, 0) && !lex_lt(b, a, 0) {
        assert(a =~= b);
    }
}

/// Whether key (`a`, `ai`) sorts before key (`b`, `bi`).
pub fn key_less(a: &[u8; 32], ai: usize, b: &[u8; 32], bi: usize) -> (r: bool)
    ensures
        r == key_lt(a@, ai as int, b@, bi as int),
{
    let mut k: usize = 0;
    while k < 32
        invariant
            k <= 32,
            a@.len() == 32,
            b@.len() == 32,
            forall|t: int| 0 <= t < k ==> a@[t] == b@[t],
            lex_lt(a@, b@, 0) == lex_lt(a@, b@, k as int),
        decreases 32 - k,
    {
        if a[k] < b[k] {
            return true;
        }
        if a[k] > b[k] {
            proof {
                lemma_lex_asym(b@, a@, k as int);
            }
            return false;
        }
        k += 1;
    }
    assert(a@ =~= b@);
    ai < bi
}

/// The indices `0..keys.len()` in increasing key order.
pub fn sort_indices(keys: &Vec<[u8; 32]>) -> (o: Vec<usize>)
    ensures
        is_perm(o@, keys@.len()),
        sorted_by(key_views(keys@), o@),
{
    let ghost kv = key_views(keys@);
    let n = keys.len();
    let mut o: Vec<usize> = Vec::new();
    let mut i: usize = 0;
    while i < n
        invariant
            i <= n,
            n == keys@.len(),
            o@.len() == i,
            forall|p: int| 0 <= p < i ==> #[trigger] o@[p] == p,
        decreases n - i,
    {
        o.push(i);
        i += 1;
    }
    let mut i: usize = 1;
    assert forall|v: int| 0 <= v < n implies #[trigger] covers(o@, v) by {
        assert(o@[v] as int == v);
    }
    if n == 0 {
        return o;
    }
    while i < n
        invariant
            1 <= i <= n,
            n == keys@.len(),
            kv == key_views(keys@),
            is_perm(o@, n as nat),
            forall|p: int, q: int| 0 <= p < q < i ==> klt(kv, #[trigger] o@[p] as int, #[trigger] o@[q] as int),
        decreases n - i,
    {
        let mut j: usize = i;
        while j > 0 && key_less(&keys[o[j]], o[j], &keys[o[j - 1]], o[j - 1])
            invariant
                j <= i < n,
                n == keys@.len(),
                kv == key_views(keys@),
                is_perm(o@, n as nat),
                forall|p: int, q: int| 0 <= p < q < j ==> klt(kv, #[trigger] o@[p] as int, #[trigger] o@[q] as int),
                forall|p: int, q: int| j < p < q <= i ==> klt(kv, #[trigger] o@[p] as int, #[trigger] o@[q] as int),
                forall|p: int, q: int| 0 <= p < j && j < q <= i ==> klt(kv, #[trigger] o@[p] as int, #[trigger] o@[q] as int),
                forall|q: int| j < q <= i ==> klt(kv, o@[j as int] as int, #[trigger] o@[q] as int),
            decreases j,
        {
            let a = o[j];
            let b = o[j - 1];
            let ghost o0 = o@;
            o.set(j, b);
            o.set(j - 1, a);
            proof {
                assert forall|v: int| 0 <= v < n implies #[trigger] covers(o@, v) by {
                    assert(covers(o0, v));
                    let p = choose|p: int| 0 <= p < o0.len() && o0[p] as int == v;
                    if p == j {
                        assert(o@[j - 1] as int == v);
                    } else if p == j - 1 {
                        assert(o@[j as int] as int == v);
                    } else {
                        assert(o@[p] as int == v);
                    }
                }
            }
            j -= 1;
        }
        proof {
            if j > 0 {
                let x = o@[j as int] as int;
                let y = o@[j - 1] as int;
                assert(x != y);
                lemma_key_total(kv[x], x, kv[y], y);
                assert forall|p: int| 0 <= p < j implies klt(kv, #[trigger] o@[p] as int, x) by {
                    if p < j - 1 {
                        lemma_key_trans(kv[o@[p] as int], o@[p] as int, kv[y], y, kv[x], x);
                    }
                }
            }
            assert forall|p: int, q: int| 0 <= p < q < i + 1 implies klt(
                kv,
                #[trigger] o@[p] as int,
                #[trigger] o@[q] as int,
            ) by {
                if p < j && q == j {
                } else if p == j {
                } else if p < j && q > j {
                } else if q < j {
                } else {
                }
            }
        }
        i += 1;
    }
    o
}

/// The increasing key order of `0..keys.len()`.
pub open spec fn key_order(keys: Seq<Seq<u8>>) -> Seq<usize> {
    choose|o: Seq<usize>| is_perm(o, keys.len()) && sorted_by(keys, o)
}

/// There is one increasing order of a set of keys.
pub proof fn lemma_sorted_perm_unique(keys: Seq<Seq<u8>>, o1: Seq<usize>, o2: Seq<usize>)
    requires
        is_perm(o1, keys.len()),
        is_perm(o2, keys.len()),
        sorted_by(keys, o1),
        sorted_by(keys, o2),
    ensures
        o1 == o2,
{
    let n = keys.len() as int;
    assert forall|k: int| 0 <= k < n implies #[trigger] o1[k] == o2[k] by {
        lemma_prefix_equal(keys, o1, o2, k);
    }
    assert(o1 =~= o2);
}

proof fn lemma_prefix_equal(keys: Seq<Seq<u8>>, o1: Seq<usize>, o2: Seq<usize>, k: int)
    requires
        is_perm(o1, keys.len()),
        is_perm(o2, keys.len()),
        sorted_by(keys, o1),
        sorted_by(keys, o2),
        0 <= k < keys.len(),
    ensures
        o1[k] == o2[k],
    decreases k,
{
    let n = keys.len() as int;
    assert forall|q: int| 0 <= q < k implies o1[q] == o2[q] by {
        lemma_prefix_equal(keys, o1, o2, q);
    }
    let x = o1[k] as int;
    let y = o2[k] as int;
    if x != y {
        assert(covers(o2, x));
        let q2 = choose|p: int| 0 <= p < o2.len() && o2[p] as int == x;
        assert(covers(o1, y));
        let q1 = choose|p: int| 0 <= p < o1.len() && o1[p] as int == y;
        if q2 < k {
            assert(o1[q2] == o2[q2]);
        }
        if q1 < k {
            assert(o1[q1] == o2[q1]);
        }
        assert(q2 > k);
        assert(q1 > k);
        assert(klt(keys, o2[k] as int, o2[q2] as int));
        assert(klt(keys, o1[k] as int, o1[q1] as int));
        lemma_key_asym(keys[y], y, keys[x], x);
    }
}

/// `sort_indices` gives the increasing key order.
pub proof fn lemma_is_key_order(keys: Seq<Seq<u8>>, o: Seq<usize>)
    requires
        is_perm(o, keys.len()),
        sorted_by(keys, o),
    ensures
        o == key_order(keys),
{
    let c = key_order(keys);
    assert(is_perm(c, keys.len()) && sorted_by(keys, c));
    lemma_sorted_perm_unique(keys, o, c);
}

/// First position of `o` whose index sorts after `x` (or `o.len()`).
pub open spec fn insert_pos(keys: Seq<Seq<u8>>, o: Seq<usize>, x: int, from: int) -> int
    decreases o.len() - from,
{
    if from >= o.len() || from < 0 {
        o.len() as int
    } else if klt(keys, x, o[from] as int) {
        from
    } else {
        insert_pos(keys, o, x, from + 1)
    }
}

proof fn lemma_insert_pos(keys: Seq<Seq<u8>>, o: Seq<usize>, x: int, from: int)
    requires
        0 <= from <= o.len(),
    ensures
        from <= insert_pos(keys, o, x, from) <= o.len(),
        forall|q: int| from <= q < insert_pos(keys, o, x, from) ==> !klt(keys, x, #[trigger] o[q] as int),
        insert_pos(keys, o, x, from) < o.len() ==> klt(keys, x, o[insert_pos(keys, o, x, from)] as int),
    decreases o.len() - from,
{
    if from < o.len() && !klt(keys, x, o[from] as int) {
        lemma_insert_pos(keys, o, x, from + 1);
    }
}

/// Every set of equal-length keys has an increasing order.
pub proof fn lemma_key_order_exists(keys: Seq<Seq<u8>>, n: nat)
    requires
        n <= keys.len(),
        keys.len() <= usize::MAX,
        forall|i: int, j: int| 0 <= i < keys.len() && 0 <= j < keys.len() ==> (#[trigger] keys[i]).len()
            == (#[trigger] keys[j]).len(),
    ensures
        exists|o: Seq<usize>| #[trigger] is_perm(o, n) && sorted_by(keys, o),
    decreases n,
{
    if n == 0 {
        let o = Seq::<usize>::empty();
        assert(is_perm(o, 0) && sorted_by(keys, o));
    } else {
        lemma_key_order_exists(keys, (n - 1) as nat);
        let o = choose|o: Seq<usize>| #[trigger] is_perm(o, (n - 1) as nat) && sorted_by(keys, o);
        let x = (n - 1) as int;
        lemma_insert_pos(keys, o, x, 0);
        let p = insert_pos(keys, o, x, 0);
        let o2 = Seq::new(
            n,
            |a: int|
                if a < p {
                    o[a]
                } else if a == p {
                    x as usize
                } else {
                    o[a - 1]
                },
        );
        assert(o2[p] as int == x);
        assert forall|q: int| 0 <= q < p implies klt(keys, #[trigger] o[q] as int, x) by {
            assert(o[q] as int != x);
            lemma_key_total(keys[o[q] as int], o[q] as int, keys[x], x);
        }
        assert(is_perm(o2, n)) by {
            assert forall|a: int, b: int| 0 <= a < b < n implies #[trigger] o2[a] != #[trigger] o2[b] by {
                if a < p && b < p {
                } else if a < p && b == p {
                } else if a < p {
                    assert(o2[b] == o[b - 1]);
                } else if a == p {
                    assert(o2[b] == o[b - 1]);
                } else {
                    assert(o2[a] == o[a - 1] && o2[b] == o[b - 1]);
                }
            }
            assert forall|v: int| 0 <= v < n implies #[trigger] covers(o2, v) by {
                if v == x {
                    assert(o2[p] as int == v);
                } else {
                    assert(covers(o, v));
                    let q = choose|q: int| 0 <= q < o.len() && o[q] as int == v;
                    if q < p {
                        assert(o2[q] as int == v);
                    } else {
                        assert(o2[q + 1] as int == v);
                    }
                }
            }
            assert forall|a: int| 0 <= a < n implies (#[trigger] o2[a] as int) < n by {
                if a < p {
                } else if a > p {
                    assert(o2[a] == o[a - 1]);
                }
            }
        }
        assert(sorted_by(keys, o2)) by {
            assert forall|a: int, b: int| 0 <= a < b < o2.len() implies klt(keys, #[trigger] o2[a] as int, #[trigger] o2[b] as int) by {
                if a < p && b < p {
                    assert(o2[a] == o[a] && o2[b] == o[b]);
                } else if a < p && b == p {
                    assert(o2[a] == o[a]);
                } else if a < p {
                    assert(o2[a] == o[a] && o2[b] == o[b - 1]);
                    assert(klt(keys, o[a] as int, x));
                    lemma_key_trans(keys[o[a] as int], o[a] as int, keys[x], x, keys[o[p] as int], o[p] as int);
                    if b - 1 > p {
                        lemma_key_trans(keys[o[a] as int], o[a] as int, keys[o[p] as int], o[p] as int, keys[o[b - 1] as int], o[b - 1] as int);
                    }
                } else if a == p {
                    assert(o2[b] == o[b - 1]);
                    if b - 1 > p {
                        lemma_key_trans(keys[x], x, keys[o[p] as int], o[p] as int, keys[o[b - 1] as int], o[b - 1] as int);
                    }
                } else {
                    assert(o2[a] == o[a - 1] && o2[b] == o[b - 1]);
                }
            }
        }
    }
}

/// The increasing order of equal-length keys lists every index once.
pub proof fn lemma_key_order_perm(keys: Seq<Seq<u8>>)
    requires
        forall|i: int, j: int| 0 <= i < keys.len() && 0 <= j < keys.len() ==> (#[trigger] keys[i]).len()
            == (#[trigger] keys[j]).len(),
        keys.len() <= usize::MAX,
    ensures
        is_perm(key_order(keys), keys.len()),
        sorted_by(keys, key_order(keys)),
{
    lemma_key_order_exists(keys, keys.len());
}

} // verus!
