//! Counting and ordering facts behind partition refinement: states get the
//! dense rank of their key among the distinct keys, in lexicographic order.
use vstd::prelude::*;

verus! {

/// How many indices below `n` satisfy `p`.
pub open spec fn count_up_to(n: nat, p: spec_fn(int) -> bool) -> nat
    decreases n,
{
    if n == 0 {
        0
    } else {
        count_up_to((n - 1) as nat, p) + if p(n - 1) {
            1nat
        } else {
            0nat
        }
    }
}

pub proof fn lemma_count_bound(n: nat, p: spec_fn(int) -> bool)
    ensures
        count_up_to(n, p) <= n,
    decreases n,
{
    if n > 0 {
        lemma_count_bound((n - 1) as nat, p);
    }
}

/// Counting a weaker predicate gives no less, and more when it holds somewhere
/// that the stronger one does not.
pub proof fn lemma_count_mono(n: nat, p: spec_fn(int) -> bool, q: spec_fn(int) -> bool)
    requires
        forall|i: int| 0 <= i < n && #[trigger] p(i) ==> q(i),
    ensures
        count_up_to(n, p) <= count_up_to(n, q),
        (exists|i: int| 0 <= i < n && #[trigger] q(i) && !p(i)) ==> count_up_to(n, p) < count_up_to(n, q),
    decreases n,
{
    if n > 0 {
        lemma_count_mono((n - 1) as nat, p, q);
        if exists|i: int| 0 <= i < n && #[trigger] q(i) && !p(i) {
            let i = choose|i: int| 0 <= i < n && #[trigger] q(i) && !p(i);
            if i < n - 1 {
                assert(exists|j: int| 0 <= j < n - 1 && #[trigger] q(j) && !p(j));
            }
        }
    }
}

pub proof fn lemma_count_all(n: nat, p: spec_fn(int) -> bool)
    requires
        forall|i: int| 0 <= i < n ==> #[trigger] p(i),
    ensures
        count_up_to(n, p) == n,
    decreases n,
{
    if n > 0 {
        lemma_count_all((n - 1) as nat, p);
    }
}

/// Lexicographic order on sequences of equal length.
pub open spec fn lex_less(x: Seq<u32>, y: Seq<u32>) -> bool
    decreases x.len(),
{
    if x.len() == 0 || y.len() == 0 {
        false
    } else if x[0] < y[0] {
        true
    } else if x[0] > y[0] {
        false
    } else {
        lex_less(x.skip(1), y.skip(1))
    }
}

pub proof fn lemma_lex_irreflexive(x: Seq<u32>)
    ensures
        !lex_less(x, x),
    decreases x.len(),
{
    if x.len() > 0 {
        lemma_lex_irreflexive(x.skip(1));
    }
}

pub proof fn lemma_lex_transitive(x: Seq<u32>, y: Seq<u32>, z: Seq<u32>)
    requires
        lex_less(x, y),
        lex_less(y, z),
    ensures
        lex_less(x, z),
    decreases x.len(),
{
    if x[0] == y[0] && y[0] == z[0] {
        lemma_lex_transitive(x.skip(1), y.skip(1), z.skip(1));
    }
}

pub proof fn lemma_lex_total(x: Seq<u32>, y: Seq<u32>)
    requires
        x.len() == y.len(),
        x != y,
    ensures
        lex_less(x, y) || lex_less(y, x),
    decreases x.len(),
{
    if x.len() == 0 {
        assert(x =~= y);
    } else if x[0] == y[0] {
        if x.skip(1) == y.skip(1) {
            assert(x =~= y) by {
                assert forall|i: int| 0 <= i < x.len() implies x[i] == y[i] by {
                    if i > 0 {
                        assert(x.skip(1)[i - 1] == y.skip(1)[i - 1]);
                    }
                }
            }
        }
        lemma_lex_total(x.skip(1), y.skip(1));
    }
}

/// No earlier index holds the same key as `t`.
pub open spec fn first_key(keys: Seq<Seq<u32>>, t: int) -> bool {
    forall|u: int| 0 <= u < t ==> keys[u] != keys[t]
}

/// The first occurrences of keys below `x`.
pub open spec fn ranks_below(keys: Seq<Seq<u32>>, x: Seq<u32>) -> spec_fn(int) -> bool {
    |t: int| first_key(keys, t) && lex_less(keys[t], x)
}

/// The number of distinct keys that come before `x`.
pub open spec fn rank(keys: Seq<Seq<u32>>, x: Seq<u32>) -> nat {
    count_up_to(keys.len(), ranks_below(keys, x))
}

/// No earlier index holds the same value as `t`.
pub open spec fn first_val(v: Seq<u32>, t: int) -> bool {
    forall|u: int| 0 <= u < t ==> v[u] != v[t]
}

pub open spec fn first_vals(v: Seq<u32>) -> spec_fn(int) -> bool {
    |t: int| first_val(v, t)
}

/// The number of distinct values of `v`.
pub open spec fn value_count(v: Seq<u32>) -> nat {
    count_up_to(v.len(), first_vals(v))
}

pub proof fn lemma_first_val_occurrence(v: Seq<u32>, t: int)
    requires
        0 <= t < v.len(),
    ensures
        exists|f: int| 0 <= f <= t && v[f] == v[t] && first_val(v, f),
    decreases t,
{
    if !first_val(v, t) {
        assert(exists|u: int| 0 <= u < t && v[u] == v[t]);
        let u = choose|u: int| 0 <= u < t && v[u] == v[t];
        lemma_first_val_occurrence(v, u);
    } else {
        assert(v[t] == v[t]);
    }
}

/// Splitting some class of `c` into several classes of `d` raises the
/// number of classes.
pub proof fn lemma_value_count_grows(c: Seq<u32>, d: Seq<u32>, s: int, t: int)
    requires
        c.len() == d.len(),
        forall|x: int, y: int| 0 <= x < c.len() && 0 <= y < c.len() && #[trigger] d[x] == #[trigger] d[y] ==> c[x] == c[y],
        0 <= s < c.len(),
        0 <= t < c.len(),
        c[s] == c[t],
        d[s] != d[t],
    ensures
        value_count(c) < value_count(d),
{
    let p = first_vals(c);
    let q = first_vals(d);
    assert forall|x: int| 0 <= x < c.len() && #[trigger] p(x) implies q(x) by {
        assert forall|u: int| 0 <= u < x implies d[u] != d[x] by {
            if d[u] == d[x] {
                assert(c[u] == c[x]);
            }
        }
    }
    lemma_first_val_occurrence(d, s);
    lemma_first_val_occurrence(d, t);
    let f1 = choose|f: int| 0 <= f <= s && d[f] == d[s] && first_val(d, f);
    let f2 = choose|f: int| 0 <= f <= t && d[f] == d[t] && first_val(d, f);
    assert(c[f1] == c[s]);
    assert(c[f2] == c[t]);
    if f1 < f2 {
        assert(q(f2) && !p(f2));
    } else {
        assert(f2 < f1);
        assert(q(f1) && !p(f1));
    }
    lemma_count_mono(c.len(), p, q);
}

pub proof fn lemma_first_occurrence(keys: Seq<Seq<u32>>, t: int)
    requires
        0 <= t < keys.len(),
    ensures
        exists|f: int| 0 <= f <= t && keys[f] == keys[t] && first_key(keys, f),
    decreases t,
{
    if !first_key(keys, t) {
        assert(exists|u: int| 0 <= u < t && keys[u] == keys[t]);
        let u = choose|u: int| 0 <= u < t && keys[u] == keys[t];
        lemma_first_occurrence(keys, u);
    } else {
        assert(keys[t] == keys[t]);
    }
}

/// Keys of one length that differ have different ranks, in their order.
pub proof fn lemma_rank_order(keys: Seq<Seq<u32>>, s: int, t: int)
    requires
        0 <= s < keys.len(),
        0 <= t < keys.len(),
        lex_less(keys[s], keys[t]),
    ensures
        rank(keys, keys[s]) < rank(keys, keys[t]),
{
    let p = ranks_below(keys, keys[s]);
    let q = ranks_below(keys, keys[t]);
    assert forall|u: int| 0 <= u < keys.len() && #[trigger] p(u) implies q(u) by {
        lemma_lex_transitive(keys[u], keys[s], keys[t]);
    }
    lemma_first_occurrence(keys, s);
    let f = choose|f: int| 0 <= f <= s && keys[f] == keys[s] && first_key(keys, f);
    lemma_lex_irreflexive(keys[s]);
    assert(q(f) && !p(f));
    lemma_count_mono(keys.len(), p, q);
}

/// States with different keys of one length get different ranks.
pub proof fn lemma_rank_injective(keys: Seq<Seq<u32>>, s: int, t: int)
    requires
        0 <= s < keys.len(),
        0 <= t < keys.len(),
        keys[s].len() == keys[t].len(),
        keys[s] != keys[t],
    ensures
        rank(keys, keys[s]) != rank(keys, keys[t]),
{
    lemma_lex_total(keys[s], keys[t]);
    if lex_less(keys[s], keys[t]) {
        lemma_rank_order(keys, s, t);
    } else {
        lemma_rank_order(keys, t, s);
    }
}

} // verus!

verus! {

pub proof fn lemma_count_plus_one(n: nat, p: spec_fn(int) -> bool, q: spec_fn(int) -> bool, x: int)
    requires
        0 <= x < n,
        forall|i: int| 0 <= i < n ==> (#[trigger] q(i) <==> p(i) || i == x),
        !p(x),
    ensures
        count_up_to(n, q) == count_up_to(n, p) + 1,
    decreases n,
{
    if n - 1 == x {
        lemma_count_same((n - 1) as nat, p, q);
    } else {
        lemma_count_plus_one((n - 1) as nat, p, q, x);
    }
}

pub proof fn lemma_count_same(n: nat, p: spec_fn(int) -> bool, q: spec_fn(int) -> bool)
    requires
        forall|i: int| 0 <= i < n ==> (#[trigger] q(i) <==> p(i)),
    ensures
        count_up_to(n, q) == count_up_to(n, p),
    decreases n,
{
    if n > 0 {
        lemma_count_same((n - 1) as nat, p, q);
    }
}

pub proof fn lemma_count_witness(n: nat, p: spec_fn(int) -> bool)
    requires
        count_up_to(n, p) > 0,
    ensures
        exists|i: int| 0 <= i < n && #[trigger] p(i),
    decreases n,
{
    if !p(n - 1) {
        lemma_count_witness((n - 1) as nat, p);
        let i = choose|i: int| 0 <= i < n - 1 && #[trigger] p(i);
    }
}

/// Index `m` satisfies `p` and holds a key no smaller than any other below `n` that does.
pub open spec fn greatest_among(keys: Seq<Seq<u32>>, n: nat, p: spec_fn(int) -> bool, m: int) -> bool {
    &&& 0 <= m < n
    &&& p(m)
    &&& forall|i: int| 0 <= i < n && #[trigger] p(i) ==> !lex_less(keys[m], keys[i])
}

/// Among the indices below `n` that satisfy `p`, one holds a greatest key.
pub proof fn lemma_greatest_key(keys: Seq<Seq<u32>>, n: nat, p: spec_fn(int) -> bool)
    requires
        n <= keys.len(),
        exists|i: int| 0 <= i < n && #[trigger] p(i),
        forall|i: int, j: int| 0 <= i < keys.len() && 0 <= j < keys.len() ==> #[trigger] keys[i].len() == #[trigger] keys[j].len(),
    ensures
        exists|m: int| #[trigger] greatest_among(keys, n, p, m),
    decreases n,
{
    if exists|i: int| 0 <= i < n - 1 && #[trigger] p(i) {
        lemma_greatest_key(keys, (n - 1) as nat, p);
        let m = choose|m: int| #[trigger] greatest_among(keys, (n - 1) as nat, p, m);
        if p(n - 1) && lex_less(keys[m], keys[n - 1]) {
            assert forall|i: int| 0 <= i < n && #[trigger] p(i) implies !lex_less(keys[n - 1], keys[i]) by {
                if i < n - 1 && lex_less(keys[n - 1], keys[i]) {
                    lemma_lex_transitive(keys[m], keys[n - 1], keys[i]);
                }
                if i == n - 1 {
                    lemma_lex_irreflexive(keys[i]);
                }
            }
            assert(greatest_among(keys, n, p, n - 1));
        } else {
            assert forall|i: int| 0 <= i < n && #[trigger] p(i) implies !lex_less(keys[m], keys[i]) by {}
            assert(greatest_among(keys, n, p, m));
        }
    } else {
        let i0 = choose|i: int| 0 <= i < n && #[trigger] p(i);
        assert(i0 == n - 1);
        assert forall|i: int| 0 <= i < n && #[trigger] p(i) implies !lex_less(keys[n - 1], keys[i]) by {
            assert(i == n - 1);
            lemma_lex_irreflexive(keys[i]);
        }
        assert(greatest_among(keys, n, p, n - 1));
    }
}

/// The ranks leave no gaps: below every positive rank there is the rank
/// one less.
pub proof fn lemma_rank_dense(keys: Seq<Seq<u32>>, s: int)
    requires
        0 <= s < keys.len(),
        rank(keys, keys[s]) > 0,
        forall|i: int, j: int| 0 <= i < keys.len() && 0 <= j < keys.len() ==> #[trigger] keys[i].len() == #[trigger] keys[j].len(),
    ensures
        exists|t: int| 0 <= t < keys.len() && rank(keys, keys[t]) + 1 == rank(keys, keys[s]),
{
    let n = keys.len();
    let ps = ranks_below(keys, keys[s]);
    lemma_count_witness(n, ps);
    lemma_greatest_key(keys, n, ps);
    let m = choose|m: int| #[trigger] greatest_among(keys, n, ps, m);
    let pm = ranks_below(keys, keys[m]);
    assert forall|u: int| 0 <= u < n implies (#[trigger] ps(u) <==> pm(u) || u == m) by {
        if pm(u) {
            lemma_lex_transitive(keys[u], keys[m], keys[s]);
        }
        if ps(u) && !pm(u) && u != m {
            assert(!lex_less(keys[m], keys[u]));
            if keys[u] != keys[m] {
                lemma_lex_total(keys[u], keys[m]);
            } else {
                if u < m {
                    assert(!first_key(keys, m));
                } else {
                    assert(!first_key(keys, u));
                }
            }
        }
    }
    lemma_lex_irreflexive(keys[m]);
    lemma_count_plus_one(n, pm, ps, m);
}

} // verus!
