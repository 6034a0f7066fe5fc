//! Finite sets kept as vectors: membership is what counts, and inserting
//! an element that is already present leaves the vector as it is.
use vstd::prelude::*;
use crate::transition::Transition;

verus! {

pub fn contains_u32(v: &Vec<u32>, x: u32) -> (r: bool)
    ensures
        r == v@.contains(x),
{
    let mut i: usize = 0;
    while i < v.len()
        invariant
            i <= v.len(),
            forall|j: int| 0 <= j < i ==> v@[j] != x,
        decreases v.len() - i,
    {
        if v[i] == x {
            return true;
        }
        i = i + 1;
    }
    false
}

pub fn insert_u32(v: &mut Vec<u32>, x: u32)
    ensures
        final(v)@.to_set() == old(v)@.to_set().insert(x),
        final(v)@.len() <= old(v)@.len() + 1,
        old(v)@.no_duplicates() ==> final(v)@.no_duplicates(),
{
    let ghost before = v@;
    if !contains_u32(v, x) {
        v.push(x);
        proof {
            before.lemma_push_to_set_commute(x);
        }
    } else {
        assert(before.to_set().insert(x) =~= before.to_set());
    }
}

pub fn contains_char(v: &Vec<char>, x: char) -> (r: bool)
    ensures
        r == v@.contains(x),
{
    let mut i: usize = 0;
    while i < v.len()
        invariant
            i <= v.len(),
            forall|j: int| 0 <= j < i ==> v@[j] != x,
        decreases v.len() - i,
    {
        if v[i] == x {
            return true;
        }
        i = i + 1;
    }
    false
}

pub fn insert_char(v: &mut Vec<char>, x: char)
    ensures
        final(v)@.to_set() == old(v)@.to_set().insert(x),
{
    let ghost before = v@;
    if !contains_char(v, x) {
        v.push(x);
        proof {
            before.lemma_push_to_set_commute(x);
        }
    } else {
        assert(before.to_set().insert(x) =~= before.to_set());
    }
}

pub fn label_eq(a: Option<char>, b: Option<char>) -> (r: bool)
    ensures
        r == (a == b),
{
    match (a, b) {
        (None, None) => true,
        (Some(x), Some(y)) => x == y,
        _ => false,
    }
}

pub fn contains_edge(v: &Vec<Transition<Option<char>>>, t: Transition<Option<char>>) -> (r: bool)
    ensures
        r == v@.contains(t),
{
    let mut i: usize = 0;
    while i < v.len()
        invariant
            i <= v.len(),
            forall|j: int| 0 <= j < i ==> v@[j] != t,
        decreases v.len() - i,
    {
        let e = v[i];
        if e.from == t.from && e.to == t.to && label_eq(e.label, t.label) {
            return true;
        }
        i = i + 1;
    }
    false
}

pub fn insert_edge(v: &mut Vec<Transition<Option<char>>>, t: Transition<Option<char>>)
    ensures
        final(v)@.to_set() == old(v)@.to_set().insert(t),
{
    let ghost before = v@;
    if !contains_edge(v, t) {
        v.push(t);
        proof {
            before.lemma_push_to_set_commute(t);
        }
    } else {
        assert(before.to_set().insert(t) =~= before.to_set());
    }
}

pub fn contains_dfa_edge(v: &Vec<Transition<char>>, t: Transition<char>) -> (r: bool)
    ensures
        r == v@.contains(t),
{
    let mut i: usize = 0;
    while i < v.len()
        invariant
            i <= v.len(),
            forall|j: int| 0 <= j < i ==> v@[j] != t,
        decreases v.len() - i,
    {
        let e = v[i];
        if e.from == t.from && e.to == t.to && e.label == t.label {
            return true;
        }
        i = i + 1;
    }
    false
}

pub fn insert_dfa_edge(v: &mut Vec<Transition<char>>, t: Transition<char>)
    ensures
        final(v)@.to_set() == old(v)@.to_set().insert(t),
{
    let ghost before = v@;
    if !contains_dfa_edge(v, t) {
        v.push(t);
        proof {
            before.lemma_push_to_set_commute(t);
        }
    } else {
        assert(before.to_set().insert(t) =~= before.to_set());
    }
}

} // verus!

verus! {

pub fn extend_u32(dst: &mut Vec<u32>, src: &Vec<u32>)
    ensures
        final(dst)@.to_set() == old(dst)@.to_set() + src@.to_set(),
{
    let ghost start = dst@.to_set();
    let mut i: usize = 0;
    while i < src.len()
        invariant
            i <= src.len(),
            dst@.to_set() == start + src@.take(i as int).to_set(),
        decreases src.len() - i,
    {
        insert_u32(dst, src[i]);
        proof {
            assert(src@.take(i + 1) == src@.take(i as int).push(src@[i as int]));
            src@.take(i as int).lemma_push_to_set_commute(src@[i as int]);
        }
        i = i + 1;
    }
    proof {
        assert(src@.take(i as int) == src@);
    }
}

pub fn extend_char(dst: &mut Vec<char>, src: &Vec<char>)
    ensures
        final(dst)@.to_set() == old(dst)@.to_set() + src@.to_set(),
{
    let ghost start = dst@.to_set();
    let mut i: usize = 0;
    while i < src.len()
        invariant
            i <= src.len(),
            dst@.to_set() == start + src@.take(i as int).to_set(),
        decreases src.len() - i,
    {
        insert_char(dst, src[i]);
        proof {
            assert(src@.take(i + 1) == src@.take(i as int).push(src@[i as int]));
            src@.take(i as int).lemma_push_to_set_commute(src@[i as int]);
        }
        i = i + 1;
    }
    proof {
        assert(src@.take(i as int) == src@);
    }
}

pub fn extend_edges(dst: &mut Vec<Transition<Option<char>>>, src: &Vec<Transition<Option<char>>>)
    ensures
        final(dst)@.to_set() == old(dst)@.to_set() + src@.to_set(),
{
    let ghost start = dst@.to_set();
    let mut i: usize = 0;
    while i < src.len()
        invariant
            i <= src.len(),
            dst@.to_set() == start + src@.take(i as int).to_set(),
        decreases src.len() - i,
    {
        insert_edge(dst, src[i]);
        proof {
            assert(src@.take(i + 1) == src@.take(i as int).push(src@[i as int]));
            src@.take(i as int).lemma_push_to_set_commute(src@[i as int]);
        }
        i = i + 1;
    }
    proof {
        assert(src@.take(i as int) == src@);
    }
}

} // verus!

verus! {

pub fn copy_chars(v: &Vec<char>) -> (r: Vec<char>)
    ensures
        r@ == v@,
{
    let mut r: Vec<char> = Vec::new();
    let mut i: usize = 0;
    while i < v.len()
        invariant
            i <= v.len(),
            r@ == v@.take(i as int),
        decreases v.len() - i,
    {
        r.push(v[i]);
        proof {
            assert(v@.take(i + 1) == v@.take(i as int).push(v@[i as int]));
        }
        i = i + 1;
    }
    proof {
        assert(v@.take(i as int) == v@);
    }
    r
}

/// The identifiers `0..n`, in order.
pub fn ids_upto(n: u32) -> (r: Vec<u32>)
    ensures
        r@.len() == n,
        forall|i: int| 0 <= i < n ==> r@[i] == i,
        forall|s: u32| r@.contains(s) <==> s < n,
{
    let mut r: Vec<u32> = Vec::new();
    let mut i: u32 = 0;
    while i < n
        invariant
            i <= n,
            r@.len() == i,
            forall|j: int| 0 <= j < i ==> r@[j] == j,
        decreases n - i,
    {
        r.push(i);
        i = i + 1;
    }
    proof {
        assert forall|s: u32| r@.contains(s) <==> s < n by {
            if s < n {
                assert(r@[s as int] == s);
            }
        }
    }
    r
}

} // verus!

verus! {

/// The distinct symbols of `v` in increasing order.
pub fn sorted_chars(v: &Vec<char>) -> (r: Vec<char>)
    ensures
        r@.to_set() == v@.to_set(),
        forall|i: int, j: int| 0 <= i < j < r@.len() ==> r@[i] < r@[j],
{
    let mut r: Vec<char> = Vec::new();
    let mut i: usize = 0;
    while i < v.len()
        invariant
            i <= v.len(),
            r@.to_set() == v@.take(i as int).to_set(),
            forall|a: int, b: int| 0 <= a < b < r@.len() ==> r@[a] < r@[b],
        decreases v.len() - i,
    {
        let c = v[i];
        let ghost before = r@;
        if !contains_char(&r, c) {
            let mut p: usize = 0;
            while p < r.len() && r[p] < c
                invariant
                    p <= r@.len(),
                    forall|a: int| 0 <= a < p ==> r@[a] < c,
                decreases r@.len() - p,
            {
                p = p + 1;
            }
            r.insert(p, c);
            proof {
                assert(r@ == before.insert(p as int, c));
                assert forall|a: int, b: int| 0 <= a < b < r@.len() implies r@[a] < r@[b] by {
                    if b < p {
                    } else if b == p {
                        assert(r@[a] == before[a]);
                    } else if a < p {
                        assert(r@[b] == before[b - 1]);
                        assert(before[p as int] >= c);
                        assert(before[p as int] != c);
                        if b - 1 > p {
                            assert(before[p as int] < before[b - 1]);
                        }
                    } else if a == p {
                        assert(r@[b] == before[b - 1]);
                        assert(before[b - 1] != c);
                        if b - 1 > p {
                            assert(before[p as int] < before[b - 1]);
                        }
                        assert(!(before[b - 1] < c)) by {
                            if before[b - 1] < c {
                                assert(before[p as int] >= c);
                            }
                        }
                    } else {
                        assert(r@[a] == before[a - 1]);
                        assert(r@[b] == before[b - 1]);
                    }
                }
                assert forall|x: char| r@.contains(x) <==> before.contains(x) || x == c by {
                    if r@.contains(x) {
                        let k = choose|k: int| 0 <= k < r@.len() && r@[k] == x;
                        if k < p {
                            assert(before[k] == x);
                        } else if k > p {
                            assert(before[k - 1] == x);
                        }
                    }
                    if before.contains(x) {
                        let k = choose|k: int| 0 <= k < before.len() && before[k] == x;
                        if k < p {
                            assert(r@[k] == x);
                        } else {
                            assert(r@[k + 1] == x);
                        }
                    }
                    if x == c {
                        assert(r@[p as int] == c);
                    }
                }
            }
        }
        proof {
            assert(v@.take(i + 1) == v@.take(i as int).push(c));
            v@.take(i as int).lemma_push_to_set_commute(c);
            assert(r@.to_set() =~= v@.take(i + 1).to_set());
        }
        i = i + 1;
    }
    proof {
        assert(v@.take(i as int) == v@);
    }
    r
}

} // verus!
