//! Sets of state identifiers below a bound, kept as bitmaps.
use vstd::prelude::*;

verus! {

/// The identifiers whose entry in `v` is set.
pub open spec fn bits(v: Seq<bool>) -> Set<u32> {
    Set::new(|s: u32| s < v.len() && v[s as int])
}

/// How many entries of `v` are clear.
pub open spec fn count_clear(v: Seq<bool>) -> nat
    decreases v.len(),
{
    if v.len() == 0 {
        0
    } else {
        count_clear(v.drop_last()) + if v.last() {
            0nat
        } else {
            1nat
        }
    }
}

pub proof fn lemma_count_clear_set(v: Seq<bool>, i: int)
    requires
        0 <= i < v.len(),
        !v[i],
    ensures
        count_clear(v.update(i, true)) + 1 == count_clear(v),
    decreases v.len(),
{
    let u = v.update(i, true);
    if i == v.len() - 1 {
        assert(u.drop_last() == v.drop_last());
    } else {
        assert(u.drop_last() == v.drop_last().update(i, true));
        lemma_count_clear_set(v.drop_last(), i);
    }
}

pub proof fn lemma_bits_injective(a: Seq<bool>, b: Seq<bool>)
    requires
        a.len() == b.len(),
        a.len() <= u32::MAX + 1,
        bits(a) == bits(b),
    ensures
        a == b,
{
    assert forall|i: int| 0 <= i < a.len() implies a[i] == b[i] by {
        let s = i as u32;
        assert(s as int == i);
        assert(bits(a).contains(s) == bits(b).contains(s));
        assert(bits(a).contains(s) == a[i]);
        assert(bits(b).contains(s) == b[i]);
    }
    assert(a =~= b);
}

/// A bitmap of length `n` with the entries of `v` set.
pub fn to_bits(v: &Vec<u32>, n: usize) -> (r: Vec<bool>)
    requires
        forall|i: int| 0 <= i < v.len() ==> v@[i] < n,
        n <= u32::MAX + 1,
    ensures
        r@.len() == n,
        bits(r@) == v@.to_set(),
{
    let mut r: Vec<bool> = Vec::new();
    let mut i: usize = 0;
    while i < n
        invariant
            i <= n,
            r@.len() == i,
            forall|j: int| 0 <= j < i ==> !r@[j],
        decreases n - i,
    {
        r.push(false);
        i = i + 1;
    }
    let mut k: usize = 0;
    while k < v.len()
        invariant
            k <= v.len(),
            r@.len() == n,
            n <= u32::MAX + 1,
            forall|i: int| 0 <= i < v.len() ==> v@[i] < n,
            bits(r@) == v@.take(k as int).to_set(),
        decreases v.len() - k,
    {
        let s = v[k];
        r.set(s as usize, true);
        proof {
            assert(v@.take(k + 1) == v@.take(k as int).push(s));
            v@.take(k as int).lemma_push_to_set_commute(s);
            assert(bits(r@) =~= v@.take(k + 1).to_set());
        }
        k = k + 1;
    }
    proof {
        assert(v@.take(k as int) == v@);
    }
    r
}

/// The identifiers set in `v`, in increasing order.
pub fn from_bits(v: &Vec<bool>) -> (r: Vec<u32>)
    requires
        v.len() <= u32::MAX + 1,
    ensures
        r@.to_set() == bits(v@),
{
    let mut r: Vec<u32> = Vec::new();
    let mut i: usize = 0;
    while i < v.len()
        invariant
            i <= v.len(),
            v.len() <= u32::MAX + 1,
            r@.to_set() == Set::new(|s: u32| s < i && v@[s as int]),
        decreases v.len() - i,
    {
        let ghost before = r@;
        if v[i] {
            r.push(i as u32);
            proof {
                before.lemma_push_to_set_commute(i as u32);
            }
        }
        proof {
            assert(r@.to_set() =~= Set::new(|s: u32| s < i + 1 && v@[s as int]));
        }
        i = i + 1;
    }
    proof {
        assert(r@.to_set() =~= bits(v@));
    }
    r
}

pub fn copy_bits(v: &Vec<bool>) -> (r: Vec<bool>)
    ensures
        r@ == v@,
{
    let mut r: Vec<bool> = Vec::new();
    let mut i: usize = 0;
    while i < v.len()
        invariant
            i <= v.len(),
            r@ == v@.take(i as int),
        decreases v.len() - i,
    {
        r.push(v[i]);
        proof {
            assert(v@.take(i + 1) == v@.take(i as int).push(v@[i as int]));
        }
        i = i + 1;
    }
    proof {
        assert(v@.take(i as int) == v@);
    }
    r
}

pub fn same_bits(a: &Vec<bool>, b: &Vec<bool>) -> (r: bool)
    ensures
        r == (a@ == b@),
{
    if a.len() != b.len() {
        return false;
    }
    let mut i: usize = 0;
    while i < a.len()
        invariant
            i <= a.len(),
            a.len() == b.len(),
            forall|j: int| 0 <= j < i ==> a@[j] == b@[j],
        decreases a.len() - i,
    {
        if a[i] != b[i] {
            return false;
        }
        i = i + 1;
    }
    proof {
        assert(a@ =~= b@);
    }
    true
}

} // verus!
