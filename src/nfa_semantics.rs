//! What an automaton with epsilon edges accepts: the set of states it can
//! be in after each prefix of the text.
use vstd::prelude::*;
use crate::nfa_model::{NfaView, edge};
use vstd::arithmetic::power2::pow2;
use vstd::relations::injective_on;

verus! {

/// The identifiers below `n`.
pub open spec fn ids_below(n: nat) -> Set<u32> {
    Set::new(|s: u32| s < n)
}

/// All sets of identifiers below `n`.
pub open spec fn subsets_below(n: nat) -> Set<Set<u32>> {
    Set::new(|t: Set<u32>| t.subset_of(ids_below(n)))
}

impl NfaView {
    /// `p` is a walk of one or more states along epsilon edges.
    pub open spec fn eps_path(self, p: Seq<u32>) -> bool {
        &&& p.len() >= 1
        &&& forall|i: int| 0 <= i < p.len() - 1 ==> #[trigger] self.transitions.contains(edge(p[i], None, p[i + 1]))
    }

    /// The states reachable from `s` by zero or more epsilon edges.
    pub open spec fn closure(self, s: Set<u32>) -> Set<u32> {
        Set::new(|t: u32| exists|p: Seq<u32>| #[trigger] self.eps_path(p) && s.contains(p[0]) && p.last() == t)
    }

    /// The states reached from `s` by one edge labelled `label`.
    pub open spec fn step(self, s: Set<u32>, label: Option<char>) -> Set<u32> {
        Set::new(|t: u32| exists|u: u32| s.contains(u) && #[trigger] self.transitions.contains(edge(u, label, t)))
    }

    /// The states the automaton can be in after reading `w` from the states `s`.
    pub open spec fn run_from(self, s: Set<u32>, w: Seq<char>) -> Set<u32>
        decreases w.len(),
    {
        if w.len() == 0 {
            s
        } else {
            self.run_from(self.closure(self.step(s, Some(w[0]))), w.skip(1))
        }
    }

    pub open spec fn start(self) -> Set<u32> {
        self.closure(self.initial_states)
    }

    /// Whether some final state is among those reached from `s` by `w`.
    pub open spec fn accepts_from(self, s: Set<u32>, w: Seq<char>) -> bool {
        exists|f: u32| #[trigger] self.run_from(s, w).contains(f) && self.final_states.contains(f)
    }

    /// The language of the automaton.
    pub open spec fn accepts(self, w: Seq<char>) -> bool {
        self.accepts_from(self.start(), w)
    }

    /// Every symbol of `w` is in the alphabet.
    pub open spec fn over_alphabet(self, w: Seq<char>) -> bool {
        forall|j: int| 0 <= j < w.len() ==> self.alphabet.contains(#[trigger] w[j])
    }

    /// The state sets that some text over the alphabet leads to from the start.
    pub open spec fn reachable_subsets(self) -> Set<Set<u32>> {
        Set::new(|t: Set<u32>| exists|w: Seq<char>| self.over_alphabet(w) && t == #[trigger] self.run_from(self.start(), w))
    }

    pub proof fn lemma_run_from_push(self, s: Set<u32>, w: Seq<char>, a: char)
        ensures
            self.run_from(s, w.push(a)) == self.closure(self.step(self.run_from(s, w), Some(a))),
        decreases w.len(),
    {
        if w.len() == 0 {
            assert(w.push(a)[0] == a);
            assert(w.push(a).skip(1).len() == 0);
            let c = self.closure(self.step(s, Some(a)));
            assert(self.run_from(c, w.push(a).skip(1)) == c);
        } else {
            assert(w.push(a)[0] == w[0]);
            assert(w.push(a).skip(1) == w.skip(1).push(a));
            self.lemma_run_from_push(self.closure(self.step(s, Some(w[0]))), w.skip(1), a);
        }
    }

    pub proof fn lemma_closure_below(self, s: Set<u32>)
        requires
            self.wf(),
            s.subset_of(ids_below(self.counter)),
        ensures
            self.closure(s).subset_of(ids_below(self.counter)),
    {
        assert forall|t: u32| self.closure(s).contains(t) implies t < self.counter by {
            let p = choose|p: Seq<u32>| #[trigger] self.eps_path(p) && s.contains(p[0]) && p.last() == t;
            if p.len() > 1 {
                let i = p.len() - 2;
                assert(self.transitions.contains(edge(p[i], None, p[i + 1])));
            }
        }
    }

    pub proof fn lemma_run_below(self, s: Set<u32>, w: Seq<char>)
        requires
            self.wf(),
            s.subset_of(ids_below(self.counter)),
        ensures
            self.run_from(s, w).subset_of(ids_below(self.counter)),
        decreases w.len(),
    {
        if w.len() > 0 {
            let st = self.step(s, Some(w[0]));
            assert forall|t: u32| st.contains(t) implies t < self.counter by {
                let u = choose|u: u32| s.contains(u) && #[trigger] self.transitions.contains(edge(u, Some(w[0]), t));
            }
            self.lemma_closure_below(st);
            self.lemma_run_below(self.closure(st), w.skip(1));
        }
    }

    /// There are at most `2^counter` reachable state sets.
    pub proof fn lemma_reachable_subsets_bound(self)
        requires
            self.wf(),
            self.counter <= u32::MAX,
        ensures
            self.reachable_subsets().finite(),
            self.reachable_subsets().len() <= pow2(self.counter),
    {
        lemma_subsets_below_len(self.counter);
        assert(self.initial_states.subset_of(ids_below(self.counter)));
        self.lemma_closure_below(self.initial_states);
        assert forall|t: Set<u32>| self.reachable_subsets().contains(t) implies subsets_below(self.counter).contains(t) by {
            let w = choose|w: Seq<char>| self.over_alphabet(w) && t == #[trigger] self.run_from(self.start(), w);
            self.lemma_run_below(self.start(), w);
        }
        vstd::set_lib::lemma_set_subset_finite(subsets_below(self.counter), self.reachable_subsets());
        vstd::set_lib::lemma_len_subset(self.reachable_subsets(), subsets_below(self.counter));
    }
}

/// There are `2^n` sets of identifiers below `n`.
pub proof fn lemma_subsets_below_len(n: nat)
    requires
        n <= u32::MAX + 1,
    ensures
        subsets_below(n).finite(),
        subsets_below(n).len() == pow2(n),
    decreases n,
{
    if n == 0 {
        reveal(vstd::arithmetic::power::pow);
        assert(subsets_below(0) =~= set![Set::<u32>::empty()]) by {
            assert forall|t: Set<u32>| subsets_below(0).contains(t) implies t == Set::<u32>::empty() by {
                assert(t =~= Set::<u32>::empty());
            }
        }
        assert(set![Set::<u32>::empty()].len() == 1);
    } else {
        let m = (n - 1) as nat;
        lemma_subsets_below_len(m);
        let lower = subsets_below(m);
        let f = |t: Set<u32>| t.insert(m as u32);
        let raised = lower.map(f);
        assert(injective_on(f, lower)) by {
            assert forall|x: Set<u32>, y: Set<u32>| lower.contains(x) && lower.contains(y) && #[trigger] f(x) == #[trigger] f(y)
                implies x == y by {
                assert(!x.contains(m as u32));
                assert(!y.contains(m as u32));
                assert(x =~= f(x).remove(m as u32));
                assert(y =~= f(y).remove(m as u32));
            }
        }
        vstd::set_lib::lemma_map_size(lower, raised, f);
        assert(lower.disjoint(raised)) by {
            assert forall|t: Set<u32>| lower.contains(t) implies !raised.contains(t) by {
                if raised.contains(t) {
                    let x = choose|x: Set<u32>| lower.contains(x) && f(x) == t;
                    assert(t.contains(m as u32));
                }
            }
        }
        assert(subsets_below(n) =~= lower + raised) by {
            assert forall|t: Set<u32>| subsets_below(n).contains(t) implies (lower + raised).contains(t) by {
                if t.contains(m as u32) {
                    let r = t.remove(m as u32);
                    assert(lower.contains(r));
                    assert(r.insert(m as u32) =~= t);
                    assert(f(r) == t);
                } else {
                    assert(lower.contains(t));
                }
            }
        }
        vstd::set_lib::lemma_set_disjoint_lens(lower, raised);
        vstd::arithmetic::power2::lemma_pow2_unfold(n);
    }
}

} // verus!

verus! {

impl NfaView {
    /// Every epsilon edge out of `u` lands in `r`.
    pub open spec fn closed_at(self, r: Set<u32>, u: u32) -> bool {
        forall|t: u32| #[trigger] self.transitions.contains(edge(u, None, t)) ==> r.contains(t)
    }

    pub proof fn lemma_closure_contains(self, s: Set<u32>, x: u32)
        requires
            s.contains(x),
        ensures
            self.closure(s).contains(x),
    {
        let p = seq![x];
        assert(self.eps_path(p));
        assert(p.last() == x);
    }

    pub proof fn lemma_closure_extend(self, s: Set<u32>, u: u32, t: u32)
        requires
            self.closure(s).contains(u),
            self.transitions.contains(edge(u, None, t)),
        ensures
            self.closure(s).contains(t),
    {
        let p = choose|p: Seq<u32>| #[trigger] self.eps_path(p) && s.contains(p[0]) && p.last() == u;
        let q = p.push(t);
        assert forall|i: int| 0 <= i < q.len() - 1 implies #[trigger] self.transitions.contains(edge(q[i], None, q[i + 1])) by {
            if i < p.len() - 1 {
                assert(q[i] == p[i] && q[i + 1] == p[i + 1]);
            } else {
                assert(q[i] == u && q[i + 1] == t);
            }
        }
        assert(self.eps_path(q));
        assert(q[0] == p[0]);
    }

    /// A set that holds `s` and is closed under epsilon edges holds the closure of `s`.
    pub proof fn lemma_closure_least(self, s: Set<u32>, r: Set<u32>)
        requires
            s.subset_of(r),
            forall|u: u32| #[trigger] r.contains(u) ==> self.closed_at(r, u),
        ensures
            self.closure(s).subset_of(r),
    {
        assert forall|t: u32| self.closure(s).contains(t) implies r.contains(t) by {
            let p = choose|p: Seq<u32>| #[trigger] self.eps_path(p) && s.contains(p[0]) && p.last() == t;
            self.lemma_path_within(p, r, p.len() - 1);
        }
    }

    proof fn lemma_path_within(self, p: Seq<u32>, r: Set<u32>, k: int)
        requires
            self.eps_path(p),
            r.contains(p[0]),
            0 <= k < p.len(),
            forall|u: u32| #[trigger] r.contains(u) ==> self.closed_at(r, u),
        ensures
            r.contains(p[k]),
        decreases k,
    {
        if k > 0 {
            self.lemma_path_within(p, r, k - 1);
            let j = k - 1;
            assert(self.transitions.contains(edge(p[j], None, p[j + 1])));
            assert(self.closed_at(r, p[j]));
        }
    }

    /// Nothing is reached from no state.
    pub proof fn lemma_run_from_empty(self, w: Seq<char>)
        ensures
            self.run_from(Set::empty(), w) == Set::<u32>::empty(),
        decreases w.len(),
    {
        if w.len() > 0 {
            let st = self.step(Set::empty(), Some(w[0]));
            assert(st =~= Set::<u32>::empty());
            assert(self.closure(st) =~= Set::<u32>::empty());
            self.lemma_run_from_empty(w.skip(1));
        }
    }
}

} // verus!
