//! Subset construction: from an automaton with epsilon edges to a total
//! deterministic one over the same alphabet.
use vstd::prelude::*;
use crate::bits::{bits, count_clear, lemma_count_clear_set, lemma_bits_injective, to_bits, from_bits, copy_bits, same_bits};
use crate::counter::Counter;
use crate::dfa::{DFA, dedge, lemma_first_target};
use crate::nfa::NFA;
use crate::nfa_model::{NfaView, edge};
use vstd::arithmetic::power2::pow2;
use crate::transition::Transition;

verus! {

pub struct Determinizer {
    pub nfa: NFA,
    pub dfa: DFA,
}

impl Determinizer {
    pub fn new(new_nfa: NFA) -> (r: Self)
        ensures
            r.nfa == new_nfa,
    {
        Determinizer { nfa: new_nfa, dfa: DFA::new() }
    }

    pub fn take(self) -> (r: DFA)
        ensures
            r == self.dfa,
    {
        self.dfa
    }

    /// The epsilon closure of the set `start`, as a bitmap.
    #[verifier::spinoff_prover]
    fn closure_bits(&self, start: &Vec<bool>) -> (r: Vec<bool>)
        requires
            self.nfa.wf(),
            start@.len() == self.nfa.counter.value,
        ensures
            r@.len() == start@.len(),
            bits(r@) == self.nfa@.closure(bits(start@)),
    {
        let ghost a = self.nfa@;
        let ghost s0 = bits(start@);
        let n = start.len();
        let mut res = copy_bits(start);
        let mut work: Vec<u32> = Vec::new();
        let mut k: usize = 0;
        while k < n
            invariant
                k <= n,
                n <= u32::MAX,
                n == start@.len(),
                n == a.counter,
                res@ == start@,
                forall|i: int| 0 <= i < work@.len() ==> work@[i] < n && res@[work@[i] as int],
                forall|u: u32| u < k && #[trigger] res@[u as int] ==> work@.contains(u),
            decreases n - k,
        {
            if start[k] {
                let ghost before = work@;
                work.push(k as u32);
                proof {
                    assert(work@[before.len() as int] == k as u32);
                    assert forall|u: u32| u < k + 1 && #[trigger] res@[u as int] implies work@.contains(u) by {
                        if u < k {
                            let j = choose|j: int| 0 <= j < before.len() && before[j] == u;
                            assert(work@[j] == u);
                        }
                    }
                }
            }
            k = k + 1;
        }
        proof {
            assert forall|u: u32| s0.contains(u) implies self.nfa@.closure(s0).contains(u) by {
                a.lemma_closure_contains(s0, u);
            }
        }
        while work.len() > 0
            invariant
                n == start@.len(),
                n == a.counter,
                a == self.nfa@,
                a.wf(),
                res@.len() == n,
                s0 == bits(start@),
                s0.subset_of(bits(res@)),
                bits(res@).subset_of(a.closure(s0)),
                forall|i: int| 0 <= i < work@.len() ==> work@[i] < n && res@[work@[i] as int],
                forall|u: u32| #[trigger] bits(res@).contains(u) ==> work@.contains(u) || a.closed_at(bits(res@), u),
            decreases count_clear(res@), work@.len(),
        {
            let ghost wold = work@;
            let u = work.pop().unwrap();
            let ghost popped = work@;
            proof {
                assert(wold == popped.push(u));
                assert forall|v: u32| #[trigger] bits(res@).contains(v) implies popped.contains(v) || v == u
                    || a.closed_at(bits(res@), v) by {
                    if wold.contains(v) && v != u {
                        let i = choose|i: int| 0 <= i < wold.len() && wold[i] == v;
                        assert(popped[i] == v);
                    }
                }
                assert(bits(res@).contains(u)) by {
                    assert(wold[wold.len() - 1] == u);
                }
            }
            let ghost clear0 = count_clear(res@);
            let succ = self.nfa.reachable(u, None);
            let mut j: usize = 0;
            while j < succ.len()
                invariant
                    n == start@.len(),
                    n == a.counter,
                    a == self.nfa@,
                    a.wf(),
                    res@.len() == n,
                    s0 == bits(start@),
                    s0.subset_of(bits(res@)),
                    bits(res@).subset_of(a.closure(s0)),
                    bits(res@).contains(u),
                    j <= succ@.len(),
                    succ@.to_set() == Set::new(|t: u32| a.transitions.contains(edge(u, None, t))),
                    forall|i: int| 0 <= i < j ==> res@[succ@[i] as int] && succ@[i] < n,
                    forall|i: int| 0 <= i < work@.len() ==> work@[i] < n && res@[work@[i] as int],
                    forall|v: u32| #[trigger] bits(res@).contains(v) ==> work@.contains(v) || v == u || a.closed_at(bits(res@), v),
                    count_clear(res@) <= clear0,
                    count_clear(res@) == clear0 ==> work@ == popped,
                decreases succ@.len() - j,
            {
                let t = succ[j];
                proof {
                    assert(succ@.to_set().contains(t));
                    assert(a.transitions.contains(edge(u, None, t)));
                    assert(a.states.contains(t));
                }
                if !res[t as usize] {
                    let ghost before_res = res@;
                    let ghost before_work = work@;
                    proof {
                        lemma_count_clear_set(res@, t as int);
                        a.lemma_closure_extend(s0, u, t);
                    }
                    res.set(t as usize, true);
                    work.push(t);
                    proof {
                        assert(bits(res@) =~= bits(before_res).insert(t));
                        assert(work@[before_work.len() as int] == t);
                        assert forall|v: u32| #[trigger] bits(res@).contains(v) implies work@.contains(v) || v == u
                            || a.closed_at(bits(res@), v) by {
                            if v != t && bits(before_res).contains(v) && before_work.contains(v) {
                                let i = choose|i: int| 0 <= i < before_work.len() && before_work[i] == v;
                                assert(work@[i] == v);
                            }
                        }
                    }
                }
                j = j + 1;
            }
            proof {
                assert(a.closed_at(bits(res@), u)) by {
                    assert forall|t: u32| #[trigger] a.transitions.contains(edge(u, None, t)) implies bits(res@).contains(t) by {
                        assert(succ@.to_set().contains(t));
                        let i = choose|i: int| 0 <= i < succ@.len() && succ@[i] == t;
                    }
                }
            }
        }
        proof {
            a.lemma_closure_least(s0, bits(res@));
            assert(bits(res@) =~= a.closure(s0));
        }
        res
    }
}

} // verus!

verus! {

/// The index of `t` among `found`, if it is there.
fn find_set(found: &Vec<Vec<bool>>, t: &Vec<bool>) -> (r: Option<usize>)
    ensures
        r matches Some(k) ==> k < found@.len() && found@[k as int]@ == t@,
        r is None ==> forall|k: int| 0 <= k < found@.len() ==> found@[k]@ != t@,
{
    let mut k: usize = 0;
    while k < found.len()
        invariant
            k <= found@.len(),
            forall|j: int| 0 <= j < k ==> found@[j]@ != t@,
        decreases found@.len() - k,
    {
        if same_bits(&found[k], t) {
            return Some(k);
        }
        k = k + 1;
    }
    None
}

impl Determinizer {
    /// The states that some state of `start` reaches by one edge labelled
    /// `wanted_label`, as a bitmap.
    #[verifier::spinoff_prover]
    fn reachable_from_set(&self, start: &Vec<bool>, wanted_label: Option<char>) -> (r: Vec<bool>)
        requires
            self.nfa.wf(),
            start@.len() == self.nfa.counter.value,
        ensures
            r@.len() == start@.len(),
            bits(r@) == self.nfa@.step(bits(start@), wanted_label),
    {
        let ghost a = self.nfa@;
        let n = start.len();
        let empty: Vec<u32> = Vec::new();
        let mut res = to_bits(&empty, n);
        let mut u: usize = 0;
        while u < n
            invariant
                u <= n,
                n == start@.len(),
                n == a.counter,
                a == self.nfa@,
                a.wf(),
                res@.len() == n,
                bits(res@) == Set::new(|t: u32| exists|v: u32| v < u && start@[v as int]
                    && #[trigger] a.transitions.contains(edge(v, wanted_label, t))),
            decreases n - u,
        {
            let ghost before = bits(res@);
            if start[u] {
                let succ = self.nfa.reachable(u as u32, wanted_label);
                let ghost mid = bits(res@);
                let mut j: usize = 0;
                while j < succ.len()
                    invariant
                        u < n,
                        n == a.counter,
                        a == self.nfa@,
                        a.wf(),
                        res@.len() == n,
                        j <= succ@.len(),
                        succ@.to_set() == Set::new(|t: u32| a.transitions.contains(edge(u as u32, wanted_label, t))),
                        bits(res@) == mid + succ@.take(j as int).to_set(),
                    decreases succ@.len() - j,
                {
                    let t = succ[j];
                    proof {
                        assert(succ@.to_set().contains(t));
                        assert(a.states.contains(t));
                    }
                    let ghost br = res@;
                    res.set(t as usize, true);
                    proof {
                        assert(succ@.take(j + 1) == succ@.take(j as int).push(t));
                        succ@.take(j as int).lemma_push_to_set_commute(t);
                        assert(bits(res@) =~= bits(br).insert(t));
                        assert(bits(res@) =~= mid + succ@.take(j + 1).to_set());
                    }
                    j = j + 1;
                }
                proof {
                    assert(succ@.take(j as int) == succ@);
                }
            }
            proof {
                assert(bits(res@) =~= Set::new(|t: u32| exists|v: u32| v < u + 1 && start@[v as int]
                    && #[trigger] a.transitions.contains(edge(v, wanted_label, t)))) by {
                    assert forall|t: u32| (exists|v: u32| v < u + 1 && start@[v as int]
                        && #[trigger] a.transitions.contains(edge(v, wanted_label, t))) implies bits(res@).contains(t) by {
                        let v = choose|v: u32| v < u + 1 && start@[v as int]
                            && #[trigger] a.transitions.contains(edge(v, wanted_label, t));
                        if v < u {
                            assert(before.contains(t));
                        } else {
                            assert(v == u);
                        }
                    }
                }
            }
            u = u + 1;
        }
        proof {
            assert forall|t: u32| #[trigger] a.step(bits(start@), wanted_label).contains(t) implies bits(res@).contains(t) by {
                let v = choose|v: u32| bits(start@).contains(v) && #[trigger] a.transitions.contains(edge(v, wanted_label, t));
            }
            assert(bits(res@) =~= a.step(bits(start@), wanted_label));
        }
        res
    }

    /// The states reachable from `starting_states` by zero or more epsilon edges.
    pub fn epsilon_closure(&self, starting_states: &Vec<u32>) -> (r: Vec<u32>)
        requires
            self.nfa.wf(),
            forall|i: int| 0 <= i < starting_states@.len() ==> starting_states@[i] < self.nfa.counter.value,
        ensures
            r@.to_set() == self.nfa@.closure(starting_states@.to_set()),
    {
        let start = to_bits(starting_states, self.nfa.counter.value as usize);
        let closed = self.closure_bits(&start);
        from_bits(&closed)
    }

    /// Whether the state set `set` holds a final state of the automaton.
    fn meets_final(&self, set: &Vec<bool>) -> (r: bool)
        ensures
            r == exists|f: u32| #[trigger] bits(set@).contains(f) && self.nfa@.final_states.contains(f),
    {
        let mut i: usize = 0;
        while i < self.nfa.final_states.len()
            invariant
                i <= self.nfa.final_states@.len(),
                forall|j: int| 0 <= j < i ==> !bits(set@).contains(#[trigger] self.nfa.final_states@[j]),
            decreases self.nfa.final_states@.len() - i,
        {
            let f = self.nfa.final_states[i];
            if (f as usize) < set.len() && set[f as usize] {
                proof {
                    assert(bits(set@).contains(f));
                    assert(self.nfa@.final_states.contains(f));
                }
                return true;
            }
            i = i + 1;
        }
        proof {
            assert forall|f: u32| #[trigger] bits(set@).contains(f) implies !self.nfa@.final_states.contains(f) by {
                if self.nfa@.final_states.contains(f) {
                    let j = choose|j: int| 0 <= j < self.nfa.final_states@.len() && self.nfa.final_states@[j] == f;
                }
            }
        }
        false
    }
}

} // verus!

verus! {

/// Every edge of `trans` joins two of `sets` as the subset construction
/// does: its target is the closure of what its source reaches on its label.
pub open spec fn subset_edges(a: NfaView, sets: Seq<Set<u32>>, trans: Seq<Transition<char>>) -> bool {
    forall|e: Transition<char>| #[trigger] trans.contains(e) ==> {
        &&& e.from < sets.len()
        &&& e.to < sets.len()
        &&& a.alphabet.contains(e.label)
        &&& sets[e.to as int] == a.closure(a.step(sets[e.from as int], Some(e.label)))
    }
}

/// Some edge of `trans` leaves `s` on `c`.
pub open spec fn covers(trans: Seq<Transition<char>>, s: u32, c: char) -> bool {
    exists|t: u32| #[trigger] trans.contains(dedge(s, c, t))
}

/// A state set holds a final state.
pub open spec fn holds_final(a: NfaView, s: Set<u32>) -> bool {
    exists|f: u32| #[trigger] s.contains(f) && a.final_states.contains(f)
}

/// Reading a text of symbols of the alphabet from state `k` leads to the
/// state that stands for the state set the text leads to from `sets[k]`.
pub proof fn lemma_subset_run(a: NfaView, sets: Seq<Set<u32>>, d: DFA, k: u32, w: Seq<char>)
    requires
        subset_edges(a, sets, d.transitions@),
        forall|s: u32, c: char| s < sets.len() && a.alphabet.contains(c) ==> #[trigger] covers(d.transitions@, s, c),
        k < sets.len(),
        forall|j: int| 0 <= j < w.len() ==> a.alphabet.contains(#[trigger] w[j]),
    ensures
        d.run(k, w) is Some,
        d.run(k, w)->0 < sets.len(),
        sets[d.run(k, w)->0 as int] == a.run_from(sets[k as int], w),
    decreases w.len(),
{
    if w.len() > 0 {
        let c = w[0];
        d.lemma_run_step(k, w);
        lemma_first_target(d.transitions@, k, c);
        assert(covers(d.transitions@, k, c));
        let t = choose|t: u32| #[trigger] d.transitions@.contains(dedge(k, c, t));
        assert(d.transitions@.contains(dedge(k, c, t)));
        let j = d.delta(k, c)->0;
        assert(d.transitions@.contains(dedge(k, c, j)));
        assert forall|i: int| 0 <= i < w.skip(1).len() implies a.alphabet.contains(#[trigger] w.skip(1)[i]) by {
            assert(w.skip(1)[i] == w[i + 1]);
        }
        lemma_subset_run(a, sets, d, j, w.skip(1));
    }
}

/// What a text leads to from a closed set is closed.
proof fn lemma_run_closed(a: NfaView, s: Set<u32>, w: Seq<char>)
    requires
        a.closure(s) == s,
    ensures
        a.closure(a.run_from(s, w)) == a.run_from(s, w),
    decreases w.len(),
{
    if w.len() > 0 {
        let c = a.closure(a.step(s, Some(w[0])));
        a.lemma_closure_facts(a.step(s, Some(w[0])));
        a.lemma_closure_of_closed(c);
        lemma_run_closed(a, c, w.skip(1));
    }
}

/// A symbol outside the alphabet leads nowhere.
proof fn lemma_foreign_symbol(a: NfaView, s: Set<u32>, c: char)
    requires
        a.wf(),
        !a.alphabet.contains(c),
    ensures
        a.closure(a.step(s, Some(c))) == Set::<u32>::empty(),
{
    let st = a.step(s, Some(c));
    assert forall|x: u32| !st.contains(x) by {
        if st.contains(x) {
            let u = choose|u: u32| s.contains(u) && #[trigger] a.transitions.contains(edge(u, Some(c), x));
        }
    }
    let cl = a.closure(st);
    assert forall|x: u32| !cl.contains(x) by {
        if cl.contains(x) {
            let p = choose|p: Seq<u32>| #[trigger] a.eps_path(p) && st.contains(p[0]) && p.last() == x;
        }
    }
    assert(cl =~= Set::<u32>::empty());
}

/// A deterministic automaton whose state `k` stands for the state set
/// `sets[k]` accepts from `k` what the nondeterministic one accepts from `sets[k]`.
#[verifier::spinoff_prover]
pub proof fn lemma_subset_language(a: NfaView, sets: Seq<Set<u32>>, d: DFA, k: u32, w: Seq<char>)
    requires
        a.wf(),
        subset_edges(a, sets, d.transitions@),
        forall|s: u32, c: char| s < sets.len() && a.alphabet.contains(c) ==> #[trigger] covers(d.transitions@, s, c),
        forall|s: u32| s < sets.len() ==> (#[trigger] d.final_states@.contains(s) <==> holds_final(a, sets[s as int])),
        k < sets.len(),
    ensures
        d.accepts_from(k, w) == a.accepts_from(sets[k as int], w),
    decreases w.len(),
{
    if w.len() == 0 {
        assert(a.run_from(sets[k as int], w) == sets[k as int]);
        assert(d.final_states@.contains(k) <==> holds_final(a, sets[k as int]));
    } else {
        let c = w[0];
        let next = a.closure(a.step(sets[k as int], Some(c)));
        lemma_first_target(d.transitions@, k, c);
        d.lemma_run_step(k, w);
        assert(a.run_from(sets[k as int], w) == a.run_from(next, w.skip(1)));
        if a.alphabet.contains(c) {
            assert(covers(d.transitions@, k, c));
            let t = choose|t: u32| #[trigger] d.transitions@.contains(dedge(k, c, t));
            assert(d.transitions@.contains(dedge(k, c, t)));
            let j = d.delta(k, c)->0;
            assert(d.transitions@.contains(dedge(k, c, j)));
            lemma_subset_language(a, sets, d, j, w.skip(1));
        } else {
            assert(d.delta(k, c) is None) by {
                assert forall|t: u32| !d.transitions@.contains(dedge(k, c, t)) by {
                    if d.transitions@.contains(dedge(k, c, t)) {
                        assert(a.alphabet.contains(dedge(k, c, t).label));
                    }
                }
            }
            lemma_foreign_symbol(a, sets[k as int], c);
            a.lemma_run_from_empty(w.skip(1));
        }
    }
}

} // verus!

verus! {

/// `d` is the subset construction of `a`, its state `k` standing for the
/// state set `sets[k]`: the sets are the distinct state sets that texts over
/// the alphabet lead to from the start, each closed under epsilon edges, and
/// state `0` stands for the start; an edge on a symbol leads to the closure of
/// what its source's set reaches on that symbol, and a state is final exactly
/// when its set holds a final state of `a`.
pub open spec fn subset_automaton(a: NfaView, sets: Seq<Set<u32>>, d: DFA) -> bool {
    &&& sets.len() == d.counter.value
    &&& sets.no_duplicates()
    &&& sets[0] == a.start()
    &&& forall|k: int| 0 <= k < sets.len() ==> a.closure(#[trigger] sets[k]) == sets[k]
    &&& subset_edges(a, sets, d.transitions@)
    &&& forall|s: u32| s < sets.len() ==> (#[trigger] d.final_states@.contains(s) <==> holds_final(a, sets[s as int]))
    &&& sets.to_set() == a.reachable_subsets()
}

/// What the finished subset construction has: a total automaton that
/// accepts what `a` does, with every state reached from state `0`.
#[verifier::spinoff_prover]
#[verifier::rlimit(100)]
proof fn lemma_subset_result(a: NfaView, sets: Seq<Set<u32>>, words: Seq<Seq<char>>, dfa: DFA)
    requires
        a.wf(),
        sets.len() == dfa.counter.value,
        words.len() == sets.len(),
        1 <= sets.len(),
        forall|k: int| 0 <= k < sets.len() ==> #[trigger] sets[k] == a.run_from(a.start(), words[k]),
        forall|k: int, j: int| 0 <= k < words.len() && 0 <= j < words[k].len() ==> a.alphabet.contains(#[trigger] words[k][j]),
        sets.no_duplicates(),
        sets[0] == a.start(),
        a.initial_states == Set::<u32>::empty() ==> sets.len() == 1 && a.start() == Set::<u32>::empty(),
        subset_edges(a, sets, dfa.transitions@),
        forall|s: u32, c: char| s < sets.len() && a.alphabet.contains(c) ==> #[trigger] covers(dfa.transitions@, s, c),
        forall|s: u32| #[trigger] dfa.final_states@.contains(s) <==> s < sets.len() && holds_final(a, sets[s as int]),
        dfa.alphabet@.to_set() == a.alphabet,
        forall|s: u32| dfa.states@.contains(s) <==> s < dfa.counter.value,
        dfa.initial_state == (if a.initial_states == Set::<u32>::empty() {
            None
        } else {
            Some(0u32)
        }),
    ensures
        dfa.total(),
        forall|s: u32| s < dfa.counter.value ==> dfa.reaches(0, s),
        a.initial_states == Set::<u32>::empty() ==> dfa.counter.value == 1 && forall|x: u32| !dfa.final_states@.contains(x),
        forall|w: Seq<char>| dfa.accepts(w) == a.accepts(w),
        subset_automaton(a, sets, dfa),
        dfa.counter.value == a.reachable_subsets().len(),
{
    let count = dfa.counter.value;
    assert forall|k: int| 0 <= k < sets.len() implies a.closure(#[trigger] sets[k]) == sets[k] by {
        a.lemma_closure_facts(a.initial_states);
        a.lemma_closure_of_closed(a.start());
        lemma_run_closed(a, a.start(), words[k]);
    }
    assert(sets.to_set() =~= a.reachable_subsets()) by {
        assert forall|t: Set<u32>| sets.to_set().contains(t) implies a.reachable_subsets().contains(t) by {
            let k = choose|k: int| 0 <= k < sets.len() && sets[k] == t;
            assert(a.over_alphabet(words[k]));
            assert(t == a.run_from(a.start(), words[k]));
        }
        assert forall|t: Set<u32>| a.reachable_subsets().contains(t) implies sets.to_set().contains(t) by {
            let w = choose|w: Seq<char>| a.over_alphabet(w) && t == #[trigger] a.run_from(a.start(), w);
            lemma_subset_run(a, sets, dfa, 0, w);
            let j = dfa.run(0, w)->0;
            assert(sets[j as int] == t);
        }
    }
    sets.unique_seq_to_set();
    assert forall|x: u32, c: char| #![trigger dfa.states@.contains(x), dfa.alphabet@.contains(c)]
        dfa.states@.contains(x) && dfa.alphabet@.contains(c) implies exists|t: u32|
            #[trigger] dfa.transitions@.contains(dedge(x, c, t)) by {
        assert(dfa.alphabet@.to_set().contains(c));
        assert(covers(dfa.transitions@, x, c));
    }
    assert forall|e1: Transition<char>, e2: Transition<char>| #![trigger dfa.transitions@.contains(e1), dfa.transitions@.contains(e2)]
        dfa.transitions@.contains(e1) && dfa.transitions@.contains(e2) && e1.from == e2.from
            && e1.label == e2.label implies e1.to == e2.to by {
        if e1.to != e2.to {
            assert(sets[e1.to as int] == sets[e2.to as int]);
        }
    }
    assert forall|e: Transition<char>| #[trigger] dfa.transitions@.contains(e) implies dfa.states@.contains(e.from)
        && dfa.states@.contains(e.to) && dfa.alphabet@.contains(e.label) by {
        assert(a.alphabet.contains(e.label));
        assert(dfa.alphabet@.to_set().contains(e.label));
    }
    assert(dfa.total());
    assert forall|s: u32| s < count implies dfa.reaches(0, s) by {
        let k = s as int;
        lemma_subset_run(a, sets, dfa, 0, words[k]);
        let j = dfa.run(0, words[k])->0;
        assert(sets[j as int] == sets[k]);
        assert(dfa.run(0, words[k]) == Some(s));
    }
    if a.initial_states == Set::<u32>::empty() {
        assert forall|x: u32| !dfa.final_states@.contains(x) by {
            if dfa.final_states@.contains(x) {
                assert(x < 1);
                let f = choose|f: u32| #[trigger] sets[x as int].contains(f) && a.final_states.contains(f);
            }
        }
    }
    assert forall|w: Seq<char>| dfa.accepts(w) == a.accepts(w) by {
        lemma_subset_language(a, sets, dfa, 0, w);
        if a.initial_states == Set::<u32>::empty() {
            a.lemma_run_from_empty(w);
        }
    }
}

impl Determinizer {
    /// Runs the subset construction on the automaton held, and holds the
    /// result: a total deterministic automaton with the same language, whose
    /// state `0` stands for the epsilon closure of the initial states; with
    /// no initial states at all it has no initial state either.
    #[verifier::spinoff_prover]
    #[verifier::rlimit(100)]
    pub fn determinize(self) -> (r: Self)
        requires
            self.nfa.wf(),
            self.nfa@.reachable_subsets().len() < u32::MAX,
        ensures
            r.nfa == self.nfa,
            r.dfa.total(),
            r.dfa.alphabet@.to_set() == self.nfa@.alphabet,
            r.dfa.initial_state == (if self.nfa.initial_states@.len() == 0 {
                None
            } else {
                Some(0u32)
            }),
            forall|s: u32| r.dfa.states@.contains(s) <==> s < r.dfa.counter.value,
            forall|s: u32| s < r.dfa.counter.value ==> r.dfa.reaches(0, s),
            exists|sets: Seq<Set<u32>>| #[trigger] subset_automaton(self.nfa@, sets, r.dfa),
            r.dfa.counter.value == self.nfa@.reachable_subsets().len(),
            r.dfa.counter.value <= pow2(self.nfa.counter.value as nat),
            self.nfa.initial_states@.len() == 0 ==> r.dfa.counter.value == 1 && forall|x: u32|
                !r.dfa.final_states@.contains(x),
            forall|w: Seq<char>| r.dfa.accepts(w) == self.nfa@.accepts(w),
    {
        let ghost a = self.nfa@;
        let ghost bound = a.reachable_subsets().len();
        proof {
            a.lemma_reachable_subsets_bound();
        }
        let n = self.nfa.counter.value as usize;
        proof {
            assert forall|i: int| 0 <= i < self.nfa.initial_states@.len() implies self.nfa.initial_states@[i] < n by {
                assert(a.initial_states.contains(self.nfa.initial_states@[i]));
            }
        }
        let init = to_bits(&self.nfa.initial_states, n);
        let q0 = self.closure_bits(&init);
        let mut found: Vec<Vec<bool>> = Vec::new();
        found.push(q0);
        let ghost mut sets: Seq<Set<u32>> = seq![a.start()];
        let ghost mut words: Seq<Seq<char>> = seq![Seq::<char>::empty()];
        proof {
            if a.initial_states == Set::<u32>::empty() {
                assert(a.start() =~= Set::<u32>::empty()) by {
                    assert forall|x: u32| !a.start().contains(x) by {
                        if a.start().contains(x) {
                            let p = choose|p: Seq<u32>| #[trigger] a.eps_path(p) && a.initial_states.contains(p[0]) && p.last() == x;
                        }
                    }
                }
            }
            assert(a.run_from(a.start(), words[0]) == a.start());
            assert(a.reachable_subsets().contains(sets[0]));
            vstd::set_lib::lemma_len_subset(set![sets[0]], a.reachable_subsets());
        }
        let mut transitions: Vec<Transition<char>> = Vec::new();
        let mut final_states: Vec<u32> = Vec::new();
        let mut i: usize = 0;
        while i < found.len()
            invariant
                a == self.nfa@,
                a.wf(),
                n == a.counter,
                bound == a.reachable_subsets().len(),
                bound < u32::MAX,
                a.reachable_subsets().finite(),
                1 <= found@.len() <= bound,
                i <= found@.len(),
                sets.len() == found@.len(),
                words.len() == found@.len(),
                forall|k: int| 0 <= k < found@.len() ==> (#[trigger] found@[k])@.len() == n && bits(found@[k]@) == sets[k],
                forall|k: int| 0 <= k < sets.len() ==> #[trigger] sets[k] == a.run_from(a.start(), words[k]),
                forall|k: int, j: int| 0 <= k < words.len() && 0 <= j < words[k].len() ==> a.alphabet.contains(#[trigger] words[k][j]),
                sets.no_duplicates(),
                sets[0] == a.start(),
                a.initial_states == Set::<u32>::empty() ==> found@.len() == 1 && a.start() == Set::<u32>::empty(),
                subset_edges(a, sets, transitions@),
                forall|s: u32, c: char| s < i && a.alphabet.contains(c) ==> #[trigger] covers(transitions@, s, c),
                forall|s: u32| #[trigger] final_states@.contains(s) <==> s < i && holds_final(a, sets[s as int]),
            decreases bound - i,
        {
            let current = copy_bits(&found[i]);
            let mut k: usize = 0;
            while k < self.nfa.alphabet.len()
                invariant
                    a == self.nfa@,
                    a.wf(),
                    n == a.counter,
                    bound == a.reachable_subsets().len(),
                    bound < u32::MAX,
                    a.reachable_subsets().finite(),
                    1 <= found@.len() <= bound,
                    i < found@.len(),
                    k <= self.nfa.alphabet@.len(),
                    current@ == found@[i as int]@,
                    sets.len() == found@.len(),
                    words.len() == found@.len(),
                    forall|k: int| 0 <= k < found@.len() ==> (#[trigger] found@[k])@.len() == n && bits(found@[k]@) == sets[k],
                    forall|k: int| 0 <= k < sets.len() ==> #[trigger] sets[k] == a.run_from(a.start(), words[k]),
                    forall|k: int, j: int| 0 <= k < words.len() && 0 <= j < words[k].len() ==> a.alphabet.contains(#[trigger] words[k][j]),
                    sets.no_duplicates(),
                    sets[0] == a.start(),
                    a.initial_states == Set::<u32>::empty() ==> found@.len() == 1 && a.start() == Set::<u32>::empty(),
                    subset_edges(a, sets, transitions@),
                    forall|s: u32, c: char| s < i && a.alphabet.contains(c) ==> #[trigger] covers(transitions@, s, c),
                    forall|j: int| 0 <= j < k ==> #[trigger] covers(transitions@, i as u32, self.nfa.alphabet@[j]),
                    forall|s: u32| #[trigger] final_states@.contains(s) <==> s < i && holds_final(a, sets[s as int]),
                decreases self.nfa.alphabet@.len() - k,
            {
                let letter = self.nfa.alphabet[k];
                let moved = self.reachable_from_set(&current, Some(letter));
                let target = self.closure_bits(&moved);
                let ghost t_set = a.closure(a.step(sets[i as int], Some(letter)));
                proof {
                    a.lemma_run_from_push(a.start(), words[i as int], letter);
                }
                let j: usize = match find_set(&found, &target) {
                    Some(j) => j,
                    None => {
                        proof {
                            assert forall|m: int| 0 <= m < sets.len() implies sets[m] != t_set by {
                                if sets[m] == t_set {
                                    lemma_bits_injective(found@[m]@, target@);
                                }
                            }
                            let w2 = words[i as int].push(letter);
                            assert(t_set == a.run_from(a.start(), w2));
                            if a.initial_states == Set::<u32>::empty() {
                                assert(sets[i as int] == Set::<u32>::empty());
                                a.lemma_run_from_empty(seq![letter]);
                                assert(seq![letter][0] == letter);
                                assert(seq![letter].skip(1).len() == 0);
                                assert(a.run_from(Set::<u32>::empty(), seq![letter]) == a.run_from(t_set, seq![letter].skip(1)));
                                assert(sets[0] == t_set);
                            }
                            assert(a.reachable_subsets().contains(t_set));
                            let grown = sets.push(t_set);
                            assert(grown.no_duplicates());
                            grown.unique_seq_to_set();
                            assert(grown.to_set().subset_of(a.reachable_subsets())) by {
                                assert forall|x: Set<u32>| grown.to_set().contains(x) implies a.reachable_subsets().contains(x) by {
                                    let m = choose|m: int| 0 <= m < grown.len() && grown[m] == x;
                                    if m < sets.len() {
                                        assert(sets[m] == a.run_from(a.start(), words[m]));
                                    }
                                }
                            }
                            vstd::set_lib::lemma_len_subset(grown.to_set(), a.reachable_subsets());
                        }
                        found.push(target);
                        proof {
                            let old_sets = sets;
                            let old_words = words;
                            sets = sets.push(t_set);
                            words = words.push(words[i as int].push(letter));
                            assert forall|k: int, j: int| 0 <= k < words.len() && 0 <= j < words[k].len() implies a.alphabet.contains(#[trigger] words[k][j]) by {
                                if k == words.len() - 1 {
                                    if j < words[k].len() - 1 {
                                        assert(words[k][j] == old_words[i as int][j]);
                                    }
                                } else {
                                    assert(words[k] == old_words[k]);
                                }
                            }
                            assert forall|x: Transition<char>| #[trigger] transitions@.contains(x) implies {
                                &&& x.from < sets.len()
                                &&& x.to < sets.len()
                                &&& a.alphabet.contains(x.label)
                                &&& sets[x.to as int] == a.closure(a.step(sets[x.from as int], Some(x.label)))
                            } by {
                                assert(old_sets[x.to as int] == sets[x.to as int]);
                                assert(old_sets[x.from as int] == sets[x.from as int]);
                            }
                        }
                        found.len() - 1
                    },
                };
                let ghost e = dedge(i as u32, letter, j as u32);
                let ghost before = transitions@;
                transitions.push(Transition::new(i as u32, letter, j as u32));
                proof {
                    assert(a.alphabet.contains(letter));
                    assert(sets[j as int] == t_set);
                    assert(transitions@ == before.push(e));
                    assert(transitions@.contains(e)) by {
                        assert(transitions@[transitions@.len() - 1] == e);
                    }
                    assert forall|x: Transition<char>| #[trigger] transitions@.contains(x) implies before.contains(x) || x == e by {
                        let m = choose|m: int| 0 <= m < transitions@.len() && transitions@[m] == x;
                        if m < before.len() {
                            assert(before[m] == x);
                        }
                    }
                    assert forall|x: Transition<char>| #[trigger] before.contains(x) implies transitions@.contains(x) by {
                        let m = choose|m: int| 0 <= m < before.len() && before[m] == x;
                        assert(transitions@[m] == x);
                    }
                    assert(subset_edges(a, sets, transitions@));
                    assert forall|s: u32, c: char| s < i && a.alphabet.contains(c) implies #[trigger] covers(transitions@, s, c) by {
                        assert(covers(before, s, c));
                        let t = choose|t: u32| #[trigger] before.contains(dedge(s, c, t));
                        assert(transitions@.contains(dedge(s, c, t)));
                    }
                    assert forall|jj: int| 0 <= jj < k + 1 implies #[trigger] covers(transitions@, i as u32, self.nfa.alphabet@[jj]) by {
                        if jj < k {
                            let c = self.nfa.alphabet@[jj];
                            assert(covers(before, i as u32, c));
                            let t = choose|t: u32| #[trigger] before.contains(dedge(i as u32, c, t));
                            assert(transitions@.contains(dedge(i as u32, c, t)));
                        }
                    }
                    assert(covers(transitions@, i as u32, letter));
                }
                k = k + 1;
            }
            proof {
                assert forall|c: char| a.alphabet.contains(c) implies #[trigger] covers(transitions@, i as u32, c) by {
                    let j = choose|j: int| 0 <= j < self.nfa.alphabet@.len() && self.nfa.alphabet@[j] == c;
                }
            }
            let ghost fbefore = final_states@;
            if self.meets_final(&current) {
                final_states.push(i as u32);
                proof {
                    assert(final_states@[fbefore.len() as int] == i as u32);
                }
            }
            proof {
                assert(bits(current@) == sets[i as int]);
                assert forall|s: u32| #[trigger] final_states@.contains(s) <==> s < i + 1 && holds_final(a, sets[s as int]) by {
                    if final_states@.contains(s) && s != i as u32 {
                        let m = choose|m: int| 0 <= m < final_states@.len() && final_states@[m] == s;
                        assert(fbefore[m] == s);
                    }
                    if fbefore.contains(s) {
                        let m = choose|m: int| 0 <= m < fbefore.len() && fbefore[m] == s;
                        assert(final_states@[m] == s);
                    }
                }
            }
            i = i + 1;
        }
        let count = found.len() as u32;
        let mut dfa = DFA::new();
        dfa.alphabet = crate::vecset::copy_chars(&self.nfa.alphabet);
        dfa.states = crate::vecset::ids_upto(count);
        dfa.initial_state = if self.nfa.initial_states.len() == 0 {
            None
        } else {
            Some(0)
        };
        dfa.final_states = final_states;
        dfa.transitions = transitions;
        dfa.counter = Counter { value: count };
        proof {
            assert(dfa.alphabet@.to_set() =~= a.alphabet);
            if self.nfa.initial_states@.len() == 0 {
                assert(a.initial_states =~= Set::<u32>::empty());
            } else {
                assert(a.initial_states.contains(self.nfa.initial_states@[0]));
            }
            lemma_subset_result(a, sets, words, dfa);
            assert(subset_automaton(a, sets, dfa));
        }
        Determinizer { nfa: self.nfa, dfa }
    }
}

} // verus!
