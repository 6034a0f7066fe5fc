//! Nondeterministic automata with epsilon edges, and the Thompson
//! building blocks that the parser composes.
use vstd::prelude::*;
use crate::counter::Counter;
use crate::transition::Transition;
use crate::nfa_model::{NfaView, Edge, edge, eps_links, shift_set, shift_edges, lemma_seq1_to_set, lemma_seq2_to_set, lemma_union_wf, lemma_concat_wf, lemma_kleene_wf};
use crate::pattern::{atom_nfa, atom_width, alt_from, alt_nfa, lookahead, union_from, pattern_nfa, first_alt_len, lemma_first_alt_len};
use crate::vecset::{label_eq, extend_u32, extend_char, extend_edges, insert_edge, insert_u32};

verus! {

#[derive(Debug)]
pub struct NFA {
    pub alphabet: Vec<char>,
    pub states: Vec<u32>,
    pub transitions: Vec<Transition<Option<char>>>,
    pub final_states: Vec<u32>,
    pub initial_states: Vec<u32>,
    /// The identifier that the next new state gets.
    pub counter: Counter,
}

impl View for NFA {
    type V = NfaView;

    open spec fn view(&self) -> NfaView {
        NfaView {
            alphabet: self.alphabet@.to_set(),
            states: self.states@.to_set(),
            transitions: self.transitions@.to_set(),
            final_states: self.final_states@.to_set(),
            initial_states: self.initial_states@.to_set(),
            counter: self.counter.value as nat,
        }
    }
}

pub(crate) fn shift_ids(v: &Vec<u32>, amount: u32) -> (r: Vec<u32>)
    requires
        forall|i: int| 0 <= i < v.len() ==> v@[i] + amount <= u32::MAX,
    ensures
        r@.to_set() == shift_set(v@.to_set(), amount as nat),
{
    let mut r: Vec<u32> = Vec::new();
    let mut i: usize = 0;
    while i < v.len()
        invariant
            i <= v.len(),
            forall|j: int| 0 <= j < v.len() ==> v@[j] + amount <= u32::MAX,
            r@.len() == i,
            forall|j: int| 0 <= j < i ==> r@[j] == v@[j] + amount,
        decreases v.len() - i,
    {
        r.push(v[i] + amount);
        i = i + 1;
    }
    proof {
        assert forall|x: u32| #[trigger] shift_set(v@.to_set(), amount as nat).contains(x) implies r@.contains(x) by {
            let j = choose|j: int| 0 <= j < v.len() && v@[j] == (x - amount) as u32;
            assert(r@[j] == x);
        }
        assert(r@.to_set() =~= shift_set(v@.to_set(), amount as nat));
    }
    r
}

pub(crate) fn shift_edge_list(v: &Vec<Transition<Option<char>>>, amount: u32) -> (r: Vec<Transition<Option<char>>>)
    requires
        forall|i: int| 0 <= i < v.len() ==> v@[i].from + amount <= u32::MAX && v@[i].to + amount <= u32::MAX,
    ensures
        r@.to_set() == shift_edges(v@.to_set(), amount as nat),
{
    let mut r: Vec<Transition<Option<char>>> = Vec::new();
    let mut i: usize = 0;
    while i < v.len()
        invariant
            i <= v.len(),
            forall|j: int| 0 <= j < v.len() ==> v@[j].from + amount <= u32::MAX && v@[j].to + amount <= u32::MAX,
            r@.len() == i,
            forall|j: int| 0 <= j < i ==> r@[j] == edge((v@[j].from + amount) as u32, v@[j].label, (v@[j].to + amount) as u32),
        decreases v.len() - i,
    {
        let t = v[i];
        r.push(Transition::new(t.from + amount, t.label, t.to + amount));
        i = i + 1;
    }
    proof {
        assert forall|e: Edge| #[trigger] shift_edges(v@.to_set(), amount as nat).contains(e) implies r@.contains(e) by {
            let j = choose|j: int| 0 <= j < v.len() && v@[j] == edge((e.from - amount) as u32, e.label, (e.to - amount) as u32);
            assert(r@[j] == e);
        }
        assert(r@.to_set() =~= shift_edges(v@.to_set(), amount as nat));
    }
    r
}

impl NFA {
    pub open spec fn wf(&self) -> bool {
        self@.wf()
    }

    pub fn new() -> (r: Self)
        ensures
            r@ == NfaView::empty(),
            r.wf(),
    {
        let r = NFA {
            alphabet: Vec::new(),
            states: Vec::new(),
            transitions: Vec::new(),
            final_states: Vec::new(),
            initial_states: Vec::new(),
            counter: Counter::new(),
        };
        proof {
            assert(r@.alphabet =~= Set::empty());
            assert(r@.states =~= Set::empty());
            assert(r@.transitions =~= Set::empty());
            assert(r@.final_states =~= Set::empty());
            assert(r@.initial_states =~= Set::empty());
        }
        r
    }

    /// Matches the single symbol `letter`.
    pub fn from_char(letter: char) -> (r: Self)
        ensures
            r@ == NfaView::of_char(letter),
            r.wf(),
    {
        let mut nfa = NFA::new();
        let state1 = nfa.counter.tick();
        let state2 = nfa.counter.tick();
        nfa.alphabet = vec![letter];
        nfa.states = vec![state1, state2];
        nfa.transitions = vec![Transition::new(state1, Some(letter), state2)];
        nfa.initial_states = vec![state1];
        nfa.final_states = vec![state2];
        proof {
            lemma_seq1_to_set(letter);
            lemma_seq2_to_set(0u32, 1u32);
            lemma_seq1_to_set(edge(0, Some(letter), 1));
            lemma_seq1_to_set(0u32);
            lemma_seq1_to_set(1u32);
            assert(nfa.alphabet@ == seq![letter]);
            assert(nfa.states@ == seq![0u32, 1u32]);
            assert(nfa.transitions@ == seq![edge(0, Some(letter), 1)]);
            assert(nfa.final_states@ == seq![1u32]);
            assert(nfa.initial_states@ == seq![0u32]);
            assert(nfa.counter.value == 2);
        }
        nfa
    }

    /// Matches `letter` or the empty text.
    pub fn from_optional_char(letter: char) -> (r: Self)
        ensures
            r@ == NfaView::of_optional_char(letter),
            r.wf(),
    {
        let mut nfa = NFA::from_char(letter);
        nfa.transitions = vec![Transition::new(0, Some(letter), 1), Transition::new(0, None, 1)];
        proof {
            lemma_seq2_to_set(edge(0, Some(letter), 1), edge(0, None, 1));
        }
        nfa
    }

    /// Matches one or more repetitions of `letter`.
    pub fn from_plus_char(letter: char) -> (r: Self)
        ensures
            r@ == NfaView::of_plus_char(letter),
            r.wf(),
    {
        let mut nfa = NFA::from_char(letter);
        nfa.transitions = vec![Transition::new(0, Some(letter), 1), Transition::new(1, Some(letter), 1)];
        proof {
            lemma_seq2_to_set(edge(0, Some(letter), 1), edge(1, Some(letter), 1));
        }
        nfa
    }

    /// Raises every state identifier by `amount`; the counter is left as it is.
    pub fn shift_states(&mut self, amount: u32)
        requires
            old(self).wf(),
            old(self).counter.value + amount <= u32::MAX,
        ensures
            final(self)@ == old(self)@.shifted(amount as nat),
    {
        proof {
            let v = self@;
            assert forall|i: int| 0 <= i < self.transitions.len() implies self.transitions@[i].from + amount
                <= u32::MAX && self.transitions@[i].to + amount <= u32::MAX by {
                assert(v.transitions.contains(self.transitions@[i]));
            }
            assert forall|i: int| 0 <= i < self.states.len() implies self.states@[i] + amount <= u32::MAX by {
                assert(v.states.contains(self.states@[i]));
            }
            assert forall|i: int| 0 <= i < self.initial_states.len() implies self.initial_states@[i] + amount <= u32::MAX by {
                assert(v.initial_states.contains(self.initial_states@[i]));
            }
            assert forall|i: int| 0 <= i < self.final_states.len() implies self.final_states@[i] + amount <= u32::MAX by {
                assert(v.final_states.contains(self.final_states@[i]));
            }
        }
        self.states = shift_ids(&self.states, amount);
        self.initial_states = shift_ids(&self.initial_states, amount);
        self.final_states = shift_ids(&self.final_states, amount);
        self.transitions = shift_edge_list(&self.transitions, amount);
    }
}

} // verus!

verus! {

/// Adds an epsilon edge from every state of `froms` to every state of `tos`.
pub(crate) fn link_all(dst: &mut Vec<Transition<Option<char>>>, froms: &Vec<u32>, tos: &Vec<u32>)
    ensures
        final(dst)@.to_set() == old(dst)@.to_set() + eps_links(froms@.to_set(), tos@.to_set()),
{
    let ghost base = dst@.to_set();
    let mut i: usize = 0;
    while i < froms.len()
        invariant
            i <= froms.len(),
            dst@.to_set() == base + eps_links(froms@.take(i as int).to_set(), tos@.to_set()),
        decreases froms.len() - i,
    {
        let f = froms[i];
        let ghost mid = dst@.to_set();
        let mut j: usize = 0;
        while j < tos.len()
            invariant
                i < froms.len(),
                f == froms@[i as int],
                j <= tos.len(),
                dst@.to_set() == mid + eps_links(set![f], tos@.take(j as int).to_set()),
            decreases tos.len() - j,
        {
            let ghost before = dst@.to_set();
            insert_edge(dst, Transition::new(f, None, tos[j]));
            proof {
                assert(tos@.take(j + 1) == tos@.take(j as int).push(tos@[j as int]));
                tos@.take(j as int).lemma_push_to_set_commute(tos@[j as int]);
                assert(dst@.to_set() =~= mid + eps_links(set![f], tos@.take(j + 1).to_set()));
            }
            j = j + 1;
        }
        proof {
            assert(tos@.take(j as int) == tos@);
            assert(froms@.take(i + 1) == froms@.take(i as int).push(f));
            froms@.take(i as int).lemma_push_to_set_commute(f);
            assert(dst@.to_set() =~= base + eps_links(froms@.take(i + 1).to_set(), tos@.to_set()));
        }
        i = i + 1;
    }
    proof {
        assert(froms@.take(i as int) == froms@);
    }
}

} // verus!

verus! {

impl NFA {
    /// Renumbers `self` above `other` and takes in all of `other`: the
    /// result matches what either of them matched.
    pub fn union(&mut self, other: &NFA)
        requires
            old(self).wf(),
            other.wf(),
            old(self).counter.value + other.counter.value <= u32::MAX,
        ensures
            final(self)@ == old(self)@.union_with(other@),
            final(self).wf(),
    {
        proof {
            lemma_union_wf(self@, other@);
        }
        self.shift_states(other.counter.value);
        self.counter.value = self.counter.value + other.counter.value;
        extend_char(&mut self.alphabet, &other.alphabet);
        extend_u32(&mut self.states, &other.states);
        extend_u32(&mut self.initial_states, &other.initial_states);
        extend_u32(&mut self.final_states, &other.final_states);
        extend_edges(&mut self.transitions, &other.transitions);
    }

    /// Renumbers `self` above `other` and appends `other` after it: the
    /// result matches a text of `self` followed by a text of `other`.
    pub fn concat(&mut self, other: &NFA)
        requires
            old(self).wf(),
            other.wf(),
            old(self).counter.value + other.counter.value <= u32::MAX,
        ensures
            final(self)@ == old(self)@.concat_with(other@),
            final(self).wf(),
    {
        proof {
            lemma_concat_wf(self@, other@);
        }
        self.shift_states(other.counter.value);
        self.counter.value = self.counter.value + other.counter.value;
        extend_char(&mut self.alphabet, &other.alphabet);
        extend_u32(&mut self.states, &other.states);
        extend_edges(&mut self.transitions, &other.transitions);
        link_all(&mut self.transitions, &self.final_states, &other.initial_states);
        self.final_states = other.final_states.clone();
    }

    /// Closes `self` under repetition, the empty text included.
    pub fn kleene(&mut self)
        requires
            old(self).wf(),
            old(self).counter.value + 2 <= u32::MAX,
        ensures
            final(self)@ == old(self)@.kleene_of(),
            final(self).wf(),
    {
        proof {
            lemma_kleene_wf(self@);
        }
        let new_initial_state = self.counter.tick();
        let new_final_state = self.counter.tick();
        insert_u32(&mut self.states, new_initial_state);
        insert_u32(&mut self.states, new_final_state);
        let initial_only = vec![new_initial_state];
        let final_only = vec![new_final_state];
        proof {
            lemma_seq1_to_set(new_initial_state);
            lemma_seq1_to_set(new_final_state);
        }
        link_all(&mut self.transitions, &self.final_states, &final_only);
        link_all(&mut self.transitions, &self.final_states, &self.initial_states);
        link_all(&mut self.transitions, &initial_only, &self.initial_states);
        insert_edge(&mut self.transitions, Transition::new(new_initial_state, None, new_final_state));
        proof {
            lemma_seq1_to_set(edge(new_initial_state, None, new_final_state));
        }
        self.initial_states = initial_only;
        self.final_states = final_only;
        proof {
            let k = old(self)@.kleene_of();
            assert(self@.states =~= k.states);
            assert(self@.transitions =~= k.transitions);
            assert(self@.alphabet =~= k.alphabet);
            assert(self@.initial_states =~= k.initial_states);
            assert(self@.final_states =~= k.final_states);
            assert(self@.counter == k.counter);
        }
    }

    /// The states that `start_state` reaches by one edge labelled `wanted_label`.
    pub fn reachable(&self, start_state: u32, wanted_label: Option<char>) -> (r: Vec<u32>)
        ensures
            r@.to_set() == Set::new(|t: u32| self@.transitions.contains(edge(start_state, wanted_label, t))),
    {
        let mut r: Vec<u32> = Vec::new();
        let mut i: usize = 0;
        while i < self.transitions.len()
            invariant
                i <= self.transitions.len(),
                forall|t: u32| r@.contains(t) <==> exists|j: int| 0 <= j < i
                    && #[trigger] self.transitions@[j] == edge(start_state, wanted_label, t),
            decreases self.transitions.len() - i,
        {
            let e = self.transitions[i];
            if e.from == start_state && label_eq(e.label, wanted_label) {
                insert_u32(&mut r, e.to);
                proof {
                    assert(self.transitions@[i as int] == edge(start_state, wanted_label, e.to));
                    assert(r@.to_set().contains(e.to));
                    assert forall|t: u32| r@.contains(t) implies exists|j: int| 0 <= j < i + 1
                        && #[trigger] self.transitions@[j] == edge(start_state, wanted_label, t) by {
                        assert(r@.to_set().contains(t));
                    }
                    assert forall|t: u32| (exists|j: int| 0 <= j < i + 1
                        && #[trigger] self.transitions@[j] == edge(start_state, wanted_label, t)) implies r@.contains(t) by {
                        assert(r@.to_set().contains(t));
                    }
                }
            }
            i = i + 1;
        }
        proof {
            assert(r@.to_set() =~= Set::new(|t: u32| self@.transitions.contains(edge(start_state, wanted_label, t))));
        }
        r
    }
}

} // verus!

verus! {

impl NFA {
    /// The automaton of the atom that starts with `current_char`, given the
    /// character after it; the flag tells whether that character was an
    /// operator and so belongs to the atom.
    pub fn from_chars_iterator(current_char: char, next: Option<char>) -> (r: (NFA, bool))
        ensures
            r.0@ == atom_nfa(current_char, next),
            r.0.wf(),
            r.1 == (atom_width(next) == 2),
            r.0.counter.value <= 2 * atom_width(next),
    {
        match next {
            Some(n) => {
                if n == '?' {
                    (NFA::from_optional_char(current_char), true)
                } else if n == '*' {
                    let mut automaton = NFA::from_char(current_char);
                    automaton.kleene();
                    (automaton, true)
                } else if n == '+' {
                    (NFA::from_plus_char(current_char), true)
                } else {
                    (NFA::from_char(current_char), false)
                }
            },
            None => (NFA::from_char(current_char), false),
        }
    }

    /// The automaton of the alternative `chars[lo..hi]`.
    #[verifier::spinoff_prover]
    fn from_alternative(chars: &Vec<char>, lo: usize, hi: usize) -> (r: NFA)
        requires
            lo <= hi <= chars.len(),
            2 * chars.len() <= u32::MAX,
        ensures
            r@ == alt_nfa(chars@.subrange(lo as int, hi as int)),
            r.wf(),
            r.counter.value <= 2 * (hi - lo),
    {
        let mut acc = NFA::new();
        let mut started = false;
        let mut i: usize = lo;
        while i < hi
            invariant
                lo <= i <= hi,
                hi <= chars.len(),
                2 * chars.len() <= u32::MAX,
                acc.wf(),
                acc.counter.value <= 2 * (i - lo),
                !started ==> acc@ == NfaView::empty(),
                alt_from(if started { Some(acc@) } else { None }, chars@.subrange(i as int, hi as int))
                    == alt_nfa(chars@.subrange(lo as int, hi as int)),
            decreases hi - i,
        {
            let c = chars[i];
            let next = if i + 1 < hi {
                Some(chars[i + 1])
            } else {
                None
            };
            let ghost s = chars@.subrange(i as int, hi as int);
            proof {
                assert(s[0] == c);
                assert(lookahead(s) == next);
            }
            let (atom, consumed) = NFA::from_chars_iterator(c, next);
            let ghost prev = if started { Some(acc@) } else { None };
            if started {
                acc.concat(&atom);
            } else {
                acc = atom;
                started = true;
            }
            let width: usize = if consumed { 2 } else { 1 };
            proof {
                assert(s.skip(width as int) == chars@.subrange(i + width, hi as int));
            }
            i = i + width;
        }
        proof {
            assert(chars@.subrange(i as int, hi as int).len() == 0);
        }
        acc
    }

    /// Builds the automaton of a pattern: the union of its alternatives,
    /// each the concatenation of its atoms.
    #[verifier::spinoff_prover]
    pub fn from_string(string: &str) -> (r: Self)
        requires
            2 * string@.len() <= u32::MAX,
        ensures
            r@ == pattern_nfa(string@),
            r.wf(),
            r.counter.value <= 2 * string@.len(),
    {
        let chars = crate::pattern::chars_of(string);
        let mut nfa = NFA::new();
        let mut lo: usize = 0;
        assert(chars@.skip(0) == chars@);
        loop
            invariant
                chars@ == string@,
                2 * chars.len() <= u32::MAX,
                lo <= chars.len(),
                nfa.wf(),
                nfa.counter.value <= 2 * lo,
                union_from(nfa@, chars@.skip(lo as int)) == pattern_nfa(string@),
            decreases chars.len() - lo,
        {
            let mut hi: usize = lo;
            while hi < chars.len() && chars[hi] != '|'
                invariant
                    lo <= hi <= chars.len(),
                    forall|j: int| lo <= j < hi ==> chars@[j] != '|',
                decreases chars.len() - hi,
            {
                hi = hi + 1;
            }
            let ghost q = chars@.skip(lo as int);
            proof {
                lemma_first_alt_len(q);
                let k = first_alt_len(q);
                if k < hi - lo {
                    assert(q[k as int] == chars@[lo + k]);
                } else if k > hi - lo {
                    assert(q[hi - lo] == chars@[hi as int]);
                }
                assert(k == hi - lo);
                assert(q.take(k as int) == chars@.subrange(lo as int, hi as int));
            }
            let alternative = NFA::from_alternative(&chars, lo, hi);
            nfa.union(&alternative);
            if hi >= chars.len() {
                return nfa;
            }
            proof {
                assert(q.skip(hi - lo + 1) == chars@.skip(hi + 1));
            }
            lo = hi + 1;
        }
    }
}

} // verus!
