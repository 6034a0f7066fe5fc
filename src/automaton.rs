//! An automaton with epsilon edges built from plain strings, without
//! operators, and closed under repetition by a loop back to its start.
use vstd::prelude::*;
use crate::counter::Counter;
use crate::transition::Transition;
use crate::nfa::{NFA, shift_ids, shift_edge_list, link_all};
use crate::nfa_model::{NfaView, edge, chain_of, lemma_seq1_to_set, lemma_union_wf, lemma_concat_wf};
use crate::vecset::{extend_u32, extend_char, extend_edges, insert_edge, insert_u32};

verus! {

#[derive(Debug)]
pub struct Automaton {
    pub alphabet: Vec<char>,
    pub states: Vec<u32>,
    pub transitions: Vec<Transition<Option<char>>>,
    pub final_states: Vec<u32>,
    pub initial_states: Vec<u32>,
    /// The identifier that the next new state gets.
    pub counter: Counter,
}

impl View for Automaton {
    type V = NfaView;

    open spec fn view(&self) -> NfaView {
        NfaView {
            alphabet: self.alphabet@.to_set(),
            states: self.states@.to_set(),
            transitions: self.transitions@.to_set(),
            final_states: self.final_states@.to_set(),
            initial_states: self.initial_states@.to_set(),
            counter: self.counter.value as nat,
        }
    }
}

impl Automaton {
    pub open spec fn wf(&self) -> bool {
        self@.wf()
    }

    pub fn new() -> (r: Self)
        ensures
            r@ == NfaView::empty(),
            r.wf(),
    {
        let n = NFA::new();
        Automaton {
            alphabet: n.alphabet,
            states: n.states,
            transitions: n.transitions,
            final_states: n.final_states,
            initial_states: n.initial_states,
            counter: n.counter,
        }
    }

    /// Matches the single symbol `letter`.
    pub fn from_char(letter: char) -> (r: Self)
        ensures
            r@ == NfaView::of_char(letter),
            r.wf(),
    {
        let n = NFA::from_char(letter);
        Automaton {
            alphabet: n.alphabet,
            states: n.states,
            transitions: n.transitions,
            final_states: n.final_states,
            initial_states: n.initial_states,
            counter: n.counter,
        }
    }

    /// Raises every state identifier by `amount`; the counter is left as it is.
    pub fn shift_states(&mut self, amount: u32)
        requires
            old(self).wf(),
            old(self).counter.value + amount <= u32::MAX,
        ensures
            final(self)@ == old(self)@.shifted(amount as nat),
    {
        proof {
            let v = self@;
            assert forall|i: int| 0 <= i < self.transitions.len() implies self.transitions@[i].from + amount
                <= u32::MAX && self.transitions@[i].to + amount <= u32::MAX by {
                assert(v.transitions.contains(self.transitions@[i]));
            }
            assert forall|i: int| 0 <= i < self.states.len() implies self.states@[i] + amount <= u32::MAX by {
                assert(v.states.contains(self.states@[i]));
            }
            assert forall|i: int| 0 <= i < self.initial_states.len() implies self.initial_states@[i] + amount <= u32::MAX by {
                assert(v.initial_states.contains(self.initial_states@[i]));
            }
            assert forall|i: int| 0 <= i < self.final_states.len() implies self.final_states@[i] + amount <= u32::MAX by {
                assert(v.final_states.contains(self.final_states@[i]));
            }
        }
        self.states = shift_ids(&self.states, amount);
        self.initial_states = shift_ids(&self.initial_states, amount);
        self.final_states = shift_ids(&self.final_states, amount);
        self.transitions = shift_edge_list(&self.transitions, amount);
    }

    /// Renumbers `self` above `other` and takes in all of `other`.
    pub fn union(&mut self, other: &Automaton)
        requires
            old(self).wf(),
            other.wf(),
            old(self).counter.value + other.counter.value <= u32::MAX,
        ensures
            final(self)@ == old(self)@.union_with(other@),
            final(self).wf(),
    {
        proof {
            lemma_union_wf(self@, other@);
        }
        self.shift_states(other.counter.value);
        self.counter.value = self.counter.value + other.counter.value;
        extend_char(&mut self.alphabet, &other.alphabet);
        extend_u32(&mut self.states, &other.states);
        extend_u32(&mut self.initial_states, &other.initial_states);
        extend_u32(&mut self.final_states, &other.final_states);
        extend_edges(&mut self.transitions, &other.transitions);
    }

    /// Renumbers `self` above `other` and appends `other` after it.
    pub fn concat(&mut self, other: &Automaton)
        requires
            old(self).wf(),
            other.wf(),
            old(self).counter.value + other.counter.value <= u32::MAX,
        ensures
            final(self)@ == old(self)@.concat_with(other@),
            final(self).wf(),
    {
        proof {
            lemma_concat_wf(self@, other@);
        }
        self.shift_states(other.counter.value);
        self.counter.value = self.counter.value + other.counter.value;
        extend_char(&mut self.alphabet, &other.alphabet);
        extend_u32(&mut self.states, &other.states);
        extend_edges(&mut self.transitions, &other.transitions);
        link_all(&mut self.transitions, &self.final_states, &other.initial_states);
        self.final_states = copy_ids(&other.final_states);
    }

    /// Wraps `self` in a fresh initial and a fresh final state, with a loop
    /// from the final state back to the initial one.
    pub fn kleene(&mut self)
        requires
            old(self).wf(),
            old(self).counter.value + 2 <= u32::MAX,
        ensures
            final(self)@ == old(self)@.looped(),
            final(self).wf(),
    {
        let new_initial_state = self.counter.tick();
        let new_final_state = self.counter.tick();
        insert_u32(&mut self.states, new_initial_state);
        insert_u32(&mut self.states, new_final_state);
        let initial_only = vec![new_initial_state];
        let final_only = vec![new_final_state];
        proof {
            lemma_seq1_to_set(new_initial_state);
            lemma_seq1_to_set(new_final_state);
        }
        link_all(&mut self.transitions, &self.final_states, &final_only);
        link_all(&mut self.transitions, &initial_only, &self.initial_states);
        insert_edge(&mut self.transitions, Transition::new(new_final_state, None, new_initial_state));
        self.initial_states = initial_only;
        self.final_states = final_only;
        proof {
            let k = old(self)@.looped();
            assert(self@.states =~= k.states);
            assert(self@.transitions =~= k.transitions);
            assert(self@.alphabet =~= k.alphabet);
            assert(self@.initial_states =~= k.initial_states);
            assert(self@.final_states =~= k.final_states);
        }
    }

    /// The characters of `string` in a row.
    pub fn from_string(string: &str) -> (r: Self)
        requires
            2 * string@.len() <= u32::MAX,
        ensures
            r@ == chain_of(string@),
            r.wf(),
    {
        let chars = crate::pattern::chars_of(string);
        if chars.len() == 0 {
            return Automaton::new();
        }
        let mut automaton = Automaton::from_char(chars[0]);
        let mut i: usize = 1;
        proof {
            assert(chars@.take(1).drop_last().len() == 0);
            assert(chars@.take(1)[0] == chars@[0]);
        }
        while i < chars.len()
            invariant
                1 <= i <= chars.len(),
                chars@ == string@,
                2 * chars.len() <= u32::MAX,
                automaton.wf(),
                automaton@ == chain_of(chars@.take(i as int)),
                automaton.counter.value == 2 * i,
            decreases chars.len() - i,
        {
            let next = Automaton::from_char(chars[i]);
            automaton.concat(&next);
            proof {
                assert(chars@.take(i + 1).drop_last() == chars@.take(i as int));
                assert(chars@.take(i + 1).last() == chars@[i as int]);
            }
            i = i + 1;
        }
        proof {
            assert(chars@.take(i as int) == chars@);
        }
        automaton
    }

    /// The states that `start_state` reaches by one edge labelled `wanted_label`.
    pub fn reachable(&self, start_state: u32, wanted_label: Option<char>) -> (r: Vec<u32>)
        ensures
            r@.to_set() == Set::new(|t: u32| self@.transitions.contains(edge(start_state, wanted_label, t))),
    {
        let mut r: Vec<u32> = Vec::new();
        let mut i: usize = 0;
        while i < self.transitions.len()
            invariant
                i <= self.transitions.len(),
                r@.to_set() == Set::new(|t: u32| exists|j: int| 0 <= j < i
                    && #[trigger] self.transitions@[j] == edge(start_state, wanted_label, t)),
            decreases self.transitions.len() - i,
        {
            let e = self.transitions[i];
            let ghost before = r@;
            if e.from == start_state && crate::vecset::label_eq(e.label, wanted_label) {
                insert_u32(&mut r, e.to);
            }
            proof {
                assert(r@.to_set() =~= Set::new(|t: u32| exists|j: int| 0 <= j < i + 1
                    && #[trigger] self.transitions@[j] == edge(start_state, wanted_label, t))) by {
                    assert forall|t: u32| (exists|j: int| 0 <= j < i + 1
                        && #[trigger] self.transitions@[j] == edge(start_state, wanted_label, t)) implies r@.to_set().contains(t) by {
                        let j = choose|j: int| 0 <= j < i + 1 && #[trigger] self.transitions@[j] == edge(start_state, wanted_label, t);
                        if j < i {
                            assert(before.to_set().contains(t));
                        }
                    }
                }
            }
            i = i + 1;
        }
        proof {
            assert(r@.to_set() =~= Set::new(|t: u32| self@.transitions.contains(edge(start_state, wanted_label, t))));
        }
        r
    }
}

fn copy_ids(v: &Vec<u32>) -> (r: Vec<u32>)
    ensures
        r@ == v@,
{
    let mut r: Vec<u32> = Vec::new();
    let mut i: usize = 0;
    while i < v.len()
        invariant
            i <= v.len(),
            r@ == v@.take(i as int),
        decreases v.len() - i,
    {
        r.push(v[i]);
        proof {
            assert(v@.take(i + 1) == v@.take(i as int).push(v@[i as int]));
        }
        i = i + 1;
    }
    proof {
        assert(v@.take(i as int) == v@);
    }
    r
}

} // verus!
