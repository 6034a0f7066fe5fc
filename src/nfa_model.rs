//! The mathematical model of a nondeterministic automaton, and what each
//! Thompson building block does to it.
use vstd::prelude::*;
use crate::transition::Transition;

verus! {

/// An edge whose label is a symbol, or `None` for epsilon.
pub type Edge = Transition<Option<char>>;

pub struct NfaView {
    pub alphabet: Set<char>,
    pub states: Set<u32>,
    pub transitions: Set<Edge>,
    pub final_states: Set<u32>,
    pub initial_states: Set<u32>,
    pub counter: nat,
}

pub open spec fn edge(from: u32, label: Option<char>, to: u32) -> Edge {
    Transition { from, label, to }
}

/// Every identifier of `s` raised by `k`.
pub open spec fn shift_set(s: Set<u32>, k: nat) -> Set<u32> {
    Set::new(|x: u32| x >= k && s.contains((x - k) as u32))
}

/// Both endpoints of every edge of `s` raised by `k`.
pub open spec fn shift_edges(s: Set<Edge>, k: nat) -> Set<Edge> {
    Set::new(
        |e: Edge| e.from >= k && e.to >= k && s.contains(edge((e.from - k) as u32, e.label, (e.to - k) as u32)),
    )
}

/// Epsilon edges from every state of `a` to every state of `b`.
pub open spec fn eps_links(a: Set<u32>, b: Set<u32>) -> Set<Edge> {
    Set::new(|e: Edge| e.label is None && a.contains(e.from) && b.contains(e.to))
}

impl NfaView {
    pub open spec fn wf(self) -> bool {
        &&& forall|e: Edge| #[trigger] self.transitions.contains(e) ==> self.states.contains(e.from)
            && self.states.contains(e.to)
        &&& forall|e: Edge| #[trigger] self.transitions.contains(e) && e.label is Some
            ==> self.alphabet.contains(e.label->0)
        &&& self.initial_states.subset_of(self.states)
        &&& self.final_states.subset_of(self.states)
        &&& forall|s: u32| #[trigger] self.states.contains(s) ==> s < self.counter
    }

    pub open spec fn empty() -> NfaView {
        NfaView {
            alphabet: Set::empty(),
            states: Set::empty(),
            transitions: Set::empty(),
            final_states: Set::empty(),
            initial_states: Set::empty(),
            counter: 0,
        }
    }

    /// Two states 0 and 1, and an edge 0 --c--> 1.
    pub open spec fn of_char(c: char) -> NfaView {
        NfaView {
            alphabet: set![c],
            states: set![0u32, 1u32],
            transitions: set![edge(0, Some(c), 1)],
            final_states: set![1u32],
            initial_states: set![0u32],
            counter: 2,
        }
    }

    /// As `of_char`, with an epsilon edge 0 --> 1 besides.
    pub open spec fn of_optional_char(c: char) -> NfaView {
        NfaView { transitions: set![edge(0, Some(c), 1), edge(0, None, 1)], ..Self::of_char(c) }
    }

    /// As `of_char`, with a loop 1 --c--> 1 besides.
    pub open spec fn of_plus_char(c: char) -> NfaView {
        NfaView { transitions: set![edge(0, Some(c), 1), edge(1, Some(c), 1)], ..Self::of_char(c) }
    }

    pub open spec fn shifted(self, k: nat) -> NfaView {
        NfaView {
            states: shift_set(self.states, k),
            transitions: shift_edges(self.transitions, k),
            final_states: shift_set(self.final_states, k),
            initial_states: shift_set(self.initial_states, k),
            ..self
        }
    }

    /// `self` renumbered above `other`, side by side with it.
    pub open spec fn union_with(self, other: NfaView) -> NfaView {
        let a = self.shifted(other.counter);
        NfaView {
            alphabet: a.alphabet + other.alphabet,
            states: a.states + other.states,
            transitions: a.transitions + other.transitions,
            final_states: a.final_states + other.final_states,
            initial_states: a.initial_states + other.initial_states,
            counter: self.counter + other.counter,
        }
    }

    /// `self` renumbered above `other`, its final states linked to the
    /// initial states of `other` by epsilon edges.
    pub open spec fn concat_with(self, other: NfaView) -> NfaView {
        let a = self.shifted(other.counter);
        NfaView {
            alphabet: a.alphabet + other.alphabet,
            states: a.states + other.states,
            transitions: a.transitions + other.transitions + eps_links(
                a.final_states,
                other.initial_states,
            ),
            final_states: other.final_states,
            initial_states: a.initial_states,
            counter: self.counter + other.counter,
        }
    }

    /// A fresh initial state and a fresh final state around `self`, with the
    /// epsilon edges of the closure.
    pub open spec fn kleene_of(self) -> NfaView {
        let si = self.counter as u32;
        let sf = (self.counter + 1) as u32;
        NfaView {
            states: self.states.insert(si).insert(sf),
            transitions: self.transitions + eps_links(self.final_states, set![sf]) + eps_links(
                self.final_states,
                self.initial_states,
            ) + eps_links(set![si], self.initial_states) + set![edge(si, None, sf)],
            final_states: set![sf],
            initial_states: set![si],
            counter: self.counter + 2,
            ..self
        }
    }
}

} // verus!

verus! {

pub proof fn lemma_seq1_to_set<A>(a: A)
    ensures
        seq![a].to_set() == set![a],
{
    assert(seq![a][0] == a);
    assert(seq![a].to_set() =~= set![a]);
}

pub proof fn lemma_seq2_to_set<A>(a: A, b: A)
    ensures
        seq![a, b].to_set() == set![a, b],
{
    assert(seq![a, b][0] == a);
    assert(seq![a, b][1] == b);
    assert(seq![a, b].to_set() =~= set![a, b]);
}

} // verus!

verus! {

pub proof fn lemma_shifted_wf(a: NfaView, k: nat)
    requires
        a.wf(),
    ensures
        ({
            let s = a.shifted(k);
            &&& forall|e: Edge| #[trigger] s.transitions.contains(e) ==> s.states.contains(e.from)
                && s.states.contains(e.to)
            &&& forall|e: Edge| #[trigger] s.transitions.contains(e) && e.label is Some
                ==> s.alphabet.contains(e.label->0)
            &&& s.initial_states.subset_of(s.states)
            &&& s.final_states.subset_of(s.states)
            &&& forall|x: u32| #[trigger] s.states.contains(x) ==> x < a.counter + k
        }),
{
    let s = a.shifted(k);
    assert forall|e: Edge| #[trigger] s.transitions.contains(e) implies s.states.contains(e.from)
        && s.states.contains(e.to) by {
        assert(a.transitions.contains(edge((e.from - k) as u32, e.label, (e.to - k) as u32)));
    }
    assert forall|e: Edge| #[trigger] s.transitions.contains(e) && e.label is Some implies s.alphabet.contains(
        e.label->0,
    ) by {
        assert(a.transitions.contains(edge((e.from - k) as u32, e.label, (e.to - k) as u32)));
    }
    assert forall|x: u32| #[trigger] s.states.contains(x) implies x < a.counter + k by {
        assert(a.states.contains((x - k) as u32));
    }
}

pub proof fn lemma_union_wf(a: NfaView, b: NfaView)
    requires
        a.wf(),
        b.wf(),
    ensures
        a.union_with(b).wf(),
{
    lemma_shifted_wf(a, b.counter);
}

pub proof fn lemma_concat_wf(a: NfaView, b: NfaView)
    requires
        a.wf(),
        b.wf(),
    ensures
        a.concat_with(b).wf(),
{
    lemma_shifted_wf(a, b.counter);
}

pub proof fn lemma_kleene_wf(a: NfaView)
    requires
        a.wf(),
        a.counter + 2 <= u32::MAX,
    ensures
        a.kleene_of().wf(),
{
}

} // verus!

verus! {

impl NfaView {
    /// A fresh initial state and a fresh final state around `self`, the
    /// final state leading back to the initial one: one or more repetitions.
    pub open spec fn looped(self) -> NfaView {
        let si = self.counter as u32;
        let sf = (self.counter + 1) as u32;
        NfaView {
            states: self.states.insert(si).insert(sf),
            transitions: self.transitions + eps_links(self.final_states, set![sf]) + eps_links(
                set![si],
                self.initial_states,
            ) + set![edge(sf, None, si)],
            final_states: set![sf],
            initial_states: set![si],
            counter: self.counter + 2,
            ..self
        }
    }
}

/// The characters of `s` in a row, each an atom.
pub open spec fn chain_of(s: Seq<char>) -> NfaView
    decreases s.len(),
{
    if s.len() == 0 {
        NfaView::empty()
    } else if s.len() == 1 {
        NfaView::of_char(s[0])
    } else {
        chain_of(s.drop_last()).concat_with(NfaView::of_char(s.last()))
    }
}

} // verus!
