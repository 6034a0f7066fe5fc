//! Deterministic automata, and whole-text matching over them.
use vstd::prelude::*;
use crate::counter::Counter;
use crate::transition::Transition;

verus! {

pub open spec fn dedge(from: u32, label: char, to: u32) -> Transition<char> {
    Transition { from, label, to }
}

/// The target of the first edge of `ts` that leaves `s` on `a`.
pub open spec fn first_target(ts: Seq<Transition<char>>, s: u32, a: char) -> Option<u32>
    decreases ts.len(),
{
    if ts.len() == 0 {
        None
    } else if ts[0].from == s && ts[0].label == a {
        Some(ts[0].to)
    } else {
        first_target(ts.skip(1), s, a)
    }
}

pub proof fn lemma_first_target(ts: Seq<Transition<char>>, s: u32, a: char)
    ensures
        first_target(ts, s, a) is None <==> !(exists|t: u32| ts.contains(dedge(s, a, t))),
        first_target(ts, s, a) is Some ==> ts.contains(dedge(s, a, first_target(ts, s, a)->0)),
    decreases ts.len(),
{
    if ts.len() > 0 {
        lemma_first_target(ts.skip(1), s, a);
        if !(ts[0].from == s && ts[0].label == a) {
            assert forall|t: u32| ts.contains(dedge(s, a, t)) implies ts.skip(1).contains(
                dedge(s, a, t),
            ) by {
                let k = choose|k: int| 0 <= k < ts.len() && ts[k] == dedge(s, a, t);
                assert(k != 0);
                assert(ts.skip(1)[k - 1] == ts[k]);
            }
            if first_target(ts, s, a) is Some {
                let t = first_target(ts, s, a)->0;
                let k = choose|k: int| 0 <= k < ts.len() - 1 && ts.skip(1)[k] == dedge(s, a, t);
                assert(ts[k + 1] == ts.skip(1)[k]);
            }
            if exists|t: u32| ts.skip(1).contains(dedge(s, a, t)) {
                let t = choose|t: u32| ts.skip(1).contains(dedge(s, a, t));
                let k = choose|k: int| 0 <= k < ts.len() - 1 && ts.skip(1)[k] == dedge(s, a, t);
                assert(ts[k + 1] == ts.skip(1)[k]);
            }
        } else {
            assert(ts[0] == dedge(s, a, ts[0].to));
        }
    }
}

#[derive(Debug)]
pub struct DFA {
    pub alphabet: Vec<char>,
    pub states: Vec<u32>,
    pub transitions: Vec<Transition<char>>,
    pub final_states: Vec<u32>,
    /// `None` when the automaton matches nothing at all.
    pub initial_state: Option<u32>,
    /// The identifier that the next new state gets.
    pub counter: Counter,
}

impl DFA {
    /// Where `s` goes on `a`.
    pub open spec fn delta(&self, s: u32, a: char) -> Option<u32> {
        first_target(self.transitions@, s, a)
    }

    /// Where reading `w` from `s` leads, or `None` when some symbol has no edge.
    pub open spec fn run(&self, s: u32, w: Seq<char>) -> Option<u32>
        decreases w.len(),
    {
        if w.len() == 0 {
            Some(s)
        } else {
            match self.delta(s, w[0]) {
                Some(t) => self.run(t, w.skip(1)),
                None => None,
            }
        }
    }

    pub proof fn lemma_run_step(&self, s: u32, w: Seq<char>)
        requires
            w.len() > 0,
        ensures
            self.run(s, w) == (match self.delta(s, w[0]) {
                Some(t) => self.run(t, w.skip(1)),
                None => None,
            }),
    {
    }

    /// Some text leads from `from` to `to`.
    pub open spec fn reaches(&self, from: u32, to: u32) -> bool {
        exists|w: Seq<char>| #[trigger] self.run(from, w) == Some(to)
    }

    /// Reading `u` and then `v` is reading `u`, then `v` from where `u` led.
    pub proof fn lemma_run_concat(&self, s: u32, u: Seq<char>, v: Seq<char>)
        ensures
            self.run(s, u + v) == (match self.run(s, u) {
                Some(t) => self.run(t, v),
                None => None,
            }),
        decreases u.len(),
    {
        if u.len() == 0 {
            assert(u + v == v);
        } else {
            self.lemma_run_step(s, u);
            self.lemma_run_step(s, u + v);
            assert((u + v)[0] == u[0]);
            assert((u + v).skip(1) == u.skip(1) + v);
            if let Some(t) = self.delta(s, u[0]) {
                self.lemma_run_concat(t, u.skip(1), v);
            }
        }
    }

    /// Each state moves on each symbol of the alphabet to a state, and on no
    /// other symbol.
    pub open spec fn steps_ok(&self) -> bool {
        forall|s: u32, a: char| #![trigger self.delta(s, a)]
            (self.states@.contains(s) && self.alphabet@.contains(a) ==> self.delta(s, a) is Some
                && self.states@.contains(self.delta(s, a)->0)) && (!self.alphabet@.contains(a)
                ==> self.delta(s, a) is None)
    }

    pub proof fn lemma_total_steps(&self)
        requires
            self.total(),
        ensures
            self.steps_ok(),
    {
        assert forall|s: u32, a: char| #![trigger self.delta(s, a)]
            (self.states@.contains(s) && self.alphabet@.contains(a) ==> self.delta(s, a) is Some
                && self.states@.contains(self.delta(s, a)->0)) && (!self.alphabet@.contains(a)
                ==> self.delta(s, a) is None) by {
            if self.states@.contains(s) && self.alphabet@.contains(a) {
                self.lemma_total_delta(s, a);
            }
            if !self.alphabet@.contains(a) {
                self.lemma_foreign_delta(s, a);
            }
        }
    }

    /// A text of symbols of the alphabet leads from a state to a state, and
    /// any other text leads nowhere.
    pub proof fn lemma_run_total(&self, s: u32, w: Seq<char>)
        requires
            self.steps_ok(),
            self.states@.contains(s),
        ensures
            (self.run(s, w) is Some) == (forall|j: int| 0 <= j < w.len() ==> self.alphabet@.contains(#[trigger] w[j])),
            self.run(s, w) matches Some(t) ==> self.states@.contains(t),
        decreases w.len(),
    {
        if w.len() > 0 {
            self.lemma_run_step(s, w);
            assert(self.delta(s, w[0]) == self.delta(s, w[0]));
            if self.alphabet@.contains(w[0]) {
                let t = self.delta(s, w[0])->0;
                self.lemma_run_total(t, w.skip(1));
                if forall|j: int| 0 <= j < w.skip(1).len() ==> self.alphabet@.contains(#[trigger] w.skip(1)[j]) {
                    assert forall|j: int| 0 <= j < w.len() implies self.alphabet@.contains(#[trigger] w[j]) by {
                        if j > 0 {
                            assert(w.skip(1)[j - 1] == w[j]);
                        }
                    }
                } else {
                    let j = choose|j: int| 0 <= j < w.skip(1).len() && !self.alphabet@.contains(#[trigger] w.skip(1)[j]);
                    assert(w[j + 1] == w.skip(1)[j]);
                }
            }
        }
    }

    /// Whether reading `w` from `s` ends in a final state.
    pub open spec fn accepts_from(&self, s: u32, w: Seq<char>) -> bool {
        match self.run(s, w) {
            Some(f) => self.final_states@.contains(f),
            None => false,
        }
    }

    /// The language of the automaton.
    pub open spec fn accepts(&self, w: Seq<char>) -> bool {
        match self.initial_state {
            Some(q) => self.accepts_from(q, w),
            None => false,
        }
    }

    /// Every state has exactly one edge on every symbol of the alphabet, and
    /// the edges stay among the states and the alphabet.
    pub open spec fn total(&self) -> bool {
        &&& forall|s: u32, a: char| #![trigger self.states@.contains(s), self.alphabet@.contains(a)]
            self.states@.contains(s) && self.alphabet@.contains(a) ==> exists|t: u32|
                #[trigger] self.transitions@.contains(dedge(s, a, t))
        &&& forall|e1: Transition<char>, e2: Transition<char>| #![trigger self.transitions@.contains(e1), self.transitions@.contains(e2)]
            self.transitions@.contains(e1) && self.transitions@.contains(e2) && e1.from == e2.from
                && e1.label == e2.label ==> e1.to == e2.to
        &&& forall|e: Transition<char>| #[trigger] self.transitions@.contains(e) ==> self.states@.contains(e.from)
            && self.states@.contains(e.to) && self.alphabet@.contains(e.label)
        &&& forall|s: u32| #[trigger] self.final_states@.contains(s) ==> self.states@.contains(s)
        &&& self.initial_state matches Some(q) ==> self.states@.contains(q)
    }

    /// The states are exactly the identifiers below the counter.
    pub open spec fn dense(&self) -> bool {
        forall|s: u32| #[trigger] self.states@.contains(s) <==> s < self.counter.value
    }

    /// Some text is accepted from one of `s`, `t` and not from the other.
    pub open spec fn distinguishable(&self, s: u32, t: u32) -> bool {
        exists|w: Seq<char>| #[trigger] self.accepts_from(s, w) != self.accepts_from(t, w)
    }

    /// In a total automaton every state moves on every symbol of the
    /// alphabet, to a state.
    pub proof fn lemma_total_delta(&self, s: u32, a: char)
        requires
            self.total(),
            self.states@.contains(s),
            self.alphabet@.contains(a),
        ensures
            self.delta(s, a) is Some,
            self.transitions@.contains(dedge(s, a, self.delta(s, a)->0)),
            self.states@.contains(self.delta(s, a)->0),
    {
        lemma_first_target(self.transitions@, s, a);
    }

    /// A symbol outside the alphabet of a total automaton leads nowhere.
    pub proof fn lemma_foreign_delta(&self, s: u32, a: char)
        requires
            self.total(),
            !self.alphabet@.contains(a),
        ensures
            self.delta(s, a) is None,
    {
        lemma_first_target(self.transitions@, s, a);
        assert forall|t: u32| !self.transitions@.contains(dedge(s, a, t)) by {
            if self.transitions@.contains(dedge(s, a, t)) {
                assert(self.alphabet@.contains(dedge(s, a, t).label));
            }
        }
    }

    pub fn new() -> (r: Self)
        ensures
            r.alphabet@ == Seq::<char>::empty(),
            r.states@ == Seq::<u32>::empty(),
            r.transitions@ == Seq::<Transition<char>>::empty(),
            r.final_states@ == Seq::<u32>::empty(),
            r.initial_state is None,
            r.counter.value == 0,
    {
        DFA {
            alphabet: Vec::new(),
            states: Vec::new(),
            transitions: Vec::new(),
            final_states: Vec::new(),
            initial_state: None,
            counter: Counter::new(),
        }
    }

    /// The state that `start_state` reaches on `wanted_label`, if any.
    pub fn reachable(&self, start_state: u32, wanted_label: char) -> (r: Option<u32>)
        ensures
            r == self.delta(start_state, wanted_label),
    {
        let mut i: usize = 0;
        assert(self.transitions@.skip(0) == self.transitions@);
        while i < self.transitions.len()
            invariant
                i <= self.transitions.len(),
                first_target(self.transitions@.skip(i as int), start_state, wanted_label) == self.delta(
                    start_state,
                    wanted_label,
                ),
            decreases self.transitions.len() - i,
        {
            let t = self.transitions[i];
            proof {
                assert(self.transitions@.skip(i as int).skip(1) == self.transitions@.skip(i + 1));
            }
            if t.from == start_state && t.label == wanted_label {
                return Some(t.to);
            }
            i = i + 1;
        }
        None
    }

    /// Whether the whole of `text` is in the language of the automaton.
    pub fn matches(&self, text: &str) -> (r: bool)
        ensures
            r == self.accepts(text@),
    {
        let mut current_state: u32;
        match self.initial_state {
            Some(state) => current_state = state,
            None => return false,
        };
        let chars = crate::pattern::chars_of(text);
        let mut i: usize = 0;
        assert(text@.skip(0) == text@);
        while i < chars.len()
            invariant
                i <= chars.len(),
                chars@ == text@,
                self.initial_state matches Some(q) && self.run(q, text@) == self.run(
                    current_state,
                    text@.skip(i as int),
                ),
            decreases chars.len() - i,
        {
            proof {
                assert(text@.skip(i as int)[0] == chars@[i as int]);
                assert(text@.skip(i as int).skip(1) == text@.skip(i + 1));
            }
            let ghost w = text@.skip(i as int);
            assert(w.len() > 0);
            assert(w[0] == chars@[i as int]);
            proof {
                self.lemma_run_step(current_state, w);
            }
            match self.reachable(current_state, chars[i]) {
                Some(state) => {
                    assert(self.run(current_state, w) == self.run(state, w.skip(1)));
                    current_state = state;
                },
                None => {
                    assert(self.run(current_state, w) is None);
                    return false;
                },
            }
            i = i + 1;
        }
        proof {
            assert(text@.skip(i as int).len() == 0);
        }
        contains_state(&self.final_states, current_state)
    }
}

fn contains_state(v: &Vec<u32>, x: u32) -> (r: bool)
    ensures
        r == v@.contains(x),
{
    crate::vecset::contains_u32(v, x)
}

} // verus!
