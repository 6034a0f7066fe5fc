//! Two automata with one language, whose states are all reached and told
//! apart, are the same up to the names of their states.
use vstd::prelude::*;
use crate::dfa::{DFA, dedge, lemma_first_target};
use crate::transition::Transition;
use crate::minimizer::all_reachable;

verus! {

/// `f` renames the states of `d1` into those of `d2`, one to one, keeping
/// the initial state, the final states and the edges.
pub open spec fn isomorphic_by(d1: DFA, d2: DFA, f: spec_fn(u32) -> u32) -> bool {
    &&& forall|s: u32| #[trigger] d1.states@.contains(s) ==> d2.states@.contains(f(s))
    &&& forall|t: u32| #[trigger] d2.states@.contains(t) ==> exists|s: u32| d1.states@.contains(s) && #[trigger] f(s) == t
    &&& forall|s1: u32, s2: u32| d1.states@.contains(s1) && d1.states@.contains(s2) && #[trigger] f(s1) == #[trigger] f(s2) ==> s1 == s2
    &&& d2.initial_state == (match d1.initial_state {
        Some(q) => Some(f(q)),
        None => None,
    })
    &&& forall|s: u32| #[trigger] d1.states@.contains(s) ==> (d1.final_states@.contains(s) <==> d2.final_states@.contains(f(s)))
    &&& forall|s: u32, a: char, t: u32| d1.states@.contains(s) && d1.states@.contains(t) ==> (#[trigger] d1.transitions@.contains(dedge(s, a, t))
        <==> #[trigger] d2.transitions@.contains(dedge(f(s), a, f(t))))
}

/// From `s` in `d1` and `t` in `d2` the same texts are accepted.
pub open spec fn same_future(d1: DFA, s: u32, d2: DFA, t: u32) -> bool {
    forall|v: Seq<char>| #[trigger] d1.accepts_from(s, v) == d2.accepts_from(t, v)
}

/// A text that leads to `s` in `d1` and to `t` in `d2`, which accept the same
/// texts, leaves the same texts to accept from `s` and `t`.
proof fn lemma_same_future(d1: DFA, d2: DFA, w: Seq<char>, s: u32, t: u32)
    requires
        forall|x: Seq<char>| #[trigger] d1.accepts(x) == d2.accepts(x),
        d1.initial_state is Some,
        d2.initial_state is Some,
        d1.run(d1.initial_state->0, w) == Some(s),
        d2.run(d2.initial_state->0, w) == Some(t),
    ensures
        same_future(d1, s, d2, t),
{
    assert forall|v: Seq<char>| #[trigger] d1.accepts_from(s, v) == d2.accepts_from(t, v) by {
        d1.lemma_run_concat(d1.initial_state->0, w, v);
        d2.lemma_run_concat(d2.initial_state->0, w, v);
        assert(d1.accepts(w + v) == d2.accepts(w + v));
    }
}

/// No two edges leave one state on one label for different targets.
pub open spec fn functional(d: DFA) -> bool {
    forall|e1: Transition<char>, e2: Transition<char>| #![trigger d.transitions@.contains(e1), d.transitions@.contains(e2)]
        d.transitions@.contains(e1) && d.transitions@.contains(e2) && e1.from == e2.from && e1.label == e2.label ==> e1.to == e2.to
}

/// Where edges are functional, an edge is where its source moves on its label.
proof fn lemma_edge_is_delta(d: DFA, s: u32, a: char, t: u32)
    requires
        functional(d),
    ensures
        d.transitions@.contains(dedge(s, a, t)) <==> d.delta(s, a) == Some(t),
{
    lemma_first_target(d.transitions@, s, a);
    if d.transitions@.contains(dedge(s, a, t)) {
        let x = d.delta(s, a)->0;
        assert(d.transitions@.contains(dedge(s, a, x)));
    }
}

/// The states `d2` reaches on the texts that reach `s` in `d1`.
pub open spec fn rename(d1: DFA, d2: DFA) -> spec_fn(u32) -> u32 {
    |s: u32| d2.run(d2.initial_state->0, choose|w: Seq<char>| #[trigger] d1.run(d1.initial_state->0, w) == Some(s))->0
}

/// What the comparison of two automata below assumes of them: each moves on
/// exactly the symbols of one alphabet, they accept the same texts, and each
/// reaches all its states from its initial state.
pub open spec fn comparable(d1: DFA, d2: DFA) -> bool {
    &&& d1.steps_ok()
    &&& d2.steps_ok()
    &&& d1.alphabet@.to_set() == d2.alphabet@.to_set()
    &&& forall|x: Seq<char>| #[trigger] d1.accepts(x) == d2.accepts(x)
    &&& d1.initial_state is Some
    &&& d2.initial_state is Some
    &&& d1.states@.contains(d1.initial_state->0)
    &&& d2.states@.contains(d2.initial_state->0)
    &&& all_reachable(d1)
    &&& all_reachable(d2)
}

/// Every state of the one that is told apart from another is.
pub open spec fn all_apart(d: DFA) -> bool {
    forall|g1: u32, g2: u32| #[trigger] d.states@.contains(g1) && #[trigger] d.states@.contains(g2) && g1 != g2
        ==> d.distinguishable(g1, g2)
}

proof fn lemma_comparable_flip(d1: DFA, d2: DFA)
    requires
        comparable(d1, d2),
    ensures
        comparable(d2, d1),
{
}

/// A text that reaches a state of `d1` reaches a state of `d2` with the same future.
proof fn lemma_follow(d1: DFA, d2: DFA, w: Seq<char>, s: u32)
    requires
        comparable(d1, d2),
        d1.run(d1.initial_state->0, w) == Some(s),
    ensures
        d2.run(d2.initial_state->0, w) is Some,
        d2.states@.contains(d2.run(d2.initial_state->0, w)->0),
        same_future(d1, s, d2, d2.run(d2.initial_state->0, w)->0),
{
    let q1 = d1.initial_state->0;
    let q2 = d2.initial_state->0;
    d1.lemma_run_total(q1, w);
    assert forall|j: int| 0 <= j < w.len() implies d2.alphabet@.contains(#[trigger] w[j]) by {
        assert(d1.alphabet@.contains(w[j]));
        assert(d1.alphabet@.to_set().contains(w[j]));
    }
    d2.lemma_run_total(q2, w);
    lemma_same_future(d1, d2, w, s, d2.run(q2, w)->0);
}

/// The state of `d2` reached on a text that reaches `s` in `d1` has the
/// future of `s`.
proof fn lemma_rename(d1: DFA, d2: DFA, s: u32)
    requires
        comparable(d1, d2),
        d1.states@.contains(s),
    ensures
        d2.states@.contains(rename(d1, d2)(s)),
        same_future(d1, s, d2, rename(d1, d2)(s)),
        exists|w: Seq<char>| #[trigger] d1.run(d1.initial_state->0, w) == Some(s) && d2.run(d2.initial_state->0, w) == Some(rename(d1, d2)(s)),
{
    let q1 = d1.initial_state->0;
    assert(d1.reaches(q1, s));
    let w = choose|w: Seq<char>| #[trigger] d1.run(q1, w) == Some(s);
    lemma_follow(d1, d2, w, s);
}

/// States of one automaton with one future are one state.
proof fn lemma_one_future(d: DFA, e: DFA, s: u32, t: u32, x: u32)
    requires
        all_apart(d),
        d.states@.contains(s),
        d.states@.contains(t),
        same_future(d, s, e, x),
        same_future(d, t, e, x),
    ensures
        s == t,
{
    if s != t {
        let v = choose|v: Seq<char>| #[trigger] d.accepts_from(s, v) != d.accepts_from(t, v);
        assert(d.accepts_from(s, v) == e.accepts_from(x, v));
        assert(d.accepts_from(t, v) == e.accepts_from(x, v));
    }
}

/// States of `d2` with the future of one state of `d1` are one state.
proof fn lemma_one_future_right(d1: DFA, s: u32, d2: DFA, t1: u32, t2: u32)
    requires
        all_apart(d2),
        d2.states@.contains(t1),
        d2.states@.contains(t2),
        same_future(d1, s, d2, t1),
        same_future(d1, s, d2, t2),
    ensures
        t1 == t2,
{
    if t1 != t2 {
        let v = choose|v: Seq<char>| #[trigger] d2.accepts_from(t1, v) != d2.accepts_from(t2, v);
        assert(d1.accepts_from(s, v) == d2.accepts_from(t1, v));
        assert(d1.accepts_from(s, v) == d2.accepts_from(t2, v));
    }
}

proof fn lemma_iso_onto(d1: DFA, d2: DFA, t: u32)
    requires
        comparable(d1, d2),
        all_apart(d2),
        d2.states@.contains(t),
    ensures
        exists|s: u32| d1.states@.contains(s) && #[trigger] rename(d1, d2)(s) == t,
{
    let q2 = d2.initial_state->0;
    assert(d2.reaches(q2, t));
    let w = choose|w: Seq<char>| #[trigger] d2.run(q2, w) == Some(t);
    lemma_comparable_flip(d1, d2);
    lemma_follow(d2, d1, w, t);
    let s = d1.run(d1.initial_state->0, w)->0;
    lemma_same_future(d1, d2, w, s, t);
    lemma_rename(d1, d2, s);
    lemma_one_future_right(d1, s, d2, rename(d1, d2)(s), t);
}

proof fn lemma_iso_edge(d1: DFA, d2: DFA, s: u32, a: char, t: u32)
    requires
        comparable(d1, d2),
        functional(d1),
        functional(d2),
        all_apart(d1),
        all_apart(d2),
        d1.states@.contains(s),
        d1.states@.contains(t),
    ensures
        d1.transitions@.contains(dedge(s, a, t)) <==> d2.transitions@.contains(dedge(rename(d1, d2)(s), a, rename(d1, d2)(t))),
{
    let f = rename(d1, d2);
    let q1 = d1.initial_state->0;
    let q2 = d2.initial_state->0;
    lemma_rename(d1, d2, s);
    lemma_rename(d1, d2, t);
    lemma_edge_is_delta(d1, s, a, t);
    lemma_edge_is_delta(d2, f(s), a, f(t));
    assert(d1.delta(s, a) == d1.delta(s, a));
    assert(d2.delta(f(s), a) == d2.delta(f(s), a));
    if d1.alphabet@.contains(a) {
        assert(d1.alphabet@.to_set().contains(a));
        assert(d2.alphabet@.contains(a));
        let t1 = d1.delta(s, a)->0;
        let t2 = d2.delta(f(s), a)->0;
        let w = choose|w: Seq<char>| #[trigger] d1.run(q1, w) == Some(s) && d2.run(q2, w) == Some(f(s));
        let u = w + seq![a];
        d1.lemma_run_concat(q1, w, seq![a]);
        d2.lemma_run_concat(q2, w, seq![a]);
        d1.lemma_run_step(s, seq![a]);
        d2.lemma_run_step(f(s), seq![a]);
        assert(seq![a][0] == a);
        assert(seq![a].skip(1).len() == 0);
        assert(d1.run(q1, u) == Some(t1));
        assert(d2.run(q2, u) == Some(t2));
        lemma_same_future(d1, d2, u, t1, t2);
        lemma_rename(d1, d2, t1);
        lemma_one_future_right(d1, t1, d2, f(t1), t2);
        if d2.transitions@.contains(dedge(f(s), a, f(t))) {
            lemma_one_future(d1, d2, t, t1, f(t));
        }
    } else {
        assert(!d1.alphabet@.to_set().contains(a));
        assert(!d2.alphabet@.contains(a));
        assert(d1.delta(s, a) is None);
        assert(d2.delta(f(s), a) is None);
    }
}

proof fn lemma_iso_states(d1: DFA, d2: DFA)
    requires
        comparable(d1, d2),
        all_apart(d1),
        all_apart(d2),
    ensures
        forall|s: u32| #[trigger] d1.states@.contains(s) ==> d2.states@.contains(rename(d1, d2)(s)),
        forall|t: u32| #[trigger] d2.states@.contains(t) ==> exists|s: u32| d1.states@.contains(s) && #[trigger] rename(d1, d2)(s) == t,
        forall|s1: u32, s2: u32| d1.states@.contains(s1) && d1.states@.contains(s2) && #[trigger] rename(d1, d2)(s1) == #[trigger] rename(d1, d2)(s2)
            ==> s1 == s2,
{
    let f = rename(d1, d2);
    assert forall|s: u32| #[trigger] d1.states@.contains(s) implies d2.states@.contains(f(s)) by {
        lemma_rename(d1, d2, s);
    }
    assert forall|s1: u32, s2: u32| d1.states@.contains(s1) && d1.states@.contains(s2) && #[trigger] f(s1) == #[trigger] f(s2)
        implies s1 == s2 by {
        lemma_rename(d1, d2, s1);
        lemma_rename(d1, d2, s2);
        lemma_one_future(d1, d2, s1, s2, f(s1));
    }
    assert forall|t: u32| #[trigger] d2.states@.contains(t) implies exists|s: u32| d1.states@.contains(s) && #[trigger] f(s) == t by {
        lemma_iso_onto(d1, d2, t);
    }
}

proof fn lemma_iso_marks(d1: DFA, d2: DFA)
    requires
        comparable(d1, d2),
        all_apart(d2),
    ensures
        rename(d1, d2)(d1.initial_state->0) == d2.initial_state->0,
        forall|s: u32| #[trigger] d1.states@.contains(s) ==> (d1.final_states@.contains(s) <==> d2.final_states@.contains(rename(d1, d2)(s))),
{
    let f = rename(d1, d2);
    let q1 = d1.initial_state->0;
    let q2 = d2.initial_state->0;
    assert(d1.run(q1, Seq::<char>::empty()) == Some(q1));
    lemma_same_future(d1, d2, Seq::<char>::empty(), q1, q2);
    lemma_rename(d1, d2, q1);
    lemma_one_future_right(d1, q1, d2, f(q1), q2);
    assert forall|s: u32| #[trigger] d1.states@.contains(s) implies (d1.final_states@.contains(s) <==> d2.final_states@.contains(f(s))) by {
        lemma_rename(d1, d2, s);
        let e = Seq::<char>::empty();
        assert(d1.accepts_from(s, e) == d2.accepts_from(f(s), e));
    }
}

/// Two automata with one alphabet and one language, each moving on exactly
/// the symbols of the alphabet, reaching all its states and telling any two
/// of them apart, are isomorphic.
pub proof fn lemma_minimal_isomorphic(d1: DFA, d2: DFA)
    requires
        comparable(d1, d2),
        functional(d1),
        functional(d2),
        all_apart(d1),
        all_apart(d2),
    ensures
        isomorphic_by(d1, d2, rename(d1, d2)),
{
    let f = rename(d1, d2);
    lemma_iso_states(d1, d2);
    lemma_iso_marks(d1, d2);
    assert forall|s: u32, a: char, t: u32| d1.states@.contains(s) && d1.states@.contains(t) implies (#[trigger] d1.transitions@.contains(dedge(s, a, t))
        <==> #[trigger] d2.transitions@.contains(dedge(f(s), a, f(t)))) by {
        lemma_iso_edge(d1, d2, s, a, t);
    }
}

} // verus!
