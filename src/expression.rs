//! The façade: a pattern compiled to a minimal deterministic automaton.
use vstd::prelude::*;
use crate::determinizer::Determinizer;
use crate::dfa::{DFA, dedge};
use crate::minimizer::all_reachable;
use crate::nerode::{isomorphic_by, comparable, all_apart, lemma_minimal_isomorphic};
use crate::minimizer::Minimizer;
use crate::nfa::NFA;
use crate::nfa_model::{NfaView, shift_set};
use crate::language::lemma_pattern_nfa_accepts;
use crate::pattern::{pattern_nfa, pattern_matches, first_alt_len, alt_nfa};

verus! {

/// What compiling the pattern `p` promises of the automaton `d`: it matches
/// exactly the texts of `p`, over the symbols of `p`; it is total, on the
/// identifiers below its counter, and no two of its states are alike; it
/// reaches all its states from its initial state, and when the pattern has no
/// atom at all it has no initial state, a single state and no final one.
pub open spec fn compiled(p: Seq<char>, d: DFA) -> bool {
    &&& forall|w: Seq<char>| #[trigger] d.accepts(w) == pattern_matches(p, w)
    &&& d.total()
    &&& d.dense()
    &&& d.alphabet@.to_set() == pattern_nfa(p).alphabet
    &&& all_apart(d)
    &&& (d.initial_state is None) == (pattern_nfa(p).initial_states == Set::<u32>::empty())
    &&& d.initial_state is Some ==> all_reachable(d)
    &&& d.initial_state is None ==> d.counter.value == 1 && forall|x: u32| !d.final_states@.contains(x)
}

/// Compiling one pattern twice gives the same automaton up to the names of
/// its states.
pub proof fn lemma_compilation_deterministic(p: Seq<char>, d1: DFA, d2: DFA)
    requires
        compiled(p, d1),
        compiled(p, d2),
    ensures
        exists|f: spec_fn(u32) -> u32| isomorphic_by(d1, d2, f),
{
    if d1.initial_state is Some {
        d1.lemma_total_steps();
        d2.lemma_total_steps();
        assert(comparable(d1, d2));
        lemma_minimal_isomorphic(d1, d2);
    } else {
        let f = |x: u32| x;
        assert forall|s: u32, a: char, t: u32| d1.states@.contains(s) && d1.states@.contains(t) implies (#[trigger] d1.transitions@.contains(dedge(s, a, t))
            <==> #[trigger] d2.transitions@.contains(dedge(f(s), a, f(t)))) by {
            assert(s == 0 && t == 0);
            assert(d2.states@.contains(0u32));
            if d1.transitions@.contains(dedge(s, a, t)) {
                assert(d1.alphabet@.contains(a));
                assert(d1.alphabet@.to_set().contains(a));
                assert(d2.alphabet@.contains(a));
                let x = choose|x: u32| #[trigger] d2.transitions@.contains(dedge(0, a, x));
                assert(d2.states@.contains(x));
            }
            if d2.transitions@.contains(dedge(0, a, 0)) {
                assert(d2.alphabet@.contains(a));
                assert(d2.alphabet@.to_set().contains(a));
                assert(d1.alphabet@.contains(a));
                let x = choose|x: u32| #[trigger] d1.transitions@.contains(dedge(0, a, x));
                assert(d1.states@.contains(x));
            }
        }
        assert forall|t: u32| #[trigger] d2.states@.contains(t) implies exists|s: u32| d1.states@.contains(s) && #[trigger] f(s) == t by {
            assert(d1.states@.contains(0u32));
            assert(f(0) == t);
        }
        assert(isomorphic_by(d1, d2, f));
    }
}

pub struct Expression {
    pub dfa: DFA,
}

impl Expression {
    /// Whether the expression matches the whole of `w`.
    pub open spec fn accepts(&self, w: Seq<char>) -> bool {
        self.dfa.accepts(w)
    }

    /// Compiles `string`: parse, subset construction, minimization. The
    /// empty pattern matches nothing, the empty text included, and its
    /// automaton has no initial state.
    ///
    /// State identifiers are 32-bit, so the pattern must be short enough for
    /// the automaton's states, and its subset construction must have fewer
    /// state sets than there are identifiers.
    pub fn new(string: &str) -> (r: Self)
        requires
            2 * string@.len() <= u32::MAX,
            pattern_nfa(string@).reachable_subsets().len() < u32::MAX,
        ensures
            compiled(string@, r.dfa),
            forall|w: Seq<char>| r.accepts(w) == pattern_nfa(string@).accepts(w),
            string@.len() == 0 ==> r.dfa.initial_state is None,
    {
        let nfa = NFA::from_string(string);
        proof {
            if string@.len() == 0 {
                let empty = NfaView::empty();
                assert(pattern_nfa(string@).initial_states =~= Set::<u32>::empty()) by {
                    assert(first_alt_len(string@) == 0);
                    assert(string@.take(0).len() == 0);
                    assert(alt_nfa(string@.take(0)) == empty);
                    assert(shift_set(empty.initial_states, 0) =~= Set::<u32>::empty());
                }
                if nfa.initial_states@.len() > 0 {
                    assert(nfa@.initial_states.contains(nfa.initial_states@[0]));
                }
            }
        }
        let ghost a = nfa@;
        let det = Determinizer::new(nfa).determinize().take();
        proof {
            if det.initial_state is Some {
                assert forall|s: u32| #[trigger] det.states@.contains(s) implies (det.initial_state matches Some(q) && det.reaches(q, s)) by {
                    assert(s < det.counter.value);
                }
            }
            if a.initial_states == Set::<u32>::empty() {
                assert(nfa.initial_states@.len() == 0) by {
                    if nfa.initial_states@.len() > 0 {
                        assert(a.initial_states.contains(nfa.initial_states@[0]));
                    }
                }
            } else {
                assert(exists|x: u32| a.initial_states.contains(x)) by {
                    if !(exists|x: u32| a.initial_states.contains(x)) {
                        assert(a.initial_states =~= Set::<u32>::empty());
                    }
                }
                let x = choose|x: u32| a.initial_states.contains(x);
                assert(nfa.initial_states@.contains(x));
                assert(nfa.initial_states@.len() > 0);
            }
        }
        let dfa = Minimizer::new(det).minimize().take();
        proof {
            assert forall|w: Seq<char>| dfa.accepts(w) == pattern_matches(string@, w) by {
                lemma_pattern_nfa_accepts(string@, w);
            }
            assert(dfa.alphabet@.to_set() == det.alphabet@.to_set());
            if dfa.initial_state is None {
                assert(det.initial_state is None);
            }
        }
        Expression { dfa }
    }

    /// Whether the expression matches the whole of `text`.
    pub fn matches(&self, text: &str) -> (r: bool)
        ensures
            r == self.accepts(text@),
    {
        self.dfa.matches(text)
    }
}

} // verus!
