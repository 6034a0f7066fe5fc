use std::collections::BTreeSet;

use automata::automaton::Automaton;
use automata::counter::Counter;
use automata::determinizer::Determinizer;
use automata::dfa::DFA;
use automata::expression::Expression;
use automata::minimizer::Minimizer;
use automata::nfa::NFA;
use automata::transition::Transition;

fn set_of<T: Ord + Clone>(items: &[T]) -> BTreeSet<T> {
    items.iter().cloned().collect()
}

// Automaton

#[test]
fn create_from_letter() {
    let automaton = Automaton::from_char('a');

    assert_eq!(set_of(&automaton.alphabet), set_of(&['a']));
    assert_eq!(set_of(&automaton.states), set_of(&[0, 1]));
    assert_eq!(set_of(&automaton.initial_states), set_of(&[0]));
    assert_eq!(set_of(&automaton.final_states), set_of(&[1]));
    assert_eq!(set_of(&automaton.transitions), set_of(&[Transition::new(0, Some('a'), 1)]));
    assert_eq!(automaton.counter.value, 2);
}

#[test]
fn create_from_string() {
    let automaton = Automaton::from_string("abc");

    assert_eq!(set_of(&automaton.alphabet), set_of(&['a', 'b', 'c']));
    assert_eq!(set_of(&automaton.states), set_of(&[0, 1, 2, 3, 4, 5]));
    assert_eq!(set_of(&automaton.initial_states), set_of(&[4]));
    assert_eq!(set_of(&automaton.final_states), set_of(&[1]));
    assert_eq!(set_of(&automaton.transitions), set_of(&[
        Transition::new(4, Some('a'), 5),
        Transition::new(5, None, 2),
        Transition::new(2, Some('b'), 3),
        Transition::new(3, None, 0),
        Transition::new(0, Some('c'), 1)
    ]));
    assert_eq!(automaton.counter.value, 6);
}

#[test]
fn automaton_union_automata() {
    let mut automaton1 = Automaton::from_char('a');
    let automaton2 = Automaton::from_char('b');

    automaton1.union(&automaton2);

    assert_eq!(set_of(&automaton1.alphabet), set_of(&['a', 'b']));
    assert_eq!(set_of(&automaton1.states), set_of(&[0, 1, 2, 3]));
    assert_eq!(set_of(&automaton1.initial_states), set_of(&[0, 2]));
    assert_eq!(set_of(&automaton1.final_states), set_of(&[1, 3]));
    assert_eq!(set_of(&automaton1.transitions), set_of(&[
        Transition::new(2, Some('a'), 3),
        Transition::new(0, Some('b'), 1)
    ]));
    assert_eq!(automaton1.counter.value, 4);
}

#[test]
fn automaton_concat_automata() {
    let mut automaton1 = Automaton::from_char('a');
    let automaton2 = Automaton::from_char('b');

    automaton1.concat(&automaton2);

    assert_eq!(set_of(&automaton1.alphabet), set_of(&['a', 'b']));
    assert_eq!(set_of(&automaton1.states), set_of(&[0, 1, 2, 3]));
    assert_eq!(set_of(&automaton1.initial_states), set_of(&[2]));
    assert_eq!(set_of(&automaton1.final_states), set_of(&[1]));
    assert_eq!(set_of(&automaton1.transitions), set_of(&[
        Transition::new(2, Some('a'), 3),
        Transition::new(3, None, 0),
        Transition::new(0, Some('b'), 1)
    ]));
    assert_eq!(automaton1.counter.value, 4);
}

#[test]
fn automaton_kleene_automata() {
    let mut automaton = Automaton::from_char('a');

    automaton.kleene();

    assert_eq!(set_of(&automaton.states), set_of(&[0, 1, 2, 3]));
    assert_eq!(set_of(&automaton.initial_states), set_of(&[2]));
    assert_eq!(set_of(&automaton.final_states), set_of(&[3]));
    assert_eq!(set_of(&automaton.transitions), set_of(&[
        Transition::new(0, Some('a'), 1),
        Transition::new(1, None, 3),
        Transition::new(3, None, 2),
        Transition::new(2, None, 0)
    ]));
    assert_eq!(automaton.counter.value, 4);
}

#[test]
fn automaton_shift_states() {
    let mut automaton = Automaton::from_char('a');
    automaton.shift_states(2);

    assert_eq!(set_of(&automaton.states), set_of(&[2, 3]));
    assert_eq!(set_of(&automaton.initial_states), set_of(&[2]));
    assert_eq!(set_of(&automaton.final_states), set_of(&[3]));
    assert_eq!(set_of(&automaton.transitions), set_of(&[Transition::new(2, Some('a'), 3)]));
}

#[test]
fn automaton_reachable_follows_one_label() {
    let automaton = Automaton::from_string("ab");

    assert_eq!(set_of(&automaton.reachable(2, Some('a'))), set_of(&[3]));
    assert_eq!(set_of(&automaton.reachable(3, None)), set_of(&[0]));
    assert!(automaton.reachable(2, Some('b')).is_empty());
}

// NFA

#[test]
fn create_from_char() {
    let nfa = NFA::from_char('a');

    assert_eq!(set_of(&nfa.alphabet), set_of(&['a']));
    assert_eq!(set_of(&nfa.states), set_of(&[0, 1]));
    assert_eq!(set_of(&nfa.initial_states), set_of(&[0]));
    assert_eq!(set_of(&nfa.final_states), set_of(&[1]));
    assert_eq!(set_of(&nfa.transitions), set_of(&[Transition::new(0, Some('a'), 1)]));
    assert_eq!(nfa.counter.value, 2);
}

#[test]
fn create_from_optional_char() {
    let nfa = NFA::from_optional_char('a');

    assert_eq!(set_of(&nfa.alphabet), set_of(&['a']));
    assert_eq!(set_of(&nfa.states), set_of(&[0, 1]));
    assert_eq!(set_of(&nfa.initial_states), set_of(&[0]));
    assert_eq!(set_of(&nfa.final_states), set_of(&[1]));
    assert_eq!(set_of(&nfa.transitions), set_of(&[
        Transition::new(0, Some('a'), 1),
        Transition::new(0, None, 1)
    ]));
    assert_eq!(nfa.counter.value, 2);
}

#[test]
fn create_from_plus_char() {
    let nfa = NFA::from_plus_char('a');

    assert_eq!(set_of(&nfa.alphabet), set_of(&['a']));
    assert_eq!(set_of(&nfa.states), set_of(&[0, 1]));
    assert_eq!(set_of(&nfa.initial_states), set_of(&[0]));
    assert_eq!(set_of(&nfa.final_states), set_of(&[1]));
    assert_eq!(set_of(&nfa.transitions), set_of(&[
        Transition::new(0, Some('a'), 1),
        Transition::new(1, Some('a'), 1)
    ]));
    assert_eq!(nfa.counter.value, 2);
}

#[test]
fn create_from_plain_string() {
    let nfa = NFA::from_string("abc");

    assert_eq!(set_of(&nfa.alphabet), set_of(&['a', 'b', 'c']));
    assert_eq!(set_of(&nfa.states), set_of(&[0, 1, 2, 3, 4, 5]));
    assert_eq!(set_of(&nfa.initial_states), set_of(&[4]));
    assert_eq!(set_of(&nfa.final_states), set_of(&[1]));
    assert_eq!(set_of(&nfa.transitions), set_of(&[
        Transition::new(4, Some('a'), 5),
        Transition::new(5, None, 2),
        Transition::new(2, Some('b'), 3),
        Transition::new(3, None, 0),
        Transition::new(0, Some('c'), 1)
    ]));
    assert_eq!(nfa.counter.value, 6);
}

#[test]
fn create_from_string_with_optional_chars() {
    let nfa = NFA::from_string("ab?");

    assert_eq!(set_of(&nfa.alphabet), set_of(&['a', 'b']));
    assert_eq!(set_of(&nfa.states), set_of(&[0, 1, 2, 3]));
    assert_eq!(set_of(&nfa.initial_states), set_of(&[2]));
    assert_eq!(set_of(&nfa.final_states), set_of(&[1]));
    assert_eq!(set_of(&nfa.transitions), set_of(&[
        Transition::new(2, Some('a'), 3),
        Transition::new(3, None, 0),
        Transition::new(0, Some('b'), 1),
        Transition::new(0, None, 1)
    ]));
    assert_eq!(nfa.counter.value, 4);
}

#[test]
fn create_from_string_with_kleene_chars() {
    let nfa = NFA::from_string("ca*");

    assert_eq!(set_of(&nfa.alphabet), set_of(&['c', 'a']));
    assert_eq!(set_of(&nfa.states), set_of(&[0, 1, 2, 3, 4, 5]));
    assert_eq!(set_of(&nfa.initial_states), set_of(&[4]));
    assert_eq!(set_of(&nfa.final_states), set_of(&[3]));
    assert_eq!(set_of(&nfa.transitions), set_of(&[
        Transition::new(0, Some('a'), 1),
        Transition::new(1, None, 0),
        Transition::new(1, None, 3),
        Transition::new(2, None, 0),
        Transition::new(2, None, 3),
        Transition::new(4, Some('c'), 5),
        Transition::new(5, None, 2)
    ]));
    assert_eq!(nfa.counter.value, 6);
}

#[test]
fn create_from_string_with_plus_chars() {
    let nfa = NFA::from_string("a+b");

    assert_eq!(set_of(&nfa.alphabet), set_of(&['a', 'b']));
    assert_eq!(set_of(&nfa.states), set_of(&[0, 1, 2, 3]));
    assert_eq!(set_of(&nfa.initial_states), set_of(&[2]));
    assert_eq!(set_of(&nfa.final_states), set_of(&[1]));
    assert_eq!(set_of(&nfa.transitions), set_of(&[
        Transition::new(0, Some('b'), 1),
        Transition::new(2, Some('a'), 3),
        Transition::new(3, None, 0),
        Transition::new(3, Some('a'), 3)
    ]));
    assert_eq!(nfa.counter.value, 4);
}

#[test]
fn create_from_string_with_or_chars() {
    let nfa = NFA::from_string("a|b");

    assert_eq!(set_of(&nfa.alphabet), set_of(&['a', 'b']));
    assert_eq!(set_of(&nfa.states), set_of(&[0, 1, 2, 3]));
    assert_eq!(set_of(&nfa.initial_states), set_of(&[0, 2]));
    assert_eq!(set_of(&nfa.final_states), set_of(&[1, 3]));
    assert_eq!(set_of(&nfa.transitions), set_of(&[
        Transition::new(0, Some('b'), 1),
        Transition::new(2, Some('a'), 3)
    ]));
    assert_eq!(nfa.counter.value, 4);
}

#[test]
fn nfa_union_automata() {
    let mut nfa1 = NFA::from_char('a');
    let nfa2 = NFA::from_char('b');

    nfa1.union(&nfa2);

    assert_eq!(set_of(&nfa1.alphabet), set_of(&['a', 'b']));
    assert_eq!(set_of(&nfa1.states), set_of(&[0, 1, 2, 3]));
    assert_eq!(set_of(&nfa1.initial_states), set_of(&[0, 2]));
    assert_eq!(set_of(&nfa1.final_states), set_of(&[1, 3]));
    assert_eq!(set_of(&nfa1.transitions), set_of(&[
        Transition::new(2, Some('a'), 3),
        Transition::new(0, Some('b'), 1)
    ]));
    assert_eq!(nfa1.counter.value, 4);
}

#[test]
fn nfa_concat_automata() {
    let mut nfa1 = NFA::from_char('a');
    let nfa2 = NFA::from_char('b');

    nfa1.concat(&nfa2);

    assert_eq!(set_of(&nfa1.alphabet), set_of(&['a', 'b']));
    assert_eq!(set_of(&nfa1.states), set_of(&[0, 1, 2, 3]));
    assert_eq!(set_of(&nfa1.initial_states), set_of(&[2]));
    assert_eq!(set_of(&nfa1.final_states), set_of(&[1]));
    assert_eq!(set_of(&nfa1.transitions), set_of(&[
        Transition::new(2, Some('a'), 3),
        Transition::new(3, None, 0),
        Transition::new(0, Some('b'), 1)
    ]));
    assert_eq!(nfa1.counter.value, 4);
}

#[test]
fn nfa_kleene_automata() {
    let mut nfa = NFA::from_char('a');

    nfa.kleene();

    assert_eq!(set_of(&nfa.states), set_of(&[0, 1, 2, 3]));
    assert_eq!(set_of(&nfa.initial_states), set_of(&[2]));
    assert_eq!(set_of(&nfa.final_states), set_of(&[3]));
    assert_eq!(set_of(&nfa.transitions), set_of(&[
        Transition::new(0, Some('a'), 1),
        Transition::new(1, None, 0),
        Transition::new(1, None, 3),
        Transition::new(2, None, 0),
        Transition::new(2, None, 3)
    ]));
    assert_eq!(nfa.counter.value, 4);
}

#[test]
fn nfa_shift_states() {
    let mut nfa = NFA::from_char('a');
    nfa.shift_states(2);

    assert_eq!(set_of(&nfa.states), set_of(&[2, 3]));
    assert_eq!(set_of(&nfa.initial_states), set_of(&[2]));
    assert_eq!(set_of(&nfa.final_states), set_of(&[3]));
    assert_eq!(set_of(&nfa.transitions), set_of(&[Transition::new(2, Some('a'), 3)]));
}

#[test]
fn nfa_reachable_follows_one_label() {
    let nfa = NFA::from_optional_char('a');

    assert_eq!(set_of(&nfa.reachable(0, Some('a'))), set_of(&[1]));
    assert_eq!(set_of(&nfa.reachable(0, None)), set_of(&[1]));
    assert!(nfa.reachable(1, Some('a')).is_empty());
}

#[test]
fn empty_pattern_gives_empty_nfa() {
    let nfa = NFA::from_string("");

    assert!(nfa.states.is_empty());
    assert!(nfa.initial_states.is_empty());
    assert_eq!(nfa.counter.value, 0);
}

// Determinizer

#[test]
fn epsilon_closure() {
    let mut nfa = NFA::new();
    nfa.states.push(0);
    nfa.states.push(1);
    nfa.states.push(2);
    nfa.counter.value = 3;
    nfa.transitions.push(Transition::new(0, Some('a'), 1));
    nfa.transitions.push(Transition::new(1, None, 2));
    nfa.transitions.push(Transition::new(2, Some('b'), 0));

    let determinizer = Determinizer::new(nfa);

    assert_eq!(set_of(&determinizer.epsilon_closure(&vec![0])), set_of(&[0]));
    assert_eq!(set_of(&determinizer.epsilon_closure(&vec![0, 1])), set_of(&[0, 1, 2]));
    assert_eq!(set_of(&determinizer.epsilon_closure(&vec![1])), set_of(&[1, 2]));
}

fn determinize_sample() -> NFA {
    let mut nfa = NFA::new();

    nfa.alphabet = vec!['a', 'b'];
    nfa.states = vec![0, 1, 2];
    nfa.counter.value = 3;

    nfa.initial_states = vec![2];
    nfa.final_states = vec![0];

    nfa.transitions = vec![
        Transition::new(0, Some('a'), 1),
        Transition::new(0, Some('b'), 2),
        Transition::new(0, None, 1),
        Transition::new(1, Some('b'), 1),
        Transition::new(1, None, 0),
        Transition::new(2, Some('a'), 2),
        Transition::new(2, Some('b'), 1)
    ];
    nfa
}

#[test]
fn determinize() {
    let nfa = determinize_sample();

    let dfa = Determinizer::new(nfa).determinize().take();

    assert_eq!(set_of(&dfa.alphabet), set_of(&['a', 'b']));
    assert_eq!(set_of(&dfa.states), set_of(&[0, 1, 2]));
    assert_eq!(dfa.counter.value, 3);
    assert_eq!(dfa.initial_state, Some(0));
    assert_eq!(set_of(&dfa.final_states), set_of(&[1, 2]));
    assert_eq!(set_of(&dfa.transitions), set_of(&[
        Transition::new(0, 'a', 0),
        Transition::new(0, 'b', 1),
        Transition::new(1, 'a', 1),
        Transition::new(1, 'b', 2),
        Transition::new(2, 'a', 2),
        Transition::new(2, 'b', 2)
    ]));
}

/// Every state has exactly one edge on every symbol of the alphabet.
fn is_total(dfa: &DFA) -> bool {
    dfa.states.iter().all(|s| {
        dfa.alphabet.iter().all(|a| {
            dfa.transitions.iter().filter(|t| t.from == *s && t.label == *a).count() == 1
        })
    })
}

#[test]
fn determinized_automaton_is_total() {
    let dfa = Determinizer::new(NFA::from_string("ab|c")).determinize().take();
    assert!(is_total(&dfa));

    let sample = Determinizer::new(determinize_sample()).determinize().take();
    assert!(is_total(&sample));
}

#[test]
fn determinize_empty_nfa_has_no_initial_state() {
    let dfa = Determinizer::new(NFA::new()).determinize().take();

    assert_eq!(set_of(&dfa.states), set_of(&[0]));
    assert!(dfa.final_states.is_empty());
    assert_eq!(dfa.initial_state, None);
    assert!(!dfa.matches(""));
}

#[test]
fn determinized_automaton_matches_like_the_nfa() {
    let dfa = Determinizer::new(NFA::from_string("a+b|c")).determinize().take();

    assert!(dfa.matches("ab"));
    assert!(dfa.matches("aaab"));
    assert!(dfa.matches("c"));
    assert!(!dfa.matches("b"));
    assert!(!dfa.matches("ac"));
    assert_eq!(dfa.reachable(0, 'x'), None);
}

// Minimizer

#[test]
fn minimize_1() {
    let mut dfa = DFA::new();

    dfa.alphabet = vec!['a', 'b'];
    dfa.states = vec![0, 1, 2, 3];
    dfa.counter.value = 4;

    dfa.initial_state = Some(0);

    dfa.final_states = vec![1, 3];

    dfa.transitions = vec![
        Transition::new(0, 'a', 1),
        Transition::new(0, 'b', 2),
        Transition::new(1, 'a', 1),
        Transition::new(1, 'b', 2),
        Transition::new(2, 'a', 3),
        Transition::new(2, 'b', 0),
        Transition::new(3, 'a', 3),
        Transition::new(3, 'b', 0)
    ];

    dfa = Minimizer::new(dfa).minimize().take();

    assert_eq!(set_of(&dfa.states), set_of(&[0, 1]));
    assert_eq!(dfa.counter.value, 2);
    assert_eq!(dfa.initial_state, Some(0));
    assert_eq!(set_of(&dfa.final_states), set_of(&[1]));
    assert_eq!(set_of(&dfa.transitions), set_of(&[
        Transition::new(0, 'a', 1),
        Transition::new(0, 'b', 0),
        Transition::new(1, 'a', 1),
        Transition::new(1, 'b', 0)
    ]));
}

#[test]
fn minimize_2() {
    let mut dfa = DFA::new();

    dfa.alphabet = vec!['a', 'b'];
    dfa.states = vec![0, 1, 2, 3];
    dfa.counter.value = 4;

    dfa.initial_state = Some(0);

    dfa.final_states = vec![2];

    dfa.transitions = vec![
        Transition::new(0, 'a', 1),
        Transition::new(0, 'b', 2),
        Transition::new(1, 'a', 2),
        Transition::new(1, 'b', 3),
        Transition::new(2, 'a', 1),
        Transition::new(2, 'b', 3),
        Transition::new(3, 'a', 2),
        Transition::new(3, 'b', 1)
    ];

    dfa = Minimizer::new(dfa).minimize().take();

    assert_eq!(set_of(&dfa.states), set_of(&[0, 1, 2]));
    assert_eq!(dfa.counter.value, 3);
    assert_eq!(dfa.initial_state, Some(0));
    assert_eq!(set_of(&dfa.final_states), set_of(&[2]));
    assert_eq!(set_of(&dfa.transitions), set_of(&[
        Transition::new(0, 'a', 1),
        Transition::new(0, 'b', 2),
        Transition::new(1, 'a', 2),
        Transition::new(1, 'b', 1),
        Transition::new(2, 'a', 1),
        Transition::new(2, 'b', 1)
    ]));
}

#[test]
fn minimize_twice_keeps_the_state_count() {
    for pattern in ["abc", "ab*c", "ab|c", "a+bc*|ca*", "Ivan|Petq"] {
        let once = Expression::new(pattern).dfa;
        let count = once.counter.value;
        let twice = Minimizer::new(once).minimize().take();
        assert_eq!(twice.counter.value, count);
        assert_eq!(set_of(&twice.states).len() as u32, count);
    }
}

/// A copy of `dfa` that starts in `state`.
fn starting_at(dfa: &DFA, state: u32) -> DFA {
    DFA {
        alphabet: dfa.alphabet.clone(),
        states: dfa.states.clone(),
        transitions: dfa.transitions.clone(),
        final_states: dfa.final_states.clone(),
        initial_state: Some(state),
        counter: Counter { value: dfa.counter.value },
    }
}

#[test]
fn minimized_states_are_pairwise_distinguishable() {
    let dfa = Expression::new("ab?c").dfa;
    let texts = ["", "a", "b", "c", "ab", "ac", "bc", "abc"];
    for s in dfa.states.iter() {
        for t in dfa.states.iter() {
            if s != t {
                let apart = texts.iter().any(|w| {
                    starting_at(&dfa, *s).matches(w) != starting_at(&dfa, *t).matches(w)
                });
                assert!(apart);
            }
        }
    }
}

// Expression

#[test]
fn test_expression_from_plain_string() {
    let expression = Expression::new("abc");
    let dfa = expression.dfa;

    assert_eq!(set_of(&dfa.alphabet), set_of(&['a', 'b', 'c']));
    assert_eq!(set_of(&dfa.states), set_of(&[0, 1, 2, 3, 4]));
    assert_eq!(dfa.initial_state, Some(1));
    assert_eq!(set_of(&dfa.final_states), set_of(&[4]));
    assert_eq!(set_of(&dfa.transitions), set_of(&[
        Transition::new(0, 'a', 0),
        Transition::new(0, 'b', 0),
        Transition::new(0, 'c', 0),
        Transition::new(1, 'a', 2),
        Transition::new(1, 'b', 0),
        Transition::new(1, 'c', 0),
        Transition::new(2, 'a', 0),
        Transition::new(2, 'b', 3),
        Transition::new(2, 'c', 0),
        Transition::new(3, 'a', 0),
        Transition::new(3, 'b', 0),
        Transition::new(3, 'c', 4),
        Transition::new(4, 'a', 0),
        Transition::new(4, 'b', 0),
        Transition::new(4, 'c', 0)
    ]));
    assert_eq!(dfa.counter.value, 5);
}

#[test]
fn test_expression_from_string_with_optional_chars() {
    let expression = Expression::new("ab?c");
    let dfa = expression.dfa;

    assert_eq!(set_of(&dfa.alphabet), set_of(&['a', 'b', 'c']));
    assert_eq!(set_of(&dfa.states), set_of(&[0, 1, 2, 3, 4]));
    assert_eq!(dfa.initial_state, Some(1));
    assert_eq!(set_of(&dfa.final_states), set_of(&[4]));
    assert_eq!(set_of(&dfa.transitions), set_of(&[
        Transition::new(0, 'a', 0),
        Transition::new(0, 'b', 0),
        Transition::new(0, 'c', 0),
        Transition::new(1, 'a', 3),
        Transition::new(1, 'b', 0),
        Transition::new(1, 'c', 0),
        Transition::new(2, 'a', 0),
        Transition::new(2, 'b', 0),
        Transition::new(2, 'c', 4),
        Transition::new(3, 'a', 0),
        Transition::new(3, 'b', 2),
        Transition::new(3, 'c', 4),
        Transition::new(4, 'a', 0),
        Transition::new(4, 'b', 0),
        Transition::new(4, 'c', 0)
    ]));
    assert_eq!(dfa.counter.value, 5);
}

#[test]
fn test_expression_from_string_with_kleene_chars() {
    let expression = Expression::new("ab*c");
    let dfa = expression.dfa;

    assert_eq!(set_of(&dfa.alphabet), set_of(&['a', 'b', 'c']));
    assert_eq!(set_of(&dfa.states), set_of(&[0, 1, 2, 3]));
    assert_eq!(dfa.initial_state, Some(1));
    assert_eq!(set_of(&dfa.final_states), set_of(&[3]));
    assert_eq!(set_of(&dfa.transitions), set_of(&[
        Transition::new(0, 'a', 0),
        Transition::new(0, 'b', 0),
        Transition::new(0, 'c', 0),
        Transition::new(1, 'a', 2),
        Transition::new(1, 'b', 0),
        Transition::new(1, 'c', 0),
        Transition::new(2, 'a', 0),
        Transition::new(2, 'b', 2),
        Transition::new(2, 'c', 3),
        Transition::new(3, 'a', 0),
        Transition::new(3, 'b', 0),
        Transition::new(3, 'c', 0)
    ]));
    assert_eq!(dfa.counter.value, 4);
}

#[test]
fn test_expression_from_string_with_plus_chars() {
    let expression = Expression::new("ab+c");
    let dfa = expression.dfa;

    assert_eq!(set_of(&dfa.alphabet), set_of(&['a', 'b', 'c']));
    assert_eq!(set_of(&dfa.states), set_of(&[0, 1, 2, 3, 4]));
    assert_eq!(dfa.initial_state, Some(1));
    assert_eq!(set_of(&dfa.final_states), set_of(&[4]));
    assert_eq!(set_of(&dfa.transitions), set_of(&[
        Transition::new(0, 'a', 0),
        Transition::new(0, 'b', 0),
        Transition::new(0, 'c', 0),
        Transition::new(1, 'a', 2),
        Transition::new(1, 'b', 0),
        Transition::new(1, 'c', 0),
        Transition::new(2, 'a', 0),
        Transition::new(2, 'b', 3),
        Transition::new(2, 'c', 0),
        Transition::new(3, 'a', 0),
        Transition::new(3, 'b', 3),
        Transition::new(3, 'c', 4),
        Transition::new(4, 'a', 0),
        Transition::new(4, 'b', 0),
        Transition::new(4, 'c', 0)
    ]));
    assert_eq!(dfa.counter.value, 5);
}

#[test]
fn test_expression_from_string_with_or_chars() {
    let expression = Expression::new("ab|c");
    let dfa = expression.dfa;

    assert_eq!(set_of(&dfa.alphabet), set_of(&['a', 'b', 'c']));
    assert_eq!(set_of(&dfa.states), set_of(&[0, 1, 2, 3]));
    assert_eq!(dfa.initial_state, Some(1));
    assert_eq!(set_of(&dfa.final_states), set_of(&[3]));
    assert_eq!(set_of(&dfa.transitions), set_of(&[
        Transition::new(0, 'a', 0),
        Transition::new(0, 'b', 0),
        Transition::new(0, 'c', 0),
        Transition::new(1, 'a', 2),
        Transition::new(1, 'b', 0),
        Transition::new(1, 'c', 3),
        Transition::new(2, 'a', 0),
        Transition::new(2, 'b', 3),
        Transition::new(2, 'c', 0),
        Transition::new(3, 'a', 0),
        Transition::new(3, 'b', 0),
        Transition::new(3, 'c', 0)
    ]));
    assert_eq!(dfa.counter.value, 4);
}

#[test]
fn two_compilations_give_the_same_automaton() {
    for pattern in ["abc", "b|ac", "a+bc*|ca*", "a+bc*d+e*s*ac+e*"] {
        let first = Expression::new(pattern).dfa;
        let second = Expression::new(pattern).dfa;
        assert_eq!(first.alphabet, second.alphabet);
        assert_eq!(first.states, second.states);
        assert_eq!(first.transitions, second.transitions);
        assert_eq!(first.final_states, second.final_states);
        assert_eq!(first.initial_state, second.initial_state);
        assert_eq!(first.counter.value, second.counter.value);
    }
}

#[test]
fn empty_pattern_has_no_initial_state() {
    let expression = Expression::new("");

    assert_eq!(expression.dfa.initial_state, None);
    assert!(!expression.matches(""));
}

#[test]
fn minimized_automaton_has_dense_states() {
    for pattern in ["abc", "a+bc*|ca*", "Ivan|Petq"] {
        let dfa = Expression::new(pattern).dfa;
        let expected: Vec<u32> = (0..dfa.counter.value).collect();
        assert_eq!(set_of(&dfa.states), set_of(&expected));
    }
}

#[test]
fn compiled_automaton_is_total() {
    for pattern in ["abc", "ab?c", "b|ac", "Ivan|Petq", ""] {
        assert!(is_total(&Expression::new(pattern).dfa));
    }
}

#[test]
fn english_alphabet_has_the_letters_before_z() {
    let letters = automata::alphabet::get_english();

    assert_eq!(letters.len(), 50);
    assert_eq!(letters[0], 'a');
    assert_eq!(letters[24], 'y');
    assert_eq!(letters[25], 'A');
    assert_eq!(letters[49], 'Y');
    assert!(!letters.contains(&'z'));
    assert!(!letters.contains(&'Z'));
}
