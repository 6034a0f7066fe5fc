//! Regular expressions of a small syntax compiled to minimal deterministic
//! automata: Thompson construction, subset construction, and Moore's
//! partition refinement, each proved to keep the language.
pub mod counter;
pub mod transition;
pub mod vecset;
pub mod bits;
pub mod nfa_model;
pub mod nfa_semantics;
pub mod pattern;
pub mod nfa;
pub mod dfa;
pub mod determinizer;
pub mod partition;
pub mod minimizer;
pub mod expression;
pub mod automaton;
pub mod language;
pub mod nerode;
pub mod alphabet;
