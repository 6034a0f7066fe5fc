//! The labelled edges of automata.
use vstd::prelude::*;

verus! {

/// An edge of an automaton: `from` reads `label` and moves to `to`.
///
/// The derived order is lexicographic over (from, label, to), and an
/// epsilon label (`None`) sorts before every symbol.
#[derive(Clone, Copy, Debug, Hash, PartialEq, Eq, PartialOrd, Ord)]
pub struct Transition<T> {
    pub from: u32,
    pub label: T,
    pub to: u32,
}

impl<T> Transition<T> {
    pub fn new(new_from: u32, new_label: T, new_to: u32) -> (r: Self)
        ensures
            r.from == new_from,
            r.label == new_label,
            r.to == new_to,
    {
        Transition { from: new_from, label: new_label, to: new_to }
    }
}

} // verus!
