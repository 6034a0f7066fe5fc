//! The surface syntax: alternatives separated by '|', each a run of
//! single characters, each optionally followed by one of '?', '*', '+'.
//! A metacharacter where a character is expected stands for itself.
use vstd::prelude::*;
use crate::nfa_model::NfaView;

verus! {

/// The characters of `s`, in order.
pub fn chars_of(s: &str) -> (r: Vec<char>)
    ensures
        r@ == s@,
{
    let mut v: Vec<char> = Vec::new();
    for c in it: s.chars()
        invariant
            v@ == it.seq().take(it.index() as int),
    {
        v.push(c);
    }
    v
}

pub open spec fn is_op(c: char) -> bool {
    c == '?' || c == '*' || c == '+'
}

/// How many characters an atom spans, given the character after its first.
pub open spec fn atom_width(next: Option<char>) -> nat {
    if next is Some && is_op(next->0) {
        2
    } else {
        1
    }
}

/// The automaton of one atom: `c` with the operator that `next` may hold.
pub open spec fn atom_nfa(c: char, next: Option<char>) -> NfaView {
    match next {
        Some('?') => NfaView::of_optional_char(c),
        Some('*') => NfaView::of_char(c).kleene_of(),
        Some('+') => NfaView::of_plus_char(c),
        _ => NfaView::of_char(c),
    }
}

/// The character after the first of `s`, if any.
pub open spec fn lookahead(s: Seq<char>) -> Option<char> {
    if s.len() > 1 {
        Some(s[1])
    } else {
        None
    }
}

/// The atoms of `s` concatenated, left to right, after `acc`; with no atom
/// at all the automaton is the empty one.
pub open spec fn alt_from(acc: Option<NfaView>, s: Seq<char>) -> NfaView
    decreases s.len(),
{
    if s.len() == 0 {
        match acc {
            Some(a) => a,
            None => NfaView::empty(),
        }
    } else {
        let next = lookahead(s);
        let a = atom_nfa(s[0], next);
        let acc2 = match acc {
            Some(n) => n.concat_with(a),
            None => a,
        };
        alt_from(Some(acc2), s.skip(atom_width(next) as int))
    }
}

/// The automaton of one alternative.
pub open spec fn alt_nfa(s: Seq<char>) -> NfaView {
    alt_from(None, s)
}

/// The length of the text before the first '|' of `p` (all of `p` if none).
pub open spec fn first_alt_len(p: Seq<char>) -> nat
    decreases p.len(),
{
    if p.len() == 0 {
        0
    } else if p[0] == '|' {
        0
    } else {
        1 + first_alt_len(p.skip(1))
    }
}

/// `acc`, then the alternatives of `p` joined to it one by one by union.
pub open spec fn union_from(acc: NfaView, p: Seq<char>) -> NfaView
    decreases p.len(),
{
    let k = first_alt_len(p);
    let acc2 = acc.union_with(alt_nfa(p.take(k as int)));
    if k >= p.len() {
        acc2
    } else {
        union_from(acc2, p.skip(k + 1 as int))
    }
}

/// The automaton that the parser builds for pattern `p`.
pub open spec fn pattern_nfa(p: Seq<char>) -> NfaView {
    union_from(NfaView::empty(), p)
}

pub proof fn lemma_first_alt_len(p: Seq<char>)
    ensures
        first_alt_len(p) <= p.len(),
        forall|i: int| 0 <= i < first_alt_len(p) ==> p[i] != '|',
        first_alt_len(p) < p.len() ==> p[first_alt_len(p) as int] == '|',
    decreases p.len(),
{
    if p.len() > 0 && p[0] != '|' {
        lemma_first_alt_len(p.skip(1));
        assert forall|i: int| 0 <= i < first_alt_len(p) implies p[i] != '|' by {
            if i > 0 {
                assert(p.skip(1)[i - 1] == p[i]);
            }
        }
    }
}

} // verus!

verus! {

/// The texts of one atom: `c` once, `c` or nothing (`?`), any number of `c`
/// (`*`), or one or more `c` (`+`).
pub open spec fn atom_matches(c: char, next: Option<char>, u: Seq<char>) -> bool {
    match next {
        Some('?') => u.len() == 0 || u == seq![c],
        Some('*') => forall|j: int| 0 <= j < u.len() ==> u[j] == c,
        Some('+') => u.len() >= 1 && forall|j: int| 0 <= j < u.len() ==> u[j] == c,
        _ => u == seq![c],
    }
}

/// `w` is a text of the atoms of `s`, one after another.
pub open spec fn atoms_match(s: Seq<char>, w: Seq<char>) -> bool
    decreases s.len(),
{
    if s.len() == 0 {
        w.len() == 0
    } else {
        exists|i: int|
            0 <= i <= w.len() && #[trigger] atom_matches(s[0], lookahead(s), w.take(i)) && atoms_match(
                s.skip(atom_width(lookahead(s)) as int),
                w.skip(i),
            )
    }
}

/// The first atom of `s` matches the first `i` symbols of `w`, and the
/// remaining atoms match the rest.
pub open spec fn atom_split(s: Seq<char>, w: Seq<char>, i: int) -> bool {
    &&& s.len() > 0
    &&& 0 <= i <= w.len()
    &&& atom_matches(s[0], lookahead(s), w.take(i))
    &&& atoms_match(s.skip(atom_width(lookahead(s)) as int), w.skip(i))
}

/// The texts of one alternative; an empty alternative matches nothing.
pub open spec fn alt_matches(s: Seq<char>, w: Seq<char>) -> bool {
    s.len() > 0 && atoms_match(s, w)
}

/// Whether the pattern `p` matches the whole of `w`: some alternative of
/// `p` does.
pub open spec fn pattern_matches(p: Seq<char>, w: Seq<char>) -> bool
    decreases p.len(),
{
    let k = first_alt_len(p);
    alt_matches(p.take(k as int), w) || (k < p.len() && pattern_matches(p.skip(k + 1 as int), w))
}

} // verus!

verus! {

pub proof fn lemma_atoms_match_unfold(s: Seq<char>, w: Seq<char>)
    requires
        s.len() > 0,
    ensures
        atoms_match(s, w) == exists|i: int| #[trigger] atom_split(s, w, i),
{
    if atoms_match(s, w) {
        let i = choose|i: int|
            0 <= i <= w.len() && #[trigger] atom_matches(s[0], lookahead(s), w.take(i)) && atoms_match(
                s.skip(atom_width(lookahead(s)) as int),
                w.skip(i),
            );
        assert(atom_split(s, w, i));
    }
    if exists|i: int| #[trigger] atom_split(s, w, i) {
        let i = choose|i: int| #[trigger] atom_split(s, w, i);
        assert(atom_matches(s[0], lookahead(s), w.take(i)));
    }
}

} // verus!
