//! What the Thompson building blocks do to the language: renumbering keeps
//! it, union joins two languages, concatenation chains them.
use vstd::prelude::*;
use vstd::arithmetic::power2::pow2;
use crate::nfa_model::{NfaView, Edge, edge, shift_set, lemma_concat_wf, lemma_union_wf, lemma_kleene_wf};
use crate::pattern::{atom_nfa, atom_width, atom_matches, atom_split, atoms_match, alt_from, alt_nfa, alt_matches, lookahead, first_alt_len, union_from, pattern_nfa, pattern_matches};

verus! {

impl NfaView {
    /// Every epsilon edge out of a state of `r` lands in `r`.
    pub open spec fn eps_closed(self, r: Set<u32>) -> bool {
        forall|u: u32| #[trigger] r.contains(u) ==> self.closed_at(r, u)
    }

    pub proof fn lemma_closure_facts(self, s: Set<u32>)
        ensures
            s.subset_of(self.closure(s)),
            self.eps_closed(self.closure(s)),
    {
        assert forall|x: u32| s.contains(x) implies self.closure(s).contains(x) by {
            self.lemma_closure_contains(s, x);
        }
        assert forall|u: u32| #[trigger] self.closure(s).contains(u) implies self.closed_at(self.closure(s), u) by {
            assert forall|t: u32| #[trigger] self.transitions.contains(edge(u, None, t)) implies self.closure(s).contains(t) by {
                self.lemma_closure_extend(s, u, t);
            }
        }
    }

    /// The closure of `s` is the least set that holds `s` and is closed.
    pub proof fn lemma_closure_within(self, s: Set<u32>, r: Set<u32>)
        requires
            s.subset_of(r),
            self.eps_closed(r),
        ensures
            self.closure(s).subset_of(r),
    {
        self.lemma_closure_least(s, r);
    }

    pub proof fn lemma_closure_of_closed(self, r: Set<u32>)
        requires
            self.eps_closed(r),
        ensures
            self.closure(r) == r,
    {
        self.lemma_closure_facts(r);
        self.lemma_closure_least(r, r);
        assert(self.closure(r) =~= r);
    }

    pub proof fn lemma_closure_mono(self, s: Set<u32>, t: Set<u32>)
        requires
            s.subset_of(t),
        ensures
            self.closure(s).subset_of(self.closure(t)),
    {
        self.lemma_closure_facts(t);
        self.lemma_closure_least(s, self.closure(t));
    }

    /// More edges reach no fewer states.
    pub proof fn lemma_closure_more_edges(self, other: NfaView, s: Set<u32>)
        requires
            self.transitions.subset_of(other.transitions),
        ensures
            self.closure(s).subset_of(other.closure(s)),
    {
        other.lemma_closure_facts(s);
        assert(self.eps_closed(other.closure(s))) by {
            assert forall|u: u32| #[trigger] other.closure(s).contains(u) implies self.closed_at(other.closure(s), u) by {
                assert(other.closed_at(other.closure(s), u));
            }
        }
        self.lemma_closure_least(s, other.closure(s));
    }
}

} // verus!

verus! {

impl NfaView {
    #[verifier::spinoff_prover]
    #[verifier::rlimit(50)]
    pub proof fn lemma_shift_closure(self, s: Set<u32>, k: nat)
        requires
            self.wf(),
            self.counter + k <= u32::MAX,
            forall|x: u32| #[trigger] s.contains(x) ==> x < self.counter,
        ensures
            self.shifted(k).closure(shift_set(s, k)) == shift_set(self.closure(s), k),
    {
        let b = self.shifted(k);
        let c = self.closure(s);
        self.lemma_closure_facts(s);
        // the shifted closure is closed among the shifted edges
        assert(b.eps_closed(shift_set(c, k))) by {
            assert forall|u: u32| #[trigger] shift_set(c, k).contains(u) implies b.closed_at(shift_set(c, k), u) by {
                assert forall|t: u32| #[trigger] b.transitions.contains(edge(u, None, t)) implies shift_set(c, k).contains(t) by {
                    assert(self.transitions.contains(edge((u - k) as u32, None, (t - k) as u32)));
                    assert(self.closed_at(c, (u - k) as u32));
                }
            }
        }
        b.lemma_closure_within(shift_set(s, k), shift_set(c, k));
        // and pulling the shifted closure back gives a closed set holding `s`
        let bc = b.closure(shift_set(s, k));
        b.lemma_closure_facts(shift_set(s, k));
        let back = Set::new(|x: u32| x + k <= u32::MAX && bc.contains((x + k) as u32));
        assert(self.eps_closed(back)) by {
            assert forall|u: u32| #[trigger] back.contains(u) implies self.closed_at(back, u) by {
                assert forall|t: u32| #[trigger] self.transitions.contains(edge(u, None, t)) implies back.contains(t) by {
                    assert(self.states.contains(t));
                    assert(b.transitions.contains(edge((u + k) as u32, None, (t + k) as u32)));
                    assert(b.closed_at(bc, (u + k) as u32));
                }
            }
        }
        assert(s.subset_of(back)) by {
            assert forall|x: u32| s.contains(x) implies back.contains(x) by {
                assert(shift_set(s, k).contains((x + k) as u32));
            }
        }
        self.lemma_closure_within(s, back);
        assert(bc =~= shift_set(c, k)) by {
            assert forall|x: u32| shift_set(c, k).contains(x) implies bc.contains(x) by {
                assert(back.contains((x - k) as u32));
            }
        }
    }

    pub proof fn lemma_shift_step(self, s: Set<u32>, k: nat, a: char)
        requires
            self.wf(),
            self.counter + k <= u32::MAX,
        ensures
            self.shifted(k).step(shift_set(s, k), Some(a)) == shift_set(self.step(s, Some(a)), k),
    {
        let b = self.shifted(k);
        assert(b.step(shift_set(s, k), Some(a)) =~= shift_set(self.step(s, Some(a)), k)) by {
            assert forall|t: u32| b.step(shift_set(s, k), Some(a)).contains(t) implies shift_set(self.step(s, Some(a)), k).contains(t) by {
                let u = choose|u: u32| shift_set(s, k).contains(u) && #[trigger] b.transitions.contains(edge(u, Some(a), t));
                assert(self.transitions.contains(edge((u - k) as u32, Some(a), (t - k) as u32)));
            }
            assert forall|t: u32| shift_set(self.step(s, Some(a)), k).contains(t) implies b.step(shift_set(s, k), Some(a)).contains(t) by {
                let t0 = (t - k) as u32;
                let u = choose|u: u32| s.contains(u) && #[trigger] self.transitions.contains(edge(u, Some(a), t0));
                assert(self.states.contains(u));
                assert(b.transitions.contains(edge((u + k) as u32, Some(a), t)));
                assert(shift_set(s, k).contains((u + k) as u32));
            }
        }
    }

    pub proof fn lemma_shift_run(self, s: Set<u32>, k: nat, w: Seq<char>)
        requires
            self.wf(),
            self.counter + k <= u32::MAX,
            forall|x: u32| #[trigger] s.contains(x) ==> x < self.counter,
        ensures
            self.shifted(k).run_from(shift_set(s, k), w) == shift_set(self.run_from(s, w), k),
        decreases w.len(),
    {
        if w.len() > 0 {
            let st = self.step(s, Some(w[0]));
            self.lemma_shift_step(s, k, w[0]);
            assert forall|x: u32| #[trigger] st.contains(x) implies x < self.counter by {
                let u = choose|u: u32| s.contains(u) && #[trigger] self.transitions.contains(edge(u, Some(w[0]), x));
            }
            self.lemma_shift_closure(st, k);
            let c = self.closure(st);
            assert(st.subset_of(crate::nfa_semantics::ids_below(self.counter)));
            self.lemma_closure_below(st);
            assert forall|x: u32| #[trigger] c.contains(x) implies x < self.counter by {
                assert(crate::nfa_semantics::ids_below(self.counter).contains(x));
            }
            self.lemma_shift_run(c, k, w.skip(1));
        }
    }

    /// Renumbering keeps the language.
    pub proof fn lemma_shift_accepts(self, k: nat, w: Seq<char>)
        requires
            self.wf(),
            self.counter + k <= u32::MAX,
        ensures
            self.shifted(k).accepts(w) == self.accepts(w),
    {
        let b = self.shifted(k);
        assert forall|x: u32| #[trigger] self.initial_states.contains(x) implies x < self.counter by {
            assert(self.states.contains(x));
        }
        self.lemma_shift_closure(self.initial_states, k);
        assert(self.initial_states.subset_of(crate::nfa_semantics::ids_below(self.counter)));
        self.lemma_closure_below(self.initial_states);
        assert forall|x: u32| #[trigger] self.start().contains(x) implies x < self.counter by {
            assert(crate::nfa_semantics::ids_below(self.counter).contains(x));
        }
        self.lemma_shift_run(self.start(), k, w);
        let r = self.run_from(self.start(), w);
        if self.accepts(w) {
            let f = choose|f: u32| #[trigger] r.contains(f) && self.final_states.contains(f);
            assert(self.states.contains(f));
            assert(b.run_from(b.start(), w).contains((f + k) as u32));
            assert(b.final_states.contains((f + k) as u32));
        }
        if b.accepts(w) {
            let f = choose|f: u32| #[trigger] b.run_from(b.start(), w).contains(f) && b.final_states.contains(f);
            assert(r.contains((f - k) as u32));
        }
    }
}

} // verus!

verus! {

/// The identifiers at or above `k`.
pub open spec fn ids_from(k: nat) -> Set<u32> {
    Set::new(|x: u32| x >= k)
}

/// Every edge of `a` joins two states of `side`.
pub open spec fn edges_within(a: NfaView, side: Set<u32>) -> bool {
    forall|e: Edge| #[trigger] a.transitions.contains(e) ==> side.contains(e.from) && side.contains(e.to)
}

pub proof fn lemma_closure_stays(a: NfaView, side: Set<u32>, s: Set<u32>)
    requires
        edges_within(a, side),
        s.subset_of(side),
    ensures
        a.closure(s).subset_of(side),
{
    assert(a.eps_closed(side)) by {
        assert forall|u: u32| #[trigger] side.contains(u) implies a.closed_at(side, u) by {
            assert forall|t: u32| #[trigger] a.transitions.contains(edge(u, None, t)) implies side.contains(t) by {
                assert(edge(u, None, t).to == t);
            }
        }
    }
    a.lemma_closure_within(s, side);
}

pub proof fn lemma_step_stays(a: NfaView, side: Set<u32>, s: Set<u32>, c: char)
    requires
        edges_within(a, side),
    ensures
        a.step(s, Some(c)).subset_of(side),
{
    assert forall|t: u32| a.step(s, Some(c)).contains(t) implies side.contains(t) by {
        let u = choose|u: u32| s.contains(u) && #[trigger] a.transitions.contains(edge(u, Some(c), t));
        assert(edge(u, Some(c), t).to == t);
    }
}

pub proof fn lemma_stays_within(a: NfaView, side: Set<u32>, s: Set<u32>, w: Seq<char>)
    requires
        edges_within(a, side),
        s.subset_of(side),
    ensures
        a.run_from(s, w).subset_of(side),
    decreases w.len(),
{
    if w.len() > 0 {
        let st = a.step(s, Some(w[0]));
        lemma_step_stays(a, side, s, w[0]);
        lemma_closure_stays(a, side, st);
        lemma_stays_within(a, side, a.closure(st), w.skip(1));
    }
}

/// An automaton made of two parts side by side closes a set as the parts do.
pub proof fn lemma_side_by_side_closure(x: NfaView, p: NfaView, q: NfaView, k: nat, sp: Set<u32>, sq: Set<u32>)
    requires
        x.transitions == p.transitions + q.transitions,
        edges_within(p, ids_from(k)),
        edges_within(q, crate::nfa_semantics::ids_below(k)),
        sp.subset_of(ids_from(k)),
        sq.subset_of(crate::nfa_semantics::ids_below(k)),
    ensures
        x.closure(sp + sq) == p.closure(sp) + q.closure(sq),
{
    let lo = crate::nfa_semantics::ids_below(k);
    let hi = ids_from(k);
    lemma_closure_stays(p, hi, sp);
    lemma_closure_stays(q, lo, sq);
    let r = p.closure(sp) + q.closure(sq);
    p.lemma_closure_facts(sp);
    q.lemma_closure_facts(sq);
    assert(x.eps_closed(r)) by {
        assert forall|u: u32| #[trigger] r.contains(u) implies x.closed_at(r, u) by {
            assert forall|t: u32| #[trigger] x.transitions.contains(edge(u, None, t)) implies r.contains(t) by {
                if p.transitions.contains(edge(u, None, t)) {
                    assert(hi.contains(u));
                    if p.closure(sp).contains(u) {
                        assert(p.closed_at(p.closure(sp), u));
                    }
                } else {
                    assert(q.transitions.contains(edge(u, None, t)));
                    assert(lo.contains(u));
                    if q.closure(sq).contains(u) {
                        assert(q.closed_at(q.closure(sq), u));
                    }
                }
            }
        }
    }
    x.lemma_closure_within(sp + sq, r);
    p.lemma_closure_more_edges(x, sp);
    q.lemma_closure_more_edges(x, sq);
    x.lemma_closure_mono(sp, sp + sq);
    x.lemma_closure_mono(sq, sp + sq);
    assert(x.closure(sp + sq) =~= r);
}

/// An automaton made of two parts side by side runs as the two parts do.
pub proof fn lemma_side_by_side_run(x: NfaView, p: NfaView, q: NfaView, k: nat, sp: Set<u32>, sq: Set<u32>, w: Seq<char>)
    requires
        x.transitions == p.transitions + q.transitions,
        edges_within(p, ids_from(k)),
        edges_within(q, crate::nfa_semantics::ids_below(k)),
        sp.subset_of(ids_from(k)),
        sq.subset_of(crate::nfa_semantics::ids_below(k)),
    ensures
        x.run_from(sp + sq, w) == p.run_from(sp, w) + q.run_from(sq, w),
    decreases w.len(),
{
    let lo = crate::nfa_semantics::ids_below(k);
    let hi = ids_from(k);
    if w.len() > 0 {
        let c = w[0];
        let tp = p.step(sp, Some(c));
        let tq = q.step(sq, Some(c));
        assert(x.step(sp + sq, Some(c)) =~= tp + tq) by {
            assert forall|t: u32| x.step(sp + sq, Some(c)).contains(t) implies (tp + tq).contains(t) by {
                let u = choose|u: u32| (sp + sq).contains(u) && #[trigger] x.transitions.contains(edge(u, Some(c), t));
                if p.transitions.contains(edge(u, Some(c), t)) {
                    assert(hi.contains(u));
                    assert(sp.contains(u));
                } else {
                    assert(lo.contains(u));
                    assert(sq.contains(u));
                }
            }
            assert forall|t: u32| (tp + tq).contains(t) implies x.step(sp + sq, Some(c)).contains(t) by {
                if tp.contains(t) {
                    let u = choose|u: u32| sp.contains(u) && #[trigger] p.transitions.contains(edge(u, Some(c), t));
                    assert(x.transitions.contains(edge(u, Some(c), t)));
                    assert((sp + sq).contains(u));
                } else {
                    let u = choose|u: u32| sq.contains(u) && #[trigger] q.transitions.contains(edge(u, Some(c), t));
                    assert(x.transitions.contains(edge(u, Some(c), t)));
                    assert((sp + sq).contains(u));
                }
            }
        }
        lemma_step_stays(p, hi, sp, c);
        lemma_step_stays(q, lo, sq, c);
        lemma_side_by_side_closure(x, p, q, k, tp, tq);
        lemma_closure_stays(p, hi, tp);
        lemma_closure_stays(q, lo, tq);
        lemma_side_by_side_run(x, p, q, k, p.closure(tp), q.closure(tq), w.skip(1));
    }
}

impl NfaView {
    /// The union matches what either part matches.
    #[verifier::spinoff_prover]
    pub proof fn lemma_union_accepts(self, other: NfaView, w: Seq<char>)
        requires
            self.wf(),
            other.wf(),
            self.counter + other.counter <= u32::MAX,
        ensures
            self.union_with(other).accepts(w) == (self.accepts(w) || other.accepts(w)),
    {
        let k = other.counter;
        let p = self.shifted(k);
        let x = self.union_with(other);
        let lo = crate::nfa_semantics::ids_below(k);
        let hi = ids_from(k);
        assert(edges_within(p, hi));
        assert(edges_within(other, lo)) by {
            assert forall|e: Edge| #[trigger] other.transitions.contains(e) implies lo.contains(e.from) && lo.contains(e.to) by {
                assert(other.states.contains(e.from));
                assert(other.states.contains(e.to));
            }
        }
        assert(p.initial_states.subset_of(hi));
        assert(other.initial_states.subset_of(lo)) by {
            assert forall|s: u32| other.initial_states.contains(s) implies lo.contains(s) by {
                assert(other.states.contains(s));
            }
        }
        lemma_side_by_side_closure(x, p, other, k, p.initial_states, other.initial_states);
        lemma_closure_stays(p, hi, p.initial_states);
        lemma_closure_stays(other, lo, other.initial_states);
        lemma_side_by_side_run(x, p, other, k, p.start(), other.start(), w);
        lemma_stays_within(p, hi, p.start(), w);
        lemma_stays_within(other, lo, other.start(), w);
        self.lemma_shift_accepts(k, w);
        let rp = p.run_from(p.start(), w);
        let rq = other.run_from(other.start(), w);
        assert(x.run_from(x.start(), w) == rp + rq);
        if x.accepts(w) {
            let f = choose|f: u32| #[trigger] (rp + rq).contains(f) && x.final_states.contains(f);
            if rp.contains(f) {
                if other.final_states.contains(f) {
                    assert(other.states.contains(f));
                }
                assert(p.final_states.contains(f));
                assert(p.accepts(w));
            } else {
                if p.final_states.contains(f) {
                    assert(hi.contains(f));
                }
                assert(other.final_states.contains(f));
                assert(other.accepts(w));
            }
        }
        if p.accepts(w) {
            let f = choose|f: u32| #[trigger] rp.contains(f) && p.final_states.contains(f);
            assert((rp + rq).contains(f));
        }
        if other.accepts(w) {
            let f = choose|f: u32| #[trigger] rq.contains(f) && other.final_states.contains(f);
            assert((rp + rq).contains(f));
        }
    }
}

} // verus!

verus! {

/// `s` and `f` share a state.
pub open spec fn hits(s: Set<u32>, f: Set<u32>) -> bool {
    exists|x: u32| #[trigger] s.contains(x) && f.contains(x)
}

impl NfaView {
    pub proof fn lemma_closure_union(self, s: Set<u32>, t: Set<u32>)
        ensures
            self.closure(s + t) == self.closure(s) + self.closure(t),
    {
        self.lemma_closure_facts(s);
        self.lemma_closure_facts(t);
        let r = self.closure(s) + self.closure(t);
        assert(self.eps_closed(r)) by {
            assert forall|u: u32| #[trigger] r.contains(u) implies self.closed_at(r, u) by {
                if self.closure(s).contains(u) {
                    assert(self.closed_at(self.closure(s), u));
                } else {
                    assert(self.closed_at(self.closure(t), u));
                }
            }
        }
        self.lemma_closure_within(s + t, r);
        self.lemma_closure_mono(s, s + t);
        self.lemma_closure_mono(t, s + t);
        assert(self.closure(s + t) =~= r);
    }

    pub proof fn lemma_closure_empty(self)
        ensures
            self.closure(Set::empty()) == Set::<u32>::empty(),
    {
        assert(self.eps_closed(Set::<u32>::empty()));
        self.lemma_closure_within(Set::empty(), Set::empty());
        assert(self.closure(Set::empty()) =~= Set::<u32>::empty());
    }

    pub proof fn lemma_run_union(self, s: Set<u32>, t: Set<u32>, w: Seq<char>)
        ensures
            self.run_from(s + t, w) == self.run_from(s, w) + self.run_from(t, w),
        decreases w.len(),
    {
        if w.len() > 0 {
            let c = Some(w[0]);
            assert(self.step(s + t, c) =~= self.step(s, c) + self.step(t, c));
            self.lemma_closure_union(self.step(s, c), self.step(t, c));
            self.lemma_run_union(self.closure(self.step(s, c)), self.closure(self.step(t, c)), w.skip(1));
        }
    }

    pub proof fn lemma_run_mono(self, s: Set<u32>, t: Set<u32>, w: Seq<char>)
        requires
            s.subset_of(t),
        ensures
            self.run_from(s, w).subset_of(self.run_from(t, w)),
    {
        assert(s + t =~= t);
        self.lemma_run_union(s, t, w);
    }
}

/// The concatenation of `p` (above `k`) and `q` (below `k`) linked from the
/// final states of `p` to the initial states of `q`.
pub open spec fn chained(x: NfaView, p: NfaView, q: NfaView, k: nat) -> bool {
    &&& x.transitions == p.transitions + q.transitions + crate::nfa_model::eps_links(p.final_states, q.initial_states)
    &&& edges_within(p, ids_from(k))
    &&& edges_within(q, crate::nfa_semantics::ids_below(k))
    &&& p.final_states.subset_of(ids_from(k))
    &&& q.initial_states.subset_of(crate::nfa_semantics::ids_below(k))
    &&& x.final_states == q.final_states
    &&& q.final_states.subset_of(crate::nfa_semantics::ids_below(k))
}

/// The initial states of `q` when the closure in `p` reaches a final state of `p`.
pub open spec fn entry(p: NfaView, q: NfaView, sp: Set<u32>) -> Set<u32> {
    if hits(p.closure(sp), p.final_states) {
        q.initial_states
    } else {
        Set::empty()
    }
}

proof fn lemma_chained_closed(x: NfaView, p: NfaView, q: NfaView, k: nat, sp: Set<u32>, sq: Set<u32>)
    requires
        chained(x, p, q, k),
        sp.subset_of(ids_from(k)),
        sq.subset_of(crate::nfa_semantics::ids_below(k)),
    ensures
        x.eps_closed(p.closure(sp) + q.closure(sq + entry(p, q, sp))),
{
    let lo = crate::nfa_semantics::ids_below(k);
    let hi = ids_from(k);
    let sj = sq + entry(p, q, sp);
    lemma_closure_stays(p, hi, sp);
    lemma_closure_stays(q, lo, sj);
    p.lemma_closure_facts(sp);
    q.lemma_closure_facts(sj);
    let r = p.closure(sp) + q.closure(sj);
    assert forall|u: u32| #[trigger] r.contains(u) implies x.closed_at(r, u) by {
        assert forall|t: u32| #[trigger] x.transitions.contains(edge(u, None, t)) implies r.contains(t) by {
            if p.transitions.contains(edge(u, None, t)) {
                assert(hi.contains(u));
                if p.closure(sp).contains(u) {
                    assert(p.closed_at(p.closure(sp), u));
                }
            } else if q.transitions.contains(edge(u, None, t)) {
                assert(lo.contains(u));
                if q.closure(sj).contains(u) {
                    assert(q.closed_at(q.closure(sj), u));
                }
            } else {
                assert(p.final_states.contains(u));
                assert(q.initial_states.contains(t));
                assert(hi.contains(u));
                assert(p.closure(sp).contains(u));
                assert(hits(p.closure(sp), p.final_states));
                assert(sj.contains(t));
            }
        }
    }
}

proof fn lemma_chained_reached(x: NfaView, p: NfaView, q: NfaView, k: nat, sp: Set<u32>, sq: Set<u32>)
    requires
        chained(x, p, q, k),
    ensures
        (p.closure(sp) + q.closure(sq + entry(p, q, sp))).subset_of(x.closure(sp + sq)),
{
    let sj = sq + entry(p, q, sp);
    let c = x.closure(sp + sq);
    x.lemma_closure_facts(sp + sq);
    p.lemma_closure_more_edges(x, sp);
    x.lemma_closure_mono(sp, sp + sq);
    assert(sj.subset_of(c)) by {
        assert forall|t: u32| sj.contains(t) implies c.contains(t) by {
            if !sq.contains(t) {
                let f = choose|f: u32| #[trigger] p.closure(sp).contains(f) && p.final_states.contains(f);
                assert(x.transitions.contains(edge(f, None, t)));
                assert(x.closed_at(c, f));
            }
        }
    }
    q.lemma_closure_more_edges(x, sj);
    x.lemma_closure_mono(sj, c);
    x.lemma_closure_of_closed(c);
}

pub proof fn lemma_chained_closure(x: NfaView, p: NfaView, q: NfaView, k: nat, sp: Set<u32>, sq: Set<u32>)
    requires
        chained(x, p, q, k),
        sp.subset_of(ids_from(k)),
        sq.subset_of(crate::nfa_semantics::ids_below(k)),
    ensures
        x.closure(sp + sq) == p.closure(sp) + q.closure(sq + entry(p, q, sp)),
{
    let r = p.closure(sp) + q.closure(sq + entry(p, q, sp));
    lemma_chained_closed(x, p, q, k, sp, sq);
    p.lemma_closure_facts(sp);
    q.lemma_closure_facts(sq + entry(p, q, sp));
    x.lemma_closure_within(sp + sq, r);
    lemma_chained_reached(x, p, q, k, sp, sq);
    assert(x.closure(sp + sq) =~= r);
}

pub proof fn lemma_chained_step(x: NfaView, p: NfaView, q: NfaView, k: nat, sp: Set<u32>, sq: Set<u32>, a: char)
    requires
        chained(x, p, q, k),
        sp.subset_of(ids_from(k)),
        sq.subset_of(crate::nfa_semantics::ids_below(k)),
    ensures
        x.step(sp + sq, Some(a)) == p.step(sp, Some(a)) + q.step(sq, Some(a)),
{
    let lo = crate::nfa_semantics::ids_below(k);
    let hi = ids_from(k);
    let tp = p.step(sp, Some(a));
    let tq = q.step(sq, Some(a));
    assert(x.step(sp + sq, Some(a)) =~= tp + tq) by {
        assert forall|t: u32| x.step(sp + sq, Some(a)).contains(t) implies (tp + tq).contains(t) by {
            let u = choose|u: u32| (sp + sq).contains(u) && #[trigger] x.transitions.contains(edge(u, Some(a), t));
            if p.transitions.contains(edge(u, Some(a), t)) {
                assert(hi.contains(u));
                assert(sp.contains(u));
            } else {
                assert(q.transitions.contains(edge(u, Some(a), t)));
                assert(lo.contains(u));
                assert(sq.contains(u));
            }
        }
        assert forall|t: u32| (tp + tq).contains(t) implies x.step(sp + sq, Some(a)).contains(t) by {
            if tp.contains(t) {
                let u = choose|u: u32| sp.contains(u) && #[trigger] p.transitions.contains(edge(u, Some(a), t));
                assert(x.transitions.contains(edge(u, Some(a), t)));
                assert((sp + sq).contains(u));
            } else {
                let u = choose|u: u32| sq.contains(u) && #[trigger] q.transitions.contains(edge(u, Some(a), t));
                assert(x.transitions.contains(edge(u, Some(a), t)));
                assert((sp + sq).contains(u));
            }
        }
    }
}

} // verus!

verus! {

/// `p` reaches a final state on the first `i` symbols of `w`, and `q`
/// accepts the rest from its start.
pub open spec fn split_ok(p: NfaView, q: NfaView, sp: Set<u32>, w: Seq<char>, i: int) -> bool {
    &&& 0 <= i <= w.len()
    &&& hits(p.run_from(sp, w.take(i)), p.final_states)
    &&& q.accepts_from(q.start(), w.skip(i))
}

/// In a closed set of the chain, reaching a final state of `p` means holding
/// the start of `q`.
proof fn lemma_chained_subsume(x: NfaView, p: NfaView, q: NfaView, k: nat, sp: Set<u32>, sq: Set<u32>, w: Seq<char>)
    requires
        chained(x, p, q, k),
        sp.subset_of(ids_from(k)),
        sq.subset_of(crate::nfa_semantics::ids_below(k)),
        x.eps_closed(sp + sq),
        hits(sp, p.final_states),
        q.accepts_from(q.start(), w),
    ensures
        q.accepts_from(sq, w),
{
    let lo = crate::nfa_semantics::ids_below(k);
    let f = choose|f: u32| #[trigger] sp.contains(f) && p.final_states.contains(f);
    assert(q.initial_states.subset_of(sq)) by {
        assert forall|t: u32| q.initial_states.contains(t) implies sq.contains(t) by {
            assert(x.transitions.contains(edge(f, None, t)));
            assert((sp + sq).contains(f));
            assert(x.closed_at(sp + sq, f));
            assert(lo.contains(t));
        }
    }
    assert(q.eps_closed(sq)) by {
        assert forall|u: u32| #[trigger] sq.contains(u) implies q.closed_at(sq, u) by {
            assert forall|t: u32| #[trigger] q.transitions.contains(edge(u, None, t)) implies sq.contains(t) by {
                assert(x.transitions.contains(edge(u, None, t)));
                assert((sp + sq).contains(u));
                assert(x.closed_at(sp + sq, u));
                assert(edge(u, None, t).to == t);
                assert(lo.contains(t));
            }
        }
    }
    q.lemma_closure_within(q.initial_states, sq);
    q.lemma_run_mono(q.start(), sq, w);
    let g = choose|g: u32| #[trigger] q.run_from(q.start(), w).contains(g) && q.final_states.contains(g);
    assert(q.run_from(sq, w).contains(g));
}

#[verifier::spinoff_prover]
pub proof fn lemma_chained_accepts_from(x: NfaView, p: NfaView, q: NfaView, k: nat, sp: Set<u32>, sq: Set<u32>, w: Seq<char>)
    requires
        chained(x, p, q, k),
        sp.subset_of(ids_from(k)),
        sq.subset_of(crate::nfa_semantics::ids_below(k)),
        x.eps_closed(sp + sq),
    ensures
        x.accepts_from(sp + sq, w) == (q.accepts_from(sq, w) || exists|i: int| #[trigger] split_ok(p, q, sp, w, i)),
    decreases w.len(),
{
    let lo = crate::nfa_semantics::ids_below(k);
    let hi = ids_from(k);
    if exists|i: int| #[trigger] split_ok(p, q, sp, w, i) {
        let i = choose|i: int| #[trigger] split_ok(p, q, sp, w, i);
        if i == 0 {
            assert(w.take(0).len() == 0);
            assert(w.skip(0) == w);
            assert(p.run_from(sp, w.take(0)) == sp);
            lemma_chained_subsume(x, p, q, k, sp, sq, w);
        }
    }
    if w.len() == 0 {
        assert(x.run_from(sp + sq, w) == sp + sq);
        assert(q.run_from(sq, w) == sq);
        if x.accepts_from(sp + sq, w) {
            let f = choose|f: u32| #[trigger] x.run_from(sp + sq, w).contains(f) && x.final_states.contains(f);
            if sp.contains(f) {
                assert(hi.contains(f));
                assert(lo.contains(f));
            }
            assert(q.run_from(sq, w).contains(f));
        }
        if q.accepts_from(sq, w) {
            let f = choose|f: u32| #[trigger] q.run_from(sq, w).contains(f) && q.final_states.contains(f);
            assert(x.run_from(sp + sq, w).contains(f));
        }
    } else {
        let c = w[0];
        let w1 = w.skip(1);
        let tp = p.step(sp, Some(c));
        let tq = q.step(sq, Some(c));
        lemma_chained_step(x, p, q, k, sp, sq, c);
        lemma_step_stays(p, hi, sp, c);
        lemma_step_stays(q, lo, sq, c);
        lemma_chained_closure(x, p, q, k, tp, tq);
        let j = entry(p, q, tp);
        let sp1 = p.closure(tp);
        let sq1 = q.closure(tq + j);
        assert(q.initial_states.subset_of(lo));
        assert((tq + j).subset_of(lo));
        lemma_closure_stays(p, hi, tp);
        lemma_closure_stays(q, lo, tq + j);
        x.lemma_closure_facts(tp + tq);
        lemma_chained_accepts_from(x, p, q, k, sp1, sq1, w1);
        assert(x.run_from(sp + sq, w) == x.run_from(sp1 + sq1, w1));
        // the part in `q`
        q.lemma_closure_union(tq, j);
        q.lemma_run_union(q.closure(tq), q.closure(j), w1);
        assert(q.run_from(sq, w) == q.run_from(q.closure(tq), w1));
        let qa = q.accepts_from(q.closure(tq), w1);
        let qb = q.accepts_from(q.closure(j), w1);
        assert(q.accepts_from(sq1, w1) == (qa || qb)) by {
            if q.accepts_from(sq1, w1) {
                let f = choose|f: u32| #[trigger] q.run_from(sq1, w1).contains(f) && q.final_states.contains(f);
                if q.run_from(q.closure(tq), w1).contains(f) {
                    assert(qa);
                } else {
                    assert(qb);
                }
            }
            if qa {
                let f = choose|f: u32| #[trigger] q.run_from(q.closure(tq), w1).contains(f) && q.final_states.contains(f);
                assert(q.run_from(sq1, w1).contains(f));
            }
            if qb {
                let f = choose|f: u32| #[trigger] q.run_from(q.closure(j), w1).contains(f) && q.final_states.contains(f);
                assert(q.run_from(sq1, w1).contains(f));
            }
        }
        // entering `q` after the first symbol
        assert(w.take(1).skip(1).len() == 0);
        assert(w.take(1)[0] == c);
        assert(p.run_from(sp1, w.take(1).skip(1)) == sp1);
        assert(p.run_from(sp, w.take(1)) == sp1);
        assert(w.skip(1) == w1);
        assert(qb == split_ok(p, q, sp, w, 1)) by {
            if !hits(sp1, p.final_states) {
                q.lemma_closure_empty();
                q.lemma_run_from_empty(w1);
            }
        }
        // entering `q` later
        assert forall|i: int| 0 <= i <= w1.len() implies #[trigger] split_ok(p, q, sp1, w1, i) == split_ok(p, q, sp, w, i + 1) by {
            let t = w.take(i + 1);
            assert(t.len() > 0);
            assert(t[0] == c);
            assert(t.skip(1) == w1.take(i));
            assert(p.run_from(sp, t) == p.run_from(p.closure(p.step(sp, Some(t[0]))), t.skip(1)));
            assert(w1.skip(i) == w.skip(i + 1));
        }
        if exists|i: int| #[trigger] split_ok(p, q, sp, w, i) {
            let i = choose|i: int| #[trigger] split_ok(p, q, sp, w, i);
            if i >= 2 {
                assert(split_ok(p, q, sp1, w1, i - 1) == split_ok(p, q, sp, w, i));
            }
        }
        if exists|i: int| #[trigger] split_ok(p, q, sp1, w1, i) {
            let i = choose|i: int| #[trigger] split_ok(p, q, sp1, w1, i);
            assert(split_ok(p, q, sp1, w1, i) == split_ok(p, q, sp, w, i + 1));
        }
    }
}

} // verus!

verus! {

/// `a` accepts the first `i` symbols of `w`, and `b` the rest.
pub open spec fn concat_split(a: NfaView, b: NfaView, w: Seq<char>, i: int) -> bool {
    &&& 0 <= i <= w.len()
    &&& a.accepts(w.take(i))
    &&& b.accepts(w.skip(i))
}

impl NfaView {
    /// The concatenation matches a text of `self` followed by a text of `other`.
    #[verifier::spinoff_prover]
    pub proof fn lemma_concat_accepts(self, other: NfaView, w: Seq<char>)
        requires
            self.wf(),
            other.wf(),
            self.counter + other.counter <= u32::MAX,
        ensures
            self.concat_with(other).accepts(w) == exists|i: int| #[trigger] concat_split(self, other, w, i),
    {
        let k = other.counter;
        let p = self.shifted(k);
        let q = other;
        let x = self.concat_with(other);
        let lo = crate::nfa_semantics::ids_below(k);
        let hi = ids_from(k);
        assert(edges_within(q, lo)) by {
            assert forall|e: Edge| #[trigger] q.transitions.contains(e) implies lo.contains(e.from) && lo.contains(e.to) by {
                assert(q.states.contains(e.from));
                assert(q.states.contains(e.to));
            }
        }
        assert(q.initial_states.subset_of(lo)) by {
            assert forall|s: u32| q.initial_states.contains(s) implies lo.contains(s) by {
                assert(q.states.contains(s));
            }
        }
        assert(q.final_states.subset_of(lo)) by {
            assert forall|s: u32| q.final_states.contains(s) implies lo.contains(s) by {
                assert(q.states.contains(s));
            }
        }
        assert(chained(x, p, q, k));
        assert(p.initial_states + Set::<u32>::empty() =~= p.initial_states);
        assert(x.initial_states == p.initial_states);
        lemma_chained_closure(x, p, q, k, p.initial_states, Set::empty());
        let j = entry(p, q, p.initial_states);
        let sp = p.start();
        let sq = q.closure(Set::<u32>::empty() + j);
        assert(x.start() == sp + sq);
        x.lemma_closure_facts(x.initial_states);
        lemma_closure_stays(p, hi, p.initial_states);
        assert((Set::<u32>::empty() + j).subset_of(lo));
        lemma_closure_stays(q, lo, Set::<u32>::empty() + j);
        lemma_chained_accepts_from(x, p, q, k, sp, sq, w);
        assert forall|i: int| #[trigger] split_ok(p, q, sp, w, i) == concat_split(self, other, w, i) by {
            if 0 <= i <= w.len() {
                self.lemma_shift_accepts(k, w.take(i));
            }
        }
        if q.accepts_from(sq, w) {
            if hits(p.closure(p.initial_states), p.final_states) {
                assert(Set::<u32>::empty() + j =~= q.initial_states);
                assert(w.take(0).len() == 0);
                assert(w.skip(0) == w);
                assert(p.run_from(sp, w.take(0)) == sp);
                assert(split_ok(p, q, sp, w, 0));
            } else {
                assert(Set::<u32>::empty() + j =~= Set::<u32>::empty());
                q.lemma_closure_empty();
                q.lemma_run_from_empty(w);
            }
        }
        if exists|i: int| #[trigger] concat_split(self, other, w, i) {
            let i = choose|i: int| #[trigger] concat_split(self, other, w, i);
            assert(split_ok(p, q, sp, w, i));
        }
    }
}

} // verus!

verus! {

/// A set closed under epsilon edges and holding `s`, all of whose states
/// are reached, is the closure of `s`.
pub proof fn lemma_closure_is(a: NfaView, s: Set<u32>, r: Set<u32>)
    requires
        s.subset_of(r),
        a.eps_closed(r),
        r.subset_of(a.closure(s)),
    ensures
        a.closure(s) == r,
{
    a.lemma_closure_within(s, r);
    assert(a.closure(s) =~= r);
}

/// Reading `c` once from `{0}` in the one-edge automaton of `c`.
proof fn lemma_char_run(c: char, s: Set<u32>, u: Seq<char>)
    requires
        s == set![0u32] || s == set![1u32] || s == Set::<u32>::empty(),
    ensures
        NfaView::of_char(c).run_from(s, u) == (if u.len() == 0 {
            s
        } else if u.len() == 1 && u[0] == c && s == set![0u32] {
            set![1u32]
        } else {
            Set::<u32>::empty()
        }),
    decreases u.len(),
{
    let a = NfaView::of_char(c);
    if u.len() > 0 {
        let st = a.step(s, Some(u[0]));
        let nxt = if u[0] == c && s == set![0u32] { set![1u32] } else { Set::<u32>::empty() };
        assert(st =~= nxt) by {
            assert forall|t: u32| st.contains(t) implies nxt.contains(t) by {
                let v = choose|v: u32| s.contains(v) && #[trigger] a.transitions.contains(edge(v, Some(u[0]), t));
                assert(edge(v, Some(u[0]), t) == edge(0, Some(c), 1));
            }
            if u[0] == c && s == set![0u32] {
                assert(a.transitions.contains(edge(0, Some(c), 1)));
                assert(st.contains(1u32));
            }
        }
        assert(a.eps_closed(nxt)) by {
            assert forall|v: u32| #[trigger] nxt.contains(v) implies a.closed_at(nxt, v) by {
                assert forall|t: u32| #[trigger] a.transitions.contains(edge(v, None, t)) implies nxt.contains(t) by {
                    assert(edge(v, None, t) != edge(0, Some(c), 1));
                }
            }
        }
        a.lemma_closure_of_closed(nxt);
        assert(set![0u32].contains(0u32));
        assert(!set![1u32].contains(0u32));
        assert(!Set::<u32>::empty().contains(0u32));
        lemma_char_run(c, nxt, u.skip(1));
    }
}

impl NfaView {
    pub proof fn lemma_empty_accepts(w: Seq<char>)
        ensures
            !NfaView::empty().accepts(w),
    {
        let e = NfaView::empty();
        e.lemma_closure_empty();
        assert(e.initial_states =~= Set::<u32>::empty());
        e.lemma_run_from_empty(w);
    }

    pub proof fn lemma_char_accepts(c: char, u: Seq<char>)
        ensures
            NfaView::of_char(c).accepts(u) == (u == seq![c]),
    {
        let a = NfaView::of_char(c);
        assert(a.eps_closed(set![0u32])) by {
            assert forall|v: u32| #[trigger] set![0u32].contains(v) implies a.closed_at(set![0u32], v) by {
                assert forall|t: u32| #[trigger] a.transitions.contains(edge(v, None, t)) implies set![0u32].contains(t) by {
                    assert(edge(v, None, t) != edge(0, Some(c), 1));
                }
            }
        }
        a.lemma_closure_of_closed(set![0u32]);
        lemma_char_run(c, set![0u32], u);
        if u == seq![c] {
            assert(a.run_from(a.start(), u).contains(1u32));
        }
        if a.accepts(u) {
            let f = choose|f: u32| #[trigger] a.run_from(a.start(), u).contains(f) && a.final_states.contains(f);
            assert(f == 1);
            assert(u.len() == 1 && u[0] == c);
            assert(u =~= seq![c]);
        }
    }
}

} // verus!

verus! {

/// Every symbol of `u` is `c`.
pub open spec fn all_are(u: Seq<char>, c: char) -> bool {
    forall|j: int| 0 <= j < u.len() ==> u[j] == c
}

proof fn lemma_all_are_skip(u: Seq<char>, c: char)
    requires
        u.len() > 0,
    ensures
        all_are(u, c) == (u[0] == c && all_are(u.skip(1), c)),
{
    if u[0] == c && all_are(u.skip(1), c) {
        assert forall|j: int| 0 <= j < u.len() implies u[j] == c by {
            if j > 0 {
                assert(u.skip(1)[j - 1] == u[j]);
            }
        }
    }
    if all_are(u, c) {
        assert forall|j: int| 0 <= j < u.len() - 1 implies u.skip(1)[j] == c by {
            assert(u.skip(1)[j] == u[j + 1]);
        }
    }
}

proof fn lemma_optional_run(c: char, s: Set<u32>, u: Seq<char>)
    requires
        s == set![0u32, 1u32] || s == set![1u32] || s == Set::<u32>::empty(),
    ensures
        NfaView::of_optional_char(c).run_from(s, u) == (if u.len() == 0 {
            s
        } else if u.len() == 1 && u[0] == c && s == set![0u32, 1u32] {
            set![1u32]
        } else {
            Set::<u32>::empty()
        }),
    decreases u.len(),
{
    let a = NfaView::of_optional_char(c);
    if u.len() > 0 {
        let st = a.step(s, Some(u[0]));
        let nxt = if u[0] == c && s == set![0u32, 1u32] { set![1u32] } else { Set::<u32>::empty() };
        assert(set![0u32, 1u32].contains(0u32));
        assert(!set![1u32].contains(0u32));
        assert(!Set::<u32>::empty().contains(0u32));
        assert(st =~= nxt) by {
            assert forall|t: u32| st.contains(t) implies nxt.contains(t) by {
                let v = choose|v: u32| s.contains(v) && #[trigger] a.transitions.contains(edge(v, Some(u[0]), t));
                assert(edge(v, Some(u[0]), t) == edge(0, Some(c), 1));
            }
            if u[0] == c && s == set![0u32, 1u32] {
                assert(a.transitions.contains(edge(0, Some(c), 1)));
                assert(st.contains(1u32));
            }
        }
        assert(a.eps_closed(nxt)) by {
            assert forall|v: u32| #[trigger] nxt.contains(v) implies a.closed_at(nxt, v) by {
                assert forall|t: u32| #[trigger] a.transitions.contains(edge(v, None, t)) implies nxt.contains(t) by {
                    assert(edge(v, None, t) == edge(0, None, 1));
                }
            }
        }
        a.lemma_closure_of_closed(nxt);
        lemma_optional_run(c, nxt, u.skip(1));
    }
}

proof fn lemma_plus_run(c: char, u: Seq<char>)
    ensures
        NfaView::of_plus_char(c).run_from(set![1u32], u) == (if all_are(u, c) {
            set![1u32]
        } else {
            Set::<u32>::empty()
        }),
        NfaView::of_plus_char(c).run_from(Set::<u32>::empty(), u) == Set::<u32>::empty(),
    decreases u.len(),
{
    let a = NfaView::of_plus_char(c);
    a.lemma_run_from_empty(u);
    if u.len() > 0 {
        lemma_all_are_skip(u, c);
        let st = a.step(set![1u32], Some(u[0]));
        let nxt = if u[0] == c { set![1u32] } else { Set::<u32>::empty() };
        assert(st =~= nxt) by {
            assert forall|t: u32| st.contains(t) implies nxt.contains(t) by {
                let v = choose|v: u32| set![1u32].contains(v) && #[trigger] a.transitions.contains(edge(v, Some(u[0]), t));
                assert(edge(v, Some(u[0]), t) == edge(1, Some(c), 1));
            }
            if u[0] == c {
                assert(a.transitions.contains(edge(1, Some(c), 1)));
                assert(st.contains(1u32));
            }
        }
        assert(a.eps_closed(nxt)) by {
            assert forall|v: u32| #[trigger] nxt.contains(v) implies a.closed_at(nxt, v) by {
                assert forall|t: u32| #[trigger] a.transitions.contains(edge(v, None, t)) implies nxt.contains(t) by {
                    assert(edge(v, None, t) != edge(0, Some(c), 1));
                    assert(edge(v, None, t) != edge(1, Some(c), 1));
                }
            }
        }
        a.lemma_closure_of_closed(nxt);
        lemma_plus_run(c, u.skip(1));
    }
}

impl NfaView {
    pub proof fn lemma_optional_accepts(c: char, u: Seq<char>)
        ensures
            NfaView::of_optional_char(c).accepts(u) == (u.len() == 0 || u == seq![c]),
    {
        let a = NfaView::of_optional_char(c);
        let r = set![0u32, 1u32];
        assert(a.transitions.contains(edge(0, None, 1)));
        a.lemma_closure_facts(set![0u32]);
        assert(a.closure(set![0u32]).contains(0u32));
        a.lemma_closure_extend(set![0u32], 0, 1);
        assert(a.eps_closed(r)) by {
            assert forall|v: u32| #[trigger] r.contains(v) implies a.closed_at(r, v) by {
                assert forall|t: u32| #[trigger] a.transitions.contains(edge(v, None, t)) implies r.contains(t) by {
                    assert(edge(v, None, t) == edge(0, None, 1));
                }
            }
        }
        lemma_closure_is(a, set![0u32], r);
        lemma_optional_run(c, r, u);
        if u == seq![c] {
            assert(a.run_from(a.start(), u).contains(1u32));
        }
        if u.len() == 0 {
            assert(a.run_from(a.start(), u).contains(1u32));
        }
        if a.accepts(u) {
            let f = choose|f: u32| #[trigger] a.run_from(a.start(), u).contains(f) && a.final_states.contains(f);
            if u.len() != 0 {
                assert(u.len() == 1 && u[0] == c);
                assert(u =~= seq![c]);
            }
        }
    }

    pub proof fn lemma_plus_accepts(c: char, u: Seq<char>)
        ensures
            NfaView::of_plus_char(c).accepts(u) == (u.len() >= 1 && all_are(u, c)),
    {
        let a = NfaView::of_plus_char(c);
        assert(a.eps_closed(set![0u32])) by {
            assert forall|v: u32| #[trigger] set![0u32].contains(v) implies a.closed_at(set![0u32], v) by {
                assert forall|t: u32| #[trigger] a.transitions.contains(edge(v, None, t)) implies set![0u32].contains(t) by {
                    assert(edge(v, None, t) != edge(0, Some(c), 1));
                    assert(edge(v, None, t) != edge(1, Some(c), 1));
                }
            }
        }
        a.lemma_closure_of_closed(set![0u32]);
        if u.len() == 0 {
            assert(a.run_from(a.start(), u) == set![0u32]);
            assert(!a.final_states.contains(0u32));
        } else {
            lemma_all_are_skip(u, c);
            let st = a.step(set![0u32], Some(u[0]));
            let nxt = if u[0] == c { set![1u32] } else { Set::<u32>::empty() };
            assert(st =~= nxt) by {
                assert forall|t: u32| st.contains(t) implies nxt.contains(t) by {
                    let v = choose|v: u32| set![0u32].contains(v) && #[trigger] a.transitions.contains(edge(v, Some(u[0]), t));
                    assert(edge(v, Some(u[0]), t) == edge(0, Some(c), 1));
                }
                if u[0] == c {
                    assert(a.transitions.contains(edge(0, Some(c), 1)));
                    assert(st.contains(1u32));
                }
            }
            assert(a.eps_closed(nxt)) by {
                assert forall|v: u32| #[trigger] nxt.contains(v) implies a.closed_at(nxt, v) by {
                    assert forall|t: u32| #[trigger] a.transitions.contains(edge(v, None, t)) implies nxt.contains(t) by {
                        assert(edge(v, None, t) != edge(0, Some(c), 1));
                        assert(edge(v, None, t) != edge(1, Some(c), 1));
                    }
                }
            }
            a.lemma_closure_of_closed(nxt);
            lemma_plus_run(c, u.skip(1));
            assert(a.run_from(a.start(), u) == a.run_from(nxt, u.skip(1)));
            if all_are(u, c) {
                assert(a.run_from(a.start(), u).contains(1u32));
            }
        }
    }
}

} // verus!

verus! {

pub open spec fn star_edges(c: char) -> Set<Edge> {
    set![edge(0, Some(c), 1), edge(1, None, 3), edge(1, None, 0), edge(2, None, 0), edge(2, None, 3)]
}

proof fn lemma_star_edges(c: char)
    ensures
        NfaView::of_char(c).kleene_of().transitions == star_edges(c),
        NfaView::of_char(c).kleene_of().initial_states == set![2u32],
        NfaView::of_char(c).kleene_of().final_states == set![3u32],
{
    let k = NfaView::of_char(c).kleene_of();
    assert(k.transitions =~= star_edges(c)) by {
        assert forall|e: Edge| k.transitions.contains(e) implies star_edges(c).contains(e) by {
            if e.label is None {
                assert(e == edge(e.from, None, e.to));
            }
        }
    }
}

proof fn lemma_star_step(c: char, s: Set<u32>, x: char)
    requires
        s == set![0u32, 2u32, 3u32] || s == set![0u32, 1u32, 3u32] || s == Set::<u32>::empty(),
    ensures
        ({
            let a = NfaView::of_char(c).kleene_of();
            a.closure(a.step(s, Some(x))) == (if x == c && s != Set::<u32>::empty() {
                set![0u32, 1u32, 3u32]
            } else {
                Set::<u32>::empty()
            })
        }),
{
    let a = NfaView::of_char(c).kleene_of();
    lemma_star_edges(c);
    let st = a.step(s, Some(x));
    let full = s != Set::<u32>::empty();
    assert(set![0u32, 2u32, 3u32].contains(0u32));
    assert(set![0u32, 1u32, 3u32].contains(0u32));
    let one = if x == c && full { set![1u32] } else { Set::<u32>::empty() };
    assert(st =~= one) by {
        assert forall|t: u32| st.contains(t) implies one.contains(t) by {
            let v = choose|v: u32| s.contains(v) && #[trigger] a.transitions.contains(edge(v, Some(x), t));
            assert(star_edges(c).contains(edge(v, Some(x), t)));
        }
        if x == c && full {
            assert(a.transitions.contains(edge(0, Some(c), 1)));
            assert(s.contains(0u32));
            assert(st.contains(1u32));
        }
    }
    let nxt = if x == c && full { set![0u32, 1u32, 3u32] } else { Set::<u32>::empty() };
    if x == c && full {
        assert(a.eps_closed(nxt)) by {
            assert forall|v: u32| #[trigger] nxt.contains(v) implies a.closed_at(nxt, v) by {
                assert forall|t: u32| #[trigger] a.transitions.contains(edge(v, None, t)) implies nxt.contains(t) by {
                    assert(star_edges(c).contains(edge(v, None, t)));
                }
            }
        }
        a.lemma_closure_facts(one);
        assert(a.closure(one).contains(1u32));
        a.lemma_closure_extend(one, 1, 3);
        a.lemma_closure_extend(one, 1, 0);
        lemma_closure_is(a, one, nxt);
    } else {
        a.lemma_closure_empty();
    }
}

proof fn lemma_star_run(c: char, s: Set<u32>, u: Seq<char>)
    requires
        s == set![0u32, 2u32, 3u32] || s == set![0u32, 1u32, 3u32] || s == Set::<u32>::empty(),
    ensures
        NfaView::of_char(c).kleene_of().run_from(s, u) == (if u.len() == 0 {
            s
        } else if all_are(u, c) && s != Set::<u32>::empty() {
            set![0u32, 1u32, 3u32]
        } else {
            Set::<u32>::empty()
        }),
    decreases u.len(),
{
    if u.len() > 0 {
        lemma_all_are_skip(u, c);
        lemma_star_step(c, s, u[0]);
        let nxt = if u[0] == c && s != Set::<u32>::empty() { set![0u32, 1u32, 3u32] } else { Set::<u32>::empty() };
        assert(set![0u32, 1u32, 3u32].contains(0u32));
        assert(!Set::<u32>::empty().contains(0u32));
        lemma_star_run(c, nxt, u.skip(1));
    }
}

impl NfaView {
    pub proof fn lemma_star_accepts(c: char, u: Seq<char>)
        ensures
            NfaView::of_char(c).kleene_of().accepts(u) == all_are(u, c),
    {
        let a = NfaView::of_char(c).kleene_of();
        lemma_star_edges(c);
        let r = set![0u32, 2u32, 3u32];
        a.lemma_closure_facts(set![2u32]);
        assert(a.closure(set![2u32]).contains(2u32));
        a.lemma_closure_extend(set![2u32], 2, 0);
        a.lemma_closure_extend(set![2u32], 2, 3);
        assert(a.eps_closed(r)) by {
            assert forall|v: u32| #[trigger] r.contains(v) implies a.closed_at(r, v) by {
                assert forall|t: u32| #[trigger] a.transitions.contains(edge(v, None, t)) implies r.contains(t) by {
                    assert(star_edges(c).contains(edge(v, None, t)));
                }
            }
        }
        lemma_closure_is(a, set![2u32], r);
        assert(r != Set::<u32>::empty()) by {
            assert(r.contains(0u32));
        }
        lemma_star_run(c, r, u);
        if all_are(u, c) {
            assert(a.run_from(a.start(), u).contains(3u32));
        } else {
            assert(u.len() > 0);
        }
    }
}

} // verus!

verus! {

/// `acc` accepts the first `i` symbols of `w`, and the atoms of `s` the rest.
pub open spec fn alt_split(acc: NfaView, s: Seq<char>, w: Seq<char>, i: int) -> bool {
    &&& 0 <= i <= w.len()
    &&& acc.accepts(w.take(i))
    &&& atoms_match(s, w.skip(i))
}

impl NfaView {
    /// The automaton of one atom matches the texts of the atom.
    pub proof fn lemma_atom_accepts(c: char, next: Option<char>, u: Seq<char>)
        ensures
            atom_nfa(c, next).wf(),
            atom_nfa(c, next).counter <= 2 * atom_width(next),
            atom_nfa(c, next).accepts(u) == atom_matches(c, next, u),
    {
        let one = NfaView::of_char(c);
        assert(one.wf());
        if next == Some('?') {
            NfaView::lemma_optional_accepts(c, u);
        } else if next == Some('*') {
            lemma_kleene_wf(one);
            NfaView::lemma_star_accepts(c, u);
        } else if next == Some('+') {
            NfaView::lemma_plus_accepts(c, u);
        } else {
            NfaView::lemma_char_accepts(c, u);
        }
    }
}

#[verifier::spinoff_prover]
pub proof fn lemma_alt_from(acc: NfaView, s: Seq<char>, w: Seq<char>)
    requires
        acc.wf(),
        acc.counter + 2 * s.len() <= u32::MAX,
    ensures
        alt_from(Some(acc), s).wf(),
        alt_from(Some(acc), s).counter <= acc.counter + 2 * s.len(),
        alt_from(Some(acc), s).accepts(w) == exists|i: int| #[trigger] alt_split(acc, s, w, i),
    decreases s.len(),
{
    if s.len() == 0 {
        assert(w.take(w.len() as int) == w);
        if acc.accepts(w) {
            assert(alt_split(acc, s, w, w.len() as int));
        }
        if exists|i: int| #[trigger] alt_split(acc, s, w, i) {
            let i = choose|i: int| #[trigger] alt_split(acc, s, w, i);
            assert(w.skip(i).len() == 0);
            assert(i == w.len());
        }
    } else {
        let next = lookahead(s);
        let a = atom_nfa(s[0], next);
        let width = atom_width(next);
        let s2 = s.skip(width as int);
        NfaView::lemma_atom_accepts(s[0], next, w);
        let acc2 = acc.concat_with(a);
        lemma_concat_wf(acc, a);
        lemma_alt_from(acc2, s2, w);
        // splitting at `i` after `acc2` is splitting at `j` after `acc`, then at `i - j` after the atom
        assert forall|i: int| #[trigger] alt_split(acc2, s2, w, i) implies exists|j: int| #[trigger] alt_split(acc, s, w, j) by {
            acc.lemma_concat_accepts(a, w.take(i));
            let j = choose|j: int| #[trigger] concat_split(acc, a, w.take(i), j);
            let v = w.skip(j);
            let m = i - j;
            assert(w.take(i).take(j) == w.take(j));
            assert(w.take(i).skip(j) == v.take(m));
            assert(v.skip(m) == w.skip(i));
            NfaView::lemma_atom_accepts(s[0], next, v.take(m));
            assert(atom_split(s, v, m));
            crate::pattern::lemma_atoms_match_unfold(s, v);
            assert(alt_split(acc, s, w, j));
        }
        assert forall|j: int| #[trigger] alt_split(acc, s, w, j) implies exists|i: int| #[trigger] alt_split(acc2, s2, w, i) by {
            let v = w.skip(j);
            crate::pattern::lemma_atoms_match_unfold(s, v);
            let m = choose|m: int| #[trigger] atom_split(s, v, m);
            let i = j + m;
            assert(w.take(i).take(j) == w.take(j));
            assert(w.take(i).skip(j) == v.take(m));
            assert(v.skip(m) == w.skip(i));
            NfaView::lemma_atom_accepts(s[0], next, v.take(m));
            assert(concat_split(acc, a, w.take(i), j));
            acc.lemma_concat_accepts(a, w.take(i));
            assert(alt_split(acc2, s2, w, i));
        }
    }
}

pub proof fn lemma_alt_nfa(s: Seq<char>, w: Seq<char>)
    requires
        2 * s.len() <= u32::MAX,
    ensures
        alt_nfa(s).wf(),
        alt_nfa(s).counter <= 2 * s.len(),
        alt_nfa(s).accepts(w) == alt_matches(s, w),
{
    if s.len() == 0 {
        NfaView::lemma_empty_accepts(w);
    } else {
        let next = lookahead(s);
        let a = atom_nfa(s[0], next);
        let s2 = s.skip(atom_width(next) as int);
        NfaView::lemma_atom_accepts(s[0], next, w);
        lemma_alt_from(a, s2, w);
        assert forall|i: int| #[trigger] alt_split(a, s2, w, i) implies atom_split(s, w, i) by {
            NfaView::lemma_atom_accepts(s[0], next, w.take(i));
        }
        assert forall|i: int| #[trigger] atom_split(s, w, i) implies alt_split(a, s2, w, i) by {
            NfaView::lemma_atom_accepts(s[0], next, w.take(i));
        }
        crate::pattern::lemma_atoms_match_unfold(s, w);
        if alt_nfa(s).accepts(w) {
            let i = choose|i: int| #[trigger] alt_split(a, s2, w, i);
            assert(atom_split(s, w, i));
        }
        if atoms_match(s, w) {
            let i = choose|i: int| #[trigger] atom_split(s, w, i);
            assert(alt_split(a, s2, w, i));
        }
    }
}

pub proof fn lemma_union_from(acc: NfaView, p: Seq<char>, w: Seq<char>)
    requires
        acc.wf(),
        acc.counter + 2 * p.len() <= u32::MAX,
    ensures
        union_from(acc, p).wf(),
        union_from(acc, p).counter <= acc.counter + 2 * p.len(),
        union_from(acc, p).accepts(w) == (acc.accepts(w) || pattern_matches(p, w)),
    decreases p.len(),
{
    crate::pattern::lemma_first_alt_len(p);
    let k = first_alt_len(p);
    let alt = alt_nfa(p.take(k as int));
    lemma_alt_nfa(p.take(k as int), w);
    lemma_union_wf(acc, alt);
    acc.lemma_union_accepts(alt, w);
    let acc2 = acc.union_with(alt);
    if k < p.len() {
        lemma_union_from(acc2, p.skip(k + 1 as int), w);
    }
}

/// The automaton the parser builds for a pattern matches exactly the texts
/// of the pattern.
pub proof fn lemma_pattern_nfa_accepts(p: Seq<char>, w: Seq<char>)
    requires
        2 * p.len() <= u32::MAX,
    ensures
        pattern_nfa(p).accepts(w) == pattern_matches(p, w),
{
    NfaView::lemma_empty_accepts(w);
    lemma_union_from(NfaView::empty(), p, w);
}

} // verus!

verus! {

/// The automaton of a pattern has at most two states per character, and at
/// most `2^counter` state sets reachable in it.
pub proof fn lemma_pattern_nfa_size(p: Seq<char>)
    requires
        2 * p.len() <= u32::MAX,
    ensures
        pattern_nfa(p).wf(),
        pattern_nfa(p).counter <= 2 * p.len(),
        pattern_nfa(p).reachable_subsets().len() <= pow2(pattern_nfa(p).counter),
{
    lemma_union_from(NfaView::empty(), p, Seq::empty());
    pattern_nfa(p).lemma_reachable_subsets_bound();
}

} // verus!
