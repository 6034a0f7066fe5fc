//! Moore's partition refinement: a total deterministic automaton becomes one
//! with the same language in which some text tells any two states apart.
use vstd::prelude::*;
use crate::counter::Counter;
use crate::dfa::{DFA, dedge};
use crate::determinizer::covers;
use crate::partition::{
    count_up_to, lex_less, first_key, ranks_below, rank, value_count,
    lemma_count_bound, lemma_rank_injective, lemma_value_count_grows, lemma_rank_dense,
};
use crate::transition::Transition;
use crate::nfa_semantics::ids_below;
use vstd::relations::injective_on;
use crate::vecset::{sorted_chars, insert_u32, insert_dfa_edge, copy_chars, contains_u32};

verus! {

/// Where `s` goes on `a` in a total automaton.
pub open spec fn succ(d: DFA, s: u32, a: char) -> u32 {
    d.delta(s, a)->0
}

/// A state's class followed by the classes it moves to on each symbol of `alph`.
pub open spec fn key_of(d: DFA, class: Seq<u32>, alph: Seq<char>, s: int) -> Seq<u32> {
    seq![class[s]] + Seq::new(alph.len(), |k: int| class[succ(d, s as u32, alph[k]) as int])
}

pub open spec fn key_views(keys: Seq<Vec<u32>>) -> Seq<Seq<u32>> {
    keys.map_values(|v: Vec<u32>| v@)
}

/// States of one class agree on being final.
pub open spec fn respects_finals(d: DFA, c: Seq<u32>) -> bool {
    forall|s: int, t: int| 0 <= s < c.len() && 0 <= t < c.len() && #[trigger] c[s] == #[trigger] c[t]
        ==> (d.final_states@.contains(s as u32) <==> d.final_states@.contains(t as u32))
}

/// States of different classes are told apart by some text.
pub open spec fn separates(d: DFA, c: Seq<u32>) -> bool {
    forall|s: int, t: int| 0 <= s < c.len() && 0 <= t < c.len() && #[trigger] c[s] != #[trigger] c[t]
        ==> d.distinguishable(s as u32, t as u32)
}

/// States of one class move to states of one class on every symbol.
pub open spec fn stable(d: DFA, c: Seq<u32>) -> bool {
    forall|s: int, t: int, a: char| 0 <= s < c.len() && 0 <= t < c.len() && #[trigger] c[s] == #[trigger] c[t]
        && #[trigger] d.alphabet@.contains(a) ==> c[succ(d, s as u32, a) as int] == c[succ(d, t as u32, a) as int]
}

/// `o` is `d` with its states merged along `g`: state `s` of `d` becomes
/// state `g[s]` of `o`, two states are merged exactly when no text tells them
/// apart, and the merge keeps the edges, the final states and the initial
/// state.
pub open spec fn merges_along(d: DFA, o: DFA, g: Seq<u32>) -> bool {
    &&& g.len() == d.counter.value
    &&& forall|x: u32| #[trigger] o.states@.contains(x) <==> exists|s: int| 0 <= s < g.len() && #[trigger] g[s] == x
    &&& forall|s: int, t: int| 0 <= s < g.len() && 0 <= t < g.len() ==> (#[trigger] g[s] == #[trigger] g[t]
        <==> !d.distinguishable(s as u32, t as u32))
    &&& forall|s: int, a: char| #![trigger o.delta(g[s], a)] 0 <= s < g.len() && d.alphabet@.contains(a)
        ==> d.delta(s as u32, a) is Some && d.delta(s as u32, a)->0 < g.len()
        && o.delta(g[s], a) == Some(g[d.delta(s as u32, a)->0 as int])
    &&& forall|s: int| 0 <= s < g.len() ==> (o.final_states@.contains(#[trigger] g[s]) <==> d.final_states@.contains(s as u32))
    &&& o.initial_state == (match d.initial_state {
        Some(q) => Some(g[q as int]),
        None => None,
    })
}

/// What minimization promises of its result `o` for the input `d`: a total
/// automaton on the identifiers below its counter, with the alphabet and the
/// language of `d`, whose states are classes of states of `d` that no text
/// tells apart, and no two of which any text fails to tell apart; it has an
/// initial state where `d` has one, reaches all its states from it where `d`
/// does, has one state where `d` has one, and no final state where `d` has none.
pub open spec fn minimized_from(d: DFA, o: DFA) -> bool {
    &&& o.total()
    &&& o.dense()
    &&& o.alphabet@ == d.alphabet@
    &&& (o.initial_state is None <==> d.initial_state is None)
    &&& forall|w: Seq<char>| o.accepts(w) == d.accepts(w)
    &&& forall|g1: u32, g2: u32| #[trigger] o.states@.contains(g1) && #[trigger] o.states@.contains(g2) && g1 != g2
        ==> o.distinguishable(g1, g2)
    &&& exists|g: Seq<u32>| #[trigger] merges_along(d, o, g)
    &&& all_reachable(d) ==> all_reachable(o)
    &&& d.counter.value == 1 ==> o.counter.value == 1
    &&& (forall|x: u32| !d.final_states@.contains(x)) ==> (forall|x: u32| !o.final_states@.contains(x))
}

/// The automaton has an initial state, and reaches every state from it.
pub open spec fn all_reachable(d: DFA) -> bool {
    forall|s: u32| #[trigger] d.states@.contains(s) ==> (d.initial_state matches Some(q) && d.reaches(q, s))
}

pub struct Minimizer {
    pub dfa: DFA,
}

impl Minimizer {
    pub fn new(new_dfa: DFA) -> (r: Self)
        ensures
            r.dfa == new_dfa,
    {
        Minimizer { dfa: new_dfa }
    }

    pub fn take(self) -> (r: DFA)
        ensures
            r == self.dfa,
    {
        self.dfa
    }

    /// The key of every state: its class, then the class it moves to on each
    /// symbol of `alph`.
    #[verifier::spinoff_prover]
    fn fill_group_transitions(&self, class: &Vec<u32>, alph: &Vec<char>) -> (keys: Vec<Vec<u32>>)
        requires
            self.dfa.total(),
            self.dfa.dense(),
            class@.len() == self.dfa.counter.value,
            alph@.to_set() == self.dfa.alphabet@.to_set(),
        ensures
            keys@.len() == class@.len(),
            forall|s: int| 0 <= s < class@.len() ==> (#[trigger] keys@[s])@ == key_of(self.dfa, class@, alph@, s),
    {
        let d = &self.dfa;
        let n = class.len();
        let mut keys: Vec<Vec<u32>> = Vec::new();
        let mut s: usize = 0;
        while s < n
            invariant
                s <= n,
                n == class@.len(),
                n == d.counter.value,
                d.total(),
                d.dense(),
                alph@.to_set() == d.alphabet@.to_set(),
                keys@.len() == s,
                forall|x: int| 0 <= x < s ==> (#[trigger] keys@[x])@ == key_of(*d, class@, alph@, x),
            decreases n - s,
        {
            let mut key: Vec<u32> = Vec::new();
            key.push(class[s]);
            let mut k: usize = 0;
            while k < alph.len()
                invariant
                    s < n,
                    n == class@.len(),
                    n == d.counter.value,
                    d.total(),
                    d.dense(),
                    alph@.to_set() == d.alphabet@.to_set(),
                    k <= alph@.len(),
                    key@ == key_of(*d, class@, alph@, s as int).take(k + 1),
                decreases alph@.len() - k,
            {
                let a = alph[k];
                proof {
                    assert(alph@.to_set().contains(a));
                    assert(d.states@.contains(s as u32));
                    d.lemma_total_delta(s as u32, a);
                }
                let t = match d.reachable(s as u32, a) {
                    Some(t) => t,
                    None => 0,
                };
                proof {
                    assert(t == succ(*d, s as u32, a));
                    assert(d.states@.contains(t));
                }
                key.push(class[t as usize]);
                proof {
                    assert(key@ =~= key_of(*d, class@, alph@, s as int).take(k + 2));
                }
                k = k + 1;
            }
            proof {
                assert(key@ =~= key_of(*d, class@, alph@, s as int));
            }
            keys.push(key);
            s = s + 1;
        }
        keys
    }
}

fn same_key(x: &Vec<u32>, y: &Vec<u32>) -> (r: bool)
    ensures
        r == (x@ == y@),
{
    if x.len() != y.len() {
        return false;
    }
    let mut i: usize = 0;
    while i < x.len()
        invariant
            i <= x.len(),
            x.len() == y.len(),
            forall|j: int| 0 <= j < i ==> x@[j] == y@[j],
        decreases x.len() - i,
    {
        if x[i] != y[i] {
            return false;
        }
        i = i + 1;
    }
    proof {
        assert(x@ =~= y@);
    }
    true
}

fn key_less(x: &Vec<u32>, y: &Vec<u32>) -> (r: bool)
    ensures
        r == lex_less(x@, y@),
{
    let mut i: usize = 0;
    proof {
        assert(x@.skip(0) == x@);
        assert(y@.skip(0) == y@);
    }
    while i < x.len() && i < y.len()
        invariant
            i <= x.len(),
            i <= y.len(),
            lex_less(x@, y@) == lex_less(x@.skip(i as int), y@.skip(i as int)),
        decreases x.len() - i,
    {
        proof {
            assert(x@.skip(i as int)[0] == x@[i as int]);
            assert(y@.skip(i as int)[0] == y@[i as int]);
            assert(x@.skip(i as int).skip(1) == x@.skip(i + 1));
            assert(y@.skip(i as int).skip(1) == y@.skip(i + 1));
        }
        if x[i] < y[i] {
            return true;
        }
        if x[i] > y[i] {
            return false;
        }
        i = i + 1;
    }
    false
}

/// Whether no earlier key equals key `t`.
fn find_group_with_state(keys: &Vec<Vec<u32>>, t: usize) -> (r: bool)
    requires
        t < keys@.len(),
    ensures
        r == first_key(key_views(keys@), t as int),
{
    let ghost kv = key_views(keys@);
    let mut u: usize = 0;
    while u < t
        invariant
            u <= t,
            t < keys@.len(),
            kv == key_views(keys@),
            forall|v: int| 0 <= v < u ==> kv[v] != kv[t as int],
        decreases t - u,
    {
        if same_key(&keys[u], &keys[t]) {
            assert(kv[u as int] == keys@[u as int]@);
            assert(kv[t as int] == keys@[t as int]@);
            return false;
        }
        u = u + 1;
    }
    true
}

/// The new class of every state: the rank of its key among the distinct
/// keys, in lexicographic order.
fn find_states_with_same_transitions(keys: &Vec<Vec<u32>>) -> (r: Vec<u32>)
    requires
        keys@.len() <= u32::MAX,
        forall|i: int, j: int| 0 <= i < keys@.len() && 0 <= j < keys@.len() ==> #[trigger] keys@[i]@.len() == #[trigger] keys@[j]@.len(),
    ensures
        r@.len() == keys@.len(),
        forall|s: int| 0 <= s < keys@.len() ==> #[trigger] r@[s] == rank(key_views(keys@), key_views(keys@)[s]),
        gapless(r@),
{
    let ghost kv = key_views(keys@);
    let n = keys.len();
    let mut r: Vec<u32> = Vec::new();
    let mut s: usize = 0;
    while s < n
        invariant
            s <= n,
            n == keys@.len(),
            n <= u32::MAX,
            kv == key_views(keys@),
            r@.len() == s,
            forall|x: int| 0 <= x < s ==> #[trigger] r@[x] == rank(kv, kv[x]),
        decreases n - s,
    {
        let mut count: u32 = 0;
        let mut t: usize = 0;
        while t < n
            invariant
                t <= n,
                s < n,
                n == keys@.len(),
                n <= u32::MAX,
                kv == key_views(keys@),
                count == count_up_to(t as nat, ranks_below(kv, kv[s as int])),
            decreases n - t,
        {
            proof {
                lemma_count_bound(t as nat, ranks_below(kv, kv[s as int]));
            }
            if find_group_with_state(keys, t) && key_less(&keys[t], &keys[s]) {
                count = count + 1;
            }
            t = t + 1;
        }
        r.push(count);
        s = s + 1;
    }
    proof {
        assert forall|i: int, j: int| 0 <= i < kv.len() && 0 <= j < kv.len() implies #[trigger] kv[i].len() == #[trigger] kv[j].len() by {
            assert(kv[i] == keys@[i]@);
            assert(kv[j] == keys@[j]@);
        }
        assert forall|x: int| 0 <= x < n implies #[trigger] r@[x] < n by {
            lemma_rank_below_count(kv, x);
        }
        assert forall|x: int| 0 <= x < n && #[trigger] r@[x] > 0 implies exists|y: int| 0 <= y < n && r@[y] + 1 == r@[x] by {
            lemma_rank_dense(kv, x);
            let y = choose|y: int| 0 <= y < kv.len() && rank(kv, kv[y]) + 1 == rank(kv, kv[x]);
            assert(r@[y] + 1 == r@[x]);
        }
    }
    r
}

/// Every value is below the length, and below every positive value lies
/// the value one less.
pub open spec fn gapless(g: Seq<u32>) -> bool {
    &&& forall|x: int| 0 <= x < g.len() ==> #[trigger] g[x] < g.len()
    &&& forall|x: int| 0 <= x < g.len() && #[trigger] g[x] > 0 ==> exists|y: int| 0 <= y < g.len() && g[y] + 1 == g[x]
}

proof fn lemma_rank_below_count(kv: Seq<Seq<u32>>, x: int)
    requires
        0 <= x < kv.len(),
    ensures
        rank(kv, kv[x]) < kv.len(),
{
    crate::partition::lemma_first_occurrence(kv, x);
    let f = choose|f: int| 0 <= f <= x && kv[f] == kv[x] && first_key(kv, f);
    crate::partition::lemma_lex_irreflexive(kv[x]);
    let all = |t: int| true;
    assert(all(f) && !ranks_below(kv, kv[x])(f));
    crate::partition::lemma_count_mono(kv.len(), ranks_below(kv, kv[x]), all);
    crate::partition::lemma_count_all(kv.len(), all);
}

/// Every value up to one that occurs in a gapless sequence occurs too.
proof fn lemma_gapless_reaches(g: Seq<u32>, s: int, v: u32)
    requires
        gapless(g),
        0 <= s < g.len(),
        v <= g[s],
    ensures
        exists|t: int| 0 <= t < g.len() && g[t] == v,
    decreases g[s] - v,
{
    if g[s] > v {
        let t = choose|y: int| 0 <= y < g.len() && g[y] + 1 == g[s];
        lemma_gapless_reaches(g, t, v);
    }
}

/// Whether states of one class of `class` stay together in `next`.
fn refinement_is_stable(class: &Vec<u32>, next: &Vec<u32>) -> (r: bool)
    requires
        class@.len() == next@.len(),
    ensures
        r == forall|s: int, t: int| 0 <= s < class@.len() && 0 <= t < class@.len() && #[trigger] class@[s] == #[trigger] class@[t]
            ==> next@[s] == next@[t],
{
    let n = class.len();
    let mut s: usize = 0;
    while s < n
        invariant
            s <= n,
            n == class@.len(),
            n == next@.len(),
            forall|x: int, y: int| 0 <= x < s && 0 <= y < n && #[trigger] class@[x] == #[trigger] class@[y] ==> next@[x] == next@[y],
        decreases n - s,
    {
        let mut t: usize = 0;
        while t < n
            invariant
                t <= n,
                s < n,
                n == class@.len(),
                n == next@.len(),
                forall|x: int, y: int| 0 <= x < s && 0 <= y < n && #[trigger] class@[x] == #[trigger] class@[y] ==> next@[x] == next@[y],
                forall|y: int| 0 <= y < t && class@[s as int] == #[trigger] class@[y] ==> next@[s as int] == next@[y],
            decreases n - t,
        {
            if class[s] == class[t] && next[s] != next[t] {
                return false;
            }
            t = t + 1;
        }
        s = s + 1;
    }
    true
}

} // verus!

verus! {

/// `e` is the edge of some state's class on a symbol to the class of the
/// state it moves to.
pub open spec fn quotient_edge(d: DFA, g: Seq<u32>, e: Transition<char>) -> bool {
    exists|s: int| 0 <= s < g.len() && e.from == #[trigger] g[s] && d.alphabet@.contains(e.label)
        && e.to == g[succ(d, s as u32, e.label) as int]
}

/// The automaton on classes accepts from the class of `s` what `d`
/// accepts from `s`.
pub proof fn lemma_quotient_language(d: DFA, g: Seq<u32>, o: DFA, s: int, w: Seq<char>)
    requires
        d.total(),
        d.dense(),
        g.len() == d.counter.value,
        respects_finals(d, g),
        stable(d, g),
        forall|e: Transition<char>| #[trigger] o.transitions@.contains(e) ==> quotient_edge(d, g, e),
        forall|x: int, a: char| 0 <= x < g.len() && d.alphabet@.contains(a) ==> #[trigger] covers(o.transitions@, g[x], a),
        forall|x: int| 0 <= x < g.len() ==> (o.final_states@.contains(#[trigger] g[x]) <==> d.final_states@.contains(x as u32)),
        0 <= s < g.len(),
    ensures
        o.accepts_from(g[s], w) == d.accepts_from(s as u32, w),
    decreases w.len(),
{
    if w.len() == 0 {
        assert(o.final_states@.contains(g[s]) <==> d.final_states@.contains(s as u32));
    } else {
        let a = w[0];
        o.lemma_run_step(g[s], w);
        d.lemma_run_step(s as u32, w);
        crate::dfa::lemma_first_target(o.transitions@, g[s], a);
        if d.alphabet@.contains(a) {
            assert(d.states@.contains(s as u32));
            d.lemma_total_delta(s as u32, a);
            let t = succ(d, s as u32, a);
            assert(covers(o.transitions@, g[s], a));
            let x = o.delta(g[s], a)->0;
            assert(o.transitions@.contains(dedge(g[s], a, x)));
            assert(quotient_edge(d, g, dedge(g[s], a, x)));
            let s2 = choose|s2: int| 0 <= s2 < g.len() && dedge(g[s], a, x).from == #[trigger] g[s2]
                && d.alphabet@.contains(a) && x == g[succ(d, s2 as u32, a) as int];
            assert(g[s2] == g[s]);
            assert(x == g[t as int]);
            lemma_quotient_language(d, g, o, t as int, w.skip(1));
        } else {
            d.lemma_foreign_delta(s as u32, a);
            assert forall|x: u32| !o.transitions@.contains(dedge(g[s], a, x)) by {
                if o.transitions@.contains(dedge(g[s], a, x)) {
                    assert(quotient_edge(d, g, dedge(g[s], a, x)));
                }
            }
        }
    }
}

impl Minimizer {
    /// Adds the edges of the class of state `s` on every symbol.
    #[verifier::spinoff_prover]
    fn push_class_edges(&self, groups: &Vec<u32>, s: usize, transitions: &mut Vec<Transition<char>>)
        requires
            self.dfa.total(),
            self.dfa.dense(),
            groups@.len() == self.dfa.counter.value,
            s < groups@.len(),
        ensures
            forall|e: Transition<char>| #[trigger] final(transitions)@.contains(e) ==> old(transitions)@.contains(e)
                || quotient_edge(self.dfa, groups@, e),
            forall|e: Transition<char>| #[trigger] old(transitions)@.contains(e) ==> final(transitions)@.contains(e),
            forall|a: char| #[trigger] self.dfa.alphabet@.contains(a) ==> covers(final(transitions)@, groups@[s as int], a),
    {
        let d = &self.dfa;
        let g = groups[s];
        let ghost start = transitions@;
        let mut k: usize = 0;
        while k < d.alphabet.len()
            invariant
                s < groups@.len(),
                groups@.len() == d.counter.value,
                g == groups@[s as int],
                d.total(),
                d.dense(),
                k <= d.alphabet@.len(),
                forall|e: Transition<char>| #[trigger] transitions@.contains(e) ==> start.contains(e) || quotient_edge(*d, groups@, e),
                forall|e: Transition<char>| #[trigger] start.contains(e) ==> transitions@.contains(e),
                forall|j: int| 0 <= j < k ==> #[trigger] covers(transitions@, g, d.alphabet@[j]),
            decreases d.alphabet@.len() - k,
        {
            let a = d.alphabet[k];
            proof {
                assert(d.states@.contains(s as u32));
                d.lemma_total_delta(s as u32, a);
            }
            let t = match d.reachable(s as u32, a) {
                Some(t) => t,
                None => 0,
            };
            proof {
                assert(d.states@.contains(t));
            }
            let e = Transition::new(g, a, groups[t as usize]);
            let ghost tr0 = transitions@;
            insert_dfa_edge(transitions, e);
            proof {
                assert(quotient_edge(*d, groups@, e));
                assert forall|x: Transition<char>| #[trigger] transitions@.contains(x) implies start.contains(x) || quotient_edge(*d, groups@, x) by {
                    assert(transitions@.to_set().contains(x) == tr0.to_set().insert(e).contains(x));
                }
                assert forall|x: Transition<char>| #[trigger] tr0.contains(x) implies transitions@.contains(x) by {
                    assert(tr0.to_set().contains(x));
                    assert(transitions@.to_set().contains(x));
                }
                assert(transitions@.to_set().contains(e));
                assert forall|j: int| 0 <= j < k + 1 implies #[trigger] covers(transitions@, g, d.alphabet@[j]) by {
                    if j < k {
                        let c = d.alphabet@[j];
                        assert(covers(tr0, g, c));
                        let y = choose|y: u32| #[trigger] tr0.contains(dedge(g, c, y));
                        assert(transitions@.contains(dedge(g, c, y)));
                    } else {
                        assert(transitions@.contains(dedge(g, a, groups@[t as int])));
                    }
                }
            }
            k = k + 1;
        }
        proof {
            assert forall|a: char| #[trigger] d.alphabet@.contains(a) implies covers(transitions@, g, a) by {
                let j = choose|j: int| 0 <= j < d.alphabet@.len() && d.alphabet@[j] == a;
            }
        }
    }

    /// The automaton whose states are the classes of `groups`.
    #[verifier::spinoff_prover]
    fn build_dfa_from_groups(&self, groups: &Vec<u32>) -> (r: DFA)
        requires
            self.dfa.total(),
            self.dfa.dense(),
            groups@.len() == self.dfa.counter.value,
            respects_finals(self.dfa, groups@),
            stable(self.dfa, groups@),
            gapless(groups@),
        ensures
            r.alphabet@ == self.dfa.alphabet@,
            forall|x: u32| #[trigger] r.states@.contains(x) <==> exists|s: int| 0 <= s < groups@.len() && #[trigger] groups@[s] == x,
            forall|x: u32| #[trigger] r.final_states@.contains(x) ==> r.states@.contains(x),
            forall|e: Transition<char>| #[trigger] r.transitions@.contains(e) ==> quotient_edge(self.dfa, groups@, e),
            forall|x: int, a: char| 0 <= x < groups@.len() && self.dfa.alphabet@.contains(a) ==> #[trigger] covers(r.transitions@, groups@[x], a),
            forall|x: int| 0 <= x < groups@.len() ==> (r.final_states@.contains(#[trigger] groups@[x]) <==> self.dfa.final_states@.contains(x as u32)),
            r.initial_state == (match self.dfa.initial_state {
                Some(q) => Some(groups@[q as int]),
                None => None,
            }),
            r.dense(),
            r.counter.value <= groups@.len(),
    {
        let d = &self.dfa;
        let n = groups.len();
        let mut top: u32 = 0;
        let mut y: usize = 0;
        while y < n
            invariant
                y <= n,
                n == groups@.len(),
                n == d.counter.value,
                gapless(groups@),
                forall|z: int| 0 <= z < y ==> #[trigger] groups@[z] < top,
                top == 0 || exists|z: int| 0 <= z < y && groups@[z] + 1 == top,
                top <= n,
            decreases n - y,
        {
            if groups[y] >= top {
                top = groups[y] + 1;
            }
            y = y + 1;
        }
        let mut states: Vec<u32> = Vec::new();
        let mut finals: Vec<u32> = Vec::new();
        let mut transitions: Vec<Transition<char>> = Vec::new();
        let mut s: usize = 0;
        while s < n
            invariant
                s <= n,
                n == groups@.len(),
                n == d.counter.value,
                *d == self.dfa,
                d.total(),
                d.dense(),
                stable(*d, groups@),
                        forall|x: u32| #[trigger] states@.contains(x) <==> exists|y: int| 0 <= y < s && #[trigger] groups@[y] == x,
                forall|x: u32| #[trigger] finals@.contains(x) <==> exists|y: int| 0 <= y < s && #[trigger] groups@[y] == x
                    && d.final_states@.contains(y as u32),
                forall|e: Transition<char>| #[trigger] transitions@.contains(e) ==> quotient_edge(*d, groups@, e),
                forall|x: int, a: char| 0 <= x < s && d.alphabet@.contains(a) ==> #[trigger] covers(transitions@, groups@[x], a),
            decreases n - s,
        {
            let g = groups[s];
            let ghost st0 = states@;
            insert_u32(&mut states, g);
            proof {
                assert forall|x: u32| #[trigger] states@.contains(x) <==> exists|y: int| 0 <= y < s + 1 && #[trigger] groups@[y] == x by {
                    assert(states@.to_set().contains(x) == st0.to_set().insert(g).contains(x));
                    if x == g {
                        assert(groups@[s as int] == x);
                    }
                }
            }
            let ghost fi0 = finals@;
            let is_final = contains_u32(&d.final_states, s as u32);
            if is_final {
                insert_u32(&mut finals, g);
            }
            proof {
                assert forall|x: u32| #[trigger] finals@.contains(x) <==> exists|y: int| 0 <= y < s + 1 && #[trigger] groups@[y] == x
                    && d.final_states@.contains(y as u32) by {
                    if is_final {
                        assert(finals@.to_set().contains(x) == fi0.to_set().insert(g).contains(x));
                    }
                    if x == g && d.final_states@.contains(s as u32) {
                        assert(groups@[s as int] == x);
                    }
                    if exists|y: int| 0 <= y < s + 1 && #[trigger] groups@[y] == x && d.final_states@.contains(y as u32) {
                        let y = choose|y: int| 0 <= y < s + 1 && #[trigger] groups@[y] == x && d.final_states@.contains(y as u32);
                        if y < s {
                            assert(fi0.contains(x));
                            if is_final {
                                assert(fi0.to_set().contains(x));
                                assert(finals@.to_set().contains(x));
                            }
                        }
                    }
                }
            }
            let ghost tr0 = transitions@;
            self.push_class_edges(groups, s, &mut transitions);
            proof {
                assert forall|x: int, c: char| 0 <= x < s && d.alphabet@.contains(c) implies #[trigger] covers(transitions@, groups@[x], c) by {
                    assert(covers(tr0, groups@[x], c));
                    let y = choose|y: u32| #[trigger] tr0.contains(dedge(groups@[x], c, y));
                    assert(transitions@.contains(dedge(groups@[x], c, y)));
                }
            }
            proof {
                assert forall|x: int, a: char| 0 <= x < s + 1 && d.alphabet@.contains(a) implies #[trigger] covers(transitions@, groups@[x], a) by {
                    if x == s {
                        assert(covers(transitions@, groups@[s as int], a));
                    }
                }
            }
            s = s + 1;
        }
        let initial_state = match d.initial_state {
            Some(q) => {
                proof {
                    assert(d.states@.contains(q));
                }
                Some(groups[q as usize])
            },
            None => None,
        };
        let r = DFA {
            alphabet: copy_chars(&d.alphabet),
            states,
            transitions,
            final_states: finals,
            initial_state,
            counter: Counter { value: top },
        };
        proof {
            assert forall|x: u32| #[trigger] r.states@.contains(x) <==> x < top by {
                if x < top {
                    let z = choose|z: int| 0 <= z < n && groups@[z] + 1 == top;
                    lemma_gapless_reaches(groups@, z, x);
                    let t = choose|t: int| 0 <= t < groups@.len() && groups@[t] == x;
                    assert(groups@[t] == x);
                }
                if r.states@.contains(x) {
                    let t = choose|t: int| 0 <= t < n && #[trigger] groups@[t] == x;
                }
            }
            assert forall|x: int| 0 <= x < groups@.len() implies (r.final_states@.contains(#[trigger] groups@[x])
                <==> d.final_states@.contains(x as u32)) by {
                if r.final_states@.contains(groups@[x]) {
                    let y = choose|y: int| 0 <= y < n && #[trigger] groups@[y] == groups@[x] && d.final_states@.contains(y as u32);
                }
            }
        }
        r
    }
}

} // verus!

verus! {

proof fn lemma_seq_differ(x: Seq<u32>, y: Seq<u32>)
    requires
        x.len() == y.len(),
        x != y,
    ensures
        exists|i: int| 0 <= i < x.len() && x[i] != y[i],
{
    if forall|i: int| 0 <= i < x.len() ==> x[i] == y[i] {
        assert(x =~= y);
    }
}

/// Two states of one class whose keys differ are told apart by some text.
#[verifier::rlimit(80)]
#[verifier::spinoff_prover]
proof fn lemma_split_separates(d: DFA, class: Seq<u32>, alph: Seq<char>, s: int, t: int)
    requires
        d.total(),
        d.dense(),
        class.len() == d.counter.value,
        alph.to_set() == d.alphabet@.to_set(),
        separates(d, class),
        0 <= s < class.len(),
        0 <= t < class.len(),
        class[s] == class[t],
        key_of(d, class, alph, s) != key_of(d, class, alph, t),
    ensures
        d.distinguishable(s as u32, t as u32),
{
    let ks = key_of(d, class, alph, s);
    let kt = key_of(d, class, alph, t);
    lemma_seq_differ(ks, kt);
    let i = choose|i: int| 0 <= i < ks.len() && ks[i] != kt[i];
    assert(i >= 1) by {
        if i == 0 {
            assert(ks[0] == class[s]);
            assert(kt[0] == class[t]);
        }
    }
    let a = alph[i - 1];
    assert(alph.to_set().contains(a));
    assert(d.states@.contains(s as u32));
    assert(d.states@.contains(t as u32));
    d.lemma_total_delta(s as u32, a);
    d.lemma_total_delta(t as u32, a);
    let x = succ(d, s as u32, a);
    let y = succ(d, t as u32, a);
    assert(d.states@.contains(x));
    assert(d.states@.contains(y));
    assert(ks[i] == class[x as int]);
    assert(kt[i] == class[y as int]);
    assert(class[x as int] != class[y as int]);
    assert((x as int) as u32 == x);
    assert((y as int) as u32 == y);
    assert(d.distinguishable(x, y));
    lemma_step_distinguishes(d, s as u32, t as u32, a, x, y);
}

/// States that move on one symbol to states told apart are told apart.
proof fn lemma_step_distinguishes(d: DFA, s: u32, t: u32, a: char, x: u32, y: u32)
    requires
        d.delta(s, a) == Some(x),
        d.delta(t, a) == Some(y),
        d.distinguishable(x, y),
    ensures
        d.distinguishable(s, t),
{
    let w2 = choose|w2: Seq<char>| #[trigger] d.accepts_from(x, w2) != d.accepts_from(y, w2);
    let w = seq![a] + w2;
    assert(w[0] == a);
    assert(w.skip(1) == w2);
    d.lemma_run_step(s, w);
    d.lemma_run_step(t, w);
    assert(d.accepts_from(s, w) != d.accepts_from(t, w));
}

/// Where refinement splits nothing, states of one new class move to states
/// of one new class.
proof fn lemma_unsplit_stable(d: DFA, class: Seq<u32>, alph: Seq<char>, kv: Seq<Seq<u32>>, next: Seq<u32>)
    requires
        d.total(),
        d.dense(),
        class.len() == d.counter.value,
        alph.to_set() == d.alphabet@.to_set(),
        kv.len() == class.len(),
        forall|s: int| 0 <= s < class.len() ==> #[trigger] kv[s] == key_of(d, class, alph, s),
        next.len() == class.len(),
        forall|s: int, t: int| 0 <= s < class.len() && 0 <= t < class.len() && #[trigger] next[s] == #[trigger] next[t]
            ==> kv[s] == kv[t],
        forall|s: int, t: int| 0 <= s < class.len() && 0 <= t < class.len() && #[trigger] class[s] == #[trigger] class[t]
            ==> next[s] == next[t],
    ensures
        stable(d, next),
{
    let n = class.len();
    assert forall|s: int, t: int, a: char| 0 <= s < n && 0 <= t < n && #[trigger] next[s] == #[trigger] next[t]
        && #[trigger] d.alphabet@.contains(a) implies next[succ(d, s as u32, a) as int] == next[succ(d, t as u32, a) as int] by {
        assert(d.alphabet@.to_set().contains(a));
        let k = choose|k: int| 0 <= k < alph.len() && alph[k] == a;
        assert(kv[s] == kv[t]);
        assert(kv[s][k + 1] == class[succ(d, s as u32, a) as int]);
        assert(kv[t][k + 1] == class[succ(d, t as u32, a) as int]);
        assert(d.states@.contains(s as u32));
        assert(d.states@.contains(t as u32));
        d.lemma_total_delta(s as u32, a);
        d.lemma_total_delta(t as u32, a);
    }
}

/// One round of refinement only splits classes, and keeps them faithful to
/// finality and to what texts tell apart.
#[verifier::spinoff_prover]
proof fn lemma_refine_step(d: DFA, class: Seq<u32>, alph: Seq<char>, kv: Seq<Seq<u32>>, next: Seq<u32>)
    requires
        d.total(),
        d.dense(),
        class.len() == d.counter.value,
        alph.to_set() == d.alphabet@.to_set(),
        kv.len() == class.len(),
        forall|s: int| 0 <= s < class.len() ==> #[trigger] kv[s] == key_of(d, class, alph, s),
        next.len() == class.len(),
        forall|s: int| 0 <= s < class.len() ==> #[trigger] next[s] == rank(kv, kv[s]),
        respects_finals(d, class),
        separates(d, class),
    ensures
        forall|s: int, t: int| 0 <= s < class.len() && 0 <= t < class.len() && #[trigger] next[s] == #[trigger] next[t]
            ==> kv[s] == kv[t],
        forall|s: int, t: int| 0 <= s < class.len() && 0 <= t < class.len() && #[trigger] next[s] == #[trigger] next[t]
            ==> class[s] == class[t],
        respects_finals(d, next),
        separates(d, next),
{
    let n = class.len();
    assert forall|s: int, t: int| 0 <= s < n && 0 <= t < n && #[trigger] next[s] == #[trigger] next[t] implies kv[s] == kv[t] by {
        if kv[s] != kv[t] {
            lemma_rank_injective(kv, s, t);
        }
    }
    assert forall|s: int, t: int| 0 <= s < n && 0 <= t < n && #[trigger] next[s] == #[trigger] next[t] implies class[s] == class[t] by {
        assert(kv[s][0] == class[s]);
        assert(kv[t][0] == class[t]);
    }
    assert forall|s: int, t: int| 0 <= s < n && 0 <= t < n && #[trigger] next[s] != #[trigger] next[t] implies d.distinguishable(
        s as u32,
        t as u32,
    ) by {
        if class[s] == class[t] {
            lemma_split_separates(d, class, alph, s, t);
        }
    }
}

impl Minimizer {
    /// Merges the states that no text tells apart: the result is total, has
    /// the same language, and any two of its states are told apart by some text.
    #[verifier::spinoff_prover]
    pub fn minimize(self) -> (r: Self)
        requires
            self.dfa.total(),
            self.dfa.dense(),
        ensures
            minimized_from(self.dfa, r.dfa),
    {
        let ghost d = self.dfa;
        let n = self.dfa.counter.value;
        let alph = sorted_chars(&self.dfa.alphabet);
        let mut class: Vec<u32> = Vec::new();
        let mut s: u32 = 0;
        while s < n
            invariant
                s <= n,
                d == self.dfa,
                n == d.counter.value,
                class@.len() == s,
                forall|x: int| 0 <= x < s ==> #[trigger] class@[x] == (if d.final_states@.contains(x as u32) { 1u32 } else { 0u32 }),
            decreases n - s,
        {
            if contains_u32(&self.dfa.final_states, s) {
                class.push(1);
            } else {
                class.push(0);
            }
            s = s + 1;
        }
        proof {
            assert forall|x: int, y: int| 0 <= x < n && 0 <= y < n && #[trigger] class@[x] != #[trigger] class@[y] implies d.distinguishable(
                x as u32,
                y as u32,
            ) by {
                let w = Seq::<char>::empty();
                assert(d.accepts_from(x as u32, w) != d.accepts_from(y as u32, w));
            }
        }
        loop
            invariant
                d == self.dfa,
                d.total(),
                d.dense(),
                n == d.counter.value,
                alph@.to_set() == d.alphabet@.to_set(),
                class@.len() == n,
                respects_finals(d, class@),
                separates(d, class@),
            decreases n - value_count(class@),
        {
            let keys = self.fill_group_transitions(&class, &alph);
            let next = find_states_with_same_transitions(&keys);
            proof {
                let kv = key_views(keys@);
                assert forall|x: int| 0 <= x < n implies #[trigger] kv[x] == key_of(d, class@, alph@, x) by {
                    assert(kv[x] == keys@[x]@);
                }
                lemma_refine_step(d, class@, alph@, kv, next@);
                if forall|x: int, y: int| 0 <= x < n && 0 <= y < n && #[trigger] class@[x] == #[trigger] class@[y] ==> next@[x] == next@[y] {
                    lemma_unsplit_stable(d, class@, alph@, kv, next@);
                }
                crate::partition::lemma_count_bound(n as nat, crate::partition::first_vals(next@));
            }
            if refinement_is_stable(&class, &next) {
                let dfa = self.build_dfa_from_groups(&next);
                proof {
                    lemma_quotient_facts(d, next@, dfa);
                    assert(merges_along(d, dfa, next@));
                    if n == 1 {
                        assert(dfa.states@.contains(next@[0]));
                    }
                }
                return Minimizer { dfa };
            }
            proof {
                let (x, y) = choose|x: int, y: int| 0 <= x < n && 0 <= y < n && #[trigger] class@[x] == #[trigger] class@[y]
                    && next@[x] != next@[y];
                lemma_value_count_grows(class@, next@, x, y);
            }
            class = next;
        }
    }
}

/// On the classes, a text leads from the class of `s` to the class of where
/// it leads from `s`.
pub proof fn lemma_quotient_run(d: DFA, g: Seq<u32>, o: DFA, s: int, w: Seq<char>)
    requires
        d.total(),
        d.dense(),
        g.len() == d.counter.value,
        stable(d, g),
        forall|e: Transition<char>| #[trigger] o.transitions@.contains(e) ==> quotient_edge(d, g, e),
        forall|x: int, a: char| 0 <= x < g.len() && d.alphabet@.contains(a) ==> #[trigger] covers(o.transitions@, g[x], a),
        0 <= s < g.len(),
    ensures
        match d.run(s as u32, w) {
            Some(t) => t < g.len() && o.run(g[s], w) == Some(g[t as int]),
            None => o.run(g[s], w) is None,
        },
    decreases w.len(),
{
    if w.len() > 0 {
        let a = w[0];
        o.lemma_run_step(g[s], w);
        d.lemma_run_step(s as u32, w);
        crate::dfa::lemma_first_target(o.transitions@, g[s], a);
        if d.alphabet@.contains(a) {
            assert(d.states@.contains(s as u32));
            d.lemma_total_delta(s as u32, a);
            let t = succ(d, s as u32, a);
            assert(covers(o.transitions@, g[s], a));
            let x = o.delta(g[s], a)->0;
            assert(o.transitions@.contains(dedge(g[s], a, x)));
            assert(quotient_edge(d, g, dedge(g[s], a, x)));
            let s2 = choose|s2: int| 0 <= s2 < g.len() && dedge(g[s], a, x).from == #[trigger] g[s2]
                && d.alphabet@.contains(a) && x == g[succ(d, s2 as u32, a) as int];
            assert(g[s2] == g[s]);
            assert(x == g[t as int]);
            lemma_quotient_run(d, g, o, t as int, w.skip(1));
        } else {
            d.lemma_foreign_delta(s as u32, a);
            assert forall|x: u32| !o.transitions@.contains(dedge(g[s], a, x)) by {
                if o.transitions@.contains(dedge(g[s], a, x)) {
                    assert(quotient_edge(d, g, dedge(g[s], a, x)));
                }
            }
        }
    }
}

/// On the classes, the class of `s` moves on `a` to the class of where `s`
/// moves.
#[verifier::spinoff_prover]
proof fn lemma_quotient_delta_at(d: DFA, g: Seq<u32>, o: DFA, s: int, a: char)
    requires
        d.total(),
        d.dense(),
        g.len() == d.counter.value,
        stable(d, g),
        forall|e: Transition<char>| #[trigger] o.transitions@.contains(e) ==> quotient_edge(d, g, e),
        forall|x: int, a: char| 0 <= x < g.len() && d.alphabet@.contains(a) ==> #[trigger] covers(o.transitions@, g[x], a),
        0 <= s < g.len(),
        d.alphabet@.contains(a),
    ensures
        d.delta(s as u32, a) is Some,
        d.delta(s as u32, a)->0 < g.len(),
        o.delta(g[s], a) == Some(g[d.delta(s as u32, a)->0 as int]),
{
    let w = seq![a];
    assert(w[0] == a);
    assert(w.skip(1).len() == 0);
    assert(d.states@.contains(s as u32));
    d.lemma_total_delta(s as u32, a);
    d.lemma_run_step(s as u32, w);
    o.lemma_run_step(g[s], w);
    lemma_quotient_run(d, g, o, s, w);
    let t = d.delta(s as u32, a)->0;
    assert(d.run(t, w.skip(1)) == Some(t));
    if let Some(x) = o.delta(g[s], a) {
        assert(o.run(x, w.skip(1)) == Some(x));
    }
}

proof fn lemma_quotient_delta(d: DFA, g: Seq<u32>, o: DFA)
    requires
        d.total(),
        d.dense(),
        g.len() == d.counter.value,
        stable(d, g),
        forall|e: Transition<char>| #[trigger] o.transitions@.contains(e) ==> quotient_edge(d, g, e),
        forall|x: int, a: char| 0 <= x < g.len() && d.alphabet@.contains(a) ==> #[trigger] covers(o.transitions@, g[x], a),
    ensures
        forall|s: int, a: char| #![trigger o.delta(g[s], a)] 0 <= s < g.len() && d.alphabet@.contains(a)
            ==> d.delta(s as u32, a) is Some && d.delta(s as u32, a)->0 < g.len()
            && o.delta(g[s], a) == Some(g[d.delta(s as u32, a)->0 as int]),
{
    assert forall|s: int, a: char| #![trigger o.delta(g[s], a)] 0 <= s < g.len() && d.alphabet@.contains(a)
        implies d.delta(s as u32, a) is Some && d.delta(s as u32, a)->0 < g.len()
            && o.delta(g[s], a) == Some(g[d.delta(s as u32, a)->0 as int]) by {
        lemma_quotient_delta_at(d, g, o, s, a);
    }
}

/// The automaton on the classes of a stable partition is total.
#[verifier::rlimit(80)]
proof fn lemma_quotient_total(d: DFA, g: Seq<u32>, o: DFA)
    requires
        d.total(),
        d.dense(),
        g.len() == d.counter.value,
        respects_finals(d, g),
        separates(d, g),
        stable(d, g),
        o.alphabet@ == d.alphabet@,
        forall|x: u32| #[trigger] o.states@.contains(x) <==> exists|s: int| 0 <= s < g.len() && #[trigger] g[s] == x,
        forall|x: u32| #[trigger] o.final_states@.contains(x) ==> o.states@.contains(x),
        forall|e: Transition<char>| #[trigger] o.transitions@.contains(e) ==> quotient_edge(d, g, e),
        forall|x: int, a: char| 0 <= x < g.len() && d.alphabet@.contains(a) ==> #[trigger] covers(o.transitions@, g[x], a),
        forall|x: int| 0 <= x < g.len() ==> (o.final_states@.contains(#[trigger] g[x]) <==> d.final_states@.contains(x as u32)),
        o.initial_state == (match d.initial_state {
            Some(q) => Some(g[q as int]),
            None => None,
        }),
    ensures
        o.total(),
{
    assert forall|x: u32, a: char| #![trigger o.states@.contains(x), o.alphabet@.contains(a)]
        o.states@.contains(x) && o.alphabet@.contains(a) implies exists|t: u32| #[trigger] o.transitions@.contains(dedge(x, a, t)) by {
        let s = choose|s: int| 0 <= s < g.len() && #[trigger] g[s] == x;
        assert(covers(o.transitions@, g[s], a));
    }
    assert forall|e1: Transition<char>, e2: Transition<char>| #![trigger o.transitions@.contains(e1), o.transitions@.contains(e2)]
        o.transitions@.contains(e1) && o.transitions@.contains(e2) && e1.from == e2.from && e1.label == e2.label implies e1.to == e2.to by {
        assert(quotient_edge(d, g, e1));
        assert(quotient_edge(d, g, e2));
        let s1 = choose|s: int| 0 <= s < g.len() && e1.from == #[trigger] g[s] && d.alphabet@.contains(e1.label)
            && e1.to == g[succ(d, s as u32, e1.label) as int];
        let s2 = choose|s: int| 0 <= s < g.len() && e2.from == #[trigger] g[s] && d.alphabet@.contains(e2.label)
            && e2.to == g[succ(d, s as u32, e2.label) as int];
        assert(g[s1] == g[s2]);
    }
    assert forall|e: Transition<char>| #[trigger] o.transitions@.contains(e) implies o.states@.contains(e.from)
        && o.states@.contains(e.to) && o.alphabet@.contains(e.label) by {
        assert(quotient_edge(d, g, e));
        let s = choose|s: int| 0 <= s < g.len() && e.from == #[trigger] g[s] && d.alphabet@.contains(e.label)
            && e.to == g[succ(d, s as u32, e.label) as int];
        assert(d.states@.contains(s as u32));
        d.lemma_total_delta(s as u32, e.label);
        let t = succ(d, s as u32, e.label);
        assert(d.states@.contains(t));
        assert(g[t as int] == e.to);
    }
    if let Some(q) = d.initial_state {
        assert(d.states@.contains(q));
        assert(o.states@.contains(g[q as int]));
    }
}

/// The classes of a stable partition that separates what texts tell apart
/// are merged exactly along the partition.
#[verifier::spinoff_prover]
#[verifier::rlimit(100)]
proof fn lemma_quotient_merges(d: DFA, g: Seq<u32>, o: DFA)
    requires
        d.total(),
        d.dense(),
        g.len() == d.counter.value,
        respects_finals(d, g),
        separates(d, g),
        stable(d, g),
        o.alphabet@ == d.alphabet@,
        forall|x: u32| #[trigger] o.states@.contains(x) <==> exists|s: int| 0 <= s < g.len() && #[trigger] g[s] == x,
        forall|x: u32| #[trigger] o.final_states@.contains(x) ==> o.states@.contains(x),
        forall|e: Transition<char>| #[trigger] o.transitions@.contains(e) ==> quotient_edge(d, g, e),
        forall|x: int, a: char| 0 <= x < g.len() && d.alphabet@.contains(a) ==> #[trigger] covers(o.transitions@, g[x], a),
        forall|x: int| 0 <= x < g.len() ==> (o.final_states@.contains(#[trigger] g[x]) <==> d.final_states@.contains(x as u32)),
        o.initial_state == (match d.initial_state {
            Some(q) => Some(g[q as int]),
            None => None,
        }),
    ensures
        merges_along(d, o, g),
{
    assert forall|s: int, t: int| 0 <= s < g.len() && 0 <= t < g.len() implies (#[trigger] g[s] == #[trigger] g[t]
        <==> !d.distinguishable(s as u32, t as u32)) by {
        if g[s] == g[t] {
            assert forall|w: Seq<char>| d.accepts_from(s as u32, w) == #[trigger] d.accepts_from(t as u32, w) by {
                lemma_quotient_language(d, g, o, s, w);
                lemma_quotient_language(d, g, o, t, w);
            }
        }
    }
    lemma_quotient_delta(d, g, o);
}

/// The automaton on the classes of a stable partition has the language of
/// `d`, and tells its states apart when the partition does.
#[verifier::spinoff_prover]
#[verifier::rlimit(100)]
proof fn lemma_quotient_facts(d: DFA, g: Seq<u32>, o: DFA)
    requires
        d.total(),
        d.dense(),
        g.len() == d.counter.value,
        respects_finals(d, g),
        separates(d, g),
        stable(d, g),
        o.alphabet@ == d.alphabet@,
        forall|x: u32| #[trigger] o.states@.contains(x) <==> exists|s: int| 0 <= s < g.len() && #[trigger] g[s] == x,
        forall|x: u32| #[trigger] o.final_states@.contains(x) ==> o.states@.contains(x),
        forall|e: Transition<char>| #[trigger] o.transitions@.contains(e) ==> quotient_edge(d, g, e),
        forall|x: int, a: char| 0 <= x < g.len() && d.alphabet@.contains(a) ==> #[trigger] covers(o.transitions@, g[x], a),
        forall|x: int| 0 <= x < g.len() ==> (o.final_states@.contains(#[trigger] g[x]) <==> d.final_states@.contains(x as u32)),
        o.initial_state == (match d.initial_state {
            Some(q) => Some(g[q as int]),
            None => None,
        }),
    ensures
        o.total(),
        forall|w: Seq<char>| o.accepts(w) == d.accepts(w),
        forall|g1: u32, g2: u32| #[trigger] o.states@.contains(g1) && #[trigger] o.states@.contains(g2) && g1 != g2
            ==> o.distinguishable(g1, g2),
        merges_along(d, o, g),
        all_reachable(d) ==> all_reachable(o),
        (forall|x: u32| !d.final_states@.contains(x)) ==> (forall|x: u32| !o.final_states@.contains(x)),
{
    lemma_quotient_total(d, g, o);
    if all_reachable(d) {
        assert forall|x: u32| #[trigger] o.states@.contains(x) implies (o.initial_state matches Some(q) && o.reaches(q, x)) by {
            let s = choose|s: int| 0 <= s < g.len() && #[trigger] g[s] == x;
            assert(d.states@.contains(s as u32));
            let q = d.initial_state->0;
            assert(d.reaches(q, s as u32));
            let w = choose|w: Seq<char>| #[trigger] d.run(q, w) == Some(s as u32);
            assert(d.states@.contains(q));
            lemma_quotient_run(d, g, o, q as int, w);
            assert(o.run(g[q as int], w) == Some(x));
        }
    }
    if forall|x: u32| !d.final_states@.contains(x) {
        assert forall|x: u32| !o.final_states@.contains(x) by {
            if o.final_states@.contains(x) {
                let s = choose|s: int| 0 <= s < g.len() && #[trigger] g[s] == x;
                assert(o.final_states@.contains(g[s]));
            }
        }
    }
    lemma_quotient_merges(d, g, o);
    assert forall|w: Seq<char>| o.accepts(w) == d.accepts(w) by {
        if let Some(q) = d.initial_state {
            assert(d.states@.contains(q));
            lemma_quotient_language(d, g, o, q as int, w);
        }
    }
    assert forall|g1: u32, g2: u32| #[trigger] o.states@.contains(g1) && #[trigger] o.states@.contains(g2) && g1 != g2
        implies o.distinguishable(g1, g2) by {
        let s1 = choose|s: int| 0 <= s < g.len() && #[trigger] g[s] == g1;
        let s2 = choose|s: int| 0 <= s < g.len() && #[trigger] g[s] == g2;
        assert(d.distinguishable(s1 as u32, s2 as u32));
        let w = choose|w: Seq<char>| #[trigger] d.accepts_from(s1 as u32, w) != d.accepts_from(s2 as u32, w);
        lemma_quotient_language(d, g, o, s1, w);
        lemma_quotient_language(d, g, o, s2, w);
        assert(o.accepts_from(g1, w) != o.accepts_from(g2, w));
    }
}

} // verus!

verus! {

/// There are `k` identifiers below `k`.
proof fn lemma_ids_below_len(k: nat)
    requires
        k <= u32::MAX + 1,
    ensures
        ids_below(k).finite(),
        ids_below(k).len() == k,
    decreases k,
{
    if k == 0 {
        assert(ids_below(0) =~= Set::<u32>::empty());
    } else {
        let j = (k - 1) as nat;
        lemma_ids_below_len(j);
        assert(ids_below(k) =~= ids_below(j).insert(j as u32));
    }
}

/// Minimizing a minimized automaton again leaves the number of states as it is.
pub proof fn lemma_minimize_idempotent(d: DFA, m: DFA, m2: DFA)
    requires
        minimized_from(d, m),
        minimized_from(m, m2),
    ensures
        m2.counter.value == m.counter.value,
{
    let g = choose|g: Seq<u32>| #[trigger] merges_along(m, m2, g);
    let c = m.counter.value as nat;
    let c2 = m2.counter.value as nat;
    let f = |s: u32| g[s as int];
    assert(injective_on(f, ids_below(c))) by {
        assert forall|s: u32, t: u32| ids_below(c).contains(s) && ids_below(c).contains(t) && #[trigger] f(s) == #[trigger] f(t)
            implies s == t by {
            assert(g[s as int] == g[t as int]);
            if s != t {
                assert(m.states@.contains(s));
                assert(m.states@.contains(t));
                assert(m.distinguishable(s, t));
            }
        }
    }
    assert(ids_below(c).map(f) =~= ids_below(c2)) by {
        assert forall|x: u32| ids_below(c).map(f).contains(x) implies ids_below(c2).contains(x) by {
            let s = choose|s: u32| ids_below(c).contains(s) && f(s) == x;
            assert(g[s as int] == x);
            assert(m2.states@.contains(x));
        }
        assert forall|x: u32| ids_below(c2).contains(x) implies ids_below(c).map(f).contains(x) by {
            assert(m2.states@.contains(x));
            let s = choose|s: int| 0 <= s < g.len() && #[trigger] g[s] == x;
            assert((s as u32) as int == s);
            assert(ids_below(c).contains(s as u32));
            assert(f(s as u32) == x);
        }
    }
    lemma_ids_below_len(c);
    lemma_ids_below_len(c2);
    vstd::set_lib::lemma_map_size(ids_below(c), ids_below(c2), f);
}

} // verus!
