//! DFAs built from the subset graph, and their language.
use vstd::prelude::*;
use std::collections::HashSet;
use crate::automaton::{State, Automaton, transitions_of, accepts_spec, run, step, lemma_run_empty};
use crate::dfa::{Dfa, first_target, lemma_first_target_unique, lemma_first_target_in};
use crate::epsilon_nfa::EpsilonNfa;
use crate::nfa::{Nfa, byte_labels};
use crate::thompson::row_labels;
use crate::walks::{walk, lemma_accepts_walks, lemma_walk_labels};
use crate::sets::below;
use crate::subset::{SubsetConstructionResult, is_subset_graph_of, in_set_order, label_of, over_alphabet, subset_graph};
use crate::lex::lex_less;
use crate::prune::kept;

verus! {

broadcast use vstd::std_specs::hash::group_hash_axioms;

/// The transition row that pairs the `c`-th byte of `alphabet` with the `c`-th target.
pub open spec fn row_of(alphabet: Seq<u8>, targets: Seq<usize>) -> Seq<(u8, usize)> {
    Seq::new(targets.len(), |c: int| (alphabet[c], targets[c]))
}

/// The labels of `row` strictly increase, and they are exactly the bytes of `alphabet`.
pub open spec fn complete_row(row: Seq<(u8, usize)>, alphabet: Set<u8>) -> bool {
    &&& forall|x: int, y: int| 0 <= x < y < row.len() ==> (#[trigger] row[x]).0 < (#[trigger] row[y]).0
    &&& forall|b: u8| alphabet.contains(b) <==> exists|c: int| 0 <= c < row.len() && (#[trigger] row[c]).0 == b
}

/// `lab` names, for each state of `d`, the set of states of `a` that it stands for, and
/// `d` is then the automaton of the subsets of `a` reachable from `init` over its alphabet,
/// numbered in increasing order of the sets (compared through their members in increasing
/// order).
pub open spec fn tracks<A: Automaton>(d: &Dfa, a: &A, init: Set<usize>, lab: Seq<Set<usize>>) -> bool {
    let k = d.states@.len();
    let t = d.trans();
    let n = a.spec_transitions().len();
    &&& lab.len() == k
    &&& k >= 1
    &&& d.start < k
    &&& lab[d.start as int] == init
    &&& forall|i: int, j: int| 0 <= i < j < k ==> lex_less(kept(lab[i], n), kept(lab[j], n))
    &&& forall|i: int, j: int| 0 <= i < k && 0 <= j < k && i != j ==> lab[i] != lab[j]
    &&& d.alphabet@ == a.spec_alphabet()
    &&& forall|i: int| 0 <= i < k ==> complete_row(#[trigger] t[i], a.spec_alphabet())
    &&& forall|i: int, c: int| 0 <= i < k && 0 <= c < t[i].len() ==>
        (#[trigger] t[i][c]).1 < k && lab[t[i][c].1 as int] == step(a, lab[i], t[i][c].0)
    &&& forall|x: usize| #[trigger] d.accept@.contains(x) <==> (x < k && exists|s: usize|
        lab[x as int].contains(s) && a.spec_accepting().contains(s))
    &&& forall|x: int, y: int| 0 <= x < y < d.accept@.len() ==> d.accept@[x] < d.accept@[y]
    &&& forall|i: int| #![trigger lab[i]] 0 <= i < k ==> exists|w: Seq<u8>|
        #![trigger run(a, init, w)] over_alphabet(w, a.spec_alphabet()) && run(a, init, w) == lab[i]
}

/// `d` is the subset automaton of `a` from the set of states `init`: complete and
/// deterministic over the alphabet of `a`, with one state for each set of states of `a`
/// that some word over that alphabet leads to.
pub open spec fn is_subset_dfa_of<A: Automaton>(d: &Dfa, a: &A, init: Set<usize>) -> bool {
    exists|lab: Seq<Set<usize>>| #[trigger] tracks(d, a, init, lab)
}

/// One move of a subset automaton: on a byte of the alphabet, to the state standing for
/// the step of `a`; on any other byte, nowhere.
pub proof fn lemma_tracks_step<A: Automaton>(d: &Dfa, a: &A, init: Set<usize>, lab: Seq<Set<usize>>, j: usize, b: u8)
    requires
        tracks(d, a, init, lab),
        j < lab.len(),
    ensures
        a.spec_alphabet().contains(b) ==> exists|v: usize| v < lab.len()
            && step(d, set![j], b) == set![v] && #[trigger] lab[v as int] == step(a, lab[j as int], b),
        !a.spec_alphabet().contains(b) ==> step(d, set![j], b) == Set::<usize>::empty(),
{
    let alph = a.spec_alphabet();
    let row = d.trans()[j as int];
    assert(complete_row(row, alph));
    if alph.contains(b) {
        let c = choose|c: int| 0 <= c < row.len() && (#[trigger] row[c]).0 == b;
        let v = row[c].1;
        assert(row.contains((b, v)));
        assert forall|p: int, q: int| 0 <= p < row.len() && 0 <= q < row.len() && row[p].0 == row[q].0 implies p == q by {
            if p < q {
                assert(row[p].0 < row[q].0);
            } else if q < p {
                assert(row[q].0 < row[p].0);
            }
        }
        lemma_first_target_unique(row, b, v);
        assert(d.spec_next(j, b) == set![v]);
        assert(step(d, set![j], b) =~= set![v]);
        assert(lab[v as int] == step(a, lab[j as int], b));
    } else {
        lemma_first_target_in(row, b);
        if let Some(v) = first_target(row, b) {
            let q = choose|q: int| 0 <= q < row.len() && row[q] == (b, v);
            assert(row[q].0 == b);
            assert(false);
        }
        assert(step(d, set![j], b) =~= Set::<usize>::empty());
    }
}

/// The state a subset automaton is in after reading `w`: the one standing for the states
/// `a` can be in, while `w` stays within the alphabet; none once it leaves it.
pub proof fn lemma_tracks_run<A: Automaton>(d: &Dfa, a: &A, init: Set<usize>, lab: Seq<Set<usize>>, w: Seq<u8>)
    requires
        tracks(d, a, init, lab),
    ensures
        over_alphabet(w, a.spec_alphabet()) ==> exists|j: usize| j < lab.len()
            && run(d, set![d.start], w) == set![j] && #[trigger] lab[j as int] == run(a, init, w),
        !over_alphabet(w, a.spec_alphabet()) ==> run(d, set![d.start], w) == Set::<usize>::empty(),
    decreases w.len(),
{
    let alph = a.spec_alphabet();
    if w.len() == 0 {
        assert(over_alphabet(w, alph));
        assert(lab[d.start as int] == run(a, init, w));
    } else {
        let u = w.drop_last();
        let b = w.last();
        lemma_tracks_run(d, a, init, lab, u);
        if over_alphabet(u, alph) {
            let j = choose|j: usize| j < lab.len()
                && run(d, set![d.start], u) == set![j] && #[trigger] lab[j as int] == run(a, init, u);
            lemma_tracks_step(d, a, init, lab, j, b);
            if alph.contains(b) {
                let v = choose|v: usize| v < lab.len()
                    && step(d, set![j], b) == set![v] && #[trigger] lab[v as int] == step(a, lab[j as int], b);
                assert(over_alphabet(w, alph)) by {
                    assert forall|q: int| 0 <= q < w.len() implies alph.contains(#[trigger] w[q]) by {
                        if q < u.len() {
                            assert(w[q] == u[q]);
                        }
                    }
                }
                assert(lab[v as int] == run(a, init, w));
            } else {
                assert(w[w.len() - 1] == b);
            }
        } else {
            assert(step(d, Set::<usize>::empty(), b) =~= Set::<usize>::empty());
            let q = choose|q: int| 0 <= q < u.len() && !alph.contains(#[trigger] u[q]);
            assert(w[q] == u[q]);
        }
    }
}

/// A subset automaton accepts a word exactly when the word stays within the alphabet and
/// `a` can reach an accepting state on it from `init`.
pub proof fn lemma_subset_dfa_language<A: Automaton>(d: &Dfa, a: &A, init: Set<usize>, w: Seq<u8>)
    requires
        is_subset_dfa_of(d, a, init),
    ensures
        accepts_spec(d, w) == (over_alphabet(w, a.spec_alphabet())
            && exists|s: usize| #[trigger] run(a, init, w).contains(s) && a.spec_accepting().contains(s)),
{
    let lab = choose|lab: Seq<Set<usize>>| #[trigger] tracks(d, a, init, lab);
    lemma_tracks_run(d, a, init, lab, w);
    if over_alphabet(w, a.spec_alphabet()) {
        let j = choose|j: usize| j < lab.len()
            && run(d, set![d.start], w) == set![j] && #[trigger] lab[j as int] == run(a, init, w);
        assert(d.accept@.contains(j) == (exists|s: usize| lab[j as int].contains(s) && a.spec_accepting().contains(s)));
        if accepts_spec(d, w) {
            let s = choose|s: usize| #[trigger] run(d, d.spec_initial(), w).contains(s) && d.spec_accepting().contains(s);
            assert(s == j);
            assert(d.accept@.contains(s));
        }
        if exists|s: usize| #[trigger] run(a, init, w).contains(s) && a.spec_accepting().contains(s) {
            assert(d.accept@.contains(j));
            assert(d.spec_accepting().contains(j));
            assert(run(d, d.spec_initial(), w).contains(j));
        }
    } else {
        if accepts_spec(d, w) {
            let s = choose|s: usize| #[trigger] run(d, d.spec_initial(), w).contains(s) && d.spec_accepting().contains(s);
            assert(false);
        }
    }
}

/// A subset automaton built from the initial states of `a` accepts what `a` accepts
/// within its alphabet, and nothing else.
pub proof fn lemma_subset_dfa_accepts<A: Automaton>(d: &Dfa, a: &A, w: Seq<u8>)
    requires
        is_subset_dfa_of(d, a, a.spec_initial()),
    ensures
        accepts_spec(d, w) == (over_alphabet(w, a.spec_alphabet()) && accepts_spec(a, w)),
{
    lemma_subset_dfa_language(d, a, a.spec_initial(), w);
    if accepts_spec(a, w) {
        let s = choose|s: usize| #[trigger] run(a, a.spec_initial(), w).contains(s) && a.spec_accepting().contains(s);
        assert(run(a, a.spec_initial(), w).contains(s));
    }
}

/// `d` is the DFA of the NFA `n` by the subset construction from its start state; it
/// accepts the words of `n` over its alphabet.
pub open spec fn is_dfa_of_nfa(d: &Dfa, n: &Nfa) -> bool {
    &&& is_subset_dfa_of(d, n, set![n.start])
    &&& d.well_formed()
    &&& forall|w: Seq<u8>| #[trigger] accepts_spec(d, w) == (over_alphabet(w, n.alphabet@) && accepts_spec(n, w))
}

/// `d` is the DFA of the epsilon-NFA `a` by the subset construction from the
/// epsilon-closure of its start state; it accepts the words of `a` over its alphabet.
pub open spec fn is_dfa_of_enfa(d: &Dfa, a: &EpsilonNfa) -> bool {
    &&& is_subset_dfa_of(d, a, a.eps_closure_spec(a.start))
    &&& d.well_formed()
    &&& forall|w: Seq<u8>| #[trigger] accepts_spec(d, w) == (over_alphabet(w, a.alphabet@) && accepts_spec(a, w))
}

impl Dfa {
    /// Lays out a subset graph as a DFA: state `i` for the `i`-th subset, its moves in
    /// alphabet order, the accepting subsets in increasing order.
    pub fn build_dfa_from_subsets(res: SubsetConstructionResult) -> (d: Dfa)
        requires
            res.initial_state < res.transitions@.len(),
            res.accepting_states@.len() == res.transitions@.len(),
            forall|i: int| 0 <= i < res.transitions@.len() ==> (#[trigger] res.transitions@[i])@.len() == res.alphabet@.len(),
            forall|i: int, c: int| 0 <= i < res.transitions@.len() && 0 <= c < res.alphabet@.len() ==>
                (#[trigger] res.transitions@[i]@[c]) < res.transitions@.len(),
        ensures
            d.states@.len() == res.transitions@.len(),
            forall|i: int| 0 <= i < res.transitions@.len() ==> #[trigger] d.trans()[i] == row_of(res.alphabet@, res.transitions@[i]@),
            d.start == res.initial_state,
            forall|x: usize| #[trigger] d.accept@.contains(x) <==> (x < res.transitions@.len() && res.accepting_states@[x as int]),
            forall|x: int, y: int| 0 <= x < y < d.accept@.len() ==> d.accept@[x] < d.accept@[y],
            d.alphabet@ == res.alphabet@.to_set(),
            d.well_formed(),
    {
        let k = res.transitions.len();
        let m = res.alphabet.len();
        let mut states: Vec<State<u8>> = Vec::new();
        let mut accept: Vec<usize> = Vec::new();
        for i in 0..k
            invariant
                k == res.transitions@.len(),
                m == res.alphabet@.len(),
                res.accepting_states@.len() == k,
                forall|p: int| 0 <= p < k ==> (#[trigger] res.transitions@[p])@.len() == m,
                forall|p: int, c: int| 0 <= p < k && 0 <= c < m ==> (#[trigger] res.transitions@[p]@[c]) < k,
                states@.len() == i,
                forall|p: int| 0 <= p < i ==> #[trigger] transitions_of(states@)[p] == row_of(res.alphabet@, res.transitions@[p]@),
                forall|x: usize| #[trigger] accept@.contains(x) <==> (x < i && res.accepting_states@[x as int]),
                forall|x: int, y: int| 0 <= x < y < accept@.len() ==> accept@[x] < accept@[y],
                forall|x: int| 0 <= x < accept@.len() ==> accept@[x] < i,
        {
            let targets = &res.transitions[i];
            let mut row: Vec<(u8, usize)> = Vec::new();
            for c in 0..m
                invariant
                    m == res.alphabet@.len(),
                    *targets == res.transitions@[i as int],
                    targets@.len() == m,
                    row@ == row_of(res.alphabet@, targets@).take(c as int),
            {
                row.push((res.alphabet[c], targets[c]));
                assert(row@ =~= row_of(res.alphabet@, targets@).take(c + 1));
            }
            assert(row@ =~= row_of(res.alphabet@, targets@));
            let ghost old_states = states@;
            states.push(State { transitions: row });
            assert forall|p: int| 0 <= p < i + 1 implies #[trigger] transitions_of(states@)[p] == row_of(res.alphabet@, res.transitions@[p]@) by {
                if p < i {
                    assert(states@[p] == old_states[p]);
                    assert(transitions_of(old_states)[p] == row_of(res.alphabet@, res.transitions@[p]@));
                }
            }
            if res.accepting_states[i] {
                let ghost old_accept = accept@;
                accept.push(i);
                assert forall|x: usize| #[trigger] accept@.contains(x) <==> (x < i + 1 && res.accepting_states@[x as int]) by {
                    if accept@.contains(x) {
                        let q = choose|q: int| 0 <= q < accept@.len() && accept@[q] == x;
                        if q < old_accept.len() {
                            assert(old_accept[q] == x);
                            assert(old_accept.contains(x));
                        }
                    }
                    if x < i && res.accepting_states@[x as int] {
                        assert(old_accept.contains(x));
                        let q = choose|q: int| 0 <= q < old_accept.len() && old_accept[q] == x;
                        assert(accept@[q] == x);
                    }
                    if x == i {
                        assert(accept@[old_accept.len() as int] == x);
                    }
                }
            } else {
                assert forall|x: usize| #[trigger] accept@.contains(x) implies x < i by {
                    let q = choose|q: int| 0 <= q < accept@.len() && accept@[q] == x;
                }
            }
        }
        let mut alphabet: HashSet<u8> = HashSet::new();
        for c in 0..m
            invariant
                m == res.alphabet@.len(),
                alphabet@ == res.alphabet@.take(c as int).to_set(),
        {
            alphabet.insert(res.alphabet[c]);
            proof {
                assert(res.alphabet@.take(c + 1) =~= res.alphabet@.take(c as int).push(res.alphabet@[c as int]));
                res.alphabet@.take(c as int).lemma_push_to_set_commute(res.alphabet@[c as int]);
            }
        }
        assert(res.alphabet@.take(m as int) =~= res.alphabet@);
        let d = Dfa { states, start: res.initial_state, accept, alphabet };
        proof {
            assert forall|x: int| 0 <= x < d.accept@.len() implies #[trigger] d.accept@[x] < d.states@.len() by {
                assert(d.accept@.contains(d.accept@[x]));
            }
            assert forall|i: int, q: int| 0 <= i < d.trans().len() && 0 <= q < d.trans()[i].len() implies
                (#[trigger] d.trans()[i][q]).1 < d.trans().len() by {
                assert(d.trans()[i] == row_of(res.alphabet@, res.transitions@[i]@));
                assert(res.transitions@[i]@[q] < k);
            }
        }
        d
    }

    /// The subset automaton of `a` from the states `initial`.
    pub fn subset_construction_from<A: Automaton>(a: &A, initial: &HashSet<usize>) -> (d: Dfa)
        requires
            a.wf(),
            initial@.subset_of(below(a.spec_transitions().len())),
        ensures
            is_subset_dfa_of(&d, a, initial@),
            d.well_formed(),
    {
        let res = subset_graph(a, initial);
        let ghost r = res;
        let ghost k = res.subsets@.len();
        let ghost lab = Seq::new(k, |i: int| label_of(&r, i));
        let d = Dfa::build_dfa_from_subsets(res);
        proof {
            let alph = a.spec_alphabet();
            let t = d.trans();
            assert(d.alphabet@ == alph);
            assert forall|i: int| 0 <= i < k implies complete_row(#[trigger] t[i], alph) by {
                let row = t[i];
                assert(row == row_of(r.alphabet@, r.transitions@[i]@));
                assert forall|b: u8| alph.contains(b) <==> exists|c: int| 0 <= c < row.len() && (#[trigger] row[c]).0 == b by {
                    if alph.contains(b) {
                        assert(r.alphabet@.to_set().contains(b));
                        let c = choose|c: int| 0 <= c < r.alphabet@.len() && r.alphabet@[c] == b;
                        assert(row[c].0 == b);
                    }
                    if exists|c: int| 0 <= c < row.len() && (#[trigger] row[c]).0 == b {
                        let c = choose|c: int| 0 <= c < row.len() && (#[trigger] row[c]).0 == b;
                        assert(r.alphabet@[c] == b);
                        assert(r.alphabet@.to_set().contains(b));
                    }
                }
            }
            assert forall|i: int, c: int| 0 <= i < k && 0 <= c < t[i].len() implies
                (#[trigger] t[i][c]).1 < k && lab[t[i][c].1 as int] == step(a, lab[i], t[i][c].0) by {
                assert(t[i] == row_of(r.alphabet@, r.transitions@[i]@));
                assert(r.transitions@[i]@[c] < k);
            }
            assert forall|x: usize| #[trigger] d.accept@.contains(x) <==> (x < k && exists|s: usize|
                lab[x as int].contains(s) && a.spec_accepting().contains(s)) by {
                if x < k {
                    assert(r.accepting_states@[x as int] == (exists|s: usize|
                        label_of(&r, x as int).contains(s) && a.spec_accepting().contains(s)));
                }
            }
            assert forall|i: int, j: int| 0 <= i < j < k implies
                lex_less(kept(lab[i], a.spec_transitions().len()), kept(lab[j], a.spec_transitions().len())) by {
                assert(r.subsets@[i]@ == kept(label_of(&r, i), a.spec_transitions().len()));
                assert(r.subsets@[j]@ == kept(label_of(&r, j), a.spec_transitions().len()));
            }
            assert forall|i: int| #![trigger lab[i]] 0 <= i < k implies exists|w: Seq<u8>|
                #![trigger run(a, initial@, w)] over_alphabet(w, alph) && run(a, initial@, w) == lab[i] by {
                assert(label_of(&r, i) == lab[i]);
            }
            assert(tracks(&d, a, initial@, lab));
        }
        d
    }

    /// The subset automaton of an NFA, from its start state.
    pub fn subset_construction(nfa: &Nfa) -> (d: Dfa)
        requires
            nfa.well_formed(),
        ensures
            is_subset_dfa_of(&d, nfa, set![nfa.start]),
            d.well_formed(),
            forall|w: Seq<u8>| #[trigger] accepts_spec(&d, w) == (over_alphabet(w, nfa.alphabet@) && accepts_spec(nfa, w)),
    {
        let mut initial: HashSet<usize> = HashSet::new();
        initial.insert(nfa.start);
        proof {
            assert(initial@ =~= set![nfa.start]);
        }
        let d = Dfa::subset_construction_from(nfa, &initial);
        proof {
            assert(nfa.spec_initial() == set![nfa.start]);
            assert forall|w: Seq<u8>| #[trigger] accepts_spec(&d, w) == (over_alphabet(w, nfa.alphabet@) && accepts_spec(nfa, w)) by {
                lemma_subset_dfa_accepts(&d, nfa, w);
            }
        }
        d
    }

    /// The subset graph of an epsilon-NFA, from the epsilon-closure of its start state.
    pub fn subset_graph_enfa(enfa: &EpsilonNfa) -> (res: SubsetConstructionResult)
        requires
            enfa.well_formed(),
        ensures
            is_subset_graph_of(&res, enfa, enfa.eps_closure_spec(enfa.start)),
            in_set_order(&res),
    {
        let initial = enfa.epsilon_closure(enfa.start);
        proof {
            assert forall|t: usize| initial@.contains(t) implies below(enfa.states@.len()).contains(t) by {
                enfa.lemma_reach_in_range(enfa.start, t);
            }
        }
        subset_graph(enfa, &initial)
    }

    /// The complete DFA of an epsilon-NFA by the subset construction, from the
    /// epsilon-closure of its start state.
    pub fn subset_construction_enfa(enfa: &EpsilonNfa) -> (d: Dfa)
        requires
            enfa.well_formed(),
        ensures
            is_subset_dfa_of(&d, enfa, enfa.eps_closure_spec(enfa.start)),
            d.well_formed(),
            forall|w: Seq<u8>| #[trigger] accepts_spec(&d, w) == (over_alphabet(w, enfa.alphabet@) && accepts_spec(enfa, w)),
    {
        let initial = enfa.epsilon_closure(enfa.start);
        proof {
            assert forall|t: usize| initial@.contains(t) implies below(enfa.states@.len()).contains(t) by {
                enfa.lemma_reach_in_range(enfa.start, t);
            }
        }
        let d = Dfa::subset_construction_from(enfa, &initial);
        proof {
            assert(enfa.spec_initial() == enfa.eps_closure_spec(enfa.start));
            assert forall|w: Seq<u8>| #[trigger] accepts_spec(&d, w) == (over_alphabet(w, enfa.alphabet@) && accepts_spec(enfa, w)) by {
                lemma_subset_dfa_accepts(&d, enfa, w);
            }
        }
        d
    }
}

impl Nfa {
    /// The complete DFA of this NFA by the subset construction.
    pub fn to_dfa(&self) -> (d: Dfa)
        requires
            self.well_formed(),
        ensures
            is_dfa_of_nfa(&d, self),
    {
        Dfa::subset_construction(self)
    }
}

impl EpsilonNfa {
    /// The complete DFA of this epsilon-NFA by the subset construction.
    pub fn to_dfa(&self) -> (d: Dfa)
        requires
            self.well_formed(),
        ensures
            is_dfa_of_enfa(&d, self),
    {
        Dfa::subset_construction_enfa(self)
    }
}

/// A byte an NFA reads on the way to some state labels one of its transitions: every byte
/// of a word that reaches a state does.
proof fn lemma_nfa_run_labels(n: &Nfa, from: Set<usize>, w: Seq<u8>, s: usize)
    requires
        run(n, from, w).contains(s),
    ensures
        over_alphabet(w, byte_labels(n.trans())),
    decreases w.len(),
{
    if w.len() > 0 {
        let t = n.trans();
        let b = w.last();
        let s2 = choose|s2: usize| run(n, from, w.drop_last()).contains(s2) && #[trigger] n.spec_next(s2, b).contains(s);
        lemma_nfa_run_labels(n, from, w.drop_last(), s2);
        assert(t[s2 as int].contains((b, s)));
        let q = choose|q: int| 0 <= q < t[s2 as int].len() && t[s2 as int][q] == (b, s);
        assert(t[s2 as int][q].0 == b);
        assert(byte_labels(t).contains(b));
        assert forall|i: int| 0 <= i < w.len() implies byte_labels(t).contains(#[trigger] w[i]) by {
            if i < w.len() - 1 {
                assert(w[i] == w.drop_last()[i]);
            }
        }
    }
}

/// An NFA whose transitions all read bytes of its alphabet accepts the same words as its
/// DFA: the words with other bytes, which the DFA refuses, the NFA refuses too.
pub proof fn lemma_nfa_dfa_same_words(n: &Nfa, d: &Dfa, w: Seq<u8>)
    requires
        byte_labels(n.trans()).subset_of(n.alphabet@),
        is_dfa_of_nfa(d, n),
    ensures
        accepts_spec(d, w) == accepts_spec(n, w),
{
    if accepts_spec(n, w) {
        let s = choose|s: usize| #[trigger] run(n, n.spec_initial(), w).contains(s) && n.spec_accepting().contains(s);
        lemma_nfa_run_labels(n, n.spec_initial(), w, s);
        assert(over_alphabet(w, n.alphabet@));
    }
    assert(accepts_spec(d, w) == (over_alphabet(w, n.alphabet@) && accepts_spec(n, w)));
}

/// An epsilon-NFA whose byte transitions all read bytes of its alphabet accepts the same
/// words as its DFA: the words with other bytes, which the DFA refuses, it refuses too.
pub proof fn lemma_enfa_dfa_same_words(e: &EpsilonNfa, d: &Dfa, w: Seq<u8>)
    requires
        row_labels(transitions_of(e.states@)).subset_of(e.alphabet@),
        is_dfa_of_enfa(d, e),
    ensures
        accepts_spec(d, w) == accepts_spec(e, w),
{
    if accepts_spec(e, w) {
        let rows = transitions_of(e.states@);
        lemma_accepts_walks(e, w);
        let k = choose|k: nat| #[trigger] walk(rows, 0, e.start, w, e.accept, k);
        lemma_walk_labels(rows, e.start, w, e.accept, k);
        assert(over_alphabet(w, e.alphabet@));
    }
    assert(accepts_spec(d, w) == (over_alphabet(w, e.alphabet@) && accepts_spec(e, w)));
}

} // verus!
