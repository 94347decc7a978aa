//! Epsilon removal: from an epsilon-NFA to an NFA that accepts the same words.
use vstd::prelude::*;
use std::collections::HashSet;
use crate::automaton::{State, Automaton, transitions_of, targets_in_range, accepts_spec, run, step, lemma_run_append, lemma_run_in_range};
use crate::epsilon_nfa::{EpsilonNfa, Symbol};
use crate::nfa::{Nfa, byte_next, copy_transitions};
use crate::prune::is_pruning_of;
use crate::sets::{below, set_to_vec, sorted_bytes, copy_bytes};

verus! {

broadcast use vstd::std_specs::hash::group_hash_axioms;

/// The transitions an epsilon-free state gets: `(b, t)` for every `t` reached by reading `b`.
pub open spec fn removal_pairs(a: &EpsilonNfa, s: usize) -> Set<(u8, usize)> {
    Set::new(|e: (u8, usize)| a.next_spec(s, e.0).contains(e.1))
}

/// `m` is the epsilon-free automaton of `a`, before pruning: same states and start, each state
/// reads a byte to every state that `a` reaches from it on that byte, and accepts when the
/// accepting state of `a` is in its epsilon-closure.
pub open spec fn is_epsilon_removal_of(m: &Nfa, a: &EpsilonNfa) -> bool {
    &&& m.states@.len() == a.states@.len()
    &&& forall|s: int| 0 <= s < m.states@.len() ==> (#[trigger] m.trans()[s]).to_set() == removal_pairs(a, s as usize)
        && m.trans()[s].no_duplicates()
    &&& m.start == a.start
    &&& m.accept@.to_set() == Set::new(|s: usize| s < a.states@.len() && a.eps_closure_spec(s).contains(a.accept))
    &&& m.accept@.no_duplicates()
    &&& m.alphabet@ == a.alphabet@
}

/// Two automata with the same moves run alike.
pub proof fn lemma_run_congruent<A: Automaton, B: Automaton>(a: &A, b: &B, s: Set<usize>, w: Seq<u8>)
    requires
        forall|x: usize, c: u8| #[trigger] a.spec_next(x, c) == b.spec_next(x, c),
    ensures
        run(a, s, w) == run(b, s, w),
    decreases w.len(),
{
    if w.len() > 0 {
        lemma_run_congruent(a, b, s, w.drop_last());
        let x = run(a, s, w.drop_last());
        let c = w.last();
        assert forall|t: usize| step(a, x, c).contains(t) <==> step(b, x, c).contains(t) by {
            if step(a, x, c).contains(t) {
                let y = choose|y: usize| x.contains(y) && #[trigger] a.spec_next(y, c).contains(t);
                assert(b.spec_next(y, c).contains(t));
            }
            if step(b, x, c).contains(t) {
                let y = choose|y: usize| x.contains(y) && #[trigger] b.spec_next(y, c).contains(t);
                assert(a.spec_next(y, c) == b.spec_next(y, c));
                assert(a.spec_next(y, c).contains(t));
            }
        }
        assert(step(a, x, c) =~= step(b, x, c));
    }
}

/// What one byte leads to is closed under epsilon edges.
proof fn lemma_step_closed(a: &EpsilonNfa, s: Set<usize>, c: u8, t: usize, u: usize)
    requires
        step(a, s, c).contains(t),
        a.eps_reaches(t, u),
    ensures
        step(a, s, c).contains(u),
{
    let x = choose|x: usize| s.contains(x) && #[trigger] a.spec_next(x, c).contains(t);
    let v = choose|v: usize| a.move_spec(a.eps_closure_spec(x), c).contains(v) && #[trigger] a.eps_reaches(v, t);
    a.lemma_reach_trans(v, t, u);
    assert(a.spec_next(x, c).contains(u));
}

/// Reading one byte from the epsilon-closure of `s` is reading it from `s`.
proof fn lemma_first_step(a: &EpsilonNfa, s: usize, c: u8)
    ensures
        step(a, a.eps_closure_spec(s), c) == a.next_spec(s, c),
{
    let l = step(a, a.eps_closure_spec(s), c);
    assert forall|t: usize| l.contains(t) <==> a.next_spec(s, c).contains(t) by {
        if l.contains(t) {
            let x = choose|x: usize| a.eps_closure_spec(s).contains(x) && #[trigger] a.spec_next(x, c).contains(t);
            let v = choose|v: usize| a.move_spec(a.eps_closure_spec(x), c).contains(v) && #[trigger] a.eps_reaches(v, t);
            let u = choose|u: usize| a.eps_closure_spec(x).contains(u) && #[trigger] a.has_edge(u, Symbol::Byte(c), v);
            a.lemma_reach_trans(s, x, u);
            assert(a.eps_closure_spec(s).contains(u));
            assert(a.move_spec(a.eps_closure_spec(s), c).contains(v));
        }
        if a.next_spec(s, c).contains(t) {
            a.lemma_reach_refl(s);
            assert(a.eps_closure_spec(s).contains(s));
            assert(a.spec_next(s, c).contains(t));
        }
    }
    assert(l =~= a.next_spec(s, c));
}

/// The epsilon-free automaton moves, from every state, as the epsilon-NFA does.
proof fn lemma_removal_moves(a: &EpsilonNfa, m: &Nfa)
    requires
        a.well_formed(),
        is_epsilon_removal_of(m, a),
    ensures
        forall|x: usize, c: u8| #[trigger] m.spec_next(x, c) == a.spec_next(x, c),
{
    assert forall|x: usize, c: u8| #[trigger] m.spec_next(x, c) == a.spec_next(x, c) by {
        assert forall|t: usize| m.spec_next(x, c).contains(t) <==> a.spec_next(x, c).contains(t) by {
            if x < m.states@.len() {
                let tr = m.trans()[x as int];
                assert(tr.to_set() == removal_pairs(a, x));
                if m.spec_next(x, c).contains(t) {
                    assert(tr.contains((c, t)));
                    assert(tr.to_set().contains((c, t)));
                }
                if a.spec_next(x, c).contains(t) {
                    assert(removal_pairs(a, x).contains((c, t)));
                    assert(tr.to_set().contains((c, t)));
                }
            } else {
                if a.spec_next(x, c).contains(t) {
                    let v = choose|v: usize| a.move_spec(a.eps_closure_spec(x), c).contains(v) && #[trigger] a.eps_reaches(v, t);
                    let u = choose|u: usize| a.eps_closure_spec(x).contains(u) && #[trigger] a.has_edge(u, Symbol::Byte(c), v);
                    let p = choose|p: Seq<usize>| #[trigger] a.is_eps_path(p) && p[0] == x && p.last() == u;
                    if p.len() > 1 {
                        let i = 0int;
                        assert(a.has_edge(p[i], Symbol::Epsilon, p[i + 1]));
                    }
                }
            }
        }
        assert(m.spec_next(x, c) =~= a.spec_next(x, c));
    }
}

/// Once a byte has been read, the epsilon-free automaton is in exactly the states the
/// epsilon-NFA is in.
pub proof fn lemma_removal_run(a: &EpsilonNfa, m: &Nfa, w: Seq<u8>)
    requires
        a.well_formed(),
        is_epsilon_removal_of(m, a),
        w.len() > 0,
    ensures
        run(m, set![m.start], w) == run(a, a.spec_initial(), w),
{
    lemma_removal_moves(a, m);
    let c = w[0];
    let rest = w.drop_first();
    let one = seq![c];
    assert(w =~= one + rest);
    assert(m.spec_initial() == set![m.start]);
    lemma_run_append(m, m.spec_initial(), one, rest);
    lemma_run_append(a, a.spec_initial(), one, rest);
    assert(one.drop_last() =~= Seq::<u8>::empty());
    lemma_first_step(a, a.start, c);
    let x = step(m, set![m.start], c);
    assert forall|t: usize| x.contains(t) <==> m.spec_next(m.start, c).contains(t) by {
        if x.contains(t) {
            let y = choose|y: usize| set![m.start].contains(y) && #[trigger] m.spec_next(y, c).contains(t);
        }
    }
    assert(x =~= a.next_spec(a.start, c));
    assert(one.last() == c);
    assert(run(m, m.spec_initial(), one.drop_last()) == m.spec_initial());
    assert(run(a, a.spec_initial(), one.drop_last()) == a.spec_initial());
    assert(run(m, m.spec_initial(), one) == x);
    assert(run(a, a.spec_initial(), one) == step(a, a.eps_closure_spec(a.start), c));
    lemma_run_congruent(m, a, x, rest);
}

/// The epsilon-free automaton of a well-formed epsilon-NFA is well formed.
pub proof fn lemma_removal_well_formed(a: &EpsilonNfa, m: &Nfa)
    requires
        a.well_formed(),
        is_epsilon_removal_of(m, a),
    ensures
        m.well_formed(),
{
    a.lemma_wf();
    let n = a.states@.len();
    assert forall|i: int| 0 <= i < m.accept@.len() implies #[trigger] m.accept@[i] < m.states@.len() by {
        assert(m.accept@.to_set().contains(m.accept@[i]));
    }
    assert forall|i: int, k: int| 0 <= i < m.trans().len() && 0 <= k < m.trans()[i].len() implies
        (#[trigger] m.trans()[i][k]).1 < m.trans().len() by {
        let e = m.trans()[i][k];
        assert(m.trans()[i].to_set().contains(e));
        assert(removal_pairs(a, i as usize).contains(e));
        assert(a.spec_next(i as usize, e.0).subset_of(below(n)));
    }
}

/// Epsilon removal keeps the language.
pub proof fn lemma_removal_preserves_language(a: &EpsilonNfa, m: &Nfa, w: Seq<u8>)
    requires
        a.well_formed(),
        is_epsilon_removal_of(m, a),
    ensures
        accepts_spec(m, w) == accepts_spec(a, w),
{
    lemma_removal_moves(a, m);
    let acc = a.accept;
    if w.len() == 0 {
        a.lemma_reach_refl(a.start);
        if accepts_spec(m, w) {
            let s = choose|s: usize| #[trigger] run(m, m.spec_initial(), w).contains(s) && m.spec_accepting().contains(s);
            assert(s == m.start);
            assert(run(a, a.spec_initial(), w).contains(acc));
        }
        if accepts_spec(a, w) {
            let s = choose|s: usize| #[trigger] run(a, a.spec_initial(), w).contains(s) && a.spec_accepting().contains(s);
            assert(s == acc);
            assert(m.spec_accepting().contains(m.start));
            assert(run(m, m.spec_initial(), w).contains(m.start));
        }
    } else {
        let c = w[0];
        let rest = w.drop_first();
        let one = seq![c];
        assert(w =~= one + rest);
        lemma_run_append(m, m.spec_initial(), one, rest);
        lemma_run_append(a, a.spec_initial(), one, rest);
        assert(one.drop_last() =~= Seq::<u8>::empty());
        lemma_first_step(a, a.start, c);
        let x = step(m, set![m.start], c);
        assert forall|t: usize| x.contains(t) <==> m.spec_next(m.start, c).contains(t) by {
            if x.contains(t) {
                let y = choose|y: usize| set![m.start].contains(y) && #[trigger] m.spec_next(y, c).contains(t);
            }
        }
        assert(x =~= a.next_spec(a.start, c));
        assert(one.last() == c);
        assert(run(m, m.spec_initial(), one.drop_last()) == m.spec_initial());
        assert(run(a, a.spec_initial(), one.drop_last()) == a.spec_initial());
        assert(run(m, m.spec_initial(), one) == x);
        assert(run(a, a.spec_initial(), one) == step(a, a.eps_closure_spec(a.start), c));
        lemma_run_congruent(m, a, x, rest);
        let fin = run(a, x, rest);
        assert(run(m, m.spec_initial(), w) == fin);
        assert(run(a, a.spec_initial(), w) == fin);
        // the final set is closed under epsilon edges
        if rest.len() == 0 {
            assert(fin == step(a, a.eps_closure_spec(a.start), c));
        } else {
            assert(fin == step(a, run(a, x, rest.drop_last()), rest.last()));
        }
        let (s0, c0) = if rest.len() == 0 {
            (a.eps_closure_spec(a.start), c)
        } else {
            (run(a, x, rest.drop_last()), rest.last())
        };
        assert(fin == step(a, s0, c0));
        if accepts_spec(m, w) {
            let s = choose|s: usize| #[trigger] run(m, m.spec_initial(), w).contains(s) && m.spec_accepting().contains(s);
            assert(m.accept@.to_set().contains(s));
            assert(a.eps_reaches(s, acc));
            lemma_step_closed(a, s0, c0, s, acc);
            assert(fin.contains(acc));
            assert(a.spec_accepting().contains(acc));
        }
        if accepts_spec(a, w) {
            let s = choose|s: usize| #[trigger] run(a, a.spec_initial(), w).contains(s) && a.spec_accepting().contains(s);
            assert(s == acc);
            a.lemma_wf();
            lemma_run_in_range(a, a.spec_initial(), w);
            assert(below(a.states@.len()).contains(s));
            a.lemma_reach_refl(acc);
            assert(m.accept@.to_set().contains(acc));
            assert(m.spec_accepting().contains(acc));
        }
    }
}


/// `r` is the NFA of `a`: `a` with its epsilon edges removed, then pruned to the states
/// reachable from the start state; it accepts the same words.
pub open spec fn is_nfa_of(r: &Nfa, a: &EpsilonNfa) -> bool {
    &&& exists|m: Nfa| is_epsilon_removal_of(&m, a) && #[trigger] is_pruning_of(r, &m)
    &&& r.well_formed()
    &&& forall|w: Seq<u8>| accepts_spec(r, w) == accepts_spec(a, w)
}

impl EpsilonNfa {
    /// An equivalent NFA without epsilon edges, restricted to its reachable states.
    pub fn to_nfa(&self) -> (r: Nfa)
        requires
            self.well_formed(),
        ensures
            is_nfa_of(&r, self),
    {
        let epsilon_closures = self.compute_epsilon_closures();
        let n = self.states.len();
        let mut new_transitions_from_states: Vec<Vec<(u8, usize)>> = Vec::new();
        for s in 0..n
            invariant
                n == self.states@.len(),
                self.well_formed(),
                epsilon_closures@.len() == n,
                forall|i: int| 0 <= i < n ==> (#[trigger] epsilon_closures@[i])@ == self.eps_closure_spec(i as usize),
                new_transitions_from_states@.len() == s,
                forall|i: int| 0 <= i < s ==> (#[trigger] new_transitions_from_states@[i])@.to_set() == removal_pairs(self, i as usize)
                    && new_transitions_from_states@[i]@.no_duplicates()
                    && forall|q: int| 0 <= q < new_transitions_from_states@[i]@.len() ==> new_transitions_from_states@[i]@[q].1 < n,
        {
            let t = self.new_transitions(s, &epsilon_closures);
            new_transitions_from_states.push(t);
        }
        let mut accepting_states: Vec<usize> = Vec::new();
        for idx in 0..n
            invariant
                n == self.states@.len(),
                epsilon_closures@.len() == n,
                forall|i: int| 0 <= i < n ==> (#[trigger] epsilon_closures@[i])@ == self.eps_closure_spec(i as usize),
                accepting_states@.to_set() == Set::new(|s: usize| s < idx && self.eps_closure_spec(s).contains(self.accept)),
                accepting_states@.no_duplicates(),
                forall|q: int| 0 <= q < accepting_states@.len() ==> accepting_states@[q] < idx,
        {
            if epsilon_closures[idx].contains(&self.accept) {
                let ghost prev = accepting_states@;
                accepting_states.push(idx);
                proof {
                    prev.lemma_push_to_set_commute(idx);
                    assert(accepting_states@.to_set() =~= Set::new(|s: usize| s < idx + 1 && self.eps_closure_spec(s).contains(self.accept)));
                }
            } else {
                assert(accepting_states@.to_set() =~= Set::new(|s: usize| s < idx + 1 && self.eps_closure_spec(s).contains(self.accept)));
            }
        }
        let nfa = self.build_nfa(new_transitions_from_states, accepting_states);
        proof {
            assert(is_epsilon_removal_of(&nfa, self));
        }
        let r = nfa.pruned();
        proof {
            assert forall|w: Seq<u8>| accepts_spec(&r, w) == accepts_spec(self, w) by {
                lemma_removal_preserves_language(self, &nfa, w);
            }
        }
        r
    }

    /// The epsilon-closure of every state, by index.
    fn compute_epsilon_closures(&self) -> (r: Vec<HashSet<usize>>)
        requires
            self.well_formed(),
        ensures
            r@.len() == self.states@.len(),
            forall|i: int| 0 <= i < r@.len() ==> (#[trigger] r@[i])@ == self.eps_closure_spec(i as usize),
    {
        let mut r: Vec<HashSet<usize>> = Vec::new();
        for s in 0..self.states.len()
            invariant
                self.well_formed(),
                r@.len() == s,
                forall|i: int| 0 <= i < s ==> (#[trigger] r@[i])@ == self.eps_closure_spec(i as usize),
        {
            r.push(self.epsilon_closure(s));
        }
        r
    }

    /// The bytes labelling an edge that leaves one of `states`.
    fn outgoing_symbols_from_states(&self, states: &HashSet<usize>) -> (r: HashSet<u8>)
        requires
            self.well_formed(),
        ensures
            r@ == Set::new(|b: u8| exists|u: usize, v: usize| states@.contains(u) && #[trigger] self.has_edge(u, Symbol::Byte(b), v)),
    {
        let list = set_to_vec(states);
        let mut r: HashSet<u8> = HashSet::new();
        for i in 0..list.len()
            invariant
                self.well_formed(),
                list@.to_set() == states@,
                r@ == Set::new(|b: u8| exists|u: usize, v: usize| list@.take(i as int).contains(u) && #[trigger] self.has_edge(u, Symbol::Byte(b), v)),
        {
            let u = list[i];
            let ghost r0 = r@;
            if u < self.states.len() {
                let transitions = &self.states[u].transitions;
                for k in 0..transitions.len()
                    invariant
                        *transitions == self.states@[u as int].transitions,
                        r@ == r0.union(Set::new(|b: u8| exists|q: int| 0 <= q < k && (#[trigger] transitions@[q]).0 == Symbol::Byte(b))),
                {
                    let (sym, _target) = transitions[k];
                    match sym {
                        Symbol::Byte(b) => {
                            r.insert(b);
                        },
                        Symbol::Epsilon => {},
                    }
                    assert(r@ =~= r0.union(Set::new(|b: u8| exists|q: int| 0 <= q < k + 1 && (#[trigger] transitions@[q]).0 == Symbol::Byte(b))));
                }
            }
            proof {
                let t0 = list@.take(i as int);
                let t1 = list@.take(i + 1);
                assert(t1 =~= t0.push(u));
                assert forall|b: u8| r@.contains(b) <==> (exists|x: usize, v: usize| t1.contains(x) && #[trigger] self.has_edge(x, Symbol::Byte(b), v)) by {
                    if r@.contains(b) {
                        if r0.contains(b) {
                            let (x, v) = choose|x: usize, v: usize| t0.contains(x) && #[trigger] self.has_edge(x, Symbol::Byte(b), v);
                            let q = choose|q: int| 0 <= q < t0.len() && t0[q] == x;
                            assert(t1[q] == x);
                        } else {
                            let transitions = self.states@[u as int].transitions@;
                            let q = choose|q: int| 0 <= q < transitions.len() && (#[trigger] transitions[q]).0 == Symbol::Byte(b);
                            let v = transitions[q].1;
                            assert(self.trans(u)[q] == (Symbol::Byte(b), v));
                            assert(self.has_edge(u, Symbol::Byte(b), v));
                            assert(t1[i as int] == u);
                        }
                    }
                    if exists|x: usize, v: usize| t1.contains(x) && #[trigger] self.has_edge(x, Symbol::Byte(b), v) {
                        let (x, v) = choose|x: usize, v: usize| t1.contains(x) && #[trigger] self.has_edge(x, Symbol::Byte(b), v);
                        if x == u {
                            let q = choose|q: int| 0 <= q < self.trans(u).len() && self.trans(u)[q] == (Symbol::Byte(b), v);
                            assert(self.states@[u as int].transitions@[q].0 == Symbol::Byte(b));
                        } else {
                            let q = choose|q: int| 0 <= q < t1.len() && t1[q] == x;
                            assert(t0[q] == x);
                        }
                    }
                }
                assert(r@ =~= Set::new(|b: u8| exists|x: usize, v: usize| t1.contains(x) && #[trigger] self.has_edge(x, Symbol::Byte(b), v)));
            }
        }
        proof {
            assert(list@.take(list@.len() as int) =~= list@);
            assert forall|b: u8| r@.contains(b) <==> (exists|u: usize, v: usize| states@.contains(u) && #[trigger] self.has_edge(u, Symbol::Byte(b), v)) by {
                if r@.contains(b) {
                    let (x, v) = choose|x: usize, v: usize| list@.contains(x) && #[trigger] self.has_edge(x, Symbol::Byte(b), v);
                    assert(list@.to_set().contains(x));
                }
                if exists|u: usize, v: usize| states@.contains(u) && #[trigger] self.has_edge(u, Symbol::Byte(b), v) {
                    let (x, v) = choose|x: usize, v: usize| states@.contains(x) && #[trigger] self.has_edge(x, Symbol::Byte(b), v);
                    assert(list@.to_set().contains(x));
                }
            }
            assert(r@ =~= Set::new(|b: u8| exists|u: usize, v: usize| states@.contains(u) && #[trigger] self.has_edge(u, Symbol::Byte(b), v)));
        }
        r
    }

    /// The transitions state `state` gets once epsilon edges are removed.
    fn new_transitions(&self, state: usize, epsilon_closures: &Vec<HashSet<usize>>) -> (r: Vec<(u8, usize)>)
        requires
            self.well_formed(),
            state < self.states@.len(),
            epsilon_closures@.len() == self.states@.len(),
            forall|i: int| 0 <= i < epsilon_closures@.len() ==> (#[trigger] epsilon_closures@[i])@ == self.eps_closure_spec(i as usize),
        ensures
            r@.to_set() == removal_pairs(self, state),
            r@.no_duplicates(),
            forall|q: int| 0 <= q < r@.len() ==> r@[q].1 < self.states@.len(),
    {
        let n = self.states.len();
        let symbols = sorted_bytes(&self.outgoing_symbols_from_states(&epsilon_closures[state]));
        let ghost closure = self.eps_closure_spec(state);
        let mut r: Vec<(u8, usize)> = Vec::new();
        for i in 0..symbols.len()
            invariant
                self.well_formed(),
                n == self.states@.len(),
                state < n,
                closure == self.eps_closure_spec(state),
                forall|x: int, y: int| 0 <= x < y < symbols@.len() ==> symbols@[x] < symbols@[y],
                symbols@.to_set() == Set::new(|b: u8| exists|u: usize, v: usize| closure.contains(u) && #[trigger] self.has_edge(u, Symbol::Byte(b), v)),
                r@.to_set() == Set::new(|e: (u8, usize)| symbols@.take(i as int).contains(e.0) && self.next_spec(state, e.0).contains(e.1)),
                r@.no_duplicates(),
                forall|q: int| 0 <= q < r@.len() ==> (#[trigger] r@[q]).1 < n,
                forall|q: int| 0 <= q < r@.len() ==> symbols@.take(i as int).contains(#[trigger] r@[q].0),
        {
            let byte = symbols[i];
            let targets = set_to_vec(&self.next_states_impl(state, byte));
            let ghost r0 = r@;
            proof {
                assert forall|q: int| 0 <= q < r0.len() implies r0[q].0 != byte by {
                    let s0 = symbols@.take(i as int);
                    assert(s0.contains(r0[q].0));
                    let z = choose|z: int| 0 <= z < s0.len() && s0[z] == r0[q].0;
                    assert(symbols@[z] < symbols@[i as int]);
                }
            }
            for k in 0..targets.len()
                invariant
                    self.well_formed(),
                    n == self.states@.len(),
                    state < n,
                    targets@.to_set() == self.next_spec(state, byte),
                    targets@.no_duplicates(),
                    r@ == r0 + targets@.take(k as int).map_values(|t: usize| (byte, t)),
                    r0.no_duplicates(),
                    forall|q: int| 0 <= q < r0.len() ==> r0[q].0 != byte,
                    r@.no_duplicates(),
            {
                let ghost prev = r@;
                r.push((byte, targets[k]));
                proof {
                    assert(targets@.take(k + 1).map_values(|t: usize| (byte, t)) =~= targets@.take(k as int).map_values(|t: usize| (byte, t)).push((byte, targets@[k as int])));
                    assert forall|x: int, y: int| 0 <= x < r@.len() && 0 <= y < r@.len() && x != y implies r@[x] != r@[y] by {
                        if x < prev.len() && y < prev.len() {
                            assert(r@[x] == prev[x] && r@[y] == prev[y]);
                        } else if x < prev.len() {
                            if x < r0.len() {
                                assert(r0[x].0 != byte);
                            } else {
                                assert(targets@[x - r0.len()] != targets@[k as int]);
                            }
                        } else if y < prev.len() {
                            if y < r0.len() {
                                assert(r0[y].0 != byte);
                            } else {
                                assert(targets@[y - r0.len()] != targets@[k as int]);
                            }
                        }
                    }
                }
            }
            proof {
                self.lemma_wf();
                let mapped = targets@.map_values(|t: usize| (byte, t));
                assert(targets@.take(targets@.len() as int) =~= targets@);
                assert(r@ == r0 + mapped);
                let s0 = symbols@.take(i as int);
                let s1 = symbols@.take(i + 1);
                assert(s1 =~= s0.push(byte));
                assert forall|q: int| 0 <= q < r@.len() implies (#[trigger] r@[q]).1 < n && s1.contains(r@[q].0) by {
                    if q < r0.len() {
                        assert(r@[q] == r0[q]);
                        let z = choose|z: int| 0 <= z < s0.len() && s0[z] == r0[q].0;
                        assert(s1[z] == r0[q].0);
                    } else {
                        let j = q - r0.len();
                        assert(r@[q] == (byte, targets@[j]));
                        assert(targets@.to_set().contains(targets@[j]));
                        assert(self.spec_next(state, byte).contains(targets@[j]));
                        assert(s1[i as int] == byte);
                    }
                }
                assert forall|x: int, y: int| 0 <= x < r@.len() && 0 <= y < r@.len() && x != y implies r@[x] != r@[y] by {
                    if x < r0.len() && y < r0.len() {
                        assert(r@[x] == r0[x] && r@[y] == r0[y]);
                    } else if x >= r0.len() && y >= r0.len() {
                        assert(targets@[x - r0.len()] != targets@[y - r0.len()]);
                    } else if x < r0.len() {
                        assert(r0[x].0 != byte);
                    } else {
                        assert(r0[y].0 != byte);
                    }
                }
                assert forall|e: (u8, usize)| r@.to_set().contains(e) <==> (s1.contains(e.0) && self.next_spec(state, e.0).contains(e.1)) by {
                    if r@.to_set().contains(e) {
                        let q = choose|q: int| 0 <= q < r@.len() && r@[q] == e;
                        if q < r0.len() {
                            assert(r0.to_set().contains(e));
                            assert(s0.contains(e.0));
                            let z = choose|z: int| 0 <= z < s0.len() && s0[z] == e.0;
                            assert(s1[z] == e.0);
                        } else {
                            let j = q - r0.len();
                            assert(e == (byte, targets@[j]));
                            assert(targets@.to_set().contains(targets@[j]));
                            assert(s1[i as int] == byte);
                        }
                    }
                    if s1.contains(e.0) && self.next_spec(state, e.0).contains(e.1) {
                        let z = choose|z: int| 0 <= z < s1.len() && s1[z] == e.0;
                        if z < i {
                            assert(s0[z] == e.0);
                            assert(r0.to_set().contains(e));
                            let q = choose|q: int| 0 <= q < r0.len() && r0[q] == e;
                            assert(r@[q] == e);
                        } else {
                            assert(e.0 == byte);
                            assert(targets@.to_set().contains(e.1));
                            let j = choose|j: int| 0 <= j < targets@.len() && targets@[j] == e.1;
                            assert(r@[r0.len() + j] == e);
                        }
                    }
                }
                assert(r@.to_set() =~= Set::new(|e: (u8, usize)| s1.contains(e.0) && self.next_spec(state, e.0).contains(e.1)));
            }
        }
        proof {
            assert(symbols@.take(symbols@.len() as int) =~= symbols@);
            assert forall|e: (u8, usize)| r@.to_set().contains(e) <==> removal_pairs(self, state).contains(e) by {
                if self.next_spec(state, e.0).contains(e.1) {
                    let v = choose|v: usize| self.move_spec(closure, e.0).contains(v) && #[trigger] self.eps_reaches(v, e.1);
                    let u = choose|u: usize| closure.contains(u) && #[trigger] self.has_edge(u, Symbol::Byte(e.0), v);
                    assert(symbols@.to_set().contains(e.0));
                }
            }
            assert(r@.to_set() =~= removal_pairs(self, state));
        }
        r
    }

    /// Assembles the epsilon-free automaton from per-state transitions and accepting states.
    fn build_nfa(&self, transitions_per_state: Vec<Vec<(u8, usize)>>, accepting_states: Vec<usize>) -> (r: Nfa)
        requires
            transitions_per_state@.len() == self.states@.len(),
        ensures
            r.states@.len() == self.states@.len(),
            forall|s: int| 0 <= s < r.states@.len() ==> #[trigger] r.trans()[s] == transitions_per_state@[s]@,
            r.start == self.start,
            r.accept@ == accepting_states@,
            r.alphabet@ == self.alphabet@,
    {
        let mut states: Vec<State<u8>> = Vec::new();
        for i in 0..transitions_per_state.len()
            invariant
                states@.len() == i,
                forall|s: int| 0 <= s < i ==> #[trigger] transitions_of(states@)[s] == transitions_per_state@[s]@,
        {
            let st = State { transitions: copy_transitions(&transitions_per_state[i]) };
            let ghost prev = transitions_of(states@);
            states.push(st);
            proof {
                assert forall|s: int| 0 <= s < i + 1 implies #[trigger] transitions_of(states@)[s] == transitions_per_state@[s]@ by {
                    if s < i {
                        assert(transitions_of(states@)[s] == prev[s]);
                    }
                }
            }
        }
        Nfa { states, start: self.start, accept: accepting_states, alphabet: copy_bytes(&self.alphabet) }
    }
}

} // verus!
