//! The two routes from an epsilon-NFA to a DFA: the subset construction on the
//! epsilon-NFA itself, and the subset construction on its epsilon-free NFA. When no
//! transition enters the start state they give the same DFA, up to the names of its states.
use vstd::prelude::*;
use vstd::relations::injective_on;
use vstd::set_lib::lemma_map_size;
use crate::automaton::{Automaton, run, step, accepts_spec};
use crate::determinize::{tracks, complete_row, is_dfa_of_nfa, is_dfa_of_enfa, lemma_tracks_run};
use crate::dfa::Dfa;
use crate::epsilon_nfa::{EpsilonNfa, Symbol};
use crate::epsilon_removal::{is_nfa_of, is_epsilon_removal_of, lemma_removal_run, lemma_removal_well_formed};
use crate::nfa::Nfa;
use crate::prune::{is_pruning_of, rank, rename_fn, lemma_pruned_run, lemma_rank_increasing, lemma_rank_le};
use crate::sets::{below, lemma_below};
use crate::subset::over_alphabet;

verus! {

/// No transition of `e` leads into its start state.
pub open spec fn no_edge_into_start(e: &EpsilonNfa) -> bool {
    forall|s: usize, q: int| s < e.states@.len() && 0 <= q < e.trans(s).len() ==> (#[trigger] e.trans(s)[q]).1 != e.start
}

/// `f` renames the states of `d1` to those of `d2`, one to one: the start state to the start
/// state, accepting states to accepting states, and each row of transitions to the row of
/// the renamed state, with the same labels in the same order and renamed targets.
pub open spec fn renames(d1: &Dfa, d2: &Dfa, f: spec_fn(usize) -> usize) -> bool {
    let k = d1.states@.len();
    &&& d2.states@.len() == k
    &&& forall|i: usize| i < k ==> #[trigger] f(i) < k
    &&& forall|i: usize, j: usize| i < k && j < k && #[trigger] f(i) == #[trigger] f(j) ==> i == j
    &&& f(d1.start) == d2.start
    &&& forall|i: usize| i < k ==> (d1.accept@.contains(i) <==> d2.accept@.contains(#[trigger] f(i)))
    &&& forall|i: usize| i < k ==> d2.trans()[#[trigger] f(i) as int]
        == d1.trans()[i as int].map_values(|e: (u8, usize)| (e.0, f(e.1)))
}

/// `d1` and `d2` are the same DFA up to the names of their states.
pub open spec fn same_up_to_renaming(d1: &Dfa, d2: &Dfa) -> bool {
    exists|f: spec_fn(usize) -> usize| renames(d1, d2, f)
}

/// A word over the alphabet of `a` that leads from `init` to the set `lab[i]`.
spec fn word_of<A: Automaton>(a: &A, init: Set<usize>, lab: Seq<Set<usize>>, i: int) -> Seq<u8> {
    choose|w: Seq<u8>| over_alphabet(w, a.spec_alphabet()) && run(a, init, w) == lab[i]
}

/// The state whose set is `s`.
spec fn index_of(lab: Seq<Set<usize>>, s: Set<usize>) -> usize {
    choose|j: usize| j < lab.len() && lab[j as int] == s
}

/// Every state of a subset automaton is reached by some word over the alphabet.
proof fn lemma_word_of<A: Automaton>(d: &Dfa, a: &A, init: Set<usize>, lab: Seq<Set<usize>>, i: int)
    requires
        tracks(d, a, init, lab),
        0 <= i < lab.len(),
    ensures
        over_alphabet(word_of(a, init, lab, i), a.spec_alphabet()),
        run(a, init, word_of(a, init, lab, i)) == lab[i],
{
    assert(lab[i] == lab[i]);
}

/// Each word over the alphabet leads to the state standing for the set it leads to.
proof fn lemma_index_of<A: Automaton>(d: &Dfa, a: &A, init: Set<usize>, lab: Seq<Set<usize>>, w: Seq<u8>)
    requires
        tracks(d, a, init, lab),
        over_alphabet(w, a.spec_alphabet()),
    ensures
        index_of(lab, run(a, init, w)) < lab.len(),
        lab[index_of(lab, run(a, init, w)) as int] == run(a, init, w),
{
    lemma_tracks_run(d, a, init, lab, w);
}

/// A subset automaton has no more states than `usize` can number.
proof fn lemma_tracks_size<A: Automaton>(d: &Dfa, a: &A, init: Set<usize>, lab: Seq<Set<usize>>)
    requires
        tracks(d, a, init, lab),
    ensures
        lab.len() <= usize::MAX + 1,
{
    let i = lab.len() - 1;
    lemma_word_of(d, a, init, lab, i);
    let w = word_of(a, init, lab, i);
    lemma_index_of(d, a, init, lab, w);
    let j = index_of(lab, run(a, init, w));
    assert(j as int == i);
}

/// Ranks tell apart the reachable states.
proof fn lemma_rank_injective(reach: Set<usize>, u: usize, v: usize)
    requires
        reach.contains(u),
        reach.contains(v),
        rank(reach, u) == rank(reach, v),
    ensures
        u == v,
{
    if u < v {
        lemma_rank_increasing(reach, u, v);
    } else if v < u {
        lemma_rank_increasing(reach, v, u);
    }
}

/// Renaming tells apart the sets of reachable states.
proof fn lemma_rename_injective(reach: Set<usize>, x: Set<usize>, y: Set<usize>)
    requires
        x.subset_of(reach),
        y.subset_of(reach),
    ensures
        (x.map(rename_fn(reach)) == y.map(rename_fn(reach))) == (x == y),
{
    let f = rename_fn(reach);
    if x.map(f) == y.map(f) {
        assert forall|v: usize| x.contains(v) <==> y.contains(v) by {
            if x.contains(v) {
                assert(x.map(f).contains(f(v)));
                let u = choose|u: usize| y.contains(u) && f(u) == f(v);
                lemma_rank_le(reach, u);
                lemma_rank_le(reach, v);
                lemma_rank_injective(reach, u, v);
            }
            if y.contains(v) {
                assert(y.map(f).contains(f(v)));
                let u = choose|u: usize| x.contains(u) && f(u) == f(v);
                lemma_rank_le(reach, u);
                lemma_rank_le(reach, v);
                lemma_rank_injective(reach, u, v);
            }
        }
        assert(x =~= y);
    }
}

/// Without a transition into the start state, nothing leads back to it along epsilon edges.
proof fn lemma_reach_start(e: &EpsilonNfa, v: usize)
    requires
        no_edge_into_start(e),
        e.eps_reaches(v, e.start),
    ensures
        v == e.start,
{
    let p = choose|p: Seq<usize>| #[trigger] e.is_eps_path(p) && p[0] == v && p.last() == e.start;
    if p.len() > 1 {
        let j = p.len() - 2;
        assert(e.has_edge(p[j], Symbol::Epsilon, p[j + 1]));
        let q = choose|q: int| 0 <= q < e.trans(p[j]).len() && e.trans(p[j])[q] == (Symbol::Epsilon, e.start);
        assert(e.trans(p[j])[q].1 != e.start);
    }
}

/// Without a transition into the start state, no word of one byte or more leads to it.
proof fn lemma_start_left(e: &EpsilonNfa, w: Seq<u8>)
    requires
        no_edge_into_start(e),
        w.len() > 0,
    ensures
        !run(e, e.spec_initial(), w).contains(e.start),
{
    let c = w.last();
    let x = run(e, e.spec_initial(), w.drop_last());
    if run(e, e.spec_initial(), w).contains(e.start) {
        let s = choose|s: usize| x.contains(s) && #[trigger] e.spec_next(s, c).contains(e.start);
        let v = choose|v: usize| e.move_spec(e.eps_closure_spec(s), c).contains(v) && #[trigger] e.eps_reaches(v, e.start);
        let u = choose|u: usize| e.eps_closure_spec(s).contains(u) && #[trigger] e.has_edge(u, Symbol::Byte(c), v);
        lemma_reach_start(e, v);
        let q = choose|q: int| 0 <= q < e.trans(u).len() && e.trans(u)[q] == (Symbol::Byte(c), v);
        assert(e.trans(u)[q].1 != e.start);
    }
}

/// Two words lead the NFA of `e` to the same states exactly when they lead `e` to the same
/// states.
proof fn lemma_runs_agree(e: &EpsilonNfa, n: &Nfa, u: Seq<u8>, v: Seq<u8>)
    requires
        e.well_formed(),
        no_edge_into_start(e),
        is_nfa_of(n, e),
    ensures
        (run(n, set![n.start], u) == run(n, set![n.start], v))
            == (run(e, e.spec_initial(), u) == run(e, e.spec_initial(), v)),
{
    let m = choose|m: Nfa| is_epsilon_removal_of(&m, e) && #[trigger] is_pruning_of(n, &m);
    lemma_removal_well_formed(e, &m);
    lemma_pruned_run(&m, n, u);
    lemma_pruned_run(&m, n, v);
    let reach = m.reachable_spec();
    let mu = run(&m, set![m.start], u);
    let mv = run(&m, set![m.start], v);
    lemma_rename_injective(reach, mu, mv);
    let eu = run(e, e.spec_initial(), u);
    let ev = run(e, e.spec_initial(), v);
    e.lemma_reach_refl(e.start);
    if u.len() > 0 {
        lemma_removal_run(e, &m, u);
        lemma_start_left(e, u);
    } else {
        assert(mu == set![m.start]);
        assert(eu == e.spec_initial());
        assert(eu.contains(e.start));
    }
    if v.len() > 0 {
        lemma_removal_run(e, &m, v);
        lemma_start_left(e, v);
    } else {
        assert(mv == set![m.start]);
        assert(ev == e.spec_initial());
        assert(ev.contains(e.start));
    }
    if u.len() == 0 && v.len() > 0 {
        assert(mu.contains(m.start) && !mv.contains(m.start));
        assert(eu.contains(e.start) && !ev.contains(e.start));
    }
    if v.len() == 0 && u.len() > 0 {
        assert(mv.contains(m.start) && !mu.contains(m.start));
        assert(ev.contains(e.start) && !eu.contains(e.start));
    }
}

/// Two strictly increasing sequences with the same members are equal.
proof fn lemma_increasing_unique(s1: Seq<u8>, s2: Seq<u8>)
    requires
        forall|x: int, y: int| 0 <= x < y < s1.len() ==> s1[x] < s1[y],
        forall|x: int, y: int| 0 <= x < y < s2.len() ==> s2[x] < s2[y],
        forall|b: u8| s1.contains(b) <==> s2.contains(b),
    ensures
        s1 == s2,
    decreases s1.len(),
{
    if s1.len() == 0 {
        if s2.len() > 0 {
            assert(s2.contains(s2[0]));
        }
        assert(s1 =~= s2);
    } else if s2.len() == 0 {
        assert(s1.contains(s1[0]));
    } else {
        assert(s1.contains(s1[0]));
        assert(s2.contains(s2[0]));
        let i1 = choose|i: int| 0 <= i < s1.len() && s1[i] == s2[0];
        let i2 = choose|i: int| 0 <= i < s2.len() && s2[i] == s1[0];
        assert(s1[0] == s2[0]) by {
            if i1 > 0 {
                assert(s1[0] < s1[i1]);
            }
            if i2 > 0 {
                assert(s2[0] < s2[i2]);
            }
        }
        let t1 = s1.drop_first();
        let t2 = s2.drop_first();
        assert forall|b: u8| t1.contains(b) <==> t2.contains(b) by {
            if t1.contains(b) {
                let i = choose|i: int| 0 <= i < t1.len() && t1[i] == b;
                assert(s1[i + 1] == b);
                assert(s1.contains(b));
                let j = choose|j: int| 0 <= j < s2.len() && s2[j] == b;
                assert(s1[0] < s1[i + 1]);
                assert(j != 0);
                assert(t2[j - 1] == b);
            }
            if t2.contains(b) {
                let i = choose|i: int| 0 <= i < t2.len() && t2[i] == b;
                assert(s2[i + 1] == b);
                assert(s2.contains(b));
                let j = choose|j: int| 0 <= j < s1.len() && s1[j] == b;
                assert(s2[0] < s2[i + 1]);
                assert(j != 0);
                assert(t1[j - 1] == b);
            }
        }
        lemma_increasing_unique(t1, t2);
        assert(s1 =~= s2) by {
            assert forall|x: int| 0 <= x < s1.len() implies s1[x] == s2[x] by {
                if x > 0 {
                    assert(s1[x] == t1[x - 1]);
                    assert(s2[x] == t2[x - 1]);
                }
            }
        }
    }
}

/// Complete rows over one alphabet carry the same labels in the same places.
proof fn lemma_rows_align(r1: Seq<(u8, usize)>, r2: Seq<(u8, usize)>, alph: Set<u8>)
    requires
        complete_row(r1, alph),
        complete_row(r2, alph),
    ensures
        r1.len() == r2.len(),
        forall|c: int| 0 <= c < r1.len() ==> (#[trigger] r1[c]).0 == r2[c].0,
{
    let s1 = r1.map_values(|e: (u8, usize)| e.0);
    let s2 = r2.map_values(|e: (u8, usize)| e.0);
    assert forall|x: int, y: int| 0 <= x < y < s1.len() implies s1[x] < s1[y] by {
        assert(r1[x].0 < r1[y].0);
    }
    assert forall|x: int, y: int| 0 <= x < y < s2.len() implies s2[x] < s2[y] by {
        assert(r2[x].0 < r2[y].0);
    }
    assert forall|b: u8| s1.contains(b) <==> s2.contains(b) by {
        if s1.contains(b) {
            let c = choose|c: int| 0 <= c < s1.len() && s1[c] == b;
            assert(r1[c].0 == b);
            assert(alph.contains(b));
            let d = choose|d: int| 0 <= d < r2.len() && (#[trigger] r2[d]).0 == b;
            assert(s2[d] == b);
        }
        if s2.contains(b) {
            let c = choose|c: int| 0 <= c < s2.len() && s2[c] == b;
            assert(r2[c].0 == b);
            assert(alph.contains(b));
            let d = choose|d: int| 0 <= d < r1.len() && (#[trigger] r1[d]).0 == b;
            assert(s1[d] == b);
        }
    }
    lemma_increasing_unique(s1, s2);
    assert(s1.len() == r1.len() && s2.len() == r2.len());
    assert forall|c: int| 0 <= c < r1.len() implies (#[trigger] r1[c]).0 == r2[c].0 by {
        assert(s1[c] == r1[c].0);
        assert(s2[c] == r2[c].0);
    }
}

/// Reading one more byte is one more step.
proof fn lemma_run_push<A: Automaton>(a: &A, init: Set<usize>, w: Seq<u8>, b: u8)
    ensures
        run(a, init, w.push(b)) == step(a, run(a, init, w), b),
{
    assert(w.push(b).drop_last() =~= w);
}

/// What the two routes are built from: `n` is the NFA of `e`, `lab1` and `lab2` name the
/// sets of states that the states of `d1` (from `n`) and `d2` (from `e`) stand for.
spec fn routes_setting(e: &EpsilonNfa, n: &Nfa, d1: &Dfa, d2: &Dfa, lab1: Seq<Set<usize>>, lab2: Seq<Set<usize>>) -> bool {
    &&& e.well_formed()
    &&& no_edge_into_start(e)
    &&& is_nfa_of(n, e)
    &&& tracks(d1, n, set![n.start], lab1)
    &&& tracks(d2, e, e.eps_closure_spec(e.start), lab2)
    &&& n.alphabet@ == e.alphabet@
}

/// The renaming: a state of `d1` goes to the state of `d2` that a word leading to it leads to.
spec fn route_map(e: &EpsilonNfa, n: &Nfa, lab1: Seq<Set<usize>>, lab2: Seq<Set<usize>>) -> spec_fn(usize) -> usize {
    |i: usize| index_of(lab2, run(e, e.eps_closure_spec(e.start), word_of(n, set![n.start], lab1, i as int)))
}

/// Where the renaming sends a state, and why.
proof fn lemma_route_in_range(e: &EpsilonNfa, n: &Nfa, d1: &Dfa, d2: &Dfa, lab1: Seq<Set<usize>>, lab2: Seq<Set<usize>>, i: usize)
    requires
        routes_setting(e, n, d1, d2, lab1, lab2),
        i < lab1.len(),
    ensures
        route_map(e, n, lab1, lab2)(i) < lab2.len(),
        lab2[route_map(e, n, lab1, lab2)(i) as int] == run(e, e.eps_closure_spec(e.start), word_of(n, set![n.start], lab1, i as int)),
        run(n, set![n.start], word_of(n, set![n.start], lab1, i as int)) == lab1[i as int],
        over_alphabet(word_of(n, set![n.start], lab1, i as int), e.alphabet@),
{
    let init1 = set![n.start];
    let init2 = e.eps_closure_spec(e.start);
    lemma_word_of(d1, n, init1, lab1, i as int);
    assert(n.spec_alphabet() == e.spec_alphabet());
    lemma_index_of(d2, e, init2, lab2, word_of(n, init1, lab1, i as int));
}

/// The renaming sends different states to different states.
proof fn lemma_route_one_to_one(e: &EpsilonNfa, n: &Nfa, d1: &Dfa, d2: &Dfa, lab1: Seq<Set<usize>>, lab2: Seq<Set<usize>>, i: usize, j: usize)
    requires
        routes_setting(e, n, d1, d2, lab1, lab2),
        i < lab1.len(),
        j < lab1.len(),
        route_map(e, n, lab1, lab2)(i) == route_map(e, n, lab1, lab2)(j),
    ensures
        i == j,
{
    lemma_route_in_range(e, n, d1, d2, lab1, lab2, i);
    lemma_route_in_range(e, n, d1, d2, lab1, lab2, j);
    let init1 = set![n.start];
    assert(e.spec_initial() == e.eps_closure_spec(e.start));
    lemma_runs_agree(e, n, word_of(n, init1, lab1, i as int), word_of(n, init1, lab1, j as int));
}

/// Every state of `d2` is where the renaming sends some state of `d1`.
proof fn lemma_route_onto(e: &EpsilonNfa, n: &Nfa, d1: &Dfa, d2: &Dfa, lab1: Seq<Set<usize>>, lab2: Seq<Set<usize>>, j: usize) -> (i: usize)
    requires
        routes_setting(e, n, d1, d2, lab1, lab2),
        j < lab2.len(),
    ensures
        i < lab1.len(),
        route_map(e, n, lab1, lab2)(i) == j,
{
    let init1 = set![n.start];
    let init2 = e.eps_closure_spec(e.start);
    let f = route_map(e, n, lab1, lab2);
    lemma_word_of(d2, e, init2, lab2, j as int);
    let w = word_of(e, init2, lab2, j as int);
    assert(n.spec_alphabet() == e.spec_alphabet());
    lemma_index_of(d1, n, init1, lab1, w);
    let i = index_of(lab1, run(n, init1, w));
    lemma_route_in_range(e, n, d1, d2, lab1, lab2, i);
    assert(e.spec_initial() == init2);
    lemma_runs_agree(e, n, word_of(n, init1, lab1, i as int), w);
    lemma_index_of(d2, e, init2, lab2, w);
    assert(lab2[f(i) as int] == lab2[j as int]);
    i
}

/// The two DFAs have as many states.
proof fn lemma_route_sizes(e: &EpsilonNfa, n: &Nfa, d1: &Dfa, d2: &Dfa, lab1: Seq<Set<usize>>, lab2: Seq<Set<usize>>)
    requires
        routes_setting(e, n, d1, d2, lab1, lab2),
    ensures
        lab1.len() == lab2.len(),
{
    let f = route_map(e, n, lab1, lab2);
    let k1 = lab1.len();
    let k2 = lab2.len();
    lemma_tracks_size(d1, n, set![n.start], lab1);
    lemma_tracks_size(d2, e, e.eps_closure_spec(e.start), lab2);
    lemma_below(k1);
    lemma_below(k2);
    assert forall|i: usize, j: usize| below(k1).contains(i) && below(k1).contains(j) && #[trigger] f(i) == #[trigger] f(j) implies i == j by {
        lemma_route_one_to_one(e, n, d1, d2, lab1, lab2, i, j);
    }
    assert(injective_on(f, below(k1)));
    assert forall|j: usize| below(k1).map(f).contains(j) <==> below(k2).contains(j) by {
        if below(k2).contains(j) {
            let i = lemma_route_onto(e, n, d1, d2, lab1, lab2, j);
            assert(below(k1).contains(i));
        }
        if below(k1).map(f).contains(j) {
            let i = choose|i: usize| below(k1).contains(i) && f(i) == j;
            lemma_route_in_range(e, n, d1, d2, lab1, lab2, i);
        }
    }
    assert(below(k1).map(f) =~= below(k2));
    lemma_map_size(below(k1), below(k2), f);
}

/// The renaming sends the start state to the start state.
proof fn lemma_route_start(e: &EpsilonNfa, n: &Nfa, d1: &Dfa, d2: &Dfa, lab1: Seq<Set<usize>>, lab2: Seq<Set<usize>>)
    requires
        routes_setting(e, n, d1, d2, lab1, lab2),
    ensures
        route_map(e, n, lab1, lab2)(d1.start) == d2.start,
{
    let init1 = set![n.start];
    let init2 = e.eps_closure_spec(e.start);
    lemma_route_in_range(e, n, d1, d2, lab1, lab2, d1.start);
    let w = word_of(n, init1, lab1, d1.start as int);
    assert(run(n, init1, Seq::<u8>::empty()) == init1);
    assert(run(e, init2, Seq::<u8>::empty()) == init2);
    assert(e.spec_initial() == init2);
    lemma_runs_agree(e, n, w, Seq::empty());
}

/// The renaming keeps accepting states accepting, and the others not.
proof fn lemma_route_accept(e: &EpsilonNfa, n: &Nfa, d1: &Dfa, d2: &Dfa, lab1: Seq<Set<usize>>, lab2: Seq<Set<usize>>, i: usize)
    requires
        routes_setting(e, n, d1, d2, lab1, lab2),
        i < lab1.len(),
    ensures
        d1.accept@.contains(i) <==> d2.accept@.contains(route_map(e, n, lab1, lab2)(i)),
{
    let init1 = set![n.start];
    let f = route_map(e, n, lab1, lab2);
    lemma_route_in_range(e, n, d1, d2, lab1, lab2, i);
    let w = word_of(n, init1, lab1, i as int);
    assert(n.spec_initial() == init1);
    assert(e.spec_initial() == e.eps_closure_spec(e.start));
    assert(accepts_spec(n, w) == accepts_spec(e, w));
    if d1.accept@.contains(i) {
        let s = choose|s: usize| lab1[i as int].contains(s) && n.spec_accepting().contains(s);
        assert(run(n, n.spec_initial(), w).contains(s));
        let s2 = choose|s2: usize| #[trigger] run(e, e.spec_initial(), w).contains(s2) && e.spec_accepting().contains(s2);
        assert(lab2[f(i) as int].contains(s2));
    }
    if d2.accept@.contains(f(i)) {
        let s = choose|s: usize| lab2[f(i) as int].contains(s) && e.spec_accepting().contains(s);
        assert(run(e, e.spec_initial(), w).contains(s));
        let s1 = choose|s1: usize| #[trigger] run(n, n.spec_initial(), w).contains(s1) && n.spec_accepting().contains(s1);
        assert(lab1[i as int].contains(s1));
    }
}

/// The renaming turns each row of `d1` into the row of the renamed state of `d2`.
proof fn lemma_route_row(e: &EpsilonNfa, n: &Nfa, d1: &Dfa, d2: &Dfa, lab1: Seq<Set<usize>>, lab2: Seq<Set<usize>>, i: usize)
    requires
        routes_setting(e, n, d1, d2, lab1, lab2),
        i < lab1.len(),
    ensures
        d2.trans()[route_map(e, n, lab1, lab2)(i) as int]
            == d1.trans()[i as int].map_values(|x: (u8, usize)| (x.0, route_map(e, n, lab1, lab2)(x.1))),
{
    let init1 = set![n.start];
    let init2 = e.eps_closure_spec(e.start);
    let f = route_map(e, n, lab1, lab2);
    let alph = e.alphabet@;
    lemma_route_in_range(e, n, d1, d2, lab1, lab2, i);
    let r1 = d1.trans()[i as int];
    let r2 = d2.trans()[f(i) as int];
    assert(n.spec_alphabet() == alph);
    assert(complete_row(r1, alph));
    assert(complete_row(r2, alph));
    lemma_rows_align(r1, r2, alph);
    let wi = word_of(n, init1, lab1, i as int);
    assert(e.spec_initial() == init2);
    assert forall|c: int| 0 <= c < r1.len() implies r2[c] == (r1[c].0, f(r1[c].1)) by {
        let b = r1[c].0;
        let t = r1[c].1;
        let t2 = r2[c].1;
        assert(t < lab1.len() && lab1[t as int] == step(n, lab1[i as int], b));
        assert(t2 < lab2.len() && lab2[t2 as int] == step(e, lab2[f(i) as int], b));
        lemma_route_in_range(e, n, d1, d2, lab1, lab2, t);
        let wt = word_of(n, init1, lab1, t as int);
        lemma_run_push(n, init1, wi, b);
        lemma_run_push(e, init2, wi, b);
        lemma_runs_agree(e, n, wt, wi.push(b));
        assert(lab2[f(t) as int] == lab2[t2 as int]);
    }
    assert(r2 =~= r1.map_values(|x: (u8, usize)| (x.0, f(x.1))));
}

/// When no transition enters the start state of an epsilon-NFA, its DFA built directly and
/// the DFA of its NFA are the same automaton up to the names of their states.
pub proof fn lemma_construction_routes_agree(e: &EpsilonNfa, n: &Nfa, d1: &Dfa, d2: &Dfa)
    requires
        e.well_formed(),
        no_edge_into_start(e),
        is_nfa_of(n, e),
        is_dfa_of_nfa(d1, n),
        is_dfa_of_enfa(d2, e),
    ensures
        same_up_to_renaming(d1, d2),
{
    let lab1 = choose|lab: Seq<Set<usize>>| #[trigger] tracks(d1, n, set![n.start], lab);
    let lab2 = choose|lab: Seq<Set<usize>>| #[trigger] tracks(d2, e, e.eps_closure_spec(e.start), lab);
    let m = choose|m: Nfa| is_epsilon_removal_of(&m, e) && #[trigger] is_pruning_of(n, &m);
    assert(n.alphabet@ == e.alphabet@);
    assert(routes_setting(e, n, d1, d2, lab1, lab2));
    let f = route_map(e, n, lab1, lab2);
    let k = lab1.len();
    lemma_route_sizes(e, n, d1, d2, lab1, lab2);
    assert forall|i: usize| i < k implies #[trigger] f(i) < k by {
        lemma_route_in_range(e, n, d1, d2, lab1, lab2, i);
    }
    assert forall|i: usize, j: usize| i < k && j < k && #[trigger] f(i) == #[trigger] f(j) implies i == j by {
        lemma_route_one_to_one(e, n, d1, d2, lab1, lab2, i, j);
    }
    lemma_route_start(e, n, d1, d2, lab1, lab2);
    assert forall|i: usize| i < k implies (d1.accept@.contains(i) <==> d2.accept@.contains(#[trigger] f(i))) by {
        lemma_route_accept(e, n, d1, d2, lab1, lab2, i);
    }
    assert forall|i: usize| i < k implies d2.trans()[#[trigger] f(i) as int]
        == d1.trans()[i as int].map_values(|x: (u8, usize)| (x.0, f(x.1))) by {
        lemma_route_row(e, n, d1, d2, lab1, lab2, i);
    }
    assert(renames(d1, d2, f));
}

} // verus!
