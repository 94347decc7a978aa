//! Subset construction: the DFA whose states are the sets of states an automaton can occupy.
use vstd::prelude::*;
use std::collections::HashSet;
use crate::automaton::{State, Automaton, transitions_of, targets_in_range, accepts_spec, run, step, step_states, lemma_run_empty, lemma_run_append};
use crate::dfa::{Dfa, first_target, first_next, lemma_first_target_unique, lemma_first_target_in};
use crate::prune::{kept, rank, lemma_kept, lemma_kept_at};
use crate::lex::{lex_less, lex_less_vec, lemma_lex_transitive, lemma_lex_total, lemma_lex_irreflexive};
use crate::sets::{below, two_pow, lemma_distinct_subsets_bound, sorted_bytes};

verus! {

broadcast use vstd::std_specs::hash::group_hash_axioms;

/// Every byte of `w` is in `alphabet`.
pub open spec fn over_alphabet(w: Seq<u8>, alphabet: Set<u8>) -> bool {
    forall|i: int| 0 <= i < w.len() ==> alphabet.contains(#[trigger] w[i])
}

/// The sets of states reachable by the subset construction, and the moves between them.
pub struct SubsetConstructionResult {
    /// Each explored set, as its members in increasing order, in discovery order.
    pub subsets: Vec<Vec<usize>>,
    /// `transitions[i][c]`: index of the set reached from `subsets[i]` by `alphabet[c]`.
    pub transitions: Vec<Vec<usize>>,
    /// Index of the initial set.
    pub initial_state: usize,
    /// `accepting_states[i]`: `subsets[i]` holds an accepting state.
    pub accepting_states: Vec<bool>,
    /// The alphabet, in increasing order.
    pub alphabet: Vec<u8>,
}

/// The set of states that the `i`-th explored subset stands for.
pub open spec fn label_of(res: &SubsetConstructionResult, i: int) -> Set<usize> {
    res.subsets@[i]@.to_set()
}

/// `res` explores exactly the subsets of `a` reachable from `init` over its alphabet.
pub open spec fn is_subset_graph_of<A: Automaton>(res: &SubsetConstructionResult, a: &A, init: Set<usize>) -> bool {
    let n = a.spec_transitions().len();
    let k = res.subsets@.len();
    &&& k >= 1
    &&& res.initial_state < k
    &&& label_of(res, res.initial_state as int) == init
    &&& forall|i: int| 0 <= i < k ==> (#[trigger] res.subsets@[i])@ == kept(label_of(res, i), n)
    &&& forall|i: int| 0 <= i < k ==> (#[trigger] label_of(res, i)).subset_of(below(n))
    &&& forall|i: int, j: int| 0 <= i < k && 0 <= j < k && i != j ==> label_of(res, i) != label_of(res, j)
    &&& forall|x: int, y: int| 0 <= x < y < res.alphabet@.len() ==> res.alphabet@[x] < res.alphabet@[y]
    &&& res.alphabet@.to_set() == a.spec_alphabet()
    &&& res.transitions@.len() == k
    &&& forall|i: int| 0 <= i < k ==> (#[trigger] res.transitions@[i])@.len() == res.alphabet@.len()
    &&& forall|i: int, c: int| 0 <= i < k && 0 <= c < res.alphabet@.len() ==>
        (#[trigger] res.transitions@[i]@[c]) < k
        && label_of(res, res.transitions@[i]@[c] as int) == step(a, label_of(res, i), res.alphabet@[c])
    &&& res.accepting_states@.len() == k
    &&& forall|i: int| 0 <= i < k ==> (#[trigger] res.accepting_states@[i]) == (exists|s: usize|
        label_of(res, i).contains(s) && a.spec_accepting().contains(s))
    &&& forall|i: int| #![trigger label_of(res, i)] 0 <= i < k ==> exists|w: Seq<u8>|
        #![trigger run(a, init, w)] over_alphabet(w, a.spec_alphabet()) && run(a, init, w) == label_of(res, i)
}

/// A set below `n` is recovered from its increasing list of members.
pub proof fn lemma_kept_set(r: Set<usize>, n: nat)
    requires
        n <= usize::MAX + 1,
        r.subset_of(below(n)),
    ensures
        kept(r, n).to_set() == r,
{
    lemma_kept(r, n);
    assert forall|x: usize| kept(r, n).to_set().contains(x) <==> r.contains(x) by {
        if r.contains(x) {
            lemma_kept_at(r, n, x);
            assert(kept(r, n)[rank(r, x) as int] == x);
        }
    }
    assert(kept(r, n).to_set() =~= r);
}

/// The members of `s` in increasing order.
pub fn canonical_states(s: &HashSet<usize>, n: usize) -> (v: Vec<usize>)
    ensures
        v@ == kept(s@, n as nat),
{
    let mut v: Vec<usize> = Vec::new();
    for i in 0..n
        invariant
            v@ == kept(s@, i as nat),
    {
        proof {
            assert(((i + 1) as nat - 1) as usize == i);
        }
        if s.contains(&i) {
            v.push(i);
        }
    }
    v
}

/// Two lists hold the same members in the same order.
pub fn same_states(u: &Vec<usize>, v: &Vec<usize>) -> (r: bool)
    ensures
        r == (u@ == v@),
{
    if u.len() != v.len() {
        return false;
    }
    for i in 0..u.len()
        invariant
            u@.len() == v@.len(),
            forall|j: int| 0 <= j < i ==> u@[j] == v@[j],
    {
        if u[i] != v[i] {
            return false;
        }
    }
    assert(u@ =~= v@);
    true
}

/// Index of `target` in `list`, if present.
pub fn find_subset(list: &Vec<Vec<usize>>, target: &Vec<usize>) -> (r: Option<usize>)
    ensures
        match r {
            Some(j) => j < list@.len() && list@[j as int]@ == target@,
            None => forall|j: int| 0 <= j < list@.len() ==> (#[trigger] list@[j])@ != target@,
        },
{
    for j in 0..list.len()
        invariant
            forall|q: int| 0 <= q < j ==> (#[trigger] list@[q])@ != target@,
    {
        if same_states(&list[j], target) {
            return Some(j);
        }
    }
    None
}

/// Explores the subsets of `a` reachable from `initial` over the alphabet of `a`.
/// The explored subsets come in increasing order, compared through their members in
/// increasing order.
pub open spec fn in_set_order(res: &SubsetConstructionResult) -> bool {
    forall|i: int, j: int| 0 <= i < j < res.subsets@.len() ==> lex_less(res.subsets@[i]@, res.subsets@[j]@)
}

/// Explores the subsets of `a` reachable from `initial`, breadth first, numbering them in
/// the order they are found.
fn explore_subsets<A: Automaton>(a: &A, initial: &HashSet<usize>) -> (res: SubsetConstructionResult)
    requires
        a.wf(),
        initial@.subset_of(below(a.spec_transitions().len())),
    ensures
        is_subset_graph_of(&res, a, initial@),
{
    proof { a.lemma_wf(); }
    let n = a.state_count();
    let alphabet = sorted_bytes(a.alphabet());
    let mut subsets: Vec<Vec<usize>> = Vec::new();
    let first = canonical_states(initial, n);
    proof { lemma_kept_set(initial@, n as nat); }
    subsets.push(first);
    let ghost mut words: Seq<Seq<u8>> = seq![Seq::<u8>::empty()];
    let mut transitions: Vec<Vec<usize>> = Vec::new();
    let mut i: usize = 0;
    proof {
        assert(subsets@[0]@ == first@);
        lemma_distinct_subsets_bound(seq![initial@], n as nat);
        assert(over_alphabet(Seq::<u8>::empty(), a.spec_alphabet()));
        assert(run(a, initial@, Seq::<u8>::empty()) == initial@);
    }
    while i < subsets.len()
        invariant
            a.wf(),
            n == a.spec_transitions().len(),
            forall|s: usize, b: u8| #![trigger a.spec_next(s, b)]
                s < n ==> a.spec_next(s, b).subset_of(below(n as nat)),
            forall|x: int, y: int| 0 <= x < y < alphabet@.len() ==> alphabet@[x] < alphabet@[y],
            alphabet@.to_set() == a.spec_alphabet(),
            subsets@.len() >= 1,
            subsets@[0]@.to_set() == initial@,
            forall|k: int| 0 <= k < subsets@.len() ==> (#[trigger] subsets@[k])@ == kept(subsets@[k]@.to_set(), n as nat),
            forall|k: int| 0 <= k < subsets@.len() ==> (#[trigger] subsets@[k])@.to_set().subset_of(below(n as nat)),
            forall|p: int, q: int| 0 <= p < subsets@.len() && 0 <= q < subsets@.len() && p != q ==> subsets@[p]@ != subsets@[q]@,
            subsets@.len() <= two_pow(n as nat),
            0 <= i <= subsets@.len(),
            transitions@.len() == i,
            forall|p: int| 0 <= p < i ==> (#[trigger] transitions@[p])@.len() == alphabet@.len(),
            forall|p: int, c: int| 0 <= p < i && 0 <= c < alphabet@.len() ==>
                (#[trigger] transitions@[p]@[c]) < subsets@.len()
                && subsets@[transitions@[p]@[c] as int]@.to_set() == step(a, subsets@[p]@.to_set(), alphabet@[c]),
            words.len() == subsets@.len(),
            forall|k: int| 0 <= k < subsets@.len() ==> over_alphabet(#[trigger] words[k], a.spec_alphabet())
                && run(a, initial@, words[k]) == subsets@[k]@.to_set(),
        decreases two_pow(n as nat) - i,
    {
        let mut row: Vec<usize> = Vec::new();
        for c in 0..alphabet.len()
            invariant
                a.wf(),
                n == a.spec_transitions().len(),
                forall|s: usize, b: u8| #![trigger a.spec_next(s, b)]
                    s < n ==> a.spec_next(s, b).subset_of(below(n as nat)),
                forall|x: int, y: int| 0 <= x < y < alphabet@.len() ==> alphabet@[x] < alphabet@[y],
                alphabet@.to_set() == a.spec_alphabet(),
                i < subsets@.len(),
                subsets@[0]@.to_set() == initial@,
                forall|k: int| 0 <= k < subsets@.len() ==> (#[trigger] subsets@[k])@ == kept(subsets@[k]@.to_set(), n as nat),
                forall|k: int| 0 <= k < subsets@.len() ==> (#[trigger] subsets@[k])@.to_set().subset_of(below(n as nat)),
                forall|p: int, q: int| 0 <= p < subsets@.len() && 0 <= q < subsets@.len() && p != q ==> subsets@[p]@ != subsets@[q]@,
                subsets@.len() <= two_pow(n as nat),
                transitions@.len() == i,
                forall|p: int| 0 <= p < i ==> (#[trigger] transitions@[p])@.len() == alphabet@.len(),
                forall|p: int, c: int| 0 <= p < i && 0 <= c < alphabet@.len() ==>
                    (#[trigger] transitions@[p]@[c]) < subsets@.len()
                    && subsets@[transitions@[p]@[c] as int]@.to_set() == step(a, subsets@[p]@.to_set(), alphabet@[c]),
                row@.len() == c,
                forall|d: int| 0 <= d < c ==> (#[trigger] row@[d]) < subsets@.len()
                    && subsets@[row@[d] as int]@.to_set() == step(a, subsets@[i as int]@.to_set(), alphabet@[d]),
                words.len() == subsets@.len(),
                forall|k: int| 0 <= k < subsets@.len() ==> over_alphabet(#[trigger] words[k], a.spec_alphabet())
                    && run(a, initial@, words[k]) == subsets@[k]@.to_set(),
        {
            let byte = alphabet[c];
            let next_set = step_states(a, &subsets[i], byte);
            let next = canonical_states(&next_set, n);
            let ghost target = step(a, subsets@[i as int]@.to_set(), byte);
            proof {
                lemma_kept_set(next_set@, n as nat);
            }
            match find_subset(&subsets, &next) {
                Some(j) => {
                    row.push(j);
                },
                None => {
                    let ghost old_subsets = subsets@;
                    subsets.push(next);
                    proof {
                        let w = words[i as int].push(byte);
                        assert(w.drop_last() =~= words[i as int]);
                        assert(alphabet@.to_set().contains(byte)) by {
                            assert(alphabet@[c as int] == byte);
                        }
                        assert(over_alphabet(w, a.spec_alphabet())) by {
                            assert forall|q: int| 0 <= q < w.len() implies a.spec_alphabet().contains(#[trigger] w[q]) by {
                                if q < words[i as int].len() {
                                    assert(w[q] == words[i as int][q]);
                                }
                            }
                        }
                        words = words.push(w);
                        assert(subsets@[subsets@.len() - 1] == next);
                        assert forall|k: int| 0 <= k < subsets@.len() implies over_alphabet(#[trigger] words[k], a.spec_alphabet())
                            && run(a, initial@, words[k]) == subsets@[k]@.to_set() by {
                            if k < old_subsets.len() {
                                assert(subsets@[k] == old_subsets[k]);
                            }
                        }
                        let sets = Seq::new(subsets@.len(), |k: int| subsets@[k]@.to_set());
                        assert forall|p: int, q: int| 0 <= p < sets.len() && 0 <= q < sets.len() && p != q implies sets[p] != sets[q] by {
                            if sets[p] == sets[q] {
                                assert(subsets@[p]@ == kept(sets[p], n as nat));
                                assert(subsets@[q]@ == kept(sets[q], n as nat));
                                if p < old_subsets.len() && q < old_subsets.len() {
                                    assert(old_subsets[p]@ != old_subsets[q]@);
                                } else if p < old_subsets.len() {
                                    assert(old_subsets[p]@ != next@);
                                } else {
                                    assert(old_subsets[q]@ != next@);
                                }
                            }
                        }
                        assert forall|k: int| 0 <= k < sets.len() implies (#[trigger] sets[k]).subset_of(below(n as nat)) by {
                            if k < old_subsets.len() {
                                assert(subsets@[k] == old_subsets[k]);
                            }
                        }
                        lemma_distinct_subsets_bound(sets, n as nat);
                    }
                    row.push(subsets.len() - 1);
                },
            }
        }
        let ghost old_t = transitions@;
        transitions.push(row);
        proof {
            assert forall|p: int, c: int| 0 <= p < i + 1 && 0 <= c < alphabet@.len() implies
                (#[trigger] transitions@[p]@[c]) < subsets@.len()
                && subsets@[transitions@[p]@[c] as int]@.to_set() == step(a, subsets@[p]@.to_set(), alphabet@[c]) by {
                if p < i {
                    assert(transitions@[p] == old_t[p]);
                }
            }
        }
        i = i + 1;
    }
    let accept = a.accept_states();
    let mut accepting_states: Vec<bool> = Vec::new();
    for k in 0..subsets.len()
        invariant
            accept@ == a.spec_accepting(),
            accepting_states@.len() == k,
            forall|p: int| 0 <= p < k ==> (#[trigger] accepting_states@[p]) == (exists|s: usize|
                subsets@[p]@.to_set().contains(s) && a.spec_accepting().contains(s)),
    {
        let members = &subsets[k];
        let mut found = false;
        for q in 0..members.len()
            invariant
                accept@ == a.spec_accepting(),
                *members == subsets@[k as int],
                found == (exists|x: int| 0 <= x < q && a.spec_accepting().contains(#[trigger] members@[x])),
        {
            if accept.contains(&members[q]) {
                found = true;
            }
        }
        proof {
            if found {
                let x = choose|x: int| 0 <= x < members@.len() && a.spec_accepting().contains(#[trigger] members@[x]);
                assert(members@.to_set().contains(members@[x]));
            }
            if exists|s: usize| subsets@[k as int]@.to_set().contains(s) && a.spec_accepting().contains(s) {
                let s = choose|s: usize| subsets@[k as int]@.to_set().contains(s) && a.spec_accepting().contains(s);
                let x = choose|x: int| 0 <= x < members@.len() && members@[x] == s;
                assert(a.spec_accepting().contains(members@[x]));
            }
        }
        accepting_states.push(found);
    }
    let res = SubsetConstructionResult { subsets, transitions, initial_state: 0, accepting_states, alphabet };
    proof {
        assert forall|p: int| #![trigger label_of(&res, p)] 0 <= p < res.subsets@.len() implies exists|w: Seq<u8>|
            #![trigger run(a, initial@, w)] over_alphabet(w, a.spec_alphabet()) && run(a, initial@, w) == label_of(&res, p) by {
            assert(over_alphabet(words[p], a.spec_alphabet()));
            assert(run(a, initial@, words[p]) == label_of(&res, p));
        }
        assert forall|p: int, q: int| 0 <= p < res.subsets@.len() && 0 <= q < res.subsets@.len() && p != q implies
            label_of(&res, p) != label_of(&res, q) by {
            if label_of(&res, p) == label_of(&res, q) {
                assert(res.subsets@[p]@ == kept(label_of(&res, p), n as nat));
                assert(res.subsets@[q]@ == kept(label_of(&res, q), n as nat));
            }
        }
    }
    res
}

/// The positions `0..k` listed so that the subsets at them increase.
fn subset_order(subsets: &Vec<Vec<usize>>) -> (order: Vec<usize>)
    requires
        forall|p: int, q: int| 0 <= p < subsets@.len() && 0 <= q < subsets@.len() && p != q ==> subsets@[p]@ != subsets@[q]@,
    ensures
        order@.len() == subsets@.len(),
        forall|x: usize| #[trigger] order@.contains(x) <==> x < subsets@.len(),
        forall|x: int, y: int| 0 <= x < order@.len() && 0 <= y < order@.len() && x != y ==> order@[x] != order@[y],
        forall|x: int, y: int| 0 <= x < y < order@.len() ==> lex_less(subsets@[order@[x] as int]@, subsets@[order@[y] as int]@),
{
    let k = subsets.len();
    let mut order: Vec<usize> = Vec::new();
    for i in 0..k
        invariant
            k == subsets@.len(),
            forall|p: int, q: int| 0 <= p < subsets@.len() && 0 <= q < subsets@.len() && p != q ==> subsets@[p]@ != subsets@[q]@,
            order@.len() == i,
            forall|x: usize| #[trigger] order@.contains(x) <==> x < i,
            forall|x: int, y: int| 0 <= x < order@.len() && 0 <= y < order@.len() && x != y ==> order@[x] != order@[y],
            forall|x: int, y: int| 0 <= x < y < order@.len() ==> lex_less(subsets@[order@[x] as int]@, subsets@[order@[y] as int]@),
    {
        let ghost o = order@;
        let ghost si = subsets@[i as int]@;
        assert forall|q: int| 0 <= q < o.len() implies o[q] < i by {
            assert(o.contains(o[q]));
        }
        let mut p: usize = 0;
        while p < order.len()
            invariant
                order@ == o,
                o.len() == i,
                i < k,
                k == subsets@.len(),
                si == subsets@[i as int]@,
                forall|q: int| 0 <= q < o.len() ==> o[q] < i,
                p <= o.len(),
                forall|q: int| 0 <= q < p ==> lex_less(subsets@[o[q] as int]@, si),
            ensures
                p <= o.len(),
                forall|q: int| 0 <= q < p ==> lex_less(subsets@[o[q] as int]@, si),
                p < o.len() ==> !lex_less(subsets@[o[p as int] as int]@, si),
            decreases o.len() - p,
        {
            if !lex_less_vec(&subsets[order[p]], &subsets[i]) {
                break;
            }
            p = p + 1;
        }
        proof {
            if p < o.len() {
                lemma_lex_total(subsets@[o[p as int] as int]@, si);
                assert(subsets@[o[p as int] as int]@ != si);
            }
        }
        order.insert(p, i);
        proof {
            let n = order@;
            assert(n == o.insert(p as int, i));
            assert forall|x: int| 0 <= x < n.len() && x > p implies n[x] == o[x - 1] by {}
            assert forall|x: int| 0 <= x < p implies n[x] == o[x] by {}
            assert(n[p as int] == i);
            assert forall|x: usize| #[trigger] n.contains(x) <==> x < i + 1 by {
                if n.contains(x) {
                    let q = choose|q: int| 0 <= q < n.len() && n[q] == x;
                    if q < p {
                        assert(o.contains(o[q]));
                    } else if q > p {
                        assert(o.contains(o[q - 1]));
                    }
                }
                if x < i + 1 {
                    if x == i {
                        assert(n[p as int] == x);
                    } else {
                        assert(o.contains(x));
                        let q = choose|q: int| 0 <= q < o.len() && o[q] == x;
                        if q < p {
                            assert(n[q] == x);
                        } else {
                            assert(n[q + 1] == x);
                        }
                    }
                }
            }
            assert forall|x: int, y: int| 0 <= x < n.len() && 0 <= y < n.len() && x != y implies n[x] != n[y] by {
                if x != p && y != p {
                    let ox = if x < p { x } else { x - 1 };
                    let oy = if y < p { y } else { y - 1 };
                    assert(n[x] == o[ox] && n[y] == o[oy]);
                } else if x == p {
                    let oy = if y < p { y } else { y - 1 };
                    assert(n[y] == o[oy]);
                } else {
                    let ox = if x < p { x } else { x - 1 };
                    assert(n[x] == o[ox]);
                }
            }
            assert forall|x: int, y: int| 0 <= x < y < n.len() implies lex_less(subsets@[n[x] as int]@, subsets@[n[y] as int]@) by {
                if y < p {
                } else if y == p {
                } else if x < p {
                    assert(n[y] == o[y - 1]);
                } else if x == p {
                    let q = y - 1;
                    assert(n[y] == o[q]);
                    if q > p {
                        lemma_lex_transitive(si, subsets@[o[p as int] as int]@, subsets@[o[q] as int]@);
                    }
                } else {
                    assert(n[x] == o[x - 1] && n[y] == o[y - 1]);
                }
            }
        }
    }
    order
}

/// The same graph with its subsets renumbered in increasing order.
fn sort_subsets<A: Automaton>(a: &A, Ghost(init): Ghost<Set<usize>>, res: SubsetConstructionResult) -> (r: SubsetConstructionResult)
    requires
        is_subset_graph_of(&res, a, init),
    ensures
        is_subset_graph_of(&r, a, init),
        in_set_order(&r),
{
    let ghost n = a.spec_transitions().len();
    let k = res.subsets.len();
    proof {
        assert forall|p: int, q: int| 0 <= p < k && 0 <= q < k && p != q implies res.subsets@[p]@ != res.subsets@[q]@ by {
            assert(label_of(&res, p) != label_of(&res, q));
        }
    }
    let order = subset_order(&res.subsets);
    let mut rank: Vec<usize> = Vec::new();
    for i in 0..k
        invariant
            rank@.len() == i,
    {
        rank.push(0);
    }
    for r in 0..k
        invariant
            k == res.subsets@.len(),
            order@.len() == k,
            rank@.len() == k,
            forall|x: int, y: int| 0 <= x < order@.len() && 0 <= y < order@.len() && x != y ==> order@[x] != order@[y],
            forall|x: usize| #[trigger] order@.contains(x) <==> x < k,
            forall|q: int| 0 <= q < r ==> rank@[#[trigger] order@[q] as int] == q,
    {
        assert(order@.contains(order@[r as int]));
        let ghost before = rank@;
        rank.set(order[r], r);
        proof {
            assert forall|q: int| 0 <= q < r + 1 implies rank@[#[trigger] order@[q] as int] == q by {
                assert(order@.contains(order@[q]));
                if q < r {
                    assert(order@[q] != order@[r as int]);
                    assert(before[order@[q] as int] == q);
                }
            }
        }
    }
    proof {
        assert forall|i: int| 0 <= i < k implies rank@[i] < k && order@[#[trigger] rank@[i] as int] == i by {
            assert(order@.contains(i as usize));
            let q = choose|q: int| 0 <= q < order@.len() && order@[q] == i as usize;
            assert(rank@[order@[q] as int] == q);
        }
    }
    let m = res.alphabet.len();
    let mut subsets: Vec<Vec<usize>> = Vec::new();
    let mut transitions: Vec<Vec<usize>> = Vec::new();
    let mut accepting_states: Vec<bool> = Vec::new();
    for r in 0..k
        invariant
            k == res.subsets@.len(),
            m == res.alphabet@.len(),
            is_subset_graph_of(&res, a, init),
            order@.len() == k,
            rank@.len() == k,
            forall|x: usize| #[trigger] order@.contains(x) <==> x < k,
            forall|i: int| 0 <= i < k ==> rank@[i] < k && order@[#[trigger] rank@[i] as int] == i,
            subsets@.len() == r,
            transitions@.len() == r,
            accepting_states@.len() == r,
            forall|x: int| 0 <= x < r ==> (#[trigger] subsets@[x])@ == res.subsets@[order@[x] as int]@,
            forall|x: int| 0 <= x < r ==> (#[trigger] accepting_states@[x]) == res.accepting_states@[order@[x] as int],
            forall|x: int| 0 <= x < r ==> (#[trigger] transitions@[x])@.len() == m,
            forall|x: int, c: int| 0 <= x < r && 0 <= c < m ==>
                (#[trigger] transitions@[x]@[c]) == rank@[res.transitions@[order@[x] as int]@[c] as int],
    {
        assert(order@.contains(order@[r as int]));
        let j = order[r];
        subsets.push(res.subsets[j].clone());
        assert(subsets@[r as int]@ =~= res.subsets@[j as int]@);
        accepting_states.push(res.accepting_states[j]);
        let old_row = &res.transitions[j];
        let mut row: Vec<usize> = Vec::new();
        for c in 0..m
            invariant
                k == res.subsets@.len(),
                m == res.alphabet@.len(),
                j < k,
                *old_row == res.transitions@[j as int],
                is_subset_graph_of(&res, a, init),
                rank@.len() == k,
                row@.len() == c,
                forall|d: int| 0 <= d < c ==> #[trigger] row@[d] == rank@[old_row@[d] as int],
        {
            assert(old_row@[c as int] < k);
            row.push(rank[old_row[c]]);
        }
        transitions.push(row);
    }
    let initial_state = rank[res.initial_state];
    let r = SubsetConstructionResult { subsets, transitions, initial_state, accepting_states, alphabet: res.alphabet };
    proof {
        assert forall|x: int| 0 <= x < k implies #[trigger] label_of(&r, x) == label_of(&res, order@[x] as int) by {
            assert(order@.contains(order@[x]));
        }
        assert(label_of(&r, initial_state as int) == init) by {
            assert(label_of(&r, initial_state as int) == label_of(&res, order@[initial_state as int] as int));
        }
        assert forall|x: int, c: int| 0 <= x < k && 0 <= c < m implies
            (#[trigger] r.transitions@[x]@[c]) < k
            && label_of(&r, r.transitions@[x]@[c] as int) == step(a, label_of(&r, x), r.alphabet@[c]) by {
            let j = order@[x] as int;
            assert(order@.contains(order@[x]));
            let t = res.transitions@[j]@[c] as int;
            assert(res.transitions@[j]@[c] < k);
            assert(r.transitions@[x]@[c] == rank@[t]);
            assert(label_of(&r, rank@[t] as int) == label_of(&res, order@[rank@[t] as int] as int));
        }
        assert forall|x: int, y: int| 0 <= x < k && 0 <= y < k && x != y implies label_of(&r, x) != label_of(&r, y) by {
            assert(order@[x] != order@[y]);
            assert(order@.contains(order@[x]));
            assert(order@.contains(order@[y]));
        }
        assert forall|x: int| 0 <= x < k implies (#[trigger] r.subsets@[x])@ == kept(label_of(&r, x), n)
            && label_of(&r, x).subset_of(below(n)) by {
            let j = order@[x] as int;
            assert(order@.contains(order@[x]));
            assert(res.subsets@[j]@ == kept(label_of(&res, j), n));
            assert(label_of(&res, j).subset_of(below(n)));
        }
        assert forall|x: int| 0 <= x < k implies (#[trigger] r.accepting_states@[x]) == (exists|s: usize|
            label_of(&r, x).contains(s) && a.spec_accepting().contains(s)) by {
            let j = order@[x] as int;
            assert(order@.contains(order@[x]));
            assert(res.accepting_states@[j] == (exists|s: usize| label_of(&res, j).contains(s) && a.spec_accepting().contains(s)));
        }
        assert forall|x: int| #![trigger label_of(&r, x)] 0 <= x < k implies exists|w: Seq<u8>|
            #![trigger run(a, init, w)] over_alphabet(w, a.spec_alphabet()) && run(a, init, w) == label_of(&r, x) by {
            let j = order@[x] as int;
            assert(order@.contains(order@[x]));
            assert(label_of(&res, j) == label_of(&r, x));
        }
        assert forall|x: int, y: int| 0 <= x < y < k implies lex_less(r.subsets@[x]@, r.subsets@[y]@) by {
            assert(r.subsets@[x]@ == res.subsets@[order@[x] as int]@);
            assert(r.subsets@[y]@ == res.subsets@[order@[y] as int]@);
        }
    }
    r
}

/// The subsets of `a` reachable from `initial` over its alphabet, numbered in increasing
/// order, and the moves between them.
pub fn subset_graph<A: Automaton>(a: &A, initial: &HashSet<usize>) -> (res: SubsetConstructionResult)
    requires
        a.wf(),
        initial@.subset_of(below(a.spec_transitions().len())),
    ensures
        is_subset_graph_of(&res, a, initial@),
        in_set_order(&res),
{
    let explored = explore_subsets(a, initial);
    sort_subsets(a, Ghost(initial@), explored)
}

} // verus!
