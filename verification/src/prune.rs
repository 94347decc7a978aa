//! Reachability in byte automata and removal of unreachable states.
use vstd::prelude::*;
use std::collections::HashSet;
use crate::automaton::{State, Automaton, transitions_of, targets_in_range, accepts_spec, run, step};
use crate::nfa::{Nfa, byte_edge, byte_next, push_empty_state, push_byte_transition};
use crate::sets::{below, lemma_subset_below, copy_bytes};

verus! {

broadcast use vstd::std_specs::hash::group_hash_axioms;

/// There is an edge (with any label) from `u` to `v`.
pub open spec fn any_edge(t: Seq<Seq<(u8, usize)>>, u: usize, v: usize) -> bool {
    u < t.len() && exists|q: int| 0 <= q < t[u as int].len() && (#[trigger] t[u as int][q]).1 == v
}

/// `p` is a walk along edges.
pub open spec fn is_walk(t: Seq<Seq<(u8, usize)>>, p: Seq<usize>) -> bool {
    &&& p.len() > 0
    &&& forall|i: int| 0 <= i < p.len() - 1 ==> #[trigger] any_edge(t, p[i], p[i + 1])
}

/// `v` can be reached from `s` along edges.
pub open spec fn reaches(t: Seq<Seq<(u8, usize)>>, s: usize, v: usize) -> bool {
    exists|p: Seq<usize>| #[trigger] is_walk(t, p) && p[0] == s && p.last() == v
}

/// The states below `n` that belong to `r`, in increasing order.
pub open spec fn kept(r: Set<usize>, n: nat) -> Seq<usize>
    decreases n,
{
    if n == 0 {
        seq![]
    } else if r.contains((n - 1) as usize) {
        kept(r, (n - 1) as nat).push((n - 1) as usize)
    } else {
        kept(r, (n - 1) as nat)
    }
}

/// New index of a kept state: the number of kept states below it.
pub open spec fn rank(r: Set<usize>, i: usize) -> nat {
    kept(r, i as nat).len()
}

/// Renames the targets of a transition list to their new indices.
pub open spec fn renamed(r: Set<usize>, t: Seq<(u8, usize)>) -> Seq<(u8, usize)> {
    t.map_values(|e: (u8, usize)| (e.0, rank(r, e.1) as usize))
}

proof fn lemma_reach_refl(t: Seq<Seq<(u8, usize)>>, s: usize)
    ensures
        reaches(t, s, s),
{
    assert(is_walk(t, seq![s]));
}

proof fn lemma_reach_extend(t: Seq<Seq<(u8, usize)>>, s: usize, u: usize, v: usize)
    requires
        reaches(t, s, u),
        any_edge(t, u, v),
    ensures
        reaches(t, s, v),
{
    let p = choose|p: Seq<usize>| #[trigger] is_walk(t, p) && p[0] == s && p.last() == u;
    let q = p.push(v);
    assert forall|i: int| 0 <= i < q.len() - 1 implies #[trigger] any_edge(t, q[i], q[i + 1]) by {
        if i < p.len() - 1 {
            assert(any_edge(t, p[i], p[i + 1]));
        }
    }
    assert(is_walk(t, q));
}

proof fn lemma_walk_in_closed(t: Seq<Seq<(u8, usize)>>, c: Set<usize>, p: Seq<usize>, i: int)
    requires
        is_walk(t, p),
        c.contains(p[0]),
        forall|x: usize, v: usize| c.contains(x) && #[trigger] any_edge(t, x, v) ==> c.contains(v),
        0 <= i < p.len(),
    ensures
        c.contains(p[i]),
    decreases i,
{
    if i > 0 {
        lemma_walk_in_closed(t, c, p, i - 1);
        let j = i - 1;
        assert(any_edge(t, p[j], p[j + 1]));
    }
}

/// A set holding `s` and closed under edges holds everything `s` reaches.
proof fn lemma_closed_holds_reach(t: Seq<Seq<(u8, usize)>>, c: Set<usize>, s: usize, v: usize)
    requires
        c.contains(s),
        forall|x: usize, v: usize| c.contains(x) && #[trigger] any_edge(t, x, v) ==> c.contains(v),
        reaches(t, s, v),
    ensures
        c.contains(v),
{
    let p = choose|p: Seq<usize>| #[trigger] is_walk(t, p) && p[0] == s && p.last() == v;
    lemma_walk_in_closed(t, c, p, p.len() - 1);
}

/// `kept(r, m)` is a prefix of `kept(r, n)`.
pub proof fn lemma_kept_prefix(r: Set<usize>, m: nat, n: nat)
    requires
        m <= n,
    ensures
        kept(r, m).len() <= kept(r, n).len(),
        kept(r, n).take(kept(r, m).len() as int) == kept(r, m),
    decreases n,
{
    if m < n {
        lemma_kept_prefix(r, m, (n - 1) as nat);
        let a = kept(r, m);
        let b = kept(r, (n - 1) as nat);
        if r.contains((n - 1) as usize) {
            assert(kept(r, n).take(a.len() as int) =~= b.take(a.len() as int));
        }
    } else {
        assert(kept(r, n).take(kept(r, n).len() as int) =~= kept(r, n));
    }
}

/// The members of `kept(r, n)`: states of `r` below `n`, in increasing order.
pub proof fn lemma_kept(r: Set<usize>, n: nat)
    requires
        n <= usize::MAX + 1,
    ensures
        forall|j: int| 0 <= j < kept(r, n).len() ==> r.contains(#[trigger] kept(r, n)[j]) && kept(r, n)[j] < n,
        forall|i: int, j: int| 0 <= i < j < kept(r, n).len() ==> kept(r, n)[i] < kept(r, n)[j],
        kept(r, n).len() <= n,
    decreases n,
{
    if n > 0 {
        lemma_kept(r, (n - 1) as nat);
        let k0 = kept(r, (n - 1) as nat);
        let k1 = kept(r, n);
        assert forall|i: int, j: int| 0 <= i < j < k1.len() implies k1[i] < k1[j] by {
            if j < k0.len() {
                assert(k1[i] == k0[i] && k1[j] == k0[j]);
            } else {
                assert(r.contains((n - 1) as usize));
                assert(k1 == k0.push((n - 1) as usize));
                assert(k1[i] == k0[i]);
                assert(k0[i] < n - 1);
                assert(k1[j] == (n - 1) as usize);
            }
        }
    }
}

/// A kept state sits at its rank.
pub proof fn lemma_kept_at(r: Set<usize>, n: nat, i: usize)
    requires
        i < n,
        r.contains(i),
    ensures
        rank(r, i) < kept(r, n).len(),
        kept(r, n)[rank(r, i) as int] == i,
    decreases n,
{
    let k0 = kept(r, (n - 1) as nat);
    let k1 = kept(r, n);
    if i < n - 1 {
        lemma_kept_at(r, (n - 1) as nat, i);
        if r.contains((n - 1) as usize) {
            assert(k1[rank(r, i) as int] == k0[rank(r, i) as int]);
        }
    } else {
        assert(i as nat == (n - 1) as nat);
        assert(rank(r, i) == k0.len());
        assert(k1 == k0.push((n - 1) as usize));
    }
}

/// A rank never exceeds the state.
pub proof fn lemma_rank_le(r: Set<usize>, i: usize)
    ensures
        rank(r, i) <= i,
{
    lemma_kept(r, i as nat);
}

/// Ranks order kept states as the states themselves.
pub proof fn lemma_rank_increasing(r: Set<usize>, i: usize, j: usize)
    requires
        i < j,
        r.contains(i),
    ensures
        rank(r, i) < rank(r, j),
{
    lemma_kept_prefix(r, (i + 1) as nat, j as nat);
    assert(((i + 1) as nat - 1) as usize == i);
    assert(kept(r, (i + 1) as nat) == kept(r, i as nat).push(i));
    assert(kept(r, (i + 1) as nat).len() == kept(r, i as nat).len() + 1);
}

/// The accepting list after pruning: reachable accepting states, renamed, in the same order.
pub open spec fn renamed_accept(r: Set<usize>, acc: Seq<usize>) -> Seq<usize>
    decreases acc.len(),
{
    if acc.len() == 0 {
        seq![]
    } else if r.contains(acc.last()) {
        renamed_accept(r, acc.drop_last()).push(rank(r, acc.last()) as usize)
    } else {
        renamed_accept(r, acc.drop_last())
    }
}

/// `p` is `a` restricted to the states reachable from its start, renumbered in increasing
/// order of their old indices.
pub open spec fn is_pruning_of(p: &Nfa, a: &Nfa) -> bool {
    let reach = a.reachable_spec();
    let k = kept(reach, a.states@.len());
    &&& p.states@.len() == k.len()
    &&& forall|j: int| 0 <= j < k.len() ==> #[trigger] p.trans()[j] == renamed(reach, a.trans()[k[j] as int])
    &&& p.start == rank(reach, a.start) as usize
    &&& p.accept@ == renamed_accept(reach, a.accept@)
    &&& p.alphabet@ == a.alphabet@
}

/// Members of the renamed accepting list.
proof fn lemma_renamed_accept(r: Set<usize>, acc: Seq<usize>, x: usize)
    ensures
        renamed_accept(r, acc).contains(x) <==> exists|y: usize| r.contains(y) && acc.contains(y) && rank(r, y) as usize == x,
    decreases acc.len(),
{
    if acc.len() > 0 {
        let d = acc.drop_last();
        lemma_renamed_accept(r, d, x);
        let y0 = acc.last();
        assert(acc =~= d.push(y0));
        let ra = renamed_accept(r, acc);
        let rd = renamed_accept(r, d);
        if ra.contains(x) {
            if r.contains(y0) {
                let q = choose|q: int| 0 <= q < ra.len() && ra[q] == x;
                if q < rd.len() {
                    assert(rd[q] == x);
                    let y = choose|y: usize| r.contains(y) && d.contains(y) && rank(r, y) as usize == x;
                    let i = choose|i: int| 0 <= i < d.len() && d[i] == y;
                    assert(acc[i] == y);
                } else {
                    assert(acc[acc.len() - 1] == y0);
                }
            } else {
                let y = choose|y: usize| r.contains(y) && d.contains(y) && rank(r, y) as usize == x;
                let i = choose|i: int| 0 <= i < d.len() && d[i] == y;
                assert(acc[i] == y);
            }
        }
        if exists|y: usize| r.contains(y) && acc.contains(y) && rank(r, y) as usize == x {
            let y = choose|y: usize| r.contains(y) && acc.contains(y) && rank(r, y) as usize == x;
            let i = choose|i: int| 0 <= i < acc.len() && acc[i] == y;
            if i < d.len() {
                assert(d[i] == y);
                assert(rd.contains(x));
                let q = choose|q: int| 0 <= q < rd.len() && rd[q] == x;
                if r.contains(y0) {
                    assert(ra[q] == x);
                }
            } else {
                assert(y == y0);
                assert(ra[ra.len() - 1] == x);
            }
        }
    }
}

/// Renaming by rank, as a function on states.
pub open spec fn rename_fn(r: Set<usize>) -> spec_fn(usize) -> usize {
    |x: usize| rank(r, x) as usize
}

/// Edges leave reachable states only for reachable states.
proof fn lemma_reach_closed(a: &Nfa, x: usize, b: u8, v: usize)
    requires
        a.reachable_spec().contains(x),
        byte_edge(a.trans(), x, b, v),
    ensures
        a.reachable_spec().contains(v),
{
    let q = choose|q: int| 0 <= q < a.trans()[x as int].len() && a.trans()[x as int][q] == (b, v);
    assert(any_edge(a.trans(), x, v));
    lemma_reach_extend(a.trans(), a.start, x, v);
}

/// Reading one byte commutes with renaming.
proof fn lemma_pruned_step(a: &Nfa, p: &Nfa, s: Set<usize>, b: u8)
    requires
        a.well_formed(),
        is_pruning_of(p, a),
        s.subset_of(a.reachable_spec()),
    ensures
        step(a, s, b).subset_of(a.reachable_spec()),
        step(p, s.map(rename_fn(a.reachable_spec())), b) == step(a, s, b).map(rename_fn(a.reachable_spec())),
{
    let reach = a.reachable_spec();
    let n = a.states@.len();
    let k = kept(reach, n);
    let f = rename_fn(reach);
    assert forall|v: usize| step(a, s, b).contains(v) implies reach.contains(v) by {
        let x = choose|x: usize| s.contains(x) && #[trigger] a.spec_next(x, b).contains(v);
        lemma_reach_closed(a, x, b, v);
    }
    let lhs = step(p, s.map(f), b);
    let rhs = step(a, s, b).map(f);
    assert forall|t: usize| lhs.contains(t) <==> rhs.contains(t) by {
        if lhs.contains(t) {
            let y = choose|y: usize| s.map(f).contains(y) && #[trigger] p.spec_next(y, b).contains(t);
            let x = choose|x: usize| s.contains(x) && f(x) == y;
            assert(x < n) by {
                let w = choose|w: Seq<usize>| #[trigger] is_walk(a.trans(), w) && w[0] == a.start && w.last() == x;
                if w.len() > 1 {
                    let j = w.len() - 2;
                    assert(any_edge(a.trans(), w[j], w[j + 1]));
                    let q = choose|q: int| 0 <= q < a.trans()[w[j] as int].len() && (#[trigger] a.trans()[w[j] as int][q]).1 == x;
                }
            }
            lemma_kept_at(reach, n, x);
            lemma_rank_le(reach, x);
            assert(k[y as int] == x);
            assert(p.trans()[y as int] == renamed(reach, a.trans()[x as int]));
            let q = choose|q: int| 0 <= q < p.trans()[y as int].len() && p.trans()[y as int][q] == (b, t);
            let e = a.trans()[x as int][q];
            assert(renamed(reach, a.trans()[x as int])[q] == (e.0, rank(reach, e.1) as usize));
            assert(byte_edge(a.trans(), x, b, e.1));
            assert(a.spec_next(x, b).contains(e.1));
            assert(step(a, s, b).contains(e.1));
            assert(f(e.1) == t);
        }
        if rhs.contains(t) {
            let v = choose|v: usize| step(a, s, b).contains(v) && f(v) == t;
            let x = choose|x: usize| s.contains(x) && #[trigger] a.spec_next(x, b).contains(v);
            assert(x < n) by {
                let w = choose|w: Seq<usize>| #[trigger] is_walk(a.trans(), w) && w[0] == a.start && w.last() == x;
                if w.len() > 1 {
                    let j = w.len() - 2;
                    assert(any_edge(a.trans(), w[j], w[j + 1]));
                    let q = choose|q: int| 0 <= q < a.trans()[w[j] as int].len() && (#[trigger] a.trans()[w[j] as int][q]).1 == x;
                }
            }
            lemma_kept_at(reach, n, x);
            lemma_rank_le(reach, x);
            let y = f(x);
            assert(s.map(f).contains(y));
            assert(k[y as int] == x);
            assert(p.trans()[y as int] == renamed(reach, a.trans()[x as int]));
            let q = choose|q: int| 0 <= q < a.trans()[x as int].len() && a.trans()[x as int][q] == (b, v);
            assert(renamed(reach, a.trans()[x as int])[q] == (b, t));
            assert(byte_edge(p.trans(), y, b, t));
            assert(p.spec_next(y, b).contains(t));
        }
    }
    assert(lhs =~= rhs);
}

/// Running on the pruned automaton is running on the original, renamed.
pub proof fn lemma_pruned_run(a: &Nfa, p: &Nfa, w: Seq<u8>)
    requires
        a.well_formed(),
        is_pruning_of(p, a),
    ensures
        run(a, set![a.start], w).subset_of(a.reachable_spec()),
        run(p, set![p.start], w) == run(a, set![a.start], w).map(rename_fn(a.reachable_spec())),
    decreases w.len(),
{
    let reach = a.reachable_spec();
    let f = rename_fn(reach);
    if w.len() == 0 {
        lemma_reach_refl(a.trans(), a.start);
        assert(set![a.start].contains(a.start));
        assert(set![a.start].map(f).contains(f(a.start)));
        assert(f(a.start) == p.start);
        assert forall|y: usize| #[trigger] set![a.start].map(f).contains(y) implies y == p.start by {
            let x = choose|x: usize| set![a.start].contains(x) && f(x) == y;
        }
        assert(set![a.start].map(f) =~= set![p.start]);
    } else {
        lemma_pruned_run(a, p, w.drop_last());
        lemma_pruned_step(a, p, run(a, set![a.start], w.drop_last()), w.last());
    }
}

/// Pruning keeps the language: the pruned automaton accepts exactly the words the original accepts.
pub proof fn lemma_pruning_preserves_language(a: &Nfa, p: &Nfa, w: Seq<u8>)
    requires
        a.well_formed(),
        is_pruning_of(p, a),
    ensures
        accepts_spec(p, w) == accepts_spec(a, w),
{
    let reach = a.reachable_spec();
    let n = a.states@.len();
    let f = rename_fn(reach);
    lemma_pruned_run(a, p, w);
    let ra = run(a, set![a.start], w);
    let rp = run(p, set![p.start], w);
    assert(a.spec_initial() == set![a.start]);
    assert(p.spec_initial() == set![p.start]);
    if accepts_spec(a, w) {
        let x = choose|x: usize| #[trigger] ra.contains(x) && a.spec_accepting().contains(x);
        assert(rp.contains(f(x)));
        lemma_renamed_accept(reach, a.accept@, f(x));
        assert(p.accept@.to_set().contains(f(x)));
        assert(rp.contains(f(x)) && p.spec_accepting().contains(f(x)));
    }
    if accepts_spec(p, w) {
        let y = choose|y: usize| #[trigger] rp.contains(y) && p.spec_accepting().contains(y);
        let x = choose|x: usize| ra.contains(x) && f(x) == y;
        lemma_renamed_accept(reach, a.accept@, y);
        let z = choose|z: usize| reach.contains(z) && a.accept@.contains(z) && rank(reach, z) as usize == y;
        lemma_rank_le(reach, x);
        lemma_rank_le(reach, z);
        if x < z {
            lemma_rank_increasing(reach, x, z);
        } else if z < x {
            lemma_rank_increasing(reach, z, x);
        }
        assert(x == z);
        assert(a.spec_accepting().contains(x));
        assert(ra.contains(x) && a.spec_accepting().contains(x));
    }
}

/// The pruned automaton is well formed, and its accepting indices name states.
proof fn lemma_pruned_well_formed(a: &Nfa, p: &Nfa)
    requires
        a.well_formed(),
        a.accept_in_range(),
        a.states@.len() <= usize::MAX,
        is_pruning_of(p, a),
    ensures
        p.well_formed(),
        p.accept_in_range(),
{
    let reach = a.reachable_spec();
    let n = a.states@.len();
    let k = kept(reach, n);
    let m = p.states@.len();
    lemma_kept(reach, n);
    lemma_reach_refl(a.trans(), a.start);
    lemma_kept_at(reach, n, a.start);
    lemma_rank_le(reach, a.start);
    assert forall|i: int, q: int| 0 <= i < p.trans().len() && 0 <= q < p.trans()[i].len() implies (#[trigger] p.trans()[i][q]).1 < p.trans().len() by {
        let x = k[i];
        assert(p.trans()[i] == renamed(reach, a.trans()[x as int]));
        let e = a.trans()[x as int][q];
        assert(e.1 < n);
        assert(byte_edge(a.trans(), x, e.0, e.1));
        lemma_reach_closed(a, x, e.0, e.1);
        lemma_kept_at(reach, n, e.1);
        lemma_rank_le(reach, e.1);
    }
    assert forall|i: int| 0 <= i < p.accept@.len() implies #[trigger] p.accept@[i] < m by {
        assert(renamed_accept(reach, a.accept@).contains(p.accept@[i]));
        lemma_renamed_accept(reach, a.accept@, p.accept@[i]);
        let z = choose|z: usize| reach.contains(z) && a.accept@.contains(z) && rank(reach, z) as usize == p.accept@[i];
        let j = choose|j: int| 0 <= j < a.accept@.len() && a.accept@[j] == z;
        assert(z < n);
        lemma_kept_at(reach, n, z);
        lemma_rank_le(reach, z);
    }
}

impl Nfa {
    /// The states reachable from the start state.
    pub open spec fn reachable_spec(&self) -> Set<usize> {
        Set::new(|v: usize| reaches(self.trans(), self.start, v))
    }

    /// The states reachable from the start state.
    pub(crate) fn reachable_states(&self) -> (reachable: HashSet<usize>)
        requires
            self.well_formed(),
        ensures
            reachable@ == self.reachable_spec(),
    {
        let n = self.states.len();
        let ghost t = self.trans();
        let mut reachable: HashSet<usize> = HashSet::new();
        let mut stack: Vec<usize> = Vec::new();
        stack.push(self.start);
        proof {
            assert(stack@[0] == self.start);
            lemma_reach_refl(t, self.start);
            lemma_subset_below(reachable@, n as nat);
        }
        loop
            invariant
                self.well_formed(),
                t == self.trans(),
                n == self.states@.len(),
                reachable@.subset_of(below(n as nat)),
                reachable@.finite(),
                forall|i: int| 0 <= i < stack@.len() ==> #[trigger] stack@[i] < n,
                forall|x: usize| reachable@.contains(x) ==> reaches(t, self.start, x),
                forall|i: int| 0 <= i < stack@.len() ==> reaches(t, self.start, #[trigger] stack@[i]),
                reachable@.contains(self.start) || stack@.contains(self.start),
                forall|x: usize, v: usize| reachable@.contains(x) && #[trigger] any_edge(t, x, v) ==>
                    reachable@.contains(v) || stack@.contains(v),
            ensures
                reachable@.contains(self.start),
                forall|x: usize| reachable@.contains(x) ==> reaches(t, self.start, x),
                forall|x: usize, v: usize| reachable@.contains(x) && #[trigger] any_edge(t, x, v) ==> reachable@.contains(v),
            decreases n - reachable@.len(), stack@.len(),
        {
            proof { lemma_subset_below(reachable@, n as nat); }
            let ghost pre = stack@;
            match stack.pop() {
                None => {
                    proof {
                        assert(stack@ =~= Seq::<usize>::empty());
                    }
                    break;
                },
                Some(state) => {
                    let ghost old_stack = stack@.push(state);
                    let ghost c0 = reachable@;
                    assert(old_stack =~= pre);
                    assert(forall|x: usize, v: usize| c0.contains(x) && #[trigger] any_edge(t, x, v) ==>
                        c0.contains(v) || old_stack.contains(v));
                    assert(c0.contains(self.start) || old_stack.contains(self.start));
                    proof {
                        assert(old_stack[old_stack.len() - 1] == state);
                        assert forall|v: usize| old_stack.contains(v) implies (stack@.contains(v) || v == state) by {
                            let i = choose|i: int| 0 <= i < old_stack.len() && old_stack[i] == v;
                            if i < stack@.len() {
                                assert(stack@[i] == v);
                            }
                        }
                    }
                    if reachable.insert(state) {
                        proof {
                            assert(reachable@ == c0.insert(state));
                            assert(reachable@.len() == c0.len() + 1);
                            lemma_subset_below(reachable@, n as nat);
                        }
                        let transitions = &self.states[state].transitions;
                        let ghost stack0 = stack@;
                        let mut k: usize = 0;
                        while k < transitions.len()
                            invariant
                                self.well_formed(),
                                t == self.trans(),
                                n == self.states@.len(),
                                state < n,
                                *transitions == self.states@[state as int].transitions,
                                0 <= k <= transitions@.len(),
                                reaches(t, self.start, state),
                                forall|v: usize| stack0.contains(v) ==> #[trigger] stack@.contains(v),
                                forall|i: int| 0 <= i < stack@.len() ==> #[trigger] stack@[i] < n,
                                forall|i: int| 0 <= i < stack@.len() ==> reaches(t, self.start, #[trigger] stack@[i]),
                                forall|q: int| 0 <= q < k ==> stack@.contains((#[trigger] transitions@[q]).1),
                            decreases transitions@.len() - k,
                        {
                            let (_b, target) = transitions[k];
                            let ghost prev = stack@;
                            proof {
                                assert(t[state as int][k as int] == transitions@[k as int]);
                                assert(any_edge(t, state, target));
                                lemma_reach_extend(t, self.start, state, target);
                            }
                            stack.push(target);
                            proof {
                                assert(stack@[stack@.len() - 1] == target);
                                assert forall|v: usize| prev.contains(v) implies #[trigger] stack@.contains(v) by {
                                    let i = choose|i: int| 0 <= i < prev.len() && prev[i] == v;
                                    assert(stack@[i] == v);
                                }
                                assert forall|q: int| 0 <= q < k + 1 implies stack@.contains((#[trigger] transitions@[q]).1) by {
                                    if q < k {
                                        assert(prev.contains(transitions@[q].1));
                                    }
                                }
                            }
                            k = k + 1;
                        }
                        proof {
                            assert forall|x: usize, v: usize| reachable@.contains(x) && #[trigger] any_edge(t, x, v) implies
                                reachable@.contains(v) || stack@.contains(v) by {
                                if x == state {
                                    let q = choose|q: int| 0 <= q < t[x as int].len() && (#[trigger] t[x as int][q]).1 == v;
                                    assert(transitions@[q].1 == v);
                                } else {
                                    assert(c0.contains(x));
                                    if old_stack.contains(v) && !reachable@.contains(v) {
                                        assert(stack0.contains(v));
                                    }
                                }
                            }
                            if stack0.contains(self.start) {
                                assert(stack@.contains(self.start));
                            }
                        }
                    } else {
                        proof {
                            assert forall|x: usize, v: usize| reachable@.contains(x) && #[trigger] any_edge(t, x, v) implies
                                reachable@.contains(v) || stack@.contains(v) by {
                                assert(c0.contains(x));
                                assert(old_stack.contains(v) ==> (stack@.contains(v) || v == state));
                            }
                            assert(c0.contains(self.start) || old_stack.contains(self.start));
                        }
                    }
                },
            }
        }
        proof {
            assert forall|v: usize| reachable@.contains(v) <==> reaches(t, self.start, v) by {
                if reaches(t, self.start, v) {
                    lemma_closed_holds_reach(t, reachable@, self.start, v);
                }
            }
            assert(reachable@ =~= self.reachable_spec());
        }
        reachable
    }

    /// The automaton restricted to the states reachable from the start state, renumbered in
    /// increasing order of their old indices. It accepts the same words.
    pub fn pruned(&self) -> (r: Nfa)
        requires
            self.well_formed(),
            self.accept_in_range(),
        ensures
            is_pruning_of(&r, self),
            r.well_formed(),
            r.accept_in_range(),
            forall|w: Seq<u8>| accepts_spec(&r, w) == accepts_spec(self, w),
    {
        let reachable = self.reachable_states();
        let n = self.states.len();
        let ghost reach = self.reachable_spec();
        let ghost k = kept(reach, n as nat);
        proof { lemma_kept(reach, n as nat); }
        let mut idx_mapping: Vec<Option<usize>> = Vec::new();
        let mut new_states: Vec<State<u8>> = Vec::new();
        for old_idx in 0..n
            invariant
                n == self.states@.len(),
                reachable@ == reach,
                idx_mapping@.len() == old_idx,
                new_states@.len() == kept(reach, old_idx as nat).len(),
                forall|i: int| 0 <= i < old_idx ==> #[trigger] idx_mapping@[i] == (if reach.contains(i as usize) {
                    Some(rank(reach, i as usize) as usize)
                } else {
                    None::<usize>
                }),
                forall|j: int| 0 <= j < new_states@.len() ==> #[trigger] transitions_of(new_states@)[j] == Seq::<(u8, usize)>::empty(),
        {
            proof {
                assert(((old_idx + 1) as nat - 1) as usize == old_idx);
                lemma_kept(reach, old_idx as nat);
            }
            if reachable.contains(&old_idx) {
                idx_mapping.push(Some(new_states.len()));
                let ghost ns0 = transitions_of(new_states@);
                assert(forall|j: int| 0 <= j < ns0.len() ==> #[trigger] ns0[j] == Seq::<(u8, usize)>::empty());
                push_empty_state(&mut new_states);
                proof {
                    assert(transitions_of(new_states@) == ns0.push(Seq::empty()));
                    assert(kept(reach, (old_idx + 1) as nat) == kept(reach, old_idx as nat).push(old_idx));
                    assert forall|j: int| 0 <= j < new_states@.len() implies #[trigger] transitions_of(new_states@)[j] == Seq::<(u8, usize)>::empty() by {
                        if j < new_states@.len() - 1 {
                            assert(transitions_of(new_states@)[j] == ns0[j]);
                        }
                    }
                }
            } else {
                idx_mapping.push(None);
                proof {
                    assert(kept(reach, (old_idx + 1) as nat) == kept(reach, old_idx as nat));
                }
            }
        }
        let ghost t = self.trans();
        for old_from in 0..n
            invariant
                n == self.states@.len(),
                t == self.trans(),
                self.well_formed(),
                reach == self.reachable_spec(),
                k == kept(reach, n as nat),
                idx_mapping@.len() == n,
                new_states@.len() == k.len(),
                forall|i: int| 0 <= i < n ==> #[trigger] idx_mapping@[i] == (if reach.contains(i as usize) {
                    Some(rank(reach, i as usize) as usize)
                } else {
                    None::<usize>
                }),
                forall|j: int| 0 <= j < k.len() ==> #[trigger] transitions_of(new_states@)[j] == (if k[j] < old_from {
                    renamed(reach, t[k[j] as int])
                } else {
                    Seq::<(u8, usize)>::empty()
                }),
        {
            match idx_mapping[old_from] {
                None => {},
                Some(new_from) => {
                    proof {
                        assert(idx_mapping@[old_from as int] == Some(rank(reach, old_from) as usize));
                        lemma_kept_at(reach, n as nat, old_from);
                        lemma_rank_le(reach, old_from);
                        lemma_kept(reach, n as nat);
                    }
                    let transitions = &self.states[old_from].transitions;
                    let ghost ns0 = transitions_of(new_states@);
                    proof {
                        assert(k[new_from as int] == old_from);
                        assert(ns0[new_from as int] == Seq::<(u8, usize)>::empty());
                        assert(transitions@.take(0) =~= Seq::<(u8, usize)>::empty());
                        assert(renamed(reach, transitions@.take(0)) =~= Seq::<(u8, usize)>::empty());
                        assert(ns0.update(new_from as int, renamed(reach, transitions@.take(0))) =~= ns0);
                    }
                    for q in 0..transitions.len()
                        invariant
                            n == self.states@.len(),
                            t == self.trans(),
                            self.well_formed(),
                            reach == self.reachable_spec(),
                            reach.contains(old_from),
                            old_from < n,
                            *transitions == self.states@[old_from as int].transitions,
                            t[old_from as int] == transitions@,
                            idx_mapping@.len() == n,
                            forall|i: int| 0 <= i < n ==> #[trigger] idx_mapping@[i] == (if reach.contains(i as usize) {
                                Some(rank(reach, i as usize) as usize)
                            } else {
                                None::<usize>
                            }),
                            new_from < new_states@.len(),
                            new_states@.len() == ns0.len(),
                            transitions_of(new_states@) == ns0.update(new_from as int, renamed(reach, transitions@.take(q as int))),
                    {
                        let (sym, old_to) = transitions[q];
                        proof {
                            assert(t[old_from as int][q as int] == (sym, old_to));
                            assert(t[old_from as int].contains((sym, old_to)));
                            assert(byte_edge(t, old_from, sym, old_to));
                            lemma_reach_closed(self, old_from, sym, old_to);
                        }
                        let new_to = idx_mapping[old_to].unwrap();
                        push_byte_transition(&mut new_states, new_from, sym, new_to);
                        proof {
                            assert(transitions@.take(q + 1) =~= transitions@.take(q as int).push((sym, old_to)));
                            assert(renamed(reach, transitions@.take(q + 1)) =~= renamed(reach, transitions@.take(q as int)).push((sym, new_to)));
                            assert(transitions_of(new_states@) =~= ns0.update(new_from as int, renamed(reach, transitions@.take(q + 1))));
                        }
                    }
                    proof {
                        assert(transitions@.take(transitions@.len() as int) =~= transitions@);
                        assert(k[new_from as int] == old_from);
                        assert forall|j: int| 0 <= j < k.len() implies #[trigger] transitions_of(new_states@)[j] == (if k[j] < old_from + 1 {
                            renamed(reach, t[k[j] as int])
                        } else {
                            Seq::<(u8, usize)>::empty()
                        }) by {
                            if j != new_from {
                                assert(ns0[j] == (if k[j] < old_from { renamed(reach, t[k[j] as int]) } else { Seq::<(u8, usize)>::empty() }));
                                assert(k[j] != old_from);
                            } else {
                                assert(renamed(reach, t[old_from as int]) == renamed(reach, transitions@));
                            }
                        }
                    }
                },
            }
            proof {
                lemma_kept(reach, n as nat);
                if !reach.contains(old_from) {
                    assert forall|j: int| 0 <= j < k.len() implies #[trigger] transitions_of(new_states@)[j] == (if k[j] < old_from + 1 {
                        renamed(reach, t[k[j] as int])
                    } else {
                        Seq::<(u8, usize)>::empty()
                    }) by {
                        assert(reach.contains(k[j]));
                        assert(k[j] != old_from);
                    }
                }
            }
        }
        let mut new_accept: Vec<usize> = Vec::new();
        for i in 0..self.accept.len()
            invariant
                n == self.states@.len(),
                self.well_formed(),
                self.accept_in_range(),
                idx_mapping@.len() == n,
                forall|i: int| 0 <= i < n ==> #[trigger] idx_mapping@[i] == (if reach.contains(i as usize) {
                    Some(rank(reach, i as usize) as usize)
                } else {
                    None::<usize>
                }),
                new_accept@ == renamed_accept(reach, self.accept@.take(i as int)),
        {
            let old_idx = self.accept[i];
            proof {
                assert(self.accept@.take(i + 1).drop_last() =~= self.accept@.take(i as int));
                assert(self.accept@.take(i + 1).last() == old_idx);
            }
            match idx_mapping[old_idx] {
                Some(new_idx) => {
                    new_accept.push(new_idx);
                },
                None => {},
            }
        }
        proof {
            assert(self.accept@.take(self.accept@.len() as int) =~= self.accept@);
            lemma_reach_refl(self.trans(), self.start);
        }
        let new_start = idx_mapping[self.start].unwrap();
        let r = Nfa { states: new_states, start: new_start, accept: new_accept, alphabet: copy_bytes(&self.alphabet) };
        proof {
            assert forall|j: int| 0 <= j < k.len() implies #[trigger] r.trans()[j] == renamed(reach, self.trans()[k[j] as int]) by {
                assert(k[j] < n);
            }
            assert(is_pruning_of(&r, self));
            lemma_pruned_well_formed(self, &r);
            assert forall|w: Seq<u8>| accepts_spec(&r, w) == accepts_spec(self, w) by {
                lemma_pruning_preserves_language(self, &r, w);
            }
        }
        r
    }
}

/// Reachable states of a well-formed automaton are states of it.
proof fn lemma_reach_below(a: &Nfa, x: usize)
    requires
        a.well_formed(),
        a.reachable_spec().contains(x),
    ensures
        x < a.states@.len(),
{
    let w = choose|w: Seq<usize>| #[trigger] is_walk(a.trans(), w) && w[0] == a.start && w.last() == x;
    if w.len() > 1 {
        let j = w.len() - 2;
        assert(any_edge(a.trans(), w[j], w[j + 1]));
        let q = choose|q: int| 0 <= q < a.trans()[w[j] as int].len() && (#[trigger] a.trans()[w[j] as int][q]).1 == x;
    }
}

/// Every state below `n` is kept from the states below `n`, in order.
proof fn lemma_kept_below(n: nat, m: nat)
    requires
        m <= n,
    ensures
        kept(below(n), m) == Seq::new(m, |i: int| i as usize),
    decreases m,
{
    if m > 0 {
        lemma_kept_below(n, (m - 1) as nat);
        assert(below(n).contains((m - 1) as usize));
        assert(kept(below(n), m) =~= Seq::new(m, |i: int| i as usize));
    } else {
        assert(kept(below(n), m) =~= Seq::new(m, |i: int| i as usize));
    }
}

/// With every state below `n` reachable, renaming leaves an accepting list below `n` as it is.
proof fn lemma_renamed_accept_below(n: nat, acc: Seq<usize>)
    requires
        forall|i: int| 0 <= i < acc.len() ==> #[trigger] acc[i] < n,
    ensures
        renamed_accept(below(n), acc) == acc,
    decreases acc.len(),
{
    if acc.len() > 0 {
        lemma_renamed_accept_below(n, acc.drop_last());
        lemma_kept_below(n, acc.last() as nat);
        assert(acc.drop_last().push(acc.last()) =~= acc);
    }
}

/// A state of the pruned automaton is reached from its start by the renamed walk.
proof fn lemma_pruned_reaches(a: &Nfa, p: &Nfa, w: Seq<usize>)
    requires
        a.well_formed(),
        is_pruning_of(p, a),
        is_walk(a.trans(), w),
        w[0] == a.start,
    ensures
        reaches(p.trans(), p.start, rank(a.reachable_spec(), w.last()) as usize),
    decreases w.len(),
{
    let reach = a.reachable_spec();
    let n = a.states@.len();
    if w.len() == 1 {
        lemma_reach_refl(p.trans(), p.start);
    } else {
        let u = w.drop_last();
        assert forall|i: int| 0 <= i < u.len() - 1 implies #[trigger] any_edge(a.trans(), u[i], u[i + 1]) by {
            assert(any_edge(a.trans(), w[i], w[i + 1]));
        }
        lemma_pruned_reaches(a, p, u);
        let x = u.last();
        let y = w.last();
        let j = w.len() - 2;
        assert(any_edge(a.trans(), w[j], w[j + 1]));
        assert(reaches(a.trans(), a.start, x)) by {
            assert(is_walk(a.trans(), u));
        }
        assert(reach.contains(x));
        lemma_reach_below(a, x);
        lemma_kept_at(reach, n, x);
        lemma_rank_le(reach, x);
        let q = choose|q: int| 0 <= q < a.trans()[x as int].len() && (#[trigger] a.trans()[x as int][q]).1 == y;
        let rx = rank(reach, x) as usize;
        assert(p.trans()[rx as int] == renamed(reach, a.trans()[x as int]));
        assert(p.trans()[rx as int][q] == (a.trans()[x as int][q].0, rank(reach, y) as usize));
        assert(any_edge(p.trans(), rx, rank(reach, y) as usize));
        lemma_reach_extend(p.trans(), p.start, rx, rank(reach, y) as usize);
    }
}

/// Pruning twice is pruning once: every state of a pruned automaton is reachable, so
/// pruning it again keeps its transitions, start state, accepting list and alphabet.
pub proof fn lemma_pruning_idempotent(a: &Nfa, p: &Nfa, q: &Nfa)
    requires
        a.well_formed(),
        a.accept_in_range(),
        a.states@.len() <= usize::MAX,
        p.well_formed(),
        is_pruning_of(p, a),
        is_pruning_of(q, p),
    ensures
        q.trans() == p.trans(),
        q.start == p.start,
        q.accept@ == p.accept@,
        q.alphabet@ == p.alphabet@,
{
    let reach = a.reachable_spec();
    let n = a.states@.len();
    let k = kept(reach, n);
    let m = p.states@.len();
    lemma_kept(reach, n);
    lemma_pruned_well_formed(a, p);
    assert forall|j: usize| #[trigger] p.reachable_spec().contains(j) <==> below(m).contains(j) by {
        if p.reachable_spec().contains(j) {
            let w = choose|w: Seq<usize>| #[trigger] is_walk(p.trans(), w) && w[0] == p.start && w.last() == j;
            lemma_reach_below(p, j);
        }
        if j < m {
            let x = k[j as int];
            assert(reach.contains(x));
            let w = choose|w: Seq<usize>| #[trigger] is_walk(a.trans(), w) && w[0] == a.start && w.last() == x;
            lemma_pruned_reaches(a, p, w);
            lemma_kept_at(reach, n, x);
            lemma_rank_le(reach, x);
            let r = rank(reach, x);
            if r != j {
                assert(k[r as int] == k[j as int]);
                if r < j {
                    assert(k[r as int] < k[j as int]);
                } else {
                    assert(k[j as int] < k[r as int]);
                }
            }
        }
    }
    assert(p.reachable_spec() =~= below(m));
    lemma_kept_below(m, m);
    assert(kept(p.reachable_spec(), m) == Seq::new(m, |i: int| i as usize));
    assert forall|j: int| 0 <= j < m implies #[trigger] q.trans()[j] == p.trans()[j] by {
        let row = p.trans()[j];
        assert(kept(p.reachable_spec(), m)[j] == j as usize);
        assert(q.trans()[j] == renamed(below(m), row));
        assert forall|c: int| 0 <= c < row.len() implies renamed(below(m), row)[c] == row[c] by {
            assert(row[c].1 < m);
            lemma_kept_below(m, row[c].1 as nat);
        }
        assert(renamed(below(m), row) =~= row);
    }
    assert(q.trans() =~= p.trans());
    lemma_kept_below(m, p.start as nat);
    lemma_renamed_accept_below(m, p.accept@);
}

} // verus!
