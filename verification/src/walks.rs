//! Walks in epsilon-NFA transition tables: following edges from state to state while
//! reading a word, epsilon edges reading nothing.
use vstd::prelude::*;
use crate::epsilon_nfa::{Symbol, EpsilonNfa};
use crate::automaton::{Automaton, transitions_of, run, step, accepts_spec};
use crate::subset::over_alphabet;
use crate::thompson::row_labels;

verus! {

/// The transitions of state `u` in a table of rows for the states `base, base + 1, ...`;
/// other states have none.
pub open spec fn row_at(rows: Seq<Seq<(Symbol, usize)>>, base: nat, u: usize) -> Seq<(Symbol, usize)> {
    if base <= u && u < base + rows.len() {
        rows[u - base]
    } else {
        Seq::empty()
    }
}

/// An edge labelled `sym` can be taken at the start of `w`.
pub open spec fn reads(sym: Symbol, w: Seq<u8>) -> bool {
    match sym {
        Symbol::Epsilon => true,
        Symbol::Byte(b) => w.len() > 0 && w[0] == b,
    }
}

/// What is left of `w` once an edge labelled `sym` is taken.
pub open spec fn after(sym: Symbol, w: Seq<u8>) -> Seq<u8> {
    match sym {
        Symbol::Epsilon => w,
        Symbol::Byte(_) => w.drop_first(),
    }
}

/// Taking the `q`-th transition of `u` first, then walking on for at most `n` more
/// steps, reads `w` and ends in `v`.
#[verifier::inline]
pub open spec fn walk_via(rows: Seq<Seq<(Symbol, usize)>>, base: nat, u: usize, q: int, w: Seq<u8>, v: usize, n: nat) -> bool {
    &&& 0 <= q < row_at(rows, base, u).len()
    &&& reads(row_at(rows, base, u)[q].0, w)
    &&& walk(rows, base, row_at(rows, base, u)[q].1, after(row_at(rows, base, u)[q].0, w), v, n)
}

/// A walk of at most `n` steps from `u` to `v` reads `w`.
pub open spec fn walk(rows: Seq<Seq<(Symbol, usize)>>, base: nat, u: usize, w: Seq<u8>, v: usize, n: nat) -> bool
    decreases n,
{
    ||| (u == v && w.len() == 0)
    ||| (n > 0 && exists|q: int| #![trigger row_at(rows, base, u)[q]] 0 <= q < row_at(rows, base, u).len()
            && reads(row_at(rows, base, u)[q].0, w)
            && walk(rows, base, row_at(rows, base, u)[q].1, after(row_at(rows, base, u)[q].0, w), v, (n - 1) as nat))
}

/// Some walk from `u` to `v` reads `w`.
pub open spec fn walks(rows: Seq<Seq<(Symbol, usize)>>, base: nat, u: usize, w: Seq<u8>, v: usize) -> bool {
    exists|n: nat| #[trigger] walk(rows, base, u, w, v, n)
}

/// A longer allowance admits every walk a shorter one does.
pub proof fn lemma_walk_more(rows: Seq<Seq<(Symbol, usize)>>, base: nat, u: usize, w: Seq<u8>, v: usize, n: nat, n2: nat)
    requires
        walk(rows, base, u, w, v, n),
        n <= n2,
    ensures
        walk(rows, base, u, w, v, n2),
    decreases n,
{
    if !(u == v && w.len() == 0) {
        let q = choose|q: int| walk_via(rows, base, u, q, w, v, (n - 1) as nat);
        let row = row_at(rows, base, u);
        match row[q].0 {
            Symbol::Epsilon => {
                lemma_walk_more(rows, base, row[q].1, w, v, (n - 1) as nat, (n2 - 1) as nat);
            },
            Symbol::Byte(b) => {
                lemma_walk_more(rows, base, row[q].1, w.drop_first(), v, (n - 1) as nat, (n2 - 1) as nat);
            },
        }
        assert(walk_via(rows, base, u, q, w, v, (n2 - 1) as nat));
    }
}

/// Walks compose: a walk reading `w1` then one reading `w2` read `w1 + w2`.
pub proof fn lemma_walk_compose(rows: Seq<Seq<(Symbol, usize)>>, base: nat, u: usize, w1: Seq<u8>, m: usize, n1: nat, w2: Seq<u8>, v: usize, n2: nat)
    requires
        walk(rows, base, u, w1, m, n1),
        walk(rows, base, m, w2, v, n2),
    ensures
        walk(rows, base, u, w1 + w2, v, n1 + n2),
    decreases n1,
{
    if u == m && w1.len() == 0 {
        assert(w1 + w2 =~= w2);
        lemma_walk_more(rows, base, m, w2, v, n2, n1 + n2);
    } else {
        let q = choose|q: int| walk_via(rows, base, u, q, w1, m, (n1 - 1) as nat);
        let row = row_at(rows, base, u);
        match row[q].0 {
            Symbol::Epsilon => {
                lemma_walk_compose(rows, base, row[q].1, w1, m, (n1 - 1) as nat, w2, v, n2);
            },
            Symbol::Byte(b) => {
                lemma_walk_compose(rows, base, row[q].1, w1.drop_first(), m, (n1 - 1) as nat, w2, v, n2);
                assert((w1 + w2).drop_first() =~= w1.drop_first() + w2);
            },
        }
        assert(walk_via(rows, base, u, q, w1 + w2, v, (n1 + n2 - 1) as nat));
    }
}

/// Walks compose, whatever their lengths.
pub proof fn lemma_walks_compose(rows: Seq<Seq<(Symbol, usize)>>, base: nat, u: usize, w1: Seq<u8>, m: usize, w2: Seq<u8>, v: usize)
    requires
        walks(rows, base, u, w1, m),
        walks(rows, base, m, w2, v),
    ensures
        walks(rows, base, u, w1 + w2, v),
{
    let n1 = choose|n: nat| #[trigger] walk(rows, base, u, w1, m, n);
    let n2 = choose|n: nat| #[trigger] walk(rows, base, m, w2, v, n);
    lemma_walk_compose(rows, base, u, w1, m, n1, w2, v, n2);
}

/// A walk reading `w1 + w2` passes a state where `w1` has been read.
pub proof fn lemma_walk_split(rows: Seq<Seq<(Symbol, usize)>>, base: nat, u: usize, w1: Seq<u8>, w2: Seq<u8>, v: usize, n: nat)
    requires
        walk(rows, base, u, w1 + w2, v, n),
    ensures
        exists|m: usize| #[trigger] walks(rows, base, u, w1, m) && walks(rows, base, m, w2, v),
    decreases n,
{
    if w1.len() == 0 {
        assert(w1 + w2 =~= w2);
        assert(walk(rows, base, u, w1, u, 0));
        assert(walks(rows, base, u, w1, u));
        assert(walks(rows, base, u, w2, v));
    } else if u == v && (w1 + w2).len() == 0 {
        assert(false);
    } else {
        let w = w1 + w2;
        let q = choose|q: int| walk_via(rows, base, u, q, w, v, (n - 1) as nat);
        let row = row_at(rows, base, u);
        let t = row[q].1;
        match row[q].0 {
            Symbol::Epsilon => {
                lemma_walk_split(rows, base, t, w1, w2, v, (n - 1) as nat);
                let m = choose|m: usize| #[trigger] walks(rows, base, t, w1, m) && walks(rows, base, m, w2, v);
                let k = choose|k: nat| #[trigger] walk(rows, base, t, w1, m, k);
                assert(walk_via(rows, base, u, q, w1, m, k));
                assert(walk(rows, base, u, w1, m, k + 1));
                assert(walks(rows, base, u, w1, m));
            },
            Symbol::Byte(b) => {
                assert(w.drop_first() =~= w1.drop_first() + w2);
                lemma_walk_split(rows, base, t, w1.drop_first(), w2, v, (n - 1) as nat);
                let m = choose|m: usize| #[trigger] walks(rows, base, t, w1.drop_first(), m) && walks(rows, base, m, w2, v);
                let k = choose|k: nat| #[trigger] walk(rows, base, t, w1.drop_first(), m, k);
                assert(w1[0] == b);
                assert(walk_via(rows, base, u, q, w1, m, k));
                assert(walk(rows, base, u, w1, m, k + 1));
                assert(walks(rows, base, u, w1, m));
            },
        }
    }
}

/// One edge is a walk.
pub proof fn lemma_walk_edge(rows: Seq<Seq<(Symbol, usize)>>, base: nat, u: usize, q: int)
    requires
        0 <= q < row_at(rows, base, u).len(),
    ensures
        row_at(rows, base, u)[q].0 == Symbol::Epsilon ==> walks(rows, base, u, Seq::empty(), row_at(rows, base, u)[q].1),
        row_at(rows, base, u)[q].0 matches Symbol::Byte(b) ==> walks(rows, base, u, seq![b], row_at(rows, base, u)[q].1),
{
    let row = row_at(rows, base, u);
    let t = row[q].1;
    assert(walk(rows, base, t, Seq::<u8>::empty(), t, 0));
    match row[q].0 {
        Symbol::Epsilon => {
            assert(walk_via(rows, base, u, q, Seq::<u8>::empty(), t, 0));
            assert(walk(rows, base, u, Seq::<u8>::empty(), t, 1));
        },
        Symbol::Byte(b) => {
            assert(seq![b].drop_first() =~= Seq::<u8>::empty());
            assert(walk_via(rows, base, u, q, seq![b], t, 0));
            assert(walk(rows, base, u, seq![b], t, 1));
        },
    }
}

/// A state without transitions is where every walk from it ends, having read nothing.
pub proof fn lemma_walk_stuck(rows: Seq<Seq<(Symbol, usize)>>, base: nat, u: usize, w: Seq<u8>, v: usize, n: nat)
    requires
        row_at(rows, base, u).len() == 0,
        walk(rows, base, u, w, v, n),
    ensures
        v == u,
        w.len() == 0,
{
    if !(u == v && w.len() == 0) {
        let q = choose|q: int| walk_via(rows, base, u, q, w, v, (n - 1) as nat);
    }
}

/// Every edge of one table is an edge of another: walks of the first are walks of the second.
pub open spec fn edges_within(f: Seq<Seq<(Symbol, usize)>>, fb: nat, t: Seq<Seq<(Symbol, usize)>>, tb: nat) -> bool {
    forall|u: usize, q: int| 0 <= q < row_at(f, fb, u).len() ==> #[trigger] row_at(t, tb, u).contains(row_at(f, fb, u)[q])
}

/// Walks of a table are walks of any table holding its edges.
pub proof fn lemma_walk_embed(f: Seq<Seq<(Symbol, usize)>>, fb: nat, t: Seq<Seq<(Symbol, usize)>>, tb: nat, u: usize, w: Seq<u8>, v: usize, n: nat)
    requires
        edges_within(f, fb, t, tb),
        walk(f, fb, u, w, v, n),
    ensures
        walk(t, tb, u, w, v, n),
    decreases n,
{
    if !(u == v && w.len() == 0) {
        let q = choose|q: int| walk_via(f, fb, u, q, w, v, (n - 1) as nat);
        let row = row_at(f, fb, u);
        let e = row[q];
        assert(row_at(t, tb, u).contains(e));
        let q2 = choose|q2: int| 0 <= q2 < row_at(t, tb, u).len() && row_at(t, tb, u)[q2] == e;
        match e.0 {
            Symbol::Epsilon => {
                lemma_walk_embed(f, fb, t, tb, e.1, w, v, (n - 1) as nat);
            },
            Symbol::Byte(b) => {
                lemma_walk_embed(f, fb, t, tb, e.1, w.drop_first(), v, (n - 1) as nat);
            },
        }
        assert(walk_via(t, tb, u, q2, w, v, (n - 1) as nat));
    }
}

/// Walks of a table are walks of any table holding its edges, whatever their lengths.
pub proof fn lemma_walks_embed(f: Seq<Seq<(Symbol, usize)>>, fb: nat, t: Seq<Seq<(Symbol, usize)>>, tb: nat, u: usize, w: Seq<u8>, v: usize)
    requires
        edges_within(f, fb, t, tb),
        walks(f, fb, u, w, v),
    ensures
        walks(t, tb, u, w, v),
{
    let n = choose|n: nat| #[trigger] walk(f, fb, u, w, v, n);
    lemma_walk_embed(f, fb, t, tb, u, w, v, n);
}

/// A table `t` coincides with a fragment table `f` on the states `lo..hi` other than the
/// exit `x`; the fragment's edges stay among `lo..hi`, and its exit has none.
pub open spec fn region_of(f: Seq<Seq<(Symbol, usize)>>, fb: nat, t: Seq<Seq<(Symbol, usize)>>, tb: nat, lo: nat, hi: nat, x: usize) -> bool {
    &&& lo <= x < hi
    &&& forall|u: usize| lo <= u < hi && u != x ==> #[trigger] row_at(t, tb, u) == row_at(f, fb, u)
    &&& forall|u: usize, q: int| lo <= u < hi && 0 <= q < row_at(f, fb, u).len() ==> lo <= (#[trigger] row_at(f, fb, u)[q]).1 < hi
    &&& row_at(f, fb, x).len() == 0
}

/// A walk of `t` from inside the region either stays inside, short of the exit, and is a
/// walk of the fragment; or it first reaches the exit by a walk of the fragment and goes
/// on from there in at most as many steps.
pub proof fn lemma_walk_first_exit(f: Seq<Seq<(Symbol, usize)>>, fb: nat, t: Seq<Seq<(Symbol, usize)>>, tb: nat, lo: nat, hi: nat, x: usize,
    u: usize, w: Seq<u8>, v: usize, n: nat)
    requires
        region_of(f, fb, t, tb, lo, hi, x),
        lo <= u < hi,
        walk(t, tb, u, w, v, n),
    ensures
        (lo <= v < hi && v != x && walk(f, fb, u, w, v, n))
        || (exists|w1: Seq<u8>, w2: Seq<u8>, n2: nat| n2 <= n && w == w1 + w2 && #[trigger] walks(f, fb, u, w1, x) && #[trigger] walk(t, tb, x, w2, v, n2)),
    decreases n,
{
    if u == x {
        assert(w =~= Seq::<u8>::empty() + w);
        assert(walk(f, fb, x, Seq::<u8>::empty(), x, 0));
        assert(walks(f, fb, x, Seq::<u8>::empty(), x));
    } else if u == v && w.len() == 0 {
        assert(walk(f, fb, u, w, v, n));
    } else {
        let q = choose|q: int| walk_via(t, tb, u, q, w, v, (n - 1) as nat);
        let row = row_at(t, tb, u);
        assert(row == row_at(f, fb, u));
        let e = row[q];
        let rest = match e.0 {
            Symbol::Epsilon => w,
            Symbol::Byte(b) => w.drop_first(),
        };
        assert(walk(t, tb, e.1, rest, v, (n - 1) as nat));
        assert(lo <= e.1 < hi);
        lemma_walk_first_exit(f, fb, t, tb, lo, hi, x, e.1, rest, v, (n - 1) as nat);
        if lo <= v < hi && v != x && walk(f, fb, e.1, rest, v, (n - 1) as nat) {
            assert(walk_via(f, fb, u, q, w, v, (n - 1) as nat));
        } else {
            let (w1, w2, n2) = choose|w1: Seq<u8>, w2: Seq<u8>, n2: nat| n2 <= n - 1 && rest == w1 + w2
                && #[trigger] walks(f, fb, e.1, w1, x) && #[trigger] walk(t, tb, x, w2, v, n2);
            let k = choose|k: nat| #[trigger] walk(f, fb, e.1, w1, x, k);
            match e.0 {
                Symbol::Epsilon => {
                    assert(walk_via(f, fb, u, q, w1, x, k));
                    assert(walk(f, fb, u, w1, x, k + 1));
                    assert(walks(f, fb, u, w1, x));
                },
                Symbol::Byte(b) => {
                    let w1b = seq![b] + w1;
                    assert(w1b.drop_first() =~= w1);
                    assert(w =~= w1b + w2) by {
                        assert(w =~= seq![w[0]] + w.drop_first());
                    }
                    assert(walk_via(f, fb, u, q, w1b, x, k));
                    assert(walk(f, fb, u, w1b, x, k + 1));
                    assert(walks(f, fb, u, w1b, x));
                },
            }
        }
    }
}

/// A walk leaving a state whose only edges are epsilon edges goes on along one of them.
pub proof fn lemma_walk_eps_exits(rows: Seq<Seq<(Symbol, usize)>>, base: nat, u: usize, w: Seq<u8>, v: usize, n: nat)
    requires
        walk(rows, base, u, w, v, n),
        u != v,
        forall|q: int| 0 <= q < row_at(rows, base, u).len() ==> (#[trigger] row_at(rows, base, u)[q]).0 == Symbol::Epsilon,
    ensures
        n > 0,
        exists|q: int| 0 <= q < row_at(rows, base, u).len() && #[trigger] walk(rows, base, row_at(rows, base, u)[q].1, w, v, (n - 1) as nat),
{
    let q = choose|q: int| walk_via(rows, base, u, q, w, v, (n - 1) as nat);
    assert(row_at(rows, base, u)[q].0 == Symbol::Epsilon);
}

/// The edges of an epsilon-NFA are those of its table of transitions.
pub proof fn lemma_has_edge_row(a: &EpsilonNfa, u: usize, sym: Symbol, v: usize)
    ensures
        a.has_edge(u, sym, v) == row_at(transitions_of(a.states@), 0, u).contains((sym, v)),
{
    let t = transitions_of(a.states@);
    if u < a.states@.len() {
        assert(row_at(t, 0, u) == a.trans(u));
    }
}

/// Epsilon reachability is walking while reading nothing.
pub proof fn lemma_eps_reaches_walks(a: &EpsilonNfa, s: usize, t: usize)
    ensures
        a.eps_reaches(s, t) == walks(transitions_of(a.states@), 0, s, Seq::empty(), t),
{
    let rows = transitions_of(a.states@);
    if a.eps_reaches(s, t) {
        let p = choose|p: Seq<usize>| #[trigger] a.is_eps_path(p) && p[0] == s && p.last() == t;
        lemma_eps_path_walks(a, p, 0);
    }
    if walks(rows, 0, s, Seq::empty(), t) {
        let n = choose|n: nat| #[trigger] walk(rows, 0, s, Seq::empty(), t, n);
        lemma_empty_walk_reaches(a, s, t, n);
    }
}

/// The part of an epsilon path from position `i` on is a walk reading nothing.
proof fn lemma_eps_path_walks(a: &EpsilonNfa, p: Seq<usize>, i: int)
    requires
        a.is_eps_path(p),
        0 <= i < p.len(),
    ensures
        walks(transitions_of(a.states@), 0, p[i], Seq::empty(), p.last()),
    decreases p.len() - i,
{
    let rows = transitions_of(a.states@);
    if i == p.len() - 1 {
        assert(walk(rows, 0, p[i], Seq::<u8>::empty(), p[i], 0));
    } else {
        lemma_eps_path_walks(a, p, i + 1);
        assert(a.has_edge(p[i], Symbol::Epsilon, p[i + 1]));
        lemma_has_edge_row(a, p[i], Symbol::Epsilon, p[i + 1]);
        let q = choose|q: int| 0 <= q < row_at(rows, 0, p[i]).len() && row_at(rows, 0, p[i])[q] == (Symbol::Epsilon, p[i + 1]);
        lemma_walk_edge(rows, 0, p[i], q);
        lemma_walks_compose(rows, 0, p[i], Seq::empty(), p[i + 1], Seq::empty(), p.last());
        assert(Seq::<u8>::empty() + Seq::<u8>::empty() =~= Seq::<u8>::empty());
    }
}

/// A walk reading nothing follows epsilon edges.
proof fn lemma_empty_walk_reaches(a: &EpsilonNfa, s: usize, t: usize, n: nat)
    requires
        walk(transitions_of(a.states@), 0, s, Seq::empty(), t, n),
    ensures
        a.eps_reaches(s, t),
    decreases n,
{
    let rows = transitions_of(a.states@);
    if s == t {
        a.lemma_reach_refl(s);
    } else {
        let w = Seq::<u8>::empty();
        let q = choose|q: int| walk_via(rows, 0, s, q, w, t, (n - 1) as nat);
        let e = row_at(rows, 0, s)[q];
        assert(e.0 == Symbol::Epsilon);
        lemma_empty_walk_reaches(a, e.1, t, (n - 1) as nat);
        assert(row_at(rows, 0, s).contains(e));
        lemma_has_edge_row(a, s, Symbol::Epsilon, e.1);
        a.lemma_reach_refl(s);
        a.lemma_reach_extend(s, s, e.1);
        a.lemma_reach_trans(s, e.1, t);
    }
}

/// A walk reading one byte follows epsilon edges, one edge labelled with the byte, and
/// epsilon edges again.
proof fn lemma_byte_walk_steps(a: &EpsilonNfa, s: usize, b: u8, t: usize, n: nat)
    requires
        walk(transitions_of(a.states@), 0, s, seq![b], t, n),
    ensures
        exists|u: usize, v: usize| a.eps_reaches(s, u) && #[trigger] a.has_edge(u, Symbol::Byte(b), v) && a.eps_reaches(v, t),
    decreases n,
{
    let rows = transitions_of(a.states@);
    let w = seq![b];
    let q = choose|q: int| walk_via(rows, 0, s, q, w, t, (n - 1) as nat);
    let e = row_at(rows, 0, s)[q];
    assert(row_at(rows, 0, s).contains(e));
    lemma_has_edge_row(a, s, e.0, e.1);
    match e.0 {
        Symbol::Epsilon => {
            lemma_byte_walk_steps(a, e.1, b, t, (n - 1) as nat);
            let (u, v) = choose|u: usize, v: usize| a.eps_reaches(e.1, u) && #[trigger] a.has_edge(u, Symbol::Byte(b), v) && a.eps_reaches(v, t);
            a.lemma_reach_refl(s);
            a.lemma_reach_extend(s, s, e.1);
            a.lemma_reach_trans(s, e.1, u);
        },
        Symbol::Byte(c) => {
            assert(c == b);
            assert(w.drop_first() =~= Seq::<u8>::empty());
            lemma_empty_walk_reaches(a, e.1, t, (n - 1) as nat);
            a.lemma_reach_refl(s);
            assert(a.has_edge(s, Symbol::Byte(b), e.1));
        },
    }
}

/// The states an epsilon-NFA reaches on `w` from its initial states are those a walk from
/// its start state reading `w` ends in.
pub proof fn lemma_run_walks(a: &EpsilonNfa, w: Seq<u8>, t: usize)
    ensures
        run(a, a.spec_initial(), w).contains(t) == walks(transitions_of(a.states@), 0, a.start, w, t),
    decreases w.len(),
{
    let rows = transitions_of(a.states@);
    if w.len() == 0 {
        lemma_eps_reaches_walks(a, a.start, t);
        assert(w =~= Seq::<u8>::empty());
    } else {
        let w0 = w.drop_last();
        let b = w.last();
        assert(w =~= w0 + seq![b]);
        if run(a, a.spec_initial(), w).contains(t) {
            let s = choose|s: usize| run(a, a.spec_initial(), w0).contains(s) && #[trigger] a.spec_next(s, b).contains(t);
            lemma_run_walks(a, w0, s);
            let v = choose|v: usize| a.move_spec(a.eps_closure_spec(s), b).contains(v) && #[trigger] a.eps_reaches(v, t);
            let u = choose|u: usize| a.eps_closure_spec(s).contains(u) && #[trigger] a.has_edge(u, Symbol::Byte(b), v);
            lemma_eps_reaches_walks(a, s, u);
            lemma_eps_reaches_walks(a, v, t);
            lemma_has_edge_row(a, u, Symbol::Byte(b), v);
            let q = choose|q: int| 0 <= q < row_at(rows, 0, u).len() && row_at(rows, 0, u)[q] == (Symbol::Byte(b), v);
            lemma_walk_edge(rows, 0, u, q);
            lemma_walks_compose(rows, 0, a.start, w0, s, Seq::empty(), u);
            assert(w0 + Seq::<u8>::empty() =~= w0);
            lemma_walks_compose(rows, 0, a.start, w0, u, seq![b], v);
            lemma_walks_compose(rows, 0, a.start, w0 + seq![b], v, Seq::empty(), t);
            assert(w0 + seq![b] + Seq::<u8>::empty() =~= w);
        }
        if walks(rows, 0, a.start, w, t) {
            let n = choose|n: nat| #[trigger] walk(rows, 0, a.start, w0 + seq![b], t, n);
            lemma_walk_split(rows, 0, a.start, w0, seq![b], t, n);
            let m = choose|m: usize| #[trigger] walks(rows, 0, a.start, w0, m) && walks(rows, 0, m, seq![b], t);
            lemma_run_walks(a, w0, m);
            let k = choose|k: nat| #[trigger] walk(rows, 0, m, seq![b], t, k);
            lemma_byte_walk_steps(a, m, b, t, k);
            let (u, v) = choose|u: usize, v: usize| a.eps_reaches(m, u) && #[trigger] a.has_edge(u, Symbol::Byte(b), v) && a.eps_reaches(v, t);
            assert(a.eps_closure_spec(m).contains(u));
            assert(a.move_spec(a.eps_closure_spec(m), b).contains(v));
            assert(a.spec_next(m, b).contains(t));
            assert(step(a, run(a, a.spec_initial(), w0), b).contains(t));
        }
    }
}

/// An epsilon-NFA accepts exactly the words a walk from its start state to its accepting
/// state reads.
pub proof fn lemma_accepts_walks(a: &EpsilonNfa, w: Seq<u8>)
    ensures
        accepts_spec(a, w) == walks(transitions_of(a.states@), 0, a.start, w, a.accept),
{
    lemma_run_walks(a, w, a.accept);
    if accepts_spec(a, w) {
        let s = choose|s: usize| #[trigger] run(a, a.spec_initial(), w).contains(s) && a.spec_accepting().contains(s);
        assert(s == a.accept);
    }
    if walks(transitions_of(a.states@), 0, a.start, w, a.accept) {
        assert(a.spec_accepting().contains(a.accept));
    }
}

/// Every byte a walk reads labels some transition of the table.
pub proof fn lemma_walk_labels(rows: Seq<Seq<(Symbol, usize)>>, u: usize, w: Seq<u8>, v: usize, n: nat)
    requires
        walk(rows, 0, u, w, v, n),
    ensures
        over_alphabet(w, row_labels(rows)),
    decreases n,
{
    if !(u == v && w.len() == 0) {
        let q = choose|q: int| walk_via(rows, 0, u, q, w, v, (n - 1) as nat);
        let e = row_at(rows, 0, u)[q];
        assert(rows[u as int][q] == e);
        match e.0 {
            Symbol::Epsilon => {
                lemma_walk_labels(rows, e.1, w, v, (n - 1) as nat);
            },
            Symbol::Byte(b) => {
                lemma_walk_labels(rows, e.1, w.drop_first(), v, (n - 1) as nat);
                assert(row_labels(rows).contains(b));
                assert forall|i: int| 0 <= i < w.len() implies row_labels(rows).contains(#[trigger] w[i]) by {
                    if i > 0 {
                        assert(w[i] == w.drop_first()[i - 1]);
                    }
                }
            },
        }
    }
}

} // verus!
