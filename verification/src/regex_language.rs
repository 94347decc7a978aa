//! The words a pattern matches, and the proof that the fragment built for a pattern reads
//! exactly those words from its entry to its exit.
use vstd::prelude::*;
use crate::epsilon_nfa::Symbol;
use crate::regex::{RegexAst, RepeatKind, Fragment, ast_size, alternation_size, concat_size, build_error, list_error,
    thompson, alternation_fragment, concat_fragment, append_edge, fragment_shape, targets_between,
    lemma_thompson_shape, lemma_alternation_shape, lemma_concat_shape, lemma_list_error_prefix};
use crate::walks::{row_at, walk, walks, reads, after, edges_within, region_of, lemma_walk_more, lemma_walk_compose,
    lemma_walks_compose, lemma_walk_edge, lemma_walk_stuck, lemma_walks_embed, lemma_walk_first_exit, lemma_walk_eps_exits};

verus! {

/// The words of `parts`, one after another.
pub open spec fn flatten(parts: Seq<Seq<u8>>) -> Seq<u8>
    decreases parts.len(),
{
    if parts.len() == 0 {
        Seq::empty()
    } else {
        parts[0] + flatten(parts.drop_first())
    }
}

/// The words `ast` matches: the empty word for the empty pattern, the character's byte for
/// a literal, the words of any alternative, the words of the parts one after another, and
/// for `*` (`+`) any number (at least one) of words of the repeated pattern one after
/// another. Refused constructs match nothing.
pub open spec fn in_language(ast: RegexAst, w: Seq<u8>) -> bool
    decreases ast,
{
    match ast {
        RegexAst::Empty => w.len() == 0,
        RegexAst::Literal(c) => w == seq![c as u8],
        RegexAst::Group(a) => in_language(*a, w),
        RegexAst::Repetition(kind, a) => if kind == RepeatKind::ZeroOrMore || kind == RepeatKind::OneOrMore {
            exists|parts: Seq<Seq<u8>>| #[trigger] flatten(parts) == w
                && (kind == RepeatKind::OneOrMore ==> parts.len() >= 1)
                && forall|i: int| 0 <= i < parts.len() ==> in_language(*a, #[trigger] parts[i])
        } else {
            false
        },
        RegexAst::Alternation(v) => exists|i: int| 0 <= i < v@.len() && in_language(#[trigger] v@[i], w),
        RegexAst::Concat(v) => exists|parts: Seq<Seq<u8>>| #[trigger] flatten(parts) == w && parts.len() == v@.len()
            && forall|i: int| 0 <= i < parts.len() ==> in_language(#[trigger] v@[i], parts[i]),
        _ => false,
    }
}

/// The fragment reads `w` from its entry to its exit.
pub open spec fn fragment_reads(f: Fragment, base: nat, w: Seq<u8>) -> bool {
    walks(f.rows, base, f.start, w, f.accept)
}

/// A fragment of two states joined by one edge reads exactly that edge's word.
proof fn lemma_two_state_fragment(f: Fragment, base: nat, sym: Symbol, w: Seq<u8>)
    requires
        f.rows == seq![seq![(sym, (base + 1) as usize)], Seq::<(Symbol, usize)>::empty()],
        f.start == base,
        f.accept == base + 1,
        base + 2 <= usize::MAX + 1,
    ensures
        fragment_reads(f, base, w) == (match sym {
            Symbol::Epsilon => w.len() == 0,
            Symbol::Byte(b) => w == seq![b],
        }),
{
    let s = f.start;
    let t = f.accept;
    assert(row_at(f.rows, base, s) == seq![(sym, t)]);
    assert(row_at(f.rows, base, t).len() == 0);
    if fragment_reads(f, base, w) {
        let n = choose|n: nat| #[trigger] walk(f.rows, base, s, w, t, n);
        let q = choose|q: int| #![trigger row_at(f.rows, base, s)[q]] 0 <= q < row_at(f.rows, base, s).len()
            && reads(row_at(f.rows, base, s)[q].0, w)
            && walk(f.rows, base, row_at(f.rows, base, s)[q].1, after(row_at(f.rows, base, s)[q].0, w), t, (n - 1) as nat);
        assert(q == 0);
        lemma_walk_stuck(f.rows, base, t, after(sym, w), t, (n - 1) as nat);
        match sym {
            Symbol::Epsilon => {},
            Symbol::Byte(b) => {
                assert(w =~= seq![b]) by {
                    assert(w.drop_first().len() == 0);
                }
            },
        }
    }
    match sym {
        Symbol::Epsilon => {
            if w.len() == 0 {
                lemma_walk_edge(f.rows, base, s, 0);
                assert(w =~= Seq::<u8>::empty());
            }
        },
        Symbol::Byte(b) => {
            if w == seq![b] {
                lemma_walk_edge(f.rows, base, s, 0);
            }
        },
    }
}

/// The fragment joining `left` to `right`: `left`'s exit leads to `right`'s entry.
pub open spec fn joined(left: Fragment, base: nat, right: Fragment) -> Fragment {
    Fragment {
        rows: append_edge(left.rows, left.accept - base, (Symbol::Epsilon, right.start)) + right.rows,
        start: left.start,
        accept: right.accept,
    }
}

/// Joining two fragments reads the words of the first followed by words of the second.
proof fn lemma_joined_reads(left: Fragment, base: nat, right: Fragment, b2: nat, w: Seq<u8>)
    requires
        b2 == base + left.rows.len(),
        fragment_shape(left, base, left.rows.len()),
        fragment_shape(right, b2, right.rows.len()),
        b2 + right.rows.len() <= usize::MAX + 1,
    ensures
        fragment_reads(joined(left, base, right), base, w)
            == exists|u: Seq<u8>, x: Seq<u8>| w == u + x && #[trigger] fragment_reads(left, base, u) && #[trigger] fragment_reads(right, b2, x),
{
    let t = joined(left, base, right).rows;
    let hi = b2 + right.rows.len();
    let la = left.accept;
    let rs = right.start;
    let ra = right.accept;
    let e = (Symbol::Epsilon, rs);
    assert forall|u: usize| base <= u < b2 && u != la implies #[trigger] row_at(t, base, u) == row_at(left.rows, base, u) by {
        assert(t[u - base] == left.rows[u - base]);
    }
    assert(row_at(t, base, la) == seq![e]) by {
        assert(t[la - base] == left.rows[la - base].push(e));
        assert(left.rows[la - base].push(e) =~= seq![e]);
    }
    assert forall|u: usize| b2 <= u < hi implies #[trigger] row_at(t, base, u) == row_at(right.rows, b2, u) by {
        assert(t[u - base] == right.rows[u - b2]);
    }
    assert(region_of(left.rows, base, t, base, base, b2, la)) by {
        assert forall|u: usize, q: int| base <= u < b2 && 0 <= q < row_at(left.rows, base, u).len() implies base <= (#[trigger] row_at(left.rows, base, u)[q]).1 < b2 by {
            assert(left.rows[u - base][q] == row_at(left.rows, base, u)[q]);
        }
    }
    assert(region_of(right.rows, b2, t, base, b2, hi, ra)) by {
        assert forall|u: usize, q: int| b2 <= u < hi && 0 <= q < row_at(right.rows, b2, u).len() implies b2 <= (#[trigger] row_at(right.rows, b2, u)[q]).1 < hi by {
            assert(right.rows[u - b2][q] == row_at(right.rows, b2, u)[q]);
        }
    }
    assert(edges_within(left.rows, base, t, base)) by {
        assert forall|u: usize, q: int| 0 <= q < row_at(left.rows, base, u).len() implies #[trigger] row_at(t, base, u).contains(row_at(left.rows, base, u)[q]) by {
            assert(u != la);
            assert(row_at(t, base, u)[q] == row_at(left.rows, base, u)[q]);
        }
    }
    assert(edges_within(right.rows, b2, t, base)) by {
        assert forall|u: usize, q: int| 0 <= q < row_at(right.rows, b2, u).len() implies #[trigger] row_at(t, base, u).contains(row_at(right.rows, b2, u)[q]) by {
            assert(row_at(t, base, u)[q] == row_at(right.rows, b2, u)[q]);
        }
    }
    if fragment_reads(joined(left, base, right), base, w) {
        let n = choose|n: nat| #[trigger] walk(t, base, left.start, w, ra, n);
        lemma_walk_first_exit(left.rows, base, t, base, base, b2, la, left.start, w, ra, n);
        let (w1, w2, n2) = choose|w1: Seq<u8>, w2: Seq<u8>, n2: nat| n2 <= n && w == w1 + w2
            && #[trigger] walks(left.rows, base, left.start, w1, la) && #[trigger] walk(t, base, la, w2, ra, n2);
        lemma_walk_eps_exits(t, base, la, w2, ra, n2);
        assert(walk(t, base, rs, w2, ra, (n2 - 1) as nat));
        lemma_walk_first_exit(right.rows, b2, t, base, b2, hi, ra, rs, w2, ra, (n2 - 1) as nat);
        let (x1, x2, n3) = choose|x1: Seq<u8>, x2: Seq<u8>, n3: nat| n3 <= n2 - 1 && w2 == x1 + x2
            && #[trigger] walks(right.rows, b2, rs, x1, ra) && #[trigger] walk(t, base, ra, x2, ra, n3);
        lemma_walk_stuck(t, base, ra, x2, ra, n3);
        assert(x2 =~= Seq::<u8>::empty());
        assert(w2 =~= x1);
        assert(fragment_reads(left, base, w1));
        assert(fragment_reads(right, b2, x1));
    }
    if exists|u: Seq<u8>, x: Seq<u8>| w == u + x && #[trigger] fragment_reads(left, base, u) && #[trigger] fragment_reads(right, b2, x) {
        let (u, x) = choose|u: Seq<u8>, x: Seq<u8>| w == u + x && #[trigger] fragment_reads(left, base, u) && #[trigger] fragment_reads(right, b2, x);
        lemma_walks_embed(left.rows, base, t, base, left.start, u, la);
        lemma_walks_embed(right.rows, b2, t, base, rs, x, ra);
        lemma_walk_edge(t, base, la, 0);
        lemma_walks_compose(t, base, left.start, u, la, Seq::empty(), rs);
        assert(u + Seq::<u8>::empty() =~= u);
        lemma_walks_compose(t, base, left.start, u, rs, x, ra);
    }
}

/// The fragment offering a choice: a new entry leads to both entries, and both exits lead
/// to a new exit.
pub open spec fn either(left: Fragment, base: nat, right: Fragment, b2: nat) -> Fragment {
    let n = b2 + right.rows.len();
    let e = (Symbol::Epsilon, (n + 1) as usize);
    Fragment {
        rows: append_edge(left.rows, left.accept - base, e) + append_edge(right.rows, right.accept - b2, e)
            + seq![seq![(Symbol::Epsilon, left.start), (Symbol::Epsilon, right.start)], Seq::empty()],
        start: n as usize,
        accept: (n + 1) as usize,
    }
}

/// A choice between two fragments reads the words of either.
proof fn lemma_either_reads(left: Fragment, base: nat, right: Fragment, b2: nat, w: Seq<u8>)
    requires
        b2 == base + left.rows.len(),
        fragment_shape(left, base, left.rows.len()),
        fragment_shape(right, b2, right.rows.len()),
        b2 + right.rows.len() + 2 <= usize::MAX + 1,
    ensures
        fragment_reads(either(left, base, right, b2), base, w) == (fragment_reads(left, base, w) || fragment_reads(right, b2, w)),
{
    let f = either(left, base, right, b2);
    let t = f.rows;
    let n = b2 + right.rows.len();
    let fin = (n + 1) as usize;
    let e = (Symbol::Epsilon, fin);
    let la = left.accept;
    let ra = right.accept;
    let ls = left.start;
    let rs = right.start;
    let lr = append_edge(left.rows, la - base, e);
    let rr = append_edge(right.rows, ra - b2, e);
    assert(t == lr + rr + seq![seq![(Symbol::Epsilon, ls), (Symbol::Epsilon, rs)], Seq::<(Symbol, usize)>::empty()]);
    assert forall|u: usize| base <= u < b2 && u != la implies #[trigger] row_at(t, base, u) == row_at(left.rows, base, u) by {
        assert(t[u - base] == lr[u - base]);
    }
    assert forall|u: usize| b2 <= u < n && u != ra implies #[trigger] row_at(t, base, u) == row_at(right.rows, b2, u) by {
        assert(t[u - base] == rr[u - b2]);
    }
    assert(row_at(t, base, la) == seq![e]) by {
        assert(t[la - base] == lr[la - base]);
        assert(left.rows[la - base].push(e) =~= seq![e]);
    }
    assert(row_at(t, base, ra) == seq![e]) by {
        assert(t[ra - base] == rr[ra - b2]);
        assert(right.rows[ra - b2].push(e) =~= seq![e]);
    }
    assert(row_at(t, base, n as usize) == seq![(Symbol::Epsilon, ls), (Symbol::Epsilon, rs)]) by {
        assert(t[n - base] == seq![(Symbol::Epsilon, ls), (Symbol::Epsilon, rs)]);
    }
    assert(row_at(t, base, fin).len() == 0) by {
        assert(t[fin - base] == Seq::<(Symbol, usize)>::empty());
    }
    assert(region_of(left.rows, base, t, base, base, b2, la)) by {
        assert forall|u: usize, q: int| base <= u < b2 && 0 <= q < row_at(left.rows, base, u).len() implies base <= (#[trigger] row_at(left.rows, base, u)[q]).1 < b2 by {
            assert(left.rows[u - base][q] == row_at(left.rows, base, u)[q]);
        }
    }
    assert(region_of(right.rows, b2, t, base, b2, n, ra)) by {
        assert forall|u: usize, q: int| b2 <= u < n && 0 <= q < row_at(right.rows, b2, u).len() implies b2 <= (#[trigger] row_at(right.rows, b2, u)[q]).1 < n by {
            assert(right.rows[u - b2][q] == row_at(right.rows, b2, u)[q]);
        }
    }
    assert(edges_within(left.rows, base, t, base)) by {
        assert forall|u: usize, q: int| 0 <= q < row_at(left.rows, base, u).len() implies #[trigger] row_at(t, base, u).contains(row_at(left.rows, base, u)[q]) by {
            assert(row_at(t, base, u)[q] == row_at(left.rows, base, u)[q]);
        }
    }
    assert(edges_within(right.rows, b2, t, base)) by {
        assert forall|u: usize, q: int| 0 <= q < row_at(right.rows, b2, u).len() implies #[trigger] row_at(t, base, u).contains(row_at(right.rows, b2, u)[q]) by {
            assert(row_at(t, base, u)[q] == row_at(right.rows, b2, u)[q]);
        }
    }
    if fragment_reads(f, base, w) {
        let m = choose|m: nat| #[trigger] walk(t, base, n as usize, w, fin, m);
        lemma_walk_eps_exits(t, base, n as usize, w, fin, m);
        let q = choose|q: int| 0 <= q < row_at(t, base, n as usize).len() && #[trigger] walk(t, base, row_at(t, base, n as usize)[q].1, w, fin, (m - 1) as nat);
        if q == 0 {
            lemma_walk_first_exit(left.rows, base, t, base, base, b2, la, ls, w, fin, (m - 1) as nat);
            let (w1, w2, n2) = choose|w1: Seq<u8>, w2: Seq<u8>, n2: nat| n2 <= m - 1 && w == w1 + w2
                && #[trigger] walks(left.rows, base, ls, w1, la) && #[trigger] walk(t, base, la, w2, fin, n2);
            lemma_walk_eps_exits(t, base, la, w2, fin, n2);
            lemma_walk_stuck(t, base, fin, w2, fin, (n2 - 1) as nat);
            assert(w =~= w1);
        } else {
            lemma_walk_first_exit(right.rows, b2, t, base, b2, n, ra, rs, w, fin, (m - 1) as nat);
            let (w1, w2, n2) = choose|w1: Seq<u8>, w2: Seq<u8>, n2: nat| n2 <= m - 1 && w == w1 + w2
                && #[trigger] walks(right.rows, b2, rs, w1, ra) && #[trigger] walk(t, base, ra, w2, fin, n2);
            lemma_walk_eps_exits(t, base, ra, w2, fin, n2);
            lemma_walk_stuck(t, base, fin, w2, fin, (n2 - 1) as nat);
            assert(w =~= w1);
        }
    }
    if fragment_reads(left, base, w) || fragment_reads(right, b2, w) {
        let (s0, a0, q) = if fragment_reads(left, base, w) {
            lemma_walks_embed(left.rows, base, t, base, ls, w, la);
            (ls, la, 0int)
        } else {
            lemma_walks_embed(right.rows, b2, t, base, rs, w, ra);
            (rs, ra, 1int)
        };
        lemma_walk_edge(t, base, n as usize, q);
        lemma_walk_edge(t, base, a0, 0);
        lemma_walks_compose(t, base, n as usize, Seq::empty(), s0, w, a0);
        lemma_walks_compose(t, base, n as usize, Seq::<u8>::empty() + w, a0, Seq::empty(), fin);
        assert(Seq::<u8>::empty() + w + Seq::<u8>::empty() =~= w);
    }
}

/// The fragment repeating `sub`: its exit leads back to its entry and to a new exit, and a
/// new entry leads to its entry and, for `*`, straight to the new exit.
pub open spec fn repeated(sub: Fragment, base: nat, star: bool) -> Fragment {
    let n = base + sub.rows.len();
    let back = seq![(Symbol::Epsilon, sub.start), (Symbol::Epsilon, (n + 1) as usize)];
    let entry = if star {
        seq![(Symbol::Epsilon, sub.start), (Symbol::Epsilon, (n + 1) as usize)]
    } else {
        seq![(Symbol::Epsilon, sub.start)]
    };
    Fragment {
        rows: sub.rows.update(sub.accept - base, sub.rows[sub.accept - base] + back) + seq![entry, Seq::empty()],
        start: n as usize,
        accept: (n + 1) as usize,
    }
}

/// What the table of a repeated fragment holds, state by state.
proof fn lemma_repeated_rows(sub: Fragment, base: nat, star: bool)
    requires
        fragment_shape(sub, base, sub.rows.len()),
        base + sub.rows.len() + 2 <= usize::MAX + 1,
    ensures
        ({
            let f = repeated(sub, base, star);
            let n = base + sub.rows.len();
            let fin = (n + 1) as usize;
            &&& region_of(sub.rows, base, f.rows, base, base, n, sub.accept)
            &&& edges_within(sub.rows, base, f.rows, base)
            &&& row_at(f.rows, base, sub.accept) == seq![(Symbol::Epsilon, sub.start), (Symbol::Epsilon, fin)]
            &&& row_at(f.rows, base, n as usize) == (if star {
                    seq![(Symbol::Epsilon, sub.start), (Symbol::Epsilon, fin)]
                } else {
                    seq![(Symbol::Epsilon, sub.start)]
                })
            &&& row_at(f.rows, base, fin).len() == 0
        }),
{
    let f = repeated(sub, base, star);
    let t = f.rows;
    let n = base + sub.rows.len();
    let fin = (n + 1) as usize;
    let sa = sub.accept;
    let back = seq![(Symbol::Epsilon, sub.start), (Symbol::Epsilon, fin)];
    let upd = sub.rows.update(sa - base, sub.rows[sa - base] + back);
    assert forall|u: usize| base <= u < n && u != sa implies #[trigger] row_at(t, base, u) == row_at(sub.rows, base, u) by {
        assert(t[u - base] == upd[u - base]);
    }
    assert(row_at(t, base, sa) == back) by {
        assert(t[sa - base] == upd[sa - base]);
        assert(sub.rows[sa - base] + back =~= back);
    }
    assert(t[n - base] == (if star { back } else { seq![(Symbol::Epsilon, sub.start)] }));
    assert(t[fin - base] == Seq::<(Symbol, usize)>::empty());
    assert forall|u: usize, q: int| base <= u < n && 0 <= q < row_at(sub.rows, base, u).len() implies base <= (#[trigger] row_at(sub.rows, base, u)[q]).1 < n by {
        assert(sub.rows[u - base][q] == row_at(sub.rows, base, u)[q]);
    }
    assert forall|u: usize, q: int| 0 <= q < row_at(sub.rows, base, u).len() implies #[trigger] row_at(t, base, u).contains(row_at(sub.rows, base, u)[q]) by {
        assert(row_at(t, base, u)[q] == row_at(sub.rows, base, u)[q]);
    }
}

/// Each of `parts` is a word of `a`.
pub open spec fn each_in_language(a: RegexAst, parts: Seq<Seq<u8>>) -> bool {
    forall|i: int| 0 <= i < parts.len() ==> in_language(a, #[trigger] parts[i])
}

/// Putting a word in front of the parts puts it in front of their concatenation.
proof fn lemma_flatten_cons(x: Seq<u8>, p: Seq<Seq<u8>>)
    ensures
        flatten(seq![x] + p) == x + flatten(p),
{
    let s = seq![x] + p;
    assert(s[0] == x);
    assert(s.drop_first() =~= p);
}

/// From the entry of the repeated fragment, the walks to the new exit read one or more
/// words of the fragment, one after another.
proof fn lemma_loop_reads_parts(sub: Fragment, base: nat, star: bool, a: RegexAst, w: Seq<u8>, m: nat)
    requires
        fragment_shape(sub, base, sub.rows.len()),
        base + sub.rows.len() + 2 <= usize::MAX + 1,
        forall|x: Seq<u8>| #[trigger] fragment_reads(sub, base, x) == in_language(a, x),
        walk(repeated(sub, base, star).rows, base, sub.start, w, (base + sub.rows.len() + 1) as usize, m),
    ensures
        exists|parts: Seq<Seq<u8>>| #[trigger] flatten(parts) == w && parts.len() >= 1 && each_in_language(a, parts),
    decreases m,
{
    lemma_repeated_rows(sub, base, star);
    let t = repeated(sub, base, star).rows;
    let n = base + sub.rows.len();
    let fin = (n + 1) as usize;
    let sa = sub.accept;
    lemma_walk_first_exit(sub.rows, base, t, base, base, n, sa, sub.start, w, fin, m);
    let (w1, w2, n2) = choose|w1: Seq<u8>, w2: Seq<u8>, n2: nat| n2 <= m && w == w1 + w2
        && #[trigger] walks(sub.rows, base, sub.start, w1, sa) && #[trigger] walk(t, base, sa, w2, fin, n2);
    assert(fragment_reads(sub, base, w1));
    assert(in_language(a, w1));
    lemma_walk_eps_exits(t, base, sa, w2, fin, n2);
    let q = choose|q: int| 0 <= q < row_at(t, base, sa).len() && #[trigger] walk(t, base, row_at(t, base, sa)[q].1, w2, fin, (n2 - 1) as nat);
    if q == 0 {
        lemma_loop_reads_parts(sub, base, star, a, w2, (n2 - 1) as nat);
        let p2 = choose|p2: Seq<Seq<u8>>| #[trigger] flatten(p2) == w2 && p2.len() >= 1 && each_in_language(a, p2);
        let parts = seq![w1] + p2;
        lemma_flatten_cons(w1, p2);
        assert forall|i: int| 0 <= i < parts.len() implies in_language(a, #[trigger] parts[i]) by {
            if i > 0 {
                assert(parts[i] == p2[i - 1]);
            }
        }
        assert(flatten(parts) == w);
    } else {
        lemma_walk_stuck(t, base, fin, w2, fin, (n2 - 1) as nat);
        let parts = seq![w1];
        lemma_flatten_cons(w1, Seq::empty());
        assert(seq![w1] + Seq::<Seq<u8>>::empty() =~= parts);
        assert(w1 + Seq::<u8>::empty() =~= w);
        assert(each_in_language(a, parts));
        assert(flatten(parts) == w);
    }
}

/// One or more words of the fragment, one after another, are read from the entry of the
/// repeated fragment to the new exit.
proof fn lemma_parts_loop_reads(sub: Fragment, base: nat, star: bool, a: RegexAst, parts: Seq<Seq<u8>>)
    requires
        fragment_shape(sub, base, sub.rows.len()),
        base + sub.rows.len() + 2 <= usize::MAX + 1,
        forall|x: Seq<u8>| #[trigger] fragment_reads(sub, base, x) == in_language(a, x),
        parts.len() >= 1,
        each_in_language(a, parts),
    ensures
        walks(repeated(sub, base, star).rows, base, sub.start, flatten(parts), (base + sub.rows.len() + 1) as usize),
    decreases parts.len(),
{
    lemma_repeated_rows(sub, base, star);
    let t = repeated(sub, base, star).rows;
    let n = base + sub.rows.len();
    let fin = (n + 1) as usize;
    let sa = sub.accept;
    let u = parts[0];
    let rest = parts.drop_first();
    let x = flatten(rest);
    assert(flatten(parts) == u + x);
    assert(in_language(a, u));
    assert(fragment_reads(sub, base, u));
    lemma_walks_embed(sub.rows, base, t, base, sub.start, u, sa);
    if parts.len() == 1 {
        lemma_walk_edge(t, base, sa, 1);
        lemma_walks_compose(t, base, sub.start, u, sa, Seq::empty(), fin);
        assert(x =~= Seq::<u8>::empty());
        assert(u + Seq::<u8>::empty() =~= u + x);
    } else {
        assert forall|i: int| 0 <= i < rest.len() implies in_language(a, #[trigger] rest[i]) by {
            assert(rest[i] == parts[i + 1]);
        }
        lemma_parts_loop_reads(sub, base, star, a, rest);
        lemma_walk_edge(t, base, sa, 0);
        lemma_walks_compose(t, base, sub.start, u, sa, Seq::empty(), sub.start);
        assert(u + Seq::<u8>::empty() =~= u);
        lemma_walks_compose(t, base, sub.start, u, sub.start, x, fin);
    }
}

/// The repeated fragment reads the concatenations of one or more (for `*`, any number of)
/// words of the fragment.
proof fn lemma_repeated_reads(sub: Fragment, base: nat, star: bool, a: RegexAst, w: Seq<u8>)
    requires
        fragment_shape(sub, base, sub.rows.len()),
        base + sub.rows.len() + 2 <= usize::MAX + 1,
        forall|x: Seq<u8>| #[trigger] fragment_reads(sub, base, x) == in_language(a, x),
    ensures
        fragment_reads(repeated(sub, base, star), base, w)
            == exists|parts: Seq<Seq<u8>>| #[trigger] flatten(parts) == w && (!star ==> parts.len() >= 1) && each_in_language(a, parts),
{
    lemma_repeated_rows(sub, base, star);
    let f = repeated(sub, base, star);
    let t = f.rows;
    let n = (base + sub.rows.len()) as usize;
    let fin = (n + 1) as usize;
    if fragment_reads(f, base, w) {
        let m = choose|m: nat| #[trigger] walk(t, base, n, w, fin, m);
        lemma_walk_eps_exits(t, base, n, w, fin, m);
        let q = choose|q: int| 0 <= q < row_at(t, base, n).len() && #[trigger] walk(t, base, row_at(t, base, n)[q].1, w, fin, (m - 1) as nat);
        if q == 0 {
            lemma_loop_reads_parts(sub, base, star, a, w, (m - 1) as nat);
        } else {
            lemma_walk_stuck(t, base, fin, w, fin, (m - 1) as nat);
            let parts = Seq::<Seq<u8>>::empty();
            assert(flatten(parts) =~= w);
            assert(each_in_language(a, parts));
        }
    }
    if exists|parts: Seq<Seq<u8>>| #[trigger] flatten(parts) == w && (!star ==> parts.len() >= 1) && each_in_language(a, parts) {
        let parts = choose|parts: Seq<Seq<u8>>| #[trigger] flatten(parts) == w && (!star ==> parts.len() >= 1) && each_in_language(a, parts);
        if parts.len() == 0 {
            lemma_walk_edge(t, base, n, 1);
            assert(w =~= Seq::<u8>::empty());
        } else {
            lemma_parts_loop_reads(sub, base, star, a, parts);
            lemma_walk_edge(t, base, n, 0);
            lemma_walks_compose(t, base, n, Seq::empty(), sub.start, w, fin);
            assert(Seq::<u8>::empty() + w =~= w);
        }
    }
}

/// Putting a word after the parts puts it after their concatenation.
proof fn lemma_flatten_push(p: Seq<Seq<u8>>, x: Seq<u8>)
    ensures
        flatten(p.push(x)) == flatten(p) + x,
    decreases p.len(),
{
    if p.len() == 0 {
        assert(p.push(x) =~= seq![x] + Seq::<Seq<u8>>::empty());
        lemma_flatten_cons(x, Seq::empty());
        assert(Seq::<u8>::empty() + x =~= x + Seq::<u8>::empty());
    } else {
        let s = p.push(x);
        assert(s[0] == p[0]);
        assert(s.drop_first() =~= p.drop_first().push(x));
        lemma_flatten_push(p.drop_first(), x);
        assert(p[0] + (flatten(p.drop_first()) + x) =~= (p[0] + flatten(p.drop_first())) + x);
    }
}

/// The fragment of the alternation of the first `k` sub-patterns reads the words of any of
/// them.
proof fn lemma_alternation_reads(v: Seq<RegexAst>, k: nat, base: nat)
    requires
        1 <= k <= v.len(),
        list_error(v, k) is None,
        base + alternation_size(v, k) <= usize::MAX + 1,
    ensures
        forall|w: Seq<u8>| #[trigger] fragment_reads(alternation_fragment(v, k, base), base, w)
            == exists|i: int| 0 <= i < k && in_language(#[trigger] v[i], w),
    decreases v, k,
{
    if k == 1 {
        lemma_thompson_reads(v[0], base);
        assert(alternation_fragment(v, k, base) == thompson(v[0], base));
        assert forall|w: Seq<u8>| #[trigger] fragment_reads(alternation_fragment(v, k, base), base, w)
            == exists|i: int| 0 <= i < k && in_language(#[trigger] v[i], w) by {
            if in_language(v[0], w) {
                assert(0 <= 0 < k && in_language(v[0], w));
            }
            if exists|i: int| 0 <= i < k && in_language(#[trigger] v[i], w) {
                let i = choose|i: int| 0 <= i < k && in_language(#[trigger] v[i], w);
                assert(i == 0);
            }
        }
    } else {
        lemma_list_error_prefix(v, (k - 1) as nat, k);
        lemma_alternation_size_grows_local(v, k);
        lemma_alternation_shape(v, (k - 1) as nat, base);
        lemma_alternation_reads(v, (k - 1) as nat, base);
        let left = alternation_fragment(v, (k - 1) as nat, base);
        let b2 = base + left.rows.len();
        lemma_thompson_shape(v[k - 1], b2);
        lemma_thompson_reads(v[k - 1], b2);
        let right = thompson(v[k - 1], b2);
        assert(alternation_fragment(v, k, base) == either(left, base, right, b2));
        assert forall|w: Seq<u8>| #[trigger] fragment_reads(alternation_fragment(v, k, base), base, w)
            == exists|i: int| 0 <= i < k && in_language(#[trigger] v[i], w) by {
            lemma_either_reads(left, base, right, b2, w);
            if exists|i: int| 0 <= i < k && in_language(#[trigger] v[i], w) {
                let i = choose|i: int| 0 <= i < k && in_language(#[trigger] v[i], w);
                if i < k - 1 {
                    assert(fragment_reads(left, base, w));
                } else {
                    assert(fragment_reads(right, b2, w));
                }
            }
            if fragment_reads(left, base, w) {
                let i = choose|i: int| 0 <= i < k - 1 && in_language(#[trigger] v[i], w);
                assert(0 <= i < k && in_language(v[i], w));
            }
            if fragment_reads(right, b2, w) {
                assert(0 <= k - 1 < k && in_language(v[k - 1], w));
            }
        }
    }
}

/// The alternation of the first `k` sub-patterns is made of the alternation of the first
/// `k - 1` and the last.
proof fn lemma_alternation_size_grows_local(v: Seq<RegexAst>, k: nat)
    requires
        2 <= k <= v.len(),
    ensures
        alternation_size(v, k) == alternation_size(v, (k - 1) as nat) + ast_size(v[k - 1]) + 2,
{
}

/// The fragment of the concatenation of the first `k` sub-patterns reads the words made of
/// one word of each, in order.
proof fn lemma_concat_reads(v: Seq<RegexAst>, k: nat, base: nat)
    requires
        1 <= k <= v.len(),
        list_error(v, k) is None,
        base + concat_size(v, k) <= usize::MAX + 1,
    ensures
        forall|w: Seq<u8>| #[trigger] fragment_reads(concat_fragment(v, k, base), base, w)
            == exists|parts: Seq<Seq<u8>>| #[trigger] flatten(parts) == w && parts.len() == k
                && forall|i: int| 0 <= i < k ==> in_language(#[trigger] v[i], parts[i]),
    decreases v, k,
{
    if k == 1 {
        lemma_thompson_reads(v[0], base);
        assert(concat_fragment(v, k, base) == thompson(v[0], base));
        assert forall|w: Seq<u8>| #[trigger] fragment_reads(concat_fragment(v, k, base), base, w)
            == exists|parts: Seq<Seq<u8>>| #[trigger] flatten(parts) == w && parts.len() == k
                && forall|i: int| 0 <= i < k ==> in_language(#[trigger] v[i], parts[i]) by {
            if in_language(v[0], w) {
                let parts = seq![w];
                lemma_flatten_cons(w, Seq::empty());
                assert(seq![w] + Seq::<Seq<u8>>::empty() =~= parts);
                assert(w + Seq::<u8>::empty() =~= w);
                assert(flatten(parts) == w);
            }
            if exists|parts: Seq<Seq<u8>>| #[trigger] flatten(parts) == w && parts.len() == k
                && forall|i: int| 0 <= i < k ==> in_language(#[trigger] v[i], parts[i]) {
                let parts = choose|parts: Seq<Seq<u8>>| #[trigger] flatten(parts) == w && parts.len() == k
                    && forall|i: int| 0 <= i < k ==> in_language(#[trigger] v[i], parts[i]);
                assert(in_language(v[0], parts[0]));
                assert(parts.drop_first().len() == 0);
                assert(flatten(parts.drop_first()) =~= Seq::<u8>::empty());
                assert(parts[0] + Seq::<u8>::empty() =~= parts[0]);
            }
        }
    } else {
        lemma_list_error_prefix(v, (k - 1) as nat, k);
        lemma_concat_shape(v, (k - 1) as nat, base);
        lemma_concat_reads(v, (k - 1) as nat, base);
        let left = concat_fragment(v, (k - 1) as nat, base);
        let b2 = base + left.rows.len();
        lemma_thompson_shape(v[k - 1], b2);
        lemma_thompson_reads(v[k - 1], b2);
        let right = thompson(v[k - 1], b2);
        assert(concat_fragment(v, k, base) == joined(left, base, right));
        assert forall|w: Seq<u8>| #[trigger] fragment_reads(concat_fragment(v, k, base), base, w)
            == exists|parts: Seq<Seq<u8>>| #[trigger] flatten(parts) == w && parts.len() == k
                && forall|i: int| 0 <= i < k ==> in_language(#[trigger] v[i], parts[i]) by {
            lemma_joined_reads(left, base, right, b2, w);
            if fragment_reads(concat_fragment(v, k, base), base, w) {
                let (u, x) = choose|u: Seq<u8>, x: Seq<u8>| w == u + x && #[trigger] fragment_reads(left, base, u) && #[trigger] fragment_reads(right, b2, x);
                let p = choose|p: Seq<Seq<u8>>| #[trigger] flatten(p) == u && p.len() == k - 1
                    && forall|i: int| 0 <= i < k - 1 ==> in_language(#[trigger] v[i], p[i]);
                let parts = p.push(x);
                lemma_flatten_push(p, x);
                assert forall|i: int| 0 <= i < k implies in_language(#[trigger] v[i], parts[i]) by {
                    if i < k - 1 {
                        assert(parts[i] == p[i]);
                    }
                }
                assert(flatten(parts) == w);
            }
            if exists|parts: Seq<Seq<u8>>| #[trigger] flatten(parts) == w && parts.len() == k
                && forall|i: int| 0 <= i < k ==> in_language(#[trigger] v[i], parts[i]) {
                let parts = choose|parts: Seq<Seq<u8>>| #[trigger] flatten(parts) == w && parts.len() == k
                    && forall|i: int| 0 <= i < k ==> in_language(#[trigger] v[i], parts[i]);
                let p = parts.drop_last();
                let x = parts.last();
                assert(p.push(x) =~= parts);
                lemma_flatten_push(p, x);
                assert forall|i: int| 0 <= i < k - 1 implies in_language(#[trigger] v[i], p[i]) by {
                    assert(p[i] == parts[i]);
                }
                assert(fragment_reads(left, base, flatten(p)));
                assert(in_language(v[k - 1], x));
                assert(fragment_reads(right, b2, x));
            }
        }
    }
}

/// The fragment built for a pattern the construction accepts reads, from its entry to its
/// exit, exactly the words the pattern matches.
pub proof fn lemma_thompson_reads(ast: RegexAst, base: nat)
    requires
        build_error(ast) is None,
        base + ast_size(ast) <= usize::MAX + 1,
    ensures
        forall|w: Seq<u8>| #[trigger] fragment_reads(thompson(ast, base), base, w) == in_language(ast, w),
    decreases ast, 0nat,
{
    lemma_thompson_shape(ast, base);
    match ast {
        RegexAst::Empty => {
            assert forall|w: Seq<u8>| #[trigger] fragment_reads(thompson(ast, base), base, w) == in_language(ast, w) by {
                lemma_two_state_fragment(thompson(ast, base), base, Symbol::Epsilon, w);
            }
        },
        RegexAst::Literal(c) => {
            let f = thompson(ast, base);
            assert(f.rows =~= seq![seq![(Symbol::Byte(c as u8), (base + 1) as usize)], Seq::<(Symbol, usize)>::empty()]) by {
                assert(f.rows[0] == seq![(Symbol::Byte(c as u8), (base + 1) as usize)]);
                assert(f.rows[1] == Seq::<(Symbol, usize)>::empty());
            }
            assert forall|w: Seq<u8>| #[trigger] fragment_reads(thompson(ast, base), base, w) == in_language(ast, w) by {
                lemma_two_state_fragment(f, base, Symbol::Byte(c as u8), w);
            }
        },
        RegexAst::Group(a) => {
            lemma_thompson_reads(*a, base);
            assert forall|w: Seq<u8>| #[trigger] fragment_reads(thompson(ast, base), base, w) == in_language(ast, w) by {
                assert(fragment_reads(thompson(*a, base), base, w) == in_language(*a, w));
            }
        },
        RegexAst::Repetition(kind, a) => {
            lemma_thompson_reads(*a, base);
            lemma_thompson_shape(*a, base);
            let sub = thompson(*a, base);
            let star = kind == RepeatKind::ZeroOrMore;
            assert(thompson(ast, base) == repeated(sub, base, star));
            assert forall|w: Seq<u8>| #[trigger] fragment_reads(thompson(ast, base), base, w) == in_language(ast, w) by {
                lemma_repeated_reads(sub, base, star, *a, w);
                if in_language(ast, w) {
                    let parts = choose|parts: Seq<Seq<u8>>| #[trigger] flatten(parts) == w
                        && (kind == RepeatKind::OneOrMore ==> parts.len() >= 1)
                        && forall|i: int| 0 <= i < parts.len() ==> in_language(*a, #[trigger] parts[i]);
                    assert(each_in_language(*a, parts));
                }
                if fragment_reads(thompson(ast, base), base, w) {
                    let parts = choose|parts: Seq<Seq<u8>>| #[trigger] flatten(parts) == w && (!star ==> parts.len() >= 1) && each_in_language(*a, parts);
                    assert(forall|i: int| 0 <= i < parts.len() ==> in_language(*a, #[trigger] parts[i]));
                }
            }
        },
        RegexAst::Alternation(v) => {
            lemma_alternation_reads(v@, v@.len(), base);
            assert forall|w: Seq<u8>| #[trigger] fragment_reads(thompson(ast, base), base, w) == in_language(ast, w) by {
                assert(fragment_reads(alternation_fragment(v@, v@.len(), base), base, w)
                    == exists|i: int| 0 <= i < v@.len() && in_language(#[trigger] v@[i], w));
            }
        },
        RegexAst::Concat(v) => {
            lemma_concat_reads(v@, v@.len(), base);
            assert forall|w: Seq<u8>| #[trigger] fragment_reads(thompson(ast, base), base, w) == in_language(ast, w) by {
                if in_language(ast, w) {
                    let parts = choose|parts: Seq<Seq<u8>>| #[trigger] flatten(parts) == w && parts.len() == v@.len()
                        && forall|i: int| 0 <= i < parts.len() ==> in_language(#[trigger] v@[i], parts[i]);
                    assert(forall|i: int| 0 <= i < v@.len() ==> in_language(#[trigger] v@[i], parts[i]));
                    assert(fragment_reads(concat_fragment(v@, v@.len(), base), base, w));
                }
                if fragment_reads(thompson(ast, base), base, w) {
                    assert(fragment_reads(concat_fragment(v@, v@.len(), base), base, w));
                    let parts = choose|parts: Seq<Seq<u8>>| #[trigger] flatten(parts) == w && parts.len() == v@.len()
                        && forall|i: int| 0 <= i < v@.len() ==> in_language(#[trigger] v@[i], parts[i]);
                    assert(forall|i: int| 0 <= i < parts.len() ==> in_language(#[trigger] v@[i], parts[i]));
                }
            }
        },
        _ => {},
    }
}

} // verus!
