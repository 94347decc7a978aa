//! What reading gives back of what writing wrote: the statements of the DOT text of an
//! automaton read back as the automaton it was written from.
use vstd::prelude::*;
use crate::automaton::{Automaton, targets_in_range};
use crate::dot::{DotAttribute, DotEdgeTy, DotGraph, DotId, DotReading, DotStmt, DotVertex, dot_reading, read_stmts,
    stmt_step, meet_node, node_attributes, attribute_step, name_id, with_name, grown, node_name, unquoted, edge_label,
    trimmed_quotes, lemma_name_id_at};
use crate::automaton::transitions_of;
use crate::dfa::Dfa;
use crate::dot::{graphviz_parse, parse_failure};
use crate::dot_automata::{enfa_from_dot_outcome, nfa_from_dot_outcome, dfa_from_dot_outcome, has_repeated_label, lacks_move};
use crate::dot_text::dot_text;
use crate::epsilon_nfa::{EpsilonNfa, Symbol, is_graphic, hex_char, encode_symbol, lemma_symbol_text_round_trip};
use crate::nfa::{Nfa, byte_labels};
use crate::text::{decimal, lemma_decimal_injective, lemma_decimal_first};

verus! {

/// `id` is the plain identifier `s`.
pub open spec fn plain_id(id: DotId, s: Seq<char>) -> bool {
    id matches DotId::Plain(x) && x@ == s
}

/// `x` is the attribute `key=value`, both plain identifiers.
pub open spec fn plain_attribute(x: DotAttribute, key: Seq<char>, value: Seq<char>) -> bool {
    plain_id(x.0, key) && plain_id(x.1, value)
}

/// The attributes written for a node: `isInitial=true` for the start state, then
/// `isAccepting=true` for an accepting state.
pub open spec fn written_attributes(attrs: Seq<DotAttribute>, initial: bool, accepting: bool) -> bool {
    if initial && accepting {
        attrs.len() == 2 && plain_attribute(attrs[0], "isInitial"@, "true"@) && plain_attribute(attrs[1], "isAccepting"@, "true"@)
    } else if initial {
        attrs.len() == 1 && plain_attribute(attrs[0], "isInitial"@, "true"@)
    } else if accepting {
        attrs.len() == 1 && plain_attribute(attrs[0], "isAccepting"@, "true"@)
    } else {
        attrs.len() == 0
    }
}

/// `s` is the statement written for state `i` of `a`: the node named by its numeral, with
/// its attributes.
pub open spec fn written_node<A: Automaton>(a: &A, s: DotStmt, i: nat) -> bool {
    s matches DotStmt::Node(id, attrs) && plain_id(id, decimal(i))
        && written_attributes(attrs@, a.spec_start() == i, a.spec_accepting().contains(i as usize))
}

/// `s` is the statement written for the transition `e` leaving state `from`: an edge between
/// the numerals of its ends, labelled by the quoted text of its label.
pub open spec fn written_edge<A: Automaton>(s: DotStmt, from: nat, e: (A::Label, usize)) -> bool {
    s matches DotStmt::Edge(DotEdgeTy::Pair(DotVertex::Node(x), DotVertex::Node(y)), attrs)
        && (plain_id(x, decimal(from)) && plain_id(y, decimal(e.1 as nat))
        && attrs@.len() == 1 && plain_id(attrs@[0].0, "label"@)
        && escaped_id(attrs@[0].1, seq!['"'] + A::spec_encode(e.0) + seq!['"']))
}

/// `id` is the quoted identifier `s`, quotes included.
pub open spec fn escaped_id(id: DotId, s: Seq<char>) -> bool {
    id matches DotId::Escaped(x) && x@ == s
}

/// Number of transitions of the first `f` states.
pub open spec fn edge_offset<L>(t: Seq<Seq<(L, usize)>>, f: nat) -> nat
    decreases f,
{
    if f == 0 || f > t.len() {
        0
    } else {
        edge_offset(t, (f - 1) as nat) + t[f - 1].len()
    }
}

/// `g` is the graph the DOT text of `a` describes: the `rankdir` attribute statement, a
/// node statement per state in order, then an edge statement per transition, state by
/// state and in the order of each row.
pub open spec fn writes_graph<A: Automaton>(a: &A, g: DotGraph) -> bool {
    let t = a.spec_transitions();
    let n = t.len();
    g matches DotGraph::DiGraph(stmts) && {
        &&& stmts@.len() == 1 + n + edge_offset(t, n)
        &&& stmts@[0] is Attribute
        &&& forall|i: int| 0 <= i < n ==> written_node(a, #[trigger] stmts@[1 + i], i as nat)
        &&& forall|f: int, j: int| 0 <= f < n && 0 <= j < t[f].len()
            ==> written_edge::<A>(stmts@[1 + n + edge_offset(t, f as nat) + j], f as nat, #[trigger] t[f][j])
    }
}

/// The label `l`, written quoted and read back with its quotes trimmed, decodes to itself.
pub open spec fn label_reads_back<A: Automaton>(l: A::Label) -> bool {
    A::spec_decode(trimmed_quotes(seq!['"'] + A::spec_encode(l) + seq!['"'])) == Some(l)
}

/// The numerals of the first `k` states.
pub open spec fn numerals(k: nat) -> Seq<Seq<char>> {
    Seq::new(k, |i: int| decimal(i as nat))
}

/// The reading once the node statements of the first `k` states are read.
spec fn nodes_read<A: Automaton>(a: &A, k: nat) -> DotReading<A::Label> {
    DotReading {
        names: numerals(k),
        start: if a.spec_start() < k { Some(a.spec_start()) } else { None },
        accepting: Set::new(|x: usize| x < k && a.spec_accepting().contains(x)),
        rows: Seq::new(k, |i: int| Seq::<(A::Label, usize)>::empty()),
    }
}

/// The reading once every node statement is read, with the transitions of the states
/// before `f` and the first `j` of state `f`.
spec fn edges_read<A: Automaton>(a: &A, f: nat, j: nat) -> DotReading<A::Label> {
    let t = a.spec_transitions();
    let n = t.len();
    DotReading {
        names: numerals(n),
        start: Some(a.spec_start()),
        accepting: Set::new(|x: usize| x < n && a.spec_accepting().contains(x)),
        rows: Seq::new(n, |i: int| if i < f { t[i] } else if i == f { t[i].take(j as int) } else { Seq::empty() }),
    }
}

/// The numerals are all different.
proof fn lemma_numerals_distinct(k: nat)
    ensures
        numerals(k).no_duplicates(),
        forall|m: nat| m >= k ==> !#[trigger] numerals(k).contains(decimal(m)),
{
    assert forall|p: int, q: int| 0 <= p < q < numerals(k).len() implies numerals(k)[p] != numerals(k)[q] by {
        if numerals(k)[p] == numerals(k)[q] {
            lemma_decimal_injective(p as nat, q as nat);
        }
    }
    assert forall|m: nat| m >= k implies !#[trigger] numerals(k).contains(decimal(m)) by {
        if numerals(k).contains(decimal(m)) {
            let p = choose|p: int| 0 <= p < numerals(k).len() && numerals(k)[p] == decimal(m);
            lemma_decimal_injective(p as nat, m);
        }
    }
}

/// A numeral names its node: quotes are not stripped from it.
proof fn lemma_numeral_name(id: DotId, i: nat)
    requires
        plain_id(id, decimal(i)),
    ensures
        node_name(id) == Some(decimal(i)),
{
    lemma_decimal_first(i);
}

/// Reading one statement more.
proof fn lemma_read_one_more<A: Automaton>(st: DotReading<A::Label>, stmts: Seq<DotStmt>, p: int)
    requires
        0 <= p < stmts.len(),
    ensures
        read_stmts::<A>(st, stmts.take(p + 1)) == match read_stmts::<A>(st, stmts.take(p)) {
            Ok(s1) => stmt_step::<A>(s1, stmts[p]),
            Err(m) => Err(m),
        },
{
    assert(stmts.take(p + 1).drop_last() =~= stmts.take(p));
    assert(stmts.take(p + 1).last() == stmts[p]);
}

/// Reading the statement of node `k` records it.
proof fn lemma_node_step<A: Automaton>(a: &A, s: DotStmt, k: nat)
    requires
        written_node(a, s, k),
        k + 1 < usize::MAX,
    ensures
        stmt_step::<A>(nodes_read(a, k), s) == Ok::<DotReading<A::Label>, Seq<char>>(nodes_read(a, k + 1)),
{
    let st = nodes_read(a, k);
    let (id, attrs) = match s {
        DotStmt::Node(id, attrs) => (id, attrs),
        _ => arbitrary(),
    };
    lemma_numeral_name(id, k);
    lemma_numerals_distinct(k);
    assert(!st.names.contains(decimal(k)));
    assert(name_id(st.names, decimal(k)) == k);
    let s1 = DotReading { names: with_name(st.names, decimal(k)), start: st.start, accepting: st.accepting, rows: grown(st.rows, k) };
    assert(meet_node(st, decimal(k)) == Ok::<(DotReading<A::Label>, usize), Seq<char>>((s1, k as usize)));
    assert(s1.names =~= numerals(k + 1));
    assert(s1.rows =~= Seq::new(k + 1, |i: int| Seq::<(A::Label, usize)>::empty()));
    let initial = a.spec_start() == k;
    let accepting = a.spec_accepting().contains(k as usize);
    let target = nodes_read(a, k + 1);
    reveal_strlit("isInitial");
    reveal_strlit("isAccepting");
    reveal_strlit("true");
    assert("isAccepting"@ != "isInitial"@) by {
        assert("isAccepting"@.len() != "isInitial"@.len());
    }
    reveal_with_fuel(node_attributes, 3);
    let at = attrs@;
    assert(at.take(0) =~= Seq::<DotAttribute>::empty());
    if initial && accepting {
        assert(at.drop_last().drop_last() =~= Seq::<DotAttribute>::empty());
        assert(at.drop_last().last() == at[0]);
        let s2 = DotReading { names: s1.names, start: Some(k as usize), accepting: s1.accepting, rows: s1.rows };
        assert(attribute_step(s1, k as usize, at[0]) == Ok::<DotReading<A::Label>, Seq<char>>(s2));
        let s3 = DotReading { names: s1.names, start: Some(k as usize), accepting: s1.accepting.insert(k as usize), rows: s1.rows };
        assert(attribute_step(s2, k as usize, at[1]) == Ok::<DotReading<A::Label>, Seq<char>>(s3));
        assert(node_attributes(s1, k as usize, at) == Ok::<DotReading<A::Label>, Seq<char>>(s3));
        assert(s3 =~= target);
    } else if initial {
        assert(at.drop_last() =~= Seq::<DotAttribute>::empty());
        let s2 = DotReading { names: s1.names, start: Some(k as usize), accepting: s1.accepting, rows: s1.rows };
        assert(attribute_step(s1, k as usize, at[0]) == Ok::<DotReading<A::Label>, Seq<char>>(s2));
        assert(node_attributes(s1, k as usize, at) == Ok::<DotReading<A::Label>, Seq<char>>(s2));
        assert(s2 =~= target);
    } else if accepting {
        assert(at.drop_last() =~= Seq::<DotAttribute>::empty());
        let s2 = DotReading { names: s1.names, start: s1.start, accepting: s1.accepting.insert(k as usize), rows: s1.rows };
        assert(attribute_step(s1, k as usize, at[0]) == Ok::<DotReading<A::Label>, Seq<char>>(s2));
        assert(node_attributes(s1, k as usize, at) == Ok::<DotReading<A::Label>, Seq<char>>(s2));
        assert(s2 =~= target);
    } else {
        assert(node_attributes(s1, k as usize, at) == Ok::<DotReading<A::Label>, Seq<char>>(s1));
        assert(s1 =~= target);
    }
}

/// Reading the statement of the `j`-th transition of state `f` records it.
proof fn lemma_edge_step<A: Automaton>(a: &A, s: DotStmt, f: nat, j: nat)
    requires
        f < a.spec_transitions().len(),
        j < a.spec_transitions()[f as int].len(),
        written_edge::<A>(s, f, a.spec_transitions()[f as int][j as int]),
        targets_in_range(a.spec_transitions()),
        a.spec_transitions().len() < usize::MAX,
        label_reads_back::<A>(a.spec_transitions()[f as int][j as int].0),
    ensures
        stmt_step::<A>(edges_read(a, f, j), s) == Ok::<DotReading<A::Label>, Seq<char>>(edges_read(a, f, j + 1)),
{
    let t = a.spec_transitions();
    let n = t.len();
    let e = t[f as int][j as int];
    let to = e.1;
    assert(to < n);
    let st = edges_read(a, f, j);
    let (x, y, attrs) = match s {
        DotStmt::Edge(DotEdgeTy::Pair(DotVertex::Node(x), DotVertex::Node(y)), attrs) => (x, y, attrs),
        _ => arbitrary(),
    };
    lemma_numeral_name(x, f);
    lemma_numeral_name(y, to as nat);
    lemma_numerals_distinct(n);
    lemma_name_id_at(numerals(n), f as int);
    lemma_name_id_at(numerals(n), to as int);
    assert(numerals(n)[f as int] == decimal(f));
    assert(numerals(n)[to as int] == decimal(to as nat));
    assert(st.names.contains(decimal(f)));
    assert(st.names.contains(decimal(to as nat)));
    assert(meet_node(st, decimal(f)) == Ok::<(DotReading<A::Label>, usize), Seq<char>>((st, f as usize)));
    assert(meet_node(st, decimal(to as nat)) == Ok::<(DotReading<A::Label>, usize), Seq<char>>((st, to)));
    reveal_strlit("label");
    assert(edge_label(attrs@) == Some(trimmed_quotes(seq!['"'] + A::spec_encode(e.0) + seq!['"'])));
    let next = edges_read(a, f, j + 1);
    assert(t[f as int].take(j as int).push(e) =~= t[f as int].take(j + 1 as int));
    assert(st.rows.update(f as int, st.rows[f as int].push((e.0, to))) =~= next.rows);
}

/// The reading that nothing has been read into.
spec fn empty_reading<L>() -> DotReading<L> {
    DotReading { names: Seq::empty(), start: None, accepting: Set::empty(), rows: Seq::empty() }
}

/// Reading the node statements of the first `k` states.
proof fn lemma_nodes_phase<A: Automaton>(a: &A, stmts: Seq<DotStmt>, k: nat)
    requires
        k <= a.spec_transitions().len(),
        a.spec_transitions().len() < usize::MAX,
        stmts.len() >= 1 + a.spec_transitions().len(),
        stmts[0] is Attribute,
        forall|i: int| 0 <= i < a.spec_transitions().len() ==> written_node(a, #[trigger] stmts[1 + i], i as nat),
    ensures
        read_stmts::<A>(empty_reading(), stmts.take(1 + k as int)) == Ok::<DotReading<A::Label>, Seq<char>>(nodes_read(a, k)),
    decreases k,
{
    if k == 0 {
        assert(stmts.take(0) =~= Seq::<DotStmt>::empty());
        lemma_read_one_more::<A>(empty_reading(), stmts, 0);
        assert(nodes_read(a, 0) =~= empty_reading());
    } else {
        lemma_nodes_phase(a, stmts, (k - 1) as nat);
        lemma_read_one_more::<A>(empty_reading(), stmts, k as int);
        lemma_node_step(a, stmts[1 + (k - 1)], (k - 1) as nat);
    }
}

/// Counts of transitions grow with the number of states counted.
proof fn lemma_offset_grows<L>(t: Seq<Seq<(L, usize)>>, f: nat, g: nat)
    requires
        f <= g <= t.len(),
    ensures
        edge_offset(t, f) <= edge_offset(t, g),
    decreases g,
{
    if f < g {
        lemma_offset_grows(t, f, (g - 1) as nat);
    }
}

/// Reading the statements of the first `j` transitions of state `f`, after those of the
/// states before it.
proof fn lemma_row_phase<A: Automaton>(a: &A, stmts: Seq<DotStmt>, f: nat, j: nat)
    requires
        f < a.spec_transitions().len(),
        j <= a.spec_transitions()[f as int].len(),
        a.spec_transitions().len() < usize::MAX,
        targets_in_range(a.spec_transitions()),
        stmts.len() == 1 + a.spec_transitions().len() + edge_offset(a.spec_transitions(), a.spec_transitions().len()),
        forall|g: int, q: int| 0 <= g < a.spec_transitions().len() && 0 <= q < a.spec_transitions()[g].len()
            ==> written_edge::<A>(stmts[1 + a.spec_transitions().len() + edge_offset(a.spec_transitions(), g as nat) + q], g as nat, #[trigger] a.spec_transitions()[g][q]),
        forall|g: int, q: int| 0 <= g < a.spec_transitions().len() && 0 <= q < a.spec_transitions()[g].len()
            ==> label_reads_back::<A>(#[trigger] a.spec_transitions()[g][q].0),
        read_stmts::<A>(empty_reading(), stmts.take((1 + a.spec_transitions().len() + edge_offset(a.spec_transitions(), f)) as int))
            == Ok::<DotReading<A::Label>, Seq<char>>(edges_read(a, f, 0)),
    ensures
        read_stmts::<A>(empty_reading(), stmts.take((1 + a.spec_transitions().len() + edge_offset(a.spec_transitions(), f) + j) as int))
            == Ok::<DotReading<A::Label>, Seq<char>>(edges_read(a, f, j)),
    decreases j,
{
    let t = a.spec_transitions();
    let n = t.len();
    if j > 0 {
        lemma_row_phase(a, stmts, f, (j - 1) as nat);
        let p = 1 + n + edge_offset(t, f) + j - 1;
        lemma_offset_grows(t, (f + 1) as nat, n);
        assert(edge_offset(t, (f + 1) as nat) == edge_offset(t, f) + t[f as int].len());
        lemma_read_one_more::<A>(empty_reading(), stmts, p);
        let e = t[f as int][j - 1];
        assert(written_edge::<A>(stmts[p], f, e));
        assert(label_reads_back::<A>(e.0));
        lemma_edge_step(a, stmts[p], f, (j - 1) as nat);
    }
}

/// Reading every node statement, then the transition statements of the states before `f`.
proof fn lemma_rows_phase<A: Automaton>(a: &A, stmts: Seq<DotStmt>, f: nat)
    requires
        f <= a.spec_transitions().len(),
        a.spec_transitions().len() < usize::MAX,
        a.spec_start() < a.spec_transitions().len(),
        targets_in_range(a.spec_transitions()),
        stmts.len() == 1 + a.spec_transitions().len() + edge_offset(a.spec_transitions(), a.spec_transitions().len()),
        stmts[0] is Attribute,
        forall|i: int| 0 <= i < a.spec_transitions().len() ==> written_node(a, #[trigger] stmts[1 + i], i as nat),
        forall|g: int, q: int| 0 <= g < a.spec_transitions().len() && 0 <= q < a.spec_transitions()[g].len()
            ==> written_edge::<A>(stmts[1 + a.spec_transitions().len() + edge_offset(a.spec_transitions(), g as nat) + q], g as nat, #[trigger] a.spec_transitions()[g][q]),
        forall|g: int, q: int| 0 <= g < a.spec_transitions().len() && 0 <= q < a.spec_transitions()[g].len()
            ==> label_reads_back::<A>(#[trigger] a.spec_transitions()[g][q].0),
    ensures
        read_stmts::<A>(empty_reading(), stmts.take((1 + a.spec_transitions().len() + edge_offset(a.spec_transitions(), f)) as int))
            == Ok::<DotReading<A::Label>, Seq<char>>(edges_read(a, f, 0)),
    decreases f,
{
    let t = a.spec_transitions();
    let n = t.len();
    if f == 0 {
        lemma_nodes_phase(a, stmts, n);
        assert(edges_read(a, 0, 0).rows =~= nodes_read(a, n).rows) by {
            assert forall|i: int| 0 <= i < n implies edges_read(a, 0, 0).rows[i] == nodes_read(a, n).rows[i] by {
                assert(t[i].take(0) =~= Seq::<(A::Label, usize)>::empty());
            }
        }
        assert(edges_read(a, 0, 0) =~= nodes_read(a, n));
    } else {
        let g = (f - 1) as nat;
        lemma_rows_phase(a, stmts, g);
        lemma_row_phase(a, stmts, g, t[g as int].len());
        assert(edge_offset(t, f) == edge_offset(t, g) + t[g as int].len());
        assert(t[g as int].take(t[g as int].len() as int) =~= t[g as int]);
        assert(edges_read(a, g, t[g as int].len()).rows =~= edges_read(a, f, 0).rows) by {
            assert forall|i: int| 0 <= i < n implies edges_read(a, g, t[g as int].len()).rows[i] == edges_read(a, f, 0).rows[i] by {
                if i == f {
                    assert(t[i].take(0) =~= Seq::<(A::Label, usize)>::empty());
                }
            }
        }
        assert(edges_read(a, g, t[g as int].len()) =~= edges_read(a, f, 0));
    }
}

/// Reading the graph that the DOT text of an automaton describes gives back its states,
/// transitions, start state and accepting states, where every label reads back as itself,
/// the automaton has an accepting state, and its states can be numbered.
pub proof fn lemma_dot_reads_back<A: Automaton>(a: &A, g: DotGraph)
    requires
        writes_graph(a, g),
        a.spec_transitions().len() < usize::MAX,
        a.spec_start() < a.spec_transitions().len(),
        targets_in_range(a.spec_transitions()),
        forall|x: usize| #[trigger] a.spec_accepting().contains(x) ==> x < a.spec_transitions().len(),
        exists|x: usize| #[trigger] a.spec_accepting().contains(x),
        forall|i: int, q: int| 0 <= i < a.spec_transitions().len() && 0 <= q < a.spec_transitions()[i].len()
            ==> label_reads_back::<A>(#[trigger] a.spec_transitions()[i][q].0),
    ensures
        dot_reading::<A>(Seq::empty(), g) == Ok::<DotReading<A::Label>, Seq<char>>(DotReading {
            names: numerals(a.spec_transitions().len()),
            start: Some(a.spec_start()),
            accepting: a.spec_accepting(),
            rows: a.spec_transitions(),
        }),
{
    let t = a.spec_transitions();
    let n = t.len();
    let stmts = match g {
        DotGraph::DiGraph(v) => v@,
        _ => arbitrary(),
    };
    lemma_rows_phase(a, stmts, n);
    assert(stmts.take(stmts.len() as int) =~= stmts);
    let fin = edges_read(a, n, 0);
    assert(fin.rows =~= t);
    assert(fin.accepting =~= a.spec_accepting());
    assert(empty_reading::<A::Label>() == (DotReading::<A::Label> { names: Seq::empty(), start: None, accepting: Set::empty(), rows: Seq::empty() }));
    let x = choose|x: usize| #[trigger] a.spec_accepting().contains(x);
    assert(fin.accepting.contains(x));
    assert(fin.accepting != Set::<usize>::empty());
}

/// A byte whose text DOT carries inside quotes unchanged: any byte but the double quote,
/// which is written as itself and so closes the quotes.
pub open spec fn plain_byte(b: u8) -> bool {
    b != 0x22
}

/// An epsilon-NFA label whose text DOT carries inside quotes unchanged: epsilon, or a plain
/// byte.
pub open spec fn plain_symbol(l: Symbol) -> bool {
    match l {
        Symbol::Epsilon => true,
        Symbol::Byte(b) => plain_byte(b),
    }
}

/// A text that neither starts nor ends with a double quote comes out of its quotes unchanged.
proof fn lemma_quoted_text(t: Seq<char>)
    requires
        t.len() >= 1,
        t[0] != '"',
        t.last() != '"',
    ensures
        trimmed_quotes(seq!['"'] + t + seq!['"']) == t,
{
    let q = seq!['"'] + t + seq!['"'];
    assert(q.drop_first() =~= t + seq!['"']);
    assert((t + seq!['"']).drop_last() =~= t);
    reveal_with_fuel(trimmed_quotes, 3);
}

/// The text of a plain label neither starts nor ends with a double quote.
proof fn lemma_symbol_text_unquoted(l: Symbol)
    requires
        plain_symbol(l),
    ensures
        encode_symbol(l).len() >= 1,
        encode_symbol(l)[0] != '"',
        encode_symbol(l).last() != '"',
{
    if let Symbol::Byte(b) = l {
        if is_graphic(b) {
            let c = b as char;
            assert(c as u32 == b as u32);
        } else {
            reveal_hex_char((b % 16) as nat);
        }
    }
}

/// A hexadecimal digit is no double quote.
proof fn reveal_hex_char(d: nat)
    requires
        d < 16,
    ensures
        hex_char(d) != '"',
{
}

/// The plain labels of an epsilon-NFA, written in quotes, read back as themselves.
pub proof fn lemma_symbol_reads_back(l: Symbol)
    requires
        plain_symbol(l),
    ensures
        label_reads_back::<EpsilonNfa>(l),
{
    lemma_symbol_text_unquoted(l);
    lemma_quoted_text(encode_symbol(l));
    lemma_symbol_text_round_trip(l);
}

/// The plain byte labels of an NFA or a DFA, written in quotes, read back as themselves.
pub proof fn lemma_byte_reads_back(b: u8)
    requires
        plain_byte(b),
    ensures
        label_reads_back::<Nfa>(b),
        label_reads_back::<Dfa>(b),
{
    lemma_symbol_reads_back(Symbol::Byte(b));
}

/// The DOT text of an epsilon-NFA reads back as the same automaton (over the bytes its
/// edges read), unless the parser fails: where the graph the grammar gives for the text is
/// the one the text was written from, no edge reads a double quote, and the states can be
/// numbered.
pub proof fn lemma_enfa_dot_round_trip(a: &EpsilonNfa, r: crate::errors::Result<EpsilonNfa>)
    requires
        a.well_formed(),
        a.accept < a.states@.len(),
        a.states@.len() < usize::MAX,
        forall|i: int, q: int| 0 <= i < a.states@.len() && 0 <= q < transitions_of(a.states@)[i].len()
            ==> plain_symbol((#[trigger] transitions_of(a.states@)[i][q]).0),
        graphviz_parse(dot_text(a)) matches Some(g) && writes_graph(a, g),
        enfa_from_dot_outcome(dot_text(a), r),
    ensures
        parse_failure(r) || (r matches Ok(b) && transitions_of(b.states@) == transitions_of(a.states@) && b.start == a.start
            && b.accept == a.accept),
{
    let t = transitions_of(a.states@);
    let g = graphviz_parse(dot_text(a))->Some_0;
    assert forall|i: int, q: int| 0 <= i < t.len() && 0 <= q < t[i].len() implies label_reads_back::<EpsilonNfa>(#[trigger] t[i][q].0) by {
        lemma_symbol_reads_back(t[i][q].0);
    }
    assert(a.spec_accepting().contains(a.accept));
    lemma_dot_reads_back(a, g);
    assert(set![a.accept].len() == 1);
}

/// The DOT text of an NFA reads back as the same automaton (over the bytes its edges read),
/// unless the parser fails: where the graph the grammar gives for the text is the one the
/// text was written from, the NFA has an accepting state, no edge reads a double quote, and
/// the states can be numbered.
pub proof fn lemma_nfa_dot_round_trip(a: &Nfa, r: crate::errors::Result<Nfa>)
    requires
        a.well_formed(),
        a.accept_in_range(),
        a.accept@.len() > 0,
        a.states@.len() < usize::MAX,
        forall|i: int, q: int| 0 <= i < a.states@.len() && 0 <= q < a.trans()[i].len()
            ==> plain_byte(#[trigger] a.trans()[i][q].0),
        graphviz_parse(dot_text(a)) matches Some(g) && writes_graph(a, g),
        nfa_from_dot_outcome(dot_text(a), r),
    ensures
        parse_failure(r) || (r matches Ok(b) && transitions_of(b.states@) == transitions_of(a.states@) && b.start == a.start
            && b.accept@.to_set() == a.accept@.to_set()),
{
    let t = a.trans();
    let g = graphviz_parse(dot_text(a))->Some_0;
    assert forall|i: int, q: int| 0 <= i < t.len() && 0 <= q < t[i].len() implies label_reads_back::<Nfa>(#[trigger] t[i][q].0) by {
        lemma_byte_reads_back(t[i][q].0);
    }
    assert forall|x: usize| #[trigger] a.spec_accepting().contains(x) implies x < t.len() by {
        let p = choose|p: int| 0 <= p < a.accept@.len() && a.accept@[p] == x;
    }
    assert(a.spec_accepting().contains(a.accept@[0]));
    lemma_dot_reads_back(a, g);
}

/// The DOT text of a DFA reads back as the same automaton (over the bytes its edges read),
/// unless the parser fails: where the graph the grammar gives for the text is the one the
/// text was written from, the DFA has an accepting state, no state has two transitions on
/// one byte nor lacks one on a byte that some edge reads, no edge reads a double quote, and
/// the states can be numbered.
pub proof fn lemma_dfa_dot_round_trip(a: &Dfa, r: crate::errors::Result<Dfa>)
    requires
        a.well_formed(),
        a.accept_in_range(),
        a.accept@.len() > 0,
        a.states@.len() < usize::MAX,
        !has_repeated_label(a.trans()),
        !lacks_move(a.trans(), byte_labels(a.trans())),
        forall|i: int, q: int| 0 <= i < a.states@.len() && 0 <= q < a.trans()[i].len()
            ==> plain_byte(#[trigger] a.trans()[i][q].0),
        graphviz_parse(dot_text(a)) matches Some(g) && writes_graph(a, g),
        dfa_from_dot_outcome(dot_text(a), r),
    ensures
        parse_failure(r) || (r matches Ok(b) && transitions_of(b.states@) == transitions_of(a.states@) && b.start == a.start
            && b.accept@.to_set() == a.accept@.to_set()),
{
    let t = a.trans();
    let g = graphviz_parse(dot_text(a))->Some_0;
    assert forall|i: int, q: int| 0 <= i < t.len() && 0 <= q < t[i].len() implies label_reads_back::<Dfa>(#[trigger] t[i][q].0) by {
        lemma_byte_reads_back(t[i][q].0);
    }
    assert forall|x: usize| #[trigger] a.spec_accepting().contains(x) implies x < t.len() by {
        let p = choose|p: int| 0 <= p < a.accept@.len() && a.accept@[p] == x;
    }
    assert(a.spec_accepting().contains(a.accept@[0]));
    lemma_dot_reads_back(a, g);
}

} // verus!
