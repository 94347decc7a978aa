//! Reading and writing each kind of automaton as DOT text.
use vstd::prelude::*;
use std::collections::HashSet;
use crate::automaton::{State, Automaton, transitions_of, targets_in_range};
use crate::dot::{DotReading, dot_reading, read_stmts, stmt_step, meet_node, node_attributes, attribute_step,
    name_id, with_name, grown, graphviz_parse, parse_dot, parse_error, read_dot_graph, parse_failure, DotGraph};
use crate::dot_text::{dot_text, to_dot};
use crate::dfa::Dfa;
use crate::epsilon_nfa::{EpsilonNfa, Symbol};
use crate::errors::{Error, Result};
use crate::nfa::{Nfa, byte_labels};
use crate::sets::{below, set_to_vec, sorted_bytes};
use crate::text::{push_str, string_from_chars};
use crate::thompson::row_labels;

verus! {

broadcast use vstd::std_specs::hash::group_hash_axioms;

/// What has been read so far describes a well-formed automaton: a state per node name,
/// and every index stored names a state.
pub open spec fn reading_shape<L>(st: DotReading<L>) -> bool {
    &&& st.rows.len() == st.names.len()
    &&& st.names.no_duplicates()
    &&& (st.start matches Some(s) ==> s < st.rows.len())
    &&& forall|x: usize| #[trigger] st.accepting.contains(x) ==> x < st.rows.len()
    &&& targets_in_range(st.rows)
}

/// Meeting a node keeps the reading well-formed and gives an index that names a state.
pub proof fn lemma_meet_node_shape<L>(st: DotReading<L>, name: Seq<char>)
    requires
        reading_shape(st),
    ensures
        meet_node(st, name) matches Ok((s1, n)) ==> reading_shape(s1) && n < s1.rows.len()
            && s1.start == st.start && s1.accepting == st.accepting && st.rows.len() <= s1.rows.len()
            && (forall|i: int| 0 <= i < st.rows.len() ==> #[trigger] s1.rows[i] == st.rows[i]),
{
    let n = name_id(st.names, name);
    if n + 1 < usize::MAX {
        if st.names.contains(name) {
            let i = choose|i: int| 0 <= i < st.names.len() && st.names[i] == name;
            assert(n < st.names.len());
        } else {
            let s1 = meet_node(st, name)->Ok_0.0;
            assert(s1.rows == st.rows + Seq::new(1, |i: int| Seq::<(L, usize)>::empty()));
            assert forall|p: int, q: int| 0 <= p < q < s1.names.len() implies s1.names[p] != s1.names[q] by {
                if q == st.names.len() {
                    assert(st.names.contains(st.names[p]));
                }
            }
            assert forall|i: int, k: int| 0 <= i < s1.rows.len() && 0 <= k < s1.rows[i].len() implies (#[trigger] s1.rows[i][k]).1 < s1.rows.len() by {
                assert(i < st.rows.len());
                assert(s1.rows[i] == st.rows[i]);
            }
        }
    }
}

/// Reading a node's attributes keeps the reading well-formed.
pub proof fn lemma_node_attributes_shape<L>(st: DotReading<L>, id: usize, attrs: Seq<crate::dot::DotAttribute>)
    requires
        reading_shape(st),
        id < st.rows.len(),
    ensures
        node_attributes(st, id, attrs) matches Ok(s1) ==> reading_shape(s1) && s1.rows == st.rows && s1.names == st.names,
    decreases attrs.len(),
{
    if attrs.len() > 0 {
        lemma_node_attributes_shape(st, id, attrs.drop_last());
    }
}

/// Reading a statement keeps the reading well-formed.
pub proof fn lemma_stmt_step_shape<A: Automaton>(st: DotReading<A::Label>, s: crate::dot::DotStmt)
    requires
        reading_shape(st),
    ensures
        stmt_step::<A>(st, s) matches Ok(s1) ==> reading_shape(s1),
{
    match s {
        crate::dot::DotStmt::Node(id, attrs) => {
            if let Some(name) = crate::dot::node_name(id) {
                lemma_meet_node_shape(st, name);
                if let Ok((s1, n)) = meet_node(st, name) {
                    lemma_node_attributes_shape(s1, n, attrs@);
                }
            }
        },
        crate::dot::DotStmt::Edge(crate::dot::DotEdgeTy::Pair(crate::dot::DotVertex::Node(a), crate::dot::DotVertex::Node(b)), attrs) => {
            if let (Some(fa), Some(fb)) = (crate::dot::node_name(a), crate::dot::node_name(b)) {
                lemma_meet_node_shape(st, fa);
                if let Ok((s1, from)) = meet_node(st, fa) {
                    lemma_meet_node_shape(s1, fb);
                    if let Ok((s2, to)) = meet_node(s1, fb) {
                        if let Ok(s3) = stmt_step::<A>(st, s) {
                            assert(from < s2.rows.len());
                            assert forall|i: int, k: int| 0 <= i < s3.rows.len() && 0 <= k < s3.rows[i].len() implies (#[trigger] s3.rows[i][k]).1 < s3.rows.len() by {
                                if i != from {
                                    assert(s3.rows[i] == s2.rows[i]);
                                } else if k < s2.rows[i].len() {
                                    assert(s3.rows[i][k] == s2.rows[i][k]);
                                }
                            }
                        }
                    }
                }
            }
        },
        _ => {},
    }
}

/// Reading statements keeps the reading well-formed.
pub proof fn lemma_read_stmts_shape<A: Automaton>(st: DotReading<A::Label>, stmts: Seq<crate::dot::DotStmt>)
    requires
        reading_shape(st),
    ensures
        read_stmts::<A>(st, stmts) matches Ok(s1) ==> reading_shape(s1),
    decreases stmts.len(),
{
    if stmts.len() > 0 {
        lemma_read_stmts_shape::<A>(st, stmts.drop_last());
        if let Ok(s1) = read_stmts::<A>(st, stmts.drop_last()) {
            lemma_stmt_step_shape::<A>(s1, stmts.last());
        }
    }
}

/// A graph read into an automaton without states gives a well-formed automaton.
pub proof fn lemma_dot_reading_shape<A: Automaton>(g: crate::dot::DotGraph)
    ensures
        dot_reading::<A>(Seq::empty(), g) matches Ok(st) ==> reading_shape(st),
{
    if let crate::dot::DotGraph::DiGraph(stmts) = g {
        let st0 = DotReading::<A::Label> { names: Seq::empty(), start: None, accepting: Set::empty(), rows: Seq::empty() };
        lemma_read_stmts_shape::<A>(st0, stmts@);
    }
}

/// The bytes that label some transition of a byte automaton's states.
pub fn used_bytes(states: &Vec<State<u8>>) -> (r: HashSet<u8>)
    ensures
        r@ == byte_labels(transitions_of(states@)),
{
    let ghost t = transitions_of(states@);
    let mut r: HashSet<u8> = HashSet::new();
    for i in 0..states.len()
        invariant
            t == transitions_of(states@),
            r@ == Set::new(|b: u8| exists|p: int, q: int| 0 <= p < i && 0 <= q < t[p].len() && (#[trigger] t[p][q]).0 == b),
    {
        let row = &states[i].transitions;
        let ghost r0 = r@;
        for k in 0..row.len()
            invariant
                t == transitions_of(states@),
                i < states@.len(),
                *row == states@[i as int].transitions,
                r@ == r0.union(Set::new(|b: u8| exists|q: int| 0 <= q < k && (#[trigger] row@[q]).0 == b)),
        {
            r.insert(row[k].0);
            proof {
                assert(r@ =~= r0.union(Set::new(|b: u8| exists|q: int| 0 <= q < k + 1 && (#[trigger] row@[q]).0 == b)));
            }
        }
        proof {
            assert(t[i as int] == row@);
            assert forall|b: u8| r@.contains(b) <==> (exists|p: int, q: int| 0 <= p < i + 1 && 0 <= q < t[p].len() && (#[trigger] t[p][q]).0 == b) by {
                if r@.contains(b) && !r0.contains(b) {
                    let q = choose|q: int| 0 <= q < row@.len() && (#[trigger] row@[q]).0 == b;
                    assert(t[i as int][q].0 == b);
                }
                if exists|p: int, q: int| 0 <= p < i + 1 && 0 <= q < t[p].len() && (#[trigger] t[p][q]).0 == b {
                    let (p, q) = choose|p: int, q: int| 0 <= p < i + 1 && 0 <= q < t[p].len() && (#[trigger] t[p][q]).0 == b;
                    if p == i {
                        assert(row@[q].0 == b);
                    }
                }
            }
            assert(r@ =~= Set::new(|b: u8| exists|p: int, q: int| 0 <= p < i + 1 && 0 <= q < t[p].len() && (#[trigger] t[p][q]).0 == b));
        }
    }
    proof {
        assert(r@ =~= byte_labels(t));
    }
    r
}

/// The bytes an epsilon-NFA's edges read are the byte labels of its rows.
pub proof fn lemma_used_symbols_rows(a: &EpsilonNfa)
    requires
        a.states@.len() <= usize::MAX,
    ensures
        a.used_symbols_spec() == row_labels(transitions_of(a.states@)),
{
    let t = transitions_of(a.states@);
    assert forall|b: u8| a.used_symbols_spec().contains(b) <==> row_labels(t).contains(b) by {
        if a.used_symbols_spec().contains(b) {
            let (u, v) = choose|u: usize, v: usize| #[trigger] a.has_edge(u, Symbol::Byte(b), v);
            let q = choose|q: int| 0 <= q < a.trans(u).len() && a.trans(u)[q] == (Symbol::Byte(b), v);
            assert(t[u as int][q] == a.trans(u)[q]);
        }
        if row_labels(t).contains(b) {
            let (i, q) = choose|i: int, q: int| 0 <= i < t.len() && 0 <= q < t[i].len() && (#[trigger] t[i][q]).0 == Symbol::Byte(b);
            let u = i as usize;
            assert(a.trans(u)[q] == t[i][q]);
            assert(a.has_edge(u, Symbol::Byte(b), t[i][q].1));
        }
    }
    assert(a.used_symbols_spec() =~= row_labels(t));
}

/// Some state has two transitions with the same label.
pub open spec fn has_repeated_label(rows: Seq<Seq<(u8, usize)>>) -> bool {
    exists|i: int, p: int, q: int| 0 <= i < rows.len() && 0 <= p < q < rows[i].len() && (#[trigger] rows[i][p]).0 == (#[trigger] rows[i][q]).0
}

/// Some transition of `row` reads `b`.
pub open spec fn has_move(row: Seq<(u8, usize)>, b: u8) -> bool {
    exists|q: int| 0 <= q < row.len() && (#[trigger] row[q]).0 == b
}

/// Some state lacks a transition for some byte of `alphabet`.
pub open spec fn lacks_move(rows: Seq<Seq<(u8, usize)>>, alphabet: Set<u8>) -> bool {
    exists|i: int, b: u8| 0 <= i < rows.len() && alphabet.contains(b) && !#[trigger] has_move(rows[i], b)
}

/// What reading an epsilon-NFA from the DOT text `dot` gives: a failed parse; or, for the
/// graph the text describes, the reader's error, a refusal unless exactly one state is
/// accepting, or the automaton read, over the bytes its edges read.
pub open spec fn enfa_from_dot_outcome(dot: Seq<char>, r: Result<EpsilonNfa>) -> bool {
    parse_failure(r) || (graphviz_parse(dot) matches Some(g) && enfa_from_graph_outcome(g, r))
}

/// What reading an epsilon-NFA from the graph `g` gives.
pub open spec fn enfa_from_graph_outcome(g: DotGraph, r: Result<EpsilonNfa>) -> bool {
    match dot_reading::<EpsilonNfa>(Seq::empty(), g) {
        Err(m) => r matches Err(Error::InvalidInput(x)) && x@ == m,
        Ok(st) => if st.accepting.len() == 1 {
            r matches Ok(a) && {
                &&& transitions_of(a.states@) == st.rows
                &&& st.start == Some(a.start)
                &&& st.accepting == set![a.accept]
                &&& a.alphabet@ == row_labels(st.rows)
                &&& a.well_formed()
            }
        } else {
            r matches Err(Error::InvalidInput(x)) && x@ == "epsilon-NFA must have exactly one accept state"@
        },
    }
}

/// What reading an NFA from the DOT text `dot` gives: a failed parse; or, for the graph the
/// text describes, the reader's error or the automaton read, over the bytes its edges read.
pub open spec fn nfa_from_dot_outcome(dot: Seq<char>, r: Result<Nfa>) -> bool {
    parse_failure(r) || (graphviz_parse(dot) matches Some(g) && nfa_from_graph_outcome(g, r))
}

/// What reading an NFA from the graph `g` gives.
pub open spec fn nfa_from_graph_outcome(g: DotGraph, r: Result<Nfa>) -> bool {
    match dot_reading::<Nfa>(Seq::empty(), g) {
        Err(m) => r matches Err(Error::InvalidInput(x)) && x@ == m,
        Ok(st) => r matches Ok(a) && {
            &&& transitions_of(a.states@) == st.rows
            &&& st.start == Some(a.start)
            &&& a.accept@.to_set() == st.accepting
            &&& a.accept@.no_duplicates()
            &&& a.alphabet@ == byte_labels(st.rows)
            &&& a.well_formed()
        },
    }
}

/// What reading a DFA from the DOT text `dot` gives: as for an NFA, and then refused where
/// a state has two transitions on one byte or none on a byte of the alphabet.
pub open spec fn dfa_from_dot_outcome(dot: Seq<char>, r: Result<Dfa>) -> bool {
    parse_failure(r) || (graphviz_parse(dot) matches Some(g) && dfa_from_graph_outcome(g, r))
}

/// What reading a DFA from the graph `g` gives.
pub open spec fn dfa_from_graph_outcome(g: DotGraph, r: Result<Dfa>) -> bool {
    match dot_reading::<Dfa>(Seq::empty(), g) {
        Err(m) => r matches Err(Error::InvalidInput(x)) && x@ == m,
        Ok(st) => if has_repeated_label(st.rows) {
            r matches Err(Error::InvalidAutomaton(x)) && x@ == "DFA has more than one transition on a symbol from one state"@
        } else if lacks_move(st.rows, byte_labels(st.rows)) {
            r matches Err(Error::InvalidAutomaton(x)) && x@ == "DFA is incomplete: a state has no transition on some symbol"@
        } else {
            r matches Ok(a) && {
                &&& transitions_of(a.states@) == st.rows
                &&& st.start == Some(a.start)
                &&& a.accept@.to_set() == st.accepting
                &&& a.accept@.no_duplicates()
                &&& a.alphabet@ == byte_labels(st.rows)
                &&& a.well_formed()
            }
        },
    }
}

impl EpsilonNfa {
    /// The DOT text of this automaton.
    pub fn to_dot(&self) -> (r: String)
        ensures
            r@ == dot_text(self),
    {
        to_dot(self)
    }

    /// Reads an epsilon-NFA from DOT text: the graph the parser gives is read by
    /// `enfa_from_graph`; a failed parse is reported with the parser's message.
    pub fn from_dot(dot: &str) -> (r: Result<EpsilonNfa>)
        ensures
            enfa_from_dot_outcome(dot@, r),
    {
        match parse_dot(dot) {
            Err(e) => Err(parse_error(&e)),
            Ok(g) => enfa_from_graph(&g),
        }
    }
}

/// Reads an epsilon-NFA from a parsed DOT graph. It must name exactly one accepting state;
/// its alphabet is the bytes its edges read.
pub fn enfa_from_graph(g: &DotGraph) -> (r: Result<EpsilonNfa>)
    ensures
        enfa_from_graph_outcome(*g, r),
{
    let mut a = EpsilonNfa::new();
    proof {
        assert(a.spec_transitions() =~= Seq::empty());
    }
    let (start, accepting) = match read_dot_graph(&mut a, g) {
        Ok(p) => p,
        Err(e) => return Err(e),
    };
    proof {
        lemma_dot_reading_shape::<EpsilonNfa>(*g);
    }
    a.set_start(start);
    match a.set_accept_states(accepting) {
        Ok(()) => {},
        Err(e) => return Err(e),
    }
    let used = a.extract_used_symbols();
    let state_count = a.states.len();
    proof {
        assert(state_count == a.states@.len());
        lemma_used_symbols_rows(&a);
    }
    a.alphabet = used;
    proof {
        let st = dot_reading::<EpsilonNfa>(Seq::empty(), *g)->Ok_0;
        assert(st.accepting.contains(a.accept));
    }
    Ok(a)
}

impl Nfa {
    /// The DOT text of this automaton.
    pub fn to_dot(&self) -> (r: String)
        ensures
            r@ == dot_text(self),
    {
        to_dot(self)
    }

    /// Reads an NFA from DOT text: the graph the parser gives is read by `nfa_from_graph`;
    /// a failed parse is reported with the parser's message.
    pub fn from_dot(dot: &str) -> (r: Result<Nfa>)
        ensures
            nfa_from_dot_outcome(dot@, r),
    {
        match parse_dot(dot) {
            Err(e) => Err(parse_error(&e)),
            Ok(g) => nfa_from_graph(&g),
        }
    }
}

/// Reads an NFA from a parsed DOT graph; its alphabet is the bytes its edges read.
pub fn nfa_from_graph(g: &DotGraph) -> (r: Result<Nfa>)
    ensures
        nfa_from_graph_outcome(*g, r),
{
    let mut a = Nfa::default();
    proof {
        assert(a.spec_transitions() =~= Seq::empty());
    }
    let (start, accepting) = match read_dot_graph(&mut a, g) {
        Ok(p) => p,
        Err(e) => return Err(e),
    };
    a.set_start(start);
    let _ = a.set_accept_states(accepting);
    a.alphabet = used_bytes(&a.states);
    proof {
        lemma_dot_reading_shape::<Nfa>(*g);
        let st = dot_reading::<Nfa>(Seq::empty(), *g)->Ok_0;
        assert(st.rows.len() == a.states@.len());
        assert forall|i: int| 0 <= i < a.accept@.len() implies #[trigger] a.accept@[i] < a.states@.len() by {
            assert(a.accept@.to_set().contains(a.accept@[i]));
        }
    }
    Ok(a)
}

/// Refuses an automaton with two transitions on one label from a state, or a state
/// without a transition for some byte of `alphabet`.
fn validate_dfa(states: &Vec<State<u8>>, alphabet: &HashSet<u8>) -> (r: Result<()>)
    ensures
        has_repeated_label(transitions_of(states@)) ==> (r matches Err(Error::InvalidAutomaton(x))
            && x@ == "DFA has more than one transition on a symbol from one state"@),
        !has_repeated_label(transitions_of(states@)) && lacks_move(transitions_of(states@), alphabet@) ==> (r matches Err(Error::InvalidAutomaton(x))
            && x@ == "DFA is incomplete: a state has no transition on some symbol"@),
        !has_repeated_label(transitions_of(states@)) && !lacks_move(transitions_of(states@), alphabet@) ==> r is Ok,
{
    let ghost t = transitions_of(states@);
    for i in 0..states.len()
        invariant
            t == transitions_of(states@),
            forall|i2: int, p: int, q: int| 0 <= i2 < i && 0 <= p < q < t[i2].len() ==> (#[trigger] t[i2][p]).0 != (#[trigger] t[i2][q]).0,
    {
        let row = &states[i].transitions;
        assert(t[i as int] == row@);
        for p in 0..row.len()
            invariant
                t == transitions_of(states@),
                i < states@.len(),
                t[i as int] == row@,
                forall|i2: int, p2: int, q: int| 0 <= i2 < i && 0 <= p2 < q < t[i2].len() ==> (#[trigger] t[i2][p2]).0 != (#[trigger] t[i2][q]).0,
                forall|p2: int, q: int| 0 <= p2 < p && p2 < q < row@.len() ==> (#[trigger] row@[p2]).0 != (#[trigger] row@[q]).0,
        {
            for q in (p + 1)..row.len()
                invariant
                    t == transitions_of(states@),
                    i < states@.len(),
                    t[i as int] == row@,
                    p < row@.len(),
                    forall|i2: int, p2: int, q2: int| 0 <= i2 < i && 0 <= p2 < q2 < t[i2].len() ==> (#[trigger] t[i2][p2]).0 != (#[trigger] t[i2][q2]).0,
                    forall|p2: int, q2: int| 0 <= p2 < p && p2 < q2 < row@.len() ==> (#[trigger] row@[p2]).0 != (#[trigger] row@[q2]).0,
                    forall|q2: int| p < q2 < q ==> row@[p as int].0 != (#[trigger] row@[q2]).0,
            {
                if row[p].0 == row[q].0 {
                    assert(t[i as int][p as int].0 == t[i as int][q as int].0);
                    return Err(Error::InvalidAutomaton("DFA has more than one transition on a symbol from one state"));
                }
            }
        }
    }
    let bytes = sorted_bytes(alphabet);
    for i in 0..states.len()
        invariant
            t == transitions_of(states@),
            !has_repeated_label(t),
            bytes@.to_set() == alphabet@,
            forall|i2: int, b: u8| 0 <= i2 < i && alphabet@.contains(b) ==> #[trigger] has_move(t[i2], b),
    {
        let row = &states[i].transitions;
        assert(t[i as int] == row@);
        for c in 0..bytes.len()
            invariant
                t == transitions_of(states@),
                !has_repeated_label(t),
                i < states@.len(),
                t[i as int] == row@,
                bytes@.to_set() == alphabet@,
                forall|i2: int, b: u8| 0 <= i2 < i && alphabet@.contains(b) ==> #[trigger] has_move(t[i2], b),
                forall|c2: int| 0 <= c2 < c ==> #[trigger] has_move(row@, bytes@[c2]),
        {
            let b = bytes[c];
            let mut found = false;
            for q in 0..row.len()
                invariant
                    found == exists|q2: int| 0 <= q2 < q && (#[trigger] row@[q2]).0 == b,
            {
                if row[q].0 == b {
                    found = true;
                }
            }
            if !found {
                proof {
                    assert(alphabet@.contains(b));
                    assert(!has_move(t[i as int], b));
                    assert(lacks_move(t, alphabet@));
                }
                return Err(Error::InvalidAutomaton("DFA is incomplete: a state has no transition on some symbol"));
            }
        }
        proof {
            assert forall|b: u8| alphabet@.contains(b) implies #[trigger] has_move(t[i as int], b) by {
                let c2 = choose|c2: int| 0 <= c2 < bytes@.len() && bytes@[c2] == b;
                assert(has_move(row@, bytes@[c2]));
            }
        }
    }
    Ok(())
}

impl Dfa {
    /// The DOT text of this automaton.
    pub fn to_dot(&self) -> (r: String)
        ensures
            r@ == dot_text(self),
    {
        to_dot(self)
    }

    /// Reads a DFA from DOT text: the graph the parser gives is read by `dfa_from_graph`;
    /// a failed parse is reported with the parser's message.
    pub fn from_dot(dot: &str) -> (r: Result<Dfa>)
        ensures
            dfa_from_dot_outcome(dot@, r),
    {
        match parse_dot(dot) {
            Err(e) => Err(parse_error(&e)),
            Ok(g) => dfa_from_graph(&g),
        }
    }
}

/// Reads a DFA from a parsed DOT graph; its alphabet is the bytes its edges read, and it
/// must have exactly one transition on each of them from every state.
pub fn dfa_from_graph(g: &DotGraph) -> (r: Result<Dfa>)
    ensures
        dfa_from_graph_outcome(*g, r),
{
    let mut a = Dfa::default();
    proof {
        assert(a.spec_transitions() =~= Seq::empty());
    }
    let (start, accepting) = match read_dot_graph(&mut a, g) {
        Ok(p) => p,
        Err(e) => return Err(e),
    };
    a.set_start(start);
    let _ = a.set_accept_states(accepting);
    a.alphabet = used_bytes(&a.states);
    match validate_dfa(&a.states, &a.alphabet) {
        Ok(()) => {},
        Err(e) => return Err(e),
    }
    proof {
        lemma_dot_reading_shape::<Dfa>(*g);
        let st = dot_reading::<Dfa>(Seq::empty(), *g)->Ok_0;
        assert(st.rows.len() == a.states@.len());
        assert forall|i: int| 0 <= i < a.accept@.len() implies #[trigger] a.accept@[i] < a.states@.len() by {
            assert(a.accept@.to_set().contains(a.accept@[i]));
        }
    }
    Ok(a)
}

} // verus!
