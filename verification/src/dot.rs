//! Reading automata from DOT text: the parsed graph, and how its statements build an automaton.
use vstd::prelude::*;
use std::collections::HashSet;
use crate::automaton::Automaton;
use crate::errors::{Error, Result};
use crate::text::{chars_of, push_str, string_from_chars};

verus! {

broadcast use vstd::std_specs::hash::group_hash_axioms;

/// An identifier of the DOT language, as the parser classifies it.
#[derive(Debug)]
pub enum DotId {
    Html(String),
    Escaped(String),
    Plain(String),
    Anonymous(String),
}

/// A `key = value` attribute.
#[derive(Debug)]
pub struct DotAttribute(pub DotId, pub DotId);

/// An end of an edge: a node, or a subgraph (whose contents are not kept).
#[derive(Debug)]
pub enum DotVertex {
    Node(DotId),
    Subgraph,
}

/// The ends of an edge statement.
#[derive(Debug)]
pub enum DotEdgeTy {
    Pair(DotVertex, DotVertex),
    Chain(Vec<DotVertex>),
}

/// A statement of a graph body.
#[derive(Debug)]
pub enum DotStmt {
    Node(DotId, Vec<DotAttribute>),
    Subgraph,
    Attribute,
    GAttribute,
    Edge(DotEdgeTy, Vec<DotAttribute>),
}

/// A parsed graph: undirected (contents not kept) or directed, with its statements.
#[derive(Debug)]
pub enum DotGraph {
    Graph,
    DiGraph(Vec<DotStmt>),
}

/// The graph that the DOT grammar of `graphviz_rust::parse` gives for the text `dot`, where
/// the text is one the grammar accepts.
pub uninterp spec fn graphviz_parse(dot: Seq<char>) -> Option<DotGraph>;

/// `dot_structures`' graph, carried without looking inside.
#[verifier::external_type_specification]
#[verifier::external_body]
pub struct ExDotStructuresGraph(graphviz_rust::dot_structures::Graph);

/// `dot_structures`' statement, carried without looking inside.
#[verifier::external_type_specification]
#[verifier::external_body]
pub struct ExDotStructuresStmt(graphviz_rust::dot_structures::Stmt);

/// `dot_structures`' identifier, carried without looking inside.
#[verifier::external_type_specification]
#[verifier::external_body]
pub struct ExDotStructuresId(graphviz_rust::dot_structures::Id);

/// `dot_structures`' attribute, carried without looking inside.
#[verifier::external_type_specification]
#[verifier::external_body]
pub struct ExDotStructuresAttribute(graphviz_rust::dot_structures::Attribute);

/// `dot_structures`' edge end, carried without looking inside.
#[verifier::external_type_specification]
#[verifier::external_body]
pub struct ExDotStructuresVertex(graphviz_rust::dot_structures::Vertex);

/// Carries a graph over into this library's model, statement for statement; the graph's
/// id and strictness are dropped.
#[verifier::external_body]
fn graph_of(g: &graphviz_rust::dot_structures::Graph) -> DotGraph {
    match g {
        graphviz_rust::dot_structures::Graph::Graph { .. } => DotGraph::Graph,
        graphviz_rust::dot_structures::Graph::DiGraph { stmts, .. } => DotGraph::DiGraph(stmts.iter().map(stmt_of).collect()),
    }
}

/// Carries a statement over; the contents of subgraphs and attribute statements are dropped.
#[verifier::external_body]
fn stmt_of(s: &graphviz_rust::dot_structures::Stmt) -> DotStmt {
    match s {
        graphviz_rust::dot_structures::Stmt::Node(n) => DotStmt::Node(id_of(&n.id.0), n.attributes.iter().map(attribute_of).collect()),
        graphviz_rust::dot_structures::Stmt::Subgraph(_) => DotStmt::Subgraph,
        graphviz_rust::dot_structures::Stmt::Attribute(_) => DotStmt::Attribute,
        graphviz_rust::dot_structures::Stmt::GAttribute(_) => DotStmt::GAttribute,
        graphviz_rust::dot_structures::Stmt::Edge(e) => DotStmt::Edge(edge_ty_of(&e.ty), e.attributes.iter().map(attribute_of).collect()),
    }
}

/// `dot_structures`' edge shape, carried without looking inside.
#[verifier::external_type_specification]
#[verifier::external_body]
pub struct ExDotStructuresEdgeTy(graphviz_rust::dot_structures::EdgeTy);

/// Carries the ends of an edge over.
#[verifier::external_body]
fn edge_ty_of(t: &graphviz_rust::dot_structures::EdgeTy) -> DotEdgeTy {
    match t {
        graphviz_rust::dot_structures::EdgeTy::Pair(a, b) => DotEdgeTy::Pair(vertex_of(a), vertex_of(b)),
        graphviz_rust::dot_structures::EdgeTy::Chain(v) => DotEdgeTy::Chain(v.iter().map(vertex_of).collect()),
    }
}

/// Carries an edge end over; a node's port and a subgraph's contents are dropped.
#[verifier::external_body]
fn vertex_of(v: &graphviz_rust::dot_structures::Vertex) -> DotVertex {
    match v {
        graphviz_rust::dot_structures::Vertex::N(n) => DotVertex::Node(id_of(&n.0)),
        graphviz_rust::dot_structures::Vertex::S(_) => DotVertex::Subgraph,
    }
}

/// Carries an attribute over.
#[verifier::external_body]
fn attribute_of(a: &graphviz_rust::dot_structures::Attribute) -> DotAttribute {
    DotAttribute(id_of(&a.0), id_of(&a.1))
}

/// Carries an identifier over, with its text.
#[verifier::external_body]
fn id_of(id: &graphviz_rust::dot_structures::Id) -> DotId {
    match id {
        graphviz_rust::dot_structures::Id::Html(s) => DotId::Html(s.clone()),
        graphviz_rust::dot_structures::Id::Escaped(s) => DotId::Escaped(s.clone()),
        graphviz_rust::dot_structures::Id::Plain(s) => DotId::Plain(s.clone()),
        graphviz_rust::dot_structures::Id::Anonymous(s) => DotId::Anonymous(s.clone()),
    }
}

/// Parses `dot` with `graphviz_rust::parse`. The graph it returns is carried over
/// statement for statement (`graph_of`), and it is the graph the grammar gives for the
/// text. An error is returned as its text; nothing is said of when one comes, since the
/// parser can also fail for reasons outside the text (a process-wide call limit, or
/// running short of stack on deep nesting), nor of what the message says.
#[verifier::external_body]
pub(crate) fn parse_dot(dot: &str) -> (r: core::result::Result<DotGraph, String>)
    ensures
        r matches Ok(g) ==> graphviz_parse(dot@) == Some(g),
{
    match graphviz_rust::parse(dot) {
        Ok(g) => Ok(graph_of(&g)),
        Err(e) => Err(e),
    }
}

/// The error reporting a failed parse of DOT text, with the parser's message `e`.
pub(crate) fn parse_error(e: &String) -> (x: Error)
    ensures
        x matches Error::InvalidInput(m) && m@ == "dot parse error: "@ + e@,
        parse_failure(Err::<(), Error>(x)),
{
    let mut v: Vec<char> = Vec::new();
    push_str(&mut v, "dot parse error: ");
    let ghost head = v@;
    push_str(&mut v, e.as_str());
    proof {
        assert(head =~= "dot parse error: "@);
        assert(v@.subrange(0, head.len() as int) =~= head);
    }
    Error::InvalidInput(string_from_chars(&v))
}

/// An error that reports a failed parse of DOT text.
pub open spec fn parse_failure<T>(r: Result<T>) -> bool {
    r matches Err(Error::InvalidInput(x)) && "dot parse error: "@.is_prefix_of(x@)
}

/// What reading the statements of a graph has gathered: node names in order of first
/// appearance (a node's index is its position), the start state, the accepting states, and
/// the transitions of the automaton being filled.
#[verifier::ext_equal]
pub struct DotReading<L> {
    pub names: Seq<Seq<char>>,
    pub start: Option<usize>,
    pub accepting: Set<usize>,
    pub rows: Seq<Seq<(L, usize)>>,
}

/// `s` without one pair of surrounding double quotes, if it has them.
pub open spec fn unquoted(s: Seq<char>) -> Seq<char> {
    if s.len() >= 2 && s[0] == '"' && s[s.len() - 1] == '"' {
        s.subrange(1, s.len() - 1)
    } else {
        s
    }
}

/// `s` without any double quotes at either end.
pub open spec fn trimmed_quotes(s: Seq<char>) -> Seq<char>
    decreases s.len(),
{
    if s.len() > 0 && s[0] == '"' {
        trimmed_quotes(s.drop_first())
    } else if s.len() > 0 && s[s.len() - 1] == '"' {
        trimmed_quotes(s.drop_last())
    } else {
        s
    }
}

/// The name of the node an identifier denotes; anonymous nodes have none.
pub open spec fn node_name(id: DotId) -> Option<Seq<char>> {
    match id {
        DotId::Html(s) => Some(unquoted(s@)),
        DotId::Escaped(s) => Some(unquoted(s@)),
        DotId::Plain(s) => Some(unquoted(s@)),
        DotId::Anonymous(_) => None,
    }
}

/// Index of the node called `name`: its position among the names met so far, or the next
/// free index for a new name.
pub open spec fn name_id(names: Seq<Seq<char>>, name: Seq<char>) -> nat {
    if names.contains(name) {
        (choose|i: int| 0 <= i < names.len() && names[i] == name) as nat
    } else {
        names.len()
    }
}

/// The names met so far, with `name` added if it is new.
pub open spec fn with_name(names: Seq<Seq<char>>, name: Seq<char>) -> Seq<Seq<char>> {
    if names.contains(name) { names } else { names.push(name) }
}

/// `rows` with empty rows added until state `id` exists.
pub open spec fn grown<L>(rows: Seq<Seq<(L, usize)>>, id: nat) -> Seq<Seq<(L, usize)>> {
    if id < rows.len() {
        rows
    } else {
        rows + Seq::new((id + 1 - rows.len()) as nat, |i: int| Seq::<(L, usize)>::empty())
    }
}

/// The node called `name` is met: it gets its index, and the automaton a state for it.
/// Refused where that index would not leave room for one more state.
pub open spec fn meet_node<L>(st: DotReading<L>, name: Seq<char>) -> core::result::Result<(DotReading<L>, usize), Seq<char>> {
    let n = name_id(st.names, name);
    if n + 1 >= usize::MAX {
        Err("too many nodes"@)
    } else {
        Ok((DotReading { names: with_name(st.names, name), start: st.start, accepting: st.accepting, rows: grown(st.rows, n) }, n as usize))
    }
}

/// One attribute of the node `id`: `isInitial=true` makes it the start state (a second
/// one is refused), `isAccepting=true` makes it accepting; others are ignored.
pub open spec fn attribute_step<L>(st: DotReading<L>, id: usize, a: DotAttribute) -> core::result::Result<DotReading<L>, Seq<char>> {
    match a {
        DotAttribute(DotId::Plain(k), DotId::Plain(v)) => if k@ == "isInitial"@ && v@ == "true"@ {
            if st.start is Some {
                Err("multiple start states"@)
            } else {
                Ok(DotReading { names: st.names, start: Some(id), accepting: st.accepting, rows: st.rows })
            }
        } else if k@ == "isAccepting"@ && v@ == "true"@ {
            Ok(DotReading { names: st.names, start: st.start, accepting: st.accepting.insert(id), rows: st.rows })
        } else {
            Ok(st)
        },
        _ => Ok(st),
    }
}

/// The attributes of the node `id`, in order.
pub open spec fn node_attributes<L>(st: DotReading<L>, id: usize, attrs: Seq<DotAttribute>) -> core::result::Result<DotReading<L>, Seq<char>>
    decreases attrs.len(),
{
    if attrs.len() == 0 {
        Ok(st)
    } else {
        match node_attributes(st, id, attrs.drop_last()) {
            Ok(s1) => attribute_step(s1, id, attrs.last()),
            Err(m) => Err(m),
        }
    }
}

/// The text of the first `label` attribute given as a quoted string, quotes trimmed.
pub open spec fn edge_label(attrs: Seq<DotAttribute>) -> Option<Seq<char>>
    decreases attrs.len(),
{
    if attrs.len() == 0 {
        None
    } else {
        match attrs[0] {
            DotAttribute(DotId::Plain(k), DotId::Escaped(v)) => if k@ == "label"@ {
                Some(trimmed_quotes(v@))
            } else {
                edge_label(attrs.drop_first())
            },
            _ => edge_label(attrs.drop_first()),
        }
    }
}

/// One statement: a node statement meets the node and reads its attributes; an edge
/// between two nodes meets both ends and adds the transition its label names; any other
/// statement is ignored.
pub open spec fn stmt_step<A: Automaton>(st: DotReading<A::Label>, s: DotStmt) -> core::result::Result<DotReading<A::Label>, Seq<char>> {
    match s {
        DotStmt::Node(id, attrs) => match node_name(id) {
            None => Err("anonymous node ids are not supported"@),
            Some(name) => match meet_node(st, name) {
                Err(m) => Err(m),
                Ok((s1, n)) => node_attributes(s1, n, attrs@),
            },
        },
        DotStmt::Edge(DotEdgeTy::Pair(DotVertex::Node(a), DotVertex::Node(b)), attrs) => match (node_name(a), node_name(b)) {
            (Some(fa), Some(fb)) => match meet_node(st, fa) {
                Err(m) => Err(m),
                Ok((s1, from)) => match meet_node(s1, fb) {
                    Err(m) => Err(m),
                    Ok((s2, to)) => match edge_label(attrs@) {
                        None => Err("edge missing label"@),
                        Some(t) => match A::spec_decode(t) {
                            None => Err(A::spec_decode_error(t)),
                            Some(l) => Ok(DotReading {
                                names: s2.names,
                                start: s2.start,
                                accepting: s2.accepting,
                                rows: s2.rows.update(from as int, s2.rows[from as int].push((l, to))),
                            }),
                        },
                    },
                },
            },
            _ => Err("anonymous node ids are not supported"@),
        },
        _ => Ok(st),
    }
}

/// The statements, in order.
pub open spec fn read_stmts<A: Automaton>(st: DotReading<A::Label>, stmts: Seq<DotStmt>) -> core::result::Result<DotReading<A::Label>, Seq<char>>
    decreases stmts.len(),
{
    if stmts.len() == 0 {
        Ok(st)
    } else {
        match read_stmts::<A>(st, stmts.drop_last()) {
            Ok(s1) => stmt_step::<A>(s1, stmts.last()),
            Err(m) => Err(m),
        }
    }
}

/// Reading a whole graph into an automaton whose transitions are `rows`: only directed
/// graphs are read, and they must name a start state and at least one accepting state.
pub open spec fn dot_reading<A: Automaton>(rows: Seq<Seq<(A::Label, usize)>>, g: DotGraph) -> core::result::Result<DotReading<A::Label>, Seq<char>> {
    match g {
        DotGraph::Graph => Err("expected digraph"@),
        DotGraph::DiGraph(stmts) => match read_stmts::<A>(DotReading { names: Seq::empty(), start: None, accepting: Set::empty(), rows: rows }, stmts@) {
            Err(m) => Err(m),
            Ok(st) => if st.start is None {
                Err("missing start state"@)
            } else if st.accepting == Set::<usize>::empty() {
                Err("missing accept states"@)
            } else {
                Ok(st)
            },
        },
    }
}

/// The texts of a list of names.
pub open spec fn names_view(names: Seq<Vec<char>>) -> Seq<Seq<char>> {
    names.map_values(|v: Vec<char>| v@)
}

/// The reading held by the reader's variables.
pub open spec fn reading_of<L>(names: Seq<Vec<char>>, start: Option<usize>, accepting: Set<usize>, rows: Seq<Seq<(L, usize)>>) -> DotReading<L> {
    DotReading { names: names_view(names), start: start, accepting: accepting, rows: rows }
}

/// The position of a name in a list without repetitions is the one `name_id` gives.
pub proof fn lemma_name_id_at(names: Seq<Seq<char>>, j: int)
    requires
        names.no_duplicates(),
        0 <= j < names.len(),
    ensures
        name_id(names, names[j]) == j,
{
    assert(names.contains(names[j]));
    let i = choose|i: int| 0 <= i < names.len() && names[i] == names[j];
}

/// Whether two character lists are equal.
fn same_chars(a: &Vec<char>, b: &Vec<char>) -> (r: bool)
    ensures
        r == (a@ == b@),
{
    if a.len() != b.len() {
        return false;
    }
    for i in 0..a.len()
        invariant
            a@.len() == b@.len(),
            forall|j: int| 0 <= j < i ==> a@[j] == b@[j],
    {
        if a[i] != b[i] {
            return false;
        }
    }
    assert(a@ =~= b@);
    true
}

/// Whether `s` reads exactly `lit`.
fn text_is(s: &String, lit: &str) -> (r: bool)
    ensures
        r == (s@ == lit@),
{
    same_chars(&chars_of(s.as_str()), &chars_of(lit))
}

/// `s` without one pair of surrounding double quotes, if it has them.
fn unquote_text(s: &String) -> (r: Vec<char>)
    ensures
        r@ == unquoted(s@),
{
    let c = chars_of(s.as_str());
    if c.len() >= 2 && c[0] == '"' && c[c.len() - 1] == '"' {
        let mut r: Vec<char> = Vec::new();
        let mut i: usize = 1;
        while i < c.len() - 1
            invariant
                c@ == s@,
                c@.len() >= 2,
                1 <= i <= c@.len() - 1,
                r@ == c@.subrange(1, i as int),
            decreases c@.len() - 1 - i,
        {
            r.push(c[i]);
            assert(c@.subrange(1, i + 1) =~= c@.subrange(1, i as int).push(c@[i as int]));
            i = i + 1;
        }
        r
    } else {
        c
    }
}

/// `s` without any double quotes at either end.
fn trim_quotes_text(s: &String) -> (r: Vec<char>)
    ensures
        r@ == trimmed_quotes(s@),
{
    let c = chars_of(s.as_str());
    let mut lo: usize = 0;
    assert(c@.subrange(0, c@.len() as int) =~= c@);
    while lo < c.len()
        invariant
            c@ == s@,
            0 <= lo <= c@.len(),
            trimmed_quotes(c@) == trimmed_quotes(c@.subrange(lo as int, c@.len() as int)),
        ensures
            c@ == s@,
            0 <= lo <= c@.len(),
            trimmed_quotes(c@) == trimmed_quotes(c@.subrange(lo as int, c@.len() as int)),
            lo < c@.len() ==> c@[lo as int] != '"',
        decreases c@.len() - lo,
    {
        if c[lo] != '"' {
            break;
        }
        assert(c@.subrange(lo as int, c@.len() as int).drop_first() =~= c@.subrange(lo + 1, c@.len() as int));
        lo = lo + 1;
    }
    let mut hi: usize = c.len();
    while hi > lo
        invariant
            c@ == s@,
            0 <= lo <= hi <= c@.len(),
            lo < hi ==> c@[lo as int] != '"',
            trimmed_quotes(c@) == trimmed_quotes(c@.subrange(lo as int, hi as int)),
        ensures
            0 <= lo <= hi <= c@.len(),
            trimmed_quotes(c@) == trimmed_quotes(c@.subrange(lo as int, hi as int)),
            lo < hi ==> c@[lo as int] != '"' && c@[hi - 1] != '"',
        decreases hi - lo,
    {
        if c[hi - 1] != '"' {
            break;
        }
        assert(c@.subrange(lo as int, hi as int).drop_last() =~= c@.subrange(lo as int, hi - 1));
        hi = hi - 1;
    }
    let mut r: Vec<char> = Vec::new();
    let mut i: usize = lo;
    while i < hi
        invariant
            lo <= i <= hi <= c@.len(),
            r@ == c@.subrange(lo as int, i as int),
        decreases hi - i,
    {
        r.push(c[i]);
        assert(c@.subrange(lo as int, i + 1) =~= c@.subrange(lo as int, i as int).push(c@[i as int]));
        i = i + 1;
    }
    assert(trimmed_quotes(c@.subrange(lo as int, hi as int)) == c@.subrange(lo as int, hi as int));
    r
}

/// The name of the node an identifier denotes; anonymous nodes have none.
fn node_name_of(id: &DotId) -> (r: Option<Vec<char>>)
    ensures
        match r {
            Some(v) => node_name(*id) == Some(v@),
            None => node_name(*id) is None,
        },
{
    match id {
        DotId::Html(s) => Some(unquote_text(s)),
        DotId::Escaped(s) => Some(unquote_text(s)),
        DotId::Plain(s) => Some(unquote_text(s)),
        DotId::Anonymous(_) => None,
    }
}

/// The text of the first `label` attribute given as a quoted string, quotes trimmed.
fn find_label(attrs: &Vec<DotAttribute>) -> (r: Option<Vec<char>>)
    ensures
        match r {
            Some(v) => edge_label(attrs@) == Some(v@),
            None => edge_label(attrs@) is None,
        },
{
    let mut i: usize = 0;
    assert(attrs@.skip(0) =~= attrs@);
    while i < attrs.len()
        invariant
            0 <= i <= attrs@.len(),
            edge_label(attrs@) == edge_label(attrs@.skip(i as int)),
        decreases attrs@.len() - i,
    {
        proof {
            assert(attrs@.skip(i as int)[0] == attrs@[i as int]);
            assert(attrs@.skip(i as int).drop_first() =~= attrs@.skip(i + 1));
        }
        match &attrs[i] {
            DotAttribute(DotId::Plain(k), DotId::Escaped(v)) => {
                if text_is(k, "label") {
                    return Some(trim_quotes_text(v));
                }
            },
            _ => {},
        }
        i = i + 1;
    }
    None
}

/// Index of `name` in `names`, if present.
fn find_name(names: &Vec<Vec<char>>, name: &Vec<char>) -> (r: Option<usize>)
    ensures
        match r {
            Some(j) => j < names@.len() && names@[j as int]@ == name@,
            None => !names_view(names@).contains(name@),
        },
{
    for j in 0..names.len()
        invariant
            forall|q: int| 0 <= q < j ==> (#[trigger] names@[q])@ != name@,
    {
        if same_chars(&names[j], name) {
            return Some(j);
        }
    }
    proof {
        if names_view(names@).contains(name@) {
            let q = choose|q: int| 0 <= q < names_view(names@).len() && names_view(names@)[q] == name@;
            assert(names@[q]@ == name@);
        }
    }
    None
}

/// Adds states to `automaton` until state `id` exists.
fn ensure_automaton_state<A: Automaton>(automaton: &mut A, id: usize)
    requires
        id < usize::MAX,
    ensures
        final(automaton).spec_transitions() == grown(old(automaton).spec_transitions(), id as nat),
        final(automaton).spec_start() == old(automaton).spec_start(),
        final(automaton).spec_accepting() == old(automaton).spec_accepting(),
        final(automaton).spec_alphabet() == old(automaton).spec_alphabet(),
{
    let ghost t0 = automaton.spec_transitions();
    while automaton.state_count() <= id
        invariant
            id < usize::MAX,
            t0.len() <= id + 1 ==> automaton.spec_transitions() == t0 + Seq::new((automaton.spec_transitions().len() - t0.len()) as nat, |i: int| Seq::<(A::Label, usize)>::empty()),
            t0.len() > id ==> automaton.spec_transitions() == t0,
            t0.len() <= automaton.spec_transitions().len() <= id + 1 || automaton.spec_transitions().len() == t0.len(),
            automaton.spec_start() == old(automaton).spec_start(),
            automaton.spec_accepting() == old(automaton).spec_accepting(),
            automaton.spec_alphabet() == old(automaton).spec_alphabet(),
        decreases id + 1 - automaton.spec_transitions().len(),
    {
        let ghost before = automaton.spec_transitions();
        automaton.add_state();
        proof {
            assert(automaton.spec_transitions() =~= t0 + Seq::new((automaton.spec_transitions().len() - t0.len()) as nat, |i: int| Seq::<(A::Label, usize)>::empty()));
        }
    }
    proof {
        if t0.len() <= id {
            assert(automaton.spec_transitions() =~= grown(t0, id as nat));
        } else {
            assert(grown(t0, id as nat) == t0);
        }
    }
}

/// Gives the node called `name` its index (a new name takes the next one) and makes sure
/// the automaton has a state for it; refused where no room is left for one more state.
fn get_or_create_node_id<A: Automaton>(automaton: &mut A, names: &mut Vec<Vec<char>>, name: Vec<char>) -> (r: Result<usize>)
    requires
        names_view(old(names)@).no_duplicates(),
    ensures
        names_view(final(names)@).no_duplicates(),
        final(automaton).spec_start() == old(automaton).spec_start(),
        final(automaton).spec_accepting() == old(automaton).spec_accepting(),
        final(automaton).spec_alphabet() == old(automaton).spec_alphabet(),
        name_id(names_view(old(names)@), name@) + 1 >= usize::MAX ==> (r matches Err(Error::InvalidInput(m)) && m@ == "too many nodes"@),
        name_id(names_view(old(names)@), name@) + 1 < usize::MAX ==> (r matches Ok(id)
            && id == name_id(names_view(old(names)@), name@)
            && names_view(final(names)@) == with_name(names_view(old(names)@), name@)
            && final(automaton).spec_transitions() == grown(old(automaton).spec_transitions(), id as nat)),
{
    let ghost v0 = names_view(names@);
    let found = find_name(names, &name);
    let id = match found {
        Some(j) => {
            proof {
                assert(v0[j as int] == name@);
                lemma_name_id_at(v0, j as int);
            }
            j
        },
        None => names.len(),
    };
    if id >= usize::MAX - 1 {
        let mut m: Vec<char> = Vec::new();
        push_str(&mut m, "too many nodes");
        return Err(Error::InvalidInput(string_from_chars(&m)));
    }
    if found.is_none() {
        let ghost nm = name@;
        names.push(name);
        proof {
            assert(names_view(names@) =~= v0.push(nm));
            assert forall|p: int, q: int| 0 <= p < q < names_view(names@).len() implies names_view(names@)[p] != names_view(names@)[q] by {
                if q == v0.len() {
                    assert(names_view(names@)[p] == v0[p]);
                    assert(v0.contains(v0[p]));
                } else {
                    assert(names_view(names@)[p] == v0[p]);
                    assert(names_view(names@)[q] == v0[q]);
                }
            }
        }
    }
    ensure_automaton_state(automaton, id);
    Ok(id)
}

/// Reads the attributes of the node `id` into `start` and `accepting`.
fn read_node_attributes<L>(names: &Vec<Vec<char>>, rows: Ghost<Seq<Seq<(L, usize)>>>, start: &mut Option<usize>, accepting: &mut HashSet<usize>, id: usize, attrs: &Vec<DotAttribute>) -> (r: Result<()>)
    ensures
        match node_attributes(reading_of(names@, *old(start), old(accepting)@, rows@), id, attrs@) {
            Ok(st) => r is Ok && reading_of(names@, *final(start), final(accepting)@, rows@) == st,
            Err(m) => r matches Err(Error::InvalidInput(x)) && x@ == m,
        },
{
    let ghost st0 = reading_of(names@, *start, accepting@, rows@);
    let mut j: usize = 0;
    assert(attrs@.take(0) =~= Seq::<DotAttribute>::empty());
    while j < attrs.len()
        invariant
            0 <= j <= attrs@.len(),
            st0 == reading_of(names@, *old(start), old(accepting)@, rows@),
            node_attributes(st0, id, attrs@.take(j as int)) == Ok::<DotReading<L>, Seq<char>>(reading_of(names@, *start, accepting@, rows@)),
        decreases attrs@.len() - j,
    {
        proof {
            assert(attrs@.take(j + 1).drop_last() =~= attrs@.take(j as int));
            assert(attrs@.take(j + 1).last() == attrs@[j as int]);
        }
        match &attrs[j] {
            DotAttribute(DotId::Plain(k), DotId::Plain(v)) => {
                if text_is(k, "isInitial") && text_is(v, "true") {
                    if start.is_some() {
                        let mut m: Vec<char> = Vec::new();
                        push_str(&mut m, "multiple start states");
                        let e = Error::InvalidInput(string_from_chars(&m));
                        proof {
                            lemma_node_attributes_err(st0, id, attrs@, (j + 1) as nat);
                        }
                        return Err(e);
                    }
                    *start = Some(id);
                } else if text_is(k, "isAccepting") && text_is(v, "true") {
                    accepting.insert(id);
                }
            },
            _ => {},
        }
        proof {
            assert(node_attributes(st0, id, attrs@.take(j + 1)) == Ok::<DotReading<L>, Seq<char>>(reading_of(names@, *start, accepting@, rows@)));
        }
        j = j + 1;
    }
    proof {
        assert(attrs@.take(j as int) =~= attrs@);
    }
    Ok(())
}

/// Once reading a prefix of the attributes fails, reading all of them fails the same way.
pub proof fn lemma_node_attributes_err<L>(st: DotReading<L>, id: usize, attrs: Seq<DotAttribute>, k: nat)
    requires
        k <= attrs.len(),
        node_attributes(st, id, attrs.take(k as int)) is Err,
    ensures
        node_attributes(st, id, attrs) == node_attributes(st, id, attrs.take(k as int)),
    decreases attrs.len() - k,
{
    if k < attrs.len() {
        assert(attrs.take((k + 1) as int).drop_last() =~= attrs.take(k as int));
        lemma_node_attributes_err(st, id, attrs, (k + 1) as nat);
    } else {
        assert(attrs.take(k as int) =~= attrs);
    }
}

/// The attribute `isAccepting=true`, both sides plain identifiers.
pub open spec fn marks_accepting(a: DotAttribute) -> bool {
    match a {
        DotAttribute(DotId::Plain(k), DotId::Plain(v)) => k@ == "isAccepting"@ && v@ == "true"@,
        _ => false,
    }
}

/// The attribute `isInitial=true`, both sides plain identifiers.
pub open spec fn marks_initial(a: DotAttribute) -> bool {
    match a {
        DotAttribute(DotId::Plain(k), DotId::Plain(v)) => k@ == "isInitial"@ && v@ == "true"@,
        _ => false,
    }
}

/// Where reading the attributes of the node `id` succeeds, it is the start state exactly
/// when one of them is `isInitial=true` (otherwise the start state is as it was), and
/// reading fails where a start state was already set and one of them is `isInitial=true`.
pub proof fn lemma_node_initial<L>(st: DotReading<L>, id: usize, attrs: Seq<DotAttribute>)
    ensures
        node_attributes(st, id, attrs) is Ok ==> node_attributes(st, id, attrs)->Ok_0.start == (
            if exists|i: int| 0 <= i < attrs.len() && #[trigger] marks_initial(attrs[i]) { Some(id) } else { st.start }),
        st.start is Some && (exists|i: int| 0 <= i < attrs.len() && #[trigger] marks_initial(attrs[i]))
            ==> node_attributes(st, id, attrs) is Err,
    decreases attrs.len(),
{
    if attrs.len() > 0 {
        let prev = attrs.drop_last();
        let last = attrs.last();
        lemma_node_initial(st, id, prev);
        let before = exists|i: int| 0 <= i < prev.len() && #[trigger] marks_initial(prev[i]);
        let after = exists|i: int| 0 <= i < attrs.len() && #[trigger] marks_initial(attrs[i]);
        if before {
            let i = choose|i: int| 0 <= i < prev.len() && #[trigger] marks_initial(prev[i]);
            assert(attrs[i] == prev[i]);
        }
        if after {
            let i = choose|i: int| 0 <= i < attrs.len() && #[trigger] marks_initial(attrs[i]);
            if i < prev.len() {
                assert(attrs[i] == prev[i]);
            }
        }
        assert(after == (before || marks_initial(last)));
    } else {
        assert(!exists|i: int| 0 <= i < attrs.len() && #[trigger] marks_initial(attrs[i]));
    }
}

/// Reading the attributes of the node `id` makes it accepting exactly when one of them is
/// `isAccepting=true`; any other attribute, `isAccepting` with another value among them,
/// leaves acceptance as it was. The names met and the transitions are untouched.
pub proof fn lemma_node_accepting<L>(st: DotReading<L>, id: usize, attrs: Seq<DotAttribute>)
    requires
        node_attributes(st, id, attrs) is Ok,
    ensures
        node_attributes(st, id, attrs)->Ok_0.accepting == (if exists|i: int| 0 <= i < attrs.len() && #[trigger] marks_accepting(attrs[i]) {
            st.accepting.insert(id)
        } else {
            st.accepting
        }),
        node_attributes(st, id, attrs)->Ok_0.names == st.names,
        node_attributes(st, id, attrs)->Ok_0.rows == st.rows,
    decreases attrs.len(),
{
    if attrs.len() > 0 {
        let prev = attrs.drop_last();
        let last = attrs.last();
        lemma_node_accepting(st, id, prev);
        let s1 = node_attributes(st, id, prev)->Ok_0;
        reveal_strlit("isInitial");
        reveal_strlit("isAccepting");
        assert("isInitial"@[2] != "isAccepting"@[2]);
        let before = exists|i: int| 0 <= i < prev.len() && #[trigger] marks_accepting(prev[i]);
        let after = exists|i: int| 0 <= i < attrs.len() && #[trigger] marks_accepting(attrs[i]);
        if before {
            let i = choose|i: int| 0 <= i < prev.len() && #[trigger] marks_accepting(prev[i]);
            assert(attrs[i] == prev[i]);
        }
        if after {
            let i = choose|i: int| 0 <= i < attrs.len() && #[trigger] marks_accepting(attrs[i]);
            if i < prev.len() {
                assert(attrs[i] == prev[i]);
            }
        }
        assert(after == (before || marks_accepting(last)));
        if marks_accepting(last) {
            assert(s1.accepting.insert(id) =~= (if before { st.accepting.insert(id) } else { st.accepting }).insert(id));
        }
    } else {
        assert(!exists|i: int| 0 <= i < attrs.len() && #[trigger] marks_accepting(attrs[i]));
    }
}

/// An error with the message held in `m`.
fn invalid_input(m: &str) -> (e: Error)
    ensures
        e matches Error::InvalidInput(x) && x@ == m@,
{
    let mut v: Vec<char> = Vec::new();
    push_str(&mut v, m);
    Error::InvalidInput(string_from_chars(&v))
}

/// Reads one statement into the automaton and the reader's variables.
fn read_stmt<A: Automaton>(automaton: &mut A, names: &mut Vec<Vec<char>>, start: &mut Option<usize>, accepting: &mut HashSet<usize>, stmt: &DotStmt) -> (r: Result<()>)
    requires
        names_view(old(names)@).no_duplicates(),
    ensures
        names_view(final(names)@).no_duplicates(),
        final(automaton).spec_start() == old(automaton).spec_start(),
        final(automaton).spec_accepting() == old(automaton).spec_accepting(),
        final(automaton).spec_alphabet() == old(automaton).spec_alphabet(),
        match stmt_step::<A>(reading_of(old(names)@, *old(start), old(accepting)@, old(automaton).spec_transitions()), *stmt) {
            Ok(st) => r is Ok && reading_of(final(names)@, *final(start), final(accepting)@, final(automaton).spec_transitions()) == st,
            Err(m) => r matches Err(Error::InvalidInput(x)) && x@ == m,
        },
{
    match stmt {
        DotStmt::Node(id, attrs) => {
            let name = match node_name_of(id) {
                Some(n) => n,
                None => return Err(invalid_input("anonymous node ids are not supported")),
            };
            let n = match get_or_create_node_id(automaton, names, name) {
                Ok(n) => n,
                Err(e) => return Err(e),
            };
            read_node_attributes::<A::Label>(names, Ghost(automaton.spec_transitions()), start, accepting, n, attrs)
        },
        DotStmt::Edge(DotEdgeTy::Pair(DotVertex::Node(a), DotVertex::Node(b)), attrs) => {
            let from_name = match node_name_of(a) {
                Some(n) => n,
                None => return Err(invalid_input("anonymous node ids are not supported")),
            };
            let to_name = match node_name_of(b) {
                Some(n) => n,
                None => return Err(invalid_input("anonymous node ids are not supported")),
            };
            let from = match get_or_create_node_id(automaton, names, from_name) {
                Ok(n) => n,
                Err(e) => return Err(e),
            };
            let to = match get_or_create_node_id(automaton, names, to_name) {
                Ok(n) => n,
                Err(e) => return Err(e),
            };
            let text = match find_label(attrs) {
                Some(t) => string_from_chars(&t),
                None => return Err(invalid_input("edge missing label")),
            };
            let label = match A::decode_label(text.as_str()) {
                Ok(l) => l,
                Err(e) => return Err(e),
            };
            automaton.add_transition(from, label, to);
            Ok(())
        },
        _ => Ok(()),
    }
}

/// Once reading a prefix of the statements fails, reading all of them fails the same way.
pub proof fn lemma_read_stmts_err<A: Automaton>(st: DotReading<A::Label>, stmts: Seq<DotStmt>, k: nat)
    requires
        k <= stmts.len(),
        read_stmts::<A>(st, stmts.take(k as int)) is Err,
    ensures
        read_stmts::<A>(st, stmts) == read_stmts::<A>(st, stmts.take(k as int)),
    decreases stmts.len() - k,
{
    if k < stmts.len() {
        assert(stmts.take((k + 1) as int).drop_last() =~= stmts.take(k as int));
        lemma_read_stmts_err::<A>(st, stmts, (k + 1) as nat);
    } else {
        assert(stmts.take(k as int) =~= stmts);
    }
}

/// Reads a parsed graph into `automaton`: its states and transitions, and the start state
/// and accepting states it names.
pub fn read_dot_graph<A: Automaton>(automaton: &mut A, graph: &DotGraph) -> (r: Result<(usize, HashSet<usize>)>)
    ensures
        final(automaton).spec_start() == old(automaton).spec_start(),
        final(automaton).spec_accepting() == old(automaton).spec_accepting(),
        final(automaton).spec_alphabet() == old(automaton).spec_alphabet(),
        match dot_reading::<A>(old(automaton).spec_transitions(), *graph) {
            Ok(st) => r matches Ok(p) && st.start == Some(p.0) && p.1@ == st.accepting
                && final(automaton).spec_transitions() == st.rows,
            Err(m) => r matches Err(Error::InvalidInput(x)) && x@ == m,
        },
{
    let stmts = match graph {
        DotGraph::DiGraph(stmts) => stmts,
        DotGraph::Graph => return Err(invalid_input("expected digraph")),
    };
    let ghost st0 = DotReading::<A::Label> { names: Seq::empty(), start: None, accepting: Set::empty(), rows: automaton.spec_transitions() };
    let mut start: Option<usize> = None;
    let mut accepting: HashSet<usize> = HashSet::new();
    let mut names: Vec<Vec<char>> = Vec::new();
    proof {
        assert(reading_of(names@, start, accepting@, automaton.spec_transitions()) =~= st0);
        assert(stmts@.take(0) =~= Seq::<DotStmt>::empty());
    }
    let mut i: usize = 0;
    while i < stmts.len()
        invariant
            0 <= i <= stmts@.len(),
            *graph matches DotGraph::DiGraph(v) && v@ == stmts@,
            st0.rows == old(automaton).spec_transitions(),
            st0 == (DotReading::<A::Label> { names: Seq::empty(), start: None, accepting: Set::empty(), rows: st0.rows }),
            names_view(names@).no_duplicates(),
            automaton.spec_start() == old(automaton).spec_start(),
            automaton.spec_accepting() == old(automaton).spec_accepting(),
            automaton.spec_alphabet() == old(automaton).spec_alphabet(),
            read_stmts::<A>(st0, stmts@.take(i as int)) == Ok::<DotReading<A::Label>, Seq<char>>(reading_of(names@, start, accepting@, automaton.spec_transitions())),
        decreases stmts@.len() - i,
    {
        proof {
            assert(stmts@.take(i + 1).drop_last() =~= stmts@.take(i as int));
            assert(stmts@.take(i + 1).last() == stmts@[i as int]);
        }
        let ghost cur = reading_of(names@, start, accepting@, automaton.spec_transitions());
        match read_stmt(automaton, &mut names, &mut start, &mut accepting, &stmts[i]) {
            Ok(()) => {},
            Err(e) => {
                proof {
                    assert(read_stmts::<A>(st0, stmts@.take(i + 1)) == stmt_step::<A>(cur, stmts@[i as int]));
                    assert(stmt_step::<A>(cur, stmts@[i as int]) is Err);
                    lemma_read_stmts_err::<A>(st0, stmts@, (i + 1) as nat);

                }
                return Err(e);
            },
        }
        i = i + 1;
    }
    proof {
        assert(stmts@.take(i as int) =~= stmts@);
    }
    let start_state = match start {
        Some(s) => s,
        None => return Err(invalid_input("missing start state")),
    };
    if accepting.is_empty() {
        return Err(invalid_input("missing accept states"));
    }
    Ok((start_state, accepting))
}

/// Parses DOT text and reads the graph into `automaton`; returns the start state and the
/// accepting states it names. Where the parser fails, the error carries its message;
/// otherwise the outcome is that of reading the graph the text describes.
pub fn parse_dot_into_automaton<A: Automaton>(automaton: &mut A, dot: &str) -> (r: Result<(usize, HashSet<usize>)>)
    ensures
        final(automaton).spec_start() == old(automaton).spec_start(),
        final(automaton).spec_accepting() == old(automaton).spec_accepting(),
        final(automaton).spec_alphabet() == old(automaton).spec_alphabet(),
        (parse_failure(r) && final(automaton).spec_transitions() == old(automaton).spec_transitions())
        || (graphviz_parse(dot@) matches Some(g) && match dot_reading::<A>(old(automaton).spec_transitions(), g) {
            Ok(st) => r matches Ok(p) && st.start == Some(p.0) && p.1@ == st.accepting
                && final(automaton).spec_transitions() == st.rows,
            Err(m) => r matches Err(Error::InvalidInput(x)) && x@ == m,
        }),
{
    match parse_dot(dot) {
        Err(e) => Err(parse_error(&e)),
        Ok(g) => read_dot_graph(automaton, &g),
    }
}

} // verus!
