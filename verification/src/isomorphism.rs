//! Structural comparison of automata: each automaton as a labelled graph, compared by
//! `petgraph`'s isomorphism test.
use vstd::prelude::*;
use std::collections::HashSet;
use crate::automaton::{Automaton, targets_in_range};
use crate::dfa::Dfa;
use crate::epsilon_nfa::EpsilonNfa;
use crate::nfa::Nfa;
use crate::text::chars_of;
use crate::sets::below;
use petgraph::graph::Graph;

verus! {

broadcast use vstd::std_specs::hash::group_hash_axioms;

/// What a node of the graph of an automaton records: whether its state is the start state,
/// and whether it is accepting.
#[derive(Debug, Clone, Copy, PartialEq, Eq, Hash, Structural)]
pub struct NodeAttr {
    pub start: bool,
    pub accept: bool,
}

/// `petgraph`'s graph, carried without looking inside.
#[verifier::external_type_specification]
#[verifier::external_body]
#[verifier::reject_recursive_types(N)]
#[verifier::reject_recursive_types(E)]
#[verifier::reject_recursive_types(Ty)]
#[verifier::reject_recursive_types(Ix)]
pub struct ExPetgraphGraph<N, E, Ty, Ix>(Graph<N, E, Ty, Ix>);

/// `petgraph`'s marker of directed graphs.
#[verifier::external_type_specification]
#[verifier::external_body]
pub struct ExPetgraphDirected(petgraph::Directed);

/// The node weights of a graph, in the order the nodes were added (a node's index is its
/// position).
pub uninterp spec fn graph_nodes(g: Graph<NodeAttr, String>) -> Seq<NodeAttr>;

/// The edges of a graph as (source index, target index, weight), in the order they were added.
pub uninterp spec fn graph_edges(g: Graph<NodeAttr, String>) -> Seq<(usize, usize, Seq<char>)>;

/// What `petgraph::algo::is_isomorphic_matching` answers for the graph with the nodes and
/// edges `nodes0`, `edges0` and the one with `nodes1`, `edges1`, node and edge weights
/// matched by equality.
pub uninterp spec fn petgraph_isomorphic_matching(
    nodes0: Seq<NodeAttr>,
    edges0: Seq<(usize, usize, Seq<char>)>,
    nodes1: Seq<NodeAttr>,
    edges1: Seq<(usize, usize, Seq<char>)>,
) -> bool;

/// Node `k` is the image under `f` of some position.
pub open spec fn is_image(f: Seq<usize>, k: int) -> bool {
    exists|i: int| 0 <= i < f.len() && f[i] == k
}

/// `f` pairs the nodes with weights `n0` one to one with the nodes with weights `n1`
/// (node `i` with node `f[i]`), each with a node of equal weight.
pub open spec fn weight_preserving_bijection(n0: Seq<NodeAttr>, n1: Seq<NodeAttr>, f: Seq<usize>) -> bool {
    &&& n0.len() == n1.len()
    &&& f.len() == n0.len()
    &&& forall|i: int| 0 <= i < f.len() ==> #[trigger] f[i] < n1.len() && n0[i] == n1[f[i] as int]
    &&& forall|i: int, j: int| 0 <= i < j < f.len() ==> f[i] != f[j]
    &&& forall|k: int| 0 <= k < n1.len() ==> #[trigger] is_image(f, k)
}

/// Some edge of `e` runs from node `x` to node `y`.
pub open spec fn has_edge_between(e: Seq<(usize, usize, Seq<char>)>, x: usize, y: usize) -> bool {
    exists|k: int| 0 <= k < e.len() && e[k].0 == x && e[k].1 == y
}

/// Under `f`, every edge of `e0` has an edge of `e1` between the images of its ends.
pub open spec fn edges_kept(e0: Seq<(usize, usize, Seq<char>)>, e1: Seq<(usize, usize, Seq<char>)>, f: Seq<usize>) -> bool {
    forall|k: int| 0 <= k < e0.len() ==> has_edge_between(e1, f[(#[trigger] e0[k]).0 as int], f[e0[k].1 as int])
}

/// `Graph::new()`: a directed graph without nodes or edges.
#[verifier::external_body]
fn new_graph() -> (g: Graph<NodeAttr, String>)
    ensures
        graph_nodes(g) == Seq::<NodeAttr>::empty(),
        graph_edges(g) == Seq::<(usize, usize, Seq<char>)>::empty(),
{
    Graph::new()
}

/// `Graph::add_node`: appends a node with weight `w` and returns its index. It panics only
/// once the node count reaches the limit of the default index type (`u32::MAX`).
#[verifier::external_body]
fn add_graph_node(g: &mut Graph<NodeAttr, String>, w: NodeAttr) -> (i: usize)
    requires
        graph_nodes(*old(g)).len() < 0xFFFF_FFFF,
    ensures
        i == graph_nodes(*old(g)).len(),
        graph_nodes(*final(g)) == graph_nodes(*old(g)).push(w),
        graph_edges(*final(g)) == graph_edges(*old(g)),
{
    g.add_node(w).index()
}

/// `Graph::add_edge`: appends an edge from node `a` to node `b` with weight `w`. It panics
/// where a node does not exist, or once the edge count reaches the limit of the default
/// index type (`u32::MAX`).
#[verifier::external_body]
fn add_graph_edge(g: &mut Graph<NodeAttr, String>, a: usize, b: usize, w: String)
    requires
        a < graph_nodes(*old(g)).len(),
        b < graph_nodes(*old(g)).len(),
        graph_edges(*old(g)).len() < 0xFFFF_FFFF,
    ensures
        graph_nodes(*final(g)) == graph_nodes(*old(g)),
        graph_edges(*final(g)) == graph_edges(*old(g)).push((a, b, w@)),
{
    g.add_edge(petgraph::graph::NodeIndex::new(a), petgraph::graph::NodeIndex::new(b), w);
}

/// Whether two node weights are equal.
fn same_node_attr(a: &NodeAttr, b: &NodeAttr) -> (r: bool)
    ensures
        r == (*a == *b),
{
    a.start == b.start && a.accept == b.accept
}

/// Whether two edge weights read the same.
fn same_label(a: &String, b: &String) -> (r: bool)
    ensures
        r == (a@ == b@),
{
    let x = chars_of(a.as_str());
    let y = chars_of(b.as_str());
    if x.len() != y.len() {
        return false;
    }
    for i in 0..x.len()
        invariant
            x@ == a@,
            y@ == b@,
            x@.len() == y@.len(),
            forall|j: int| 0 <= j < i ==> x@[j] == y@[j],
    {
        if x[i] != y[i] {
            return false;
        }
    }
    assert(x@ =~= y@);
    true
}

/// `petgraph::algo::is_isomorphic_matching` on two graphs, node and edge weights compared
/// by equality. As its source shows, graphs with different node or edge counts are not
/// isomorphic, and a `true` answer comes only from a complete mapping of the nodes of `g0`
/// one to one onto those of `g1` in which every pair passed the node comparison (so has
/// equal weights) and every edge of `g0` has an edge of `g1` between the images of its
/// ends (each newly mapped node's mapped neighbours are checked for adjacency, both ways).
/// What it checks of edge weights is left unsaid (on parallel edges it compares the first
/// one found), and its answer is otherwise named, not stated.
#[verifier::external_body]
fn graphs_isomorphic(g0: &Graph<NodeAttr, String>, g1: &Graph<NodeAttr, String>) -> (r: bool)
    ensures
        r == petgraph_isomorphic_matching(graph_nodes(*g0), graph_edges(*g0), graph_nodes(*g1), graph_edges(*g1)),
        graph_nodes(*g0).len() != graph_nodes(*g1).len() || graph_edges(*g0).len() != graph_edges(*g1).len() ==> !r,
        r ==> exists|f: Seq<usize>| #[trigger] weight_preserving_bijection(graph_nodes(*g0), graph_nodes(*g1), f)
            && edges_kept(graph_edges(*g0), graph_edges(*g1), f),
{
    petgraph::algo::is_isomorphic_matching(g0, g1, |x, y| same_node_attr(x, y), |x, y| same_label(x, y))
}

/// The node weights of the graph of `a`: one per state, in order.
pub open spec fn node_attrs_of<A: Automaton>(a: &A) -> Seq<NodeAttr> {
    Seq::new(a.spec_transitions().len(), |i: int| NodeAttr {
        start: a.spec_start() == i,
        accept: a.spec_accepting().contains(i as usize),
    })
}

/// The edges of the graph for the transitions `row` of state `from`.
pub open spec fn row_edges<A: Automaton>(from: nat, row: Seq<(A::Label, usize)>) -> Seq<(usize, usize, Seq<char>)> {
    Seq::new(row.len(), |j: int| (from as usize, row[j].1, A::spec_encode(row[j].0)))
}

/// The edges of the graph for the transitions of the first `k` states of `a`, in order.
pub open spec fn edges_of<A: Automaton>(a: &A, k: nat) -> Seq<(usize, usize, Seq<char>)>
    decreases k,
{
    if k == 0 || k > a.spec_transitions().len() {
        Seq::empty()
    } else {
        edges_of(a, (k - 1) as nat) + row_edges::<A>((k - 1) as nat, a.spec_transitions()[k - 1])
    }
}

/// The labelled graph of `a` fits `petgraph`'s default index type.
pub open spec fn fits_graph<A: Automaton>(a: &A) -> bool {
    &&& a.spec_transitions().len() < 0xFFFF_FFFF
    &&& edges_of(a, a.spec_transitions().len()).len() < 0xFFFF_FFFF
}

/// `a` and `b` are isomorphic as labelled graphs, as `petgraph` decides it: the same
/// number of states, and a matching of their graphs that keeps start and accepting marks
/// and edge labels.
pub open spec fn isomorphic_spec<A: Automaton>(a: &A, b: &A) -> bool {
    a.spec_transitions().len() == b.spec_transitions().len() && petgraph_isomorphic_matching(
        node_attrs_of(a),
        edges_of(a, a.spec_transitions().len()),
        node_attrs_of(b),
        edges_of(b, b.spec_transitions().len()),
    )
}

/// Whether the labelled graph of `a` fits `petgraph`'s default index type.
pub fn fits_graph_check<A: Automaton>(a: &A) -> (r: bool)
    ensures
        r == fits_graph(a),
{
    let states = a.get_states();
    let n = states.len();
    if n >= 0xFFFF_FFFF {
        return false;
    }
    let ghost t = a.spec_transitions();
    let mut total: usize = 0;
    for i in 0..n
        invariant
            n == t.len(),
            t == a.spec_transitions(),
            crate::automaton::transitions_of(states@) == t,
            total == edges_of(a, i as nat).len(),
            total < 0xFFFF_FFFF,
    {
        let len = states[i].transitions.len();
        assert(t[i as int] == states@[i as int].transitions@);
        if len >= 0xFFFF_FFFF - total {
            proof {
                lemma_edges_of_grows(a, (i + 1) as nat, n as nat);
            }
            return false;
        }
        total = total + len;
    }
    true
}

/// Every prefix of the edge list is at most as long as the list.
proof fn lemma_edges_of_grows<A: Automaton>(a: &A, k: nat, k2: nat)
    requires
        k <= k2 <= a.spec_transitions().len(),
    ensures
        edges_of(a, k).len() <= edges_of(a, k2).len(),
    decreases k2 - k,
{
    if k < k2 {
        lemma_edges_of_grows(a, k, (k2 - 1) as nat);
    }
}

/// The labelled graph of `automaton`: a node per state (in order) recording whether it is
/// the start state and whether it is accepting, and an edge per transition (in order)
/// weighted with the label's text.
pub fn automaton_to_graph_impl<A: Automaton>(automaton: &A) -> (g: Graph<NodeAttr, String>)
    requires
        automaton.wf(),
        fits_graph(automaton),
    ensures
        graph_nodes(g) == node_attrs_of(automaton),
        graph_edges(g) == edges_of(automaton, automaton.spec_transitions().len()),
{
    proof { automaton.lemma_wf(); }
    let mut g = new_graph();
    let accept_states = automaton.accept_states();
    let start = automaton.start_state();
    let n = automaton.state_count();
    for i in 0..n
        invariant
            n == automaton.spec_transitions().len(),
            n < 0xFFFF_FFFF,
            start == automaton.spec_start(),
            accept_states@ == automaton.spec_accepting(),
            graph_nodes(g) == node_attrs_of(automaton).take(i as int),
            graph_edges(g) == Seq::<(usize, usize, Seq<char>)>::empty(),
    {
        add_graph_node(&mut g, NodeAttr { start: i == start, accept: accept_states.contains(&i) });
        proof {
            assert(graph_nodes(g) =~= node_attrs_of(automaton).take(i + 1));
        }
    }
    proof {
        assert(node_attrs_of(automaton).take(n as int) =~= node_attrs_of(automaton));
    }
    for from in 0..n
        invariant
            n == automaton.spec_transitions().len(),
            targets_in_range(automaton.spec_transitions()),
            fits_graph(automaton),
            graph_nodes(g) == node_attrs_of(automaton),
            graph_edges(g) == edges_of(automaton, from as nat),
    {
        let row = automaton.transitions_from(from);
        let ghost before = graph_edges(g);
        proof {
            lemma_edges_of_grows(automaton, (from + 1) as nat, n as nat);
        }
        for j in 0..row.len()
            invariant
                n == automaton.spec_transitions().len(),
                from < n,
                targets_in_range(automaton.spec_transitions()),
                row@ == automaton.spec_transitions()[from as int],
                graph_nodes(g) == node_attrs_of(automaton),
                before == edges_of(automaton, from as nat),
                before.len() + row@.len() < 0xFFFF_FFFF,
                graph_edges(g) == before + row_edges::<A>(from as nat, row@).take(j as int),
        {
            let (label, to) = row[j];
            assert(automaton.spec_transitions()[from as int][j as int] == row@[j as int]);
            let encoded = A::encode_label(&label);
            add_graph_edge(&mut g, from, to, encoded);
            proof {
                assert(graph_edges(g) =~= before + row_edges::<A>(from as nat, row@).take(j + 1));
            }
        }
        proof {
            assert(row_edges::<A>(from as nat, row@).take(row@.len() as int) =~= row_edges::<A>(from as nat, row@));
            assert(graph_edges(g) =~= edges_of(automaton, (from + 1) as nat));
        }
    }
    g
}

/// `f` pairs the states of `a` one to one with those of `b` (state `i` with state `f[i]`),
/// the start state with the start state and accepting states exactly with accepting states.
pub open spec fn states_matched<A: Automaton>(a: &A, b: &A, f: Seq<usize>) -> bool {
    let n = a.spec_transitions().len();
    &&& b.spec_transitions().len() == n
    &&& f.len() == n
    &&& forall|i: int| 0 <= i < n ==> #[trigger] f[i] < n
    &&& forall|i: int, j: int| 0 <= i < j < n ==> f[i] != f[j]
    &&& forall|k: int| 0 <= k < n ==> #[trigger] is_image(f, k)
    &&& forall|i: int| 0 <= i < n ==> ((i == a.spec_start()) <==> (#[trigger] f[i] == b.spec_start()))
    &&& forall|i: int| 0 <= i < n ==> (a.spec_accepting().contains(i as usize) <==> b.spec_accepting().contains(#[trigger] f[i]))
}

/// Under `f`, every transition of `a` from `u` to `v` has a transition of `b` from `f[u]`
/// to `f[v]`.
pub open spec fn transitions_matched<A: Automaton>(a: &A, b: &A, f: Seq<usize>) -> bool {
    forall|u: int, q: int| 0 <= u < a.spec_transitions().len() && 0 <= q < a.spec_transitions()[u].len() ==>
        moves_to::<A>(b.spec_transitions()[f[u] as int], f[(#[trigger] a.spec_transitions()[u][q]).1 as int])
}

/// Some transition of `row` leads to `t`.
pub open spec fn moves_to<A: Automaton>(row: Seq<(A::Label, usize)>, t: usize) -> bool {
    exists|q: int| 0 <= q < row.len() && row[q].1 == t
}

/// Each transition of the first `k` states of `a` is an edge of its graph.
proof fn lemma_edges_of_has<A: Automaton>(a: &A, k: nat, u: int, q: int)
    requires
        0 <= u < k <= a.spec_transitions().len(),
        a.spec_transitions().len() <= usize::MAX,
        0 <= q < a.spec_transitions()[u].len(),
    ensures
        has_edge_between(edges_of(a, k), u as usize, a.spec_transitions()[u][q].1),
    decreases k,
{
    let prev = edges_of(a, (k - 1) as nat);
    let row = row_edges::<A>((k - 1) as nat, a.spec_transitions()[k - 1]);
    assert(edges_of(a, k) == prev + row);
    if u == k - 1 {
        let i = prev.len() + q;
        assert(edges_of(a, k)[i] == row[q]);
    } else {
        lemma_edges_of_has(a, (k - 1) as nat, u, q);
        assert(has_edge_between(prev, u as usize, a.spec_transitions()[u][q].1));
        let i = choose|i: int| 0 <= i < prev.len() && prev[i].0 == u as usize && prev[i].1 == a.spec_transitions()[u][q].1;
        assert(edges_of(a, k)[i] == prev[i]);
    }
}

/// Each edge of the graph of the first `k` states of `a` is a transition.
proof fn lemma_edges_of_from<A: Automaton>(a: &A, k: nat, i: int)
    requires
        k <= a.spec_transitions().len(),
        a.spec_transitions().len() <= usize::MAX,
        0 <= i < edges_of(a, k).len(),
    ensures
        exists|u: int, q: int| 0 <= u < k && 0 <= q < a.spec_transitions()[u].len()
            && edges_of(a, k)[i].0 == u && #[trigger] a.spec_transitions()[u][q].1 == edges_of(a, k)[i].1,
    decreases k,
{
    let prev = edges_of(a, (k - 1) as nat);
    let row = row_edges::<A>((k - 1) as nat, a.spec_transitions()[k - 1]);
    assert(edges_of(a, k) == prev + row);
    if i < prev.len() {
        lemma_edges_of_from(a, (k - 1) as nat, i);
        assert(edges_of(a, k)[i] == prev[i]);
        let (u, q) = choose|u: int, q: int| 0 <= u < k - 1 && 0 <= q < a.spec_transitions()[u].len()
            && prev[i].0 == u && #[trigger] a.spec_transitions()[u][q].1 == prev[i].1;
        assert(a.spec_transitions()[u][q].1 == edges_of(a, k)[i].1);
    } else {
        let q = i - prev.len();
        assert(edges_of(a, k)[i] == row[q]);
        assert(a.spec_transitions()[k - 1][q].1 == edges_of(a, k)[i].1);
    }
}

/// The accepting states of `a` that are states of it.
pub open spec fn accepting_states<A: Automaton>(a: &A) -> Set<usize> {
    Set::new(|s: usize| s < a.spec_transitions().len() && a.spec_accepting().contains(s))
}

/// Automata whose states are matched keeping start and acceptance have their start states
/// matched, and as many accepting states: automata with different numbers of accepting
/// states are never isomorphic.
pub proof fn lemma_states_matched<A: Automaton>(a: &A, b: &A, f: Seq<usize>)
    requires
        states_matched(a, b, f),
        a.spec_start() < a.spec_transitions().len(),
        a.spec_transitions().len() <= usize::MAX,
    ensures
        f[a.spec_start() as int] == b.spec_start(),
        accepting_states(a).len() == accepting_states(b).len(),
        accepting_states(a).finite(),
{
    let n = a.spec_transitions().len();
    assert(f[a.spec_start() as int] == b.spec_start());
    let x = accepting_states(a);
    let y = accepting_states(b);
    let g = |s: usize| f[s as int];
    assert(x.subset_of(below(n)));
    crate::sets::lemma_subset_below(x, n);
    assert(vstd::relations::injective_on(g, x)) by {
        assert forall|s: usize, t: usize| x.contains(s) && x.contains(t) && #[trigger] g(s) == #[trigger] g(t) implies s == t by {
            if s < t {
                assert(f[s as int] != f[t as int]);
            } else if t < s {
                assert(f[t as int] != f[s as int]);
            }
        }
    }
    assert forall|t: usize| #[trigger] y.contains(t) <==> x.map(g).contains(t) by {
        if y.contains(t) {
            assert(is_image(f, t as int));
            let i = choose|i: int| 0 <= i < f.len() && f[i] == t;
            assert(f[i] < n);
            assert(a.spec_accepting().contains(i as usize) <==> b.spec_accepting().contains(f[i]));
            assert(x.contains(i as usize));
            assert(g(i as usize) == t);
        }
        if x.map(g).contains(t) {
            let s = choose|s: usize| x.contains(s) && g(s) == t;
            assert(f[s as int] < n);
        }
    }
    assert(x.map(g) =~= y);
    vstd::set_lib::lemma_map_size(x, y, g);
}

/// Whether `a` and `b` are isomorphic as labelled graphs: the same number of states, and a
/// matching of their graphs that keeps start and accepting marks and edge labels. When it
/// answers yes, the states of `a` are matched one to one with those of `b`, the start state
/// with the start state and accepting states exactly with accepting states.
pub fn automaton_isomorphic<A: Automaton>(a: &A, b: &A) -> (r: bool)
    requires
        a.wf(),
        b.wf(),
        fits_graph(a),
        fits_graph(b),
    ensures
        r == isomorphic_spec(a, b),
        r ==> exists|f: Seq<usize>| #[trigger] states_matched(a, b, f),
        r ==> exists|f: Seq<usize>| #[trigger] states_matched(a, b, f) && transitions_matched(a, b, f),
{
    if a.state_count() != b.state_count() {
        return false;
    }
    let ga = automaton_to_graph_impl(a);
    let gb = automaton_to_graph_impl(b);
    let r = graphs_isomorphic(&ga, &gb);
    proof {
        if r {
            let f = choose|f: Seq<usize>| #[trigger] weight_preserving_bijection(graph_nodes(ga), graph_nodes(gb), f)
                && edges_kept(graph_edges(ga), graph_edges(gb), f);
            let na = node_attrs_of(a);
            let nb = node_attrs_of(b);
            assert forall|i: int| 0 <= i < f.len() implies
                ((i == a.spec_start()) <==> (#[trigger] f[i] == b.spec_start()))
                && (a.spec_accepting().contains(i as usize) <==> b.spec_accepting().contains(f[i])) by {
                assert(na[i] == nb[f[i] as int]);
            }
            assert(states_matched(a, b, f));
            let n = a.spec_transitions().len();
            let ea = edges_of(a, n);
            let eb = edges_of(b, n);
            assert forall|u: int, q: int| 0 <= u < a.spec_transitions().len() && 0 <= q < a.spec_transitions()[u].len() implies
                moves_to::<A>(b.spec_transitions()[f[u] as int], f[(#[trigger] a.spec_transitions()[u][q]).1 as int]) by {
                let v = a.spec_transitions()[u][q].1;
                assert(u as usize as int == u);
                lemma_edges_of_has(a, n, u, q);
                let i = choose|i: int| 0 <= i < ea.len() && ea[i].0 == u as usize && ea[i].1 == v;
                assert(has_edge_between(eb, f[ea[i].0 as int], f[ea[i].1 as int]));
                let k2 = choose|k2: int| 0 <= k2 < eb.len() && eb[k2].0 == f[u] && eb[k2].1 == f[v as int];
                lemma_edges_of_from(b, n, k2);
                let (u2, q2) = choose|u2: int, q2: int| 0 <= u2 < n && 0 <= q2 < b.spec_transitions()[u2].len()
                    && eb[k2].0 == u2 && #[trigger] b.spec_transitions()[u2][q2].1 == eb[k2].1;
                assert(eb[k2].0 == f[u]);
                assert(eb[k2].0 as int == u2);
                assert(u2 == f[u] as int);
                assert(b.spec_transitions()[f[u] as int][q2].1 == f[v as int]);
            }
            assert(transitions_matched(a, b, f));
        }
    }
    r
}

impl EpsilonNfa {
    /// Whether the two automata are isomorphic as labelled graphs. When they are, their
    /// states are matched one to one, the start state with the start state, accepting
    /// states exactly with accepting states, and each transition with a transition between
    /// the matched states.
    pub fn is_isomorphic_to(&self, other: &Self) -> (r: bool)
        requires
            self.well_formed(),
            other.well_formed(),
            fits_graph(self),
            fits_graph(other),
        ensures
            r == isomorphic_spec(self, other),
            r ==> exists|f: Seq<usize>| #[trigger] states_matched(self, other, f),
            r ==> exists|f: Seq<usize>| #[trigger] states_matched(self, other, f) && transitions_matched(self, other, f),
    {
        automaton_isomorphic(self, other)
    }
}

impl Nfa {
    /// Whether the two automata are isomorphic as labelled graphs. When they are, their
    /// states are matched one to one, the start state with the start state, accepting
    /// states exactly with accepting states, and each transition with a transition between
    /// the matched states.
    pub fn is_isomorphic_to(&self, other: &Self) -> (r: bool)
        requires
            self.well_formed(),
            other.well_formed(),
            fits_graph(self),
            fits_graph(other),
        ensures
            r == isomorphic_spec(self, other),
            r ==> exists|f: Seq<usize>| #[trigger] states_matched(self, other, f),
            r ==> exists|f: Seq<usize>| #[trigger] states_matched(self, other, f) && transitions_matched(self, other, f),
    {
        automaton_isomorphic(self, other)
    }
}

impl Dfa {
    /// Whether the two automata are isomorphic as labelled graphs. When they are, their
    /// states are matched one to one, the start state with the start state, accepting
    /// states exactly with accepting states, and each transition with a transition between
    /// the matched states.
    pub fn is_isomorphic_to(&self, other: &Self) -> (r: bool)
        requires
            self.well_formed(),
            other.well_formed(),
            fits_graph(self),
            fits_graph(other),
        ensures
            r == isomorphic_spec(self, other),
            r ==> exists|f: Seq<usize>| #[trigger] states_matched(self, other, f),
            r ==> exists|f: Seq<usize>| #[trigger] states_matched(self, other, f) && transitions_matched(self, other, f),
    {
        automaton_isomorphic(self, other)
    }
}

} // verus!
