//! Writing automata as DOT text.
use vstd::prelude::*;
use std::collections::HashSet;
use crate::automaton::Automaton;
use crate::text::{decimal, push_decimal, push_str, chars_of, string_from_chars};

verus! {

broadcast use vstd::std_specs::hash::group_hash_axioms;

/// The attribute list of a node line, by whether the node is initial and accepting.
pub open spec fn node_attributes_text(initial: bool, accepting: bool) -> Seq<char> {
    if initial && accepting {
        " [isInitial=true, isAccepting=true]"@
    } else if initial {
        " [isInitial=true]"@
    } else if accepting {
        " [isAccepting=true]"@
    } else {
        Seq::empty()
    }
}

/// The line declaring node `i`.
pub open spec fn node_line(i: nat, initial: bool, accepting: bool) -> Seq<char> {
    "  "@ + decimal(i) + node_attributes_text(initial, accepting) + ";\n"@
}

/// The line of an edge from `from` to `to` whose label reads `label`.
pub open spec fn edge_line(from: nat, label: Seq<char>, to: nat) -> Seq<char> {
    "  "@ + decimal(from) + " -> "@ + decimal(to) + " [label=\""@ + label + "\"];\n"@
}

/// The lines declaring the first `k` nodes of `a`.
pub open spec fn node_lines<A: Automaton>(a: &A, k: nat) -> Seq<char>
    decreases k,
{
    if k == 0 {
        Seq::empty()
    } else {
        node_lines(a, (k - 1) as nat) + node_line((k - 1) as nat, a.spec_start() == k - 1, a.spec_accepting().contains((k - 1) as usize))
    }
}

/// The lines of the first `j` transitions of `row`, leaving state `from`.
pub open spec fn row_lines<A: Automaton>(from: nat, row: Seq<(A::Label, usize)>, j: nat) -> Seq<char>
    decreases j,
{
    if j == 0 || j > row.len() {
        Seq::empty()
    } else {
        row_lines::<A>(from, row, (j - 1) as nat) + edge_line(from, A::spec_encode(row[j - 1].0), row[j - 1].1 as nat)
    }
}

/// The lines of the transitions of the first `k` states of `a`.
pub open spec fn edge_lines<A: Automaton>(a: &A, k: nat) -> Seq<char>
    decreases k,
{
    if k == 0 || k > a.spec_transitions().len() {
        Seq::empty()
    } else {
        edge_lines(a, (k - 1) as nat) + row_lines::<A>((k - 1) as nat, a.spec_transitions()[k - 1], a.spec_transitions()[k - 1].len())
    }
}

/// The DOT text of `a`: a header, a line per state (marking the start state and the
/// accepting states), a blank line, a line per transition with its label, and a footer.
pub open spec fn dot_text<A: Automaton>(a: &A) -> Seq<char> {
    "digraph NFA {\n  rankdir=LR;\n"@ + node_lines(a, a.spec_transitions().len()) + "\n"@
        + edge_lines(a, a.spec_transitions().len()) + "}\n"@
}

/// Writes `automaton` as DOT text.
pub fn to_dot<A: Automaton>(automaton: &A) -> (r: String)
    ensures
        r@ == dot_text(automaton),
{
    let mut s: Vec<char> = Vec::new();
    push_str(&mut s, "digraph NFA {\n  rankdir=LR;\n");
    let accept_states = automaton.accept_states();
    let start = automaton.start_state();
    let n = automaton.state_count();
    let ghost header = s@;
    for i in 0..n
        invariant
            n == automaton.spec_transitions().len(),
            start == automaton.spec_start(),
            accept_states@ == automaton.spec_accepting(),
            s@ == header + node_lines(automaton, i as nat),
    {
        let initial = i == start;
        let accepting = accept_states.contains(&i);
        push_str(&mut s, "  ");
        push_decimal(&mut s, i);
        if initial && accepting {
            push_str(&mut s, " [isInitial=true, isAccepting=true]");
        } else if initial {
            push_str(&mut s, " [isInitial=true]");
        } else if accepting {
            push_str(&mut s, " [isAccepting=true]");
        }
        push_str(&mut s, ";\n");
        proof {
            assert(s@ =~= header + node_lines(automaton, (i + 1) as nat));
        }
    }
    push_str(&mut s, "\n");
    let ghost middle = s@;
    for from in 0..n
        invariant
            n == automaton.spec_transitions().len(),
            s@ == middle + edge_lines(automaton, from as nat),
    {
        let row = automaton.transitions_from(from);
        let ghost before = s@;
        for j in 0..row.len()
            invariant
                n == automaton.spec_transitions().len(),
                from < n,
                row@ == automaton.spec_transitions()[from as int],
                s@ == before + row_lines::<A>(from as nat, row@, j as nat),
        {
            let (label, to) = row[j];
            let encoded = A::encode_label(&label);
            push_str(&mut s, "  ");
            push_decimal(&mut s, from);
            push_str(&mut s, " -> ");
            push_decimal(&mut s, to);
            push_str(&mut s, " [label=\"");
            push_str(&mut s, encoded.as_str());
            push_str(&mut s, "\"];\n");
            proof {
                assert(s@ =~= before + row_lines::<A>(from as nat, row@, (j + 1) as nat));
            }
        }
        proof {
            assert(s@ =~= middle + edge_lines(automaton, (from + 1) as nat));
        }
    }
    push_str(&mut s, "}\n");
    proof {
        assert(s@ =~= dot_text(automaton));
    }
    string_from_chars(&s)
}

} // verus!
