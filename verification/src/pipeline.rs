//! What the automata built from a pattern accept: the epsilon-NFA, its NFA, and the DFAs
//! built from either, all accept exactly the words the pattern matches.
use vstd::prelude::*;
use crate::automaton::{accepts_spec, transitions_of};
use crate::determinize::{is_dfa_of_nfa, is_dfa_of_enfa};
use crate::dfa::Dfa;
use crate::epsilon_nfa::EpsilonNfa;
use crate::epsilon_removal::{is_nfa_of, is_epsilon_removal_of};
use crate::nfa::Nfa;
use crate::prune::is_pruning_of;
use crate::regex::{RegexAst, thompson, lemma_thompson_narrow};
use crate::routes::{no_edge_into_start, same_up_to_renaming, lemma_construction_routes_agree};
use crate::regex_language::in_language;
use crate::subset::over_alphabet;
use crate::thompson::{from_ast_outcome, row_labels};
use crate::walks::{walk, lemma_accepts_walks, lemma_walk_labels};

verus! {

/// The automata built from a pattern accept exactly the words it matches: the epsilon-NFA,
/// its NFA, the DFA of that NFA, and the DFA built from the epsilon-NFA directly.
pub proof fn lemma_pattern_automata_language(
    ast: RegexAst,
    alphabet: Option<Set<u8>>,
    e: &EpsilonNfa,
    n: &Nfa,
    d1: &Dfa,
    d2: &Dfa,
    w: Seq<u8>,
)
    requires
        from_ast_outcome(ast, alphabet, Ok(*e)),
        is_nfa_of(n, e),
        is_dfa_of_nfa(d1, n),
        is_dfa_of_enfa(d2, e),
    ensures
        accepts_spec(e, w) == in_language(ast, w),
        accepts_spec(n, w) == in_language(ast, w),
        accepts_spec(d1, w) == in_language(ast, w),
        accepts_spec(d2, w) == in_language(ast, w),
{
    let rows = transitions_of(e.states@);
    let m = choose|m: Nfa| is_epsilon_removal_of(&m, e) && #[trigger] is_pruning_of(n, &m);
    assert(n.alphabet@ == e.alphabet@);
    assert(row_labels(rows).subset_of(e.alphabet@));
    if in_language(ast, w) {
        assert(accepts_spec(e, w));
        lemma_accepts_walks(e, w);
        let k = choose|k: nat| #[trigger] walk(rows, 0, e.start, w, e.accept, k);
        lemma_walk_labels(rows, e.start, w, e.accept, k);
        assert(over_alphabet(w, e.alphabet@));
    }
}

/// The epsilon-NFA built from a pattern has no transition into its start state, and at most
/// two transitions out of any state.
pub proof fn lemma_pattern_automaton_shape(ast: RegexAst, alphabet: Option<Set<u8>>, e: &EpsilonNfa)
    requires
        from_ast_outcome(ast, alphabet, Ok(*e)),
    ensures
        no_edge_into_start(e),
        forall|s: usize| s < e.states@.len() ==> #[trigger] e.trans(s).len() <= 2,
{
    let f = thompson(ast, 0);
    lemma_thompson_narrow(ast, 0);
    let rows = transitions_of(e.states@);
    assert forall|s: usize, q: int| s < e.states@.len() && 0 <= q < e.trans(s).len() implies (#[trigger] e.trans(s)[q]).1 != e.start by {
        assert(e.trans(s) == rows[s as int]);
        assert(f.rows[s as int][q] == e.trans(s)[q]);
    }
    assert forall|s: usize| s < e.states@.len() implies #[trigger] e.trans(s).len() <= 2 by {
        assert(e.trans(s) == rows[s as int]);
    }
}

/// For every pattern, the DFA built directly from its epsilon-NFA and the DFA built through
/// the NFA are the same automaton up to the names of their states.
pub proof fn lemma_pattern_routes_agree(
    ast: RegexAst,
    alphabet: Option<Set<u8>>,
    e: &EpsilonNfa,
    n: &Nfa,
    d1: &Dfa,
    d2: &Dfa,
)
    requires
        from_ast_outcome(ast, alphabet, Ok(*e)),
        is_nfa_of(n, e),
        is_dfa_of_nfa(d1, n),
        is_dfa_of_enfa(d2, e),
    ensures
        same_up_to_renaming(d1, d2),
{
    lemma_pattern_automaton_shape(ast, alphabet, e);
    lemma_construction_routes_agree(e, n, d1, d2);
}

} // verus!
