//! The exercise "pattern to NFA": the answer is the DOT text of an NFA; it is right when it
//! is isomorphic to the NFA built from the pattern. Automata too dense to draw usefully are
//! refused.
use vstd::prelude::*;
use crate::automaton::{Automaton, transitions_of};
use crate::dot::{DotGraph, parse_dot, parse_error};
use crate::dot_automata::{nfa_from_dot_outcome, nfa_from_graph_outcome, nfa_from_graph};
use crate::dot_text::dot_text;
use crate::env::{EnvError, ValidationResult, env_error, env_error_text, fails_with, mismatch_not_isomorphic};
use crate::epsilon_nfa::EpsilonNfa;
use crate::epsilon_removal::is_nfa_of;
use crate::errors::{Result, error_text};
use crate::isomorphism::{fits_graph, fits_graph_check, isomorphic_spec};
use crate::nfa::Nfa;
use crate::thompson::{from_regex_outcome, lemma_from_regex_outcome_unique};
use crate::text::string_from_chars;

verus! {

/// The input: a pattern.
#[derive(Debug, Clone)]
pub struct Input {
    pub regex: String,
}

/// The answer: DOT text.
#[derive(Debug, Clone)]
pub struct Output {
    pub dot: String,
}

impl Default for Input {
    fn default() -> (r: Self)
        ensures
            r.regex@ == Seq::<char>::empty(),
    {
        Input { regex: string_from_chars(&Vec::new()) }
    }
}

impl Default for Output {
    fn default() -> (r: Self)
        ensures
            r.dot@ == Seq::<char>::empty(),
    {
        Output { dot: string_from_chars(&Vec::new()) }
    }
}

/// Number of transitions of the first `k` rows.
pub open spec fn transition_count<L>(t: Seq<Seq<(L, usize)>>, k: nat) -> nat
    decreases k,
{
    if k == 0 || k > t.len() {
        0
    } else {
        transition_count(t, (k - 1) as nat) + t[k - 1].len()
    }
}

/// More than ten states, and more than seven transitions per state on average (rounded down).
pub open spec fn too_complex<L>(t: Seq<Seq<(L, usize)>>) -> bool {
    t.len() != 0 && transition_count(t, t.len()) / t.len() > 7 && t.len() > 10
}

/// Counts of transitions grow with the number of rows counted.
proof fn lemma_transition_count_grows<L>(t: Seq<Seq<(L, usize)>>, k: nat, k2: nat)
    requires
        k <= k2 <= t.len(),
    ensures
        transition_count(t, k) <= transition_count(t, k2),
    decreases k2 - k,
{
    if k < k2 {
        lemma_transition_count_grows(t, k, (k2 - 1) as nat);
    }
}

/// Rounded-down division by `n` exceeds 7 exactly from `8 n` on.
proof fn lemma_average_above_seven(e: nat, n: nat)
    requires
        n > 0,
    ensures
        (e / n > 7) == (e >= 8 * n),
{
    if e >= 8 * n {
        assert(e / n >= 8) by (nonlinear_arith)
            requires e >= 8 * n, n > 0;
    } else {
        assert(e / n < 8) by (nonlinear_arith)
            requires e < 8 * n, n > 0;
    }
}

/// Whether drawing the automaton would take long and help little: more than ten states
/// with more than seven transitions per state on average.
pub fn is_too_complex_to_visualize<A: Automaton>(automaton: &A) -> (r: bool)
    ensures
        r == too_complex(automaton.spec_transitions()),
{
    let states = automaton.get_states();
    let ghost t = automaton.spec_transitions();
    let node_count = states.len();
    if node_count == 0 {
        return false;
    }
    let threshold: u128 = 8 * (node_count as u128);
    let mut edge_count: u128 = 0;
    let mut i: usize = 0;
    while i < node_count
        invariant
            node_count == t.len(),
            t == transitions_of(states@),
            t == automaton.spec_transitions(),
            threshold == 8 * node_count,
            0 <= i <= node_count,
            edge_count == transition_count(t, i as nat),
            edge_count < threshold,
        decreases node_count - i,
    {
        assert(t[i as int] == states@[i as int].transitions@);
        edge_count = edge_count + (states[i].transitions.len() as u128);
        i = i + 1;
        assert(edge_count == transition_count(t, i as nat));
        if edge_count >= threshold {
            proof {
                lemma_transition_count_grows(t, i as nat, node_count as nat);
                lemma_average_above_seven(transition_count(t, t.len()), node_count as nat);
            }
            return node_count > 10;
        }
    }
    proof {
        lemma_average_above_seven(transition_count(t, t.len()), node_count as nat);
    }
    false
}

/// The NFA the pattern `regex` gives, if the pattern is accepted.
pub open spec fn expected_nfa(regex: Seq<char>, m: Nfa) -> bool {
    exists|a: EpsilonNfa| #[trigger] from_regex_outcome(regex, None, Ok(a)) && is_nfa_of(&m, &a)
}

/// The pattern `regex` is refused with the error `e`.
pub open spec fn refused(regex: Seq<char>, e: crate::errors::Error) -> bool {
    from_regex_outcome(regex, None, Err(e))
}

/// The DOT text of the NFA of the pattern; a refused pattern fails with the library's
/// description of why, and an NFA too dense to draw usefully fails too.
pub fn run(input: &Input) -> (r: core::result::Result<Output, EnvError>)
    ensures
        (exists|e: crate::errors::Error| #[trigger] refused(input.regex@, e)) ==>
            exists|e: crate::errors::Error| #[trigger] refused(input.regex@, e) && fails_with(r, error_text(e)),
        (forall|e: crate::errors::Error| !#[trigger] refused(input.regex@, e)) ==>
            exists|m: Nfa| #[trigger] expected_nfa(input.regex@, m) && if too_complex(m.spec_transitions()) {
                fails_with(r, "Automaton likely takes a long time to visualize and given it's complexity it won't be useful for learning"@)
            } else {
                r matches Ok(o) && o.dot@ == dot_text(&m)
            },
{
    let m = match EpsilonNfa::from_regex(input.regex.as_str(), None) {
        Err(e) => {
            assert(refused(input.regex@, e));
            return Err(env_error(&e));
        },
        Ok(a) => {
            proof {
                assert forall|e: crate::errors::Error| !#[trigger] refused(input.regex@, e) by {
                    if refused(input.regex@, e) {
                        lemma_from_regex_outcome_unique(input.regex@, None, Ok(a), Err(e));
                    }
                }
            }
            let m = a.to_nfa();
            assert(expected_nfa(input.regex@, m));
            m
        },
    };
    if is_too_complex_to_visualize(&m) {
        return Err(env_error_text("Automaton likely takes a long time to visualize and given it's complexity it won't be useful for learning"));
    }
    Ok(Output { dot: m.to_dot() })
}

/// The Nfa expected for the pattern, or the failure that its refusal gives.
fn expected_automaton(input: &Input) -> (r: core::result::Result<Nfa, EnvError>)
    ensures
        match r {
            Ok(m) => expected_nfa(input.regex@, m) && forall|e: crate::errors::Error| !#[trigger] refused(input.regex@, e),
            Err(_) => exists|e: crate::errors::Error| #[trigger] refused(input.regex@, e) && fails_with(r, error_text(e)),
        },
{
    match EpsilonNfa::from_regex(input.regex.as_str(), None) {
        Err(e) => {
            assert(refused(input.regex@, e));
            Err(env_error(&e))
        },
        Ok(a) => {
            proof {
                assert forall|e: crate::errors::Error| !#[trigger] refused(input.regex@, e) by {
                    if refused(input.regex@, e) {
                        lemma_from_regex_outcome_unique(input.regex@, None, Ok(a), Err(e));
                    }
                }
            }
            let m = a.to_nfa();
            assert(expected_nfa(input.regex@, m));
            Ok(m)
        },
    }
}

/// Checks an answer already parsed into the DOT graph `graph`: the pattern must be
/// accepted and the graph must read as an NFA; it is right when that automaton is
/// isomorphic to the expected one. Automata too large for the graph comparison are refused.
pub fn validate_graph(input: &Input, graph: &DotGraph) -> (r: core::result::Result<ValidationResult, EnvError>)
    ensures
        (exists|e: crate::errors::Error| #[trigger] refused(input.regex@, e)) ==>
            exists|e: crate::errors::Error| #[trigger] refused(input.regex@, e) && fails_with(r, error_text(e)),
        (forall|e: crate::errors::Error| !#[trigger] refused(input.regex@, e)) ==>
            exists|m: Nfa, p: Result<Nfa>| #[trigger] expected_nfa(input.regex@, m) && #[trigger] nfa_from_graph_outcome(*graph, p) && match p {
                Err(e) => fails_with(r, error_text(e)),
                Ok(q) => if !(fits_graph(&q) && fits_graph(&m)) {
                    fails_with(r, "automaton too large to compare"@)
                } else if isomorphic_spec(&q, &m) {
                    r matches Ok(ValidationResult::Correct)
                } else {
                    r matches Ok(ValidationResult::Mismatch { reason }) && reason@ == "produced automaton is not isomorphic to expected"@
                },
            },
{
    let expected = match expected_automaton(input) {
        Err(e) => return Err(e),
        Ok(m) => m,
    };
    let read = nfa_from_graph(graph);
    let ghost p = read;
    assert(nfa_from_graph_outcome(*graph, p));
    let produced = match read {
        Err(e) => return Err(env_error(&e)),
        Ok(q) => q,
    };
    if !fits_graph_check(&produced) || !fits_graph_check(&expected) {
        return Err(env_error_text("automaton too large to compare"));
    }
    if produced.is_isomorphic_to(&expected) {
        Ok(ValidationResult::Correct)
    } else {
        Ok(mismatch_not_isomorphic())
    }
}

/// Checks an answer: its DOT text is parsed and the graph checked by `validate_graph`.
/// The pattern is looked at first: a refused pattern fails with its refusal, whatever the
/// answer; a failed parse is reported with the parser's message.
pub fn validate(input: &Input, output: &Output) -> (r: core::result::Result<ValidationResult, EnvError>)
    ensures
        (exists|e: crate::errors::Error| #[trigger] refused(input.regex@, e)) ==>
            exists|e: crate::errors::Error| #[trigger] refused(input.regex@, e) && fails_with(r, error_text(e)),
        (forall|e: crate::errors::Error| !#[trigger] refused(input.regex@, e)) ==>
            exists|m: Nfa, p: Result<Nfa>| #[trigger] expected_nfa(input.regex@, m) && #[trigger] nfa_from_dot_outcome(output.dot@, p) && match p {
                Err(e) => fails_with(r, error_text(e)),
                Ok(q) => if !(fits_graph(&q) && fits_graph(&m)) {
                    fails_with(r, "automaton too large to compare"@)
                } else if isomorphic_spec(&q, &m) {
                    r matches Ok(ValidationResult::Correct)
                } else {
                    r matches Ok(ValidationResult::Mismatch { reason }) && reason@ == "produced automaton is not isomorphic to expected"@
                },
            },
{
    match parse_dot(output.dot.as_str()) {
        Ok(g) => {
            let r = validate_graph(input, &g);
            proof {
                if forall|e: crate::errors::Error| !#[trigger] refused(input.regex@, e) {
                    let (m, p) = choose|m: Nfa, p: Result<Nfa>| #[trigger] expected_nfa(input.regex@, m) && #[trigger] nfa_from_graph_outcome(g, p) && match p {
                        Err(e) => fails_with(r, error_text(e)),
                        Ok(q) => if !(fits_graph(&q) && fits_graph(&m)) {
                            fails_with(r, "automaton too large to compare"@)
                        } else if isomorphic_spec(&q, &m) {
                            r matches Ok(ValidationResult::Correct)
                        } else {
                            r matches Ok(ValidationResult::Mismatch { reason }) && reason@ == "produced automaton is not isomorphic to expected"@
                        },
                    };
                    assert(nfa_from_dot_outcome(output.dot@, p));
                }
            }
            r
        },
        Err(e) => {
            if let Err(x) = expected_automaton(input) {
                return Err(x);
            }
            let x = parse_error(&e);
            let ghost p = Err::<Nfa, crate::errors::Error>(x);
            assert(nfa_from_dot_outcome(output.dot@, p));
            Err(env_error(&x))
        },
    }
}

} // verus!
