//! The exercise "pattern to DFA": the answer is the DOT text of a DFA; it is right when it
//! is isomorphic to the DFA built from the pattern by way of its NFA.
use vstd::prelude::*;
use crate::determinize::is_dfa_of_nfa;
use crate::dfa::Dfa;
use crate::dot::{DotGraph, parse_dot, parse_error};
use crate::dot_automata::{dfa_from_dot_outcome, dfa_from_graph_outcome, dfa_from_graph};
use crate::dot_text::dot_text;
use crate::env::{EnvError, ValidationResult, env_error, env_error_text, fails_with, mismatch_not_isomorphic};
use crate::epsilon_nfa::EpsilonNfa;
use crate::epsilon_removal::is_nfa_of;
use crate::errors::{Result, error_text};
use crate::isomorphism::{fits_graph, fits_graph_check, isomorphic_spec};
use crate::nfa::Nfa;
use crate::thompson::from_regex_outcome;
use crate::text::string_from_chars;

verus! {

/// The input: a pattern.
#[derive(Debug, Clone)]
pub struct Input {
    pub regex: String,
}

/// The answer: DOT text.
#[derive(Debug, Clone)]
pub struct Output {
    pub dot: String,
}

impl Default for Input {
    fn default() -> (r: Self)
        ensures
            r.regex@ == Seq::<char>::empty(),
    {
        Input { regex: string_from_chars(&Vec::new()) }
    }
}

impl Default for Output {
    fn default() -> (r: Self)
        ensures
            r.dot@ == Seq::<char>::empty(),
    {
        Output { dot: string_from_chars(&Vec::new()) }
    }
}

/// The DFA the pattern `regex` gives by way of its NFA, if the pattern is accepted.
pub open spec fn expected_dfa(regex: Seq<char>, d: Dfa) -> bool {
    exists|a: EpsilonNfa, m: Nfa| #[trigger] from_regex_outcome(regex, None, Ok(a))
        && #[trigger] is_nfa_of(&m, &a) && is_dfa_of_nfa(&d, &m)
}

/// The pattern `regex` is refused with the error `e`.
pub open spec fn refused(regex: Seq<char>, e: crate::errors::Error) -> bool {
    from_regex_outcome(regex, None, Err(e))
}

/// The DOT text of the DFA of the pattern, built by way of its NFA; a refused pattern fails
/// with the library's description of why.
pub fn run(input: &Input) -> (r: core::result::Result<Output, EnvError>)
    ensures
        match r {
            Ok(o) => exists|d: Dfa| #[trigger] expected_dfa(input.regex@, d) && o.dot@ == dot_text(&d),
            Err(_) => exists|e: crate::errors::Error| #[trigger] refused(input.regex@, e) && fails_with(r, error_text(e)),
        },
{
    match EpsilonNfa::from_regex(input.regex.as_str(), None) {
        Err(e) => {
            assert(refused(input.regex@, e));
            Err(env_error(&e))
        },
        Ok(a) => {
            let m = a.to_nfa();
            let d = m.to_dfa();
            assert(expected_dfa(input.regex@, d));
            Ok(Output { dot: d.to_dot() })
        },
    }
}

/// The Dfa expected for the pattern, or the failure that its refusal gives.
fn expected_automaton(input: &Input) -> (r: core::result::Result<Dfa, EnvError>)
    ensures
        match r {
            Ok(d) => expected_dfa(input.regex@, d) && forall|e: crate::errors::Error| !#[trigger] refused(input.regex@, e),
            Err(_) => exists|e: crate::errors::Error| #[trigger] refused(input.regex@, e) && fails_with(r, error_text(e)),
        },
{
    match EpsilonNfa::from_regex(input.regex.as_str(), None) {
        Err(e) => {
            assert(refused(input.regex@, e));
            Err(env_error(&e))
        },
        Ok(a) => {
            proof {
                assert forall|e: crate::errors::Error| !#[trigger] refused(input.regex@, e) by {
                    if refused(input.regex@, e) {
                        crate::thompson::lemma_from_regex_outcome_unique(input.regex@, None, Ok(a), Err(e));
                    }
                }
            }
            let m = a.to_nfa();
            let d = m.to_dfa();
            assert(expected_dfa(input.regex@, d));
            Ok(d)
        },
    }
}

/// Checks an answer already parsed into the DOT graph `graph`: the pattern must be
/// accepted and the graph must read as a DFA; it is right when that automaton is
/// isomorphic to the expected one. Automata too large for the graph comparison are refused.
pub fn validate_graph(input: &Input, graph: &DotGraph) -> (r: core::result::Result<ValidationResult, EnvError>)
    ensures
        (exists|e: crate::errors::Error| #[trigger] refused(input.regex@, e)) ==>
            exists|e: crate::errors::Error| #[trigger] refused(input.regex@, e) && fails_with(r, error_text(e)),
        (forall|e: crate::errors::Error| !#[trigger] refused(input.regex@, e)) ==>
            exists|d: Dfa, p: Result<Dfa>| #[trigger] expected_dfa(input.regex@, d) && #[trigger] dfa_from_graph_outcome(*graph, p) && match p {
                Err(e) => fails_with(r, error_text(e)),
                Ok(q) => if !(fits_graph(&q) && fits_graph(&d)) {
                    fails_with(r, "automaton too large to compare"@)
                } else if isomorphic_spec(&q, &d) {
                    r matches Ok(ValidationResult::Correct)
                } else {
                    r matches Ok(ValidationResult::Mismatch { reason }) && reason@ == "produced automaton is not isomorphic to expected"@
                },
            },
{
    let expected = match expected_automaton(input) {
        Err(e) => return Err(e),
        Ok(d) => d,
    };
    let read = dfa_from_graph(graph);
    let ghost p = read;
    assert(dfa_from_graph_outcome(*graph, p));
    let produced = match read {
        Err(e) => return Err(env_error(&e)),
        Ok(q) => q,
    };
    if !fits_graph_check(&produced) || !fits_graph_check(&expected) {
        return Err(env_error_text("automaton too large to compare"));
    }
    if produced.is_isomorphic_to(&expected) {
        Ok(ValidationResult::Correct)
    } else {
        Ok(mismatch_not_isomorphic())
    }
}

/// Checks an answer: its DOT text is parsed and the graph checked by `validate_graph`.
/// The pattern is looked at first: a refused pattern fails with its refusal, whatever the
/// answer; a failed parse is reported with the parser's message.
pub fn validate(input: &Input, output: &Output) -> (r: core::result::Result<ValidationResult, EnvError>)
    ensures
        (exists|e: crate::errors::Error| #[trigger] refused(input.regex@, e)) ==>
            exists|e: crate::errors::Error| #[trigger] refused(input.regex@, e) && fails_with(r, error_text(e)),
        (forall|e: crate::errors::Error| !#[trigger] refused(input.regex@, e)) ==>
            exists|d: Dfa, p: Result<Dfa>| #[trigger] expected_dfa(input.regex@, d) && #[trigger] dfa_from_dot_outcome(output.dot@, p) && match p {
                Err(e) => fails_with(r, error_text(e)),
                Ok(q) => if !(fits_graph(&q) && fits_graph(&d)) {
                    fails_with(r, "automaton too large to compare"@)
                } else if isomorphic_spec(&q, &d) {
                    r matches Ok(ValidationResult::Correct)
                } else {
                    r matches Ok(ValidationResult::Mismatch { reason }) && reason@ == "produced automaton is not isomorphic to expected"@
                },
            },
{
    match parse_dot(output.dot.as_str()) {
        Ok(g) => {
            let r = validate_graph(input, &g);
            proof {
                if forall|e: crate::errors::Error| !#[trigger] refused(input.regex@, e) {
                    let (d, p) = choose|d: Dfa, p: Result<Dfa>| #[trigger] expected_dfa(input.regex@, d) && #[trigger] dfa_from_graph_outcome(g, p) && match p {
                        Err(e) => fails_with(r, error_text(e)),
                        Ok(q) => if !(fits_graph(&q) && fits_graph(&d)) {
                            fails_with(r, "automaton too large to compare"@)
                        } else if isomorphic_spec(&q, &d) {
                            r matches Ok(ValidationResult::Correct)
                        } else {
                            r matches Ok(ValidationResult::Mismatch { reason }) && reason@ == "produced automaton is not isomorphic to expected"@
                        },
                    };
                    assert(dfa_from_dot_outcome(output.dot@, p));
                }
            }
            r
        },
        Err(e) => {
            if let Err(x) = expected_automaton(input) {
                return Err(x);
            }
            let x = parse_error(&e);
            let ghost p = Err::<Dfa, crate::errors::Error>(x);
            assert(dfa_from_dot_outcome(output.dot@, p));
            Err(env_error(&x))
        },
    }
}

} // verus!
