//! The exercise "pattern to epsilon-NFA": the answer is the DOT text of the automaton built
//! from the pattern.
use vstd::prelude::*;
use crate::dot_text::dot_text;
use crate::env::{EnvError, ValidationResult, env_error, fails_with};
use crate::epsilon_nfa::EpsilonNfa;
use crate::errors::{Result, error_text};
use crate::thompson::from_regex_outcome;
use crate::text::{push_str, string_from_chars};
use crate::generator::{generated_pattern, drawn_pattern, draws_in_range, random_pattern};
use rand::rngs::StdRng;

verus! {

/// The input: a pattern.
#[derive(Debug, Clone)]
pub struct Input {
    pub regex: String,
}

/// The answer: DOT text.
#[derive(Debug, Clone)]
pub struct Output {
    pub dot: String,
}

impl Default for Input {
    fn default() -> (r: Self)
        ensures
            r.regex@ == Seq::<char>::empty(),
    {
        Input { regex: string_from_chars(&Vec::new()) }
    }
}

impl Input {
    /// A random exercise: a pattern over `a`, `b`, `c` of depth five, drawn with `rng` one
    /// decision at a time (`random_pattern`).
    pub fn gn(rng: &mut StdRng) -> (r: Input)
        ensures
            generated_pattern(r.regex@, 5),
            exists|ds: Seq<usize>| #![trigger drawn_pattern(ds, 5)]
                draws_in_range(ds) && drawn_pattern(ds, 5) == Some((r.regex@, ds.len())),
    {
        Input { regex: random_pattern(rng, 5) }
    }
}

impl Default for Output {
    fn default() -> (r: Self)
        ensures
            r.dot@ == Seq::<char>::empty(),
    {
        Output { dot: string_from_chars(&Vec::new()) }
    }
}

/// The DOT text of the epsilon-NFA of the pattern; a refused pattern fails with the
/// library's description of why.
pub fn run(input: &Input) -> (r: core::result::Result<Output, EnvError>)
    ensures
        exists|n: Result<EpsilonNfa>| #[trigger] from_regex_outcome(input.regex@, None, n) && match n {
            Err(e) => fails_with(r, error_text(e)),
            Ok(a) => r matches Ok(o) && o.dot@ == dot_text(&a),
        },
{
    match EpsilonNfa::from_regex(input.regex.as_str(), None) {
        Err(e) => Err(env_error(&e)),
        Ok(a) => Ok(Output { dot: a.to_dot() }),
    }
}

/// Every answer is accepted.
pub fn validate(_input: &Input, _output: &Output) -> (r: core::result::Result<ValidationResult, EnvError>)
    ensures
        r matches Ok(ValidationResult::Correct),
{
    Ok(ValidationResult::Correct)
}

} // verus!
