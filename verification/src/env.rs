//! What the exercise environments share: their failures and their verdicts.
use vstd::prelude::*;
use crate::errors::{Error, error_text};
use crate::text::{push_str, string_from_chars};

verus! {

/// Why an environment could not run on an input or check an answer.
#[derive(Debug)]
pub enum EnvError {
    /// The input (or the answer) cannot be used, described in words.
    InvalidInputForProgram(String),
}

/// The verdict on an answer.
#[derive(Debug)]
pub enum ValidationResult {
    /// The answer is right.
    Correct,
    /// The answer is wrong, for the reason given.
    Mismatch { reason: String },
}

/// `r` fails with the text `m`.
pub open spec fn fails_with<T>(r: core::result::Result<T, EnvError>, m: Seq<char>) -> bool {
    r matches Err(EnvError::InvalidInputForProgram(x)) && x@ == m
}

/// The environment failure reporting a library error.
pub fn env_error(e: &Error) -> (r: EnvError)
    ensures
        r matches EnvError::InvalidInputForProgram(x) && x@ == error_text(*e),
{
    EnvError::InvalidInputForProgram(e.message())
}

/// The environment failure with the message `m`.
pub fn env_error_text(m: &str) -> (r: EnvError)
    ensures
        r matches EnvError::InvalidInputForProgram(x) && x@ == m@,
{
    let mut v: Vec<char> = Vec::new();
    push_str(&mut v, m);
    EnvError::InvalidInputForProgram(string_from_chars(&v))
}

/// The verdict that two automata differ.
pub fn mismatch_not_isomorphic() -> (r: ValidationResult)
    ensures
        r matches ValidationResult::Mismatch { reason } && reason@ == "produced automaton is not isomorphic to expected"@,
{
    let mut v: Vec<char> = Vec::new();
    push_str(&mut v, "produced automaton is not isomorphic to expected");
    ValidationResult::Mismatch { reason: string_from_chars(&v) }
}

} // verus!
