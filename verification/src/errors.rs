//! Errors of the library.
use vstd::prelude::*;
use crate::text::{chars_of, push_str, string_from_chars};

verus! {

/// Errors of parsing, conversion and validation.
#[derive(Debug)]
pub enum Error {
    /// The pattern is not a regular expression: `regex_syntax`'s description of why.
    Parse(String),
    /// The pattern uses a construct this library does not handle.
    UnsupportedFeature(&'static str),
    /// The automaton breaks a structural rule.
    InvalidAutomaton(&'static str),
    /// Any other failure, described in words.
    Message(String),
    /// The input (text, labels, sets) is not acceptable.
    InvalidInput(String),
}

/// Result with this library's error.
pub type Result<T> = core::result::Result<T, Error>;

/// The human-readable description of an error.
pub open spec fn error_text(e: Error) -> Seq<char> {
    match e {
        Error::UnsupportedFeature(s) => "unsupported feature: "@ + s@,
        Error::InvalidAutomaton(s) => "invalid automaton: "@ + s@,
        Error::Message(s) => s@,
        Error::InvalidInput(s) => s@,
        Error::Parse(s) => "regex parse error: "@ + s@,
    }
}

impl Error {
    /// Human-readable description of the error.
    pub fn message(&self) -> (r: String)
        ensures
            r@ == error_text(*self),
    {
        let mut v: Vec<char> = Vec::new();
        match self {
            Error::Parse(e) => {
                push_str(&mut v, "regex parse error: ");
                push_str(&mut v, e.as_str());
            },
            Error::UnsupportedFeature(s) => {
                push_str(&mut v, "unsupported feature: ");
                push_str(&mut v, s);
            },
            Error::InvalidAutomaton(s) => {
                push_str(&mut v, "invalid automaton: ");
                push_str(&mut v, s);
            },
            Error::Message(s) => {
                v = chars_of(s.as_str());
            },
            Error::InvalidInput(s) => {
                v = chars_of(s.as_str());
            },
        }
        string_from_chars(&v)
    }
}

} // verus!
