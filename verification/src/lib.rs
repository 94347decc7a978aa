//! Regular expressions to automata: Thompson construction of an
//! epsilon-NFA, epsilon removal, subset construction, simulation, DOT text
//! and structural comparison of automata.
use vstd::prelude::*;

pub mod automaton;
pub mod sets;
pub mod lex;
pub mod text;
pub mod errors;
pub mod epsilon_nfa;
pub mod listing;
pub mod nfa;
pub mod dfa;
pub mod prune;
pub mod epsilon_removal;
pub mod subset;
pub mod determinize;
pub mod routes;
pub mod regex;
pub mod thompson;
pub mod walks;
pub mod regex_language;
pub mod pipeline;
pub mod generator;
pub mod dot;
pub mod dot_text;
pub mod dot_automata;
pub mod dot_roundtrip;
pub mod isomorphism;
pub mod env;
pub mod env_regex_to_dfa;
pub mod env_regex_to_dfa_direct;
pub mod env_regex_to_nfa;


pub use crate::automaton::{Automaton, State};
pub use crate::errors::{Error, Result};
pub use crate::epsilon_nfa::{EpsilonNfa, Symbol};
pub use crate::nfa::Nfa;
pub use crate::dfa::Dfa;
