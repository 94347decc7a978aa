use regex_to_automata::{Automaton, Dfa, EpsilonNfa, Nfa, State, Symbol};



#[allow(dead_code)]
const E: Symbol = Symbol::Epsilon;

#[allow(dead_code)]
fn b(c: u8) -> Symbol {
    Symbol::Byte(c)
}

#[allow(dead_code)]
fn epsilon_nfa(start: usize, accept: usize, states: Vec<Vec<(Symbol, usize)>>) -> EpsilonNfa {
    EpsilonNfa {
        states: states.into_iter().map(|transitions| State { transitions }).collect(),
        start,
        accept,
        alphabet: Default::default(),
    }
}

#[allow(dead_code)]
fn nfa(start: usize, accept: Vec<usize>, states: Vec<Vec<(u8, usize)>>) -> Nfa {
    Nfa {
        states: states.into_iter().map(|transitions| State { transitions }).collect(),
        start,
        accept,
        alphabet: Default::default(),
    }
}

#[allow(dead_code)]
fn dfa(start: usize, accept: Vec<usize>, states: Vec<Vec<(u8, usize)>>) -> Dfa {
    Dfa {
        states: states.into_iter().map(|transitions| State { transitions }).collect(),
        start,
        accept,
        alphabet: Default::default(),
    }
}

#[test]
fn test_dfa_to_dot_from_dot_roundtrip_fails_on_incomplete_dfa() {
    // Act
    let incomplete_dfa = dfa(0, vec![1], vec![vec![(b'a', 1)], vec![(b'a', 0), (b'b', 1)]]);

    // Act
    let dot = incomplete_dfa.to_dot();
    let result = regex_to_automata::Dfa::from_dot(&dot);

    // Assert
    assert!(result.is_err(), "Expected from_dot to fail for incomplete DFA");
}
