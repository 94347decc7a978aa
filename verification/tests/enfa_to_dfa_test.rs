use regex_to_automata::{Automaton, Dfa, EpsilonNfa, Nfa, State, Symbol};



#[allow(dead_code)]
const E: Symbol = Symbol::Epsilon;

#[allow(dead_code)]
fn b(c: u8) -> Symbol {
    Symbol::Byte(c)
}

#[allow(dead_code)]
fn epsilon_nfa(start: usize, accept: usize, states: Vec<Vec<(Symbol, usize)>>) -> EpsilonNfa {
    EpsilonNfa {
        states: states.into_iter().map(|transitions| State { transitions }).collect(),
        start,
        accept,
        alphabet: Default::default(),
    }
}

#[allow(dead_code)]
fn nfa(start: usize, accept: Vec<usize>, states: Vec<Vec<(u8, usize)>>) -> Nfa {
    Nfa {
        states: states.into_iter().map(|transitions| State { transitions }).collect(),
        start,
        accept,
        alphabet: Default::default(),
    }
}

#[allow(dead_code)]
fn dfa(start: usize, accept: Vec<usize>, states: Vec<Vec<(u8, usize)>>) -> Dfa {
    Dfa {
        states: states.into_iter().map(|transitions| State { transitions }).collect(),
        start,
        accept,
        alphabet: Default::default(),
    }
}

#[test]
fn simple_epsilon_nfa_converts_to_dfa() {
    // Arrange
    let mut enfa = epsilon_nfa(0, 1, vec![vec![(E, 1)], vec![]]);
    enfa.alphabet = [b'a'].iter().copied().collect();

    let mut expected_dfa = dfa(0, vec![0], vec![vec![(b'a', 1)], vec![(b'a', 1)]]);
    expected_dfa.alphabet = [b'a'].iter().copied().collect();

    // Act
    // Act
    let result_dfa = enfa.to_dfa();

    // Assert

    // Assert
    assert!(result_dfa.is_isomorphic_to(&expected_dfa));
}

#[test]
fn epsilon_before_character_enables_direct_transition() {
    // Arrange
    let mut enfa = epsilon_nfa(0, 2, vec![vec![(E, 1)], vec![(b(b'a'), 2)], vec![]]);
    enfa.alphabet = [b'a'].iter().copied().collect();

    let mut expected_dfa = dfa(0, vec![1], vec![vec![(b'a', 1)], vec![(b'a', 2)], vec![(b'a', 2)]]);
    expected_dfa.alphabet = [b'a'].iter().copied().collect();

    // Act
    let result_dfa = enfa.to_dfa();

    // Assert
    assert!(result_dfa.is_isomorphic_to(&expected_dfa));
}

#[test]
fn epsilon_nondeterminism_creates_subset() {
    // Arrange
    let mut enfa = epsilon_nfa(0, 2, vec![vec![(E, 1), (b(b'a'), 2)], vec![(b(b'a'), 3)], vec![], vec![]]);
    enfa.alphabet = [b'a'].iter().copied().collect();

    let mut expected_dfa = dfa(0, vec![1], vec![vec![(b'a', 1)], vec![(b'a', 2)], vec![(b'a', 2)]]);
    expected_dfa.alphabet = [b'a'].iter().copied().collect();

    // Act
    let result_dfa = enfa.to_dfa();

    // Assert
    assert!(result_dfa.is_isomorphic_to(&expected_dfa));
}

#[test]
fn multiple_epsilon_branches_merge() {
    // Arrange
    let mut enfa = epsilon_nfa(0, 3, vec![vec![(b(b'a'), 1), (b(b'a'), 2)], vec![(E, 3)], vec![(E, 3)], vec![]]);
    enfa.alphabet = [b'a'].iter().copied().collect();

    let mut expected_dfa = dfa(0, vec![1], vec![vec![(b'a', 1)], vec![(b'a', 2)], vec![(b'a', 2)]]);
    expected_dfa.alphabet = [b'a'].iter().copied().collect();

    // Act
    let result_dfa = enfa.to_dfa();

    // Assert
    assert!(result_dfa.is_isomorphic_to(&expected_dfa));
}

#[test]
fn epsilon_cycles_handled_correctly() {
    // Arrange
    let mut enfa = epsilon_nfa(0, 2, vec![vec![(E, 1)], vec![(E, 0), (b(b'a'), 2)], vec![]]);
    enfa.alphabet = [b'a'].iter().copied().collect();

    let mut expected_dfa = dfa(0, vec![1], vec![vec![(b'a', 1)], vec![(b'a', 2)], vec![(b'a', 2)]]);
    expected_dfa.alphabet = [b'a'].iter().copied().collect();

    // Act
    let result_dfa = enfa.to_dfa();

    // Assert
    assert!(result_dfa.is_isomorphic_to(&expected_dfa));
}

#[test]
fn epsilon_and_byte_on_same_state() {
    // Arrange
    let mut enfa = epsilon_nfa(0, 2, vec![vec![(E, 1), (b(b'a'), 2)], vec![], vec![]]);
    enfa.alphabet = [b'a'].iter().copied().collect();

    let mut expected_dfa = dfa(0, vec![1], vec![vec![(b'a', 1)], vec![(b'a', 2)], vec![(b'a', 2)]]);
    expected_dfa.alphabet = [b'a'].iter().copied().collect();

    // Act
    let result_dfa = enfa.to_dfa();

    // Assert
    assert!(result_dfa.is_isomorphic_to(&expected_dfa));
}

#[test]
fn multi_symbol_with_epsilon_transitions() {
    // Arrange
    let mut enfa = epsilon_nfa(0, 3, vec![vec![(E, 1)], vec![(b(b'a'), 2)], vec![(E, 3)], vec![]]);
    enfa.alphabet = [b'a', b'b'].iter().copied().collect();

    let mut expected_dfa = dfa(0, vec![1], vec![vec![(b'a', 1), (b'b', 2)], vec![(b'a', 2), (b'b', 2)], vec![(b'a', 2), (b'b', 2)]]);
    expected_dfa.alphabet = [b'a', b'b'].iter().copied().collect();

    let result_dfa = enfa.to_dfa();

    // Assert
    assert!(result_dfa.is_isomorphic_to(&expected_dfa));
}

#[test]
fn epsilon_creates_accepting_subset_from_nondeterminism() {
    // Arrange
    let mut enfa = epsilon_nfa(0, 3, vec![vec![(b(b'a'), 1), (b(b'a'), 2)], vec![(E, 3)], vec![], vec![]]);
    enfa.alphabet = [b'a'].iter().copied().collect();

    let mut expected_dfa = dfa(0, vec![1], vec![vec![(b'a', 1)], vec![(b'a', 2)], vec![(b'a', 2)]]);
    expected_dfa.alphabet = [b'a'].iter().copied().collect();

    // Act
    let result_dfa = enfa.to_dfa();

    // Assert
    assert!(result_dfa.is_isomorphic_to(&expected_dfa));
}

#[test]
fn nested_epsilon_transitions() {
    // Arrange
    let mut enfa = epsilon_nfa(0, 4, vec![vec![(E, 1)], vec![(E, 2)], vec![(E, 3)], vec![(b(b'a'), 4)], vec![]]);
    enfa.alphabet = [b'a'].iter().copied().collect();

    let mut expected_dfa = dfa(0, vec![1], vec![vec![(b'a', 1)], vec![(b'a', 2)], vec![(b'a', 2)]]);
    expected_dfa.alphabet = [b'a'].iter().copied().collect();

    // Act
    let result_dfa = enfa.to_dfa();

    // Assert
    assert!(result_dfa.is_isomorphic_to(&expected_dfa));
}


