use regex_to_automata::{Automaton, Dfa, EpsilonNfa, Nfa, State, Symbol};



#[allow(dead_code)]
const E: Symbol = Symbol::Epsilon;

#[allow(dead_code)]
fn b(c: u8) -> Symbol {
    Symbol::Byte(c)
}

#[allow(dead_code)]
fn epsilon_nfa(start: usize, accept: usize, states: Vec<Vec<(Symbol, usize)>>) -> EpsilonNfa {
    EpsilonNfa {
        states: states.into_iter().map(|transitions| State { transitions }).collect(),
        start,
        accept,
        alphabet: Default::default(),
    }
}

#[allow(dead_code)]
fn nfa(start: usize, accept: Vec<usize>, states: Vec<Vec<(u8, usize)>>) -> Nfa {
    Nfa {
        states: states.into_iter().map(|transitions| State { transitions }).collect(),
        start,
        accept,
        alphabet: Default::default(),
    }
}

#[allow(dead_code)]
fn dfa(start: usize, accept: Vec<usize>, states: Vec<Vec<(u8, usize)>>) -> Dfa {
    Dfa {
        states: states.into_iter().map(|transitions| State { transitions }).collect(),
        start,
        accept,
        alphabet: Default::default(),
    }
}

#[test]
fn test_epsilon_transition_makes_start_accepting() {
    // Arrange
    let enfa = epsilon_nfa(0, 1, vec![vec![(E, 1)], vec![]]);
    
    let expected = nfa(0, vec![0], vec![vec![]]);

    // Act
    let result = enfa.to_nfa();

    // Assert
    assert!(result.is_isomorphic_to(&expected));
}

#[test]
fn test_character_creates_both_direct_and_epsilon_closed_transitions() {
    // Arrange
    let enfa = epsilon_nfa(0, 2, vec![vec![(b(b'a'), 1)], vec![(E, 2)], vec![]]);
    
    let expected = nfa(0, vec![1, 2], vec![vec![(b'a', 1), (b'a', 2)], vec![], vec![]]);

    // Act
    let result = enfa.to_nfa();

    // Assert
    assert!(result.is_isomorphic_to(&expected));
}

#[test]
fn test_epsilon_before_character_creates_direct_transition_from_start() {
    // Arrange
    let enfa = epsilon_nfa(0, 2, vec![vec![(E, 1)], vec![(b(b'a'), 2)], vec![]]);
    
    let expected = nfa(0, vec![1], vec![vec![(b'a', 1)], vec![]]);

    // Act
    let result = enfa.to_nfa();

    // Assert
    assert!(result.is_isomorphic_to(&expected));
}

#[test]
fn test_multiple_epsilon_branches_merge_into_single_accepting_state() {
    // Arrange
    let enfa = epsilon_nfa(0, 3, vec![vec![(E, 1), (E, 2)], vec![(b(b'a'), 3)], vec![(b(b'b'), 3)], vec![]]);
    
    let expected = nfa(0, vec![1], vec![vec![(b'a', 1), (b'b', 1)], vec![]]);

    // Act
    let result = enfa.to_nfa();

    // Assert
    assert!(result.is_isomorphic_to(&expected));
}

#[test]
fn test_multiple_epsilon_levels_create_direct_transition_to_accept() {
    // Arrange
    let enfa = epsilon_nfa(0, 3, vec![vec![(E, 1)], vec![(E, 2)], vec![(b(b'a'), 3)], vec![]]);
    
    let expected = nfa(0, vec![1], vec![vec![(b'a', 1)], vec![]]);

    // Act
    let result = enfa.to_nfa();

    // Assert
    assert!(result.is_isomorphic_to(&expected));
}

#[test]
fn test_epsilon_paths_from_different_characters_reach_accept() {
    // Arrange
    let enfa = epsilon_nfa(0, 2, vec![vec![(b(b'a'), 1), (b(b'b'), 3)], vec![(E, 2)], vec![], vec![(E, 2)]]);
    
    let expected = nfa(0, vec![1, 2, 3], vec![vec![(b'a', 1), (b'a', 2), (b'b', 3), (b'b', 2)], vec![], vec![], vec![]]);

    // Act
    let result = enfa.to_nfa();

    // Assert
    assert!(result.is_isomorphic_to(&expected));
}

#[test]
fn test_no_epsilon_transitions_remains_unchanged() {
    // Arrange
    let enfa = epsilon_nfa(0, 2, vec![vec![(b(b'a'), 1)], vec![(b(b'b'), 2)], vec![]]);
    
    let expected = nfa(0, vec![2], vec![vec![(b'a', 1)], vec![(b'b', 2)], vec![]]);

    // Act
    let result = enfa.to_nfa();

    // Assert
    assert!(result.is_isomorphic_to(&expected));
}

#[test]
fn test_epsilon_cycle_does_not_create_infinite_states() {
    // Arrange
    let enfa = epsilon_nfa(0, 2, vec![vec![(E, 1)], vec![(E, 0), (b(b'a'), 2)], vec![]]);
    
    let expected = nfa(0, vec![1], vec![vec![(b'a', 1)], vec![]]);

    // Act
    let result = enfa.to_nfa();

    // Assert
    assert!(result.is_isomorphic_to(&expected));
}

#[test]
fn test_unreachable_accepting_state_is_pruned() {
    // Arrange
    let enfa = epsilon_nfa(0, 3, vec![vec![(b(b'a'), 1)], vec![], vec![(E, 3)], vec![]]);
    
    let expected = nfa(0, vec![], vec![vec![(b'a', 1)], vec![]]);

    // Act
    let result = enfa.to_nfa();

    // Assert
    assert!(result.is_isomorphic_to(&expected));
}

#[test]
fn test_same_character_from_multiple_epsilon_paths_to_same_accept() {
    // Arrange
    let enfa = epsilon_nfa(0, 4, vec![vec![(E, 1), (E, 2)], vec![(b(b'a'), 3)], vec![(b(b'a'), 4)], vec![(E, 4)], vec![]]);
    
    let expected = nfa(0, vec![1, 2], vec![vec![(b'a', 1), (b'a', 2)], vec![], vec![]]);

    // Act
    let result = enfa.to_nfa();

    // Assert
    assert!(result.is_isomorphic_to(&expected));
}
