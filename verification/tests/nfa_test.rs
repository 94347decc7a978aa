use regex_to_automata::{Automaton, Dfa, EpsilonNfa, Nfa, State, Symbol};



#[allow(dead_code)]
const E: Symbol = Symbol::Epsilon;

#[allow(dead_code)]
fn b(c: u8) -> Symbol {
    Symbol::Byte(c)
}

#[allow(dead_code)]
fn epsilon_nfa(start: usize, accept: usize, states: Vec<Vec<(Symbol, usize)>>) -> EpsilonNfa {
    EpsilonNfa {
        states: states.into_iter().map(|transitions| State { transitions }).collect(),
        start,
        accept,
        alphabet: Default::default(),
    }
}

#[allow(dead_code)]
fn nfa(start: usize, accept: Vec<usize>, states: Vec<Vec<(u8, usize)>>) -> Nfa {
    Nfa {
        states: states.into_iter().map(|transitions| State { transitions }).collect(),
        start,
        accept,
        alphabet: Default::default(),
    }
}

#[allow(dead_code)]
fn dfa(start: usize, accept: Vec<usize>, states: Vec<Vec<(u8, usize)>>) -> Dfa {
    Dfa {
        states: states.into_iter().map(|transitions| State { transitions }).collect(),
        start,
        accept,
        alphabet: Default::default(),
    }
}

#[test]
fn test_nfa_pruned_removes_unreachable_states() {
    //Arrange
    let nfa_with_unreachable = nfa(0, vec![1], vec![vec![(b'a', 1)], vec![], vec![(b'b', 3)], vec![]]);

    let expected_pruned = nfa(0, vec![1], vec![vec![(b'a', 1)], vec![]]);

    //Act
    let pruned = nfa_with_unreachable.pruned();

    //Assert
    assert!(pruned.is_isomorphic_to(&expected_pruned));
}

#[test]
fn next_states_includes_all_posibilities() {
    // Arrange
    let nfa = nfa(0, vec![2, 3], vec![vec![(b'a', 1), (b'a', 2)], vec![(b'b', 3)], vec![], vec![]]);
    let expected_0_a = [1, 2].iter().copied().collect();
    let expected_1_b = [3].iter().copied().collect();

    // Act
    let next_from_0_on_a = nfa.next_states(0, b'a');
    let next_from_1_on_b = nfa.next_states(1, b'b');

    // Assert
    assert_eq!(next_from_0_on_a, expected_0_a);
    assert_eq!(next_from_1_on_b, expected_1_b);
}
