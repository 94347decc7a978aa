use rand::Rng;
use rand::SeedableRng;
use regex_to_automata::dot::{DotAttribute, DotEdgeTy, DotGraph, DotId, DotStmt, DotVertex};
use regex_to_automata::dot_automata::{dfa_from_graph, enfa_from_graph, nfa_from_graph};
use regex_to_automata::env::ValidationResult;
use regex_to_automata::generator::random_pattern;
use regex_to_automata::{env_regex_to_dfa, env_regex_to_dfa_direct, env_regex_to_nfa};
use regex_to_automata::{Automaton, Dfa, EpsilonNfa, Error, Nfa, State, Symbol};
use std::collections::HashSet;

const LETTERS: &[char] = &['a', 'b', 'c'];

fn reference_pattern<R: Rng>(rng: &mut R, depth: usize) -> String {
    if depth == 0 {
        return LETTERS[rng.random_range(0..LETTERS.len())].to_string();
    }
    match rng.random_range(0..5) {
        0 => LETTERS[rng.random_range(0..LETTERS.len())].to_string(),
        1 => format!("{}{}", reference_pattern(rng, depth - 1), reference_pattern(rng, depth - 1)),
        2 => format!("{}|{}", reference_pattern(rng, depth - 1), reference_pattern(rng, depth - 1)),
        3 => format!("({})*", reference_pattern(rng, depth - 1)),
        _ => format!("({})", reference_pattern(rng, depth - 1)),
    }
}

fn plain(s: &str) -> DotId {
    DotId::Plain(s.to_string())
}

fn node(name: &str, attrs: &[(&str, &str)]) -> DotStmt {
    DotStmt::Node(plain(name), attrs.iter().map(|(k, v)| DotAttribute(plain(k), plain(v))).collect())
}

fn edge(from: &str, to: &str, label: &str) -> DotStmt {
    DotStmt::Edge(
        DotEdgeTy::Pair(DotVertex::Node(plain(from)), DotVertex::Node(plain(to))),
        vec![DotAttribute(plain("label"), DotId::Escaped(format!("\"{}\"", label)))],
    )
}

fn message<T>(r: Result<T, Error>) -> String {
    match r {
        Ok(_) => panic!("expected an error"),
        Err(e) => e.message(),
    }
}

#[test]
fn generated_patterns_follow_the_draws_one_decision_at_a_time() {
    for seed in 0..50u64 {
        let mut a = rand::rngs::StdRng::seed_from_u64(seed);
        let mut b = rand::rngs::StdRng::seed_from_u64(seed);
        assert_eq!(env_regex_to_dfa::Input::gn(&mut a).regex, reference_pattern(&mut b, 5));
        assert_eq!(random_pattern(&mut a, 2), reference_pattern(&mut b, 2));
    }
}

#[test]
fn graphs_read_as_each_kind_of_automaton() {
    let g = DotGraph::DiGraph(vec![
        node("0", &[("isInitial", "true")]),
        node("1", &[("isAccepting", "true")]),
        edge("0", "1", "a"),
        edge("1", "1", "a"),
    ]);
    let e = enfa_from_graph(&g).unwrap();
    assert_eq!(e.start, 0);
    assert_eq!(e.accept, 1);
    assert_eq!(e.states[0].transitions, vec![(Symbol::Byte(b'a'), 1)]);
    assert_eq!(e.alphabet, HashSet::from([b'a']));
    let n = nfa_from_graph(&g).unwrap();
    assert_eq!(n.accept, vec![1]);
    assert!(n.accepts("aaa"));
    assert!(!n.accepts(""));
    let d = dfa_from_graph(&g).unwrap();
    assert_eq!(d.states[1].transitions, vec![(b'a', 1)]);

    assert_eq!(message(nfa_from_graph(&DotGraph::Graph)), "expected digraph");
    let two_accepting = DotGraph::DiGraph(vec![
        node("0", &[("isInitial", "true"), ("isAccepting", "true")]),
        node("1", &[("isAccepting", "true")]),
    ]);
    assert_eq!(message(enfa_from_graph(&two_accepting)), "epsilon-NFA must have exactly one accept state");
    assert!(nfa_from_graph(&two_accepting).is_ok());
    let incomplete = DotGraph::DiGraph(vec![
        node("0", &[("isInitial", "true")]),
        node("1", &[("isAccepting", "true")]),
        edge("0", "1", "a"),
    ]);
    assert!(message(dfa_from_graph(&incomplete)).contains("incomplete"));
    let spaced = DotGraph::DiGraph(vec![node("0", &[("isInitial", "true"), ("isAccepting", "true")]), edge("0", "0", "0x20")]);
    assert_eq!(nfa_from_graph(&spaced).unwrap().states[0].transitions, vec![(b' ', 0)]);
}

#[test]
fn answers_are_judged_from_their_graphs() {
    let good = DotGraph::DiGraph(vec![
        node("0", &[("isInitial", "true")]),
        node("1", &[("isAccepting", "true")]),
        edge("0", "1", "a"),
    ]);
    let input = env_regex_to_nfa::Input { regex: "a".to_string() };
    assert!(matches!(env_regex_to_nfa::validate_graph(&input, &good), Ok(ValidationResult::Correct)));
    let input = env_regex_to_nfa::Input { regex: "b".to_string() };
    assert!(matches!(env_regex_to_nfa::validate_graph(&input, &good), Ok(ValidationResult::Mismatch { .. })));
    let input = env_regex_to_dfa_direct::Input { regex: "a".to_string() };
    let expected = env_regex_to_dfa_direct::run(&input).unwrap();
    let d = Dfa::from_dot(&expected.dot).unwrap();
    let mut stmts = Vec::new();
    for (i, s) in d.states.iter().enumerate() {
        let mut attrs = Vec::new();
        if i == d.start {
            attrs.push(("isInitial", "true"));
        }
        if d.accept.contains(&i) {
            attrs.push(("isAccepting", "true"));
        }
        stmts.push(node(&i.to_string(), &attrs));
        for (b, t) in &s.transitions {
            stmts.push(edge(&i.to_string(), &t.to_string(), &(*b as char).to_string()));
        }
    }
    let g = DotGraph::DiGraph(stmts);
    assert!(matches!(env_regex_to_dfa_direct::validate_graph(&input, &g), Ok(ValidationResult::Correct)));
    let refused = env_regex_to_dfa_direct::Input { regex: "a?".to_string() };
    assert!(env_regex_to_dfa_direct::validate_graph(&refused, &g).is_err());
    assert!(env_regex_to_dfa_direct::validate(&refused, &env_regex_to_dfa_direct::Output { dot: "digraph {".to_string() }).is_err());
}

#[test]
fn accepting_indices_that_name_no_state_are_ignored() {
    let n = Nfa {
        states: vec![State { transitions: vec![(b'a', 1)] }, State { transitions: vec![] }],
        start: 0,
        accept: vec![1, 7],
        alphabet: HashSet::from([b'a']),
    };
    assert!(n.accepts("a"));
    assert!(!n.accepts(""));
    let d = n.to_dfa();
    assert!(d.accepts("a"));
    assert!(!d.accepts("aa"));
    assert!(n.is_isomorphic_to(&n));
    let dd = Dfa { states: d.states.clone(), start: d.start, accept: vec![9], alphabet: d.alphabet.clone() };
    assert!(!dd.accepts("a"));
    let e = EpsilonNfa {
        states: vec![State { transitions: vec![(Symbol::Epsilon, 1)] }, State { transitions: vec![] }],
        start: 0,
        accept: 5,
        alphabet: HashSet::new(),
    };
    assert!(!e.accepts(""));
    assert_eq!(e.epsilon_closure(0), HashSet::from([0, 1]));
    assert!(!e.to_nfa().accepts(""));
    assert!(!e.to_dfa().accepts(""));
}
