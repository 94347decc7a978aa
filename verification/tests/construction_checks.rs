use graphviz_rust::dot_structures::{EdgeTy, Graph, Id, Stmt, Vertex};
use rand::SeedableRng;
use regex::Regex;
use regex_to_automata::env::{EnvError, ValidationResult};
use regex_to_automata::generator::pattern_from_draws;
use regex_to_automata::lex::lex_less_vec;
use regex_to_automata::{env_regex_to_dfa, env_regex_to_dfa_direct, env_regex_to_nfa};
use regex_to_automata::{Automaton, Dfa, EpsilonNfa, Error, Nfa, State, Symbol};
use std::collections::HashSet;

fn words_up_to(alphabet: &[char], max_len: usize) -> Vec<String> {
    let mut all = vec![String::new()];
    let mut layer = vec![String::new()];
    for _ in 0..max_len {
        let mut next = Vec::new();
        for w in &layer {
            for c in alphabet {
                let mut x = w.clone();
                x.push(*c);
                next.push(x);
            }
        }
        all.extend(next.iter().cloned());
        layer = next;
    }
    all
}

fn error_text(r: Result<EpsilonNfa, Error>) -> String {
    match r {
        Ok(_) => panic!("expected an error"),
        Err(e) => e.message(),
    }
}

#[test]
fn thompson_automata_accept_the_pattern_language() {
    let patterns = ["a", "ab", "a|b", "(ab)*", "a+b", "(a|b)*abb", "a*b+", "((a|b)c)+", "a(b|)c", "(a*)*", "c|a*|bc"];
    let words = words_up_to(&['a', 'b', 'c'], 5);
    for p in patterns {
        let oracle = Regex::new(&format!("^(?:{})$", p)).unwrap();
        let enfa = EpsilonNfa::from_regex(p, None).unwrap();
        let nfa = enfa.to_nfa();
        let dfa = nfa.to_dfa();
        let direct = enfa.to_dfa();
        for w in &words {
            let expected = oracle.is_match(w);
            assert_eq!(enfa.accepts(w), expected, "epsilon-NFA of {p} on {w}");
            assert_eq!(nfa.accepts(w), expected, "NFA of {p} on {w}");
            assert_eq!(dfa.accepts(w), expected, "DFA of {p} on {w}");
            assert_eq!(direct.accepts(w), expected, "direct DFA of {p} on {w}");
        }
    }
}

#[test]
fn thompson_fragment_shapes() {
    let a = EpsilonNfa::from_regex("a", None).unwrap();
    assert_eq!(a.states.len(), 2);
    assert_eq!(a.start, 0);
    assert_eq!(a.accept, 1);
    assert_eq!(a.states[0].transitions, vec![(Symbol::Byte(b'a'), 1)]);
    assert!(a.states[1].transitions.is_empty());
    let star = EpsilonNfa::from_regex("a*", None).unwrap();
    assert_eq!(star.states.len(), 4);
    assert_eq!(star.start, 2);
    assert_eq!(star.accept, 3);
    assert_eq!(star.states[1].transitions, vec![(Symbol::Epsilon, 0), (Symbol::Epsilon, 3)]);
    assert_eq!(star.states[2].transitions, vec![(Symbol::Epsilon, 0), (Symbol::Epsilon, 3)]);
    let plus = EpsilonNfa::from_regex("a+", None).unwrap();
    assert_eq!(plus.states[2].transitions, vec![(Symbol::Epsilon, 0)]);
    let alphabet: HashSet<u8> = a.alphabet.clone();
    assert_eq!(alphabet, HashSet::from([b'a']));
}

#[test]
fn pattern_refusals_name_their_reason() {
    assert_eq!(error_text(EpsilonNfa::from_regex("é", None)), "unsupported feature: only ASCII regex supported");
    assert_eq!(error_text(EpsilonNfa::from_regex("a\\d", None)), "unsupported feature: backslash not supported");
    assert!(error_text(EpsilonNfa::from_regex("(a", None)).starts_with("regex parse error: "));
    assert_eq!(error_text(EpsilonNfa::from_regex("a?", None)), "unsupported feature: only * and + supported");
    assert_eq!(error_text(EpsilonNfa::from_regex("a{2}", None)), "unsupported feature: only * and + supported");
    assert_eq!(error_text(EpsilonNfa::from_regex("a.", None)), "unsupported feature: unsupported AST node");
    assert_eq!(error_text(EpsilonNfa::from_regex("[ab]", None)), "unsupported feature: unsupported AST node");
    assert_eq!(error_text(EpsilonNfa::from_regex("a\"", None)), "unsupported feature: symbol not allowed in regex");
    let spaced = EpsilonNfa::from_regex("a b", None).unwrap();
    assert!(spaced.accepts("a b"));
    assert!(!spaced.accepts("ab"));
    assert_eq!(
        error_text(EpsilonNfa::from_regex("ab", Some(HashSet::from([b'a'])))),
        "provided alphabet does not include all symbols in the automata"
    );
    let wide = EpsilonNfa::from_regex("ab", Some(HashSet::from([b'a', b'b', b'z']))).unwrap();
    assert_eq!(wide.alphabet, HashSet::from([b'a', b'b', b'z']));
}

#[test]
fn subset_states_come_in_set_order() {
    let mut n = Nfa {
        states: vec![
            State { transitions: vec![(b'a', 1), (b'a', 2)] },
            State { transitions: vec![(b'b', 2)] },
            State { transitions: vec![] },
        ],
        start: 0,
        accept: vec![2],
        alphabet: HashSet::from([b'a', b'b']),
    };
    let d = n.to_dfa();
    assert_eq!(d.states.len(), 4);
    assert_eq!(d.start, 1);
    assert_eq!(d.accept, vec![2, 3]);
    assert_eq!(d.states[0].transitions, vec![(b'a', 0), (b'b', 0)]);
    assert_eq!(d.states[1].transitions, vec![(b'a', 2), (b'b', 0)]);
    assert_eq!(d.states[2].transitions, vec![(b'a', 0), (b'b', 3)]);
    assert_eq!(d.states[3].transitions, vec![(b'a', 0), (b'b', 0)]);
    let expected = "digraph NFA {\n  rankdir=LR;\n  0;\n  1 [isInitial=true];\n  2 [isAccepting=true];\n  3 [isAccepting=true];\n\n  0 -> 0 [label=\"a\"];\n  0 -> 0 [label=\"b\"];\n  1 -> 2 [label=\"a\"];\n  1 -> 0 [label=\"b\"];\n  2 -> 0 [label=\"a\"];\n  2 -> 3 [label=\"b\"];\n  3 -> 0 [label=\"a\"];\n  3 -> 0 [label=\"b\"];\n}\n";
    assert_eq!(d.to_dot(), expected);
    n.alphabet = HashSet::from([b'a']);
    let narrow = n.to_dfa();
    assert_eq!(narrow.states.len(), 3);
    assert_eq!(narrow.start, 1);
    assert_eq!(narrow.accept, vec![2]);
    assert!(!narrow.accepts("ab"));
}

#[test]
fn lexicographic_order_of_state_lists() {
    assert!(lex_less_vec(&vec![], &vec![0]));
    assert!(lex_less_vec(&vec![0], &vec![1, 2]));
    assert!(lex_less_vec(&vec![1, 2], &vec![2]));
    assert!(lex_less_vec(&vec![1], &vec![1, 2]));
    assert!(!lex_less_vec(&vec![1, 2], &vec![1, 2]));
    assert!(!lex_less_vec(&vec![2], &vec![1, 5]));
}

#[test]
fn listing_and_label_text() {
    assert_eq!(Symbol::Epsilon.text(), "ε");
    assert_eq!(Symbol::Byte(b'a').text(), "a");
    assert_eq!(Symbol::Byte(b' ').text(), "0x20");
    assert_eq!(Symbol::Byte(0xFF).text(), "0xFF");
    let a = EpsilonNfa {
        states: vec![
            State { transitions: vec![(Symbol::Epsilon, 1), (Symbol::Byte(b'a'), 2)] },
            State { transitions: vec![] },
            State { transitions: vec![(Symbol::Byte(1), 0)] },
        ],
        start: 0,
        accept: 1,
        alphabet: HashSet::new(),
    };
    assert_eq!(
        a.text(),
        "State 0:\n  --ε--> 1\n  --a--> 2\n\nState 1:\n  (no outgoing transitions)\n\nState 2:\n  --0x01--> 0\n\n"
    );
}

#[test]
fn dot_text_reads_back_as_the_same_automaton() {
    let enfa = EpsilonNfa::from_regex("a(b|c)*", None).unwrap();
    let back = EpsilonNfa::from_dot(&enfa.to_dot()).unwrap();
    assert!(back.is_isomorphic_to(&enfa));
    assert_eq!(back.start, enfa.start);
    assert_eq!(back.accept, enfa.accept);
    for (x, y) in back.states.iter().zip(enfa.states.iter()) {
        assert_eq!(x.transitions, y.transitions);
    }
    let nfa = enfa.to_nfa();
    let nfa_back = Nfa::from_dot(&nfa.to_dot()).unwrap();
    assert!(nfa_back.is_isomorphic_to(&nfa));
    let dfa = nfa.to_dfa();
    let dfa_back = Dfa::from_dot(&dfa.to_dot()).unwrap();
    assert!(dfa_back.is_isomorphic_to(&dfa));
    for w in words_up_to(&['a', 'b', 'c'], 4) {
        assert_eq!(back.accepts(&w), enfa.accepts(&w));
        assert_eq!(nfa_back.accepts(&w), nfa.accepts(&w));
        assert_eq!(dfa_back.accepts(&w), dfa.accepts(&w));
    }
}

#[test]
fn dot_refusals_name_their_reason() {
    let msg = |r: Result<Nfa, Error>| match r {
        Ok(_) => panic!("expected an error"),
        Err(e) => e.message(),
    };
    assert!(msg(Nfa::from_dot("digraph {")).starts_with("dot parse error: "));
    assert_eq!(msg(Nfa::from_dot("graph G { 0 [isInitial=true, isAccepting=true]; }")), "expected digraph");
    assert_eq!(msg(Nfa::from_dot("digraph G { 0 [isAccepting=true]; }")), "missing start state");
    assert_eq!(msg(Nfa::from_dot("digraph G { 0 [isInitial=true]; }")), "missing accept states");
    assert_eq!(
        msg(Nfa::from_dot("digraph G { 0 [isInitial=true]; 1 [isInitial=true, isAccepting=true]; }")),
        "multiple start states"
    );
    assert_eq!(msg(Nfa::from_dot("digraph G { 0 [isInitial=true, isAccepting=true]; 0 -> 0; }")), "edge missing label");
    assert_eq!(
        msg(Nfa::from_dot("digraph G { 0 [isInitial=true, isAccepting=true]; 0 -> 0 [label=\"ab\"]; }")),
        "invalid label: ab"
    );
    assert_eq!(
        msg(Nfa::from_dot("digraph G { 0 [isInitial=true, isAccepting=true]; 0 -> 0 [label=\"ε\"]; }")),
        "invalid label for NFA: ε"
    );
    let enfa_msg = match EpsilonNfa::from_dot("digraph G { 0 [isInitial=true, isAccepting=true]; 1 [isAccepting=true]; }") {
        Ok(_) => panic!("expected an error"),
        Err(e) => e.message(),
    };
    assert_eq!(enfa_msg, "epsilon-NFA must have exactly one accept state");
    let dfa_msg = match Dfa::from_dot("digraph G { 0 [isInitial=true, isAccepting=true]; 0 -> 0 [label=\"a\"]; 0 -> 1 [label=\"a\"]; 1 -> 1 [label=\"a\"]; }") {
        Ok(_) => panic!("expected an error"),
        Err(e) => e.message(),
    };
    assert!(dfa_msg.contains("more than one transition"));
}

#[test]
fn pruning_keeps_the_language() {
    let n = Nfa {
        states: vec![
            State { transitions: vec![(b'a', 1)] },
            State { transitions: vec![] },
            State { transitions: vec![(b'b', 1)] },
            State { transitions: vec![(b'a', 3)] },
        ],
        start: 0,
        accept: vec![1],
        alphabet: HashSet::from([b'a', b'b']),
    };
    let p = n.pruned();
    assert_eq!(p.states.len(), 2);
    assert_eq!(p.start, 0);
    assert_eq!(p.accept, vec![1]);
    for w in words_up_to(&['a', 'b'], 4) {
        assert_eq!(p.accepts(&w), n.accepts(&w));
    }
}

#[test]
fn exercise_environments_answer_and_judge() {
    let out = env_regex_to_dfa::run(&env_regex_to_dfa::Input { regex: "a*b".to_string() }).unwrap();
    let d = EpsilonNfa::from_dot(&out.dot).unwrap();
    assert!(d.is_isomorphic_to(&EpsilonNfa::from_regex("a*b", None).unwrap()));
    assert!(d.accepts("aab"));
    assert!(!d.accepts("ba"));
    assert!(matches!(
        env_regex_to_dfa::validate(&env_regex_to_dfa::Input { regex: "a".to_string() }, &out),
        Ok(ValidationResult::Correct)
    ));

    let input = env_regex_to_dfa_direct::Input { regex: "a|b".to_string() };
    let good = env_regex_to_dfa_direct::run(&input).unwrap();
    assert!(matches!(env_regex_to_dfa_direct::validate(&input, &good), Ok(ValidationResult::Correct)));
    let other = env_regex_to_dfa_direct::run(&env_regex_to_dfa_direct::Input { regex: "ab".to_string() }).unwrap();
    match env_regex_to_dfa_direct::validate(&input, &other) {
        Ok(ValidationResult::Mismatch { reason }) => assert_eq!(reason, "produced automaton is not isomorphic to expected"),
        _ => panic!("expected a mismatch"),
    }

    let input = env_regex_to_nfa::Input { regex: "(a|b)*c".to_string() };
    let good = env_regex_to_nfa::run(&input).unwrap();
    assert!(matches!(env_regex_to_nfa::validate(&input, &good), Ok(ValidationResult::Correct)));
    match env_regex_to_nfa::run(&env_regex_to_nfa::Input { regex: "a?".to_string() }) {
        Err(EnvError::InvalidInputForProgram(m)) => assert_eq!(m, "unsupported feature: only * and + supported"),
        _ => panic!("expected a refusal"),
    }
    match env_regex_to_nfa::validate(&input, &env_regex_to_nfa::Output { dot: "digraph {".to_string() }) {
        Err(EnvError::InvalidInputForProgram(m)) => assert!(m.starts_with("dot parse error: ")),
        _ => panic!("expected a refusal"),
    }
}

#[test]
fn dense_automata_are_too_complex_to_draw() {
    let dense = Nfa {
        states: (0..11).map(|_| State { transitions: (0..8).map(|t| (b'a', t)).collect() }).collect(),
        start: 0,
        accept: vec![0],
        alphabet: HashSet::from([b'a']),
    };
    assert!(env_regex_to_nfa::is_too_complex_to_visualize(&dense));
    let sparse = Nfa {
        states: (0..11).map(|_| State { transitions: (0..7).map(|t| (b'a', t)).collect() }).collect(),
        start: 0,
        accept: vec![0],
        alphabet: HashSet::from([b'a']),
    };
    assert!(!env_regex_to_nfa::is_too_complex_to_visualize(&sparse));
    let small = Nfa {
        states: (0..10).map(|_| State { transitions: (0..9).map(|t| (b'a', t)).collect() }).collect(),
        start: 0,
        accept: vec![0],
        alphabet: HashSet::from([b'a']),
    };
    assert!(!env_regex_to_nfa::is_too_complex_to_visualize(&small));
}

#[test]
fn generated_patterns_are_exercises() {
    let mut rng = rand::rngs::StdRng::seed_from_u64(7);
    for _ in 0..200 {
        let input = env_regex_to_dfa::Input::gn(&mut rng);
        assert!(!input.regex.is_empty());
        assert!(input.regex.chars().all(|c| "abc|()*".contains(c)), "{}", input.regex);
        let mut open: i64 = 0;
        for c in input.regex.chars() {
            if c == '(' {
                open += 1;
            }
            if c == ')' {
                open -= 1;
            }
            assert!(open >= 0);
        }
        assert_eq!(open, 0);
        assert!(env_regex_to_dfa::run(&input).is_ok(), "{}", input.regex);
    }
}

#[test]
fn routes_to_a_dfa_agree_without_edges_into_the_start() {
    let mut enfa = EpsilonNfa {
        states: vec![
            State { transitions: vec![(Symbol::Epsilon, 1), (Symbol::Byte(b'a'), 2)] },
            State { transitions: vec![(Symbol::Byte(b'b'), 2), (Symbol::Epsilon, 3)] },
            State { transitions: vec![(Symbol::Byte(b'a'), 3), (Symbol::Epsilon, 1)] },
            State { transitions: vec![(Symbol::Byte(b'b'), 1)] },
        ],
        start: 0,
        accept: 3,
        alphabet: HashSet::from([b'a', b'b']),
    };
    let direct = enfa.to_dfa();
    let long = enfa.to_nfa().to_dfa();
    assert_eq!(direct.states.len(), long.states.len());
    assert!(direct.is_isomorphic_to(&long));
    enfa.states[3].transitions.push((Symbol::Byte(b'a'), 0));
    let direct = enfa.to_dfa();
    let long = enfa.to_nfa().to_dfa();
    for w in words_up_to(&['a', 'b'], 5) {
        assert_eq!(direct.accepts(&w), long.accepts(&w));
        assert_eq!(direct.accepts(&w), enfa.accepts(&w));
    }
}

#[test]
fn dot_text_parses_into_the_statements_written() {
    let enfa = EpsilonNfa::from_regex("a(b|c)*", None).unwrap();
    let text = enfa.to_dot();
    let stmts = match graphviz_rust::parse(&text).unwrap() {
        Graph::DiGraph { stmts, .. } => stmts,
        Graph::Graph { .. } => panic!("expected a directed graph"),
    };
    let n = enfa.states.len();
    let edges: usize = enfa.states.iter().map(|s| s.transitions.len()).sum();
    assert_eq!(stmts.len(), 1 + n + edges);
    assert!(matches!(stmts[0], Stmt::Attribute(_)));
    for i in 0..n {
        match &stmts[1 + i] {
            Stmt::Node(node) => {
                assert_eq!(node.id.0, Id::Plain(i.to_string()));
                let mut expected = Vec::new();
                if i == enfa.start {
                    expected.push(("isInitial", "true"));
                }
                if i == enfa.accept {
                    expected.push(("isAccepting", "true"));
                }
                assert_eq!(node.attributes.len(), expected.len());
                for (attr, (k, v)) in node.attributes.iter().zip(expected) {
                    assert_eq!(attr.0, Id::Plain(k.to_string()));
                    assert_eq!(attr.1, Id::Plain(v.to_string()));
                }
            }
            other => panic!("expected a node statement, got {:?}", other),
        }
    }
    let mut p = 1 + n;
    for (from, state) in enfa.states.iter().enumerate() {
        for (label, to) in &state.transitions {
            match &stmts[p] {
                Stmt::Edge(edge) => {
                    match &edge.ty {
                        EdgeTy::Pair(Vertex::N(x), Vertex::N(y)) => {
                            assert_eq!(x.0, Id::Plain(from.to_string()));
                            assert_eq!(y.0, Id::Plain(to.to_string()));
                        }
                        other => panic!("expected a pair of nodes, got {:?}", other),
                    }
                    assert_eq!(edge.attributes.len(), 1);
                    assert_eq!(edge.attributes[0].0, Id::Plain("label".to_string()));
                    assert_eq!(edge.attributes[0].1, Id::Escaped(format!("\"{}\"", label.text())));
                }
                other => panic!("expected an edge statement, got {:?}", other),
            }
            p += 1;
        }
    }
}

#[test]
fn draws_pick_the_pattern() {
    let picked = |draws: Vec<usize>, depth: usize| pattern_from_draws(&draws, depth).map(|(s, n)| (s, n));
    assert_eq!(picked(vec![5], 0), Some(("c".to_string(), 1)));
    assert_eq!(picked(vec![0, 4], 1), Some(("b".to_string(), 2)));
    assert_eq!(picked(vec![0], 1), None);
    assert_eq!(picked(vec![1, 0, 1, 9], 1), Some(("ab".to_string(), 3)));
    assert_eq!(picked(vec![2, 0, 1], 1), Some(("a|b".to_string(), 3)));
    assert_eq!(picked(vec![3, 4], 1), Some(("(b)*".to_string(), 2)));
    assert_eq!(picked(vec![4, 2], 1), Some(("(c)".to_string(), 2)));
    assert_eq!(picked(vec![7, 8, 13, 0, 5], 2), Some(("(b)*|c".to_string(), 5)));
    assert_eq!(picked(vec![2, 0], 1), None);
    assert_eq!(picked(vec![14; 63], 5).map(|(_, n)| n), Some(6));
}

#[test]
fn pruning_twice_is_pruning_once() {
    let n = Nfa {
        states: vec![
            State { transitions: vec![(b'a', 2)] },
            State { transitions: vec![(b'b', 0)] },
            State { transitions: vec![(b'b', 2), (b'a', 0)] },
        ],
        start: 0,
        accept: vec![2, 1],
        alphabet: HashSet::from([b'a', b'b']),
    };
    let once = n.pruned();
    let twice = once.pruned();
    assert_eq!(once.states.len(), 2);
    assert_eq!(once.accept, vec![1]);
    assert_eq!(twice.start, once.start);
    assert_eq!(twice.accept, once.accept);
    assert_eq!(twice.alphabet, once.alphabet);
    for (x, y) in twice.states.iter().zip(once.states.iter()) {
        assert_eq!(x.transitions, y.transitions);
    }
}

#[test]
fn thompson_automata_have_a_free_entry_and_narrow_states() {
    for p in ["a", "ab", "a|b|c", "(ab)*", "a+b", "(a|b)*abb", "((a|b)c)+", "a(b|)c"] {
        let e = EpsilonNfa::from_regex(p, None).unwrap();
        for state in &e.states {
            assert!(state.transitions.len() <= 2, "{p}");
            assert!(state.transitions.iter().all(|(_, t)| *t != e.start), "{p}");
        }
        let direct = e.to_dfa();
        let long = e.to_nfa().to_dfa();
        assert_eq!(direct.states.len(), long.states.len(), "{p}");
        assert!(direct.is_isomorphic_to(&long), "{p}");
    }
}

#[test]
fn every_label_reads_back_from_its_text() {
    assert_eq!(EpsilonNfa::decode_label(&EpsilonNfa::encode_label(&Symbol::Epsilon)).unwrap(), Symbol::Epsilon);
    for b in 0..=255u8 {
        let s = Symbol::Byte(b);
        assert_eq!(EpsilonNfa::decode_label(&EpsilonNfa::encode_label(&s)).unwrap(), s);
        assert_eq!(Nfa::decode_label(&Nfa::encode_label(&b)).unwrap(), b);
        assert_eq!(Dfa::decode_label(&Dfa::encode_label(&b)).unwrap(), b);
    }
    assert_eq!(EpsilonNfa::encode_label(&Symbol::Byte(b' ')), "0x20");
    assert_eq!(EpsilonNfa::decode_label("0x20").unwrap(), Symbol::Byte(b' '));
    assert_eq!(Nfa::decode_label("0x00").unwrap(), 0u8);
    assert_eq!(Dfa::decode_label("0xff").unwrap(), 0xFFu8);
    assert!(Nfa::decode_label("0x1").is_err());
    assert!(Nfa::decode_label("0xG0").is_err());
    assert!(Nfa::decode_label("1x20").is_err());
}

#[test]
fn patterns_with_spaces_read_back_and_are_judged_right() {
    let enfa = EpsilonNfa::from_regex("a b", None).unwrap();
    assert!(enfa.accepts("a b"));
    let back = EpsilonNfa::from_dot(&enfa.to_dot()).unwrap();
    assert!(back.is_isomorphic_to(&enfa));
    assert!(back.accepts("a b"));
    let nfa = enfa.to_nfa();
    let nfa_back = Nfa::from_dot(&nfa.to_dot()).unwrap();
    assert!(nfa_back.is_isomorphic_to(&nfa));
    let dfa = nfa.to_dfa();
    let dfa_back = Dfa::from_dot(&dfa.to_dot()).unwrap();
    assert!(dfa_back.is_isomorphic_to(&dfa));
    assert!(dfa_back.accepts("a b"));
    assert!(!dfa_back.accepts("ab"));

    let input = env_regex_to_dfa_direct::Input { regex: "a b".to_string() };
    let out = env_regex_to_dfa_direct::run(&input).unwrap();
    assert!(matches!(env_regex_to_dfa_direct::validate(&input, &out), Ok(ValidationResult::Correct)));
    let input = env_regex_to_nfa::Input { regex: "a b".to_string() };
    let out = env_regex_to_nfa::run(&input).unwrap();
    assert!(matches!(env_regex_to_nfa::validate(&input, &out), Ok(ValidationResult::Correct)));
}

#[test]
fn dfas_accept_what_their_sources_accept() {
    let n = Nfa {
        states: vec![
            State { transitions: vec![(b'a', 0), (b'b', 0), (b'a', 1)] },
            State { transitions: vec![(b'b', 2)] },
            State { transitions: vec![] },
        ],
        start: 0,
        accept: vec![2],
        alphabet: HashSet::from([b'a', b'b']),
    };
    let d = n.to_dfa();
    let e = EpsilonNfa::from_regex("(a|b)*ab", None).unwrap();
    let de = e.to_dfa();
    for w in words_up_to(&['a', 'b', 'c'], 4) {
        assert_eq!(d.accepts(&w), n.accepts(&w), "{}", w);
        assert_eq!(de.accepts(&w), e.accepts(&w), "{}", w);
    }
    assert!(d.accepts("bab"));
    assert!(!d.accepts("cab"));
    assert!(!n.accepts("cab"));
}
