# regex-to-automata

Regular expressions to automata, with proofs. A pattern over printable ASCII is parsed
(by `regex_syntax`), built into an epsilon-NFA by the Thompson construction, turned into an
NFA by epsilon removal and pruning, and into a complete DFA by the subset construction,
either from the NFA or from the epsilon-NFA directly. Automata are simulated on words,
written as DOT text and read back from it (parsed by `graphviz-rust`), and compared by
graph isomorphism (`petgraph`).

The library in `src/` is verified with Verus. The main results it proves:

- the epsilon-NFA built from a pattern accepts exactly the words the pattern matches, and so
  do its NFA and both DFAs (`pipeline`, `regex_language`);
- epsilon removal, pruning and the subset construction keep the language, and the DFA is
  numbered in increasing order of the sets of states it stands for (`determinize`, `subset`);
  an automaton whose transitions all read bytes of its alphabet accepts the same words as
  its DFA (`determinize`);
- without a transition into the start state, the DFA built directly and the DFA built
  through the NFA are the same up to the names of their states (`routes`); the
  epsilon-NFA of a pattern has no such transition, so for patterns they always agree
  (`pipeline`);
- pruning twice is pruning once (`prune`);
- exercise patterns are drawn one decision at a time, and the draws made pick the pattern
  as a function with an exact contract reads them (`generator`);
- every label reads back from its text (`epsilon_nfa`, `nfa`), and the statements of the
  DOT text of an automaton read back as that automaton (`dot_roundtrip`). The round trip
  of the text itself is proved on the assumption that the parser turns the text into the
  statements it was written from: the library names what the parser gives but does not
  restate its grammar. Where the parser fails, which it can for reasons outside the text
  (stack depth, a process-wide call limit), the error says so;
- a parsed DOT graph is read into an automaton, and an answer to an exercise judged, by
  functions with exact contracts over the graph (`dot_automata`, the `env_*` modules).

`tests/` exercises the library, and `app/` holds serializable copies of the exercise
environments' inputs and answers.
