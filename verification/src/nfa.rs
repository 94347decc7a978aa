//! NFAs over bytes (no epsilon edges), and pruning of unreachable states.
use vstd::prelude::*;
use std::collections::HashSet;
use crate::automaton::{State, Automaton, transitions_of, targets_in_range, accepts_spec, accepts_from_states, run, step};
use crate::epsilon_nfa::{Symbol, encode_byte, decode_symbol, encode_symbol_text, decode_symbol_text, lemma_symbol_text_round_trip};
use crate::errors::{Error, Result};
use crate::sets::{below, lemma_subset_below, set_to_vec, vec_to_set};
use crate::text::{push_str, string_from_chars};
use vstd::string::StringSliceAdditionalSpecFns;

verus! {

broadcast use vstd::std_specs::hash::group_hash_axioms;

/// An NFA over bytes: every edge reads one byte.
#[derive(Debug)]
pub struct Nfa {
    pub states: Vec<State<u8>>,
    pub start: usize,
    pub accept: Vec<usize>,
    pub alphabet: HashSet<u8>,
}

/// There is an edge from `u` to `v` labelled `b`.
pub open spec fn byte_edge(t: Seq<Seq<(u8, usize)>>, u: usize, b: u8, v: usize) -> bool {
    u < t.len() && t[u as int].contains((b, v))
}

/// States reached from `s` by one edge labelled `b`.
pub open spec fn byte_next(t: Seq<Seq<(u8, usize)>>, s: usize, b: u8) -> Set<usize> {
    Set::new(|v: usize| byte_edge(t, s, b, v))
}

/// The bytes that label some transition of `rows`.
pub open spec fn byte_labels(rows: Seq<Seq<(u8, usize)>>) -> Set<u8> {
    Set::new(|b: u8| exists|i: int, q: int| 0 <= i < rows.len() && 0 <= q < rows[i].len() && (#[trigger] rows[i][q]).0 == b)
}

/// Byte label text for NFAs and DFAs: only byte labels are read back.
pub open spec fn decode_byte(text: Seq<char>) -> Option<u8> {
    match decode_symbol(text) {
        Some(Symbol::Byte(b)) => Some(b),
        _ => None,
    }
}

/// Every byte label reads back from its text.
pub proof fn lemma_byte_text_round_trip(b: u8)
    ensures
        decode_byte(encode_byte(b)) == Some(b),
{
    lemma_symbol_text_round_trip(Symbol::Byte(b));
}

/// The states reached from `state` by one edge labelled `byte`.
pub fn byte_targets(states: &Vec<State<u8>>, state: usize, byte: u8) -> (r: HashSet<usize>)
    requires
        state < states@.len(),
    ensures
        r@ == byte_next(transitions_of(states@), state, byte),
{
    let t = &states[state].transitions;
    let mut r: HashSet<usize> = HashSet::new();
    for k in 0..t.len()
        invariant
            *t == states@[state as int].transitions,
            r@ == Set::new(|v: usize| exists|q: int| 0 <= q < k && #[trigger] t@[q] == (byte, v)),
    {
        let (b, target) = t[k];
        if b == byte {
            r.insert(target);
        }
        assert(r@ =~= Set::new(|v: usize| exists|q: int| 0 <= q < k + 1 && #[trigger] t@[q] == (byte, v)));
    }
    proof {
        let tt = transitions_of(states@);
        assert(tt[state as int] == t@);
        assert(r@ =~= byte_next(tt, state, byte));
    }
    r
}

/// Text of a byte label in DOT output.
pub fn encode_byte_text(label: u8) -> (r: String)
    ensures
        r@ == encode_byte(label),
{
    encode_symbol_text(Symbol::Byte(label))
}

/// Why `text` names no byte label: it names no label at all, or it names epsilon.
pub open spec fn byte_decode_error(text: Seq<char>) -> Seq<char> {
    if decode_symbol(text) is None {
        "invalid label: "@ + text
    } else {
        "invalid label for NFA: "@ + text
    }
}

/// Reads a byte label from its DOT text.
pub fn decode_byte_text(label: &str) -> (r: Result<u8>)
    ensures
        match r {
            Ok(b) => decode_byte(label@) == Some(b),
            Err(e) => decode_byte(label@) is None
                && (e matches Error::InvalidInput(m) && m@ == byte_decode_error(label@)),
        },
{
    match decode_symbol_text(label) {
        Ok(Symbol::Byte(b)) => Ok(b),
        Ok(Symbol::Epsilon) => {
            let mut m: Vec<char> = Vec::new();
            push_str(&mut m, "invalid label for NFA: ");
            push_str(&mut m, label);
            Err(Error::InvalidInput(string_from_chars(&m)))
        },
        Err(e) => Err(e),
    }
}

/// A copy of a transition list.
pub fn copy_transitions<L: Copy>(t: &Vec<(L, usize)>) -> (r: Vec<(L, usize)>)
    ensures
        r@ == t@,
{
    let mut r: Vec<(L, usize)> = Vec::new();
    for k in 0..t.len()
        invariant
            r@ == t@.take(k as int),
    {
        r.push(t[k]);
        assert(t@.take(k + 1) =~= t@.take(k as int).push(t@[k as int]));
    }
    assert(t@.take(t@.len() as int) =~= t@);
    r
}

/// Lists the members of a set of indices, as an accepting-state list.
pub fn accept_list(states: &HashSet<usize>) -> (r: Vec<usize>)
    ensures
        r@.to_set() == states@,
        r@.no_duplicates(),
{
    set_to_vec(states)
}

/// Appends a state without transitions to a byte automaton's state list.
pub fn push_empty_state(states: &mut Vec<State<u8>>)
    ensures
        transitions_of(final(states)@) == transitions_of(old(states)@).push(Seq::empty()),
{
    states.push(State::new());
    assert(transitions_of(states@) =~= transitions_of(old(states)@).push(Seq::empty()));
}

/// Appends a transition to a byte automaton's state list.
pub fn push_byte_transition(states: &mut Vec<State<u8>>, from: usize, label: u8, to: usize)
    requires
        from < old(states)@.len(),
    ensures
        transitions_of(final(states)@) == transitions_of(old(states)@).update(
            from as int,
            transitions_of(old(states)@)[from as int].push((label, to)),
        ),
{
    let mut st = State::new();
    std::mem::swap(&mut st, &mut states[from]);
    st.transitions.push((label, to));
    states.set(from, st);
    assert(transitions_of(states@) =~= transitions_of(old(states)@).update(
        from as int,
        transitions_of(old(states)@)[from as int].push((label, to)),
    ));
}

impl Nfa {
    /// Transitions of each state.
    pub open spec fn trans(&self) -> Seq<Seq<(u8, usize)>> {
        transitions_of(self.states@)
    }

    /// The start state and every transition's target name states. (Accepting indices
    /// that name no state are allowed: no run ends there.)
    pub open spec fn well_formed(&self) -> bool {
        &&& self.start < self.states@.len()
        &&& targets_in_range(self.trans())
    }

    /// Every accepting index names a state.
    pub open spec fn accept_in_range(&self) -> bool {
        forall|i: int| 0 <= i < self.accept@.len() ==> #[trigger] self.accept@[i] < self.states@.len()
    }

    /// Whether the automaton accepts the bytes of `word`.
    pub fn accepts(&self, word: &str) -> (r: bool)
        requires
            self.well_formed(),
        ensures
            r == accepts_spec(self, word.spec_bytes()),
    {
        let mut initial_states: HashSet<usize> = HashSet::new();
        initial_states.insert(self.start);
        proof {
            assert(initial_states@ =~= set![self.start]);
            assert(initial_states@ == self.spec_initial());
        }
        accepts_from_states(self, &initial_states, word)
    }
}

impl Automaton for Nfa {
    type Label = u8;

    open spec fn spec_transitions(&self) -> Seq<Seq<(u8, usize)>> {
        transitions_of(self.states@)
    }

    open spec fn spec_start(&self) -> usize {
        self.start
    }

    open spec fn spec_accepting(&self) -> Set<usize> {
        self.accept@.to_set()
    }

    open spec fn spec_alphabet(&self) -> Set<u8> {
        self.alphabet@
    }

    open spec fn spec_next(&self, state: usize, byte: u8) -> Set<usize> {
        byte_next(self.trans(), state, byte)
    }

    open spec fn spec_initial(&self) -> Set<usize> {
        set![self.start]
    }

    open spec fn spec_encode(label: u8) -> Seq<char> {
        encode_byte(label)
    }

    open spec fn spec_decode(text: Seq<char>) -> Option<u8> {
        decode_byte(text)
    }

    open spec fn spec_decode_error(text: Seq<char>) -> Seq<char> {
        byte_decode_error(text)
    }

    open spec fn wf(&self) -> bool {
        self.well_formed()
    }

    proof fn lemma_wf(&self) {
        let n = self.states@.len();
        assert forall|s: usize, b: u8| #![trigger self.spec_next(s, b)]
            s < n implies self.spec_next(s, b).subset_of(below(n)) by {
            assert forall|t: usize| self.spec_next(s, b).contains(t) implies below(n).contains(t) by {
                let q = choose|q: int| 0 <= q < self.trans()[s as int].len() && self.trans()[s as int][q] == (b, t);
            }
        }
    }

    fn state_count(&self) -> (n: usize) {
        self.states.len()
    }

    fn start_state(&self) -> (s: usize) {
        self.start
    }

    fn accept_states(&self) -> (r: HashSet<usize>) {
        vec_to_set(&self.accept)
    }

    fn transitions_from(&self, state: usize) -> (r: Vec<(u8, usize)>) {
        copy_transitions(&self.states[state].transitions)
    }

    fn alphabet(&self) -> (r: &HashSet<u8>) {
        &self.alphabet
    }

    fn get_states(&self) -> (r: &Vec<State<u8>>) {
        &self.states
    }

    fn set_start(&mut self, state: usize) {
        self.start = state;
    }

    fn set_accept_states(&mut self, states: HashSet<usize>) -> (r: Result<()>)
        ensures
            r is Ok,
            final(self).accept@.no_duplicates(),
    {
        self.accept = accept_list(&states);
        Ok(())
    }

    fn add_state(&mut self) -> (id: usize) {
        let id = self.states.len();
        push_empty_state(&mut self.states);
        id
    }

    fn add_transition(&mut self, from: usize, label: u8, to: usize) {
        push_byte_transition(&mut self.states, from, label, to);
    }

    fn encode_label(label: &u8) -> (r: String) {
        encode_byte_text(*label)
    }

    fn decode_label(label: &str) -> (r: Result<u8>) {
        decode_byte_text(label)
    }

    fn next_states(&self, state: usize, byte: u8) -> (r: HashSet<usize>) {
        byte_targets(&self.states, state, byte)
    }
}

impl Default for Nfa {
    fn default() -> (r: Self)
        ensures
            r.states@.len() == 0,
            r.start == 0,
            r.accept@.len() == 0,
            r.alphabet@ == Set::<u8>::empty(),
    {
        Nfa { states: Vec::new(), start: 0, accept: Vec::new(), alphabet: HashSet::new() }
    }
}

} // verus!
