//! DFAs over bytes: at most one move per state and byte.
use vstd::prelude::*;
use std::collections::HashSet;
use crate::automaton::{State, Automaton, transitions_of, targets_in_range, accepts_spec, accepts_from_states};
use crate::epsilon_nfa::encode_byte;
use crate::errors::Result;
use crate::nfa::{decode_byte, byte_decode_error, encode_byte_text, decode_byte_text, copy_transitions, accept_list, push_empty_state, push_byte_transition};
use crate::sets::{below, vec_to_set};
use vstd::string::StringSliceAdditionalSpecFns;

verus! {

broadcast use vstd::std_specs::hash::group_hash_axioms;

/// A DFA over bytes.
#[derive(Debug)]
pub struct Dfa {
    pub states: Vec<State<u8>>,
    pub start: usize,
    pub accept: Vec<usize>,
    pub alphabet: HashSet<u8>,
}

/// Target of the first transition labelled `b` in `t`, if any.
pub open spec fn first_target(t: Seq<(u8, usize)>, b: u8) -> Option<usize>
    decreases t.len(),
{
    if t.len() == 0 {
        None
    } else if t[0].0 == b {
        Some(t[0].1)
    } else {
        first_target(t.drop_first(), b)
    }
}

/// The first-match target is a target of the list.
pub proof fn lemma_first_target_in(t: Seq<(u8, usize)>, b: u8)
    ensures
        first_target(t, b) matches Some(v) ==> t.contains((b, v)),
        first_target(t, b) is None ==> forall|q: int| 0 <= q < t.len() ==> t[q].0 != b,
    decreases t.len(),
{
    if t.len() > 0 {
        lemma_first_target_in(t.drop_first(), b);
        if t[0].0 != b {
            if let Some(v) = first_target(t, b) {
                let q = choose|q: int| 0 <= q < t.drop_first().len() && t.drop_first()[q] == (b, v);
                assert(t[q + 1] == (b, v));
            } else {
                assert forall|q: int| 0 <= q < t.len() implies t[q].0 != b by {
                    if q > 0 {
                        assert(t[q] == t.drop_first()[q - 1]);
                    }
                }
            }
        } else {
            assert(t[0] == (b, t[0].1));
        }
    }
}

/// A single transition per label makes the first match the only one.
pub proof fn lemma_first_target_unique(t: Seq<(u8, usize)>, b: u8, v: usize)
    requires
        t.contains((b, v)),
        forall|p: int, q: int| 0 <= p < t.len() && 0 <= q < t.len() && t[p].0 == t[q].0 ==> p == q,
    ensures
        first_target(t, b) == Some(v),
    decreases t.len(),
{
    let k = choose|k: int| 0 <= k < t.len() && t[k] == (b, v);
    if t[0].0 != b {
        let d = t.drop_first();
        assert(d[k - 1] == (b, v));
        assert forall|p: int, q: int| 0 <= p < d.len() && 0 <= q < d.len() && d[p].0 == d[q].0 implies p == q by {
            assert(t[p + 1].0 == t[q + 1].0);
        }
        lemma_first_target_unique(d, b, v);
    } else {
        assert(t[0].0 == t[k].0);
    }
}

/// States reached from `s` by reading `b`: the first matching transition's target, if any.
pub open spec fn first_next(t: Seq<Seq<(u8, usize)>>, s: usize, b: u8) -> Set<usize> {
    match first_target(t[s as int], b) {
        Some(v) => set![v],
        None => Set::empty(),
    }
}

impl Dfa {
    /// Transitions of each state.
    pub open spec fn trans(&self) -> Seq<Seq<(u8, usize)>> {
        transitions_of(self.states@)
    }

    /// The start state and every transition's target name states. (Accepting indices
    /// that name no state are allowed: no run ends there.)
    pub open spec fn well_formed(&self) -> bool {
        &&& self.start < self.states@.len()
        &&& targets_in_range(self.trans())
    }

    /// Every accepting index names a state.
    pub open spec fn accept_in_range(&self) -> bool {
        forall|i: int| 0 <= i < self.accept@.len() ==> #[trigger] self.accept@[i] < self.states@.len()
    }

    /// Whether the automaton accepts the bytes of `word`.
    pub fn accepts(&self, word: &str) -> (r: bool)
        requires
            self.well_formed(),
        ensures
            r == accepts_spec(self, word.spec_bytes()),
    {
        let mut initial_states: HashSet<usize> = HashSet::new();
        initial_states.insert(self.start);
        proof {
            assert(initial_states@ =~= set![self.start]);
            assert(initial_states@ == self.spec_initial());
        }
        accepts_from_states(self, &initial_states, word)
    }
}

impl Automaton for Dfa {
    type Label = u8;

    open spec fn spec_transitions(&self) -> Seq<Seq<(u8, usize)>> {
        transitions_of(self.states@)
    }

    open spec fn spec_start(&self) -> usize {
        self.start
    }

    open spec fn spec_accepting(&self) -> Set<usize> {
        self.accept@.to_set()
    }

    open spec fn spec_alphabet(&self) -> Set<u8> {
        self.alphabet@
    }

    open spec fn spec_next(&self, state: usize, byte: u8) -> Set<usize> {
        first_next(self.trans(), state, byte)
    }

    open spec fn spec_initial(&self) -> Set<usize> {
        set![self.start]
    }

    open spec fn spec_encode(label: u8) -> Seq<char> {
        encode_byte(label)
    }

    open spec fn spec_decode(text: Seq<char>) -> Option<u8> {
        decode_byte(text)
    }

    open spec fn spec_decode_error(text: Seq<char>) -> Seq<char> {
        byte_decode_error(text)
    }

    open spec fn wf(&self) -> bool {
        self.well_formed()
    }

    proof fn lemma_wf(&self) {
        let n = self.states@.len();
        assert forall|s: usize, b: u8| #![trigger self.spec_next(s, b)]
            s < n implies self.spec_next(s, b).subset_of(below(n)) by {
            lemma_first_target_in(self.trans()[s as int], b);
            if let Some(v) = first_target(self.trans()[s as int], b) {
                let q = choose|q: int| 0 <= q < self.trans()[s as int].len() && self.trans()[s as int][q] == (b, v);
            }
        }
    }

    fn state_count(&self) -> (n: usize) {
        self.states.len()
    }

    fn start_state(&self) -> (s: usize) {
        self.start
    }

    fn accept_states(&self) -> (r: HashSet<usize>) {
        vec_to_set(&self.accept)
    }

    fn transitions_from(&self, state: usize) -> (r: Vec<(u8, usize)>) {
        copy_transitions(&self.states[state].transitions)
    }

    fn alphabet(&self) -> (r: &HashSet<u8>) {
        &self.alphabet
    }

    fn get_states(&self) -> (r: &Vec<State<u8>>) {
        &self.states
    }

    fn set_start(&mut self, state: usize) {
        self.start = state;
    }

    fn set_accept_states(&mut self, states: HashSet<usize>) -> (r: Result<()>)
        ensures
            r is Ok,
            final(self).accept@.no_duplicates(),
    {
        self.accept = accept_list(&states);
        Ok(())
    }

    fn add_state(&mut self) -> (id: usize) {
        let id = self.states.len();
        push_empty_state(&mut self.states);
        id
    }

    fn add_transition(&mut self, from: usize, label: u8, to: usize) {
        push_byte_transition(&mut self.states, from, label, to);
    }

    fn encode_label(label: &u8) -> (r: String) {
        encode_byte_text(*label)
    }

    fn decode_label(label: &str) -> (r: Result<u8>) {
        decode_byte_text(label)
    }

    /// The target of the first transition of `state` labelled `byte`, if any.
    fn next_states(&self, state: usize, byte: u8) -> (r: HashSet<usize>) {
        let mut next: HashSet<usize> = HashSet::new();
        let t = &self.states[state].transitions;
        let mut k: usize = 0;
        assert(t@.skip(0) =~= t@);
        while k < t.len()
            invariant
                state < self.states@.len(),
                *t == self.states@[state as int].transitions,
                self.trans()[state as int] == t@,
                0 <= k <= t@.len(),
                next@ == Set::<usize>::empty(),
                first_target(t@, byte) == first_target(t@.skip(k as int), byte),
            decreases t@.len() - k,
        {
            let (b, target) = t[k];
            if b == byte {
                next.insert(target);
                assert(t@.skip(k as int)[0] == (b, target));
                assert(next@ =~= set![target]);
                return next;
            }
            assert(t@.skip(k as int).drop_first() =~= t@.skip(k + 1));
            k = k + 1;
        }
        assert(t@.skip(k as int).len() == 0);
        next
    }
}

impl Default for Dfa {
    fn default() -> (r: Self)
        ensures
            r.states@.len() == 0,
            r.start == 0,
            r.accept@.len() == 0,
            r.alphabet@ == Set::<u8>::empty(),
    {
        Dfa { states: Vec::new(), start: 0, accept: Vec::new(), alphabet: HashSet::new() }
    }
}

} // verus!
