//! The interface shared by epsilon-NFAs, NFAs and DFAs, and the generic
//! logic written against it: simulation on a word.
use vstd::prelude::*;
use std::collections::HashSet;
use crate::sets::{below, set_to_vec};
use crate::errors::Result;
use vstd::string::StringSliceAdditionalSpecFns;

verus! {

broadcast use vstd::std_specs::hash::group_hash_axioms;

/// A state of an automaton: its outgoing transitions as (label, target) pairs.
#[derive(Debug, Clone)]
pub struct State<L> {
    pub transitions: Vec<(L, usize)>,
}

impl<L> State<L> {
    /// A state without transitions.
    pub fn new() -> (s: Self)
        ensures
            s.transitions@ == Seq::<(L, usize)>::empty(),
    {
        State { transitions: Vec::new() }
    }
}

/// The transition lists of a sequence of states.
pub open spec fn transitions_of<L>(states: Seq<State<L>>) -> Seq<Seq<(L, usize)>> {
    states.map_values(|s: State<L>| s.transitions@)
}

/// Every transition target names a state.
pub open spec fn targets_in_range<L>(t: Seq<Seq<(L, usize)>>) -> bool {
    forall|i: int, k: int|
        0 <= i < t.len() && 0 <= k < t[i].len() ==> (#[trigger] t[i][k]).1 < t.len()
}

/// Core interface of the automata of this crate.
pub trait Automaton: Sized {
    /// Edge label type.
    type Label: Copy;

    /// Transitions of each state, in order.
    spec fn spec_transitions(&self) -> Seq<Seq<(Self::Label, usize)>>;

    /// The start state.
    spec fn spec_start(&self) -> usize;

    /// The accepting states.
    spec fn spec_accepting(&self) -> Set<usize>;

    /// The alphabet.
    spec fn spec_alphabet(&self) -> Set<u8>;

    /// States reached from `state` by reading `byte`.
    spec fn spec_next(&self, state: usize, byte: u8) -> Set<usize>;

    /// States occupied before any input is read.
    spec fn spec_initial(&self) -> Set<usize>;

    /// Text of a label in DOT output.
    spec fn spec_encode(label: Self::Label) -> Seq<char>;

    /// Label read back from DOT text, if the text names one.
    spec fn spec_decode(text: Seq<char>) -> Option<Self::Label>;

    /// Description of the failure to read a label from DOT text.
    spec fn spec_decode_error(text: Seq<char>) -> Seq<char>;

    /// Every index stored in the automaton names a state.
    spec fn wf(&self) -> bool;

    /// Consequences of well-formedness used by the generic algorithms.
    proof fn lemma_wf(&self)
        requires
            self.wf(),
        ensures
            self.spec_start() < self.spec_transitions().len(),
            targets_in_range(self.spec_transitions()),
            self.spec_initial().subset_of(below(self.spec_transitions().len())),
            forall|s: usize, b: u8| #![trigger self.spec_next(s, b)]
                s < self.spec_transitions().len() ==> self.spec_next(s, b).subset_of(
                    below(self.spec_transitions().len()),
                ),
    ;

    /// Number of states.
    fn state_count(&self) -> (n: usize)
        ensures
            n == self.spec_transitions().len(),
    ;

    /// The start state.
    fn start_state(&self) -> (s: usize)
        ensures
            s == self.spec_start(),
    ;

    /// The set of accepting states.
    fn accept_states(&self) -> (r: HashSet<usize>)
        ensures
            r@ == self.spec_accepting(),
    ;

    /// The transitions leaving `state`, in order.
    fn transitions_from(&self, state: usize) -> (r: Vec<(Self::Label, usize)>)
        requires
            state < self.spec_transitions().len(),
        ensures
            r@ == self.spec_transitions()[state as int],
    ;

    /// The alphabet.
    fn alphabet(&self) -> (r: &HashSet<u8>)
        ensures
            r@ == self.spec_alphabet(),
    ;

    /// The state list.
    fn get_states(&self) -> (r: &Vec<State<Self::Label>>)
        ensures
            transitions_of(r@) == self.spec_transitions(),
    ;

    /// Makes `state` the start state.
    fn set_start(&mut self, state: usize)
        ensures
            final(self).spec_start() == state,
            final(self).spec_transitions() == old(self).spec_transitions(),
            final(self).spec_accepting() == old(self).spec_accepting(),
            final(self).spec_alphabet() == old(self).spec_alphabet(),
    ;

    /// Makes `states` the accepting states, where the kind of automaton allows it.
    fn set_accept_states(&mut self, states: HashSet<usize>) -> (r: Result<()>)
        ensures
            r is Ok ==> final(self).spec_accepting() == states@,
            r is Err ==> final(self).spec_accepting() == old(self).spec_accepting(),
            final(self).spec_start() == old(self).spec_start(),
            final(self).spec_transitions() == old(self).spec_transitions(),
            final(self).spec_alphabet() == old(self).spec_alphabet(),
    ;

    /// Appends a state without transitions and returns its index.
    fn add_state(&mut self) -> (id: usize)
        requires
            old(self).spec_transitions().len() < usize::MAX,
        ensures
            id == old(self).spec_transitions().len(),
            final(self).spec_transitions() == old(self).spec_transitions().push(Seq::empty()),
            final(self).spec_start() == old(self).spec_start(),
            final(self).spec_accepting() == old(self).spec_accepting(),
            final(self).spec_alphabet() == old(self).spec_alphabet(),
    ;

    /// Appends the transition `from --label--> to`.
    fn add_transition(&mut self, from: usize, label: Self::Label, to: usize)
        requires
            from < old(self).spec_transitions().len(),
        ensures
            final(self).spec_transitions() == old(self).spec_transitions().update(
                from as int,
                old(self).spec_transitions()[from as int].push((label, to)),
            ),
            final(self).spec_start() == old(self).spec_start(),
            final(self).spec_accepting() == old(self).spec_accepting(),
            final(self).spec_alphabet() == old(self).spec_alphabet(),
    ;

    /// Text of a label in DOT output.
    fn encode_label(label: &Self::Label) -> (r: String)
        ensures
            r@ == Self::spec_encode(*label),
    ;

    /// Reads a label back from its DOT text.
    fn decode_label(label: &str) -> (r: Result<Self::Label>)
        ensures
            match r {
                Ok(l) => Self::spec_decode(label@) == Some(l),
                Err(e) => Self::spec_decode(label@) is None
                    && (e matches crate::errors::Error::InvalidInput(m) && m@ == Self::spec_decode_error(label@)),
            },
    ;

    /// The states reached from `state` by reading `byte`.
    fn next_states(&self, state: usize, byte: u8) -> (r: HashSet<usize>)
        requires
            self.wf(),
            state < self.spec_transitions().len(),
        ensures
            r@ == self.spec_next(state, byte),
    ;
}

/// States reached from some state of `from` by reading `byte`.
pub open spec fn step<A: Automaton>(a: &A, from: Set<usize>, byte: u8) -> Set<usize> {
    Set::new(|t: usize| exists|s: usize| from.contains(s) && #[trigger] a.spec_next(s, byte).contains(t))
}

/// States reached from `from` by reading `word` (the extended transition function).
pub open spec fn run<A: Automaton>(a: &A, from: Set<usize>, word: Seq<u8>) -> Set<usize>
    decreases word.len(),
{
    if word.len() == 0 {
        from
    } else {
        step(a, run(a, from, word.drop_last()), word.last())
    }
}

/// The automaton accepts `word`: reading it from the initial states can end in an accepting state.
pub open spec fn accepts_spec<A: Automaton>(a: &A, word: Seq<u8>) -> bool {
    exists|s: usize| #[trigger] run(a, a.spec_initial(), word).contains(s) && a.spec_accepting().contains(s)
}

/// Nothing is reached from no state.
pub proof fn lemma_run_empty<A: Automaton>(a: &A, word: Seq<u8>)
    ensures
        run(a, Set::empty(), word) == Set::<usize>::empty(),
    decreases word.len(),
{
    if word.len() > 0 {
        lemma_run_empty(a, word.drop_last());
        assert(step(a, Set::empty(), word.last()) =~= Set::<usize>::empty());
    }
}

/// Reading a word from states of a well-formed automaton reaches only its states.
pub proof fn lemma_run_in_range<A: Automaton>(a: &A, from: Set<usize>, w: Seq<u8>)
    requires
        a.wf(),
        from.subset_of(below(a.spec_transitions().len())),
    ensures
        run(a, from, w).subset_of(below(a.spec_transitions().len())),
    decreases w.len(),
{
    a.lemma_wf();
    if w.len() > 0 {
        let n = a.spec_transitions().len();
        lemma_run_in_range(a, from, w.drop_last());
        let prev = run(a, from, w.drop_last());
        assert forall|t: usize| run(a, from, w).contains(t) implies below(n).contains(t) by {
            let s = choose|s: usize| prev.contains(s) && #[trigger] a.spec_next(s, w.last()).contains(t);
            assert(below(n).contains(s));
            assert(a.spec_next(s, w.last()).subset_of(below(n)));
        }
    }
}

/// Running on a concatenation runs on each part in turn.
pub proof fn lemma_run_append<A: Automaton>(a: &A, from: Set<usize>, u: Seq<u8>, v: Seq<u8>)
    ensures
        run(a, from, u + v) == run(a, run(a, from, u), v),
    decreases v.len(),
{
    if v.len() == 0 {
        assert(u + v =~= u);
    } else {
        assert((u + v).drop_last() =~= u + v.drop_last());
        lemma_run_append(a, from, u, v.drop_last());
    }
}

/// The states reached from some state of `current` by reading `byte`.
pub fn step_states<A: Automaton>(automaton: &A, current: &Vec<usize>, byte: u8) -> (next: HashSet<usize>)
    requires
        automaton.wf(),
        current@.to_set().subset_of(below(automaton.spec_transitions().len())),
    ensures
        next@ == step(automaton, current@.to_set(), byte),
        next@.subset_of(below(automaton.spec_transitions().len())),
{
    proof { automaton.lemma_wf(); }
    let n = automaton.state_count();
        let mut next: HashSet<usize> = HashSet::new();
        let mut j: usize = 0;
        while j < current.len()
            invariant
                automaton.wf(),
                n == automaton.spec_transitions().len(),
                current@.to_set().subset_of(below(n as nat)),
                0 <= j <= current.len(),
                forall|s: usize, b: u8| #![trigger automaton.spec_next(s, b)]
                    s < n ==> automaton.spec_next(s, b).subset_of(below(n as nat)),
                next@ == Set::new(|t: usize| exists|s: usize| current@.take(j as int).contains(s) && #[trigger] automaton.spec_next(s, byte).contains(t)),
            decreases current.len() - j,
        {
            let s = current[j];
            assert(current@.to_set().contains(s));
            let targets = set_to_vec(&automaton.next_states(s, byte));
            let mut k: usize = 0;
            while k < targets.len()
                invariant
                    0 <= k <= targets.len(),
                    targets@.to_set() == automaton.spec_next(s, byte),
                    next@ == Set::new(|t: usize| (exists|s2: usize| current@.take(j as int).contains(s2) && #[trigger] automaton.spec_next(s2, byte).contains(t)) || targets@.take(k as int).contains(t)),
                decreases targets.len() - k,
            {
                next.insert(targets[k]);
                proof {
                    assert(targets@.take(k + 1) =~= targets@.take(k as int).push(targets@[k as int]));
                    let ghost t1 = targets@.take(k + 1);
                    let ghost t0 = targets@.take(k as int);
                    assert forall|t: usize| t1.contains(t) <==> (t0.contains(t) || t == targets@[k as int]) by {
                        if t1.contains(t) {
                            let q = choose|q: int| 0 <= q < t1.len() && t1[q] == t;
                            if q < k {
                                assert(t0[q] == t);
                            }
                        }
                        if t0.contains(t) {
                            let q = choose|q: int| 0 <= q < t0.len() && t0[q] == t;
                            assert(t1[q] == t);
                        }
                        if t == targets@[k as int] {
                            assert(t1[k as int] == t);
                        }
                    }
                    assert(next@ =~= Set::new(|t: usize| (exists|s2: usize| current@.take(j as int).contains(s2) && #[trigger] automaton.spec_next(s2, byte).contains(t)) || targets@.take(k + 1).contains(t)));
                }
                k = k + 1;
            }
            proof {
                assert(targets@.take(k as int) =~= targets@);
                assert(current@.take(j + 1) =~= current@.take(j as int).push(s));
                assert forall|t: usize| next@.contains(t) <==> (exists|s2: usize| current@.take(j + 1).contains(s2) && #[trigger] automaton.spec_next(s2, byte).contains(t)) by {
                    if next@.contains(t) && !(exists|s2: usize| current@.take(j as int).contains(s2) && #[trigger] automaton.spec_next(s2, byte).contains(t)) {
                        assert(targets@.to_set().contains(t));
                        assert(current@.take(j + 1)[j as int] == s);
                        assert(current@.take(j + 1).contains(s));
                    }
                    if exists|s2: usize| current@.take(j + 1).contains(s2) && #[trigger] automaton.spec_next(s2, byte).contains(t) {
                        let s2 = choose|s2: usize| current@.take(j + 1).contains(s2) && #[trigger] automaton.spec_next(s2, byte).contains(t);
                        if s2 != s {
                            let c1 = current@.take(j + 1);
                            let q = choose|q: int| 0 <= q < c1.len() && c1[q] == s2;
                            assert(current@.take(j as int)[q] == s2);
                            assert(current@.take(j as int).contains(s2));
                        } else {
                            assert(targets@.to_set().contains(t));
                        }
                    }
                }
                assert(next@ =~= Set::new(|t: usize| exists|s2: usize| current@.take(j + 1).contains(s2) && #[trigger] automaton.spec_next(s2, byte).contains(t)));
            }
            j = j + 1;
        }
        proof {
            assert(current@.take(j as int) =~= current@);
            assert(next@ =~= step(automaton, current@.to_set(), byte));
            assert(next@.subset_of(below(n as nat))) by {
                assert forall|t: usize| next@.contains(t) implies below(n as nat).contains(t) by {
                    let s2 = choose|s2: usize| current@.contains(s2) && #[trigger] automaton.spec_next(s2, byte).contains(t);
                    assert(current@.to_set().contains(s2));
                }
            }
        }
        next
}

/// Simulates the automaton on the bytes of `word` from `initial_states`.
pub fn accepts_from_states<A: Automaton>(automaton: &A, initial_states: &HashSet<usize>, word: &str) -> (r: bool)
    requires
        automaton.wf(),
        initial_states@.subset_of(below(automaton.spec_transitions().len())),
    ensures
        r == (exists|s: usize| #[trigger] run(automaton, initial_states@, word.spec_bytes()).contains(s)
            && automaton.spec_accepting().contains(s)),
{
    proof { automaton.lemma_wf(); }
    let bytes = word.as_bytes();
    let n = automaton.state_count();
    let mut current = set_to_vec(initial_states);
    let ghost w = bytes@;
    let mut i: usize = 0;
    while i < bytes.len()
        invariant
            w == bytes@,
            w == word.spec_bytes(),
            automaton.wf(),
            n == automaton.spec_transitions().len(),
            n <= usize::MAX,
            0 <= i <= w.len(),
            current@.to_set() == run(automaton, initial_states@, w.take(i as int)),
            current@.to_set().subset_of(below(n as nat)),
            forall|s: usize, b: u8| #![trigger automaton.spec_next(s, b)]
                s < n ==> automaton.spec_next(s, b).subset_of(below(n as nat)),
        decreases w.len() - i,
    {
        let byte = bytes[i];
        let next = step_states(automaton, &current, byte);
        proof {
            assert(w.take(i + 1).drop_last() =~= w.take(i as int));
        }
        current = set_to_vec(&next);
        i = i + 1;
        if current.len() == 0 {
            proof {
                assert(current@.to_set() =~= Set::<usize>::empty());
                lemma_run_append(automaton, initial_states@, w.take(i as int), w.skip(i as int));
                assert(w.take(i as int) + w.skip(i as int) =~= w);
                lemma_run_empty(automaton, w.skip(i as int));
            }
            return false;
        }
    }
    proof {
        assert(w.take(i as int) =~= w);
    }
    assert(current@.to_set() == run(automaton, initial_states@, word.spec_bytes()));
    let accept = automaton.accept_states();
    let mut j: usize = 0;
    while j < current.len()
        invariant
            0 <= j <= current.len(),
            accept@ == automaton.spec_accepting(),
            current@.to_set() == run(automaton, initial_states@, word.spec_bytes()),
            forall|k: int| 0 <= k < j ==> !accept@.contains(#[trigger] current@[k]),
        decreases current.len() - j,
    {
        if accept.contains(&current[j]) {
            proof {
                assert(current@.to_set().contains(current@[j as int]));
                assert(run(automaton, initial_states@, word.spec_bytes()).contains(current@[j as int]));
            }
            return true;
        }
        j = j + 1;
    }
    proof {
        assert forall|s: usize| current@.to_set().contains(s) implies !automaton.spec_accepting().contains(s) by {
            let k = choose|k: int| 0 <= k < current@.len() && current@[k] == s;
        }
    }
    false
}

} // verus!
