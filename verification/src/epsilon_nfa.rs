//! Epsilon-NFAs: automata whose edges carry a byte or the empty word.
use vstd::prelude::*;
use std::collections::HashSet;
use crate::automaton::{State, Automaton, transitions_of, targets_in_range, accepts_spec, accepts_from_states};
use crate::errors::{Error, Result};
use crate::text::{chars_of, push_str, string_from_chars};
use vstd::string::StringSliceAdditionalSpecFns;
use crate::sets::{below, lemma_subset_below, set_to_vec, insert_all, vec_to_set};

verus! {

broadcast use vstd::std_specs::hash::group_hash_axioms;

/// Edge label of an epsilon-NFA.
#[derive(Debug, Clone, Copy, PartialEq, Eq, Hash, Structural)]
pub enum Symbol {
    Epsilon,
    Byte(u8),
}

/// Upper-case hexadecimal digit.
pub open spec fn hex_char(d: nat) -> char {
    if d < 10 {
        crate::text::digit_char(d)
    } else if d == 10 { 'A' } else if d == 11 { 'B' } else if d == 12 { 'C' } else if d == 13 { 'D' }
    else if d == 14 { 'E' } else { 'F' }
}

/// A printable, non-space ASCII byte (`u8::is_ascii_graphic`).
pub open spec fn is_graphic(b: u8) -> bool {
    0x21 <= b <= 0x7E
}

/// DOT text of a byte label: the character itself when printable, else `0x` and two hex digits.
pub open spec fn encode_byte(b: u8) -> Seq<char> {
    if is_graphic(b) {
        seq![b as char]
    } else {
        seq!['0', 'x', hex_char((b / 16) as nat), hex_char((b % 16) as nat)]
    }
}

/// DOT text of an epsilon-NFA label.
pub open spec fn encode_symbol(s: Symbol) -> Seq<char> {
    match s {
        Symbol::Epsilon => seq!['ε'],
        Symbol::Byte(b) => encode_byte(b),
    }
}

/// The value of a hexadecimal digit, upper or lower case.
pub open spec fn hex_value(c: char) -> Option<nat> {
    if '0' <= c <= '9' {
        Some((c as u32 - '0' as u32) as nat)
    } else if 'A' <= c <= 'F' {
        Some((c as u32 - 'A' as u32 + 10) as nat)
    } else if 'a' <= c <= 'f' {
        Some((c as u32 - 'a' as u32 + 10) as nat)
    } else {
        None
    }
}

/// Label named by DOT text: `ε`, a single one-byte (ASCII) character, or `0x` and two
/// hexadecimal digits.
pub open spec fn decode_symbol(t: Seq<char>) -> Option<Symbol> {
    if t == seq!['ε'] {
        Some(Symbol::Epsilon)
    } else if t.len() == 1 && (t[0] as u32) < 128 {
        Some(Symbol::Byte(t[0] as u8))
    } else if t.len() == 4 && t[0] == '0' && t[1] == 'x' && hex_value(t[2]) is Some && hex_value(t[3]) is Some {
        Some(Symbol::Byte((16 * hex_value(t[2])->Some_0 + hex_value(t[3])->Some_0) as u8))
    } else {
        None
    }
}

/// Every label reads back from its text.
pub proof fn lemma_symbol_text_round_trip(l: Symbol)
    ensures
        decode_symbol(encode_symbol(l)) == Some(l),
{
    match l {
        Symbol::Epsilon => {},
        Symbol::Byte(b) => {
            if is_graphic(b) {
                let c = b as char;
                assert(c as u32 == b as u32);
                assert(seq![c] != seq!['ε']) by {
                    assert(seq![c][0] != seq!['ε'][0]);
                }
            } else {
                let hi = (b / 16) as nat;
                let lo = (b % 16) as nat;
                let t = encode_byte(b);
                assert(t == seq!['0', 'x', hex_char(hi), hex_char(lo)]);
                assert(t != seq!['ε']) by {
                    assert(t.len() != seq!['ε'].len());
                }
                assert(hex_value(hex_char(hi)) == Some(hi)) by {
                    reveal_hex(hi);
                }
                assert(hex_value(hex_char(lo)) == Some(lo)) by {
                    reveal_hex(lo);
                }
                assert(16 * hi + lo == b);
            }
        },
    }
}

/// A digit's character has that digit as its value.
proof fn reveal_hex(d: nat)
    requires
        d < 16,
    ensures
        hex_value(hex_char(d)) == Some(d),
{
    if d < 10 {
        assert(crate::text::digit_char(d) as u32 == '0' as u32 + d);
    }
}

fn hex_digit(d: u8) -> (c: char)
    requires
        d < 16,
    ensures
        c == hex_char(d as nat),
{
    if d == 0 { '0' } else if d == 1 { '1' } else if d == 2 { '2' } else if d == 3 { '3' } else if d == 4 { '4' }
    else if d == 5 { '5' } else if d == 6 { '6' } else if d == 7 { '7' } else if d == 8 { '8' } else if d == 9 { '9' }
    else if d == 10 { 'A' } else if d == 11 { 'B' } else if d == 12 { 'C' } else if d == 13 { 'D' }
    else if d == 14 { 'E' } else { 'F' }
}

/// DOT text of an epsilon-NFA label.
pub fn encode_symbol_text(label: Symbol) -> (r: String)
    ensures
        r@ == encode_symbol(label),
{
    let mut v: Vec<char> = Vec::new();
    match label {
        Symbol::Epsilon => {
            v.push('ε');
        },
        Symbol::Byte(b) => {
            if 0x21 <= b && b <= 0x7E {
                v.push(b as char);
            } else {
                v.push('0');
                v.push('x');
                v.push(hex_digit(b / 16));
                v.push(hex_digit(b % 16));
            }
        },
    }
    assert(v@ =~= encode_symbol(label));
    string_from_chars(&v)
}

/// The value of a hexadecimal digit.
fn hex_digit_value(c: char) -> (r: Option<u8>)
    ensures
        match hex_value(c) {
            Some(v) => r == Some(v as u8) && v < 16,
            None => r is None,
        },
{
    if '0' <= c && c <= '9' {
        Some((c as u32 - '0' as u32) as u8)
    } else if 'A' <= c && c <= 'F' {
        Some((c as u32 - 'A' as u32 + 10) as u8)
    } else if 'a' <= c && c <= 'f' {
        Some((c as u32 - 'a' as u32 + 10) as u8)
    } else {
        None
    }
}

/// Reads an epsilon-NFA label from its DOT text.
pub fn decode_symbol_text(label: &str) -> (r: Result<Symbol>)
    ensures
        match r {
            Ok(l) => decode_symbol(label@) == Some(l),
            Err(e) => decode_symbol(label@) is None
                && (e matches Error::InvalidInput(m) && m@ == "invalid label: "@ + label@),
        },
{
    let c = chars_of(label);
    if c.len() == 1 && c[0] == 'ε' {
        assert(c@ =~= seq!['ε']);
        Ok(Symbol::Epsilon)
    } else if c.len() == 1 && (c[0] as u32) < 128 {
        assert(c@ != seq!['ε']);
        Ok(Symbol::Byte(c[0] as u8))
    } else if c.len() == 4 && c[0] == '0' && c[1] == 'x' && hex_digit_value(c[2]).is_some() && hex_digit_value(c[3]).is_some() {
        assert(c@ != seq!['ε']) by {
            assert(c@.len() != seq!['ε'].len());
        }
        let hi = hex_digit_value(c[2]).unwrap();
        let lo = hex_digit_value(c[3]).unwrap();
        Ok(Symbol::Byte(16 * hi + lo))
    } else {
        assert(c@ != seq!['ε']) by {
            if c@ == seq!['ε'] {
                assert(c@[0] == 'ε');
            }
        }
        let mut m: Vec<char> = Vec::new();
        push_str(&mut m, "invalid label: ");
        push_str(&mut m, label);
        Err(Error::InvalidInput(string_from_chars(&m)))
    }
}

/// An epsilon-NFA with a single accepting state.
#[derive(Debug)]
pub struct EpsilonNfa {
    pub states: Vec<State<Symbol>>,
    pub start: usize,
    pub accept: usize,
    pub alphabet: HashSet<u8>,
}

impl EpsilonNfa {
    /// Transitions leaving `s`.
    pub open spec fn trans(&self, s: usize) -> Seq<(Symbol, usize)> {
        self.states@[s as int].transitions@
    }

    /// There is an edge from `u` to `v` labelled `sym`.
    pub open spec fn has_edge(&self, u: usize, sym: Symbol, v: usize) -> bool {
        u < self.states@.len() && self.trans(u).contains((sym, v))
    }

    /// `p` is a walk along epsilon edges.
    pub open spec fn is_eps_path(&self, p: Seq<usize>) -> bool {
        &&& p.len() > 0
        &&& forall|i: int| 0 <= i < p.len() - 1 ==> #[trigger] self.has_edge(p[i], Symbol::Epsilon, p[i + 1])
    }

    /// `t` can be reached from `s` along epsilon edges alone.
    pub open spec fn eps_reaches(&self, s: usize, t: usize) -> bool {
        exists|p: Seq<usize>| #[trigger] self.is_eps_path(p) && p[0] == s && p.last() == t
    }

    /// The epsilon-closure of `s`.
    pub open spec fn eps_closure_spec(&self, s: usize) -> Set<usize> {
        Set::new(|t: usize| self.eps_reaches(s, t))
    }

    /// States reached from a state of `from` by one edge labelled `byte`.
    pub open spec fn move_spec(&self, from: Set<usize>, byte: u8) -> Set<usize> {
        Set::new(|v: usize| exists|u: usize| from.contains(u) && #[trigger] self.has_edge(u, Symbol::Byte(byte), v))
    }

    /// States reached from a state of `from` along epsilon edges alone.
    pub open spec fn close_spec(&self, from: Set<usize>) -> Set<usize> {
        Set::new(|t: usize| exists|v: usize| from.contains(v) && #[trigger] self.eps_reaches(v, t))
    }

    /// States reached from `s` by reading `byte`, epsilon edges allowed before and after.
    pub open spec fn next_spec(&self, s: usize, byte: u8) -> Set<usize> {
        self.close_spec(self.move_spec(self.eps_closure_spec(s), byte))
    }

    /// The start state and every transition's target name states. (An accepting index that
    /// names no state is allowed: no run ends there.)
    pub open spec fn well_formed(&self) -> bool {
        &&& self.start < self.states@.len()
        &&& targets_in_range(transitions_of(self.states@))
    }

    /// Every state reaches itself.
    pub proof fn lemma_reach_refl(&self, s: usize)
        ensures
            self.eps_reaches(s, s),
    {
        assert(self.is_eps_path(seq![s]));
    }

    /// An epsilon edge extends an epsilon walk.
    pub proof fn lemma_reach_extend(&self, s: usize, u: usize, v: usize)
        requires
            self.eps_reaches(s, u),
            self.has_edge(u, Symbol::Epsilon, v),
        ensures
            self.eps_reaches(s, v),
    {
        let p = choose|p: Seq<usize>| #[trigger] self.is_eps_path(p) && p[0] == s && p.last() == u;
        let q = p.push(v);
        assert forall|i: int| 0 <= i < q.len() - 1 implies #[trigger] self.has_edge(q[i], Symbol::Epsilon, q[i + 1]) by {
            if i < p.len() - 1 {
                assert(self.has_edge(p[i], Symbol::Epsilon, p[i + 1]));
            }
        }
        assert(self.is_eps_path(q));
    }

    /// Epsilon reachability is transitive.
    pub proof fn lemma_reach_trans(&self, s: usize, u: usize, t: usize)
        requires
            self.eps_reaches(s, u),
            self.eps_reaches(u, t),
        ensures
            self.eps_reaches(s, t),
    {
        let p = choose|p: Seq<usize>| #[trigger] self.is_eps_path(p) && p[0] == s && p.last() == u;
        let q = choose|q: Seq<usize>| #[trigger] self.is_eps_path(q) && q[0] == u && q.last() == t;
        let r = p + q.drop_first();
        assert forall|i: int| 0 <= i < r.len() - 1 implies #[trigger] self.has_edge(r[i], Symbol::Epsilon, r[i + 1]) by {
            if i < p.len() - 1 {
                assert(self.has_edge(p[i], Symbol::Epsilon, p[i + 1]));
            } else {
                let j = i - p.len() + 1;
                assert(self.has_edge(q[j], Symbol::Epsilon, q[j + 1]));
            }
        }
        assert(self.is_eps_path(r));
    }

    /// A set that holds `s` and is closed under epsilon edges holds everything `s` reaches.
    pub proof fn lemma_closed_holds_reach(&self, c: Set<usize>, s: usize, t: usize)
        requires
            c.contains(s),
            forall|x: usize, v: usize| c.contains(x) && #[trigger] self.has_edge(x, Symbol::Epsilon, v) ==> c.contains(v),
            self.eps_reaches(s, t),
        ensures
            c.contains(t),
    {
        let p = choose|p: Seq<usize>| #[trigger] self.is_eps_path(p) && p[0] == s && p.last() == t;
        self.lemma_walk_in_closed(c, p, p.len() - 1);
    }

    /// Every state of an epsilon walk from a closed set stays in it.
    proof fn lemma_walk_in_closed(&self, c: Set<usize>, p: Seq<usize>, i: int)
        requires
            self.is_eps_path(p),
            c.contains(p[0]),
            forall|x: usize, v: usize| c.contains(x) && #[trigger] self.has_edge(x, Symbol::Epsilon, v) ==> c.contains(v),
            0 <= i < p.len(),
        ensures
            c.contains(p[i]),
        decreases i,
    {
        if i > 0 {
            self.lemma_walk_in_closed(c, p, i - 1);
            let j = i - 1;
            assert(self.has_edge(p[j], Symbol::Epsilon, p[j + 1]));
        }
    }

    /// Epsilon walks from a state stay among the states.
    pub proof fn lemma_reach_in_range(&self, s: usize, t: usize)
        requires
            self.well_formed(),
            s < self.states@.len(),
            self.eps_reaches(s, t),
        ensures
            t < self.states@.len(),
    {
        let p = choose|p: Seq<usize>| #[trigger] self.is_eps_path(p) && p[0] == s && p.last() == t;
        if p.len() > 1 {
            let j = p.len() - 2;
            assert(self.has_edge(p[j], Symbol::Epsilon, p[j + 1]));
            let u = p[j];
            let q = choose|q: int| 0 <= q < self.trans(u).len() && self.trans(u)[q] == (Symbol::Epsilon, t);
            assert(transitions_of(self.states@)[u as int][q] == self.trans(u)[q]);
        }
    }

    /// Edge targets name states.
    pub proof fn lemma_edge_in_range(&self, u: usize, sym: Symbol, v: usize)
        requires
            self.well_formed(),
            self.has_edge(u, sym, v),
        ensures
            v < self.states@.len(),
    {
        let q = choose|q: int| 0 <= q < self.trans(u).len() && self.trans(u)[q] == (sym, v);
        assert(transitions_of(self.states@)[u as int][q] == self.trans(u)[q]);
    }

    /// The states reached from the states of `from` by one edge labelled `byte`.
    fn move_on_byte(&self, from: &Vec<usize>, byte: u8) -> (r: HashSet<usize>)
        requires
            self.well_formed(),
            forall|i: int| 0 <= i < from@.len() ==> #[trigger] from@[i] < self.states@.len(),
        ensures
            r@ == self.move_spec(from@.to_set(), byte),
    {
        let mut r: HashSet<usize> = HashSet::new();
        for i in 0..from.len()
            invariant
                self.well_formed(),
                forall|i: int| 0 <= i < from@.len() ==> #[trigger] from@[i] < self.states@.len(),
                r@ == self.move_spec(from@.take(i as int).to_set(), byte),
        {
            let u = from[i];
            let transitions = &self.states[u].transitions;
            let ghost r0 = r@;
            for k in 0..transitions.len()
                invariant
                    *transitions == self.states@[u as int].transitions,
                    r@ == r0.union(Set::new(|v: usize| exists|q: int| 0 <= q < k && #[trigger] transitions@[q] == (Symbol::Byte(byte), v))),
            {
                let (sym, target) = transitions[k];
                if sym == Symbol::Byte(byte) {
                    r.insert(target);
                }
                proof {
                    assert(r@ =~= r0.union(Set::new(|v: usize| exists|q: int| 0 <= q < k + 1 && #[trigger] transitions@[q] == (Symbol::Byte(byte), v))));
                }
            }
            proof {
                let t0 = from@.take(i as int);
                let t1 = from@.take(i + 1);
                assert(t1 =~= t0.push(u));
                assert forall|v: usize| r@.contains(v) <==> self.move_spec(t1.to_set(), byte).contains(v) by {
                    if r@.contains(v) {
                        if r0.contains(v) {
                            let w = choose|w: usize| t0.to_set().contains(w) && #[trigger] self.has_edge(w, Symbol::Byte(byte), v);
                            let q = choose|q: int| 0 <= q < t0.len() && t0[q] == w;
                            assert(t1[q] == w);
                            assert(t1.to_set().contains(w));
                        } else {
                            let q = choose|q: int| 0 <= q < transitions@.len() && #[trigger] transitions@[q] == (Symbol::Byte(byte), v);
                            assert(self.trans(u)[q] == (Symbol::Byte(byte), v));
                            assert(self.has_edge(u, Symbol::Byte(byte), v));
                            assert(t1[i as int] == u);
                            assert(t1.to_set().contains(u));
                        }
                    }
                    if self.move_spec(t1.to_set(), byte).contains(v) {
                        let w = choose|w: usize| t1.to_set().contains(w) && #[trigger] self.has_edge(w, Symbol::Byte(byte), v);
                        if w == u {
                            let q = choose|q: int| 0 <= q < self.trans(u).len() && self.trans(u)[q] == (Symbol::Byte(byte), v);
                            assert(transitions@[q] == (Symbol::Byte(byte), v));
                        } else {
                            let q = choose|q: int| 0 <= q < t1.len() && t1[q] == w;
                            assert(t0[q] == w);
                            assert(t0.to_set().contains(w));
                        }
                    }
                }
                assert(r@ =~= self.move_spec(t1.to_set(), byte));
            }
        }
        assert(from@.take(from@.len() as int) =~= from@);
        r
    }

    /// The states reached from the states of `from` along epsilon edges alone.
    fn close_all(&self, from: &Vec<usize>) -> (r: HashSet<usize>)
        requires
            self.well_formed(),
            forall|i: int| 0 <= i < from@.len() ==> #[trigger] from@[i] < self.states@.len(),
        ensures
            r@ == self.close_spec(from@.to_set()),
    {
        let mut r: HashSet<usize> = HashSet::new();
        for i in 0..from.len()
            invariant
                self.well_formed(),
                forall|i: int| 0 <= i < from@.len() ==> #[trigger] from@[i] < self.states@.len(),
                r@ == self.close_spec(from@.take(i as int).to_set()),
        {
            let v = from[i];
            let c = self.epsilon_closure(v);
            let ghost r0 = r@;
            insert_all(&mut r, &c);
            proof {
                let t0 = from@.take(i as int);
                let t1 = from@.take(i + 1);
                assert(t1 =~= t0.push(v));
                assert forall|t: usize| r@.contains(t) <==> self.close_spec(t1.to_set()).contains(t) by {
                    if r0.contains(t) {
                        let w = choose|w: usize| t0.to_set().contains(w) && #[trigger] self.eps_reaches(w, t);
                        let q = choose|q: int| 0 <= q < t0.len() && t0[q] == w;
                        assert(t1[q] == w);
                        assert(t1.to_set().contains(w));
                    }
                    if c@.contains(t) {
                        assert(t1[i as int] == v);
                        assert(t1.to_set().contains(v));
                    }
                    if self.close_spec(t1.to_set()).contains(t) {
                        let w = choose|w: usize| t1.to_set().contains(w) && #[trigger] self.eps_reaches(w, t);
                        if w != v {
                            let q = choose|q: int| 0 <= q < t1.len() && t1[q] == w;
                            assert(t0[q] == w);
                            assert(t0.to_set().contains(w));
                        }
                    }
                }
                assert(r@ =~= self.close_spec(t1.to_set()));
            }
        }
        assert(from@.take(from@.len() as int) =~= from@);
        r
    }

    /// The states reached from `state` by reading `byte`.
    pub fn next_states_impl(&self, state: usize, byte: u8) -> (r: HashSet<usize>)
        requires
            self.well_formed(),
            state < self.states@.len(),
        ensures
            r@ == self.next_spec(state, byte),
    {
        let closure = set_to_vec(&self.epsilon_closure(state));
        proof {
            assert forall|i: int| 0 <= i < closure@.len() implies #[trigger] closure@[i] < self.states@.len() by {
                assert(closure@.to_set().contains(closure@[i]));
                self.lemma_reach_in_range(state, closure@[i]);
            }
        }
        let moved = set_to_vec(&self.move_on_byte(&closure, byte));
        proof {
            assert forall|i: int| 0 <= i < moved@.len() implies #[trigger] moved@[i] < self.states@.len() by {
                assert(moved@.to_set().contains(moved@[i]));
                let w = choose|w: usize| closure@.to_set().contains(w) && #[trigger] self.has_edge(w, Symbol::Byte(byte), moved@[i]);
                self.lemma_edge_in_range(w, Symbol::Byte(byte), moved@[i]);
            }
        }
        self.close_all(&moved)
    }

    /// Appends a state without transitions and returns its index.
    pub(crate) fn add_state_impl(&mut self) -> (id: usize)
        requires
            old(self).states@.len() < usize::MAX,
        ensures
            id == old(self).states@.len(),
            final(self).states@.len() == old(self).states@.len() + 1,
            transitions_of(final(self).states@) == transitions_of(old(self).states@).push(Seq::empty()),
            final(self).start == old(self).start,
            final(self).accept == old(self).accept,
            final(self).alphabet@ == old(self).alphabet@,
    {
        let id = self.states.len();
        self.states.push(State::new());
        proof {
            assert(transitions_of(self.states@) =~= transitions_of(old(self).states@).push(Seq::empty()));
        }
        id
    }

    /// Appends the transition `from --symbol--> to`.
    pub(crate) fn add_transition_impl(&mut self, from: usize, symbol: Symbol, to: usize)
        requires
            from < old(self).states@.len(),
        ensures
            transitions_of(final(self).states@) == transitions_of(old(self).states@).update(
                from as int,
                transitions_of(old(self).states@)[from as int].push((symbol, to)),
            ),
            final(self).states@.len() == old(self).states@.len(),
            final(self).start == old(self).start,
            final(self).accept == old(self).accept,
            final(self).alphabet@ == old(self).alphabet@,
    {
        let mut st = State::new();
        std::mem::swap(&mut st, &mut self.states[from]);
        st.transitions.push((symbol, to));
        self.states.set(from, st);
        proof {
            assert(transitions_of(self.states@) =~= transitions_of(old(self).states@).update(
                from as int,
                transitions_of(old(self).states@)[from as int].push((symbol, to)),
            ));
        }
    }

    /// The bytes that label some edge.
    pub open spec fn used_symbols_spec(&self) -> Set<u8> {
        Set::new(|b: u8| exists|u: usize, v: usize| #[trigger] self.has_edge(u, Symbol::Byte(b), v))
    }

    /// The bytes that label some edge.
    pub(crate) fn extract_used_symbols(&self) -> (symbols: HashSet<u8>)
        ensures
            symbols@ == self.used_symbols_spec(),
    {
        let mut symbols: HashSet<u8> = HashSet::new();
        for i in 0..self.states.len()
            invariant
                symbols@ == Set::new(|b: u8| exists|u: usize, v: usize| u < i && #[trigger] self.has_edge(u, Symbol::Byte(b), v)),
        {
            let transitions = &self.states[i].transitions;
            let ghost s0 = symbols@;
            for k in 0..transitions.len()
                invariant
                    *transitions == self.states@[i as int].transitions,
                    symbols@ == s0.union(Set::new(|b: u8| exists|q: int| 0 <= q < k && (#[trigger] transitions@[q]).0 == Symbol::Byte(b))),
            {
                let (sym, _target) = transitions[k];
                match sym {
                    Symbol::Byte(b) => {
                        symbols.insert(b);
                    },
                    Symbol::Epsilon => {},
                }
                proof {
                    assert(symbols@ =~= s0.union(Set::new(|b: u8| exists|q: int| 0 <= q < k + 1 && (#[trigger] transitions@[q]).0 == Symbol::Byte(b))));
                }
            }
            proof {
                assert forall|b: u8| symbols@.contains(b) <==> (exists|u: usize, v: usize| u < i + 1 && #[trigger] self.has_edge(u, Symbol::Byte(b), v)) by {
                    if symbols@.contains(b) && !s0.contains(b) {
                        let q = choose|q: int| 0 <= q < transitions@.len() && (#[trigger] transitions@[q]).0 == Symbol::Byte(b);
                        let v = transitions@[q].1;
                        assert(self.trans(i as usize)[q] == (Symbol::Byte(b), v));
                        assert(self.has_edge(i as usize, Symbol::Byte(b), v));
                    }
                    if exists|u: usize, v: usize| u < i + 1 && #[trigger] self.has_edge(u, Symbol::Byte(b), v) {
                        let (u, v) = choose|u: usize, v: usize| u < i + 1 && #[trigger] self.has_edge(u, Symbol::Byte(b), v);
                        if u == i {
                            let q = choose|q: int| 0 <= q < self.trans(u).len() && self.trans(u)[q] == (Symbol::Byte(b), v);
                            assert(transitions@[q] == (Symbol::Byte(b), v));
                        }
                    }
                }
                assert(symbols@ =~= Set::new(|b: u8| exists|u: usize, v: usize| u < i + 1 && #[trigger] self.has_edge(u, Symbol::Byte(b), v)));
            }
        }
        proof {
            assert forall|b: u8| symbols@.contains(b) <==> self.used_symbols_spec().contains(b) by {
                if self.used_symbols_spec().contains(b) {
                    let (u, v) = choose|u: usize, v: usize| #[trigger] self.has_edge(u, Symbol::Byte(b), v);
                    assert(u < self.states@.len());
                }
            }
            assert(symbols@ =~= self.used_symbols_spec());
        }
        symbols
    }

    /// Whether the automaton accepts the bytes of `word`.
    pub fn accepts(&self, word: &str) -> (r: bool)
        requires
            self.well_formed(),
        ensures
            r == accepts_spec(self, word.spec_bytes()),
    {
        let initial_states = self.epsilon_closure(self.start);
        proof {
            assert forall|t: usize| initial_states@.contains(t) implies below(self.states@.len()).contains(t) by {
                self.lemma_reach_in_range(self.start, t);
            }
            assert(initial_states@ == self.spec_initial());
        }
        accepts_from_states(self, &initial_states, word)
    }

    /// Creates an automaton with no states.
    pub fn new() -> (r: Self)
        ensures
            r.states@.len() == 0,
            r.start == 0,
            r.accept == 0,
            r.alphabet@ == Set::<u8>::empty(),
    {
        EpsilonNfa { states: Vec::new(), start: 0, accept: 0, alphabet: HashSet::new() }
    }

    /// The set of states reachable from `state` along epsilon edges alone.
    pub fn epsilon_closure(&self, state: usize) -> (closure: HashSet<usize>)
        requires
            self.well_formed(),
            state < self.states@.len(),
        ensures
            closure@ == self.eps_closure_spec(state),
    {
        let n = self.states.len();
        let mut closure: HashSet<usize> = HashSet::new();
        let mut stack: Vec<usize> = Vec::new();
        stack.push(state);
        proof {
            assert(stack@[0] == state);
            self.lemma_reach_refl(state);
            lemma_subset_below(closure@, n as nat);
        }
        loop
            invariant
                self.well_formed(),
                n == self.states@.len(),
                state < n,
                closure@.subset_of(below(n as nat)),
                closure@.finite(),
                forall|i: int| 0 <= i < stack@.len() ==> #[trigger] stack@[i] < n,
                forall|x: usize| closure@.contains(x) ==> self.eps_reaches(state, x),
                forall|i: int| 0 <= i < stack@.len() ==> self.eps_reaches(state, #[trigger] stack@[i]),
                closure@.contains(state) || stack@.contains(state),
                forall|x: usize, v: usize| closure@.contains(x) && #[trigger] self.has_edge(x, Symbol::Epsilon, v) ==>
                    closure@.contains(v) || stack@.contains(v),
            ensures
                stack@.len() == 0,
                closure@.contains(state),
                forall|x: usize| closure@.contains(x) ==> self.eps_reaches(state, x),
                forall|x: usize, v: usize| closure@.contains(x) && #[trigger] self.has_edge(x, Symbol::Epsilon, v) ==>
                    closure@.contains(v),
            decreases n - closure@.len(), stack@.len(),
        {
            proof { lemma_subset_below(closure@, n as nat); }
            let ghost pre = stack@;
            match stack.pop() {
                None => {
                    proof {
                        assert(stack@ =~= Seq::<usize>::empty());
                        assert(!stack@.contains(state));
                    }
                    break;
                },
                Some(current) => {
                    let ghost old_stack = stack@.push(current);
                    let ghost c0 = closure@;
                    assert(old_stack =~= pre);
                    assert(forall|x: usize, v: usize| c0.contains(x) && #[trigger] self.has_edge(x, Symbol::Epsilon, v) ==>
                        c0.contains(v) || old_stack.contains(v));
                    assert(c0.contains(state) || old_stack.contains(state));
                    proof {
                        assert(old_stack[old_stack.len() - 1] == current);
                        assert forall|v: usize| old_stack.contains(v) implies (stack@.contains(v) || v == current) by {
                            let i = choose|i: int| 0 <= i < old_stack.len() && old_stack[i] == v;
                            if i < stack@.len() {
                                assert(stack@[i] == v);
                            }
                        }
                    }
                    if closure.insert(current) {
                        proof {
                            assert(closure@ == c0.insert(current));
                            assert(!c0.contains(current));
                            assert(closure@.len() == c0.len() + 1);
                            lemma_subset_below(closure@, n as nat);
                        }
                        let transitions = &self.states[current].transitions;
                        let ghost stack0 = stack@;
                        let mut k: usize = 0;
                        while k < transitions.len()
                            invariant
                                self.well_formed(),
                                n == self.states@.len(),
                                current < n,
                                *transitions == self.states@[current as int].transitions,
                                0 <= k <= transitions@.len(),
                                self.eps_reaches(state, current),
                                forall|v: usize| stack0.contains(v) ==> #[trigger] stack@.contains(v),
                                forall|i: int| 0 <= i < stack@.len() ==> #[trigger] stack@[i] < n,
                                forall|i: int| 0 <= i < stack@.len() ==> self.eps_reaches(state, #[trigger] stack@[i]),
                                forall|q: int| 0 <= q < k && (#[trigger] transitions@[q]).0 == Symbol::Epsilon ==>
                                    stack@.contains(transitions@[q].1),
                            decreases transitions@.len() - k,
                        {
                            let (sym, target) = transitions[k];
                            if matches!(sym, Symbol::Epsilon) {
                                let ghost prev = stack@;
                                proof {
                                    assert(transitions_of(self.states@)[current as int][k as int] == transitions@[k as int]);
                                    assert(self.trans(current)[k as int] == (Symbol::Epsilon, target));
                                    assert(self.has_edge(current, Symbol::Epsilon, target));
                                    self.lemma_reach_extend(state, current, target);
                                }
                                stack.push(target);
                                proof {
                                    assert(stack@[stack@.len() - 1] == target);
                                    assert forall|v: usize| prev.contains(v) implies #[trigger] stack@.contains(v) by {
                                        let i = choose|i: int| 0 <= i < prev.len() && prev[i] == v;
                                        assert(stack@[i] == v);
                                    }
                                }
                            }
                            k = k + 1;
                        }
                        proof {
                            assert forall|x: usize, v: usize| closure@.contains(x) && #[trigger] self.has_edge(x, Symbol::Epsilon, v) implies
                                closure@.contains(v) || stack@.contains(v) by {
                                if x == current {
                                    let q = choose|q: int| 0 <= q < self.trans(x).len() && self.trans(x)[q] == (Symbol::Epsilon, v);
                                    assert(transitions@[q] == (Symbol::Epsilon, v));
                                } else {
                                    assert(c0.contains(x));
                                    if old_stack.contains(v) && !closure@.contains(v) {
                                        assert(stack0.contains(v));
                                    }
                                }
                            }
                            if stack0.contains(state) {
                                assert(stack@.contains(state));
                            }
                        }
                    } else {
                        proof {
                            assert forall|x: usize, v: usize| closure@.contains(x) && #[trigger] self.has_edge(x, Symbol::Epsilon, v) implies
                                closure@.contains(v) || stack@.contains(v) by {
                                assert(c0.contains(x));
                                assert(old_stack.contains(v) ==> (stack@.contains(v) || v == current));
                            }
                            assert(c0.contains(state) || old_stack.contains(state));
                        }
                    }
                },
            }
        }
        proof {
            assert forall|t: usize| closure@.contains(t) <==> self.eps_reaches(state, t) by {
                if self.eps_reaches(state, t) {
                    self.lemma_closed_holds_reach(closure@, state, t);
                }
            }
            assert(closure@ =~= self.eps_closure_spec(state));
        }
        closure
    }
}

impl Automaton for EpsilonNfa {
    type Label = Symbol;

    open spec fn spec_transitions(&self) -> Seq<Seq<(Symbol, usize)>> {
        transitions_of(self.states@)
    }

    open spec fn spec_start(&self) -> usize {
        self.start
    }

    open spec fn spec_accepting(&self) -> Set<usize> {
        set![self.accept]
    }

    open spec fn spec_alphabet(&self) -> Set<u8> {
        self.alphabet@
    }

    open spec fn spec_next(&self, state: usize, byte: u8) -> Set<usize> {
        self.next_spec(state, byte)
    }

    open spec fn spec_initial(&self) -> Set<usize> {
        self.eps_closure_spec(self.start)
    }

    open spec fn spec_encode(label: Symbol) -> Seq<char> {
        encode_symbol(label)
    }

    open spec fn spec_decode(text: Seq<char>) -> Option<Symbol> {
        decode_symbol(text)
    }

    open spec fn spec_decode_error(text: Seq<char>) -> Seq<char> {
        "invalid label: "@ + text
    }

    open spec fn wf(&self) -> bool {
        self.well_formed()
    }

    proof fn lemma_wf(&self) {
        let n = self.states@.len();
        assert forall|t: usize| self.spec_initial().contains(t) implies below(n).contains(t) by {
            self.lemma_reach_in_range(self.start, t);
        }
        assert forall|s: usize, b: u8| #![trigger self.spec_next(s, b)]
            s < n implies self.spec_next(s, b).subset_of(below(n)) by {
            assert forall|t: usize| self.spec_next(s, b).contains(t) implies below(n).contains(t) by {
                let v = choose|v: usize| self.move_spec(self.eps_closure_spec(s), b).contains(v) && #[trigger] self.eps_reaches(v, t);
                let u = choose|u: usize| self.eps_closure_spec(s).contains(u) && #[trigger] self.has_edge(u, Symbol::Byte(b), v);
                self.lemma_edge_in_range(u, Symbol::Byte(b), v);
                self.lemma_reach_in_range(v, t);
            }
        }
    }

    fn state_count(&self) -> (n: usize) {
        self.states.len()
    }

    fn start_state(&self) -> (s: usize) {
        self.start
    }

    fn accept_states(&self) -> (r: HashSet<usize>) {
        let mut set: HashSet<usize> = HashSet::new();
        set.insert(self.accept);
        assert(set@ =~= set![self.accept]);
        set
    }

    fn transitions_from(&self, state: usize) -> (r: Vec<(Symbol, usize)>) {
        let t = &self.states[state].transitions;
        let mut r: Vec<(Symbol, usize)> = Vec::new();
        for k in 0..t.len()
            invariant
                r@ == t@.take(k as int),
        {
            r.push(t[k]);
            assert(t@.take(k + 1) =~= t@.take(k as int).push(t@[k as int]));
        }
        assert(t@.take(t@.len() as int) =~= t@);
        r
    }

    fn alphabet(&self) -> (r: &HashSet<u8>) {
        &self.alphabet
    }

    fn get_states(&self) -> (r: &Vec<State<Symbol>>) {
        &self.states
    }

    fn set_start(&mut self, state: usize) {
        self.start = state;
    }

    /// An epsilon-NFA has exactly one accepting state: any other count is refused.
    fn set_accept_states(&mut self, states: HashSet<usize>) -> (r: Result<()>)
        ensures
            r is Ok <==> states@.len() == 1,
            r matches Err(e) ==> (e matches Error::InvalidInput(m) && m@ == "epsilon-NFA must have exactly one accept state"@),
    {
        let v = set_to_vec(&states);
        proof { v@.unique_seq_to_set(); }
        if v.len() == 1 {
            self.accept = v[0];
            proof {
                assert(v@.to_set() =~= set![v@[0]]);
            }
            Ok(())
        } else {
            let mut m: Vec<char> = Vec::new();
            push_str(&mut m, "epsilon-NFA must have exactly one accept state");
            Err(Error::InvalidInput(string_from_chars(&m)))
        }
    }

    fn add_state(&mut self) -> (id: usize) {
        self.add_state_impl()
    }

    fn add_transition(&mut self, from: usize, label: Symbol, to: usize) {
        self.add_transition_impl(from, label, to)
    }

    fn encode_label(label: &Symbol) -> (r: String) {
        encode_symbol_text(*label)
    }

    fn decode_label(label: &str) -> (r: Result<Symbol>) {
        decode_symbol_text(label)
    }

    fn next_states(&self, state: usize, byte: u8) -> (r: HashSet<usize>) {
        self.next_states_impl(state, byte)
    }
}

impl Default for EpsilonNfa {
    fn default() -> (r: Self)
        ensures
            r.states@.len() == 0,
            r.start == 0,
            r.accept == 0,
            r.alphabet@ == Set::<u8>::empty(),
    {
        EpsilonNfa::new()
    }
}

} // verus!
