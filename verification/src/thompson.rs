//! Building an epsilon-NFA from a pattern, fragment by fragment.
use vstd::prelude::*;
use std::collections::HashSet;
use crate::automaton::{transitions_of, targets_in_range, accepts_spec};
use crate::regex_language::{in_language, fragment_reads, lemma_thompson_reads};
use crate::walks::lemma_accepts_walks;
use crate::epsilon_nfa::{EpsilonNfa, Symbol};
use crate::errors::{Error, Result};
use crate::sets::sorted_bytes;
use crate::text::{chars_of, push_str, string_from_chars};
use crate::regex::{RegexAst, RepeatKind, Fragment, ast_size, alternation_size, concat_size, build_error, list_error, thompson, alternation_fragment, concat_fragment, literal_rows, append_edge, fragment_shape, lemma_list_error_prefix, lemma_alternation_size_grows, lemma_concat_size_grows, lemma_append_edge_middle, lemma_thompson_shape, lemma_alternation_shape, lemma_concat_shape, regex_syntax_parse, parse_pattern};

verus! {

broadcast use vstd::std_specs::hash::group_hash_axioms;

/// `e` reports the refused construct described by `m`.
pub open spec fn reports(e: Error, m: Seq<char>) -> bool {
    e matches Error::UnsupportedFeature(x) && x@ == m
}

/// `new` is `old` with the rows of `f` appended, its other fields untouched.
pub open spec fn extended_by(old: EpsilonNfa, new: EpsilonNfa, f: Fragment) -> bool {
    &&& transitions_of(new.states@) == transitions_of(old.states@) + f.rows
    &&& new.states@.len() == old.states@.len() + f.rows.len()
    &&& new.start == old.start
    &&& new.accept == old.accept
    &&& new.alphabet@ == old.alphabet@
}

/// The fields of `new` other than its states are those of `old`.
pub open spec fn fields_kept(old: EpsilonNfa, new: EpsilonNfa) -> bool {
    &&& new.start == old.start
    &&& new.accept == old.accept
    &&& new.alphabet@ == old.alphabet@
}

impl EpsilonNfa {
    /// Builds the fragment of `ast` after the existing states: `Ok` with its entry and exit
    /// states, or the first construct it refuses.
    fn build_from_ast(&mut self, ast: &RegexAst) -> (r: Result<(usize, usize)>)
        requires
            old(self).states@.len() + ast_size(*ast) <= usize::MAX,
        ensures
            fields_kept(*old(self), *final(self)),
            match r {
                Ok(p) => build_error(*ast) is None && extended_by(*old(self), *final(self), thompson(*ast, old(self).states@.len()))
                    && p.0 == thompson(*ast, old(self).states@.len()).start
                    && p.1 == thompson(*ast, old(self).states@.len()).accept,
                Err(e) => build_error(*ast) matches Some(m) && reports(e, m),
            },
        decreases *ast, 0nat,
    {
        match ast {
            RegexAst::Literal(c) => {
                let b = *c as u32;
                if b > 255 {
                    return Err(Error::UnsupportedFeature("non ASCII literal"));
                }
                let bytes: Vec<u8> = vec![b as u8];
                proof {
                    assert(bytes@ =~= seq![*c as u8]);
                }
                self.build_literal(bytes.as_slice())
            },
            RegexAst::Alternation(v) => self.build_alternation(v),
            RegexAst::Concat(v) => self.build_concat(v),
            RegexAst::Repetition(kind, a) => self.build_repetition(*kind, a),
            RegexAst::Group(a) => self.build_from_ast(a),
            RegexAst::Empty => self.build_empty(),
            _ => Err(Error::UnsupportedFeature("unsupported AST node")),
        }
    }

    /// The left-grouped alternation of `subs`.
    fn build_alternation(&mut self, subs: &Vec<RegexAst>) -> (r: Result<(usize, usize)>)
        requires
            old(self).states@.len() + alternation_size(subs@, subs@.len()) <= usize::MAX,
        ensures
            fields_kept(*old(self), *final(self)),
            match r {
                Ok(p) => list_error(subs@, subs@.len()) is None
                    && extended_by(*old(self), *final(self), alternation_fragment(subs@, subs@.len(), old(self).states@.len()))
                    && p.0 == alternation_fragment(subs@, subs@.len(), old(self).states@.len()).start
                    && p.1 == alternation_fragment(subs@, subs@.len(), old(self).states@.len()).accept,
                Err(e) => list_error(subs@, subs@.len()) matches Some(m) && reports(e, m),
            },
        decreases subs@, 1nat,
    {
        if subs.len() == 0 {
            return Err(Error::UnsupportedFeature("empty alternation or concatenation"));
        }
        let ghost base = self.states@.len();
        let ghost t0 = transitions_of(self.states@);
        let ghost total = alternation_size(subs@, subs@.len());
        proof {
            lemma_alternation_size_grows(subs@, 1, subs@.len());
            assert(list_error(subs@, 0) is None);
        }
        let mut current = match self.build_from_ast(&subs[0]) {
            Ok(p) => p,
            Err(e) => {
                proof {
                    lemma_list_error_prefix(subs@, 1, subs@.len());
                }
                return Err(e);
            },
        };
        proof {
            lemma_alternation_shape(subs@, 1, base);
        }
        let mut i: usize = 1;
        while i < subs.len()
            invariant
                1 <= i <= subs@.len(),
                base == t0.len(),
                base + total <= usize::MAX,
                total == alternation_size(subs@, subs@.len()),
                list_error(subs@, i as nat) is None,
                fields_kept(*old(self), *self),
                transitions_of(self.states@) == t0 + alternation_fragment(subs@, i as nat, base).rows,
                current.0 == alternation_fragment(subs@, i as nat, base).start,
                current.1 == alternation_fragment(subs@, i as nat, base).accept,
                fragment_shape(alternation_fragment(subs@, i as nat, base), base, alternation_size(subs@, i as nat)),
                self.states@.len() == base + alternation_size(subs@, i as nat),
            decreases subs@.len() - i,
        {
            let ghost left = alternation_fragment(subs@, i as nat, base);
            let ghost b2 = base + left.rows.len();
            proof {
                lemma_alternation_size_grows(subs@, (i + 1) as nat, subs@.len());
                assert(self.states@.len() == b2);
            }
            let right = match self.build_from_ast(&subs[i]) {
                Ok(p) => p,
                Err(e) => {
                    proof {
                        lemma_list_error_prefix(subs@, (i + 1) as nat, subs@.len());
                    }
                    return Err(e);
                },
            };
            proof {
                lemma_list_error_prefix(subs@, (i + 1) as nat, (i + 1) as nat);
                lemma_thompson_shape(subs@[i as int], b2);
            }
            let ghost rf = thompson(subs@[i as int], b2);
            let ghost n = b2 + rf.rows.len();
            current = self.build_binary_alternation(current, right);
            proof {
                let e = (Symbol::Epsilon, (n + 1) as usize);
                let tail = seq![seq![(Symbol::Epsilon, left.start), (Symbol::Epsilon, rf.start)], Seq::<(Symbol, usize)>::empty()];
                lemma_append_edge_middle(t0, left.rows, rf.rows, left.accept - base, e);
                assert(t0 + left.rows + rf.rows == t0 + (left.rows + rf.rows));
                let mid = append_edge(left.rows, left.accept - base, e);
                lemma_append_edge_middle(t0 + mid, rf.rows, Seq::empty(), rf.accept - b2, e);
                assert(t0 + mid + rf.rows + Seq::<Seq<(Symbol, usize)>>::empty() =~= t0 + mid + rf.rows);
                assert(t0 + mid + append_edge(rf.rows, rf.accept - b2, e) + Seq::<Seq<(Symbol, usize)>>::empty()
                    =~= t0 + mid + append_edge(rf.rows, rf.accept - b2, e));
                assert(transitions_of(self.states@) =~= t0 + alternation_fragment(subs@, (i + 1) as nat, base).rows);
                lemma_alternation_shape(subs@, (i + 1) as nat, base);
            }
            i = i + 1;
        }
        Ok(current)
    }

    /// Joins two fragments with a new entry state leading to both and a new exit state
    /// that both lead to.
    fn build_binary_alternation(&mut self, left: (usize, usize), right: (usize, usize)) -> (r: (usize, usize))
        requires
            left.1 < old(self).states@.len(),
            right.1 < old(self).states@.len(),
            old(self).states@.len() + 2 <= usize::MAX,
        ensures
            fields_kept(*old(self), *final(self)),
            r.0 == old(self).states@.len(),
            r.1 == old(self).states@.len() + 1,
            transitions_of(final(self).states@) == append_edge(
                append_edge(transitions_of(old(self).states@), left.1 as int, (Symbol::Epsilon, r.1)),
                right.1 as int,
                (Symbol::Epsilon, r.1),
            ) + seq![seq![(Symbol::Epsilon, left.0), (Symbol::Epsilon, right.0)], Seq::empty()],
    {
        let ghost t0 = transitions_of(self.states@);
        let start = self.add_state_impl();
        let accept = self.add_state_impl();
        let (l_start, l_accept) = left;
        let (r_start, r_accept) = right;
        proof {
            assert(transitions_of(self.states@) =~= t0 + seq![Seq::<(Symbol, usize)>::empty(), Seq::<(Symbol, usize)>::empty()]);
        }
        self.add_transition_impl(start, Symbol::Epsilon, l_start);
        proof {
            assert(transitions_of(self.states@) =~= t0 + seq![seq![(Symbol::Epsilon, l_start)], Seq::<(Symbol, usize)>::empty()]);
        }
        self.add_transition_impl(start, Symbol::Epsilon, r_start);
        let ghost e = (Symbol::Epsilon, accept);
        let ghost tail = seq![seq![(Symbol::Epsilon, left.0), (Symbol::Epsilon, right.0)], Seq::<(Symbol, usize)>::empty()];
        proof {
            assert(transitions_of(self.states@) =~~= t0 + tail);
        }
        self.add_transition_impl(l_accept, Symbol::Epsilon, accept);
        proof {
            assert(transitions_of(self.states@) =~= append_edge(t0, left.1 as int, e) + tail);
        }
        self.add_transition_impl(r_accept, Symbol::Epsilon, accept);
        proof {
            assert(transitions_of(self.states@) =~= append_edge(append_edge(t0, left.1 as int, e), right.1 as int, e) + tail);
        }
        (start, accept)
    }

    /// The concatenation of `subs`, each fragment's exit joined to the next one's entry.
    fn build_concat(&mut self, subs: &Vec<RegexAst>) -> (r: Result<(usize, usize)>)
        requires
            old(self).states@.len() + concat_size(subs@, subs@.len()) <= usize::MAX,
        ensures
            fields_kept(*old(self), *final(self)),
            match r {
                Ok(p) => list_error(subs@, subs@.len()) is None
                    && extended_by(*old(self), *final(self), concat_fragment(subs@, subs@.len(), old(self).states@.len()))
                    && p.0 == concat_fragment(subs@, subs@.len(), old(self).states@.len()).start
                    && p.1 == concat_fragment(subs@, subs@.len(), old(self).states@.len()).accept,
                Err(e) => list_error(subs@, subs@.len()) matches Some(m) && reports(e, m),
            },
        decreases subs@, 1nat,
    {
        if subs.len() == 0 {
            return Err(Error::UnsupportedFeature("empty alternation or concatenation"));
        }
        let ghost base = self.states@.len();
        let ghost t0 = transitions_of(self.states@);
        let ghost total = concat_size(subs@, subs@.len());
        proof {
            lemma_concat_size_grows(subs@, 1, subs@.len());
            assert(concat_size(subs@, 0) == 0);
            assert(list_error(subs@, 0) is None);
        }
        let (start, first_accept) = match self.build_from_ast(&subs[0]) {
            Ok(p) => p,
            Err(e) => {
                proof {
                    lemma_list_error_prefix(subs@, 1, subs@.len());
                }
                return Err(e);
            },
        };
        let mut accept = first_accept;
        proof {
            lemma_concat_shape(subs@, 1, base);
        }
        let mut i: usize = 1;
        while i < subs.len()
            invariant
                1 <= i <= subs@.len(),
                base == t0.len(),
                base + total <= usize::MAX,
                total == concat_size(subs@, subs@.len()),
                list_error(subs@, i as nat) is None,
                fields_kept(*old(self), *self),
                transitions_of(self.states@) == t0 + concat_fragment(subs@, i as nat, base).rows,
                start == concat_fragment(subs@, i as nat, base).start,
                accept == concat_fragment(subs@, i as nat, base).accept,
                fragment_shape(concat_fragment(subs@, i as nat, base), base, concat_size(subs@, i as nat)),
                self.states@.len() == base + concat_size(subs@, i as nat),
            decreases subs@.len() - i,
        {
            let ghost left = concat_fragment(subs@, i as nat, base);
            let ghost b2 = base + left.rows.len();
            proof {
                lemma_concat_size_grows(subs@, (i + 1) as nat, subs@.len());
                assert(self.states@.len() == b2);
            }
            let (next_start, next_accept) = match self.build_from_ast(&subs[i]) {
                Ok(p) => p,
                Err(e) => {
                    proof {
                        lemma_list_error_prefix(subs@, (i + 1) as nat, subs@.len());
                    }
                    return Err(e);
                },
            };
            proof {
                lemma_list_error_prefix(subs@, (i + 1) as nat, (i + 1) as nat);
                lemma_thompson_shape(subs@[i as int], b2);
            }
            let ghost rf = thompson(subs@[i as int], b2);
            self.add_transition_impl(accept, Symbol::Epsilon, next_start);
            proof {
                let e = (Symbol::Epsilon, rf.start);
                lemma_append_edge_middle(t0, left.rows, rf.rows, left.accept - base, e);
                assert(t0 + left.rows + rf.rows =~= t0 + (left.rows + rf.rows));
                assert(t0 + append_edge(left.rows, left.accept - base, e) + rf.rows
                    =~= t0 + (append_edge(left.rows, left.accept - base, e) + rf.rows));
                assert(transitions_of(self.states@) =~= t0 + concat_fragment(subs@, (i + 1) as nat, base).rows);
                lemma_concat_shape(subs@, (i + 1) as nat, base);
            }
            accept = next_accept;
            i = i + 1;
        }
        Ok((start, accept))
    }

    /// `*` and `+` around the fragment of `sub`; other repetitions are refused.
    fn build_repetition(&mut self, kind: RepeatKind, sub: &RegexAst) -> (r: Result<(usize, usize)>)
        requires
            old(self).states@.len() + ast_size(*sub) + 2 <= usize::MAX,
        ensures
            fields_kept(*old(self), *final(self)),
            match r {
                Ok(p) => build_error(RegexAst::Repetition(kind, Box::new(*sub))) is None
                    && extended_by(*old(self), *final(self), thompson(RegexAst::Repetition(kind, Box::new(*sub)), old(self).states@.len()))
                    && p.0 == thompson(RegexAst::Repetition(kind, Box::new(*sub)), old(self).states@.len()).start
                    && p.1 == thompson(RegexAst::Repetition(kind, Box::new(*sub)), old(self).states@.len()).accept,
                Err(e) => build_error(RegexAst::Repetition(kind, Box::new(*sub))) matches Some(m) && reports(e, m),
            },
            kind != RepeatKind::ZeroOrMore && kind != RepeatKind::OneOrMore ==> final(self).states@ == old(self).states@,
        decreases *sub, 1nat,
    {
        let ghost base = self.states@.len();
        let ghost t0 = transitions_of(self.states@);
        match kind {
            RepeatKind::ZeroOrMore => {
                let (sub_start, sub_accept) = match self.build_from_ast(sub) {
                    Ok(p) => p,
                    Err(e) => return Err(e),
                };
                proof {
                    lemma_thompson_shape(*sub, base);
                }
                let ghost t1 = transitions_of(self.states@);
                let start = self.add_state_impl();
                let accept = self.add_state_impl();
                proof {
                    assert(transitions_of(self.states@) =~= t1 + seq![Seq::<(Symbol, usize)>::empty(), Seq::<(Symbol, usize)>::empty()]);
                }
                self.add_transition_impl(start, Symbol::Epsilon, sub_start);
                proof {
                    assert(transitions_of(self.states@) =~= t1 + seq![seq![(Symbol::Epsilon, sub_start)], Seq::<(Symbol, usize)>::empty()]);
                }
                self.add_transition_impl(start, Symbol::Epsilon, accept);
                proof {
                    assert(transitions_of(self.states@) =~~= t1 + seq![seq![(Symbol::Epsilon, sub_start), (Symbol::Epsilon, accept)], Seq::<(Symbol, usize)>::empty()]);
                }
                self.add_transition_impl(sub_accept, Symbol::Epsilon, sub_start);
                self.add_transition_impl(sub_accept, Symbol::Epsilon, accept);
                proof {
                    let sf = thompson(*sub, base);
                    let back = seq![(Symbol::Epsilon, sub_start), (Symbol::Epsilon, accept)];
                    assert(sf.rows[sf.accept - base] + back =~= sf.rows[sf.accept - base].push((Symbol::Epsilon, sub_start)).push((Symbol::Epsilon, accept)));
                    assert(transitions_of(self.states@) =~= t0 + thompson(RegexAst::Repetition(kind, Box::new(*sub)), base).rows);
                }
                Ok((start, accept))
            },
            RepeatKind::OneOrMore => {
                let (sub_start, sub_accept) = match self.build_from_ast(sub) {
                    Ok(p) => p,
                    Err(e) => return Err(e),
                };
                proof {
                    lemma_thompson_shape(*sub, base);
                }
                let start = self.add_state_impl();
                let accept = self.add_state_impl();
                self.add_transition_impl(start, Symbol::Epsilon, sub_start);
                self.add_transition_impl(sub_accept, Symbol::Epsilon, sub_start);
                self.add_transition_impl(sub_accept, Symbol::Epsilon, accept);
                proof {
                    let sf = thompson(*sub, base);
                    let back = seq![(Symbol::Epsilon, sub_start), (Symbol::Epsilon, accept)];
                    assert(sf.rows[sf.accept - base] + back =~= sf.rows[sf.accept - base].push((Symbol::Epsilon, sub_start)).push((Symbol::Epsilon, accept)));
                    assert(transitions_of(self.states@) =~= t0 + thompson(RegexAst::Repetition(kind, Box::new(*sub)), base).rows);
                }
                Ok((start, accept))
            },
            _ => Err(Error::UnsupportedFeature("only * and + supported")),
        }
    }

    /// A fragment whose entry leads to its exit by an epsilon edge.
    fn build_empty(&mut self) -> (r: Result<(usize, usize)>)
        requires
            old(self).states@.len() + 2 <= usize::MAX,
        ensures
            extended_by(*old(self), *final(self), thompson(RegexAst::Empty, old(self).states@.len())),
            r matches Ok(p) && p.0 == old(self).states@.len() && p.1 == old(self).states@.len() + 1,
    {
        let start = self.add_state_impl();
        let accept = self.add_state_impl();
        self.add_transition_impl(start, Symbol::Epsilon, accept);
        proof {
            assert(transitions_of(self.states@) =~= transitions_of(old(self).states@) + thompson(RegexAst::Empty, old(self).states@.len()).rows);
        }
        Ok((start, accept))
    }

    /// The chain reading `bytes` one after another.
    fn build_literal(&mut self, bytes: &[u8]) -> (r: Result<(usize, usize)>)
        requires
            bytes@.len() >= 1,
            old(self).states@.len() + 2 * bytes@.len() <= usize::MAX,
        ensures
            transitions_of(final(self).states@) == transitions_of(old(self).states@) + literal_rows(bytes@, old(self).states@.len()),
            final(self).states@.len() == old(self).states@.len() + 2 * bytes@.len(),
            fields_kept(*old(self), *final(self)),
            r matches Ok(p) && p.0 == old(self).states@.len() && p.1 == old(self).states@.len() + 2 * bytes@.len() - 1,
    {
        let ghost base = self.states@.len();
        let ghost t0 = transitions_of(self.states@);
        let start = self.add_state_impl();
        let mut accept = self.add_state_impl();
        self.add_transition_impl(start, Symbol::Byte(bytes[0]), accept);
        proof {
            assert(transitions_of(self.states@) =~= t0 + literal_rows(bytes@.take(1), base));
        }
        let mut i: usize = 1;
        while i < bytes.len()
            invariant
                1 <= i <= bytes@.len(),
                base == t0.len(),
                base + 2 * bytes@.len() <= usize::MAX,
                fields_kept(*old(self), *self),
                transitions_of(self.states@) == t0 + literal_rows(bytes@.take(i as int), base),
                self.states@.len() == base + 2 * i,
                start == base,
                accept == base + 2 * i - 1,
            decreases bytes@.len() - i,
        {
            let b = bytes[i];
            let next_start = self.add_state_impl();
            let next_accept = self.add_state_impl();
            self.add_transition_impl(next_start, Symbol::Byte(b), next_accept);
            self.add_transition_impl(accept, Symbol::Epsilon, next_start);
            proof {
                let lr = literal_rows(bytes@.take(i + 1), base);
                assert forall|j: int| 0 <= j < lr.len() implies #[trigger] transitions_of(self.states@)[base + j] == lr[j] by {
                    if j < 2 * i - 1 {
                        assert(bytes@.take(i + 1)[j / 2] == bytes@.take(i as int)[j / 2]);
                    }
                }
                assert(transitions_of(self.states@) =~= t0 + lr);
            }
            accept = next_accept;
            i = i + 1;
        }
        proof {
            assert(bytes@.take(i as int) =~= bytes@);
        }
        Ok((start, accept))
    }
}

/// `n`, or `usize::MAX` where `n` does not fit below it.
pub open spec fn capped(n: nat) -> nat {
    if n < usize::MAX { n } else { usize::MAX as nat }
}

/// A byte that may label an edge: printable ASCII other than `" $ . ? [ ] \ ^ { }`.
pub open spec fn dot_friendly(b: u8) -> bool {
    &&& 0x20 <= b <= 0x7E
    &&& b != 0x22 && b != 0x24 && b != 0x2E && b != 0x3F && b != 0x5B
    &&& b != 0x5C && b != 0x5D && b != 0x5E && b != 0x7B && b != 0x7D
}

/// The bytes that label some transition of `rows`.
pub open spec fn row_labels(rows: Seq<Seq<(Symbol, usize)>>) -> Set<u8> {
    Set::new(|b: u8| exists|i: int, q: int| 0 <= i < rows.len() && 0 <= q < rows[i].len() && (#[trigger] rows[i][q]).0 == Symbol::Byte(b))
}

/// What building from `ast` gives, with the requested alphabet `alphabet`:
/// the first refused construct; a label that cannot be written; an alphabet that misses a
/// label; or the automaton of the fragment of `ast`, over the requested alphabet or, by
/// default, over its labels.
pub open spec fn from_ast_outcome(ast: RegexAst, alphabet: Option<Set<u8>>, r: Result<EpsilonNfa>) -> bool {
    let f = thompson(ast, 0);
    let used = row_labels(f.rows);
    if ast_size(ast) >= usize::MAX {
        r matches Err(Error::InvalidInput(m)) && m@ == "pattern too large"@
    } else if build_error(ast) is Some {
        r matches Err(e) && reports(e, build_error(ast)->0)
    } else if exists|b: u8| used.contains(b) && !dot_friendly(b) {
        r matches Err(e) && reports(e, "symbol not allowed in regex"@)
    } else if alphabet matches Some(a) && !used.subset_of(a) {
        r matches Err(Error::InvalidInput(m)) && m@ == "provided alphabet does not include all symbols in the automata"@
    } else {
        r matches Ok(nfa) && {
            &&& transitions_of(nfa.states@) == f.rows
            &&& nfa.start == f.start
            &&& nfa.accept == f.accept
            &&& nfa.alphabet@ == (match alphabet { Some(a) => a, None => used })
            &&& nfa.well_formed()
            &&& forall|w: Seq<u8>| #[trigger] accepts_spec(&nfa, w) == in_language(ast, w)
        }
    }
}

/// Number of states of the fragment of `ast`, capped at `usize::MAX`.
fn thompson_size(ast: &RegexAst) -> (r: usize)
    ensures
        r == capped(ast_size(*ast)),
    decreases *ast, 0nat,
{
    match ast {
        RegexAst::Empty => 2,
        RegexAst::Literal(_) => 2,
        RegexAst::Group(a) => thompson_size(a),
        RegexAst::Repetition(_, a) => thompson_size(a).saturating_add(2),
        RegexAst::Alternation(v) => alternation_size_of(v),
        RegexAst::Concat(v) => concat_size_of(v),
        _ => 0,
    }
}

/// Number of states of the alternation of `subs`, capped at `usize::MAX`.
fn alternation_size_of(subs: &Vec<RegexAst>) -> (r: usize)
    ensures
        r == capped(alternation_size(subs@, subs@.len())),
    decreases subs@, 1nat,
{
    let mut acc: usize = 0;
    let mut i: usize = 0;
    while i < subs.len()
        invariant
            0 <= i <= subs@.len(),
            acc == capped(alternation_size(subs@, i as nat)),
        decreases subs@.len() - i,
    {
        let k = thompson_size(&subs[i]);
        if i == 0 {
            acc = k;
        } else {
            acc = acc.saturating_add(k).saturating_add(2);
        }
        i = i + 1;
    }
    acc
}

/// Number of states of the concatenation of `subs`, capped at `usize::MAX`.
fn concat_size_of(subs: &Vec<RegexAst>) -> (r: usize)
    ensures
        r == capped(concat_size(subs@, subs@.len())),
    decreases subs@, 1nat,
{
    let mut acc: usize = 0;
    let mut i: usize = 0;
    while i < subs.len()
        invariant
            0 <= i <= subs@.len(),
            acc == capped(concat_size(subs@, i as nat)),
        decreases subs@.len() - i,
    {
        let k = thompson_size(&subs[i]);
        acc = acc.saturating_add(k);
        i = i + 1;
    }
    acc
}

/// Whether every member of `a` is a member of `b`.
fn bytes_subset(a: &HashSet<u8>, b: &HashSet<u8>) -> (r: bool)
    ensures
        r == a@.subset_of(b@),
{
    let v = sorted_bytes(a);
    for i in 0..v.len()
        invariant
            v@.to_set() == a@,
            forall|j: int| 0 <= j < i ==> b@.contains(#[trigger] v@[j]),
    {
        if !b.contains(&v[i]) {
            assert(a@.contains(v@[i as int]));
            return false;
        }
    }
    assert forall|x: u8| a@.contains(x) implies b@.contains(x) by {
        let j = choose|j: int| 0 <= j < v@.len() && v@[j] == x;
    }
    true
}

impl EpsilonNfa {
    /// Refuses any label that cannot be written as an edge label: control characters,
    /// non-ASCII bytes, and `" $ . ? [ ] \ ^ { }`.
    pub fn ensure_dot_friendly_labels(used: &HashSet<u8>) -> (r: Result<()>)
        ensures
            r is Ok <==> (forall|b: u8| used@.contains(b) ==> dot_friendly(b)),
            r matches Err(e) ==> reports(e, "symbol not allowed in regex"@),
    {
        let v = sorted_bytes(used);
        for i in 0..v.len()
            invariant
                v@.to_set() == used@,
                forall|j: int| 0 <= j < i ==> dot_friendly(#[trigger] v@[j]),
        {
            let b = v[i];
            let friendly = 0x20 <= b && b <= 0x7E && b != 0x22 && b != 0x24 && b != 0x2E && b != 0x3F && b != 0x5B
                && b != 0x5C && b != 0x5D && b != 0x5E && b != 0x7B && b != 0x7D;
            assert(friendly == dot_friendly(b));
            if !friendly {
                assert(used@.contains(b) && !dot_friendly(b));
                return Err(Error::UnsupportedFeature("symbol not allowed in regex"));
            }
        }
        assert forall|b: u8| used@.contains(b) implies dot_friendly(b) by {
            let j = choose|j: int| 0 <= j < v@.len() && v@[j] == b;
        }
        Ok(())
    }

    /// The epsilon-NFA of a parsed pattern, over `alphabet` if one is given (it must hold
    /// every label), else over the bytes its edges read.
    pub fn from_ast(ast: &RegexAst, alphabet: Option<HashSet<u8>>) -> (r: Result<EpsilonNfa>)
        ensures
            from_ast_outcome(*ast, match alphabet { Some(a) => Some(a@), None => None }, r),
    {
        if thompson_size(ast) == usize::MAX {
            let mut m: Vec<char> = Vec::new();
            push_str(&mut m, "pattern too large");
            return Err(Error::InvalidInput(string_from_chars(&m)));
        }
        let mut nfa = EpsilonNfa::new();
        let (start, accept) = match nfa.build_from_ast(ast) {
            Ok(p) => p,
            Err(e) => return Err(e),
        };
        nfa.start = start;
        nfa.accept = accept;
        let ghost f = thompson(*ast, 0);
        proof {
            lemma_thompson_shape(*ast, 0);
            assert(transitions_of(nfa.states@) =~= f.rows);
        }
        let used = nfa.extract_used_symbols();
        proof {
            assert forall|b: u8| used@.contains(b) <==> row_labels(f.rows).contains(b) by {
                if used@.contains(b) {
                    let (u, v) = choose|u: usize, v: usize| #[trigger] nfa.has_edge(u, Symbol::Byte(b), v);
                    let q = choose|q: int| 0 <= q < nfa.trans(u).len() && nfa.trans(u)[q] == (Symbol::Byte(b), v);
                    assert(f.rows[u as int][q] == nfa.trans(u)[q]);
                }
                if row_labels(f.rows).contains(b) {
                    let (i, q) = choose|i: int, q: int| 0 <= i < f.rows.len() && 0 <= q < f.rows[i].len() && (#[trigger] f.rows[i][q]).0 == Symbol::Byte(b);
                    let u = i as usize;
                    assert(nfa.trans(u)[q] == f.rows[i][q]);
                    assert(nfa.has_edge(u, Symbol::Byte(b), f.rows[i][q].1));
                }
            }
            assert(used@ =~= row_labels(f.rows));
        }
        match EpsilonNfa::ensure_dot_friendly_labels(&used) {
            Ok(()) => {},
            Err(e) => return Err(e),
        }
        nfa.alphabet = match alphabet {
            Some(custom_alphabet) => {
                if !bytes_subset(&used, &custom_alphabet) {
                    let mut m: Vec<char> = Vec::new();
                    push_str(&mut m, "provided alphabet does not include all symbols in the automata");
                    return Err(Error::InvalidInput(string_from_chars(&m)));
                }
                custom_alphabet
            },
            None => used,
        };
        proof {
            lemma_thompson_reads(*ast, 0);
            assert forall|w: Seq<u8>| #[trigger] accepts_spec(&nfa, w) == in_language(*ast, w) by {
                lemma_accepts_walks(&nfa, w);
                assert(fragment_reads(f, 0, w) == in_language(*ast, w));
            }
        }
        Ok(nfa)
    }

    /// The epsilon-NFA of `regex` by the Thompson construction. Only ASCII patterns without
    /// backslashes are taken; `regex_syntax` parses them; literals, grouping, concatenation,
    /// `|`, `*` and `+` are built, anything else is refused.
    pub fn from_regex(regex: &str, alphabet: Option<HashSet<u8>>) -> (r: Result<EpsilonNfa>)
        ensures
            from_regex_outcome(regex@, match alphabet { Some(a) => Some(a@), None => None }, r),
            regex@.len() == 1 && plain_pattern_char(regex@[0]) && alphabet is None ==> (r matches Ok(e)
                && forall|w: Seq<u8>| #[trigger] accepts_spec(&e, w) <==> w == seq![regex@[0] as u8]),
    {
        let chars = chars_of(regex);
        let mut i: usize = 0;
        while i < chars.len()
            invariant
                chars@ == regex@,
                0 <= i <= chars@.len(),
                forall|j: int| 0 <= j < i ==> (#[trigger] chars@[j] as u32) < 128,
            decreases chars@.len() - i,
        {
            if chars[i] as u32 >= 128 {
                return Err(Error::UnsupportedFeature("only ASCII regex supported"));
            }
            i = i + 1;
        }
        let mut k: usize = 0;
        while k < chars.len()
            invariant
                chars@ == regex@,
                ascii_text(regex@),
                0 <= k <= chars@.len(),
                forall|j: int| 0 <= j < k ==> chars@[j] != '\\',
            decreases chars@.len() - k,
        {
            if chars[k] == '\\' {
                assert(regex@[k as int] == '\\');
                return Err(Error::UnsupportedFeature("backslash not supported"));
            }
            k = k + 1;
        }
        let no_alphabet = alphabet.is_none();
        match parse_pattern(regex) {
            Err(m) => Err(Error::Parse(m)),
            Ok(ast) => {
                let r = EpsilonNfa::from_ast(&ast, alphabet);
                proof {
                    if regex@.len() == 1 && plain_pattern_char(regex@[0]) && no_alphabet {
                        lemma_literal_builds(regex@[0], None, r);
                    }
                }
                r
            },
        }
    }
}

/// A character other than the documented refusals `" $ . ? [ ] \ ^ { }`, printable ASCII.
pub open spec fn documented_literal(c: char) -> bool {
    &&& ' ' <= c <= '~'
    &&& c != '"' && c != '$' && c != '.' && c != '?' && c != '['
    &&& c != ']' && c != '\\' && c != '^' && c != '{' && c != '}'
}

/// A character that a pattern of that one character reads as itself: a documented
/// literal that is not one of the operators `| + * ( )`.
pub open spec fn plain_pattern_char(c: char) -> bool {
    &&& documented_literal(c)
    &&& c != '|' && c != '+' && c != '*' && c != '(' && c != ')'
}

/// Every printable ASCII character but `" $ . ? [ ] \ ^ { }` is a literal the construction
/// takes: built from it (with no alphabet given, or one that holds its byte), the
/// epsilon-NFA accepts exactly the one-byte word of it.
pub proof fn lemma_literal_builds(c: char, alphabet: Option<Set<u8>>, r: Result<EpsilonNfa>)
    requires
        documented_literal(c),
        alphabet matches Some(a) ==> a.contains(c as u8),
        from_ast_outcome(RegexAst::Literal(c), alphabet, r),
    ensures
        r matches Ok(e) && forall|w: Seq<u8>| #[trigger] accepts_spec(&e, w) <==> w == seq![c as u8],
{
    let f = thompson(RegexAst::Literal(c), 0);
    let used = row_labels(f.rows);
    assert(f.rows.len() == 2);
    assert(f.rows[0] == seq![(Symbol::Byte(c as u8), 1usize)]);
    assert(f.rows[1] == Seq::<(Symbol, usize)>::empty());
    assert forall|b: u8| used.contains(b) implies b == c as u8 by {
        let (i, q) = choose|i: int, q: int| 0 <= i < f.rows.len() && 0 <= q < f.rows[i].len() && (#[trigger] f.rows[i][q]).0 == Symbol::Byte(b);
    }
    assert(used.contains(c as u8)) by {
        assert(f.rows[0][0].0 == Symbol::Byte(c as u8));
    }
    assert(dot_friendly(c as u8));
    assert(used.subset_of(set![c as u8]));
}

/// What building from the pattern `regex` gives: non-ASCII patterns and backslashes are
/// refused, a pattern `regex_syntax` does not parse is refused with its message, and a
/// parsed pattern gives what `from_ast_outcome` describes.
pub open spec fn from_regex_outcome(regex: Seq<char>, alphabet: Option<Set<u8>>, r: Result<EpsilonNfa>) -> bool {
    if !ascii_text(regex) {
        r matches Err(e) && reports(e, "only ASCII regex supported"@)
    } else if regex.contains('\\') {
        r matches Err(e) && reports(e, "backslash not supported"@)
    } else {
        match regex_syntax_parse(regex) {
            Err(m) => r matches Err(Error::Parse(x)) && x@ == m,
            Ok(ast) => from_ast_outcome(ast, alphabet, r),
        }
    }
}

/// Whether a pattern is refused does not depend on anything but the pattern and alphabet.
pub proof fn lemma_from_regex_outcome_unique(regex: Seq<char>, alphabet: Option<Set<u8>>, r1: Result<EpsilonNfa>, r2: Result<EpsilonNfa>)
    requires
        from_regex_outcome(regex, alphabet, r1),
        from_regex_outcome(regex, alphabet, r2),
    ensures
        r1 is Ok <==> r2 is Ok,
{
}

/// Every character of `s` is ASCII.
pub open spec fn ascii_text(s: Seq<char>) -> bool {
    forall|j: int| 0 <= j < s.len() ==> (#[trigger] s[j] as u32) < 128
}

} // verus!
