//! Patterns: their syntax tree, and the Thompson construction of an epsilon-NFA from it.
use vstd::prelude::*;
use std::collections::HashSet;
use crate::automaton::{State, transitions_of, targets_in_range};
use crate::epsilon_nfa::{EpsilonNfa, Symbol};
use crate::errors::{Error, Result};
use crate::sets::sorted_bytes;
use crate::text::{chars_of, push_str, string_from_chars};
use regex_syntax::ast::Ast as SyntaxAst;

verus! {

broadcast use vstd::std_specs::hash::group_hash_axioms;

/// Repetition operators of the pattern syntax.
#[derive(Debug, Clone, Copy, PartialEq, Eq, Structural)]
pub enum RepeatKind {
    /// `?`
    ZeroOrOne,
    /// `*`
    ZeroOrMore,
    /// `+`
    OneOrMore,
    /// `{m,n}` and its variants.
    Range,
}

/// Syntax tree of a pattern, one node for each node of `regex_syntax`'s tree.
#[derive(Debug)]
pub enum RegexAst {
    /// The empty pattern.
    Empty,
    /// A flag group such as `(?i)`.
    Flags,
    /// A single character.
    Literal(char),
    /// `.`
    Dot,
    /// An anchor such as `^` or `\b`.
    Assertion,
    /// A Unicode class such as `\pL`.
    ClassUnicode,
    /// A Perl class such as `\d`.
    ClassPerl,
    /// A bracketed class such as `[a-z]`.
    ClassBracketed,
    /// A repeated sub-pattern.
    Repetition(RepeatKind, Box<RegexAst>),
    /// A parenthesised sub-pattern.
    Group(Box<RegexAst>),
    /// Sub-patterns separated by `|`.
    Alternation(Vec<RegexAst>),
    /// Sub-patterns one after another.
    Concat(Vec<RegexAst>),
}

/// The outcome of `regex_syntax`'s AST parser on `pattern`: the tree, or the text of its error.
pub uninterp spec fn regex_syntax_parse(pattern: Seq<char>) -> core::result::Result<RegexAst, Seq<char>>;

/// `regex_syntax`'s syntax tree, carried without looking inside.
#[verifier::external_type_specification]
#[verifier::external_body]
pub struct ExSyntaxAst(regex_syntax::ast::Ast);

/// `regex_syntax`'s repetition operator, carried without looking inside.
#[verifier::external_type_specification]
#[verifier::external_body]
pub struct ExSyntaxRepetitionKind(regex_syntax::ast::RepetitionKind);

/// This library's name for each of `regex_syntax`'s repetition operators.
#[verifier::external_body]
fn repetition_kind_of(kind: &regex_syntax::ast::RepetitionKind) -> RepeatKind {
    match kind {
        regex_syntax::ast::RepetitionKind::ZeroOrOne => RepeatKind::ZeroOrOne,
        regex_syntax::ast::RepetitionKind::ZeroOrMore => RepeatKind::ZeroOrMore,
        regex_syntax::ast::RepetitionKind::OneOrMore => RepeatKind::OneOrMore,
        regex_syntax::ast::RepetitionKind::Range(_) => RepeatKind::Range,
    }
}

/// Carries `regex_syntax`'s tree over into this library's tree, node for node; spans,
/// flags, class contents and capture names are dropped.
#[verifier::external_body]
fn tree_of(ast: &SyntaxAst) -> RegexAst {
    match ast {
        SyntaxAst::Empty(_) => RegexAst::Empty,
        SyntaxAst::Flags(_) => RegexAst::Flags,
        SyntaxAst::Literal(l) => RegexAst::Literal(l.c),
        SyntaxAst::Dot(_) => RegexAst::Dot,
        SyntaxAst::Assertion(_) => RegexAst::Assertion,
        SyntaxAst::ClassUnicode(_) => RegexAst::ClassUnicode,
        SyntaxAst::ClassPerl(_) => RegexAst::ClassPerl,
        SyntaxAst::ClassBracketed(_) => RegexAst::ClassBracketed,
        SyntaxAst::Repetition(r) => RegexAst::Repetition(repetition_kind_of(&r.op.kind), tree_of(&r.ast).into()),
        SyntaxAst::Group(g) => RegexAst::Group(tree_of(&g.ast).into()),
        SyntaxAst::Alternation(a) => RegexAst::Alternation(trees_of(&a.asts)),
        SyntaxAst::Concat(c) => RegexAst::Concat(trees_of(&c.asts)),
    }
}

/// Carries a list of `regex_syntax`'s trees over, in order.
#[verifier::external_body]
fn trees_of(asts: &Vec<SyntaxAst>) -> Vec<RegexAst> {
    asts.iter().map(tree_of).collect()
}

/// A character that `regex_syntax`'s parser treats specially where a pattern starts.
pub open spec fn pattern_operator(c: char) -> bool {
    c == '(' || c == ')' || c == '|' || c == '[' || c == '?' || c == '*' || c == '+' || c == '{'
        || c == '\\' || c == '.' || c == '^' || c == '$'
}

/// The parser's outcome for a pattern that is the literal `c`.
pub open spec fn literal_parse(c: char) -> core::result::Result<RegexAst, String> {
    Ok(RegexAst::Literal(c))
}

/// Parses `pattern` with `regex_syntax::ast::parse::Parser::new().parse`. The tree it
/// returns is carried over node for node (`tree_of`); an error is returned as its `Display`
/// text. Either way the outcome depends on the pattern alone, and `regex_syntax_parse`
/// names it. As the parser's source shows, a pattern of one character that is not a
/// `pattern_operator` is the literal of that character (the default parser does not skip
/// whitespace).
#[verifier::external_body]
pub(crate) fn parse_pattern(pattern: &str) -> (r: core::result::Result<RegexAst, String>)
    ensures
        match r {
            Ok(ast) => regex_syntax_parse(pattern@) == Ok::<RegexAst, Seq<char>>(ast),
            Err(m) => regex_syntax_parse(pattern@) == Err::<RegexAst, Seq<char>>(m@),
        },
        pattern@.len() != 1 || pattern_operator(pattern@[0]) || r == literal_parse(pattern@[0]),
{
    match regex_syntax::ast::parse::Parser::new().parse(pattern) {
        Ok(ast) => Ok(tree_of(&ast)),
        Err(e) => Err(e.to_string()),
    }
}

/// Rows of transitions for the states `base, base + 1, ...` of a fragment, with its entry
/// and exit states.
pub struct Fragment {
    pub rows: Seq<Seq<(Symbol, usize)>>,
    pub start: usize,
    pub accept: usize,
}

/// `rows` with `edge` added at the end of row `i`.
pub open spec fn append_edge(rows: Seq<Seq<(Symbol, usize)>>, i: int, edge: (Symbol, usize)) -> Seq<Seq<(Symbol, usize)>> {
    rows.update(i, rows[i].push(edge))
}

/// The chain reading `bytes` one after another from state `base`: byte `k` leads from
/// state `base + 2k` to `base + 2k + 1`, and an epsilon edge joins each pair to the next.
pub open spec fn literal_rows(bytes: Seq<u8>, base: nat) -> Seq<Seq<(Symbol, usize)>> {
    Seq::new(2 * bytes.len(), |j: int|
        if j % 2 == 0 {
            seq![(Symbol::Byte(bytes[j / 2]), (base + j + 1) as usize)]
        } else if j / 2 < bytes.len() - 1 {
            seq![(Symbol::Epsilon, (base + j + 1) as usize)]
        } else {
            Seq::<(Symbol, usize)>::empty()
        })
}

/// Number of states of the fragment built for `ast`.
pub open spec fn ast_size(ast: RegexAst) -> nat
    decreases ast, 0nat,
{
    match ast {
        RegexAst::Empty => 2,
        RegexAst::Literal(_) => 2,
        RegexAst::Group(a) => ast_size(*a),
        RegexAst::Repetition(_, a) => ast_size(*a) + 2,
        RegexAst::Alternation(v) => alternation_size(v@, v@.len()),
        RegexAst::Concat(v) => concat_size(v@, v@.len()),
        _ => 0,
    }
}

/// Number of states of the alternation of the first `k` sub-patterns.
pub open spec fn alternation_size(v: Seq<RegexAst>, k: nat) -> nat
    decreases v, k,
{
    if k == 0 || k > v.len() {
        0
    } else if k == 1 {
        ast_size(v[0])
    } else {
        alternation_size(v, (k - 1) as nat) + ast_size(v[k - 1]) + 2
    }
}

/// Number of states of the concatenation of the first `k` sub-patterns.
pub open spec fn concat_size(v: Seq<RegexAst>, k: nat) -> nat
    decreases v, k,
{
    if k == 0 || k > v.len() {
        0
    } else {
        concat_size(v, (k - 1) as nat) + ast_size(v[k - 1])
    }
}

/// The first construct, in the order the construction visits the tree, that it refuses,
/// described in words.
pub open spec fn build_error(ast: RegexAst) -> Option<Seq<char>>
    decreases ast, 0nat,
{
    match ast {
        RegexAst::Empty => None,
        RegexAst::Literal(c) => if (c as u32) > 255 { Some("non ASCII literal"@) } else { None },
        RegexAst::Group(a) => build_error(*a),
        RegexAst::Repetition(kind, a) => if kind == RepeatKind::ZeroOrMore || kind == RepeatKind::OneOrMore {
            build_error(*a)
        } else {
            Some("only * and + supported"@)
        },
        RegexAst::Alternation(v) => list_error(v@, v@.len()),
        RegexAst::Concat(v) => list_error(v@, v@.len()),
        _ => Some("unsupported AST node"@),
    }
}

/// The first refused construct among the first `k` sub-patterns; an empty list is refused.
pub open spec fn list_error(v: Seq<RegexAst>, k: nat) -> Option<Seq<char>>
    decreases v, k,
{
    if k > v.len() {
        None
    } else if k == 0 {
        if v.len() == 0 { Some("empty alternation or concatenation"@) } else { None }
    } else {
        match list_error(v, (k - 1) as nat) {
            Some(m) => Some(m),
            None => build_error(v[k - 1]),
        }
    }
}

/// The fragment the construction builds for `ast` from state `base` on.
pub open spec fn thompson(ast: RegexAst, base: nat) -> Fragment
    decreases ast, 0nat,
{
    match ast {
        RegexAst::Empty => Fragment {
            rows: seq![seq![(Symbol::Epsilon, (base + 1) as usize)], Seq::empty()],
            start: base as usize,
            accept: (base + 1) as usize,
        },
        RegexAst::Literal(c) => Fragment {
            rows: literal_rows(seq![c as u8], base),
            start: base as usize,
            accept: (base + 1) as usize,
        },
        RegexAst::Group(a) => thompson(*a, base),
        RegexAst::Repetition(kind, a) => {
            let sub = thompson(*a, base);
            let n = base + sub.rows.len();
            let back = seq![(Symbol::Epsilon, sub.start), (Symbol::Epsilon, (n + 1) as usize)];
            let entry = if kind == RepeatKind::ZeroOrMore {
                seq![(Symbol::Epsilon, sub.start), (Symbol::Epsilon, (n + 1) as usize)]
            } else {
                seq![(Symbol::Epsilon, sub.start)]
            };
            Fragment {
                rows: sub.rows.update(sub.accept - base, sub.rows[sub.accept - base] + back) + seq![entry, Seq::empty()],
                start: n as usize,
                accept: (n + 1) as usize,
            }
        },
        RegexAst::Alternation(v) => alternation_fragment(v@, v@.len(), base),
        RegexAst::Concat(v) => concat_fragment(v@, v@.len(), base),
        _ => Fragment { rows: Seq::empty(), start: 0, accept: 0 },
    }
}

/// The fragment for the alternation of the first `k` sub-patterns, grouped from the left.
pub open spec fn alternation_fragment(v: Seq<RegexAst>, k: nat, base: nat) -> Fragment
    decreases v, k,
{
    if k == 0 || k > v.len() {
        Fragment { rows: Seq::empty(), start: 0, accept: 0 }
    } else if k == 1 {
        thompson(v[0], base)
    } else {
        let left = alternation_fragment(v, (k - 1) as nat, base);
        let b2 = base + left.rows.len();
        let right = thompson(v[k - 1], b2);
        let n = b2 + right.rows.len();
        Fragment {
            rows: append_edge(left.rows, left.accept - base, (Symbol::Epsilon, (n + 1) as usize))
                + append_edge(right.rows, right.accept - b2, (Symbol::Epsilon, (n + 1) as usize))
                + seq![seq![(Symbol::Epsilon, left.start), (Symbol::Epsilon, right.start)], Seq::empty()],
            start: n as usize,
            accept: (n + 1) as usize,
        }
    }
}

/// The fragment for the concatenation of the first `k` sub-patterns.
pub open spec fn concat_fragment(v: Seq<RegexAst>, k: nat, base: nat) -> Fragment
    decreases v, k,
{
    if k == 0 || k > v.len() {
        Fragment { rows: Seq::empty(), start: 0, accept: 0 }
    } else if k == 1 {
        thompson(v[0], base)
    } else {
        let left = concat_fragment(v, (k - 1) as nat, base);
        let b2 = base + left.rows.len();
        let right = thompson(v[k - 1], b2);
        Fragment {
            rows: append_edge(left.rows, left.accept - base, (Symbol::Epsilon, right.start)) + right.rows,
            start: left.start,
            accept: right.accept,
        }
    }
}

/// Every transition of `rows` leads to a state in `lo..hi`.
pub open spec fn targets_between(rows: Seq<Seq<(Symbol, usize)>>, lo: nat, hi: nat) -> bool {
    forall|i: int, q: int| 0 <= i < rows.len() && 0 <= q < rows[i].len() ==> lo <= (#[trigger] rows[i][q]).1 < hi
}

/// `f` has `size` states from `base` on, distinct entry and exit among them, no move out of
/// its exit, and no move out of its states.
pub open spec fn fragment_shape(f: Fragment, base: nat, size: nat) -> bool {
    &&& f.rows.len() == size
    &&& size >= 2
    &&& base <= f.start < base + size
    &&& base <= f.accept < base + size
    &&& f.start != f.accept
    &&& f.rows[f.accept - base].len() == 0
    &&& targets_between(f.rows, base, base + size)
}

/// Once a prefix of the sub-patterns holds a refused construct, every longer prefix reports it;
/// while a prefix holds none, neither do its own prefixes.
pub proof fn lemma_list_error_prefix(v: Seq<RegexAst>, k: nat, k2: nat)
    requires
        k <= k2 <= v.len(),
    ensures
        list_error(v, k) is Some ==> list_error(v, k2) == list_error(v, k),
        list_error(v, k2) is None ==> list_error(v, k) is None,
    decreases k2 - k,
{
    if k < k2 {
        lemma_list_error_prefix(v, k, (k2 - 1) as nat);
    }
}

/// Sizes of prefixes of an alternation grow with the prefix.
pub proof fn lemma_alternation_size_grows(v: Seq<RegexAst>, k: nat, k2: nat)
    requires
        1 <= k <= k2 <= v.len(),
    ensures
        alternation_size(v, k) <= alternation_size(v, k2),
    decreases k2 - k,
{
    if k < k2 {
        lemma_alternation_size_grows(v, k, (k2 - 1) as nat);
    }
}

/// Sizes of prefixes of a concatenation grow with the prefix.
pub proof fn lemma_concat_size_grows(v: Seq<RegexAst>, k: nat, k2: nat)
    requires
        k <= k2 <= v.len(),
    ensures
        concat_size(v, k) <= concat_size(v, k2),
    decreases k2 - k,
{
    if k < k2 {
        lemma_concat_size_grows(v, k, (k2 - 1) as nat);
    }
}

/// `edge` added to a row of the middle part of a concatenation of row lists.
pub proof fn lemma_append_edge_middle(p: Seq<Seq<(Symbol, usize)>>, m: Seq<Seq<(Symbol, usize)>>, s: Seq<Seq<(Symbol, usize)>>, i: int, edge: (Symbol, usize))
    requires
        0 <= i < m.len(),
    ensures
        append_edge(p + m + s, p.len() + i, edge) == p + append_edge(m, i, edge) + s,
{
    assert(append_edge(p + m + s, p.len() + i, edge) =~= p + append_edge(m, i, edge) + s);
}

/// The fragment built for a pattern the construction accepts has the shape of a fragment.
pub proof fn lemma_thompson_shape(ast: RegexAst, base: nat)
    requires
        build_error(ast) is None,
        base + ast_size(ast) <= usize::MAX + 1,
    ensures
        fragment_shape(thompson(ast, base), base, ast_size(ast)),
    decreases ast, 0nat,
{
    match ast {
        RegexAst::Empty => {
            let f = thompson(ast, base);
            assert(targets_between(f.rows, base, base + 2));
        },
        RegexAst::Literal(c) => {
            let f = thompson(ast, base);
            assert(f.rows[0] == seq![(Symbol::Byte(c as u8), (base + 1) as usize)]);
            assert(f.rows[1].len() == 0);
            assert(targets_between(f.rows, base, base + 2));
        },
        RegexAst::Group(a) => {
            lemma_thompson_shape(*a, base);
        },
        RegexAst::Repetition(kind, a) => {
            lemma_thompson_shape(*a, base);
            let sub = thompson(*a, base);
            let n = base + sub.rows.len();
            let f = thompson(ast, base);
            let sz = ast_size(ast);
            assert(f.rows.len() == sz);
            assert forall|i: int, q: int| 0 <= i < f.rows.len() && 0 <= q < f.rows[i].len() implies base <= (#[trigger] f.rows[i][q]).1 < base + sz by {
                if i < sub.rows.len() && i != sub.accept - base {
                    assert(f.rows[i] == sub.rows[i]);
                    assert(sub.rows[i][q] == f.rows[i][q]);
                }
            }
        },
        RegexAst::Alternation(v) => {
            lemma_alternation_shape(v@, v@.len(), base);
        },
        RegexAst::Concat(v) => {
            lemma_concat_shape(v@, v@.len(), base);
        },
        _ => {},
    }
}

/// The fragment of an accepted alternation has the shape of a fragment.
pub proof fn lemma_alternation_shape(v: Seq<RegexAst>, k: nat, base: nat)
    requires
        1 <= k <= v.len(),
        list_error(v, k) is None,
        base + alternation_size(v, k) <= usize::MAX + 1,
    ensures
        fragment_shape(alternation_fragment(v, k, base), base, alternation_size(v, k)),
    decreases v, k,
{
    if k == 1 {
        lemma_thompson_shape(v[0], base);
    } else {
        lemma_list_error_prefix(v, (k - 1) as nat, k);
        lemma_alternation_shape(v, (k - 1) as nat, base);
        let left = alternation_fragment(v, (k - 1) as nat, base);
        let b2 = base + left.rows.len();
        lemma_thompson_shape(v[k - 1], b2);
        let right = thompson(v[k - 1], b2);
        let n = b2 + right.rows.len();
        let e = (Symbol::Epsilon, (n + 1) as usize);
        let lr = append_edge(left.rows, left.accept - base, e);
        let rr = append_edge(right.rows, right.accept - b2, e);
        let f = alternation_fragment(v, k, base);
        let sz = alternation_size(v, k);
        assert(f.rows == lr + rr + seq![seq![(Symbol::Epsilon, left.start), (Symbol::Epsilon, right.start)], Seq::empty()]);
        assert forall|i: int, q: int| 0 <= i < f.rows.len() && 0 <= q < f.rows[i].len() implies base <= (#[trigger] f.rows[i][q]).1 < base + sz by {
            if i < lr.len() {
                assert(f.rows[i] == lr[i]);
                if i != left.accept - base {
                    assert(lr[i] == left.rows[i]);
                    assert(left.rows[i][q] == f.rows[i][q]);
                }
            } else if i < lr.len() + rr.len() {
                let j = i - lr.len();
                assert(f.rows[i] == rr[j]);
                if j != right.accept - b2 {
                    assert(rr[j] == right.rows[j]);
                    assert(right.rows[j][q] == f.rows[i][q]);
                }
            }
        }
    }
}

/// The fragment of an accepted concatenation has the shape of a fragment.
pub proof fn lemma_concat_shape(v: Seq<RegexAst>, k: nat, base: nat)
    requires
        1 <= k <= v.len(),
        list_error(v, k) is None,
        base + concat_size(v, k) <= usize::MAX + 1,
    ensures
        fragment_shape(concat_fragment(v, k, base), base, concat_size(v, k)),
    decreases v, k,
{
    if k == 1 {
        lemma_thompson_shape(v[0], base);
        assert(concat_size(v, 0) == 0);
    } else {
        lemma_list_error_prefix(v, (k - 1) as nat, k);
        lemma_concat_shape(v, (k - 1) as nat, base);
        let left = concat_fragment(v, (k - 1) as nat, base);
        let b2 = base + left.rows.len();
        lemma_thompson_shape(v[k - 1], b2);
        let right = thompson(v[k - 1], b2);
        let lr = append_edge(left.rows, left.accept - base, (Symbol::Epsilon, right.start));
        let f = concat_fragment(v, k, base);
        let sz = concat_size(v, k);
        assert(f.rows == lr + right.rows);
        assert(f.rows[f.accept - base] == right.rows[right.accept - b2]);
        assert forall|i: int, q: int| 0 <= i < f.rows.len() && 0 <= q < f.rows[i].len() implies base <= (#[trigger] f.rows[i][q]).1 < base + sz by {
            if i < lr.len() {
                assert(f.rows[i] == lr[i]);
                if i != left.accept - base {
                    assert(lr[i] == left.rows[i]);
                    assert(left.rows[i][q] == f.rows[i][q]);
                }
            } else {
                let j = i - lr.len();
                assert(f.rows[i] == right.rows[j]);
                assert(right.rows[j][q] == f.rows[i][q]);
            }
        }
    }
}

/// No transition of `f` enters its entry, and no state of `f` has more than two transitions.
pub open spec fn entry_free_and_narrow(f: Fragment) -> bool {
    &&& forall|i: int, q: int| 0 <= i < f.rows.len() && 0 <= q < f.rows[i].len() ==> (#[trigger] f.rows[i][q]).1 != f.start
    &&& forall|i: int| 0 <= i < f.rows.len() ==> #[trigger] f.rows[i].len() <= 2
}

/// The fragment built for a pattern the construction accepts has no transition into its
/// entry, and at most two transitions out of any state.
pub proof fn lemma_thompson_narrow(ast: RegexAst, base: nat)
    requires
        build_error(ast) is None,
        base + ast_size(ast) <= usize::MAX + 1,
    ensures
        entry_free_and_narrow(thompson(ast, base)),
    decreases ast, 0nat,
{
    lemma_thompson_shape(ast, base);
    match ast {
        RegexAst::Empty => {
            let f = thompson(ast, base);
            assert(f.rows[0] == seq![(Symbol::Epsilon, (base + 1) as usize)]);
        },
        RegexAst::Literal(c) => {
            let f = thompson(ast, base);
            assert(f.rows[0] == seq![(Symbol::Byte(c as u8), (base + 1) as usize)]);
            assert(f.rows[1].len() == 0);
        },
        RegexAst::Group(a) => {
            lemma_thompson_narrow(*a, base);
        },
        RegexAst::Repetition(kind, a) => {
            lemma_thompson_shape(*a, base);
            lemma_thompson_narrow(*a, base);
            let sub = thompson(*a, base);
            let n = base + sub.rows.len();
            let f = thompson(ast, base);
            assert forall|i: int, q: int| 0 <= i < f.rows.len() && 0 <= q < f.rows[i].len() implies (#[trigger] f.rows[i][q]).1 != f.start by {
                if i < sub.rows.len() && i != sub.accept - base {
                    assert(f.rows[i] == sub.rows[i]);
                    assert(sub.rows[i][q] == f.rows[i][q]);
                }
            }
            assert forall|i: int| 0 <= i < f.rows.len() implies #[trigger] f.rows[i].len() <= 2 by {
                if i < sub.rows.len() && i != sub.accept - base {
                    assert(f.rows[i] == sub.rows[i]);
                }
            }
        },
        RegexAst::Alternation(v) => {
            lemma_alternation_narrow(v@, v@.len(), base);
        },
        RegexAst::Concat(v) => {
            lemma_concat_narrow(v@, v@.len(), base);
        },
        _ => {},
    }
}

/// The fragment of an accepted alternation has no transition into its entry, and at most
/// two transitions out of any state.
pub proof fn lemma_alternation_narrow(v: Seq<RegexAst>, k: nat, base: nat)
    requires
        1 <= k <= v.len(),
        list_error(v, k) is None,
        base + alternation_size(v, k) <= usize::MAX + 1,
    ensures
        entry_free_and_narrow(alternation_fragment(v, k, base)),
    decreases v, k,
{
    if k == 1 {
        lemma_thompson_narrow(v[0], base);
    } else {
        lemma_list_error_prefix(v, (k - 1) as nat, k);
        lemma_alternation_shape(v, (k - 1) as nat, base);
        lemma_alternation_narrow(v, (k - 1) as nat, base);
        let left = alternation_fragment(v, (k - 1) as nat, base);
        let b2 = base + left.rows.len();
        lemma_thompson_shape(v[k - 1], b2);
        lemma_thompson_narrow(v[k - 1], b2);
        let right = thompson(v[k - 1], b2);
        let n = b2 + right.rows.len();
        let e = (Symbol::Epsilon, (n + 1) as usize);
        let lr = append_edge(left.rows, left.accept - base, e);
        let rr = append_edge(right.rows, right.accept - b2, e);
        let f = alternation_fragment(v, k, base);
        assert(f.rows == lr + rr + seq![seq![(Symbol::Epsilon, left.start), (Symbol::Epsilon, right.start)], Seq::empty()]);
        assert forall|i: int, q: int| 0 <= i < f.rows.len() && 0 <= q < f.rows[i].len() implies (#[trigger] f.rows[i][q]).1 != f.start by {
            if i < lr.len() {
                assert(f.rows[i] == lr[i]);
                if i != left.accept - base {
                    assert(lr[i] == left.rows[i]);
                    assert(left.rows[i][q] == f.rows[i][q]);
                }
            } else if i < lr.len() + rr.len() {
                let j = i - lr.len();
                assert(f.rows[i] == rr[j]);
                if j != right.accept - b2 {
                    assert(rr[j] == right.rows[j]);
                    assert(right.rows[j][q] == f.rows[i][q]);
                }
            }
        }
        assert forall|i: int| 0 <= i < f.rows.len() implies #[trigger] f.rows[i].len() <= 2 by {
            if i < lr.len() {
                assert(f.rows[i] == lr[i]);
                if i != left.accept - base {
                    assert(lr[i] == left.rows[i]);
                }
            } else if i < lr.len() + rr.len() {
                let j = i - lr.len();
                assert(f.rows[i] == rr[j]);
                if j != right.accept - b2 {
                    assert(rr[j] == right.rows[j]);
                }
            }
        }
    }
}

/// The fragment of an accepted concatenation has no transition into its entry, and at most
/// two transitions out of any state.
pub proof fn lemma_concat_narrow(v: Seq<RegexAst>, k: nat, base: nat)
    requires
        1 <= k <= v.len(),
        list_error(v, k) is None,
        base + concat_size(v, k) <= usize::MAX + 1,
    ensures
        entry_free_and_narrow(concat_fragment(v, k, base)),
    decreases v, k,
{
    if k == 1 {
        lemma_thompson_narrow(v[0], base);
        assert(concat_size(v, 0) == 0);
    } else {
        lemma_list_error_prefix(v, (k - 1) as nat, k);
        lemma_concat_shape(v, (k - 1) as nat, base);
        lemma_concat_narrow(v, (k - 1) as nat, base);
        let left = concat_fragment(v, (k - 1) as nat, base);
        let b2 = base + left.rows.len();
        lemma_thompson_shape(v[k - 1], b2);
        lemma_thompson_narrow(v[k - 1], b2);
        let right = thompson(v[k - 1], b2);
        let lr = append_edge(left.rows, left.accept - base, (Symbol::Epsilon, right.start));
        let f = concat_fragment(v, k, base);
        assert(f.rows == lr + right.rows);
        assert forall|i: int, q: int| 0 <= i < f.rows.len() && 0 <= q < f.rows[i].len() implies (#[trigger] f.rows[i][q]).1 != f.start by {
            if i < lr.len() {
                assert(f.rows[i] == lr[i]);
                if i != left.accept - base {
                    assert(lr[i] == left.rows[i]);
                    assert(left.rows[i][q] == f.rows[i][q]);
                }
            } else {
                let j = i - lr.len();
                assert(f.rows[i] == right.rows[j]);
                assert(right.rows[j][q] == f.rows[i][q]);
            }
        }
        assert forall|i: int| 0 <= i < f.rows.len() implies #[trigger] f.rows[i].len() <= 2 by {
            if i < lr.len() {
                assert(f.rows[i] == lr[i]);
                if i != left.accept - base {
                    assert(lr[i] == left.rows[i]);
                }
            } else {
                assert(f.rows[i] == right.rows[i - lr.len()]);
            }
        }
    }
}

} // verus!
