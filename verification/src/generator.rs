//! Random exercise patterns over the letters `a`, `b`, `c`: letters, concatenation, `|`,
//! parentheses and `*`, nested to a given depth.
use vstd::prelude::*;
use rand::Rng;
use rand::rngs::StdRng;
use crate::text::string_from_chars;

verus! {

/// `rand`'s standard generator, carried without looking inside.
#[verifier::external_type_specification]
#[verifier::external_body]
pub struct ExStdRng(StdRng);

/// `Rng::random_range` of `rand` on `0..n`: a number below `n`. `rand` panics on an empty
/// range, which `n > 0` rules out; which number comes is left to chance.
#[verifier::external_body]
fn draw_below(rng: &mut StdRng, n: usize) -> (r: usize)
    requires
        n > 0,
    ensures
        r < n,
{
    rng.random_range(0..n)
}

/// How a generated pattern is put together.
pub enum PatternShape {
    /// A single letter.
    Letter(char),
    /// One pattern after another.
    Concat(Box<PatternShape>, Box<PatternShape>),
    /// Two patterns separated by `|`.
    Alternation(Box<PatternShape>, Box<PatternShape>),
    /// A pattern in parentheses followed by `*`.
    Starred(Box<PatternShape>),
    /// A pattern in parentheses.
    Grouped(Box<PatternShape>),
}

/// The text of a pattern of shape `t`.
pub open spec fn shape_text(t: PatternShape) -> Seq<char>
    decreases t,
{
    match t {
        PatternShape::Letter(c) => seq![c],
        PatternShape::Concat(a, b) => shape_text(*a) + shape_text(*b),
        PatternShape::Alternation(a, b) => shape_text(*a) + seq!['|'] + shape_text(*b),
        PatternShape::Starred(a) => seq!['('] + shape_text(*a) + seq![')', '*'],
        PatternShape::Grouped(a) => seq!['('] + shape_text(*a) + seq![')'],
    }
}

/// The shape uses the letters `a`, `b`, `c` only, and nests no deeper than `depth`.
pub open spec fn shape_fits(t: PatternShape, depth: nat) -> bool
    decreases t,
{
    match t {
        PatternShape::Letter(c) => c == 'a' || c == 'b' || c == 'c',
        PatternShape::Concat(a, b) => depth > 0 && shape_fits(*a, (depth - 1) as nat) && shape_fits(*b, (depth - 1) as nat),
        PatternShape::Alternation(a, b) => depth > 0 && shape_fits(*a, (depth - 1) as nat) && shape_fits(*b, (depth - 1) as nat),
        PatternShape::Starred(a) => depth > 0 && shape_fits(*a, (depth - 1) as nat),
        PatternShape::Grouped(a) => depth > 0 && shape_fits(*a, (depth - 1) as nat),
    }
}

/// `s` is a pattern the generator can give at depth `depth`: a letter; or, at a positive
/// depth, two patterns of the depth below one after the other or separated by `|`, or one
/// of them in parentheses, followed by `*` or not.
pub open spec fn generated_pattern(s: Seq<char>, depth: nat) -> bool {
    exists|t: PatternShape| shape_fits(t, depth) && #[trigger] shape_text(t) == s
}

/// The bound of a draw that picks a construct: one of five, each with the same chance.
pub const CONSTRUCT_DRAW: usize = 5;

/// The bound of a draw that picks a letter: one of three, each with the same chance.
pub const LETTER_DRAW: usize = 3;

/// The letter a draw picks.
pub open spec fn drawn_letter(d: usize) -> char {
    if d % 3 == 0 { 'a' } else if d % 3 == 1 { 'b' } else { 'c' }
}

/// The pattern of depth `depth` that the draws `draws` pick, read from the first draw on, and
/// how many draws it takes; none where the draws run out. At depth zero a draw picks a
/// letter. Above it a draw picks, by its remainder by five: a letter (picked by the next
/// draw), two patterns of the depth below one after the other, the two separated by `|`, one
/// in parentheses followed by `*`, or one in parentheses. The first of two patterns takes
/// the draws that come first.
pub open spec fn drawn_pattern(draws: Seq<usize>, depth: nat) -> Option<(Seq<char>, nat)>
    decreases depth,
{
    if draws.len() == 0 {
        None
    } else if depth == 0 {
        Some((seq![drawn_letter(draws[0])], 1))
    } else {
        let c = draws[0] % 5;
        let rest = draws.drop_first();
        if c == 0 {
            if rest.len() == 0 { None } else { Some((seq![drawn_letter(rest[0])], 2)) }
        } else if c == 1 || c == 2 {
            match drawn_pattern(rest, (depth - 1) as nat) {
                None => None,
                Some((x, k)) => match drawn_pattern(rest.skip(k as int), (depth - 1) as nat) {
                    None => None,
                    Some((y, m)) => Some((if c == 1 { x + y } else { x + seq!['|'] + y }, 1 + k + m)),
                },
            }
        } else {
            match drawn_pattern(rest, (depth - 1) as nat) {
                None => None,
                Some((x, k)) => Some((if c == 3 { seq!['('] + x + seq![')', '*'] } else { seq!['('] + x + seq![')'] }, 1 + k)),
            }
        }
    }
}

/// The most draws a pattern of depth `depth` can take.
pub open spec fn max_draws(depth: nat) -> nat
    decreases depth,
{
    if depth == 0 { 1 } else { 1 + 2 * max_draws((depth - 1) as nat) }
}

/// A drawn pattern takes at least one draw and no more than there are, nor more than
/// `max_draws`; with at least `max_draws` draws there is always one; and it has the
/// generator's shapes.
pub proof fn lemma_drawn_pattern(draws: Seq<usize>, depth: nat)
    ensures
        drawn_pattern(draws, depth) matches Some((x, k)) ==> 1 <= k <= draws.len() && k <= max_draws(depth)
            && generated_pattern(x, depth),
        draws.len() >= max_draws(depth) ==> drawn_pattern(draws, depth) is Some,
    decreases depth,
{
    if draws.len() > 0 && depth > 0 {
        let d1 = (depth - 1) as nat;
        let c = draws[0] % 5;
        let rest = draws.drop_first();
        lemma_drawn_pattern(rest, d1);
        if c == 0 {
            if rest.len() > 0 {
                let t = PatternShape::Letter(drawn_letter(rest[0]));
                assert(shape_fits(t, depth) && shape_text(t) == seq![drawn_letter(rest[0])]);
            }
        } else if let Some((x, k)) = drawn_pattern(rest, d1) {
            let tx = choose|t: PatternShape| shape_fits(t, d1) && #[trigger] shape_text(t) == x;
            if c == 1 || c == 2 {
                lemma_drawn_pattern(rest.skip(k as int), d1);
                if let Some((y, m)) = drawn_pattern(rest.skip(k as int), d1) {
                    let ty = choose|t: PatternShape| shape_fits(t, d1) && #[trigger] shape_text(t) == y;
                    let t = if c == 1 {
                        PatternShape::Concat(Box::new(tx), Box::new(ty))
                    } else {
                        PatternShape::Alternation(Box::new(tx), Box::new(ty))
                    };
                    assert(shape_fits(t, depth));
                    assert(shape_text(t) == drawn_pattern(draws, depth)->Some_0.0);
                }
            } else {
                let t = if c == 3 { PatternShape::Starred(Box::new(tx)) } else { PatternShape::Grouped(Box::new(tx)) };
                assert(shape_fits(t, depth));
                assert(shape_text(t) == drawn_pattern(draws, depth)->Some_0.0);
            }
        }
    } else if draws.len() > 0 {
        let t = PatternShape::Letter(drawn_letter(draws[0]));
        assert(shape_fits(t, depth) && shape_text(t) == seq![drawn_letter(draws[0])]);
    }
}

/// The letter the draw `d` picks.
fn letter_of_draw(d: usize) -> (c: char)
    ensures
        c == drawn_letter(d),
{
    if d % 3 == 0 { 'a' } else if d % 3 == 1 { 'b' } else { 'c' }
}

/// Appends the pattern of depth `depth` that the draws from position `pos` on pick, and
/// gives the position after the draws it took; none where the draws run out.
fn push_drawn_pattern(draws: &Vec<usize>, pos: usize, depth: usize, out: &mut Vec<char>) -> (r: Option<usize>)
    requires
        pos <= draws@.len(),
    ensures
        match drawn_pattern(draws@.skip(pos as int), depth as nat) {
            None => r is None,
            Some((x, k)) => r matches Some(q) && q == pos + k && final(out)@ == old(out)@ + x,
        },
    decreases depth,
{
    let ghost ds = draws@.skip(pos as int);
    proof {
        lemma_drawn_pattern(ds, depth as nat);
    }
    if pos == draws.len() {
        return None;
    }
    let first = draws[pos];
    assert(ds[0] == first);
    if depth == 0 {
        out.push(letter_of_draw(first));
        return Some(pos + 1);
    }
    let c = first % 5;
    assert(ds.drop_first() =~= draws@.skip(pos + 1));
    let ghost start = out@;
    if c == 0 {
        if pos + 1 == draws.len() {
            return None;
        }
        out.push(letter_of_draw(draws[pos + 1]));
        return Some(pos + 2);
    } else if c == 1 || c == 2 {
        let mid = match push_drawn_pattern(draws, pos + 1, depth - 1, out) {
            None => return None,
            Some(q) => q,
        };
        let ghost after_x = out@;
        proof {
            let k = drawn_pattern(draws@.skip(pos + 1), (depth - 1) as nat)->Some_0.1;
            lemma_drawn_pattern(draws@.skip(pos + 1), (depth - 1) as nat);
            assert(draws@.skip(pos + 1).skip(k as int) =~= draws@.skip(mid as int));
        }
        if c == 2 {
            out.push('|');
        }
        let ghost before_y = out@;
        let end = match push_drawn_pattern(draws, mid, depth - 1, out) {
            None => return None,
            Some(q) => q,
        };
        proof {
            let x = drawn_pattern(draws@.skip(pos + 1), (depth - 1) as nat)->Some_0.0;
            let y = drawn_pattern(draws@.skip(mid as int), (depth - 1) as nat)->Some_0.0;
            if c == 1 {
                assert(out@ =~= start + (x + y));
            } else {
                assert(out@ =~= start + (x + seq!['|'] + y));
            }
        }
        Some(end)
    } else {
        out.push('(');
        let end = match push_drawn_pattern(draws, pos + 1, depth - 1, out) {
            None => return None,
            Some(q) => q,
        };
        out.push(')');
        if c == 3 {
            out.push('*');
        }
        proof {
            let x = drawn_pattern(draws@.skip(pos + 1), (depth - 1) as nat)->Some_0.0;
            if c == 3 {
                assert(out@ =~= start + (seq!['('] + x + seq![')', '*']));
            } else {
                assert(out@ =~= start + (seq!['('] + x + seq![')']));
            }
        }
        Some(end)
    }
}

/// The pattern of depth `depth` that `draws` pick, with the number of draws it takes; none
/// where the draws run out.
pub fn pattern_from_draws(draws: &Vec<usize>, depth: usize) -> (r: Option<(String, usize)>)
    ensures
        match drawn_pattern(draws@, depth as nat) {
            None => r is None,
            Some((x, k)) => r matches Some((s, n)) && s@ == x && n == k,
        },
{
    let mut out: Vec<char> = Vec::new();
    assert(draws@.skip(0) =~= draws@);
    match push_drawn_pattern(draws, 0, depth, &mut out) {
        None => None,
        Some(n) => {
            proof {
                let x = drawn_pattern(draws@, depth as nat)->Some_0.0;
                assert(Seq::<char>::empty() + x =~= x);
            }
            Some((string_from_chars(&out), n))
        },
    }
}

/// Draws that agree with `ds` on the draws its pattern takes pick the same pattern.
pub proof fn lemma_drawn_pattern_prefix(ds: Seq<usize>, ds2: Seq<usize>, depth: nat)
    requires
        drawn_pattern(ds, depth) matches Some((_, k)) && k <= ds2.len()
            && forall|i: int| 0 <= i < k ==> #[trigger] ds2[i] == ds[i],
    ensures
        drawn_pattern(ds2, depth) == drawn_pattern(ds, depth),
    decreases depth,
{
    let k = drawn_pattern(ds, depth)->Some_0.1;
    lemma_drawn_pattern(ds, depth);
    assert(ds2[0] == ds[0]);
    if depth > 0 {
        let d1 = (depth - 1) as nat;
        let c = ds[0] % 5;
        let rest = ds.drop_first();
        let rest2 = ds2.drop_first();
        if c == 0 {
            assert(ds2[1] == ds[1]);
        } else {
            let k1 = drawn_pattern(rest, d1)->Some_0.1;
            lemma_drawn_pattern(rest, d1);
            assert forall|i: int| 0 <= i < k1 implies #[trigger] rest2[i] == rest[i] by {
                assert(ds2[i + 1] == ds[i + 1]);
            }
            lemma_drawn_pattern_prefix(rest, rest2, d1);
            if c == 1 || c == 2 {
                let m = drawn_pattern(rest.skip(k1 as int), d1)->Some_0.1;
                lemma_drawn_pattern(rest.skip(k1 as int), d1);
                assert forall|i: int| 0 <= i < m implies #[trigger] rest2.skip(k1 as int)[i] == rest.skip(k1 as int)[i] by {
                    assert(ds2[1 + k1 + i] == ds[1 + k1 + i]);
                }
                lemma_drawn_pattern_prefix(rest.skip(k1 as int), rest2.skip(k1 as int), d1);
            }
        }
    }
}

/// Every draw in `ds` picks a construct or a letter: it is below five.
pub open spec fn draws_in_range(ds: Seq<usize>) -> bool {
    forall|i: int| 0 <= i < ds.len() ==> #[trigger] ds[i] < CONSTRUCT_DRAW
}

/// Appends a random pattern of depth `depth`, drawing with `rng` one number per decision as
/// it goes: at depth zero a letter (one of three); above it a construct (one of five), then
/// what the construct needs, the first of two patterns before the second. Gives the draws
/// made, which pick the appended text as `drawn_pattern` reads them.
fn push_random_pattern(rng: &mut StdRng, depth: usize, out: &mut Vec<char>) -> (ds: Ghost<Seq<usize>>)
    ensures
        draws_in_range(ds@),
        old(out)@.len() <= final(out)@.len(),
        final(out)@.take(old(out)@.len() as int) == old(out)@,
        drawn_pattern(ds@, depth as nat) == Some((final(out)@.skip(old(out)@.len() as int), ds@.len())),
    decreases depth,
{
    let ghost o0 = out@;
    if depth == 0 {
        let d = draw_below(rng, LETTER_DRAW);
        out.push(letter_of_draw(d));
        proof {
            assert(out@.take(o0.len() as int) =~= o0);
            assert(out@.skip(o0.len() as int) =~= seq![drawn_letter(d)]);
        }
        let ghost ds = seq![d];
        return Ghost(ds);
    }
    let c = draw_below(rng, CONSTRUCT_DRAW);
    if c == 0 {
        let d = draw_below(rng, LETTER_DRAW);
        out.push(letter_of_draw(d));
        let ghost ds = seq![c, d];
        proof {
            assert(ds.drop_first() =~= seq![d]);
            assert(out@.take(o0.len() as int) =~= o0);
            assert(out@.skip(o0.len() as int) =~= seq![drawn_letter(d)]);
        }
        Ghost(ds)
    } else if c == 1 || c == 2 {
        let s1 = push_random_pattern(rng, depth - 1, out);
        let ghost o1 = out@;
        if c == 2 {
            out.push('|');
        }
        let ghost o2 = out@;
        let s2 = push_random_pattern(rng, depth - 1, out);
        let ghost ds = seq![c] + s1@ + s2@;
        proof {
            lemma_pair_draws(c, s1@, s2@, (depth - 1) as nat);
            lemma_extends(o0, o1);
            lemma_extends(o2, out@);
            let x = o1.skip(o0.len() as int);
            let y = out@.skip(o2.len() as int);
            if c == 1 {
                assert(out@ =~= o0 + (x + y));
                lemma_extended(o0, x + y, out@);
            } else {
                assert(o2 == o1.push('|'));
                assert(out@ =~= o0 + (x + seq!['|'] + y));
                lemma_extended(o0, x + seq!['|'] + y, out@);
            }
        }
        Ghost(ds)
    } else {
        out.push('(');
        let ghost o1 = out@;
        let s1 = push_random_pattern(rng, depth - 1, out);
        let ghost o2 = out@;
        out.push(')');
        if c == 3 {
            out.push('*');
        }
        let ghost ds = seq![c] + s1@;
        proof {
            assert(ds.drop_first() =~= s1@);
            lemma_extends(o1, o2);
            let x = o2.skip(o1.len() as int);
            if c == 3 {
                assert(out@ =~= o0 + (seq!['('] + x + seq![')', '*']));
                lemma_extended(o0, seq!['('] + x + seq![')', '*'], out@);
            } else {
                assert(out@ =~= o0 + (seq!['('] + x + seq![')']));
                lemma_extended(o0, seq!['('] + x + seq![')'], out@);
            }
            assert forall|i: int| 0 <= i < ds.len() implies #[trigger] ds[i] < CONSTRUCT_DRAW by {
                if i > 0 {
                    assert(ds[i] == s1@[i - 1]);
                }
            }
        }
        Ghost(ds)
    }
}

/// A text that begins with `a` is `a` followed by the rest of it.
proof fn lemma_extends(a: Seq<char>, b: Seq<char>)
    requires
        a.len() <= b.len(),
        b.take(a.len() as int) == a,
    ensures
        b == a + b.skip(a.len() as int),
{
    assert forall|i: int| 0 <= i < a.len() implies b[i] == a[i] by {
        assert(b.take(a.len() as int)[i] == a[i]);
    }
    assert(b =~= a + b.skip(a.len() as int));
}

/// `a` followed by something begins with `a`, and what follows is the rest.
proof fn lemma_extended(a: Seq<char>, rest: Seq<char>, b: Seq<char>)
    requires
        b == a + rest,
    ensures
        a.len() <= b.len(),
        b.take(a.len() as int) == a,
        b.skip(a.len() as int) == rest,
{
    assert(b.take(a.len() as int) =~= a);
    assert(b.skip(a.len() as int) =~= rest);
}

/// A construct draw of one or two followed by the draws of two patterns picks the two
/// patterns, one after the other or separated by `|`, and takes all the draws.
proof fn lemma_pair_draws(c: usize, s1: Seq<usize>, s2: Seq<usize>, d1: nat)
    requires
        c == 1 || c == 2,
        draws_in_range(s1),
        draws_in_range(s2),
        drawn_pattern(s1, d1) matches Some((_, k)) && k == s1.len(),
        drawn_pattern(s2, d1) matches Some((_, m)) && m == s2.len(),
    ensures
        draws_in_range(seq![c] + s1 + s2),
        drawn_pattern(seq![c] + s1 + s2, d1 + 1) == Some((
            if c == 1 {
                drawn_pattern(s1, d1)->Some_0.0 + drawn_pattern(s2, d1)->Some_0.0
            } else {
                drawn_pattern(s1, d1)->Some_0.0 + seq!['|'] + drawn_pattern(s2, d1)->Some_0.0
            },
            1 + s1.len() + s2.len(),
        )),
{
    let ds = seq![c] + s1 + s2;
    let rest = s1 + s2;
    assert(ds.drop_first() =~= rest);
    assert forall|i: int| 0 <= i < s1.len() implies #[trigger] rest[i] == s1[i] by {}
    lemma_drawn_pattern_prefix(s1, rest, d1);
    assert(rest.skip(s1.len() as int) =~= s2);
    assert forall|i: int| 0 <= i < ds.len() implies #[trigger] ds[i] < CONSTRUCT_DRAW by {
        if i > 0 && i < 1 + s1.len() {
            assert(ds[i] == s1[i - 1]);
        } else if i >= 1 + s1.len() {
            assert(ds[i] == s2[i - 1 - s1.len()]);
        }
    }
}

/// A random pattern of depth `depth`, drawn with `rng` one decision at a time; the draws
/// made pick it as `drawn_pattern` (and so `pattern_from_draws`) reads them.
pub fn random_pattern(rng: &mut StdRng, depth: usize) -> (r: String)
    ensures
        generated_pattern(r@, depth as nat),
        exists|ds: Seq<usize>| #![trigger drawn_pattern(ds, depth as nat)]
            draws_in_range(ds) && drawn_pattern(ds, depth as nat) == Some((r@, ds.len())),
{
    let mut out: Vec<char> = Vec::new();
    let ds = push_random_pattern(rng, depth, &mut out);
    proof {
        assert(out@.skip(0) =~= out@);
        lemma_drawn_pattern(ds@, depth as nat);
    }
    string_from_chars(&out)
}

} // verus!
