//! A plain-text listing of an epsilon-NFA, state by state, and the text of a label.
use vstd::prelude::*;
use crate::automaton::transitions_of;
use crate::epsilon_nfa::{EpsilonNfa, Symbol, encode_symbol, encode_symbol_text};
use crate::text::{decimal, push_decimal, push_str, string_from_chars};

verus! {

/// The line listing one transition: `  --<label>--> <target>`.
pub open spec fn transition_line(e: (Symbol, usize)) -> Seq<char> {
    "  --"@ + encode_symbol(e.0) + "--> "@ + decimal(e.1 as nat) + "\n"@
}

/// The lines listing the transitions of `row`, in order.
pub open spec fn transition_lines(row: Seq<(Symbol, usize)>) -> Seq<char>
    decreases row.len(),
{
    if row.len() == 0 {
        Seq::empty()
    } else {
        transition_lines(row.drop_last()) + transition_line(row.last())
    }
}

/// The block listing state `i` with transitions `row`: a header, a note when it has no
/// transitions, one line per transition, and a blank line.
pub open spec fn state_block(i: nat, row: Seq<(Symbol, usize)>) -> Seq<char> {
    "State "@ + decimal(i) + ":\n"@
        + (if row.len() == 0 { "  (no outgoing transitions)\n"@ } else { Seq::empty() })
        + transition_lines(row) + "\n"@
}

/// The listing of the states of a table of transitions, in order.
pub open spec fn listing(rows: Seq<Seq<(Symbol, usize)>>) -> Seq<char>
    decreases rows.len(),
{
    if rows.len() == 0 {
        Seq::empty()
    } else {
        listing(rows.drop_last()) + state_block((rows.len() - 1) as nat, rows.last())
    }
}

impl Symbol {
    /// The text of the label: `ε`, the character of a printable byte, or `0x` and two
    /// upper-case hexadecimal digits.
    pub fn text(&self) -> (r: String)
        ensures
            r@ == encode_symbol(*self),
    {
        encode_symbol_text(*self)
    }
}

impl EpsilonNfa {
    /// A listing of the states and their transitions, one block per state.
    pub fn text(&self) -> (r: String)
        ensures
            r@ == listing(transitions_of(self.states@)),
    {
        let ghost rows = transitions_of(self.states@);
        let mut v: Vec<char> = Vec::new();
        let mut i: usize = 0;
        while i < self.states.len()
            invariant
                rows == transitions_of(self.states@),
                0 <= i <= self.states@.len(),
                v@ == listing(rows.take(i as int)),
            decreases self.states@.len() - i,
        {
            let ghost before = v@;
            let row = &self.states[i].transitions;
            push_str(&mut v, "State ");
            push_decimal(&mut v, i);
            push_str(&mut v, ":\n");
            if row.len() == 0 {
                push_str(&mut v, "  (no outgoing transitions)\n");
            }
            let ghost head = v@;
            let mut k: usize = 0;
            while k < row.len()
                invariant
                    row@ == rows[i as int],
                    0 <= k <= row@.len(),
                    v@ == head + transition_lines(row@.take(k as int)),
                decreases row@.len() - k,
            {
                let (sym, target) = row[k];
                let ghost mid = v@;
                push_str(&mut v, "  --");
                let label = encode_symbol_text(sym);
                push_str(&mut v, label.as_str());
                push_str(&mut v, "--> ");
                push_decimal(&mut v, target);
                push_str(&mut v, "\n");
                proof {
                    assert(row@.take(k + 1).drop_last() =~= row@.take(k as int));
                    assert(v@ =~= mid + transition_line(row@[k as int]));
                }
                k = k + 1;
            }
            push_str(&mut v, "\n");
            proof {
                assert(row@.take(row@.len() as int) =~= row@);
                assert(rows.take(i + 1).drop_last() =~= rows.take(i as int));
                assert(v@ =~= before + state_block(i as nat, rows[i as int]));
            }
            i = i + 1;
        }
        proof {
            assert(rows.take(rows.len() as int) =~= rows);
        }
        string_from_chars(&v)
    }
}

} // verus!
