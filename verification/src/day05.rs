//! Boarding passes: a code over `F`, `B`, `L`, `R` names a seat by bisection.
//!
//! `F` and `B` keep the front and the back half of the rows that are still in
//! question, `L` and `R` the left and the right half of the columns. There
//! are 128 rows and 8 columns, so a code halves the rows at most seven times
//! and the columns at most three times.

use crate::lexer::{lines, spec_lines, ParseError};
use vstd::prelude::*;

verus! {

/// How many seats of `full` are still in question after the symbols of `s`,
/// of which `lower` and `upper` each halve the range.
pub open spec fn bisect_width(s: Seq<char>, lower: char, upper: char, full: nat) -> nat
    decreases s.len(),
{
    if s.len() == 0 {
        full
    } else if s.last() == lower || s.last() == upper {
        bisect_width(s.drop_last(), lower, upper, full) / 2
    } else {
        bisect_width(s.drop_last(), lower, upper, full)
    }
}

/// The first seat that is still in question after the symbols of `s`: each
/// `upper` moves it up by half of what was in question before.
pub open spec fn bisect_low(s: Seq<char>, lower: char, upper: char, full: nat) -> nat
    decreases s.len(),
{
    if s.len() == 0 {
        0
    } else if s.last() == upper {
        bisect_low(s.drop_last(), lower, upper, full) + bisect_width(
            s.drop_last(),
            lower,
            upper,
            full,
        ) / 2
    } else {
        bisect_low(s.drop_last(), lower, upper, full)
    }
}

/// One of the four symbols that a code is made of.
pub open spec fn is_symbol(c: char) -> bool {
    c == 'F' || c == 'B' || c == 'L' || c == 'R'
}

/// A code holds the four symbols only, and never halves a range of one seat.
pub open spec fn is_code(s: Seq<char>) -> bool {
    &&& forall|i: int| 0 <= i < s.len() ==> is_symbol(#[trigger] s[i])
    &&& bisect_width(s, 'F', 'B', 128) >= 1
    &&& bisect_width(s, 'L', 'R', 8) >= 1
}

/// The row that a code names.
pub open spec fn spec_row(s: Seq<char>) -> nat {
    bisect_low(s, 'F', 'B', 128)
}

/// The column that a code names.
pub open spec fn spec_col(s: Seq<char>) -> nat {
    bisect_low(s, 'L', 'R', 8)
}

/// A range is halved down through the powers of two.
proof fn lemma_widths(s: Seq<char>, lower: char, upper: char, full: nat)
    ensures
        ({
            let w = bisect_width(s, lower, upper, full);
            &&& full == 128 ==> w == 128 || w == 64 || w == 32 || w == 16 || w == 8 || w == 4 || w
                == 2 || w == 1 || w == 0
            &&& full == 8 ==> w == 8 || w == 4 || w == 2 || w == 1 || w == 0
        }),
    decreases s.len(),
{
    if s.len() > 0 {
        lemma_widths(s.drop_last(), lower, upper, full);
    }
}

/// What is in question never grows, and the first seat plus what is in
/// question never passes the end.
proof fn lemma_prefix(s: Seq<char>, n: int, lower: char, upper: char, full: nat)
    requires
        0 <= n <= s.len(),
    ensures
        bisect_width(s, lower, upper, full) <= bisect_width(s.take(n), lower, upper, full),
        bisect_low(s, lower, upper, full) + bisect_width(s, lower, upper, full) <= full,
    decreases s.len(),
{
    if s.len() == 0 {
        assert(s.take(n) =~= s);
    } else {
        lemma_prefix(s.drop_last(), if n == s.len() { n - 1 } else { n }, lower, upper, full);
        if n == s.len() {
            assert(s.take(n) =~= s);
        } else {
            assert(s.drop_last().take(n) =~= s.take(n));
        }
    }
}

/// A seat, as the row and column that a code narrows the plane down to.
#[derive(Debug, Clone, Copy, PartialEq, Eq, Structural)]
pub struct BoardingPass {
    pub row: u32,
    pub col: u32,
}

impl BoardingPass {
    /// The seat identifier: eight seats to a row.
    pub open spec fn spec_id(self) -> int {
        self.row * 8 + self.col
    }

    /// Whether the text is a code.
    pub fn accepts(input: &str) -> (b: bool)
        ensures
            b == is_code(input@),
    {
        let mut rows: u32 = 128;
        let mut cols: u32 = 8;
        for c in it: input.chars()
            invariant
                it.seq() == input@,
                forall|i: int| 0 <= i < it.index() ==> is_symbol(#[trigger] input@[i]),
                rows == bisect_width(input@.take(it.index() as int), 'F', 'B', 128),
                cols == bisect_width(input@.take(it.index() as int), 'L', 'R', 8),
                rows >= 1,
                cols >= 1,
        {
            let ghost k = it.index() as int;
            proof {
                assert(input@.take(k + 1).drop_last() =~= input@.take(k));
                assert(input@.take(k + 1).last() == c);
                lemma_prefix(input@, k + 1, 'F', 'B', 128);
                lemma_prefix(input@, k + 1, 'L', 'R', 8);
            }
            if c == 'F' || c == 'B' {
                rows = rows / 2;
            } else if c == 'L' || c == 'R' {
                cols = cols / 2;
            } else {
                assert(!is_symbol(input@[k]));
                return false;
            }
            if rows == 0 || cols == 0 {
                return false;
            }
        }
        assert(input@.take(input@.len() as int) =~= input@);
        true
    }

    /// Decodes a code to the seat it names.
    pub fn from_str(input: &str) -> (pass: BoardingPass)
        requires
            is_code(input@),
        ensures
            pass.row == spec_row(input@),
            pass.col == spec_col(input@),
            pass.row <= 127,
            pass.col <= 7,
    {
        let mut min_row: u32 = 0;
        let mut max_row: u32 = 127;
        let mut min_col: u32 = 0;
        let mut max_col: u32 = 7;
        for c in it: input.chars()
            invariant
                it.seq() == input@,
                is_code(input@),
                min_row == bisect_low(input@.take(it.index() as int), 'F', 'B', 128),
                max_row + 1 == min_row + bisect_width(input@.take(it.index() as int), 'F', 'B', 128),
                min_col == bisect_low(input@.take(it.index() as int), 'L', 'R', 8),
                max_col + 1 == min_col + bisect_width(input@.take(it.index() as int), 'L', 'R', 8),
                max_row <= 127,
                max_col <= 7,
        {
            let ghost k = it.index() as int;
            proof {
                assert(input@.take(k + 1).drop_last() =~= input@.take(k));
                assert(input@.take(k + 1).last() == c);
                assert(is_symbol(input@[k]));
                lemma_prefix(input@, k + 1, 'F', 'B', 128);
                lemma_prefix(input@, k + 1, 'L', 'R', 8);
                lemma_widths(input@.take(k), 'F', 'B', 128);
                lemma_widths(input@.take(k), 'L', 'R', 8);
            }
            if c == 'F' {
                max_row = min_row + (max_row - min_row) / 2;
            } else if c == 'B' {
                min_row = (min_row + max_row) / 2 + 1;
            } else if c == 'L' {
                max_col = min_col + (max_col - min_col) / 2;
            } else {
                min_col = (min_col + max_col) / 2 + 1;
            }
        }
        proof {
            assert(input@.take(input@.len() as int) =~= input@);
        }
        BoardingPass { row: min_row, col: min_col }
    }

    /// The seat identifier, where it fits 32 bits.
    pub fn get_id(&self) -> (id: u32)
        requires
            self.spec_id() <= u32::MAX,
        ensures
            id == self.spec_id(),
    {
        self.row * 8 + self.col
    }
}

/// The identifier of the seat that a code names.
pub open spec fn spec_seat_id(code: Seq<char>) -> nat {
    spec_row(code) * 8 + spec_col(code)
}

/// The highest seat identifier among the codes of a text, one code to a
/// line. There is none where the text has no line, and the answer is an error
/// where a line is no code.
pub fn solve_a(text: &str) -> (r: Result<Option<u32>, ParseError>)
    ensures
        match r {
            Ok(Some(best)) => {
                &&& forall|i: int|
                    0 <= i < spec_lines(text@).len() ==> is_code(#[trigger] spec_lines(text@)[i])
                        && spec_seat_id(spec_lines(text@)[i]) <= best
                &&& exists|i: int|
                    0 <= i < spec_lines(text@).len() && spec_seat_id(
                        #[trigger] spec_lines(text@)[i],
                    ) == best
            },
            Ok(None) => spec_lines(text@).len() == 0,
            Err(e) => e == ParseError::Symbol && exists|i: int|
                0 <= i < spec_lines(text@).len() && !is_code(#[trigger] spec_lines(text@)[i]),
        },
{
    let codes = lines(text);
    let mut best: Option<u32> = None;
    let mut n: usize = 0;
    while n < codes.len()
        invariant
            n <= codes.len(),
            codes@.len() == spec_lines(text@).len(),
            forall|i: int| 0 <= i < codes@.len() ==> (#[trigger] codes@[i])@ == spec_lines(text@)[i],
            forall|i: int|
                0 <= i < n ==> is_code(#[trigger] spec_lines(text@)[i]) && best is Some
                    && spec_seat_id(spec_lines(text@)[i]) <= best->0,
            best is None <==> n == 0,
            best matches Some(b) ==> exists|i: int|
                0 <= i < n && spec_seat_id(#[trigger] spec_lines(text@)[i]) == b,
        decreases codes.len() - n,
    {
        let code = codes[n];
        assert(code@ == spec_lines(text@)[n as int]);
        if !BoardingPass::accepts(code) {
            return Err(ParseError::Symbol);
        }
        let id = BoardingPass::from_str(code).get_id();
        assert(id == spec_seat_id(spec_lines(text@)[n as int]));
        best = match best {
            Some(b) if b >= id => Some(b),
            _ => Some(id),
        };
        n = n + 1;
    }
    Ok(best)
}

} // verus!
