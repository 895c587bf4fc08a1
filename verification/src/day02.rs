//! Password policies: lines of the form `1-3 a: abcde`, a range, a character
//! and a password.
//!
//! Under the first rule the password must hold the character a number of
//! times that lies in the range. Under the second the two numbers are
//! positions in the password, counted from one, and exactly one of them must
//! hold the character. Positions are counted in bytes, and a position outside
//! the password holds nothing.

use crate::lexer::{
    after_span, alpha1, anychar, character, lines, number_i32, outcome, span, span_len,
    spec_lines, spec_number_i32, tag, CharClass, ParseError,
};
use vstd::prelude::*;
use vstd::utf8::encode_utf8;

verus! {

/// A character, and two numbers whose meaning the rule decides.
#[derive(Debug, Clone, Copy, PartialEq, Eq, Structural)]
pub struct Policy {
    pub char: char,
    pub min_occurrence: i32,
    pub max_occurrence: i32,
}

/// How often `c` occurs in `s`.
pub open spec fn count_char(s: Seq<char>, c: char) -> nat
    decreases s.len(),
{
    if s.len() == 0 {
        0
    } else {
        count_char(s.drop_last(), c) + if s.last() == c {
            1nat
        } else {
            0nat
        }
    }
}

/// The byte that stands for a character in a comparison with the bytes of a
/// password: the low eight bits of its code.
pub open spec fn low_byte(c: char) -> u8 {
    (c as u32 % 256) as u8
}

/// Position `p`, counted from one, lies in the password and holds `byte`.
pub open spec fn holds_at(password: Seq<u8>, p: int, byte: u8) -> bool {
    1 <= p <= password.len() && password[p - 1] == byte
}

/// Reads a number without a sign off the start of the input.
pub fn parse_numbers<'a>(input: &'a str) -> (r: Result<(&'a str, i32), ParseError>)
    ensures
        outcome(r) == spec_number_i32(input@),
{
    number_i32(input)
}

impl Policy {
    /// A policy at the start of `s`: a number, a hyphen, a number, a space
    /// and one character of any kind.
    pub open spec fn spec_parse(s: Seq<char>) -> Result<(Seq<char>, Policy), ParseError> {
        match spec_number_i32(s) {
            Ok((after_min, min)) => if after_min.len() == 0 || after_min[0] != '-' {
                Err(ParseError::Char)
            } else {
                match spec_number_i32(after_min.skip(1)) {
                    Ok((after_max, max)) => if after_max.len() == 0 || after_max[0] != ' ' {
                        Err(ParseError::Char)
                    } else if after_max.len() == 1 {
                        Err(ParseError::Eof)
                    } else {
                        Ok(
                            (
                                after_max.skip(2),
                                Policy {
                                    char: after_max[1],
                                    min_occurrence: min,
                                    max_occurrence: max,
                                },
                            ),
                        )
                    },
                    Err(e) => Err(e),
                }
            },
            Err(e) => Err(e),
        }
    }

    /// Reads a policy off the start of the input.
    pub fn parse<'a>(input: &'a str) -> (r: Result<(&'a str, Policy), ParseError>)
        ensures
            outcome(r) == Self::spec_parse(input@),
    {
        let (rest, min) = match parse_numbers(input) {
            Ok(found) => found,
            Err(e) => {
                return Err(e);
            },
        };
        let rest = match character('-', rest) {
            Ok((rest, _)) => rest,
            Err(_) => {
                return Err(ParseError::Char);
            },
        };
        let (rest, max) = match parse_numbers(rest) {
            Ok(found) => found,
            Err(e) => {
                return Err(e);
            },
        };
        let ghost after_max = rest@;
        let rest = match character(' ', rest) {
            Ok((rest, _)) => rest,
            Err(_) => {
                return Err(ParseError::Char);
            },
        };
        match anychar(rest) {
            Ok((rest, c)) => {
                assert(rest@ =~= after_max.skip(2));
                Ok((rest, Policy { char: c, min_occurrence: min, max_occurrence: max }))
            },
            Err(_) => Err(ParseError::Eof),
        }
    }

    /// The first rule: the character occurs at least `min_occurrence` and at
    /// most `max_occurrence` times.
    pub open spec fn spec_validate(self, password: Seq<char>) -> bool {
        self.min_occurrence <= count_char(password, self.char) <= self.max_occurrence
    }

    /// The second rule: of the positions `min_occurrence` and
    /// `max_occurrence`, exactly one holds the character.
    pub open spec fn spec_validate2(self, password: Seq<u8>) -> bool {
        holds_at(password, self.min_occurrence as int, low_byte(self.char)) != holds_at(
            password,
            self.max_occurrence as int,
            low_byte(self.char),
        )
    }

    /// Whether the password meets the policy under the first rule.
    pub fn validate(&self, input: &str) -> (b: bool)
        ensures
            b == self.spec_validate(input@),
    {
        let mut n: u64 = 0;
        for c in it: input.chars()
            invariant
                it.seq() == input@,
                n <= 0x8000_0000,
                n == if count_char(input@.take(it.index() as int), self.char) < 0x8000_0000 {
                    count_char(input@.take(it.index() as int), self.char)
                } else {
                    0x8000_0000
                },
        {
            proof {
                let k = it.index() as int;
                assert(input@.take(k + 1).drop_last() =~= input@.take(k));
                assert(input@.take(k + 1).last() == c);
            }
            if c == self.char && n < 0x8000_0000 {
                n = n + 1;
            }
        }
        assert(input@.take(input@.len() as int) =~= input@);
        self.min_occurrence as i64 <= n as i64 && n as i64 <= self.max_occurrence as i64
    }

    /// Whether the password meets the policy under the second rule.
    pub fn validate2(&self, input: &str) -> (b: bool)
        ensures
            b == self.spec_validate2(encode_utf8(input@)),
    {
        let bytes = input.as_bytes();
        let wanted: u8 = (self.char as u32 % 256) as u8;
        let first = 1 <= self.min_occurrence && self.min_occurrence as usize <= bytes.len()
            && bytes[(self.min_occurrence - 1) as usize] == wanted;
        let second = 1 <= self.max_occurrence && self.max_occurrence as usize <= bytes.len()
            && bytes[(self.max_occurrence - 1) as usize] == wanted;
        first != second
    }
}

/// A line: a policy, a colon and a space, and a password of letters.
pub open spec fn spec_parse_line(s: Seq<char>) -> Result<
    (Seq<char>, (Policy, Seq<char>)),
    ParseError,
> {
    match Policy::spec_parse(s) {
        Ok((after_policy, policy)) => if !seq![':', ' '].is_prefix_of(after_policy) {
            Err(ParseError::Tag)
        } else if span_len(after_policy.skip(2), CharClass::Alpha) == 0 {
            Err(ParseError::Alpha)
        } else {
            Ok(
                (
                    after_span(after_policy.skip(2), CharClass::Alpha),
                    (policy, span(after_policy.skip(2), CharClass::Alpha)),
                ),
            )
        },
        Err(e) => Err(e),
    }
}

/// What `parse_line` hands back, with the texts seen as their characters.
pub open spec fn line_outcome(r: Result<(&str, (Policy, &str)), ParseError>) -> Result<
    (Seq<char>, (Policy, Seq<char>)),
    ParseError,
> {
    match r {
        Ok((rest, (policy, password))) => Ok((rest@, (policy, password@))),
        Err(e) => Err(e),
    }
}

/// Reads a policy and the password behind it off the start of the input.
pub fn parse_line<'a>(input: &'a str) -> (r: Result<(&'a str, (Policy, &'a str)), ParseError>)
    ensures
        line_outcome(r) == spec_parse_line(input@),
{
    proof {
        reveal_strlit(": ");
        assert(": "@ =~= seq![':', ' ']);
    }
    let (rest, policy) = match Policy::parse(input) {
        Ok(found) => found,
        Err(e) => {
            return Err(e);
        },
    };
    let rest = match tag(": ", rest) {
        Ok((rest, _)) => rest,
        Err(_) => {
            return Err(ParseError::Tag);
        },
    };
    match alpha1(rest) {
        Ok((rest, password)) => Ok((rest, (policy, password))),
        Err(_) => Err(ParseError::Alpha),
    }
}

/// Whether a line holds a password that meets its policy, under the first
/// rule or the second.
pub open spec fn spec_check(line: Seq<char>, second: bool) -> Result<bool, ParseError> {
    match spec_parse_line(line) {
        Ok((_, (policy, password))) => Ok(
            if second {
                policy.spec_validate2(encode_utf8(password))
            } else {
                policy.spec_validate(password)
            },
        ),
        Err(e) => Err(e),
    }
}

/// How many of the lines hold a password that meets its policy, or what is
/// wrong with the first line that cannot be read.
pub open spec fn spec_count(lines: Seq<Seq<char>>, second: bool) -> Result<nat, ParseError>
    decreases lines.len(),
{
    if lines.len() == 0 {
        Ok(0)
    } else {
        match spec_count(lines.drop_last(), second) {
            Ok(n) => match spec_check(lines.last(), second) {
                Ok(valid) => Ok(
                    if valid {
                        n + 1
                    } else {
                        n
                    },
                ),
                Err(e) => Err(e),
            },
            Err(e) => Err(e),
        }
    }
}

/// An error among the first lines is the error of all the lines, and no more
/// lines are counted than there are.
proof fn lemma_count(lines: Seq<Seq<char>>, n: int, second: bool)
    requires
        0 <= n <= lines.len(),
    ensures
        spec_count(lines.take(n), second) is Err ==> spec_count(lines, second) == spec_count(
            lines.take(n),
            second,
        ),
        spec_count(lines, second) matches Ok(count) ==> count <= lines.len(),
    decreases lines.len(),
{
    if n == lines.len() {
        assert(lines.take(n) =~= lines);
        if n > 0 {
            lemma_count(lines.drop_last(), n - 1, second);
        }
    } else {
        assert(lines.drop_last().take(n) =~= lines.take(n));
        lemma_count(lines.drop_last(), n, second);
    }
}

fn count_valid(text: &str, second: bool) -> (r: Result<usize, ParseError>)
    ensures
        match spec_count(spec_lines(text@), second) {
            Ok(n) => r == Ok::<usize, ParseError>(n as usize) && n <= usize::MAX,
            Err(e) => r == Err::<usize, ParseError>(e),
        },
{
    let rows = lines(text);
    let ghost all = spec_lines(text@);
    let mut count: usize = 0;
    let mut n: usize = 0;
    while n < rows.len()
        invariant
            n <= rows.len(),
            all == spec_lines(text@),
            rows@.len() == all.len(),
            forall|i: int| 0 <= i < rows@.len() ==> (#[trigger] rows@[i])@ == all[i],
            spec_count(all.take(n as int), second) == Ok::<nat, ParseError>(count as nat),
            count <= n,
        decreases rows.len() - n,
    {
        proof {
            assert(all.take(n + 1).drop_last() =~= all.take(n as int));
            assert(all.take(n + 1).last() == rows@[n as int]@);
            lemma_count(all, n + 1, second);
        }
        match parse_line(rows[n]) {
            Ok((_, (policy, password))) => {
                let valid = if second {
                    policy.validate2(password)
                } else {
                    policy.validate(password)
                };
                if valid {
                    count = count + 1;
                }
            },
            Err(e) => {
                return Err(e);
            },
        }
        n = n + 1;
    }
    assert(all.take(n as int) =~= all);
    Ok(count)
}

/// How many lines of the text hold a password that meets its policy under
/// the first rule.
pub fn solve_a(text: &str) -> (r: Result<usize, ParseError>)
    ensures
        match spec_count(spec_lines(text@), false) {
            Ok(n) => r == Ok::<usize, ParseError>(n as usize) && n <= usize::MAX,
            Err(e) => r == Err::<usize, ParseError>(e),
        },
{
    count_valid(text, false)
}

/// How many lines of the text hold a password that meets its policy under
/// the second rule.
pub fn solve_b(text: &str) -> (r: Result<usize, ParseError>)
    ensures
        match spec_count(spec_lines(text@), true) {
            Ok(n) => r == Ok::<usize, ParseError>(n as usize) && n <= usize::MAX,
            Err(e) => r == Err::<usize, ParseError>(e),
        },
{
    count_valid(text, true)
}

} // verus!
