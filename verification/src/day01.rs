//! Expense reports: the first two, or three, entries of a list that add up to
//! 2020.
//!
//! The entries are taken in the order of a nested scan: an entry is paired
//! with each entry before it, from the first on, before the next entry is
//! looked at. What is found is handed back in the order of the list. Sums
//! are exact: they do not wrap.

use crate::lexer::{
    character, decimal, decimal_value, digit1, lemma_span, lines, span_len, spec_lines,
    CharClass, ParseError,
};
use vstd::prelude::*;

verus! {

/// The sum that is looked for.
pub const TARGET: i32 = 2020;

/// Entries `j` and `i`, `j` the earlier one, add up to the target.
pub open spec fn is_pair(s: Seq<i32>, i: int, j: int) -> bool {
    0 <= j < i < s.len() && s[i] + s[j] == TARGET
}

/// No pair comes before `(i, j)` in the scan.
pub open spec fn is_first_pair(s: Seq<i32>, i: int, j: int) -> bool {
    &&& is_pair(s, i, j)
    &&& forall|i2: int, j2: int| #[trigger] is_pair(s, i2, j2) ==> i < i2 || (i == i2 && j <= j2)
}

/// Entries `k`, `j` and `i`, from the earliest to the latest, add up to the
/// target.
pub open spec fn is_triple(s: Seq<i32>, i: int, j: int, k: int) -> bool {
    0 <= k < j < i < s.len() && s[i] + s[j] + s[k] == TARGET
}

/// No triple comes before `(i, j, k)` in the scan.
pub open spec fn is_first_triple(s: Seq<i32>, i: int, j: int, k: int) -> bool {
    &&& is_triple(s, i, j, k)
    &&& forall|i2: int, j2: int, k2: int| #[trigger]
        is_triple(s, i2, j2, k2) ==> i < i2 || (i == i2 && (j < j2 || (j == j2 && k <= k2)))
}

/// The first pair of entries that add up to 2020, the earlier entry first.
pub fn find_2020_tuple(numbers: Vec<i32>) -> (r: Option<(i32, i32)>)
    ensures
        match r {
            Some((a, b)) => exists|i: int, j: int|
                is_first_pair(numbers@, i, j) && a == numbers@[j] && b == numbers@[i],
            None => forall|i: int, j: int| !is_pair(numbers@, i, j),
        },
{
    let mut i: usize = 0;
    while i < numbers.len()
        invariant
            i <= numbers.len(),
            forall|i2: int, j2: int| i2 < i ==> !is_pair(numbers@, i2, j2),
        decreases numbers.len() - i,
    {
        let mut j: usize = 0;
        while j < i
            invariant
                j <= i < numbers.len(),
                forall|i2: int, j2: int| i2 < i ==> !is_pair(numbers@, i2, j2),
                forall|j2: int| j2 < j ==> !is_pair(numbers@, i as int, j2),
            decreases i - j,
        {
            if numbers[i] as i64 + numbers[j] as i64 == TARGET as i64 {
                assert(is_first_pair(numbers@, i as int, j as int));
                return Some((numbers[j], numbers[i]));
            }
            j = j + 1;
        }
        i = i + 1;
    }
    None
}

/// The first three entries that add up to 2020, from the earliest to the
/// latest.
pub fn find_2020_triple(numbers: Vec<i32>) -> (r: Option<(i32, i32, i32)>)
    ensures
        match r {
            Some((a, b, c)) => exists|i: int, j: int, k: int|
                is_first_triple(numbers@, i, j, k) && a == numbers@[k] && b == numbers@[j] && c
                    == numbers@[i],
            None => forall|i: int, j: int, k: int| !is_triple(numbers@, i, j, k),
        },
{
    let mut i: usize = 0;
    while i < numbers.len()
        invariant
            i <= numbers.len(),
            forall|i2: int, j2: int, k2: int| i2 < i ==> !is_triple(numbers@, i2, j2, k2),
        decreases numbers.len() - i,
    {
        let mut j: usize = 0;
        while j < i
            invariant
                j <= i < numbers.len(),
                forall|i2: int, j2: int, k2: int| i2 < i ==> !is_triple(numbers@, i2, j2, k2),
                forall|j2: int, k2: int| j2 < j ==> !is_triple(numbers@, i as int, j2, k2),
            decreases i - j,
        {
            let mut k: usize = 0;
            while k < j
                invariant
                    k <= j < i < numbers.len(),
                    forall|i2: int, j2: int, k2: int| i2 < i ==> !is_triple(numbers@, i2, j2, k2),
                    forall|j2: int, k2: int| j2 < j ==> !is_triple(numbers@, i as int, j2, k2),
                    forall|k2: int| k2 < k ==> !is_triple(numbers@, i as int, j as int, k2),
                decreases j - k,
            {
                if numbers[i] as i64 + numbers[j] as i64 + numbers[k] as i64 == TARGET as i64 {
                    assert(is_first_triple(numbers@, i as int, j as int, k as int));
                    return Some((numbers[k], numbers[j], numbers[i]));
                }
                k = k + 1;
            }
            j = j + 1;
        }
        i = i + 1;
    }
    None
}

/// An entry without the sign that may lead it.
pub open spec fn unsigned_part(s: Seq<char>) -> Seq<char> {
    if s.len() > 0 && (s[0] == '-' || s[0] == '+') {
        s.drop_first()
    } else {
        s
    }
}

/// The integer that a line denotes: an optional sign, then decimal digits and
/// nothing else, within 32 bits.
pub open spec fn spec_integer(s: Seq<char>) -> Result<i32, ParseError> {
    let body = unsigned_part(s);
    let value = if s.len() > 0 && s[0] == '-' {
        -(decimal_value(body) as int)
    } else {
        decimal_value(body) as int
    };
    if span_len(body, CharClass::Digit) == 0 {
        Err(ParseError::Digit)
    } else if span_len(body, CharClass::Digit) < body.len() {
        Err(ParseError::Symbol)
    } else if value < i32::MIN || value > i32::MAX {
        Err(ParseError::Overflow)
    } else {
        Ok(value as i32)
    }
}

/// The integers that the lines denote, or what is wrong with the first line
/// that denotes none.
pub open spec fn spec_integers(lines: Seq<Seq<char>>) -> Result<Seq<i32>, ParseError>
    decreases lines.len(),
{
    if lines.len() == 0 {
        Ok(Seq::empty())
    } else {
        match spec_integers(lines.drop_last()) {
            Ok(before) => match spec_integer(lines.last()) {
                Ok(n) => Ok(before.push(n)),
                Err(e) => Err(e),
            },
            Err(e) => Err(e),
        }
    }
}

/// Reads one entry.
pub fn integer(line: &str) -> (r: Result<i32, ParseError>)
    ensures
        r == spec_integer(line@),
{
    let (negative, body) = match character('-', line) {
        Ok((rest, _)) => (true, rest),
        Err(_) => match character('+', line) {
            Ok((rest, _)) => (false, rest),
            Err(_) => (false, line),
        },
    };
    assert(body@ =~= unsigned_part(line@));
    match digit1(body) {
        Ok((rest, digits)) => {
            proof {
                lemma_span(body@, CharClass::Digit);
            }
            if !rest.is_empty() {
                return Err(ParseError::Symbol);
            }
            assert(digits@ =~= body@);
            if negative {
                match decimal(digits, 2147483648) {
                    Some(n) => Ok((-(n as i64)) as i32),
                    None => Err(ParseError::Overflow),
                }
            } else {
                match decimal(digits, 2147483647) {
                    Some(n) => Ok(n as i32),
                    None => Err(ParseError::Overflow),
                }
            }
        },
        Err(_) => Err(ParseError::Digit),
    }
}

/// Reads the entries of a report, one to a line.
pub fn read_numbers(text: &str) -> (r: Result<Vec<i32>, ParseError>)
    ensures
        match spec_integers(spec_lines(text@)) {
            Ok(entries) => r matches Ok(v) && v@ == entries,
            Err(e) => r matches Err(found) && found == e,
        },
{
    let rows = lines(text);
    let mut numbers: Vec<i32> = Vec::new();
    let mut n: usize = 0;
    while n < rows.len()
        invariant
            n <= rows.len(),
            rows@.len() == spec_lines(text@).len(),
            forall|i: int| 0 <= i < rows@.len() ==> (#[trigger] rows@[i])@ == spec_lines(text@)[i],
            spec_integers(spec_lines(text@).take(n as int)) == Ok::<Seq<i32>, ParseError>(numbers@),
        decreases rows.len() - n,
    {
        let ghost all = spec_lines(text@);
        proof {
            assert(all.take(n + 1).drop_last() =~= all.take(n as int));
            assert(all.take(n + 1).last() == rows@[n as int]@);
        }
        match integer(rows[n]) {
            Ok(value) => {
                numbers.push(value);
            },
            Err(e) => {
                proof {
                    lemma_first_error(all, n + 1);
                }
                return Err(e);
            },
        }
        n = n + 1;
    }
    assert(spec_lines(text@).take(n as int) =~= spec_lines(text@));
    Ok(numbers)
}

/// An error among the first lines is the error of all the lines.
proof fn lemma_first_error(lines: Seq<Seq<char>>, n: int)
    requires
        0 <= n <= lines.len(),
        spec_integers(lines.take(n)) is Err,
    ensures
        spec_integers(lines) == spec_integers(lines.take(n)),
    decreases lines.len(),
{
    if n == lines.len() {
        assert(lines.take(n) =~= lines);
    } else {
        assert(lines.drop_last().take(n) =~= lines.take(n));
        lemma_first_error(lines.drop_last(), n);
    }
}

/// The product of the first pair of entries of the report that add up to
/// 2020, if there is such a pair.
pub fn solve_a(text: &str) -> (r: Result<Option<i64>, ParseError>)
    ensures
        match spec_integers(spec_lines(text@)) {
            Ok(entries) => match r {
                Ok(Some(product)) => exists|i: int, j: int|
                    is_first_pair(entries, i, j) && product == entries[i] * entries[j],
                Ok(None) => forall|i: int, j: int| !is_pair(entries, i, j),
                Err(_) => false,
            },
            Err(e) => r matches Err(found) && found == e,
        },
{
    let numbers = match read_numbers(text) {
        Ok(numbers) => numbers,
        Err(e) => {
            return Err(e);
        },
    };
    match find_2020_tuple(numbers) {
        Some((a, b)) => {
            assert(-0x8000_0000 * 0x8000_0000 <= a * b <= 0x8000_0000 * 0x8000_0000)
                by (nonlinear_arith)
                requires
                    -0x8000_0000 <= a < 0x8000_0000,
                    -0x8000_0000 <= b < 0x8000_0000,
            ;
            Ok(Some(a as i64 * b as i64))
        },
        None => Ok(None),
    }
}

/// The first three entries of the report that add up to 2020, with their
/// product, if there are three such entries.
pub fn solve_b(text: &str) -> (r: Result<Option<((i32, i32, i32), i128)>, ParseError>)
    ensures
        match spec_integers(spec_lines(text@)) {
            Ok(entries) => match r {
                Ok(Some(((a, b, c), product))) => {
                    &&& exists|i: int, j: int, k: int|
                        is_first_triple(entries, i, j, k) && a == entries[k] && b == entries[j]
                            && c == entries[i]
                    &&& product == a * b * c
                },
                Ok(None) => forall|i: int, j: int, k: int| !is_triple(entries, i, j, k),
                Err(_) => false,
            },
            Err(e) => r matches Err(found) && found == e,
        },
{
    let numbers = match read_numbers(text) {
        Ok(numbers) => numbers,
        Err(e) => {
            return Err(e);
        },
    };
    match find_2020_triple(numbers) {
        Some((a, b, c)) => {
            assert(-0x8000_0000 * 0x8000_0000 <= a * b <= 0x8000_0000 * 0x8000_0000)
                by (nonlinear_arith)
                requires
                    -0x8000_0000 <= a < 0x8000_0000,
                    -0x8000_0000 <= b < 0x8000_0000,
            ;
            let ab: i128 = a as i128 * b as i128;
            assert(-0x8000_0000 * 0x8000_0000 * 0x8000_0000 <= ab * c <= 0x8000_0000 * 0x8000_0000
                * 0x8000_0000) by (nonlinear_arith)
                requires
                    -0x8000_0000 * 0x8000_0000 <= ab <= 0x8000_0000 * 0x8000_0000,
                    -0x8000_0000 <= c < 0x8000_0000,
            ;
            Ok(Some(((a, b, c), ab * c as i128)))
        },
        None => Ok(None),
    }
}

} // verus!
