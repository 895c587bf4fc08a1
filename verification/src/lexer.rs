//! Character classes, and the primitive recognisers that the grammars of this
//! library are built from.
//!
//! The recognisers themselves are `nom`'s. Each is reached through one small
//! function of this module whose contract restates, over the characters of the
//! input, what `nom` documents for it. Those contracts are taken on trust;
//! everything built on top of them is proved.

use vstd::prelude::*;

verus! {

/// Why a piece of text was rejected.
#[derive(Debug, Clone, Copy, PartialEq, Eq, Structural)]
pub enum ParseError {
    /// A fixed piece of text was expected.
    Tag,
    /// One particular character was expected.
    Char,
    /// A decimal digit was expected.
    Digit,
    /// An ASCII letter was expected.
    Alpha,
    /// A space, a tab or a line ending was expected.
    Separator,
    /// The digits denote a number that does not fit its type.
    Overflow,
    /// The input ended where a character was expected.
    Eof,
    /// A character that the format has no meaning for.
    Symbol,
}

/// The classes of characters that a run can be made of.
#[derive(Debug, Clone, Copy, PartialEq, Eq, Structural)]
pub enum CharClass {
    /// `0` to `9`.
    Digit,
    /// `a` to `z` and `A` to `Z`.
    Alpha,
    /// Space and tab.
    Blank,
    /// Anything but white space.
    Word,
    /// Anything but a line feed.
    Line,
}

/// The decimal digits, `0` to `9`.
pub open spec fn is_digit(c: char) -> bool {
    0x30 <= c as u32 <= 0x39
}

/// The ASCII letters, `a` to `z` and `A` to `Z`.
pub open spec fn is_alpha(c: char) -> bool {
    0x41 <= c as u32 <= 0x5A || 0x61 <= c as u32 <= 0x7A
}

/// Space and tab.
pub open spec fn is_blank(c: char) -> bool {
    c == ' ' || c == '\t'
}

/// The characters with Unicode's `White_Space` property.
pub open spec fn is_whitespace(c: char) -> bool {
    let u = c as u32;
    ||| 0x09 <= u <= 0x0D
    ||| u == 0x20
    ||| u == 0x85
    ||| u == 0xA0
    ||| u == 0x1680
    ||| 0x2000 <= u <= 0x200A
    ||| u == 0x2028
    ||| u == 0x2029
    ||| u == 0x202F
    ||| u == 0x205F
    ||| u == 0x3000
}

/// Whether `c` is of `class`.
pub open spec fn in_class(c: char, class: CharClass) -> bool {
    match class {
        CharClass::Digit => is_digit(c),
        CharClass::Alpha => is_alpha(c),
        CharClass::Blank => is_blank(c),
        CharClass::Word => !is_whitespace(c),
        CharClass::Line => c != '\n',
    }
}

/// How many characters at the start of `s` belong to `class`: the length of
/// the longest prefix of `s` made of such characters only.
pub open spec fn span_len(s: Seq<char>, class: CharClass) -> nat
    decreases s.len(),
{
    if s.len() > 0 && in_class(s[0], class) {
        1 + span_len(s.drop_first(), class)
    } else {
        0
    }
}

/// The run of `class` at the start of `s`.
pub open spec fn span(s: Seq<char>, class: CharClass) -> Seq<char> {
    s.take(span_len(s, class) as int)
}

/// What follows the run of `class` at the start of `s`.
pub open spec fn after_span(s: Seq<char>, class: CharClass) -> Seq<char> {
    s.skip(span_len(s, class) as int)
}

/// A run ends inside the text, holds only characters of its class, and stops
/// at the first character that is not of the class.
pub proof fn lemma_span(s: Seq<char>, class: CharClass)
    ensures
        span_len(s, class) <= s.len(),
        forall|i: int| 0 <= i < span_len(s, class) ==> in_class(#[trigger] s[i], class),
        span_len(s, class) < s.len() ==> !in_class(s[span_len(s, class) as int], class),
    decreases s.len(),
{
    if s.len() > 0 && in_class(s[0], class) {
        let t = s.drop_first();
        lemma_span(t, class);
        assert forall|i: int| 0 <= i < span_len(s, class) implies in_class(
            #[trigger] s[i],
            class,
        ) by {
            if i > 0 {
                assert(s[i] == t[i - 1]);
            }
        }
        if span_len(s, class) < s.len() {
            assert(s[span_len(s, class) as int] == t[span_len(t, class) as int]);
        }
    }
}

/// A text that is cut where its leading run of `class` ends has that run for
/// its first part.
pub proof fn lemma_span_of_parts(head: Seq<char>, rest: Seq<char>, class: CharClass)
    requires
        forall|i: int| 0 <= i < head.len() ==> in_class(#[trigger] head[i], class),
        rest.len() > 0 ==> !in_class(rest[0], class),
    ensures
        span_len(head + rest, class) == head.len(),
        span(head + rest, class) == head,
        after_span(head + rest, class) == rest,
    decreases head.len(),
{
    let s = head + rest;
    if head.len() == 0 {
        assert(s =~= rest);
    } else {
        assert(s[0] == head[0]);
        assert(s.drop_first() =~= head.drop_first() + rest);
        lemma_span_of_parts(head.drop_first(), rest, class);
    }
    assert(s.take(head.len() as int) =~= head);
    assert(s.skip(head.len() as int) =~= rest);
}

/// Whether `c` is white space.
pub fn is_whitespace_char(c: char) -> (b: bool)
    ensures
        b == is_whitespace(c),
{
    let u: u32 = c as u32;
    (0x09 <= u && u <= 0x0D) || u == 0x20 || u == 0x85 || u == 0xA0 || u == 0x1680 || (0x2000 <= u
        && u <= 0x200A) || u == 0x2028 || u == 0x2029 || u == 0x202F || u == 0x205F || u == 0x3000
}

/// `nom::Err`, the failure of a recogniser. Nothing is read from it: what a
/// failure means is said by the contract of the recogniser that gave it.
#[verifier::external_type_specification]
#[verifier::external_body]
#[verifier::reject_recursive_types(E)]
pub struct ExNomErr<E>(nom::Err<E>);

/// `nom::error::Error`, what a failure carries: as opaque as the failure.
#[verifier::external_type_specification]
#[verifier::external_body]
#[verifier::reject_recursive_types(I)]
pub struct ExNomError<I>(nom::error::Error<I>);

/// `nom::character::complete::digit1`: takes the decimal digits that the input
/// starts with and hands back what follows them and the digits, in that order;
/// fails where the input does not start with a digit.
#[verifier::external_body]
pub(crate) fn digit1<'a>(input: &'a str) -> (r: Result<
    (&'a str, &'a str),
    nom::Err<nom::error::Error<&'a str>>,
>)
    ensures
        match r {
            Ok((rest, run)) => {
                &&& span_len(input@, CharClass::Digit) > 0
                &&& run@ == span(input@, CharClass::Digit)
                &&& rest@ == after_span(input@, CharClass::Digit)
            },
            Err(_) => span_len(input@, CharClass::Digit) == 0,
        },
{
    nom::character::complete::digit1(input)
}

/// `nom::character::complete::alpha1`: as `digit1`, for the ASCII letters.
#[verifier::external_body]
pub(crate) fn alpha1<'a>(input: &'a str) -> (r: Result<
    (&'a str, &'a str),
    nom::Err<nom::error::Error<&'a str>>,
>)
    ensures
        match r {
            Ok((rest, run)) => {
                &&& span_len(input@, CharClass::Alpha) > 0
                &&& run@ == span(input@, CharClass::Alpha)
                &&& rest@ == after_span(input@, CharClass::Alpha)
            },
            Err(_) => span_len(input@, CharClass::Alpha) == 0,
        },
{
    nom::character::complete::alpha1(input)
}

/// `nom::character::complete::space1`: as `digit1`, for spaces and tabs.
#[verifier::external_body]
pub(crate) fn space1<'a>(input: &'a str) -> (r: Result<
    (&'a str, &'a str),
    nom::Err<nom::error::Error<&'a str>>,
>)
    ensures
        match r {
            Ok((rest, run)) => {
                &&& span_len(input@, CharClass::Blank) > 0
                &&& run@ == span(input@, CharClass::Blank)
                &&& rest@ == after_span(input@, CharClass::Blank)
            },
            Err(_) => span_len(input@, CharClass::Blank) == 0,
        },
{
    nom::character::complete::space1(input)
}

/// `nom::bytes::complete::take_till`, stopping at white space: takes
/// everything up to the first white-space character, or all of the input where
/// it holds none. It never fails, and may take nothing.
#[verifier::external_body]
pub(crate) fn take_till_whitespace<'a>(input: &'a str) -> (r: Result<
    (&'a str, &'a str),
    nom::Err<nom::error::Error<&'a str>>,
>)
    ensures
        match r {
            Ok((rest, run)) => {
                &&& run@ == span(input@, CharClass::Word)
                &&& rest@ == after_span(input@, CharClass::Word)
            },
            Err(_) => false,
        },
{
    nom::bytes::complete::take_till(|c: char| is_whitespace_char(c))(input)
}

/// How many characters of line ending `s` starts with: one for a line feed,
/// two for a carriage return and a line feed, none otherwise.
pub open spec fn line_ending_len(s: Seq<char>) -> nat {
    if s.len() >= 1 && s[0] == '\n' {
        1
    } else if s.len() >= 2 && s[0] == '\r' && s[1] == '\n' {
        2
    } else {
        0
    }
}

/// `nom::character::complete::line_ending`: takes one line ending, `"\n"` or
/// `"\r\n"`; fails where the input starts with neither.
#[verifier::external_body]
pub(crate) fn line_ending<'a>(input: &'a str) -> (r: Result<
    (&'a str, &'a str),
    nom::Err<nom::error::Error<&'a str>>,
>)
    ensures
        match r {
            Ok((rest, ending)) => {
                &&& line_ending_len(input@) > 0
                &&& ending@ == input@.take(line_ending_len(input@) as int)
                &&& rest@ == input@.skip(line_ending_len(input@) as int)
            },
            Err(_) => line_ending_len(input@) == 0,
        },
{
    nom::character::complete::line_ending(input)
}

/// `nom::bytes::complete::tag`: takes `text` off the start of the input;
/// fails where the input does not start with it.
#[verifier::external_body]
pub(crate) fn tag<'a>(text: &str, input: &'a str) -> (r: Result<
    (&'a str, &'a str),
    nom::Err<nom::error::Error<&'a str>>,
>)
    ensures
        match r {
            Ok((rest, found)) => {
                &&& text@.is_prefix_of(input@)
                &&& found@ == text@
                &&& rest@ == input@.skip(text@.len() as int)
            },
            Err(_) => !text@.is_prefix_of(input@),
        },
{
    nom::bytes::complete::tag(text)(input)
}

/// `nom::character::complete::char`: takes the character `c` off the start of
/// the input; fails where the input is empty or starts with another.
#[verifier::external_body]
pub(crate) fn character<'a>(c: char, input: &'a str) -> (r: Result<
    (&'a str, char),
    nom::Err<nom::error::Error<&'a str>>,
>)
    ensures
        match r {
            Ok((rest, found)) => {
                &&& input@.len() > 0
                &&& input@[0] == c
                &&& found == c
                &&& rest@ == input@.skip(1)
            },
            Err(_) => input@.len() == 0 || input@[0] != c,
        },
{
    nom::character::complete::char(c)(input)
}

/// `nom::character::complete::anychar`: takes the first character of the
/// input, whatever it is; fails where the input is empty.
#[verifier::external_body]
pub(crate) fn anychar<'a>(input: &'a str) -> (r: Result<
    (&'a str, char),
    nom::Err<nom::error::Error<&'a str>>,
>)
    ensures
        match r {
            Ok((rest, found)) => {
                &&& input@.len() > 0
                &&& found == input@[0]
                &&& rest@ == input@.skip(1)
            },
            Err(_) => input@.len() == 0,
        },
{
    nom::character::complete::anychar(input)
}

/// What a recogniser hands back, with the text that is left seen as its
/// characters.
pub open spec fn outcome<T>(r: Result<(&str, T), ParseError>) -> Result<(Seq<char>, T), ParseError> {
    match r {
        Ok((rest, value)) => Ok((rest@, value)),
        Err(e) => Err(e),
    }
}

/// As `outcome`, where the value is itself a piece of the text.
pub open spec fn text_outcome(r: Result<(&str, &str), ParseError>) -> Result<
    (Seq<char>, Seq<char>),
    ParseError,
> {
    match r {
        Ok((rest, value)) => Ok((rest@, value@)),
        Err(e) => Err(e),
    }
}

/// The number that a decimal digit stands for.
pub open spec fn digit_value(c: char) -> nat {
    (c as u32 - 0x30) as nat
}

/// The number that a sequence of decimal digits denotes. Leading zeros count
/// for nothing, and no digits denote zero.
pub open spec fn decimal_value(s: Seq<char>) -> nat
    decreases s.len(),
{
    if s.len() == 0 {
        0
    } else {
        10 * decimal_value(s.drop_last()) + digit_value(s.last())
    }
}

/// Reading more digits never makes the number smaller.
pub proof fn lemma_decimal_prefix(s: Seq<char>, n: int)
    requires
        0 <= n <= s.len(),
    ensures
        decimal_value(s.take(n)) <= decimal_value(s),
    decreases s.len(),
{
    if n == s.len() {
        assert(s.take(n) =~= s);
    } else {
        assert(s.drop_last().take(n) =~= s.take(n));
        lemma_decimal_prefix(s.drop_last(), n);
    }
}

/// The value of `digits` where it is at most `max`.
pub(crate) fn decimal(digits: &str, max: u64) -> (r: Option<u64>)
    requires
        forall|i: int| 0 <= i < digits@.len() ==> is_digit(#[trigger] digits@[i]),
        max <= u32::MAX,
    ensures
        r == if decimal_value(digits@) <= max {
            Some(decimal_value(digits@) as u64)
        } else {
            None
        },
{
    let mut acc: u64 = 0;
    for c in it: digits.chars()
        invariant
            it.seq() == digits@,
            forall|i: int| 0 <= i < digits@.len() ==> is_digit(#[trigger] digits@[i]),
            max <= u32::MAX,
            acc <= max,
            acc == decimal_value(digits@.take(it.index() as int)),
    {
        proof {
            let k = it.index() as int;
            assert(digits@.take(k + 1).drop_last() =~= digits@.take(k));
            assert(digits@.take(k + 1).last() == c);
            assert(is_digit(digits@[k]));
        }
        let next: u64 = acc * 10 + (c as u32 - 0x30) as u64;
        if next > max {
            proof {
                lemma_decimal_prefix(digits@, it.index() as int + 1);
            }
            return None;
        }
        acc = next;
    }
    assert(digits@.take(digits@.len() as int) =~= digits@);
    Some(acc)
}

/// A decimal number at the start of `s`, no larger than `max`: the digits
/// that `s` starts with, all of them, read as one number.
pub open spec fn spec_number(s: Seq<char>, max: nat) -> Result<(Seq<char>, nat), ParseError> {
    if span_len(s, CharClass::Digit) == 0 {
        Err(ParseError::Digit)
    } else if decimal_value(span(s, CharClass::Digit)) > max {
        Err(ParseError::Overflow)
    } else {
        Ok((after_span(s, CharClass::Digit), decimal_value(span(s, CharClass::Digit))))
    }
}

/// A decimal number at the start of `s` that fits 32 bits without a sign.
pub open spec fn spec_number_u32(s: Seq<char>) -> Result<(Seq<char>, u32), ParseError> {
    match spec_number(s, u32::MAX as nat) {
        Ok((rest, n)) => Ok((rest, n as u32)),
        Err(e) => Err(e),
    }
}

/// A decimal number at the start of `s`, itself without a sign, that fits
/// 32 bits with one.
pub open spec fn spec_number_i32(s: Seq<char>) -> Result<(Seq<char>, i32), ParseError> {
    match spec_number(s, i32::MAX as nat) {
        Ok((rest, n)) => Ok((rest, n as i32)),
        Err(e) => Err(e),
    }
}

/// Reads an unsigned decimal number off the start of the input.
pub fn number_u32<'a>(input: &'a str) -> (r: Result<(&'a str, u32), ParseError>)
    ensures
        outcome(r) == spec_number_u32(input@),
{
    match digit1(input) {
        Ok((rest, digits)) => {
            proof {
                lemma_span(input@, CharClass::Digit);
            }
            match decimal(digits, u32::MAX as u64) {
                Some(n) => Ok((rest, n as u32)),
                None => Err(ParseError::Overflow),
            }
        },
        Err(_) => Err(ParseError::Digit),
    }
}

/// Reads a decimal number without a sign off the start of the input, as far
/// as a signed 32-bit integer can hold it.
pub fn number_i32<'a>(input: &'a str) -> (r: Result<(&'a str, i32), ParseError>)
    ensures
        outcome(r) == spec_number_i32(input@),
{
    match digit1(input) {
        Ok((rest, digits)) => {
            proof {
                lemma_span(input@, CharClass::Digit);
            }
            match decimal(digits, i32::MAX as u64) {
                Some(n) => Ok((rest, n as i32)),
                None => Err(ParseError::Overflow),
            }
        },
        Err(_) => Err(ParseError::Digit),
    }
}

/// A line without the carriage return that may end it.
pub open spec fn without_cr(line: Seq<char>) -> Seq<char> {
    if line.len() > 0 && line.last() == '\r' {
        line.drop_last()
    } else {
        line
    }
}

/// The lines of a text. A line ends at a line feed, which is not part of it,
/// nor is a carriage return directly before that line feed. What follows the
/// last line feed is a line too, unless it is empty.
pub open spec fn spec_lines(s: Seq<char>) -> Seq<Seq<char>>
    decreases s.len(),
{
    if s.len() == 0 {
        Seq::empty()
    } else if span_len(s, CharClass::Line) >= s.len() {
        seq![s]
    } else {
        seq![without_cr(span(s, CharClass::Line))] + spec_lines(
            s.skip(span_len(s, CharClass::Line) as int + 1),
        )
    }
}

/// `str::lines` of std, gathered into a vector: the lines of the text in
/// order, as `spec_lines` defines them.
#[verifier::external_body]
pub(crate) fn lines<'a>(text: &'a str) -> (r: Vec<&'a str>)
    ensures
        r@.len() == spec_lines(text@).len(),
        forall|i: int| 0 <= i < r@.len() ==> (#[trigger] r@[i])@ == spec_lines(text@)[i],
{
    text.lines().collect()
}

/// Where the first blank line of `s` starts, that is two line feeds in a
/// row; the length of `s` where it has none.
pub open spec fn blank_line_at(s: Seq<char>) -> nat
    decreases s.len(),
{
    if s.len() < 2 {
        s.len()
    } else if s[0] == '\n' && s[1] == '\n' {
        0
    } else {
        1 + blank_line_at(s.drop_first())
    }
}

/// A blank line lies inside the text, both of its line feeds.
pub proof fn lemma_blank_line_at(s: Seq<char>)
    ensures
        blank_line_at(s) <= s.len(),
        blank_line_at(s) < s.len() ==> blank_line_at(s) + 2 <= s.len(),
    decreases s.len(),
{
    if s.len() >= 2 && !(s[0] == '\n' && s[1] == '\n') {
        lemma_blank_line_at(s.drop_first());
    }
}

/// The blocks of a text: what stands between its blank lines, before the
/// first and after the last. A text without a blank line is one block.
pub open spec fn spec_blocks(s: Seq<char>) -> Seq<Seq<char>>
    decreases s.len(),
{
    if blank_line_at(s) >= s.len() {
        seq![s]
    } else {
        proof {
            lemma_blank_line_at(s);
        }
        seq![s.take(blank_line_at(s) as int)] + spec_blocks(s.skip(blank_line_at(s) as int + 2))
    }
}

/// `str::split` of std on two line feeds, gathered into a vector: the blocks
/// of the text in order, as `spec_blocks` defines them.
#[verifier::external_body]
pub(crate) fn blocks<'a>(text: &'a str) -> (r: Vec<&'a str>)
    ensures
        r@.len() == spec_blocks(text@).len(),
        forall|i: int| 0 <= i < r@.len() ==> (#[trigger] r@[i])@ == spec_blocks(text@)[i],
{
    text.split("\n\n").collect()
}

} // verus!
