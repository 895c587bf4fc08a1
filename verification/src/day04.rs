//! Passport records: blocks of `key:value` tokens, in any order, read into a
//! record of typed, optional fields.
//!
//! A block is a run of tokens, each followed by at most one separator: spaces
//! and tabs, or one line ending. It ends where the text ends or where no token
//! starts, as at a blank line. A token that is no well-formed field is passed
//! over and leaves the record as it was; so does a second token for a field
//! that is already set.

use crate::lexer::{
    after_span, blocks, character, decimal_value, is_digit, is_whitespace, lemma_span,
    lemma_span_of_parts, line_ending, line_ending_len, number_u32, outcome, space1, span,
    span_len, spec_blocks, spec_number_u32, tag, take_till_whitespace, text_outcome, CharClass,
    ParseError,
};
use vstd::prelude::*;
use vstd::seq_lib::to_multiset_contains;

verus! {

/// What separates two tokens: a run of spaces and tabs, or else one line
/// ending. The number of characters of it that `s` starts with.
pub open spec fn separator_len(s: Seq<char>) -> nat {
    if span_len(s, CharClass::Blank) > 0 {
        span_len(s, CharClass::Blank)
    } else {
        line_ending_len(s)
    }
}

/// One separator at the start of `s`, and what follows it.
pub open spec fn spec_space_or_newline(s: Seq<char>) -> Result<
    (Seq<char>, Seq<char>),
    ParseError,
> {
    if separator_len(s) == 0 {
        Err(ParseError::Separator)
    } else {
        Ok((s.skip(separator_len(s) as int), s.take(separator_len(s) as int)))
    }
}

/// Takes one separator off the start of the input.
pub fn space_or_newline<'a>(input: &'a str) -> (r: Result<(&'a str, &'a str), ParseError>)
    ensures
        text_outcome(r) == spec_space_or_newline(input@),
{
    match space1(input) {
        Ok(found) => Ok(found),
        Err(_) => match line_ending(input) {
            Ok(found) => Ok(found),
            Err(_) => Err(ParseError::Separator),
        },
    }
}

/// Takes everything up to the first white-space character. This cannot fail,
/// and takes nothing where the input starts with white space.
pub fn till_whitespace<'a>(input: &'a str) -> (r: Result<(&'a str, &'a str), ParseError>)
    ensures
        text_outcome(r) == Ok::<(Seq<char>, Seq<char>), ParseError>(
            (after_span(input@, CharClass::Word), span(input@, CharClass::Word)),
        ),
{
    match take_till_whitespace(input) {
        Ok(found) => Ok(found),
        Err(_) => Err(ParseError::Eof),
    }
}

/// A field's key and the colon behind it, at the start of `s`.
pub open spec fn spec_prefix(key: Seq<char>, s: Seq<char>) -> Result<(Seq<char>, ()), ParseError> {
    if !key.is_prefix_of(s) {
        Err(ParseError::Tag)
    } else if s.len() == key.len() || s[key.len() as int] != ':' {
        Err(ParseError::Char)
    } else {
        Ok((s.skip(key.len() as int + 1), ()))
    }
}

fn prefix<'a>(key: &str, input: &'a str) -> (r: Result<(&'a str, ()), ParseError>)
    ensures
        outcome(r) == spec_prefix(key@, input@),
{
    match tag(key, input) {
        Ok((rest, _)) => match character(':', rest) {
            Ok((rest2, _)) => {
                assert(rest2@ =~= input@.skip(key@.len() as int + 1));
                Ok((rest2, ()))
            },
            Err(_) => Err(ParseError::Char),
        },
        Err(_) => Err(ParseError::Tag),
    }
}

/// A field that holds a number: the key, a colon, and all the digits that
/// follow, which must fit 32 bits.
pub open spec fn spec_number_field(key: Seq<char>, s: Seq<char>) -> Result<
    (Seq<char>, u32),
    ParseError,
> {
    match spec_prefix(key, s) {
        Ok((rest, _)) => spec_number_u32(rest),
        Err(e) => Err(e),
    }
}

fn number_field<'a>(key: &str, input: &'a str) -> (r: Result<(&'a str, u32), ParseError>)
    ensures
        outcome(r) == spec_number_field(key@, input@),
{
    match prefix(key, input) {
        Ok((rest, _)) => number_u32(rest),
        Err(e) => Err(e),
    }
}

/// A field that holds text: the key, a colon, and everything up to the next
/// white space, which may be nothing.
pub open spec fn spec_text_field(key: Seq<char>, s: Seq<char>) -> Result<
    (Seq<char>, Seq<char>),
    ParseError,
> {
    match spec_prefix(key, s) {
        Ok((rest, _)) => Ok((after_span(rest, CharClass::Word), span(rest, CharClass::Word))),
        Err(e) => Err(e),
    }
}

fn text_field<'a>(key: &str, input: &'a str) -> (r: Result<(&'a str, &'a str), ParseError>)
    ensures
        text_outcome(r) == spec_text_field(key@, input@),
{
    match prefix(key, input) {
        Ok((rest, _)) => till_whitespace(rest),
        Err(e) => Err(e),
    }
}

/// The key of the birth year.
pub open spec fn key_byr() -> Seq<char> {
    seq!['b', 'y', 'r']
}

/// The key of the issue year.
pub open spec fn key_iyr() -> Seq<char> {
    seq!['i', 'y', 'r']
}

/// The key of the expiration year.
pub open spec fn key_eyr() -> Seq<char> {
    seq!['e', 'y', 'r']
}

/// The key of the height.
pub open spec fn key_hgt() -> Seq<char> {
    seq!['h', 'g', 't']
}

/// The key of the hair colour.
pub open spec fn key_hcl() -> Seq<char> {
    seq!['h', 'c', 'l']
}

/// The key of the eye colour.
pub open spec fn key_ecl() -> Seq<char> {
    seq!['e', 'c', 'l']
}

/// The key of the passport number.
pub open spec fn key_pid() -> Seq<char> {
    seq!['p', 'i', 'd']
}

/// The key of the country number.
pub open spec fn key_cid() -> Seq<char> {
    seq!['c', 'i', 'd']
}

/// The birth year, the field `byr`.
#[derive(Debug, Clone, Copy, PartialEq, Eq, Structural)]
pub struct BirthYear(pub u32);

impl BirthYear {
    /// The field `byr` at the start of `s`: a number field of that key.
    pub open spec fn spec_parse(s: Seq<char>) -> Result<(Seq<char>, BirthYear), ParseError> {
        match spec_number_field(key_byr(), s) {
            Ok((rest, n)) => Ok((rest, BirthYear(n))),
            Err(e) => Err(e),
        }
    }

    /// Reads the field `byr` off the start of the input.
    pub fn parse<'a>(input: &'a str) -> (r: Result<(&'a str, BirthYear), ParseError>)
        ensures
            outcome(r) == Self::spec_parse(input@),
    {
        proof {
            reveal_strlit("byr");
            assert("byr"@ =~= key_byr());
        }
        match number_field("byr", input) {
            Ok((rest, n)) => Ok((rest, BirthYear(n))),
            Err(e) => Err(e),
        }
    }
}

/// The issue year, the field `iyr`.
#[derive(Debug, Clone, Copy, PartialEq, Eq, Structural)]
pub struct IssueYear(pub u32);

impl IssueYear {
    /// The field `iyr` at the start of `s`: a number field of that key.
    pub open spec fn spec_parse(s: Seq<char>) -> Result<(Seq<char>, IssueYear), ParseError> {
        match spec_number_field(key_iyr(), s) {
            Ok((rest, n)) => Ok((rest, IssueYear(n))),
            Err(e) => Err(e),
        }
    }

    /// Reads the field `iyr` off the start of the input.
    pub fn parse<'a>(input: &'a str) -> (r: Result<(&'a str, IssueYear), ParseError>)
        ensures
            outcome(r) == Self::spec_parse(input@),
    {
        proof {
            reveal_strlit("iyr");
            assert("iyr"@ =~= key_iyr());
        }
        match number_field("iyr", input) {
            Ok((rest, n)) => Ok((rest, IssueYear(n))),
            Err(e) => Err(e),
        }
    }
}

/// The expiration year, the field `eyr`.
#[derive(Debug, Clone, Copy, PartialEq, Eq, Structural)]
pub struct ExpirationYear(pub u32);

impl ExpirationYear {
    /// The field `eyr` at the start of `s`: a number field of that key.
    pub open spec fn spec_parse(s: Seq<char>) -> Result<(Seq<char>, ExpirationYear), ParseError> {
        match spec_number_field(key_eyr(), s) {
            Ok((rest, n)) => Ok((rest, ExpirationYear(n))),
            Err(e) => Err(e),
        }
    }

    /// Reads the field `eyr` off the start of the input.
    pub fn parse<'a>(input: &'a str) -> (r: Result<(&'a str, ExpirationYear), ParseError>)
        ensures
            outcome(r) == Self::spec_parse(input@),
    {
        proof {
            reveal_strlit("eyr");
            assert("eyr"@ =~= key_eyr());
        }
        match number_field("eyr", input) {
            Ok((rest, n)) => Ok((rest, ExpirationYear(n))),
            Err(e) => Err(e),
        }
    }
}

/// A height: a magnitude in centimetres or in inches.
#[derive(Debug, Clone, Copy, PartialEq, Eq, Structural)]
pub enum HeightUnit {
    Cm(u32),
    In(u32),
}

impl HeightUnit {
    /// A number, all of its digits, and directly behind it `cm` or `in`.
    pub open spec fn spec_parse(s: Seq<char>) -> Result<(Seq<char>, HeightUnit), ParseError> {
        match spec_number_u32(s) {
            Ok((rest, n)) => if seq!['c', 'm'].is_prefix_of(rest) {
                Ok((rest.skip(2), HeightUnit::Cm(n)))
            } else if seq!['i', 'n'].is_prefix_of(rest) {
                Ok((rest.skip(2), HeightUnit::In(n)))
            } else {
                Err(ParseError::Tag)
            },
            Err(e) => Err(e),
        }
    }

    /// Reads a magnitude and its unit off the start of the input.
    pub fn parse<'a>(input: &'a str) -> (r: Result<(&'a str, HeightUnit), ParseError>)
        ensures
            outcome(r) == Self::spec_parse(input@),
    {
        proof {
            reveal_strlit("cm");
            reveal_strlit("in");
            assert("cm"@ =~= seq!['c', 'm']);
            assert("in"@ =~= seq!['i', 'n']);
        }
        match number_u32(input) {
            Ok((rest, n)) => match tag("cm", rest) {
                Ok((rest2, _)) => Ok((rest2, HeightUnit::Cm(n))),
                Err(_) => match tag("in", rest) {
                    Ok((rest2, _)) => Ok((rest2, HeightUnit::In(n))),
                    Err(_) => Err(ParseError::Tag),
                },
            },
            Err(e) => Err(e),
        }
    }
}

/// The height, the field `hgt`.
#[derive(Debug, Clone, Copy, PartialEq, Eq, Structural)]
pub struct Height(pub HeightUnit);

impl Height {
    /// The field `hgt` at the start of `s`: the key, a colon, and a magnitude
    /// with its unit.
    pub open spec fn spec_parse(s: Seq<char>) -> Result<(Seq<char>, Height), ParseError> {
        match spec_prefix(key_hgt(), s) {
            Ok((rest, _)) => match HeightUnit::spec_parse(rest) {
                Ok((rest2, h)) => Ok((rest2, Height(h))),
                Err(e) => Err(e),
            },
            Err(e) => Err(e),
        }
    }

    /// Reads the field `hgt` off the start of the input.
    pub fn parse<'a>(input: &'a str) -> (r: Result<(&'a str, Height), ParseError>)
        ensures
            outcome(r) == Self::spec_parse(input@),
    {
        proof {
            reveal_strlit("hgt");
            assert("hgt"@ =~= key_hgt());
        }
        match prefix("hgt", input) {
            Ok((rest, _)) => match HeightUnit::parse(rest) {
                Ok((rest2, h)) => Ok((rest2, Height(h))),
                Err(e) => Err(e),
            },
            Err(e) => Err(e),
        }
    }
}

/// The hair colour, the field `hcl`: any text.
#[derive(Debug, Clone, PartialEq)]
pub struct HairColor(pub String);

impl View for HairColor {
    type V = Seq<char>;

    open spec fn view(&self) -> Seq<char> {
        self.0@
    }
}

/// What a recogniser of a text-valued field hands back, seen as characters.
pub open spec fn viewed_outcome<T: View<V = Seq<char>>>(r: Result<(&str, T), ParseError>) -> Result<
    (Seq<char>, Seq<char>),
    ParseError,
> {
    match r {
        Ok((rest, value)) => Ok((rest@, value@)),
        Err(e) => Err(e),
    }
}

impl HairColor {
    /// Reads the field `hcl` off the start of the input: a text field of
    /// that key.
    pub fn parse<'a>(input: &'a str) -> (r: Result<(&'a str, HairColor), ParseError>)
        ensures
            viewed_outcome(r) == spec_text_field(key_hcl(), input@),
    {
        proof {
            reveal_strlit("hcl");
            assert("hcl"@ =~= key_hcl());
        }
        match text_field("hcl", input) {
            Ok((rest, text)) => Ok((rest, HairColor(text.to_owned()))),
            Err(e) => Err(e),
        }
    }
}

/// The eye colour, the field `ecl`: any text.
#[derive(Debug, Clone, PartialEq)]
pub struct EyeColor(pub String);

impl View for EyeColor {
    type V = Seq<char>;

    open spec fn view(&self) -> Seq<char> {
        self.0@
    }
}

impl EyeColor {
    /// Reads the field `ecl` off the start of the input: a text field of
    /// that key.
    pub fn parse<'a>(input: &'a str) -> (r: Result<(&'a str, EyeColor), ParseError>)
        ensures
            viewed_outcome(r) == spec_text_field(key_ecl(), input@),
    {
        proof {
            reveal_strlit("ecl");
            assert("ecl"@ =~= key_ecl());
        }
        match text_field("ecl", input) {
            Ok((rest, text)) => Ok((rest, EyeColor(text.to_owned()))),
            Err(e) => Err(e),
        }
    }
}

/// The passport number, the field `pid`.
#[derive(Debug, Clone, Copy, PartialEq, Eq, Structural)]
pub struct PassportID(pub u32);

impl PassportID {
    /// The field `pid` at the start of `s`: a number field of that key.
    pub open spec fn spec_parse(s: Seq<char>) -> Result<(Seq<char>, PassportID), ParseError> {
        match spec_number_field(key_pid(), s) {
            Ok((rest, n)) => Ok((rest, PassportID(n))),
            Err(e) => Err(e),
        }
    }

    /// Reads the field `pid` off the start of the input.
    pub fn parse<'a>(input: &'a str) -> (r: Result<(&'a str, PassportID), ParseError>)
        ensures
            outcome(r) == Self::spec_parse(input@),
    {
        proof {
            reveal_strlit("pid");
            assert("pid"@ =~= key_pid());
        }
        match number_field("pid", input) {
            Ok((rest, n)) => Ok((rest, PassportID(n))),
            Err(e) => Err(e),
        }
    }
}

/// The country number, the field `cid`.
#[derive(Debug, Clone, Copy, PartialEq, Eq, Structural)]
pub struct CountryID(pub u32);

impl CountryID {
    /// The field `cid` at the start of `s`: a number field of that key.
    pub open spec fn spec_parse(s: Seq<char>) -> Result<(Seq<char>, CountryID), ParseError> {
        match spec_number_field(key_cid(), s) {
            Ok((rest, n)) => Ok((rest, CountryID(n))),
            Err(e) => Err(e),
        }
    }

    /// Reads the field `cid` off the start of the input.
    pub fn parse<'a>(input: &'a str) -> (r: Result<(&'a str, CountryID), ParseError>)
        ensures
            outcome(r) == Self::spec_parse(input@),
    {
        proof {
            reveal_strlit("cid");
            assert("cid"@ =~= key_cid());
        }
        match number_field("cid", input) {
            Ok((rest, n)) => Ok((rest, CountryID(n))),
            Err(e) => Err(e),
        }
    }
}

/// One field of a record, as a token gives it.
pub enum Field {
    Byr(u32),
    Iyr(u32),
    Eyr(u32),
    Hgt(HeightUnit),
    Hcl(Seq<char>),
    Ecl(Seq<char>),
    Pid(u32),
    Cid(u32),
}

/// The keys that a record has a slot for.
pub enum Key {
    Byr,
    Iyr,
    Eyr,
    Hgt,
    Hcl,
    Ecl,
    Pid,
    Cid,
}

impl Field {
    /// The slot that the field goes to.
    pub open spec fn key(self) -> Key {
        match self {
            Field::Byr(_) => Key::Byr,
            Field::Iyr(_) => Key::Iyr,
            Field::Eyr(_) => Key::Eyr,
            Field::Hgt(_) => Key::Hgt,
            Field::Hcl(_) => Key::Hcl,
            Field::Ecl(_) => Key::Ecl,
            Field::Pid(_) => Key::Pid,
            Field::Cid(_) => Key::Cid,
        }
    }
}

/// The value of a recogniser that took all of the text, if it did.
pub open spec fn whole<T>(r: Result<(Seq<char>, T), ParseError>) -> Option<T> {
    match r {
        Ok((rest, value)) => if rest.len() == 0 {
            Some(value)
        } else {
            None
        },
        Err(_) => None,
    }
}

/// The field that a token is, if it is one: the token, all of it, has to be
/// a field of one of the eight keys.
pub open spec fn spec_field(token: Seq<char>) -> Option<Field> {
    if let Some(n) = whole(spec_number_field(key_byr(), token)) {
        Some(Field::Byr(n))
    } else if let Some(n) = whole(spec_number_field(key_iyr(), token)) {
        Some(Field::Iyr(n))
    } else if let Some(n) = whole(spec_number_field(key_eyr(), token)) {
        Some(Field::Eyr(n))
    } else if let Some(Height(h)) = whole(Height::spec_parse(token)) {
        Some(Field::Hgt(h))
    } else if let Some(text) = whole(spec_text_field(key_hcl(), token)) {
        Some(Field::Hcl(text))
    } else if let Some(text) = whole(spec_text_field(key_ecl(), token)) {
        Some(Field::Ecl(text))
    } else if let Some(n) = whole(spec_number_field(key_pid(), token)) {
        Some(Field::Pid(n))
    } else if let Some(n) = whole(spec_number_field(key_cid(), token)) {
        Some(Field::Cid(n))
    } else {
        None
    }
}

/// What a passport holds: for each key a value of that key's type, or none.
pub struct Record {
    pub byr: Option<u32>,
    pub iyr: Option<u32>,
    pub eyr: Option<u32>,
    pub hgt: Option<HeightUnit>,
    pub hcl: Option<Seq<char>>,
    pub ecl: Option<Seq<char>>,
    pub pid: Option<u32>,
    pub cid: Option<u32>,
}

impl Record {
    /// The record with no slot filled.
    pub open spec fn empty() -> Record {
        Record {
            byr: None,
            iyr: None,
            eyr: None,
            hgt: None,
            hcl: None,
            ecl: None,
            pid: None,
            cid: None,
        }
    }

    /// The field in the slot of `key`, if the slot is filled.
    pub open spec fn get(self, key: Key) -> Option<Field> {
        match key {
            Key::Byr => match self.byr {
                Some(n) => Some(Field::Byr(n)),
                None => None,
            },
            Key::Iyr => match self.iyr {
                Some(n) => Some(Field::Iyr(n)),
                None => None,
            },
            Key::Eyr => match self.eyr {
                Some(n) => Some(Field::Eyr(n)),
                None => None,
            },
            Key::Hgt => match self.hgt {
                Some(h) => Some(Field::Hgt(h)),
                None => None,
            },
            Key::Hcl => match self.hcl {
                Some(text) => Some(Field::Hcl(text)),
                None => None,
            },
            Key::Ecl => match self.ecl {
                Some(text) => Some(Field::Ecl(text)),
                None => None,
            },
            Key::Pid => match self.pid {
                Some(n) => Some(Field::Pid(n)),
                None => None,
            },
            Key::Cid => match self.cid {
                Some(n) => Some(Field::Cid(n)),
                None => None,
            },
        }
    }

    /// The record with `field` in its slot, where that slot was free; the
    /// record as it is, where it was not.
    pub open spec fn put(self, field: Field) -> Record {
        if self.get(field.key()) is Some {
            self
        } else {
            match field {
                Field::Byr(n) => Record { byr: Some(n), ..self },
                Field::Iyr(n) => Record { iyr: Some(n), ..self },
                Field::Eyr(n) => Record { eyr: Some(n), ..self },
                Field::Hgt(h) => Record { hgt: Some(h), ..self },
                Field::Hcl(text) => Record { hcl: Some(text), ..self },
                Field::Ecl(text) => Record { ecl: Some(text), ..self },
                Field::Pid(n) => Record { pid: Some(n), ..self },
                Field::Cid(n) => Record { cid: Some(n), ..self },
            }
        }
    }

    /// The record after one more token.
    pub open spec fn absorb(self, token: Seq<char>) -> Record {
        match spec_field(token) {
            Some(field) => self.put(field),
            None => self,
        }
    }

    /// The record after `tokens`, taken from first to last.
    pub open spec fn absorb_all(self, tokens: Seq<Seq<char>>) -> Record
        decreases tokens.len(),
    {
        if tokens.len() == 0 {
            self
        } else {
            self.absorb(tokens[0]).absorb_all(tokens.drop_first())
        }
    }

    /// Every key but `cid` has a value.
    pub open spec fn is_valid(self) -> bool {
        &&& self.byr is Some
        &&& self.iyr is Some
        &&& self.eyr is Some
        &&& self.hgt is Some
        &&& self.hcl is Some
        &&& self.ecl is Some
        &&& self.pid is Some
    }
}

/// The tokens of the block that `s` starts with.
pub open spec fn block_tokens(s: Seq<char>) -> Seq<Seq<char>>
    decreases s.len(),
{
    let word = span(s, CharClass::Word);
    let rest = after_span(s, CharClass::Word);
    if word.len() == 0 {
        Seq::empty()
    } else if separator_len(rest) == 0 {
        seq![word]
    } else {
        proof {
            lemma_span(s, CharClass::Word);
            lemma_span(rest, CharClass::Blank);
        }
        seq![word] + block_tokens(rest.skip(separator_len(rest) as int))
    }
}

/// The record that the block at the start of `s` denotes.
pub open spec fn spec_record(s: Seq<char>) -> Record {
    Record::empty().absorb_all(block_tokens(s))
}

/// A passport: what a block of tokens says of its holder. Its view is the
/// record of plain values.
#[derive(Debug, Clone, PartialEq)]
pub struct Passport {
    pub byr: Option<BirthYear>,
    pub iyr: Option<IssueYear>,
    pub eyr: Option<ExpirationYear>,
    pub hgt: Option<Height>,
    pub hcl: Option<HairColor>,
    pub ecl: Option<EyeColor>,
    pub pid: Option<PassportID>,
    pub cid: Option<CountryID>,
}

impl View for Passport {
    type V = Record;

    open spec fn view(&self) -> Record {
        Record {
            byr: match self.byr {
                Some(BirthYear(n)) => Some(n),
                None => None,
            },
            iyr: match self.iyr {
                Some(IssueYear(n)) => Some(n),
                None => None,
            },
            eyr: match self.eyr {
                Some(ExpirationYear(n)) => Some(n),
                None => None,
            },
            hgt: match self.hgt {
                Some(Height(h)) => Some(h),
                None => None,
            },
            hcl: match self.hcl {
                Some(color) => Some(color@),
                None => None,
            },
            ecl: match self.ecl {
                Some(color) => Some(color@),
                None => None,
            },
            pid: match self.pid {
                Some(PassportID(n)) => Some(n),
                None => None,
            },
            cid: match self.cid {
                Some(CountryID(n)) => Some(n),
                None => None,
            },
        }
    }
}

impl Passport {
    /// The passport with no field set.
    pub fn new() -> (p: Passport)
        ensures
            p@ == Record::empty(),
    {
        Passport {
            byr: None,
            iyr: None,
            eyr: None,
            hgt: None,
            hcl: None,
            ecl: None,
            pid: None,
            cid: None,
        }
    }

    /// Takes one token into the passport.
    fn absorb(&mut self, token: &str)
        ensures
            final(self)@ == old(self)@.absorb(token@),
    {
        if let Ok((rest, v)) = BirthYear::parse(token) {
            if rest.is_empty() {
                if self.byr.is_none() {
                    self.byr = Some(v);
                }
                return ;
            }
        }
        if let Ok((rest, v)) = IssueYear::parse(token) {
            if rest.is_empty() {
                if self.iyr.is_none() {
                    self.iyr = Some(v);
                }
                return ;
            }
        }
        if let Ok((rest, v)) = ExpirationYear::parse(token) {
            if rest.is_empty() {
                if self.eyr.is_none() {
                    self.eyr = Some(v);
                }
                return ;
            }
        }
        if let Ok((rest, v)) = Height::parse(token) {
            if rest.is_empty() {
                if self.hgt.is_none() {
                    self.hgt = Some(v);
                }
                return ;
            }
        }
        if let Ok((rest, v)) = HairColor::parse(token) {
            if rest.is_empty() {
                if self.hcl.is_none() {
                    self.hcl = Some(v);
                }
                return ;
            }
        }
        if let Ok((rest, v)) = EyeColor::parse(token) {
            if rest.is_empty() {
                if self.ecl.is_none() {
                    self.ecl = Some(v);
                }
                return ;
            }
        }
        if let Ok((rest, v)) = PassportID::parse(token) {
            if rest.is_empty() {
                if self.pid.is_none() {
                    self.pid = Some(v);
                }
                return ;
            }
        }
        if let Ok((rest, v)) = CountryID::parse(token) {
            if rest.is_empty() {
                if self.cid.is_none() {
                    self.cid = Some(v);
                }
                return ;
            }
        }
    }

    /// Reads the block at the start of the input into a passport.
    pub fn parse(input: &str) -> (p: Passport)
        ensures
            p@ == spec_record(input@),
    {
        let mut passport = Passport::new();
        let mut cur = input;
        loop
            invariant_except_break
                passport@.absorb_all(block_tokens(cur@)) == spec_record(input@),
            ensures
                passport@ == spec_record(input@),
            decreases cur@.len(),
        {
            let ghost tokens = block_tokens(cur@);
            let (rest, word) = match till_whitespace(cur) {
                Ok(found) => found,
                Err(_) => { break ; },
            };
            if word.is_empty() {
                break ;
            }
            proof {
                lemma_span(cur@, CharClass::Word);
                lemma_span(rest@, CharClass::Blank);
            }
            let ghost before = passport@;
            passport.absorb(word);
            assert(tokens[0] == word@);
            assert(before.absorb_all(tokens) == passport@.absorb_all(tokens.drop_first()));
            match space_or_newline(rest) {
                Ok((next, _)) => {
                    assert(tokens.drop_first() =~= block_tokens(next@));
                    cur = next;
                },
                Err(_) => {
                    assert(tokens.drop_first() =~= Seq::<Seq<char>>::empty());
                    break ;
                },
            }
        }
        passport
    }

    /// Whether every field but the country is set.
    pub fn is_valid(&self) -> (b: bool)
        ensures
            b == self@.is_valid(),
    {
        self.byr.is_some() && self.iyr.is_some() && self.eyr.is_some() && self.hgt.is_some()
            && self.hcl.is_some() && self.ecl.is_some() && self.pid.is_some()
    }
}

/// The passports of a text, one to a block.
pub fn solve_a(text: &str) -> (passports: Vec<Passport>)
    ensures
        passports@.len() == spec_blocks(text@).len(),
        forall|i: int|
            0 <= i < passports@.len() ==> (#[trigger] passports@[i])@ == spec_record(
                spec_blocks(text@)[i],
            ),
{
    let parts = blocks(text);
    let mut passports: Vec<Passport> = Vec::new();
    let mut n: usize = 0;
    while n < parts.len()
        invariant
            n <= parts.len(),
            parts@.len() == spec_blocks(text@).len(),
            forall|i: int|
                0 <= i < parts@.len() ==> (#[trigger] parts@[i])@ == spec_blocks(text@)[i],
            passports@.len() == n,
            forall|i: int|
                0 <= i < n ==> (#[trigger] passports@[i])@ == spec_record(spec_blocks(text@)[i]),
        decreases parts.len() - n,
    {
        let passport = Passport::parse(parts[n]);
        assert(parts@[n as int]@ == spec_blocks(text@)[n as int]);
        passports.push(passport);
        n = n + 1;
    }
    passports
}

/// A token made of a key, a colon and the digits of a number that fits 32
/// bits is read as that number, and what follows the digits is what is left.
pub proof fn lemma_number_token(key: Seq<char>, digits: Seq<char>, rest: Seq<char>)
    requires
        digits.len() > 0,
        forall|i: int| 0 <= i < digits.len() ==> is_digit(#[trigger] digits[i]),
        decimal_value(digits) <= u32::MAX,
        rest.len() > 0 ==> !is_digit(rest[0]),
    ensures
        spec_number_field(key, key + seq![':'] + digits + rest) == Ok::<
            (Seq<char>, u32),
            ParseError,
        >((rest, decimal_value(digits) as u32)),
{
    let s = key + seq![':'] + digits + rest;
    assert(key =~= s.subrange(0, key.len() as int));
    assert(s[key.len() as int] == ':');
    assert(s.skip(key.len() as int + 1) =~= digits + rest);
    lemma_span_of_parts(digits, rest, CharClass::Digit);
}

/// Whether the country is set has no part in whether a record is valid.
pub proof fn lemma_country_is_optional(record: Record, cid: Option<u32>)
    ensures
        (Record { cid, ..record }).is_valid() == record.is_valid(),
{
}

/// The first field for `key` among the tokens, if there is one.
pub open spec fn first_field(tokens: Seq<Seq<char>>, key: Key) -> Option<Field>
    decreases tokens.len(),
{
    if tokens.len() == 0 {
        None
    } else if spec_field(tokens[0]) is Some && spec_field(tokens[0])->0.key() == key {
        spec_field(tokens[0])
    } else {
        first_field(tokens.drop_first(), key)
    }
}

/// No two of the tokens are different fields of one key.
pub open spec fn agreeing(tokens: Seq<Seq<char>>) -> bool {
    forall|i: int, j: int|
        {
            &&& 0 <= i < tokens.len()
            &&& 0 <= j < tokens.len()
            &&& (#[trigger] spec_field(tokens[i])) is Some
            &&& (#[trigger] spec_field(tokens[j])) is Some
            &&& spec_field(tokens[i])->0.key() == spec_field(tokens[j])->0.key()
        } ==> spec_field(tokens[i]) == spec_field(tokens[j])
}

/// A slot that is filled stays as it is; a free one takes the first field
/// that the tokens have for it.
proof fn lemma_absorbed(record: Record, tokens: Seq<Seq<char>>, key: Key)
    ensures
        record.absorb_all(tokens).get(key) == if record.get(key) is Some {
            record.get(key)
        } else {
            first_field(tokens, key)
        },
    decreases tokens.len(),
{
    if tokens.len() > 0 {
        lemma_absorbed(record.absorb(tokens[0]), tokens.drop_first(), key);
    }
}

/// The first field for a key is the field of one of the tokens, and there is
/// one as soon as a token is a field of that key.
proof fn lemma_first_field(tokens: Seq<Seq<char>>, key: Key)
    ensures
        first_field(tokens, key) matches Some(field) ==> field.key() == key && exists|i: int|
            0 <= i < tokens.len() && #[trigger] spec_field(tokens[i]) == Some(field),
        forall|i: int|
            0 <= i < tokens.len() && (#[trigger] spec_field(tokens[i])) is Some && spec_field(
                tokens[i],
            )->0.key() == key ==> first_field(tokens, key) is Some,
    decreases tokens.len(),
{
    if tokens.len() > 0 {
        let rest = tokens.drop_first();
        lemma_first_field(rest, key);
        if spec_field(tokens[0]) is Some && spec_field(tokens[0])->0.key() == key {
            assert(spec_field(tokens[0]) == first_field(tokens, key));
        } else {
            if first_field(rest, key) is Some {
                let field = first_field(rest, key)->0;
                let i = choose|i: int|
                    0 <= i < rest.len() && #[trigger] spec_field(rest[i]) == Some(field);
                assert(rest[i] == tokens[i + 1]);
                assert(spec_field(tokens[i + 1]) == Some(field));
            }
            assert forall|i: int|
                0 <= i < tokens.len() && (#[trigger] spec_field(tokens[i])) is Some && spec_field(
                    tokens[i],
                )->0.key() == key implies first_field(tokens, key) is Some by {
                assert(i > 0);
                assert(rest[i - 1] == tokens[i]);
                assert(spec_field(rest[i - 1]) is Some);
            }
        }
    }
}

/// Tokens in another order give the same first field for a key, where no two
/// of them are different fields of one key.
proof fn lemma_first_field_of_reordered(a: Seq<Seq<char>>, b: Seq<Seq<char>>, key: Key)
    requires
        a.to_multiset() == b.to_multiset(),
        agreeing(a),
    ensures
        first_field(a, key) == first_field(b, key),
{
    lemma_first_field(a, key);
    lemma_first_field(b, key);
    if first_field(b, key) is Some {
        let g = first_field(b, key)->0;
        let j = choose|j: int| 0 <= j < b.len() && #[trigger] spec_field(b[j]) == Some(g);
        assert(b.contains(b[j]));
        to_multiset_contains(b, b[j]);
        to_multiset_contains(a, b[j]);
        let i = choose|i: int| 0 <= i < a.len() && a[i] == b[j];
        assert(spec_field(a[i]) == Some(g));
        let f = first_field(a, key)->0;
        let i2 = choose|i2: int| 0 <= i2 < a.len() && #[trigger] spec_field(a[i2]) == Some(f);
        assert(spec_field(a[i]) == spec_field(a[i2]));
    } else {
        if first_field(a, key) is Some {
            let f = first_field(a, key)->0;
            let i = choose|i: int| 0 <= i < a.len() && #[trigger] spec_field(a[i]) == Some(f);
            assert(a.contains(a[i]));
            to_multiset_contains(a, a[i]);
            to_multiset_contains(b, a[i]);
            let j = choose|j: int| 0 <= j < b.len() && b[j] == a[i];
            assert(spec_field(b[j]) == Some(f));
        }
    }
}

/// The order of the tokens of a block makes no difference to its record,
/// where no two of the tokens are different fields of one key.
pub proof fn lemma_token_order(a: Seq<Seq<char>>, b: Seq<Seq<char>>)
    requires
        a.to_multiset() == b.to_multiset(),
        agreeing(a),
    ensures
        Record::empty().absorb_all(a) == Record::empty().absorb_all(b),
{
    let ra = Record::empty().absorb_all(a);
    let rb = Record::empty().absorb_all(b);
    assert forall|key: Key| ra.get(key) == rb.get(key) by {
        lemma_absorbed(Record::empty(), a, key);
        lemma_absorbed(Record::empty(), b, key);
        lemma_first_field_of_reordered(a, b, key);
    }
    assert(ra.get(Key::Byr) == rb.get(Key::Byr));
    assert(ra.get(Key::Iyr) == rb.get(Key::Iyr));
    assert(ra.get(Key::Eyr) == rb.get(Key::Eyr));
    assert(ra.get(Key::Hgt) == rb.get(Key::Hgt));
    assert(ra.get(Key::Hcl) == rb.get(Key::Hcl));
    assert(ra.get(Key::Ecl) == rb.get(Key::Ecl));
    assert(ra.get(Key::Pid) == rb.get(Key::Pid));
    assert(ra.get(Key::Cid) == rb.get(Key::Cid));
}

/// A token as it can stand in a block: not empty, and free of white space.
pub open spec fn is_word(token: Seq<char>) -> bool {
    token.len() > 0 && forall|i: int| 0 <= i < token.len() ==> !is_whitespace(#[trigger] token[i])
}

/// The block that holds the tokens in their order, a space behind each.
pub open spec fn spaced(tokens: Seq<Seq<char>>) -> Seq<char>
    decreases tokens.len(),
{
    if tokens.len() == 0 {
        Seq::empty()
    } else {
        tokens[0] + seq![' '] + spaced(tokens.drop_first())
    }
}

/// A block that is written out from tokens is read back as those tokens.
pub proof fn lemma_tokens_of_spaced(tokens: Seq<Seq<char>>)
    requires
        forall|i: int| 0 <= i < tokens.len() ==> is_word(#[trigger] tokens[i]),
    ensures
        block_tokens(spaced(tokens)) == tokens,
    decreases tokens.len(),
{
    if tokens.len() > 0 {
        let first = tokens[0];
        let others = tokens.drop_first();
        let tail = seq![' '] + spaced(others);
        assert(is_word(first));
        assert forall|i: int| 0 <= i < others.len() implies is_word(#[trigger] others[i]) by {
            assert(others[i] == tokens[i + 1]);
        }
        lemma_tokens_of_spaced(others);
        assert(spaced(tokens) =~= first + tail);
        assert(tail[0] == ' ');
        lemma_span_of_parts(first, tail, CharClass::Word);
        if others.len() > 0 {
            assert(is_word(others[0]));
            assert(spaced(others)[0] == others[0][0]);
        }
        lemma_span_of_parts(seq![' '], spaced(others), CharClass::Blank);
        assert(tail.skip(1) =~= spaced(others));
        assert(seq![first] + others =~= tokens);
    }
}

/// A block denotes the same record whatever the order of its tokens, where
/// no two of them are different fields of one key.
pub proof fn lemma_block_order(a: Seq<Seq<char>>, b: Seq<Seq<char>>)
    requires
        a.to_multiset() == b.to_multiset(),
        agreeing(a),
        forall|i: int| 0 <= i < a.len() ==> is_word(#[trigger] a[i]),
    ensures
        spec_record(spaced(a)) == spec_record(spaced(b)),
{
    assert forall|j: int| 0 <= j < b.len() implies is_word(#[trigger] b[j]) by {
        assert(b.contains(b[j]));
        to_multiset_contains(b, b[j]);
        to_multiset_contains(a, b[j]);
        let i = choose|i: int| 0 <= i < a.len() && a[i] == b[j];
        assert(is_word(a[i]));
    }
    lemma_tokens_of_spaced(a);
    lemma_tokens_of_spaced(b);
    lemma_token_order(a, b);
}

} // verus!
