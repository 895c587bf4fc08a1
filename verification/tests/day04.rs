use advent2020::day04::{
    solve_a, space_or_newline, till_whitespace, BirthYear, CountryID, ExpirationYear, EyeColor,
    HairColor, Height, HeightUnit, IssueYear, Passport, PassportID,
};
use advent2020::lexer::ParseError;

fn full() -> Passport {
    Passport {
        byr: Some(BirthYear(1990)),
        iyr: Some(IssueYear(2012)),
        eyr: Some(ExpirationYear(2020)),
        hgt: Some(Height(HeightUnit::Cm(172))),
        hcl: Some(HairColor("17106b".to_string())),
        ecl: Some(EyeColor("gry".to_string())),
        pid: Some(PassportID(170)),
        cid: Some(CountryID(123)),
    }
}

#[test]
fn test_space_or_newline() {
    assert_eq!(space_or_newline(" "), Ok(("", " ")));
    assert_eq!(space_or_newline("\n"), Ok(("", "\n")));
}

#[test]
fn test_birth_year() {
    assert_eq!(BirthYear::parse("byr:1234"), Ok(("", BirthYear(1234))));
    assert_eq!(BirthYear::parse("byr:1234 "), Ok((" ", BirthYear(1234))));
    assert!(BirthYear::parse(" byr:1234").is_err());
}

#[test]
fn test_height_parse() {
    assert_eq!(
        Height::parse("hgt:172cm"),
        Ok(("", Height(HeightUnit::Cm(172))))
    );
    assert_eq!(
        Height::parse("hgt:42in"),
        Ok(("", Height(HeightUnit::In(42))))
    );
}

#[test]
fn test_hair_color() {
    assert_eq!(
        HairColor::parse("hcl:#abc"),
        Ok(("", HairColor("#abc".to_string())))
    );
    assert_eq!(
        HairColor::parse("hcl:gry"),
        Ok(("", HairColor("gry".to_string())))
    );
    assert_eq!(
        HairColor::parse("hcl:17106b"),
        Ok(("", HairColor("17106b".to_string())))
    );
}

#[test]
fn test_passport() {
    let p = Passport::new();
    assert!(!p.is_valid());
}

#[test]
fn test_passport_parse() {
    let p =
        Passport::parse("hgt:172cm pid:170 hcl:17106b iyr:2012 ecl:gry cid:123 eyr:2020 byr:1990 ");
    assert_eq!(
        p,
        Passport {
            hgt: Some(Height(HeightUnit::Cm(172))),
            pid: Some(PassportID(170)),
            hcl: Some(HairColor("17106b".to_string())),
            iyr: Some(IssueYear(2012)),
            ecl: Some(EyeColor("gry".to_string())),
            cid: Some(CountryID(123)),
            eyr: Some(ExpirationYear(2020)),
            byr: Some(BirthYear(1990))
        }
    );
}

#[test]
fn test_take_till() {
    assert_eq!(till_whitespace("bla "), Ok((" ", "bla")));
    assert_eq!(till_whitespace("bla"), Ok(("", "bla")));
}

#[test]
fn test_passport_parse2() {
    let input = "hcl:#ae17e1 iyr:2013
eyr:2024
ecl:brn pid:760753108 byr:1931
hgt:179cm
";
    assert_eq!(
        Passport::parse(input),
        Passport {
            hgt: Some(Height(HeightUnit::Cm(179))),
            pid: Some(PassportID(760753108)),
            hcl: Some(HairColor("#ae17e1".to_string())),
            iyr: Some(IssueYear(2013)),
            ecl: Some(EyeColor("brn".to_string())),
            cid: None,
            eyr: Some(ExpirationYear(2024)),
            byr: Some(BirthYear(1931))
        }
    );
    assert!(Passport::parse(input).is_valid());
}

#[test]
fn separator_is_blanks_or_one_line_ending() {
    assert_eq!(space_or_newline(" x"), Ok(("x", " ")));
    assert_eq!(space_or_newline(" \t  x"), Ok(("x", " \t  ")));
    assert_eq!(space_or_newline("\tx"), Ok(("x", "\t")));
    assert_eq!(space_or_newline("\n\nx"), Ok(("\nx", "\n")));
    assert_eq!(space_or_newline("\r\nx"), Ok(("x", "\r\n")));
    assert_eq!(space_or_newline(" \nx"), Ok(("\nx", " ")));
    assert_eq!(space_or_newline("\n x"), Ok((" x", "\n")));
}

#[test]
fn separator_missing() {
    assert_eq!(space_or_newline(""), Err(ParseError::Separator));
    assert_eq!(space_or_newline("x "), Err(ParseError::Separator));
    assert_eq!(space_or_newline("\r"), Err(ParseError::Separator));
    assert_eq!(space_or_newline("\rx\n"), Err(ParseError::Separator));
    assert_eq!(space_or_newline("\u{a0}"), Err(ParseError::Separator));
}

#[test]
fn word_stops_at_any_white_space() {
    assert_eq!(till_whitespace(""), Ok(("", "")));
    assert_eq!(till_whitespace(" bla"), Ok((" bla", "")));
    assert_eq!(till_whitespace("a\nb"), Ok(("\nb", "a")));
    assert_eq!(till_whitespace("a\tb"), Ok(("\tb", "a")));
    assert_eq!(till_whitespace("a\rb"), Ok(("\rb", "a")));
    assert_eq!(till_whitespace("a\u{b}b"), Ok(("\u{b}b", "a")));
    assert_eq!(till_whitespace("a\u{c}b"), Ok(("\u{c}b", "a")));
    assert_eq!(till_whitespace("a\u{85}b"), Ok(("\u{85}b", "a")));
    assert_eq!(till_whitespace("a\u{a0}b"), Ok(("\u{a0}b", "a")));
    assert_eq!(till_whitespace("a\u{1680}b"), Ok(("\u{1680}b", "a")));
    assert_eq!(till_whitespace("a\u{2000}b"), Ok(("\u{2000}b", "a")));
    assert_eq!(till_whitespace("a\u{200a}b"), Ok(("\u{200a}b", "a")));
    assert_eq!(till_whitespace("a\u{2028}b"), Ok(("\u{2028}b", "a")));
    assert_eq!(till_whitespace("a\u{2029}b"), Ok(("\u{2029}b", "a")));
    assert_eq!(till_whitespace("a\u{202f}b"), Ok(("\u{202f}b", "a")));
    assert_eq!(till_whitespace("a\u{205f}b"), Ok(("\u{205f}b", "a")));
    assert_eq!(till_whitespace("a\u{3000}b"), Ok(("\u{3000}b", "a")));
    // Not white space: the zero-width space and its neighbours.
    assert_eq!(till_whitespace("a\u{200b}b c"), Ok((" c", "a\u{200b}b")));
    assert_eq!(till_whitespace("a\u{8}\u{e}\u{1f}\u{180e}\u{feff}"), Ok(("", "a\u{8}\u{e}\u{1f}\u{180e}\u{feff}")));
    assert_eq!(till_whitespace("\u{e9}t\u{e9} x"), Ok((" x", "\u{e9}t\u{e9}")));
}

#[test]
fn number_token_gives_its_number_and_what_follows() {
    assert_eq!(BirthYear::parse("byr:0"), Ok(("", BirthYear(0))));
    assert_eq!(BirthYear::parse("byr:007"), Ok(("", BirthYear(7))));
    assert_eq!(BirthYear::parse("byr:1990 iyr:2012"), Ok((" iyr:2012", BirthYear(1990))));
    assert_eq!(BirthYear::parse("byr:12ab"), Ok(("ab", BirthYear(12))));
    assert_eq!(BirthYear::parse("byr:12\n"), Ok(("\n", BirthYear(12))));
    assert_eq!(BirthYear::parse("byr:4294967295"), Ok(("", BirthYear(u32::MAX))));
    assert_eq!(IssueYear::parse("iyr:2012 "), Ok((" ", IssueYear(2012))));
    assert_eq!(ExpirationYear::parse("eyr:2020x"), Ok(("x", ExpirationYear(2020))));
    assert_eq!(PassportID::parse("pid:760753108"), Ok(("", PassportID(760753108))));
    assert_eq!(PassportID::parse("pid:000000001"), Ok(("", PassportID(1))));
    assert_eq!(CountryID::parse("cid:123:4"), Ok((":4", CountryID(123))));
}

#[test]
fn number_token_errors() {
    assert_eq!(BirthYear::parse(""), Err(ParseError::Tag));
    assert_eq!(BirthYear::parse("by"), Err(ParseError::Tag));
    assert_eq!(BirthYear::parse("iyr:1234"), Err(ParseError::Tag));
    assert_eq!(BirthYear::parse("BYR:1234"), Err(ParseError::Tag));
    assert_eq!(BirthYear::parse("byr"), Err(ParseError::Char));
    assert_eq!(BirthYear::parse("byr 1234"), Err(ParseError::Char));
    assert_eq!(BirthYear::parse("byr:"), Err(ParseError::Digit));
    assert_eq!(BirthYear::parse("byr: 1234"), Err(ParseError::Digit));
    assert_eq!(BirthYear::parse("byr:-1"), Err(ParseError::Digit));
    assert_eq!(BirthYear::parse("byr:+1"), Err(ParseError::Digit));
    assert_eq!(BirthYear::parse("byr:x1"), Err(ParseError::Digit));
    assert_eq!(BirthYear::parse("byr:4294967296"), Err(ParseError::Overflow));
    assert_eq!(BirthYear::parse("byr:99999999999999999999 "), Err(ParseError::Overflow));
    assert_eq!(IssueYear::parse("byr:1"), Err(ParseError::Tag));
    assert_eq!(ExpirationYear::parse("eyr=1"), Err(ParseError::Char));
    assert_eq!(PassportID::parse("pid:#1"), Err(ParseError::Digit));
    assert_eq!(CountryID::parse("cid:4294967296"), Err(ParseError::Overflow));
}

#[test]
fn height_needs_a_unit() {
    assert_eq!(Height::parse("hgt:172"), Err(ParseError::Tag));
    assert_eq!(Height::parse("hgt:172 cm"), Err(ParseError::Tag));
    assert_eq!(Height::parse("hgt:172c"), Err(ParseError::Tag));
    assert_eq!(Height::parse("hgt:172mm"), Err(ParseError::Tag));
    assert_eq!(Height::parse("hgt:172CM"), Err(ParseError::Tag));
    assert_eq!(Height::parse("hgt:cm"), Err(ParseError::Digit));
    assert_eq!(Height::parse("hgt:4294967296cm"), Err(ParseError::Overflow));
    assert_eq!(Height::parse("hgt172cm"), Err(ParseError::Char));
    assert_eq!(Height::parse("hcl:172cm"), Err(ParseError::Tag));
    assert_eq!(HeightUnit::parse("172"), Err(ParseError::Tag));
    assert_eq!(HeightUnit::parse("in"), Err(ParseError::Digit));
}

#[test]
fn height_with_unit() {
    assert_eq!(HeightUnit::parse("172cm"), Ok(("", HeightUnit::Cm(172))));
    assert_eq!(HeightUnit::parse("42in"), Ok(("", HeightUnit::In(42))));
    assert_eq!(HeightUnit::parse("0cmin"), Ok(("in", HeightUnit::Cm(0))));
    assert_eq!(HeightUnit::parse("42inch "), Ok(("ch ", HeightUnit::In(42))));
    assert_eq!(Height::parse("hgt:60in pid:1"), Ok((" pid:1", Height(HeightUnit::In(60)))));
}

#[test]
fn text_token_runs_to_white_space() {
    assert_eq!(HairColor::parse("hcl:#abc ecl:gry"), Ok((" ecl:gry", HairColor("#abc".to_string()))));
    assert_eq!(HairColor::parse("hcl:"), Ok(("", HairColor("".to_string()))));
    assert_eq!(HairColor::parse("hcl: x"), Ok((" x", HairColor("".to_string()))));
    assert_eq!(HairColor::parse("hcl::z\n"), Ok(("\n", HairColor(":z".to_string()))));
    assert_eq!(EyeColor::parse("ecl:gry"), Ok(("", EyeColor("gry".to_string()))));
    assert_eq!(EyeColor::parse("ecl:#\u{e9}\tx"), Ok(("\tx", EyeColor("#\u{e9}".to_string()))));
    assert_eq!(HairColor::parse("ecl:gry"), Err(ParseError::Tag));
    assert_eq!(HairColor::parse("hcl"), Err(ParseError::Char));
    assert_eq!(EyeColor::parse("hcl:gry"), Err(ParseError::Tag));
    assert_eq!(EyeColor::parse("ecl gry"), Err(ParseError::Char));
}

#[test]
fn valid_means_all_but_the_country() {
    assert!(full().is_valid());
    assert!(Passport { cid: None, ..full() }.is_valid());
    assert!(!Passport { byr: None, ..full() }.is_valid());
    assert!(!Passport { iyr: None, ..full() }.is_valid());
    assert!(!Passport { eyr: None, ..full() }.is_valid());
    assert!(!Passport { hgt: None, ..full() }.is_valid());
    assert!(!Passport { hcl: None, ..full() }.is_valid());
    assert!(!Passport { ecl: None, ..full() }.is_valid());
    assert!(!Passport { pid: None, ..full() }.is_valid());
    assert!(!Passport { cid: Some(CountryID(1)), ..Passport::new() }.is_valid());
    assert!(!Passport { pid: None, cid: None, ..full() }.is_valid());
}

#[test]
fn new_passport_is_empty() {
    assert_eq!(
        Passport::new(),
        Passport {
            byr: None,
            iyr: None,
            eyr: None,
            hgt: None,
            hcl: None,
            ecl: None,
            pid: None,
            cid: None
        }
    );
}

#[test]
fn order_of_tokens_makes_no_difference() {
    let tokens = [
        "byr:1990", "iyr:2012", "eyr:2020", "hgt:172cm", "hcl:17106b", "ecl:gry", "pid:170",
        "cid:123",
    ];
    // Every rotation, forwards and backwards, with each kind of separator.
    for start in 0..tokens.len() {
        for separator in [" ", "\n", "\t", "  ", "\r\n"] {
            let mut forwards = String::new();
            let mut backwards = String::new();
            for k in 0..tokens.len() {
                forwards.push_str(tokens[(start + k) % tokens.len()]);
                forwards.push_str(separator);
                backwards.push_str(tokens[(start + tokens.len() - k) % tokens.len()]);
                backwards.push_str(separator);
            }
            assert_eq!(Passport::parse(&forwards), full());
            assert_eq!(Passport::parse(&backwards), full());
        }
    }
    assert_eq!(
        Passport::parse("ecl:gry pid:170 byr:1990\ncid:123 hgt:172cm\niyr:2012 eyr:2020 hcl:17106b"),
        full()
    );
}

#[test]
fn last_token_needs_no_separator() {
    assert_eq!(Passport::parse("byr:1990"), Passport { byr: Some(BirthYear(1990)), ..Passport::new() });
    assert_eq!(
        Passport::parse("byr:1990 pid:170"),
        Passport { byr: Some(BirthYear(1990)), pid: Some(PassportID(170)), ..Passport::new() }
    );
}

#[test]
fn token_that_is_no_field_is_passed_over() {
    let expected = Passport { byr: Some(BirthYear(1990)), pid: Some(PassportID(170)), ..Passport::new() };
    assert_eq!(Passport::parse("byr:1990 xyz:12 pid:170"), expected);
    assert_eq!(Passport::parse("byr:1990 hello pid:170"), expected);
    assert_eq!(Passport::parse("byr:1990 hgt:172 pid:170"), expected);
    assert_eq!(Passport::parse("byr:1990 hgt:172cmx pid:170"), expected);
    assert_eq!(Passport::parse("byr:1990 iyr:20x2 pid:170"), expected);
    assert_eq!(Passport::parse("byr:1990 eyr: pid:170"), expected);
    assert_eq!(Passport::parse("byr:1990 cid:4294967296 pid:170"), expected);
    assert_eq!(Passport::parse("byr:1990 iyr pid:170"), expected);
    assert_eq!(Passport::parse("byr:1990 : pid:170"), expected);
    assert_eq!(Passport::parse("x byr:1990 pid:170 y"), expected);
}

#[test]
fn first_token_for_a_field_stays() {
    assert_eq!(
        Passport::parse("byr:1990 byr:2000"),
        Passport { byr: Some(BirthYear(1990)), ..Passport::new() }
    );
    assert_eq!(
        Passport::parse("hcl:red byr:x hcl:blue hgt:1in hgt:2cm"),
        Passport {
            hcl: Some(HairColor("red".to_string())),
            hgt: Some(Height(HeightUnit::In(1))),
            ..Passport::new()
        }
    );
    // A token that is no field does not take the slot.
    assert_eq!(
        Passport::parse("byr:x byr:2000"),
        Passport { byr: Some(BirthYear(2000)), ..Passport::new() }
    );
}

#[test]
fn block_ends_where_no_token_starts() {
    let one = Passport { byr: Some(BirthYear(1990)), ..Passport::new() };
    assert_eq!(Passport::parse(""), Passport::new());
    assert_eq!(Passport::parse(" byr:1990"), Passport::new());
    assert_eq!(Passport::parse("\nbyr:1990"), Passport::new());
    assert_eq!(Passport::parse("byr:1990\n\npid:170"), one);
    assert_eq!(Passport::parse("byr:1990 \npid:170"), one);
    assert_eq!(Passport::parse("byr:1990\n pid:170"), one);
    assert_eq!(Passport::parse("byr:1990\r\n\r\npid:170"), one);
    // White space that is no separator ends the block too.
    assert_eq!(Passport::parse("byr:1990\rpid:170"), one);
    assert_eq!(Passport::parse("byr:1990\u{a0}pid:170"), one);
    assert_eq!(Passport::parse("byr:1990\u{b}pid:170"), one);
}

#[test]
fn empty_text_value_is_a_value() {
    assert_eq!(
        Passport::parse("hcl: ecl:x"),
        Passport {
            hcl: Some(HairColor("".to_string())),
            ecl: Some(EyeColor("x".to_string())),
            ..Passport::new()
        }
    );
}

#[test]
fn passports_of_a_batch() {
    let batch = "ecl:gry pid:860033327 eyr:2020 hcl:#fffffd
byr:1937 iyr:2017 cid:147 hgt:183cm

iyr:2013 ecl:amb cid:350 eyr:2023 pid:028048884
hcl:#cfa07d byr:1929

hcl:#ae17e1 iyr:2013
eyr:2024
ecl:brn pid:760753108 byr:1931
hgt:179cm

hcl:#cfa07d eyr:2025 pid:166559648
iyr:2011 ecl:brn hgt:59in
";
    let passports = solve_a(batch);
    assert_eq!(passports.len(), 4);
    assert_eq!(
        passports[0],
        Passport {
            byr: Some(BirthYear(1937)),
            iyr: Some(IssueYear(2017)),
            eyr: Some(ExpirationYear(2020)),
            hgt: Some(Height(HeightUnit::Cm(183))),
            hcl: Some(HairColor("#fffffd".to_string())),
            ecl: Some(EyeColor("gry".to_string())),
            pid: Some(PassportID(860033327)),
            cid: Some(CountryID(147)),
        }
    );
    assert_eq!(passports[1].hgt, None);
    assert_eq!(passports[1].pid, Some(PassportID(28048884)));
    assert_eq!(passports[2].cid, None);
    assert_eq!(passports[3].byr, None);
    assert_eq!(passports[3].hgt, Some(Height(HeightUnit::In(59))));
    let valid: Vec<bool> = passports.iter().map(|p| p.is_valid()).collect();
    assert_eq!(valid, vec![true, false, true, false]);
}

#[test]
fn batch_is_cut_at_blank_lines() {
    assert_eq!(solve_a(""), vec![Passport::new()]);
    assert_eq!(solve_a("byr:1\n\n"), vec![
        Passport { byr: Some(BirthYear(1)), ..Passport::new() },
        Passport::new()
    ]);
    assert_eq!(solve_a("byr:1\n\n\nbyr:2"), vec![
        Passport { byr: Some(BirthYear(1)), ..Passport::new() },
        Passport::new()
    ]);
    assert_eq!(solve_a("byr:1\n\n\n\nbyr:2"), vec![
        Passport { byr: Some(BirthYear(1)), ..Passport::new() },
        Passport::new(),
        Passport { byr: Some(BirthYear(2)), ..Passport::new() }
    ]);
    assert_eq!(solve_a("byr:1\nbyr:2"), vec![Passport { byr: Some(BirthYear(1)), ..Passport::new() }]);
}

#[test]
fn order_matters_only_between_different_fields_of_one_key() {
    // The same token twice: any order gives the same passport.
    let expected =
        Passport { byr: Some(BirthYear(1)), pid: Some(PassportID(2)), ..Passport::new() };
    assert_eq!(Passport::parse("byr:1 pid:2 byr:1"), expected);
    assert_eq!(Passport::parse("pid:2 byr:1 byr:1"), expected);
    assert_eq!(Passport::parse("byr:1 byr:01 pid:2"), expected);
    // Two values for one key: the first in the block stays.
    assert_eq!(Passport::parse("byr:1 byr:2").byr, Some(BirthYear(1)));
    assert_eq!(Passport::parse("byr:2 byr:1").byr, Some(BirthYear(2)));
}
