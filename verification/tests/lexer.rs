use advent2020::lexer::{is_whitespace_char, number_i32, number_u32, ParseError};

#[test]
fn white_space_characters() {
    let white = [
        '\t', '\n', '\u{b}', '\u{c}', '\r', ' ', '\u{85}', '\u{a0}', '\u{1680}', '\u{2000}',
        '\u{2001}', '\u{2002}', '\u{2003}', '\u{2004}', '\u{2005}', '\u{2006}', '\u{2007}',
        '\u{2008}', '\u{2009}', '\u{200a}', '\u{2028}', '\u{2029}', '\u{202f}', '\u{205f}',
        '\u{3000}',
    ];
    for c in white {
        assert!(is_whitespace_char(c));
    }
    for c in ['a', '0', '#', ':', '\0', '\u{8}', '\u{e}', '\u{1f}', '\u{7f}', '\u{84}', '\u{86}',
        '\u{180e}', '\u{1fff}', '\u{200b}', '\u{2027}', '\u{202a}', '\u{2060}', '\u{2fff}',
        '\u{3001}', '\u{feff}', '\u{10ffff}']
    {
        assert!(!is_whitespace_char(c));
    }
}

#[test]
fn white_space_agrees_with_the_standard_library() {
    for code in 0..=0x10ffffu32 {
        if let Some(c) = char::from_u32(code) {
            assert_eq!(is_whitespace_char(c), c.is_whitespace());
        }
    }
}

#[test]
fn unsigned_number_takes_all_the_digits() {
    assert_eq!(number_u32("416"), Ok(("", 416)));
    assert_eq!(number_u32("12b"), Ok(("b", 12)));
    assert_eq!(number_u32("0012 3"), Ok((" 3", 12)));
    assert_eq!(number_u32("4294967295"), Ok(("", u32::MAX)));
    assert_eq!(number_u32("00000000004294967295."), Ok((".", u32::MAX)));
    assert_eq!(number_u32("9\u{663}"), Ok(("\u{663}", 9)));
}

#[test]
fn unsigned_number_errors() {
    assert_eq!(number_u32(""), Err(ParseError::Digit));
    assert_eq!(number_u32("b"), Err(ParseError::Digit));
    assert_eq!(number_u32("+1"), Err(ParseError::Digit));
    assert_eq!(number_u32("\u{663}"), Err(ParseError::Digit));
    assert_eq!(number_u32("4294967296"), Err(ParseError::Overflow));
    assert_eq!(number_u32("42949672950"), Err(ParseError::Overflow));
    assert_eq!(number_u32("18446744073709551616"), Err(ParseError::Overflow));
    assert_eq!(number_u32("340282366920938463463374607431768211456x"), Err(ParseError::Overflow));
}

#[test]
fn number_within_a_signed_type() {
    assert_eq!(number_i32("2147483647"), Ok(("", i32::MAX)));
    assert_eq!(number_i32("2147483648"), Err(ParseError::Overflow));
    assert_eq!(number_i32("7-9"), Ok(("-9", 7)));
}
