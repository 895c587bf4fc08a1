use advent2020::day01::{
    find_2020_triple, find_2020_tuple, integer, read_numbers, solve_a, solve_b, TARGET,
};
use advent2020::lexer::ParseError;

const REPORT: &str = "1721\n979\n366\n299\n675\n1456\n";

#[test]
fn pair_of_the_sample_report() {
    let found = find_2020_tuple(vec![1721, 979, 366, 299, 675, 1456]);
    assert_eq!(found, Some((1721, 299)));
    let (a, b) = found.unwrap();
    assert_eq!(a + b, TARGET);
    assert_eq!(a * b, 514579);
}

#[test]
fn triple_of_the_sample_report() {
    let found = find_2020_triple(vec![1721, 979, 366, 299, 675, 1456]);
    assert_eq!(found, Some((979, 366, 675)));
    let (a, b, c) = found.unwrap();
    assert_eq!(a + b + c, TARGET);
    assert_eq!(a * b * c, 241861950);
}

#[test]
fn pair_is_the_first_of_the_scan() {
    // (1, 0) and (3, 2) both add up; the scan meets (1, 0) first.
    assert_eq!(find_2020_tuple(vec![2000, 20, 1010, 1010]), Some((2000, 20)));
    // Entry 2 pairs with entry 0 before it pairs with entry 1.
    assert_eq!(find_2020_tuple(vec![1000, 1000, 1020]), Some((1000, 1020)));
    assert_eq!(find_2020_tuple(vec![3, 2017, 2017]), Some((3, 2017)));
    assert_eq!(find_2020_tuple(vec![2017, 4, 3]), Some((2017, 3)));
}

#[test]
fn triple_is_the_first_of_the_scan() {
    assert_eq!(find_2020_triple(vec![2000, 10, 10, 0, 2010]), Some((2000, 10, 10)));
    assert_eq!(find_2020_triple(vec![1, 2, 2017, 2017]), Some((1, 2, 2017)));
    assert_eq!(find_2020_triple(vec![2017, 0, 1, 2, 3]), Some((2017, 1, 2)));
}

#[test]
fn nothing_found_where_nothing_adds_up() {
    assert_eq!(find_2020_tuple(vec![]), None);
    assert_eq!(find_2020_tuple(vec![2020]), None);
    assert_eq!(find_2020_tuple(vec![1, 2, 3]), None);
    assert_eq!(find_2020_triple(vec![]), None);
    assert_eq!(find_2020_triple(vec![2000, 20]), None);
    assert_eq!(find_2020_triple(vec![1, 2, 3, 4]), None);
}

#[test]
fn an_entry_is_not_paired_with_itself() {
    assert_eq!(find_2020_tuple(vec![1010]), None);
    assert_eq!(find_2020_tuple(vec![1010, 1010]), Some((1010, 1010)));
}

#[test]
fn sums_do_not_wrap() {
    // 2 * i32::MIN + 2020 wraps to 2020 in 32 bits; the true sum is far off.
    assert_eq!(find_2020_tuple(vec![i32::MIN, i32::MIN + 2020]), None);
    assert_eq!(find_2020_triple(vec![i32::MIN, i32::MIN, 2020]), None);
    assert_eq!(find_2020_tuple(vec![i32::MAX, 2020 - i32::MAX]), Some((i32::MAX, 2020 - i32::MAX)));
}

#[test]
fn integers_with_and_without_sign() {
    assert_eq!(integer("0"), Ok(0));
    assert_eq!(integer("1721"), Ok(1721));
    assert_eq!(integer("+5"), Ok(5));
    assert_eq!(integer("-3"), Ok(-3));
    assert_eq!(integer("-0"), Ok(0));
    assert_eq!(integer("007"), Ok(7));
    assert_eq!(integer("2147483647"), Ok(i32::MAX));
    assert_eq!(integer("-2147483648"), Ok(i32::MIN));
}

#[test]
fn integers_that_are_none() {
    assert_eq!(integer(""), Err(ParseError::Digit));
    assert_eq!(integer("-"), Err(ParseError::Digit));
    assert_eq!(integer("+"), Err(ParseError::Digit));
    assert_eq!(integer(" 5"), Err(ParseError::Digit));
    assert_eq!(integer("x"), Err(ParseError::Digit));
    assert_eq!(integer("--5"), Err(ParseError::Digit));
    assert_eq!(integer("12a"), Err(ParseError::Symbol));
    assert_eq!(integer("5 "), Err(ParseError::Symbol));
    assert_eq!(integer("2147483648"), Err(ParseError::Overflow));
    assert_eq!(integer("-2147483649"), Err(ParseError::Overflow));
    assert_eq!(integer("99999999999999999999999"), Err(ParseError::Overflow));
}

#[test]
fn numbers_of_a_report() {
    assert_eq!(read_numbers(REPORT), Ok(vec![1721, 979, 366, 299, 675, 1456]));
    assert_eq!(read_numbers("1\r\n-2\r\n3"), Ok(vec![1, -2, 3]));
    assert_eq!(read_numbers(""), Ok(vec![]));
}

#[test]
fn first_bad_line_decides_the_error() {
    assert_eq!(read_numbers("1\n\n3"), Err(ParseError::Digit));
    assert_eq!(read_numbers("1\n2x\n\n"), Err(ParseError::Symbol));
    assert_eq!(read_numbers("4294967296\nx"), Err(ParseError::Overflow));
    assert_eq!(read_numbers("\n"), Err(ParseError::Digit));
}

#[test]
fn product_of_the_pair() {
    assert_eq!(solve_a(REPORT), Ok(Some(514579)));
    assert_eq!(solve_a("1\n2\n3\n"), Ok(None));
    assert_eq!(solve_a("1\nx\n"), Err(ParseError::Digit));
    // Too large for 32 bits.
    assert_eq!(
        solve_a("2147483647\n-2147481627\n"),
        Ok(Some(2147483647i64 * -2147481627i64))
    );
}

#[test]
fn product_of_the_triple() {
    assert_eq!(solve_b(REPORT), Ok(Some(((979, 366, 675), 241861950))));
    assert_eq!(solve_b("1\n2\n3\n"), Ok(None));
    assert_eq!(solve_b("1\n2 \n"), Err(ParseError::Symbol));
    // Too large for 64 bits.
    assert_eq!(
        solve_b("2147483647\n-2147483648\n2021\n"),
        Ok(Some(((2147483647, -2147483648, 2021), 2021i128 * -2147483648i128 * 2147483647i128)))
    );

}
