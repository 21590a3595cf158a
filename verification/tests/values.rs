use chronotheus::numeric::{compare_value, format_fixed3, fmt_i64, fmt_u128, parse_i64, parse_millis, percent_value};

#[test]
fn formats_whole_numbers_with_three_decimals() {
    assert_eq!(format_fixed3("1"), "1.000");
    assert_eq!(format_fixed3("5"), "5.000");
    assert_eq!(format_fixed3("0"), "0.000");
    assert_eq!(format_fixed3("-7"), "-7.000");
}

#[test]
fn formats_fractions() {
    assert_eq!(format_fixed3("2.5"), "2.500");
    assert_eq!(format_fixed3(".5"), "0.500");
    assert_eq!(format_fixed3("3."), "3.000");
    assert_eq!(format_fixed3("+1.25"), "1.250");
}

#[test]
fn rounds_the_fourth_decimal_half_away_from_zero() {
    assert_eq!(format_fixed3("0.1255"), "0.126");
    assert_eq!(format_fixed3("0.1254"), "0.125");
    assert_eq!(format_fixed3("-0.1255"), "-0.126");
}

#[test]
fn unparsable_values_read_as_zero() {
    assert_eq!(format_fixed3(""), "0.000");
    assert_eq!(format_fixed3("abc"), "0.000");
    assert_eq!(format_fixed3("1.2.3"), "0.000");
    assert_eq!(format_fixed3("-"), "0.000");
    assert_eq!(format_fixed3("."), "0.000");
}

#[test]
fn compare_subtracts() {
    assert_eq!(compare_value("5", "3"), "2.000");
    assert_eq!(compare_value("3", "5"), "-2.000");
    assert_eq!(compare_value("1.5", "0.25"), "1.250");
    assert_eq!(compare_value("bad", "1"), "-1.000");
}

#[test]
fn percent_computes_relative_change() {
    assert_eq!(percent_value("150", "100"), "50.000");
    assert_eq!(percent_value("50", "100"), "-50.000");
    assert_eq!(percent_value("3", "2"), "50.000");
}

#[test]
fn percent_of_zero_average_is_zero() {
    assert_eq!(percent_value("7", "0"), "0.000");
    assert_eq!(percent_value("7", "0.0"), "0.000");
    assert_eq!(percent_value("-123.4", "0.000"), "0.000");
    assert_eq!(percent_value("9", "junk"), "0.000");
}

#[test]
fn integer_parsing_matches_the_grammar() {
    assert_eq!(parse_i64("100"), Some(100));
    assert_eq!(parse_i64("-42"), Some(-42));
    assert_eq!(parse_i64("+7"), Some(7));
    assert_eq!(parse_i64(""), None);
    assert_eq!(parse_i64("12a"), None);
    assert_eq!(parse_i64("9223372036854775807"), Some(i64::MAX));
    assert_eq!(parse_i64("-9223372036854775808"), Some(i64::MIN));
    assert_eq!(parse_i64("9223372036854775808"), None);
}

#[test]
fn integer_formatting_round_trips() {
    assert_eq!(fmt_i64(0), "0");
    assert_eq!(fmt_i64(604800), "604800");
    assert_eq!(fmt_i64(-15), "-15");
    assert_eq!(fmt_i64(i64::MIN), "-9223372036854775808");
    assert_eq!(fmt_u128(12345), "12345");
}

#[test]
fn milli_parsing_is_exact() {
    assert_eq!(parse_millis("1"), 1000);
    assert_eq!(parse_millis("-2.75"), -2750);
    assert_eq!(parse_millis("0.0005"), 1);
    assert_eq!(parse_millis("not a number"), 0);
}
