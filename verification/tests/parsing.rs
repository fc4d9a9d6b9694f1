use linestats::numbers::parse_value;
use linestats::reduce::read_values;

#[test]
fn values_parse_to_scaled_integers() {
    assert_eq!(parse_value(b"5.0"), Some(50000));
    assert_eq!(parse_value(b"0"), Some(0));
    assert_eq!(parse_value(b"-2.75"), Some(-27500));
    assert_eq!(parse_value(b"+3"), Some(30000));
    assert_eq!(parse_value(b".5"), Some(5000));
    assert_eq!(parse_value(b"2."), Some(20000));
    assert_eq!(parse_value(b"007"), Some(70000));
    // digits beyond the fourth fraction place are read but truncated
    assert_eq!(parse_value(b"1.23456"), Some(12345));
    assert_eq!(parse_value(b"999999999999.9999"), Some(9_999_999_999_999_999));
}

#[test]
fn out_of_grammar_values_are_rejected() {
    assert_eq!(parse_value(b""), None);
    assert_eq!(parse_value(b"."), None);
    assert_eq!(parse_value(b"+"), None);
    assert_eq!(parse_value(b"+."), None);
    assert_eq!(parse_value(b"1e5"), None);
    assert_eq!(parse_value(b"1.2.3"), None);
    assert_eq!(parse_value(b"nan"), None);
    assert_eq!(parse_value(b" 1"), None);
    assert_eq!(parse_value(b"1 "), None);
    // the integer part may not reach a trillion whole units
    assert_eq!(parse_value(b"1000000000000"), None);
    assert_eq!(parse_value(b"999999999999"), Some(9_999_999_999_990_000));
}

#[test]
fn lines_split_at_the_first_delimiter() {
    assert_eq!(read_values(b"A;5.0"), Some((b"A".as_slice(), 50000)));
    assert_eq!(read_values(b";5.0"), Some((b"".as_slice(), 50000)));
    assert_eq!(read_values(b"x;y;1"), None);
    assert_eq!(read_values(b"A"), None);
    assert_eq!(read_values(b"A;"), None);
    assert_eq!(read_values(b";"), None);
    assert_eq!(read_values(b""), None);
}
