//! The text helpers: splitting, trimming and decimal round trips.
use cadastre::strutil::{i64_to_string, parse_i64, split_once_whitespace, to_char};

#[test]
fn splits_at_the_first_whitespace_run() {
    assert_eq!(
        split_once_whitespace("a 3"),
        Some(("a".to_string(), "3".to_string()))
    );
    assert_eq!(
        split_once_whitespace("  key   the rest stays whole  "),
        Some(("key".to_string(), "the rest stays whole".to_string()))
    );
    assert_eq!(split_once_whitespace("lonely"), None);
    assert_eq!(split_once_whitespace("   "), None);
    assert_eq!(split_once_whitespace(""), None);
}

#[test]
fn to_char_accepts_exactly_one_character() {
    assert_eq!(to_char("x"), Some('x'));
    assert_eq!(to_char("π"), Some('π'));
    assert_eq!(to_char(""), None);
    assert_eq!(to_char("ab"), None);
}

#[test]
fn decimal_parsing_matches_the_standard_parser() {
    assert_eq!(parse_i64("0"), Some(0));
    assert_eq!(parse_i64("-412"), Some(-412));
    assert_eq!(parse_i64("+7"), Some(7));
    assert_eq!(parse_i64("007"), Some(7));
    assert_eq!(parse_i64("9223372036854775807"), Some(i64::MAX));
    assert_eq!(parse_i64("-9223372036854775808"), Some(i64::MIN));
    assert_eq!(parse_i64("9223372036854775808"), None);
    assert_eq!(parse_i64("-9223372036854775809"), None);
    assert_eq!(parse_i64(""), None);
    assert_eq!(parse_i64("-"), None);
    assert_eq!(parse_i64("1 2"), None);
    assert_eq!(parse_i64("12a"), None);
}

#[test]
fn decimal_formatting_round_trips() {
    assert_eq!(i64_to_string(0), "0");
    assert_eq!(i64_to_string(-3), "-3");
    assert_eq!(i64_to_string(i64::MIN), "-9223372036854775808");
    assert_eq!(i64_to_string(i64::MAX), "9223372036854775807");
    for n in [0i64, 1, -1, 42, -99999, i64::MIN, i64::MAX] {
        assert_eq!(parse_i64(&i64_to_string(n)), Some(n));
    }
}
