use alphabet_cache::cache::Persistent;
use alphabet_cache::decimal::{dec_string, parse_u32, parse_usize};

#[test]
fn dec_string_prints_exact_digits() {
    assert_eq!(dec_string(0), "0");
    assert_eq!(dec_string(7), "7");
    assert_eq!(dec_string(10), "10");
    assert_eq!(dec_string(12345), "12345");
}

#[test]
fn parse_usize_accepts_exactly_digit_strings() {
    assert_eq!(parse_usize("0"), Some(0));
    assert_eq!(parse_usize("12345"), Some(12345));
    assert_eq!(parse_usize("007"), Some(7));
    assert_eq!(parse_usize(""), None);
    assert_eq!(parse_usize("12a"), None);
    assert_eq!(parse_usize("-3"), None);
    assert_eq!(parse_usize(" 5"), None);
    assert_eq!(parse_usize("99999999999999999999999999"), None);
}

#[test]
fn parse_u32_respects_the_type_bound() {
    assert_eq!(parse_u32("4294967295"), Some(4294967295));
    assert_eq!(parse_u32("4294967296"), None);
    assert_eq!(parse_u32("26"), Some(26));
}

#[test]
fn char_serialization_round_trips() {
    assert_eq!('a'.serialize(), "a");
    assert_eq!(char::deserialize("a"), Some('a'));
    assert_eq!(char::deserialize(""), None);
    // Only the first character counts; trailing characters are ignored.
    assert_eq!(char::deserialize("ab"), Some('a'));
}

#[test]
fn u32_serialization_round_trips() {
    assert_eq!(7u32.serialize(), "7");
    assert_eq!(26u32.serialize(), "26");
    assert_eq!(u32::deserialize("26"), Some(26));
    assert_eq!(u32::deserialize("042"), Some(42));
    assert_eq!(u32::deserialize(""), None);
    assert_eq!(u32::deserialize("2|6"), None);
}
