use shamir::args::{get_int_args, is_space_char, parse_i64};
use shamir::error::Error;

fn strings(items: &[&str]) -> Vec<String> {
    items.iter().map(|s| s.to_string()).collect()
}

#[test]
fn three_plain_arguments() {
    assert_eq!(get_int_args(strings(&["1234", "6", "3"])), Ok(vec![1234, 6, 3]));
}

#[test]
fn no_argument_gives_no_integer() {
    assert_eq!(get_int_args(Vec::new()), Ok(Vec::new()));
}

#[test]
fn signs_and_white_space_are_accepted() {
    assert_eq!(get_int_args(strings(&[" 42 ", "-5", "+3", "\t7\n", "007"])), Ok(vec![42, -5, 3, 7, 7]));
}

#[test]
fn one_bad_argument_makes_the_input_malformed() {
    assert_eq!(get_int_args(strings(&["1", "two", "3"])), Err(Error::MalformedInput));
    assert_eq!(get_int_args(strings(&["1", "2", ""])), Err(Error::MalformedInput));
    assert_eq!(get_int_args(strings(&["1.5"])), Err(Error::MalformedInput));
}

#[test]
fn parse_plain_numbers() {
    assert_eq!(parse_i64("0"), Some(0));
    assert_eq!(parse_i64("42"), Some(42));
    assert_eq!(parse_i64("-42"), Some(-42));
    assert_eq!(parse_i64("+42"), Some(42));
    assert_eq!(parse_i64("-0"), Some(0));
    assert_eq!(parse_i64("0000000000000000000000000000000012"), Some(12));
}

#[test]
fn parse_the_ends_of_the_range() {
    assert_eq!(parse_i64("9223372036854775807"), Some(i64::MAX));
    assert_eq!(parse_i64("-9223372036854775808"), Some(i64::MIN));
    assert_eq!(parse_i64("+9223372036854775807"), Some(i64::MAX));
    assert_eq!(parse_i64("9223372036854775808"), None);
    assert_eq!(parse_i64("-9223372036854775809"), None);
    assert_eq!(parse_i64("99999999999999999999999999999999999999999999"), None);
    assert_eq!(parse_i64("-99999999999999999999999999999999999999999999"), None);
}

#[test]
fn parse_rejects_what_is_no_integer() {
    for s in ["", " ", "+", "-", "--5", "+-5", "5-", "1 2", "12a", "a12", "1.0", "0x10", "1e3", "٣", "- 5"] {
        assert_eq!(parse_i64(s), None, "{:?}", s);
    }
}

#[test]
fn parse_trims_unicode_white_space() {
    assert_eq!(parse_i64("\u{2003}12\u{00A0}"), Some(12));
    assert_eq!(parse_i64("\u{3000}-7\u{2028}\u{2029}"), Some(-7));
    assert_eq!(parse_i64("\u{0085}\u{1680}5\u{202F}\u{205F}"), Some(5));
    assert_eq!(parse_i64("\r\n 5 \x0B\x0C"), Some(5));
    assert_eq!(parse_i64("\u{200B}5"), None);
}

#[test]
fn parse_agrees_with_the_standard_library() {
    let samples = [
        "0", "1", "-1", "+1", " 1", "1 ", " +1 ", "- 1", "", "  ", "+", "-", "12345678901234567890",
        "9223372036854775807", "9223372036854775808", "-9223372036854775808",
        "-9223372036854775809", "00", "-00", "+00", "1_000", "１２", "\u{00A0}3", "3\u{00A0}4",
        "\n\n-17\t", "++1", "1+", "abc", "2147483647", "-2147483648", "\u{feff}1",
    ];
    for s in samples.iter() {
        assert_eq!(parse_i64(s), s.trim().parse::<i64>().ok(), "{:?}", s);
    }
}

#[test]
fn white_space_agrees_with_the_standard_library() {
    for v in 0u32..=0x10FFFF {
        if let Some(c) = char::from_u32(v) {
            assert_eq!(is_space_char(c), c.is_whitespace(), "U+{:04X}", v);
        }
    }
}
