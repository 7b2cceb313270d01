use std::io::BufRead;
use student_records::text::{
    is_digit_char, is_white_space_char, parse_i32, read_digits, sign_len, split,
    split_fields, split_lines, starts_negative, trim, write_i32, write_nat,
};

#[test]
fn parses_plain_and_signed_integers() {
    assert_eq!(parse_i32("12"), Some(12));
    assert_eq!(parse_i32("-5"), Some(-5));
    assert_eq!(parse_i32("+7"), Some(7));
    assert_eq!(parse_i32("007"), Some(7));
    assert_eq!(parse_i32("0"), Some(0));
    assert_eq!(parse_i32("-0"), Some(0));
}

#[test]
fn rejects_what_is_no_integer() {
    assert_eq!(parse_i32(""), None);
    assert_eq!(parse_i32("-"), None);
    assert_eq!(parse_i32("+"), None);
    assert_eq!(parse_i32("1a"), None);
    assert_eq!(parse_i32(" 1"), None);
    assert_eq!(parse_i32("1 "), None);
    assert_eq!(parse_i32("1.0"), None);
    assert_eq!(parse_i32("--1"), None);
    assert_eq!(parse_i32("twenty"), None);
    assert_eq!(parse_i32("١٢"), None);
}

#[test]
fn integer_range_is_that_of_32_bits() {
    assert_eq!(parse_i32("2147483647"), Some(i32::MAX));
    assert_eq!(parse_i32("2147483648"), None);
    assert_eq!(parse_i32("-2147483648"), Some(i32::MIN));
    assert_eq!(parse_i32("-2147483649"), None);
    assert_eq!(parse_i32("99999999999999999999999999"), None);
    assert_eq!(parse_i32("00000000000000000000000001"), Some(1));
}

#[test]
fn integers_agree_with_the_standard_parser() {
    for text in ["12", "-5", "+7", "", "-", "+", "1a", " 1", "2147483648", "-2147483648", "0x1f", "1_000"] {
        assert_eq!(parse_i32(text), text.parse::<i32>().ok(), "{:?}", text);
    }
}

#[test]
fn reads_digits_within_a_range_of_characters() {
    assert_eq!(read_digits("ab123cd", 2, 5, 1000), Some(123));
    assert_eq!(read_digits("ab123cd", 2, 5, 122), None);
    assert_eq!(read_digits("ab123cd", 2, 5, 123), Some(123));
    assert_eq!(read_digits("ab123cd", 1, 5, 1000), None);
    assert_eq!(read_digits("ab123cd", 3, 3, 0), Some(0));
}

#[test]
fn trims_white_space_at_both_ends_only() {
    assert_eq!(trim("  Al ice \t"), "Al ice");
    assert_eq!(trim("Bob"), "Bob");
    assert_eq!(trim(""), "");
    assert_eq!(trim(" \t\r\n"), "");
    assert_eq!(trim("\u{3000}x\u{a0}"), "x");
    assert_eq!(trim("\u{2003}李 雷\u{85}"), "李 雷");
    assert_eq!(trim("\u{200b}x"), "\u{200b}x");
}

#[test]
fn trim_agrees_with_the_standard_one_on_every_white_space_character() {
    for code in 0u32..0x3100 {
        if let Some(c) = char::from_u32(code) {
            let text = format!("{}a{}", c, c);
            assert_eq!(trim(&text), text.trim(), "{:x}", code);
        }
    }
}

#[test]
fn splits_at_every_comma() {
    assert_eq!(split_fields(""), vec![""]);
    assert_eq!(split_fields("abc"), vec!["abc"]);
    assert_eq!(split_fields("a,b"), vec!["a", "b"]);
    assert_eq!(split_fields(",,"), vec!["", "", ""]);
    assert_eq!(split_fields("a,,b,"), vec!["a", "", "b", ""]);
    assert_eq!(split_fields("1,李雷,M,20,1,2,3"), vec!["1", "李雷", "M", "20", "1", "2", "3"]);
}

#[test]
fn writes_integers_in_base_ten() {
    assert_eq!(write_nat(0), "0");
    assert_eq!(write_nat(9), "9");
    assert_eq!(write_nat(10), "10");
    assert_eq!(write_nat(u64::MAX), "18446744073709551615");
    assert_eq!(write_i32(0), "0");
    assert_eq!(write_i32(-1), "-1");
    assert_eq!(write_i32(1234567890), "1234567890");
    assert_eq!(write_i32(i32::MAX), "2147483647");
    assert_eq!(write_i32(i32::MIN), "-2147483648");
}

#[test]
fn a_written_integer_parses_back() {
    for v in [0, 1, -1, 9, 10, -10, 100, 12345, i32::MAX, i32::MIN] {
        assert_eq!(parse_i32(&write_i32(v)), Some(v));
    }
}

#[test]
fn splits_at_any_separator() {
    assert_eq!(split("a;b;;c", ';'), vec!["a", "b", "", "c"]);
    assert_eq!(split("a,b", ';'), vec!["a,b"]);
}

#[test]
fn lines_end_at_line_feeds() {
    assert_eq!(split_lines(""), Vec::<&str>::new());
    assert_eq!(split_lines("a"), vec!["a"]);
    assert_eq!(split_lines("a\n"), vec!["a"]);
    assert_eq!(split_lines("a\nb"), vec!["a", "b"]);
    assert_eq!(split_lines("a\r\nb\r\n"), vec!["a", "b"]);
    assert_eq!(split_lines("a\n\nb\n"), vec!["a", "", "b"]);
    assert_eq!(split_lines("\n"), vec![""]);
    assert_eq!(split_lines("a\rb\r"), vec!["a\rb\r"]);
    assert_eq!(split_lines("a\r\r\nb"), vec!["a\r", "b"]);
}

#[test]
fn lines_agree_with_the_buffered_reader() {
    for content in ["", "a", "a\n", "a\nb", "a\r\nb\r\n", "\n\n", "a\r", "\r\n", "x\r\r\n", "一\n二"] {
        let expected: Vec<String> = content.as_bytes().lines().map(|l| l.unwrap()).collect();
        assert_eq!(split_lines(content), expected, "{:?}", content);
    }
}

#[test]
fn digits_are_the_ten_of_ascii() {
    for code in 0u32..0x3100 {
        if let Some(c) = char::from_u32(code) {
            assert_eq!(is_digit_char(c), c.is_ascii_digit(), "{:x}", code);
        }
    }
}

#[test]
fn white_space_is_that_of_unicode() {
    for code in 0u32..0x11_0000 {
        if let Some(c) = char::from_u32(code) {
            assert_eq!(is_white_space_char(c), c.is_whitespace(), "{:x}", code);
        }
    }
}

#[test]
fn sign_is_one_leading_plus_or_minus() {
    assert_eq!(sign_len(""), 0);
    assert_eq!(sign_len("5"), 0);
    assert_eq!(sign_len("+5"), 1);
    assert_eq!(sign_len("-5"), 1);
    assert_eq!(sign_len("--5"), 1);
    assert!(starts_negative("-5"));
    assert!(!starts_negative("+5"));
    assert!(!starts_negative(""));
    assert!(!starts_negative("5-"));
}
