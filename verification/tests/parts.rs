use appopt::bytes::{read_i32, read_number, read_u16, ByteOrder};
use appopt::numeral::{decimal_text, i32_text, parse_i32, parse_unsigned, wrapping_sum};
use appopt::text::{
    comes_before, contains_char, contains_text, dots_for_commas, ends_with, head, same,
    second_word, split, starts_with, trim,
};

#[test]
fn numbers_are_read() {
    assert_eq!(parse_unsigned("0", 10), Some(0));
    assert_eq!(parse_unsigned("+10", 10), Some(10));
    assert_eq!(parse_unsigned("11", 10), None);
    assert_eq!(parse_unsigned("", 10), None);
    assert_eq!(parse_unsigned("+", 10), None);
    assert_eq!(parse_unsigned("-1", 10), None);
    assert_eq!(parse_unsigned("18446744073709551615", u64::MAX), Some(u64::MAX));
    assert_eq!(parse_unsigned("18446744073709551616", u64::MAX), None);
    assert_eq!(parse_i32("-2147483648"), Some(i32::MIN));
    assert_eq!(parse_i32("2147483647"), Some(i32::MAX));
    assert_eq!(parse_i32("2147483648"), None);
    assert_eq!(parse_i32("-"), None);
    assert_eq!(parse_i32("--1"), None);
    assert_eq!(parse_i32(" 1"), None);
    assert_eq!(parse_i32("007"), Some(7));
    // As the standard library reads them.
    for s in ["12", "+5", "-0", "x", "1x", "", "-", "+-1", "99999999999"] {
        assert_eq!(parse_i32(s), s.parse::<i32>().ok());
        assert_eq!(parse_unsigned(s, u64::MAX), s.parse::<u64>().ok());
    }
}

#[test]
fn numbers_are_written() {
    assert_eq!(decimal_text(0), "0");
    assert_eq!(decimal_text(u64::MAX), "18446744073709551615");
    assert_eq!(i32_text(i32::MIN), "-2147483648");
    assert_eq!(i32_text(1234), "1234");
    for n in [0, 7, -7, i32::MAX, i32::MIN] {
        assert_eq!(parse_i32(&i32_text(n)), Some(n));
    }
    assert_eq!(wrapping_sum(1000, 5), 1005);
    assert_eq!(wrapping_sum(1000, 2147483647), 1000i32.wrapping_add(2147483647));
}

#[test]
fn bytes_are_read_as_numbers() {
    let b = [1u8, 2, 3, 4, 5, 6, 7, 0xff, 0xff];
    assert_eq!(read_number(&b, 0, 8, ByteOrder::Little), 0xff07060504030201);
    assert_eq!(read_number(&b, 0, 8, ByteOrder::Big), 0x01020304050607ff);
    assert_eq!(read_number(&b, 3, 0, ByteOrder::Big), 0);
    assert_eq!(read_u16(&b, 6, ByteOrder::Little), 0xff07);
    assert_eq!(read_i32(&b, 5, ByteOrder::Little), -63738);
    assert_eq!(read_i32(&b, 0, ByteOrder::Big), 0x01020304);
}

#[test]
fn texts_are_taken_apart() {
    assert_eq!(split("a,,b", ','), vec!["a", "", "b"]);
    assert_eq!(split("", ','), vec![""]);
    assert_eq!(head("a:b:c", ':'), "a");
    assert_eq!(head("abc", ':'), "abc");
    assert_eq!(trim("\u{3000} a b\t\n"), "a b");
    assert_eq!(trim(" \n"), "");
    assert_eq!(second_word("a  b c"), Some(String::from("b")));
    assert_eq!(second_word(" a "), None);
    assert_eq!(dots_for_commas("0-1,4,6"), "0-1.4.6");
    for c in (0u32..0x3100).filter_map(char::from_u32) {
        let s = format!("{}x{}", c, c);
        assert_eq!(trim(&s), s.trim());
    }
}

#[test]
fn texts_are_compared() {
    assert!(same("ab", "ab"));
    assert!(!same("ab", "abc"));
    assert!(starts_with("abc", "ab"));
    assert!(!starts_with("a", "ab"));
    assert!(ends_with("abc", "bc"));
    assert!(!ends_with("abc", "ab"));
    assert!(contains_text("RenderThread", "Thread"));
    assert!(contains_text("x", ""));
    assert!(!contains_text("Rende", "Render"));
    assert!(contains_char("a.b", '.'));
    assert!(!contains_char("ab", '.'));
    for (a, b) in [("0-3", "4"), ("10", "9"), ("4", "4-6"), ("", "0"), ("a", "a"), ("7", "4-6")] {
        assert_eq!(comes_before(a, b), a < b);
        assert_eq!(comes_before(b, a), b < a);
    }
}
