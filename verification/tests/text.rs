//! Texts and numbers, held against the standard library.

use promptrail::le::{read_u16, read_u32, read_u64};
use promptrail::text::{
    chars_of, contains, hex_of_bytes, parse_unsigned, push_decimal, push_hex, same_text,
    split_lines, starts_with, string_of, trim_end, trim_start, white_space,
};

#[test]
fn white_space_as_in_unicode() {
    for c in '\0'..=char::MAX {
        assert_eq!(white_space(c), c.is_whitespace(), "{:?}", c);
    }
}

#[test]
fn lines_as_in_the_standard_library() {
    for text in ["", "\n", "a", "a\n", "a\r\nb\r", "\r\n\r\n", "a\n\nb", "\r", "a\r\r\nb", "\n\r\n x"] {
        let split: Vec<String> =
            split_lines(&chars_of(text)).iter().map(|l| string_of(l)).collect();
        let expected: Vec<&str> = text.lines().collect();
        assert_eq!(split, expected, "{:?}", text);
    }
}

#[test]
fn trimming() {
    for text in ["", " ", "a", " a ", "\t\u{2003}a b\u{a0}\r\n"] {
        let chars = chars_of(text);
        assert_eq!(string_of(trim_end(&chars)), text.trim_end());
        assert_eq!(string_of(trim_start(&chars)), text.trim_start());
    }
}

#[test]
fn searching() {
    assert!(contains(&chars_of("abcabd"), "abd"));
    assert!(contains(&chars_of("abc"), ""));
    assert!(contains(&chars_of(""), ""));
    assert!(!contains(&chars_of("ab"), "abc"));
    assert!(!contains(&chars_of("abcab"), "abd"));
    assert!(same_text("a\u{20ac}", "a\u{20ac}") && !same_text("a", "b") && !same_text("a", "aa"));
    assert!(starts_with("libssl.so.3", "libssl.so.") && starts_with("a", ""));
    assert!(!starts_with("libssl", "libssl.so."));
}

#[test]
fn numbers_to_text_and_back() {
    for n in [0u64, 1, 9, 10, 99, 100, 4096, u32::MAX as u64, u64::MAX] {
        let mut decimal = String::new();
        push_decimal(&mut decimal, n as u128);
        assert_eq!(decimal, n.to_string());
        assert_eq!(parse_unsigned(&decimal, u64::MAX), Some(n));
        let mut hex = "0x".to_owned();
        push_hex(&mut hex, n);
        assert_eq!(hex, format!("0x{:x}", n));
    }
    for text in ["", "+", "-", "+1", "-0", "1 ", "0001", "00000000000000000000001", "\u{663}", "++1"] {
        assert_eq!(parse_unsigned(text, u64::MAX), text.parse::<u64>().ok(), "{:?}", text);
    }
    assert_eq!(parse_unsigned("255", 255), Some(255));
    assert_eq!(parse_unsigned("256", 255), None);
}

#[test]
fn different_bytes_have_different_hex_texts() {
    assert_eq!(hex_of_bytes(&[]), "");
    assert_eq!(hex_of_bytes(&[0x00, 0x0f, 0xf0, 0xab]), "000ff0ab");
    let mut seen = std::collections::HashSet::new();
    for b in 0..=255u8 {
        let text = hex_of_bytes(&[b]);
        assert_eq!(text, format!("{:02x}", b));
        assert!(seen.insert(text));
    }
}

#[test]
fn little_endian_reads() {
    let d = [1u8, 2, 3, 4, 5, 6, 7, 8, 9];
    assert_eq!(read_u16(&d, 0), 0x0201);
    assert_eq!(read_u16(&d, 7), 0x0908);
    assert_eq!(read_u16(&d, 8), 0);
    assert_eq!(read_u32(&d, 5), 0x09080706);
    assert_eq!(read_u32(&d, 6), 0);
    assert_eq!(read_u64(&d, 1), 0x0908070605040302);
    assert_eq!(read_u64(&d, 2), 0);
    assert_eq!(read_u64(&d, usize::MAX), 0);
}
