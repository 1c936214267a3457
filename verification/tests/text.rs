//! Text building blocks, held against the standard library.

use hls_probe::text::{
    chars_of, leading_word, parse_number, push_decimal, push_decimals, push_digits, push_left,
    push_right, push_right_decimal, same, slice_text, space, trimmed,
};

#[test]
fn white_space_is_unicode_white_space() {
    for n in 0u32..=0x10ffff {
        if let Some(c) = char::from_u32(n) {
            assert_eq!(space(c), c.is_whitespace(), "{n:x}");
        }
    }
}

#[test]
fn trims_both_ends() {
    for s in ["", " ", "a", " a ", "\t a b \u{2003}", "\u{a0}x\n", "no", "x  "] {
        let chars = chars_of(s);
        assert_eq!(trimmed(&chars, 0, chars.len()), s.trim());
    }
    let chars = chars_of("a b c");
    assert_eq!(slice_text(&chars, 2, 3), "b");
    assert_eq!(trimmed(&chars, 1, 4), "b");
}

#[test]
fn decimal_numbers() {
    for n in [0u128, 1, 9, 10, 99, 100, 12_345, u64::MAX as u128, u128::MAX] {
        let mut s = "x".to_string();
        push_decimal(&mut s, n);
        assert_eq!(s, format!("x{n}"));
    }
    let mut s = String::new();
    push_digits(&mut s, 1_042, 3);
    assert_eq!(s, "042");
    let mut s = String::new();
    push_decimals(&mut s, 1_042, 2);
    assert_eq!(s, "10.42");
    let mut s = String::new();
    push_decimals(&mut s, 7, 0);
    assert_eq!(s, "7");
}

#[test]
fn padding() {
    for t in ["", "a", "abc", "caf\u{e9}", "abcdef"] {
        let mut s = "|".to_string();
        push_right(&mut s, t, 4);
        assert_eq!(s, format!("|{t:>4}"));
        let mut s = "|".to_string();
        push_left(&mut s, t, 4);
        assert_eq!(s, format!("|{t:<4}"));
    }
    let mut s = String::new();
    push_right_decimal(&mut s, 7, 2);
    assert_eq!(s, " 7");
}

#[test]
fn first_words() {
    for s in ["TCP_HIT from x", "  a b", "one", "\u{2003}\tz", "a\u{85}b"] {
        assert_eq!(leading_word(s), s.split_whitespace().next().unwrap());
    }
    assert_eq!(leading_word(""), "");
    assert_eq!(leading_word(" \t "), "");
}

#[test]
fn numbers_parse_as_in_the_standard_library() {
    for s in [
        "", "0", "4", "007", "+5", "+", "-1", "-0", "1x", " 1", "1 ", "++1", "\u{663}",
        "18446744073709551615", "18446744073709551616", "00018446744073709551615",
        "99999999999999999999999", "1844674407370955161600",
    ] {
        assert_eq!(parse_number(s), s.parse::<u64>().ok(), "{s}");
    }
}

#[test]
fn equality_of_texts() {
    assert!(same("a", "a"));
    assert!(!same("a", "b"));
    assert!(!same("a", "aa"));
}

#[test]
fn written_numbers_read_back() {
    for n in [0u64, 7, 10, 4_294_967_296, u64::MAX] {
        let mut s = String::new();
        push_decimal(&mut s, n as u128);
        assert_eq!(parse_number(&s), Some(n));
    }
}
