use org3d::bounds::{find_bounds, Corner, GREATEST, LEAST};
use org3d::numbers::{
    decimal_of_i64, decimal_of_u64, hex_of_u64, parse_i64, parse_u16, parse_u32, parse_u64, push_le, read_le,
};
use org3d::text::{
    chars_of, contains_text, ends_with, eq_ignore_ascii_case, find_last, join_runs, only_digits, replace_chars,
    split_chars, split_words, starts_with, string_of, trim_chars, trim_suffix_chars, CharSet,
};
use org3d::unicode::utf8_string;

fn c(s: &str) -> Vec<char> {
    chars_of(s)
}

#[test]
fn white_space_is_that_of_std() {
    for u in 0..=0x10ffffu32 {
        if let Some(ch) = char::from_u32(u) {
            assert_eq!(CharSet::Space.contains(ch), ch.is_whitespace(), "U+{u:04X}");
        }
    }
}

#[test]
fn texts_are_cut_as_in_std() {
    for s in ["", " ", "  a b\u{a0}", "\u{3000}x\u{2029}", "a\t\tb\n"] {
        assert_eq!(string_of(trim_chars(&c(s), CharSet::Space)), s.trim());
        let all = c(s);
        let words: Vec<String> = split_words(&all).iter().map(|w| string_of(w)).collect();
        let expected: Vec<String> = s.split_whitespace().map(str::to_string).collect();
        assert_eq!(words, expected);
    }
    for s in ["", "/", "a/b", "/a//b/"] {
        let all = c(s);
        let pieces: Vec<String> = split_chars(&all, CharSet::Slash).iter().map(|w| string_of(w)).collect();
        let expected: Vec<String> = s.split('/').map(str::to_string).collect();
        assert_eq!(pieces, expected);
        assert_eq!(string_of(&join_runs(&split_chars(&all, CharSet::Slash), '/')), s);
    }
}

#[test]
fn texts_are_searched_as_in_std() {
    for s in ["", "aaa", "abcabc", "ab", "xabx"] {
        let all = c(s);
        assert_eq!(starts_with(&all, "ab"), s.starts_with("ab"));
        assert_eq!(ends_with(&all, "bc"), s.ends_with("bc"));
        assert_eq!(contains_text(&all, "ab"), s.contains("ab"));
        assert_eq!(find_last(&all, "a"), s.rfind('a'));
        assert_eq!(string_of(&replace_chars(&all, "aa", '-')), s.replace("aa", "-"));
        assert_eq!(string_of(trim_suffix_chars(&all, "bc")), s.trim_end_matches("bc"));
    }
    assert!(eq_ignore_ascii_case(&c("ZiP"), "zIp"));
    assert!(!eq_ignore_ascii_case(&c("É"), "é"));
    assert!(only_digits(&c("0189")));
    assert!(only_digits(&c("")));
    assert!(!only_digits(&c("1٣")));
}

#[test]
fn numbers_are_read_as_in_std() {
    for s in [
        "", "0", "007", "+5", "-5", "--5", "+", "-", " 5", "65535", "65536", "4294967295", "4294967296",
        "18446744073709551615", "18446744073709551616", "-9223372036854775808", "-9223372036854775809",
        "9223372036854775807", "99999999999999999999999999", "1e3", "٣",
    ] {
        assert_eq!(parse_u16(&c(s)), s.parse().ok(), "{s:?}");
        assert_eq!(parse_u32(&c(s)), s.parse().ok(), "{s:?}");
        assert_eq!(parse_u64(&c(s)), s.parse().ok(), "{s:?}");
        // std takes a minus sign before zero for signed numbers alone
        assert_eq!(parse_i64(&c(s)), s.parse().ok(), "{s:?}");
    }
}

#[test]
fn numbers_are_written_as_in_std() {
    for n in [0u64, 7, 10, 255, 4294967296, u64::MAX] {
        assert_eq!(decimal_of_u64(n), n.to_string());
        assert_eq!(hex_of_u64(n), format!("{n:x}"));
    }
    for n in [0i64, -1, 42, i64::MIN, i64::MAX] {
        assert_eq!(decimal_of_i64(n), n.to_string());
    }
}

#[test]
fn bytes_make_numbers() {
    let mut out = Vec::new();
    for x in [0u32, 1, 0x12345678, u32::MAX] {
        push_le(&mut out, x);
    }
    assert_eq!(&out[8..12], &0x12345678u32.to_le_bytes());
    assert_eq!(read_le(&out, 8), 0x12345678);
    assert_eq!(read_le(&out, 12), u32::MAX);
}

#[test]
fn utf8_is_checked() {
    assert_eq!(utf8_string("käse".as_bytes()).as_deref(), Some("käse"));
    assert_eq!(utf8_string(b"\xc3"), None);
    assert_eq!(utf8_string(b"\xed\xa0\x80"), None);
}

#[test]
fn boxes_hold_their_points() {
    let p = |x: f64| Corner { x: x.to_bits(), y: 0, z: (-x).to_bits() };
    let b = find_bounds(&[p(1.5), p(-2.0), p(f64::NAN), p(0.0), p(-0.5)]);
    assert_eq!(f64::from_bits(b.low.x), -2.0);
    assert_eq!(f64::from_bits(b.high.x), 1.5);
    assert_eq!(f64::from_bits(b.low.z), -1.5);
    assert_eq!(f64::from_bits(b.high.z), 2.0);
    assert_eq!(b.low.y, 0);
    let none = find_bounds(&[]);
    assert_eq!(none.low.x, GREATEST);
    assert_eq!(none.high.x, LEAST);
    assert_eq!(GREATEST, f64::MAX.to_bits());
    assert_eq!(LEAST, f64::MIN.to_bits());
    let endless = find_bounds(&[p(f64::INFINITY)]);
    assert_eq!(endless.low.x, GREATEST);
    assert_eq!(f64::from_bits(endless.high.x), f64::INFINITY);
}
