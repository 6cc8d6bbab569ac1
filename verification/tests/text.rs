//! Tests of the text primitives.
use ringdl::text::{
    eq_ignore_ascii_case, find, parse_trimmed_u64, push_decimal, rfind, same_text, to_chars,
};

fn decimal_text(n: u64) -> String {
    let mut out = String::new();
    push_decimal(&mut out, n);
    out
}

fn number(s: &str) -> Option<u64> {
    parse_trimmed_u64(&to_chars(s), 0)
}

#[test]
fn decimal_matches_formatting() {
    for n in [0u64, 7, 9, 10, 99, 100, 443, 65535, 104857600, u64::MAX - 1, u64::MAX] {
        assert_eq!(decimal_text(n), format!("{}", n));
    }
}

#[test]
fn decimal_is_appended() {
    let mut out = String::from("port ");
    push_decimal(&mut out, 8080);
    assert_eq!(out, "port 8080");
}

#[test]
fn decimal_round_trip() {
    for n in [0u64, 1, 10, 18446744073709551614, u64::MAX] {
        assert_eq!(number(&decimal_text(n)), Some(n));
    }
}

#[test]
fn numbers_are_read_like_the_standard_library_reads_them() {
    let cases = [
        "", " ", "0", "00012", "+5", "+", "-1", "12a", "1 2", "18446744073709551615",
        "18446744073709551616", "99999999999999999999999", " 42 ", "\t42\r\n", "\u{a0}42\u{3000}",
        "\u{200b}42", "*", "４２", "++1",
    ];
    for case in cases {
        assert_eq!(number(case), case.trim().parse::<u64>().ok(), "{:?}", case);
    }
}

#[test]
fn white_space_is_trimmed_like_the_standard_library_trims_it() {
    for u in 0u32..0x11000 {
        if let Some(c) = char::from_u32(u) {
            let s = format!("{}7{}", c, c);
            assert_eq!(number(&s), s.trim().parse::<u64>().ok(), "{:?}", s);
        }
    }
}

#[test]
fn number_from_the_middle() {
    let chars = to_chars("bytes 0-0/ 1000 ");
    assert_eq!(parse_trimmed_u64(&chars, 10), Some(1000));
    assert_eq!(parse_trimmed_u64(&chars, chars.len()), None);
}

#[test]
fn ascii_case_is_ignored() {
    assert!(eq_ignore_ascii_case("Content-Length", "cONTENT-lENGTH"));
    assert!(!eq_ignore_ascii_case("Content-Length", "Content-Lengt"));
    assert!(!eq_ignore_ascii_case("Content-Length", "Content_Length"));
    assert!(!eq_ignore_ascii_case("É", "é"));
    assert!(!eq_ignore_ascii_case("[", "{"));
    assert!(eq_ignore_ascii_case("", ""));
}

#[test]
fn positions_are_found() {
    let chars = to_chars("/a/b?c/d");
    assert_eq!(find(&chars, '/'), Some(0));
    assert_eq!(find(&chars, '?'), Some(4));
    assert_eq!(find(&chars, '#'), None);
    assert_eq!(rfind(&chars, 4, '/'), Some(2));
    assert_eq!(rfind(&chars, 8, '/'), Some(6));
    assert_eq!(rfind(&chars, 0, '/'), None);
}

#[test]
fn texts_are_compared() {
    assert!(same_text("https", "https"));
    assert!(!same_text("https", "http"));
    assert!(!same_text("HTTPS", "https"));
}
