use authenticator::number::{i64_text, parse_i64_chars, u64_text, zero_padded_text};
use authenticator::text::{chars_of, is_blank_text, is_whitespace_char, str_eq_ignore_ascii_case, string_of, trim_bounds, without_white_space};

#[test]
fn whitespace_matches_std_for_every_char() {
    for code in 0u32..=0x10FFFF {
        if let Some(c) = char::from_u32(code) {
            assert_eq!(is_whitespace_char(c), c.is_whitespace(), "char {:#x}", code);
        }
    }
}

#[test]
fn trim_bounds_matches_str_trim() {
    for s in ["", "   ", " a ", "\tab c\n", "\u{3000}x\u{2009}", "abc", "a b", " \u{85} z"] {
        let cs: Vec<char> = s.chars().collect();
        let (a, b) = trim_bounds(&cs, 0, cs.len());
        let got: String = cs[a..b].iter().collect();
        assert_eq!(got, s.trim());
    }
}

#[test]
fn removing_white_space() {
    let cs: Vec<char> = " j b\ts\nw ".chars().collect();
    let kept: String = without_white_space(&cs).into_iter().collect();
    assert_eq!(kept, "jbsw");
}

#[test]
fn blank_text() {
    assert!(is_blank_text(""));
    assert!(is_blank_text(" \t\n\u{A0}"));
    assert!(!is_blank_text(" x "));
}

#[test]
fn chars_and_strings_round_trip() {
    let s = "héllo wörld ✓";
    let cs = chars_of(s);
    assert_eq!(cs.len(), s.chars().count());
    assert_eq!(string_of(&cs), s);
}

#[test]
fn ignore_ascii_case_equality() {
    assert!(str_eq_ignore_ascii_case("GitHub", "github"));
    assert!(str_eq_ignore_ascii_case("", ""));
    assert!(!str_eq_ignore_ascii_case("Straße", "STRASSE"));
    assert!(!str_eq_ignore_ascii_case("é", "É"));
    assert!(!str_eq_ignore_ascii_case("ab", "abc"));
    for (a, b) in [("Abc", "aBC"), ("x1", "X1"), ("[", "{"), ("@", "`")] {
        assert_eq!(str_eq_ignore_ascii_case(a, b), a.eq_ignore_ascii_case(b));
    }
}

#[test]
fn decimal_texts() {
    assert_eq!(u64_text(0), "0");
    assert_eq!(u64_text(1234567890), "1234567890");
    assert_eq!(u64_text(u64::MAX), u64::MAX.to_string());
    assert_eq!(i64_text(-5), "-5");
    assert_eq!(i64_text(0), "0");
    assert_eq!(i64_text(i64::MIN), i64::MIN.to_string());
    assert_eq!(i64_text(i64::MAX), i64::MAX.to_string());
}

#[test]
fn zero_padding() {
    assert_eq!(zero_padded_text(7, 4), "0007");
    assert_eq!(zero_padded_text(12345, 4), "12345");
    assert_eq!(zero_padded_text(0, 0), "0");
    assert_eq!(zero_padded_text(42, 6), format!("{:0>6}", 42));
}

#[test]
fn parsing_i64_matches_std() {
    let cases = [
        "", "+", "-", "0", "-0", "+5", "42", "007", "12a", " 1", "1 ", "--1", "+-1",
        "9223372036854775807", "9223372036854775808", "-9223372036854775808",
        "-9223372036854775809", "99999999999999999999", "\u{663}", "1700000000000",
    ];
    for s in cases {
        let cs: Vec<char> = s.chars().collect();
        assert_eq!(parse_i64_chars(&cs), s.parse::<i64>().ok(), "input {:?}", s);
    }
}
