use convmdblog::text::{char_is_decimal_digit, char_is_white_space, chars_eq, str_eq, trim_str};
use regex::Regex;

#[test]
fn white_space_agrees_with_std_and_regex() {
    let re = Regex::new(r"^\s$").unwrap();
    for u in 0..=0x10FFFFu32 {
        if let Some(c) = char::from_u32(u) {
            assert_eq!(char_is_white_space(c), c.is_whitespace(), "{u:#x}");
            if u % 97 == 0 || c.is_whitespace() {
                assert_eq!(char_is_white_space(c), re.is_match(c.encode_utf8(&mut [0; 4])), "{u:#x}");
            }
        }
    }
}

#[test]
fn decimal_digit_agrees_with_regex() {
    let re = Regex::new(r"^\d$").unwrap();
    let mut buf = [0u8; 4];
    for u in 0..=0x1FFFFu32 {
        if let Some(c) = char::from_u32(u) {
            assert_eq!(char_is_decimal_digit(c), re.is_match(c.encode_utf8(&mut buf)), "{u:#x}");
        }
    }
}

#[test]
fn trim_agrees_with_std() {
    for s in ["", "  a b  ", "\u{3000}x\u{85}", "none", " \t\n "] {
        assert_eq!(trim_str(s), s.trim());
    }
}

#[test]
fn equality() {
    assert!(str_eq("abc", "abc"));
    assert!(!str_eq("abc", "abd"));
    assert!(!str_eq("ab", "abc"));
    assert!(chars_eq(&vec!['a'], &vec!['a']));
}
