use filesplit::strings::{chars_equal, chars_of, decimal_chars, is_white_space_char, trim_chars};

#[test]
fn white_space_matches_std_for_every_char() {
    for u in 0u32..=0x10ffff {
        if let Some(c) = char::from_u32(u) {
            assert_eq!(is_white_space_char(c), c.is_whitespace(), "U+{:04X}", u);
        }
    }
}

#[test]
fn trimming_matches_std() {
    for s in ["  a b  ", "\u{3000}x\u{85}", "   ", "", "abc", "\t\n1KB\r\n"] {
        let t: String = trim_chars(&chars_of(s)).into_iter().collect();
        assert_eq!(t, s.trim());
    }
}

#[test]
fn decimal_digits_match_to_string() {
    for n in [0u64, 9, 10, 99, 100, 4294967296, u64::MAX] {
        let d: String = decimal_chars(n).into_iter().collect();
        assert_eq!(d, n.to_string());
    }
    assert!(chars_equal(&chars_of("log"), "log"));
    assert!(!chars_equal(&chars_of("log"), "lag"));
}
