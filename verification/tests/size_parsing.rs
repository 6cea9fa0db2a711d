use filesplit::error::FileSplitError;
use filesplit::format::{
    parse_decimal, parse_plain_u64, parse_size, parse_size_checked, scale_decimal, size_text_splits,
    suffix_multiplier,
};

#[test]
fn test_parse_size() {
    assert_eq!(parse_size("1024").unwrap(), 1024);
    assert_eq!(parse_size("1KB").unwrap(), 1024);
    assert_eq!(parse_size("1MB").unwrap(), 1024 * 1024);
    assert_eq!(parse_size("1GB").unwrap(), 1024 * 1024 * 1024);
    assert_eq!(parse_size("500mb").unwrap(), 500 * 1024 * 1024);
    assert_eq!(parse_size("1.5GB").unwrap(), (1.5 * 1024.0 * 1024.0 * 1024.0) as u64);
    assert!(parse_size("abc").is_err());
    assert!(parse_size("1ZB").is_err());
}

#[test]
fn test_size_parsing() {
    assert_eq!(parse_size("1KB").unwrap(), 1024);
    assert_eq!(parse_size("1MB").unwrap(), 1024 * 1024);
    assert_eq!(parse_size("1GB").unwrap(), 1024 * 1024 * 1024);
    assert_eq!(parse_size("500").unwrap(), 500);
    assert!(parse_size("bad").is_err());
}

fn invalid_reason(r: Result<u64, FileSplitError>) -> String {
    match r {
        Err(FileSplitError::InvalidSize(reason)) => reason,
        other => panic!("expected InvalidSize, got {:?}", other),
    }
}

#[test]
fn size_unknown_suffix_names_the_upper_cased_suffix() {
    assert_eq!(invalid_reason(parse_size("1zb")), "unknown suffix 'ZB'");
    assert_eq!(invalid_reason(parse_size("  abc ")), "abc");
    assert_eq!(invalid_reason(parse_size("12..5KB")), "12..5KB");
}

#[test]
fn size_reads_fractions_exactly_and_rounds_down() {
    assert_eq!(parse_size(".5KB").unwrap(), 512);
    assert_eq!(parse_size("0.1KB").unwrap(), 102);
    assert_eq!(parse_size("2.KiB").unwrap(), 2048);
    assert_eq!(parse_size("+3 kb").unwrap(), 3072);
    assert_eq!(parse_size("1T").unwrap(), 1u64 << 40);
    assert_eq!(parse_size("7b").unwrap(), 7);
}

#[test]
fn size_handles_signs_white_space_and_overflow() {
    assert_eq!(parse_size("  42  ").unwrap(), 42);
    assert_eq!(parse_size("+7").unwrap(), 7);
    assert_eq!(parse_size("-5KB").unwrap(), 0);
    assert_eq!(parse_size("99999999999999999999TB").unwrap(), u64::MAX);
    assert_eq!(parse_size("18446744073709551615").unwrap(), u64::MAX);
    assert!(parse_size("18446744073709551616").is_err());
    assert!(parse_size("").is_err());
    assert!(parse_size("KB").is_err());
    assert!(parse_size("5 K B").is_err());
}

#[test]
fn size_suffix_is_upper_cased_with_unicode_rules() {
    // U+0131 (dotless i) upper-cases to `I`.
    assert_eq!(parse_size("5k\u{131}b").unwrap(), 5 * 1024);
}

#[test]
fn size_checked_refuses_a_split_inside_a_character() {
    // The first letter is the third character, but byte 2 falls inside U+00A0.
    assert!(!size_text_splits("5\u{a0}KB"));
    assert!(parse_size_checked("5\u{a0}KB").is_none());
    // Here byte 3 starts the second U+00A0, so the split is clean.
    assert!(size_text_splits("1\u{a0}\u{a0}K"));
    assert_eq!(parse_size_checked("1\u{a0}\u{a0}K").unwrap().unwrap(), 1024);
    assert_eq!(parse_size_checked("1MB").unwrap().unwrap(), 1 << 20);
}

#[test]
fn size_pieces_have_exact_results() {
    let chars = |s: &str| s.chars().collect::<Vec<char>>();
    assert_eq!(suffix_multiplier(&chars("KIB")), Some(1024));
    assert_eq!(suffix_multiplier(&chars("GB")), Some(1 << 30));
    assert_eq!(suffix_multiplier(&chars("BB")), None);
    assert_eq!(suffix_multiplier(&chars("kb")), None);
    assert_eq!(parse_plain_u64(&chars("+12")), Some(12));
    assert_eq!(parse_plain_u64(&chars("-12")), None);
    let (neg, whole, frac) = parse_decimal(&chars("-3.25")).unwrap();
    assert!(neg);
    assert_eq!(whole, chars("3"));
    assert_eq!(frac, chars("25"));
    assert!(parse_decimal(&chars(".")).is_none());
    assert!(parse_decimal(&chars("1.2.3")).is_none());
    assert_eq!(scale_decimal(false, &chars("3"), &chars("25"), 1024), 3328);
    assert_eq!(scale_decimal(true, &chars("3"), &chars("25"), 1024), 0);
}

#[test]
fn plain_counts_read_back() {
    for n in [0u64, 7, 1024, 123456789, u64::MAX] {
        assert_eq!(parse_size(&n.to_string()).unwrap(), n);
    }
}

#[test]
fn ascii_sizes_always_split() {
    for s in ["1KB", "1.5 gib", "abc", "", "  7  ", "-3T", "x9", "1.2.3MB"] {
        assert!(size_text_splits(s));
        assert!(parse_size_checked(s).is_some());
    }
}
