use growth_signals::classify::{classify, find_char, leading_text, parse_number, strip_iab, Rejection};
use growth_signals::text::{decimal_string, less};

#[test]
fn classify_accepts_hyphen_and_underscore() {
    assert_eq!(classify("IAB3-Sedans"), Ok(3));
    assert_eq!(classify("IAB12_Trucks"), Ok(12));
    assert_eq!(classify("IAB0-x"), Ok(0));
    assert_eq!(classify("IAB7-"), Ok(7));
}

#[test]
fn classify_rejects_other_prefixes() {
    assert_eq!(classify("XYZ3-Sedans"), Err(Rejection::NotCategory));
    assert_eq!(classify("iab3-Sedans"), Err(Rejection::NotCategory));
    assert_eq!(classify("IA"), Err(Rejection::NotCategory));
    assert_eq!(classify(""), Err(Rejection::NotCategory));
    assert_eq!(classify(" IAB3-Sedans"), Err(Rejection::NotCategory));
}

#[test]
fn classify_rejects_missing_delimiter() {
    assert_eq!(classify("IAB7Foo"), Err(Rejection::NoDelimiter));
    assert_eq!(classify("IAB7"), Err(Rejection::NoDelimiter));
    assert_eq!(classify("IAB"), Err(Rejection::NoDelimiter));
}

#[test]
fn classify_rejects_non_numeric_category() {
    assert_eq!(classify("IABxyz-Foo"), Err(Rejection::NotNumber));
    assert_eq!(classify("IAB-Foo"), Err(Rejection::NotNumber));
    assert_eq!(classify("IAB_Foo"), Err(Rejection::NotNumber));
    assert_eq!(classify("IAB3a_Foo"), Err(Rejection::NotNumber));
    assert_eq!(classify("IAB 3-Foo"), Err(Rejection::NotNumber));
}

#[test]
fn classify_prefers_hyphen_wherever_it_stands() {
    assert_eq!(classify("IAB3-a_b"), Ok(3));
    assert_eq!(classify("IAB3_a-b"), Err(Rejection::NotNumber));
    assert_eq!(classify("IAB3_4-b"), Err(Rejection::NotNumber));
}

#[test]
fn classify_splits_at_first_occurrence() {
    assert_eq!(classify("IAB5-6-7"), Ok(5));
    assert_eq!(classify("IAB5_6_7"), Ok(5));
}

#[test]
fn classify_reads_sign_and_leading_zeros() {
    assert_eq!(classify("IAB+3-Foo"), Ok(3));
    assert_eq!(classify("IAB007-Foo"), Ok(7));
    assert_eq!(classify("IAB+-Foo"), Err(Rejection::NotNumber));
    assert_eq!(classify("IAB++3-Foo"), Err(Rejection::NotNumber));
}

#[test]
fn classify_bounds_the_number() {
    assert_eq!(classify("IAB4294967295-Foo"), Ok(4294967295));
    assert_eq!(classify("IAB4294967296-Foo"), Err(Rejection::NotNumber));
    assert_eq!(classify("IAB99999999999999999999999-Foo"), Err(Rejection::NotNumber));
}

#[test]
fn classify_agrees_with_std_parse() {
    let texts = ["0", "1", "+1", "-1", "", "+", "00", "12a", "4294967295", "4294967296", "١٢", "1 ", "42"];
    for t in texts {
        assert_eq!(parse_number(t), t.parse::<u32>().ok());
    }
}

#[test]
fn parse_number_values() {
    assert_eq!(parse_number("42"), Some(42));
    assert_eq!(parse_number("+42"), Some(42));
    assert_eq!(parse_number("0042"), Some(42));
    assert_eq!(parse_number(""), None);
    assert_eq!(parse_number("+"), None);
    assert_eq!(parse_number("4x"), None);
    assert_eq!(parse_number("42949672950"), None);
}

#[test]
fn strip_iab_gives_the_rest() {
    assert_eq!(strip_iab("IAB3-Sedans"), Some("3-Sedans"));
    assert_eq!(strip_iab("IAB"), Some(""));
    assert_eq!(strip_iab("IAé"), None);
    assert_eq!(strip_iab("IABé-x"), Some("é-x"));
}

#[test]
fn leading_text_stops_at_delimiter() {
    assert_eq!(leading_text("3-Sedans"), Some("3"));
    assert_eq!(leading_text("3_Sedans"), Some("3"));
    assert_eq!(leading_text("3_Se-dans"), Some("3_Se"));
    assert_eq!(leading_text("é3-x"), Some("é3"));
    assert_eq!(leading_text("-x"), Some(""));
    assert_eq!(leading_text("3Sedans"), None);
}

#[test]
fn find_char_counts_characters() {
    assert_eq!(find_char("abc-def-", '-'), Some(3));
    assert_eq!(find_char("éé-", '-'), Some(2));
    assert_eq!(find_char("abc", '-'), None);
    assert_eq!(find_char("", '-'), None);
}

#[test]
fn decimal_string_values() {
    assert_eq!(decimal_string(0), "0");
    assert_eq!(decimal_string(7), "7");
    assert_eq!(decimal_string(10), "10");
    assert_eq!(decimal_string(1234567890), "1234567890");
    assert_eq!(decimal_string(4294967295), "4294967295");
}

#[test]
fn decimal_string_agrees_with_std() {
    for n in [0u32, 1, 9, 10, 11, 99, 100, 101, 65535, 1000000, u32::MAX] {
        assert_eq!(decimal_string(n), n.to_string());
    }
}

#[test]
fn less_is_the_order_of_std() {
    let words = ["", "a", "A", "ab", "b", "Z", "z", "é", "zz", "10", "9", "Sedans", "Sedan", "日本"];
    for a in words {
        for b in words {
            assert_eq!(less(a, b), a < b);
        }
    }
}

#[test]
fn less_values() {
    assert!(less("a", "b"));
    assert!(less("a", "ab"));
    assert!(less("", "a"));
    assert!(!less("a", "a"));
    assert!(!less("b", "a"));
    assert!(less("Z", "a"));
}
