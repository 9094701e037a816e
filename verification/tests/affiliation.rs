use fast_field_parser::affiliation::{
    is_latin_char_text, non_empty_str, normalize_ror_identifier, parse_level,
    ror_identifier_from, sanitize_affiliation_value, LogLevel,
};

#[test]
fn log_levels_are_read_in_any_case() {
    assert_eq!(parse_level("ERROR"), Ok(LogLevel::Error));
    assert_eq!(parse_level("warn"), Ok(LogLevel::Warn));
    assert_eq!(parse_level("Info"), Ok(LogLevel::Info));
    assert_eq!(parse_level("dEbUg"), Ok(LogLevel::Debug));
    assert_eq!(parse_level("trace"), Ok(LogLevel::Trace));
}

#[test]
fn other_level_names_are_rejected_with_their_upper_case() {
    assert_eq!(parse_level("verbose"), Err("Invalid log level: VERBOSE".to_string()));
    assert_eq!(parse_level(""), Err("Invalid log level: ".to_string()));
    assert_eq!(parse_level(" info"), Err("Invalid log level:  INFO".to_string()));
    assert_eq!(parse_level("ınfo"), Err("Invalid log level: ıNFO".to_string()));
}

#[test]
fn values_are_trimmed_and_blank_ones_dropped() {
    assert_eq!(sanitize_affiliation_value("  MIT \n"), Some("MIT"));
    assert_eq!(sanitize_affiliation_value("a b"), Some("a b"));
    assert_eq!(sanitize_affiliation_value(" \t\u{a0}\u{3000} "), None);
    assert_eq!(sanitize_affiliation_value(""), None);
    assert_eq!(non_empty_str("\u{2003}x\u{2003}"), Some("x"));
    assert_eq!(non_empty_str("\u{200b}"), Some("\u{200b}"));
    assert_eq!(non_empty_str("   "), None);
}

#[test]
fn latin_text_has_a_character_up_to_latin_extended_b() {
    assert!(is_latin_char_text("abc"));
    assert!(is_latin_char_text("東京 University"));
    assert!(is_latin_char_text("\u{024f}"));
    assert!(is_latin_char_text("東京 "));
    assert!(!is_latin_char_text("\u{0250}"));
    assert!(!is_latin_char_text("東京大学"));
    assert!(!is_latin_char_text(""));
}

#[test]
fn ror_identifiers_are_found_in_urls() {
    let expected = Some("https://ror.org/04wxnsj81".to_string());
    assert_eq!(normalize_ror_identifier(Some("https://ror.org/04wxnsj81"), None), expected);
    assert_eq!(normalize_ror_identifier(Some("  HTTP://WWW.ROR.ORG/04WXNSJ81 "), None), expected);
    assert_eq!(normalize_ror_identifier(Some("ror.org/04wxnsj81/extra"), Some("GRID")), expected);
    assert_eq!(normalize_ror_identifier(Some("see https://ror.org/04wxnsj81x"), None), expected);
}

#[test]
fn bare_ror_identifiers_need_the_scheme() {
    let expected = Some("https://ror.org/04wxnsj81".to_string());
    assert_eq!(normalize_ror_identifier(Some("04WXNSJ81"), Some(" RoR ")), expected);
    assert_eq!(normalize_ror_identifier(Some("04wxnsj81"), Some("ROR")), expected);
    assert_eq!(normalize_ror_identifier(Some("04wxnsj81"), None), None);
    assert_eq!(normalize_ror_identifier(Some("04wxnsj81"), Some("GRID")), None);
    assert_eq!(normalize_ror_identifier(Some("04wxnsj8"), Some("ROR")), None);
    assert_eq!(normalize_ror_identifier(Some("04wxnsj811"), Some("ROR")), None);
    assert_eq!(normalize_ror_identifier(Some("04wxn-j81"), Some("ROR")), None);
    assert_eq!(normalize_ror_identifier(Some("04wxnsj8é"), Some("ROR")), None);
}

#[test]
fn missing_and_blank_identifiers_give_nothing() {
    assert_eq!(normalize_ror_identifier(None, Some("ROR")), None);
    assert_eq!(normalize_ror_identifier(Some(""), Some("ROR")), None);
    assert_eq!(normalize_ror_identifier(Some("   "), Some("ROR")), None);
    assert_eq!(normalize_ror_identifier(Some("https://ror.org/short"), None), None);
    assert_eq!(normalize_ror_identifier(Some("grid.1234.5"), Some("GRID")), None);
}

#[test]
fn the_capture_comes_before_the_scheme() {
    assert_eq!(
        ror_identifier_from("abcdefghi", Some("ZZZZZZZZZ"), Some("ROR")),
        Some("https://ror.org/zzzzzzzzz".to_string())
    );
    assert_eq!(
        ror_identifier_from("abcdefghi", None, Some("ror")),
        Some("https://ror.org/abcdefghi".to_string())
    );
    assert_eq!(ror_identifier_from("", Some("zzzzzzzzz"), Some("ROR")), None);
    assert_eq!(ror_identifier_from("abcdefghi", None, None), None);
}
