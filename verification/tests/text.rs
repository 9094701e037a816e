use fast_field_parser::text::{find_char, strip_prefix};
use fast_field_parser::text::{
    char_is_ascii_alphanumeric, char_is_whitespace, chars_of, push_decimal, split,
    to_ascii_lowercase, to_ascii_uppercase, trim,
};

#[test]
fn whitespace_is_unicode_white_space() {
    for c in ['\u{0}', '\u{8}', '\u{e}', '\u{1f}', 'a', '\u{200b}', '\u{feff}', '\u{180e}'] {
        assert!(!char_is_whitespace(c));
    }
    let mut n = 0;
    for u in 0..=0x10ffffu32 {
        if let Some(c) = char::from_u32(u) {
            assert_eq!(char_is_whitespace(c), c.is_whitespace());
            assert_eq!(char_is_ascii_alphanumeric(c), c.is_ascii_alphanumeric());
            if char_is_whitespace(c) {
                n += 1;
            }
        }
    }
    assert_eq!(n, 25);
}

#[test]
fn trimming_removes_both_ends_only() {
    assert_eq!(trim("  a  b \t\n"), "a  b");
    assert_eq!(trim("ab"), "ab");
    assert_eq!(trim(""), "");
    assert_eq!(trim(" \u{85}\u{2029} "), "");
    assert_eq!(trim("\u{3000}é\u{a0}"), "é");
    for s in ["", " ", "x", " x", "x ", " x y ", "\n\u{1680}ab\u{202f}\r", "é \u{205f}"] {
        assert_eq!(trim(s), s.trim());
    }
}

#[test]
fn splitting_gives_one_piece_more_than_separators() {
    assert_eq!(split("a,b,c", ','), vec!["a", "b", "c"]);
    assert_eq!(split("", ','), vec![""]);
    assert_eq!(split(",", ','), vec!["", ""]);
    assert_eq!(split("a,,b,", ','), vec!["a", "", "b", ""]);
    assert_eq!(split("a.b", ','), vec!["a.b"]);
    for s in ["", "x", ".x.", "..", "a.b.c", "é.ü"] {
        let expected: Vec<String> = s.split('.').map(|p| p.to_string()).collect();
        assert_eq!(split(s, '.'), expected);
    }
}

#[test]
fn decimal_has_no_leading_zeros() {
    for (n, text) in [(0usize, "0"), (7, "7"), (10, "10"), (99, "99"), (100, "100"), (120_034, "120034")] {
        let mut s = String::from("x");
        push_decimal(&mut s, n);
        assert_eq!(s, format!("x{}", text));
    }
    let mut s = String::new();
    push_decimal(&mut s, usize::MAX);
    assert_eq!(s, usize::MAX.to_string());
}

#[test]
fn ascii_case_leaves_other_characters_alone() {
    assert_eq!(to_ascii_lowercase("AbC-09_ÉÀ@[`{Z"), "abc-09_ÉÀ@[`{z");
    assert_eq!(to_ascii_uppercase("aBc-09_éß@[`{z"), "ABC-09_éß@[`{Z");
    assert_eq!(to_ascii_lowercase(""), "");
    assert_eq!(chars_of("aé\u{10000}"), vec!['a', 'é', '\u{10000}']);
}

#[test]
fn prefixes_are_stripped_where_they_stand() {
    assert_eq!(strip_prefix("doi:10.1/x", "doi:"), Some("10.1/x"));
    assert_eq!(strip_prefix("doi:", "doi:"), Some(""));
    assert_eq!(strip_prefix("do", "doi:"), None);
    assert_eq!(strip_prefix("xdoi:1", "doi:"), None);
    assert_eq!(strip_prefix("éa", "é"), Some("a"));
    assert_eq!(strip_prefix("abc", ""), Some("abc"));
    assert_eq!(find_char("a=b=c", '='), Some(1));
    assert_eq!(find_char("é=b", '='), Some(1));
    assert_eq!(find_char("abc", '='), None);
    assert_eq!(find_char("", '='), None);
}
