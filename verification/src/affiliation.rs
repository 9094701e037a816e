//! Small rules on affiliation records: trimmed values, the form of a ROR
//! identifier, and the names of the log levels.

use crate::text::{
    ascii_lower, ascii_upper, char_is_ascii_alphanumeric, char_is_whitespace, chars_of,
    deunicoded, is_ascii_alphanumeric, is_whitespace, lowercased, push_char, same_text, to_ascii,
    to_ascii_lowercase, to_ascii_uppercase, to_lowercase, trim, trimmed,
};
use vstd::prelude::*;
use vstd::string::{StrSliceExecFns, StringExecFns};

verus! {

/// How much is logged.
#[derive(PartialEq, Eq, Structural, Debug, Clone, Copy)]
pub enum LogLevel {
    Error,
    Warn,
    Info,
    Debug,
    Trace,
}

/// The level that an upper-case name stands for.
pub open spec fn level_named(name: Seq<char>) -> Option<LogLevel> {
    if name == "ERROR"@ {
        Some(LogLevel::Error)
    } else if name == "WARN"@ {
        Some(LogLevel::Warn)
    } else if name == "INFO"@ {
        Some(LogLevel::Info)
    } else if name == "DEBUG"@ {
        Some(LogLevel::Debug)
    } else if name == "TRACE"@ {
        Some(LogLevel::Trace)
    } else {
        None
    }
}

/// Reads the name of a log level, in any mix of ASCII case. Any other
/// text is rejected with a message that repeats it in upper case.
pub fn parse_level(input: &str) -> (r: Result<LogLevel, String>)
    ensures
        match r {
            Ok(level) => level_named(ascii_upper(input@)) == Some(level),
            Err(message) => level_named(ascii_upper(input@)) is None && message@
                == "Invalid log level: "@ + ascii_upper(input@),
        },
{
    let upper = to_ascii_uppercase(input);
    if same_text(upper.as_str(), "ERROR") {
        Ok(LogLevel::Error)
    } else if same_text(upper.as_str(), "WARN") {
        Ok(LogLevel::Warn)
    } else if same_text(upper.as_str(), "INFO") {
        Ok(LogLevel::Info)
    } else if same_text(upper.as_str(), "DEBUG") {
        Ok(LogLevel::Debug)
    } else if same_text(upper.as_str(), "TRACE") {
        Ok(LogLevel::Trace)
    } else {
        let mut message = String::from_str("Invalid log level: ");
        message.append(upper.as_str());
        Err(message)
    }
}

/// `value` trimmed, or nothing where only whitespace stands.
pub open spec fn nonblank(value: Seq<char>) -> Option<Seq<char>> {
    if trimmed(value).len() == 0 {
        None
    } else {
        Some(trimmed(value))
    }
}

/// The trimmed name of an affiliation; nothing for a blank one.
pub fn sanitize_affiliation_value(value: &str) -> (r: Option<&str>)
    ensures
        match r {
            Some(v) => nonblank(value@) == Some(v@),
            None => nonblank(value@) is None,
        },
{
    let t = trim(value);
    if t.is_empty() {
        None
    } else {
        Some(t)
    }
}

/// The trimmed text; nothing for a blank one.
pub fn non_empty_str(value: &str) -> (r: Option<&str>)
    ensures
        match r {
            Some(v) => nonblank(value@) == Some(v@),
            None => nonblank(value@) is None,
        },
{
    let t = trim(value);
    if t.is_empty() {
        None
    } else {
        Some(t)
    }
}

/// Whether a character stands in the Latin blocks up to Latin Extended-B.
pub open spec fn is_latin_char(c: char) -> bool {
    c as u32 <= 0x024F
}

/// Whether the text holds at least one Latin character.
pub open spec fn has_latin_char(text: Seq<char>) -> bool {
    exists|i: int| 0 <= i < text.len() && is_latin_char(#[trigger] text[i])
}

/// Whether the text holds at least one character up to U+024F.
pub fn is_latin_char_text(text: &str) -> (b: bool)
    ensures
        b == has_latin_char(text@),
{
    let v = chars_of(text);
    let n: usize = v.len();
    let mut i: usize = 0;
    while i < n
        invariant
            n == v.len(),
            v@ == text@,
            0 <= i <= n,
            forall|k: int| 0 <= k < i ==> !is_latin_char(#[trigger] v@[k]),
        decreases n - i,
    {
        if v[i] as u32 <= 0x024F {
            assert(is_latin_char(text@[i as int]));
            return true;
        }
        i += 1;
    }
    false
}

/// Whether a character stays in a normalized name: an ASCII letter or
/// digit, an underscore, or whitespace.
pub open spec fn is_kept_char(c: char) -> bool {
    is_ascii_alphanumeric(c) || c == '_' || is_whitespace(c)
}

/// The characters of `s` that stay in a normalized name.
pub open spec fn kept_chars(s: Seq<char>) -> Seq<char>
    decreases s.len(),
{
    if s.len() == 0 {
        Seq::empty()
    } else if is_kept_char(s.last()) {
        kept_chars(s.drop_last()).push(s.last())
    } else {
        kept_chars(s.drop_last())
    }
}

/// What is left of a name in lower case: its letters, digits,
/// underscores and whitespace, trimmed. Nothing where nothing is left.
pub open spec fn cleaned_name(lower: Seq<char>) -> Option<Seq<char>> {
    let cleaned = trimmed(kept_chars(lower));
    if cleaned.len() == 0 {
        None
    } else {
        Some(cleaned)
    }
}

/// The normalized form of a name: transliterated into ASCII where it
/// holds a Latin character, in lower case, without punctuation, trimmed.
/// Nothing where nothing is left.
pub open spec fn normalized_text(text: Seq<char>) -> Option<Seq<char>> {
    if text.len() == 0 {
        None
    } else if has_latin_char(text) {
        cleaned_name(lowercased(deunicoded(text)))
    } else {
        cleaned_name(lowercased(text))
    }
}

/// What is left of a name in lower case: its letters, digits,
/// underscores and whitespace, trimmed.
pub fn clean_name(lower: &str) -> (r: Option<String>)
    ensures
        match r {
            Some(cleaned) => cleaned_name(lower@) == Some(cleaned@),
            None => cleaned_name(lower@) is None,
        },
{
    let v = chars_of(lower);
    let mut cleaned = String::new();
    let n: usize = v.len();
    let mut i: usize = 0;
    assert(v@.take(0) =~= Seq::<char>::empty());
    while i < n
        invariant
            n == v.len(),
            0 <= i <= n,
            cleaned@ == kept_chars(v@.take(i as int)),
        decreases n - i,
    {
        let c: char = v[i];
        proof {
            assert(v@.take(i + 1).drop_last() =~= v@.take(i as int));
            assert(v@.take(i + 1).last() == c);
        }
        if char_is_ascii_alphanumeric(c) || c == '_' || char_is_whitespace(c) {
            push_char(&mut cleaned, c);
        }
        i += 1;
    }
    assert(v@.take(n as int) =~= v@);
    let normalized = trim(cleaned.as_str());
    if normalized.is_empty() {
        None
    } else {
        Some(String::from_str(normalized))
    }
}

/// The normalized form of a name.
pub fn normalize_text(text: &str) -> (r: Option<String>)
    ensures
        match r {
            Some(normalized) => normalized_text(text@) == Some(normalized@),
            None => normalized_text(text@) is None,
        },
{
    if text.is_empty() {
        return None;
    }
    let ascii = if is_latin_char_text(text) {
        to_ascii(text)
    } else {
        String::from_str(text)
    };
    let lower = to_lowercase(ascii.as_str());
    clean_name(lower.as_str())
}

/// The pattern that finds a ROR identifier inside a URL.
pub open spec fn ror_pattern() -> Seq<char> {
    "(?i)(?:https?://)?(?:www\\.)?ror\\.org/([0-9a-z]{9})"@
}

/// What the first capture group holds in the leftmost match of `pattern`
/// in `text`; nothing where `pattern` is no regular expression, where it
/// matches nowhere, or where the group took no part in the match.
pub uninterp spec fn regex_capture(pattern: Seq<char>, text: Seq<char>) -> Option<Seq<char>>;

/// Trusted: `regex::Regex::new` compiles the pattern, `Regex::captures`
/// finds the leftmost match in the text, and `Captures::get(1)` gives the
/// part that the first group matched. The result depends on the pattern
/// and the text alone.
#[verifier::external_body]
fn first_capture(pattern: &str, text: &str) -> (r: Option<String>)
    ensures
        match r {
            Some(found) => regex_capture(pattern@, text@) == Some(found@),
            None => regex_capture(pattern@, text@) is None,
        },
{
    match regex::Regex::new(pattern) {
        Ok(re) => re.captures(text).and_then(|c| c.get(1)).map(|m| m.as_str().to_string()),
        Err(_) => None,
    }
}

/// The canonical URL of a ROR identifier.
pub open spec fn ror_url(id: Seq<char>) -> Seq<char> {
    "https://ror.org/"@ + ascii_lower(id)
}

/// Whether every character is an ASCII letter or digit.
pub open spec fn all_ascii_alphanumeric(text: Seq<char>) -> bool {
    forall|i: int| 0 <= i < text.len() ==> is_ascii_alphanumeric(#[trigger] text[i])
}

/// Whether the scheme, trimmed and without regard to ASCII case, is `ror`.
pub open spec fn is_ror_scheme(scheme: Option<Seq<char>>) -> bool {
    match scheme {
        Some(s) => ascii_lower(trimmed(s)) == ascii_lower("ror"@),
        None => false,
    }
}

/// The canonical ROR URL for a trimmed identifier: from the identifier
/// found in it by the pattern; else, under the scheme `ror`, from nine
/// ASCII letters and digits taken as they stand.
pub open spec fn ror_identifier(
    raw: Seq<char>,
    capture: Option<Seq<char>>,
    scheme: Option<Seq<char>>,
) -> Option<Seq<char>> {
    if raw.len() == 0 {
        None
    } else if capture is Some {
        Some(ror_url(capture->0))
    } else if is_ror_scheme(scheme) && raw.len() == 9 && all_ascii_alphanumeric(raw) {
        Some(ror_url(raw))
    } else {
        None
    }
}

/// The canonical ROR URL of an affiliation identifier, if it is one.
pub open spec fn normalized_ror(identifier: Option<Seq<char>>, scheme: Option<Seq<char>>) -> Option<
    Seq<char>,
> {
    match identifier {
        Some(id) => ror_identifier(trimmed(id), regex_capture(ror_pattern(), trimmed(id)), scheme),
        None => None,
    }
}

fn ror_url_of(id: &str) -> (r: String)
    ensures
        r@ == ror_url(id@),
{
    let mut url = String::from_str("https://ror.org/");
    let lower = to_ascii_lowercase(id);
    url.append(lower.as_str());
    url
}

fn is_all_ascii_alphanumeric(text: &str) -> (b: bool)
    ensures
        b == all_ascii_alphanumeric(text@),
{
    let v = chars_of(text);
    let n: usize = v.len();
    let mut i: usize = 0;
    while i < n
        invariant
            n == v.len(),
            v@ == text@,
            0 <= i <= n,
            forall|k: int| 0 <= k < i ==> is_ascii_alphanumeric(#[trigger] v@[k]),
        decreases n - i,
    {
        if !char_is_ascii_alphanumeric(v[i]) {
            assert(!is_ascii_alphanumeric(text@[i as int]));
            return false;
        }
        i += 1;
    }
    true
}

/// The canonical ROR URL for the trimmed identifier `raw`, given what the
/// pattern found in it.
pub fn ror_identifier_from(raw: &str, capture: Option<&str>, scheme: Option<&str>) -> (r: Option<
    String,
>)
    ensures
        match r {
            Some(url) => ror_identifier(
                raw@,
                match capture {
                    Some(c) => Some(c@),
                    None => None,
                },
                match scheme {
                    Some(s) => Some(s@),
                    None => None,
                },
            ) == Some(url@),
            None => ror_identifier(
                raw@,
                match capture {
                    Some(c) => Some(c@),
                    None => None,
                },
                match scheme {
                    Some(s) => Some(s@),
                    None => None,
                },
            ) is None,
        },
{
    if raw.is_empty() {
        return None;
    }
    match capture {
        Some(found) => {
            return Some(ror_url_of(found));
        },
        None => {},
    }
    match scheme {
        Some(scheme_value) => {
            let given = to_ascii_lowercase(trim(scheme_value));
            let wanted = to_ascii_lowercase("ror");
            if same_text(given.as_str(), wanted.as_str()) && raw.unicode_len() == 9
                && is_all_ascii_alphanumeric(raw) {
                return Some(ror_url_of(raw));
            }
        },
        None => {},
    }
    None
}

/// The canonical ROR URL of an affiliation identifier, if it is one.
pub fn normalize_ror_identifier(identifier: Option<&str>, scheme: Option<&str>) -> (r: Option<
    String,
>)
    ensures
        match r {
            Some(url) => normalized_ror(
                match identifier {
                    Some(i) => Some(i@),
                    None => None,
                },
                match scheme {
                    Some(s) => Some(s@),
                    None => None,
                },
            ) == Some(url@),
            None => normalized_ror(
                match identifier {
                    Some(i) => Some(i@),
                    None => None,
                },
                match scheme {
                    Some(s) => Some(s@),
                    None => None,
                },
            ) is None,
        },
{
    match identifier {
        Some(id) => {
            let raw = trim(id);
            if raw.is_empty() {
                return None;
            }
            let found = first_capture("(?i)(?:https?://)?(?:www\\.)?ror\\.org/([0-9a-z]{9})", raw);
            match found {
                Some(f) => ror_identifier_from(raw, Some(f.as_str()), scheme),
                None => ror_identifier_from(raw, None, scheme),
            }
        },
        None => None,
    }
}

} // verus!
