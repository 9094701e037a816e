use fast_field_parser::json::JsonValue;

fn text(s: &str) -> JsonValue {
    JsonValue::Text(s.to_string())
}

#[test]
fn parsing_gives_the_document() {
    let doc = JsonValue::parse(r#" {"b":[1,"x",null,true],"a":{"c":-2.5e3}} "#).unwrap();
    let b = doc.get("b").unwrap();
    let items = b.as_array().unwrap();
    assert_eq!(items.len(), 4);
    assert!(matches!(&items[0], JsonValue::Number(n) if n == "1"));
    assert_eq!(items[1].as_text().map(|s| s.as_str()), Some("x"));
    assert!(matches!(items[2], JsonValue::Null));
    assert!(matches!(items[3], JsonValue::Bool(true)));
    let c = doc.get("a").unwrap().get("c").unwrap();
    assert!(matches!(c, JsonValue::Number(n) if n == "-2500.0"));
    assert!(doc.get("missing").is_none());
    assert!(b.get("0").is_none());
}

#[test]
fn parsing_rejects_what_is_no_document() {
    assert!(JsonValue::parse("").is_none());
    assert!(JsonValue::parse("{").is_none());
    assert!(JsonValue::parse("{\"a\":1} x").is_none());
    assert!(JsonValue::parse("nul").is_none());
}

#[test]
fn lookup_takes_the_first_member_of_that_name() {
    let doc = JsonValue::Object(vec![
        ("k".to_string(), text("first")),
        ("other".to_string(), JsonValue::Null),
        ("k".to_string(), text("second")),
    ]);
    assert_eq!(doc.get("k").and_then(|v| v.as_text()).map(|s| s.as_str()), Some("first"));
    assert!(text("k").get("k").is_none());
    assert!(JsonValue::Array(vec![text("k")]).get("k").is_none());
}

#[test]
fn blank_values_are_null_and_empty_containers() {
    assert!(JsonValue::Null.is_blank());
    assert!(JsonValue::Array(vec![]).is_blank());
    assert!(JsonValue::Object(vec![]).is_blank());
    assert!(!JsonValue::Array(vec![JsonValue::Null]).is_blank());
    assert!(!text("").is_blank());
    assert!(!JsonValue::Bool(false).is_blank());
    assert!(!JsonValue::Number("0".to_string()).is_blank());
}

#[test]
fn compact_text_has_no_whitespace_and_keeps_the_order_held() {
    let doc = JsonValue::Object(vec![
        ("z".to_string(), JsonValue::Array(vec![])),
        ("a".to_string(), JsonValue::Array(vec![JsonValue::Number("1".to_string()), JsonValue::Null])),
        ("m".to_string(), JsonValue::Object(vec![])),
        ("t".to_string(), JsonValue::Bool(false)),
    ]);
    assert_eq!(doc.to_compact(), r#"{"z":[],"a":[1,null],"m":{},"t":false}"#);
    assert_eq!(JsonValue::Null.to_compact(), "null");
    assert_eq!(JsonValue::Bool(true).to_compact(), "true");
    assert_eq!(JsonValue::Number("-0.5".to_string()).to_compact(), "-0.5");
    assert_eq!(JsonValue::Array(vec![text("a")]).to_compact(), r#"["a"]"#);
}

#[test]
fn strings_are_escaped_inside_compact_text() {
    let s = "q\"b\\n\nt\tr\rf\u{c}b\u{8}z\u{0}u\u{1f}d\u{7f}é\u{2028}";
    let expected = "\"q\\\"b\\\\n\\nt\\tr\\rf\\fb\\bz\\u0000u\\u001fd\u{7f}é\u{2028}\"";
    assert_eq!(text(s).to_compact(), expected);
    let keyed = JsonValue::Object(vec![("a\"b".to_string(), text("/"))]);
    assert_eq!(keyed.to_compact(), "{\"a\\\"b\":\"/\"}");
}

#[test]
fn rendered_text_keeps_strings_verbatim_and_empties_null() {
    assert_eq!(text("a \"quoted\" word").rendered(), "a \"quoted\" word");
    assert_eq!(JsonValue::Null.rendered(), "");
    assert_eq!(JsonValue::Bool(false).rendered(), "false");
    assert_eq!(JsonValue::Number("49.2827".to_string()).rendered(), "49.2827");
    assert_eq!(JsonValue::Array(vec![JsonValue::Null]).rendered(), "[null]");
}

#[test]
fn compact_text_agrees_with_the_parser_crate() {
    let sources = [
        r#"{"b":[1,"x\n\"y\"",null,true,{"k":[]}],"a":{"c":-2.5e3,"d":1e300,"e":0.1}}"#,
        r#"[[],{},"\u0001\u001f\\/",18446744073709551615,-9223372036854775808]"#,
        r#""plain""#,
    ];
    for source in sources {
        let ours = JsonValue::parse(source).unwrap().to_compact();
        let theirs = serde_json::from_str::<serde_json::Value>(source).unwrap().to_string();
        assert_eq!(ours, theirs);
    }
}
