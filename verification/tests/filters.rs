use fast_field_parser::filter::{parse_field_value_filter, parse_path, parse_resource_types};
use fast_field_parser::filter::{path_exists, resolve, validate_field_value};
use fast_field_parser::json::JsonValue;

fn doc(text: &str) -> JsonValue {
    JsonValue::parse(text).unwrap()
}

fn path(dotted: &str) -> Vec<String> {
    dotted.split('.').map(|s| s.to_string()).collect()
}

#[test]
fn empty_array_counts_as_absent_for_the_exclusion_filter() {
    let empty = doc(r#"{"relatedIdentifiers":[]}"#);
    let one = doc(r#"{"relatedIdentifiers":[{"relatedIdentifier":"10.1/a"}]}"#);
    assert!(!path_exists(&empty, &path("relatedIdentifiers")));
    assert!(path_exists(&one, &path("relatedIdentifiers")));
}

#[test]
fn path_exists_only_for_values_that_are_not_empty() {
    let d = doc(r#"{"a":{"n":null,"o":{},"l":[],"s":"","z":0,"f":false,"deep":{"x":[1]}},"arr":[{"k":1}]}"#);
    assert!(!path_exists(&d, &path("a.n")));
    assert!(!path_exists(&d, &path("a.o")));
    assert!(!path_exists(&d, &path("a.l")));
    assert!(path_exists(&d, &path("a.s")));
    assert!(path_exists(&d, &path("a.z")));
    assert!(path_exists(&d, &path("a.f")));
    assert!(path_exists(&d, &path("a.deep.x")));
    assert!(path_exists(&d, &path("a")));
    assert!(!path_exists(&d, &path("a.missing")));
    assert!(!path_exists(&d, &path("missing.x")));
    assert!(!path_exists(&d, &path("arr.k")));
    assert!(!path_exists(&d, &path("a.s.x")));
    assert!(path_exists(&d, &Vec::new()));
    assert!(!path_exists(&doc("null"), &Vec::new()));
}

#[test]
fn resolve_follows_objects_only() {
    let d = doc(r#"{"a":{"b":"x"},"l":[{"b":"y"}]}"#);
    assert_eq!(
        resolve(&d, &path("a.b")).and_then(|v| v.as_text()).map(|s| s.as_str()),
        Some("x")
    );
    assert!(resolve(&d, &path("l.b")).is_none());
    assert!(resolve(&d, &path("a.b.c")).is_none());
    assert!(resolve(&d, &Vec::new()).is_some());
}

#[test]
fn required_value_is_found_as_scalar_or_array_member() {
    let d = doc(r#"{"state":"findable","tags":["a","b"],"n":5}"#);
    assert!(validate_field_value(&d, &path("state"), "findable"));
    assert!(!validate_field_value(&d, &path("state"), "draft"));
    assert!(validate_field_value(&d, &path("tags"), "b"));
    assert!(!validate_field_value(&d, &path("tags"), "c"));
    assert!(!validate_field_value(&d, &path("n"), "5"));
    assert!(!validate_field_value(&d, &path("missing"), "x"));
}

#[test]
fn required_value_fans_out_through_arrays_on_the_way() {
    let d = doc(
        r#"{"relatedIdentifiers":[
            {"relationType":"Cites","ids":["x","y"]},
            {"relationType":"IsSupplementTo","nested":{"relationType":"Inner"}},
            {"other":1}
        ],"types":{"resourceTypeGeneral":"Dataset"}}"#,
    );
    assert!(validate_field_value(&d, &path("relatedIdentifiers.relationType"), "IsSupplementTo"));
    assert!(validate_field_value(&d, &path("relatedIdentifiers.relationType"), "Cites"));
    assert!(!validate_field_value(&d, &path("relatedIdentifiers.relationType"), "Inner"));
    assert!(validate_field_value(&d, &path("relatedIdentifiers.nested.relationType"), "Inner"));
    assert!(validate_field_value(&d, &path("relatedIdentifiers.ids"), "y"));
    assert!(validate_field_value(&d, &path("types.resourceTypeGeneral"), "Dataset"));
    assert!(!validate_field_value(&d, &path("types.resourceTypeGeneral.x"), "Dataset"));
}

#[test]
fn arrays_of_arrays_are_expanded_one_level_only() {
    let d = doc(r#"{"a":[[{"b":"x"}],{"b":"y"}]}"#);
    assert!(validate_field_value(&d, &path("a.b"), "y"));
    assert!(!validate_field_value(&d, &path("a.b"), "x"));
}

#[test]
fn empty_path_matches_nothing() {
    let d = doc(r#""x""#);
    assert!(!validate_field_value(&d, &Vec::new(), "x"));
}

#[test]
fn value_filters_split_at_the_first_equals_sign() {
    assert_eq!(
        parse_field_value_filter("relatedIdentifiers.relationType=IsSupplementTo"),
        Some((path("relatedIdentifiers.relationType"), "IsSupplementTo".to_string()))
    );
    assert_eq!(parse_field_value_filter("a=b=c"), Some((path("a"), "b=c".to_string())));
    assert_eq!(parse_field_value_filter("é.ü=ö"), Some((path("é.ü"), "ö".to_string())));
    assert_eq!(parse_field_value_filter("=v"), Some((vec![String::new()], "v".to_string())));
    assert_eq!(parse_field_value_filter("a="), Some((path("a"), String::new())));
    assert_eq!(parse_field_value_filter("no-value"), None);
    assert_eq!(parse_path("a. b.c"), vec!["a", " b", "c"]);
    assert_eq!(parse_resource_types(" Dataset, Text ,,Software"), vec!["Dataset", "Text", "", "Software"]);
}
