use fast_field_parser::extract::FieldData;
use fast_field_parser::json::JsonValue;
use fast_field_parser::schema::Schema;
use fast_field_parser::trie::{parse_field_specifications, CompileError, PatternTrie, TrieNode};

fn extract_from(fields: &str, document: &str) -> Vec<FieldData> {
    let specs = parse_field_specifications(fields);
    let trie = PatternTrie::new(&specs, &Schema::datacite()).unwrap();
    let doc = JsonValue::parse(document).unwrap();
    trie.extract(&doc, "10.1/x".to_string(), "prov".to_string(), "cli".to_string())
}

fn triples(records: &[FieldData]) -> Vec<(String, String, String)> {
    records
        .iter()
        .map(|r| (r.field_name.clone(), r.subfield_path.clone(), r.value.clone()))
        .collect()
}

fn triple(label: &str, path: &str, value: &str) -> (String, String, String) {
    (label.to_string(), path.to_string(), value.to_string())
}

#[test]
fn nested_arrays_yield_one_record_per_present_leaf() {
    let records = extract_from(
        "creators.affiliation.name",
        r#"{"creators":[{"name":"A","affiliation":[{"name":"X"}]},{"name":"B"}]}"#,
    );
    assert_eq!(records.len(), 1);
    assert_eq!(records[0].field_name, "creators");
    assert_eq!(records[0].subfield_path, "creators[0].affiliation[0].name");
    assert_eq!(records[0].value, "X");
    assert_eq!(records[0].doi, "10.1/x");
    assert_eq!(records[0].provider_id, "prov");
    assert_eq!(records[0].client_id, "cli");
}

#[test]
fn array_of_k_elements_yields_k_records_with_their_indices() {
    let records = extract_from(
        "titles.title",
        r#"{"titles":[{"title":"a"},{"title":"b"},{"title":"c"}]}"#,
    );
    assert_eq!(
        triples(&records),
        vec![
            triple("titles", "titles[0].title", "a"),
            triple("titles", "titles[1].title", "b"),
            triple("titles", "titles[2].title", "c"),
        ]
    );
}

#[test]
fn elements_without_the_member_yield_nothing() {
    let records = extract_from(
        "titles.title",
        r#"{"titles":[{"title":"a"},{"lang":"en"},{"title":"c"}]}"#,
    );
    assert_eq!(
        triples(&records),
        vec![triple("titles", "titles[0].title", "a"), triple("titles", "titles[2].title", "c")]
    );
}

#[test]
fn index_of_two_digits_is_written_in_decimal() {
    let mut doc = String::from(r#"{"sizes":["#);
    for i in 0..12 {
        if i > 0 {
            doc.push(',');
        }
        doc.push_str(&format!("\"s{}\"", i));
    }
    doc.push_str("]}");
    let records = extract_from("sizes", &doc);
    assert_eq!(records.len(), 12);
    assert_eq!(records[0].subfield_path, "sizes[0]");
    assert_eq!(records[10].subfield_path, "sizes[10]");
    assert_eq!(records[11].subfield_path, "sizes[11]");
    assert_eq!(records[11].value, "s11");
}

#[test]
fn compiling_twice_gives_the_same_records_in_the_same_order() {
    let fields = "creators.name,titles.title,creators.affiliation.name,publisher";
    let document = r#"{"publisher":"P","titles":[{"title":"T"}],
        "creators":[{"name":"A","affiliation":[{"name":"X"},{"name":"Y"}]},{"name":"B"}]}"#;
    let first = extract_from(fields, document);
    let second = extract_from(fields, document);
    assert_eq!(triples(&first), triples(&second));
    assert_eq!(
        triples(&first),
        vec![
            triple("creators", "creators[0].name", "A"),
            triple("creators", "creators[0].affiliation[0].name", "X"),
            triple("creators", "creators[0].affiliation[1].name", "Y"),
            triple("creators", "creators[1].name", "B"),
            triple("titles", "titles[0].title", "T"),
            triple("publisher", "publisher", "P"),
        ]
    );
}

#[test]
fn record_order_follows_the_specifications_not_the_document() {
    let records = extract_from("publisher,doi", r#"{"doi":"10.5/a","publisher":"P"}"#);
    assert_eq!(
        triples(&records),
        vec![triple("publisher", "publisher", "P"), triple("doi", "doi", "10.5/a")]
    );
}

#[test]
fn scalars_null_and_containers_are_rendered() {
    let records = extract_from(
        "version,publicationYear,isActive,language,types,formats",
        r#"{"version":"1.0","publicationYear":2023,"isActive":true,"language":null,
            "types":{"resourceTypeGeneral":"Dataset","n":[1,2.5,-3]},"formats":["a","b"]}"#,
    );
    assert_eq!(
        triples(&records),
        vec![
            triple("version", "version", "1.0"),
            triple("publicationYear", "publicationYear", "2023"),
            triple("isActive", "isActive", "true"),
            triple("language", "language", ""),
            triple("types", "types", r#"{"n":[1,2.5,-3],"resourceTypeGeneral":"Dataset"}"#),
            triple("formats", "formats[0]", "a"),
            triple("formats", "formats[1]", "b"),
        ]
    );
}

#[test]
fn terminal_on_an_array_element_does_not_stop_descent() {
    let records = extract_from(
        "creators,creators.name",
        r#"{"creators":[{"name":"A"}]}"#,
    );
    assert_eq!(
        triples(&records),
        vec![
            triple("creators", "creators[0]", r#"{"name":"A"}"#),
            triple("creators", "creators[0].name", "A"),
        ]
    );
}

#[test]
fn shape_mismatches_yield_nothing() {
    assert!(extract_from("creators.name", r#"{"creators":{"name":"A"}}"#).is_empty());
    assert!(extract_from("creators.name", r#"{"creators":"A"}"#).is_empty());
    assert!(extract_from("creators.name", r#"{"titles":[]}"#).is_empty());
    assert!(extract_from("creators.name", r#"{"creators":[]}"#).is_empty());
    assert!(extract_from("publisher.name", r#"{"publisher":["x"]}"#).is_empty());
    assert!(extract_from("creators.name", r#"[1,2]"#).is_empty());
}

#[test]
fn unregistered_arrays_are_not_expanded() {
    let records = extract_from("container.items", r#"{"container":{"items":[1,2]}}"#);
    assert_eq!(triples(&records), vec![triple("container", "container.items", "[1,2]")]);
}

#[test]
fn field_specifications_are_split_and_trimmed() {
    let specs = parse_field_specifications(" creators.name , titles . title,doi ");
    assert_eq!(
        specs,
        vec![
            vec!["creators".to_string(), "name".to_string()],
            vec!["titles".to_string(), "title".to_string()],
            vec!["doi".to_string()],
        ]
    );
    assert_eq!(parse_field_specifications(""), vec![vec![String::new()]]);
    assert_eq!(
        parse_field_specifications("a,,b."),
        vec![
            vec!["a".to_string()],
            vec![String::new()],
            vec!["b".to_string(), String::new()],
        ]
    );
}

#[test]
fn specification_without_segments_is_rejected() {
    let specs = vec![vec!["doi".to_string()], vec![], vec![]];
    match PatternTrie::new(&specs, &Schema::datacite()) {
        Err(e) => assert_eq!(e, CompileError::EmptySpec { index: 1 }),
        Ok(_) => panic!("an empty specification was compiled"),
    }
    assert!(PatternTrie::new(&Vec::new(), &Schema::datacite()).is_ok());
}

#[test]
fn shared_prefixes_share_nodes() {
    let specs = parse_field_specifications("creators.name,creators.affiliation.name,creators.name");
    let trie = PatternTrie::new(&specs, &Schema::datacite()).unwrap();
    assert_eq!(trie.root.children.len(), 1);
    let creators = &trie.root.children[0];
    assert_eq!(creators.0, "creators");
    assert_eq!(creators.1.children.len(), 1);
    let each = &creators.1.children[0];
    assert_eq!(each.0, "[]");
    let keys: Vec<&str> = each.1.children.iter().map(|c| c.0.as_str()).collect();
    assert_eq!(keys, vec!["name", "affiliation"]);
    assert_eq!(each.1.children[0].1.terminating_pattern.as_deref(), Some("creators"));
    assert_eq!(each.1.children[1].1.children[0].0, "[]");
}

#[test]
fn schema_holds_the_registered_array_paths() {
    let schema = Schema::datacite();
    assert_eq!(schema.array_paths.len(), 23);
    assert!(schema.is_array_path("creators"));
    assert!(schema.is_array_path("creators.affiliation"));
    assert!(schema.is_array_path("geoLocations.geoLocationPolygon"));
    assert!(!schema.is_array_path("publisher"));
    assert!(!schema.is_array_path("creators.name"));
    let own = Schema::new(vec!["a.b".to_string()]);
    assert!(own.is_array_path("a.b"));
    assert!(!own.is_array_path("a"));
}

#[test]
fn a_node_finds_its_children_by_key() {
    let empty = TrieNode::new();
    assert!(empty.children.is_empty());
    assert!(empty.terminating_pattern.is_none());
    assert_eq!(empty.position("a"), None);
    let specs = parse_field_specifications("b,a.x,c");
    let trie = PatternTrie::new(&specs, &Schema::new(Vec::new())).unwrap();
    assert_eq!(trie.root.position("b"), Some(0));
    assert_eq!(trie.root.position("a"), Some(1));
    assert_eq!(trie.root.position("c"), Some(2));
    assert_eq!(trie.root.position("x"), None);
    let mut records = Vec::new();
    let doc = JsonValue::parse(r#"{"x":"v"}"#).unwrap();
    let d = "d".to_string();
    trie.root.children[1].1.traverse(&doc, "a", &mut records, &d, &d, &d);
    assert_eq!(triples(&records), vec![triple("a", "a.x", "v")]);
}
