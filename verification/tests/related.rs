use fast_field_parser::related::{
    add_normalized_doi, related_match, strip_doi_prefix, add_input_doi, collect_input_dois, doi_column, find_matches, normalize_doi, Attributes,
    DataCiteRecord, DoiEntry, InputError, RelatedIdentifier, Types,
};
use fast_field_parser::text_set::TextSet;

fn strings(items: &[&str]) -> Vec<String> {
    items.iter().map(|s| s.to_string()).collect()
}

fn related(id: Option<&str>, relation: Option<&str>) -> RelatedIdentifier {
    RelatedIdentifier {
        related_identifier: id.map(|s| s.to_string()),
        relation_type: relation.map(|s| s.to_string()),
        related_identifier_type: Some("DOI".to_string()),
        resource_type_general: None,
        resource_type: None,
    }
}

fn record(state: Option<&str>, doi: Option<&str>, related_identifiers: Vec<RelatedIdentifier>) -> DataCiteRecord {
    DataCiteRecord {
        attributes: Attributes {
            doi: doi.map(|s| s.to_string()),
            state: state.map(|s| s.to_string()),
            related_identifiers,
            types: Some(Types {
                resource_type: Some("Journal article".to_string()),
                resource_type_general: Some("Text".to_string()),
            }),
        },
    }
}

fn set_of(items: &[&str]) -> TextSet {
    let mut set = TextSet::new();
    for item in items {
        set.insert(item.to_string());
    }
    set
}

#[test]
fn dois_are_trimmed_stripped_and_lowered() {
    assert_eq!(normalize_doi("  https://doi.org/10.1234/ABC "), "10.1234/abc");
    assert_eq!(normalize_doi("http://doi.org/10.1234/ABC"), "10.1234/abc");
    assert_eq!(normalize_doi("doi:10.1234/ÄBC"), "10.1234/äbc");
    assert_eq!(normalize_doi("10.1234/abc"), "10.1234/abc");
    assert_eq!(normalize_doi("HTTPS://DOI.ORG/10.1/X"), "https://doi.org/10.1/x");
    assert_eq!(normalize_doi("https://doi.org/doi:10.1/X"), "doi:10.1/x");
    assert_eq!(normalize_doi("doi:"), "");
    assert_eq!(normalize_doi(""), "");
}

#[test]
fn the_doi_column_is_found_without_regard_to_case() {
    assert_eq!(doi_column(&strings(&["anrCode", " DOI ", "doi"])), Some(1));
    assert_eq!(doi_column(&strings(&["doi"])), Some(0));
    assert_eq!(doi_column(&strings(&["d o i", "dois", ""])), None);
    assert_eq!(doi_column(&Vec::new()), None);
}

#[test]
fn input_dois_are_collected_in_canonical_form() {
    let dois = collect_input_dois(&strings(&["10.1/A", " ", "doi:10.1/a", "doi:", "https://doi.org/10.2/b"]))
        .ok()
        .unwrap();
    assert_eq!(dois.len(), 2);
    assert!(dois.contains("10.1/a"));
    assert!(dois.contains("10.2/b"));
    assert!(!dois.contains("10.1/A"));
    assert!(matches!(collect_input_dois(&strings(&["", "  ", "doi:"])), Err(InputError::NoInputDois)));
    assert!(matches!(collect_input_dois(&Vec::new()), Err(InputError::NoInputDois)));
}

#[test]
fn each_value_reports_what_became_of_it() {
    let mut dois = TextSet::new();
    assert_eq!(add_input_doi(&mut dois, "  "), DoiEntry::Blank);
    assert_eq!(add_input_doi(&mut dois, "doi:"), DoiEntry::EmptyAfterNormalizing);
    assert_eq!(add_input_doi(&mut dois, "10.1/X"), DoiEntry::Added);
    assert_eq!(add_input_doi(&mut dois, "doi:10.1/x"), DoiEntry::Known);
    assert_eq!(dois.len(), 1);
}

#[test]
fn related_identifiers_that_name_an_input_doi_match() {
    let r = record(
        Some("findable"),
        Some("10.9/SELF"),
        vec![
            related(Some("https://doi.org/10.1/A"), Some("Cites")),
            related(Some("10.5/unknown"), Some("Cites")),
            related(Some("10.9/self"), Some("IsVersionOf")),
            related(None, Some("Cites")),
            related(Some("   "), Some("Cites")),
            related(Some("doi:10.2/b"), None),
        ],
    );
    let found = find_matches(&r, &set_of(&["10.1/a", "10.2/b", "10.9/self"]), &None);
    assert_eq!(found.len(), 2);
    assert_eq!(found[0].input_doi, "10.1/a");
    assert_eq!(found[0].matched_relation_type.as_deref(), Some("Cites"));
    assert_eq!(found[0].datacite_record_doi.as_deref(), Some("10.9/SELF"));
    assert_eq!(found[0].datacite_record_resource_type.as_deref(), Some("Journal article"));
    assert_eq!(found[0].datacite_record_resource_type_general.as_deref(), Some("Text"));
    assert_eq!(found[1].input_doi, "10.2/b");
    assert_eq!(found[1].matched_relation_type, None);
}

#[test]
fn the_relation_filter_and_the_state_hold_matches_back() {
    let ids = || vec![related(Some("10.1/a"), Some("Cites")), related(Some("10.1/a"), None), related(Some("10.1/a"), Some("IsCitedBy"))];
    let dois = set_of(&["10.1/a"]);
    let filter = Some(set_of(&["IsCitedBy", "References"]));
    let found = find_matches(&record(Some("findable"), None, ids()), &dois, &filter);
    assert_eq!(found.len(), 1);
    assert_eq!(found[0].matched_relation_type.as_deref(), Some("IsCitedBy"));
    assert_eq!(found[0].datacite_record_doi, None);
    assert!(find_matches(&record(Some("registered"), None, ids()), &dois, &None).is_empty());
    assert!(find_matches(&record(None, None, ids()), &dois, &None).is_empty());
    assert_eq!(find_matches(&record(Some("findable"), None, ids()), &dois, &None).len(), 3);
    let mut untyped = record(Some("findable"), None, ids());
    untyped.attributes.types = None;
    let found = find_matches(&untyped, &dois, &None);
    assert_eq!(found[0].datacite_record_resource_type, None);
    assert_eq!(found[0].datacite_record_resource_type_general, None);
}

#[test]
fn prefixes_leave_before_the_case_is_lowered() {
    assert_eq!(strip_doi_prefix(" doi:10.1/ABC "), "10.1/ABC");
    assert_eq!(strip_doi_prefix("https://doi.org/10.1/ABC"), "10.1/ABC");
    assert_eq!(strip_doi_prefix("http://doi.org/"), "");
    assert_eq!(strip_doi_prefix("DOI:10.1/ABC"), "DOI:10.1/ABC");
    let mut dois = TextSet::new();
    assert_eq!(add_normalized_doi(&mut dois, String::new()), DoiEntry::EmptyAfterNormalizing);
    assert_eq!(add_normalized_doi(&mut dois, "10.1/a".to_string()), DoiEntry::Added);
    assert_eq!(add_normalized_doi(&mut dois, "10.1/a".to_string()), DoiEntry::Known);
    assert_eq!(dois.len(), 1);
}

#[test]
fn one_related_identifier_matches_by_its_canonical_doi() {
    let r = record(Some("findable"), Some("10.9/self"), Vec::new());
    let dois = set_of(&["10.1/a", "10.9/self"]);
    let own = Some("10.9/self".to_string());
    let cites = related(Some("anything"), Some("Cites"));
    let hit = related_match(&r, &cites, "10.1/a".to_string(), &own, &dois, &None).unwrap();
    assert_eq!(hit.input_doi, "10.1/a");
    assert_eq!(hit.matched_relation_type.as_deref(), Some("Cites"));
    assert!(related_match(&r, &cites, "10.9/self".to_string(), &own, &dois, &None).is_none());
    assert!(related_match(&r, &cites, "10.9/self".to_string(), &None, &dois, &None).is_some());
    assert!(related_match(&r, &cites, "10.2/b".to_string(), &own, &dois, &None).is_none());
    assert!(related_match(&r, &cites, String::new(), &own, &set_of(&[""]), &None).is_none());
    assert!(related_match(&r, &related(Some(" "), None), "10.1/a".to_string(), &own, &dois, &None).is_none());
    assert!(related_match(&r, &related(None, None), "10.1/a".to_string(), &own, &dois, &None).is_none());
    let filter = Some(set_of(&["References"]));
    assert!(related_match(&r, &cites, "10.1/a".to_string(), &own, &dois, &filter).is_none());
}
