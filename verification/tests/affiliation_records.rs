use fast_field_parser::affiliation_records::{
    extract_affiliations, line_affiliations, record_affiliations, AffiliationData,
    IncrementalStats,
};
use fast_field_parser::counter::Counter;
use fast_field_parser::json::JsonValue;

const RECORD: &str = r#"{"id":"10.1/x","attributes":{
    "creators":[
        {"name":"A, B","affiliation":[
            {"name":"Uni One","affiliationIdentifier":"https://ror.org/04wxnsj81","affiliationIdentifierScheme":"ROR"},
            {"name":"Lab"}]},
        {"name":"No Affiliation"},
        {"affiliation":[{"affiliationIdentifier":7}]}],
    "contributors":[
        {"name":"C","contributorType":"DataCollector","affiliation":[{"name":"Inst"}]},
        {"name":"D","affiliation":{"name":"not a list"}}]},
    "relationships":{"provider":{"data":{"id":"prov"}},"client":{"data":{"id":"prov.cli"}}}}"#;

fn shown(rows: &[AffiliationData]) -> Vec<Vec<&str>> {
    rows.iter()
        .map(|r| {
            vec![
                r.doi.as_str(),
                r.name.as_str(),
                r.category.as_str(),
                r.role.as_str(),
                r.affiliation_name.as_str(),
                r.affiliation_id.as_str(),
                r.affiliation_scheme.as_str(),
                r.provider_id.as_str(),
                r.client_id.as_str(),
            ]
        })
        .collect()
}

#[test]
fn each_affiliation_of_each_person_gives_a_row() {
    let rows = line_affiliations(RECORD, &None, &None);
    assert_eq!(
        shown(&rows),
        vec![
            vec!["10.1/x", "A, B", "creator", "Author", "Uni One", "https://ror.org/04wxnsj81", "ROR", "prov", "prov.cli"],
            vec!["10.1/x", "A, B", "creator", "Author", "Lab", "", "", "prov", "prov.cli"],
            vec!["10.1/x", "", "creator", "Author", "", "", "", "prov", "prov.cli"],
            vec!["10.1/x", "C", "contributor", "DataCollector", "Inst", "", "", "prov", "prov.cli"],
        ]
    );
}

#[test]
fn filters_and_missing_identity_hold_documents_back() {
    let record = JsonValue::parse(RECORD).unwrap();
    assert_eq!(record_affiliations(&record, &Some("prov".to_string()), &None).len(), 4);
    assert!(record_affiliations(&record, &Some("other".to_string()), &None).is_empty());
    assert!(record_affiliations(&record, &None, &Some("other".to_string())).is_empty());
    assert_eq!(record_affiliations(&record, &None, &Some("prov.cli".to_string())).len(), 4);
    let anonymous = JsonValue::parse(r#"{"id":"x","attributes":{"creators":[{"affiliation":[{}]}]}}"#).unwrap();
    assert!(record_affiliations(&anonymous, &None, &None).is_empty());
    assert!(line_affiliations("", &None, &None).is_empty());
    assert!(line_affiliations("  ", &None, &None).is_empty());
    assert!(line_affiliations("{oops", &None, &None).is_empty());
}

#[test]
fn rows_are_appended_to_what_is_there() {
    let person = JsonValue::parse(r#"{"name":"P","contributorType":"Editor","affiliation":[{"name":"X"},{"name":"Y"}]}"#).unwrap();
    let mut rows = Vec::new();
    extract_affiliations(&person, "d", "contributor", "p", "c", &mut rows);
    extract_affiliations(&person, "d", "creator", "p", "c", &mut rows);
    extract_affiliations(&JsonValue::Null, "d", "creator", "p", "c", &mut rows);
    let roles: Vec<(&str, &str)> =
        rows.iter().map(|r| (r.role.as_str(), r.affiliation_name.as_str())).collect();
    assert_eq!(roles, vec![("Editor", "X"), ("Editor", "Y"), ("Author", "X"), ("Author", "Y")]);
}

#[test]
fn statistics_count_files_rows_and_distinct_values() {
    let mut stats = IncrementalStats::new();
    let rows = line_affiliations(RECORD, &None, &None);
    stats.update(&rows);
    stats.update(&rows);
    stats.update(&Vec::new());
    assert_eq!(stats.processed_files, 3);
    assert_eq!(stats.total_affiliation_records, 8);
    assert_eq!(stats.unique_records.len(), 1);
    assert_eq!(stats.unique_persons.len(), 3);
    assert_eq!(stats.unique_affiliations.len(), 4);
    assert_eq!(stats.providers.entries(), vec![("prov".to_string(), 8)]);
    assert_eq!(stats.clients.get("prov.cli"), 8);
    assert_eq!(stats.clients.get("other"), 0);
}

#[test]
fn counter_keeps_keys_in_order_of_first_sight() {
    let mut c = Counter::new();
    assert_eq!(c.len(), 0);
    for key in ["b", "a", "b", "c", "b", "a", ""] {
        c.add(key);
    }
    assert_eq!(c.len(), 4);
    assert_eq!(
        c.entries(),
        vec![("b".to_string(), 3), ("a".to_string(), 2), ("c".to_string(), 1), (String::new(), 1)]
    );
    assert_eq!(c.get("b"), 3);
    assert_eq!(c.get("z"), 0);
}
