use fast_field_parser::pipeline::{
    channel_capacity, required_labels, worker_count, FlushSchedule, FLUSH_INTERVAL,
};
use fast_field_parser::report::{format_elapsed, Failure, RunSummary};
use fast_field_parser::extract::FieldData;
use fast_field_parser::json::JsonValue;
use fast_field_parser::pipeline::{
    route_record, distinct_count, extract_client_id, extract_doi, extract_provider_id, holds, is_complete,
    Batcher, JsonlProcessor, LineOutcome,
};
use fast_field_parser::schema::Schema;
use fast_field_parser::trie::{parse_field_specifications, PatternTrie};

fn processor(fields: &str) -> JsonlProcessor {
    let specs = parse_field_specifications(fields);
    JsonlProcessor {
        trie: PatternTrie::new(&specs, &Schema::datacite()).unwrap(),
        filter_provider: None,
        filter_client: None,
        filter_resource_types: None,
        required_fields: None,
        field_value_filters: Vec::new(),
        exclusion_filters: Vec::new(),
        batch_size: 3,
    }
}

fn line(attributes: &str) -> String {
    format!(
        r#"{{"id":"10.1/x","attributes":{},"relationships":{{"provider":{{"data":{{"id":"prov"}}}},"client":{{"data":{{"id":"prov.cli"}}}}}}}}"#,
        attributes
    )
}

fn path(dotted: &str) -> Vec<String> {
    dotted.split('.').map(|s| s.to_string()).collect()
}

fn record(label: &str, n: usize) -> FieldData {
    FieldData {
        doi: format!("d{}", n),
        provider_id: "p".to_string(),
        client_id: "c".to_string(),
        field_name: label.to_string(),
        subfield_path: label.to_string(),
        value: format!("v{}", n),
    }
}

#[test]
fn a_line_yields_the_records_of_its_attributes() {
    let p = processor("doi,titles.title");
    let out = p.process_line(&line(r#"{"doi":"10.1/x","titles":[{"title":"T"}]}"#));
    assert_eq!(out.len(), 2);
    assert_eq!(out[0].doi, "10.1/x");
    assert_eq!(out[0].provider_id, "prov");
    assert_eq!(out[0].client_id, "prov.cli");
    assert_eq!(out[0].field_name, "doi");
    assert_eq!(out[0].value, "10.1/x");
    assert_eq!(out[1].subfield_path, "titles[0].title");
    assert_eq!(out[1].value, "T");
}

#[test]
fn blank_and_malformed_lines_yield_nothing() {
    let p = processor("doi");
    assert!(p.process_line("").is_empty());
    assert!(p.process_line("   \t ").is_empty());
    assert!(p.process_line("{not json").is_empty());
    assert!(p.process_line("[]").is_empty());
    assert!(p.process_line(r#"{"id":"x"}"#).is_empty());
    assert!(p.process_line(&line("null")).is_empty());
}

#[test]
fn documents_without_identity_are_skipped() {
    let p = processor("doi");
    let no_client = r#"{"id":"10.1/x","attributes":{"doi":"d"},"relationships":{"provider":{"data":{"id":"prov"}}}}"#;
    assert!(p.process_line(no_client).is_empty());
    let no_id = r#"{"attributes":{"doi":"10.9/fallback"},"relationships":{"provider":{"data":{"id":"p"}},"client":{"data":{"id":"c"}}}}"#;
    let out = p.process_line(no_id);
    assert_eq!(out.len(), 1);
    assert_eq!(out[0].doi, "10.9/fallback");
    let nothing = r#"{"attributes":{"x":1},"relationships":{"provider":{"data":{"id":"p"}},"client":{"data":{"id":"c"}}}}"#;
    assert!(p.process_line(nothing).is_empty());
}

#[test]
fn identity_is_read_from_its_fixed_places() {
    let doc = JsonValue::parse(&line(r#"{"doi":"10.2/attr"}"#)).unwrap();
    assert_eq!(extract_doi(&doc).as_deref(), Some("10.1/x"));
    assert_eq!(extract_provider_id(&doc).as_deref(), Some("prov"));
    assert_eq!(extract_client_id(&doc).as_deref(), Some("prov.cli"));
    let bare = JsonValue::parse(r#"{"id":7,"attributes":{"doi":"10.2/attr"}}"#).unwrap();
    assert_eq!(extract_doi(&bare).as_deref(), Some("10.2/attr"));
    assert_eq!(extract_provider_id(&bare), None);
    assert_eq!(extract_client_id(&bare), None);
}

#[test]
fn provider_and_client_filters_select_documents() {
    let mut p = processor("doi");
    let l = line(r#"{"doi":"d"}"#);
    p.filter_provider = Some("prov".to_string());
    assert_eq!(p.process_line(&l).len(), 1);
    p.filter_provider = Some("wrong-provider".to_string());
    assert!(p.process_line(&l).is_empty());
    p.filter_provider = None;
    p.filter_client = Some("prov.cli".to_string());
    assert_eq!(p.process_line(&l).len(), 1);
    p.filter_client = Some("other".to_string());
    assert!(p.process_line(&l).is_empty());
}

#[test]
fn category_allow_list_rejects_absent_and_foreign_categories() {
    let mut p = processor("doi");
    p.filter_resource_types = Some(vec!["Dataset".to_string(), "Text".to_string()]);
    assert_eq!(
        p.process_line(&line(r#"{"doi":"d","types":{"resourceTypeGeneral":"Text"}}"#)).len(),
        1
    );
    assert!(p
        .process_line(&line(r#"{"doi":"d","types":{"resourceTypeGeneral":"Software"}}"#))
        .is_empty());
    assert!(p.process_line(&line(r#"{"doi":"d","types":{}}"#)).is_empty());
    assert!(p.process_line(&line(r#"{"doi":"d"}"#)).is_empty());
    assert!(p.process_line(&line(r#"{"doi":"d","types":{"resourceTypeGeneral":1}}"#)).is_empty());
}

#[test]
fn every_filter_has_to_hold() {
    let mut p = processor("doi");
    p.field_value_filters = vec![
        (path("relatedIdentifiers.relationType"), "IsSupplementTo".to_string()),
        (path("state"), "findable".to_string()),
    ];
    p.exclusion_filters = vec![path("fundingReferences"), path("container")];
    let good = r#"{"doi":"d","state":"findable","fundingReferences":[],
        "relatedIdentifiers":[{"relationType":"Cites"},{"relationType":"IsSupplementTo"}]}"#;
    assert_eq!(p.process_line(&line(good)).len(), 1);
    let wrong_state = good.replace("findable", "registered");
    assert!(p.process_line(&line(&wrong_state)).is_empty());
    let no_relation = good.replace("IsSupplementTo", "IsCitedBy");
    assert!(p.process_line(&line(&no_relation)).is_empty());
    let funded = good.replace(r#""fundingReferences":[]"#, r#""fundingReferences":[{"f":1}]"#);
    assert!(p.process_line(&line(&funded)).is_empty());
    let contained = good.replace(r#""doi":"d""#, r#""doi":"d","container":{"t":"x"}"#);
    assert!(p.process_line(&line(&contained)).is_empty());
}

#[test]
fn exclusion_filter_admits_an_empty_array_and_rejects_an_entry() {
    let mut p = processor("doi");
    p.exclusion_filters = vec![path("relatedIdentifiers")];
    assert_eq!(p.process_line(&line(r#"{"doi":"d","relatedIdentifiers":[]}"#)).len(), 1);
    assert_eq!(p.process_line(&line(r#"{"doi":"d"}"#)).len(), 1);
    assert!(p
        .process_line(&line(r#"{"doi":"d","relatedIdentifiers":[{"relatedIdentifier":"x"}]}"#))
        .is_empty());
}

#[test]
fn completeness_gate_counts_distinct_labels() {
    let mut p = processor("doi,titles.title,creators.name");
    p.required_fields =
        Some(vec!["doi".to_string(), "titles".to_string(), "creators".to_string(), "doi".to_string()]);
    let all = r#"{"doi":"d","titles":[{"title":"T"},{"title":"U"}],"creators":[{"name":"A"}]}"#;
    assert_eq!(p.process_line(&line(all)).len(), 4);
    let two = r#"{"doi":"d","titles":[{"title":"T"},{"title":"U"}]}"#;
    assert!(p.process_line(&line(two)).is_empty());
    assert!(p.process_line(&line(r#"{"x":1}"#)).is_empty());
    p.required_fields = None;
    assert_eq!(p.process_line(&line(two)).len(), 3);
}

#[test]
fn completeness_is_a_comparison_of_counts() {
    let found = vec![record("a", 1), record("b", 2), record("a", 3)];
    assert!(is_complete(&found, &vec!["x".to_string(), "y".to_string()]));
    assert!(is_complete(&found, &vec!["x".to_string(), "x".to_string(), "y".to_string()]));
    assert!(!is_complete(&found, &vec!["x".to_string(), "y".to_string(), "z".to_string()]));
    assert!(!is_complete(&Vec::new(), &Vec::new()));
    assert!(is_complete(&found, &Vec::new()));
}

#[test]
fn distinct_texts_are_counted_once() {
    let items: Vec<String> = ["a", "b", "a", "", "b", "c", ""].iter().map(|s| s.to_string()).collect();
    let refs: Vec<&String> = items.iter().collect();
    assert_eq!(distinct_count(&refs), 4);
    assert_eq!(distinct_count(&Vec::new()), 0);
    assert!(holds(&items, "c"));
    assert!(holds(&items, ""));
    assert!(!holds(&items, "d"));
}

#[test]
fn batches_leave_full_and_in_order() {
    let mut b = Batcher::new(3);
    assert!(b.add(vec![record("a", 1), record("a", 2)]).is_empty());
    assert_eq!(b.pending.len(), 2);
    let full = b.add((3..=8).map(|n| record("a", n)).collect());
    assert_eq!(full.len(), 2);
    let dois: Vec<Vec<&str>> =
        full.iter().map(|batch| batch.iter().map(|r| r.doi.as_str()).collect()).collect();
    assert_eq!(dois, vec![vec!["d1", "d2", "d3"], vec!["d4", "d5", "d6"]]);
    assert_eq!(b.pending.len(), 2);
    assert!(b.add(Vec::new()).is_empty());
    let full = b.add(vec![record("a", 9)]);
    assert_eq!(full.len(), 1);
    assert_eq!(full[0].len(), 3);
    assert_eq!(full[0][2].doi, "d9");
    assert!(b.finish().is_none());
}

#[test]
fn the_last_batch_holds_what_is_left() {
    let mut b = Batcher::new(4);
    assert!(b.finish().is_none());
    assert!(b.add(vec![record("a", 1)]).is_empty());
    let last = b.finish().unwrap();
    assert_eq!(last.len(), 1);
    assert_eq!(last[0].doi, "d1");
    assert!(b.pending.is_empty());
    assert!(b.finish().is_none());
}

#[test]
fn a_batch_size_of_zero_behaves_as_one() {
    let mut b = Batcher::new(0);
    assert_eq!(b.limit, 1);
    let full = b.add(vec![record("a", 1), record("a", 2)]);
    assert_eq!(full.len(), 2);
    assert!(full.iter().all(|batch| batch.len() == 1));
    assert!(b.finish().is_none());
}

#[test]
fn records_in_flight_stay_within_the_bound() {
    let batch_size = 5;
    let workers = 3;
    let capacity = 4;
    let mut batchers: Vec<Batcher> = (0..workers).map(|_| Batcher::new(batch_size)).collect();
    let mut channel: Vec<Vec<FieldData>> = Vec::new();
    let mut n = 0;
    for round in 0..40 {
        let w = round % workers;
        let burst: Vec<FieldData> = (0..(round % 7)).map(|_| { n += 1; record("a", n) }).collect();
        for batch in batchers[w].add(burst) {
            assert_eq!(batch.len(), batch_size);
            if channel.len() == capacity {
                channel.remove(0);
            }
            channel.push(batch);
        }
        let in_flight: usize = channel.iter().map(|b| b.len()).sum::<usize>()
            + batchers.iter().map(|b| b.pending.len()).sum::<usize>();
        assert!(in_flight <= capacity * batch_size + workers * batch_size);
    }
}

#[test]
fn tuning_rules_have_their_values() {
    assert_eq!(worker_count(0, 8), 8);
    assert_eq!(worker_count(3, 8), 3);
    assert_eq!(channel_capacity(6), 24);
    assert_eq!(channel_capacity(0), 0);
    assert_eq!(channel_capacity(usize::MAX / 2), usize::MAX);
    let specs = parse_field_specifications("creators.name,titles.title,creators.affiliation.name");
    assert_eq!(
        required_labels(&specs),
        Some(vec!["creators".to_string(), "titles".to_string(), "creators".to_string()])
    );
    assert_eq!(required_labels(&Vec::new()), None);
    assert_eq!(required_labels(&vec![Vec::new(), vec!["a".to_string()]]), Some(vec!["a".to_string()]));
    assert_eq!(required_labels(&vec![Vec::new()]), None);
    assert_eq!(FLUSH_INTERVAL, 100);
    let mut schedule = FlushSchedule::new();
    let flushes: Vec<u32> = (1..=250u32).filter(|_| schedule.batch_written()).collect();
    assert_eq!(flushes, vec![100, 200]);
}

#[test]
fn elapsed_time_is_written_for_a_reader() {
    assert_eq!(format_elapsed(0, 0), "0.000s");
    assert_eq!(format_elapsed(5, 7), "5.007s");
    assert_eq!(format_elapsed(59, 42), "59.042s");
    assert_eq!(format_elapsed(59, 999), "59.999s");
    assert_eq!(format_elapsed(60, 999), "1m 0s");
    assert_eq!(format_elapsed(3599, 1), "59m 59s");
    assert_eq!(format_elapsed(3600, 1), "1h 0m 0s");
    assert_eq!(format_elapsed(90_061, 0), "25h 1m 1s");
}

#[test]
fn only_fatal_failures_fail_the_run() {
    assert!(!Failure::MalformedLine.is_fatal());
    assert!(!Failure::UnreadableFile.is_fatal());
    assert!(Failure::ChannelDisconnected.is_fatal());
    assert!(Failure::OutputFailure.is_fatal());
    let mut summary = RunSummary::new();
    summary.file_done();
    summary.note(Failure::UnreadableFile);
    summary.file_done();
    summary.note(Failure::MalformedLine);
    summary.lines_skipped(41);
    assert_eq!(
        (summary.files_succeeded, summary.files_failed, summary.lines_skipped),
        (2, 1, 42)
    );
    assert_eq!(summary.exit_code(), 0);
    summary.note(Failure::ChannelDisconnected);
    assert_eq!(summary.files_failed, 2);
    assert_eq!(summary.exit_code(), 1);
    summary.file_done();
    assert_eq!(summary.exit_code(), 1);
    let mut other = RunSummary::new();
    other.note(Failure::OutputFailure);
    assert_eq!((other.files_failed, other.exit_code()), (0, 1));
    other.lines_skipped(u64::MAX);
    other.lines_skipped(5);
    assert_eq!(other.lines_skipped, u64::MAX);
}

#[test]
fn a_line_is_blank_malformed_or_a_document() {
    let p = processor("doi");
    assert!(matches!(p.read_line(" \t"), LineOutcome::Blank));
    assert!(matches!(p.read_line("{oops"), LineOutcome::Malformed));
    assert!(matches!(p.read_line("[1]"), LineOutcome::Records(r) if r.is_empty()));
    match p.read_line(&line(r#"{"doi":"d"}"#)) {
        LineOutcome::Records(records) => assert_eq!(records.len(), 1),
        _ => panic!("the line holds a document"),
    }
}

#[test]
fn a_parsed_document_is_admitted_routed_and_extracted() {
    let mut p = processor("doi");
    p.exclusion_filters = vec![path("container")];
    let doc = JsonValue::parse(&line(r#"{"doi":"d"}"#)).unwrap();
    let attributes = doc.get("attributes").unwrap();
    assert!(p.is_admitted(attributes));
    assert!(!p.is_admitted(&JsonValue::Null));
    assert!(!p.is_admitted(&JsonValue::parse(r#"{"container":{"a":1}}"#).unwrap()));
    assert_eq!(
        p.route(&doc),
        Some(("10.1/x".to_string(), "prov".to_string(), "prov.cli".to_string()))
    );
    assert_eq!(
        route_record(&doc, &Some("prov".to_string()), &Some("nope".to_string())),
        None
    );
    let out = p.process_record(&doc);
    assert_eq!(out.len(), 1);
    assert_eq!(out[0].value, "d");
    assert!(p.process_record(&JsonValue::parse("{}").unwrap()).is_empty());
}
