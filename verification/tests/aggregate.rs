use fast_field_parser::affiliation::{clean_name, normalize_text};
use fast_field_parser::aggregate::Aggregator;
use fast_field_parser::aggregate_input::{
    flush_pending, handle_record, ColumnIndices, PendingEntry, RowGrouper,
};
use fast_field_parser::affiliation_report::{affiliation_counts_vec, entity_breakdown, sorted_names};
use fast_field_parser::counter::{increment, Counter};
use fast_field_parser::ordered_map::OrderedMap;
use fast_field_parser::ordering::{rank_order, text_precedes, SortKey};
use fast_field_parser::text::{contains_text, find_text, rsplit_once};
use fast_field_parser::text_set::TextSet;

fn strings(items: &[&str]) -> Vec<String> {
    items.iter().map(|s| s.to_string()).collect()
}

fn pairs(items: &[(&str, u64)]) -> Vec<(String, u64)> {
    items.iter().map(|(s, n)| (s.to_string(), *n)).collect()
}

fn columns() -> ColumnIndices {
    ColumnIndices::from_headers(&strings(&[
        "doi", "provider_id", "client_id", "field_name", "subfield_path", "value",
    ]))
    .unwrap()
}

fn row(doi: &str, provider: &str, client: &str, path: &str, value: &str) -> Vec<String> {
    strings(&[doi, provider, client, "creators", path, value])
}

#[test]
fn texts_are_ordered_by_their_bytes() {
    let words = ["", "a", "A", "ab", "b", "é", "z", "Z", "a b", "\u{10000}", "\u{ffff}", "aé", "az"];
    for a in words {
        for b in words {
            assert_eq!(text_precedes(a, b), a <= b, "{:?} {:?}", a, b);
        }
    }
}

#[test]
fn rank_is_by_falling_count_then_by_name() {
    let keys: Vec<SortKey> = [(2u64, "b"), (5, "z"), (2, "a"), (5, "a"), (0, ""), (2, "B"), (2, "a")]
        .iter()
        .map(|(count, name)| SortKey { count: *count, name: name.to_string() })
        .collect();
    assert_eq!(rank_order(&keys), vec![3, 1, 5, 2, 6, 0, 4]);
    assert_eq!(rank_order(&Vec::new()), Vec::<usize>::new());
    let many: Vec<SortKey> =
        (0..1000u64).map(|n| SortKey { count: (n * 7919) % 13, name: format!("n{}", (n * 31) % 1000) }).collect();
    let order = rank_order(&many);
    let mut expected: Vec<usize> = (0..1000).collect();
    expected.sort_by(|&p, &q| many[q].count.cmp(&many[p].count).then_with(|| many[p].name.cmp(&many[q].name)));
    assert_eq!(order, expected);
}

#[test]
fn counters_list_their_entries_in_rank() {
    let mut c = Counter::new();
    for key in ["pear", "apple", "pear", "fig", "apple", "pear", "Zebra"] {
        c.add(key);
    }
    assert_eq!(c.listing(false), pairs(&[("Zebra", 1), ("apple", 2), ("fig", 1), ("pear", 3)]));
    assert_eq!(c.listing(true), pairs(&[("pear", 3), ("apple", 2), ("Zebra", 1), ("fig", 1)]));
    assert_eq!(sorted_names(&c), strings(&["Zebra", "apple", "fig", "pear"]));
    let breakdown = entity_breakdown(&c);
    assert_eq!(breakdown.unique_total, 4);
    assert_eq!(breakdown.counts, pairs(&[("Zebra", 1), ("apple", 2), ("fig", 1), ("pear", 3)]));
    let counted = affiliation_counts_vec(&c);
    let shown: Vec<(&str, u64)> = counted.iter().map(|a| (a.affiliation.as_str(), a.occurrences)).collect();
    assert_eq!(shown, vec![("pear", 3), ("apple", 2), ("Zebra", 1), ("fig", 1)]);
    assert_eq!(c.key(1), "apple");
    assert_eq!(c.count(0), 3);
}

#[test]
fn ordered_map_keeps_its_keys_in_order() {
    let mut m: OrderedMap<u64> = OrderedMap::new();
    assert_eq!(m.position("a"), None);
    assert_eq!(m.push("b", 1), 0);
    assert_eq!(m.push("a", 2), 1);
    assert_eq!(m.push("c", 5), 2);
    assert_eq!(m.position("a"), Some(1));
    assert_eq!(m.replace(1, 7), 2);
    assert_eq!(*m.value(1), 7);
    assert_eq!(m.key(2), "c");
    assert_eq!(m.len(), 3);
    assert_eq!(m.arranged(&vec![true, true, true], &vec![1, 7, 5]), vec![1, 2, 0]);
    assert_eq!(m.arranged(&vec![true, false, true], &vec![5, 9, 5]), vec![0, 2]);
    assert_eq!(m.arranged(&vec![false, false, false], &vec![0, 0, 0]), Vec::<usize>::new());
}

#[test]
fn names_are_normalized() {
    assert_eq!(normalize_text("  Université de Genève! "), Some("universite de geneve".to_string()));
    assert_eq!(normalize_text("MIT (Cambridge, MA)"), Some("mit cambridge ma".to_string()));
    assert_eq!(normalize_text("under_score-9"), Some("under_score9".to_string()));
    assert_eq!(normalize_text("東京大学"), None);
    assert_eq!(normalize_text("東京 University"), Some("dong jing university".to_string()));
    assert_eq!(normalize_text("!!!"), None);
    assert_eq!(normalize_text(""), None);
    assert_eq!(clean_name("  a-b_c (d) 9! "), Some("ab_c d 9".to_string()));
    assert_eq!(clean_name("KEPT As Is"), Some("KEPT As Is".to_string()));
    assert_eq!(clean_name("é\u{a0}x\u{2003}"), Some("x".to_string()));
    assert_eq!(clean_name("aé\u{a0}b"), Some("a\u{a0}b".to_string()));
    assert_eq!(clean_name(" .,; "), None);
    assert_eq!(clean_name(""), None);
}

#[test]
fn columns_are_found_by_name() {
    let idx = ColumnIndices::from_headers(&strings(&[
        "value", "doi", "extra", "client_id", "field_name", "subfield_path", "provider_id", "doi",
    ]))
    .unwrap();
    assert_eq!(
        (idx.doi, idx.provider_id, idx.client_id, idx.field_name, idx.subfield_path, idx.value),
        (1, 6, 3, 4, 5, 0)
    );
    assert_eq!(
        ColumnIndices::from_headers(&strings(&["doi", "client_id", "value"])).unwrap_err(),
        "Missing 'provider_id' column"
    );
    assert_eq!(ColumnIndices::from_headers(&Vec::new()).unwrap_err(), "Missing 'doi' column");
    assert_eq!(
        ColumnIndices::from_headers(&strings(&["doi", "provider_id", "client_id", "field_name", "subfield_path"]))
            .unwrap_err(),
        "Missing 'value' column"
    );
    assert_eq!(find_text(&strings(&["a", "b", "a"]), "a"), Some(0));
    assert_eq!(find_text(&strings(&["a", "b"]), "A"), None);
}

#[test]
fn text_search_and_last_split() {
    assert!(contains_text("creators[0].affiliation[1].name", "affiliation"));
    assert!(contains_text("affiliation", "affiliation"));
    assert!(contains_text("x", ""));
    assert!(contains_text("", ""));
    assert!(!contains_text("affiliatio", "affiliation"));
    assert!(!contains_text("affiliatioN", "affiliation"));
    assert!(contains_text("aaab", "aab"));
    assert_eq!(rsplit_once("a.b.c", '.'), Some(("a.b", "c")));
    assert_eq!(rsplit_once("a.", '.'), Some(("a", "")));
    assert_eq!(rsplit_once(".c", '.'), Some(("", "c")));
    assert_eq!(rsplit_once("é.ü", '.'), Some(("é", "ü")));
    assert_eq!(rsplit_once("abc", '.'), None);
}

#[test]
fn rows_of_one_affiliation_come_together() {
    let idx = columns();
    let mut pending: Vec<PendingEntry> = Vec::new();
    handle_record(&row("d", "p", "c", "creators[0].affiliation[0].name", "Uni"), &idx, &mut pending);
    handle_record(&row("d", "p", "c", "creators[0].name", "Someone"), &idx, &mut pending);
    handle_record(&row("d", "p", "c", "creators[0].affiliation[0].affiliationIdentifier", "04wxnsj81"), &idx, &mut pending);
    handle_record(&row("d", "p", "c", "creators[0].affiliation[1].name", "Lab"), &idx, &mut pending);
    handle_record(&row("d", "p", "c", "creators[0].affiliation[0].affiliationIdentifierScheme", "ROR"), &idx, &mut pending);
    handle_record(&row("d", "p", "c", "creators[0].affiliation[2].other", "x"), &idx, &mut pending);
    handle_record(&row("d", "p", "c", "affiliation", "x"), &idx, &mut pending);
    handle_record(&row("d", "p", "c", "creators.affiliation", "x"), &idx, &mut pending);
    handle_record(&strings(&["d"]), &idx, &mut pending);
    let shown: Vec<(&str, Option<&str>, Option<&str>, Option<&str>)> = pending
        .iter()
        .map(|p| {
            (
                p.base.as_str(),
                p.affiliation.name.as_deref(),
                p.affiliation.identifier.as_deref(),
                p.affiliation.scheme.as_deref(),
            )
        })
        .collect();
    assert_eq!(
        shown,
        vec![
            ("creators[0].affiliation[0]", Some("Uni"), Some("04wxnsj81"), Some("ROR")),
            ("creators[0].affiliation[1]", Some("Lab"), None, None),
            ("creators[0].affiliation[2]", None, None, None),
        ]
    );
    let mut aggregator = Aggregator::new();
    flush_pending("10.1/d", Some(" p "), Some(""), &mut pending, &mut aggregator);
    assert!(pending.is_empty());
    let with = aggregator.with_ror_records();
    assert_eq!(with.len(), 1);
    assert_eq!(with[0].affiliation, "Uni");
    assert_eq!(with[0].ror_assignments, pairs(&[("https://ror.org/04wxnsj81", 1)]));
    assert_eq!(with[0].providers.counts, pairs(&[("p", 1)]));
    assert_eq!(with[0].clients.unique_total, 0);
    let without = aggregator.without_ror_records();
    assert_eq!(without.len(), 1);
    assert_eq!(without[0].affiliation, "Lab");
}

fn export() -> Vec<Vec<String>> {
    vec![
        row("10.1/a", "p1", "c1", "creators[0].affiliation[0].name", " Uni A "),
        row("10.1/a", "", "", "creators[0].affiliation[0].affiliationIdentifier", "https://ror.org/04WXNSJ81"),
        row("10.1/a", "", "", "creators[1].affiliation[0].name", "Lab B"),
        row("", "p9", "c9", "creators[1].affiliation[0].name", "ignored"),
        row("10.1/b", "p2", "c1", "creators[0].affiliation[0].name", "Uni A"),
        row("10.1/b", "p2", "c1", "creators[1].affiliation[0].name", "uni a!"),
        row("10.1/c", "p1", "c2", "creators[0].affiliation[0].name", "Lab B"),
        row("10.1/c", "p1", "c2", "creators[0].affiliation[0].affiliationIdentifier", "05abcdef0"),
        row("10.1/c", "p1", "c2", "creators[0].affiliation[0].affiliationIdentifierScheme", "ror"),
        row("10.1/c", "p1", "c2", "creators[1].affiliation[0].name", "   "),
    ]
}

fn aggregate() -> Aggregator {
    let idx = columns();
    let mut grouper = RowGrouper::new();
    let mut reports = 0;
    for record in export() {
        if grouper.take_row(&record, &idx, 4) {
            reports += 1;
        }
    }
    assert_eq!(reports, 2);
    assert_eq!(grouper.processed_rows, 10);
    grouper.finish()
}

#[test]
fn affiliations_are_reported_by_identifier() {
    let aggregator = aggregate();
    let with = aggregator.with_ror_records();
    let shown: Vec<(&str, u64)> = with.iter().map(|r| (r.affiliation.as_str(), r.occurrences)).collect();
    assert_eq!(shown, vec![("Lab B", 1), ("Uni A", 1)]);
    assert_eq!(with[1].ror_assignments, pairs(&[("https://ror.org/04wxnsj81", 1)]));
    assert_eq!(with[1].providers.counts, pairs(&[("p1", 1), ("p2", 1)]));
    assert_eq!(with[1].providers.unique_total, 2);
    assert_eq!(with[1].clients.counts, pairs(&[("c1", 2)]));
    let without = aggregator.without_ror_records();
    let shown: Vec<(&str, u64)> = without.iter().map(|r| (r.affiliation.as_str(), r.occurrences)).collect();
    assert_eq!(shown, vec![("uni a!", 1)]);
    let overlap = aggregator.overlap_records();
    let shown: Vec<(&str, u64, u64)> = overlap
        .iter()
        .map(|r| (r.affiliation.as_str(), r.assigned_occurrences, r.unassigned_occurrences))
        .collect();
    assert_eq!(shown, vec![("Lab B", 1, 1), ("Uni A", 1, 1)]);
    assert_eq!(overlap[0].identifier_occurrences, pairs(&[("https://ror.org/05abcdef0", 1)]));
}

#[test]
fn normalized_names_are_reported_with_their_spellings_and_dois() {
    let aggregator = aggregate();
    let distribution = aggregator.distribution_records();
    let shown: Vec<(&str, u64)> =
        distribution.iter().map(|r| (r.normalized.as_str(), r.total_count)).collect();
    assert_eq!(shown, vec![("uni a", 3), ("lab b", 2)]);
    let spellings: Vec<(&str, u64)> = distribution[0]
        .affiliations
        .iter()
        .map(|a| (a.affiliation.as_str(), a.occurrences))
        .collect();
    assert_eq!(spellings, vec![("Uni A", 2), ("uni a!", 1)]);
    let by_doi = aggregator.normalized_affiliation_doi_records();
    assert_eq!(by_doi[0].normalized, "uni a");
    assert_eq!(by_doi[0].occurrences, 3);
    assert_eq!(by_doi[0].dois, strings(&["10.1/a", "10.1/b"]));
    assert_eq!(by_doi[1].dois, strings(&["10.1/a", "10.1/c"]));
    let identifiers = aggregator.identifier_doi_records();
    let shown: Vec<(&str, u64, Vec<String>)> = identifiers
        .iter()
        .map(|r| (r.identifier.as_str(), r.occurrences, r.dois.clone()))
        .collect();
    assert_eq!(
        shown,
        vec![
            ("https://ror.org/04wxnsj81", 1, strings(&["10.1/a"])),
            ("https://ror.org/05abcdef0", 1, strings(&["10.1/c"])),
        ]
    );
    assert_eq!(identifiers[1].providers.counts, pairs(&[("p1", 1)]));
    assert_eq!(identifiers[1].clients.counts, pairs(&[("c2", 1)]));
}

#[test]
fn entries_are_counted_with_and_without_identifier() {
    let mut aggregator = Aggregator::new();
    aggregator.add_entry("d1", "X", Some("x"), Some("r1"), Some("p"), None);
    aggregator.add_entry("d2", "X", Some("x"), None, Some("  "), Some("c"));
    aggregator.add_entry("d2", "X", None, Some("r2"), None, None);
    aggregator.add_entry("d3", "X", Some("x"), Some("r1"), Some("q"), Some("c"));
    let with = aggregator.with_ror_records();
    assert_eq!(with.len(), 1);
    assert_eq!(with[0].occurrences, 3);
    assert_eq!(with[0].ror_assignments, pairs(&[("r1", 2), ("r2", 1)]));
    assert_eq!(with[0].providers.counts, pairs(&[("p", 1), ("q", 1)]));
    assert_eq!(with[0].clients.counts, pairs(&[("c", 2)]));
    assert!(aggregator.without_ror_records().is_empty());
    let overlap = aggregator.overlap_records();
    assert_eq!((overlap[0].assigned_occurrences, overlap[0].unassigned_occurrences), (3, 1));
    let distribution = aggregator.distribution_records();
    assert_eq!(distribution[0].total_count, 3);
    let identifiers = aggregator.identifier_doi_records();
    assert_eq!(identifiers[0].identifier, "r1");
    assert_eq!(identifiers[0].dois, strings(&["d1", "d3"]));
    assert_eq!(identifiers[1].identifier, "r2");
}

#[test]
fn counting_stops_at_the_largest_number() {
    assert_eq!(increment(0), 1);
    assert_eq!(increment(41), 42);
    assert_eq!(increment(u64::MAX - 1), u64::MAX);
    assert_eq!(increment(u64::MAX), u64::MAX);
}

#[test]
fn a_text_set_holds_each_text_once() {
    let mut set = TextSet::new();
    assert!(set.is_empty());
    assert!(set.insert("a".to_string()));
    assert!(!set.insert("a".to_string()));
    assert!(set.insert(String::new()));
    assert_eq!(set.len(), 2);
    assert!(set.contains("a"));
    assert!(set.contains(""));
    assert!(!set.contains("A"));
    assert!(!set.is_empty());
}
