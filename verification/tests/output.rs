use fast_field_parser::extract::FieldData;
use fast_field_parser::output::{
    group_by_key, group_rows, record_keys, OrganizedOutput, RoutingKey, WriterAccess,
};

fn key(provider: &str, client: &str) -> RoutingKey {
    RoutingKey::new(provider, client)
}

fn names(keys: &[RoutingKey]) -> Vec<String> {
    keys.iter().map(|k| format!("{}/{}", k.provider_id, k.client_id)).collect()
}

fn record(provider: &str, client: &str, n: usize) -> FieldData {
    FieldData {
        doi: format!("d{}", n),
        provider_id: provider.to_string(),
        client_id: client.to_string(),
        field_name: "f".to_string(),
        subfield_path: "f".to_string(),
        value: "v".to_string(),
    }
}

fn opened(access: &WriterAccess) -> (Vec<String>, bool) {
    match access {
        WriterAccess::Opened { evicted, write_header } => (names(evicted), *write_header),
        WriterAccess::Open => panic!("the handle was open"),
    }
}

#[test]
fn the_header_is_written_once_across_eviction_and_reopening() {
    let mut out = OrganizedOutput::new(2);
    let mut headers = 0;
    for round in 0..5 {
        for client in ["a", "b", "c"] {
            if let WriterAccess::Opened { write_header, .. } = out.get_writer(&key("p", client)) {
                if client == "a" && write_header {
                    headers += 1;
                }
                assert_eq!(write_header, round == 0);
            }
        }
    }
    assert_eq!(headers, 1);
    assert_eq!(out.created_files.len(), 3);
}

#[test]
fn no_more_handles_are_open_than_the_maximum() {
    for max in 1..5usize {
        let mut out = OrganizedOutput::new(max);
        for n in 0..40usize {
            out.get_writer(&key("p", &format!("c{}", (n * 7) % 11)));
            assert!(out.open_count() <= max);
            assert_eq!(out.open_count(), out.access_order.len());
        }
    }
}

#[test]
fn the_least_recently_used_handle_leaves_first() {
    let mut out = OrganizedOutput::new(3);
    assert_eq!(opened(&out.get_writer(&key("p", "a"))), (vec![], true));
    assert_eq!(opened(&out.get_writer(&key("p", "b"))), (vec![], true));
    assert_eq!(opened(&out.get_writer(&key("p", "c"))), (vec![], true));
    assert!(matches!(out.get_writer(&key("p", "a")), WriterAccess::Open));
    assert_eq!(names(&out.access_order), vec!["p/a", "p/c", "p/b"]);
    assert_eq!(opened(&out.get_writer(&key("p", "d"))), (vec!["p/b".to_string()], true));
    assert_eq!(names(&out.access_order), vec!["p/d", "p/a", "p/c"]);
    assert_eq!(opened(&out.get_writer(&key("p", "b"))), (vec!["p/c".to_string()], false));
    assert_eq!(names(&out.access_order), vec!["p/b", "p/d", "p/a"]);
}

#[test]
fn a_batch_of_handles_leaves_where_one_is_configured() {
    let mut out = OrganizedOutput::with_evict_batch(4, 2);
    for client in ["a", "b", "c", "d"] {
        out.get_writer(&key("p", client));
    }
    assert_eq!(
        opened(&out.get_writer(&key("p", "e"))),
        (vec!["p/a".to_string(), "p/b".to_string()], true)
    );
    assert_eq!(names(&out.access_order), vec!["p/e", "p/d", "p/c"]);
    let mut wide = OrganizedOutput::with_evict_batch(2, 9);
    wide.get_writer(&key("p", "a"));
    wide.get_writer(&key("p", "b"));
    assert_eq!(
        opened(&wide.get_writer(&key("p", "c"))),
        (vec!["p/a".to_string(), "p/b".to_string()], true)
    );
    assert_eq!(names(&wide.access_order), vec!["p/c"]);
    let mut none = OrganizedOutput::with_evict_batch(1, 0);
    none.get_writer(&key("p", "a"));
    assert_eq!(opened(&none.get_writer(&key("p", "b"))), (vec!["p/a".to_string()], true));
}

#[test]
fn a_maximum_of_zero_keeps_one_handle() {
    let mut out = OrganizedOutput::new(0);
    assert_eq!(opened(&out.get_writer(&key("p", "a"))), (vec![], true));
    assert_eq!(out.open_count(), 1);
    assert_eq!(opened(&out.get_writer(&key("p", "b"))), (vec!["p/a".to_string()], true));
    assert_eq!(out.open_count(), 1);
}

#[test]
fn keys_differ_by_provider_and_by_client() {
    assert!(key("p", "c").same(&key("p", "c")));
    assert!(!key("p", "c").same(&key("p", "d")));
    assert!(!key("p", "c").same(&key("q", "c")));
    assert!(!key("pc", "").same(&key("p", "c")));
    let d = key("prov", "prov.client").destination();
    assert_eq!(d.directory, "prov");
    assert_eq!(d.file_name, "prov.client.csv");
    let copy = key("p", "c").duplicate();
    assert_eq!((copy.provider_id.as_str(), copy.client_id.as_str()), ("p", "c"));
    let from_record = RoutingKey::of_record(&record("pp", "cc", 1));
    assert!(from_record.same(&key("pp", "cc")));
}

#[test]
fn flushing_names_the_open_handles_and_shutdown_closes_them() {
    let mut out = OrganizedOutput::new(3);
    out.get_writer(&key("p", "a"));
    out.get_writer(&key("p", "b"));
    assert_eq!(names(&out.flush_all()), vec!["p/b", "p/a"]);
    assert_eq!(out.open_count(), 2);
    assert_eq!(names(&out.shutdown()), vec!["p/b", "p/a"]);
    assert_eq!(out.open_count(), 0);
    assert!(out.shutdown().is_empty());
    assert_eq!(opened(&out.get_writer(&key("p", "a"))), (vec![], false));
}

#[test]
fn rows_are_grouped_by_key_in_order_of_first_occurrence() {
    let batch = vec![
        record("p", "a", 0),
        record("p", "b", 1),
        record("p", "a", 2),
        record("q", "a", 3),
        record("p", "b", 4),
    ];
    let groups = group_by_key(&batch);
    let shown: Vec<(String, Vec<usize>)> = groups
        .iter()
        .map(|g| (format!("{}/{}", g.key.provider_id, g.key.client_id), g.rows.clone()))
        .collect();
    assert_eq!(
        shown,
        vec![
            ("p/a".to_string(), vec![0, 2]),
            ("p/b".to_string(), vec![1, 4]),
            ("q/a".to_string(), vec![3]),
        ]
    );
    assert!(group_by_key(&Vec::new()).is_empty());
}

#[test]
fn a_batch_is_planned_key_by_key() {
    let mut out = OrganizedOutput::new(2);
    let batch = vec![
        record("p", "a", 0),
        record("p", "b", 1),
        record("p", "c", 2),
        record("p", "a", 3),
    ];
    let steps = out.write_batch(&batch);
    assert_eq!(steps.len(), 3);
    assert_eq!(steps[0].rows, vec![0, 3]);
    assert_eq!(opened(&steps[0].access), (vec![], true));
    assert_eq!(steps[1].rows, vec![1]);
    assert_eq!(opened(&steps[1].access), (vec![], true));
    assert_eq!(steps[2].rows, vec![2]);
    assert_eq!(opened(&steps[2].access), (vec!["p/a".to_string()], true));
    assert_eq!(names(&out.access_order), vec!["p/c", "p/b"]);
    let again = out.write_batch(&batch);
    assert_eq!(opened(&again[0].access), (vec!["p/b".to_string()], false));
    assert_eq!(opened(&again[1].access), (vec!["p/c".to_string()], false));
    assert_eq!(opened(&again[2].access), (vec!["p/a".to_string()], false));
}

#[test]
fn a_request_that_failed_is_taken_back() {
    let mut out = OrganizedOutput::new(2);
    out.get_writer(&key("p", "a"));
    let (_, header) = opened(&out.get_writer(&key("p", "b")));
    assert!(header);
    out.forget(&key("p", "b"), true);
    assert_eq!(names(&out.access_order), vec!["p/a"]);
    assert_eq!(names(&out.created_files), vec!["p/a"]);
    assert_eq!(opened(&out.get_writer(&key("p", "b"))), (vec![], true));
    out.forget(&key("p", "b"), false);
    assert_eq!(names(&out.access_order), vec!["p/a"]);
    assert_eq!(opened(&out.get_writer(&key("p", "b"))), (vec![], false));
    out.forget(&key("p", "never"), true);
    assert_eq!(names(&out.access_order), vec!["p/b", "p/a"]);
    assert_eq!(out.created_files.len(), 2);
}

#[test]
fn rows_are_planned_from_their_keys() {
    let keys = vec![key("p", "a"), key("q", "a"), key("p", "a")];
    let groups = group_rows(&keys);
    assert_eq!(groups.len(), 2);
    assert_eq!(groups[0].rows, vec![0, 2]);
    assert_eq!(groups[1].rows, vec![1]);
    let mut out = OrganizedOutput::new(1);
    let steps = out.plan_rows(&keys);
    assert_eq!(steps.len(), 2);
    assert_eq!(opened(&steps[1].access), (vec!["p/a".to_string()], true));
    let batch = vec![record("x", "y", 0), record("x", "z", 1)];
    assert_eq!(names(&record_keys(&batch)), vec!["x/y", "x/z"]);
}
