use query_miner::pattern::parse_query_pattern;

#[test]
fn full_record_normalizes() {
    let text = "{\"attr\":{\"ns\":\"db.orders\",\"planSummary\":\"COLLSCAN\",\"durationMillis\":120,\"command\":{\"find\":\"orders\",\"filter\":{\"status\":\"open\"}}}}";
    let p = parse_query_pattern(text).expect("record should normalize");
    assert_eq!(p.collection, "orders");
    assert_eq!(p.operation, "find");
    assert_eq!(p.plan_summary, "COLLSCAN");
    assert_eq!(p.duration_ms, Some(120));
    assert_eq!(p.filter_fields, vec!["status".to_string()]);
    assert!(p.sort_fields.is_empty());
    assert_eq!(p.index_used, "unknown");
    assert_eq!(p.field_values, vec![("status".to_string(), "open".to_string())]);
}

#[test]
fn malformed_fragment_is_rejected() {
    assert!(parse_query_pattern("{not json at all").is_none());
    assert!(parse_query_pattern("{\"a\": }").is_none());
}

#[test]
fn missing_attr_is_rejected() {
    assert!(parse_query_pattern("{\"other\":{\"ns\":\"db.c\"}}").is_none());
}

#[test]
fn empty_collection_and_operation_rejected() {
    // attr present, but no dotted namespace and no command object.
    assert!(parse_query_pattern("{\"attr\":{\"planSummary\":\"IXSCAN\"}}").is_none());
    assert!(parse_query_pattern("{\"attr\":{\"ns\":\"nodot\"}}").is_none());
}

#[test]
fn plan_defaults_to_unknown() {
    let p = parse_query_pattern("{\"attr\":{\"ns\":\"db.c\",\"command\":{\"find\":\"c\"}}}")
        .unwrap();
    assert_eq!(p.plan_summary, "unknown");
    assert_eq!(p.duration_ms, None);
}

#[test]
fn operation_kinds() {
    let find = parse_query_pattern("{\"attr\":{\"ns\":\"d.c\",\"command\":{\"find\":\"c\"}}}")
        .unwrap();
    assert_eq!(find.operation, "find");
    let lst = parse_query_pattern(
        "{\"attr\":{\"ns\":\"d.c\",\"command\":{\"listDatabases\":1}}}",
    )
    .unwrap();
    assert_eq!(lst.operation, "listDatabases");
    let other = parse_query_pattern("{\"attr\":{\"ns\":\"d.c\",\"command\":{\"update\":\"c\"}}}")
        .unwrap();
    assert_eq!(other.operation, "other");
    let none = parse_query_pattern("{\"attr\":{\"ns\":\"d.c\"}}").unwrap();
    assert_eq!(none.operation, "");
}

#[test]
fn filter_fields_sorted_and_reserved_keys_excluded() {
    let p = parse_query_pattern(
        "{\"attr\":{\"ns\":\"d.c\",\"command\":{\"find\":\"c\",\"filter\":{\"zeta\":1,\"$or\":[],\"_id\":5,\"alpha\":2}}}}",
    )
    .unwrap();
    assert_eq!(p.filter_fields, vec!["alpha".to_string(), "zeta".to_string()]);
    let paths: Vec<String> = p.field_values.iter().map(|e| e.0.clone()).collect();
    assert!(!paths.contains(&"$or".to_string()));
    assert!(!paths.contains(&"_id".to_string()));
}

#[test]
fn sort_fields_extracted() {
    let p = parse_query_pattern(
        "{\"attr\":{\"ns\":\"d.c\",\"command\":{\"find\":\"c\",\"sort\":{\"b\":1,\"a\":-1}}}}",
    )
    .unwrap();
    assert_eq!(p.sort_fields, vec!["a".to_string(), "b".to_string()]);
}

#[test]
fn get_more_uses_originating_command() {
    let p = parse_query_pattern(
        "{\"attr\":{\"ns\":\"d.c\",\"command\":{\"getMore\":12345},\"originatingCommand\":{\"filter\":{\"user\":\"u1\"},\"sort\":{\"ts\":1}}}}",
    )
    .unwrap();
    assert_eq!(p.operation, "getMore");
    assert_eq!(p.filter_fields, vec!["user".to_string()]);
    assert_eq!(p.sort_fields, vec!["ts".to_string()]);
    assert_eq!(p.field_values, vec![("user".to_string(), "u1".to_string())]);
}

#[test]
fn string_of_sixty_chars_truncates_to_forty_seven_plus_marker() {
    let long = "a".repeat(60);
    let text = format!(
        "{{\"attr\":{{\"ns\":\"d.c\",\"command\":{{\"find\":\"c\",\"filter\":{{\"s\":\"{}\"}}}}}}}}",
        long
    );
    let p = parse_query_pattern(&text).unwrap();
    let expected = format!("{}...", "a".repeat(47));
    assert_eq!(p.field_values, vec![("s".to_string(), expected)]);
}

#[test]
fn string_of_fifty_chars_kept_verbatim() {
    let exact = "b".repeat(50);
    let text = format!(
        "{{\"attr\":{{\"ns\":\"d.c\",\"command\":{{\"find\":\"c\",\"filter\":{{\"s\":\"{}\"}}}}}}}}",
        exact
    );
    let p = parse_query_pattern(&text).unwrap();
    assert_eq!(p.field_values, vec![("s".to_string(), exact)]);
}

#[test]
fn nesting_beyond_three_levels_is_absent() {
    let p = parse_query_pattern(
        "{\"attr\":{\"ns\":\"d.c\",\"command\":{\"find\":\"c\",\"filter\":{\"l1\":{\"s1\":\"v1\",\"l2\":{\"s2\":\"v2\",\"l3\":{\"s3\":\"v3\",\"l4\":{\"s4\":\"v4\"}}}}}}}}",
    )
    .unwrap();
    let paths: Vec<String> = p.field_values.iter().map(|e| e.0.clone()).collect();
    assert!(paths.contains(&"l1.s1".to_string()));
    assert!(paths.contains(&"l1.l2.s2".to_string()));
    assert!(!paths.contains(&"l1.l2.l3.s3".to_string()));
    assert!(!paths.contains(&"l1.l2.l3.l4.s4".to_string()));
}

#[test]
fn scalar_and_array_values_stringified() {
    let p = parse_query_pattern(
        "{\"attr\":{\"ns\":\"d.c\",\"command\":{\"find\":\"c\",\"filter\":{\"n\":42,\"f\":true,\"small\":[1,\"two\",3],\"big\":[1,2,3,4,5]}}}}",
    )
    .unwrap();
    let get = |k: &str| -> String {
        p.field_values
            .iter()
            .find(|e| e.0 == k)
            .map(|e| e.1.clone())
            .expect("path present")
    };
    assert_eq!(get("n"), "42");
    assert_eq!(get("f"), "true");
    assert_eq!(get("small"), "[1,two,3]");
    assert_eq!(get("big"), "[5 items]");
}

#[test]
fn null_values_are_skipped() {
    let p = parse_query_pattern(
        "{\"attr\":{\"ns\":\"d.c\",\"command\":{\"find\":\"c\",\"filter\":{\"x\":null,\"y\":1}}}}",
    )
    .unwrap();
    assert_eq!(p.field_values, vec![("y".to_string(), "1".to_string())]);
}

#[test]
fn display_identity_lists_shape_only() {
    let p = parse_query_pattern(
        "{\"attr\":{\"ns\":\"db.orders\",\"planSummary\":\"COLLSCAN\",\"durationMillis\":120,\"command\":{\"find\":\"orders\",\"filter\":{\"status\":\"open\"}}}}",
    )
    .unwrap();
    assert_eq!(
        p.identity(),
        "Collection: orders | Operation: find | Filter fields: [status] | Plan: COLLSCAN"
    );
}

#[test]
fn dotless_namespace_with_command_keeps_empty_collection() {
    let p = parse_query_pattern("{\"attr\":{\"ns\":\"nodot\",\"command\":{\"find\":\"c\"}}}")
        .unwrap();
    assert_eq!(p.collection, "");
    assert_eq!(p.operation, "find");
}

#[test]
fn get_more_without_originating_command_keeps_command_shape() {
    let p = parse_query_pattern(
        "{\"attr\":{\"ns\":\"d.c\",\"command\":{\"getMore\":7,\"filter\":{\"k\":1}}}}",
    )
    .unwrap();
    assert_eq!(p.operation, "getMore");
    assert_eq!(p.filter_fields, vec!["k".to_string()]);
}
