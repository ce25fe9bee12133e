use query_miner::aggregate::{find_query_patterns, AnalysisError};

fn record(status: &str) -> String {
    format!(
        "{{\"attr\":{{\"ns\":\"db.orders\",\"planSummary\":\"COLLSCAN\",\"durationMillis\":120,\"command\":{{\"find\":\"orders\",\"filter\":{{\"status\":\"{}\"}}}}}}}}",
        status
    )
}

#[test]
fn same_shape_different_values_merge_with_first_samples_kept() {
    let fields = vec![record("open"), record("closed")];
    let patterns = find_query_patterns(&fields).expect("patterns found");
    assert_eq!(patterns.len(), 1);
    assert_eq!(patterns[0].1, 2);
    assert_eq!(
        patterns[0].0.field_values,
        vec![("status".to_string(), "open".to_string())]
    );
}

#[test]
fn rerunning_analysis_gives_identical_output() {
    let fields = vec![
        record("open"),
        "noise {\"attr\":{\"ns\":\"db.users\",\"command\":{\"find\":\"users\"}}} more".to_string(),
        record("closed"),
    ];
    let first = find_query_patterns(&fields).unwrap();
    let second = find_query_patterns(&fields).unwrap();
    assert_eq!(first.len(), second.len());
    for (a, b) in first.iter().zip(second.iter()) {
        assert_eq!(a.1, b.1);
        assert_eq!(a.0.identity(), b.0.identity());
        assert_eq!(a.0.field_values, b.0.field_values);
    }
}

#[test]
fn sorted_by_descending_count_with_stable_ties() {
    let mut fields = Vec::new();
    fields.push("{\"attr\":{\"ns\":\"db.a\",\"command\":{\"find\":\"a\"}}}".to_string());
    for _ in 0..3 {
        fields.push("{\"attr\":{\"ns\":\"db.b\",\"command\":{\"find\":\"b\"}}}".to_string());
    }
    fields.push("{\"attr\":{\"ns\":\"db.c\",\"command\":{\"find\":\"c\"}}}".to_string());
    let patterns = find_query_patterns(&fields).unwrap();
    assert_eq!(patterns.len(), 3);
    assert_eq!(patterns[0].0.collection, "b");
    assert_eq!(patterns[0].1, 3);
    // The two single-occurrence patterns keep their first-insertion order.
    assert_eq!(patterns[1].0.collection, "a");
    assert_eq!(patterns[2].0.collection, "c");
}

#[test]
fn multiple_fragments_in_one_field_all_count() {
    let fields = vec![format!("{} and {}", record("open"), record("open"))];
    let patterns = find_query_patterns(&fields).unwrap();
    assert_eq!(patterns.len(), 1);
    assert_eq!(patterns[0].1, 2);
}

#[test]
fn empty_input_surfaces_failure() {
    let fields: Vec<String> = Vec::new();
    match find_query_patterns(&fields) {
        Err(e) => assert_eq!(e, AnalysisError::NoPatternsFound),
        Ok(_) => panic!("expected a run-level failure on empty input"),
    }
}

#[test]
fn only_malformed_fragments_surface_failure() {
    let fields = vec![
        "no braces here".to_string(),
        "{broken json".to_string(),
        "{\"valid\":\"json\",\"but\":\"no attr\"}".to_string(),
    ];
    match find_query_patterns(&fields) {
        Err(e) => assert_eq!(e, AnalysisError::NoPatternsFound),
        Ok(_) => panic!("expected a run-level failure on unusable input"),
    }
}
