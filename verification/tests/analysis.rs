use query_miner::aggregate::find_query_patterns;
use query_miner::analyze::{
    analyze_collection_field_patterns,
    analyze_field_value_distributions,
    value_cardinality,
    value_concentration,
};

fn record(status: &str) -> String {
    format!(
        "{{\"attr\":{{\"ns\":\"db.orders\",\"planSummary\":\"COLLSCAN\",\"durationMillis\":120,\"command\":{{\"find\":\"orders\",\"filter\":{{\"status\":\"{}\"}}}}}}}}",
        status
    )
}

#[test]
fn two_shapes_aggregate_and_distribute() {
    // Three records with one filter value and two with another: one
    // pattern, count five; the distribution sees the stored pattern's
    // first-seen sample with the pattern's full count.
    let fields = vec![
        record("open"),
        record("open"),
        record("open"),
        record("closed"),
        record("closed"),
    ];
    let patterns = find_query_patterns(&fields).expect("patterns found");
    assert_eq!(patterns.len(), 1);
    let (p, count) = &patterns[0];
    assert_eq!(*count, 5);
    assert_eq!(p.collection, "orders");
    assert_eq!(p.operation, "find");
    assert_eq!(p.filter_fields, vec!["status".to_string()]);
    assert_eq!(p.plan_summary, "COLLSCAN");

    let dist = analyze_field_value_distributions(&patterns);
    assert_eq!(dist.len(), 1);
    assert_eq!(dist[0].0, "orders:status");
    assert_eq!(dist[0].1, vec![("open".to_string(), 5)]);

    let (top3, total) = value_concentration(&dist[0].1);
    assert_eq!(total, 5);
    assert_eq!(top3, 5);
    assert_eq!(value_cardinality(&dist[0].1), 1);
}

#[test]
fn collection_analysis_tags_and_sums() {
    let fields = vec![
        record("open"),
        record("closed"),
        "{\"attr\":{\"ns\":\"db.users\",\"planSummary\":\"IXSCAN\",\"command\":{\"find\":\"users\",\"sort\":{\"age\":1}}}}".to_string(),
    ];
    let patterns = find_query_patterns(&fields).unwrap();
    let stats = analyze_collection_field_patterns(&patterns);
    assert_eq!(stats.len(), 2);
    assert_eq!(stats[0].0, "orders");
    assert_eq!(
        stats[0].1,
        vec![
            ("filter:status".to_string(), 2),
            ("operation:find".to_string(), 2),
            ("plan:COLLSCAN".to_string(), 2),
        ]
    );
    assert_eq!(stats[1].0, "users");
    assert_eq!(
        stats[1].1,
        vec![
            ("operation:find".to_string(), 1),
            ("plan:IXSCAN".to_string(), 1),
            ("sort:age".to_string(), 1),
        ]
    );
}

#[test]
fn unknown_plan_is_not_counted() {
    let fields =
        vec!["{\"attr\":{\"ns\":\"db.t\",\"command\":{\"find\":\"t\"}}}".to_string()];
    let patterns = find_query_patterns(&fields).unwrap();
    let stats = analyze_collection_field_patterns(&patterns);
    assert_eq!(stats.len(), 1);
    assert_eq!(stats[0].1, vec![("operation:find".to_string(), 1)]);
}

#[test]
fn non_problematic_patterns_are_not_distributed() {
    // An indexed plan with a low count qualifies for no distribution.
    let fields = vec![
        "{\"attr\":{\"ns\":\"db.t\",\"planSummary\":\"IXSCAN\",\"command\":{\"find\":\"t\",\"filter\":{\"k\":\"v\"}}}}".to_string(),
    ];
    let patterns = find_query_patterns(&fields).unwrap();
    let dist = analyze_field_value_distributions(&patterns);
    assert!(dist.is_empty());
}

#[test]
fn concentration_counts_three_largest() {
    let dist = vec![
        ("a".to_string(), 10usize),
        ("b".to_string(), 1usize),
        ("c".to_string(), 7usize),
        ("d".to_string(), 2usize),
        ("e".to_string(), 5usize),
    ];
    let (top3, total) = value_concentration(&dist);
    assert_eq!(total, 25);
    assert_eq!(top3, 22);
    assert_eq!(value_cardinality(&dist), 5);
}
