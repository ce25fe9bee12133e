use query_miner::fragments::extract_fragments;

#[test]
fn round_trip_single_object() {
    let frags = extract_fragments("before text {\"a\": 1} after text");
    assert_eq!(frags.len(), 1);
    assert_eq!(frags[0], "{\"a\": 1}");
}

#[test]
fn nested_braces_form_one_fragment() {
    let frags = extract_fragments("x {\"a\": {\"b\": 2}} y");
    assert_eq!(frags.len(), 1);
    assert_eq!(frags[0], "{\"a\": {\"b\": 2}}");
}

#[test]
fn three_top_level_groups_yield_three_fragments() {
    let frags = extract_fragments("a {1} b {2, {3}} c {4} d");
    assert_eq!(frags.len(), 3);
    assert_eq!(frags[0], "{1}");
    assert_eq!(frags[1], "{2, {3}}");
    assert_eq!(frags[2], "{4}");
}

#[test]
fn trailing_stray_open_braces_are_dropped() {
    let frags = extract_fragments("{ok} tail {{ still open");
    assert_eq!(frags.len(), 1);
    assert_eq!(frags[0], "{ok}");
}

#[test]
fn unclosed_candidate_is_discarded() {
    let frags = extract_fragments("text {never closed");
    assert_eq!(frags.len(), 0);
}

#[test]
fn no_braces_no_fragments() {
    let frags = extract_fragments("plain prose with no json at all");
    assert_eq!(frags.len(), 0);
}

#[test]
fn empty_field_yields_nothing() {
    let frags = extract_fragments("");
    assert_eq!(frags.len(), 0);
}

#[test]
fn stray_close_shifts_baseline() {
    // A closing brace with nothing open pushes the depth negative, so the
    // following opening brace only restores it to zero: no candidate opens
    // there, and only a later pair opened at depth zero is found.
    let frags = extract_fragments("} {ignored {x}");
    assert_eq!(frags.len(), 1);
    assert_eq!(frags[0], "{x}");
    let frags2 = extract_fragments("a {1} } {2");
    assert_eq!(frags2.len(), 1);
    assert_eq!(frags2[0], "{1}");
}
