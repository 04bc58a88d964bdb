//! Telling a hunkset from a spec.

use jj_hunk::hunkset::is_hunkset;

#[test]
fn detect_hunkset_vs_json() {
    assert!(is_hunkset("type(insert)"));
    assert!(is_hunkset("all()"));
    assert!(is_hunkset("~type(delete)"));
    assert!(is_hunkset("(type(insert) | type(delete))"));
    assert!(!is_hunkset(r#"{"files": {}}"#));
    assert!(!is_hunkset("[1, 2, 3]"));
}

#[test]
fn bare_all_and_none_are_hunksets() {
    assert!(is_hunkset("all"));
    assert!(is_hunkset("none"));
    assert!(is_hunkset("  all  "));
}

#[test]
fn bang_prefixed_input_is_claimed_as_a_hunkset() {
    assert!(is_hunkset("!import()"));
    assert!(is_hunkset("!type(insert)"));
}

#[test]
fn bare_yaml_scalars_are_not_hunksets() {
    for input in [
        "keep",
        "reset",
        "all: true",
        "none: false",
        "allow",
        "all-of-it",
        "none_at_all",
        "files:\n  a.txt:\n    action: keep",
        "",
        "   ",
    ] {
        assert!(!is_hunkset(input), "{input:?} should not be a hunkset");
    }
}

#[test]
fn a_word_with_a_bracket_further_on_is_not_a_call() {
    assert!(!is_hunkset("name other(x)"));
    assert!(is_hunkset("name (x)"));
    assert!(!is_hunkset("9lives(x)"));
    assert!(!is_hunkset("name"));
}
