//! What is said of an expression that fails.

use jj_hunk::glob::validate_glob;
use jj_hunk::hunkset::error::{IdCandidate, MAX_CONTEXT_WIDTH};
use jj_hunk::hunkset::HunksetError;
use jj_hunk::node::Node;

const ELLIPSIS: &str = "...";

fn item(node: &Node, at: usize) -> &Node {
    match node {
        Node::Array(items) => &items[at],
        other => panic!("expected an array, got {other:?}"),
    }
}

fn entry<'a>(node: &'a Node, key: &str) -> &'a Node {
    match node {
        Node::Object(entries) => &entries.iter().find(|(k, _)| k == key).expect(key).1,
        other => panic!("expected an object, got {other:?}"),
    }
}

const UNCLOSED_CLASS: &str = "[";

fn parse_error(input: &str, position: usize) -> HunksetError {
    HunksetError::Parse {
        message: "boom".to_string(),
        input: input.to_string(),
        position,
    }
}

fn rendered(input: &str, position: usize) -> (String, usize, String) {
    let display = parse_error(input, position).display_with_context();
    let mut lines = display.lines();
    let text = lines.next().expect("input line").to_string();
    let caret = lines.next().expect("caret line");
    let message = lines.next().expect("message line").to_string();
    (text, caret.find('^').expect("caret"), message)
}

#[test]
fn short_input_is_echoed_whole() {
    let (text, caret, message) = rendered("type(insert", 11);
    assert_eq!(text, "type(insert");
    assert_eq!(caret, 11);
    assert_eq!(message, "boom");
}

#[test]
fn caret_lands_on_the_offending_character() {
    let input = "all() ~ none() ~ all()";
    let (_, caret, _) = rendered(input, 15);
    assert_eq!(input.chars().nth(caret), Some('~'));
}

#[test]
fn long_input_is_windowed_around_the_caret() {
    let mut input = "(".repeat(5_000);
    input.push('@');
    input.push_str(&")".repeat(5_000));

    let (text, caret, message) = rendered(&input, 5_000);
    assert!(
        text.chars().count() <= MAX_CONTEXT_WIDTH + 2 * ELLIPSIS.chars().count(),
        "context was not windowed: {} chars",
        text.chars().count()
    );
    assert_eq!(text.chars().nth(caret), Some('@'), "caret moved off target");
    assert!(text.starts_with(ELLIPSIS) && text.ends_with(ELLIPSIS));
    assert_eq!(message, "boom");
}

#[test]
fn window_keeps_context_when_the_caret_sits_at_either_end() {
    let mut at_start = String::from("@");
    at_start.push_str(&"x".repeat(500));
    let (text, caret, _) = rendered(&at_start, 0);
    assert_eq!(text.chars().nth(caret), Some('@'));
    assert!(!text.starts_with(ELLIPSIS), "no elision needed at the start");

    let at_end = format!("{}@", "x".repeat(500));
    let (text, caret, _) = rendered(&at_end, 500);
    assert_eq!(text.chars().nth(caret), Some('@'));
    assert!(text.starts_with(ELLIPSIS));
}

#[test]
fn caret_is_placed_within_the_offending_line_not_the_whole_input() {
    let input = "type(insert)\n  | file(\"a\"\n  | all()";
    let position = input.chars().take_while(|c| *c != 'f').count();
    let (text, caret, _) = rendered(input, position);
    assert_eq!(text, "  | file(\"a\"");
    assert_eq!(caret, 4);
}

#[test]
fn non_ascii_input_does_not_push_the_caret_off_target() {
    let input = "file(\"héllo\") @";
    let position = input.chars().take_while(|c| *c != '@').count();
    let (text, caret, _) = rendered(input, position);
    assert_eq!(text.chars().nth(caret), Some('@'));
}

#[test]
fn non_parse_errors_are_shown_plainly() {
    let err = HunksetError::UnknownFunction { name: "nope".into() };
    assert_eq!(err.display_with_context(), "unknown function 'nope'");
}

#[test]
fn every_variant_maps_to_its_own_code() {
    let cases: Vec<(HunksetError, &str)> = vec![
        (parse_error("type(insert", 11), "PARSE_ERROR"),
        (
            HunksetError::UnknownFunction { name: "nope".into() },
            "UNKNOWN_FUNCTION",
        ),
        (
            HunksetError::InvalidRegex {
                pattern: UNCLOSED_CLASS.to_string(),
                reason: "unclosed character class".to_string(),
            },
            "INVALID_REGEX",
        ),
        (
            HunksetError::InvalidGlob {
                source: validate_glob(UNCLOSED_CLASS).unwrap_err(),
            },
            "INVALID_GLOB",
        ),
        (HunksetError::UnknownId { id: "hunk-dead".into() }, "UNKNOWN_ID"),
        (
            HunksetError::AmbiguousId {
                prefix: "hunk-a".into(),
                candidates: vec![IdCandidate {
                    short_id: "hunk-abcd1234".into(),
                    path: "a.txt".into(),
                }],
            },
            "AMBIGUOUS_ID",
        ),
        (
            HunksetError::InvalidArgument {
                func: "type".into(),
                value: "nope".into(),
                valid: "insert".into(),
            },
            "INVALID_ARGUMENT",
        ),
        (
            HunksetError::SemanticFeatureRequired { name: "function".into() },
            "SEMANTIC_FEATURE_REQUIRED",
        ),
    ];

    let mut seen = std::collections::HashSet::new();
    for (error, expected) in &cases {
        assert_eq!(error.code().code, *expected, "{error:?}");
        assert!(seen.insert(*expected), "{expected} used twice");
    }
}

#[test]
fn details_carry_the_facts_the_message_used_to_bury() {
    let ambiguous = HunksetError::AmbiguousId {
        prefix: "hunk-a".into(),
        candidates: vec![
            IdCandidate { short_id: "hunk-abcd1234".into(), path: "a.txt".into() },
            IdCandidate { short_id: "hunk-af005ba1".into(), path: "b.txt".into() },
        ],
    };
    let details = ambiguous.details();
    assert_eq!(details.get("count"), Some(&Node::number(2)));
    let second = item(details.get("candidates").unwrap(), 1);
    assert_eq!(entry(second, "short_id"), &Node::text("hunk-af005ba1"));
    assert_eq!(entry(second, "path"), &Node::text("b.txt"));
    assert!(ambiguous.message().contains("hunk-af005ba1 (b.txt)"));

    let glob = HunksetError::InvalidGlob {
        source: validate_glob("[").unwrap_err(),
    };
    assert_eq!(glob.details().get("pattern"), Some(&Node::text("[")));

    let semantic = HunksetError::SemanticFeatureRequired { name: "function".into() };
    assert_eq!(semantic.details().get("predicate"), Some(&Node::text("function")));
}

#[test]
fn a_parse_error_reports_the_line_and_the_column_separately() {
    let input = "type(insert)\n  | file(\"a\"\n  | all()";
    let position = input.chars().take_while(|c| *c != 'f').count();
    let details = parse_error(input, position).details();

    assert_eq!(details.get("position"), Some(&Node::number(position)));
    assert_eq!(details.get("line"), Some(&Node::number(2)));
    assert_eq!(details.get("column"), Some(&Node::number(4)));
    assert_eq!(details.get("input"), Some(&Node::text(input)));
}

#[test]
fn every_failure_reads_as_it_should() {
    let cases = vec![
        (parse_error("x", 0), "boom"),
        (
            HunksetError::InvalidRegex { pattern: "(".into(), reason: "why".into() },
            "invalid regex '(': why",
        ),
        (
            HunksetError::InvalidGlob { source: validate_glob("[").unwrap_err() },
            "invalid glob '[': unclosed '[' -- a character class needs a matching ']'",
        ),
        (
            HunksetError::UnknownId { id: "hunk-dead".into() },
            "hunk id 'hunk-dead' matches no hunk in this diff -- ids change when the hunk's \
             content or its file changes, so one copied from an earlier listing may be stale. \
             Run 'list' again for the current ids.",
        ),
        (
            HunksetError::AmbiguousId {
                prefix: "hunk-a".into(),
                candidates: vec![
                    IdCandidate { short_id: "hunk-ab".into(), path: "a.txt".into() },
                    IdCandidate { short_id: "hunk-ac".into(), path: "b.txt".into() },
                ],
            },
            "hunk id 'hunk-a' is ambiguous -- it matches 2 hunks: hunk-ab (a.txt), hunk-ac \
             (b.txt). Use more characters, or exact:\"<full-id>\".",
        ),
        (
            HunksetError::InvalidArgument {
                func: "type".into(),
                value: "x".into(),
                valid: "insert".into(),
            },
            "type() does not accept 'x' -- valid values are: insert",
        ),
        (
            HunksetError::SemanticFeatureRequired { name: "doc".into() },
            "doc() requires the 'semantic' feature (build with --features semantic)",
        ),
    ];
    for (error, expected) in cases {
        assert_eq!(error.message(), expected);
    }
}

#[test]
fn a_coded_failure_keeps_its_facts() {
    let error = HunksetError::UnknownFunction { name: "nope".into() };
    let coded = error.coded("while reading: nope".to_string());
    assert_eq!(coded.code.code, "UNKNOWN_FUNCTION");
    assert_eq!(coded.code.category, "selection");
    assert_eq!(coded.message, "while reading: nope");
    assert_eq!(coded.details.len(), error.details().len());
}
