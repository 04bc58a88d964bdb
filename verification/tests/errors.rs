//! How failures are reported to programs.

use std::collections::HashSet;

use jj_hunk::errors::{payload, Code, CodedError, ErrorCode, ErrorFormat, Payload};
use jj_hunk::names::NameMap;
use jj_hunk::node::{Leaf, Node};
use serde_json::Value;

fn value(node: &Node) -> Value {
    match node {
        Node::Leaf(Leaf::Null) => Value::Null,
        Node::Leaf(Leaf::Bool(b)) => Value::Bool(*b),
        Node::Leaf(Leaf::Number(n)) => serde_json::from_str(n).expect("a number"),
        Node::Leaf(Leaf::Text(text)) => Value::String(text.clone()),
        Node::Array(items) => Value::Array(items.iter().map(value).collect()),
        Node::Object(entries) => {
            Value::Object(entries.iter().map(|(k, v)| (k.clone(), value(v))).collect())
        }
    }
}

fn render_json(report: &Payload) -> String {
    let mut details: serde_json::Map<String, Value> = Default::default();
    for i in 0..report.details.len() {
        details.insert(report.details.key_at(i).clone(), value(report.details.value_at(i)));
    }
    format!(
        "{{\"error\":{},\"code\":{},\"message\":{},\"details\":{}}}",
        Value::from(report.error),
        Value::from(report.code),
        Value::from(report.message.as_str()),
        Value::Object(details)
    )
}

fn json_of(report: Payload) -> Value {
    serde_json::from_str(&render_json(&report)).expect("the reporter must emit valid JSON")
}

fn reported(error: CodedError) -> Payload {
    let message = error.message.clone();
    payload(Some(error), message)
}

#[test]
fn a_coded_error_renders_the_documented_shape() {
    let error = || {
        CodedError::new(
            ErrorCode::new(Code::UnknownId),
            "hunk id 'hunk-dead' matches no hunk".to_string(),
        )
        .with("id", Node::text("hunk-dead"))
    };
    let rendered = render_json(&reported(error()));
    assert!(
        rendered.starts_with(r#"{"error":"selection","code":"UNKNOWN_ID","message":"#),
        "field order is part of the documented shape: {rendered}"
    );

    let json = json_of(reported(error()));
    assert_eq!(json["error"], "selection");
    assert_eq!(json["code"], "UNKNOWN_ID");
    assert_eq!(json["details"]["id"], "hunk-dead");
}

#[test]
fn message_matches_what_human_mode_prints() {
    let error =
        CodedError::new(ErrorCode::new(Code::EmptySelection), "line one\nline two".to_string());
    assert_eq!(json_of(reported(error))["message"], "line one\nline two");
}

#[test]
fn an_uncoded_error_is_still_valid_json() {
    let json = json_of(payload(None, "something nobody has coded".to_string()));
    assert_eq!(json["code"], "UNKNOWN");
    assert_eq!(json["error"], "internal");
    assert_eq!(json["message"], "something nobody has coded");
    assert_eq!(json["details"], Value::Object(Default::default()));
}

#[test]
fn a_code_survives_being_wrapped_in_context() {
    let error = CodedError::new(ErrorCode::new(Code::InvalidGlob), "invalid glob '['".to_string());
    let chain = anyhow::Error::msg(error.message.clone()).context("while filtering the diff");
    let json = json_of(payload(Some(error), format!("{chain:?}")));
    assert_eq!(json["code"], "INVALID_GLOB");
    assert!(
        json["message"].as_str().unwrap().contains("Caused by"),
        "{json}"
    );
}

#[test]
fn details_keep_their_json_types() {
    let error = CodedError::new(ErrorCode::new(Code::RevsetAmbiguous), "too many".to_string())
        .with("revset", Node::text("all()"))
        .with("resolved", Node::number(3))
        .with("revisions", Node::texts(&vec!["aaa".to_string(), "bbb".to_string()]));
    let json = json_of(reported(error));
    assert_eq!(json["details"]["resolved"], 3);
    assert_eq!(json["details"]["revisions"][1], "bbb");
}

#[test]
fn every_code_string_is_distinct() {
    let all = ErrorCode::all();
    let unique: HashSet<&str> = all.iter().map(|c| c.code).collect();
    assert_eq!(unique.len(), all.len());
    assert_eq!(all.len(), 16);
}

#[test]
fn facts_under_one_key_replace_each_other() {
    let error = CodedError::new(ErrorCode::new(Code::Unknown), "x".to_string())
        .with("k", Node::number(1))
        .with("k", Node::number(2));
    assert_eq!(error.details.len(), 1);
    assert_eq!(error.details.get("k"), Some(&Node::number(2)));
    let mut other = NameMap::new();
    other.insert("z".to_string(), Node::text("t"));
    let error = error.with_details(other);
    assert_eq!(error.details.get("k"), None);
    assert_eq!(error.details.get("z"), Some(&Node::text("t")));
}

#[test]
fn people_are_told_in_words_unless_asked_otherwise() {
    assert!(matches!(ErrorFormat::default(), ErrorFormat::Human));
}
