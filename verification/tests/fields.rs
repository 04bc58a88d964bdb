//! Which fields of a listing are sent.

use jj_hunk::errors::CodedError;
use jj_hunk::fields::{
    always_included, registered_file_keys, registered_hunk_keys, semantic_keys, valid_names,
    FieldMask,
};
use jj_hunk::node::{Leaf, Node};

const HUNKS: &str = "hunks";
const SEMANTIC: &str = "semantic";
const SEMANTIC_START: usize = 9;

fn names(spec: &str) -> Vec<String> {
    spec.split(',').map(str::to_string).collect()
}

fn mask(spec: &str) -> FieldMask {
    match FieldMask::parse(&names(spec)) {
        Ok(mask) => mask,
        Err(e) => panic!("mask should parse: {}", e.message),
    }
}

fn rejection(spec: &str) -> CodedError {
    match FieldMask::parse(&names(spec)) {
        Ok(_) => panic!("mask should be refused"),
        Err(e) => e,
    }
}

fn rejected(spec: &str) -> Vec<String> {
    listed(&rejection(spec), "fields")
}

fn listed(error: &CodedError, key: &str) -> Vec<String> {
    match error.details.get(key) {
        Some(Node::Array(items)) => items
            .iter()
            .map(|item| match item {
                Node::Leaf(Leaf::Text(text)) => text.clone(),
                other => panic!("expected a text, got {other:?}"),
            })
            .collect(),
        other => panic!("expected a list under {key}, got {other:?}"),
    }
}

fn texts(items: &[&str]) -> Vec<String> {
    items.iter().map(|item| item.to_string()).collect()
}

#[test]
fn the_two_levels_share_no_field_name() {
    let hunk = registered_hunk_keys();
    for file_key in registered_file_keys() {
        assert!(
            !hunk.contains(&file_key),
            "'{file_key}' is both a file field and a hunk field, so the bare spelling of it is \
             ambiguous"
        );
    }
    assert!(!hunk.contains(&HUNKS.to_string()));
    assert!(!hunk.contains(&SEMANTIC.to_string()));
    assert!(!registered_file_keys().contains(&SEMANTIC.to_string()));
}

#[test]
fn the_semantic_group_is_exactly_the_flattened_struct() {
    assert_eq!(
        registered_hunk_keys()[SEMANTIC_START..],
        [
            "enclosing_function",
            "enclosing_scope",
            "annotations",
            "is_doc_comment",
            "is_import",
            "is_toplevel",
            "nesting_depth",
            "is_analyzed",
        ]
    );
    assert_eq!(registered_hunk_keys()[SEMANTIC_START..], semantic_keys()[..]);
    assert_eq!(mask("hunks.semantic").hunk.len(), 8);
}

#[test]
fn dotted_and_bare_hunk_names_mean_the_same_thing() {
    assert_eq!(mask("hunks.id").hunk, mask("id").hunk);
    assert_eq!(mask("path,hunks.type").file, mask("path,type").file);
    assert_eq!(mask("path,hunks.type").hunk, mask("path,type").hunk);
}

#[test]
fn hunks_alone_names_every_hunk_field() {
    assert_eq!(mask(HUNKS).hunk.len(), registered_hunk_keys().len());
    assert!(mask(HUNKS).file.is_empty());
}

#[test]
fn the_hunks_prefix_does_not_reach_file_fields() {
    assert_eq!(rejected("hunks.path")[0], "hunks.path");
    assert_eq!(rejected("files.path")[0], "files.path");
}

#[test]
fn a_name_beginning_with_hunks_is_not_a_prefix() {
    assert_eq!(rejected("hunkset")[0], "hunkset");
}

#[test]
fn a_typo_is_refused_with_the_list_to_correct_it_from() {
    let error = rejection("paht,id");
    assert_eq!(listed(&error, "fields"), texts(&["paht"]));

    let valid = listed(&error, "valid_fields");
    assert!(valid.iter().any(|name| name == "path"), "{valid:?}");
    assert!(valid.iter().any(|name| name == "hunks.id"), "{valid:?}");
    assert_eq!(
        listed(&error, "always_included"),
        texts(&["rename", "binary", "mode", "symlink", "truncated"])
    );
}

#[test]
fn every_unknown_name_is_reported_together() {
    assert_eq!(rejected("paht,id,tpye"), texts(&["paht", "tpye"]));
}

#[test]
fn blank_entries_are_forgiven_but_a_blank_mask_is_not() {
    assert_eq!(mask("path,,hunks.id").file.len(), 1);
    assert!(rejected(",").is_empty());
    assert!(rejected("").is_empty());
}

#[test]
fn a_refusal_says_what_could_have_been_said() {
    let one = rejection("paht");
    assert_eq!(one.code.code, "INVALID_FIELDS");
    let offered = valid_names().join(", ");
    assert_eq!(
        one.message,
        format!("--fields names no such output field: 'paht'\nvalid fields: {offered}")
    );
    let two = rejection("paht,tpye");
    assert!(two.message.starts_with("--fields names no such output fields: 'paht', 'tpye'\n"));
    let none = rejection(" ");
    assert!(none.message.starts_with("--fields requires at least one field name\n"));
    assert_eq!(valid_names().len(), 8 + 17 + 1);
    for name in valid_names() {
        assert!(FieldMask::parse(&vec![name]).is_ok());
    }
}

fn object(entries: Vec<(&str, Node)>) -> Node {
    Node::Object(entries.into_iter().map(|(k, v)| (k.to_string(), v)).collect())
}

fn flag() -> Node {
    Node::Leaf(Leaf::Bool(true))
}

fn entry() -> Node {
    object(vec![
        ("path", Node::text("a.txt")),
        ("status", Node::text("modified")),
        ("rename", object(vec![("from", Node::text("b.txt"))])),
        (
            "hunks",
            Node::Array(vec![object(vec![
                ("index", Node::number(0)),
                ("id", Node::text("hunk-1")),
                ("removed", Node::text("x")),
                ("new_key", Node::text("kept")),
            ])]),
        ),
        ("truncated", flag()),
    ])
}

fn listing() -> Node {
    object(vec![
        ("files", Node::Array(vec![entry()])),
        (
            "groups",
            Node::Array(vec![object(vec![
                ("name", Node::text("src")),
                ("files", Node::Array(vec![entry()])),
            ])]),
        ),
    ])
}

#[test]
fn a_mask_keeps_what_it_names_and_what_it_may_not_drop() {
    let masked = mask("path,hunks.id").apply(object(vec![("files", Node::Array(vec![entry()]))]));
    assert_eq!(
        masked,
        object(vec![(
            "files",
            Node::Array(vec![object(vec![
                ("path", Node::text("a.txt")),
                ("rename", object(vec![("from", Node::text("b.txt"))])),
                (
                    "hunks",
                    Node::Array(vec![object(vec![
                        ("id", Node::text("hunk-1")),
                        ("new_key", Node::text("kept")),
                    ])])
                ),
                ("truncated", flag()),
            ])])
        )])
    );
}

#[test]
fn a_mask_without_hunk_fields_shows_no_hunks() {
    let masked = mask("status").apply(listing());
    let shown = object(vec![
        ("status", Node::text("modified")),
        ("rename", object(vec![("from", Node::text("b.txt"))])),
        ("truncated", flag()),
    ]);
    match masked {
        Node::Object(entries) => {
            assert_eq!(entries[0].1, Node::Array(vec![shown]));
            match &entries[1].1 {
                Node::Array(groups) => match &groups[0] {
                    Node::Object(group) => {
                        assert_eq!(group[0].1, Node::text("src"));
                        assert_ne!(group[1].1, Node::Array(vec![entry()]));
                    }
                    other => panic!("{other:?}"),
                },
                other => panic!("{other:?}"),
            }
        }
        other => panic!("{other:?}"),
    }
}

#[test]
fn asking_for_everything_leaves_a_listing_alone() {
    let all = mask("path,status,hunks");
    assert_eq!(all.apply(listing()), listing());
    let some = mask("path");
    assert_eq!(some.apply(some.apply(listing())), some.apply(listing()));
    assert_eq!(always_included().len(), 5);
}
