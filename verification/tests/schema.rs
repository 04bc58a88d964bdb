//! What is told of the language is what the language does.

use std::collections::HashSet;

use jj_hunk::diff::{Hunk, LineRange, SemanticInfo};
use jj_hunk::errors::{Code, ErrorCode};
use jj_hunk::hunkset::ast::PatternKind;
use jj_hunk::hunkset::eval::evaluate_with;
use jj_hunk::hunkset::{evaluate, parse, EnrichedHunk, HunksetError};
use jj_hunk::schema::{
    class_of, classes, command, constants, errors, kind_name, needs_semantic, operators,
    pattern_prefixes, predicate_facts, predicates, prefixes_for, reaches_hunkless, shape_of,
    values_for, CommandFacts, SCHEMA_VERSION,
};

const SEMANTIC_ENABLED: bool = true;

fn real_hunk() -> Hunk {
    Hunk {
        index: 0,
        id: format!("hunk-{}", "ab".repeat(32)),
        short_id: "hunk-abab".to_string(),
        hunk_type: "insert".to_string(),
        removed: "gone\n".to_string(),
        added: "TODO\n".to_string(),
        before_range: LineRange {
            start: 1,
            length: 1,
        },
        after_range: LineRange {
            start: 1,
            length: 1,
        },
        context: None,
        semantic: SemanticInfo {
            enclosing_function: Some("f".to_string()),
            enclosing_scope: Some("S".to_string()),
            annotations: vec!["test".to_string()],
            is_doc_comment: true,
            is_import: true,
            is_toplevel: true,
            nesting_depth: 0,
            is_analyzed: true,
        },
    }
}

fn stand_in_hunk() -> Hunk {
    Hunk {
        index: 0,
        id: "whole-file:b.rs".to_string(),
        short_id: "whole-file:b.rs".to_string(),
        hunk_type: "replace".to_string(),
        removed: String::new(),
        added: String::new(),
        before_range: LineRange {
            start: 0,
            length: 0,
        },
        after_range: LineRange {
            start: 0,
            length: 0,
        },
        context: None,
        semantic: SemanticInfo::default(),
    }
}

fn probe_for(name: &str) -> &'static str {
    match name {
        "file" => r#"file(glob:"*.rs")"#,
        "glob" => r#"glob("*.rs")"#,
        "extension" => r#"extension("rs")"#,
        "status" => r#"status("modified", "renamed")"#,
        "type" => r#"type("insert", "replace")"#,
        "content" => r#"content("")"#,
        "added" => r#"added("")"#,
        "removed" => r#"removed("")"#,
        "lines" => "lines(0..1000)",
        "before_line" => "before_line(0..1000)",
        "after_line" => "after_line(0..1000)",
        "id" => r#"id("hunk-abab")"#,
        "function" => r#"function("f")"#,
        "scope" => r#"scope("S")"#,
        "annotation" => "annotation()",
        "decorator" => "decorator()",
        "doc" => "doc()",
        "import" => "import()",
        "toplevel" => "toplevel()",
        "depth" => "depth(0..100)",
        other => panic!(
            "no probe expression for {other}() -- add one, or the class it claims goes unchecked"
        ),
    }
}

fn probe(expr: &str) -> HashSet<usize> {
    let (real, stand_in) = (real_hunk(), stand_in_hunk());
    let hunks = vec![
        EnrichedHunk::from_diff("a.rs", None, "modified", &real),
        EnrichedHunk::stand_in("b.rs", Some("was-b.rs"), "renamed", &stand_in),
    ];
    let parsed = parse(expr).unwrap_or_else(|e| panic!("probe {expr:?} does not parse: {e:?}"));
    evaluate(&parsed, &hunks).unwrap_or_default()
}

#[test]
fn class_matches_what_each_predicate_does_to_a_hunkless_change() {
    for facts in predicate_facts() {
        let expression = probe_for(facts.name);
        let selected = probe(expression);

        if needs_semantic(facts.name) && !SEMANTIC_ENABLED {
            assert!(
                selected.is_empty(),
                "{expression} matched something in a build without the semantic feature"
            );
            continue;
        }

        assert!(
            selected.contains(&0),
            "the probe {expression} does not even match an ordinary hunk, so it proves \
             nothing about {}()'s class",
            facts.name
        );
        assert_eq!(
            selected.contains(&1),
            reaches_hunkless(facts.name),
            "{}() is advertised as class {:?} (reaches_hunkless_changes = {}), but \
             {expression} {} the hunkless change",
            facts.name,
            class_of(facts.name),
            reaches_hunkless(facts.name),
            if selected.contains(&1) {
                "selected"
            } else {
                "did not select"
            }
        );
    }
}

#[test]
fn the_constants_reach_what_they_claim_to() {
    for constant in constants() {
        let (name, reaches) = (constant.name, constant.reaches_hunkless_changes);
        let selected = probe(name);
        assert_eq!(
            selected.contains(&1),
            reaches,
            "{name} claims reaches_hunkless_changes = {reaches}"
        );
    }
    assert_eq!(probe("all").len(), 2, "all must reach every change");
    assert!(probe("none").is_empty(), "none must reach nothing");
}

#[test]
fn the_constants_take_no_arguments() {
    for name in ["all", "none"] {
        assert!(
            parse(&format!(r#"{name}("x")"#)).is_err(),
            "{name} accepted an argument, so it is a predicate now"
        );
    }
}

#[test]
fn a_stand_ins_internal_name_is_not_an_id() {
    let expr = parse(r#"id("whole-file:b.rs")"#).expect("parses");
    let (real, stand_in) = (real_hunk(), stand_in_hunk());
    let hunks = vec![
        EnrichedHunk::from_diff("a.rs", None, "modified", &real),
        EnrichedHunk::stand_in("b.rs", Some("was-b.rs"), "renamed", &stand_in),
    ];
    assert!(
        evaluate(&expr, &hunks).is_err(),
        "a stand-in's internal name was accepted as a hunk id"
    );
}

#[test]
fn advertised_pattern_prefixes_are_the_ones_the_evaluator_accepts() {
    for facts in predicate_facts() {
        let (_, argument) = shape_of(facts.name);
        if argument != "pattern" {
            continue;
        }
        let value = match values_for(facts.name) {
            Some(values) => values[0].clone(),
            None if facts.name == "id" => "abcd".to_string(),
            None => "x".to_string(),
        };
        let advertised = prefixes_for(facts.name, argument);
        for prefix in pattern_prefixes() {
            let expr = format!(r#"{}({prefix}:"{value}")"#, facts.name);
            let parsed = parse(&expr).expect("a prefixed call must parse");
            let refused = matches!(
                evaluate(&parsed, &[]),
                Err(HunksetError::InvalidArgument { .. })
            );
            assert_eq!(
                !refused,
                advertised.contains(&prefix),
                "{expr} is {} by the evaluator, but the schema advertises {advertised:?}",
                if refused { "refused" } else { "accepted" }
            );
        }
    }
}

#[test]
fn published_value_sets_match_the_predicates_that_are_validated_against_one() {
    for facts in predicate_facts() {
        if shape_of(facts.name).1 != "pattern" {
            continue;
        }
        let expr = parse(&format!(r#"{}(exact:"no-such-value")"#, facts.name)).expect("parses");
        let held = matches!(
            evaluate(&expr, &[]),
            Err(HunksetError::InvalidArgument { valid, .. })
                if values_for(facts.name).is_some_and(|values| values.join(", ") == valid)
        );
        assert_eq!(held, values_for(facts.name).is_some(), "{}", facts.name);
    }
}

#[test]
fn every_declared_error_code_is_published() {
    let declared = [
        Code::ParseError,
        Code::UnknownFunction,
        Code::InvalidArgument,
        Code::InvalidGlob,
        Code::InvalidRegex,
        Code::UnknownId,
        Code::AmbiguousId,
        Code::SemanticFeatureRequired,
        Code::EmptySelection,
        Code::PathNotInDiff,
        Code::RevsetUnresolved,
        Code::RevsetAmbiguous,
        Code::TruncatedSpecTemplate,
        Code::PathOutsideWorkspace,
        Code::InvalidFields,
        Code::Unknown,
    ];
    let declared: HashSet<&str> = declared.into_iter().map(|c| ErrorCode::new(c).code).collect();
    let published: HashSet<&str> = errors().iter().map(|e| e.code).collect();
    assert_eq!(declared, published);
}

#[test]
fn the_predicate_list_matches_the_evaluators_dispatch_table() {
    let dispatch: HashSet<&str> = [
        "file", "glob", "extension", "status", "type", "content", "added", "removed", "lines",
        "before_line", "after_line", "id", "function", "scope", "annotation", "decorator", "doc",
        "import", "toplevel", "depth",
    ]
    .into_iter()
    .collect();
    let schema: HashSet<&str> = predicate_facts().iter().map(|p| p.name).collect();
    assert_eq!(dispatch, schema);
}

#[test]
fn advertised_names_resolve_and_unadvertised_ones_do_not() {
    for facts in predicate_facts() {
        let expr = parse(&format!("{}()", facts.name)).expect("a call must parse");
        if let Err(HunksetError::UnknownFunction { name }) = evaluate(&expr, &[]) {
            panic!("the schema advertises {name}(), which the evaluator does not implement");
        }
    }
    for name in ["nope", "path", "text", "files", "hunk", "annotations"] {
        let expr = parse(&format!("{name}()")).expect("a call must parse");
        assert!(
            matches!(
                evaluate(&expr, &[]),
                Err(HunksetError::UnknownFunction { .. })
            ),
            "{name}() is not in the schema but the evaluator resolved it"
        );
    }
}

#[test]
fn unavailable_predicates_are_exactly_the_ones_this_build_refuses() {
    for facts in predicate_facts() {
        let expr = parse(probe_for(facts.name)).expect("probe parses");
        let refused = matches!(
            evaluate_with(&expr, &[], false).0,
            Err(HunksetError::SemanticFeatureRequired { .. })
        );
        assert_eq!(refused, needs_semantic(facts.name), "{}", facts.name);
    }
    assert!(
        predicates(false).iter().any(|p| !p.available),
        "no predicate reported unavailable in a build without the semantic feature"
    );
}

#[test]
fn a_semantic_build_refuses_no_predicate() {
    for facts in predicate_facts() {
        let expr = parse(probe_for(facts.name)).expect("probe parses");
        assert!(
            !matches!(
                evaluate_with(&expr, &[], true).0,
                Err(HunksetError::SemanticFeatureRequired { .. })
            ),
            "{}() was refused for the semantic feature in a build that has it",
            facts.name
        );
        assert!(
            predicates(true)
                .iter()
                .any(|p| p.name == facts.name && p.available),
            "{}() is reported unavailable in a build with the semantic feature",
            facts.name
        );
    }
}

#[test]
fn the_published_shape_has_the_documented_fields() {
    assert_eq!(SCHEMA_VERSION, 1);
    let all = predicates(true);
    let content = all.iter().find(|p| p.name == "content").expect("content() must be published");
    assert_eq!(content.class, "content");
    assert!(!content.reaches_hunkless_changes);
    assert_eq!(content.default_pattern_kind, Some("substring"));
    assert_eq!((content.arity, content.argument), ("one_or_more", "pattern"));
    assert_eq!(content.requires_feature, None);

    let entry = command(CommandFacts {
        name: "list".to_string(),
        about: Some("List hunks".to_string()),
        arguments: vec!["spec".to_string()],
    });
    assert_eq!(entry.name, "list");
    assert!(entry.accepts_selection);
    assert!(!entry.has_allow_empty);
    assert!(!entry.has_dry_run);
}

#[test]
fn the_rest_of_the_language_is_told_of() {
    let names: Vec<&str> = classes().iter().map(|c| c.name).collect();
    assert_eq!(names, ["file", "content", "semantic"]);
    let operators: Vec<(&str, &str)> = operators().iter().map(|o| (o.position, o.name)).collect();
    assert_eq!(
        operators,
        [
            ("infix", "union"),
            ("infix", "intersection"),
            ("infix", "difference"),
            ("prefix", "negation"),
        ]
    );
    assert_eq!(kind_name(PatternKind::Regex), "regex");
    let id = predicates(true).into_iter().find(|p| p.name == "id").unwrap();
    assert_eq!(id.pattern_prefixes, ["exact"]);
    let depth = predicates(false).into_iter().find(|p| p.name == "depth").unwrap();
    assert!(depth.pattern_prefixes.is_empty() && !depth.available);
    assert_eq!(depth.requires_feature, Some("semantic"));
    let status = predicates(true).into_iter().find(|p| p.name == "status").unwrap();
    assert_eq!(status.values.unwrap().len(), 5);
}
