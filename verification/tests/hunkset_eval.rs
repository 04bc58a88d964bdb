//! What expressions select. A test runs on a thread with a stack of two MiB, so a
//! chain that took a stack as deep as it is long would not get through.

use std::collections::HashSet;

use jj_hunk::diff::{Hunk, LineRange, SemanticInfo};
use jj_hunk::hunkset::eval::{
    arg_shape, default_kind, evaluate_with, extension, status_values, type_values, ArgShape,
};
use jj_hunk::hunkset::ast::PatternKind;
use jj_hunk::hunkset::{evaluate, parse, to_spec, EnrichedHunk, HunksetError};
use jj_hunk::names::NameMap;
use jj_hunk::spec::{DefaultAction, FileSpec, Spec};

fn sources(pairs: &[(&str, &str)]) -> NameMap<String> {
    let mut map = NameMap::new();
    for (path, from) in pairs {
        map.insert(path.to_string(), from.to_string());
    }
    map
}

fn keys(spec: &Spec) -> Vec<&str> {
    (0..spec.files.len()).map(|i| spec.files.key_at(i).as_str()).collect()
}

fn make_hunk(index: usize, hunk_type: &str, removed: &str, added: &str) -> Hunk {
    Hunk {
        index,
        id: format!("hunk-{:064x}", index),
        short_id: format!("hunk-{:08x}", index),
        hunk_type: hunk_type.to_string(),
        removed: removed.to_string(),
        added: added.to_string(),
        before_range: LineRange {
            start: index * 10 + 1,
            length: if removed.is_empty() { 0 } else { removed.lines().count() },
        },
        after_range: LineRange {
            start: index * 10 + 1,
            length: if added.is_empty() { 0 } else { added.lines().count() },
        },
        context: None,
        semantic: SemanticInfo { is_analyzed: true, ..Default::default() },
    }
}

#[test]
fn eval_type_filter() {
    let hunks_data = [
        make_hunk(0, "insert", "", "new line\n"),
        make_hunk(1, "delete", "old line\n", ""),
        make_hunk(2, "replace", "before\n", "after\n"),
    ];
    let enriched: Vec<EnrichedHunk> = hunks_data
        .iter()
        .map(|h| EnrichedHunk::from_diff("src/lib.rs", None, "modified", h))
        .collect();

    assert_eq!(evaluate(&parse("type(insert)").unwrap(), &enriched).unwrap(), HashSet::from([0]));
    assert_eq!(evaluate(&parse("type(insert) | type(delete)").unwrap(), &enriched).unwrap(), HashSet::from([0, 1]));
}

#[test]
fn eval_file_filter() {
    let h1 = make_hunk(0, "insert", "", "x\n");
    let h2 = make_hunk(1, "insert", "", "y\n");
    let enriched = vec![
        EnrichedHunk::from_diff("src/lib.rs", None, "modified", &h1),
        EnrichedHunk::from_diff("tests/test.rs", None, "added", &h2),
    ];
    assert_eq!(evaluate(&parse(r#"file("src/lib.rs")"#).unwrap(), &enriched).unwrap(), HashSet::from([0]));
}

#[test]
fn eval_glob_filter() {
    let h1 = make_hunk(0, "insert", "", "x\n");
    let h2 = make_hunk(1, "insert", "", "y\n");
    let enriched = vec![
        EnrichedHunk::from_diff("src/lib.rs", None, "modified", &h1),
        EnrichedHunk::from_diff("tests/test.rs", None, "added", &h2),
    ];
    assert_eq!(evaluate(&parse(r#"glob("src/**/*.rs")"#).unwrap(), &enriched).unwrap(), HashSet::from([0]));
}

#[test]
fn eval_content_filter() {
    let h1 = make_hunk(0, "insert", "", "TODO: fix this\n");
    let h2 = make_hunk(1, "replace", "old code\n", "new code\n");
    let enriched = vec![
        EnrichedHunk::from_diff("a.rs", None, "modified", &h1),
        EnrichedHunk::from_diff("b.rs", None, "modified", &h2),
    ];
    assert_eq!(evaluate(&parse(r#"added("TODO")"#).unwrap(), &enriched).unwrap(), HashSet::from([0]));
    assert_eq!(evaluate(&parse(r#"removed("old")"#).unwrap(), &enriched).unwrap(), HashSet::from([1]));
}

#[test]
fn eval_intersection_and_difference() {
    let h1 = make_hunk(0, "insert", "", "new\n");
    let h2 = make_hunk(1, "insert", "", "also new\n");
    let h3 = make_hunk(2, "delete", "gone\n", "");
    let enriched = vec![
        EnrichedHunk::from_diff("src/a.rs", None, "modified", &h1),
        EnrichedHunk::from_diff("src/b.rs", None, "modified", &h2),
        EnrichedHunk::from_diff("tests/c.rs", None, "modified", &h3),
    ];
    assert_eq!(evaluate(&parse(r#"type(insert) & glob("src/**")"#).unwrap(), &enriched).unwrap(), HashSet::from([0, 1]));
    assert_eq!(evaluate(&parse("all() ~ type(delete)").unwrap(), &enriched).unwrap(), HashSet::from([0, 1]));
}

#[test]
fn eval_lines_filter() {
    let mut h1 = make_hunk(0, "replace", "old\n", "new\n");
    h1.before_range.start = 5;
    h1.before_range.length = 1;
    let mut h2 = make_hunk(1, "insert", "", "added\n");
    h2.before_range.start = 25;
    h2.before_range.length = 0;
    let enriched = vec![
        EnrichedHunk::from_diff("a.rs", None, "modified", &h1),
        EnrichedHunk::from_diff("a.rs", None, "modified", &h2),
    ];
    assert_eq!(evaluate(&parse("lines(1..10)").unwrap(), &enriched).unwrap(), HashSet::from([0]));
    assert_eq!(evaluate(&parse("lines(20..30)").unwrap(), &enriched).unwrap(), HashSet::from([1]));
}

#[test]
fn eval_to_spec() {
    let h1 = make_hunk(0, "insert", "", "x\n");
    let h2 = make_hunk(1, "delete", "y\n", "");
    let enriched = vec![
        EnrichedHunk::from_diff("src/a.rs", None, "modified", &h1),
        EnrichedHunk::from_diff("src/b.rs", None, "modified", &h2),
    ];
    let selected = HashSet::from([0]);
    let spec = to_spec(&selected, &enriched, &NameMap::new());
    assert_eq!(spec.default, DefaultAction::Reset);
    assert!(spec.files.get("src/a.rs").is_some());
    assert!(!spec.files.get("src/b.rs").is_some());
    assert_eq!(spec.files.get("src/a.rs").unwrap().source_path(), None);
}

#[test]
fn to_spec_carries_the_rename_source() {
    let h = make_hunk(0, "replace", "old\n", "new\n");
    let enriched = vec![EnrichedHunk::from_diff("dst.rs", None, "renamed", &h)];
    let renames = sources(&[("dst.rs", "src.rs")]);
    let spec = to_spec(&HashSet::from([0]), &enriched, &renames);
    assert_eq!(spec.files.get("dst.rs").unwrap().source_path(), Some("src.rs"));
}

#[test]
fn a_path_predicate_matches_a_rename_by_the_path_it_came_from() {
    let h1 = make_hunk(0, "replace", "old\n", "new\n");
    let h2 = make_hunk(1, "replace", "p\n", "q\n");
    let enriched = vec![
        EnrichedHunk::from_diff("exposed.txt", Some("secret/keys.txt"), "renamed", &h1),
        EnrichedHunk::from_diff("public.txt", None, "modified", &h2),
    ];

    for expr in [r#"glob("secret/*")"#, r#"file("secret/keys.txt")"#] {
        assert_eq!(
            evaluate(&parse(expr).unwrap(), &enriched).unwrap(),
            HashSet::from([0]),
            "{expr} did not reach the path the file was renamed from"
        );
    }
    assert_eq!(
        evaluate(&parse(r#"file("exposed.txt")"#).unwrap(), &enriched).unwrap(),
        HashSet::from([0]),
    );
}

#[test]
fn negating_a_path_predicate_drops_a_rename_out_of_that_path() {
    let h1 = make_hunk(0, "replace", "old\n", "new\n");
    let h2 = make_hunk(1, "replace", "p\n", "q\n");
    let enriched = vec![
        EnrichedHunk::from_diff("exposed.txt", Some("secret/keys.txt"), "renamed", &h1),
        EnrichedHunk::from_diff("public.txt", None, "modified", &h2),
    ];
    assert_eq!(
        evaluate(&parse(r#"~glob("secret/*")"#).unwrap(), &enriched).unwrap(),
        HashSet::from([1]),
    );
}

#[test]
fn extension_matches_either_side_of_a_rename_that_changed_it() {
    let h = make_hunk(0, "replace", "old\n", "new\n");
    let enriched = vec![EnrichedHunk::from_diff("mod.rs", Some("mod.txt"), "renamed", &h)];
    assert_eq!(
        evaluate(&parse(r#"extension("rs")"#).unwrap(), &enriched).unwrap(),
        HashSet::from([0]),
    );
    assert_eq!(
        evaluate(&parse(r#"extension("txt")"#).unwrap(), &enriched).unwrap(),
        HashSet::from([0]),
    );
}

#[test]
fn a_stand_in_is_reachable_by_the_path_its_rename_came_from() {
    let h = make_hunk(0, "replace", "", "");
    let enriched = vec![EnrichedHunk::stand_in(
        "dst.txt",
        Some("src.txt"),
        "renamed",
        &h,
    )];
    assert_eq!(
        evaluate(&parse(r#"file("src.txt")"#).unwrap(), &enriched).unwrap(),
        HashSet::from([0]),
    );
    assert!(evaluate(&parse(r#"content("")"#).unwrap(), &enriched)
        .unwrap()
        .is_empty());
}

#[test]
fn to_spec_keys_a_rename_by_its_new_path_when_matched_by_the_old_one() {
    let h = make_hunk(0, "replace", "old\n", "new\n");
    let enriched = vec![EnrichedHunk::from_diff("dst.rs", Some("src.rs"), "renamed", &h)];
    let selected = evaluate(&parse(r#"file("src.rs")"#).unwrap(), &enriched).unwrap();
    let spec = to_spec(&selected, &enriched, &sources(&[("dst.rs", "src.rs")]));

    assert_eq!(
        keys(&spec),
        vec!["dst.rs"],
        "the old path leaked into the spec key"
    );
    assert_eq!(spec.files.get("dst.rs").unwrap().source_path(), Some("src.rs"));
}

#[test]
fn unknown_function_is_error() {
    let h = make_hunk(0, "insert", "", "x\n");
    let enriched = vec![EnrichedHunk::from_diff("a.rs", None, "modified", &h)];
    let expr = parse("functon(\"foo\")").unwrap();
    assert!(matches!(evaluate(&expr, &enriched).unwrap_err(), HunksetError::UnknownFunction { .. }));
}

#[test]
fn invalid_regex_is_error() {
    let h = make_hunk(0, "insert", "", "x\n");
    let enriched = vec![EnrichedHunk::from_diff("a.rs", None, "modified", &h)];
    let expr = parse(r#"added(regex:"(unclosed")"#).unwrap();
    assert!(matches!(evaluate(&expr, &enriched).unwrap_err(), HunksetError::InvalidRegex { .. }));
}

#[test]
fn semantic_functions_require_feature() {
    let h = make_hunk(0, "insert", "", "x\n");
    let enriched = vec![EnrichedHunk::from_diff("a.rs", None, "modified", &h)];
    for func in &["scope(\"Foo\")", "function(\"bar\")", "doc()", "import()", "toplevel()", "depth(0)", "annotation(\"test\")"] {
        let expr = parse(func).unwrap();
        let err = evaluate_with(&expr, &enriched, false).0.unwrap_err();
        assert!(matches!(err, HunksetError::SemanticFeatureRequired { .. }), "expected SemanticFeatureRequired for {}", func);
    }
}

#[test]
fn eval_on_empty_hunks() {
    let empty: Vec<EnrichedHunk> = vec![];
    assert!(evaluate(&parse("all()").unwrap(), &empty).unwrap().is_empty());
    assert!(evaluate(&parse("none()").unwrap(), &empty).unwrap().is_empty());
    assert!(evaluate(&parse("type(insert)").unwrap(), &empty).unwrap().is_empty());
}

#[test]
fn eval_extension_filter() {
    let h1 = make_hunk(0, "insert", "", "x\n");
    let h2 = make_hunk(1, "insert", "", "y\n");
    let enriched = vec![
        EnrichedHunk::from_diff("src/lib.rs", None, "modified", &h1),
        EnrichedHunk::from_diff("src/lib.py", None, "modified", &h2),
    ];
    assert_eq!(evaluate(&parse("extension(rs)").unwrap(), &enriched).unwrap(), HashSet::from([0]));
}

#[test]
fn eval_status_filter() {
    let h1 = make_hunk(0, "insert", "", "x\n");
    let h2 = make_hunk(1, "insert", "", "y\n");
    let enriched = vec![
        EnrichedHunk::from_diff("a.rs", None, "modified", &h1),
        EnrichedHunk::from_diff("b.rs", None, "added", &h2),
    ];
    assert_eq!(evaluate(&parse("status(added)").unwrap(), &enriched).unwrap(), HashSet::from([1]));
}

#[test]
fn eval_doc_import_toplevel() {
    let mut h1 = make_hunk(0, "insert", "", "/// doc\n");
    h1.semantic.is_doc_comment = true;
    let mut h2 = make_hunk(1, "insert", "", "use foo;\n");
    h2.semantic.is_import = true;
    let mut h3 = make_hunk(2, "insert", "", "const X: i32 = 1;\n");
    h3.semantic.is_toplevel = true;
    let enriched = vec![
        EnrichedHunk::from_diff("a.rs", None, "modified", &h1),
        EnrichedHunk::from_diff("a.rs", None, "modified", &h2),
        EnrichedHunk::from_diff("a.rs", None, "modified", &h3),
    ];
    assert_eq!(evaluate(&parse("doc()").unwrap(), &enriched).unwrap(), HashSet::from([0]));
    assert_eq!(evaluate(&parse("import()").unwrap(), &enriched).unwrap(), HashSet::from([1]));
    assert_eq!(evaluate(&parse("toplevel()").unwrap(), &enriched).unwrap(), HashSet::from([2]));
}

#[test]
fn unanalyzed_hunks_match_neither_toplevel_nor_depth_zero() {
    let mut h = make_hunk(0, "insert", "", "hello\n");
    h.semantic.is_analyzed = false;
    let enriched = vec![EnrichedHunk::from_diff("notes.txt", None, "modified", &h)];

    assert!(
        evaluate(&parse("toplevel()").unwrap(), &enriched).unwrap().is_empty(),
        "unanalyzed hunk leaked into toplevel()"
    );
    assert!(
        evaluate(&parse("depth(0)").unwrap(), &enriched).unwrap().is_empty(),
        "unanalyzed hunk leaked into depth(0)"
    );
}

#[test]
fn eval_depth_filter() {
    let mut h1 = make_hunk(0, "insert", "", "x\n");
    h1.semantic.nesting_depth = 0;
    let mut h2 = make_hunk(1, "insert", "", "y\n");
    h2.semantic.nesting_depth = 1;
    let mut h3 = make_hunk(2, "insert", "", "z\n");
    h3.semantic.nesting_depth = 2;
    let enriched = vec![
        EnrichedHunk::from_diff("a.rs", None, "modified", &h1),
        EnrichedHunk::from_diff("a.rs", None, "modified", &h2),
        EnrichedHunk::from_diff("a.rs", None, "modified", &h3),
    ];
    assert_eq!(evaluate(&parse("depth(0)").unwrap(), &enriched).unwrap(), HashSet::from([0]));
    assert_eq!(evaluate(&parse("depth(0..1)").unwrap(), &enriched).unwrap(), HashSet::from([0, 1]));
}

#[test]
fn eval_annotation_filter() {
    let mut h1 = make_hunk(0, "insert", "", "x\n");
    h1.semantic.annotations = vec!["#[test]".to_string()];
    let h2 = make_hunk(1, "insert", "", "y\n");
    let enriched = vec![
        EnrichedHunk::from_diff("a.rs", None, "modified", &h1),
        EnrichedHunk::from_diff("a.rs", None, "modified", &h2),
    ];
    assert_eq!(evaluate(&parse(r#"annotation("test")"#).unwrap(), &enriched).unwrap(), HashSet::from([0]));
    assert_eq!(evaluate(&parse("annotation()").unwrap(), &enriched).unwrap(), HashSet::from([0]));
    assert_eq!(evaluate(&parse(r#"decorator("test")"#).unwrap(), &enriched).unwrap(), HashSet::from([0]));
}

#[test]
fn eval_regex_content() {
    let h1 = make_hunk(0, "insert", "", "fn hello_world() {\n");
    let h2 = make_hunk(1, "insert", "", "let x = 1;\n");
    let enriched = vec![
        EnrichedHunk::from_diff("a.rs", None, "modified", &h1),
        EnrichedHunk::from_diff("a.rs", None, "modified", &h2),
    ];
    assert_eq!(evaluate(&parse(r#"added(regex:"fn\s+\w+")"#).unwrap(), &enriched).unwrap(), HashSet::from([0]));
}

fn two_files() -> (Hunk, Hunk) {
    (
        make_hunk(0, "insert", "", "src change\n"),
        make_hunk(1, "insert", "", "vendor change\n"),
    )
}

fn enrich<'a>(src: &'a Hunk, vendor: &'a Hunk) -> Vec<EnrichedHunk<'a>> {
    vec![
        EnrichedHunk::from_diff("src.txt", None, "modified", src),
        EnrichedHunk::from_diff("vendor/lib.txt", None, "modified", vendor),
    ]
}

fn eval_err(spec: &str, hunks: &[EnrichedHunk]) -> HunksetError {
    let expr = parse(spec).unwrap_or_else(|e| panic!("{spec} should parse: {e:?}"));
    evaluate(&expr, hunks)
        .err()
        .unwrap_or_else(|| panic!("{spec} should not have been accepted"))
}

#[test]
fn a_malformed_glob_is_an_error_not_a_selector_that_matches_nothing() {
    let (src, vendor) = two_files();
    let enriched = enrich(&src, &vendor);

    let err = eval_err(r#"~glob("vendor/[a-z*.txt")"#, &enriched);
    assert!(
        matches!(err, HunksetError::InvalidGlob { .. }),
        "expected a glob error, got: {err:?}"
    );
    assert!(
        err.message().contains("vendor/[a-z*.txt"),
        "the message should quote the pattern: {err:?}"
    );
}

#[test]
fn a_malformed_glob_is_an_error_without_a_negation_too() {
    let (src, vendor) = two_files();
    let enriched = enrich(&src, &vendor);
    for spec in [
        r#"glob("vendor/[a-z*.txt")"#,
        r#"glob("src/**/[abc")"#,
        r#"glob("a{b,c")"#,
        r#"glob("*.{c,h}}")"#,
        r#"glob("[z-a]")"#,
        r#"glob("x") | glob("{unclosed")"#,
        r#"all() ~ glob("vendor/[a-")"#,
    ] {
        assert!(
            matches!(eval_err(spec, &enriched), HunksetError::InvalidGlob { .. }),
            "{spec} should be a glob error"
        );
    }
}

#[test]
fn an_explicit_glob_prefix_is_validated_on_every_predicate() {
    let (src, vendor) = two_files();
    let enriched = enrich(&src, &vendor);
    for spec in [
        r#"file(glob:"vendor/[a-")"#,
        r#"~file(glob:"vendor/[a-")"#,
        r#"content(glob:"[a-")"#,
        r#"extension(glob:"[a-")"#,
    ] {
        assert!(
            matches!(eval_err(spec, &enriched), HunksetError::InvalidGlob { .. }),
            "{spec} should be a glob error"
        );
    }
}

#[test]
fn well_formed_globs_still_select() {
    let (src, vendor) = two_files();
    let enriched = enrich(&src, &vendor);
    let selects = |spec: &str| evaluate(&parse(spec).unwrap(), &enriched).unwrap();
    assert_eq!(selects(r#"glob("vendor/**")"#), HashSet::from([1]));
    assert_eq!(selects(r#"~glob("vendor/**")"#), HashSet::from([0]));
    assert_eq!(selects(r#"glob("vendor/[a-z]*.txt")"#), HashSet::from([1]));
    assert_eq!(selects(r#"glob("*.{txt,md}")"#), HashSet::from([0]));
    assert_eq!(selects(r#"file(glob:"vendor/**")"#), HashSet::from([1]));
}

#[test]
fn an_abbreviated_id_resolves_whether_or_not_it_is_quoted() {
    let h = make_hunk(0, "insert", "", "x\n");
    let enriched = vec![EnrichedHunk::from_diff("a.rs", None, "modified", &h)];
    let prefix = &h.id[..12];
    let quoted = format!(r#"id("{prefix}")"#);
    let bare = format!("id({prefix})");

    let expected = HashSet::from([0]);
    assert_eq!(evaluate(&parse(&quoted).unwrap(), &enriched).unwrap(), expected);
    assert_eq!(
        evaluate(&parse(&bare).unwrap(), &enriched).unwrap(),
        expected,
        "an unquoted abbreviation must resolve like a quoted one"
    );
    for spec in [
        format!(r#"id("{}")"#, h.id),
        format!("id({})", h.id),
        format!(r#"id("{}")"#, h.short_id),
        format!("id({})", h.short_id),
    ] {
        assert_eq!(evaluate(&parse(&spec).unwrap(), &enriched).unwrap(), expected, "{spec}");
    }
}

fn make_hunk_with_distinct_id(index: usize, hex: char) -> Hunk {
    let mut hunk = make_hunk(index, "insert", "", "x\n");
    hunk.id = format!("hunk-{}", String::from(hex).repeat(64));
    hunk.short_id = format!("hunk-{}", String::from(hex).repeat(8));
    hunk
}

fn make_stand_in(path: &str) -> Hunk {
    let mut hunk = make_hunk(0, "replace", "", "");
    hunk.id = format!("whole-file:{path}");
    hunk.short_id = hunk.id.clone();
    hunk.before_range.start = 0;
    hunk.after_range.start = 0;
    hunk.semantic = SemanticInfo::default();
    hunk
}

#[test]
fn no_content_predicate_reaches_a_stand_in_however_degenerate_its_argument() {
    let real = make_hunk(0, "replace", "old\n", "new\n");
    let stand_in = make_stand_in("blob.bin");
    let enriched = vec![
        EnrichedHunk::from_diff("a.rs", None, "modified", &real),
        EnrichedHunk::stand_in("blob.bin", None, "modified", &stand_in),
    ];

    for spec in [
        r#"content("")"#,
        r#"added("")"#,
        r#"removed("")"#,
        "lines(0..100000)",
        "before_line(0..100000)",
        "after_line(0..100000)",
    ] {
        assert_eq!(
            evaluate(&parse(spec).unwrap(), &enriched).unwrap(),
            HashSet::from([0]),
            "{spec} reached the stand-in"
        );
    }

    assert!(
        evaluate(&parse("lines(0)").unwrap(), &enriched)
            .unwrap()
            .is_empty(),
        "line 0 belongs to no hunk, and a stand-in is not an exception"
    );
}

#[test]
fn a_degenerate_content_argument_still_selects_an_ordinary_hunk() {
    let insert = make_hunk(0, "insert", "", "added only\n");
    let delete = make_hunk(1, "delete", "removed only\n", "");
    let enriched = vec![
        EnrichedHunk::from_diff("a.rs", None, "modified", &insert),
        EnrichedHunk::from_diff("b.rs", None, "modified", &delete),
    ];

    for spec in [
        r#"content("")"#,
        r#"added("")"#,
        r#"removed("")"#,
        "lines(0..100000)",
    ] {
        assert_eq!(
            evaluate(&parse(spec).unwrap(), &enriched).unwrap(),
            HashSet::from([0, 1]),
            "{spec} stopped selecting ordinary hunks"
        );
    }
}

#[test]
fn file_level_predicates_still_reach_a_stand_in() {
    let real = make_hunk(0, "replace", "old\n", "new\n");
    let stand_in = make_stand_in("blob.bin");
    let enriched = vec![
        EnrichedHunk::from_diff("a.rs", None, "modified", &real),
        EnrichedHunk::stand_in("blob.bin", None, "modified", &stand_in),
    ];

    for spec in [
        "all()",
        r#"file("blob.bin")"#,
        "type(replace)",
        "status(modified)",
    ] {
        assert!(
            evaluate(&parse(spec).unwrap(), &enriched)
                .unwrap()
                .contains(&1),
            "{spec} lost the stand-in"
        );
    }
    assert_eq!(
        evaluate(&parse(r#"~file("a.rs")"#).unwrap(), &enriched).unwrap(),
        HashSet::from([1]),
        "negation lost the stand-in"
    );
}

#[test]
fn id_cannot_match_a_stand_in_wearing_a_hunk_id() {
    let real = make_hunk_with_distinct_id(0, 'a');
    let mut stand_in = make_stand_in("blob.bin");
    stand_in.id = format!("hunk-{}", "b".repeat(64));
    stand_in.short_id = format!("hunk-{}", "b".repeat(8));
    let enriched = vec![
        EnrichedHunk::from_diff("a.rs", None, "modified", &real),
        EnrichedHunk::stand_in("blob.bin", None, "modified", &stand_in),
    ];

    for spec in [
        "id(hunk-bbbb)".to_string(),
        format!(r#"id(exact:"{}")"#, stand_in.id),
        format!(r#"id(exact:"{}")"#, stand_in.short_id),
    ] {
        assert!(
            matches!(eval_err(&spec, &enriched), HunksetError::UnknownId { .. }),
            "{spec} named a stand-in"
        );
    }

    assert_eq!(
        evaluate(&parse("id(hunk-aaaa)").unwrap(), &enriched).unwrap(),
        HashSet::from([0])
    );
}

#[test]
fn negating_a_bare_abbreviated_id_excludes_exactly_that_hunk() {
    let h1 = make_hunk_with_distinct_id(0, 'a');
    let h2 = make_hunk_with_distinct_id(1, 'b');
    let enriched = vec![
        EnrichedHunk::from_diff("a.rs", None, "modified", &h1),
        EnrichedHunk::from_diff("b.rs", None, "modified", &h2),
    ];
    assert_eq!(
        evaluate(&parse("~id(hunk-aaaa)").unwrap(), &enriched).unwrap(),
        HashSet::from([1])
    );
    assert_eq!(
        evaluate(&parse(r#"~id("hunk-aaaa")"#).unwrap(), &enriched).unwrap(),
        HashSet::from([1]),
        "quoting must not change which hunks are left"
    );
}

#[test]
fn an_ambiguous_bare_abbreviation_is_still_an_error() {
    let h1 = make_hunk_with_distinct_id(0, 'a');
    let mut h2 = make_hunk_with_distinct_id(1, 'a');
    h2.id.replace_range(60.., "bbbb");
    let enriched = vec![
        EnrichedHunk::from_diff("a.rs", None, "modified", &h1),
        EnrichedHunk::from_diff("b.rs", None, "modified", &h2),
    ];
    assert!(matches!(
        eval_err("id(hunk-aaaa)", &enriched),
        HunksetError::AmbiguousId { .. }
    ));
}

#[test]
fn explicit_exact_still_rules_out_abbreviation() {
    let h = make_hunk(0, "insert", "", "x\n");
    let enriched = vec![EnrichedHunk::from_diff("a.rs", None, "modified", &h)];

    for spec in [
        format!(r#"id(exact:"{}")"#, h.id),
        format!(r#"id(exact:"{}")"#, h.short_id),
    ] {
        assert_eq!(
            evaluate(&parse(&spec).unwrap(), &enriched).unwrap(),
            HashSet::from([0]),
            "{spec}"
        );
    }

    let spec = format!(r#"id(exact:"{}")"#, &h.id[..12]);
    assert!(matches!(
        eval_err(&spec, &enriched),
        HunksetError::UnknownId { .. }
    ));
}

#[test]
fn an_id_that_names_no_hunk_is_an_error() {
    let h = make_hunk(0, "insert", "", "x\n");
    let enriched = vec![EnrichedHunk::from_diff("a.rs", None, "modified", &h)];
    for spec in [
        r#"id("hunk-ffffffff")"#,
        r#"~id("hunk-ffffffff")"#,
        "id(hunk-ffffffff)",
    ] {
        let err = eval_err(spec, &enriched);
        assert!(
            matches!(err, HunksetError::UnknownId { .. }),
            "{spec} should be an unknown-id error, got: {err:?}"
        );
        assert!(err.message().contains("hunk-ffffffff"), "{err:?}");
    }
}

#[test]
fn id_rejects_a_pattern_kind_it_cannot_honour() {
    let mut h = make_hunk(0, "insert", "", "x\n");
    h.id = format!("hunk-{}", "abcdef01".repeat(8));
    let enriched = vec![EnrichedHunk::from_diff("a.rs", None, "modified", &h)];
    let middle = "ef01abcd";
    for kind in ["substring", "glob", "regex"] {
        let spec = format!(r#"id({kind}:"{middle}")"#);
        let err = eval_err(&spec, &enriched);
        assert!(
            matches!(err, HunksetError::InvalidArgument { .. }),
            "{spec} should be rejected, got: {err:?}"
        );
        assert!(err.message().contains(kind), "{err:?}");
    }
}

#[test]
fn a_bare_word_in_a_text_predicate_is_a_substring() {
    let h1 = make_hunk(0, "insert", "", "// TODO: fix this\n");
    let h2 = make_hunk(1, "replace", "old code\n", "new code\n");
    let enriched = vec![
        EnrichedHunk::from_diff("a.rs", None, "modified", &h1),
        EnrichedHunk::from_diff("b.rs", None, "modified", &h2),
    ];
    let selects = |spec: &str| evaluate(&parse(spec).unwrap(), &enriched).unwrap();
    assert_eq!(selects("added(TODO)"), HashSet::from([0]));
    assert_eq!(selects("content(TODO)"), HashSet::from([0]));
    assert_eq!(selects("removed(old)"), HashSet::from([1]));
    assert_eq!(selects(r#"added("TODO")"#), HashSet::from([0]));
    assert_eq!(selects("~added(TODO)"), HashSet::from([1]));
}

#[test]
fn a_bare_word_in_a_path_or_enum_predicate_still_matches_the_whole_value() {
    let h1 = make_hunk(0, "insert", "", "x\n");
    let h2 = make_hunk(1, "insert", "", "y\n");
    let enriched = vec![
        EnrichedHunk::from_diff("a.rs", None, "modified", &h1),
        EnrichedHunk::from_diff("b.rss", None, "modified", &h2),
    ];
    let selects = |spec: &str| evaluate(&parse(spec).unwrap(), &enriched).unwrap();
    assert_eq!(selects("extension(rs)"), HashSet::from([0]));
    assert_eq!(selects(r#"file("a.rs")"#), HashSet::from([0]));
    assert_eq!(selects(r#"extension(substring:"rs")"#), HashSet::from([0, 1]));
}

const LONG_CHAIN: usize = 100_000;

fn evaluate_on_a_small_stack(spec: String) -> usize {
    let h = make_hunk(0, "insert", "", "x\n");
    let enriched = vec![EnrichedHunk::from_diff("a.rs", None, "modified", &h)];
    let expr = parse(&spec).expect("chain should parse");
    let selected = evaluate(&expr, &enriched).expect("chain should evaluate");
    drop(expr);
    selected.len()
}

#[test]
fn a_long_union_chain_does_not_overflow_the_stack() {
    let chain = vec!["all()"; LONG_CHAIN].join(" | ");
    assert_eq!(evaluate_on_a_small_stack(chain), 1);
}

#[test]
fn a_long_intersection_chain_does_not_overflow_the_stack() {
    let chain = vec!["all()"; LONG_CHAIN].join(" & ");
    assert_eq!(evaluate_on_a_small_stack(chain), 1);
}

#[test]
fn a_long_mixed_chain_does_not_overflow_the_stack() {
    let mut chain = String::from("all()");
    for i in 0..LONG_CHAIN {
        chain.push_str(if i % 2 == 0 { " | all()" } else { " & all()" });
    }
    assert_eq!(evaluate_on_a_small_stack(chain), 1);
}

#[test]
fn a_long_chain_under_the_nesting_limit_does_not_overflow_the_stack() {
    let chain = vec!["all()"; LONG_CHAIN].join(" | ");
    let nested = format!("{}{chain}{}", "(".repeat(100), ")".repeat(100));
    assert_eq!(evaluate_on_a_small_stack(nested), 1);
}

#[test]
fn freeing_a_long_chain_does_not_overflow_the_stack() {
    let chain = vec!["none()"; LONG_CHAIN].join(" | ");
    let expr = parse(&chain).expect("chain should parse");
    drop(expr);
}

#[test]
fn a_chain_evaluates_left_to_right() {
    let h1 = make_hunk(0, "insert", "", "x\n");
    let h2 = make_hunk(1, "delete", "y\n", "");
    let h3 = make_hunk(2, "replace", "a\n", "b\n");
    let enriched = vec![
        EnrichedHunk::from_diff("a.rs", None, "modified", &h1),
        EnrichedHunk::from_diff("b.rs", None, "modified", &h2),
        EnrichedHunk::from_diff("c.rs", None, "modified", &h3),
    ];
    let selects = |spec: &str| evaluate(&parse(spec).unwrap(), &enriched).unwrap();
    assert_eq!(
        selects("type(insert) | type(delete) | type(replace)"),
        HashSet::from([0, 1, 2])
    );
    assert_eq!(
        selects("type(insert) | type(delete) & type(replace)"),
        HashSet::from([0])
    );
    assert_eq!(selects("all() & ~type(delete) & ~type(replace)"), HashSet::from([0]));
    assert_eq!(selects("(all() ~ type(delete)) ~ type(replace)"), HashSet::from([0]));
}

#[test]
fn to_spec_multi_file() {
    let h1 = make_hunk(0, "insert", "", "x\n");
    let h2 = make_hunk(1, "insert", "", "y\n");
    let h3 = make_hunk(2, "delete", "z\n", "");
    let enriched = vec![
        EnrichedHunk::from_diff("src/a.rs", None, "modified", &h1),
        EnrichedHunk::from_diff("src/a.rs", None, "modified", &h2),
        EnrichedHunk::from_diff("src/b.rs", None, "modified", &h3),
    ];
    let selected = HashSet::from([0, 2]);
    let spec = to_spec(&selected, &enriched, &NameMap::new());
    assert!(spec.files.get("src/a.rs").is_some());
    assert!(spec.files.get("src/b.rs").is_some());
    match spec.files.get("src/a.rs").unwrap() {
        FileSpec::Selection(hs) => assert_eq!(hs.ids.len(), 1),
        _ => panic!("expected Selection"),
    }
}

#[test]
fn a_semantic_predicate_that_finds_nothing_says_what_it_could_not_read() {
    let mut h = make_hunk(0, "insert", "", "x\n");
    h.semantic.is_analyzed = false;
    let enriched = vec![
        EnrichedHunk::from_diff("b.txt", None, "modified", &h),
        EnrichedHunk::from_diff("a.txt", None, "modified", &h),
    ];
    let (result, warnings) = evaluate_with(&parse("doc()").unwrap(), &enriched, true);
    assert!(result.unwrap().is_empty());
    assert_eq!(warnings.len(), 1, "{warnings:?}");
    assert!(warnings[0].contains("doc()"), "{}", warnings[0]);
    let (a, b) = (warnings[0].find("a.txt").unwrap(), warnings[0].find("b.txt").unwrap());
    assert!(a < b, "{}", warnings[0]);
    let (_, none) = evaluate_with(&parse("type(insert)").unwrap(), &enriched, true);
    assert!(none.is_empty());
}

#[test]
fn negating_twice_and_taking_apart_change_nothing() {
    let h1 = make_hunk(0, "insert", "", "x\n");
    let h2 = make_hunk(1, "delete", "y\n", "");
    let enriched = vec![
        EnrichedHunk::from_diff("a.rs", None, "modified", &h1),
        EnrichedHunk::from_diff("b.rs", None, "modified", &h2),
    ];
    let selects = |spec: &str| evaluate(&parse(spec).unwrap(), &enriched).unwrap();
    assert_eq!(selects("~~type(insert)"), selects("type(insert)"));
    assert_eq!(selects("type(insert) | ~type(insert)"), HashSet::from([0, 1]));
    assert!(selects("type(insert) & ~type(insert)").is_empty());
    assert_eq!(selects("all ~ type(insert)"), selects("all & ~type(insert)"));
    assert_eq!(
        selects("~(type(insert) | type(delete))"),
        selects("~type(insert) & ~type(delete)")
    );
    let (failed, _) = evaluate_with(&parse("~nope()").unwrap(), &enriched, true);
    assert!(matches!(failed, Err(HunksetError::UnknownFunction { .. })));
}

#[test]
fn arguments_of_the_wrong_shape_are_refused() {
    for spec in ["file()", "doc(x)", "lines(\"x\")", "lines(3..1)", "type(1..2)", "lines()"] {
        assert!(
            matches!(eval_err(spec, &[]), HunksetError::InvalidArgument { .. }),
            "{spec}"
        );
    }
    assert!(matches!(eval_err("status(nope)", &[]), HunksetError::InvalidArgument { .. }));
    assert!(evaluate(&parse(r#"lines("+3")"#).unwrap(), &[]).is_ok());
}

#[test]
fn what_a_predicate_assumes_of_its_arguments() {
    assert_eq!(default_kind("file"), Some(PatternKind::Exact));
    assert_eq!(default_kind("glob"), Some(PatternKind::Glob));
    assert_eq!(default_kind("added"), Some(PatternKind::Substring));
    assert_eq!(default_kind("lines"), None);
    assert_eq!(arg_shape("lines"), ArgShape::Numeric);
    assert_eq!(arg_shape("doc"), ArgShape::NoArguments);
    assert_eq!(arg_shape("annotation"), ArgShape::OptionalPatterns);
    assert_eq!(arg_shape("id"), ArgShape::Patterns);
    assert_eq!(type_values(), vec!["insert", "delete", "replace"]);
    assert_eq!(status_values(), vec!["modified", "added", "removed", "renamed", "copied"]);
}

#[test]
fn an_extension_is_what_follows_the_last_dot_of_a_name() {
    for (path, expected) in [
        ("a.rs", Some("rs")),
        ("a.tar.gz", Some("gz")),
        (".gitignore", None),
        ("a.b/c", None),
        ("dir/.hidden.txt", Some("txt")),
        ("plain", None),
        ("dot.", Some("")),
    ] {
        assert_eq!(extension(path).as_deref(), expected, "{path}");
    }
}

#[test]
fn a_regex_is_looked_for_and_a_dot_in_a_plain_word_is_a_dot() {
    let h = make_hunk(0, "insert", "", "call(a.b)\n");
    let enriched = vec![EnrichedHunk::from_diff("a.rs", None, "modified", &h)];
    let selects = |spec: &str| !evaluate(&parse(spec).unwrap(), &enriched).unwrap().is_empty();
    assert!(selects(r#"added(regex:"c.ll")"#));
    assert!(!selects(r#"added("c.ll")"#));
    assert!(selects(r#"added("a.b")"#));
    assert!(!selects(r#"added(regex:"^b")"#));
    assert!(selects(r#"added(glob:"*a.b*")"#));
}

#[test]
fn a_bare_word_means_what_it_means_in_quotes() {
    let h1 = make_hunk(0, "insert", "", "let v = 200;\n");
    let h2 = make_hunk(1, "insert", "", "let v = 20;\n");
    let enriched = vec![
        EnrichedHunk::from_diff("a.rs", None, "modified", &h1),
        EnrichedHunk::from_diff("b.rs", None, "modified", &h2),
    ];
    for (bare, quoted) in [
        ("added(200)", r#"added("200")"#),
        ("extension(rs)", r#"extension("rs")"#),
        ("type(insert)", r#"type("insert")"#),
        ("lines(1)", r#"lines("1")"#),
    ] {
        let found = evaluate(&parse(bare).unwrap(), &enriched).unwrap();
        assert!(!found.is_empty(), "{bare}");
        assert_eq!(found, evaluate(&parse(quoted).unwrap(), &enriched).unwrap(), "{bare}");
    }
}

#[test]
fn both_forms_of_an_id_resolve_with_and_without_exactness() {
    let h1 = make_hunk(1, "insert", "", "x\n");
    let h2 = make_hunk(2, "insert", "", "y\n");
    let enriched = vec![
        EnrichedHunk::from_diff("a.rs", None, "modified", &h1),
        EnrichedHunk::from_diff("b.rs", None, "modified", &h2),
    ];
    let full = h2.id.clone();
    assert_eq!(
        evaluate(&parse(&format!(r#"id(exact:"{full}")"#)).unwrap(), &enriched).unwrap(),
        HashSet::from([1])
    );
    assert_eq!(
        evaluate(&parse(&format!(r#"id("{full}")"#)).unwrap(), &enriched).unwrap(),
        HashSet::from([1])
    );
    assert_eq!(
        evaluate(&parse(r#"id(exact:"hunk-00000002")"#).unwrap(), &enriched).unwrap(),
        HashSet::from([1])
    );
}

#[test]
fn a_range_is_no_annotation() {
    for spec in ["annotation(1..2)", "decorator(1..2)", r#"annotation("a", 1..2)"#] {
        assert!(matches!(
            eval_err(spec, &[]),
            HunksetError::InvalidArgument { .. }
        ), "{spec}");
    }
    assert!(evaluate(&parse("annotation()").unwrap(), &[]).is_ok());
    assert!(matches!(eval_err("bogus(1..2)", &[]), HunksetError::UnknownFunction { .. }));
}
