//! Specs: what they say of a file, what they may name, and what comes of them.

use std::collections::HashSet;

use jj_hunk::commands::{
    apply_hunk_selection, check_selection, check_stdin_spec, commit, diffedit, evaluate_hunkset,
    is_selectable, jj_hunk_tool_config_args, normalize_spec_message, normalize_spec_only,
    parse_hunkset, refuse_two_specs, reset_file, resets_unnamed, resolve_optional_spec,
    resolve_spec_input, restore, restore_asks, select, settle_selection, split, squash, Applied,
    Found, Replacement, SpecSource, Step,
};
use jj_hunk::diff::{get_hunks, Hunk, HunkSelection};
use jj_hunk::files::{FileHunks, RenameInfo};
use jj_hunk::names::NameMap;
use jj_hunk::paths::PathFrame;
use jj_hunk::resolve::{
    adopt_spec_frame, fill_rename_sources, filter_hunks, frame_pairs, spec_decision,
    validate_spec_paths, validate_spec_resolves, SpecDecision,
};
use jj_hunk::revisions::{DiffRevisions, DiffTarget};
use jj_hunk::spec::{Action, DefaultAction, FileSpec, HunkSelector, HunkSpec, Spec};

fn file(path: &str, hunks: Vec<Hunk>) -> FileHunks {
    FileHunks {
        path: path.to_string(),
        status: "modified".to_string(),
        hunks,
        rename: None,
        is_binary: false,
        is_symlink: false,
        mode: None,
        truncated: false,
    }
}

fn moved(path: &str, from: &str, hunks: Vec<Hunk>) -> FileHunks {
    FileHunks {
        status: "renamed".to_string(),
        rename: Some(RenameInfo { from: from.to_string(), to: path.to_string() }),
        ..file(path, hunks)
    }
}

fn diff() -> Vec<FileHunks> {
    vec![
        file("a.txt", get_hunks("a.txt", "1\n2\n3\n4\n5\n", "1\nX\n3\n4\nY\n")),
        moved("n.txt", "o.txt", get_hunks("n.txt", "1\n", "2\n")),
        FileHunks { is_binary: true, ..file("b.png", Vec::new()) },
    ]
}

fn spec(entries: Vec<(&str, FileSpec)>, default: DefaultAction) -> Spec {
    let mut files = NameMap::new();
    for (path, entry) in entries {
        files.insert(path.to_string(), entry);
    }
    Spec { files, default }
}

fn keep() -> FileSpec {
    FileSpec::Action { action: Action::Keep, from: None }
}

fn reset() -> FileSpec {
    FileSpec::Action { action: Action::Reset, from: None }
}

fn ids(ids: &[&str]) -> FileSpec {
    FileSpec::Selection(HunkSpec {
        hunks: Vec::new(),
        ids: ids.iter().map(|id| id.to_string()).collect(),
        from: None,
    })
}

fn at(prefix: &[&str]) -> PathFrame {
    PathFrame { prefix: prefix.iter().map(|s| s.to_string()).collect() }
}

fn rev() -> DiffTarget {
    DiffTarget::rev(None)
}

#[test]
fn an_entry_decides_and_the_default_where_there_is_none() {
    let s = spec(
        vec![("a", keep()), ("b", reset()), ("c", ids(&["hunk-1"])), ("d", ids(&[]))],
        DefaultAction::Keep,
    );
    assert!(matches!(spec_decision(Some(&s), "a"), SpecDecision::KeepAll));
    assert!(matches!(spec_decision(Some(&s), "b"), SpecDecision::Skip));
    match spec_decision(Some(&s), "c") {
        SpecDecision::KeepSelection(selection) => assert!(selection.ids.contains("hunk-1")),
        other => panic!("{other:?}"),
    }
    assert!(matches!(spec_decision(Some(&s), "d"), SpecDecision::Skip));
    assert!(matches!(spec_decision(Some(&s), "e"), SpecDecision::KeepAll));
    assert!(matches!(spec_decision(None, "e"), SpecDecision::KeepAll));
    let other = spec(Vec::new(), DefaultAction::Reset);
    assert!(matches!(spec_decision(Some(&other), "e"), SpecDecision::Skip));
}

#[test]
fn a_selection_keeps_the_hunks_it_names() {
    let hunks = diff().remove(0).hunks;
    let named = HunkSpec {
        hunks: vec![HunkSelector::Index(1), HunkSelector::Id(hunks[0].id.clone())],
        ids: Vec::new(),
        from: None,
    };
    assert_eq!(filter_hunks(hunks, &named.to_selection()).unwrap().len(), 2);
    let mut second = HunkSelection::default();
    second.indices.insert(1);
    let kept = filter_hunks(diff().remove(0).hunks, &second).unwrap();
    assert_eq!(kept.iter().map(|h| h.index).collect::<Vec<_>>(), [1]);
    let mut unclear = HunkSelection::default();
    unclear.ids.insert("hunk-".to_string());
    let e = filter_hunks(diff().remove(0).hunks, &unclear).unwrap_err();
    assert_eq!(e.id, "hunk-");
    assert_eq!(e.candidates.len(), 2);
    assert!(e.message().starts_with("hunk id hunk- is ambiguous: it names 2 hunks ("));
    assert!(e.message().ends_with("). Use a longer prefix."));
}

#[test]
fn an_expression_keeps_exactly_what_it_selects() {
    let files = diff();
    let run = |text: &str| {
        let expr = parse_hunkset(text, '/').unwrap();
        evaluate_hunkset(&expr, &files, false).0
    };
    let all = run("all()").unwrap();
    assert_eq!(all.default, DefaultAction::Reset);
    assert_eq!(all.files.len(), 3);
    assert!(matches!(
        all.files.get("b.png"),
        Some(FileSpec::Action { action: Action::Keep, .. })
    ));
    assert_eq!(all.files.get("n.txt").unwrap().source_path(), Some("o.txt"));
    assert!(validate_spec_resolves(&all, &files, &rev()).is_ok());

    let first = run(r#"added("X")"#).unwrap();
    assert_eq!(first.files.len(), 1);
    match spec_decision(Some(&first), "a.txt") {
        SpecDecision::KeepSelection(selection) => {
            let kept = filter_hunks(diff().remove(0).hunks, &selection).unwrap();
            assert_eq!(kept.iter().map(|h| h.index).collect::<Vec<_>>(), [0]);
        }
        other => panic!("{other:?}"),
    }
    assert!(matches!(spec_decision(Some(&first), "b.png"), SpecDecision::Skip));
    assert!(run("none()").unwrap().files.len() == 0);

    let failed = run("nope()").unwrap_err();
    assert_eq!(failed.code.code, "UNKNOWN_FUNCTION");
    assert_eq!(failed.message, "hunkset evaluation error: unknown function 'nope'");
    let unparsed = parse_hunkset("type(", '/').unwrap_err();
    assert_eq!(unparsed.code.code, "PARSE_ERROR");
    assert!(unparsed.message.starts_with("failed to parse hunkset:\ntype("));
}

#[test]
fn a_key_that_names_nothing_here_is_refused() {
    let s = spec(vec![("../../x", keep()), ("/abs", keep()), ("ok", keep())], DefaultAction::Reset);
    let e = validate_spec_paths(&s, &at(&["sub"])).unwrap_err();
    assert_eq!(e.code.code, "PATH_OUTSIDE_WORKSPACE");
    assert!(e.message.contains("../../x: climbs above the workspace root"), "{}", e.message);
    assert!(e.message.contains("/abs: is an absolute path"), "{}", e.message);
    assert!(!e.message.contains("ok"), "{}", e.message);
    let control = spec(vec![("a\u{1b}b", keep())], DefaultAction::Reset);
    let e = validate_spec_paths(&control, &at(&[])).unwrap_err();
    assert!(!e.message.contains('\u{1b}'), "{}", e.message);
    assert!(e.message.contains("U+001B"), "{}", e.message);
    let from = spec(
        vec![("a", FileSpec::Action { action: Action::Keep, from: Some("../b".to_string()) })],
        DefaultAction::Reset,
    );
    let e = validate_spec_paths(&from, &at(&[])).unwrap_err();
    assert!(e.message.contains("a: its `from` ../b climbs"), "{}", e.message);
    assert!(validate_spec_paths(&spec(vec![("a", keep())], DefaultAction::Keep), &at(&[])).is_ok());
}

#[test]
fn what_a_spec_names_has_to_be_there() {
    let files = diff();
    let wrong = spec(
        vec![
            ("a.txt", FileSpec::Selection(HunkSpec {
                hunks: vec![HunkSelector::Index(7)],
                ids: vec!["hunk-".to_string(), "hunk-zz".to_string()],
                from: None,
            })),
            ("o.txt", keep()),
            ("gone.txt", ids(&["hunk-1"])),
        ],
        DefaultAction::Reset,
    );
    let e = validate_spec_resolves(&wrong, &files, &rev()).unwrap_err();
    assert_eq!(e.code.code, "PATH_NOT_IN_DIFF");
    for line in [
        "a.txt: id hunk- is ambiguous, it names 2 hunks -- use a longer prefix",
        "a.txt: no hunk with id hunk-zz",
        "a.txt: no hunk with index 7 (file has 2)",
        "gone.txt: no such path in the diff",
        "o.txt: renamed to n.txt in this diff -- file the entry under n.txt instead",
    ] {
        assert!(e.message.contains(&format!("\n  {line}\n")), "{line} in {}", e.message);
    }
    // An entry that keeps a file that is not there is idle where another keeps
    // one that is.
    let idle = spec(vec![("a.txt", keep()), ("gone.txt", keep())], DefaultAction::Reset);
    assert!(validate_spec_resolves(&idle, &files, &rev()).is_ok());
    let alone = spec(vec![("gone.txt", keep())], DefaultAction::Reset);
    assert!(validate_spec_resolves(&alone, &files, &rev()).is_err());
}

#[test]
fn a_spec_written_at_the_root_is_read_in_a_directory_below() {
    let files = vec![moved("n.txt", "../o.txt", Vec::new())];
    let frame = at(&["sub"]);
    let pairs = frame_pairs(&files, &frame);
    assert_eq!(
        pairs,
        [
            ("n.txt".to_string(), "sub/n.txt".to_string()),
            ("../o.txt".to_string(), "o.txt".to_string())
        ]
    );
    let mut s = spec(
        vec![(
            "sub/n.txt",
            FileSpec::Action { action: Action::Keep, from: Some("o.txt".to_string()) },
        )],
        DefaultAction::Reset,
    );
    assert!(adopt_spec_frame(&mut s, &pairs));
    assert_eq!(s.files.key_at(0), "n.txt");
    assert_eq!(s.files.value_at(0).source_path(), Some("../o.txt"));
    assert!(!adopt_spec_frame(&mut s, &pairs));
}

#[test]
fn where_a_moved_file_came_from_is_filled_in() {
    let files = diff();
    let mut s = spec(vec![("n.txt", keep()), ("a.txt", keep())], DefaultAction::Reset);
    assert!(fill_rename_sources(&mut s, &files));
    assert_eq!(s.files.get("n.txt").unwrap().source_path(), Some("o.txt"));
    assert_eq!(s.files.get("a.txt").unwrap().source_path(), None);
    assert!(!fill_rename_sources(&mut s, &files));
    let mut stated = spec(
        vec![("n.txt", FileSpec::Action { action: Action::Keep, from: Some("x".to_string()) })],
        DefaultAction::Reset,
    );
    assert!(!fill_rename_sources(&mut stated, &files));
    assert_eq!(stated.files.get("n.txt").unwrap().source_path(), Some("x"));
}

#[test]
fn a_selection_that_keeps_nothing_is_refused_unless_it_is_meant() {
    let nothing = || spec(vec![("a.txt", ids(&[]))], DefaultAction::Reset);
    let target = DiffTarget::rev(Some("x"));
    let e = check_selection(&nothing(), &at(&[]), " none() ", &target, false).unwrap_err();
    assert_eq!(e.code.code, "EMPTY_SELECTION");
    assert_eq!(
        e.message,
        "selection matched no hunks: none()\nAn empty selection is nearly always a mistyped \
         selector rather than an intent, so it is refused.\nCheck it against `jj-hunk list -r x \
         --spec ...`, or pass --allow-empty if that is what you meant."
    );
    assert!(check_selection(&nothing(), &at(&[]), "none()", &target, true).is_ok());
    let something = spec(vec![("a.txt", keep())], DefaultAction::Reset);
    assert!(check_selection(&something, &at(&[]), "x", &target, false).is_ok());
    assert!(nothing().selects_nothing());
    assert!(!spec(Vec::new(), DefaultAction::Keep).selects_nothing());
}

#[test]
fn a_written_selection_is_settled_against_the_diff() {
    let files = diff();
    let mut s = spec(vec![("n.txt", keep())], DefaultAction::Reset);
    assert!(settle_selection(&mut s, &files, &at(&[]), &rev()).unwrap());
    assert_eq!(s.files.get("n.txt").unwrap().source_path(), Some("o.txt"));
    assert!(!settle_selection(&mut s, &files, &at(&[]), &rev()).unwrap());
    let mut wrong = spec(vec![("gone", keep())], DefaultAction::Reset);
    let e = settle_selection(&mut wrong, &files, &at(&[]), &rev()).unwrap_err();
    assert_eq!(e.code.code, "PATH_NOT_IN_DIFF");
}

#[test]
fn what_happens_to_every_file_that_is_there() {
    let mut s = spec(
        vec![
            ("../k.txt", keep()),
            ("r.txt", reset()),
            ("n.txt", FileSpec::Selection(HunkSpec {
                hunks: Vec::new(),
                ids: vec!["hunk-1".to_string()],
                from: Some("o.txt".to_string()),
            })),
        ],
        DefaultAction::Reset,
    );
    let paths: Vec<String> = ["k.txt", "sub/n.txt", "sub/o.txt", "sub/r.txt", "sub/u.txt"]
        .iter()
        .map(|p| p.to_string())
        .collect();
    let steps = select(&mut s, &at(&["sub"]), &paths);
    assert_eq!(steps.len(), 5);
    assert_eq!(steps[0].file.display, "../k.txt");
    assert!(matches!(steps[0].step, Step::Keep));
    match &steps[1].step {
        Step::Apply { source, selection } => {
            assert_eq!(source.as_deref(), Some("sub/o.txt"));
            assert!(selection.ids.contains("hunk-1"));
        }
        other => panic!("{other:?}"),
    }
    assert!(matches!(steps[2].step, Step::Unnamed));
    assert!(matches!(steps[3].step, Step::Reset));
    assert!(matches!(steps[4].step, Step::Unnamed));

    let mut kept = NameMap::new();
    kept.insert("n.txt".to_string(), true);
    assert!(!resets_unnamed(&s, "o.txt", false, &kept));
    assert!(resets_unnamed(&s, "o.txt", true, &kept));
    assert!(resets_unnamed(&s, "u.txt", true, &kept));
    kept.insert("n.txt".to_string(), false);
    assert!(resets_unnamed(&s, "o.txt", false, &kept));
}

#[test]
fn keeping_some_hunks_of_one_file() {
    let (before, after) = ("1\n2\n3\n", "1\nX\n3\nY\n");
    let hunks = get_hunks("f", before, after);
    let pick = |n: usize| HunkSelection {
        indices: HashSet::from([n]),
        ..HunkSelection::default()
    };
    let apply = |after: Option<&str>, link: bool, selection: &HunkSelection| {
        apply_hunk_selection("f", before, after, link, selection)
    };
    assert_eq!(hunks.len(), 2);
    match apply(Some(after), false, &pick(1)).unwrap() {
        Applied::Write(text) => assert_eq!(text, "1\n2\n3\nY\n"),
        other => panic!("{other:?}"),
    }
    assert!(matches!(apply(Some(after), true, &pick(0)).unwrap(), Applied::KeepLink));
    assert!(matches!(apply(Some(after), false, &pick(9)).unwrap(), Applied::Reset));
    assert!(matches!(
        apply(Some(after), false, &HunkSelection::default()).unwrap(),
        Applied::Reset
    ));
    assert!(matches!(apply(None, false, &pick(0)).unwrap(), Applied::KeepDeletion));
    assert!(matches!(apply(None, false, &pick(1)).unwrap(), Applied::Reset));
    let mut unclear = HunkSelection::default();
    unclear.ids.insert("hunk-".to_string());
    assert!(apply(Some(after), false, &unclear).is_err());
}

#[test]
fn a_file_is_put_back_as_what_it_was() {
    for (left, right, removed, put) in [
        (Found::Regular, Found::Regular, true, Replacement::Copy),
        (Found::Regular, Found::Nothing, false, Replacement::Copy),
        (Found::Link, Found::Regular, true, Replacement::Link),
        (Found::Nothing, Found::Link, true, Replacement::Absent),
        (Found::Elsewhere, Found::Regular, true, Replacement::Absent),
        (Found::Regular, Found::Elsewhere, false, Replacement::Untouched),
    ] {
        assert_eq!(reset_file(left, right), (removed, put), "{left:?} {right:?}");
    }
    assert!(is_selectable(true, false, "a"));
    assert!(is_selectable(false, true, "a"));
    assert!(!is_selectable(false, false, "dir"));
    assert!(!is_selectable(true, false, "JJ-INSTRUCTIONS"));
}

#[test]
fn where_a_spec_is_read_from() {
    assert!(matches!(
        resolve_spec_input(Some("x"), Some("f")).unwrap(),
        SpecSource::File(path) if path == "f"
    ));
    assert!(matches!(resolve_spec_input(Some("-"), None).unwrap(), SpecSource::Stdin));
    assert!(matches!(
        resolve_spec_input(Some("all()"), None).unwrap(),
        SpecSource::Inline(text) if text == "all()"
    ));
    assert_eq!(resolve_spec_input(None, None).unwrap_err(), "Spec is required (or use --spec-file)");
    assert_eq!(resolve_spec_input(None, Some("")).unwrap_err(), "Spec file path is empty");
    assert!(resolve_optional_spec(None, None).unwrap().is_none());
    assert_eq!(check_stdin_spec(" \n").unwrap_err(), "Spec from stdin is empty");
    assert!(check_stdin_spec("x").is_ok());
}

#[test]
fn words_on_the_command_line() {
    let word = |text: &str| Some(text.to_string());
    assert_eq!(
        normalize_spec_message(word("s"), word("m"), &None, "split").unwrap(),
        (word("s"), "m".to_string())
    );
    assert_eq!(
        normalize_spec_message(word("m"), None, &word("f"), "split").unwrap(),
        (None, "m".to_string())
    );
    assert_eq!(
        normalize_spec_message(word("s"), None, &None, "split").unwrap_err(),
        "split requires a commit message"
    );
    assert_eq!(
        normalize_spec_message(None, word("m"), &None, "split").unwrap_err(),
        "split requires a spec (or use --spec-file)"
    );
    assert_eq!(
        normalize_spec_message(word("s"), word("m"), &word("f"), "split").unwrap_err(),
        "split: omit <spec> when using --spec-file"
    );
    assert_eq!(normalize_spec_only(word("s"), &None, "squash").unwrap(), word("s"));
    assert_eq!(normalize_spec_only(None, &word("f"), "squash").unwrap(), None);
    assert!(normalize_spec_only(None, &None, "squash").is_err());
    assert!(refuse_two_specs(&None, &word("f"), "absorb").is_ok());
    assert_eq!(
        refuse_two_specs(&word("s"), &word("f"), "absorb").unwrap_err(),
        "absorb: omit <spec> when using --spec-file"
    );
}

#[test]
fn what_jj_is_run_with() {
    assert_eq!(
        split("--wip", Some("x")).args,
        ["split", "--tool=jj-hunk", "--message=--wip", "-r", "x"]
    );
    assert_eq!(commit("m").args, ["commit", "-i", "--tool=jj-hunk", "--message=m"]);
    assert_eq!(squash(None).args, ["squash", "-i", "--tool=jj-hunk"]);
    let edit = diffedit(None, Some("a"), None).unwrap();
    assert_eq!(edit.args, ["diffedit", "--tool=jj-hunk", "--from", "a"]);
    assert_eq!(edit.target.listing_command(), "jj-hunk list --from a --to @");
    assert_eq!(
        diffedit(Some("r"), Some("a"), None).unwrap_err(),
        "-r/--rev cannot be used with --from/--to"
    );
    assert_eq!(
        jj_hunk_tool_config_args("/opt/my \"tool\"\\jj\n"),
        [
            "--config",
            "merge-tools.jj-hunk.program=\"/opt/my \\\"tool\\\"\\\\jj\\n\"",
            "--config",
            "merge-tools.jj-hunk.edit-args=[\"select\", \"$left\", \"$right\"]",
        ]
    );
}

#[test]
fn a_restore_is_shown_its_destination_first() {
    assert_eq!(restore_asks(None, None, None).as_deref(), Some("@"));
    assert_eq!(restore_asks(Some("x"), None, None).as_deref(), Some("x"));
    assert_eq!(restore_asks(None, Some("a"), None), None);
    let sides = |before: Option<&str>| {
        Some(DiffRevisions {
            before: before.map(|b| b.to_string()),
            after: Some("dest".to_string()),
        })
    };
    let back = restore(Some("x"), None, None, sides(Some("src"))).unwrap();
    assert_eq!(back.args, ["restore", "-i", "--tool=jj-hunk", "-c", "x"]);
    assert_eq!(back.target.listing_command(), "jj-hunk list --from dest --to src");
    assert_eq!(
        restore(None, None, None, sides(None)).unwrap_err(),
        "`@` has no parent, so there is nothing to restore from"
    );
    let told = restore(None, Some("a"), Some("b"), None).unwrap();
    assert_eq!(told.args, ["restore", "-i", "--tool=jj-hunk", "--from", "a", "--into", "b"]);
    assert_eq!(told.target.listing_command(), "jj-hunk list --from b --to a");
    assert_eq!(
        restore(Some("x"), Some("a"), None, None).unwrap_err(),
        "-c/--changes-in cannot be used with --from/--into"
    );
}

#[test]
fn a_spec_may_keep_files_that_are_not_there_but_not_their_hunks() {
    let files = diff();
    let mut idle = spec(vec![("a.txt", keep()), ("gone", keep())], DefaultAction::Reset);
    assert!(settle_selection(&mut idle, &files, &at(&[]), &rev()).is_ok());
    let mut stale = spec(vec![("a.txt", keep()), ("gone", ids(&["hunk-1"]))], DefaultAction::Reset);
    let e = settle_selection(&mut stale, &files, &at(&[]), &rev()).unwrap_err();
    assert!(e.message.contains("gone: no such path in the diff"));
}
