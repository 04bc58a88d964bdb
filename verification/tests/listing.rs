//! What is listed, in which groups, and how it is written.

use jj_hunk::commands::{list, prepare_listing, ListFailure, Listing};
use jj_hunk::diff::{get_hunks, Hunk};
use jj_hunk::files::{abbreviate_ids, BinaryMode, FileHunks, ModeChange, RenameInfo, Truncation};
use jj_hunk::listing::{
    build_output, build_spec_template, build_summary_output, directory_group, extension_group,
    group_files, list_target, matches_any, FileEntry, ListFormat, ListGrouping, ListMode,
    ListOptions, SpecTemplateEntry,
};
use jj_hunk::names::NameMap;
use jj_hunk::node::Node;
use jj_hunk::paths::PathFrame;
use jj_hunk::render::{
    render_diff_output, render_text_output, render_text_summary_output, status_char,
};
use jj_hunk::revisions::DiffTarget;
use jj_hunk::spec::{Action, DefaultAction, FileSpec, HunkSpec, Spec};

fn entry(path: &str, status: &str, hunks: Vec<Hunk>) -> FileEntry {
    FileEntry {
        path: path.to_string(),
        status: status.to_string(),
        rename: None,
        hunks,
        binary: None,
        mode: None,
        symlink: None,
        truncated: None,
    }
}

fn short(mut hunks: Vec<Hunk>) -> Vec<Hunk> {
    for hunk in hunks.iter_mut() {
        hunk.short_id = format!("hunk-{}", hunk.index);
    }
    hunks
}

fn file(path: &str, status: &str, hunks: Vec<Hunk>) -> FileHunks {
    FileHunks {
        path: path.to_string(),
        status: status.to_string(),
        hunks,
        rename: None,
        is_binary: false,
        is_symlink: false,
        mode: None,
        truncated: false,
    }
}

fn root() -> PathFrame {
    PathFrame { prefix: Vec::new() }
}

fn diff() -> Vec<FileHunks> {
    let mut files = vec![
        file("src/a.rs", "modified", get_hunks("src/a.rs", "1\n2\n3\n4\n5\n", "1\nX\n3\n4\nY\n")),
        FileHunks { is_binary: true, ..file("logo.png", "modified", Vec::new()) },
        FileHunks {
            rename: Some(RenameInfo { from: "old.txt".to_string(), to: "new.txt".to_string() }),
            ..file("new.txt", "renamed", Vec::new())
        },
        file("touched.txt", "modified", Vec::new()),
    ];
    abbreviate_ids(&mut files);
    files
}

fn listed(options: &ListOptions, spec: Option<Spec>, evaluated: bool) -> Result<Listing, ListFailure> {
    let target = list_target(options).expect("a target");
    let filters = prepare_listing(options, spec.as_ref(), &root())?;
    list(options, &filters, spec, evaluated, diff(), &root(), &target)
}

fn paths(listing: Listing) -> Vec<String> {
    match listing {
        Listing::Full(output) => output.files.unwrap().into_iter().map(|f| f.path).collect(),
        other => panic!("{other:?}"),
    }
}

fn spec(entries: Vec<(&str, FileSpec)>, default: DefaultAction) -> Spec {
    let mut files = NameMap::new();
    for (path, entry) in entries {
        files.insert(path.to_string(), entry);
    }
    Spec { files, default }
}

fn ids(ids: &[&str]) -> FileSpec {
    FileSpec::Selection(HunkSpec {
        hunks: Vec::new(),
        ids: ids.iter().map(|id| id.to_string()).collect(),
        from: None,
    })
}

#[test]
fn a_file_without_hunks_is_listed_where_it_changed() {
    let shown = paths(listed(&ListOptions::default(), None, false).unwrap());
    assert_eq!(shown, ["logo.png", "new.txt", "src/a.rs"]);
}

#[test]
fn patterns_narrow_a_listing_by_either_name_of_a_file() {
    let only = ListOptions { included: vec!["old.txt".to_string()], ..ListOptions::default() };
    assert_eq!(paths(listed(&only, None, false).unwrap()), ["new.txt"]);
    let but = ListOptions { excluded: vec!["**/*.rs".to_string()], ..ListOptions::default() };
    assert_eq!(paths(listed(&but, None, false).unwrap()), ["logo.png", "new.txt"]);
    let bad = ListOptions { excluded: vec!["[".to_string()], ..ListOptions::default() };
    assert!(matches!(listed(&bad, None, false), Err(ListFailure::Glob(e)) if e.pattern() == "["));
    assert!(matches_any(&vec!["*.rs".to_string()], &vec!["a.rs", "b.txt"]).unwrap());
    assert!(!matches_any(&vec!["*.rs".to_string()], &vec!["b.txt"]).unwrap());
    assert!(matches_any(&vec!["[".to_string()], &vec!["b.txt"]).is_err());
}

#[test]
fn a_spec_narrows_a_listing() {
    let second = diff()[0].hunks[1].id.clone();
    let narrowed = spec(vec![("src/a.rs", ids(&[second.as_str()]))], DefaultAction::Reset);
    match listed(&ListOptions::default(), Some(narrowed), false).unwrap() {
        Listing::Full(output) => {
            let files = output.files.unwrap();
            assert_eq!(files.len(), 1);
            assert_eq!(files[0].hunks.len(), 1);
            assert_eq!(files[0].hunks[0].index, 1);
        }
        other => panic!("{other:?}"),
    }
}

#[test]
fn a_written_spec_has_to_name_what_is_there() {
    let wrong = || spec(vec![("src/a.rs", ids(&["hunk-0000"]))], DefaultAction::Reset);
    match listed(&ListOptions::default(), Some(wrong()), false) {
        Err(ListFailure::Coded(e)) => {
            assert_eq!(e.code.code, "PATH_NOT_IN_DIFF");
            assert_eq!(
                e.message,
                "spec does not resolve against the diff:\n  src/a.rs: no hunk with id hunk-0000\n\
                 Those entries do not name exactly what they meant to. Check them against \
                 `jj-hunk list --spec-template`."
            );
        }
        other => panic!("{other:?}"),
    }
    assert!(paths(listed(&ListOptions::default(), Some(wrong()), true).unwrap()).is_empty());
    let outside = spec(
        vec![("../x", FileSpec::Action { action: Action::Keep, from: None })],
        DefaultAction::Reset,
    );
    assert!(matches!(
        listed(&ListOptions::default(), Some(outside), false),
        Err(ListFailure::Coded(e)) if e.code.code == "PATH_OUTSIDE_WORKSPACE"
    ));
    let unclear = spec(vec![("src/a.rs", ids(&["hunk-"]))], DefaultAction::Reset);
    assert!(matches!(
        listed(&ListOptions::default(), Some(unclear), true),
        Err(ListFailure::Undecided(e)) if e.path == "src/a.rs"
    ));
}

#[test]
fn a_template_is_structure_and_nothing_else() {
    let text = ListOptions {
        mode: ListMode::SpecTemplate,
        format: ListFormat::Text,
        ..ListOptions::default()
    };
    assert!(matches!(
        listed(&text, None, false),
        Err(ListFailure::Usage(m))
            if m == "--spec-template does not support text output (use json or yaml)"
    ));
    let json = ListOptions { mode: ListMode::SpecTemplate, ..ListOptions::default() };
    match listed(&json, None, false).unwrap() {
        Listing::Template(t) => {
            assert_eq!(t.default, "reset");
            assert_eq!(t.files.len(), 3);
            match t.files.get("new.txt") {
                Some(SpecTemplateEntry::Action { action, from }) => {
                    assert_eq!((action.as_str(), from.as_deref()), ("keep", Some("old.txt")))
                }
                other => panic!("{other:?}"),
            }
            match t.files.get("src/a.rs") {
                Some(SpecTemplateEntry::Ids { ids, from }) => {
                    assert_eq!(ids.len(), 2);
                    assert!(ids.iter().all(|id| id.len() == "hunk-".len() + 8));
                    assert!(from.is_none());
                }
                other => panic!("{other:?}"),
            }
        }
        other => panic!("{other:?}"),
    }
}

#[test]
fn a_template_of_files_that_were_cut_is_refused() {
    let cut = FileEntry { truncated: Some(true), ..entry("big.txt", "modified", Vec::new()) };
    let e = build_spec_template(&vec![cut]).unwrap_err();
    assert_eq!(e.code.code, "TRUNCATED_SPEC_TEMPLATE");
    assert!(e.message.starts_with(
        "cannot build a spec template from truncated files:\n  big.txt\nHunk ids are computed"
    ));
    assert_eq!(e.details.get("paths"), Some(&Node::texts(&vec!["big.txt".to_string()])));
}

#[test]
fn a_listing_of_one_revision_or_between_two() {
    let two = ListOptions { from: Some("a".to_string()), ..ListOptions::default() };
    match list_target(&two).unwrap() {
        DiffTarget::FromTo { from, to } => assert_eq!((from.as_str(), to.as_str()), ("a", "@")),
        other => panic!("{other:?}"),
    }
    let both = ListOptions { to: Some("a".to_string()), ..ListOptions::for_rev(Some("b")) };
    assert_eq!(list_target(&both).unwrap_err(), "--rev cannot be used with --from/--to");
    assert!(matches!(list_target(&ListOptions::for_rev(None)).unwrap(), DiffTarget::Rev(None)));
}

#[test]
fn files_are_grouped_by_what_they_share() {
    for (path, directory, extension) in [
        ("src/a.rs", "src", "rs"),
        ("a", ".", "<no-ext>"),
        ("a/b/c.tar.gz", "a/b", "gz"),
        (".gitignore", ".", "<no-ext>"),
        ("/a", "/", "<no-ext>"),
        ("a/b/", "a", "<no-ext>"),
    ] {
        assert_eq!(directory_group(path), directory, "{path}");
        assert_eq!(extension_group(path), extension, "{path}");
    }
    let files = vec![
        entry("b/x.rs", "modified", Vec::new()),
        entry("a/y.rs", "added", Vec::new()),
        entry("b/z.txt", "modified", Vec::new()),
    ];
    let groups = group_files(files, ListGrouping::Directory);
    let names: Vec<(&str, usize)> =
        groups.iter().map(|g| (g.name.as_str(), g.files.len())).collect();
    assert_eq!(names, [("b", 2), ("a", 1)]);
}

#[test]
fn a_listing_reads_as_text() {
    let files = vec![
        FileEntry {
            rename: Some(RenameInfo { from: "o".to_string(), to: "a.txt".to_string() }),
            mode: Some(ModeChange { from: "100644", to: "100755" }),
            ..entry("a.txt", "renamed", short(get_hunks("a.txt", "1\n2\n", "1\nX\n")))
        },
        FileEntry {
            binary: Some(true),
            symlink: Some(true),
            truncated: Some(true),
            ..entry("b", "strange", Vec::new())
        },
    ];
    let text = render_text_output(&build_output(files, ListGrouping::Ungrouped));
    assert_eq!(
        text,
        "R a.txt (o -> a.txt) [mode 100644 -> 100755, not selectable]\n\
         \x20 hunk 0 replace hunk-0 (before 2+1 after 2+1)\n\
         \x20   - 2\n\
         \x20   + X\n\
         ? b [binary] [symlink, whole-file only] [truncated]\n"
    );
    let none: Vec<FileEntry> = Vec::new();
    assert_eq!(render_text_output(&build_output(none, ListGrouping::Ungrouped)), "");
}

#[test]
fn groups_are_headed_and_parted() {
    let files = vec![entry("x", "added", Vec::new()), entry("d/y", "removed", Vec::new())];
    let text = render_text_summary_output(&build_summary_output(files, ListGrouping::Directory));
    assert_eq!(text, "<root>:\nA x (0 hunks)\n\nd:\nD d/y (0 hunks)\n");
    assert_eq!(status_char("copied"), "C");
    assert_eq!(status_char("modified"), "M");
}

#[test]
fn a_place_in_the_code_is_shown_with_a_hunk() {
    let mut hunks = short(get_hunks("a.rs", "1\n", "2\n"));
    hunks[0].semantic.enclosing_scope = Some("S".to_string());
    hunks[0].semantic.enclosing_function = Some("f".to_string());
    let output = build_output(vec![entry("a.rs", "modified", hunks)], ListGrouping::Ungrouped);
    assert!(render_text_output(&output).contains("(before 1+1 after 1+1) in S::f\n"));
    assert!(render_diff_output(&output).contains("@@ -1,1 +1,1 @@ S::f [hunk-0]\n"));
}

#[test]
fn a_listing_reads_as_a_patch() {
    let files = vec![entry(
        "a.txt",
        "modified",
        short(get_hunks("a.txt", "1\n2\n3\n4\n5\n6\n7\n8\n9\n10\n11\n12", "1\nX\n3\n4\n5\n6\n7\n8\n9\n10\n11\n12\n")),
    )];
    let patch = render_diff_output(&build_output(files, ListGrouping::Ungrouped));
    assert_eq!(
        patch,
        "--- a/a.txt\n+++ b/a.txt\n\
         @@ -1,5 +1,5 @@ [hunk-0]\n 1\n-2\n+X\n 3\n 4\n 5\n\
         @@ -9,4 +9,4 @@ [hunk-1]\n 9\n 10\n 11\n-12\n\\ No newline at end of file\n+12\n"
    );
}

#[test]
fn hunks_whose_context_touches_share_a_block() {
    let files = vec![entry(
        "a.txt",
        "modified",
        short(get_hunks("a.txt", "1\n2\n3\n4\n5\n", "1\nX\n3\nY\n5\n")),
    )];
    let patch = render_diff_output(&build_output(files, ListGrouping::Ungrouped));
    assert_eq!(
        patch,
        "--- a/a.txt\n+++ b/a.txt\n@@ -1,5 +1,5 @@ [hunk-0]\n 1\n-2\n+X\n 3\n-4\n+Y\n 5\n"
    );
}

#[test]
fn a_patch_of_some_hunks_counts_only_those() {
    let before: String = (1..=30).map(|n| format!("{n}\n")).collect();
    let after = before.replace("3\n4\n", "3\nA\nB\n4\n").replace("25\n", "");
    let mut hunks = short(get_hunks("a.txt", &before, &after));
    assert_eq!(hunks.len(), 2);
    hunks.remove(0);
    let output = build_output(vec![entry("a.txt", "modified", hunks)], ListGrouping::Ungrouped);
    assert!(render_diff_output(&output).contains("@@ -22,7 +22,6 @@ [hunk-1]\n"));
}

#[test]
fn one_side_of_a_new_or_a_removed_file_is_nothing() {
    let files = vec![
        entry("n", "added", short(get_hunks("n", "", "x\n"))),
        entry("r", "removed", short(get_hunks("r", "x\n", ""))),
    ];
    assert_eq!(
        render_diff_output(&build_output(files, ListGrouping::Ungrouped)),
        "--- /dev/null\n+++ b/n\n@@ -0,0 +1,1 @@ [hunk-0]\n+x\n\
         --- a/r\n+++ /dev/null\n@@ -1,1 +0,0 @@ [hunk-0]\n-x\n"
    );
}

#[test]
fn what_is_asked_for_where_nothing_is_said() {
    let options = ListOptions::default();
    assert_eq!(options.format, ListFormat::Json);
    assert_eq!(options.group, ListGrouping::Ungrouped);
    assert_eq!(options.mode, ListMode::Full);
    assert_eq!(options.binary, BinaryMode::Mark);
    assert_eq!(options.truncation, Truncation::none());
}

#[test]
fn a_template_read_back_lists_the_whole_diff() {
    let json = ListOptions { mode: ListMode::SpecTemplate, ..ListOptions::default() };
    let template = match listed(&json, None, false).unwrap() {
        Listing::Template(t) => t,
        other => panic!("{other:?}"),
    };
    let mut files = NameMap::new();
    for i in 0..template.files.len() {
        let entry = match template.files.value_at(i) {
            SpecTemplateEntry::Ids { ids, from } => FileSpec::Selection(HunkSpec {
                hunks: Vec::new(),
                ids: ids.clone(),
                from: from.clone(),
            }),
            SpecTemplateEntry::Action { action, from } => {
                assert_eq!(action, "keep");
                FileSpec::Action { action: Action::Keep, from: from.clone() }
            }
        };
        files.insert(template.files.key_at(i).clone(), entry);
    }
    let read = Spec { files, default: DefaultAction::Reset };
    match listed(&ListOptions::default(), Some(read), false).unwrap() {
        Listing::Full(output) => {
            let shown = output.files.unwrap();
            let counts: Vec<(&str, usize)> =
                shown.iter().map(|f| (f.path.as_str(), f.hunks.len())).collect();
            assert_eq!(counts, [("logo.png", 0), ("new.txt", 0), ("src/a.rs", 2)]);
        }
        other => panic!("{other:?}"),
    }
}

#[test]
fn counts_and_hunks_of_a_listing_agree() {
    let counted = ListOptions { mode: ListMode::Files, ..ListOptions::default() };
    let counts: Vec<usize> = match listed(&counted, None, false).unwrap() {
        Listing::Files(output) => output.files.unwrap().iter().map(|f| f.hunk_count).collect(),
        other => panic!("{other:?}"),
    };
    assert_eq!(counts, [0, 0, 2]);
}

#[test]
fn a_listing_is_in_the_order_of_its_paths() {
    let files = vec![
        file("b.txt", "modified", get_hunks("b.txt", "1\n", "2\n")),
        file("a.txt", "modified", get_hunks("a.txt", "1\n", "2\n")),
    ];
    let options = ListOptions::default();
    let target = list_target(&options).unwrap();
    let filters = prepare_listing(&options, None, &root()).unwrap();
    let listing = list(&options, &filters, None, false, files, &root(), &target).unwrap();
    assert_eq!(paths(listing), ["a.txt", "b.txt"]);
}
