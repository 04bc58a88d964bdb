//! What a command says that it would do.

use std::collections::{HashMap, HashSet};

use jj_hunk::diff::{get_hunks, Hunk};
use jj_hunk::dry_run::{
    build, count, endpoints, halves, hunkless_reason, outcomes, phrase, revision_ref, Endpoints,
    FileOutcome, Landing, PlanFailure, RevisionRef, Verb, WholeFile,
};
use jj_hunk::files::FileHunks;
use jj_hunk::names::NameMap;
use jj_hunk::revisions::DiffTarget;
use jj_hunk::spec::{Action, DefaultAction, FileSpec, HunkSpec, Spec};

fn rev(revset: &str, change: &str, commit: &str) -> RevisionRef {
    RevisionRef {
        revset: revset.to_string(),
        change_id: change.to_string(),
        commit_id: commit.to_string(),
    }
}

fn ends() -> Endpoints {
    Endpoints {
        left: Some(rev("@-", "parentchange", "parentcommit")),
        right: rev("@", "childchange", "childcommit"),
    }
}

fn two_hunks() -> Vec<FileOutcome> {
    vec![FileOutcome {
        path: "f.txt".to_string(),
        status: "modified".to_string(),
        from: None,
        selected_hunks: vec!["hunk-aaaa".to_string()],
        unselected_hunks: vec!["hunk-bbbb".to_string()],
        whole_file: None,
    }]
}

#[test]
fn diffedit_and_restore_are_mirror_images() {
    let files = two_hunks();
    let (edit_selected, edit_unselected, _) =
        halves(Verb::Diffedit, &ends(), &files).expect("diffedit has a parent");
    let (restore_selected, restore_unselected, _) =
        halves(Verb::Restore, &ends(), &files).expect("restore has a parent");

    assert_eq!(edit_selected.effect, "keep");
    assert_eq!(edit_unselected.effect, "discard");
    assert_eq!(restore_selected.effect, "undo");
    assert_eq!(restore_unselected.effect, "keep");

    assert!(!edit_selected.loses_content && edit_unselected.loses_content);
    assert!(restore_selected.loses_content && !restore_unselected.loses_content);
}

#[test]
fn each_verb_has_a_distinct_signature() {
    let files = two_hunks();
    let verbs = [
        Verb::Split { message: "m" },
        Verb::Commit { message: "m" },
        Verb::Squash,
        Verb::Diffedit,
        Verb::Restore,
    ];

    let kind = |landing: &Landing| match landing {
        Landing::Revision { .. } => "revision",
        Landing::WorkingCopy => "working_copy",
        Landing::NewCommit { .. } => "new_commit",
    };

    let signatures: HashSet<String> = verbs
        .iter()
        .map(|verb| {
            let (selected, unselected, _) = halves(*verb, &ends(), &files)
                .expect("every verb resolves against a revision with a parent");
            format!(
                "{}/{} {}/{}",
                selected.effect,
                kind(&selected.lands_in),
                unselected.effect,
                kind(&unselected.lands_in)
            )
        })
        .collect();
    assert_eq!(signatures.len(), verbs.len(), "{signatures:?}");
}

#[test]
fn restore_rewrites_the_left_of_its_reversed_target() {
    let files = two_hunks();
    let (selected, _, rewrites) = halves(Verb::Restore, &ends(), &files).unwrap();
    assert_eq!(
        rewrites.revset, "@-",
        "the revision restore rewrites is the destination, not the source"
    );

    match &selected.lands_in {
        Landing::Revision { revision } => assert_eq!(revision.revset, "@-"),
        other => panic!("restore must land in a revision, got {other:?}"),
    }
    assert_eq!(
        selected.replaced_by.as_ref().map(|r| r.revset.as_str()),
        Some("@"),
        "the content comes from the right of the reversed diff"
    );
}

#[test]
fn squash_moves_into_the_parent_and_keeps_the_rest_in_place() {
    let files = two_hunks();
    let (selected, unselected, rewrites) = halves(Verb::Squash, &ends(), &files).unwrap();
    assert_eq!(rewrites.revset, "@");

    match (&selected.lands_in, &unselected.lands_in) {
        (Landing::Revision { revision: to }, Landing::Revision { revision: stay }) => {
            assert_eq!(to.revset, "@-");
            assert_eq!(stay.revset, "@");
        }
        other => panic!("squash lands in two revisions, got {other:?}"),
    }
    assert!(!selected.loses_content && !unselected.loses_content);
}

#[test]
fn a_hunkless_change_is_counted_apart_from_hunks() {
    let files = vec![FileOutcome {
        path: "logo.png".to_string(),
        status: "modified".to_string(),
        from: None,
        selected_hunks: Vec::new(),
        unselected_hunks: Vec::new(),
        whole_file: Some(WholeFile {
            selected: true,
            reason: "binary",
        }),
    }];
    let counts = count(&files, true);
    assert_eq!(counts.hunks, 0);
    assert_eq!(counts.whole_file_changes, 1);
    assert_eq!(counts.files, 1);
    assert_eq!(phrase(&counts).text, "1 whole-file change in 1 file");

    let other = count(&files, false);
    assert_eq!(other.files, 0);
    assert_eq!(phrase(&other).text, "nothing");
}

#[test]
fn a_file_split_down_the_middle_is_counted_in_both_halves() {
    let files = two_hunks();
    assert_eq!(count(&files, true).files, 1);
    assert_eq!(count(&files, false).files, 1);
}

fn file(path: &str, hunks: Vec<Hunk>, is_binary: bool) -> FileHunks {
    FileHunks {
        path: path.to_string(),
        status: "modified".to_string(),
        rename: None,
        hunks,
        is_binary,
        is_symlink: false,
        mode: None,
        truncated: false,
    }
}

fn spec(entries: Vec<(&str, FileSpec)>, default: DefaultAction) -> Spec {
    let mut files = NameMap::new();
    for (path, entry) in entries {
        files.insert(path.to_string(), entry);
    }
    Spec { files, default }
}

fn sample() -> Vec<FileHunks> {
    vec![
        file("a.txt", get_hunks("a.txt", "1\n2\n3\n4\n5\n", "1\nX\n3\n4\nY\n"), false),
        file("b.png", Vec::new(), true),
        file("c.txt", get_hunks("c.txt", "1\n", "2\n"), false),
    ]
}

#[test]
fn a_plan_shares_out_every_hunk() {
    let files = sample();
    let first = files[0].hunks[0].id.clone();
    let selection = HunkSpec { hunks: Vec::new(), ids: vec![first.clone()], from: None };
    let spec = spec(
        vec![
            ("a.txt", FileSpec::Selection(selection)),
            ("b.png", FileSpec::Action { action: Action::Keep, from: None }),
        ],
        DefaultAction::Reset,
    );
    let target = DiffTarget::rev(None);
    let plan = match build(Verb::Squash, &target, &ends(), &spec, &files, " written ", false) {
        Ok(plan) => plan,
        Err(e) => panic!("{e:?}"),
    };
    assert!(plan.dry_run && !plan.changed);
    assert_eq!(plan.command, "squash");
    assert_eq!(plan.selector, "written");
    assert_eq!(plan.listing, "jj-hunk list");
    assert_eq!(plan.revision.revset, "@");
    assert_eq!(plan.files.len(), 3);
    assert_eq!(plan.files[0].selected_hunks, vec![first]);
    assert_eq!(plan.files[0].unselected_hunks.len(), 1);
    assert!(plan.files[1].whole_file.as_ref().unwrap().selected);
    assert_eq!(plan.files[1].whole_file.as_ref().unwrap().reason, "binary");
    assert_eq!((plan.selected.hunks, plan.selected.whole_file_changes, plan.selected.files), (1, 1, 2));
    assert_eq!((plan.unselected.hunks, plan.unselected.files), (2, 2));
    assert!(plan.summary.starts_with("squash --dry-run: "), "{}", plan.summary);
    assert!(plan.summary.ends_with(". Nothing was changed."), "{}", plan.summary);
    let counted = outcomes(&spec, &files).unwrap();
    let both = count(&counted, true).hunks + count(&counted, false).hunks;
    assert_eq!(both, 3);
}

#[test]
fn a_selection_that_cannot_be_told_apart_has_no_plan() {
    let files = sample();
    let selection =
        HunkSpec { hunks: Vec::new(), ids: vec!["hunk-".to_string()], from: None };
    let spec = spec(vec![("a.txt", FileSpec::Selection(selection))], DefaultAction::Reset);
    let plan = build(Verb::Squash, &DiffTarget::rev(None), &ends(), &spec, &files, "x", false);
    assert!(matches!(plan, Err(PlanFailure::Undecided(e)) if e.path == "a.txt"));
}

#[test]
fn without_a_parent_there_is_nothing_to_take_content_from() {
    let ends = Endpoints { left: None, right: rev("root", "c", "k") };
    for verb in [Verb::Squash, Verb::Diffedit, Verb::Restore] {
        let message = halves(verb, &ends, &two_hunks()).unwrap_err();
        assert_eq!(
            message,
            "`root` has no parent, so there is no revision for its content to come from"
        );
    }
    assert!(halves(Verb::Split { message: "m" }, &ends, &two_hunks()).is_ok());
}

#[test]
fn phrases_count_and_agree() {
    let files = two_hunks();
    let one = phrase(&count(&files, true));
    assert_eq!(one.text, "1 hunk in 1 file");
    assert_eq!(one.verb("goes", "go"), "goes");
    let two = phrase(&count(&[two_hunks(), two_hunks()].into_iter().flatten().collect(), true));
    assert_eq!(two.text, "2 hunks in 2 files");
    assert_eq!(two.verb("goes", "go"), "go");
}

#[test]
fn the_ends_of_a_diff_are_asked_for_by_name() {
    let q = endpoints(&DiffTarget::rev(Some("x")), Some("abc"));
    assert_eq!((q.right.revset.as_str(), q.right.label.as_str()), ("x", "x"));
    let left = q.left.unwrap();
    assert_eq!((left.revset.as_str(), left.label.as_str()), ("abc", "x-"));
    let q = endpoints(&DiffTarget::from_to("a", "b"), None);
    assert_eq!(q.left.unwrap().revset, "a");
    assert_eq!(q.right.revset, "b");
}

#[test]
fn a_revision_is_read_from_its_row() {
    let r = revision_ref("@", "@", "commit1\tchange1\n").unwrap();
    assert_eq!((r.commit_id.as_str(), r.change_id.as_str()), ("commit1", "change1"));
    let none = revision_ref("x", "x", "\n").unwrap_err();
    assert_eq!(none.code.code, "REVSET_UNRESOLVED");
    let two = revision_ref("x", "x", "a\tb\nc\td\n").unwrap_err();
    assert_eq!(two.code.code, "REVSET_AMBIGUOUS");
    assert_eq!(
        two.message,
        "revset `x` resolved to 2 revisions, but jj-hunk needs exactly one."
    );
}

#[test]
fn a_new_commit_is_told_by_its_message() {
    let (selected, _, _) = halves(Verb::Commit { message: "say \"hi\"" }, &ends(), &two_hunks()).unwrap();
    match &selected.lands_in {
        Landing::NewCommit { message, .. } => assert_eq!(message.as_deref(), Some("say \"hi\"")),
        other => panic!("{other:?}"),
    }
    assert!(selected.describe.contains(r#""say \"hi\"""#), "{}", selected.describe);
}

#[test]
fn why_a_file_has_no_hunks() {
    let reasons: HashMap<bool, &str> =
        [true, false].into_iter().map(|b| (b, hunkless_reason(&file("f", Vec::new(), b)))).collect();
    assert_eq!(reasons[&true], "binary");
    assert_ne!(reasons[&false], "binary");
}
