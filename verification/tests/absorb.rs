//! Which hunk goes where, and what is said about it.

use jj_hunk::absorb::{
    advance, ancestors_revset, annotate_args, build_plan, commit_ref, commit_refs, conflicted,
    consider, fingerprint, group_by_fingerprint, history_of, hunk_location, interrupted_report,
    nothing_moves, parent, render_plan, rewritten_revset, route_group, squash_args, squash_spec,
    CommitRef, Considered, Event, History, HunkFacts, HunkGroup, InsertionPolicy, NextStep, Plan,
    Routing, Run,
};
use jj_hunk::diff::{get_hunks, Hunk};
use jj_hunk::files::{FileHunks, ModeChange, RenameInfo};
use jj_hunk::names::NameMap;
use jj_hunk::spec::{Action, DefaultAction, FileSpec, HunkSpec, Spec};

fn commit(commit_id: &str, short: &str) -> CommitRef {
    CommitRef {
        commit_id: commit_id.to_string(),
        change_id: format!("{commit_id}-change"),
        short: short.to_string(),
        description: format!("commit {short}"),
    }
}

fn owners(ids: &[&str]) -> Vec<String> {
    ids.iter().map(|id| id.to_string()).collect()
}

fn route(
    path: &str,
    before: &str,
    after: &str,
    annotation: &[String],
    commits: &Vec<CommitRef>,
    policy: InsertionPolicy,
) -> Vec<Routing> {
    let hunks = get_hunks(path, before, after);
    group_by_fingerprint(path, &hunks)
        .into_iter()
        .map(|group| route_group(&group, &History::Lines(annotation.to_vec()), commits, policy))
        .collect()
}

fn moved_to(routing: &Routing) -> Option<&str> {
    match routing {
        Routing::Move(target) => Some(target.short.as_str()),
        Routing::Stay(_) => None,
    }
}

fn stay_reason(routing: &Routing) -> &str {
    match routing {
        Routing::Stay(reason) => reason,
        Routing::Move(target) => panic!("expected a stay, got a move to {}", target.short),
    }
}

#[test]
fn a_fingerprint_ignores_context_where_an_id_does_not() {
    let near = get_hunks("f.txt", "a\nb\nc\nTARGET\ne\n", "a\nb\nc\nCHANGED\ne\n");
    let far = get_hunks("f.txt", "z\ny\nx\nTARGET\ne\n", "z\ny\nx\nCHANGED\ne\n");

    assert_eq!(near.len(), 1);
    assert_eq!(far.len(), 1);
    assert_ne!(near[0].id, far[0].id, "ids fold in the context");
    assert_eq!(
        fingerprint("f.txt", &near[0]),
        fingerprint("f.txt", &far[0]),
        "fingerprints must not"
    );
}

#[test]
fn the_same_change_to_two_files_gets_two_fingerprints() {
    let hunks = get_hunks("one.rs", "a\nb\n", "a\nB\n");
    let other = get_hunks("two.rs", "a\nb\n", "a\nB\n");
    assert_ne!(
        fingerprint("one.rs", &hunks[0]),
        fingerprint("two.rs", &other[0])
    );
}

#[test]
fn a_hunk_goes_to_the_commit_that_owns_its_lines() {
    let commits = vec![commit("aaa", "older"), commit("bbb", "newer")];
    let annotation = owners(&["aaa", "bbb", "aaa"]);

    let routings = route(
        "f.txt",
        "one\ntwo\nthree\n",
        "one\nTWO\nthree\n",
        &annotation,
        &commits,
        InsertionPolicy::Skip,
    );
    assert_eq!(routings.len(), 1);
    assert_eq!(moved_to(&routings[0]), Some("newer"));
}

#[test]
fn a_hunk_spanning_two_owners_stays() {
    let commits = vec![commit("aaa", "older"), commit("bbb", "newer")];
    let annotation = owners(&["aaa", "aaa", "bbb", "aaa"]);

    let routings = route(
        "f.txt",
        "one\ntwo\nthree\nfour\n",
        "one\nTWO\nTHREE\nfour\n",
        &annotation,
        &commits,
        InsertionPolicy::Skip,
    );
    assert_eq!(routings.len(), 1);
    let reason = stay_reason(&routings[0]);
    assert!(reason.contains("2 commits"), "{reason}");
    assert!(reason.contains("older") && reason.contains("newer"), "{reason}");
}

#[test]
fn a_hunk_whose_lines_are_immutable_stays() {
    let commits = vec![commit("bbb", "newer")];
    let annotation = owners(&["aaa", "aaa"]);

    let routings = route(
        "f.txt",
        "one\ntwo\n",
        "one\nTWO\n",
        &annotation,
        &commits,
        InsertionPolicy::Skip,
    );
    assert!(stay_reason(&routings[0]).contains("immutable"));
}

#[test]
fn a_pure_insertion_stays_by_default() {
    let commits = vec![commit("aaa", "older")];
    let annotation = owners(&["aaa", "aaa"]);

    let routings = route(
        "f.txt",
        "one\ntwo\n",
        "one\ninserted\ntwo\n",
        &annotation,
        &commits,
        InsertionPolicy::Skip,
    );
    let reason = stay_reason(&routings[0]);
    assert!(reason.contains("only adds lines"), "{reason}");
    assert!(reason.contains("--insertions=surrounding"), "{reason}");
}

#[test]
fn surrounding_routes_an_insertion_inside_one_owners_lines() {
    let commits = vec![commit("aaa", "older"), commit("bbb", "newer")];
    let annotation = owners(&["bbb", "aaa", "aaa", "bbb"]);

    let routings = route(
        "f.txt",
        "one\ntwo\nthree\nfour\n",
        "one\ntwo\nNEW\nthree\nfour\n",
        &annotation,
        &commits,
        InsertionPolicy::Surrounding,
    );
    assert_eq!(moved_to(&routings[0]), Some("older"));
}

#[test]
fn surrounding_refuses_an_insertion_on_a_boundary() {
    let commits = vec![commit("aaa", "older"), commit("bbb", "newer")];
    let annotation = owners(&["aaa", "bbb"]);

    let routings = route(
        "f.txt",
        "one\ntwo\n",
        "one\nNEW\ntwo\n",
        &annotation,
        &commits,
        InsertionPolicy::Surrounding,
    );
    let reason = stay_reason(&routings[0]);
    assert!(reason.contains("boundary"), "{reason}");
}

#[test]
fn surrounding_routes_an_insertion_at_either_end_of_the_file() {
    let commits = vec![commit("aaa", "older")];
    let annotation = owners(&["aaa", "aaa"]);

    let first = route(
        "f.txt",
        "one\ntwo\n",
        "NEW\none\ntwo\n",
        &annotation,
        &commits,
        InsertionPolicy::Surrounding,
    );
    assert_eq!(moved_to(&first[0]), Some("older"));

    let last = route(
        "f.txt",
        "one\ntwo\n",
        "one\ntwo\nNEW\n",
        &annotation,
        &commits,
        InsertionPolicy::Surrounding,
    );
    assert_eq!(moved_to(&last[0]), Some("older"));
}

#[test]
fn identical_hunks_bound_for_one_ancestor_travel_together() {
    let commits = vec![commit("aaa", "older"), commit("bbb", "newer")];
    let annotation = owners(&["bbb", "aaa", "bbb", "bbb", "aaa", "bbb"]);

    let routings = route(
        "f.txt",
        "p\nDUP\nq\nr\nDUP\ns\n",
        "p\nEDIT\nq\nr\nEDIT\ns\n",
        &annotation,
        &commits,
        InsertionPolicy::Skip,
    );

    assert_eq!(routings.len(), 1, "the two identical hunks form one group");
    assert_eq!(moved_to(&routings[0]), Some("older"));
}

#[test]
fn identical_hunks_bound_for_different_ancestors_stay() {
    let commits = vec![commit("aaa", "older"), commit("bbb", "newer")];
    let annotation = owners(&["aaa", "aaa", "aaa", "bbb", "bbb", "bbb"]);

    let routings = route(
        "f.txt",
        "p\nDUP\nq\nr\nDUP\ns\n",
        "p\nEDIT\nq\nr\nEDIT\ns\n",
        &annotation,
        &commits,
        InsertionPolicy::Skip,
    );

    assert_eq!(routings.len(), 1);
    let reason = stay_reason(&routings[0]);
    assert!(reason.contains("identical to another hunk"), "{reason}");
    assert!(reason.contains("older") && reason.contains("newer"), "{reason}");
}

#[test]
fn a_hunk_in_a_file_with_no_history_stays() {
    let hunks = get_hunks("new.txt", "", "one\ntwo\n");
    let commits = vec![commit("aaa", "older")];

    let groups = group_by_fingerprint("new.txt", &hunks);
    let absent = History::Absent("new.txt is new in this revision".to_string());
    let reason = match route_group(&groups[0], &absent, &commits, InsertionPolicy::Surrounding) {
        Routing::Stay(reason) => reason,
        Routing::Move(_) => panic!("a file with no parent version must not route"),
    };
    assert!(reason.contains("new in this revision"), "{reason}");
}

fn sample_group(path: &str, before_start: usize, removed: usize, added: usize) -> HunkGroup {
    HunkGroup {
        path: path.to_string(),
        fingerprint: format!("{path}-{before_start}"),
        members: vec![HunkFacts {
            short_id: "hunk-0badcafe".to_string(),
            before_start,
            removed,
            added,
        }],
    }
}

fn sample_plan() -> Plan {
    Plan {
        source: CommitRef {
            commit_id: "sss".to_string(),
            change_id: "sss-change".to_string(),
            short: "srcsrcsr".to_string(),
            description: "work in progress".to_string(),
        },
        moves: vec![
            (commit("aaa", "olderold"), vec![sample_group("f.txt", 3, 1, 1)]),
            (commit("bbb", "newernew"), vec![sample_group("f.txt", 8, 2, 3)]),
        ],
        stays: vec![(sample_group("g.txt", 1, 0, 4), "because".to_string())],
        notes: vec!["img.png is binary".to_string()],
        insertions: InsertionPolicy::Skip,
        dry_run: true,
    }
}

#[test]
fn a_plan_reads_as_counts_then_destinations_then_leftovers() {
    let rendered = render_plan(&sample_plan());

    assert_eq!(
        rendered,
        "absorb from srcsrcsr work in progress\n\
         \x20 3 hunks: 2 moving into 2 ancestors, 1 staying\n\
         \n\
         move into olderold commit olderold\n\
         \x20 f.txt:3  -1 +1  hunk-0badcafe\n\
         \n\
         move into newernew commit newernew\n\
         \x20 f.txt:8  -2 +3  hunk-0badcafe\n\
         \n\
         stay in srcsrcsr work in progress\n\
         \x20 g.txt:1  -0 +4  hunk-0badcafe\n\
         \x20   because\n\
         \n\
         note: img.png is binary\n\
         \n\
         line numbers are in the parent of srcsrcsr; an insertion is listed \
         at the line it goes before\n\
         --dry-run: nothing was changed\n"
    );
}

#[test]
fn rendering_the_same_plan_twice_gives_the_same_text() {
    assert_eq!(render_plan(&sample_plan()), render_plan(&sample_plan()));
}

#[test]
fn an_interrupted_run_names_what_moved_and_what_did_not() {
    let plan = sample_plan();
    let moved: Vec<&CommitRef> = vec![&plan.moves[0].0];
    let report = interrupted_report(&plan, &moved, 1, "0123abcd");

    assert!(report.contains("stopped part way"), "{report}");
    assert!(report.contains("  moved:     olderold"), "{report}");
    assert!(report.contains("  not moved: newernew"), "{report}");
    assert!(report.contains("(1 hunks)"), "{report}");
    assert!(report.contains("jj op restore 0123abcd"), "{report}");
}

#[test]
fn an_interrupted_run_that_moved_nothing_says_so() {
    let plan = sample_plan();
    let report = interrupted_report(&plan, &Vec::new(), 0, "0123abcd");

    assert!(report.contains("moved:     nothing"), "{report}");
    assert!(report.contains("not moved: olderold"), "{report}");
    assert!(report.contains("newernew"), "{report}");
}

fn file(path: &str, status: &str, hunks: Vec<Hunk>) -> FileHunks {
    FileHunks {
        path: path.to_string(),
        status: status.to_string(),
        hunks,
        rename: None,
        is_binary: false,
        is_symlink: false,
        mode: None,
        truncated: false,
    }
}

fn diff() -> Vec<FileHunks> {
    vec![
        file(
            "a.txt",
            "modified",
            get_hunks("a.txt", "1\n2\n3\n4\n5\n", "1\nX\n3\n4\nY\n"),
        ),
        file("new.txt", "added", get_hunks("new.txt", "", "n\n")),
        FileHunks { is_binary: true, ..file("b.png", "modified", Vec::new()) },
        FileHunks {
            rename: Some(RenameInfo { from: "old.txt".to_string(), to: "r.txt".to_string() }),
            ..file("r.txt", "renamed", get_hunks("r.txt", "1\n", "2\n"))
        },
        FileHunks {
            mode: Some(ModeChange { from: "100644", to: "100755" }),
            ..file("m.sh", "modified", get_hunks("m.sh", "1\n", "2\n"))
        },
    ]
}

fn annotated(mut considered: Considered) -> Considered {
    for file in considered.files.iter_mut() {
        if file.history.is_none() {
            let lines = owners(&["aaa", "bbb", "aaa", "aaa", "aaa"]);
            file.history = Some(History::Lines(lines));
        }
    }
    considered
}

#[test]
fn every_file_of_a_diff_is_accounted_for() {
    let considered = consider(None, diff()).unwrap();
    let paths: Vec<&str> = considered.files.iter().map(|f| f.path.as_str()).collect();
    assert_eq!(paths, ["a.txt", "new.txt", "r.txt", "m.sh"]);
    assert_eq!(
        considered.notes,
        [
            "b.png is binary, so its change cannot be split into hunks and stays",
            "m.sh also changes its executable bit, which is not part of any hunk and stays",
        ]
    );
    assert!(considered.files[0].history.is_none());
    match &considered.files[1].history {
        Some(History::Absent(reason)) => assert_eq!(
            reason,
            "new.txt is new in this revision, so none of its lines has any history"
        ),
        other => panic!("{other:?}"),
    }
    match &considered.files[2].history {
        Some(History::Absent(reason)) => {
            assert!(reason.starts_with("r.txt was renamed from old.txt, "), "{reason}")
        }
        other => panic!("{other:?}"),
    }
}

#[test]
fn a_plan_accounts_for_every_hunk_and_goes_from_the_oldest_on() {
    let ancestors = vec![commit("bbb", "newernew"), commit("aaa", "olderold")];
    let considered = annotated(consider(None, diff()).unwrap());
    let total: usize = considered.files.iter().map(|f| f.hunks.len()).sum();
    let plan = build_plan(
        commit("sss", "source"),
        &ancestors,
        considered,
        false,
        InsertionPolicy::Skip,
        false,
    )
    .unwrap();
    let order: Vec<&str> = plan.moves.iter().map(|(c, _)| c.short.as_str()).collect();
    assert_eq!(order, ["olderold", "newernew"]);
    assert_eq!(plan.moving_hunks() + plan.staying_hunks(), total);
    assert_eq!(plan.moving_hunks(), 3);
    assert_eq!(plan.moves[0].1.len(), 2);
    assert_eq!(plan.moves[1].1[0].members[0].before_start, 2);
}

#[test]
fn nothing_to_absorb_is_said_with_what_is_there() {
    let empty = || Considered { files: Vec::new(), notes: vec!["n".to_string()] };
    let refused = build_plan(
        commit("sss", "source"),
        &Vec::new(),
        empty(),
        false,
        InsertionPolicy::Skip,
        false,
    )
    .unwrap_err();
    assert_eq!(
        refused,
        "source commit source changes no lines that absorb can route, so there is nothing to \
         absorb.\n  source has no mutable ancestors, so nothing can move\n  n"
    );
    let ancestors = vec![commit("aaa", "older")];
    let refused = build_plan(
        commit("sss", "source"),
        &ancestors,
        Considered { files: Vec::new(), notes: Vec::new() },
        true,
        InsertionPolicy::Skip,
        false,
    )
    .unwrap_err();
    assert_eq!(
        refused,
        "the selection matched no hunks in source, so there is nothing to absorb.\nCheck it with \
         `jj-hunk list --spec ...`."
    );
}

#[test]
fn a_spec_narrows_what_is_considered() {
    let files = diff();
    let first = files[0].hunks[0].id.clone();
    let mut entries = NameMap::new();
    entries.insert(
        "a.txt".to_string(),
        FileSpec::Selection(HunkSpec { hunks: Vec::new(), ids: vec![first.clone()], from: None }),
    );
    entries.insert("m.sh".to_string(), FileSpec::Action { action: Action::Reset, from: None });
    let spec = Spec { files: entries, default: DefaultAction::Reset };
    let considered = consider(Some(&spec), files).unwrap();
    assert_eq!(considered.files.len(), 1);
    assert_eq!(considered.files[0].hunks.len(), 1);
    assert_eq!(considered.files[0].hunks[0].id, first);
    assert!(considered.notes.is_empty());
}

#[test]
fn an_id_that_names_two_hunks_is_refused() {
    let mut entries = NameMap::new();
    entries.insert(
        "a.txt".to_string(),
        FileSpec::Selection(HunkSpec {
            hunks: Vec::new(),
            ids: vec!["hunk-".to_string()],
            from: None,
        }),
    );
    let spec = Spec { files: entries, default: DefaultAction::Reset };
    let e = consider(Some(&spec), diff()).unwrap_err();
    assert_eq!(e.path, "a.txt");
    assert!(e.message().starts_with("cannot resolve the selection for a.txt: "));
}

#[test]
fn planned_hunks_are_found_again_by_what_they_change() {
    let source = commit("sss", "source");
    let planned = group_by_fingerprint(
        "a.txt",
        &get_hunks("a.txt", "1\n2\n3\n4\n5\n6\n7\n8\n", "1\nX\n3\n4\n5\n6\n7\nY\n"),
    );
    let now = vec![file(
        "a.txt",
        "modified",
        get_hunks("a.txt", "0\n1\n2\n3\n4\n5\n6\n7\n8\n", "0\n1\nX\n3\n4\n5\n6\n7\nY\n"),
    )];
    let spec = squash_spec(&planned, &now, &source).unwrap();
    assert_eq!(spec.default, DefaultAction::Reset);
    assert_eq!(spec.files.len(), 1);
    match spec.files.get("a.txt") {
        Some(FileSpec::Selection(s)) => {
            assert_eq!(s.ids, [now[0].hunks[0].id.clone(), now[0].hunks[1].id.clone()])
        }
        other => panic!("{other:?}"),
    }
    let gone = squash_spec(&planned, &Vec::new(), &source).unwrap_err();
    assert_eq!(gone, "a.txt is no longer part of source, so the planned hunks cannot be found");
    let fewer = vec![file("a.txt", "modified", get_hunks("a.txt", "2\n", "X\n"))];
    let changed = squash_spec(&planned, &fewer, &source).unwrap_err();
    assert_eq!(
        changed,
        "a.txt: expected 1 hunk(s) matching the planned change but found 0. The revision changed \
         under absorb; re-run it."
    );
}

#[test]
fn a_run_goes_from_destination_to_destination() {
    let plan = sample_plan();
    assert!(nothing_moves(&plan).is_none());
    let mut run = Run { moved: 0, undo_point: String::new() };
    assert!(matches!(
        advance(&plan, &mut run, Event::Started("op1".to_string())),
        NextStep::Squash(0)
    ));
    assert!(matches!(advance(&plan, &mut run, Event::Squashed), NextStep::ListConflicts(0)));
    assert!(matches!(
        advance(&plan, &mut run, Event::Conflicts(Vec::new())),
        NextStep::Squash(1)
    ));
    assert!(matches!(advance(&plan, &mut run, Event::Squashed), NextStep::ListConflicts(1)));
    match advance(&plan, &mut run, Event::Conflicts(Vec::new())) {
        NextStep::Done(report) => assert_eq!(
            report,
            "\nAbsorbed 2 hunks into 2 revisions:\n  olderold commit olderold\n  newernew commit \
             newernew\n1 hunks stayed in srcsrcsr.\nUndo all of it with: jj op restore op1\n"
        ),
        other => panic!("{other:?}"),
    }
}

#[test]
fn a_run_stops_where_a_conflict_is_left_or_a_step_fails() {
    let plan = sample_plan();
    let mut run = Run { moved: 1, undo_point: "op1".to_string() };
    match advance(&plan, &mut run, Event::Conflicts(vec!["x1".to_string(), "x2".to_string()])) {
        NextStep::Stopped { report, cause } => {
            assert_eq!(
                cause,
                "moving into newernew left commits conflicted (x1, x2), and absorb will not squash \
                 further hunks into a conflicted history"
            );
            assert!(report.contains("  moved:     olderold"), "{report}");
            assert!(report.contains("  not moved: newernew"), "{report}");
        }
        other => panic!("{other:?}"),
    }
    match advance(&plan, &mut run, Event::Failed("because".to_string())) {
        NextStep::Stopped { cause, .. } => assert_eq!(cause, "because"),
        other => panic!("{other:?}"),
    }
    let none = Plan { moves: Vec::new(), ..sample_plan() };
    assert_eq!(
        nothing_moves(&none).as_deref(),
        Some("Nothing to absorb: every hunk stays in srcsrcsr.")
    );
}

#[test]
fn commits_are_read_from_their_rows() {
    let rows = "c1\td1\ts1\t first\tline \n\nc2\td2\ts2\nbroken\trow\n";
    let refs = commit_refs(rows);
    assert_eq!(refs.len(), 2);
    assert_eq!(refs[0].description, "first\tline");
    assert_eq!(refs[1].label(), "s2 (no description)");
    assert_eq!(refs[0].label(), "s1 first\tline");
    assert!(commit_ref("@", "c1\td1\ts1\tx\n").is_ok());
    assert_eq!(
        commit_ref("all()", rows).unwrap_err(),
        "revset `all()` resolved to 2 revisions, but absorb needs one"
    );
}

#[test]
fn what_jj_is_asked_and_what_it_answers() {
    let source = commit("sss", "source");
    let target = commit("aaa", "older");
    assert_eq!(
        squash_args(&source, &target).join(" "),
        "squash -i --tool=jj-hunk --keep-emptied --from sss-change --into aaa-change"
    );
    assert_eq!(
        annotate_args("p", "a b.txt"),
        ["file", "annotate", "-r", "p", "-T", "commit.commit_id() ++ \"\\n\"", "--", "a b.txt"]
    );
    assert_eq!(ancestors_revset("p"), "::p & mutable()");
    assert_eq!(rewritten_revset(&target), "aaa-change::");
    assert_eq!(conflicted(" x1 \n\nx2\n"), ["x1", "x2"]);
    match history_of("f", true, "a\nb\n", "") {
        History::Lines(lines) => assert_eq!(lines, ["a", "b"]),
        other => panic!("{other:?}"),
    }
    match history_of("f", false, "", " no such path \n") {
        History::Absent(reason) => assert_eq!(
            reason,
            "f could not be annotated, so its lines have no traceable history (no such path)"
        ),
        other => panic!("{other:?}"),
    }
    assert_eq!(parent(&source, Some("p".to_string())).unwrap(), "p");
    assert_eq!(
        parent(&source, None).unwrap_err(),
        "source commit source has no parent, so there is no ancestor to absorb into."
    );
}

#[test]
fn a_hunk_past_the_end_of_the_parent_is_not_guessed_at() {
    let commits = vec![commit("aaa", "older")];
    let group = sample_group("f.txt", 3, 2, 1);
    match route_group(&group, &History::Lines(owners(&["aaa", "aaa"])), &commits, InsertionPolicy::Skip) {
        Routing::Stay(reason) => assert_eq!(
            reason,
            "it covers parent lines 3-4, which is past the 2 the parent has -- refusing to guess"
        ),
        other => panic!("{other:?}"),
    }
    assert_eq!(
        hunk_location(&group, &group.members[0]),
        "f.txt:3  -2 +1  hunk-0badcafe"
    );
}

#[test]
fn a_fingerprint_is_a_digest() {
    let hunk = &get_hunks("f.txt", "a\n", "b\n")[0];
    let print = fingerprint("f.txt", hunk);
    assert_eq!(print.len(), 64);
    assert!(print.chars().all(|c| c.is_ascii_hexdigit()));
}
