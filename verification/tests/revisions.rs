//! What jj is asked about revisions, and how its answers are read.

use jj_hunk::files::DiffSummaryEntry;
use jj_hunk::node::Node;
use jj_hunk::revisions::{
    diff_summary_args, file_show_args, parse_revisions, resolve_revisions, revset_args,
    revset_refused, revsets, sides_to_read, single_revision, unreadable_message, DiffRevisions,
    DiffTarget, ResolvedRevision, SUMMARY_TEMPLATE,
};

fn revision(id: &str, parents: &[&str]) -> ResolvedRevision {
    ResolvedRevision {
        id: id.to_string(),
        parents: parents.iter().map(|p| p.to_string()).collect(),
    }
}

#[test]
fn revisions_are_read_from_their_rows() {
    let rows = parse_revisions("a1\tb1 b2\n\nc1\t\nd1\n");
    let read: Vec<(&str, Vec<&str>)> = rows
        .iter()
        .map(|r| (r.id.as_str(), r.parents.iter().map(String::as_str).collect()))
        .collect();
    assert_eq!(read, [("a1", vec!["b1", "b2"]), ("c1", vec![]), ("d1", vec![])]);
}

#[test]
fn a_revset_has_to_name_one_revision() {
    assert_eq!(single_revision("@", vec![revision("a", &[])]).unwrap().id, "a");
    let none = single_revision("x", Vec::new()).unwrap_err();
    assert_eq!(none.code.code, "REVSET_UNRESOLVED");
    assert_eq!(none.message, "revset `x` did not resolve to any revision");
    let many = (0..7).map(|i| revision(&format!("r{i}"), &[])).collect();
    let many = single_revision("all()", many).unwrap_err();
    assert_eq!(many.code.code, "REVSET_AMBIGUOUS");
    assert_eq!(
        many.message,
        "revset `all()` resolved to 7 revisions, but jj-hunk needs exactly one.\nHunks are only \
         defined between a single revision and its parent.\nResolved to: r0, r1, r2, r3, r4, ... \
         and 2 more"
    );
    assert_eq!(many.details.get("resolved"), Some(&Node::number(7)));
    let shown = (0..5).map(|i| format!("r{i}")).collect();
    assert_eq!(many.details.get("revisions"), Some(&Node::texts(&shown)));
    let refused = revset_refused("x y", " no such thing \n");
    assert_eq!(refused.code.code, "REVSET_UNRESOLVED");
    assert_eq!(refused.message, "failed to resolve revset `x y`: no such thing");
    assert_eq!(refused.details.get("jj_stderr"), Some(&Node::text("no such thing")));
}

#[test]
fn the_sides_of_a_diff() {
    let target = DiffTarget::rev(Some("x"));
    assert_eq!(revsets(&target), ["x"]);
    let sides = resolve_revisions(&target, vec![revision("c", &["p"])]).unwrap();
    assert_eq!((sides.before.as_deref(), sides.after.as_deref()), (Some("p"), Some("c")));
    let here = resolve_revisions(&DiffTarget::rev(None), vec![revision("c", &[])]).unwrap();
    assert_eq!((here.before.as_deref(), here.after.as_deref()), (None, None));
    let two = DiffTarget::from_to("a", "b");
    assert_eq!(revsets(&two), ["a", "b"]);
    let sides =
        resolve_revisions(&two, vec![revision("ca", &["p", "q"]), revision("cb", &[])]).unwrap();
    assert_eq!((sides.before.as_deref(), sides.after.as_deref()), (Some("ca"), Some("cb")));
    let merge = resolve_revisions(&target, vec![revision("c", &["p", "q"])]).unwrap_err();
    assert!(
        merge.starts_with("`x` (c) is a merge commit with 2 parents, so it has no single"),
        "{merge}"
    );
    assert!(merge.ends_with("Parents: p, q"), "{merge}");
}

#[test]
fn what_is_read_of_a_file() {
    let entry = |status: &str| DiffSummaryEntry {
        status: status.to_string(),
        path: "f".to_string(),
        source: "f".to_string(),
        target: "f".to_string(),
        source_executable: false,
        target_executable: false,
        source_file_type: "file".to_string(),
        target_file_type: "file".to_string(),
    };
    let sides = DiffRevisions { before: Some("p".to_string()), after: None };
    let read = sides_to_read(&entry("modified"), &sides);
    assert_eq!(read.before, Some(("p".to_string(), "f".to_string())));
    assert_eq!(read.after, Some((None, "f".to_string())));
    assert_eq!(sides_to_read(&entry("added"), &sides).before, None);
    assert_eq!(sides_to_read(&entry("removed"), &sides).after, None);
    let rootless = DiffRevisions { before: None, after: Some("c".to_string()) };
    assert_eq!(sides_to_read(&entry("modified"), &rootless).before, None);
}

#[test]
fn arguments_for_jj() {
    assert_eq!(
        revset_args("@", "t"),
        ["log", "--no-graph", "-r", "@", "-T", "t"]
    );
    assert_eq!(
        diff_summary_args(&DiffTarget::from_to("a", "b")),
        ["diff", "--template", SUMMARY_TEMPLATE, "--from", "a", "--to", "b"]
    );
    assert_eq!(
        diff_summary_args(&DiffTarget::rev(Some("x"))),
        ["diff", "--template", SUMMARY_TEMPLATE, "-r", "x"]
    );
    assert_eq!(
        file_show_args(Some("r"), "a \"b\""),
        ["file", "show", "-r", "r", "file:\"a \\\"b\\\"\""]
    );
    assert_eq!(
        unreadable_message("f", Some("r"), " gone \n"),
        "failed to read `f` at revision r: gone"
    );
    assert_eq!(unreadable_message("f", None, "gone"), "failed to read `f`: gone");
    assert_eq!(DiffTarget::rev(None).listing_command(), "jj-hunk list");
    assert_eq!(DiffTarget::rev(Some("x")).listing_command(), "jj-hunk list -r x");
}
