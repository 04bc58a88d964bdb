//! From contents to hunks.

use jj_hunk::diff::{get_hunks, SemanticInfo};
use jj_hunk::files::{
    abbreviate_ids, enrich_hunks_with_semantics, file_paths_for_entry, git_mode, is_binary_data,
    load_file, mode_change_for_entry, primary_path, rename_info, semantic_inquiries,
    whole_file_stand_in, BinaryMode, DiffSummaryEntry, FileHunks, Inquiry, Loaded, Truncation,
};
use jj_hunk::paths::PathFrame;

fn summary(status: &str, path: &str) -> DiffSummaryEntry {
    DiffSummaryEntry {
        status: status.to_string(),
        path: path.to_string(),
        source: String::new(),
        target: String::new(),
        source_executable: false,
        target_executable: false,
        source_file_type: "file".to_string(),
        target_file_type: "file".to_string(),
    }
}

fn moved(status: &str, source: &str, target: &str) -> DiffSummaryEntry {
    DiffSummaryEntry {
        source: source.to_string(),
        target: target.to_string(),
        ..summary(status, target)
    }
}

fn load(entry: &DiffSummaryEntry, prefix: &[&str], before: &[u8], after: &[u8], binary: BinaryMode) -> Loaded {
    let frame = PathFrame { prefix: prefix.iter().map(|s| s.to_string()).collect() };
    load_file(entry, &frame, &before.to_vec(), &after.to_vec(), binary, Truncation::none())
}

fn loaded(entry: &DiffSummaryEntry, prefix: &[&str], before: &[u8], after: &[u8]) -> FileHunks {
    match load(entry, prefix, before, after, BinaryMode::Mark) {
        Loaded::File(file) => file,
        other => panic!("{other:?}"),
    }
}

#[test]
fn a_file_is_loaded_from_its_contents() {
    let file = loaded(&summary("modified", "a.txt"), &[], b"1\n2\n", b"1\nX\n");
    assert_eq!(file.path, "a.txt");
    assert_eq!(file.hunks.len(), 1);
    assert_eq!(file.hunks[0].id, get_hunks("a.txt", "1\n2\n", "1\nX\n")[0].id);
    assert!(!file.is_binary && !file.is_symlink && !file.truncated && file.mode.is_none());
}

#[test]
fn an_id_does_not_depend_on_where_it_is_computed() {
    let here = loaded(&summary("modified", "a.txt"), &["sub"], b"1\n", b"2\n");
    let above = loaded(&summary("modified", "sub/a.txt"), &[], b"1\n", b"2\n");
    assert_eq!(here.hunks[0].id, above.hunks[0].id);
    assert_ne!(here.path, above.path);
}

#[test]
fn contents_that_are_no_text_have_no_hunks_unless_asked_for() {
    let entry = summary("modified", "a.bin");
    let marked = loaded(&entry, &[], b"a\0b", b"a\0c");
    assert!(marked.is_binary && marked.hunks.is_empty());
    assert!(matches!(
        load(&entry, &[], b"a\0b", b"a\0c", BinaryMode::Skip),
        Loaded::Skipped
    ));
    match load(&entry, &[], b"\xff\n", b"x\n", BinaryMode::Include) {
        Loaded::File(file) => {
            assert_eq!(file.hunks[0].removed, "\u{fffd}\n");
            assert_eq!(file.hunks[0].added, "x\n");
        }
        other => panic!("{other:?}"),
    }
    assert!(!is_binary_data(&Vec::new()));
    assert!(!is_binary_data(&"héllo".as_bytes().to_vec()));
    assert!(is_binary_data(&vec![0xc3]));
    assert!(matches!(load(&summary("modified", ""), &[], b"", b"x", BinaryMode::Mark), Loaded::Skipped));
}

#[test]
fn a_mode_is_a_change_only_where_both_sides_are_there() {
    let flipped = |status: &str| DiffSummaryEntry {
        target_executable: true,
        ..summary(status, "a.sh")
    };
    let mode = mode_change_for_entry(&flipped("modified")).unwrap();
    assert_eq!((mode.from, mode.to), ("100644", "100755"));
    assert!(mode_change_for_entry(&flipped("added")).is_none());
    assert!(mode_change_for_entry(&flipped("removed")).is_none());
    assert!(mode_change_for_entry(&summary("modified", "a")).is_none());
    assert_eq!(git_mode(true), "100755");
}

#[test]
fn a_moved_file_has_a_path_on_either_side() {
    let entry = moved("renamed", "old", "new");
    let rename = rename_info(&entry).unwrap();
    assert_eq!((rename.from.as_str(), rename.to.as_str()), ("old", "new"));
    let paths = file_paths_for_entry(&entry, "new");
    assert_eq!((paths.before.as_deref(), paths.after.as_deref()), (Some("old"), Some("new")));
    assert!(rename_info(&summary("modified", "a")).is_none());
    let added = file_paths_for_entry(&summary("added", "a"), "a");
    assert_eq!((added.before.as_deref(), added.after.as_deref()), (None, Some("a")));
    let removed = file_paths_for_entry(&summary("removed", "a"), "a");
    assert_eq!((removed.before.as_deref(), removed.after.as_deref()), (Some("a"), None));
    let nameless = DiffSummaryEntry { path: String::new(), ..moved("renamed", "old", "new") };
    assert_eq!(primary_path(&nameless), "new");
}

#[test]
fn a_file_says_what_no_hunk_tells() {
    let link = DiffSummaryEntry {
        target_file_type: "symlink".to_string(),
        ..summary("modified", "l")
    };
    assert!(loaded(&link, &[], b"", b"").changes_without_hunks());
    assert!(loaded(&moved("renamed", "o", "n"), &[], b"", b"").changes_without_hunks());
    assert!(loaded(&summary("added", "a"), &[], b"", b"").changes_without_hunks());
    let plain = loaded(&summary("modified", "a"), &[], b"1\n", b"2\n");
    assert!(!plain.changes_without_hunks());
    let renamed = loaded(&moved("renamed", "o", "n"), &[], b"", b"");
    assert_eq!(renamed.rename_source(), Some("o"));
    assert_eq!(renamed.all_paths(), ["n", "o"]);
}

#[test]
fn ids_are_abbreviated_over_the_whole_diff() {
    let mut files = vec![
        loaded(&summary("modified", "a"), &[], b"1\n", b"2\n"),
        loaded(&summary("modified", "b"), &[], b"1\n", b"2\n"),
    ];
    abbreviate_ids(&mut files);
    let (a, b) = (&files[0].hunks[0], &files[1].hunks[0]);
    assert_ne!(a.short_id, b.short_id);
    assert_eq!(a.short_id.len(), b.short_id.len());
    assert!(a.id.starts_with(&a.short_id) && b.id.starts_with(&b.short_id));
    assert_eq!(a.short_id.len(), "hunk-".len() + 8);
}

#[test]
fn a_stand_in_tells_of_its_file_and_nothing_else() {
    let file = loaded(&summary("added", "a.bin"), &[], b"", b"\0");
    let hunk = whole_file_stand_in(&file);
    assert_eq!(hunk.id, "whole-file:a.bin");
    assert_eq!(hunk.hunk_type, "insert");
    assert!(hunk.removed.is_empty() && hunk.added.is_empty() && hunk.context.is_none());
    assert_eq!((hunk.before_range.start, hunk.before_range.length), (0, 0));
    let removed = loaded(&summary("removed", "a.bin"), &[], b"\0", b"");
    assert_eq!(whole_file_stand_in(&removed).hunk_type, "delete");
    let changed = loaded(&summary("modified", "a.bin"), &[], b"\0", b"\0\0");
    assert_eq!(whole_file_stand_in(&changed).hunk_type, "replace");
}

#[test]
fn a_parser_is_asked_where_a_hunk_is() {
    let hunks = get_hunks("a.rs", "1\n2\n", "1\nX\nY\n");
    assert_eq!(semantic_inquiries(&hunks, "a.rs", "1\n2\n", "1\nX\nY\n"), [Some(Inquiry::Before(2))]);
    let added = get_hunks("a.rs", "1\n", "1\n2\n");
    assert_eq!(semantic_inquiries(&added, "a.rs", "1\n", "1\n2\n"), [Some(Inquiry::After(2))]);
    assert_eq!(semantic_inquiries(&added, "Makefile", "1\n", "1\n2\n"), [None]);
    let mut found = added;
    let info = SemanticInfo { is_import: true, ..SemanticInfo::default() };
    enrich_hunks_with_semantics(&mut found, vec![Some(info)]);
    assert!(found[0].semantic.is_import);
    enrich_hunks_with_semantics(&mut found, vec![None]);
    assert!(found[0].semantic.is_import);
}
