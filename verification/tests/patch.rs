//! A patch does what selecting the hunks it shows does.

use std::collections::HashSet;

use jj_hunk::diff::{apply_selected_hunks, get_hunks, HunkSelection};
use jj_hunk::listing::{build_output, FileEntry, ListGrouping};
use jj_hunk::names::NameSet;
use jj_hunk::render::render_diff_output;

/// The patch that shows the hunks of a diff at some positions.
fn patch_of(before: &str, after: &str, shown: &[usize]) -> String {
    let mut hunks = get_hunks("f.txt", before, after);
    hunks.retain(|hunk| shown.contains(&hunk.index));
    let entry = FileEntry {
        path: "f.txt".to_string(),
        status: "modified".to_string(),
        rename: None,
        hunks,
        binary: None,
        mode: None,
        symlink: None,
        truncated: None,
    };
    render_diff_output(&build_output(vec![entry], ListGrouping::Ungrouped))
}

/// The two numbers behind a sign in the header of a block.
fn start_and_length(range: &str) -> (usize, usize) {
    let (start, length) = range[1..].split_once(',').unwrap();
    (start.parse().unwrap(), length.parse().unwrap())
}

/// Apply a patch as `git apply` does: find the lines a block shows of the side
/// before the change where its header says they are, and put the others there.
fn apply_patch(before: &str, patch: &str) -> String {
    let lines: Vec<&str> = before.split_inclusive('\n').collect();
    let mut out = String::new();
    let mut at: usize = 0;
    let mut old_left: usize = 0;
    let mut new_left: usize = 0;
    let mut last_added = false;
    for line in patch.split_inclusive('\n').skip(2) {
        if let Some(rest) = line.strip_prefix("@@ ") {
            assert_eq!((old_left, new_left), (0, 0));
            let mut words = rest.split(' ');
            let (start, length) = start_and_length(words.next().unwrap());
            let (_, new_length) = start_and_length(words.next().unwrap());
            let from = if length == 0 { start } else { start - 1 };
            while at < from {
                out.push_str(lines[at]);
                at += 1;
            }
            old_left = length;
            new_left = new_length;
            continue;
        }
        if line.starts_with('\\') {
            if last_added {
                assert_eq!(out.pop(), Some('\n'));
            }
            continue;
        }
        let text = &line[1..];
        match &line[..1] {
            " " => {
                assert_eq!(lines[at].trim_end_matches('\n'), text.trim_end_matches('\n'));
                out.push_str(text);
                at += 1;
                old_left -= 1;
                new_left -= 1;
                last_added = true;
            }
            "-" => {
                assert_eq!(lines[at].trim_end_matches('\n'), text.trim_end_matches('\n'));
                at += 1;
                old_left -= 1;
                last_added = false;
            }
            _ => {
                out.push_str(text);
                new_left -= 1;
                last_added = true;
            }
        }
    }
    assert_eq!((old_left, new_left), (0, 0));
    while at < lines.len() {
        out.push_str(lines[at]);
        at += 1;
    }
    out
}

fn selecting(before: &str, after: &str, shown: &[usize]) -> String {
    let indices: HashSet<usize> = shown.iter().copied().collect();
    let selection = HunkSelection { indices, ids: NameSet::new() };
    apply_selected_hunks("f.txt", before, after, &selection).unwrap()
}

/// Hold every choice of hunks of a diff against the patch that shows them.
fn check_every_choice(before: &str, after: &str) {
    let count = get_hunks("f.txt", before, after).len();
    assert!(count > 0 && count < 8);
    for bits in 0..(1usize << count) {
        let shown: Vec<usize> = (0..count).filter(|i| bits >> i & 1 == 1).collect();
        let patch = patch_of(before, after, &shown);
        assert_eq!(apply_patch(before, &patch), selecting(before, after, &shown), "{patch}");
    }
}

fn numbered(n: usize) -> Vec<String> {
    (1..=n).map(|i| format!("{i}\n")).collect()
}

#[test]
fn a_patch_applies_to_the_file_it_was_made_from() {
    let before = numbered(40);
    let mut after = before.clone();
    after[1] = "two\n".to_string();
    after[4] = "five\nand a half\n".to_string();
    after[11] = String::new();
    after[19] = "20\nmore\n".to_string();
    after[27] = "28\nmore\n".to_string();
    after[39] = "forty\n".to_string();
    check_every_choice(&before.concat(), &after.concat());
}

#[test]
fn hunks_at_every_distance_apply() {
    for gap in 1..=9 {
        let before = numbered(20);
        let mut after = before.clone();
        after[3] = "x\n".to_string();
        after[3 + gap + 1] = "y\nz\n".to_string();
        check_every_choice(&before.concat(), &after.concat());
    }
}

#[test]
fn new_and_removed_files_apply() {
    check_every_choice("", "1\n2\n");
    check_every_choice("1\n2\n", "");
}

#[test]
fn line_ends_survive_a_patch() {
    check_every_choice("1\r\n2\r\n3\r\n", "1\r\nX\r\n3\n");
    check_every_choice("1\n2\n3\n4\n5", "1\n2\n3\n4\n5\n");
    check_every_choice("1\n2\n3\n4\n5\n", "0\n1\n2\n3\n4\n5");
}
