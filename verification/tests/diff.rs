//! Hunks, their ids, and texts rebuilt from some of them.

use std::collections::HashSet;

use jj_hunk::diff::{
    apply_changes, apply_selected_hunks, assign_short_ids, get_hunks, hunks_of_changes, id_matches,
    normalize_hunk_id, shortest_unique_prefix_len, slash_path, Change, ChangeTag, Hunk,
    HunkSelection, HUNK_ID_HEX_LEN, HUNK_ID_PREFIX, MIN_SHORT_ID_HEX,
};

#[test]
fn hunk_id_is_sha256_hex_and_stable() {
    let before = "one\nTwo\nthree\n";
    let after = "one\nTWO\nthree\n";

    let hunks_first = get_hunks("f.txt", before, after);
    let hunks_second = get_hunks("f.txt", before, after);

    assert_eq!(hunks_first.len(), 1);
    assert_eq!(hunks_second.len(), 1);

    let id_first = &hunks_first[0].id;
    let id_second = &hunks_second[0].id;

    assert_eq!(id_first, id_second);
    assert!(id_first.starts_with(HUNK_ID_PREFIX));

    let hex = id_first.strip_prefix(HUNK_ID_PREFIX).unwrap();
    assert_eq!(hex.len(), 64);
    assert!(hex.chars().all(|c| c.is_ascii_hexdigit()));
}

#[test]
fn hunk_id_changes_with_content() {
    let before = "alpha\nbravo\n";
    let after_one = "alpha\nbravo!\n";
    let after_two = "alpha\nbravo?\n";

    let id_one = get_hunks("f.txt", before, after_one)[0].id.clone();
    let id_two = get_hunks("f.txt", before, after_two)[0].id.clone();

    assert_ne!(id_one, id_two);
}

#[test]
fn apply_selected_hunks_matches_by_id() {
    let before = "a\nb\nc\n";
    let after = "a\nb2\nc\n";

    let hunks = get_hunks("f.txt", before, after);
    let mut selection = HunkSelection::default();
    selection.ids.insert(hunks[0].id.clone());

    let selected_result = apply_selected_hunks("f.txt", before, after, &selection).unwrap();
    assert_eq!(selected_result, after);

    let empty_result =
        apply_selected_hunks("f.txt", before, after, &HunkSelection::default()).unwrap();
    assert_eq!(empty_result, before);
}

const DUPLICATE_BLOCKS_BEFORE: &str = "A\nB\nC\nDEL\nE\nF\nG\nA\nB\nC\nDEL\nE\nF\nG\n";
const DUPLICATE_BLOCKS_AFTER: &str = "A\nB\nC\nE\nF\nG\nA\nB\nC\nE\nF\nG\n";

#[test]
fn identical_hunks_in_one_file_get_distinct_ids() {
    let hunks = get_hunks("f.txt", DUPLICATE_BLOCKS_BEFORE, DUPLICATE_BLOCKS_AFTER);
    assert_eq!(hunks.len(), 2, "fixture should produce two hunks");

    assert_eq!(hunks[0].removed, hunks[1].removed);
    assert_eq!(
        hunks[0].context.as_ref().map(|c| (&c.before, &c.after)),
        hunks[1].context.as_ref().map(|c| (&c.before, &c.after)),
    );

    let distinct: HashSet<&String> = hunks.iter().map(|hunk| &hunk.id).collect();
    assert_eq!(distinct.len(), 2, "duplicate hunks must not share an id");
}

#[test]
fn an_id_selects_exactly_one_of_two_identical_hunks() {
    let hunks = get_hunks("f.txt", DUPLICATE_BLOCKS_BEFORE, DUPLICATE_BLOCKS_AFTER);

    for (index, hunk) in hunks.iter().enumerate() {
        let mut selection = HunkSelection::default();
        selection.ids.insert(hunk.id.clone());
        assert_eq!(
            selection.resolve(&hunks).unwrap(),
            HashSet::from([index]),
            "id of hunk {index} must resolve to that hunk alone"
        );
    }

    let mut selection = HunkSelection::default();
    selection.ids.insert(hunks[0].id.clone());
    let applied =
        apply_selected_hunks("f.txt", DUPLICATE_BLOCKS_BEFORE, DUPLICATE_BLOCKS_AFTER, &selection)
            .unwrap();
    assert_eq!(applied, "A\nB\nC\nE\nF\nG\nA\nB\nC\nDEL\nE\nF\nG\n");
}

#[test]
fn duplicate_hunk_ids_are_stable_across_runs() {
    let first = get_hunks("f.txt", DUPLICATE_BLOCKS_BEFORE, DUPLICATE_BLOCKS_AFTER);
    let second = get_hunks("f.txt", DUPLICATE_BLOCKS_BEFORE, DUPLICATE_BLOCKS_AFTER);

    let ids = |hunks: &[Hunk]| hunks.iter().map(|h| h.id.clone()).collect::<Vec<_>>();
    assert_eq!(ids(&first), ids(&second));
}

#[test]
fn the_same_edit_in_two_files_gets_two_ids() {
    let before = "a\nb\nc\n";
    let after = "a\nB\nc\n";

    let one = get_hunks("src/one.rs", before, after);
    let two = get_hunks("src/two.rs", before, after);

    assert_ne!(one[0].id, two[0].id);
}

#[test]
fn short_ids_are_unique_and_at_least_the_floor() {
    let mut hunks = get_hunks("f.txt", DUPLICATE_BLOCKS_BEFORE, DUPLICATE_BLOCKS_AFTER);
    let mut others = get_hunks("g.txt", "a\nb\nc\n", "a\nB\nc\n");
    hunks.append(&mut others);

    assign_short_ids(&mut hunks);

    let short: HashSet<&String> = hunks.iter().map(|hunk| &hunk.short_id).collect();
    assert_eq!(short.len(), hunks.len(), "short ids must be unique");

    for hunk in &hunks {
        let hex = hunk.short_id.strip_prefix(HUNK_ID_PREFIX).unwrap();
        assert!(hex.len() >= MIN_SHORT_ID_HEX, "{} is under the floor", hunk.short_id);
        assert!(hunk.id.starts_with(&hunk.short_id), "short id must prefix the full id");
    }
}

#[test]
fn abbreviation_widens_past_the_floor_to_stay_unique() {
    let shared = "abcdef0123";
    let ids: Vec<String> = ["a", "b"]
        .iter()
        .map(|tail| format!("{HUNK_ID_PREFIX}{shared}{}", tail.repeat(54)))
        .collect();

    let len = shortest_unique_prefix_len(&ids);
    assert_eq!(len, shared.len() + 1);
}

#[test]
fn a_short_id_resolves_and_an_ambiguous_prefix_is_an_error() {
    let hunks = get_hunks("f.txt", DUPLICATE_BLOCKS_BEFORE, DUPLICATE_BLOCKS_AFTER);

    let mut selection = HunkSelection::default();
    selection.ids.insert(hunks[1].short_id.clone());
    assert_eq!(selection.resolve(&hunks).unwrap(), HashSet::from([1]));

    let mut ambiguous = HunkSelection::default();
    ambiguous.ids.insert(HUNK_ID_PREFIX.to_string());
    let err = ambiguous.resolve(&hunks).unwrap_err().message();
    assert!(err.contains("ambiguous"), "{err}");
}

#[test]
fn an_id_naming_nothing_in_this_file_is_not_an_error() {
    let hunks = get_hunks("f.txt", "a\nb\n", "a\nB\n");
    let mut selection = HunkSelection::default();
    selection.ids.insert(format!("{HUNK_ID_PREFIX}{}", "0".repeat(64)));

    assert!(selection.resolve(&hunks).unwrap().is_empty());
}

#[test]
fn normalize_hunk_id_accepts_prefixes() {
    let before = "foo\nbar\n";
    let after = "foo\nBAR\n";
    let id = get_hunks("f.txt", before, after)[0].id.clone();
    let hex = id.strip_prefix(HUNK_ID_PREFIX).unwrap();
    let expected = format!("{HUNK_ID_PREFIX}{hex}");

    assert_eq!(normalize_hunk_id(&format!("id:{hex}")).as_deref(), Some(expected.as_str()));
    assert_eq!(normalize_hunk_id(&format!("sha:{hex}")).as_deref(), Some(expected.as_str()));
    assert_eq!(normalize_hunk_id(&format!("sha256:{hex}")).as_deref(), Some(expected.as_str()));
    assert_eq!(normalize_hunk_id(hex).as_deref(), Some(expected.as_str()));
}

fn change(tag: ChangeTag, value: &str) -> Change {
    Change { tag, value: value.to_string() }
}

#[test]
fn a_diff_is_cut_into_its_runs_of_changed_lines() {
    let changes = vec![
        change(ChangeTag::Equal, "one\n"),
        change(ChangeTag::Delete, "two\n"),
        change(ChangeTag::Insert, "TWO\n"),
        change(ChangeTag::Equal, "three\n"),
        change(ChangeTag::Insert, "four\n"),
    ];
    let hunks = hunks_of_changes("f.txt", "one\ntwo\nthree\n", &changes);
    assert_eq!(hunks.len(), 2);
    let (a, b) = (&hunks[0], &hunks[1]);
    assert_eq!((a.index, a.hunk_type.as_str()), (0, "replace"));
    assert_eq!((a.removed.as_str(), a.added.as_str()), ("two\n", "TWO\n"));
    assert_eq!((a.before_range.start, a.before_range.length), (2, 1));
    assert_eq!((a.after_range.start, a.after_range.length), (2, 1));
    assert_eq!((b.index, b.hunk_type.as_str()), (1, "insert"));
    assert_eq!((b.before_range.start, b.before_range.length), (4, 0));
    assert_eq!((b.after_range.start, b.after_range.length), (4, 1));
    let context = a.context.as_ref().unwrap();
    assert_eq!((context.before.as_str(), context.after.as_str()), ("one\n", "three\n"));
    assert_eq!(apply_changes(&changes, &HashSet::from([1])), "one\ntwo\nthree\nfour\n");
    assert_eq!(apply_changes(&changes, &HashSet::new()), "one\ntwo\nthree\n");
    assert_eq!(apply_changes(&changes, &HashSet::from([0, 1])), "one\nTWO\nthree\nfour\n");
}

#[test]
fn what_is_not_kept_goes_back_to_what_was_there() {
    let (before, after) = ("a\nb\nc\nd\n", "a\nB\nc\nd\ne\n");
    let hunks = get_hunks("f.txt", before, after);
    let all: HashSet<usize> = hunks.iter().map(|h| h.index).collect();
    let mut selection = HunkSelection::default();
    assert!(selection.is_empty());
    selection.indices = all;
    assert!(!selection.is_empty());
    assert_eq!(apply_selected_hunks("f.txt", before, after, &selection).unwrap(), after);
    selection.indices = HashSet::from([0]);
    assert_eq!(
        apply_selected_hunks("f.txt", before, after, &selection).unwrap(),
        "a\nB\nc\nd\n"
    );
}

#[test]
fn an_id_is_a_digest_of_what_a_hunk_is() {
    let id = get_hunks("f.txt", "a\n", "b\n")[0].id.clone();
    assert_eq!(id.len(), HUNK_ID_PREFIX.len() + HUNK_ID_HEX_LEN);
    assert!(id[HUNK_ID_PREFIX.len()..].chars().all(|c| c.is_ascii_hexdigit() && !c.is_uppercase()));
    assert!(id_matches(&id, &id));
    assert!(id_matches(&id[..20], &id));
    assert!(!id_matches("hunk-zz", &id));
}

#[test]
fn an_id_that_is_written_loosely_is_made_regular() {
    assert_eq!(normalize_hunk_id(" id:AB12... ").as_deref(), Some("hunk-ab12"));
    assert_eq!(normalize_hunk_id("nothex"), None);
    assert_eq!(normalize_hunk_id(""), None);
    let once = normalize_hunk_id("sha256:abcdef").unwrap();
    assert_eq!(normalize_hunk_id(&once).as_deref(), Some(once.as_str()));
}

#[test]
fn a_path_is_spelled_with_one_separator() {
    assert_eq!(slash_path("a\\b\\c", '\\'), "a/b/c");
    assert_eq!(slash_path("a/b", '/'), "a/b");
}

#[test]
fn ids_are_the_same_everywhere() {
    let hunks = get_hunks(
        "src/lib.rs",
        "// prev\nold_fn()\n// next\n",
        "// prev\nnew_fn()\n// next\n",
    );
    assert_eq!(
        hunks[0].id,
        "hunk-8a30a9af59936de30a9a364b3bce467052dfc7a0a12c52f106410b04723417ef"
    );
    assert_eq!(hunks[0].short_id, "hunk-8a30a9af");
    let gone = get_hunks("src/main.rs", "dead_code()\n", "");
    assert_eq!(
        gone[0].id,
        "hunk-1b26091bd874d9fe00c61ef49b52052985205b17abc77b2c18f52184e276e388"
    );
}

#[test]
fn a_change_and_its_reverse_have_different_ids() {
    let one = "one\ntwo\nthree\nfour\n";
    let other = "ONE\ntwo\nthree\nfour\n";
    assert_eq!(get_hunks("f.txt", one, other)[0].short_id, "hunk-cbb1d936");
    assert_eq!(get_hunks("f.txt", other, one)[0].short_id, "hunk-5b300823");
}

#[test]
fn an_id_does_not_tell_where_a_hunk_is() {
    let before = "a\nb\nc\nd\nold\ne\nf\ng\nh\n";
    let after = "a\nb\nc\nd\nnew\ne\nf\ng\nh\n";
    let id = get_hunks("f.txt", before, after)[0].id.clone();
    let lower = get_hunks("f.txt", before, &format!("1\n2\n3\n{after}"));
    assert_eq!(lower.len(), 2);
    assert_eq!(lower[1].id, id);
    assert_ne!(lower[1].after_range.start, 5);
    assert_ne!(get_hunks("g.txt", before, after)[0].id, id);
}

#[test]
fn an_ellipsis_behind_an_id_is_ignored() {
    assert_eq!(normalize_hunk_id("hunk-8a3..."), normalize_hunk_id("hunk-8a3"));
    assert_eq!(normalize_hunk_id("8a3......").as_deref(), Some("hunk-8a3"));
}

#[test]
fn equal_texts_have_no_hunk() {
    assert!(get_hunks("f.txt", "a\r\nb\rc", "a\r\nb\rc").is_empty());
    let long: String = (0..300).map(|n| format!("{}\n", n % 7)).collect();
    assert!(get_hunks("f.txt", &long, &long).is_empty());
}

#[test]
fn ranges_count_the_lines_of_both_texts() {
    let before: Vec<&str> = vec!["1\n", "2\n", "3\r", "4\r\n", "5"];
    let after: Vec<&str> = vec!["1\n", "x\n", "y\n", "3\r", "5"];
    for hunk in get_hunks("f.txt", &before.concat(), &after.concat()) {
        let old = hunk.before_range.start - 1;
        let new = hunk.after_range.start - 1;
        assert_eq!(hunk.removed, before[old..old + hunk.before_range.length].concat());
        assert_eq!(hunk.added, after[new..new + hunk.after_range.length].concat());
    }
}

#[test]
fn a_file_has_hunks_only_where_it_changed() {
    assert_eq!(get_hunks("f.txt", "a\n", "a").len(), 1);
    let before: Vec<&str> = vec!["1\n", "2\n", "3\n", "4\n", "5\n", "6\n", "7\n"];
    let after: Vec<&str> = vec!["1\n", "x\n", "3\n", "4\n", "y\n", "z\n", "6\n"];
    let hunks = get_hunks("f.txt", &before.concat(), &after.concat());
    let mut old: usize = 0;
    let mut new: usize = 0;
    for (i, hunk) in hunks.iter().enumerate() {
        let (old_from, new_from) = (hunk.before_range.start - 1, hunk.after_range.start - 1);
        assert_eq!(before[old..old_from], after[new..new_from]);
        assert!(i == 0 || old < old_from);
        assert!(hunk.before_range.length + hunk.after_range.length > 0);
        old = old_from + hunk.before_range.length;
        new = new_from + hunk.after_range.length;
    }
    assert_eq!(before[old..], after[new..]);
    assert_eq!(hunks.len(), 3);
}

#[test]
fn short_ids_depend_on_ids_alone() {
    let mut hunks = get_hunks("f.txt", "1\n2\n3\n4\n5\n", "x\n2\ny\n4\nz\n");
    assert_eq!(hunks.len(), 3);
    let mut turned = hunks.clone();
    turned.reverse();
    for hunk in turned.iter_mut() {
        hunk.short_id = "other".to_string();
    }
    assign_short_ids(&mut turned);
    assign_short_ids(&mut hunks);
    turned.reverse();
    for (one, other) in hunks.iter().zip(&turned) {
        assert_eq!(one.short_id, other.short_id);
    }
}

#[test]
fn a_selection_is_copied_with_what_it_names() {
    let mut selection = HunkSelection::default();
    selection.indices.insert(3);
    selection.indices.insert(5);
    selection.ids.insert("hunk-1".to_string());
    let copy = selection.clone();
    assert_eq!(copy.indices, selection.indices);
    assert_eq!(copy.ids, selection.ids);
}
