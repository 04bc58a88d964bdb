//! Paths, patterns, limits and arguments.

use jj_hunk::commands::message_arg;
use jj_hunk::files::{truncate_text, Truncation};
use jj_hunk::listing::normalize_patterns;
use jj_hunk::paths::{contained_parts, fileset_exact_path, fileset_string_literal, PathFrame};
use jj_hunk::revisions::preview_ids;

#[test]
fn plain_paths_are_wrapped_in_quotes_unchanged() {
    assert_eq!(fileset_string_literal("src/main.rs"), r#""src/main.rs""#);
    assert_eq!(fileset_exact_path("src/main.rs"), r#"file:"src/main.rs""#);
}

#[test]
fn quotes_and_backslashes_are_escaped() {
    assert_eq!(fileset_string_literal(r#"quote".txt"#), r#""quote\".txt""#);
    assert_eq!(fileset_string_literal(r"back\slash"), r#""back\\slash""#);
    assert_eq!(fileset_string_literal(r"dir\"), r#""dir\\""#);
}

#[test]
fn fileset_operators_are_neutralised_by_quoting() {
    for path in [
        "paren(1).txt",
        "tilde~x.txt",
        "has,comma.txt",
        "single'.txt",
        "a|b.txt",
        "a&b.txt",
        "-leading-dash.txt",
    ] {
        let quoted = fileset_exact_path(path);
        assert!(quoted.starts_with(r#"file:""#), "{quoted}");
        assert!(quoted.ends_with('"'), "{quoted}");
        assert!(quoted.contains(path), "{path} was mangled into {quoted}");
    }
}

#[test]
fn glob_characters_are_kept_but_matched_exactly() {
    assert_eq!(fileset_exact_path("br[1].txt"), r#"file:"br[1].txt""#);
    assert_eq!(fileset_exact_path("star*.txt"), r#"file:"star*.txt""#);
}

#[test]
fn control_characters_use_the_escapes_the_grammar_defines() {
    assert_eq!(fileset_string_literal("a\tb"), r#""a\tb""#);
    assert_eq!(fileset_string_literal("a\nb"), r#""a\nb""#);
    assert_eq!(fileset_string_literal("a\rb"), r#""a\rb""#);
    assert_eq!(fileset_string_literal("a\x1bb"), r#""a\eb""#);
    assert_eq!(fileset_string_literal("a\x01b"), r#""a\x01b""#);
}

#[test]
fn non_ascii_paths_are_passed_through() {
    assert_eq!(fileset_string_literal("café-☃.txt"), r#""café-☃.txt""#);
}

#[test]
fn revision_previews_are_truncated() {
    let ids: Vec<String> = (0..8).map(|i| format!("id{i}")).collect();
    let preview = preview_ids(&ids);
    assert!(preview.contains("id0"));
    assert!(preview.contains("... and 3 more"), "{preview}");
    assert!(!preview.contains("id5"), "{preview}");
}

fn lines(max: usize) -> Truncation {
    Truncation {
        max_lines: Some(max),
        ..Truncation::none()
    }
}

fn bytes(max: usize) -> Truncation {
    Truncation {
        max_bytes: Some(max),
        ..Truncation::none()
    }
}

#[test]
fn no_limits_leave_the_text_alone() {
    let (out, cut) = truncate_text("a\nb\nc\n", Truncation::none());
    assert_eq!(out, "a\nb\nc\n");
    assert!(!cut);
}

#[test]
fn a_limit_the_text_already_fits_is_not_a_truncation() {
    assert_eq!(truncate_text("a\nb\n", lines(9)), ("a\nb\n".to_string(), false));
    assert_eq!(truncate_text("abc", bytes(3)), ("abc".to_string(), false));
}

#[test]
fn max_lines_keeps_whole_lines_with_their_terminators() {
    let (out, cut) = truncate_text("a\nb\nc\nd\n", lines(2));
    assert_eq!(out, "a\nb\n");
    assert!(cut);
}

#[test]
fn max_lines_zero_empties_the_text() {
    assert_eq!(truncate_text("a\n", lines(0)), (String::new(), true));
    assert_eq!(truncate_text("", lines(0)), (String::new(), false));
}

#[test]
fn max_bytes_cuts_mid_line() {
    let (out, cut) = truncate_text("abcdef", bytes(3));
    assert_eq!(out, "abc");
    assert!(cut);
}

#[test]
fn max_bytes_never_splits_a_character() {
    let (out, cut) = truncate_text("aé", bytes(2));
    assert_eq!(out, "a");
    assert!(cut);
    assert_eq!(truncate_text("☃", bytes(1)), (String::new(), true));
}

#[test]
fn both_limits_apply_together() {
    let (out, cut) = truncate_text("a\nb\nc\n", Truncation {
        max_lines: Some(2),
        max_bytes: Some(3),
    });
    assert_eq!(out, "a\nb");
    assert!(cut);
}

#[test]
fn patterns_are_not_split_on_commas() {
    assert_eq!(
        normalize_patterns(&vec!["has,comma.txt".to_string()]),
        vec!["has,comma.txt".to_string()]
    );
}

#[test]
fn patterns_are_trimmed_and_blanks_dropped() {
    assert_eq!(
        normalize_patterns(&vec!["  src/**  ".to_string(), "   ".to_string()]),
        vec!["src/**".to_string()]
    );
}

#[test]
fn a_message_is_passed_to_jj_as_one_argument() {
    assert_eq!(message_arg("--wip"), "--message=--wip");
    assert_eq!(message_arg("plain"), "--message=plain");
    assert_eq!(message_arg("a=b"), "--message=a=b");
}

fn frame_at(prefix: &[&str]) -> PathFrame {
    PathFrame {
        prefix: prefix.iter().map(|s| s.to_string()).collect(),
    }
}

#[test]
fn a_cwd_relative_path_maps_back_to_the_workspace_root() {
    let frame = frame_at(&["sub", "deep"]);
    for (printed, expected) in [
        ("low.txt", "sub/deep/low.txt"),
        ("../mid.txt", "sub/mid.txt"),
        ("../../top.txt", "top.txt"),
        ("../../other/side.txt", "other/side.txt"),
    ] {
        assert_eq!(
            frame.to_root(printed).as_deref(),
            Some(expected),
            "{printed}"
        );
    }
}

#[test]
fn to_display_and_to_root_are_inverses() {
    let frame = frame_at(&["sub", "deep"]);
    for root_path in [
        "sub/deep/low.txt",
        "sub/mid.txt",
        "top.txt",
        "other/side.txt",
        "sub/deep/nested/deeper.txt",
    ] {
        let displayed = frame.to_display(root_path);
        assert_eq!(
            frame.to_root(&displayed).as_deref(),
            Some(root_path),
            "{root_path} printed as {displayed}"
        );
    }
}

#[test]
fn climbing_exactly_to_the_workspace_root_is_allowed() {
    assert_eq!(
        frame_at(&["sub"]).to_root("../top.txt").as_deref(),
        Some("top.txt")
    );
}

#[test]
fn climbing_above_the_workspace_root_resolves_to_nothing() {
    assert_eq!(frame_at(&["sub"]).to_root("../../top.txt"), None);
    assert_eq!(frame_at(&["sub", "deep"]).to_root("../../../x.txt"), None);
}

#[test]
fn at_the_repo_root_the_mapping_is_the_identity() {
    let frame = frame_at(&[]);
    for path in ["top.txt", "sub/deep/low.txt", "a/b/c/d.txt"] {
        assert_eq!(frame.to_root(path).as_deref(), Some(path));
        assert_eq!(frame.to_display(path), path);
    }
}

#[test]
fn every_path_jj_prints_is_an_acceptable_spec_key() {
    for (prefix, path) in [
        (&[][..], "top.txt"),
        (&[][..], "sub/deep/low.txt"),
        (&["sub"][..], "mid.txt"),
        (&["sub"][..], "../top.txt"),
        (&["sub"][..], "deep/low.txt"),
        (&["sub", "deep"][..], "low.txt"),
        (&["sub", "deep"][..], "../mid.txt"),
        (&["sub", "deep"][..], "../../top.txt"),
        (&["sub", "deep"][..], "../../other/side.txt"),
    ] {
        assert_eq!(
            frame_at(prefix).path_problem(path),
            None,
            "{path} was refused from {prefix:?}"
        );
    }
}

#[test]
fn a_spec_key_that_climbs_above_the_workspace_root_is_refused() {
    for (prefix, path) in [
        (&[][..], "../top.txt"),
        (&[][..], "../../.ssh/id_rsa"),
        (&["sub"][..], "../../top.txt"),
        (&["sub"][..], "../../../../etc/passwd"),
        (&["sub", "deep"][..], "../../../x.txt"),
    ] {
        assert_eq!(
            frame_at(prefix).path_problem(path).as_deref(),
            Some("climbs above the workspace root"),
            "{path} was accepted from {prefix:?}"
        );
    }
}

#[test]
fn an_absolute_spec_key_is_refused_from_every_directory() {
    for prefix in [&[][..], &["sub"][..], &["sub", "deep"][..]] {
        assert_eq!(
            frame_at(prefix).path_problem("/etc/passwd").as_deref(),
            Some("is an absolute path"),
            "accepted from {prefix:?}"
        );
    }
}

#[test]
fn a_dotdot_after_a_named_directory_is_refused() {
    let frame = frame_at(&["sub"]);
    for path in ["sub/../top.txt", "a/b/../../c.txt", "deep/../../top.txt"] {
        assert!(
            frame
                .path_problem(path)
                .is_some_and(|reason| reason.starts_with("has a `..` after")),
            "{path} was accepted"
        );
    }
}

#[test]
fn a_control_character_in_a_spec_key_is_refused() {
    let frame = frame_at(&[]);
    for (path, code) in [
        ("top\u{0}.txt", "U+0000"),
        ("top\u{1b}[31m.txt", "U+001B"),
        ("top\n.txt", "U+000A"),
        ("top.txt\u{7}", "U+0007"),
    ] {
        assert_eq!(
            frame.path_problem(path).as_deref(),
            Some(format!("contains the control character {code}").as_str()),
            "{path:?} was accepted"
        );
    }
    assert_eq!(frame.path_problem("top\u{7f}.txt"), None);
}

#[test]
fn an_empty_spec_key_is_refused() {
    assert_eq!(
        frame_at(&[]).path_problem("").as_deref(),
        Some("is empty")
    );
}

#[test]
fn a_backslash_is_a_filename_character_not_a_separator() {
    let frame = frame_at(&["sub"]);
    assert_eq!(
        frame.to_root(r"back\slash.txt").as_deref(),
        Some(r"sub/back\slash.txt")
    );
    assert_eq!(
        frame_at(&[]).to_root(r"sub/back\slash.txt").as_deref(),
        Some(r"sub/back\slash.txt")
    );
}

#[test]
fn a_path_that_could_lead_out_is_not_followed() {
    assert_eq!(contained_parts("a/b").unwrap(), vec!["a", "b"]);
    assert_eq!(contained_parts("a//./b").unwrap(), vec!["a", "b"]);
    assert_eq!(contained_parts("").unwrap().len(), 0);
    for path in ["../x", "a/../b", "/x", "./a", ".."] {
        assert!(contained_parts(path).is_none(), "{path}");
    }
}

#[test]
fn both_spellings_of_a_path_are_kept() {
    let both = frame_at(&["sub"]).resolve("top.txt");
    assert_eq!((both.fs.as_str(), both.display.as_str()), ("top.txt", "../top.txt"));
}

#[test]
fn at_the_root_nothing_is_above() {
    let frame = frame_at(&[]);
    assert_eq!(frame.to_root("../top.txt"), None);
    assert_eq!(frame.to_root("a/../../top.txt"), None);
    assert_eq!(frame.to_root("./a//b").as_deref(), Some("./a//b"));
}
