//! Globs select exactly what `jj` selects with them.

use jj_hunk::glob::{glob_match, normalize, validate_glob, Glob};

/// Some paths. What a pattern selects of them is what `jj file list` lists in a
/// workspace that holds exactly these.
const CORPUS: &[&str] = &[
    ".dotfile",
    ".hidden/h.rs",
    "]",
    "a*b",
    "a.rs",
    "aXb",
    "a_b",
    "ab",
    "br[ack]et.rs",
    "deep/a/b/leaf.rs",
    "lib.rs",
    "main.c",
    "main.h",
    "q}b",
    "sp ace/f o.rs",
    "src/lib.rs",
    "src/main.rs",
    "src/mod.py",
    "src/sub/deep.rs",
    "top.rs",
    "uni/héllo.rs",
    "x{a",
];

fn assert_selects(pattern: &str, expected: &[&str]) {
    let got: Vec<&str> = CORPUS
        .iter()
        .copied()
        .filter(|path| glob_match(pattern, path))
        .collect();
    assert_eq!(got, expected, "pattern {pattern:?} selected the wrong set");
}

#[test]
fn character_classes_are_supported() {
    assert_selects("*.[ch]", &["main.c", "main.h"]);
    assert_selects("main.[ch]", &["main.c", "main.h"]);
}

#[test]
fn character_class_ranges() {
    assert_selects("[a-z]*.rs", &["a.rs", "br[ack]et.rs", "lib.rs", "top.rs"]);
    assert!(!glob_match("[A-Z]*.rs", "lib.rs"));
    assert!(glob_match("[A-Z]*.rs", "Lib.rs"));
}

#[test]
fn negated_character_classes() {
    assert!(!glob_match("[!l]ib.rs", "lib.rs"));
    assert!(!glob_match("[^l]ib.rs", "lib.rs"));
    assert!(glob_match("[!l]ib.rs", "bib.rs"));
    assert!(glob_match("[^l]ib.rs", "bib.rs"));
}

#[test]
fn character_class_literals() {
    assert_selects("[]]", &["]"]);
    assert_selects("[.]dotfile", &[".dotfile"]);
    assert_selects("br[[]ack]et.rs", &["br[ack]et.rs"]);
    assert_selects("q[}]b", &["q}b"]);
    assert_selects("[x][{]a", &["x{a"]);
    assert_selects("a[*]b", &["a*b"]);
}

#[test]
fn unclosed_character_class_matches_nothing() {
    assert_selects("[a", &[]);
    assert_selects("[", &[]);
}

#[test]
fn slash_free_glob_is_top_level_only() {
    assert_selects("*.rs", &["a.rs", "br[ack]et.rs", "lib.rs", "top.rs"]);
    assert!(!glob_match("*.rs", "src/lib.rs"));
    assert!(!glob_match("*.rs", "deep/a/b/leaf.rs"));
}

#[test]
fn recursive_prefix_matches_any_depth() {
    assert_selects(
        "**/*.rs",
        &[
            ".hidden/h.rs",
            "a.rs",
            "br[ack]et.rs",
            "deep/a/b/leaf.rs",
            "lib.rs",
            "sp ace/f o.rs",
            "src/lib.rs",
            "src/main.rs",
            "src/sub/deep.rs",
            "top.rs",
            "uni/héllo.rs",
        ],
    );
}

#[test]
fn star_does_not_cross_directory_separators() {
    assert_selects(
        "*",
        &[
            ".dotfile",
            "]",
            "a*b",
            "a.rs",
            "aXb",
            "a_b",
            "ab",
            "br[ack]et.rs",
            "lib.rs",
            "main.c",
            "main.h",
            "q}b",
            "top.rs",
            "x{a",
        ],
    );
    assert_selects(
        "*/*.rs",
        &[
            ".hidden/h.rs",
            "sp ace/f o.rs",
            "src/lib.rs",
            "src/main.rs",
            "uni/héllo.rs",
        ],
    );
}

#[test]
fn directory_anchored_globs() {
    assert_selects("src/*.rs", &["src/lib.rs", "src/main.rs"]);
    assert_selects("src/**/*.rs", &["src/lib.rs", "src/main.rs", "src/sub/deep.rs"]);
    assert_selects("src/sub/*.rs", &["src/sub/deep.rs"]);
    assert_selects("deep/**/*.rs", &["deep/a/b/leaf.rs"]);
    assert_selects("deep/*/*/*.rs", &["deep/a/b/leaf.rs"]);
    assert_selects("**/b/*.rs", &["deep/a/b/leaf.rs"]);
    assert_selects("**/leaf.rs", &["deep/a/b/leaf.rs"]);
}

#[test]
fn mid_segment_double_star_behaves_like_single_star() {
    assert_selects("**.rs", &["a.rs", "br[ack]et.rs", "lib.rs", "top.rs"]);
    assert_selects("a**b", &["a*b", "aXb", "a_b", "ab"]);
    assert_selects("a**", &["a*b", "a.rs", "aXb", "a_b", "ab"]);
    assert!(!glob_match("a**b", "a/b"));
}

#[test]
fn adding_a_star_never_shrinks_the_match_set() {
    for path in CORPUS {
        for (narrow, wide) in [("*.rs", "**.rs"), ("a*b", "a**b"), ("*", "**")] {
            if glob_match(narrow, path) {
                assert!(
                    glob_match(wide, path),
                    "{wide:?} must still match {path:?} that {narrow:?} matched"
                );
            }
        }
    }
}

#[test]
fn bare_double_star_matches_everything() {
    assert_selects("**", CORPUS);
    assert_selects("**/", CORPUS);
    assert_selects("**/*", CORPUS);
    assert_selects("**/**", CORPUS);
}

#[test]
fn trailing_slash_is_not_a_directory_wildcard() {
    assert_selects("src/", &[]);
    assert!(glob_match("src/", "src"));
    assert_selects("lib.rs/", &["lib.rs"]);
    assert_selects(
        "src/**",
        &["src/lib.rs", "src/main.rs", "src/mod.py", "src/sub/deep.rs"],
    );
    assert_selects(
        "src/**/",
        &["src/lib.rs", "src/main.rs", "src/mod.py", "src/sub/deep.rs"],
    );
    assert_selects("deep/**", &["deep/a/b/leaf.rs"]);
    assert_selects("**/deep/**", &["deep/a/b/leaf.rs"]);
}

#[test]
fn many_recursive_wildcards_do_not_blow_up() {
    let path = (0..21).map(|i| format!("d{i}")).collect::<Vec<_>>().join("/");
    let pattern = format!("{}nomatch.rs", "**/".repeat(14));
    let start = std::time::Instant::now();
    assert!(!glob_match(&pattern, &path));
    let elapsed = start.elapsed();
    assert!(
        elapsed < std::time::Duration::from_secs(2),
        "matching took {elapsed:?}; the matcher is backtracking exponentially"
    );
}

#[test]
fn many_recursive_wildcards_still_match() {
    let path = (0..21).map(|i| format!("d{i}")).collect::<Vec<_>>().join("/");
    let pattern = format!("{}d20", "**/".repeat(14));
    assert!(glob_match(&pattern, &path));
}

#[test]
fn question_mark_matches_exactly_one_character() {
    assert_selects("?.rs", &["a.rs"]);
    assert!(!glob_match("?.rs", "ab.rs"));
    assert_selects("l?b.rs", &["lib.rs"]);
    assert_selects("a?b", &["a*b", "aXb", "a_b"]);
    assert!(!glob_match("a?b", "ab"));
    assert!(!glob_match("a?b", "a/b"));
}

#[test]
fn unicode_paths() {
    assert_selects("uni/*.rs", &["uni/héllo.rs"]);
    assert_selects("uni/h*llo.rs", &["uni/héllo.rs"]);
    assert_selects("uni/h?llo.rs", &[]);
    assert_selects("uni/h??llo.rs", &["uni/héllo.rs"]);
}

#[test]
fn spaces_in_paths() {
    assert_selects("sp ace/*.rs", &["sp ace/f o.rs"]);
    assert_selects("sp ace/f o.rs", &["sp ace/f o.rs"]);
    assert_selects("*/f*.rs", &["sp ace/f o.rs"]);
}

#[test]
fn leading_dot_slash_is_stripped() {
    assert_selects("./*.rs", &["a.rs", "br[ack]et.rs", "lib.rs", "top.rs"]);
    assert!(glob_match("*.rs", "./lib.rs"));
    assert!(glob_match("./src/*.rs", "src/lib.rs"));
    assert!(glob_match("src/*.rs", "./src/lib.rs"));
}

#[test]
fn repeated_separators_collapse() {
    assert_selects("src//*.rs", &["src/lib.rs", "src/main.rs"]);
    assert!(glob_match("src/*.rs", "src//lib.rs"));
}

#[test]
fn exact_path() {
    assert_selects("src/lib.rs", &["src/lib.rs"]);
    assert!(!glob_match("src/lib.rs", "src/main.rs"));
}

#[test]
fn non_matching_extension() {
    assert!(!glob_match("*.rs", "lib.py"));
}

#[test]
fn brace_alternation() {
    assert_selects("*.{c,h}", &["main.c", "main.h"]);
    assert_selects("{src,uni}/*.rs", &["src/lib.rs", "src/main.rs", "uni/héllo.rs"]);
    assert_selects("**/{a,lib}.rs", &["a.rs", "lib.rs", "src/lib.rs"]);
    assert_selects(
        "**/*.{rs,py}",
        &[
            ".hidden/h.rs",
            "a.rs",
            "br[ack]et.rs",
            "deep/a/b/leaf.rs",
            "lib.rs",
            "sp ace/f o.rs",
            "src/lib.rs",
            "src/main.rs",
            "src/mod.py",
            "src/sub/deep.rs",
            "top.rs",
            "uni/héllo.rs",
        ],
    );
}

#[test]
fn empty_brace_alternates_are_dropped() {
    assert_selects("src{,/sub}/*.rs", &["src/sub/deep.rs"]);
}

#[test]
fn unbalanced_braces_match_nothing() {
    assert_selects("x{a", &[]);
    assert_selects("}b", &[]);
}

#[test]
fn backslash_escapes_metacharacters() {
    assert_selects(r"a\*b", &["a*b"]);
    assert!(!glob_match(r"a\*b", "aXb"));
    assert_selects(r"a\?b", &[]);
}

#[test]
fn degenerate_patterns_match_nothing() {
    assert_selects("", &[]);
    assert_selects(".", &[]);
    assert_selects("./", &[]);
    assert_selects("a/**/b", &[]);
}

#[test]
fn matches_plain_strings_without_separators() {
    assert!(glob_match("rs", "rs"));
    assert!(glob_match("r*", "rs"));
    assert!(glob_match("*", "modified"));
    assert!(glob_match("handle_*", "handle_click"));
    assert!(!glob_match("handle_*", "on_click"));
}

fn refusal(pattern: &str) -> (String, String) {
    let e = validate_glob(pattern).expect_err("the pattern must be refused");
    (e.reason().to_string(), e.message())
}

#[test]
fn a_refused_glob_says_what_is_wrong_with_it() {
    for (pattern, reason) in [
        ("[a", "unclosed '[' -- a character class needs a matching ']'"),
        ("[z-a]", "invalid range -- a range must not run backwards"),
        ("{a", "unclosed '{' -- an alternation needs a matching '}'"),
        ("a}", "unopened '}' -- there is no '{' for it to close"),
        ("a\\", "dangling '\\' -- there is nothing after it to escape"),
    ] {
        let (why, message) = refusal(pattern);
        assert_eq!(why, reason);
        assert_eq!(message, format!("invalid glob '{pattern}': {reason}"));
        assert!(!glob_match(pattern, "a"));
    }
}

#[test]
fn an_accepted_glob_can_be_used_again() {
    assert!(validate_glob("src/**/*.rs").is_ok());
    let glob = match Glob::compile("src/**/*.rs") {
        Ok(glob) => glob,
        Err(e) => panic!("{}", e.message()),
    };
    assert!(glob.is_match("src/a/b.rs"));
    assert!(!glob.is_match("a/b.rs"));
    assert!(glob.is_match("./src//b.rs"));
}

#[test]
fn normalizing_keeps_the_names_of_a_path() {
    assert_eq!(normalize("./src//a/./b.rs/"), "src/a/b.rs");
    assert_eq!(normalize(normalize("./src//a/./b.rs/").as_str()), "src/a/b.rs");
    assert_eq!(normalize("one"), "one");
    assert_eq!(normalize("."), "");
}

#[test]
fn a_dot_in_a_glob_is_only_a_dot() {
    assert!(glob_match("a.b", "a.b"));
    assert!(!glob_match("a.b", "axb"));
    assert!(glob_match("a+(b)$", "a+(b)$"));
}

#[test]
fn two_stars_match_every_path() {
    for path in ["a", "a/b", "line\nfeed", "a/line\nfeed/b", "\n", ""] {
        assert!(glob_match("**", path), "{path:?}");
    }
    assert!(glob_match("src/**", "src/line\nfeed/b"));
    assert!(glob_match("**/x", "line\nfeed/x"));
    assert!(glob_match("a/**/b", "a/line\nfeed/b"));
}
