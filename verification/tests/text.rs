//! Texts, and collections that are walked in order.

use jj_hunk::names::{comes_before, distinct, sort, NameMap, NameSet};
use jj_hunk::text::{
    contains, count_lines, join, lines_of, number, reversed, same, space, split_char,
    split_lines_with_endings, split_once, split_words, starts_with, strip_prefix, trim,
    trim_end_matches, wide_number,
};

fn strings(items: &[&str]) -> Vec<String> {
    items.iter().map(|item| item.to_string()).collect()
}

#[test]
fn lines_keep_their_endings_and_make_up_the_text() {
    for text in ["", "a", "a\n", "a\nb", "\n\n", "a\r\nb\r\n"] {
        assert_eq!(split_lines_with_endings(text).concat(), text);
        let expected: Vec<&str> = text.lines().collect();
        assert_eq!(lines_of(text), expected, "{text:?}");
        assert_eq!(count_lines(text), split_lines_with_endings(text).len());
    }
    assert_eq!(split_lines_with_endings("a\r\nb"), ["a\r\n", "b"]);
}

#[test]
fn white_space_is_what_std_says_it_is() {
    for c in ['\u{9}', ' ', '\u{85}', '\u{a0}', '\u{1680}', '\u{2003}', '\u{2028}', '\u{3000}'] {
        assert!(space(c), "{c:?}");
        assert!(c.is_whitespace());
    }
    for n in 0..0x3100u32 {
        if let Some(c) = char::from_u32(n) {
            assert_eq!(space(c), c.is_whitespace(), "{c:?}");
        }
    }
    assert_eq!(trim("\u{3000} a b\t\n"), "a b");
    assert_eq!(split_words("  a \u{a0}b\n"), ["a", "b"]);
}

#[test]
fn texts_are_taken_apart() {
    assert_eq!(split_char("a//b", '/'), ["a", "", "b"]);
    assert_eq!(split_char("", '/'), [""]);
    assert_eq!(split_once("a\tb\tc", '\t'), ("a".to_string(), "b\tc".to_string()));
    assert_eq!(split_once("abc", '\t'), ("abc".to_string(), String::new()));
    assert_eq!(strip_prefix("hunk-1", "hunk-").as_deref(), Some("1"));
    assert_eq!(strip_prefix("x", "hunk-"), None);
    assert_eq!(trim_end_matches("a......", "..."), "a");
    assert!(starts_with("abc", "ab") && !starts_with("a", "ab"));
    assert!(contains("abc", "") && contains("abc", "bc") && !contains("abc", "d"));
    assert!(same("é", "é") && !same("e", "é"));
    assert_eq!(join(&strings(&["a", "b"]), ", "), "a, b");
    assert_eq!(reversed(vec![1, 2, 3]), [3, 2, 1]);
}

#[test]
fn numbers_are_written_in_digits() {
    assert_eq!(number(0), "0");
    assert_eq!(number(usize::MAX), usize::MAX.to_string());
    assert_eq!(wide_number(u128::MAX), u128::MAX.to_string());
    assert_eq!(number(1020), "1020");
}

#[test]
fn strings_are_ordered_as_std_orders_them() {
    let words = ["", "a", "ab", "b", "é", "z", "\u{10000}", "\u{ffff}"];
    for a in words {
        for b in words {
            assert_eq!(comes_before(a, b), a < b, "{a:?} {b:?}");
        }
    }
    let mut expected = strings(&words);
    expected.sort();
    assert_eq!(sort(strings(&words)), expected);
    assert_eq!(distinct(strings(&["b", "a", "b", "a"])), ["a", "b"]);
}

#[test]
fn a_set_holds_a_name_once() {
    let mut set = NameSet::new();
    assert!(set.is_empty());
    for name in ["b", "a", "b"] {
        set.insert(name.to_string());
    }
    assert_eq!(set.len(), 2);
    assert_eq!((set.at(0).as_str(), set.at(1).as_str()), ("a", "b"));
    assert!(set.contains("a") && !set.contains("c"));
    assert_eq!(set.copied(), set);
}

#[test]
fn a_map_holds_one_value_under_a_key() {
    let mut map = NameMap::new();
    map.insert("b".to_string(), 1);
    map.insert("a".to_string(), 2);
    map.insert("b".to_string(), 3);
    assert_eq!(map.len(), 2);
    assert_eq!((map.key_at(0).as_str(), *map.value_at(0)), ("a", 2));
    assert_eq!(map.get("b"), Some(&3));
    assert_eq!(map.position("c"), None);
    assert_eq!(map.remove("a"), Some(2));
    assert_eq!(map.remove("a"), None);
    assert_eq!(map.len(), 1);
}
