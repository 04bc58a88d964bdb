//! Hunkset: an algebraic query language for selecting diff hunks.
//!
//! Expressions compose predicates that filter hunks by file path, type, content,
//! line range and semantic context with set algebra (`|`, `&`, `~`).

pub mod ast;
pub mod error;
pub mod eval;
pub mod parser;
pub mod pattern;

pub use error::HunksetError;
pub use eval::{evaluate, to_spec, EnrichedHunk};
pub use parser::parse;

use crate::text::{chars_of, same, space, trim, trim_start, trimmed};
use vstd::prelude::*;

verus! {

/// Whether a character may stand in the name of a predicate.
pub open spec fn is_name_char(c: char) -> bool {
    'a' <= c <= 'z' || 'A' <= c <= 'Z' || '0' <= c <= '9' || c == '_'
}

/// `s` without the name it begins with.
pub open spec fn after_name(s: Seq<char>) -> Seq<char>
    decreases s.len(),
{
    if s.len() > 0 && is_name_char(s[0]) {
        after_name(s.drop_first())
    } else {
        s
    }
}

/// Whether a text looks like a hunkset: one of the two words that stand alone,
/// or something with a bracket in it that begins as an expression does.
pub open spec fn looks_like_hunkset(input: Seq<char>) -> bool {
    let t = trimmed(input);
    &&& t.len() > 0
    &&& t[0] != '{' && t[0] != '['
    &&& t == "all"@ || t == "none"@ || (t.contains('(') && (t[0] == '~' || t[0] == '(' || t[0]
        == '!' || (is_name_char(t[0]) && !('0' <= t[0] <= '9') && begins_call(after_name(t)))))
}

/// Whether the first thing in a text that is not white space opens a bracket.
pub open spec fn begins_call(s: Seq<char>) -> bool {
    trim_start(s).len() > 0 && trim_start(s)[0] == '('
}

fn name_char(c: char) -> (r: bool)
    ensures
        r == is_name_char(c),
{
    ('a' <= c && c <= 'z') || ('A' <= c && c <= 'Z') || ('0' <= c && c <= '9') || c == '_'
}

/// Whether a text looks like a hunkset expression rather than JSON or YAML.
///
/// This does not try to parse: a malformed hunkset is still meant as one, and
/// is to be reported as one.
pub fn is_hunkset(input: &str) -> (r: bool)
    ensures
        r == looks_like_hunkset(input@),
{
    let text = trim(input);
    let chars = chars_of(text.as_str());
    if chars.len() == 0 {
        return false;
    }
    let first = chars[0];
    if first == '{' || first == '[' {
        return false;
    }
    if same(text.as_str(), "all") || same(text.as_str(), "none") {
        return true;
    }
    if !crate::text::contains_char(text.as_str(), '(') {
        return false;
    }
    if first == '~' || first == '(' || first == '!' {
        return true;
    }
    if !name_char(first) || ('0' <= first && first <= '9') {
        return false;
    }
    let mut at: usize = 0;
    assert(chars@.skip(0) =~= chars@);
    while at < chars.len() && name_char(chars[at])
        invariant
            at <= chars.len(),
            after_name(chars@) == after_name(chars@.skip(at as int)),
        decreases chars.len() - at,
    {
        assert(chars@.skip(at as int).drop_first() =~= chars@.skip(at as int + 1));
        at += 1;
    }
    let ghost rest = chars@.skip(at as int);
    assert(after_name(chars@) == rest);
    while at < chars.len() && space(chars[at])
        invariant
            at <= chars.len(),
            trim_start(rest) == trim_start(chars@.skip(at as int)),
        decreases chars.len() - at,
    {
        assert(chars@.skip(at as int).drop_first() =~= chars@.skip(at as int + 1));
        at += 1;
    }
    at < chars.len() && chars[at] == '('
}

proof fn lemma_after_name(name: Seq<char>, rest: Seq<char>)
    requires
        forall|i: int| 0 <= i < name.len() ==> is_name_char(#[trigger] name[i]),
        rest.len() > 0 ==> !is_name_char(rest[0]),
    ensures
        after_name(name + rest) == rest,
    decreases name.len(),
{
    if name.len() > 0 {
        assert(is_name_char(name[0]));
        let more = name.drop_first();
        assert forall|i: int| 0 <= i < more.len() implies is_name_char(#[trigger] more[i]) by {
            assert(more[i] == name[i + 1]);
        }
        lemma_after_name(more, rest);
        assert((name + rest).drop_first() =~= more + rest);
    } else {
        assert(name + rest =~= rest);
    }
}

proof fn lemma_kept_in_front(s: Seq<char>, n: int)
    requires
        0 < n <= s.len(),
        !crate::text::is_space(s[0]),
        !crate::text::is_space(s[n - 1]),
    ensures
        n <= trimmed(s).len() <= s.len(),
        trimmed(s) == s.take(trimmed(s).len() as int),
{
    crate::text::trimming_takes_white_space_from_the_ends(s);
    let (a, b) = choose|a: int, b: int|
        {
            &&& 0 <= a <= b <= s.len()
            &&& trimmed(s) == #[trigger] s.subrange(a, b)
            &&& crate::text::is_blank(s.take(a))
            &&& crate::text::is_blank(s.skip(b))
        };
    if a > 0 {
        assert(crate::text::is_space(s.take(a)[0]));
    }
    if b < n {
        assert(crate::text::is_space(s.skip(b)[n - 1 - b]));
    }
    assert(s.subrange(0, b) =~= s.take(b));
}

/// A call looks like a hunkset, whatever is in it and behind it: a malformed one
/// is meant as one.
pub proof fn a_call_looks_like_a_hunkset(name: Seq<char>, rest: Seq<char>)
    requires
        name.len() > 0,
        forall|i: int| 0 <= i < name.len() ==> is_name_char(#[trigger] name[i]),
        !('0' <= name[0] <= '9'),
    ensures
        looks_like_hunkset(name.push('(') + rest),
{
    let s = name.push('(') + rest;
    let n = name.len() as int + 1;
    assert(is_name_char(name[0]));
    lemma_kept_in_front(s, n);
    let t = trimmed(s);
    let tail = t.skip(n - 1);
    assert(t[0] == name[0]);
    assert(t[n - 1] == '(');
    assert(t.contains(t[n - 1]));
    assert(t =~= name + tail);
    assert(tail[0] == '(');
    lemma_after_name(name, tail);
    assert(trim_start(tail) == tail);
}

/// What begins as JSON does is no hunkset, and nor is a text with no bracket in
/// it, but for the two words that stand alone. White space around does not count.
pub proof fn what_is_no_hunkset(s: Seq<char>)
    ensures
        s.len() > 0 && (s[0] == '{' || s[0] == '[') ==> !looks_like_hunkset(s),
        !s.contains('(') && trimmed(s) != "all"@ && trimmed(s) != "none"@ ==> !looks_like_hunkset(s),
        trimmed(s).len() == 0 ==> !looks_like_hunkset(s),
{
    if s.len() > 0 && (s[0] == '{' || s[0] == '[') {
        lemma_kept_in_front(s, 1);
    }
    if !s.contains('(') {
        crate::text::trimming_takes_white_space_from_the_ends(s);
        let (a, b) = choose|a: int, b: int|
            {
                &&& 0 <= a <= b <= s.len()
                &&& trimmed(s) == #[trigger] s.subrange(a, b)
                &&& crate::text::is_blank(s.take(a))
                &&& crate::text::is_blank(s.skip(b))
            };
        let t = trimmed(s);
        if t.contains('(') {
            let k = choose|k: int| 0 <= k < t.len() && t[k] == '(';
            assert(s[a + k] == '(');
        }
    }
}

} // verus!
