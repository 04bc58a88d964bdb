//! Patterns that have been checked and are ready to match.

use super::ast::{PatternKind, PatternView, StringPattern};
use super::error::{Failure, HunksetError};
use crate::glob::{glob_matches, glob_refusal, Glob};
use crate::text::{contains, deep, group_deep, occurs_in, same};
use vstd::prelude::*;

verus! {

/// Why `regex` refuses a pattern; nothing where it accepts it.
pub uninterp spec fn regex_refusal(pattern: Seq<char>) -> Option<Seq<char>>;

/// Whether a pattern that `regex` accepts matches somewhere in a text.
pub uninterp spec fn regex_matches(pattern: Seq<char>, text: Seq<char>) -> bool;

/// Try to compile a regular expression.
///
/// Calls `regex::Regex::new` and keeps the text of its error. The contract
/// claims that the outcome depends on the pattern alone.
#[verifier::external_body]
fn refuse_regex(pattern: &str) -> (r: Option<String>)
    ensures
        r.deep_view() == regex_refusal(pattern@),
{
    match regex::Regex::new(pattern) {
        Ok(_) => None,
        Err(error) => Some(error.to_string()),
    }
}

/// Match a regular expression.
///
/// Calls `regex::Regex::is_match` on the compiled pattern. The contract claims
/// that the outcome depends on the pattern and the text alone.
#[verifier::external_body]
fn match_regex(pattern: &str, text: &str) -> (r: bool)
    requires
        regex_refusal(pattern@) is None,
    ensures
        r == regex_matches(pattern@, text@),
{
    regex::Regex::new(pattern).unwrap().is_match(text)
}

/// Why a pattern is refused; nothing where it is accepted.
pub open spec fn pattern_refusal(p: PatternView) -> Option<Failure> {
    match p.kind {
        PatternKind::Exact | PatternKind::Substring => None,
        PatternKind::Glob => match glob_refusal(p.value) {
            Some(reason) => Some(Failure::InvalidGlob { pattern: p.value, reason }),
            None => None,
        },
        PatternKind::Regex => match regex_refusal(p.value) {
            Some(reason) => Some(Failure::InvalidRegex { pattern: p.value, reason }),
            None => None,
        },
    }
}

/// Whether a pattern that is accepted matches a text.
pub open spec fn pattern_matches(p: PatternView, text: Seq<char>) -> bool {
    match p.kind {
        PatternKind::Exact => text == p.value,
        PatternKind::Substring => occurs_in(text, p.value),
        PatternKind::Glob => glob_matches(p.value, text),
        PatternKind::Regex => regex_matches(p.value, text),
    }
}

/// Whether any of some patterns matches a text.
pub open spec fn any_matches(patterns: Seq<PatternView>, text: Seq<char>) -> bool {
    exists|i: int| 0 <= i < patterns.len() && pattern_matches(#[trigger] patterns[i], text)
}

/// Why the first of some patterns that is refused is refused.
pub open spec fn first_refusal(patterns: Seq<PatternView>) -> Option<Failure>
    decreases patterns.len(),
{
    if patterns.len() == 0 {
        None
    } else if first_refusal(patterns.drop_last()) is Some {
        first_refusal(patterns.drop_last())
    } else {
        pattern_refusal(patterns.last())
    }
}

/// The prefix a kind is written with.
pub open spec fn kind_text(kind: PatternKind) -> Seq<char> {
    match kind {
        PatternKind::Exact => "exact"@,
        PatternKind::Substring => "substring"@,
        PatternKind::Glob => "glob"@,
        PatternKind::Regex => "regex"@,
    }
}

/// What a pattern matches with. What has to be compiled has been.
#[derive(Debug)]
enum Matcher {
    Exact,
    Substring,
    Glob(Glob),
    Regex,
}

/// A pattern that has been checked and is ready to match.
#[derive(Debug)]
pub struct CompiledPattern {
    matcher: Matcher,
    value: String,
    /// Whether the kind was asked for, or inferred.
    explicit: bool,
}

impl CompiledPattern {
    #[verifier::type_invariant]
    spec fn accepted(self) -> bool {
        match self.matcher {
            Matcher::Glob(glob) => glob.source() == self.value@,
            Matcher::Regex => regex_refusal(self.value@) is None,
            _ => true,
        }
    }

    pub closed spec fn kind(&self) -> PatternKind {
        match self.matcher {
            Matcher::Exact => PatternKind::Exact,
            Matcher::Substring => PatternKind::Substring,
            Matcher::Glob(_) => PatternKind::Glob,
            Matcher::Regex => PatternKind::Regex,
        }
    }

    pub closed spec fn source(&self) -> PatternView {
        PatternView { kind: self.kind(), value: self.value@, explicit: self.explicit }
    }

    /// Check a pattern.
    pub fn compile(pattern: &StringPattern) -> (r: Result<CompiledPattern, HunksetError>)
        ensures
            match r {
                Ok(p) => pattern_refusal(pattern.deep_view()) is None && p.deep_view()
                    == pattern.deep_view(),
                Err(e) => pattern_refusal(pattern.deep_view()) == Some(e.deep_view()),
            },
    {
        let matcher = match pattern.kind {
            PatternKind::Exact => Matcher::Exact,
            PatternKind::Substring => Matcher::Substring,
            PatternKind::Glob => match Glob::compile(pattern.value.as_str()) {
                Ok(glob) => Matcher::Glob(glob),
                Err(source) => {
                    return Err(HunksetError::InvalidGlob { source });
                },
            },
            PatternKind::Regex => match refuse_regex(pattern.value.as_str()) {
                None => Matcher::Regex,
                Some(reason) => {
                    return Err(
                        HunksetError::InvalidRegex { pattern: pattern.value.clone(), reason },
                    );
                },
            },
        };
        Ok(
            CompiledPattern {
                matcher,
                value: pattern.value.clone(),
                explicit: pattern.explicit,
            },
        )
    }

    /// Whether the pattern matches a text.
    pub fn matches(&self, haystack: &str) -> (r: bool)
        ensures
            r == pattern_matches(self.deep_view(), haystack@),
    {
        proof {
            use_type_invariant(self);
        }
        match &self.matcher {
            Matcher::Exact => same(haystack, self.value.as_str()),
            Matcher::Substring => contains(haystack, self.value.as_str()),
            Matcher::Glob(glob) => glob.is_match(haystack),
            Matcher::Regex => match_regex(self.value.as_str(), haystack),
        }
    }

    /// Whether exact matching was asked for in so many words.
    ///
    /// Not whether the kind happens to be [`PatternKind::Exact`]: that is also
    /// what an unquoted word gets by default.
    pub fn is_explicitly_exact(&self) -> (r: bool)
        ensures
            r == (self.deep_view().explicit && self.deep_view().kind == PatternKind::Exact),
    {
        self.explicit && matches!(self.matcher, Matcher::Exact)
    }

    /// The kind that was written, where one was.
    pub fn explicit_kind(&self) -> (r: Option<&'static str>)
        ensures
            match r {
                Some(kind) => self.deep_view().explicit && kind@ == kind_text(
                    self.deep_view().kind,
                ),
                None => !self.deep_view().explicit,
            },
    {
        if !self.explicit {
            return None;
        }
        Some(
            match self.matcher {
                Matcher::Exact => "exact",
                Matcher::Substring => "substring",
                Matcher::Glob(_) => "glob",
                Matcher::Regex => "regex",
            },
        )
    }

    pub fn value(&self) -> (r: &str)
        ensures
            r@ == self.deep_view().value,
    {
        self.value.as_str()
    }
}

impl DeepView for CompiledPattern {
    type V = PatternView;

    open spec fn deep_view(&self) -> PatternView {
        self.source()
    }
}

/// Check some patterns, and report the first that is refused.
pub fn compile_patterns(patterns: Vec<StringPattern>) -> (r: Result<
    Vec<CompiledPattern>,
    HunksetError,
>)
    ensures
        match r {
            Ok(compiled) => first_refusal(deep(patterns@)) is None && deep(compiled@) == deep(
                patterns@,
            ),
            Err(e) => first_refusal(deep(patterns@)) == Some(e.deep_view()),
        },
{
    broadcast use group_deep;

    let ghost views = deep(patterns@);
    let mut compiled: Vec<CompiledPattern> = Vec::new();
    let mut i: usize = 0;
    assert(views.take(0) =~= Seq::empty());
    while i < patterns.len()
        invariant
            views == deep(patterns@),
            i <= patterns.len(),
            deep(compiled@) == views.take(i as int),
            first_refusal(views.take(i as int)) is None,
        decreases patterns.len() - i,
    {
        assert(views.take(i as int + 1).drop_last() =~= views.take(i as int));
        match CompiledPattern::compile(&patterns[i]) {
            Ok(p) => {
                assert(views.take(i as int + 1) =~= views.take(i as int).push(p.deep_view()));
                compiled.push(p);
            },
            Err(e) => {
                proof {
                    lemma_first_refusal(views, i as int + 1);
                }
                return Err(e);
            },
        }
        i += 1;
    }
    assert(views.take(views.len() as int) =~= views);
    Ok(compiled)
}

proof fn lemma_first_refusal(patterns: Seq<PatternView>, n: int)
    requires
        0 <= n <= patterns.len(),
        first_refusal(patterns.take(n)) is Some,
    ensures
        first_refusal(patterns) == first_refusal(patterns.take(n)),
    decreases patterns.len(),
{
    if n < patterns.len() {
        assert(patterns.drop_last().take(n) =~= patterns.take(n));
        lemma_first_refusal(patterns.drop_last(), n);
    } else {
        assert(patterns.take(n) =~= patterns);
    }
}

/// Whether any of some patterns matches a text.
pub fn any_match(patterns: &Vec<CompiledPattern>, text: &str) -> (r: bool)
    ensures
        r == any_matches(deep(patterns@), text@),
{
    let mut i: usize = 0;
    while i < patterns.len()
        invariant
            i <= patterns.len(),
            forall|j: int|
                0 <= j < i ==> !pattern_matches(#[trigger] deep(patterns@)[j], text@),
        decreases patterns.len() - i,
    {
        if patterns[i].matches(text) {
            assert(pattern_matches(deep(patterns@)[i as int], text@));
            return true;
        }
        i += 1;
    }
    false
}

/// Patterns are accepted exactly where each of them is.
pub proof fn every_pattern_is_checked(patterns: Seq<PatternView>)
    ensures
        first_refusal(patterns) is None <==> forall|i: int|
            0 <= i < patterns.len() ==> pattern_refusal(#[trigger] patterns[i]) is None,
    decreases patterns.len(),
{
    if patterns.len() > 0 {
        let rest = patterns.drop_last();
        let last = patterns.len() - 1;
        every_pattern_is_checked(rest);
        assert(patterns[last] == patterns.last());
        if first_refusal(rest) is None {
            assert forall|i: int| 0 <= i < last implies pattern_refusal(#[trigger] patterns[i])
                is None by {
                assert(rest[i] == patterns[i]);
                assert(pattern_refusal(rest[i]) is None);
            }
        } else {
            let i = choose|i: int|
                0 <= i < rest.len() && pattern_refusal(#[trigger] rest[i]) is Some;
            assert(patterns[i] == rest[i]);
        }
    }
}

/// What a pattern matches exactly it matches as a part too, and a part of a text
/// is matched wherever it stands.
pub proof fn an_exact_match_is_a_match_of_a_part(value: Seq<char>, explicit: bool, text: Seq<char>)
    ensures
        ({
            let exact = PatternView { kind: PatternKind::Exact, value, explicit };
            let part = PatternView { kind: PatternKind::Substring, value, explicit };
            &&& pattern_matches(exact, text) <==> text == value
            &&& pattern_matches(exact, text) ==> pattern_matches(part, text)
            &&& forall|a: Seq<char>, b: Seq<char>| #[trigger]
                pattern_matches(part, a + value + b)
            &&& pattern_matches(part, text) ==> exists|a: Seq<char>, b: Seq<char>|
                text == #[trigger] (a + value + b)
        }),
{
    let part = PatternView { kind: PatternKind::Substring, value, explicit };
    assert forall|a: Seq<char>, b: Seq<char>| #[trigger] pattern_matches(part, a + value + b) by {
        let whole = a + value + b;
        let at = a.len() as int;
        assert(whole.subrange(at, at + value.len()) =~= value);
        assert(crate::text::stands_at(whole, value, at));
    }
    let nothing = Seq::<char>::empty();
    assert(nothing + value + nothing =~= value);
    assert(pattern_matches(part, nothing + value + nothing));
    if pattern_matches(part, text) {
        let at = choose|at: int| crate::text::stands_at(text, value, at);
        let a = text.take(at);
        let b = text.skip(at + value.len());
        assert(text =~= a + value + b);
    }
}

} // verus!
