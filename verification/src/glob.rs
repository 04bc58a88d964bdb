//! Glob matching with the same rules as jj's `glob:` file patterns.
//!
//! A pattern is normalised, read into tokens, written out as an anchored regular
//! expression over bytes, and matched against the whole normalised path.
//!
//! * `?` is exactly one byte, never `/`.
//! * `*` is any number of bytes, never `/`.
//! * `**` is any number of directories where it is a whole path component, and
//!   just `*` anywhere else.
//! * `[abc]`, `[a-z]`, `[!a-z]`, `[^a-z]` are character classes.
//! * `{a,b}` is alternation. Empty branches are dropped, so `x{,y}` is `xy`.
//! * `\` escapes the next character. On a platform where it separates components
//!   it is respelled as `/` before a pattern comes here (see
//!   [`crate::diff::slash_path`]).
//!
//! A pattern with no `/` matches top-level files only. Matching is by bytes: a
//! two-byte character needs `??`.

use crate::text::{chars_of, deep, group_deep, join, joined, same, split_at_char, split_char};
use vstd::prelude::*;
use vstd::utf8::encode_utf8;

verus! {

// ---------------------------------------------------------------------------
// Normalising
// ---------------------------------------------------------------------------

/// The components of a path that count: neither empty nor `.`.
pub open spec fn components(parts: Seq<Seq<char>>) -> Seq<Seq<char>>
    decreases parts.len(),
{
    if parts.len() == 0 {
        Seq::empty()
    } else if parts.last().len() == 0 || parts.last() == "."@ {
        components(parts.drop_last())
    } else {
        components(parts.drop_last()).push(parts.last())
    }
}

/// A path or pattern without `.` components, repeated separators and trailing
/// separators.
pub open spec fn normalized(input: Seq<char>) -> Seq<char> {
    joined(components(split_at_char(input, '/')), "/"@)
}

/// Normalise a repo-relative path or pattern.
pub fn normalize(input: &str) -> (out: String)
    ensures
        out@ == normalized(input@),
{
    broadcast use group_deep;

    let parts = split_char(input, '/');
    let ghost views = deep(parts@);
    let mut kept: Vec<String> = Vec::new();
    let mut i: usize = 0;
    assert(views.take(0) =~= Seq::empty());
    while i < parts.len()
        invariant
            views == deep(parts@),
            i <= parts.len(),
            deep(kept@) == components(views.take(i as int)),
        decreases parts.len() - i,
    {
        assert(views.take(i as int + 1).drop_last() =~= views.take(i as int));
        let part = parts[i].as_str();
        if !part.is_empty() && !same(part, ".") {
            kept.push(part.to_owned());
        }
        i += 1;
    }
    assert(views.take(views.len() as int) =~= views);
    join(&kept, "/")
}

// ---------------------------------------------------------------------------
// Tokens
// ---------------------------------------------------------------------------

/// One piece of a pattern.
#[derive(Debug)]
pub enum Token {
    Literal(char),
    /// `?`
    Any,
    /// `*`
    ZeroOrMore,
    /// A leading `**/`.
    RecursivePrefix,
    /// A trailing `/**`.
    RecursiveSuffix,
    /// An interior `/**/`.
    RecursiveZeroOrMore,
    Class { negated: bool, ranges: Vec<(char, char)> },
    /// `{..}`, as the regular expression its branches make.
    Alternates(String),
}

#[verifier::ext_equal]
pub enum TokenView {
    Literal(char),
    Any,
    ZeroOrMore,
    RecursivePrefix,
    RecursiveSuffix,
    RecursiveZeroOrMore,
    Class { negated: bool, ranges: Seq<(char, char)> },
    Alternates(Seq<char>),
}

impl DeepView for Token {
    type V = TokenView;

    open spec fn deep_view(&self) -> TokenView {
        match self {
            Token::Literal(c) => TokenView::Literal(*c),
            Token::Any => TokenView::Any,
            Token::ZeroOrMore => TokenView::ZeroOrMore,
            Token::RecursivePrefix => TokenView::RecursivePrefix,
            Token::RecursiveSuffix => TokenView::RecursiveSuffix,
            Token::RecursiveZeroOrMore => TokenView::RecursiveZeroOrMore,
            Token::Class { negated, ranges } => TokenView::Class {
                negated: *negated,
                ranges: ranges@,
            },
            Token::Alternates(text) => TokenView::Alternates(text@),
        }
    }
}

/// What is wrong with a malformed pattern.
#[derive(Debug, Clone, Copy, PartialEq, Eq, Structural)]
pub enum Fault {
    /// An unclosed `[`.
    UnclosedClass,
    /// A range that runs backwards.
    InvalidRange,
    /// An unclosed `{`.
    UnclosedAlternates,
    /// A `}` with no matching `{`.
    UnopenedAlternates,
    /// A trailing `\` with nothing to escape.
    DanglingEscape,
}

/// How far reading has come: the branches of the alternations that are open,
/// the top level first, and where in that list each open `{` began.
#[verifier::ext_equal]
pub struct Draft {
    pub branches: Seq<Seq<TokenView>>,
    pub opened: Seq<int>,
}

impl Draft {
    pub open spec fn start() -> Draft {
        Draft { branches: seq![Seq::<TokenView>::empty()], opened: Seq::empty() }
    }

    /// Every open `{` has a branch of its own behind it.
    pub open spec fn well_formed(self) -> bool {
        &&& self.branches.len() > 0
        &&& forall|k: int|
            0 <= k < self.opened.len() ==> 1 <= #[trigger] self.opened[k] < self.branches.len()
        &&& forall|k: int, l: int|
            0 <= k < l < self.opened.len() ==> #[trigger] self.opened[k] < #[trigger] self.opened[l]
    }

    /// One more token in the branch being read.
    pub open spec fn with(self, token: TokenView) -> Draft {
        Draft {
            branches: self.branches.drop_last().push(self.branches.last().push(token)),
            ..self
        }
    }

    /// The last token of the branch being read, replaced.
    pub open spec fn with_last(self, token: TokenView) -> Draft {
        Draft {
            branches: self.branches.drop_last().push(
                self.branches.last().drop_last().push(token),
            ),
            ..self
        }
    }
}

// ---------------------------------------------------------------------------
// Writing tokens as a regular expression
// ---------------------------------------------------------------------------

/// Whether a character has a meaning of its own in a regular expression.
pub open spec fn is_meta(c: char) -> bool {
    ||| c == '\\' || c == '.' || c == '+' || c == '*' || c == '?' || c == '(' || c == ')'
    ||| c == '|' || c == '[' || c == ']' || c == '{' || c == '}' || c == '^' || c == '$'
    ||| c == '#' || c == '&' || c == '-' || c == '~'
}

/// A text with a backslash in front of every such character.
pub open spec fn escaped(text: Seq<char>) -> Seq<char>
    decreases text.len(),
{
    if text.len() == 0 {
        Seq::empty()
    } else if is_meta(text.last()) {
        escaped(text.drop_last()).push('\\').push(text.last())
    } else {
        escaped(text.drop_last()).push(text.last())
    }
}

/// Escape a text for use as a literal in a regular expression.
///
/// Calls `regex::escape`. The contract claims that it puts a backslash in front
/// of every meta character and changes nothing else.
#[verifier::external_body]
fn regex_escape(text: &str) -> (r: String)
    ensures
        r@ == escaped(text@),
{
    regex::escape(text)
}

/// One byte of a literal: escaped where it is ASCII, by number where it is not.
pub open spec fn byte_regex(b: u8) -> Seq<char> {
    if b < 128 {
        escaped(seq![b as char])
    } else {
        "\\x"@ + crate::diff::hex(seq![b])
    }
}

pub open spec fn bytes_regex(bytes: Seq<u8>) -> Seq<char>
    decreases bytes.len(),
{
    if bytes.len() == 0 {
        Seq::empty()
    } else {
        bytes_regex(bytes.drop_last()) + byte_regex(bytes.last())
    }
}

/// One character as a literal, byte by byte.
pub open spec fn literal_regex(c: char) -> Seq<char> {
    bytes_regex(encode_utf8(seq![c]))
}

/// The inside of a character class.
pub open spec fn ranges_regex(ranges: Seq<(char, char)>) -> Seq<char>
    decreases ranges.len(),
{
    if ranges.len() == 0 {
        Seq::empty()
    } else {
        let (start, end) = ranges.last();
        let head = ranges_regex(ranges.drop_last()) + literal_regex(start);
        if start == end {
            head
        } else {
            head + "-"@ + literal_regex(end)
        }
    }
}

pub open spec fn token_regex(token: TokenView) -> Seq<char> {
    match token {
        TokenView::Literal(c) => literal_regex(c),
        TokenView::Any => "[^/]"@,
        TokenView::ZeroOrMore => "[^/]*"@,
        TokenView::RecursivePrefix => "(?:/?|.*/)"@,
        TokenView::RecursiveSuffix => "/.*"@,
        TokenView::RecursiveZeroOrMore => "(?:/|/.*/)"@,
        TokenView::Class { negated, ranges } => (if negated {
            "[^"@
        } else {
            "["@
        }) + ranges_regex(ranges) + "]"@,
        TokenView::Alternates(text) => text,
    }
}

pub open spec fn tokens_regex(tokens: Seq<TokenView>) -> Seq<char>
    decreases tokens.len(),
{
    if tokens.len() == 0 {
        Seq::empty()
    } else {
        tokens_regex(tokens.drop_last()) + token_regex(tokens.last())
    }
}

/// The branches that are not empty, as regular expressions.
pub open spec fn branch_regexes(branches: Seq<Seq<TokenView>>) -> Seq<Seq<char>>
    decreases branches.len(),
{
    if branches.len() == 0 {
        Seq::empty()
    } else if tokens_regex(branches.last()).len() == 0 {
        branch_regexes(branches.drop_last())
    } else {
        branch_regexes(branches.drop_last()).push(tokens_regex(branches.last()))
    }
}

/// An alternation: nothing at all where every branch is empty.
pub open spec fn alternates_regex(branches: Seq<Seq<TokenView>>) -> Seq<char> {
    let parts = branch_regexes(branches);
    if parts.len() == 0 {
        Seq::empty()
    } else {
        "(?:"@ + joined(parts, "|"@) + ")"@
    }
}

/// A whole pattern: anchored at both ends, over bytes, with line feeds as
/// ordinary as the rest. A bare `**` matches everything.
pub open spec fn anchored_regex(tokens: Seq<TokenView>) -> Seq<char> {
    if tokens == seq![TokenView::RecursivePrefix] {
        "(?s-u)^.*$"@
    } else {
        "(?s-u)^"@ + tokens_regex(tokens) + "$"@
    }
}

/// Escape one character for a non-Unicode regex, byte by byte.
fn push_escaped_literal(c: char, re: &mut String)
    ensures
        final(re)@ == old(re)@ + literal_regex(c),
{
    let mut one = String::new();
    one.push(c);
    assert(one@ =~= seq![c]);
    let bytes = one.as_str().as_bytes();
    let mut i: usize = 0;
    assert(bytes@.take(0) =~= Seq::empty());
    while i < bytes.len()
        invariant
            i <= bytes@.len(),
            re@ == old(re)@ + bytes_regex(bytes@.take(i as int)),
        decreases bytes@.len() - i,
    {
        assert(bytes@.take(i as int + 1).drop_last() =~= bytes@.take(i as int));
        let ghost before = re@;
        let b: u8 = bytes[i];
        if b < 128 {
            let mut ascii = String::new();
            ascii.push(b as char);
            assert(ascii@ =~= seq![b as char]);
            re.append(regex_escape(ascii.as_str()).as_str());
        } else {
            let mut lone: Vec<u8> = Vec::new();
            lone.push(b);
            assert(lone@ =~= seq![b]);
            re.append("\\x");
            re.append(crate::diff::hex_encode(&lone).as_str());
            assert(re@ =~= before + byte_regex(b));
        }
        assert(re@ == before + byte_regex(b));
        assert(re@ =~= old(re)@ + bytes_regex(bytes@.take(i as int + 1)));
        i += 1;
    }
    assert(bytes@.take(bytes@.len() as int) =~= bytes@);
}

fn push_class(negated: bool, ranges: &Vec<(char, char)>, re: &mut String)
    ensures
        final(re)@ == old(re)@ + token_regex(TokenView::Class { negated, ranges: ranges@ }),
{
    if negated {
        re.append("[^");
    } else {
        re.append("[");
    }
    let ghost head = re@;
    let mut i: usize = 0;
    assert(ranges@.take(0) =~= Seq::empty());
    assert(re@ =~= head + ranges_regex(ranges@.take(0)));
    while i < ranges.len()
        invariant
            i <= ranges.len(),
            re@ == head + ranges_regex(ranges@.take(i as int)),
        decreases ranges.len() - i,
    {
        assert(ranges@.take(i as int + 1).drop_last() =~= ranges@.take(i as int));
        let (start, end) = ranges[i];
        push_escaped_literal(start, re);
        if start != end {
            re.append("-");
            push_escaped_literal(end, re);
        }
        assert(re@ =~= head + ranges_regex(ranges@.take(i as int + 1)));
        i += 1;
    }
    assert(ranges@.take(ranges.len() as int) =~= ranges@);
    re.append("]");
}

fn tokens_to_regex(tokens: &Vec<Token>, re: &mut String)
    ensures
        final(re)@ == old(re)@ + tokens_regex(deep(tokens@)),
{
    let ghost views = deep(tokens@);
    let mut i: usize = 0;
    assert(views.take(0) =~= Seq::empty());
    while i < tokens.len()
        invariant
            views == deep(tokens@),
            i <= tokens.len(),
            re@ == old(re)@ + tokens_regex(views.take(i as int)),
        decreases tokens.len() - i,
    {
        assert(views.take(i as int + 1).drop_last() =~= views.take(i as int));
        let ghost before = re@;
        match &tokens[i] {
            Token::Literal(c) => push_escaped_literal(*c, re),
            Token::Any => re.append("[^/]"),
            Token::ZeroOrMore => re.append("[^/]*"),
            Token::RecursivePrefix => re.append("(?:/?|.*/)"),
            Token::RecursiveSuffix => re.append("/.*"),
            Token::RecursiveZeroOrMore => re.append("(?:/|/.*/)"),
            Token::Class { negated, ranges } => push_class(*negated, ranges, re),
            Token::Alternates(text) => re.append(text.as_str()),
        }
        assert(re@ == before + token_regex(views[i as int]));
        assert(re@ =~= old(re)@ + tokens_regex(views.take(i as int + 1)));
        i += 1;
    }
    assert(views.take(views.len() as int) =~= views);
}

fn tokens_to_anchored_regex(tokens: &Vec<Token>) -> (re: String)
    ensures
        re@ == anchored_regex(deep(tokens@)),
{
    if tokens.len() == 1 {
        if let Token::RecursivePrefix = &tokens[0] {
            assert(deep(tokens@) =~= seq![TokenView::RecursivePrefix]);
            return "(?s-u)^.*$".to_owned();
        }
    }
    proof {
        if deep(tokens@) == seq![TokenView::RecursivePrefix] {
            assert(deep(tokens@).len() == 1);
            assert(deep(tokens@)[0] == tokens@[0].deep_view());
        }
    }
    let mut re = "(?s-u)^".to_owned();
    tokens_to_regex(tokens, &mut re);
    re.append("$");
    re
}

// ---------------------------------------------------------------------------
// Reading a pattern
// ---------------------------------------------------------------------------

/// Read the inside of a character class, from position `at`: where it ends, and
/// the ranges it holds.
pub open spec fn class_body(
    s: Seq<char>,
    at: int,
    first: bool,
    in_range: bool,
    ranges: Seq<(char, char)>,
) -> Result<(int, Seq<(char, char)>), Fault>
    decreases s.len() - at,
{
    if at < 0 || at >= s.len() {
        Err(Fault::UnclosedClass)
    } else {
        let c = s[at];
        if c == ']' && !first {
            Ok(
                (
                    at + 1,
                    if in_range {
                        ranges.push(('-', '-'))
                    } else {
                        ranges
                    },
                ),
            )
        } else if c == ']' || (c == '-' && first) {
            class_body(s, at + 1, false, in_range, ranges.push((c, c)))
        } else if c == '-' && !in_range {
            class_body(s, at + 1, false, true, ranges)
        } else if in_range {
            if c < ranges.last().0 {
                Err(Fault::InvalidRange)
            } else {
                class_body(
                    s,
                    at + 1,
                    false,
                    false,
                    ranges.drop_last().push((ranges.last().0, c)),
                )
            }
        } else {
            class_body(s, at + 1, false, false, ranges.push((c, c)))
        }
    }
}

/// Read a character class whose `[` stands at `at`.
pub open spec fn class_step(s: Seq<char>, at: int, draft: Draft) -> Result<(int, Draft), Fault> {
    let negated = at + 1 < s.len() && (s[at + 1] == '!' || s[at + 1] == '^');
    let from = if negated {
        at + 2
    } else {
        at + 1
    };
    match class_body(s, from, true, false, Seq::empty()) {
        Ok((next, ranges)) => Ok((next, draft.with(TokenView::Class { negated, ranges }))),
        Err(fault) => Err(fault),
    }
}

/// Read a `*` or `**` that stands at `at`.
///
/// `**` is only recursive where it forms a whole path component; everywhere else
/// it is two `*`.
pub open spec fn star_step(s: Seq<char>, at: int, draft: Draft) -> (int, Draft) {
    let doubled = at + 1 < s.len() && s[at + 1] == '*';
    let next = at + 2;
    let plain = (next, draft.with(TokenView::ZeroOrMore).with(TokenView::ZeroOrMore));
    let after_separator = at > 0 && s[at - 1] == '/';
    let in_alternate_head = draft.branches.len() > 1 && at > 0 && (s[at - 1] == ',' || s[at - 1]
        == '{');
    let ends = next >= s.len() || (draft.branches.len() >= 2 && (s[next] == ',' || s[next]
        == '}'));
    let separated = next < s.len() && s[next] == '/';
    if !doubled {
        (at + 1, draft.with(TokenView::ZeroOrMore))
    } else if draft.branches.last().len() == 0 {
        if next >= s.len() {
            (next, draft.with(TokenView::RecursivePrefix))
        } else if separated {
            (next + 1, draft.with(TokenView::RecursivePrefix))
        } else {
            plain
        }
    } else if !after_separator && !in_alternate_head {
        plain
    } else if !ends && !separated {
        plain
    } else {
        let last = draft.branches.last().last();
        let token = if last is RecursivePrefix || last is RecursiveSuffix {
            last
        } else if ends {
            TokenView::RecursiveSuffix
        } else {
            TokenView::RecursiveZeroOrMore
        };
        (
            if ends {
                next
            } else {
                next + 1
            },
            draft.with_last(token),
        )
    }
}

/// Read what stands at `at`: where it ends, and what the draft becomes.
pub open spec fn step(s: Seq<char>, at: int, draft: Draft) -> Result<(int, Draft), Fault> {
    let c = s[at];
    if c == '?' {
        Ok((at + 1, draft.with(TokenView::Any)))
    } else if c == '*' {
        Ok(star_step(s, at, draft))
    } else if c == '[' {
        class_step(s, at, draft)
    } else if c == '{' {
        Ok(
            (
                at + 1,
                Draft {
                    branches: draft.branches.push(Seq::empty()),
                    opened: draft.opened.push(draft.branches.len() as int),
                },
            ),
        )
    } else if c == '}' {
        if draft.opened.len() == 0 {
            Err(Fault::UnopenedAlternates)
        } else {
            let start = draft.opened.last();
            let text = alternates_regex(draft.branches.skip(start));
            Ok(
                (
                    at + 1,
                    (Draft {
                        branches: draft.branches.take(start),
                        opened: draft.opened.drop_last(),
                    }).with(TokenView::Alternates(text)),
                ),
            )
        }
    } else if c == ',' && draft.opened.len() > 0 {
        Ok((at + 1, Draft { branches: draft.branches.push(Seq::empty()), ..draft }))
    } else if c == '\\' {
        if at + 1 >= s.len() {
            Err(Fault::DanglingEscape)
        } else {
            Ok((at + 2, draft.with(TokenView::Literal(s[at + 1]))))
        }
    } else {
        Ok((at + 1, draft.with(TokenView::Literal(c))))
    }
}

/// Read the rest of a pattern, from position `at`.
pub open spec fn tokens_from(s: Seq<char>, at: int, draft: Draft) -> Result<
    Seq<TokenView>,
    Fault,
>
    decreases s.len() - at,
{
    if at >= s.len() {
        if draft.branches.len() > 1 {
            Err(Fault::UnclosedAlternates)
        } else {
            Ok(draft.branches.last())
        }
    } else {
        match step(s, at, draft) {
            Err(fault) => Err(fault),
            Ok((next, then)) => if at < next <= s.len() {
                tokens_from(s, next, then)
            } else {
                Err(Fault::UnclosedClass)
            },
        }
    }
}

/// The tokens of a pattern.
pub open spec fn tokens_of(pattern: Seq<char>) -> Result<Seq<TokenView>, Fault> {
    tokens_from(pattern, 0, Draft::start())
}

proof fn lemma_class_body_advances(
    s: Seq<char>,
    at: int,
    first: bool,
    in_range: bool,
    ranges: Seq<(char, char)>,
)
    ensures
        class_body(s, at, first, in_range, ranges) matches Ok((next, _)) ==> at < next <= s.len(),
    decreases s.len() - at,
{
    if 0 <= at < s.len() {
        let c = s[at];
        lemma_class_body_advances(s, at + 1, false, in_range, ranges.push((c, c)));
        lemma_class_body_advances(s, at + 1, false, true, ranges);
        lemma_class_body_advances(
            s,
            at + 1,
            false,
            false,
            ranges.drop_last().push((ranges.last().0, c)),
        );
        lemma_class_body_advances(s, at + 1, false, false, ranges.push((c, c)));
    }
}

proof fn lemma_with(draft: Draft, token: TokenView)
    requires
        draft.well_formed(),
    ensures
        draft.with(token).well_formed(),
        draft.with_last(token).well_formed(),
{
    assert(draft.with(token).opened == draft.opened);
    assert(draft.with(token).branches.len() == draft.branches.len());
    assert(draft.with_last(token).opened == draft.opened);
    assert(draft.with_last(token).branches.len() == draft.branches.len());
}

proof fn lemma_step(s: Seq<char>, at: int, draft: Draft)
    requires
        0 <= at < s.len(),
        draft.well_formed(),
    ensures
        step(s, at, draft) matches Ok((next, then)) ==> at < next <= s.len() && then.well_formed(),
{
    assert forall|token: TokenView|
        (#[trigger] draft.with(token)).well_formed() && draft.with_last(token).well_formed() by {
        lemma_with(draft, token);
    }
    assert forall|token: TokenView| (#[trigger] draft.with_last(token)).well_formed() by {
        lemma_with(draft, token);
    }
    lemma_with(draft.with(TokenView::ZeroOrMore), TokenView::ZeroOrMore);
    if s[at] == '[' {
        let negated = at + 1 < s.len() && (s[at + 1] == '!' || s[at + 1] == '^');
        lemma_class_body_advances(
            s,
            if negated {
                at + 2
            } else {
                at + 1
            },
            true,
            false,
            Seq::empty(),
        );
        if let Ok((next, then)) = step(s, at, draft) {
            assert(then.well_formed());
        }
    } else if s[at] == '}' && draft.opened.len() > 0 {
        let start = draft.opened.last();
        assert(draft.opened[draft.opened.len() - 1] == start);
        let then = Draft {
            branches: draft.branches.take(start),
            opened: draft.opened.drop_last(),
        };
        assert forall|k: int| 0 <= k < then.opened.len() implies 1 <= #[trigger] then.opened[k]
            < then.branches.len() by {
            assert(draft.opened[k] < draft.opened[draft.opened.len() - 1]);
        }
        assert forall|k: int, l: int| 0 <= k < l < then.opened.len() implies #[trigger] then.opened[k]
            < #[trigger] then.opened[l] by {
            assert(draft.opened[k] < draft.opened[l]);
        }
        assert(then.well_formed());
        lemma_with(then, TokenView::Alternates(alternates_regex(draft.branches.skip(start))));
    } else if s[at] == '{' {
        let then = step(s, at, draft)->Ok_0.1;
        assert forall|k: int| 0 <= k < then.opened.len() implies 1 <= #[trigger] then.opened[k]
            < then.branches.len() by {
            if k < draft.opened.len() {
                assert(draft.opened[k] < draft.branches.len());
            }
        }
        assert(then.well_formed());
    } else if s[at] == '*' {
        assert(star_step(s, at, draft).1.well_formed());
    } else if s[at] == ',' && draft.opened.len() > 0 {
        assert(step(s, at, draft)->Ok_0.1.well_formed());
    } else if s[at] == '}' {
    } else {
        let token = if s[at] == '?' {
            TokenView::Any
        } else if s[at] == '\\' {
            TokenView::Literal(s[at + 1])
        } else {
            TokenView::Literal(s[at])
        };
        lemma_with(draft, token);
    }
}

/// Where reading has come to, held as vectors.
struct Reader {
    branches: Vec<Vec<Token>>,
    opened: Vec<usize>,
}

impl Reader {
    spec fn draft(&self) -> Draft {
        Draft {
            branches: Seq::new(self.branches@.len(), |i: int| deep(self.branches@[i]@)),
            opened: Seq::new(self.opened@.len(), |i: int| self.opened@[i] as int),
        }
    }

    fn push_token(&mut self, token: Token)
        requires
            old(self).draft().well_formed(),
        ensures
            final(self).draft() == old(self).draft().with(token.deep_view()),
            final(self).draft().well_formed(),
    {
        broadcast use group_deep;

        let mut branch = self.branches.pop().unwrap();
        branch.push(token);
        self.branches.push(branch);
        assert(self.draft().branches =~= old(self).draft().with(token.deep_view()).branches);
        assert(self.draft() =~= old(self).draft().with(token.deep_view()));
    }

    fn replace_token(&mut self, token: Token)
        requires
            old(self).draft().well_formed(),
            old(self).draft().branches.last().len() > 0,
        ensures
            final(self).draft() == old(self).draft().with_last(token.deep_view()),
            final(self).draft().well_formed(),
    {
        broadcast use group_deep;

        let ghost before = self.draft();
        let mut branch = self.branches.pop().unwrap();
        let ghost held = branch@;
        assert(deep(held) == before.branches.last());
        let _ = branch.pop();
        assert(deep(branch@) =~= deep(held).drop_last());
        branch.push(token);
        self.branches.push(branch);
        assert(self.draft().branches =~= before.with_last(token.deep_view()).branches);
        assert(self.draft() =~= before.with_last(token.deep_view()));
    }

    fn push_alternate(&mut self)
        requires
            old(self).draft().well_formed(),
        ensures
            final(self).draft() == (Draft {
                branches: old(self).draft().branches.push(Seq::empty()),
                opened: old(self).draft().opened.push(old(self).draft().branches.len() as int),
            }),
            final(self).draft().well_formed(),
    {
        broadcast use group_deep;

        let ghost before = self.draft();
        self.opened.push(self.branches.len());
        self.branches.push(Vec::new());
        assert(self.draft().branches =~= before.branches.push(Seq::empty()));
        assert(self.draft().opened =~= before.opened.push(before.branches.len() as int));
    }

    fn push_branch(&mut self)
        requires
            old(self).draft().well_formed(),
        ensures
            final(self).draft() == (Draft {
                branches: old(self).draft().branches.push(Seq::empty()),
                ..old(self).draft()
            }),
            final(self).draft().well_formed(),
    {
        broadcast use group_deep;

        let ghost before = self.draft();
        self.branches.push(Vec::new());
        assert(self.draft().branches =~= before.branches.push(Seq::empty()));
        assert(self.draft().opened =~= before.opened);
    }

    /// Close an alternation, if one is open.
    fn pop_alternate(&mut self) -> (r: Result<(), Fault>)
        requires
            old(self).draft().well_formed(),
        ensures
            match r {
                Ok(_) => {
                    let before = old(self).draft();
                    let start = before.opened.last();
                    &&& before.opened.len() > 0
                    &&& final(self).draft() == (Draft {
                        branches: before.branches.take(start),
                        opened: before.opened.drop_last(),
                    }).with(TokenView::Alternates(alternates_regex(before.branches.skip(start))))
                    &&& final(self).draft().well_formed()
                },
                Err(fault) => old(self).draft().opened.len() == 0 && fault
                    == Fault::UnopenedAlternates,
            },
    {
        broadcast use group_deep;

        let ghost before = self.draft();
        let start = match self.opened.pop() {
            Some(start) => start,
            None => {
                return Err(Fault::UnopenedAlternates);
            },
        };
        let ghost begun = before.opened.last();
        assert(begun == start);
        assert(before.opened[before.opened.len() - 1] == start);
        let ghost closed = before.branches.skip(start as int);
        let mut parts: Vec<String> = Vec::new();
        let mut i: usize = start;
        assert(closed.take(0) =~= Seq::empty());
        while i < self.branches.len()
            invariant
                start <= i <= self.branches@.len(),
                closed.len() == self.branches@.len() - start,
                forall|k: int|
                    0 <= k < closed.len() ==> #[trigger] closed[k] == deep(
                        self.branches@[start + k]@,
                    ),
                deep(parts@) == branch_regexes(closed.take(i - start)),
            decreases self.branches@.len() - i,
        {
            let ghost n = i - start;
            assert(closed.take(n + 1).drop_last() =~= closed.take(n));
            assert(closed[n] == deep(self.branches@[start + n]@));
            let mut part = String::new();
            tokens_to_regex(&self.branches[i], &mut part);
            assert(part@ =~= tokens_regex(closed[n]));
            if !part.as_str().is_empty() {
                parts.push(part);
            }
            i += 1;
        }
        assert(closed.take(closed.len() as int) =~= closed);
        let text = if parts.len() == 0 {
            String::new()
        } else {
            crate::text::concat3("(?:", join(&parts, "|").as_str(), ")")
        };
        assert(text@ =~= alternates_regex(closed));
        self.branches.truncate(start);
        proof {
            let after = Draft {
                branches: before.branches.take(start as int),
                opened: before.opened.drop_last(),
            };
            assert(self.draft().branches =~= after.branches);
            assert(self.draft().opened =~= after.opened);
            assert forall|k: int|
                0 <= k < after.opened.len() implies 1 <= #[trigger] after.opened[k]
                < after.branches.len() by {
                assert(before.opened[k] < before.opened[before.opened.len() - 1]);
            }
            assert(after.well_formed());
        }
        self.push_token(Token::Alternates(text));
        Ok(())
    }

    /// Read a `*` or `**`.
    fn parse_star(&mut self, chars: &Vec<char>, at: usize) -> (next: usize)
        requires
            at < chars.len(),
            old(self).draft().well_formed(),
        ensures
            (next as int, final(self).draft()) == star_step(chars@, at as int, old(self).draft()),
            at < next <= chars.len(),
            final(self).draft().well_formed(),
    {
        let ghost before = self.draft();
        if chars.len() - at < 2 || chars[at + 1] != '*' {
            self.push_token(Token::ZeroOrMore);
            return at + 1;
        }
        let next: usize = at + 2;
        let depth: usize = self.branches.len();
        let empty = self.branches[depth - 1].len() == 0;
        assert(before.branches.last() == deep(self.branches@[depth - 1]@));
        let separated = next < chars.len() && chars[next] == '/';
        if empty {
            if next >= chars.len() {
                self.push_token(Token::RecursivePrefix);
                return next;
            }
            if separated {
                self.push_token(Token::RecursivePrefix);
                return next + 1;
            }
            self.push_token(Token::ZeroOrMore);
            self.push_token(Token::ZeroOrMore);
            return next;
        }
        let after_separator = at > 0 && chars[at - 1] == '/';
        let in_alternate_head = depth > 1 && at > 0 && (chars[at - 1] == ',' || chars[at - 1]
            == '{');
        let ends = next >= chars.len() || (depth >= 2 && (chars[next] == ',' || chars[next]
            == '}'));
        if (!after_separator && !in_alternate_head) || (!ends && !separated) {
            self.push_token(Token::ZeroOrMore);
            self.push_token(Token::ZeroOrMore);
            return next;
        }
        let width: usize = self.branches[depth - 1].len();
        assert(before.branches.last().last() == self.branches@[depth - 1]@[width - 1].deep_view());
        let token = match &self.branches[depth - 1][width - 1] {
            Token::RecursivePrefix => Token::RecursivePrefix,
            Token::RecursiveSuffix => Token::RecursiveSuffix,
            _ => if ends {
                Token::RecursiveSuffix
            } else {
                Token::RecursiveZeroOrMore
            },
        };
        self.replace_token(token);
        if ends {
            next
        } else {
            next + 1
        }
    }

    /// Read a character class.
    fn parse_class(&mut self, chars: &Vec<char>, at: usize) -> (r: Result<usize, Fault>)
        requires
            at < chars.len(),
            old(self).draft().well_formed(),
        ensures
            match r {
                Ok(next) => class_step(chars@, at as int, old(self).draft()) == Ok::<
                    (int, Draft),
                    Fault,
                >((next as int, final(self).draft())) && at < next <= chars.len()
                    && final(self).draft().well_formed(),
                Err(fault) => class_step(chars@, at as int, old(self).draft()) == Err::<
                    (int, Draft),
                    Fault,
                >(fault),
            },
    {
        let ghost before = self.draft();
        let negated = chars.len() - at >= 2 && (chars[at + 1] == '!' || chars[at + 1] == '^');
        let mut i: usize = if negated {
            at + 2
        } else {
            at + 1
        };
        let ghost from = i as int;
        let mut ranges: Vec<(char, char)> = Vec::new();
        let mut first = true;
        let mut in_range = false;
        loop
            invariant
                at < i <= chars.len(),
                self.draft() == before,
                before == old(self).draft(),
                before.well_formed(),
                !first ==> ranges.len() > 0,
                first ==> !in_range,
                class_step(chars@, at as int, before) == (match class_body(
                    chars@,
                    i as int,
                    first,
                    in_range,
                    ranges@,
                ) {
                    Ok((next, found)) => Ok(
                        (next, before.with(TokenView::Class { negated, ranges: found })),
                    ),
                    Err(fault) => Err(fault),
                }),
            decreases chars.len() - i,
        {
            if i >= chars.len() {
                return Err(Fault::UnclosedClass);
            }
            let c = chars[i];
            if c == ']' && !first {
                if in_range {
                    // A trailing `-`, as in `[a-]`.
                    ranges.push(('-', '-'));
                }
                self.push_token(Token::Class { negated, ranges });
                return Ok(i + 1);
            }
            if c == ']' || (c == '-' && first) {
                ranges.push((c, c));
            } else if c == '-' && !in_range {
                in_range = true;
            } else if in_range {
                let last = ranges[ranges.len() - 1];
                if c < last.0 {
                    return Err(Fault::InvalidRange);
                }
                let _ = ranges.pop();
                ranges.push((last.0, c));
                in_range = false;
            } else {
                ranges.push((c, c));
            }
            first = false;
            i += 1;
        }
    }
}

/// Read a pattern into tokens.
pub fn parse(pattern: &str) -> (r: Result<Vec<Token>, Fault>)
    ensures
        match r {
            Ok(tokens) => tokens_of(pattern@) == Ok::<Seq<TokenView>, Fault>(deep(tokens@)),
            Err(fault) => tokens_of(pattern@) == Err::<Seq<TokenView>, Fault>(fault),
        },
{
    broadcast use group_deep;

    let chars = chars_of(pattern);
    let mut reader = Reader { branches: Vec::new(), opened: Vec::new() };
    reader.branches.push(Vec::new());
    assert(reader.draft().branches =~= Draft::start().branches);
    assert(reader.draft() =~= Draft::start());
    let mut at: usize = 0;
    while at < chars.len()
        invariant
            chars@ == pattern@,
            at <= chars.len(),
            reader.draft().well_formed(),
            tokens_of(pattern@) == tokens_from(pattern@, at as int, reader.draft()),
        decreases chars.len() - at,
    {
        let ghost draft = reader.draft();
        proof {
            lemma_step(pattern@, at as int, draft);
        }
        let c = chars[at];
        if c == '?' {
            reader.push_token(Token::Any);
            at += 1;
        } else if c == '*' {
            at = reader.parse_star(&chars, at);
        } else if c == '[' {
            match reader.parse_class(&chars, at) {
                Ok(next) => {
                    at = next;
                },
                Err(fault) => {
                    return Err(fault);
                },
            }
        } else if c == '{' {
            reader.push_alternate();
            at += 1;
        } else if c == '}' {
            match reader.pop_alternate() {
                Ok(_) => {
                    at += 1;
                },
                Err(fault) => {
                    return Err(fault);
                },
            }
        } else if c == ',' && reader.opened.len() > 0 {
            reader.push_branch();
            at += 1;
        } else if c == '\\' {
            if chars.len() - at < 2 {
                return Err(Fault::DanglingEscape);
            }
            reader.push_token(Token::Literal(chars[at + 1]));
            at += 2;
        } else {
            reader.push_token(Token::Literal(c));
            at += 1;
        }
    }
    if reader.branches.len() > 1 {
        return Err(Fault::UnclosedAlternates);
    }
    let tokens = reader.branches.pop().unwrap();
    Ok(tokens)
}

// ---------------------------------------------------------------------------
// Matching
// ---------------------------------------------------------------------------

/// Why `regex` refuses a pattern over bytes; nothing where it accepts it.
pub uninterp spec fn bytes_regex_refusal(pattern: Seq<char>) -> Option<Seq<char>>;

/// Whether a pattern over bytes that `regex` accepts matches some bytes.
pub uninterp spec fn bytes_regex_matches(pattern: Seq<char>, haystack: Seq<u8>) -> bool;

/// Try to compile a pattern over bytes.
///
/// Calls `regex::bytes::Regex::new` and keeps the text of its error. The
/// contract claims that the outcome depends on the pattern alone.
#[verifier::external_body]
fn refuse_bytes_regex(pattern: &str) -> (r: Option<String>)
    ensures
        r.deep_view() == bytes_regex_refusal(pattern@),
{
    match regex::bytes::Regex::new(pattern) {
        Ok(_) => None,
        Err(error) => Some(error.to_string()),
    }
}

/// Match a pattern over bytes.
///
/// Calls `regex::bytes::Regex::is_match` on the compiled pattern. The contract
/// claims that the outcome depends on the pattern and the bytes alone.
#[verifier::external_body]
fn match_bytes_regex(pattern: &str, haystack: &[u8]) -> (r: bool)
    requires
        bytes_regex_refusal(pattern@) is None,
    ensures
        r == bytes_regex_matches(pattern@, haystack@),
{
    regex::bytes::Regex::new(pattern).unwrap().is_match(haystack)
}

/// A fault in words.
pub open spec fn fault_text(fault: Fault) -> Seq<char> {
    match fault {
        Fault::UnclosedClass => "unclosed '[' -- a character class needs a matching ']'"@,
        Fault::InvalidRange => "invalid range -- a range must not run backwards"@,
        Fault::UnclosedAlternates => "unclosed '{' -- an alternation needs a matching '}'"@,
        Fault::UnopenedAlternates => "unopened '}' -- there is no '{' for it to close"@,
        Fault::DanglingEscape => "dangling '\\' -- there is nothing after it to escape"@,
    }
}

impl Fault {
    /// The fault in words.
    pub fn text(&self) -> (r: &'static str)
        ensures
            r@ == fault_text(*self),
    {
        match self {
            Fault::UnclosedClass => "unclosed '[' -- a character class needs a matching ']'",
            Fault::InvalidRange => "invalid range -- a range must not run backwards",
            Fault::UnclosedAlternates => "unclosed '{' -- an alternation needs a matching '}'",
            Fault::UnopenedAlternates => "unopened '}' -- there is no '{' for it to close",
            Fault::DanglingEscape => "dangling '\\' -- there is nothing after it to escape",
        }
    }
}

/// The regular expression a well-formed pattern stands for.
pub open spec fn glob_regex(pattern: Seq<char>) -> Seq<char> {
    anchored_regex(tokens_of(normalized(pattern))->Ok_0)
}

/// Why a pattern is refused; nothing where it is accepted.
pub open spec fn glob_refusal(pattern: Seq<char>) -> Option<Seq<char>> {
    match tokens_of(normalized(pattern)) {
        Err(fault) => Some(fault_text(fault)),
        Ok(_) => bytes_regex_refusal(glob_regex(pattern)),
    }
}

/// Whether a pattern that is accepted matches a path.
pub open spec fn glob_matches(pattern: Seq<char>, path: Seq<char>) -> bool {
    bytes_regex_matches(glob_regex(pattern), encode_utf8(normalized(path)))
}

/// A pattern that has been accepted.
#[derive(Debug)]
pub struct Glob {
    pattern: String,
    regex: String,
}

/// A pattern that was refused, and why.
#[derive(Debug)]
pub struct GlobError {
    pattern: String,
    reason: String,
}

impl GlobError {
    pub closed spec fn pattern_view(&self) -> Seq<char> {
        self.pattern@
    }

    pub closed spec fn reason_view(&self) -> Seq<char> {
        self.reason@
    }

    pub open spec fn text(&self) -> Seq<char> {
        "invalid glob '"@ + self.pattern_view() + "': "@ + self.reason_view()
    }

    /// The pattern that was refused.
    pub fn pattern(&self) -> (r: &str)
        ensures
            r@ == self.pattern_view(),
    {
        self.pattern.as_str()
    }

    /// Why it was refused.
    pub fn reason(&self) -> (r: &str)
        ensures
            r@ == self.reason_view(),
    {
        self.reason.as_str()
    }

    /// The error in words.
    pub fn message(&self) -> (r: String)
        ensures
            r@ == self.text(),
    {
        let mut out = "invalid glob '".to_owned();
        out.append(self.pattern.as_str());
        out.append("': ");
        out.append(self.reason.as_str());
        out
    }
}

impl Glob {
    #[verifier::type_invariant]
    spec fn accepted(self) -> bool {
        &&& glob_refusal(self.pattern@) is None
        &&& self.regex@ == glob_regex(self.pattern@)
    }

    /// The pattern this was compiled from.
    pub closed spec fn source(&self) -> Seq<char> {
        self.pattern@
    }

    /// Read a pattern, or say what is wrong with it.
    pub fn compile(pattern: &str) -> (r: Result<Glob, GlobError>)
        ensures
            match r {
                Ok(glob) => glob_refusal(pattern@) is None && glob.source() == pattern@,
                Err(e) => e.pattern_view() == pattern@ && glob_refusal(pattern@) == Some(
                    e.reason_view(),
                ),
            },
    {
        let plain = normalize(pattern);
        let tokens = match parse(plain.as_str()) {
            Ok(tokens) => tokens,
            Err(fault) => {
                return Err(
                    GlobError { pattern: pattern.to_owned(), reason: fault.text().to_owned() },
                );
            },
        };
        let regex = tokens_to_anchored_regex(&tokens);
        match refuse_bytes_regex(regex.as_str()) {
            Some(reason) => Err(GlobError { pattern: pattern.to_owned(), reason }),
            None => Ok(Glob { pattern: pattern.to_owned(), regex }),
        }
    }

    /// Whether the pattern matches the whole of a path.
    pub fn is_match(&self, path: &str) -> (r: bool)
        ensures
            r == glob_matches(self.source(), path@),
    {
        proof {
            use_type_invariant(self);
        }
        let plain = normalize(path);
        match_bytes_regex(self.regex.as_str(), plain.as_str().as_bytes())
    }
}

/// Whether a pattern is one that [`Glob::compile`] accepts.
pub fn validate_glob(pattern: &str) -> (r: Result<(), GlobError>)
    ensures
        match r {
            Ok(_) => glob_refusal(pattern@) is None,
            Err(e) => e.pattern_view() == pattern@ && glob_refusal(pattern@) == Some(
                e.reason_view(),
            ),
        },
{
    match Glob::compile(pattern) {
        Ok(_) => Ok(()),
        Err(e) => Err(e),
    }
}

/// Match a glob pattern against a path. A malformed pattern matches nothing.
pub fn glob_match(pattern: &str, path: &str) -> (r: bool)
    ensures
        r == (glob_refusal(pattern@) is None && glob_matches(pattern@, path@)),
{
    match Glob::compile(pattern) {
        Ok(glob) => glob.is_match(path),
        Err(_) => false,
    }
}

// ---------------------------------------------------------------------------
// Laws
// ---------------------------------------------------------------------------

proof fn lemma_next_at_slash_free(s: Seq<char>, from: int)
    requires
        0 <= from <= s.len(),
        forall|i: int| from <= i < s.len() ==> s[i] != '/',
    ensures
        crate::text::next_at(s, '/', from) == s.len(),
    decreases s.len() - from,
{
    if from < s.len() {
        lemma_next_at_slash_free(s, from + 1);
    }
}

/// A name that is one component already is its own normal form.
pub proof fn a_single_component_is_normal(name: Seq<char>)
    requires
        name.len() > 0,
        name != "."@,
        forall|i: int| 0 <= i < name.len() ==> name[i] != '/',
    ensures
        normalized(name) == name,
{
    lemma_next_at_slash_free(name, 0);
    let parts = split_at_char(name, '/');
    assert(parts =~= seq![name.subrange(0, name.len() as int)]);
    assert(name.subrange(0, name.len() as int) =~= name);
    assert(parts.last() == name);
    assert(parts.drop_last() =~= Seq::<Seq<char>>::empty());
    assert(components(parts.drop_last()) =~= Seq::<Seq<char>>::empty());
    assert(components(parts) =~= seq![name]);
}

/// A pattern that differs from another in `.` components, repeated separators or a
/// trailing separator alone is read as the other is.
pub proof fn a_pattern_is_read_in_its_normal_form(
    pattern: Seq<char>,
    other: Seq<char>,
    path: Seq<char>,
)
    requires
        normalized(pattern) == normalized(other),
    ensures
        glob_refusal(pattern) == glob_refusal(other),
        glob_matches(pattern, path) == glob_matches(other, path),
{
}

} // verus!
