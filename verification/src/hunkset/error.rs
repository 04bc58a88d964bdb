//! What can be wrong with a hunkset expression, and how it is told.

use crate::errors::{
    lemma_shapes_empty, lemma_shapes_insert, shapes, Code, CodedError, ErrorCode,
};
use crate::glob::GlobError;
use crate::names::{Keyed, NameMap};
use crate::node::{number_node, text_node, Node, NodeView};
use crate::text::{
    chars_of, concat3, decimal, deep, join, joined, newlines, next_at, number, string_of,
};
use vstd::prelude::*;

verus! {

/// One of the hunks an abbreviated id reached.
#[derive(Debug, Clone, PartialEq, Eq)]
pub struct IdCandidate {
    /// The abbreviation a listing prints, which is unambiguous over the diff.
    pub short_id: String,
    /// The path the hunk's file has now.
    pub path: String,
}

#[verifier::ext_equal]
pub struct CandidateView {
    pub short_id: Seq<char>,
    pub path: Seq<char>,
}

impl DeepView for IdCandidate {
    type V = CandidateView;

    open spec fn deep_view(&self) -> CandidateView {
        CandidateView { short_id: self.short_id@, path: self.path@ }
    }
}

/// A candidate in words: its short id, and its path in brackets.
pub open spec fn candidate_text(c: CandidateView) -> Seq<char> {
    c.short_id + " ("@ + c.path + ")"@
}

pub open spec fn candidate_texts(candidates: Seq<CandidateView>) -> Seq<Seq<char>> {
    Seq::new(candidates.len(), |i: int| candidate_text(candidates[i]))
}

impl IdCandidate {
    /// The candidate in words.
    pub fn text(&self) -> (r: String)
        ensures
            r@ == candidate_text(self.deep_view()),
    {
        let mut out = self.short_id.clone();
        out.append(" (");
        out.append(self.path.as_str());
        out.append(")");
        out
    }
}

impl Keyed for IdCandidate {
    open spec fn key_of(v: CandidateView) -> Seq<char> {
        candidate_text(v)
    }

    fn key(&self) -> (r: String) {
        self.text()
    }
}

fn render_candidates(candidates: &Vec<IdCandidate>) -> (r: String)
    ensures
        r@ == joined(candidate_texts(deep(candidates@)), ", "@),
{
    let mut texts: Vec<String> = Vec::new();
    let mut i: usize = 0;
    while i < candidates.len()
        invariant
            i <= candidates.len(),
            texts@.len() == i,
            forall|j: int|
                0 <= j < i ==> (#[trigger] texts@[j])@ == candidate_text(
                    candidates@[j].deep_view(),
                ),
        decreases candidates.len() - i,
    {
        texts.push(candidates[i].text());
        i += 1;
    }
    assert(deep(texts@) =~= candidate_texts(deep(candidates@)));
    join(&texts, ", ")
}

#[derive(Debug)]
pub enum HunksetError {
    Parse { message: String, input: String, position: usize },
    UnknownFunction { name: String },
    InvalidRegex { pattern: String, reason: String },
    InvalidGlob { source: GlobError },
    UnknownId { id: String },
    AmbiguousId {
        prefix: String,
        /// Sorted by their texts.
        candidates: Vec<IdCandidate>,
    },
    InvalidArgument { func: String, value: String, valid: String },
    SemanticFeatureRequired { name: String },
}

/// An error as its contents.
#[verifier::ext_equal]
pub enum Failure {
    Parse { message: Seq<char>, input: Seq<char>, position: int },
    UnknownFunction { name: Seq<char> },
    InvalidRegex { pattern: Seq<char>, reason: Seq<char> },
    InvalidGlob { pattern: Seq<char>, reason: Seq<char> },
    UnknownId { id: Seq<char> },
    AmbiguousId { prefix: Seq<char>, candidates: Seq<CandidateView> },
    InvalidArgument { func: Seq<char>, value: Seq<char>, valid: Seq<char> },
    SemanticFeatureRequired { name: Seq<char> },
}

impl DeepView for HunksetError {
    type V = Failure;

    open spec fn deep_view(&self) -> Failure {
        match self {
            HunksetError::Parse { message, input, position } => Failure::Parse {
                message: message@,
                input: input@,
                position: *position as int,
            },
            HunksetError::UnknownFunction { name } => Failure::UnknownFunction { name: name@ },
            HunksetError::InvalidRegex { pattern, reason } => Failure::InvalidRegex {
                pattern: pattern@,
                reason: reason@,
            },
            HunksetError::InvalidGlob { source } => Failure::InvalidGlob {
                pattern: source.pattern_view(),
                reason: source.reason_view(),
            },
            HunksetError::UnknownId { id } => Failure::UnknownId { id: id@ },
            HunksetError::AmbiguousId { prefix, candidates } => Failure::AmbiguousId {
                prefix: prefix@,
                candidates: deep(candidates@),
            },
            HunksetError::InvalidArgument { func, value, valid } => Failure::InvalidArgument {
                func: func@,
                value: value@,
                valid: valid@,
            },
            HunksetError::SemanticFeatureRequired { name } => Failure::SemanticFeatureRequired {
                name: name@,
            },
        }
    }
}

// ---------------------------------------------------------------------------
// Where in the input
// ---------------------------------------------------------------------------

/// Longest run of input shown above the caret before it is windowed.
pub const MAX_CONTEXT_WIDTH: usize = 100;

/// A position in a text, and no further than its end.
pub open spec fn within(s: Seq<char>, position: int) -> int {
    if position <= s.len() {
        position
    } else {
        s.len() as int
    }
}

/// Where the line that holds `position` begins: behind the last newline in
/// front of it.
pub open spec fn line_start(s: Seq<char>, position: int) -> int
    decreases position,
{
    if position <= 0 || position > s.len() {
        0
    } else if s[position - 1] == '\n' {
        position
    } else {
        line_start(s, position - 1)
    }
}

/// `s` without the carriage returns it ends with.
pub open spec fn without_returns(s: Seq<char>) -> Seq<char>
    decreases s.len(),
{
    if s.len() > 0 && s.last() == '\r' {
        without_returns(s.drop_last())
    } else {
        s
    }
}

/// The line that holds a position.
pub open spec fn line_at(s: Seq<char>, position: int) -> Seq<char> {
    let start = line_start(s, within(s, position));
    without_returns(s.subrange(start, next_at(s, '\n', start)))
}

/// How far into its line a position is.
pub open spec fn column_at(s: Seq<char>, position: int) -> int {
    within(s, position) - line_start(s, within(s, position))
}

/// The number of the line that holds a position, counted from one.
pub open spec fn line_number_at(s: Seq<char>, position: int) -> nat {
    newlines(s.take(within(s, position))) + 1
}

/// The first character shown of a line of `n` characters with a caret at
/// `column`.
pub open spec fn window_start(n: int, column: int) -> int {
    let wanted = if column >= 50 {
        column - 50
    } else {
        0
    };
    let end = if wanted + MAX_CONTEXT_WIDTH <= n {
        wanted + MAX_CONTEXT_WIDTH
    } else {
        n
    };
    if end >= MAX_CONTEXT_WIDTH {
        end - MAX_CONTEXT_WIDTH
    } else {
        0
    }
}

/// What is shown of a line, and where the caret stands in it: the whole line
/// where it is short, else a window around the caret.
pub open spec fn windowed(line: Seq<char>, column: int) -> (Seq<char>, int) {
    let n = line.len() as int;
    let start = window_start(n, column);
    let end = start + MAX_CONTEXT_WIDTH;
    if n <= MAX_CONTEXT_WIDTH {
        (line, column)
    } else {
        (
            (if start > 0 {
                "..."@
            } else {
                Seq::empty()
            }) + line.subrange(start, end) + (if end < n {
                "..."@
            } else {
                Seq::empty()
            }),
            column - start + (if start > 0 {
                3int
            } else {
                0int
            }),
        )
    }
}

/// Windowing a line keeps the character under the caret under the caret, and
/// shows no more than the width and an ellipsis at either end.
pub proof fn windowing_keeps_the_caret_on_its_character(line: Seq<char>, column: int)
    requires
        0 <= column < line.len(),
    ensures
        ({
            let (shown, caret) = windowed(line, column);
            &&& 0 <= caret < shown.len()
            &&& shown[caret] == line[column]
            &&& shown.len() <= MAX_CONTEXT_WIDTH + 2 * "..."@.len()
        }),
{
    reveal_strlit("...");
}

proof fn lemma_line_start(s: Seq<char>, position: int)
    requires
        0 <= position <= s.len(),
    ensures
        0 <= line_start(s, position) <= position,
        forall|i: int| line_start(s, position) <= i < position ==> s[i] != '\n',
    decreases position,
{
    if position > 0 && s[position - 1] != '\n' {
        lemma_line_start(s, position - 1);
    }
}

/// The line a position falls on, and the column within that line.
fn locate(input: &str, position: usize) -> (r: (String, usize))
    ensures
        r.0@ == line_at(input@, position as int),
        r.1 == column_at(input@, position as int),
{
    let chars = chars_of(input);
    let stop: usize = if position <= chars.len() {
        position
    } else {
        chars.len()
    };
    let mut start: usize = stop;
    while start > 0 && chars[start - 1] != '\n'
        invariant
            chars@ == input@,
            start <= stop <= chars.len(),
            line_start(input@, stop as int) == line_start(input@, start as int),
        decreases start,
    {
        start -= 1;
    }
    assert(line_start(input@, start as int) == start);
    let mut end = crate::text::find_char(&chars, '\n', start);
    let ghost line = input@.subrange(start as int, end as int);
    while end > start && chars[end - 1] == '\r'
        invariant
            chars@ == input@,
            start <= end <= chars.len(),
            without_returns(line) == without_returns(
                input@.subrange(start as int, end as int),
            ),
        decreases end,
    {
        assert(input@.subrange(start as int, end as int).drop_last() =~= input@.subrange(
            start as int,
            end as int - 1,
        ));
        end -= 1;
    }
    (string_of(&chars, start, end), stop - start)
}

/// The line `position` falls on, counted from one.
fn line_number(input: &str, position: usize) -> (n: usize)
    requires
        input@.len() < usize::MAX,
    ensures
        n == line_number_at(input@, position as int),
{
    let chars = chars_of(input);
    let stop: usize = if position <= chars.len() {
        position
    } else {
        chars.len()
    };
    let mut n: usize = 0;
    let mut i: usize = 0;
    while i < stop
        invariant
            chars@ == input@,
            i <= stop <= chars.len(),
            n == newlines(input@.take(i as int)),
            n <= i,
        decreases stop - i,
    {
        assert(input@.take(i as int + 1).drop_last() =~= input@.take(i as int));
        if chars[i] == '\n' {
            n += 1;
        }
        i += 1;
    }
    n + 1
}

/// Trim `line` to a readable width around `column`, with the column the caret
/// sits at within what is left.
fn window(line: &str, column: usize) -> (r: (String, usize))
    requires
        column + 3 <= usize::MAX,
    ensures
        r.0@ == windowed(line@, column as int).0,
        r.1 == windowed(line@, column as int).1,
{
    let chars = chars_of(line);
    let n: usize = chars.len();
    if n <= MAX_CONTEXT_WIDTH {
        return (line.to_owned(), column);
    }
    let wanted: usize = if column >= 50 {
        column - 50
    } else {
        0
    };
    let end: usize = if wanted <= n - MAX_CONTEXT_WIDTH {
        wanted + MAX_CONTEXT_WIDTH
    } else {
        n
    };
    let start: usize = end - MAX_CONTEXT_WIDTH;
    let mut shown = String::new();
    let mut caret: usize = column - start;
    proof {
        reveal_strlit("...");
    }
    if start > 0 {
        shown.append("...");
        caret += 3;
    }
    shown.append(string_of(&chars, start, end).as_str());
    if end < n {
        shown.append("...");
    }
    assert(shown@ =~= windowed(line@, column as int).0);
    (shown, caret)
}

/// A run of spaces.
pub open spec fn blank(n: nat) -> Seq<char> {
    Seq::new(n, |i: int| ' ')
}

pub(crate) fn spaces(n: usize) -> (r: String)
    ensures
        r@ == blank(n as nat),
{
    let mut r = String::new();
    let mut i: usize = 0;
    while i < n
        invariant
            i <= n,
            r@ == blank(i as nat),
        decreases n - i,
    {
        r.push(' ');
        i += 1;
        assert(r@ =~= blank(i as nat));
    }
    r
}

// ---------------------------------------------------------------------------
// Telling an error
// ---------------------------------------------------------------------------

/// The code of an error.
pub open spec fn failure_code(e: Failure) -> Code {
    match e {
        Failure::Parse { .. } => Code::ParseError,
        Failure::UnknownFunction { .. } => Code::UnknownFunction,
        Failure::InvalidRegex { .. } => Code::InvalidRegex,
        Failure::InvalidGlob { .. } => Code::InvalidGlob,
        Failure::UnknownId { .. } => Code::UnknownId,
        Failure::AmbiguousId { .. } => Code::AmbiguousId,
        Failure::InvalidArgument { .. } => Code::InvalidArgument,
        Failure::SemanticFeatureRequired { .. } => Code::SemanticFeatureRequired,
    }
}

/// An error in words.
pub open spec fn failure_text(e: Failure) -> Seq<char> {
    match e {
        Failure::Parse { message, .. } => message,
        Failure::UnknownFunction { name } => "unknown function '"@ + name + "'"@,
        Failure::InvalidRegex { pattern, reason } => "invalid regex '"@ + pattern + "': "@ + reason,
        Failure::InvalidGlob { pattern, reason } => "invalid glob '"@ + pattern + "': "@ + reason,
        Failure::UnknownId { id } => "hunk id '"@ + id
            + "' matches no hunk in this diff -- ids change when the hunk's content or its file changes, so one copied from an earlier listing may be stale. Run 'list' again for the current ids."@,
        Failure::AmbiguousId { prefix, candidates } => "hunk id '"@ + prefix
            + "' is ambiguous -- it matches "@ + decimal(candidates.len()) + " hunks: "@ + joined(
            candidate_texts(candidates),
            ", "@,
        ) + ". Use more characters, or exact:\"<full-id>\"."@,
        Failure::InvalidArgument { func, value, valid } => func + "() does not accept '"@ + value
            + "' -- valid values are: "@ + valid,
        Failure::SemanticFeatureRequired { name } => name
            + "() requires the 'semantic' feature (build with --features semantic)"@,
    }
}

/// An error with a caret under the place it is about, where it has one.
pub open spec fn failure_in_context(e: Failure) -> Seq<char> {
    match e {
        Failure::Parse { message, input, position } => {
            let (shown, caret) = windowed(line_at(input, position), column_at(input, position));
            shown + "\n"@ + blank(caret as nat) + "^\n"@ + message
        },
        _ => failure_text(e),
    }
}

pub open spec fn candidate_node(c: CandidateView) -> NodeView {
    NodeView::Object(seq![("path"@, text_node(c.path)), ("short_id"@, text_node(c.short_id))])
}

/// The parts of an error that a caller can act on.
pub open spec fn failure_facts(e: Failure) -> Map<Seq<char>, NodeView> {
    let none = Map::<Seq<char>, NodeView>::empty();
    match e {
        Failure::Parse { input, position, .. } => none.insert("input"@, text_node(input)).insert(
            "position"@,
            number_node(position as nat),
        ).insert("line"@, number_node(line_number_at(input, position))).insert(
            "column"@,
            number_node(column_at(input, position) as nat),
        ),
        Failure::UnknownFunction { name } => none.insert("function"@, text_node(name)),
        Failure::InvalidRegex { pattern, reason } => none.insert(
            "pattern"@,
            text_node(pattern),
        ).insert("reason"@, text_node(reason)),
        Failure::InvalidGlob { pattern, reason } => none.insert(
            "pattern"@,
            text_node(pattern),
        ).insert("reason"@, text_node(reason)),
        Failure::UnknownId { id } => none.insert("id"@, text_node(id)),
        Failure::AmbiguousId { prefix, candidates } => none.insert(
            "prefix"@,
            text_node(prefix),
        ).insert("count"@, number_node(candidates.len())).insert(
            "candidates"@,
            NodeView::Array(Seq::new(candidates.len(), |i: int| candidate_node(candidates[i]))),
        ),
        Failure::InvalidArgument { func, value, valid } => none.insert(
            "function"@,
            text_node(func),
        ).insert("value"@, text_node(value)).insert("valid"@, text_node(valid)),
        Failure::SemanticFeatureRequired { name } => none.insert("predicate"@, text_node(name)),
    }
}

fn candidates_node(candidates: &Vec<IdCandidate>) -> (r: Node)
    ensures
        r.shape() == NodeView::Array(
            Seq::new(candidates@.len(), |i: int| candidate_node(deep(candidates@)[i])),
        ),
{
    let mut items: Vec<Node> = Vec::new();
    let mut i: usize = 0;
    while i < candidates.len()
        invariant
            i <= candidates.len(),
            items@.len() == i,
            forall|j: int|
                0 <= j < i ==> (#[trigger] items@[j]).shape() == candidate_node(
                    candidates@[j].deep_view(),
                ),
        decreases candidates.len() - i,
    {
        let c = &candidates[i];
        let mut entries: Vec<(String, Node)> = Vec::new();
        entries.push(("path".to_owned(), Node::text(c.path.as_str())));
        entries.push(("short_id".to_owned(), Node::text(c.short_id.as_str())));
        let item = Node::Object(entries);
        assert(item.shape()->Object_0 =~= candidate_node(c.deep_view())->Object_0);
        items.push(item);
        i += 1;
    }
    let r = Node::Array(items);
    assert(r.shape()->Array_0 =~= Seq::new(
        candidates@.len(),
        |i: int| candidate_node(deep(candidates@)[i]),
    ));
    r
}

impl HunksetError {
    /// Whether the input of a parse error leaves room to count its lines.
    pub open spec fn countable(&self) -> bool {
        match self {
            HunksetError::Parse { input, .. } => input@.len() + 3 <= usize::MAX,
            _ => true,
        }
    }

    /// The stable code a caller branches on.
    pub fn code(&self) -> (r: ErrorCode)
        ensures
            r.is_of(failure_code(self.deep_view())),
    {
        match self {
            HunksetError::Parse { .. } => ErrorCode::new(Code::ParseError),
            HunksetError::UnknownFunction { .. } => ErrorCode::new(Code::UnknownFunction),
            HunksetError::InvalidRegex { .. } => ErrorCode::new(Code::InvalidRegex),
            HunksetError::InvalidGlob { .. } => ErrorCode::new(Code::InvalidGlob),
            HunksetError::UnknownId { .. } => ErrorCode::new(Code::UnknownId),
            HunksetError::AmbiguousId { .. } => ErrorCode::new(Code::AmbiguousId),
            HunksetError::InvalidArgument { .. } => ErrorCode::new(Code::InvalidArgument),
            HunksetError::SemanticFeatureRequired { .. } => ErrorCode::new(
                Code::SemanticFeatureRequired,
            ),
        }
    }

    /// The parts of the failure that a caller can act on.
    pub fn details(&self) -> (r: NameMap<Node>)
        requires
            self.countable(),
        ensures
            shapes(r@) == failure_facts(self.deep_view()),
    {
        broadcast use {lemma_shapes_insert, lemma_shapes_empty};

        let mut details: NameMap<Node> = NameMap::new();
        match self {
            HunksetError::Parse { input, position, .. } => {
                let (_, column) = locate(input.as_str(), *position);
                details.insert("input".to_owned(), Node::text(input.as_str()));
                details.insert("position".to_owned(), Node::number(*position));
                details.insert(
                    "line".to_owned(),
                    Node::number(line_number(input.as_str(), *position)),
                );
                details.insert("column".to_owned(), Node::number(column));
            },
            HunksetError::UnknownFunction { name } => {
                details.insert("function".to_owned(), Node::text(name.as_str()));
            },
            HunksetError::InvalidRegex { pattern, reason } => {
                details.insert("pattern".to_owned(), Node::text(pattern.as_str()));
                details.insert("reason".to_owned(), Node::text(reason.as_str()));
            },
            HunksetError::InvalidGlob { source } => {
                details.insert("pattern".to_owned(), Node::text(source.pattern()));
                details.insert("reason".to_owned(), Node::text(source.reason()));
            },
            HunksetError::UnknownId { id } => {
                details.insert("id".to_owned(), Node::text(id.as_str()));
            },
            HunksetError::AmbiguousId { prefix, candidates } => {
                details.insert("prefix".to_owned(), Node::text(prefix.as_str()));
                details.insert("count".to_owned(), Node::number(candidates.len()));
                details.insert("candidates".to_owned(), candidates_node(candidates));
                proof {
                    let views = deep(candidates@);
                    assert(Seq::new(candidates@.len(), |i: int| candidate_node(views[i]))
                        =~= Seq::new(views.len(), |i: int| candidate_node(views[i])));
                }
            },
            HunksetError::InvalidArgument { func, value, valid } => {
                details.insert("function".to_owned(), Node::text(func.as_str()));
                details.insert("value".to_owned(), Node::text(value.as_str()));
                details.insert("valid".to_owned(), Node::text(valid.as_str()));
            },
            HunksetError::SemanticFeatureRequired { name } => {
                details.insert("predicate".to_owned(), Node::text(name.as_str()));
            },
        }
        details
    }

    /// Carry this error's code and details up under another message.
    pub fn coded(&self, message: String) -> (r: CodedError)
        requires
            self.countable(),
        ensures
            r.code.is_of(failure_code(self.deep_view())),
            r.message == message,
            shapes(r.details@) == failure_facts(self.deep_view()),
    {
        CodedError::new(self.code(), message).with_details(self.details())
    }

    /// The error in words.
    pub fn message(&self) -> (r: String)
        ensures
            r@ == failure_text(self.deep_view()),
    {
        match self {
            HunksetError::Parse { message, .. } => message.clone(),
            HunksetError::UnknownFunction { name } => concat3(
                "unknown function '",
                name.as_str(),
                "'",
            ),
            HunksetError::InvalidRegex { pattern, reason } => {
                let mut out = "invalid regex '".to_owned();
                out.append(pattern.as_str());
                out.append("': ");
                out.append(reason.as_str());
                out
            },
            HunksetError::InvalidGlob { source } => source.message(),
            HunksetError::UnknownId { id } => concat3(
                "hunk id '",
                id.as_str(),
                "' matches no hunk in this diff -- ids change when the hunk's content or its file changes, so one copied from an earlier listing may be stale. Run 'list' again for the current ids.",
            ),
            HunksetError::AmbiguousId { prefix, candidates } => {
                let mut out = "hunk id '".to_owned();
                out.append(prefix.as_str());
                out.append("' is ambiguous -- it matches ");
                out.append(number(candidates.len()).as_str());
                out.append(" hunks: ");
                out.append(render_candidates(candidates).as_str());
                out.append(". Use more characters, or exact:\"<full-id>\".");
                out
            },
            HunksetError::InvalidArgument { func, value, valid } => {
                let mut out = func.clone();
                out.append("() does not accept '");
                out.append(value.as_str());
                out.append("' -- valid values are: ");
                out.append(valid.as_str());
                out
            },
            HunksetError::SemanticFeatureRequired { name } => {
                let mut out = name.clone();
                out.append("() requires the 'semantic' feature (build with --features semantic)");
                out
            },
        }
    }

    /// Format the error with a caret pointing at the position in the input.
    pub fn display_with_context(&self) -> (r: String)
        requires
            self.countable(),
        ensures
            r@ == failure_in_context(self.deep_view()),
    {
        match self {
            HunksetError::Parse { message, input, position } => {
                let (line, column) = locate(input.as_str(), *position);
                proof {
                    lemma_line_start(input@, within(input@, *position as int));
                }
                let (shown, caret) = window(line.as_str(), column);
                let mut out = shown;
                out.append("\n");
                out.append(spaces(caret).as_str());
                out.append("^\n");
                out.append(message.as_str());
                out
            },
            _ => self.message(),
        }
    }
}

proof fn lemma_without_returns(s: Seq<char>)
    ensures
        without_returns(s).len() <= s.len(),
        without_returns(s) == s.take(without_returns(s).len() as int),
        forall|i: int| without_returns(s).len() <= i < s.len() ==> #[trigger] s[i] == '\r',
    decreases s.len(),
{
    if s.len() > 0 && s.last() == '\r' {
        let rest = s.drop_last();
        lemma_without_returns(rest);
        let n = without_returns(rest).len() as int;
        assert(s.take(n) =~= rest.take(n));
        assert forall|i: int| n <= i < s.len() implies #[trigger] s[i] == '\r' by {
            if i < rest.len() {
                assert(rest[i] == '\r');
            }
        }
    } else {
        assert(s.take(s.len() as int) =~= s);
    }
}

/// A caret is put under the character that a position points at: the line that is
/// shown is the one that holds it, without its end, and has it in the column that
/// is told. The line's number is how many newlines are in front of it, and one.
pub proof fn a_caret_points_at_its_character(s: Seq<char>, position: int)
    requires
        0 <= position < s.len(),
        s[position] != '\n',
        s[position] != '\r',
    ensures
        0 <= column_at(s, position) < line_at(s, position).len(),
        line_at(s, position)[column_at(s, position)] == s[position],
        !line_at(s, position).contains('\n'),
        position - column_at(s, position) == 0 || s[position - column_at(s, position) - 1] == '\n',
        line_number_at(s, position) == newlines(s.take(position)) + 1,
{
    let start = line_start(s, position);
    lemma_line_start(s, position);
    lemma_line_behind_newline(s, position);
    crate::text::lemma_next_at(s, '\n', start);
    let end = next_at(s, '\n', start);
    let whole = s.subrange(start, end);
    assert(end > position) by {
        if end <= position {
            assert(s[end] == '\n');
        }
    }
    lemma_without_returns(whole);
    let shown = without_returns(whole);
    assert(whole[position - start] == s[position]);
    assert(position - start < shown.len());
    assert(shown[position - start] == whole[position - start]);
    assert forall|i: int| 0 <= i < shown.len() implies #[trigger] shown[i] != '\n' by {
        assert(shown[i] == whole[i]);
        assert(whole[i] == s[start + i]);
    }
}

proof fn lemma_line_behind_newline(s: Seq<char>, position: int)
    requires
        0 <= position <= s.len(),
    ensures
        line_start(s, position) == 0 || s[line_start(s, position) - 1] == '\n',
    decreases position,
{
    if position > 0 && s[position - 1] != '\n' {
        lemma_line_behind_newline(s, position - 1);
    }
}

/// Whether two failures are of one kind.
pub open spec fn same_kind(a: Failure, b: Failure) -> bool {
    match (a, b) {
        (Failure::Parse { .. }, Failure::Parse { .. }) => true,
        (Failure::UnknownFunction { .. }, Failure::UnknownFunction { .. }) => true,
        (Failure::InvalidRegex { .. }, Failure::InvalidRegex { .. }) => true,
        (Failure::InvalidGlob { .. }, Failure::InvalidGlob { .. }) => true,
        (Failure::UnknownId { .. }, Failure::UnknownId { .. }) => true,
        (Failure::AmbiguousId { .. }, Failure::AmbiguousId { .. }) => true,
        (Failure::InvalidArgument { .. }, Failure::InvalidArgument { .. }) => true,
        (
            Failure::SemanticFeatureRequired { .. },
            Failure::SemanticFeatureRequired { .. },
        ) => true,
        _ => false,
    }
}

/// A code tells the kind of a failure: two failures have one code exactly where
/// they are of one kind.
pub proof fn a_code_tells_the_kind_of_a_failure(a: Failure, b: Failure)
    ensures
        failure_code(a) == failure_code(b) <==> same_kind(a, b),
{
}

/// The facts of a failure hold all that it says: failures of one kind with the same
/// facts are the same failure, but for the words on what cannot be read.
pub proof fn facts_hold_all_of_a_failure(a: Failure, b: Failure)
    requires
        same_kind(a, b),
        failure_facts(a) == failure_facts(b),
    ensures
        match (a, b) {
            (
                Failure::Parse { input, position, .. },
                Failure::Parse { input: other, position: at, .. },
            ) => input == other && (position >= 0 && at >= 0 ==> position == at),
            _ => a == b,
        },
{
    let x = failure_facts(a);
    let y = failure_facts(b);
    lemma_fact_names();
    match (a, b) {
        (
            Failure::Parse { input, position, .. },
            Failure::Parse { input: other, position: at, .. },
        ) => {
            assert(x["input"@] == text_node(input) && y["input"@] == text_node(other));
            assert(x["position"@] == number_node(position as nat));
            assert(y["position"@] == number_node(at as nat));
            crate::hunkset::parser::digits_spell_the_number(position as nat);
            crate::hunkset::parser::digits_spell_the_number(at as nat);
        },
        (Failure::UnknownFunction { name }, Failure::UnknownFunction { name: other }) => {
            assert(x["function"@] == text_node(name) && y["function"@] == text_node(other));
        },
        (
            Failure::InvalidRegex { pattern, reason },
            Failure::InvalidRegex { pattern: p, reason: r },
        ) => {
            assert(x["pattern"@] == text_node(pattern) && y["pattern"@] == text_node(p));
            assert(x["reason"@] == text_node(reason) && y["reason"@] == text_node(r));
        },
        (
            Failure::InvalidGlob { pattern, reason },
            Failure::InvalidGlob { pattern: p, reason: r },
        ) => {
            assert(x["pattern"@] == text_node(pattern) && y["pattern"@] == text_node(p));
            assert(x["reason"@] == text_node(reason) && y["reason"@] == text_node(r));
        },
        (Failure::UnknownId { id }, Failure::UnknownId { id: other }) => {
            assert(x["id"@] == text_node(id) && y["id"@] == text_node(other));
        },
        (
            Failure::AmbiguousId { prefix, candidates },
            Failure::AmbiguousId { prefix: p, candidates: c },
        ) => {
            assert(x["prefix"@] == text_node(prefix) && y["prefix"@] == text_node(p));
            let nodes = Seq::new(candidates.len(), |i: int| candidate_node(candidates[i]));
            let others = Seq::new(c.len(), |i: int| candidate_node(c[i]));
            assert(x["candidates"@] == NodeView::Array(nodes));
            assert(y["candidates"@] == NodeView::Array(others));
            assert(nodes.len() == others.len());
            assert forall|i: int| 0 <= i < candidates.len() implies candidates[i] == c[i] by {
                assert(nodes[i] == others[i]);
                let one = seq![
                    ("path"@, text_node(candidates[i].path)),
                    ("short_id"@, text_node(candidates[i].short_id)),
                ];
                let two = seq![
                    ("path"@, text_node(c[i].path)),
                    ("short_id"@, text_node(c[i].short_id)),
                ];
                assert(one == two);
                assert(one[0] == two[0] && one[1] == two[1]);
            }
            assert(candidates =~= c);
        },
        (
            Failure::InvalidArgument { func, value, valid },
            Failure::InvalidArgument { func: f, value: v, valid: w },
        ) => {
            assert(x["function"@] == text_node(func) && y["function"@] == text_node(f));
            assert(x["value"@] == text_node(value) && y["value"@] == text_node(v));
            assert(x["valid"@] == text_node(valid) && y["valid"@] == text_node(w));
        },
        (
            Failure::SemanticFeatureRequired { name },
            Failure::SemanticFeatureRequired { name: other },
        ) => {
            assert(x["predicate"@] == text_node(name) && y["predicate"@] == text_node(other));
        },
        _ => {},
    }
}

proof fn lemma_fact_names()
    ensures
        "input"@.len() == 5,
        "position"@.len() == 8,
        "line"@.len() == 4,
        "column"@.len() == 6,
        "pattern"@.len() == 7,
        "reason"@.len() == 6,
        "prefix"@.len() == 6,
        "count"@.len() == 5,
        "candidates"@.len() == 10,
        "function"@.len() == 8,
        "value"@ != "valid"@,
        "value"@.len() == 5,
        "valid"@.len() == 5,
{
    reveal_strlit("input");
    reveal_strlit("position");
    reveal_strlit("line");
    reveal_strlit("column");
    reveal_strlit("pattern");
    reveal_strlit("reason");
    reveal_strlit("prefix");
    reveal_strlit("count");
    reveal_strlit("candidates");
    reveal_strlit("function");
    reveal_strlit("value");
    reveal_strlit("valid");
    assert("value"@[3] == 'u' && "valid"@[3] == 'i');
}

/// What is shown of a long line starts where it shows fifty characters in front of
/// the place, or all there are; more only where the line ends before the width is
/// used up.
pub proof fn a_window_shows_what_leads_to_the_place(n: int, column: int)
    requires
        0 <= column <= n,
    ensures
        ({
            let from = window_start(n, column);
            &&& 0 <= from <= column
            &&& column < 50 ==> from == 0
            &&& column >= 50 ==> column - from >= 50
            &&& column - from > 50 ==> from == 0 || from + MAX_CONTEXT_WIDTH == n
        }),
{
}

} // verus!
