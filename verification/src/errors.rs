//! Stable, machine-readable failure codes.
//!
//! Each failure carries a code and the facts that would otherwise have to be
//! read out of its message. The code says what went wrong; the facts say what to
//! do about it.

use crate::names::NameMap;
use crate::node::{Node, NodeView};
use vstd::prelude::*;

verus! {

/// How a failure is rendered.
#[derive(Debug, Clone, Copy, PartialEq, Eq, Structural)]
pub enum ErrorFormat {
    /// `Error: <prose>`.
    Human,
    /// One JSON object, one line: `{"error", "code", "message", "details"}`.
    Json,
}

impl Default for ErrorFormat {
    fn default() -> (r: ErrorFormat)
        ensures
            r == ErrorFormat::Human,
    {
        ErrorFormat::Human
    }
}

/// A stable code and the coarse category it belongs to.
#[derive(Debug, Clone, Copy, PartialEq, Eq)]
pub struct ErrorCode {
    pub category: &'static str,
    pub code: &'static str,
}

/// The codes there are. Their spellings are what callers branch on.
#[derive(Debug, Clone, Copy, PartialEq, Eq, Structural)]
pub enum Code {
    /// The expression is not syntactically a hunkset.
    ParseError,
    /// A predicate name the language does not have.
    UnknownFunction,
    /// A predicate was given a value or an argument shape it does not accept.
    InvalidArgument,
    /// A glob pattern that does not compile.
    InvalidGlob,
    /// A regex pattern that does not compile.
    InvalidRegex,
    /// `id()` named a hunk this diff does not contain.
    UnknownId,
    /// `id()` named an abbreviation that reaches more than one hunk.
    AmbiguousId,
    /// A semantic predicate was used in a build without semantic analysis.
    SemanticFeatureRequired,
    /// The selection resolved, and keeps nothing.
    EmptySelection,
    /// A spec names a path, id or index the diff does not contain.
    PathNotInDiff,
    /// A revset jj could not resolve, or that resolved to nothing.
    RevsetUnresolved,
    /// A revset that resolved to more than the one revision a diff needs.
    RevsetAmbiguous,
    /// A spec template was asked for over files that were cut short, whose ids
    /// would name nothing in the real diff.
    TruncatedSpecTemplate,
    /// A spec key (or a rename `from`) that names a path this workspace cannot
    /// contain.
    PathOutsideWorkspace,
    /// `--fields` named something that is no field of a listing.
    InvalidFields,
    /// Anything not given a code.
    Unknown,
}

pub open spec fn category_of(code: Code) -> Seq<char> {
    match code {
        Code::ParseError => "parse"@,
        Code::UnknownFunction => "selection"@,
        Code::InvalidArgument => "selection"@,
        Code::InvalidGlob => "selection"@,
        Code::InvalidRegex => "selection"@,
        Code::UnknownId => "selection"@,
        Code::AmbiguousId => "selection"@,
        Code::SemanticFeatureRequired => "selection"@,
        Code::EmptySelection => "selection"@,
        Code::PathNotInDiff => "selection"@,
        Code::RevsetUnresolved => "revset"@,
        Code::RevsetAmbiguous => "revset"@,
        Code::TruncatedSpecTemplate => "usage"@,
        Code::PathOutsideWorkspace => "usage"@,
        Code::InvalidFields => "usage"@,
        Code::Unknown => "internal"@,
    }
}

pub open spec fn spelling_of(code: Code) -> Seq<char> {
    match code {
        Code::ParseError => "PARSE_ERROR"@,
        Code::UnknownFunction => "UNKNOWN_FUNCTION"@,
        Code::InvalidArgument => "INVALID_ARGUMENT"@,
        Code::InvalidGlob => "INVALID_GLOB"@,
        Code::InvalidRegex => "INVALID_REGEX"@,
        Code::UnknownId => "UNKNOWN_ID"@,
        Code::AmbiguousId => "AMBIGUOUS_ID"@,
        Code::SemanticFeatureRequired => "SEMANTIC_FEATURE_REQUIRED"@,
        Code::EmptySelection => "EMPTY_SELECTION"@,
        Code::PathNotInDiff => "PATH_NOT_IN_DIFF"@,
        Code::RevsetUnresolved => "REVSET_UNRESOLVED"@,
        Code::RevsetAmbiguous => "REVSET_AMBIGUOUS"@,
        Code::TruncatedSpecTemplate => "TRUNCATED_SPEC_TEMPLATE"@,
        Code::PathOutsideWorkspace => "PATH_OUTSIDE_WORKSPACE"@,
        Code::InvalidFields => "INVALID_FIELDS"@,
        Code::Unknown => "UNKNOWN"@,
    }
}

/// Every code, in the order they are published in.
pub open spec fn all_codes() -> Seq<Code> {
    seq![
        Code::ParseError,
        Code::UnknownFunction,
        Code::InvalidArgument,
        Code::InvalidGlob,
        Code::InvalidRegex,
        Code::UnknownId,
        Code::AmbiguousId,
        Code::SemanticFeatureRequired,
        Code::EmptySelection,
        Code::PathNotInDiff,
        Code::RevsetUnresolved,
        Code::RevsetAmbiguous,
        Code::TruncatedSpecTemplate,
        Code::PathOutsideWorkspace,
        Code::InvalidFields,
        Code::Unknown,
    ]
}

impl ErrorCode {
    /// Whether this is the spelling and the category of a code.
    pub open spec fn is_of(&self, code: Code) -> bool {
        self.category@ == category_of(code) && self.code@ == spelling_of(code)
    }

    /// A code with its category.
    pub fn new(code: Code) -> (r: ErrorCode)
        ensures
            r.is_of(code),
    {
        match code {
            Code::ParseError => ErrorCode { category: "parse", code: "PARSE_ERROR" },
            Code::UnknownFunction => ErrorCode { category: "selection", code: "UNKNOWN_FUNCTION" },
            Code::InvalidArgument => ErrorCode { category: "selection", code: "INVALID_ARGUMENT" },
            Code::InvalidGlob => ErrorCode { category: "selection", code: "INVALID_GLOB" },
            Code::InvalidRegex => ErrorCode { category: "selection", code: "INVALID_REGEX" },
            Code::UnknownId => ErrorCode { category: "selection", code: "UNKNOWN_ID" },
            Code::AmbiguousId => ErrorCode { category: "selection", code: "AMBIGUOUS_ID" },
            Code::SemanticFeatureRequired => ErrorCode { category: "selection", code: "SEMANTIC_FEATURE_REQUIRED" },
            Code::EmptySelection => ErrorCode { category: "selection", code: "EMPTY_SELECTION" },
            Code::PathNotInDiff => ErrorCode { category: "selection", code: "PATH_NOT_IN_DIFF" },
            Code::RevsetUnresolved => ErrorCode { category: "revset", code: "REVSET_UNRESOLVED" },
            Code::RevsetAmbiguous => ErrorCode { category: "revset", code: "REVSET_AMBIGUOUS" },
            Code::TruncatedSpecTemplate => ErrorCode { category: "usage", code: "TRUNCATED_SPEC_TEMPLATE" },
            Code::PathOutsideWorkspace => ErrorCode { category: "usage", code: "PATH_OUTSIDE_WORKSPACE" },
            Code::InvalidFields => ErrorCode { category: "usage", code: "INVALID_FIELDS" },
            Code::Unknown => ErrorCode { category: "internal", code: "UNKNOWN" },
        }
    }

    /// Every code, in the order they are published in.
    pub fn all() -> (r: Vec<ErrorCode>)
        ensures
            r@.len() == all_codes().len(),
            forall|i: int| 0 <= i < r@.len() ==> (#[trigger] r@[i]).is_of(all_codes()[i]),
    {
        let mut r: Vec<ErrorCode> = Vec::new();
        r.push(ErrorCode::new(Code::ParseError));
        r.push(ErrorCode::new(Code::UnknownFunction));
        r.push(ErrorCode::new(Code::InvalidArgument));
        r.push(ErrorCode::new(Code::InvalidGlob));
        r.push(ErrorCode::new(Code::InvalidRegex));
        r.push(ErrorCode::new(Code::UnknownId));
        r.push(ErrorCode::new(Code::AmbiguousId));
        r.push(ErrorCode::new(Code::SemanticFeatureRequired));
        r.push(ErrorCode::new(Code::EmptySelection));
        r.push(ErrorCode::new(Code::PathNotInDiff));
        r.push(ErrorCode::new(Code::RevsetUnresolved));
        r.push(ErrorCode::new(Code::RevsetAmbiguous));
        r.push(ErrorCode::new(Code::TruncatedSpecTemplate));
        r.push(ErrorCode::new(Code::PathOutsideWorkspace));
        r.push(ErrorCode::new(Code::InvalidFields));
        r.push(ErrorCode::new(Code::Unknown));
        r
    }
}

/// No two codes are spelled the same, and every code is published.
pub proof fn codes_are_distinct_and_published(a: Code, b: Code)
    ensures
        spelling_of(a) == spelling_of(b) ==> a == b,
        all_codes().contains(a),
{
    reveal_strlit("PARSE_ERROR");
    reveal_strlit("UNKNOWN_FUNCTION");
    reveal_strlit("INVALID_ARGUMENT");
    reveal_strlit("INVALID_GLOB");
    reveal_strlit("INVALID_REGEX");
    reveal_strlit("UNKNOWN_ID");
    reveal_strlit("AMBIGUOUS_ID");
    reveal_strlit("SEMANTIC_FEATURE_REQUIRED");
    reveal_strlit("EMPTY_SELECTION");
    reveal_strlit("PATH_NOT_IN_DIFF");
    reveal_strlit("REVSET_UNRESOLVED");
    reveal_strlit("REVSET_AMBIGUOUS");
    reveal_strlit("TRUNCATED_SPEC_TEMPLATE");
    reveal_strlit("PATH_OUTSIDE_WORKSPACE");
    reveal_strlit("INVALID_FIELDS");
    reveal_strlit("UNKNOWN");
    match a {
        Code::ParseError => assert(all_codes()[0] == a),
        Code::UnknownFunction => assert(all_codes()[1] == a),
        Code::InvalidArgument => assert(all_codes()[2] == a),
        Code::InvalidGlob => assert(all_codes()[3] == a),
        Code::InvalidRegex => assert(all_codes()[4] == a),
        Code::UnknownId => assert(all_codes()[5] == a),
        Code::AmbiguousId => assert(all_codes()[6] == a),
        Code::SemanticFeatureRequired => assert(all_codes()[7] == a),
        Code::EmptySelection => assert(all_codes()[8] == a),
        Code::PathNotInDiff => assert(all_codes()[9] == a),
        Code::RevsetUnresolved => assert(all_codes()[10] == a),
        Code::RevsetAmbiguous => assert(all_codes()[11] == a),
        Code::TruncatedSpecTemplate => assert(all_codes()[12] == a),
        Code::PathOutsideWorkspace => assert(all_codes()[13] == a),
        Code::InvalidFields => assert(all_codes()[14] == a),
        Code::Unknown => assert(all_codes()[15] == a),
    }
    if spelling_of(a) == spelling_of(b) {
        assert(spelling_of(a).len() == spelling_of(b).len());
        let x = spelling_of(a);
        let y = spelling_of(b);
        assert(x[0] == y[0] && x[1] == y[1] && x[2] == y[2] && x[3] == y[3] && x[4] == y[4] && x[5]
            == y[5]);
        assert(x[x.len() - 1] == y[y.len() - 1] && x[x.len() - 2] == y[y.len() - 2]);
    }
}

// ---------------------------------------------------------------------------
// Errors with a code
// ---------------------------------------------------------------------------

/// A failure that knows its own code.
#[derive(Debug)]
pub struct CodedError {
    pub code: ErrorCode,
    pub message: String,
    pub details: NameMap<Node>,
}

/// The shapes of the values of a map.
pub open spec fn shapes(m: Map<Seq<char>, Node>) -> Map<Seq<char>, NodeView> {
    Map::new(|k: Seq<char>| m.dom().contains(k), |k: Seq<char>| m[k].shape())
}

pub broadcast proof fn lemma_shapes_insert(m: Map<Seq<char>, Node>, k: Seq<char>, v: Node)
    ensures
        #[trigger] shapes(m.insert(k, v)) == shapes(m).insert(k, v.shape()),
{
    assert(shapes(m.insert(k, v)) =~= shapes(m).insert(k, v.shape()));
}

pub broadcast proof fn lemma_shapes_empty(m: Map<Seq<char>, Node>)
    requires
        m == Map::<Seq<char>, Node>::empty(),
    ensures
        #[trigger] shapes(m) == Map::<Seq<char>, NodeView>::empty(),
{
    assert(shapes(m) =~= Map::<Seq<char>, NodeView>::empty());
}

pub broadcast group group_shapes {
    lemma_shapes_insert,
    lemma_shapes_empty,
}

/// An error as its contents.
#[verifier::ext_equal]
pub struct CodedView {
    pub code: Code,
    pub message: Seq<char>,
    pub details: Map<Seq<char>, NodeView>,
}

impl CodedError {
    /// Whether this is the error with some contents.
    pub open spec fn tells(&self, view: CodedView) -> bool {
        &&& self.code.is_of(view.code)
        &&& self.message@ == view.message
        &&& shapes(self.details@) == view.details
    }

    pub fn new(code: ErrorCode, message: String) -> (r: CodedError)
        ensures
            r.code == code,
            r.message == message,
            r.details@ == Map::<Seq<char>, Node>::empty(),
    {
        CodedError { code, message, details: NameMap::new() }
    }

    /// Attach one machine-actionable fact, in place of one under the same key.
    pub fn with(self, key: &str, value: Node) -> (r: CodedError)
        ensures
            r.code == self.code,
            r.message == self.message,
            r.details@ == self.details@.insert(key@, value),
    {
        let mut details = self.details;
        details.insert(key.to_owned(), value);
        CodedError { code: self.code, message: self.message, details }
    }

    /// Attach a whole prepared bag in place of what was there.
    pub fn with_details(self, details: NameMap<Node>) -> (r: CodedError)
        ensures
            r.code == self.code,
            r.message == self.message,
            r.details == details,
    {
        CodedError { code: self.code, message: self.message, details }
    }
}

/// What a failure is reported as, in the order of its fields.
#[derive(Debug)]
pub struct Payload {
    pub error: &'static str,
    pub code: &'static str,
    pub message: String,
    pub details: NameMap<Node>,
}

/// The report of a failure: the code and the facts of the first link of its
/// chain that has them, or the code that stands for none.
///
/// `message` is the text that is shown where no structure is asked for, so
/// asking for it loses nothing.
pub fn payload(coded: Option<CodedError>, message: String) -> (r: Payload)
    ensures
        r.message == message,
        match coded {
            Some(e) => r.error == e.code.category && r.code == e.code.code && r.details
                == e.details,
            None => r.error@ == category_of(Code::Unknown) && r.code@ == spelling_of(Code::Unknown)
                && r.details@ == Map::<Seq<char>, Node>::empty(),
        },
{
    match coded {
        Some(e) => Payload {
            error: e.code.category,
            code: e.code.code,
            message,
            details: e.details,
        },
        None => {
            let code = ErrorCode::new(Code::Unknown);
            Payload {
                error: code.category,
                code: code.code,
                message,
                details: NameMap::new(),
            }
        },
    }
}

} // verus!
