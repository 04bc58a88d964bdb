//! What a program may know of this tool: the language that selects hunks, the
//! codes of errors, and the commands.
//!
//! The split of the predicates into classes is what matters most. A predicate
//! about files reaches every change, also one that has no hunks: a binary, a
//! rename, a mode. A predicate about content reaches none of those, whatever its
//! arguments.

use crate::errors::{all_codes, category_of, spelling_of, ErrorCode};
use crate::hunkset::ast::{ArgView, PatternKind, PatternView};
use crate::hunkset::error::Failure;
use crate::hunkset::eval::{
    about_files, arg_shape, args_failure, assumed_kind, call_failure, call_outcome, default_kind,
    enum_failure, failed,
    find_predicate, holds, is_semantic, number_value, patterns_of, predicate_named, status_values,
    type_values, valid_statuses, valid_types, ArgShape, EntryView, Predicate,
};
use crate::hunkset::pattern::first_refusal;
use crate::text::{deep, group_deep, list_contains, same};
use vstd::prelude::*;

verus! {

/// The version of the shape of what is told. It changes where something is taken
/// away, renamed, or comes to mean something else.
pub const SCHEMA_VERSION: u32 = 1;

pub const FILE_CLASS: &'static str = "Reads only file-level facts -- path, status, the shape of the change. Reaches every change in the diff, including the ones that produced no hunks at all: binaries, pure renames, mode-only flips, retargeted symlinks, empty adds and removes.";

pub const CONTENT_CLASS: &'static str = "Reads the diffed text or its line numbers. A change with no hunks has no diffed text, so no argument makes one of these match it. A selection built only from content predicates silently leaves such changes behind, at exit 0.";

pub const SEMANTIC_CLASS: &'static str = "Content-level, plus tree-sitter metadata: everything said about content applies. Additionally needs the 'semantic' feature (see build.semantic) and returns nothing for files no bundled parser can read.";

pub const ALL_SUMMARY: &'static str = "Every change in the diff, including changes that produced no hunks.";

pub const NONE_SUMMARY: &'static str = "Nothing at all. Useful as an explicit empty selection.";

pub const NEGATION_SUMMARY: &'static str = "Every change the operand does not match. Note that this reaches hunkless changes even when the operand cannot: ~content(\"x\") selects every binary and every pure rename in the diff.";

pub const DIFFERENCE_SUMMARY: &'static str = "Changes matched by the left side and not the right. Chaining needs parentheses.";

pub const FILE_SUMMARY: &'static str = "Match a change by path, on either side of a rename. Defaults to exact matching.";

pub const GLOB_SUMMARY: &'static str = "Match a change by path, on either side of a rename. Defaults to glob matching.";

pub const EXTENSION_SUMMARY: &'static str = "Match a change by file extension, on either side of a rename. Write it without the dot.";

pub const STATUS_SUMMARY: &'static str = "Match a change by what happened to the file as a whole.";

pub const TYPE_SUMMARY: &'static str = "Match a change by the shape of its edit.";

pub const CONTENT_SUMMARY: &'static str = "Match a hunk whose added or removed text matches. Defaults to substring matching.";

pub const ADDED_SUMMARY: &'static str = "Match a hunk whose added text matches. Defaults to substring matching.";

pub const REMOVED_SUMMARY: &'static str = "Match a hunk whose removed text matches. Defaults to substring matching.";

pub const LINES_SUMMARY: &'static str = "Match a hunk touching the given line numbers on either side of the diff.";

pub const BEFORE_LINE_SUMMARY: &'static str = "Match a hunk touching the given line numbers on the before side.";

pub const AFTER_LINE_SUMMARY: &'static str = "Match a hunk touching the given line numbers on the after side.";

pub const ID_SUMMARY: &'static str = "Match one hunk by its stable id, or by an unambiguous prefix of it. An id naming no hunk, or more than one, is an error rather than an empty result.";

pub const FUNCTION_SUMMARY: &'static str = "Match a hunk inside a named function. Defaults to exact matching.";

pub const SCOPE_SUMMARY: &'static str = "Match a hunk inside a named class, module or other enclosing scope. Defaults to exact matching.";

pub const ANNOTATION_SUMMARY: &'static str = "Match a hunk carrying an attribute or decorator; with no argument, any at all.";

pub const DECORATOR_SUMMARY: &'static str = "An alias for annotation().";

pub const DOC_SUMMARY: &'static str = "Match a hunk inside a documentation comment.";

pub const IMPORT_SUMMARY: &'static str = "Match a hunk inside an import or use declaration.";

pub const TOPLEVEL_SUMMARY: &'static str = "Match a hunk at the top level of a file some bundled parser could read.";

pub const DEPTH_SUMMARY: &'static str = "Match a hunk by its nesting depth in a file some bundled parser could read.";

// ---------------------------------------------------------------------------
// Predicates
// ---------------------------------------------------------------------------

/// What is to be said of one predicate beyond what its evaluation says.
#[derive(Debug)]
pub struct PredicateFacts {
    pub name: &'static str,
    pub summary: &'static str,
}

/// Every predicate's name with what it does, by class.
pub open spec fn facts() -> Seq<(Seq<char>, Seq<char>)> {
    seq![
        ("file"@, FILE_SUMMARY@),
        ("glob"@, GLOB_SUMMARY@),
        ("extension"@, EXTENSION_SUMMARY@),
        ("status"@, STATUS_SUMMARY@),
        ("type"@, TYPE_SUMMARY@),
        ("content"@, CONTENT_SUMMARY@),
        ("added"@, ADDED_SUMMARY@),
        ("removed"@, REMOVED_SUMMARY@),
        ("lines"@, LINES_SUMMARY@),
        ("before_line"@, BEFORE_LINE_SUMMARY@),
        ("after_line"@, AFTER_LINE_SUMMARY@),
        ("id"@, ID_SUMMARY@),
        ("function"@, FUNCTION_SUMMARY@),
        ("scope"@, SCOPE_SUMMARY@),
        ("annotation"@, ANNOTATION_SUMMARY@),
        ("decorator"@, DECORATOR_SUMMARY@),
        ("doc"@, DOC_SUMMARY@),
        ("import"@, IMPORT_SUMMARY@),
        ("toplevel"@, TOPLEVEL_SUMMARY@),
        ("depth"@, DEPTH_SUMMARY@),
    ]
}

pub open spec fn facts_of(list: Seq<PredicateFacts>) -> Seq<(Seq<char>, Seq<char>)> {
    Seq::new(list.len(), |i: int| (list[i].name@, list[i].summary@))
}

/// Every predicate, by class.
pub fn predicate_facts() -> (r: Vec<PredicateFacts>)
    ensures
        facts_of(r@) == facts(),
{
    let mut r: Vec<PredicateFacts> = Vec::new();
    r.push(PredicateFacts { name: "file", summary: FILE_SUMMARY });
    r.push(PredicateFacts { name: "glob", summary: GLOB_SUMMARY });
    r.push(PredicateFacts { name: "extension", summary: EXTENSION_SUMMARY });
    r.push(PredicateFacts { name: "status", summary: STATUS_SUMMARY });
    r.push(PredicateFacts { name: "type", summary: TYPE_SUMMARY });
    r.push(PredicateFacts { name: "content", summary: CONTENT_SUMMARY });
    r.push(PredicateFacts { name: "added", summary: ADDED_SUMMARY });
    r.push(PredicateFacts { name: "removed", summary: REMOVED_SUMMARY });
    r.push(PredicateFacts { name: "lines", summary: LINES_SUMMARY });
    r.push(PredicateFacts { name: "before_line", summary: BEFORE_LINE_SUMMARY });
    r.push(PredicateFacts { name: "after_line", summary: AFTER_LINE_SUMMARY });
    r.push(PredicateFacts { name: "id", summary: ID_SUMMARY });
    r.push(PredicateFacts { name: "function", summary: FUNCTION_SUMMARY });
    r.push(PredicateFacts { name: "scope", summary: SCOPE_SUMMARY });
    r.push(PredicateFacts { name: "annotation", summary: ANNOTATION_SUMMARY });
    r.push(PredicateFacts { name: "decorator", summary: DECORATOR_SUMMARY });
    r.push(PredicateFacts { name: "doc", summary: DOC_SUMMARY });
    r.push(PredicateFacts { name: "import", summary: IMPORT_SUMMARY });
    r.push(PredicateFacts { name: "toplevel", summary: TOPLEVEL_SUMMARY });
    r.push(PredicateFacts { name: "depth", summary: DEPTH_SUMMARY });
    assert(facts_of(r@) =~= facts());
    r
}

/// Whether a predicate can select a change that has no hunks.
pub open spec fn reaches(name: Seq<char>) -> bool {
    predicate_named(name) matches Some(p) && about_files(p)
}

/// Whether a predicate needs code analysis.
pub open spec fn needs_analysis(name: Seq<char>) -> bool {
    predicate_named(name) matches Some(p) && is_semantic(p)
}

pub fn reaches_hunkless(name: &str) -> (r: bool)
    ensures
        r == reaches(name@),
{
    match find_predicate(name) {
        Some(Predicate::Path) | Some(Predicate::Extension) | Some(Predicate::Status) | Some(
            Predicate::Type,
        ) => true,
        _ => false,
    }
}

pub fn needs_semantic(name: &str) -> (r: bool)
    ensures
        r == needs_analysis(name@),
{
    match find_predicate(name) {
        Some(Predicate::Function) | Some(Predicate::Scope) | Some(Predicate::Annotation) | Some(
            Predicate::Doc,
        ) | Some(Predicate::Import) | Some(Predicate::Toplevel) | Some(Predicate::Depth) => true,
        _ => false,
    }
}

/// The class of a predicate.
pub open spec fn class_name(name: Seq<char>) -> Seq<char> {
    if needs_analysis(name) {
        "semantic"@
    } else if reaches(name) {
        "file"@
    } else {
        "content"@
    }
}

/// The class of a predicate.
pub fn class_of(name: &str) -> (r: &'static str)
    ensures
        r@ == class_name(name@),
{
    if needs_semantic(name) {
        "semantic"
    } else if reaches_hunkless(name) {
        "file"
    } else {
        "content"
    }
}

/// How many arguments a shape takes, and of what kind.
pub open spec fn shape_words(shape: ArgShape) -> (Seq<char>, Seq<char>) {
    match shape {
        ArgShape::NoArguments => ("none"@, "none"@),
        ArgShape::Patterns => ("one_or_more"@, "pattern"@),
        ArgShape::Numeric => ("one_or_more"@, "number_or_range"@),
        ArgShape::OptionalPatterns => ("zero_or_more"@, "pattern"@),
    }
}

/// How many arguments a predicate takes, and of what kind.
pub fn shape_of(name: &str) -> (r: (&'static str, &'static str))
    ensures
        (r.0@, r.1@) == shape_words(crate::hunkset::eval::shape_of(name@)),
{
    match arg_shape(name) {
        ArgShape::NoArguments => ("none", "none"),
        ArgShape::Patterns => ("one_or_more", "pattern"),
        ArgShape::Numeric => ("one_or_more", "number_or_range"),
        ArgShape::OptionalPatterns => ("zero_or_more", "pattern"),
    }
}

pub open spec fn kind_word(kind: PatternKind) -> Seq<char> {
    match kind {
        PatternKind::Exact => "exact"@,
        PatternKind::Substring => "substring"@,
        PatternKind::Glob => "glob"@,
        PatternKind::Regex => "regex"@,
    }
}

/// What a kind of pattern is called.
pub fn kind_name(kind: PatternKind) -> (r: &'static str)
    ensures
        r@ == kind_word(kind),
{
    match kind {
        PatternKind::Exact => "exact",
        PatternKind::Substring => "substring",
        PatternKind::Glob => "glob",
        PatternKind::Regex => "regex",
    }
}

/// Every kind that may stand in front of a pattern.
pub open spec fn all_prefixes() -> Seq<Seq<char>> {
    seq!["exact"@, "substring"@, "glob"@, "regex"@]
}

/// Every kind that may stand in front of a pattern.
pub fn pattern_prefixes() -> (r: Vec<String>)
    ensures
        deep(r@) == all_prefixes(),
{
    let mut r: Vec<String> = Vec::new();
    r.push("exact".to_owned());
    r.push("substring".to_owned());
    r.push("glob".to_owned());
    r.push("regex".to_owned());
    assert(deep(r@) =~= all_prefixes());
    r
}

/// The kinds that may stand in front of a predicate's arguments.
pub open spec fn prefixes_of(name: Seq<char>, argument: Seq<char>) -> Seq<Seq<char>> {
    if argument != "pattern"@ {
        Seq::empty()
    } else if name == "id"@ {
        seq!["exact"@]
    } else {
        all_prefixes()
    }
}

/// The kinds that may stand in front of a predicate's arguments.
///
/// A number has none, and an id is looked up and not matched with, so that only
/// `exact` says something of it.
pub fn prefixes_for(name: &str, argument: &str) -> (r: Vec<String>)
    ensures
        deep(r@) == prefixes_of(name@, argument@),
{
    broadcast use group_deep;

    if !same(argument, "pattern") {
        Vec::new()
    } else if same(name, "id") {
        let mut r: Vec<String> = Vec::new();
        r.push("exact".to_owned());
        assert(deep(r@) =~= seq!["exact"@]);
        r
    } else {
        pattern_prefixes()
    }
}

/// The values that a predicate's arguments are held to.
pub open spec fn values_of(name: Seq<char>) -> Option<Seq<Seq<char>>> {
    if name == "status"@ {
        Some(valid_statuses())
    } else if name == "type"@ {
        Some(valid_types())
    } else {
        None
    }
}

/// The values that a predicate's arguments are held to, where they are to any.
pub fn values_for(name: &str) -> (r: Option<Vec<String>>)
    ensures
        match r {
            Some(values) => values_of(name@) == Some(deep(values@)),
            None => values_of(name@) is None,
        },
{
    if same(name, "status") {
        Some(status_values())
    } else if same(name, "type") {
        Some(type_values())
    } else {
        None
    }
}

/// What is told of one predicate.
#[derive(Debug)]
pub struct PredicateEntry {
    pub name: &'static str,
    pub class: &'static str,
    pub reaches_hunkless_changes: bool,
    pub arity: &'static str,
    pub argument: &'static str,
    pub pattern_prefixes: Vec<String>,
    pub default_pattern_kind: Option<&'static str>,
    pub values: Option<Vec<String>>,
    pub available: bool,
    pub requires_feature: Option<&'static str>,
    pub summary: &'static str,
}

#[verifier::ext_equal]
pub struct PredicateView {
    pub name: Seq<char>,
    pub class: Seq<char>,
    pub reaches_hunkless_changes: bool,
    pub arity: Seq<char>,
    pub argument: Seq<char>,
    pub pattern_prefixes: Seq<Seq<char>>,
    pub default_pattern_kind: Option<Seq<char>>,
    pub values: Option<Seq<Seq<char>>>,
    pub available: bool,
    pub requires_feature: Option<Seq<char>>,
    pub summary: Seq<char>,
}

impl DeepView for PredicateEntry {
    type V = PredicateView;

    open spec fn deep_view(&self) -> PredicateView {
        PredicateView {
            name: self.name@,
            class: self.class@,
            reaches_hunkless_changes: self.reaches_hunkless_changes,
            arity: self.arity@,
            argument: self.argument@,
            pattern_prefixes: deep(self.pattern_prefixes@),
            default_pattern_kind: match self.default_pattern_kind {
                Some(kind) => Some(kind@),
                None => None,
            },
            values: match self.values {
                Some(values) => Some(deep(values@)),
                None => None,
            },
            available: self.available,
            requires_feature: match self.requires_feature {
                Some(feature) => Some(feature@),
                None => None,
            },
            summary: self.summary@,
        }
    }
}

/// What is told of a predicate, where analysis is in or is not.
pub open spec fn predicate_view(
    name: Seq<char>,
    summary: Seq<char>,
    semantic: bool,
) -> PredicateView {
    let (arity, argument) = shape_words(crate::hunkset::eval::shape_of(name));
    PredicateView {
        name,
        class: class_name(name),
        reaches_hunkless_changes: reaches(name),
        arity,
        argument,
        pattern_prefixes: prefixes_of(name, argument),
        default_pattern_kind: match assumed_kind(name) {
            Some(kind) => Some(kind_word(kind)),
            None => None,
        },
        values: values_of(name),
        available: !needs_analysis(name) || semantic,
        requires_feature: if needs_analysis(name) {
            Some("semantic"@)
        } else {
            None
        },
        summary,
    }
}

pub open spec fn predicate_views(semantic: bool) -> Seq<PredicateView> {
    Seq::new(facts().len(), |i: int| predicate_view(facts()[i].0, facts()[i].1, semantic))
}

fn describe(facts: &PredicateFacts, semantic: bool) -> (r: PredicateEntry)
    ensures
        r.deep_view() == predicate_view(facts.name@, facts.summary@, semantic),
{
    let (arity, argument) = shape_of(facts.name);
    let needs = needs_semantic(facts.name);
    let default_pattern_kind = match default_kind(facts.name) {
        Some(kind) => Some(kind_name(kind)),
        None => None,
    };
    PredicateEntry {
        name: facts.name,
        class: class_of(facts.name),
        reaches_hunkless_changes: reaches_hunkless(facts.name),
        arity,
        argument,
        pattern_prefixes: prefixes_for(facts.name, argument),
        default_pattern_kind,
        values: values_for(facts.name),
        available: !needs || semantic,
        requires_feature: if needs {
            Some("semantic")
        } else {
            None
        },
        summary: facts.summary,
    }
}

/// What is told of the predicates, where analysis is in or is not.
pub fn predicates(semantic: bool) -> (r: Vec<PredicateEntry>)
    ensures
        deep(r@) == predicate_views(semantic),
{
    let list = predicate_facts();
    let mut r: Vec<PredicateEntry> = Vec::new();
    let mut i: usize = 0;
    while i < list.len()
        invariant
            facts_of(list@) == facts(),
            i <= list.len(),
            r@.len() == i,
            forall|j: int|
                0 <= j < i ==> (#[trigger] r@[j]).deep_view() == predicate_views(semantic)[j],
        decreases list.len() - i,
    {
        assert(facts_of(list@)[i as int] == facts()[i as int]);
        r.push(describe(&list[i], semantic));
        i += 1;
    }
    assert(list@.len() == facts().len());
    assert(deep(r@) =~= predicate_views(semantic));
    r
}

// ---------------------------------------------------------------------------
// The rest of the language
// ---------------------------------------------------------------------------

/// One class of predicates.
#[derive(Debug)]
pub struct ClassEntry {
    pub name: &'static str,
    pub reaches_hunkless_changes: bool,
    pub description: &'static str,
}

/// One of the words that stand alone.
#[derive(Debug)]
pub struct ConstantEntry {
    pub name: &'static str,
    pub reaches_hunkless_changes: bool,
    pub summary: &'static str,
}

/// One operator. Its symbol alone does not name it: one symbol is both infix and
/// prefix.
#[derive(Debug)]
pub struct OperatorEntry {
    pub symbol: &'static str,
    pub position: &'static str,
    pub name: &'static str,
    pub description: &'static str,
}

/// One error code.
#[derive(Debug)]
pub struct ErrorEntry {
    pub code: &'static str,
    pub category: &'static str,
}

pub open spec fn class_entries() -> Seq<(Seq<char>, bool, Seq<char>)> {
    seq![
        ("file"@, true, FILE_CLASS@),
        ("content"@, false, CONTENT_CLASS@),
        ("semantic"@, false, SEMANTIC_CLASS@),
    ]
}

pub open spec fn classes_of(list: Seq<ClassEntry>) -> Seq<(Seq<char>, bool, Seq<char>)> {
    Seq::new(
        list.len(),
        |i: int| (list[i].name@, list[i].reaches_hunkless_changes, list[i].description@),
    )
}

pub fn classes() -> (r: Vec<ClassEntry>)
    ensures
        classes_of(r@) == class_entries(),
{
    let mut r: Vec<ClassEntry> = Vec::new();
    r.push(ClassEntry { name: "file", reaches_hunkless_changes: true, description: FILE_CLASS });
    r.push(
        ClassEntry { name: "content", reaches_hunkless_changes: false, description: CONTENT_CLASS },
    );
    r.push(
        ClassEntry {
            name: "semantic",
            reaches_hunkless_changes: false,
            description: SEMANTIC_CLASS,
        },
    );
    assert(classes_of(r@) =~= class_entries());
    r
}

pub open spec fn constant_entries() -> Seq<(Seq<char>, bool, Seq<char>)> {
    seq![("all"@, true, ALL_SUMMARY@), ("none"@, false, NONE_SUMMARY@)]
}

pub open spec fn constants_of(list: Seq<ConstantEntry>) -> Seq<(Seq<char>, bool, Seq<char>)> {
    Seq::new(
        list.len(),
        |i: int| (list[i].name@, list[i].reaches_hunkless_changes, list[i].summary@),
    )
}

pub fn constants() -> (r: Vec<ConstantEntry>)
    ensures
        constants_of(r@) == constant_entries(),
{
    let mut r: Vec<ConstantEntry> = Vec::new();
    r.push(ConstantEntry { name: "all", reaches_hunkless_changes: true, summary: ALL_SUMMARY });
    r.push(ConstantEntry { name: "none", reaches_hunkless_changes: false, summary: NONE_SUMMARY });
    assert(constants_of(r@) =~= constant_entries());
    r
}

pub open spec fn operator_entries() -> Seq<(Seq<char>, Seq<char>, Seq<char>, Seq<char>)> {
    seq![
        ("|"@, "infix"@, "union"@, "Changes matched by either side."@),
        ("&"@, "infix"@, "intersection"@, "Changes matched by both sides."@),
        ("~"@, "infix"@, "difference"@, DIFFERENCE_SUMMARY@),
        ("~"@, "prefix"@, "negation"@, NEGATION_SUMMARY@),
    ]
}

pub open spec fn operators_of(list: Seq<OperatorEntry>) -> Seq<
    (Seq<char>, Seq<char>, Seq<char>, Seq<char>),
> {
    Seq::new(
        list.len(),
        |i: int| (list[i].symbol@, list[i].position@, list[i].name@, list[i].description@),
    )
}

pub fn operators() -> (r: Vec<OperatorEntry>)
    ensures
        operators_of(r@) == operator_entries(),
{
    let mut r: Vec<OperatorEntry> = Vec::new();
    r.push(
        OperatorEntry {
            symbol: "|",
            position: "infix",
            name: "union",
            description: "Changes matched by either side.",
        },
    );
    r.push(
        OperatorEntry {
            symbol: "&",
            position: "infix",
            name: "intersection",
            description: "Changes matched by both sides.",
        },
    );
    r.push(
        OperatorEntry {
            symbol: "~",
            position: "infix",
            name: "difference",
            description: DIFFERENCE_SUMMARY,
        },
    );
    r.push(
        OperatorEntry {
            symbol: "~",
            position: "prefix",
            name: "negation",
            description: NEGATION_SUMMARY,
        },
    );
    assert(operators_of(r@) =~= operator_entries());
    r
}

pub open spec fn errors_of(list: Seq<ErrorEntry>) -> Seq<(Seq<char>, Seq<char>)> {
    Seq::new(list.len(), |i: int| (list[i].code@, list[i].category@))
}

pub open spec fn error_entries() -> Seq<(Seq<char>, Seq<char>)> {
    Seq::new(
        all_codes().len(),
        |i: int| (spelling_of(all_codes()[i]), category_of(all_codes()[i])),
    )
}

pub fn errors() -> (r: Vec<ErrorEntry>)
    ensures
        errors_of(r@) == error_entries(),
{
    let all = ErrorCode::all();
    let mut r: Vec<ErrorEntry> = Vec::new();
    let mut i: usize = 0;
    while i < all.len()
        invariant
            i <= all.len(),
            r@.len() == i,
            forall|j: int| 0 <= j < all@.len() ==> (#[trigger] all@[j]).is_of(all_codes()[j]),
            forall|j: int|
                0 <= j < i ==> (#[trigger] r@[j]).code@ == spelling_of(all_codes()[j])
                    && r@[j].category@ == category_of(all_codes()[j]),
        decreases all.len() - i,
    {
        assert(all@[i as int].is_of(all_codes()[i as int]));
        r.push(ErrorEntry { code: all[i].code, category: all[i].category });
        i += 1;
    }
    assert(errors_of(r@) =~= error_entries());
    r
}

// ---------------------------------------------------------------------------
// Commands
// ---------------------------------------------------------------------------

/// What the command line knows of one command: its name, what it does, and the
/// names of its arguments.
#[derive(Debug)]
pub struct CommandFacts {
    pub name: String,
    pub about: Option<String>,
    pub arguments: Vec<String>,
}

/// What is told of one command.
#[derive(Debug)]
pub struct CommandEntry {
    pub name: String,
    pub summary: Option<String>,
    /// Whether it takes a selection.
    pub accepts_selection: bool,
    /// Whether it may refuse one that is empty.
    pub has_allow_empty: bool,
    /// Whether its outcome can be read before it writes.
    pub has_dry_run: bool,
}

/// Tell of one command what its arguments say.
pub fn command(facts: CommandFacts) -> (r: CommandEntry)
    ensures
        ({
            let arguments = deep(facts.arguments@);
            &&& r.name == facts.name
            &&& r.summary == facts.about
            &&& r.accepts_selection == (arguments.contains("spec"@) || arguments.contains(
                "spec_file"@,
            ))
            &&& r.has_allow_empty == arguments.contains("allow_empty"@)
            &&& r.has_dry_run == arguments.contains("dry_run"@)
        }),
{
    let accepts_selection = list_contains(&facts.arguments, "spec") || list_contains(
        &facts.arguments,
        "spec_file",
    );
    let has_allow_empty = list_contains(&facts.arguments, "allow_empty");
    let has_dry_run = list_contains(&facts.arguments, "dry_run");
    CommandEntry {
        name: facts.name,
        summary: facts.about,
        accepts_selection,
        has_allow_empty,
        has_dry_run,
    }
}

// ---------------------------------------------------------------------------
// What holds of what is told
// ---------------------------------------------------------------------------

/// Whether a predicate is told of.
pub open spec fn is_told(name: Seq<char>) -> bool {
    exists|i: int| 0 <= i < facts().len() && (#[trigger] facts()[i]).0 == name
}

/// What is told of is what can be called: every predicate that is evaluated, and
/// none besides.
pub proof fn every_predicate_is_told_of(name: Seq<char>)
    ensures
        is_told(name) <==> predicate_named(name) is Some,
{
    let list = facts();
    assert(list[0].0 == "file"@);
    assert(list[1].0 == "glob"@);
    assert(list[2].0 == "extension"@);
    assert(list[3].0 == "status"@);
    assert(list[4].0 == "type"@);
    assert(list[5].0 == "content"@);
    assert(list[6].0 == "added"@);
    assert(list[7].0 == "removed"@);
    assert(list[8].0 == "lines"@);
    assert(list[9].0 == "before_line"@);
    assert(list[10].0 == "after_line"@);
    assert(list[11].0 == "id"@);
    assert(list[12].0 == "function"@);
    assert(list[13].0 == "scope"@);
    assert(list[14].0 == "annotation"@);
    assert(list[15].0 == "decorator"@);
    assert(list[16].0 == "doc"@);
    assert(list[17].0 == "import"@);
    assert(list[18].0 == "toplevel"@);
    assert(list[19].0 == "depth"@);
    if is_told(name) {
        assert(predicate_named(name) is Some);
    }
}

/// A predicate that is told not to reach changes without hunks does not, whatever
/// its arguments.
pub proof fn what_does_not_reach_selects_no_stand_in(
    name: Seq<char>,
    patterns: Seq<PatternView>,
    ranges: Seq<(usize, usize)>,
    e: EntryView,
)
    requires
        is_told(name),
        !reaches(name),
        e.stand_in,
    ensures
        predicate_named(name) matches Some(p) && !holds(p, patterns, ranges, e),
{
    every_predicate_is_told_of(name);
    crate::hunkset::eval::a_stand_in_has_no_content_to_match(
        predicate_named(name)->0,
        patterns,
        ranges,
        e,
    );
}

/// A predicate that is told to be unavailable is refused for that, where there is
/// nothing else to refuse it for.
pub proof fn what_is_unavailable_is_refused(
    name: Seq<char>,
    args: Seq<ArgView>,
    entries: Seq<EntryView>,
    summary: Seq<char>,
)
    requires
        !predicate_view(name, summary, false).available,
        args_failure(name, args) is None,
        first_refusal(patterns_of(name, args)) is None,
    ensures
        call_outcome(name, args, entries, false) == failed(
            Failure::SemanticFeatureRequired { name },
        ),
{
}

/// Where analysis is in, everything is available, and what needs it is not
/// refused where its arguments are accepted.
pub proof fn with_analysis_everything_is_available(
    name: Seq<char>,
    args: Seq<ArgView>,
    entries: Seq<EntryView>,
    summary: Seq<char>,
)
    requires
        needs_analysis(name),
        args_failure(name, args) is None,
        first_refusal(patterns_of(name, args)) is None,
    ensures
        predicate_view(name, summary, true).available,
        call_outcome(name, args, entries, true).result is Ok,
{
}

/// What is told of a predicate's arguments, how many it takes and of what kind, is
/// what decides whether those of a call are accepted.
pub proof fn arguments_are_accepted_as_told(
    name: Seq<char>,
    args: Seq<ArgView>,
    summary: Seq<char>,
    semantic: bool,
)
    requires
        is_told(name),
    ensures
        ({
            let told = predicate_view(name, summary, semantic);
            args_failure(name, args) is None <==> {
                &&& told.arity == "none"@ ==> args.len() == 0
                &&& told.arity == "one_or_more"@ ==> args.len() > 0
                &&& forall|i: int|
                    0 <= i < args.len() ==> match #[trigger] args[i] {
                        ArgView::Pattern(p) => told.argument == "pattern"@ || (told.argument
                            == "number_or_range"@ && number_value(p.value) is Some),
                        ArgView::Range(from, to) => told.argument == "number_or_range"@ && from
                            <= to,
                    }
            }
        }),
{
    every_predicate_is_told_of(name);
    reveal_strlit("none");
    reveal_strlit("one_or_more");
    reveal_strlit("zero_or_more");
    reveal_strlit("pattern");
    reveal_strlit("number_or_range");
    assert("none"@.len() == 4 && "one_or_more"@.len() == 11 && "zero_or_more"@.len() == 12);
    assert("pattern"@.len() == 7 && "number_or_range"@.len() == 15);
    crate::hunkset::eval::every_argument_is_checked(name, true, args);
    crate::hunkset::eval::every_argument_is_checked(name, false, args);
}

/// Where it is told which values a predicate takes, a call whose arguments are
/// accepted otherwise is refused exactly where one of them is none of those.
pub proof fn values_are_accepted_as_told(
    name: Seq<char>,
    args: Seq<ArgView>,
    entries: Seq<EntryView>,
    summary: Seq<char>,
    semantic: bool,
)
    requires
        is_told(name),
        args_failure(name, args) is None,
        first_refusal(patterns_of(name, args)) is None,
    ensures
        predicate_view(name, summary, semantic).values matches Some(values) ==> (call_outcome(
            name,
            args,
            entries,
            semantic,
        ).result is Ok <==> forall|i: int|
            0 <= i < patterns_of(name, args).len() ==> values.contains(
                (#[trigger] patterns_of(name, args)[i]).value,
            )),
{
    crate::hunkset::eval::only_values_there_are_are_accepted(
        name,
        patterns_of(name, args),
        valid_statuses(),
    );
    crate::hunkset::eval::only_values_there_are_are_accepted(
        name,
        patterns_of(name, args),
        valid_types(),
    );
    reveal_strlit("status");
    reveal_strlit("type");
    reveal_strlit("file");
    reveal_strlit("glob");
    reveal_strlit("extension");
    assert("status"@.len() == 6 && "type"@.len() == 4);
    assert("type"@[0] == 't' && "file"@[0] == 'f' && "glob"@[0] == 'g');
    assert(name == "status"@ ==> predicate_named(name) == Some(Predicate::Status));
    assert(name == "type"@ ==> predicate_named(name) == Some(Predicate::Type));
    assert(name == "status"@ || name == "type"@ ==> call_failure(
        name,
        patterns_of(name, args),
        entries,
        semantic,
    ) == enum_failure(
        name,
        patterns_of(name, args),
        if name == "status"@ {
            valid_statuses()
        } else {
            valid_types()
        },
    ));
}

/// What is told of a class is what is told of each predicate in it: whether it
/// reaches changes that have no hunks.
pub proof fn a_class_tells_of_its_predicates(name: Seq<char>, i: int)
    requires
        is_told(name),
        0 <= i < class_entries().len(),
        class_entries()[i].0 == class_name(name),
    ensures
        class_entries()[i].1 <==> reaches(name),
{
    every_predicate_is_told_of(name);
    reveal_strlit("file");
    reveal_strlit("content");
    reveal_strlit("semantic");
    assert("file"@.len() == 4 && "content"@.len() == 7 && "semantic"@.len() == 8);
}

/// There is a class to be told of for every predicate.
pub proof fn every_predicate_is_in_a_class(name: Seq<char>)
    ensures
        exists|i: int|
            0 <= i < class_entries().len() && (#[trigger] class_entries()[i]).0 == class_name(name),
{
    assert(class_entries()[0].0 == "file"@);
    assert(class_entries()[1].0 == "content"@);
    assert(class_entries()[2].0 == "semantic"@);
}

} // verus!
