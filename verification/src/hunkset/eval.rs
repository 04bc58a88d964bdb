//! Which hunks an expression selects.

use super::ast::{Arg, ArgView, Expr, ExprView, PatternKind, PatternView, StringPattern};
use super::error::{CandidateView, Failure, HunksetError, IdCandidate};
use super::parser::{digits_value, is_digit, parse_digits};
use super::pattern::{
    any_match, any_matches, compile_patterns, first_refusal, kind_text, pattern_matches,
    CompiledPattern,
};
use crate::diff::{
    a_written_id_is_normal, full_id, normal_id, normalize_hunk_id, Hunk, HunkView, LineRange,
    HUNK_ID_PREFIX,
};
use crate::names::{
    deep_map, distinct, lemma_deep_map_insert, sort, sorted, without_repeats, NameMap,
};
use crate::spec::{DefaultAction, FileSpec, FileSpecView, HunkSpec, HunkSpecView, Spec};
use crate::text::{
    begins_with, chars_of, concat3, decimal, deep, group_deep, join, joined, number, same,
    split_at_char, split_char, starts_with, string_of,
};
use std::collections::HashSet;
use vstd::prelude::*;

verus! {

broadcast use vstd::std_specs::hash::group_hash_axioms;

// ---------------------------------------------------------------------------
// Entries
// ---------------------------------------------------------------------------

/// A hunk with its file-level context.
///
/// Most entries are hunks of a diff. The rest stand in for one change each that
/// has no hunks, so that a predicate about files has something to name the file
/// by; [`EnrichedHunk::content`] tells the two apart.
#[derive(Debug)]
pub struct EnrichedHunk<'a> {
    /// Where the file is now, on the right side of the diff: what the file is
    /// named by.
    pub file_path: &'a str,
    rename_source: Option<&'a str>,
    pub file_status: &'a str,
    hunk: &'a Hunk,
    is_stand_in: bool,
}

/// An entry as its contents.
#[verifier::ext_equal]
pub struct EntryView {
    pub path: Seq<char>,
    /// Where the file was on the left side, where a rename or a copy moved it.
    pub from: Option<Seq<char>>,
    pub status: Seq<char>,
    pub hunk: HunkView,
    pub stand_in: bool,
}

impl<'a> DeepView for EnrichedHunk<'a> {
    type V = EntryView;

    closed spec fn deep_view(&self) -> EntryView {
        EntryView {
            path: self.file_path@,
            from: optional_text(self.rename_source),
            status: self.file_status@,
            hunk: self.hunk.deep_view(),
            stand_in: self.is_stand_in,
        }
    }
}

pub open spec fn optional_text(text: Option<&str>) -> Option<Seq<char>> {
    match text {
        Some(t) => Some(t@),
        None => None,
    }
}

/// The paths an entry may be matched by: where the file is now, and where it
/// came from.
pub open spec fn paths_of(e: EntryView) -> Seq<Seq<char>> {
    match e.from {
        Some(from) => seq![e.path, from],
        None => seq![e.path],
    }
}

impl<'a> EnrichedHunk<'a> {
    /// An entry for a hunk of a diff.
    pub fn from_diff(
        file_path: &'a str,
        rename_source: Option<&'a str>,
        file_status: &'a str,
        hunk: &'a Hunk,
    ) -> (r: EnrichedHunk<'a>)
        ensures
            r.deep_view() == (EntryView {
                path: file_path@,
                from: optional_text(rename_source),
                status: file_status@,
                hunk: hunk.deep_view(),
                stand_in: false,
            }),
    {
        EnrichedHunk { file_path, rename_source, file_status, hunk, is_stand_in: false }
    }

    /// An entry for a change with no hunks, standing in for the whole file.
    pub fn stand_in(
        file_path: &'a str,
        rename_source: Option<&'a str>,
        file_status: &'a str,
        hunk: &'a Hunk,
    ) -> (r: EnrichedHunk<'a>)
        ensures
            r.deep_view() == (EntryView {
                path: file_path@,
                from: optional_text(rename_source),
                status: file_status@,
                hunk: hunk.deep_view(),
                stand_in: true,
            }),
    {
        EnrichedHunk { file_path, rename_source, file_status, hunk, is_stand_in: true }
    }

    /// Every path this change may be matched by: where the file is now, and
    /// where it came from if it was renamed or copied.
    pub fn all_paths(&self) -> (r: Vec<&'a str>)
        ensures
            r@.len() == paths_of(self.deep_view()).len(),
            forall|i: int| 0 <= i < r@.len() ==> (#[trigger] r@[i])@ == paths_of(self.deep_view())[i],
    {
        let mut paths: Vec<&'a str> = Vec::new();
        paths.push(self.file_path);
        if let Some(from) = self.rename_source {
            paths.push(from);
        }
        paths
    }

    /// The hunk whose text this entry may be matched by; nothing for a stand-in,
    /// behind which nothing was diffed.
    pub fn content(&self) -> (r: Option<&'a Hunk>)
        ensures
            match r {
                Some(hunk) => !self.deep_view().stand_in && hunk.deep_view()
                    == self.deep_view().hunk,
                None => self.deep_view().stand_in,
            },
    {
        if self.is_stand_in {
            None
        } else {
            Some(self.hunk)
        }
    }

    /// What happened to the file as a whole. Answered for a stand-in too.
    pub fn change_type(&self) -> (r: &'a str)
        ensures
            r@ == self.deep_view().hunk.hunk_type,
    {
        self.hunk.hunk_type.as_str()
    }

    /// The id this entry contributes to a spec once it has been selected.
    pub fn id(&self) -> (r: &'a str)
        ensures
            r@ == self.deep_view().hunk.id,
    {
        self.hunk.id.as_str()
    }

    /// The abbreviated id, for naming a hunk in a message.
    pub fn short_id(&self) -> (r: &'a str)
        ensures
            r@ == self.deep_view().hunk.short_id,
    {
        self.hunk.short_id.as_str()
    }
}

// ---------------------------------------------------------------------------
// Predicates and their arguments
// ---------------------------------------------------------------------------

/// Which side of a change a predicate looks at.
#[derive(Debug, Clone, Copy, PartialEq, Eq, Structural)]
pub enum Side {
    Before,
    After,
    Either,
}

/// What a predicate looks at.
#[derive(Debug, Clone, Copy, PartialEq, Eq, Structural)]
pub enum Predicate {
    Path,
    Extension,
    Status,
    Type,
    Lines(Side),
    Content(Side),
    Id,
    Function,
    Scope,
    Annotation,
    Doc,
    Import,
    Toplevel,
    Depth,
}

/// What shape of arguments a predicate accepts.
#[derive(Debug, Clone, Copy, PartialEq, Eq, Structural)]
pub enum ArgShape {
    /// At least one pattern, no ranges.
    Patterns,
    /// At least one number or range. `lines(2)` is accepted as `2..2`.
    Numeric,
    /// No arguments at all.
    NoArguments,
    /// Any number of patterns; none has its own meaning.
    OptionalPatterns,
}

/// The predicate with a name.
pub open spec fn predicate_named(name: Seq<char>) -> Option<Predicate> {
    if name == "file"@ || name == "glob"@ {
        Some(Predicate::Path)
    } else if name == "extension"@ {
        Some(Predicate::Extension)
    } else if name == "status"@ {
        Some(Predicate::Status)
    } else if name == "type"@ {
        Some(Predicate::Type)
    } else if name == "lines"@ {
        Some(Predicate::Lines(Side::Either))
    } else if name == "before_line"@ {
        Some(Predicate::Lines(Side::Before))
    } else if name == "after_line"@ {
        Some(Predicate::Lines(Side::After))
    } else if name == "content"@ {
        Some(Predicate::Content(Side::Either))
    } else if name == "added"@ {
        Some(Predicate::Content(Side::After))
    } else if name == "removed"@ {
        Some(Predicate::Content(Side::Before))
    } else if name == "id"@ {
        Some(Predicate::Id)
    } else if name == "function"@ {
        Some(Predicate::Function)
    } else if name == "scope"@ {
        Some(Predicate::Scope)
    } else if name == "annotation"@ || name == "decorator"@ {
        Some(Predicate::Annotation)
    } else if name == "doc"@ {
        Some(Predicate::Doc)
    } else if name == "import"@ {
        Some(Predicate::Import)
    } else if name == "toplevel"@ {
        Some(Predicate::Toplevel)
    } else if name == "depth"@ {
        Some(Predicate::Depth)
    } else {
        None
    }
}

pub(crate) fn find_predicate(name: &str) -> (r: Option<Predicate>)
    ensures
        r == predicate_named(name@),
{
    if same(name, "file") || same(name, "glob") {
        Some(Predicate::Path)
    } else if same(name, "extension") {
        Some(Predicate::Extension)
    } else if same(name, "status") {
        Some(Predicate::Status)
    } else if same(name, "type") {
        Some(Predicate::Type)
    } else if same(name, "lines") {
        Some(Predicate::Lines(Side::Either))
    } else if same(name, "before_line") {
        Some(Predicate::Lines(Side::Before))
    } else if same(name, "after_line") {
        Some(Predicate::Lines(Side::After))
    } else if same(name, "content") {
        Some(Predicate::Content(Side::Either))
    } else if same(name, "added") {
        Some(Predicate::Content(Side::After))
    } else if same(name, "removed") {
        Some(Predicate::Content(Side::Before))
    } else if same(name, "id") {
        Some(Predicate::Id)
    } else if same(name, "function") {
        Some(Predicate::Function)
    } else if same(name, "scope") {
        Some(Predicate::Scope)
    } else if same(name, "annotation") || same(name, "decorator") {
        Some(Predicate::Annotation)
    } else if same(name, "doc") {
        Some(Predicate::Doc)
    } else if same(name, "import") {
        Some(Predicate::Import)
    } else if same(name, "toplevel") {
        Some(Predicate::Toplevel)
    } else if same(name, "depth") {
        Some(Predicate::Depth)
    } else {
        None
    }
}

/// The kind a predicate assumes for an argument whose kind was only inferred.
pub open spec fn assumed_kind(name: Seq<char>) -> Option<PatternKind> {
    if name == "glob"@ {
        Some(PatternKind::Glob)
    } else if name == "file"@ || name == "extension"@ || name == "status"@ || name == "type"@ || name
        == "function"@ || name == "scope"@ {
        Some(PatternKind::Exact)
    } else if name == "content"@ || name == "added"@ || name == "removed"@ || name == "annotation"@
        || name == "decorator"@ {
        Some(PatternKind::Substring)
    } else {
        None
    }
}

/// The kind a predicate assumes for an argument whose kind was only inferred.
///
/// Paths and enumerated values name one thing exactly; text is looked into. An
/// explicit kind is never overridden.
pub fn default_kind(name: &str) -> (r: Option<PatternKind>)
    ensures
        r == assumed_kind(name@),
{
    if same(name, "glob") {
        Some(PatternKind::Glob)
    } else if same(name, "file") || same(name, "extension") || same(name, "status") || same(
        name,
        "type",
    ) || same(name, "function") || same(name, "scope") {
        Some(PatternKind::Exact)
    } else if same(name, "content") || same(name, "added") || same(name, "removed") || same(
        name,
        "annotation",
    ) || same(name, "decorator") {
        Some(PatternKind::Substring)
    } else {
        None
    }
}

/// What shape of arguments a predicate accepts.
pub open spec fn shape_of(name: Seq<char>) -> ArgShape {
    if name == "file"@ || name == "glob"@ || name == "extension"@ || name == "status"@ || name
        == "type"@ || name == "content"@ || name == "added"@ || name == "removed"@ || name == "id"@
        || name == "function"@ || name == "scope"@ {
        ArgShape::Patterns
    } else if name == "lines"@ || name == "before_line"@ || name == "after_line"@ || name
        == "depth"@ {
        ArgShape::Numeric
    } else if name == "doc"@ || name == "import"@ || name == "toplevel"@ {
        ArgShape::NoArguments
    } else {
        ArgShape::OptionalPatterns
    }
}

/// What shape of arguments a predicate accepts.
pub fn arg_shape(name: &str) -> (r: ArgShape)
    ensures
        r == shape_of(name@),
{
    if same(name, "file") || same(name, "glob") || same(name, "extension") || same(name, "status")
        || same(name, "type") || same(name, "content") || same(name, "added") || same(
        name,
        "removed",
    ) || same(name, "id") || same(name, "function") || same(name, "scope") {
        ArgShape::Patterns
    } else if same(name, "lines") || same(name, "before_line") || same(name, "after_line") || same(
        name,
        "depth",
    ) {
        ArgShape::Numeric
    } else if same(name, "doc") || same(name, "import") || same(name, "toplevel") {
        ArgShape::NoArguments
    } else {
        ArgShape::OptionalPatterns
    }
}

/// A text without the plus sign it may begin with.
pub open spec fn unsigned(s: Seq<char>) -> Seq<char> {
    if s.len() > 0 && s[0] == '+' {
        s.skip(1)
    } else {
        s
    }
}

pub open spec fn all_digits(s: Seq<char>) -> bool {
    s.len() > 0 && forall|i: int| 0 <= i < s.len() ==> is_digit(#[trigger] s[i])
}

/// The number a text spells: digits, and a plus sign in front at most.
pub open spec fn number_value(s: Seq<char>) -> Option<usize> {
    if all_digits(unsigned(s)) && digits_value(unsigned(s)) <= usize::MAX {
        Some(digits_value(unsigned(s)) as usize)
    } else {
        None
    }
}

fn parse_number(s: &str) -> (r: Option<usize>)
    ensures
        r == number_value(s@),
{
    let chars = chars_of(s);
    let from: usize = if chars.len() > 0 && chars[0] == '+' {
        1
    } else {
        0
    };
    let ghost digits = unsigned(s@);
    assert(digits =~= chars@.subrange(from as int, chars@.len() as int));
    if from == chars.len() {
        return None;
    }
    let mut i: usize = from;
    while i < chars.len()
        invariant
            from <= i <= chars.len(),
            digits == unsigned(s@),
            digits == chars@.subrange(from as int, chars@.len() as int),
            forall|j: int| from <= j < i ==> is_digit(#[trigger] chars@[j]),
        decreases chars.len() - i,
    {
        let c = chars[i];
        if !('0' <= c && c <= '9') {
            assert(!is_digit(digits[i - from]));
            return None;
        }
        i += 1;
    }
    let r = parse_digits(&chars, from, chars.len());
    assert forall|j: int| 0 <= j < digits.len() implies is_digit(#[trigger] digits[j]) by {
        assert(is_digit(chars@[from + j]));
    }
    r
}

pub open spec fn not_accepted(func: Seq<char>, value: Seq<char>, valid: Seq<char>) -> Option<
    Failure,
> {
    Some(Failure::InvalidArgument { func, value, valid })
}

/// What is wrong with one argument where patterns are asked for.
pub open spec fn pattern_arg_failure(name: Seq<char>, i: int, arg: ArgView) -> Option<Failure> {
    match arg {
        ArgView::Range(_, _) => not_accepted(
            name,
            "a range (argument "@ + decimal((i + 1) as nat) + ")"@,
            "strings, not ranges"@,
        ),
        ArgView::Pattern(_) => None,
    }
}

/// What is wrong with one argument where numbers are asked for.
pub open spec fn numeric_arg_failure(name: Seq<char>, arg: ArgView) -> Option<Failure> {
    match arg {
        ArgView::Pattern(p) => if number_value(p.value) is None {
            not_accepted(
                name,
                p.value,
                "a number or range, e.g. lines(10) or lines(10..20)"@,
            )
        } else {
            None
        },
        ArgView::Range(lo, hi) => if lo > hi {
            not_accepted(
                name,
                decimal(lo as nat) + ".."@ + decimal(hi as nat),
                "a range whose start is not greater than its end"@,
            )
        } else {
            None
        },
    }
}

/// What is wrong with the first argument that something is wrong with.
pub open spec fn first_arg_failure(name: Seq<char>, numeric: bool, args: Seq<ArgView>) -> Option<
    Failure,
>
    decreases args.len(),
{
    if args.len() == 0 {
        None
    } else if first_arg_failure(name, numeric, args.drop_last()) is Some {
        first_arg_failure(name, numeric, args.drop_last())
    } else if numeric {
        numeric_arg_failure(name, args.last())
    } else {
        pattern_arg_failure(name, args.len() - 1, args.last())
    }
}

/// What is wrong with the arguments of a call.
pub open spec fn args_failure(name: Seq<char>, args: Seq<ArgView>) -> Option<Failure> {
    match shape_of(name) {
        ArgShape::NoArguments => if args.len() > 0 {
            not_accepted(name, "an argument"@, "no arguments -- this predicate takes none"@)
        } else {
            None
        },
        ArgShape::Patterns => if args.len() == 0 {
            not_accepted(name, "no argument"@, "at least one string, e.g. file(\"src/a.rs\")"@)
        } else {
            first_arg_failure(name, false, args)
        },
        ArgShape::Numeric => if args.len() == 0 {
            not_accepted(
                name,
                "no argument"@,
                "a number or range, e.g. lines(10) or lines(10..20)"@,
            )
        } else {
            first_arg_failure(name, true, args)
        },
        ArgShape::OptionalPatterns => if predicate_named(name) is None {
            None
        } else {
            first_arg_failure(name, false, args)
        },
    }
}

proof fn lemma_first_arg_failure(name: Seq<char>, numeric: bool, args: Seq<ArgView>, n: int)
    requires
        0 <= n <= args.len(),
        first_arg_failure(name, numeric, args.take(n)) is Some,
    ensures
        first_arg_failure(name, numeric, args) == first_arg_failure(name, numeric, args.take(n)),
    decreases args.len(),
{
    if n < args.len() {
        assert(args.drop_last().take(n) =~= args.take(n));
        lemma_first_arg_failure(name, numeric, args.drop_last(), n);
    } else {
        assert(args.take(n) =~= args);
    }
}

fn invalid(func: &str, value: String, valid: &str) -> (r: HunksetError)
    ensures
        Some(r.deep_view()) == not_accepted(func@, value@, valid@),
{
    HunksetError::InvalidArgument { func: func.to_owned(), value, valid: valid.to_owned() }
}

fn check_arg(name: &str, numeric: bool, i: usize, arg: &Arg) -> (r: Result<(), HunksetError>)
    requires
        i < usize::MAX,
    ensures
        ({
            let expected = if numeric {
                numeric_arg_failure(name@, arg.deep_view())
            } else {
                pattern_arg_failure(name@, i as int, arg.deep_view())
            };
            match r {
                Ok(_) => expected is None,
                Err(e) => expected == Some(e.deep_view()),
            }
        }),
{
    match arg {
        Arg::Pattern(p) => {
            if numeric && parse_number(p.value.as_str()).is_none() {
                return Err(
                    invalid(
                        name,
                        p.value.clone(),
                        "a number or range, e.g. lines(10) or lines(10..20)",
                    ),
                );
            }
        },
        Arg::Range(lo, hi) => {
            if numeric {
                if *lo > *hi {
                    return Err(
                        invalid(
                            name,
                            concat3(number(*lo).as_str(), "..", number(*hi).as_str()),
                            "a range whose start is not greater than its end",
                        ),
                    );
                }
            } else {
                return Err(
                    invalid(
                        name,
                        concat3("a range (argument ", number(i + 1).as_str(), ")"),
                        "strings, not ranges",
                    ),
                );
            }
        },
    }
    Ok(())
}

/// Refuse arguments that would otherwise come to nothing: a missing argument
/// matches nothing, and its negation everything.
fn validate_args(name: &str, args: &Vec<Arg>) -> (r: Result<(), HunksetError>)
    ensures
        match r {
            Ok(_) => args_failure(name@, deep(args@)) is None,
            Err(e) => args_failure(name@, deep(args@)) == Some(e.deep_view()),
        },
{
    let shape = arg_shape(name);
    let numeric = match shape {
        ArgShape::NoArguments => {
            return if args.len() > 0 {
                Err(
                    invalid(
                        name,
                        "an argument".to_owned(),
                        "no arguments -- this predicate takes none",
                    ),
                )
            } else {
                Ok(())
            };
        },
        ArgShape::OptionalPatterns => {
            if find_predicate(name).is_none() {
                return Ok(());
            }
            false
        },
        ArgShape::Patterns => {
            if args.len() == 0 {
                return Err(
                    invalid(
                        name,
                        "no argument".to_owned(),
                        "at least one string, e.g. file(\"src/a.rs\")",
                    ),
                );
            }
            false
        },
        ArgShape::Numeric => {
            if args.len() == 0 {
                return Err(
                    invalid(
                        name,
                        "no argument".to_owned(),
                        "a number or range, e.g. lines(10) or lines(10..20)",
                    ),
                );
            }
            true
        },
    };
    let ghost views = deep(args@);
    let mut i: usize = 0;
    assert(views.take(0) =~= Seq::empty());
    while i < args.len()
        invariant
            views == deep(args@),
            i <= args.len(),
            first_arg_failure(name@, numeric, views.take(i as int)) is None,
            numeric ==> args_failure(name@, views) == first_arg_failure(name@, true, views),
            !numeric ==> args_failure(name@, views) == first_arg_failure(name@, false, views),
        decreases args.len() - i,
    {
        assert(views.take(i as int + 1).drop_last() =~= views.take(i as int));
        match check_arg(name, numeric, i, &args[i]) {
            Ok(_) => {},
            Err(e) => {
                proof {
                    lemma_first_arg_failure(name@, numeric, views, i as int + 1);
                }
                return Err(e);
            },
        }
        i += 1;
    }
    assert(views.take(views.len() as int) =~= views);
    Ok(())
}

/// A pattern with the kind that a predicate assumes, where none was asked for.
pub open spec fn with_assumed_kind(name: Seq<char>, p: PatternView) -> PatternView {
    match assumed_kind(name) {
        Some(kind) if !p.explicit => PatternView { kind, value: p.value, explicit: false },
        _ => p,
    }
}

/// The patterns among the arguments of a call, with the kinds it assumes.
pub open spec fn patterns_of(name: Seq<char>, args: Seq<ArgView>) -> Seq<PatternView>
    decreases args.len(),
{
    if args.len() == 0 {
        Seq::empty()
    } else {
        match args.last() {
            ArgView::Pattern(p) => patterns_of(name, args.drop_last()).push(
                with_assumed_kind(name, p),
            ),
            ArgView::Range(_, _) => patterns_of(name, args.drop_last()),
        }
    }
}

/// The ranges among the arguments of a call; a number is a range of one.
pub open spec fn ranges_of(args: Seq<ArgView>) -> Seq<(usize, usize)>
    decreases args.len(),
{
    if args.len() == 0 {
        Seq::empty()
    } else {
        let rest = ranges_of(args.drop_last());
        match args.last() {
            ArgView::Range(start, end) => rest.push((start, end)),
            ArgView::Pattern(p) => match number_value(p.value) {
                Some(n) => rest.push((n, n)),
                None => rest,
            },
        }
    }
}

/// The range that an argument asks for, where it asks for one that is in order:
/// a number is a range of one.
pub open spec fn asks_for_range(arg: ArgView, range: (usize, usize)) -> bool {
    &&& range.0 <= range.1
    &&& match arg {
        ArgView::Range(first, last) => range == (first, last),
        ArgView::Pattern(p) => range.0 == range.1 && number_value(p.value) == Some(range.0),
    }
}

/// Numbers and ranges that are accepted are in order, and each argument asks for
/// one of them.
pub proof fn an_accepted_range_is_in_order(name: Seq<char>, args: Seq<ArgView>)
    requires
        first_arg_failure(name, true, args) is None,
    ensures
        ranges_of(args).len() == args.len(),
        forall|i: int| 0 <= i < args.len() ==> asks_for_range(args[i], #[trigger] ranges_of(args)[i]),
    decreases args.len(),
{
    if args.len() > 0 {
        let rest = args.drop_last();
        an_accepted_range_is_in_order(name, rest);
        assert forall|i: int| 0 <= i < args.len() implies asks_for_range(
            args[i],
            #[trigger] ranges_of(args)[i],
        ) by {
            if i < rest.len() {
                assert(asks_for_range(rest[i], ranges_of(rest)[i]));
            }
        }
    }
}

/// Every pattern that is accepted as an argument is matched, with the kind that
/// was asked for, or else with the one its predicate assumes.
pub proof fn an_accepted_pattern_keeps_the_kind_it_asks_for(name: Seq<char>, args: Seq<ArgView>)
    requires
        first_arg_failure(name, false, args) is None,
    ensures
        patterns_of(name, args).len() == args.len(),
        forall|i: int|
            0 <= i < args.len() ==> {
                let out = #[trigger] patterns_of(name, args)[i];
                args[i] matches ArgView::Pattern(p) && out.value == p.value && out.explicit
                    == p.explicit && (if p.explicit {
                    out.kind == p.kind
                } else {
                    match assumed_kind(name) {
                        Some(kind) => out.kind == kind,
                        None => out.kind == p.kind,
                    }
                })
            },
    decreases args.len(),
{
    if args.len() > 0 {
        let rest = args.drop_last();
        an_accepted_pattern_keeps_the_kind_it_asks_for(name, rest);
        assert forall|i: int| 0 <= i < rest.len() implies patterns_of(name, rest)[i]
            == #[trigger] patterns_of(name, args)[i] by {}
    }
}

fn extract_patterns(name: &str, args: &Vec<Arg>) -> (out: Vec<StringPattern>)
    ensures
        deep(out@) == patterns_of(name@, deep(args@)),
{
    broadcast use group_deep;

    let ghost views = deep(args@);
    let default = default_kind(name);
    let mut out: Vec<StringPattern> = Vec::new();
    let mut i: usize = 0;
    assert(views.take(0) =~= Seq::empty());
    while i < args.len()
        invariant
            views == deep(args@),
            default == assumed_kind(name@),
            i <= args.len(),
            deep(out@) == patterns_of(name@, views.take(i as int)),
        decreases args.len() - i,
    {
        assert(views.take(i as int + 1).drop_last() =~= views.take(i as int));
        if let Arg::Pattern(p) = &args[i] {
            match default {
                Some(kind) if !p.explicit => {
                    out.push(StringPattern::inferred(kind, p.value.clone()));
                },
                _ => {
                    out.push(p.copied());
                },
            }
        }
        i += 1;
    }
    assert(views.take(views.len() as int) =~= views);
    out
}

/// Check the patterns of a call, its assumed kind applied.
fn compile_args(name: &str, args: &Vec<Arg>) -> (r: Result<Vec<CompiledPattern>, HunksetError>)
    ensures
        ({
            let patterns = patterns_of(name@, deep(args@));
            match r {
                Ok(compiled) => first_refusal(patterns) is None && deep(compiled@) == patterns,
                Err(e) => first_refusal(patterns) == Some(e.deep_view()),
            }
        }),
{
    compile_patterns(extract_patterns(name, args))
}

fn extract_ranges(args: &Vec<Arg>) -> (out: Vec<(usize, usize)>)
    ensures
        out@ == ranges_of(deep(args@)),
{
    let ghost views = deep(args@);
    let mut out: Vec<(usize, usize)> = Vec::new();
    let mut i: usize = 0;
    assert(views.take(0) =~= Seq::empty());
    while i < args.len()
        invariant
            views == deep(args@),
            i <= args.len(),
            out@ == ranges_of(views.take(i as int)),
        decreases args.len() - i,
    {
        assert(views.take(i as int + 1).drop_last() =~= views.take(i as int));
        match &args[i] {
            Arg::Range(start, end) => {
                out.push((*start, *end));
            },
            Arg::Pattern(p) => {
                if let Some(n) = parse_number(p.value.as_str()) {
                    out.push((n, n));
                }
            },
        }
        i += 1;
    }
    assert(views.take(views.len() as int) =~= views);
    out
}

/// The values that `type` accepts.
pub open spec fn valid_types() -> Seq<Seq<char>> {
    seq!["insert"@, "delete"@, "replace"@]
}

/// The values that `status` accepts.
pub open spec fn valid_statuses() -> Seq<Seq<char>> {
    seq!["modified"@, "added"@, "removed"@, "renamed"@, "copied"@]
}

pub fn type_values() -> (r: Vec<String>)
    ensures
        deep(r@) == valid_types(),
{
    let mut r: Vec<String> = Vec::new();
    r.push("insert".to_owned());
    r.push("delete".to_owned());
    r.push("replace".to_owned());
    assert(deep(r@) =~= valid_types());
    r
}

pub fn status_values() -> (r: Vec<String>)
    ensures
        deep(r@) == valid_statuses(),
{
    let mut r: Vec<String> = Vec::new();
    r.push("modified".to_owned());
    r.push("added".to_owned());
    r.push("removed".to_owned());
    r.push("renamed".to_owned());
    r.push("copied".to_owned());
    assert(deep(r@) =~= valid_statuses());
    r
}

/// What is wrong with the first pattern whose value is not a valid one.
pub open spec fn enum_failure(
    func: Seq<char>,
    patterns: Seq<PatternView>,
    valid: Seq<Seq<char>>,
) -> Option<Failure>
    decreases patterns.len(),
{
    if patterns.len() == 0 {
        None
    } else if enum_failure(func, patterns.drop_last(), valid) is Some {
        enum_failure(func, patterns.drop_last(), valid)
    } else if valid.contains(patterns.last().value) {
        None
    } else {
        not_accepted(func, patterns.last().value, joined(valid, ", "@))
    }
}

proof fn lemma_enum_failure(
    func: Seq<char>,
    patterns: Seq<PatternView>,
    valid: Seq<Seq<char>>,
    n: int,
)
    requires
        0 <= n <= patterns.len(),
        enum_failure(func, patterns.take(n), valid) is Some,
    ensures
        enum_failure(func, patterns, valid) == enum_failure(func, patterns.take(n), valid),
    decreases patterns.len(),
{
    if n < patterns.len() {
        assert(patterns.drop_last().take(n) =~= patterns.take(n));
        lemma_enum_failure(func, patterns.drop_last(), valid, n);
    } else {
        assert(patterns.take(n) =~= patterns);
    }
}

/// Refuse a value that no hunk could have.
fn validate_enum_args(func: &str, patterns: &Vec<CompiledPattern>, valid: &Vec<String>) -> (r:
    Result<(), HunksetError>)
    ensures
        match r {
            Ok(_) => enum_failure(func@, deep(patterns@), deep(valid@)) is None,
            Err(e) => enum_failure(func@, deep(patterns@), deep(valid@)) == Some(e.deep_view()),
        },
{
    let ghost views = deep(patterns@);
    let mut i: usize = 0;
    assert(views.take(0) =~= Seq::empty());
    while i < patterns.len()
        invariant
            views == deep(patterns@),
            i <= patterns.len(),
            enum_failure(func@, views.take(i as int), deep(valid@)) is None,
        decreases patterns.len() - i,
    {
        assert(views.take(i as int + 1).drop_last() =~= views.take(i as int));
        let value = patterns[i].value();
        if !crate::text::list_contains(valid, value) {
            let shown = join(valid, ", ");
            proof {
                lemma_enum_failure(func@, views, deep(valid@), i as int + 1);
            }
            return Err(invalid(func, value.to_owned(), shown.as_str()));
        }
        i += 1;
    }
    assert(views.take(views.len() as int) =~= views);
    Ok(())
}

// ---------------------------------------------------------------------------
// What holds of an entry
// ---------------------------------------------------------------------------

/// The last place a character stands in a text; -1 where it does not.
pub open spec fn last_at(s: Seq<char>, c: char) -> int
    decreases s.len(),
{
    if s.len() == 0 {
        -1
    } else if s.last() == c {
        s.len() - 1
    } else {
        last_at(s.drop_last(), c)
    }
}

/// The last component of a path, where it is a name.
pub open spec fn file_name(path: Seq<char>) -> Option<Seq<char>> {
    let parts = crate::glob::components(split_at_char(path, '/'));
    if parts.len() == 0 || parts.last() == ".."@ {
        None
    } else {
        Some(parts.last())
    }
}

/// The extension of a path: what follows the last dot of its file name, unless
/// the name has none or begins with it.
pub open spec fn extension_of(path: Seq<char>) -> Option<Seq<char>> {
    match file_name(path) {
        None => None,
        Some(name) => if last_at(name, '.') <= 0 {
            None
        } else {
            Some(name.skip(last_at(name, '.') + 1))
        },
    }
}

/// The extension of a path.
pub fn extension(path: &str) -> (r: Option<String>)
    ensures
        r.deep_view() == extension_of(path@),
{
    broadcast use group_deep;

    let parts = split_char(path, '/');
    let ghost views = deep(parts@);
    // The last component that counts.
    let mut n: usize = parts.len();
    assert(views.take(n as int) =~= views);
    while n > 0 && (parts[n - 1].as_str().is_empty() || same(parts[n - 1].as_str(), "."))
        invariant
            views == deep(parts@),
            views == split_at_char(path@, '/'),
            n <= parts.len(),
            crate::glob::components(views) == crate::glob::components(views.take(n as int)),
        decreases n,
    {
        assert(views.take(n as int).drop_last() =~= views.take(n as int - 1));
        assert(views.take(n as int).last() == parts@[n - 1]@);
        n -= 1;
    }
    if n == 0 {
        assert(views.take(0) =~= Seq::empty());
        return None;
    }
    let ghost shown = views.take(n as int);
    assert(shown.last() == parts@[n - 1]@);
    assert(crate::glob::components(shown) == crate::glob::components(shown.drop_last()).push(
        shown.last(),
    ));
    if same(parts[n - 1].as_str(), "..") {
        return None;
    }
    let ghost name = shown.last();
    assert(file_name(path@) == Some(name));
    let chars = chars_of(parts[n - 1].as_str());
    let mut at: usize = chars.len();
    assert(name.take(at as int) =~= name);
    while at > 0 && chars[at - 1] != '.'
        invariant
            chars@ == name,
            at <= chars.len(),
            last_at(name, '.') == last_at(name.take(at as int), '.'),
        decreases at,
    {
        assert(name.take(at as int).drop_last() =~= name.take(at as int - 1));
        at -= 1;
    }
    assert(last_at(name.take(at as int), '.') == at - 1);
    if at <= 1 {
        return None;
    }
    let rest = string_of(&chars, at, chars.len());
    assert(rest@ =~= name.skip(last_at(name, '.') + 1));
    Some(rest)
}

/// The extension of a path, empty where there is none.
pub open spec fn extension_text(path: Seq<char>) -> Seq<char> {
    match extension_of(path) {
        Some(ext) => ext,
        None => Seq::empty(),
    }
}

pub proof fn lemma_last_at(s: Seq<char>, c: char)
    ensures
        -1 <= last_at(s, c) < s.len(),
        last_at(s, c) >= 0 ==> s[last_at(s, c)] == c,
        forall|i: int| last_at(s, c) < i < s.len() ==> s[i] != c,
    decreases s.len(),
{
    if s.len() > 0 && s.last() != c {
        let rest = s.drop_last();
        lemma_last_at(rest, c);
        assert forall|i: int| last_at(s, c) < i < s.len() implies s[i] != c by {
            if i < rest.len() {
                assert(rest[i] == s[i]);
            }
        }
    }
}

/// The name of a file is what follows the last separator of its path.
pub proof fn a_file_name_follows_the_last_separator(dir: Seq<char>, name: Seq<char>)
    requires
        !name.contains('/'),
        name.len() > 0,
        name != "."@,
        name != ".."@,
    ensures
        file_name(dir + "/"@ + name) == Some(name),
        file_name(name) == Some(name),
{
    reveal_strlit("/");
    let parts = split_at_char(dir, '/');
    crate::text::pieces_and_what_split_them_rebuild_the_text(dir, '/');
    let all = parts.push(name);
    assert forall|i: int| 0 <= i < all.len() implies !(#[trigger] all[i]).contains('/') by {
        if i < parts.len() {
            assert(!parts[i].contains('/'));
        }
    }
    crate::paths::splitting_a_joined_path_gives_its_components(all);
    assert("/"@ =~= seq!['/']);
    assert(all.drop_last() =~= parts);
    crate::text::lemma_split_len(dir, '/');
    assert(joined(all, "/"@) == dir + "/"@ + name);
    let one = seq![name];
    crate::paths::splitting_a_joined_path_gives_its_components(one);
    assert(joined(one, "/"@) == name);
    assert(one.last() == name);
    assert(crate::glob::components(one) == crate::glob::components(one.drop_last()).push(name));
}

/// An extension is what follows the last dot of a file's name. A name that has no
/// dot, or none but the one it begins with, has no extension.
pub proof fn an_extension_follows_the_last_dot(path: Seq<char>, stem: Seq<char>, ext: Seq<char>)
    requires
        !ext.contains('.'),
    ensures
        file_name(path) == Some(stem.push('.') + ext) ==> extension_of(path) == if stem.len() > 0 {
            Some(ext)
        } else {
            None
        },
        file_name(path) == Some(ext) ==> extension_of(path) is None,
{
    if file_name(path) == Some(stem.push('.') + ext) {
        let name = stem.push('.') + ext;
        lemma_last_at(name, '.');
        let at = last_at(name, '.');
        assert(name[stem.len() as int] == '.');
        if at > stem.len() {
            assert(ext.contains(ext[at - stem.len() - 1]));
        }
        assert(name.skip(stem.len() as int + 1) =~= ext);
    }
    if file_name(path) == Some(ext) {
        lemma_last_at(ext, '.');
        let at = last_at(ext, '.');
        if at >= 0 {
            assert(ext.contains(ext[at]));
        }
    }
}

/// Whether a run of lines of a file meets a range of lines. An empty run is the
/// point it stands at.
pub open spec fn touches(lines: LineRange, range: (usize, usize)) -> bool {
    if lines.length == 0 {
        range.0 <= lines.start <= range.1
    } else {
        lines.start <= range.1 && lines.start + lines.length - 1 >= range.0
    }
}

fn hunk_touches_range(lines: LineRange, range: (usize, usize)) -> (r: bool)
    ensures
        r == touches(lines, range),
{
    if lines.length == 0 {
        return range.0 <= lines.start && lines.start <= range.1;
    }
    lines.start <= range.1 && (lines.start >= range.0 || lines.length - 1 >= range.0 - lines.start)
}

/// Whether a side of a hunk meets a range of lines.
pub open spec fn side_touches(side: Side, hunk: HunkView, range: (usize, usize)) -> bool {
    match side {
        Side::Before => touches(hunk.before_range, range),
        Side::After => touches(hunk.after_range, range),
        Side::Either => touches(hunk.before_range, range) || touches(hunk.after_range, range),
    }
}

pub open spec fn lines_hold(side: Side, ranges: Seq<(usize, usize)>, hunk: HunkView) -> bool {
    exists|i: int| 0 <= i < ranges.len() && side_touches(side, hunk, #[trigger] ranges[i])
}

pub open spec fn content_holds(side: Side, patterns: Seq<PatternView>, hunk: HunkView) -> bool {
    match side {
        Side::Before => any_matches(patterns, hunk.removed),
        Side::After => any_matches(patterns, hunk.added),
        Side::Either => any_matches(patterns, hunk.added) || any_matches(patterns, hunk.removed),
    }
}

pub open spec fn optional_holds(patterns: Seq<PatternView>, text: Option<Seq<char>>) -> bool {
    match text {
        Some(t) => any_matches(patterns, t),
        None => false,
    }
}

pub open spec fn annotation_holds(patterns: Seq<PatternView>, annotations: Seq<Seq<char>>) -> bool {
    if patterns.len() == 0 {
        annotations.len() > 0
    } else {
        exists|i: int| 0 <= i < annotations.len() && any_matches(patterns, #[trigger] annotations[i])
    }
}

pub open spec fn depth_holds(ranges: Seq<(usize, usize)>, depth: usize) -> bool {
    exists|i: int| 0 <= i < ranges.len() && (#[trigger] ranges[i]).0 <= depth <= ranges[i].1
}

/// Whether a pattern of `id()` names a hunk: as a prefix of its id, or, where
/// exactness is asked for, as its id or its short id.
pub open spec fn id_names(p: PatternView, hunk: HunkView) -> bool {
    match normal_id(p.value) {
        None => false,
        Some(id) => if p.explicit && p.kind == PatternKind::Exact {
            hunk.id == id || hunk.short_id == id
        } else {
            begins_with(hunk.id, id)
        },
    }
}

/// Whether a predicate holds of the text and the surroundings of a hunk.
pub open spec fn holds_of_hunk(
    p: Predicate,
    patterns: Seq<PatternView>,
    ranges: Seq<(usize, usize)>,
    hunk: HunkView,
) -> bool {
    match p {
        Predicate::Lines(side) => lines_hold(side, ranges, hunk),
        Predicate::Content(side) => content_holds(side, patterns, hunk),
        Predicate::Id => exists|i: int|
            0 <= i < patterns.len() && id_names(#[trigger] patterns[i], hunk),
        Predicate::Function => optional_holds(patterns, hunk.semantic.enclosing_function),
        Predicate::Scope => optional_holds(patterns, hunk.semantic.enclosing_scope),
        Predicate::Annotation => annotation_holds(patterns, hunk.semantic.annotations),
        Predicate::Doc => hunk.semantic.is_doc_comment,
        Predicate::Import => hunk.semantic.is_import,
        Predicate::Toplevel => hunk.semantic.is_analyzed && hunk.semantic.is_toplevel,
        Predicate::Depth => hunk.semantic.is_analyzed && depth_holds(
            ranges,
            hunk.semantic.nesting_depth,
        ),
        _ => false,
    }
}

/// Whether a predicate is about files, and so holds of stand-ins too.
pub open spec fn about_files(p: Predicate) -> bool {
    p == Predicate::Path || p == Predicate::Extension || p == Predicate::Status || p
        == Predicate::Type
}

/// Whether a predicate holds of an entry.
pub open spec fn holds(
    p: Predicate,
    patterns: Seq<PatternView>,
    ranges: Seq<(usize, usize)>,
    e: EntryView,
) -> bool {
    match p {
        Predicate::Path => exists|i: int|
            0 <= i < paths_of(e).len() && any_matches(patterns, #[trigger] paths_of(e)[i]),
        Predicate::Extension => exists|i: int|
            0 <= i < paths_of(e).len() && any_matches(
                patterns,
                extension_text(#[trigger] paths_of(e)[i]),
            ),
        Predicate::Status => any_matches(patterns, e.status),
        Predicate::Type => any_matches(patterns, e.hunk.hunk_type),
        _ => !e.stand_in && holds_of_hunk(p, patterns, ranges, e.hunk),
    }
}

fn path_predicate(by_extension: bool, patterns: &Vec<CompiledPattern>, entry: &EnrichedHunk) -> (r:
    bool)
    ensures
        r == holds(
            if by_extension {
                Predicate::Extension
            } else {
                Predicate::Path
            },
            deep(patterns@),
            Seq::empty(),
            entry.deep_view(),
        ),
{
    let paths = entry.all_paths();
    let ghost views = paths_of(entry.deep_view());
    let mut i: usize = 0;
    while i < paths.len()
        invariant
            i <= paths.len(),
            views == paths_of(entry.deep_view()),
            paths@.len() == views.len(),
            forall|j: int| 0 <= j < paths@.len() ==> (#[trigger] paths@[j])@ == views[j],
            forall|j: int|
                0 <= j < i ==> !any_matches(
                    deep(patterns@),
                    if by_extension {
                        extension_text(#[trigger] views[j])
                    } else {
                        views[j]
                    },
                ),
        decreases paths.len() - i,
    {
        let path = paths[i];
        assert(path@ == views[i as int]);
        let found = if by_extension {
            match extension(path) {
                Some(ext) => any_match(patterns, ext.as_str()),
                None => {
                    let ext = String::new();
                    assert(ext@ =~= extension_text(path@));
                    any_match(patterns, ext.as_str())
                },
            }
        } else {
            any_match(patterns, path)
        };
        if found {
            return true;
        }
        i += 1;
    }
    false
}

fn range_predicate(side: Side, ranges: &Vec<(usize, usize)>, hunk: &Hunk) -> (r: bool)
    ensures
        r == lines_hold(side, ranges@, hunk.deep_view()),
{
    let mut i: usize = 0;
    while i < ranges.len()
        invariant
            i <= ranges.len(),
            forall|j: int|
                0 <= j < i ==> !side_touches(side, hunk.deep_view(), #[trigger] ranges@[j]),
        decreases ranges.len() - i,
    {
        let before = hunk_touches_range(hunk.before_range, ranges[i]);
        let after = hunk_touches_range(hunk.after_range, ranges[i]);
        let met = match side {
            Side::Before => before,
            Side::After => after,
            Side::Either => before || after,
        };
        if met {
            assert(side_touches(side, hunk.deep_view(), ranges@[i as int]));
            return true;
        }
        i += 1;
    }
    false
}

fn content_predicate(side: Side, patterns: &Vec<CompiledPattern>, hunk: &Hunk) -> (r: bool)
    ensures
        r == content_holds(side, deep(patterns@), hunk.deep_view()),
{
    match side {
        Side::Before => any_match(patterns, hunk.removed.as_str()),
        Side::After => any_match(patterns, hunk.added.as_str()),
        Side::Either => any_match(patterns, hunk.added.as_str()) || any_match(
            patterns,
            hunk.removed.as_str(),
        ),
    }
}

fn optional_predicate(patterns: &Vec<CompiledPattern>, text: &Option<String>) -> (r: bool)
    ensures
        r == optional_holds(deep(patterns@), text.deep_view()),
{
    match text {
        Some(t) => any_match(patterns, t.as_str()),
        None => false,
    }
}

fn annotation_predicate(patterns: &Vec<CompiledPattern>, annotations: &Vec<String>) -> (r: bool)
    ensures
        r == annotation_holds(deep(patterns@), deep(annotations@)),
{
    if patterns.len() == 0 {
        return annotations.len() > 0;
    }
    let ghost views = deep(annotations@);
    let mut i: usize = 0;
    while i < annotations.len()
        invariant
            views == deep(annotations@),
            i <= annotations.len(),
            forall|j: int| 0 <= j < i ==> !any_matches(deep(patterns@), #[trigger] views[j]),
            patterns@.len() > 0,
        decreases annotations.len() - i,
    {
        if any_match(patterns, annotations[i].as_str()) {
            assert(any_matches(deep(patterns@), views[i as int]));
            return true;
        }
        i += 1;
    }
    false
}

fn depth_predicate(ranges: &Vec<(usize, usize)>, depth: usize) -> (r: bool)
    ensures
        r == depth_holds(ranges@, depth),
{
    let mut i: usize = 0;
    while i < ranges.len()
        invariant
            i <= ranges.len(),
            forall|j: int|
                0 <= j < i ==> !((#[trigger] ranges@[j]).0 <= depth <= ranges@[j].1),
        decreases ranges.len() - i,
    {
        if ranges[i].0 <= depth && depth <= ranges[i].1 {
            assert(ranges@[i as int].0 <= depth <= ranges@[i as int].1);
            return true;
        }
        i += 1;
    }
    false
}

fn names_hunk(p: &CompiledPattern, hunk: &Hunk) -> (r: bool)
    ensures
        r == id_names(p.deep_view(), hunk.deep_view()),
{
    match normalize_hunk_id(p.value()) {
        None => false,
        Some(id) => {
            if p.is_explicitly_exact() {
                same(hunk.id.as_str(), id.as_str()) || same(hunk.short_id.as_str(), id.as_str())
            } else {
                starts_with(hunk.id.as_str(), id.as_str())
            }
        },
    }
}

fn any_names_hunk(patterns: &Vec<CompiledPattern>, hunk: &Hunk) -> (r: bool)
    ensures
        r == holds_of_hunk(Predicate::Id, deep(patterns@), Seq::empty(), hunk.deep_view()),
{
    let ghost views = deep(patterns@);
    let mut i: usize = 0;
    while i < patterns.len()
        invariant
            views == deep(patterns@),
            i <= patterns.len(),
            forall|j: int| 0 <= j < i ==> !id_names(#[trigger] views[j], hunk.deep_view()),
        decreases patterns.len() - i,
    {
        if names_hunk(&patterns[i], hunk) {
            assert(id_names(views[i as int], hunk.deep_view()));
            return true;
        }
        i += 1;
    }
    false
}

/// Whether a predicate holds of an entry.
fn entry_matches(
    p: Predicate,
    patterns: &Vec<CompiledPattern>,
    ranges: &Vec<(usize, usize)>,
    entry: &EnrichedHunk,
) -> (r: bool)
    ensures
        r == holds(p, deep(patterns@), ranges@, entry.deep_view()),
{
    match p {
        Predicate::Path => {
            return path_predicate(false, patterns, entry);
        },
        Predicate::Extension => {
            return path_predicate(true, patterns, entry);
        },
        Predicate::Status => {
            return any_match(patterns, entry.file_status);
        },
        Predicate::Type => {
            return any_match(patterns, entry.change_type());
        },
        _ => {},
    }
    let hunk = match entry.content() {
        Some(hunk) => hunk,
        None => {
            return false;
        },
    };
    match p {
        Predicate::Lines(side) => range_predicate(side, ranges, hunk),
        Predicate::Content(side) => content_predicate(side, patterns, hunk),
        Predicate::Id => any_names_hunk(patterns, hunk),
        Predicate::Function => optional_predicate(patterns, &hunk.semantic.enclosing_function),
        Predicate::Scope => optional_predicate(patterns, &hunk.semantic.enclosing_scope),
        Predicate::Annotation => annotation_predicate(patterns, &hunk.semantic.annotations),
        Predicate::Doc => hunk.semantic.is_doc_comment,
        Predicate::Import => hunk.semantic.is_import,
        Predicate::Toplevel => hunk.semantic.is_analyzed && hunk.semantic.is_toplevel,
        Predicate::Depth => hunk.semantic.is_analyzed && depth_predicate(
            ranges,
            hunk.semantic.nesting_depth,
        ),
        _ => false,
    }
}

/// Whether a run of lines has a line. An empty run has the one it stands at.
pub open spec fn has_line(lines: LineRange, n: int) -> bool {
    n == lines.start || lines.start <= n < lines.start + lines.length
}

/// A run of lines meets a range exactly where they have a line in common; both
/// ends of a range belong to it.
pub proof fn a_run_meets_a_range_where_they_share_a_line(lines: LineRange, range: (usize, usize))
    requires
        range.0 <= range.1,
    ensures
        touches(lines, range) <==> exists|n: int| #[trigger]
            has_line(lines, n) && range.0 <= n <= range.1,
{
    if touches(lines, range) {
        if lines.start >= range.0 {
            assert(has_line(lines, lines.start as int));
        } else {
            assert(has_line(lines, range.0 as int));
        }
    }
}

/// Where a hunk stands is asked of the side that is named: of its lines before,
/// of its lines after, or of either. It is enough that one range has one of them.
pub proof fn lines_are_those_of_the_side_that_is_asked(
    patterns: Seq<PatternView>,
    ranges: Seq<(usize, usize)>,
    e: EntryView,
)
    requires
        forall|i: int| 0 <= i < ranges.len() ==> (#[trigger] ranges[i]).0 <= ranges[i].1,
    ensures
        holds(Predicate::Lines(Side::Before), patterns, ranges, e) <==> !e.stand_in && exists|
            i: int,
            n: int,
        |
            0 <= i < ranges.len() && #[trigger] has_line(e.hunk.before_range, n) && (
            #[trigger] ranges[i]).0 <= n <= ranges[i].1,
        holds(Predicate::Lines(Side::After), patterns, ranges, e) <==> !e.stand_in && exists|
            i: int,
            n: int,
        |
            0 <= i < ranges.len() && #[trigger] has_line(e.hunk.after_range, n) && (
            #[trigger] ranges[i]).0 <= n <= ranges[i].1,
        holds(Predicate::Lines(Side::Either), patterns, ranges, e) <==> holds(
            Predicate::Lines(Side::Before),
            patterns,
            ranges,
            e,
        ) || holds(Predicate::Lines(Side::After), patterns, ranges, e),
{
    lemma_lines_meet(e.hunk.before_range, ranges);
    lemma_lines_meet(e.hunk.after_range, ranges);
    let h = e.hunk;
    if lines_hold(Side::Before, ranges, h) {
        let i = choose|i: int|
            0 <= i < ranges.len() && side_touches(Side::Before, h, #[trigger] ranges[i]);
        assert(touches(h.before_range, ranges[i]));
        assert(side_touches(Side::Either, h, ranges[i]));
    }
    if lines_hold(Side::After, ranges, h) {
        let i = choose|i: int|
            0 <= i < ranges.len() && side_touches(Side::After, h, #[trigger] ranges[i]);
        assert(touches(h.after_range, ranges[i]));
        assert(side_touches(Side::Either, h, ranges[i]));
    }
    if lines_hold(Side::Either, ranges, h) {
        let i = choose|i: int|
            0 <= i < ranges.len() && side_touches(Side::Either, h, #[trigger] ranges[i]);
        if touches(h.before_range, ranges[i]) {
            assert(side_touches(Side::Before, h, ranges[i]));
        } else {
            assert(side_touches(Side::After, h, ranges[i]));
        }
    }
    if exists|i: int| 0 <= i < ranges.len() && touches(h.before_range, #[trigger] ranges[i]) {
        let i = choose|i: int| 0 <= i < ranges.len() && touches(h.before_range, #[trigger] ranges[i]);
        assert(side_touches(Side::Before, h, ranges[i]));
    }
    if exists|i: int| 0 <= i < ranges.len() && touches(h.after_range, #[trigger] ranges[i]) {
        let i = choose|i: int| 0 <= i < ranges.len() && touches(h.after_range, #[trigger] ranges[i]);
        assert(side_touches(Side::After, h, ranges[i]));
    }
}

proof fn lemma_lines_meet(lines: LineRange, ranges: Seq<(usize, usize)>)
    requires
        forall|i: int| 0 <= i < ranges.len() ==> (#[trigger] ranges[i]).0 <= ranges[i].1,
    ensures
        (exists|i: int| 0 <= i < ranges.len() && touches(lines, #[trigger] ranges[i])) <==> (
        exists|i: int, n: int|
            0 <= i < ranges.len() && #[trigger] has_line(lines, n) && (#[trigger] ranges[i]).0 <= n
                <= ranges[i].1),
{
    if exists|i: int| 0 <= i < ranges.len() && touches(lines, #[trigger] ranges[i]) {
        let i = choose|i: int| 0 <= i < ranges.len() && touches(lines, #[trigger] ranges[i]);
        a_run_meets_a_range_where_they_share_a_line(lines, ranges[i]);
        let n = choose|n: int| #[trigger]
            has_line(lines, n) && ranges[i].0 <= n <= ranges[i].1;
        assert(has_line(lines, n));
    }
    if exists|i: int, n: int|
        0 <= i < ranges.len() && #[trigger] has_line(lines, n) && (#[trigger] ranges[i]).0 <= n
            <= ranges[i].1 {
        let (i, n) = choose|i: int, n: int|
            0 <= i < ranges.len() && #[trigger] has_line(lines, n) && (#[trigger] ranges[i]).0 <= n
                <= ranges[i].1;
        a_run_meets_a_range_where_they_share_a_line(lines, ranges[i]);
    }
}

/// Content is asked of the side that is named: of what a hunk takes away, of
/// what it adds, or of either. It is enough that one pattern fits.
pub proof fn content_is_that_of_the_side_that_is_asked(
    patterns: Seq<PatternView>,
    ranges: Seq<(usize, usize)>,
    e: EntryView,
)
    ensures
        holds(Predicate::Content(Side::Before), patterns, ranges, e) <==> !e.stand_in && exists|
            i: int,
        |
            0 <= i < patterns.len() && pattern_matches(#[trigger] patterns[i], e.hunk.removed),
        holds(Predicate::Content(Side::After), patterns, ranges, e) <==> !e.stand_in && exists|
            i: int,
        |
            0 <= i < patterns.len() && pattern_matches(#[trigger] patterns[i], e.hunk.added),
        holds(Predicate::Content(Side::Either), patterns, ranges, e) <==> holds(
            Predicate::Content(Side::Before),
            patterns,
            ranges,
            e,
        ) || holds(Predicate::Content(Side::After), patterns, ranges, e),
{
}

/// What a parser found is asked of hunks alone. A name is matched where there is
/// one; a depth, and whether a hunk is at the top, only where a parser has looked;
/// annotations without a pattern where there are any.
pub proof fn a_semantic_predicate_asks_what_the_parser_found(
    patterns: Seq<PatternView>,
    ranges: Seq<(usize, usize)>,
    e: EntryView,
)
    ensures
        ({
            let found = e.hunk.semantic;
            &&& holds(Predicate::Function, patterns, ranges, e) <==> !e.stand_in && (
            found.enclosing_function matches Some(name) && exists|i: int|
                0 <= i < patterns.len() && pattern_matches(#[trigger] patterns[i], name))
            &&& holds(Predicate::Scope, patterns, ranges, e) <==> !e.stand_in && (
            found.enclosing_scope matches Some(name) && exists|i: int|
                0 <= i < patterns.len() && pattern_matches(#[trigger] patterns[i], name))
            &&& holds(Predicate::Annotation, patterns, ranges, e) <==> !e.stand_in && exists|k: int|
                0 <= k < found.annotations.len() && (patterns.len() == 0 || any_matches(
                    patterns,
                    #[trigger] found.annotations[k],
                ))
            &&& holds(Predicate::Doc, patterns, ranges, e) <==> !e.stand_in && found.is_doc_comment
            &&& holds(Predicate::Import, patterns, ranges, e) <==> !e.stand_in && found.is_import
            &&& holds(Predicate::Toplevel, patterns, ranges, e) <==> !e.stand_in
                && found.is_analyzed && found.is_toplevel
            &&& holds(Predicate::Depth, patterns, ranges, e) <==> !e.stand_in && found.is_analyzed
                && exists|i: int|
                0 <= i < ranges.len() && (#[trigger] ranges[i]).0 <= found.nesting_depth
                    <= ranges[i].1
        }),
{
    let found = e.hunk.semantic;
    if patterns.len() == 0 && found.annotations.len() > 0 {
        let one = found.annotations[0];
        assert(patterns.len() == 0 || any_matches(patterns, found.annotations[0]));
    }
}

/// A file is asked for by any path it goes by, by the extension of any of them
/// or by its status, and a change by its type.
pub proof fn a_file_predicate_asks_what_the_file_is(
    patterns: Seq<PatternView>,
    ranges: Seq<(usize, usize)>,
    e: EntryView,
)
    ensures
        holds(Predicate::Path, patterns, ranges, e) <==> any_matches(patterns, e.path) || (
        e.from matches Some(from) && any_matches(patterns, from)),
        holds(Predicate::Extension, patterns, ranges, e) <==> any_matches(
            patterns,
            extension_text(e.path),
        ) || (e.from matches Some(from) && any_matches(patterns, extension_text(from))),
        holds(Predicate::Status, patterns, ranges, e) <==> any_matches(patterns, e.status),
        holds(Predicate::Type, patterns, ranges, e) <==> any_matches(patterns, e.hunk.hunk_type),
{
    let paths = paths_of(e);
    assert(paths[0] == e.path);
    if let Some(from) = e.from {
        assert(paths[1] == from);
    }
}

/// A predicate about hunks never holds of a stand-in, whatever its arguments.
pub proof fn a_stand_in_has_no_content_to_match(
    p: Predicate,
    patterns: Seq<PatternView>,
    ranges: Seq<(usize, usize)>,
    e: EntryView,
)
    requires
        e.stand_in,
        !about_files(p),
    ensures
        !holds(p, patterns, ranges, e),
{
}

/// A predicate about files does not tell a stand-in from a hunk.
pub proof fn a_stand_in_answers_for_its_file(
    p: Predicate,
    patterns: Seq<PatternView>,
    ranges: Seq<(usize, usize)>,
    e: EntryView,
)
    requires
        about_files(p),
    ensures
        holds(p, patterns, ranges, e) == holds(
            p,
            patterns,
            ranges,
            (EntryView { stand_in: !e.stand_in, ..e }),
        ),
{
    let other = EntryView { stand_in: !e.stand_in, ..e };
    assert(paths_of(e) =~= paths_of(other));
}

/// A path predicate that holds of a file by the path it has now still holds
/// when it was moved there: a rename adds a name and takes none away.
pub proof fn a_rename_adds_a_name(
    patterns: Seq<PatternView>,
    ranges: Seq<(usize, usize)>,
    e: EntryView,
    from: Seq<char>,
)
    requires
        e.from is None,
    ensures
        ({
            let moved = EntryView { from: Some(from), ..e };
            &&& holds(Predicate::Path, patterns, ranges, moved) == (holds(
                Predicate::Path,
                patterns,
                ranges,
                e,
            ) || any_matches(patterns, from))
            &&& holds(Predicate::Extension, patterns, ranges, moved) == (holds(
                Predicate::Extension,
                patterns,
                ranges,
                e,
            ) || any_matches(patterns, extension_text(from)))
        }),
{
    let moved = EntryView { from: Some(from), ..e };
    assert(paths_of(moved)[0] == e.path);
    assert(paths_of(moved)[1] == from);
    assert(paths_of(e)[0] == e.path);
}

// ---------------------------------------------------------------------------
// Ids
// ---------------------------------------------------------------------------

/// The entries that a pattern of `id()` names, in order.
pub open spec fn entries_named(p: PatternView, entries: Seq<EntryView>) -> Seq<EntryView>
    decreases entries.len(),
{
    if entries.len() == 0 {
        Seq::empty()
    } else if !entries.last().stand_in && id_names(p, entries.last().hunk) {
        entries_named(p, entries.drop_last()).push(entries.last())
    } else {
        entries_named(p, entries.drop_last())
    }
}

pub open spec fn candidates_of(entries: Seq<EntryView>) -> Seq<CandidateView> {
    Seq::new(
        entries.len(),
        |i: int| CandidateView { short_id: entries[i].hunk.short_id, path: entries[i].path },
    )
}

/// What is wrong with one pattern of `id()`: a kind that cannot be honoured, a
/// text that is no id, an id of several hunks or an id of none.
pub open spec fn id_failure(p: PatternView, entries: Seq<EntryView>) -> Option<Failure> {
    let named = entries_named(p, entries);
    if p.explicit && p.kind != PatternKind::Exact {
        not_accepted(
            "id"@,
            kind_text(p.kind) + ":\""@ + p.value + "\""@,
            "a plain id, or exact:\"<id>\" to rule out abbreviation -- id() resolves ids, it does not pattern-match them"@,
        )
    } else if normal_id(p.value) is None {
        not_accepted(
            "id"@,
            p.value,
            "a hunk id such as hunk-4c1b1b3... (or an unambiguous prefix)"@,
        )
    } else if named.len() > 1 {
        Some(
            Failure::AmbiguousId {
                prefix: p.value,
                candidates: sorted::<IdCandidate>(candidates_of(named)),
            },
        )
    } else if named.len() == 0 {
        Some(Failure::UnknownId { id: p.value })
    } else {
        None
    }
}

/// What is wrong with the first pattern of `id()` that something is wrong with.
pub open spec fn first_id_failure(patterns: Seq<PatternView>, entries: Seq<EntryView>) -> Option<
    Failure,
>
    decreases patterns.len(),
{
    if patterns.len() == 0 {
        None
    } else if first_id_failure(patterns.drop_last(), entries) is Some {
        first_id_failure(patterns.drop_last(), entries)
    } else {
        id_failure(patterns.last(), entries)
    }
}

proof fn lemma_first_id_failure(patterns: Seq<PatternView>, entries: Seq<EntryView>, n: int)
    requires
        0 <= n <= patterns.len(),
        first_id_failure(patterns.take(n), entries) is Some,
    ensures
        first_id_failure(patterns, entries) == first_id_failure(patterns.take(n), entries),
    decreases patterns.len(),
{
    if n < patterns.len() {
        assert(patterns.drop_last().take(n) =~= patterns.take(n));
        lemma_first_id_failure(patterns.drop_last(), entries, n);
    } else {
        assert(patterns.take(n) =~= patterns);
    }
}

/// Asking for exactness only narrows what an id names, and both forms that an id
/// is written in name their hunk with it and without it.
pub proof fn exactness_only_narrows(value: Seq<char>, hunk: HunkView)
    requires
        full_id(hunk.id),
        begins_with(hunk.id, hunk.short_id),
        hunk.short_id.len() > HUNK_ID_PREFIX@.len(),
    ensures
        ({
            let plain = |v: Seq<char>|
                PatternView { kind: PatternKind::Exact, value: v, explicit: false };
            let exact = |v: Seq<char>|
                PatternView { kind: PatternKind::Exact, value: v, explicit: true };
            &&& id_names(exact(value), hunk) ==> id_names(plain(value), hunk)
            &&& id_names(exact(hunk.id), hunk) && id_names(plain(hunk.id), hunk)
            &&& id_names(exact(hunk.short_id), hunk) && id_names(plain(hunk.short_id), hunk)
        }),
{
    assert(begins_with(hunk.id, hunk.id)) by {
        assert(hunk.id.take(hunk.id.len() as int) =~= hunk.id);
    }
    a_written_id_is_normal(hunk.id, hunk.id);
    a_written_id_is_normal(hunk.id, hunk.short_id);
}

/// An id that is accepted names one hunk: neither none nor several.
pub proof fn an_accepted_id_names_one_hunk(p: PatternView, entries: Seq<EntryView>)
    requires
        id_failure(p, entries) is None,
    ensures
        entries_named(p, entries).len() == 1,
{
}

/// The candidates for a pattern of `id()`.
fn named_candidates(p: &CompiledPattern, hunks: &[EnrichedHunk]) -> (out: Vec<IdCandidate>)
    ensures
        deep(out@) == candidates_of(entries_named(p.deep_view(), deep(hunks@))),
{
    broadcast use group_deep;

    let ghost views = deep(hunks@);
    let mut out: Vec<IdCandidate> = Vec::new();
    let mut i: usize = 0;
    assert(views.take(0) =~= Seq::empty());
    assert(candidates_of(entries_named(p.deep_view(), views.take(0))) =~= Seq::empty());
    while i < hunks.len()
        invariant
            views == deep(hunks@),
            i <= hunks.len(),
            deep(out@) == candidates_of(entries_named(p.deep_view(), views.take(i as int))),
        decreases hunks.len() - i,
    {
        let ghost before = entries_named(p.deep_view(), views.take(i as int));
        assert(views.take(i as int + 1).drop_last() =~= views.take(i as int));
        let entry = &hunks[i];
        if let Some(hunk) = entry.content() {
            if names_hunk(p, hunk) {
                let c = IdCandidate {
                    short_id: entry.short_id().to_owned(),
                    path: entry.file_path.to_owned(),
                };
                assert(candidates_of(before.push(views[i as int])) =~= candidates_of(before).push(
                    c.deep_view(),
                ));
                out.push(c);
            }
        }
        i += 1;
    }
    assert(views.take(views.len() as int) =~= views);
    out
}

/// Resolve every pattern of `id()` to the one hunk it names.
///
/// An id that names several hunks is an error, not a multi-select, and so is
/// one that names none: an id names a specific hunk.
fn check_ids(patterns: &Vec<CompiledPattern>, hunks: &[EnrichedHunk]) -> (r: Result<
    (),
    HunksetError,
>)
    ensures
        match r {
            Ok(_) => first_id_failure(deep(patterns@), deep(hunks@)) is None,
            Err(e) => first_id_failure(deep(patterns@), deep(hunks@)) == Some(e.deep_view()),
        },
{
    let ghost views = deep(patterns@);
    let ghost entries = deep(hunks@);
    let mut i: usize = 0;
    assert(views.take(0) =~= Seq::empty());
    while i < patterns.len()
        invariant
            views == deep(patterns@),
            entries == deep(hunks@),
            i <= patterns.len(),
            first_id_failure(views.take(i as int), entries) is None,
        decreases patterns.len() - i,
    {
        assert(views.take(i as int + 1).drop_last() =~= views.take(i as int));
        let p = &patterns[i];
        match check_id(p, hunks) {
            Ok(_) => {},
            Err(e) => {
                proof {
                    lemma_first_id_failure(views, entries, i as int + 1);
                }
                return Err(e);
            },
        }
        i += 1;
    }
    assert(views.take(views.len() as int) =~= views);
    Ok(())
}

fn check_id(p: &CompiledPattern, hunks: &[EnrichedHunk]) -> (r: Result<(), HunksetError>)
    ensures
        match r {
            Ok(_) => id_failure(p.deep_view(), deep(hunks@)) is None,
            Err(e) => id_failure(p.deep_view(), deep(hunks@)) == Some(e.deep_view()),
        },
{
    if let Some(kind) = p.explicit_kind() {
        if !p.is_explicitly_exact() {
            let mut value = kind.to_owned();
            value.append(":\"");
            value.append(p.value());
            value.append("\"");
            return Err(
                invalid(
                    "id",
                    value,
                    "a plain id, or exact:\"<id>\" to rule out abbreviation -- id() resolves ids, it does not pattern-match them",
                ),
            );
        }
    }
    if normalize_hunk_id(p.value()).is_none() {
        return Err(
            invalid(
                "id",
                p.value().to_owned(),
                "a hunk id such as hunk-4c1b1b3... (or an unambiguous prefix)",
            ),
        );
    }
    let named = named_candidates(p, hunks);
    if named.len() > 1 {
        return Err(
            HunksetError::AmbiguousId { prefix: p.value().to_owned(), candidates: sort(named) },
        );
    }
    if named.len() == 0 {
        return Err(HunksetError::UnknownId { id: p.value().to_owned() });
    }
    Ok(())
}

// ---------------------------------------------------------------------------
// Warnings
// ---------------------------------------------------------------------------

pub open spec fn paths_of_entries(entries: Seq<EntryView>) -> Seq<Seq<char>> {
    Seq::new(entries.len(), |i: int| entries[i].path)
}

/// Whether a parser has looked at any of the hunks.
pub open spec fn any_analyzed(entries: Seq<EntryView>) -> bool {
    exists|i: int|
        0 <= i < entries.len() && !(#[trigger] entries[i]).stand_in
            && entries[i].hunk.semantic.is_analyzed
}

/// What is said of a semantic predicate that selects nothing because no file
/// could be parsed.
pub open spec fn unparsed_warning(func: Seq<char>, entries: Seq<EntryView>) -> Seq<char> {
    let files = without_repeats(sorted::<String>(paths_of_entries(entries)));
    let shown = joined(
        if files.len() <= 3 {
            files
        } else {
            files.take(3)
        },
        ", "@,
    );
    let more = if files.len() > 3 {
        " (+"@ + decimal((files.len() - 3) as nat) + " more)"@
    } else {
        Seq::empty()
    };
    "warning: "@ + func
        + "() found no semantic metadata -- no parser is available for: "@ + shown + more
        + ". The empty result reflects missing language support, not an absence of matches."@
}

/// The warnings that come with the outcome of a semantic predicate.
pub open spec fn warnings_for(func: Seq<char>, empty: bool, entries: Seq<EntryView>) -> Seq<
    Seq<char>,
> {
    if empty && entries.len() > 0 && !any_analyzed(entries) {
        seq![unparsed_warning(func, entries)]
    } else {
        Seq::empty()
    }
}

fn sorted_files(hunks: &[EnrichedHunk]) -> (out: Vec<String>)
    ensures
        deep(out@) == without_repeats(sorted::<String>(paths_of_entries(deep(hunks@)))),
{
    broadcast use group_deep;

    let mut paths: Vec<String> = Vec::new();
    let mut i: usize = 0;
    while i < hunks.len()
        invariant
            i <= hunks.len(),
            paths@.len() == i,
            forall|j: int|
                0 <= j < i ==> (#[trigger] paths@[j])@ == deep(hunks@)[j].path,
        decreases hunks.len() - i,
    {
        paths.push(hunks[i].file_path.to_owned());
        i += 1;
    }
    assert(deep(paths@) =~= paths_of_entries(deep(hunks@)));
    distinct(paths)
}

/// The warnings that come with the outcome of a semantic predicate: one where
/// it selects nothing because nothing could be parsed.
///
/// None where some file was analyzed: an empty result is then a real answer.
fn warn_if_nothing_analyzed(func: &str, empty: bool, hunks: &[EnrichedHunk]) -> (out: Vec<String>)
    ensures
        deep(out@) == warnings_for(func@, empty, deep(hunks@)),
{
    broadcast use group_deep;

    let mut out: Vec<String> = Vec::new();
    if !empty || hunks.len() == 0 {
        return out;
    }
    let ghost entries = deep(hunks@);
    let mut i: usize = 0;
    while i < hunks.len()
        invariant
            entries == deep(hunks@),
            deep(out@) == Seq::<Seq<char>>::empty(),
            i <= hunks.len(),
            forall|j: int|
                0 <= j < i ==> (#[trigger] entries[j]).stand_in
                    || !entries[j].hunk.semantic.is_analyzed,
        decreases hunks.len() - i,
    {
        if let Some(hunk) = hunks[i].content() {
            if hunk.semantic.is_analyzed {
                assert(!entries[i as int].stand_in && entries[i as int].hunk.semantic.is_analyzed);
                return out;
            }
        }
        i += 1;
    }
    let files = sorted_files(hunks);
    let ghost names = deep(files@);
    let mut head: Vec<String> = Vec::new();
    i = 0;
    while i < files.len() && i < 3
        invariant
            names == deep(files@),
            i <= files.len(),
            i <= 3,
            head@.len() == i,
            forall|j: int| 0 <= j < i ==> (#[trigger] head@[j])@ == names[j],
        decreases files.len() - i,
    {
        head.push(files[i].clone());
        i += 1;
    }
    assert(deep(head@) =~= if names.len() <= 3 {
        names
    } else {
        names.take(3)
    });
    let mut text = concat3(
        "warning: ",
        func,
        "() found no semantic metadata -- no parser is available for: ",
    );
    text.append(join(&head, ", ").as_str());
    let ghost told = text@;
    if files.len() > 3 {
        text.append(concat3(" (+", number(files.len() - 3).as_str(), " more)").as_str());
    } else {
        assert(told + Seq::<char>::empty() =~= told);
    }
    text.append(". The empty result reflects missing language support, not an absence of matches.");
    assert(text@ == unparsed_warning(func@, entries));
    out.push(text);
    assert(deep(out@) =~= seq![unparsed_warning(func@, entries)]);
    out
}

// ---------------------------------------------------------------------------
// Outcomes
// ---------------------------------------------------------------------------

/// What evaluating comes to: the selected positions or a failure, and what was
/// warned of on the way.
#[verifier::ext_equal]
pub struct Outcome {
    pub result: Result<Set<usize>, Failure>,
    pub warnings: Seq<Seq<char>>,
}

pub open spec fn failed(e: Failure) -> Outcome {
    Outcome { result: Err(e), warnings: Seq::empty() }
}

pub open spec fn found(s: Set<usize>) -> Outcome {
    Outcome { result: Ok(s), warnings: Seq::empty() }
}

/// The positions of all entries.
pub open spec fn everything(n: nat) -> Set<usize> {
    Set::new(|i: usize| i < n)
}

/// The positions of the entries that a predicate holds of.
pub open spec fn chosen(
    p: Predicate,
    patterns: Seq<PatternView>,
    ranges: Seq<(usize, usize)>,
    entries: Seq<EntryView>,
) -> Set<usize> {
    Set::new(|i: usize| i < entries.len() && holds(p, patterns, ranges, entries[i as int]))
}

/// Whether a predicate reads what a parser found.
pub open spec fn is_semantic(p: Predicate) -> bool {
    match p {
        Predicate::Function | Predicate::Scope | Predicate::Annotation | Predicate::Doc
        | Predicate::Import | Predicate::Toplevel | Predicate::Depth => true,
        _ => false,
    }
}

/// What is wrong with a call whose patterns are all accepted.
pub open spec fn call_failure(
    name: Seq<char>,
    patterns: Seq<PatternView>,
    entries: Seq<EntryView>,
    semantic: bool,
) -> Option<Failure> {
    match predicate_named(name) {
        None => Some(Failure::UnknownFunction { name }),
        Some(Predicate::Status) => enum_failure("status"@, patterns, valid_statuses()),
        Some(Predicate::Type) => enum_failure("type"@, patterns, valid_types()),
        Some(Predicate::Id) => first_id_failure(patterns, entries),
        Some(p) => if is_semantic(p) && !semantic {
            Some(Failure::SemanticFeatureRequired { name })
        } else {
            None
        },
    }
}

/// What a call comes to.
pub open spec fn call_outcome(
    name: Seq<char>,
    args: Seq<ArgView>,
    entries: Seq<EntryView>,
    semantic: bool,
) -> Outcome {
    let patterns = patterns_of(name, args);
    if args_failure(name, args) is Some {
        failed(args_failure(name, args)->0)
    } else if first_refusal(patterns) is Some {
        failed(first_refusal(patterns)->0)
    } else if call_failure(name, patterns, entries, semantic) is Some {
        failed(call_failure(name, patterns, entries, semantic)->0)
    } else {
        let p = predicate_named(name)->0;
        let selected = chosen(p, patterns, ranges_of(args), entries);
        Outcome {
            result: Ok(selected),
            warnings: if is_semantic(p) {
                warnings_for(name, selected == Set::<usize>::empty(), entries)
            } else {
                Seq::empty()
            },
        }
    }
}

/// Whether two arguments are the same word, written with quotes or without:
/// the kind of neither was asked for.
pub open spec fn same_word(a: ArgView, b: ArgView) -> bool {
    ||| a == b
    ||| match (a, b) {
        (ArgView::Pattern(p), ArgView::Pattern(q)) => same_text(p, q),
        _ => false,
    }
}

/// Whether two patterns are the same text, its kind inferred.
pub open spec fn same_text(p: PatternView, q: PatternView) -> bool {
    &&& p.value == q.value
    &&& !p.explicit && !q.explicit
    &&& p.kind == PatternKind::Exact || p.kind == PatternKind::Substring
    &&& q.kind == PatternKind::Exact || q.kind == PatternKind::Substring
}

proof fn lemma_same_patterns(name: Seq<char>, a: Seq<ArgView>, b: Seq<ArgView>)
    requires
        a.len() == b.len(),
        forall|i: int| 0 <= i < a.len() ==> same_word(#[trigger] a[i], b[i]),
    ensures
        ranges_of(a) == ranges_of(b),
        first_arg_failure(name, true, a) == first_arg_failure(name, true, b),
        first_arg_failure(name, false, a) == first_arg_failure(name, false, b),
        patterns_of(name, a).len() == patterns_of(name, b).len(),
        forall|i: int|
            0 <= i < patterns_of(name, a).len() ==> {
                ||| #[trigger] patterns_of(name, a)[i] == patterns_of(name, b)[i]
                ||| assumed_kind(name) is None && same_text(
                    patterns_of(name, a)[i],
                    patterns_of(name, b)[i],
                )
            },
    decreases a.len(),
{
    if a.len() > 0 {
        let x = a.drop_last();
        let y = b.drop_last();
        assert forall|i: int| 0 <= i < x.len() implies same_word(#[trigger] x[i], y[i]) by {
            assert(same_word(a[i], b[i]));
        }
        lemma_same_patterns(name, x, y);
        assert(same_word(a[a.len() - 1], b[b.len() - 1]));
    }
}

proof fn lemma_same_entries(p: PatternView, q: PatternView, entries: Seq<EntryView>)
    requires
        same_text(p, q),
    ensures
        entries_named(p, entries) == entries_named(q, entries),
    decreases entries.len(),
{
    if entries.len() > 0 {
        lemma_same_entries(p, q, entries.drop_last());
    }
}

proof fn lemma_same_failures(
    a: Seq<PatternView>,
    b: Seq<PatternView>,
    entries: Seq<EntryView>,
)
    requires
        a.len() == b.len(),
        forall|i: int| 0 <= i < a.len() ==> #[trigger] a[i] == b[i] || same_text(a[i], b[i]),
    ensures
        first_refusal(a) == first_refusal(b),
        first_id_failure(a, entries) == first_id_failure(b, entries),
    decreases a.len(),
{
    if a.len() > 0 {
        let x = a.drop_last();
        let y = b.drop_last();
        assert forall|i: int| 0 <= i < x.len() implies #[trigger] x[i] == y[i] || same_text(
            x[i],
            y[i],
        ) by {
            assert(a[i] == b[i] || same_text(a[i], b[i]));
        }
        lemma_same_failures(x, y, entries);
        let p = a[a.len() - 1];
        let q = b[b.len() - 1];
        if p != q {
            lemma_same_entries(p, q, entries);
        }
    }
}

/// Dropping the quotes round an argument changes nothing: which kind was inferred
/// for a word does not matter to what a call comes to.
pub proof fn quotes_do_not_matter(
    name: Seq<char>,
    a: Seq<ArgView>,
    b: Seq<ArgView>,
    entries: Seq<EntryView>,
    semantic: bool,
)
    requires
        a.len() == b.len(),
        forall|i: int| 0 <= i < a.len() ==> same_word(#[trigger] a[i], b[i]),
    ensures
        call_outcome(name, a, entries, semantic) == call_outcome(name, b, entries, semantic),
{
    lemma_same_patterns(name, a, b);
    let p = patterns_of(name, a);
    let q = patterns_of(name, b);
    if assumed_kind(name) is Some {
        assert(p =~= q);
    } else {
        lemma_same_failures(p, q, entries);
        if let Some(predicate) = predicate_named(name) {
            let ranges = ranges_of(a);
            assert forall|e: EntryView|
                holds(predicate, p, ranges, e) == #[trigger] holds(predicate, q, ranges, e) by {
                if predicate == Predicate::Id {
                    assert forall|i: int| 0 <= i < p.len() implies id_names(
                        #[trigger] p[i],
                        e.hunk,
                    ) == id_names(q[i], e.hunk) by {}
                    if holds(predicate, p, ranges, e) {
                        let i = choose|i: int| 0 <= i < p.len() && id_names(#[trigger] p[i], e.hunk);
                        assert(id_names(q[i], e.hunk));
                    }
                    if holds(predicate, q, ranges, e) {
                        let i = choose|i: int| 0 <= i < q.len() && id_names(#[trigger] q[i], e.hunk);
                        assert(id_names(p[i], e.hunk));
                    }
                }
            }
            assert(chosen(predicate, p, ranges, entries) =~= chosen(predicate, q, ranges, entries));
        }
    }
}

/// A binary operator.
#[derive(Debug, Clone, Copy, PartialEq, Eq, Structural)]
pub enum Op {
    Union,
    Intersection,
    Difference,
}

pub open spec fn applied(op: Op, a: Set<usize>, b: Set<usize>) -> Set<usize> {
    match op {
        Op::Union => a.union(b),
        Op::Intersection => a.intersect(b),
        Op::Difference => a.difference(b),
    }
}

/// What an operator comes to: the left side is evaluated first, and a failure
/// there keeps the right side from being looked at.
pub open spec fn combined(op: Op, left: Outcome, right: Outcome) -> Outcome {
    match left.result {
        Err(_) => left,
        Ok(a) => Outcome {
            result: match right.result {
                Ok(b) => Ok(applied(op, a, b)),
                Err(e) => Err(e),
            },
            warnings: left.warnings + right.warnings,
        },
    }
}

/// What an expression comes to.
pub open spec fn outcome(expr: ExprView, entries: Seq<EntryView>, semantic: bool) -> Outcome
    decreases expr,
{
    match expr {
        ExprView::All => found(everything(entries.len())),
        ExprView::Nothing => found(Set::empty()),
        ExprView::Negation(inner) => {
            let o = outcome(*inner, entries, semantic);
            Outcome {
                result: match o.result {
                    Ok(s) => Ok(everything(entries.len()).difference(s)),
                    Err(e) => Err(e),
                },
                warnings: o.warnings,
            }
        },
        ExprView::Union(left, right) => combined(
            Op::Union,
            outcome(*left, entries, semantic),
            outcome(*right, entries, semantic),
        ),
        ExprView::Intersection(left, right) => combined(
            Op::Intersection,
            outcome(*left, entries, semantic),
            outcome(*right, entries, semantic),
        ),
        ExprView::Difference(left, right) => combined(
            Op::Difference,
            outcome(*left, entries, semantic),
            outcome(*right, entries, semantic),
        ),
        ExprView::Function(name, args) => call_outcome(name, args, entries, semantic),
    }
}

/// The positions that flags mark.
pub open spec fn marked(flags: Seq<bool>) -> Set<usize> {
    Set::new(|i: usize| i < flags.len() && flags[i as int])
}

/// Whether an evaluation came to an outcome.
pub open spec fn comes_to(
    r: Result<Vec<bool>, HunksetError>,
    warned: Seq<Seq<char>>,
    n: nat,
    expected: Outcome,
) -> bool {
    &&& match r {
        Ok(flags) => flags@.len() == n && expected.result == Ok::<Set<usize>, Failure>(
            marked(flags@),
        ),
        Err(e) => expected.result == Err::<Set<usize>, Failure>(e.deep_view()),
    }
    &&& warned == expected.warnings
}

fn filled(n: usize, value: bool) -> (flags: Vec<bool>)
    ensures
        flags@.len() == n,
        forall|i: int| 0 <= i < n ==> flags@[i] == value,
{
    let mut flags: Vec<bool> = Vec::new();
    let mut i: usize = 0;
    while i < n
        invariant
            i <= n,
            flags@.len() == i,
            forall|j: int| 0 <= j < i ==> flags@[j] == value,
        decreases n - i,
    {
        flags.push(value);
        i += 1;
    }
    flags
}

/// The entries that a predicate holds of.
fn filter_entries(
    p: Predicate,
    patterns: &Vec<CompiledPattern>,
    ranges: &Vec<(usize, usize)>,
    hunks: &[EnrichedHunk],
) -> (flags: Vec<bool>)
    ensures
        flags@.len() == hunks@.len(),
        marked(flags@) == chosen(p, deep(patterns@), ranges@, deep(hunks@)),
{
    let ghost entries = deep(hunks@);
    let mut flags: Vec<bool> = Vec::new();
    let mut i: usize = 0;
    while i < hunks.len()
        invariant
            entries == deep(hunks@),
            i <= hunks.len(),
            flags@.len() == i,
            forall|j: int|
                0 <= j < i ==> flags@[j] == holds(p, deep(patterns@), ranges@, #[trigger] entries[j]),
        decreases hunks.len() - i,
    {
        flags.push(entry_matches(p, patterns, ranges, &hunks[i]));
        i += 1;
    }
    assert(marked(flags@) =~= chosen(p, deep(patterns@), ranges@, entries));
    flags
}

/// Whether no flag is set.
fn none_set(flags: &Vec<bool>) -> (r: bool)
    ensures
        r == (marked(flags@) == Set::<usize>::empty()),
{
    let mut i: usize = 0;
    while i < flags.len()
        invariant
            i <= flags.len(),
            forall|j: int| 0 <= j < i ==> !flags@[j],
        decreases flags.len() - i,
    {
        if flags[i] {
            assert(marked(flags@).contains(i));
            return false;
        }
        i += 1;
    }
    assert(marked(flags@) =~= Set::<usize>::empty());
    true
}

/// What a call selects, and what it warns of.
fn evaluate_function(name: &str, args: &Vec<Arg>, hunks: &[EnrichedHunk], semantic: bool) -> (r: (
    Result<Vec<bool>, HunksetError>,
    Vec<String>,
))
    ensures
        comes_to(
            r.0,
            deep(r.1@),
            hunks@.len(),
            call_outcome(name@, deep(args@), deep(hunks@), semantic),
        ),
{
    broadcast use group_deep;

    let silent: Vec<String> = Vec::new();
    if let Err(e) = validate_args(name, args) {
        return (Err(e), silent);
    }
    let compiled = match compile_args(name, args) {
        Ok(compiled) => compiled,
        Err(e) => {
            return (Err(e), silent);
        },
    };
    let p = match find_predicate(name) {
        Some(p) => p,
        None => {
            return (Err(HunksetError::UnknownFunction { name: name.to_owned() }), silent);
        },
    };
    let ranges = extract_ranges(args);
    match p {
        Predicate::Status => {
            if let Err(e) = validate_enum_args("status", &compiled, &status_values()) {
                return (Err(e), silent);
            }
        },
        Predicate::Type => {
            if let Err(e) = validate_enum_args("type", &compiled, &type_values()) {
                return (Err(e), silent);
            }
        },
        Predicate::Id => {
            if let Err(e) = check_ids(&compiled, hunks) {
                return (Err(e), silent);
            }
        },
        Predicate::Function | Predicate::Scope | Predicate::Annotation | Predicate::Doc
        | Predicate::Import | Predicate::Toplevel | Predicate::Depth => {
            if !semantic {
                return (
                    Err(HunksetError::SemanticFeatureRequired { name: name.to_owned() }),
                    silent,
                );
            }
            let flags = filter_entries(p, &compiled, &ranges, hunks);
            let warned = warn_if_nothing_analyzed(name, none_set(&flags), hunks);
            return (Ok(flags), warned);
        },
        _ => {},
    }
    (Ok(filter_entries(p, &compiled, &ranges, hunks)), silent)
}

/// Apply an operator to two selections.
fn apply(op: Op, left: Vec<bool>, right: &Vec<bool>) -> (out: Vec<bool>)
    requires
        left@.len() == right@.len(),
    ensures
        out@.len() == left@.len(),
        marked(out@) == applied(op, marked(left@), marked(right@)),
{
    let mut out: Vec<bool> = Vec::new();
    let mut i: usize = 0;
    while i < left.len()
        invariant
            left@.len() == right@.len(),
            i <= left.len(),
            out@.len() == i,
            forall|j: int|
                0 <= j < i ==> out@[j] == match op {
                    Op::Union => left@[j] || right@[j],
                    Op::Intersection => left@[j] && right@[j],
                    Op::Difference => left@[j] && !right@[j],
                },
        decreases left.len() - i,
    {
        out.push(
            match op {
                Op::Union => left[i] || right[i],
                Op::Intersection => left[i] && right[i],
                Op::Difference => left[i] && !right[i],
            },
        );
        i += 1;
    }
    assert(marked(out@) =~= applied(op, marked(left@), marked(right@)));
    out
}

/// What a run of operators comes to, innermost first, from the outcome of its
/// leftmost operand.
pub open spec fn climbed(
    base: Outcome,
    spine: Seq<(Op, ExprView)>,
    entries: Seq<EntryView>,
    semantic: bool,
) -> Outcome
    decreases spine.len(),
{
    if spine.len() == 0 {
        base
    } else {
        climbed(
            combined(spine.last().0, base, outcome(spine.last().1, entries, semantic)),
            spine.drop_last(),
            entries,
            semantic,
        )
    }
}

proof fn lemma_climb_failed(
    base: Outcome,
    spine: Seq<(Op, ExprView)>,
    entries: Seq<EntryView>,
    semantic: bool,
)
    requires
        base.result is Err,
    ensures
        climbed(base, spine, entries, semantic) == base,
    decreases spine.len(),
{
    if spine.len() > 0 {
        lemma_climb_failed(base, spine.drop_last(), entries, semantic);
    }
}

pub open spec fn spine_views(spine: Seq<(Op, &Expr)>) -> Seq<(Op, ExprView)> {
    Seq::new(spine.len(), |i: int| (spine[i].0, spine[i].1.shape()))
}

proof fn lemma_spine_push(spine: Seq<(Op, &Expr)>, op: Op, right: &Expr)
    ensures
        spine_views(spine.push((op, right))) == spine_views(spine).push((op, right.shape())),
{
    assert(spine_views(spine.push((op, right))) =~= spine_views(spine).push((op, right.shape())));
}

pub open spec fn is_binary(expr: Expr) -> bool {
    expr is Union || expr is Intersection || expr is Difference
}

/// Evaluate a run of binary operators without recursing down its left spine,
/// which is as long as the run.
fn evaluate_chain(expr: &Expr, hunks: &[EnrichedHunk], semantic: bool) -> (r: (
    Result<Vec<bool>, HunksetError>,
    Vec<String>,
))
    requires
        is_binary(*expr),
    ensures
        comes_to(
            r.0,
            deep(r.1@),
            hunks@.len(),
            outcome(expr.shape(), deep(hunks@), semantic),
        ),
    decreases expr.size(), 0int,
{
    let ghost entries = deep(hunks@);
    let ghost whole = outcome(expr.shape(), entries, semantic);
    let mut spine: Vec<(Op, &Expr)> = Vec::new();
    let mut node = expr;
    assert(spine_views(spine@) =~= Seq::empty());
    loop
        invariant
            entries == deep(hunks@),
            whole == climbed(
                outcome(node.shape(), entries, semantic),
                spine_views(spine@),
                entries,
                semantic,
            ),
            node.size() <= expr.size(),
            spine@.len() == 0 ==> node == expr,
            is_binary(*expr),
            spine@.len() > 0 ==> node.size() < expr.size(),
            forall|i: int| 0 <= i < spine@.len() ==> (#[trigger] spine@[i]).1.size() < expr.size(),
        ensures
            entries == deep(hunks@),
            !is_binary(*node),
            whole == climbed(
                outcome(node.shape(), entries, semantic),
                spine_views(spine@),
                entries,
                semantic,
            ),
            node.size() < expr.size(),
            forall|i: int| 0 <= i < spine@.len() ==> (#[trigger] spine@[i]).1.size() < expr.size(),
        decreases node.size(),
    {
        let ghost held = spine@;
        match node {
            Expr::Union(left, right) => {
                proof {
                    lemma_spine_push(held, Op::Union, &**right);
                    assert(spine_views(held).push((Op::Union, right.shape())).drop_last()
                        =~= spine_views(held));
                }
                spine.push((Op::Union, &**right));
                node = &**left;
            },
            Expr::Intersection(left, right) => {
                proof {
                    lemma_spine_push(held, Op::Intersection, &**right);
                    assert(spine_views(held).push((Op::Intersection, right.shape())).drop_last()
                        =~= spine_views(held));
                }
                spine.push((Op::Intersection, &**right));
                node = &**left;
            },
            Expr::Difference(left, right) => {
                proof {
                    lemma_spine_push(held, Op::Difference, &**right);
                    assert(spine_views(held).push((Op::Difference, right.shape())).drop_last()
                        =~= spine_views(held));
                }
                spine.push((Op::Difference, &**right));
                node = &**left;
            },
            _ => {
                break;
            },
        }
    }
    let (first, mut warnings) = evaluate_flags(node, hunks, semantic);
    let ghost base = outcome(node.shape(), entries, semantic);
    let mut acc = match first {
        Ok(flags) => flags,
        Err(e) => {
            proof {
                lemma_climb_failed(base, spine_views(spine@), entries, semantic);
            }
            return (Err(e), warnings);
        },
    };
    let ghost mut now = base;
    while spine.len() > 0
        invariant
            entries == deep(hunks@),
            whole == climbed(now, spine_views(spine@), entries, semantic),
            now.result == Ok::<Set<usize>, Failure>(marked(acc@)),
            now.warnings == deep(warnings@),
            acc@.len() == hunks@.len(),
            forall|i: int| 0 <= i < spine@.len() ==> (#[trigger] spine@[i]).1.size() < expr.size(),
            whole == outcome(expr.shape(), entries, semantic),
        decreases spine.len(),
    {
        let ghost held = spine@;
        let (op, right) = spine.pop().unwrap();
        proof {
            assert(held[held.len() - 1] == (op, right));
            assert(spine_views(held).drop_last() =~= spine_views(spine@));
            assert(spine_views(held).last() == (op, right.shape()));
        }
        let (next, mut more) = evaluate_flags(right, hunks, semantic);
        let ghost shown = deep(warnings@);
        let ghost rest = deep(more@);
        warnings.append(&mut more);
        assert(deep(warnings@) =~= shown + rest);
        proof {
            now = combined(op, now, outcome(right.shape(), entries, semantic));
        }
        match next {
            Ok(rhs) => {
                acc = apply(op, acc, &rhs);
            },
            Err(e) => {
                proof {
                    lemma_climb_failed(now, spine_views(spine@), entries, semantic);
                }
                return (Err(e), warnings);
            },
        }
    }
    assert(spine_views(spine@).len() == 0);
    (Ok(acc), warnings)
}

fn evaluate_flags(expr: &Expr, hunks: &[EnrichedHunk], semantic: bool) -> (r: (
    Result<Vec<bool>, HunksetError>,
    Vec<String>,
))
    ensures
        comes_to(
            r.0,
            deep(r.1@),
            hunks@.len(),
            outcome(expr.shape(), deep(hunks@), semantic),
        ),
    decreases expr.size(), 1int,
{
    broadcast use group_deep;

    let silent: Vec<String> = Vec::new();
    match expr {
        Expr::All => {
            let flags = filled(hunks.len(), true);
            assert(marked(flags@) =~= everything(hunks@.len()));
            (Ok(flags), silent)
        },
        Expr::Nothing => {
            let flags = filled(hunks.len(), false);
            assert(marked(flags@) =~= Set::<usize>::empty());
            (Ok(flags), silent)
        },
        Expr::Negation(inner) => {
            let (r, warnings) = evaluate_flags(inner, hunks, semantic);
            match r {
                Ok(flags) => {
                    let all = filled(hunks.len(), true);
                    assert(marked(all@) =~= everything(hunks@.len()));
                    (Ok(apply(Op::Difference, all, &flags)), warnings)
                },
                Err(e) => (Err(e), warnings),
            }
        },
        Expr::Union(_, _) | Expr::Intersection(_, _) | Expr::Difference(_, _) => evaluate_chain(
            expr,
            hunks,
            semantic,
        ),
        Expr::Function(name, args) => evaluate_function(name.as_str(), args, hunks, semantic),
    }
}

/// Evaluate an expression against some entries.
///
/// Gives the positions selected or what is wrong, and the warnings that go with
/// it. Without `semantic`, a predicate that reads what a parser found is an
/// error.
pub fn evaluate_with(expr: &Expr, hunks: &[EnrichedHunk], semantic: bool) -> (r: (
    Result<HashSet<usize>, HunksetError>,
    Vec<String>,
))
    ensures
        ({
            let expected = outcome(expr.shape(), deep(hunks@), semantic);
            &&& match r.0 {
                Ok(selected) => expected.result == Ok::<Set<usize>, Failure>(selected@),
                Err(e) => expected.result == Err::<Set<usize>, Failure>(e.deep_view()),
            }
            &&& deep(r.1@) == expected.warnings
        }),
{
    let (r, warnings) = evaluate_flags(expr, hunks, semantic);
    match r {
        Ok(flags) => {
            let mut selected: HashSet<usize> = HashSet::new();
            let mut i: usize = 0;
            assert(selected@ =~= marked(flags@.take(0)));
            while i < flags.len()
                invariant
                    i <= flags.len(),
                    selected@ == marked(flags@.take(i as int)),
                decreases flags.len() - i,
            {
                if flags[i] {
                    selected.insert(i);
                }
                assert(selected@ =~= marked(flags@.take(i as int + 1)));
                i += 1;
            }
            assert(flags@.take(flags@.len() as int) =~= flags@);
            (Ok(selected), warnings)
        },
        Err(e) => (Err(e), warnings),
    }
}

/// Evaluate an expression against some entries that were analyzed: the
/// positions of the entries it selects.
pub fn evaluate(expr: &Expr, hunks: &[EnrichedHunk]) -> (r: Result<HashSet<usize>, HunksetError>)
    ensures
        ({
            let expected = outcome(expr.shape(), deep(hunks@), true);
            match r {
                Ok(selected) => expected.result == Ok::<Set<usize>, Failure>(selected@),
                Err(e) => expected.result == Err::<Set<usize>, Failure>(e.deep_view()),
            }
        }),
{
    evaluate_with(expr, hunks, true).0
}

// ---------------------------------------------------------------------------
// Laws
// ---------------------------------------------------------------------------

/// An expression never selects a position that is not there.
pub proof fn only_what_is_there_is_selected(
    expr: ExprView,
    entries: Seq<EntryView>,
    semantic: bool,
)
    ensures
        outcome(expr, entries, semantic).result matches Ok(s) ==> s.subset_of(
            everything(entries.len()),
        ),
    decreases expr,
{
    match expr {
        ExprView::Union(left, right) | ExprView::Intersection(left, right)
        | ExprView::Difference(left, right) => {
            only_what_is_there_is_selected(*left, entries, semantic);
            only_what_is_there_is_selected(*right, entries, semantic);
        },
        _ => {},
    }
}

/// Negating twice selects what was selected.
pub proof fn negating_twice_changes_nothing(
    expr: ExprView,
    entries: Seq<EntryView>,
    semantic: bool,
)
    ensures
        outcome(
            ExprView::Negation(Box::new(ExprView::Negation(Box::new(expr)))),
            entries,
            semantic,
        ) == outcome(expr, entries, semantic),
{
    only_what_is_there_is_selected(expr, entries, semantic);
    let once = ExprView::Negation(Box::new(expr));
    let o = outcome(expr, entries, semantic);
    if let Ok(s) = o.result {
        let all = everything(entries.len());
        assert(outcome(once, entries, semantic).result == Ok::<Set<usize>, Failure>(
            all.difference(s),
        ));
        assert(all.difference(all.difference(s)) =~= s);
    }
}

/// An expression and its negation split the entries between them.
pub proof fn an_expression_and_its_negation_are_everything(
    expr: ExprView,
    entries: Seq<EntryView>,
    semantic: bool,
)
    requires
        outcome(expr, entries, semantic).result is Ok,
    ensures
        ({
            let chosen = outcome(expr, entries, semantic).result->Ok_0;
            let rest = outcome(ExprView::Negation(Box::new(expr)), entries, semantic).result;
            &&& rest is Ok
            &&& chosen.union(rest->Ok_0) == everything(entries.len())
            &&& chosen.disjoint(rest->Ok_0)
        }),
{
    only_what_is_there_is_selected(expr, entries, semantic);
    let chosen = outcome(expr, entries, semantic).result->Ok_0;
    let all = everything(entries.len());
    assert(chosen.union(all.difference(chosen)) =~= all);
}

/// A failure is a failure under negation too: a query that cannot be answered
/// is never turned into everything.
pub proof fn negating_a_failure_is_a_failure(
    expr: ExprView,
    entries: Seq<EntryView>,
    semantic: bool,
)
    requires
        outcome(expr, entries, semantic).result is Err,
    ensures
        outcome(ExprView::Negation(Box::new(expr)), entries, semantic).result == outcome(
            expr,
            entries,
            semantic,
        ).result,
{
}

/// Taking away is keeping what the other does not select.
pub proof fn difference_is_intersection_with_the_negation(
    left: ExprView,
    right: ExprView,
    entries: Seq<EntryView>,
    semantic: bool,
)
    ensures
        outcome(
            ExprView::Difference(Box::new(left), Box::new(right)),
            entries,
            semantic,
        ) == outcome(
            ExprView::Intersection(
                Box::new(left),
                Box::new(ExprView::Negation(Box::new(right))),
            ),
            entries,
            semantic,
        ),
{
    only_what_is_there_is_selected(left, entries, semantic);
    let a = outcome(left, entries, semantic);
    let b = outcome(right, entries, semantic);
    let not_b = outcome(ExprView::Negation(Box::new(right)), entries, semantic);
    if a.result is Ok && b.result is Ok {
        let s = a.result->Ok_0;
        let t = b.result->Ok_0;
        assert(s.difference(t) =~= s.intersect(everything(entries.len()).difference(t)));
    }
    assert(combined(Op::Difference, a, b) == combined(Op::Intersection, a, not_b));
}

/// Where a union selects, the negation of it selects what neither side does.
pub proof fn negating_a_union_intersects_the_negations(
    left: ExprView,
    right: ExprView,
    entries: Seq<EntryView>,
    semantic: bool,
)
    ensures
        outcome(
            ExprView::Negation(Box::new(ExprView::Union(Box::new(left), Box::new(right)))),
            entries,
            semantic,
        ) == outcome(
            ExprView::Intersection(
                Box::new(ExprView::Negation(Box::new(left))),
                Box::new(ExprView::Negation(Box::new(right))),
            ),
            entries,
            semantic,
        ),
{
    let a = outcome(left, entries, semantic);
    let b = outcome(right, entries, semantic);
    let either = ExprView::Union(Box::new(left), Box::new(right));
    let not_a = outcome(ExprView::Negation(Box::new(left)), entries, semantic);
    let not_b = outcome(ExprView::Negation(Box::new(right)), entries, semantic);
    assert(outcome(either, entries, semantic) == combined(Op::Union, a, b));
    if a.result is Ok && b.result is Ok {
        let s = a.result->Ok_0;
        let t = b.result->Ok_0;
        let all = everything(entries.len());
        assert(all.difference(s.union(t)) =~= all.difference(s).intersect(all.difference(t)));
    }
    assert(outcome(ExprView::Negation(Box::new(either)), entries, semantic) == combined(
        Op::Intersection,
        not_a,
        not_b,
    ));
}

// ---------------------------------------------------------------------------
// From a selection to a spec
// ---------------------------------------------------------------------------

/// The ids of the selected entries of a file, in the order of their positions,
/// among the first `n`.
pub open spec fn ids_under(
    entries: Seq<EntryView>,
    selected: Set<usize>,
    path: Seq<char>,
    n: nat,
) -> Seq<Seq<char>>
    decreases n,
{
    if n == 0 {
        Seq::empty()
    } else {
        let i = (n - 1) as usize;
        let rest = ids_under(entries, selected, path, (n - 1) as nat);
        if selected.contains(i) && entries[n - 1].path == path {
            rest.push(entries[n - 1].hunk.id)
        } else {
            rest
        }
    }
}

/// Whether an entry of a file among the first `n` is selected.
pub open spec fn some_selected(
    entries: Seq<EntryView>,
    selected: Set<usize>,
    path: Seq<char>,
    n: nat,
) -> bool {
    exists|i: usize|
        i < n && i < entries.len() && #[trigger] selected.contains(i) && entries[i as int].path
            == path
}

/// The entry a spec has for a file with selected hunks.
pub open spec fn selection_of(
    entries: Seq<EntryView>,
    selected: Set<usize>,
    sources: Map<Seq<char>, Seq<char>>,
    path: Seq<char>,
) -> FileSpecView {
    FileSpecView::Selection(
        HunkSpecView {
            hunks: Seq::empty(),
            ids: ids_under(entries, selected, path, entries.len()),
            from: if sources.dom().contains(path) {
                Some(sources[path])
            } else {
                None
            },
        },
    )
}

/// The entries of the spec that keeps a selection: one for each file that has
/// selected hunks, under the path it has now.
pub open spec fn selection_files(
    entries: Seq<EntryView>,
    selected: Set<usize>,
    sources: Map<Seq<char>, Seq<char>>,
) -> Map<Seq<char>, FileSpecView> {
    Map::new(
        |path: Seq<char>| some_selected(entries, selected, path, entries.len()),
        |path: Seq<char>| selection_of(entries, selected, sources, path),
    )
}

fn collect_ids(selected: &HashSet<usize>, hunks: &[EnrichedHunk], path: &str) -> (ids: Vec<String>)
    ensures
        deep(ids@) == ids_under(deep(hunks@), selected@, path@, hunks@.len()),
{
    broadcast use group_deep;

    let ghost entries = deep(hunks@);
    let mut ids: Vec<String> = Vec::new();
    let mut i: usize = 0;
    while i < hunks.len()
        invariant
            entries == deep(hunks@),
            i <= hunks.len(),
            deep(ids@) == ids_under(entries, selected@, path@, i as nat),
        decreases hunks.len() - i,
    {
        if selected.contains(&i) && same(hunks[i].file_path, path) {
            ids.push(hunks[i].id().to_owned());
        }
        i += 1;
    }
    ids
}

/// The spec that keeps what was selected and resets everything else.
///
/// A renamed file is filed under the path it has now: that is the one a file is
/// found by. The path it had goes with the entry, because its ids are computed
/// from what was there.
pub fn to_spec(
    selected: &HashSet<usize>,
    hunks: &[EnrichedHunk],
    rename_sources: &NameMap<String>,
) -> (r: Spec)
    ensures
        r.default == DefaultAction::Reset,
        deep_map(r.files) == selection_files(deep(hunks@), selected@, deep_map(*rename_sources)),
{
    broadcast use group_deep;

    let ghost entries = deep(hunks@);
    let ghost sources = deep_map(*rename_sources);
    let mut files: NameMap<FileSpec> = NameMap::new();
    assert(deep_map(files) =~= Map::empty());
    let mut i: usize = 0;
    while i < hunks.len()
        invariant
            entries == deep(hunks@),
            sources == deep_map(*rename_sources),
            i <= hunks.len(),
            forall|path: Seq<char>|
                #![trigger deep_map(files).dom().contains(path)]
                deep_map(files).dom().contains(path) <==> some_selected(
                    entries,
                    selected@,
                    path,
                    i as nat,
                ),
            forall|path: Seq<char>|
                deep_map(files).dom().contains(path) ==> #[trigger] deep_map(files)[path]
                    == selection_of(entries, selected@, sources, path),
        decreases hunks.len() - i,
    {
        let ghost before = deep_map(files);
        let path = hunks[i].file_path;
        assert(entries[i as int].path == path@);
        if selected.contains(&i) {
            let from = match rename_sources.get(path) {
                Some(source) => Some(source.clone()),
                None => None,
            };
            let entry = FileSpec::Selection(
                HunkSpec { hunks: Vec::new(), ids: collect_ids(selected, hunks, path), from },
            );
            proof {
                assert(entry.deep_view()->Selection_0.hunks =~= Seq::empty());
                assert(sources.dom().contains(path@) == rename_sources.has(path@));
                assert(entry.deep_view() == selection_of(entries, selected@, sources, path@));
            }
            let ghost was = files;
            let ghost kept = entry;
            files.insert(path.to_owned(), entry);
            proof {
                lemma_deep_map_insert(was, files, path@, kept);
                assert(deep_map(files) == before.insert(path@, kept.deep_view()));
            }
        }
        proof {
            let after = deep_map(files);
            assert forall|p: Seq<char>|
                #![trigger after.dom().contains(p)]
                after.dom().contains(p) <==> some_selected(
                    entries,
                    selected@,
                    p,
                    (i + 1) as nat,
                ) by {
                assert(before.dom().contains(p) <==> some_selected(
                    entries,
                    selected@,
                    p,
                    i as nat,
                ));
                if selected@.contains(i) && p == path@ {
                    assert(some_selected(entries, selected@, p, (i + 1) as nat));
                }
                if some_selected(entries, selected@, p, i as nat) {
                    assert(some_selected(entries, selected@, p, (i + 1) as nat));
                }
                if some_selected(entries, selected@, p, (i + 1) as nat) {
                    let k = choose|k: usize|
                        k < i + 1 && k < entries.len() && #[trigger] selected@.contains(k)
                            && entries[k as int].path == p;
                    if k < i {
                        assert(some_selected(entries, selected@, p, i as nat));
                    }
                }
            }
        }
        i += 1;
    }
    assert(deep_map(files) =~= selection_files(entries, selected@, sources));
    Spec { files, default: DefaultAction::Reset }
}

proof fn lemma_ids_under(
    entries: Seq<EntryView>,
    selected: Set<usize>,
    path: Seq<char>,
    n: nat,
    i: usize,
)
    requires
        i < n <= entries.len(),
        selected.contains(i),
        entries[i as int].path == path,
        entries.len() <= usize::MAX,
    ensures
        ids_under(entries, selected, path, n).contains(entries[i as int].hunk.id),
    decreases n,
{
    let id = entries[i as int].hunk.id;
    let rest = ids_under(entries, selected, path, (n - 1) as nat);
    if i < n - 1 {
        lemma_ids_under(entries, selected, path, (n - 1) as nat, i);
        let k = rest.index_of(id);
        assert(ids_under(entries, selected, path, n)[k] == id);
    } else {
        assert(ids_under(entries, selected, path, n).last() == id);
    }
}

/// Every selected hunk is named in the spec, under the path its file has now,
/// whatever path it was matched by.
pub proof fn every_selected_hunk_is_named(
    entries: Seq<EntryView>,
    selected: Set<usize>,
    sources: Map<Seq<char>, Seq<char>>,
    i: usize,
)
    requires
        selected.contains(i),
        i < entries.len() <= usize::MAX,
    ensures
        ({
            let files = selection_files(entries, selected, sources);
            let e = entries[i as int];
            &&& files.dom().contains(e.path)
            &&& files[e.path] matches FileSpecView::Selection(s) && s.ids.contains(e.hunk.id)
        }),
{
    let e = entries[i as int];
    assert(some_selected(entries, selected, e.path, entries.len()));
    lemma_ids_under(entries, selected, e.path, entries.len(), i);
}

// ---------------------------------------------------------------------------
// What an expression comes to
// ---------------------------------------------------------------------------

/// A call that does not fail selects the entries that its predicate holds of, and
/// no others.
pub proof fn a_call_selects_what_its_predicate_holds_of(
    name: Seq<char>,
    args: Seq<ArgView>,
    entries: Seq<EntryView>,
    semantic: bool,
    i: usize,
)
    ensures
        call_outcome(name, args, entries, semantic).result matches Ok(s) ==> {
            &&& predicate_named(name) is Some
            &&& s.contains(i) <==> i < entries.len() && holds(
                predicate_named(name)->0,
                patterns_of(name, args),
                ranges_of(args),
                entries[i as int],
            )
        },
{
}

/// An operator selects by what its sides select: either, both, or the left one
/// alone. The negation of an expression selects what it does not. Where a side
/// fails, the first that does is what the whole comes to.
pub proof fn an_operator_selects_by_its_sides(
    left: ExprView,
    right: ExprView,
    entries: Seq<EntryView>,
    semantic: bool,
    i: usize,
)
    ensures
        ({
            let a = outcome(left, entries, semantic).result;
            let b = outcome(right, entries, semantic).result;
            let either = outcome(
                ExprView::Union(Box::new(left), Box::new(right)),
                entries,
                semantic,
            ).result;
            let both = outcome(
                ExprView::Intersection(Box::new(left), Box::new(right)),
                entries,
                semantic,
            ).result;
            let alone = outcome(
                ExprView::Difference(Box::new(left), Box::new(right)),
                entries,
                semantic,
            ).result;
            let not = outcome(ExprView::Negation(Box::new(left)), entries, semantic).result;
            match (a, b) {
                (Err(e), _) => either == a && both == a && alone == a && not == a,
                (Ok(_), Err(e)) => either == b && both == b && alone == b && not is Ok,
                (Ok(x), Ok(y)) => {
                    &&& either matches Ok(s) && (s.contains(i) <==> x.contains(i) || y.contains(i))
                    &&& both matches Ok(s) && (s.contains(i) <==> x.contains(i) && y.contains(i))
                    &&& alone matches Ok(s) && (s.contains(i) <==> x.contains(i) && !y.contains(i))
                    &&& not matches Ok(s) && (s.contains(i) <==> i < entries.len() && !x.contains(
                        i,
                    ))
                },
            }
        }),
        outcome(ExprView::All, entries, semantic).result matches Ok(s) && (s.contains(i) <==> i
            < entries.len()),
        outcome(ExprView::Nothing, entries, semantic).result matches Ok(s) && !s.contains(i),
{
    reveal_with_fuel(outcome, 2);
}

/// A predicate warns exactly where it reads what a parser found, selects nothing,
/// and no parser has looked at any of the hunks there are.
pub proof fn a_predicate_warns_where_no_parser_has_looked(
    name: Seq<char>,
    args: Seq<ArgView>,
    entries: Seq<EntryView>,
    semantic: bool,
)
    ensures
        ({
            let o = call_outcome(name, args, entries, semantic);
            o.warnings.len() > 0 <==> {
                &&& o.result matches Ok(s) && forall|i: usize| !s.contains(i)
                &&& is_semantic(predicate_named(name)->0)
                &&& entries.len() > 0
                &&& forall|i: int|
                    0 <= i < entries.len() ==> (#[trigger] entries[i]).stand_in
                        || !entries[i].hunk.semantic.is_analyzed
            }
        }),
{
    let o = call_outcome(name, args, entries, semantic);
    if let Ok(s) = o.result {
        if forall|i: usize| !s.contains(i) {
            assert(s =~= Set::<usize>::empty());
        }
    }
}

/// The values that a predicate of fixed values is given are accepted exactly
/// where each is one of them.
pub proof fn only_values_there_are_are_accepted(
    func: Seq<char>,
    patterns: Seq<PatternView>,
    valid: Seq<Seq<char>>,
)
    ensures
        enum_failure(func, patterns, valid) is None <==> forall|i: int|
            0 <= i < patterns.len() ==> valid.contains((#[trigger] patterns[i]).value),
    decreases patterns.len(),
{
    if patterns.len() > 0 {
        let rest = patterns.drop_last();
        let last = patterns.len() - 1;
        only_values_there_are_are_accepted(func, rest, valid);
        assert(patterns[last] == patterns.last());
        if enum_failure(func, rest, valid) is None {
            assert forall|i: int| 0 <= i < last implies valid.contains(
                (#[trigger] patterns[i]).value,
            ) by {
                assert(rest[i] == patterns[i]);
                assert(valid.contains(rest[i].value));
            }
        } else {
            let i = choose|i: int|
                0 <= i < rest.len() && !valid.contains((#[trigger] rest[i]).value);
            assert(patterns[i] == rest[i]);
        }
    }
}

/// Arguments are accepted exactly where each of them is.
pub proof fn every_argument_is_checked(name: Seq<char>, numeric: bool, args: Seq<ArgView>)
    ensures
        first_arg_failure(name, numeric, args) is None <==> forall|i: int|
            0 <= i < args.len() ==> match #[trigger] args[i] {
                ArgView::Range(lo, hi) => numeric && lo <= hi,
                ArgView::Pattern(p) => !numeric || number_value(p.value) is Some,
            },
    decreases args.len(),
{
    if args.len() > 0 {
        let rest = args.drop_last();
        let last = args.len() - 1;
        every_argument_is_checked(name, numeric, rest);
        assert(args[last] == args.last());
        if first_arg_failure(name, numeric, rest) is None {
            assert forall|i: int| 0 <= i < last implies match #[trigger] args[i] {
                ArgView::Range(lo, hi) => numeric && lo <= hi,
                ArgView::Pattern(p) => !numeric || number_value(p.value) is Some,
            } by {
                assert(rest[i] == args[i]);
            }
        } else {
            let i = choose|i: int|
                0 <= i < rest.len() && !(match #[trigger] rest[i] {
                    ArgView::Range(lo, hi) => numeric && lo <= hi,
                    ArgView::Pattern(p) => !numeric || number_value(p.value) is Some,
                });
            assert(args[i] == rest[i]);
        }
    }
}

/// Every id that is asked for is checked, and all of them are accepted only where
/// each is.
pub proof fn every_id_is_checked(patterns: Seq<PatternView>, entries: Seq<EntryView>)
    ensures
        first_id_failure(patterns, entries) is None <==> forall|i: int|
            0 <= i < patterns.len() ==> id_failure(#[trigger] patterns[i], entries) is None,
    decreases patterns.len(),
{
    if patterns.len() > 0 {
        let rest = patterns.drop_last();
        let last = patterns.len() - 1;
        every_id_is_checked(rest, entries);
        assert(patterns[last] == patterns.last());
        if first_id_failure(rest, entries) is None {
            assert forall|i: int| 0 <= i < last implies id_failure(
                #[trigger] patterns[i],
                entries,
            ) is None by {
                assert(rest[i] == patterns[i]);
                assert(id_failure(rest[i], entries) is None);
            }
        } else {
            let i = choose|i: int|
                0 <= i < rest.len() && id_failure(#[trigger] rest[i], entries) is Some;
            assert(patterns[i] == rest[i]);
        }
    }
}

proof fn lemma_entries_named(p: PatternView, entries: Seq<EntryView>, e: EntryView)
    ensures
        entries_named(p, entries).contains(e) <==> entries.contains(e) && !e.stand_in && id_names(
            p,
            e.hunk,
        ),
    decreases entries.len(),
{
    if entries.len() > 0 {
        let rest = entries.drop_last();
        let before = entries_named(p, rest);
        let all = entries_named(p, entries);
        lemma_entries_named(p, rest, e);
        if entries.contains(e) && !e.stand_in && id_names(p, e.hunk) {
            let i = choose|i: int| 0 <= i < entries.len() && entries[i] == e;
            if i < rest.len() {
                assert(rest[i] == e);
                let k = choose|k: int| 0 <= k < before.len() && before[k] == e;
                assert(all[k] == e);
            } else {
                assert(all[all.len() - 1] == e);
            }
        }
        if all.contains(e) {
            let k = choose|k: int| 0 <= k < all.len() && all[k] == e;
            if k < before.len() {
                assert(before[k] == e);
                let i = choose|i: int| 0 <= i < rest.len() && rest[i] == e;
                assert(entries[i] == e);
            } else {
                assert(entries[entries.len() - 1] == e);
            }
        }
    }
}

/// An id that is accepted is written as an id, names a hunk that is there, and
/// names no other.
pub proof fn an_accepted_id_names_a_hunk_that_is_there(p: PatternView, entries: Seq<EntryView>)
    requires
        id_failure(p, entries) is None,
    ensures
        normal_id(p.value) is Some,
        p.explicit ==> p.kind == PatternKind::Exact,
        exists|e: EntryView| #[trigger]
            entries.contains(e) && !e.stand_in && id_names(p, e.hunk) && forall|f: EntryView|
             #[trigger]
                entries.contains(f) && !f.stand_in && id_names(p, f.hunk) ==> f == e,
{
    let named = entries_named(p, entries);
    let e = named[0];
    assert(named.contains(e));
    lemma_entries_named(p, entries, e);
    assert forall|f: EntryView| #[trigger]
        entries.contains(f) && !f.stand_in && id_names(p, f.hunk) implies f == e by {
        lemma_entries_named(p, entries, f);
        let k = choose|k: int| 0 <= k < named.len() && named[k] == f;
        assert(k == 0);
    }
}

/// An id names the hunks whose ids begin with it. Where exactness is asked for it
/// has to be all of the id, or all of the short one.
pub proof fn an_id_names_by_its_beginning(p: PatternView, hunk: HunkView, id: Seq<char>)
    requires
        normal_id(p.value) == Some(id),
    ensures
        !(p.explicit && p.kind == PatternKind::Exact) ==> (id_names(p, hunk) <==> exists|n: int|
            0 <= n <= hunk.id.len() && #[trigger] hunk.id.take(n) == id),
        p.explicit && p.kind == PatternKind::Exact ==> (id_names(p, hunk) <==> id == hunk.id || id
            == hunk.short_id),
{
    if exists|n: int| 0 <= n <= hunk.id.len() && #[trigger] hunk.id.take(n) == id {
        let n = choose|n: int| 0 <= n <= hunk.id.len() && #[trigger] hunk.id.take(n) == id;
        assert(id.len() == n);
    }
    if begins_with(hunk.id, id) {
        assert(hunk.id.take(id.len() as int) == id);
    }
}

/// A number that is written in decimal, with a plus sign or without, is read as
/// itself.
pub proof fn a_number_is_read_as_written(n: usize)
    ensures
        number_value(decimal(n as nat)) == Some(n),
        number_value(seq!['+'] + decimal(n as nat)) == Some(n),
{
    let digits = decimal(n as nat);
    super::parser::digits_spell_the_number(n as nat);
    assert(is_digit(digits[0]));
    assert((seq!['+'] + digits).skip(1) =~= digits);
}

/// The warnings of an operator are those of its left side and behind them those
/// of its right; where the left side fails, the right one is not looked at.
pub proof fn an_operator_passes_on_what_its_sides_warn_of(
    left: ExprView,
    right: ExprView,
    entries: Seq<EntryView>,
    semantic: bool,
)
    ensures
        ({
            let a = outcome(left, entries, semantic);
            let b = outcome(right, entries, semantic);
            let both = if a.result is Ok {
                a.warnings + b.warnings
            } else {
                a.warnings
            };
            &&& outcome(
                ExprView::Union(Box::new(left), Box::new(right)),
                entries,
                semantic,
            ).warnings == both
            &&& outcome(
                ExprView::Intersection(Box::new(left), Box::new(right)),
                entries,
                semantic,
            ).warnings == both
            &&& outcome(
                ExprView::Difference(Box::new(left), Box::new(right)),
                entries,
                semantic,
            ).warnings == both
            &&& outcome(ExprView::Negation(Box::new(left)), entries, semantic).warnings
                == a.warnings
        }),
{
    reveal_with_fuel(outcome, 2);
}

/// The spec that keeps a selection has an entry for each file with a selected
/// entry and for no other, under the path the file has now and with the path that
/// it came from where it was moved.
pub proof fn a_selection_has_an_entry_for_each_file_it_touches(
    entries: Seq<EntryView>,
    selected: Set<usize>,
    sources: Map<Seq<char>, Seq<char>>,
    path: Seq<char>,
)
    ensures
        ({
            let files = selection_files(entries, selected, sources);
            &&& files.dom().contains(path) <==> exists|i: usize|
                i < entries.len() && #[trigger] selected.contains(i) && entries[i as int].path
                    == path
            &&& files.dom().contains(path) ==> match files[path] {
                FileSpecView::Selection(s) => {
                    &&& s.hunks.len() == 0
                    &&& s.from is Some <==> sources.dom().contains(path)
                    &&& s.from matches Some(from) ==> sources[path] == from
                },
                FileSpecView::Action { .. } => false,
            }
        }),
{
}

} // verus!
