//! Hunks: what a file's change is made of, how each piece is named, and how a
//! selection of them is put back into the file.

use crate::names::NameSet;
use crate::patch::{
    differ_there, gap_agrees, hunk_places, hunks_are_all_that_differs,
    keeping_hunks_replaces_their_lines, lemma_hunk_in_place, spans_kept, text_with,
};
use crate::text::{
    begins_with, is_space, chars_of, concat, concat2, concat_range, count_lines, deep, group_deep, join,
    joined, line_count, line_pieces, number, split_lines_with_endings, starts_with, string_of,
};
use std::collections::HashSet;
use vstd::prelude::*;
use vstd::utf8::{encode_utf8, is_ascii_chars};

verus! {

broadcast use vstd::std_specs::hash::group_hash_axioms;

pub const HUNK_ID_PREFIX: &'static str = "hunk-";

/// Hex digits in a full hunk id (a SHA-256 digest).
pub const HUNK_ID_HEX_LEN: usize = 64;

/// Shortest abbreviation that is ever printed, in hex digits.
///
/// Shorter forms are still accepted on input: an unambiguous prefix of any
/// length resolves.
pub const MIN_SHORT_ID_HEX: usize = 8;

/// Lines of context on either side of a hunk.
pub const CONTEXT_LINES: usize = 3;

// ---------------------------------------------------------------------------
// Types
// ---------------------------------------------------------------------------

/// A run of lines: its first line, counted from one, and how many there are.
#[derive(Debug, Clone, Copy, PartialEq, Eq, Structural)]
pub struct LineRange {
    pub start: usize,
    pub length: usize,
}

/// The unchanged lines around a hunk.
#[derive(Debug, Clone)]
pub struct HunkContext {
    pub before: String,
    pub after: String,
}

/// What a parser knows about the code a hunk stands in.
#[derive(Debug, Clone)]
pub struct SemanticInfo {
    pub enclosing_function: Option<String>,
    pub enclosing_scope: Option<String>,
    pub annotations: Vec<String>,
    pub is_doc_comment: bool,
    pub is_import: bool,
    pub is_toplevel: bool,
    pub nesting_depth: usize,
    /// Whether a parser actually ran for this hunk's file: tells "parsed, and
    /// at the top level" from "never parsed".
    pub is_analyzed: bool,
}

/// One contiguous change to a file.
#[derive(Debug, Clone)]
pub struct Hunk {
    pub index: usize,
    pub id: String,
    /// The shortest unambiguous form of `id`, for people to read and retype.
    pub short_id: String,
    pub hunk_type: String,
    pub removed: String,
    pub added: String,
    pub before_range: LineRange,
    pub after_range: LineRange,
    pub context: Option<HunkContext>,
    pub semantic: SemanticInfo,
}

/// The hunks a selection names, by position and by id.
#[derive(Debug)]
pub struct HunkSelection {
    pub indices: HashSet<usize>,
    pub ids: NameSet,
}

/// An id that names more than one hunk.
#[derive(Debug)]
pub struct AmbiguousId {
    pub id: String,
    /// The abbreviated ids of the hunks it names.
    pub candidates: Vec<String>,
}

#[verifier::ext_equal]
pub struct ContextView {
    pub before: Seq<char>,
    pub after: Seq<char>,
}

#[verifier::ext_equal]
pub struct SemanticView {
    pub enclosing_function: Option<Seq<char>>,
    pub enclosing_scope: Option<Seq<char>>,
    pub annotations: Seq<Seq<char>>,
    pub is_doc_comment: bool,
    pub is_import: bool,
    pub is_toplevel: bool,
    pub nesting_depth: usize,
    pub is_analyzed: bool,
}

#[verifier::ext_equal]
pub struct HunkView {
    pub index: usize,
    pub id: Seq<char>,
    pub short_id: Seq<char>,
    pub hunk_type: Seq<char>,
    pub removed: Seq<char>,
    pub added: Seq<char>,
    pub before_range: LineRange,
    pub after_range: LineRange,
    pub context: Option<ContextView>,
    pub semantic: SemanticView,
}

impl DeepView for HunkContext {
    type V = ContextView;

    open spec fn deep_view(&self) -> ContextView {
        ContextView { before: self.before@, after: self.after@ }
    }
}

impl DeepView for SemanticInfo {
    type V = SemanticView;

    open spec fn deep_view(&self) -> SemanticView {
        SemanticView {
            enclosing_function: self.enclosing_function.deep_view(),
            enclosing_scope: self.enclosing_scope.deep_view(),
            annotations: deep(self.annotations@),
            is_doc_comment: self.is_doc_comment,
            is_import: self.is_import,
            is_toplevel: self.is_toplevel,
            nesting_depth: self.nesting_depth,
            is_analyzed: self.is_analyzed,
        }
    }
}

impl DeepView for Hunk {
    type V = HunkView;

    open spec fn deep_view(&self) -> HunkView {
        HunkView {
            index: self.index,
            id: self.id@,
            short_id: self.short_id@,
            hunk_type: self.hunk_type@,
            removed: self.removed@,
            added: self.added@,
            before_range: self.before_range,
            after_range: self.after_range,
            context: self.context.deep_view(),
            semantic: self.semantic.deep_view(),
        }
    }
}

/// What is known of code no parser has read.
pub open spec fn unanalyzed() -> SemanticView {
    SemanticView {
        enclosing_function: None,
        enclosing_scope: None,
        annotations: Seq::empty(),
        is_doc_comment: false,
        is_import: false,
        is_toplevel: false,
        nesting_depth: 0,
        is_analyzed: false,
    }
}

impl Default for SemanticInfo {
    fn default() -> (r: SemanticInfo)
        ensures
            r.deep_view() == unanalyzed(),
    {
        let r = SemanticInfo {
            enclosing_function: None,
            enclosing_scope: None,
            annotations: Vec::new(),
            is_doc_comment: false,
            is_import: false,
            is_toplevel: false,
            nesting_depth: 0,
            is_analyzed: false,
        };
        assert(deep(r.annotations@) =~= Seq::<Seq<char>>::empty());
        r
    }
}

impl Clone for HunkSelection {
    fn clone(&self) -> (r: HunkSelection)
        ensures
            r.indices@ == self.indices@,
            r.ids@ == self.ids@,
    {
        let mut indices: HashSet<usize> = HashSet::new();
        for index in walk: self.indices.iter()
            invariant
                walk.seq().unref().to_set() == self.indices@,
                indices@ == walk.seq().take(walk.index()).unref().to_set(),
                walk.index() == walk.seq().len() ==> indices@ == self.indices@,
        {
            let ghost k = walk.index();
            let ghost passed = walk.seq().take(k).unref();
            indices.insert(*index);
            assert(walk.seq().take(k + 1).unref() =~= passed.push(*index));
            assert(passed.push(*index).to_set() == passed.to_set().insert(*index)) by {
                broadcast use Seq::lemma_push_to_set_commute;

            }
            assert(k + 1 == walk.seq().len() ==> walk.seq().take(k + 1) =~= walk.seq());
        }
        HunkSelection { indices, ids: self.ids.copied() }
    }
}

impl Default for HunkSelection {
    fn default() -> (r: HunkSelection)
        ensures
            r.indices@ == Set::<usize>::empty(),
            r.ids@ == Set::<Seq<char>>::empty(),
            r.ids.members() == Seq::<Seq<char>>::empty(),
    {
        HunkSelection { indices: HashSet::new(), ids: NameSet::new() }
    }
}

// ---------------------------------------------------------------------------
// The line diff
// ---------------------------------------------------------------------------

#[derive(Debug, Clone, Copy, PartialEq, Eq, Structural)]
pub enum ChangeTag {
    Equal,
    Delete,
    Insert,
}

/// One line of a line diff: kept, taken out, or put in.
#[derive(Debug, Clone)]
pub struct Change {
    pub tag: ChangeTag,
    pub value: String,
}

impl DeepView for Change {
    type V = (ChangeTag, Seq<char>);

    open spec fn deep_view(&self) -> (ChangeTag, Seq<char>) {
        (self.tag, self.value@)
    }
}

/// The lines of a diff: what `similar` reports for two texts.
pub uninterp spec fn line_changes(before: Seq<char>, after: Seq<char>) -> Seq<
    (ChangeTag, Seq<char>),
>;

/// The text of every change but those tagged `dropped`.
pub open spec fn text_without(
    changes: Seq<(ChangeTag, Seq<char>)>,
    dropped: ChangeTag,
) -> Seq<char>
    decreases changes.len(),
{
    if changes.len() == 0 {
        Seq::empty()
    } else if changes.last().0 == dropped {
        text_without(changes.drop_last(), dropped)
    } else {
        text_without(changes.drop_last(), dropped) + changes.last().1
    }
}

/// Where the line that `from` is in ends: behind a newline, behind a carriage
/// return or behind the two in a row; with the text where none follows.
pub open spec fn line_end(s: Seq<char>, from: int) -> int
    decreases s.len() - from,
{
    if from < 0 || from >= s.len() {
        s.len() as int
    } else if s[from] == '\n' {
        from + 1
    } else if s[from] == '\r' {
        if from + 1 < s.len() && s[from + 1] == '\n' {
            from + 2
        } else {
            from + 1
        }
    } else {
        line_end(s, from + 1)
    }
}

/// The lines of `s[from..]` as a diff tells them apart.
pub open spec fn diff_pieces_from(s: Seq<char>, from: int) -> Seq<Seq<char>>
    decreases s.len() - from,
{
    let to = line_end(s, from);
    if from < 0 || from >= s.len() || to <= from || to > s.len() {
        Seq::empty()
    } else {
        seq![s.subrange(from, to)] + diff_pieces_from(s, to)
    }
}

/// The lines of a text as a diff tells them apart: a newline ends one, and so
/// does a carriage return, alone or in front of a newline.
pub open spec fn diff_pieces(s: Seq<char>) -> Seq<Seq<char>> {
    diff_pieces_from(s, 0)
}

/// The texts of the changes but for those tagged `dropped`.
pub open spec fn pieces_without(
    changes: Seq<(ChangeTag, Seq<char>)>,
    dropped: ChangeTag,
) -> Seq<Seq<char>>
    decreases changes.len(),
{
    if changes.len() == 0 {
        Seq::empty()
    } else if changes.last().0 == dropped {
        pieces_without(changes.drop_last(), dropped)
    } else {
        pieces_without(changes.drop_last(), dropped).push(changes.last().1)
    }
}

/// Whether a text is one line: a newline stands at its end or nowhere.
pub open spec fn is_line(piece: Seq<char>) -> bool {
    &&& piece.len() > 0
    &&& forall|j: int| 0 <= j < piece.len() - 1 ==> #[trigger] piece[j] != '\n'
}

/// Whether every change is one line.
pub open spec fn change_lines(changes: Seq<(ChangeTag, Seq<char>)>) -> bool {
    forall|i: int| 0 <= i < changes.len() ==> is_line((#[trigger] changes[i]).1)
}

/// Whether two texts have few enough lines for a line diff, which numbers them
/// with 32 bits.
pub open spec fn diffable(before: Seq<char>, after: Seq<char>) -> bool {
    diff_pieces(before).len() + diff_pieces(after).len() < u32::MAX
}

/// Diff two texts by lines.
///
/// Calls `similar::TextDiff::from_lines` and walks `iter_all_changes`, copying
/// each change's tag and text. The contract claims that the outcome depends on
/// the two texts alone, that every change is one line, that the changes but for
/// the insertions are the lines of `before` and those but for the deletions the
/// lines of `after`, and that equal texts have no line taken out or put in.
#[verifier::external_body]
fn diff_lines(before: &str, after: &str) -> (r: Vec<Change>)
    requires
        diffable(before@, after@),
    ensures
        deep(r@) == line_changes(before@, after@),
        pieces_without(deep(r@), ChangeTag::Insert) == diff_pieces(before@),
        pieces_without(deep(r@), ChangeTag::Delete) == diff_pieces(after@),
        before@ == after@ ==> forall|i: int|
            0 <= i < r@.len() ==> (#[trigger] r@[i]).tag == ChangeTag::Equal,
{
    let diff = similar::TextDiff::from_lines(before, after);
    diff.iter_all_changes()
        .map(|change| Change {
            tag: match change.tag() {
                similar::ChangeTag::Equal => ChangeTag::Equal,
                similar::ChangeTag::Delete => ChangeTag::Delete,
                similar::ChangeTag::Insert => ChangeTag::Insert,
            },
            value: change.value().to_string(),
        })
        .collect()
}

pub(crate) proof fn lemma_line_end(s: Seq<char>, from: int)
    requires
        0 <= from < s.len(),
    ensures
        from < line_end(s, from) <= s.len(),
        forall|j: int| from <= j < line_end(s, from) - 1 ==> #[trigger] s[j] != '\n',
    decreases s.len() - from,
{
    if from + 1 < s.len() {
        lemma_line_end(s, from + 1);
    } else {
        assert(line_end(s, from + 1) == s.len());
    }
}

proof fn lemma_diff_pieces(s: Seq<char>, from: int)
    requires
        0 <= from <= s.len(),
    ensures
        concat(diff_pieces_from(s, from)) == s.skip(from),
        forall|i: int|
            0 <= i < diff_pieces_from(s, from).len() ==> is_line(
                #[trigger] diff_pieces_from(s, from)[i],
            ),
        diff_pieces_from(s, from).len() <= s.len() - from,
    decreases s.len() - from,
{
    if from >= s.len() {
        assert(s.skip(from) =~= Seq::<char>::empty());
    } else {
        lemma_line_end(s, from);
        let to = line_end(s, from);
        let one = s.subrange(from, to);
        let rest = diff_pieces_from(s, to);
        lemma_diff_pieces(s, to);
        crate::text::lemma_concat_one(one);
        crate::text::lemma_concat_add(seq![one], rest);
        assert(one + s.skip(to) =~= s.skip(from));
        assert forall|j: int| 0 <= j < one.len() - 1 implies #[trigger] one[j] != '\n' by {
            assert(s[from + j] != '\n');
        }
        assert(is_line(one));
        let all = diff_pieces_from(s, from);
        assert forall|i: int| 0 <= i < all.len() implies is_line(#[trigger] all[i]) by {
            if i > 0 {
                assert(all[i] == rest[i - 1]);
            }
        }
    }
}

pub(crate) proof fn lemma_pieces_in_a_row(s: Seq<char>)
    ensures
        concat(diff_pieces(s)) == s,
{
    lemma_diff_pieces(s, 0);
    assert(s.skip(0) =~= s);
}

proof fn lemma_no_newlines(s: Seq<char>)
    requires
        forall|j: int| 0 <= j < s.len() ==> #[trigger] s[j] != '\n',
    ensures
        crate::text::newlines(s) == 0,
    decreases s.len(),
{
    if s.len() > 0 {
        assert forall|j: int| 0 <= j < s.drop_last().len() implies #[trigger] s.drop_last()[j]
            != '\n' by {
            assert(s[j] != '\n');
        }
        lemma_no_newlines(s.drop_last());
        assert(s[s.len() - 1] != '\n');
    }
}

pub(crate) proof fn lemma_one_line(piece: Seq<char>)
    requires
        is_line(piece),
    ensures
        line_count(piece) == 1,
{
    lemma_no_newlines(piece.drop_last());
}

pub(crate) proof fn lemma_front_lines(changes: Seq<(ChangeTag, Seq<char>)>)
    requires
        change_lines(changes),
        changes.len() > 0,
    ensures
        change_lines(changes.drop_last()),
        is_line(changes.last().1),
{
    let front = changes.drop_last();
    assert forall|i: int| 0 <= i < front.len() implies is_line((#[trigger] front[i]).1) by {
        assert(is_line(changes[i].1));
    }
    assert(is_line(changes[changes.len() - 1].1));
}

pub(crate) proof fn lemma_pieces(changes: Seq<(ChangeTag, Seq<char>)>, dropped: ChangeTag)
    requires
        change_lines(changes),
    ensures
        concat(pieces_without(changes, dropped)) == text_without(changes, dropped),
        pieces_without(changes, dropped).len() == lines_without(changes, dropped),
    decreases changes.len(),
{
    if changes.len() > 0 {
        let front = changes.drop_last();
        lemma_front_lines(changes);
        lemma_pieces(front, dropped);
        lemma_one_line(changes.last().1);
        let pieces = pieces_without(front, dropped);
        assert(pieces.push(changes.last().1).drop_last() =~= pieces);
    }
}

proof fn lemma_changes_of_lines(changes: Seq<(ChangeTag, Seq<char>)>)
    requires
        forall|i: int|
            0 <= i < pieces_without(changes, ChangeTag::Insert).len() ==> is_line(
                #[trigger] pieces_without(changes, ChangeTag::Insert)[i],
            ),
        forall|i: int|
            0 <= i < pieces_without(changes, ChangeTag::Delete).len() ==> is_line(
                #[trigger] pieces_without(changes, ChangeTag::Delete)[i],
            ),
    ensures
        change_lines(changes),
        changes.len() <= pieces_without(changes, ChangeTag::Insert).len() + pieces_without(
            changes,
            ChangeTag::Delete,
        ).len(),
    decreases changes.len(),
{
    if changes.len() > 0 {
        let front = changes.drop_last();
        let old = pieces_without(changes, ChangeTag::Insert);
        let new = pieces_without(changes, ChangeTag::Delete);
        let old_front = pieces_without(front, ChangeTag::Insert);
        let new_front = pieces_without(front, ChangeTag::Delete);
        assert forall|i: int| 0 <= i < old_front.len() implies is_line(
            #[trigger] old_front[i],
        ) by {
            assert(old[i] == old_front[i]);
        }
        assert forall|i: int| 0 <= i < new_front.len() implies is_line(
            #[trigger] new_front[i],
        ) by {
            assert(new[i] == new_front[i]);
        }
        lemma_changes_of_lines(front);
        assert(is_line(changes.last().1)) by {
            if changes.last().0 == ChangeTag::Insert {
                assert(is_line(new[new.len() - 1]));
            } else {
                assert(is_line(old[old.len() - 1]));
            }
        }
        assert forall|i: int| 0 <= i < changes.len() implies is_line((#[trigger] changes[i]).1) by {
            if i < front.len() {
                assert(is_line(front[i].1));
            }
        }
    }
}

/// What the lines of two texts say of a diff of them.
proof fn lemma_diff_of_lines(
    changes: Seq<(ChangeTag, Seq<char>)>,
    before: Seq<char>,
    after: Seq<char>,
)
    requires
        pieces_without(changes, ChangeTag::Insert) == diff_pieces(before),
        pieces_without(changes, ChangeTag::Delete) == diff_pieces(after),
    ensures
        change_lines(changes),
        changes.len() <= diff_pieces(before).len() + diff_pieces(after).len(),
        text_without(changes, ChangeTag::Insert) == before,
        text_without(changes, ChangeTag::Delete) == after,
        lines_without(changes, ChangeTag::Insert) == diff_pieces(before).len(),
        lines_without(changes, ChangeTag::Delete) == diff_pieces(after).len(),
{
    lemma_diff_pieces(before, 0);
    lemma_diff_pieces(after, 0);
    lemma_changes_of_lines(changes);
    lemma_pieces(changes, ChangeTag::Insert);
    lemma_pieces(changes, ChangeTag::Delete);
    assert(before.skip(0) =~= before);
    assert(after.skip(0) =~= after);
}

/// How many lines a text has as a diff tells them apart.
fn count_pieces(text: &str) -> (n: usize)
    ensures
        n == diff_pieces(text@).len(),
{
    let chars = chars_of(text);
    let mut n: usize = 0;
    let mut from: usize = 0;
    while from < chars.len()
        invariant
            chars@ == text@,
            from <= chars.len(),
            n <= from,
            n + diff_pieces_from(text@, from as int).len() == diff_pieces(text@).len(),
        decreases chars.len() - from,
    {
        proof {
            lemma_line_end(text@, from as int);
        }
        let mut at: usize = from;
        while at < chars.len() && chars[at] != '\n' && chars[at] != '\r'
            invariant
                chars@ == text@,
                from <= at <= chars.len(),
                line_end(text@, from as int) == line_end(text@, at as int),
            decreases chars.len() - at,
        {
            at += 1;
        }
        if at < chars.len() {
            if chars[at] == '\r' && chars.len() - at > 1 && chars[at + 1] == '\n' {
                at += 1;
            }
            at += 1;
        }
        n += 1;
        from = at;
    }
    n
}

/// Whether two texts have few enough lines for a line diff.
pub fn can_diff(before: &str, after: &str) -> (r: bool)
    ensures
        r == diffable(before@, after@),
{
    let limit: usize = u32::MAX as usize;
    let old_lines = count_pieces(before);
    let new_lines = count_pieces(after);
    old_lines < limit && new_lines < limit - old_lines
}

// ---------------------------------------------------------------------------
// Grouping lines into edits
// ---------------------------------------------------------------------------

/// A hunk before it is named: the lines it takes out and puts in, and where.
#[verifier::ext_equal]
pub struct EditView {
    pub removed: Seq<char>,
    pub added: Seq<char>,
    pub before_start: nat,
    pub before_length: nat,
    pub after_start: nat,
    pub after_length: nat,
}

/// How many lines the changes span, leaving out those tagged `dropped`.
pub open spec fn lines_without(changes: Seq<(ChangeTag, Seq<char>)>, dropped: ChangeTag) -> nat
    decreases changes.len(),
{
    if changes.len() == 0 {
        0
    } else if changes.last().0 == dropped {
        lines_without(changes.drop_last(), dropped)
    } else {
        lines_without(changes.drop_last(), dropped) + line_count(changes.last().1)
    }
}

/// Whether the last change of `changes` begins a hunk: it is no kept line, and
/// does not follow on another such change.
pub open spec fn opens_hunk(changes: Seq<(ChangeTag, Seq<char>)>) -> bool {
    &&& changes.len() > 0
    &&& changes.last().0 != ChangeTag::Equal
    &&& (changes.len() == 1 || changes[changes.len() - 2].0 == ChangeTag::Equal)
}

/// An edit with one more changed line.
pub open spec fn grown(edit: EditView, tag: ChangeTag, value: Seq<char>) -> EditView {
    match tag {
        ChangeTag::Equal => edit,
        ChangeTag::Delete => EditView {
            removed: edit.removed + value,
            before_length: edit.before_length + line_count(value),
            ..edit
        },
        ChangeTag::Insert => EditView {
            added: edit.added + value,
            after_length: edit.after_length + line_count(value),
            ..edit
        },
    }
}

/// The maximal runs of changed lines, each as one edit, in order.
pub open spec fn edits(changes: Seq<(ChangeTag, Seq<char>)>) -> Seq<EditView>
    decreases changes.len(),
{
    if changes.len() == 0 {
        Seq::empty()
    } else {
        let passed = changes.drop_last();
        let (tag, value) = changes.last();
        let earlier = edits(passed);
        if tag == ChangeTag::Equal {
            earlier
        } else if opens_hunk(changes) {
            earlier.push(
                grown(
                    EditView {
                        removed: Seq::empty(),
                        added: Seq::empty(),
                        before_start: 1 + lines_without(passed, ChangeTag::Insert),
                        before_length: 0,
                        after_start: 1 + lines_without(passed, ChangeTag::Delete),
                        after_length: 0,
                    },
                    tag,
                    value,
                ),
            )
        } else {
            earlier.drop_last().push(grown(earlier.last(), tag, value))
        }
    }
}

proof fn lemma_lines_monotonic(
    changes: Seq<(ChangeTag, Seq<char>)>,
    dropped: ChangeTag,
    n: int,
)
    requires
        0 <= n <= changes.len(),
    ensures
        lines_without(changes.take(n), dropped) <= lines_without(changes, dropped),
    decreases changes.len() - n,
{
    if n == changes.len() {
        assert(changes.take(n) =~= changes);
    } else {
        assert(changes.take(n + 1).drop_last() =~= changes.take(n));
        lemma_lines_monotonic(changes, dropped, n + 1);
    }
}

proof fn lemma_edits_bounds(changes: Seq<(ChangeTag, Seq<char>)>)
    ensures
        edits(changes).len() <= changes.len(),
        forall|i: int|
            0 <= i < edits(changes).len() ==> {
                let e = #[trigger] edits(changes)[i];
                &&& e.before_start + e.before_length <= 1 + lines_without(
                    changes,
                    ChangeTag::Insert,
                )
                &&& e.after_start + e.after_length <= 1 + lines_without(changes, ChangeTag::Delete)
            },
        changes.len() > 0 && changes.last().0 != ChangeTag::Equal ==> edits(changes).len() > 0,
    decreases changes.len(),
{
    if changes.len() > 0 {
        lemma_edits_bounds(changes.drop_last());
    }
}

/// A hunk before it is named.
pub struct Edit {
    pub removed: String,
    pub added: String,
    pub before_range: LineRange,
    pub after_range: LineRange,
}

impl DeepView for Edit {
    type V = EditView;

    open spec fn deep_view(&self) -> EditView {
        EditView {
            removed: self.removed@,
            added: self.added@,
            before_start: self.before_range.start as nat,
            before_length: self.before_range.length as nat,
            after_start: self.after_range.start as nat,
            after_length: self.after_range.length as nat,
        }
    }
}

/// Gather the changed lines of a diff into edits.
fn group_changes(changes: &Vec<Change>) -> (out: Vec<Edit>)
    requires
        lines_without(deep(changes@), ChangeTag::Insert) < usize::MAX,
        lines_without(deep(changes@), ChangeTag::Delete) < usize::MAX,
    ensures
        deep(out@) == edits(deep(changes@)),
{
    broadcast use group_deep;

    let ghost views = deep(changes@);
    let mut out: Vec<Edit> = Vec::new();
    let mut in_hunk = false;
    let mut before_line: usize = 1;
    let mut after_line: usize = 1;
    let mut i: usize = 0;
    assert(views.take(0) =~= Seq::empty());
    while i < changes.len()
        invariant
            views == deep(changes@),
            lines_without(views, ChangeTag::Insert) < usize::MAX,
            lines_without(views, ChangeTag::Delete) < usize::MAX,
            i <= changes.len(),
            deep(out@) == edits(views.take(i as int)),
            in_hunk == (i > 0 && views[i as int - 1].0 != ChangeTag::Equal),
            before_line == 1 + lines_without(views.take(i as int), ChangeTag::Insert),
            after_line == 1 + lines_without(views.take(i as int), ChangeTag::Delete),
        decreases changes.len() - i,
    {
        let ghost passed = views.take(i as int);
        let ghost now = views.take(i as int + 1);
        proof {
            assert(now.drop_last() =~= passed);
            assert(now.last() == views[i as int]);
            lemma_lines_monotonic(views, ChangeTag::Insert, i as int + 1);
            lemma_lines_monotonic(views, ChangeTag::Delete, i as int + 1);
            lemma_edits_bounds(passed);
            lemma_edits_bounds(now);
            if i > 0 {
                assert(now[now.len() - 2] == views[i as int - 1]);
                assert(passed.last() == views[i as int - 1]);
            }
        }
        let change = &changes[i];
        let line_count = count_lines(change.value.as_str());
        match change.tag {
            ChangeTag::Equal => {
                in_hunk = false;
                before_line += line_count;
                after_line += line_count;
            },
            ChangeTag::Delete => {
                if !in_hunk {
                    in_hunk = true;
                    out.push(
                        Edit {
                            removed: String::new(),
                            added: String::new(),
                            before_range: LineRange { start: before_line, length: 0 },
                            after_range: LineRange { start: after_line, length: 0 },
                        },
                    );
                }
                let ghost held = deep(out@);
                let mut edit = out.pop().unwrap();
                let ghost was = edit.deep_view();
                edit.removed.append(change.value.as_str());
                edit.before_range =
                LineRange {
                    start: edit.before_range.start,
                    length: edit.before_range.length + line_count,
                };
                out.push(edit);
                before_line += line_count;
                proof {
                    assert(was == held.last());
                    assert(edit.deep_view() =~= grown(was, ChangeTag::Delete, views[i as int].1));
                    assert(deep(out@) =~= held.drop_last().push(edit.deep_view()));
                    assert(edits(now) =~= deep(out@));
                }
            },
            ChangeTag::Insert => {
                if !in_hunk {
                    in_hunk = true;
                    out.push(
                        Edit {
                            removed: String::new(),
                            added: String::new(),
                            before_range: LineRange { start: before_line, length: 0 },
                            after_range: LineRange { start: after_line, length: 0 },
                        },
                    );
                }
                let ghost held = deep(out@);
                let mut edit = out.pop().unwrap();
                let ghost was = edit.deep_view();
                edit.added.append(change.value.as_str());
                edit.after_range =
                LineRange {
                    start: edit.after_range.start,
                    length: edit.after_range.length + line_count,
                };
                out.push(edit);
                after_line += line_count;
                proof {
                    assert(was == held.last());
                    assert(edit.deep_view() =~= grown(was, ChangeTag::Insert, views[i as int].1));
                    assert(deep(out@) =~= held.drop_last().push(edit.deep_view()));
                    assert(edits(now) =~= deep(out@));
                }
            },
        }
        i += 1;
    }
    assert(views.take(views.len() as int) =~= views);
    out
}

// ---------------------------------------------------------------------------
// Naming hunks
// ---------------------------------------------------------------------------

/// What an edit does: put lines in, take lines out, or both.
pub open spec fn kind_of(removed: Seq<char>, added: Seq<char>) -> Seq<char> {
    if removed.len() == 0 && added.len() > 0 {
        "insert"@
    } else if removed.len() > 0 && added.len() == 0 {
        "delete"@
    } else {
        "replace"@
    }
}

fn determine_hunk_type(removed: &str, added: &str) -> (r: &'static str)
    ensures
        r@ == kind_of(removed@, added@),
{
    match (removed.is_empty(), added.is_empty()) {
        (true, false) => "insert",
        (false, true) => "delete",
        _ => "replace",
    }
}

pub open spec fn least(a: int, b: int) -> int {
    if a <= b {
        a
    } else {
        b
    }
}

pub open spec fn greatest(a: int, b: int) -> int {
    if a >= b {
        a
    } else {
        b
    }
}

/// The lines around an edit of `lines`: up to [`CONTEXT_LINES`] in front of it
/// and as many behind it; none where there are no such lines.
pub open spec fn context_of(lines: Seq<Seq<char>>, start: nat, length: nat) -> Option<
    ContextView,
> {
    let n = lines.len() as int;
    let from = least(greatest(start - 1, 0), n);
    let to = least(from + length, n);
    let pre = lines.subrange(greatest(from - CONTEXT_LINES, 0), from);
    let post = lines.subrange(to, least(to + CONTEXT_LINES, n));
    if pre.len() == 0 && post.len() == 0 {
        None
    } else {
        Some(ContextView { before: concat(pre), after: concat(post) })
    }
}

fn build_context(before_lines: &Vec<String>, range: &LineRange) -> (r: Option<HunkContext>)
    ensures
        r.deep_view() == context_of(
            deep(before_lines@),
            range.start as nat,
            range.length as nat,
        ),
{
    let n: usize = before_lines.len();
    let wanted: usize = if range.start > 0 {
        range.start - 1
    } else {
        0
    };
    let from: usize = if wanted <= n {
        wanted
    } else {
        n
    };
    let pre_from: usize = if from >= CONTEXT_LINES {
        from - CONTEXT_LINES
    } else {
        0
    };
    let to: usize = if range.length <= n - from {
        from + range.length
    } else {
        n
    };
    let post_to: usize = if CONTEXT_LINES <= n - to {
        to + CONTEXT_LINES
    } else {
        n
    };
    if pre_from == from && to == post_to {
        return None;
    }
    Some(
        HunkContext {
            before: concat_range(before_lines, pre_from, from),
            after: concat_range(before_lines, to, post_to),
        },
    )
}

/// The SHA-256 digest of some bytes.
pub uninterp spec fn sha256(data: Seq<u8>) -> Seq<u8>;

/// Hash bytes.
///
/// Calls `sha2::Sha256::digest`. The contract claims that the digest depends on
/// the bytes alone and is 32 bytes long.
#[verifier::external_body]
pub(crate) fn sha256_of(data: &[u8]) -> (r: Vec<u8>)
    ensures
        r@ == sha256(data@),
        r@.len() == 32,
{
    <sha2::Sha256 as sha2::Digest>::digest(data).to_vec()
}

/// Everything that tells a hunk from others in its file, in one text.
pub open spec fn digest_text(
    path: Seq<char>,
    hunk_type: Seq<char>,
    removed: Seq<char>,
    added: Seq<char>,
    context: Option<ContextView>,
) -> Seq<char> {
    "path\0"@ + path + "\0type\0"@ + hunk_type + "\0removed\0"@ + removed + "\0added\0"@ + added
        + "\0context\0"@ + match context {
        Some(c) => c.before + "\0"@ + c.after,
        None => Seq::empty(),
    }
}

/// Hash of everything about a hunk except which occurrence of itself it is.
///
/// Two hunks share a digest exactly when they are the same change, to the same
/// file, between the same lines (up to collisions of the hash).
fn content_digest(
    path: &str,
    hunk_type: &str,
    removed: &str,
    added: &str,
    context: &Option<HunkContext>,
) -> (r: Vec<u8>)
    ensures
        r@ == sha256(
            encode_utf8(digest_text(path@, hunk_type@, removed@, added@, context.deep_view())),
        ),
{
    let mut text = "path\0".to_owned();
    text.append(path);
    text.append("\0type\0");
    text.append(hunk_type);
    text.append("\0removed\0");
    text.append(removed);
    text.append("\0added\0");
    text.append(added);
    text.append("\0context\0");
    let ghost start = text@;
    match context {
        Some(c) => {
            text.append(c.before.as_str());
            text.append("\0");
            text.append(c.after.as_str());
            assert(text@ =~= start + (c.before@ + "\0"@ + c.after@));
        },
        None => {
            assert(text@ =~= start + Seq::<char>::empty());
        },
    }
    sha256_of(text.as_str().as_bytes())
}

/// One hex digit, in lower case.
pub open spec fn hex_digit(n: int) -> char {
    if n < 10 {
        (48 + n) as char
    } else {
        (87 + n) as char
    }
}

/// Bytes in hex, two digits each.
pub open spec fn hex(bytes: Seq<u8>) -> Seq<char> {
    Seq::new(
        2 * bytes.len(),
        |i: int|
            if i % 2 == 0 {
                hex_digit((bytes[i / 2] / 16) as int)
            } else {
                hex_digit((bytes[i / 2] % 16) as int)
            },
    )
}

/// Whether a character is a hex digit in lower case.
pub open spec fn is_lower_hex(c: char) -> bool {
    ||| '0' <= c <= '9'
    ||| 'a' <= c <= 'f'
}

fn hex_char(n: u8) -> (c: char)
    requires
        n < 16,
    ensures
        c == hex_digit(n as int),
        is_lower_hex(c),
{
    let code: u8 = if n < 10 {
        48 + n
    } else {
        87 + n
    };
    code as char
}

pub(crate) fn hex_encode(bytes: &Vec<u8>) -> (out: String)
    ensures
        out@ == hex(bytes@),
        forall|i: int| 0 <= i < out@.len() ==> is_lower_hex(#[trigger] out@[i]),
{
    let mut out = String::new();
    let mut i: usize = 0;
    while i < bytes.len()
        invariant
            i <= bytes.len(),
            out@ == hex(bytes@.take(i as int)),
            forall|j: int| 0 <= j < out@.len() ==> is_lower_hex(#[trigger] out@[j]),
        decreases bytes.len() - i,
    {
        let b: u8 = bytes[i];
        out.push(hex_char(b / 16));
        out.push(hex_char(b % 16));
        i += 1;
        assert(out@ =~= hex(bytes@.take(i as int)));
    }
    assert(bytes@.take(bytes.len() as int) =~= bytes@);
    out
}

/// A 32-bit number, least significant byte first.
pub open spec fn little_endian(n: nat) -> Seq<u8> {
    seq![
        (n % 256) as u8,
        (n / 256 % 256) as u8,
        (n / 65536 % 256) as u8,
        (n / 16777216 % 256) as u8,
    ]
}

/// The stable identity of one hunk: its content digest, and which occurrence of
/// that digest it is within its file.
pub open spec fn hunk_id(digest: Seq<u8>, occurrence: nat) -> Seq<char> {
    HUNK_ID_PREFIX@ + hex(sha256(id_bytes(digest, occurrence)))
}

/// What an id is hashed from.
pub open spec fn id_bytes(digest: Seq<u8>, occurrence: nat) -> Seq<u8> {
    encode_utf8("hunk\0"@) + digest + encode_utf8("\0occurrence\0"@) + little_endian(occurrence)
}

/// Whether an id is the prefix and 64 hex digits.
pub open spec fn full_id(id: Seq<char>) -> bool {
    &&& begins_with(id, HUNK_ID_PREFIX@)
    &&& id.len() == HUNK_ID_PREFIX@.len() + HUNK_ID_HEX_LEN
    &&& forall|i: int|
        HUNK_ID_PREFIX@.len() <= i < id.len() ==> is_lower_hex(#[trigger] id[i])
}

fn append_bytes(out: &mut Vec<u8>, bytes: &[u8])
    ensures
        final(out)@ == old(out)@ + bytes@,
{
    let mut i: usize = 0;
    while i < bytes.len()
        invariant
            i <= bytes@.len(),
            out@ == old(out)@ + bytes@.take(i as int),
        decreases bytes@.len() - i,
    {
        out.push(bytes[i]);
        i += 1;
        assert(bytes@.take(i as int) =~= bytes@.take(i as int - 1).push(bytes@[i as int - 1]));
    }
    assert(bytes@.take(bytes@.len() as int) =~= bytes@);
}

fn compute_hunk_id(digest: &Vec<u8>, occurrence: u32) -> (id: String)
    ensures
        id@ == hunk_id(digest@, occurrence as nat),
        full_id(id@),
{
    let mut data: Vec<u8> = Vec::new();
    append_bytes(&mut data, "hunk\0".as_bytes());
    append_bytes(&mut data, digest.as_slice());
    append_bytes(&mut data, "\0occurrence\0".as_bytes());
    let ghost head = data@;
    data.push((occurrence % 256) as u8);
    data.push((occurrence / 256 % 256) as u8);
    data.push((occurrence / 65536 % 256) as u8);
    data.push((occurrence / 16777216 % 256) as u8);
    assert(data@ =~= head + little_endian(occurrence as nat));
    assert(head =~= encode_utf8("hunk\0"@) + digest@ + encode_utf8("\0occurrence\0"@));
    let digits = hex_encode(&sha256_of(data.as_slice()));
    let id = concat2(HUNK_ID_PREFIX, digits.as_str());
    assert(id@.take(HUNK_ID_PREFIX@.len() as int) =~= HUNK_ID_PREFIX@);
    id
}

/// How often `item` occurs in `items`.
pub open spec fn occurrences(items: Seq<Seq<u8>>, item: Seq<u8>) -> nat
    decreases items.len(),
{
    if items.len() == 0 {
        0
    } else {
        occurrences(items.drop_last(), item) + if items.last() == item {
            1nat
        } else {
            0nat
        }
    }
}

/// What the digest of one edit to the file `path`, whose lines were `lines`, is
/// hashed from.
pub open spec fn edit_bytes(path: Seq<char>, lines: Seq<Seq<char>>, edit: EditView) -> Seq<u8> {
    encode_utf8(
        digest_text(
            path,
            kind_of(edit.removed, edit.added),
            edit.removed,
            edit.added,
            context_of(lines, edit.before_start, edit.before_length),
        ),
    )
}

/// The digest of one edit to the file `path`, whose lines were `lines`.
pub open spec fn edit_digest(path: Seq<char>, lines: Seq<Seq<char>>, edit: EditView) -> Seq<u8> {
    sha256(edit_bytes(path, lines, edit))
}

pub open spec fn edit_digests(
    path: Seq<char>,
    lines: Seq<Seq<char>>,
    edits: Seq<EditView>,
) -> Seq<Seq<u8>> {
    Seq::new(edits.len(), |k: int| edit_digest(path, lines, edits[k]))
}

/// The id of the edit at position `k`: its digest, and how many edits in front
/// of it have the same one.
pub open spec fn edit_id(
    path: Seq<char>,
    lines: Seq<Seq<char>>,
    edits: Seq<EditView>,
    k: int,
) -> Seq<char> {
    let digests = edit_digests(path, lines, edits);
    hunk_id(digests[k], occurrences(digests.take(k), digests[k]))
}

/// The edit at position `k` as a hunk, its short id not yet abbreviated.
pub open spec fn named_edit(
    path: Seq<char>,
    lines: Seq<Seq<char>>,
    edits: Seq<EditView>,
    k: int,
) -> HunkView {
    let edit = edits[k];
    HunkView {
        index: k as usize,
        id: edit_id(path, lines, edits, k),
        short_id: edit_id(path, lines, edits, k),
        hunk_type: kind_of(edit.removed, edit.added),
        removed: edit.removed,
        added: edit.added,
        before_range: LineRange {
            start: edit.before_start as usize,
            length: edit.before_length as usize,
        },
        after_range: LineRange {
            start: edit.after_start as usize,
            length: edit.after_length as usize,
        },
        context: context_of(lines, edit.before_start, edit.before_length),
        semantic: unanalyzed(),
    }
}

pub open spec fn named_edits(
    path: Seq<char>,
    lines: Seq<Seq<char>>,
    edits: Seq<EditView>,
) -> Seq<HunkView> {
    Seq::new(edits.len(), |k: int| named_edit(path, lines, edits, k))
}

/// The hunks of a diff of the file `path`, whose text was `before`.
pub open spec fn hunks_of(
    path: Seq<char>,
    before: Seq<char>,
    changes: Seq<(ChangeTag, Seq<char>)>,
) -> Seq<HunkView> {
    with_short_ids(named_edits(path, line_pieces(before), edits(changes)))
}

/// Which occurrence of its digest the edit at position `k` is.
pub open spec fn edit_occurrence(
    path: Seq<char>,
    lines: Seq<Seq<char>>,
    edits: Seq<EditView>,
    k: int,
) -> nat {
    let digests = edit_digests(path, lines, edits);
    occurrences(digests.take(k), digests[k])
}

proof fn lemma_occurrences_grow(items: Seq<Seq<u8>>, i: int, j: int)
    requires
        0 <= i < j <= items.len(),
    ensures
        occurrences(items.take(i), items[i]) < occurrences(items.take(j), items[i]),
    decreases j,
{
    assert(items.take(j).drop_last() =~= items.take(j - 1));
    if i + 1 < j {
        lemma_occurrences_grow(items, i, j - 1);
    }
}

/// No two hunks of a file are named from the same things: where what they change
/// and what is around them is the same, one is an earlier occurrence of it.
pub proof fn every_hunk_is_an_occurrence_of_its_own(
    path: Seq<char>,
    lines: Seq<Seq<char>>,
    edits: Seq<EditView>,
    i: int,
    j: int,
)
    requires
        0 <= i < j < edits.len(),
        edit_digest(path, lines, edits[i]) == edit_digest(path, lines, edits[j]),
    ensures
        edit_occurrence(path, lines, edits, i) < edit_occurrence(path, lines, edits, j),
{
    lemma_occurrences_grow(edit_digests(path, lines, edits), i, j);
}

/// Whether the hash tells two byte strings from each other where they differ.
pub open spec fn told_by_hash(a: Seq<u8>, b: Seq<u8>) -> bool {
    sha256(a) == sha256(b) ==> a == b
}

/// What the id of the edit at position `k` is hashed from.
pub open spec fn edit_id_bytes(
    path: Seq<char>,
    lines: Seq<Seq<char>>,
    edits: Seq<EditView>,
    k: int,
) -> Seq<u8> {
    id_bytes(edit_digest(path, lines, edits[k]), edit_occurrence(path, lines, edits, k))
}

proof fn lemma_hex_digit(a: int, b: int)
    requires
        0 <= a < 16,
        0 <= b < 16,
        hex_digit(a) == hex_digit(b),
    ensures
        a == b,
{
}

proof fn lemma_hex_injective(a: Seq<u8>, b: Seq<u8>)
    requires
        hex(a) == hex(b),
    ensures
        a == b,
{
    assert(hex(a).len() == 2 * a.len());
    assert(hex(b).len() == 2 * b.len());
    assert forall|i: int| 0 <= i < a.len() implies a[i] == b[i] by {
        let x = a[i];
        let y = b[i];
        assert(hex(a)[2 * i] == hex_digit((x / 16) as int));
        assert(hex(b)[2 * i] == hex_digit((y / 16) as int));
        assert(hex(a)[2 * i + 1] == hex_digit((x % 16) as int));
        assert(hex(b)[2 * i + 1] == hex_digit((y % 16) as int));
        lemma_hex_digit((x / 16) as int, (y / 16) as int);
        lemma_hex_digit((x % 16) as int, (y % 16) as int);
    }
    assert(a =~= b);
}

/// A 32-bit number is made of its bytes.
proof fn lemma_bytes_of(n: nat)
    requires
        n <= u32::MAX,
    ensures
        n == n % 256 + 256 * (n / 256 % 256) + 65536 * (n / 65536 % 256) + 16777216 * (n / 16777216
            % 256),
{
    let one = n / 256;
    let two = n / 65536;
    let three = n / 16777216;
    assert(two == one / 256);
    assert(three == two / 256);
    assert(three < 256);
}

proof fn lemma_little_endian(a: nat, b: nat)
    requires
        a <= u32::MAX,
        b <= u32::MAX,
        little_endian(a) == little_endian(b),
    ensures
        a == b,
{
    lemma_bytes_of(a);
    lemma_bytes_of(b);
    let x = little_endian(a);
    let y = little_endian(b);
    assert(x[0] == y[0] && x[1] == y[1] && x[2] == y[2] && x[3] == y[3]);
}

/// Ids that are the same are hashed from the same digest and occurrence.
proof fn lemma_same_id(d: Seq<u8>, m: nat, e: Seq<u8>, n: nat)
    requires
        told_by_hash(id_bytes(d, m), id_bytes(e, n)),
        m <= u32::MAX,
        n <= u32::MAX,
        hunk_id(d, m) == hunk_id(e, n),
    ensures
        d == e,
        m == n,
{
    let p = HUNK_ID_PREFIX@.len() as int;
    let x = hex(sha256(id_bytes(d, m)));
    let y = hex(sha256(id_bytes(e, n)));
    assert((HUNK_ID_PREFIX@ + x).skip(p) =~= x);
    assert((HUNK_ID_PREFIX@ + y).skip(p) =~= y);
    lemma_hex_injective(sha256(id_bytes(d, m)), sha256(id_bytes(e, n)));
    let head = encode_utf8("hunk\0"@);
    let middle = encode_utf8("\0occurrence\0"@);
    let a = id_bytes(d, m);
    let b = id_bytes(e, n);
    let h = head.len() as int;
    assert(a == b);
    assert(a.len() == h + d.len() + middle.len() + 4);
    assert(b.len() == h + e.len() + middle.len() + 4);
    assert(a.subrange(h, h + d.len()) =~= d);
    assert(b.subrange(h, h + e.len()) =~= e);
    let at = h + d.len() + middle.len();
    assert(a.subrange(at, at + 4) =~= little_endian(m));
    assert(b.subrange(at, at + 4) =~= little_endian(n));
    lemma_little_endian(m, n);
}

proof fn lemma_occurrences_bound(items: Seq<Seq<u8>>, item: Seq<u8>)
    ensures
        occurrences(items, item) <= items.len(),
    decreases items.len(),
{
    if items.len() > 0 {
        lemma_occurrences_bound(items.drop_last(), item);
    }
}

proof fn lemma_occurrence_bound(
    path: Seq<char>,
    lines: Seq<Seq<char>>,
    edits: Seq<EditView>,
    k: int,
)
    requires
        0 <= k < edits.len() <= u32::MAX,
    ensures
        edit_occurrence(path, lines, edits, k) <= u32::MAX,
{
    let digests = edit_digests(path, lines, edits);
    lemma_occurrences_bound(digests.take(k), digests[k]);
}

/// An id names one hunk: no two hunks of a file share one, be they byte for byte
/// the same between the same lines, as long as the hash does not take what they
/// are hashed from for one.
pub proof fn no_two_hunks_share_an_id(
    path: Seq<char>,
    lines: Seq<Seq<char>>,
    edits: Seq<EditView>,
    i: int,
    j: int,
)
    requires
        0 <= i < edits.len() <= u32::MAX,
        0 <= j < edits.len(),
        i != j,
        told_by_hash(
            edit_id_bytes(path, lines, edits, i),
            edit_id_bytes(path, lines, edits, j),
        ),
    ensures
        edit_id(path, lines, edits, i) != edit_id(path, lines, edits, j),
{
    let digests = edit_digests(path, lines, edits);
    lemma_occurrence_bound(path, lines, edits, i);
    lemma_occurrence_bound(path, lines, edits, j);
    if edit_id(path, lines, edits, i) == edit_id(path, lines, edits, j) {
        lemma_same_id(
            digests[i],
            edit_occurrence(path, lines, edits, i),
            digests[j],
            edit_occurrence(path, lines, edits, j),
        );
        if i < j {
            every_hunk_is_an_occurrence_of_its_own(path, lines, edits, i, j);
        } else {
            every_hunk_is_an_occurrence_of_its_own(path, lines, edits, j, i);
        }
    }
}

/// The texts of two edits to files with different paths differ.
proof fn lemma_paths_differ(p: Seq<char>, q: Seq<char>, a: Seq<char>, b: Seq<char>)
    requires
        !p.contains('\0'),
        !q.contains('\0'),
        p != q,
    ensures
        "path\0"@ + p + "\0type\0"@ + a != "path\0"@ + q + "\0type\0"@ + b,
{
    reveal_strlit("path\0");
    reveal_strlit("\0type\0");
    let x = "path\0"@ + p + "\0type\0"@ + a;
    let y = "path\0"@ + q + "\0type\0"@ + b;
    if x == y {
        assert(x[5 + p.len() as int] == '\0');
        assert(y[5 + q.len() as int] == '\0');
        if p.len() < q.len() {
            assert(y[5 + p.len() as int] == q[p.len() as int]);
            assert(q.contains(q[p.len() as int]));
        } else if q.len() < p.len() {
            assert(x[5 + q.len() as int] == p[q.len() as int]);
            assert(p.contains(p[q.len() as int]));
        } else {
            assert forall|i: int| 0 <= i < p.len() implies p[i] == q[i] by {
                assert(x[5 + i] == p[i]);
                assert(y[5 + i] == q[i]);
            }
            assert(p =~= q);
        }
    }
}

proof fn lemma_edit_bytes_differ(
    p: Seq<char>,
    q: Seq<char>,
    lines: Seq<Seq<char>>,
    d: EditView,
    e: EditView,
)
    requires
        !p.contains('\0'),
        !q.contains('\0'),
        p != q,
    ensures
        edit_bytes(p, lines, d) != edit_bytes(q, lines, e),
{
    let rest = |edit: EditView|
        kind_of(edit.removed, edit.added) + "\0removed\0"@ + edit.removed + "\0added\0"@
            + edit.added + "\0context\0"@ + match context_of(
            lines,
            edit.before_start,
            edit.before_length,
        ) {
            Some(c) => c.before + "\0"@ + c.after,
            None => Seq::empty(),
        };
    let x = digest_text(
        p,
        kind_of(d.removed, d.added),
        d.removed,
        d.added,
        context_of(lines, d.before_start, d.before_length),
    );
    let y = digest_text(
        q,
        kind_of(e.removed, e.added),
        e.removed,
        e.added,
        context_of(lines, e.before_start, e.before_length),
    );
    assert(x =~= "path\0"@ + p + "\0type\0"@ + rest(d));
    assert(y =~= "path\0"@ + q + "\0type\0"@ + rest(e));
    lemma_paths_differ(p, q, rest(d), rest(e));
    vstd::utf8::encode_utf8_decode_utf8(x);
    vstd::utf8::encode_utf8_decode_utf8(y);
}

/// The same diff of two files gives the same hunks under different ids: no hunk
/// of the one has the id of a hunk of the other, as long as the hash does not
/// take what they are hashed from for one, and nothing but the ids tells them
/// apart.
pub proof fn the_same_edit_in_two_files_has_two_ids(
    p: Seq<char>,
    q: Seq<char>,
    before: Seq<char>,
    changes: Seq<(ChangeTag, Seq<char>)>,
    i: int,
    j: int,
)
    requires
        !p.contains('\0'),
        !q.contains('\0'),
        p != q,
        0 <= i < edits(changes).len() <= u32::MAX,
        0 <= j < edits(changes).len(),
        told_by_hash(
            edit_bytes(p, line_pieces(before), edits(changes)[i]),
            edit_bytes(q, line_pieces(before), edits(changes)[j]),
        ),
        told_by_hash(
            edit_id_bytes(p, line_pieces(before), edits(changes), i),
            edit_id_bytes(q, line_pieces(before), edits(changes), j),
        ),
    ensures
        ({
            let a = hunks_of(p, before, changes);
            let b = hunks_of(q, before, changes);
            &&& a.len() == b.len()
            &&& a[i].id != b[j].id
            &&& a[i] == (HunkView { id: a[i].id, short_id: a[i].short_id, ..b[i] })
        }),
{
    let lines = line_pieces(before);
    let all = edits(changes);
    lemma_occurrence_bound(p, lines, all, i);
    lemma_occurrence_bound(q, lines, all, j);
    lemma_edit_bytes_differ(p, q, lines, all[i], all[j]);
    let a = hunks_of(p, before, changes);
    let b = hunks_of(q, before, changes);
    assert(a[i].id == edit_id(p, lines, all, i));
    assert(b[j].id == edit_id(q, lines, all, j));
    if a[i].id == b[j].id {
        lemma_same_id(
            edit_digest(p, lines, all[i]),
            edit_occurrence(p, lines, all, i),
            edit_digest(q, lines, all[j]),
            edit_occurrence(q, lines, all, j),
        );
    }
}

/// An id does not tell where a hunk is: the same change between the same lines of
/// a file keeps its id, whatever else the diff holds and wherever its lines are,
/// as long as it is the same occurrence of itself.
pub proof fn an_id_does_not_depend_on_positions(
    path: Seq<char>,
    lines: Seq<Seq<char>>,
    edits: Seq<EditView>,
    i: int,
    other_lines: Seq<Seq<char>>,
    other_edits: Seq<EditView>,
    j: int,
)
    requires
        0 <= i < edits.len(),
        0 <= j < other_edits.len(),
        edits[i].removed == other_edits[j].removed,
        edits[i].added == other_edits[j].added,
        context_of(lines, edits[i].before_start, edits[i].before_length) == context_of(
            other_lines,
            other_edits[j].before_start,
            other_edits[j].before_length,
        ),
        edit_occurrence(path, lines, edits, i) == edit_occurrence(
            path,
            other_lines,
            other_edits,
            j,
        ),
    ensures
        edit_id(path, lines, edits, i) == edit_id(path, other_lines, other_edits, j),
{
}

/// Turn one edit into a hunk and put it at the end of `hunks`.
fn finalize_hunk(
    hunks: &mut Vec<Hunk>,
    seen: &mut Vec<Vec<u8>>,
    path: &str,
    before_lines: &Vec<String>,
    edit: Edit,
    Ghost(all): Ghost<Seq<EditView>>,
)
    requires
        old(hunks)@.len() == old(seen)@.len(),
        old(hunks)@.len() < all.len() <= u32::MAX,
        all[old(hunks)@.len() as int] == edit.deep_view(),
        deep(old(hunks)@) == named_edits(path@, deep(before_lines@), all).take(
            old(hunks)@.len() as int,
        ),
        forall|j: int|
            0 <= j < old(seen)@.len() ==> (#[trigger] old(seen)@[j])@ == edit_digests(
                path@,
                deep(before_lines@),
                all,
            )[j],
        forall|j: int| 0 <= j < old(hunks)@.len() ==> full_id((#[trigger] old(hunks)@[j]).id@),
    ensures
        final(hunks)@.len() == final(seen)@.len() == old(hunks)@.len() + 1,
        deep(final(hunks)@) == named_edits(path@, deep(before_lines@), all).take(
            final(hunks)@.len() as int,
        ),
        forall|j: int|
            0 <= j < final(seen)@.len() ==> (#[trigger] final(seen)@[j])@ == edit_digests(
                path@,
                deep(before_lines@),
                all,
            )[j],
        forall|j: int| 0 <= j < final(hunks)@.len() ==> full_id((#[trigger] final(hunks)@[j]).id@),
{
    broadcast use group_deep;

    let ghost lines = deep(before_lines@);
    let ghost digests = edit_digests(path@, lines, all);
    let ghost n = hunks@.len() as int;
    let hunk_type = determine_hunk_type(edit.removed.as_str(), edit.added.as_str());
    let context = build_context(before_lines, &edit.before_range);
    let digest = content_digest(
        path,
        hunk_type,
        edit.removed.as_str(),
        edit.added.as_str(),
        &context,
    );
    assert(digest@ == digests[n]);
    let mut occurrence: u32 = 0;
    let mut i: usize = 0;
    assert(digests.take(0) =~= Seq::empty());
    while i < seen.len()
        invariant
            i <= seen@.len(),
            seen@ == old(seen)@,
            seen@.len() <= u32::MAX,
            seen@.len() <= digests.len(),
            forall|j: int| 0 <= j < seen@.len() ==> (#[trigger] seen@[j])@ == digests[j],
            occurrence == occurrences(digests.take(i as int), digest@),
            occurrence <= i,
        decreases seen@.len() - i,
    {
        assert(digests.take(i as int + 1).drop_last() =~= digests.take(i as int));
        if same_bytes(&seen[i], &digest) {
            occurrence += 1;
        }
        i += 1;
    }
    let id = compute_hunk_id(&digest, occurrence);
    let hunk = Hunk {
        index: hunks.len(),
        short_id: id.clone(),
        id,
        hunk_type: hunk_type.to_owned(),
        removed: edit.removed,
        added: edit.added,
        before_range: edit.before_range,
        after_range: edit.after_range,
        context,
        semantic: SemanticInfo::default(),
    };
    proof {
        assert(hunk.deep_view() == named_edit(path@, lines, all, n));
        assert(named_edits(path@, lines, all).take(n + 1) =~= named_edits(path@, lines, all).take(
            n,
        ).push(named_edit(path@, lines, all, n)));
    }
    hunks.push(hunk);
    seen.push(digest);
}

fn same_bytes(a: &Vec<u8>, b: &Vec<u8>) -> (r: bool)
    ensures
        r == (a@ == b@),
{
    if a.len() != b.len() {
        return false;
    }
    let mut i: usize = 0;
    while i < a.len()
        invariant
            i <= a.len(),
            a.len() == b.len(),
            forall|j: int| 0 <= j < i ==> a@[j] == b@[j],
        decreases a.len() - i,
    {
        if a[i] != b[i] {
            return false;
        }
        i += 1;
    }
    assert(a@ =~= b@);
    true
}

/// The hunks of a line diff.
pub fn hunks_of_changes(path: &str, before: &str, changes: &Vec<Change>) -> (hunks: Vec<Hunk>)
    requires
        lines_without(deep(changes@), ChangeTag::Insert) < usize::MAX,
        lines_without(deep(changes@), ChangeTag::Delete) < usize::MAX,
        changes@.len() <= u32::MAX,
    ensures
        deep(hunks@) == hunks_of(path@, before@, deep(changes@)),
        hunks@.len() <= u32::MAX,
        forall|i: int| 0 <= i < hunks@.len() ==> full_id((#[trigger] hunks@[i]).id@),
{
    let before_lines = split_lines_with_endings(before);
    let mut edits = group_changes(changes);
    let ghost all = deep(edits@);
    let ghost lines = deep(before_lines@);
    proof {
        lemma_edits_bounds(deep(changes@));
    }
    let mut hunks: Vec<Hunk> = Vec::new();
    let mut seen: Vec<Vec<u8>> = Vec::new();
    assert(deep(hunks@) =~= named_edits(path@, lines, all).take(0));
    while edits.len() > 0
        invariant
            lines == deep(before_lines@),
            all.len() <= u32::MAX,
            edits@.len() + hunks@.len() == all.len(),
            deep(edits@) == all.skip(hunks@.len() as int),
            hunks@.len() == seen@.len(),
            deep(hunks@) == named_edits(path@, lines, all).take(hunks@.len() as int),
            forall|j: int|
                0 <= j < seen@.len() ==> (#[trigger] seen@[j])@ == edit_digests(
                    path@,
                    lines,
                    all,
                )[j],
            forall|j: int| 0 <= j < hunks@.len() ==> full_id((#[trigger] hunks@[j]).id@),
        decreases edits@.len(),
    {
        let ghost held = edits@;
        let edit = edits.remove(0);
        proof {
            assert(deep(held)[0] == edit.deep_view());
            assert(deep(edits@) =~= deep(held).drop_first());
            assert(all.skip(hunks@.len() as int).drop_first() =~= all.skip(
                hunks@.len() as int + 1,
            ));
        }
        finalize_hunk(&mut hunks, &mut seen, path, &before_lines, edit, Ghost(all));
    }
    assert(named_edits(path@, lines, all).take(all.len() as int) =~= named_edits(
        path@,
        lines,
        all,
    ));
    proof {
        assert forall|i: int| 0 <= i < hunks@.len() implies is_ascii_chars(
            (#[trigger] hunks@[i]).id@,
        ) by {
            lemma_full_id_is_ascii(hunks@[i].id@);
        }
    }
    assign_short_ids(&mut hunks);
    hunks
}

// ---------------------------------------------------------------------------
// Abbreviating ids
// ---------------------------------------------------------------------------

/// How many characters two strings begin with in common.
pub open spec fn shared(a: Seq<char>, b: Seq<char>) -> nat
    decreases a.len(),
{
    if a.len() == 0 || b.len() == 0 || a[0] != b[0] {
        0
    } else {
        1 + shared(a.drop_first(), b.drop_first())
    }
}

/// The characters it takes to tell `x` from every one of `others`.
pub open spec fn needed_against(others: Seq<Seq<char>>, x: Seq<char>) -> nat
    decreases others.len(),
{
    if others.len() == 0 {
        0
    } else {
        greatest(
            needed_against(others.drop_last(), x) as int,
            (shared(others.last(), x) + 1) as int,
        ) as nat
    }
}

/// The characters it takes to tell all of `hexes` apart, and at least
/// [`MIN_SHORT_ID_HEX`].
pub open spec fn needed(hexes: Seq<Seq<char>>) -> nat
    decreases hexes.len(),
{
    if hexes.len() == 0 {
        MIN_SHORT_ID_HEX as nat
    } else {
        greatest(
            needed(hexes.drop_last()) as int,
            needed_against(hexes.drop_last(), hexes.last()) as int,
        ) as nat
    }
}

/// An id without its prefix.
pub open spec fn bare(id: Seq<char>) -> Seq<char> {
    if begins_with(id, HUNK_ID_PREFIX@) {
        id.skip(HUNK_ID_PREFIX@.len() as int)
    } else {
        id
    }
}

pub open spec fn bares(ids: Seq<Seq<char>>) -> Seq<Seq<char>> {
    Seq::new(ids.len(), |i: int| bare(ids[i]))
}

/// Hex digits needed for every id to be distinct, never fewer than
/// [`MIN_SHORT_ID_HEX`] and never more than a full id.
pub open spec fn shortest_unique(ids: Seq<Seq<char>>) -> int {
    least(needed(bares(ids)) as int, HUNK_ID_HEX_LEN as int)
}

/// An id cut to some number of hex digits.
pub open spec fn abbreviated(id: Seq<char>, digits: int) -> Seq<char> {
    HUNK_ID_PREFIX@ + bare(id).take(least(digits, bare(id).len() as int))
}

pub open spec fn ids_of(hunks: Seq<HunkView>) -> Seq<Seq<char>> {
    Seq::new(hunks.len(), |i: int| hunks[i].id)
}

/// The hunks with the shortest short ids that still tell them apart.
pub open spec fn with_short_ids(hunks: Seq<HunkView>) -> Seq<HunkView> {
    let digits = shortest_unique(ids_of(hunks));
    Seq::new(
        hunks.len(),
        |i: int| HunkView { short_id: abbreviated(hunks[i].id, digits), ..hunks[i] },
    )
}

fn common_prefix_len(a: &Vec<char>, b: &Vec<char>) -> (n: usize)
    ensures
        n == shared(a@, b@),
        n <= a.len(),
{
    let mut i: usize = 0;
    assert(a@.skip(0) =~= a@);
    assert(b@.skip(0) =~= b@);
    while i < a.len() && i < b.len() && a[i] == b[i]
        invariant
            i <= a.len(),
            i <= b.len(),
            shared(a@, b@) == i + shared(a@.skip(i as int), b@.skip(i as int)),
        decreases a.len() - i,
    {
        assert(a@.skip(i as int).drop_first() =~= a@.skip(i as int + 1));
        assert(b@.skip(i as int).drop_first() =~= b@.skip(i as int + 1));
        i += 1;
    }
    i
}

fn id_hex(id: &str) -> (r: String)
    ensures
        r@ == bare(id@),
{
    match crate::text::strip_prefix(id, HUNK_ID_PREFIX) {
        Some(rest) => rest,
        None => id.to_owned(),
    }
}

/// Hex digits needed for every id in `ids` to be distinct.
pub fn shortest_unique_prefix_len(ids: &Vec<String>) -> (n: usize)
    ensures
        n == shortest_unique(deep(ids@)),
        n <= HUNK_ID_HEX_LEN,
{
    let ghost views = bares(deep(ids@));
    let mut hexes: Vec<Vec<char>> = Vec::new();
    let mut most: usize = MIN_SHORT_ID_HEX;
    let mut i: usize = 0;
    assert(views.take(0) =~= Seq::empty());
    while i < ids.len()
        invariant
            views == bares(deep(ids@)),
            i <= ids.len(),
            hexes@.len() == i,
            forall|j: int| 0 <= j < i ==> (#[trigger] hexes@[j])@ == views[j],
            most == least(needed(views.take(i as int)) as int, HUNK_ID_HEX_LEN as int),
        decreases ids.len() - i,
    {
        let digits = id_hex(ids[i].as_str());
        let own = chars_of(digits.as_str());
        assert(own@ == views[i as int]);
        assert(views.take(i as int + 1).drop_last() =~= views.take(i as int));
        let ghost before = most;
        let mut j: usize = 0;
        assert(views.take(i as int).take(0) =~= Seq::empty());
        while j < hexes.len()
            invariant
                i < views.len(),
                j <= hexes@.len(),
                hexes@.len() == i,
                own@ == views[i as int],
                forall|k: int| 0 <= k < i ==> (#[trigger] hexes@[k])@ == views[k],
                before <= HUNK_ID_HEX_LEN,
                most == least(
                    greatest(
                        before as int,
                        needed_against(views.take(j as int), views[i as int]) as int,
                    ),
                    HUNK_ID_HEX_LEN as int,
                ),
            decreases hexes@.len() - j,
        {
            assert(views.take(j as int + 1).drop_last() =~= views.take(j as int));
            let common = common_prefix_len(&hexes[j], &own);
            if common >= HUNK_ID_HEX_LEN {
                most = HUNK_ID_HEX_LEN;
            } else if common + 1 > most {
                most = common + 1;
            }
            j += 1;
        }
        hexes.push(own);
        i += 1;
    }
    assert(views.take(views.len() as int) =~= views);
    most
}

pub(crate) fn abbreviate(id: &str, hex_len: usize) -> (r: String)
    ensures
        r@ == abbreviated(id@, hex_len as int),
{
    let digits = id_hex(id);
    let chars = chars_of(digits.as_str());
    let end: usize = if hex_len <= chars.len() {
        hex_len
    } else {
        chars.len()
    };
    let cut = string_of(&chars, 0, end);
    assert(cut@ =~= bare(id@).take(end as int));
    concat2(HUNK_ID_PREFIX, cut.as_str())
}

/// Give every hunk the shortest `short_id` that still tells it from the others.
///
/// One length is chosen for the whole set. Call this over every hunk a person
/// could be looking at in one go, or two files' hunks can be shown under the
/// same abbreviation.
pub fn assign_short_ids(hunks: &mut Vec<Hunk>)
    requires
        forall|i: int| 0 <= i < old(hunks)@.len() ==> is_ascii_chars((#[trigger] old(hunks)@[i]).id@),
    ensures
        deep(final(hunks)@) == with_short_ids(deep(old(hunks)@)),
        forall|i: int|
            0 <= i < final(hunks)@.len() ==> (#[trigger] final(hunks)@[i]).id == old(hunks)@[i].id,
        final(hunks)@.len() == old(hunks)@.len(),
{
    let mut ids: Vec<String> = Vec::new();
    let mut i: usize = 0;
    while i < hunks.len()
        invariant
            i <= hunks@.len(),
            hunks@ == old(hunks)@,
            ids@.len() == i,
            forall|j: int| 0 <= j < i ==> (#[trigger] ids@[j])@ == hunks@[j].id@,
        decreases hunks@.len() - i,
    {
        ids.push(hunks[i].id.clone());
        i += 1;
    }
    assert(deep(ids@) =~= ids_of(deep(old(hunks)@)));
    let digits = shortest_unique_prefix_len(&ids);
    let mut i: usize = 0;
    while i < hunks.len()
        invariant
            i <= hunks@.len(),
            hunks@.len() == old(hunks)@.len(),
            digits == shortest_unique(ids_of(deep(old(hunks)@))),
            forall|j: int|
                0 <= j < i ==> (#[trigger] hunks@[j]).deep_view() == with_short_ids(
                    deep(old(hunks)@),
                )[j] && hunks@[j].id == old(hunks)@[j].id,
            forall|j: int| i <= j < hunks@.len() ==> hunks@[j] == old(hunks)@[j],
        decreases hunks@.len() - i,
    {
        let short = abbreviate(hunks[i].id.as_str(), digits);
        hunks[i].short_id = short;
        i += 1;
    }
    assert(deep(hunks@) =~= with_short_ids(deep(old(hunks)@)));
}

/// Full ids are ASCII.
proof fn lemma_full_id_is_ascii(id: Seq<char>)
    requires
        full_id(id),
    ensures
        is_ascii_chars(id),
{
    reveal_strlit("hunk-");
    assert forall|i: int| 0 <= i < id.len() implies (0 <= #[trigger] id[i] < 128) by {
        if i < HUNK_ID_PREFIX@.len() {
            assert(id.take(HUNK_ID_PREFIX@.len() as int)[i] == id[i]);
        } else {
            assert(is_lower_hex(id[i]));
        }
    }
}

proof fn lemma_shared_prefix(a: Seq<char>, b: Seq<char>, n: int)
    requires
        0 <= n <= a.len(),
        n <= b.len(),
        a.take(n) == b.take(n),
    ensures
        shared(a, b) >= n,
    decreases n,
{
    if n > 0 {
        assert(a.take(n)[0] == a[0]);
        assert(b.take(n)[0] == b[0]);
        assert(a.drop_first().take(n - 1) =~= a.take(n).drop_first());
        assert(b.drop_first().take(n - 1) =~= b.take(n).drop_first());
        lemma_shared_prefix(a.drop_first(), b.drop_first(), n - 1);
    }
}

proof fn lemma_needed_against(others: Seq<Seq<char>>, x: Seq<char>, i: int)
    requires
        0 <= i < others.len(),
    ensures
        needed_against(others, x) >= shared(others[i], x) + 1,
    decreases others.len(),
{
    if i < others.len() - 1 {
        lemma_needed_against(others.drop_last(), x, i);
    }
}

proof fn lemma_needed(hexes: Seq<Seq<char>>, i: int, j: int)
    requires
        0 <= i < j < hexes.len(),
    ensures
        needed(hexes) >= shared(hexes[i], hexes[j]) + 1,
    decreases hexes.len(),
{
    if j < hexes.len() - 1 {
        lemma_needed(hexes.drop_last(), i, j);
    } else {
        lemma_needed_against(hexes.drop_last(), hexes.last(), i);
    }
}

proof fn lemma_needed_floor(hexes: Seq<Seq<char>>)
    ensures
        needed(hexes) >= MIN_SHORT_ID_HEX,
    decreases hexes.len(),
{
    if hexes.len() > 0 {
        lemma_needed_floor(hexes.drop_last());
    }
}

/// An id that is cut to some digits is a prefix of the id.
pub proof fn an_abbreviation_begins_its_id(ids: Seq<Seq<char>>, id: Seq<char>)
    requires
        full_id(id),
    ensures
        begins_with(id, abbreviated(id, shortest_unique(ids))),
{
    let p = HUNK_ID_PREFIX@.len() as int;
    let short = abbreviated(id, shortest_unique(ids));
    lemma_needed_floor(bares(ids));
    assert(id =~= id.take(p) + id.skip(p));
    assert(id.take(short.len() as int) =~= short);
}

/// An id that is cut to the digits that tell some ids apart is a prefix of none of
/// the others.
pub proof fn an_abbreviation_names_no_other_id(ids: Seq<Seq<char>>, i: int, j: int)
    requires
        0 <= i < ids.len(),
        0 <= j < ids.len(),
        full_id(ids[i]),
        full_id(ids[j]),
        ids[i] != ids[j],
    ensures
        ({
            let short = abbreviated(ids[i], shortest_unique(ids));
            begins_with(ids[i], short) && !begins_with(ids[j], short)
        }),
{
    let hexes = bares(ids);
    let digits = shortest_unique(ids);
    let p = HUNK_ID_PREFIX@.len() as int;
    let a = ids[i];
    let b = ids[j];
    let short = abbreviated(a, digits);
    lemma_needed_floor(hexes);
    assert(a =~= a.take(p) + a.skip(p));
    assert(b =~= b.take(p) + b.skip(p));
    assert(a.take(short.len() as int) =~= short);
    if begins_with(b, short) {
        assert(bare(a).take(digits) =~= short.skip(p));
        assert(bare(b).take(digits) =~= b.take(short.len() as int).skip(p));
        lemma_shared_prefix(bare(a), bare(b), digits);
        lemma_shared_prefix(bare(b), bare(a), digits);
        if i < j {
            lemma_needed(hexes, i, j);
        } else {
            lemma_needed(hexes, j, i);
        }
        assert(digits == HUNK_ID_HEX_LEN);
        assert(bare(a).take(digits) =~= bare(a));
        assert(bare(b).take(digits) =~= bare(b));
    }
}

/// A short id is a prefix of the id it stands for, and never shorter than the
/// floor; where no two hunks share an id, no two share a short id.
pub proof fn short_ids_abbreviate_and_tell_apart(hunks: Seq<HunkView>)
    requires
        forall|i: int| 0 <= i < hunks.len() ==> full_id(#[trigger] hunks[i].id),
        forall|i: int, j: int|
            0 <= i < j < hunks.len() ==> #[trigger] hunks[i].id != #[trigger] hunks[j].id,
    ensures
        forall|i: int|
            0 <= i < hunks.len() ==> {
                let short = #[trigger] with_short_ids(hunks)[i].short_id;
                &&& begins_with(hunks[i].id, short)
                &&& short.len() >= HUNK_ID_PREFIX@.len() + MIN_SHORT_ID_HEX
            },
        forall|i: int, j: int|
            0 <= i < j < hunks.len() ==> #[trigger] with_short_ids(hunks)[i].short_id
                != #[trigger] with_short_ids(hunks)[j].short_id,
{
    let ids = ids_of(hunks);
    let hexes = bares(ids);
    let digits = shortest_unique(ids);
    let p = HUNK_ID_PREFIX@.len() as int;
    lemma_needed_floor(hexes);
    assert forall|i: int| 0 <= i < hunks.len() implies {
        let short = #[trigger] with_short_ids(hunks)[i].short_id;
        &&& begins_with(hunks[i].id, short)
        &&& short.len() >= HUNK_ID_PREFIX@.len() + MIN_SHORT_ID_HEX
    } by {
        let id = hunks[i].id;
        assert(full_id(id));
        let short = with_short_ids(hunks)[i].short_id;
        assert(id.take(short.len() as int) =~= short) by {
            assert(id.take(p) == HUNK_ID_PREFIX@);
            assert(id =~= id.take(p) + id.skip(p));
        }
    }
    assert forall|i: int, j: int| 0 <= i < j < hunks.len() implies #[trigger] with_short_ids(
        hunks,
    )[i].short_id != #[trigger] with_short_ids(hunks)[j].short_id by {
        let a = hunks[i].id;
        let b = hunks[j].id;
        assert(full_id(a) && full_id(b));
        let sa = with_short_ids(hunks)[i].short_id;
        let sb = with_short_ids(hunks)[j].short_id;
        if sa == sb {
            assert(sa.skip(p) =~= bare(a).take(digits));
            assert(sb.skip(p) =~= bare(b).take(digits));
            lemma_shared_prefix(bare(a), bare(b), digits);
            lemma_needed(hexes, i, j);
            assert(digits == HUNK_ID_HEX_LEN);
            assert(bare(a).take(digits) =~= bare(a));
            assert(bare(b).take(digits) =~= bare(b));
            assert(a =~= a.take(p) + a.skip(p));
            assert(b =~= b.take(p) + b.skip(p));
        }
    }
}

proof fn lemma_shared_symmetric(a: Seq<char>, b: Seq<char>)
    ensures
        shared(a, b) == shared(b, a),
    decreases a.len(),
{
    if a.len() > 0 && b.len() > 0 && a[0] == b[0] {
        lemma_shared_symmetric(a.drop_first(), b.drop_first());
    }
}

proof fn lemma_needed_against_at_most(others: Seq<Seq<char>>, x: Seq<char>, most: nat)
    requires
        forall|i: int| 0 <= i < others.len() ==> shared(#[trigger] others[i], x) + 1 <= most,
    ensures
        needed_against(others, x) <= most,
    decreases others.len(),
{
    if others.len() > 0 {
        let front = others.drop_last();
        assert forall|i: int| 0 <= i < front.len() implies shared(#[trigger] front[i], x) + 1
            <= most by {
            assert(shared(others[i], x) + 1 <= most);
        }
        lemma_needed_against_at_most(front, x, most);
        assert(shared(others[others.len() - 1], x) + 1 <= most);
    }
}

proof fn lemma_needed_at_most(hexes: Seq<Seq<char>>, most: nat)
    requires
        MIN_SHORT_ID_HEX <= most,
        forall|i: int, j: int|
            0 <= i < j < hexes.len() ==> shared(#[trigger] hexes[i], #[trigger] hexes[j]) + 1
                <= most,
    ensures
        needed(hexes) <= most,
    decreases hexes.len(),
{
    if hexes.len() > 0 {
        let front = hexes.drop_last();
        assert forall|i: int, j: int| 0 <= i < j < front.len() implies shared(
            #[trigger] front[i],
            #[trigger] front[j],
        ) + 1 <= most by {
            assert(shared(hexes[i], hexes[j]) + 1 <= most);
        }
        lemma_needed_at_most(front, most);
        assert forall|i: int| 0 <= i < front.len() implies shared(
            #[trigger] front[i],
            hexes.last(),
        ) + 1 <= most by {
            assert(shared(hexes[i], hexes[hexes.len() - 1]) + 1 <= most);
        }
        lemma_needed_against_at_most(front, hexes.last(), most);
    }
}

/// Two items that are somewhere in a sequence, be they the same, are in two places
/// of any other with the same items.
proof fn lemma_two_places(
    a: Seq<Seq<char>>,
    b: Seq<Seq<char>>,
    i: int,
    j: int,
) -> (r: (int, int))
    requires
        a.to_multiset() == b.to_multiset(),
        0 <= i < j < a.len(),
    ensures
        0 <= r.0 < b.len(),
        0 <= r.1 < b.len(),
        r.0 != r.1,
        b[r.0] == a[i],
        b[r.1] == a[j],
{
    let x = a[i];
    let y = a[j];
    a.to_multiset_ensures();
    b.to_multiset_ensures();
    assert(a.contains(x) && a.contains(y));
    assert(a.to_multiset().count(x) > 0 && a.to_multiset().count(y) > 0);
    assert(b.contains(x) && b.contains(y));
    let p = b.index_of(x);
    if x != y {
        (p, b.index_of(y))
    } else {
        let rest = a.remove(i);
        assert(rest[j - 1] == x);
        rest.to_multiset_ensures();
        assert(rest.contains(x));
        assert(rest.to_multiset() == a.to_multiset().remove(x));
        let others = b.remove(p);
        others.to_multiset_ensures();
        assert(others.to_multiset() == b.to_multiset().remove(x));
        assert(others.to_multiset().count(x) == rest.to_multiset().count(x));
        assert(others.contains(x));
        let q = others.index_of(x);
        if q < p {
            (p, q)
        } else {
            (p, q + 1)
        }
    }
}

proof fn lemma_needed_no_more(a: Seq<Seq<char>>, b: Seq<Seq<char>>)
    requires
        a.to_multiset() == b.to_multiset(),
    ensures
        needed(bares(a)) <= needed(bares(b)),
{
    let x = bares(a);
    let y = bares(b);
    lemma_needed_floor(y);
    assert forall|i: int, j: int| 0 <= i < j < x.len() implies shared(
        #[trigger] x[i],
        #[trigger] x[j],
    ) + 1 <= needed(y) by {
        let (p, q) = lemma_two_places(a, b, i, j);
        assert(y[p] == x[i] && y[q] == x[j]);
        if p < q {
            lemma_needed(y, p, q);
        } else {
            lemma_needed(y, q, p);
            lemma_shared_symmetric(x[i], x[j]);
        }
    }
    lemma_needed_at_most(x, needed(y));
}

/// Short ids depend on the ids alone: not on the order of the hunks, and not on
/// the short ids that they had.
pub proof fn short_ids_depend_on_ids_alone(hunks: Seq<HunkView>, others: Seq<HunkView>)
    requires
        ids_of(hunks).to_multiset() == ids_of(others).to_multiset(),
    ensures
        forall|i: int, j: int|
            0 <= i < hunks.len() && 0 <= j < others.len() && hunks[i].id == others[j].id ==> (
            #[trigger] with_short_ids(hunks)[i]).short_id == (
            #[trigger] with_short_ids(others)[j]).short_id,
{
    lemma_needed_no_more(ids_of(hunks), ids_of(others));
    lemma_needed_no_more(ids_of(others), ids_of(hunks));
}

/// Abbreviating ids a second time changes nothing.
pub proof fn abbreviating_twice_changes_nothing(hunks: Seq<HunkView>)
    ensures
        with_short_ids(with_short_ids(hunks)) == with_short_ids(hunks),
{
    assert(ids_of(with_short_ids(hunks)) =~= ids_of(hunks));
    assert(with_short_ids(with_short_ids(hunks)) =~= with_short_ids(hunks));
}

/// The ids of a file's hunks tell them apart, in full and in short, as long as the
/// hash does not take what two of them are hashed from for one.
pub proof fn ids_tell_hunks_apart(
    path: Seq<char>,
    before: Seq<char>,
    changes: Seq<(ChangeTag, Seq<char>)>,
)
    requires
        edits(changes).len() <= u32::MAX,
        forall|i: int|
            0 <= i < edits(changes).len() ==> full_id(
                (#[trigger] hunks_of(path, before, changes)[i]).id,
            ),
        forall|i: int, j: int|
            0 <= i < j < edits(changes).len() ==> told_by_hash(
                #[trigger] edit_id_bytes(path, line_pieces(before), edits(changes), i),
                #[trigger] edit_id_bytes(path, line_pieces(before), edits(changes), j),
            ),
    ensures
        ({
            let hunks = hunks_of(path, before, changes);
            &&& forall|i: int, j: int|
                0 <= i < j < hunks.len() ==> (#[trigger] hunks[i]).id != (#[trigger] hunks[j]).id
                    && hunks[i].short_id != hunks[j].short_id
            &&& forall|i: int|
                0 <= i < hunks.len() ==> begins_with(
                    (#[trigger] hunks[i]).id,
                    hunks[i].short_id,
                )
        }),
{
    let lines = line_pieces(before);
    let all = edits(changes);
    let named = named_edits(path, lines, all);
    let hunks = hunks_of(path, before, changes);
    assert forall|i: int| 0 <= i < named.len() implies full_id(#[trigger] named[i].id) by {
        assert(full_id(hunks[i].id));
    }
    assert forall|i: int, j: int| 0 <= i < j < named.len() implies #[trigger] named[i].id
        != #[trigger] named[j].id by {
        assert(told_by_hash(
            edit_id_bytes(path, lines, all, i),
            edit_id_bytes(path, lines, all, j),
        ));
        no_two_hunks_share_an_id(path, lines, all, i, j);
    }
    short_ids_abbreviate_and_tell_apart(named);
    assert forall|i: int, j: int| 0 <= i < j < hunks.len() implies (#[trigger] hunks[i]).id != (
    #[trigger] hunks[j]).id && hunks[i].short_id != hunks[j].short_id by {
        assert(hunks[i].id == named[i].id);
        assert(hunks[j].id == named[j].id);
        assert(with_short_ids(named)[i].short_id != with_short_ids(named)[j].short_id);
    }
    assert forall|i: int| 0 <= i < hunks.len() implies begins_with(
        (#[trigger] hunks[i]).id,
        hunks[i].short_id,
    ) by {
        assert(begins_with(named[i].id, with_short_ids(named)[i].short_id));
    }
}

// ---------------------------------------------------------------------------
// Getting the hunks of a file
// ---------------------------------------------------------------------------

/// A path as it is hashed: the platform's separator rewritten to `/`.
pub open spec fn slashed(path: Seq<char>, separator: char) -> Seq<char> {
    Seq::new(
        path.len(),
        |i: int|
            if path[i] == separator {
                '/'
            } else {
                path[i]
            },
    )
}

/// Rewrite a platform's path separator to `/`, the one hunk ids are made with.
pub fn slash_path(path: &str, separator: char) -> (r: String)
    ensures
        r@ == slashed(path@, separator),
{
    let chars = chars_of(path);
    let mut r = String::new();
    let mut i: usize = 0;
    while i < chars.len()
        invariant
            chars@ == path@,
            i <= chars.len(),
            r@ == slashed(path@, separator).take(i as int),
        decreases chars.len() - i,
    {
        if chars[i] == separator {
            r.push('/');
        } else {
            r.push(chars[i]);
        }
        i += 1;
        assert(r@ =~= slashed(path@, separator).take(i as int));
    }
    assert(slashed(path@, separator).take(i as int) =~= slashed(path@, separator));
    r
}

/// The hunks between two texts of the file `path`.
pub open spec fn file_hunks(path: Seq<char>, before: Seq<char>, after: Seq<char>) -> Seq<HunkView> {
    hunks_of(path, before, line_changes(before, after))
}

/// Whether a hunk is where its ranges say: what it takes out are those lines of
/// the text before the change, and what it puts in those of the text after it.
pub open spec fn in_place(before: Seq<Seq<char>>, after: Seq<Seq<char>>, h: HunkView) -> bool {
    let old = h.before_range;
    let new = h.after_range;
    &&& 1 <= old.start && old.start - 1 + old.length <= before.len()
    &&& h.removed == concat(before.subrange(old.start - 1, old.start - 1 + old.length))
    &&& 1 <= new.start && new.start - 1 + new.length <= after.len()
    &&& h.added == concat(after.subrange(new.start - 1, new.start - 1 + new.length))
}

proof fn lemma_nothing_changed(changes: Seq<(ChangeTag, Seq<char>)>)
    requires
        forall|i: int| 0 <= i < changes.len() ==> (#[trigger] changes[i]).0 == ChangeTag::Equal,
    ensures
        edits(changes).len() == 0,
    decreases changes.len(),
{
    if changes.len() > 0 {
        let front = changes.drop_last();
        assert forall|i: int| 0 <= i < front.len() implies (#[trigger] front[i]).0
            == ChangeTag::Equal by {
            assert(changes[i].0 == ChangeTag::Equal);
        }
        lemma_nothing_changed(front);
        assert(changes[changes.len() - 1].0 == ChangeTag::Equal);
    }
}

/// Extract hunks from before/after content.
///
/// `path` is the file's path on the right-hand side of the diff, relative to the
/// workspace root and spelled with `/` (see [`slash_path`]). It is part of every
/// id, so the same edit made to two files does not produce one id shared
/// between them.
pub fn get_hunks(path: &str, before: &str, after: &str) -> (hunks: Vec<Hunk>)
    requires
        diffable(before@, after@),
    ensures
        deep(hunks@) == file_hunks(path@, before@, after@),
        forall|i: int| 0 <= i < hunks@.len() ==> full_id((#[trigger] hunks@[i]).id@),
        hunks@.len() <= u32::MAX,
        hunks@.len() == 0 <==> before@ == after@,
        differ_there(
            hunk_places(deep(hunks@)),
            diff_pieces(before@),
            diff_pieces(after@),
        ),
        forall|i: int|
            0 <= i < hunks@.len() ==> in_place(
                diff_pieces(before@),
                diff_pieces(after@),
                #[trigger] deep(hunks@)[i],
            ),
{
    let changes = diff_lines(before, after);
    proof {
        let views = deep(changes@);
        lemma_diff_of_lines(views, before@, after@);
        if before@ == after@ {
            assert forall|i: int| 0 <= i < views.len() implies (#[trigger] views[i]).0
                == ChangeTag::Equal by {
                assert(changes@[i].tag == ChangeTag::Equal);
            }
            lemma_nothing_changed(views);
        }
        hunks_are_all_that_differs(path@, before@, views);
        let places = hunk_places(file_hunks(path@, before@, after@));
        if edits(views).len() == 0 {
            assert(gap_agrees(places, 0, diff_pieces(before@), diff_pieces(after@)));
            assert(diff_pieces(before@).subrange(0, diff_pieces(before@).len() as int)
                =~= diff_pieces(before@));
            assert(diff_pieces(after@).subrange(0, diff_pieces(after@).len() as int)
                =~= diff_pieces(after@));
            lemma_pieces_in_a_row(before@);
            lemma_pieces_in_a_row(after@);
        }
        assert forall|i: int| 0 <= i < edits(views).len() implies in_place(
            diff_pieces(before@),
            diff_pieces(after@),
            #[trigger] file_hunks(path@, before@, after@)[i],
        ) by {
            lemma_hunk_in_place(path@, before@, views, i);
        }
    }
    let hunks = hunks_of_changes(path, before, &changes);
    assert(deep(hunks@).len() == hunks@.len());
    assert(hunks@.len() == edits(deep(changes@)).len());
    hunks
}

// ---------------------------------------------------------------------------
// Resolving a selection
// ---------------------------------------------------------------------------

/// Whether `selector` names `full`, either exactly or as an abbreviation.
pub fn id_matches(selector: &str, full: &str) -> (r: bool)
    ensures
        r == begins_with(full@, selector@),
{
    starts_with(full, selector)
}

/// The hunks that an id names, in order.
pub open spec fn named_by(hunks: Seq<HunkView>, id: Seq<char>) -> Seq<HunkView>
    decreases hunks.len(),
{
    if hunks.len() == 0 {
        Seq::empty()
    } else if begins_with(hunks.last().id, id) {
        named_by(hunks.drop_last(), id).push(hunks.last())
    } else {
        named_by(hunks.drop_last(), id)
    }
}

pub open spec fn short_ids_of(hunks: Seq<HunkView>) -> Seq<Seq<char>> {
    Seq::new(hunks.len(), |i: int| hunks[i].short_id)
}

impl HunkSelection {
    /// Whether the selection names this hunk.
    pub open spec fn names(&self, hunk: HunkView) -> bool {
        ||| self.indices@.contains(hunk.index)
        ||| exists|k: int|
            0 <= k < self.ids.members().len() && begins_with(
                hunk.id,
                #[trigger] self.ids.members()[k],
            )
    }

    /// The positions of the hunks the selection names.
    pub open spec fn positions(&self, hunks: Seq<HunkView>) -> Set<usize> {
        Set::new(
            |i: usize|
                exists|k: int|
                    0 <= k < hunks.len() && (#[trigger] hunks[k]).index == i && self.names(
                        hunks[k],
                    ),
        )
    }

    /// Whether no id of the selection names more than one of the hunks.
    pub open spec fn unambiguous(&self, hunks: Seq<HunkView>) -> bool {
        forall|k: int|
            0 <= k < self.ids.members().len() ==> named_by(
                hunks,
                #[trigger] self.ids.members()[k],
            ).len() <= 1
    }

    /// Whether `e` reports the first id, in order, that names more than one of
    /// the hunks, with those hunks.
    pub open spec fn first_ambiguity(&self, hunks: Seq<HunkView>, e: AmbiguousId) -> bool {
        exists|n: int|
            {
                &&& 0 <= n < self.ids.members().len()
                &&& e.id@ == #[trigger] self.ids.members()[n]
                &&& named_by(hunks, e.id@).len() > 1
                &&& deep(e.candidates@) == short_ids_of(named_by(hunks, e.id@))
                &&& forall|m: int|
                    0 <= m < n ==> named_by(hunks, #[trigger] self.ids.members()[m]).len() <= 1
            }
    }

    pub fn is_empty(&self) -> (r: bool)
        ensures
            r == (self.indices@ == Set::<usize>::empty() && self.ids@ == Set::<
                Seq<char>,
            >::empty()),
    {
        let no_indices = self.indices.is_empty();
        let no_ids = self.ids.is_empty();
        proof {
            assert(no_indices == (self.indices@ =~= Set::<usize>::empty()));
        }
        no_indices && no_ids
    }

    /// Resolve this selection against one file's hunks.
    ///
    /// Indices match exactly; ids match as prefixes. An id naming more than one
    /// hunk is an error rather than a multi-select. An id matching nothing is
    /// not an error here: a selection is applied file by file, so most ids do
    /// not belong to the file at hand.
    pub fn resolve(&self, hunks: &Vec<Hunk>) -> (r: Result<HashSet<usize>, AmbiguousId>)
        ensures
            r is Ok == self.unambiguous(deep(hunks@)),
            match r {
                Ok(selected) => selected@ == self.positions(deep(hunks@)),
                Err(e) => self.first_ambiguity(deep(hunks@), e),
            },
    {
        let ghost views = deep(hunks@);
        let ghost members = self.ids.members();
        let mut selected: HashSet<usize> = HashSet::new();
        let mut i: usize = 0;
        while i < hunks.len()
            invariant
                views == deep(hunks@),
                i <= hunks.len(),
                forall|x: usize| #[trigger]
                    selected@.contains(x) <==> exists|k: int|
                        0 <= k < i && (#[trigger] views[k]).index == x && self.indices@.contains(x),
            decreases hunks.len() - i,
        {
            let index = hunks[i].index;
            assert(views[i as int].index == index);
            if self.indices.contains(&index) {
                selected.insert(index);
            }
            i += 1;
        }
        let n: usize = self.ids.len();
        let mut j: usize = 0;
        while j < n
            invariant
                views == deep(hunks@),
                members == self.ids.members(),
                n == members.len(),
                j <= n,
                forall|m: int| 0 <= m < j ==> named_by(views, #[trigger] members[m]).len() <= 1,
                forall|x: usize| #[trigger]
                    selected@.contains(x) <==> exists|k: int|
                        0 <= k < views.len() && (#[trigger] views[k]).index == x && (
                        self.indices@.contains(x) || exists|m: int|
                            0 <= m < j && begins_with(views[k].id, #[trigger] members[m])),
            decreases n - j,
        {
            let id = self.ids.at(j);
            let mut matched: Vec<usize> = Vec::new();
            let mut candidates: Vec<String> = Vec::new();
            let mut k: usize = 0;
            assert(views.take(0) =~= Seq::empty());
            while k < hunks.len()
                invariant
                    views == deep(hunks@),
                    k <= hunks.len(),
                    matched@.len() == candidates@.len(),
                    matched@.len() == named_by(views.take(k as int), id@).len(),
                    deep(candidates@) == short_ids_of(named_by(views.take(k as int), id@)),
                    forall|x: int|
                        0 <= x < matched@.len() ==> matched@[x] == named_by(
                            views.take(k as int),
                            id@,
                        )[x].index,
                decreases hunks.len() - k,
            {
                broadcast use group_deep;

                assert(views.take(k as int + 1).drop_last() =~= views.take(k as int));
                assert(views[k as int] == hunks@[k as int].deep_view());
                if id_matches(id.as_str(), hunks[k].id.as_str()) {
                    matched.push(hunks[k].index);
                    candidates.push(hunks[k].short_id.clone());
                    assert(deep(candidates@) =~= short_ids_of(
                        named_by(views.take(k as int + 1), id@),
                    ));
                }
                k += 1;
            }
            assert(views.take(views.len() as int) =~= views);
            if matched.len() > 1 {
                let e = AmbiguousId { id: id.clone(), candidates };
                proof {
                    assert(e.id@ == members[j as int]);
                    assert(self.first_ambiguity(views, e));
                    assert(!self.unambiguous(views));
                }
                return Err(e);
            }
            proof {
                lemma_named_by(views, id@);
            }
            if matched.len() == 1 {
                let one = matched[0];
                selected.insert(one);
            }
            proof {
                assert forall|x: usize| #[trigger] selected@.contains(x) <==> exists|k: int|
                    0 <= k < views.len() && (#[trigger] views[k]).index == x && (
                    self.indices@.contains(x) || exists|m: int|
                        0 <= m < j + 1 && begins_with(views[k].id, #[trigger] members[m])) by {
                    assert(members[j as int] == id@);
                    if selected@.contains(x) && matched.len() == 1 && x == matched@[0] {
                        let hit = named_by(views, id@)[0];
                        assert(named_by(views, id@).contains(hit));
                        let k = choose|k: int|
                            0 <= k < views.len() && views[k] == hit && begins_with(
                                views[k].id,
                                id@,
                            );
                        assert(views[k].index == x);
                    }
                    if exists|k: int|
                        0 <= k < views.len() && (#[trigger] views[k]).index == x && begins_with(
                            views[k].id,
                            id@,
                        ) {
                        let k = choose|k: int|
                            0 <= k < views.len() && (#[trigger] views[k]).index == x
                                && begins_with(views[k].id, id@);
                        assert(named_by(views, id@).contains(views[k]));
                        assert(named_by(views, id@)[0] == views[k]);
                    }
                }
            }
            j += 1;
        }
        proof {
            assert forall|x: usize| #[trigger]
                selected@.contains(x) <==> self.positions(views).contains(x) by {
                if selected@.contains(x) {
                    let k = choose|k: int|
                        0 <= k < views.len() && (#[trigger] views[k]).index == x && (
                        self.indices@.contains(x) || exists|m: int|
                            0 <= m < n && begins_with(views[k].id, #[trigger] members[m]));
                    assert(self.names(views[k]));
                }
                if self.positions(views).contains(x) {
                    let k = choose|k: int|
                        0 <= k < views.len() && (#[trigger] views[k]).index == x && self.names(
                            views[k],
                        );
                    assert(views[k].index == x);
                }
            }
            assert(selected@ =~= self.positions(views));
        }
        Ok(selected)
    }
}

/// A hunk is among those an id names exactly when the id is a prefix of its own.
proof fn lemma_named_by(hunks: Seq<HunkView>, id: Seq<char>)
    ensures
        forall|h: HunkView| #[trigger]
            named_by(hunks, id).contains(h) <==> exists|k: int|
                0 <= k < hunks.len() && #[trigger] hunks[k] == h && begins_with(h.id, id),
    decreases hunks.len(),
{
    if hunks.len() > 0 {
        let init = hunks.drop_last();
        lemma_named_by(init, id);
        assert forall|h: HunkView| #[trigger]
            named_by(hunks, id).contains(h) <==> exists|k: int|
                0 <= k < hunks.len() && #[trigger] hunks[k] == h && begins_with(h.id, id) by {
            let rest = named_by(init, id);
            if named_by(hunks, id).contains(h) {
                if rest.contains(h) {
                    let k = choose|k: int|
                        0 <= k < init.len() && #[trigger] init[k] == h && begins_with(h.id, id);
                    assert(hunks[k] == h);
                } else {
                    let n = choose|n: int|
                        0 <= n < named_by(hunks, id).len() && named_by(hunks, id)[n] == h;
                    if n < rest.len() {
                        assert(rest[n] == h);
                    }
                    assert(hunks[hunks.len() - 1] == h);
                }
            }
            if exists|k: int|
                0 <= k < hunks.len() && #[trigger] hunks[k] == h && begins_with(h.id, id) {
                let k = choose|k: int|
                    0 <= k < hunks.len() && #[trigger] hunks[k] == h && begins_with(h.id, id);
                if k < init.len() {
                    assert(init[k] == h);
                    assert(rest.contains(h));
                    let n = choose|n: int| 0 <= n < rest.len() && rest[n] == h;
                    assert(named_by(hunks, id)[n] == h);
                } else {
                    assert(named_by(hunks, id).last() == h);
                }
            }
        }
    }
}

impl AmbiguousId {
    pub open spec fn text(&self) -> Seq<char> {
        "hunk id "@ + self.id@ + " is ambiguous: it names "@ + crate::text::decimal(
            self.candidates@.len(),
        ) + " hunks ("@ + joined(deep(self.candidates@), ", "@) + "). Use a longer prefix."@
    }

    /// The error in words.
    pub fn message(&self) -> (r: String)
        ensures
            r@ == self.text(),
    {
        let mut out = "hunk id ".to_owned();
        out.append(self.id.as_str());
        out.append(" is ambiguous: it names ");
        out.append(number(self.candidates.len()).as_str());
        out.append(" hunks (");
        out.append(join(&self.candidates, ", ").as_str());
        out.append("). Use a longer prefix.");
        out
    }
}

// ---------------------------------------------------------------------------
// Putting selected hunks back
// ---------------------------------------------------------------------------

/// The text of a diff in which the hunks at the positions `keep` happen and the
/// others do not: every kept line, the lines put in by the former, and the lines
/// that the latter would have taken out.
pub open spec fn rebuilt(changes: Seq<(ChangeTag, Seq<char>)>, keep: Set<usize>) -> Seq<char>
    decreases changes.len(),
{
    if changes.len() == 0 {
        Seq::empty()
    } else {
        let (tag, value) = changes.last();
        let kept = keep.contains((edits(changes).len() - 1) as usize);
        let shown = match tag {
            ChangeTag::Equal => true,
            ChangeTag::Delete => !kept,
            ChangeTag::Insert => kept,
        };
        if shown {
            rebuilt(changes.drop_last(), keep) + value
        } else {
            rebuilt(changes.drop_last(), keep)
        }
    }
}

/// Keeping no hunk gives the left side of the diff back.
pub proof fn keeping_no_hunk_gives_the_left_side(changes: Seq<(ChangeTag, Seq<char>)>)
    ensures
        rebuilt(changes, Set::<usize>::empty()) == text_without(changes, ChangeTag::Insert),
    decreases changes.len(),
{
    if changes.len() > 0 {
        keeping_no_hunk_gives_the_left_side(changes.drop_last());
    }
}

proof fn lemma_edits_grow(changes: Seq<(ChangeTag, Seq<char>)>)
    requires
        changes.len() > 0,
    ensures
        edits(changes.drop_last()).len() <= edits(changes).len(),
{
    lemma_edits_bounds(changes.drop_last());
    if changes.len() > 1 {
        assert(changes.drop_last().last() == changes[changes.len() - 2]);
    }
}

/// Keeping every hunk gives the right side of the diff.
pub proof fn keeping_every_hunk_gives_the_right_side(
    changes: Seq<(ChangeTag, Seq<char>)>,
    keep: Set<usize>,
)
    requires
        edits(changes).len() <= usize::MAX,
        forall|i: usize| i < edits(changes).len() ==> keep.contains(i),
    ensures
        rebuilt(changes, keep) == text_without(changes, ChangeTag::Delete),
    decreases changes.len(),
{
    if changes.len() > 0 {
        lemma_edits_grow(changes);
        lemma_edits_bounds(changes);
        keeping_every_hunk_gives_the_right_side(changes.drop_last(), keep);
    }
}

/// Rebuild a text from a diff, keeping only the hunks at the given positions.
pub fn apply_changes(changes: &Vec<Change>, keep: &HashSet<usize>) -> (out: String)
    ensures
        out@ == rebuilt(deep(changes@), keep@),
{
    let ghost views = deep(changes@);
    let mut out = String::new();
    let mut begun: usize = 0;
    let mut in_hunk = false;
    let mut i: usize = 0;
    assert(views.take(0) =~= Seq::empty());
    while i < changes.len()
        invariant
            views == deep(changes@),
            i <= changes.len(),
            out@ == rebuilt(views.take(i as int), keep@),
            begun == edits(views.take(i as int)).len(),
            begun <= i,
            in_hunk == (i > 0 && views[i as int - 1].0 != ChangeTag::Equal),
        decreases changes.len() - i,
    {
        let ghost passed = views.take(i as int);
        let ghost now = views.take(i as int + 1);
        proof {
            assert(now.drop_last() =~= passed);
            assert(now.last() == views[i as int]);
            lemma_edits_bounds(passed);
            if i > 0 {
                assert(now[now.len() - 2] == views[i as int - 1]);
                assert(passed.last() == views[i as int - 1]);
            }
        }
        let change = &changes[i];
        match change.tag {
            ChangeTag::Equal => {
                in_hunk = false;
                out.append(change.value.as_str());
            },
            ChangeTag::Delete => {
                if !in_hunk {
                    in_hunk = true;
                    begun += 1;
                }
                let number: usize = begun - 1;
                if !keep.contains(&number) {
                    out.append(change.value.as_str());
                }
            },
            ChangeTag::Insert => {
                if !in_hunk {
                    in_hunk = true;
                    begun += 1;
                }
                let number: usize = begun - 1;
                if keep.contains(&number) {
                    out.append(change.value.as_str());
                }
            },
        }
        i += 1;
    }
    assert(views.take(views.len() as int) =~= views);
    out
}

/// Rebuild `after` keeping only the selected hunks, resetting the rest to
/// `before`: in place of the lines that their ranges say stands what they put in,
/// and nothing else is changed.
///
/// The selection is resolved against what [`get_hunks`] reports for the same
/// two texts.
pub fn apply_selected_hunks(
    path: &str,
    before: &str,
    after: &str,
    selected: &HunkSelection,
) -> (r: Result<String, AmbiguousId>)
    requires
        diffable(before@, after@),
    ensures
        r is Ok == selected.unambiguous(file_hunks(path@, before@, after@)),
        match r {
            Ok(text) => {
                let hunks = file_hunks(path@, before@, after@);
                let keep = selected.positions(hunks);
                &&& text@ == rebuilt(line_changes(before@, after@), keep)
                &&& text@ == text_with(diff_pieces(before@), spans_kept(hunks, keep))
                &&& keep == Set::<usize>::empty() ==> text@ == before@
                &&& (forall|i: usize| i < hunks.len() ==> keep.contains(i)) ==> text@ == after@
            },
            Err(e) => selected.first_ambiguity(file_hunks(path@, before@, after@), e),
        },
{
    let hunks = get_hunks(path, before, after);
    let keep = match selected.resolve(&hunks) {
        Ok(keep) => keep,
        Err(e) => {
            return Err(e);
        },
    };
    let changes = diff_lines(before, after);
    let text = apply_changes(&changes, &keep);
    proof {
        let views = deep(changes@);
        lemma_diff_of_lines(views, before@, after@);
        keeping_hunks_replaces_their_lines(path@, before@, views, keep@);
        keeping_no_hunk_gives_the_left_side(views);
        assert(hunks@.len() == file_hunks(path@, before@, after@).len());
        assert(edits(views).len() == hunks.len());
        if forall|i: usize|
            i < file_hunks(path@, before@, after@).len() ==> keep@.contains(i) {
            keeping_every_hunk_gives_the_right_side(views, keep@);
        }
    }
    Ok(text)
}

// ---------------------------------------------------------------------------
// Reading an id
// ---------------------------------------------------------------------------

/// Whether a character is a hex digit in either case.
pub open spec fn is_hex(c: char) -> bool {
    ||| '0' <= c <= '9'
    ||| 'a' <= c <= 'f'
    ||| 'A' <= c <= 'F'
}

/// A hex digit in lower case.
pub open spec fn lowered(c: char) -> char {
    if 'A' <= c <= 'F' {
        (c as u32 + 32) as char
    } else {
        c
    }
}

/// What an id is read from: the text without surrounding space, without
/// trailing ellipses and without a prefix.
pub open spec fn id_digits(value: Seq<char>) -> Seq<char> {
    let kept = crate::text::without_trailing(crate::text::trimmed(value), "..."@);
    if begins_with(kept, HUNK_ID_PREFIX@) {
        kept.skip(HUNK_ID_PREFIX@.len() as int)
    } else if begins_with(kept, "id:"@) {
        kept.skip("id:"@.len() as int)
    } else if begins_with(kept, "sha:"@) {
        kept.skip("sha:"@.len() as int)
    } else if begins_with(kept, "sha256:"@) {
        kept.skip("sha256:"@.len() as int)
    } else {
        kept
    }
}

/// The normal form of an id, where the text is one.
pub open spec fn normal_id(value: Seq<char>) -> Option<Seq<char>> {
    let digits = id_digits(value);
    if digits.len() > 0 && forall|i: int| 0 <= i < digits.len() ==> is_hex(#[trigger] digits[i]) {
        Some(HUNK_ID_PREFIX@ + Seq::new(digits.len(), |i: int| lowered(digits[i])))
    } else {
        None
    }
}

proof fn lemma_trim_start_end(s: Seq<char>, tail: Seq<char>)
    requires
        tail.len() > 0,
        !is_space(tail[0]),
        s.len() == 0 || !is_space(s.last()),
    ensures
        crate::text::trim_start(s + tail) == crate::text::trim_start(s) + tail,
        crate::text::trim_start(s).len() == 0 || !is_space(crate::text::trim_start(s).last()),
    decreases s.len(),
{
    if s.len() > 0 && is_space(s[0]) {
        assert((s + tail).drop_first() =~= s.drop_first() + tail);
        lemma_trim_start_end(s.drop_first(), tail);
    }
}

/// An ellipsis behind an id does not count: what it abbreviates is read all the
/// same.
pub proof fn an_ellipsis_does_not_count(value: Seq<char>)
    requires
        value.len() == 0 || !is_space(value.last()),
    ensures
        normal_id(value + "..."@) == normal_id(value),
{
    reveal_strlit("...");
    lemma_trim_start_end(value, "..."@);
    let kept = crate::text::trim_start(value);
    let whole = kept + "..."@;
    assert(whole.last() == '.');
    assert(crate::text::trim_end(whole) == whole);
    assert(crate::text::trim_end(kept) == kept);
    assert(whole.skip(whole.len() - 3) =~= "..."@);
    assert(whole.take(whole.len() - 3) =~= kept);
}

/// An id is its own normal form, and so is whatever it is abbreviated to.
pub proof fn a_written_id_is_normal(id: Seq<char>, short: Seq<char>)
    requires
        full_id(id),
        begins_with(id, short),
        short.len() > HUNK_ID_PREFIX@.len(),
    ensures
        normal_id(short) == Some(short),
{
    reveal_strlit("hunk-");
    reveal_strlit("...");
    assert forall|i: int| 0 <= i < short.len() implies short[i] == id[i] by {
        assert(id.take(short.len() as int)[i] == id[i]);
    }
    assert(short.take(5) =~= HUNK_ID_PREFIX@) by {
        assert(id.take(5) == HUNK_ID_PREFIX@);
        assert forall|i: int| 0 <= i < 5 implies short[i] == HUNK_ID_PREFIX@[i] by {
            assert(id.take(5)[i] == id[i]);
        }
    }
    assert forall|i: int| 5 <= i < short.len() implies is_lower_hex(#[trigger] short[i]) by {
        assert(is_lower_hex(id[i]));
    }
    assert(short[0] == HUNK_ID_PREFIX@[0]) by {
        assert(short.take(5)[0] == short[0]);
    }
    assert(is_lower_hex(short[short.len() - 1]));
    assert(crate::text::trim_start(short) == short);
    assert(crate::text::trim_end(short) == short);
    assert(!crate::text::finishes_with(short, "..."@)) by {
        if crate::text::finishes_with(short, "..."@) {
            assert(short.skip(short.len() - 3)[2] == short.last());
        }
    }
    let digits = id_digits(short);
    assert(digits =~= short.skip(5));
    assert forall|i: int| 0 <= i < digits.len() implies is_hex(#[trigger] digits[i]) && lowered(
        digits[i],
    ) == digits[i] by {
        assert(is_lower_hex(short[i + 5]));
    }
    assert(short =~= HUNK_ID_PREFIX@ + Seq::new(digits.len(), |i: int| lowered(digits[i])));
}

/// Normalizing an id that is normal already changes nothing.
pub proof fn normalizing_twice_changes_nothing(value: Seq<char>)
    ensures
        normal_id(value) matches Some(id) ==> normal_id(id) == Some(id),
{
    if let Some(id) = normal_id(value) {
        reveal_strlit("hunk-");
        reveal_strlit("...");
        let digits = id_digits(value);
        assert forall|i: int| 0 <= i < id.len() implies !is_space(#[trigger] id[i]) by {
            if i >= 5 {
                assert(id[i] == lowered(digits[i - 5]));
                assert(is_hex(digits[i - 5]));
            }
        }
        assert(!is_space(id[0]));
        assert(crate::text::trim_start(id) == id);
        assert(!is_space(id.last()));
        assert(crate::text::trim_end(id) == id);
        assert(!crate::text::finishes_with(id, "..."@)) by {
            let n = digits.len() as int;
            assert(id.last() == lowered(digits[n - 1]));
            assert(is_hex(digits[n - 1]));
            if crate::text::finishes_with(id, "..."@) {
                assert(id.skip(id.len() - 3)[2] == id.last());
            }
        }
        assert(id.take(5) =~= HUNK_ID_PREFIX@);
        let again = id_digits(id);
        assert(again =~= Seq::new(digits.len(), |i: int| lowered(digits[i])));
        assert forall|i: int| 0 <= i < again.len() implies is_hex(#[trigger] again[i]) && lowered(
            again[i],
        ) == again[i] by {
            assert(again[i] == lowered(digits[i]));
            assert(is_hex(digits[i]));
        }
        assert(id =~= HUNK_ID_PREFIX@ + Seq::new(again.len(), |i: int| lowered(again[i])));
    }
}

fn hex_digit_of(c: char) -> (r: bool)
    ensures
        r == is_hex(c),
{
    ('0' <= c && c <= '9') || ('a' <= c && c <= 'f') || ('A' <= c && c <= 'F')
}

fn lower(c: char) -> (r: char)
    ensures
        r == lowered(c),
{
    if 'A' <= c && c <= 'F' {
        let code: u8 = c as u8;
        (code + 32) as char
    } else {
        c
    }
}

/// Normalize a hunk id string to `hunk-<hex>`.
///
/// Accepts the prefixes `hunk-`, `id:`, `sha:` and `sha256:`, or none at all,
/// and a trailing `...`. The result may be shorter than 64 hex digits: an
/// abbreviation is a valid way to name a hunk.
pub fn normalize_hunk_id(value: &str) -> (r: Option<String>)
    ensures
        r.deep_view() == normal_id(value@),
{
    proof {
        reveal_strlit("...");
    }
    let space_free = crate::text::trim(value);
    let kept = crate::text::trim_end_matches(space_free.as_str(), "...");
    let digits = match crate::text::strip_prefix(kept.as_str(), HUNK_ID_PREFIX) {
        Some(rest) => rest,
        None => match crate::text::strip_prefix(kept.as_str(), "id:") {
            Some(rest) => rest,
            None => match crate::text::strip_prefix(kept.as_str(), "sha:") {
                Some(rest) => rest,
                None => match crate::text::strip_prefix(kept.as_str(), "sha256:") {
                    Some(rest) => rest,
                    None => kept,
                },
            },
        },
    };
    let ghost shown = digits@;
    assert(shown == id_digits(value@));
    let chars = chars_of(digits.as_str());
    if chars.len() == 0 {
        return None;
    }
    let mut out = HUNK_ID_PREFIX.to_owned();
    let mut i: usize = 0;
    assert(out@ =~= HUNK_ID_PREFIX@ + Seq::new(0, |j: int| lowered(shown[j])));
    while i < chars.len()
        invariant
            chars@ == shown,
            shown == id_digits(value@),
            i <= chars.len(),
            forall|j: int| 0 <= j < i ==> is_hex(#[trigger] shown[j]),
            out@ == HUNK_ID_PREFIX@ + Seq::new(i as nat, |j: int| lowered(shown[j])),
        decreases chars.len() - i,
    {
        if !hex_digit_of(chars[i]) {
            assert(!is_hex(shown[i as int]));
            return None;
        }
        out.push(lower(chars[i]));
        i += 1;
        assert(out@ =~= HUNK_ID_PREFIX@ + Seq::new(i as nat, |j: int| lowered(shown[j])));
    }
    Some(out)
}

/// An edit is called by what it does: an insertion puts lines in and takes none
/// out, a deletion takes lines out and puts none in, and a replacement does both.
pub proof fn an_edit_is_called_by_what_it_does(removed: Seq<char>, added: Seq<char>)
    requires
        removed.len() > 0 || added.len() > 0,
    ensures
        kind_of(removed, added) == "insert"@ <==> removed.len() == 0,
        kind_of(removed, added) == "delete"@ <==> added.len() == 0,
        kind_of(removed, added) == "replace"@ <==> removed.len() > 0 && added.len() > 0,
{
    reveal_strlit("insert");
    reveal_strlit("delete");
    reveal_strlit("replace");
    assert("insert"@[0] != "delete"@[0]);
    assert("replace"@.len() == 7 && "insert"@.len() == 6 && "delete"@.len() == 6);
}

// ---------------------------------------------------------------------------
// How short a short id is
// ---------------------------------------------------------------------------

proof fn lemma_shared_beginning(a: Seq<char>, b: Seq<char>)
    ensures
        shared(a, b) <= a.len(),
        shared(a, b) <= b.len(),
        a.take(shared(a, b) as int) == b.take(shared(a, b) as int),
    decreases a.len(),
{
    let n = shared(a, b) as int;
    if a.len() > 0 && b.len() > 0 && a[0] == b[0] {
        lemma_shared_beginning(a.drop_first(), b.drop_first());
        assert(a.take(n) =~= seq![a[0]] + a.drop_first().take(n - 1));
        assert(b.take(n) =~= seq![b[0]] + b.drop_first().take(n - 1));
    } else {
        assert(a.take(0) =~= b.take(0));
    }
}

proof fn lemma_needed_by_one(others: Seq<Seq<char>>, x: Seq<char>)
    ensures
        needed_against(others, x) > 0 ==> exists|i: int|
            0 <= i < others.len() && shared(#[trigger] others[i], x) + 1 == needed_against(
                others,
                x,
            ),
    decreases others.len(),
{
    if others.len() > 0 {
        let rest = others.drop_last();
        let last = others.len() - 1;
        lemma_needed_by_one(rest, x);
        assert(others[last] == others.last());
        if needed_against(rest, x) > shared(others.last(), x) + 1 {
            let i = choose|i: int|
                0 <= i < rest.len() && shared(#[trigger] rest[i], x) + 1 == needed_against(rest, x);
            assert(others[i] == rest[i]);
        } else {
            assert(shared(others[last], x) + 1 == needed_against(others, x));
        }
    }
}

proof fn lemma_needed_by_two(hexes: Seq<Seq<char>>)
    ensures
        needed(hexes) >= MIN_SHORT_ID_HEX,
        needed(hexes) > MIN_SHORT_ID_HEX ==> exists|i: int, j: int|
            0 <= i < j < hexes.len() && #[trigger] shared(hexes[i], hexes[j]) + 1 == needed(hexes),
    decreases hexes.len(),
{
    if hexes.len() > 0 {
        let rest = hexes.drop_last();
        let last = hexes.len() - 1;
        let x = hexes.last();
        lemma_needed_by_two(rest);
        lemma_needed_by_one(rest, x);
        if needed(hexes) > MIN_SHORT_ID_HEX {
            if needed(rest) >= needed_against(rest, x) {
                let (i, j) = choose|i: int, j: int|
                    0 <= i < j < rest.len() && #[trigger] shared(rest[i], rest[j]) + 1 == needed(
                        rest,
                    );
                assert(hexes[i] == rest[i] && hexes[j] == rest[j]);
                assert(shared(hexes[i], hexes[j]) + 1 == needed(hexes));
            } else {
                let i = choose|i: int|
                    0 <= i < rest.len() && shared(#[trigger] rest[i], x) + 1 == needed_against(
                        rest,
                        x,
                    );
                assert(hexes[i] == rest[i] && hexes[last] == x);
                assert(shared(hexes[i], hexes[last]) + 1 == needed(hexes));
            }
        }
    }
}

/// Short ids have no more digits than they need: never fewer than the least that
/// is used, and where they have more, two of the ids would be cut to the same
/// with one digit less.
pub proof fn short_ids_are_no_longer_than_they_need(ids: Seq<Seq<char>>)
    ensures
        ({
            let digits = shortest_unique(ids);
            &&& least(MIN_SHORT_ID_HEX as int, HUNK_ID_HEX_LEN as int) <= digits <= HUNK_ID_HEX_LEN
            &&& digits > MIN_SHORT_ID_HEX && digits < HUNK_ID_HEX_LEN ==> exists|i: int, j: int|
                {
                    &&& 0 <= i < j < ids.len()
                    &&& #[trigger] bare(ids[i]).take(digits - 1) == #[trigger] bare(ids[j]).take(
                        digits - 1,
                    )
                }
        }),
{
    let all = bares(ids);
    let digits = shortest_unique(ids);
    lemma_needed_by_two(all);
    if digits > MIN_SHORT_ID_HEX && digits < HUNK_ID_HEX_LEN {
        let (i, j) = choose|i: int, j: int|
            0 <= i < j < all.len() && #[trigger] shared(all[i], all[j]) + 1 == needed(all);
        lemma_shared_beginning(all[i], all[j]);
        assert(bare(ids[i]).take(digits - 1) == bare(ids[j]).take(digits - 1));
    }
}

// ---------------------------------------------------------------------------
// What an id is read from
// ---------------------------------------------------------------------------

/// Whether a text is hex digits.
pub open spec fn is_hex_text(digits: Seq<char>) -> bool {
    digits.len() > 0 && forall|i: int| 0 <= i < digits.len() ==> is_hex(#[trigger] digits[i])
}

proof fn lemma_hex_ends(front: Seq<char>, digits: Seq<char>)
    requires
        is_hex_text(digits),
        front.len() > 0 ==> !crate::text::is_space(front[0]),
    ensures
        crate::text::trimmed(front + digits) == front + digits,
        crate::text::without_trailing(front + digits, "..."@) == front + digits,
{
    reveal_strlit("...");
    let s = front + digits;
    let last = digits[digits.len() - 1];
    assert(is_hex(last));
    assert(s.last() == last);
    assert(is_hex(digits[0]));
    assert(s[0] == if front.len() > 0 {
        front[0]
    } else {
        digits[0]
    });
    crate::text::lemma_trimmed_stays(s);
    assert(!crate::text::finishes_with(s, "..."@)) by {
        if crate::text::finishes_with(s, "..."@) {
            assert(s.skip(s.len() - 3)[2] == s.last());
        }
    }
}

/// An id is its digits, in capitals or not, behind any of the prefixes that an id
/// may be written with, or behind none: all of these are one id.
pub proof fn prefixes_and_capitals_do_not_count(digits: Seq<char>)
    requires
        is_hex_text(digits),
    ensures
        ({
            let id = Some(HUNK_ID_PREFIX@ + Seq::new(digits.len(), |i: int| lowered(digits[i])));
            &&& normal_id(digits) == id
            &&& normal_id(HUNK_ID_PREFIX@ + digits) == id
            &&& normal_id("id:"@ + digits) == id
            &&& normal_id("sha:"@ + digits) == id
            &&& normal_id("sha256:"@ + digits) == id
        }),
{
    reveal_strlit("hunk-");
    reveal_strlit("id:");
    reveal_strlit("sha:");
    reveal_strlit("sha256:");
    assert(is_hex(digits[0]));
    let none = Seq::<char>::empty();
    assert(none + digits =~= digits);
    lemma_hex_ends(none, digits);
    lemma_hex_ends(HUNK_ID_PREFIX@, digits);
    lemma_hex_ends("id:"@, digits);
    lemma_hex_ends("sha:"@, digits);
    lemma_hex_ends("sha256:"@, digits);
    lemma_no_prefix(digits, HUNK_ID_PREFIX@);
    lemma_no_prefix(digits, "id:"@);
    lemma_no_prefix(digits, "sha:"@);
    lemma_no_prefix(digits, "sha256:"@);
    lemma_one_prefix(HUNK_ID_PREFIX@, digits);
    lemma_one_prefix("id:"@, digits);
    lemma_one_prefix("sha:"@, digits);
    lemma_one_prefix("sha256:"@, digits);
    let a = "id:"@ + digits;
    let b = "sha:"@ + digits;
    let c = "sha256:"@ + digits;
    lemma_other_beginning(a, HUNK_ID_PREFIX@, 0);
    lemma_other_beginning(b, HUNK_ID_PREFIX@, 0);
    lemma_other_beginning(b, "id:"@, 0);
    lemma_other_beginning(c, HUNK_ID_PREFIX@, 0);
    lemma_other_beginning(c, "id:"@, 0);
    lemma_other_beginning(c, "sha:"@, 3);
    assert(id_digits(digits) == digits);
    assert(id_digits(HUNK_ID_PREFIX@ + digits) == digits);
    assert(id_digits(a) == digits);
    assert(id_digits(b) == digits);
    assert(id_digits(c) == digits);
}

proof fn lemma_one_prefix(prefix: Seq<char>, digits: Seq<char>)
    ensures
        begins_with(prefix + digits, prefix),
        (prefix + digits).skip(prefix.len() as int) == digits,
{
    assert((prefix + digits).take(prefix.len() as int) =~= prefix);
    assert((prefix + digits).skip(prefix.len() as int) =~= digits);
}

proof fn lemma_no_prefix(digits: Seq<char>, prefix: Seq<char>)
    requires
        is_hex_text(digits),
        prefix.len() > 0,
        !is_hex(prefix[0]),
    ensures
        !begins_with(digits, prefix),
{
    if begins_with(digits, prefix) {
        assert(digits.take(prefix.len() as int)[0] == digits[0]);
    }
}

proof fn lemma_other_beginning(s: Seq<char>, prefix: Seq<char>, at: int)
    requires
        0 <= at < prefix.len(),
        at < s.len() ==> s[at] != prefix[at],
    ensures
        !begins_with(s, prefix),
{
    if begins_with(s, prefix) {
        assert(s.take(prefix.len() as int)[at] == s[at]);
    }
}

// ---------------------------------------------------------------------------
// What a digest is taken of
// ---------------------------------------------------------------------------

/// Two texts that are a field, a label that begins with a zero and a rest have the
/// same field and the same rest where they are the same.
pub proof fn lemma_one_field(
    a: Seq<char>,
    b: Seq<char>,
    label: Seq<char>,
    rest: Seq<char>,
    other: Seq<char>,
)
    requires
        !a.contains('\0'),
        !b.contains('\0'),
        label.len() > 0,
        label[0] == '\0',
        a + (label + rest) == b + (label + other),
    ensures
        a == b,
        rest == other,
{
    let tail = label.skip(1);
    assert(a + (label + rest) =~= a.push('\0') + (tail + rest));
    assert(b + (label + other) =~= b.push('\0') + (tail + other));
    crate::text::lemma_parted_at(a, '\0', tail + rest);
    crate::text::lemma_parted_at(b, '\0', tail + other);
    assert((tail + rest).skip(tail.len() as int) =~= rest);
    assert((tail + other).skip(tail.len() as int) =~= other);
}

proof fn lemma_same_behind(a: Seq<char>, b: Seq<char>, c: Seq<char>)
    requires
        a + b == a + c,
    ensures
        b == c,
{
    assert((a + b).skip(a.len() as int) =~= b);
    assert((a + c).skip(a.len() as int) =~= c);
}

/// What a digest is taken of, label by label.
pub open spec fn labelled(
    path: Seq<char>,
    hunk_type: Seq<char>,
    removed: Seq<char>,
    added: Seq<char>,
    rest: Seq<char>,
) -> Seq<char> {
    "path\0"@ + (path + ("\0type\0"@ + (hunk_type + ("\0removed\0"@ + (removed + ("\0added\0"@ + (
    added + ("\0context\0"@ + rest))))))))
}

proof fn lemma_labelled(
    path: Seq<char>,
    hunk_type: Seq<char>,
    removed: Seq<char>,
    added: Seq<char>,
    context: Option<ContextView>,
)
    ensures
        digest_text(path, hunk_type, removed, added, context) == labelled(
            path,
            hunk_type,
            removed,
            added,
            context_text(context),
        ),
{
    let rest = context_text(context);
    let a = "path\0"@ + path + "\0type\0"@ + hunk_type;
    let b = "\0removed\0"@ + (removed + ("\0added\0"@ + (added + ("\0context\0"@ + rest))));
    assert(a + "\0removed\0"@ + removed + "\0added\0"@ + added + "\0context\0"@ + rest =~= a + b);
    assert(a + b =~= "path\0"@ + (path + ("\0type\0"@ + (hunk_type + b))));
}

/// How context is written into what a digest is taken of.
pub open spec fn context_text(context: Option<ContextView>) -> Seq<char> {
    match context {
        Some(c) => c.before + "\0"@ + c.after,
        None => Seq::empty(),
    }
}

/// What the digest of a hunk is taken of tells the hunk by everything that is in
/// it: where two are the same, so are their path, what they do, the lines they
/// take away, the lines they add and the lines around them.
pub proof fn a_digest_is_taken_of_all_of_a_hunk(
    path: Seq<char>,
    hunk_type: Seq<char>,
    removed: Seq<char>,
    added: Seq<char>,
    context: Option<ContextView>,
    other_path: Seq<char>,
    other_type: Seq<char>,
    other_removed: Seq<char>,
    other_added: Seq<char>,
    other_context: Option<ContextView>,
)
    requires
        digest_text(path, hunk_type, removed, added, context) == digest_text(
            other_path,
            other_type,
            other_removed,
            other_added,
            other_context,
        ),
        !path.contains('\0') && !other_path.contains('\0'),
        !hunk_type.contains('\0') && !other_type.contains('\0'),
        !removed.contains('\0') && !other_removed.contains('\0'),
        !added.contains('\0') && !other_added.contains('\0'),
        context matches Some(c) ==> !c.before.contains('\0'),
        other_context matches Some(c) ==> !c.before.contains('\0'),
    ensures
        path == other_path,
        hunk_type == other_type,
        removed == other_removed,
        added == other_added,
        context == other_context,
{
    reveal_strlit("\0type\0");
    reveal_strlit("\0removed\0");
    reveal_strlit("\0added\0");
    reveal_strlit("\0context\0");
    reveal_strlit("\0");
    lemma_labelled(path, hunk_type, removed, added, context);
    lemma_labelled(other_path, other_type, other_removed, other_added, other_context);
    let c = context_text(context);
    let d = context_text(other_context);
    let c1 = added + ("\0context\0"@ + c);
    let d1 = other_added + ("\0context\0"@ + d);
    let c2 = removed + ("\0added\0"@ + c1);
    let d2 = other_removed + ("\0added\0"@ + d1);
    let c3 = hunk_type + ("\0removed\0"@ + c2);
    let d3 = other_type + ("\0removed\0"@ + d2);
    let c4 = path + ("\0type\0"@ + c3);
    let d4 = other_path + ("\0type\0"@ + d3);
    lemma_same_behind("path\0"@, c4, d4);
    lemma_one_field(path, other_path, "\0type\0"@, c3, d3);
    lemma_one_field(hunk_type, other_type, "\0removed\0"@, c2, d2);
    lemma_one_field(removed, other_removed, "\0added\0"@, c1, d1);
    lemma_one_field(added, other_added, "\0context\0"@, c, d);
    match (context, other_context) {
        (Some(x), Some(y)) => {
            assert(c =~= x.before + ("\0"@ + x.after));
            assert(d =~= y.before + ("\0"@ + y.after));
            lemma_one_field(x.before, y.before, "\0"@, x.after, y.after);
        },
        (Some(x), None) => {
            assert(c.len() > 0);
        },
        (None, Some(y)) => {
            assert(d.len() > 0);
        },
        (None, None) => {},
    }
}

/// What an id is hashed from tells the digest and the occurrence.
pub proof fn an_id_is_hashed_from_its_digest_and_its_occurrence(
    digest: Seq<u8>,
    occurrence: nat,
    other: Seq<u8>,
    again: nat,
)
    requires
        id_bytes(digest, occurrence) == id_bytes(other, again),
        digest.len() == other.len(),
        occurrence <= u32::MAX,
        again <= u32::MAX,
    ensures
        digest == other,
        occurrence == again,
{
    let head = encode_utf8("hunk\0"@);
    let middle = encode_utf8("\0occurrence\0"@);
    let a = id_bytes(digest, occurrence);
    let b = id_bytes(other, again);
    let n = head.len() as int;
    let m = n + digest.len();
    let k = m + middle.len();
    assert(a.subrange(n, m) =~= digest);
    assert(b.subrange(n, m) =~= other);
    assert(a.skip(k) =~= little_endian(occurrence));
    assert(b.skip(k) =~= little_endian(again));
    let x = little_endian(occurrence);
    let y = little_endian(again);
    assert(x[0] == y[0] && x[1] == y[1] && x[2] == y[2] && x[3] == y[3]);
    lemma_four_bytes(occurrence);
    lemma_four_bytes(again);
}

proof fn lemma_four_bytes(n: nat)
    requires
        n <= u32::MAX,
    ensures
        ({
            let b = little_endian(n);
            n == b[0] + 256 * b[1] + 65536 * b[2] + 16777216 * b[3]
        }),
{
}

/// Bytes are written in two hex digits each, of which no two spell different
/// bytes alike.
pub proof fn hex_tells_bytes_apart(a: Seq<u8>, b: Seq<u8>)
    ensures
        hex(a).len() == 2 * a.len(),
        hex(a) == hex(b) <==> a == b,
{
    if hex(a) == hex(b) {
        assert(2 * a.len() == hex(a).len() && 2 * b.len() == hex(b).len());
        assert forall|i: int| 0 <= i < a.len() implies a[i] == b[i] by {
            assert(2 * i / 2 == i && (2 * i + 1) / 2 == i);
            assert(hex(a)[2 * i] == hex_digit((a[i] / 16) as int));
            assert(hex(b)[2 * i] == hex_digit((b[i] / 16) as int));
            assert(hex(a)[2 * i + 1] == hex_digit((a[i] % 16) as int));
            assert(hex(b)[2 * i + 1] == hex_digit((b[i] % 16) as int));
            lemma_hex_digit_apart((a[i] / 16) as int, (b[i] / 16) as int);
            lemma_hex_digit_apart((a[i] % 16) as int, (b[i] % 16) as int);
        }
        assert(a =~= b);
    }
}

proof fn lemma_hex_digit_apart(a: int, b: int)
    requires
        0 <= a < 16,
        0 <= b < 16,
        hex_digit(a) == hex_digit(b),
    ensures
        a == b,
{
    assert(hex_digit(a) as u32 == (if a < 10 {
        48 + a
    } else {
        87 + a
    }));
    assert(hex_digit(b) as u32 == (if b < 10 {
        48 + b
    } else {
        87 + b
    }));
}

} // verus!
