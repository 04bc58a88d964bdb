//! Listings as text and as patches.

use crate::diff::{Hunk, HunkView, LineRange, SemanticInfo, SemanticView};
use crate::files::{ModeChange, ModeView, RenameInfo, RenameView};
use crate::listing::{EntryOut, FileEntry, FileSummary, Filed, GroupView, ListOutput, SummaryOut};
use crate::text::{
    concat2, concat3, decimal, deep, group_deep, join, joined, line_pieces, lines_of, number,
    plain_lines, same, split_lines_with_endings, wide_number,
};
use vstd::prelude::*;

verus! {

// ---------------------------------------------------------------------------
// Lines about a file
// ---------------------------------------------------------------------------

/// The letter a status is shown by.
pub open spec fn status_letter(status: Seq<char>) -> Seq<char> {
    if status == "modified"@ {
        "M"@
    } else if status == "added"@ {
        "A"@
    } else if status == "removed"@ {
        "D"@
    } else if status == "renamed"@ {
        "R"@
    } else if status == "copied"@ {
        "C"@
    } else {
        "?"@
    }
}

pub fn status_char(status: &str) -> (r: &'static str)
    ensures
        r@ == status_letter(status@),
{
    if same(status, "modified") {
        "M"
    } else if same(status, "added") {
        "A"
    } else if same(status, "removed") {
        "D"
    } else if same(status, "renamed") {
        "R"
    } else if same(status, "copied") {
        "C"
    } else {
        "?"
    }
}

/// Said of a file with a symlink on either side.
pub const SYMLINK_MARKER: &'static str = " [symlink, whole-file only]";

/// What a change of mode is shown as.
pub open spec fn mode_note(mode: ModeView) -> Seq<char> {
    " [mode "@ + mode.from + " -> "@ + mode.to + ", not selectable]"@
}

/// What is shown behind a file's path.
pub open spec fn marks(
    rename: Option<RenameView>,
    binary: Option<bool>,
    symlink: Option<bool>,
    truncated: Option<bool>,
    mode: Option<ModeView>,
) -> Seq<char> {
    (match rename {
        Some(r) => " ("@ + r.from + " -> "@ + r.to + ")"@,
        None => Seq::empty(),
    }) + (if binary == Some(true) {
        " [binary]"@
    } else {
        Seq::empty()
    }) + (if symlink == Some(true) {
        SYMLINK_MARKER@
    } else {
        Seq::empty()
    }) + (if truncated == Some(true) {
        " [truncated]"@
    } else {
        Seq::empty()
    }) + (match mode {
        Some(m) => mode_note(m),
        None => Seq::empty(),
    })
}

fn format_mode_change(mode: &ModeChange) -> (r: String)
    ensures
        r@ == mode_note(mode.deep_view()),
{
    let mut out = concat3(" [mode ", mode.from, " -> ");
    out.append(mode.to);
    out.append(", not selectable]");
    out
}

fn format_marks(
    rename: &Option<RenameInfo>,
    binary: Option<bool>,
    symlink: Option<bool>,
    truncated: Option<bool>,
    mode: &Option<ModeChange>,
) -> (r: String)
    ensures
        r@ == marks(rename.deep_view(), binary, symlink, truncated, mode.deep_view()),
{
    let mut out = String::new();
    if let Some(r) = rename {
        out.append(" (");
        out.append(r.from.as_str());
        out.append(" -> ");
        out.append(r.to.as_str());
        out.append(")");
        assert(out@ =~= " ("@ + r.from@ + " -> "@ + r.to@ + ")"@);
    }
    if binary == Some(true) {
        out.append(" [binary]");
    }
    if symlink == Some(true) {
        out.append(SYMLINK_MARKER);
    }
    if truncated == Some(true) {
        out.append(" [truncated]");
    }
    if let Some(m) = mode {
        out.append(format_mode_change(m).as_str());
    }
    assert(out@ =~= marks(rename.deep_view(), binary, symlink, truncated, mode.deep_view()));
    out
}

/// The line a file is headed by.
pub open spec fn file_header(e: EntryOut) -> Seq<char> {
    status_letter(e.status) + " "@ + e.path + marks(
        e.rename,
        e.binary,
        e.symlink,
        e.truncated,
        e.mode,
    )
}

fn format_file_header(file: &FileEntry) -> (r: String)
    ensures
        r@ == file_header(file.deep_view()),
{
    let mut out = concat3(status_char(file.status.as_str()), " ", file.path.as_str());
    out.append(
        format_marks(
            &file.rename,
            file.binary,
            file.symlink,
            file.truncated,
            &file.mode,
        ).as_str(),
    );
    out
}

/// The line a file is summed up by.
pub open spec fn summary_line(s: SummaryOut) -> Seq<char> {
    status_letter(s.status) + " "@ + s.path + " ("@ + decimal(s.hunk_count) + " hunks)"@ + marks(
        s.rename,
        s.binary,
        s.symlink,
        s.truncated,
        s.mode,
    )
}

fn format_summary_line(file: &FileSummary) -> (r: String)
    ensures
        r@ == summary_line(file.deep_view()),
{
    let mut out = concat3(status_char(file.status.as_str()), " ", file.path.as_str());
    out.append(" (");
    out.append(number(file.hunk_count).as_str());
    out.append(" hunks)");
    out.append(
        format_marks(
            &file.rename,
            file.binary,
            file.symlink,
            file.truncated,
            &file.mode,
        ).as_str(),
    );
    out
}

// ---------------------------------------------------------------------------
// Lines about a hunk
// ---------------------------------------------------------------------------

/// Where in the code a hunk is, behind some words; nothing where it is not
/// known.
pub open spec fn place(words: Seq<char>, s: SemanticView) -> Seq<char> {
    match (s.enclosing_scope, s.enclosing_function) {
        (Some(scope), Some(function)) => words + scope + "::"@ + function,
        (Some(scope), None) => words + scope,
        (None, Some(function)) => words + function,
        (None, None) => Seq::empty(),
    }
}

fn format_place(words: &str, s: &SemanticInfo) -> (r: String)
    ensures
        r@ == place(words@, s.deep_view()),
{
    match (&s.enclosing_scope, &s.enclosing_function) {
        (Some(scope), Some(function)) => {
            let mut out = concat3(words, scope.as_str(), "::");
            out.append(function.as_str());
            out
        },
        (Some(scope), None) => concat2(words, scope.as_str()),
        (None, Some(function)) => concat2(words, function.as_str()),
        (None, None) => {
            let out = String::new();
            assert(out@ =~= Seq::empty());
            out
        },
    }
}

pub open spec fn range_text(r: LineRange) -> Seq<char> {
    decimal(r.start as nat) + "+"@ + decimal(r.length as nat)
}

fn format_range(r: LineRange) -> (s: String)
    ensures
        s@ == range_text(r),
{
    concat3(number(r.start).as_str(), "+", number(r.length).as_str())
}

/// The line a hunk is headed by.
pub open spec fn hunk_header(h: HunkView) -> Seq<char> {
    "  hunk "@ + decimal(h.index as nat) + " "@ + h.hunk_type + " "@ + h.short_id + " (before "@
        + range_text(h.before_range) + " after "@ + range_text(h.after_range) + ")"@ + place(
        " in "@,
        h.semantic,
    )
}

fn format_hunk_header(hunk: &Hunk) -> (r: String)
    ensures
        r@ == hunk_header(hunk.deep_view()),
{
    let mut out = concat3("  hunk ", number(hunk.index).as_str(), " ");
    out.append(hunk.hunk_type.as_str());
    out.append(" ");
    out.append(hunk.short_id.as_str());
    out.append(" (before ");
    out.append(format_range(hunk.before_range).as_str());
    out.append(" after ");
    out.append(format_range(hunk.after_range).as_str());
    out.append(")");
    out.append(format_place(" in ", &hunk.semantic).as_str());
    out
}

/// Lines with something in front of each.
pub open spec fn behind(mark: Seq<char>, lines: Seq<Seq<char>>) -> Seq<Seq<char>> {
    Seq::new(lines.len(), |i: int| mark + lines[i])
}

/// The lines a hunk is told in.
pub open spec fn hunk_lines(h: HunkView) -> Seq<Seq<char>> {
    seq![hunk_header(h)] + behind("    - "@, plain_lines(h.removed)) + behind(
        "    + "@,
        plain_lines(h.added),
    )
}

pub open spec fn lines_of_hunks(hunks: Seq<HunkView>) -> Seq<Seq<char>>
    decreases hunks.len(),
{
    if hunks.len() == 0 {
        Seq::empty()
    } else {
        lines_of_hunks(hunks.drop_last()) + hunk_lines(hunks.last())
    }
}

fn push_behind(lines: &mut Vec<String>, mark: &str, text: &str)
    ensures
        deep(final(lines)@) == deep(old(lines)@) + behind(mark@, plain_lines(text@)),
{
    broadcast use group_deep;

    let ghost before = deep(lines@);
    let parts = lines_of(text);
    let ghost all = behind(mark@, plain_lines(text@));
    let mut i: usize = 0;
    assert(before + all.take(0) =~= before);
    while i < parts.len()
        invariant
            deep(parts@) == plain_lines(text@),
            all == behind(mark@, plain_lines(text@)),
            i <= parts.len(),
            deep(lines@) == before + all.take(i as int),
        decreases parts.len() - i,
    {
        assert(deep(parts@)[i as int] == parts@[i as int]@);
        let ghost one = all[i as int];
        lines.push(concat2(mark, parts[i].as_str()));
        assert(all.take(i as int + 1) =~= all.take(i as int).push(one));
        assert((before + all.take(i as int)).push(one) =~= before + all.take(i as int + 1));
        i += 1;
    }
    assert(all.take(all.len() as int) =~= all);
}

fn push_hunk(lines: &mut Vec<String>, hunk: &Hunk)
    ensures
        deep(final(lines)@) == deep(old(lines)@) + hunk_lines(hunk.deep_view()),
{
    broadcast use group_deep;

    let ghost before = deep(lines@);
    lines.push(format_hunk_header(hunk));
    push_behind(lines, "    - ", hunk.removed.as_str());
    push_behind(lines, "    + ", hunk.added.as_str());
    assert(deep(lines@) =~= before + hunk_lines(hunk.deep_view()));
}

// ---------------------------------------------------------------------------
// Listings as text
// ---------------------------------------------------------------------------

/// Something that is told in lines.
pub trait Told: Filed {
    spec fn lines_in(v: Self::V) -> Seq<Seq<char>>;

    fn push_lines(&self, lines: &mut Vec<String>)
        ensures
            deep(final(lines)@) == deep(old(lines)@) + Self::lines_in(self.deep_view()),
    ;
}

impl Told for FileEntry {
    open spec fn lines_in(v: EntryOut) -> Seq<Seq<char>> {
        seq![file_header(v)] + lines_of_hunks(v.hunks)
    }

    fn push_lines(&self, lines: &mut Vec<String>) {
        broadcast use group_deep;

        let ghost before = deep(lines@);
        lines.push(format_file_header(self));
        let ghost head = deep(lines@);
        let ghost hunks = deep(self.hunks@);
        let mut i: usize = 0;
        assert(hunks.take(0) =~= Seq::empty());
        assert(head + lines_of_hunks(hunks.take(0)) =~= head);
        while i < self.hunks.len()
            invariant
                hunks == deep(self.hunks@),
                i <= self.hunks.len(),
                deep(lines@) == head + lines_of_hunks(hunks.take(i as int)),
            decreases self.hunks.len() - i,
        {
            assert(hunks.take(i as int + 1).drop_last() =~= hunks.take(i as int));
            push_hunk(lines, &self.hunks[i]);
            assert(deep(lines@) =~= head + lines_of_hunks(hunks.take(i as int + 1)));
            i += 1;
        }
        assert(hunks.take(hunks.len() as int) =~= hunks);
        assert(deep(lines@) =~= before + Self::lines_in(self.deep_view()));
    }
}

impl Told for FileSummary {
    open spec fn lines_in(v: SummaryOut) -> Seq<Seq<char>> {
        seq![summary_line(v)]
    }

    fn push_lines(&self, lines: &mut Vec<String>) {
        broadcast use group_deep;

        let ghost before = deep(lines@);
        lines.push(format_summary_line(self));
        assert(deep(lines@) =~= before + Self::lines_in(self.deep_view()));
    }
}

pub open spec fn lines_of_files<T: Told>(files: Seq<T::V>) -> Seq<Seq<char>>
    decreases files.len(),
{
    if files.len() == 0 {
        Seq::empty()
    } else {
        lines_of_files::<T>(files.drop_last()) + T::lines_in(files.last())
    }
}

/// What a group is headed by.
pub open spec fn group_title(name: Seq<char>) -> Seq<char> {
    (if name == "."@ || name.len() == 0 {
        "<root>"@
    } else {
        name
    }) + ":"@
}

/// The lines of the first `n` groups, with an empty one between each two.
pub open spec fn lines_of_groups<T: Told>(groups: Seq<GroupView<T::V>>, n: nat) -> Seq<Seq<char>>
    decreases n,
{
    if n == 0 {
        Seq::empty()
    } else {
        lines_of_groups::<T>(groups, (n - 1) as nat) + seq![group_title(groups[n - 1].name)]
            + lines_of_files::<T>(groups[n - 1].files) + (if n < groups.len() {
            seq![Seq::<char>::empty()]
        } else {
            Seq::empty()
        })
    }
}

/// The lines a listing is told in.
pub open spec fn output_lines<T: Told>(output: ListOutput<T>) -> Seq<Seq<char>> {
    match output.groups {
        Some(groups) => lines_of_groups::<T>(deep(groups@), groups@.len()),
        None => match output.files {
            Some(files) => lines_of_files::<T>(deep(files@)),
            None => Seq::empty(),
        },
    }
}

/// Lines as a text: each with its end.
pub open spec fn text_of_lines(lines: Seq<Seq<char>>) -> Seq<char> {
    if lines.len() == 0 {
        Seq::empty()
    } else {
        joined(lines, "\n"@) + "\n"@
    }
}

fn format_files<T: Told>(lines: &mut Vec<String>, files: &Vec<T>)
    ensures
        deep(final(lines)@) == deep(old(lines)@) + lines_of_files::<T>(deep(files@)),
{
    let ghost before = deep(lines@);
    let ghost views = deep(files@);
    let mut i: usize = 0;
    assert(views.take(0) =~= Seq::empty());
    assert(before + lines_of_files::<T>(views.take(0)) =~= before);
    while i < files.len()
        invariant
            views == deep(files@),
            i <= files.len(),
            deep(lines@) == before + lines_of_files::<T>(views.take(i as int)),
        decreases files.len() - i,
    {
        assert(views.take(i as int + 1).drop_last() =~= views.take(i as int));
        files[i].push_lines(lines);
        assert(deep(lines@) =~= before + lines_of_files::<T>(views.take(i as int + 1)));
        i += 1;
    }
    assert(views.take(views.len() as int) =~= views);
}

fn format_title(name: &str) -> (r: String)
    ensures
        r@ == group_title(name@),
{
    if same(name, ".") || name.is_empty() {
        concat2("<root>", ":")
    } else {
        concat2(name, ":")
    }
}

fn render_lines<T: Told>(output: &ListOutput<T>) -> (r: String)
    ensures
        r@ == text_of_lines(output_lines(*output)),
{
    broadcast use group_deep;

    let mut lines: Vec<String> = Vec::new();
    match &output.groups {
        Some(groups) => {
            let ghost views = deep(groups@);
            let mut i: usize = 0;
            while i < groups.len()
                invariant
                    views == deep(groups@),
                    i <= groups.len(),
                    deep(lines@) == lines_of_groups::<T>(views, i as nat),
                decreases groups.len() - i,
            {
                let ghost before = deep(lines@);
                let group = &groups[i];
                assert(views[i as int] == group.deep_view());
                let ghost title = group_title(group.name@);
                lines.push(format_title(group.name.as_str()));
                assert(deep(lines@) =~= before + seq![title]);
                format_files(&mut lines, &group.files);
                let ghost shown = before + seq![title] + lines_of_files::<T>(deep(group.files@));
                assert(deep(lines@) == shown);
                if i + 1 < groups.len() {
                    let blank = String::new();
                    assert(blank@ =~= Seq::empty());
                    lines.push(blank);
                    assert(deep(lines@) =~= shown + seq![Seq::<char>::empty()]);
                } else {
                    assert(shown + Seq::<Seq<char>>::empty() =~= shown);
                }
                i += 1;
            }
        },
        None => {
            if let Some(files) = &output.files {
                format_files(&mut lines, files);
                assert(deep(lines@) =~= lines_of_files::<T>(deep(files@)));
            }
        },
    }
    assert(deep(lines@) == output_lines(*output));
    if lines.len() == 0 {
        let r = String::new();
        assert(r@ =~= Seq::empty());
        return r;
    }
    let mut r = join(&lines, "\n");
    r.append("\n");
    r
}

/// A listing as text.
pub fn render_text_output(output: &ListOutput<FileEntry>) -> (r: String)
    ensures
        r@ == text_of_lines(output_lines(*output)),
{
    render_lines(output)
}

/// A listing of files as text.
pub fn render_text_summary_output(output: &ListOutput<FileSummary>) -> (r: String)
    ensures
        r@ == text_of_lines(output_lines(*output)),
{
    render_lines(output)
}

// ---------------------------------------------------------------------------
// Listings as patches
// ---------------------------------------------------------------------------

/// Context lines that are kept on either side of a hunk.
pub const DIFF_CONTEXT_LINES: usize = 3;

/// Said of a last line that lacks its newline.
pub const NO_NEWLINE_MARKER: &'static str = "\\ No newline at end of file\n";

/// One line of a patch.
#[derive(Debug)]
pub struct DiffLine {
    /// A space, `-` or `+`.
    pub mark: char,
    pub text: String,
    /// Whether the line ends with a newline.
    pub ended: bool,
}

#[verifier::ext_equal]
pub struct DiffLineView {
    pub mark: char,
    pub text: Seq<char>,
    pub ended: bool,
}

impl DeepView for DiffLine {
    type V = DiffLineView;

    open spec fn deep_view(&self) -> DiffLineView {
        DiffLineView { mark: self.mark, text: self.text@, ended: self.ended }
    }
}

/// A line with a mark, from a piece of text with its end.
pub open spec fn diff_line(mark: char, piece: Seq<char>) -> DiffLineView {
    if piece.len() > 0 && piece.last() == '\n' {
        DiffLineView { mark, text: piece.drop_last(), ended: true }
    } else {
        DiffLineView { mark, text: piece, ended: false }
    }
}

/// The lines of a text with a mark. What ends a line is kept: a carriage return
/// is part of it, and a missing newline is remembered.
pub open spec fn diff_lines(mark: char, text: Seq<char>) -> Seq<DiffLineView> {
    Seq::new(line_pieces(text).len(), |i: int| diff_line(mark, line_pieces(text)[i]))
}

fn make_line(mark: char, piece: &str) -> (r: DiffLine)
    ensures
        r.deep_view() == diff_line(mark, piece@),
{
    let chars = crate::text::chars_of(piece);
    let n: usize = chars.len();
    if n > 0 && chars[n - 1] == '\n' {
        let text = crate::text::string_of(&chars, 0, n - 1);
        assert(text@ =~= piece@.drop_last());
        DiffLine { mark, text, ended: true }
    } else {
        DiffLine { mark, text: piece.to_owned(), ended: false }
    }
}

/// The lines of a text with a mark.
fn context_lines(mark: char, text: &str) -> (out: Vec<DiffLine>)
    ensures
        deep(out@) == diff_lines(mark, text@),
{
    let pieces = split_lines_with_endings(text);
    let mut out: Vec<DiffLine> = Vec::new();
    let mut i: usize = 0;
    while i < pieces.len()
        invariant
            i <= pieces.len(),
            out@.len() == i,
            forall|j: int|
                0 <= j < i ==> (#[trigger] out@[j]).deep_view() == diff_line(
                    mark,
                    deep(pieces@)[j],
                ),
        decreases pieces.len() - i,
    {
        out.push(make_line(mark, pieces[i].as_str()));
        i += 1;
    }
    assert(deep(out@) =~= diff_lines(mark, text@));
    out
}

/// A line of a patch, written out.
pub open spec fn line_text(l: DiffLineView) -> Seq<char> {
    seq![l.mark] + l.text + "\n"@ + (if l.ended {
        Seq::empty()
    } else {
        NO_NEWLINE_MARKER@
    })
}

pub open spec fn text_of_diff(lines: Seq<DiffLineView>) -> Seq<char>
    decreases lines.len(),
{
    if lines.len() == 0 {
        Seq::empty()
    } else {
        text_of_diff(lines.drop_last()) + line_text(lines.last())
    }
}

/// Write one line of a patch, with the marker where it lacks its newline.
fn push_diff_line(body: &mut String, line: &DiffLine)
    ensures
        final(body)@ == old(body)@ + line_text(line.deep_view()),
{
    let ghost before = body@;
    body.push(line.mark);
    body.append(line.text.as_str());
    body.append("\n");
    if !line.ended {
        body.append(NO_NEWLINE_MARKER);
    }
    assert(body@ =~= before + line_text(line.deep_view()));
}

pub open spec fn context_before(h: HunkView) -> Seq<char> {
    match h.context {
        Some(c) => c.before,
        None => Seq::empty(),
    }
}

pub open spec fn context_after(h: HunkView) -> Seq<char> {
    match h.context {
        Some(c) => c.after,
        None => Seq::empty(),
    }
}

fn before_context(hunk: &Hunk) -> (r: Vec<DiffLine>)
    ensures
        deep(r@) == diff_lines(' ', context_before(hunk.deep_view())),
{
    match &hunk.context {
        Some(c) => context_lines(' ', c.before.as_str()),
        None => {
            let none = String::new();
            assert(none@ =~= Seq::empty());
            context_lines(' ', none.as_str())
        },
    }
}

fn after_context(hunk: &Hunk) -> (r: Vec<DiffLine>)
    ensures
        deep(r@) == diff_lines(' ', context_after(hunk.deep_view())),
{
    match &hunk.context {
        Some(c) => context_lines(' ', c.after.as_str()),
        None => {
            let none = String::new();
            assert(none@ =~= Seq::empty());
            context_lines(' ', none.as_str())
        },
    }
}

/// How many unchanged lines stand between two hunks.
pub open spec fn gap_between(prev: HunkView, next: HunkView) -> int {
    let end = prev.before_range.start + prev.before_range.length;
    if next.before_range.start > end {
        next.before_range.start - end
    } else {
        0
    }
}

fn gap_size(prev: &Hunk, next: &Hunk) -> (gap: usize)
    ensures
        gap == gap_between(prev.deep_view(), next.deep_view()),
{
    let start = next.before_range.start;
    if start <= prev.before_range.start {
        return 0;
    }
    let room: usize = start - prev.before_range.start;
    if room > prev.before_range.length {
        room - prev.before_range.length
    } else {
        0
    }
}

/// The unchanged lines between two hunks: those behind the first, and as many of
/// those in front of the second as are still missing.
pub open spec fn lines_between(prev: HunkView, next: HunkView) -> Seq<DiffLineView> {
    let gap = gap_between(prev, next);
    let post = diff_lines(' ', context_after(prev));
    let pre = diff_lines(' ', context_before(next));
    let near = crate::diff::least(
        post.len() as int,
        crate::diff::least(gap, DIFF_CONTEXT_LINES as int),
    );
    let need = gap - near;
    post.take(near) + (if need > 0 {
        pre.skip(crate::diff::greatest(pre.len() - need, 0))
    } else {
        Seq::empty()
    })
}

/// The unchanged lines between two hunks.
fn gap_lines(prev: &Hunk, next: &Hunk) -> (out: Vec<DiffLine>)
    ensures
        deep(out@) == lines_between(prev.deep_view(), next.deep_view()),
{
    let ghost p = prev.deep_view();
    let ghost q = next.deep_view();
    let gap = gap_size(prev, next);
    let mut out = after_context(prev);
    let ghost post = deep(out@);
    let limit: usize = if gap < DIFF_CONTEXT_LINES {
        gap
    } else {
        DIFF_CONTEXT_LINES
    };
    out.truncate(limit);
    let near: usize = out.len();
    assert(deep(out@) =~= post.take(near as int));
    if near < gap {
        let need: usize = gap - near;
        let mut pre = before_context(next);
        let ghost all = deep(pre@);
        let skip: usize = if pre.len() > need {
            pre.len() - need
        } else {
            0
        };
        let mut tail = pre.split_off(skip);
        assert(deep(tail@) =~= all.skip(skip as int));
        let ghost shown = deep(out@);
        let ghost rest = deep(tail@);
        out.append(&mut tail);
        assert(deep(out@) =~= shown + rest);
    } else {
        assert(post.take(near as int) + Seq::<DiffLineView>::empty() =~= post.take(near as int));
    }
    out
}

/// The lines of the hunks `from..to` of a file, without the context around
/// them.
pub open spec fn changed_lines(hunks: Seq<HunkView>, from: int, to: int) -> Seq<DiffLineView>
    decreases to - from,
{
    if to <= from {
        Seq::empty()
    } else {
        let h = hunks[to - 1];
        changed_lines(hunks, from, to - 1) + (if to - 1 > from {
            lines_between(hunks[to - 2], h)
        } else {
            Seq::empty()
        }) + diff_lines('-', h.removed) + diff_lines('+', h.added)
    }
}

/// The lines of one block of a patch.
pub open spec fn block_lines(hunks: Seq<HunkView>, from: int, to: int) -> Seq<DiffLineView> {
    diff_lines(' ', context_before(hunks[from])) + changed_lines(hunks, from, to) + diff_lines(
        ' ',
        context_after(hunks[to - 1]),
    )
}

/// How many lines the side before the change has.
pub open spec fn old_count(lines: Seq<DiffLineView>) -> nat
    decreases lines.len(),
{
    if lines.len() == 0 {
        0
    } else {
        old_count(lines.drop_last()) + if lines.last().mark != '+' {
            1nat
        } else {
            0nat
        }
    }
}

/// How many lines the side after the change has.
pub open spec fn new_count(lines: Seq<DiffLineView>) -> nat
    decreases lines.len(),
{
    if lines.len() == 0 {
        0
    } else {
        new_count(lines.drop_last()) + if lines.last().mark != '-' {
            1nat
        } else {
            0nat
        }
    }
}

/// The line a block is headed by.
pub open spec fn header_text(
    old_start: nat,
    old_len: nat,
    new_start: nat,
    new_len: nat,
    first: HunkView,
) -> Seq<char> {
    "@@ -"@ + decimal(old_start) + ","@ + decimal(old_len) + " +"@ + decimal(new_start) + ","@
        + decimal(new_len) + " @@"@ + place(" "@, first.semantic) + " ["@ + first.short_id + "]\n"@
}

fn format_block_header(
    old_start: usize,
    old_len: usize,
    new_start: u128,
    new_len: usize,
    first: &Hunk,
) -> (r: String)
    ensures
        r@ == header_text(
            old_start as nat,
            old_len as nat,
            new_start as nat,
            new_len as nat,
            first.deep_view(),
        ),
{
    let mut out = concat3("@@ -", number(old_start).as_str(), ",");
    out.append(number(old_len).as_str());
    out.append(" +");
    out.append(wide_number(new_start).as_str());
    out.append(",");
    out.append(number(new_len).as_str());
    out.append(" @@");
    out.append(format_place(" ", &first.semantic).as_str());
    out.append(" [");
    out.append(first.short_id.as_str());
    out.append("]\n");
    out
}

/// What a block is headed by, where what was emitted before it moves the side
/// after the change by `offset` lines.
///
/// The start of that side follows from the start of the other and from what was
/// emitted, not from where the hunk is in the whole diff: a patch may carry only
/// some hunks.
pub open spec fn block_header(
    hunks: Seq<HunkView>,
    from: int,
    to: int,
    offset: int,
) -> Seq<char> {
    let lines = block_lines(hunks, from, to);
    let first = hunks[from];
    let leading = diff_lines(' ', context_before(first)).len() as int;
    let start = crate::diff::greatest(first.before_range.start - leading, 0);
    let old_len = old_count(lines);
    let new_len = new_count(lines);
    let old_start = if old_len == 0 {
        0
    } else {
        crate::diff::greatest(start, 1)
    };
    let new_start = if new_len == 0 {
        0
    } else {
        crate::diff::greatest(start + offset, 1)
    };
    header_text(old_start as nat, old_len, new_start as nat, new_len, first)
}

/// The hunks of a file in runs that share a block: hunks further apart than two
/// windows of context do not.
pub open spec fn blocks_of(hunks: Seq<HunkView>, n: nat) -> Seq<(int, int)>
    decreases n,
{
    if n == 0 {
        Seq::empty()
    } else {
        let rest = blocks_of(hunks, (n - 1) as nat);
        if n == 1 || gap_between(hunks[n - 2], hunks[n - 1]) > 2 * DIFF_CONTEXT_LINES {
            rest.push((n - 1, n as int))
        } else {
            rest.update(rest.len() - 1, (rest.last().0, n as int))
        }
    }
}

/// How far the first `k` blocks move the side after the change.
pub open spec fn moved_by(hunks: Seq<HunkView>, blocks: Seq<(int, int)>, k: nat) -> int
    decreases k,
{
    if k == 0 {
        0
    } else {
        let lines = block_lines(hunks, blocks[k - 1].0, blocks[k - 1].1);
        moved_by(hunks, blocks, (k - 1) as nat) + new_count(lines) - old_count(lines)
    }
}

/// The first `k` blocks, written out.
pub open spec fn blocks_text(hunks: Seq<HunkView>, blocks: Seq<(int, int)>, k: nat) -> Seq<char>
    decreases k,
{
    if k == 0 {
        Seq::empty()
    } else {
        let (from, to) = blocks[k - 1];
        blocks_text(hunks, blocks, (k - 1) as nat) + block_header(
            hunks,
            from,
            to,
            moved_by(hunks, blocks, (k - 1) as nat),
        ) + text_of_diff(block_lines(hunks, from, to))
    }
}

/// The two lines a file of a patch is headed by.
pub open spec fn patch_header(status: Seq<char>, path: Seq<char>) -> Seq<char> {
    "--- "@ + (if status == "added"@ {
        "/dev/null"@
    } else {
        "a/"@ + path
    }) + "\n+++ "@ + (if status == "removed"@ {
        "/dev/null"@
    } else {
        "b/"@ + path
    }) + "\n"@
}

/// One file of a patch.
pub open spec fn file_patch(e: EntryOut) -> Seq<char> {
    let blocks = blocks_of(e.hunks, e.hunks.len());
    patch_header(e.status, e.path) + blocks_text(e.hunks, blocks, blocks.len())
}

pub open spec fn files_patch(files: Seq<EntryOut>) -> Seq<char>
    decreases files.len(),
{
    if files.len() == 0 {
        Seq::empty()
    } else {
        files_patch(files.drop_last()) + file_patch(files.last())
    }
}

pub open spec fn groups_patch(groups: Seq<GroupView<EntryOut>>) -> Seq<char>
    decreases groups.len(),
{
    if groups.len() == 0 {
        Seq::empty()
    } else {
        groups_patch(groups.drop_last()) + files_patch(groups.last().files)
    }
}

/// A listing as a patch.
pub open spec fn output_patch(output: ListOutput<FileEntry>) -> Seq<char> {
    match output.groups {
        Some(groups) => groups_patch(deep(groups@)),
        None => match output.files {
            Some(files) => files_patch(deep(files@)),
            None => Seq::empty(),
        },
    }
}

proof fn lemma_counts_bound(lines: Seq<DiffLineView>)
    ensures
        old_count(lines) <= lines.len(),
        new_count(lines) <= lines.len(),
    decreases lines.len(),
{
    if lines.len() > 0 {
        lemma_counts_bound(lines.drop_last());
    }
}

proof fn lemma_counts_add(a: Seq<DiffLineView>, b: Seq<DiffLineView>)
    ensures
        old_count(a + b) == old_count(a) + old_count(b),
        new_count(a + b) == new_count(a) + new_count(b),
    decreases b.len(),
{
    if b.len() == 0 {
        assert(a + b =~= a);
    } else {
        assert((a + b).drop_last() =~= a + b.drop_last());
        lemma_counts_add(a, b.drop_last());
    }
}

fn count_sides(lines: &Vec<DiffLine>) -> (r: (usize, usize))
    ensures
        r.0 == old_count(deep(lines@)),
        r.1 == new_count(deep(lines@)),
{
    let ghost views = deep(lines@);
    let mut old_len: usize = 0;
    let mut new_len: usize = 0;
    let mut i: usize = 0;
    assert(views.take(0) =~= Seq::empty());
    while i < lines.len()
        invariant
            views == deep(lines@),
            i <= lines.len(),
            old_len <= i,
            new_len <= i,
            old_len == old_count(views.take(i as int)),
            new_len == new_count(views.take(i as int)),
        decreases lines.len() - i,
    {
        assert(views.take(i as int + 1).drop_last() =~= views.take(i as int));
        if lines[i].mark != '+' {
            old_len += 1;
        }
        if lines[i].mark != '-' {
            new_len += 1;
        }
        i += 1;
    }
    assert(views.take(views.len() as int) =~= views);
    (old_len, new_len)
}

fn write_lines(out: &mut String, lines: &Vec<DiffLine>)
    ensures
        final(out)@ == old(out)@ + text_of_diff(deep(lines@)),
{
    let ghost before = out@;
    let ghost views = deep(lines@);
    let mut i: usize = 0;
    assert(views.take(0) =~= Seq::empty());
    assert(before + text_of_diff(views.take(0)) =~= before);
    while i < lines.len()
        invariant
            views == deep(lines@),
            i <= lines.len(),
            out@ == before + text_of_diff(views.take(i as int)),
        decreases lines.len() - i,
    {
        assert(views.take(i as int + 1).drop_last() =~= views.take(i as int));
        push_diff_line(out, &lines[i]);
        assert(out@ =~= before + text_of_diff(views.take(i as int + 1)));
        i += 1;
    }
    assert(views.take(views.len() as int) =~= views);
}

fn append_lines(out: &mut Vec<DiffLine>, more: Vec<DiffLine>)
    ensures
        deep(final(out)@) == deep(old(out)@) + deep(more@),
{
    let ghost before = deep(out@);
    let ghost rest = deep(more@);
    let mut more = more;
    out.append(&mut more);
    assert(deep(out@) =~= before + rest);
}

/// The lines of one block of a patch.
fn collect_block(hunks: &Vec<Hunk>, from: usize, to: usize) -> (out: Vec<DiffLine>)
    requires
        from < to <= hunks@.len(),
    ensures
        deep(out@) == block_lines(deep(hunks@), from as int, to as int),
{
    let ghost views = deep(hunks@);
    let mut out = before_context(&hunks[from]);
    let ghost head = deep(out@);
    let mut i: usize = from;
    assert(head + changed_lines(views, from as int, from as int) =~= head);
    while i < to
        invariant
            views == deep(hunks@),
            from <= i <= to <= hunks@.len(),
            deep(out@) == head + changed_lines(views, from as int, i as int),
        decreases to - i,
    {
        let hunk = &hunks[i];
        let ghost seen = changed_lines(views, from as int, i as int);
        if i > from {
            append_lines(&mut out, gap_lines(&hunks[i - 1], hunk));
        }
        append_lines(&mut out, context_lines('-', hunk.removed.as_str()));
        append_lines(&mut out, context_lines('+', hunk.added.as_str()));
        assert(deep(out@) =~= head + changed_lines(views, from as int, i as int + 1));
        i += 1;
    }
    append_lines(&mut out, after_context(&hunks[to - 1]));
    assert(deep(out@) =~= block_lines(views, from as int, to as int));
    out
}

/// Write one block of a patch, and give back its lines.
///
/// `old_total` and `new_total` are the lines on either side of the blocks that
/// were written before it.
fn render_diff_block(
    out: &mut String,
    hunks: &Vec<Hunk>,
    from: usize,
    to: usize,
    old_total: usize,
    new_total: usize,
) -> (lines: Vec<DiffLine>)
    requires
        from < to <= hunks@.len(),
    ensures
        deep(lines@) == block_lines(deep(hunks@), from as int, to as int),
        final(out)@ == old(out)@ + block_header(
            deep(hunks@),
            from as int,
            to as int,
            new_total - old_total,
        ) + text_of_diff(deep(lines@)),
{
    let ghost before = out@;
    let ghost views = deep(hunks@);
    let first = &hunks[from];
    assert(views[from as int] == first.deep_view());
    let lines = collect_block(hunks, from, to);
    let (old_len, new_len) = count_sides(&lines);
    let leading: usize = before_context(first).len();
    let start: usize = if first.before_range.start > leading {
        first.before_range.start - leading
    } else {
        0
    };
    let ghost view_start = crate::diff::greatest(views[from as int].before_range.start - leading, 0);
    assert(start == view_start);
    let old_start: usize = if old_len == 0 {
        0
    } else if start > 1 {
        start
    } else {
        1
    };
    let ahead: u128 = start as u128 + new_total as u128;
    let behind: u128 = old_total as u128;
    let new_start: u128 = if new_len == 0 {
        0
    } else if ahead > behind + 1 {
        ahead - behind
    } else {
        1
    };
    let header = format_block_header(old_start, old_len, new_start, new_len, first);
    assert(header@ == block_header(views, from as int, to as int, new_total - old_total));
    out.append(header.as_str());
    write_lines(out, &lines);
    lines
}

pub open spec fn block_views(blocks: Seq<(usize, usize)>) -> Seq<(int, int)> {
    Seq::new(blocks.len(), |i: int| (blocks[i].0 as int, blocks[i].1 as int))
}

/// Split a file's hunks into runs that share one block.
fn group_adjacent_hunks(hunks: &Vec<Hunk>) -> (blocks: Vec<(usize, usize)>)
    ensures
        block_views(blocks@) == blocks_of(deep(hunks@), hunks@.len()),
        forall|i: int|
            0 <= i < blocks@.len() ==> (#[trigger] blocks@[i]).0 < blocks@[i].1 <= hunks@.len(),
{
    let ghost views = deep(hunks@);
    let mut blocks: Vec<(usize, usize)> = Vec::new();
    let mut n: usize = 0;
    assert(block_views(blocks@) =~= Seq::empty());
    while n < hunks.len()
        invariant
            views == deep(hunks@),
            n <= hunks.len(),
            block_views(blocks@) == blocks_of(views, n as nat),
            n > 0 ==> blocks@.len() > 0,
            forall|i: int|
                0 <= i < blocks@.len() ==> (#[trigger] blocks@[i]).0 < blocks@[i].1 <= n,
        decreases hunks.len() - n,
    {
        let ghost before = block_views(blocks@);
        let ghost held = blocks@;
        if n == 0 || gap_size(&hunks[n - 1], &hunks[n]) > 2 * DIFF_CONTEXT_LINES {
            blocks.push((n, n + 1));
            assert(block_views(blocks@) =~= before.push((n as int, n + 1)));
        } else {
            let last: usize = blocks.len() - 1;
            let start = blocks[last].0;
            blocks.set(last, (start, n + 1));
            assert(block_views(blocks@) =~= before.update(
                before.len() - 1,
                (before.last().0, n + 1),
            ));
            assert forall|i: int| 0 <= i < blocks@.len() implies (#[trigger] blocks@[i]).0
                < blocks@[i].1 <= n + 1 by {
                assert(held[i].0 < held[i].1 <= n);
            }
        }
        n += 1;
    }
    blocks
}

fn format_patch_header(status: &str, path: &str) -> (r: String)
    ensures
        r@ == patch_header(status@, path@),
{
    let left = if same(status, "added") {
        "/dev/null".to_owned()
    } else {
        concat2("a/", path)
    };
    let right = if same(status, "removed") {
        "/dev/null".to_owned()
    } else {
        concat2("b/", path)
    };
    let mut out = concat3("--- ", left.as_str(), "\n+++ ");
    out.append(right.as_str());
    out.append("\n");
    out
}

fn render_file_patch(out: &mut String, file: &FileEntry)
    ensures
        final(out)@ == old(out)@ + file_patch(file.deep_view()),
{
    let ghost before = out@;
    let ghost e = file.deep_view();
    out.append(format_patch_header(file.status.as_str(), file.path.as_str()).as_str());
    let ghost head = out@;
    let blocks = group_adjacent_hunks(&file.hunks);
    let ghost views = block_views(blocks@);
    let mut emitted: Vec<DiffLine> = Vec::new();
    let mut old_total: usize = 0;
    let mut new_total: usize = 0;
    let mut k: usize = 0;
    assert(deep(emitted@) =~= Seq::empty());
    assert(head + blocks_text(e.hunks, views, 0) =~= head);
    while k < blocks.len()
        invariant
            e == file.deep_view(),
            views == block_views(blocks@),
            k <= blocks.len(),
            forall|i: int|
                0 <= i < blocks@.len() ==> (#[trigger] blocks@[i]).0 < blocks@[i].1
                    <= file.hunks@.len(),
            old_total == old_count(deep(emitted@)),
            new_total == new_count(deep(emitted@)),
            new_total - old_total == moved_by(e.hunks, views, k as nat),
            out@ == head + blocks_text(e.hunks, views, k as nat),
        decreases blocks.len() - k,
    {
        let ghost shown = out@;
        let ghost told = deep(emitted@);
        let from = blocks[k].0;
        let to = blocks[k].1;
        assert(views[k as int] == (from as int, to as int));
        let lines = render_diff_block(out, &file.hunks, from, to, old_total, new_total);
        let ghost block = deep(lines@);
        let (old_len, new_len) = count_sides(&lines);
        append_lines(&mut emitted, lines);
        proof {
            assert(emitted.len() == emitted@.len());
            lemma_counts_add(told, block);
            lemma_counts_bound(deep(emitted@));
        }
        old_total += old_len;
        new_total += new_len;
        assert(out@ =~= head + blocks_text(e.hunks, views, (k + 1) as nat));
        k += 1;
    }
    assert(out@ =~= before + file_patch(e));
}

fn render_files_patch(out: &mut String, files: &Vec<FileEntry>)
    ensures
        final(out)@ == old(out)@ + files_patch(deep(files@)),
{
    let ghost before = out@;
    let ghost views = deep(files@);
    let mut i: usize = 0;
    assert(views.take(0) =~= Seq::empty());
    assert(before + files_patch(views.take(0)) =~= before);
    while i < files.len()
        invariant
            views == deep(files@),
            i <= files.len(),
            out@ == before + files_patch(views.take(i as int)),
        decreases files.len() - i,
    {
        assert(views.take(i as int + 1).drop_last() =~= views.take(i as int));
        render_file_patch(out, &files[i]);
        assert(out@ =~= before + files_patch(views.take(i as int + 1)));
        i += 1;
    }
    assert(views.take(views.len() as int) =~= views);
}

/// A listing as a patch that can be applied.
pub fn render_diff_output(output: &ListOutput<FileEntry>) -> (r: String)
    ensures
        r@ == output_patch(*output),
{
    let mut out = String::new();
    assert(out@ =~= Seq::empty());
    match &output.groups {
        Some(groups) => {
            let ghost views = deep(groups@);
            let mut i: usize = 0;
            assert(views.take(0) =~= Seq::empty());
            while i < groups.len()
                invariant
                    views == deep(groups@),
                    i <= groups.len(),
                    out@ == groups_patch(views.take(i as int)),
                decreases groups.len() - i,
            {
                assert(views.take(i as int + 1).drop_last() =~= views.take(i as int));
                render_files_patch(&mut out, &groups[i].files);
                i += 1;
            }
            assert(views.take(views.len() as int) =~= views);
        },
        None => {
            if let Some(files) = &output.files {
                render_files_patch(&mut out, files);
                assert(out@ =~= files_patch(deep(files@)));
            }
        },
    }
    out
}

/// The blocks of a patch take up every hunk of a file once, in order.
pub proof fn blocks_take_up_every_hunk(hunks: Seq<HunkView>, n: nat)
    requires
        n <= hunks.len(),
    ensures
        ({
            let blocks = blocks_of(hunks, n);
            &&& n > 0 ==> blocks.len() > 0 && blocks[0].0 == 0 && blocks.last().1 == n
            &&& forall|i: int| 0 <= i < blocks.len() ==> (#[trigger] blocks[i]).0 < blocks[i].1
            &&& forall|i: int|
                0 <= i < blocks.len() - 1 ==> (#[trigger] blocks[i]).1 == blocks[i + 1].0
        }),
    decreases n,
{
    if n > 0 {
        blocks_take_up_every_hunk(hunks, (n - 1) as nat);
        let rest = blocks_of(hunks, (n - 1) as nat);
        let blocks = blocks_of(hunks, n);
        if n > 1 {
            assert(rest[rest.len() - 1].0 < rest[rest.len() - 1].1);
        }
        assert forall|i: int| 0 <= i < blocks.len() - 1 implies (#[trigger] blocks[i]).1
            == blocks[i + 1].0 by {
            if i < rest.len() - 1 {
                assert(rest[i].1 == rest[i + 1].0);
            }
        }
        assert forall|i: int| 0 <= i < blocks.len() implies (#[trigger] blocks[i]).0
            < blocks[i].1 by {
            if i < rest.len() {
                assert(rest[i].0 < rest[i].1);
            }
        }
    }
}

// ---------------------------------------------------------------------------
// What is shown
// ---------------------------------------------------------------------------

/// A line of a patch is its mark and the line itself, and behind a line that
/// lacks its newline it is said that it does.
pub proof fn a_missing_newline_is_said(mark: char, piece: Seq<char>)
    requires
        piece.len() > 0,
    ensures
        piece.last() == '\n' ==> line_text(diff_line(mark, piece)) == seq![mark] + piece,
        piece.last() != '\n' ==> line_text(diff_line(mark, piece)) == seq![mark] + piece + "\n"@
            + "\\ No newline at end of file\n"@,
{
    reveal_strlit("\n");
    if piece.last() == '\n' {
        assert(line_text(diff_line(mark, piece)) =~= seq![mark] + piece);
    }
}

/// Nothing is marked of a file exactly where there is nothing to mark: it was not
/// moved, is no binary and no link, was not cut, and keeps its mode.
pub proof fn a_file_is_marked_for_what_it_is(
    rename: Option<RenameView>,
    binary: Option<bool>,
    symlink: Option<bool>,
    truncated: Option<bool>,
    mode: Option<ModeView>,
)
    ensures
        marks(rename, binary, symlink, truncated, mode).len() == 0 <==> rename is None && binary
            != Some(true) && symlink != Some(true) && truncated != Some(true) && mode is None,
{
    reveal_strlit(" (");
    reveal_strlit(" [binary]");
    reveal_strlit(" [symlink, whole-file only]");
    reveal_strlit(" [truncated]");
    reveal_strlit(" [mode ");
    assert(" ("@.len() == 2 && " [binary]"@.len() > 0 && " [truncated]"@.len() > 0
        && " [mode "@.len() > 0);
    assert(SYMLINK_MARKER@.len() > 0);
}

/// A hunk is told in a line for itself, one for each line that it takes away and
/// one for each that it adds, in that order and each with its mark.
pub proof fn a_hunk_is_told_line_by_line(h: HunkView)
    ensures
        ({
            let shown = hunk_lines(h);
            let gone = plain_lines(h.removed);
            let put = plain_lines(h.added);
            &&& shown.len() == 1 + gone.len() + put.len()
            &&& shown[0] == hunk_header(h)
            &&& forall|i: int|
                0 <= i < gone.len() ==> shown[1 + i] == "    - "@ + #[trigger] gone[i]
            &&& forall|i: int|
                0 <= i < put.len() ==> shown[1 + gone.len() + i] == "    + "@ + #[trigger] put[i]
        }),
{
}

/// Two statuses that are told by the same letter are the same, or neither is one
/// that is known.
pub proof fn a_status_has_a_letter_of_its_own(a: Seq<char>, b: Seq<char>)
    requires
        status_letter(a) == status_letter(b),
        status_letter(a) != "?"@,
    ensures
        a == b,
{
    reveal_strlit("M");
    reveal_strlit("A");
    reveal_strlit("D");
    reveal_strlit("R");
    reveal_strlit("C");
    assert("M"@[0] == 'M' && "A"@[0] == 'A' && "D"@[0] == 'D' && "R"@[0] == 'R' && "C"@[0] == 'C');
}

} // verus!
