//! The files of a diff: what is known of each before its hunks are looked at,
//! and how its hunks come to be.

use crate::diff::{
    abbreviate, abbreviated, can_diff, diffable, file_hunks, get_hunks, ids_of, shortest_unique,
    shortest_unique_prefix_len, unanalyzed, Hunk, HunkView, LineRange, SemanticInfo, SemanticView,
};
use crate::hunkset::eval::extension;
use crate::paths::{rooted, PathFrame};
use crate::text::{
    chars_of, concat, concat2, concat_range, deep, group_deep, line_pieces, same,
    split_lines_with_endings, string_of,
};
use vstd::prelude::*;
use vstd::utf8::{decode_utf8, encode_scalar, encode_utf8, valid_utf8};

verus! {

// ---------------------------------------------------------------------------
// Types
// ---------------------------------------------------------------------------

/// What happens to the files whose contents are not text.
#[derive(Debug, Clone, Copy, PartialEq, Eq, Structural)]
pub enum BinaryMode {
    Skip,
    Mark,
    Include,
}

impl Default for BinaryMode {
    fn default() -> (r: BinaryMode)
        ensures
            r == BinaryMode::Mark,
    {
        BinaryMode::Mark
    }
}

/// Caps applied to a file's contents before it is diffed.
///
/// A hunk id is a hash of the text the hunk was computed from, so ids taken from
/// a file that was cut do not exist in the real diff.
#[derive(Debug, Clone, Copy, PartialEq, Eq, Structural)]
pub struct Truncation {
    pub max_bytes: Option<usize>,
    pub max_lines: Option<usize>,
}

/// Read the file whole.
pub open spec fn no_truncation() -> Truncation {
    Truncation { max_bytes: None, max_lines: None }
}

impl Truncation {
    /// Read the file whole.
    pub fn none() -> (r: Truncation)
        ensures
            r == no_truncation(),
    {
        Truncation { max_bytes: None, max_lines: None }
    }
}

impl Default for Truncation {
    fn default() -> (r: Truncation)
        ensures
            r == no_truncation(),
    {
        Truncation::none()
    }
}

/// One file of a diff, as the summary of the diff tells it.
#[derive(Debug)]
pub struct DiffSummaryEntry {
    pub status: String,
    pub path: String,
    pub source: String,
    pub target: String,
    pub source_executable: bool,
    pub target_executable: bool,
    /// `file`, `symlink`, `tree`, `git-submodule`, `conflict`, or nothing where
    /// that side has no entry.
    pub source_file_type: String,
    pub target_file_type: String,
}

/// A change to a file's executable bit, which is part of no hunk.
#[derive(Debug, Clone, Copy)]
pub struct ModeChange {
    pub from: &'static str,
    pub to: &'static str,
}

/// Where a file came from and where it went.
#[derive(Debug)]
pub struct RenameInfo {
    pub from: String,
    pub to: String,
}

/// The paths a file has on either side of a diff.
#[derive(Debug)]
pub struct FilePaths {
    pub before: Option<String>,
    pub after: Option<String>,
}

/// A file's hunks with what else is known of it.
#[derive(Debug)]
pub struct FileHunks {
    pub path: String,
    pub status: String,
    pub hunks: Vec<Hunk>,
    pub rename: Option<RenameInfo>,
    pub is_binary: bool,
    /// Whether either side is a symlink.
    pub is_symlink: bool,
    pub mode: Option<ModeChange>,
    /// Whether either side was cut short before diffing.
    pub truncated: bool,
}

#[verifier::ext_equal]
pub struct SummaryView {
    pub status: Seq<char>,
    pub path: Seq<char>,
    pub source: Seq<char>,
    pub target: Seq<char>,
    pub source_executable: bool,
    pub target_executable: bool,
    pub source_file_type: Seq<char>,
    pub target_file_type: Seq<char>,
}

#[verifier::ext_equal]
pub struct ModeView {
    pub from: Seq<char>,
    pub to: Seq<char>,
}

#[verifier::ext_equal]
pub struct RenameView {
    pub from: Seq<char>,
    pub to: Seq<char>,
}

#[verifier::ext_equal]
pub struct FileView {
    pub path: Seq<char>,
    pub status: Seq<char>,
    pub hunks: Seq<HunkView>,
    pub rename: Option<RenameView>,
    pub is_binary: bool,
    pub is_symlink: bool,
    pub mode: Option<ModeView>,
    pub truncated: bool,
}

impl DeepView for DiffSummaryEntry {
    type V = SummaryView;

    open spec fn deep_view(&self) -> SummaryView {
        SummaryView {
            status: self.status@,
            path: self.path@,
            source: self.source@,
            target: self.target@,
            source_executable: self.source_executable,
            target_executable: self.target_executable,
            source_file_type: self.source_file_type@,
            target_file_type: self.target_file_type@,
        }
    }
}

impl DeepView for ModeChange {
    type V = ModeView;

    open spec fn deep_view(&self) -> ModeView {
        ModeView { from: self.from@, to: self.to@ }
    }
}

impl DeepView for RenameInfo {
    type V = RenameView;

    open spec fn deep_view(&self) -> RenameView {
        RenameView { from: self.from@, to: self.to@ }
    }
}

impl DeepView for FileHunks {
    type V = FileView;

    open spec fn deep_view(&self) -> FileView {
        FileView {
            path: self.path@,
            status: self.status@,
            hunks: deep(self.hunks@),
            rename: self.rename.deep_view(),
            is_binary: self.is_binary,
            is_symlink: self.is_symlink,
            mode: self.mode.deep_view(),
            truncated: self.truncated,
        }
    }
}

impl RenameInfo {
    /// A copy of the two paths.
    pub fn copied(&self) -> (r: RenameInfo)
        ensures
            r.deep_view() == self.deep_view(),
    {
        RenameInfo { from: self.from.clone(), to: self.to.clone() }
    }
}

// ---------------------------------------------------------------------------
// Reading the summary
// ---------------------------------------------------------------------------

/// The mode of a file with or without its executable bit.
pub open spec fn mode_text(executable: bool) -> Seq<char> {
    if executable {
        "100755"@
    } else {
        "100644"@
    }
}

pub fn git_mode(executable: bool) -> (r: &'static str)
    ensures
        r@ == mode_text(executable),
{
    if executable {
        "100755"
    } else {
        "100644"
    }
}

/// Whether either side of an entry is a symlink.
pub open spec fn is_link(e: SummaryView) -> bool {
    e.source_file_type == "symlink"@ || e.target_file_type == "symlink"@
}

/// Whether either side of an entry is a symlink, whose target is no text and
/// whose change no hunk tells.
pub fn involves_symlink(entry: &DiffSummaryEntry) -> (r: bool)
    ensures
        r == is_link(entry.deep_view()),
{
    same(entry.source_file_type.as_str(), "symlink") || same(
        entry.target_file_type.as_str(),
        "symlink",
    )
}

/// The change of an entry's executable bit. In an added or removed file the
/// mode is part of the addition or the removal.
pub open spec fn mode_change(e: SummaryView) -> Option<ModeView> {
    if e.status == "added"@ || e.status == "removed"@ || e.source_executable
        == e.target_executable {
        None
    } else {
        Some(
            ModeView {
                from: mode_text(e.source_executable),
                to: mode_text(e.target_executable),
            },
        )
    }
}

pub fn mode_change_for_entry(entry: &DiffSummaryEntry) -> (r: Option<ModeChange>)
    ensures
        r.deep_view() == mode_change(entry.deep_view()),
{
    if same(entry.status.as_str(), "added") || same(entry.status.as_str(), "removed") {
        return None;
    }
    if entry.source_executable == entry.target_executable {
        return None;
    }
    Some(
        ModeChange {
            from: git_mode(entry.source_executable),
            to: git_mode(entry.target_executable),
        },
    )
}

/// The path an entry is known by.
pub open spec fn path_of(e: SummaryView) -> Seq<char> {
    if e.path.len() > 0 {
        e.path
    } else if e.target.len() > 0 {
        e.target
    } else {
        e.source
    }
}

pub fn primary_path(entry: &DiffSummaryEntry) -> (r: String)
    ensures
        r@ == path_of(entry.deep_view()),
{
    if !entry.path.as_str().is_empty() {
        entry.path.clone()
    } else if !entry.target.as_str().is_empty() {
        entry.target.clone()
    } else {
        entry.source.clone()
    }
}

/// Whether an entry was renamed or copied.
pub open spec fn is_moved(e: SummaryView) -> bool {
    e.status == "renamed"@ || e.status == "copied"@
}

/// Where a renamed or copied file came from and where it went.
pub open spec fn rename_of(e: SummaryView) -> Option<RenameView> {
    if is_moved(e) && e.source.len() > 0 {
        Some(
            RenameView {
                from: e.source,
                to: if e.target.len() == 0 {
                    e.path
                } else {
                    e.target
                },
            },
        )
    } else {
        None
    }
}

pub fn rename_info(entry: &DiffSummaryEntry) -> (r: Option<RenameInfo>)
    ensures
        r.deep_view() == rename_of(entry.deep_view()),
{
    if same(entry.status.as_str(), "renamed") || same(entry.status.as_str(), "copied") {
        if entry.source.as_str().is_empty() {
            return None;
        }
        let to = if entry.target.as_str().is_empty() {
            entry.path.clone()
        } else {
            entry.target.clone()
        };
        Some(RenameInfo { from: entry.source.clone(), to })
    } else {
        None
    }
}

pub open spec fn either(first: Seq<char>, otherwise: Seq<char>) -> Seq<char> {
    if first.len() == 0 {
        otherwise
    } else {
        first
    }
}

/// The path on the left side of a diff, where there is a file.
pub open spec fn left_path(e: SummaryView, path: Seq<char>) -> Option<Seq<char>> {
    if e.status == "added"@ {
        None
    } else if is_moved(e) {
        Some(either(e.source, path))
    } else {
        Some(path)
    }
}

/// The path on the right side of a diff, where there is a file.
pub open spec fn right_path(e: SummaryView, path: Seq<char>) -> Option<Seq<char>> {
    if e.status == "removed"@ {
        None
    } else if is_moved(e) {
        Some(either(e.target, path))
    } else {
        Some(path)
    }
}

/// The paths to read an entry's two sides from.
pub fn file_paths_for_entry(entry: &DiffSummaryEntry, path: &str) -> (r: FilePaths)
    ensures
        r.before.deep_view() == left_path(entry.deep_view(), path@),
        r.after.deep_view() == right_path(entry.deep_view(), path@),
{
    proof {
        reveal_strlit("added");
        reveal_strlit("removed");
        reveal_strlit("renamed");
        reveal_strlit("copied");
        assert("added"@.len() == 5 && "removed"@.len() == 7 && "renamed"@.len() == 7);
        assert("removed"@[2] != "renamed"@[2]);
    }
    if same(entry.status.as_str(), "added") {
        FilePaths { before: None, after: Some(path.to_owned()) }
    } else if same(entry.status.as_str(), "removed") {
        FilePaths { before: Some(path.to_owned()), after: None }
    } else if same(entry.status.as_str(), "renamed") || same(entry.status.as_str(), "copied") {
        let before = if entry.source.as_str().is_empty() {
            path.to_owned()
        } else {
            entry.source.clone()
        };
        let after = if entry.target.as_str().is_empty() {
            path.to_owned()
        } else {
            entry.target.clone()
        };
        FilePaths { before: Some(before), after: Some(after) }
    } else {
        FilePaths { before: Some(path.to_owned()), after: Some(path.to_owned()) }
    }
}

// ---------------------------------------------------------------------------
// Reading contents
// ---------------------------------------------------------------------------

/// The text that bytes are read as, where what is not UTF-8 is replaced.
pub uninterp spec fn lossy(bytes: Seq<u8>) -> Seq<char>;

/// Read bytes as text.
///
/// Calls `String::from_utf8_lossy`, which puts replacement characters where the
/// bytes are not UTF-8. The contract claims that the text depends on the bytes
/// alone, and that bytes that are UTF-8 are decoded.
#[verifier::external_body]
fn decode_lossy(bytes: &Vec<u8>) -> (r: String)
    ensures
        r@ == lossy(bytes@),
        valid_utf8(bytes@) ==> r@ == decode_utf8(bytes@),
{
    String::from_utf8_lossy(bytes).into_owned()
}

/// Whether bytes are UTF-8.
///
/// Calls `std::str::from_utf8`, which fails exactly where they are not.
#[verifier::external_body]
fn is_utf8(bytes: &Vec<u8>) -> (r: bool)
    ensures
        r == valid_utf8(bytes@),
{
    std::str::from_utf8(bytes).is_ok()
}

/// Whether contents are no text: a zero byte, or bytes that are not UTF-8.
pub open spec fn is_binary(bytes: Seq<u8>) -> bool {
    bytes.contains(0u8) || !valid_utf8(bytes)
}

/// Whether contents are no text.
pub fn is_binary_data(bytes: &Vec<u8>) -> (r: bool)
    ensures
        r == is_binary(bytes@),
{
    let mut i: usize = 0;
    while i < bytes.len()
        invariant
            i <= bytes.len(),
            forall|j: int| 0 <= j < i ==> bytes@[j] != 0,
        decreases bytes.len() - i,
    {
        if bytes[i] == 0 {
            assert(bytes@.contains(bytes@[i as int]));
            return true;
        }
        i += 1;
    }
    !is_utf8(bytes)
}

/// How many bytes a text takes.
pub open spec fn byte_len(s: Seq<char>) -> nat {
    encode_utf8(s).len()
}

/// The longest beginning of a text that takes no more than `max` bytes.
pub open spec fn fitting(s: Seq<char>, max: nat) -> Seq<char>
    decreases s.len(),
{
    if s.len() == 0 || byte_len(s) <= max {
        s
    } else {
        fitting(s.drop_last(), max)
    }
}

/// A text cut to so many lines, and whether anything was cut.
pub open spec fn cut_lines(s: Seq<char>, max: Option<usize>) -> (Seq<char>, bool) {
    match max {
        Some(n) if line_pieces(s).len() > n => (concat(line_pieces(s).take(n as int)), true),
        _ => (s, false),
    }
}

/// A text cut to so many bytes, and whether anything was cut.
pub open spec fn cut_bytes(s: Seq<char>, max: Option<usize>) -> (Seq<char>, bool) {
    match max {
        Some(n) if byte_len(s) > n => (fitting(s, n as nat), true),
        _ => (s, false),
    }
}

/// A text cut to the caps, lines first, and whether anything was cut.
pub open spec fn cut(s: Seq<char>, t: Truncation) -> (Seq<char>, bool) {
    let lines = cut_lines(s, t.max_lines);
    let bytes = cut_bytes(lines.0, t.max_bytes);
    (bytes.0, lines.1 || bytes.1)
}

proof fn lemma_encode_push(s: Seq<char>, c: char)
    ensures
        encode_utf8(s.push(c)) == encode_utf8(s) + encode_scalar(c as u32),
    decreases s.len(),
{
    let whole = s.push(c);
    if s.len() == 0 {
        assert(whole.drop_first() =~= Seq::<char>::empty());
        assert(encode_utf8(Seq::<char>::empty()) =~= Seq::<u8>::empty());
        assert(encode_utf8(whole) =~= encode_scalar(c as u32));
        assert(encode_utf8(s) + encode_scalar(c as u32) =~= encode_scalar(c as u32));
    } else {
        lemma_encode_push(s.drop_first(), c);
        assert(whole.drop_first() =~= s.drop_first().push(c));
        assert(encode_utf8(whole) =~= encode_utf8(s) + encode_scalar(c as u32));
    }
}

/// How many bytes a character takes.
fn char_bytes(c: char) -> (n: usize)
    ensures
        n == encode_scalar(c as u32).len(),
        1 <= n <= 4,
{
    let code: u32 = c as u32;
    if code <= 0x7f {
        1
    } else if code <= 0x7ff {
        2
    } else if code <= 0xffff {
        3
    } else {
        4
    }
}

proof fn lemma_fitting_short(s: Seq<char>, max: nat)
    requires
        byte_len(s) <= max,
    ensures
        fitting(s, max) == s,
{
}

proof fn lemma_fitting(s: Seq<char>, n: int, max: nat)
    requires
        0 <= n < s.len(),
        byte_len(s.take(n)) <= max,
        byte_len(s.take(n + 1)) > max,
    ensures
        fitting(s, max) == s.take(n),
        byte_len(s) > max,
    decreases s.len(),
{
    if n + 1 == s.len() {
        assert(s.take(n + 1) =~= s);
        assert(s.drop_last() =~= s.take(n));
        lemma_fitting_short(s.take(n), max);
    } else {
        let front = s.drop_last();
        assert(front.take(n) =~= s.take(n));
        assert(front.take(n + 1) =~= s.take(n + 1));
        lemma_fitting(front, n, max);
        lemma_encode_push(front, s.last());
        assert(front.push(s.last()) =~= s);
    }
}

/// Cut a text down to the caps, and say whether anything was cut.
///
/// Whole lines are kept with their ends, and a character is never split. A cap
/// that the text fits under changes nothing.
pub fn truncate_text(content: &str, truncation: Truncation) -> (r: (String, bool))
    ensures
        (r.0@, r.1) == cut(content@, truncation),
{
    let mut result = content.to_owned();
    let mut was_cut = false;
    if let Some(max_lines) = truncation.max_lines {
        let lines = split_lines_with_endings(content);
        if lines.len() > max_lines {
            was_cut = true;
            result = concat_range(&lines, 0, max_lines);
            assert(line_pieces(content@).subrange(0, max_lines as int) =~= line_pieces(
                content@,
            ).take(max_lines as int));
        }
    }
    let ghost lines = cut_lines(content@, truncation.max_lines);
    assert(lines == (result@, was_cut));
    if let Some(max_bytes) = truncation.max_bytes {
        let chars = chars_of(result.as_str());
        let ghost text = result@;
        let mut used: usize = 0;
        let mut n: usize = 0;
        assert(text.take(0) =~= Seq::<char>::empty());
        assert(byte_len(text.take(0)) == 0);
        while n < chars.len()
            invariant
                chars@ == text,
                text == result@,
                lines == (text, was_cut),
                lines == cut_lines(content@, truncation.max_lines),
                truncation.max_bytes == Some(max_bytes),
                n <= chars.len(),
                used == byte_len(text.take(n as int)),
                used <= max_bytes,
            decreases chars.len() - n,
        {
            let width = char_bytes(chars[n]);
            proof {
                lemma_encode_push(text.take(n as int), text[n as int]);
                assert(text.take(n as int).push(text[n as int]) =~= text.take(n as int + 1));
            }
            if width > max_bytes - used {
                let head = string_of(&chars, 0, n);
                proof {
                    lemma_fitting(text, n as int, max_bytes as nat);
                    assert(head@ =~= text.take(n as int));
                }
                return (head, true);
            }
            used += width;
            n += 1;
        }
        assert(text.take(n as int) =~= text);
    }
    (result, was_cut)
}

/// What is kept of a text is a beginning of it, and no more than was allowed.
pub proof fn truncating_keeps_a_beginning(s: Seq<char>, t: Truncation)
    ensures
        ({
            let (kept, was_cut) = cut(s, t);
            &&& crate::text::begins_with(s, kept)
            &&& t.max_bytes matches Some(n) ==> byte_len(kept) <= n
            &&& !was_cut ==> kept == s
        }),
{
    let (lines, _) = cut_lines(s, t.max_lines);
    crate::text::lines_with_endings_rebuild_the_text(s);
    if let Some(n) = t.max_lines {
        if line_pieces(s).len() > n {
            let pieces = line_pieces(s);
            assert(pieces =~= pieces.take(n as int) + pieces.skip(n as int));
            crate::text::lemma_concat_add(pieces.take(n as int), pieces.skip(n as int));
            assert(s.take(lines.len() as int) =~= lines);
        } else {
            assert(s.take(lines.len() as int) =~= lines);
        }
    } else {
        assert(s.take(lines.len() as int) =~= lines);
    }
    if let Some(n) = t.max_bytes {
        lemma_fitting_begins(lines, n as nat);
        let kept = cut_bytes(lines, t.max_bytes).0;
        if byte_len(lines) <= n {
            assert(lines.take(kept.len() as int) =~= kept);
        }
        assert(s.take(kept.len() as int) =~= lines.take(kept.len() as int));
    }
}

proof fn lemma_fitting_begins(s: Seq<char>, max: nat)
    ensures
        crate::text::begins_with(s, fitting(s, max)),
        byte_len(fitting(s, max)) <= max,
    decreases s.len(),
{
    if s.len() == 0 || byte_len(s) <= max {
        assert(s.take(s.len() as int) =~= s);
        if s.len() == 0 {
            assert(encode_utf8(s) =~= Seq::<u8>::empty());
        }
    } else {
        lemma_fitting_begins(s.drop_last(), max);
        let kept = fitting(s.drop_last(), max);
        assert(s.drop_last().take(kept.len() as int) =~= s.take(kept.len() as int));
    }
}

// ---------------------------------------------------------------------------
// One file
// ---------------------------------------------------------------------------

/// The path a file had on the left side, where a rename or a copy moved it.
pub open spec fn moved_from(rename: Option<RenameView>, path: Seq<char>) -> Option<Seq<char>> {
    match rename {
        Some(r) if r.from != path => Some(r.from),
        _ => None,
    }
}

/// The paths a file may be named by.
pub open spec fn names_of(f: FileView) -> Seq<Seq<char>> {
    match moved_from(f.rename, f.path) {
        Some(from) => seq![f.path, from],
        None => seq![f.path],
    }
}

/// Whether a file carries a change that no hunk tells.
pub open spec fn has_hunkless_change(f: FileView) -> bool {
    f.is_binary || f.mode is Some || f.is_symlink || moved_from(f.rename, f.path) is Some || f.status
        == "added"@ || f.status == "removed"@
}

impl FileHunks {
    /// Whether this file carries a change that no hunk tells, so that an empty
    /// list of hunks does not mean that nothing happened: contents that are no
    /// text, a mode, a symlink, a rename or a copy, an empty file that was added
    /// or removed.
    pub fn changes_without_hunks(&self) -> (r: bool)
        ensures
            r == has_hunkless_change(self.deep_view()),
    {
        self.is_binary || self.mode.is_some() || self.is_symlink || self.rename_source().is_some()
            || same(self.status.as_str(), "added") || same(self.status.as_str(), "removed")
    }

    /// The path this file had on the left side of the diff, where a rename or a
    /// copy moved it.
    pub fn rename_source(&self) -> (r: Option<&str>)
        ensures
            match r {
                Some(from) => moved_from(self.deep_view().rename, self.path@) == Some(from@),
                None => moved_from(self.deep_view().rename, self.path@) is None,
            },
    {
        match &self.rename {
            Some(r) => if same(r.from.as_str(), self.path.as_str()) {
                None
            } else {
                Some(r.from.as_str())
            },
            None => None,
        }
    }

    /// Every path this file may be named by.
    pub fn all_paths(&self) -> (r: Vec<&str>)
        ensures
            r@.len() == names_of(self.deep_view()).len(),
            forall|i: int| 0 <= i < r@.len() ==> (#[trigger] r@[i])@ == names_of(self.deep_view())[i],
    {
        let mut paths: Vec<&str> = Vec::new();
        paths.push(self.path.as_str());
        if let Some(from) = self.rename_source() {
            paths.push(from);
        }
        paths
    }
}

/// What became of a file that was to be loaded.
#[derive(Debug)]
pub enum Loaded {
    /// There is nothing to show of it.
    Skipped,
    /// Its contents have too many lines to be diffed.
    TooLarge,
    File(FileHunks),
}

/// Whether contents are diffed.
pub open spec fn is_diffed(before: Seq<u8>, after: Seq<u8>, binary: BinaryMode) -> bool {
    !(is_binary(before) || is_binary(after)) || binary == BinaryMode::Include
}

/// The text of one side, and whether it was cut.
pub open spec fn side(bytes: Seq<u8>, diffed: bool, t: Truncation) -> (Seq<char>, bool) {
    if diffed {
        cut(lossy(bytes), t)
    } else {
        (Seq::empty(), false)
    }
}

/// A file of a diff, its hunks computed from its contents on either side.
pub open spec fn loaded_file(
    e: SummaryView,
    prefix: Seq<Seq<char>>,
    before: Seq<u8>,
    after: Seq<u8>,
    binary: BinaryMode,
    t: Truncation,
) -> FileView {
    let path = path_of(e);
    let hashed = match rooted(prefix, path) {
        Some(root) => root,
        None => path,
    };
    let diffed = is_diffed(before, after, binary);
    let old = side(before, diffed, t);
    let new = side(after, diffed, t);
    FileView {
        path,
        status: e.status,
        hunks: if diffed {
            file_hunks(hashed, old.0, new.0)
        } else {
            Seq::empty()
        },
        rename: rename_of(e),
        is_binary: is_binary(before) || is_binary(after),
        is_symlink: is_link(e),
        mode: mode_change(e),
        truncated: old.1 || new.1,
    }
}

/// Load one file of a diff from its contents on either side.
///
/// Its path is printed in this directory's frame; its ids are hashed from the
/// path from the root, so that they are the same wherever they are computed.
pub fn load_file(
    entry: &DiffSummaryEntry,
    frame: &PathFrame,
    before: &Vec<u8>,
    after: &Vec<u8>,
    binary: BinaryMode,
    truncation: Truncation,
) -> (r: Loaded)
    ensures
        ({
            let e = entry.deep_view();
            let diffed = is_diffed(before@, after@, binary);
            let skipped = path_of(e).len() == 0 || (binary == BinaryMode::Skip && (is_binary(
                before@,
            ) || is_binary(after@)));
            let fits = diffable(
                side(before@, diffed, truncation).0,
                side(after@, diffed, truncation).0,
            );
            match r {
                Loaded::Skipped => skipped,
                Loaded::TooLarge => !skipped && !fits,
                Loaded::File(f) => !skipped && fits && f.deep_view() == loaded_file(
                    e,
                    deep(frame.prefix@),
                    before@,
                    after@,
                    binary,
                    truncation,
                ),
            }
        }),
{
    let path = primary_path(entry);
    if path.as_str().is_empty() {
        return Loaded::Skipped;
    }
    let hashed_path = match frame.to_root(path.as_str()) {
        Some(root) => root,
        None => path.clone(),
    };
    let binary_left = is_binary_data(before);
    let binary_right = is_binary_data(after);
    let no_text = binary_left || binary_right;
    if no_text && binary == BinaryMode::Skip {
        return Loaded::Skipped;
    }
    let should_diff = !no_text || binary == BinaryMode::Include;
    let mut hunks: Vec<Hunk> = Vec::new();
    let mut truncated = false;
    if should_diff {
        let (old_text, old_cut) = truncate_text(decode_lossy(before).as_str(), truncation);
        let (new_text, new_cut) = truncate_text(decode_lossy(after).as_str(), truncation);
        if !can_diff(old_text.as_str(), new_text.as_str()) {
            return Loaded::TooLarge;
        }
        hunks = get_hunks(hashed_path.as_str(), old_text.as_str(), new_text.as_str());
        truncated = old_cut || new_cut;
    } else {
        assert(deep(hunks@) =~= Seq::empty());
    }
    Loaded::File(
        FileHunks {
            path,
            status: entry.status.clone(),
            hunks,
            rename: rename_info(entry),
            is_binary: no_text,
            is_symlink: involves_symlink(entry),
            mode: mode_change_for_entry(entry),
            truncated,
        },
    )
}

// ---------------------------------------------------------------------------
// Every file
// ---------------------------------------------------------------------------

/// The ids of the hunks of some files, file by file.
pub open spec fn all_ids(files: Seq<FileView>) -> Seq<Seq<char>>
    decreases files.len(),
{
    if files.len() == 0 {
        Seq::empty()
    } else {
        all_ids(files.drop_last()) + ids_of(files.last().hunks)
    }
}

/// Hunks with short ids of so many digits.
pub open spec fn shortened(hunks: Seq<HunkView>, digits: int) -> Seq<HunkView> {
    Seq::new(
        hunks.len(),
        |i: int| HunkView { short_id: abbreviated(hunks[i].id, digits), ..hunks[i] },
    )
}

/// Files whose hunks have the shortest short ids that tell every hunk of every
/// file from every other.
pub open spec fn with_short_ids_throughout(files: Seq<FileView>) -> Seq<FileView> {
    let digits = shortest_unique(all_ids(files));
    Seq::new(
        files.len(),
        |i: int| FileView { hunks: shortened(files[i].hunks, digits), ..files[i] },
    )
}

fn collect_ids(files: &Vec<FileHunks>) -> (ids: Vec<String>)
    ensures
        deep(ids@) == all_ids(deep(files@)),
{
    broadcast use group_deep;

    let ghost views = deep(files@);
    let mut ids: Vec<String> = Vec::new();
    let mut i: usize = 0;
    assert(views.take(0) =~= Seq::empty());
    while i < files.len()
        invariant
            views == deep(files@),
            i <= files.len(),
            deep(ids@) == all_ids(views.take(i as int)),
        decreases files.len() - i,
    {
        assert(views.take(i as int + 1).drop_last() =~= views.take(i as int));
        let hunks = &files[i].hunks;
        let ghost held = deep(ids@);
        let ghost own = ids_of(deep(hunks@));
        let mut j: usize = 0;
        assert(held + own.take(0) =~= held);
        while j < hunks.len()
            invariant
                own == ids_of(deep(hunks@)),
                j <= hunks.len(),
                deep(ids@) == held + own.take(j as int),
            decreases hunks.len() - j,
        {
            ids.push(hunks[j].id.clone());
            assert(own[j as int] == hunks@[j as int].id@);
            assert(own.take(j as int + 1) =~= own.take(j as int).push(own[j as int]));
            assert((held + own.take(j as int)).push(own[j as int]) =~= held + own.take(
                j as int + 1,
            ));
            j += 1;
        }
        assert(own.take(own.len() as int) =~= own);
        i += 1;
    }
    assert(views.take(views.len() as int) =~= views);
    ids
}

/// Abbreviate the ids of every hunk of a diff.
///
/// Over the whole diff and not file by file: a short id has to name one hunk
/// among everything there is to look at.
pub fn abbreviate_ids(files: &mut Vec<FileHunks>)
    ensures
        deep(final(files)@) == with_short_ids_throughout(deep(old(files)@)),
{
    let ghost before = deep(old(files)@);
    let digits = shortest_unique_prefix_len(&collect_ids(files));
    let mut i: usize = 0;
    while i < files.len()
        invariant
            before == deep(old(files)@),
            files@.len() == before.len(),
            digits == shortest_unique(all_ids(before)),
            i <= files@.len(),
            forall|k: int|
                0 <= k < i ==> (#[trigger] files@[k]).deep_view() == (FileView {
                    hunks: shortened(before[k].hunks, digits as int),
                    ..before[k]
                }),
            forall|k: int| i <= k < files@.len() ==> files@[k].deep_view() == before[k],
        decreases files@.len() - i,
    {
        let ghost file = files@[i as int];
        let mut hunks: Vec<Hunk> = Vec::new();
        std::mem::swap(&mut hunks, &mut files[i].hunks);
        shorten(&mut hunks, digits);
        files[i].hunks = hunks;
        assert(files@[i as int].deep_view() == (FileView {
            hunks: shortened(before[i as int].hunks, digits as int),
            ..before[i as int]
        }));
        i += 1;
    }
    assert(deep(files@) =~= with_short_ids_throughout(before));
}

fn shorten(hunks: &mut Vec<Hunk>, digits: usize)
    ensures
        deep(final(hunks)@) == shortened(deep(old(hunks)@), digits as int),
{
    let ghost before = deep(old(hunks)@);
    let mut j: usize = 0;
    while j < hunks.len()
        invariant
            before == deep(old(hunks)@),
            hunks@.len() == before.len(),
            j <= hunks@.len(),
            forall|k: int|
                0 <= k < j ==> (#[trigger] hunks@[k]).deep_view() == shortened(
                    before,
                    digits as int,
                )[k],
            forall|k: int| j <= k < hunks@.len() ==> hunks@[k].deep_view() == before[k],
        decreases hunks@.len() - j,
    {
        assert(hunks@[j as int].deep_view() == before[j as int]);
        let short = abbreviate(hunks[j].id.as_str(), digits);
        hunks[j].short_id = short;
        j += 1;
    }
    assert(deep(hunks@) =~= shortened(before, digits as int));
}

// ---------------------------------------------------------------------------
// Stand-ins
// ---------------------------------------------------------------------------

/// What happened to a file as a whole, by its status.
pub open spec fn whole_file_kind(status: Seq<char>) -> Seq<char> {
    if status == "added"@ || status == "copied"@ {
        "insert"@
    } else if status == "removed"@ {
        "delete"@
    } else {
        "replace"@
    }
}

/// The one hunk that a file with no hunks is named by.
pub open spec fn stand_in_for(f: FileView) -> HunkView {
    HunkView {
        index: 0,
        id: "whole-file:"@ + f.path,
        short_id: "whole-file:"@ + f.path,
        hunk_type: whole_file_kind(f.status),
        removed: Seq::empty(),
        added: Seq::empty(),
        before_range: LineRange { start: 0, length: 0 },
        after_range: LineRange { start: 0, length: 0 },
        context: None,
        semantic: unanalyzed(),
    }
}

/// The one hunk that a file with no hunks is named by.
///
/// It carries what a predicate about files reads, and no text. Its id is none
/// that a hunk could have.
pub fn whole_file_stand_in(file: &FileHunks) -> (r: Hunk)
    ensures
        r.deep_view() == stand_in_for(file.deep_view()),
{
    let hunk_type = if same(file.status.as_str(), "added") || same(
        file.status.as_str(),
        "copied",
    ) {
        "insert"
    } else if same(file.status.as_str(), "removed") {
        "delete"
    } else {
        "replace"
    };
    let name = concat2("whole-file:", file.path.as_str());
    let r = Hunk {
        index: 0,
        short_id: name.clone(),
        id: name,
        hunk_type: hunk_type.to_owned(),
        removed: String::new(),
        added: String::new(),
        before_range: LineRange { start: 0, length: 0 },
        after_range: LineRange { start: 0, length: 0 },
        context: None,
        semantic: SemanticInfo::default(),
    };
    assert(r.deep_view().removed =~= Seq::empty());
    assert(r.deep_view().added =~= Seq::empty());
    r
}

// ---------------------------------------------------------------------------
// Semantics
// ---------------------------------------------------------------------------

/// Where to ask a parser about a hunk: a side's text, and a line of it.
#[derive(Debug, Clone, Copy, PartialEq, Eq, Structural)]
pub enum Inquiry {
    Before(usize),
    After(usize),
}

/// Where to ask about a hunk: where it takes lines away, the first of those;
/// else the first it adds. Nowhere where that side has no text, or the path no
/// extension to choose a parser by.
pub open spec fn inquiry_for(
    hunk: HunkView,
    path: Seq<char>,
    before: Seq<char>,
    after: Seq<char>,
) -> Option<Inquiry> {
    if crate::hunkset::eval::extension_text(path).len() == 0 {
        None
    } else if hunk.before_range.length > 0 {
        if before.len() > 0 {
            Some(Inquiry::Before(hunk.before_range.start))
        } else {
            None
        }
    } else if after.len() > 0 {
        Some(Inquiry::After(hunk.after_range.start))
    } else {
        None
    }
}

/// Where to ask a parser about each hunk of a file.
pub fn semantic_inquiries(hunks: &Vec<Hunk>, path: &str, before: &str, after: &str) -> (r: Vec<
    Option<Inquiry>,
>)
    ensures
        r@.len() == hunks@.len(),
        forall|i: int|
            0 <= i < r@.len() ==> #[trigger] r@[i] == inquiry_for(
                hunks@[i].deep_view(),
                path@,
                before@,
                after@,
            ),
{
    let known = match extension(path) {
        Some(ext) => !ext.as_str().is_empty(),
        None => false,
    };
    let mut r: Vec<Option<Inquiry>> = Vec::new();
    let mut i: usize = 0;
    while i < hunks.len()
        invariant
            known == (crate::hunkset::eval::extension_text(path@).len() > 0),
            i <= hunks.len(),
            r@.len() == i,
            forall|j: int|
                0 <= j < i ==> #[trigger] r@[j] == inquiry_for(
                    hunks@[j].deep_view(),
                    path@,
                    before@,
                    after@,
                ),
        decreases hunks.len() - i,
    {
        let hunk = &hunks[i];
        let asked = if !known {
            None
        } else if hunk.before_range.length > 0 {
            if before.is_empty() {
                None
            } else {
                Some(Inquiry::Before(hunk.before_range.start))
            }
        } else if after.is_empty() {
            None
        } else {
            Some(Inquiry::After(hunk.after_range.start))
        };
        r.push(asked);
        i += 1;
    }
    r
}

/// A hunk with what a parser found, where it found anything.
pub open spec fn enriched(hunk: HunkView, found: Option<SemanticView>) -> HunkView {
    match found {
        Some(semantic) => HunkView { semantic, ..hunk },
        None => hunk,
    }
}

/// Put what a parser found with each hunk.
pub fn enrich_hunks_with_semantics(hunks: &mut Vec<Hunk>, found: Vec<Option<SemanticInfo>>)
    requires
        old(hunks)@.len() == found@.len(),
    ensures
        final(hunks)@.len() == old(hunks)@.len(),
        forall|i: int|
            0 <= i < final(hunks)@.len() ==> (#[trigger] final(hunks)@[i]).deep_view() == enriched(
                old(hunks)@[i].deep_view(),
                found@[i].deep_view(),
            ),
{
    let ghost before = hunks@;
    let ghost all = found@;
    let mut found = found;
    while found.len() > 0
        invariant
            hunks@.len() == before.len(),
            all.len() == before.len(),
            found@.len() <= all.len(),
            found@ == all.take(found@.len() as int),
            forall|i: int|
                found@.len() <= i < hunks@.len() ==> (#[trigger] hunks@[i]).deep_view()
                    == enriched(before[i].deep_view(), all[i].deep_view()),
            forall|i: int| 0 <= i < found@.len() ==> hunks@[i] == before[i],
        decreases found.len(),
    {
        let ghost n = found@.len() as int;
        let last = found.pop().unwrap();
        assert(last == all[n - 1]);
        let at: usize = found.len();
        if let Some(info) = last {
            hunks[at].semantic = info;
        }
        assert(found@ =~= all.take(n - 1));
    }
}

// ---------------------------------------------------------------------------
// What holds of every file
// ---------------------------------------------------------------------------

/// An entry with its sides exchanged.
pub open spec fn turned_round(e: SummaryView) -> SummaryView {
    SummaryView {
        source: e.target,
        target: e.source,
        source_executable: e.target_executable,
        target_executable: e.source_executable,
        source_file_type: e.target_file_type,
        target_file_type: e.source_file_type,
        ..e
    }
}

/// A change of the executable bit is told exactly where a file is on both sides
/// and its bits differ. Turning the diff round turns the change round.
pub proof fn a_mode_change_is_told_where_the_bits_differ(e: SummaryView)
    ensures
        mode_change(e) is Some <==> e.status != "added"@ && e.status != "removed"@
            && e.source_executable != e.target_executable,
        match mode_change(e) {
            Some(m) => mode_change(turned_round(e)) == Some(ModeView { from: m.to, to: m.from })
                && m.from != m.to && (m.to == "100755"@ <==> e.target_executable),
            None => mode_change(turned_round(e)) is None,
        },
{
    reveal_strlit("100755");
    reveal_strlit("100644");
    assert("100755"@[3] != "100644"@[3]);
}

/// A diff reads a file where it was: one that was added has no left side, one that
/// was removed has no right side, and one that was moved is read at the path it
/// came from and at the path it went to.
pub proof fn each_side_is_read_where_the_file_is(e: SummaryView)
    ensures
        ({
            let path = path_of(e);
            &&& left_path(e, path) is None <==> e.status == "added"@
            &&& right_path(e, path) is None <==> e.status == "removed"@
            &&& rename_of(e) matches Some(r) ==> left_path(e, path) == Some(r.from)
            &&& rename_of(e) matches Some(r) ==> r.to.len() > 0 && (e.target.len() > 0 || e.path.len()
                > 0) ==> right_path(e, path) == Some(r.to)
            &&& !is_moved(e) && e.status != "added"@ ==> left_path(e, path) == Some(path)
            &&& !is_moved(e) && e.status != "removed"@ ==> right_path(e, path) == Some(path)
        }),
{
    reveal_strlit("added");
    reveal_strlit("removed");
    reveal_strlit("renamed");
    reveal_strlit("copied");
    assert("added"@.len() == 5 && "removed"@.len() == 7 && "renamed"@.len() == 7
        && "copied"@.len() == 6);
    assert("removed"@[2] != "renamed"@[2]);
}

/// A file is moved only where it was renamed or copied and its path before is
/// another than its path now.
pub proof fn a_file_is_moved_where_its_paths_differ(e: SummaryView)
    ensures
        ({
            let from = moved_from(rename_of(e), path_of(e));
            &&& from is Some <==> (e.status == "renamed"@ || e.status == "copied"@)
                && e.source.len() > 0 && e.source != path_of(e)
            &&& from matches Some(f) ==> f == e.source
        }),
{
}

/// A change that no hunk tells is one of the contents as a whole, of the mode, of
/// the kind of file, of the path, or of whether the file is there.
pub proof fn what_no_hunk_tells(f: FileView)
    ensures
        f.is_binary ==> has_hunkless_change(f),
        f.mode is Some ==> has_hunkless_change(f),
        f.is_symlink ==> has_hunkless_change(f),
        f.rename matches Some(r) ==> r.from != f.path ==> has_hunkless_change(f),
        f.status == "added"@ || f.status == "removed"@ ==> has_hunkless_change(f),
        !f.is_binary && f.mode is None && !f.is_symlink && (f.rename matches Some(r) ==> r.from
            == f.path) && f.status != "added"@ && f.status != "removed"@ ==> !has_hunkless_change(f),
{
}

/// Contents that are no text have no hunks, unless it is asked for them. Either
/// way the file is marked for what it is.
pub proof fn contents_that_are_no_text_have_no_hunks(
    e: SummaryView,
    prefix: Seq<Seq<char>>,
    before: Seq<u8>,
    after: Seq<u8>,
    binary: BinaryMode,
    t: Truncation,
)
    ensures
        ({
            let f = loaded_file(e, prefix, before, after, binary, t);
            let odd = bytes_are_no_text(before) || bytes_are_no_text(after);
            &&& f.is_binary == odd
            &&& odd && binary == BinaryMode::Mark ==> f.hunks.len() == 0 && !f.truncated
            &&& f.hunks == loaded_file(e, prefix, before, after, BinaryMode::Include, t).hunks || odd
            &&& f.is_symlink <==> e.source_file_type == "symlink"@ || e.target_file_type
                == "symlink"@
            &&& f.path == path_of(e) && f.status == e.status && f.rename == rename_of(e) && f.mode
                == mode_change(e)
        }),
{
}

/// Whether bytes are no text.
pub open spec fn bytes_are_no_text(bytes: Seq<u8>) -> bool {
    (exists|i: int| 0 <= i < bytes.len() && #[trigger] bytes[i] == 0u8) || !valid_utf8(bytes)
}

/// The hunks of a file, and so their ids, do not depend on the directory one is
/// in.
pub proof fn hunks_do_not_depend_on_the_directory(
    a: SummaryView,
    b: SummaryView,
    here: Seq<Seq<char>>,
    there: Seq<Seq<char>>,
    parts: Seq<Seq<char>>,
    before: Seq<u8>,
    after: Seq<u8>,
    binary: BinaryMode,
    t: Truncation,
)
    requires
        crate::paths::all_names(here),
        crate::paths::all_names(there),
        crate::paths::all_names(parts),
        path_of(a) == crate::paths::displayed(here, crate::text::joined(parts, "/"@)),
        path_of(b) == crate::paths::displayed(there, crate::text::joined(parts, "/"@)),
    ensures
        loaded_file(a, here, before, after, binary, t).hunks == loaded_file(
            b,
            there,
            before,
            after,
            binary,
            t,
        ).hunks,
{
    crate::paths::a_printed_path_leads_back(here, parts);
    crate::paths::a_printed_path_leads_back(there, parts);
}

proof fn lemma_fitting_is_longest(s: Seq<char>, max: nat)
    ensures
        forall|n: int|
            fitting(s, max).len() < n <= s.len() ==> byte_len(#[trigger] s.take(n)) > max,
    decreases s.len(),
{
    if s.len() > 0 && byte_len(s) > max {
        let rest = s.drop_last();
        lemma_fitting_is_longest(rest, max);
        assert forall|n: int| fitting(s, max).len() < n <= s.len() implies byte_len(
            #[trigger] s.take(n),
        ) > max by {
            if n < s.len() {
                assert(rest.take(n) =~= s.take(n));
            } else {
                assert(s.take(n) =~= s);
            }
        }
    }
}

/// What is kept of a text is as much as the caps allow: all of it where it fits,
/// else as many whole lines as are allowed, and of those as many characters as
/// the bytes allow. That something was cut is said exactly where something was.
pub proof fn truncating_keeps_as_much_as_fits(s: Seq<char>, t: Truncation)
    ensures
        ({
            let (kept, was_cut) = cut(s, t);
            let lines = match t.max_lines {
                Some(n) if line_pieces(s).len() > n => line_pieces(s).take(n as int),
                _ => line_pieces(s),
            };
            let whole = concat(lines);
            &&& crate::text::begins_with(whole, kept)
            &&& t.max_bytes is None ==> kept == whole
            &&& t.max_bytes matches Some(max) ==> forall|n: int|
                kept.len() < n <= whole.len() ==> byte_len(#[trigger] whole.take(n)) > max
            &&& was_cut <==> kept.len() < s.len()
        }),
{
    crate::text::lines_with_endings_rebuild_the_text(s);
    let pieces = line_pieces(s);
    let whole = cut_lines(s, t.max_lines).0;
    if let Some(n) = t.max_lines {
        if pieces.len() > n {
            let tail = pieces.skip(n as int);
            assert(pieces =~= pieces.take(n as int) + tail);
            crate::text::lemma_concat_add(pieces.take(n as int), tail);
            crate::text::a_line_ends_at_its_newline(s, n as int);
            lemma_concat_not_empty(tail);
        }
    }
    assert(whole.take(whole.len() as int) =~= whole);
    if let Some(max) = t.max_bytes {
        lemma_fitting_is_longest(whole, max as nat);
        lemma_fitting_begins(whole, max as nat);
        if byte_len(whole) > max {
            let kept = fitting(whole, max as nat);
            if kept.len() >= whole.len() {
                assert(whole.take(kept.len() as int) =~= whole);
            }
        }
    }
}

proof fn lemma_concat_not_empty(parts: Seq<Seq<char>>)
    requires
        parts.len() > 0,
        parts[0].len() > 0,
    ensures
        concat(parts).len() > 0,
    decreases parts.len(),
{
    if parts.len() > 1 {
        lemma_concat_not_empty(parts.drop_last());
    }
}

/// The one hunk that a file without hunks is named by says what happened to it:
/// a file that was added or copied was put in, one that was removed was taken
/// out, and any other was changed.
pub proof fn a_stand_in_says_what_happened(f: FileView)
    ensures
        stand_in_for(f).hunk_type == "insert"@ <==> f.status == "added"@ || f.status == "copied"@,
        stand_in_for(f).hunk_type == "delete"@ <==> f.status == "removed"@,
        stand_in_for(f).hunk_type == "insert"@ || stand_in_for(f).hunk_type == "delete"@
            || stand_in_for(f).hunk_type == "replace"@,
        stand_in_for(f).removed.len() == 0 && stand_in_for(f).added.len() == 0,
{
    reveal_strlit("insert");
    reveal_strlit("delete");
    reveal_strlit("replace");
    reveal_strlit("added");
    reveal_strlit("copied");
    reveal_strlit("removed");
    assert("insert"@[0] != "delete"@[0]);
    assert("replace"@.len() == 7 && "insert"@.len() == 6 && "delete"@.len() == 6);
    assert("added"@.len() == 5 && "copied"@.len() == 6 && "removed"@.len() == 7);
}

/// A parser is asked about a hunk where it is: at the first line it takes away in
/// the text before, or, where it takes none, at the first it adds in the text
/// after. It is asked exactly where that text is not empty and the path has an
/// extension.
pub proof fn a_parser_is_asked_where_the_hunk_is(
    hunk: HunkView,
    path: Seq<char>,
    before: Seq<char>,
    after: Seq<char>,
)
    ensures
        ({
            let asked = inquiry_for(hunk, path, before, after);
            let known = crate::hunkset::eval::extension_of(path) matches Some(ext) && ext.len() > 0;
            &&& asked matches Some(Inquiry::Before(line)) ==> line == hunk.before_range.start
                && hunk.before_range.length > 0
            &&& asked matches Some(Inquiry::After(line)) ==> line == hunk.after_range.start
                && hunk.before_range.length == 0
            &&& asked is Some <==> known && if hunk.before_range.length > 0 {
                before.len() > 0
            } else {
                after.len() > 0
            }
        }),
{
}

} // verus!
