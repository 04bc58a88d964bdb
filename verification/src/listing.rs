//! What is listed of a diff: which files, in which groups, in which shape.

use crate::diff::{AmbiguousId, Hunk, HunkView};
use crate::errors::{group_shapes, Code, CodedError, CodedView, ErrorCode};
use crate::files::{
    has_hunkless_change, moved_from, names_of, BinaryMode, FileHunks, FileView, ModeChange,
    ModeView, RenameInfo, RenameView, Truncation,
};
use crate::glob::{glob_matches, glob_refusal, validate_glob, Glob, GlobError};
use crate::hunkset::eval::{extension, extension_of, last_at};
use crate::names::{
    deep_map, keys_of, lemma_deep_map_insert, less, sorted, sorting_orders_and_keeps_everything,
    Keyed, NameMap,
};
use crate::node::{texts_node, Node};
use crate::resolve::{
    any_ambiguous, decided, filter_hunks, kept_hunks, reports_ambiguity, spec_decision, Decision,
    SpecDecision,
};
use crate::revisions::{no_details, optional, owned, DiffTarget, TargetView};
use crate::spec::{Spec, SpecView};
use crate::text::{
    chars_of, concat2, concat3, deep, group_deep, join, joined, same, string_of, trim, trimmed,
};
use vstd::prelude::*;

verus! {

// ---------------------------------------------------------------------------
// What is asked for
// ---------------------------------------------------------------------------

#[derive(Debug, Clone, Copy, PartialEq, Eq, Structural)]
pub enum ListFormat {
    Json,
    Yaml,
    Text,
    Diff,
}

impl Default for ListFormat {
    fn default() -> (r: ListFormat)
        ensures
            r == ListFormat::Json,
    {
        ListFormat::Json
    }
}

#[derive(Debug, Clone, Copy, PartialEq, Eq, Structural)]
pub enum ListGrouping {
    Ungrouped,
    Directory,
    Extension,
    Status,
}

impl Default for ListGrouping {
    fn default() -> (r: ListGrouping)
        ensures
            r == ListGrouping::Ungrouped,
    {
        ListGrouping::Ungrouped
    }
}

#[derive(Debug, Clone, Copy, PartialEq, Eq, Structural)]
pub enum ListMode {
    Full,
    Files,
    SpecTemplate,
}

impl Default for ListMode {
    fn default() -> (r: ListMode)
        ensures
            r == ListMode::Full,
    {
        ListMode::Full
    }
}

/// What a listing is asked for.
#[derive(Debug, Clone)]
pub struct ListOptions {
    pub rev: Option<String>,
    /// Left side of an explicit two-revision diff. Excludes `rev`.
    pub from: Option<String>,
    /// Right side of an explicit two-revision diff. Excludes `rev`.
    pub to: Option<String>,
    /// Patterns of the files to show; all where there are none.
    pub included: Vec<String>,
    /// Patterns of the files to leave out.
    pub excluded: Vec<String>,
    pub group: ListGrouping,
    pub format: ListFormat,
    pub mode: ListMode,
    pub spec: Option<String>,
    pub spec_file: Option<String>,
    pub binary: BinaryMode,
    pub truncation: Truncation,
}

impl ListOptions {
    /// Whether nothing but a revision is asked for.
    pub open spec fn plain(&self) -> bool {
        &&& self.from is None
        &&& self.to is None
        &&& self.included@.len() == 0
        &&& self.excluded@.len() == 0
        &&& self.group == ListGrouping::Ungrouped
        &&& self.format == ListFormat::Json
        &&& self.mode == ListMode::Full
        &&& self.spec is None
        &&& self.spec_file is None
        &&& self.binary == BinaryMode::Mark
        &&& self.truncation == crate::files::no_truncation()
    }

    /// The options for the listing of one revision.
    pub fn for_rev(rev: Option<&str>) -> (r: ListOptions)
        ensures
            r.rev.deep_view() == optional(rev),
            r.plain(),
    {
        ListOptions {
            rev: owned(rev),
            from: None,
            to: None,
            included: Vec::new(),
            excluded: Vec::new(),
            group: ListGrouping::default(),
            format: ListFormat::default(),
            mode: ListMode::default(),
            spec: None,
            spec_file: None,
            binary: BinaryMode::default(),
            truncation: Truncation::none(),
        }
    }
}

impl Default for ListOptions {
    fn default() -> (r: ListOptions)
        ensures
            r.rev is None,
            r.plain(),
    {
        ListOptions::for_rev(None)
    }
}

pub open spec fn optional_or(text: Option<Seq<char>>, otherwise: Seq<char>) -> Seq<char> {
    match text {
        Some(t) => t,
        None => otherwise,
    }
}

/// Which diff a listing shows. A side that is left out is the working copy.
pub fn list_target(options: &ListOptions) -> (r: Result<DiffTarget, &'static str>)
    ensures
        ({
            let rev = options.rev.deep_view();
            let from = options.from.deep_view();
            let to = options.to.deep_view();
            match r {
                Ok(target) => (from is None && to is None && target.deep_view() == TargetView::Rev(
                    rev,
                )) || ((from is Some || to is Some) && rev is None && target.deep_view() == (
                TargetView::FromTo { from: optional_or(from, "@"@), to: optional_or(to, "@"@) })),
                Err(message) => (from is Some || to is Some) && rev is Some && message@
                    == "--rev cannot be used with --from/--to"@,
            }
        }),
{
    if options.from.is_none() && options.to.is_none() {
        return Ok(
            match &options.rev {
                Some(rev) => DiffTarget::Rev(Some(rev.clone())),
                None => DiffTarget::Rev(None),
            },
        );
    }
    if options.rev.is_some() {
        return Err("--rev cannot be used with --from/--to");
    }
    let from = match &options.from {
        Some(from) => from.clone(),
        None => "@".to_owned(),
    };
    let to = match &options.to {
        Some(to) => to.clone(),
        None => "@".to_owned(),
    };
    Ok(DiffTarget::FromTo { from, to })
}

// ---------------------------------------------------------------------------
// Patterns
// ---------------------------------------------------------------------------

/// Patterns without the white space around them, and without those that are
/// nothing else.
pub open spec fn trimmed_patterns(patterns: Seq<Seq<char>>) -> Seq<Seq<char>>
    decreases patterns.len(),
{
    if patterns.len() == 0 {
        Seq::empty()
    } else {
        let rest = trimmed_patterns(patterns.drop_last());
        if trimmed(patterns.last()).len() == 0 {
            rest
        } else {
            rest.push(trimmed(patterns.last()))
        }
    }
}

/// One occurrence of a flag is one pattern: a comma is an ordinary character.
pub fn normalize_patterns(patterns: &Vec<String>) -> (out: Vec<String>)
    ensures
        deep(out@) == trimmed_patterns(deep(patterns@)),
{
    broadcast use group_deep;

    let ghost views = deep(patterns@);
    let mut out: Vec<String> = Vec::new();
    let mut i: usize = 0;
    assert(views.take(0) =~= Seq::empty());
    while i < patterns.len()
        invariant
            views == deep(patterns@),
            i <= patterns.len(),
            deep(out@) == trimmed_patterns(views.take(i as int)),
        decreases patterns.len() - i,
    {
        assert(views.take(i as int + 1).drop_last() =~= views.take(i as int));
        let one = trim(patterns[i].as_str());
        if !one.as_str().is_empty() {
            out.push(one);
        }
        i += 1;
    }
    assert(views.take(views.len() as int) =~= views);
    out
}

/// The first pattern that is refused.
pub open spec fn first_bad(patterns: Seq<Seq<char>>) -> Option<Seq<char>>
    decreases patterns.len(),
{
    if patterns.len() == 0 {
        None
    } else if first_bad(patterns.drop_last()) is Some {
        first_bad(patterns.drop_last())
    } else if glob_refusal(patterns.last()) is Some {
        Some(patterns.last())
    } else {
        None
    }
}

pub open spec fn all_accepted(patterns: Seq<Seq<char>>) -> bool {
    forall|i: int| 0 <= i < patterns.len() ==> glob_refusal(#[trigger] patterns[i]) is None
}

proof fn lemma_first_bad(patterns: Seq<Seq<char>>, n: int)
    requires
        0 <= n <= patterns.len(),
        first_bad(patterns.take(n)) is Some,
    ensures
        first_bad(patterns) == first_bad(patterns.take(n)),
    decreases patterns.len(),
{
    if n < patterns.len() {
        assert(patterns.drop_last().take(n) =~= patterns.take(n));
        lemma_first_bad(patterns.drop_last(), n);
    } else {
        assert(patterns.take(n) =~= patterns);
    }
}

/// Check patterns before any file is looked at, so that a typo is reported
/// whether or not there is anything to match.
pub fn check_patterns(patterns: &Vec<String>) -> (r: Result<(), GlobError>)
    ensures
        match r {
            Ok(_) => first_bad(deep(patterns@)) is None && all_accepted(deep(patterns@)),
            Err(e) => first_bad(deep(patterns@)) == Some(e.pattern_view()) && glob_refusal(
                e.pattern_view(),
            ) == Some(e.reason_view()),
        },
{
    let ghost views = deep(patterns@);
    let mut i: usize = 0;
    assert(views.take(0) =~= Seq::empty());
    while i < patterns.len()
        invariant
            views == deep(patterns@),
            i <= patterns.len(),
            first_bad(views.take(i as int)) is None,
            forall|j: int| 0 <= j < i ==> glob_refusal(#[trigger] views[j]) is None,
        decreases patterns.len() - i,
    {
        assert(views.take(i as int + 1).drop_last() =~= views.take(i as int));
        if let Err(e) = validate_glob(patterns[i].as_str()) {
            proof {
                lemma_first_bad(views, i as int + 1);
            }
            return Err(e);
        }
        i += 1;
    }
    assert(views.take(views.len() as int) =~= views);
    Ok(())
}

/// Whether any of some patterns matches any of some paths.
pub open spec fn any_matched(patterns: Seq<Seq<char>>, paths: Seq<Seq<char>>) -> bool {
    exists|i: int, j: int|
        0 <= i < patterns.len() && 0 <= j < paths.len() && #[trigger] glob_matches(
            patterns[i],
            paths[j],
        )
}

pub open spec fn str_views(items: Seq<&str>) -> Seq<Seq<char>> {
    Seq::new(items.len(), |i: int| items[i]@)
}

/// Whether any of some patterns matches any of some paths.
///
/// A malformed pattern is an error, not one that matches nothing: what is to be
/// left out must not be listed because of a typo.
pub fn matches_any(patterns: &Vec<String>, paths: &Vec<&str>) -> (r: Result<bool, GlobError>)
    ensures
        match r {
            Ok(found) => {
                &&& all_accepted(deep(patterns@)) ==> found == any_matched(
                    deep(patterns@),
                    str_views(paths@),
                )
                &&& found ==> any_matched(deep(patterns@), str_views(paths@))
                &&& !found ==> first_bad(deep(patterns@)) is None
            },
            Err(e) => first_bad(deep(patterns@)) == Some(e.pattern_view()) && glob_refusal(
                e.pattern_view(),
            ) == Some(e.reason_view()),
        },
{
    let ghost views = deep(patterns@);
    let ghost names = str_views(paths@);
    let mut i: usize = 0;
    assert(views.take(0) =~= Seq::empty());
    while i < patterns.len()
        invariant
            views == deep(patterns@),
            names == str_views(paths@),
            i <= patterns.len(),
            first_bad(views.take(i as int)) is None,
            forall|a: int, b: int|
                0 <= a < i && 0 <= b < names.len() ==> !#[trigger] glob_matches(
                    views[a],
                    names[b],
                ),
        decreases patterns.len() - i,
    {
        assert(views.take(i as int + 1).drop_last() =~= views.take(i as int));
        let glob = match Glob::compile(patterns[i].as_str()) {
            Ok(glob) => glob,
            Err(e) => {
                proof {
                    lemma_first_bad(views, i as int + 1);
                }
                return Err(e);
            },
        };
        let mut j: usize = 0;
        while j < paths.len()
            invariant
                views == deep(patterns@),
                names == str_views(paths@),
                i < patterns.len(),
                glob.source() == views[i as int],
                j <= paths.len(),
                forall|b: int| 0 <= b < j ==> !#[trigger] glob_matches(views[i as int], names[b]),
            decreases paths.len() - j,
        {
            if glob.is_match(paths[j]) {
                assert(glob_matches(views[i as int], names[j as int]));
                return Ok(true);
            }
            j += 1;
        }
        i += 1;
    }
    assert(views.take(views.len() as int) =~= views);
    Ok(false)
}

// ---------------------------------------------------------------------------
// Entries
// ---------------------------------------------------------------------------

/// One file of a listing.
#[derive(Debug)]
pub struct FileEntry {
    pub path: String,
    pub status: String,
    pub rename: Option<RenameInfo>,
    pub hunks: Vec<Hunk>,
    pub binary: Option<bool>,
    pub mode: Option<ModeChange>,
    /// Set where either side is a symlink.
    pub symlink: Option<bool>,
    /// Set where the contents were cut, so that the hunks tell only of their
    /// beginning.
    pub truncated: Option<bool>,
}

/// One file of a listing, its hunks counted.
#[derive(Debug)]
pub struct FileSummary {
    pub path: String,
    pub status: String,
    pub rename: Option<RenameInfo>,
    pub hunk_count: usize,
    pub binary: Option<bool>,
    pub mode: Option<ModeChange>,
    pub symlink: Option<bool>,
    pub truncated: Option<bool>,
}

#[verifier::ext_equal]
pub struct EntryOut {
    pub path: Seq<char>,
    pub status: Seq<char>,
    pub rename: Option<RenameView>,
    pub hunks: Seq<HunkView>,
    pub binary: Option<bool>,
    pub mode: Option<ModeView>,
    pub symlink: Option<bool>,
    pub truncated: Option<bool>,
}

#[verifier::ext_equal]
pub struct SummaryOut {
    pub path: Seq<char>,
    pub status: Seq<char>,
    pub rename: Option<RenameView>,
    pub hunk_count: nat,
    pub binary: Option<bool>,
    pub mode: Option<ModeView>,
    pub symlink: Option<bool>,
    pub truncated: Option<bool>,
}

impl DeepView for FileEntry {
    type V = EntryOut;

    open spec fn deep_view(&self) -> EntryOut {
        EntryOut {
            path: self.path@,
            status: self.status@,
            rename: self.rename.deep_view(),
            hunks: deep(self.hunks@),
            binary: self.binary,
            mode: self.mode.deep_view(),
            symlink: self.symlink,
            truncated: self.truncated,
        }
    }
}

impl DeepView for FileSummary {
    type V = SummaryOut;

    open spec fn deep_view(&self) -> SummaryOut {
        SummaryOut {
            path: self.path@,
            status: self.status@,
            rename: self.rename.deep_view(),
            hunk_count: self.hunk_count as nat,
            binary: self.binary,
            mode: self.mode.deep_view(),
            symlink: self.symlink,
            truncated: self.truncated,
        }
    }
}

/// A flag that is shown where it is set.
pub open spec fn shown_flag(set: bool) -> Option<bool> {
    if set {
        Some(true)
    } else {
        None
    }
}

fn flag(set: bool) -> (r: Option<bool>)
    ensures
        r == shown_flag(set),
{
    if set {
        Some(true)
    } else {
        None
    }
}

/// A file of a diff as it is listed, with some of its hunks.
pub open spec fn entry_of(f: FileView, hunks: Seq<HunkView>) -> EntryOut {
    EntryOut {
        path: f.path,
        status: f.status,
        rename: f.rename,
        hunks,
        binary: shown_flag(f.is_binary),
        mode: f.mode,
        symlink: shown_flag(f.is_symlink),
        truncated: shown_flag(f.truncated),
    }
}

pub open spec fn decision_for(spec: Option<SpecView>, path: Seq<char>) -> Decision {
    match spec {
        Some(s) => decided(s, path),
        None => Decision::KeepAll,
    }
}

/// Whether the patterns let a file through.
pub open spec fn passes(
    included: Seq<Seq<char>>,
    excluded: Seq<Seq<char>>,
    f: FileView,
) -> bool {
    &&& included.len() == 0 || any_matched(included, names_of(f))
    &&& excluded.len() == 0 || !any_matched(excluded, names_of(f))
}

/// The hunks of a file that are listed.
pub open spec fn listed_hunks(d: Decision, f: FileView) -> Seq<HunkView> {
    match d {
        Decision::KeepSelection { indices, ids } => kept_hunks(
            indices,
            ids,
            f.hunks,
            f.hunks.len(),
        ),
        _ => f.hunks,
    }
}

/// Whether a file is listed: the patterns let it through, the spec keeps some of
/// it, and there is something to show. A change that no hunk tells is always
/// something to show.
pub open spec fn is_listed(
    spec: Option<SpecView>,
    included: Seq<Seq<char>>,
    excluded: Seq<Seq<char>>,
    f: FileView,
) -> bool {
    let d = decision_for(spec, f.path);
    &&& passes(included, excluded, f)
    &&& d !is Skip
    &&& listed_hunks(d, f).len() > 0 || has_hunkless_change(f)
}

/// Whether what the spec names in a file cannot be told apart.
pub open spec fn is_undecided(
    spec: Option<SpecView>,
    included: Seq<Seq<char>>,
    excluded: Seq<Seq<char>>,
    f: FileView,
) -> bool {
    &&& passes(included, excluded, f)
    &&& decision_for(spec, f.path) matches Decision::KeepSelection { ids, .. } && any_ambiguous(
        ids,
        f.hunks,
    )
}

/// The files of a diff that are listed, in order.
pub open spec fn listed_files(
    spec: Option<SpecView>,
    included: Seq<Seq<char>>,
    excluded: Seq<Seq<char>>,
    files: Seq<FileView>,
) -> Seq<EntryOut>
    decreases files.len(),
{
    if files.len() == 0 {
        Seq::empty()
    } else {
        let rest = listed_files(spec, included, excluded, files.drop_last());
        let f = files.last();
        if is_listed(spec, included, excluded, f) {
            rest.push(entry_of(f, listed_hunks(decision_for(spec, f.path), f)))
        } else {
            rest
        }
    }
}

impl Keyed for FileEntry {
    open spec fn key_of(v: EntryOut) -> Seq<char> {
        v.path
    }

    fn key(&self) -> (r: String) {
        self.path.clone()
    }
}

/// The files of a diff as they are listed: in the order of their paths.
pub open spec fn listing_entries(
    spec: Option<SpecView>,
    included: Seq<Seq<char>>,
    excluded: Seq<Seq<char>>,
    files: Seq<FileView>,
) -> Seq<EntryOut> {
    sorted::<FileEntry>(listed_files(spec, included, excluded, files))
}

proof fn lemma_listed_files(
    spec: Option<SpecView>,
    included: Seq<Seq<char>>,
    excluded: Seq<Seq<char>>,
    files: Seq<FileView>,
    e: EntryOut,
)
    ensures
        listed_files(spec, included, excluded, files).contains(e) <==> exists|i: int|
            0 <= i < files.len() && is_listed(spec, included, excluded, #[trigger] files[i]) && e
                == entry_of(files[i], listed_hunks(decision_for(spec, files[i].path), files[i])),
    decreases files.len(),
{
    if files.len() > 0 {
        let rest = files.drop_last();
        let before = listed_files(spec, included, excluded, rest);
        let all = listed_files(spec, included, excluded, files);
        lemma_listed_files(spec, included, excluded, rest, e);
        if exists|i: int|
            0 <= i < files.len() && is_listed(spec, included, excluded, #[trigger] files[i]) && e
                == entry_of(files[i], listed_hunks(decision_for(spec, files[i].path), files[i])) {
            let i = choose|i: int|
                0 <= i < files.len() && is_listed(spec, included, excluded, #[trigger] files[i])
                    && e == entry_of(
                    files[i],
                    listed_hunks(decision_for(spec, files[i].path), files[i]),
                );
            if i < rest.len() {
                assert(rest[i] == files[i]);
                let k = choose|k: int| 0 <= k < before.len() && before[k] == e;
                assert(all[k] == e);
            } else {
                assert(all[all.len() - 1] == e);
            }
        }
        if all.contains(e) {
            let k = choose|k: int| 0 <= k < all.len() && all[k] == e;
            if k < before.len() {
                assert(before[k] == e);
                let i = choose|i: int|
                    0 <= i < rest.len() && is_listed(spec, included, excluded, #[trigger] rest[i])
                        && e == entry_of(
                        rest[i],
                        listed_hunks(decision_for(spec, rest[i].path), rest[i]),
                    );
                assert(files[i] == rest[i]);
            } else {
                assert(files[files.len() - 1] == files.last());
            }
        }
    }
}

/// Whether a file goes by a name that one of some patterns matches. A file that
/// was moved goes by both of its names.
pub open spec fn is_matched(patterns: Seq<Seq<char>>, f: FileView) -> bool {
    exists|i: int|
        0 <= i < patterns.len() && (glob_matches(#[trigger] patterns[i], f.path) || (moved_from(
            f.rename,
            f.path,
        ) matches Some(from) && glob_matches(patterns[i], from)))
}

/// Whether a file is to be shown: it is included, where anything is said of that,
/// it is not excluded, the spec does not skip it, and there is something of it to
/// show.
pub open spec fn is_to_be_shown(
    spec: Option<SpecView>,
    included: Seq<Seq<char>>,
    excluded: Seq<Seq<char>>,
    f: FileView,
    hunks: Seq<HunkView>,
) -> bool {
    &&& included.len() > 0 ==> is_matched(included, f)
    &&& !is_matched(excluded, f)
    &&& spec matches Some(s) ==> !(decided(s, f.path) is Skip)
    &&& hunks.len() > 0 || has_hunkless_change(f)
    &&& match spec {
        None => hunks == f.hunks,
        Some(s) => match decided(s, f.path) {
            Decision::KeepAll => hunks == f.hunks,
            Decision::KeepSelection { indices, ids } => hunks == kept_hunks(
                indices,
                ids,
                f.hunks,
                f.hunks.len(),
            ),
            Decision::Skip => false,
        },
    }
}

proof fn lemma_any_matched(patterns: Seq<Seq<char>>, f: FileView)
    ensures
        any_matched(patterns, names_of(f)) <==> is_matched(patterns, f),
{
    let names = names_of(f);
    if any_matched(patterns, names) {
        let (i, j) = choose|i: int, j: int|
            0 <= i < patterns.len() && 0 <= j < names.len() && #[trigger] glob_matches(
                patterns[i],
                names[j],
            );
        assert(glob_matches(patterns[i], names[j]));
    }
    if is_matched(patterns, f) {
        let i = choose|i: int|
            0 <= i < patterns.len() && (glob_matches(#[trigger] patterns[i], f.path) || (moved_from(
                f.rename,
                f.path,
            ) matches Some(from) && glob_matches(patterns[i], from)));
        if glob_matches(patterns[i], f.path) {
            assert(names[0] == f.path);
            assert(glob_matches(patterns[i], names[0]));
        } else {
            assert(glob_matches(patterns[i], names[1]));
        }
    }
}

/// A file is listed exactly where it is to be shown, with just the hunks that are
/// kept of it. Exclusion wins over inclusion, and a pattern that matches either
/// name of a moved file matches the file.
pub proof fn a_listing_shows_what_is_to_be_shown(
    spec: Option<SpecView>,
    included: Seq<Seq<char>>,
    excluded: Seq<Seq<char>>,
    files: Seq<FileView>,
    e: EntryOut,
)
    ensures
        listing_entries(spec, included, excluded, files).contains(e) <==> exists|i: int|
            0 <= i < files.len() && is_to_be_shown(
                spec,
                included,
                excluded,
                #[trigger] files[i],
                e.hunks,
            ) && e == entry_of(files[i], e.hunks),
{
    let raw = listed_files(spec, included, excluded, files);
    let shown = listing_entries(spec, included, excluded, files);
    crate::names::sorting_orders_and_keeps_everything::<FileEntry>(raw);
    raw.to_multiset_ensures();
    shown.to_multiset_ensures();
    assert(shown.contains(e) <==> shown.to_multiset().count(e) > 0);
    assert(raw.contains(e) <==> raw.to_multiset().count(e) > 0);
    lemma_listed_files(spec, included, excluded, files, e);
    assert forall|i: int| 0 <= i < files.len() implies (is_listed(
        spec,
        included,
        excluded,
        #[trigger] files[i],
    ) && e == entry_of(files[i], listed_hunks(decision_for(spec, files[i].path), files[i])) <==> (
    is_to_be_shown(spec, included, excluded, files[i], e.hunks) && e == entry_of(
        files[i],
        e.hunks,
    ))) by {
        lemma_any_matched(included, files[i]);
        lemma_any_matched(excluded, files[i]);
    }
}

/// What is listed of a file says of it what the diff does; a mark stands there
/// exactly where it applies.
pub proof fn an_entry_tells_of_its_file(f: FileView, hunks: Seq<HunkView>)
    ensures
        ({
            let e = entry_of(f, hunks);
            &&& e.path == f.path && e.status == f.status && e.rename == f.rename && e.mode == f.mode
            &&& e.hunks == hunks
            &&& (e.binary is Some <==> f.is_binary) && e.binary != Some(false)
            &&& (e.symlink is Some <==> f.is_symlink) && e.symlink != Some(false)
            &&& (e.truncated is Some <==> f.truncated) && e.truncated != Some(false)
            &&& summary_of(e).hunk_count == hunks.len()
            &&& summary_of(e).path == f.path && summary_of(e).status == f.status
        }),
{
}

/// The patterns that count are those that are not blank, each without the white
/// space around it.
pub proof fn a_blank_pattern_does_not_count(patterns: Seq<Seq<char>>, p: Seq<char>)
    ensures
        trimmed_patterns(patterns).contains(p) <==> p.len() > 0 && exists|i: int|
            0 <= i < patterns.len() && trimmed(#[trigger] patterns[i]) == p,
    decreases patterns.len(),
{
    if patterns.len() > 0 {
        let rest = patterns.drop_last();
        let before = trimmed_patterns(rest);
        let all = trimmed_patterns(patterns);
        a_blank_pattern_does_not_count(rest, p);
        if p.len() > 0 && exists|i: int|
            0 <= i < patterns.len() && trimmed(#[trigger] patterns[i]) == p {
            let i = choose|i: int| 0 <= i < patterns.len() && trimmed(#[trigger] patterns[i]) == p;
            if i < rest.len() {
                assert(rest[i] == patterns[i]);
                let k = choose|k: int| 0 <= k < before.len() && before[k] == p;
                assert(all[k] == p);
            } else {
                assert(all[all.len() - 1] == p);
            }
        }
        if all.contains(p) {
            let k = choose|k: int| 0 <= k < all.len() && all[k] == p;
            if k < before.len() {
                assert(before[k] == p);
                let i = choose|i: int| 0 <= i < rest.len() && trimmed(#[trigger] rest[i]) == p;
                assert(patterns[i] == rest[i]);
            } else {
                assert(trimmed(patterns[patterns.len() - 1]) == p);
            }
        }
    }
}

/// The pattern that is reported is refused, and none in front of it is; where
/// none is reported, none is refused.
pub proof fn the_first_bad_pattern_is_reported(patterns: Seq<Seq<char>>)
    ensures
        match first_bad(patterns) {
            Some(p) => exists|i: int|
                {
                    &&& 0 <= i < patterns.len()
                    &&& #[trigger] patterns[i] == p
                    &&& glob_refusal(p) is Some
                    &&& forall|j: int| 0 <= j < i ==> glob_refusal(#[trigger] patterns[j]) is None
                },
            None => all_accepted(patterns),
        },
    decreases patterns.len(),
{
    if patterns.len() > 0 {
        let rest = patterns.drop_last();
        let last = patterns.len() - 1;
        the_first_bad_pattern_is_reported(rest);
        assert forall|j: int| 0 <= j < rest.len() implies #[trigger] rest[j] == patterns[j] by {}
        match first_bad(rest) {
            Some(p) => {
                let i = choose|i: int|
                    {
                        &&& 0 <= i < rest.len()
                        &&& #[trigger] rest[i] == p
                        &&& glob_refusal(p) is Some
                        &&& forall|j: int| 0 <= j < i ==> glob_refusal(#[trigger] rest[j]) is None
                    };
                assert(patterns[i] == p);
                assert forall|j: int| 0 <= j < i implies glob_refusal(#[trigger] patterns[j])
                    is None by {
                    assert(glob_refusal(rest[j]) is None);
                }
            },
            None => {
                assert forall|j: int| 0 <= j < last implies glob_refusal(#[trigger] patterns[j])
                    is None by {
                    assert(glob_refusal(rest[j]) is None);
                }
                assert(patterns[last] == patterns.last());
            },
        }
    }
}

/// A listing is in the order of its paths, and holds every file that is listed
/// and no other, each as often as it was there.
pub proof fn a_listing_is_in_the_order_of_its_paths(
    spec: Option<SpecView>,
    included: Seq<Seq<char>>,
    excluded: Seq<Seq<char>>,
    files: Seq<FileView>,
)
    ensures
        ({
            let shown = listing_entries(spec, included, excluded, files);
            &&& forall|i: int, j: int|
                0 <= i < j < shown.len() ==> !less(
                    (#[trigger] shown[j]).path,
                    (#[trigger] shown[i]).path,
                )
            &&& shown.to_multiset() == listed_files(
                spec,
                included,
                excluded,
                files,
            ).to_multiset()
        }),
{
    let shown = listing_entries(spec, included, excluded, files);
    sorting_orders_and_keeps_everything::<FileEntry>(
        listed_files(spec, included, excluded, files),
    );
    let keys = keys_of::<FileEntry>(shown);
    assert forall|i: int, j: int| 0 <= i < j < shown.len() implies !less(
        (#[trigger] shown[j]).path,
        (#[trigger] shown[i]).path,
    ) by {
        assert(!less(keys[j], keys[i]));
    }
}

/// What is wrong with a selection, in one file.
#[derive(Debug)]
pub struct UndecidedFile {
    pub path: String,
    pub error: AmbiguousId,
}

impl UndecidedFile {
    /// Whether this reports the first file of a diff in which what the spec
    /// names cannot be told apart.
    pub open spec fn is_first(
        &self,
        spec: Option<SpecView>,
        included: Seq<Seq<char>>,
        excluded: Seq<Seq<char>>,
        files: Seq<FileView>,
    ) -> bool {
        exists|k: int|
            {
                &&& 0 <= k < files.len()
                &&& is_undecided(spec, included, excluded, #[trigger] files[k])
                &&& files[k].path == self.path@
                &&& decision_for(spec, files[k].path) matches Decision::KeepSelection { ids, .. }
                    && reports_ambiguity(ids, files[k].hunks, self.error)
                &&& forall|j: int|
                    0 <= j < k ==> !is_undecided(spec, included, excluded, #[trigger] files[j])
            }
    }

    pub open spec fn text(&self) -> Seq<char> {
        "cannot resolve the selection for "@ + self.path@ + ": "@ + self.error.text()
    }

    pub fn message(&self) -> (r: String)
        ensures
            r@ == self.text(),
    {
        let mut out = concat3("cannot resolve the selection for ", self.path.as_str(), ": ");
        out.append(self.error.message().as_str());
        out
    }
}

/// The files of a diff that are listed, in order.
pub(crate) fn select_files(
    spec: Option<&Spec>,
    included: &Vec<String>,
    excluded: &Vec<String>,
    files: Vec<FileHunks>,
) -> (r: Result<Vec<FileEntry>, UndecidedFile>)
    requires
        all_accepted(deep(included@)),
        all_accepted(deep(excluded@)),
    ensures
        ({
            let s = spec_view(spec);
            let inc = deep(included@);
            let exc = deep(excluded@);
            let all = deep(files@);
            match r {
                Ok(entries) => deep(entries@) == listed_files(s, inc, exc, all) && forall|j: int|
                    0 <= j < all.len() ==> !is_undecided(s, inc, exc, #[trigger] all[j]),
                Err(e) => e.is_first(s, inc, exc, all),
            }
        }),
{
    broadcast use group_deep;

    let ghost s = spec_view(spec);
    let ghost inc = deep(included@);
    let ghost exc = deep(excluded@);
    let ghost all = deep(files@);
    let ghost held = files@;
    let mut pending = files;
    let mut turned: Vec<FileHunks> = Vec::new();
    while pending.len() > 0
        invariant
            all == deep(held),
            pending@.len() + turned@.len() == held.len(),
            pending@ == held.take(pending@.len() as int),
            forall|i: int| 0 <= i < turned@.len() ==> turned@[i] == held[held.len() - 1 - i],
        decreases pending.len(),
    {
        let ghost n = pending@.len() as int;
        let one = pending.pop().unwrap();
        assert(pending@ =~= held.take(n - 1));
        assert(one == held[n - 1]);
        turned.push(one);
    }
    let mut entries: Vec<FileEntry> = Vec::new();
    assert(all.take(0) =~= Seq::empty());
    while turned.len() > 0
        invariant
            s == spec_view(spec),
            inc == deep(included@),
            exc == deep(excluded@),
            all_accepted(inc),
            all_accepted(exc),
            all == deep(held),
            all == deep(files@),
            turned@.len() <= held.len(),
            forall|i: int| 0 <= i < turned@.len() ==> turned@[i] == held[held.len() - 1 - i],
            deep(entries@) == listed_files(s, inc, exc, all.take(held.len() - turned@.len())),
            forall|j: int|
                0 <= j < held.len() - turned@.len() ==> !is_undecided(
                    s,
                    inc,
                    exc,
                    #[trigger] all[j],
                ),
        decreases turned.len(),
    {
        let ghost at = held.len() - turned@.len();
        let file = turned.pop().unwrap();
        let ghost f = all[at];
        assert(file.deep_view() == f);
        assert(all.take(at + 1).drop_last() =~= all.take(at));
        match list_file(spec, included, excluded, file) {
            Ok(Some(entry)) => {
                entries.push(entry);
            },
            Ok(None) => {},
            Err(e) => {
                assert(is_undecided(s, inc, exc, all[at]));
                return Err(e);
            },
        }
    }
    assert(all.take(all.len() as int) =~= all);
    Ok(entries)
}

pub open spec fn spec_view(spec: Option<&Spec>) -> Option<SpecView> {
    match spec {
        Some(s) => Some(s.deep_view()),
        None => None,
    }
}

fn list_file(
    spec: Option<&Spec>,
    included: &Vec<String>,
    excluded: &Vec<String>,
    file: FileHunks,
) -> (r: Result<Option<FileEntry>, UndecidedFile>)
    requires
        all_accepted(deep(included@)),
        all_accepted(deep(excluded@)),
    ensures
        ({
            let s = spec_view(spec);
            let inc = deep(included@);
            let exc = deep(excluded@);
            let f = file.deep_view();
            match r {
                Ok(entry) => !is_undecided(s, inc, exc, f) && entry.deep_view() == (if is_listed(
                    s,
                    inc,
                    exc,
                    f,
                ) {
                    Some(entry_of(f, listed_hunks(decision_for(s, f.path), f)))
                } else {
                    None
                }),
                Err(e) => is_undecided(s, inc, exc, f) && e.path@ == f.path && (decision_for(
                    s,
                    f.path,
                ) matches Decision::KeepSelection { ids, .. } && reports_ambiguity(
                    ids,
                    f.hunks,
                    e.error,
                )),
            }
        }),
{
    let ghost f = file.deep_view();
    let paths = file.all_paths();
    assert(str_views(paths@) =~= names_of(f));
    if included.len() > 0 {
        match matches_any(included, &paths) {
            Ok(true) => {},
            Ok(false) => {
                return Ok(None);
            },
            Err(_) => {
                proof {
                    lemma_accepted(deep(included@));
                }
                return Ok(None);
            },
        }
    }
    if excluded.len() > 0 {
        match matches_any(excluded, &paths) {
            Ok(false) => {},
            Ok(true) => {
                return Ok(None);
            },
            Err(_) => {
                proof {
                    lemma_accepted(deep(excluded@));
                }
                return Ok(None);
            },
        }
    }
    let decision = spec_decision(spec, file.path.as_str());
    let hunkless = file.changes_without_hunks();
    let hunks = match &decision {
        SpecDecision::Skip => {
            return Ok(None);
        },
        SpecDecision::KeepAll => file.hunks,
        SpecDecision::KeepSelection(selection) => match filter_hunks(file.hunks, selection) {
            Ok(kept) => kept,
            Err(error) => {
                proof {
                    lemma_reported_is_ambiguous(selection.ids@, f.hunks, error);
                }
                return Err(UndecidedFile { path: file.path, error });
            },
        },
    };
    if hunks.len() == 0 && !hunkless {
        return Ok(None);
    }
    Ok(
        Some(
            FileEntry {
                path: file.path,
                status: file.status,
                rename: file.rename,
                hunks,
                binary: flag(file.is_binary),
                mode: file.mode,
                symlink: flag(file.is_symlink),
                truncated: flag(file.truncated),
            },
        ),
    )
}

proof fn lemma_accepted(patterns: Seq<Seq<char>>)
    requires
        all_accepted(patterns),
    ensures
        first_bad(patterns) is None,
    decreases patterns.len(),
{
    if patterns.len() > 0 {
        let front = patterns.drop_last();
        assert forall|i: int| 0 <= i < front.len() implies glob_refusal(
            #[trigger] front[i],
        ) is None by {
            assert(front[i] == patterns[i]);
        }
        lemma_accepted(front);
        assert(glob_refusal(patterns[patterns.len() - 1]) is None);
    }
}

proof fn lemma_reported_is_ambiguous(ids: Set<Seq<char>>, hunks: Seq<HunkView>, e: AmbiguousId)
    requires
        reports_ambiguity(ids, hunks, e),
    ensures
        any_ambiguous(ids, hunks),
{
    assert(ids.contains(e.id@));
}

// ---------------------------------------------------------------------------
// Groups
// ---------------------------------------------------------------------------

/// A path without the separators and the `.` components it ends with.
pub open spec fn trim_tail(s: Seq<char>) -> Seq<char>
    decreases s.len(),
{
    if s.len() > 1 && s.last() == '/' {
        trim_tail(s.drop_last())
    } else if s.len() > 1 && s.last() == '.' && s[s.len() - 2] == '/' {
        trim_tail(s.drop_last())
    } else {
        s
    }
}

/// The path without its last component, where it has one.
pub open spec fn parent_of(path: Seq<char>) -> Option<Seq<char>> {
    let t = trim_tail(path);
    if t.len() == 0 || t == "/"@ {
        None
    } else {
        Some(trim_tail(t.take(last_at(t, '/') + 1)))
    }
}

/// The directory a path is grouped under.
pub open spec fn directory_of(path: Seq<char>) -> Seq<char> {
    match parent_of(path) {
        Some(parent) if parent.len() > 0 => parent,
        _ => "."@,
    }
}

fn tail_start(chars: &Vec<char>, end: usize) -> (n: usize)
    requires
        end <= chars.len(),
    ensures
        n <= end,
        chars@.take(n as int) == trim_tail(chars@.take(end as int)),
{
    let mut n: usize = end;
    while n > 1 && (chars[n - 1] == '/' || (chars[n - 1] == '.' && chars[n - 2] == '/'))
        invariant
            n <= end <= chars.len(),
            trim_tail(chars@.take(n as int)) == trim_tail(chars@.take(end as int)),
        decreases n,
    {
        assert(chars@.take(n as int).drop_last() =~= chars@.take(n as int - 1));
        n -= 1;
    }
    n
}

/// The directory a path is grouped under: the path without its last component,
/// and `.` where nothing is left.
pub fn directory_group(path: &str) -> (r: String)
    ensures
        r@ == directory_of(path@),
{
    let chars = chars_of(path);
    assert(chars@.take(chars@.len() as int) =~= chars@);
    let end = tail_start(&chars, chars.len());
    let ghost t = trim_tail(path@);
    proof {
        reveal_strlit("/");
    }
    if end == 0 {
        return ".".to_owned();
    }
    if end == 1 && chars[0] == '/' {
        assert(t =~= "/"@);
        return ".".to_owned();
    }
    assert(t != "/"@) by {
        assert(t.len() == end);
        if t == "/"@ {
            assert(t.len() == 1);
            assert(chars@[0] == t[0]);
        }
    }
    let mut at: usize = end;
    assert(t.take(at as int) =~= t);
    while at > 0 && chars[at - 1] != '/'
        invariant
            t == chars@.take(end as int),
            at <= end <= chars.len(),
            last_at(t, '/') == last_at(t.take(at as int), '/'),
        decreases at,
    {
        assert(t.take(at as int).drop_last() =~= t.take(at as int - 1));
        at -= 1;
    }
    assert(last_at(t.take(at as int), '/') == at - 1);
    assert(t.take(at as int) =~= chars@.take(at as int));
    let n = tail_start(&chars, at);
    if n == 0 {
        return ".".to_owned();
    }
    let r = string_of(&chars, 0, n);
    assert(r@ =~= chars@.take(n as int));
    r
}

/// The extension a path is grouped under.
pub open spec fn extension_name(path: Seq<char>) -> Seq<char> {
    match extension_of(path) {
        Some(ext) => ext,
        None => "<no-ext>"@,
    }
}

pub fn extension_group(path: &str) -> (r: String)
    ensures
        r@ == extension_name(path@),
{
    match extension(path) {
        Some(ext) => ext,
        None => "<no-ext>".to_owned(),
    }
}

/// Something with a path and a status.
pub trait Filed: DeepView {
    spec fn path_in(v: Self::V) -> Seq<char>;

    spec fn status_in(v: Self::V) -> Seq<char>;

    fn path(&self) -> (r: &str)
        ensures
            r@ == Self::path_in(self.deep_view()),
    ;

    fn status(&self) -> (r: &str)
        ensures
            r@ == Self::status_in(self.deep_view()),
    ;
}

impl Filed for FileEntry {
    open spec fn path_in(v: EntryOut) -> Seq<char> {
        v.path
    }

    open spec fn status_in(v: EntryOut) -> Seq<char> {
        v.status
    }

    fn path(&self) -> (r: &str) {
        self.path.as_str()
    }

    fn status(&self) -> (r: &str) {
        self.status.as_str()
    }
}

impl Filed for FileSummary {
    open spec fn path_in(v: SummaryOut) -> Seq<char> {
        v.path
    }

    open spec fn status_in(v: SummaryOut) -> Seq<char> {
        v.status
    }

    fn path(&self) -> (r: &str) {
        self.path.as_str()
    }

    fn status(&self) -> (r: &str) {
        self.status.as_str()
    }
}

/// Files under one name.
#[derive(Debug)]
pub struct ListGroup<T> {
    pub name: String,
    pub files: Vec<T>,
}

#[verifier::ext_equal]
pub struct GroupView<V> {
    pub name: Seq<char>,
    pub files: Seq<V>,
}

impl<T: DeepView> DeepView for ListGroup<T> {
    type V = GroupView<T::V>;

    open spec fn deep_view(&self) -> GroupView<T::V> {
        GroupView { name: self.name@, files: deep(self.files@) }
    }
}

/// The name a file is grouped under.
pub open spec fn group_key<T: Filed>(grouping: ListGrouping, v: T::V) -> Seq<char> {
    match grouping {
        ListGrouping::Directory => directory_of(T::path_in(v)),
        ListGrouping::Extension => extension_name(T::path_in(v)),
        ListGrouping::Status => T::status_in(v),
        ListGrouping::Ungrouped => Seq::empty(),
    }
}

/// Where the group with a name is among some; their number where it is not.
pub open spec fn group_at<V>(groups: Seq<GroupView<V>>, name: Seq<char>) -> int
    decreases groups.len(),
{
    if groups.len() == 0 {
        0
    } else if group_at(groups.drop_last(), name) < groups.len() - 1 {
        group_at(groups.drop_last(), name)
    } else if groups.last().name == name {
        groups.len() - 1
    } else {
        groups.len() as int
    }
}

/// Groups with one file more: in the group with its name, or in a new one.
pub open spec fn with_file<V>(groups: Seq<GroupView<V>>, name: Seq<char>, file: V) -> Seq<
    GroupView<V>,
> {
    let at = group_at(groups, name);
    if at < groups.len() {
        groups.update(at, GroupView { name, files: groups[at].files.push(file) })
    } else {
        groups.push(GroupView { name, files: seq![file] })
    }
}

/// Files in groups, in the order in which each group's first file came.
pub open spec fn grouped<T: Filed>(files: Seq<T::V>, grouping: ListGrouping) -> Seq<
    GroupView<T::V>,
>
    decreases files.len(),
{
    if files.len() == 0 {
        Seq::empty()
    } else {
        with_file(
            grouped::<T>(files.drop_last(), grouping),
            group_key::<T>(grouping, files.last()),
            files.last(),
        )
    }
}

proof fn lemma_group_at<V>(groups: Seq<GroupView<V>>, name: Seq<char>)
    ensures
        0 <= group_at(groups, name) <= groups.len(),
        group_at(groups, name) < groups.len() ==> groups[group_at(groups, name)].name == name,
        forall|i: int| 0 <= i < group_at(groups, name) ==> (#[trigger] groups[i]).name != name,
    decreases groups.len(),
{
    if groups.len() > 0 {
        let front = groups.drop_last();
        lemma_group_at(front, name);
        assert forall|i: int| 0 <= i < group_at(groups, name) implies (#[trigger] groups[i]).name
            != name by {
            if i < front.len() {
                assert(front[i] == groups[i]);
            }
        }
    }
}

proof fn lemma_group_is_at<V>(groups: Seq<GroupView<V>>, name: Seq<char>, n: int)
    requires
        0 <= n <= groups.len(),
        n < groups.len() ==> groups[n].name == name,
        forall|i: int| 0 <= i < n ==> (#[trigger] groups[i]).name != name,
    ensures
        group_at(groups, name) == n,
{
    lemma_group_at(groups, name);
    let at = group_at(groups, name);
    if at < n {
        assert(groups[at].name != name);
    } else if n < at {
        assert(groups[n].name != name);
    }
}

fn find_group<T: DeepView>(groups: &Vec<ListGroup<T>>, name: &str) -> (n: usize)
    ensures
        n == group_at(deep(groups@), name@),
        n <= groups@.len(),
{
    let ghost views = deep(groups@);
    let mut i: usize = 0;
    while i < groups.len() && !same(groups[i].name.as_str(), name)
        invariant
            views == deep(groups@),
            i <= groups.len(),
            forall|j: int| 0 <= j < i ==> (#[trigger] views[j]).name != name@,
        decreases groups.len() - i,
    {
        i += 1;
    }
    proof {
        lemma_group_is_at(views, name@, i as int);
    }
    i
}

fn key_for<T: Filed>(file: &T, grouping: ListGrouping) -> (r: String)
    ensures
        r@ == group_key::<T>(grouping, file.deep_view()),
{
    match grouping {
        ListGrouping::Directory => directory_group(file.path()),
        ListGrouping::Extension => extension_group(file.path()),
        ListGrouping::Status => file.status().to_owned(),
        ListGrouping::Ungrouped => {
            let r = String::new();
            assert(r@ =~= Seq::empty());
            r
        },
    }
}

/// Put files in groups, in the order in which each group's first file comes.
pub fn group_files<T: Filed>(files: Vec<T>, grouping: ListGrouping) -> (groups: Vec<ListGroup<T>>)
    ensures
        deep(groups@) == grouped::<T>(deep(files@), grouping),
{
    broadcast use group_deep;

    let ghost all = deep(files@);
    let ghost held = files@;
    let mut pending = files;
    let mut turned: Vec<T> = Vec::new();
    while pending.len() > 0
        invariant
            all == deep(held),
            pending@.len() + turned@.len() == held.len(),
            pending@ == held.take(pending@.len() as int),
            forall|i: int| 0 <= i < turned@.len() ==> turned@[i] == held[held.len() - 1 - i],
        decreases pending.len(),
    {
        let ghost n = pending@.len() as int;
        let one = pending.pop().unwrap();
        assert(pending@ =~= held.take(n - 1));
        assert(one == held[n - 1]);
        turned.push(one);
    }
    let mut groups: Vec<ListGroup<T>> = Vec::new();
    assert(all.take(0) =~= Seq::empty());
    assert(deep(groups@) =~= Seq::empty());
    while turned.len() > 0
        invariant
            all == deep(held),
            turned@.len() <= held.len(),
            forall|i: int| 0 <= i < turned@.len() ==> turned@[i] == held[held.len() - 1 - i],
            deep(groups@) == grouped::<T>(all.take(held.len() - turned@.len()), grouping),
        decreases turned.len(),
    {
        let ghost at = held.len() - turned@.len();
        let file = turned.pop().unwrap();
        assert(file.deep_view() == all[at]);
        assert(all.take(at + 1).drop_last() =~= all.take(at));
        let key = key_for(&file, grouping);
        let n = find_group(&groups, key.as_str());
        let ghost before = deep(groups@);
        let ghost shown = file.deep_view();
        if n < groups.len() {
            let mut members: Vec<T> = Vec::new();
            std::mem::swap(&mut members, &mut groups[n].files);
            let ghost was = members@;
            assert(deep(was) == before[n as int].files);
            members.push(file);
            let ghost now = members@;
            groups[n].files = members;
            proof {
                lemma_group_at(before, key@);
                assert(deep(now) == deep(was).push(shown));
                assert(groups@[n as int].deep_view() == (GroupView {
                    name: key@,
                    files: before[n as int].files.push(shown),
                }));
                assert(deep(groups@) =~= before.update(
                    n as int,
                    GroupView { name: key@, files: before[n as int].files.push(shown) },
                ));
            }
        } else {
            let mut members: Vec<T> = Vec::new();
            members.push(file);
            assert(deep(members@) =~= seq![shown]);
            groups.push(ListGroup { name: key, files: members });
        }
    }
    assert(all.take(all.len() as int) =~= all);
    groups
}

/// Every file of a group belongs there, and no two groups have one name.
pub proof fn groups_are_distinct_and_hold_their_own<T: Filed>(
    files: Seq<T::V>,
    grouping: ListGrouping,
)
    ensures
        forall|i: int, j: int|
            0 <= i < j < grouped::<T>(files, grouping).len() ==> (#[trigger] grouped::<T>(
                files,
                grouping,
            )[i]).name != (#[trigger] grouped::<T>(files, grouping)[j]).name,
        forall|i: int, k: int|
            #![trigger grouped::<T>(files, grouping)[i].files[k]]
            0 <= i < grouped::<T>(files, grouping).len() && 0 <= k < grouped::<T>(
                files,
                grouping,
            )[i].files.len() ==> group_key::<T>(
                grouping,
                grouped::<T>(files, grouping)[i].files[k],
            ) == grouped::<T>(files, grouping)[i].name,
    decreases files.len(),
{
    if files.len() > 0 {
        groups_are_distinct_and_hold_their_own::<T>(files.drop_last(), grouping);
        let before = grouped::<T>(files.drop_last(), grouping);
        let name = group_key::<T>(grouping, files.last());
        let after = with_file(before, name, files.last());
        lemma_group_at(before, name);
        let at = group_at(before, name);
        assert forall|i: int, k: int|
            #![trigger after[i].files[k]]
            0 <= i < after.len() && 0 <= k < after[i].files.len() implies group_key::<T>(
            grouping,
            after[i].files[k],
        ) == after[i].name by {
            if i != at {
                assert(after[i].files[k] == before[i].files[k]);
            } else if at < before.len() && k < before[i].files.len() {
                assert(after[i].files[k] == before[i].files[k]);
            }
        }
        assert forall|i: int, j: int| 0 <= i < j < after.len() implies (#[trigger] after[i]).name
            != (#[trigger] after[j]).name by {
            if j < before.len() {
                assert(before[i].name != before[j].name);
            } else {
                assert(before[i].name != name);
            }
        }
    }
}

/// How many files some groups hold.
pub open spec fn held_in<V>(groups: Seq<GroupView<V>>) -> nat
    decreases groups.len(),
{
    if groups.len() == 0 {
        0
    } else {
        held_in(groups.drop_last()) + groups.last().files.len()
    }
}

proof fn lemma_held_update<V>(groups: Seq<GroupView<V>>, at: int, g: GroupView<V>)
    requires
        0 <= at < groups.len(),
        g.files.len() == groups[at].files.len() + 1,
    ensures
        held_in(groups.update(at, g)) == held_in(groups) + 1,
    decreases groups.len(),
{
    let now = groups.update(at, g);
    if at == groups.len() - 1 {
        assert(now.drop_last() =~= groups.drop_last());
    } else {
        assert(now.drop_last() =~= groups.drop_last().update(at, g));
        lemma_held_update(groups.drop_last(), at, g);
    }
}

/// Grouping loses no file and repeats none.
pub proof fn grouping_keeps_the_number_of_files<T: Filed>(
    files: Seq<T::V>,
    grouping: ListGrouping,
)
    ensures
        held_in(grouped::<T>(files, grouping)) == files.len(),
    decreases files.len(),
{
    if files.len() > 0 {
        grouping_keeps_the_number_of_files::<T>(files.drop_last(), grouping);
        let before = grouped::<T>(files.drop_last(), grouping);
        let name = group_key::<T>(grouping, files.last());
        lemma_group_at(before, name);
        let at = group_at(before, name);
        if at < before.len() {
            lemma_held_update(
                before,
                at,
                GroupView { name, files: before[at].files.push(files.last()) },
            );
        } else {
            let g = GroupView { name, files: seq![files.last()] };
            assert(before.push(g).drop_last() =~= before);
        }
    }
}

// ---------------------------------------------------------------------------
// Summaries
// ---------------------------------------------------------------------------

/// Files, or files in groups: one of the two.
#[derive(Debug)]
pub struct ListOutput<T> {
    pub files: Option<Vec<T>>,
    pub groups: Option<Vec<ListGroup<T>>>,
}

impl<T: Filed> ListOutput<T> {
    /// Whether this is some files as a grouping asks for.
    pub open spec fn shows(&self, files: Seq<T::V>, grouping: ListGrouping) -> bool {
        if grouping == ListGrouping::Ungrouped {
            self.groups is None && (self.files matches Some(f) && deep(f@) == files)
        } else {
            self.files is None && (self.groups matches Some(g) && deep(g@) == grouped::<T>(
                files,
                grouping,
            ))
        }
    }
}

/// Files as a grouping asks for.
pub fn build_output<T: Filed>(files: Vec<T>, grouping: ListGrouping) -> (r: ListOutput<T>)
    ensures
        r.shows(deep(files@), grouping),
{
    if grouping == ListGrouping::Ungrouped {
        ListOutput { files: Some(files), groups: None }
    } else {
        ListOutput { files: None, groups: Some(group_files(files, grouping)) }
    }
}

/// A file, its hunks counted.
pub open spec fn summary_of(e: EntryOut) -> SummaryOut {
    SummaryOut {
        path: e.path,
        status: e.status,
        rename: e.rename,
        hunk_count: e.hunks.len(),
        binary: e.binary,
        mode: e.mode,
        symlink: e.symlink,
        truncated: e.truncated,
    }
}

pub open spec fn summaries_of(entries: Seq<EntryOut>) -> Seq<SummaryOut> {
    Seq::new(entries.len(), |i: int| summary_of(entries[i]))
}

/// The files of a listing, their hunks counted.
pub fn build_summary_output(files: Vec<FileEntry>, grouping: ListGrouping) -> (r: ListOutput<
    FileSummary,
>)
    ensures
        r.shows(summaries_of(deep(files@)), grouping),
{
    let ghost all = deep(files@);
    let mut summaries: Vec<FileSummary> = Vec::new();
    let mut i: usize = 0;
    while i < files.len()
        invariant
            all == deep(files@),
            i <= files.len(),
            summaries@.len() == i,
            forall|j: int|
                0 <= j < i ==> (#[trigger] summaries@[j]).deep_view() == summary_of(all[j]),
        decreases files.len() - i,
    {
        let file = &files[i];
        assert(all[i as int] == file.deep_view());
        let rename = match &file.rename {
            Some(rename) => Some(rename.copied()),
            None => None,
        };
        let one = FileSummary {
            path: file.path.clone(),
            status: file.status.clone(),
            rename,
            hunk_count: file.hunks.len(),
            binary: file.binary,
            mode: file.mode,
            symlink: file.symlink,
            truncated: file.truncated,
        };
        assert(one.deep_view() == summary_of(all[i as int]));
        summaries.push(one);
        i += 1;
    }
    assert(deep(summaries@) =~= summaries_of(all));
    build_output(summaries, grouping)
}

// ---------------------------------------------------------------------------
// Templates
// ---------------------------------------------------------------------------

/// What a template has for one file.
#[derive(Debug)]
pub enum SpecTemplateEntry {
    Ids { ids: Vec<String>, from: Option<String> },
    Action { action: String, from: Option<String> },
}

/// A spec that keeps everything that is listed, for a person to edit.
#[derive(Debug)]
pub struct SpecTemplateOutput {
    pub files: NameMap<SpecTemplateEntry>,
    pub default: &'static str,
}

#[verifier::ext_equal]
pub enum TemplateEntryView {
    Ids { ids: Seq<Seq<char>>, from: Option<Seq<char>> },
    Action { action: Seq<char>, from: Option<Seq<char>> },
}

impl DeepView for SpecTemplateEntry {
    type V = TemplateEntryView;

    open spec fn deep_view(&self) -> TemplateEntryView {
        match self {
            SpecTemplateEntry::Ids { ids, from } => TemplateEntryView::Ids {
                ids: deep(ids@),
                from: from.deep_view(),
            },
            SpecTemplateEntry::Action { action, from } => TemplateEntryView::Action {
                action: action@,
                from: from.deep_view(),
            },
        }
    }
}

pub open spec fn short_ids(hunks: Seq<HunkView>) -> Seq<Seq<char>> {
    Seq::new(hunks.len(), |i: int| hunks[i].short_id)
}

/// What a template has for a file: the short ids of its hunks, or, where it
/// cannot be taken apart, that it is kept.
pub open spec fn template_entry(e: EntryOut) -> TemplateEntryView {
    let from = moved_from(e.rename, e.path);
    if e.binary == Some(true) || e.hunks.len() == 0 {
        TemplateEntryView::Action { action: "keep"@, from }
    } else {
        TemplateEntryView::Ids { ids: short_ids(e.hunks), from }
    }
}

/// What a template has for some files; for the last of several with one path.
pub open spec fn template_of(entries: Seq<EntryOut>) -> Map<Seq<char>, TemplateEntryView>
    decreases entries.len(),
{
    if entries.len() == 0 {
        Map::empty()
    } else {
        template_of(entries.drop_last()).insert(
            entries.last().path,
            template_entry(entries.last()),
        )
    }
}

/// The paths of the files that were cut.
pub open spec fn cut_paths(entries: Seq<EntryOut>) -> Seq<Seq<char>>
    decreases entries.len(),
{
    if entries.len() == 0 {
        Seq::empty()
    } else if entries.last().truncated == Some(true) {
        cut_paths(entries.drop_last()).push(entries.last().path)
    } else {
        cut_paths(entries.drop_last())
    }
}

/// The error for a template over files that were cut.
pub open spec fn cut_template(paths: Seq<Seq<char>>) -> CodedView {
    CodedView {
        code: Code::TruncatedSpecTemplate,
        message: "cannot build a spec template from truncated files:\n  "@ + joined(paths, "\n  "@)
            + "\nHunk ids are computed from the file contents, so ids taken from a truncated file will not match the real diff.\nDrop --max-bytes/--max-lines to template these files."@,
        details: no_details().insert("paths"@, texts_node(paths)),
    }
}

/// The left-hand path of a rename or a copy, where it is another path.
pub fn rename_source(rename: &Option<RenameInfo>, path: &str) -> (r: Option<String>)
    ensures
        r.deep_view() == moved_from(rename.deep_view(), path@),
{
    match rename {
        Some(r) => if same(r.from.as_str(), path) {
            None
        } else {
            Some(r.from.clone())
        },
        None => None,
    }
}

fn short_id_list(hunks: &Vec<Hunk>) -> (out: Vec<String>)
    ensures
        deep(out@) == short_ids(deep(hunks@)),
{
    let mut out: Vec<String> = Vec::new();
    let mut i: usize = 0;
    while i < hunks.len()
        invariant
            i <= hunks.len(),
            out@.len() == i,
            forall|j: int| 0 <= j < i ==> (#[trigger] out@[j])@ == deep(hunks@)[j].short_id,
        decreases hunks.len() - i,
    {
        out.push(hunks[i].short_id.clone());
        i += 1;
    }
    assert(deep(out@) =~= short_ids(deep(hunks@)));
    out
}

/// A spec that keeps everything that is listed.
///
/// Refused over files that were cut: their ids exist in no real diff. A file
/// that cannot be taken apart is kept whole, and so is a change that no hunk
/// tells: leaving it out would undo it.
pub fn build_spec_template(files: &Vec<FileEntry>) -> (r: Result<SpecTemplateOutput, CodedError>)
    ensures
        ({
            let entries = deep(files@);
            match r {
                Ok(t) => cut_paths(entries).len() == 0 && deep_map(t.files) == template_of(entries)
                    && t.default@ == "reset"@,
                Err(e) => cut_paths(entries).len() > 0 && e.tells(
                    cut_template(cut_paths(entries)),
                ),
            }
        }),
{
    broadcast use {group_deep, group_shapes};

    let ghost entries = deep(files@);
    let mut cut: Vec<String> = Vec::new();
    let mut i: usize = 0;
    assert(entries.take(0) =~= Seq::empty());
    while i < files.len()
        invariant
            entries == deep(files@),
            i <= files.len(),
            deep(cut@) == cut_paths(entries.take(i as int)),
        decreases files.len() - i,
    {
        assert(entries.take(i as int + 1).drop_last() =~= entries.take(i as int));
        assert(entries.take(i as int + 1).last() == files@[i as int].deep_view());
        if files[i].truncated == Some(true) {
            cut.push(files[i].path.clone());
        }
        i += 1;
    }
    assert(entries.take(entries.len() as int) =~= entries);
    if cut.len() > 0 {
        let mut message = concat2(
            "cannot build a spec template from truncated files:\n  ",
            join(&cut, "\n  ").as_str(),
        );
        message.append(
            "\nHunk ids are computed from the file contents, so ids taken from a truncated file will not match the real diff.\nDrop --max-bytes/--max-lines to template these files.",
        );
        return Err(
            CodedError::new(ErrorCode::new(Code::TruncatedSpecTemplate), message).with(
                "paths",
                Node::texts(&cut),
            ),
        );
    }
    let mut output: NameMap<SpecTemplateEntry> = NameMap::new();
    i = 0;
    assert(deep_map(output) =~= Map::empty());
    while i < files.len()
        invariant
            entries == deep(files@),
            i <= files.len(),
            deep_map(output) == template_of(entries.take(i as int)),
        decreases files.len() - i,
    {
        assert(entries.take(i as int + 1).drop_last() =~= entries.take(i as int));
        let file = &files[i];
        assert(entries.take(i as int + 1).last() == file.deep_view());
        let from = rename_source(&file.rename, file.path.as_str());
        let entry = if file.binary == Some(true) || file.hunks.len() == 0 {
            SpecTemplateEntry::Action { action: "keep".to_owned(), from }
        } else {
            SpecTemplateEntry::Ids { ids: short_id_list(&file.hunks), from }
        };
        assert(entry.deep_view() == template_entry(file.deep_view()));
        let ghost was = output;
        let ghost kept = entry;
        output.insert(file.path.clone(), entry);
        proof {
            lemma_deep_map_insert(was, output, file.path@, kept);
        }
        i += 1;
    }
    Ok(SpecTemplateOutput { files: output, default: "reset" })
}

/// A template entry read as an entry of a spec.
pub open spec fn as_file_spec(t: TemplateEntryView) -> crate::spec::FileSpecView {
    match t {
        TemplateEntryView::Ids { ids, from } => crate::spec::FileSpecView::Selection(
            crate::spec::HunkSpecView { hunks: Seq::empty(), ids, from },
        ),
        TemplateEntryView::Action { action, from } => crate::spec::FileSpecView::Action {
            action: if action == "keep"@ {
                crate::spec::Action::Keep
            } else {
                crate::spec::Action::Reset
            },
            from,
        },
    }
}

/// A template, used as it is, keeps all of every file that it was made from:
/// the file whole, or each of its hunks.
pub proof fn a_template_keeps_what_it_lists(e: EntryOut, spec: SpecView, k: int)
    requires
        crate::names::lookup(spec.files, e.path) == Some(as_file_spec(template_entry(e))),
        0 <= k < e.hunks.len(),
        crate::text::begins_with(e.hunks[k].id, e.hunks[k].short_id),
    ensures
        match decided(spec, e.path) {
            Decision::KeepAll => true,
            Decision::Skip => false,
            Decision::KeepSelection { indices, ids } => crate::resolve::selects(
                indices,
                ids,
                e.hunks[k],
            ),
        },
{
    if e.binary != Some(true) {
        let s = as_file_spec(template_entry(e))->Selection_0;
        let ids = crate::spec::ids_named(s);
        assert(ids[k] == e.hunks[k].short_id);
        assert(ids.to_set().contains(e.hunks[k].short_id));
    }
}

/// A template, used as it is, keeps a change that no hunk tells.
pub proof fn a_template_keeps_a_hunkless_change(e: EntryOut, spec: SpecView)
    requires
        crate::names::lookup(spec.files, e.path) == Some(as_file_spec(template_entry(e))),
        e.hunks.len() == 0,
    ensures
        decided(spec, e.path) == Decision::KeepAll,
{
}

/// A file is grouped under its directory: what stands in front of the last
/// separator of its path. One that is in none is grouped under the current one.
pub proof fn a_file_is_grouped_under_its_directory(dir: Seq<char>, name: Seq<char>)
    requires
        !name.contains('/'),
        name.len() > 0,
        name != "."@,
    ensures
        directory_of(name) == "."@,
        dir.len() > 0 && dir.last() != '/' && !crate::text::finishes_with(dir, "/."@)
            ==> directory_of(dir + "/"@ + name) == dir,
{
    reveal_strlit("/");
    reveal_strlit(".");
    reveal_strlit("/.");
    assert(name.contains(name[name.len() - 1]));
    assert(trim_tail(name) == name) by {
        if name.len() > 1 {
            assert(name.contains(name[name.len() - 2]));
        }
    }
    crate::hunkset::eval::lemma_last_at(name, '/');
    assert(last_at(name, '/') == -1) by {
        if last_at(name, '/') >= 0 {
            assert(name.contains(name[last_at(name, '/')]));
        }
    }
    assert(name.take(0) =~= Seq::empty());
    if name == "/"@ {
        assert(name.contains('/'));
    }
    if dir.len() > 0 && dir.last() != '/' && !crate::text::finishes_with(dir, "/."@) {
        let path = dir + "/"@ + name;
        let n = dir.len() as int;
        assert(path[n] == '/');
        assert(path.last() == name.last());
        assert(trim_tail(path) == path) by {
            if name.len() > 1 {
                assert(path[path.len() - 2] == name[name.len() - 2]);
                assert(name.contains(name[name.len() - 2]));
            } else if name[0] == '.' {
                assert(name =~= "."@);
            }
        }
        crate::hunkset::eval::lemma_last_at(path, '/');
        assert(last_at(path, '/') == n) by {
            if last_at(path, '/') > n {
                assert(name.contains(name[last_at(path, '/') - n - 1]));
            }
        }
        let head = path.take(n + 1);
        assert(head =~= dir.push('/'));
        assert(head.drop_last() =~= dir);
        assert(trim_tail(dir) == dir) by {
            if dir.len() > 1 && dir.last() == '.' && dir[n - 2] == '/' {
                assert(dir.skip(n - 2) =~= "/."@);
            }
        }
        assert(trim_tail(head) == dir);
        assert(path.len() > 1);
    }
}

/// The files that are reported as cut are those that were.
pub proof fn every_cut_file_is_reported(entries: Seq<EntryOut>, path: Seq<char>)
    ensures
        cut_paths(entries).contains(path) <==> exists|i: int|
            0 <= i < entries.len() && (#[trigger] entries[i]).truncated == Some(true)
                && entries[i].path == path,
    decreases entries.len(),
{
    if entries.len() > 0 {
        let rest = entries.drop_last();
        let before = cut_paths(rest);
        let all = cut_paths(entries);
        every_cut_file_is_reported(rest, path);
        if exists|i: int|
            0 <= i < entries.len() && (#[trigger] entries[i]).truncated == Some(true)
                && entries[i].path == path {
            let i = choose|i: int|
                0 <= i < entries.len() && (#[trigger] entries[i]).truncated == Some(true)
                    && entries[i].path == path;
            if i < rest.len() {
                assert(rest[i] == entries[i]);
                let k = choose|k: int| 0 <= k < before.len() && before[k] == path;
                assert(all[k] == path);
            } else {
                assert(all[all.len() - 1] == path);
            }
        }
        if all.contains(path) {
            let k = choose|k: int| 0 <= k < all.len() && all[k] == path;
            if k < before.len() {
                assert(before[k] == path);
                let i = choose|i: int|
                    0 <= i < rest.len() && (#[trigger] rest[i]).truncated == Some(true)
                        && rest[i].path == path;
                assert(entries[i] == rest[i]);
            } else {
                assert(entries[entries.len() - 1].path == path);
            }
        }
    }
}

/// A listing cannot be decided where, in a file that the patterns let through, an
/// id of the spec's entry begins the ids of several hunks.
pub proof fn an_undecided_file_has_an_id_for_several_hunks(
    spec: SpecView,
    included: Seq<Seq<char>>,
    excluded: Seq<Seq<char>>,
    f: FileView,
)
    ensures
        is_undecided(Some(spec), included, excluded, f) <==> (included.len() > 0 ==> is_matched(
            included,
            f,
        )) && !is_matched(excluded, f) && exists|id: Seq<char>| #[trigger]
            crate::resolve::keeps_id(decided(spec, f.path), id) && crate::diff::named_by(
                f.hunks,
                id,
            ).len() > 1,
        !is_undecided(None, included, excluded, f),
{
    lemma_any_matched(included, f);
    lemma_any_matched(excluded, f);
    if let Decision::KeepSelection { ids, .. } = decided(spec, f.path) {
        if any_ambiguous(ids, f.hunks) {
            let id = choose|id: Seq<char>| #[trigger]
                ids.contains(id) && crate::diff::named_by(f.hunks, id).len() > 1;
            assert(crate::resolve::keeps_id(decided(spec, f.path), id));
        }
        if exists|id: Seq<char>| #[trigger]
            crate::resolve::keeps_id(decided(spec, f.path), id) && crate::diff::named_by(
                f.hunks,
                id,
            ).len() > 1 {
            let id = choose|id: Seq<char>| #[trigger]
                crate::resolve::keeps_id(decided(spec, f.path), id) && crate::diff::named_by(
                    f.hunks,
                    id,
                ).len() > 1;
            assert(ids.contains(id));
        }
    }
}

/// The name that a group goes by is taken from each file that is in it: its
/// directory, its extension or its status. A file without an extension is in the
/// group of those.
pub proof fn a_group_goes_by_what_its_files_share(e: EntryOut)
    ensures
        group_key::<FileEntry>(ListGrouping::Directory, e) == directory_of(e.path),
        group_key::<FileEntry>(ListGrouping::Status, e) == e.status,
        match extension_of(e.path) {
            Some(ext) => group_key::<FileEntry>(ListGrouping::Extension, e) == ext,
            None => group_key::<FileEntry>(ListGrouping::Extension, e) == "<no-ext>"@,
        },
{
}

/// What a template has for a file states where it came from, where it was moved.
/// It names all of its hunks, by their short ids and in order, or keeps it whole:
/// the latter exactly where it is a binary or has no hunks.
pub proof fn a_template_says_all_of_a_file(e: EntryOut)
    ensures
        match template_entry(e) {
            TemplateEntryView::Ids { ids, from } => {
                &&& e.binary != Some(true) && e.hunks.len() > 0
                &&& from == moved_from(e.rename, e.path)
                &&& ids.len() == e.hunks.len()
                &&& forall|i: int| 0 <= i < ids.len() ==> #[trigger] ids[i] == e.hunks[i].short_id
            },
            TemplateEntryView::Action { action, from } => {
                &&& e.binary == Some(true) || e.hunks.len() == 0
                &&& from == moved_from(e.rename, e.path)
                &&& action == "keep"@
            },
        },
{
}

/// Groups come in the order in which their first files do, and a group's files in
/// their own: one more file is put behind the others of its group, or makes a
/// group behind the others, and changes nothing else.
pub proof fn one_more_file_goes_behind_the_others<T: Filed>(
    files: Seq<T::V>,
    grouping: ListGrouping,
    file: T::V,
)
    ensures
        ({
            let before = grouped::<T>(files, grouping);
            let after = grouped::<T>(files.push(file), grouping);
            let name = group_key::<T>(grouping, file);
            &&& before.len() <= after.len() <= before.len() + 1
            &&& forall|i: int|
                0 <= i < before.len() ==> (#[trigger] after[i]).name == before[i].name && (
                after[i].files == before[i].files || (after[i].name == name && after[i].files
                    == before[i].files.push(file)))
            &&& after.len() > before.len() ==> after.last().name == name && after.last().files
                == seq![file]
            &&& after.len() == before.len() ==> exists|i: int|
                0 <= i < after.len() && (#[trigger] after[i]).files == before[i].files.push(file)
        }),
{
    let before = grouped::<T>(files, grouping);
    let name = group_key::<T>(grouping, file);
    assert(files.push(file).drop_last() =~= files);
    lemma_group_at(before, name);
    let after = grouped::<T>(files.push(file), grouping);
    let at = group_at(before, name);
    assert(after == with_file(before, name, file));
    if at < before.len() {
        assert(after[at].files == before[at].files.push(file));
    }
}

/// Slashes at the end of a path do not count, nor does a dot behind one: the path
/// is in the same directory with them.
pub proof fn what_trails_a_path_does_not_count(path: Seq<char>)
    requires
        path.len() > 0,
    ensures
        parent_of(path.push('/')) == parent_of(path),
        parent_of(path.push('/').push('.')) == parent_of(path),
{
    let slash = path.push('/');
    let dot = slash.push('.');
    assert(slash.drop_last() =~= path);
    assert(dot.drop_last() =~= slash);
    assert(trim_tail(slash) == trim_tail(path));
    assert(trim_tail(dot) == trim_tail(slash));
}

} // verus!
