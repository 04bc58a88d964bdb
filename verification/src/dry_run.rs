//! What would be true after a command that rewrites history.
//!
//! A listing shows which hunks match. What it cannot show is the consequence,
//! and the commands disagree about that: what is named is kept by one and undone
//! by another.

use crate::commands::needs_stand_in;
use crate::diff::{AmbiguousId, HunkView};
use crate::errors::{group_shapes, Code, CodedError, CodedView, ErrorCode};
use crate::files::{has_hunkless_change, moved_from, FileHunks, FileView};
use crate::node::{number_node, text_node, Node};
use crate::resolve::{
    any_ambiguous, decided, is_named, kept_hunks, numbered_apart, position_selected,
    reports_ambiguity, resolve_selection, spec_decision, Decision, SpecDecision,
};
use crate::revisions::{
    filled_lines, listing_of, no_details, revset_of, rows_of, DiffTarget, TargetView,
};
use crate::spec::{keeps_nothing, Spec, SpecView};
use crate::text::{
    chars_of, concat2, concat3, decimal, deep, group_deep, join, joined, number, parted,
    plain_lines, same, split_once, string_of, trim, trimmed, wide_number,
};
use vstd::prelude::*;

verus! {

// ---------------------------------------------------------------------------
// Verbs and effects
// ---------------------------------------------------------------------------

/// The command that is previewed.
#[derive(Debug, Clone, Copy)]
pub enum Verb<'a> {
    Split { message: &'a str },
    Commit { message: &'a str },
    Squash,
    Diffedit,
    Restore,
}

pub open spec fn verb_name(verb: Verb) -> Seq<char> {
    match verb {
        Verb::Split { .. } => "split"@,
        Verb::Commit { .. } => "commit"@,
        Verb::Squash => "squash"@,
        Verb::Diffedit => "diffedit"@,
        Verb::Restore => "restore"@,
    }
}

impl<'a> Verb<'a> {
    pub fn name(&self) -> (r: &'static str)
        ensures
            r@ == verb_name(*self),
    {
        match self {
            Verb::Split { .. } => "split",
            Verb::Commit { .. } => "commit",
            Verb::Squash => "squash",
            Verb::Diffedit => "diffedit",
            Verb::Restore => "restore",
        }
    }
}

/// What happens to one half of a diff.
#[derive(Debug, Clone, Copy, PartialEq, Eq, Structural)]
pub enum Effect {
    /// Written into a commit that is created.
    Commit,
    /// Left where it is.
    Keep,
    /// Moved into a revision that is there.
    Move,
    /// Dropped: the file goes back to what the other side has.
    Discard,
    /// Reverted: the content is replaced by another revision's.
    Undo,
}

pub open spec fn effect_text(effect: Effect) -> Seq<char> {
    match effect {
        Effect::Commit => "commit"@,
        Effect::Keep => "keep"@,
        Effect::Move => "move"@,
        Effect::Discard => "discard"@,
        Effect::Undo => "undo"@,
    }
}

/// Whether content that meets an effect survives nowhere.
pub open spec fn loses(effect: Effect) -> bool {
    effect == Effect::Discard || effect == Effect::Undo
}

impl Effect {
    pub fn as_str(self) -> (r: &'static str)
        ensures
            r@ == effect_text(self),
    {
        match self {
            Effect::Commit => "commit",
            Effect::Keep => "keep",
            Effect::Move => "move",
            Effect::Discard => "discard",
            Effect::Undo => "undo",
        }
    }

    /// Whether this half's content survives nowhere in the repository.
    pub fn loses_content(self) -> (r: bool)
        ensures
            r == loses(self),
    {
        match self {
            Effect::Discard | Effect::Undo => true,
            _ => false,
        }
    }
}

// ---------------------------------------------------------------------------
// Revisions
// ---------------------------------------------------------------------------

/// A revision, named three ways. The change id is what to follow: a rewrite
/// keeps it.
#[derive(Debug, Clone)]
pub struct RevisionRef {
    /// The revset that names it, as it would be written.
    pub revset: String,
    pub change_id: String,
    pub commit_id: String,
}

#[verifier::ext_equal]
pub struct RevisionView {
    pub revset: Seq<char>,
    pub change_id: Seq<char>,
    pub commit_id: Seq<char>,
}

impl DeepView for RevisionRef {
    type V = RevisionView;

    open spec fn deep_view(&self) -> RevisionView {
        RevisionView {
            revset: self.revset@,
            change_id: self.change_id@,
            commit_id: self.commit_id@,
        }
    }
}

impl RevisionRef {
    pub fn copied(&self) -> (r: RevisionRef)
        ensures
            r.deep_view() == self.deep_view(),
    {
        RevisionRef {
            revset: self.revset.clone(),
            change_id: self.change_id.clone(),
            commit_id: self.commit_id.clone(),
        }
    }
}

/// A revision's commit id and its change id.
pub const REV_TEMPLATE: &'static str = "commit_id ++ \"\\t\" ++ change_id ++ \"\\n\"";

/// The error for a revset that names no revision, or several.
pub open spec fn not_one_revision(revset: Seq<char>, n: nat) -> CodedView {
    CodedView {
        code: if n == 0 {
            Code::RevsetUnresolved
        } else {
            Code::RevsetAmbiguous
        },
        message: if n == 0 {
            "revset `"@ + revset + "` did not resolve to any revision"@
        } else {
            "revset `"@ + revset + "` resolved to "@ + decimal(n)
                + " revisions, but jj-hunk needs exactly one."@
        },
        details: no_details().insert("revset"@, text_node(revset)).insert(
            "resolved"@,
            number_node(n),
        ),
    }
}

/// The revision that jj tells of, under the name a caller would write.
///
/// A revset that names no revision, or several, fails as it does where the
/// command is run for real.
pub fn revision_ref(revset: &str, label: &str, stdout: &str) -> (r: Result<RevisionRef, CodedError>)
    ensures
        ({
            let rows = filled_lines(plain_lines(stdout@));
            match r {
                Ok(revision) => rows.len() == 1 && revision.deep_view() == (RevisionView {
                    revset: label@,
                    commit_id: trimmed(parted(rows[0], '\t').0),
                    change_id: trimmed(parted(rows[0], '\t').1),
                }),
                Err(e) => rows.len() != 1 && e.tells(not_one_revision(revset@, rows.len())),
            }
        }),
{
    broadcast use group_shapes;

    let rows = rows_of(stdout);
    let ghost views = deep(rows@);
    let n: usize = rows.len();
    if n == 1 {
        assert(views[0] == rows@[0]@);
        let (commit_id, change_id) = split_once(rows[0].as_str(), '\t');
        return Ok(
            RevisionRef {
                revset: label.to_owned(),
                change_id: trim(change_id.as_str()),
                commit_id: trim(commit_id.as_str()),
            },
        );
    }
    if n == 0 {
        let message = concat3("revset `", revset, "` did not resolve to any revision");
        return Err(
            CodedError::new(ErrorCode::new(Code::RevsetUnresolved), message).with(
                "revset",
                Node::text(revset),
            ).with("resolved", Node::number(0)),
        );
    }
    let mut message = concat3("revset `", revset, "` resolved to ");
    message.append(number(n).as_str());
    message.append(" revisions, but jj-hunk needs exactly one.");
    Err(
        CodedError::new(ErrorCode::new(Code::RevsetAmbiguous), message).with(
            "revset",
            Node::text(revset),
        ).with("resolved", Node::number(n)),
    )
}

/// The two revisions a previewed diff is taken between.
///
/// `left` and `right` and not before and after: a restore reverses them.
#[derive(Debug)]
pub struct Endpoints {
    /// Nothing for a root commit only.
    pub left: Option<RevisionRef>,
    pub right: RevisionRef,
}

/// A revset, and the name a caller would write for what it names.
#[derive(Debug)]
pub struct EndpointQuery {
    pub revset: String,
    pub label: String,
}

/// What to ask jj for the two ends of a diff.
#[derive(Debug)]
pub struct EndpointQueries {
    pub left: Option<EndpointQuery>,
    pub right: EndpointQuery,
}

/// What to ask jj for the two ends of a diff. The parent of a revision is asked
/// for by the id it was resolved to, under the name it would be written as.
pub fn endpoints(target: &DiffTarget, parent: Option<&str>) -> (r: EndpointQueries)
    ensures
        match target.deep_view() {
            TargetView::Rev(rev) => {
                &&& r.right.revset@ == revset_of(rev)
                &&& r.right.label@ == revset_of(rev)
                &&& match r.left {
                    Some(q) => parent matches Some(p) && q.revset@ == p@ && q.label@ == revset_of(
                        rev,
                    ) + "-"@,
                    None => parent is None,
                }
            },
            TargetView::FromTo { from, to } => {
                &&& r.right.revset@ == to
                &&& r.right.label@ == to
                &&& r.left matches Some(q) && q.revset@ == from && q.label@ == from
            },
        },
{
    match target {
        DiffTarget::Rev(rev) => {
            let revset = match rev {
                Some(rev) => rev.clone(),
                None => "@".to_owned(),
            };
            let left = match parent {
                Some(p) => Some(
                    EndpointQuery { revset: p.to_owned(), label: concat2(revset.as_str(), "-") },
                ),
                None => None,
            };
            EndpointQueries { left, right: EndpointQuery { revset: revset.clone(), label: revset } }
        },
        DiffTarget::FromTo { from, to } => EndpointQueries {
            left: Some(EndpointQuery { revset: from.clone(), label: from.clone() }),
            right: EndpointQuery { revset: to.clone(), label: to.clone() },
        },
    }
}

// ---------------------------------------------------------------------------
// Files
// ---------------------------------------------------------------------------

/// A change that no hunk tells.
#[derive(Debug)]
pub struct WholeFile {
    /// Which half it falls into: it is kept or reset as a unit.
    pub selected: bool,
    /// Why it has no hunks.
    pub reason: &'static str,
}

/// What becomes of one file.
#[derive(Debug)]
pub struct FileOutcome {
    pub path: String,
    pub status: String,
    /// The path on the left side, for a rename or a copy.
    pub from: Option<String>,
    /// Full ids, in the order of the diff.
    pub selected_hunks: Vec<String>,
    pub unselected_hunks: Vec<String>,
    pub whole_file: Option<WholeFile>,
}

#[verifier::ext_equal]
pub struct WholeView {
    pub selected: bool,
    pub reason: Seq<char>,
}

#[verifier::ext_equal]
pub struct OutcomeView {
    pub path: Seq<char>,
    pub status: Seq<char>,
    pub from: Option<Seq<char>>,
    pub selected_hunks: Seq<Seq<char>>,
    pub unselected_hunks: Seq<Seq<char>>,
    pub whole_file: Option<WholeView>,
}

impl DeepView for WholeFile {
    type V = WholeView;

    open spec fn deep_view(&self) -> WholeView {
        WholeView { selected: self.selected, reason: self.reason@ }
    }
}

impl DeepView for FileOutcome {
    type V = OutcomeView;

    open spec fn deep_view(&self) -> OutcomeView {
        OutcomeView {
            path: self.path@,
            status: self.status@,
            from: self.from.deep_view(),
            selected_hunks: deep(self.selected_hunks@),
            unselected_hunks: deep(self.unselected_hunks@),
            whole_file: self.whole_file.deep_view(),
        }
    }
}

/// Why a change has no hunks: the first of what makes it one that no hunk
/// tells.
pub open spec fn reason_without_hunks(f: FileView) -> Seq<char> {
    if f.is_binary {
        "binary"@
    } else if f.mode is Some {
        "mode-change"@
    } else if f.is_symlink {
        "symlink"@
    } else if moved_from(f.rename, f.path) is Some {
        "rename"@
    } else {
        "empty-file"@
    }
}

pub fn hunkless_reason(file: &FileHunks) -> (r: &'static str)
    ensures
        r@ == reason_without_hunks(file.deep_view()),
{
    if file.is_binary {
        "binary"
    } else if file.mode.is_some() {
        "mode-change"
    } else if file.is_symlink {
        "symlink"
    } else if file.rename_source().is_some() {
        "rename"
    } else {
        "empty-file"
    }
}

/// Whether the hunk at a position is kept.
pub open spec fn keeps_position(d: Decision, hunks: Seq<HunkView>, index: usize) -> bool {
    match d {
        Decision::KeepAll => true,
        Decision::Skip => false,
        Decision::KeepSelection { indices, ids } => position_selected(indices, ids, hunks, index),
    }
}

/// The ids of the hunks among the first `n` that are kept, or that are not.
pub open spec fn ids_on_side(d: Decision, hunks: Seq<HunkView>, kept: bool, n: nat) -> Seq<
    Seq<char>,
>
    decreases n,
{
    if n == 0 {
        Seq::empty()
    } else {
        let rest = ids_on_side(d, hunks, kept, (n - 1) as nat);
        if keeps_position(d, hunks, hunks[n - 1].index) == kept {
            rest.push(hunks[n - 1].id)
        } else {
            rest
        }
    }
}

/// What becomes of one file.
pub open spec fn file_outcome(spec: SpecView, f: FileView) -> OutcomeView {
    let d = decided(spec, f.path);
    OutcomeView {
        path: f.path,
        status: f.status,
        from: moved_from(f.rename, f.path),
        selected_hunks: ids_on_side(d, f.hunks, true, f.hunks.len()),
        unselected_hunks: ids_on_side(d, f.hunks, false, f.hunks.len()),
        whole_file: if needs_stand_in(f) {
            Some(WholeView { selected: d is KeepAll, reason: reason_without_hunks(f) })
        } else {
            None
        },
    }
}

pub open spec fn file_outcomes(spec: SpecView, files: Seq<FileView>) -> Seq<OutcomeView> {
    Seq::new(files.len(), |i: int| file_outcome(spec, files[i]))
}

/// Whether what a spec names in a file cannot be told apart.
pub open spec fn is_unclear(spec: SpecView, f: FileView) -> bool {
    decided(spec, f.path) matches Decision::KeepSelection { ids, .. } && any_ambiguous(
        ids,
        f.hunks,
    )
}

/// Whether an error reports the first file in which what a spec names cannot be
/// told apart.
pub open spec fn reports_unclear(
    spec: SpecView,
    files: Seq<FileView>,
    path: Seq<char>,
    e: AmbiguousId,
) -> bool {
    exists|k: int|
        {
            &&& 0 <= k < files.len()
            &&& is_unclear(spec, #[trigger] files[k])
            &&& files[k].path == path
            &&& decided(spec, files[k].path) matches Decision::KeepSelection { ids, .. }
                && reports_ambiguity(ids, files[k].hunks, e)
            &&& forall|j: int| 0 <= j < k ==> !is_unclear(spec, #[trigger] files[j])
        }
}

/// Split every change in a diff into the half it lands in.
pub fn outcomes(spec: &Spec, file_hunks: &Vec<FileHunks>) -> (r: Result<
    Vec<FileOutcome>,
    crate::listing::UndecidedFile,
>)
    ensures
        ({
            let s = spec.deep_view();
            let files = deep(file_hunks@);
            match r {
                Ok(out) => deep(out@) == file_outcomes(s, files) && forall|j: int|
                    0 <= j < files.len() ==> !is_unclear(s, #[trigger] files[j]),
                Err(e) => reports_unclear(s, files, e.path@, e.error),
            }
        }),
{
    let ghost s = spec.deep_view();
    let ghost files = deep(file_hunks@);
    let mut out: Vec<FileOutcome> = Vec::new();
    let mut i: usize = 0;
    while i < file_hunks.len()
        invariant
            s == spec.deep_view(),
            files == deep(file_hunks@),
            i <= file_hunks.len(),
            out@.len() == i,
            forall|j: int| 0 <= j < i ==> (#[trigger] out@[j]).deep_view() == file_outcome(s, files[j]),
            forall|j: int| 0 <= j < i ==> !is_unclear(s, #[trigger] files[j]),
        decreases file_hunks.len() - i,
    {
        assert(files[i as int] == file_hunks@[i as int].deep_view());
        match outcome_of(spec, &file_hunks[i]) {
            Ok(one) => {
                out.push(one);
            },
            Err(error) => {
                assert(is_unclear(s, files[i as int]));
                return Err(
                    crate::listing::UndecidedFile { path: file_hunks[i].path.clone(), error },
                );
            },
        }
        i += 1;
    }
    assert(deep(out@) =~= file_outcomes(s, files));
    Ok(out)
}

fn outcome_of(spec: &Spec, file: &FileHunks) -> (r: Result<FileOutcome, AmbiguousId>)
    ensures
        ({
            let s = spec.deep_view();
            let f = file.deep_view();
            match r {
                Ok(one) => !is_unclear(s, f) && one.deep_view() == file_outcome(s, f),
                Err(e) => is_unclear(s, f) && (decided(s, f.path) matches Decision::KeepSelection {
                    ids,
                    ..
                } && reports_ambiguity(ids, f.hunks, e)),
            }
        }),
{
    broadcast use group_deep;
    broadcast use vstd::std_specs::hash::group_hash_axioms;

    let ghost s = spec.deep_view();
    let ghost f = file.deep_view();
    let decision = spec_decision(Some(spec), file.path.as_str());
    let ghost d = decided(s, f.path);
    let kept = match &decision {
        SpecDecision::KeepSelection(selection) => match resolve_selection(selection, &file.hunks) {
            Ok(kept) => Some(kept),
            Err(e) => {
                assert(selection.ids@.contains(e.id@));
                return Err(e);
            },
        },
        _ => None,
    };
    let all = matches!(decision, SpecDecision::KeepAll);
    let mut selected: Vec<String> = Vec::new();
    let mut unselected: Vec<String> = Vec::new();
    let mut i: usize = 0;
    while i < file.hunks.len()
        invariant
            f == file.deep_view(),
            d == decision.shape(),
            all == (d is KeepAll),
            match kept {
                Some(set) => d matches Decision::KeepSelection { indices, ids } && forall|x: usize|
                 #[trigger]
                    set@.contains(x) <==> position_selected(indices, ids, f.hunks, x),
                None => d !is KeepSelection,
            },
            i <= file.hunks.len(),
            deep(selected@) == ids_on_side(d, f.hunks, true, i as nat),
            deep(unselected@) == ids_on_side(d, f.hunks, false, i as nat),
        decreases file.hunks.len() - i,
    {
        let hunk = &file.hunks[i];
        assert(f.hunks[i as int] == hunk.deep_view());
        let keep = match &kept {
            Some(set) => set.contains(&hunk.index),
            None => all,
        };
        assert(keep == keeps_position(d, f.hunks, hunk.index));
        if keep {
            selected.push(hunk.id.clone());
        } else {
            unselected.push(hunk.id.clone());
        }
        i += 1;
    }
    let whole_file = if file.hunks.len() == 0 && file.changes_without_hunks() {
        Some(WholeFile { selected: all, reason: hunkless_reason(file) })
    } else {
        None
    };
    let from = match file.rename_source() {
        Some(from) => Some(from.to_owned()),
        None => None,
    };
    Ok(
        FileOutcome {
            path: file.path.clone(),
            status: file.status.clone(),
            from,
            selected_hunks: selected,
            unselected_hunks: unselected,
            whole_file,
        },
    )
}

/// Every hunk of a file lands in one half and not in the other.
pub proof fn the_halves_share_out_every_hunk(d: Decision, hunks: Seq<HunkView>, n: nat)
    requires
        n <= hunks.len(),
    ensures
        ids_on_side(d, hunks, true, n).len() + ids_on_side(d, hunks, false, n).len() == n,
    decreases n,
{
    if n > 0 {
        the_halves_share_out_every_hunk(d, hunks, (n - 1) as nat);
    }
}

/// A change that no hunk tells goes with its whole file: it is in the selected
/// half exactly where the spec keeps the file as a whole, and in the other half
/// exactly where it does not.
pub proof fn a_hunkless_change_goes_with_its_whole_file(spec: SpecView, f: FileView)
    ensures
        whole_on_side(file_outcome(spec, f), true) <==> f.hunks.len() == 0 && has_hunkless_change(f)
            && decided(spec, f.path) is KeepAll,
        whole_on_side(file_outcome(spec, f), false) <==> f.hunks.len() == 0 && has_hunkless_change(
            f,
        ) && !(decided(spec, f.path) is KeepAll),
{
}

proof fn lemma_one_sided(d: Decision, hunks: Seq<HunkView>, n: nat)
    requires
        n <= hunks.len(),
    ensures
        d is Skip ==> ids_on_side(d, hunks, true, n).len() == 0 && ids_on_side(d, hunks, false, n)
            == Seq::new(n, |i: int| hunks[i].id),
        d is KeepAll ==> ids_on_side(d, hunks, false, n).len() == 0 && ids_on_side(
            d,
            hunks,
            true,
            n,
        ) == Seq::new(n, |i: int| hunks[i].id),
    decreases n,
{
    if n > 0 {
        lemma_one_sided(d, hunks, (n - 1) as nat);
        let ids = Seq::new(n, |i: int| hunks[i].id);
        assert(ids =~= Seq::new((n - 1) as nat, |i: int| hunks[i].id).push(hunks[n - 1].id));
    } else {
        assert(Seq::new(n, |i: int| hunks[i].id) =~= Seq::empty());
    }
}

/// Of a file that a spec skips nothing is in the selected half, and of one that
/// it keeps as a whole nothing is in the other: the half it is in has all of its
/// hunks, in their order.
pub proof fn a_skipped_file_is_not_selected(spec: SpecView, f: FileView)
    ensures
        ({
            let o = file_outcome(spec, f);
            let all = Seq::new(f.hunks.len(), |i: int| f.hunks[i].id);
            &&& decided(spec, f.path) is Skip ==> {
                &&& o.selected_hunks.len() == 0
                &&& !whole_on_side(o, true)
                &&& o.unselected_hunks == all
            }
            &&& decided(spec, f.path) is KeepAll ==> {
                &&& o.unselected_hunks.len() == 0
                &&& !whole_on_side(o, false)
                &&& o.selected_hunks == all
            }
        }),
{
    lemma_one_sided(decided(spec, f.path), f.hunks, f.hunks.len());
}

/// The ids of some hunks.
pub open spec fn ids_in(hunks: Seq<HunkView>) -> Seq<Seq<char>> {
    Seq::new(hunks.len(), |i: int| hunks[i].id)
}

proof fn lemma_selected_ids(
    indices: Set<usize>,
    ids: Set<Seq<char>>,
    hunks: Seq<HunkView>,
    n: nat,
)
    requires
        n <= hunks.len(),
    ensures
        ids_on_side(Decision::KeepSelection { indices, ids }, hunks, true, n) == ids_in(
            kept_hunks(indices, ids, hunks, n),
        ),
    decreases n,
{
    if n > 0 {
        lemma_selected_ids(indices, ids, hunks, (n - 1) as nat);
        let rest = kept_hunks(indices, ids, hunks, (n - 1) as nat);
        assert(ids_in(rest.push(hunks[n - 1])) =~= ids_in(rest).push(hunks[n - 1].id));
    } else {
        assert(ids_in(kept_hunks(indices, ids, hunks, 0)) =~= Seq::empty());
    }
}

proof fn lemma_unselected_ids(d: Decision, hunks: Seq<HunkView>, n: nat, k: int)
    requires
        n <= hunks.len(),
        0 <= k < n,
    ensures
        keeps_position(d, hunks, hunks[k].index) ==> ids_on_side(d, hunks, true, n).contains(
            hunks[k].id,
        ),
        !keeps_position(d, hunks, hunks[k].index) ==> ids_on_side(d, hunks, false, n).contains(
            hunks[k].id,
        ),
    decreases n,
{
    let m = (n - 1) as nat;
    let keep = keeps_position(d, hunks, hunks[k].index);
    let now = ids_on_side(d, hunks, keep, n);
    if k == m {
        assert(now[now.len() - 1] == hunks[k].id);
    } else {
        lemma_unselected_ids(d, hunks, m, k);
        let before = ids_on_side(d, hunks, keep, m);
        let at = choose|at: int| 0 <= at < before.len() && before[at] == hunks[k].id;
        assert(now[at] == hunks[k].id);
    }
}

/// The selected half of a file has the hunks that a listing by the same
/// selection shows, in the same order. A hunk that is named is there, and one
/// that is not is in the other half.
pub proof fn a_preview_selects_what_a_listing_shows(
    spec: SpecView,
    f: FileView,
    indices: Set<usize>,
    ids: Set<Seq<char>>,
)
    requires
        decided(spec, f.path) == (Decision::KeepSelection { indices, ids }),
        numbered_apart(f.hunks),
    ensures
        file_outcome(spec, f).selected_hunks == ids_in(
            kept_hunks(indices, ids, f.hunks, f.hunks.len()),
        ),
        forall|k: int|
            0 <= k < f.hunks.len() ==> if is_named(indices, ids, #[trigger] f.hunks[k]) {
                file_outcome(spec, f).selected_hunks.contains(f.hunks[k].id)
            } else {
                file_outcome(spec, f).unselected_hunks.contains(f.hunks[k].id)
            },
{
    let d = decided(spec, f.path);
    lemma_selected_ids(indices, ids, f.hunks, f.hunks.len());
    assert forall|k: int| 0 <= k < f.hunks.len() implies if is_named(
        indices,
        ids,
        #[trigger] f.hunks[k],
    ) {
        file_outcome(spec, f).selected_hunks.contains(f.hunks[k].id)
    } else {
        file_outcome(spec, f).unselected_hunks.contains(f.hunks[k].id)
    } by {
        lemma_unselected_ids(d, f.hunks, f.hunks.len(), k);
        crate::resolve::lemma_selected_where_named(indices, ids, f.hunks, k);
    }
}

// ---------------------------------------------------------------------------
// Counting
// ---------------------------------------------------------------------------

/// Counts for one half.
#[derive(Debug, Clone, Copy, PartialEq, Eq, Structural)]
pub struct Counts {
    pub hunks: u128,
    pub whole_file_changes: u128,
    pub files: u128,
}

pub open spec fn hunks_on_side(o: OutcomeView, selected: bool) -> nat {
    if selected {
        o.selected_hunks.len()
    } else {
        o.unselected_hunks.len()
    }
}

/// Whether a file's change that no hunk tells is in a half.
pub open spec fn whole_on_side(o: OutcomeView, selected: bool) -> bool {
    o.whole_file matches Some(w) && w.selected == selected
}

pub open spec fn count_hunks(files: Seq<OutcomeView>, selected: bool) -> nat
    decreases files.len(),
{
    if files.len() == 0 {
        0
    } else {
        count_hunks(files.drop_last(), selected) + hunks_on_side(files.last(), selected)
    }
}

pub open spec fn count_whole(files: Seq<OutcomeView>, selected: bool) -> nat
    decreases files.len(),
{
    if files.len() == 0 {
        0
    } else {
        count_whole(files.drop_last(), selected) + if whole_on_side(files.last(), selected) {
            1nat
        } else {
            0nat
        }
    }
}

/// The files that contribute to a half. One whose hunks land in both halves
/// counts in both.
pub open spec fn count_files(files: Seq<OutcomeView>, selected: bool) -> nat
    decreases files.len(),
{
    if files.len() == 0 {
        0
    } else {
        count_files(files.drop_last(), selected) + if hunks_on_side(files.last(), selected) > 0
            || whole_on_side(files.last(), selected) {
            1nat
        } else {
            0nat
        }
    }
}

/// A half that no file is in has nothing in it, and every file in a half brings
/// a hunk or a change that no hunk tells.
pub proof fn every_file_in_a_half_brings_something(files: Seq<OutcomeView>, selected: bool)
    ensures
        count_files(files, selected) == 0 <==> count_hunks(files, selected) == 0 && count_whole(
            files,
            selected,
        ) == 0,
        count_files(files, selected) <= count_hunks(files, selected) + count_whole(files, selected),
        count_files(files, selected) <= files.len(),
    decreases files.len(),
{
    if files.len() > 0 {
        every_file_in_a_half_brings_something(files.drop_last(), selected);
    }
}

/// The changes of some files that no hunk tells.
pub open spec fn hunkless_changes(files: Seq<FileView>) -> nat
    decreases files.len(),
{
    if files.len() == 0 {
        0
    } else {
        hunkless_changes(files.drop_last()) + if files.last().hunks.len() == 0
            && has_hunkless_change(files.last()) {
            1nat
        } else {
            0nat
        }
    }
}

/// The hunks of some files.
pub open spec fn all_hunks(files: Seq<FileView>) -> nat
    decreases files.len(),
{
    if files.len() == 0 {
        0
    } else {
        all_hunks(files.drop_last()) + files.last().hunks.len()
    }
}

/// The two halves together have every hunk and every change that no hunk tells,
/// each once.
pub proof fn the_halves_share_out_every_change(spec: SpecView, files: Seq<FileView>)
    ensures
        ({
            let all = file_outcomes(spec, files);
            &&& count_hunks(all, true) + count_hunks(all, false) == all_hunks(files)
            &&& count_whole(all, true) + count_whole(all, false) == hunkless_changes(files)
        }),
    decreases files.len(),
{
    let all = file_outcomes(spec, files);
    if files.len() > 0 {
        let rest = files.drop_last();
        let last = files.last();
        the_halves_share_out_every_change(spec, rest);
        assert(all.drop_last() =~= file_outcomes(spec, rest));
        assert(all.last() == file_outcome(spec, last));
        the_halves_share_out_every_hunk(decided(spec, last.path), last.hunks, last.hunks.len());
    }
}

/// Count what lands in one half.
pub fn count(files: &Vec<FileOutcome>, selected: bool) -> (r: Counts)
    ensures
        r.hunks == count_hunks(deep(files@), selected),
        r.whole_file_changes == count_whole(deep(files@), selected),
        r.files == count_files(deep(files@), selected),
{
    let ghost views = deep(files@);
    let mut hunks: u128 = 0;
    let mut whole_file_changes: u128 = 0;
    let mut contributing: u128 = 0;
    let mut i: usize = 0;
    assert(views.take(0) =~= Seq::empty());
    while i < files.len()
        invariant
            views == deep(files@),
            i <= files.len(),
            hunks <= i * usize::MAX,
            whole_file_changes <= i,
            contributing <= i,
            hunks == count_hunks(views.take(i as int), selected),
            whole_file_changes == count_whole(views.take(i as int), selected),
            contributing == count_files(views.take(i as int), selected),
        decreases files.len() - i,
    {
        assert(views.take(i as int + 1).drop_last() =~= views.take(i as int));
        let file = &files[i];
        assert(views[i as int] == file.deep_view());
        let n: usize = if selected {
            file.selected_hunks.len()
        } else {
            file.unselected_hunks.len()
        };
        let whole = match &file.whole_file {
            Some(w) => w.selected == selected,
            None => false,
        };
        assert((i + 1) * usize::MAX == i * usize::MAX + usize::MAX) by (nonlinear_arith);
        assert((i + 1) * usize::MAX <= u128::MAX) by (nonlinear_arith)
            requires
                i < usize::MAX,
                usize::MAX <= 0xffff_ffff_ffff_ffff,
        ;
        hunks += n as u128;
        if whole {
            whole_file_changes += 1;
        }
        if n > 0 || whole {
            contributing += 1;
        }
        i += 1;
    }
    assert(views.take(views.len() as int) =~= views);
    Counts { hunks, whole_file_changes, files: contributing }
}

pub open spec fn plural_text(n: nat, one: Seq<char>, many: Seq<char>) -> Seq<char> {
    decimal(n) + " "@ + if n == 1 {
        one
    } else {
        many
    }
}

fn plural(n: u128, one: &str, many: &str) -> (r: String)
    ensures
        r@ == plural_text(n as nat, one@, many@),
{
    concat3(
        wide_number(n).as_str(),
        " ",
        if n == 1 {
            one
        } else {
            many
        },
    )
}

/// A subject that remembers whether it is singular.
#[derive(Debug)]
pub struct Phrase {
    pub text: String,
    pub singular: bool,
}

/// What a half is called: its hunks and its changes that no hunk tells, and the
/// files they are in.
pub open spec fn phrase_text(c: Counts) -> Seq<char> {
    let hunks = plural_text(c.hunks as nat, "hunk"@, "hunks"@);
    let whole = plural_text(
        c.whole_file_changes as nat,
        "whole-file change"@,
        "whole-file changes"@,
    );
    let files = plural_text(c.files as nat, "file"@, "files"@);
    if c.hunks == 0 && c.whole_file_changes == 0 {
        "nothing"@
    } else if c.whole_file_changes == 0 {
        hunks + " in "@ + files
    } else if c.hunks == 0 {
        whole + " in "@ + files
    } else {
        hunks + " and "@ + whole + " in "@ + files
    }
}

pub open spec fn phrase_singular(c: Counts) -> bool {
    (c.hunks == 0 && c.whole_file_changes == 0) || c.hunks + c.whole_file_changes == 1
}

pub fn phrase(counts: &Counts) -> (r: Phrase)
    ensures
        r.text@ == phrase_text(*counts),
        r.singular == phrase_singular(*counts),
{
    if counts.hunks == 0 && counts.whole_file_changes == 0 {
        return Phrase { text: "nothing".to_owned(), singular: true };
    }
    let mut text = String::new();
    if counts.hunks > 0 {
        text = plural(counts.hunks, "hunk", "hunks");
        if counts.whole_file_changes > 0 {
            text.append(" and ");
        }
    }
    if counts.whole_file_changes > 0 {
        let whole = plural(counts.whole_file_changes, "whole-file change", "whole-file changes");
        let ghost before = text@;
        text.append(whole.as_str());
        if counts.hunks == 0 {
            assert(before + whole@ =~= whole@);
        }
    }
    text.append(" in ");
    text.append(plural(counts.files, "file", "files").as_str());
    Phrase {
        text,
        singular: (counts.hunks == 1 && counts.whole_file_changes == 0) || (counts.hunks == 0
            && counts.whole_file_changes == 1),
    }
}

/// The form of a verb that a phrase takes.
pub open spec fn conjugated(c: Counts, one: Seq<char>, many: Seq<char>) -> Seq<char> {
    if phrase_singular(c) {
        one
    } else {
        many
    }
}

impl Phrase {
    /// The form of a verb that this phrase takes.
    pub fn verb(&self, singular: &'static str, plural: &'static str) -> (r: &'static str)
        ensures
            r@ == (if self.singular {
                singular@
            } else {
                plural@
            }),
    {
        if self.singular {
            singular
        } else {
            plural
        }
    }
}

// ---------------------------------------------------------------------------
// Halves
// ---------------------------------------------------------------------------

/// Where a half's outcome comes to be.
#[derive(Debug)]
pub enum Landing {
    /// A revision that is there and survives.
    Revision { revision: RevisionRef },
    /// The working copy, which a commit replaces: it has no ids to name.
    WorkingCopy,
    /// A commit that is created, whose ids cannot be known.
    NewCommit { label: &'static str, message: Option<String> },
}

/// One half of a diff, and what becomes of it.
#[derive(Debug)]
pub struct Half {
    /// A change without hunks is counted apart: it cannot be taken apart.
    pub hunks: u128,
    pub whole_file_changes: u128,
    pub files: u128,
    pub effect: &'static str,
    /// Whether this half's content survives nowhere in the repository.
    pub loses_content: bool,
    pub lands_in: Landing,
    /// The revision whose content takes the place of what is lost.
    pub replaced_by: Option<RevisionRef>,
    /// The same facts as one clause.
    pub describe: String,
}

#[verifier::ext_equal]
pub enum LandingView {
    Revision { revision: RevisionView },
    WorkingCopy,
    NewCommit { label: Seq<char>, message: Option<Seq<char>> },
}

#[verifier::ext_equal]
pub struct HalfView {
    pub counts: Counts,
    pub effect: Effect,
    pub lands_in: LandingView,
    pub replaced_by: Option<RevisionView>,
    pub describe: Seq<char>,
}

impl DeepView for Landing {
    type V = LandingView;

    open spec fn deep_view(&self) -> LandingView {
        match self {
            Landing::Revision { revision } => LandingView::Revision {
                revision: revision.deep_view(),
            },
            Landing::WorkingCopy => LandingView::WorkingCopy,
            Landing::NewCommit { label, message } => LandingView::NewCommit {
                label: label@,
                message: message.deep_view(),
            },
        }
    }
}

impl Half {
    /// Whether this is a half with some contents.
    pub open spec fn tells(&self, view: HalfView) -> bool {
        &&& self.hunks == view.counts.hunks
        &&& self.whole_file_changes == view.counts.whole_file_changes
        &&& self.files == view.counts.files
        &&& self.effect@ == effect_text(view.effect)
        &&& self.loses_content == loses(view.effect)
        &&& self.lands_in.deep_view() == view.lands_in
        &&& self.replaced_by.deep_view() == view.replaced_by
        &&& self.describe@ == view.describe
    }

    /// A half. One that loses content says what replaces it, and no other does.
    pub fn new(
        counts: Counts,
        effect: Effect,
        lands_in: Landing,
        replaced_by: Option<RevisionRef>,
        describe: String,
    ) -> (r: Half)
        requires
            loses(effect) == (replaced_by is Some),
        ensures
            r.tells(
                HalfView {
                    counts,
                    effect,
                    lands_in: lands_in.deep_view(),
                    replaced_by: replaced_by.deep_view(),
                    describe: describe@,
                },
            ),
    {
        Half {
            hunks: counts.hunks,
            whole_file_changes: counts.whole_file_changes,
            files: counts.files,
            effect: effect.as_str(),
            loses_content: effect.loses_content(),
            lands_in,
            replaced_by,
            describe,
        }
    }
}

/// A text as Rust's debug format shows it.
pub uninterp spec fn debug_text(text: Seq<char>) -> Seq<char>;

/// Show a text between quotation marks, with what a terminal would act on
/// escaped.
///
/// Calls the `Debug` format of `str`. The contract claims that the outcome
/// depends on the text alone.
#[verifier::external_body]
fn debug_format(text: &str) -> (r: String)
    ensures
        r@ == debug_text(text@),
{
    format!("{:?}", text)
}

/// The beginning of an id.
pub open spec fn short_change(id: Seq<char>) -> Seq<char> {
    if id.len() > 8 {
        id.take(8)
    } else {
        id
    }
}

/// The beginning of an id.
pub(crate) fn short(id: &str) -> (r: String)
    ensures
        r@ == short_change(id@),
{
    let chars = chars_of(id);
    let n: usize = if chars.len() > 8 {
        8
    } else {
        chars.len()
    };
    let r = string_of(&chars, 0, n);
    assert(r@ =~= short_change(id@));
    r
}

/// What a revision is called.
pub open spec fn label_text(r: RevisionView) -> Seq<char> {
    r.revset + " ("@ + short_change(r.change_id) + ")"@
}

fn label_of(revision: &RevisionRef) -> (r: String)
    ensures
        r@ == label_text(revision.deep_view()),
{
    let mut out = concat3(revision.revset.as_str(), " (", short(revision.change_id.as_str()).as_str());
    out.append(")");
    out
}

/// A clause about a half: its phrase, the form of a verb, and the rest.
pub open spec fn clause(c: Counts, one: Seq<char>, many: Seq<char>, rest: Seq<char>) -> Seq<char> {
    phrase_text(c) + " "@ + conjugated(c, one, many) + " "@ + rest
}

fn make_clause(p: &Phrase, one: &'static str, many: &'static str, rest: &str) -> (r: String)
    ensures
        forall|c: Counts|
            p.text@ == #[trigger] phrase_text(c) && p.singular == phrase_singular(c) ==> r@
                == clause(c, one@, many@, rest@),
{
    let mut out = concat3(p.text.as_str(), " ", p.verb(one, many));
    out.append(" ");
    out.append(rest);
    out
}

/// The two halves of what a command comes to.
///
/// Split and commit make a commit of what is named and differ in where the rest
/// is left; squash moves what is named; diffedit keeps what is named and drops
/// the rest; restore undoes what is named and leaves the rest. Here `left` is
/// the left of the diff and `right` its right.
pub open spec fn expected_halves(
    verb: Verb,
    left: RevisionView,
    right: RevisionView,
    named: Counts,
    rest: Counts,
) -> (HalfView, HalfView) {
    match verb {
        Verb::Split { message } => (
            HalfView {
                counts: named,
                effect: Effect::Commit,
                lands_in: LandingView::NewCommit {
                    label: "Selected changes"@,
                    message: Some(message@),
                },
                replaced_by: None,
                describe: clause(
                    named,
                    "goes"@,
                    "go"@,
                    "into the first commit, described "@ + debug_text(message@),
                ),
            },
            HalfView {
                counts: rest,
                effect: Effect::Keep,
                lands_in: LandingView::NewCommit { label: "Remaining changes"@, message: None },
                replaced_by: None,
                describe: clause(rest, "stays"@, "stay"@, "in the second commit"@),
            },
        ),
        Verb::Commit { message } => (
            HalfView {
                counts: named,
                effect: Effect::Commit,
                lands_in: LandingView::NewCommit {
                    label: "the new commit"@,
                    message: Some(message@),
                },
                replaced_by: None,
                describe: clause(named, "is"@, "are"@, "committed as "@ + debug_text(message@)),
            },
            HalfView {
                counts: rest,
                effect: Effect::Keep,
                lands_in: LandingView::WorkingCopy,
                replaced_by: None,
                describe: clause(rest, "stays"@, "stay"@, "in the working copy"@),
            },
        ),
        Verb::Squash => (
            HalfView {
                counts: named,
                effect: Effect::Move,
                lands_in: LandingView::Revision { revision: left },
                replaced_by: None,
                describe: clause(named, "moves"@, "move"@, "into "@ + label_text(left)),
            },
            HalfView {
                counts: rest,
                effect: Effect::Keep,
                lands_in: LandingView::Revision { revision: right },
                replaced_by: None,
                describe: clause(rest, "stays"@, "stay"@, "in "@ + label_text(right)),
            },
        ),
        Verb::Diffedit => (
            HalfView {
                counts: named,
                effect: Effect::Keep,
                lands_in: LandingView::Revision { revision: right },
                replaced_by: None,
                describe: clause(named, "is"@, "are"@, "kept in "@ + label_text(right)),
            },
            HalfView {
                counts: rest,
                effect: Effect::Discard,
                lands_in: LandingView::Revision { revision: right },
                replaced_by: Some(left),
                describe: clause(
                    rest,
                    "is"@,
                    "are"@,
                    "DISCARDED from "@ + label_text(right) + ", whose content there goes back to "@
                        + label_text(left),
                ),
            },
        ),
        Verb::Restore => (
            HalfView {
                counts: named,
                effect: Effect::Undo,
                lands_in: LandingView::Revision { revision: left },
                replaced_by: Some(right),
                describe: clause(
                    named,
                    "is"@,
                    "are"@,
                    "UNDONE in "@ + label_text(left) + ", whose content there is restored from "@
                        + label_text(right),
                ),
            },
            HalfView {
                counts: rest,
                effect: Effect::Keep,
                lands_in: LandingView::Revision { revision: left },
                replaced_by: None,
                describe: clause(rest, "is"@, "are"@, "left alone in "@ + label_text(left)),
            },
        ),
    }
}

/// Whether a command needs the left of the diff.
pub open spec fn needs_left(verb: Verb) -> bool {
    verb is Squash || verb is Diffedit || verb is Restore
}

/// The counts of one half.
pub open spec fn counts_of(files: Seq<OutcomeView>, selected: bool) -> Counts {
    Counts {
        hunks: count_hunks(files, selected) as u128,
        whole_file_changes: count_whole(files, selected) as u128,
        files: count_files(files, selected) as u128,
    }
}

fn split_halves(message: &str, named: Counts, rest: Counts, kept: &Phrase, dropped: &Phrase) -> (r: (
    Half,
    Half,
))
    requires
        kept.text@ == phrase_text(named) && kept.singular == phrase_singular(named),
        dropped.text@ == phrase_text(rest) && dropped.singular == phrase_singular(rest),
    ensures
        forall|left: RevisionView, right: RevisionView|
            {
                let (a, b) = #[trigger] expected_halves(
                    Verb::Split { message },
                    left,
                    right,
                    named,
                    rest,
                );
                r.0.tells(a) && r.1.tells(b)
            },
{
    let told = concat2("into the first commit, described ", debug_format(message).as_str());
    let first = Half::new(
        named,
        Effect::Commit,
        Landing::NewCommit { label: "Selected changes", message: Some(message.to_owned()) },
        None,
        make_clause(kept, "goes", "go", told.as_str()),
    );
    let second = Half::new(
        rest,
        Effect::Keep,
        Landing::NewCommit { label: "Remaining changes", message: None },
        None,
        make_clause(dropped, "stays", "stay", "in the second commit"),
    );
    (first, second)
}

fn commit_halves(message: &str, named: Counts, rest: Counts, kept: &Phrase, dropped: &Phrase) -> (r:
    (Half, Half))
    requires
        kept.text@ == phrase_text(named) && kept.singular == phrase_singular(named),
        dropped.text@ == phrase_text(rest) && dropped.singular == phrase_singular(rest),
    ensures
        forall|left: RevisionView, right: RevisionView|
            {
                let (a, b) = #[trigger] expected_halves(
                    Verb::Commit { message },
                    left,
                    right,
                    named,
                    rest,
                );
                r.0.tells(a) && r.1.tells(b)
            },
{
    let told = concat2("committed as ", debug_format(message).as_str());
    let first = Half::new(
        named,
        Effect::Commit,
        Landing::NewCommit { label: "the new commit", message: Some(message.to_owned()) },
        None,
        make_clause(kept, "is", "are", told.as_str()),
    );
    let second = Half::new(
        rest,
        Effect::Keep,
        Landing::WorkingCopy,
        None,
        make_clause(dropped, "stays", "stay", "in the working copy"),
    );
    (first, second)
}

fn squash_halves(
    left: &RevisionRef,
    right: &RevisionRef,
    named: Counts,
    rest: Counts,
    kept: &Phrase,
    dropped: &Phrase,
) -> (r: (Half, Half))
    requires
        kept.text@ == phrase_text(named) && kept.singular == phrase_singular(named),
        dropped.text@ == phrase_text(rest) && dropped.singular == phrase_singular(rest),
    ensures
        ({
            let (a, b) = expected_halves(
                Verb::Squash,
                left.deep_view(),
                right.deep_view(),
                named,
                rest,
            );
            r.0.tells(a) && r.1.tells(b)
        }),
{
    let into = concat2("into ", label_of(left).as_str());
    let stay = concat2("in ", label_of(right).as_str());
    let first = Half::new(
        named,
        Effect::Move,
        Landing::Revision { revision: left.copied() },
        None,
        make_clause(kept, "moves", "move", into.as_str()),
    );
    let second = Half::new(
        rest,
        Effect::Keep,
        Landing::Revision { revision: right.copied() },
        None,
        make_clause(dropped, "stays", "stay", stay.as_str()),
    );
    (first, second)
}

fn diffedit_halves(
    left: &RevisionRef,
    right: &RevisionRef,
    named: Counts,
    rest: Counts,
    kept: &Phrase,
    dropped: &Phrase,
) -> (r: (Half, Half))
    requires
        kept.text@ == phrase_text(named) && kept.singular == phrase_singular(named),
        dropped.text@ == phrase_text(rest) && dropped.singular == phrase_singular(rest),
    ensures
        ({
            let (a, b) = expected_halves(
                Verb::Diffedit,
                left.deep_view(),
                right.deep_view(),
                named,
                rest,
            );
            r.0.tells(a) && r.1.tells(b)
        }),
{
    let stays = concat2("kept in ", label_of(right).as_str());
    let mut goes = concat3(
        "DISCARDED from ",
        label_of(right).as_str(),
        ", whose content there goes back to ",
    );
    goes.append(label_of(left).as_str());
    let first = Half::new(
        named,
        Effect::Keep,
        Landing::Revision { revision: right.copied() },
        None,
        make_clause(kept, "is", "are", stays.as_str()),
    );
    let second = Half::new(
        rest,
        Effect::Discard,
        Landing::Revision { revision: right.copied() },
        Some(left.copied()),
        make_clause(dropped, "is", "are", goes.as_str()),
    );
    (first, second)
}

fn restore_halves(
    left: &RevisionRef,
    right: &RevisionRef,
    named: Counts,
    rest: Counts,
    kept: &Phrase,
    dropped: &Phrase,
) -> (r: (Half, Half))
    requires
        kept.text@ == phrase_text(named) && kept.singular == phrase_singular(named),
        dropped.text@ == phrase_text(rest) && dropped.singular == phrase_singular(rest),
    ensures
        ({
            let (a, b) = expected_halves(
                Verb::Restore,
                left.deep_view(),
                right.deep_view(),
                named,
                rest,
            );
            r.0.tells(a) && r.1.tells(b)
        }),
{
    let mut undone = concat3(
        "UNDONE in ",
        label_of(left).as_str(),
        ", whose content there is restored from ",
    );
    undone.append(label_of(right).as_str());
    let alone = concat2("left alone in ", label_of(left).as_str());
    let first = Half::new(
        named,
        Effect::Undo,
        Landing::Revision { revision: left.copied() },
        Some(right.copied()),
        make_clause(kept, "is", "are", undone.as_str()),
    );
    let second = Half::new(
        rest,
        Effect::Keep,
        Landing::Revision { revision: left.copied() },
        None,
        make_clause(dropped, "is", "are", alone.as_str()),
    );
    (first, second)
}

/// The two halves of what a command comes to, and the revision it rewrites: the
/// left of the diff for a restore, whose diff is reversed, and the right for
/// everything else.
pub fn halves(verb: Verb, ends: &Endpoints, files: &Vec<FileOutcome>) -> (r: Result<
    (Half, Half, RevisionRef),
    String,
>)
    ensures
        ({
            let views = deep(files@);
            let right = ends.right.deep_view();
            match r {
                Ok((selected, unselected, rewritten)) => {
                    &&& needs_left(verb) ==> ends.left is Some
                    &&& forall|left: RevisionView|
                        (ends.left matches Some(l) ==> left == l.deep_view()) ==> {
                            let (a, b) = #[trigger] expected_halves(
                                verb,
                                left,
                                right,
                                counts_of(views, true),
                                counts_of(views, false),
                            );
                            selected.tells(a) && unselected.tells(b)
                        }
                    &&& rewritten.deep_view() == (if verb is Restore {
                        ends.left.deep_view()->0
                    } else {
                        right
                    })
                },
                Err(message) => needs_left(verb) && ends.left is None && message@ == "`"@
                    + right.revset
                    + "` has no parent, so there is no revision for its content to come from"@,
            }
        }),
{
    let named = count(files, true);
    let rest = count(files, false);
    let kept = phrase(&named);
    let dropped = phrase(&rest);
    let ghost views = deep(files@);
    assert(named == counts_of(views, true));
    assert(rest == counts_of(views, false));
    match verb {
        Verb::Split { message } => {
            let (a, b) = split_halves(message, named, rest, &kept, &dropped);
            return Ok((a, b, ends.right.copied()));
        },
        Verb::Commit { message } => {
            let (a, b) = commit_halves(message, named, rest, &kept, &dropped);
            return Ok((a, b, ends.right.copied()));
        },
        _ => {},
    }
    let left = match &ends.left {
        Some(left) => left,
        None => {
            return Err(
                concat3(
                    "`",
                    ends.right.revset.as_str(),
                    "` has no parent, so there is no revision for its content to come from",
                ),
            );
        },
    };
    match verb {
        Verb::Squash => {
            let (a, b) = squash_halves(left, &ends.right, named, rest, &kept, &dropped);
            Ok((a, b, ends.right.copied()))
        },
        Verb::Diffedit => {
            let (a, b) = diffedit_halves(left, &ends.right, named, rest, &kept, &dropped);
            Ok((a, b, ends.right.copied()))
        },
        _ => {
            let (a, b) = restore_halves(left, &ends.right, named, rest, &kept, &dropped);
            Ok((a, b, left.copied()))
        },
    }
}

// ---------------------------------------------------------------------------
// Laws of the halves
// ---------------------------------------------------------------------------

/// A half that loses content says what replaces it, and no other half does.
pub proof fn what_is_lost_is_replaced(
    verb: Verb,
    left: RevisionView,
    right: RevisionView,
    named: Counts,
    rest: Counts,
)
    ensures
        ({
            let (a, b) = expected_halves(verb, left, right, named, rest);
            &&& loses(a.effect) == (a.replaced_by is Some)
            &&& loses(b.effect) == (b.replaced_by is Some)
        }),
{
}

/// Diffedit and restore are mirror images: what one keeps of what is named the
/// other undoes, and the half that loses content is the other one.
pub proof fn diffedit_and_restore_mirror_each_other(
    left: RevisionView,
    right: RevisionView,
    named: Counts,
    rest: Counts,
)
    ensures
        ({
            let (edit_named, edit_rest) = expected_halves(
                Verb::Diffedit,
                left,
                right,
                named,
                rest,
            );
            let (undo_named, undo_rest) = expected_halves(Verb::Restore, left, right, named, rest);
            &&& !loses(edit_named.effect) && loses(edit_rest.effect)
            &&& loses(undo_named.effect) && !loses(undo_rest.effect)
            &&& edit_named.effect == Effect::Keep && undo_rest.effect == Effect::Keep
        }),
{
}

/// What kind of place a half lands in.
pub open spec fn landing_kind(l: LandingView) -> int {
    match l {
        LandingView::Revision { .. } => 0,
        LandingView::WorkingCopy => 1,
        LandingView::NewCommit { .. } => 2,
    }
}

/// No two commands come to the same effects in the same kinds of places: each
/// preview tells which command it is of.
pub proof fn every_command_has_its_own_signature(
    a: Verb,
    b: Verb,
    left: RevisionView,
    right: RevisionView,
    named: Counts,
    rest: Counts,
)
    requires
        ({
            let (x, y) = expected_halves(a, left, right, named, rest);
            let (u, v) = expected_halves(b, left, right, named, rest);
            &&& x.effect == u.effect && y.effect == v.effect
            &&& landing_kind(x.lands_in) == landing_kind(u.lands_in)
            &&& landing_kind(y.lands_in) == landing_kind(v.lands_in)
        }),
    ensures
        verb_name(a) == verb_name(b),
{
}

// ---------------------------------------------------------------------------
// The plan
// ---------------------------------------------------------------------------

/// What a command would come to.
#[derive(Debug)]
pub struct Plan {
    /// Always set.
    pub dry_run: bool,
    pub command: &'static str,
    /// Never set.
    pub changed: bool,
    /// The selection as it was written.
    pub selector: String,
    /// The listing whose ids these are.
    pub listing: String,
    /// The revision that would be rewritten.
    pub revision: RevisionRef,
    pub selected: Half,
    pub unselected: Half,
    pub files: Vec<FileOutcome>,
    pub notes: Vec<String>,
    /// The two halves in one line.
    pub summary: String,
}

/// How many changes have no hunks.
pub open spec fn count_hunkless(files: Seq<OutcomeView>) -> nat
    decreases files.len(),
{
    if files.len() == 0 {
        0
    } else {
        count_hunkless(files.drop_last()) + if files.last().whole_file is Some {
            1nat
        } else {
            0nat
        }
    }
}

/// How many files have hunks and a change that no hunk tells.
pub open spec fn count_riding(files: Seq<FileView>) -> nat
    decreases files.len(),
{
    if files.len() == 0 {
        0
    } else {
        count_riding(files.drop_last()) + if files.last().hunks.len() > 0 && has_hunkless_change(
            files.last(),
        ) {
            1nat
        } else {
            0nat
        }
    }
}

pub open spec fn has_path(files: Seq<FileView>, path: Seq<char>) -> bool {
    exists|i: int| 0 <= i < files.len() && (#[trigger] files[i]).path == path
}

/// The keys among the first `n` that are no path of the diff.
pub open spec fn absent_keys(
    entries: Seq<(Seq<char>, crate::spec::FileSpecView)>,
    files: Seq<FileView>,
) -> Seq<Seq<char>>
    decreases entries.len(),
{
    if entries.len() == 0 {
        Seq::empty()
    } else if has_path(files, entries.last().0) {
        absent_keys(entries.drop_last(), files)
    } else {
        absent_keys(entries.drop_last(), files).push(entries.last().0)
    }
}

/// A note, where there is reason for one.
pub open spec fn noted(reason: bool, text: Seq<char>) -> Seq<Seq<char>> {
    if reason {
        seq![text]
    } else {
        Seq::empty()
    }
}

/// What the counts cannot say, and what changes what to do.
pub open spec fn plan_notes(
    verb: Verb,
    spec: SpecView,
    files: Seq<FileView>,
    outcomes: Seq<OutcomeView>,
    listing: Seq<char>,
    allow_empty: bool,
) -> Seq<Seq<char>> {
    let hunkless = count_hunkless(outcomes);
    let riding = count_riding(files);
    let absent = absent_keys(spec.files, files);
    noted(
        verb is Restore,
        "restore reads a reversed diff: these hunk ids come from `"@ + listing
            + "`, not from `jj-hunk list -r <rev>`. An id copied from the forward listing names nothing here."@,
    ) + noted(
        hunkless > 0,
        decimal(hunkless)
            + " of these changes produced no hunks at all, so no content-level selector can reach them and each is kept or reset as a whole. See `whole_file.reason` on each."@,
    ) + noted(
        riding > 0,
        decimal(riding)
            + " of these files carry a change no hunk expresses -- a rename, an exec-bit flip, a retargeted symlink. That part cannot be selected apart from the file's hunks: it is kept if any hunk of that file is kept, and goes back if none is."@,
    ) + noted(
        absent.len() > 0,
        "the spec names "@ + plural_text(absent.len(), "path"@, "paths"@)
            + " that this diff does not contain, so they select nothing here: "@ + joined(
            absent,
            ", "@,
        ),
    ) + noted(
        allow_empty && keeps_nothing(spec),
        "--allow-empty: this selection keeps nothing, and that was permitted."@,
    )
}

fn hunkless_count(files: &Vec<FileOutcome>) -> (n: usize)
    ensures
        n == count_hunkless(deep(files@)),
{
    let ghost views = deep(files@);
    let mut n: usize = 0;
    let mut i: usize = 0;
    assert(views.take(0) =~= Seq::empty());
    while i < files.len()
        invariant
            views == deep(files@),
            i <= files.len(),
            n <= i,
            n == count_hunkless(views.take(i as int)),
        decreases files.len() - i,
    {
        assert(views.take(i as int + 1).drop_last() =~= views.take(i as int));
        assert(views.take(i as int + 1).last() == files@[i as int].deep_view());
        if files[i].whole_file.is_some() {
            n += 1;
        }
        i += 1;
    }
    assert(views.take(views.len() as int) =~= views);
    n
}

fn riding_count(files: &Vec<FileHunks>) -> (n: usize)
    ensures
        n == count_riding(deep(files@)),
{
    let ghost views = deep(files@);
    let mut n: usize = 0;
    let mut i: usize = 0;
    assert(views.take(0) =~= Seq::empty());
    while i < files.len()
        invariant
            views == deep(files@),
            i <= files.len(),
            n <= i,
            n == count_riding(views.take(i as int)),
        decreases files.len() - i,
    {
        assert(views.take(i as int + 1).drop_last() =~= views.take(i as int));
        assert(views.take(i as int + 1).last() == files@[i as int].deep_view());
        if files[i].hunks.len() > 0 && files[i].changes_without_hunks() {
            n += 1;
        }
        i += 1;
    }
    assert(views.take(views.len() as int) =~= views);
    n
}

fn is_present(files: &Vec<FileHunks>, path: &str) -> (r: bool)
    ensures
        r == has_path(deep(files@), path@),
{
    let ghost views = deep(files@);
    let mut i: usize = 0;
    while i < files.len()
        invariant
            views == deep(files@),
            i <= files.len(),
            forall|j: int| 0 <= j < i ==> (#[trigger] views[j]).path != path@,
        decreases files.len() - i,
    {
        if same(files[i].path.as_str(), path) {
            assert(views[i as int].path == path@);
            return true;
        }
        i += 1;
    }
    false
}

fn absent_paths(spec: &Spec, files: &Vec<FileHunks>) -> (out: Vec<String>)
    ensures
        deep(out@) == absent_keys(spec.deep_view().files, deep(files@)),
{
    broadcast use group_deep;

    let ghost views = deep(files@);
    let ghost entries = spec.deep_view().files;
    let mut out: Vec<String> = Vec::new();
    let n: usize = spec.files.len();
    let mut i: usize = 0;
    assert(entries.take(0) =~= Seq::empty());
    while i < n
        invariant
            views == deep(files@),
            entries == spec.deep_view().files,
            n == spec.files.keys().len(),
            spec.files.well_formed(),
            i <= n,
            deep(out@) == absent_keys(entries.take(i as int), views),
        decreases n - i,
    {
        assert(entries.take(i as int + 1).drop_last() =~= entries.take(i as int));
        let key = spec.files.key_at(i);
        assert(entries[i as int].0 == key@);
        if !is_present(files, key.as_str()) {
            out.push(key.clone());
        }
        i += 1;
    }
    assert(entries.take(entries.len() as int) =~= entries);
    out
}

/// What the counts cannot say, and what changes what to do.
pub fn notes(
    verb: Verb,
    spec: &Spec,
    file_hunks: &Vec<FileHunks>,
    files: &Vec<FileOutcome>,
    listing: &str,
    allow_empty: bool,
) -> (out: Vec<String>)
    ensures
        deep(out@) == plan_notes(
            verb,
            spec.deep_view(),
            deep(file_hunks@),
            deep(files@),
            listing@,
            allow_empty,
        ),
{
    broadcast use group_deep;

    let mut out: Vec<String> = Vec::new();
    if let Verb::Restore = verb {
        out.push(
            concat3(
                "restore reads a reversed diff: these hunk ids come from `",
                listing,
                "`, not from `jj-hunk list -r <rev>`. An id copied from the forward listing names nothing here.",
            ),
        );
    }
    let hunkless = hunkless_count(files);
    if hunkless > 0 {
        out.push(
            concat2(
                number(hunkless).as_str(),
                " of these changes produced no hunks at all, so no content-level selector can reach them and each is kept or reset as a whole. See `whole_file.reason` on each.",
            ),
        );
    }
    let riding = riding_count(file_hunks);
    if riding > 0 {
        out.push(
            concat2(
                number(riding).as_str(),
                " of these files carry a change no hunk expresses -- a rename, an exec-bit flip, a retargeted symlink. That part cannot be selected apart from the file's hunks: it is kept if any hunk of that file is kept, and goes back if none is.",
            ),
        );
    }
    let absent = absent_paths(spec, file_hunks);
    if absent.len() > 0 {
        let mut text = concat3(
            "the spec names ",
            plural(absent.len() as u128, "path", "paths").as_str(),
            " that this diff does not contain, so they select nothing here: ",
        );
        text.append(join(&absent, ", ").as_str());
        out.push(text);
    }
    if allow_empty && spec.selects_nothing() {
        out.push("--allow-empty: this selection keeps nothing, and that was permitted.".to_owned());
    }
    assert(deep(out@) =~= plan_notes(
        verb,
        spec.deep_view(),
        deep(file_hunks@),
        deep(files@),
        listing@,
        allow_empty,
    ));
    out
}

/// Why there is no plan.
#[derive(Debug)]
pub enum PlanFailure {
    Undecided(crate::listing::UndecidedFile),
    NoParent(String),
}

/// What is said of a selection that is neither an expression nor a spec.
pub fn unpreviewable() -> (r: &'static str)
    ensures
        r@
            == "--dry-run cannot preview this selection: it is neither a hunkset expression nor a spec this build can parse.\nRun without --dry-run to see what `select` makes of it."@,
{
    "--dry-run cannot preview this selection: it is neither a hunkset expression nor a spec this build can parse.\nRun without --dry-run to see what `select` makes of it."
}

impl Plan {
    /// Whether this is the plan of a command.
    pub open spec fn is_of(
        &self,
        verb: Verb,
        target: TargetView,
        ends: Endpoints,
        spec: SpecView,
        files: Seq<FileView>,
        raw: Seq<char>,
        allow_empty: bool,
    ) -> bool {
        let views = file_outcomes(spec, files);
        &&& self.dry_run && !self.changed
        &&& self.command@ == verb_name(verb)
        &&& self.selector@ == trimmed(raw)
        &&& self.listing@ == listing_of(target)
        &&& self.revision.deep_view() == (if verb is Restore {
            ends.left.deep_view()->0
        } else {
            ends.right.deep_view()
        })
        &&& forall|left: RevisionView|
            (ends.left matches Some(l) ==> left == l.deep_view()) ==> {
                let (a, b) = #[trigger] expected_halves(
                    verb,
                    left,
                    ends.right.deep_view(),
                    counts_of(views, true),
                    counts_of(views, false),
                );
                self.selected.tells(a) && self.unselected.tells(b)
            }
        &&& deep(self.files@) == views
        &&& deep(self.notes@) == plan_notes(
            verb,
            spec,
            files,
            views,
            listing_of(target),
            allow_empty,
        )
        &&& self.summary@ == verb_name(verb) + " --dry-run: "@ + self.selected.describe@ + "; "@
            + self.unselected.describe@ + ". Nothing was changed."@
    }
}

/// Build the plan of a command, once its selection is settled and the ends of
/// its diff are known.
pub fn build(
    verb: Verb,
    target: &DiffTarget,
    ends: &Endpoints,
    spec: &Spec,
    file_hunks: &Vec<FileHunks>,
    raw_spec: &str,
    allow_empty: bool,
) -> (r: Result<Plan, PlanFailure>)
    ensures
        ({
            let s = spec.deep_view();
            let files = deep(file_hunks@);
            match r {
                Ok(plan) => plan.is_of(
                    verb,
                    target.deep_view(),
                    *ends,
                    s,
                    files,
                    raw_spec@,
                    allow_empty,
                ) && (needs_left(verb) ==> ends.left is Some) && forall|j: int|
                    0 <= j < files.len() ==> !is_unclear(s, #[trigger] files[j]),
                Err(PlanFailure::Undecided(e)) => reports_unclear(s, files, e.path@, e.error),
                Err(PlanFailure::NoParent(message)) => needs_left(verb) && ends.left is None
                    && message@ == "`"@ + ends.right.revset@
                    + "` has no parent, so there is no revision for its content to come from"@,
            }
        }),
{
    let files = match outcomes(spec, file_hunks) {
        Ok(files) => files,
        Err(e) => {
            return Err(PlanFailure::Undecided(e));
        },
    };
    let listing = target.listing_command();
    let (selected, unselected, revision) = match halves(verb, ends, &files) {
        Ok(three) => three,
        Err(message) => {
            return Err(PlanFailure::NoParent(message));
        },
    };
    let said = notes(verb, spec, file_hunks, &files, listing.as_str(), allow_empty);
    let mut summary = concat3(verb.name(), " --dry-run: ", selected.describe.as_str());
    summary.append("; ");
    summary.append(unselected.describe.as_str());
    summary.append(". Nothing was changed.");
    Ok(
        Plan {
            dry_run: true,
            command: verb.name(),
            changed: false,
            selector: trim(raw_spec),
            listing,
            revision,
            selected,
            unselected,
            files,
            notes: said,
            summary,
        },
    )
}

// ---------------------------------------------------------------------------
// What holds of every plan
// ---------------------------------------------------------------------------

/// Whether a half lands in a revision.
pub open spec fn is_in(half: HalfView, revision: RevisionView) -> bool {
    half.lands_in == (LandingView::Revision { revision })
}

/// Where the halves land. A split makes commits of both; a commit makes one of
/// what is named and leaves the rest in the working copy; a squash moves what is
/// named to the left and leaves the rest on the right; a diffedit changes the
/// right, where the rest goes back to the left; a restore changes the left, where
/// what is named goes back to the right. Each half says how much is in it.
pub proof fn each_half_lands_where_its_command_puts_it(
    verb: Verb,
    left: RevisionView,
    right: RevisionView,
    named: Counts,
    rest: Counts,
)
    ensures
        ({
            let (a, b) = expected_halves(verb, left, right, named, rest);
            &&& a.counts == named && b.counts == rest
            &&& exists|tail: Seq<char>| a.describe == #[trigger] (phrase_text(named) + " "@ + tail)
            &&& exists|tail: Seq<char>| b.describe == #[trigger] (phrase_text(rest) + " "@ + tail)
            &&& match verb {
                Verb::Split { message } => {
                    &&& a.effect == Effect::Commit && b.effect == Effect::Keep
                    &&& a.lands_in matches LandingView::NewCommit { message: m, .. } && m == Some(
                        message@,
                    )
                    &&& b.lands_in matches LandingView::NewCommit { message: m, .. } && m is None
                },
                Verb::Commit { message } => {
                    &&& a.effect == Effect::Commit && b.effect == Effect::Keep
                    &&& a.lands_in matches LandingView::NewCommit { message: m, .. } && m == Some(
                        message@,
                    )
                    &&& b.lands_in is WorkingCopy
                },
                Verb::Squash => {
                    &&& a.effect == Effect::Move && b.effect == Effect::Keep
                    &&& is_in(a, left) && is_in(b, right)
                },
                Verb::Diffedit => {
                    &&& a.effect == Effect::Keep && b.effect == Effect::Discard
                    &&& is_in(a, right) && is_in(b, right)
                    &&& a.replaced_by is None && b.replaced_by == Some(left)
                },
                Verb::Restore => {
                    &&& a.effect == Effect::Undo && b.effect == Effect::Keep
                    &&& is_in(a, left) && is_in(b, left)
                    &&& a.replaced_by == Some(right) && b.replaced_by is None
                },
            }
        }),
{
    let (a, b) = expected_halves(verb, left, right, named, rest);
    lemma_clause(named, a.describe, verb, left, right, rest, true);
    lemma_clause(rest, b.describe, verb, left, right, named, false);
}

proof fn lemma_clause(
    counts: Counts,
    text: Seq<char>,
    verb: Verb,
    left: RevisionView,
    right: RevisionView,
    other: Counts,
    first: bool,
)
    requires
        text == if first {
            expected_halves(verb, left, right, counts, other).0.describe
        } else {
            expected_halves(verb, left, right, other, counts).1.describe
        },
    ensures
        exists|tail: Seq<char>| text == #[trigger] (phrase_text(counts) + " "@ + tail),
{
    let head = phrase_text(counts) + " "@;
    let tail = text.skip(head.len() as int);
    assert(text.take(head.len() as int) =~= head);
    assert(text =~= phrase_text(counts) + " "@ + tail);
}

/// Only a diffedit and a restore lose anything: the one of the rest, the other of
/// what is named.
pub proof fn only_diffedit_and_restore_lose_anything(
    verb: Verb,
    left: RevisionView,
    right: RevisionView,
    named: Counts,
    rest: Counts,
)
    ensures
        ({
            let (a, b) = expected_halves(verb, left, right, named, rest);
            &&& loses(a.effect) <==> verb is Restore
            &&& loses(b.effect) <==> verb is Diffedit
        }),
{
}

/// A phrase is in the singular exactly where it counts one change, or none.
pub proof fn a_phrase_of_one_change_is_singular(c: Counts)
    ensures
        phrase_singular(c) <==> c.hunks + c.whole_file_changes <= 1,
        phrase_text(c) == "nothing"@ <== c.hunks + c.whole_file_changes == 0,
{
}

/// What an id is shortened to is a beginning of it: all of it where it is short,
/// else eight characters.
pub proof fn a_short_id_is_a_beginning(id: Seq<char>)
    ensures
        crate::text::begins_with(id, short_change(id)),
        id.len() <= 8 ==> short_change(id) == id,
        id.len() > 8 ==> short_change(id).len() == 8,
{
    assert(id.take(short_change(id).len() as int) =~= short_change(id));
}

proof fn lemma_absent_keys(
    entries: Seq<(Seq<char>, crate::spec::FileSpecView)>,
    files: Seq<FileView>,
    path: Seq<char>,
)
    ensures
        absent_keys(entries, files).contains(path) <==> !has_path(files, path) && exists|i: int|
            0 <= i < entries.len() && (#[trigger] entries[i]).0 == path,
    decreases entries.len(),
{
    if entries.len() > 0 {
        let rest = entries.drop_last();
        let before = absent_keys(rest, files);
        let all = absent_keys(entries, files);
        lemma_absent_keys(rest, files, path);
        if !has_path(files, path) && exists|i: int|
            0 <= i < entries.len() && (#[trigger] entries[i]).0 == path {
            let i = choose|i: int| 0 <= i < entries.len() && (#[trigger] entries[i]).0 == path;
            if i < rest.len() {
                assert(rest[i] == entries[i]);
                let k = choose|k: int| 0 <= k < before.len() && before[k] == path;
                assert(all[k] == path);
            } else {
                assert(all[all.len() - 1] == path);
            }
        }
        if all.contains(path) {
            let k = choose|k: int| 0 <= k < all.len() && all[k] == path;
            if k < before.len() {
                assert(before[k] == path);
                let i = choose|i: int| 0 <= i < rest.len() && (#[trigger] rest[i]).0 == path;
                assert(entries[i] == rest[i]);
            } else {
                assert(entries[entries.len() - 1].0 == path);
            }
        }
    }
}

proof fn lemma_riding(files: Seq<FileView>)
    ensures
        count_riding(files) > 0 <==> exists|i: int|
            0 <= i < files.len() && (#[trigger] files[i]).hunks.len() > 0 && has_hunkless_change(
                files[i],
            ),
    decreases files.len(),
{
    if files.len() > 0 {
        let rest = files.drop_last();
        lemma_riding(rest);
        if exists|i: int|
            0 <= i < rest.len() && (#[trigger] rest[i]).hunks.len() > 0 && has_hunkless_change(
                rest[i],
            ) {
            let i = choose|i: int|
                0 <= i < rest.len() && (#[trigger] rest[i]).hunks.len() > 0 && has_hunkless_change(
                    rest[i],
                );
            assert(files[i] == rest[i]);
        }
        if exists|i: int|
            0 <= i < files.len() && (#[trigger] files[i]).hunks.len() > 0 && has_hunkless_change(
                files[i],
            ) {
            let i = choose|i: int|
                0 <= i < files.len() && (#[trigger] files[i]).hunks.len() > 0
                    && has_hunkless_change(files[i]);
            if i < rest.len() {
                assert(rest[i] == files[i]);
            }
        }
        assert(files[files.len() - 1] == files.last());
    }
}

proof fn lemma_hunkless(spec: SpecView, files: Seq<FileView>)
    ensures
        count_hunkless(file_outcomes(spec, files)) == hunkless_changes(files),
        hunkless_changes(files) > 0 <==> exists|i: int|
            0 <= i < files.len() && (#[trigger] files[i]).hunks.len() == 0 && has_hunkless_change(
                files[i],
            ),
    decreases files.len(),
{
    let all = file_outcomes(spec, files);
    if files.len() > 0 {
        let rest = files.drop_last();
        lemma_hunkless(spec, rest);
        assert(all.drop_last() =~= file_outcomes(spec, rest));
        assert(all.last() == file_outcome(spec, files.last()));
        if exists|i: int|
            0 <= i < rest.len() && (#[trigger] rest[i]).hunks.len() == 0 && has_hunkless_change(
                rest[i],
            ) {
            let i = choose|i: int|
                0 <= i < rest.len() && (#[trigger] rest[i]).hunks.len() == 0
                    && has_hunkless_change(rest[i]);
            assert(files[i] == rest[i]);
        }
        if exists|i: int|
            0 <= i < files.len() && (#[trigger] files[i]).hunks.len() == 0 && has_hunkless_change(
                files[i],
            ) {
            let i = choose|i: int|
                0 <= i < files.len() && (#[trigger] files[i]).hunks.len() == 0
                    && has_hunkless_change(files[i]);
            if i < rest.len() {
                assert(rest[i] == files[i]);
            }
        }
        assert(files[files.len() - 1] == files.last());
    }
}

/// A plan has a note for each thing that the counts cannot say, and none besides:
/// that a diff is reversed, that a change has no hunk, that one goes along with a
/// file's hunks, that the spec names a path which is not there, and that it keeps
/// nothing by leave.
pub proof fn a_plan_notes_what_the_counts_cannot_say(
    verb: Verb,
    spec: SpecView,
    files: Seq<FileView>,
    listing: Seq<char>,
    allow_empty: bool,
)
    ensures
        ({
            let notes = plan_notes(
                verb,
                spec,
                files,
                file_outcomes(spec, files),
                listing,
                allow_empty,
            );
            let one = |b: bool|
                if b {
                    1int
                } else {
                    0int
                };
            notes.len() == one(verb is Restore) + one(
                exists|i: int|
                    0 <= i < files.len() && (#[trigger] files[i]).hunks.len() == 0
                        && has_hunkless_change(files[i]),
            ) + one(
                exists|i: int|
                    0 <= i < files.len() && (#[trigger] files[i]).hunks.len() > 0
                        && has_hunkless_change(files[i]),
            ) + one(
                exists|i: int|
                    0 <= i < spec.files.len() && !has_path(files, (#[trigger] spec.files[i]).0),
            ) + one(allow_empty && keeps_nothing(spec))
        }),
{
    lemma_riding(files);
    lemma_hunkless(spec, files);
    let absent = absent_keys(spec.files, files);
    if absent.len() > 0 {
        lemma_absent_keys(spec.files, files, absent[0]);
        assert(absent.contains(absent[0]));
        let i = choose|i: int|
            0 <= i < spec.files.len() && (#[trigger] spec.files[i]).0 == absent[0];
        assert(!has_path(files, spec.files[i].0));
    }
    if exists|i: int|
        0 <= i < spec.files.len() && !has_path(files, (#[trigger] spec.files[i]).0) {
        let i = choose|i: int|
            0 <= i < spec.files.len() && !has_path(files, (#[trigger] spec.files[i]).0);
        lemma_absent_keys(spec.files, files, spec.files[i].0);
        assert(absent.contains(spec.files[i].0));
    }
}

/// The paths that a plan reports as absent are those that the spec names and that
/// are none of the diff's.
pub proof fn an_absent_path_is_named_and_not_there(
    spec: SpecView,
    files: Seq<FileView>,
    path: Seq<char>,
)
    ensures
        absent_keys(spec.files, files).contains(path) <==> (exists|i: int|
            0 <= i < spec.files.len() && (#[trigger] spec.files[i]).0 == path) && (forall|i: int|
            0 <= i < files.len() ==> (#[trigger] files[i]).path != path),
{
    lemma_absent_keys(spec.files, files, path);
}

/// What a preview gives as the reason of a change without hunks is the first that
/// holds of the file: that it is binary, that its mode changes, that it is a link,
/// that it was moved; and that it is empty where none of these holds.
pub proof fn a_reason_says_what_the_file_is(spec: SpecView, f: FileView)
    ensures
        file_outcome(spec, f).whole_file matches Some(whole) ==> {
            let moved = moved_from(f.rename, f.path) is Some;
            &&& whole.reason == "binary"@ <==> f.is_binary
            &&& whole.reason == "mode-change"@ <==> !f.is_binary && f.mode is Some
            &&& whole.reason == "symlink"@ <==> !f.is_binary && f.mode is None && f.is_symlink
            &&& whole.reason == "rename"@ <==> !f.is_binary && f.mode is None && !f.is_symlink
                && moved
            &&& whole.reason == "empty-file"@ <==> !f.is_binary && f.mode is None && !f.is_symlink
                && !moved
        },
{
    reveal_strlit("binary");
    reveal_strlit("mode-change");
    reveal_strlit("symlink");
    reveal_strlit("rename");
    reveal_strlit("empty-file");
    assert("binary"@.len() == 6 && "mode-change"@.len() == 11 && "symlink"@.len() == 7);
    assert("rename"@.len() == 6 && "empty-file"@.len() == 10);
    assert("binary"@[0] == 'b' && "rename"@[0] == 'r');
}

} // verus!
