//! Which two trees a diff is taken between.

use crate::errors::{group_shapes, Code, CodedError, CodedView, ErrorCode};
use crate::files::{left_path, path_of, right_path, DiffSummaryEntry, FilePaths};
use crate::node::{number_node, text_node, texts_node, Node, NodeView};
use crate::paths::{fileset_exact_path, literal};
use crate::text::{
    concat2, concat3, decimal, deep, group_deep, join, joined, lines_of, number, parted, plain_lines,
    split_once, split_words, trim, trimmed, words,
};
use vstd::prelude::*;

verus! {

// ---------------------------------------------------------------------------
// Targets
// ---------------------------------------------------------------------------

/// The two trees a diff is taken between.
///
/// `Rev` is a revision against its parent, the working copy where none is
/// named. `FromTo` names both sides: a command that shows its editor the
/// reverse of that needs it, because a hunk id is a hash of the text it was
/// computed from.
#[derive(Debug, Clone, PartialEq, Eq)]
pub enum DiffTarget {
    Rev(Option<String>),
    FromTo { from: String, to: String },
}

#[verifier::ext_equal]
pub enum TargetView {
    Rev(Option<Seq<char>>),
    FromTo { from: Seq<char>, to: Seq<char> },
}

impl DeepView for DiffTarget {
    type V = TargetView;

    open spec fn deep_view(&self) -> TargetView {
        match self {
            DiffTarget::Rev(rev) => TargetView::Rev(rev.deep_view()),
            DiffTarget::FromTo { from, to } => TargetView::FromTo { from: from@, to: to@ },
        }
    }
}

pub open spec fn optional(text: Option<&str>) -> Option<Seq<char>> {
    match text {
        Some(t) => Some(t@),
        None => None,
    }
}

/// The text, or another where there is none.
pub open spec fn text_or(text: Option<&str>, otherwise: Seq<char>) -> Seq<char> {
    match text {
        Some(t) => t@,
        None => otherwise,
    }
}

pub(crate) fn owned(text: Option<&str>) -> (r: Option<String>)
    ensures
        r.deep_view() == optional(text),
{
    match text {
        Some(t) => Some(t.to_owned()),
        None => None,
    }
}

pub(crate) fn owned_or(text: Option<&str>, otherwise: &str) -> (r: String)
    ensures
        r@ == text_or(text, otherwise@),
{
    match text {
        Some(t) => t.to_owned(),
        None => otherwise.to_owned(),
    }
}

/// The listing that shows a diff.
pub open spec fn listing_of(target: TargetView) -> Seq<char> {
    match target {
        TargetView::Rev(None) => "jj-hunk list"@,
        TargetView::Rev(Some(rev)) => "jj-hunk list -r "@ + rev,
        TargetView::FromTo { from, to } => "jj-hunk list --from "@ + from + " --to "@ + to,
    }
}

impl DiffTarget {
    pub fn rev(rev: Option<&str>) -> (r: DiffTarget)
        ensures
            r.deep_view() == TargetView::Rev(optional(rev)),
    {
        DiffTarget::Rev(owned(rev))
    }

    pub fn from_to(from: &str, to: &str) -> (r: DiffTarget)
        ensures
            r.deep_view() == (TargetView::FromTo { from: from@, to: to@ }),
    {
        DiffTarget::FromTo { from: from.to_owned(), to: to.to_owned() }
    }

    /// The `jj-hunk list` invocation that shows exactly this diff.
    pub fn listing_command(&self) -> (r: String)
        ensures
            r@ == listing_of(self.deep_view()),
    {
        match self {
            DiffTarget::Rev(None) => "jj-hunk list".to_owned(),
            DiffTarget::Rev(Some(rev)) => concat2("jj-hunk list -r ", rev.as_str()),
            DiffTarget::FromTo { from, to } => {
                let mut out = concat3("jj-hunk list --from ", from.as_str(), " --to ");
                out.append(to.as_str());
                out
            },
        }
    }
}

// ---------------------------------------------------------------------------
// Asking jj
// ---------------------------------------------------------------------------

/// One line of JSON for each file of a diff.
pub const SUMMARY_TEMPLATE: &'static str = "\"{\\\"status\\\":\" ++ self.status().escape_json() ++ \",\\\"path\\\":\" ++ self.path().display().escape_json() ++ \",\\\"source\\\":\" ++ self.source().path().display().escape_json() ++ \",\\\"target\\\":\" ++ self.target().path().display().escape_json() ++ \",\\\"source_executable\\\":\" ++ if(self.source().executable(), \"true\", \"false\") ++ \",\\\"target_executable\\\":\" ++ if(self.target().executable(), \"true\", \"false\") ++ \",\\\"source_file_type\\\":\" ++ self.source().file_type().escape_json() ++ \",\\\"target_file_type\\\":\" ++ self.target().file_type().escape_json() ++ \"}\\n\"";

/// A revision's id and its parents' ids, one line each revision.
pub const REVISION_TEMPLATE: &'static str = "commit_id.short() ++ \"\\t\" ++ parents.map(|c| c.commit_id().short()).join(\" \") ++ \"\\n\"";

/// The arguments that have jj list the files of a diff.
pub open spec fn summary_args(target: TargetView) -> Seq<Seq<char>> {
    seq!["diff"@, "--template"@, SUMMARY_TEMPLATE@] + match target {
        TargetView::Rev(None) => Seq::empty(),
        TargetView::Rev(Some(rev)) => seq!["-r"@, rev],
        TargetView::FromTo { from, to } => seq!["--from"@, from, "--to"@, to],
    }
}

/// The arguments that have jj list the files of a diff.
pub fn diff_summary_args(target: &DiffTarget) -> (args: Vec<String>)
    ensures
        deep(args@) == summary_args(target.deep_view()),
{
    let mut args: Vec<String> = Vec::new();
    args.push("diff".to_owned());
    args.push("--template".to_owned());
    args.push(SUMMARY_TEMPLATE.to_owned());
    match target {
        DiffTarget::Rev(Some(rev)) => {
            args.push("-r".to_owned());
            args.push(rev.clone());
        },
        DiffTarget::Rev(None) => {},
        DiffTarget::FromTo { from, to } => {
            args.push("--from".to_owned());
            args.push(from.clone());
            args.push("--to".to_owned());
            args.push(to.clone());
        },
    }
    assert(deep(args@) =~= summary_args(target.deep_view()));
    args
}

/// The arguments that have jj list the revisions of a revset.
pub fn revset_args(revset: &str, template: &str) -> (args: Vec<String>)
    ensures
        deep(args@) == seq!["log"@, "--no-graph"@, "-r"@, revset@, "-T"@, template@],
{
    let mut args: Vec<String> = Vec::new();
    args.push("log".to_owned());
    args.push("--no-graph".to_owned());
    args.push("-r".to_owned());
    args.push(revset.to_owned());
    args.push("-T".to_owned());
    args.push(template.to_owned());
    assert(deep(args@) =~= seq!["log"@, "--no-graph"@, "-r"@, revset@, "-T"@, template@]);
    args
}

/// The arguments that have jj print a file.
pub open spec fn show_args(rev: Option<Seq<char>>, path: Seq<char>) -> Seq<Seq<char>> {
    seq!["file"@, "show"@] + (match rev {
        Some(r) => seq!["-r"@, r],
        None => Seq::empty(),
    }) + seq!["file:"@ + literal(path)]
}

/// The arguments that have jj print a file, of the working copy where no
/// revision is named.
pub fn file_show_args(rev: Option<&str>, path: &str) -> (args: Vec<String>)
    ensures
        deep(args@) == show_args(optional(rev), path@),
{
    let mut args: Vec<String> = Vec::new();
    args.push("file".to_owned());
    args.push("show".to_owned());
    if let Some(r) = rev {
        args.push("-r".to_owned());
        args.push(r.to_owned());
    }
    args.push(fileset_exact_path(path));
    assert(deep(args@) =~= show_args(optional(rev), path@));
    args
}

/// What is said of a file that could not be read. An unreadable file is not an
/// empty one.
pub fn unreadable_message(path: &str, rev: Option<&str>, stderr: &str) -> (r: String)
    ensures
        r@ == "failed to read `"@ + path@ + "`"@ + (match rev {
            Some(rev) => " at revision "@ + rev@,
            None => Seq::empty(),
        }) + ": "@ + trimmed(stderr@),
{
    let mut out = concat3("failed to read `", path, "`");
    let ghost head = out@;
    match rev {
        Some(rev) => {
            out.append(concat2(" at revision ", rev).as_str());
        },
        None => {
            assert(head + Seq::<char>::empty() =~= head);
        },
    }
    out.append(": ");
    out.append(trim(stderr).as_str());
    out
}

// ---------------------------------------------------------------------------
// Revisions
// ---------------------------------------------------------------------------

/// The two sides a diff is computed between.
#[derive(Debug)]
pub struct DiffRevisions {
    /// Where the text before is read; nowhere for a root commit, whose before
    /// is empty.
    pub before: Option<String>,
    /// Where the text after is read; the working copy where none is named.
    pub after: Option<String>,
}

/// One resolved revision and the ids of its parents.
#[derive(Debug)]
pub struct ResolvedRevision {
    pub id: String,
    pub parents: Vec<String>,
}

#[verifier::ext_equal]
pub struct ResolvedView {
    pub id: Seq<char>,
    pub parents: Seq<Seq<char>>,
}

impl DeepView for ResolvedRevision {
    type V = ResolvedView;

    open spec fn deep_view(&self) -> ResolvedView {
        ResolvedView { id: self.id@, parents: deep(self.parents@) }
    }
}

/// The lines of a text that hold more than white space.
pub open spec fn filled_lines(lines: Seq<Seq<char>>) -> Seq<Seq<char>>
    decreases lines.len(),
{
    if lines.len() == 0 {
        Seq::empty()
    } else if trimmed(lines.last()).len() == 0 {
        filled_lines(lines.drop_last())
    } else {
        filled_lines(lines.drop_last()).push(lines.last())
    }
}

/// The lines of a text that hold more than white space.
pub fn rows_of(text: &str) -> (out: Vec<String>)
    ensures
        deep(out@) == filled_lines(plain_lines(text@)),
{
    broadcast use group_deep;

    let lines = lines_of(text);
    let ghost views = deep(lines@);
    let mut out: Vec<String> = Vec::new();
    let mut i: usize = 0;
    assert(views.take(0) =~= Seq::empty());
    while i < lines.len()
        invariant
            views == deep(lines@),
            i <= lines.len(),
            deep(out@) == filled_lines(views.take(i as int)),
        decreases lines.len() - i,
    {
        assert(views.take(i as int + 1).drop_last() =~= views.take(i as int));
        if !trim(lines[i].as_str()).as_str().is_empty() {
            out.push(lines[i].clone());
        }
        i += 1;
    }
    assert(views.take(views.len() as int) =~= views);
    out
}

/// A revision as one line tells it: its id, a tab, its parents' ids.
pub open spec fn revision_in(line: Seq<char>) -> ResolvedView {
    ResolvedView { id: trimmed(parted(line, '\t').0), parents: words(parted(line, '\t').1) }
}

/// The revisions that lines tell of.
pub open spec fn revisions_in(stdout: Seq<char>) -> Seq<ResolvedView> {
    let rows = filled_lines(plain_lines(stdout));
    Seq::new(rows.len(), |i: int| revision_in(rows[i]))
}

/// Read the revisions that jj lists.
pub fn parse_revisions(stdout: &str) -> (out: Vec<ResolvedRevision>)
    ensures
        deep(out@) == revisions_in(stdout@),
{
    let rows = rows_of(stdout);
    let ghost views = deep(rows@);
    let mut out: Vec<ResolvedRevision> = Vec::new();
    let mut i: usize = 0;
    while i < rows.len()
        invariant
            views == deep(rows@),
            i <= rows.len(),
            out@.len() == i,
            forall|j: int| 0 <= j < i ==> (#[trigger] out@[j]).deep_view() == revision_in(views[j]),
        decreases rows.len() - i,
    {
        let (id, parents) = split_once(rows[i].as_str(), '\t');
        let one = ResolvedRevision {
            id: trim(id.as_str()),
            parents: split_words(parents.as_str()),
        };
        assert(one.deep_view() == revision_in(views[i as int]));
        out.push(one);
        i += 1;
    }
    assert(deep(out@) =~= revisions_in(stdout@));
    out
}

pub open spec fn no_details() -> Map<Seq<char>, NodeView> {
    Map::empty()
}

/// The error for a revset that jj refuses.
pub open spec fn refused_revset(revset: Seq<char>, stderr: Seq<char>) -> CodedView {
    CodedView {
        code: Code::RevsetUnresolved,
        message: "failed to resolve revset `"@ + revset + "`: "@ + trimmed(stderr),
        details: no_details().insert("revset"@, text_node(revset)).insert(
            "resolved"@,
            number_node(0),
        ).insert("jj_stderr"@, text_node(trimmed(stderr))),
    }
}

/// The error for a revset that jj refuses.
pub fn revset_refused(revset: &str, stderr: &str) -> (r: CodedError)
    ensures
        r.tells(refused_revset(revset@, stderr@)),
{
    broadcast use group_shapes;

    let why = trim(stderr);
    let mut message = concat3("failed to resolve revset `", revset, "`: ");
    message.append(why.as_str());
    CodedError::new(ErrorCode::new(Code::RevsetUnresolved), message).with(
        "revset",
        Node::text(revset),
    ).with("resolved", Node::number(0)).with("jj_stderr", Node::text(why.as_str()))
}

/// How many ids an error names before it stops counting.
pub const PREVIEW_IDS: usize = 5;

/// The first few of some ids.
pub open spec fn first_ids(ids: Seq<Seq<char>>) -> Seq<Seq<char>> {
    if ids.len() > PREVIEW_IDS {
        ids.take(PREVIEW_IDS as int)
    } else {
        ids
    }
}

/// The first few of some ids, and how many more there are.
pub open spec fn preview(ids: Seq<Seq<char>>) -> Seq<char> {
    joined(
        if ids.len() > PREVIEW_IDS {
            first_ids(ids).push(
                "... and "@ + decimal((ids.len() - PREVIEW_IDS) as nat) + " more"@,
            )
        } else {
            ids
        },
        ", "@,
    )
}

fn head_ids(ids: &Vec<String>) -> (out: Vec<String>)
    ensures
        deep(out@) == first_ids(deep(ids@)),
{
    let mut out: Vec<String> = Vec::new();
    let mut i: usize = 0;
    while i < ids.len() && i < PREVIEW_IDS
        invariant
            i <= ids.len(),
            i <= PREVIEW_IDS,
            out@.len() == i,
            forall|j: int| 0 <= j < i ==> (#[trigger] out@[j])@ == ids@[j]@,
        decreases ids.len() - i,
    {
        out.push(ids[i].clone());
        i += 1;
    }
    assert(deep(out@) =~= first_ids(deep(ids@)));
    out
}

/// The first few of some ids, and how many more there are.
pub fn preview_ids(ids: &Vec<String>) -> (r: String)
    ensures
        r@ == preview(deep(ids@)),
{
    broadcast use group_deep;

    let mut shown = head_ids(ids);
    if ids.len() > PREVIEW_IDS {
        let more = concat3("... and ", number(ids.len() - PREVIEW_IDS).as_str(), " more");
        shown.push(more);
    }
    join(&shown, ", ")
}

pub open spec fn ids_of_revisions(revisions: Seq<ResolvedView>) -> Seq<Seq<char>> {
    Seq::new(revisions.len(), |i: int| revisions[i].id)
}

/// The error for a revset that names no revision, or several.
pub open spec fn unsuitable_revset(revset: Seq<char>, ids: Seq<Seq<char>>) -> CodedView {
    if ids.len() == 0 {
        CodedView {
            code: Code::RevsetUnresolved,
            message: "revset `"@ + revset + "` did not resolve to any revision"@,
            details: no_details().insert("revset"@, text_node(revset)).insert(
                "resolved"@,
                number_node(0),
            ),
        }
    } else {
        CodedView {
            code: Code::RevsetAmbiguous,
            message: "revset `"@ + revset + "` resolved to "@ + decimal(ids.len())
                + " revisions, but jj-hunk needs exactly one.\nHunks are only defined between a single revision and its parent.\nResolved to: "@
                + preview(ids),
            details: no_details().insert("revset"@, text_node(revset)).insert(
                "resolved"@,
                number_node(ids.len()),
            ).insert("revisions"@, texts_node(first_ids(ids))),
        }
    }
}

/// The single revision a revset names, or what it names instead.
pub fn single_revision(revset: &str, resolved: Vec<ResolvedRevision>) -> (r: Result<
    ResolvedRevision,
    CodedError,
>)
    ensures
        match r {
            Ok(one) => deep(resolved@) == seq![one.deep_view()],
            Err(e) => resolved@.len() != 1 && e.tells(
                unsuitable_revset(revset@, ids_of_revisions(deep(resolved@))),
            ),
        },
{
    broadcast use group_shapes;

    let ghost views = deep(resolved@);
    let mut resolved = resolved;
    if resolved.len() == 1 {
        let one = resolved.pop().unwrap();
        assert(views =~= seq![one.deep_view()]);
        return Ok(one);
    }
    let n: usize = resolved.len();
    let mut ids: Vec<String> = Vec::new();
    let mut i: usize = 0;
    while i < n
        invariant
            n == resolved@.len(),
            views == deep(resolved@),
            i <= n,
            ids@.len() == i,
            forall|j: int| 0 <= j < i ==> (#[trigger] ids@[j])@ == views[j].id,
        decreases n - i,
    {
        ids.push(resolved[i].id.clone());
        i += 1;
    }
    assert(deep(ids@) =~= ids_of_revisions(views));
    if n == 0 {
        let message = concat3("revset `", revset, "` did not resolve to any revision");
        return Err(
            CodedError::new(ErrorCode::new(Code::RevsetUnresolved), message).with(
                "revset",
                Node::text(revset),
            ).with("resolved", Node::number(0)),
        );
    }
    let mut message = concat3("revset `", revset, "` resolved to ");
    message.append(number(n).as_str());
    message.append(
        " revisions, but jj-hunk needs exactly one.\nHunks are only defined between a single revision and its parent.\nResolved to: ",
    );
    message.append(preview_ids(&ids).as_str());
    Err(
        CodedError::new(ErrorCode::new(Code::RevsetAmbiguous), message).with(
            "revset",
            Node::text(revset),
        ).with("resolved", Node::number(n)).with("revisions", Node::texts(&head_ids(&ids))),
    )
}

/// The revset a target without two named sides is about.
pub open spec fn revset_of(rev: Option<Seq<char>>) -> Seq<char> {
    match rev {
        Some(r) => r,
        None => "@"@,
    }
}

/// What is said of a merge, which has no single state before it.
pub open spec fn merge_message(target: Seq<char>, r: ResolvedView) -> Seq<char> {
    "`"@ + target + "` ("@ + r.id + ") is a merge commit with "@ + decimal(r.parents.len())
        + " parents, so it has no single \"before\" state to diff against.\nReporting it anyway would describe every file as a whole-file insertion, and a selection built from that diff would commit something other than what was listed.\nDiff against one parent explicitly (`-r "@
        + r.parents[0] + "`), or choose a non-merge revision.\nParents: "@ + preview(r.parents)
}

/// The two sides of the diff of a revision, or why it has none.
///
/// A hunk only means something between one revision and one parent, so a merge
/// is refused. Ids rather than revsets, so that what is read is what was
/// resolved.
pub fn revision_sides(rev: Option<&str>, resolved: ResolvedRevision) -> (r: Result<
    DiffRevisions,
    String,
>)
    ensures
        ({
            let view = resolved.deep_view();
            match r {
                Ok(sides) => {
                    &&& view.parents.len() <= 1
                    &&& sides.before.deep_view() == (if view.parents.len() == 1 {
                        Some(view.parents[0])
                    } else {
                        None
                    })
                    &&& sides.after.deep_view() == (if rev is Some {
                        Some(view.id)
                    } else {
                        None
                    })
                },
                Err(message) => view.parents.len() > 1 && message@ == merge_message(
                    revset_of(optional(rev)),
                    view,
                ),
            }
        }),
{
    if resolved.parents.len() > 1 {
        let target = owned_or(rev, "@");
        let mut out = concat3("`", target.as_str(), "` (");
        out.append(resolved.id.as_str());
        out.append(") is a merge commit with ");
        out.append(number(resolved.parents.len()).as_str());
        out.append(
            " parents, so it has no single \"before\" state to diff against.\nReporting it anyway would describe every file as a whole-file insertion, and a selection built from that diff would commit something other than what was listed.\nDiff against one parent explicitly (`-r ",
        );
        out.append(resolved.parents[0].as_str());
        out.append("`), or choose a non-merge revision.\nParents: ");
        out.append(preview_ids(&resolved.parents).as_str());
        return Err(out);
    }
    let before = if resolved.parents.len() == 1 {
        Some(resolved.parents[0].clone())
    } else {
        None
    };
    let after = match rev {
        Some(_) => Some(resolved.id),
        None => None,
    };
    Ok(DiffRevisions { before, after })
}

/// The revsets a target needs resolved, in the order they are.
pub open spec fn revsets_of(target: TargetView) -> Seq<Seq<char>> {
    match target {
        TargetView::Rev(rev) => seq![revset_of(rev)],
        TargetView::FromTo { from, to } => seq![from, to],
    }
}

/// The revsets a target needs resolved, in the order they are.
pub fn revsets(target: &DiffTarget) -> (out: Vec<String>)
    ensures
        deep(out@) == revsets_of(target.deep_view()),
{
    let mut out: Vec<String> = Vec::new();
    match target {
        DiffTarget::Rev(Some(rev)) => {
            out.push(rev.clone());
        },
        DiffTarget::Rev(None) => {
            out.push("@".to_owned());
        },
        DiffTarget::FromTo { from, to } => {
            out.push(from.clone());
            out.push(to.clone());
        },
    }
    assert(deep(out@) =~= revsets_of(target.deep_view()));
    out
}

/// The revisions to read the two sides of a diff from, once what the target's
/// revsets name is known.
///
/// A target that names both sides needs each to be one revision and no more; a
/// merge is refused where the parent is what is diffed against.
pub fn resolve_revisions(target: &DiffTarget, resolved: Vec<ResolvedRevision>) -> (r: Result<
    DiffRevisions,
    String,
>)
    requires
        resolved@.len() == revsets_of(target.deep_view()).len(),
    ensures
        ({
            let views = deep(resolved@);
            match target.deep_view() {
                TargetView::FromTo { .. } => r matches Ok(sides) && sides.before.deep_view()
                    == Some(views[0].id) && sides.after.deep_view() == Some(views[1].id),
                TargetView::Rev(rev) => match r {
                    Ok(sides) => {
                        &&& views[0].parents.len() <= 1
                        &&& sides.before.deep_view() == (if views[0].parents.len() == 1 {
                            Some(views[0].parents[0])
                        } else {
                            None
                        })
                        &&& sides.after.deep_view() == (if rev is Some {
                            Some(views[0].id)
                        } else {
                            None
                        })
                    },
                    Err(message) => views[0].parents.len() > 1 && message@ == merge_message(
                        revset_of(rev),
                        views[0],
                    ),
                },
            }
        }),
{
    let ghost views = deep(resolved@);
    let mut resolved = resolved;
    match target {
        DiffTarget::FromTo { .. } => {
            let after = resolved.pop().unwrap();
            let before = resolved.pop().unwrap();
            assert(views[1] == after.deep_view());
            assert(views[0] == before.deep_view());
            Ok(DiffRevisions { before: Some(before.id), after: Some(after.id) })
        },
        DiffTarget::Rev(rev) => {
            let one = resolved.pop().unwrap();
            assert(views[0] == one.deep_view());
            match rev {
                Some(revset) => revision_sides(Some(revset.as_str()), one),
                None => revision_sides(None, one),
            }
        },
    }
}

/// What to read for one file: the revision and the path of each side that there
/// is something to read of.
#[derive(Debug)]
pub struct SidesToRead {
    pub before: Option<(String, String)>,
    pub after: Option<(Option<String>, String)>,
}

/// What to read for one file of a diff. A side without a file, and the side
/// before a root commit, are empty.
pub fn sides_to_read(entry: &DiffSummaryEntry, revisions: &DiffRevisions) -> (r: SidesToRead)
    ensures
        ({
            let e = entry.deep_view();
            &&& match r.before {
                Some((rev, path)) => revisions.before.deep_view() == Some(rev@) && left_path(
                    e,
                    path_of(e),
                ) == Some(path@),
                None => revisions.before is None || left_path(e, path_of(e)) is None,
            }
            &&& match r.after {
                Some((rev, path)) => rev.deep_view() == revisions.after.deep_view() && right_path(
                    e,
                    path_of(e),
                ) == Some(path@),
                None => right_path(e, path_of(e)) is None,
            }
        }),
{
    let path = crate::files::primary_path(entry);
    let FilePaths { before, after } = crate::files::file_paths_for_entry(entry, path.as_str());
    let left = match (&revisions.before, before) {
        (Some(rev), Some(path)) => Some((rev.clone(), path)),
        _ => None,
    };
    let right = match after {
        Some(path) => {
            let rev = match &revisions.after {
                Some(rev) => Some(rev.clone()),
                None => None,
            };
            Some((rev, path))
        },
        None => None,
    };
    SidesToRead { before: left, after: right }
}

proof fn lemma_filled_lines(lines: Seq<Seq<char>>, line: Seq<char>)
    ensures
        filled_lines(lines).contains(line) <==> lines.contains(line) && trimmed(line).len() > 0,
        filled_lines(lines).len() <= lines.len(),
    decreases lines.len(),
{
    if lines.len() > 0 {
        let rest = lines.drop_last();
        let before = filled_lines(rest);
        let all = filled_lines(lines);
        lemma_filled_lines(rest, line);
        if lines.contains(line) && trimmed(line).len() > 0 {
            let i = choose|i: int| 0 <= i < lines.len() && lines[i] == line;
            if i < rest.len() {
                assert(rest[i] == line);
                let k = choose|k: int| 0 <= k < before.len() && before[k] == line;
                assert(all[k] == line);
            } else {
                assert(all[all.len() - 1] == line);
            }
        }
        if all.contains(line) {
            let k = choose|k: int| 0 <= k < all.len() && all[k] == line;
            if k < before.len() {
                assert(before[k] == line);
                let i = choose|i: int| 0 <= i < rest.len() && rest[i] == line;
                assert(lines[i] == line);
            } else {
                assert(lines[lines.len() - 1] == line);
            }
        }
    }
}

/// The lines that tell of a revision are those that are not blank.
pub proof fn a_blank_line_tells_of_nothing(lines: Seq<Seq<char>>, line: Seq<char>)
    ensures
        filled_lines(lines).contains(line) <==> lines.contains(line) && !crate::text::is_blank(line),
{
    lemma_filled_lines(lines, line);
    crate::text::trimming_takes_white_space_from_the_ends(line);
    let (a, b) = choose|a: int, b: int|
        {
            &&& 0 <= a <= b <= line.len()
            &&& trimmed(line) == #[trigger] line.subrange(a, b)
            &&& crate::text::is_blank(line.take(a))
            &&& crate::text::is_blank(line.skip(b))
        };
    if trimmed(line).len() == 0 {
        assert(a == b);
        assert forall|i: int| 0 <= i < line.len() implies crate::text::is_space(
            #[trigger] line[i],
        ) by {
            if i < a {
                assert(crate::text::is_space(line.take(a)[i]));
            } else {
                assert(crate::text::is_space(line.skip(b)[i - b]));
            }
        }
    } else {
        assert(trimmed(line)[0] == line[a]);
    }
}

/// What is said of some ids names the first few of them, in order, and all where
/// they are few.
pub proof fn a_preview_names_the_first_few(ids: Seq<Seq<char>>)
    ensures
        first_ids(ids).len() <= PREVIEW_IDS,
        ids.len() <= PREVIEW_IDS ==> first_ids(ids) == ids,
        ids.len() > PREVIEW_IDS ==> first_ids(ids).len() == PREVIEW_IDS,
        forall|i: int| 0 <= i < first_ids(ids).len() ==> #[trigger] first_ids(ids)[i] == ids[i],
{
}

/// A revision that is told by its id, a tab and its parents' ids with spaces
/// between them reads as that.
pub proof fn a_revision_reads_as_it_is_told(id: Seq<char>, parents: Seq<Seq<char>>)
    requires
        crate::text::is_word(id),
        !id.contains('\t'),
        forall|i: int| 0 <= i < parents.len() ==> crate::text::is_word(#[trigger] parents[i]),
    ensures
        revision_in(id.push('\t') + joined(parents, " "@)) == (ResolvedView { id, parents }),
{
    crate::text::lemma_parted_at(id, '\t', joined(parents, " "@));
    crate::text::lemma_trimmed_stays(id);
    crate::text::words_in_a_row_are_the_words_of_the_text(parents);
}

/// A revset is said to be unresolved exactly where it names nothing, and to be
/// ambiguous where it names several revisions.
pub proof fn a_revset_is_refused_by_how_much_it_names(revset: Seq<char>, ids: Seq<Seq<char>>)
    ensures
        unsuitable_revset(revset, ids).code == Code::RevsetUnresolved <==> ids.len() == 0,
        unsuitable_revset(revset, ids).code == Code::RevsetAmbiguous <==> ids.len() > 0,
        unsuitable_revset(revset, ids).details.contains_pair("revset"@, text_node(revset)),
        unsuitable_revset(revset, ids).details.contains_pair("resolved"@, number_node(ids.len())),
{
    reveal_strlit("revset");
    reveal_strlit("resolved");
    reveal_strlit("revisions");
    assert("revset"@.len() == 6 && "resolved"@.len() == 8 && "revisions"@.len() == 9);
}

/// The diff that jj is asked for is that of the revsets that are resolved: of the
/// one, or from the first to the second. Only the working copy goes unnamed.
pub proof fn a_diff_is_asked_for_of_what_is_resolved(target: TargetView)
    ensures
        ({
            let asked = summary_args(target).skip(3);
            let revsets = revsets_of(target);
            &&& revsets.len() == 2 <==> target is FromTo
            &&& revsets.len() == 2 ==> asked == seq!["--from"@, revsets[0], "--to"@, revsets[1]]
            &&& revsets.len() == 1 && asked.len() > 0 ==> asked == seq!["-r"@, revsets[0]]
            &&& asked.len() == 0 <==> target == TargetView::Rev(None)
            &&& asked.len() == 0 ==> revsets == seq!["@"@]
            &&& target matches TargetView::FromTo { from, to } ==> revsets == seq![from, to]
        }),
{
    let asked = summary_args(target).skip(3);
    match target {
        TargetView::Rev(None) => {
            assert(asked =~= Seq::empty());
        },
        TargetView::Rev(Some(rev)) => {
            assert(asked =~= seq!["-r"@, rev]);
        },
        TargetView::FromTo { from, to } => {
            assert(asked =~= seq!["--from"@, from, "--to"@, to]);
        },
    }
}

/// Files are asked for alike only where they are the same file of the same
/// revision.
pub proof fn a_file_is_asked_for_by_its_revision_and_path(
    a: Option<Seq<char>>,
    b: Option<Seq<char>>,
    p: Seq<char>,
    q: Seq<char>,
)
    ensures
        show_args(a, p) == show_args(b, q) <==> a == b && p == q,
{
    let x = show_args(a, p);
    let y = show_args(b, q);
    if x == y {
        assert(x.last() == "file:"@ + literal(p));
        assert(y.last() == "file:"@ + literal(q));
        let n = "file:"@.len() as int;
        assert(("file:"@ + literal(p)).skip(n) =~= literal(p));
        assert(("file:"@ + literal(q)).skip(n) =~= literal(q));
        let i = crate::paths::quoted(p);
        let j = crate::paths::quoted(q);
        assert(literal(p).subrange(1, literal(p).len() - 1) =~= i);
        assert(literal(q).subrange(1, literal(q).len() - 1) =~= j);
        crate::paths::a_quoted_path_names_one_path(p, q);
        assert(a is Some ==> x[3] == a->0);
        assert(b is Some ==> y[3] == b->0);
    }
}

} // verus!
