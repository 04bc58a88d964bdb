//! Moving each hunk of a revision into the mutable ancestor that last touched
//! the lines it changes.
//!
//! A hunk is routed by who last touched the lines it takes away. Where that does
//! not name one ancestor, it stays where it is, and the plan says why.
//!
//! Moving goes ancestor by ancestor and every step rewrites history, so the ids
//! of the hunks still to be moved change under way. They are found again by
//! their fingerprint: the path and the changed lines, and nothing around them.

use crate::diff::{hex, hex_encode, sha256, sha256_of, Hunk, HunkView};
use crate::files::{moved_from, FileHunks, FileView};
use crate::listing::{
    decision_for, is_undecided, listed_hunks, normalize_patterns, spec_view, trimmed_patterns,
    UndecidedFile,
};
use crate::names::{deep_map, distinct, lemma_deep_map_insert, lemma_deep_map_remove, less, sorted, without_repeats, NameMap};
use crate::resolve::{
    any_ambiguous, filter_hunks, reports_ambiguity, spec_decision, Decision, SpecDecision,
};
use crate::revisions::{filled_lines, optional, rows_of};
use crate::spec::{
    DefaultAction, FileSpec, FileSpecView, HunkSelector, HunkSpec, HunkSpecView, Spec, SpecView,
};
use crate::text::{
    concat2, concat3, contains_char, decimal, deep, group_deep, join, joined, lines_of, number,
    parted, plain_lines, reversed, same, split_once, trim, trimmed, wide_number,
};
use vstd::prelude::*;
use vstd::utf8::encode_utf8;

verus! {

/// What happens to a hunk that only inserts lines.
#[derive(Debug, Clone, Copy, PartialEq, Eq, Structural)]
pub enum InsertionPolicy {
    /// It stays: no line of it was touched by anyone.
    Skip,
    /// It goes to the ancestor that owns the lines on both sides of it, where
    /// they agree.
    Surrounding,
}

impl Default for InsertionPolicy {
    fn default() -> (r: InsertionPolicy)
        ensures
            r == InsertionPolicy::Skip,
    {
        InsertionPolicy::Skip
    }
}

/// What is asked for.
#[derive(Debug)]
pub struct AbsorbOptions {
    /// The hunks to consider; every hunk of the revision where none are named.
    pub spec: Option<String>,
    pub spec_file: Option<String>,
    /// The revision to take from.
    pub rev: Option<String>,
    pub dry_run: bool,
    pub insertions: InsertionPolicy,
}

// ---------------------------------------------------------------------------
// Commits
// ---------------------------------------------------------------------------

/// One commit.
#[derive(Debug)]
pub struct CommitRef {
    /// What annotation names a commit by.
    pub commit_id: String,
    /// What jj is told to name it by: a rewrite keeps it.
    pub change_id: String,
    /// The beginning of the change id, for people.
    pub short: String,
    pub description: String,
}

#[verifier::ext_equal]
pub struct CommitView {
    pub commit_id: Seq<char>,
    pub change_id: Seq<char>,
    pub short: Seq<char>,
    pub description: Seq<char>,
}

impl DeepView for CommitRef {
    type V = CommitView;

    open spec fn deep_view(&self) -> CommitView {
        CommitView {
            commit_id: self.commit_id@,
            change_id: self.change_id@,
            short: self.short@,
            description: self.description@,
        }
    }
}

/// What a commit is called.
pub open spec fn commit_label(c: CommitView) -> Seq<char> {
    if c.description.len() == 0 {
        c.short + " (no description)"@
    } else {
        c.short + " "@ + c.description
    }
}

impl CommitRef {
    pub fn label(&self) -> (r: String)
        ensures
            r@ == commit_label(self.deep_view()),
    {
        if self.description.as_str().is_empty() {
            concat2(self.short.as_str(), " (no description)")
        } else {
            concat3(self.short.as_str(), " ", self.description.as_str())
        }
    }

    pub fn copied(&self) -> (r: CommitRef)
        ensures
            r.deep_view() == self.deep_view(),
    {
        CommitRef {
            commit_id: self.commit_id.clone(),
            change_id: self.change_id.clone(),
            short: self.short.clone(),
            description: self.description.clone(),
        }
    }

    /// Whether two commits are told the same.
    pub fn equals(&self, other: &CommitRef) -> (r: bool)
        ensures
            r == (self.deep_view() == other.deep_view()),
    {
        same(self.commit_id.as_str(), other.commit_id.as_str()) && same(
            self.change_id.as_str(),
            other.change_id.as_str(),
        ) && same(self.short.as_str(), other.short.as_str()) && same(
            self.description.as_str(),
            other.description.as_str(),
        )
    }
}

/// A commit's ids and the first line of its description, which comes last
/// because it may hold a tab.
pub const COMMIT_TEMPLATE: &'static str = "commit_id ++ \"\\t\" ++ change_id ++ \"\\t\" ++ change_id.short(8) ++ \"\\t\" ++ if(description, description.first_line(), \"\") ++ \"\\n\"";

/// Whether a line has the ids of a commit in it.
pub open spec fn tells_commit(line: Seq<char>) -> bool {
    line.contains('\t') && parted(line, '\t').1.contains('\t')
}

/// The commit that a line tells of.
pub open spec fn commit_in(line: Seq<char>) -> CommitView {
    let (commit_id, rest) = parted(line, '\t');
    let (change_id, tail) = parted(rest, '\t');
    let (short, description) = parted(tail, '\t');
    CommitView { commit_id, change_id, short, description: trimmed(description) }
}

pub open spec fn commits_in(rows: Seq<Seq<char>>) -> Seq<CommitView>
    decreases rows.len(),
{
    if rows.len() == 0 {
        Seq::empty()
    } else if tells_commit(rows.last()) {
        commits_in(rows.drop_last()).push(commit_in(rows.last()))
    } else {
        commits_in(rows.drop_last())
    }
}

/// Read the commits that jj lists.
pub fn commit_refs(stdout: &str) -> (out: Vec<CommitRef>)
    ensures
        deep(out@) == commits_in(filled_lines(plain_lines(stdout@))),
{
    broadcast use group_deep;

    let rows = rows_of(stdout);
    let ghost views = deep(rows@);
    let mut out: Vec<CommitRef> = Vec::new();
    let mut i: usize = 0;
    assert(views.take(0) =~= Seq::empty());
    while i < rows.len()
        invariant
            views == deep(rows@),
            i <= rows.len(),
            deep(out@) == commits_in(views.take(i as int)),
        decreases rows.len() - i,
    {
        assert(views.take(i as int + 1).drop_last() =~= views.take(i as int));
        let line = rows[i].as_str();
        let (commit_id, rest) = split_once(line, '\t');
        if contains_char(line, '\t') && contains_char(rest.as_str(), '\t') {
            let (change_id, tail) = split_once(rest.as_str(), '\t');
            let (short, description) = split_once(tail.as_str(), '\t');
            out.push(
                CommitRef { commit_id, change_id, short, description: trim(description.as_str()) },
            );
        }
        i += 1;
    }
    assert(views.take(views.len() as int) =~= views);
    out
}

/// The one commit that a revset names.
pub fn commit_ref(revset: &str, stdout: &str) -> (r: Result<CommitRef, String>)
    ensures
        ({
            let commits = commits_in(filled_lines(plain_lines(stdout@)));
            match r {
                Ok(c) => commits == seq![c.deep_view()],
                Err(message) => commits.len() != 1 && message@ == "revset `"@ + revset@
                    + "` resolved to "@ + decimal(commits.len())
                    + " revisions, but absorb needs one"@,
            }
        }),
{
    let mut refs = commit_refs(stdout);
    let ghost commits = deep(refs@);
    if refs.len() == 1 {
        let one = refs.pop().unwrap();
        assert(commits =~= seq![one.deep_view()]);
        return Ok(one);
    }
    let mut message = concat3("revset `", revset, "` resolved to ");
    message.append(number(refs.len()).as_str());
    message.append(" revisions, but absorb needs one");
    Err(message)
}

/// Where a commit stands among some; the last of them where there are several.
pub open spec fn rank_of(commits: Seq<CommitView>, id: Seq<char>) -> Option<int>
    decreases commits.len(),
{
    if commits.len() == 0 {
        None
    } else if commits.last().commit_id == id {
        Some(commits.len() - 1)
    } else {
        rank_of(commits.drop_last(), id)
    }
}

fn find_rank(commits: &Vec<CommitRef>, id: &str) -> (r: Option<usize>)
    ensures
        match r {
            Some(n) => n < commits@.len() && rank_of(deep(commits@), id@) == Some(n as int)
                && commits@[n as int].commit_id@ == id@,
            None => rank_of(deep(commits@), id@) is None,
        },
{
    let ghost views = deep(commits@);
    let mut i: usize = commits.len();
    assert(views.take(i as int) =~= views);
    while i > 0
        invariant
            views == deep(commits@),
            i <= commits.len(),
            rank_of(views, id@) == rank_of(views.take(i as int), id@),
        decreases i,
    {
        assert(views.take(i as int).drop_last() =~= views.take(i as int - 1));
        assert(views.take(i as int).last() == commits@[i - 1].deep_view());
        i -= 1;
        if same(commits[i].commit_id.as_str(), id) {
            return Some(i);
        }
    }
    None
}

/// What a commit is called: the beginning of its change id where it is one of
/// the mutable ancestors, else of its commit id.
pub open spec fn owner_label(commits: Seq<CommitView>, id: Seq<char>) -> Seq<char> {
    match rank_of(commits, id) {
        Some(n) => commits[n].short,
        None => "commit "@ + crate::dry_run::short_change(id),
    }
}

fn label(id: &str, commits: &Vec<CommitRef>) -> (r: String)
    ensures
        r@ == owner_label(deep(commits@), id@),
{
    match find_rank(commits, id) {
        Some(n) => {
            assert(deep(commits@)[n as int] == commits@[n as int].deep_view());
            commits[n].short.clone()
        },
        None => concat2("commit ", crate::dry_run::short(id).as_str()),
    }
}

// ---------------------------------------------------------------------------
// Identity
// ---------------------------------------------------------------------------

/// What a fingerprint is taken of.
pub open spec fn fingerprint_text(path: Seq<char>, removed: Seq<char>, added: Seq<char>) -> Seq<
    char,
> {
    "absorb-fingerprint\0path\0"@ + path + "\0removed\0"@ + removed + "\0added\0"@ + added
}

/// A hunk's identity without what is around it.
pub open spec fn fingerprint_of(path: Seq<char>, hunk: HunkView) -> Seq<char> {
    hex(sha256(encode_utf8(fingerprint_text(path, hunk.removed, hunk.added))))
}

/// A hunk's identity without what is around it: its path and its changed lines.
///
/// A change elsewhere in the file leaves it as it is. Two hunks may share one.
pub fn fingerprint(path: &str, hunk: &Hunk) -> (r: String)
    ensures
        r@ == fingerprint_of(path@, hunk.deep_view()),
{
    let mut text = concat3("absorb-fingerprint\0path\0", path, "\0removed\0");
    text.append(hunk.removed.as_str());
    text.append("\0added\0");
    text.append(hunk.added.as_str());
    hex_encode(&sha256_of(text.as_str().as_bytes()))
}

/// A fingerprint does not depend on what is around a hunk, on where it is or on
/// what it is called.
pub proof fn a_fingerprint_ignores_context(path: Seq<char>, a: HunkView, b: HunkView)
    requires
        a.removed == b.removed,
        a.added == b.added,
    ensures
        fingerprint_of(path, a) == fingerprint_of(path, b),
{
}

/// What is known of a hunk once it is gone. Lines are those of the parent.
#[derive(Debug)]
pub struct HunkFacts {
    /// For people: it is valid only in the diff it was read from.
    pub short_id: String,
    /// The first line it covers, counted from one; the line it goes before
    /// where it covers none.
    pub before_start: usize,
    pub removed: usize,
    pub added: usize,
}

#[verifier::ext_equal]
pub struct FactsView {
    pub short_id: Seq<char>,
    pub before_start: usize,
    pub removed: usize,
    pub added: usize,
}

impl DeepView for HunkFacts {
    type V = FactsView;

    open spec fn deep_view(&self) -> FactsView {
        FactsView {
            short_id: self.short_id@,
            before_start: self.before_start,
            removed: self.removed,
            added: self.added,
        }
    }
}

/// The hunks of one file that share a fingerprint. Nothing can tell them apart,
/// so they go together or not at all.
#[derive(Debug)]
pub struct HunkGroup {
    pub path: String,
    pub fingerprint: String,
    /// In the order of the diff.
    pub members: Vec<HunkFacts>,
}

#[verifier::ext_equal]
pub struct HunkGroupView {
    pub path: Seq<char>,
    pub fingerprint: Seq<char>,
    pub members: Seq<FactsView>,
}

impl DeepView for HunkGroup {
    type V = HunkGroupView;

    open spec fn deep_view(&self) -> HunkGroupView {
        HunkGroupView {
            path: self.path@,
            fingerprint: self.fingerprint@,
            members: deep(self.members@),
        }
    }
}

impl HunkGroup {
    pub fn len(&self) -> (n: usize)
        ensures
            n == self.deep_view().members.len(),
    {
        self.members.len()
    }
}

pub open spec fn facts_of(h: HunkView) -> FactsView {
    FactsView {
        short_id: h.short_id,
        before_start: h.before_range.start,
        removed: h.before_range.length,
        added: h.after_range.length,
    }
}

/// Where the group with a fingerprint is among some; their number where it is
/// not.
pub open spec fn group_with(groups: Seq<HunkGroupView>, print: Seq<char>) -> int
    decreases groups.len(),
{
    if groups.len() == 0 {
        0
    } else if group_with(groups.drop_last(), print) < groups.len() - 1 {
        group_with(groups.drop_last(), print)
    } else if groups.last().fingerprint == print {
        groups.len() - 1
    } else {
        groups.len() as int
    }
}

/// Groups with one hunk more.
pub open spec fn with_hunk(groups: Seq<HunkGroupView>, path: Seq<char>, h: HunkView) -> Seq<
    HunkGroupView,
> {
    let print = fingerprint_of(path, h);
    let at = group_with(groups, print);
    if at < groups.len() {
        groups.update(
            at,
            HunkGroupView { members: groups[at].members.push(facts_of(h)), ..groups[at] },
        )
    } else {
        groups.push(HunkGroupView { path, fingerprint: print, members: seq![facts_of(h)] })
    }
}

/// One file's hunks by fingerprint, in the order of first appearance.
pub open spec fn groups_of(path: Seq<char>, hunks: Seq<HunkView>) -> Seq<HunkGroupView>
    decreases hunks.len(),
{
    if hunks.len() == 0 {
        Seq::empty()
    } else {
        with_hunk(groups_of(path, hunks.drop_last()), path, hunks.last())
    }
}

proof fn lemma_group_with(groups: Seq<HunkGroupView>, print: Seq<char>, n: int)
    requires
        0 <= n <= groups.len(),
        n < groups.len() ==> groups[n].fingerprint == print,
        forall|i: int| 0 <= i < n ==> (#[trigger] groups[i]).fingerprint != print,
    ensures
        group_with(groups, print) == n,
    decreases groups.len(),
{
    if groups.len() > 0 {
        let front = groups.drop_last();
        assert forall|i: int| 0 <= i < n && i < front.len() implies (
        #[trigger] front[i]).fingerprint != print by {
            assert(front[i] == groups[i]);
        }
        if n < groups.len() {
            if n < front.len() {
                assert(front[n] == groups[n]);
            }
            lemma_group_with(front, print, n);
        } else {
            assert(groups[groups.len() - 1].fingerprint != print);
            lemma_group_with(front, print, n - 1);
        }
    }
}

fn find_group(groups: &Vec<HunkGroup>, print: &str) -> (n: usize)
    ensures
        n == group_with(deep(groups@), print@),
        n <= groups@.len(),
{
    let ghost views = deep(groups@);
    let mut i: usize = 0;
    while i < groups.len() && !same(groups[i].fingerprint.as_str(), print)
        invariant
            views == deep(groups@),
            i <= groups.len(),
            forall|j: int| 0 <= j < i ==> (#[trigger] views[j]).fingerprint != print@,
        decreases groups.len() - i,
    {
        i += 1;
    }
    proof {
        lemma_group_with(views, print@, i as int);
    }
    i
}

/// Group one file's hunks by fingerprint, in the order of first appearance.
pub fn group_by_fingerprint(path: &str, hunks: &Vec<Hunk>) -> (groups: Vec<HunkGroup>)
    ensures
        deep(groups@) == groups_of(path@, deep(hunks@)),
{
    broadcast use group_deep;

    let ghost views = deep(hunks@);
    let mut groups: Vec<HunkGroup> = Vec::new();
    let mut i: usize = 0;
    assert(views.take(0) =~= Seq::empty());
    while i < hunks.len()
        invariant
            views == deep(hunks@),
            i <= hunks.len(),
            deep(groups@) == groups_of(path@, views.take(i as int)),
        decreases hunks.len() - i,
    {
        assert(views.take(i as int + 1).drop_last() =~= views.take(i as int));
        let hunk = &hunks[i];
        let ghost h = views[i as int];
        assert(h == hunk.deep_view());
        let print = fingerprint(path, hunk);
        let facts = HunkFacts {
            short_id: hunk.short_id.clone(),
            before_start: hunk.before_range.start,
            removed: hunk.before_range.length,
            added: hunk.after_range.length,
        };
        let ghost one = facts.deep_view();
        assert(one == facts_of(h));
        let n = find_group(&groups, print.as_str());
        let ghost before = deep(groups@);
        if n < groups.len() {
            let mut members: Vec<HunkFacts> = Vec::new();
            std::mem::swap(&mut members, &mut groups[n].members);
            let ghost was = members@;
            assert(deep(was) == before[n as int].members);
            members.push(facts);
            let ghost now = members@;
            groups[n].members = members;
            proof {
                assert(deep(now) == deep(was).push(one));
                assert(groups@[n as int].deep_view() == (HunkGroupView {
                    members: before[n as int].members.push(one),
                    ..before[n as int]
                }));
                assert(deep(groups@) =~= with_hunk(before, path@, h));
            }
        } else {
            let mut members: Vec<HunkFacts> = Vec::new();
            members.push(facts);
            assert(deep(members@) =~= seq![one]);
            groups.push(HunkGroup { path: path.to_owned(), fingerprint: print, members });
            assert(deep(groups@) =~= with_hunk(before, path@, h));
        }
        i += 1;
    }
    assert(views.take(views.len() as int) =~= views);
    groups
}

// ---------------------------------------------------------------------------
// Routing
// ---------------------------------------------------------------------------

/// What the parent knows about where a file's lines came from.
#[derive(Debug)]
pub enum History {
    /// The commit that last touched each line.
    Lines(Vec<String>),
    /// There is none, and why.
    Absent(String),
}

#[verifier::ext_equal]
pub enum HistoryView {
    Lines(Seq<Seq<char>>),
    Absent(Seq<char>),
}

impl DeepView for History {
    type V = HistoryView;

    open spec fn deep_view(&self) -> HistoryView {
        match self {
            History::Lines(lines) => HistoryView::Lines(deep(lines@)),
            History::Absent(reason) => HistoryView::Absent(reason@),
        }
    }
}

/// Where a hunk goes.
#[derive(Debug)]
pub enum Routing {
    Move(CommitRef),
    /// It stays, and why.
    Stay(String),
}

#[verifier::ext_equal]
pub enum RoutingView {
    Move(CommitView),
    Stay(Seq<char>),
}

impl DeepView for Routing {
    type V = RoutingView;

    open spec fn deep_view(&self) -> RoutingView {
        match self {
            Routing::Move(c) => RoutingView::Move(c.deep_view()),
            Routing::Stay(reason) => RoutingView::Stay(reason@),
        }
    }
}

pub open spec fn labels_of(commits: Seq<CommitView>, ids: Seq<Seq<char>>) -> Seq<Seq<char>> {
    Seq::new(ids.len(), |i: int| owner_label(commits, ids[i]))
}

/// The position of a line that is counted from one.
pub open spec fn line_index(line: usize) -> int {
    if line == 0 {
        0
    } else {
        line - 1
    }
}

/// Who owns the lines a hunk takes away: one commit, or why none.
pub open spec fn owner_of_removed(
    f: FactsView,
    lines: Seq<Seq<char>>,
    commits: Seq<CommitView>,
) -> Result<Seq<char>, Seq<char>> {
    let from = line_index(f.before_start);
    if from + f.removed > lines.len() {
        Err(
            "it covers parent lines "@ + decimal(f.before_start as nat) + "-"@ + decimal(
                (f.before_start + f.removed - 1) as nat,
            ) + ", which is past the "@ + decimal(lines.len())
                + " the parent has -- refusing to guess"@,
        )
    } else {
        let owners = without_repeats(
            sorted::<String>(lines.subrange(from, from + f.removed)),
        );
        if owners.len() > 1 {
            Err(
                "the "@ + decimal(f.removed as nat) + " lines it changes were last touched by "@
                    + decimal(owners.len()) + " commits ("@ + joined(
                    labels_of(commits, owners),
                    ", "@,
                ) + ")"@,
            )
        } else {
            Ok(owners[0])
        }
    }
}

/// Who owns the place an insertion goes to: one commit, or why none.
pub open spec fn owner_of_place(
    f: FactsView,
    lines: Seq<Seq<char>>,
    policy: InsertionPolicy,
    commits: Seq<CommitView>,
) -> Result<Seq<char>, Seq<char>> {
    let above = f.before_start - 2;
    let below = line_index(f.before_start);
    let has_above = 0 <= above < lines.len();
    let has_below = below < lines.len();
    if policy == InsertionPolicy::Skip {
        Err(
            "it only adds lines, so no line of it blames to an ancestor (--insertions=surrounding routes these by their neighbours)"@,
        )
    } else if has_above && has_below && lines[above] != lines[below] {
        Err(
            "it is inserted exactly on the boundary between lines owned by "@ + owner_label(
                commits,
                lines[above],
            ) + " and "@ + owner_label(commits, lines[below]),
        )
    } else if has_above {
        Ok(lines[above])
    } else if has_below {
        Ok(lines[below])
    } else {
        Err("it is inserted into a file that is empty in the parent"@)
    }
}

/// Where one hunk goes.
pub open spec fn routed(
    f: FactsView,
    history: HistoryView,
    commits: Seq<CommitView>,
    policy: InsertionPolicy,
) -> RoutingView {
    match history {
        HistoryView::Absent(reason) => RoutingView::Stay(reason),
        HistoryView::Lines(lines) => {
            let owner = if f.removed > 0 {
                owner_of_removed(f, lines, commits)
            } else {
                owner_of_place(f, lines, policy, commits)
            };
            match owner {
                Err(reason) => RoutingView::Stay(reason),
                Ok(id) => match rank_of(commits, id) {
                    Some(n) => RoutingView::Move(commits[n]),
                    None => RoutingView::Stay(
                        "its lines were last changed by "@ + owner_label(commits, id)
                            + ", which is immutable"@,
                    ),
                },
            }
        },
    }
}

fn label_list(ids: &Vec<String>, commits: &Vec<CommitRef>) -> (out: Vec<String>)
    ensures
        deep(out@) == labels_of(deep(commits@), deep(ids@)),
{
    let mut out: Vec<String> = Vec::new();
    let mut i: usize = 0;
    while i < ids.len()
        invariant
            i <= ids.len(),
            out@.len() == i,
            forall|j: int|
                0 <= j < i ==> (#[trigger] out@[j])@ == owner_label(
                    deep(commits@),
                    deep(ids@)[j],
                ),
        decreases ids.len() - i,
    {
        out.push(label(ids[i].as_str(), commits));
        i += 1;
    }
    assert(deep(out@) =~= labels_of(deep(commits@), deep(ids@)));
    out
}

fn removed_owner(facts: &HunkFacts, lines: &Vec<String>, commits: &Vec<CommitRef>) -> (r: Result<
    String,
    String,
>)
    requires
        facts.removed > 0,
    ensures
        match r {
            Ok(id) => owner_of_removed(facts.deep_view(), deep(lines@), deep(commits@)) == Ok::<
                Seq<char>,
                Seq<char>,
            >(id@),
            Err(reason) => owner_of_removed(facts.deep_view(), deep(lines@), deep(commits@))
                == Err::<Seq<char>, Seq<char>>(reason@),
        },
{
    let ghost views = deep(lines@);
    let from: usize = if facts.before_start == 0 {
        0
    } else {
        facts.before_start - 1
    };
    if from > lines.len() || facts.removed > lines.len() - from {
        let last: u128 = facts.before_start as u128 + facts.removed as u128 - 1;
        let mut out = concat3("it covers parent lines ", number(facts.before_start).as_str(), "-");
        out.append(wide_number(last).as_str());
        out.append(", which is past the ");
        out.append(number(lines.len()).as_str());
        out.append(" the parent has -- refusing to guess");
        return Err(out);
    }
    let to: usize = from + facts.removed;
    let ghost covered = views.subrange(from as int, to as int);
    let mut owners: Vec<String> = Vec::new();
    let mut i: usize = from;
    while i < to
        invariant
            views == deep(lines@),
            from <= i <= to <= lines.len(),
            owners@.len() == i - from,
            forall|j: int| 0 <= j < owners@.len() ==> (#[trigger] owners@[j])@ == views[from + j],
        decreases to - i,
    {
        owners.push(lines[i].clone());
        i += 1;
    }
    assert(deep(owners@) =~= covered);
    let owners = distinct(owners);
    if owners.len() > 1 {
        let mut out = concat3(
            "the ",
            number(facts.removed).as_str(),
            " lines it changes were last touched by ",
        );
        out.append(number(owners.len()).as_str());
        out.append(" commits (");
        out.append(join(&label_list(&owners, commits), ", ").as_str());
        out.append(")");
        return Err(out);
    }
    proof {
        lemma_some_owner(covered);
        assert(deep(owners@).len() > 0);
        assert(deep(owners@)[0] == owners@[0]@);
    }
    Ok(owners[0].clone())
}

proof fn lemma_some_owner(items: Seq<Seq<char>>)
    requires
        items.len() > 0,
    ensures
        without_repeats(sorted::<String>(items)).len() > 0,
{
    broadcast use vstd::seq_lib::group_to_multiset_ensures;

    crate::names::sorting_orders_and_keeps_everything::<String>(items);
    let all: Seq<Seq<char>> = sorted::<String>(items);
    assert(all.to_multiset().len() == items.to_multiset().len());
    assert(all.len() == items.len());
    lemma_repeats_left(all);
}

proof fn lemma_repeats_left(items: Seq<Seq<char>>)
    requires
        items.len() > 0,
    ensures
        without_repeats(items).len() > 0,
    decreases items.len(),
{
    if items.len() > 1 {
        lemma_repeats_left(items.drop_last());
    }
}

/// Who owns the place an insertion goes to.
fn insertion_owner(
    facts: &HunkFacts,
    lines: &Vec<String>,
    policy: InsertionPolicy,
    commits: &Vec<CommitRef>,
) -> (r: Result<String, String>)
    ensures
        match r {
            Ok(id) => owner_of_place(facts.deep_view(), deep(lines@), policy, deep(commits@))
                == Ok::<Seq<char>, Seq<char>>(id@),
            Err(reason) => owner_of_place(
                facts.deep_view(),
                deep(lines@),
                policy,
                deep(commits@),
            ) == Err::<Seq<char>, Seq<char>>(reason@),
        },
{
    let ghost views = deep(lines@);
    if policy == InsertionPolicy::Skip {
        return Err(
            "it only adds lines, so no line of it blames to an ancestor (--insertions=surrounding routes these by their neighbours)".to_owned(),
        );
    }
    let n: usize = lines.len();
    let has_above = facts.before_start >= 2 && facts.before_start - 2 < n;
    let below: usize = if facts.before_start == 0 {
        0
    } else {
        facts.before_start - 1
    };
    if has_above {
        let above: usize = facts.before_start - 2;
        assert(views[above as int] == lines@[above as int]@);
        if below < n {
            assert(views[below as int] == lines@[below as int]@);
            if !same(lines[above].as_str(), lines[below].as_str()) {
                let mut out = concat3(
                    "it is inserted exactly on the boundary between lines owned by ",
                    label(lines[above].as_str(), commits).as_str(),
                    " and ",
                );
                out.append(label(lines[below].as_str(), commits).as_str());
                return Err(out);
            }
        }
        return Ok(lines[above].clone());
    }
    if below < n {
        assert(views[below as int] == lines@[below as int]@);
        return Ok(lines[below].clone());
    }
    Err("it is inserted into a file that is empty in the parent".to_owned())
}

/// Where one hunk goes: to the one mutable ancestor that last touched the lines
/// it takes away. Whatever does not name one makes it stay.
pub fn route_hunk(
    facts: &HunkFacts,
    history: &History,
    commits: &Vec<CommitRef>,
    policy: InsertionPolicy,
) -> (r: Routing)
    ensures
        r.deep_view() == routed(
            facts.deep_view(),
            history.deep_view(),
            deep(commits@),
            policy,
        ),
{
    let lines = match history {
        History::Lines(lines) => lines,
        History::Absent(reason) => {
            return Routing::Stay(reason.clone());
        },
    };
    let owner = if facts.removed > 0 {
        removed_owner(facts, lines, commits)
    } else {
        insertion_owner(facts, lines, policy, commits)
    };
    match owner {
        Err(reason) => Routing::Stay(reason),
        Ok(id) => match find_rank(commits, id.as_str()) {
            Some(n) => {
                assert(deep(commits@)[n as int] == commits@[n as int].deep_view());
                Routing::Move(commits[n].copied())
            },
            None => Routing::Stay(
                concat3(
                    "its lines were last changed by ",
                    label(id.as_str(), commits).as_str(),
                    ", which is immutable",
                ),
            ),
        },
    }
}

/// Where some hunks that cannot be told apart go; nothing where there are none.
pub open spec fn routed_together(
    path: Seq<char>,
    members: Seq<FactsView>,
    history: HistoryView,
    commits: Seq<CommitView>,
    policy: InsertionPolicy,
) -> Option<RoutingView>
    decreases members.len(),
{
    if members.len() == 0 {
        None
    } else {
        let before = routed_together(path, members.drop_last(), history, commits, policy);
        let last = routed(members.last(), history, commits, policy);
        match before {
            Some(RoutingView::Stay(_)) => before,
            None => Some(last),
            Some(RoutingView::Move(first)) => match last {
                RoutingView::Stay(_) => Some(last),
                RoutingView::Move(target) => if first == target {
                    before
                } else {
                    Some(
                        RoutingView::Stay(
                            "identical to another hunk in "@ + path
                                + ", and the two belong to different ancestors ("@ + first.short
                                + " and "@ + target.short
                                + "), which no selection can tell apart"@,
                        ),
                    )
                },
            },
        }
    }
}

/// Where a group goes.
pub open spec fn group_routed(
    g: HunkGroupView,
    history: HistoryView,
    commits: Seq<CommitView>,
    policy: InsertionPolicy,
) -> RoutingView {
    match routed_together(g.path, g.members, history, commits, policy) {
        Some(r) => r,
        None => RoutingView::Stay("it contains no hunks"@),
    }
}

proof fn lemma_stays(
    path: Seq<char>,
    members: Seq<FactsView>,
    history: HistoryView,
    commits: Seq<CommitView>,
    policy: InsertionPolicy,
    n: int,
)
    requires
        0 <= n <= members.len(),
        routed_together(path, members.take(n), history, commits, policy) matches Some(r) && r
            is Stay,
    ensures
        routed_together(path, members, history, commits, policy) == routed_together(
            path,
            members.take(n),
            history,
            commits,
            policy,
        ),
    decreases members.len(),
{
    if n < members.len() {
        assert(members.drop_last().take(n) =~= members.take(n));
        lemma_stays(path, members.drop_last(), history, commits, policy, n);
    } else {
        assert(members.take(n) =~= members);
    }
}

/// Where a group goes: where all of its hunks go, if that is one ancestor.
pub fn route_group(
    group: &HunkGroup,
    history: &History,
    commits: &Vec<CommitRef>,
    policy: InsertionPolicy,
) -> (r: Routing)
    ensures
        r.deep_view() == group_routed(
            group.deep_view(),
            history.deep_view(),
            deep(commits@),
            policy,
        ),
{
    let ghost members = group.deep_view().members;
    let ghost past = history.deep_view();
    let ghost known = deep(commits@);
    let mut decided: Option<CommitRef> = None;
    let mut i: usize = 0;
    assert(members.take(0) =~= Seq::empty());
    while i < group.members.len()
        invariant
            members == group.deep_view().members,
            past == history.deep_view(),
            known == deep(commits@),
            i <= group.members.len(),
            match decided {
                Some(c) => routed_together(
                    group.path@,
                    members.take(i as int),
                    past,
                    known,
                    policy,
                ) == Some(RoutingView::Move(c.deep_view())),
                None => i == 0,
            },
        decreases group.members.len() - i,
    {
        assert(members.take(i as int + 1).drop_last() =~= members.take(i as int));
        assert(members.take(i as int + 1).last() == group.members@[i as int].deep_view());
        if i == 0 {
            assert(members.take(0) =~= Seq::empty());
        }
        match route_hunk(&group.members[i], history, commits, policy) {
            Routing::Stay(reason) => {
                proof {
                    lemma_stays(group.path@, members, past, known, policy, i as int + 1);
                }
                return Routing::Stay(reason);
            },
            Routing::Move(target) => {
                let clash = match &decided {
                    None => None,
                    Some(first) => if first.equals(&target) {
                        None
                    } else {
                        let mut out = concat3(
                            "identical to another hunk in ",
                            group.path.as_str(),
                            ", and the two belong to different ancestors (",
                        );
                        out.append(first.short.as_str());
                        out.append(" and ");
                        out.append(target.short.as_str());
                        out.append("), which no selection can tell apart");
                        Some(out)
                    },
                };
                match clash {
                    Some(reason) => {
                        proof {
                            lemma_stays(group.path@, members, past, known, policy, i as int + 1);
                        }
                        return Routing::Stay(reason);
                    },
                    None => {
                        decided = Some(target);
                    },
                }
            },
        }
        i += 1;
    }
    assert(members.take(members.len() as int) =~= members);
    match decided {
        Some(target) => Routing::Move(target),
        None => Routing::Stay("it contains no hunks".to_owned()),
    }
}

proof fn lemma_moves_agree(
    path: Seq<char>,
    members: Seq<FactsView>,
    history: HistoryView,
    commits: Seq<CommitView>,
    policy: InsertionPolicy,
    target: CommitView,
    i: int,
)
    requires
        routed_together(path, members, history, commits, policy) == Some(
            RoutingView::Move(target),
        ),
        0 <= i < members.len(),
    ensures
        routed(members[i], history, commits, policy) == RoutingView::Move(target),
    decreases members.len(),
{
    let front = members.drop_last();
    if i < front.len() {
        assert(front[i] == members[i]);
        lemma_moves_agree(path, front, history, commits, policy, target, i);
    } else if front.len() > 0 {
        assert(routed_together(path, front, history, commits, policy) is Some) by {
            lemma_some_routing(path, front, history, commits, policy);
        }
    }
}

proof fn lemma_some_routing(
    path: Seq<char>,
    members: Seq<FactsView>,
    history: HistoryView,
    commits: Seq<CommitView>,
    policy: InsertionPolicy,
)
    requires
        members.len() > 0,
    ensures
        routed_together(path, members, history, commits, policy) is Some,
{
}

/// A group moves only where every one of its hunks belongs.
pub proof fn a_group_moves_where_all_its_hunks_belong(
    g: HunkGroupView,
    history: HistoryView,
    commits: Seq<CommitView>,
    policy: InsertionPolicy,
    target: CommitView,
    i: int,
)
    requires
        group_routed(g, history, commits, policy) == RoutingView::Move(target),
        0 <= i < g.members.len(),
    ensures
        routed(g.members[i], history, commits, policy) == RoutingView::Move(target),
{
    lemma_moves_agree(g.path, g.members, history, commits, policy, target, i);
}

proof fn lemma_moves_together(
    path: Seq<char>,
    members: Seq<FactsView>,
    history: HistoryView,
    commits: Seq<CommitView>,
    policy: InsertionPolicy,
    target: CommitView,
)
    requires
        members.len() > 0,
        forall|i: int|
            0 <= i < members.len() ==> routed(#[trigger] members[i], history, commits, policy)
                == RoutingView::Move(target),
    ensures
        routed_together(path, members, history, commits, policy) == Some(RoutingView::Move(target)),
    decreases members.len(),
{
    let rest = members.drop_last();
    assert(routed(members[members.len() - 1], history, commits, policy) == RoutingView::Move(
        target,
    ));
    if rest.len() > 0 {
        assert forall|i: int| 0 <= i < rest.len() implies routed(
            #[trigger] rest[i],
            history,
            commits,
            policy,
        ) == RoutingView::Move(target) by {
            assert(rest[i] == members[i]);
        }
        lemma_moves_together(path, rest, history, commits, policy, target);
    } else {
        assert(routed_together(path, rest, history, commits, policy) is None);
    }
}

/// A group whose hunks all belong to one ancestor moves there. So a group stays
/// exactly where it has no hunk, where one of its hunks stays, or where two of
/// them belong to different ancestors.
pub proof fn a_group_whose_hunks_agree_moves(
    g: HunkGroupView,
    history: HistoryView,
    commits: Seq<CommitView>,
    policy: InsertionPolicy,
    target: CommitView,
)
    requires
        g.members.len() > 0,
        forall|i: int|
            0 <= i < g.members.len() ==> routed(
                #[trigger] g.members[i],
                history,
                commits,
                policy,
            ) == RoutingView::Move(target),
    ensures
        group_routed(g, history, commits, policy) == RoutingView::Move(target),
{
    lemma_moves_together(g.path, g.members, history, commits, policy, target);
}

proof fn lemma_rank(commits: Seq<CommitView>, id: Seq<char>)
    ensures
        rank_of(commits, id) matches Some(n) ==> 0 <= n < commits.len() && commits[n].commit_id
            == id,
    decreases commits.len(),
{
    if commits.len() > 0 && commits.last().commit_id != id {
        lemma_rank(commits.drop_last(), id);
    }
}

/// A hunk only ever moves into one of the mutable ancestors.
pub proof fn a_hunk_moves_into_a_mutable_ancestor(
    f: FactsView,
    history: HistoryView,
    commits: Seq<CommitView>,
    policy: InsertionPolicy,
)
    ensures
        routed(f, history, commits, policy) matches RoutingView::Move(target)
            ==> commits.contains(target),
{
    if let HistoryView::Lines(lines) = history {
        let owner = if f.removed > 0 {
            owner_of_removed(f, lines, commits)
        } else {
            owner_of_place(f, lines, policy, commits)
        };
        if let Ok(id) = owner {
            lemma_rank(commits, id);
        }
    }
}

proof fn lemma_last_rank(commits: Seq<CommitView>, id: Seq<char>)
    ensures
        match rank_of(commits, id) {
            Some(n) => is_last_with(commits, n, id),
            None => forall|i: int| 0 <= i < commits.len() ==> (#[trigger] commits[i]).commit_id != id,
        },
    decreases commits.len(),
{
    if commits.len() > 0 && commits.last().commit_id != id {
        let rest = commits.drop_last();
        lemma_last_rank(rest, id);
        assert forall|i: int| 0 <= i < rest.len() implies rest[i] == #[trigger] commits[i] by {}
    }
}

/// Whether a commit is the last of some that has an id.
pub open spec fn is_last_with(commits: Seq<CommitView>, n: int, id: Seq<char>) -> bool {
    &&& 0 <= n < commits.len()
    &&& commits[n].commit_id == id
    &&& forall|i: int| n < i < commits.len() ==> (#[trigger] commits[i]).commit_id != id
}

/// Whether every line that a hunk takes away is there and was last touched by
/// one commit. Lines are counted from one.
pub open spec fn all_touched_by(f: FactsView, lines: Seq<Seq<char>>, id: Seq<char>) -> bool {
    let first: int = if f.before_start == 0 {
        1
    } else {
        f.before_start as int
    };
    &&& first + f.removed <= lines.len() + 1
    &&& forall|line: int|
        first <= line < first + f.removed ==> #[trigger] touched_by(lines, line, id)
}

/// Whether a line was last touched by a commit. Lines are counted from one.
pub open spec fn touched_by(lines: Seq<Seq<char>>, line: int, id: Seq<char>) -> bool {
    1 <= line <= lines.len() && lines[line - 1] == id
}

/// Whether the lines around an insertion, as far as there are any, were last
/// touched by one commit, and there is one.
pub open spec fn surrounded_by(f: FactsView, lines: Seq<Seq<char>>, id: Seq<char>) -> bool {
    let below: int = if f.before_start == 0 {
        1
    } else {
        f.before_start as int
    };
    let above = below - 1;
    &&& touched_by(lines, above, id) || touched_by(lines, below, id)
    &&& 1 <= above <= lines.len() ==> touched_by(lines, above, id)
    &&& 1 <= below <= lines.len() ==> touched_by(lines, below, id)
}

proof fn lemma_one_owner(f: FactsView, lines: Seq<Seq<char>>, commits: Seq<CommitView>)
    requires
        f.removed > 0,
    ensures
        match owner_of_removed(f, lines, commits) {
            Ok(id) => all_touched_by(f, lines, id),
            Err(_) => forall|id: Seq<char>| !#[trigger] all_touched_by(f, lines, id),
        },
{
    let from = line_index(f.before_start);
    if from + f.removed <= lines.len() {
        let covered = lines.subrange(from, from + f.removed);
        let owners = without_repeats(sorted::<String>(covered));
        crate::names::distinct_strings_come_once_in_order(covered);
        lemma_some_owner(covered);
        if owners.len() > 1 {
            assert forall|id: Seq<char>| !#[trigger] all_touched_by(f, lines, id) by {
                if all_touched_by(f, lines, id) {
                    assert forall|i: int| 0 <= i < covered.len() implies #[trigger] covered[i]
                        == id by {
                        assert(touched_by(lines, from + i + 1, id));
                    }
                    assert(owners.contains(owners[0]) && owners.contains(owners[1]));
                    assert(covered.contains(owners[0]) && covered.contains(owners[1]));
                    assert(less(owners[0], owners[1]));
                    crate::names::lemma_less_irreflexive(id);
                }
            }
        } else {
            let id = owners[0];
            assert forall|line: int| from + 1 <= line < from + 1 + f.removed implies
                #[trigger] touched_by(lines, line, id) by {
                let one = covered[line - 1 - from];
                assert(covered.contains(one));
                assert(owners.contains(one));
            }
        }
    }
}

/// A hunk that takes lines away moves exactly where every one of those lines was
/// last touched: each of them is a line of the parent, one commit touched them
/// all, and that commit is one of the mutable ancestors. Where their ids repeat,
/// the last of them is meant.
pub proof fn a_hunk_moves_where_all_its_lines_were_touched(
    f: FactsView,
    lines: Seq<Seq<char>>,
    commits: Seq<CommitView>,
    policy: InsertionPolicy,
)
    requires
        f.removed > 0,
    ensures
        forall|n: int, id: Seq<char>| #[trigger]
            all_touched_by(f, lines, id) && #[trigger] is_last_with(commits, n, id) ==> routed(
                f,
                HistoryView::Lines(lines),
                commits,
                policy,
            ) == RoutingView::Move(commits[n]),
        routed(f, HistoryView::Lines(lines), commits, policy) matches RoutingView::Move(target)
            ==> all_touched_by(f, lines, target.commit_id) && exists|n: int| #[trigger]
            is_last_with(commits, n, target.commit_id) && commits[n] == target,
{
    lemma_one_owner(f, lines, commits);
    let owner = owner_of_removed(f, lines, commits);
    if let Ok(id) = owner {
        lemma_last_rank(commits, id);
        if let Some(n) = rank_of(commits, id) {
            assert(is_last_with(commits, n, commits[n].commit_id));
        }
    }
    assert forall|n: int, id: Seq<char>| #[trigger]
        all_touched_by(f, lines, id) && #[trigger] is_last_with(commits, n, id) implies routed(
        f,
        HistoryView::Lines(lines),
        commits,
        policy,
    ) == RoutingView::Move(commits[n]) by {
        let one = owner->Ok_0;
        let first: int = line_index(f.before_start) + 1;
        assert(touched_by(lines, first, id));
        assert(touched_by(lines, first, one));
        let m = rank_of(commits, id)->0;
        assert(rank_of(commits, id) is Some) by {
            assert(commits[n].commit_id == id);
        }
        assert(m == n) by {
            if m < n {
                assert(commits[n].commit_id != id);
            }
            if n < m {
                assert(commits[m].commit_id != id);
            }
        }
    }
}

/// A hunk that only adds lines stays where such hunks are left alone. Otherwise
/// it moves exactly where the line above it and the line below it were last
/// touched, which have to agree; at an end of the file the one there is decides.
pub proof fn an_insertion_moves_where_the_lines_around_it_were_touched(
    f: FactsView,
    lines: Seq<Seq<char>>,
    commits: Seq<CommitView>,
)
    requires
        f.removed == 0,
    ensures
        routed(f, HistoryView::Lines(lines), commits, InsertionPolicy::Skip) is Stay,
        forall|n: int, id: Seq<char>| #[trigger]
            surrounded_by(f, lines, id) && #[trigger] is_last_with(commits, n, id) ==> routed(
                f,
                HistoryView::Lines(lines),
                commits,
                InsertionPolicy::Surrounding,
            ) == RoutingView::Move(commits[n]),
        routed(
            f,
            HistoryView::Lines(lines),
            commits,
            InsertionPolicy::Surrounding,
        ) matches RoutingView::Move(target) ==> surrounded_by(f, lines, target.commit_id)
            && exists|n: int| #[trigger]
            is_last_with(commits, n, target.commit_id) && commits[n] == target,
{
    let policy = InsertionPolicy::Surrounding;
    let owner = owner_of_place(f, lines, policy, commits);
    if let Ok(id) = owner {
        assert(surrounded_by(f, lines, id));
        lemma_last_rank(commits, id);
        if let Some(n) = rank_of(commits, id) {
            assert(is_last_with(commits, n, commits[n].commit_id));
        }
    }
    assert forall|n: int, id: Seq<char>| #[trigger]
        surrounded_by(f, lines, id) && #[trigger] is_last_with(commits, n, id) implies routed(
        f,
        HistoryView::Lines(lines),
        commits,
        policy,
    ) == RoutingView::Move(commits[n]) by {
        assert(owner == Ok::<Seq<char>, Seq<char>>(id));
        lemma_last_rank(commits, id);
        assert(rank_of(commits, id) is Some) by {
            assert(commits[n].commit_id == id);
        }
        let m = rank_of(commits, id)->0;
        assert(m == n) by {
            if m < n {
                assert(commits[n].commit_id != id);
            }
            if n < m {
                assert(commits[m].commit_id != id);
            }
        }
    }
}

/// Without a history of its file a hunk stays, for the reason that there is
/// none.
pub proof fn without_a_history_a_hunk_stays(
    f: FactsView,
    reason: Seq<char>,
    commits: Seq<CommitView>,
    policy: InsertionPolicy,
)
    ensures
        routed(f, HistoryView::Absent(reason), commits, policy) == RoutingView::Stay(reason),
{
}

// ---------------------------------------------------------------------------
// Planning
// ---------------------------------------------------------------------------

/// One file whose hunks are to be routed.
#[derive(Debug)]
pub struct FileToRoute {
    pub path: String,
    pub hunks: Vec<Hunk>,
    /// Nothing until the parent's version of the file has been annotated.
    pub history: Option<History>,
}

#[verifier::ext_equal]
pub struct RouteView {
    pub path: Seq<char>,
    pub hunks: Seq<HunkView>,
    pub history: Option<HistoryView>,
}

impl DeepView for FileToRoute {
    type V = RouteView;

    open spec fn deep_view(&self) -> RouteView {
        RouteView {
            path: self.path@,
            hunks: deep(self.hunks@),
            history: self.history.deep_view(),
        }
    }
}

/// What a revision changes, as far as it is to be considered.
#[derive(Debug)]
pub struct Considered {
    pub files: Vec<FileToRoute>,
    /// What no hunk tells and therefore stays.
    pub notes: Vec<String>,
}

/// Why every hunk of a file that was moved stays.
pub open spec fn renamed_text(path: Seq<char>, from: Seq<char>) -> Seq<char> {
    path + " was renamed from "@ + from
        + ", and a rename is a whole-file change that would ride into the ancestor with the first hunk that moved -- commit the rename on its own first, then absorb"@
}

/// Why a file has no history, where nobody needs to ask for it.
pub open spec fn absent_reason(f: FileView) -> Option<Seq<char>> {
    match moved_from(f.rename, f.path) {
        Some(from) => Some(renamed_text(f.path, from)),
        None => if f.status == "added"@ {
            Some(f.path + " is new in this revision, so none of its lines has any history"@)
        } else {
            None
        },
    }
}

/// Why every hunk of a renamed or copied file stays where it is.
///
/// A rename rides along with the first hunk that leaves the file, which would
/// put the new name into an ancestor while what comes after it still has the old
/// one.
pub fn renamed_reason(file: &FileHunks) -> (r: Option<String>)
    ensures
        match r {
            Some(reason) => moved_from(file.deep_view().rename, file.path@) matches Some(from)
                && reason@ == renamed_text(file.path@, from),
            None => moved_from(file.deep_view().rename, file.path@) is None,
        },
{
    match file.rename_source() {
        Some(from) => {
            let mut out = concat3(file.path.as_str(), " was renamed from ", from);
            out.append(
                ", and a rename is a whole-file change that would ride into the ancestor with the first hunk that moved -- commit the rename on its own first, then absorb",
            );
            Some(out)
        },
        None => None,
    }
}

/// Why a file that changed has no hunk to route.
pub open spec fn unroutable_text(f: FileView) -> Seq<char> {
    if f.is_binary {
        f.path + " is binary, so its change cannot be split into hunks and stays"@
    } else if f.mode is Some {
        f.path + " only changes its executable bit, which is not part of any hunk and stays"@
    } else {
        match moved_from(f.rename, f.path) {
            Some(from) => f.path + " was only renamed from "@ + from
                + ", which is not part of any hunk and stays"@,
            None => f.path + " changed in a way that produces no hunks, so it stays whole"@,
        }
    }
}

/// Why a file that changed has no hunk to route.
pub fn unroutable_note(file: &FileHunks) -> (r: String)
    ensures
        r@ == unroutable_text(file.deep_view()),
{
    let path = file.path.as_str();
    if file.is_binary {
        concat2(path, " is binary, so its change cannot be split into hunks and stays")
    } else if file.mode.is_some() {
        concat2(path, " only changes its executable bit, which is not part of any hunk and stays")
    } else {
        match file.rename_source() {
            Some(from) => {
                let mut out = concat3(path, " was only renamed from ", from);
                out.append(", which is not part of any hunk and stays");
                out
            },
            None => concat2(path, " changed in a way that produces no hunks, so it stays whole"),
        }
    }
}

/// What is to be said of a file beside its hunks.
pub open spec fn file_notes(f: FileView) -> Seq<Seq<char>> {
    if f.hunks.len() == 0 {
        seq![unroutable_text(f)]
    } else if f.mode is Some {
        seq![
            f.path + " also changes its executable bit, which is not part of any hunk and stays"@,
        ]
    } else {
        Seq::empty()
    }
}

/// What is to be said of the files that a spec does not leave out.
pub open spec fn notes_on(spec: Option<SpecView>, files: Seq<FileView>) -> Seq<Seq<char>>
    decreases files.len(),
{
    if files.len() == 0 {
        Seq::empty()
    } else if decision_for(spec, files.last().path) is Skip {
        notes_on(spec, files.drop_last())
    } else {
        notes_on(spec, files.drop_last()) + file_notes(files.last())
    }
}

/// A file with those of its hunks that are to be routed.
pub open spec fn route_view(spec: Option<SpecView>, f: FileView) -> RouteView {
    RouteView {
        path: f.path,
        hunks: listed_hunks(decision_for(spec, f.path), f),
        history: match absent_reason(f) {
            Some(reason) => Some(HistoryView::Absent(reason)),
            None => None,
        },
    }
}

/// The files with hunks that are to be routed.
pub open spec fn files_to_route(spec: Option<SpecView>, files: Seq<FileView>) -> Seq<RouteView>
    decreases files.len(),
{
    if files.len() == 0 {
        Seq::empty()
    } else {
        let rest = files_to_route(spec, files.drop_last());
        let f = files.last();
        if decision_for(spec, f.path) is Skip || route_view(spec, f).hunks.len() == 0 {
            rest
        } else {
            rest.push(route_view(spec, f))
        }
    }
}

proof fn lemma_no_hunks_no_choice(d: Decision, f: FileView)
    requires
        f.hunks.len() == 0,
    ensures
        listed_hunks(d, f).len() == 0,
        d matches Decision::KeepSelection { ids, .. } ==> !any_ambiguous(ids, f.hunks),
{
    assert forall|id: Seq<char>| #[trigger] crate::diff::named_by(f.hunks, id).len() == 0 by {}
}

/// What one file contributes: what is to be said of it, and what of it is to be
/// routed.
fn consider_file(spec: Option<&Spec>, file: FileHunks, notes: &mut Vec<String>) -> (r: Result<
    Option<FileToRoute>,
    UndecidedFile,
>)
    ensures
        ({
            let s = spec_view(spec);
            let f = file.deep_view();
            let d = decision_for(s, f.path);
            let none = Seq::<Seq<char>>::empty();
            match r {
                Ok(found) => {
                    &&& !is_undecided(s, none, none, f)
                    &&& deep(final(notes)@) == (if d is Skip {
                        deep(old(notes)@)
                    } else {
                        deep(old(notes)@) + file_notes(f)
                    })
                    &&& match found {
                        Some(one) => d !is Skip && one.hunks@.len() > 0 && one.deep_view()
                            == route_view(s, f),
                        None => d is Skip || route_view(s, f).hunks.len() == 0,
                    }
                },
                Err(e) => {
                    &&& is_undecided(s, none, none, f)
                    &&& e.path@ == f.path
                    &&& d matches Decision::KeepSelection { ids, .. } && reports_ambiguity(
                        ids,
                        f.hunks,
                        e.error,
                    )
                },
            }
        }),
{
    broadcast use group_deep;

    let ghost s = spec_view(spec);
    let ghost f = file.deep_view();
    let ghost said = deep(notes@);
    let decision = spec_decision(spec, file.path.as_str());
    let ghost d = decision.shape();
    assert(d == decision_for(s, f.path));
    if let SpecDecision::Skip = decision {
        return Ok(None);
    }
    if file.hunks.len() == 0 {
        notes.push(unroutable_note(&file));
        proof {
            lemma_no_hunks_no_choice(d, f);
            assert(deep(notes@) =~= said + file_notes(f));
        }
        return Ok(None);
    }
    if file.mode.is_some() {
        notes.push(
            concat2(
                file.path.as_str(),
                " also changes its executable bit, which is not part of any hunk and stays",
            ),
        );
    }
    assert(deep(notes@) =~= said + file_notes(f));
    let history = match renamed_reason(&file) {
        Some(reason) => Some(History::Absent(reason)),
        None => if same(file.status.as_str(), "added") {
            Some(
                History::Absent(
                    concat2(
                        file.path.as_str(),
                        " is new in this revision, so none of its lines has any history",
                    ),
                ),
            )
        } else {
            None
        },
    };
    let path = file.path;
    let hunks = match decision {
        SpecDecision::KeepSelection(selection) => match filter_hunks(file.hunks, &selection) {
            Ok(kept) => kept,
            Err(error) => {
                proof {
                    assert(reports_ambiguity(selection.ids@, f.hunks, error));
                    assert(selection.ids@.contains(error.id@));
                }
                return Err(UndecidedFile { path, error });
            },
        },
        _ => file.hunks,
    };
    if hunks.len() == 0 {
        return Ok(None);
    }
    let one = FileToRoute { path, hunks, history };
    assert(one.deep_view() == route_view(s, f));
    Ok(Some(one))
}

/// What of a diff is to be routed: the hunks that a spec keeps, by file, and what
/// is to be said of what no hunk tells.
///
/// A file whose history nobody needs to ask for has it already.
pub fn consider(spec: Option<&Spec>, files: Vec<FileHunks>) -> (r: Result<
    Considered,
    UndecidedFile,
>)
    ensures
        ({
            let s = spec_view(spec);
            let all = deep(files@);
            let none = Seq::<Seq<char>>::empty();
            match r {
                Ok(c) => {
                    &&& deep(c.files@) == files_to_route(s, all)
                    &&& deep(c.notes@) == notes_on(s, all)
                    &&& forall|j: int|
                        0 <= j < all.len() ==> !is_undecided(s, none, none, #[trigger] all[j])
                },
                Err(e) => e.is_first(s, none, none, all),
            }
        }),
{
    broadcast use group_deep;

    let ghost s = spec_view(spec);
    let ghost all = deep(files@);
    let ghost held = files@;
    let ghost none = Seq::<Seq<char>>::empty();
    let mut turned = reversed(files);
    let mut out: Vec<FileToRoute> = Vec::new();
    let mut notes: Vec<String> = Vec::new();
    assert(all.take(0) =~= Seq::empty());
    while turned.len() > 0
        invariant
            s == spec_view(spec),
            none == Seq::<Seq<char>>::empty(),
            all == deep(held),
            all == deep(files@),
            turned@.len() <= held.len(),
            turned@ == held.reverse().take(turned@.len() as int),
            deep(out@) == files_to_route(s, all.take(held.len() - turned@.len())),
            deep(notes@) == notes_on(s, all.take(held.len() - turned@.len())),
            forall|j: int|
                0 <= j < held.len() - turned@.len() ==> !is_undecided(
                    s,
                    none,
                    none,
                    #[trigger] all[j],
                ),
        decreases turned.len(),
    {
        let ghost at = held.len() - turned@.len();
        let ghost before = turned@;
        let file = turned.pop().unwrap();
        assert(turned@ =~= held.reverse().take(turned@.len() as int));
        assert(file == before.last());
        assert(file == held[at]);
        assert(file.deep_view() == all[at]);
        assert(all.take(at + 1).drop_last() =~= all.take(at));
        match consider_file(spec, file, &mut notes) {
            Ok(Some(one)) => {
                out.push(one);
            },
            Ok(None) => {},
            Err(e) => {
                assert(is_undecided(s, none, none, all[at]));
                return Err(e);
            },
        }
    }
    assert(all.take(all.len() as int) =~= all);
    Ok(Considered { files: out, notes })
}

/// Where every group of one file goes.
pub open spec fn file_routings(
    f: RouteView,
    commits: Seq<CommitView>,
    policy: InsertionPolicy,
) -> Seq<(HunkGroupView, RoutingView)> {
    let groups = groups_of(f.path, f.hunks);
    Seq::new(
        groups.len(),
        |i: int| (groups[i], group_routed(groups[i], f.history->0, commits, policy)),
    )
}

/// Where every group goes, in the order of the diff.
pub open spec fn routings(
    files: Seq<RouteView>,
    commits: Seq<CommitView>,
    policy: InsertionPolicy,
) -> Seq<(HunkGroupView, RoutingView)>
    decreases files.len(),
{
    if files.len() == 0 {
        Seq::empty()
    } else {
        routings(files.drop_last(), commits, policy) + file_routings(files.last(), commits, policy)
    }
}

pub open spec fn routing_views(list: Seq<(HunkGroup, Routing)>) -> Seq<
    (HunkGroupView, RoutingView),
> {
    Seq::new(list.len(), |i: int| (list[i].0.deep_view(), list[i].1.deep_view()))
}

/// Whether the files' histories are known.
pub open spec fn all_known(files: Seq<RouteView>) -> bool {
    forall|i: int| 0 <= i < files.len() ==> (#[trigger] files[i]).history is Some
}

fn route_file(
    file: &FileToRoute,
    commits: &Vec<CommitRef>,
    policy: InsertionPolicy,
    list: &mut Vec<(HunkGroup, Routing)>,
)
    requires
        file.history is Some,
    ensures
        routing_views(final(list)@) == routing_views(old(list)@) + file_routings(
            file.deep_view(),
            deep(commits@),
            policy,
        ),
{
    let history = file.history.as_ref().unwrap();
    let groups = group_by_fingerprint(file.path.as_str(), &file.hunks);
    let ghost held = groups@;
    let ghost before = routing_views(list@);
    let ghost added = file_routings(file.deep_view(), deep(commits@), policy);
    let mut turned = reversed(groups);
    assert(added.take(0) =~= Seq::empty());
    while turned.len() > 0
        invariant
            added == file_routings(file.deep_view(), deep(commits@), policy),
            deep(held) == groups_of(file.path@, file.deep_view().hunks),
            file.deep_view().history == Some(history.deep_view()),
            turned@.len() <= held.len(),
            turned@ == held.reverse().take(turned@.len() as int),
            routing_views(list@) =~= before + added.take(held.len() - turned@.len()),
        decreases turned.len(),
    {
        let ghost at = held.len() - turned@.len();
        let ghost last = turned@.last();
        let group = turned.pop().unwrap();
        assert(turned@ =~= held.reverse().take(turned@.len() as int));
        assert(group == last);
        assert(group == held[at]);
        assert(deep(held)[at] == group.deep_view());
        let routing = route_group(&group, history, commits, policy);
        let ghost one = (group.deep_view(), routing.deep_view());
        let ghost was = list@;
        list.push((group, routing));
        proof {
            assert(added[at] == one);
            assert(added.take(at + 1) =~= added.take(at).push(one));
            assert(routing_views(list@) =~= routing_views(was).push(one));
        }
    }
    assert(added.take(added.len() as int) =~= added);
}

fn route_all(files: &Vec<FileToRoute>, commits: &Vec<CommitRef>, policy: InsertionPolicy) -> (list:
    Vec<(HunkGroup, Routing)>)
    requires
        all_known(deep(files@)),
    ensures
        routing_views(list@) == routings(deep(files@), deep(commits@), policy),
{
    let ghost views = deep(files@);
    let mut list: Vec<(HunkGroup, Routing)> = Vec::new();
    let mut i: usize = 0;
    assert(views.take(0) =~= Seq::empty());
    assert(routing_views(list@) =~= Seq::empty());
    while i < files.len()
        invariant
            views == deep(files@),
            all_known(views),
            i <= files.len(),
            routing_views(list@) == routings(views.take(i as int), deep(commits@), policy),
        decreases files.len() - i,
    {
        assert(views.take(i as int + 1).drop_last() =~= views.take(i as int));
        assert(views[i as int].history is Some);
        route_file(&files[i], commits, policy, &mut list);
        i += 1;
    }
    assert(views.take(views.len() as int) =~= views);
    list
}

/// The groups that stay, each with why.
pub open spec fn staying(list: Seq<(HunkGroupView, RoutingView)>) -> Seq<
    (HunkGroupView, Seq<char>),
>
    decreases list.len(),
{
    if list.len() == 0 {
        Seq::empty()
    } else {
        let rest = staying(list.drop_last());
        match list.last().1 {
            RoutingView::Stay(reason) => rest.push((list.last().0, reason)),
            RoutingView::Move(_) => rest,
        }
    }
}

/// Whether a group goes to the commit at `rank`.
pub open spec fn goes_to(r: RoutingView, commits: Seq<CommitView>, rank: int) -> bool {
    match r {
        RoutingView::Move(c) => rank_of(commits, c.commit_id) == Some(rank),
        RoutingView::Stay(_) => false,
    }
}

/// The groups that go to the commit at `rank`.
pub open spec fn going_to(
    list: Seq<(HunkGroupView, RoutingView)>,
    commits: Seq<CommitView>,
    rank: int,
) -> Seq<HunkGroupView>
    decreases list.len(),
{
    if list.len() == 0 {
        Seq::empty()
    } else {
        let rest = going_to(list.drop_last(), commits, rank);
        if goes_to(list.last().1, commits, rank) {
            rest.push(list.last().0)
        } else {
            rest
        }
    }
}

/// The commits before the one at `n` that something goes to, each with what goes
/// there, the one that is listed last first.
pub open spec fn moving(
    list: Seq<(HunkGroupView, RoutingView)>,
    commits: Seq<CommitView>,
    n: nat,
) -> Seq<(CommitView, Seq<HunkGroupView>)>
    decreases n,
{
    if n == 0 {
        Seq::empty()
    } else {
        let rank = n - 1;
        let groups = going_to(list, commits, rank);
        let rest = moving(list, commits, rank as nat);
        if groups.len() > 0 {
            seq![(commits[rank], groups)] + rest
        } else {
            rest
        }
    }
}

pub open spec fn move_views(moves: Seq<(CommitRef, Vec<HunkGroup>)>) -> Seq<
    (CommitView, Seq<HunkGroupView>),
> {
    Seq::new(moves.len(), |i: int| (moves[i].0.deep_view(), deep(moves[i].1@)))
}

pub open spec fn stay_views(stays: Seq<(HunkGroup, String)>) -> Seq<(HunkGroupView, Seq<char>)> {
    Seq::new(stays.len(), |i: int| (stays[i].0.deep_view(), stays[i].1@))
}

/// Whether every group that goes somewhere goes to one of some commits.
pub open spec fn goes_somewhere(
    list: Seq<(HunkGroupView, RoutingView)>,
    commits: Seq<CommitView>,
) -> bool {
    forall|i: int|
        0 <= i < list.len() ==> ((#[trigger] list[i]).1 matches RoutingView::Move(c) ==> rank_of(
            commits,
            c.commit_id,
        ) is Some)
}

proof fn lemma_routed_rank(
    f: FactsView,
    history: HistoryView,
    commits: Seq<CommitView>,
    policy: InsertionPolicy,
)
    ensures
        routed(f, history, commits, policy) matches RoutingView::Move(c) ==> rank_of(
            commits,
            c.commit_id,
        ) is Some,
{
    if let HistoryView::Lines(lines) = history {
        let owner = if f.removed > 0 {
            owner_of_removed(f, lines, commits)
        } else {
            owner_of_place(f, lines, policy, commits)
        };
        if let Ok(id) = owner {
            lemma_rank(commits, id);
        }
    }
}

proof fn lemma_group_rank(
    g: HunkGroupView,
    history: HistoryView,
    commits: Seq<CommitView>,
    policy: InsertionPolicy,
)
    ensures
        group_routed(g, history, commits, policy) matches RoutingView::Move(c) ==> rank_of(
            commits,
            c.commit_id,
        ) is Some,
{
    if let RoutingView::Move(c) = group_routed(g, history, commits, policy) {
        lemma_moves_agree(g.path, g.members, history, commits, policy, c, 0);
        lemma_routed_rank(g.members[0], history, commits, policy);
    }
}

proof fn lemma_routings_rank(
    files: Seq<RouteView>,
    commits: Seq<CommitView>,
    policy: InsertionPolicy,
)
    ensures
        goes_somewhere(routings(files, commits, policy), commits),
    decreases files.len(),
{
    if files.len() > 0 {
        let front = routings(files.drop_last(), commits, policy);
        let back = file_routings(files.last(), commits, policy);
        lemma_routings_rank(files.drop_last(), commits, policy);
        let list = routings(files, commits, policy);
        assert forall|i: int| 0 <= i < list.len() implies ((
        #[trigger] list[i]).1 matches RoutingView::Move(c) ==> rank_of(commits, c.commit_id)
            is Some) by {
            if i < front.len() {
                assert(list[i] == front[i]);
            } else {
                assert(list[i] == back[i - front.len()]);
                lemma_group_rank(list[i].0, files.last().history->0, commits, policy);
            }
        }
    }
}

/// Share routed groups out: by the rank of the commit that they go to, and those
/// that stay.
fn share_out(list: Vec<(HunkGroup, Routing)>, commits: &Vec<CommitRef>) -> (r: (
    Vec<Vec<HunkGroup>>,
    Vec<(HunkGroup, String)>,
))
    requires
        goes_somewhere(routing_views(list@), deep(commits@)),
    ensures
        ({
            let all = routing_views(list@);
            &&& r.0@.len() == commits@.len()
            &&& forall|k: int|
                0 <= k < commits@.len() ==> deep((#[trigger] r.0@[k])@) == going_to(
                    all,
                    deep(commits@),
                    k,
                )
            &&& stay_views(r.1@) == staying(all)
        }),
{
    broadcast use group_deep;

    let ghost held = list@;
    let ghost all = routing_views(held);
    let ghost known = deep(commits@);
    let mut buckets: Vec<Vec<HunkGroup>> = Vec::new();
    let mut stays: Vec<(HunkGroup, String)> = Vec::new();
    assert(all.take(0) =~= Seq::empty());
    while buckets.len() < commits.len()
        invariant
            buckets@.len() <= commits@.len(),
            forall|k: int|
                0 <= k < buckets@.len() ==> deep((#[trigger] buckets@[k])@) == going_to(
                    all.take(0),
                    known,
                    k,
                ),
            all.take(0) == Seq::<(HunkGroupView, RoutingView)>::empty(),
        decreases commits.len() - buckets.len(),
    {
        let none: Vec<HunkGroup> = Vec::new();
        assert(deep(none@) =~= Seq::empty());
        buckets.push(none);
    }
    assert(stay_views(stays@) =~= staying(all.take(0)));
    let mut turned = reversed(list);
    while turned.len() > 0
        invariant
            all == routing_views(held),
            known == deep(commits@),
            goes_somewhere(all, known),
            turned@.len() <= held.len(),
            turned@ == held.reverse().take(turned@.len() as int),
            buckets@.len() == commits@.len(),
            forall|k: int|
                0 <= k < buckets@.len() ==> deep((#[trigger] buckets@[k])@) == going_to(
                    all.take(held.len() - turned@.len()),
                    known,
                    k,
                ),
            stay_views(stays@) == staying(all.take(held.len() - turned@.len())),
        decreases turned.len(),
    {
        let ghost at = held.len() - turned@.len();
        let ghost last = turned@.last();
        let ghost old_buckets = buckets@;
        let (group, routing) = turned.pop().unwrap();
        let ghost g = group.deep_view();
        proof {
            assert(turned@ =~= held.reverse().take(turned@.len() as int));
            assert((group, routing) == last);
            assert(last == held[at]);
            assert(all[at] == (group.deep_view(), routing.deep_view()));
            assert(all.take(at + 1).drop_last() =~= all.take(at));
            assert(all.take(at + 1).last() == all[at]);
        }
        match routing {
            Routing::Move(target) => {
                match find_rank(commits, target.commit_id.as_str()) {
                    Some(n) => {
                        buckets[n].push(group);
                        proof {
                            assert forall|k: int| 0 <= k < buckets@.len() implies deep(
                                (#[trigger] buckets@[k])@,
                            ) == going_to(all.take(at + 1), known, k) by {
                                assert(deep(old_buckets[k]@) == going_to(all.take(at), known, k));
                                if k == n {
                                    assert(buckets@[k]@ == old_buckets[k]@.push(group));
                                } else {
                                    assert(buckets@[k] == old_buckets[k]);
                                }
                            }
                        }
                    },
                    None => {
                        assert(false);
                    },
                }
            },
            Routing::Stay(reason) => {
                let ghost before = stays@;
                stays.push((group, reason));
                assert(stay_views(stays@) =~= stay_views(before).push((g, reason@)));
                assert forall|k: int| 0 <= k < buckets@.len() implies deep(
                    (#[trigger] buckets@[k])@,
                ) == going_to(all.take(at + 1), known, k) by {
                    assert(deep(old_buckets[k]@) == going_to(all.take(at), known, k));
                }
            },
        }
    }
    assert(all.take(all.len() as int) =~= all);
    (buckets, stays)
}

/// The destinations with what goes there, the one that is listed last first.
fn destinations(
    buckets: Vec<Vec<HunkGroup>>,
    commits: &Vec<CommitRef>,
    Ghost(all): Ghost<Seq<(HunkGroupView, RoutingView)>>,
) -> (moves: Vec<(CommitRef, Vec<HunkGroup>)>)
    requires
        buckets@.len() == commits@.len(),
        forall|k: int|
            0 <= k < commits@.len() ==> deep((#[trigger] buckets@[k])@) == going_to(
                all,
                deep(commits@),
                k,
            ),
    ensures
        move_views(moves@) == moving(all, deep(commits@), commits@.len()),
{
    let ghost known = deep(commits@);
    let ghost whole = moving(all, known, commits@.len());
    let mut pending = buckets;
    let mut moves: Vec<(CommitRef, Vec<HunkGroup>)> = Vec::new();
    assert(move_views(moves@) =~= Seq::empty());
    assert(move_views(moves@) + whole =~= whole);
    while pending.len() > 0
        invariant
            known == deep(commits@),
            pending@.len() <= commits@.len(),
            forall|k: int|
                0 <= k < pending@.len() ==> deep((#[trigger] pending@[k])@) == going_to(
                    all,
                    known,
                    k,
                ),
            move_views(moves@) + moving(all, known, pending@.len()) == whole,
        decreases pending.len(),
    {
        let ghost n = pending@.len();
        let ghost before = moves@;
        let groups = pending.pop().unwrap();
        let at: usize = pending.len();
        let ghost held = groups@;
        assert(deep(held) == going_to(all, known, n - 1));
        assert(known[at as int] == commits@[at as int].deep_view());
        if groups.len() > 0 {
            let target = commits[at].copied();
            moves.push((target, groups));
            proof {
                let one = (known[at as int], going_to(all, known, n - 1));
                let rest = moving(all, known, at as nat);
                assert(move_views(moves@) =~= move_views(before).push(one));
                assert(moving(all, known, n) == seq![one] + rest);
                assert(move_views(before).push(one) + rest =~= move_views(before) + (seq![one]
                    + rest));
            }
        } else {
            assert(moving(all, known, n) == moving(all, known, at as nat));
        }
    }
    assert(move_views(moves@) + Seq::empty() =~= move_views(moves@));
    moves
}

/// What moves where, what stays, and why.
#[derive(Debug)]
pub struct Plan {
    pub source: CommitRef,
    /// The destinations with the groups that go there, the oldest first.
    pub moves: Vec<(CommitRef, Vec<HunkGroup>)>,
    pub stays: Vec<(HunkGroup, String)>,
    /// What no hunk tells.
    pub notes: Vec<String>,
    pub insertions: InsertionPolicy,
    pub dry_run: bool,
}

#[verifier::ext_equal]
pub struct PlanView {
    pub source: CommitView,
    pub moves: Seq<(CommitView, Seq<HunkGroupView>)>,
    pub stays: Seq<(HunkGroupView, Seq<char>)>,
    pub notes: Seq<Seq<char>>,
    pub insertions: InsertionPolicy,
    pub dry_run: bool,
}

impl DeepView for Plan {
    type V = PlanView;

    open spec fn deep_view(&self) -> PlanView {
        PlanView {
            source: self.source.deep_view(),
            moves: move_views(self.moves@),
            stays: stay_views(self.stays@),
            notes: deep(self.notes@),
            insertions: self.insertions,
            dry_run: self.dry_run,
        }
    }
}

/// Everything that is to be said of what no hunk tells.
pub open spec fn all_notes(
    source: CommitView,
    ancestors: Seq<CommitView>,
    notes: Seq<Seq<char>>,
) -> Seq<Seq<char>> {
    if ancestors.len() == 0 {
        seq![source.short + " has no mutable ancestors, so nothing can move"@] + notes
    } else {
        notes
    }
}

/// The plan for some files whose histories are known.
pub open spec fn planned(
    source: CommitView,
    ancestors: Seq<CommitView>,
    files: Seq<RouteView>,
    notes: Seq<Seq<char>>,
    policy: InsertionPolicy,
    dry_run: bool,
) -> PlanView {
    let list = routings(files, ancestors, policy);
    PlanView {
        source,
        moves: moving(list, ancestors, ancestors.len()),
        stays: staying(list),
        notes: all_notes(source, ancestors, notes),
        insertions: policy,
        dry_run,
    }
}

/// Why there is nothing to plan.
pub open spec fn nothing_to_absorb(
    source: CommitView,
    notes: Seq<Seq<char>>,
    selected: bool,
) -> Seq<char> {
    let unroutable = if notes.len() == 0 {
        Seq::empty()
    } else {
        "\n  "@ + joined(notes, "\n  "@)
    };
    if selected {
        "the selection matched no hunks in "@ + source.short + ", so there is nothing to absorb."@
            + unroutable + "\nCheck it with `jj-hunk list --spec ...`."@
    } else {
        commit_label(source)
            + " changes no lines that absorb can route, so there is nothing to absorb."@
            + unroutable
    }
}

/// The parent of the revision to absorb from.
pub fn parent(source: &CommitRef, before: Option<String>) -> (r: Result<String, String>)
    ensures
        match r {
            Ok(p) => before == Some(p),
            Err(message) => before is None && message@ == commit_label(source.deep_view())
                + " has no parent, so there is no ancestor to absorb into."@,
        },
{
    match before {
        Some(p) => Ok(p),
        None => Err(
            concat2(
                source.label().as_str(),
                " has no parent, so there is no ancestor to absorb into.",
            ),
        ),
    }
}

/// The revset of what may be absorbed into.
pub fn ancestors_revset(parent: &str) -> (r: String)
    ensures
        r@ == "::"@ + parent@ + " & mutable()"@,
{
    concat3("::", parent, " & mutable()")
}

fn refuse(source: &CommitRef, notes: &Vec<String>, selected: bool) -> (r: String)
    ensures
        r@ == nothing_to_absorb(source.deep_view(), deep(notes@), selected),
{
    let mut unroutable = String::new();
    proof {
        reveal_strlit("");
        assert(unroutable@ =~= Seq::empty());
    }
    if notes.len() > 0 {
        unroutable.append("\n  ");
        unroutable.append(join(notes, "\n  ").as_str());
        assert(unroutable@ =~= "\n  "@ + joined(deep(notes@), "\n  "@));
    }
    if selected {
        let mut out = concat3(
            "the selection matched no hunks in ",
            source.short.as_str(),
            ", so there is nothing to absorb.",
        );
        out.append(unroutable.as_str());
        out.append("\nCheck it with `jj-hunk list --spec ...`.");
        out
    } else {
        concat3(
            source.label().as_str(),
            " changes no lines that absorb can route, so there is nothing to absorb.",
            unroutable.as_str(),
        )
    }
}

/// Plan what moves where.
///
/// `ancestors` are the mutable ancestors of the source, the newest first, and
/// `selected` is whether a spec chose what is considered.
pub fn build_plan(
    source: CommitRef,
    ancestors: &Vec<CommitRef>,
    considered: Considered,
    selected: bool,
    insertions: InsertionPolicy,
    dry_run: bool,
) -> (r: Result<Plan, String>)
    requires
        all_known(deep(considered.files@)),
    ensures
        ({
            let files = deep(considered.files@);
            let notes = deep(considered.notes@);
            match r {
                Ok(plan) => files.len() > 0 && plan.deep_view() == planned(
                    source.deep_view(),
                    deep(ancestors@),
                    files,
                    notes,
                    insertions,
                    dry_run,
                ),
                Err(message) => files.len() == 0 && message@ == nothing_to_absorb(
                    source.deep_view(),
                    all_notes(source.deep_view(), deep(ancestors@), notes),
                    selected,
                ),
            }
        }),
{
    broadcast use group_deep;

    let ghost known = deep(ancestors@);
    let ghost files = deep(considered.files@);
    let ghost said = deep(considered.notes@);
    let mut notes: Vec<String> = Vec::new();
    let mut theirs = considered.notes;
    let ghost held = theirs@;
    if ancestors.len() == 0 {
        let first = concat2(
            source.short.as_str(),
            " has no mutable ancestors, so nothing can move",
        );
        let ghost one = first@;
        notes.push(first);
        let ghost front = notes@;
        notes.append(&mut theirs);
        assert(notes@ =~= front + held);
        assert(deep(notes@) =~= seq![one] + said);
    } else {
        notes = theirs;
    }
    assert(deep(notes@) == all_notes(source.deep_view(), known, said));
    if considered.files.len() == 0 {
        return Err(refuse(&source, &notes, selected));
    }
    let list = route_all(&considered.files, ancestors, insertions);
    let ghost all = routing_views(list@);
    proof {
        lemma_routings_rank(files, known, insertions);
    }
    let (buckets, stays) = share_out(list, ancestors);
    let moves = destinations(buckets, ancestors, Ghost(all));
    Ok(Plan { source, moves, stays, notes, insertions, dry_run })
}

// ---------------------------------------------------------------------------
// Counting
// ---------------------------------------------------------------------------

/// How many hunks some groups hold.
pub open spec fn hunks_in(groups: Seq<HunkGroupView>) -> nat
    decreases groups.len(),
{
    if groups.len() == 0 {
        0
    } else {
        hunks_in(groups.drop_last()) + groups.last().members.len()
    }
}

/// How many hunks move.
pub open spec fn moving_count(moves: Seq<(CommitView, Seq<HunkGroupView>)>) -> nat
    decreases moves.len(),
{
    if moves.len() == 0 {
        0
    } else {
        moving_count(moves.drop_last()) + hunks_in(moves.last().1)
    }
}

/// How many hunks stay.
pub open spec fn staying_count(stays: Seq<(HunkGroupView, Seq<char>)>) -> nat
    decreases stays.len(),
{
    if stays.len() == 0 {
        0
    } else {
        staying_count(stays.drop_last()) + stays.last().0.members.len()
    }
}

fn collect<'a>(members: &'a Vec<HunkFacts>, out: &mut Vec<&'a HunkFacts>)
    ensures
        final(out)@.len() == old(out)@.len() + members@.len(),
{
    let ghost n = out@.len();
    let mut i: usize = 0;
    while i < members.len()
        invariant
            i <= members.len(),
            out@.len() == n + i,
        decreases members.len() - i,
    {
        out.push(&members[i]);
        i += 1;
    }
}

fn collect_groups<'a>(groups: &'a Vec<HunkGroup>, out: &mut Vec<&'a HunkFacts>)
    ensures
        final(out)@.len() == old(out)@.len() + hunks_in(deep(groups@)),
{
    let ghost views = deep(groups@);
    let ghost n = out@.len();
    let mut i: usize = 0;
    assert(views.take(0) =~= Seq::empty());
    while i < groups.len()
        invariant
            views == deep(groups@),
            i <= groups.len(),
            out@.len() == n + hunks_in(views.take(i as int)),
        decreases groups.len() - i,
    {
        assert(views.take(i as int + 1).drop_last() =~= views.take(i as int));
        assert(views[i as int].members.len() == groups@[i as int].members@.len());
        collect(&groups[i].members, out);
        i += 1;
    }
    assert(views.take(views.len() as int) =~= views);
}

fn count_hunks(groups: &Vec<HunkGroup>) -> (n: usize)
    ensures
        n == hunks_in(deep(groups@)),
{
    let mut all: Vec<&HunkFacts> = Vec::new();
    collect_groups(groups, &mut all);
    all.len()
}

impl Plan {
    /// How many hunks move.
    pub fn moving_hunks(&self) -> (n: usize)
        ensures
            n == moving_count(self.deep_view().moves),
    {
        let ghost views = self.deep_view().moves;
        let mut all: Vec<&HunkFacts> = Vec::new();
        let mut i: usize = 0;
        assert(views.take(0) =~= Seq::empty());
        while i < self.moves.len()
            invariant
                views == self.deep_view().moves,
                i <= self.moves.len(),
                all@.len() == moving_count(views.take(i as int)),
            decreases self.moves.len() - i,
        {
            assert(views.take(i as int + 1).drop_last() =~= views.take(i as int));
            assert(views[i as int].1 == deep(self.moves@[i as int].1@));
            collect_groups(&self.moves[i].1, &mut all);
            i += 1;
        }
        assert(views.take(views.len() as int) =~= views);
        all.len()
    }

    /// How many hunks stay.
    pub fn staying_hunks(&self) -> (n: usize)
        ensures
            n == staying_count(self.deep_view().stays),
    {
        let ghost views = self.deep_view().stays;
        let mut all: Vec<&HunkFacts> = Vec::new();
        let mut i: usize = 0;
        assert(views.take(0) =~= Seq::empty());
        while i < self.stays.len()
            invariant
                views == self.deep_view().stays,
                i <= self.stays.len(),
                all@.len() == staying_count(views.take(i as int)),
            decreases self.stays.len() - i,
        {
            assert(views.take(i as int + 1).drop_last() =~= views.take(i as int));
            assert(views[i as int].0.members.len() == self.stays@[i as int].0.members@.len());
            collect(&self.stays[i].0.members, &mut all);
            i += 1;
        }
        assert(views.take(views.len() as int) =~= views);
        all.len()
    }
}

// ---------------------------------------------------------------------------
// Rendering
// ---------------------------------------------------------------------------

/// Lines, each with its end.
pub open spec fn written(lines: Seq<Seq<char>>) -> Seq<char>
    decreases lines.len(),
{
    if lines.len() == 0 {
        Seq::empty()
    } else {
        written(lines.drop_last()) + lines.last() + "\n"@
    }
}

fn write_lines(lines: &Vec<String>) -> (out: String)
    ensures
        out@ == written(deep(lines@)),
{
    let ghost views = deep(lines@);
    let mut out = String::new();
    let mut i: usize = 0;
    proof {
        reveal_strlit("");
        assert(views.take(0) =~= Seq::empty());
        assert(out@ =~= Seq::empty());
    }
    while i < lines.len()
        invariant
            views == deep(lines@),
            i <= lines.len(),
            out@ == written(views.take(i as int)),
        decreases lines.len() - i,
    {
        assert(views.take(i as int + 1).drop_last() =~= views.take(i as int));
        out.append(lines[i].as_str());
        out.append("\n");
        i += 1;
    }
    assert(views.take(views.len() as int) =~= views);
    out
}

/// One hunk's place and size: lines are those of the parent, and an insertion is
/// at the line it goes before.
pub open spec fn location(path: Seq<char>, f: FactsView) -> Seq<char> {
    path + ":"@ + decimal(f.before_start as nat) + "  -"@ + decimal(f.removed as nat) + " +"@
        + decimal(f.added as nat) + "  "@ + f.short_id
}

/// One hunk's place and size.
pub fn hunk_location(group: &HunkGroup, facts: &HunkFacts) -> (r: String)
    ensures
        r@ == location(group.path@, facts.deep_view()),
{
    let mut out = concat3(group.path.as_str(), ":", number(facts.before_start).as_str());
    out.append("  -");
    out.append(number(facts.removed).as_str());
    out.append(" +");
    out.append(number(facts.added).as_str());
    out.append("  ");
    out.append(facts.short_id.as_str());
    out
}

/// The lines on some hunks of a group, with why they stay where they do.
pub open spec fn member_lines(
    path: Seq<char>,
    members: Seq<FactsView>,
    reason: Option<Seq<char>>,
) -> Seq<Seq<char>>
    decreases members.len(),
{
    if members.len() == 0 {
        Seq::empty()
    } else {
        let rest = member_lines(path, members.drop_last(), reason).push(
            "  "@ + location(path, members.last()),
        );
        match reason {
            Some(text) => rest.push("    "@ + text),
            None => rest,
        }
    }
}

/// The lines on some groups that move.
pub open spec fn group_lines(groups: Seq<HunkGroupView>) -> Seq<Seq<char>>
    decreases groups.len(),
{
    if groups.len() == 0 {
        Seq::empty()
    } else {
        group_lines(groups.drop_last()) + member_lines(
            groups.last().path,
            groups.last().members,
            None,
        )
    }
}

/// The lines on the destinations.
pub open spec fn move_lines(moves: Seq<(CommitView, Seq<HunkGroupView>)>) -> Seq<Seq<char>>
    decreases moves.len(),
{
    if moves.len() == 0 {
        Seq::empty()
    } else {
        move_lines(moves.drop_last()) + seq![
            ""@,
            "move into "@ + commit_label(moves.last().0),
        ] + group_lines(moves.last().1)
    }
}

/// The lines on what stays.
pub open spec fn stay_lines(stays: Seq<(HunkGroupView, Seq<char>)>) -> Seq<Seq<char>>
    decreases stays.len(),
{
    if stays.len() == 0 {
        Seq::empty()
    } else {
        stay_lines(stays.drop_last()) + member_lines(
            stays.last().0.path,
            stays.last().0.members,
            Some(stays.last().1),
        )
    }
}

/// The lines on what no hunk tells.
pub open spec fn note_lines(notes: Seq<Seq<char>>) -> Seq<Seq<char>>
    decreases notes.len(),
{
    if notes.len() == 0 {
        Seq::empty()
    } else {
        note_lines(notes.drop_last()) + seq![""@, "note: "@ + notes.last()]
    }
}

/// The line that counts.
pub open spec fn count_line(p: PlanView) -> Seq<char> {
    let moved = moving_count(p.moves);
    let stayed = staying_count(p.stays);
    "  "@ + decimal(moved + stayed) + " hunks: "@ + decimal(moved) + " moving into "@ + decimal(
        p.moves.len(),
    ) + (if p.moves.len() == 1 {
        " ancestor, "@
    } else {
        " ancestors, "@
    }) + decimal(stayed) + " staying"@
}

/// The closing lines.
pub open spec fn closing_lines(p: PlanView) -> Seq<Seq<char>> {
    seq![
        ""@,
        "line numbers are in the parent of "@ + p.source.short
            + "; an insertion is listed at the line it goes before"@,
    ] + (if p.insertions == InsertionPolicy::Surrounding {
        seq!["--insertions=surrounding: insertions are routed by the lines around them"@]
    } else {
        Seq::empty()
    }) + (if p.dry_run {
        seq!["--dry-run: nothing was changed"@]
    } else {
        Seq::empty()
    })
}

/// The lines of a plan: counts, then destinations, then what is left.
pub open spec fn plan_lines(p: PlanView) -> Seq<Seq<char>> {
    seq!["absorb from "@ + commit_label(p.source), count_line(p)] + move_lines(p.moves) + (
    if p.stays.len() > 0 {
        seq![""@, "stay in "@ + commit_label(p.source)] + stay_lines(p.stays)
    } else {
        Seq::empty()
    }) + note_lines(p.notes) + closing_lines(p)
}

fn add_line(lines: &mut Vec<String>, line: String)
    ensures
        deep(final(lines)@) == deep(old(lines)@).push(line@),
{
    broadcast use group_deep;

    lines.push(line);
}

fn add_members(group: &HunkGroup, reason: Option<&str>, lines: &mut Vec<String>)
    ensures
        deep(final(lines)@) == deep(old(lines)@) + member_lines(
            group.path@,
            group.deep_view().members,
            optional(reason),
        ),
{
    let ghost views = group.deep_view().members;
    let ghost before = deep(lines@);
    let mut i: usize = 0;
    assert(views.take(0) =~= Seq::empty());
    assert(before + member_lines(group.path@, views.take(0), optional(reason)) =~= before);
    while i < group.members.len()
        invariant
            views == group.deep_view().members,
            i <= group.members.len(),
            deep(lines@) == before + member_lines(group.path@, views.take(i as int), optional(reason)),
        decreases group.members.len() - i,
    {
        assert(views.take(i as int + 1).drop_last() =~= views.take(i as int));
        assert(views.take(i as int + 1).last() == group.members@[i as int].deep_view());
        let ghost rest = member_lines(group.path@, views.take(i as int), optional(reason));
        let ghost place = "  "@ + location(group.path@, views[i as int]);
        add_line(lines, concat2("  ", hunk_location(group, &group.members[i]).as_str()));
        assert(deep(lines@) =~= before + rest.push(place));
        if let Some(text) = reason {
            add_line(lines, concat2("    ", text));
        }
        assert(deep(lines@) =~= before + member_lines(
            group.path@,
            views.take(i as int + 1),
            optional(reason),
        ));
        i += 1;
    }
    assert(views.take(views.len() as int) =~= views);
}

fn add_groups(groups: &Vec<HunkGroup>, lines: &mut Vec<String>)
    ensures
        deep(final(lines)@) == deep(old(lines)@) + group_lines(deep(groups@)),
{
    let ghost views = deep(groups@);
    let ghost before = deep(lines@);
    let mut i: usize = 0;
    assert(views.take(0) =~= Seq::empty());
    assert(before + group_lines(views.take(0)) =~= before);
    while i < groups.len()
        invariant
            views == deep(groups@),
            i <= groups.len(),
            deep(lines@) == before + group_lines(views.take(i as int)),
        decreases groups.len() - i,
    {
        assert(views.take(i as int + 1).drop_last() =~= views.take(i as int));
        assert(views[i as int] == groups@[i as int].deep_view());
        add_members(&groups[i], None, lines);
        assert(deep(lines@) =~= before + group_lines(views.take(i as int + 1)));
        i += 1;
    }
    assert(views.take(views.len() as int) =~= views);
}

fn add_moves(moves: &Vec<(CommitRef, Vec<HunkGroup>)>, lines: &mut Vec<String>)
    ensures
        deep(final(lines)@) == deep(old(lines)@) + move_lines(move_views(moves@)),
{
    let ghost views = move_views(moves@);
    let ghost before = deep(lines@);
    let mut i: usize = 0;
    assert(views.take(0) =~= Seq::empty());
    assert(before + move_lines(views.take(0)) =~= before);
    while i < moves.len()
        invariant
            views == move_views(moves@),
            i <= moves.len(),
            deep(lines@) == before + move_lines(views.take(i as int)),
        decreases moves.len() - i,
    {
        assert(views.take(i as int + 1).drop_last() =~= views.take(i as int));
        let ghost one = views[i as int];
        assert(views.take(i as int + 1).last() == one);
        let ghost rest = move_lines(views.take(i as int));
        add_line(lines, "".to_owned());
        add_line(lines, concat2("move into ", moves[i].0.label().as_str()));
        assert(deep(lines@) =~= before + (rest + seq![""@, "move into "@ + commit_label(one.0)]));
        add_groups(&moves[i].1, lines);
        assert(deep(lines@) =~= before + move_lines(views.take(i as int + 1)));
        i += 1;
    }
    assert(views.take(views.len() as int) =~= views);
}

fn add_stays(stays: &Vec<(HunkGroup, String)>, lines: &mut Vec<String>)
    ensures
        deep(final(lines)@) == deep(old(lines)@) + stay_lines(stay_views(stays@)),
{
    let ghost views = stay_views(stays@);
    let ghost before = deep(lines@);
    let mut i: usize = 0;
    assert(views.take(0) =~= Seq::empty());
    assert(before + stay_lines(views.take(0)) =~= before);
    while i < stays.len()
        invariant
            views == stay_views(stays@),
            i <= stays.len(),
            deep(lines@) == before + stay_lines(views.take(i as int)),
        decreases stays.len() - i,
    {
        assert(views.take(i as int + 1).drop_last() =~= views.take(i as int));
        add_members(&stays[i].0, Some(stays[i].1.as_str()), lines);
        assert(deep(lines@) =~= before + stay_lines(views.take(i as int + 1)));
        i += 1;
    }
    assert(views.take(views.len() as int) =~= views);
}

fn add_notes(notes: &Vec<String>, lines: &mut Vec<String>)
    ensures
        deep(final(lines)@) == deep(old(lines)@) + note_lines(deep(notes@)),
{
    let ghost views = deep(notes@);
    let ghost before = deep(lines@);
    let mut i: usize = 0;
    assert(views.take(0) =~= Seq::empty());
    assert(before + note_lines(views.take(0)) =~= before);
    while i < notes.len()
        invariant
            views == deep(notes@),
            i <= notes.len(),
            deep(lines@) == before + note_lines(views.take(i as int)),
        decreases notes.len() - i,
    {
        assert(views.take(i as int + 1).drop_last() =~= views.take(i as int));
        let ghost rest = note_lines(views.take(i as int));
        assert(views.take(i as int + 1).last() == notes@[i as int]@);
        add_line(lines, "".to_owned());
        add_line(lines, concat2("note: ", notes[i].as_str()));
        assert(deep(lines@) =~= before + (rest + seq![""@, "note: "@ + notes@[i as int]@]));
        assert(deep(lines@) =~= before + note_lines(views.take(i as int + 1)));
        i += 1;
    }
    assert(views.take(views.len() as int) =~= views);
}

fn write_count(plan: &Plan) -> (out: String)
    ensures
        out@ == count_line(plan.deep_view()),
{
    let moved = plan.moving_hunks();
    let stayed = plan.staying_hunks();
    let both: u128 = moved as u128 + stayed as u128;
    let mut out = concat3("  ", wide_number(both).as_str(), " hunks: ");
    out.append(number(moved).as_str());
    out.append(" moving into ");
    out.append(number(plan.moves.len()).as_str());
    out.append(
        if plan.moves.len() == 1 {
            " ancestor, "
        } else {
            " ancestors, "
        },
    );
    out.append(number(stayed).as_str());
    out.append(" staying");
    out
}

fn add_closing(plan: &Plan, lines: &mut Vec<String>)
    ensures
        deep(final(lines)@) == deep(old(lines)@) + closing_lines(plan.deep_view()),
{
    broadcast use group_deep;

    let ghost before = deep(lines@);
    lines.push("".to_owned());
    lines.push(
        concat3(
            "line numbers are in the parent of ",
            plan.source.short.as_str(),
            "; an insertion is listed at the line it goes before",
        ),
    );
    if plan.insertions == InsertionPolicy::Surrounding {
        lines.push(
            "--insertions=surrounding: insertions are routed by the lines around them".to_owned(),
        );
    }
    if plan.dry_run {
        lines.push("--dry-run: nothing was changed".to_owned());
    }
    assert(deep(lines@) =~= before + closing_lines(plan.deep_view()));
}

/// Write a plan: counts, then destinations, then what is left.
pub fn render_plan(plan: &Plan) -> (out: String)
    ensures
        out@ == written(plan_lines(plan.deep_view())),
{
    broadcast use group_deep;

    let ghost p = plan.deep_view();
    let mut lines: Vec<String> = Vec::new();
    lines.push(concat2("absorb from ", plan.source.label().as_str()));
    lines.push(write_count(plan));
    let ghost head = seq!["absorb from "@ + commit_label(p.source), count_line(p)];
    assert(deep(lines@) =~= head);
    add_moves(&plan.moves, &mut lines);
    let ghost upto = head + move_lines(p.moves);
    if plan.stays.len() > 0 {
        lines.push("".to_owned());
        lines.push(concat2("stay in ", plan.source.label().as_str()));
        add_stays(&plan.stays, &mut lines);
        assert(deep(lines@) =~= upto + (seq![""@, "stay in "@ + commit_label(p.source)]
            + stay_lines(p.stays)));
    } else {
        assert(deep(lines@) =~= upto + Seq::empty());
    }
    add_notes(&plan.notes, &mut lines);
    add_closing(plan, &mut lines);
    assert(deep(lines@) == plan_lines(p));
    write_lines(&lines)
}

// ---------------------------------------------------------------------------
// What jj is asked, and what it answers
// ---------------------------------------------------------------------------

pub const ANNOTATE_TEMPLATE: &'static str = "commit.commit_id() ++ \"\\n\"";

pub const CONFLICT_TEMPLATE: &'static str = "if(conflict, change_id.short(8) ++ \"\\n\", \"\")";

/// Ask which commit last touched each line of a file.
pub fn annotate_args(rev: &str, path: &str) -> (args: Vec<String>)
    ensures
        deep(args@) == seq![
            "file"@,
            "annotate"@,
            "-r"@,
            rev@,
            "-T"@,
            ANNOTATE_TEMPLATE@,
            "--"@,
            path@,
        ],
{
    let mut args: Vec<String> = Vec::new();
    args.push("file".to_owned());
    args.push("annotate".to_owned());
    args.push("-r".to_owned());
    args.push(rev.to_owned());
    args.push("-T".to_owned());
    args.push(ANNOTATE_TEMPLATE.to_owned());
    args.push("--".to_owned());
    args.push(path.to_owned());
    assert(deep(args@) =~= seq![
        "file"@,
        "annotate"@,
        "-r"@,
        rev@,
        "-T"@,
        ANNOTATE_TEMPLATE@,
        "--"@,
        path@,
    ]);
    args
}

/// What annotating a file told: its lines' commits, or that it has none.
///
/// A file that jj refuses to annotate keeps its hunks; the others still move.
pub fn history_of(path: &str, succeeded: bool, stdout: &str, stderr: &str) -> (r: History)
    ensures
        r.deep_view() == (if succeeded {
            HistoryView::Lines(plain_lines(stdout@))
        } else {
            HistoryView::Absent(
                path@ + " could not be annotated, so its lines have no traceable history ("@
                    + trimmed(stderr@) + ")"@,
            )
        }),
{
    if succeeded {
        return History::Lines(lines_of(stdout));
    }
    let mut out = concat3(
        path,
        " could not be annotated, so its lines have no traceable history (",
        trim(stderr).as_str(),
    );
    out.append(")");
    History::Absent(out)
}

/// The revset of what moving into a commit rewrote.
pub fn rewritten_revset(target: &CommitRef) -> (r: String)
    ensures
        r@ == target.change_id@ + "::"@,
{
    concat2(target.change_id.as_str(), "::")
}

/// The commits that jj lists as conflicted.
pub fn conflicted(stdout: &str) -> (r: Vec<String>)
    ensures
        deep(r@) == trimmed_patterns(plain_lines(stdout@)),
{
    normalize_patterns(&lines_of(stdout))
}

/// Move the selected hunks of one commit into another.
pub fn squash_args(source: &CommitRef, target: &CommitRef) -> (args: Vec<String>)
    ensures
        deep(args@) == seq![
            "squash"@,
            "-i"@,
            "--tool=jj-hunk"@,
            "--keep-emptied"@,
            "--from"@,
            source.change_id@,
            "--into"@,
            target.change_id@,
        ],
{
    let mut args: Vec<String> = Vec::new();
    args.push("squash".to_owned());
    args.push("-i".to_owned());
    args.push("--tool=jj-hunk".to_owned());
    // A source that is emptied is kept: were it abandoned, the steps that follow
    // could not name it.
    args.push("--keep-emptied".to_owned());
    args.push("--from".to_owned());
    args.push(source.change_id.clone());
    args.push("--into".to_owned());
    args.push(target.change_id.clone());
    assert(deep(args@) =~= seq![
        "squash"@,
        "-i"@,
        "--tool=jj-hunk"@,
        "--keep-emptied"@,
        "--from"@,
        source.change_id@,
        "--into"@,
        target.change_id@,
    ]);
    args
}

// ---------------------------------------------------------------------------
// Finding the planned hunks again
// ---------------------------------------------------------------------------

/// The first file with a path.
pub open spec fn first_at(files: Seq<FileView>, path: Seq<char>) -> Option<FileView>
    decreases files.len(),
{
    if files.len() == 0 {
        None
    } else {
        match first_at(files.drop_last(), path) {
            Some(f) => Some(f),
            None => if files.last().path == path {
                Some(files.last())
            } else {
                None
            },
        }
    }
}

/// The ids of the hunks with a fingerprint.
pub open spec fn ids_with(path: Seq<char>, hunks: Seq<HunkView>, print: Seq<char>) -> Seq<Seq<char>>
    decreases hunks.len(),
{
    if hunks.len() == 0 {
        Seq::empty()
    } else {
        let rest = ids_with(path, hunks.drop_last(), print);
        if fingerprint_of(path, hunks.last()) == print {
            rest.push(hunks.last().id)
        } else {
            rest
        }
    }
}

/// Why a group cannot be found again, if it cannot.
pub open spec fn lost(g: HunkGroupView, files: Seq<FileView>, source: CommitView) -> Option<
    Seq<char>,
> {
    match first_at(files, g.path) {
        None => Some(
            g.path + " is no longer part of "@ + source.short
                + ", so the planned hunks cannot be found"@,
        ),
        Some(f) => {
            let found = ids_with(g.path, f.hunks, g.fingerprint);
            if found.len() != g.members.len() {
                Some(
                    g.path + ": expected "@ + decimal(g.members.len())
                        + " hunk(s) matching the planned change but found "@ + decimal(found.len())
                        + ". The revision changed under absorb; re-run it."@,
                )
            } else {
                None
            }
        },
    }
}

/// Why some groups cannot be found again: the first that cannot.
pub open spec fn first_lost(
    groups: Seq<HunkGroupView>,
    files: Seq<FileView>,
    source: CommitView,
) -> Option<Seq<char>>
    decreases groups.len(),
{
    if groups.len() == 0 {
        None
    } else {
        match first_lost(groups.drop_last(), files, source) {
            Some(reason) => Some(reason),
            None => lost(groups.last(), files, source),
        }
    }
}

/// The current ids of the hunks of some groups, by path.
pub open spec fn found_ids(groups: Seq<HunkGroupView>, files: Seq<FileView>) -> Map<
    Seq<char>,
    Seq<Seq<char>>,
>
    decreases groups.len(),
{
    if groups.len() == 0 {
        Map::empty()
    } else {
        let rest = found_ids(groups.drop_last(), files);
        let g = groups.last();
        let found = ids_with(g.path, first_at(files, g.path)->0.hunks, g.fingerprint);
        let before = if rest.dom().contains(g.path) {
            rest[g.path]
        } else {
            Seq::empty()
        };
        rest.insert(g.path, before + found)
    }
}

/// What is kept of a file where only some ids of it are.
pub open spec fn only_ids(ids: Seq<Seq<char>>) -> FileSpecView {
    FileSpecView::Selection(HunkSpecView { hunks: Seq::empty(), ids, from: None })
}

fn find_first<'a>(files: &'a Vec<FileHunks>, path: &str) -> (r: Option<&'a FileHunks>)
    ensures
        match r {
            Some(f) => first_at(deep(files@), path@) == Some(f.deep_view()) && f.path@ == path@,
            None => first_at(deep(files@), path@) is None,
        },
{
    let ghost views = deep(files@);
    let mut i: usize = 0;
    assert(views.take(0) =~= Seq::empty());
    while i < files.len()
        invariant
            views == deep(files@),
            i <= files.len(),
            first_at(views.take(i as int), path@) is None,
        decreases files.len() - i,
    {
        assert(views.take(i as int + 1).drop_last() =~= views.take(i as int));
        assert(views.take(i as int + 1).last() == files@[i as int].deep_view());
        if same(files[i].path.as_str(), path) {
            proof {
                lemma_first_at(views, path@, i as int + 1);
            }
            return Some(&files[i]);
        }
        i += 1;
    }
    assert(views.take(views.len() as int) =~= views);
    None
}

proof fn lemma_first_at(files: Seq<FileView>, path: Seq<char>, n: int)
    requires
        0 <= n <= files.len(),
        first_at(files.take(n), path) is Some,
    ensures
        first_at(files, path) == first_at(files.take(n), path),
    decreases files.len(),
{
    if n < files.len() {
        assert(files.drop_last().take(n) =~= files.take(n));
        lemma_first_at(files.drop_last(), path, n);
    } else {
        assert(files.take(n) =~= files);
    }
}

fn find_ids(path: &str, hunks: &Vec<Hunk>, print: &str) -> (ids: Vec<String>)
    ensures
        deep(ids@) == ids_with(path@, deep(hunks@), print@),
{
    broadcast use group_deep;

    let ghost views = deep(hunks@);
    let mut ids: Vec<String> = Vec::new();
    let mut i: usize = 0;
    assert(views.take(0) =~= Seq::empty());
    while i < hunks.len()
        invariant
            views == deep(hunks@),
            i <= hunks.len(),
            deep(ids@) == ids_with(path@, views.take(i as int), print@),
        decreases hunks.len() - i,
    {
        assert(views.take(i as int + 1).drop_last() =~= views.take(i as int));
        assert(views.take(i as int + 1).last() == hunks@[i as int].deep_view());
        if same(fingerprint(path, &hunks[i]).as_str(), print) {
            ids.push(hunks[i].id.clone());
        }
        i += 1;
    }
    assert(views.take(views.len() as int) =~= views);
    ids
}

fn find_again(group: &HunkGroup, files: &Vec<FileHunks>, source: &CommitRef) -> (r: Result<
    Vec<String>,
    String,
>)
    ensures
        ({
            let g = group.deep_view();
            let all = deep(files@);
            match r {
                Ok(ids) => lost(g, all, source.deep_view()) is None && deep(ids@) == ids_with(
                    g.path,
                    first_at(all, g.path)->0.hunks,
                    g.fingerprint,
                ),
                Err(reason) => lost(g, all, source.deep_view()) == Some(reason@),
            }
        }),
{
    let path = group.path.as_str();
    let file = match find_first(files, path) {
        Some(file) => file,
        None => {
            let mut out = concat3(path, " is no longer part of ", source.short.as_str());
            out.append(", so the planned hunks cannot be found");
            return Err(out);
        },
    };
    let found = find_ids(path, &file.hunks, group.fingerprint.as_str());
    if found.len() != group.members.len() {
        let mut out = concat3(path, ": expected ", number(group.members.len()).as_str());
        out.append(" hunk(s) matching the planned change but found ");
        out.append(number(found.len()).as_str());
        out.append(". The revision changed under absorb; re-run it.");
        return Err(out);
    }
    Ok(found)
}

proof fn lemma_first_lost(
    groups: Seq<HunkGroupView>,
    files: Seq<FileView>,
    source: CommitView,
    n: int,
)
    requires
        0 <= n <= groups.len(),
        first_lost(groups.take(n), files, source) is Some,
    ensures
        first_lost(groups, files, source) == first_lost(groups.take(n), files, source),
    decreases groups.len(),
{
    if n < groups.len() {
        assert(groups.drop_last().take(n) =~= groups.take(n));
        lemma_first_lost(groups.drop_last(), files, source, n);
    } else {
        assert(groups.take(n) =~= groups);
    }
}

/// What selects the planned hunks in the current diff of the source.
///
/// The hunks are found again by fingerprint. Where their number is not the
/// planned one, something else changed, and nothing is selected.
pub fn squash_spec(groups: &Vec<HunkGroup>, files: &Vec<FileHunks>, source: &CommitRef) -> (r:
    Result<Spec, String>)
    ensures
        ({
            let gs = deep(groups@);
            let all = deep(files@);
            match r {
                Ok(spec) => {
                    &&& first_lost(gs, all, source.deep_view()) is None
                    &&& spec.files.well_formed()
                    &&& spec.default == DefaultAction::Reset
                    &&& deep_map(spec.files).dom() == found_ids(gs, all).dom()
                    &&& forall|path: Seq<char>| #[trigger]
                        deep_map(spec.files).dom().contains(path) ==> deep_map(spec.files)[path]
                            == only_ids(found_ids(gs, all)[path])
                },
                Err(reason) => first_lost(gs, all, source.deep_view()) == Some(reason@),
            }
        }),
{
    broadcast use group_deep;

    let ghost gs = deep(groups@);
    let ghost all = deep(files@);
    let ghost from = source.deep_view();
    let mut entries: NameMap<FileSpec> = NameMap::new();
    let mut i: usize = 0;
    proof {
        assert(gs.take(0) =~= Seq::empty());
        assert forall|k: Seq<char>| !entries.has(k) by {
            assert(entries@.dom().contains(k) == entries.has(k));
        }
        assert(deep_map(entries).dom() =~= Set::empty());
    }
    while i < groups.len()
        invariant
            gs == deep(groups@),
            all == deep(files@),
            from == source.deep_view(),
            i <= groups.len(),
            entries.well_formed(),
            first_lost(gs.take(i as int), all, from) is None,
            deep_map(entries).dom() == found_ids(gs.take(i as int), all).dom(),
            forall|path: Seq<char>| #[trigger]
                deep_map(entries).dom().contains(path) ==> deep_map(entries)[path] == only_ids(
                    found_ids(gs.take(i as int), all)[path],
                ),
        decreases groups.len() - i,
    {
        let group = &groups[i];
        let ghost g = gs[i as int];
        let ghost rest = found_ids(gs.take(i as int), all);
        proof {
            assert(gs.take(i as int + 1).drop_last() =~= gs.take(i as int));
            assert(gs.take(i as int + 1).last() == g);
            assert(g == group.deep_view());
        }
        let mut found = match find_again(group, files, source) {
            Ok(found) => found,
            Err(reason) => {
                proof {
                    lemma_first_lost(gs, all, from, i as int + 1);
                }
                return Err(reason);
            },
        };
        let ghost new_ids = deep(found@);
        let ghost before = entries;
        let ghost m = deep_map(before);
        let mut ids: Vec<String> = Vec::new();
        proof {
            assert(m.dom().contains(g.path) == before.has(g.path));
            assert(before@.dom().contains(g.path) == before.has(g.path));
        }
        let earlier = entries.remove(group.path.as_str());
        let ghost between = entries;
        proof {
            if !before.has(g.path) {
                assert(before@.remove(g.path) =~= before@);
            }
            lemma_deep_map_remove(before, between, g.path);
        }
        match earlier {
            Some(FileSpec::Selection(selection)) => {
                assert(FileSpec::Selection(selection).deep_view() == m[g.path]);
                ids = selection.ids;
                assert(deep(ids@) == rest[g.path]);
            },
            _ => {},
        }
        let ghost old_ids = if rest.dom().contains(g.path) {
            rest[g.path]
        } else {
            Seq::empty()
        };
        assert(deep(ids@) == old_ids);
        let ghost kept = ids@;
        let ghost more = found@;
        ids.append(&mut found);
        assert(ids@ =~= kept + more);
        assert(deep(ids@) =~= old_ids + new_ids);
        let hunks: Vec<HunkSelector> = Vec::new();
        assert(deep(hunks@) =~= Seq::empty());
        let entry = FileSpec::Selection(HunkSpec { hunks, ids, from: None });
        assert(entry.deep_view() == only_ids(old_ids + new_ids));
        let ghost held = entry;
        entries.insert(group.path.clone(), entry);
        proof {
            lemma_deep_map_insert(between, entries, g.path, held);
            let now = found_ids(gs.take(i as int + 1), all);
            assert(now == rest.insert(g.path, old_ids + new_ids));
            assert(deep_map(entries).dom() =~= now.dom());
            assert forall|path: Seq<char>| #[trigger]
                deep_map(entries).dom().contains(path) implies deep_map(entries)[path] == only_ids(
                now[path],
            ) by {
                if path != g.path {
                    assert(m.dom().contains(path));
                }
            }
        }
        i += 1;
    }
    assert(gs.take(gs.len() as int) =~= gs);
    Ok(Spec { files: entries, default: DefaultAction::Reset })
}

// ---------------------------------------------------------------------------
// Carrying a plan out
// ---------------------------------------------------------------------------

/// How to take everything back.
pub open spec fn undo_line(undo_point: Seq<char>) -> Seq<char> {
    "Undo all of it with: jj op restore "@ + undo_point
}

/// The lines on what moved, where a run stopped part way.
pub open spec fn moved_lines(moved: Seq<CommitView>) -> Seq<Seq<char>> {
    if moved.len() == 0 {
        seq!["  moved:     nothing"@]
    } else {
        Seq::new(
            moved.len(),
            |i: int|
                (if i == 0 {
                    "  moved:     "@
                } else {
                    "             "@
                }) + commit_label(moved[i]),
        )
    }
}

/// The lines on what did not move, where a run stopped part way.
pub open spec fn unmoved_lines(
    moves: Seq<(CommitView, Seq<HunkGroupView>)>,
    failed_at: nat,
) -> Seq<Seq<char>> {
    let left = if failed_at < moves.len() {
        moves.skip(failed_at as int)
    } else {
        Seq::empty()
    };
    Seq::new(
        left.len(),
        |i: int|
            (if i == 0 {
                "  not moved: "@
            } else {
                "             "@
            }) + commit_label(left[i].0) + " ("@ + decimal(hunks_in(left[i].1)) + " hunks)"@,
    )
}

/// The lines on a run that stopped part way.
pub open spec fn interrupted_lines(
    p: PlanView,
    moved: Seq<CommitView>,
    failed_at: nat,
    undo_point: Seq<char>,
) -> Seq<Seq<char>> {
    seq!["absorb stopped part way, and history is half-moved."@] + moved_lines(moved)
        + unmoved_lines(p.moves, failed_at) + seq![
        "Everything not listed as moved is still in "@ + p.source.short + "."@,
        undo_line(undo_point),
    ]
}

/// The commits that some references are to.
pub open spec fn refs(commits: Seq<&CommitRef>) -> Seq<CommitView> {
    Seq::new(commits.len(), |i: int| commits[i].deep_view())
}

fn list_moved(moved: &Vec<&CommitRef>) -> (out: Vec<String>)
    ensures
        deep(out@) == moved_lines(refs(moved@)),
{
    broadcast use group_deep;

    let ghost all = refs(moved@);
    let mut out: Vec<String> = Vec::new();
    if moved.len() == 0 {
        out.push("  moved:     nothing".to_owned());
        assert(deep(out@) =~= moved_lines(all));
        return out;
    }
    let mut i: usize = 0;
    while i < moved.len()
        invariant
            all == refs(moved@),
            0 < moved@.len(),
            i <= moved.len(),
            deep(out@) =~= moved_lines(all).take(i as int),
        decreases moved.len() - i,
    {
        let field = if i == 0 {
            "  moved:     "
        } else {
            "             "
        };
        let line = concat2(field, moved[i].label().as_str());
        assert(line@ == moved_lines(all)[i as int]);
        assert(moved_lines(all).take(i as int + 1) =~= moved_lines(all).take(i as int).push(line@));
        add_line(&mut out, line);
        i += 1;
    }
    assert(moved_lines(all).take(all.len() as int) =~= moved_lines(all));
    out
}

fn list_unmoved(moves: &Vec<(CommitRef, Vec<HunkGroup>)>, failed_at: usize) -> (out: Vec<String>)
    ensures
        deep(out@) == unmoved_lines(move_views(moves@), failed_at as nat),
{
    broadcast use group_deep;

    let ghost views = move_views(moves@);
    let ghost all = unmoved_lines(views, failed_at as nat);
    let mut out: Vec<String> = Vec::new();
    if failed_at >= moves.len() {
        assert(deep(out@) =~= all);
        return out;
    }
    let mut i: usize = failed_at;
    assert(all.take(0) =~= Seq::empty());
    while i < moves.len()
        invariant
            views == move_views(moves@),
            all == unmoved_lines(views, failed_at as nat),
            failed_at < moves@.len(),
            failed_at <= i <= moves.len(),
            deep(out@) =~= all.take(i - failed_at),
        decreases moves.len() - i,
    {
        let field = if i == failed_at {
            "  not moved: "
        } else {
            "             "
        };
        let ghost at = i - failed_at;
        assert(views.skip(failed_at as int)[at] == views[i as int]);
        let mut line = concat3(field, moves[i].0.label().as_str(), " (");
        line.append(number(count_hunks(&moves[i].1)).as_str());
        line.append(" hunks)");
        assert(line@ == all[at]);
        assert(all.take(at + 1) =~= all.take(at).push(line@));
        add_line(&mut out, line);
        i += 1;
    }
    assert(all.take(all.len() as int) =~= all);
    out
}

/// What moved and what did not, where a run stopped part way.
pub fn interrupted_report(
    plan: &Plan,
    moved: &Vec<&CommitRef>,
    failed_at: usize,
    undo_point: &str,
) -> (report: String)
    ensures
        report@ == written(
            interrupted_lines(plan.deep_view(), refs(moved@), failed_at as nat, undo_point@),
        ),
{
    broadcast use group_deep;

    let ghost p = plan.deep_view();
    let mut lines: Vec<String> = Vec::new();
    lines.push("absorb stopped part way, and history is half-moved.".to_owned());
    let ghost head = lines@;
    assert(deep(head) =~= seq!["absorb stopped part way, and history is half-moved."@]);
    let mut first = list_moved(moved);
    let ghost first_held = first@;
    lines.append(&mut first);
    assert(deep(lines@) =~= deep(head) + moved_lines(refs(moved@)));
    let ghost upto = lines@;
    let mut second = list_unmoved(&plan.moves, failed_at);
    let ghost second_held = second@;
    lines.append(&mut second);
    assert(deep(lines@) =~= deep(upto) + unmoved_lines(p.moves, failed_at as nat));
    let ghost near = lines@;
    lines.push(
        concat3("Everything not listed as moved is still in ", plan.source.short.as_str(), "."),
    );
    lines.push(concat2("Undo all of it with: jj op restore ", undo_point));
    assert(deep(lines@) =~= interrupted_lines(p, refs(moved@), failed_at as nat, undo_point@));
    write_lines(&lines)
}

/// The lines on a run that went through.
pub open spec fn absorbed_lines(p: PlanView, undo_point: Seq<char>) -> Seq<Seq<char>> {
    seq![
        ""@,
        "Absorbed "@ + decimal(moving_count(p.moves)) + " hunks into "@ + decimal(p.moves.len())
            + " revisions:"@,
    ] + Seq::new(p.moves.len(), |i: int| "  "@ + commit_label(p.moves[i].0)) + (if staying_count(
        p.stays,
    ) > 0 {
        seq![decimal(staying_count(p.stays)) + " hunks stayed in "@ + p.source.short + "."@]
    } else {
        Seq::empty()
    }) + seq![undo_line(undo_point)]
}

fn absorbed_report(plan: &Plan, undo_point: &str) -> (report: String)
    ensures
        report@ == written(absorbed_lines(plan.deep_view(), undo_point@)),
{
    broadcast use group_deep;

    let ghost p = plan.deep_view();
    let mut lines: Vec<String> = Vec::new();
    lines.push("".to_owned());
    let mut head = concat3(
        "Absorbed ",
        number(plan.moving_hunks()).as_str(),
        " hunks into ",
    );
    head.append(number(plan.moves.len()).as_str());
    head.append(" revisions:");
    let ghost head_text = head@;
    lines.push(head);
    let ghost front = seq![""@, head_text];
    assert(deep(lines@) =~= front);
    let ghost names = Seq::new(p.moves.len(), |i: int| "  "@ + commit_label(p.moves[i].0));
    let mut i: usize = 0;
    assert(front + names.take(0) =~= front);
    while i < plan.moves.len()
        invariant
            p == plan.deep_view(),
            names == Seq::new(p.moves.len(), |i: int| "  "@ + commit_label(p.moves[i].0)),
            i <= plan.moves.len(),
            deep(lines@) == front + names.take(i as int),
        decreases plan.moves.len() - i,
    {
        let line = concat2("  ", plan.moves[i].0.label().as_str());
        assert(line@ == names[i as int]);
        assert(front + names.take(i as int + 1) =~= (front + names.take(i as int)).push(line@));
        add_line(&mut lines, line);
        i += 1;
    }
    assert(names.take(names.len() as int) =~= names);
    let stayed = plan.staying_hunks();
    if stayed > 0 {
        let mut line = concat3(
            number(stayed).as_str(),
            " hunks stayed in ",
            plan.source.short.as_str(),
        );
        line.append(".");
        lines.push(line);
    }
    lines.push(concat2("Undo all of it with: jj op restore ", undo_point));
    assert(deep(lines@) =~= absorbed_lines(p, undo_point@));
    write_lines(&lines)
}

/// Why a run stops where moving left conflicts.
pub open spec fn conflict_text(target: CommitView, conflicts: Seq<Seq<char>>) -> Seq<char> {
    "moving into "@ + target.short + " left "@ + (if conflicts.len() == 1 {
        "a commit"@
    } else {
        "commits"@
    }) + " conflicted ("@ + joined(conflicts, ", "@)
        + "), and absorb will not squash further hunks into a conflicted history"@
}

fn conflict_message(target: &CommitRef, conflicts: &Vec<String>) -> (r: String)
    ensures
        r@ == conflict_text(target.deep_view(), deep(conflicts@)),
{
    let mut out = concat3("moving into ", target.short.as_str(), " left ");
    out.append(
        if conflicts.len() == 1 {
            "a commit"
        } else {
            "commits"
        },
    );
    out.append(" conflicted (");
    out.append(join(conflicts, ", ").as_str());
    out.append("), and absorb will not squash further hunks into a conflicted history");
    out
}

/// How far a run has come.
#[derive(Debug)]
pub struct Run {
    /// How many destinations are done.
    pub moved: usize,
    /// The operation to go back to.
    pub undo_point: String,
}

/// What came of the last step of a run.
#[derive(Debug)]
pub enum Event {
    /// The operation that the run starts from.
    Started(String),
    Squashed,
    /// The commits that the last squash left conflicted.
    Conflicts(Vec<String>),
    /// The last step failed, and why.
    Failed(String),
}

/// The next step of a run.
#[derive(Debug)]
pub enum NextStep {
    /// Squash what goes to this destination.
    Squash(usize),
    /// List the conflicts that squashing into this destination left.
    ListConflicts(usize),
    /// Everything moved.
    Done(String),
    /// The run ends here: what moved and what did not, and why.
    Stopped { report: String, cause: String },
}

/// What is said where nothing moves; nothing where something does.
pub fn nothing_moves(plan: &Plan) -> (r: Option<String>)
    ensures
        match r {
            Some(text) => plan.moves@.len() == 0 && text@
                == "Nothing to absorb: every hunk stays in "@ + plan.source.short@ + "."@,
            None => plan.moves@.len() > 0,
        },
{
    if plan.moves.len() > 0 {
        return None;
    }
    Some(concat3("Nothing to absorb: every hunk stays in ", plan.source.short.as_str(), "."))
}

/// The first `n` destinations.
pub open spec fn first_targets(p: PlanView, n: nat) -> Seq<CommitView> {
    Seq::new(n, |i: int| p.moves[i].0)
}

/// What is reported where a run stops before destination `n` is done.
pub open spec fn stop_report(p: PlanView, n: nat, undo_point: Seq<char>) -> Seq<char> {
    written(interrupted_lines(p, first_targets(p, n), n, undo_point))
}

fn stop(plan: &Plan, run: &Run, cause: String) -> (r: NextStep)
    requires
        run.moved < plan.moves@.len(),
    ensures
        match r {
            NextStep::Stopped { report, cause: why } => why == cause && report@ == stop_report(
                plan.deep_view(),
                run.moved as nat,
                run.undo_point@,
            ),
            _ => false,
        },
{
    let ghost p = plan.deep_view();
    let mut moved: Vec<&CommitRef> = Vec::new();
    let mut i: usize = 0;
    while i < run.moved
        invariant
            p == plan.deep_view(),
            run.moved < plan.moves@.len(),
            i <= run.moved,
            moved@.len() == i,
            forall|j: int| 0 <= j < i ==> (#[trigger] moved@[j]).deep_view() == p.moves[j].0,
        decreases run.moved - i,
    {
        moved.push(&plan.moves[i].0);
        i += 1;
    }
    assert(refs(moved@) =~= first_targets(p, run.moved as nat));
    let report = interrupted_report(plan, &moved, run.moved, run.undo_point.as_str());
    NextStep::Stopped { report, cause }
}

/// Whether a run of a plan is under way.
pub open spec fn under_way(p: PlanView, run: Run, event: Event) -> bool {
    match event {
        Event::Started(_) => p.moves.len() > 0,
        _ => run.moved < p.moves.len(),
    }
}

/// Take one step of a run: squash into one destination after the other, and stop
/// at the first that fails or leaves a conflict.
pub fn advance(plan: &Plan, run: &mut Run, event: Event) -> (step: NextStep)
    requires
        under_way(plan.deep_view(), *old(run), event),
    ensures
        ({
            let p = plan.deep_view();
            match event {
                Event::Started(operation) => {
                    &&& final(run).moved == 0
                    &&& final(run).undo_point@ == operation@
                    &&& step == NextStep::Squash(0)
                },
                Event::Squashed => {
                    &&& *final(run) == *old(run)
                    &&& step == NextStep::ListConflicts(old(run).moved)
                },
                Event::Conflicts(commits) => if commits@.len() > 0 {
                    &&& *final(run) == *old(run)
                    &&& step matches NextStep::Stopped { report, cause } && report@ == stop_report(
                        p,
                        old(run).moved as nat,
                        old(run).undo_point@,
                    ) && cause@ == conflict_text(p.moves[old(run).moved as int].0, deep(commits@))
                } else {
                    &&& final(run).moved == old(run).moved + 1
                    &&& final(run).undo_point == old(run).undo_point
                    &&& if old(run).moved + 1 < p.moves.len() {
                        step == NextStep::Squash((old(run).moved + 1) as usize)
                    } else {
                        step matches NextStep::Done(report) && report@ == written(
                            absorbed_lines(p, old(run).undo_point@),
                        )
                    }
                },
                Event::Failed(why) => {
                    &&& *final(run) == *old(run)
                    &&& step matches NextStep::Stopped { report, cause } && report@ == stop_report(
                        p,
                        old(run).moved as nat,
                        old(run).undo_point@,
                    ) && cause@ == why@
                },
            }
        }),
{
    match event {
        Event::Started(operation) => {
            run.moved = 0;
            run.undo_point = operation;
            NextStep::Squash(0)
        },
        Event::Squashed => NextStep::ListConflicts(run.moved),
        Event::Conflicts(commits) => {
            if commits.len() > 0 {
                let cause = conflict_message(&plan.moves[run.moved].0, &commits);
                return stop(plan, run, cause);
            }
            let total: usize = plan.moves.len();
            run.moved = run.moved + 1;
            if run.moved < total {
                NextStep::Squash(run.moved)
            } else {
                NextStep::Done(absorbed_report(plan, run.undo_point.as_str()))
            }
        },
        Event::Failed(why) => stop(plan, run, why),
    }
}

// ---------------------------------------------------------------------------
// What holds of every plan
// ---------------------------------------------------------------------------

/// The hunks with a fingerprint, in order.
pub open spec fn members_with(path: Seq<char>, hunks: Seq<HunkView>, print: Seq<char>) -> Seq<
    FactsView,
>
    decreases hunks.len(),
{
    if hunks.len() == 0 {
        Seq::empty()
    } else {
        let rest = members_with(path, hunks.drop_last(), print);
        if fingerprint_of(path, hunks.last()) == print {
            rest.push(facts_of(hunks.last()))
        } else {
            rest
        }
    }
}

/// Whether some groups are told apart by their fingerprints, and each holds what
/// has its fingerprint.
pub open spec fn are_groups_of(
    groups: Seq<HunkGroupView>,
    path: Seq<char>,
    hunks: Seq<HunkView>,
) -> bool {
    &&& forall|i: int|
        0 <= i < groups.len() ==> {
            &&& (#[trigger] groups[i]).path == path
            &&& groups[i].members == members_with(path, hunks, groups[i].fingerprint)
            &&& groups[i].members.len() > 0
        }
    &&& forall|i: int, j: int|
        0 <= i < j < groups.len() ==> (#[trigger] groups[i]).fingerprint != (
        #[trigger] groups[j]).fingerprint
    &&& hunks_in(groups) == hunks.len()
}

proof fn lemma_group_with_bounds(groups: Seq<HunkGroupView>, print: Seq<char>)
    ensures
        ({
            let n = group_with(groups, print);
            &&& 0 <= n <= groups.len()
            &&& n < groups.len() ==> groups[n].fingerprint == print
            &&& forall|i: int| 0 <= i < n ==> (#[trigger] groups[i]).fingerprint != print
        }),
    decreases groups.len(),
{
    if groups.len() > 0 {
        let front = groups.drop_last();
        lemma_group_with_bounds(front, print);
        let n = group_with(groups, print);
        assert forall|i: int| 0 <= i < n implies (#[trigger] groups[i]).fingerprint != print by {
            if i < front.len() {
                assert(front[i] == groups[i]);
            }
        }
        if group_with(front, print) < front.len() {
            assert(front[n] == groups[n]);
        }
    }
}

proof fn lemma_no_members(path: Seq<char>, hunks: Seq<HunkView>, print: Seq<char>)
    requires
        forall|k: int| 0 <= k < hunks.len() ==> fingerprint_of(path, #[trigger] hunks[k]) != print,
    ensures
        members_with(path, hunks, print).len() == 0,
    decreases hunks.len(),
{
    if hunks.len() > 0 {
        let front = hunks.drop_last();
        assert forall|k: int| 0 <= k < front.len() implies fingerprint_of(path, #[trigger] front[k])
            != print by {
            assert(front[k] == hunks[k]);
        }
        assert(hunks[hunks.len() - 1] == hunks.last());
        lemma_no_members(path, front, print);
    }
}

proof fn lemma_hunks_in_update(groups: Seq<HunkGroupView>, at: int, g: HunkGroupView)
    requires
        0 <= at < groups.len(),
    ensures
        hunks_in(groups.update(at, g)) == hunks_in(groups) - groups[at].members.len()
            + g.members.len(),
    decreases groups.len(),
{
    let after = groups.update(at, g);
    if at == groups.len() - 1 {
        assert(after.drop_last() =~= groups.drop_last());
    } else {
        assert(after.drop_last() =~= groups.drop_last().update(at, g));
        lemma_hunks_in_update(groups.drop_last(), at, g);
    }
}

/// Every print that some hunk has is some group's.
pub open spec fn covers(groups: Seq<HunkGroupView>, path: Seq<char>, hunks: Seq<HunkView>) -> bool {
    forall|k: int|
        0 <= k < hunks.len() ==> group_with(groups, fingerprint_of(path, #[trigger] hunks[k]))
            < groups.len()
}

proof fn lemma_same_prints(a: Seq<HunkGroupView>, b: Seq<HunkGroupView>, print: Seq<char>)
    requires
        a.len() <= b.len(),
        forall|i: int| 0 <= i < a.len() ==> (#[trigger] a[i]).fingerprint == b[i].fingerprint,
        group_with(a, print) < a.len(),
    ensures
        group_with(b, print) == group_with(a, print),
{
    lemma_group_with_bounds(a, print);
    let n = group_with(a, print);
    assert forall|i: int| 0 <= i < n implies (#[trigger] b[i]).fingerprint != print by {
        assert(a[i].fingerprint == b[i].fingerprint);
    }
    assert(a[n].fingerprint == b[n].fingerprint);
    lemma_group_with(b, print, n);
}

proof fn lemma_groups(path: Seq<char>, hunks: Seq<HunkView>)
    ensures
        are_groups_of(groups_of(path, hunks), path, hunks),
        covers(groups_of(path, hunks), path, hunks),
    decreases hunks.len(),
{
    if hunks.len() > 0 {
        let front = hunks.drop_last();
        let h = hunks.last();
        let print = fingerprint_of(path, h);
        let before = groups_of(path, front);
        let after = groups_of(path, hunks);
        lemma_groups(path, front);
        lemma_group_with_bounds(before, print);
        let at = group_with(before, print);
        assert forall|k: int| 0 <= k < front.len() implies fingerprint_of(path, #[trigger] front[k])
            == fingerprint_of(path, hunks[k]) by {
            assert(front[k] == hunks[k]);
        }
        assert forall|i: int| 0 <= i < before.len() implies (
        #[trigger] before[i]).fingerprint == after[i].fingerprint by {}
        if at < before.len() {
            let g = HunkGroupView { members: before[at].members.push(facts_of(h)), ..before[at] };
            lemma_hunks_in_update(before, at, g);
            assert(members_with(path, hunks, print) == before[at].members.push(facts_of(h)));
            assert forall|i: int| 0 <= i < after.len() implies (#[trigger] after[i]).path == path
                && after[i].members == members_with(path, hunks, after[i].fingerprint)
                && after[i].members.len() > 0 by {
                assert(before[i].path == path);
                if i != at {
                    assert(after[i] == before[i]);
                    assert(before[i].fingerprint != before[at].fingerprint);
                }
            }
        } else {
            let g = HunkGroupView { path, fingerprint: print, members: seq![facts_of(h)] };
            assert(after == before.push(g));
            assert(after.drop_last() =~= before);
            assert forall|k: int| 0 <= k < front.len() implies fingerprint_of(
                path,
                #[trigger] front[k],
            ) != print by {
                assert(group_with(before, fingerprint_of(path, front[k])) < before.len());
            }
            lemma_no_members(path, front, print);
            assert(members_with(path, hunks, print) =~= seq![facts_of(h)]);
            assert forall|i: int| 0 <= i < after.len() implies (#[trigger] after[i]).path == path
                && after[i].members == members_with(path, hunks, after[i].fingerprint)
                && after[i].members.len() > 0 by {
                if i < before.len() {
                    assert(after[i] == before[i]);
                    assert(before[i].path == path);
                    assert(before[i].fingerprint != print);
                }
            }
        }
        assert forall|k: int| 0 <= k < hunks.len() implies group_with(
            after,
            fingerprint_of(path, #[trigger] hunks[k]),
        ) < after.len() by {
            if k < front.len() {
                assert(front[k] == hunks[k]);
                lemma_same_prints(before, after, fingerprint_of(path, hunks[k]));
            } else {
                assert(hunks[k] == h);
                if at < before.len() {
                    lemma_same_prints(before, after, print);
                } else {
                    assert forall|i: int| 0 <= i < at implies (
                    #[trigger] after[i]).fingerprint != print by {
                        assert(after[i] == before[i]);
                    }
                    lemma_group_with(after, print, at);
                }
            }
        }
    }
}

/// Every hunk of a file is in one group, and a group holds all the hunks with its
/// fingerprint and no others.
pub proof fn groups_share_out_a_files_hunks(path: Seq<char>, hunks: Seq<HunkView>)
    ensures
        are_groups_of(groups_of(path, hunks), path, hunks),
{
    lemma_groups(path, hunks);
}

/// How many hunks of some files are to be routed.
pub open spec fn considered_count(files: Seq<RouteView>) -> nat
    decreases files.len(),
{
    if files.len() == 0 {
        0
    } else {
        considered_count(files.drop_last()) + files.last().hunks.len()
    }
}

/// How many hunks some routed groups hold.
pub open spec fn routed_count(list: Seq<(HunkGroupView, RoutingView)>) -> nat
    decreases list.len(),
{
    if list.len() == 0 {
        0
    } else {
        routed_count(list.drop_last()) + list.last().0.members.len()
    }
}

/// How many hunks go to the first `n` commits.
pub open spec fn going_count(
    list: Seq<(HunkGroupView, RoutingView)>,
    commits: Seq<CommitView>,
    n: nat,
) -> nat
    decreases n,
{
    if n == 0 {
        0
    } else {
        going_count(list, commits, (n - 1) as nat) + hunks_in(going_to(list, commits, n - 1))
    }
}

proof fn lemma_routed_count_add(
    a: Seq<(HunkGroupView, RoutingView)>,
    b: Seq<(HunkGroupView, RoutingView)>,
)
    ensures
        routed_count(a + b) == routed_count(a) + routed_count(b),
    decreases b.len(),
{
    if b.len() == 0 {
        assert(a + b =~= a);
    } else {
        assert((a + b).drop_last() =~= a + b.drop_last());
        lemma_routed_count_add(a, b.drop_last());
    }
}

proof fn lemma_file_count(list: Seq<(HunkGroupView, RoutingView)>, groups: Seq<HunkGroupView>)
    requires
        list.len() == groups.len(),
        forall|i: int| 0 <= i < groups.len() ==> (#[trigger] list[i]).0 == groups[i],
    ensures
        routed_count(list) == hunks_in(groups),
    decreases groups.len(),
{
    if groups.len() > 0 {
        let front = list.drop_last();
        assert forall|i: int| 0 <= i < groups.drop_last().len() implies (#[trigger] front[i]).0
            == groups.drop_last()[i] by {
            assert(front[i] == list[i]);
        }
        assert(list[list.len() - 1].0 == groups[groups.len() - 1]);
        lemma_file_count(front, groups.drop_last());
    }
}

proof fn lemma_considered(files: Seq<RouteView>, commits: Seq<CommitView>, policy: InsertionPolicy)
    ensures
        routed_count(routings(files, commits, policy)) == considered_count(files),
    decreases files.len(),
{
    if files.len() > 0 {
        let f = files.last();
        let front = routings(files.drop_last(), commits, policy);
        let back = file_routings(f, commits, policy);
        lemma_considered(files.drop_last(), commits, policy);
        lemma_groups(f.path, f.hunks);
        lemma_file_count(back, groups_of(f.path, f.hunks));
        lemma_routed_count_add(front, back);
    }
}

proof fn lemma_going_step(
    list: Seq<(HunkGroupView, RoutingView)>,
    commits: Seq<CommitView>,
    n: nat,
)
    requires
        list.len() > 0,
    ensures
        going_count(list, commits, n) == going_count(list.drop_last(), commits, n) + (if (
        list.last().1 matches RoutingView::Move(c) && rank_of(commits, c.commit_id) matches Some(
            r,
        ) && 0 <= r < n) {
            list.last().0.members.len()
        } else {
            0
        }),
    decreases n,
{
    if n > 0 {
        lemma_going_step(list, commits, (n - 1) as nat);
        let rest = going_to(list.drop_last(), commits, n - 1);
        assert(rest.push(list.last().0).drop_last() =~= rest);
    }
}

proof fn lemma_none_going(commits: Seq<CommitView>, n: nat)
    ensures
        going_count(Seq::empty(), commits, n) == 0,
    decreases n,
{
    if n > 0 {
        lemma_none_going(commits, (n - 1) as nat);
    }
}

proof fn lemma_shared_out(list: Seq<(HunkGroupView, RoutingView)>, commits: Seq<CommitView>)
    requires
        goes_somewhere(list, commits),
    ensures
        going_count(list, commits, commits.len()) + staying_count(staying(list)) == routed_count(
            list,
        ),
    decreases list.len(),
{
    if list.len() == 0 {
        assert(list =~= Seq::empty());
        lemma_none_going(commits, commits.len());
    } else {
        let front = list.drop_last();
        assert forall|i: int| 0 <= i < front.len() implies ((
        #[trigger] front[i]).1 matches RoutingView::Move(c) ==> rank_of(commits, c.commit_id)
            is Some) by {
            assert(front[i] == list[i]);
        }
        lemma_shared_out(front, commits);
        lemma_going_step(list, commits, commits.len());
        match list.last().1 {
            RoutingView::Stay(reason) => {
                let rest = staying(front);
                assert(rest.push((list.last().0, reason)).drop_last() =~= rest);
            },
            RoutingView::Move(c) => {
                assert(list[list.len() - 1].1 matches RoutingView::Move(d) && d == c);
                lemma_rank(commits, c.commit_id);
            },
        }
    }
}

proof fn lemma_moving_count_front(
    one: (CommitView, Seq<HunkGroupView>),
    rest: Seq<(CommitView, Seq<HunkGroupView>)>,
)
    ensures
        moving_count(seq![one] + rest) == hunks_in(one.1) + moving_count(rest),
    decreases rest.len(),
{
    let all = seq![one] + rest;
    if rest.len() == 0 {
        assert(all.drop_last() =~= Seq::empty());
        assert(all.last() == one);
        assert(moving_count(all.drop_last()) == 0);
        assert(moving_count(rest) == 0);
    } else {
        assert(all.drop_last() =~= seq![one] + rest.drop_last());
        assert(all.last() == rest.last());
        lemma_moving_count_front(one, rest.drop_last());
    }
}

proof fn lemma_moving_count(
    list: Seq<(HunkGroupView, RoutingView)>,
    commits: Seq<CommitView>,
    n: nat,
)
    ensures
        moving_count(moving(list, commits, n)) == going_count(list, commits, n),
    decreases n,
{
    if n > 0 {
        let groups = going_to(list, commits, n - 1);
        lemma_moving_count(list, commits, (n - 1) as nat);
        if groups.len() > 0 {
            lemma_moving_count_front(
                (commits[n - 1], groups),
                moving(list, commits, (n - 1) as nat),
            );
        }
    }
}

/// Every hunk that is considered moves or stays, and none does both.
pub proof fn a_plan_accounts_for_every_hunk(
    source: CommitView,
    ancestors: Seq<CommitView>,
    files: Seq<RouteView>,
    notes: Seq<Seq<char>>,
    policy: InsertionPolicy,
    dry_run: bool,
)
    ensures
        ({
            let p = planned(source, ancestors, files, notes, policy, dry_run);
            moving_count(p.moves) + staying_count(p.stays) == considered_count(files)
        }),
{
    let list = routings(files, ancestors, policy);
    lemma_routings_rank(files, ancestors, policy);
    lemma_considered(files, ancestors, policy);
    lemma_shared_out(list, ancestors);
    lemma_moving_count(list, ancestors, ancestors.len());
}

/// The ranks of the destinations before the one at `n`, in the order of the plan.
pub open spec fn destination_ranks(
    list: Seq<(HunkGroupView, RoutingView)>,
    commits: Seq<CommitView>,
    n: nat,
) -> Seq<int>
    decreases n,
{
    if n == 0 {
        Seq::empty()
    } else {
        let rest = destination_ranks(list, commits, (n - 1) as nat);
        if going_to(list, commits, n - 1).len() > 0 {
            seq![n - 1] + rest
        } else {
            rest
        }
    }
}

proof fn lemma_destination_ranks(
    list: Seq<(HunkGroupView, RoutingView)>,
    commits: Seq<CommitView>,
    n: nat,
)
    requires
        n <= commits.len(),
    ensures
        ({
            let ranks = destination_ranks(list, commits, n);
            let moves = moving(list, commits, n);
            &&& ranks.len() == moves.len()
            &&& forall|i: int|
                0 <= i < ranks.len() ==> {
                    &&& 0 <= #[trigger] ranks[i] < n
                    &&& moves[i] == (commits[ranks[i]], going_to(list, commits, ranks[i]))
                }
            &&& forall|i: int, j: int|
                0 <= i < j < ranks.len() ==> #[trigger] ranks[i] > #[trigger] ranks[j]
        }),
    decreases n,
{
    if n > 0 {
        lemma_destination_ranks(list, commits, (n - 1) as nat);
        let rest = destination_ranks(list, commits, (n - 1) as nat);
        let ranks = destination_ranks(list, commits, n);
        if going_to(list, commits, n - 1).len() > 0 {
            assert forall|i: int| 0 < i < ranks.len() implies ranks[i] == rest[i - 1] by {}
            let moves = moving(list, commits, n);
            let rest_moves = moving(list, commits, (n - 1) as nat);
            assert forall|i: int| 0 <= i < ranks.len() implies 0 <= #[trigger] ranks[i] < n
                && moves[i] == (commits[ranks[i]], going_to(list, commits, ranks[i])) by {
                if i > 0 {
                    assert(ranks[i] == rest[i - 1]);
                    assert(moves[i] == rest_moves[i - 1]);
                }
            }
        }
    }
}

/// Destinations come in the order of history, the oldest first: where the
/// ancestors are listed from the newest on, in the opposite order, each once.
/// What goes to each of them is what is routed there.
pub proof fn destinations_come_oldest_first(
    source: CommitView,
    ancestors: Seq<CommitView>,
    files: Seq<RouteView>,
    notes: Seq<Seq<char>>,
    policy: InsertionPolicy,
    dry_run: bool,
)
    ensures
        ({
            let p = planned(source, ancestors, files, notes, policy, dry_run);
            let list = routings(files, ancestors, policy);
            let ranks = destination_ranks(list, ancestors, ancestors.len());
            &&& ranks.len() == p.moves.len()
            &&& forall|i: int|
                0 <= i < ranks.len() ==> {
                    &&& 0 <= #[trigger] ranks[i] < ancestors.len()
                    &&& p.moves[i] == (ancestors[ranks[i]], going_to(list, ancestors, ranks[i]))
                }
            &&& forall|i: int, j: int|
                0 <= i < j < ranks.len() ==> #[trigger] ranks[i] > #[trigger] ranks[j]
        }),
{
    lemma_destination_ranks(routings(files, ancestors, policy), ancestors, ancestors.len());
}

// ---------------------------------------------------------------------------
// Where everything ends up
// ---------------------------------------------------------------------------

proof fn lemma_moves_to_its_rank(
    g: HunkGroupView,
    history: HistoryView,
    commits: Seq<CommitView>,
    policy: InsertionPolicy,
)
    ensures
        group_routed(g, history, commits, policy) matches RoutingView::Move(c) ==> (rank_of(
            commits,
            c.commit_id,
        ) matches Some(n) && 0 <= n < commits.len() && commits[n] == c),
{
    if let RoutingView::Move(c) = group_routed(g, history, commits, policy) {
        assert(g.members.len() > 0) by {
            if g.members.len() == 0 {
                assert(routed_together(g.path, g.members, history, commits, policy) is None);
            }
        }
        a_group_moves_where_all_its_hunks_belong(g, history, commits, policy, c, 0);
        if let HistoryView::Lines(lines) = history {
            let f = g.members[0];
            let owner = if f.removed > 0 {
                owner_of_removed(f, lines, commits)
            } else {
                owner_of_place(f, lines, policy, commits)
            };
            if let Ok(id) = owner {
                lemma_rank(commits, id);
            }
        }
    }
}

proof fn lemma_in_routings(
    files: Seq<RouteView>,
    commits: Seq<CommitView>,
    policy: InsertionPolicy,
    k: int,
    j: int,
)
    requires
        0 <= k < files.len(),
        0 <= j < groups_of(files[k].path, files[k].hunks).len(),
    ensures
        ({
            let g = groups_of(files[k].path, files[k].hunks)[j];
            routings(files, commits, policy).contains(
                (g, group_routed(g, files[k].history->0, commits, policy)),
            )
        }),
    decreases files.len(),
{
    let g = groups_of(files[k].path, files[k].hunks)[j];
    let one = (g, group_routed(g, files[k].history->0, commits, policy));
    let rest = files.drop_last();
    let front = routings(rest, commits, policy);
    let back = file_routings(files.last(), commits, policy);
    let list = routings(files, commits, policy);
    if k < rest.len() {
        assert(rest[k] == files[k]);
        lemma_in_routings(rest, commits, policy, k, j);
        let i = choose|i: int| 0 <= i < front.len() && front[i] == one;
        assert(list[i] == one);
    } else {
        assert(back[j] == one);
        assert(list[front.len() + j] == one);
    }
}

proof fn lemma_staying(list: Seq<(HunkGroupView, RoutingView)>, g: HunkGroupView, why: Seq<char>)
    ensures
        staying(list).contains((g, why)) <==> list.contains((g, RoutingView::Stay(why))),
    decreases list.len(),
{
    if list.len() > 0 {
        let rest = list.drop_last();
        let before = staying(rest);
        let all = staying(list);
        let one = (g, RoutingView::Stay(why));
        lemma_staying(rest, g, why);
        if list.contains(one) {
            let i = choose|i: int| 0 <= i < list.len() && list[i] == one;
            if i < rest.len() {
                assert(rest[i] == one);
                let k = choose|k: int| 0 <= k < before.len() && before[k] == (g, why);
                assert(all[k] == (g, why));
            } else {
                assert(all[all.len() - 1] == (g, why));
            }
        }
        if all.contains((g, why)) {
            let k = choose|k: int| 0 <= k < all.len() && all[k] == (g, why);
            if k < before.len() {
                assert(before[k] == (g, why));
                let i = choose|i: int| 0 <= i < rest.len() && rest[i] == one;
                assert(list[i] == one);
            } else {
                assert(list[list.len() - 1] == one);
            }
        }
    }
}

/// Whether a group is routed to the commit at `rank`.
pub open spec fn is_sent_to(
    list: Seq<(HunkGroupView, RoutingView)>,
    commits: Seq<CommitView>,
    rank: int,
    g: HunkGroupView,
) -> bool {
    exists|i: int|
        0 <= i < list.len() && (#[trigger] list[i]).0 == g && goes_to(list[i].1, commits, rank)
}

proof fn lemma_going_to(
    list: Seq<(HunkGroupView, RoutingView)>,
    commits: Seq<CommitView>,
    rank: int,
    g: HunkGroupView,
)
    ensures
        going_to(list, commits, rank).contains(g) <==> is_sent_to(list, commits, rank, g),
    decreases list.len(),
{
    if list.len() > 0 {
        let rest = list.drop_last();
        let before = going_to(rest, commits, rank);
        let all = going_to(list, commits, rank);
        lemma_going_to(rest, commits, rank, g);
        if is_sent_to(list, commits, rank, g) {
            let i = choose|i: int|
                0 <= i < list.len() && (#[trigger] list[i]).0 == g && goes_to(
                    list[i].1,
                    commits,
                    rank,
                );
            if i < rest.len() {
                assert(rest[i] == list[i]);
                let k = choose|k: int| 0 <= k < before.len() && before[k] == g;
                assert(all[k] == g);
            } else {
                assert(all[all.len() - 1] == g);
            }
        }
        if all.contains(g) {
            let k = choose|k: int| 0 <= k < all.len() && all[k] == g;
            if k < before.len() {
                assert(before[k] == g);
                let i = choose|i: int|
                    0 <= i < rest.len() && (#[trigger] rest[i]).0 == g && goes_to(
                        rest[i].1,
                        commits,
                        rank,
                    );
                assert(list[i] == rest[i]);
            } else {
                assert(list[list.len() - 1].0 == g);
            }
        }
    }
}

proof fn lemma_moving(
    list: Seq<(HunkGroupView, RoutingView)>,
    commits: Seq<CommitView>,
    n: nat,
    rank: int,
)
    requires
        0 <= rank < n <= commits.len(),
        going_to(list, commits, rank).len() > 0,
    ensures
        moving(list, commits, n).contains((commits[rank], going_to(list, commits, rank))),
    decreases n,
{
    let m = n - 1;
    let one = (commits[rank], going_to(list, commits, rank));
    let rest = moving(list, commits, m as nat);
    let all = moving(list, commits, n);
    if rank == m {
        assert(all[0] == one);
    } else {
        lemma_moving(list, commits, m as nat, rank);
        let k = choose|k: int| 0 <= k < rest.len() && rest[k] == one;
        if going_to(list, commits, m).len() > 0 {
            assert(all[k + 1] == one);
        } else {
            assert(all[k] == one);
        }
    }
}

/// Every group of hunks ends up where it is routed: with the commit that it moves
/// into, or among those that stay, with the reason.
pub proof fn a_plan_sends_every_group_where_it_is_routed(
    source: CommitView,
    ancestors: Seq<CommitView>,
    files: Seq<RouteView>,
    notes: Seq<Seq<char>>,
    policy: InsertionPolicy,
    dry_run: bool,
    k: int,
    j: int,
)
    requires
        0 <= k < files.len(),
        0 <= j < groups_of(files[k].path, files[k].hunks).len(),
    ensures
        ({
            let p = planned(source, ancestors, files, notes, policy, dry_run);
            let g = groups_of(files[k].path, files[k].hunks)[j];
            match group_routed(g, files[k].history->0, ancestors, policy) {
                RoutingView::Move(c) => exists|i: int|
                    0 <= i < p.moves.len() && (#[trigger] p.moves[i]).0 == c
                        && p.moves[i].1.contains(g),
                RoutingView::Stay(why) => p.stays.contains((g, why)),
            }
        }),
{
    let list = routings(files, ancestors, policy);
    let g = groups_of(files[k].path, files[k].hunks)[j];
    let r = group_routed(g, files[k].history->0, ancestors, policy);
    lemma_in_routings(files, ancestors, policy, k, j);
    lemma_moves_to_its_rank(g, files[k].history->0, ancestors, policy);
    match r {
        RoutingView::Move(c) => {
            let rank = rank_of(ancestors, c.commit_id)->0;
            let i = choose|i: int| 0 <= i < list.len() && list[i] == (g, r);
            assert(goes_to(list[i].1, ancestors, rank));
            assert(is_sent_to(list, ancestors, rank, g));
            lemma_going_to(list, ancestors, rank, g);
            lemma_moving(list, ancestors, ancestors.len(), rank);
            let all = moving(list, ancestors, ancestors.len());
            let one = (ancestors[rank], going_to(list, ancestors, rank));
            let at = choose|at: int| 0 <= at < all.len() && all[at] == one;
            let p = planned(source, ancestors, files, notes, policy, dry_run);
            assert(p.moves[at].0 == c && p.moves[at].1.contains(g));
        },
        RoutingView::Stay(why) => {
            lemma_staying(list, g, why);
        },
    }
}

proof fn lemma_moves_back(
    list: Seq<(HunkGroupView, RoutingView)>,
    commits: Seq<CommitView>,
    n: nat,
    i: int,
    g: HunkGroupView,
)
    requires
        n <= commits.len(),
        0 <= i < moving(list, commits, n).len(),
        moving(list, commits, n)[i].1.contains(g),
    ensures
        exists|rank: int| #[trigger]
            is_sent_to(list, commits, rank, g) && 0 <= rank < commits.len() && commits[rank]
                == moving(list, commits, n)[i].0,
        moving(list, commits, n)[i].1.len() > 0,
    decreases n,
{
    let m = n - 1;
    let groups = going_to(list, commits, m);
    let rest = moving(list, commits, m as nat);
    if groups.len() > 0 && i == 0 {
        lemma_going_to(list, commits, m, g);
        assert(is_sent_to(list, commits, m, g));
    } else if groups.len() > 0 {
        lemma_moves_back(list, commits, m as nat, i - 1, g);
    } else {
        lemma_moves_back(list, commits, m as nat, i, g);
    }
}

/// What a plan moves into a commit is routed there, and what it says to stay is
/// routed to stay, for the reason given: nothing is moved that was not routed.
pub proof fn a_plan_moves_nothing_else(
    source: CommitView,
    ancestors: Seq<CommitView>,
    files: Seq<RouteView>,
    notes: Seq<Seq<char>>,
    policy: InsertionPolicy,
    dry_run: bool,
)
    ensures
        ({
            let p = planned(source, ancestors, files, notes, policy, dry_run);
            let list = routings(files, ancestors, policy);
            &&& forall|i: int, g: HunkGroupView|
                0 <= i < p.moves.len() && #[trigger] p.moves[i].1.contains(g) ==> list.contains(
                    (g, RoutingView::Move(p.moves[i].0)),
                )
            &&& forall|g: HunkGroupView, why: Seq<char>| #[trigger]
                p.stays.contains((g, why)) ==> list.contains((g, RoutingView::Stay(why)))
        }),
{
    let p = planned(source, ancestors, files, notes, policy, dry_run);
    let list = routings(files, ancestors, policy);
    assert forall|i: int, g: HunkGroupView|
        0 <= i < p.moves.len() && #[trigger] p.moves[i].1.contains(g) implies list.contains(
        (g, RoutingView::Move(p.moves[i].0)),
    ) by {
        lemma_moves_back(list, ancestors, ancestors.len(), i, g);
        let rank = choose|rank: int| #[trigger]
            is_sent_to(list, ancestors, rank, g) && 0 <= rank < ancestors.len() && ancestors[rank]
                == p.moves[i].0;
        let at = choose|at: int|
            0 <= at < list.len() && (#[trigger] list[at]).0 == g && goes_to(
                list[at].1,
                ancestors,
                rank,
            );
        lemma_moves_are_ranked(files, ancestors, policy, at);
    }
    assert forall|g: HunkGroupView, why: Seq<char>| #[trigger]
        p.stays.contains((g, why)) implies list.contains((g, RoutingView::Stay(why))) by {
        lemma_staying(list, g, why);
    }
}

proof fn lemma_moves_are_ranked(
    files: Seq<RouteView>,
    commits: Seq<CommitView>,
    policy: InsertionPolicy,
    at: int,
)
    requires
        0 <= at < routings(files, commits, policy).len(),
    ensures
        routings(files, commits, policy)[at].1 matches RoutingView::Move(c) ==> (rank_of(
            commits,
            c.commit_id,
        ) matches Some(n) && 0 <= n < commits.len() && commits[n] == c),
    decreases files.len(),
{
    let front = routings(files.drop_last(), commits, policy);
    let back = file_routings(files.last(), commits, policy);
    if at < front.len() {
        lemma_moves_are_ranked(files.drop_last(), commits, policy, at);
    } else {
        let g = back[at - front.len()].0;
        lemma_moves_to_its_rank(g, files.last().history->0, commits, policy);
    }
}

/// A file that is new or was moved has no lines whose history could send a hunk
/// anywhere: all of it stays. Of every other file the history has to be asked for.
pub proof fn a_new_or_moved_file_stays(
    spec: Option<SpecView>,
    f: FileView,
    g: HunkGroupView,
    commits: Seq<CommitView>,
    policy: InsertionPolicy,
)
    ensures
        ({
            let r = route_view(spec, f);
            let fresh = f.status == "added"@ || moved_from(f.rename, f.path) is Some;
            &&& r.path == f.path
            &&& r.hunks == listed_hunks(decision_for(spec, f.path), f)
            &&& r.history is Some <==> fresh
            &&& fresh ==> group_routed(g, r.history->0, commits, policy) is Stay
        }),
{
    if let RoutingView::Move(c) = group_routed(g, route_view(spec, f).history->0, commits, policy) {
        lemma_moves_to_its_rank(g, route_view(spec, f).history->0, commits, policy);
        if g.members.len() > 0 {
            a_group_moves_where_all_its_hunks_belong(
                g,
                route_view(spec, f).history->0,
                commits,
                policy,
                c,
                0,
            );
        }
    }
}

/// The files that are routed are those that a spec does not leave out and that
/// have a hunk it keeps, each with just those hunks.
pub proof fn what_is_routed_is_what_the_spec_keeps(
    spec: Option<SpecView>,
    files: Seq<FileView>,
    r: RouteView,
)
    ensures
        files_to_route(spec, files).contains(r) <==> exists|i: int|
            {
                &&& 0 <= i < files.len()
                &&& !(decision_for(spec, (#[trigger] files[i]).path) is Skip)
                &&& listed_hunks(decision_for(spec, files[i].path), files[i]).len() > 0
                &&& r == route_view(spec, files[i])
            },
    decreases files.len(),
{
    if files.len() > 0 {
        let rest = files.drop_last();
        let before = files_to_route(spec, rest);
        let all = files_to_route(spec, files);
        what_is_routed_is_what_the_spec_keeps(spec, rest, r);
        if exists|i: int|
            {
                &&& 0 <= i < files.len()
                &&& !(decision_for(spec, (#[trigger] files[i]).path) is Skip)
                &&& listed_hunks(decision_for(spec, files[i].path), files[i]).len() > 0
                &&& r == route_view(spec, files[i])
            } {
            let i = choose|i: int|
                {
                    &&& 0 <= i < files.len()
                    &&& !(decision_for(spec, (#[trigger] files[i]).path) is Skip)
                    &&& listed_hunks(decision_for(spec, files[i].path), files[i]).len() > 0
                    &&& r == route_view(spec, files[i])
                };
            if i < rest.len() {
                assert(rest[i] == files[i]);
                assert(before.contains(r));
                let k = choose|k: int| 0 <= k < before.len() && before[k] == r;
                assert(all[k] == r);
            } else {
                assert(all[all.len() - 1] == r);
            }
        }
        if all.contains(r) {
            let k = choose|k: int| 0 <= k < all.len() && all[k] == r;
            if k < before.len() {
                assert(before[k] == r);
                let i = choose|i: int|
                    {
                        &&& 0 <= i < rest.len()
                        &&& !(decision_for(spec, (#[trigger] rest[i]).path) is Skip)
                        &&& listed_hunks(decision_for(spec, rest[i].path), rest[i]).len() > 0
                        &&& r == route_view(spec, rest[i])
                    };
                assert(files[i] == rest[i]);
            } else {
                assert(files[files.len() - 1] == files.last());
            }
        }
    }
}

// ---------------------------------------------------------------------------
// Finding the hunks again
// ---------------------------------------------------------------------------

proof fn lemma_ids_with(path: Seq<char>, hunks: Seq<HunkView>, print: Seq<char>, id: Seq<char>)
    ensures
        ids_with(path, hunks, print).contains(id) <==> exists|k: int|
            0 <= k < hunks.len() && (#[trigger] hunks[k]).id == id && fingerprint_of(
                path,
                hunks[k],
            ) == print,
    decreases hunks.len(),
{
    if hunks.len() > 0 {
        let rest = hunks.drop_last();
        let before = ids_with(path, rest, print);
        let all = ids_with(path, hunks, print);
        lemma_ids_with(path, rest, print, id);
        if exists|k: int|
            0 <= k < hunks.len() && (#[trigger] hunks[k]).id == id && fingerprint_of(
                path,
                hunks[k],
            ) == print {
            let k = choose|k: int|
                0 <= k < hunks.len() && (#[trigger] hunks[k]).id == id && fingerprint_of(
                    path,
                    hunks[k],
                ) == print;
            if k < rest.len() {
                assert(rest[k] == hunks[k]);
                let i = choose|i: int| 0 <= i < before.len() && before[i] == id;
                assert(all[i] == id);
            } else {
                assert(all[all.len() - 1] == id);
            }
        }
        if all.contains(id) {
            let i = choose|i: int| 0 <= i < all.len() && all[i] == id;
            if i < before.len() {
                assert(before[i] == id);
                let k = choose|k: int|
                    0 <= k < rest.len() && (#[trigger] rest[k]).id == id && fingerprint_of(
                        path,
                        rest[k],
                    ) == print;
                assert(hunks[k] == rest[k]);
            } else {
                assert(hunks[hunks.len() - 1].id == id);
            }
        }
    }
}

/// Whether a group has a hunk with an id in the file that it is of.
pub open spec fn finds_again(g: HunkGroupView, files: Seq<FileView>, id: Seq<char>) -> bool {
    exists|k: int|
        {
            &&& 0 <= k < first_at(files, g.path)->0.hunks.len()
            &&& (#[trigger] first_at(files, g.path)->0.hunks[k]).id == id
            &&& fingerprint_of(g.path, first_at(files, g.path)->0.hunks[k]) == g.fingerprint
        }
}

/// What is selected in a file once a plan is carried out are the hunks with the
/// fingerprints of the groups that are planned for it, and no others.
pub proof fn just_the_planned_hunks_are_selected(
    groups: Seq<HunkGroupView>,
    files: Seq<FileView>,
    path: Seq<char>,
    id: Seq<char>,
)
    ensures
        found_ids(groups, files).dom().contains(path) <==> exists|i: int|
            0 <= i < groups.len() && (#[trigger] groups[i]).path == path,
        found_ids(groups, files).dom().contains(path) ==> (found_ids(groups, files)[path].contains(
            id,
        ) <==> exists|i: int|
            0 <= i < groups.len() && (#[trigger] groups[i]).path == path && finds_again(
                groups[i],
                files,
                id,
            )),
    decreases groups.len(),
{
    if groups.len() > 0 {
        let rest = groups.drop_last();
        let g = groups.last();
        let last = groups.len() - 1;
        just_the_planned_hunks_are_selected(rest, files, path, id);
        let earlier = found_ids(rest, files);
        let before = if earlier.dom().contains(g.path) {
            earlier[g.path]
        } else {
            Seq::empty()
        };
        let found = ids_with(g.path, first_at(files, g.path)->0.hunks, g.fingerprint);
        lemma_ids_with(g.path, first_at(files, g.path)->0.hunks, g.fingerprint, id);
        assert(finds_again(g, files, id) <==> found.contains(id));
        assert forall|i: int| 0 <= i < rest.len() implies #[trigger] rest[i] == groups[i] by {}
        assert(groups[last] == g);
        if g.path == path {
            assert((before + found).contains(id) <==> before.contains(id) || found.contains(id)) by {
                if before.contains(id) {
                    let k = choose|k: int| 0 <= k < before.len() && before[k] == id;
                    assert((before + found)[k] == id);
                }
                if found.contains(id) {
                    let k = choose|k: int| 0 <= k < found.len() && found[k] == id;
                    assert((before + found)[before.len() + k] == id);
                }
                if (before + found).contains(id) {
                    let k = choose|k: int|
                        0 <= k < (before + found).len() && (before + found)[k] == id;
                    if k < before.len() {
                        assert(before[k] == id);
                    } else {
                        assert(found[k - before.len()] == id);
                    }
                }
            }
        }
        if exists|i: int|
            0 <= i < rest.len() && (#[trigger] rest[i]).path == path && finds_again(
                rest[i],
                files,
                id,
            ) {
            let i = choose|i: int|
                0 <= i < rest.len() && (#[trigger] rest[i]).path == path && finds_again(
                    rest[i],
                    files,
                    id,
                );
            assert(groups[i] == rest[i]);
        }
        if exists|i: int|
            0 <= i < groups.len() && (#[trigger] groups[i]).path == path && finds_again(
                groups[i],
                files,
                id,
            ) {
            let i = choose|i: int|
                0 <= i < groups.len() && (#[trigger] groups[i]).path == path && finds_again(
                    groups[i],
                    files,
                    id,
                );
            if i < last {
                assert(rest[i] == groups[i]);
            }
        }
        if exists|i: int| 0 <= i < rest.len() && (#[trigger] rest[i]).path == path {
            let i = choose|i: int| 0 <= i < rest.len() && (#[trigger] rest[i]).path == path;
            assert(groups[i] == rest[i]);
        }
        if exists|i: int| 0 <= i < groups.len() && (#[trigger] groups[i]).path == path {
            let i = choose|i: int| 0 <= i < groups.len() && (#[trigger] groups[i]).path == path;
            if i < last {
                assert(rest[i] == groups[i]);
            }
        }
    }
}

proof fn lemma_first_there(files: Seq<FileView>, path: Seq<char>)
    ensures
        match first_at(files, path) {
            Some(f) => exists|k: int|
                {
                    &&& 0 <= k < files.len()
                    &&& #[trigger] files[k] == f
                    &&& f.path == path
                    &&& forall|j: int| 0 <= j < k ==> (#[trigger] files[j]).path != path
                },
            None => forall|k: int| 0 <= k < files.len() ==> (#[trigger] files[k]).path != path,
        },
    decreases files.len(),
{
    if files.len() > 0 {
        let rest = files.drop_last();
        let last = files.len() - 1;
        lemma_first_there(rest, path);
        assert forall|k: int| 0 <= k < rest.len() implies #[trigger] rest[k] == files[k] by {}
        match first_at(rest, path) {
            Some(f) => {
                let k = choose|k: int|
                    {
                        &&& 0 <= k < rest.len()
                        &&& #[trigger] rest[k] == f
                        &&& f.path == path
                        &&& forall|j: int| 0 <= j < k ==> (#[trigger] rest[j]).path != path
                    };
                assert(files[k] == f);
                assert forall|j: int| 0 <= j < k implies (#[trigger] files[j]).path != path by {
                    assert(rest[j].path != path);
                }
            },
            None => {
                assert forall|j: int| 0 <= j < rest.len() implies (#[trigger] files[j]).path
                    != path by {
                    assert(rest[j].path != path);
                }
                assert(files[last] == files.last());
            },
        }
    }
}

/// Whether a file of a group is there and the first such has as many hunks with
/// its fingerprint as the group.
pub open spec fn is_all_there(g: HunkGroupView, files: Seq<FileView>) -> bool {
    exists|k: int|
        {
            &&& 0 <= k < files.len()
            &&& (#[trigger] files[k]).path == g.path
            &&& forall|j: int| 0 <= j < k ==> (#[trigger] files[j]).path != g.path
            &&& ids_with(g.path, files[k].hunks, g.fingerprint).len() == g.members.len()
        }
}

/// A plan is carried out only where every file of it is still there and has as
/// many hunks of each group as were planned.
pub proof fn a_plan_is_carried_out_on_what_was_planned(
    groups: Seq<HunkGroupView>,
    files: Seq<FileView>,
    source: CommitView,
)
    ensures
        first_lost(groups, files, source) is None <==> forall|i: int|
            0 <= i < groups.len() ==> is_all_there(#[trigger] groups[i], files),
    decreases groups.len(),
{
    if groups.len() > 0 {
        let rest = groups.drop_last();
        let last = groups.len() - 1;
        let g = groups[last];
        a_plan_is_carried_out_on_what_was_planned(rest, files, source);
        lemma_first_there(files, g.path);
        assert(lost(g, files, source) is None <==> is_all_there(g, files)) by {
            if let Some(f) = first_at(files, g.path) {
                let k = choose|k: int|
                    {
                        &&& 0 <= k < files.len()
                        &&& #[trigger] files[k] == f
                        &&& f.path == g.path
                        &&& forall|j: int| 0 <= j < k ==> (#[trigger] files[j]).path != g.path
                    };
                assert(files[k].path == g.path);
                if is_all_there(g, files) {
                    let m = choose|m: int|
                        {
                            &&& 0 <= m < files.len()
                            &&& (#[trigger] files[m]).path == g.path
                            &&& forall|j: int| 0 <= j < m ==> (#[trigger] files[j]).path != g.path
                            &&& ids_with(g.path, files[m].hunks, g.fingerprint).len()
                                == g.members.len()
                        };
                    assert(m == k) by {
                        if m < k {
                            assert(files[m].path != g.path);
                        }
                        if k < m {
                            assert(files[k].path != g.path);
                        }
                    }
                }
            }
        }
        if first_lost(rest, files, source) is None {
            assert forall|i: int| 0 <= i < rest.len() implies is_all_there(
                #[trigger] groups[i],
                files,
            ) by {
                assert(is_all_there(rest[i], files));
            }
        } else {
            let i = choose|i: int| 0 <= i < rest.len() && !is_all_there(#[trigger] rest[i], files);
            assert(groups[i] == rest[i]);
        }
    }
}

// ---------------------------------------------------------------------------
// What jj tells of commits
// ---------------------------------------------------------------------------

/// A commit that is told by its ids and its description with a tab between each
/// two reads as that. The description may hold tabs itself; white space around it
/// does not count.
pub proof fn a_commit_reads_as_it_is_told(
    commit_id: Seq<char>,
    change_id: Seq<char>,
    short: Seq<char>,
    description: Seq<char>,
)
    requires
        !commit_id.contains('\t'),
        !change_id.contains('\t'),
        !short.contains('\t'),
    ensures
        ({
            let line = commit_id.push('\t') + (change_id.push('\t') + (short.push('\t')
                + description));
            &&& tells_commit(line)
            &&& commit_in(line) == (CommitView {
                commit_id,
                change_id,
                short,
                description: trimmed(description),
            })
        }),
{
    let tail = short.push('\t') + description;
    let rest = change_id.push('\t') + tail;
    crate::text::lemma_parted_at(commit_id, '\t', rest);
    crate::text::lemma_parted_at(change_id, '\t', tail);
    crate::text::lemma_parted_at(short, '\t', description);
}

proof fn lemma_commits_in(rows: Seq<Seq<char>>, c: CommitView)
    ensures
        commits_in(rows).contains(c) <==> exists|i: int|
            0 <= i < rows.len() && tells_commit(#[trigger] rows[i]) && commit_in(rows[i]) == c,
    decreases rows.len(),
{
    if rows.len() > 0 {
        let rest = rows.drop_last();
        let last = rows.len() - 1;
        let before = commits_in(rest);
        let all = commits_in(rows);
        lemma_commits_in(rest, c);
        assert(rows[last] == rows.last());
        if exists|i: int|
            0 <= i < rows.len() && tells_commit(#[trigger] rows[i]) && commit_in(rows[i]) == c {
            let i = choose|i: int|
                0 <= i < rows.len() && tells_commit(#[trigger] rows[i]) && commit_in(rows[i]) == c;
            if i < last {
                assert(rest[i] == rows[i]);
                let k = choose|k: int| 0 <= k < before.len() && before[k] == c;
                assert(all[k] == c);
            } else {
                assert(all[all.len() - 1] == c);
            }
        }
        if all.contains(c) {
            let k = choose|k: int| 0 <= k < all.len() && all[k] == c;
            if k < before.len() {
                assert(before[k] == c);
                let i = choose|i: int|
                    0 <= i < rest.len() && tells_commit(#[trigger] rest[i]) && commit_in(rest[i])
                        == c;
                assert(rows[i] == rest[i]);
            }
        }
    }
}

/// Every line that tells of a commit is read, and nothing else is.
pub proof fn every_commit_that_is_told_is_read(rows: Seq<Seq<char>>, c: CommitView)
    ensures
        commits_in(rows).contains(c) <==> exists|i: int|
            0 <= i < rows.len() && tells_commit(#[trigger] rows[i]) && commit_in(rows[i]) == c,
{
    lemma_commits_in(rows, c);
}

/// A file is noted once where it has no hunk to route, and once where it changes
/// its mode beside its hunks; a file that a spec leaves out is not noted at all.
pub proof fn what_no_hunk_tells_is_noted(
    spec: Option<SpecView>,
    files: Seq<FileView>,
    note: Seq<char>,
)
    ensures
        notes_on(spec, files).contains(note) <==> exists|i: int|
            0 <= i < files.len() && !(decision_for(spec, (#[trigger] files[i]).path) is Skip)
                && file_notes(files[i]).contains(note),
        forall|f: FileView|
            (#[trigger] file_notes(f)).len() == if f.hunks.len() == 0 || f.mode is Some {
                1nat
            } else {
                0nat
            },
    decreases files.len(),
{
    if files.len() > 0 {
        let rest = files.drop_last();
        let last = files.len() - 1;
        let before = notes_on(spec, rest);
        let more = file_notes(files.last());
        let all = notes_on(spec, files);
        what_no_hunk_tells_is_noted(spec, rest, note);
        assert(files[last] == files.last());
        if exists|i: int|
            0 <= i < files.len() && !(decision_for(spec, (#[trigger] files[i]).path) is Skip)
                && file_notes(files[i]).contains(note) {
            let i = choose|i: int|
                0 <= i < files.len() && !(decision_for(spec, (#[trigger] files[i]).path) is Skip)
                    && file_notes(files[i]).contains(note);
            if i < last {
                assert(rest[i] == files[i]);
                let k = choose|k: int| 0 <= k < before.len() && before[k] == note;
                assert(all[k] == note);
            } else {
                let k = choose|k: int| 0 <= k < more.len() && more[k] == note;
                assert(all[before.len() + k] == note);
            }
        }
        if all.contains(note) {
            let k = choose|k: int| 0 <= k < all.len() && all[k] == note;
            if k < before.len() {
                assert(before[k] == note);
                let i = choose|i: int|
                    0 <= i < rest.len() && !(decision_for(spec, (#[trigger] rest[i]).path) is Skip)
                        && file_notes(rest[i]).contains(note);
                assert(files[i] == rest[i]);
            } else {
                assert(more[k - before.len()] == note);
            }
        }
    }
}

/// What a fingerprint is taken of, label by label.
pub open spec fn labelled(path: Seq<char>, removed: Seq<char>, added: Seq<char>) -> Seq<char> {
    "absorb-fingerprint\0path\0"@ + (path + ("\0removed\0"@ + (removed + ("\0added\0"@ + added))))
}

/// What a fingerprint is taken of tells a hunk by its path, the lines it takes
/// away and the lines it adds: where two are the same, so are all of these.
pub proof fn a_fingerprint_is_taken_of_path_and_lines(
    path: Seq<char>,
    removed: Seq<char>,
    added: Seq<char>,
    other_path: Seq<char>,
    other_removed: Seq<char>,
    other_added: Seq<char>,
)
    requires
        fingerprint_text(path, removed, added) == fingerprint_text(
            other_path,
            other_removed,
            other_added,
        ),
        !path.contains('\0') && !other_path.contains('\0'),
        !removed.contains('\0') && !other_removed.contains('\0'),
    ensures
        path == other_path,
        removed == other_removed,
        added == other_added,
{
    reveal_strlit("\0removed\0");
    reveal_strlit("\0added\0");
    let head = "absorb-fingerprint\0path\0"@;
    assert(fingerprint_text(path, removed, added) =~= labelled(path, removed, added));
    assert(fingerprint_text(other_path, other_removed, other_added) =~= labelled(
        other_path,
        other_removed,
        other_added,
    ));
    let a = removed + ("\0added\0"@ + added);
    let b = other_removed + ("\0added\0"@ + other_added);
    let x = path + ("\0removed\0"@ + a);
    let y = other_path + ("\0removed\0"@ + b);
    assert((head + x).skip(head.len() as int) =~= x);
    assert((head + y).skip(head.len() as int) =~= y);
    crate::diff::lemma_one_field(path, other_path, "\0removed\0"@, a, b);
    crate::diff::lemma_one_field(removed, other_removed, "\0added\0"@, added, other_added);
}

// ---------------------------------------------------------------------------
// What is reported
// ---------------------------------------------------------------------------

/// A run that stops part way reports what it has done and what it has not: every
/// destination is told of once, those before the one it stopped at as moved and
/// the rest, with how many hunks they were to get, as not moved. The last line
/// says how to take everything back.
pub proof fn a_stopped_run_reports_every_destination(
    p: PlanView,
    n: nat,
    undo_point: Seq<char>,
    i: int,
)
    requires
        0 < n < p.moves.len(),
        0 <= i < p.moves.len(),
    ensures
        ({
            let lines = interrupted_lines(p, first_targets(p, n), n, undo_point);
            let label = commit_label(p.moves[i].0);
            &&& lines.len() == p.moves.len() + 3
            &&& crate::text::finishes_with(
                lines[1 + i],
                if i < n {
                    label
                } else {
                    label + " ("@ + decimal(hunks_in(p.moves[i].1)) + " hunks)"@
                },
            )
            &&& crate::text::finishes_with(lines.last(), undo_point)
            &&& i == 0 ==> lines[1 + i] == "  moved:     "@ + label
            &&& i == n ==> crate::text::begins_with(lines[1 + i], "  not moved: "@)
        }),
{
    let moved = first_targets(p, n);
    let lines = interrupted_lines(p, moved, n, undo_point);
    let done = moved_lines(moved);
    let left = unmoved_lines(p.moves, n);
    let label = commit_label(p.moves[i].0);
    assert(done.len() == n);
    assert(left.len() == p.moves.len() - n);
    if i < n {
        assert(lines[1 + i] == done[i]);
        let head = if i == 0 {
            "  moved:     "@
        } else {
            "             "@
        };
        lemma_ends_with(head, label);
    } else {
        let rest = p.moves.skip(n as int);
        assert(rest[i - n] == p.moves[i]);
        assert(lines[1 + i] == left[i - n]);
        let head = if i == n {
            "  not moved: "@
        } else {
            "             "@
        };
        let tail = label + " ("@ + decimal(hunks_in(p.moves[i].1)) + " hunks)"@;
        assert(left[i - n] =~= head + tail);
        lemma_ends_with(head, tail);
        assert((head + tail).take(head.len() as int) =~= head);
    }
    assert(lines.last() == undo_line(undo_point));
    lemma_ends_with("Undo all of it with: jj op restore "@, undo_point);
}

proof fn lemma_ends_with(head: Seq<char>, tail: Seq<char>)
    ensures
        crate::text::finishes_with(head + tail, tail),
{
    let s = head + tail;
    assert(s.skip(s.len() - tail.len()) =~= tail);
}

proof fn lemma_line_kept(a: Seq<Seq<char>>, b: Seq<Seq<char>>, line: Seq<char>)
    ensures
        a.contains(line) ==> (a + b).contains(line),
        b.contains(line) ==> (a + b).contains(line),
{
    if a.contains(line) {
        let k = choose|k: int| 0 <= k < a.len() && a[k] == line;
        assert((a + b)[k] == line);
    }
    if b.contains(line) {
        let k = choose|k: int| 0 <= k < b.len() && b[k] == line;
        assert((a + b)[a.len() + k] == line);
    }
}

proof fn lemma_member_told(
    path: Seq<char>,
    members: Seq<FactsView>,
    reason: Option<Seq<char>>,
    k: int,
)
    requires
        0 <= k < members.len(),
    ensures
        member_lines(path, members, reason).contains("  "@ + location(path, members[k])),
        reason matches Some(why) ==> member_lines(path, members, reason).contains("    "@ + why),
    decreases members.len(),
{
    let rest = members.drop_last();
    let before = member_lines(path, rest, reason);
    let all = member_lines(path, members, reason);
    let here = before.push("  "@ + location(path, members.last()));
    let line = "  "@ + location(path, members[k]);
    if k < rest.len() {
        lemma_member_told(path, rest, reason, k);
        let at = choose|at: int| 0 <= at < before.len() && before[at] == line;
        assert(all[at] == line);
    } else {
        assert(here[here.len() - 1] == line);
        assert(all[before.len() as int] == line);
    }
    if let Some(why) = reason {
        assert(all[all.len() - 1] == "    "@ + why);
    }
}

proof fn lemma_group_told(groups: Seq<HunkGroupView>, j: int, k: int)
    requires
        0 <= j < groups.len(),
        0 <= k < groups[j].members.len(),
    ensures
        group_lines(groups).contains("  "@ + location(groups[j].path, groups[j].members[k])),
    decreases groups.len(),
{
    let rest = groups.drop_last();
    let line = "  "@ + location(groups[j].path, groups[j].members[k]);
    let last = groups.last();
    lemma_line_kept(group_lines(rest), member_lines(last.path, last.members, None), line);
    if j < rest.len() {
        assert(rest[j] == groups[j]);
        lemma_group_told(rest, j, k);
    } else {
        lemma_member_told(last.path, last.members, None, k);
    }
}

proof fn lemma_move_told(
    moves: Seq<(CommitView, Seq<HunkGroupView>)>,
    i: int,
    line: Seq<char>,
)
    requires
        0 <= i < moves.len(),
        group_lines(moves[i].1).contains(line) || line == "move into "@ + commit_label(moves[i].0),
    ensures
        move_lines(moves).contains(line),
    decreases moves.len(),
{
    let rest = moves.drop_last();
    let last = moves.last();
    let head = seq![""@, "move into "@ + commit_label(last.0)];
    if i < rest.len() {
        assert(rest[i] == moves[i]);
        lemma_move_told(rest, i, line);
        lemma_line_kept(move_lines(rest), head, line);
    } else {
        if line == "move into "@ + commit_label(last.0) {
            assert(head[1] == line);
            lemma_line_kept(move_lines(rest), head, line);
        }
    }
    lemma_line_kept(move_lines(rest) + head, group_lines(last.1), line);
}

proof fn lemma_stay_told(stays: Seq<(HunkGroupView, Seq<char>)>, i: int, line: Seq<char>)
    requires
        0 <= i < stays.len(),
        member_lines(stays[i].0.path, stays[i].0.members, Some(stays[i].1)).contains(line),
    ensures
        stay_lines(stays).contains(line),
    decreases stays.len(),
{
    let rest = stays.drop_last();
    let last = stays.last();
    let more = member_lines(last.0.path, last.0.members, Some(last.1));
    if i < rest.len() {
        assert(rest[i] == stays[i]);
        lemma_stay_told(rest, i, line);
    }
    lemma_line_kept(stay_lines(rest), more, line);
}

/// A plan tells of every hunk: of those that move, under the commit that they
/// move into, and of those that stay, with the reason why.
pub proof fn a_plan_tells_of_every_hunk(p: PlanView)
    ensures
        forall|i: int, j: int, k: int|
            #![trigger p.moves[i].1[j].members[k]]
            0 <= i < p.moves.len() && 0 <= j < p.moves[i].1.len() && 0 <= k
                < p.moves[i].1[j].members.len() ==> plan_lines(p).contains(
                "  "@ + location(p.moves[i].1[j].path, p.moves[i].1[j].members[k]),
            ),
        forall|i: int|
            0 <= i < p.moves.len() ==> plan_lines(p).contains(
                "move into "@ + commit_label((#[trigger] p.moves[i]).0),
            ),
        forall|i: int, k: int|
            #![trigger p.stays[i].0.members[k]]
            0 <= i < p.stays.len() && 0 <= k < p.stays[i].0.members.len() ==> plan_lines(
                p,
            ).contains("  "@ + location(p.stays[i].0.path, p.stays[i].0.members[k])) && plan_lines(
                p,
            ).contains("    "@ + p.stays[i].1),
        forall|i: int|
            0 <= i < p.notes.len() ==> plan_lines(p).contains("note: "@ + #[trigger] p.notes[i]),
{
    assert forall|i: int, j: int, k: int|
        #![trigger p.moves[i].1[j].members[k]]
        0 <= i < p.moves.len() && 0 <= j < p.moves[i].1.len() && 0 <= k
            < p.moves[i].1[j].members.len() implies plan_lines(p).contains(
        "  "@ + location(p.moves[i].1[j].path, p.moves[i].1[j].members[k]),
    ) by {
        let line = "  "@ + location(p.moves[i].1[j].path, p.moves[i].1[j].members[k]);
        lemma_group_told(p.moves[i].1, j, k);
        lemma_move_told(p.moves, i, line);
        lemma_in_plan(p, line);
    }
    assert forall|i: int| 0 <= i < p.moves.len() implies plan_lines(p).contains(
        "move into "@ + commit_label((#[trigger] p.moves[i]).0),
    ) by {
        let line = "move into "@ + commit_label(p.moves[i].0);
        lemma_move_told(p.moves, i, line);
        lemma_in_plan(p, line);
    }
    assert forall|i: int, k: int|
        #![trigger p.stays[i].0.members[k]]
        0 <= i < p.stays.len() && 0 <= k < p.stays[i].0.members.len() implies plan_lines(
        p,
    ).contains("  "@ + location(p.stays[i].0.path, p.stays[i].0.members[k])) && plan_lines(
        p,
    ).contains("    "@ + p.stays[i].1) by {
        let g = p.stays[i].0;
        lemma_member_told(g.path, g.members, Some(p.stays[i].1), k);
        lemma_stay_told(p.stays, i, "  "@ + location(g.path, g.members[k]));
        lemma_stay_told(p.stays, i, "    "@ + p.stays[i].1);
        lemma_in_plan(p, "  "@ + location(g.path, g.members[k]));
        lemma_in_plan(p, "    "@ + p.stays[i].1);
    }
    assert forall|i: int| 0 <= i < p.notes.len() implies plan_lines(p).contains(
        "note: "@ + #[trigger] p.notes[i],
    ) by {
        lemma_note_told(p.notes, i);
        lemma_in_plan(p, "note: "@ + p.notes[i]);
    }
}

proof fn lemma_note_told(notes: Seq<Seq<char>>, i: int)
    requires
        0 <= i < notes.len(),
    ensures
        note_lines(notes).contains("note: "@ + notes[i]),
    decreases notes.len(),
{
    let rest = notes.drop_last();
    let more = seq![""@, "note: "@ + notes.last()];
    let line = "note: "@ + notes[i];
    if i < rest.len() {
        assert(rest[i] == notes[i]);
        lemma_note_told(rest, i);
    } else {
        assert(more[1] == line);
    }
    lemma_line_kept(note_lines(rest), more, line);
}

proof fn lemma_in_plan(p: PlanView, line: Seq<char>)
    requires
        move_lines(p.moves).contains(line) || (p.stays.len() > 0 && stay_lines(p.stays).contains(
            line,
        )) || note_lines(p.notes).contains(line),
    ensures
        plan_lines(p).contains(line),
{
    let a = seq!["absorb from "@ + commit_label(p.source), count_line(p)];
    let b = move_lines(p.moves);
    let head = seq![""@, "stay in "@ + commit_label(p.source)];
    let c = if p.stays.len() > 0 {
        head + stay_lines(p.stays)
    } else {
        Seq::empty()
    };
    let d = note_lines(p.notes);
    lemma_line_kept(head, stay_lines(p.stays), line);
    lemma_line_kept(a, b, line);
    lemma_line_kept(a + b, c, line);
    lemma_line_kept(a + b + c, d, line);
    lemma_line_kept(a + b + c + d, closing_lines(p), line);
}

/// A plan carries every note it is given, in order, and in front of them says
/// that nothing can move exactly where there is nowhere to move to.
pub proof fn a_plan_says_where_there_is_nowhere_to_move(
    source: CommitView,
    ancestors: Seq<CommitView>,
    files: Seq<RouteView>,
    notes: Seq<Seq<char>>,
    policy: InsertionPolicy,
    dry_run: bool,
)
    ensures
        ({
            let p = planned(source, ancestors, files, notes, policy, dry_run);
            &&& ancestors.len() > 0 ==> p.notes == notes
            &&& ancestors.len() == 0 ==> p.notes.drop_first() == notes && p.notes.len()
                == notes.len() + 1 && crate::text::begins_with(p.notes[0], source.short)
            &&& ancestors.len() == 0 ==> p.moves.len() == 0
            &&& p.source == source && p.insertions == policy && p.dry_run == dry_run
        }),
{
    let p = planned(source, ancestors, files, notes, policy, dry_run);
    if ancestors.len() == 0 {
        assert(p.notes.drop_first() =~= notes);
        assert(p.notes[0].take(source.short.len() as int) =~= source.short);
    }
}

/// Groups come in the order in which their first hunks do, and a group's hunks in
/// their own: one more hunk is put behind the others of its group, or makes a
/// group behind the others, and changes nothing else.
pub proof fn one_more_hunk_goes_behind_the_others(
    path: Seq<char>,
    hunks: Seq<HunkView>,
    hunk: HunkView,
)
    ensures
        ({
            let before = groups_of(path, hunks);
            let after = groups_of(path, hunks.push(hunk));
            let one = FactsView {
                short_id: hunk.short_id,
                before_start: hunk.before_range.start,
                removed: hunk.before_range.length,
                added: hunk.after_range.length,
            };
            &&& before.len() <= after.len() <= before.len() + 1
            &&& forall|i: int|
                0 <= i < before.len() ==> (#[trigger] after[i]).fingerprint == before[i].fingerprint
                    && (after[i].members == before[i].members || after[i].members
                    == before[i].members.push(one))
            &&& after.len() > before.len() ==> after.last().members == seq![one]
                && after.last().path == path && after.last().fingerprint == fingerprint_of(
                path,
                hunk,
            )
        }),
{
    assert(hunks.push(hunk).drop_last() =~= hunks);
    let before = groups_of(path, hunks);
    lemma_group_place(before, fingerprint_of(path, hunk));
}

proof fn lemma_group_place(groups: Seq<HunkGroupView>, print: Seq<char>)
    ensures
        0 <= group_with(groups, print) <= groups.len(),
    decreases groups.len(),
{
    if groups.len() > 0 {
        lemma_group_place(groups.drop_last(), print);
    }
}

/// A run that went through tells of every destination, one line each in the order
/// they were moved into, of what stayed where anything did, and last how to take
/// it back.
pub proof fn a_finished_run_reports_every_destination(p: PlanView, undo_point: Seq<char>, i: int)
    requires
        0 <= i < p.moves.len(),
    ensures
        ({
            let lines = absorbed_lines(p, undo_point);
            let stayed = lines[2 + p.moves.len() as int];
            &&& crate::text::finishes_with(lines[2 + i], commit_label(p.moves[i].0))
            &&& crate::text::finishes_with(lines.last(), undo_point)
            &&& lines.len() == p.moves.len() + 3 <==> staying_count(p.stays) == 0
            &&& staying_count(p.stays) > 0 ==> crate::text::begins_with(
                stayed,
                decimal(staying_count(p.stays)),
            )
        }),
{
    let lines = absorbed_lines(p, undo_point);
    let label = commit_label(p.moves[i].0);
    assert(lines[2 + i] == "  "@ + label);
    assert(lines[2 + i].skip("  "@.len() as int) =~= label);
    assert(lines.last() == undo_line(undo_point));
    assert(lines.last().skip(
        "Undo all of it with: jj op restore "@.len() as int,
    ) =~= undo_point);
    if staying_count(p.stays) > 0 {
        let head = decimal(staying_count(p.stays));
        let stayed = lines[2 + p.moves.len() as int];
        assert(stayed == head + " hunks stayed in "@ + p.source.short + "."@);
        assert(stayed.take(head.len() as int) =~= head);
    }
}

} // verus!
