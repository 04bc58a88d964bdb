//! What a selection keeps of each file: the document that drives a command.

use crate::diff::HunkSelection;
use crate::names::{listed, NameMap, NameSet};
use crate::text::deep;
use std::collections::HashSet;
use vstd::prelude::*;

verus! {

broadcast use vstd::std_specs::hash::group_hash_axioms;

/// What happens to a whole file.
#[derive(Debug, Clone, Copy, PartialEq, Eq, Structural)]
pub enum Action {
    Keep,
    Reset,
}

/// What happens to a file that no entry names.
#[derive(Debug, Clone, Copy, PartialEq, Eq, Structural)]
pub enum DefaultAction {
    Keep,
    Reset,
}

impl Default for DefaultAction {
    fn default() -> (r: DefaultAction)
        ensures
            r == DefaultAction::Reset,
    {
        DefaultAction::Reset
    }
}

/// One hunk, by its position in its file or by its id.
#[derive(Debug)]
pub enum HunkSelector {
    Index(usize),
    Id(String),
}

/// The hunks of one file that are kept.
#[derive(Debug)]
pub struct HunkSpec {
    pub hunks: Vec<HunkSelector>,
    pub ids: Vec<String>,
    /// The path the file had on the left side of the diff, where it was renamed
    /// or copied.
    pub from: Option<String>,
}

/// What is kept of one file.
#[derive(Debug)]
pub enum FileSpec {
    Action { action: Action, from: Option<String> },
    Selection(HunkSpec),
}

/// What is kept of every file.
#[derive(Debug)]
pub struct Spec {
    pub files: NameMap<FileSpec>,
    pub default: DefaultAction,
}

#[verifier::ext_equal]
pub enum SelectorView {
    Index(usize),
    Id(Seq<char>),
}

#[verifier::ext_equal]
pub struct HunkSpecView {
    pub hunks: Seq<SelectorView>,
    pub ids: Seq<Seq<char>>,
    pub from: Option<Seq<char>>,
}

#[verifier::ext_equal]
pub enum FileSpecView {
    Action { action: Action, from: Option<Seq<char>> },
    Selection(HunkSpecView),
}

/// A spec: its entries in the order of their paths, and its default.
#[verifier::ext_equal]
pub struct SpecView {
    pub files: Seq<(Seq<char>, FileSpecView)>,
    pub default: DefaultAction,
}

impl DeepView for HunkSelector {
    type V = SelectorView;

    open spec fn deep_view(&self) -> SelectorView {
        match self {
            HunkSelector::Index(i) => SelectorView::Index(*i),
            HunkSelector::Id(id) => SelectorView::Id(id@),
        }
    }
}

impl DeepView for HunkSpec {
    type V = HunkSpecView;

    open spec fn deep_view(&self) -> HunkSpecView {
        HunkSpecView {
            hunks: deep(self.hunks@),
            ids: deep(self.ids@),
            from: self.from.deep_view(),
        }
    }
}

impl DeepView for FileSpec {
    type V = FileSpecView;

    open spec fn deep_view(&self) -> FileSpecView {
        match self {
            FileSpec::Action { action, from } => FileSpecView::Action {
                action: *action,
                from: from.deep_view(),
            },
            FileSpec::Selection(selection) => FileSpecView::Selection(selection.deep_view()),
        }
    }
}

impl DeepView for Spec {
    type V = SpecView;

    open spec fn deep_view(&self) -> SpecView {
        SpecView { files: listed(self.files), default: self.default }
    }
}

// ---------------------------------------------------------------------------
// One file
// ---------------------------------------------------------------------------

/// The positions a selection names.
pub open spec fn indices_of(hunks: Seq<SelectorView>) -> Set<usize> {
    Set::new(|i: usize| hunks.contains(SelectorView::Index(i)))
}

/// The ids among some selectors, in order.
pub open spec fn selector_ids(hunks: Seq<SelectorView>) -> Seq<Seq<char>>
    decreases hunks.len(),
{
    if hunks.len() == 0 {
        Seq::empty()
    } else {
        match hunks.last() {
            SelectorView::Id(id) => selector_ids(hunks.drop_last()).push(id),
            SelectorView::Index(_) => selector_ids(hunks.drop_last()),
        }
    }
}

/// The ids a selection names, listed ones first.
pub open spec fn ids_named(s: HunkSpecView) -> Seq<Seq<char>> {
    s.ids + selector_ids(s.hunks)
}

impl HunkSpec {
    /// The hunks named, as positions and ids.
    pub fn to_selection(&self) -> (r: HunkSelection)
        ensures
            r.indices@ == indices_of(self.deep_view().hunks),
            r.ids@ == ids_named(self.deep_view()).to_set(),
    {
        broadcast use crate::text::group_deep;

        let ghost view = self.deep_view();
        let mut indices: HashSet<usize> = HashSet::new();
        let mut ids = NameSet::new();
        let mut i: usize = 0;
        assert(view.ids.take(0) =~= Seq::empty());
        assert(ids@ =~= view.ids.take(0).to_set());
        while i < self.ids.len()
            invariant
                view == self.deep_view(),
                i <= self.ids.len(),
                ids@ == view.ids.take(i as int).to_set(),
            decreases self.ids.len() - i,
        {
            ids.insert(self.ids[i].clone());
            proof {
                let now = view.ids.take(i as int + 1);
                assert(now =~= view.ids.take(i as int).push(view.ids[i as int]));
                lemma_push_to_set(view.ids.take(i as int), view.ids[i as int]);
            }
            i += 1;
        }
        assert(view.ids.take(view.ids.len() as int) =~= view.ids);
        i = 0;
        assert(view.hunks.take(0) =~= Seq::empty());
        assert(view.ids + selector_ids(view.hunks.take(0)) =~= view.ids);
        assert(indices@ =~= indices_of(view.hunks.take(0)));
        while i < self.hunks.len()
            invariant
                view == self.deep_view(),
                i <= self.hunks.len(),
                ids@ == (view.ids + selector_ids(view.hunks.take(i as int))).to_set(),
                indices@ == indices_of(view.hunks.take(i as int)),
            decreases self.hunks.len() - i,
        {
            let ghost seen = view.hunks.take(i as int);
            let ghost now = view.hunks.take(i as int + 1);
            assert(now.drop_last() =~= seen);
            assert(now =~= seen.push(view.hunks[i as int]));
            match &self.hunks[i] {
                HunkSelector::Index(n) => {
                    indices.insert(*n);
                    assert(indices@ =~= indices_of(now)) by {
                        assert forall|x: usize| indices_of(now).contains(x) <==> (
                        indices_of(seen).contains(x) || x == *n) by {
                            lemma_push_contains(seen, view.hunks[i as int], SelectorView::Index(x));
                        }
                    }
                },
                HunkSelector::Id(id) => {
                    ids.insert(id.clone());
                    proof {
                        let held = view.ids + selector_ids(seen);
                        assert(view.ids + selector_ids(now) =~= held.push(id@));
                        lemma_push_to_set(held, id@);
                    }
                    assert(indices@ =~= indices_of(now)) by {
                        assert forall|x: usize| indices_of(now).contains(x) <==> indices_of(
                            seen,
                        ).contains(x) by {
                            lemma_push_contains(seen, view.hunks[i as int], SelectorView::Index(x));
                        }
                    }
                },
            }
            i += 1;
        }
        assert(view.hunks.take(view.hunks.len() as int) =~= view.hunks);
        HunkSelection { indices, ids }
    }
}

pub proof fn lemma_push_contains<T>(items: Seq<T>, item: T, x: T)
    ensures
        items.push(item).contains(x) <==> items.contains(x) || x == item,
{
    let now = items.push(item);
    if items.contains(x) {
        let k = items.index_of(x);
        assert(now[k] == x);
    }
    if x == item {
        assert(now[items.len() as int] == x);
    }
    if now.contains(x) {
        let k = now.index_of(x);
        if k < items.len() {
            assert(items[k] == x);
        }
    }
}

pub proof fn lemma_push_to_set<T>(items: Seq<T>, item: T)
    ensures
        items.push(item).to_set() == items.to_set().insert(item),
{
    assert forall|x: T| items.push(item).to_set().contains(x) <==> items.to_set().insert(
        item,
    ).contains(x) by {
        lemma_push_contains(items, item, x);
    }
    assert(items.push(item).to_set() =~= items.to_set().insert(item));
}

/// The left-hand path an entry states.
pub open spec fn source_of(f: FileSpecView) -> Option<Seq<char>> {
    match f {
        FileSpecView::Action { from, .. } => from,
        FileSpecView::Selection(s) => s.from,
    }
}

/// An entry with another left-hand path.
pub open spec fn with_source(f: FileSpecView, source: Seq<char>) -> FileSpecView {
    match f {
        FileSpecView::Action { action, .. } => FileSpecView::Action { action, from: Some(source) },
        FileSpecView::Selection(s) => FileSpecView::Selection(
            HunkSpecView { hunks: s.hunks, ids: s.ids, from: Some(source) },
        ),
    }
}

/// Whether an entry is written to keep something.
pub open spec fn means_to_keep(f: FileSpecView) -> bool {
    match f {
        FileSpecView::Action { action, .. } => action == Action::Keep,
        FileSpecView::Selection(s) => s.hunks.len() > 0 || s.ids.len() > 0,
    }
}

impl FileSpec {
    /// The path the file had on the left side of the diff, where it is stated.
    pub fn source_path(&self) -> (r: Option<&str>)
        ensures
            match r {
                Some(path) => source_of(self.deep_view()) == Some(path@),
                None => source_of(self.deep_view()) is None,
            },
    {
        let from = match self {
            FileSpec::Action { from, .. } => from,
            FileSpec::Selection(selection) => &selection.from,
        };
        match from {
            Some(path) => Some(path.as_str()),
            None => None,
        }
    }

    /// State the path the file had on the left side of the diff.
    pub fn set_source_path(&mut self, source: String)
        ensures
            final(self).deep_view() == with_source(old(self).deep_view(), source@),
    {
        match self {
            FileSpec::Action { from, .. } => {
                *from = Some(source);
            },
            FileSpec::Selection(selection) => {
                selection.from = Some(source);
            },
        }
    }

    /// Whether the entry is written to keep something.
    pub fn intends_to_keep(&self) -> (r: bool)
        ensures
            r == means_to_keep(self.deep_view()),
    {
        match self {
            FileSpec::Action { action, .. } => *action == Action::Keep,
            FileSpec::Selection(selection) => selection.hunks.len() > 0 || selection.ids.len() > 0,
        }
    }
}

// ---------------------------------------------------------------------------
// Every file
// ---------------------------------------------------------------------------

/// Whether nothing in a spec is written to keep anything.
pub open spec fn keeps_nothing(s: SpecView) -> bool {
    &&& s.default != DefaultAction::Keep
    &&& forall|i: int| 0 <= i < s.files.len() ==> !means_to_keep((#[trigger] s.files[i]).1)
}

impl Spec {
    /// Whether nothing in the spec is written to keep anything, as far as its
    /// structure says: whether what it names exists is another question.
    pub fn selects_nothing(&self) -> (r: bool)
        ensures
            r == keeps_nothing(self.deep_view()),
    {
        if self.default == DefaultAction::Keep {
            return false;
        }
        let n: usize = self.files.len();
        let mut i: usize = 0;
        while i < n
            invariant
                n == self.files.keys().len(),
                self.files.well_formed(),
                i <= n,
                self.default != DefaultAction::Keep,
                forall|j: int|
                    0 <= j < i ==> !means_to_keep((#[trigger] self.deep_view().files[j]).1),
            decreases n - i,
        {
            if self.files.value_at(i).intends_to_keep() {
                assert(means_to_keep(self.deep_view().files[i as int].1));
                return false;
            }
            i += 1;
        }
        true
    }
}

/// An entry that is not written to keep anything names no hunk.
pub proof fn an_entry_without_hunks_names_none(s: HunkSpecView)
    requires
        !means_to_keep(FileSpecView::Selection(s)),
    ensures
        indices_of(s.hunks) == Set::<usize>::empty(),
        ids_named(s).to_set() == Set::<Seq<char>>::empty(),
{
    assert(indices_of(s.hunks) =~= Set::<usize>::empty());
    assert(ids_named(s).to_set() =~= Set::<Seq<char>>::empty());
}

} // verus!
