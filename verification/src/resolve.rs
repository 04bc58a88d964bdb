//! What a spec means for the files of a diff, and whether it means anything.

use crate::diff::{named_by, AmbiguousId, Hunk, HunkSelection, HunkView};
use crate::errors::{group_shapes, Code, CodedError, CodedView, ErrorCode};
use crate::files::{moved_from, names_of, FileHunks, FileView};
use crate::names::{
    deep_map, find, less, lemma_deep_map_insert, lemma_deep_map_remove, lookup, sort, sorted,
    Keyed, NameMap,
};
use crate::node::{number_node, text_node, Node, NodeView};
use crate::paths::{problem_of, rooted, PathFrame};
use crate::revisions::{listing_of, no_details, DiffTarget, TargetView};
use crate::spec::{
    ids_named, indices_of, means_to_keep, selector_ids, source_of, with_source, Action,
    DefaultAction, FileSpec, FileSpecView, HunkSelector, HunkSpec, HunkSpecView, SelectorView,
    Spec, SpecView,
};
use crate::text::{
    begins_with, concat2, concat3, decimal, deep, group_deep, join, joined, number, same,
};
use std::collections::HashSet;
use vstd::prelude::*;

verus! {

broadcast use vstd::std_specs::hash::group_hash_axioms;

// ---------------------------------------------------------------------------
// What is kept of a file
// ---------------------------------------------------------------------------

/// What a spec says of one file.
#[derive(Debug)]
pub enum SpecDecision {
    Skip,
    KeepAll,
    KeepSelection(HunkSelection),
}

/// What a spec says of one file: the hunks that are kept, where only some are.
#[verifier::ext_equal]
pub enum Decision {
    Skip,
    KeepAll,
    KeepSelection { indices: Set<usize>, ids: Set<Seq<char>> },
}

impl SpecDecision {
    pub open spec fn shape(&self) -> Decision {
        match self {
            SpecDecision::Skip => Decision::Skip,
            SpecDecision::KeepAll => Decision::KeepAll,
            SpecDecision::KeepSelection(s) => Decision::KeepSelection {
                indices: s.indices@,
                ids: s.ids@,
            },
        }
    }
}

/// What a spec says of a file: its entry decides, or the default where it has
/// none. An entry that names no hunk keeps none.
pub open spec fn decided(spec: SpecView, path: Seq<char>) -> Decision {
    match lookup(spec.files, path) {
        Some(FileSpecView::Action { action, .. }) => if action == Action::Keep {
            Decision::KeepAll
        } else {
            Decision::Skip
        },
        Some(FileSpecView::Selection(s)) => if s.hunks.len() == 0 && s.ids.len() == 0 {
            Decision::Skip
        } else {
            Decision::KeepSelection { indices: indices_of(s.hunks), ids: ids_named(s).to_set() }
        },
        None => if spec.default == DefaultAction::Reset {
            Decision::Skip
        } else {
            Decision::KeepAll
        },
    }
}

/// What a spec says of a file; without a spec everything is kept.
pub fn spec_decision(spec: Option<&Spec>, path: &str) -> (r: SpecDecision)
    ensures
        r.shape() == (match spec {
            Some(s) => decided(s.deep_view(), path@),
            None => Decision::KeepAll,
        }),
{
    let spec = match spec {
        Some(spec) => spec,
        None => {
            return SpecDecision::KeepAll;
        },
    };
    match find(&spec.files, path) {
        Some(FileSpec::Action { action, .. }) => if *action == Action::Keep {
            SpecDecision::KeepAll
        } else {
            SpecDecision::Skip
        },
        Some(FileSpec::Selection(selection)) => {
            let chosen = selection.to_selection();
            let ghost view = selection.deep_view();
            if chosen.is_empty() {
                proof {
                    lemma_empty_selection(view);
                }
                SpecDecision::Skip
            } else {
                proof {
                    if view.hunks.len() == 0 && view.ids.len() == 0 {
                        crate::spec::an_entry_without_hunks_names_none(view);
                    }
                }
                SpecDecision::KeepSelection(chosen)
            }
        },
        None => if spec.default == DefaultAction::Reset {
            SpecDecision::Skip
        } else {
            SpecDecision::KeepAll
        },
    }
}

proof fn lemma_empty_selection(s: HunkSpecView)
    requires
        indices_of(s.hunks) == Set::<usize>::empty(),
        ids_named(s).to_set() == Set::<Seq<char>>::empty(),
    ensures
        s.hunks.len() == 0,
        s.ids.len() == 0,
{
    if s.ids.len() > 0 {
        assert(ids_named(s)[0] == s.ids[0]);
        assert(ids_named(s).to_set().contains(s.ids[0]));
    }
    if s.hunks.len() > 0 {
        match s.hunks.last() {
            SelectorView::Index(i) => {
                assert(s.hunks.contains(s.hunks[s.hunks.len() - 1]));
                assert(indices_of(s.hunks).contains(i));
            },
            SelectorView::Id(id) => {
                let ids = selector_ids(s.hunks);
                assert(ids.last() == id);
                assert(ids_named(s).last() == id);
                assert(ids_named(s).to_set().contains(id));
            },
        }
    }
}

/// Whether positions and ids name a hunk.
pub open spec fn selects(indices: Set<usize>, ids: Set<Seq<char>>, hunk: HunkView) -> bool {
    ||| indices.contains(hunk.index)
    ||| exists|id: Seq<char>| #[trigger] ids.contains(id) && begins_with(hunk.id, id)
}

/// Whether a position belongs to a hunk that is named.
pub open spec fn position_selected(
    indices: Set<usize>,
    ids: Set<Seq<char>>,
    hunks: Seq<HunkView>,
    index: usize,
) -> bool {
    exists|k: int|
        0 <= k < hunks.len() && (#[trigger] hunks[k]).index == index && selects(
            indices,
            ids,
            hunks[k],
        )
}

/// Whether some id names more than one of some hunks.
pub open spec fn any_ambiguous(ids: Set<Seq<char>>, hunks: Seq<HunkView>) -> bool {
    exists|id: Seq<char>| #[trigger] ids.contains(id) && named_by(hunks, id).len() > 1
}

/// Whether an error reports the first id, in order, that names more than one of
/// some hunks, with those hunks.
pub open spec fn reports_ambiguity(
    ids: Set<Seq<char>>,
    hunks: Seq<HunkView>,
    e: AmbiguousId,
) -> bool {
    &&& ids.contains(e.id@)
    &&& named_by(hunks, e.id@).len() > 1
    &&& deep(e.candidates@) == crate::diff::short_ids_of(named_by(hunks, e.id@))
    &&& forall|id: Seq<char>| #[trigger]
        ids.contains(id) && less(id, e.id@) ==> named_by(hunks, id).len() <= 1
}

proof fn lemma_member(members: Seq<Seq<char>>, id: Seq<char>)
    ensures
        members.to_set().contains(id) <==> exists|k: int|
            0 <= k < members.len() && #[trigger] members[k] == id,
{
    if members.to_set().contains(id) {
        assert(members.contains(id));
        let k = members.index_of(id);
        assert(members[k] == id);
    }
}

/// Resolve a selection to positions, told over the sets of what it names.
pub fn resolve_selection(selection: &HunkSelection, hunks: &Vec<Hunk>) -> (r: Result<
    HashSet<usize>,
    AmbiguousId,
>)
    ensures
        ({
            let indices = selection.indices@;
            let ids = selection.ids@;
            let views = deep(hunks@);
            match r {
                Ok(kept) => !any_ambiguous(ids, views) && forall|i: usize| #[trigger]
                    kept@.contains(i) <==> position_selected(indices, ids, views, i),
                Err(e) => reports_ambiguity(ids, views, e),
            }
        }),
{
    let ghost members = selection.ids.members();
    let ghost ids = selection.ids@;
    let ghost views = deep(hunks@);
    let n: usize = selection.ids.len();
    let r = selection.resolve(hunks);
    proof {
        match &r {
            Ok(kept) => {
                assert forall|id: Seq<char>| #[trigger] ids.contains(id) implies named_by(
                    views,
                    id,
                ).len() <= 1 by {
                    lemma_member(members, id);
                    let k = choose|k: int| 0 <= k < members.len() && #[trigger] members[k] == id;
                    assert(named_by(views, members[k]).len() <= 1);
                }
                assert forall|i: usize| #[trigger] kept@.contains(i) <==> position_selected(
                    selection.indices@,
                    ids,
                    views,
                    i,
                ) by {
                    assert forall|h: HunkView|
                        selection.names(h) == selects(selection.indices@, ids, h) by {
                        if selection.names(h) && !selection.indices@.contains(h.index) {
                            let k = choose|k: int|
                                0 <= k < members.len() && begins_with(
                                    h.id,
                                    #[trigger] members[k],
                                );
                            lemma_member(members, members[k]);
                            assert(ids.contains(members[k]));
                        }
                        if selects(selection.indices@, ids, h) && !selection.indices@.contains(
                            h.index,
                        ) {
                            let id = choose|id: Seq<char>| #[trigger]
                                ids.contains(id) && begins_with(h.id, id);
                            lemma_member(members, id);
                            let k = choose|k: int|
                                0 <= k < members.len() && #[trigger] members[k] == id;
                            assert(begins_with(h.id, members[k]));
                        }
                    }
                    if selection.positions(views).contains(i) {
                        let k = choose|k: int|
                            0 <= k < views.len() && (#[trigger] views[k]).index == i
                                && selection.names(views[k]);
                        assert(selects(selection.indices@, ids, views[k]));
                    }
                    if position_selected(selection.indices@, ids, views, i) {
                        let k = choose|k: int|
                            0 <= k < views.len() && (#[trigger] views[k]).index == i && selects(
                                selection.indices@,
                                ids,
                                views[k],
                            );
                        assert(selection.names(views[k]));
                    }
                }
            },
            Err(e) => {
                let at = choose|n: int|
                    {
                        &&& 0 <= n < members.len()
                        &&& e.id@ == #[trigger] members[n]
                        &&& named_by(views, e.id@).len() > 1
                        &&& deep(e.candidates@) == crate::diff::short_ids_of(
                            named_by(views, e.id@),
                        )
                        &&& forall|m: int|
                            0 <= m < n ==> named_by(views, #[trigger] members[m]).len() <= 1
                    };
                lemma_member(members, e.id@);
                assert(ids.contains(e.id@)) by {
                    assert(members[at] == e.id@);
                }
                assert forall|id: Seq<char>| #[trigger] ids.contains(id) && less(
                    id,
                    e.id@,
                ) implies named_by(views, id).len() <= 1 by {
                    lemma_member(members, id);
                    let k = choose|k: int| 0 <= k < members.len() && #[trigger] members[k] == id;
                    if k >= at {
                        crate::names::lemma_less_irreflexive(id);
                        if k > at {
                            assert(less(members[at], members[k]));
                            crate::names::lemma_less_transitive(id, e.id@, id);
                        }
                    }
                    assert(named_by(views, members[k]).len() <= 1);
                }
            },
        }
    }
    r
}

/// The hunks that positions and ids name, in order.
pub open spec fn kept_hunks(
    indices: Set<usize>,
    ids: Set<Seq<char>>,
    all: Seq<HunkView>,
    n: nat,
) -> Seq<HunkView>
    decreases n,
{
    if n == 0 {
        Seq::empty()
    } else {
        let rest = kept_hunks(indices, ids, all, (n - 1) as nat);
        if position_selected(indices, ids, all, all[n - 1].index) {
            rest.push(all[n - 1])
        } else {
            rest
        }
    }
}

/// Whether no two of some hunks have one position.
pub open spec fn numbered_apart(hunks: Seq<HunkView>) -> bool {
    forall|i: int, j: int|
        0 <= i < j < hunks.len() ==> (#[trigger] hunks[i]).index != (#[trigger] hunks[j]).index
}

/// Whether a hunk is named: by its position, or by a beginning of its id.
pub open spec fn is_named(indices: Set<usize>, ids: Set<Seq<char>>, hunk: HunkView) -> bool {
    indices.contains(hunk.index) || exists|n: int|
        0 <= n <= hunk.id.len() && ids.contains(#[trigger] hunk.id.take(n))
}

pub proof fn lemma_selected_where_named(
    indices: Set<usize>,
    ids: Set<Seq<char>>,
    hunks: Seq<HunkView>,
    k: int,
)
    requires
        numbered_apart(hunks),
        0 <= k < hunks.len(),
    ensures
        position_selected(indices, ids, hunks, hunks[k].index) <==> is_named(
            indices,
            ids,
            hunks[k],
        ),
{
    let h = hunks[k];
    assert(selects(indices, ids, h) <==> is_named(indices, ids, h)) by {
        if exists|id: Seq<char>| #[trigger] ids.contains(id) && begins_with(h.id, id) {
            let id = choose|id: Seq<char>| #[trigger] ids.contains(id) && begins_with(h.id, id);
            assert(h.id.take(id.len() as int) =~= id);
        }
        if exists|n: int| 0 <= n <= h.id.len() && ids.contains(#[trigger] h.id.take(n)) {
            let n = choose|n: int| 0 <= n <= h.id.len() && ids.contains(#[trigger] h.id.take(n));
            let id = h.id.take(n);
            assert(h.id.take(id.len() as int) =~= id);
            assert(begins_with(h.id, id));
        }
    }
    if position_selected(indices, ids, hunks, h.index) {
        let j = choose|j: int|
            0 <= j < hunks.len() && (#[trigger] hunks[j]).index == h.index && selects(
                indices,
                ids,
                hunks[j],
            );
        assert(j == k) by {
            if j < k {
                assert(hunks[j].index != hunks[k].index);
            }
            if k < j {
                assert(hunks[k].index != hunks[j].index);
            }
        }
    }
}

proof fn lemma_kept(
    indices: Set<usize>,
    ids: Set<Seq<char>>,
    all: Seq<HunkView>,
    n: nat,
)
    requires
        numbered_apart(all),
        n <= all.len(),
    ensures
        ({
            let kept = kept_hunks(indices, ids, all, n);
            &&& forall|k: int|
                0 <= k < n && is_named(indices, ids, #[trigger] all[k]) ==> kept.contains(all[k])
            &&& forall|i: int|
                0 <= i < kept.len() ==> is_named(indices, ids, #[trigger] kept[i]) && all.take(
                    n as int,
                ).contains(kept[i])
        }),
    decreases n,
{
    if n > 0 {
        let m = (n - 1) as nat;
        lemma_kept(indices, ids, all, m);
        lemma_selected_where_named(indices, ids, all, m as int);
        let before = kept_hunks(indices, ids, all, m);
        let kept = kept_hunks(indices, ids, all, n);
        assert forall|k: int| 0 <= k < n && is_named(
            indices,
            ids,
            #[trigger] all[k],
        ) implies kept.contains(all[k]) by {
            if k < m {
                let i = choose|i: int| 0 <= i < before.len() && before[i] == all[k];
                assert(kept[i] == all[k]);
            } else {
                assert(kept[kept.len() - 1] == all[k]);
            }
        }
        assert forall|i: int| 0 <= i < kept.len() implies is_named(
            indices,
            ids,
            #[trigger] kept[i],
        ) && all.take(n as int).contains(kept[i]) by {
            if i < before.len() {
                assert(kept[i] == before[i]);
                let few = all.take(m as int);
                let j = choose|j: int| 0 <= j < few.len() && few[j] == before[i];
                assert(all.take(n as int)[j] == kept[i]);
            } else {
                assert(all.take(n as int)[m as int] == kept[i]);
            }
        }
    }
}

proof fn lemma_kept_in_order(
    indices: Set<usize>,
    ids: Set<Seq<char>>,
    all: Seq<HunkView>,
    n: nat,
)
    requires
        forall|i: int, j: int|
            0 <= i < j < all.len() ==> (#[trigger] all[i]).index < (#[trigger] all[j]).index,
        n <= all.len(),
    ensures
        ({
            let kept = kept_hunks(indices, ids, all, n);
            &&& forall|i: int, j: int|
                0 <= i < j < kept.len() ==> (#[trigger] kept[i]).index < (#[trigger] kept[j]).index
            &&& forall|i: int, k: int|
                0 <= i < kept.len() && n <= k < all.len() ==> (#[trigger] kept[i]).index < (
                #[trigger] all[k]).index
        }),
    decreases n,
{
    if n > 0 {
        lemma_kept_in_order(indices, ids, all, (n - 1) as nat);
    }
}

/// What is kept of some hunks is what is named of them, by position or by a
/// beginning of an id, and nothing else. They stay in their order.
pub proof fn what_is_kept_is_what_is_named(
    indices: Set<usize>,
    ids: Set<Seq<char>>,
    all: Seq<HunkView>,
)
    requires
        forall|i: int, j: int|
            0 <= i < j < all.len() ==> (#[trigger] all[i]).index < (#[trigger] all[j]).index,
    ensures
        ({
            let kept = kept_hunks(indices, ids, all, all.len());
            &&& forall|h: HunkView| #[trigger]
                kept.contains(h) <==> all.contains(h) && is_named(indices, ids, h)
            &&& forall|i: int, j: int|
                0 <= i < j < kept.len() ==> (#[trigger] kept[i]).index < (#[trigger] kept[j]).index
        }),
{
    let kept = kept_hunks(indices, ids, all, all.len());
    lemma_kept(indices, ids, all, all.len());
    lemma_kept_in_order(indices, ids, all, all.len());
    assert(all.take(all.len() as int) =~= all);
    assert forall|h: HunkView| #[trigger] kept.contains(h) <==> all.contains(h) && is_named(
        indices,
        ids,
        h,
    ) by {
        if all.contains(h) && is_named(indices, ids, h) {
            let k = choose|k: int| 0 <= k < all.len() && all[k] == h;
            assert(is_named(indices, ids, all[k]));
        }
        if kept.contains(h) {
            let i = choose|i: int| 0 <= i < kept.len() && kept[i] == h;
            assert(is_named(indices, ids, kept[i]));
        }
    }
}

/// Whether a decision is to keep the hunk at a position, among others.
pub open spec fn keeps_index(d: Decision, n: usize) -> bool {
    d matches Decision::KeepSelection { indices, .. } && indices.contains(n)
}

/// Whether a decision is to keep what an id names, among others.
pub open spec fn keeps_id(d: Decision, id: Seq<char>) -> bool {
    d matches Decision::KeepSelection { ids, .. } && ids.contains(id)
}

/// An entry decides of its file, whatever the others say and whatever the
/// default is: an action of the whole, a selection of the hunks it names, and
/// one that names none of nothing.
pub proof fn an_entry_decides_of_its_file(spec: SpecView, i: int)
    requires
        0 <= i < spec.files.len(),
        forall|j: int|
            0 <= j < spec.files.len() && j != i ==> (#[trigger] spec.files[j]).0
                != spec.files[i].0,
    ensures
        match spec.files[i].1 {
            FileSpecView::Action { action: Action::Keep, .. } => decided(spec, spec.files[i].0)
                is KeepAll,
            FileSpecView::Action { action: Action::Reset, .. } => decided(spec, spec.files[i].0)
                is Skip,
            FileSpecView::Selection(s) => {
                &&& (s.hunks.len() == 0 && s.ids.len() == 0) <==> decided(spec, spec.files[i].0)
                    is Skip
                &&& !(decided(spec, spec.files[i].0) is KeepAll)
                &&& forall|n: usize| #[trigger]
                    s.hunks.contains(SelectorView::Index(n)) <==> keeps_index(
                        decided(spec, spec.files[i].0),
                        n,
                    )
                &&& forall|id: Seq<char>|
                    #![trigger s.ids.contains(id)]
                    s.ids.contains(id) || s.hunks.contains(SelectorView::Id(id)) <==> keeps_id(
                        decided(spec, spec.files[i].0),
                        id,
                    )
            },
        },
{
    crate::names::lemma_lookup(spec.files, i);
    if let FileSpecView::Selection(s) = spec.files[i].1 {
        assert forall|id: Seq<char>|
            #![trigger s.ids.contains(id)]
            s.ids.contains(id) || s.hunks.contains(SelectorView::Id(id)) <==> keeps_id(
                decided(spec, spec.files[i].0),
                id,
            ) by {
            lemma_ids_named(s, id);
            assert(ids_named(s).to_set().contains(id) <==> ids_named(s).contains(id));
        }
    }
}

proof fn lemma_ids_named(s: HunkSpecView, id: Seq<char>)
    ensures
        ids_named(s).contains(id) <==> s.ids.contains(id) || s.hunks.contains(SelectorView::Id(id)),
{
    let all = selector_ids(s.hunks);
    lemma_selector_ids(s.hunks, id);
    if s.ids.contains(id) {
        let k = choose|k: int| 0 <= k < s.ids.len() && s.ids[k] == id;
        assert(ids_named(s)[k] == id);
    }
    if all.contains(id) {
        let k = choose|k: int| 0 <= k < all.len() && all[k] == id;
        assert(ids_named(s)[s.ids.len() + k] == id);
    }
    if ids_named(s).contains(id) {
        let k = choose|k: int| 0 <= k < ids_named(s).len() && ids_named(s)[k] == id;
        if k < s.ids.len() {
            assert(s.ids[k] == id);
        } else {
            assert(all[k - s.ids.len()] == id);
        }
    }
}

proof fn lemma_selector_ids(hunks: Seq<SelectorView>, id: Seq<char>)
    ensures
        selector_ids(hunks).contains(id) <==> hunks.contains(SelectorView::Id(id)),
    decreases hunks.len(),
{
    if hunks.len() > 0 {
        let rest = hunks.drop_last();
        lemma_selector_ids(rest, id);
        let all = selector_ids(hunks);
        let before = selector_ids(rest);
        if hunks.contains(SelectorView::Id(id)) {
            let k = choose|k: int| 0 <= k < hunks.len() && hunks[k] == SelectorView::Id(id);
            if k < rest.len() {
                assert(rest[k] == SelectorView::Id(id));
                let j = choose|j: int| 0 <= j < before.len() && before[j] == id;
                assert(all[j] == id);
            } else {
                assert(all[all.len() - 1] == id);
            }
        }
        if all.contains(id) {
            let j = choose|j: int| 0 <= j < all.len() && all[j] == id;
            if j < before.len() {
                assert(before[j] == id);
                let k = choose|k: int| 0 <= k < rest.len() && rest[k] == SelectorView::Id(id);
                assert(hunks[k] == SelectorView::Id(id));
            } else {
                assert(hunks[hunks.len() - 1] == SelectorView::Id(id));
            }
        }
    }
}

/// A file that no entry names is decided by the default.
pub proof fn the_default_decides_of_the_rest(spec: SpecView, path: Seq<char>)
    requires
        forall|i: int| 0 <= i < spec.files.len() ==> (#[trigger] spec.files[i]).0 != path,
    ensures
        spec.default == DefaultAction::Keep ==> decided(spec, path) is KeepAll,
        spec.default == DefaultAction::Reset ==> decided(spec, path) is Skip,
{
    crate::names::lemma_lookup_none(spec.files, path);
}

/// Keep the hunks that a selection names.
pub fn filter_hunks(hunks: Vec<Hunk>, selection: &HunkSelection) -> (r: Result<
    Vec<Hunk>,
    AmbiguousId,
>)
    ensures
        ({
            let all = deep(hunks@);
            match r {
                Ok(kept) => !any_ambiguous(selection.ids@, all) && deep(kept@) == kept_hunks(
                    selection.indices@,
                    selection.ids@,
                    all,
                    all.len(),
                ),
                Err(e) => reports_ambiguity(selection.ids@, all, e),
            }
        }),
{
    broadcast use group_deep;

    let keep = match resolve_selection(selection, &hunks) {
        Ok(keep) => keep,
        Err(e) => {
            return Err(e);
        },
    };
    let ghost all = deep(hunks@);
    let ghost held = hunks@;
    let mut hunks = hunks;
    let mut turned: Vec<Hunk> = Vec::new();
    while hunks.len() > 0
        invariant
            all == deep(held),
            hunks@.len() + turned@.len() == held.len(),
            hunks@ == held.take(hunks@.len() as int),
            forall|i: int| 0 <= i < turned@.len() ==> turned@[i] == held[held.len() - 1 - i],
        decreases hunks.len(),
    {
        let ghost n = hunks@.len() as int;
        let one = hunks.pop().unwrap();
        assert(hunks@ =~= held.take(n - 1));
        assert(one == held[n - 1]);
        turned.push(one);
    }
    let mut kept: Vec<Hunk> = Vec::new();
    while turned.len() > 0
        invariant
            all == deep(held),
            turned@.len() <= held.len(),
            forall|i: int| 0 <= i < turned@.len() ==> turned@[i] == held[held.len() - 1 - i],
            forall|i: usize| #[trigger]
                keep@.contains(i) <==> position_selected(
                    selection.indices@,
                    selection.ids@,
                    all,
                    i,
                ),
            deep(kept@) == kept_hunks(
                selection.indices@,
                selection.ids@,
                all,
                (held.len() - turned@.len()) as nat,
            ),
        decreases turned.len(),
    {
        let ghost at = held.len() - turned@.len();
        let one = turned.pop().unwrap();
        assert(one == held[at]);
        assert(all[at] == one.deep_view());
        if keep.contains(&one.index) {
            kept.push(one);
        }
    }
    Ok(kept)
}

// ---------------------------------------------------------------------------
// Keys that cannot name a file
// ---------------------------------------------------------------------------

/// A text with what a terminal would act on escaped.
pub uninterp spec fn debug_escaped(text: Seq<char>) -> Seq<char>;

/// Escape what a terminal would act on.
///
/// Calls `str::escape_debug`. The contract claims that the outcome depends on
/// the text alone.
#[verifier::external_body]
fn escape_debug(text: &str) -> (r: String)
    ensures
        r@ == debug_escaped(text@),
{
    text.escape_debug().to_string()
}

/// What is wrong with the paths of one entry: with its key, and with the path
/// it states for the left side.
pub open spec fn path_complaints(key: Seq<char>, f: FileSpecView, depth: int) -> Seq<Seq<char>> {
    (match problem_of(key, depth) {
        Some(reason) => seq![debug_escaped(key) + ": "@ + reason],
        None => Seq::empty(),
    }) + (match source_of(f) {
        Some(from) => match problem_of(from, depth) {
            Some(reason) => seq![
                debug_escaped(key) + ": its `from` "@ + debug_escaped(from) + " "@ + reason,
            ],
            None => Seq::empty(),
        },
        None => Seq::empty(),
    })
}

/// What is wrong with the paths of some entries, in order.
pub open spec fn all_path_complaints(
    entries: Seq<(Seq<char>, FileSpecView)>,
    depth: int,
) -> Seq<Seq<char>>
    decreases entries.len(),
{
    if entries.len() == 0 {
        Seq::empty()
    } else {
        all_path_complaints(entries.drop_last(), depth) + path_complaints(
            entries.last().0,
            entries.last().1,
            depth,
        )
    }
}

/// The error for a spec with such paths.
pub open spec fn outside_workspace(complaints: Seq<Seq<char>>) -> CodedView {
    CodedView {
        code: Code::PathOutsideWorkspace,
        message: "spec names paths that cannot be in this workspace:\n  "@ + joined(
            sorted::<String>(complaints),
            "\n  "@,
        )
            + "\nA spec key is a path the way jj prints one: relative to the directory the command runs in, and inside the workspace."@,
        details: no_details(),
    }
}

/// Refuse keys that cannot name a file in this workspace, whatever their
/// entries say. Nothing here reads a diff: only the shape of a key is judged.
pub fn validate_spec_paths(spec: &Spec, frame: &PathFrame) -> (r: Result<(), CodedError>)
    ensures
        ({
            let complaints = all_path_complaints(
                spec.deep_view().files,
                frame.prefix@.len() as int,
            );
            match r {
                Ok(_) => complaints.len() == 0,
                Err(e) => complaints.len() > 0 && e.tells(outside_workspace(complaints)),
            }
        }),
{
    broadcast use {group_deep, group_shapes};

    let ghost entries = spec.deep_view().files;
    let ghost depth = frame.prefix@.len() as int;
    let mut complaints: Vec<String> = Vec::new();
    let n: usize = spec.files.len();
    let mut i: usize = 0;
    assert(entries.take(0) =~= Seq::empty());
    while i < n
        invariant
            n == spec.files.keys().len(),
            spec.files.well_formed(),
            entries == spec.deep_view().files,
            depth == frame.prefix@.len(),
            i <= n,
            deep(complaints@) == all_path_complaints(entries.take(i as int), depth),
        decreases n - i,
    {
        assert(entries.take(i as int + 1).drop_last() =~= entries.take(i as int));
        let key = spec.files.key_at(i).as_str();
        let entry = spec.files.value_at(i);
        assert(entries[i as int] == (key@, entry.deep_view()));
        let ghost before = deep(complaints@);
        let ghost first = match problem_of(key@, depth) {
            Some(reason) => seq![debug_escaped(key@) + ": "@ + reason],
            None => Seq::empty(),
        };
        match frame.path_problem(key) {
            Some(reason) => {
                complaints.push(concat3(escape_debug(key).as_str(), ": ", reason.as_str()));
            },
            None => {},
        }
        assert(deep(complaints@) =~= before + first);
        if let Some(from) = entry.source_path() {
            match frame.path_problem(from) {
                Some(reason) => {
                    let mut text = concat3(
                        escape_debug(key).as_str(),
                        ": its `from` ",
                        escape_debug(from).as_str(),
                    );
                    text.append(" ");
                    text.append(reason.as_str());
                    complaints.push(text);
                },
                None => {},
            }
        }
        assert(deep(complaints@) =~= before + path_complaints(key@, entry.deep_view(), depth));
        i += 1;
    }
    assert(entries.take(entries.len() as int) =~= entries);
    if complaints.len() == 0 {
        return Ok(());
    }
    let lines = sort(complaints);
    let mut message = concat2(
        "spec names paths that cannot be in this workspace:\n  ",
        join(&lines, "\n  ").as_str(),
    );
    message.append(
        "\nA spec key is a path the way jj prints one: relative to the directory the command runs in, and inside the workspace.",
    );
    Err(CodedError::new(ErrorCode::new(Code::PathOutsideWorkspace), message))
}

// ---------------------------------------------------------------------------
// Entries that name nothing
// ---------------------------------------------------------------------------

/// One way in which an entry fails to name something the diff contains.
#[derive(Debug)]
pub enum SpecProblem {
    RenamedTo { path: String, new_path: String },
    NoSuchPath { path: String },
    NoSuchId { path: String, id: String },
    AmbiguousId { path: String, id: String, count: usize },
    NoSuchIndex { path: String, index: usize, hunk_count: usize },
}

#[verifier::ext_equal]
pub enum ProblemView {
    RenamedTo { path: Seq<char>, new_path: Seq<char> },
    NoSuchPath { path: Seq<char> },
    NoSuchId { path: Seq<char>, id: Seq<char> },
    AmbiguousId { path: Seq<char>, id: Seq<char>, count: nat },
    NoSuchIndex { path: Seq<char>, index: usize, hunk_count: nat },
}

impl DeepView for SpecProblem {
    type V = ProblemView;

    open spec fn deep_view(&self) -> ProblemView {
        match self {
            SpecProblem::RenamedTo { path, new_path } => ProblemView::RenamedTo {
                path: path@,
                new_path: new_path@,
            },
            SpecProblem::NoSuchPath { path } => ProblemView::NoSuchPath { path: path@ },
            SpecProblem::NoSuchId { path, id } => ProblemView::NoSuchId { path: path@, id: id@ },
            SpecProblem::AmbiguousId { path, id, count } => ProblemView::AmbiguousId {
                path: path@,
                id: id@,
                count: *count as nat,
            },
            SpecProblem::NoSuchIndex { path, index, hunk_count } => ProblemView::NoSuchIndex {
                path: path@,
                index: *index,
                hunk_count: *hunk_count as nat,
            },
        }
    }
}

/// A problem in words.
pub open spec fn problem_text(p: ProblemView) -> Seq<char> {
    match p {
        ProblemView::RenamedTo { path, new_path } => path + ": renamed to "@ + new_path
            + " in this diff -- file the entry under "@ + new_path + " instead"@,
        ProblemView::NoSuchPath { path } => path + ": no such path in the diff"@,
        ProblemView::NoSuchId { path, id } => path + ": no hunk with id "@ + id,
        ProblemView::AmbiguousId { path, id, count } => path + ": id "@ + id
            + " is ambiguous, it names "@ + decimal(count) + " hunks -- use a longer prefix"@,
        ProblemView::NoSuchIndex { path, index, hunk_count } => path + ": no hunk with index "@
            + decimal(index as nat) + " (file has "@ + decimal(hunk_count) + ")"@,
    }
}

/// A problem as structure.
pub open spec fn problem_node(p: ProblemView) -> NodeView {
    NodeView::Object(
        match p {
            ProblemView::RenamedTo { path, new_path } => seq![
                ("kind"@, text_node("renamed"@)),
                ("path"@, text_node(path)),
                ("renamed_to"@, text_node(new_path)),
            ],
            ProblemView::NoSuchPath { path } => seq![
                ("kind"@, text_node("no-such-path"@)),
                ("path"@, text_node(path)),
            ],
            ProblemView::NoSuchId { path, id } => seq![
                ("id"@, text_node(id)),
                ("kind"@, text_node("no-such-id"@)),
                ("path"@, text_node(path)),
            ],
            ProblemView::AmbiguousId { path, id, count } => seq![
                ("count"@, number_node(count)),
                ("id"@, text_node(id)),
                ("kind"@, text_node("ambiguous-id"@)),
                ("path"@, text_node(path)),
            ],
            ProblemView::NoSuchIndex { path, index, hunk_count } => seq![
                ("hunk_count"@, number_node(hunk_count)),
                ("index"@, number_node(index as nat)),
                ("kind"@, text_node("no-such-index"@)),
                ("path"@, text_node(path)),
            ],
        },
    )
}

impl SpecProblem {
    /// The line this problem contributes to a message.
    pub fn message(&self) -> (r: String)
        ensures
            r@ == problem_text(self.deep_view()),
    {
        match self {
            SpecProblem::RenamedTo { path, new_path } => {
                let mut out = concat3(path.as_str(), ": renamed to ", new_path.as_str());
                out.append(" in this diff -- file the entry under ");
                out.append(new_path.as_str());
                out.append(" instead");
                out
            },
            SpecProblem::NoSuchPath { path } => concat2(
                path.as_str(),
                ": no such path in the diff",
            ),
            SpecProblem::NoSuchId { path, id } => concat3(
                path.as_str(),
                ": no hunk with id ",
                id.as_str(),
            ),
            SpecProblem::AmbiguousId { path, id, count } => {
                let mut out = concat3(path.as_str(), ": id ", id.as_str());
                out.append(" is ambiguous, it names ");
                out.append(number(*count).as_str());
                out.append(" hunks -- use a longer prefix");
                out
            },
            SpecProblem::NoSuchIndex { path, index, hunk_count } => {
                let mut out = concat3(
                    path.as_str(),
                    ": no hunk with index ",
                    number(*index).as_str(),
                );
                out.append(" (file has ");
                out.append(number(*hunk_count).as_str());
                out.append(")");
                out
            },
        }
    }

    /// The problem as structure.
    pub fn to_json(&self) -> (r: Node)
        ensures
            r.shape() == problem_node(self.deep_view()),
    {
        let mut entries: Vec<(String, Node)> = Vec::new();
        match self {
            SpecProblem::RenamedTo { path, new_path } => {
                entries.push(("kind".to_owned(), Node::text("renamed")));
                entries.push(("path".to_owned(), Node::text(path.as_str())));
                entries.push(("renamed_to".to_owned(), Node::text(new_path.as_str())));
            },
            SpecProblem::NoSuchPath { path } => {
                entries.push(("kind".to_owned(), Node::text("no-such-path")));
                entries.push(("path".to_owned(), Node::text(path.as_str())));
            },
            SpecProblem::NoSuchId { path, id } => {
                entries.push(("id".to_owned(), Node::text(id.as_str())));
                entries.push(("kind".to_owned(), Node::text("no-such-id")));
                entries.push(("path".to_owned(), Node::text(path.as_str())));
            },
            SpecProblem::AmbiguousId { path, id, count } => {
                entries.push(("count".to_owned(), Node::number(*count)));
                entries.push(("id".to_owned(), Node::text(id.as_str())));
                entries.push(("kind".to_owned(), Node::text("ambiguous-id")));
                entries.push(("path".to_owned(), Node::text(path.as_str())));
            },
            SpecProblem::NoSuchIndex { path, index, hunk_count } => {
                entries.push(("hunk_count".to_owned(), Node::number(*hunk_count)));
                entries.push(("index".to_owned(), Node::number(*index)));
                entries.push(("kind".to_owned(), Node::text("no-such-index")));
                entries.push(("path".to_owned(), Node::text(path.as_str())));
            },
        }
        let r = Node::Object(entries);
        assert(r.shape()->Object_0 =~= problem_node(self.deep_view())->Object_0);
        r
    }
}

impl Keyed for SpecProblem {
    open spec fn key_of(v: ProblemView) -> Seq<char> {
        problem_text(v)
    }

    fn key(&self) -> (r: String) {
        self.message()
    }
}

/// The file of a diff with a path; the last one where there are several.
pub open spec fn file_at(files: Seq<FileView>, path: Seq<char>) -> Option<FileView>
    decreases files.len(),
{
    if files.len() == 0 {
        None
    } else if files.last().path == path {
        Some(files.last())
    } else {
        file_at(files.drop_last(), path)
    }
}

/// Where the first file that was moved away from a path is now.
pub open spec fn moved_to(files: Seq<FileView>, path: Seq<char>) -> Option<Seq<char>>
    decreases files.len(),
{
    if files.len() == 0 {
        None
    } else if moved_to(files.drop_last(), path) is Some {
        moved_to(files.drop_last(), path)
    } else if moved_from(files.last().rename, files.last().path) == Some(path) {
        Some(files.last().path)
    } else {
        None
    }
}

/// The ids that name no hunk of a file, or several.
pub open spec fn id_problems(
    path: Seq<char>,
    hunks: Seq<HunkView>,
    ids: Seq<Seq<char>>,
) -> Seq<ProblemView>
    decreases ids.len(),
{
    if ids.len() == 0 {
        Seq::empty()
    } else {
        let rest = id_problems(path, hunks, ids.drop_last());
        let count = named_by(hunks, ids.last()).len();
        if count == 0 {
            rest.push(ProblemView::NoSuchId { path, id: ids.last() })
        } else if count == 1 {
            rest
        } else {
            rest.push(ProblemView::AmbiguousId { path, id: ids.last(), count })
        }
    }
}

/// Whether some hunk has a position.
pub open spec fn has_index(hunks: Seq<HunkView>, index: usize) -> bool {
    exists|i: int| 0 <= i < hunks.len() && (#[trigger] hunks[i]).index == index
}

/// The positions that no hunk of a file has.
pub open spec fn index_problems(
    path: Seq<char>,
    hunks: Seq<HunkView>,
    selectors: Seq<SelectorView>,
) -> Seq<ProblemView>
    decreases selectors.len(),
{
    if selectors.len() == 0 {
        Seq::empty()
    } else {
        let rest = index_problems(path, hunks, selectors.drop_last());
        match selectors.last() {
            SelectorView::Index(index) if !has_index(hunks, index) => rest.push(
                ProblemView::NoSuchIndex { path, index, hunk_count: hunks.len() },
            ),
            _ => rest,
        }
    }
}

/// What is wrong with one entry, whatever the others say: a key that is only
/// the path a file was moved from, hunks of a file that is not there, and hunks
/// that the file does not have.
pub open spec fn entry_problems(
    path: Seq<char>,
    f: FileSpecView,
    files: Seq<FileView>,
) -> Seq<ProblemView> {
    match file_at(files, path) {
        None => match moved_to(files, path) {
            Some(new_path) => seq![ProblemView::RenamedTo { path, new_path }],
            None => if means_to_keep(f) && f is Selection {
                seq![ProblemView::NoSuchPath { path }]
            } else {
                Seq::empty()
            },
        },
        Some(file) => match f {
            FileSpecView::Selection(s) => id_problems(path, file.hunks, ids_named(s))
                + index_problems(path, file.hunks, s.hunks),
            FileSpecView::Action { .. } => Seq::empty(),
        },
    }
}

/// Whether an entry keeps a file whole that is not there: idle, as long as some
/// other entry keeps something.
pub open spec fn is_idle(path: Seq<char>, f: FileSpecView, files: Seq<FileView>) -> bool {
    file_at(files, path) is None && moved_to(files, path) is None && means_to_keep(f) && f is Action
}

/// What is wrong with every entry on its own.
pub open spec fn problems_of(
    entries: Seq<(Seq<char>, FileSpecView)>,
    files: Seq<FileView>,
) -> Seq<ProblemView>
    decreases entries.len(),
{
    if entries.len() == 0 {
        Seq::empty()
    } else {
        problems_of(entries.drop_last(), files) + entry_problems(
            entries.last().0,
            entries.last().1,
            files,
        )
    }
}

/// The idle entries.
pub open spec fn idle_entries(
    entries: Seq<(Seq<char>, FileSpecView)>,
    files: Seq<FileView>,
) -> Seq<ProblemView>
    decreases entries.len(),
{
    if entries.len() == 0 {
        Seq::empty()
    } else {
        let rest = idle_entries(entries.drop_last(), files);
        if is_idle(entries.last().0, entries.last().1, files) {
            rest.push(ProblemView::NoSuchPath { path: entries.last().0 })
        } else {
            rest
        }
    }
}

/// Whether an entry that is written to keep something names a file of the diff.
pub open spec fn keeps_a_file(
    entries: Seq<(Seq<char>, FileSpecView)>,
    files: Seq<FileView>,
) -> bool {
    exists|i: int|
        0 <= i < entries.len() && means_to_keep((#[trigger] entries[i]).1) && file_at(
            files,
            entries[i].0,
        ) is Some
}

/// Every problem of a spec, in the order of their texts. An idle entry is one
/// where nothing in the spec keeps anything real.
pub open spec fn spec_problems(spec: SpecView, files: Seq<FileView>) -> Seq<ProblemView> {
    sorted::<SpecProblem>(
        problems_of(spec.files, files) + (if !keeps_a_file(spec.files, files) && spec.default
            != DefaultAction::Keep {
            idle_entries(spec.files, files)
        } else {
            Seq::empty()
        }),
    )
}

pub open spec fn problem_texts(problems: Seq<ProblemView>) -> Seq<Seq<char>> {
    Seq::new(problems.len(), |i: int| problem_text(problems[i]))
}

pub open spec fn problem_nodes(problems: Seq<ProblemView>) -> Seq<NodeView> {
    Seq::new(problems.len(), |i: int| problem_node(problems[i]))
}

/// The error for a spec with problems.
pub open spec fn unresolved_spec(problems: Seq<ProblemView>, target: TargetView) -> CodedView {
    CodedView {
        code: Code::PathNotInDiff,
        message: "spec does not resolve against the diff:\n  "@ + joined(
            problem_texts(problems),
            "\n  "@,
        )
            + "\nThose entries do not name exactly what they meant to. Check them against `"@
            + listing_of(target) + " --spec-template`."@,
        details: no_details().insert("problems"@, NodeView::Array(problem_nodes(problems))).insert(
            "listing_command"@,
            text_node(listing_of(target)),
        ),
    }
}

fn find_file<'a>(files: &'a Vec<FileHunks>, path: &str) -> (r: Option<&'a FileHunks>)
    ensures
        match r {
            Some(f) => file_at(deep(files@), path@) == Some(f.deep_view()),
            None => file_at(deep(files@), path@) is None,
        },
{
    let ghost views = deep(files@);
    let mut i: usize = files.len();
    assert(views.take(i as int) =~= views);
    while i > 0
        invariant
            views == deep(files@),
            i <= files.len(),
            file_at(views, path@) == file_at(views.take(i as int), path@),
        decreases i,
    {
        assert(views.take(i as int).drop_last() =~= views.take(i as int - 1));
        assert(views.take(i as int).last() == files@[i - 1].deep_view());
        i -= 1;
        if same(files[i].path.as_str(), path) {
            return Some(&files[i]);
        }
    }
    None
}

fn find_moved(files: &Vec<FileHunks>, path: &str) -> (r: Option<String>)
    ensures
        r.deep_view() == moved_to(deep(files@), path@),
{
    let ghost views = deep(files@);
    let mut i: usize = 0;
    assert(views.take(0) =~= Seq::empty());
    while i < files.len()
        invariant
            views == deep(files@),
            i <= files.len(),
            moved_to(views.take(i as int), path@) is None,
        decreases files.len() - i,
    {
        assert(views.take(i as int + 1).drop_last() =~= views.take(i as int));
        if let Some(from) = files[i].rename_source() {
            if same(from, path) {
                proof {
                    lemma_moved_to(views, path@, i as int + 1);
                }
                return Some(files[i].path.clone());
            }
        }
        i += 1;
    }
    assert(views.take(views.len() as int) =~= views);
    None
}

proof fn lemma_moved_to(files: Seq<FileView>, path: Seq<char>, n: int)
    requires
        0 <= n <= files.len(),
        moved_to(files.take(n), path) is Some,
    ensures
        moved_to(files, path) == moved_to(files.take(n), path),
    decreases files.len(),
{
    if n < files.len() {
        assert(files.drop_last().take(n) =~= files.take(n));
        lemma_moved_to(files.drop_last(), path, n);
    } else {
        assert(files.take(n) =~= files);
    }
}

fn count_named(hunks: &Vec<Hunk>, id: &str) -> (n: usize)
    ensures
        n == named_by(deep(hunks@), id@).len(),
{
    let ghost views = deep(hunks@);
    let mut n: usize = 0;
    let mut i: usize = 0;
    assert(views.take(0) =~= Seq::empty());
    while i < hunks.len()
        invariant
            views == deep(hunks@),
            i <= hunks.len(),
            n <= i,
            n == named_by(views.take(i as int), id@).len(),
        decreases hunks.len() - i,
    {
        assert(views.take(i as int + 1).drop_last() =~= views.take(i as int));
        if crate::diff::id_matches(id, hunks[i].id.as_str()) {
            n += 1;
        }
        i += 1;
    }
    assert(views.take(views.len() as int) =~= views);
    n
}

fn index_taken(hunks: &Vec<Hunk>, index: usize) -> (r: bool)
    ensures
        r == has_index(deep(hunks@), index),
{
    let ghost views = deep(hunks@);
    let mut i: usize = 0;
    while i < hunks.len()
        invariant
            views == deep(hunks@),
            i <= hunks.len(),
            forall|j: int| 0 <= j < i ==> (#[trigger] views[j]).index != index,
        decreases hunks.len() - i,
    {
        if hunks[i].index == index {
            assert(views[i as int].index == index);
            return true;
        }
        i += 1;
    }
    false
}

fn push_id_problem(problems: &mut Vec<SpecProblem>, path: &str, hunks: &Vec<Hunk>, id: &str)
    ensures
        ({
            let count = named_by(deep(hunks@), id@).len();
            deep(final(problems)@) == deep(old(problems)@) + (if count == 0 {
                seq![ProblemView::NoSuchId { path: path@, id: id@ }]
            } else if count == 1 {
                Seq::empty()
            } else {
                seq![ProblemView::AmbiguousId { path: path@, id: id@, count }]
            })
        }),
{
    broadcast use group_deep;

    let n = count_named(hunks, id);
    let ghost before = deep(problems@);
    if n == 0 {
        problems.push(SpecProblem::NoSuchId { path: path.to_owned(), id: id.to_owned() });
    } else if n > 1 {
        problems.push(
            SpecProblem::AmbiguousId { path: path.to_owned(), id: id.to_owned(), count: n },
        );
    }
    assert(deep(problems@) =~= before + (if n == 0 {
        seq![ProblemView::NoSuchId { path: path@, id: id@ }]
    } else if n == 1 {
        Seq::empty()
    } else {
        seq![ProblemView::AmbiguousId { path: path@, id: id@, count: n as nat }]
    }));
}

proof fn lemma_id_problems_add(
    path: Seq<char>,
    hunks: Seq<HunkView>,
    a: Seq<Seq<char>>,
    b: Seq<Seq<char>>,
)
    ensures
        id_problems(path, hunks, a + b) == id_problems(path, hunks, a) + id_problems(
            path,
            hunks,
            b,
        ),
    decreases b.len(),
{
    if b.len() == 0 {
        assert(a + b =~= a);
        assert(id_problems(path, hunks, a) + id_problems(path, hunks, b) =~= id_problems(
            path,
            hunks,
            a,
        ));
    } else {
        assert((a + b).drop_last() =~= a + b.drop_last());
        lemma_id_problems_add(path, hunks, a, b.drop_last());
        let front = id_problems(path, hunks, a);
        assert(id_problems(path, hunks, a + b) =~= front + id_problems(path, hunks, b));
    }
}

/// Report the hunks of a selection that a file does not have.
fn check_selection(
    problems: &mut Vec<SpecProblem>,
    path: &str,
    selection: &HunkSpec,
    hunks: &Vec<Hunk>,
)
    ensures
        deep(final(problems)@) == deep(old(problems)@) + (id_problems(
            path@,
            deep(hunks@),
            ids_named(selection.deep_view()),
        ) + index_problems(path@, deep(hunks@), selection.deep_view().hunks)),
{
    broadcast use group_deep;

    let ghost before = deep(problems@);
    let ghost held = deep(hunks@);
    let ghost view = selection.deep_view();
    let mut i: usize = 0;
    assert(view.ids.take(0) =~= Seq::empty());
    assert(before + id_problems(path@, held, view.ids.take(0)) =~= before);
    while i < selection.ids.len()
        invariant
            held == deep(hunks@),
            view == selection.deep_view(),
            i <= selection.ids.len(),
            deep(problems@) == before + id_problems(path@, held, view.ids.take(i as int)),
        decreases selection.ids.len() - i,
    {
        let ghost now = view.ids.take(i as int + 1);
        let ghost seen = deep(problems@);
        assert(now.drop_last() =~= view.ids.take(i as int));
        push_id_problem(problems, path, hunks, selection.ids[i].as_str());
        assert(deep(problems@) =~= before + id_problems(path@, held, now));
        i += 1;
    }
    assert(view.ids.take(view.ids.len() as int) =~= view.ids);
    let ghost first = id_problems(path@, held, view.ids);
    i = 0;
    assert(view.hunks.take(0) =~= Seq::empty());
    assert(before + first + id_problems(path@, held, selector_ids(view.hunks.take(0))) =~= before
        + first);
    while i < selection.hunks.len()
        invariant
            held == deep(hunks@),
            view == selection.deep_view(),
            first == id_problems(path@, held, view.ids),
            i <= selection.hunks.len(),
            deep(problems@) == before + first + id_problems(
                path@,
                held,
                selector_ids(view.hunks.take(i as int)),
            ),
        decreases selection.hunks.len() - i,
    {
        let ghost now = view.hunks.take(i as int + 1);
        assert(now.drop_last() =~= view.hunks.take(i as int));
        if let HunkSelector::Id(id) = &selection.hunks[i] {
            let ghost ids = selector_ids(view.hunks.take(i as int));
            assert(ids.push(id@).drop_last() =~= ids);
            push_id_problem(problems, path, hunks, id.as_str());
            assert(deep(problems@) =~= before + first + id_problems(path@, held, ids.push(id@)));
        }
        i += 1;
    }
    assert(view.hunks.take(view.hunks.len() as int) =~= view.hunks);
    proof {
        lemma_id_problems_add(path@, held, view.ids, selector_ids(view.hunks));
    }
    let ghost named = id_problems(path@, held, ids_named(view));
    assert(deep(problems@) =~= before + named);
    i = 0;
    assert(before + named + index_problems(path@, held, view.hunks.take(0)) =~= before + named);
    while i < selection.hunks.len()
        invariant
            held == deep(hunks@),
            view == selection.deep_view(),
            i <= selection.hunks.len(),
            deep(problems@) == before + named + index_problems(
                path@,
                held,
                view.hunks.take(i as int),
            ),
        decreases selection.hunks.len() - i,
    {
        let ghost now = view.hunks.take(i as int + 1);
        assert(now.drop_last() =~= view.hunks.take(i as int));
        let ghost seen = index_problems(path@, held, view.hunks.take(i as int));
        if let HunkSelector::Index(index) = &selection.hunks[i] {
            if !index_taken(hunks, *index) {
                let one = SpecProblem::NoSuchIndex {
                    path: path.to_owned(),
                    index: *index,
                    hunk_count: hunks.len(),
                };
                assert((before + named + seen).push(one.deep_view()) =~= before + named
                    + seen.push(one.deep_view()));
                problems.push(one);
            }
        }
        i += 1;
    }
    assert(view.hunks.take(view.hunks.len() as int) =~= view.hunks);
    assert(deep(problems@) =~= before + (named + index_problems(path@, held, view.hunks)));
}

/// Check that a spec refers to the diff it is to be applied to.
///
/// Always reported: an id or a position that the file does not have, a key that
/// is only the path a file was moved from, and hunks of a file that is not
/// there. A bare keep of a file that is not there is reported where nothing in
/// the spec keeps anything real: an allowlist may outlive some of its entries,
/// but a spec none of whose paths appear would quietly select nothing.
pub fn validate_spec_resolves(
    spec: &Spec,
    file_hunks: &Vec<FileHunks>,
    target: &DiffTarget,
) -> (r: Result<(), CodedError>)
    ensures
        ({
            let problems = spec_problems(spec.deep_view(), deep(file_hunks@));
            match r {
                Ok(_) => problems.len() == 0,
                Err(e) => problems.len() > 0 && e.tells(
                    unresolved_spec(problems, target.deep_view()),
                ),
            }
        }),
{
    broadcast use {group_deep, group_shapes};

    let ghost files = deep(file_hunks@);
    let ghost entries = spec.deep_view().files;
    let mut problems: Vec<SpecProblem> = Vec::new();
    let mut idle: Vec<SpecProblem> = Vec::new();
    let mut keeps_real = false;
    let n: usize = spec.files.len();
    let mut i: usize = 0;
    assert(entries.take(0) =~= Seq::empty());
    while i < n
        invariant
            n == spec.files.keys().len(),
            spec.files.well_formed(),
            files == deep(file_hunks@),
            entries == spec.deep_view().files,
            i <= n,
            deep(problems@) == problems_of(entries.take(i as int), files),
            deep(idle@) == idle_entries(entries.take(i as int), files),
            keeps_real == (exists|j: int|
                0 <= j < i && means_to_keep((#[trigger] entries[j]).1) && file_at(
                    files,
                    entries[j].0,
                ) is Some),
        decreases n - i,
    {
        let ghost now = entries.take(i as int + 1);
        assert(now.drop_last() =~= entries.take(i as int));
        let path = spec.files.key_at(i).as_str();
        let entry = spec.files.value_at(i);
        assert(entries[i as int] == (path@, entry.deep_view()));
        let ghost before = deep(problems@);
        let ghost found = entry_problems(path@, entry.deep_view(), files);
        let keeps = entry.intends_to_keep();
        match find_file(file_hunks, path) {
            None => match find_moved(file_hunks, path) {
                Some(new_path) => {
                    problems.push(SpecProblem::RenamedTo { path: path.to_owned(), new_path });
                    assert(deep(problems@) =~= before + found);
                },
                None => {
                    if keeps {
                        match entry {
                            FileSpec::Selection(_) => {
                                problems.push(SpecProblem::NoSuchPath { path: path.to_owned() });
                            },
                            FileSpec::Action { .. } => {
                                idle.push(SpecProblem::NoSuchPath { path: path.to_owned() });
                            },
                        }
                    }
                    assert(deep(problems@) =~= before + found);
                },
            },
            Some(file) => {
                if keeps {
                    assert(means_to_keep(entries[i as int].1) && file_at(
                        files,
                        entries[i as int].0,
                    ) is Some);
                    keeps_real = true;
                }
                match entry {
                    FileSpec::Selection(selection) => {
                        check_selection(&mut problems, path, selection, &file.hunks);
                    },
                    FileSpec::Action { .. } => {},
                }
                assert(deep(problems@) =~= before + found);
            },
        }
        i += 1;
    }
    assert(entries.take(entries.len() as int) =~= entries);
    assert(keeps_real == keeps_a_file(entries, files));
    let ghost shown = deep(problems@);
    if !keeps_real && spec.default != DefaultAction::Keep {
        let ghost more = deep(idle@);
        problems.append(&mut idle);
        assert(deep(problems@) =~= shown + more);
    } else {
        assert(shown + Seq::<ProblemView>::empty() =~= shown);
    }
    let ghost all = deep(problems@);
    let empty = problems.len() == 0;
    let ordered = sort(problems);
    if empty {
        return Ok(());
    }
    Err(spec_error(&ordered, target))
}

fn spec_error(problems: &Vec<SpecProblem>, target: &DiffTarget) -> (r: CodedError)
    ensures
        r.tells(unresolved_spec(deep(problems@), target.deep_view())),
{
    broadcast use group_shapes;

    let ghost views = deep(problems@);
    let mut lines: Vec<String> = Vec::new();
    let mut nodes: Vec<Node> = Vec::new();
    let mut i: usize = 0;
    while i < problems.len()
        invariant
            views == deep(problems@),
            i <= problems.len(),
            lines@.len() == i,
            nodes@.len() == i,
            forall|j: int| 0 <= j < i ==> (#[trigger] lines@[j])@ == problem_text(views[j]),
            forall|j: int| 0 <= j < i ==> (#[trigger] nodes@[j]).shape() == problem_node(views[j]),
        decreases problems.len() - i,
    {
        lines.push(problems[i].message());
        nodes.push(problems[i].to_json());
        i += 1;
    }
    assert(deep(lines@) =~= problem_texts(views));
    let array = Node::Array(nodes);
    assert(array.shape()->Array_0 =~= problem_nodes(views));
    let listing = target.listing_command();
    let mut message = concat2(
        "spec does not resolve against the diff:\n  ",
        join(&lines, "\n  ").as_str(),
    );
    message.append(
        "\nThose entries do not name exactly what they meant to. Check them against `",
    );
    message.append(listing.as_str());
    message.append(" --spec-template`.");
    CodedError::new(ErrorCode::new(Code::PathNotInDiff), message).with("problems", array).with(
        "listing_command",
        Node::text(listing.as_str()),
    )
}

// ---------------------------------------------------------------------------
// Where files came from
// ---------------------------------------------------------------------------

/// The entries with the path one file was moved from filled in, where its entry
/// states none.
pub open spec fn filled_from(
    m: Map<Seq<char>, FileSpecView>,
    f: FileView,
) -> Map<Seq<char>, FileSpecView> {
    match moved_from(f.rename, f.path) {
        Some(source) if m.dom().contains(f.path) && source_of(m[f.path]) is None => m.insert(
            f.path,
            with_source(m[f.path], source),
        ),
        _ => m,
    }
}

/// The entries with the path every moved file came from filled in.
pub open spec fn filled_throughout(
    m: Map<Seq<char>, FileSpecView>,
    files: Seq<FileView>,
) -> Map<Seq<char>, FileSpecView>
    decreases files.len(),
{
    if files.len() == 0 {
        m
    } else {
        filled_from(filled_throughout(m, files.drop_last()), files.last())
    }
}

/// Whether a file was moved and its entry does not say from where.
pub open spec fn lacks_source(m: Map<Seq<char>, FileSpecView>, f: FileView) -> bool {
    moved_from(f.rename, f.path) is Some && m.dom().contains(f.path) && source_of(m[f.path]) is None
}

/// Whether filling in changes any entry.
pub open spec fn any_filled(m: Map<Seq<char>, FileSpecView>, files: Seq<FileView>) -> bool
    decreases files.len(),
{
    files.len() > 0 && (any_filled(m, files.drop_last()) || lacks_source(
        filled_throughout(m, files.drop_last()),
        files.last(),
    ))
}

proof fn lemma_still_lacking(m: Map<Seq<char>, FileSpecView>, files: Seq<FileView>, path: Seq<char>)
    ensures
        filled_throughout(m, files).dom() == m.dom(),
        m.dom().contains(path) && source_of(m[path]) is Some ==> source_of(
            filled_throughout(m, files)[path],
        ) is Some,
    decreases files.len(),
{
    if files.len() > 0 {
        lemma_still_lacking(m, files.drop_last(), path);
        let rest = filled_throughout(m, files.drop_last());
        assert(filled_from(rest, files.last()).dom() =~= rest.dom());
    }
}

/// Attach the left-hand path of every moved file whose entry states none, and
/// say whether any was attached.
///
/// Without it, what was there before cannot be found, and the change is taken
/// for an insertion of the whole file. A path that is stated is kept.
pub fn fill_rename_sources(spec: &mut Spec, file_hunks: &Vec<FileHunks>) -> (filled: bool)
    ensures
        deep_map(final(spec).files) == filled_throughout(
            deep_map(old(spec).files),
            deep(file_hunks@),
        ),
        final(spec).default == old(spec).default,
        filled == any_filled(deep_map(old(spec).files), deep(file_hunks@)),
{
    let ghost files = deep(file_hunks@);
    let ghost start = deep_map(old(spec).files);
    let mut filled = false;
    let mut i: usize = 0;
    assert(files.take(0) =~= Seq::empty());
    while i < file_hunks.len()
        invariant
            files == deep(file_hunks@),
            i <= file_hunks.len(),
            deep_map(spec.files) == filled_throughout(start, files.take(i as int)),
            spec.default == old(spec).default,
            filled == any_filled(start, files.take(i as int)),
        decreases file_hunks.len() - i,
    {
        assert(files.take(i as int + 1).drop_last() =~= files.take(i as int));
        let file = &file_hunks[i];
        assert(files[i as int] == file.deep_view());
        let ghost now = deep_map(spec.files);
        if let Some(source) = file.rename_source() {
            if fill_one(spec, file.path.as_str(), source) {
                filled = true;
            }
        }
        i += 1;
    }
    assert(files.take(files.len() as int) =~= files);
    filled
}

fn fill_one(spec: &mut Spec, path: &str, source: &str) -> (r: bool)
    ensures
        ({
            let m = deep_map(old(spec).files);
            let lacking = m.dom().contains(path@) && source_of(m[path@]) is None;
            &&& r == lacking
            &&& deep_map(final(spec).files) == (if lacking {
                m.insert(path@, with_source(m[path@], source@))
            } else {
                m
            })
            &&& final(spec).default == old(spec).default
        }),
{
    let ghost m = deep_map(spec.files);
    let ghost was = spec.files;
    let lacking = match spec.files.get(path) {
        Some(entry) => entry.source_path().is_none(),
        None => false,
    };
    if !lacking {
        return false;
    }
    match spec.files.remove(path) {
        Some(entry) => {
            let mut entry = entry;
            let ghost held = entry.deep_view();
            let ghost mid = spec.files;
            proof {
                lemma_deep_map_remove(was, mid, path@);
            }
            entry.set_source_path(source.to_owned());
            let ghost kept = entry;
            spec.files.insert(path.to_owned(), entry);
            proof {
                lemma_deep_map_insert(mid, spec.files, path@, kept);
                assert(m.remove(path@).insert(path@, kept.deep_view()) =~= m.insert(
                    path@,
                    kept.deep_view(),
                ));
            }
            true
        },
        None => false,
    }
}

/// An entry that states where its file came from keeps what it states.
pub proof fn a_stated_source_is_kept(
    m: Map<Seq<char>, FileSpecView>,
    files: Seq<FileView>,
    path: Seq<char>,
)
    requires
        m.dom().contains(path),
        source_of(m[path]) is Some,
    ensures
        filled_throughout(m, files).dom().contains(path),
        filled_throughout(m, files)[path] == m[path],
    decreases files.len(),
{
    if files.len() > 0 {
        a_stated_source_is_kept(m, files.drop_last(), path);
    }
}

/// After filling in, the entry of every moved file says where it came from.
pub proof fn every_moved_file_has_a_source(
    m: Map<Seq<char>, FileSpecView>,
    files: Seq<FileView>,
    i: int,
)
    requires
        0 <= i < files.len(),
        moved_from(files[i].rename, files[i].path) is Some,
        m.dom().contains(files[i].path),
    ensures
        source_of(filled_throughout(m, files)[files[i].path]) is Some,
    decreases files.len(),
{
    let path = files[i].path;
    let front = files.drop_last();
    lemma_still_lacking(m, front, path);
    if i < front.len() {
        assert(front[i] == files[i]);
        every_moved_file_has_a_source(m, front, i);
    }
}

// ---------------------------------------------------------------------------
// Frames
// ---------------------------------------------------------------------------

/// A printed path with the path from the root of the same file, where there is
/// one.
pub open spec fn framed(prefix: Seq<Seq<char>>, names: Seq<Seq<char>>) -> Seq<
    (Seq<char>, Seq<char>),
>
    decreases names.len(),
{
    if names.len() == 0 {
        Seq::empty()
    } else {
        let rest = framed(prefix, names.drop_last());
        match rooted(prefix, names.last()) {
            Some(root) => rest.push((names.last(), root)),
            None => rest,
        }
    }
}

/// Every path a spec could name in a diff, with the path from the root of the
/// same file.
pub open spec fn pairs_of(prefix: Seq<Seq<char>>, files: Seq<FileView>) -> Seq<
    (Seq<char>, Seq<char>),
>
    decreases files.len(),
{
    if files.len() == 0 {
        Seq::empty()
    } else {
        pairs_of(prefix, files.drop_last()) + framed(prefix, names_of(files.last()))
    }
}

pub open spec fn pair_views(pairs: Seq<(String, String)>) -> Seq<(Seq<char>, Seq<char>)> {
    Seq::new(pairs.len(), |i: int| (pairs[i].0@, pairs[i].1@))
}

/// Every path a spec could name in a diff, with the path from the root of the
/// same file.
pub fn frame_pairs(file_hunks: &Vec<FileHunks>, frame: &PathFrame) -> (pairs: Vec<
    (String, String),
>)
    ensures
        pair_views(pairs@) == pairs_of(deep(frame.prefix@), deep(file_hunks@)),
{
    let ghost prefix = deep(frame.prefix@);
    let ghost files = deep(file_hunks@);
    let mut pairs: Vec<(String, String)> = Vec::new();
    let mut i: usize = 0;
    assert(files.take(0) =~= Seq::empty());
    assert(pair_views(pairs@) =~= Seq::empty());
    while i < file_hunks.len()
        invariant
            prefix == deep(frame.prefix@),
            files == deep(file_hunks@),
            i <= file_hunks.len(),
            pair_views(pairs@) == pairs_of(prefix, files.take(i as int)),
        decreases file_hunks.len() - i,
    {
        assert(files.take(i as int + 1).drop_last() =~= files.take(i as int));
        let names = file_hunks[i].all_paths();
        let ghost views = names_of(files[i as int]);
        let ghost before = pair_views(pairs@);
        let mut j: usize = 0;
        assert(views.take(0) =~= Seq::empty());
        assert(before + framed(prefix, views.take(0)) =~= before);
        while j < names.len()
            invariant
                prefix == deep(frame.prefix@),
                names@.len() == views.len(),
                forall|k: int| 0 <= k < names@.len() ==> (#[trigger] names@[k])@ == views[k],
                j <= names.len(),
                pair_views(pairs@) == before + framed(prefix, views.take(j as int)),
            decreases names.len() - j,
        {
            assert(views.take(j as int + 1).drop_last() =~= views.take(j as int));
            let name = names[j];
            assert(name@ == views[j as int]);
            let ghost seen = framed(prefix, views.take(j as int));
            let ghost held = pairs@;
            if let Some(root) = frame.to_root(name) {
                let ghost one = (name@, root@);
                pairs.push((name.to_owned(), root));
                assert(pair_views(pairs@) =~= pair_views(held).push(one));
                assert((before + seen).push(one) =~= before + seen.push(one));
            }
            j += 1;
        }
        assert(views.take(views.len() as int) =~= views);
        i += 1;
    }
    assert(files.take(files.len() as int) =~= files);
    pairs
}

/// Whether a path is one that is printed here.
pub open spec fn is_local(pairs: Seq<(Seq<char>, Seq<char>)>, path: Seq<char>) -> bool {
    exists|i: int| 0 <= i < pairs.len() && (#[trigger] pairs[i]).0 == path
}

/// How the file with a path from the root is printed here; the last of them
/// where there are several.
pub open spec fn printed_as(
    pairs: Seq<(Seq<char>, Seq<char>)>,
    root: Seq<char>,
) -> Option<Seq<char>>
    decreases pairs.len(),
{
    if pairs.len() == 0 {
        None
    } else if pairs.last().1 == root {
        Some(pairs.last().0)
    } else {
        printed_as(pairs.drop_last(), root)
    }
}

/// How a path of another frame is printed here. One that is printed here
/// already means what it says.
pub open spec fn translated(
    pairs: Seq<(Seq<char>, Seq<char>)>,
    path: Seq<char>,
) -> Option<Seq<char>> {
    if is_local(pairs, path) {
        None
    } else {
        printed_as(pairs, path)
    }
}

/// An entry whose left-hand path is one of this frame.
pub open spec fn retargeted(
    pairs: Seq<(Seq<char>, Seq<char>)>,
    f: FileSpecView,
) -> FileSpecView {
    match source_of(f) {
        Some(from) => match translated(pairs, from) {
            Some(local) => with_source(f, local),
            None => f,
        },
        None => f,
    }
}

pub open spec fn all_retargeted(
    pairs: Seq<(Seq<char>, Seq<char>)>,
    m: Map<Seq<char>, FileSpecView>,
) -> Map<Seq<char>, FileSpecView> {
    Map::new(|k: Seq<char>| m.dom().contains(k), |k: Seq<char>| retargeted(pairs, m[k]))
}

/// The keys that are rewritten, each with what it becomes. A key that would
/// become one that is there already stays: two entries are never made one.
pub open spec fn rewrites_of(
    pairs: Seq<(Seq<char>, Seq<char>)>,
    keys: Seq<Seq<char>>,
    n: nat,
) -> Seq<(Seq<char>, Seq<char>)>
    decreases n,
{
    if n == 0 {
        Seq::empty()
    } else {
        let rest = rewrites_of(pairs, keys, (n - 1) as nat);
        match translated(pairs, keys[n - 1]) {
            Some(local) if !keys.contains(local) => rest.push((keys[n - 1], local)),
            _ => rest,
        }
    }
}

/// The entries under their new keys.
pub open spec fn rekeyed(
    m: Map<Seq<char>, FileSpecView>,
    rewrites: Seq<(Seq<char>, Seq<char>)>,
) -> Map<Seq<char>, FileSpecView>
    decreases rewrites.len(),
{
    if rewrites.len() == 0 {
        m
    } else {
        let rest = rekeyed(m, rewrites.drop_last());
        let (foreign, local) = rewrites.last();
        if rest.dom().contains(foreign) {
            rest.remove(foreign).insert(local, rest[foreign])
        } else {
            rest
        }
    }
}

/// The entries of a spec of another frame, in this one.
pub open spec fn adopted(
    pairs: Seq<(Seq<char>, Seq<char>)>,
    keys: Seq<Seq<char>>,
    m: Map<Seq<char>, FileSpecView>,
) -> Map<Seq<char>, FileSpecView> {
    rekeyed(all_retargeted(pairs, m), rewrites_of(pairs, keys, keys.len()))
}

/// Whether a spec says anything differently in this frame.
pub open spec fn is_foreign(
    pairs: Seq<(Seq<char>, Seq<char>)>,
    keys: Seq<Seq<char>>,
    m: Map<Seq<char>, FileSpecView>,
) -> bool {
    ||| rewrites_of(pairs, keys, keys.len()).len() > 0
    ||| exists|k: Seq<char>| #[trigger]
        m.dom().contains(k) && (source_of(m[k]) matches Some(from) && translated(pairs, from)
            is Some)
}

fn translate(pairs: &Vec<(String, String)>, path: &str) -> (r: Option<String>)
    ensures
        r.deep_view() == translated(pair_views(pairs@), path@),
{
    let ghost views = pair_views(pairs@);
    let mut i: usize = 0;
    while i < pairs.len()
        invariant
            views == pair_views(pairs@),
            i <= pairs.len(),
            forall|j: int| 0 <= j < i ==> (#[trigger] views[j]).0 != path@,
        decreases pairs.len() - i,
    {
        if same(pairs[i].0.as_str(), path) {
            assert(views[i as int].0 == path@);
            return None;
        }
        i += 1;
    }
    assert(!is_local(views, path@));
    assert(views.take(i as int) =~= views);
    while i > 0
        invariant
            views == pair_views(pairs@),
            i <= pairs.len(),
            !is_local(views, path@),
            printed_as(views, path@) == printed_as(views.take(i as int), path@),
        decreases i,
    {
        assert(views.take(i as int).drop_last() =~= views.take(i as int - 1));
        assert(views.take(i as int).last() == views[i - 1]);
        i -= 1;
        if same(pairs[i].1.as_str(), path) {
            return Some(pairs[i].0.clone());
        }
    }
    None
}

/// Give every entry a left-hand path of this frame.
fn retarget(files: NameMap<FileSpec>, pairs: &Vec<(String, String)>) -> (r: (
    NameMap<FileSpec>,
    bool,
))
    ensures
        r.0.keys() == files.keys(),
        r.0.well_formed(),
        deep_map(r.0) == all_retargeted(pair_views(pairs@), deep_map(files)),
        r.1 == (exists|k: Seq<char>| #[trigger]
            deep_map(files).dom().contains(k) && (source_of(deep_map(files)[k]) matches Some(from)
                && translated(pair_views(pairs@), from) is Some)),
{
    let ghost views = pair_views(pairs@);
    let ghost start = deep_map(files);
    let ghost keys = files.keys();
    let n: usize = files.len();
    let mut files = files;
    let mut changed = false;
    let mut i: usize = 0;
    assert forall|k: Seq<char>| start.dom().contains(k) <==> keys.contains(k) by {}
    while i < n
        invariant
            views == pair_views(pairs@),
            n == keys.len(),
            files.keys() == keys,
            files.well_formed(),
            i <= n,
            forall|k: Seq<char>| start.dom().contains(k) <==> keys.contains(k),
            deep_map(files).dom() == start.dom(),
            forall|j: int|
                0 <= j < i ==> deep_map(files)[#[trigger] keys[j]] == retargeted(
                    views,
                    start[keys[j]],
                ),
            forall|j: int| i <= j < n ==> deep_map(files)[#[trigger] keys[j]] == start[keys[j]],
            changed == (exists|j: int|
                0 <= j < i && (source_of(start[#[trigger] keys[j]]) matches Some(from)
                    && translated(views, from) is Some)),
        decreases n - i,
    {
        let key = files.key_at(i).clone();
        let ghost at = i as int;
        assert(key@ == keys[at]);
        proof {
            crate::names::lemma_position(keys, at);
        }
        let translation = match files.value_at(i).source_path() {
            Some(from) => translate(pairs, from),
            None => None,
        };
        let ghost held = start[keys[at]];
        assert(deep_map(files)[keys[at]] == held);
        assert(files.value(keys[at]).deep_view() == held);
        if let Some(local) = translation {
            assert(source_of(start[keys[at]]) matches Some(from) && translated(views, from) is Some);
            let ghost was = files;
            match files.remove(key.as_str()) {
                Some(entry) => {
                    let mut entry = entry;
                    let ghost mid = files;
                    proof {
                        lemma_deep_map_remove(was, mid, key@);
                    }
                    entry.set_source_path(local);
                    let ghost kept = entry;
                    files.insert(key, entry);
                    proof {
                        lemma_deep_map_insert(mid, files, keys[at], kept);
                        lemma_same_keys(was, mid, files, keys[at]);
                        assert(deep_map(files).dom() =~= start.dom());
                        assert forall|j: int| 0 <= j < n && j != at implies deep_map(
                            files,
                        )[#[trigger] keys[j]] == deep_map(was)[keys[j]] by {
                            crate::names::lemma_position(keys, j);
                        }
                    }
                },
                None => {},
            }
            changed = true;
        }
        i += 1;
    }
    proof {
        assert forall|k: Seq<char>| start.dom().contains(k) implies deep_map(files)[k]
            == retargeted(views, start[k]) by {
            let j = keys.index_of(k);
            assert(keys[j] == k);
        }
        assert(deep_map(files) =~= all_retargeted(views, start));
        if exists|k: Seq<char>| #[trigger]
            start.dom().contains(k) && (source_of(start[k]) matches Some(from) && translated(
                views,
                from,
            ) is Some) {
            let k = choose|k: Seq<char>| #[trigger]
                start.dom().contains(k) && (source_of(start[k]) matches Some(from) && translated(
                    views,
                    from,
                ) is Some);
            let j = keys.index_of(k);
            assert(keys[j] == k);
            assert(changed);
        }
        if changed {
            let j = choose|j: int|
                0 <= j < n && (source_of(start[#[trigger] keys[j]]) matches Some(from)
                    && translated(views, from) is Some);
            assert(start.dom().contains(keys[j])) by {
                crate::names::lemma_position(keys, j);
            }
        }
    }
    (files, changed)
}

/// A map from which a key was taken and to which it was put back has the keys
/// it had.
proof fn lemma_same_keys(
    was: NameMap<FileSpec>,
    mid: NameMap<FileSpec>,
    now: NameMap<FileSpec>,
    key: Seq<char>,
)
    requires
        was.well_formed(),
        now.well_formed(),
        was.has(key),
        mid@ == was@.remove(key),
        exists|v: FileSpec| now@ == #[trigger] mid@.insert(key, v),
    ensures
        now.keys() == was.keys(),
{
    let v = choose|v: FileSpec| now@ == #[trigger] mid@.insert(key, v);
    assert forall|k: Seq<char>| now.has(k) <==> was.has(k) by {
        assert(now@.dom().contains(k) == now.has(k));
        assert(was@.dom().contains(k) == was.has(k));
        assert(mid@.insert(key, v).dom().contains(k) <==> mid@.dom().contains(k) || k == key);
        assert(was@.remove(key).dom().contains(k) <==> was@.dom().contains(k) && k != key);
    }
    assert forall|s: Seq<char>| now.keys().contains(s) <==> was.keys().contains(s) by {
        assert(now.has(s) <==> was.has(s));
    }
    crate::names::lemma_ordered_lists_agree(now.keys(), was.keys());
}

/// Carry a spec written in another directory's frame into this one, and say
/// whether anything changed.
///
/// A key that names a path printed here stays as it is. One that does not, and
/// that is the path from the root of a file of the diff, becomes the path that
/// is printed for it, unless the spec has an entry under that already. The path
/// an entry states for the left side is carried over with it.
pub fn adopt_spec_frame(spec: &mut Spec, pairs: &Vec<(String, String)>) -> (changed: bool)
    ensures
        deep_map(final(spec).files) == adopted(
            pair_views(pairs@),
            old(spec).files.keys(),
            deep_map(old(spec).files),
        ),
        final(spec).default == old(spec).default,
        changed == is_foreign(
            pair_views(pairs@),
            old(spec).files.keys(),
            deep_map(old(spec).files),
        ),
{
    let ghost views = pair_views(pairs@);
    let ghost keys = spec.files.keys();
    let ghost start = deep_map(spec.files);
    let mut files: NameMap<FileSpec> = NameMap::new();
    std::mem::swap(&mut files, &mut spec.files);
    let (mut files, mut changed) = retarget(files, pairs);
    let mut rewrites: Vec<(String, String)> = Vec::new();
    let n: usize = files.len();
    let mut i: usize = 0;
    assert(pair_views(rewrites@) =~= Seq::empty());
    while i < n
        invariant
            views == pair_views(pairs@),
            files.keys() == keys,
            files.well_formed(),
            n == keys.len(),
            i <= n,
            pair_views(rewrites@) == rewrites_of(views, keys, i as nat),
        decreases n - i,
    {
        let key = files.key_at(i);
        if let Some(local) = translate(pairs, key.as_str()) {
            if files.position(local.as_str()).is_none() {
                let ghost held = rewrites@;
                let ghost one = (key@, local@);
                rewrites.push((key.clone(), local));
                assert(pair_views(rewrites@) =~= pair_views(held).push(one));
            }
        }
        i += 1;
    }
    let ghost moves = pair_views(rewrites@);
    let ghost base = deep_map(files);
    if rewrites.len() > 0 {
        changed = true;
    }
    i = 0;
    assert(moves.take(0) =~= Seq::empty());
    while i < rewrites.len()
        invariant
            moves == pair_views(rewrites@),
            i <= rewrites.len(),
            deep_map(files) == rekeyed(base, moves.take(i as int)),
        decreases rewrites.len() - i,
    {
        assert(moves.take(i as int + 1).drop_last() =~= moves.take(i as int));
        assert(moves[i as int] == (rewrites@[i as int].0@, rewrites@[i as int].1@));
        let ghost was = files;
        match files.remove(rewrites[i].0.as_str()) {
            Some(entry) => {
                let ghost mid = files;
                let ghost kept = entry;
                files.insert(rewrites[i].1.clone(), entry);
                proof {
                    lemma_deep_map_remove(was, mid, moves[i as int].0);
                    lemma_deep_map_insert(mid, files, moves[i as int].1, kept);
                }
            },
            None => {
                assert(deep_map(files) =~= deep_map(was)) by {
                    assert forall|k: Seq<char>| files.has(k) == was.has(k) by {
                        assert(files@.dom().contains(k) == files.has(k));
                        assert(was@.dom().contains(k) == was.has(k));
                    }
                    assert forall|k: Seq<char>| files.has(k) implies files.value(k) == was.value(
                        k,
                    ) by {
                        assert(files@[k] == files.value(k));
                        assert(was@[k] == was.value(k));
                    }
                }
            },
        }
        i += 1;
    }
    assert(moves.take(moves.len() as int) =~= moves);
    spec.files = files;
    changed
}

/// At the root of the workspace, where every path is printed as it is, no spec
/// changes.
pub proof fn at_the_root_a_spec_stays_as_it_is(
    pairs: Seq<(Seq<char>, Seq<char>)>,
    keys: Seq<Seq<char>>,
    m: Map<Seq<char>, FileSpecView>,
)
    requires
        forall|i: int| 0 <= i < pairs.len() ==> (#[trigger] pairs[i]).0 == pairs[i].1,
    ensures
        adopted(pairs, keys, m) == m,
        !is_foreign(pairs, keys, m),
{
    assert forall|path: Seq<char>| #[trigger] translated(pairs, path) is None by {
        lemma_printed_as(pairs, path);
    }
    assert(all_retargeted(pairs, m) =~= m);
    lemma_no_rewrites(pairs, keys, keys.len());
}

proof fn lemma_printed_as(pairs: Seq<(Seq<char>, Seq<char>)>, root: Seq<char>)
    ensures
        printed_as(pairs, root) matches Some(local) ==> exists|i: int|
            0 <= i < pairs.len() && (#[trigger] pairs[i]).1 == root && pairs[i].0 == local,
    decreases pairs.len(),
{
    if pairs.len() > 0 {
        if pairs.last().1 == root {
            assert(pairs[pairs.len() - 1].1 == root);
        } else {
            lemma_printed_as(pairs.drop_last(), root);
            if let Some(local) = printed_as(pairs.drop_last(), root) {
                let front = pairs.drop_last();
                let i = choose|i: int|
                    0 <= i < front.len() && (#[trigger] front[i]).1 == root && front[i].0 == local;
                assert(pairs[i].1 == root && pairs[i].0 == local);
            }
        }
    }
}

proof fn lemma_no_rewrites(pairs: Seq<(Seq<char>, Seq<char>)>, keys: Seq<Seq<char>>, n: nat)
    requires
        forall|path: Seq<char>| #[trigger] translated(pairs, path) is None,
    ensures
        rewrites_of(pairs, keys, n) == Seq::<(Seq<char>, Seq<char>)>::empty(),
    decreases n,
{
    if n > 0 {
        lemma_no_rewrites(pairs, keys, (n - 1) as nat);
        assert(translated(pairs, keys[n - 1]) is None);
    }
}

proof fn lemma_rewrites(
    pairs: Seq<(Seq<char>, Seq<char>)>,
    keys: Seq<Seq<char>>,
    n: nat,
    i: int,
)
    requires
        n <= keys.len(),
        0 <= i < rewrites_of(pairs, keys, n).len(),
    ensures
        !is_local(pairs, rewrites_of(pairs, keys, n)[i].0),
        !keys.contains(rewrites_of(pairs, keys, n)[i].1),
    decreases n,
{
    let rest = rewrites_of(pairs, keys, (n - 1) as nat);
    if i < rest.len() {
        lemma_rewrites(pairs, keys, (n - 1) as nat, i);
        assert(rewrites_of(pairs, keys, n)[i] == rest[i]);
    }
}

/// A key that is a path printed here means what it meant: its entry stays under
/// it, and no other entry takes its place.
pub proof fn a_key_printed_here_keeps_its_entry(
    pairs: Seq<(Seq<char>, Seq<char>)>,
    keys: Seq<Seq<char>>,
    m: Map<Seq<char>, FileSpecView>,
    key: Seq<char>,
)
    requires
        keys.contains(key),
        m.dom().contains(key),
        is_local(pairs, key),
    ensures
        adopted(pairs, keys, m).dom().contains(key),
        adopted(pairs, keys, m)[key] == retargeted(pairs, m[key]),
{
    let rewrites = rewrites_of(pairs, keys, keys.len());
    assert forall|i: int| 0 <= i < rewrites.len() implies (#[trigger] rewrites[i]).0 != key
        && rewrites[i].1 != key by {
        lemma_rewrites(pairs, keys, keys.len(), i);
    }
    lemma_untouched(all_retargeted(pairs, m), rewrites, key);
}

proof fn lemma_untouched(
    m: Map<Seq<char>, FileSpecView>,
    rewrites: Seq<(Seq<char>, Seq<char>)>,
    key: Seq<char>,
)
    requires
        m.dom().contains(key),
        forall|i: int|
            0 <= i < rewrites.len() ==> (#[trigger] rewrites[i]).0 != key && rewrites[i].1 != key,
    ensures
        rekeyed(m, rewrites).dom().contains(key),
        rekeyed(m, rewrites)[key] == m[key],
    decreases rewrites.len(),
{
    if rewrites.len() > 0 {
        let front = rewrites.drop_last();
        assert forall|i: int| 0 <= i < front.len() implies (#[trigger] front[i]).0 != key
            && front[i].1 != key by {
            assert(front[i] == rewrites[i]);
        }
        lemma_untouched(m, front, key);
        assert(rewrites[rewrites.len() - 1].0 != key);
    }
}

/// Whether one printed path stands for one file.
pub open spec fn spelled_apart(pairs: Seq<(Seq<char>, Seq<char>)>) -> bool {
    forall|i: int, j: int|
        0 <= i < pairs.len() && 0 <= j < pairs.len() && (#[trigger] pairs[i]).0 == (
        #[trigger] pairs[j]).0 ==> pairs[i].1 == pairs[j].1
}

proof fn lemma_rewrite_source(
    pairs: Seq<(Seq<char>, Seq<char>)>,
    keys: Seq<Seq<char>>,
    n: nat,
    i: int,
) -> (k: int)
    requires
        n <= keys.len(),
        0 <= i < rewrites_of(pairs, keys, n).len(),
    ensures
        0 <= k < n,
        rewrites_of(pairs, keys, n)[i].0 == keys[k],
        printed_as(pairs, keys[k]) == Some(rewrites_of(pairs, keys, n)[i].1),
        i < rewrites_of(pairs, keys, n).len() - 1 ==> k < n - 1,
    decreases n,
{
    let rest = rewrites_of(pairs, keys, (n - 1) as nat);
    if i < rest.len() {
        lemma_rewrite_source(pairs, keys, (n - 1) as nat, i)
    } else {
        n - 1
    }
}

/// Where the rewrite of a key is.
proof fn lemma_rewrite_of(
    pairs: Seq<(Seq<char>, Seq<char>)>,
    keys: Seq<Seq<char>>,
    n: nat,
    k: int,
) -> (t: int)
    requires
        0 <= k < n <= keys.len(),
        translated(pairs, keys[k]) is Some,
        !keys.contains(translated(pairs, keys[k])->0),
    ensures
        0 <= t < rewrites_of(pairs, keys, n).len(),
        rewrites_of(pairs, keys, n)[t] == (keys[k], translated(pairs, keys[k])->0),
    decreases n,
{
    let rest = rewrites_of(pairs, keys, (n - 1) as nat);
    if k == n - 1 {
        rest.len() as int
    } else {
        lemma_rewrite_of(pairs, keys, (n - 1) as nat, k)
    }
}

proof fn lemma_rewrites_distinct(
    pairs: Seq<(Seq<char>, Seq<char>)>,
    keys: Seq<Seq<char>>,
    n: nat,
    i: int,
    j: int,
)
    requires
        keys.no_duplicates(),
        n <= keys.len(),
        0 <= i < j < rewrites_of(pairs, keys, n).len(),
    ensures
        rewrites_of(pairs, keys, n)[i].0 != rewrites_of(pairs, keys, n)[j].0,
    decreases n,
{
    let rest = rewrites_of(pairs, keys, (n - 1) as nat);
    if j < rest.len() {
        lemma_rewrites_distinct(pairs, keys, (n - 1) as nat, i, j);
    } else {
        let k = lemma_rewrite_source(pairs, keys, (n - 1) as nat, i);
        assert(keys[k] != keys[n - 1]);
    }
}

/// A map in which one key is rewritten, and the others have nothing to do with it
/// or with what it becomes.
proof fn lemma_rekeyed_once(
    m: Map<Seq<char>, FileSpecView>,
    rewrites: Seq<(Seq<char>, Seq<char>)>,
    t: int,
)
    requires
        0 <= t < rewrites.len(),
        m.dom().contains(rewrites[t].0),
        rewrites[t].0 != rewrites[t].1,
        forall|i: int|
            0 <= i < rewrites.len() && i != t ==> (#[trigger] rewrites[i]).0 != rewrites[t].0
                && rewrites[i].0 != rewrites[t].1 && rewrites[i].1 != rewrites[t].0
                && rewrites[i].1 != rewrites[t].1,
    ensures
        rekeyed(m, rewrites).dom().contains(rewrites[t].1),
        rekeyed(m, rewrites)[rewrites[t].1] == m[rewrites[t].0],
        !rekeyed(m, rewrites).dom().contains(rewrites[t].0),
    decreases rewrites.len(),
{
    let front = rewrites.drop_last();
    if t == rewrites.len() - 1 {
        assert forall|i: int| 0 <= i < front.len() implies (#[trigger] front[i]).0
            != rewrites[t].0 && front[i].1 != rewrites[t].0 by {
            assert(front[i] == rewrites[i]);
        }
        lemma_untouched(m, front, rewrites[t].0);
    } else {
        assert forall|i: int| 0 <= i < front.len() && i != t implies (#[trigger] front[i]).0
            != front[t].0 && front[i].0 != front[t].1 && front[i].1 != front[t].0 && front[i].1
            != front[t].1 by {
            assert(front[i] == rewrites[i]);
        }
        lemma_rekeyed_once(m, front, t);
        assert(rewrites[rewrites.len() - 1].0 != rewrites[t].0);
    }
}

/// A key that is the path of a file from the root reaches that file from any
/// directory: its entry is carried over to the path the file is printed with
/// there, unless the spec has an entry under that already.
pub proof fn a_root_key_reaches_its_file(
    pairs: Seq<(Seq<char>, Seq<char>)>,
    keys: Seq<Seq<char>>,
    m: Map<Seq<char>, FileSpecView>,
    root: Seq<char>,
    local: Seq<char>,
)
    requires
        spelled_apart(pairs),
        keys.no_duplicates(),
        keys.contains(root),
        m.dom().contains(root),
        !is_local(pairs, root),
        printed_as(pairs, root) == Some(local),
        !keys.contains(local),
    ensures
        adopted(pairs, keys, m).dom().contains(local),
        adopted(pairs, keys, m)[local] == retargeted(pairs, m[root]),
        !adopted(pairs, keys, m).dom().contains(root),
{
    let rewrites = rewrites_of(pairs, keys, keys.len());
    let at = keys.index_of(root);
    let t = lemma_rewrite_of(pairs, keys, keys.len(), at);
    lemma_printed_as(pairs, root);
    let p = choose|i: int|
        0 <= i < pairs.len() && (#[trigger] pairs[i]).1 == root && pairs[i].0 == local;
    assert forall|i: int| 0 <= i < rewrites.len() && i != t implies (#[trigger] rewrites[i]).0
        != root && rewrites[i].0 != local && rewrites[i].1 != root && rewrites[i].1 != local by {
        if i < t {
            lemma_rewrites_distinct(pairs, keys, keys.len(), i, t);
        } else {
            lemma_rewrites_distinct(pairs, keys, keys.len(), t, i);
        }
        let k = lemma_rewrite_source(pairs, keys, keys.len(), i);
        assert(keys.contains(keys[k]));
        lemma_printed_as(pairs, keys[k]);
        let q = choose|q: int|
            0 <= q < pairs.len() && (#[trigger] pairs[q]).1 == keys[k] && pairs[q].0
                == rewrites[i].1;
        assert(pairs[q].0 == rewrites[i].1);
        assert(pairs[p].0 == local);
    }
    assert(root != local) by {
        assert(pairs[p].0 == local);
    }
    lemma_rekeyed_once(all_retargeted(pairs, m), rewrites, t);
}

proof fn lemma_framed(prefix: Seq<Seq<char>>, names: Seq<Seq<char>>)
    ensures
        forall|i: int|
            0 <= i < framed(prefix, names).len() ==> rooted(
                prefix,
                (#[trigger] framed(prefix, names)[i]).0,
            ) == Some(framed(prefix, names)[i].1),
    decreases names.len(),
{
    if names.len() > 0 {
        lemma_framed(prefix, names.drop_last());
    }
}

proof fn lemma_pairs(prefix: Seq<Seq<char>>, files: Seq<FileView>)
    ensures
        forall|i: int|
            0 <= i < pairs_of(prefix, files).len() ==> rooted(
                prefix,
                (#[trigger] pairs_of(prefix, files)[i]).0,
            ) == Some(pairs_of(prefix, files)[i].1),
    decreases files.len(),
{
    if files.len() > 0 {
        lemma_pairs(prefix, files.drop_last());
        lemma_framed(prefix, names_of(files.last()));
    }
}

/// What is printed in a directory stands for one file each.
pub proof fn printed_paths_are_spelled_apart(prefix: Seq<Seq<char>>, files: Seq<FileView>)
    ensures
        spelled_apart(pairs_of(prefix, files)),
{
    lemma_pairs(prefix, files);
}

proof fn lemma_problems_kept(
    entries: Seq<(Seq<char>, FileSpecView)>,
    files: Seq<FileView>,
    i: int,
)
    requires
        0 <= i < entries.len(),
    ensures
        problems_of(entries, files).len() >= entry_problems(
            entries[i].0,
            entries[i].1,
            files,
        ).len(),
    decreases entries.len(),
{
    if i < entries.len() - 1 {
        lemma_problems_kept(entries.drop_last(), files, i);
    }
}

/// An entry that names hunks of a file that is not in the diff is always refused,
/// whatever else the spec names.
pub proof fn hunks_of_an_absent_file_are_refused(spec: SpecView, files: Seq<FileView>, i: int)
    requires
        0 <= i < spec.files.len(),
        spec.files[i].1 is Selection,
        means_to_keep(spec.files[i].1),
        file_at(files, spec.files[i].0) is None,
    ensures
        spec_problems(spec, files).len() > 0,
{
    lemma_problems_kept(spec.files, files, i);
    let all = problems_of(spec.files, files) + (if !keeps_a_file(spec.files, files)
        && spec.default != DefaultAction::Keep {
        idle_entries(spec.files, files)
    } else {
        Seq::empty()
    });
    crate::names::sorting_orders_and_keeps_everything::<SpecProblem>(all);
    all.to_multiset_ensures();
    sorted::<SpecProblem>(all).to_multiset_ensures();
}

/// A spec may keep files that are not in the diff: one more such entry is no
/// problem where some entry keeps a file that is there.
pub proof fn an_idle_entry_is_no_problem(
    spec: SpecView,
    files: Seq<FileView>,
    path: Seq<char>,
    entry: FileSpecView,
)
    requires
        is_idle(path, entry, files),
        keeps_a_file(spec.files, files),
    ensures
        spec_problems(SpecView { files: spec.files.push((path, entry)), ..spec }, files)
            == spec_problems(spec, files),
{
    let more = spec.files.push((path, entry));
    assert(more.drop_last() =~= spec.files);
    let k = choose|k: int|
        0 <= k < spec.files.len() && means_to_keep((#[trigger] spec.files[k]).1) && file_at(
            files,
            spec.files[k].0,
        ) is Some;
    assert(more[k] == spec.files[k]);
    assert(keeps_a_file(more, files));
    assert(problems_of(more, files) =~= problems_of(spec.files, files));
}

// ---------------------------------------------------------------------------
// What is wrong with a spec
// ---------------------------------------------------------------------------

/// Whether a file is the one that a path names; the last one where there are
/// several.
pub open spec fn is_named_by(files: Seq<FileView>, path: Seq<char>, f: FileView) -> bool {
    exists|k: int|
        {
            &&& 0 <= k < files.len()
            &&& #[trigger] files[k] == f
            &&& f.path == path
            &&& forall|j: int| k < j < files.len() ==> (#[trigger] files[j]).path != path
        }
}

/// Whether no file has a path.
pub open spec fn is_absent(files: Seq<FileView>, path: Seq<char>) -> bool {
    forall|k: int| 0 <= k < files.len() ==> (#[trigger] files[k]).path != path
}

proof fn lemma_file_at(files: Seq<FileView>, path: Seq<char>)
    ensures
        match file_at(files, path) {
            Some(f) => is_named_by(files, path, f),
            None => is_absent(files, path),
        },
    decreases files.len(),
{
    if files.len() > 0 {
        let rest = files.drop_last();
        let last = files.len() - 1;
        lemma_file_at(rest, path);
        assert(files[last] == files.last());
        if files[last].path != path {
            match file_at(rest, path) {
                Some(f) => {
                    let k = choose|k: int|
                        {
                            &&& 0 <= k < rest.len()
                            &&& #[trigger] rest[k] == f
                            &&& f.path == path
                            &&& forall|j: int| k < j < rest.len() ==> (#[trigger] rest[j]).path != path
                        };
                    assert(files[k] == f);
                    assert forall|j: int| k < j < files.len() implies (#[trigger] files[j]).path
                        != path by {
                        if j < last {
                            assert(rest[j].path != path);
                        }
                    }
                },
                None => {
                    assert forall|j: int| 0 <= j < files.len() implies (#[trigger] files[j]).path
                        != path by {
                        if j < last {
                            assert(rest[j].path != path);
                        }
                    }
                },
            }
        }
    }
}

proof fn lemma_one_file(files: Seq<FileView>, path: Seq<char>, f: FileView)
    requires
        is_named_by(files, path, f),
    ensures
        file_at(files, path) == Some(f),
{
    lemma_file_at(files, path);
    let k = choose|k: int|
        {
            &&& 0 <= k < files.len()
            &&& #[trigger] files[k] == f
            &&& f.path == path
            &&& forall|j: int| k < j < files.len() ==> (#[trigger] files[j]).path != path
        };
    assert(files[k].path == path);
    let g = file_at(files, path)->0;
    let m = choose|m: int|
        {
            &&& 0 <= m < files.len()
            &&& #[trigger] files[m] == g
            &&& g.path == path
            &&& forall|j: int| m < j < files.len() ==> (#[trigger] files[j]).path != path
        };
    assert(m == k) by {
        if m < k {
            assert(files[k].path != path);
        }
        if k < m {
            assert(files[m].path != path);
        }
    }
}

/// Whether a file is the first that was moved away from a path, and is now at
/// another.
pub open spec fn went_to(files: Seq<FileView>, path: Seq<char>, new_path: Seq<char>) -> bool {
    exists|k: int|
        {
            &&& 0 <= k < files.len()
            &&& (#[trigger] files[k]).path == new_path
            &&& moved_from(files[k].rename, files[k].path) == Some(path)
            &&& forall|j: int|
                0 <= j < k ==> moved_from((#[trigger] files[j]).rename, files[j].path) != Some(path)
        }
}

/// Whether no file was moved away from a path.
pub open spec fn none_left(files: Seq<FileView>, path: Seq<char>) -> bool {
    forall|k: int|
        0 <= k < files.len() ==> moved_from((#[trigger] files[k]).rename, files[k].path) != Some(
            path,
        )
}

proof fn lemma_first_moved(files: Seq<FileView>, path: Seq<char>)
    ensures
        match moved_to(files, path) {
            Some(new_path) => went_to(files, path, new_path),
            None => none_left(files, path),
        },
    decreases files.len(),
{
    if files.len() > 0 {
        let rest = files.drop_last();
        let last = files.len() - 1;
        lemma_first_moved(rest, path);
        assert(files[last] == files.last());
        match moved_to(rest, path) {
            Some(new_path) => {
                let k = choose|k: int|
                    {
                        &&& 0 <= k < rest.len()
                        &&& (#[trigger] rest[k]).path == new_path
                        &&& moved_from(rest[k].rename, rest[k].path) == Some(path)
                        &&& forall|j: int|
                            0 <= j < k ==> moved_from((#[trigger] rest[j]).rename, rest[j].path)
                                != Some(path)
                    };
                assert(files[k] == rest[k]);
                assert forall|j: int| 0 <= j < k implies moved_from(
                    (#[trigger] files[j]).rename,
                    files[j].path,
                ) != Some(path) by {
                    assert(rest[j] == files[j]);
                }
            },
            None => {
                assert forall|j: int| 0 <= j < last implies moved_from(
                    (#[trigger] files[j]).rename,
                    files[j].path,
                ) != Some(path) by {
                    assert(rest[j] == files[j]);
                }
            },
        }
    }
}

proof fn lemma_one_way(files: Seq<FileView>, path: Seq<char>, new_path: Seq<char>)
    requires
        went_to(files, path, new_path),
    ensures
        moved_to(files, path) == Some(new_path),
{
    lemma_first_moved(files, path);
    let k = choose|k: int|
        {
            &&& 0 <= k < files.len()
            &&& (#[trigger] files[k]).path == new_path
            &&& moved_from(files[k].rename, files[k].path) == Some(path)
            &&& forall|j: int|
                0 <= j < k ==> moved_from((#[trigger] files[j]).rename, files[j].path) != Some(path)
        };
    assert(moved_from(files[k].rename, files[k].path) == Some(path));
    let other = moved_to(files, path)->0;
    let m = choose|m: int|
        {
            &&& 0 <= m < files.len()
            &&& (#[trigger] files[m]).path == other
            &&& moved_from(files[m].rename, files[m].path) == Some(path)
            &&& forall|j: int|
                0 <= j < m ==> moved_from((#[trigger] files[j]).rename, files[j].path) != Some(path)
        };
    assert(m == k) by {
        if m < k {
            assert(moved_from(files[m].rename, files[m].path) != Some(path));
        }
        if k < m {
            assert(moved_from(files[k].rename, files[k].path) != Some(path));
        }
    }
}

proof fn lemma_id_problems(
    path: Seq<char>,
    hunks: Seq<HunkView>,
    ids: Seq<Seq<char>>,
    p: ProblemView,
)
    ensures
        id_problems(path, hunks, ids).contains(p) <==> match p {
            ProblemView::NoSuchId { path: at, id } => at == path && ids.contains(id) && named_by(
                hunks,
                id,
            ).len() == 0,
            ProblemView::AmbiguousId { path: at, id, count } => at == path && ids.contains(id)
                && count > 1 && named_by(hunks, id).len() == count,
            _ => false,
        },
    decreases ids.len(),
{
    if ids.len() > 0 {
        let rest = ids.drop_last();
        let before = id_problems(path, hunks, rest);
        let all = id_problems(path, hunks, ids);
        lemma_id_problems(path, hunks, rest, p);
        let last = ids.last();
        assert forall|id: Seq<char>| #[trigger] ids.contains(id) <==> rest.contains(id) || id
            == last by {
            if ids.contains(id) {
                let k = choose|k: int| 0 <= k < ids.len() && ids[k] == id;
                if k < rest.len() {
                    assert(rest[k] == id);
                }
            }
            if rest.contains(id) {
                let k = choose|k: int| 0 <= k < rest.len() && rest[k] == id;
                assert(ids[k] == id);
            }
            if id == last {
                assert(ids[ids.len() - 1] == id);
            }
        }
        if all.len() > before.len() {
            assert(all.drop_last() =~= before);
        }
        lemma_grown(before, all, p);
    }
}

proof fn lemma_grown(before: Seq<ProblemView>, all: Seq<ProblemView>, p: ProblemView)
    ensures
        all == before ==> (all.contains(p) <==> before.contains(p)),
        all.len() == before.len() + 1 && all.drop_last() == before ==> (all.contains(p)
            <==> before.contains(p) || all.last() == p),
{
    if all.len() == before.len() + 1 && all.drop_last() == before {
        if before.contains(p) {
            let k = choose|k: int| 0 <= k < before.len() && before[k] == p;
            assert(all[k] == p);
        }
        if all.last() == p {
            assert(all[all.len() - 1] == p);
        }
        if all.contains(p) {
            let k = choose|k: int| 0 <= k < all.len() && all[k] == p;
            if k < before.len() {
                assert(before[k] == p);
            }
        }
    }
}

proof fn lemma_index_problems(
    path: Seq<char>,
    hunks: Seq<HunkView>,
    selectors: Seq<SelectorView>,
    p: ProblemView,
)
    ensures
        index_problems(path, hunks, selectors).contains(p) <==> match p {
            ProblemView::NoSuchIndex { path: at, index, hunk_count } => at == path
                && selectors.contains(SelectorView::Index(index)) && !has_index(hunks, index)
                && hunk_count == hunks.len(),
            _ => false,
        },
    decreases selectors.len(),
{
    if selectors.len() > 0 {
        let rest = selectors.drop_last();
        let before = index_problems(path, hunks, rest);
        let all = index_problems(path, hunks, selectors);
        lemma_index_problems(path, hunks, rest, p);
        let last = selectors.last();
        assert forall|x: SelectorView| #[trigger] selectors.contains(x) <==> rest.contains(x) || x
            == last by {
            if selectors.contains(x) {
                let k = choose|k: int| 0 <= k < selectors.len() && selectors[k] == x;
                if k < rest.len() {
                    assert(rest[k] == x);
                }
            }
            if rest.contains(x) {
                let k = choose|k: int| 0 <= k < rest.len() && rest[k] == x;
                assert(selectors[k] == x);
            }
            if x == last {
                assert(selectors[selectors.len() - 1] == x);
            }
        }
        if all.len() > before.len() {
            assert(all.drop_last() =~= before);
        }
        lemma_grown(before, all, p);
    }
}

proof fn lemma_appended(a: Seq<ProblemView>, b: Seq<ProblemView>, p: ProblemView)
    ensures
        (a + b).contains(p) <==> a.contains(p) || b.contains(p),
{
    if a.contains(p) {
        let k = choose|k: int| 0 <= k < a.len() && a[k] == p;
        assert((a + b)[k] == p);
    }
    if b.contains(p) {
        let k = choose|k: int| 0 <= k < b.len() && b[k] == p;
        assert((a + b)[a.len() + k] == p);
    }
    if (a + b).contains(p) {
        let k = choose|k: int| 0 <= k < (a + b).len() && (a + b)[k] == p;
        if k < a.len() {
            assert(a[k] == p);
        } else {
            assert(b[k - a.len()] == p);
        }
    }
}

/// Whether an entry of a spec has a problem of its own: it names a path that a
/// file was only moved away from, hunks of a file that is not there, or hunks
/// that its file does not have.
pub open spec fn has_problem(
    path: Seq<char>,
    entry: FileSpecView,
    files: Seq<FileView>,
    p: ProblemView,
) -> bool {
    match p {
        ProblemView::RenamedTo { path: at, new_path } => at == path && is_absent(files, path)
            && went_to(files, path, new_path),
        ProblemView::NoSuchPath { path: at } => at == path && is_absent(files, path) && none_left(
            files,
            path,
        ) && entry is Selection && means_to_keep(entry),
        ProblemView::NoSuchId { path: at, id } => at == path && (exists|f: FileView| #[trigger]
            is_named_by(files, path, f) && names_id(entry, id) && named_by(f.hunks, id).len() == 0),
        ProblemView::AmbiguousId { path: at, id, count } => at == path && count > 1 && (exists|
            f: FileView,
        | #[trigger]
            is_named_by(files, path, f) && names_id(entry, id) && named_by(f.hunks, id).len()
                == count),
        ProblemView::NoSuchIndex { path: at, index, hunk_count } => at == path && (exists|
            f: FileView,
        | #[trigger]
            is_named_by(files, path, f) && names_index(entry, index) && !has_index(f.hunks, index)
                && hunk_count == f.hunks.len()),
    }
}

/// Whether an entry names hunks by an id.
pub open spec fn names_id(entry: FileSpecView, id: Seq<char>) -> bool {
    entry matches FileSpecView::Selection(s) && (s.ids.contains(id) || s.hunks.contains(
        SelectorView::Id(id),
    ))
}

/// Whether an entry names a hunk by its position.
pub open spec fn names_index(entry: FileSpecView, index: usize) -> bool {
    entry matches FileSpecView::Selection(s) && s.hunks.contains(SelectorView::Index(index))
}

proof fn lemma_entry_problems(
    path: Seq<char>,
    entry: FileSpecView,
    files: Seq<FileView>,
    p: ProblemView,
)
    ensures
        entry_problems(path, entry, files).contains(p) <==> has_problem(path, entry, files, p),
{
    let all = entry_problems(path, entry, files);
    lemma_file_at(files, path);
    lemma_first_moved(files, path);
    assert forall|f: FileView| #[trigger] is_named_by(files, path, f) implies file_at(files, path)
        == Some(f) by {
        lemma_one_file(files, path, f);
    }
    assert forall|new_path: Seq<char>| #[trigger] went_to(files, path, new_path) implies moved_to(
        files,
        path,
    ) == Some(new_path) by {
        lemma_one_way(files, path, new_path);
    }
    match file_at(files, path) {
        None => {
            assert forall|f: FileView| !#[trigger] is_named_by(files, path, f) by {}
            match moved_to(files, path) {
                Some(new_path) => {
                    assert(all[0] == (ProblemView::RenamedTo { path, new_path }));
                    let k = choose|k: int|
                        {
                            &&& 0 <= k < files.len()
                            &&& (#[trigger] files[k]).path == new_path
                            &&& moved_from(files[k].rename, files[k].path) == Some(path)
                            &&& forall|j: int|
                                0 <= j < k ==> moved_from(
                                    (#[trigger] files[j]).rename,
                                    files[j].path,
                                ) != Some(path)
                        };
                    assert(moved_from(files[k].rename, files[k].path) == Some(path));
                    assert(!none_left(files, path));
                },
                None => {
                    if means_to_keep(entry) && entry is Selection {
                        assert(all[0] == (ProblemView::NoSuchPath { path }));
                    }
                },
            }
        },
        Some(file) => {
            assert(!is_absent(files, path)) by {
                let k = choose|k: int|
                    {
                        &&& 0 <= k < files.len()
                        &&& #[trigger] files[k] == file
                        &&& file.path == path
                        &&& forall|j: int|
                            k < j < files.len() ==> (#[trigger] files[j]).path != path
                    };
                assert(files[k].path == path);
            }
            if let FileSpecView::Selection(s) = entry {
                lemma_id_problems(path, file.hunks, ids_named(s), p);
                lemma_index_problems(path, file.hunks, s.hunks, p);
                lemma_appended(
                    id_problems(path, file.hunks, ids_named(s)),
                    index_problems(path, file.hunks, s.hunks),
                    p,
                );
                match p {
                    ProblemView::NoSuchId { id, .. } => {
                        lemma_ids_named(s, id);
                    },
                    ProblemView::AmbiguousId { id, .. } => {
                        lemma_ids_named(s, id);
                    },
                    _ => {},
                }
            }
        },
    }
}

proof fn lemma_problems_of(
    entries: Seq<(Seq<char>, FileSpecView)>,
    files: Seq<FileView>,
    p: ProblemView,
)
    ensures
        problems_of(entries, files).contains(p) <==> exists|i: int|
            0 <= i < entries.len() && has_problem(
                (#[trigger] entries[i]).0,
                entries[i].1,
                files,
                p,
            ),
    decreases entries.len(),
{
    if entries.len() > 0 {
        let rest = entries.drop_last();
        let last = entries.len() - 1;
        lemma_problems_of(rest, files, p);
        lemma_entry_problems(entries[last].0, entries[last].1, files, p);
        lemma_appended(
            problems_of(rest, files),
            entry_problems(entries[last].0, entries[last].1, files),
            p,
        );
        if exists|i: int|
            0 <= i < rest.len() && has_problem((#[trigger] rest[i]).0, rest[i].1, files, p) {
            let i = choose|i: int|
                0 <= i < rest.len() && has_problem((#[trigger] rest[i]).0, rest[i].1, files, p);
            assert(entries[i] == rest[i]);
        }
        if exists|i: int|
            0 <= i < entries.len() && has_problem(
                (#[trigger] entries[i]).0,
                entries[i].1,
                files,
                p,
            ) {
            let i = choose|i: int|
                0 <= i < entries.len() && has_problem(
                    (#[trigger] entries[i]).0,
                    entries[i].1,
                    files,
                    p,
                );
            if i < last {
                assert(rest[i] == entries[i]);
            }
        }
    }
}

/// Whether an entry keeps a file whole that is not in the diff.
pub open spec fn keeps_an_absent_file(
    entry: (Seq<char>, FileSpecView),
    files: Seq<FileView>,
) -> bool {
    &&& entry.1 matches FileSpecView::Action { action: Action::Keep, .. }
    &&& is_absent(files, entry.0) && none_left(files, entry.0)
}

proof fn lemma_idle(path: Seq<char>, entry: FileSpecView, files: Seq<FileView>)
    ensures
        is_idle(path, entry, files) <==> keeps_an_absent_file((path, entry), files),
{
    lemma_file_at(files, path);
    lemma_first_moved(files, path);
    if let Some(f) = file_at(files, path) {
        let k = choose|k: int|
            {
                &&& 0 <= k < files.len()
                &&& #[trigger] files[k] == f
                &&& f.path == path
                &&& forall|j: int| k < j < files.len() ==> (#[trigger] files[j]).path != path
            };
        assert(files[k].path == path);
    }
    if let Some(new_path) = moved_to(files, path) {
        let k = choose|k: int|
            {
                &&& 0 <= k < files.len()
                &&& (#[trigger] files[k]).path == new_path
                &&& moved_from(files[k].rename, files[k].path) == Some(path)
                &&& forall|j: int|
                    0 <= j < k ==> moved_from((#[trigger] files[j]).rename, files[j].path) != Some(
                        path,
                    )
            };
        assert(moved_from(files[k].rename, files[k].path) == Some(path));
    }
}

proof fn lemma_idle_entries(
    entries: Seq<(Seq<char>, FileSpecView)>,
    files: Seq<FileView>,
    p: ProblemView,
)
    ensures
        idle_entries(entries, files).contains(p) <==> (p matches ProblemView::NoSuchPath { path }
            && exists|i: int|
            0 <= i < entries.len() && (#[trigger] entries[i]).0 == path && keeps_an_absent_file(
                entries[i],
                files,
            )),
    decreases entries.len(),
{
    if entries.len() > 0 {
        let rest = entries.drop_last();
        let last = entries.len() - 1;
        lemma_idle_entries(rest, files, p);
        lemma_idle(entries[last].0, entries[last].1, files);
        let before = idle_entries(rest, files);
        let all = idle_entries(entries, files);
        if all.len() > before.len() {
            assert(all.drop_last() =~= before);
        }
        lemma_grown(before, all, p);
        if let ProblemView::NoSuchPath { path } = p {
            if exists|i: int|
                0 <= i < rest.len() && (#[trigger] rest[i]).0 == path && keeps_an_absent_file(
                    rest[i],
                    files,
                ) {
                let i = choose|i: int|
                    0 <= i < rest.len() && (#[trigger] rest[i]).0 == path && keeps_an_absent_file(
                        rest[i],
                        files,
                    );
                assert(entries[i] == rest[i]);
            }
            if exists|i: int|
                0 <= i < entries.len() && (#[trigger] entries[i]).0 == path && keeps_an_absent_file(
                    entries[i],
                    files,
                ) {
                let i = choose|i: int|
                    0 <= i < entries.len() && (#[trigger] entries[i]).0 == path
                        && keeps_an_absent_file(entries[i], files);
                if i < last {
                    assert(rest[i] == entries[i]);
                }
            }
        }
        assert(entries[last] == (entries[last].0, entries[last].1));
    }
}

/// Whether an entry that is written to keep something names a file of the diff.
pub open spec fn keeps_something_there(
    entries: Seq<(Seq<char>, FileSpecView)>,
    files: Seq<FileView>,
) -> bool {
    exists|i: int|
        0 <= i < entries.len() && means_to_keep((#[trigger] entries[i]).1) && !is_absent(
            files,
            entries[i].0,
        )
}

/// The problems of a spec are those that its entries have, and, where nothing in
/// it keeps anything that is there, the files that it keeps and that are not. A
/// spec without any of them is accepted.
pub proof fn a_spec_is_refused_for_the_problems_it_has(
    spec: SpecView,
    files: Seq<FileView>,
    p: ProblemView,
)
    ensures
        spec_problems(spec, files).contains(p) <==> (exists|i: int|
            0 <= i < spec.files.len() && has_problem(
                (#[trigger] spec.files[i]).0,
                spec.files[i].1,
                files,
                p,
            )) || (spec.default != DefaultAction::Keep && !keeps_something_there(spec.files, files)
            && (p matches ProblemView::NoSuchPath { path } && exists|i: int|
            0 <= i < spec.files.len() && (#[trigger] spec.files[i]).0 == path
                && keeps_an_absent_file(spec.files[i], files))),
{
    let own = problems_of(spec.files, files);
    let idle = idle_entries(spec.files, files);
    let lonely = !keeps_a_file(spec.files, files) && spec.default != DefaultAction::Keep;
    let all = own + (if lonely {
        idle
    } else {
        Seq::empty()
    });
    assert(keeps_a_file(spec.files, files) <==> keeps_something_there(spec.files, files)) by {
        assert forall|i: int| 0 <= i < spec.files.len() implies (file_at(
            files,
            (#[trigger] spec.files[i]).0,
        ) is Some <==> !is_absent(files, spec.files[i].0)) by {
            let path = spec.files[i].0;
            lemma_file_at(files, path);
            if let Some(f) = file_at(files, path) {
                let k = choose|k: int|
                    {
                        &&& 0 <= k < files.len()
                        &&& #[trigger] files[k] == f
                        &&& f.path == path
                        &&& forall|j: int| k < j < files.len() ==> (#[trigger] files[j]).path != path
                    };
                assert(files[k].path == path);
            }
        }
    }
    lemma_problems_of(spec.files, files, p);
    lemma_idle_entries(spec.files, files, p);
    lemma_appended(own, idle, p);
    assert(own + Seq::empty() =~= own);
    crate::names::sorting_orders_and_keeps_everything::<SpecProblem>(all);
    let shown: Seq<ProblemView> = sorted::<SpecProblem>(all);
    all.to_multiset_ensures();
    shown.to_multiset_ensures();
    assert(shown.contains(p) <==> shown.to_multiset().count(p) > 0);
    assert(all.contains(p) <==> all.to_multiset().count(p) > 0);
}

/// An id is said to name no hunk, one or several by how many of a file's hunks
/// begin with it.
pub proof fn an_id_names_the_hunks_it_begins(hunks: Seq<HunkView>, id: Seq<char>, h: HunkView)
    ensures
        named_by(hunks, id).contains(h) <==> hunks.contains(h) && begins_with(h.id, id),
        named_by(hunks, id).len() == 0 <==> forall|k: int|
            0 <= k < hunks.len() ==> !begins_with((#[trigger] hunks[k]).id, id),
    decreases hunks.len(),
{
    if hunks.len() > 0 {
        let rest = hunks.drop_last();
        let last = hunks.len() - 1;
        let before = named_by(rest, id);
        let all = named_by(hunks, id);
        an_id_names_the_hunks_it_begins(rest, id, h);
        assert forall|k: int| 0 <= k < rest.len() implies #[trigger] rest[k] == hunks[k] by {}
        if hunks.contains(h) && begins_with(h.id, id) {
            let k = choose|k: int| 0 <= k < hunks.len() && hunks[k] == h;
            if k < last {
                assert(rest[k] == h);
                let i = choose|i: int| 0 <= i < before.len() && before[i] == h;
                assert(all[i] == h);
            } else {
                assert(all[all.len() - 1] == h);
            }
        }
        if all.contains(h) {
            let i = choose|i: int| 0 <= i < all.len() && all[i] == h;
            if i < before.len() {
                assert(before[i] == h);
                let k = choose|k: int| 0 <= k < rest.len() && rest[k] == h;
                assert(hunks[k] == h);
            } else {
                assert(hunks[last] == h);
            }
        }
        if all.len() == 0 {
            assert forall|k: int| 0 <= k < hunks.len() implies !begins_with(
                (#[trigger] hunks[k]).id,
                id,
            ) by {
                if k < last {
                    assert(!begins_with(rest[k].id, id));
                }
            }
        } else if before.len() > 0 {
            let k = choose|k: int| 0 <= k < rest.len() && begins_with((#[trigger] rest[k]).id, id);
            assert(begins_with(hunks[k].id, id));
        } else {
            assert(begins_with(hunks[last].id, id));
        }
    }
}

/// A spec that is not written to keep anything keeps nothing of any file; one
/// that is decides to keep some of a file, whatever its other entries say.
pub proof fn a_spec_that_keeps_nothing_skips_every_file(spec: SpecView)
    requires
        forall|i: int, j: int|
            0 <= i < j < spec.files.len() ==> (#[trigger] spec.files[i]).0 != (
            #[trigger] spec.files[j]).0,
    ensures
        crate::spec::keeps_nothing(spec) ==> forall|path: Seq<char>| #[trigger]
            decided(spec, path) is Skip,
        forall|i: int|
            0 <= i < spec.files.len() ==> (means_to_keep((#[trigger] spec.files[i]).1) <==> !(
            decided(spec, spec.files[i].0) is Skip)),
{
    assert forall|i: int| 0 <= i < spec.files.len() implies (means_to_keep(
        (#[trigger] spec.files[i]).1,
    ) <==> !(decided(spec, spec.files[i].0) is Skip)) by {
        assert forall|j: int| 0 <= j < spec.files.len() && j != i implies (
        #[trigger] spec.files[j]).0 != spec.files[i].0 by {}
        crate::names::lemma_lookup(spec.files, i);
    }
    if crate::spec::keeps_nothing(spec) {
        assert forall|path: Seq<char>| #[trigger] decided(spec, path) is Skip by {
            if exists|i: int| 0 <= i < spec.files.len() && (#[trigger] spec.files[i]).0 == path {
                let i = choose|i: int|
                    0 <= i < spec.files.len() && (#[trigger] spec.files[i]).0 == path;
                assert(!means_to_keep(spec.files[i].1));
            } else {
                crate::names::lemma_lookup_none(spec.files, path);
            }
        }
    }
}

/// Stating where a file came from changes nothing else of its entry.
pub proof fn stating_a_source_changes_nothing_else(entry: FileSpecView, source: Seq<char>)
    ensures
        ({
            let after = with_source(entry, source);
            &&& source_of(after) == Some(source)
            &&& match (entry, after) {
                (
                    FileSpecView::Action { action: a, .. },
                    FileSpecView::Action { action: b, .. },
                ) => a == b,
                (FileSpecView::Selection(a), FileSpecView::Selection(b)) => a.hunks == b.hunks
                    && a.ids == b.ids,
                _ => false,
            }
        }),
{
}

/// A spec is refused for its paths exactly where one of them cannot be in the
/// workspace: a key, or the path that an entry says its file came from.
pub proof fn every_path_of_a_spec_is_checked(
    entries: Seq<(Seq<char>, FileSpecView)>,
    depth: int,
)
    ensures
        all_path_complaints(entries, depth).len() == 0 <==> forall|i: int|
            0 <= i < entries.len() ==> problem_of((#[trigger] entries[i]).0, depth) is None && (
            source_of(entries[i].1) matches Some(from) ==> problem_of(from, depth) is None),
    decreases entries.len(),
{
    if entries.len() > 0 {
        let rest = entries.drop_last();
        let last = entries.len() - 1;
        every_path_of_a_spec_is_checked(rest, depth);
        assert(entries[last] == entries.last());
        if all_path_complaints(rest, depth).len() == 0 {
            assert forall|i: int| 0 <= i < last implies problem_of(
                (#[trigger] entries[i]).0,
                depth,
            ) is None && (source_of(entries[i].1) matches Some(from) ==> problem_of(from, depth)
                is None) by {
                assert(rest[i] == entries[i]);
                assert(problem_of(rest[i].0, depth) is None);
            }
        } else {
            let i = choose|i: int|
                0 <= i < rest.len() && !(problem_of((#[trigger] rest[i]).0, depth) is None && (
                source_of(rest[i].1) matches Some(from) ==> problem_of(from, depth) is None));
            assert(entries[i] == rest[i]);
        }
    }
}

/// A spec that is not of another frame reads as it is written.
pub proof fn a_spec_of_this_frame_stays_as_it_is(
    pairs: Seq<(Seq<char>, Seq<char>)>,
    keys: Seq<Seq<char>>,
    m: Map<Seq<char>, FileSpecView>,
)
    requires
        !is_foreign(pairs, keys, m),
    ensures
        adopted(pairs, keys, m) == m,
{
    assert(all_retargeted(pairs, m) =~= m) by {
        assert forall|k: Seq<char>| #[trigger] m.dom().contains(k) implies retargeted(pairs, m[k])
            == m[k] by {}
    }
    assert(rewrites_of(pairs, keys, keys.len()) =~= Seq::empty());
}

/// Carrying an entry over to another frame changes nothing of it but the path
/// that its file came from, and that only where it is one of the other frame.
pub proof fn carrying_an_entry_over_changes_only_its_source(
    pairs: Seq<(Seq<char>, Seq<char>)>,
    entry: FileSpecView,
)
    ensures
        ({
            let after = retargeted(pairs, entry);
            &&& source_of(entry) is None ==> after == entry
            &&& source_of(entry) matches Some(from) ==> is_local(pairs, from) ==> after == entry
            &&& source_of(entry) matches Some(from) ==> !is_local(pairs, from) ==> match printed_as(
                pairs,
                from,
            ) {
                Some(local) => after == with_source(entry, local),
                None => after == entry,
            }
        }),
{
}

proof fn lemma_nothing_filled(m: Map<Seq<char>, FileSpecView>, files: Seq<FileView>)
    requires
        !any_filled(m, files),
    ensures
        filled_throughout(m, files) == m,
    decreases files.len(),
{
    if files.len() > 0 {
        lemma_nothing_filled(m, files.drop_last());
    }
}

proof fn lemma_something_filled(m: Map<Seq<char>, FileSpecView>, files: Seq<FileView>)
    requires
        any_filled(m, files),
    ensures
        filled_throughout(m, files) != m,
    decreases files.len(),
{
    let rest = files.drop_last();
    let f = files.last();
    let before = filled_throughout(m, rest);
    let after = filled_throughout(m, files);
    if any_filled(m, rest) {
        lemma_something_filled(m, rest);
        lemma_filled_where(m, rest);
        let path = choose|path: Seq<char>| #[trigger]
            m.dom().contains(path) && source_of(m[path]) is None && source_of(before[path]) is Some;
        assert(source_of(after[path]) is Some);
    } else {
        lemma_nothing_filled(m, rest);
        assert(source_of(after[f.path]) is Some);
    }
}

proof fn lemma_filled_where(m: Map<Seq<char>, FileSpecView>, files: Seq<FileView>)
    requires
        any_filled(m, files),
    ensures
        exists|path: Seq<char>| #[trigger]
            m.dom().contains(path) && source_of(m[path]) is None && source_of(
                filled_throughout(m, files)[path],
            ) is Some,
    decreases files.len(),
{
    let rest = files.drop_last();
    let f = files.last();
    let before = filled_throughout(m, rest);
    let after = filled_throughout(m, files);
    if any_filled(m, rest) {
        lemma_filled_where(m, rest);
        let path = choose|path: Seq<char>| #[trigger]
            m.dom().contains(path) && source_of(m[path]) is None && source_of(before[path]) is Some;
        assert(source_of(after[path]) is Some);
    } else {
        lemma_nothing_filled(m, rest);
        assert(m.dom().contains(f.path) && source_of(m[f.path]) is None && source_of(after[f.path])
            is Some);
    }
}

/// Filling in is said to change a spec exactly where it does.
pub proof fn filling_in_is_told_where_it_changes_anything(
    m: Map<Seq<char>, FileSpecView>,
    files: Seq<FileView>,
)
    ensures
        any_filled(m, files) <==> filled_throughout(m, files) != m,
{
    if any_filled(m, files) {
        lemma_something_filled(m, files);
    } else {
        lemma_nothing_filled(m, files);
    }
}

/// What is filled in for a file that was moved is where it came from.
pub proof fn what_is_filled_in_is_where_a_file_came_from(
    m: Map<Seq<char>, FileSpecView>,
    files: Seq<FileView>,
    path: Seq<char>,
)
    requires
        m.dom().contains(path),
        source_of(m[path]) is None,
    ensures
        filled_throughout(m, files).dom() == m.dom(),
        filled_throughout(m, files)[path] == m[path] || exists|i: int|
            {
                &&& 0 <= i < files.len()
                &&& (#[trigger] files[i]).path == path
                &&& moved_from(files[i].rename, path) matches Some(from) && filled_throughout(
                    m,
                    files,
                )[path] == with_source(m[path], from)
            },
    decreases files.len(),
{
    if files.len() > 0 {
        let rest = files.drop_last();
        let last = files.len() - 1;
        let before = filled_throughout(m, rest);
        let after = filled_throughout(m, files);
        what_is_filled_in_is_where_a_file_came_from(m, rest, path);
        assert(files[last] == files.last());
        assert(after.dom() =~= before.dom());
        if before[path] != m[path] {
            let i = choose|i: int|
                {
                    &&& 0 <= i < rest.len()
                    &&& (#[trigger] rest[i]).path == path
                    &&& moved_from(rest[i].rename, path) matches Some(from) && before[path]
                        == with_source(m[path], from)
                };
            assert(files[i] == rest[i]);
            assert(source_of(before[path]) is Some);
            assert(after[path] == before[path]);
        } else if after[path] != before[path] {
            assert(files[last].path == path);
        }
    }
}

/// The path that a problem is about.
pub open spec fn path_of_problem(p: ProblemView) -> Seq<char> {
    match p {
        ProblemView::RenamedTo { path, .. } => path,
        ProblemView::NoSuchPath { path } => path,
        ProblemView::NoSuchId { path, .. } => path,
        ProblemView::AmbiguousId { path, .. } => path,
        ProblemView::NoSuchIndex { path, .. } => path,
    }
}

/// What is reported of a problem names the path it is about, in words first of
/// all, and holds all of it: no two problems are reported alike.
pub proof fn a_report_holds_all_of_a_problem(a: ProblemView, b: ProblemView)
    ensures
        crate::text::begins_with(problem_text(a), path_of_problem(a)),
        problem_node(a) matches NodeView::Object(entries) && entries.contains(
            ("path"@, text_node(path_of_problem(a))),
        ),
        problem_node(a) == problem_node(b) <==> a == b,
{
    let path = path_of_problem(a);
    assert(problem_text(a).take(path.len() as int) =~= path);
    lemma_problem_kinds();
    let entries = problem_node(a)->Object_0;
    if a is RenamedTo {
        assert(entries[1] == ("path"@, text_node(path)));
    } else {
        assert(entries[entries.len() - 1] == ("path"@, text_node(path)));
    }
    if problem_node(a) == problem_node(b) {
        let x = problem_node(a)->Object_0;
        let y = problem_node(b)->Object_0;
        assert(x == y);
        assert(x.len() == y.len());
        assert(x[0] == y[0] && x[1] == y[1]);
        if x.len() > 2 {
            assert(x[2] == y[2]);
        }
        if x.len() > 3 {
            assert(x[3] == y[3]);
        }
        match (a, b) {
            (
                ProblemView::AmbiguousId { count, .. },
                ProblemView::AmbiguousId { count: other, .. },
            ) => {
                crate::hunkset::parser::digits_spell_the_number(count);
                crate::hunkset::parser::digits_spell_the_number(other);
            },
            (
                ProblemView::NoSuchIndex { index, hunk_count, .. },
                ProblemView::NoSuchIndex { index: i, hunk_count: n, .. },
            ) => {
                crate::hunkset::parser::digits_spell_the_number(index as nat);
                crate::hunkset::parser::digits_spell_the_number(i as nat);
                crate::hunkset::parser::digits_spell_the_number(hunk_count);
                crate::hunkset::parser::digits_spell_the_number(n);
            },
            _ => {},
        }
    }
}

proof fn lemma_problem_kinds()
    ensures
        "kind"@.len() == 4,
        "id"@.len() == 2,
        "count"@.len() == 5,
        "hunk_count"@.len() == 10,
{
    reveal_strlit("kind");
    reveal_strlit("id");
    reveal_strlit("count");
    reveal_strlit("hunk_count");
}

} // verus!
