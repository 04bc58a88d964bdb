//! What an expression keeps of the diff that it is evaluated against: exactly what
//! it selects, and nothing that is not there.

use crate::commands::{
    entries_of, hunkset_files, lemma_stood_for, needs_stand_in, real_entries, real_entry,
    sources_of, stand_in_entries, stand_in_entry, stood_for, whole_where_stood_for,
};
use crate::diff::{full_id, named_by, HunkView};
use crate::files::{moved_from, FileView};
use crate::hunkset::eval::{
    every_selected_hunk_is_named, ids_under, selection_files, some_selected, EntryView,
};
use crate::names::{deep_map, lemma_listed, lemma_position, lookup};
use crate::resolve::{
    decided, entry_problems, file_at, id_problems, idle_entries, keeps_a_file, position_selected,
    problems_of, selects, spec_problems, Decision, ProblemView,
};
use crate::spec::{ids_named, indices_of, Action, DefaultAction, FileSpecView, Spec, SpecView};
use crate::text::begins_with;
use vstd::prelude::*;

verus! {

/// Whether a file's hunks are told apart by their ids and numbered in order.
pub open spec fn hunks_apart(f: FileView) -> bool {
    &&& forall|j: int|
        0 <= j < f.hunks.len() ==> (#[trigger] f.hunks[j]).index == j && full_id(f.hunks[j].id)
    &&& forall|i: int, j: int|
        0 <= i < j < f.hunks.len() ==> (#[trigger] f.hunks[i]).id != (#[trigger] f.hunks[j]).id
}

/// Whether files are told apart by their paths, and their hunks by their ids.
pub open spec fn told_apart(files: Seq<FileView>) -> bool {
    &&& forall|i: int, j: int|
        0 <= i < j < files.len() ==> (#[trigger] files[i]).path != (#[trigger] files[j]).path
    &&& forall|k: int| 0 <= k < files.len() ==> hunks_apart(#[trigger] files[k])
}

/// Where the hunk `j` of the file `k` is among the entries.
pub open spec fn entry_at(files: Seq<FileView>, k: int, j: int) -> int {
    real_entries(files.take(k)).len() + j
}

/// Whether a spec has some entries.
pub open spec fn has_entries(s: SpecView, m: Map<Seq<char>, FileSpecView>) -> bool {
    &&& forall|path: Seq<char>|
        #![trigger lookup(s.files, path)]
        lookup(s.files, path) == (if m.dom().contains(path) {
            Some(m[path])
        } else {
            None
        })
    &&& forall|i: int|
        0 <= i < s.files.len() ==> m.dom().contains((#[trigger] s.files[i]).0) && m[s.files[i].0]
            == s.files[i].1
}

/// Whether a spec keeps the hunk `j` of a file.
pub open spec fn keeps_hunk(s: SpecView, f: FileView, j: int) -> bool {
    match decided(s, f.path) {
        Decision::Skip => false,
        Decision::KeepAll => true,
        Decision::KeepSelection { indices, ids } => position_selected(
            indices,
            ids,
            f.hunks,
            f.hunks[j].index,
        ),
    }
}

proof fn lemma_entry_at(files: Seq<FileView>, k: int, j: int)
    requires
        0 <= k < files.len(),
        0 <= j < files[k].hunks.len(),
    ensures
        0 <= entry_at(files, k, j) < real_entries(files).len(),
        real_entries(files)[entry_at(files, k, j)] == real_entry(files[k], files[k].hunks[j]),
    decreases files.len(),
{
    let front = files.drop_last();
    if k == files.len() - 1 {
        assert(files.take(k) =~= front);
    } else {
        assert(front.take(k) =~= files.take(k));
        lemma_entry_at(front, k, j);
        assert(real_entries(files)[entry_at(files, k, j)] == real_entries(front)[entry_at(
            front,
            k,
            j,
        )]);
    }
}

proof fn lemma_entry_source(files: Seq<FileView>, e: int) -> (r: (int, int))
    requires
        0 <= e < real_entries(files).len(),
    ensures
        0 <= r.0 < files.len(),
        0 <= r.1 < files[r.0].hunks.len(),
        e == entry_at(files, r.0, r.1),
    decreases files.len(),
{
    let front = files.drop_last();
    let n = real_entries(front).len();
    if e < n {
        let (k, j) = lemma_entry_source(front, e);
        assert(front.take(k) =~= files.take(k));
        (k, j)
    } else {
        assert(files.take(files.len() - 1) =~= front);
        (files.len() - 1, e - n)
    }
}

/// Which file a stand-in is for.
proof fn lemma_stand_in_source(files: Seq<FileView>, e: int) -> (k: int)
    requires
        real_entries(files).len() <= e < entries_of(files).len(),
    ensures
        0 <= k < files.len(),
        needs_stand_in(files[k]),
        entries_of(files)[e] == stand_in_entry(files[k]),
        stood_for(files, files.len())[e - real_entries(files).len()] == k,
{
    lemma_stood_for(files, files.len());
    assert(files.take(files.len() as int) =~= files);
    let at = e - real_entries(files).len();
    assert(entries_of(files)[e] == stand_in_entries(files)[at]);
    stood_for(files, files.len())[at]
}

proof fn lemma_whole(m: Map<Seq<char>, FileSpecView>, files: Seq<FileView>, path: Seq<char>)
    ensures
        whole_where_stood_for(m, files).dom() == m.dom(),
        (forall|k: int|
            0 <= k < files.len() && needs_stand_in(#[trigger] files[k]) ==> files[k].path != path)
            ==> whole_where_stood_for(m, files)[path] == m[path],
    decreases files.len(),
{
    if files.len() > 0 {
        let front = files.drop_last();
        lemma_whole(m, front, path);
        let rest = whole_where_stood_for(m, front);
        let f = files.last();
        assert(rest.dom().insert(f.path) =~= if rest.dom().contains(f.path) {
            rest.dom()
        } else {
            rest.dom().insert(f.path)
        });
        if forall|k: int|
            0 <= k < files.len() && needs_stand_in(#[trigger] files[k]) ==> files[k].path != path {
            assert forall|k: int|
                0 <= k < front.len() && needs_stand_in(#[trigger] front[k]) implies front[k].path
                != path by {
                assert(front[k] == files[k]);
            }
            assert(files[files.len() - 1] == f);
        }
    }
}

proof fn lemma_whole_at(m: Map<Seq<char>, FileSpecView>, files: Seq<FileView>, k: int)
    requires
        told_apart(files),
        0 <= k < files.len(),
        needs_stand_in(files[k]),
        m.dom().contains(files[k].path),
    ensures
        whole_where_stood_for(m, files)[files[k].path] == (FileSpecView::Action {
            action: Action::Keep,
            from: moved_from(files[k].rename, files[k].path),
        }),
    decreases files.len(),
{
    let front = files.drop_last();
    lemma_whole(m, front, files[k].path);
    if k < front.len() {
        assert forall|i: int, j: int| 0 <= i < j < front.len() implies (#[trigger] front[i]).path
            != (#[trigger] front[j]).path by {
            assert(front[i] == files[i] && front[j] == files[j]);
        }
        assert forall|i: int| 0 <= i < front.len() implies hunks_apart(#[trigger] front[i]) by {
            assert(front[i] == files[i]);
        }
        assert(front[k] == files[k]);
        lemma_whole_at(m, front, k);
        assert(files[k].path != files[files.len() - 1].path);
    }
}

proof fn lemma_under_source(
    entries: Seq<EntryView>,
    selected: Set<usize>,
    path: Seq<char>,
    n: nat,
    at: int,
) -> (i: usize)
    requires
        n <= entries.len() <= usize::MAX,
        0 <= at < ids_under(entries, selected, path, n).len(),
    ensures
        i < n,
        selected.contains(i),
        entries[i as int].path == path,
        entries[i as int].hunk.id == ids_under(entries, selected, path, n)[at],
    decreases n,
{
    let rest = ids_under(entries, selected, path, (n - 1) as nat);
    if at < rest.len() {
        lemma_under_source(entries, selected, path, (n - 1) as nat, at)
    } else {
        (n - 1) as usize
    }
}

/// Which hunk of a file an entry under its path is.
proof fn lemma_of_the_file(files: Seq<FileView>, k: int, e: int) -> (j: int)
    requires
        told_apart(files),
        0 <= k < files.len(),
        files[k].hunks.len() > 0,
        0 <= e < entries_of(files).len(),
        entries_of(files)[e].path == files[k].path,
    ensures
        0 <= j < files[k].hunks.len(),
        e == entry_at(files, k, j),
        entries_of(files)[e].hunk == files[k].hunks[j],
{
    let diffed = real_entries(files);
    if e < diffed.len() {
        let (k2, j) = lemma_entry_source(files, e);
        lemma_entry_at(files, k2, j);
        assert(entries_of(files)[e] == diffed[e]);
        assert(files[k2].path == files[k].path);
        assert(k2 == k);
        j
    } else {
        let k2 = lemma_stand_in_source(files, e);
        assert(files[k2].path == files[k].path);
        assert(k2 == k);
        0
    }
}

proof fn lemma_same_full_id(a: Seq<char>, b: Seq<char>)
    requires
        full_id(a),
        full_id(b),
        begins_with(a, b),
    ensures
        a == b,
{
    assert(a.take(b.len() as int) =~= a);
}

/// An expression keeps exactly the hunks that it selects: the spec it comes to
/// keeps the hunk of a diff where that is selected, and nowhere else.
pub proof fn a_hunkset_keeps_exactly_what_it_selects(
    files: Seq<FileView>,
    selected: Set<usize>,
    s: SpecView,
    k: int,
    j: int,
)
    requires
        told_apart(files),
        entries_of(files).len() <= usize::MAX,
        s.default == DefaultAction::Reset,
        has_entries(s, hunkset_files(files, selected)),
        0 <= k < files.len(),
        0 <= j < files[k].hunks.len(),
    ensures
        keeps_hunk(s, files[k], j) == selected.contains(entry_at(files, k, j) as usize),
{
    let f = files[k];
    let entries = entries_of(files);
    let sources = sources_of(files);
    let m = selection_files(entries, selected, sources);
    let e = entry_at(files, k, j);
    lemma_entry_at(files, k, j);
    assert(entries[e] == real_entry(f, f.hunks[j]));
    assert forall|i: int| 0 <= i < files.len() && needs_stand_in(#[trigger] files[i]) implies files[i].path
        != f.path by {
        assert(i != k);
    }
    lemma_whole(m, files, f.path);
    assert(lookup(s.files, f.path) == (if m.dom().contains(f.path) {
        Some(m[f.path])
    } else {
        None
    }));
    if selected.contains(e as usize) {
        every_selected_hunk_is_named(entries, selected, sources, e as usize);
        let sel = m[f.path]->Selection_0;
        assert(sel.ids.contains(f.hunks[j].id));
        assert(ids_named(sel) =~= sel.ids);
        assert(ids_named(sel).to_set().contains(f.hunks[j].id));
        assert(begins_with(f.hunks[j].id, f.hunks[j].id)) by {
            assert(f.hunks[j].id.take(f.hunks[j].id.len() as int) =~= f.hunks[j].id);
        }
        assert(selects(indices_of(sel.hunks), ids_named(sel).to_set(), f.hunks[j]));
    }
    if keeps_hunk(s, f, j) {
        assert(m.dom().contains(f.path));
        let sel = m[f.path]->Selection_0;
        let ids = ids_named(sel).to_set();
        assert(ids_named(sel) =~= sel.ids);
        assert(hunks_apart(f));
        let at = choose|at: int|
            0 <= at < f.hunks.len() && (#[trigger] f.hunks[at]).index == f.hunks[j].index
                && selects(indices_of(sel.hunks), ids, f.hunks[at]);
        assert(at == j);
        assert(!indices_of(sel.hunks).contains(f.hunks[j].index));
        let id = choose|id: Seq<char>| #[trigger] ids.contains(id) && begins_with(f.hunks[j].id, id);
        assert(sel.ids.contains(id));
        let place = sel.ids.index_of(id);
        let i = lemma_under_source(entries, selected, f.path, entries.len(), place);
        let j2 = lemma_of_the_file(files, k, i as int);
        assert(full_id(f.hunks[j2].id) && full_id(f.hunks[j].id));
        lemma_same_full_id(f.hunks[j].id, id);
        if j2 < j {
            assert(f.hunks[j2].id != f.hunks[j].id);
        } else if j < j2 {
            assert(f.hunks[j].id != f.hunks[j2].id);
        }
        assert(i as int == e);
    }
}

/// A change without hunks is kept whole where its stand-in is selected, and is
/// reset where it is not.
pub proof fn a_hunkset_keeps_a_hunkless_change_where_it_is_selected(
    files: Seq<FileView>,
    selected: Set<usize>,
    s: SpecView,
    e: usize,
)
    requires
        told_apart(files),
        s.default == DefaultAction::Reset,
        has_entries(s, hunkset_files(files, selected)),
        real_entries(files).len() <= e < entries_of(files).len() <= usize::MAX,
    ensures
        ({
            let k = stood_for(files, files.len())[e - real_entries(files).len()];
            &&& 0 <= k < files.len()
            &&& needs_stand_in(files[k])
            &&& decided(s, files[k].path) == (if selected.contains(e) {
                Decision::KeepAll
            } else {
                Decision::Skip
            })
        }),
{
    let k = lemma_stand_in_source(files, e as int);
    let f = files[k];
    let entries = entries_of(files);
    let m = selection_files(entries, selected, sources_of(files));
    lemma_whole(m, files, f.path);
    assert(lookup(s.files, f.path) == (if m.dom().contains(f.path) {
        Some(hunkset_files(files, selected)[f.path])
    } else {
        None
    }));
    if selected.contains(e) {
        assert(some_selected(entries, selected, f.path, entries.len()));
        lemma_whole_at(m, files, k);
    } else if m.dom().contains(f.path) {
        let i = choose|i: usize|
            i < entries.len() && #[trigger] selected.contains(i) && entries[i as int].path
                == f.path;
        lemma_only_stand_in(files, k, i as int, e as int);
        assert(false);
    }
}

proof fn lemma_stood_for_apart(files: Seq<FileView>, n: nat, a: int, b: int)
    requires
        n <= files.len(),
        0 <= a < b < stood_for(files, n).len(),
    ensures
        stood_for(files, n)[a] < stood_for(files, n)[b],
    decreases n,
{
    let rest = stood_for(files, (n - 1) as nat);
    lemma_stood_for(files, (n - 1) as nat);
    if b < rest.len() {
        lemma_stood_for_apart(files, (n - 1) as nat, a, b);
    } else {
        assert(rest[a] < n - 1);
    }
}

/// A change without hunks has one entry.
proof fn lemma_only_stand_in(files: Seq<FileView>, k: int, i: int, e: int)
    requires
        told_apart(files),
        0 <= k < files.len(),
        needs_stand_in(files[k]),
        real_entries(files).len() <= e < entries_of(files).len(),
        stood_for(files, files.len())[e - real_entries(files).len()] == k,
        0 <= i < entries_of(files).len(),
        entries_of(files)[i].path == files[k].path,
    ensures
        i == e,
{
    let diffed = real_entries(files);
    if i < diffed.len() {
        let (k2, j) = lemma_entry_source(files, i);
        lemma_entry_at(files, k2, j);
        assert(entries_of(files)[i] == diffed[i]);
        assert(k2 == k);
    } else {
        let k2 = lemma_stand_in_source(files, i);
        assert(k2 == k);
        let (a, b) = (i - diffed.len(), e - diffed.len());
        lemma_stood_for(files, files.len());
        assert(files.take(files.len() as int) =~= files);
        if a < b {
            lemma_stood_for_apart(files, files.len(), a, b);
        } else if b < a {
            lemma_stood_for_apart(files, files.len(), b, a);
        }
    }
}

proof fn lemma_named_once(hunks: Seq<HunkView>, f: FileView, j: int, n: int)
    requires
        hunks_apart(f),
        0 <= j < f.hunks.len(),
        0 <= n <= f.hunks.len(),
        hunks == f.hunks.take(n),
    ensures
        named_by(hunks, f.hunks[j].id).len() == (if j < n {
            1nat
        } else {
            0nat
        }),
    decreases n,
{
    if n > 0 {
        let id = f.hunks[j].id;
        assert(hunks.drop_last() =~= f.hunks.take(n - 1));
        lemma_named_once(hunks.drop_last(), f, j, n - 1);
        assert(hunks.last() == f.hunks[n - 1]);
        if j == n - 1 {
            assert(id.take(id.len() as int) =~= id);
        } else if begins_with(f.hunks[n - 1].id, id) {
            lemma_same_full_id(f.hunks[n - 1].id, id);
            assert(f.hunks[j].id != f.hunks[n - 1].id);
        }
    }
}

spec fn has_id(f: FileView, id: Seq<char>) -> bool {
    exists|j: int| 0 <= j < f.hunks.len() && (#[trigger] f.hunks[j]).id == id
}

proof fn lemma_no_id_problems(path: Seq<char>, f: FileView, ids: Seq<Seq<char>>)
    requires
        hunks_apart(f),
        forall|i: int| 0 <= i < ids.len() ==> has_id(f, #[trigger] ids[i]),
    ensures
        id_problems(path, f.hunks, ids).len() == 0,
    decreases ids.len(),
{
    if ids.len() > 0 {
        let front = ids.drop_last();
        assert forall|i: int| 0 <= i < front.len() implies has_id(f, #[trigger] front[i]) by {
            assert(front[i] == ids[i]);
        }
        lemma_no_id_problems(path, f, front);
        let last = ids[ids.len() - 1];
        assert(has_id(f, last));
        let j = choose|j: int| 0 <= j < f.hunks.len() && (#[trigger] f.hunks[j]).id == last;
        assert(f.hunks.take(f.hunks.len() as int) =~= f.hunks);
        lemma_named_once(f.hunks, f, j, f.hunks.len() as int);
    }
}

pub(crate) proof fn lemma_file_at(files: Seq<FileView>, k: int)
    requires
        told_apart(files),
        0 <= k < files.len(),
    ensures
        file_at(files, files[k].path) == Some(files[k]),
    decreases files.len(),
{
    let front = files.drop_last();
    if k < front.len() {
        assert(files[k].path != files[files.len() - 1].path);
        assert forall|i: int, j: int| 0 <= i < j < front.len() implies (#[trigger] front[i]).path
            != (#[trigger] front[j]).path by {
            assert(front[i] == files[i] && front[j] == files[j]);
        }
        assert forall|i: int| 0 <= i < front.len() implies hunks_apart(#[trigger] front[i]) by {
            assert(front[i] == files[i]);
        }
        assert(front[k] == files[k]);
        lemma_file_at(front, k);
    }
}

/// Which file some entry is of.
proof fn lemma_file_of(files: Seq<FileView>, e: int) -> (k: int)
    requires
        0 <= e < entries_of(files).len(),
    ensures
        0 <= k < files.len(),
        entries_of(files)[e].path == files[k].path,
        files[k].hunks.len() > 0 || needs_stand_in(files[k]),
{
    let diffed = real_entries(files);
    if e < diffed.len() {
        let (k, j) = lemma_entry_source(files, e);
        lemma_entry_at(files, k, j);
        assert(entries_of(files)[e] == diffed[e]);
        k
    } else {
        lemma_stand_in_source(files, e)
    }
}

proof fn lemma_no_problems(files: Seq<FileView>, selected: Set<usize>, path: Seq<char>)
    requires
        told_apart(files),
        entries_of(files).len() <= usize::MAX,
        hunkset_files(files, selected).dom().contains(path),
    ensures
        entry_problems(path, hunkset_files(files, selected)[path], files).len()
            == 0,
        file_at(files, path) is Some,
{
    let entries = entries_of(files);
    let m = selection_files(entries, selected, sources_of(files));
    lemma_whole(m, files, path);
    let e = choose|e: usize|
        e < entries.len() && #[trigger] selected.contains(e) && entries[e as int].path == path;
    let k = lemma_file_of(files, e as int);
    let f = files[k];
    lemma_file_at(files, k);
    if needs_stand_in(f) {
        lemma_whole_at(m, files, k);
    } else {
        assert forall|i: int|
            0 <= i < files.len() && needs_stand_in(#[trigger] files[i]) implies files[i].path
            != path by {
            assert(i != k);
        }
        let sel = m[path]->Selection_0;
        assert(ids_named(sel) =~= sel.ids);
        assert forall|i: int| 0 <= i < sel.ids.len() implies has_id(f, #[trigger] sel.ids[i]) by {
            let at = lemma_under_source(entries, selected, path, entries.len(), i);
            let j = lemma_of_the_file(files, k, at as int);
            assert(f.hunks[j].id == sel.ids[i]);
        }
        lemma_no_id_problems(path, f, sel.ids);
    }
}

proof fn lemma_no_problems_at_all(
    files: Seq<FileView>,
    selected: Set<usize>,
    list: Seq<(Seq<char>, FileSpecView)>,
)
    requires
        told_apart(files),
        entries_of(files).len() <= usize::MAX,
        forall|i: int|
            0 <= i < list.len() ==> hunkset_files(files, selected).dom().contains(
                (#[trigger] list[i]).0,
            ) && hunkset_files(files, selected)[list[i].0] == list[i].1,
    ensures
        problems_of(list, files).len() == 0,
        idle_entries(list, files).len() == 0,
    decreases list.len(),
{
    if list.len() > 0 {
        let front = list.drop_last();
        assert forall|i: int| 0 <= i < front.len() implies hunkset_files(
            files,
            selected,
        ).dom().contains((#[trigger] front[i]).0) && hunkset_files(files, selected)[front[i].0]
            == front[i].1 by {
            assert(front[i] == list[i]);
        }
        lemma_no_problems_at_all(files, selected, front);
        assert(list[list.len() - 1] == list.last());
        lemma_no_problems(files, selected, list.last().0);
    }
}

/// Everything that an expression's spec names is in the diff it was evaluated
/// against, so that it needs no checking.
pub proof fn a_hunkset_names_only_what_is_there(
    files: Seq<FileView>,
    selected: Set<usize>,
    s: SpecView,
)
    requires
        told_apart(files),
        entries_of(files).len() <= usize::MAX,
        s.default == DefaultAction::Reset,
        has_entries(s, hunkset_files(files, selected)),
    ensures
        spec_problems(s, files).len() == 0,
{
    lemma_no_problems_at_all(files, selected, s.files);
    let none = Seq::<ProblemView>::empty();
    assert(problems_of(s.files, files) + (if !keeps_a_file(
        s.files,
        files,
    ) && s.default != DefaultAction::Keep {
        idle_entries(s.files, files)
    } else {
        none
    }) =~= none);
}

/// A spec has the entries that its map holds.
pub proof fn a_spec_has_the_entries_of_its_map(spec: Spec)
    requires
        spec.files.well_formed(),
    ensures
        has_entries(spec.deep_view(), deep_map(spec.files)),
{
    let s = spec.deep_view();
    let m = deep_map(spec.files);
    assert forall|path: Seq<char>|
        #![trigger lookup(s.files, path)]
        lookup(s.files, path) == (if m.dom().contains(path) {
            Some(m[path])
        } else {
            None
        }) by {
        lemma_listed(spec.files, path);
    }
    assert forall|i: int| 0 <= i < s.files.len() implies m.dom().contains(
        (#[trigger] s.files[i]).0,
    ) && m[s.files[i].0] == s.files[i].1 by {
        let path = s.files[i].0;
        lemma_position(spec.files.keys(), i);
        lemma_listed(spec.files, path);
        assert(spec.files.has(path));
    }
}

} // verus!
