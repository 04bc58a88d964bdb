//! What a template keeps of the diff that it was made from: all of it, and nothing
//! that is not there.

use crate::diff::{an_abbreviation_names_no_other_id, full_id, ids_of, named_by, HunkView};
use crate::files::{all_ids, has_hunkless_change, with_short_ids_throughout, FileView};
use crate::keeping::{has_entries, hunks_apart, keeps_hunk, lemma_file_at, told_apart};
use crate::listing::{
    as_file_spec, entry_of, is_listed, listed_files, listed_hunks, listing_entries, template_entry,
    template_of, EntryOut, FileEntry,
};
use crate::names::{lookup, sorted, sorting_orders_and_keeps_everything};
use crate::resolve::{
    decided, entry_problems, file_at, id_problems, idle_entries, index_problems, kept_hunks,
    keeps_a_file, position_selected, problems_of, selects, spec_problems, Decision, ProblemView,
};
use crate::spec::{ids_named, selector_ids, DefaultAction, FileSpecView, SelectorView, SpecView};
use crate::text::begins_with;
use vstd::prelude::*;

verus! {

// ---------------------------------------------------------------------------
// Short ids
// ---------------------------------------------------------------------------

/// Whether the short id of each hunk of a file names that hunk and no other.
pub open spec fn short_ids_tell(hunks: Seq<HunkView>) -> bool {
    &&& forall|i: int|
        0 <= i < hunks.len() ==> begins_with(
            (#[trigger] hunks[i]).id,
            hunks[i].short_id,
        )
    &&& forall|i: int, j: int|
        0 <= i < hunks.len() && 0 <= j < hunks.len() && i != j ==> !begins_with(
            (#[trigger] hunks[j]).id,
            (#[trigger] hunks[i]).short_id,
        )
}

proof fn lemma_id_at(files: Seq<FileView>, k: int, j: int) -> (at: int)
    requires
        0 <= k < files.len(),
        0 <= j < files[k].hunks.len(),
    ensures
        0 <= at < all_ids(files).len(),
        all_ids(files)[at] == files[k].hunks[j].id,
    decreases files.len(),
{
    let front = files.drop_last();
    let own = ids_of(files.last().hunks);
    if k == files.len() - 1 {
        assert(own[j] == files[k].hunks[j].id);
        all_ids(front).len() + j
    } else {
        let at = lemma_id_at(front, k, j);
        assert((all_ids(front) + own)[at] == all_ids(front)[at]);
        at
    }
}

/// The short ids of a diff name one hunk each, in whatever file it is.
pub proof fn short_ids_name_one_hunk(files: Seq<FileView>, k: int)
    requires
        told_apart(files),
        0 <= k < files.len(),
    ensures
        short_ids_tell(with_short_ids_throughout(files)[k].hunks),
{
    let ids = all_ids(files);
    let hunks = files[k].hunks;
    let shown = with_short_ids_throughout(files)[k].hunks;
    assert(hunks_apart(files[k]));
    assert forall|i: int, j: int|
        0 <= i < shown.len() && 0 <= j < shown.len() && i != j implies !begins_with(
        (#[trigger] shown[j]).id,
        (#[trigger] shown[i]).short_id,
    ) by {
        let a = lemma_id_at(files, k, i);
        let b = lemma_id_at(files, k, j);
        assert(full_id(hunks[i].id) && full_id(hunks[j].id));
        assert(hunks[i].id != hunks[j].id);
        an_abbreviation_names_no_other_id(ids, a, b);
    }
    assert forall|i: int| 0 <= i < shown.len() implies begins_with(
        (#[trigger] shown[i]).id,
        shown[i].short_id,
    ) by {
        assert(full_id(hunks[i].id));
        crate::diff::an_abbreviation_begins_its_id(ids, hunks[i].id);
    }
}

proof fn lemma_named_once(hunks: Seq<HunkView>, id: Seq<char>, j: int)
    requires
        0 <= j < hunks.len(),
        begins_with(hunks[j].id, id),
        forall|i: int| 0 <= i < hunks.len() && i != j ==> !begins_with((#[trigger] hunks[i]).id, id),
    ensures
        named_by(hunks, id).len() == 1,
    decreases hunks.len(),
{
    let front = hunks.drop_last();
    if j == hunks.len() - 1 {
        assert forall|i: int| 0 <= i < front.len() implies !begins_with(
            (#[trigger] front[i]).id,
            id,
        ) by {
            assert(front[i] == hunks[i]);
        }
        lemma_named_never(front, id);
    } else {
        assert forall|i: int| 0 <= i < front.len() && i != j implies !begins_with(
            (#[trigger] front[i]).id,
            id,
        ) by {
            assert(front[i] == hunks[i]);
        }
        assert(front[j] == hunks[j]);
        lemma_named_once(front, id, j);
        assert(!begins_with(hunks[hunks.len() - 1].id, id));
    }
}

proof fn lemma_named_never(hunks: Seq<HunkView>, id: Seq<char>)
    requires
        forall|i: int| 0 <= i < hunks.len() ==> !begins_with((#[trigger] hunks[i]).id, id),
    ensures
        named_by(hunks, id).len() == 0,
    decreases hunks.len(),
{
    if hunks.len() > 0 {
        let front = hunks.drop_last();
        assert forall|i: int| 0 <= i < front.len() implies !begins_with(
            (#[trigger] front[i]).id,
            id,
        ) by {
            assert(front[i] == hunks[i]);
        }
        lemma_named_never(front, id);
        assert(!begins_with(hunks[hunks.len() - 1].id, id));
    }
}

// ---------------------------------------------------------------------------
// What a template is made from
// ---------------------------------------------------------------------------

/// A template read as the entries of a spec.
pub open spec fn template_specs(entries: Seq<EntryOut>) -> Map<Seq<char>, FileSpecView> {
    Map::new(
        |path: Seq<char>| template_of(entries).dom().contains(path),
        |path: Seq<char>| as_file_spec(template_of(entries)[path]),
    )
}

/// Every path of a template is that of a listed file, and what it has for it is
/// what was listed.
proof fn lemma_template_source(entries: Seq<EntryOut>, path: Seq<char>) -> (i: int)
    requires
        template_of(entries).dom().contains(path),
    ensures
        0 <= i < entries.len(),
        entries[i].path == path,
        template_of(entries)[path] == template_entry(entries[i]),
    decreases entries.len(),
{
    let front = entries.drop_last();
    if entries.last().path == path {
        entries.len() - 1
    } else {
        lemma_template_source(front, path)
    }
}

proof fn lemma_in_template(entries: Seq<EntryOut>, i: int)
    requires
        0 <= i < entries.len(),
    ensures
        template_of(entries).dom().contains(entries[i].path),
    decreases entries.len(),
{
    if i < entries.len() - 1 {
        lemma_in_template(entries.drop_last(), i);
    }
}

/// A listed file is a file of the diff, and its hunks are among that file's.
proof fn lemma_selected_source(
    spec: Option<SpecView>,
    included: Seq<Seq<char>>,
    excluded: Seq<Seq<char>>,
    files: Seq<FileView>,
    i: int,
) -> (k: int)
    requires
        0 <= i < listed_files(spec, included, excluded, files).len(),
    ensures
        0 <= k < files.len(),
        listed_files(spec, included, excluded, files)[i] == entry_of(
            files[k],
            listed_hunks(crate::listing::decision_for(spec, files[k].path), files[k]),
        ),
    decreases files.len(),
{
    let front = files.drop_last();
    let rest = listed_files(spec, included, excluded, front);
    if i < rest.len() {
        lemma_selected_source(spec, included, excluded, front, i)
    } else {
        files.len() - 1
    }
}

/// The same of a listing, which is in the order of its paths.
proof fn lemma_listed_source(
    spec: Option<SpecView>,
    included: Seq<Seq<char>>,
    excluded: Seq<Seq<char>>,
    files: Seq<FileView>,
    i: int,
) -> (k: int)
    requires
        0 <= i < listing_entries(spec, included, excluded, files).len(),
    ensures
        0 <= k < files.len(),
        listing_entries(spec, included, excluded, files)[i] == entry_of(
            files[k],
            listed_hunks(crate::listing::decision_for(spec, files[k].path), files[k]),
        ),
{
    let selected = listed_files(spec, included, excluded, files);
    let shown = listing_entries(spec, included, excluded, files);
    lemma_same_items(selected);
    assert(shown.contains(shown[i]));
    let j = choose|j: int| 0 <= j < selected.len() && selected[j] == shown[i];
    lemma_selected_source(spec, included, excluded, files, j)
}

/// Sorting keeps what is there.
proof fn lemma_same_items(items: Seq<EntryOut>)
    ensures
        forall|e: EntryOut|
            #[trigger] sorted::<FileEntry>(items).contains(e) <==> items.contains(e),
{
    broadcast use vstd::seq_lib::group_to_multiset_ensures;

    sorting_orders_and_keeps_everything::<FileEntry>(items);
    assert forall|e: EntryOut|
        #[trigger] sorted::<FileEntry>(items).contains(e) <==> items.contains(e) by {
        assert(sorted::<FileEntry>(items).to_multiset().count(e) == items.to_multiset().count(e));
    }
}

proof fn lemma_kept_source(
    indices: Set<usize>,
    ids: Set<Seq<char>>,
    all: Seq<HunkView>,
    n: nat,
    i: int,
) -> (j: int)
    requires
        n <= all.len(),
        0 <= i < kept_hunks(indices, ids, all, n).len(),
    ensures
        0 <= j < all.len(),
        kept_hunks(indices, ids, all, n)[i] == all[j],
    decreases n,
{
    let rest = kept_hunks(indices, ids, all, (n - 1) as nat);
    if i < rest.len() {
        lemma_kept_source(indices, ids, all, (n - 1) as nat, i)
    } else {
        n - 1
    }
}

proof fn lemma_hunk_source(d: Decision, f: FileView, i: int) -> (j: int)
    requires
        0 <= i < listed_hunks(d, f).len(),
    ensures
        0 <= j < f.hunks.len(),
        listed_hunks(d, f)[i] == f.hunks[j],
{
    match d {
        Decision::KeepSelection { indices, ids } => lemma_kept_source(
            indices,
            ids,
            f.hunks,
            f.hunks.len(),
            i,
        ),
        _ => i,
    }
}

// ---------------------------------------------------------------------------
// Laws
// ---------------------------------------------------------------------------

proof fn lemma_ids_resolve(path: Seq<char>, hunks: Seq<HunkView>, ids: Seq<Seq<char>>)
    requires
        forall|i: int| 0 <= i < ids.len() ==> named_by(hunks, #[trigger] ids[i]).len() == 1,
    ensures
        id_problems(path, hunks, ids).len() == 0,
    decreases ids.len(),
{
    if ids.len() > 0 {
        let front = ids.drop_last();
        assert forall|i: int| 0 <= i < front.len() implies named_by(
            hunks,
            #[trigger] front[i],
        ).len() == 1 by {
            assert(front[i] == ids[i]);
        }
        lemma_ids_resolve(path, hunks, front);
        assert(named_by(hunks, ids[ids.len() - 1]).len() == 1);
    }
}

proof fn lemma_template_entry_resolves(
    spec: Option<SpecView>,
    included: Seq<Seq<char>>,
    excluded: Seq<Seq<char>>,
    files: Seq<FileView>,
    path: Seq<char>,
)
    requires
        told_apart(files),
        forall|k: int| 0 <= k < files.len() ==> short_ids_tell((#[trigger] files[k]).hunks),
        template_specs(listing_entries(spec, included, excluded, files)).dom().contains(path),
    ensures
        entry_problems(
            path,
            template_specs(listing_entries(spec, included, excluded, files))[path],
            files,
        ).len() == 0,
        file_at(files, path) is Some,
{
    let entries = listing_entries(spec, included, excluded, files);
    let i = lemma_template_source(entries, path);
    let k = lemma_listed_source(spec, included, excluded, files, i);
    let f = files[k];
    let d = crate::listing::decision_for(spec, f.path);
    lemma_file_at(files, k);
    let e = entries[i];
    let entry = template_specs(entries)[path];
    assert(entry == as_file_spec(template_entry(e)));
    if let FileSpecView::Selection(s) = entry {
        assert(s.hunks =~= Seq::<SelectorView>::empty());
        assert(selector_ids(s.hunks) =~= Seq::<Seq<char>>::empty());
        let ids = ids_named(s);
        assert(ids =~= s.ids);
        assert forall|m: int| 0 <= m < ids.len() implies named_by(
            f.hunks,
            #[trigger] ids[m],
        ).len() == 1 by {
            let j = lemma_hunk_source(d, f, m);
            assert(ids[m] == f.hunks[j].short_id);
            assert(short_ids_tell(f.hunks));
            lemma_named_once(f.hunks, ids[m], j);
        }
        lemma_ids_resolve(path, f.hunks, ids);
        assert(index_problems(path, f.hunks, s.hunks).len() == 0);
    }
}

proof fn lemma_template_resolves(
    spec: Option<SpecView>,
    included: Seq<Seq<char>>,
    excluded: Seq<Seq<char>>,
    files: Seq<FileView>,
    list: Seq<(Seq<char>, FileSpecView)>,
)
    requires
        told_apart(files),
        forall|k: int| 0 <= k < files.len() ==> short_ids_tell((#[trigger] files[k]).hunks),
        ({
            let m = template_specs(listing_entries(spec, included, excluded, files));
            forall|i: int|
                0 <= i < list.len() ==> m.dom().contains((#[trigger] list[i]).0) && m[list[i].0]
                    == list[i].1
        }),
    ensures
        problems_of(list, files).len() == 0,
        idle_entries(list, files).len() == 0,
    decreases list.len(),
{
    let m = template_specs(listing_entries(spec, included, excluded, files));
    if list.len() > 0 {
        let front = list.drop_last();
        assert forall|i: int| 0 <= i < front.len() implies m.dom().contains(
            (#[trigger] front[i]).0,
        ) && m[front[i].0] == front[i].1 by {
            assert(front[i] == list[i]);
        }
        lemma_template_resolves(spec, included, excluded, files, front);
        assert(m[list[list.len() - 1].0] == list[list.len() - 1].1);
        lemma_template_entry_resolves(spec, included, excluded, files, list.last().0);
    }
}

/// A template resolves against the diff it was made from, whatever it was
/// narrowed to: every path is there, and every short id names one hunk.
pub proof fn a_template_names_only_what_is_there(
    spec: Option<SpecView>,
    included: Seq<Seq<char>>,
    excluded: Seq<Seq<char>>,
    files: Seq<FileView>,
    s: SpecView,
)
    requires
        told_apart(files),
        forall|k: int| 0 <= k < files.len() ==> short_ids_tell((#[trigger] files[k]).hunks),
        has_entries(s, template_specs(listing_entries(spec, included, excluded, files))),
    ensures
        spec_problems(s, files).len() == 0,
{
    lemma_template_resolves(spec, included, excluded, files, s.files);
    let none = Seq::<ProblemView>::empty();
    assert(problems_of(s.files, files) + (if !keeps_a_file(
        s.files,
        files,
    ) && s.default != DefaultAction::Keep {
        idle_entries(s.files, files)
    } else {
        none
    }) =~= none);
}

proof fn lemma_all_selected(files: Seq<FileView>, k: int) -> (i: int)
    requires
        0 <= k < files.len(),
        files[k].hunks.len() > 0 || has_hunkless_change(files[k]),
    ensures
        0 <= i < listed_files(None, Seq::empty(), Seq::empty(), files).len(),
        listed_files(None, Seq::empty(), Seq::empty(), files)[i] == entry_of(
            files[k],
            files[k].hunks,
        ),
    decreases files.len(),
{
    let front = files.drop_last();
    let rest = listed_files(None, Seq::empty(), Seq::empty(), front);
    if k == files.len() - 1 {
        assert(is_listed(None, Seq::empty(), Seq::empty(), files[k]));
        rest.len() as int
    } else {
        lemma_all_selected(front, k)
    }
}

proof fn lemma_all_listed(files: Seq<FileView>, k: int) -> (i: int)
    requires
        0 <= k < files.len(),
        files[k].hunks.len() > 0 || has_hunkless_change(files[k]),
    ensures
        0 <= i < listing_entries(None, Seq::empty(), Seq::empty(), files).len(),
        listing_entries(None, Seq::empty(), Seq::empty(), files)[i] == entry_of(
            files[k],
            files[k].hunks,
        ),
{
    let selected = listed_files(None, Seq::empty(), Seq::empty(), files);
    let shown = listing_entries(None, Seq::empty(), Seq::empty(), files);
    let j = lemma_all_selected(files, k);
    lemma_same_items(selected);
    assert(selected.contains(selected[j]));
    assert(shown.contains(selected[j]));
    choose|i: int| 0 <= i < shown.len() && shown[i] == selected[j]
}

/// A template of a whole diff, used as it is, keeps the whole diff: every hunk,
/// and every change that no hunk tells.
pub proof fn a_template_keeps_the_whole_diff(files: Seq<FileView>, s: SpecView, k: int)
    requires
        told_apart(files),
        forall|k: int| 0 <= k < files.len() ==> short_ids_tell((#[trigger] files[k]).hunks),
        has_entries(s, template_specs(listing_entries(None, Seq::empty(), Seq::empty(), files))),
        0 <= k < files.len(),
    ensures
        forall|j: int|
            0 <= j < files[k].hunks.len() ==> #[trigger] keeps_hunk(s, files[k], j),
        files[k].hunks.len() == 0 && has_hunkless_change(files[k]) ==> decided(s, files[k].path)
            == Decision::KeepAll,
{
    let f = files[k];
    let entries = listing_entries(None, Seq::empty(), Seq::empty(), files);
    if f.hunks.len() > 0 || has_hunkless_change(f) {
        let i = lemma_all_listed(files, k);
        lemma_in_template(entries, i);
        let m = lemma_template_source(entries, f.path);
        let other = lemma_listed_source(None, Seq::empty(), Seq::empty(), files, m);
        if other != k {
            if other < k {
                assert(files[other].path != files[k].path);
            } else {
                assert(files[k].path != files[other].path);
            }
        }
        let e = entries[m];
        assert(lookup(s.files, f.path) == Some(as_file_spec(template_entry(e))));
        assert forall|j: int| 0 <= j < f.hunks.len() implies #[trigger] keeps_hunk(s, f, j) by {
            assert(short_ids_tell(f.hunks));
            assert(begins_with(f.hunks[j].id, f.hunks[j].short_id));
            crate::listing::a_template_keeps_what_it_lists(e, s, j);
        }
    }
}

} // verus!
