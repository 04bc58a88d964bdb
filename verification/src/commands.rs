//! What a command does with a diff and a selection, but for the running of it.

use crate::diff::{
    apply_selected_hunks, can_diff, diffable, file_hunks, get_hunks, hex_digit, AmbiguousId, Hunk,
    HunkSelection, HunkView,
};
use crate::errors::{group_shapes, Code, CodedError, CodedView, ErrorCode};
use crate::files::{
    has_hunkless_change, moved_from, stand_in_for, whole_file_stand_in, FileHunks, FileView,
};
use crate::glob::{glob_refusal, GlobError};
use crate::hunkset::ast::{Expr, ExprView};
use crate::hunkset::error::{failure_facts, failure_in_context, failure_code, Failure};
use crate::hunkset::eval::{
    evaluate_with, outcome, selection_files, to_spec, EnrichedHunk, EntryView,
};
use crate::hunkset::parser::{parse_failure, parsed_with, Complaint};
use crate::listing::{
    all_accepted, build_output, build_spec_template, build_summary_output, check_patterns,
    cut_paths, cut_template, first_bad, is_undecided, listing_entries, normalize_patterns,
    rename_source, select_files, spec_view, summaries_of, template_of, trimmed_patterns, EntryOut,
    FileEntry, FileSummary, ListFormat, ListMode, ListOptions, ListOutput, SpecTemplateOutput,
    UndecidedFile,
};
use crate::names::{
    deep_map, lemma_deep_map_insert, lemma_in_order, lemma_listed, listed, lookup, sort,
    strictly_increasing, NameMap,
};
use crate::node::{text_node, Node};
use crate::paths::{displayed, PathFrame, SelectPath};
use crate::render::{
    output_lines, output_patch, render_diff_output, render_text_output, render_text_summary_output,
    text_of_lines,
};
use crate::resolve::{
    adopt_spec_frame, adopted, all_path_complaints, decided, filled_throughout, fill_rename_sources,
    frame_pairs, is_foreign, outside_workspace, pair_views, pairs_of, spec_problems,
    unresolved_spec, Decision, validate_spec_paths, validate_spec_resolves,
};
use crate::revisions::{
    listing_of, no_details, optional, owned_or, text_or, DiffRevisions, DiffTarget, TargetView,
};
use crate::spec::{
    ids_named, indices_of, keeps_nothing, source_of, Action, DefaultAction, FileSpec, FileSpecView,
    HunkSpecView, Spec, SpecView,
};
use crate::text::{chars_of, concat2, concat3, deep, group_deep, same, trim, trimmed};
use vstd::prelude::*;

verus! {

broadcast use vstd::std_specs::hash::group_hash_axioms;

// ---------------------------------------------------------------------------
// Specs in order
// ---------------------------------------------------------------------------

/// The entries of a spec as a map.
pub open spec fn entry_map(entries: Seq<(Seq<char>, FileSpecView)>) -> Map<
    Seq<char>,
    FileSpecView,
> {
    Map::new(
        |k: Seq<char>| lookup(entries, k) is Some,
        |k: Seq<char>| lookup(entries, k)->0,
    )
}

pub open spec fn entry_keys(entries: Seq<(Seq<char>, FileSpecView)>) -> Seq<Seq<char>> {
    Seq::new(entries.len(), |i: int| entries[i].0)
}

proof fn lemma_entry_map(m: NameMap<FileSpec>)
    requires
        m.well_formed(),
    ensures
        entry_map(listed(m)) == deep_map(m),
        entry_keys(listed(m)) == m.keys(),
{
    assert forall|k: Seq<char>| entry_map(listed(m)).dom().contains(k) == deep_map(
        m,
    ).dom().contains(k) by {
        lemma_listed(m, k);
    }
    assert forall|k: Seq<char>| deep_map(m).dom().contains(k) implies entry_map(listed(m))[k]
        == deep_map(m)[k] by {
        lemma_listed(m, k);
    }
    assert(entry_map(listed(m)) =~= deep_map(m));
    assert(entry_keys(listed(m)) =~= m.keys());
}

/// Whether `read` is what a spec comes to in the frame of a directory.
pub open spec fn reads_as(
    spec: SpecView,
    prefix: Seq<Seq<char>>,
    files: Seq<FileView>,
    read: SpecView,
) -> bool {
    &&& read.default == spec.default
    &&& strictly_increasing(entry_keys(read.files))
    &&& entry_map(read.files) == adopted(
        pairs_of(prefix, files),
        entry_keys(spec.files),
        entry_map(spec.files),
    )
}

/// Carry a spec over into the frame of this directory.
fn adopt(spec: &mut Spec, files: &Vec<FileHunks>, frame: &PathFrame) -> (changed: bool)
    ensures
        reads_as(
            old(spec).deep_view(),
            deep(frame.prefix@),
            deep(files@),
            final(spec).deep_view(),
        ),
        changed == is_foreign(
            pairs_of(deep(frame.prefix@), deep(files@)),
            entry_keys(old(spec).deep_view().files),
            entry_map(old(spec).deep_view().files),
        ),
{
    let ghost before = spec.files;
    proof {
        use_type_invariant(&spec.files);
        lemma_in_order(before);
        lemma_entry_map(before);
    }
    let changed = adopt_spec_frame(spec, &frame_pairs(files, frame));
    proof {
        use_type_invariant(&spec.files);
        lemma_in_order(spec.files);
        lemma_entry_map(spec.files);
    }
    changed
}

// ---------------------------------------------------------------------------
// Listing
// ---------------------------------------------------------------------------

/// The patterns a listing filters by. All of them are accepted.
#[derive(Debug)]
pub struct Filters {
    included: Vec<String>,
    excluded: Vec<String>,
}

impl Filters {
    #[verifier::type_invariant]
    spec fn accepted(self) -> bool {
        all_accepted(deep(self.included@)) && all_accepted(deep(self.excluded@))
    }

    pub closed spec fn included_patterns(&self) -> Seq<Seq<char>> {
        deep(self.included@)
    }

    pub closed spec fn excluded_patterns(&self) -> Seq<Seq<char>> {
        deep(self.excluded@)
    }
}

/// Why there is no listing.
#[derive(Debug)]
pub enum ListFailure {
    Glob(GlobError),
    Coded(CodedError),
    Undecided(UndecidedFile),
    Usage(&'static str),
}

/// What is listed, for its format: structure to be written out, or text.
#[derive(Debug)]
pub enum Listing {
    Full(ListOutput<FileEntry>),
    Files(ListOutput<FileSummary>),
    Template(SpecTemplateOutput),
    Text(String),
}

/// Check what a listing is asked for before any revision is looked at: the keys
/// of its spec, and its patterns.
pub fn prepare_listing(options: &ListOptions, spec: Option<&Spec>, frame: &PathFrame) -> (r: Result<
    Filters,
    ListFailure,
>)
    ensures
        ({
            let complaints = match spec {
                Some(s) => all_path_complaints(s.deep_view().files, frame.prefix@.len() as int),
                None => Seq::empty(),
            };
            let inc = trimmed_patterns(deep(options.included@));
            let exc = trimmed_patterns(deep(options.excluded@));
            match r {
                Ok(filters) => complaints.len() == 0 && first_bad(inc) is None && first_bad(exc)
                    is None && filters.included_patterns() == inc && filters.excluded_patterns()
                    == exc,
                Err(ListFailure::Coded(e)) => complaints.len() > 0 && e.tells(
                    outside_workspace(complaints),
                ),
                Err(ListFailure::Glob(e)) => complaints.len() == 0 && glob_refusal(
                    e.pattern_view(),
                ) == Some(e.reason_view()) && e.pattern_view() == (match first_bad(inc) {
                    Some(p) => p,
                    None => first_bad(exc)->0,
                }) && (first_bad(inc) is Some || first_bad(exc) is Some),
                Err(_) => false,
            }
        }),
{
    if let Some(s) = spec {
        if let Err(e) = validate_spec_paths(s, frame) {
            return Err(ListFailure::Coded(e));
        }
    }
    let included = normalize_patterns(&options.included);
    let excluded = normalize_patterns(&options.excluded);
    if let Err(e) = check_patterns(&included) {
        return Err(ListFailure::Glob(e));
    }
    if let Err(e) = check_patterns(&excluded) {
        return Err(ListFailure::Glob(e));
    }
    Ok(Filters { included, excluded })
}

/// Whether a listing shows some files as its options ask for, or is refused as
/// they demand.
pub open spec fn lists(
    r: Result<Listing, ListFailure>,
    options: ListOptions,
    entries: Seq<EntryOut>,
) -> bool {
    let textual = options.format == ListFormat::Text || options.format == ListFormat::Diff;
    match options.mode {
        ListMode::Full => match r {
            Ok(Listing::Full(output)) => !textual && output.shows(entries, options.group),
            Ok(Listing::Text(text)) => exists|output: ListOutput<FileEntry>| #[trigger]
                output.shows(entries, options.group) && ((options.format == ListFormat::Text
                    && text@ == text_of_lines(output_lines(output))) || (options.format
                    == ListFormat::Diff && text@ == output_patch(output))),
            _ => false,
        },
        ListMode::Files => match r {
            Ok(Listing::Files(output)) => !textual && output.shows(
                summaries_of(entries),
                options.group,
            ),
            Ok(Listing::Text(text)) => textual && exists|output: ListOutput<FileSummary>|
             #[trigger]
                output.shows(summaries_of(entries), options.group) && text@ == text_of_lines(
                    output_lines(output),
                ),
            _ => false,
        },
        ListMode::SpecTemplate => if textual {
            r matches Err(ListFailure::Usage(message)) && message@
                == "--spec-template does not support text output (use json or yaml)"@
        } else if cut_paths(entries).len() > 0 {
            r matches Err(ListFailure::Coded(e)) && e.tells(cut_template(cut_paths(entries)))
        } else {
            r matches Ok(Listing::Template(t)) && deep_map(t.files) == template_of(entries)
                && t.default@ == "reset"@
        },
    }
}

/// Whether a listing is what comes of a spec that is read as `read`.
pub open spec fn list_outcome(
    read: Option<SpecView>,
    evaluated: bool,
    options: ListOptions,
    included: Seq<Seq<char>>,
    excluded: Seq<Seq<char>>,
    files: Seq<FileView>,
    target: TargetView,
    r: Result<Listing, ListFailure>,
) -> bool {
    if !evaluated && read is Some && spec_problems(read->0, files).len() > 0 {
        r matches Err(ListFailure::Coded(e)) && e.tells(
            unresolved_spec(spec_problems(read->0, files), target),
        )
    } else if exists|j: int|
        0 <= j < files.len() && is_undecided(read, included, excluded, #[trigger] files[j]) {
        r matches Err(ListFailure::Undecided(e)) && e.is_first(read, included, excluded, files)
    } else {
        lists(r, options, listing_entries(read, included, excluded, files))
    }
}

/// List the files of a diff, in the order of their paths.
///
/// A spec is read in the frame of this directory, and held against the diff as
/// the commands that write hold it: what it names has to be there. One that was
/// evaluated from the diff names what is there as it is.
pub fn list(
    options: &ListOptions,
    filters: &Filters,
    spec: Option<Spec>,
    evaluated: bool,
    files: Vec<FileHunks>,
    frame: &PathFrame,
    target: &DiffTarget,
) -> (r: Result<Listing, ListFailure>)
    ensures
        exists|read: Option<SpecView>|
            {
                &&& match spec {
                    None => read is None,
                    Some(s) => read matches Some(view) && reads_as(
                        s.deep_view(),
                        deep(frame.prefix@),
                        deep(files@),
                        view,
                    ),
                }
                &&& #[trigger] list_outcome(
                    read,
                    evaluated,
                    *options,
                    filters.included_patterns(),
                    filters.excluded_patterns(),
                    deep(files@),
                    target.deep_view(),
                    r,
                )
            },
{
    proof {
        use_type_invariant(filters);
    }
    let ghost all = deep(files@);
    let ghost inc = filters.included_patterns();
    let ghost exc = filters.excluded_patterns();
    let spec = match spec {
        Some(s) => {
            let mut s = s;
            adopt(&mut s, &files, frame);
            Some(s)
        },
        None => None,
    };
    let spec_ref: Option<&Spec> = match &spec {
        Some(s) => Some(s),
        None => None,
    };
    let ghost read = spec_view(spec_ref);
    if !evaluated {
        if let Some(s) = spec_ref {
            if let Err(e) = validate_spec_resolves(s, &files, target) {
                let r: Result<Listing, ListFailure> = Err(ListFailure::Coded(e));
                assert(list_outcome(read, evaluated, *options, inc, exc, all, target.deep_view(), r));
                return r;
            }
        }
    }
    let entries = match select_files(spec_ref, &filters.included, &filters.excluded, files) {
        Ok(entries) => entries,
        Err(e) => {
            assert(exists|j: int|
                0 <= j < all.len() && is_undecided(read, inc, exc, #[trigger] all[j]));
            let r: Result<Listing, ListFailure> = Err(ListFailure::Undecided(e));
            assert(list_outcome(read, evaluated, *options, inc, exc, all, target.deep_view(), r));
            return r;
        },
    };
    let r = shape_listing(options, sort(entries));
    assert(list_outcome(read, evaluated, *options, inc, exc, all, target.deep_view(), r));
    r
}

fn shape_listing(options: &ListOptions, entries: Vec<FileEntry>) -> (r: Result<
    Listing,
    ListFailure,
>)
    ensures
        lists(r, *options, deep(entries@)),
{
    match options.mode {
        ListMode::Full => {
            let output = build_output(entries, options.group);
            match options.format {
                ListFormat::Json | ListFormat::Yaml => Ok(Listing::Full(output)),
                ListFormat::Text => Ok(Listing::Text(render_text_output(&output))),
                ListFormat::Diff => Ok(Listing::Text(render_diff_output(&output))),
            }
        },
        ListMode::Files => {
            let output = build_summary_output(entries, options.group);
            match options.format {
                ListFormat::Json | ListFormat::Yaml => Ok(Listing::Files(output)),
                ListFormat::Text | ListFormat::Diff => Ok(
                    Listing::Text(render_text_summary_output(&output)),
                ),
            }
        },
        ListMode::SpecTemplate => match options.format {
            ListFormat::Text | ListFormat::Diff => Err(
                ListFailure::Usage(
                    "--spec-template does not support text output (use json or yaml)",
                ),
            ),
            ListFormat::Json | ListFormat::Yaml => match build_spec_template(&entries) {
                Ok(t) => Ok(Listing::Template(t)),
                Err(e) => Err(ListFailure::Coded(e)),
            },
        },
    }
}

// ---------------------------------------------------------------------------
// Evaluating a hunkset
// ---------------------------------------------------------------------------

/// A hunk of a file as an entry.
pub open spec fn real_entry(f: FileView, hunk: HunkView) -> EntryView {
    EntryView {
        path: f.path,
        from: moved_from(f.rename, f.path),
        status: f.status,
        hunk,
        stand_in: false,
    }
}

pub open spec fn entries_in(f: FileView) -> Seq<EntryView> {
    Seq::new(f.hunks.len(), |i: int| real_entry(f, f.hunks[i]))
}

/// The hunks of some files as entries, file by file.
pub open spec fn real_entries(files: Seq<FileView>) -> Seq<EntryView>
    decreases files.len(),
{
    if files.len() == 0 {
        Seq::empty()
    } else {
        real_entries(files.drop_last()) + entries_in(files.last())
    }
}

/// Whether a file has a change and no hunk to name it by.
pub open spec fn needs_stand_in(f: FileView) -> bool {
    f.hunks.len() == 0 && has_hunkless_change(f)
}

/// The entry that stands in for a file.
pub open spec fn stand_in_entry(f: FileView) -> EntryView {
    EntryView {
        path: f.path,
        from: moved_from(f.rename, f.path),
        status: f.status,
        hunk: stand_in_for(f),
        stand_in: true,
    }
}

/// The entries that stand in for the files that need it.
pub open spec fn stand_in_entries(files: Seq<FileView>) -> Seq<EntryView>
    decreases files.len(),
{
    if files.len() == 0 {
        Seq::empty()
    } else if needs_stand_in(files.last()) {
        stand_in_entries(files.drop_last()).push(stand_in_entry(files.last()))
    } else {
        stand_in_entries(files.drop_last())
    }
}

/// What an expression is evaluated against: every hunk, and a stand-in for every
/// change that has none.
pub open spec fn entries_of(files: Seq<FileView>) -> Seq<EntryView> {
    real_entries(files) + stand_in_entries(files)
}

/// Where every file that was moved came from.
pub open spec fn sources_of(files: Seq<FileView>) -> Map<Seq<char>, Seq<char>>
    decreases files.len(),
{
    if files.len() == 0 {
        Map::empty()
    } else {
        let f = files.last();
        match moved_from(f.rename, f.path) {
            Some(from) => sources_of(files.drop_last()).insert(f.path, from),
            None => sources_of(files.drop_last()),
        }
    }
}

/// The entries of a spec, with every file that a stand-in was selected for kept
/// whole: the id of a stand-in names nothing.
pub open spec fn whole_where_stood_for(
    m: Map<Seq<char>, FileSpecView>,
    files: Seq<FileView>,
) -> Map<Seq<char>, FileSpecView>
    decreases files.len(),
{
    if files.len() == 0 {
        m
    } else {
        let rest = whole_where_stood_for(m, files.drop_last());
        let f = files.last();
        if needs_stand_in(f) && rest.dom().contains(f.path) {
            rest.insert(
                f.path,
                FileSpecView::Action {
                    action: Action::Keep,
                    from: moved_from(f.rename, f.path),
                },
            )
        } else {
            rest
        }
    }
}

/// The entries of the spec that keeps what was selected.
pub open spec fn hunkset_files(files: Seq<FileView>, selected: Set<usize>) -> Map<
    Seq<char>,
    FileSpecView,
> {
    whole_where_stood_for(
        selection_files(entries_of(files), selected, sources_of(files)),
        files,
    )
}

/// The error for an expression that does not parse.
pub open spec fn unparsed_hunkset(input: Seq<char>, e: Complaint) -> CodedView {
    let failure = parse_failure(input, e);
    CodedView {
        code: failure_code(failure),
        message: "failed to parse hunkset:\n"@ + failure_in_context(failure),
        details: failure_facts(failure),
    }
}

/// Parse an expression that was given on a command line, where `separator` is what
/// the platform separates the components of a path with.
pub fn parse_hunkset(input: &str, separator: char) -> (r: Result<Expr, CodedError>)
    requires
        input@.len() + 3 <= usize::MAX,
    ensures
        match r {
            Ok(expr) => parsed_with(input@, separator) == Ok::<ExprView, Complaint>(expr.shape()),
            Err(e) => parsed_with(input@, separator) is Err && e.tells(
                unparsed_hunkset(input@, parsed_with(input@, separator)->Err_0),
            ),
        },
{
    match crate::hunkset::parser::parse_with(input, separator) {
        Ok(expr) => Ok(expr),
        Err(e) => Err(
            e.coded(
                concat2("failed to parse hunkset:\n", e.display_with_context().as_str()),
            ),
        ),
    }
}

/// The error for an expression that cannot be evaluated.
pub open spec fn unevaluated_hunkset(failure: Failure) -> CodedView {
    CodedView {
        code: failure_code(failure),
        message: "hunkset evaluation error: "@ + failure_in_context(failure),
        details: failure_facts(failure),
    }
}

/// The positions of the files that need a stand-in.
pub open spec fn stood_for(files: Seq<FileView>, n: nat) -> Seq<int>
    decreases n,
{
    if n == 0 {
        Seq::empty()
    } else if needs_stand_in(files[n - 1]) {
        stood_for(files, (n - 1) as nat).push(n - 1)
    } else {
        stood_for(files, (n - 1) as nat)
    }
}

pub(crate) proof fn lemma_stood_for(files: Seq<FileView>, n: nat)
    requires
        n <= files.len(),
    ensures
        forall|k: int|
            0 <= k < stood_for(files, n).len() ==> 0 <= #[trigger] stood_for(files, n)[k] < n
                && needs_stand_in(files[stood_for(files, n)[k]]),
        stand_in_entries(files.take(n as int)) == Seq::new(
            stood_for(files, n).len(),
            |k: int| stand_in_entry(files[stood_for(files, n)[k]]),
        ),
    decreases n,
{
    let views = Seq::new(
        stood_for(files, n).len(),
        |k: int| stand_in_entry(files[stood_for(files, n)[k]]),
    );
    if n == 0 {
        assert(files.take(0) =~= Seq::empty());
        assert(views =~= stand_in_entries(files.take(0)));
    } else {
        lemma_stood_for(files, (n - 1) as nat);
        assert(files.take(n as int).drop_last() =~= files.take(n - 1));
        let rest = stood_for(files, (n - 1) as nat);
        assert forall|k: int| 0 <= k < stood_for(files, n).len() implies 0
            <= #[trigger] stood_for(files, n)[k] < n && needs_stand_in(
            files[stood_for(files, n)[k]],
        ) by {
            if k < rest.len() {
                assert(stood_for(files, n)[k] == rest[k]);
            }
        }
        assert(views =~= stand_in_entries(files.take(n as int)));
    }
}

/// The stand-ins that some files need, with the position of each file.
fn make_stand_ins(files: &Vec<FileHunks>) -> (r: (Vec<usize>, Vec<Hunk>))
    ensures
        r.0@.len() == r.1@.len(),
        r.0@.len() == stood_for(deep(files@), files@.len()).len(),
        forall|k: int|
            0 <= k < r.0@.len() ==> (#[trigger] r.0@[k]) as int == stood_for(
                deep(files@),
                files@.len(),
            )[k] && r.0@[k] < files@.len() && r.1@[k].deep_view() == stand_in_for(
                deep(files@)[r.0@[k] as int],
            ),
{
    let ghost views = deep(files@);
    let mut positions: Vec<usize> = Vec::new();
    let mut hunks: Vec<Hunk> = Vec::new();
    let mut i: usize = 0;
    while i < files.len()
        invariant
            views == deep(files@),
            i <= files.len(),
            positions@.len() == hunks@.len(),
            positions@.len() == stood_for(views, i as nat).len(),
            forall|k: int|
                0 <= k < positions@.len() ==> (#[trigger] positions@[k]) as int == stood_for(
                    views,
                    i as nat,
                )[k] && positions@[k] < i && hunks@[k].deep_view() == stand_in_for(
                    views[positions@[k] as int],
                ),
        decreases files.len() - i,
    {
        let file = &files[i];
        assert(views[i as int] == file.deep_view());
        if file.hunks.len() == 0 && file.changes_without_hunks() {
            positions.push(i);
            hunks.push(whole_file_stand_in(file));
        }
        i += 1;
    }
    (positions, hunks)
}

/// What an expression is evaluated against.
fn enrich<'a>(files: &'a Vec<FileHunks>, positions: &Vec<usize>, stand_ins: &'a Vec<Hunk>) -> (out:
    Vec<EnrichedHunk<'a>>)
    requires
        positions@.len() == stand_ins@.len(),
        positions@.len() == stood_for(deep(files@), files@.len()).len(),
        forall|k: int|
            0 <= k < positions@.len() ==> (#[trigger] positions@[k]) as int == stood_for(
                deep(files@),
                files@.len(),
            )[k] && positions@[k] < files@.len() && stand_ins@[k].deep_view() == stand_in_for(
                deep(files@)[positions@[k] as int],
            ),
    ensures
        deep(out@) == entries_of(deep(files@)),
{
    broadcast use group_deep;

    let ghost views = deep(files@);
    let mut out: Vec<EnrichedHunk<'a>> = Vec::new();
    let mut i: usize = 0;
    assert(views.take(0) =~= Seq::empty());
    while i < files.len()
        invariant
            views == deep(files@),
            i <= files.len(),
            deep(out@) == real_entries(views.take(i as int)),
        decreases files.len() - i,
    {
        assert(views.take(i as int + 1).drop_last() =~= views.take(i as int));
        let file = &files[i];
        let ghost f = views[i as int];
        assert(f == file.deep_view());
        let ghost before = deep(out@);
        let ghost own = entries_in(f);
        let mut j: usize = 0;
        assert(before + own.take(0) =~= before);
        while j < file.hunks.len()
            invariant
                f == file.deep_view(),
                own == entries_in(f),
                j <= file.hunks.len(),
                deep(out@) == before + own.take(j as int),
            decreases file.hunks.len() - j,
        {
            let entry = EnrichedHunk::from_diff(
                file.path.as_str(),
                file.rename_source(),
                file.status.as_str(),
                &file.hunks[j],
            );
            assert(entry.deep_view() == own[j as int]);
            out.push(entry);
            assert(own.take(j as int + 1) =~= own.take(j as int).push(own[j as int]));
            assert((before + own.take(j as int)).push(own[j as int]) =~= before + own.take(
                j as int + 1,
            ));
            j += 1;
        }
        assert(own.take(own.len() as int) =~= own);
        i += 1;
    }
    assert(views.take(views.len() as int) =~= views);
    let ghost diffed = real_entries(views);
    let ghost rest = stand_in_entries(views);
    proof {
        lemma_stood_for(views, views.len());
    }
    i = 0;
    assert(diffed + rest.take(0) =~= diffed);
    while i < positions.len()
        invariant
            views == deep(files@),
            positions@.len() == stand_ins@.len(),
            positions@.len() == stood_for(views, views.len()).len(),
            rest == Seq::new(
                stood_for(views, views.len()).len(),
                |k: int| stand_in_entry(views[stood_for(views, views.len())[k]]),
            ),
            forall|k: int|
                0 <= k < positions@.len() ==> (#[trigger] positions@[k]) as int == stood_for(
                    views,
                    views.len(),
                )[k] && positions@[k] < files@.len() && stand_ins@[k].deep_view() == stand_in_for(
                    views[positions@[k] as int],
                ),
            i <= positions.len(),
            deep(out@) == diffed + rest.take(i as int),
        decreases positions.len() - i,
    {
        let file = &files[positions[i]];
        assert(views[positions@[i as int] as int] == file.deep_view());
        let entry = EnrichedHunk::stand_in(
            file.path.as_str(),
            file.rename_source(),
            file.status.as_str(),
            &stand_ins[i],
        );
        assert(entry.deep_view() == rest[i as int]);
        out.push(entry);
        assert(rest.take(i as int + 1) =~= rest.take(i as int).push(rest[i as int]));
        assert((diffed + rest.take(i as int)).push(rest[i as int]) =~= diffed + rest.take(
            i as int + 1,
        ));
        i += 1;
    }
    assert(rest.take(rest.len() as int) =~= rest);
    out
}

/// Where every file that was moved came from.
fn collect_sources(files: &Vec<FileHunks>) -> (out: NameMap<String>)
    ensures
        deep_map(out) == sources_of(deep(files@)),
{
    let ghost views = deep(files@);
    let mut out: NameMap<String> = NameMap::new();
    let mut i: usize = 0;
    assert(views.take(0) =~= Seq::empty());
    assert(deep_map(out) =~= Map::empty());
    while i < files.len()
        invariant
            views == deep(files@),
            i <= files.len(),
            deep_map(out) == sources_of(views.take(i as int)),
        decreases files.len() - i,
    {
        assert(views.take(i as int + 1).drop_last() =~= views.take(i as int));
        let file = &files[i];
        assert(views[i as int] == file.deep_view());
        if let Some(from) = file.rename_source() {
            let value = from.to_owned();
            let ghost was = out;
            let ghost kept = value;
            out.insert(file.path.clone(), value);
            proof {
                lemma_deep_map_insert(was, out, file.path@, kept);
            }
        }
        i += 1;
    }
    assert(views.take(views.len() as int) =~= views);
    out
}

proof fn lemma_nothing_stood_for(m: Map<Seq<char>, FileSpecView>, files: Seq<FileView>)
    requires
        forall|path: Seq<char>| !m.dom().contains(path),
    ensures
        whole_where_stood_for(m, files) == m,
    decreases files.len(),
{
    if files.len() > 0 {
        lemma_nothing_stood_for(m, files.drop_last());
    }
}

/// Keep every file whole that a stand-in was selected for.
fn keep_whole(files: NameMap<FileSpec>, all: &Vec<FileHunks>) -> (out: NameMap<FileSpec>)
    ensures
        deep_map(out) == whole_where_stood_for(deep_map(files), deep(all@)),
        out.well_formed(),
{
    let ghost start = deep_map(files);
    let ghost views = deep(all@);
    if files.len() == 0 {
        proof {
            assert forall|path: Seq<char>| !start.dom().contains(path) by {
                assert(start.dom().contains(path) == files.has(path));
            }
            lemma_nothing_stood_for(start, views);
        }
        return files;
    }
    let mut out = files;
    let mut i: usize = 0;
    assert(views.take(0) =~= Seq::empty());
    while i < all.len()
        invariant
            views == deep(all@),
            i <= all.len(),
            out.well_formed(),
            deep_map(out) == whole_where_stood_for(start, views.take(i as int)),
        decreases all.len() - i,
    {
        assert(views.take(i as int + 1).drop_last() =~= views.take(i as int));
        let file = &all[i];
        assert(views[i as int] == file.deep_view());
        if file.hunks.len() == 0 && file.changes_without_hunks() && out.position(
            file.path.as_str(),
        ).is_some() {
            let entry = FileSpec::Action {
                action: Action::Keep,
                from: rename_source(&file.rename, file.path.as_str()),
            };
            let ghost was = out;
            let ghost kept = entry;
            out.insert(file.path.clone(), entry);
            proof {
                lemma_deep_map_insert(was, out, file.path@, kept);
            }
        }
        i += 1;
    }
    assert(views.take(views.len() as int) =~= views);
    out
}

/// Evaluate an expression against a diff: the spec that keeps what it selects,
/// and what was warned of.
///
/// Every change can be selected. One that has no hunks is selected through a
/// stand-in and kept or reset as a whole.
pub fn evaluate_hunkset(expr: &Expr, files: &Vec<FileHunks>, semantic: bool) -> (r: (
    Result<Spec, CodedError>,
    Vec<String>,
))
    ensures
        ({
            let views = deep(files@);
            let o = outcome(expr.shape(), entries_of(views), semantic);
            &&& deep(r.1@) == o.warnings
            &&& match r.0 {
                Ok(spec) => o.result is Ok && spec.files.well_formed() && deep_map(spec.files)
                    == hunkset_files(views, o.result->Ok_0) && spec.default
                    == DefaultAction::Reset,
                Err(e) => o.result is Err && e.tells(unevaluated_hunkset(o.result->Err_0)),
            }
        }),
{
    let (positions, stand_ins) = make_stand_ins(files);
    let enriched = enrich(files, &positions, &stand_ins);
    let (found, warnings) = evaluate_with(expr, enriched.as_slice(), semantic);
    match found {
        Ok(selected) => {
            let sources = collect_sources(files);
            let spec = to_spec(&selected, enriched.as_slice(), &sources);
            let kept = keep_whole(spec.files, files);
            (Ok(Spec { files: kept, default: DefaultAction::Reset }), warnings)
        },
        Err(e) => {
            proof {
                lemma_no_parse_failure(expr.shape(), entries_of(deep(files@)), semantic);
            }
            let message = concat2(
                "hunkset evaluation error: ",
                e.display_with_context().as_str(),
            );
            (Err(e.coded(message)), warnings)
        },
    }
}

proof fn lemma_no_parse_in_args(
    name: Seq<char>,
    numeric: bool,
    args: Seq<crate::hunkset::ast::ArgView>,
)
    ensures
        crate::hunkset::eval::first_arg_failure(name, numeric, args) matches Some(e) ==> e
            !is Parse,
    decreases args.len(),
{
    if args.len() > 0 {
        lemma_no_parse_in_args(name, numeric, args.drop_last());
    }
}

proof fn lemma_no_parse_in_patterns(
    func: Seq<char>,
    patterns: Seq<crate::hunkset::ast::PatternView>,
    valid: Seq<Seq<char>>,
    entries: Seq<EntryView>,
)
    ensures
        crate::hunkset::pattern::first_refusal(patterns) matches Some(e) ==> e !is Parse,
        crate::hunkset::eval::enum_failure(func, patterns, valid) matches Some(e) ==> e !is Parse,
        crate::hunkset::eval::first_id_failure(patterns, entries) matches Some(e) ==> e !is Parse,
    decreases patterns.len(),
{
    if patterns.len() > 0 {
        lemma_no_parse_in_patterns(func, patterns.drop_last(), valid, entries);
    }
}

/// What goes wrong in evaluating is never that the expression does not parse.
proof fn lemma_no_parse_failure(expr: ExprView, entries: Seq<EntryView>, semantic: bool)
    ensures
        outcome(expr, entries, semantic).result matches Err(e) ==> e !is Parse,
    decreases expr,
{
    match expr {
        ExprView::Negation(inner) => lemma_no_parse_failure(*inner, entries, semantic),
        ExprView::Union(left, right) | ExprView::Intersection(left, right)
        | ExprView::Difference(left, right) => {
            lemma_no_parse_failure(*left, entries, semantic);
            lemma_no_parse_failure(*right, entries, semantic);
        },
        ExprView::Function(name, args) => {
            let patterns = crate::hunkset::eval::patterns_of(name, args);
            lemma_no_parse_in_args(name, true, args);
            lemma_no_parse_in_args(name, false, args);
            lemma_no_parse_in_patterns(
                "status"@,
                patterns,
                crate::hunkset::eval::valid_statuses(),
                entries,
            );
            lemma_no_parse_in_patterns(
                "type"@,
                patterns,
                crate::hunkset::eval::valid_types(),
                entries,
            );
        },
        _ => {},
    }
}

// ---------------------------------------------------------------------------
// Settling a selection
// ---------------------------------------------------------------------------

/// The error for a selection that keeps nothing.
pub open spec fn empty_selection(raw: Seq<char>, target: TargetView) -> CodedView {
    CodedView {
        code: Code::EmptySelection,
        message: "selection matched no hunks: "@ + trimmed(raw)
            + "\nAn empty selection is nearly always a mistyped selector rather than an intent, so it is refused.\nCheck it against `"@
            + listing_of(target)
            + " --spec ...`, or pass --allow-empty if that is what you meant."@,
        details: no_details().insert("selector"@, text_node(trimmed(raw))).insert(
            "listing_command"@,
            text_node(listing_of(target)),
        ),
    }
}

/// Check a selection before the diff is looked at: that its keys can name files
/// here, and that it keeps something unless nothing is what is meant.
pub fn check_selection(
    spec: &Spec,
    frame: &PathFrame,
    raw: &str,
    target: &DiffTarget,
    allow_empty: bool,
) -> (r: Result<(), CodedError>)
    ensures
        ({
            let complaints = all_path_complaints(
                spec.deep_view().files,
                frame.prefix@.len() as int,
            );
            let empty = !allow_empty && keeps_nothing(spec.deep_view());
            match r {
                Ok(_) => complaints.len() == 0 && !empty,
                Err(e) => (complaints.len() > 0 && e.tells(outside_workspace(complaints))) || (
                complaints.len() == 0 && empty && e.tells(
                    empty_selection(raw@, target.deep_view()),
                )),
            }
        }),
{
    broadcast use group_shapes;

    if let Err(e) = validate_spec_paths(spec, frame) {
        return Err(e);
    }
    if !allow_empty && spec.selects_nothing() {
        let selector = trim(raw);
        let listing = target.listing_command();
        let mut message = concat3(
            "selection matched no hunks: ",
            selector.as_str(),
            "\nAn empty selection is nearly always a mistyped selector rather than an intent, so it is refused.\nCheck it against `",
        );
        message.append(listing.as_str());
        message.append(" --spec ...`, or pass --allow-empty if that is what you meant.");
        return Err(
            CodedError::new(ErrorCode::new(Code::EmptySelection), message).with(
                "selector",
                Node::text(selector.as_str()),
            ).with("listing_command", Node::text(listing.as_str())),
        );
    }
    Ok(())
}

/// Whether a written spec settles as it should: refused with its problems, or
/// carried over into this frame and completed.
pub open spec fn settles(
    before: SpecView,
    read: SpecView,
    prefix: Seq<Seq<char>>,
    files: Seq<FileView>,
    target: TargetView,
    after: SpecView,
    r: Result<bool, CodedError>,
) -> bool {
    let problems = spec_problems(read, files);
    match r {
        Err(e) => problems.len() > 0 && e.tells(unresolved_spec(problems, target)),
        Ok(rewritten) => {
            &&& problems.len() == 0
            &&& after.default == before.default
            &&& entry_map(after.files) == filled_throughout(entry_map(read.files), files)
            &&& rewritten == (is_foreign(
                pairs_of(prefix, files),
                entry_keys(before.files),
                entry_map(before.files),
            ) || crate::resolve::any_filled(entry_map(read.files), files))
        },
    }
}

/// Settle a written spec against the diff it is to be applied to: carry it over
/// into this frame, check that what it names is there, and attach where moved
/// files came from. Gives back whether it was rewritten.
///
/// What it names is checked whether or not an empty result is acceptable.
pub fn settle_selection(
    spec: &mut Spec,
    files: &Vec<FileHunks>,
    frame: &PathFrame,
    target: &DiffTarget,
) -> (r: Result<bool, CodedError>)
    ensures
        exists|read: SpecView|
            {
                &&& reads_as(old(spec).deep_view(), deep(frame.prefix@), deep(files@), read)
                &&& #[trigger] settles(
                    old(spec).deep_view(),
                    read,
                    deep(frame.prefix@),
                    deep(files@),
                    target.deep_view(),
                    final(spec).deep_view(),
                    r,
                )
            },
{
    let ghost before = spec.deep_view();
    let ghost prefix = deep(frame.prefix@);
    let ghost views = deep(files@);
    let foreign = adopt(spec, files, frame);
    let ghost read = spec.deep_view();
    proof {
        use_type_invariant(&spec.files);
        lemma_in_order(spec.files);
    }
    if let Err(e) = validate_spec_resolves(spec, files, target) {
        let r: Result<bool, CodedError> = Err(e);
        assert(settles(before, read, prefix, views, target.deep_view(), spec.deep_view(), r));
        return r;
    }
    proof {
        lemma_entry_map(spec.files);
    }
    let filled = fill_rename_sources(spec, files);
    proof {
        use_type_invariant(&spec.files);
        lemma_in_order(spec.files);
        lemma_entry_map(spec.files);
    }
    let r: Result<bool, CodedError> = Ok(foreign || filled);
    assert(settles(before, read, prefix, views, target.deep_view(), spec.deep_view(), r));
    r
}

// ---------------------------------------------------------------------------
// Applying a selection to files
// ---------------------------------------------------------------------------

/// What happens to one file when a selection is applied.
#[derive(Debug)]
pub enum Step {
    /// No entry names it: see [`resets_unnamed`].
    Unnamed,
    Keep,
    Reset,
    /// Keep some of its hunks. `source` is where its contents before the change
    /// are, where that is another path.
    Apply { source: Option<String>, selection: HunkSelection },
}

/// One file, in both spellings, and what happens to it.
#[derive(Debug)]
pub struct SelectStep {
    pub file: SelectPath,
    pub step: Step,
}

#[verifier::ext_equal]
pub enum StepView {
    Unnamed,
    Keep,
    Reset,
    Apply { source: Option<Seq<char>>, indices: Set<usize>, ids: Set<Seq<char>> },
}

impl Step {
    pub open spec fn shape(&self) -> StepView {
        match self {
            Step::Unnamed => StepView::Unnamed,
            Step::Keep => StepView::Keep,
            Step::Reset => StepView::Reset,
            Step::Apply { source, selection } => StepView::Apply {
                source: source.deep_view(),
                indices: selection.indices@,
                ids: selection.ids@,
            },
        }
    }
}

/// The files that are there, each as it is printed and as it is found.
pub open spec fn spelled(prefix: Seq<Seq<char>>, paths: Seq<Seq<char>>) -> Seq<
    (Seq<char>, Seq<char>),
> {
    Seq::new(paths.len(), |i: int| (displayed(prefix, paths[i]), paths[i]))
}

/// Where a file that is printed so is found, if it is there; the last of them
/// where there are several.
pub open spec fn found_at(
    pairs: Seq<(Seq<char>, Seq<char>)>,
    display: Seq<char>,
) -> Option<Seq<char>>
    decreases pairs.len(),
{
    if pairs.len() == 0 {
        None
    } else if pairs.last().0 == display {
        Some(pairs.last().1)
    } else {
        found_at(pairs.drop_last(), display)
    }
}

/// What happens to a file. A left-hand path that names no file that is there is
/// no path: the file's own is taken.
pub open spec fn step_for(
    entries: Map<Seq<char>, FileSpecView>,
    pairs: Seq<(Seq<char>, Seq<char>)>,
    display: Seq<char>,
) -> StepView {
    if !entries.dom().contains(display) {
        StepView::Unnamed
    } else {
        match entries[display] {
            FileSpecView::Action { action, .. } => if action == Action::Keep {
                StepView::Keep
            } else {
                StepView::Reset
            },
            FileSpecView::Selection(s) => StepView::Apply {
                source: match s.from {
                    Some(from) if from != display => found_at(pairs, from),
                    _ => None,
                },
                indices: indices_of(s.hunks),
                ids: ids_named(s).to_set(),
            },
        }
    }
}

fn find_file_at(pairs: &Vec<(String, String)>, display: &str) -> (r: Option<String>)
    ensures
        r.deep_view() == found_at(pair_views(pairs@), display@),
{
    let ghost views = pair_views(pairs@);
    let mut i: usize = pairs.len();
    assert(views.take(i as int) =~= views);
    while i > 0
        invariant
            views == pair_views(pairs@),
            i <= pairs.len(),
            found_at(views, display@) == found_at(views.take(i as int), display@),
        decreases i,
    {
        assert(views.take(i as int).drop_last() =~= views.take(i as int - 1));
        assert(views.take(i as int).last() == views[i - 1]);
        i -= 1;
        if same(pairs[i].0.as_str(), display) {
            return Some(pairs[i].1.clone());
        }
    }
    None
}

fn step_of(files: &NameMap<FileSpec>, pairs: &Vec<(String, String)>, display: &str) -> (r: Step)
    ensures
        r.shape() == step_for(deep_map(*files), pair_views(pairs@), display@),
{
    match files.get(display) {
        None => Step::Unnamed,
        Some(FileSpec::Action { action, .. }) => if *action == Action::Keep {
            Step::Keep
        } else {
            Step::Reset
        },
        Some(FileSpec::Selection(selection)) => {
            let source = match &selection.from {
                Some(from) => if same(from.as_str(), display) {
                    None
                } else {
                    find_file_at(pairs, from.as_str())
                },
                None => None,
            };
            Step::Apply { source, selection: selection.to_selection() }
        },
    }
}

/// Decide what happens to every file that is there, once a spec is read in the
/// frame of this directory.
pub fn select(spec: &mut Spec, frame: &PathFrame, paths: &Vec<String>) -> (steps: Vec<SelectStep>)
    ensures
        ({
            let pairs = spelled(deep(frame.prefix@), deep(paths@));
            &&& deep_map(final(spec).files) == adopted(
                pairs,
                old(spec).files.keys(),
                deep_map(old(spec).files),
            )
            &&& final(spec).default == old(spec).default
            &&& steps@.len() == paths@.len()
            &&& forall|i: int|
                0 <= i < steps@.len() ==> {
                    &&& (#[trigger] steps@[i]).file.fs@ == deep(paths@)[i]
                    &&& steps@[i].file.display@ == pairs[i].0
                    &&& steps@[i].step.shape() == step_for(
                        deep_map(final(spec).files),
                        pairs,
                        pairs[i].0,
                    )
                }
        }),
{
    let ghost names = deep(paths@);
    let ghost expected = spelled(deep(frame.prefix@), names);
    let mut pairs: Vec<(String, String)> = Vec::new();
    let mut i: usize = 0;
    while i < paths.len()
        invariant
            names == deep(paths@),
            expected == spelled(deep(frame.prefix@), names),
            i <= paths.len(),
            pairs@.len() == i,
            forall|j: int| 0 <= j < i ==> (#[trigger] pair_views(pairs@)[j]) == expected[j],
        decreases paths.len() - i,
    {
        let SelectPath { fs, display } = frame.resolve(paths[i].as_str());
        let ghost held = pairs@;
        pairs.push((display, fs));
        assert forall|j: int| 0 <= j < i + 1 implies (#[trigger] pair_views(pairs@)[j])
            == expected[j] by {
            if j < i {
                assert(pair_views(held)[j] == expected[j]);
            }
        }
        i += 1;
    }
    assert(pair_views(pairs@) =~= expected);
    adopt_spec_frame(spec, &pairs);
    let mut steps: Vec<SelectStep> = Vec::new();
    i = 0;
    while i < paths.len()
        invariant
            names == deep(paths@),
            expected == spelled(deep(frame.prefix@), names),
            expected == pair_views(pairs@),
            pairs@.len() == paths@.len(),
            i <= paths.len(),
            steps@.len() == i,
            forall|j: int|
                0 <= j < i ==> {
                    &&& (#[trigger] steps@[j]).file.fs@ == names[j]
                    &&& steps@[j].file.display@ == expected[j].0
                    &&& steps@[j].step.shape() == step_for(
                        deep_map(spec.files),
                        expected,
                        expected[j].0,
                    )
                },
        decreases paths.len() - i,
    {
        assert(expected[i as int] == pair_views(pairs@)[i as int]);
        let step = step_of(&spec.files, &pairs, pairs[i].0.as_str());
        let file = SelectPath { fs: pairs[i].1.clone(), display: pairs[i].0.clone() };
        steps.push(SelectStep { file, step });
        i += 1;
    }
    steps
}

/// The entry that states a path as the one its file came from; the last of them
/// where there are several.
pub open spec fn claimed_by(
    entries: Seq<(Seq<char>, FileSpecView)>,
    path: Seq<char>,
) -> Option<Seq<char>>
    decreases entries.len(),
{
    if entries.len() == 0 {
        None
    } else if source_of(entries.last().1) == Some(path) && path != entries.last().0 {
        Some(entries.last().0)
    } else {
        claimed_by(entries.drop_last(), path)
    }
}

/// Whether a file that no entry names is reset.
///
/// One that an entry states as the path its file came from, and that is gone,
/// goes with that entry: it stays gone where any of the change is kept, and is
/// put back where none is. Everything else takes the default.
pub open spec fn reset_when_unnamed(
    spec: SpecView,
    path: Seq<char>,
    on_right: bool,
    kept: Map<Seq<char>, bool>,
) -> bool {
    match claimed_by(spec.files, path) {
        Some(target) if !on_right => !(kept.dom().contains(target) && kept[target]),
        _ => spec.default == DefaultAction::Reset,
    }
}

/// Whether a file that no entry names is reset, once it is known which named
/// files kept any of their change.
pub fn resets_unnamed(
    spec: &Spec,
    display: &str,
    on_right: bool,
    kept: &NameMap<bool>,
) -> (r: bool)
    ensures
        r == reset_when_unnamed(spec.deep_view(), display@, on_right, kept@),
{
    let ghost entries = spec.deep_view().files;
    let n: usize = spec.files.len();
    if !on_right {
        let mut i: usize = n;
        assert(entries.take(i as int) =~= entries);
        while i > 0
            invariant
                n == spec.files.keys().len(),
                spec.files.well_formed(),
                entries == spec.deep_view().files,
                i <= n,
                !on_right,
                claimed_by(entries, display@) == claimed_by(entries.take(i as int), display@),
            decreases i,
        {
            assert(entries.take(i as int).drop_last() =~= entries.take(i as int - 1));
            assert(entries.take(i as int).last() == entries[i - 1]);
            i -= 1;
            let key = spec.files.key_at(i);
            let entry = spec.files.value_at(i);
            assert(entries[i as int] == (key@, entry.deep_view()));
            if let Some(from) = entry.source_path() {
                if same(from, display) && !same(display, key.as_str()) {
                    return match kept.get(key.as_str()) {
                        Some(any) => !*any,
                        None => true,
                    };
                }
            }
        }
    }
    spec.default == DefaultAction::Reset
}

/// Whether an entry states a path as the one its file came from.
pub open spec fn states_source(entry: (Seq<char>, FileSpecView), path: Seq<char>) -> bool {
    source_of(entry.1) == Some(path) && entry.0 != path
}

proof fn lemma_claimed(entries: Seq<(Seq<char>, FileSpecView)>, path: Seq<char>)
    ensures
        match claimed_by(entries, path) {
            None => forall|i: int|
                0 <= i < entries.len() ==> !states_source(#[trigger] entries[i], path),
            Some(target) => exists|i: int|
                {
                    &&& 0 <= i < entries.len()
                    &&& states_source(#[trigger] entries[i], path)
                    &&& entries[i].0 == target
                    &&& forall|j: int|
                        i < j < entries.len() ==> !states_source(#[trigger] entries[j], path)
                },
        },
    decreases entries.len(),
{
    if entries.len() > 0 {
        let rest = entries.drop_last();
        let last = entries.len() - 1;
        lemma_claimed(rest, path);
        if states_source(entries[last], path) {
            assert(entries[last].0 == entries.last().0);
        } else {
            assert forall|i: int| 0 <= i < rest.len() implies #[trigger] rest[i] == entries[i] by {}
            if claimed_by(rest, path) is Some {
                let i = choose|i: int|
                    {
                        &&& 0 <= i < rest.len()
                        &&& states_source(#[trigger] rest[i], path)
                        &&& rest[i].0 == claimed_by(rest, path)->0
                        &&& forall|j: int|
                            i < j < rest.len() ==> !states_source(#[trigger] rest[j], path)
                    };
                assert(states_source(entries[i], path));
                assert forall|j: int| i < j < entries.len() implies !states_source(
                    #[trigger] entries[j],
                    path,
                ) by {
                    if j < rest.len() {
                        assert(!states_source(rest[j], path));
                    }
                }
            } else {
                assert forall|i: int| 0 <= i < entries.len() implies !states_source(
                    #[trigger] entries[i],
                    path,
                ) by {
                    if i < rest.len() {
                        assert(!states_source(rest[i], path));
                    }
                }
            }
        }
    }
}

/// A file that no entry names is reset exactly where a spec decides to skip it,
/// so never where the default is to keep. This holds of every file that is still
/// there and of every one that no entry states as the path its file came from.
pub proof fn an_unnamed_file_is_reset_where_the_spec_skips_it(
    spec: SpecView,
    path: Seq<char>,
    on_right: bool,
    kept: Map<Seq<char>, bool>,
)
    requires
        forall|i: int| 0 <= i < spec.files.len() ==> (#[trigger] spec.files[i]).0 != path,
        on_right || forall|i: int|
            0 <= i < spec.files.len() ==> !states_source(#[trigger] spec.files[i], path),
    ensures
        reset_when_unnamed(spec, path, on_right, kept) <==> decided(spec, path) is Skip,
        spec.default == DefaultAction::Keep ==> !reset_when_unnamed(spec, path, on_right, kept),
        spec.default == DefaultAction::Reset ==> reset_when_unnamed(spec, path, on_right, kept),
{
    lemma_claimed(spec.files, path);
    crate::names::lemma_lookup_none(spec.files, path);
}

/// A path that is gone because its file moved follows that file: it stays gone
/// where any of the move is kept, and comes back where none is, whatever the
/// default. Where several entries state it, the last of them decides.
pub proof fn a_path_moved_away_from_follows_its_file(
    spec: SpecView,
    path: Seq<char>,
    kept: Map<Seq<char>, bool>,
    i: int,
)
    requires
        0 <= i < spec.files.len(),
        states_source(spec.files[i], path),
        forall|j: int| i < j < spec.files.len() ==> !states_source(#[trigger] spec.files[j], path),
    ensures
        reset_when_unnamed(spec, path, false, kept) <==> !kept.contains_pair(
            spec.files[i].0,
            true,
        ),
{
    lemma_claimed(spec.files, path);
    let target = claimed_by(spec.files, path)->0;
    let k = choose|k: int|
        {
            &&& 0 <= k < spec.files.len()
            &&& states_source(#[trigger] spec.files[k], path)
            &&& spec.files[k].0 == target
            &&& forall|j: int|
                k < j < spec.files.len() ==> !states_source(#[trigger] spec.files[j], path)
        };
    assert(k == i) by {
        if k < i {
            assert(!states_source(spec.files[i], path));
        }
        if i < k {
            assert(!states_source(spec.files[k], path));
        }
    }
}

proof fn lemma_found_at(pairs: Seq<(Seq<char>, Seq<char>)>, display: Seq<char>)
    ensures
        match found_at(pairs, display) {
            Some(path) => pairs.contains((display, path)),
            None => forall|i: int| 0 <= i < pairs.len() ==> (#[trigger] pairs[i]).0 != display,
        },
    decreases pairs.len(),
{
    if pairs.len() > 0 {
        let rest = pairs.drop_last();
        lemma_found_at(rest, display);
        let last = pairs.len() - 1;
        if pairs[last].0 == display {
            assert(pairs[last] == (display, pairs[last].1));
        } else if found_at(rest, display) is Some {
            let i = choose|i: int|
                0 <= i < rest.len() && rest[i] == (display, found_at(rest, display)->0);
            assert(pairs[i] == rest[i]);
        } else {
            assert forall|i: int| 0 <= i < pairs.len() implies (#[trigger] pairs[i]).0
                != display by {
                if i < rest.len() {
                    assert(rest[i].0 != display);
                }
            }
        }
    }
}

/// What happens to a file that an entry names is what the spec decides of it:
/// all of it is kept, none of it is, or those hunks are that the entry names.
pub proof fn a_step_does_what_the_spec_decides(
    spec: Spec,
    pairs: Seq<(Seq<char>, Seq<char>)>,
    path: Seq<char>,
)
    requires
        spec.files.well_formed(),
    ensures
        ({
            let step = step_for(deep_map(spec.files), pairs, path);
            let decision = decided(spec.deep_view(), path);
            let named = exists|i: int|
                0 <= i < spec.deep_view().files.len() && (#[trigger] spec.deep_view().files[i]).0
                    == path;
            &&& step is Unnamed <==> !named
            &&& named ==> (step is Keep <==> decision is KeepAll)
            &&& step is Reset ==> decision is Skip
            &&& step matches StepView::Apply { indices, ids, .. } ==> match decision {
                Decision::KeepSelection { indices: i, ids: n } => indices == i && ids == n,
                Decision::Skip => indices == Set::<usize>::empty() && ids == Set::<
                    Seq<char>,
                >::empty(),
                Decision::KeepAll => false,
            }
        }),
{
    crate::keeping::a_spec_has_the_entries_of_its_map(spec);
    lemma_listed(spec.files, path);
    let entries = spec.deep_view().files;
    if lookup(entries, path) is None {
        assert forall|i: int| 0 <= i < entries.len() implies (#[trigger] entries[i]).0 != path by {}
    } else if forall|i: int| 0 <= i < entries.len() ==> (#[trigger] entries[i]).0 != path {
        crate::names::lemma_lookup_none(entries, path);
    }
    if let Some(FileSpecView::Selection(s)) = lookup(entries, path) {
        if s.hunks.len() == 0 && s.ids.len() == 0 {
            crate::spec::an_entry_without_hunks_names_none(s);
        }
    }
}

/// A file whose contents before the change are at another path takes them from
/// the file that is printed so, and from its own path where none is.
pub proof fn the_contents_before_are_where_the_entry_says(
    entries: Map<Seq<char>, FileSpecView>,
    pairs: Seq<(Seq<char>, Seq<char>)>,
    path: Seq<char>,
    s: HunkSpecView,
)
    requires
        entries.contains_pair(path, FileSpecView::Selection(s)),
    ensures
        step_for(entries, pairs, path) matches StepView::Apply { source, .. } && match source {
            Some(at) => s.from matches Some(from) && from != path && pairs.contains((from, at)),
            None => s.from matches Some(from) ==> from == path || forall|i: int|
                0 <= i < pairs.len() ==> (#[trigger] pairs[i]).0 != from,
        },
{
    if let Some(from) = s.from {
        lemma_found_at(pairs, from);
    }
}

/// What comes of keeping some of a file's hunks.
#[derive(Debug)]
pub enum Applied {
    /// Nothing of the change is kept: the file goes back to what it was.
    Reset,
    /// The file was deleted, and stays so.
    KeepDeletion,
    /// The file is a link whose change is kept as it is.
    KeepLink,
    /// The file gets this text.
    Write(String),
    /// The texts have too many lines to be diffed.
    TooLarge,
}

/// The text a file has where it is not there.
pub open spec fn text_after(after: Option<&str>) -> Seq<char> {
    text_or(after, Seq::empty())
}

/// Keep some hunks of one file, by its texts on either side; `after` is nothing
/// where the file was deleted.
///
/// A selection that names nothing keeps nothing, whatever the texts are. A
/// deletion is one change and is kept or not. What comes to the text before is
/// a reset: a copy of the file puts back what no text could.
pub fn apply_hunk_selection(
    path: &str,
    before: &str,
    after: Option<&str>,
    after_is_link: bool,
    selection: &HunkSelection,
) -> (r: Result<Applied, AmbiguousId>)
    ensures
        ({
            let indices = selection.indices@;
            let ids = selection.ids@;
            let empty = indices == Set::<usize>::empty() && ids == Set::<Seq<char>>::empty();
            let fits = diffable(before@, text_after(after));
            let hunks = file_hunks(path@, before@, text_after(after));
            let result = crate::diff::rebuilt(
                crate::diff::line_changes(before@, text_after(after)),
                selection.positions(hunks),
            );
            match r {
                Ok(Applied::TooLarge) => !empty && !fits,
                Err(e) => !empty && fits && !selection.unambiguous(hunks)
                    && selection.first_ambiguity(hunks, e),
                Ok(applied) => empty && applied is Reset || !empty && fits && selection.unambiguous(
                    hunks,
                ) && (match after {
                    None => if selection.positions(hunks) == Set::<usize>::empty() {
                        applied is Reset
                    } else {
                        applied is KeepDeletion
                    },
                    Some(_) => if result == before@ {
                        applied is Reset
                    } else if after_is_link {
                        applied is KeepLink
                    } else {
                        applied matches Applied::Write(text) && text@ == result
                    },
                }),
            }
        }),
{
    if selection.is_empty() {
        return Ok(Applied::Reset);
    }
    let nothing = String::new();
    assert(nothing@ =~= Seq::empty());
    let new_text = match after {
        Some(text) => text,
        None => nothing.as_str(),
    };
    assert(new_text@ == text_after(after));
    if !can_diff(before, new_text) {
        return Ok(Applied::TooLarge);
    }
    match after {
        None => {
            let hunks = get_hunks(path, before, new_text);
            match selection.resolve(&hunks) {
                Ok(kept) => {
                    let ghost positions = selection.positions(deep(hunks@));
                    let none = kept.is_empty();
                    assert(none == (kept@ =~= Set::<usize>::empty()));
                    if none {
                        Ok(Applied::Reset)
                    } else {
                        Ok(Applied::KeepDeletion)
                    }
                },
                Err(e) => Err(e),
            }
        },
        Some(_) => match apply_selected_hunks(path, before, new_text, selection) {
            Ok(result) => if same(result.as_str(), before) {
                Ok(Applied::Reset)
            } else if after_is_link {
                Ok(Applied::KeepLink)
            } else {
                Ok(Applied::Write(result))
            },
            Err(e) => Err(e),
        },
    }
}

/// What is said of a side that cannot be read as text.
pub fn unselectable_message(display: &str) -> (r: String)
    ensures
        r@ == "Failed to read "@ + display@
            + " as text. A file that is not valid UTF-8 cannot be selected hunk-wise; keep or reset it whole instead (`{\"action\": \"keep\"}`, `{\"action\": \"reset\"}`, or an empty selection `{\"ids\": []}`)."@,
{
    concat3(
        "Failed to read ",
        display,
        " as text. A file that is not valid UTF-8 cannot be selected hunk-wise; keep or reset it whole instead (`{\"action\": \"keep\"}`, `{\"action\": \"reset\"}`, or an empty selection `{\"ids\": []}`).",
    )
}

// ---------------------------------------------------------------------------
// Where a spec comes from
// ---------------------------------------------------------------------------

/// Where a spec is read from.
#[derive(Debug)]
pub enum SpecSource {
    File(String),
    Stdin,
    Inline(String),
}

/// Where a spec is read from: a file where one is named, else what is given,
/// where `-` is the standard input.
pub fn resolve_spec_input(spec: Option<&str>, spec_file: Option<&str>) -> (r: Result<
    SpecSource,
    &'static str,
>)
    ensures
        match r {
            Ok(SpecSource::File(path)) => optional(spec_file) == Some(path@) && path@.len() > 0,
            Ok(SpecSource::Stdin) => spec_file is None && optional(spec) == Some("-"@),
            Ok(SpecSource::Inline(text)) => spec_file is None && optional(spec) == Some(text@)
                && text@ != "-"@,
            Err(message) => (optional(spec_file) == Some(Seq::<char>::empty()) && message@
                == "Spec file path is empty"@) || (spec_file is None && spec is None && message@
                == "Spec is required (or use --spec-file)"@),
        },
{
    if let Some(path) = spec_file {
        if path.is_empty() {
            assert(path@ =~= Seq::<char>::empty());
            return Err("Spec file path is empty");
        }
        return Ok(SpecSource::File(path.to_owned()));
    }
    match spec {
        None => Err("Spec is required (or use --spec-file)"),
        Some(text) => if same(text, "-") {
            Ok(SpecSource::Stdin)
        } else {
            Ok(SpecSource::Inline(text.to_owned()))
        },
    }
}

/// Where a spec is read from, where one may be left out.
pub fn resolve_optional_spec(spec: Option<&str>, spec_file: Option<&str>) -> (r: Result<
    Option<SpecSource>,
    &'static str,
>)
    ensures
        match r {
            Ok(None) => spec is None && spec_file is None,
            Ok(Some(SpecSource::File(path))) => optional(spec_file) == Some(path@) && path@.len()
                > 0,
            Ok(Some(SpecSource::Stdin)) => spec_file is None && optional(spec) == Some("-"@),
            Ok(Some(SpecSource::Inline(text))) => spec_file is None && optional(spec) == Some(text@)
                && text@ != "-"@,
            Err(message) => optional(spec_file) == Some(Seq::<char>::empty()) && message@
                == "Spec file path is empty"@,
        },
{
    if spec.is_none() && spec_file.is_none() {
        return Ok(None);
    }
    match resolve_spec_input(spec, spec_file) {
        Ok(source) => Ok(Some(source)),
        Err(message) => Err(message),
    }
}

/// Refuse a spec from the standard input that is nothing but white space.
pub fn check_stdin_spec(buffer: &str) -> (r: Result<(), &'static str>)
    ensures
        match r {
            Ok(_) => trimmed(buffer@).len() > 0,
            Err(message) => trimmed(buffer@).len() == 0 && message@ == "Spec from stdin is empty"@,
        },
{
    if trim(buffer).as_str().is_empty() {
        Err("Spec from stdin is empty")
    } else {
        Ok(())
    }
}

// ---------------------------------------------------------------------------
// The commands that write
// ---------------------------------------------------------------------------

pub const JJ_HUNK_TOOL_ARG: &'static str = "--tool=jj-hunk";

pub const JJ_HUNK_PROGRAM_KEY: &'static str = "merge-tools.jj-hunk.program";

pub const JJ_HUNK_EDIT_ARGS_KEY: &'static str = "merge-tools.jj-hunk.edit-args";

/// How a character is written inside a JSON string.
pub open spec fn json_char(c: char) -> Seq<char> {
    let n = c as u32 as int;
    if c == '"' || c == '\\' {
        seq!['\\', c]
    } else if n == 8 {
        seq!['\\', 'b']
    } else if n == 9 {
        seq!['\\', 't']
    } else if n == 10 {
        seq!['\\', 'n']
    } else if n == 12 {
        seq!['\\', 'f']
    } else if n == 13 {
        seq!['\\', 'r']
    } else if n < 0x20 {
        seq!['\\', 'u', '0', '0', hex_digit(n / 16), hex_digit(n % 16)]
    } else {
        seq![c]
    }
}

pub open spec fn json_body(s: Seq<char>) -> Seq<char>
    decreases s.len(),
{
    if s.len() == 0 {
        Seq::empty()
    } else {
        json_body(s.drop_last()) + json_char(s.last())
    }
}

/// A text as a JSON string, which is a TOML string too.
pub open spec fn json_string(s: Seq<char>) -> Seq<char> {
    seq!['"'] + json_body(s) + seq!['"']
}

/// Write a text as a TOML string.
///
/// Calls `serde_json::to_string` on the text, which cannot fail. The contract
/// claims that it writes the text between quotation marks, with quotation
/// marks, backslashes and control characters escaped and nothing else.
#[verifier::external_body]
fn toml_string(value: &str) -> (r: String)
    ensures
        r@ == json_string(value@),
{
    serde_json::to_string(value).unwrap()
}

/// The settings that have jj call this program back as its diff editor.
pub open spec fn tool_config(program: Seq<char>) -> Seq<Seq<char>> {
    seq![
        "--config"@,
        JJ_HUNK_PROGRAM_KEY@ + "="@ + json_string(program),
        "--config"@,
        JJ_HUNK_EDIT_ARGS_KEY@ + "=[\"select\", \"$left\", \"$right\"]"@,
    ]
}

/// The settings that have jj call this program back as its diff editor.
///
/// Whatever is configured is overridden: the ids in a spec mean something only
/// to the program that computed them.
pub fn jj_hunk_tool_config_args(program: &str) -> (args: Vec<String>)
    ensures
        deep(args@) == tool_config(program@),
{
    let mut args: Vec<String> = Vec::new();
    args.push("--config".to_owned());
    args.push(concat3(JJ_HUNK_PROGRAM_KEY, "=", toml_string(program).as_str()));
    args.push("--config".to_owned());
    args.push(concat2(JJ_HUNK_EDIT_ARGS_KEY, "=[\"select\", \"$left\", \"$right\"]"));
    assert(deep(args@) =~= tool_config(program@));
    args
}

/// The argument that hands jj a message, as one token: what a message begins
/// with must not be read as a flag.
pub fn message_arg(message: &str) -> (r: String)
    ensures
        r@ == "--message="@ + message@,
{
    concat2("--message=", message)
}

/// A jj command, and the diff that it shows its editor.
#[derive(Debug)]
pub struct Invocation {
    pub args: Vec<String>,
    pub target: DiffTarget,
}

#[verifier::ext_equal]
pub struct InvocationView {
    pub args: Seq<Seq<char>>,
    pub target: TargetView,
}

impl DeepView for Invocation {
    type V = InvocationView;

    open spec fn deep_view(&self) -> InvocationView {
        InvocationView { args: deep(self.args@), target: self.target.deep_view() }
    }
}

/// A flag with its value, where there is one.
pub open spec fn flagged(flag: Seq<char>, value: Option<Seq<char>>) -> Seq<Seq<char>> {
    match value {
        Some(v) => seq![flag, v],
        None => Seq::empty(),
    }
}

fn push_flag(args: &mut Vec<String>, flag: &str, value: Option<&str>)
    ensures
        deep(final(args)@) == deep(old(args)@) + flagged(flag@, optional(value)),
{
    broadcast use group_deep;

    let ghost before = deep(args@);
    if let Some(v) = value {
        args.push(flag.to_owned());
        args.push(v.to_owned());
    }
    assert(deep(args@) =~= before + flagged(flag@, optional(value)));
}

/// Split a revision: what is selected goes into the first commit.
pub fn split(message: &str, rev: Option<&str>) -> (r: Invocation)
    ensures
        r.deep_view() == (InvocationView {
            args: seq!["split"@, JJ_HUNK_TOOL_ARG@, "--message="@ + message@] + flagged(
                "-r"@,
                optional(rev),
            ),
            target: TargetView::Rev(optional(rev)),
        }),
{
    let mut args: Vec<String> = Vec::new();
    args.push("split".to_owned());
    args.push(JJ_HUNK_TOOL_ARG.to_owned());
    args.push(message_arg(message));
    assert(deep(args@) =~= seq!["split"@, JJ_HUNK_TOOL_ARG@, "--message="@ + message@]);
    push_flag(&mut args, "-r", rev);
    Invocation { args, target: DiffTarget::rev(rev) }
}

/// Commit what is selected of the working copy.
pub fn commit(message: &str) -> (r: Invocation)
    ensures
        r.deep_view() == (InvocationView {
            args: seq!["commit"@, "-i"@, JJ_HUNK_TOOL_ARG@, "--message="@ + message@],
            target: TargetView::Rev(None),
        }),
{
    let mut args: Vec<String> = Vec::new();
    args.push("commit".to_owned());
    args.push("-i".to_owned());
    args.push(JJ_HUNK_TOOL_ARG.to_owned());
    args.push(message_arg(message));
    assert(deep(args@) =~= seq!["commit"@, "-i"@, JJ_HUNK_TOOL_ARG@, "--message="@ + message@]);
    Invocation { args, target: DiffTarget::rev(None) }
}

/// Move what is selected of a revision into its parent.
pub fn squash(rev: Option<&str>) -> (r: Invocation)
    ensures
        r.deep_view() == (InvocationView {
            args: seq!["squash"@, "-i"@, JJ_HUNK_TOOL_ARG@] + flagged("-r"@, optional(rev)),
            target: TargetView::Rev(optional(rev)),
        }),
{
    let mut args: Vec<String> = Vec::new();
    args.push("squash".to_owned());
    args.push("-i".to_owned());
    args.push(JJ_HUNK_TOOL_ARG.to_owned());
    assert(deep(args@) =~= seq!["squash"@, "-i"@, JJ_HUNK_TOOL_ARG@]);
    push_flag(&mut args, "-r", rev);
    Invocation { args, target: DiffTarget::rev(rev) }
}

/// Rewrite a revision so that it holds only what is selected of its diff.
///
/// What is selected is kept; everything else in the diff is dropped. A side that
/// is left out is the working copy.
pub fn diffedit(rev: Option<&str>, from: Option<&str>, to: Option<&str>) -> (r: Result<
    Invocation,
    &'static str,
>)
    ensures
        ({
            let sides = from is Some || to is Some;
            match r {
                Ok(invocation) => !(sides && rev is Some) && invocation.deep_view() == (
                InvocationView {
                    args: seq!["diffedit"@, JJ_HUNK_TOOL_ARG@] + (if sides {
                        flagged("--from"@, optional(from)) + flagged("--to"@, optional(to))
                    } else {
                        flagged("-r"@, optional(rev))
                    }),
                    target: if sides {
                        TargetView::FromTo { from: text_or(from, "@"@), to: text_or(to, "@"@) }
                    } else {
                        TargetView::Rev(optional(rev))
                    },
                }),
                Err(message) => sides && rev is Some && message@
                    == "-r/--rev cannot be used with --from/--to"@,
            }
        }),
{
    let mut args: Vec<String> = Vec::new();
    args.push("diffedit".to_owned());
    args.push(JJ_HUNK_TOOL_ARG.to_owned());
    let ghost head = seq!["diffedit"@, JJ_HUNK_TOOL_ARG@];
    assert(deep(args@) =~= head);
    if from.is_none() && to.is_none() {
        push_flag(&mut args, "-r", rev);
        return Ok(Invocation { args, target: DiffTarget::rev(rev) });
    }
    if rev.is_some() {
        return Err("-r/--rev cannot be used with --from/--to");
    }
    push_flag(&mut args, "--from", from);
    push_flag(&mut args, "--to", to);
    assert(deep(args@) =~= head + (flagged("--from"@, optional(from)) + flagged(
        "--to"@,
        optional(to),
    )));
    Ok(
        Invocation {
            args,
            target: DiffTarget::FromTo { from: owned_or(from, "@"), to: owned_or(to, "@") },
        },
    )
}

/// The revision whose parent a restore takes its content from, where it is not
/// told what to take it from: it has to be resolved before [`restore`].
pub fn restore_asks(changes_in: Option<&str>, from: Option<&str>, into: Option<&str>) -> (r: Option<
    String,
>)
    ensures
        r.deep_view() == (if from is None && into is None {
            Some(text_or(changes_in, "@"@))
        } else {
            None
        }),
{
    if from.is_none() && into.is_none() {
        Some(owned_or(changes_in, "@"))
    } else {
        None
    }
}

/// Undo what is selected, taking its content from another revision.
///
/// What is selected is undone: jj shows its editor the destination on the left
/// and the source on the right, the reverse of a diff of a revision, and keeping
/// a hunk there lets the restoration stand. So the target is the destination
/// against the source, and its ids are those of that listing. `resolved` is what
/// [`restore_asks`] names.
pub fn restore(
    changes_in: Option<&str>,
    from: Option<&str>,
    into: Option<&str>,
    resolved: Option<DiffRevisions>,
) -> (r: Result<Invocation, String>)
    requires
        from is None && into is None ==> (resolved matches Some(sides) && sides.after is Some),
    ensures
        ({
            let sides = from is Some || into is Some;
            let head = seq!["restore"@, "-i"@, JJ_HUNK_TOOL_ARG@];
            match r {
                Ok(invocation) => if sides {
                    changes_in is None && invocation.deep_view() == (InvocationView {
                        args: head + (flagged("--from"@, optional(from)) + flagged(
                            "--into"@,
                            optional(into),
                        )),
                        target: TargetView::FromTo {
                            from: text_or(into, "@"@),
                            to: text_or(from, "@"@),
                        },
                    })
                } else {
                    resolved->0.before is Some && invocation.deep_view() == (InvocationView {
                        args: head + flagged("-c"@, optional(changes_in)),
                        target: TargetView::FromTo {
                            from: resolved->0.after.deep_view()->0,
                            to: resolved->0.before.deep_view()->0,
                        },
                    })
                },
                Err(message) => if sides {
                    changes_in is Some && message@
                        == "-c/--changes-in cannot be used with --from/--into"@
                } else {
                    resolved->0.before is None && message@ == "`"@ + text_or(changes_in, "@"@)
                        + "` has no parent, so there is nothing to restore from"@
                },
            }
        }),
{
    let sides = from.is_some() || into.is_some();
    if changes_in.is_some() && sides {
        return Err("-c/--changes-in cannot be used with --from/--into".to_owned());
    }
    let mut args: Vec<String> = Vec::new();
    args.push("restore".to_owned());
    args.push("-i".to_owned());
    args.push(JJ_HUNK_TOOL_ARG.to_owned());
    let ghost head = seq!["restore"@, "-i"@, JJ_HUNK_TOOL_ARG@];
    assert(deep(args@) =~= head);
    if sides {
        push_flag(&mut args, "--from", from);
        push_flag(&mut args, "--into", into);
        assert(deep(args@) =~= head + (flagged("--from"@, optional(from)) + flagged(
            "--into"@,
            optional(into),
        )));
        return Ok(
            Invocation {
                args,
                target: DiffTarget::FromTo { from: owned_or(into, "@"), to: owned_or(from, "@") },
            },
        );
    }
    push_flag(&mut args, "-c", changes_in);
    let found = resolved.unwrap();
    let destination = found.after.unwrap();
    match found.before {
        Some(source) => Ok(
            Invocation { args, target: DiffTarget::FromTo { from: destination, to: source } },
        ),
        None => Err(
            concat3(
                "`",
                owned_or(changes_in, "@").as_str(),
                "` has no parent, so there is nothing to restore from",
            ),
        ),
    }
}

// ---------------------------------------------------------------------------
// Putting files back
// ---------------------------------------------------------------------------

/// What a path leads to.
#[derive(Debug, Clone, Copy, PartialEq, Eq, Structural)]
pub enum Found {
    /// It leads through a link, or out of the directory.
    Elsewhere,
    Nothing,
    Regular,
    Link,
}

/// What is put in place of a file.
#[derive(Debug, Clone, Copy, PartialEq, Eq, Structural)]
pub enum Replacement {
    /// The file is left alone.
    Untouched,
    /// There is no file afterwards.
    Absent,
    /// A copy of the file as it was.
    Copy,
    /// A link to where the link led.
    Link,
}

/// How a file is put back: whether the one that is there is removed, and what
/// comes in its place.
///
/// A path on the right that leads elsewhere is no entry of the tree, so there is
/// nothing to put back; one on the left is as good as absent. A link is put back
/// as a link, never as what it leads to.
pub fn reset_file(left: Found, right: Found) -> (r: (bool, Replacement))
    ensures
        r.0 == (right == Found::Regular || right == Found::Link),
        r.1 == (if right == Found::Elsewhere {
            Replacement::Untouched
        } else {
            match left {
                Found::Regular => Replacement::Copy,
                Found::Link => Replacement::Link,
                _ => Replacement::Absent,
            }
        }),
{
    match right {
        Found::Elsewhere => (false, Replacement::Untouched),
        _ => {
            let there = match right {
                Found::Nothing => false,
                _ => true,
            };
            let put = match left {
                Found::Regular => Replacement::Copy,
                Found::Link => Replacement::Link,
                _ => Replacement::Absent,
            };
            (there, put)
        },
    }
}

/// Whether an entry of a directory is one that a selection is about: a file or a
/// link, but not the note that jj leaves there.
pub fn is_selectable(is_file: bool, is_link: bool, name: &str) -> (r: bool)
    ensures
        r == ((is_file || is_link) && name@ != "JJ-INSTRUCTIONS"@),
{
    (is_file || is_link) && !same(name, "JJ-INSTRUCTIONS")
}

// ---------------------------------------------------------------------------
// What stands on the command line
// ---------------------------------------------------------------------------

/// What is said where a spec is given twice.
pub open spec fn two_specs(command: Seq<char>) -> Seq<char> {
    command + ": omit <spec> when using --spec-file"@
}

/// What is said where no spec is given.
pub open spec fn spec_wanted(command: Seq<char>) -> Seq<char> {
    command + " requires a spec (or use --spec-file)"@
}

/// Settle which of a spec and a file with one is used: one of them is needed, and
/// no more than one is taken. What is left is the spec, where there is no file.
pub fn normalize_spec_only(spec: Option<String>, spec_file: &Option<String>, command: &str) -> (r:
    Result<Option<String>, String>)
    ensures
        match r {
            Ok(left) => (spec_file is None <==> spec is Some) && left == spec,
            Err(message) => if spec_file is Some {
                spec is Some && message@ == two_specs(command@)
            } else {
                spec is None && message@ == spec_wanted(command@)
            },
        },
{
    if spec_file.is_some() {
        if spec.is_some() {
            return Err(concat2(command, ": omit <spec> when using --spec-file"));
        }
        return Ok(None);
    }
    match spec {
        Some(text) => Ok(Some(text)),
        None => Err(concat2(command, " requires a spec (or use --spec-file)")),
    }
}

/// Settle what two words on the command line are: a spec and a message, or, where
/// a file holds the spec and there is one word, the message.
pub fn normalize_spec_message(
    spec: Option<String>,
    message: Option<String>,
    spec_file: &Option<String>,
    command: &str,
) -> (r: Result<(Option<String>, String), String>)
    ensures
        ({
            let shifted = spec_file is Some && message is None;
            let said = if shifted {
                spec
            } else {
                message
            };
            let left = if shifted {
                None
            } else {
                spec
            };
            match r {
                Ok((text, words)) => said == Some(words) && left == text && (spec_file is None
                    <==> left is Some),
                Err(e) => if said is None {
                    e@ == command@ + " requires a commit message"@
                } else if spec_file is Some {
                    left is Some && e@ == two_specs(command@)
                } else {
                    left is None && e@ == spec_wanted(command@)
                },
            }
        }),
{
    let mut left = spec;
    let mut said = message;
    if spec_file.is_some() && said.is_none() {
        said = left;
        left = None;
    }
    let words = match said {
        Some(words) => words,
        None => {
            return Err(concat2(command, " requires a commit message"));
        },
    };
    match normalize_spec_only(left, spec_file, command) {
        Ok(text) => Ok((text, words)),
        Err(e) => Err(e),
    }
}

/// Refuse a spec that is given twice, where none is needed.
pub fn refuse_two_specs(spec: &Option<String>, spec_file: &Option<String>, command: &str) -> (r:
    Result<(), String>)
    ensures
        match r {
            Ok(_) => spec is None || spec_file is None,
            Err(message) => spec is Some && spec_file is Some && message@ == two_specs(command@),
        },
{
    if spec.is_some() && spec_file.is_some() {
        return Err(concat2(command, ": omit <spec> when using --spec-file"));
    }
    Ok(())
}

// ---------------------------------------------------------------------------
// What an expression is evaluated against
// ---------------------------------------------------------------------------

proof fn lemma_sources(files: Seq<FileView>, path: Seq<char>)
    ensures
        match sources_of(files).dom().contains(path) {
            true => exists|i: int|
                {
                    &&& 0 <= i < files.len()
                    &&& (#[trigger] files[i]).path == path
                    &&& moved_from(files[i].rename, path) == Some(sources_of(files)[path])
                },
            false => forall|i: int|
                0 <= i < files.len() && (#[trigger] files[i]).path == path ==> moved_from(
                    files[i].rename,
                    path,
                ) is None,
        },
    decreases files.len(),
{
    if files.len() > 0 {
        let rest = files.drop_last();
        let last = files.len() - 1;
        lemma_sources(rest, path);
        assert(files[last] == files.last());
        if sources_of(rest).dom().contains(path) {
            let i = choose|i: int|
                {
                    &&& 0 <= i < rest.len()
                    &&& (#[trigger] rest[i]).path == path
                    &&& moved_from(rest[i].rename, path) == Some(sources_of(rest)[path])
                };
            assert(files[i] == rest[i]);
        } else {
            assert forall|i: int|
                0 <= i < rest.len() && (#[trigger] files[i]).path == path implies moved_from(
                files[i].rename,
                path,
            ) is None by {
                assert(rest[i] == files[i]);
            }
        }
    }
}

/// The paths that have a source are those of the files that were moved, and the
/// source of each is where its file came from.
pub proof fn a_source_is_where_a_file_came_from(files: Seq<FileView>, i: int)
    requires
        0 <= i < files.len(),
        forall|j: int|
            0 <= j < files.len() && j != i ==> (#[trigger] files[j]).path != files[i].path,
    ensures
        sources_of(files).dom().contains(files[i].path) <==> moved_from(
            files[i].rename,
            files[i].path,
        ) is Some,
        moved_from(files[i].rename, files[i].path) matches Some(from) ==> sources_of(
            files,
        )[files[i].path] == from,
{
    lemma_sources(files, files[i].path);
    if sources_of(files).dom().contains(files[i].path) {
        let path = files[i].path;
        let k = choose|k: int|
            {
                &&& 0 <= k < files.len()
                &&& (#[trigger] files[k]).path == path
                &&& moved_from(files[k].rename, path) == Some(sources_of(files)[path])
            };
        assert(k == i);
    }
}

#[verifier::spinoff_prover]
proof fn lemma_real_entries(files: Seq<FileView>, e: EntryView)
    ensures
        real_entries(files).contains(e) <==> exists|i: int, k: int|
            0 <= i < files.len() && 0 <= k < files[i].hunks.len() && e == #[trigger] real_entry(
                files[i],
                files[i].hunks[k],
            ),
    decreases files.len(),
{
    if files.len() > 0 {
        let rest = files.drop_last();
        let last = files.len() - 1;
        let before = real_entries(rest);
        let more = entries_in(files.last());
        let all = real_entries(files);
        assert(all == before + more);
        lemma_real_entries(rest, e);
        if exists|i: int, k: int|
            0 <= i < files.len() && 0 <= k < files[i].hunks.len() && e == #[trigger] real_entry(
                files[i],
                files[i].hunks[k],
            ) {
            let (i, k) = choose|i: int, k: int|
                0 <= i < files.len() && 0 <= k < files[i].hunks.len() && e == #[trigger] real_entry(
                    files[i],
                    files[i].hunks[k],
                );
            if i < last {
                assert(rest[i] == files[i]);
                assert(e == real_entry(rest[i], rest[i].hunks[k]));
                assert(before.contains(e));
                let n = choose|n: int| 0 <= n < before.len() && before[n] == e;
                assert(all[n] == e);
            } else {
                assert(more[k] == e);
                assert(all[before.len() + k] == e);
            }
        }
        if all.contains(e) {
            let n = choose|n: int| 0 <= n < all.len() && all[n] == e;
            if n < before.len() {
                assert(before[n] == e);
                let (i, k) = choose|i: int, k: int|
                    0 <= i < rest.len() && 0 <= k < rest[i].hunks.len() && e
                        == #[trigger] real_entry(rest[i], rest[i].hunks[k]);
                assert(files[i] == rest[i]);
                assert(e == real_entry(files[i], files[i].hunks[k]));
            } else {
                let k = n - before.len();
                assert(more[k] == e);
                assert(e == real_entry(files[last], files[last].hunks[k]));
            }
        }
    }
}

proof fn lemma_stand_in_entries(files: Seq<FileView>, e: EntryView)
    ensures
        stand_in_entries(files).contains(e) <==> exists|i: int|
            0 <= i < files.len() && needs_stand_in(#[trigger] files[i]) && e == stand_in_entry(
                files[i],
            ),
    decreases files.len(),
{
    if files.len() > 0 {
        let rest = files.drop_last();
        let last = files.len() - 1;
        let before = stand_in_entries(rest);
        let all = stand_in_entries(files);
        lemma_stand_in_entries(rest, e);
        assert(files[last] == files.last());
        if exists|i: int|
            0 <= i < files.len() && needs_stand_in(#[trigger] files[i]) && e == stand_in_entry(
                files[i],
            ) {
            let i = choose|i: int|
                0 <= i < files.len() && needs_stand_in(#[trigger] files[i]) && e == stand_in_entry(
                    files[i],
                );
            if i < last {
                assert(rest[i] == files[i]);
                let n = choose|n: int| 0 <= n < before.len() && before[n] == e;
                assert(all[n] == e);
            } else {
                assert(all[all.len() - 1] == e);
            }
        }
        if all.contains(e) {
            let n = choose|n: int| 0 <= n < all.len() && all[n] == e;
            if n < before.len() {
                assert(before[n] == e);
                let i = choose|i: int|
                    0 <= i < rest.len() && needs_stand_in(#[trigger] rest[i]) && e
                        == stand_in_entry(rest[i]);
                assert(files[i] == rest[i]);
            }
        }
    }
}

/// What an expression is evaluated against are the hunks of the diff, each with
/// its file's path, status and source, and one stand-in for each file that has a
/// change and no hunk. Nothing else is, and a stand-in is told from a hunk.
pub proof fn an_expression_sees_every_change(files: Seq<FileView>, e: EntryView)
    ensures
        entries_of(files).contains(e) <==> exists|i: int|
            {
                &&& 0 <= i < files.len()
                &&& e.path == (#[trigger] files[i]).path && e.status == files[i].status
                &&& e.from == moved_from(files[i].rename, files[i].path)
                &&& if e.stand_in {
                    files[i].hunks.len() == 0 && has_hunkless_change(files[i]) && e.hunk
                        == stand_in_for(files[i])
                } else {
                    files[i].hunks.contains(e.hunk)
                }
            },
{
    lemma_real_entries(files, e);
    lemma_stand_in_entries(files, e);
    let a = real_entries(files);
    let b = stand_in_entries(files);
    let all = entries_of(files);
    if a.contains(e) {
        let n = choose|n: int| 0 <= n < a.len() && a[n] == e;
        assert(all[n] == e);
        let (i, k) = choose|i: int, k: int|
            0 <= i < files.len() && 0 <= k < files[i].hunks.len() && e == #[trigger] real_entry(
                files[i],
                files[i].hunks[k],
            );
        assert(files[i].hunks.contains(files[i].hunks[k]));
        assert(files[i].path == e.path);
    }
    if b.contains(e) {
        let n = choose|n: int| 0 <= n < b.len() && b[n] == e;
        assert(all[a.len() + n] == e);
        let i = choose|i: int|
            0 <= i < files.len() && needs_stand_in(#[trigger] files[i]) && e == stand_in_entry(
                files[i],
            );
        assert(files[i].path == e.path);
    }
    if all.contains(e) {
        let n = choose|n: int| 0 <= n < all.len() && all[n] == e;
        if n < a.len() {
            assert(a[n] == e);
        } else {
            assert(b[n - a.len()] == e);
        }
    }
    if exists|i: int|
        {
            &&& 0 <= i < files.len()
            &&& e.path == (#[trigger] files[i]).path && e.status == files[i].status
            &&& e.from == moved_from(files[i].rename, files[i].path)
            &&& if e.stand_in {
                files[i].hunks.len() == 0 && has_hunkless_change(files[i]) && e.hunk
                    == stand_in_for(files[i])
            } else {
                files[i].hunks.contains(e.hunk)
            }
        } {
        let i = choose|i: int|
            {
                &&& 0 <= i < files.len()
                &&& e.path == (#[trigger] files[i]).path && e.status == files[i].status
                &&& e.from == moved_from(files[i].rename, files[i].path)
                &&& if e.stand_in {
                    files[i].hunks.len() == 0 && has_hunkless_change(files[i]) && e.hunk
                        == stand_in_for(files[i])
                } else {
                    files[i].hunks.contains(e.hunk)
                }
            };
        if e.stand_in {
            assert(e == stand_in_entry(files[i]));
            assert(needs_stand_in(files[i]));
        } else {
            let k = choose|k: int| 0 <= k < files[i].hunks.len() && files[i].hunks[k] == e.hunk;
            assert(e == real_entry(files[i], files[i].hunks[k]));
        }
    }
}

/// A listing is refused only where a template is asked for: as text, or over
/// files that were cut. Text comes out exactly where text is asked for.
pub proof fn a_listing_is_refused_only_as_a_template(
    r: Result<Listing, ListFailure>,
    options: ListOptions,
    entries: Seq<EntryOut>,
)
    requires
        lists(r, options, entries),
    ensures
        ({
            let textual = options.format == ListFormat::Text || options.format == ListFormat::Diff;
            let cut = exists|i: int|
                0 <= i < entries.len() && (#[trigger] entries[i]).truncated == Some(true);
            &&& r is Err <==> options.mode == ListMode::SpecTemplate && (textual || cut)
            &&& r matches Ok(Listing::Text(_)) ==> textual
            &&& r is Ok && textual ==> r->Ok_0 is Text
            &&& r matches Ok(Listing::Full(_)) ==> options.mode == ListMode::Full
            &&& r matches Ok(Listing::Files(_)) ==> options.mode == ListMode::Files
            &&& r matches Ok(Listing::Template(_)) ==> options.mode == ListMode::SpecTemplate
        }),
{
    let paths = cut_paths(entries);
    if paths.len() > 0 {
        crate::listing::every_cut_file_is_reported(entries, paths[0]);
        assert(paths.contains(paths[0]));
        let i = choose|i: int|
            0 <= i < entries.len() && (#[trigger] entries[i]).truncated == Some(true)
                && entries[i].path == paths[0];
        assert(entries[i].truncated == Some(true));
    }
    if exists|i: int| 0 <= i < entries.len() && (#[trigger] entries[i]).truncated == Some(true) {
        let i = choose|i: int|
            0 <= i < entries.len() && (#[trigger] entries[i]).truncated == Some(true);
        crate::listing::every_cut_file_is_reported(entries, entries[i].path);
        assert(paths.contains(entries[i].path));
    }
}

} // verus!
