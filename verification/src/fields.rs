//! Which parts of a listing are sent.
//!
//! A mask names what is kept, and what it does not name is left out. Five flags
//! of a file are kept in any case: each is there only where it says something, so
//! that leaving one out would say the opposite. A name that is no field is
//! refused, for a mistyped name would otherwise look like an empty answer.

pub use crate::node::Node;

use crate::errors::{group_shapes, Code, CodedError, CodedView, ErrorCode};
use crate::listing::trimmed_patterns;
use crate::names::NameSet;
use crate::node::{texts_node, NodeView};
use crate::revisions::no_details;
use crate::text::{
    begins_with, concat2, concat3, deep, group_deep, join, joined, list_contains, reversed, same,
    strip_prefix, trim,
};
use vstd::prelude::*;

verus! {

/// Every key of a file, in order.
pub open spec fn file_fields() -> Seq<Seq<char>> {
    seq![
        "path"@,
        "status"@,
        "rename"@,
        "hunks"@,
        "binary"@,
        "mode"@,
        "symlink"@,
        "truncated"@,
    ]
}

/// The keys of a file that no mask leaves out.
pub open spec fn kept_fields() -> Seq<Seq<char>> {
    seq!["rename"@, "binary"@, "mode"@, "symlink"@, "truncated"@]
}

/// Every key of a hunk that code analysis fills, in order.
pub open spec fn semantic_fields() -> Seq<Seq<char>> {
    seq![
        "enclosing_function"@,
        "enclosing_scope"@,
        "annotations"@,
        "is_doc_comment"@,
        "is_import"@,
        "is_toplevel"@,
        "nesting_depth"@,
        "is_analyzed"@,
    ]
}

/// Every key of a hunk, in order.
pub open spec fn hunk_fields() -> Seq<Seq<char>> {
    seq![
        "index"@,
        "id"@,
        "short_id"@,
        "type"@,
        "removed"@,
        "added"@,
        "before"@,
        "after"@,
        "context"@,
    ] + semantic_fields()
}

/// Every key of a file, in order.
pub fn registered_file_keys() -> (r: Vec<String>)
    ensures
        deep(r@) == file_fields(),
{
    let mut r: Vec<String> = Vec::new();
    r.push("path".to_owned());
    r.push("status".to_owned());
    r.push("rename".to_owned());
    r.push("hunks".to_owned());
    r.push("binary".to_owned());
    r.push("mode".to_owned());
    r.push("symlink".to_owned());
    r.push("truncated".to_owned());
    assert(deep(r@) =~= file_fields());
    r
}

/// The keys of a file that no mask leaves out.
pub fn always_included() -> (r: Vec<String>)
    ensures
        deep(r@) == kept_fields(),
{
    let mut r: Vec<String> = Vec::new();
    r.push("rename".to_owned());
    r.push("binary".to_owned());
    r.push("mode".to_owned());
    r.push("symlink".to_owned());
    r.push("truncated".to_owned());
    assert(deep(r@) =~= kept_fields());
    r
}

/// Every key of a hunk that code analysis fills, in order.
pub fn semantic_keys() -> (r: Vec<String>)
    ensures
        deep(r@) == semantic_fields(),
{
    let mut r: Vec<String> = Vec::new();
    r.push("enclosing_function".to_owned());
    r.push("enclosing_scope".to_owned());
    r.push("annotations".to_owned());
    r.push("is_doc_comment".to_owned());
    r.push("is_import".to_owned());
    r.push("is_toplevel".to_owned());
    r.push("nesting_depth".to_owned());
    r.push("is_analyzed".to_owned());
    assert(deep(r@) =~= semantic_fields());
    r
}

/// Every key of a hunk, in order.
pub fn registered_hunk_keys() -> (r: Vec<String>)
    ensures
        deep(r@) == hunk_fields(),
{
    let mut r: Vec<String> = Vec::new();
    r.push("index".to_owned());
    r.push("id".to_owned());
    r.push("short_id".to_owned());
    r.push("type".to_owned());
    r.push("removed".to_owned());
    r.push("added".to_owned());
    r.push("before".to_owned());
    r.push("after".to_owned());
    r.push("context".to_owned());
    let ghost front = deep(r@);
    let mut rest = semantic_keys();
    r.append(&mut rest);
    assert(deep(r@) =~= front + semantic_fields());
    assert(front =~= seq![
        "index"@,
        "id"@,
        "short_id"@,
        "type"@,
        "removed"@,
        "added"@,
        "before"@,
        "after"@,
        "context"@,
    ]);
    r
}

// ---------------------------------------------------------------------------
// Names
// ---------------------------------------------------------------------------

/// The keys of a hunk that a name without a prefix stands for.
pub open spec fn bare_hunk_keys(name: Seq<char>) -> Seq<Seq<char>> {
    if name == "semantic"@ {
        semantic_fields()
    } else if hunk_fields().contains(name) {
        seq![name]
    } else {
        Seq::empty()
    }
}

/// The keys of a file that a name stands for.
pub open spec fn file_keys_of(name: Seq<char>) -> Seq<Seq<char>> {
    if name == "hunks"@ || begins_with(name, "hunks."@) || !file_fields().contains(name) {
        Seq::empty()
    } else {
        seq![name]
    }
}

/// The keys of a hunk that a name stands for: `hunks` for all of them, and
/// otherwise what comes after `hunks.`, where that is in front.
pub open spec fn hunk_keys_of(name: Seq<char>) -> Seq<Seq<char>> {
    if name == "hunks"@ {
        hunk_fields()
    } else if begins_with(name, "hunks."@) {
        bare_hunk_keys(name.skip("hunks."@.len() as int))
    } else if file_fields().contains(name) {
        Seq::empty()
    } else {
        bare_hunk_keys(name)
    }
}

/// Whether a name stands for anything.
pub open spec fn is_field(name: Seq<char>) -> bool {
    file_keys_of(name).len() > 0 || hunk_keys_of(name).len() > 0
}

/// The names that stand for nothing.
pub open spec fn unknown_names(names: Seq<Seq<char>>) -> Seq<Seq<char>>
    decreases names.len(),
{
    if names.len() == 0 {
        Seq::empty()
    } else if is_field(names.last()) {
        unknown_names(names.drop_last())
    } else {
        unknown_names(names.drop_last()).push(names.last())
    }
}

/// What is kept: keys of a file, and keys of a hunk.
#[verifier::ext_equal]
pub struct MaskView {
    pub file: Set<Seq<char>>,
    pub hunk: Set<Seq<char>>,
}

/// What some names keep.
pub open spec fn mask_of(names: Seq<Seq<char>>) -> MaskView
    decreases names.len(),
{
    if names.len() == 0 {
        MaskView { file: Set::empty(), hunk: Set::empty() }
    } else {
        let rest = mask_of(names.drop_last());
        MaskView {
            file: rest.file.union(file_keys_of(names.last()).to_set()),
            hunk: rest.hunk.union(hunk_keys_of(names.last()).to_set()),
        }
    }
}

pub open spec fn prefixed(prefix: Seq<char>, names: Seq<Seq<char>>) -> Seq<Seq<char>> {
    Seq::new(names.len(), |i: int| prefix + names[i])
}

/// Every name that stands for something, in the order of a listing.
pub open spec fn accepted_names() -> Seq<Seq<char>> {
    (file_fields() + prefixed("hunks."@, hunk_fields())).push("hunks.semantic"@)
}

/// Every name that stands for something, in the order of a listing.
pub fn valid_names() -> (names: Vec<String>)
    ensures
        deep(names@) == accepted_names(),
{
    broadcast use group_deep;

    let mut names = registered_file_keys();
    let hunk = registered_hunk_keys();
    let ghost added = prefixed("hunks."@, hunk_fields());
    let mut i: usize = 0;
    assert(file_fields() + added.take(0) =~= file_fields());
    while i < hunk.len()
        invariant
            deep(hunk@) == hunk_fields(),
            added == prefixed("hunks."@, hunk_fields()),
            i <= hunk.len(),
            deep(names@) == file_fields() + added.take(i as int),
        decreases hunk.len() - i,
    {
        let name = concat2("hunks.", hunk[i].as_str());
        assert(deep(hunk@)[i as int] == hunk@[i as int]@);
        assert(added[i as int] == name@);
        assert(added.take(i as int + 1) =~= added.take(i as int).push(name@));
        assert(file_fields() + added.take(i as int + 1) =~= (file_fields() + added.take(
            i as int,
        )).push(name@));
        names.push(name);
        i += 1;
    }
    assert(added.take(added.len() as int) =~= added);
    names.push("hunks.semantic".to_owned());
    names
}

/// Why a mask is refused, with everything a caller needs to mend it.
pub open spec fn refused_fields(message: Seq<char>, rejected: Seq<Seq<char>>) -> CodedView {
    CodedView {
        code: Code::InvalidFields,
        message: message + "\nvalid fields: "@ + joined(accepted_names(), ", "@),
        details: no_details().insert("fields"@, texts_node(rejected)).insert(
            "valid_fields"@,
            texts_node(accepted_names()),
        ).insert("always_included"@, texts_node(kept_fields())),
    }
}

fn refusal(message: &str, rejected: &Vec<String>) -> (r: CodedError)
    ensures
        r.tells(refused_fields(message@, deep(rejected@))),
{
    broadcast use group_shapes;

    let valid = valid_names();
    let text = concat3(message, "\nvalid fields: ", join(&valid, ", ").as_str());
    CodedError::new(ErrorCode::new(Code::InvalidFields), text).with(
        "fields",
        Node::texts(rejected),
    ).with("valid_fields", Node::texts(&valid)).with(
        "always_included",
        Node::texts(&always_included()),
    )
}

/// Which fields of a listing are sent.
#[derive(Debug, Clone)]
pub struct FieldMask {
    pub file: NameSet,
    pub hunk: NameSet,
}

impl View for FieldMask {
    type V = MaskView;

    open spec fn view(&self) -> MaskView {
        MaskView { file: self.file@, hunk: self.hunk@ }
    }
}

impl Default for FieldMask {
    fn default() -> (r: FieldMask)
        ensures
            r@ == (MaskView { file: Set::empty(), hunk: Set::empty() }),
    {
        FieldMask { file: NameSet::new(), hunk: NameSet::new() }
    }
}

fn insert_all(set: &mut NameSet, names: &Vec<String>)
    ensures
        final(set)@ == old(set)@.union(deep(names@).to_set()),
{
    let ghost views = deep(names@);
    let ghost before = set@;
    let mut i: usize = 0;
    assert(before.union(views.take(0).to_set()) =~= before);
    while i < names.len()
        invariant
            views == deep(names@),
            i <= names.len(),
            set@ == before.union(views.take(i as int).to_set()),
        decreases names.len() - i,
    {
        proof {
            let name = names@[i as int]@;
            assert(views.take(i as int + 1) =~= views.take(i as int).push(name));
            lemma_pushed_set(views.take(i as int), name);
            assert(before.union(views.take(i as int).to_set()).insert(name) =~= before.union(
                views.take(i as int + 1).to_set(),
            ));
        }
        set.insert(names[i].clone());
        i += 1;
    }
    assert(views.take(views.len() as int) =~= views);
}

proof fn lemma_pushed_set(items: Seq<Seq<char>>, item: Seq<char>)
    ensures
        items.push(item).to_set() == items.to_set().insert(item),
{
    let after = items.push(item);
    assert forall|x: Seq<char>| after.contains(x) <==> (items.contains(x) || x == item) by {
        if items.contains(x) {
            let k = choose|k: int| 0 <= k < items.len() && items[k] == x;
            assert(after[k] == x);
        }
        if x == item {
            assert(after[items.len() as int] == x);
        }
        if after.contains(x) {
            let k = choose|k: int| 0 <= k < after.len() && after[k] == x;
            if k < items.len() {
                assert(items[k] == x);
            }
        }
    }
    assert(after.to_set() =~= items.to_set().insert(item));
}

proof fn lemma_single_set(item: Seq<char>, set: Set<Seq<char>>)
    ensures
        set.union(seq![item].to_set()) == set.insert(item),
        set.union(Seq::<Seq<char>>::empty().to_set()) == set,
{
    let one = seq![item];
    assert(one[0] == item);
    assert forall|x: Seq<char>| one.contains(x) <==> x == item by {}
    assert(set.union(one.to_set()) =~= set.insert(item));
    assert(set.union(Seq::<Seq<char>>::empty().to_set()) =~= set);
}

proof fn lemma_first_fields()
    ensures
        semantic_fields().len() > 0,
        hunk_fields().len() > 0,
{
}

impl FieldMask {
    /// Keep what a name without a prefix stands for in a hunk, and say whether
    /// that is anything.
    fn add_hunk_field(&mut self, name: &str) -> (known: bool)
        ensures
            known == (bare_hunk_keys(name@).len() > 0),
            final(self)@ == (MaskView {
                hunk: old(self)@.hunk.union(bare_hunk_keys(name@).to_set()),
                ..old(self)@
            }),
    {
        proof {
            lemma_single_set(name@, self@.hunk);
            lemma_first_fields();
        }
        if same(name, "semantic") {
            insert_all(&mut self.hunk, &semantic_keys());
            return true;
        }
        if list_contains(&registered_hunk_keys(), name) {
            self.hunk.insert(name.to_owned());
            return true;
        }
        false
    }

    /// Keep what a name stands for, and say whether that is anything.
    ///
    /// A key of a hunk may be written with `hunks.` in front of it or without.
    pub fn add(&mut self, name: &str) -> (known: bool)
        ensures
            known == is_field(name@),
            final(self)@ == (MaskView {
                file: old(self)@.file.union(file_keys_of(name@).to_set()),
                hunk: old(self)@.hunk.union(hunk_keys_of(name@).to_set()),
            }),
    {
        proof {
            lemma_single_set(name@, self@.file);
            lemma_single_set(name@, self@.hunk);
            lemma_first_fields();
        }
        if same(name, "hunks") {
            insert_all(&mut self.hunk, &registered_hunk_keys());
            return true;
        }
        match strip_prefix(name, "hunks.") {
            Some(field) => self.add_hunk_field(field.as_str()),
            None => {
                if list_contains(&registered_file_keys(), name) {
                    self.file.insert(name.to_owned());
                    return true;
                }
                self.add_hunk_field(name)
            },
        }
    }
}

/// What is said of names that stand for nothing.
pub open spec fn unknown_text(unknown: Seq<Seq<char>>) -> Seq<char> {
    "--fields names no such output "@ + (if unknown.len() == 1 {
        "field: "@
    } else {
        "fields: "@
    }) + joined(quoted(unknown), ", "@)
}

pub open spec fn quoted(names: Seq<Seq<char>>) -> Seq<Seq<char>> {
    Seq::new(names.len(), |i: int| "'"@ + names[i] + "'"@)
}

fn quote_all(names: &Vec<String>) -> (out: Vec<String>)
    ensures
        deep(out@) == quoted(deep(names@)),
{
    let mut out: Vec<String> = Vec::new();
    let mut i: usize = 0;
    while i < names.len()
        invariant
            i <= names.len(),
            out@.len() == i,
            forall|j: int| 0 <= j < i ==> (#[trigger] out@[j])@ == "'"@ + names@[j]@ + "'"@,
        decreases names.len() - i,
    {
        out.push(concat3("'", names[i].as_str(), "'"));
        i += 1;
    }
    assert(deep(out@) =~= quoted(deep(names@)));
    out
}

fn write_unknown(unknown: &Vec<String>) -> (r: String)
    ensures
        r@ == unknown_text(deep(unknown@)),
{
    let noun = if unknown.len() == 1 {
        "field: "
    } else {
        "fields: "
    };
    concat3("--fields names no such output ", noun, join(&quote_all(unknown), ", ").as_str())
}

proof fn lemma_known_names_keep_something(names: Seq<Seq<char>>)
    requires
        unknown_names(names).len() == 0,
    ensures
        names.len() == 0 <==> mask_of(names).file == Set::<Seq<char>>::empty() && mask_of(
            names,
        ).hunk == Set::<Seq<char>>::empty(),
    decreases names.len(),
{
    if names.len() > 0 {
        let name = names.last();
        let file = file_keys_of(name);
        let hunk = hunk_keys_of(name);
        assert(is_field(name));
        if file.len() > 0 {
            assert(file.contains(file[0]));
            assert(mask_of(names).file.contains(file[0]));
        } else {
            assert(hunk.contains(hunk[0]));
            assert(mask_of(names).hunk.contains(hunk[0]));
        }
    }
}

impl FieldMask {
    /// Read a mask from names, or refuse it: for the names that stand for nothing,
    /// all of them, or for there being none at all.
    pub fn parse(values: &Vec<String>) -> (r: Result<FieldMask, CodedError>)
        ensures
            ({
                let names = trimmed_patterns(deep(values@));
                let unknown = unknown_names(names);
                match r {
                    Ok(mask) => unknown.len() == 0 && names.len() > 0 && mask@ == mask_of(names),
                    Err(e) => if unknown.len() > 0 {
                        e.tells(refused_fields(unknown_text(unknown), unknown))
                    } else {
                        names.len() == 0 && e.tells(
                            refused_fields(
                                "--fields requires at least one field name"@,
                                Seq::empty(),
                            ),
                        )
                    },
                }
            }),
    {
        broadcast use group_deep;

        let ghost views = deep(values@);
        let mut mask = FieldMask::default();
        let mut unknown: Vec<String> = Vec::new();
        let mut i: usize = 0;
        assert(views.take(0) =~= Seq::empty());
        while i < values.len()
            invariant
                views == deep(values@),
                i <= values.len(),
                mask@ == mask_of(trimmed_patterns(views.take(i as int))),
                deep(unknown@) == unknown_names(trimmed_patterns(views.take(i as int))),
            decreases values.len() - i,
        {
            let name = trim(values[i].as_str());
            proof {
                let before = trimmed_patterns(views.take(i as int));
                assert(views.take(i as int + 1).drop_last() =~= views.take(i as int));
                assert(views.take(i as int + 1).last() == values@[i as int]@);
                assert(before.push(name@).drop_last() =~= before);
            }
            if !name.as_str().is_empty() {
                if !mask.add(name.as_str()) {
                    unknown.push(name);
                }
            }
            i += 1;
        }
        assert(views.take(views.len() as int) =~= views);
        if unknown.len() > 0 {
            return Err(refusal(write_unknown(&unknown).as_str(), &unknown));
        }
        let ghost names = trimmed_patterns(views);
        proof {
            lemma_known_names_keep_something(names);
        }
        if mask.file.is_empty() && mask.hunk.is_empty() {
            let none: Vec<String> = Vec::new();
            return Err(refusal("--fields requires at least one field name", &none));
        }
        Ok(mask)
    }
}

// ---------------------------------------------------------------------------
// Masking
// ---------------------------------------------------------------------------

/// Whether a key of a file is kept: where it is asked for, where no mask leaves
/// it out, and where it is no key that is known.
pub open spec fn keeps_file_key(asked_for: Set<Seq<char>>, key: Seq<char>) -> bool {
    kept_fields().contains(key) || !file_fields().contains(key) || asked_for.contains(key)
}

/// Whether a key of a hunk is kept: where it is asked for, and where it is no key
/// that is known.
pub open spec fn keeps_hunk_key(asked_for: Set<Seq<char>>, key: Seq<char>) -> bool {
    !hunk_fields().contains(key) || asked_for.contains(key)
}

/// Whether a key of a file is kept.
pub fn keep_file_key(key: &str, asked_for: &NameSet) -> (r: bool)
    ensures
        r == keeps_file_key(asked_for@, key@),
{
    list_contains(&always_included(), key) || !list_contains(&registered_file_keys(), key)
        || asked_for.contains(key)
}

/// Whether a key of a hunk is kept.
pub fn keep_hunk_key(key: &str, asked_for: &NameSet) -> (r: bool)
    ensures
        r == keeps_hunk_key(asked_for@, key@),
{
    !list_contains(&registered_hunk_keys(), key) || asked_for.contains(key)
}

pub open spec fn item_views(items: Seq<Node>) -> Seq<NodeView> {
    Seq::new(items.len(), |i: int| items[i].shape())
}

pub open spec fn entry_views(entries: Seq<(String, Node)>) -> Seq<(Seq<char>, NodeView)> {
    Seq::new(entries.len(), |i: int| (entries[i].0@, entries[i].1.shape()))
}

proof fn lemma_array_shape(items: Vec<Node>)
    ensures
        Node::Array(items).shape() == NodeView::Array(item_views(items@)),
{
    assert(Node::Array(items).shape()->Array_0 =~= item_views(items@));
}

proof fn lemma_object_shape(entries: Vec<(String, Node)>)
    ensures
        Node::Object(entries).shape() == NodeView::Object(entry_views(entries@)),
{
    assert(Node::Object(entries).shape()->Object_0 =~= entry_views(entries@));
}

/// The entries of a hunk that are kept.
pub open spec fn hunk_entries(
    m: MaskView,
    entries: Seq<(Seq<char>, NodeView)>,
) -> Seq<(Seq<char>, NodeView)>
    decreases entries.len(),
{
    if entries.len() == 0 {
        Seq::empty()
    } else if keeps_hunk_key(m.hunk, entries.last().0) {
        hunk_entries(m, entries.drop_last()).push(entries.last())
    } else {
        hunk_entries(m, entries.drop_last())
    }
}

pub open spec fn masked_hunk(m: MaskView, n: NodeView) -> NodeView {
    match n {
        NodeView::Object(entries) => NodeView::Object(hunk_entries(m, entries)),
        other => other,
    }
}

pub open spec fn masked_hunks(m: MaskView, n: NodeView) -> NodeView {
    match n {
        NodeView::Array(items) => NodeView::Array(
            Seq::new(items.len(), |i: int| masked_hunk(m, items[i])),
        ),
        other => other,
    }
}

/// The entries of a file that are kept. Its hunks are there where any key of a
/// hunk is asked for: without one, an empty list would say that there are none.
pub open spec fn file_entries(
    m: MaskView,
    entries: Seq<(Seq<char>, NodeView)>,
) -> Seq<(Seq<char>, NodeView)>
    decreases entries.len(),
{
    if entries.len() == 0 {
        Seq::empty()
    } else {
        let rest = file_entries(m, entries.drop_last());
        let (key, value) = entries.last();
        if key == "hunks"@ {
            if m.hunk == Set::<Seq<char>>::empty() {
                rest
            } else {
                rest.push((key, masked_hunks(m, value)))
            }
        } else if keeps_file_key(m.file, key) {
            rest.push((key, value))
        } else {
            rest
        }
    }
}

pub open spec fn masked_file(m: MaskView, n: NodeView) -> NodeView {
    match n {
        NodeView::Object(entries) => NodeView::Object(file_entries(m, entries)),
        other => other,
    }
}

pub open spec fn masked_files(m: MaskView, n: NodeView) -> NodeView {
    match n {
        NodeView::Array(items) => NodeView::Array(
            Seq::new(items.len(), |i: int| masked_file(m, items[i])),
        ),
        other => other,
    }
}

pub open spec fn masked_group(m: MaskView, n: NodeView) -> NodeView {
    match n {
        NodeView::Object(entries) => NodeView::Object(
            Seq::new(
                entries.len(),
                |i: int|
                    (
                        entries[i].0,
                        if entries[i].0 == "files"@ {
                            masked_files(m, entries[i].1)
                        } else {
                            entries[i].1
                        },
                    ),
            ),
        ),
        other => other,
    }
}

pub open spec fn masked_groups(m: MaskView, n: NodeView) -> NodeView {
    match n {
        NodeView::Array(items) => NodeView::Array(
            Seq::new(items.len(), |i: int| masked_group(m, items[i])),
        ),
        other => other,
    }
}

/// One entry of a listing with its files masked.
pub open spec fn masked_part(m: MaskView, key: Seq<char>, value: NodeView) -> NodeView {
    if key == "files"@ {
        masked_files(m, value)
    } else if key == "groups"@ {
        masked_groups(m, value)
    } else {
        value
    }
}

/// A listing with its files masked, be they in groups or not.
pub open spec fn masked(m: MaskView, n: NodeView) -> NodeView {
    match n {
        NodeView::Object(entries) => NodeView::Object(
            Seq::new(
                entries.len(),
                |i: int| (entries[i].0, masked_part(m, entries[i].0, entries[i].1)),
            ),
        ),
        other => other,
    }
}

impl FieldMask {
    fn mask_hunk(&self, node: Node) -> (r: Node)
        ensures
            r.shape() == masked_hunk(self@, node.shape()),
    {
        let entries = match node {
            Node::Object(entries) => entries,
            other => {
                return other;
            },
        };
        let ghost held = entries@;
        let ghost all = entry_views(held);
        let ghost was = entries;
        let mut kept: Vec<(String, Node)> = Vec::new();
        let mut turned = reversed(entries);
        assert(all.take(0) =~= Seq::empty());
        assert(entry_views(kept@) =~= Seq::empty());
        while turned.len() > 0
            invariant
                all == entry_views(held),
                turned@.len() <= held.len(),
                turned@ == held.reverse().take(turned@.len() as int),
                entry_views(kept@) == hunk_entries(self@, all.take(held.len() - turned@.len())),
            decreases turned.len(),
        {
            let ghost at = held.len() - turned@.len();
            let ghost last = turned@.last();
            let (key, value) = turned.pop().unwrap();
            let ghost before = kept@;
            proof {
                assert(turned@ =~= held.reverse().take(turned@.len() as int));
                assert((key, value) == last);
                assert(last == held[at]);
                assert(all.take(at + 1).drop_last() =~= all.take(at));
                assert(all.take(at + 1).last() == (key@, value.shape()));
            }
            if keep_hunk_key(key.as_str(), &self.hunk) {
                let ghost one = (key@, value.shape());
                kept.push((key, value));
                assert(entry_views(kept@) =~= entry_views(before).push(one));
            }
        }
        proof {
            assert(all.take(all.len() as int) =~= all);
            lemma_object_shape(was);
            lemma_object_shape(kept);
        }
        Node::Object(kept)
    }

    fn mask_hunks(&self, node: Node) -> (r: Node)
        ensures
            r.shape() == masked_hunks(self@, node.shape()),
    {
        let items = match node {
            Node::Array(items) => items,
            other => {
                return other;
            },
        };
        let ghost held = items@;
        let ghost was = items;
        let mut out: Vec<Node> = Vec::new();
        let mut turned = reversed(items);
        while turned.len() > 0
            invariant
                turned@.len() + out@.len() == held.len(),
                turned@ == held.reverse().take(turned@.len() as int),
                forall|j: int|
                    0 <= j < out@.len() ==> (#[trigger] out@[j]).shape() == masked_hunk(
                        self@,
                        held[j].shape(),
                    ),
            decreases turned.len(),
        {
            let ghost at = out@.len() as int;
            let ghost last = turned@.last();
            let one = turned.pop().unwrap();
            assert(turned@ =~= held.reverse().take(turned@.len() as int));
            assert(one == last);
            assert(last == held[at]);
            out.push(self.mask_hunk(one));
        }
        proof {
            lemma_array_shape(was);
            lemma_array_shape(out);
            assert(item_views(out@) =~= Seq::new(
                held.len(),
                |i: int| masked_hunk(self@, item_views(held)[i]),
            ));
        }
        Node::Array(out)
    }

    fn mask_file(&self, node: Node) -> (r: Node)
        ensures
            r.shape() == masked_file(self@, node.shape()),
    {
        let entries = match node {
            Node::Object(entries) => entries,
            other => {
                return other;
            },
        };
        let ghost held = entries@;
        let ghost all = entry_views(held);
        let ghost was = entries;
        let mut kept: Vec<(String, Node)> = Vec::new();
        let mut turned = reversed(entries);
        assert(all.take(0) =~= Seq::empty());
        assert(entry_views(kept@) =~= Seq::empty());
        while turned.len() > 0
            invariant
                all == entry_views(held),
                turned@.len() <= held.len(),
                turned@ == held.reverse().take(turned@.len() as int),
                entry_views(kept@) == file_entries(self@, all.take(held.len() - turned@.len())),
            decreases turned.len(),
        {
            let ghost at = held.len() - turned@.len();
            let ghost last = turned@.last();
            let (key, value) = turned.pop().unwrap();
            let ghost before = kept@;
            let ghost one = (key@, value.shape());
            proof {
                assert(turned@ =~= held.reverse().take(turned@.len() as int));
                assert((key, value) == last);
                assert(last == held[at]);
                assert(all.take(at + 1).drop_last() =~= all.take(at));
                assert(all.take(at + 1).last() == one);
            }
            if same(key.as_str(), "hunks") {
                if !self.hunk.is_empty() {
                    let hunks = self.mask_hunks(value);
                    kept.push((key, hunks));
                    assert(entry_views(kept@) =~= entry_views(before).push(
                        (one.0, masked_hunks(self@, one.1)),
                    ));
                }
            } else if keep_file_key(key.as_str(), &self.file) {
                kept.push((key, value));
                assert(entry_views(kept@) =~= entry_views(before).push(one));
            }
        }
        proof {
            assert(all.take(all.len() as int) =~= all);
            lemma_object_shape(was);
            lemma_object_shape(kept);
        }
        Node::Object(kept)
    }

    fn mask_files(&self, node: Node) -> (r: Node)
        ensures
            r.shape() == masked_files(self@, node.shape()),
    {
        let items = match node {
            Node::Array(items) => items,
            other => {
                return other;
            },
        };
        let ghost held = items@;
        let ghost was = items;
        let mut out: Vec<Node> = Vec::new();
        let mut turned = reversed(items);
        while turned.len() > 0
            invariant
                turned@.len() + out@.len() == held.len(),
                turned@ == held.reverse().take(turned@.len() as int),
                forall|j: int|
                    0 <= j < out@.len() ==> (#[trigger] out@[j]).shape() == masked_file(
                        self@,
                        held[j].shape(),
                    ),
            decreases turned.len(),
        {
            let ghost at = out@.len() as int;
            let ghost last = turned@.last();
            let one = turned.pop().unwrap();
            assert(turned@ =~= held.reverse().take(turned@.len() as int));
            assert(one == last);
            assert(last == held[at]);
            out.push(self.mask_file(one));
        }
        proof {
            lemma_array_shape(was);
            lemma_array_shape(out);
            assert(item_views(out@) =~= Seq::new(
                held.len(),
                |i: int| masked_file(self@, item_views(held)[i]),
            ));
        }
        Node::Array(out)
    }

    fn mask_group(&self, node: Node) -> (r: Node)
        ensures
            r.shape() == masked_group(self@, node.shape()),
    {
        let entries = match node {
            Node::Object(entries) => entries,
            other => {
                return other;
            },
        };
        let ghost held = entries@;
        let ghost was = entries;
        let ghost wanted = masked_group(self@, Node::Object(entries).shape())->Object_0;
        let mut out: Vec<(String, Node)> = Vec::new();
        let mut turned = reversed(entries);
        proof {
            lemma_object_shape(was);
        }
        while turned.len() > 0
            invariant
                wanted == masked_group(self@, NodeView::Object(entry_views(held)))->Object_0,
                turned@.len() + out@.len() == held.len(),
                turned@ == held.reverse().take(turned@.len() as int),
                forall|j: int|
                    0 <= j < out@.len() ==> ((#[trigger] out@[j]).0@, out@[j].1.shape())
                        == wanted[j],
            decreases turned.len(),
        {
            let ghost at = out@.len() as int;
            let ghost last = turned@.last();
            let (key, value) = turned.pop().unwrap();
            proof {
                assert(turned@ =~= held.reverse().take(turned@.len() as int));
                assert((key, value) == last);
                assert(last == held[at]);
                assert(entry_views(held)[at] == (key@, value.shape()));
            }
            let value = if same(key.as_str(), "files") {
                self.mask_files(value)
            } else {
                value
            };
            out.push((key, value));
        }
        proof {
            lemma_object_shape(out);
            assert(entry_views(out@) =~= wanted);
        }
        Node::Object(out)
    }

    fn mask_groups(&self, node: Node) -> (r: Node)
        ensures
            r.shape() == masked_groups(self@, node.shape()),
    {
        let items = match node {
            Node::Array(items) => items,
            other => {
                return other;
            },
        };
        let ghost held = items@;
        let ghost was = items;
        let mut out: Vec<Node> = Vec::new();
        let mut turned = reversed(items);
        while turned.len() > 0
            invariant
                turned@.len() + out@.len() == held.len(),
                turned@ == held.reverse().take(turned@.len() as int),
                forall|j: int|
                    0 <= j < out@.len() ==> (#[trigger] out@[j]).shape() == masked_group(
                        self@,
                        held[j].shape(),
                    ),
            decreases turned.len(),
        {
            let ghost at = out@.len() as int;
            let ghost last = turned@.last();
            let one = turned.pop().unwrap();
            assert(turned@ =~= held.reverse().take(turned@.len() as int));
            assert(one == last);
            assert(last == held[at]);
            out.push(self.mask_group(one));
        }
        proof {
            lemma_array_shape(was);
            lemma_array_shape(out);
            assert(item_views(out@) =~= Seq::new(
                held.len(),
                |i: int| masked_group(self@, item_views(held)[i]),
            ));
        }
        Node::Array(out)
    }

    /// Keep what was asked for of a listing.
    pub fn apply(&self, node: Node) -> (r: Node)
        ensures
            r.shape() == masked(self@, node.shape()),
    {
        let entries = match node {
            Node::Object(entries) => entries,
            other => {
                return other;
            },
        };
        let ghost held = entries@;
        let ghost was = entries;
        let ghost wanted = masked(self@, Node::Object(entries).shape())->Object_0;
        let mut out: Vec<(String, Node)> = Vec::new();
        let mut turned = reversed(entries);
        proof {
            lemma_object_shape(was);
        }
        while turned.len() > 0
            invariant
                wanted == masked(self@, NodeView::Object(entry_views(held)))->Object_0,
                turned@.len() + out@.len() == held.len(),
                turned@ == held.reverse().take(turned@.len() as int),
                forall|j: int|
                    0 <= j < out@.len() ==> ((#[trigger] out@[j]).0@, out@[j].1.shape())
                        == wanted[j],
            decreases turned.len(),
        {
            let ghost at = out@.len() as int;
            let ghost last = turned@.last();
            let (key, value) = turned.pop().unwrap();
            proof {
                assert(turned@ =~= held.reverse().take(turned@.len() as int));
                assert((key, value) == last);
                assert(last == held[at]);
                assert(entry_views(held)[at] == (key@, value.shape()));
            }
            let value = if same(key.as_str(), "files") {
                self.mask_files(value)
            } else if same(key.as_str(), "groups") {
                self.mask_groups(value)
            } else {
                value
            };
            out.push((key, value));
        }
        proof {
            lemma_object_shape(out);
            assert(entry_views(out@) =~= wanted);
        }
        Node::Object(out)
    }
}

// ---------------------------------------------------------------------------
// What holds of every mask
// ---------------------------------------------------------------------------

/// No name is a key of a file and stands for something in a hunk.
proof fn lemma_levels_apart(key: Seq<char>)
    ensures
        bare_hunk_keys(key).len() > 0 ==> !file_fields().contains(key) && key != "hunks"@
            && !begins_with(key, "hunks."@),
        !kept_fields().contains("hunks"@),
        kept_fields().contains(key) ==> file_fields().contains(key),
{
    reveal_strlit("path");
    reveal_strlit("status");
    reveal_strlit("rename");
    reveal_strlit("hunks");
    reveal_strlit("binary");
    reveal_strlit("mode");
    reveal_strlit("symlink");
    reveal_strlit("truncated");
    reveal_strlit("index");
    reveal_strlit("id");
    reveal_strlit("short_id");
    reveal_strlit("type");
    reveal_strlit("removed");
    reveal_strlit("added");
    reveal_strlit("before");
    reveal_strlit("after");
    reveal_strlit("context");
    reveal_strlit("enclosing_function");
    reveal_strlit("enclosing_scope");
    reveal_strlit("annotations");
    reveal_strlit("is_doc_comment");
    reveal_strlit("is_import");
    reveal_strlit("is_toplevel");
    reveal_strlit("nesting_depth");
    reveal_strlit("is_analyzed");
    reveal_strlit("semantic");
    reveal_strlit("hunks.");
    let file = file_fields();
    let hunk = hunk_fields();
    if kept_fields().contains(key) {
        assert(file[2] == kept_fields()[0]);
        assert(file[4] == kept_fields()[1]);
        assert(file[5] == kept_fields()[2]);
        assert(file[6] == kept_fields()[3]);
        assert(file[7] == kept_fields()[4]);
    }
    if kept_fields().contains("hunks"@) {
        let k = choose|k: int| 0 <= k < kept_fields().len() && kept_fields()[k] == "hunks"@;
        assert(kept_fields()[k][0] == 'h');
    }
    if bare_hunk_keys(key).len() > 0 {
        assert(key == "semantic"@ || hunk.contains(key));
        if file.contains(key) {
            let j = choose|j: int| 0 <= j < file.len() && file[j] == key;
            if hunk.contains(key) {
                let k = choose|k: int| 0 <= k < hunk.len() && hunk[k] == key;
                lemma_apart(j, k);
            } else {
                assert(key.len() == 8);
            }
        }
        if hunk.contains(key) {
            let k = choose|k: int| 0 <= k < hunk.len() && hunk[k] == key;
            assert(hunk[k][0] != 'h');
        }
        assert(key[0] != 'h');
        if begins_with(key, "hunks."@) {
            assert(key.take(6)[0] == 'h');
        }
    }
}

proof fn lemma_apart(j: int, k: int)
    requires
        0 <= j < file_fields().len(),
        0 <= k < hunk_fields().len(),
    ensures
        file_fields()[j] != hunk_fields()[k],
{
    reveal_strlit("path");
    reveal_strlit("status");
    reveal_strlit("rename");
    reveal_strlit("hunks");
    reveal_strlit("binary");
    reveal_strlit("mode");
    reveal_strlit("symlink");
    reveal_strlit("truncated");
    reveal_strlit("index");
    reveal_strlit("id");
    reveal_strlit("short_id");
    reveal_strlit("type");
    reveal_strlit("removed");
    reveal_strlit("added");
    reveal_strlit("before");
    reveal_strlit("after");
    reveal_strlit("context");
    reveal_strlit("enclosing_function");
    reveal_strlit("enclosing_scope");
    reveal_strlit("annotations");
    reveal_strlit("is_doc_comment");
    reveal_strlit("is_import");
    reveal_strlit("is_toplevel");
    reveal_strlit("nesting_depth");
    reveal_strlit("is_analyzed");
    reveal_strlit("semantic");
    reveal_strlit("hunks.");
    let a = file_fields()[j];
    let b = hunk_fields()[k];
    if a == b {
        assert(a.len() == b.len() && a[0] == b[0]);
        assert(a[1] == b[1]);
    }
}

/// A key of a hunk means the same with `hunks.` in front of it and without.
pub proof fn dotted_and_bare_names_mean_the_same(name: Seq<char>)
    requires
        bare_hunk_keys(name).len() > 0,
    ensures
        hunk_keys_of("hunks."@ + name) == hunk_keys_of(name),
        file_keys_of("hunks."@ + name) == file_keys_of(name),
{
    lemma_levels_apart(name);
    reveal_strlit("hunks.");
    reveal_strlit("hunks");
    let dotted = "hunks."@ + name;
    assert(dotted.take("hunks."@.len() as int) =~= "hunks."@);
    assert(dotted.skip("hunks."@.len() as int) =~= name);
    assert(dotted.len() > "hunks"@.len());
}

/// A key of a file cannot be reached through `hunks.`.
pub proof fn the_prefix_does_not_reach_a_file(key: Seq<char>)
    requires
        file_fields().contains(key),
    ensures
        !is_field("hunks."@ + key),
{
    lemma_levels_apart(key);
    reveal_strlit("hunks.");
    reveal_strlit("hunks");
    let dotted = "hunks."@ + key;
    assert(dotted.take("hunks."@.len() as int) =~= "hunks."@);
    assert(dotted.skip("hunks."@.len() as int) =~= key);
    assert(dotted.len() > "hunks"@.len());
    assert(file_keys_of(dotted).len() == 0);
}

/// Every name that a refusal offers is accepted.
pub proof fn every_offered_name_is_a_field(i: int)
    requires
        0 <= i < accepted_names().len(),
    ensures
        is_field(accepted_names()[i]),
{
    let file = file_fields();
    let hunk = hunk_fields();
    let name = accepted_names()[i];
    lemma_first_fields();
    if i < file.len() {
        assert(name == file[i]);
        assert(file.contains(name));
        if name != "hunks"@ {
            reveal_strlit("hunks.");
            lemma_short_names(i);
            assert(file_keys_of(name) == seq![name]);
        }
    } else if i < file.len() + hunk.len() {
        let key = hunk[i - file.len()];
        assert(name == "hunks."@ + key);
        assert(hunk.contains(key));
        lemma_levels_apart(key);
        dotted_and_bare_names_mean_the_same(key);
        assert(hunk_keys_of(key).len() > 0);
    } else {
        reveal_strlit("hunks.semantic");
        reveal_strlit("semantic");
        reveal_strlit("hunks.");
        assert(name =~= "hunks."@ + "semantic"@);
        lemma_levels_apart("semantic"@);
        dotted_and_bare_names_mean_the_same("semantic"@);
    }
}

proof fn lemma_short_names(i: int)
    requires
        0 <= i < file_fields().len(),
        file_fields()[i] != "hunks"@,
    ensures
        !begins_with(file_fields()[i], "hunks."@),
{
    reveal_strlit("path");
    reveal_strlit("status");
    reveal_strlit("rename");
    reveal_strlit("hunks");
    reveal_strlit("binary");
    reveal_strlit("mode");
    reveal_strlit("symlink");
    reveal_strlit("truncated");
    reveal_strlit("hunks.");
    let name = file_fields()[i];
    if begins_with(name, "hunks."@) {
        assert(name.take(6)[0] == 'h');
    }
}

proof fn lemma_kept_entry(m: MaskView, entries: Seq<(Seq<char>, NodeView)>, i: int)
    requires
        0 <= i < entries.len(),
        kept_fields().contains(entries[i].0),
    ensures
        file_entries(m, entries).contains(entries[i]),
    decreases entries.len(),
{
    lemma_levels_apart(entries[i].0);
    let front = entries.drop_last();
    let rest = file_entries(m, front);
    let all = file_entries(m, entries);
    if i == front.len() {
        assert(all == rest.push(entries[i]));
        assert(all[rest.len() as int] == entries[i]);
    } else {
        assert(front[i] == entries[i]);
        lemma_kept_entry(m, front, i);
        let k = choose|k: int| 0 <= k < rest.len() && rest[k] == entries[i];
        assert(all[k] == rest[k]);
    }
}

/// No mask leaves out the flags that say what the hunks of a file do not.
pub proof fn a_mask_keeps_every_flag(m: MaskView, entries: Seq<(Seq<char>, NodeView)>, i: int)
    requires
        0 <= i < entries.len(),
        kept_fields().contains(entries[i].0),
    ensures
        masked_file(m, NodeView::Object(entries)) matches NodeView::Object(kept)
            && kept.contains(entries[i]),
{
    lemma_kept_entry(m, entries, i);
}

/// Whether a mask asks for everything.
pub open spec fn asks_for_everything(m: MaskView) -> bool {
    &&& forall|key: Seq<char>| #[trigger]
        file_fields().contains(key) && key != "hunks"@ ==> m.file.contains(key)
    &&& forall|key: Seq<char>| #[trigger] hunk_fields().contains(key) ==> m.hunk.contains(key)
}

proof fn lemma_whole_hunk(m: MaskView, entries: Seq<(Seq<char>, NodeView)>)
    requires
        asks_for_everything(m),
    ensures
        hunk_entries(m, entries) == entries,
    decreases entries.len(),
{
    if entries.len() > 0 {
        lemma_whole_hunk(m, entries.drop_last());
        assert(entries.drop_last().push(entries.last()) =~= entries);
    }
}

proof fn lemma_whole_hunks(m: MaskView, n: NodeView)
    requires
        asks_for_everything(m),
    ensures
        masked_hunks(m, n) == n,
{
    if let NodeView::Array(items) = n {
        assert forall|i: int| 0 <= i < items.len() implies masked_hunk(m, #[trigger] items[i])
            == items[i] by {
            if let NodeView::Object(entries) = items[i] {
                lemma_whole_hunk(m, entries);
            }
        }
        assert(masked_hunks(m, n)->Array_0 =~= items);
    }
}

proof fn lemma_whole_file(m: MaskView, entries: Seq<(Seq<char>, NodeView)>)
    requires
        asks_for_everything(m),
    ensures
        file_entries(m, entries) == entries,
    decreases entries.len(),
{
    if entries.len() > 0 {
        lemma_whole_file(m, entries.drop_last());
        assert(entries.drop_last().push(entries.last()) =~= entries);
        lemma_whole_hunks(m, entries.last().1);
        assert(hunk_fields().contains(hunk_fields()[0]));
    }
}

proof fn lemma_whole_files(m: MaskView, n: NodeView)
    requires
        asks_for_everything(m),
    ensures
        masked_files(m, n) == n,
{
    if let NodeView::Array(items) = n {
        assert forall|i: int| 0 <= i < items.len() implies masked_file(m, #[trigger] items[i])
            == items[i] by {
            if let NodeView::Object(entries) = items[i] {
                lemma_whole_file(m, entries);
            }
        }
        assert(masked_files(m, n)->Array_0 =~= items);
    }
}

proof fn lemma_whole_groups(m: MaskView, n: NodeView)
    requires
        asks_for_everything(m),
    ensures
        masked_groups(m, n) == n,
{
    if let NodeView::Array(items) = n {
        assert forall|i: int| 0 <= i < items.len() implies masked_group(m, #[trigger] items[i])
            == items[i] by {
            if let NodeView::Object(entries) = items[i] {
                assert forall|k: int| 0 <= k < entries.len() implies masked_files(
                    m,
                    (#[trigger] entries[k]).1,
                ) == entries[k].1 by {
                    lemma_whole_files(m, entries[k].1);
                }
                assert(masked_group(m, items[i])->Object_0 =~= entries);
            }
        }
        assert(masked_groups(m, n)->Array_0 =~= items);
    }
}

/// Asking for everything leaves a listing as it is, the order of its keys too.
pub proof fn asking_for_everything_changes_nothing(m: MaskView, n: NodeView)
    requires
        asks_for_everything(m),
    ensures
        masked(m, n) == n,
{
    if let NodeView::Object(entries) = n {
        assert forall|k: int| 0 <= k < entries.len() implies masked_part(
            m,
            (#[trigger] entries[k]).0,
            entries[k].1,
        ) == entries[k].1 by {
            lemma_whole_files(m, entries[k].1);
            lemma_whole_groups(m, entries[k].1);
        }
        assert(masked(m, n)->Object_0 =~= entries);
    }
}

proof fn lemma_hunk_twice(m: MaskView, entries: Seq<(Seq<char>, NodeView)>)
    ensures
        hunk_entries(m, hunk_entries(m, entries)) == hunk_entries(m, entries),
    decreases entries.len(),
{
    if entries.len() > 0 {
        let rest = hunk_entries(m, entries.drop_last());
        lemma_hunk_twice(m, entries.drop_last());
        assert(rest.push(entries.last()).drop_last() =~= rest);
    }
}

proof fn lemma_hunks_twice(m: MaskView, n: NodeView)
    ensures
        masked_hunks(m, masked_hunks(m, n)) == masked_hunks(m, n),
{
    if let NodeView::Array(items) = n {
        let once = masked_hunks(m, n)->Array_0;
        assert forall|i: int| 0 <= i < items.len() implies masked_hunk(m, #[trigger] once[i])
            == once[i] by {
            if let NodeView::Object(entries) = items[i] {
                lemma_hunk_twice(m, entries);
            }
        }
        assert(masked_hunks(m, masked_hunks(m, n))->Array_0 =~= once);
    }
}

proof fn lemma_file_twice(m: MaskView, entries: Seq<(Seq<char>, NodeView)>)
    ensures
        file_entries(m, file_entries(m, entries)) == file_entries(m, entries),
    decreases entries.len(),
{
    if entries.len() > 0 {
        let rest = file_entries(m, entries.drop_last());
        let (key, value) = entries.last();
        lemma_file_twice(m, entries.drop_last());
        lemma_hunks_twice(m, value);
        let one = (key, masked_hunks(m, value));
        assert(rest.push(entries.last()).drop_last() =~= rest);
        assert(rest.push(one).drop_last() =~= rest);
    }
}

proof fn lemma_files_twice(m: MaskView, n: NodeView)
    ensures
        masked_files(m, masked_files(m, n)) == masked_files(m, n),
{
    if let NodeView::Array(items) = n {
        let once = masked_files(m, n)->Array_0;
        assert forall|i: int| 0 <= i < items.len() implies masked_file(m, #[trigger] once[i])
            == once[i] by {
            if let NodeView::Object(entries) = items[i] {
                lemma_file_twice(m, entries);
            }
        }
        assert(masked_files(m, masked_files(m, n))->Array_0 =~= once);
    }
}

proof fn lemma_groups_twice(m: MaskView, n: NodeView)
    ensures
        masked_groups(m, masked_groups(m, n)) == masked_groups(m, n),
{
    if let NodeView::Array(items) = n {
        let once = masked_groups(m, n)->Array_0;
        assert forall|i: int| 0 <= i < items.len() implies masked_group(m, #[trigger] once[i])
            == once[i] by {
            if let NodeView::Object(entries) = items[i] {
                let done = masked_group(m, items[i])->Object_0;
                assert forall|k: int| 0 <= k < entries.len() implies (if done[k].0 == "files"@ {
                    masked_files(m, (#[trigger] done[k]).1)
                } else {
                    done[k].1
                }) == done[k].1 by {
                    lemma_files_twice(m, entries[k].1);
                }
                assert(masked_group(m, once[i])->Object_0 =~= done);
            }
        }
        assert(masked_groups(m, masked_groups(m, n))->Array_0 =~= once);
    }
}

/// Masking a listing a second time changes nothing.
pub proof fn masking_twice_changes_nothing(m: MaskView, n: NodeView)
    ensures
        masked(m, masked(m, n)) == masked(m, n),
{
    if let NodeView::Object(entries) = n {
        let once = masked(m, n)->Object_0;
        assert forall|k: int| 0 <= k < entries.len() implies masked_part(
            m,
            (#[trigger] once[k]).0,
            once[k].1,
        ) == once[k].1 by {
            lemma_files_twice(m, entries[k].1);
            lemma_groups_twice(m, entries[k].1);
        }
        assert(masked(m, masked(m, n))->Object_0 =~= once);
    }
}

// ---------------------------------------------------------------------------
// What a mask keeps
// ---------------------------------------------------------------------------

proof fn lemma_mask_of(names: Seq<Seq<char>>, key: Seq<char>)
    ensures
        mask_of(names).file.contains(key) <==> exists|i: int|
            0 <= i < names.len() && file_keys_of(#[trigger] names[i]).contains(key),
        mask_of(names).hunk.contains(key) <==> exists|i: int|
            0 <= i < names.len() && hunk_keys_of(#[trigger] names[i]).contains(key),
    decreases names.len(),
{
    if names.len() > 0 {
        let rest = names.drop_last();
        let last = names.len() - 1;
        lemma_mask_of(rest, key);
        assert(names[last] == names.last());
        if exists|i: int| 0 <= i < rest.len() && file_keys_of(#[trigger] rest[i]).contains(key) {
            let i = choose|i: int|
                0 <= i < rest.len() && file_keys_of(#[trigger] rest[i]).contains(key);
            assert(names[i] == rest[i]);
        }
        if exists|i: int| 0 <= i < rest.len() && hunk_keys_of(#[trigger] rest[i]).contains(key) {
            let i = choose|i: int|
                0 <= i < rest.len() && hunk_keys_of(#[trigger] rest[i]).contains(key);
            assert(names[i] == rest[i]);
        }
        if exists|i: int| 0 <= i < names.len() && file_keys_of(#[trigger] names[i]).contains(key) {
            let i = choose|i: int|
                0 <= i < names.len() && file_keys_of(#[trigger] names[i]).contains(key);
            if i < last {
                assert(rest[i] == names[i]);
            }
        }
        if exists|i: int| 0 <= i < names.len() && hunk_keys_of(#[trigger] names[i]).contains(key) {
            let i = choose|i: int|
                0 <= i < names.len() && hunk_keys_of(#[trigger] names[i]).contains(key);
            if i < last {
                assert(rest[i] == names[i]);
            }
        }
    }
}

/// A mask asks for a key exactly where one of its names stands for it, wherever
/// that name is among them.
pub proof fn a_mask_asks_for_what_its_names_stand_for(names: Seq<Seq<char>>, key: Seq<char>)
    ensures
        mask_of(names).file.contains(key) <==> exists|i: int|
            0 <= i < names.len() && file_keys_of(#[trigger] names[i]).contains(key),
        mask_of(names).hunk.contains(key) <==> exists|i: int|
            0 <= i < names.len() && hunk_keys_of(#[trigger] names[i]).contains(key),
{
    lemma_mask_of(names, key);
}

/// The names that are refused are those that stand for nothing.
pub proof fn a_name_is_refused_where_it_stands_for_nothing(
    names: Seq<Seq<char>>,
    name: Seq<char>,
)
    ensures
        unknown_names(names).contains(name) <==> names.contains(name) && !is_field(name),
    decreases names.len(),
{
    if names.len() > 0 {
        let rest = names.drop_last();
        let before = unknown_names(rest);
        let all = unknown_names(names);
        a_name_is_refused_where_it_stands_for_nothing(rest, name);
        if names.contains(name) && !is_field(name) {
            let i = choose|i: int| 0 <= i < names.len() && names[i] == name;
            if i < rest.len() {
                assert(rest[i] == name);
                let k = choose|k: int| 0 <= k < before.len() && before[k] == name;
                assert(all[k] == name);
            } else {
                assert(all[all.len() - 1] == name);
            }
        }
        if all.contains(name) {
            let k = choose|k: int| 0 <= k < all.len() && all[k] == name;
            if k < before.len() {
                assert(before[k] == name);
                let i = choose|i: int| 0 <= i < rest.len() && rest[i] == name;
                assert(names[i] == name);
            } else {
                assert(names[names.len() - 1] == name);
            }
        }
    }
}

proof fn lemma_hunk_entries(
    m: MaskView,
    entries: Seq<(Seq<char>, NodeView)>,
    e: (Seq<char>, NodeView),
)
    ensures
        hunk_entries(m, entries).contains(e) <==> entries.contains(e) && keeps_hunk_key(m.hunk, e.0),
    decreases entries.len(),
{
    if entries.len() > 0 {
        let rest = entries.drop_last();
        let before = hunk_entries(m, rest);
        let all = hunk_entries(m, entries);
        lemma_hunk_entries(m, rest, e);
        if entries.contains(e) && keeps_hunk_key(m.hunk, e.0) {
            let i = choose|i: int| 0 <= i < entries.len() && entries[i] == e;
            if i < rest.len() {
                assert(rest[i] == e);
                let k = choose|k: int| 0 <= k < before.len() && before[k] == e;
                assert(all[k] == e);
            } else {
                assert(all[all.len() - 1] == e);
            }
        }
        if all.contains(e) {
            let k = choose|k: int| 0 <= k < all.len() && all[k] == e;
            if k < before.len() {
                assert(before[k] == e);
                let i = choose|i: int| 0 <= i < rest.len() && rest[i] == e;
                assert(entries[i] == e);
            } else {
                assert(entries[entries.len() - 1] == e);
            }
        }
    }
}

/// What is left of a hunk are the entries under keys that were asked for, and
/// those under keys that nobody knows, each as it was.
pub proof fn a_hunk_keeps_what_is_asked_for(
    m: MaskView,
    entries: Seq<(Seq<char>, NodeView)>,
    e: (Seq<char>, NodeView),
)
    ensures
        hunk_entries(m, entries).contains(e) <==> entries.contains(e) && (m.hunk.contains(e.0)
            || !hunk_fields().contains(e.0)),
{
    lemma_hunk_entries(m, entries, e);
}

proof fn lemma_file_entries(
    m: MaskView,
    entries: Seq<(Seq<char>, NodeView)>,
    e: (Seq<char>, NodeView),
)
    ensures
        e.0 != "hunks"@ ==> (file_entries(m, entries).contains(e) <==> entries.contains(e)
            && keeps_file_key(m.file, e.0)),
        e.0 == "hunks"@ ==> (file_entries(m, entries).contains(e) <==> m.hunk != Set::<
            Seq<char>,
        >::empty() && exists|i: int|
            0 <= i < entries.len() && (#[trigger] entries[i]).0 == e.0 && e.1 == masked_hunks(
                m,
                entries[i].1,
            )),
    decreases entries.len(),
{
    if entries.len() > 0 {
        let rest = entries.drop_last();
        let last = entries.len() - 1;
        let before = file_entries(m, rest);
        let all = file_entries(m, entries);
        lemma_file_entries(m, rest, e);
        assert(entries[last] == entries.last());
        if before.contains(e) {
            let k = choose|k: int| 0 <= k < before.len() && before[k] == e;
            assert(all[k] == e);
        }
        if all.len() > before.len() && all.last() == e {
            assert(all[all.len() - 1] == e);
        }
        if all.contains(e) {
            let k = choose|k: int| 0 <= k < all.len() && all[k] == e;
            if k < before.len() {
                assert(before[k] == e);
            }
        }
        if rest.contains(e) {
            let i = choose|i: int| 0 <= i < rest.len() && rest[i] == e;
            assert(entries[i] == e);
        }
        if entries.contains(e) {
            let i = choose|i: int| 0 <= i < entries.len() && entries[i] == e;
            if i < last {
                assert(rest[i] == e);
            }
        }
        if exists|i: int|
            0 <= i < rest.len() && (#[trigger] rest[i]).0 == e.0 && e.1 == masked_hunks(
                m,
                rest[i].1,
            ) {
            let i = choose|i: int|
                0 <= i < rest.len() && (#[trigger] rest[i]).0 == e.0 && e.1 == masked_hunks(
                    m,
                    rest[i].1,
                );
            assert(entries[i] == rest[i]);
        }
        if exists|i: int|
            0 <= i < entries.len() && (#[trigger] entries[i]).0 == e.0 && e.1 == masked_hunks(
                m,
                entries[i].1,
            ) {
            let i = choose|i: int|
                0 <= i < entries.len() && (#[trigger] entries[i]).0 == e.0 && e.1 == masked_hunks(
                    m,
                    entries[i].1,
                );
            if i < last {
                assert(rest[i] == entries[i]);
            }
        }
    }
}

/// What is left of a file are the entries under keys that were asked for, under
/// keys that no mask leaves out and under keys that nobody knows, each as it was.
/// Its hunks are there exactly where anything of a hunk was asked for.
pub proof fn a_file_keeps_what_is_asked_for(
    m: MaskView,
    entries: Seq<(Seq<char>, NodeView)>,
    e: (Seq<char>, NodeView),
)
    ensures
        e.0 != "hunks"@ ==> (file_entries(m, entries).contains(e) <==> entries.contains(e) && (
        m.file.contains(e.0) || kept_fields().contains(e.0) || !file_fields().contains(e.0))),
        e.0 == "hunks"@ && file_entries(m, entries).contains(e) ==> exists|key: Seq<char>|
            m.hunk.contains(key),
        m.hunk == Set::<Seq<char>>::empty() ==> !file_entries(m, entries).contains(
            ("hunks"@, e.1),
        ),
        m.hunk != Set::<Seq<char>>::empty() && entries.contains(("hunks"@, e.1)) ==> file_entries(
            m,
            entries,
        ).contains(("hunks"@, masked_hunks(m, e.1))),
{
    lemma_file_entries(m, entries, e);
    lemma_file_entries(m, entries, ("hunks"@, e.1));
    lemma_file_entries(m, entries, ("hunks"@, masked_hunks(m, e.1)));
    if m.hunk != Set::<Seq<char>>::empty() {
        assert(exists|key: Seq<char>| m.hunk.contains(key)) by {
            if forall|key: Seq<char>| !m.hunk.contains(key) {
                assert(m.hunk =~= Set::<Seq<char>>::empty());
            }
        }
    }
    if entries.contains(("hunks"@, e.1)) {
        let i = choose|i: int| 0 <= i < entries.len() && entries[i] == ("hunks"@, e.1);
        assert(entries[i].0 == "hunks"@);
    }
}

/// A listing keeps all of its entries; its files are masked one by one, be they
/// in groups or not, and everything else stays as it is.
pub proof fn every_file_of_a_listing_is_masked(
    m: MaskView,
    entries: Seq<(Seq<char>, NodeView)>,
    i: int,
)
    requires
        0 <= i < entries.len(),
    ensures
        ({
            let key = entries[i].0;
            let value = entries[i].1;
            masked(m, NodeView::Object(entries)) matches NodeView::Object(out) && {
                &&& out.len() == entries.len()
                &&& out[i].0 == key
                &&& key != "files"@ && key != "groups"@ ==> out[i].1 == value
                &&& key == "files"@ ==> files_are_masked(m, value, out[i].1)
                &&& key == "groups"@ ==> (value matches NodeView::Array(groups) ==> (
                out[i].1 matches NodeView::Array(after) && after.len() == groups.len() && forall|
                    k: int,
                |
                    0 <= k < groups.len() ==> group_is_masked(m, groups[k], #[trigger] after[k])))
            }
        }),
{
    reveal_strlit("files");
    reveal_strlit("groups");
    assert("files"@.len() == 5 && "groups"@.len() == 6);
}

/// Whether a list of files is another with each file masked.
pub open spec fn files_are_masked(m: MaskView, before: NodeView, after: NodeView) -> bool {
    before matches NodeView::Array(items) ==> (after matches NodeView::Array(out) && out.len()
        == items.len() && forall|k: int|
        0 <= k < items.len() ==> #[trigger] out[k] == masked_file(m, items[k]))
}

/// Whether a group is another with its files masked.
pub open spec fn group_is_masked(m: MaskView, before: NodeView, after: NodeView) -> bool {
    before matches NodeView::Object(entries) ==> (after matches NodeView::Object(out) && out.len()
        == entries.len() && forall|k: int|
        0 <= k < entries.len() ==> (#[trigger] out[k]).0 == entries[k].0 && if entries[k].0
            == "files"@ {
            files_are_masked(m, entries[k].1, out[k].1)
        } else {
            out[k].1 == entries[k].1
        })
}

} // verus!
