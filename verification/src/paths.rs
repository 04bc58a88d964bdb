//! Paths: how they are quoted, cut into components and carried from one
//! directory's frame to another.
//!
//! Components are separated by `/` on every platform; what a platform writes
//! otherwise is respelled first (see [`crate::diff::slash_path`]). A path that is printed is relative to the
//! directory a command runs in; the one spelling that means the same file from
//! every directory is relative to the workspace root.

use crate::diff::hex_digit;
use crate::glob::{components, normalized};
use crate::text::{
    chars_of, concat2, deep, group_deep, join, joined, lemma_next_at, next_at, same, split_at_char,
    split_char, split_from,
};
use vstd::prelude::*;

verus! {

// ---------------------------------------------------------------------------
// Quoting
// ---------------------------------------------------------------------------

/// How a character is written inside a fileset string literal.
pub open spec fn quoted_char(c: char) -> Seq<char> {
    let n = c as u32 as int;
    if c == '\\' {
        seq!['\\', '\\']
    } else if c == '"' {
        seq!['\\', '"']
    } else if c == '\t' {
        seq!['\\', 't']
    } else if c == '\r' {
        seq!['\\', 'r']
    } else if c == '\n' {
        seq!['\\', 'n']
    } else if n == 0 {
        seq!['\\', '0']
    } else if n == 0x1b {
        seq!['\\', 'e']
    } else if n < 0x20 {
        seq!['\\', 'x', hex_digit(n / 16), hex_digit(n % 16)]
    } else {
        seq![c]
    }
}

/// How a text is written inside a fileset string literal.
pub open spec fn quoted(s: Seq<char>) -> Seq<char>
    decreases s.len(),
{
    if s.len() == 0 {
        Seq::empty()
    } else {
        quoted(s.drop_last()) + quoted_char(s.last())
    }
}

/// A fileset string literal, delimiters and all.
pub open spec fn literal(s: Seq<char>) -> Seq<char> {
    seq!['"'] + quoted(s) + seq!['"']
}

fn hex_char(n: u32) -> (c: char)
    requires
        n < 16,
    ensures
        c == hex_digit(n as int),
{
    let code: u8 = if n < 10 {
        48 + n as u8
    } else {
        87 + n as u8
    };
    code as char
}

fn push_quoted(out: &mut String, c: char)
    ensures
        final(out)@ == old(out)@ + quoted_char(c),
{
    let n: u32 = c as u32;
    proof {
        vstd::utf8::char_u32_cast(c, n);
    }
    let mark: char = if c == '\\' || c == '"' {
        c
    } else if c == '\t' {
        't'
    } else if c == '\r' {
        'r'
    } else if c == '\n' {
        'n'
    } else if n == 0 {
        '0'
    } else if n == 0x1b {
        'e'
    } else if n < 0x20 {
        out.push('\\');
        out.push('x');
        out.push(hex_char(n / 16));
        out.push(hex_char(n % 16));
        assert(out@ =~= old(out)@ + quoted_char(c));
        return;
    } else {
        out.push(c);
        assert(out@ =~= old(out)@ + quoted_char(c));
        return;
    };
    out.push('\\');
    out.push(mark);
    assert(out@ =~= old(out)@ + quoted_char(c));
}

/// Quote a text as a jj fileset string literal, including the delimiters.
///
/// Only `"` and `\` have to be escaped; control characters are escaped as well,
/// so that the argument stays one readable token.
pub fn fileset_string_literal(value: &str) -> (r: String)
    ensures
        r@ == literal(value@),
{
    let chars = chars_of(value);
    let mut out = String::new();
    out.push('"');
    let mut i: usize = 0;
    assert(out@ =~= seq!['"'] + quoted(chars@.take(0)));
    while i < chars.len()
        invariant
            i <= chars.len(),
            out@ == seq!['"'] + quoted(chars@.take(i as int)),
        decreases chars.len() - i,
    {
        assert(chars@.take(i as int + 1).drop_last() =~= chars@.take(i as int));
        push_quoted(&mut out, chars[i]);
        assert(out@ =~= seq!['"'] + quoted(chars@.take(i as int + 1)));
        i += 1;
    }
    assert(chars@.take(chars@.len() as int) =~= chars@);
    out.push('"');
    assert(out@ =~= literal(value@));
    out
}

/// A fileset expression that matches exactly one path.
///
/// A bare path is read as fileset syntax: brackets, `~` and `,` are operators,
/// and the default kind is a glob.
pub fn fileset_exact_path(path: &str) -> (r: String)
    ensures
        r@ == "file:"@ + literal(path@),
{
    concat2("file:", fileset_string_literal(path).as_str())
}

proof fn lemma_hex_digits(a: int, b: int)
    requires
        0 <= a < 16,
        0 <= b < 16,
        hex_digit(a) == hex_digit(b),
    ensures
        a == b,
{
}

proof fn lemma_quoted_char(c: char, d: char)
    requires
        quoted_char(c) == quoted_char(d),
    ensures
        c == d,
{
    let q = quoted_char(c);
    let r = quoted_char(d);
    let n = q.len();
    assert(q[0] == r[0]);
    vstd::utf8::char_u32_cast(c, c as u32);
    vstd::utf8::char_u32_cast(d, d as u32);
    if n == 2 {
        assert(q[1] == r[1]);
    } else if n == 4 {
        assert(q[2] == r[2] && q[3] == r[3]);
        let i = c as u32 as int;
        let j = d as u32 as int;
        lemma_hex_digits(i / 16, j / 16);
        lemma_hex_digits(i % 16, j % 16);
    }
}

/// The first quoted character of a text, and the rest.
proof fn lemma_quoted_first(s: Seq<char>)
    requires
        s.len() > 0,
    ensures
        quoted(s) == quoted_char(s[0]) + quoted(s.drop_first()),
    decreases s.len(),
{
    if s.len() == 1 {
        assert(s.drop_last() =~= Seq::empty());
        assert(s.drop_first() =~= Seq::empty());
        assert(quoted(s) =~= quoted_char(s[0]) + quoted(s.drop_first()));
    } else {
        let inner = s.drop_last();
        lemma_quoted_first(inner);
        assert(inner.drop_first() =~= s.drop_first().drop_last());
        assert(quoted(s) =~= quoted_char(s[0]) + quoted(s.drop_first()));
    }
}

/// Two paths that are quoted the same are the same: a quoted path names one
/// path and no other.
pub proof fn a_quoted_path_names_one_path(a: Seq<char>, b: Seq<char>)
    requires
        quoted(a) == quoted(b),
    ensures
        a == b,
    decreases a.len(),
{
    if a.len() == 0 {
        if b.len() > 0 {
            lemma_quoted_first(b);
            assert(quoted(b).len() > 0);
        }
        assert(a =~= b);
    } else if b.len() == 0 {
        lemma_quoted_first(a);
        assert(quoted(a).len() > 0);
    } else {
        lemma_quoted_first(a);
        lemma_quoted_first(b);
        let x = quoted_char(a[0]) + quoted(a.drop_first());
        let y = quoted_char(b[0]) + quoted(b.drop_first());
        assert(x[0] == y[0]);
        if x[0] == '\\' {
            assert(x[1] == y[1]);
            assert(x[1] == quoted_char(a[0])[1]);
            assert(y[1] == quoted_char(b[0])[1]);
        }
        let n = quoted_char(a[0]).len() as int;
        assert(quoted_char(b[0]).len() == n);
        assert(x.take(n) =~= quoted_char(a[0]));
        assert(y.take(n) =~= quoted_char(b[0]));
        assert(x.skip(n) =~= quoted(a.drop_first()));
        assert(y.skip(n) =~= quoted(b.drop_first()));
        lemma_quoted_char(a[0], b[0]);
        a_quoted_path_names_one_path(a.drop_first(), b.drop_first());
        assert(a =~= seq![a[0]] + a.drop_first());
        assert(b =~= seq![b[0]] + b.drop_first());
    }
}

// ---------------------------------------------------------------------------
// Frames
// ---------------------------------------------------------------------------

/// The components of a path: a root or a leading `.` first, and then every part
/// that is neither empty nor `.`.
pub open spec fn path_parts(path: Seq<char>) -> Seq<Seq<char>> {
    let parts = split_at_char(path, '/');
    (if path.len() > 0 && path[0] == '/' {
        seq!["/"@]
    } else if parts[0] == "."@ {
        seq!["."@]
    } else {
        Seq::empty()
    }) + components(parts)
}

/// A path with one component more.
pub open spec fn pushed(path: Seq<char>, part: Seq<char>) -> Seq<char> {
    if part.len() > 0 && part[0] == '/' {
        part
    } else if path.len() > 0 && path.last() != '/' {
        path + "/"@ + part
    } else {
        path + part
    }
}

/// The path that components make up.
pub open spec fn assembled(parts: Seq<Seq<char>>) -> Seq<char>
    decreases parts.len(),
{
    if parts.len() == 0 {
        Seq::empty()
    } else {
        pushed(assembled(parts.drop_last()), parts.last())
    }
}

/// How many leading components two paths share.
pub open spec fn shared_parts(a: Seq<Seq<char>>, b: Seq<Seq<char>>) -> nat
    decreases a.len(),
{
    if a.len() > 0 && b.len() > 0 && a[0] == b[0] {
        1 + shared_parts(a.drop_first(), b.drop_first())
    } else {
        0
    }
}

/// So many steps up.
pub open spec fn climbs(n: nat) -> Seq<Seq<char>> {
    Seq::new(n, |i: int| ".."@)
}

/// The path that is printed from the directory `prefix` for a file that is at
/// `fs_path` from the root.
pub open spec fn displayed(prefix: Seq<Seq<char>>, fs_path: Seq<char>) -> Seq<char> {
    if prefix.len() == 0 {
        fs_path
    } else {
        let parts = path_parts(fs_path);
        let n = shared_parts(prefix, parts);
        assembled(climbs((prefix.len() - n) as nat) + parts.skip(n as int))
    }
}

/// Where one component leads from a directory; nothing above the root.
pub open spec fn stepped(at: Option<Seq<Seq<char>>>, part: Seq<char>) -> Option<Seq<Seq<char>>> {
    match at {
        None => None,
        Some(dir) => if part.len() == 0 || part == "."@ {
            Some(dir)
        } else if part == ".."@ {
            if dir.len() == 0 {
                None
            } else {
                Some(dir.drop_last())
            }
        } else {
            Some(dir.push(part))
        },
    }
}

/// Where components lead from a directory.
pub open spec fn walked(prefix: Seq<Seq<char>>, parts: Seq<Seq<char>>) -> Option<Seq<Seq<char>>>
    decreases parts.len(),
{
    if parts.len() == 0 {
        Some(prefix)
    } else {
        stepped(walked(prefix, parts.drop_last()), parts.last())
    }
}

/// The path from the root that a path printed from the directory `prefix`
/// names; nothing where it climbs above the root. At the root itself, a path
/// that does not climb stays as it is written.
pub open spec fn rooted(prefix: Seq<Seq<char>>, path: Seq<char>) -> Option<Seq<char>> {
    match walked(prefix, split_at_char(path, '/')) {
        Some(dir) => if prefix.len() == 0 {
            Some(path)
        } else {
            Some(joined(dir, "/"@))
        },
        None => None,
    }
}

/// The first control character of a text; its length where it has none.
pub open spec fn control_at(s: Seq<char>, from: int) -> int
    decreases s.len() - from,
{
    if from < 0 || from >= s.len() {
        s.len() as int
    } else if (s[from] as u32) < 0x20 {
        from
    } else {
        control_at(s, from + 1)
    }
}

pub open spec fn upper_hex_digit(n: int) -> char {
    if n < 10 {
        (48 + n) as char
    } else {
        (55 + n) as char
    }
}

/// What is wrong with the components of a path from `i` on, `climb` steps up
/// having been taken, and a name having been seen or not.
pub open spec fn parts_problem(
    parts: Seq<Seq<char>>,
    i: int,
    climb: int,
    named: bool,
    depth: int,
) -> Option<Seq<char>>
    decreases parts.len() - i,
{
    if i < 0 || i >= parts.len() {
        None
    } else if parts[i].len() == 0 || parts[i] == "."@ {
        parts_problem(parts, i + 1, climb, named, depth)
    } else if parts[i] != ".."@ {
        parts_problem(parts, i + 1, climb, true, depth)
    } else if named {
        Some("has a `..` after a named directory, which is not how jj spells any path"@)
    } else if climb + 1 > depth {
        Some("climbs above the workspace root"@)
    } else {
        parts_problem(parts, i + 1, climb + 1, named, depth)
    }
}

/// Why a path cannot name a file in the workspace, from a directory `depth`
/// below its root.
pub open spec fn problem_of(path: Seq<char>, depth: int) -> Option<Seq<char>> {
    if path.len() == 0 {
        Some("is empty"@)
    } else if control_at(path, 0) < path.len() {
        let n = path[control_at(path, 0)] as u32 as int;
        Some(
            "contains the control character U+00"@ + seq![
                upper_hex_digit(n / 16),
                upper_hex_digit(n % 16),
            ],
        )
    } else if path[0] == '/' {
        Some("is an absolute path"@)
    } else {
        parts_problem(split_at_char(path, '/'), 0, 0, false, depth)
    }
}

/// One file's path in both frames.
#[derive(Debug)]
pub struct SelectPath {
    /// The path from the workspace root, where the file is found and what its
    /// hunk ids are hashed with.
    pub fs: String,
    /// The path as it is printed, which keys a spec.
    pub display: String,
}

/// The directory a command runs in, as the way there from the workspace root.
#[derive(Debug)]
pub struct PathFrame {
    /// One component per element. Empty at the root, which makes every
    /// translation the identity.
    pub prefix: Vec<String>,
}

fn upper_hex_char(n: u32) -> (c: char)
    requires
        n < 16,
    ensures
        c == upper_hex_digit(n as int),
{
    let code: u8 = if n < 10 {
        48 + n as u8
    } else {
        55 + n as u8
    };
    code as char
}

/// The components of a path.
fn parts_of(path: &str) -> (out: Vec<String>)
    ensures
        deep(out@) == path_parts(path@),
{
    broadcast use group_deep;

    let chars = chars_of(path);
    let parts = split_char(path, '/');
    let ghost views = deep(parts@);
    let mut out: Vec<String> = Vec::new();
    if chars.len() > 0 && chars[0] == '/' {
        out.push("/".to_owned());
    } else if same(parts[0].as_str(), ".") {
        out.push(".".to_owned());
    }
    let ghost head = deep(out@);
    let mut i: usize = 0;
    assert(views.take(0) =~= Seq::empty());
    assert(head + components(views.take(0)) =~= head);
    while i < parts.len()
        invariant
            views == deep(parts@),
            i <= parts.len(),
            deep(out@) == head + components(views.take(i as int)),
        decreases parts.len() - i,
    {
        assert(views.take(i as int + 1).drop_last() =~= views.take(i as int));
        let ghost before = components(views.take(i as int));
        let part = parts[i].as_str();
        if !part.is_empty() && !same(part, ".") {
            out.push(part.to_owned());
            assert(head + before.push(part@) =~= (head + before).push(part@));
        }
        i += 1;
    }
    assert(views.take(views.len() as int) =~= views);
    assert(head =~= if path@.len() > 0 && path@[0] == '/' {
        seq!["/"@]
    } else if views[0] == "."@ {
        seq!["."@]
    } else {
        Seq::empty()
    });
    out
}

fn push_part(path: String, part: &str) -> (r: String)
    ensures
        r@ == pushed(path@, part@),
{
    let chars = chars_of(part);
    if chars.len() > 0 && chars[0] == '/' {
        return part.to_owned();
    }
    let held = chars_of(path.as_str());
    let mut out = path;
    if held.len() > 0 && held[held.len() - 1] != '/' {
        out.append("/");
    }
    out.append(part);
    out
}

impl PathFrame {
    /// Both spellings of a path.
    pub fn resolve(&self, fs_path: &str) -> (r: SelectPath)
        ensures
            r.fs@ == fs_path@,
            r.display@ == displayed(deep(self.prefix@), fs_path@),
    {
        SelectPath { display: self.to_display(fs_path), fs: fs_path.to_owned() }
    }

    /// The path that is printed for a file: the part below this directory,
    /// behind one `..` for each directory to climb out of.
    pub fn to_display(&self, fs_path: &str) -> (r: String)
        ensures
            r@ == displayed(deep(self.prefix@), fs_path@),
    {
        if self.prefix.len() == 0 {
            return fs_path.to_owned();
        }
        let ghost prefix = deep(self.prefix@);
        let parts = parts_of(fs_path);
        let ghost views = deep(parts@);
        let mut n: usize = 0;
        assert(prefix.skip(0) =~= prefix);
        assert(views.skip(0) =~= views);
        while n < self.prefix.len() && n < parts.len() && same(
            self.prefix[n].as_str(),
            parts[n].as_str(),
        )
            invariant
                prefix == deep(self.prefix@),
                views == deep(parts@),
                n <= prefix.len(),
                n <= views.len(),
                shared_parts(prefix, views) == n + shared_parts(
                    prefix.skip(n as int),
                    views.skip(n as int),
                ),
            decreases parts.len() - n,
        {
            assert(prefix.skip(n as int).drop_first() =~= prefix.skip(n as int + 1));
            assert(views.skip(n as int).drop_first() =~= views.skip(n as int + 1));
            n += 1;
        }
        proof {
            assert(n == shared_parts(prefix, views));
        }
        let ghost way = climbs((prefix.len() - n) as nat) + views.skip(n as int);
        let mut out = String::new();
        let mut i: usize = n;
        assert(way.take(0) =~= Seq::empty());
        while i < self.prefix.len()
            invariant
                prefix == deep(self.prefix@),
                n <= i <= prefix.len(),
                way == climbs((prefix.len() - n) as nat) + views.skip(n as int),
                out@ == assembled(way.take(i - n)),
            decreases self.prefix.len() - i,
        {
            assert(way.take(i - n + 1).drop_last() =~= way.take(i - n));
            out = push_part(out, "..");
            i += 1;
        }
        let ghost up = prefix.len() - n;
        i = n;
        while i < parts.len()
            invariant
                views == deep(parts@),
                up == prefix.len() - n,
                up >= 0,
                n <= i <= views.len(),
                way == climbs(up as nat) + views.skip(n as int),
                out@ == assembled(way.take(up + i - n)),
            decreases parts.len() - i,
        {
            assert(way.take(up + i - n + 1).drop_last() =~= way.take(up + i - n));
            assert(way[up + i - n] == views[i as int]);
            out = push_part(out, parts[i].as_str());
            i += 1;
        }
        assert(way.take(way.len() as int) =~= way);
        out
    }

    /// The path from the workspace root that a printed one names; nothing where
    /// it climbs above the root. At the root itself, a path that does not climb
    /// stays as it is written.
    pub fn to_root(&self, display_path: &str) -> (r: Option<String>)
        ensures
            r.deep_view() == rooted(deep(self.prefix@), display_path@),
    {
        broadcast use group_deep;

        let ghost prefix = deep(self.prefix@);
        let parts = split_char(display_path, '/');
        let ghost views = deep(parts@);
        let mut dir = crate::text::clone_strings(&self.prefix);
        let mut i: usize = 0;
        assert(views.take(0) =~= Seq::empty());
        while i < parts.len()
            invariant
                views == deep(parts@),
                prefix == deep(self.prefix@),
                views == split_at_char(display_path@, '/'),
                i <= parts.len(),
                walked(prefix, views.take(i as int)) == Some(deep(dir@)),
            decreases parts.len() - i,
        {
            let ghost now = views.take(i as int + 1);
            assert(now.drop_last() =~= views.take(i as int));
            let part = parts[i].as_str();
            if part.is_empty() || same(part, ".") {
            } else if same(part, "..") {
                if dir.len() == 0 {
                    proof {
                        lemma_walked_none(prefix, views, i as int + 1);
                    }
                    return None;
                }
                let ghost held = deep(dir@);
                dir.pop();
                assert(deep(dir@) =~= held.drop_last());
            } else {
                dir.push(part.to_owned());
            }
            i += 1;
        }
        assert(views.take(views.len() as int) =~= views);
        if self.prefix.len() == 0 {
            return Some(display_path.to_owned());
        }
        Some(join(&dir, "/"))
    }

    /// Why a printed path cannot name a file in this workspace, if it cannot.
    ///
    /// Only the shape of the path is judged here, not whether such a file is in
    /// a diff.
    pub fn path_problem(&self, display_path: &str) -> (r: Option<String>)
        ensures
            r.deep_view() == problem_of(display_path@, self.prefix@.len() as int),
    {
        let chars = chars_of(display_path);
        if chars.len() == 0 {
            return Some("is empty".to_owned());
        }
        let mut i: usize = 0;
        while i < chars.len() && chars[i] as u32 >= 0x20
            invariant
                chars@ == display_path@,
                i <= chars.len(),
                control_at(display_path@, 0) == control_at(display_path@, i as int),
            decreases chars.len() - i,
        {
            i += 1;
        }
        if i < chars.len() {
            let n: u32 = chars[i] as u32;
            let mut out = "contains the control character U+00".to_owned();
            let ghost head = out@;
            out.push(upper_hex_char(n / 16));
            out.push(upper_hex_char(n % 16));
            assert(out@ =~= head + seq![
                upper_hex_digit(n as int / 16),
                upper_hex_digit(n as int % 16),
            ]);
            return Some(out);
        }
        if chars[0] == '/' {
            return Some("is an absolute path".to_owned());
        }
        let parts = split_char(display_path, '/');
        let ghost views = deep(parts@);
        let depth: usize = self.prefix.len();
        let mut climb: usize = 0;
        let mut named = false;
        i = 0;
        let ghost expected = problem_of(display_path@, depth as int);
        while i < parts.len()
            invariant
                views == deep(parts@),
                i <= parts.len(),
                climb <= depth,
                expected == problem_of(display_path@, depth as int),
                depth == self.prefix@.len(),
                expected == parts_problem(views, i as int, climb as int, named, depth as int),
            decreases parts.len() - i,
        {
            let part = parts[i].as_str();
            assert(views[i as int] == part@);
            if part.is_empty() || same(part, ".") {
            } else if !same(part, "..") {
                named = true;
            } else {
                if named {
                    return Some(
                        "has a `..` after a named directory, which is not how jj spells any path".to_owned(),
                    );
                }
                if climb == depth {
                    return Some("climbs above the workspace root".to_owned());
                }
                climb += 1;
            }
            i += 1;
        }
        None
    }
}

proof fn lemma_walked_none(prefix: Seq<Seq<char>>, parts: Seq<Seq<char>>, n: int)
    requires
        0 <= n <= parts.len(),
        walked(prefix, parts.take(n)) is None,
    ensures
        walked(prefix, parts) is None,
    decreases parts.len(),
{
    if n < parts.len() {
        assert(parts.drop_last().take(n) =~= parts.take(n));
        lemma_walked_none(prefix, parts.drop_last(), n);
    } else {
        assert(parts.take(n) =~= parts);
    }
}

/// Whether a component leads nowhere but down.
pub open spec fn leads_down(part: Seq<char>) -> bool {
    part != "/"@ && part != "."@ && part != ".."@
}

/// Whether a path leads nowhere but down.
pub open spec fn stays_below(path: Seq<char>) -> bool {
    forall|i: int| 0 <= i < path_parts(path).len() ==> leads_down(#[trigger] path_parts(path)[i])
}

/// The components to go through from a directory to what a path names in it;
/// nothing where the path could lead out of it.
pub fn contained_parts(relative: &str) -> (r: Option<Vec<String>>)
    ensures
        match r {
            Some(parts) => stays_below(relative@) && deep(parts@) == path_parts(relative@),
            None => !stays_below(relative@),
        },
{
    let parts = parts_of(relative);
    let ghost views = path_parts(relative@);
    let mut i: usize = 0;
    while i < parts.len()
        invariant
            views == path_parts(relative@),
            views == deep(parts@),
            i <= parts.len(),
            forall|j: int| 0 <= j < i ==> leads_down(#[trigger] views[j]),
        decreases parts.len() - i,
    {
        let part = parts[i].as_str();
        if same(part, "/") || same(part, ".") || same(part, "..") {
            assert(!leads_down(views[i as int]));
            return None;
        }
        i += 1;
    }
    Some(parts)
}

// ---------------------------------------------------------------------------
// Laws
// ---------------------------------------------------------------------------

/// Whether a component is the name of a file or a directory.
pub open spec fn is_name(part: Seq<char>) -> bool {
    part.len() > 0 && part != "."@ && part != ".."@ && !part.contains('/')
}

/// Whether every component is a name.
pub open spec fn all_names(parts: Seq<Seq<char>>) -> bool {
    forall|i: int| 0 <= i < parts.len() ==> is_name(#[trigger] parts[i])
}

proof fn lemma_next_in_front(a: Seq<char>, b: Seq<char>, from: int)
    requires
        0 <= from <= a.len(),
        !b.contains('/'),
    ensures
        next_at(a + "/"@ + b, '/', from) == next_at(a, '/', from),
    decreases a.len() - from,
{
    reveal_strlit("/");
    let s = a + "/"@ + b;
    assert(s.len() == a.len() + 1 + b.len());
    if from < a.len() {
        assert(s[from] == a[from]);
        if a[from] != '/' {
            lemma_next_in_front(a, b, from + 1);
        }
    } else {
        assert(s[from] == '/');
    }
}

proof fn lemma_next_behind(a: Seq<char>, b: Seq<char>, from: int)
    requires
        a.len() < from <= a.len() + 1 + b.len(),
        !b.contains('/'),
    ensures
        next_at(a + "/"@ + b, '/', from) == a.len() + 1 + b.len(),
    decreases a.len() + 1 + b.len() - from,
{
    reveal_strlit("/");
    let s = a + "/"@ + b;
    assert(s.len() == a.len() + 1 + b.len());
    if from < s.len() {
        assert(s[from] == b[from - a.len() - 1]);
        lemma_next_behind(a, b, from + 1);
    }
}

proof fn lemma_split_behind(a: Seq<char>, b: Seq<char>, from: int)
    requires
        0 <= from <= a.len(),
        !b.contains('/'),
    ensures
        split_from(a + "/"@ + b, '/', from) == split_from(a, '/', from).push(b),
    decreases a.len() - from,
{
    reveal_strlit("/");
    let s = a + "/"@ + b;
    assert(s.len() == a.len() + 1 + b.len());
    lemma_next_in_front(a, b, from);
    lemma_next_at(a, '/', from);
    let at = next_at(a, '/', from);
    assert(s.subrange(from, at) =~= a.subrange(from, at));
    if at < a.len() {
        lemma_split_behind(a, b, at + 1);
        assert(seq![a.subrange(from, at)] + split_from(a, '/', at + 1).push(b) =~= (seq![
            a.subrange(from, at),
        ] + split_from(a, '/', at + 1)).push(b));
    } else {
        lemma_next_behind(a, b, at + 1);
        assert(s.subrange(at + 1, s.len() as int) =~= b);
        assert(split_from(s, '/', at + 1) =~= seq![b]);
        assert(seq![a.subrange(from, at)] + seq![b] =~= seq![a.subrange(from, at)].push(b));
    }
}

proof fn lemma_next_nowhere(s: Seq<char>, from: int)
    requires
        0 <= from <= s.len(),
        !s.contains('/'),
    ensures
        next_at(s, '/', from) == s.len(),
    decreases s.len() - from,
{
    if from < s.len() {
        assert(s.contains(s[from]));
        lemma_next_nowhere(s, from + 1);
    }
}

/// Splitting what was joined gives the parts back.
pub proof fn splitting_a_joined_path_gives_its_components(parts: Seq<Seq<char>>)
    requires
        parts.len() > 0,
        forall|i: int| 0 <= i < parts.len() ==> !(#[trigger] parts[i]).contains('/'),
    ensures
        split_at_char(joined(parts, "/"@), '/') == parts,
    decreases parts.len(),
{
    if parts.len() == 1 {
        let s = parts[0];
        lemma_next_nowhere(s, 0);
        assert(s.subrange(0, s.len() as int) =~= s);
        assert(split_from(s, '/', 0) =~= seq![s]);
        assert(parts =~= seq![s]);
    } else {
        let front = parts.drop_last();
        assert forall|i: int| 0 <= i < front.len() implies !(#[trigger] front[i]).contains('/') by {
            assert(front[i] == parts[i]);
        }
        splitting_a_joined_path_gives_its_components(front);
        assert(!parts[parts.len() - 1].contains('/'));
        lemma_split_behind(joined(front, "/"@), parts.last(), 0);
        assert(front.push(parts.last()) =~= parts);
    }
}

proof fn lemma_components_of_names(parts: Seq<Seq<char>>)
    requires
        all_names(parts),
    ensures
        components(parts) == parts,
    decreases parts.len(),
{
    if parts.len() > 0 {
        let front = parts.drop_last();
        assert forall|i: int| 0 <= i < front.len() implies is_name(#[trigger] front[i]) by {
            assert(front[i] == parts[i]);
        }
        lemma_components_of_names(front);
        assert(is_name(parts[parts.len() - 1]));
        assert(front.push(parts.last()) =~= parts);
    } else {
        assert(components(parts) =~= parts);
    }
}

proof fn lemma_joined_ends(parts: Seq<Seq<char>>)
    requires
        parts.len() > 0,
        forall|i: int| 0 <= i < parts.len() ==> (#[trigger] parts[i]).len() > 0,
    ensures
        joined(parts, "/"@).len() > 0,
        joined(parts, "/"@)[0] == parts[0][0],
        joined(parts, "/"@).last() == parts.last().last(),
    decreases parts.len(),
{
    reveal_strlit("/");
    assert(parts[parts.len() - 1].len() > 0);
    if parts.len() > 1 {
        let front = parts.drop_last();
        assert forall|i: int| 0 <= i < front.len() implies (#[trigger] front[i]).len() > 0 by {
            assert(front[i] == parts[i]);
        }
        lemma_joined_ends(front);
    }
}

proof fn lemma_path_parts(parts: Seq<Seq<char>>)
    requires
        all_names(parts),
    ensures
        path_parts(joined(parts, "/"@)) == parts,
{
    let path = joined(parts, "/"@);
    reveal_strlit("/");
    if parts.len() == 0 {
        lemma_next_nowhere(path, 0);
        assert(path.subrange(0, 0) =~= Seq::<char>::empty());
        let split = split_at_char(path, '/');
        assert(split =~= seq![Seq::<char>::empty()]);
        assert(split.drop_last() =~= Seq::<Seq<char>>::empty());
        assert(components(Seq::<Seq<char>>::empty()) =~= Seq::<Seq<char>>::empty());
        assert(split.last() == Seq::<char>::empty());
        assert(components(split) =~= Seq::<Seq<char>>::empty());
        reveal_strlit(".");
        assert(split[0] != "."@);
        assert(path_parts(path) =~= parts);
    } else {
        assert forall|i: int| 0 <= i < parts.len() implies !(#[trigger] parts[i]).contains('/') by {
            assert(is_name(parts[i]));
        }
        assert forall|i: int| 0 <= i < parts.len() implies (#[trigger] parts[i]).len() > 0 by {
            assert(is_name(parts[i]));
        }
        splitting_a_joined_path_gives_its_components(parts);
        lemma_components_of_names(parts);
        lemma_joined_ends(parts);
        assert(is_name(parts[0]));
        assert(parts[0].contains(parts[0][0]));
        assert(Seq::<Seq<char>>::empty() + parts =~= parts);
    }
}

proof fn lemma_shared(a: Seq<Seq<char>>, b: Seq<Seq<char>>)
    ensures
        shared_parts(a, b) <= a.len(),
        shared_parts(a, b) <= b.len(),
        a.take(shared_parts(a, b) as int) == b.take(shared_parts(a, b) as int),
    decreases a.len(),
{
    let n = shared_parts(a, b) as int;
    if a.len() > 0 && b.len() > 0 && a[0] == b[0] {
        lemma_shared(a.drop_first(), b.drop_first());
        assert(a.take(n) =~= seq![a[0]] + a.drop_first().take(n - 1));
        assert(b.take(n) =~= seq![b[0]] + b.drop_first().take(n - 1));
    } else {
        assert(a.take(0) =~= b.take(0));
    }
}

proof fn lemma_assembled(parts: Seq<Seq<char>>)
    requires
        forall|i: int|
            0 <= i < parts.len() ==> (#[trigger] parts[i]).len() > 0 && !parts[i].contains('/'),
    ensures
        assembled(parts) == joined(parts, "/"@),
    decreases parts.len(),
{
    if parts.len() > 0 {
        let front = parts.drop_last();
        let last = parts.last();
        assert(parts[parts.len() - 1].len() > 0);
        assert(last.contains(last[0]));
        assert forall|i: int| 0 <= i < front.len() implies (#[trigger] front[i]).len() > 0
            && !front[i].contains('/') by {
            assert(front[i] == parts[i]);
        }
        lemma_assembled(front);
        if front.len() > 0 {
            lemma_joined_ends(front);
            assert(front[front.len() - 1].len() > 0);
            assert(front.last().contains(front.last().last()));
        } else {
            assert(Seq::<char>::empty() + last =~= last);
        }
    }
}

proof fn lemma_walked_up(prefix: Seq<Seq<char>>, k: nat)
    requires
        k <= prefix.len(),
    ensures
        walked(prefix, climbs(k)) == Some(prefix.take(prefix.len() - k)),
    decreases k,
{
    reveal_strlit("..");
    reveal_strlit(".");
    if k == 0 {
        assert(prefix.take(prefix.len() as int) =~= prefix);
    } else {
        assert(climbs(k).drop_last() =~= climbs((k - 1) as nat));
        lemma_walked_up(prefix, (k - 1) as nat);
        let at = prefix.take(prefix.len() - (k - 1));
        assert(climbs(k).last() == ".."@);
        assert(".."@.len() == 2 && "."@.len() == 1);
        assert(at.drop_last() =~= prefix.take(prefix.len() - k));
    }
}

proof fn lemma_walked_on(prefix: Seq<Seq<char>>, up: Seq<Seq<char>>, parts: Seq<Seq<char>>)
    requires
        walked(prefix, up) is Some,
        all_names(parts),
    ensures
        walked(prefix, up + parts) == Some(walked(prefix, up)->0 + parts),
    decreases parts.len(),
{
    let dir = walked(prefix, up)->0;
    if parts.len() == 0 {
        assert(up + parts =~= up);
        assert(dir + parts =~= dir);
    } else {
        let front = parts.drop_last();
        assert forall|i: int| 0 <= i < front.len() implies is_name(#[trigger] front[i]) by {
            assert(front[i] == parts[i]);
        }
        lemma_walked_on(prefix, up, front);
        assert(is_name(parts[parts.len() - 1]));
        assert((up + parts).drop_last() =~= up + front);
        assert((dir + front).push(parts.last()) =~= dir + parts);
    }
}

/// What is printed for a path: steps up, and then names.
proof fn lemma_displayed(prefix: Seq<Seq<char>>, parts: Seq<Seq<char>>)
    requires
        prefix.len() > 0,
        all_names(prefix),
        all_names(parts),
    ensures
        ({
            let n = shared_parts(prefix, parts);
            let way = climbs((prefix.len() - n) as nat) + parts.skip(n as int);
            &&& displayed(prefix, joined(parts, "/"@)) == joined(way, "/"@)
            &&& way.len() > 0 ==> split_at_char(joined(way, "/"@), '/') == way
            &&& forall|i: int| 0 <= i < way.len() ==> (#[trigger] way[i]).len() > 0
        }),
{
    lemma_path_parts(parts);
    lemma_shared(prefix, parts);
    reveal_strlit("..");
    let n = shared_parts(prefix, parts);
    let up = climbs((prefix.len() - n) as nat);
    let way = up + parts.skip(n as int);
    assert forall|i: int| 0 <= i < way.len() implies (#[trigger] way[i]).len() > 0
        && !way[i].contains('/') by {
        if i < up.len() {
            assert(way[i] == ".."@);
        } else {
            assert(way[i] == parts[i - up.len() + n]);
            assert(is_name(parts[i - up.len() + n]));
        }
    }
    lemma_assembled(way);
    if way.len() > 0 {
        splitting_a_joined_path_gives_its_components(way);
    }
}

/// Printing a path and reading it back, from any directory, leads to the path.
pub proof fn a_printed_path_leads_back(prefix: Seq<Seq<char>>, parts: Seq<Seq<char>>)
    requires
        all_names(prefix),
        all_names(parts),
    ensures
        rooted(prefix, displayed(prefix, joined(parts, "/"@))) == Some(joined(parts, "/"@)),
{
    if prefix.len() > 0 {
        lemma_displayed(prefix, parts);
        lemma_shared(prefix, parts);
        let n = shared_parts(prefix, parts);
        let k = (prefix.len() - n) as nat;
        let up = climbs(k);
        let rest = parts.skip(n as int);
        let way = up + rest;
        if way.len() > 0 {
            lemma_walked_up(prefix, k);
            assert forall|i: int| 0 <= i < rest.len() implies is_name(#[trigger] rest[i]) by {
                assert(rest[i] == parts[i + n]);
            }
            lemma_walked_on(prefix, up, rest);
            assert(prefix.take(n as int) + rest =~= parts) by {
                assert(parts.take(n as int) + rest =~= parts);
            }
        } else {
            assert(prefix.take(n as int) =~= prefix);
            assert(parts.take(n as int) =~= parts);
            let shown = joined(way, "/"@);
            lemma_next_nowhere(shown, 0);
            let split = split_at_char(shown, '/');
            assert(shown.subrange(0, shown.len() as int) =~= shown);
            assert(split =~= seq![shown]);
            assert(split.drop_last() =~= Seq::<Seq<char>>::empty());
            assert(walked(prefix, Seq::<Seq<char>>::empty()) == Some(prefix));
            assert(walked(prefix, split) == Some(prefix));
        }
    } else if parts.len() > 0 {
        let none = Seq::<Seq<char>>::empty();
        splitting_a_joined_path_gives_its_components(parts);
        lemma_walked_on(prefix, none, parts);
        assert(none + parts =~= parts);
    } else {
        let nothing = Seq::<char>::empty();
        lemma_next_nowhere(nothing, 0);
        assert(nothing.subrange(0, 0) =~= nothing);
        assert(split_from(nothing, '/', 0) =~= seq![nothing]);
        assert(seq![nothing].drop_last() =~= Seq::<Seq<char>>::empty());
        assert(walked(prefix, seq![nothing].drop_last()) is Some);
    }
}

proof fn lemma_no_problem_in_names(parts: Seq<Seq<char>>, i: int, climb: int, named: bool, depth: int)
    requires
        0 <= i <= parts.len(),
        forall|j: int| i <= j < parts.len() ==> is_name(#[trigger] parts[j]),
    ensures
        parts_problem(parts, i, climb, named, depth) is None,
    decreases parts.len() - i,
{
    if i < parts.len() {
        assert(is_name(parts[i]));
        lemma_no_problem_in_names(parts, i + 1, climb, true, depth);
    }
}

proof fn lemma_no_problem_in_climbs(parts: Seq<Seq<char>>, i: int, k: int, depth: int)
    requires
        0 <= i <= k <= parts.len(),
        k <= depth,
        forall|j: int| 0 <= j < k ==> #[trigger] parts[j] == ".."@,
        forall|j: int| k <= j < parts.len() ==> is_name(#[trigger] parts[j]),
    ensures
        parts_problem(parts, i, i, false, depth) is None,
    decreases k - i,
{
    reveal_strlit("..");
    reveal_strlit(".");
    if i < k {
        assert(parts[i] == ".."@);
        lemma_no_problem_in_climbs(parts, i + 1, k, depth);
    } else {
        lemma_no_problem_in_names(parts, i, i, false, depth);
    }
}

proof fn lemma_no_control(s: Seq<char>, from: int)
    requires
        0 <= from <= s.len(),
        forall|i: int| 0 <= i < s.len() ==> (#[trigger] s[i]) as u32 >= 0x20,
    ensures
        control_at(s, from) == s.len(),
    decreases s.len() - from,
{
    if from < s.len() {
        lemma_no_control(s, from + 1);
    }
}

/// Every path that is printed for a file is accepted as a key, unless it is a
/// way to the directory itself or has a control character in it.
pub proof fn a_printed_path_is_accepted(prefix: Seq<Seq<char>>, parts: Seq<Seq<char>>)
    requires
        all_names(prefix),
        all_names(parts),
        displayed(prefix, joined(parts, "/"@)).len() > 0,
        forall|i: int|
            0 <= i < displayed(prefix, joined(parts, "/"@)).len() ==> (#[trigger] displayed(
                prefix,
                joined(parts, "/"@),
            )[i]) as u32 >= 0x20,
    ensures
        problem_of(displayed(prefix, joined(parts, "/"@)), prefix.len() as int) is None,
{
    let path = displayed(prefix, joined(parts, "/"@));
    let depth = prefix.len() as int;
    lemma_no_control(path, 0);
    reveal_strlit("..");
    if prefix.len() == 0 {
        if parts.len() == 0 {
            assert(path.len() == 0);
        }
        assert forall|i: int| 0 <= i < parts.len() implies !(#[trigger] parts[i]).contains('/') by {
            assert(is_name(parts[i]));
        }
        assert forall|i: int| 0 <= i < parts.len() implies (#[trigger] parts[i]).len() > 0 by {
            assert(is_name(parts[i]));
        }
        splitting_a_joined_path_gives_its_components(parts);
        lemma_joined_ends(parts);
        assert(is_name(parts[0]) && parts[0].contains(parts[0][0]));
        lemma_no_problem_in_names(parts, 0, 0, false, depth);
    } else {
        lemma_displayed(prefix, parts);
        lemma_shared(prefix, parts);
        let n = shared_parts(prefix, parts);
        let k = (prefix.len() - n) as nat;
        let up = climbs(k);
        let rest = parts.skip(n as int);
        let way = up + rest;
        if way.len() == 0 {
            assert(path.len() == 0);
        }
        lemma_joined_ends(way);
        assert forall|j: int| 0 <= j < k implies #[trigger] way[j] == ".."@ by {}
        assert forall|j: int| k <= j < way.len() implies is_name(#[trigger] way[j]) by {
            assert(way[j] == parts[j - k + n]);
        }
        if k > 0 {
            assert(way[0] == ".."@);
        } else {
            assert(is_name(way[0]) && way[0].contains(way[0][0]));
        }
        lemma_no_problem_in_climbs(way, 0, k as int, depth);
    }
}

/// A path that is accepted as a key does not climb above the root.
pub proof fn an_accepted_path_stays_inside(prefix: Seq<Seq<char>>, path: Seq<char>)
    requires
        problem_of(path, prefix.len() as int) is None,
    ensures
        rooted(prefix, path) is Some,
{
    let parts = split_at_char(path, '/');
    assert(parts.take(0) =~= Seq::<Seq<char>>::empty());
    lemma_inside(prefix, parts, 0, 0, false);
}

proof fn lemma_inside(
    prefix: Seq<Seq<char>>,
    parts: Seq<Seq<char>>,
    i: int,
    climb: int,
    named: bool,
)
    requires
        0 <= i <= parts.len(),
        0 <= climb <= prefix.len(),
        parts_problem(parts, i, climb, named, prefix.len() as int) is None,
        walked(prefix, parts.take(i)) is Some,
        !named ==> walked(prefix, parts.take(i))->0.len() == prefix.len() - climb,
    ensures
        walked(prefix, parts) is Some,
    decreases parts.len() - i,
{
    reveal_strlit("..");
    reveal_strlit(".");
    if i == parts.len() {
        assert(parts.take(i) =~= parts);
    } else {
        assert(parts.take(i + 1).drop_last() =~= parts.take(i));
        if parts[i].len() == 0 || parts[i] == "."@ {
            lemma_inside(prefix, parts, i + 1, climb, named);
        } else if parts[i] != ".."@ {
            lemma_inside(prefix, parts, i + 1, climb, true);
        } else {
            lemma_inside(prefix, parts, i + 1, climb + 1, named);
        }
    }
}

proof fn lemma_pieces_hold_no_separator(s: Seq<char>, from: int, i: int)
    requires
        0 <= from <= s.len(),
        0 <= i < split_from(s, '/', from).len(),
    ensures
        !split_from(s, '/', from)[i].contains('/'),
    decreases s.len() - from,
{
    lemma_next_at(s, '/', from);
    let end = next_at(s, '/', from);
    if i == 0 {
        let first = s.subrange(from, end);
        if first.contains('/') {
            let k = choose|k: int| 0 <= k < first.len() && first[k] == '/';
            assert(s[from + k] == '/');
        }
    } else if end < s.len() {
        lemma_pieces_hold_no_separator(s, end + 1, i - 1);
    }
}

proof fn lemma_components_are_names(parts: Seq<Seq<char>>)
    requires
        forall|i: int| 0 <= i < parts.len() ==> !(#[trigger] parts[i]).contains('/'),
    ensures
        forall|i: int|
            0 <= i < components(parts).len() ==> !(#[trigger] components(parts)[i]).contains('/'),
        components(components(parts)) == components(parts),
    decreases parts.len(),
{
    if parts.len() > 0 {
        let front = parts.drop_last();
        assert forall|i: int| 0 <= i < front.len() implies !(#[trigger] front[i]).contains('/') by {
            assert(front[i] == parts[i]);
        }
        assert(parts[parts.len() - 1] == parts.last());
        lemma_components_are_names(front);
        let rest = components(front);
        assert(rest.push(parts.last()).drop_last() =~= rest);
    }
}

/// Normalizing a path a second time changes nothing.
pub proof fn normalizing_a_path_twice_changes_nothing(path: Seq<char>)
    ensures
        normalized(normalized(path)) == normalized(path),
{
    let parts = split_at_char(path, '/');
    assert forall|i: int| 0 <= i < parts.len() implies !(#[trigger] parts[i]).contains('/') by {
        lemma_pieces_hold_no_separator(path, 0, i);
    }
    lemma_components_are_names(parts);
    let kept = components(parts);
    if kept.len() > 0 {
        splitting_a_joined_path_gives_its_components(kept);
    } else {
        let nothing = Seq::<char>::empty();
        assert(normalized(path) =~= nothing);
        lemma_next_nowhere(nothing, 0);
        assert(nothing.subrange(0, 0) =~= nothing);
        assert(split_from(nothing, '/', 0) =~= seq![nothing]);
        assert(seq![nothing].drop_last() =~= Seq::<Seq<char>>::empty());
        assert(components(seq![nothing]) =~= Seq::<Seq<char>>::empty());
    }
}

/// A separator at the end of a path or pattern does not count: it stands for no
/// component.
pub proof fn a_trailing_separator_does_not_count(path: Seq<char>)
    ensures
        normalized(path + "/"@) == normalized(path),
{
    let nothing = Seq::<char>::empty();
    lemma_split_behind(path, nothing, 0);
    assert(path + "/"@ + nothing =~= path + "/"@);
    let parts = split_at_char(path, '/');
    assert(parts.push(nothing).drop_last() =~= parts);
}

proof fn lemma_shared_in_front(common: Seq<Seq<char>>, a: Seq<Seq<char>>, b: Seq<Seq<char>>)
    requires
        a.len() == 0 || b.len() == 0 || a[0] != b[0],
    ensures
        shared_parts(common + a, common + b) == common.len(),
    decreases common.len(),
{
    if common.len() == 0 {
        assert(common + a =~= a);
        assert(common + b =~= b);
    } else {
        let rest = common.drop_first();
        lemma_shared_in_front(rest, a, b);
        assert((common + a).drop_first() =~= rest + a);
        assert((common + b).drop_first() =~= rest + b);
    }
}

/// A path is printed with as few steps up as lead out of what it does not share
/// with the directory it is printed from, and with the rest of the way down. What
/// is below that directory is printed without any.
pub proof fn a_printed_path_climbs_no_more_than_it_has_to(
    common: Seq<Seq<char>>,
    out: Seq<Seq<char>>,
    down: Seq<Seq<char>>,
)
    requires
        all_names(common + out),
        all_names(common + down),
        (common + out).len() > 0,
        out.len() == 0 || down.len() == 0 || out[0] != down[0],
    ensures
        displayed(common + out, joined(common + down, "/"@)) == joined(
            Seq::new(out.len(), |i: int| ".."@) + down,
            "/"@,
        ),
{
    lemma_shared_in_front(common, out, down);
    lemma_displayed(common + out, common + down);
    let n = common.len() as int;
    assert((common + down).skip(n) =~= down);
    assert(climbs(((common + out).len() - n) as nat) =~= Seq::new(out.len(), |i: int| ".."@));
}

/// How many components from `i` on lead up.
pub open spec fn steps_up(parts: Seq<Seq<char>>, i: int) -> nat
    decreases parts.len() - i,
{
    if i < 0 || i >= parts.len() {
        0
    } else if parts[i] == ".."@ {
        1 + steps_up(parts, i + 1)
    } else {
        steps_up(parts, i + 1)
    }
}

/// Whether a component names something.
pub open spec fn names_something(part: Seq<char>) -> bool {
    part.len() > 0 && part != "."@ && part != ".."@
}

/// Whether a component from `i` on leads up behind one that names something.
pub open spec fn climbs_behind_a_name(parts: Seq<Seq<char>>, i: int, named: bool) -> bool {
    exists|k: int|
        {
            &&& i <= k < parts.len()
            &&& #[trigger] parts[k] == ".."@
            &&& named || exists|j: int| i <= j < k && names_something(#[trigger] parts[j])
        }
}

proof fn lemma_parts_problem(
    parts: Seq<Seq<char>>,
    i: int,
    climb: int,
    named: bool,
    depth: int,
)
    requires
        0 <= i <= parts.len(),
    ensures
        parts_problem(parts, i, climb, named, depth) is None <==> !climbs_behind_a_name(
            parts,
            i,
            named,
        ) && (steps_up(parts, i) > 0 ==> climb + steps_up(parts, i) <= depth),
    decreases parts.len() - i,
{
    reveal_strlit(".");
    reveal_strlit("..");
    assert("."@.len() == 1 && ".."@.len() == 2);
    if i < parts.len() {
        let part = parts[i];
        let passed = named || names_something(part);
        if part != ".."@ {
            lemma_parts_problem(parts, i + 1, climb, passed, depth);
            assert(climbs_behind_a_name(parts, i, named) <==> climbs_behind_a_name(
                parts,
                i + 1,
                passed,
            )) by {
                if climbs_behind_a_name(parts, i, named) {
                    let k = choose|k: int|
                        {
                            &&& i <= k < parts.len()
                            &&& #[trigger] parts[k] == ".."@
                            &&& named || exists|j: int|
                                i <= j < k && names_something(#[trigger] parts[j])
                        };
                    assert(k > i);
                    if !named {
                        let j = choose|j: int| i <= j < k && names_something(#[trigger] parts[j]);
                        if j > i {
                            assert(names_something(parts[j]));
                        }
                    }
                    assert(parts[k] == ".."@);
                }
                if climbs_behind_a_name(parts, i + 1, passed) {
                    let k = choose|k: int|
                        {
                            &&& i + 1 <= k < parts.len()
                            &&& #[trigger] parts[k] == ".."@
                            &&& passed || exists|j: int|
                                i + 1 <= j < k && names_something(#[trigger] parts[j])
                        };
                    if passed && !named {
                        assert(names_something(parts[i]));
                    }
                    assert(parts[k] == ".."@);
                }
            }
        } else if named {
            assert(climbs_behind_a_name(parts, i, named)) by {
                assert(parts[i] == ".."@);
            }
        } else {
            lemma_parts_problem(parts, i + 1, climb + 1, named, depth);
            assert(!names_something(parts[i]));
            assert(climbs_behind_a_name(parts, i, named) <==> climbs_behind_a_name(
                parts,
                i + 1,
                named,
            )) by {
                if climbs_behind_a_name(parts, i, named) {
                    let k = choose|k: int|
                        {
                            &&& i <= k < parts.len()
                            &&& #[trigger] parts[k] == ".."@
                            &&& named || exists|j: int|
                                i <= j < k && names_something(#[trigger] parts[j])
                        };
                    let j = choose|j: int| i <= j < k && names_something(#[trigger] parts[j]);
                    assert(j > i);
                    assert(names_something(parts[j]));
                    assert(parts[k] == ".."@);
                }
                if climbs_behind_a_name(parts, i + 1, named) {
                    let k = choose|k: int|
                        {
                            &&& i + 1 <= k < parts.len()
                            &&& #[trigger] parts[k] == ".."@
                            &&& named || exists|j: int|
                                i + 1 <= j < k && names_something(#[trigger] parts[j])
                        };
                    assert(parts[k] == ".."@);
                }
            }
        }
    }
}

proof fn lemma_control_at(s: Seq<char>, from: int)
    requires
        0 <= from <= s.len(),
    ensures
        from <= control_at(s, from) <= s.len(),
        control_at(s, from) < s.len() ==> (s[control_at(s, from)] as u32) < 0x20,
        forall|i: int| from <= i < control_at(s, from) ==> !((#[trigger] s[i] as u32) < 0x20),
    decreases s.len() - from,
{
    if from < s.len() && !((s[from] as u32) < 0x20) {
        lemma_control_at(s, from + 1);
    }
}

/// A path is accepted exactly where it is not empty, holds no control character,
/// does not begin at the root, takes no step up behind a name, and takes no more
/// of them than the directory is deep.
pub proof fn what_a_path_is_accepted_for(path: Seq<char>, depth: int)
    ensures
        problem_of(path, depth) is None <==> {
            &&& path.len() > 0
            &&& forall|i: int| 0 <= i < path.len() ==> #[trigger] path[i] as u32 >= 0x20
            &&& path[0] != '/'
            &&& !climbs_behind_a_name(split_at_char(path, '/'), 0, false)
            &&& steps_up(split_at_char(path, '/'), 0) > 0 ==> steps_up(split_at_char(path, '/'), 0)
                <= depth
        },
{
    if path.len() > 0 {
        lemma_control_at(path, 0);
        lemma_parts_problem(split_at_char(path, '/'), 0, 0, false, depth);
        let at = control_at(path, 0);
        if at < path.len() {
            assert(!(path[at] as u32 >= 0x20));
        }
    }
}

/// A quoted text holds no control character below the space, and a character that
/// needs no escape stands for itself.
pub proof fn a_quoted_text_is_printable(s: Seq<char>)
    ensures
        forall|i: int| 0 <= i < quoted(s).len() ==> (#[trigger] quoted(s)[i]) as u32 >= 0x20,
        (forall|i: int|
            0 <= i < s.len() ==> (#[trigger] s[i]) as u32 >= 0x20 && s[i] != '\\' && s[i] != '"')
            ==> quoted(s) == s,
    decreases s.len(),
{
    if s.len() > 0 {
        let rest = s.drop_last();
        a_quoted_text_is_printable(rest);
        let c = s.last();
        let n = c as u32 as int;
        assert(quoted(s) == quoted(rest) + quoted_char(c));
        if n < 0x20 {
            assert(hex_digit(n / 16) as u32 >= 0x20);
            assert(hex_digit(n % 16) as u32 >= 0x20);
        }
        assert forall|i: int| 0 <= i < quoted_char(c).len() implies (
        #[trigger] quoted_char(c)[i]) as u32 >= 0x20 by {}
        assert forall|i: int| 0 <= i < quoted(s).len() implies (#[trigger] quoted(s)[i]) as u32
            >= 0x20 by {
            if i < quoted(rest).len() {
                assert(quoted(s)[i] == quoted(rest)[i]);
            } else {
                assert(quoted(s)[i] == quoted_char(c)[i - quoted(rest).len()]);
            }
        }
        if forall|i: int|
            0 <= i < s.len() ==> (#[trigger] s[i]) as u32 >= 0x20 && s[i] != '\\' && s[i]
                != '"' {
            assert forall|i: int| 0 <= i < rest.len() implies (#[trigger] rest[i]) as u32 >= 0x20
                && rest[i] != '\\' && rest[i] != '"' by {
                assert(rest[i] == s[i]);
            }
            assert(c == s[s.len() - 1]);
            assert(quoted(s) =~= s);
        }
    }
}

} // verus!
