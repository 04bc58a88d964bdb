//! Characters, lines and strings: the vocabulary the rest of the library is
//! stated in.
//!
//! A string is modelled by the sequence of its characters. Every function here
//! either computes one such sequence from others or decides a fact about them.

use vstd::prelude::*;

verus! {

// ---------------------------------------------------------------------------
// Deep views
// ---------------------------------------------------------------------------

/// The deep view of every element of a sequence, in order.
pub open spec fn deep<T: DeepView>(items: Seq<T>) -> Seq<T::V> {
    Seq::new(items.len(), |i: int| items[i].deep_view())
}

pub broadcast proof fn lemma_deep_push<T: DeepView>(items: Seq<T>, item: T)
    ensures
        #[trigger] deep(items.push(item)) == deep(items).push(item.deep_view()),
{
    assert(deep(items.push(item)) =~= deep(items).push(item.deep_view()));
}

pub broadcast proof fn lemma_deep_empty<T: DeepView>(items: Seq<T>)
    requires
        items.len() == 0,
    ensures
        #[trigger] deep(items) == Seq::<T::V>::empty(),
{
    assert(deep(items) =~= Seq::<T::V>::empty());
}

pub broadcast group group_deep {
    lemma_deep_push,
    lemma_deep_empty,
}

/// Turn a list round.
pub fn reversed<T>(items: Vec<T>) -> (out: Vec<T>)
    ensures
        out@ == items@.reverse(),
{
    let ghost held = items@;
    let mut pending = items;
    let mut out: Vec<T> = Vec::new();
    while pending.len() > 0
        invariant
            pending@.len() + out@.len() == held.len(),
            pending@ == held.take(pending@.len() as int),
            forall|i: int| 0 <= i < out@.len() ==> out@[i] == held[held.len() - 1 - i],
        decreases pending.len(),
    {
        let ghost n = pending@.len() as int;
        let one = pending.pop().unwrap();
        assert(pending@ =~= held.take(n - 1));
        assert(one == held[n - 1]);
        out.push(one);
    }
    assert(out@ =~= held.reverse());
    out
}

// ---------------------------------------------------------------------------
// Strings as characters
// ---------------------------------------------------------------------------

/// `String::push` appends one character.
pub assume_specification[ String::push ](s: &mut String, c: char)
    ensures
        final(s)@ == old(s)@.push(c),
;

/// The characters of `s`, one per element.
pub fn chars_of(s: &str) -> (out: Vec<char>)
    ensures
        out@ == s@,
{
    let mut out: Vec<char> = Vec::new();
    for c in it: s.chars()
        invariant
            out@ == it.seq().take(it.index()),
            it.seq() == s@,
    {
        out.push(c);
        assert(out@ =~= it.seq().take(it.index() + 1));
    }
    assert(s@.take(s@.len() as int) =~= s@);
    out
}

/// The string spelled by `chars[from..to]`.
pub fn string_of(chars: &Vec<char>, from: usize, to: usize) -> (out: String)
    requires
        from <= to <= chars.len(),
    ensures
        out@ == chars@.subrange(from as int, to as int),
{
    let mut out = String::new();
    let mut i: usize = from;
    while i < to
        invariant
            from <= i <= to <= chars.len(),
            out@ == chars@.subrange(from as int, i as int),
        decreases to - i,
    {
        out.push(chars[i]);
        i += 1;
        assert(chars@.subrange(from as int, i as int) =~= chars@.subrange(
            from as int,
            i as int - 1,
        ).push(chars@[i - 1]));
    }
    out
}

/// Whether two strings are the same characters.
pub fn same(a: &str, b: &str) -> (r: bool)
    ensures
        r == (a@ == b@),
{
    a.to_owned() == b.to_owned()
}

/// One string followed by another.
pub fn concat2(a: &str, b: &str) -> (r: String)
    ensures
        r@ == a@ + b@,
{
    let mut out = a.to_owned();
    out.append(b);
    out
}

/// Three strings in a row.
pub fn concat3(a: &str, b: &str, c: &str) -> (r: String)
    ensures
        r@ == a@ + b@ + c@,
{
    let mut out = a.to_owned();
    out.append(b);
    out.append(c);
    out
}

/// A copy of every string of a list.
pub fn clone_strings(items: &Vec<String>) -> (out: Vec<String>)
    ensures
        deep(out@) == deep(items@),
        out.len() == items.len(),
{
    let mut out: Vec<String> = Vec::new();
    let mut i: usize = 0;
    while i < items.len()
        invariant
            i <= items.len(),
            out.len() == i,
            forall|j: int| 0 <= j < i ==> out@[j]@ == items@[j]@,
        decreases items.len() - i,
    {
        out.push(items[i].clone());
        i += 1;
    }
    assert(deep(out@) =~= deep(items@));
    out
}

/// Whether `items` holds the string `wanted`.
pub fn list_contains(items: &Vec<String>, wanted: &str) -> (r: bool)
    ensures
        r == deep(items@).contains(wanted@),
{
    let mut i: usize = 0;
    while i < items.len()
        invariant
            i <= items.len(),
            forall|j: int| 0 <= j < i ==> items@[j]@ != wanted@,
        decreases items.len() - i,
    {
        if same(items[i].as_str(), wanted) {
            assert(deep(items@)[i as int] == wanted@);
            return true;
        }
        i += 1;
    }
    assert(!deep(items@).contains(wanted@)) by {
        if deep(items@).contains(wanted@) {
            let j = choose|j: int| 0 <= j < deep(items@).len() && deep(items@)[j] == wanted@;
            assert(items@[j]@ == wanted@);
        }
    }
    false
}

// ---------------------------------------------------------------------------
// Joining
// ---------------------------------------------------------------------------

/// The parts of `parts` one after another.
pub open spec fn concat(parts: Seq<Seq<char>>) -> Seq<char>
    decreases parts.len(),
{
    if parts.len() == 0 {
        Seq::empty()
    } else {
        concat(parts.drop_last()) + parts.last()
    }
}

/// The parts of `parts` one after another, with `separator` between each two.
pub open spec fn joined(parts: Seq<Seq<char>>, separator: Seq<char>) -> Seq<char>
    decreases parts.len(),
{
    if parts.len() == 0 {
        Seq::empty()
    } else if parts.len() == 1 {
        parts[0]
    } else {
        joined(parts.drop_last(), separator) + separator + parts.last()
    }
}

pub proof fn lemma_concat_one(part: Seq<char>)
    ensures
        concat(seq![part]) == part,
{
    assert(seq![part].drop_last() =~= Seq::<Seq<char>>::empty());
    assert(concat(Seq::<Seq<char>>::empty()) =~= Seq::<char>::empty());
    assert(concat(seq![part]) =~= part);
}

pub proof fn lemma_concat_add(a: Seq<Seq<char>>, b: Seq<Seq<char>>)
    ensures
        concat(a + b) == concat(a) + concat(b),
    decreases b.len(),
{
    if b.len() == 0 {
        assert(a + b =~= a);
        assert(concat(a) + concat(b) =~= concat(a));
    } else {
        assert((a + b).drop_last() =~= a + b.drop_last());
        lemma_concat_add(a, b.drop_last());
        assert(concat(a) + (concat(b.drop_last()) + b.last()) =~= (concat(a) + concat(
            b.drop_last(),
        )) + b.last());
    }
}

/// Join strings with a separator.
pub fn join(parts: &Vec<String>, separator: &str) -> (out: String)
    ensures
        out@ == joined(deep(parts@), separator@),
{
    let ghost views = deep(parts@);
    let mut out = String::new();
    let mut i: usize = 0;
    while i < parts.len()
        invariant
            i <= parts.len(),
            views == deep(parts@),
            out@ == joined(views.take(i as int), separator@),
        decreases parts.len() - i,
    {
        assert(views.take(i as int + 1).drop_last() =~= views.take(i as int));
        if i > 0 {
            out.append(separator);
        }
        out.append(parts[i].as_str());
        i += 1;
    }
    assert(views.take(views.len() as int) =~= views);
    out
}

/// Join a run of strings, `parts[from..to]`, with nothing between them.
pub fn concat_range(parts: &Vec<String>, from: usize, to: usize) -> (out: String)
    requires
        from <= to <= parts.len(),
    ensures
        out@ == concat(deep(parts@).subrange(from as int, to as int)),
{
    let ghost views = deep(parts@);
    let mut out = String::new();
    let mut i: usize = from;
    while i < to
        invariant
            from <= i <= to <= parts.len(),
            views == deep(parts@),
            out@ == concat(views.subrange(from as int, i as int)),
        decreases to - i,
    {
        assert(views.subrange(from as int, i as int + 1).drop_last() =~= views.subrange(
            from as int,
            i as int,
        ));
        out.append(parts[i].as_str());
        i += 1;
    }
    out
}

// ---------------------------------------------------------------------------
// Numbers
// ---------------------------------------------------------------------------

/// The character of a decimal digit.
pub open spec fn digit(n: nat) -> char {
    (48 + n % 10) as char
}

/// A number in decimal, without leading zeros.
pub open spec fn decimal(n: nat) -> Seq<char>
    decreases n,
{
    if n < 10 {
        seq![digit(n)]
    } else {
        decimal(n / 10).push(digit(n))
    }
}

fn digit_char(n: u128) -> (c: char)
    requires
        n < 10,
    ensures
        c == digit(n as nat),
{
    let code: u8 = 48 + n as u8;
    code as char
}

/// Write a number in decimal.
pub fn wide_number(n: u128) -> (out: String)
    ensures
        out@ == decimal(n as nat),
    decreases n,
{
    if n < 10 {
        let mut out = String::new();
        out.push(digit_char(n));
        assert(out@ =~= decimal(n as nat));
        out
    } else {
        let mut out = wide_number(n / 10);
        out.push(digit_char(n % 10));
        out
    }
}

/// Write a number in decimal.
pub fn number(n: usize) -> (out: String)
    ensures
        out@ == decimal(n as nat),
{
    wide_number(n as u128)
}

// ---------------------------------------------------------------------------
// Prefixes, suffixes and occurrences
// ---------------------------------------------------------------------------

/// Whether `whole` begins with `part`.
pub open spec fn begins_with(whole: Seq<char>, part: Seq<char>) -> bool {
    part.len() <= whole.len() && whole.take(part.len() as int) == part
}

/// Whether `whole` ends with `part`.
pub open spec fn finishes_with(whole: Seq<char>, part: Seq<char>) -> bool {
    part.len() <= whole.len() && whole.skip(whole.len() - part.len()) == part
}

/// Whether `part` stands in `whole` at position `at`.
pub open spec fn stands_at(whole: Seq<char>, part: Seq<char>, at: int) -> bool {
    0 <= at && at + part.len() <= whole.len() && whole.subrange(at, at + part.len()) == part
}

/// Whether `part` stands anywhere in `whole`.
pub open spec fn occurs_in(whole: Seq<char>, part: Seq<char>) -> bool {
    exists|at: int| stands_at(whole, part, at)
}

/// Whether `part` stands in `whole` at position `at`.
pub fn part_at(whole: &Vec<char>, part: &Vec<char>, at: usize) -> (r: bool)
    ensures
        r == stands_at(whole@, part@, at as int),
{
    if at > whole.len() || whole.len() - at < part.len() {
        return false;
    }
    let mut i: usize = 0;
    while i < part.len()
        invariant
            i <= part.len(),
            at + part.len() <= whole.len(),
            forall|j: int| 0 <= j < i ==> whole@[at + j] == part@[j],
        decreases part.len() - i,
    {
        if whole[at + i] != part[i] {
            assert(whole@.subrange(at as int, at + part.len())[i as int] != part@[i as int]);
            return false;
        }
        i += 1;
    }
    assert(whole@.subrange(at as int, at + part.len()) =~= part@);
    true
}

/// Whether `whole` begins with `part`.
pub fn starts_with(whole: &str, part: &str) -> (r: bool)
    ensures
        r == begins_with(whole@, part@),
{
    let w = chars_of(whole);
    let p = chars_of(part);
    let r = part_at(&w, &p, 0);
    assert(p@.len() <= w@.len() ==> w@.take(p@.len() as int) =~= w@.subrange(
        0,
        0 + p@.len() as int,
    ));
    r
}

/// What follows `part` in `whole`, when `whole` begins with it.
pub fn strip_prefix(whole: &str, part: &str) -> (r: Option<String>)
    ensures
        match r {
            Some(rest) => begins_with(whole@, part@) && rest@ == whole@.skip(part@.len() as int),
            None => !begins_with(whole@, part@),
        },
{
    if starts_with(whole, part) {
        let w = chars_of(whole);
        let p = chars_of(part);
        let rest = string_of(&w, p.len(), w.len());
        assert(rest@ =~= whole@.skip(part@.len() as int));
        Some(rest)
    } else {
        None
    }
}

/// Whether `part` stands anywhere in `whole`.
pub fn contains(whole: &str, part: &str) -> (r: bool)
    ensures
        r == occurs_in(whole@, part@),
{
    let w = chars_of(whole);
    let p = chars_of(part);
    if p.len() > w.len() {
        assert(!occurs_in(w@, p@));
        return false;
    }
    let last: usize = w.len() - p.len();
    let mut at: usize = 0;
    loop
        invariant
            w@ == whole@,
            p@ == part@,
            last == w.len() - p.len(),
            at <= last,
            forall|j: int| 0 <= j < at ==> !stands_at(w@, p@, j),
        decreases last - at,
    {
        if part_at(&w, &p, at) {
            return true;
        }
        if at == last {
            assert(!occurs_in(w@, p@));
            return false;
        }
        at += 1;
    }
}

/// Whether the character `c` stands anywhere in `s`.
pub fn contains_char(s: &str, c: char) -> (r: bool)
    ensures
        r == s@.contains(c),
{
    let chars = chars_of(s);
    let mut i: usize = 0;
    while i < chars.len()
        invariant
            chars@ == s@,
            i <= chars.len(),
            forall|j: int| 0 <= j < i ==> chars@[j] != c,
        decreases chars.len() - i,
    {
        if chars[i] == c {
            assert(s@[i as int] == c);
            return true;
        }
        i += 1;
    }
    false
}

// ---------------------------------------------------------------------------
// Trimming
// ---------------------------------------------------------------------------

/// Whether a character is white space: Unicode's `White_Space` property.
pub open spec fn is_space(c: char) -> bool {
    let n = c as u32;
    ||| 0x09 <= n <= 0x0d
    ||| n == 0x20
    ||| n == 0x85
    ||| n == 0xa0
    ||| n == 0x1680
    ||| 0x2000 <= n <= 0x200a
    ||| n == 0x2028
    ||| n == 0x2029
    ||| n == 0x202f
    ||| n == 0x205f
    ||| n == 0x3000
}

/// Whether a character is white space.
pub fn space(c: char) -> (r: bool)
    ensures
        r == is_space(c),
{
    let n: u32 = c as u32;
    (0x09 <= n && n <= 0x0d) || n == 0x20 || n == 0x85 || n == 0xa0 || n == 0x1680 || (0x2000 <= n
        && n <= 0x200a) || n == 0x2028 || n == 0x2029 || n == 0x202f || n == 0x205f || n == 0x3000
}

/// `s` without the white space it begins with.
pub open spec fn trim_start(s: Seq<char>) -> Seq<char>
    decreases s.len(),
{
    if s.len() > 0 && is_space(s[0]) {
        trim_start(s.drop_first())
    } else {
        s
    }
}

/// `s` without the white space it ends with.
pub open spec fn trim_end(s: Seq<char>) -> Seq<char>
    decreases s.len(),
{
    if s.len() > 0 && is_space(s.last()) {
        trim_end(s.drop_last())
    } else {
        s
    }
}

/// `s` without the white space at either end.
pub open spec fn trimmed(s: Seq<char>) -> Seq<char> {
    trim_end(trim_start(s))
}

/// Trim white space from both ends of a string.
pub fn trim(s: &str) -> (out: String)
    ensures
        out@ == trimmed(s@),
{
    let chars = chars_of(s);
    let mut from: usize = 0;
    assert(chars@.skip(0) =~= chars@);
    while from < chars.len() && space(chars[from])
        invariant
            chars@ == s@,
            from <= chars.len(),
            trim_start(s@) == trim_start(chars@.skip(from as int)),
        decreases chars.len() - from,
    {
        assert(chars@.skip(from as int).drop_first() =~= chars@.skip(from as int + 1));
        from += 1;
    }
    let ghost rest = chars@.skip(from as int);
    assert(trim_start(s@) == rest);
    let mut to: usize = chars.len();
    assert(chars@.subrange(from as int, to as int) =~= rest);
    while to > from && space(chars[to - 1])
        invariant
            chars@ == s@,
            from <= to <= chars.len(),
            trim_end(rest) == trim_end(chars@.subrange(from as int, to as int)),
        decreases to,
    {
        assert(chars@.subrange(from as int, to as int).drop_last() =~= chars@.subrange(
            from as int,
            to as int - 1,
        ));
        to -= 1;
    }
    string_of(&chars, from, to)
}

/// `s` without every copy of `part` it ends with.
pub open spec fn without_trailing(s: Seq<char>, part: Seq<char>) -> Seq<char>
    decreases s.len(),
{
    if part.len() > 0 && finishes_with(s, part) {
        without_trailing(s.take(s.len() - part.len()), part)
    } else {
        s
    }
}

/// Drop every copy of `part` that `s` ends with.
pub fn trim_end_matches(s: &str, part: &str) -> (out: String)
    requires
        part@.len() > 0,
    ensures
        out@ == without_trailing(s@, part@),
{
    let chars = chars_of(s);
    let tail = chars_of(part);
    let mut to: usize = chars.len();
    assert(chars@.take(to as int) =~= chars@);
    while to >= tail.len() && part_at(&chars, &tail, to - tail.len())
        invariant
            chars@ == s@,
            tail@ == part@,
            tail.len() > 0,
            to <= chars.len(),
            without_trailing(s@, part@) == without_trailing(chars@.take(to as int), part@),
        decreases to,
    {
        let ghost shown = chars@.take(to as int);
        proof {
            let at = to - tail.len();
            assert(shown.skip(at) =~= chars@.subrange(at, at + tail.len()));
            assert(shown.take(at) =~= chars@.take(at));
        }
        to -= tail.len();
    }
    let out = string_of(&chars, 0, to);
    proof {
        let shown = chars@.take(to as int);
        assert(shown =~= chars@.subrange(0, to as int));
        if to >= tail.len() {
            let at = to - tail.len();
            assert(shown.skip(at) =~= chars@.subrange(at, at + tail.len()));
        }
    }
    out
}

// ---------------------------------------------------------------------------
// Splitting at a character
// ---------------------------------------------------------------------------

/// Where `c` first stands in `s` at or after `from`; the length of `s` where it
/// does not.
pub open spec fn next_at(s: Seq<char>, c: char, from: int) -> int
    decreases s.len() - from,
{
    if from < 0 || from >= s.len() {
        s.len() as int
    } else if s[from] == c {
        from
    } else {
        next_at(s, c, from + 1)
    }
}

pub proof fn lemma_next_at(s: Seq<char>, c: char, from: int)
    requires
        0 <= from <= s.len(),
    ensures
        from <= next_at(s, c, from) <= s.len(),
        next_at(s, c, from) < s.len() ==> s[next_at(s, c, from)] == c,
        forall|j: int| from <= j < next_at(s, c, from) ==> s[j] != c,
    decreases s.len() - from,
{
    if from < s.len() && s[from] != c {
        lemma_next_at(s, c, from + 1);
    }
}

/// Where `c` first stands in `chars` at or after `from`.
pub fn find_char(chars: &Vec<char>, c: char, from: usize) -> (r: usize)
    requires
        from <= chars.len(),
    ensures
        r == next_at(chars@, c, from as int),
        from <= r <= chars.len(),
        r < chars.len() ==> chars@[r as int] == c,
{
    let mut i: usize = from;
    while i < chars.len() && chars[i] != c
        invariant
            from <= i <= chars.len(),
            next_at(chars@, c, from as int) == next_at(chars@, c, i as int),
        decreases chars.len() - i,
    {
        i += 1;
    }
    i
}

/// The pieces of `s[from..]` between occurrences of `c`: one more piece than
/// there are occurrences.
pub open spec fn split_from(s: Seq<char>, c: char, from: int) -> Seq<Seq<char>>
    decreases s.len() - from,
{
    let at = next_at(s, c, from);
    if from < 0 || from > s.len() || at >= s.len() || at < from {
        seq![s.subrange(from, s.len() as int)]
    } else {
        seq![s.subrange(from, at)] + split_from(s, c, at + 1)
    }
}

/// The pieces of `s` between occurrences of `c`.
pub open spec fn split_at_char(s: Seq<char>, c: char) -> Seq<Seq<char>> {
    split_from(s, c, 0)
}

/// Split a string at every occurrence of a character.
pub fn split_char(s: &str, c: char) -> (out: Vec<String>)
    ensures
        deep(out@) == split_at_char(s@, c),
        out.len() > 0,
{
    broadcast use group_deep;

    let chars = chars_of(s);
    let mut out: Vec<String> = Vec::new();
    let mut from: usize = 0;
    proof {
        assert(deep(out@) + split_from(s@, c, 0) =~= split_at_char(s@, c));
    }
    loop
        invariant
            chars@ == s@,
            from <= chars.len(),
            deep(out@) + split_from(s@, c, from as int) == split_at_char(s@, c),
        decreases chars.len() - from,
    {
        let ghost before = deep(out@);
        let at = find_char(&chars, c, from);
        let piece = string_of(&chars, from, at);
        let ghost shown = piece@;
        out.push(piece);
        if at >= chars.len() {
            assert(split_from(s@, c, from as int) == seq![shown]);
            assert(deep(out@) =~= before + seq![shown]);
            return out;
        }
        assert(split_from(s@, c, from as int) == seq![shown] + split_from(s@, c, at as int + 1));
        assert(deep(out@) + split_from(s@, c, at as int + 1) =~= before + (seq![shown]
            + split_from(s@, c, at as int + 1)));
        from = at + 1;
    }
}

// ---------------------------------------------------------------------------
// Lines
// ---------------------------------------------------------------------------

/// The lines of `s[from..]`, each with its newline; the last one may lack it.
pub open spec fn line_pieces_from(s: Seq<char>, from: int) -> Seq<Seq<char>>
    decreases s.len() - from,
{
    let at = next_at(s, '\n', from);
    if from < 0 || from >= s.len() || at < from {
        Seq::empty()
    } else if at >= s.len() {
        seq![s.subrange(from, s.len() as int)]
    } else {
        seq![s.subrange(from, at + 1)] + line_pieces_from(s, at + 1)
    }
}

/// The lines of a text, each with its newline; the last one may lack it.
pub open spec fn line_pieces(s: Seq<char>) -> Seq<Seq<char>> {
    line_pieces_from(s, 0)
}

/// Split a text into lines, keeping each line's newline.
pub fn split_lines_with_endings(text: &str) -> (out: Vec<String>)
    ensures
        deep(out@) == line_pieces(text@),
{
    broadcast use group_deep;

    let chars = chars_of(text);
    let mut out: Vec<String> = Vec::new();
    let mut from: usize = 0;
    proof {
        assert(deep(out@) + line_pieces_from(text@, 0) =~= line_pieces(text@));
    }
    while from < chars.len()
        invariant
            chars@ == text@,
            from <= chars.len(),
            deep(out@) + line_pieces_from(text@, from as int) == line_pieces(text@),
        decreases chars.len() - from,
    {
        let ghost before = deep(out@);
        let at = find_char(&chars, '\n', from);
        let end: usize = if at < chars.len() {
            at + 1
        } else {
            at
        };
        let piece = string_of(&chars, from, end);
        let ghost shown = piece@;
        out.push(piece);
        proof {
            if at >= text@.len() {
                assert(line_pieces_from(text@, end as int) =~= Seq::empty());
                assert(line_pieces_from(text@, from as int) =~= seq![shown] + line_pieces_from(
                    text@,
                    end as int,
                ));
            }
            assert(deep(out@) + line_pieces_from(text@, end as int) =~= before + (seq![shown]
                + line_pieces_from(text@, end as int)));
        }
        from = end;
    }
    assert(line_pieces_from(text@, from as int) =~= Seq::empty());
    assert(deep(out@) + Seq::<Seq<char>>::empty() =~= deep(out@));
    out
}

pub proof fn lemma_line_pieces_concat_from(s: Seq<char>, from: int)
    requires
        0 <= from <= s.len(),
    ensures
        concat(line_pieces_from(s, from)) == s.skip(from),
    decreases s.len() - from,
{
    lemma_next_at(s, '\n', from);
    let at = next_at(s, '\n', from);
    if from >= s.len() {
        assert(s.skip(from) =~= Seq::empty());
    } else if at >= s.len() {
        lemma_concat_one(s.subrange(from, s.len() as int));
        assert(s.subrange(from, s.len() as int) =~= s.skip(from));
    } else {
        let one = seq![s.subrange(from, at + 1)];
        lemma_concat_one(s.subrange(from, at + 1));
        lemma_concat_add(one, line_pieces_from(s, at + 1));
        lemma_line_pieces_concat_from(s, at + 1);
        assert(s.subrange(from, at + 1) + s.skip(at + 1) =~= s.skip(from));
    }
}

/// Splitting a text into lines loses nothing: the lines in a row are the text.
pub proof fn lines_with_endings_rebuild_the_text(s: Seq<char>)
    ensures
        concat(line_pieces(s)) == s,
{
    lemma_line_pieces_concat_from(s, 0);
    assert(s.skip(0) =~= s);
}

/// How many newlines `s` holds.
pub open spec fn newlines(s: Seq<char>) -> nat
    decreases s.len(),
{
    if s.len() == 0 {
        0
    } else {
        newlines(s.drop_last()) + if s.last() == '\n' {
            1nat
        } else {
            0nat
        }
    }
}

/// How many lines a text has: its newlines, and one more for a last line that
/// lacks one.
pub open spec fn line_count(s: Seq<char>) -> nat {
    newlines(s) + if s.len() > 0 && s.last() != '\n' {
        1nat
    } else {
        0nat
    }
}

pub proof fn lemma_newlines_bound(s: Seq<char>)
    ensures
        newlines(s) <= s.len(),
    decreases s.len(),
{
    if s.len() > 0 {
        lemma_newlines_bound(s.drop_last());
    }
}

pub proof fn lemma_line_count_bound(s: Seq<char>)
    ensures
        line_count(s) <= s.len(),
{
    if s.len() > 0 {
        lemma_newlines_bound(s.drop_last());
    }
}

/// How many lines a text has.
pub fn count_lines(value: &str) -> (n: usize)
    ensures
        n == line_count(value@),
        n <= value@.len(),
{
    let chars = chars_of(value);
    if chars.len() == 0 {
        return 0;
    }
    let mut n: usize = 0;
    let mut i: usize = 0;
    while i < chars.len()
        invariant
            i <= chars.len(),
            n == newlines(chars@.take(i as int)),
            n <= i,
        decreases chars.len() - i,
    {
        assert(chars@.take(i as int + 1).drop_last() =~= chars@.take(i as int));
        if chars[i] == '\n' {
            n += 1;
        }
        i += 1;
    }
    assert(chars@.take(chars@.len() as int) =~= chars@);
    proof {
        lemma_line_count_bound(value@);
    }
    if chars[chars.len() - 1] != '\n' {
        n += 1;
    }
    n
}

/// A line without its end: a newline, and a carriage return in front of it.
pub open spec fn without_end(piece: Seq<char>) -> Seq<char> {
    if piece.len() > 0 && piece.last() == '\n' {
        let body = piece.drop_last();
        if body.len() > 0 && body.last() == '\r' {
            body.drop_last()
        } else {
            body
        }
    } else {
        piece
    }
}

/// The lines of a text, without their ends.
pub open spec fn plain_lines(s: Seq<char>) -> Seq<Seq<char>> {
    Seq::new(line_pieces(s).len(), |i: int| without_end(line_pieces(s)[i]))
}

fn strip_end(piece: &str) -> (r: String)
    ensures
        r@ == without_end(piece@),
{
    let chars = chars_of(piece);
    let mut n: usize = chars.len();
    if n > 0 && chars[n - 1] == '\n' {
        n -= 1;
        if n > 0 && chars[n - 1] == '\r' {
            n -= 1;
        }
    }
    let r = string_of(&chars, 0, n);
    assert(r@ =~= without_end(piece@));
    r
}

/// Split a text into lines, without their ends.
pub fn lines_of(text: &str) -> (out: Vec<String>)
    ensures
        deep(out@) == plain_lines(text@),
{
    let pieces = split_lines_with_endings(text);
    let mut out: Vec<String> = Vec::new();
    let mut i: usize = 0;
    while i < pieces.len()
        invariant
            i <= pieces.len(),
            out@.len() == i,
            forall|j: int| 0 <= j < i ==> (#[trigger] out@[j])@ == without_end(pieces@[j]@),
        decreases pieces.len() - i,
    {
        out.push(strip_end(pieces[i].as_str()));
        i += 1;
    }
    assert(deep(out@) =~= plain_lines(text@)) by {
        assert forall|j: int| 0 <= j < out@.len() implies deep(out@)[j] == plain_lines(text@)[j] by {
            assert(deep(pieces@)[j] == pieces@[j]@);
        }
    }
    out
}

/// Where white space, or what is none, ends.
pub open spec fn run_end(s: Seq<char>, at: int, spaces: bool) -> int
    decreases s.len() - at,
{
    if 0 <= at < s.len() && is_space(s[at]) == spaces {
        run_end(s, at + 1, spaces)
    } else {
        at
    }
}

pub proof fn lemma_run_end(s: Seq<char>, at: int, spaces: bool)
    requires
        0 <= at <= s.len(),
    ensures
        at <= run_end(s, at, spaces) <= s.len(),
        at < s.len() && is_space(s[at]) == spaces ==> at < run_end(s, at, spaces),
    decreases s.len() - at,
{
    if at < s.len() && is_space(s[at]) == spaces {
        lemma_run_end(s, at + 1, spaces);
    }
}

/// The words of `s[at..]`: what stands between white space.
pub open spec fn words_from(s: Seq<char>, at: int) -> Seq<Seq<char>>
    decreases s.len() - at,
{
    let start = run_end(s, at, true);
    let end = run_end(s, start, false);
    if at < 0 || start >= s.len() || start < at || end <= start || end > s.len() {
        Seq::empty()
    } else {
        seq![s.subrange(start, end)] + words_from(s, end)
    }
}

/// The words of a text.
pub open spec fn words(s: Seq<char>) -> Seq<Seq<char>> {
    words_from(s, 0)
}

fn find_run_end(chars: &Vec<char>, at: usize, spaces: bool) -> (r: usize)
    requires
        at <= chars.len(),
    ensures
        r == run_end(chars@, at as int, spaces),
        at <= r <= chars.len(),
{
    let mut i: usize = at;
    while i < chars.len() && space(chars[i]) == spaces
        invariant
            at <= i <= chars.len(),
            run_end(chars@, at as int, spaces) == run_end(chars@, i as int, spaces),
        decreases chars.len() - i,
    {
        i += 1;
    }
    i
}

/// Split a text at white space.
pub fn split_words(text: &str) -> (out: Vec<String>)
    ensures
        deep(out@) == words(text@),
{
    broadcast use group_deep;

    let chars = chars_of(text);
    let mut out: Vec<String> = Vec::new();
    let mut at: usize = 0;
    assert(deep(out@) + words_from(text@, 0) =~= words(text@));
    loop
        invariant
            chars@ == text@,
            at <= chars.len(),
            deep(out@) + words_from(text@, at as int) == words(text@),
        decreases chars.len() - at,
    {
        let start = find_run_end(&chars, at, true);
        if start >= chars.len() {
            assert(deep(out@) + Seq::<Seq<char>>::empty() =~= deep(out@));
            return out;
        }
        let end = find_run_end(&chars, start, false);
        let ghost before = deep(out@);
        proof {
            lemma_run_end(text@, at as int, true);
            lemma_run_end(text@, start as int, false);
            lemma_run_stop(text@, at as int, true);
        }
        let word = string_of(&chars, start, end);
        let ghost shown = word@;
        out.push(word);
        assert(deep(out@) + words_from(text@, end as int) =~= before + (seq![shown] + words_from(
            text@,
            end as int,
        )));
        at = end;
    }
}

proof fn lemma_run_stop(s: Seq<char>, at: int, spaces: bool)
    requires
        0 <= at <= s.len(),
    ensures
        run_end(s, at, spaces) < s.len() ==> is_space(s[run_end(s, at, spaces)]) != spaces,
    decreases s.len() - at,
{
    if at < s.len() && is_space(s[at]) == spaces {
        lemma_run_stop(s, at + 1, spaces);
    }
}

/// What stands in front of the first `c` of a text, and what stands behind it;
/// the whole text and nothing where it has none.
pub open spec fn parted(s: Seq<char>, c: char) -> (Seq<char>, Seq<char>) {
    let at = next_at(s, c, 0);
    if at < s.len() {
        (s.take(at), s.skip(at + 1))
    } else {
        (s, Seq::empty())
    }
}

/// Part a text at the first occurrence of a character.
pub fn split_once(s: &str, c: char) -> (r: (String, String))
    ensures
        (r.0@, r.1@) == parted(s@, c),
{
    let chars = chars_of(s);
    let at = find_char(&chars, c, 0);
    if at < chars.len() {
        let head = string_of(&chars, 0, at);
        let tail = string_of(&chars, at + 1, chars.len());
        assert(head@ =~= s@.take(at as int));
        assert(tail@ =~= s@.skip(at as int + 1));
        (head, tail)
    } else {
        let tail = String::new();
        assert(tail@ =~= Seq::empty());
        (s.to_owned(), tail)
    }
}

// ---------------------------------------------------------------------------
// What holds of all texts
// ---------------------------------------------------------------------------

/// Whether a text is nothing but white space.
pub open spec fn is_blank(s: Seq<char>) -> bool {
    forall|i: int| 0 <= i < s.len() ==> is_space(#[trigger] s[i])
}

proof fn lemma_trim_start(s: Seq<char>)
    ensures
        exists|a: int|
            {
                &&& 0 <= a <= s.len()
                &&& trim_start(s) == #[trigger] s.skip(a)
                &&& is_blank(s.take(a))
            },
        trim_start(s).len() > 0 ==> !is_space(trim_start(s)[0]),
    decreases s.len(),
{
    if s.len() > 0 && is_space(s[0]) {
        let rest = s.drop_first();
        lemma_trim_start(rest);
        let a = choose|a: int|
            {
                &&& 0 <= a <= rest.len()
                &&& trim_start(rest) == #[trigger] rest.skip(a)
                &&& is_blank(rest.take(a))
            };
        assert(s.skip(a + 1) =~= rest.skip(a));
        assert forall|i: int| 0 <= i < a + 1 implies is_space(#[trigger] s.take(a + 1)[i]) by {
            if i > 0 {
                assert(is_space(rest.take(a)[i - 1]));
            }
        }
    } else {
        assert(s.skip(0) =~= s);
    }
}

proof fn lemma_trim_end(s: Seq<char>)
    ensures
        exists|b: int|
            {
                &&& 0 <= b <= s.len()
                &&& trim_end(s) == #[trigger] s.take(b)
                &&& is_blank(s.skip(b))
            },
        trim_end(s).len() > 0 ==> !is_space(trim_end(s).last()),
    decreases s.len(),
{
    if s.len() > 0 && is_space(s.last()) {
        let rest = s.drop_last();
        lemma_trim_end(rest);
        let b = choose|b: int|
            {
                &&& 0 <= b <= rest.len()
                &&& trim_end(rest) == #[trigger] rest.take(b)
                &&& is_blank(rest.skip(b))
            };
        assert(s.take(b) =~= rest.take(b));
        assert forall|i: int| 0 <= i < s.len() - b implies is_space(#[trigger] s.skip(b)[i]) by {
            if i < rest.len() - b {
                assert(is_space(rest.skip(b)[i]));
            }
        }
    } else {
        assert(s.take(s.len() as int) =~= s);
    }
}

/// Trimming takes white space from either end of a text and nothing else, and
/// leaves none there.
pub proof fn trimming_takes_white_space_from_the_ends(s: Seq<char>)
    ensures
        exists|a: int, b: int|
            {
                &&& 0 <= a <= b <= s.len()
                &&& trimmed(s) == #[trigger] s.subrange(a, b)
                &&& is_blank(s.take(a))
                &&& is_blank(s.skip(b))
            },
        trimmed(s).len() > 0 ==> !is_space(trimmed(s)[0]) && !is_space(trimmed(s).last()),
{
    lemma_trim_start(s);
    let a = choose|a: int|
        {
            &&& 0 <= a <= s.len()
            &&& trim_start(s) == #[trigger] s.skip(a)
            &&& is_blank(s.take(a))
        };
    let rest = s.skip(a);
    lemma_trim_end(rest);
    let b = choose|b: int|
        {
            &&& 0 <= b <= rest.len()
            &&& trim_end(rest) == #[trigger] rest.take(b)
            &&& is_blank(rest.skip(b))
        };
    assert(s.subrange(a, a + b) =~= rest.take(b));
    assert(s.skip(a + b) =~= rest.skip(b));
    if b > 0 {
        assert(rest.take(b)[0] == rest[0]);
    }
}

proof fn lemma_joined_first(parts: Seq<Seq<char>>, separator: Seq<char>)
    requires
        parts.len() > 1,
    ensures
        joined(parts, separator) == parts[0] + separator + joined(parts.drop_first(), separator),
    decreases parts.len(),
{
    let rest = parts.drop_first();
    if parts.len() == 2 {
        assert(parts.drop_last() =~= seq![parts[0]]);
        assert(joined(parts.drop_last(), separator) == parts[0]);
        assert(joined(rest, separator) == parts[1]);
    } else {
        lemma_joined_first(parts.drop_last(), separator);
        assert(parts.drop_last().drop_first() =~= rest.drop_last());
        assert(joined(parts, separator) =~= parts[0] + separator + joined(rest, separator));
    }
}

proof fn lemma_split_from(s: Seq<char>, c: char, from: int)
    requires
        0 <= from <= s.len(),
    ensures
        split_from(s, c, from).len() > 0,
        joined(split_from(s, c, from), seq![c]) == s.skip(from),
        forall|i: int|
            0 <= i < split_from(s, c, from).len() ==> !(#[trigger] split_from(
                s,
                c,
                from,
            )[i]).contains(c),
    decreases s.len() - from,
{
    lemma_next_at(s, c, from);
    let at = next_at(s, c, from);
    let out = split_from(s, c, from);
    if at >= s.len() {
        assert(out =~= seq![s.subrange(from, s.len() as int)]);
        assert(s.subrange(from, s.len() as int) =~= s.skip(from));
        assert(joined(out, seq![c]) == out[0]);
    } else {
        let rest = split_from(s, c, at + 1);
        lemma_split_from(s, c, at + 1);
        assert(out.drop_first() =~= rest);
        lemma_joined_first(out, seq![c]);
        assert(s.subrange(from, at) + seq![c] + s.skip(at + 1) =~= s.skip(from));
        assert forall|i: int| 0 <= i < out.len() implies !(#[trigger] out[i]).contains(c) by {
            if i > 0 {
                assert(out[i] == rest[i - 1]);
            }
        }
    }
}

pub proof fn lemma_split_len(s: Seq<char>, c: char)
    ensures
        split_at_char(s, c).len() > 0,
{
    lemma_split_from(s, c, 0);
}

/// Splitting a text at a character loses nothing: its pieces hold none of it, and
/// put together again with it in between they are the text.
pub proof fn pieces_and_what_split_them_rebuild_the_text(s: Seq<char>, c: char)
    ensures
        joined(split_at_char(s, c), seq![c]) == s,
        forall|i: int|
            0 <= i < split_at_char(s, c).len() ==> !(#[trigger] split_at_char(s, c)[i]).contains(c),
{
    lemma_split_from(s, c, 0);
    assert(s.skip(0) =~= s);
}

/// Parting a text cuts it at the first of a character; where there is none, all
/// of it is in front.
pub proof fn parting_cuts_at_the_first(s: Seq<char>, c: char)
    ensures
        ({
            let (front, back) = parted(s, c);
            &&& !front.contains(c)
            &&& s.contains(c) ==> s == front.push(c) + back
            &&& !s.contains(c) ==> s == front && back.len() == 0
        }),
{
    lemma_next_at(s, c, 0);
    let at = next_at(s, c, 0);
    let (front, back) = parted(s, c);
    if at < s.len() {
        assert(s =~= front.push(c) + back);
        assert(s.contains(s[at]));
    }
}

proof fn lemma_newlines_add(a: Seq<char>, b: Seq<char>)
    ensures
        newlines(a + b) == newlines(a) + newlines(b),
    decreases b.len(),
{
    if b.len() == 0 {
        assert(a + b =~= a);
    } else {
        assert((a + b).drop_last() =~= a + b.drop_last());
        lemma_newlines_add(a, b.drop_last());
    }
}

proof fn lemma_no_newlines(s: Seq<char>)
    requires
        forall|i: int| 0 <= i < s.len() ==> s[i] != '\n',
    ensures
        newlines(s) == 0,
    decreases s.len(),
{
    if s.len() > 0 {
        lemma_no_newlines(s.drop_last());
    }
}

proof fn lemma_lines_counted(s: Seq<char>, from: int)
    requires
        0 <= from <= s.len(),
    ensures
        line_pieces_from(s, from).len() == line_count(s.skip(from)),
    decreases s.len() - from,
{
    lemma_next_at(s, '\n', from);
    let at = next_at(s, '\n', from);
    let here = s.skip(from);
    if from >= s.len() {
        assert(here =~= Seq::empty());
    } else if at >= s.len() {
        lemma_no_newlines(here);
        assert(here.last() == s[s.len() - 1]);
    } else {
        lemma_lines_counted(s, at + 1);
        let rest = s.skip(at + 1);
        let body = s.subrange(from, at);
        lemma_no_newlines(body);
        assert(here =~= (body.push('\n')) + rest);
        lemma_newlines_add(body.push('\n'), rest);
        assert(body.push('\n').drop_last() =~= body);
        if rest.len() > 0 {
            assert(here.last() == rest.last());
        } else {
            assert(here.last() == '\n');
        }
    }
}

/// The lines of a text are as many as are counted.
pub proof fn lines_are_as_many_as_counted(s: Seq<char>)
    ensures
        line_pieces(s).len() == line_count(s),
        plain_lines(s).len() == line_count(s),
{
    lemma_lines_counted(s, 0);
    assert(s.skip(0) =~= s);
}

proof fn lemma_piece_ends(s: Seq<char>, from: int)
    requires
        0 <= from <= s.len(),
    ensures
        forall|i: int|
            0 <= i < line_pieces_from(s, from).len() ==> {
                let piece = #[trigger] line_pieces_from(s, from)[i];
                &&& piece.len() > 0
                &&& !piece.drop_last().contains('\n')
                &&& i < line_pieces_from(s, from).len() - 1 ==> piece.last() == '\n'
            },
    decreases s.len() - from,
{
    lemma_next_at(s, '\n', from);
    let at = next_at(s, '\n', from);
    let out = line_pieces_from(s, from);
    if from < s.len() && at < s.len() {
        let rest = line_pieces_from(s, at + 1);
        lemma_piece_ends(s, at + 1);
        assert forall|i: int| 0 <= i < out.len() implies {
            let piece = #[trigger] out[i];
            &&& piece.len() > 0
            &&& !piece.drop_last().contains('\n')
            &&& i < out.len() - 1 ==> piece.last() == '\n'
        } by {
            if i > 0 {
                assert(out[i] == rest[i - 1]);
            }
        }
    }
}

/// A line is never empty, has a newline nowhere but at its end, and has it there
/// unless it is the last.
pub proof fn a_line_ends_at_its_newline(s: Seq<char>, i: int)
    requires
        0 <= i < line_pieces(s).len(),
    ensures
        line_pieces(s)[i].len() > 0,
        !line_pieces(s)[i].drop_last().contains('\n'),
        i < line_pieces(s).len() - 1 ==> line_pieces(s)[i].last() == '\n',
{
    lemma_piece_ends(s, 0);
}

proof fn lemma_run_ends_at(s: Seq<char>, at: int, end: int, spaces: bool)
    requires
        0 <= at <= end <= s.len(),
        forall|i: int| at <= i < end ==> is_space(#[trigger] s[i]) == spaces,
        end < s.len() ==> is_space(s[end]) != spaces,
    ensures
        run_end(s, at, spaces) == end,
    decreases end - at,
{
    if at < end {
        assert(is_space(s[at]) == spaces);
        lemma_run_ends_at(s, at + 1, end, spaces);
    }
}

/// Whether a text is a word: not empty, and without white space.
pub open spec fn is_word(s: Seq<char>) -> bool {
    s.len() > 0 && forall|i: int| 0 <= i < s.len() ==> !is_space(#[trigger] s[i])
}

proof fn lemma_words_of_joined(front: Seq<char>, list: Seq<Seq<char>>)
    requires
        forall|i: int| 0 <= i < list.len() ==> is_word(#[trigger] list[i]),
    ensures
        words_from(front + joined(list, " "@), front.len() as int) == list,
    decreases list.len(),
{
    reveal_strlit(" ");
    let s = front + joined(list, " "@);
    let at = front.len() as int;
    if list.len() == 0 {
        assert(words_from(s, at) =~= list);
    } else {
        let one = list[0];
        let end = at + one.len();
        assert(is_word(one));
        if list.len() == 1 {
            assert(s =~= front + one);
        } else {
            lemma_joined_first(list, " "@);
        }
        assert forall|i: int| at <= i < end implies !is_space(#[trigger] s[i]) by {
            assert(s[i] == one[i - at]);
        }
        assert(s[at] == one[0]);
        if end < s.len() {
            assert(s[end] == ' ');
            assert(is_space(' '));
        }
        lemma_run_ends_at(s, at, at, true);
        lemma_run_ends_at(s, at, end, false);
        assert(s.subrange(at, end) =~= one);
        if list.len() == 1 {
            lemma_run_ends_at(s, end, end, true);
            assert(words_from(s, end) =~= Seq::empty());
            assert(words_from(s, at) =~= list);
        } else {
            let rest = list.drop_first();
            let passed = front + one + " "@;
            assert(passed + joined(rest, " "@) =~= s);
            assert forall|i: int| 0 <= i < rest.len() implies is_word(#[trigger] rest[i]) by {
                assert(rest[i] == list[i + 1]);
            }
            lemma_words_of_joined(passed, rest);
            let next = rest[0];
            assert(is_word(next));
            assert(s[end + 1] == next[0]) by {
                if rest.len() == 1 {
                    assert(joined(rest, " "@) == next);
                } else {
                    lemma_joined_first(rest, " "@);
                }
            }
            lemma_run_ends_at(s, end, end + 1, true);
            lemma_run_ends_at(s, end + 1, end + 1, true);
            assert(words_from(s, end) == words_from(s, end + 1)) by {
                lemma_run_end(s, end + 1, false);
            }
            assert(words_from(s, at) =~= seq![one] + rest);
            assert(seq![one] + rest =~= list);
        }
    }
}

/// Words that are written with a space between each two are the words of the
/// text.
pub proof fn words_in_a_row_are_the_words_of_the_text(list: Seq<Seq<char>>)
    requires
        forall|i: int| 0 <= i < list.len() ==> is_word(#[trigger] list[i]),
    ensures
        words(joined(list, " "@)) == list,
{
    lemma_words_of_joined(Seq::empty(), list);
    assert(Seq::<char>::empty() + joined(list, " "@) =~= joined(list, " "@));
}

/// Trimming a text that has no white space at its ends changes nothing.
pub proof fn lemma_trimmed_stays(s: Seq<char>)
    requires
        s.len() > 0 ==> !is_space(s[0]) && !is_space(s.last()),
    ensures
        trimmed(s) == s,
{
}

/// A text that is parted at a character that is not in its front is cut there.
pub proof fn lemma_parted_at(front: Seq<char>, c: char, back: Seq<char>)
    requires
        !front.contains(c),
    ensures
        parted(front.push(c) + back, c) == (front, back),
        (front.push(c) + back).contains(c),
{
    let s = front.push(c) + back;
    let at = front.len() as int;
    assert(s[at] == c);
    lemma_next_at(s, c, 0);
    let found = next_at(s, c, 0);
    if found < at {
        assert(front.contains(front[found]));
    }
    assert(found == at) by {
        if found > at {
            assert(s[at] != c);
        }
    }
    assert(s.take(at) =~= front);
    assert(s.skip(at + 1) =~= back);
}

/// A line reads as what stands in front of its end, be that a newline or a return
/// and a newline; a return alone is no end.
pub proof fn a_line_reads_without_its_end(line: Seq<char>)
    ensures
        line.len() == 0 || line.last() != '\r' ==> without_end(line.push('\n')) == line,
        without_end(line.push('\r').push('\n')) == line,
        line.len() == 0 || line.last() != '\n' ==> without_end(line) == line,
{
    assert(line.push('\n').drop_last() =~= line);
    assert(line.push('\r').push('\n').drop_last() =~= line.push('\r'));
    assert(line.push('\r').drop_last() =~= line);
}

} // verus!
