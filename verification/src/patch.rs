//! What a patch does to the file it is for: the same as keeping the hunks that it
//! shows.

use crate::diff::{
    change_lines, context_of, diff_pieces, diff_pieces_from, edits, greatest, hunks_of, in_place,
    is_line, least, lemma_front_lines, lemma_line_end, lemma_one_line, lemma_pieces,
    lemma_pieces_in_a_row, line_end, lines_without, pieces_without, rebuilt, text_without, ChangeTag,
    EditView, HunkView, CONTEXT_LINES,
};
use crate::render::{
    block_lines, blocks_of, blocks_take_up_every_hunk, blocks_text, changed_lines, context_after,
    context_before, diff_line, diff_lines, gap_between, lines_between, moved_by, new_count,
    old_count, place, text_of_diff, DiffLineView, DIFF_CONTEXT_LINES,
};
use crate::resolve::{kept_hunks, position_selected};
use crate::text::{
    concat, decimal, lemma_concat_add, lemma_concat_one, lemma_next_at, line_pieces, line_pieces_from,
    lines_with_endings_rebuild_the_text, next_at,
};
use vstd::prelude::*;

verus! {

// ---------------------------------------------------------------------------
// Lines
// ---------------------------------------------------------------------------

/// Whether texts are the lines of a text: only the last may lack its newline.
#[verifier::opaque]
pub open spec fn are_lines(pieces: Seq<Seq<char>>) -> bool {
    forall|i: int|
        0 <= i < pieces.len() ==> is_line(#[trigger] pieces[i]) && (i < pieces.len() - 1
            ==> pieces[i].last() == '\n')
}

proof fn lemma_concat_first(pieces: Seq<Seq<char>>)
    requires
        pieces.len() > 0,
    ensures
        concat(pieces) == pieces[0] + concat(pieces.drop_first()),
{
    lemma_concat_one(pieces[0]);
    lemma_concat_add(seq![pieces[0]], pieces.drop_first());
    assert(seq![pieces[0]] + pieces.drop_first() =~= pieces);
}

proof fn lemma_pieces_behind(head: Seq<char>, pieces: Seq<Seq<char>>)
    requires
        are_lines(pieces),
    ensures
        line_pieces_from(head + concat(pieces), head.len() as int) == pieces,
    decreases pieces.len(),
{
    reveal(are_lines);
    let s = head + concat(pieces);
    let from = head.len() as int;
    if pieces.len() == 0 {
        assert(line_pieces_from(s, from) =~= pieces);
    } else {
        let first = pieces[0];
        let rest = pieces.drop_first();
        lemma_concat_first(pieces);
        lemma_next_at(s, '\n', from);
        let at = next_at(s, '\n', from);
        assert(is_line(first));
        assert forall|j: int| 0 <= j < first.len() implies s[from + j] == #[trigger] first[j] by {}
        assert forall|i: int| 0 <= i < rest.len() implies is_line(#[trigger] rest[i]) && (i
            < rest.len() - 1 ==> rest[i].last() == '\n') by {
            assert(is_line(pieces[i + 1]));
        }
        if first.last() == '\n' {
            assert(s[from + first.len() - 1] == '\n');
            assert(at <= from + first.len() - 1);
            if at < from + first.len() - 1 {
                assert(first[at - from] != '\n');
            }
            lemma_pieces_behind(head + first, rest);
            assert(head + first + concat(rest) =~= s);
            assert(s.subrange(from, at + 1) =~= first);
            assert(seq![first] + rest =~= pieces);
        } else {
            assert(rest.len() == 0);
            assert(concat(rest) =~= Seq::<char>::empty());
            if at < s.len() {
                assert(first[at - from] == '\n');
            }
            assert(s.subrange(from, s.len() as int) =~= first);
            assert(seq![first] =~= pieces);
        }
    }
}

/// The lines of a text that is put together from lines are those lines.
pub proof fn lines_in_a_row_are_the_lines_of_the_text(pieces: Seq<Seq<char>>)
    requires
        are_lines(pieces),
    ensures
        line_pieces(concat(pieces)) == pieces,
{
    lemma_pieces_behind(Seq::empty(), pieces);
    assert(Seq::<char>::empty() + concat(pieces) =~= concat(pieces));
}

proof fn lemma_some_lines(lines: Seq<Seq<char>>, a: int, b: int)
    requires
        are_lines(lines),
        0 <= a <= b <= lines.len(),
    ensures
        are_lines(lines.subrange(a, b)),
{
    reveal(are_lines);
    let part = lines.subrange(a, b);
    assert forall|i: int| 0 <= i < part.len() implies is_line(#[trigger] part[i]) && (i < part.len()
        - 1 ==> part[i].last() == '\n') by {
        assert(is_line(lines[a + i]));
    }
}

proof fn lemma_concat_split(lines: Seq<Seq<char>>, a: int, b: int, c: int)
    requires
        0 <= a <= b <= c <= lines.len(),
    ensures
        concat(lines.subrange(a, c)) == concat(lines.subrange(a, b)) + concat(
            lines.subrange(b, c),
        ),
{
    lemma_concat_add(lines.subrange(a, b), lines.subrange(b, c));
    assert(lines.subrange(a, b) + lines.subrange(b, c) =~= lines.subrange(a, c));
}

// ---------------------------------------------------------------------------
// The two sides of a block
// ---------------------------------------------------------------------------

/// The text that a line of a patch stands for, its newline with it.
pub open spec fn piece_of(l: DiffLineView) -> Seq<char> {
    if l.ended {
        l.text.push('\n')
    } else {
        l.text
    }
}

/// One side of some lines of a patch: those that are not marked as the other's.
pub open spec fn side(lines: Seq<DiffLineView>, other: char) -> Seq<Seq<char>>
    decreases lines.len(),
{
    if lines.len() == 0 {
        Seq::empty()
    } else if lines.last().mark == other {
        side(lines.drop_last(), other)
    } else {
        side(lines.drop_last(), other).push(piece_of(lines.last()))
    }
}

proof fn lemma_side_add(a: Seq<DiffLineView>, b: Seq<DiffLineView>, other: char)
    ensures
        side(a + b, other) == side(a, other) + side(b, other),
    decreases b.len(),
{
    if b.len() == 0 {
        assert(a + b =~= a);
        assert(side(a, other) + side(b, other) =~= side(a, other));
    } else {
        assert((a + b).drop_last() =~= a + b.drop_last());
        lemma_side_add(a, b.drop_last(), other);
        assert(side(a + b, other) =~= side(a, other) + side(b, other));
    }
}

proof fn lemma_side_counts(lines: Seq<DiffLineView>)
    ensures
        side(lines, '+').len() == old_count(lines),
        side(lines, '-').len() == new_count(lines),
    decreases lines.len(),
{
    if lines.len() > 0 {
        lemma_side_counts(lines.drop_last());
    }
}

/// Lines with a mark.
spec fn with_mark(mark: char, pieces: Seq<Seq<char>>) -> Seq<DiffLineView> {
    Seq::new(pieces.len(), |i: int| diff_line(mark, pieces[i]))
}

proof fn lemma_side_of_marked(mark: char, pieces: Seq<Seq<char>>, other: char)
    ensures
        side(with_mark(mark, pieces), other) == (if mark == other {
            Seq::empty()
        } else {
            pieces
        }),
    decreases pieces.len(),
{
    let lines = with_mark(mark, pieces);
    if pieces.len() > 0 {
        lemma_side_of_marked(mark, pieces.drop_last(), other);
        assert(lines.drop_last() =~= with_mark(mark, pieces.drop_last()));
        let piece = pieces.last();
        assert(lines.last() == diff_line(mark, piece));
        if piece.len() > 0 && piece.last() == '\n' {
            assert(piece.drop_last().push('\n') =~= piece);
        }
        assert(pieces.drop_last().push(piece) =~= pieces);
    } else {
        assert(side(lines, other) =~= Seq::<Seq<char>>::empty());
        assert(pieces =~= Seq::<Seq<char>>::empty());
    }
}

proof fn lemma_marked_lines(mark: char, pieces: Seq<Seq<char>>)
    requires
        are_lines(pieces),
    ensures
        diff_lines(mark, concat(pieces)) == with_mark(mark, pieces),
{
    lines_in_a_row_are_the_lines_of_the_text(pieces);
    assert(diff_lines(mark, concat(pieces)) =~= with_mark(mark, pieces));
}

/// How many lines of the file are in front of a hunk.
pub open spec fn lines_before(h: HunkView) -> int {
    h.before_range.start - 1
}

/// How many lines of the file are in front of what is behind a hunk.
pub open spec fn lines_through(h: HunkView) -> int {
    h.before_range.start - 1 + h.before_range.length
}

/// Whether a hunk is a change to a file with these lines: it takes out what
/// stands there, and its context is what stands around it.
pub open spec fn is_placed(lines: Seq<Seq<char>>, h: HunkView) -> bool {
    &&& 0 <= lines_before(h) <= lines_through(h) <= lines.len()
    &&& h.removed == concat(lines.subrange(lines_before(h), lines_through(h)))
    &&& h.context == context_of(
        lines,
        h.before_range.start as nat,
        h.before_range.length as nat,
    )
}

/// Whether hunks are changes to a file with these lines, one behind another.
#[verifier::opaque]
pub open spec fn are_placed(lines: Seq<Seq<char>>, hunks: Seq<HunkView>) -> bool {
    &&& are_lines(lines)
    &&& forall|i: int| 0 <= i < hunks.len() ==> is_placed(lines, #[trigger] hunks[i])
    &&& forall|i: int, j: int|
        0 <= i < j < hunks.len() ==> lines_through(#[trigger] hunks[i]) <= lines_before(
            #[trigger] hunks[j],
        )
}

proof fn lemma_placed(lines: Seq<Seq<char>>, hunks: Seq<HunkView>, i: int)
    requires
        are_placed(lines, hunks),
        0 <= i < hunks.len(),
    ensures
        are_lines(lines),
        is_placed(lines, hunks[i]),
{
    reveal(are_placed);
}

proof fn lemma_behind(lines: Seq<Seq<char>>, hunks: Seq<HunkView>, i: int, j: int)
    requires
        are_placed(lines, hunks),
        0 <= i <= j < hunks.len(),
    ensures
        0 <= lines_before(hunks[i]) <= lines_through(hunks[i]) <= lines_through(hunks[j])
            <= lines.len(),
        lines_before(hunks[i]) <= lines_before(hunks[j]) <= lines_through(hunks[j]),
        i < j ==> lines_through(hunks[i]) <= lines_before(hunks[j]),
{
    reveal(are_placed);
    assert(is_placed(lines, hunks[i]));
    assert(is_placed(lines, hunks[j]));
}

/// Where the context of a hunk begins.
pub open spec fn context_from(h: HunkView) -> int {
    greatest(lines_before(h) - CONTEXT_LINES, 0)
}

/// Where the context of a hunk ends, in a file of `n` lines.
pub open spec fn context_to(h: HunkView, n: nat) -> int {
    least(lines_through(h) + CONTEXT_LINES, n as int)
}

proof fn lemma_contexts(lines: Seq<Seq<char>>, h: HunkView)
    requires
        are_lines(lines),
        is_placed(lines, h),
    ensures
        diff_lines(' ', context_before(h)) == with_mark(
            ' ',
            lines.subrange(context_from(h), lines_before(h)),
        ),
        diff_lines(' ', context_after(h)) == with_mark(
            ' ',
            lines.subrange(lines_through(h), context_to(h, lines.len())),
        ),
        diff_lines('-', h.removed) == with_mark(
            '-',
            lines.subrange(lines_before(h), lines_through(h)),
        ),
{
    let pre = lines.subrange(context_from(h), lines_before(h));
    let post = lines.subrange(lines_through(h), context_to(h, lines.len()));
    lemma_some_lines(lines, context_from(h), lines_before(h));
    lemma_some_lines(lines, lines_through(h), context_to(h, lines.len()));
    lemma_some_lines(lines, lines_before(h), lines_through(h));
    lemma_marked_lines(' ', pre);
    lemma_marked_lines(' ', post);
    lemma_marked_lines('-', lines.subrange(lines_before(h), lines_through(h)));
    if pre.len() == 0 && post.len() == 0 {
        assert(concat(pre) =~= Seq::<char>::empty());
        assert(concat(post) =~= Seq::<char>::empty());
    }
}

proof fn lemma_lines_between(lines: Seq<Seq<char>>, prev: HunkView, next: HunkView)
    requires
        are_lines(lines),
        is_placed(lines, prev),
        is_placed(lines, next),
        lines_through(prev) <= lines_before(next),
        gap_between(prev, next) <= 2 * DIFF_CONTEXT_LINES,
    ensures
        lines_between(prev, next) == with_mark(
            ' ',
            lines.subrange(lines_through(prev), lines_before(next)),
        ),
{
    lemma_contexts(lines, prev);
    lemma_contexts(lines, next);
    let gap = gap_between(prev, next);
    assert(gap == lines_before(next) - lines_through(prev));
    assert(lines_between(prev, next) =~= with_mark(
        ' ',
        lines.subrange(lines_through(prev), lines_before(next)),
    ));
}

/// Hunks that share a block of a patch: the lines between each two are few enough
/// to be shown.
pub open spec fn share_a_block(hunks: Seq<HunkView>, from: int, to: int) -> bool {
    &&& 0 <= from < to <= hunks.len()
    &&& are_near(hunks, from, to)
}

/// Whether no more lines than a patch shows are between each two of some hunks.
#[verifier::opaque]
pub open spec fn are_near(hunks: Seq<HunkView>, from: int, to: int) -> bool {
    forall|k: int|
        from < k < to ==> gap_between(hunks[k - 1], #[trigger] hunks[k]) <= 2 * DIFF_CONTEXT_LINES
}

/// What becomes of the lines of a file that the hunks `from..to` span when these
/// are made.
pub open spec fn made(lines: Seq<Seq<char>>, hunks: Seq<HunkView>, from: int, to: int) -> Seq<char>
    decreases to - from,
{
    if to <= from {
        Seq::empty()
    } else {
        let h = hunks[to - 1];
        made(lines, hunks, from, to - 1) + (if to - 1 > from {
            concat(lines.subrange(lines_through(hunks[to - 2]), lines_before(h)))
        } else {
            Seq::empty()
        }) + h.added
    }
}

proof fn lemma_grown_sides(
    earlier: Seq<DiffLineView>,
    kept: Seq<Seq<char>>,
    gone: Seq<Seq<char>>,
    put: Seq<Seq<char>>,
)
    ensures
        ({
            let all = earlier + with_mark(' ', kept) + with_mark('-', gone) + with_mark('+', put);
            &&& side(all, '+') == side(earlier, '+') + kept + gone
            &&& side(all, '-') == side(earlier, '-') + kept + put
        }),
{
    let a = with_mark(' ', kept);
    let b = with_mark('-', gone);
    let c = with_mark('+', put);
    let nothing = Seq::<Seq<char>>::empty();
    lemma_side_add(earlier + a + b, c, '+');
    lemma_side_add(earlier + a + b, c, '-');
    lemma_side_add(earlier + a, b, '+');
    lemma_side_add(earlier + a, b, '-');
    lemma_side_add(earlier, a, '+');
    lemma_side_add(earlier, a, '-');
    lemma_side_of_marked(' ', kept, '+');
    lemma_side_of_marked(' ', kept, '-');
    lemma_side_of_marked('-', gone, '+');
    lemma_side_of_marked('-', gone, '-');
    lemma_side_of_marked('+', put, '+');
    lemma_side_of_marked('+', put, '-');
    assert(side(earlier, '+') + kept + gone + nothing =~= side(earlier, '+') + kept + gone);
    assert(side(earlier, '-') + kept + nothing + put =~= side(earlier, '-') + kept + put);
}

/// What one more hunk adds to the lines of a block.
proof fn lemma_more_lines(lines: Seq<Seq<char>>, hunks: Seq<HunkView>, from: int, to: int)
    requires
        are_placed(lines, hunks),
        share_a_block(hunks, from, to),
    ensures
        ({
            let h = hunks[to - 1];
            let kept = if to - 1 > from {
                lines.subrange(lines_through(hunks[to - 2]), lines_before(h))
            } else {
                Seq::empty()
            };
            changed_lines(hunks, from, to) == changed_lines(hunks, from, to - 1) + with_mark(
                ' ',
                kept,
            ) + with_mark('-', lines.subrange(lines_before(h), lines_through(h))) + with_mark(
                '+',
                line_pieces(h.added),
            )
        }),
{
    reveal(are_near);
    let h = hunks[to - 1];
    lemma_placed(lines, hunks, to - 1);
    lemma_contexts(lines, h);
    assert(diff_lines('+', h.added) =~= with_mark('+', line_pieces(h.added)));
    if to - 1 > from {
        lemma_placed(lines, hunks, to - 2);
        lemma_behind(lines, hunks, to - 2, to - 1);
        lemma_lines_between(lines, hunks[to - 2], h);
    } else {
        assert(with_mark(' ', Seq::empty()) =~= Seq::<DiffLineView>::empty());
    }
}

proof fn lemma_changed_sides(lines: Seq<Seq<char>>, hunks: Seq<HunkView>, from: int, to: int)
    requires
        are_placed(lines, hunks),
        share_a_block(hunks, from, to),
    ensures
        side(changed_lines(hunks, from, to), '+') == lines.subrange(
            lines_before(hunks[from]),
            lines_through(hunks[to - 1]),
        ),
        concat(side(changed_lines(hunks, from, to), '-')) == made(lines, hunks, from, to),
    decreases to - from,
{
    let h = hunks[to - 1];
    let earlier = changed_lines(hunks, from, to - 1);
    let gone = lines.subrange(lines_before(h), lines_through(h));
    let put = line_pieces(h.added);
    lemma_more_lines(lines, hunks, from, to);
    lines_with_endings_rebuild_the_text(h.added);
    if to - 1 > from {
        assert(are_near(hunks, from, to - 1)) by {
            reveal(are_near);
        }
        lemma_changed_sides(lines, hunks, from, to - 1);
        let through = lines_through(hunks[to - 2]);
        let kept = lines.subrange(through, lines_before(h));
        lemma_grown_sides(earlier, kept, gone, put);
        lemma_concat_add(side(earlier, '-') + kept, put);
        lemma_concat_add(side(earlier, '-'), kept);
        lemma_behind(lines, hunks, from, to - 2);
        lemma_behind(lines, hunks, to - 2, to - 1);
        lemma_in_a_row(lines, lines_before(hunks[from]), through, lines_before(h), lines_through(h));
    } else {
        let nothing = Seq::<Seq<char>>::empty();
        lemma_grown_sides(earlier, nothing, gone, put);
        assert(earlier =~= Seq::<DiffLineView>::empty());
        assert(nothing + nothing + gone =~= gone);
        assert(nothing + nothing + put =~= put);
        assert(made(lines, hunks, from, to - 1) =~= Seq::<char>::empty());
        assert(made(lines, hunks, from, to) =~= h.added);
    }
}

proof fn lemma_in_a_row(lines: Seq<Seq<char>>, a: int, b: int, c: int, d: int)
    requires
        0 <= a <= b <= c <= d <= lines.len(),
    ensures
        lines.subrange(a, b) + lines.subrange(b, c) + lines.subrange(c, d) == lines.subrange(a, d),
{
    assert(lines.subrange(a, b) + lines.subrange(b, c) + lines.subrange(c, d) =~= lines.subrange(
        a,
        d,
    ));
}

proof fn lemma_enclosed_sides(
    pre: Seq<Seq<char>>,
    middle: Seq<DiffLineView>,
    post: Seq<Seq<char>>,
)
    ensures
        ({
            let all = with_mark(' ', pre) + middle + with_mark(' ', post);
            &&& side(all, '+') == pre + side(middle, '+') + post
            &&& side(all, '-') == pre + side(middle, '-') + post
        }),
{
    let head = with_mark(' ', pre);
    let tail = with_mark(' ', post);
    lemma_side_of_marked(' ', pre, '+');
    lemma_side_of_marked(' ', pre, '-');
    lemma_side_of_marked(' ', post, '+');
    lemma_side_of_marked(' ', post, '-');
    lemma_side_add(head + middle, tail, '+');
    lemma_side_add(head + middle, tail, '-');
    lemma_side_add(head, middle, '+');
    lemma_side_add(head, middle, '-');
}

/// What a block of a patch shows on the side before the change are the lines of
/// the file from the context of its first hunk to that of its last, and what it
/// shows on the other side are the same lines with its hunks made.
pub proof fn a_block_shows_the_file_before_and_after(
    lines: Seq<Seq<char>>,
    hunks: Seq<HunkView>,
    from: int,
    to: int,
)
    requires
        are_placed(lines, hunks),
        share_a_block(hunks, from, to),
    ensures
        ({
            let block = block_lines(hunks, from, to);
            let first = hunks[from];
            let last = hunks[to - 1];
            &&& side(block, '+') == lines.subrange(
                context_from(first),
                context_to(last, lines.len()),
            )
            &&& old_count(block) == context_to(last, lines.len()) - context_from(first)
            &&& new_count(block) == side(block, '-').len()
            &&& concat(side(block, '-')) == concat(
                lines.subrange(context_from(first), lines_before(first)),
            ) + made(lines, hunks, from, to) + concat(
                lines.subrange(lines_through(last), context_to(last, lines.len())),
            )
        }),
{
    let first = hunks[from];
    let last = hunks[to - 1];
    let block = block_lines(hunks, from, to);
    let pre = lines.subrange(context_from(first), lines_before(first));
    let post = lines.subrange(lines_through(last), context_to(last, lines.len()));
    let middle = changed_lines(hunks, from, to);
    lemma_placed(lines, hunks, from);
    lemma_placed(lines, hunks, to - 1);
    lemma_behind(lines, hunks, from, to - 1);
    lemma_contexts(lines, first);
    lemma_contexts(lines, last);
    lemma_changed_sides(lines, hunks, from, to);
    lemma_side_counts(block);
    lemma_enclosed_sides(pre, middle, post);
    lemma_in_a_row(
        lines,
        context_from(first),
        lines_before(first),
        lines_through(last),
        context_to(last, lines.len()),
    );
    lemma_concat_add(pre + side(middle, '-'), post);
    lemma_concat_add(pre, side(middle, '-'));
}

// ---------------------------------------------------------------------------
// Applying a patch
// ---------------------------------------------------------------------------

/// A replacement in a file: the lines from `from` to `to`, counted from zero, and
/// the text that takes their place.
#[verifier::ext_equal]
pub struct Replaced {
    pub from: int,
    pub to: int,
    pub text: Seq<char>,
}

/// Where the first `k` replacements end.
pub open spec fn end_of(spans: Seq<Replaced>, k: int) -> int {
    if k <= 0 {
        0
    } else {
        spans[k - 1].to
    }
}

/// The text of a file up to where the first `k` replacements end, these made.
pub open spec fn text_up_to(lines: Seq<Seq<char>>, spans: Seq<Replaced>, k: int) -> Seq<char>
    decreases k,
{
    if k <= 0 {
        Seq::empty()
    } else {
        text_up_to(lines, spans, k - 1) + concat(
            lines.subrange(end_of(spans, k - 1), spans[k - 1].from),
        ) + spans[k - 1].text
    }
}

/// The text of a file with some replacements made.
pub open spec fn text_with(lines: Seq<Seq<char>>, spans: Seq<Replaced>) -> Seq<char> {
    let n = spans.len() as int;
    text_up_to(lines, spans, n) + concat(lines.subrange(end_of(spans, n), lines.len() as int))
}

/// What a hunk replaces.
pub open spec fn hunk_span(h: HunkView) -> Replaced {
    Replaced { from: lines_before(h), to: lines_through(h), text: h.added }
}

pub open spec fn hunk_spans(hunks: Seq<HunkView>) -> Seq<Replaced> {
    Seq::new(hunks.len(), |i: int| hunk_span(hunks[i]))
}

/// What a block of a patch replaces: as many lines as it shows of the side before
/// the change, from where its header says they are.
pub open spec fn block_span(hunks: Seq<HunkView>, from: int, to: int) -> Replaced {
    let block = block_lines(hunks, from, to);
    let first = hunks[from];
    let start = lines_before(first) - diff_lines(' ', context_before(first)).len();
    Replaced { from: start, to: start + old_count(block), text: concat(side(block, '-')) }
}

/// What the blocks of a patch replace.
pub open spec fn block_spans(hunks: Seq<HunkView>) -> Seq<Replaced> {
    let blocks = blocks_of(hunks, hunks.len());
    Seq::new(blocks.len(), |i: int| block_span(hunks, blocks[i].0, blocks[i].1))
}

proof fn lemma_block_span(lines: Seq<Seq<char>>, hunks: Seq<HunkView>, from: int, to: int)
    requires
        are_placed(lines, hunks),
        share_a_block(hunks, from, to),
    ensures
        ({
            let first = hunks[from];
            let last = hunks[to - 1];
            let span = block_span(hunks, from, to);
            &&& span.from == context_from(first)
            &&& span.to == context_to(last, lines.len())
            &&& span.text == concat(lines.subrange(context_from(first), lines_before(first)))
                + made(lines, hunks, from, to) + concat(
                lines.subrange(lines_through(last), context_to(last, lines.len())),
            )
        }),
{
    a_block_shows_the_file_before_and_after(lines, hunks, from, to);
    lemma_placed(lines, hunks, from);
    lemma_contexts(lines, hunks[from]);
}

/// The blocks of a patch hold hunks that are near, and no block is near the next.
proof fn lemma_blocks_share(hunks: Seq<HunkView>, n: nat)
    requires
        n <= hunks.len(),
    ensures
        ({
            let blocks = blocks_of(hunks, n);
            &&& forall|i: int|
                0 <= i < blocks.len() ==> share_a_block(
                    hunks,
                    (#[trigger] blocks[i]).0,
                    blocks[i].1,
                )
            &&& forall|i: int|
                0 < i < blocks.len() ==> gap_between(
                    hunks[(#[trigger] blocks[i]).0 - 1],
                    hunks[blocks[i].0],
                ) > 2 * DIFF_CONTEXT_LINES
        }),
    decreases n,
{
    reveal(are_near);
    if n > 0 {
        let rest = blocks_of(hunks, (n - 1) as nat);
        let blocks = blocks_of(hunks, n);
        lemma_blocks_share(hunks, (n - 1) as nat);
        blocks_take_up_every_hunk(hunks, (n - 1) as nat);
        assert forall|i: int| 0 <= i < blocks.len() implies share_a_block(
            hunks,
            (#[trigger] blocks[i]).0,
            blocks[i].1,
        ) by {
            if i < rest.len() {
                assert(share_a_block(hunks, rest[i].0, rest[i].1));
            }
        }
        assert forall|i: int| 0 < i < blocks.len() implies gap_between(
            hunks[(#[trigger] blocks[i]).0 - 1],
            hunks[blocks[i].0],
        ) > 2 * DIFF_CONTEXT_LINES by {
            if i < rest.len() {
                assert(gap_between(hunks[rest[i].0 - 1], hunks[rest[i].0]) > 2
                    * DIFF_CONTEXT_LINES);
            }
        }
    }
}

proof fn lemma_nth_block(hunks: Seq<HunkView>, i: int)
    requires
        0 <= i < blocks_of(hunks, hunks.len()).len(),
    ensures
        ({
            let blocks = blocks_of(hunks, hunks.len());
            &&& share_a_block(hunks, blocks[i].0, blocks[i].1)
            &&& i == 0 ==> blocks[i].0 == 0
            &&& i == blocks.len() - 1 ==> blocks[i].1 == hunks.len()
            &&& i > 0 ==> blocks[i - 1].1 == blocks[i].0
            &&& i > 0 ==> gap_between(hunks[blocks[i].0 - 1], hunks[blocks[i].0]) > 2
                * DIFF_CONTEXT_LINES
        }),
{
    lemma_blocks_share(hunks, hunks.len());
    blocks_take_up_every_hunk(hunks, hunks.len());
    let blocks = blocks_of(hunks, hunks.len());
    assert(share_a_block(hunks, blocks[i].0, blocks[i].1));
    if i > 0 {
        assert(blocks[i - 1].1 == blocks[i - 1 + 1].0);
    }
}

proof fn lemma_made(lines: Seq<Seq<char>>, hunks: Seq<HunkView>, from: int, to: int)
    requires
        0 <= from < to <= hunks.len(),
    ensures
        ({
            let spans = hunk_spans(hunks);
            text_up_to(lines, spans, to) == text_up_to(lines, spans, from) + concat(
                lines.subrange(end_of(spans, from), lines_before(hunks[from])),
            ) + made(lines, hunks, from, to)
        }),
    decreases to - from,
{
    let spans = hunk_spans(hunks);
    let head = text_up_to(lines, spans, from) + concat(
        lines.subrange(end_of(spans, from), lines_before(hunks[from])),
    );
    assert(spans[to - 1] == hunk_span(hunks[to - 1]));
    if to - 1 > from {
        lemma_made(lines, hunks, from, to - 1);
        assert(spans[to - 2] == hunk_span(hunks[to - 2]));
        assert(text_up_to(lines, spans, to) =~= head + made(lines, hunks, from, to));
    } else {
        assert(made(lines, hunks, from, to - 1) =~= Seq::<char>::empty());
        assert(text_up_to(lines, spans, to) =~= head + made(lines, hunks, from, to));
    }
}

/// Up to the end of a block, its file is what its hunks make of it.
proof fn lemma_blocks_up_to(lines: Seq<Seq<char>>, hunks: Seq<HunkView>, k: int)
    requires
        are_placed(lines, hunks),
        0 < k <= blocks_of(hunks, hunks.len()).len(),
    ensures
        ({
            let last = hunks[blocks_of(hunks, hunks.len())[k - 1].1 - 1];
            text_up_to(lines, block_spans(hunks), k) == text_up_to(
                lines,
                hunk_spans(hunks),
                blocks_of(hunks, hunks.len())[k - 1].1,
            ) + concat(lines.subrange(lines_through(last), context_to(last, lines.len())))
        }),
    decreases k,
{
    let blocks = blocks_of(hunks, hunks.len());
    let spans = block_spans(hunks);
    let finer = hunk_spans(hunks);
    let (from, to) = blocks[k - 1];
    let first = hunks[from];
    let last = hunks[to - 1];
    lemma_nth_block(hunks, k - 1);
    lemma_block_span(lines, hunks, from, to);
    lemma_made(lines, hunks, from, to);
    lemma_behind(lines, hunks, from, to - 1);
    assert(spans[k - 1] == block_span(hunks, from, to));
    let lead = concat(lines.subrange(context_from(first), lines_before(first)));
    let tail = concat(lines.subrange(lines_through(last), context_to(last, lines.len())));
    let body = made(lines, hunks, from, to);
    let passed = text_up_to(lines, finer, from);
    if k == 1 {
        let front = concat(lines.subrange(0, context_from(first)));
        lemma_concat_split(lines, 0, context_from(first), lines_before(first));
        assert(passed == Seq::<char>::empty());
        assert(text_up_to(lines, spans, 0) == Seq::<char>::empty());
        lemma_regrouped(Seq::empty(), Seq::empty(), front, lead, body, tail);
        assert(Seq::<char>::empty() + (front + lead) =~= Seq::<char>::empty() + (
        Seq::<char>::empty() + (front + lead)));
        assert(Seq::<char>::empty() + Seq::<char>::empty() + front =~= Seq::<char>::empty()
            + front);
    } else {
        lemma_blocks_up_to(lines, hunks, k - 1);
        lemma_nth_block(hunks, k - 2);
        lemma_block_span(lines, hunks, blocks[k - 2].0, blocks[k - 2].1);
        assert(spans[k - 2] == block_span(hunks, blocks[k - 2].0, blocks[k - 2].1));
        let prev = hunks[from - 1];
        assert(finer[from - 1] == hunk_span(prev));
        lemma_behind(lines, hunks, from - 1, from);
        let a = lines_through(prev);
        let b = context_to(prev, lines.len());
        let c = context_from(first);
        let d = lines_before(first);
        lemma_concat_split(lines, a, b, d);
        lemma_concat_split(lines, b, c, d);
        lemma_regrouped(
            passed,
            concat(lines.subrange(a, b)),
            concat(lines.subrange(b, c)),
            lead,
            body,
            tail,
        );
    }
}

proof fn lemma_regrouped(
    passed: Seq<char>,
    near: Seq<char>,
    far: Seq<char>,
    lead: Seq<char>,
    body: Seq<char>,
    tail: Seq<char>,
)
    ensures
        passed + near + far + (lead + body + tail) == passed + (near + (far + lead)) + body + tail,
{
    assert(passed + near + far + (lead + body + tail) =~= passed + (near + (far + lead)) + body
        + tail);
}

/// Applying a patch makes its hunks: putting every block's lines in the place of
/// those it shows of the side before the change gives the file with the hunks
/// made, and nothing else changed.
pub proof fn applying_a_patch_makes_its_hunks(lines: Seq<Seq<char>>, hunks: Seq<HunkView>)
    requires
        are_placed(lines, hunks),
    ensures
        text_with(lines, block_spans(hunks)) == text_with(lines, hunk_spans(hunks)),
{
    let blocks = blocks_of(hunks, hunks.len());
    let spans = block_spans(hunks);
    let finer = hunk_spans(hunks);
    if hunks.len() == 0 {
        assert(spans =~= finer);
    } else {
        let k = blocks.len() as int;
        blocks_take_up_every_hunk(hunks, hunks.len());
        lemma_nth_block(hunks, k - 1);
        lemma_blocks_up_to(lines, hunks, k);
        lemma_block_span(lines, hunks, blocks[k - 1].0, blocks[k - 1].1);
        assert(spans[k - 1] == block_span(hunks, blocks[k - 1].0, blocks[k - 1].1));
        let last = hunks[hunks.len() - 1];
        lemma_behind(lines, hunks, hunks.len() - 1, hunks.len() - 1);
        assert(finer[hunks.len() - 1] == hunk_span(last));
        lemma_concat_split(
            lines,
            lines_through(last),
            context_to(last, lines.len()),
            lines.len() as int,
        );
        assert(text_with(lines, spans) =~= text_with(lines, finer));
    }
}

/// The lines that a file has in front of block `k` of a patch once the blocks
/// before it are applied: for each of those the lines that it shows of the side
/// after the change, and what stands between the blocks.
pub open spec fn new_lines_before(lines: Seq<Seq<char>>, hunks: Seq<HunkView>, k: int) -> Seq<
    Seq<char>,
>
    decreases k,
{
    let blocks = blocks_of(hunks, hunks.len());
    let spans = block_spans(hunks);
    if k <= 0 {
        lines.subrange(0, spans[0].from)
    } else {
        new_lines_before(lines, hunks, k - 1) + side(
            block_lines(hunks, blocks[k - 1].0, blocks[k - 1].1),
            '-',
        ) + lines.subrange(spans[k - 1].to, spans[k].from)
    }
}

proof fn lemma_block_spans_apart(lines: Seq<Seq<char>>, hunks: Seq<HunkView>, k: int)
    requires
        are_placed(lines, hunks),
        0 <= k < block_spans(hunks).len(),
    ensures
        ({
            let blocks = blocks_of(hunks, hunks.len());
            let spans = block_spans(hunks);
            &&& spans[k] == block_span(hunks, blocks[k].0, blocks[k].1)
            &&& spans[k].from == context_from(hunks[blocks[k].0])
            &&& 0 <= spans[k].from <= spans[k].to <= lines.len()
            &&& k > 0 ==> spans[k - 1].to <= spans[k].from
        }),
{
    let blocks = blocks_of(hunks, hunks.len());
    let (from, to) = blocks[k];
    lemma_nth_block(hunks, k);
    lemma_block_span(lines, hunks, from, to);
    lemma_behind(lines, hunks, from, to - 1);
    if k > 0 {
        lemma_nth_block(hunks, k - 1);
        lemma_block_span(lines, hunks, blocks[k - 1].0, blocks[k - 1].1);
        lemma_behind(lines, hunks, from - 1, from);
    }
}

proof fn lemma_new_lines_before(lines: Seq<Seq<char>>, hunks: Seq<HunkView>, k: int)
    requires
        are_placed(lines, hunks),
        0 <= k < block_spans(hunks).len(),
    ensures
        ({
            let blocks = blocks_of(hunks, hunks.len());
            let spans = block_spans(hunks);
            &&& new_lines_before(lines, hunks, k).len() == spans[k].from + moved_by(
                hunks,
                blocks,
                k as nat,
            )
            &&& concat(new_lines_before(lines, hunks, k)) == text_up_to(lines, spans, k) + concat(
                lines.subrange(end_of(spans, k), spans[k].from),
            )
        }),
    decreases k,
{
    let blocks = blocks_of(hunks, hunks.len());
    let spans = block_spans(hunks);
    lemma_block_spans_apart(lines, hunks, k);
    if k > 0 {
        lemma_new_lines_before(lines, hunks, k - 1);
        lemma_block_spans_apart(lines, hunks, k - 1);
        let block = block_lines(hunks, blocks[k - 1].0, blocks[k - 1].1);
        lemma_side_counts(block);
        let earlier = new_lines_before(lines, hunks, k - 1);
        let between = lines.subrange(spans[k - 1].to, spans[k].from);
        lemma_concat_add(earlier + side(block, '-'), between);
        lemma_concat_add(earlier, side(block, '-'));
    } else {
        assert(text_up_to(lines, spans, 0) == Seq::<char>::empty());
        let front = concat(lines.subrange(0, spans[0].from));
        assert(Seq::<char>::empty() + front =~= front);
    }
}

/// The line that heads a block tells where it is on either side. On the side
/// before the change these are the file's own lines, counted from one. On the
/// other they are the lines that the file has once the blocks before this one
/// are applied, so many as stand in front of the block. A side that has no lines
/// is said to be at zero.
pub proof fn a_header_tells_where_its_block_is(
    lines: Seq<Seq<char>>,
    hunks: Seq<HunkView>,
    k: int,
)
    requires
        are_placed(lines, hunks),
        0 <= k < blocks_of(hunks, hunks.len()).len(),
    ensures
        ({
            let blocks = blocks_of(hunks, hunks.len());
            let (from, to) = blocks[k];
            let block = block_lines(hunks, from, to);
            let ahead = new_lines_before(lines, hunks, k);
            let old_lines = side(block, '+');
            let new_lines = side(block, '-');
            let old_start: nat = if old_lines.len() == 0 {
                0
            } else {
                (context_from(hunks[from]) + 1) as nat
            };
            let new_start: nat = if new_lines.len() == 0 {
                0
            } else {
                ahead.len() + 1
            };
            &&& old_lines == lines.subrange(
                context_from(hunks[from]),
                context_from(hunks[from]) + old_lines.len(),
            )
            &&& text_up_to(lines, block_spans(hunks), k + 1) == concat(ahead) + concat(new_lines)
            &&& blocks_text(hunks, blocks, (k + 1) as nat) == blocks_text(hunks, blocks, k as nat)
                + ("@@ -"@ + decimal(old_start) + ","@ + decimal(old_lines.len()) + " +"@ + decimal(
                new_start,
            ) + ","@ + decimal(new_lines.len()) + " @@"@ + place(" "@, hunks[from].semantic)
                + " ["@ + hunks[from].short_id + "]\n"@) + text_of_diff(block)
        }),
{
    let blocks = blocks_of(hunks, hunks.len());
    let (from, to) = blocks[k];
    let block = block_lines(hunks, from, to);
    let first = hunks[from];
    lemma_nth_block(hunks, k);
    lemma_placed(lines, hunks, from);
    lemma_contexts(lines, first);
    lemma_side_counts(block);
    a_block_shows_the_file_before_and_after(lines, hunks, from, to);
    lemma_block_spans_apart(lines, hunks, k);
    lemma_new_lines_before(lines, hunks, k);
    assert(diff_lines(' ', context_before(first)).len() == lines_before(first) - context_from(
        first,
    ));
}

// ---------------------------------------------------------------------------
// The hunks of a diff
// ---------------------------------------------------------------------------

/// Whether every carriage return of a text is followed by a newline.
pub open spec fn no_lone_return(s: Seq<char>) -> bool {
    forall|i: int|
        0 <= i < s.len() && #[trigger] s[i] == '\r' ==> i + 1 < s.len() && s[i + 1] == '\n'
}

proof fn lemma_ends_in_newline(s: Seq<char>, from: int)
    requires
        no_lone_return(s),
        0 <= from < s.len(),
    ensures
        line_end(s, from) < s.len() ==> s[line_end(s, from) - 1] == '\n',
    decreases s.len() - from,
{
    if s[from] != '\n' && s[from] != '\r' && from + 1 < s.len() {
        lemma_ends_in_newline(s, from + 1);
    } else {
        assert(from + 1 == s.len() ==> line_end(s, from + 1) == s.len());
    }
}

proof fn lemma_newline_pieces(s: Seq<char>, from: int)
    requires
        no_lone_return(s),
        0 <= from <= s.len(),
    ensures
        are_lines(diff_pieces_from(s, from)),
    decreases s.len() - from,
{
    reveal(are_lines);
    if from < s.len() {
        lemma_line_end(s, from);
        lemma_ends_in_newline(s, from);
        let to = line_end(s, from);
        let one = s.subrange(from, to);
        let rest = diff_pieces_from(s, to);
        let all = diff_pieces_from(s, from);
        lemma_newline_pieces(s, to);
        assert forall|i: int| 0 <= i < all.len() implies is_line(#[trigger] all[i]) && (i < all.len()
            - 1 ==> all[i].last() == '\n') by {
            if i == 0 {
                assert(all[0] == one);
                assert forall|j: int| 0 <= j < one.len() - 1 implies #[trigger] one[j] != '\n' by {
                    assert(s[from + j] != '\n');
                }
                if 0 < all.len() - 1 {
                    assert(rest.len() > 0);
                    assert(to < s.len());
                }
            } else {
                assert(all[i] == rest[i - 1]);
                assert(is_line(rest[i - 1]));
            }
        }
    }
}

/// Where every carriage return is followed by a newline, the lines of a diff are
/// those between newlines.
pub proof fn newlines_end_the_lines_of_a_diff(s: Seq<char>)
    requires
        no_lone_return(s),
    ensures
        are_lines(diff_pieces(s)),
        diff_pieces(s) == line_pieces(s),
{
    lemma_newline_pieces(s, 0);
    lemma_pieces_in_a_row(s);
    lines_in_a_row_are_the_lines_of_the_text(diff_pieces(s));
}

/// What an edit replaces.
pub open spec fn edit_span(e: EditView) -> Replaced {
    Replaced {
        from: e.before_start - 1,
        to: e.before_start - 1 + e.before_length,
        text: e.added,
    }
}

/// What the edits at the positions `keep` replace.
pub open spec fn kept_spans(all: Seq<EditView>, keep: Set<usize>) -> Seq<Replaced>
    decreases all.len(),
{
    if all.len() == 0 {
        Seq::empty()
    } else if keep.contains((all.len() - 1) as usize) {
        kept_spans(all.drop_last(), keep).push(edit_span(all.last()))
    } else {
        kept_spans(all.drop_last(), keep)
    }
}

/// Whether replacements stand one behind another in a file of `n` lines.
pub open spec fn in_order(spans: Seq<Replaced>, n: nat) -> bool {
    &&& forall|i: int| 0 <= i < spans.len() ==> 0 <= (#[trigger] spans[i]).from <= spans[i].to <= n
    &&& forall|i: int, j: int|
        0 <= i < j < spans.len() ==> (#[trigger] spans[i]).to <= (#[trigger] spans[j]).from
}

/// What an edit takes out are the lines that stand where it is.
pub open spec fn takes_out(lines: Seq<Seq<char>>, e: EditView) -> bool {
    &&& 1 <= e.before_start
    &&& e.before_start - 1 + e.before_length <= lines.len()
    &&& e.removed == concat(
        lines.subrange(e.before_start - 1, e.before_start - 1 + e.before_length),
    )
}

proof fn lemma_longer(lines: Seq<Seq<char>>, piece: Seq<char>, e: EditView)
    requires
        takes_out(lines, e),
    ensures
        takes_out(lines.push(piece), e),
{
    let from = e.before_start - 1;
    assert(lines.push(piece).subrange(from, from + e.before_length) =~= lines.subrange(
        from,
        from + e.before_length,
    ));
}

/// The edits of a diff stand one behind another, and the last one is still open
/// where the last change is part of it.
proof fn lemma_edits_placed(changes: Seq<(ChangeTag, Seq<char>)>)
    requires
        change_lines(changes),
    ensures
        ({
            let all = edits(changes);
            let lines = pieces_without(changes, ChangeTag::Insert);
            &&& forall|i: int| 0 <= i < all.len() ==> takes_out(lines, #[trigger] all[i])
            &&& forall|i: int, j: int|
                0 <= i < j < all.len() ==> (#[trigger] all[i]).before_start + all[i].before_length
                    <= (#[trigger] all[j]).before_start
            &&& changes.len() > 0 && changes.last().0 != ChangeTag::Equal ==> all.len() > 0
                && all.last().before_start - 1 + all.last().before_length == lines.len()
        }),
    decreases changes.len(),
{
    if changes.len() > 0 {
        let passed = changes.drop_last();
        let (tag, value) = changes.last();
        let earlier = edits(passed);
        let all = edits(changes);
        let before = pieces_without(passed, ChangeTag::Insert);
        let lines = pieces_without(changes, ChangeTag::Insert);
        lemma_front_lines(changes);
        lemma_edits_placed(passed);
        lemma_pieces(passed, ChangeTag::Insert);
        lemma_one_line(value);
        if changes.len() > 1 {
            assert(passed.last() == changes[changes.len() - 2]);
        }
        assert forall|i: int| 0 <= i < earlier.len() implies takes_out(
            lines,
            #[trigger] earlier[i],
        ) by {
            assert(takes_out(before, earlier[i]));
            lemma_longer(before, value, earlier[i]);
        }
        if tag != ChangeTag::Equal {
            let e = all.last();
            let n = before.len() as int;
            if crate::diff::opens_hunk(changes) {
                assert(all.drop_last() =~= earlier);
                if tag == ChangeTag::Delete {
                    lemma_concat_one(value);
                    assert(lines.subrange(n, n + 1) =~= seq![value]);
                } else {
                    assert(lines.subrange(n, n) =~= Seq::<Seq<char>>::empty());
                }
                assert(e.removed =~= concat(
                    lines.subrange(e.before_start - 1, e.before_start - 1 + e.before_length),
                ));
                assert forall|i: int, j: int| 0 <= i < j < all.len() implies (
                #[trigger] all[i]).before_start + all[i].before_length <= (
                #[trigger] all[j]).before_start by {
                    assert(takes_out(before, earlier[i]));
                }
            } else {
                let open = earlier.last();
                assert(takes_out(before, earlier[earlier.len() - 1]));
                if tag == ChangeTag::Delete {
                    let part = before.subrange(open.before_start - 1, n);
                    assert(lines.subrange(open.before_start - 1, n + 1) =~= part.push(value));
                    assert(part.push(value).drop_last() =~= part);
                }
                assert(takes_out(lines, e));
                assert forall|i: int, j: int| 0 <= i < j < all.len() implies (
                #[trigger] all[i]).before_start + all[i].before_length <= (
                #[trigger] all[j]).before_start by {
                    assert(all[i] == earlier[i]);
                    assert(earlier[i].before_start + earlier[i].before_length
                        <= earlier[j].before_start);
                }
            }
        }
    }
}

/// What an edit puts in are the lines that stand where it is afterwards.
pub open spec fn puts_in(lines: Seq<Seq<char>>, e: EditView) -> bool {
    &&& 1 <= e.after_start
    &&& e.after_start - 1 + e.after_length <= lines.len()
    &&& e.added == concat(
        lines.subrange(e.after_start - 1, e.after_start - 1 + e.after_length),
    )
}

proof fn lemma_longer_after(lines: Seq<Seq<char>>, piece: Seq<char>, e: EditView)
    requires
        puts_in(lines, e),
    ensures
        puts_in(lines.push(piece), e),
{
    let from = e.after_start - 1;
    assert(lines.push(piece).subrange(from, from + e.after_length) =~= lines.subrange(
        from,
        from + e.after_length,
    ));
}

/// The same of the text after the change.
proof fn lemma_edits_put(changes: Seq<(ChangeTag, Seq<char>)>)
    requires
        change_lines(changes),
    ensures
        ({
            let all = edits(changes);
            let lines = pieces_without(changes, ChangeTag::Delete);
            &&& forall|i: int| 0 <= i < all.len() ==> puts_in(lines, #[trigger] all[i])
            &&& forall|i: int, j: int|
                0 <= i < j < all.len() ==> (#[trigger] all[i]).after_start + all[i].after_length
                    <= (#[trigger] all[j]).after_start
            &&& changes.len() > 0 && changes.last().0 != ChangeTag::Equal ==> all.len() > 0
                && all.last().after_start - 1 + all.last().after_length == lines.len()
        }),
    decreases changes.len(),
{
    if changes.len() > 0 {
        let passed = changes.drop_last();
        let (tag, value) = changes.last();
        let earlier = edits(passed);
        let all = edits(changes);
        let before = pieces_without(passed, ChangeTag::Delete);
        let lines = pieces_without(changes, ChangeTag::Delete);
        lemma_front_lines(changes);
        lemma_edits_put(passed);
        lemma_pieces(passed, ChangeTag::Delete);
        lemma_one_line(value);
        if changes.len() > 1 {
            assert(passed.last() == changes[changes.len() - 2]);
        }
        assert forall|i: int| 0 <= i < earlier.len() implies puts_in(
            lines,
            #[trigger] earlier[i],
        ) by {
            assert(puts_in(before, earlier[i]));
            lemma_longer_after(before, value, earlier[i]);
        }
        if tag != ChangeTag::Equal {
            let e = all.last();
            let n = before.len() as int;
            if crate::diff::opens_hunk(changes) {
                assert(all.drop_last() =~= earlier);
                if tag == ChangeTag::Insert {
                    lemma_concat_one(value);
                    assert(lines.subrange(n, n + 1) =~= seq![value]);
                } else {
                    assert(lines.subrange(n, n) =~= Seq::<Seq<char>>::empty());
                }
                assert(e.added =~= concat(
                    lines.subrange(e.after_start - 1, e.after_start - 1 + e.after_length),
                ));
                assert forall|i: int, j: int| 0 <= i < j < all.len() implies (
                #[trigger] all[i]).after_start + all[i].after_length <= (
                #[trigger] all[j]).after_start by {
                    assert(puts_in(before, earlier[i]));
                }
            } else {
                let open = earlier.last();
                assert(puts_in(before, earlier[earlier.len() - 1]));
                if tag == ChangeTag::Insert {
                    let part = before.subrange(open.after_start - 1, n);
                    assert(lines.subrange(open.after_start - 1, n + 1) =~= part.push(value));
                    assert(part.push(value).drop_last() =~= part);
                }
                assert(puts_in(lines, e));
                assert forall|i: int, j: int| 0 <= i < j < all.len() implies (
                #[trigger] all[i]).after_start + all[i].after_length <= (
                #[trigger] all[j]).after_start by {
                    assert(all[i] == earlier[i]);
                    assert(earlier[i].after_start + earlier[i].after_length
                        <= earlier[j].after_start);
                }
            }
        }
    }
}

// ---------------------------------------------------------------------------
// What is outside the hunks
// ---------------------------------------------------------------------------

/// Where a change is on either side: the lines it takes out, and those it puts in.
#[verifier::ext_equal]
pub struct Place {
    pub old_from: int,
    pub old_to: int,
    pub new_from: int,
    pub new_to: int,
}

pub open spec fn edit_place(e: EditView) -> Place {
    Place {
        old_from: e.before_start - 1,
        old_to: e.before_start - 1 + e.before_length,
        new_from: e.after_start - 1,
        new_to: e.after_start - 1 + e.after_length,
    }
}

pub open spec fn edit_places(all: Seq<EditView>) -> Seq<Place> {
    Seq::new(all.len(), |i: int| edit_place(all[i]))
}

pub open spec fn hunk_place(h: HunkView) -> Place {
    Place {
        old_from: h.before_range.start - 1,
        old_to: h.before_range.start - 1 + h.before_range.length,
        new_from: h.after_range.start - 1,
        new_to: h.after_range.start - 1 + h.after_range.length,
    }
}

pub open spec fn hunk_places(hunks: Seq<HunkView>) -> Seq<Place> {
    Seq::new(hunks.len(), |i: int| hunk_place(hunks[i]))
}

/// Where the lines in front of change `k` begin, on either side.
pub open spec fn gap_from(places: Seq<Place>, k: int) -> (int, int) {
    if k <= 0 {
        (0, 0)
    } else {
        (places[k - 1].old_to, places[k - 1].new_to)
    }
}

/// Where the lines in front of change `k` end, or those behind the last change.
pub open spec fn gap_to(places: Seq<Place>, k: int, old_len: int, new_len: int) -> (int, int) {
    if k >= places.len() {
        (old_len, new_len)
    } else {
        (places[k].old_from, places[k].new_from)
    }
}

/// Whether the lines in front of change `k`, or behind the last one, are the same
/// on both sides; between two changes there is at least one.
pub open spec fn gap_agrees(
    places: Seq<Place>,
    k: int,
    old: Seq<Seq<char>>,
    new: Seq<Seq<char>>,
) -> bool {
    let from = gap_from(places, k);
    let to = gap_to(places, k, old.len() as int, new.len() as int);
    &&& 0 <= from.0 <= to.0 <= old.len()
    &&& 0 <= from.1 <= to.1 <= new.len()
    &&& old.subrange(from.0, to.0) == new.subrange(from.1, to.1)
    &&& 0 < k < places.len() ==> from.0 < to.0
}

/// Whether two texts differ in their changes alone: what is outside them is the
/// same, no two touch, and none is empty on both sides.
pub open spec fn differ_there(
    places: Seq<Place>,
    old: Seq<Seq<char>>,
    new: Seq<Seq<char>>,
) -> bool {
    &&& forall|k: int| 0 <= k <= places.len() ==> #[trigger] gap_agrees(places, k, old, new)
    &&& forall|k: int|
        0 <= k < places.len() ==> (#[trigger] places[k]).old_from < places[k].old_to
            || places[k].new_from < places[k].new_to
}

/// A gap in front of a change is not touched by lines that are put behind both
/// texts.
proof fn lemma_gap_stays(
    places: Seq<Place>,
    more: Seq<Place>,
    k: int,
    old: Seq<Seq<char>>,
    new: Seq<Seq<char>>,
    old_more: Seq<Seq<char>>,
    new_more: Seq<Seq<char>>,
)
    requires
        gap_agrees(places, k, old, new),
        0 <= k < places.len(),
        k < more.len(),
        gap_from(more, k) == gap_from(places, k),
        more[k].old_from == places[k].old_from,
        more[k].new_from == places[k].new_from,
        old.len() <= old_more.len(),
        new.len() <= new_more.len(),
        old_more.take(old.len() as int) == old,
        new_more.take(new.len() as int) == new,
    ensures
        gap_agrees(more, k, old_more, new_more),
{
    let from = gap_from(places, k);
    let to = gap_to(places, k, old.len() as int, new.len() as int);
    assert(old_more.subrange(from.0, to.0) =~= old_more.take(old.len() as int).subrange(
        from.0,
        to.0,
    ));
    assert(new_more.subrange(from.1, to.1) =~= new_more.take(new.len() as int).subrange(
        from.1,
        to.1,
    ));
}

proof fn lemma_edits_differ(changes: Seq<(ChangeTag, Seq<char>)>)
    requires
        change_lines(changes),
    ensures
        ({
            let places = edit_places(edits(changes));
            let old = pieces_without(changes, ChangeTag::Insert);
            let new = pieces_without(changes, ChangeTag::Delete);
            let n = places.len() as int;
            &&& differ_there(places, old, new)
            &&& changes.len() > 0 && changes.last().0 != ChangeTag::Equal ==> n > 0 && gap_from(
                places,
                n,
            ) == (old.len() as int, new.len() as int)
            &&& changes.len() > 0 && changes.last().0 == ChangeTag::Equal ==> gap_from(places, n).0
                < old.len()
        }),
    decreases changes.len(),
{
    let places = edit_places(edits(changes));
    let old = pieces_without(changes, ChangeTag::Insert);
    let new = pieces_without(changes, ChangeTag::Delete);
    let n = places.len() as int;
    if changes.len() == 0 {
        assert forall|k: int| 0 <= k <= n implies #[trigger] gap_agrees(places, k, old, new) by {
            assert(old.subrange(0, 0) =~= new.subrange(0, 0));
        }
    } else {
        let passed = changes.drop_last();
        let (tag, value) = changes.last();
        let earlier = edit_places(edits(passed));
        let m = earlier.len() as int;
        let a = pieces_without(passed, ChangeTag::Insert);
        let b = pieces_without(passed, ChangeTag::Delete);
        lemma_front_lines(changes);
        lemma_edits_differ(passed);
        lemma_pieces(passed, ChangeTag::Insert);
        lemma_pieces(passed, ChangeTag::Delete);
        lemma_one_line(value);
        if changes.len() > 1 {
            assert(passed.last() == changes[changes.len() - 2]);
        }
        assert(old.take(a.len() as int) =~= a);
        assert(new.take(b.len() as int) =~= b);
        assert(gap_agrees(earlier, m, a, b));
        let from = gap_from(earlier, m);
        let same = a.subrange(from.0, a.len() as int);
        if tag == ChangeTag::Equal {
            assert(places =~= earlier);
            assert forall|k: int| 0 <= k <= n implies #[trigger] gap_agrees(
                places,
                k,
                old,
                new,
            ) by {
                assert(gap_agrees(earlier, k, a, b));
                if k < n {
                    lemma_gap_stays(earlier, places, k, a, b, old, new);
                } else {
                    assert(old.subrange(from.0, old.len() as int) =~= same.push(value));
                    assert(new.subrange(from.1, new.len() as int) =~= b.subrange(
                        from.1,
                        b.len() as int,
                    ).push(value));
                }
            }
        } else if crate::diff::opens_hunk(changes) {
            assert(edits(changes).drop_last() =~= edits(passed));
            assert(places.drop_last() =~= earlier);
            assert(n == m + 1);
            assert(places[m].old_from == a.len() && places[m].new_from == b.len());
            assert forall|k: int| 0 <= k <= n implies #[trigger] gap_agrees(
                places,
                k,
                old,
                new,
            ) by {
                if k < m {
                    assert(gap_agrees(earlier, k, a, b));
                    assert(places[k] == earlier[k]);
                    assert(k > 0 ==> places[k - 1] == earlier[k - 1]);
                    lemma_gap_stays(earlier, places, k, a, b, old, new);
                } else if k == m {
                    assert(m > 0 ==> places[m - 1] == earlier[m - 1]);
                    assert(old.subrange(from.0, a.len() as int) =~= same);
                    assert(new.subrange(from.1, b.len() as int) =~= b.subrange(
                        from.1,
                        b.len() as int,
                    ));
                    if m > 0 {
                        assert(changes.len() > 1);
                    }
                } else {
                    assert(old.subrange(old.len() as int, old.len() as int) =~= new.subrange(
                        new.len() as int,
                        new.len() as int,
                    ));
                }
            }
            assert forall|k: int| 0 <= k < n implies (#[trigger] places[k]).old_from
                < places[k].old_to || places[k].new_from < places[k].new_to by {
                if k < m {
                    assert(places[k] == earlier[k]);
                }
            }
        } else {
            assert(edits(changes).drop_last() =~= edits(passed).drop_last());
            assert(n == m);
            assert forall|k: int| 0 <= k < n - 1 implies #[trigger] places[k] == earlier[k] by {
                assert(edits(changes)[k] == edits(changes).drop_last()[k]);
            }
            assert(places[n - 1].old_from == earlier[n - 1].old_from);
            assert(places[n - 1].new_from == earlier[n - 1].new_from);
            assert forall|k: int| 0 <= k <= n implies #[trigger] gap_agrees(
                places,
                k,
                old,
                new,
            ) by {
                if k < n {
                    assert(gap_agrees(earlier, k, a, b));
                    assert(k > 0 ==> places[k - 1] == earlier[k - 1]);
                    lemma_gap_stays(earlier, places, k, a, b, old, new);
                } else {
                    assert(old.subrange(old.len() as int, old.len() as int) =~= new.subrange(
                        new.len() as int,
                        new.len() as int,
                    ));
                }
            }
            assert forall|k: int| 0 <= k < n implies (#[trigger] places[k]).old_from
                < places[k].old_to || places[k].new_from < places[k].new_to by {
                assert(earlier[k].old_from < earlier[k].old_to || earlier[k].new_from
                    < earlier[k].new_to);
            }
        }
    }
}

proof fn lemma_up_to_longer(
    lines: Seq<Seq<char>>,
    piece: Seq<char>,
    spans: Seq<Replaced>,
    more: Seq<Replaced>,
    k: int,
)
    requires
        in_order(spans, lines.len()),
        0 <= k <= spans.len(),
    ensures
        text_up_to(lines.push(piece), spans, k) == text_up_to(lines, spans, k),
        text_up_to(lines, spans + more, k) == text_up_to(lines, spans, k),
        end_of(spans + more, k) == end_of(spans, k),
        0 <= end_of(spans, k) <= lines.len(),
    decreases k,
{
    if k > 0 {
        lemma_up_to_longer(lines, piece, spans, more, k - 1);
        assert((spans + more)[k - 1] == spans[k - 1]);
        let from = end_of(spans, k - 1);
        let to = spans[k - 1].from;
        if k > 1 {
            assert(spans[k - 2].to <= spans[k - 1].from);
        }
        assert(lines.push(piece).subrange(from, to) =~= lines.subrange(from, to));
    }
}

/// One more line behind all replacements is one more line of the text.
proof fn lemma_one_more_line(lines: Seq<Seq<char>>, spans: Seq<Replaced>, piece: Seq<char>)
    requires
        in_order(spans, lines.len()),
    ensures
        text_with(lines.push(piece), spans) == text_with(lines, spans) + piece,
{
    let k = spans.len() as int;
    let n = lines.len() as int;
    lemma_up_to_longer(lines, piece, spans, Seq::empty(), k);
    let rest = lines.subrange(end_of(spans, k), n);
    assert(lines.push(piece).subrange(end_of(spans, k), n + 1) =~= rest.push(piece));
    assert(rest.push(piece).drop_last() =~= rest);
    assert(text_with(lines.push(piece), spans) =~= text_with(lines, spans) + piece);
}

/// The text of a file with a last replacement that reaches its end.
proof fn lemma_last_span(lines: Seq<Seq<char>>, spans: Seq<Replaced>, span: Replaced)
    requires
        in_order(spans.push(span), lines.len()),
        span.to == lines.len(),
    ensures
        ({
            let k = spans.len() as int;
            text_with(lines, spans.push(span)) == text_up_to(lines, spans, k) + concat(
                lines.subrange(end_of(spans, k), span.from),
            ) + span.text
        }),
{
    let k = spans.len() as int;
    let all = spans.push(span);
    lemma_front_in_order(spans, span, lines.len());
    lemma_up_to_longer(lines, Seq::empty(), spans, seq![span], k);
    assert(spans + seq![span] =~= all);
    assert(all[k] == span);
    assert(lines.subrange(span.to, lines.len() as int) =~= Seq::<Seq<char>>::empty());
    let head = text_up_to(lines, spans, k) + concat(lines.subrange(end_of(spans, k), span.from))
        + span.text;
    assert(head + Seq::<char>::empty() =~= head);
}

proof fn lemma_kept_in_order(all: Seq<EditView>, keep: Set<usize>, n: nat)
    requires
        forall|i: int|
            0 <= i < all.len() ==> 1 <= (#[trigger] all[i]).before_start && all[i].before_start - 1
                + all[i].before_length <= n,
        forall|i: int, j: int|
            0 <= i < j < all.len() ==> (#[trigger] all[i]).before_start + all[i].before_length <= (
            #[trigger] all[j]).before_start,
    ensures
        in_order(kept_spans(all, keep), n),
    decreases all.len(),
{
    if all.len() > 0 {
        let front = all.drop_last();
        let e = all[all.len() - 1];
        let m = (e.before_start - 1) as nat;
        assert forall|i: int| 0 <= i < front.len() implies 1 <= (#[trigger] front[i]).before_start
            && front[i].before_start - 1 + front[i].before_length <= m by {
            assert(all[i].before_start + all[i].before_length <= all[all.len() - 1].before_start);
        }
        assert forall|i: int, j: int| 0 <= i < j < front.len() implies (
        #[trigger] front[i]).before_start + front[i].before_length <= (
        #[trigger] front[j]).before_start by {
            assert(all[i].before_start + all[i].before_length <= all[j].before_start);
        }
        lemma_kept_in_order(front, keep, m);
    }
}

/// Keeping some hunks of a diff is replacing what they replace, and nothing else.
pub proof fn keeping_hunks_is_replacing_lines(
    changes: Seq<(ChangeTag, Seq<char>)>,
    keep: Set<usize>,
)
    requires
        change_lines(changes),
    ensures
        rebuilt(changes, keep) == text_with(
            pieces_without(changes, ChangeTag::Insert),
            kept_spans(edits(changes), keep),
        ),
    decreases changes.len(),
{
    let lines = pieces_without(changes, ChangeTag::Insert);
    let all = edits(changes);
    if changes.len() == 0 {
        assert(lines.subrange(0, 0) =~= Seq::<Seq<char>>::empty());
        assert(text_with(lines, Seq::empty()) =~= Seq::<char>::empty());
    } else {
        let passed = changes.drop_last();
        let (tag, value) = changes.last();
        let before = pieces_without(passed, ChangeTag::Insert);
        let earlier = edits(passed);
        lemma_front_lines(changes);
        keeping_hunks_is_replacing_lines(passed, keep);
        lemma_edits_placed(passed);
        lemma_edits_placed(changes);
        lemma_pieces(passed, ChangeTag::Insert);
        lemma_one_line(value);
        lemma_spans_in_order(passed, keep);
        lemma_spans_in_order(changes, keep);
        if changes.len() > 1 {
            assert(passed.last() == changes[changes.len() - 2]);
        }
        let kept = keep.contains((all.len() - 1) as usize);
        let spans = kept_spans(earlier, keep);
        if tag == ChangeTag::Equal {
            lemma_one_more_line(before, spans, value);
        } else if crate::diff::opens_hunk(changes) {
            assert(all.drop_last() =~= earlier);
            if kept {
                let span = edit_span(all.last());
                lemma_last_span(lines, spans, span);
                lemma_up_to_longer(before, value, spans, Seq::empty(), spans.len() as int);
                let end = end_of(spans, spans.len() as int);
                assert(lines.subrange(end, before.len() as int) =~= before.subrange(
                    end,
                    before.len() as int,
                ));
                assert(text_with(lines, spans.push(span)) == text_with(before, spans) + span.text);
                if tag == ChangeTag::Delete {
                    assert(span.text =~= Seq::<char>::empty());
                    assert(text_with(before, spans) + span.text =~= text_with(before, spans));
                } else {
                    assert(span.text =~= value);
                }
            } else if tag == ChangeTag::Delete {
                lemma_one_more_line(before, spans, value);
            }
        } else {
            let front = earlier.drop_last();
            assert(all.drop_last() =~= front);
            let first = kept_spans(front, keep);
            if kept {
                let open = edit_span(earlier.last());
                let span = edit_span(all.last());
                assert(spans == first.push(open));
                lemma_last_span(before, first, open);
                lemma_last_span(lines, first, span);
                let k = first.len() as int;
                assert(in_order(first, before.len())) by {
                    lemma_front_in_order(first, open, before.len());
                }
                lemma_up_to_longer(before, value, first, Seq::empty(), k);
                let end = end_of(first, k);
                assert(open.from == span.from);
                assert(lines.subrange(end, span.from) =~= before.subrange(end, span.from));
                let head = text_up_to(before, first, k) + concat(before.subrange(end, span.from));
                if tag == ChangeTag::Delete {
                    assert(span.text == open.text);
                } else {
                    assert(span.text == open.text + value);
                    assert(head + (open.text + value) =~= head + open.text + value);
                }
            } else {
                assert(spans == first);
                if tag == ChangeTag::Delete {
                    lemma_one_more_line(before, spans, value);
                }
            }
        }
    }
}

proof fn lemma_front_in_order(spans: Seq<Replaced>, span: Replaced, n: nat)
    requires
        in_order(spans.push(span), n),
    ensures
        in_order(spans, n),
        spans.len() > 0 ==> spans.last().to <= span.from,
{
    let all = spans.push(span);
    assert forall|i: int| 0 <= i < spans.len() implies 0 <= (#[trigger] spans[i]).from
        <= spans[i].to <= n by {
        assert(all[i] == spans[i]);
    }
    assert forall|i: int, j: int| 0 <= i < j < spans.len() implies (#[trigger] spans[i]).to <= (
    #[trigger] spans[j]).from by {
        assert(all[i].to <= all[j].from);
    }
    if spans.len() > 0 {
        assert(all[spans.len() - 1].to <= all[spans.len() as int].from);
    }
}

proof fn lemma_spans_in_order(changes: Seq<(ChangeTag, Seq<char>)>, keep: Set<usize>)
    requires
        change_lines(changes),
    ensures
        in_order(
            kept_spans(edits(changes), keep),
            pieces_without(changes, ChangeTag::Insert).len(),
        ),
{
    let all = edits(changes);
    let lines = pieces_without(changes, ChangeTag::Insert);
    lemma_edits_placed(changes);
    assert forall|i: int| 0 <= i < all.len() implies 1 <= (#[trigger] all[i]).before_start
        && all[i].before_start - 1 + all[i].before_length <= lines.len() by {
        assert(takes_out(lines, all[i]));
    }
    lemma_kept_in_order(all, keep, lines.len());
}

/// What the hunks at the positions `keep` replace.
pub open spec fn spans_kept(hunks: Seq<HunkView>, keep: Set<usize>) -> Seq<Replaced>
    decreases hunks.len(),
{
    if hunks.len() == 0 {
        Seq::empty()
    } else if keep.contains((hunks.len() - 1) as usize) {
        spans_kept(hunks.drop_last(), keep).push(hunk_span(hunks.last()))
    } else {
        spans_kept(hunks.drop_last(), keep)
    }
}

proof fn lemma_spans_agree(hunks: Seq<HunkView>, all: Seq<EditView>, keep: Set<usize>)
    requires
        hunks.len() == all.len(),
        forall|i: int| 0 <= i < all.len() ==> hunk_span(#[trigger] hunks[i]) == edit_span(all[i]),
    ensures
        spans_kept(hunks, keep) == kept_spans(all, keep),
    decreases all.len(),
{
    if all.len() > 0 {
        let front = hunks.drop_last();
        assert forall|i: int| 0 <= i < front.len() implies hunk_span(#[trigger] front[i])
            == edit_span(all.drop_last()[i]) by {
            assert(hunk_span(hunks[i]) == edit_span(all[i]));
        }
        lemma_spans_agree(front, all.drop_last(), keep);
        assert(hunk_span(hunks[hunks.len() - 1]) == edit_span(all[all.len() - 1]));
    }
}

/// A hunk of a diff is where its ranges say, on both sides.
pub(crate) proof fn lemma_hunk_in_place(
    path: Seq<char>,
    before: Seq<char>,
    changes: Seq<(ChangeTag, Seq<char>)>,
    i: int,
)
    requires
        change_lines(changes),
        lines_without(changes, ChangeTag::Insert) < usize::MAX,
        lines_without(changes, ChangeTag::Delete) < usize::MAX,
        0 <= i < edits(changes).len(),
    ensures
        ({
            let h = hunks_of(path, before, changes)[i];
            &&& in_place(
                pieces_without(changes, ChangeTag::Insert),
                pieces_without(changes, ChangeTag::Delete),
                h,
            )
            &&& hunk_span(h) == edit_span(edits(changes)[i])
            &&& hunk_place(h) == edit_place(edits(changes)[i])
        }),
{
    lemma_pieces(changes, ChangeTag::Insert);
    lemma_pieces(changes, ChangeTag::Delete);
    lemma_edits_placed(changes);
    lemma_edits_put(changes);
    assert(takes_out(pieces_without(changes, ChangeTag::Insert), edits(changes)[i]));
    assert(puts_in(pieces_without(changes, ChangeTag::Delete), edits(changes)[i]));
}

/// The hunks of a diff are all that differs: the lines outside them are the same
/// on both sides, at least one stands between each two, and no hunk is empty.
pub proof fn hunks_are_all_that_differs(
    path: Seq<char>,
    before: Seq<char>,
    changes: Seq<(ChangeTag, Seq<char>)>,
)
    requires
        change_lines(changes),
        lines_without(changes, ChangeTag::Insert) < usize::MAX,
        lines_without(changes, ChangeTag::Delete) < usize::MAX,
    ensures
        differ_there(
            hunk_places(hunks_of(path, before, changes)),
            pieces_without(changes, ChangeTag::Insert),
            pieces_without(changes, ChangeTag::Delete),
        ),
{
    let hunks = hunks_of(path, before, changes);
    lemma_edits_differ(changes);
    assert forall|i: int| 0 <= i < hunks.len() implies hunk_place(#[trigger] hunks[i])
        == edit_place(edits(changes)[i]) by {
        lemma_hunk_in_place(path, before, changes, i);
    }
    assert(hunk_places(hunks) =~= edit_places(edits(changes)));
}

/// Keeping some hunks of a diff puts what they put in in the place of the lines
/// that their ranges say, and changes nothing else.
pub proof fn keeping_hunks_replaces_their_lines(
    path: Seq<char>,
    before: Seq<char>,
    changes: Seq<(ChangeTag, Seq<char>)>,
    keep: Set<usize>,
)
    requires
        change_lines(changes),
        lines_without(changes, ChangeTag::Insert) < usize::MAX,
        lines_without(changes, ChangeTag::Delete) < usize::MAX,
    ensures
        rebuilt(changes, keep) == text_with(
            pieces_without(changes, ChangeTag::Insert),
            spans_kept(hunks_of(path, before, changes), keep),
        ),
{
    let hunks = hunks_of(path, before, changes);
    let all = edits(changes);
    assert forall|i: int| 0 <= i < all.len() implies hunk_span(#[trigger] hunks[i]) == edit_span(
        all[i],
    ) by {
        lemma_hunk_in_place(path, before, changes, i);
    }
    lemma_spans_agree(hunks, all, keep);
    keeping_hunks_is_replacing_lines(changes, keep);
}

/// The positions of the hunks that positions and ids name.
pub open spec fn positions_named(
    indices: Set<usize>,
    ids: Set<Seq<char>>,
    hunks: Seq<HunkView>,
) -> Set<usize> {
    Set::new(|i: usize| position_selected(indices, ids, hunks, i))
}

/// The hunks of a diff are changes to the text on its left side.
proof fn lemma_hunk_placed(path: Seq<char>, changes: Seq<(ChangeTag, Seq<char>)>, i: int)
    requires
        change_lines(changes),
        are_lines(pieces_without(changes, ChangeTag::Insert)),
        lines_without(changes, ChangeTag::Insert) < usize::MAX,
        0 <= i < edits(changes).len(),
    ensures
        ({
            let lines = pieces_without(changes, ChangeTag::Insert);
            let before = text_without(changes, ChangeTag::Insert);
            let h = hunks_of(path, before, changes)[i];
            &&& is_placed(lines, h)
            &&& hunk_span(h) == edit_span(edits(changes)[i])
            &&& h.index == i as usize
        }),
{
    let lines = pieces_without(changes, ChangeTag::Insert);
    lemma_pieces(changes, ChangeTag::Insert);
    lines_in_a_row_are_the_lines_of_the_text(lines);
    lemma_edits_placed(changes);
    assert(takes_out(lines, edits(changes)[i]));
}

proof fn lemma_one_more_span(lines: Seq<Seq<char>>, shown: Seq<HunkView>, h: HunkView)
    requires
        forall|i: int| 0 <= i < shown.len() ==> is_placed(lines, #[trigger] shown[i]),
        is_placed(lines, h),
    ensures
        hunk_spans(shown.push(h)) == hunk_spans(shown).push(hunk_span(h)),
        forall|i: int|
            0 <= i < shown.push(h).len() ==> is_placed(lines, #[trigger] shown.push(h)[i]),
{
    let more = shown.push(h);
    assert forall|i: int| 0 <= i < more.len() implies is_placed(lines, #[trigger] more[i]) by {
        if i < shown.len() {
            assert(is_placed(lines, shown[i]));
        }
    }
    assert(hunk_spans(more) =~= hunk_spans(shown).push(hunk_span(h)));
}

proof fn lemma_shown(
    path: Seq<char>,
    changes: Seq<(ChangeTag, Seq<char>)>,
    indices: Set<usize>,
    ids: Set<Seq<char>>,
    n: nat,
)
    requires
        change_lines(changes),
        are_lines(pieces_without(changes, ChangeTag::Insert)),
        lines_without(changes, ChangeTag::Insert) < usize::MAX,
        n <= edits(changes).len() <= usize::MAX,
    ensures
        ({
            let lines = pieces_without(changes, ChangeTag::Insert);
            let hunks = hunks_of(path, text_without(changes, ChangeTag::Insert), changes);
            let shown = kept_hunks(indices, ids, hunks, n);
            &&& hunk_spans(shown) == kept_spans(
                edits(changes).take(n as int),
                positions_named(indices, ids, hunks),
            )
            &&& forall|i: int| 0 <= i < shown.len() ==> is_placed(lines, #[trigger] shown[i])
        }),
    decreases n,
{
    let lines = pieces_without(changes, ChangeTag::Insert);
    let hunks = hunks_of(path, text_without(changes, ChangeTag::Insert), changes);
    let shown = kept_hunks(indices, ids, hunks, n);
    let all = edits(changes);
    let keep = positions_named(indices, ids, hunks);
    if n == 0 {
        assert(hunk_spans(shown) =~= Seq::<Replaced>::empty());
        assert(all.take(0) =~= Seq::<EditView>::empty());
    } else {
        lemma_shown(path, changes, indices, ids, (n - 1) as nat);
        let rest = kept_hunks(indices, ids, hunks, (n - 1) as nat);
        lemma_hunk_placed(path, changes, n - 1);
        assert(all.take(n as int).drop_last() =~= all.take(n - 1));
        assert(keep.contains((n - 1) as usize) == position_selected(
            indices,
            ids,
            hunks,
            hunks[n - 1].index,
        ));
        if keep.contains((n - 1) as usize) {
            lemma_one_more_span(lines, rest, hunks[n - 1]);
        }
    }
}

/// A patch that shows some hunks of a diff does what selecting them does: applied
/// to the text on the left side, it gives the text in which those hunks happen
/// and the others do not.
///
/// That holds of a diff whose lines are those between newlines, as they are where
/// every carriage return is followed by a newline (see
/// [`newlines_end_the_lines_of_a_diff`]).
pub proof fn a_patch_does_what_selecting_does(
    path: Seq<char>,
    changes: Seq<(ChangeTag, Seq<char>)>,
    indices: Set<usize>,
    ids: Set<Seq<char>>,
)
    requires
        change_lines(changes),
        are_lines(pieces_without(changes, ChangeTag::Insert)),
        lines_without(changes, ChangeTag::Insert) < usize::MAX,
        edits(changes).len() <= usize::MAX,
    ensures
        ({
            let before = text_without(changes, ChangeTag::Insert);
            let hunks = hunks_of(path, before, changes);
            let shown = kept_hunks(indices, ids, hunks, hunks.len());
            text_with(line_pieces(before), block_spans(shown)) == rebuilt(
                changes,
                positions_named(indices, ids, hunks),
            )
        }),
{
    let lines = pieces_without(changes, ChangeTag::Insert);
    let before = text_without(changes, ChangeTag::Insert);
    let hunks = hunks_of(path, before, changes);
    let shown = kept_hunks(indices, ids, hunks, hunks.len());
    let keep = positions_named(indices, ids, hunks);
    let all = edits(changes);
    lemma_pieces(changes, ChangeTag::Insert);
    lines_in_a_row_are_the_lines_of_the_text(lines);
    lemma_shown(path, changes, indices, ids, all.len());
    assert(all.take(all.len() as int) =~= all);
    lemma_spans_in_order(changes, keep);
    let spans = hunk_spans(shown);
    assert(are_placed(lines, shown)) by {
        reveal(are_placed);
        assert forall|i: int, j: int| 0 <= i < j < shown.len() implies lines_through(
            #[trigger] shown[i],
        ) <= lines_before(#[trigger] shown[j]) by {
            assert(spans[i].to <= spans[j].from);
        }
    }
    applying_a_patch_makes_its_hunks(lines, shown);
    keeping_hunks_is_replacing_lines(changes, keep);
}

} // verus!
