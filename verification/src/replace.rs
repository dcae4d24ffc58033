//! Putting rendered documentation into a buffer.
//!
//! Each site of an alias gets the alias's documentation, indented for the
//! column at which the site stands. All the replacements of one buffer are
//! then ordered by where they begin and applied from the last to the first, so
//! that no replacement moves the bytes that an earlier one still has to find.
//! Replacements whose ranges are not apart from each other are refused.

use crate::source::{apart, ByteRange};
use crate::text::{
    append_range, append_spaces, lemma_lines_are_single, lemma_lines_of_first,
    lemma_lines_of_single, lemma_spans_not_empty, lemma_spans_ordered, line_spans, lines_of,
    one_line, spaces, spans_view, split_lines, trimmed, NEWLINE, SPACE,
};
use vstd::prelude::*;

verus! {

/// Lines `k` and onward of an indented text: each line but the very first
/// stands behind a line feed and `column` spaces.
pub open spec fn indented_from(lines: Seq<Seq<u8>>, k: int, column: nat) -> Seq<u8>
    decreases lines.len() - k,
{
    if k < 0 || k >= lines.len() {
        Seq::empty()
    } else if k == 0 {
        lines[k] + indented_from(lines, k + 1, column)
    } else {
        seq![NEWLINE] + spaces(column) + lines[k] + indented_from(lines, k + 1, column)
    }
}

/// `doc` as it is spliced in at `column`. At column zero it is `doc` itself.
/// Elsewhere the first line stays as it is, since it lands at the site's own
/// column; every later line is indented by `column` spaces; and a line feed
/// and `column` spaces follow the last line, so that what stood after the site
/// stays at its column.
pub open spec fn reindented(doc: Seq<u8>, column: nat) -> Seq<u8> {
    if column == 0 {
        doc
    } else {
        indented_from(lines_of(doc), 0, column) + seq![NEWLINE] + spaces(column)
    }
}

/// What follows the first line of an indented text: lines `k` and onward,
/// and then the line feed and the spaces that end the text.
pub open spec fn tail_from(lines: Seq<Seq<u8>>, k: int, column: nat) -> Seq<u8> {
    indented_from(lines, k, column) + seq![NEWLINE] + spaces(column)
}

proof fn lemma_tail_lines(lines: Seq<Seq<u8>>, k: int, column: nat, x: Seq<u8>)
    requires
        column > 0,
        1 <= k <= lines.len(),
        forall|j: int| 0 <= j < lines.len() ==> one_line(#[trigger] lines[j]),
        one_line(x),
    ensures
        ({
            let got = lines_of(x + tail_from(lines, k, column));
            &&& got.len() == lines.len() - k + 2
            &&& got[0] == trimmed(x)
            &&& forall|j: int|
                k <= j < lines.len() ==> #[trigger] got[j - k + 1] == spaces(column) + trimmed(
                    lines[j],
                )
            &&& got[lines.len() - k + 1] == spaces(column)
        }),
    decreases lines.len() - k,
{
    let sp = spaces(column);
    if k < lines.len() {
        let head = sp + lines[k];
        let rest = head + tail_from(lines, k + 1, column);
        assert(one_line(head)) by {
            assert(one_line(lines[k]));
            assert forall|i: int| 0 <= i < head.len() implies head[i] != NEWLINE by {
                if i >= sp.len() {
                    assert(head[i] == lines[k][i - sp.len()]);
                }
            }
        }
        assert(x + tail_from(lines, k, column) == x + seq![NEWLINE] + rest) by {
            assert(indented_from(lines, k, column) == seq![NEWLINE] + sp + lines[k]
                + indented_from(lines, k + 1, column));
            assert(x + tail_from(lines, k, column) =~= x + seq![NEWLINE] + rest);
        }
        lemma_lines_of_first(x, rest);
        lemma_tail_lines(lines, k + 1, column, head);
        assert(trimmed(head) == sp + trimmed(lines[k])) by {
            if lines[k].len() > 0 {
                assert(head.last() == lines[k].last());
                assert(head.drop_last() =~= sp + lines[k].drop_last());
            } else {
                assert(head =~= sp);
                assert(head.last() == SPACE);
            }
            assert(trimmed(head) =~= sp + trimmed(lines[k]));
        }
        let got = lines_of(x + tail_from(lines, k, column));
        let inner = lines_of(rest);
        assert(got == seq![trimmed(x)] + inner);
        assert forall|j: int| k <= j < lines.len() implies #[trigger] got[j - k + 1] == sp
            + trimmed(lines[j]) by {
            assert(got[j - k + 1] == inner[j - k]);
            if j > k {
                assert(inner[j - (k + 1) + 1] == sp + trimmed(lines[j]));
            }
        }
        assert(got[lines.len() - k + 1] == inner[lines.len() - (k + 1) + 1]);
    } else {
        assert(indented_from(lines, k, column) == Seq::<u8>::empty());
        assert(x + tail_from(lines, k, column) =~= x + seq![NEWLINE] + sp);
        lemma_lines_of_first(x, sp);
        lemma_lines_of_single(sp);
    }
}

/// The lines of an indented text. Where documentation is indented for a
/// column other than zero, the text has one line more than the
/// documentation. Its first line is that of the documentation. Each later
/// line of the documentation stands behind exactly `column` spaces. The last
/// line is `column` spaces and nothing else, so that what follows the text
/// stands at the column. (A line never ends in a carriage return that stood
/// before its line feed.)
pub proof fn lemma_reindented_lines(doc: Seq<u8>, column: nat)
    requires
        column > 0,
        doc.len() > 0,
    ensures
        ({
            let before = lines_of(doc);
            let after = lines_of(reindented(doc, column));
            &&& before.len() > 0
            &&& after.len() == before.len() + 1
            &&& after[0] == trimmed(before[0])
            &&& forall|i: int|
                1 <= i < before.len() ==> #[trigger] after[i] == spaces(column) + trimmed(
                    before[i],
                )
            &&& after[before.len() as int] == spaces(column)
        }),
{
    let before = lines_of(doc);
    lemma_spans_not_empty(doc, 0, 0);
    lemma_lines_are_single(doc);
    lemma_tail_lines(before, 1, column, before[0]);
    assert(reindented(doc, column) =~= before[0] + tail_from(before, 1, column));
    let after = lines_of(reindented(doc, column));
    assert forall|i: int| 1 <= i < before.len() implies #[trigger] after[i] == spaces(column)
        + trimmed(before[i]) by {
        assert(after[i - 1 + 1] == spaces(column) + trimmed(before[i]));
    }
}

/// Indents `doc` for a site at `column`.
pub fn reindent(doc: &[u8], column: usize) -> (out: Vec<u8>)
    ensures
        out@ == reindented(doc@, column as nat),
{
    let mut out: Vec<u8> = Vec::new();
    if column == 0 {
        append_range(&mut out, doc, 0, doc.len());
        assert(doc@.subrange(0, doc@.len() as int) == doc@);
        return out;
    }
    let lines = split_lines(doc);
    proof {
        lemma_spans_ordered(doc@, 0, 0);
    }
    let ghost all = lines_of(doc@);
    let mut k: usize = 0;
    while k < lines.len()
        invariant
            k <= lines.len(),
            spans_view(lines@) == line_spans(doc@),
            all == lines_of(doc@),
            forall|j: int|
                0 <= j < line_spans(doc@).len() ==> {
                    let sp = #[trigger] line_spans(doc@)[j];
                    0 <= sp.0 <= sp.1 <= doc@.len()
                },
            out@ + indented_from(all, k as int, column as nat) == indented_from(
                all,
                0,
                column as nat,
            ),
        decreases lines.len() - k,
    {
        let span = lines[k];
        proof {
            assert(spans_view(lines@)[k as int] == (span.start as int, span.end as int));
            assert(line_spans(doc@)[k as int] == (span.start as int, span.end as int));
            assert(all[k as int] == doc@.subrange(span.start as int, span.end as int));
        }
        let ghost before = out@;
        if k > 0 {
            out.push(NEWLINE);
            append_spaces(&mut out, column);
        }
        append_range(&mut out, doc, span.start, span.end);
        proof {
            let rest = indented_from(all, k + 1, column as nat);
            if k > 0 {
                assert(out@ == before + (seq![NEWLINE] + spaces(column as nat) + all[k as int]));
                assert(out@ + rest == before + (seq![NEWLINE] + spaces(column as nat)
                    + all[k as int] + rest));
            } else {
                assert(out@ + rest == before + (all[k as int] + rest));
            }
        }
        k = k + 1;
    }
    assert(out@ == indented_from(all, 0, column as nat)) by {
        assert(indented_from(all, k as int, column as nat) == Seq::<u8>::empty());
    }
    out.push(NEWLINE);
    append_spaces(&mut out, column);
    out
}

/// A text to put in place of a range of the buffer.
#[derive(Debug)]
pub struct Replacement {
    pub range: ByteRange,
    pub text: Vec<u8>,
}

/// What a [`Replacement`] stands for.
pub struct Edit {
    pub range: ByteRange,
    pub text: Seq<u8>,
}

impl View for Replacement {
    type V = Edit;

    open spec fn view(&self) -> Edit {
        Edit { range: self.range, text: self.text@ }
    }
}

impl DeepView for Replacement {
    type V = Edit;

    open spec fn deep_view(&self) -> Edit {
        self@
    }
}

/// Why a set of replacements was not applied.
#[derive(Clone, Copy, Debug, PartialEq, Eq, Structural)]
pub enum SpliceError {
    /// A range ends before it begins, or after the end of the buffer.
    OutOfBounds,
    /// Two ranges claim the same bytes, or one begins inside the other.
    Overlap,
}

/// Range `a` does not come after range `b`: it begins earlier or, where
/// both begin at one offset, ends no later.
pub open spec fn not_later(a: ByteRange, b: ByteRange) -> bool {
    a.start < b.start || (a.start == b.start && a.end <= b.end)
}

/// Replacement `i` is applied to a part of the buffer before that of `j`: it
/// begins earlier; or, where both begin at one offset, it ends earlier; or,
/// where both have one range, it was found earlier.
pub open spec fn begins_before(reps: Seq<Edit>, i: int, j: int) -> bool {
    not_later(reps[i].range, reps[j].range) && (reps[i].range == reps[j].range ==> i < j)
}

/// Every range is well formed and lies inside a buffer of `len` bytes.
pub open spec fn in_bounds(reps: Seq<Edit>, len: nat) -> bool {
    forall|i: int|
        0 <= i < reps.len() ==> (#[trigger] reps[i]).range.start <= reps[i].range.end <= len
}

/// Every two replacements are apart: their ranges share no byte, and
/// neither begins inside the other.
pub open spec fn disjoint(reps: Seq<Edit>) -> bool {
    forall|i: int, j: int|
        0 <= i < reps.len() && 0 <= j < reps.len() && i != j ==> apart(
            (#[trigger] reps[i]).range,
            (#[trigger] reps[j]).range,
        )
}

/// Of two replacements that are apart, the one that is applied to the
/// earlier part of the buffer ends where the other begins, or before.
pub proof fn lemma_apart_in_order(reps: Seq<Edit>, i: int, j: int)
    requires
        reps[i].range.start <= reps[i].range.end,
        reps[j].range.start <= reps[j].range.end,
        begins_before(reps, i, j),
        apart(reps[i].range, reps[j].range),
    ensures
        reps[i].range.end <= reps[j].range.start,
{
}

/// Replacement `i` stands somewhere in `order`.
pub open spec fn listed(order: Seq<usize>, i: int) -> bool {
    exists|a: int| 0 <= a < order.len() && #[trigger] order[a] == i
}

/// `order` lists every replacement once, by ascending start; those of one
/// start by ascending end, so that an insertion comes before a replacement
/// at its offset; and those of one range in the order in which they were
/// found.
pub open spec fn is_splice_order(reps: Seq<Edit>, order: Seq<usize>) -> bool {
    &&& order.len() == reps.len()
    &&& forall|a: int| 0 <= a < order.len() ==> (#[trigger] order[a]) < reps.len()
    &&& forall|a: int, b: int|
        0 <= a < b < order.len() ==> begins_before(
            reps,
            (#[trigger] order[a]) as int,
            (#[trigger] order[b]) as int,
        )
    &&& forall|i: int| 0 <= i < reps.len() ==> #[trigger] listed(order, i)
}

proof fn lemma_order_prefix_unique(
    reps: Seq<Edit>,
    o1: Seq<usize>,
    o2: Seq<usize>,
    upto: int,
)
    requires
        is_splice_order(reps, o1),
        is_splice_order(reps, o2),
        0 <= upto <= reps.len(),
    ensures
        forall|k: int| 0 <= k < upto ==> o1[k] == o2[k],
    decreases upto,
{
    if upto > 0 {
        lemma_order_prefix_unique(reps, o1, o2, upto - 1);
        let a = upto - 1;
        let x = o1[a];
        let y = o2[a];
        if x != y {
            assert(listed(o2, x as int));
            let b = choose|b: int| 0 <= b < o2.len() && o2[b] == x as int;
            assert(listed(o1, y as int));
            let c = choose|c: int| 0 <= c < o1.len() && o1[c] == y as int;
            if b < a {
                assert(begins_before(reps, o1[b] as int, o1[a] as int));
            } else if c < a {
                assert(begins_before(reps, o2[c] as int, o2[a] as int));
            } else {
                assert(begins_before(reps, o2[a] as int, o2[b] as int));
                assert(begins_before(reps, o1[a] as int, o1[c] as int));
            }
        }
    }
}

/// There is one order in which a set of replacements is applied.
pub proof fn lemma_splice_order_unique(reps: Seq<Edit>, o1: Seq<usize>, o2: Seq<usize>)
    requires
        is_splice_order(reps, o1),
        is_splice_order(reps, o2),
    ensures
        o1 == o2,
{
    lemma_order_prefix_unique(reps, o1, o2, reps.len() as int);
    assert(o1 =~= o2);
}

/// The order in which `reps` are applied.
pub open spec fn splice_order(reps: Seq<Edit>) -> Seq<usize> {
    choose|order: Seq<usize>| is_splice_order(reps, order)
}

/// Whether range `a` comes after range `b`.
fn comes_later(a: ByteRange, b: ByteRange) -> (later: bool)
    ensures
        later == !not_later(a, b),
{
    a.start > b.start || (a.start == b.start && a.end > b.end)
}

/// Orders the replacements by where they begin, those that begin at one
/// offset by where they end, and those of one range as they were found.
pub fn sort_replacements(reps: &Vec<Replacement>) -> (order: Vec<usize>)
    ensures
        is_splice_order(reps.deep_view(), order@),
        order@ == splice_order(reps.deep_view()),
{
    let ghost edits = reps.deep_view();
    let mut order: Vec<usize> = Vec::new();
    let mut i: usize = 0;
    while i < reps.len()
        invariant
            i <= reps.len(),
            edits == reps.deep_view(),
            order.len() == i,
            forall|a: int| 0 <= a < order.len() ==> (#[trigger] order[a]) < i,
            forall|a: int, b: int|
                0 <= a < b < order.len() ==> begins_before(
                    edits,
                    (#[trigger] order[a]) as int,
                    (#[trigger] order[b]) as int,
                ),
            forall|j: int| 0 <= j < i ==> #[trigger] listed(order@, j),
        decreases reps.len() - i,
    {
        let key: ByteRange = reps[i].range;
        let mut p: usize = order.len();
        while p > 0 && comes_later(reps[order[p - 1]].range, key)
            invariant
                p <= order.len(),
                order.len() == i,
                i < reps.len(),
                edits == reps.deep_view(),
                key == edits[i as int].range,
                forall|a: int| 0 <= a < order.len() ==> (#[trigger] order[a]) < i,
                forall|q: int|
                    p <= q < order.len() ==> !not_later(
                        edits[(#[trigger] order[q]) as int].range,
                        key,
                    ),
            decreases p,
        {
            p = p - 1;
        }
        let ghost old_order = order@;
        order.insert(p, i);
        proof {
            let new_order = order@;
            assert(new_order == old_order.insert(p as int, i));
            assert forall|a: int| 0 <= a < new_order.len() implies (#[trigger] new_order[a]) < i
                + 1 by {
                if a < p {
                    assert(new_order[a] == old_order[a]);
                } else if a > p {
                    assert(new_order[a] == old_order[a - 1]);
                }
            }
            assert forall|q: int| 0 <= q < p implies not_later(
                edits[(#[trigger] old_order[q]) as int].range,
                key,
            ) by {
                if q < p - 1 {
                    assert(begins_before(edits, old_order[q] as int, old_order[p - 1] as int));
                }
            }
            assert forall|a: int, b: int| 0 <= a < b < new_order.len() implies begins_before(
                edits,
                (#[trigger] new_order[a]) as int,
                (#[trigger] new_order[b]) as int,
            ) by {
                let ia = if a < p { a } else { a - 1 };
                let ib = if b < p { b } else { b - 1 };
                if a != p {
                    assert(new_order[a] == old_order[ia]);
                }
                if b != p {
                    assert(new_order[b] == old_order[ib]);
                }
                if a != p && b != p {
                    assert(begins_before(edits, old_order[ia] as int, old_order[ib] as int));
                }
            }
            assert forall|j: int| 0 <= j < i + 1 implies #[trigger] listed(new_order, j) by {
                if j == i {
                    assert(new_order[p as int] == j);
                } else {
                    assert(listed(old_order, j));
                    let k = choose|k: int| 0 <= k < old_order.len() && old_order[k] == j;
                    if k < p {
                        assert(new_order[k] == j);
                    } else {
                        assert(new_order[k + 1] == j);
                    }
                }
            }
        }
        i = i + 1;
    }
    proof {
        assert(is_splice_order(edits, order@));
        lemma_splice_order_unique(edits, order@, splice_order(edits));
    }
    order
}

/// What becomes of `buf` from `pos` on, once the replacements `order[k..]` are
/// in place: the bytes up to the next range, the text that replaces the range,
/// and so on from the end of that range.
pub open spec fn composed_from(
    buf: Seq<u8>,
    reps: Seq<Edit>,
    order: Seq<usize>,
    k: int,
    pos: int,
) -> Seq<u8>
    decreases order.len() - k,
{
    if k < 0 || k >= order.len() {
        buf.subrange(pos, buf.len() as int)
    } else {
        let r = reps[order[k] as int];
        buf.subrange(pos, r.range.start as int) + r.text + composed_from(
            buf,
            reps,
            order,
            k + 1,
            r.range.end as int,
        )
    }
}

/// `buf` with every replacement in place.
pub open spec fn spliced(buf: Seq<u8>, reps: Seq<Edit>) -> Seq<u8> {
    composed_from(buf, reps, splice_order(reps), 0, 0)
}

/// The replacement at place `b` of `order` begins where the one before it
/// ends, or later.
pub open spec fn follows(reps: Seq<Edit>, order: Seq<usize>, b: int) -> bool {
    reps[order[b - 1] as int].range.end <= reps[order[b] as int].range.start
}

/// Each of the first `upto` replacements in `order` ends where the next
/// begins, or before.
pub open spec fn neighbours_apart(reps: Seq<Edit>, order: Seq<usize>, upto: int) -> bool {
    forall|b: int| 1 <= b < upto ==> #[trigger] follows(reps, order, b)
}

proof fn lemma_starts_ascend(reps: Seq<Edit>, order: Seq<usize>, a: int, b: int)
    requires
        is_splice_order(reps, order),
        0 <= a <= b < order.len(),
    ensures
        reps[order[a] as int].range.start <= reps[order[b] as int].range.start,
{
    if a < b {
        assert(begins_before(reps, order[a] as int, order[b] as int));
    }
}

proof fn lemma_neighbours_apart_is_disjoint(reps: Seq<Edit>, order: Seq<usize>)
    requires
        is_splice_order(reps, order),
        neighbours_apart(reps, order, order.len() as int),
    ensures
        disjoint(reps),
{
    assert forall|i: int, j: int|
        0 <= i < reps.len() && 0 <= j < reps.len() && i != j implies apart(
        (#[trigger] reps[i]).range,
        (#[trigger] reps[j]).range,
    ) by {
        assert(listed(order, i));
        assert(listed(order, j));
        let a = choose|a: int| 0 <= a < order.len() && order[a] == i;
        let b = choose|b: int| 0 <= b < order.len() && order[b] == j;
        if a < b {
            assert(follows(reps, order, a + 1));
            lemma_starts_ascend(reps, order, a + 1, b);
        } else {
            assert(follows(reps, order, b + 1));
            lemma_starts_ascend(reps, order, b + 1, a);
        }
    }
}

proof fn lemma_composed_split(
    buf: Seq<u8>,
    reps: Seq<Edit>,
    order: Seq<usize>,
    k: int,
    pos: int,
    low: int,
)
    requires
        0 <= pos <= low <= buf.len(),
        0 <= k,
        k < order.len() ==> low <= reps[order[k] as int].range.start <= buf.len(),
    ensures
        composed_from(buf, reps, order, k, pos) == buf.subrange(pos, low) + composed_from(
            buf,
            reps,
            order,
            k,
            low,
        ),
{
    if k >= order.len() {
        assert(buf.subrange(pos, buf.len() as int) == buf.subrange(pos, low) + buf.subrange(
            low,
            buf.len() as int,
        ));
    } else {
        let r = reps[order[k] as int];
        let rest = composed_from(buf, reps, order, k + 1, r.range.end as int);
        assert(buf.subrange(pos, r.range.start as int) == buf.subrange(pos, low) + buf.subrange(
            low,
            r.range.start as int,
        ));
        assert(buf.subrange(pos, r.range.start as int) + r.text + rest == buf.subrange(pos, low)
            + (buf.subrange(low, r.range.start as int) + r.text + rest));
    }
}

/// `buf` with `text` in place of its bytes `[start, end)`.
pub open spec fn replaced(buf: Seq<u8>, start: int, end: int, text: Seq<u8>) -> Seq<u8> {
    buf.subrange(0, start) + text + buf.subrange(end, buf.len() as int)
}

/// A text that is put once more in the place that it took changes nothing.
pub proof fn lemma_replacing_again_changes_nothing(
    buf: Seq<u8>,
    start: int,
    end: int,
    text: Seq<u8>,
)
    requires
        0 <= start <= end <= buf.len(),
    ensures
        replaced(replaced(buf, start, end, text), start, start + text.len(), text) == replaced(
            buf,
            start,
            end,
            text,
        ),
{
    let once = replaced(buf, start, end, text);
    assert(once.subrange(0, start) == buf.subrange(0, start));
    assert(once.subrange(start + text.len(), once.len() as int) == buf.subrange(
        end,
        buf.len() as int,
    ));
}

proof fn lemma_same_text_from(
    buf: Seq<u8>,
    edits: Seq<Edit>,
    order: Seq<usize>,
    k: int,
    pos: int,
)
    requires
        in_bounds(edits, buf.len()),
        disjoint(edits),
        is_splice_order(edits, order),
        forall|i: int|
            0 <= i < edits.len() ==> (#[trigger] edits[i]).text == buf.subrange(
                edits[i].range.start as int,
                edits[i].range.end as int,
            ),
        0 <= k <= order.len(),
        0 <= pos <= buf.len(),
        k < order.len() ==> pos <= edits[order[k] as int].range.start,
    ensures
        composed_from(buf, edits, order, k, pos) == buf.subrange(pos, buf.len() as int),
    decreases order.len() - k,
{
    if k < order.len() {
        let r = edits[order[k] as int];
        let s = r.range.start as int;
        let e = r.range.end as int;
        if k + 1 < order.len() {
            assert(begins_before(edits, order[k] as int, order[k + 1] as int));
            lemma_apart_in_order(edits, order[k] as int, order[k + 1] as int);
        }
        lemma_same_text_from(buf, edits, order, k + 1, e);
        assert(buf.subrange(pos, s) + buf.subrange(s, e) + buf.subrange(e, buf.len() as int)
            == buf.subrange(pos, buf.len() as int));
    }
}

/// Where every range already holds the text that is to take its place, the
/// buffer stays as it is.
pub proof fn lemma_same_text_changes_nothing(buf: Seq<u8>, edits: Seq<Edit>, order: Seq<usize>)
    requires
        in_bounds(edits, buf.len()),
        disjoint(edits),
        is_splice_order(edits, order),
        forall|i: int|
            0 <= i < edits.len() ==> (#[trigger] edits[i]).text == buf.subrange(
                edits[i].range.start as int,
                edits[i].range.end as int,
            ),
    ensures
        spliced(buf, edits) == buf,
{
    lemma_splice_order_unique(edits, order, splice_order(edits));
    lemma_same_text_from(buf, edits, order, 0, 0);
    assert(buf.subrange(0, buf.len() as int) == buf);
}

/// Puts `text` in place of the bytes `range` of `buffer`.
pub fn replace_range(buffer: &mut Vec<u8>, range: ByteRange, text: &[u8])
    requires
        range.start <= range.end <= old(buffer)@.len(),
    ensures
        final(buffer)@ == replaced(old(buffer)@, range.start as int, range.end as int, text@),
{
    let mut out: Vec<u8> = Vec::new();
    append_range(&mut out, buffer.as_slice(), 0, range.start);
    append_range(&mut out, text, 0, text.len());
    append_range(&mut out, buffer.as_slice(), range.end, buffer.len());
    assert(text@.subrange(0, text@.len() as int) == text@);
    *buffer = out;
}

/// Applies the replacements to `buffer`, the last one first. Nothing is
/// changed where a range is out of bounds or two of them are in conflict.
pub fn apply_replacements(buffer: &mut Vec<u8>, reps: &Vec<Replacement>) -> (done: Result<
    (),
    SpliceError,
>)
    ensures
        match done {
            Ok(()) => {
                &&& in_bounds(reps.deep_view(), old(buffer)@.len())
                &&& disjoint(reps.deep_view())
                &&& final(buffer)@ == spliced(old(buffer)@, reps.deep_view())
            },
            Err(SpliceError::OutOfBounds) => {
                &&& !in_bounds(reps.deep_view(), old(buffer)@.len())
                &&& final(buffer)@ == old(buffer)@
            },
            Err(SpliceError::Overlap) => {
                &&& in_bounds(reps.deep_view(), old(buffer)@.len())
                &&& !disjoint(reps.deep_view())
                &&& final(buffer)@ == old(buffer)@
            },
        },
{
    let ghost initial = buffer@;
    let ghost edits = reps.deep_view();
    let len: usize = buffer.len();
    let mut i: usize = 0;
    while i < reps.len()
        invariant
            i <= reps.len(),
            buffer@ == initial,
            len == initial.len(),
            edits == reps.deep_view(),
            forall|j: int|
                0 <= j < i ==> (#[trigger] edits[j]).range.start <= edits[j].range.end <= len,
        decreases reps.len() - i,
    {
        if reps[i].range.start > reps[i].range.end || reps[i].range.end > len {
            assert(!(edits[i as int].range.start <= edits[i as int].range.end <= len));
            return Err(SpliceError::OutOfBounds);
        }
        i = i + 1;
    }
    let order = sort_replacements(reps);
    let mut a: usize = 1;
    while a < order.len()
        invariant
            1 <= a,
            buffer@ == initial,
            edits == reps.deep_view(),
            in_bounds(edits, initial.len()),
            is_splice_order(edits, order@),
            neighbours_apart(edits, order@, a as int),
        decreases order.len() - a,
    {
        if reps[order[a - 1]].range.end > reps[order[a]].range.start {
            proof {
                assert(begins_before(edits, order@[a - 1] as int, order@[a as int] as int));
            }
            return Err(SpliceError::Overlap);
        }
        assert(follows(edits, order@, a as int));
        a = a + 1;
    }
    proof {
        lemma_neighbours_apart_is_disjoint(edits, order@);
    }
    let mut k: usize = order.len();
    while k > 0
        invariant
            k <= order.len(),
            edits == reps.deep_view(),
            is_splice_order(edits, order@),
            in_bounds(edits, initial.len()),
            neighbours_apart(edits, order@, order.len() as int),
            ({
                let low = if k < order.len() {
                    edits[order@[k as int] as int].range.start as int
                } else {
                    initial.len() as int
                };
                buffer@ == initial.subrange(0, low) + composed_from(
                    initial,
                    edits,
                    order@,
                    k as int,
                    low,
                )
            }),
        decreases k,
    {
        let ghost low = if k < order.len() {
            edits[order@[k as int] as int].range.start as int
        } else {
            initial.len() as int
        };
        let ghost current = buffer@;
        k = k - 1;
        let r = &reps[order[k]];
        let ghost s = r.range.start as int;
        let ghost e = r.range.end as int;
        proof {
            assert(edits[order@[k as int] as int] == r@);
            assert(e <= low) by {
                if k + 1 < order.len() {
                    assert(follows(edits, order@, k + 1));
                }
            }
            lemma_composed_split(initial, edits, order@, k + 1, e, low);
        }
        replace_range(buffer, r.range, r.text.as_slice());
        proof {
            let tail = composed_from(initial, edits, order@, k + 1, low);
            let here = composed_from(initial, edits, order@, k as int, s);
            assert(current == initial.subrange(0, low) + tail);
            assert(current.subrange(0, s) == initial.subrange(0, s));
            assert(current.subrange(e, current.len() as int) == initial.subrange(e, low) + tail);
            assert(here == initial.subrange(s, s) + r.text@ + composed_from(
                initial,
                edits,
                order@,
                k + 1,
                e,
            ));
            assert(buffer@ == initial.subrange(0, s) + here);
        }
    }
    proof {
        if order.len() > 0 {
            let s0 = edits[order@[0] as int].range.start as int;
            lemma_composed_split(initial, edits, order@, 0, 0, s0);
        } else {
            assert(initial.subrange(0, initial.len() as int) == initial);
        }
    }
    Ok(())
}

} // verus!
