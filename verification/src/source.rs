//! From a line and a column to a byte offset.
//!
//! A position names a line, counted from one, and a column, counted from zero
//! in characters. A character begins at every byte that is not a UTF-8
//! continuation byte, so a column is found without decoding the text.

use crate::text::{
    ends_at_terminator, lemma_spans_end_at_terminator, lemma_spans_ordered, line_spans,
    spans_view, split_lines, LineSpan,
};
use vstd::prelude::*;
use vstd::utf8::{
    is_char_boundary, is_char_boundary_iff_not_is_continuation_byte,
    is_char_boundary_start_end_of_seq, valid_utf8,
};

verus! {

/// A line, counted from one, and a column, counted from zero in characters.
#[derive(Clone, Copy, Debug, PartialEq, Eq, Structural)]
pub struct LineColumn {
    pub line: usize,
    pub column: usize,
}

/// The positions at which a stretch of source begins and ends.
#[derive(Clone, Copy, Debug, PartialEq, Eq, Structural)]
pub struct Span {
    pub start: LineColumn,
    pub end: LineColumn,
}

/// The bytes `[start, end)` of a buffer.
#[derive(Clone, Copy, Debug, PartialEq, Eq, Structural)]
pub struct ByteRange {
    pub start: usize,
    pub end: usize,
}

/// Two ranges share no byte, and neither begins inside the other.
pub open spec fn apart(a: ByteRange, b: ByteRange) -> bool {
    a.end <= b.start || b.end <= a.start
}

/// Whether a character begins at a byte of this value.
pub open spec fn is_char_start(b: u8) -> bool {
    b < 0x80 || b >= 0xC0
}

/// The offset at which character `n` of `line` begins, counting only the
/// characters that begin at `from` or later; the length of the line where it
/// has no such character.
pub open spec fn char_offset_from(line: Seq<u8>, from: int, n: int) -> int
    decreases line.len() - from,
{
    if from < 0 || from >= line.len() {
        line.len() as int
    } else if is_char_start(line[from]) {
        if n <= 0 {
            from
        } else {
            char_offset_from(line, from + 1, n - 1)
        }
    } else {
        char_offset_from(line, from + 1, n)
    }
}

/// The offset at which character `n` of `line` begins, or the length of the
/// line where it has `n` characters or fewer.
pub open spec fn char_offset(line: Seq<u8>, n: int) -> int {
    char_offset_from(line, 0, n)
}

/// The byte offset of `pos` in `text`: nothing where `text` has no such line,
/// the end of the line where the line has no such column.
pub open spec fn position_of(text: Seq<u8>, pos: LineColumn) -> Option<int> {
    let spans = line_spans(text);
    if 1 <= pos.line <= spans.len() {
        let sp = spans[pos.line - 1];
        Some(sp.0 + char_offset(text.subrange(sp.0, sp.1), pos.column as int))
    } else {
        None
    }
}

/// The byte range of `span` in `text`: nothing where either end has no line.
pub open spec fn range_of(text: Seq<u8>, span: Span) -> Option<(int, int)> {
    match (position_of(text, span.start), position_of(text, span.end)) {
        (Some(start), Some(end)) => Some((start, end)),
        _ => None,
    }
}

/// `a` is not after `b`.
pub open spec fn not_after(a: LineColumn, b: LineColumn) -> bool {
    a.line < b.line || (a.line == b.line && a.column <= b.column)
}

pub proof fn lemma_char_offset_bounds(line: Seq<u8>, from: int, n: int)
    requires
        0 <= from <= line.len(),
    ensures
        from <= char_offset_from(line, from, n) <= line.len(),
    decreases line.len() - from,
{
    if from < line.len() {
        if is_char_start(line[from]) {
            if n > 0 {
                lemma_char_offset_bounds(line, from + 1, n - 1);
            }
        } else {
            lemma_char_offset_bounds(line, from + 1, n);
        }
    }
}

pub proof fn lemma_char_offset_monotonic(line: Seq<u8>, from: int, n: int, m: int)
    requires
        0 <= from <= line.len(),
        n <= m,
    ensures
        char_offset_from(line, from, n) <= char_offset_from(line, from, m),
    decreases line.len() - from,
{
    if from < line.len() {
        if is_char_start(line[from]) {
            if n > 0 {
                lemma_char_offset_monotonic(line, from + 1, n - 1, m - 1);
            } else if m > 0 {
                lemma_char_offset_bounds(line, from + 1, m - 1);
            }
        } else {
            lemma_char_offset_monotonic(line, from + 1, n, m);
        }
    }
}

proof fn lemma_char_offset_is_a_start(line: Seq<u8>, from: int, n: int)
    requires
        0 <= from <= line.len(),
    ensures
        char_offset_from(line, from, n) < line.len() ==> is_char_start(
            line[char_offset_from(line, from, n)],
        ),
    decreases line.len() - from,
{
    if from < line.len() {
        if is_char_start(line[from]) {
            if n > 0 {
                lemma_char_offset_is_a_start(line, from + 1, n - 1);
            }
        } else {
            lemma_char_offset_is_a_start(line, from + 1, n);
        }
    }
}

/// In a text that is valid UTF-8, a position that resolves falls between two
/// characters, never inside one.
pub proof fn lemma_position_is_char_boundary(text: Seq<u8>, pos: LineColumn)
    requires
        valid_utf8(text),
    ensures
        position_of(text, pos) matches Some(p) ==> is_char_boundary(text, p),
{
    if position_of(text, pos) is Some {
        let p = position_of(text, pos)->0;
        let sp = line_spans(text)[pos.line - 1];
        let line = text.subrange(sp.0, sp.1);
        lemma_position_in_bounds(text, pos);
        lemma_spans_ordered(text, 0, 0);
        lemma_spans_end_at_terminator(text, 0, 0);
        is_char_boundary_start_end_of_seq(text);
        if p < text.len() {
            if p < sp.1 {
                lemma_char_offset_is_a_start(line, 0, pos.column as int);
                assert(line[p - sp.0] == text[p]);
            } else {
                assert(ends_at_terminator(text, sp));
            }
            is_char_boundary_iff_not_is_continuation_byte(text, p);
        }
    }
}

/// A position that resolves lies on its line, and so inside the text.
pub proof fn lemma_position_in_bounds(text: Seq<u8>, pos: LineColumn)
    ensures
        position_of(text, pos) matches Some(p) ==> {
            let sp = line_spans(text)[pos.line - 1];
            0 <= sp.0 <= p <= sp.1 <= text.len()
        },
{
    let spans = line_spans(text);
    if 1 <= pos.line <= spans.len() {
        lemma_spans_ordered(text, 0, 0);
        let sp = spans[pos.line - 1];
        lemma_char_offset_bounds(text.subrange(sp.0, sp.1), 0, pos.column as int);
    }
}

/// Positions keep their order: of two that resolve, the one that is not after
/// the other in the source is not after it in the buffer.
pub proof fn lemma_position_monotonic(text: Seq<u8>, a: LineColumn, b: LineColumn)
    requires
        not_after(a, b),
    ensures
        position_of(text, a) is Some && position_of(text, b) is Some ==> position_of(text, a)->0
            <= position_of(text, b)->0,
{
    if position_of(text, a) is Some && position_of(text, b) is Some {
        let spans = line_spans(text);
        lemma_spans_ordered(text, 0, 0);
        lemma_position_in_bounds(text, a);
        lemma_position_in_bounds(text, b);
        if a.line == b.line {
            let sp = spans[a.line - 1];
            lemma_char_offset_monotonic(
                text.subrange(sp.0, sp.1),
                0,
                a.column as int,
                b.column as int,
            );
        } else {
            assert(spans[a.line - 1].1 < spans[b.line - 1].0);
        }
    }
}

/// A text with its lines found once, so that positions resolve quickly.
pub struct Source<'s> {
    full: &'s [u8],
    lines: Vec<LineSpan>,
}

impl<'s> Source<'s> {
    #[verifier::type_invariant]
    spec fn lines_are_found(self) -> bool {
        spans_view(self.lines@) == line_spans(self.full@)
    }

    /// The text that positions point into.
    pub closed spec fn text(self) -> Seq<u8> {
        self.full@
    }

    pub fn new(full: &'s [u8]) -> (source: Self)
        ensures
            source.text() == full@,
            source.text().len() <= usize::MAX,
    {
        let _ = full.len();
        Source { full, lines: split_lines(full) }
    }

    /// The text that positions point into.
    pub fn full(&self) -> (full: &'s [u8])
        ensures
            full@ == self.text(),
            self.text().len() <= usize::MAX,
    {
        let _ = self.full.len();
        self.full
    }

    /// The byte offset of `pos`: nothing where the text has no such line, the
    /// end of the line where the line has no such column.
    pub fn position(&self, pos: LineColumn) -> (offset: Option<usize>)
        ensures
            offset is Some <==> position_of(self.text(), pos) is Some,
            offset matches Some(p) ==> position_of(self.text(), pos) == Some(p as int) && p
                <= self.text().len(),
    {
        proof {
            use_type_invariant(self);
            lemma_spans_ordered(self.full@, 0, 0);
            lemma_position_in_bounds(self.full@, pos);
        }
        if pos.line == 0 || pos.line > self.lines.len() {
            return None;
        }
        let span = self.lines[pos.line - 1];
        assert(line_spans(self.full@)[pos.line - 1] == (span.start as int, span.end as int)) by {
            assert(spans_view(self.lines@)[pos.line - 1] == (span.start as int, span.end as int));
        }
        let ghost line = self.full@.subrange(span.start as int, span.end as int);
        let mut i: usize = span.start;
        let mut left: usize = pos.column;
        while i < span.end
            invariant
                span.start <= i <= span.end <= self.full@.len(),
                1 <= pos.line <= line_spans(self.full@).len(),
                line_spans(self.full@)[pos.line - 1] == (span.start as int, span.end as int),
                line == self.full@.subrange(span.start as int, span.end as int),
                char_offset_from(line, i - span.start, left as int) == char_offset(
                    line,
                    pos.column as int,
                ),
            decreases span.end - i,
        {
            let b = self.full[i];
            assert(line[i - span.start] == b);
            if b < 0x80 || b >= 0xC0 {
                if left == 0 {
                    return Some(i);
                }
                left = left - 1;
            }
            i = i + 1;
        }
        Some(i)
    }

    /// The byte range of `span`: nothing where either end has no line.
    pub fn range_for(&self, span: Span) -> (range: Option<ByteRange>)
        ensures
            range is Some <==> range_of(self.text(), span) is Some,
            range matches Some(r) ==> range_of(self.text(), span) == Some(
                (r.start as int, r.end as int),
            ) && r.start <= self.text().len() && r.end <= self.text().len(),
    {
        match self.position(span.start) {
            None => None,
            Some(start) => match self.position(span.end) {
                None => None,
                Some(end) => Some(ByteRange { start, end }),
            },
        }
    }
}

} // verus!
