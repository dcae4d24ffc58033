//! Lines of a byte buffer.
//!
//! A line ends at a line feed, or at the end of the text. The line feed is not
//! part of the line, and neither is a carriage return that stands directly
//! before it. Text after the last line feed is a line of its own unless it is
//! empty.

use vstd::prelude::*;
use vstd::utf8::{encode_utf8, encode_utf8_decode_utf8};

verus! {

pub const NEWLINE: u8 = 10;

pub const CARRIAGE_RETURN: u8 = 13;

pub const SPACE: u8 = 32;

pub const SLASH: u8 = 47;

/// The bytes `[start, end)` of one line, without its terminator.
#[derive(Clone, Copy, Debug, PartialEq, Eq, Structural)]
pub struct LineSpan {
    pub start: usize,
    pub end: usize,
}

/// Where the line that starts at `start` and is terminated at `stop` ends,
/// once a carriage return before the line feed is taken off.
pub open spec fn content_end(s: Seq<u8>, start: int, stop: int) -> int {
    if start < stop && s[stop - 1] == CARRIAGE_RETURN {
        stop - 1
    } else {
        stop
    }
}

/// The lines of `s` from `start` on, where `s[start..i]` holds no line feed.
pub open spec fn spans_from(s: Seq<u8>, start: int, i: int) -> Seq<(int, int)>
    decreases s.len() - i,
{
    if i < 0 || i >= s.len() {
        if 0 <= start < s.len() {
            seq![(start, s.len() as int)]
        } else {
            Seq::empty()
        }
    } else if s[i] == NEWLINE {
        seq![(start, content_end(s, start, i))] + spans_from(s, i + 1, i + 1)
    } else {
        spans_from(s, start, i + 1)
    }
}

/// The lines of `s`, each as the pair of offsets that bound it.
pub open spec fn line_spans(s: Seq<u8>) -> Seq<(int, int)> {
    spans_from(s, 0, 0)
}

/// The lines of `s`, each as its bytes.
pub open spec fn lines_of(s: Seq<u8>) -> Seq<Seq<u8>> {
    Seq::new(line_spans(s).len(), |k: int| s.subrange(line_spans(s)[k].0, line_spans(s)[k].1))
}

/// What the exec spans stand for.
pub open spec fn spans_view(v: Seq<LineSpan>) -> Seq<(int, int)> {
    Seq::new(v.len(), |k: int| (v[k].start as int, v[k].end as int))
}

/// Every line lies inside the text, after the point the scan started from, and
/// the lines follow each other with a terminator between them.
pub proof fn lemma_spans_ordered(s: Seq<u8>, start: int, i: int)
    requires
        0 <= start <= i <= s.len(),
    ensures
        forall|k: int|
            0 <= k < spans_from(s, start, i).len() ==> {
                let sp = #[trigger] spans_from(s, start, i)[k];
                start <= sp.0 <= sp.1 <= s.len()
            },
        forall|k: int, m: int|
            0 <= k < m < spans_from(s, start, i).len() ==> (#[trigger] spans_from(s, start, i)[k]).1
                < (#[trigger] spans_from(s, start, i)[m]).0,
        spans_from(s, start, i).len() > 0 ==> spans_from(s, start, i)[0].0 == start,
    decreases s.len() - i,
{
    if i >= s.len() {
    } else if s[i] == NEWLINE {
        lemma_spans_ordered(s, i + 1, i + 1);
        let rest = spans_from(s, i + 1, i + 1);
        let all = spans_from(s, start, i);
        assert(all == seq![(start, content_end(s, start, i))] + rest);
        assert forall|k: int| 0 <= k < all.len() implies {
            let sp = #[trigger] all[k];
            start <= sp.0 <= sp.1 <= s.len()
        } by {
            if k > 0 {
                assert(all[k] == rest[k - 1]);
            }
        }
        assert forall|k: int, m: int| 0 <= k < m < all.len() implies (#[trigger] all[k]).1 < (
        #[trigger] all[m]).0 by {
            assert(all[m] == rest[m - 1]);
            if k > 0 {
                assert(all[k] == rest[k - 1]);
            }
        }
    } else {
        lemma_spans_ordered(s, start, i + 1);
    }
}

/// `spans` with every offset moved by `by`.
pub open spec fn shifted(spans: Seq<(int, int)>, by: int) -> Seq<(int, int)> {
    Seq::new(spans.len(), |k: int| (spans[k].0 + by, spans[k].1 + by))
}

/// `s` holds no line feed.
pub open spec fn one_line(s: Seq<u8>) -> bool {
    forall|i: int| 0 <= i < s.len() ==> s[i] != NEWLINE
}

/// `s` without the carriage return at its end, where it has one.
pub open spec fn trimmed(s: Seq<u8>) -> Seq<u8> {
    if s.len() > 0 && s.last() == CARRIAGE_RETURN {
        s.drop_last()
    } else {
        s
    }
}

/// The scan passes over bytes that are no line feed.
pub proof fn lemma_spans_skip(s: Seq<u8>, start: int, i: int, j: int)
    requires
        0 <= start <= i <= j <= s.len(),
        forall|k: int| i <= k < j ==> s[k] != NEWLINE,
    ensures
        spans_from(s, start, i) == spans_from(s, start, j),
    decreases j - i,
{
    if i < j {
        lemma_spans_skip(s, start, i + 1, j);
    }
}

/// The lines of a text that stands behind another are its own lines, moved
/// by the length of what stands before it.
pub proof fn lemma_spans_shift(a: Seq<u8>, b: Seq<u8>, start: int, i: int)
    requires
        0 <= start <= i <= b.len(),
    ensures
        spans_from(a + b, a.len() + start, a.len() + i) == shifted(
            spans_from(b, start, i),
            a.len() as int,
        ),
    decreases b.len() - i,
{
    let s = a + b;
    let d = a.len() as int;
    if i < b.len() {
        assert(s[d + i] == b[i]);
        if b[i] == NEWLINE {
            lemma_spans_shift(a, b, i + 1, i + 1);
            if start < i {
                assert(s[d + i - 1] == b[i - 1]);
            }
            assert(content_end(s, d + start, d + i) == content_end(b, start, i) + d);
            let rest = spans_from(b, i + 1, i + 1);
            assert(spans_from(b, start, i) == seq![(start, content_end(b, start, i))] + rest);
            assert(spans_from(s, d + start, d + i) == seq![
                (d + start, content_end(s, d + start, d + i)),
            ] + shifted(rest, d));
            assert(spans_from(s, d + start, d + i) =~= shifted(spans_from(b, start, i), d));
        } else {
            lemma_spans_shift(a, b, start, i + 1);
        }
    } else {
        assert(spans_from(s, d + start, d + i) =~= shifted(spans_from(b, start, i), d));
    }
}

/// The bytes `[from, to)` of `s` hold no line feed.
pub open spec fn no_newline(s: Seq<u8>, from: int, to: int) -> bool {
    forall|p: int| from <= p < to ==> s[p] != NEWLINE
}

/// No line holds a line feed.
pub proof fn lemma_spans_hold_no_newline(s: Seq<u8>, start: int, i: int)
    requires
        0 <= start <= i <= s.len(),
        no_newline(s, start, i),
    ensures
        forall|k: int|
            0 <= k < spans_from(s, start, i).len() ==> no_newline(
                s,
                (#[trigger] spans_from(s, start, i)[k]).0,
                spans_from(s, start, i)[k].1,
            ),
    decreases s.len() - i,
{
    let all = spans_from(s, start, i);
    if i >= s.len() {
        assert forall|k: int| 0 <= k < all.len() implies no_newline(
            s,
            (#[trigger] all[k]).0,
            all[k].1,
        ) by {
            assert(all[k] == (start, s.len() as int));
        }
    } else if s[i] == NEWLINE {
        lemma_spans_hold_no_newline(s, i + 1, i + 1);
        let rest = spans_from(s, i + 1, i + 1);
        let end = content_end(s, start, i);
        assert(all == seq![(start, end)] + rest);
        assert forall|k: int| 0 <= k < all.len() implies no_newline(
            s,
            (#[trigger] all[k]).0,
            all[k].1,
        ) by {
            if k > 0 {
                assert(all[k] == rest[k - 1]);
                assert(no_newline(s, rest[k - 1].0, rest[k - 1].1));
            } else {
                assert(all[k] == (start, end));
                assert(end <= i);
            }
        }
    } else {
        assert(no_newline(s, start, i + 1));
        lemma_spans_hold_no_newline(s, start, i + 1);
        assert(all == spans_from(s, start, i + 1));
    }
}

/// Each line of a text holds no line feed.
pub proof fn lemma_lines_are_single(s: Seq<u8>)
    ensures
        forall|k: int| 0 <= k < lines_of(s).len() ==> one_line(#[trigger] lines_of(s)[k]),
{
    lemma_spans_hold_no_newline(s, 0, 0);
    lemma_spans_ordered(s, 0, 0);
    assert forall|k: int| 0 <= k < lines_of(s).len() implies one_line(
        #[trigger] lines_of(s)[k],
    ) by {
        let sp = line_spans(s)[k];
        let line = lines_of(s)[k];
        assert(no_newline(s, sp.0, sp.1));
        assert forall|i: int| 0 <= i < line.len() implies line[i] != NEWLINE by {
            assert(line[i] == s[sp.0 + i]);
        }
    }
}

/// A text that is not empty has a line.
pub proof fn lemma_spans_not_empty(s: Seq<u8>, start: int, i: int)
    requires
        0 <= start <= i <= s.len(),
        start < s.len(),
    ensures
        spans_from(s, start, i).len() > 0,
    decreases s.len() - i,
{
    if i < s.len() && s[i] != NEWLINE {
        lemma_spans_not_empty(s, start, i + 1);
    }
}

/// A text without a line feed that is not empty is its own one line.
pub proof fn lemma_lines_of_single(x: Seq<u8>)
    requires
        one_line(x),
        x.len() > 0,
    ensures
        lines_of(x) == seq![x],
{
    lemma_spans_skip(x, 0, 0, x.len() as int);
    assert(line_spans(x) == seq![(0int, x.len() as int)]);
    assert(x.subrange(0, x.len() as int) == x);
    assert(lines_of(x) =~= seq![x]);
}

/// The lines of a text that begins with a line and its line feed: that
/// line, without a carriage return at its end, and then the lines of the rest.
pub proof fn lemma_lines_of_first(x: Seq<u8>, rest: Seq<u8>)
    requires
        one_line(x),
    ensures
        lines_of(x + seq![NEWLINE] + rest) == seq![trimmed(x)] + lines_of(rest),
{
    let a = x + seq![NEWLINE];
    let s = a + rest;
    let n = x.len() as int;
    let d = n + 1;
    assert forall|k: int| 0 <= k < n implies s[k] != NEWLINE by {
        assert(s[k] == x[k]);
    }
    lemma_spans_skip(s, 0, 0, n);
    assert(s[n] == NEWLINE);
    lemma_spans_shift(a, rest, 0, 0);
    lemma_spans_ordered(rest, 0, 0);
    let inner = line_spans(rest);
    let end = content_end(s, 0, n);
    assert(line_spans(s) == seq![(0int, end)] + shifted(inner, d));
    assert(s.subrange(0, end) == trimmed(x)) by {
        if n > 0 {
            assert(s[n - 1] == x[n - 1]);
        }
        assert(s.subrange(0, n) == x);
        if end == n - 1 {
            assert(s.subrange(0, n - 1) == x.drop_last());
        }
    }
    let got = lines_of(s);
    let want = seq![trimmed(x)] + lines_of(rest);
    assert(got.len() == want.len());
    assert forall|k: int| 0 <= k < got.len() implies got[k] == want[k] by {
        if k > 0 {
            let r = inner[k - 1];
            assert(line_spans(s)[k] == (r.0 + d, r.1 + d));
            assert(s.subrange(r.0 + d, r.1 + d) == rest.subrange(r.0, r.1));
        }
    }
    assert(got == want);
}

/// Whether the line `span` ends where `s` ends, or at its terminator.
pub open spec fn ends_at_terminator(s: Seq<u8>, span: (int, int)) -> bool {
    span.1 == s.len() || s[span.1] == NEWLINE || s[span.1] == CARRIAGE_RETURN
}

/// A line ends where the text ends, or at the line feed or the carriage
/// return that terminates it.
pub proof fn lemma_spans_end_at_terminator(s: Seq<u8>, start: int, i: int)
    requires
        0 <= start <= i <= s.len(),
    ensures
        forall|k: int|
            0 <= k < spans_from(s, start, i).len() ==> ends_at_terminator(
                s,
                #[trigger] spans_from(s, start, i)[k],
            ),
    decreases s.len() - i,
{
    let all = spans_from(s, start, i);
    if i >= s.len() {
        assert forall|k: int| 0 <= k < all.len() implies ends_at_terminator(
            s,
            #[trigger] all[k],
        ) by {
            assert(all[k] == (start, s.len() as int));
        }
    } else if s[i] == NEWLINE {
        lemma_spans_end_at_terminator(s, i + 1, i + 1);
        let rest = spans_from(s, i + 1, i + 1);
        assert(all == seq![(start, content_end(s, start, i))] + rest);
        assert forall|k: int| 0 <= k < all.len() implies ends_at_terminator(
            s,
            #[trigger] all[k],
        ) by {
            if k > 0 {
                assert(all[k] == rest[k - 1]);
            } else {
                assert(all[k] == (start, content_end(s, start, i)));
            }
        }
    } else {
        lemma_spans_end_at_terminator(s, start, i + 1);
        assert(all == spans_from(s, start, i + 1));
    }
}

/// Splits `text` into its lines.
pub fn split_lines(text: &[u8]) -> (lines: Vec<LineSpan>)
    ensures
        spans_view(lines@) == line_spans(text@),
{
    let mut lines: Vec<LineSpan> = Vec::new();
    let mut start: usize = 0;
    let mut i: usize = 0;
    while i < text.len()
        invariant
            0 <= start <= i <= text.len(),
            spans_view(lines@) + spans_from(text@, start as int, i as int) == line_spans(text@),
        decreases text.len() - i,
    {
        if text[i] == NEWLINE {
            let end: usize = if start < i && text[i - 1] == CARRIAGE_RETURN {
                i - 1
            } else {
                i
            };
            let ghost before = spans_view(lines@);
            lines.push(LineSpan { start, end });
            proof {
                assert(spans_view(lines@) == before + seq![(start as int, end as int)]);
                assert(spans_from(text@, start as int, i as int) == seq![
                    (start as int, end as int),
                ] + spans_from(text@, i + 1, i + 1));
            }
            start = i + 1;
        }
        i = i + 1;
    }
    if start < text.len() {
        let ghost before = spans_view(lines@);
        lines.push(LineSpan { start, end: text.len() });
        proof {
            assert(spans_view(lines@) == before + seq![(start as int, text.len() as int)]);
        }
    }
    proof {
        assert(spans_view(lines@) == line_spans(text@));
    }
    lines
}

/// Whether two strings hold the same characters.
pub fn str_eq(a: &str, b: &str) -> (same: bool)
    ensures
        same == (a@ == b@),
{
    let x = a.as_bytes();
    let y = b.as_bytes();
    proof {
        encode_utf8_decode_utf8(a@);
        encode_utf8_decode_utf8(b@);
    }
    if x.len() != y.len() {
        return false;
    }
    let mut i: usize = 0;
    while i < x.len()
        invariant
            i <= x@.len(),
            x@.len() == y@.len(),
            x@ == encode_utf8(a@),
            y@ == encode_utf8(b@),
            forall|j: int| 0 <= j < i ==> x@[j] == y@[j],
        decreases x.len() - i,
    {
        if x[i] != y[i] {
            return false;
        }
        i = i + 1;
    }
    assert(x@ =~= y@);
    true
}

/// `n` spaces.
pub open spec fn spaces(n: nat) -> Seq<u8> {
    Seq::new(n, |i: int| SPACE)
}

/// Appends the bytes `[start, end)` of `src` to `out`.
pub fn append_range(out: &mut Vec<u8>, src: &[u8], start: usize, end: usize)
    requires
        start <= end <= src@.len(),
    ensures
        final(out)@ == old(out)@ + src@.subrange(start as int, end as int),
{
    let mut i: usize = start;
    while i < end
        invariant
            start <= i <= end <= src@.len(),
            out@ == old(out)@ + src@.subrange(start as int, i as int),
        decreases end - i,
    {
        out.push(src[i]);
        i = i + 1;
    }
}

/// Appends `n` spaces to `out`.
pub fn append_spaces(out: &mut Vec<u8>, n: usize)
    ensures
        final(out)@ == old(out)@ + spaces(n as nat),
{
    let mut i: usize = 0;
    while i < n
        invariant
            i <= n,
            out@ == old(out)@ + spaces(i as nat),
        decreases n - i,
    {
        out.push(SPACE);
        i = i + 1;
    }
}

} // verus!
