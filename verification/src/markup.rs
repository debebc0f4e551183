//! Emphasis markup in statement text.
//!
//! A statement may mark part of its text for emphasis by writing it as
//! `![inner]`. Spans do not nest: scanning from the left, the first `![` that
//! is followed by a `]` opens a span, the nearest `]` closes it, and scanning
//! resumes behind that `]`. A `![` that no `]` follows is ordinary text.
//! Positions count characters, not bytes.

use vstd::prelude::*;
use vstd::seq_lib::lemma_flatten_concat;
use vstd::string::*;

verus! {

/// A half-open range `[start, end)` of character positions.
pub struct Span {
    pub start: int,
    pub end: int,
}

/// The place of one `![inner]` in a text: `start` is the position of the `!`,
/// `end` the position just behind the closing `]`.
#[derive(Clone, Copy, Debug, PartialEq, Eq)]
pub struct MarkupSpan {
    pub start: usize,
    pub end: usize,
}

impl View for MarkupSpan {
    type V = Span;

    open spec fn view(&self) -> Span {
        Span { start: self.start as int, end: self.end as int }
    }
}

/// The spans that a vector of [`MarkupSpan`] stands for.
pub open spec fn span_models(spans: Seq<MarkupSpan>) -> Seq<Span> {
    spans.map_values(|s: MarkupSpan| s@)
}

/// The mathematical value of a [`TextSegment`].
pub struct SegmentModel {
    pub content: Seq<char>,
    pub emphasized: bool,
}

/// A run of statement text that is shown in one style.
#[derive(Debug, PartialEq, Eq)]
pub struct TextSegment {
    /// The text of the run, without any markup characters.
    pub content: String,
    /// Whether the run stood inside `![` and `]`.
    pub emphasized: bool,
}

impl View for TextSegment {
    type V = SegmentModel;

    open spec fn view(&self) -> SegmentModel {
        SegmentModel { content: self.content@, emphasized: self.emphasized }
    }
}

/// The segments that a vector of [`TextSegment`] stands for.
pub open spec fn segment_models(segments: Seq<TextSegment>) -> Seq<SegmentModel> {
    segments.map_values(|s: TextSegment| s@)
}

/// Whether the two characters `![` stand at position `i`.
pub open spec fn opens_at(text: Seq<char>, i: int) -> bool {
    0 <= i && i + 1 < text.len() && text[i] == '!' && text[i + 1] == '['
}

/// Position of the first `]` at or behind `from`, or `text.len()` where there is none.
pub open spec fn first_close(text: Seq<char>, from: int) -> int
    decreases text.len() - from,
{
    if from >= text.len() {
        text.len() as int
    } else if text[from] == ']' {
        from
    } else {
        first_close(text, from + 1)
    }
}

/// Whether `span` is one well-formed `![inner]` of `text`, closed by the
/// nearest `]`.
pub open spec fn is_span(text: Seq<char>, span: Span) -> bool {
    &&& opens_at(text, span.start)
    &&& span.start + 2 < span.end <= text.len()
    &&& text[span.end - 1] == ']'
    &&& forall|k: int| span.start + 2 <= k < span.end - 1 ==> text[k] != ']'
}

/// The spans found by scanning `text` from position `pos` on.
pub open spec fn spans_from(text: Seq<char>, pos: int) -> Seq<Span>
    decreases text.len() - pos,
{
    if pos < 0 || pos >= text.len() {
        Seq::empty()
    } else if opens_at(text, pos) {
        let close = first_close(text, pos + 2);
        if pos + 2 <= close < text.len() {
            seq![Span { start: pos, end: close + 1 }] + spans_from(text, close + 1)
        } else {
            Seq::empty()
        }
    } else {
        spans_from(text, pos + 1)
    }
}

/// The emphasis spans of `text`, from left to right.
pub open spec fn markup_spans(text: Seq<char>) -> Seq<Span> {
    spans_from(text, 0)
}

/// Whether position `p` lies inside `span`.
pub open spec fn covers(span: Span, p: int) -> bool {
    span.start <= p < span.end
}

/// Whether one of `spans` covers position `p`.
pub open spec fn covered(spans: Seq<Span>, p: int) -> bool {
    exists|i: int| 0 <= i < spans.len() && covers(#[trigger] spans[i], p)
}

/// Whether `spans` lie inside `[from, len)`, one behind the other.
pub open spec fn spans_in_order(spans: Seq<Span>, from: int, len: int) -> bool {
    &&& forall|i: int|
        0 <= i < spans.len() ==> from <= (#[trigger] spans[i]).start && spans[i].start + 2
            < spans[i].end <= len
    &&& forall|i: int, j: int|
        0 <= i < j < spans.len() ==> (#[trigger] spans[i]).end <= (#[trigger] spans[j]).start
}

/// Whether `spans` are well-formed spans of `text` behind `pos`, in order.
pub open spec fn spans_behind(text: Seq<char>, pos: int, spans: Seq<Span>) -> bool {
    &&& spans_in_order(spans, pos, text.len() as int)
    &&& forall|i: int| 0 <= i < spans.len() ==> is_span(text, #[trigger] spans[i])
}

/// Whether `spans` leave no well-formed `![inner]` at or behind `pos`
/// uncovered.
#[verifier::opaque]
pub open spec fn leftmost_from(text: Seq<char>, pos: int, spans: Seq<Span>) -> bool {
    forall|candidate: Span|
        pos <= candidate.start && #[trigger] is_span(text, candidate) ==> covered(
            spans,
            candidate.start,
        )
}

/// The plain text between positions `from` and `to`: one segment, or none
/// where the range is empty.
pub open spec fn plain_piece(text: Seq<char>, from: int, to: int) -> Seq<SegmentModel> {
    if from < to {
        seq![SegmentModel { content: text.subrange(from, to), emphasized: false }]
    } else {
        Seq::empty()
    }
}

/// The emphasized segment of `span`: what stands between `![` and `]`.
pub open spec fn emphasized_piece(text: Seq<char>, span: Span) -> SegmentModel {
    SegmentModel { content: text.subrange(span.start + 2, span.end - 1), emphasized: true }
}

/// The segments of `text` from position `pos` on, where `spans` are the
/// emphasis spans that lie behind `pos`.
pub open spec fn segments_between(text: Seq<char>, spans: Seq<Span>, pos: int) -> Seq<
    SegmentModel,
>
    decreases spans.len(),
{
    if spans.len() == 0 {
        plain_piece(text, pos, text.len() as int)
    } else {
        plain_piece(text, pos, spans[0].start) + seq![emphasized_piece(text, spans[0])]
            + segments_between(text, spans.drop_first(), spans[0].end)
    }
}

/// The segments of `text`: plain and emphasized runs in source order. Empty
/// plain runs are left out; an empty `![]` still gives an emphasized segment.
pub open spec fn segments_of(text: Seq<char>) -> Seq<SegmentModel> {
    segments_between(text, markup_spans(text), 0)
}

/// Whether `part` is a run of consecutive characters of `text`.
pub open spec fn is_part_of(part: Seq<char>, text: Seq<char>) -> bool {
    exists|from: int, to: int|
        0 <= from <= to <= text.len() && part == #[trigger] text.subrange(from, to)
}

/// A segment as it is written in a statement: an emphasized one between
/// `![` and `]`, a plain one as it is.
pub open spec fn source_of(segment: SegmentModel) -> Seq<char> {
    if segment.emphasized {
        seq!['!', '['] + segment.content + seq![']']
    } else {
        segment.content
    }
}

/// The statement text that `segments` were written as.
pub open spec fn marked_text(segments: Seq<SegmentModel>) -> Seq<char> {
    segments.map_values(|s: SegmentModel| source_of(s)).flatten()
}

/// The text of `segments` with the markup characters gone: their contents,
/// joined in order.
pub open spec fn plain_text(segments: Seq<SegmentModel>) -> Seq<char> {
    segments.map_values(|s: SegmentModel| s.content).flatten()
}

/// The characters of `text`, one element each.
fn collect_chars(text: &str) -> (chars: Vec<char>)
    ensures
        chars@ == text@,
{
    let mut chars: Vec<char> = Vec::new();
    for c in it: text.chars()
        invariant
            it.seq() == text@,
            chars@ == it.seq().take(it.index()),
    {
        chars.push(c);
    }
    chars
}

/// Position of the first `]` of `chars` at or behind `from`, or `chars.len()`
/// where there is none.
fn find_close(chars: &Vec<char>, from: usize) -> (close: usize)
    requires
        from <= chars.len(),
    ensures
        close == first_close(chars@, from as int),
        from <= close <= chars.len(),
{
    let mut k: usize = from;
    while k < chars.len() && chars[k] != ']'
        invariant
            from <= k <= chars.len(),
            first_close(chars@, k as int) == first_close(chars@, from as int),
        decreases chars.len() - k,
    {
        k += 1;
    }
    k
}

/// The emphasis spans among `chars`, from left to right.
fn scan_spans(chars: &Vec<char>) -> (spans: Vec<MarkupSpan>)
    ensures
        span_models(spans@) == markup_spans(chars@),
        spans_in_order(span_models(spans@), 0, chars@.len() as int),
{
    proof {
        lemma_spans_from(chars@, 0);
    }
    let n: usize = chars.len();
    let mut spans: Vec<MarkupSpan> = Vec::new();
    let mut i: usize = 0;
    while i < n
        invariant
            i <= n,
            n == chars.len(),
            span_models(spans@) + spans_from(chars@, i as int) == markup_spans(chars@),
            spans_in_order(markup_spans(chars@), 0, n as int),
        decreases n - i,
    {
        if chars[i] == '!' && n - i > 1 && chars[i + 1] == '[' {
            let close: usize = find_close(chars, i + 2);
            if close < n {
                spans.push(MarkupSpan { start: i, end: close + 1 });
                i = close + 1;
            } else {
                return spans;
            }
        } else {
            i += 1;
        }
    }
    spans
}

/// Finds the emphasis spans of `text`, from left to right.
///
/// The result is exactly [`markup_spans`] of the text: positions count
/// characters, every span is a well-formed `![inner]`, and no two overlap.
pub fn find_spans(text: &str) -> (spans: Vec<MarkupSpan>)
    ensures
        span_models(spans@) == markup_spans(text@),
        spans_in_order(span_models(spans@), 0, text@.len() as int),
{
    let chars = collect_chars(text);
    scan_spans(&chars)
}

/// Splits `text` into its plain and emphasized segments, in source order.
///
/// The result is exactly [`segments_of`] of the text. Text without a
/// well-formed `![inner]` comes back as one plain segment, the empty text as
/// no segment at all.
pub fn parse_markup(text: &str) -> (segments: Vec<TextSegment>)
    ensures
        segment_models(segments@) == segments_of(text@),
        marked_text(segment_models(segments@)) == text@,
{
    let chars = collect_chars(text);
    let spans = scan_spans(&chars);
    let total: usize = chars.len();
    let mut segments: Vec<TextSegment> = Vec::new();
    let mut pos: usize = 0;
    let mut k: usize = 0;
    proof {
        lemma_marked_text_of_segments(text@);
        assert(span_models(spans@).skip(0) == span_models(spans@));
    }
    while k < spans.len()
        invariant
            k <= spans.len(),
            pos <= total,
            total == text@.len(),
            spans_in_order(span_models(spans@), 0, total as int),
            forall|j: int| k <= j < spans.len() ==> pos <= (#[trigger] spans[j]).start,
            segment_models(segments@) + segments_between(
                text@,
                span_models(spans@).skip(k as int),
                pos as int,
            ) == segments_of(text@),
        decreases spans.len() - k,
    {
        let span = spans[k];
        proof {
            let rest = span_models(spans@).skip(k as int);
            assert(rest.drop_first() == span_models(spans@).skip(k + 1));
        }
        if pos < span.start {
            let content = text.substring_char(pos, span.start).to_owned();
            segments.push(TextSegment { content, emphasized: false });
        }
        let inner = text.substring_char(span.start + 2, span.end - 1).to_owned();
        proof {
            assert forall|j: int| k + 1 <= j < spans.len() implies span.end <= (
            #[trigger] spans[j]).start by {
                assert(span_models(spans@)[j] == spans[j]@);
            }
        }
        segments.push(TextSegment { content: inner, emphasized: true });
        pos = span.end;
        k += 1;
    }
    if pos < total {
        let content = text.substring_char(pos, total).to_owned();
        segments.push(TextSegment { content, emphasized: false });
    }
    segments
}

/// `first_close` lands on a `]` or on the end, and skips no `]`.
pub proof fn lemma_first_close(text: Seq<char>, from: int)
    requires
        0 <= from,
    ensures
        from <= first_close(text, from) || first_close(text, from) == text.len(),
        first_close(text, from) <= text.len(),
        first_close(text, from) < text.len() ==> text[first_close(text, from)] == ']',
        forall|k: int| from <= k < first_close(text, from) ==> text[k] != ']',
    decreases text.len() - from,
{
    if from < text.len() && text[from] != ']' {
        lemma_first_close(text, from + 1);
    }
}

/// Every span found from `pos` on is a well-formed `![inner]` behind `pos`,
/// and each ends before the next begins.
pub proof fn lemma_spans_from(text: Seq<char>, pos: int)
    requires
        0 <= pos,
    ensures
        spans_in_order(spans_from(text, pos), pos, text.len() as int),
        forall|i: int|
            0 <= i < spans_from(text, pos).len() ==> is_span(
                text,
                #[trigger] spans_from(text, pos)[i],
            ),
    decreases text.len() - pos,
{
    if pos < text.len() {
        if opens_at(text, pos) {
            let close = first_close(text, pos + 2);
            lemma_first_close(text, pos + 2);
            if pos + 2 <= close < text.len() {
                // The first span is the one at `pos`; the others are
                // found behind its end.
                lemma_spans_from(text, close + 1);
            }
        } else {
            lemma_spans_from(text, pos + 1);
        }
    }
}

/// Emphasis spans never overlap. Every span of a text lies inside the
/// text and is a well-formed `![inner]`; each ends before the next begins;
/// so no position of the text lies inside two of them.
pub proof fn lemma_spans_do_not_overlap(text: Seq<char>)
    ensures
        spans_in_order(markup_spans(text), 0, text.len() as int),
        forall|i: int|
            0 <= i < markup_spans(text).len() ==> is_span(text, #[trigger] markup_spans(text)[i]),
        forall|i: int, j: int, p: int|
            0 <= i < markup_spans(text).len() && 0 <= j < markup_spans(text).len() && i != j
                && #[trigger] covers(markup_spans(text)[i], p) ==> !#[trigger] covers(
                markup_spans(text)[j],
                p,
            ),
{
    lemma_spans_from(text, 0);
}

/// The leftmost match wins. Wherever a well-formed `![inner]` stands at or
/// behind `pos`, one of the spans found from `pos` on covers its first
/// character: it is that span, or it lies inside an earlier one.
pub proof fn lemma_spans_leftmost(text: Seq<char>, pos: int, candidate: Span)
    requires
        0 <= pos <= candidate.start,
        is_span(text, candidate),
    ensures
        covered(spans_from(text, pos), candidate.start),
    decreases text.len() - pos,
{
    let spans = spans_from(text, pos);
    if opens_at(text, pos) {
        let close = first_close(text, pos + 2);
        lemma_first_close(text, pos + 2);
        // The `]` of the candidate closes the span at `pos` at the latest.
        assert(close <= candidate.end - 1);
        let rest = spans_from(text, close + 1);
        if candidate.start < close + 1 {
            assert(covers(spans[0], candidate.start));
        } else {
            lemma_spans_leftmost(text, close + 1, candidate);
            let i = choose|i: int| 0 <= i < rest.len() && covers(#[trigger] rest[i], candidate.start);
            assert(covers(spans[i + 1], candidate.start));
        }
    } else {
        lemma_spans_leftmost(text, pos + 1, candidate);
    }
}

/// The spans found from `pos` on leave no well-formed `![inner]` behind
/// `pos` uncovered.
pub proof fn lemma_spans_from_leftmost(text: Seq<char>, pos: int)
    requires
        0 <= pos,
    ensures
        leftmost_from(text, pos, spans_from(text, pos)),
{
    reveal(leftmost_from);
    assert forall|candidate: Span|
        pos <= candidate.start && #[trigger] is_span(text, candidate) implies covered(
        spans_from(text, pos),
        candidate.start,
    ) by {
        lemma_spans_leftmost(text, pos, candidate);
    }
}

/// The span among `spans` that covers the first character of `candidate`.
proof fn lemma_covering_span(text: Seq<char>, pos: int, spans: Seq<Span>, candidate: Span) -> (i:
    int)
    requires
        leftmost_from(text, pos, spans),
        pos <= candidate.start,
        is_span(text, candidate),
    ensures
        0 <= i < spans.len(),
        covers(spans[i], candidate.start),
{
    reveal(leftmost_from);
    choose|i: int| 0 <= i < spans.len() && covers(#[trigger] spans[i], candidate.start)
}

/// Spans that leave nothing uncovered behind `pos` leave nothing uncovered
/// behind a later position.
proof fn lemma_leftmost_from_later(text: Seq<char>, pos: int, later: int, spans: Seq<Span>)
    requires
        leftmost_from(text, pos, spans),
        pos <= later,
    ensures
        leftmost_from(text, later, spans),
{
    reveal(leftmost_from);
}

/// Spans that leave nothing uncovered behind `pos` leave, without their
/// first, nothing uncovered behind its end.
proof fn lemma_leftmost_behind_first(text: Seq<char>, pos: int, spans: Seq<Span>)
    requires
        leftmost_from(text, pos, spans),
        spans.len() > 0,
        pos <= spans[0].end,
    ensures
        leftmost_from(text, spans[0].end, spans.drop_first()),
{
    reveal(leftmost_from);
    let rest = spans.drop_first();
    assert forall|candidate: Span|
        spans[0].end <= candidate.start && #[trigger] is_span(text, candidate) implies covered(
        rest,
        candidate.start,
    ) by {
        let k = choose|k: int| 0 <= k < spans.len() && covers(#[trigger] spans[k], candidate.start);
        assert(rest[k - 1] == spans[k]);
    }
}

/// A well-formed span ends behind the first `]` behind its `![`.
proof fn lemma_span_end(text: Seq<char>, span: Span)
    requires
        is_span(text, span),
    ensures
        span.end == first_close(text, span.start + 2) + 1,
{
    lemma_first_close(text, span.start + 2);
}

/// Where `![` stands at `pos` and a `]` follows, spans that are in order
/// behind `pos` and leave nothing uncovered begin with the span at `pos`.
proof fn lemma_first_span_is_determined(text: Seq<char>, pos: int, spans: Seq<Span>)
    requires
        opens_at(text, pos),
        pos + 2 <= first_close(text, pos + 2) < text.len(),
        spans_behind(text, pos, spans),
        leftmost_from(text, pos, spans),
    ensures
        spans.len() > 0,
        spans[0] == (Span { start: pos, end: first_close(text, pos + 2) + 1 }),
{
    let close = first_close(text, pos + 2);
    let head = Span { start: pos, end: close + 1 };
    lemma_first_close(text, pos + 2);
    // A span covers `pos`. None begins before `pos`, so it begins there,
    // and it is the first, since the spans are in order.
    lemma_covering_span(text, pos, spans, head);
    lemma_span_end(text, spans[0]);
}

/// The spans are determined by what they are. A sequence of well-formed
/// spans behind `pos`, in order, that leaves no well-formed `![inner]`
/// behind `pos` uncovered is the sequence found by scanning from `pos`.
pub proof fn lemma_spans_are_determined(text: Seq<char>, pos: int, spans: Seq<Span>)
    requires
        0 <= pos,
        spans_behind(text, pos, spans),
        leftmost_from(text, pos, spans),
    ensures
        spans == spans_from(text, pos),
    decreases text.len() - pos,
{
    if pos >= text.len() {
        if spans.len() > 0 {
            assert(pos <= spans[0].start);
        }
    } else if opens_at(text, pos) {
        let close = first_close(text, pos + 2);
        if pos + 2 <= close < text.len() {
            lemma_first_span_is_determined(text, pos, spans);
            assert(spans_behind(text, close + 1, spans.drop_first()));
            lemma_leftmost_behind_first(text, pos, spans);
            lemma_spans_are_determined(text, close + 1, spans.drop_first());
        } else if spans.len() > 0 {
            // No `]` stands behind `pos + 2`, so no span can close.
            lemma_span_end(text, spans[0]);
            lemma_first_close(text, pos + 2);
            lemma_first_close(text, spans[0].start + 2);
        }
    } else {
        // No span begins at `pos`, where no `![` stands.
        assert(spans_behind(text, pos + 1, spans));
        lemma_leftmost_from_later(text, pos, pos + 1, spans);
        lemma_spans_are_determined(text, pos + 1, spans);
    }
}

/// Parsing is a function of the text: whatever two runs of the parser
/// return for one text, they return the same segments.
pub proof fn lemma_parse_is_deterministic(
    text: Seq<char>,
    first: Seq<TextSegment>,
    second: Seq<TextSegment>,
)
    requires
        segment_models(first) == segments_of(text),
        segment_models(second) == segments_of(text),
    ensures
        first.len() == second.len(),
        forall|i: int| 0 <= i < first.len() ==> (#[trigger] first[i])@ == second[i]@,
{
    assert(segment_models(first).len() == first.len());
    assert(segment_models(second).len() == second.len());
    assert forall|i: int| 0 <= i < first.len() implies (#[trigger] first[i])@ == second[i]@ by {
        assert(segment_models(first)[i] == first[i]@);
        assert(segment_models(second)[i] == second[i]@);
    }
}

/// Writing segments one behind the other writes their sources one behind
/// the other.
proof fn lemma_marked_text_add(a: Seq<SegmentModel>, b: Seq<SegmentModel>)
    ensures
        marked_text(a + b) == marked_text(a) + marked_text(b),
{
    let f = |s: SegmentModel| source_of(s);
    assert((a + b).map_values(f) == a.map_values(f) + b.map_values(f));
    lemma_flatten_concat(a.map_values(f), b.map_values(f));
}

/// The segments from `pos` on, written out again, are the text from `pos` on.
proof fn lemma_marked_text_between(text: Seq<char>, spans: Seq<Span>, pos: int)
    requires
        0 <= pos <= text.len(),
        spans_behind(text, pos, spans),
    ensures
        marked_text(segments_between(text, spans, pos)) == text.subrange(pos, text.len() as int),
    decreases spans.len(),
{
    let f = |s: SegmentModel| source_of(s);
    let end = text.len() as int;
    if spans.len() == 0 {
        if pos < end {
            plain_piece(text, pos, end).map_values(f).lemma_flatten_singleton();
        }
    } else {
        let span = spans[0];
        let before = plain_piece(text, pos, span.start);
        let marked = seq![emphasized_piece(text, span)];
        let rest = segments_between(text, spans.drop_first(), span.end);
        assert(spans_behind(text, span.end, spans.drop_first()));
        lemma_marked_text_between(text, spans.drop_first(), span.end);
        lemma_marked_text_add(before + marked, rest);
        lemma_marked_text_add(before, marked);
        marked.map_values(f).lemma_flatten_singleton();
        if pos < span.start {
            before.map_values(f).lemma_flatten_singleton();
        }
        assert(marked_text(marked) == text.subrange(span.start, span.end));
    }
}

/// Parsing loses nothing. Writing the segments of a text out again, the
/// emphasized ones between `![` and `]`, gives the text back, character by
/// character.
pub proof fn lemma_marked_text_of_segments(text: Seq<char>)
    ensures
        marked_text(segments_of(text)) == text,
{
    lemma_spans_from(text, 0);
    lemma_marked_text_between(text, markup_spans(text), 0);
}

/// Every segment from `pos` on holds a run of consecutive characters of
/// the text.
proof fn lemma_segments_between_are_parts(text: Seq<char>, spans: Seq<Span>, pos: int)
    requires
        0 <= pos <= text.len(),
        spans_in_order(spans, pos, text.len() as int),
    ensures
        forall|i: int|
            0 <= i < segments_between(text, spans, pos).len() ==> is_part_of(
                #[trigger] segments_between(text, spans, pos)[i].content,
                text,
            ),
    decreases spans.len(),
{
    let segments = segments_between(text, spans, pos);
    if spans.len() > 0 {
        let span = spans[0];
        let before = plain_piece(text, pos, span.start);
        let rest = segments_between(text, spans.drop_first(), span.end);
        assert(spans_in_order(spans.drop_first(), span.end, text.len() as int));
        lemma_segments_between_are_parts(text, spans.drop_first(), span.end);
        assert forall|i: int| 0 <= i < segments.len() implies is_part_of(
            #[trigger] segments[i].content,
            text,
        ) by {
            if i < before.len() {
                assert(segments[i].content == text.subrange(pos, span.start));
            } else if i == before.len() {
                assert(segments[i].content == text.subrange(span.start + 2, span.end - 1));
            } else {
                assert(segments[i] == rest[i - before.len() - 1]);
            }
        }
    }
}

/// Segments are slices of the text: the content of every segment is a run
/// of consecutive characters of the text it was parsed from.
pub proof fn lemma_segments_are_parts(text: Seq<char>)
    ensures
        forall|i: int|
            0 <= i < segments_of(text).len() ==> is_part_of(
                #[trigger] segments_of(text)[i].content,
                text,
            ),
{
    lemma_spans_from(text, 0);
    lemma_segments_between_are_parts(text, markup_spans(text), 0);
}

/// A text without a well-formed `![inner]` is one plain segment, or none
/// where it is empty, and its plain text is the text itself.
pub proof fn lemma_text_without_markup(text: Seq<char>)
    requires
        markup_spans(text).len() == 0,
    ensures
        segments_of(text) == plain_piece(text, 0, text.len() as int),
        plain_text(segments_of(text)) == text,
{
    let piece = plain_piece(text, 0, text.len() as int);
    let f = |s: SegmentModel| s.content;
    if text.len() > 0 {
        piece.map_values(f).lemma_flatten_singleton();
    }
}

} // verus!
