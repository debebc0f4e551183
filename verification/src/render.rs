//! Turning segments into styled terminal text.
//!
//! Plain segments are shown in the dialogue colour, green; emphasized segments
//! in red. Each segment is styled by itself, so no colour runs over into the
//! next one. Whether the terminal library writes colour codes at all is its
//! decision (it looks at the terminal and at the settings of the process), so
//! a styled piece is either the bare text or the text between a colour code
//! and a reset.

use crate::markup::{
    is_part_of, lemma_segments_are_parts, lemma_text_without_markup, markup_spans, plain_text,
    segment_models, segments_of, SegmentModel, TextSegment,
};
use vstd::prelude::*;
use vstd::string::*;

verus! {

/// The control sequence that selects green text.
pub open spec fn sgr_green() -> Seq<char> {
    seq!['\u{1b}', '[', '3', '2', 'm']
}

/// The control sequence that selects red text.
pub open spec fn sgr_red() -> Seq<char> {
    seq!['\u{1b}', '[', '3', '1', 'm']
}

/// The control sequence that ends all styling.
pub open spec fn sgr_reset() -> Seq<char> {
    seq!['\u{1b}', '[', '0', 'm']
}

/// The colour code of a segment: red where it is emphasized, green where not.
pub open spec fn accent(emphasized: bool) -> Seq<char> {
    if emphasized {
        sgr_red()
    } else {
        sgr_green()
    }
}

/// Whether `out` is `text` as the terminal library hands it back for the
/// colour `code`: bare, or between `code` and a reset.
pub open spec fn styled_as(out: Seq<char>, text: Seq<char>, code: Seq<char>) -> bool {
    out == text || out == code + text + sgr_reset()
}

/// Whether `pieces` are the segments of `segments`, each styled by itself.
pub open spec fn styled_pieces(pieces: Seq<Seq<char>>, segments: Seq<SegmentModel>) -> bool {
    &&& pieces.len() == segments.len()
    &&& forall|i: int|
        0 <= i < pieces.len() ==> styled_as(
            #[trigger] pieces[i],
            segments[i].content,
            accent(segments[i].emphasized),
        )
}

/// Whether `out` is a rendering of `segments`: their styled pieces, joined in
/// order with nothing between them.
pub open spec fn is_rendering(out: Seq<char>, segments: Seq<SegmentModel>) -> bool {
    exists|pieces: Seq<Seq<char>>| #[trigger]
        styled_pieces(pieces, segments) && out == pieces.flatten()
}

/// The texts that a vector of strings stands for.
pub open spec fn string_views(strings: Seq<String>) -> Seq<Seq<char>> {
    strings.map_values(|s: String| s@)
}

/// Whether `c` may stand among the parameters of a styling sequence: a
/// digit or `;`.
pub open spec fn is_parameter(c: char) -> bool {
    c == ';' || ('0' <= c && c <= '9')
}

/// The first position at or behind `from` that holds no parameter
/// character, or `s.len()` where there is none.
pub open spec fn parameters_end(s: Seq<char>, from: int) -> int
    decreases s.len() - from,
{
    if from >= s.len() {
        s.len() as int
    } else if is_parameter(s[from]) {
        parameters_end(s, from + 1)
    } else {
        from
    }
}

/// Length of the styling sequence that `s` begins with: `ESC`, `[`, any
/// number of parameter characters and `m`. Zero where `s` begins with none.
pub open spec fn styling_len(s: Seq<char>) -> int {
    if s.len() >= 3 && s[0] == '\u{1b}' && s[1] == '[' {
        let end = parameters_end(s, 2);
        if 2 <= end < s.len() && s[end] == 'm' {
            end + 1
        } else {
            0
        }
    } else {
        0
    }
}

/// `s` without its styling sequences: what a terminal shows of it.
pub open spec fn strip_styling(s: Seq<char>) -> Seq<char>
    decreases s.len(),
{
    if s.len() == 0 {
        s
    } else if styling_len(s) > 0 {
        strip_styling(s.skip(styling_len(s)))
    } else {
        seq![s[0]] + strip_styling(s.drop_first())
    }
}

/// Whether `s` holds no escape character, and so no styling of its own.
pub open spec fn escape_free(s: Seq<char>) -> bool {
    forall|i: int| 0 <= i < s.len() ==> s[i] != '\u{1b}'
}

/// `console::style(text).green().to_string()`.
///
/// The library writes `ESC[32m`, the text and `ESC[0m` where colours are
/// switched on for standard output, and the text alone where they are not.
/// Which of the two it is depends on the terminal and on the settings of
/// the process, so the contract allows both and nothing else.
#[verifier::external_body]
fn style_green(text: &str) -> (out: String)
    ensures
        styled_as(out@, text@, sgr_green()),
{
    console::style(text).green().to_string()
}

/// `console::style(text).red().to_string()`.
///
/// As [`style_green`], with `ESC[31m` for the colour code.
#[verifier::external_body]
fn style_red(text: &str) -> (out: String)
    ensures
        styled_as(out@, text@, sgr_red()),
{
    console::style(text).red().to_string()
}

/// Styles one segment: red where it is emphasized, green where it is not.
pub fn style_segment(segment: &TextSegment) -> (out: String)
    ensures
        styled_as(out@, segment@.content, accent(segment@.emphasized)),
{
    if segment.emphasized {
        style_red(segment.content.as_str())
    } else {
        style_green(segment.content.as_str())
    }
}

/// Styles every segment by itself, in order.
pub fn style_segments(segments: &Vec<TextSegment>) -> (pieces: Vec<String>)
    ensures
        styled_pieces(string_views(pieces@), segment_models(segments@)),
{
    let mut pieces: Vec<String> = Vec::new();
    let mut i: usize = 0;
    while i < segments.len()
        invariant
            i <= segments.len(),
            styled_pieces(string_views(pieces@), segment_models(segments@).take(i as int)),
        decreases segments.len() - i,
    {
        let piece = style_segment(&segments[i]);
        proof {
            let before = string_views(pieces@);
            let after = string_views(pieces@.push(piece));
            assert forall|j: int| 0 <= j < after.len() implies styled_as(
                #[trigger] after[j],
                segment_models(segments@).take(i + 1)[j].content,
                accent(segment_models(segments@).take(i + 1)[j].emphasized),
            ) by {
                if j < i {
                    assert(after[j] == before[j]);
                }
            }
        }
        pieces.push(piece);
        i += 1;
    }
    pieces
}

/// Joins `pieces` in order, with nothing between them.
pub fn join_pieces(pieces: &Vec<String>) -> (out: String)
    ensures
        out@ == string_views(pieces@).flatten(),
{
    let mut out = String::new();
    let mut i: usize = 0;
    while i < pieces.len()
        invariant
            i <= pieces.len(),
            out@ == string_views(pieces@).take(i as int).flatten(),
        decreases pieces.len() - i,
    {
        proof {
            let done = string_views(pieces@).take(i as int);
            assert(string_views(pieces@).take(i + 1) == done.push(pieces[i as int]@));
            done.lemma_flatten_push(pieces[i as int]@);
        }
        out.append(pieces[i].as_str());
        i += 1;
    }
    proof {
        assert(string_views(pieces@).take(i as int) == string_views(pieces@));
    }
    out
}

/// Renders `segments` as one string: every segment styled by itself, the
/// pieces joined in order.
pub fn render_segments(segments: &Vec<TextSegment>) -> (out: String)
    ensures
        is_rendering(out@, segment_models(segments@)),
{
    let pieces = style_segments(segments);
    join_pieces(&pieces)
}

/// Stripping a rendering leaves the plain text. Where no segment holds an
/// escape character of its own, every rendering of the segments, with or
/// without colour codes, strips to their contents joined in order.
pub proof fn lemma_strip_rendering(out: Seq<char>, segments: Seq<SegmentModel>)
    requires
        is_rendering(out, segments),
        forall|i: int| 0 <= i < segments.len() ==> escape_free(#[trigger] segments[i].content),
    ensures
        strip_styling(out) == plain_text(segments),
{
    let pieces = choose|pieces: Seq<Seq<char>>| #[trigger]
        styled_pieces(pieces, segments) && out == pieces.flatten();
    lemma_strip_pieces(pieces, segments);
}

/// Stripping a rendered statement leaves its plain text. Where a text
/// holds no escape character, every rendering of its segments strips to the
/// text without its markup characters.
pub proof fn lemma_strip_statement(text: Seq<char>, out: Seq<char>)
    requires
        escape_free(text),
        is_rendering(out, segments_of(text)),
    ensures
        strip_styling(out) == plain_text(segments_of(text)),
{
    let segments = segments_of(text);
    lemma_segments_are_parts(text);
    assert forall|i: int| 0 <= i < segments.len() implies escape_free(
        #[trigger] segments[i].content,
    ) by {
        // The content is a run of characters of the text, which holds no
        // escape character.
        let content = segments[i].content;
        let (from, to) = choose|from: int, to: int|
            0 <= from <= to <= text.len() && content == #[trigger] text.subrange(from, to);
        assert(escape_free(text.subrange(from, to)));
    }
    lemma_strip_rendering(out, segments);
}

/// Round trip. Where a text holds no well-formed `![inner]` and no styling
/// of its own, stripping the styling from any rendering of its segments
/// gives the text back, character by character.
pub proof fn lemma_round_trip(text: Seq<char>, out: Seq<char>)
    requires
        markup_spans(text).len() == 0,
        strip_styling(text) == text,
        is_rendering(out, segments_of(text)),
    ensures
        strip_styling(out) == text,
{
    lemma_text_without_markup(text);
    let segments = segments_of(text);
    let pieces = choose|pieces: Seq<Seq<char>>| #[trigger]
        styled_pieces(pieces, segments) && out == pieces.flatten();
    if text.len() > 0 {
        // The text is one plain segment, so the rendering is one piece.
        pieces.lemma_flatten_singleton();
        if pieces[0] != text {
            assert(pieces[0] == sgr_green() + (text + sgr_reset()));
            lemma_strip_code(sgr_green(), text + sgr_reset());
            lemma_strip_before_reset(text);
        }
    }
}

/// Stripping never lengthens a text.
proof fn lemma_strip_len(s: Seq<char>)
    ensures
        strip_styling(s).len() <= s.len(),
    decreases s.len(),
{
    if s.len() > 0 {
        if styling_len(s) > 0 {
            lemma_strip_len(s.skip(styling_len(s)));
        } else {
            lemma_strip_len(s.drop_first());
        }
    }
}

/// Text without an escape character passes through stripping unchanged,
/// whatever follows it.
proof fn lemma_strip_plain_prefix(plain: Seq<char>, tail: Seq<char>)
    requires
        escape_free(plain),
    ensures
        strip_styling(plain + tail) == plain + strip_styling(tail),
    decreases plain.len(),
{
    if plain.len() > 0 {
        // The first character is no escape character, so it stays.
        assert((plain + tail).drop_first() == plain.drop_first() + tail);
        lemma_strip_plain_prefix(plain.drop_first(), tail);
    }
}

/// A colour code or a reset in front of a text is stripped whole.
proof fn lemma_strip_code(code: Seq<char>, tail: Seq<char>)
    requires
        code == sgr_green() || code == sgr_red() || code == sgr_reset(),
    ensures
        strip_styling(code + tail) == strip_styling(tail),
{
    let s = code + tail;
    reveal_with_fuel(parameters_end, 3);
    if code == sgr_reset() {
        assert(s.skip(4) == tail);
    } else {
        assert(s.skip(5) == tail);
    }
}

/// A styled piece in front of a text strips to the bare text of the piece,
/// then what the rest strips to.
proof fn lemma_strip_piece(piece: Seq<char>, content: Seq<char>, code: Seq<char>, tail: Seq<char>)
    requires
        styled_as(piece, content, code),
        code == sgr_green() || code == sgr_red(),
        escape_free(content),
    ensures
        strip_styling(piece + tail) == content + strip_styling(tail),
{
    if piece == content {
        lemma_strip_plain_prefix(content, tail);
    } else {
        assert(piece + tail == code + (content + (sgr_reset() + tail)));
        lemma_strip_code(code, content + (sgr_reset() + tail));
        lemma_strip_plain_prefix(content, sgr_reset() + tail);
        lemma_strip_code(sgr_reset(), tail);
    }
}

/// [`lemma_strip_rendering`], for given pieces.
proof fn lemma_strip_pieces(pieces: Seq<Seq<char>>, segments: Seq<SegmentModel>)
    requires
        styled_pieces(pieces, segments),
        forall|i: int| 0 <= i < segments.len() ==> escape_free(#[trigger] segments[i].content),
    ensures
        strip_styling(pieces.flatten()) == plain_text(segments),
    decreases pieces.len(),
{
    let contents = segments.map_values(|s: SegmentModel| s.content);
    if pieces.len() > 0 {
        let later = pieces.drop_first();
        assert(styled_pieces(later, segments.drop_first()));
        lemma_strip_pieces(later, segments.drop_first());
        lemma_strip_piece(
            pieces[0],
            segments[0].content,
            accent(segments[0].emphasized),
            later.flatten(),
        );
        assert(contents.drop_first() == segments.drop_first().map_values(
            |s: SegmentModel| s.content,
        ));
    }
}

/// Appending text that begins with no parameter character moves no end of
/// a parameter run.
proof fn lemma_parameters_end_append(text: Seq<char>, tail: Seq<char>, from: int)
    requires
        0 <= from <= text.len(),
        tail.len() > 0,
        !is_parameter(tail[0]),
    ensures
        parameters_end(text + tail, from) == parameters_end(text, from),
        from <= parameters_end(text, from) <= text.len(),
    decreases text.len() - from,
{
    if from < text.len() && is_parameter(text[from]) {
        lemma_parameters_end_append(text, tail, from + 1);
    }
}

/// A text that stripping leaves alone is left alone in front of a reset
/// too, and the reset goes.
proof fn lemma_strip_before_reset(text: Seq<char>)
    requires
        strip_styling(text) == text,
    ensures
        strip_styling(text + sgr_reset()) == text,
    decreases text.len(),
{
    let reset = sgr_reset();
    let s = text + reset;
    if text.len() == 0 {
        lemma_strip_code(reset, text);
    } else {
        let sub = text.drop_first();
        // The text begins with no styling sequence: stripping would
        // shorten it.
        assert(styling_len(text) == 0) by {
            if styling_len(text) > 0 {
                lemma_strip_len(text.skip(styling_len(text)));
            }
        }
        assert(strip_styling(sub) == sub);
        // Nor does it with the reset behind it: a parameter run that
        // reaches the reset ends at its escape character, not at an `m`.
        assert(styling_len(s) == 0) by {
            if text.len() > 1 {
                lemma_parameters_end_append(text, reset, 2);
            }
        }
        assert(s.drop_first() == sub + reset);
        lemma_strip_before_reset(sub);
    }
}

} // verus!
