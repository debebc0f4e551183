use courtroom::markup::{find_spans, parse_markup, MarkupSpan, TextSegment};
use regex::Regex;

fn plain(content: &str) -> TextSegment {
    TextSegment { content: content.to_string(), emphasized: false }
}

fn emphasized(content: &str) -> TextSegment {
    TextSegment { content: content.to_string(), emphasized: true }
}

/// The spans as the regular expression `!\[(.*?)\]` finds them, `.` matching
/// every character, in character positions.
fn spans_by_regex(text: &str) -> Vec<MarkupSpan> {
    let pattern = Regex::new(r"(?s)!\[(.*?)\]").unwrap();
    pattern
        .find_iter(text)
        .map(|m| MarkupSpan {
            start: text[..m.start()].chars().count(),
            end: text[..m.end()].chars().count(),
        })
        .collect()
}

/// The text that the segments were written as.
fn written(segments: &[TextSegment]) -> String {
    let mut out = String::new();
    for segment in segments {
        if segment.emphasized {
            out.push_str("![");
            out.push_str(&segment.content);
            out.push(']');
        } else {
            out.push_str(&segment.content);
        }
    }
    out
}

const SAMPLES: [&str; 16] = [
    "",
    "plain text only",
    "The culprit used the ![Revolver] to commit the crime.",
    "![a] and ![b]",
    "![a]![b]",
    "![]",
    "![",
    "![never closed",
    "closed] but never ![opened",
    "!![x]]",
    "![a![b]c]",
    "! [not markup] and [not markup either]",
    "![first line\nsecond line] after",
    "Die ![Tatwaffe] gehört Jörg — ![größte] Überraschung",
    "証拠は![リボルバー]です",
    "tail ![",
];

#[test]
fn parse_revolver_statement() {
    let segments = parse_markup("The culprit used the ![Revolver] to commit the crime.");
    assert_eq!(
        segments,
        vec![plain("The culprit used the "), emphasized("Revolver"), plain(" to commit the crime.")]
    );
}

#[test]
fn parse_empty_text_gives_no_segment() {
    assert_eq!(parse_markup(""), Vec::<TextSegment>::new());
}

#[test]
fn parse_text_without_markup_is_one_plain_segment() {
    assert_eq!(parse_markup("Nothing to see here."), vec![plain("Nothing to see here.")]);
}

#[test]
fn parse_unclosed_markup_is_plain_text() {
    assert_eq!(parse_markup("He held ![the knife"), vec![plain("He held ![the knife")]);
    assert_eq!(parse_markup("!["), vec![plain("![")]);
}

#[test]
fn parse_empty_inner_gives_empty_emphasized_segment() {
    assert_eq!(parse_markup("![]"), vec![emphasized("")]);
    assert_eq!(parse_markup("a![]b"), vec![plain("a"), emphasized(""), plain("b")]);
}

#[test]
fn parse_two_spans_are_matched_separately() {
    assert_eq!(parse_markup("![a] and ![b]"), vec![emphasized("a"), plain(" and "), emphasized("b")]);
}

#[test]
fn parse_adjacent_spans_leave_no_empty_plain_segment() {
    assert_eq!(parse_markup("![a]![b]"), vec![emphasized("a"), emphasized("b")]);
}

#[test]
fn parse_nearest_bracket_closes_the_span() {
    assert_eq!(parse_markup("![a![b]c]"), vec![emphasized("a![b"), plain("c]")]);
    assert_eq!(parse_markup("!![x]]"), vec![plain("!"), emphasized("x"), plain("]")]);
}

#[test]
fn parse_span_may_run_over_a_line_break() {
    assert_eq!(
        parse_markup("![first line\nsecond line] after"),
        vec![emphasized("first line\nsecond line"), plain(" after")]
    );
}

#[test]
fn parse_counts_characters_not_bytes() {
    assert_eq!(
        parse_markup("証拠は![リボルバー]です"),
        vec![plain("証拠は"), emphasized("リボルバー"), plain("です")]
    );
    assert_eq!(find_spans("証拠は![リボルバー]です"), vec![MarkupSpan { start: 3, end: 11 }]);
}

#[test]
fn find_spans_gives_positions() {
    assert_eq!(
        find_spans("The culprit used the ![Revolver] to commit the crime."),
        vec![MarkupSpan { start: 21, end: 32 }]
    );
    assert_eq!(
        find_spans("![a] and ![b]"),
        vec![MarkupSpan { start: 0, end: 4 }, MarkupSpan { start: 9, end: 13 }]
    );
    assert_eq!(find_spans("![]"), vec![MarkupSpan { start: 0, end: 3 }]);
    assert_eq!(find_spans("no markup ]["), Vec::<MarkupSpan>::new());
}

#[test]
fn find_spans_agrees_with_the_regular_expression() {
    for text in SAMPLES {
        assert_eq!(find_spans(text), spans_by_regex(text), "text: {:?}", text);
    }
}

#[test]
fn find_spans_agrees_with_the_regular_expression_on_generated_texts() {
    let alphabet = ['!', '[', ']', 'a', ' ', '\n', 'é'];
    let mut state: u64 = 0x2545_f491_4f6c_dd1d;
    for _ in 0..3000 {
        let mut text = String::new();
        state ^= state << 13;
        state ^= state >> 7;
        state ^= state << 17;
        let length = (state % 14) as usize;
        for _ in 0..length {
            state ^= state << 13;
            state ^= state >> 7;
            state ^= state << 17;
            text.push(alphabet[(state % 7) as usize]);
        }
        assert_eq!(find_spans(&text), spans_by_regex(&text), "text: {:?}", text);
        assert_eq!(written(&parse_markup(&text)), text);
    }
}

#[test]
fn on_single_lines_the_dot_need_not_match_line_breaks() {
    let pattern = Regex::new(r"!\[(.*?)\]").unwrap();
    for text in SAMPLES {
        if text.contains('\n') {
            continue;
        }
        let inners: Vec<String> =
            pattern.captures_iter(text).map(|found| found[1].to_string()).collect();
        let emphasized: Vec<String> = parse_markup(text)
            .into_iter()
            .filter(|segment| segment.emphasized)
            .map(|segment| segment.content)
            .collect();
        assert_eq!(emphasized, inners, "text: {:?}", text);
    }
}

#[test]
fn spans_do_not_overlap() {
    for text in SAMPLES {
        let spans = find_spans(text);
        let length = text.chars().count();
        let mut last_end = 0;
        for span in &spans {
            assert!(last_end <= span.start, "text: {:?}", text);
            assert!(span.start + 2 < span.end && span.end <= length, "text: {:?}", text);
            last_end = span.end;
        }
    }
}

#[test]
fn parse_twice_gives_the_same_segments() {
    for text in SAMPLES {
        assert_eq!(parse_markup(text), parse_markup(text));
    }
}

#[test]
fn segments_written_out_again_give_the_text() {
    for text in SAMPLES {
        assert_eq!(written(&parse_markup(text)), text);
    }
}

#[test]
fn plain_segments_are_never_empty() {
    for text in SAMPLES {
        for segment in parse_markup(text) {
            assert!(segment.emphasized || !segment.content.is_empty(), "text: {:?}", text);
        }
    }
}
