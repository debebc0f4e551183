use courtroom::dialogue::Statement;
use courtroom::markup::TextSegment;
use courtroom::render::{join_pieces, render_segments, style_segment};

fn segment(content: &str, emphasized: bool) -> TextSegment {
    TextSegment { content: content.to_string(), emphasized }
}

#[test]
fn without_colours_a_segment_is_its_bare_text() {
    console::set_colors_enabled(false);
    assert_eq!(style_segment(&segment("hello", false)), "hello");
    assert_eq!(style_segment(&segment("Revolver", true)), "Revolver");
}

#[test]
fn without_colours_rendering_is_the_plain_text() {
    console::set_colors_enabled(false);
    let out = render_segments(&vec![segment("a ", false), segment("b", true), segment(" c", false)]);
    assert_eq!(out, "a b c");
}

#[test]
fn without_colours_format_text_drops_only_the_markup() {
    console::set_colors_enabled(false);
    let line = Statement::new("The culprit used the ![Revolver] to commit the crime.".to_string(), None);
    assert_eq!(line.format_text(), "The culprit used the Revolver to commit the crime.");
    let plain = Statement::new("I was at home all night.".to_string(), None);
    assert_eq!(plain.format_text(), "I was at home all night.");
}

#[test]
fn join_pieces_concatenates_in_order() {
    let pieces = vec!["ab".to_string(), String::new(), "c".to_string(), " d".to_string()];
    assert_eq!(join_pieces(&pieces), "abc d");
    assert_eq!(join_pieces(&Vec::new()), "");
}
