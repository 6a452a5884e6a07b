use kept::cell::wrap::{parse_heading_tags, parse_inline_tags, wrap_paragraph_into, wrap_text_styled};

#[test]
fn parse_inline_tags_finds_word_boundary_tags_only() {
    let text = "alpha #foo and #bar plus url#frag and #";
    let names: Vec<&str> = parse_inline_tags(text)
        .iter()
        .map(|r| &text[r.start..r.end])
        .collect();
    assert_eq!(names, vec!["#foo", "#bar", "#"]);
}

// Every character is nine wide.
fn width(n: usize) -> f32 {
    n as f32 * 9.0
}

#[test]
fn long_word_breaks_inside_when_no_whitespace() {
    let long: String = "a".repeat(200);
    let mut out = Vec::new();
    let too_wide = |from: usize, to: usize| width(to - from) > 100.0;
    wrap_paragraph_into(&long, 0, long.len(), &too_wide, &mut out);
    assert!(out.len() > 1, "long word must break into multiple lines");
    for line in &out {
        let w = width(line.end - line.start);
        assert!(
            w <= 100.0 || (line.end - line.start) <= 1,
            "line width {} exceeds max_width 100",
            w,
        );
    }
    assert_eq!(out.first().unwrap().start, 0);
    assert_eq!(out.last().unwrap().end, long.len());
}

#[test]
fn long_word_followed_by_short_word_wraps_correctly() {
    let text = format!("{} tail", "x".repeat(200));
    let mut out = Vec::new();
    let too_wide = |from: usize, to: usize| width(to - from) > 100.0;
    wrap_paragraph_into(&text, 0, text.len(), &too_wide, &mut out);
    let last = out.last().unwrap();
    assert!(
        text[last.start..last.end].ends_with("tail"),
        "tail word must land on the final line, got {:?}",
        &text[last.start..last.end],
    );
}

#[test]
fn tags_close_a_heading_only_at_its_end() {
    let text = "a #b c #d #e";
    assert_eq!(parse_heading_tags(text, text.len()), vec![7..9, 10..12]);
    assert_eq!(parse_heading_tags("no tags", 7), Vec::new());
    assert_eq!(parse_heading_tags("", 0), Vec::new());
}

#[test]
fn paragraphs_are_wrapped_apart() {
    let never = |_from: usize, _to: usize| false;
    let (lines, headings, comments) = wrap_text_styled("one\n# two", &never, false, true);
    assert_eq!(lines, vec![0..4, 4..9]);
    assert_eq!(headings, vec![false, false]);
    assert_eq!(comments, vec![false, true]);
}
