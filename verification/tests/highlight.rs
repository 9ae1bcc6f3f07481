use textnav::highlight::{
    apply, current_highlight, highlight, Alignment, Color, Line, Span, Style,
};
use textnav::search::Match;

fn plain() -> Style {
    Style { fg: None, bg: None, underline_color: None, add_modifier: 0, sub_modifier: 0 }
}

fn red() -> Style {
    Style { fg: Some(Color::Red), bg: None, underline_color: None, add_modifier: 1, sub_modifier: 0 }
}

fn span(text: &str, style: Style) -> Span {
    Span { content: text.to_string(), style }
}

fn line(spans: Vec<Span>) -> Line {
    Line { spans, style: plain(), alignment: None }
}

fn m(line: usize, start: usize, end: usize) -> Match {
    Match { line, start, end }
}

fn texts(l: &Line) -> Vec<String> {
    l.spans.iter().map(|s| s.content.clone()).collect()
}

#[test]
fn highlight_styles_are_distinct() {
    let h = highlight();
    let c = current_highlight();
    assert_eq!(h.fg, Some(Color::Black));
    assert_eq!(h.bg, Some(Color::Yellow));
    assert_eq!(c.fg, Some(Color::Black));
    assert_eq!(c.bg, Some(Color::Cyan));
    assert_ne!(h, c);
}

#[test]
fn patch_overrides_set_colours_and_modifiers() {
    let base = Style {
        fg: Some(Color::Red),
        bg: Some(Color::Blue),
        underline_color: Some(Color::Green),
        add_modifier: 0b0101,
        sub_modifier: 0b1000,
    };
    let other = Style {
        fg: Some(Color::Black),
        bg: None,
        underline_color: None,
        add_modifier: 0b1000,
        sub_modifier: 0b0001,
    };
    let p = base.patch(other);
    assert_eq!(p.fg, Some(Color::Black));
    assert_eq!(p.bg, Some(Color::Blue));
    assert_eq!(p.underline_color, Some(Color::Green));
    assert_eq!(p.add_modifier, 0b1100);
    assert_eq!(p.sub_modifier, 0b0001);
}

#[test]
fn line_without_matches_is_unchanged() {
    let lines = vec![line(vec![span("hello", red())])];
    let out = apply(&lines, &[m(1, 0, 2)], 0);
    assert_eq!(out, lines);
}

#[test]
fn match_inside_one_span_splits_it() {
    let lines = vec![line(vec![span("hello world", red())])];
    let out = apply(&lines, &[m(0, 6, 11)], 5);
    assert_eq!(out.len(), 1);
    assert_eq!(texts(&out[0]), vec!["hello ", "world"]);
    assert_eq!(out[0].spans[0].style, red());
    assert_eq!(out[0].spans[1].style, red().patch(highlight()));
}

#[test]
fn current_match_gets_current_style() {
    let lines = vec![line(vec![span("ab ab", plain())])];
    let out = apply(&lines, &[m(0, 0, 2), m(0, 3, 5)], 1);
    assert_eq!(texts(&out[0]), vec!["ab", " ", "ab"]);
    assert_eq!(out[0].spans[0].style, plain().patch(highlight()));
    assert_eq!(out[0].spans[1].style, plain());
    assert_eq!(out[0].spans[2].style, plain().patch(current_highlight()));
}

#[test]
fn match_across_spans_splits_both() {
    let lines = vec![line(vec![span("abc", red()), span("def", plain())])];
    let out = apply(&lines, &[m(0, 2, 4)], 0);
    assert_eq!(texts(&out[0]), vec!["ab", "c", "d", "ef"]);
    assert_eq!(out[0].spans[0].style, red());
    assert_eq!(out[0].spans[1].style, red().patch(current_highlight()));
    assert_eq!(out[0].spans[2].style, plain().patch(current_highlight()));
    assert_eq!(out[0].spans[3].style, plain());
}

#[test]
fn out_of_range_and_empty_matches_are_skipped() {
    let lines = vec![line(vec![span("abc", red())])];
    let out = apply(&lines, &[m(0, 1, 9), m(0, 2, 2), m(0, 3, 1), m(7, 0, 1)], 0);
    assert_eq!(out, lines);
}

#[test]
fn match_off_char_boundary_is_skipped() {
    let lines = vec![line(vec![span("héllo", plain())])];
    let out = apply(&lines, &[m(0, 2, 4)], 0);
    assert_eq!(out, lines);
    let out = apply(&lines, &[m(0, 1, 3)], 0);
    assert_eq!(texts(&out[0]), vec!["h", "é", "llo"]);
}

#[test]
fn line_style_and_alignment_are_kept() {
    let lines = vec![Line {
        spans: vec![span("xyz", plain())],
        style: red(),
        alignment: Some(Alignment::Center),
    }];
    let out = apply(&lines, &[m(0, 1, 2)], 0);
    assert_eq!(out[0].style, red());
    assert_eq!(out[0].alignment, Some(Alignment::Center));
    assert_eq!(texts(&out[0]).concat(), "xyz");
}

#[test]
fn every_line_is_returned_in_order() {
    let lines = vec![
        line(vec![span("one", plain())]),
        line(vec![]),
        line(vec![span("three", plain())]),
    ];
    let out = apply(&lines, &[m(2, 0, 5)], 0);
    assert_eq!(out.len(), 3);
    assert_eq!(out[0], lines[0]);
    assert_eq!(out[1], lines[1]);
    assert_eq!(texts(&out[2]), vec!["three"]);
    assert_eq!(out[2].spans[0].style, plain().patch(current_highlight()));
}

#[test]
fn empty_span_inside_a_match_is_highlighted() {
    let lines = vec![line(vec![span("ab", plain()), span("", red()), span("cd", plain())])];
    let out = apply(&lines, &[m(0, 1, 3)], 4);
    assert_eq!(texts(&out[0]), vec!["a", "b", "", "c", "d"]);
    assert_eq!(out[0].spans[2].style, red().patch(highlight()));
}

#[test]
fn current_match_wins_where_matches_overlap() {
    let lines = vec![line(vec![span("abcdef", plain())])];
    let out = apply(&lines, &[m(0, 0, 4), m(0, 2, 6)], 1);
    assert_eq!(texts(&out[0]), vec!["ab", "cd", "ef"]);
    assert_eq!(out[0].spans[0].style, plain().patch(highlight()));
    assert_eq!(out[0].spans[1].style, plain().patch(current_highlight()));
    assert_eq!(out[0].spans[2].style, plain().patch(current_highlight()));
}

#[test]
fn current_match_nested_in_another_gets_current_style() {
    let lines = vec![line(vec![span("abcd", plain())])];
    let out = apply(&lines, &[m(0, 0, 4), m(0, 1, 2)], 1);
    assert_eq!(texts(&out[0]), vec!["a", "b", "cd"]);
    assert_eq!(out[0].spans[0].style, plain().patch(highlight()));
    assert_eq!(out[0].spans[1].style, plain().patch(current_highlight()));
    assert_eq!(out[0].spans[2].style, plain().patch(highlight()));
}

#[test]
fn out_of_range_current_only_uses_plain_highlight() {
    let lines = vec![line(vec![span("abcdef", plain())])];
    let a = apply(&lines, &[m(0, 0, 4), m(0, 2, 6)], 2);
    let b = apply(&lines, &[m(0, 0, 4), m(0, 2, 6)], 99);
    assert_eq!(a, b);
    assert!(a[0].spans.iter().all(|s| s.style == plain().patch(highlight())));
}

#[test]
fn found_matches_are_all_highlighted() {
    let text = vec!["héllo Wörld wörld".to_string()];
    let found = textnav::search::find_matches("wö", &text);
    assert_eq!(found.len(), 2);
    let lines = vec![line(vec![span(&text[0], plain())])];
    let out = apply(&lines, &found, 1);
    assert_eq!(texts(&out[0]), vec!["héllo ", "Wö", "rld ", "wö", "rld"]);
    assert_eq!(out[0].spans[1].style, plain().patch(highlight()));
    assert_eq!(out[0].spans[3].style, plain().patch(current_highlight()));
    assert_eq!(texts(&out[0]).concat(), text[0]);
}
