use mdroll::ir::{Color, Hit, HitTarget, ImageId, Line, LinkId, Rect, Scale, Span, Style};
use mdroll::render::{
    apply_range, decorate, dimmed, frame_rows, heading_decor, heading_runs, rgb_of, rgb_to_ansi256, row_window,
    screen_hits, stamp, Decor, Highlight, Overlay, Placement,
};
use mdroll::theme::Theme;
use mdroll::width::WidthCalc;

fn plain() -> Style {
    Style::plain()
}

fn texts(spans: &[Span]) -> Vec<String> {
    spans.iter().map(|s| s.text.clone()).collect()
}

#[test]
fn rgb_downgrades_to_the_nearest_palette_entry() {
    assert_eq!(rgb_to_ansi256(0, 0, 0), 16);
    assert_eq!(rgb_to_ansi256(255, 255, 255), 231);
    assert_eq!(rgb_to_ansi256(255, 0, 0), 196);
    assert_eq!(rgb_to_ansi256(0, 255, 0), 46);
}

#[test]
fn near_grays_use_the_gray_ramp() {
    assert_eq!(rgb_to_ansi256(128, 128, 128), 232 + 12);
    assert_eq!(rgb_to_ansi256(8, 8, 8), 232);
    assert_eq!(rgb_to_ansi256(115, 0, 116), 16 + 36 + 2);
}

#[test]
fn dimming_scales_each_channel() {
    assert_eq!(dimmed((100, 200, 255)), (55, 110, 140));
    assert_eq!(rgb_of(Color::Rgb { r: 1, g: 2, b: 3 }), Some((1, 2, 3)));
    assert_eq!(rgb_of(Color::Red), None);
}

#[test]
fn the_first_rectangle_holding_a_cell_wins() {
    let p = Placement {
        hits: vec![
            Hit { rect: Rect { x: 0, y: 0, w: 4, h: 1 }, target: HitTarget::Link(LinkId(1)) },
            Hit { rect: Rect { x: 2, y: 0, w: 4, h: 2 }, target: HitTarget::Image(ImageId(7)) },
        ],
    };
    assert_eq!(p.target_at(3, 0), Some(HitTarget::Link(LinkId(1))));
    assert_eq!(p.target_at(5, 1), Some(HitTarget::Image(ImageId(7))));
    assert_eq!(p.target_at(9, 9), None);
}

#[test]
fn a_heading_keeps_the_colour_of_each_span_inside_it() {
    let heading = Color::Rgb { r: 189, g: 147, b: 249 };
    let code = Color::Rgb { r: 255, g: 121, b: 198 };
    let mut line = Line::new(
        1,
        0,
        vec![Span::new("See ", Style::fg(heading)), Span::new("config.toml", Style::fg(code))],
    );
    line.heading = Some(1);
    let runs = heading_runs(&line, line.text().trim_end().len(), (189, 147, 249));
    assert_eq!(runs.len(), 2, "{runs:?}");
    assert_eq!(runs[0].color, (189, 147, 249));
    assert_eq!(runs[1].color, (255, 121, 198));
}

#[test]
fn a_span_with_no_colour_of_its_own_takes_the_headings() {
    let mut line = Line::new(
        1,
        0,
        vec![Span::plain("  "), Span::new("Title", Style::fg(Color::Rgb { r: 1, g: 2, b: 3 }))],
    );
    line.heading = Some(2);
    let runs = heading_runs(&line, line.text().trim_end().len(), (9, 9, 9));
    assert_eq!(runs[0].color, (9, 9, 9), "the margin took a colour");
    assert_eq!(runs[1].color, (1, 2, 3));
}

#[test]
fn a_span_carries_its_background_into_the_bitmap_and_the_others_get_none() {
    let code = Style {
        fg: Some(Color::Rgb { r: 255, g: 121, b: 198 }),
        bg: Some(Color::Rgb { r: 68, g: 71, b: 90 }),
        ..plain()
    };
    let mut line = Line::new(1, 0, vec![Span::plain("See "), Span::new("config.toml", code)]);
    line.heading = Some(1);
    let runs = heading_runs(&line, line.text().trim_end().len(), (9, 9, 9));
    assert_eq!(runs[0].bg, None, "a plain span was given a background");
    assert_eq!(runs[1].bg, Some((68, 71, 90)));
}

#[test]
fn a_palette_background_is_left_off_the_bitmap_the_way_a_palette_colour_is() {
    let mut line = Line::new(
        1,
        0,
        vec![Span::new("config.toml", Style { bg: Some(Color::AnsiValue(4)), ..plain() })],
    );
    line.heading = Some(1);
    let runs = heading_runs(&line, line.text().trim_end().len(), (9, 9, 9));
    assert_eq!(runs[0].bg, None);
}

#[test]
fn trailing_blank_is_cut_from_the_runs_rather_than_the_joined_string() {
    let mut line = Line::new(1, 0, vec![Span::plain("Title"), Span::plain("      ")]);
    line.heading = Some(1);
    let runs = heading_runs(&line, line.text().trim_end().len(), (9, 9, 9));
    assert_eq!(runs.len(), 1, "{runs:?}");
    assert_eq!(runs[0].text, "Title");
}

#[test]
fn a_cut_inside_a_span_counts_bytes_not_characters() {
    let line = Line::new(1, 0, vec![Span::plain("héllo"), Span::plain("x")]);
    let runs = heading_runs(&line, 3, (1, 1, 1));
    assert_eq!(runs.len(), 1);
    assert_eq!(runs[0].text, "hé");
}

#[test]
fn a_search_highlight_only_restyles_its_own_columns() {
    let calc = WidthCalc::default();
    let spans = vec![Span::plain("abcdef")];
    let out = apply_range(&spans, 2, 4, Style { reverse: true, ..plain() }, &calc);
    let texts: Vec<&str> = out.iter().map(|s| s.text.as_str()).collect();
    assert_eq!(texts, vec!["ab", "cd", "ef"]);
    assert!(!out[0].style.reverse && out[1].style.reverse && !out[2].style.reverse);
}

#[test]
fn a_highlight_counts_wide_characters_as_two_columns() {
    let calc = WidthCalc::default();
    let spans = vec![Span::plain("日本x"), Span::plain("yz")];
    let out = apply_range(&spans, 2, 5, Style { bold: true, ..plain() }, &calc);
    assert_eq!(texts(&out), vec!["日", "本x", "yz"]);
    assert!(!out[0].style.bold && out[1].style.bold && !out[2].style.bold);
    let across = apply_range(&spans, 3, 6, Style { bold: true, ..plain() }, &calc);
    assert_eq!(texts(&across), vec!["日本", "x", "y", "z"]);
    assert!(!across[0].style.bold && across[1].style.bold && across[2].style.bold && !across[3].style.bold);
}

#[test]
fn an_overlay_replaces_the_columns_under_it() {
    let calc = WidthCalc::default();
    let spans = vec![Span::plain("abcdefgh")];
    let label = Overlay { line: 0, col: 2, text: "XY".to_string(), style: Style { reverse: true, ..plain() } };
    let out = stamp(&spans, &label, &calc);
    assert_eq!(texts(&out), vec!["ab", "XY", "efgh"]);
    assert!(out[1].style.reverse);
}

#[test]
fn an_overlay_past_the_end_of_a_short_row_is_padded_out_to() {
    let calc = WidthCalc::default();
    let spans = vec![Span::plain("ab")];
    let label = Overlay { line: 0, col: 5, text: "Z".to_string(), style: plain() };
    let out = stamp(&spans, &label, &calc);
    assert_eq!(texts(&out), vec!["ab", "   ", "Z"]);
}

#[test]
fn the_cursor_block_is_patched_and_other_rows_are_left_alone() {
    let calc = WidthCalc::default();
    let cursor = Style { reverse: true, ..plain() };
    let decor = Decor { cursor_block: Some(3), selection: None, cursor_style: cursor, highlights: vec![], overlays: vec![] };
    let inside = Line::new(1, 3, vec![Span::plain("ab"), Span::plain("cd")]);
    let outside = Line::new(1, 4, vec![Span::plain("ab")]);
    let a = decorate(&decor, 0, &inside, &calc);
    assert!(a.iter().all(|s| s.style.reverse));
    let b = decorate(&decor, 1, &outside, &calc);
    assert!(!b[0].style.reverse);
}

#[test]
fn a_selection_covers_its_rows_whichever_end_it_was_started_from() {
    let calc = WidthCalc::default();
    let decor = Decor {
        cursor_block: None,
        selection: Some((5, 2)),
        cursor_style: Style { underline: true, ..plain() },
        highlights: vec![],
        overlays: vec![],
    };
    let line = Line::new(1, 0, vec![Span::plain("row")]);
    assert!(decorate(&decor, 2, &line, &calc)[0].style.underline);
    assert!(decorate(&decor, 5, &line, &calc)[0].style.underline);
    assert!(!decorate(&decor, 6, &line, &calc)[0].style.underline);
}

#[test]
fn highlights_and_overlays_apply_only_to_their_own_row() {
    let calc = WidthCalc::default();
    let decor = Decor {
        cursor_block: None,
        selection: None,
        cursor_style: plain(),
        highlights: vec![Highlight { line: 1, start: 0, end: 1, style: Style { bold: true, ..plain() } }],
        overlays: vec![Overlay { line: 1, col: 3, text: "k".to_string(), style: plain() }],
    };
    let line = Line::new(1, 0, vec![Span::plain("abcde")]);
    let row1 = decorate(&decor, 1, &line, &calc);
    assert_eq!(texts(&row1), vec!["a", "bc", "k", "e"]);
    assert!(row1[0].style.bold);
    let row2 = decorate(&decor, 2, &line, &calc);
    assert_eq!(texts(&row2), vec!["abcde"]);
}

#[test]
fn a_double_height_line_that_would_overhang_the_viewport_is_not_drawn() {
    let mut big = Line::new(1, 0, vec![Span::plain("T")]);
    big.scale = Scale::DoubleHeight;
    let lines = vec![Line::new(1, 0, vec![]), Line::new(2, 0, vec![]), big, Line::new(3, 0, vec![])];
    let (rows, end) = frame_rows(&lines, 0, 3);
    assert_eq!(rows, vec![(0, 0), (1, 1)]);
    assert_eq!(end, 2);
    let (rows, end) = frame_rows(&lines, 2, 3);
    assert_eq!(rows, vec![(2, 0), (3, 2)]);
    assert_eq!(end, 3);
    let (rows, end) = frame_rows(&lines, 9, 3);
    assert!(rows.is_empty());
    assert_eq!(end, 0);
}

#[test]
fn a_double_height_row_is_cut_to_half_the_columns_and_half_the_offset() {
    assert_eq!(row_window(Scale::DoubleHeight, 81, 7), (40, 3));
    assert_eq!(row_window(Scale::Normal, 81, 7), (81, 7));
}

#[test]
fn hit_rectangles_follow_the_horizontal_scroll() {
    let hits = vec![
        Hit { rect: Rect { x: 2, y: 0, w: 3, h: 1 }, target: HitTarget::Link(LinkId(0)) },
        Hit { rect: Rect { x: 10, y: 0, w: 4, h: 1 }, target: HitTarget::Link(LinkId(1)) },
    ];
    let out = screen_hits(&hits, 4, 7);
    assert_eq!(out.len(), 2);
    assert_eq!(out[0].rect, Rect { x: 0, y: 7, w: 3, h: 1 });
    assert_eq!(out[1].rect, Rect { x: 6, y: 7, w: 4, h: 1 });
    let gone = screen_hits(&hits, 5, 0);
    assert_eq!(gone.len(), 1);
    assert_eq!(gone[0].target, HitTarget::Link(LinkId(1)));
}

#[test]
fn a_heading_level_the_theme_leaves_alone_gets_a_dimmed_border_when_drawn_large() {
    let theme = Theme::default();
    let d = heading_decor(&theme, Some(1), (100, 200, 255));
    assert_eq!(d.border, Some((55, 110, 140)));
    assert_eq!(d.bar, None);
    let plain_row = heading_decor(&theme, None, (100, 200, 255));
    assert_eq!(plain_row.border, None);
    assert_eq!(heading_decor(&theme, Some(9), (1, 1, 1)).border, heading_decor(&theme, Some(6), (1, 1, 1)).border);
}
