use mdroll::ir::{Color, Image, Rect, Scale, Style};

#[test]
fn style_patch_unions_attributes_and_prefers_new_colors() {
    let base = Style {
        fg: Some(Color::Red),
        bold: true,
        ..Style::plain()
    };
    let over = Style {
        fg: Some(Color::Blue),
        italic: true,
        ..Style::plain()
    };
    let merged = base.patch(over);
    assert_eq!(merged.fg, Some(Color::Blue));
    assert!(merged.bold && merged.italic);
}

#[test]
fn style_patch_keeps_old_color_when_new_has_none() {
    let base = Style::fg(Color::Red);
    let merged = base.patch(Style {
        bold: true,
        ..Style::plain()
    });
    assert_eq!(merged.fg, Some(Color::Red));
}

#[test]
fn an_image_with_no_asked_size_is_drawn_as_it_is() {
    let mut image = Image::new("a.png", "");
    image.measured((400, 200));
    assert_eq!(image.size, Some((400, 200)));
}

#[test]
fn one_asked_dimension_scales_the_other_with_it() {
    let mut image = Image::new("logo.svg", "").asked(Some(240), None);
    image.measured((1200, 300));
    assert_eq!(image.size, Some((240, 60)));

    let mut image = Image::new("logo.svg", "").asked(None, Some(30));
    image.measured((1200, 300));
    assert_eq!(image.size, Some((120, 30)));
}

#[test]
fn asking_for_both_dimensions_wins_outright() {
    let mut image = Image::new("logo.svg", "").asked(Some(100), Some(100));
    image.measured((1200, 300));
    assert_eq!(image.size, Some((100, 100)));
}

#[test]
fn a_degenerate_measurement_is_survivable() {
    let mut image = Image::new("broken.svg", "").asked(Some(240), None);
    image.measured((0, 0));
    assert_eq!(image.size, Some((240, 240)));
}

#[test]
fn scaling_rounds_up() {
    let mut image = Image::new("a.png", "").asked(Some(100), None);
    image.measured((300, 100));
    assert_eq!(image.size, Some((100, 34)));
}

#[test]
fn a_double_height_line_costs_two_rows() {
    assert_eq!(Scale::Normal.rows(), 1);
    assert_eq!(Scale::DoubleHeight.rows(), 2);
}

#[test]
fn a_rect_contains_its_corner_but_not_its_far_edge() {
    let r = Rect { x: 2, y: 3, w: 4, h: 1 };
    assert!(r.contains(2, 3));
    assert!(r.contains(5, 3));
    assert!(!r.contains(6, 3));
    assert!(!r.contains(2, 4));
}

use mdroll::ir::{Block, BlockKind, Document, Line, Span};

#[test]
fn source_of_slices_the_original_lines() {
    let doc = Document {
        source_lines: vec!["a".into(), "b".into(), "c".into()],
        ..Document::default()
    };
    let block = Block::new(BlockKind::Para, 2..4);
    assert_eq!(doc.source_of(&block), "b\nc");
}

#[test]
fn source_of_clamps_past_the_end() {
    let doc = Document {
        source_lines: vec!["a".into()],
        ..Document::default()
    };
    let block = Block::new(BlockKind::Para, 1..9);
    assert_eq!(doc.source_of(&block), "a");
    let empty = Block::new(BlockKind::Para, 5..9);
    assert_eq!(doc.source_of(&empty), "");
}

#[test]
fn a_block_knows_its_text_and_level() {
    let mut block = Block::new(BlockKind::Heading(2), 1..2);
    block.spans = vec![Span::plain("Intro"), Span::plain("duction")];
    block.prefix = vec![Span::plain("• ")];
    assert_eq!(block.text(), "Introduction");
    assert_eq!(block.plain_text(), "• Introduction");
    assert_eq!(block.heading_level(), Some(2));
    assert_eq!(Block::new(BlockKind::Para, 1..2).heading_level(), None);
}

#[test]
fn a_line_of_spaces_is_blank() {
    let line = Line::new(1, 0, vec![Span::plain("  "), Span::plain("\t")]);
    assert!(line.is_blank());
    assert_eq!(line.text(), "  \t");
    assert!(!Line::new(1, 0, vec![Span::plain(" x")]).is_blank());
}
