use mdroll::graphics::CellSize;
use mdroll::ir::{
    Align, Block, BlockKind, Document, HitTarget, Image, ImageId, Line, LinkId, Scale, Span, Style, Table,
};
use mdroll::layout::{layout, row_for_source_line, Options};
use mdroll::screen::Viewport;
use mdroll::theme::Theme;
use mdroll::width::WidthCalc;

/// Cells an image takes: its pixels over the cell size, rounded up, then
/// scaled down to the column and row budget keeping its aspect ratio.
fn fit(px: (u32, u32), cell: CellSize, max_cols: usize, max_rows: usize) -> (u16, u16) {
    let (pw, ph) = (px.0.max(1) as u64, px.1.max(1) as u64);
    let (cw, ch) = (cell.w.max(1) as u64, cell.h.max(1) as u64);
    let max_cols = max_cols.max(1) as u64;
    let max_rows = max_rows.max(1) as u64;
    let mut cols = pw.div_ceil(cw);
    let mut rows = ph.div_ceil(ch);
    if cols > max_cols {
        rows = (rows * max_cols + cols / 2) / cols;
        cols = max_cols;
    }
    if rows > max_rows {
        cols = (cols * max_rows + rows / 2) / rows;
        rows = max_rows;
    }
    (cols.max(1) as u16, rows.max(1) as u16)
}

fn para(text: &str, line: usize, style: Style) -> Block {
    let mut b = Block::new(BlockKind::Para, line..line + 1);
    b.spans = vec![Span::new(text, style)];
    b
}

fn doc_of(blocks: Vec<Block>, source: &str) -> Document {
    Document {
        blocks,
        source_lines: source.lines().map(|l| l.to_string()).collect(),
        ..Document::default()
    }
}

fn render(doc: &Document, cols: u16, opts: Options) -> Vec<String> {
    let theme = Theme::default();
    layout(doc, Viewport::new(cols, 24), &opts, &theme, &fit)
        .iter()
        .map(|l| l.text().trim_end().to_string())
        .collect()
}

fn wrapped(doc: &Document, cols: u16) -> Vec<String> {
    render(doc, cols, Options::default())
}

fn body() -> Style {
    Theme::default().body()
}

fn one_para(text: &str) -> Document {
    doc_of(vec![para(text, 1, body())], text)
}

fn code_doc(lang: Option<&str>, code: &str) -> Document {
    let fence = match lang {
        Some(l) => format!("```{l}"),
        None => "```".to_string(),
    };
    let source = format!("{fence}\n{code}\n```\n");
    let n = source.lines().count();
    let mut b = Block::new(
        BlockKind::Code {
            lang: lang.map(|l| l.to_string()),
        },
        1..n + 1,
    );
    b.spans = vec![Span::new(code, body())];
    doc_of(vec![b], &source)
}

fn table_doc(head: &[&str], rows: &[&[&str]], align: Vec<Align>) -> Document {
    let theme = Theme::default();
    let cells = |r: &[&str], style: Style| -> Vec<Vec<Span>> {
        r.iter().map(|c| vec![Span::new(c, style)]).collect()
    };
    let table = Table {
        head: cells(head, theme.table_header),
        rows: rows.iter().map(|r| cells(r, theme.body())).collect(),
        align,
    };
    let n = rows.len() + 2;
    let mut b = Block::new(BlockKind::Table, 1..n + 1);
    b.table = Some(table);
    doc_of(vec![b], "")
}

#[test]
fn a_paragraph_reflows_to_the_viewport() {
    let out = wrapped(&one_para("alpha beta gamma delta epsilon"), 12);
    assert!(out.len() > 1);
    for line in &out {
        assert!(line.chars().count() <= 12, "{line:?}");
    }
}

#[test]
fn no_wrap_keeps_one_row_per_logical_line() {
    let out = render(
        &one_para("alpha beta gamma delta epsilon"),
        12,
        Options {
            wrap: false,
            ..Options::default()
        },
    );
    assert_eq!(out, vec!["alpha beta gamma delta epsilon"]);
}

#[test]
fn max_width_caps_the_reflow_width() {
    let out = render(
        &one_para("alpha beta gamma delta epsilon zeta eta"),
        200,
        Options {
            max_width: 20,
            ..Options::default()
        },
    );
    assert!(out.iter().all(|l| l.chars().count() <= 20));
    assert!(out.len() > 1);
}

#[test]
fn blocks_are_separated_by_a_blank_line_but_never_lead_with_one() {
    let theme = Theme::default();
    let mut title = Block::new(BlockKind::Heading(1), 1..2);
    title.spans = vec![Span::new("Title", theme.heading(1))];
    let doc = doc_of(vec![title, para("Body text.", 3, theme.body())], "# Title\n\nBody text.\n");
    assert_eq!(wrapped(&doc, 40), vec!["Title", "", "Body text."]);
}

#[test]
fn list_markers_appear_once_and_continuations_are_padded() {
    let theme = Theme::default();
    let mut item = para("alpha beta gamma delta", 1, theme.body());
    item.kind = BlockKind::List;
    item.prefix = vec![Span::new("• ", theme.list_marker)];
    let out = wrapped(&doc_of(vec![item], "- alpha beta gamma delta\n"), 12);
    assert!(out[0].starts_with("• "));
    assert!(out[1].starts_with("  "), "{:?}", out[1]);
    assert!(!out[1].contains('•'));
}

#[test]
fn quote_bars_repeat_on_every_wrapped_row() {
    let theme = Theme::default();
    let mut quote = para("alpha beta gamma delta epsilon", 1, theme.body());
    quote.gutter = vec![Span::new("│ ", theme.quote_bar)];
    let out = wrapped(&doc_of(vec![quote], "> alpha beta gamma delta epsilon\n"), 14);
    assert!(out.len() > 1);
    assert!(out.iter().all(|l| l.starts_with("│ ")), "{out:?}");
}

#[test]
fn code_is_chopped_at_the_column_limit_rather_than_reflowed() {
    let out = wrapped(&code_doc(None, "let a = 1; let b = 2; let c = 3;"), 20);
    assert!(out.len() > 1);
    let joined: String = out.iter().map(|l| l.trim_start_matches("▏ ")).collect();
    assert_eq!(joined, "let a = 1; let b = 2; let c = 3;");
}

#[test]
fn code_keeps_its_full_length_when_not_wrapping() {
    let long = "x".repeat(60);
    let out = render(
        &code_doc(None, &long),
        20,
        Options {
            wrap: false,
            ..Options::default()
        },
    );
    assert_eq!(out.len(), 1);
    assert!(out[0].ends_with(&long));
}

#[test]
fn code_lines_map_back_to_their_own_source_lines() {
    let theme = Theme::default();
    let doc = code_doc(Some("rust"), "let a = 1;\nlet b = 2;");
    let lines = layout(&doc, Viewport::new(40, 24), &Options::default(), &theme, &fit);
    assert_eq!(lines[0].source_line, 2);
    assert_eq!(lines[1].source_line, 3);
}

#[test]
fn a_thematic_break_fills_the_width() {
    let theme = Theme::default();
    let mut rule = Block::new(BlockKind::Rule, 1..2);
    rule.spans = vec![Span::new("─", theme.rule)];
    let out = wrapped(&doc_of(vec![rule], "---\n"), 10);
    assert_eq!(out, vec!["──────────"]);
}

#[test]
fn tables_are_drawn_with_borders() {
    let out = wrapped(&table_doc(&["a", "b"], &[&["1", "2"]], vec![Align::Left, Align::Left]), 40);
    assert!(out[0].starts_with('┌'), "{out:?}");
    assert!(out.iter().any(|l| l.starts_with('├')));
    assert!(out.last().unwrap().starts_with('└'));
}

#[test]
fn table_columns_are_measured_in_display_columns() {
    let out = wrapped(&table_doc(&["key", "value"], &[&["a", "日本語"]], vec![Align::Left, Align::Left]), 40);
    let calc = WidthCalc::default();
    let widths: Vec<usize> = out.iter().map(|l| calc.str(l)).collect();
    assert!(widths.windows(2).all(|w| w[0] == w[1]), "ragged table: {widths:?}\n{out:#?}");
}

#[test]
fn a_wide_table_is_shrunk_to_fit_when_wrapping() {
    let doc = table_doc(
        &["a", "b"],
        &[&["a very long cell indeed", "another very long cell"]],
        vec![Align::Left, Align::Left],
    );
    let out = wrapped(&doc, 30);
    let calc = WidthCalc::default();
    assert!(out.iter().all(|l| calc.str(l) <= 30), "{out:#?}");
}

#[test]
fn right_aligned_cells_are_padded_on_the_left() {
    let out = wrapped(&table_doc(&["n"], &[&["7"]], vec![Align::Right]), 40);
    let row = out.iter().find(|l| l.contains('7')).unwrap();
    assert!(row.contains("  7 │") || row.contains(" 7 │"), "{row:?}");
}

fn title_and_item() -> Document {
    let theme = Theme::default();
    let mut title = Block::new(BlockKind::Heading(1), 1..2);
    title.spans = vec![Span::new("Title", theme.heading(1))];
    let mut item = para("item", 3, theme.body());
    item.kind = BlockKind::List;
    item.prefix = vec![Span::new("• ", theme.list_marker)];
    doc_of(vec![title, item], "# Title\n\n- item\n")
}

#[test]
fn source_view_shows_the_markup_verbatim() {
    let out = render(
        &title_and_item(),
        40,
        Options {
            source: true,
            wrap: false,
            ..Options::default()
        },
    );
    assert_eq!(out, vec!["# Title", "", "- item"]);
}

#[test]
fn source_view_rows_map_one_to_one_onto_source_lines_when_not_wrapping() {
    let theme = Theme::default();
    let mut title = Block::new(BlockKind::Heading(1), 1..2);
    title.spans = vec![Span::new("Title", theme.heading(1))];
    let doc = doc_of(vec![title, para("body", 3, theme.body())], "# Title\n\nbody\n");
    let lines = layout(
        &doc,
        Viewport::new(40, 24),
        &Options {
            source: true,
            wrap: false,
            ..Options::default()
        },
        &theme,
        &fit,
    );
    assert_eq!(lines.iter().map(|l| l.source_line).collect::<Vec<_>>(), vec![1, 2, 3]);
}

#[test]
fn double_height_headings_halve_the_usable_width() {
    let theme = Theme::default();
    let mut title = Block::new(BlockKind::Heading(1), 1..2);
    title.spans = vec![Span::new("alpha beta gamma delta", theme.heading(1))];
    let doc = doc_of(vec![title], "# alpha beta gamma delta\n");
    let lines = layout(
        &doc,
        Viewport::new(24, 24),
        &Options {
            double_height: true,
            ..Options::default()
        },
        &theme,
        &fit,
    );
    assert!(lines.iter().all(|l| l.scale == Scale::DoubleHeight));
    let calc = WidthCalc::default();
    assert!(lines.iter().all(|l| calc.str(&l.text()) <= 12), "{lines:#?}");
}

#[test]
fn links_produce_hit_rectangles_covering_their_label() {
    let theme = Theme::default();
    let mut p = Block::new(BlockKind::Para, 1..2);
    p.spans = vec![
        Span::new("see ", theme.body()),
        Span::new("docs", theme.link).with_link(Some(LinkId(0))),
        Span::new(" now", theme.body()),
    ];
    let doc = doc_of(vec![p], "see [docs](https://example.com) now\n");
    let lines = layout(&doc, Viewport::new(60, 24), &Options::default(), &theme, &fit);
    let hit = lines[0].hits.first().expect("a link hit");
    assert_eq!(hit.target, HitTarget::Link(LinkId(0)));
    assert_eq!(hit.rect.x, 4);
    assert_eq!(hit.rect.w, 4);
}

#[test]
fn every_rendered_row_fits_the_viewport_when_wrapping() {
    let theme = Theme::default();
    let mut title = Block::new(BlockKind::Heading(2), 1..2);
    title.spans = vec![Span::new("A heading that goes on for quite a while", theme.heading(2))];
    let mut quote = para("a quoted paragraph with several words in it", 3, theme.body());
    quote.gutter = vec![Span::new("│ ", theme.quote_bar)];
    let mut item = para("a list item that wraps onto more than one row", 5, theme.body());
    item.kind = BlockKind::List;
    item.prefix = vec![Span::new("• ", theme.list_marker)];
    let mut code = Block::new(BlockKind::Code { lang: None }, 7..10);
    code.spans = vec![Span::new("fn main() { println!(\"a long line of code here\"); }", theme.body())];
    let table = table_doc(&["key", "value"], &[&["alpha", "a rather long value cell"]], vec![Align::Left, Align::Left]);
    let mut blocks = vec![title, quote, item, code];
    blocks.extend(table.blocks);
    let doc = doc_of(blocks, "");
    let calc = WidthCalc::default();
    for cols in [20u16, 40, 60, 80, 100] {
        for line in render(&doc, cols, Options::default()) {
            assert!(calc.str(&line) <= cols as usize, "cols={cols} overflowed: {line:?}");
        }
    }
}

fn image_doc(size: Option<(u32, u32)>) -> (Document, Theme) {
    let theme = Theme::default();
    let mut b = Block::new(BlockKind::Image(ImageId(0)), 1..2);
    b.spans = vec![Span::new("a picture", theme.dim)];
    let mut image = Image::new("pic.png", "a picture");
    image.size = size;
    let doc = Document {
        blocks: vec![b],
        images: vec![image],
        source_lines: vec!["![a picture](pic.png)".to_string()],
        ..Document::default()
    };
    (doc, theme)
}

fn image_opts() -> Options {
    Options {
        images: true,
        cell: CellSize { w: 10, h: 20 },
        ..Options::default()
    }
}

#[test]
fn an_image_reserves_rows_and_tags_every_one_of_them() {
    let (doc, theme) = image_doc(Some((400, 200)));
    let lines = layout(&doc, Viewport::new(80, 24), &image_opts(), &theme, &fit);
    let tagged: Vec<&Line> = lines.iter().filter(|l| !l.hits.is_empty()).collect();
    assert_eq!(tagged.len(), 10);
    for (i, line) in tagged.iter().enumerate() {
        let hit = line.hits[0];
        assert_eq!(hit.target, HitTarget::Image(ImageId(0)));
        assert_eq!(hit.rect.y, i as u16, "each row knows its place in the image");
        assert_eq!(hit.rect.h, 10);
        assert_eq!(hit.rect.w, 40);
    }
}

#[test]
fn an_image_is_followed_by_its_alt_text_as_a_caption() {
    let (doc, theme) = image_doc(Some((400, 200)));
    let lines = layout(&doc, Viewport::new(80, 24), &image_opts(), &theme, &fit);
    assert!(lines.last().unwrap().text().contains("a picture"));
}

#[test]
fn an_image_is_capped_so_text_stays_on_screen() {
    let (doc, theme) = image_doc(Some((400, 4000)));
    let lines = layout(&doc, Viewport::new(80, 24), &image_opts(), &theme, &fit);
    let rows = lines.iter().filter(|l| !l.hits.is_empty()).count();
    assert!(rows <= 16, "a tall image took {rows} of 24 rows");
}

#[test]
fn an_unmeasurable_image_falls_back_to_alt_text() {
    let (doc, theme) = image_doc(None);
    let opts = Options {
        images: true,
        ..Options::default()
    };
    let lines = layout(&doc, Viewport::new(80, 24), &opts, &theme, &fit);
    assert_eq!(lines.len(), 1);
    assert!(lines[0].hits.is_empty());
    assert_eq!(lines[0].text(), "a picture");
}

#[test]
fn turning_images_off_falls_back_to_alt_text() {
    let (doc, theme) = image_doc(Some((400, 200)));
    let lines = layout(&doc, Viewport::new(80, 24), &Options::default(), &theme, &fit);
    assert_eq!(lines.len(), 1);
    assert_eq!(lines[0].text(), "a picture");
}

#[test]
fn a_mermaid_block_is_drawn_as_a_diagram() {
    let out = wrapped(&code_doc(Some("mermaid"), "flowchart TD\n  A[one] --> B[two]"), 60);
    let text = out.join("\n");
    assert!(text.contains('┌') && text.contains('▼'), "{text}");
    assert!(!text.contains("flowchart"), "the source should not be shown");
}

#[test]
fn an_unsupported_mermaid_diagram_falls_back_to_source() {
    let out = wrapped(&code_doc(Some("mermaid"), "pie title Pets\n  \"Dogs\" : 42"), 60);
    assert!(out.iter().any(|l| l.contains("pie title Pets")), "{out:#?}");
}

#[test]
fn a_diagram_too_wide_for_the_viewport_falls_back_to_source() {
    let doc = code_doc(
        Some("mermaid"),
        "flowchart LR\n  A[a really quite long label] --> B[another long one]",
    );
    let out = wrapped(&doc, 30);
    assert!(out.iter().any(|l| l.contains("flowchart LR")), "{out:#?}");
}

#[test]
fn row_for_source_line_finds_the_nearest_row() {
    let lines = vec![Line::new(1, 0, Vec::new()), Line::new(5, 0, Vec::new()), Line::new(9, 0, Vec::new())];
    assert_eq!(row_for_source_line(&lines, 5), 1);
    assert_eq!(row_for_source_line(&lines, 6), 1);
    assert_eq!(row_for_source_line(&lines, 100), 2);
}

#[test]
fn an_empty_document_still_has_a_row() {
    let lines = layout(&Document::default(), Viewport::new(40, 24), &Options::default(), &Theme::default(), &fit);
    assert_eq!(lines.len(), 1);
    assert!(lines[0].spans.is_empty());
}

#[test]
fn a_mermaid_language_is_matched_in_any_case() {
    let out = wrapped(&code_doc(Some("Mermaid"), "flowchart TD\n  A[one] --> B[two]"), 60);
    assert!(!out.join("\n").contains("flowchart"));
}

#[test]
fn a_hard_break_starts_a_new_row() {
    let out = wrapped(&one_para("first\nsecond"), 40);
    assert_eq!(out, vec!["first", "second"]);
}
