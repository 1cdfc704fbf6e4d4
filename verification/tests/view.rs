use mdroll::ir::{Block, BlockKind, Document, Hit, HitTarget, Image, Line, Link, LinkId, Rect, Scale, Span, Style};
use mdroll::session::Match;
use mdroll::view::{
    breadcrumb, browser_markdown, cursor_rendered_text, editor_command, ensure_visible, find_matches, first_row_of,
    highlights, is_markdown, jump_target, line_target, lines_fitting, max_scroll, next_cursor, pick_labels,
    pick_overlays, scroll_by, selected_source, selection_step, status_text, target_under_cursor, toc_markdown,
    visible_links,
};
use mdroll::width::WidthCalc;

fn args(spec: &str) -> Vec<String> {
    editor_command(spec, "/tmp/doc.md", 42).unwrap()
}

fn rows(n: usize) -> Vec<Line> {
    (0..n).map(|i| Line::new(i + 1, i, vec![Span::plain("x")])).collect()
}

fn heading(level: u8, text: &str, line: usize) -> Block {
    let mut b = Block::new(BlockKind::Heading(level), line..line + 1);
    b.spans = vec![Span::plain(text)];
    b
}

fn para(text: &str, line: usize) -> Block {
    let mut b = Block::new(BlockKind::Para, line..line + 1);
    b.spans = vec![Span::plain(text)];
    b
}

#[test]
fn vi_style_editors_take_a_plus_line_argument() {
    assert_eq!(args("vim"), ["vim", "+42", "/tmp/doc.md"]);
    assert_eq!(args("nano"), ["nano", "+42", "/tmp/doc.md"]);
}

#[test]
fn helix_and_sublime_take_a_colon_suffix() {
    assert_eq!(args("hx"), ["hx", "/tmp/doc.md:42"]);
}

#[test]
fn vscode_needs_its_goto_flag() {
    assert_eq!(args("code"), ["code", "-g", "/tmp/doc.md:42"]);
}

#[test]
fn an_editor_spec_may_carry_arguments() {
    assert_eq!(args("code -w"), ["code", "-w", "-g", "/tmp/doc.md:42"]);
}

#[test]
fn a_full_path_is_matched_on_its_basename() {
    assert_eq!(args("/usr/bin/nvim"), ["/usr/bin/nvim", "+42", "/tmp/doc.md"]);
}

#[test]
fn an_unknown_editor_just_gets_the_file() {
    assert_eq!(args("ed"), ["ed", "/tmp/doc.md"]);
}

#[test]
fn an_empty_spec_has_no_program_to_run() {
    assert!(editor_command("   ", "/tmp/doc.md", 1).is_none());
}

#[test]
fn an_editor_with_an_extension_or_capitals_is_still_recognised() {
    assert_eq!(editor_command("C:/Tools/Code.EXE", "f.md", 3).unwrap(), ["C:/Tools/Code.EXE", "-g", "f.md:3"]);
}

#[test]
fn search_is_case_insensitive_unless_the_pattern_has_capitals() {
    let calc = WidthCalc::default();
    let lines = vec![Line::new(1, 0, vec![Span::plain("Hello")]), Line::new(2, 0, vec![Span::plain("hello")])];
    assert_eq!(find_matches(&lines, "hello", &calc).len(), 2);
    assert_eq!(find_matches(&lines, "Hello", &calc).len(), 1);
}

#[test]
fn search_columns_account_for_wide_characters() {
    let calc = WidthCalc::default();
    let lines = vec![Line::new(1, 0, vec![Span::plain("日本語text")])];
    let m = find_matches(&lines, "text", &calc)[0];
    assert_eq!(m.start, 6);
    assert_eq!(m.end, 10);
}

#[test]
fn matches_do_not_overlap_and_an_empty_pattern_finds_nothing() {
    let calc = WidthCalc::default();
    let lines = vec![Line::new(1, 0, vec![Span::plain("aaaa")]), Line::new(2, 0, vec![Span::plain("xaax")])];
    let ms = find_matches(&lines, "aa", &calc);
    assert_eq!(
        ms,
        vec![
            Match { line: 0, start: 0, end: 2 },
            Match { line: 0, start: 2, end: 4 },
            Match { line: 1, start: 1, end: 3 }
        ]
    );
    assert!(find_matches(&lines, "", &calc).is_empty());
}

#[test]
fn paging_counts_a_double_height_row_twice() {
    let mut lines = rows(5);
    lines[1].scale = Scale::DoubleHeight;
    assert_eq!(lines_fitting(&lines, 0, 3), 2);
    assert_eq!(lines_fitting(&lines, 2, 10), 3);
    assert_eq!(lines_fitting(&lines, 9, 3), 1);
    assert_eq!(lines_fitting(&lines, 0, 0), 1);
}

#[test]
fn a_scroll_is_held_between_the_top_and_the_last_full_page() {
    let lines = rows(10);
    let max = max_scroll(&lines, 4);
    assert_eq!(max, 6);
    assert_eq!(scroll_by(0, -3, max), 0);
    assert_eq!(scroll_by(5, 3, max), 6);
    assert_eq!(scroll_by(2, 3, max), 5);
}

#[test]
fn a_document_shorter_than_the_screen_cannot_scroll() {
    assert_eq!(max_scroll(&rows(3), 10), 0);
    assert_eq!(max_scroll(&rows(0), 10), 0);
}

#[test]
fn bringing_a_row_into_view_scrolls_only_as_far_as_needed() {
    let lines = rows(20);
    assert_eq!(ensure_visible(&lines, 5, 7, 4), 5);
    assert_eq!(ensure_visible(&lines, 5, 2, 4), 2);
    assert_eq!(ensure_visible(&lines, 5, 12, 4), 9);
}

#[test]
fn the_trail_of_headings_runs_from_outermost_to_innermost() {
    let blocks = vec![heading(1, "Top", 1), heading(2, "Middle", 3), para("body", 5), heading(3, "Leaf", 7), para("more", 9)];
    assert_eq!(breadcrumb(&blocks, 9), "Top › Middle › Leaf");
}

#[test]
fn a_heading_closes_the_deeper_sections_before_it() {
    let blocks = vec![heading(1, "One", 1), heading(2, "Deep", 3), para("body", 5), heading(1, "Two", 7), para("tail", 9)];
    assert_eq!(breadcrumb(&blocks, 9), "Two");
}

#[test]
fn no_trail_is_shown_above_the_first_heading() {
    let blocks = vec![para("intro text", 1), heading(1, "Later", 3)];
    assert_eq!(breadcrumb(&blocks, 1), "");
}

#[test]
fn the_contents_indent_by_level_and_link_to_lines() {
    let blocks = vec![heading(2, "Intro", 1), para("x", 3), heading(3, "[Details]", 5), heading(2, "End", 9)];
    let toc = toc_markdown(&blocks).unwrap();
    assert_eq!(toc, "# Contents\n\n- [Intro](#line-1)\n  - [Details](#line-5)\n- [End](#line-9)\n");
}

#[test]
fn a_document_with_no_headings_has_no_contents() {
    assert!(toc_markdown(&[para("x", 1)]).is_none());
}

#[test]
fn a_contents_link_names_its_line() {
    assert_eq!(line_target("#line-42"), Some(42));
    assert_eq!(line_target("#line-+7"), Some(7));
    assert_eq!(line_target("#line-"), None);
    assert_eq!(line_target("#line-4x"), None);
    assert_eq!(line_target("#line-99999999999999999999999"), None);
    assert_eq!(line_target("other.md"), None);
}

#[test]
fn the_cursor_starts_at_the_top_of_the_screen_and_stops_at_the_ends() {
    assert_eq!(next_cursor(None, 5, Some(3), true), Some(3));
    assert_eq!(next_cursor(None, 5, None, true), Some(0));
    assert_eq!(next_cursor(Some(4), 5, None, true), Some(4));
    assert_eq!(next_cursor(Some(0), 5, None, false), Some(0));
    assert_eq!(next_cursor(Some(2), 5, None, false), Some(1));
    assert_eq!(next_cursor(Some(2), 0, None, true), Some(2));
    let lines = rows(4);
    assert_eq!(first_row_of(&lines, 2), Some(2));
    assert_eq!(first_row_of(&lines, 9), None);
}

#[test]
fn links_on_screen_get_home_row_labels() {
    let mut lines = rows(6);
    lines[1].hits = vec![Hit { rect: Rect { x: 4, y: 0, w: 2, h: 1 }, target: HitTarget::Link(LinkId(7)) }];
    lines[4].hits = vec![Hit { rect: Rect { x: 0, y: 0, w: 2, h: 1 }, target: HitTarget::Link(LinkId(8)) }];
    let links = visible_links(&lines, 0, 3);
    assert_eq!(links, vec![(1, 7)]);
    let all = visible_links(&lines, 1, 10);
    assert_eq!(all, vec![(1, 7), (4, 8)]);
    let picks = pick_labels(&all);
    assert_eq!(picks, vec![('a', 7), ('s', 8)]);
    let overlays = pick_overlays(&picks, &all, &lines, Style::plain());
    assert_eq!(overlays.len(), 2);
    assert_eq!((overlays[0].line, overlays[0].col, overlays[0].text.as_str()), (1, 4, "a"));
    assert_eq!((overlays[1].line, overlays[1].col, overlays[1].text.as_str()), (4, 0, "s"));
}

#[test]
fn n_and_shift_n_wrap_around_the_matches() {
    let ms = vec![Match { line: 2, start: 0, end: 1 }, Match { line: 5, start: 0, end: 1 }, Match { line: 9, start: 0, end: 1 }];
    assert_eq!(jump_target(&ms, 2, true), 1);
    assert_eq!(jump_target(&ms, 9, true), 0);
    assert_eq!(jump_target(&ms, 5, false), 0);
    assert_eq!(jump_target(&ms, 1, false), 2);
    let hl = highlights(&ms, Some(1), Style::plain(), Style { reverse: true, ..Style::plain() });
    assert!(!hl[0].style.reverse && hl[1].style.reverse && !hl[2].style.reverse);
    assert_eq!((hl[2].line, hl[2].start, hl[2].end), (9, 0, 1));
}

#[test]
fn the_status_text_names_file_view_wrap_and_position() {
    assert_eq!(status_text("doc.md", 200, 50, false, true, ""), " doc.md  render  wrap  25% ");
    assert_eq!(status_text("(stdin)", 0, 0, true, false, "A › B"), " (stdin)  source  no-wrap  0%  A › B ");
}

#[test]
fn yanking_rendered_text_drops_the_margin_and_trailing_blank() {
    let lines = vec![
        Line::new(1, 0, vec![Span::plain("  first   ")]),
        Line::new(2, 1, vec![Span::plain("  other")]),
        Line::new(3, 0, vec![Span::plain(" x")]),
    ];
    assert_eq!(cursor_rendered_text(&lines, 0, 2).unwrap(), "first\n x");
    assert!(cursor_rendered_text(&lines, 5, 2).is_none());
}

#[test]
fn a_selection_yanks_the_source_lines_it_covers() {
    let lines = vec![Line::new(2, 0, vec![]), Line::new(3, 0, vec![]), Line::new(5, 1, vec![])];
    let src: Vec<String> = ["a", "b", "c", "d", "e"].iter().map(|s| s.to_string()).collect();
    assert_eq!(selected_source(&lines, &src, Some((2, 0))).unwrap(), "b\nc\nd\ne");
    assert_eq!(selected_source(&lines, &src, Some((1, 1))).unwrap(), "c");
    assert!(selected_source(&lines, &src, Some((0, 7))).is_none());
    assert!(selected_source(&lines, &src, None).is_none());
    assert_eq!(selection_step(Some((3, 3)), 5, true), Some((3, 4)));
    assert_eq!(selection_step(Some((3, 4)), 5, true), Some((3, 4)));
    assert_eq!(selection_step(Some((3, 0)), 5, false), Some((3, 0)));
}

#[test]
fn o_on_an_image_block_targets_the_image_and_a_paragraph_its_first_link() {
    let mut doc = Document::default();
    doc.images.push(Image::new("pic.png", "alt"));
    doc.links.push(Link { url: "https://a.example".to_string(), title: String::new() });
    doc.blocks.push(Block::new(BlockKind::Image(mdroll::ir::ImageId(0)), 1..2));
    let mut p = Block::new(BlockKind::Para, 3..4);
    p.spans = vec![Span::plain("see "), Span::plain("here").with_link(Some(LinkId(0)))];
    doc.blocks.push(p);
    doc.blocks.push(Block::new(BlockKind::Rule, 5..6));
    assert_eq!(target_under_cursor(&doc, Some(0)).as_deref(), Some("pic.png"));
    assert_eq!(target_under_cursor(&doc, Some(1)).as_deref(), Some("https://a.example"));
    assert_eq!(target_under_cursor(&doc, Some(2)), None);
    assert_eq!(target_under_cursor(&doc, None), None);
}

#[test]
fn the_file_list_keeps_only_markdown_names() {
    let names: Vec<String> = ["a.md", "b.txt", "C.MARKDOWN", ".md"].iter().map(|s| s.to_string()).collect();
    let text = browser_markdown("/docs", &names);
    assert!(text.starts_with("# /docs\n\n"));
    assert!(text.contains("[a.md](a.md)"));
    assert!(text.contains("[C.MARKDOWN](C.MARKDOWN)"));
    assert!(!text.contains("b.txt"));
    assert!(!text.contains("[.md]"));
    assert!(is_markdown("notes.mdown"));
    let empty = browser_markdown("/x", &vec!["a.txt".to_string()]);
    assert_eq!(empty, "# /x\n\nNo Markdown files here.\n\nPress `q` to quit.\n");
}
