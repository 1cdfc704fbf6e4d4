//! Markdown read through comrak and built into the library's document.

use comrak::nodes::{AlertType, AstNode, ListType, NodeValue, TableAlignment};
use comrak::{parse_document, Arena, Options};
use mdroll::ir::{Align, BlockKind, Document, ImageId, LinkId};
use mdroll::theme::Theme;
use mdroll::tree::{build, AlertKind, MdNode, MdValue};

/// The Markdown dialect mdroll reads: CommonMark plus GitHub's extensions
/// and a few more.
fn options<'c>() -> Options<'c> {
    let mut o = Options::default();
    o.extension.strikethrough = true;
    o.extension.table = true;
    o.extension.autolink = true;
    o.extension.tasklist = true;
    o.extension.footnotes = true;
    o.extension.alerts = true;
    o.extension.superscript = true;
    o.extension.subscript = true;
    o.extension.underline = true;
    o.extension.spoiler = true;
    o.extension.math_dollars = true;
    o.extension.math_code = true;
    o.extension.multiline_block_quotes = true;
    o.extension.description_lists = true;
    o.extension.front_matter_delimiter = Some("---".into());
    o.parse.tasklist_in_table = true;
    o.parse.smart = false;
    o
}

/// Parses `source` into the library's syntax tree.
fn parse_tree(source: &str) -> MdNode {
    let arena = Arena::new();
    let opts = options();
    let root = parse_document(&arena, source, &opts);
    convert(root)
}

fn convert<'a>(node: &'a AstNode<'a>) -> MdNode {
    let ast = node.data.borrow();
    let value = value_of(&ast.value);
    let start_line = ast.sourcepos.start.line;
    let end_line = ast.sourcepos.end.line;
    drop(ast);
    let children = node.children().map(convert).collect();
    MdNode { value, start_line, end_line, children }
}

fn alert_kind(t: AlertType) -> AlertKind {
    match t {
        AlertType::Note => AlertKind::Note,
        AlertType::Tip => AlertKind::Tip,
        AlertType::Important => AlertKind::Important,
        AlertType::Warning => AlertKind::Warning,
        AlertType::Caution => AlertKind::Caution,
    }
}

fn align(a: &TableAlignment) -> Align {
    match a {
        TableAlignment::Center => Align::Center,
        TableAlignment::Right => Align::Right,
        TableAlignment::Left | TableAlignment::None => Align::Left,
    }
}

fn value_of(v: &NodeValue) -> MdValue {
    match v {
        NodeValue::Document => MdValue::Document,
        NodeValue::FrontMatter(s) => MdValue::FrontMatter(s.clone()),
        NodeValue::Paragraph => MdValue::Paragraph,
        NodeValue::Heading(h) => MdValue::Heading(h.level),
        NodeValue::ThematicBreak => MdValue::ThematicBreak,
        NodeValue::CodeBlock(c) => MdValue::CodeBlock { info: c.info.clone(), literal: c.literal.clone() },
        NodeValue::HtmlBlock(h) => MdValue::HtmlBlock(h.literal.clone()),
        NodeValue::BlockQuote => MdValue::BlockQuote,
        NodeValue::MultilineBlockQuote(_) => MdValue::MultilineBlockQuote,
        NodeValue::Alert(a) => MdValue::Alert { kind: alert_kind(a.alert_type), title: a.title.clone() },
        NodeValue::List(l) => MdValue::List {
            ordered: l.list_type == ListType::Ordered,
            start: l.start,
            tight: l.tight,
        },
        NodeValue::Item(_) => MdValue::Item,
        NodeValue::TaskItem(t) => MdValue::TaskItem(t.symbol.is_some()),
        NodeValue::DescriptionList => MdValue::DescriptionList,
        NodeValue::DescriptionItem(_) => MdValue::DescriptionItem,
        NodeValue::DescriptionTerm => MdValue::DescriptionTerm,
        NodeValue::DescriptionDetails => MdValue::DescriptionDetails,
        NodeValue::Table(t) => MdValue::Table(t.alignments.iter().map(align).collect()),
        NodeValue::TableRow(header) => MdValue::TableRow(*header),
        NodeValue::TableCell => MdValue::TableCell,
        NodeValue::FootnoteDefinition(f) => MdValue::FootnoteDefinition(f.name.clone()),
        NodeValue::Text(t) => MdValue::Text(t.to_string()),
        NodeValue::Raw(t) => MdValue::Raw(t.clone()),
        NodeValue::EscapedTag(t) => MdValue::EscapedTag(t.to_string()),
        NodeValue::Code(c) => MdValue::Code(c.literal.clone()),
        NodeValue::Math(m) => MdValue::Math(m.literal.clone()),
        NodeValue::HtmlInline(h) => MdValue::HtmlInline(h.clone()),
        NodeValue::SoftBreak => MdValue::SoftBreak,
        NodeValue::LineBreak => MdValue::LineBreak,
        NodeValue::Emph => MdValue::Emph,
        NodeValue::Strong => MdValue::Strong,
        NodeValue::Strikethrough => MdValue::Strikethrough,
        NodeValue::Underline => MdValue::Underline,
        NodeValue::SpoileredText => MdValue::SpoileredText,
        NodeValue::Superscript => MdValue::Superscript,
        NodeValue::Subscript => MdValue::Subscript,
        NodeValue::Escaped => MdValue::Escaped,
        NodeValue::Subtext => MdValue::Subtext,
        NodeValue::Link(l) => MdValue::Link { url: l.url.clone(), title: l.title.clone() },
        NodeValue::WikiLink(w) => MdValue::WikiLink(w.url.clone()),
        NodeValue::Image(l) => MdValue::Image(l.url.clone()),
        NodeValue::FootnoteReference(f) => MdValue::FootnoteReference(f.name.clone()),
        _ => MdValue::Other,
    }
}

fn doc(src: &str) -> Document {
    build(&parse_tree(src), src, &Theme::default())
}

#[test]
fn headings_carry_their_level() {
    let d = doc("# One\n\n## Two\n");
    assert_eq!(d.blocks[0].kind, BlockKind::Heading(1));
    assert_eq!(d.blocks[1].kind, BlockKind::Heading(2));
    assert_eq!(d.blocks[0].text(), "One");
}

#[test]
fn source_range_points_back_at_the_original_lines() {
    let src = "# Title\n\nA paragraph\nthat spans two lines.\n";
    let d = doc(src);
    assert_eq!(d.source_of(&d.blocks[0]), "# Title");
    assert_eq!(
        d.source_of(&d.blocks[1]),
        "A paragraph\nthat spans two lines."
    );
}

#[test]
fn code_blocks_keep_their_language_and_literal_text() {
    let d = doc("```rust\nfn main() {}\n```\n");
    assert_eq!(
        d.blocks[0].kind,
        BlockKind::Code {
            lang: Some("rust".into())
        }
    );
    assert_eq!(d.blocks[0].text(), "fn main() {}");
}

#[test]
fn emphasis_nests() {
    let d = doc("**bold *and italic* here**\n");
    let spans = &d.blocks[0].spans;
    let nested = spans
        .iter()
        .find(|s| s.text.contains("and italic"))
        .unwrap();
    assert!(nested.style.bold && nested.style.italic);
}

#[test]
fn links_are_registered_and_referenced_by_their_spans() {
    let d = doc("See [the docs](https://example.com/docs).\n");
    assert_eq!(d.links.len(), 1);
    assert_eq!(d.links[0].url, "https://example.com/docs");
    let labelled = d.blocks[0]
        .spans
        .iter()
        .find(|s| s.link == Some(LinkId(0)))
        .unwrap();
    assert_eq!(labelled.text, "the docs");
}

#[test]
fn autolinks_work_without_angle_brackets() {
    let d = doc("Visit https://example.com today.\n");
    assert_eq!(d.links.len(), 1);
    assert_eq!(d.links[0].url, "https://example.com");
}

#[test]
fn strikethrough_is_recognised() {
    let d = doc("~~gone~~\n");
    assert!(d.blocks[0].spans.iter().any(|s| s.style.strikethrough));
}

#[test]
fn task_list_items_get_checkbox_markers() {
    let d = doc("- [x] done\n- [ ] todo\n");
    let markers: Vec<String> = d
        .blocks
        .iter()
        .map(|b| b.prefix.iter().map(|s| s.text.as_str()).collect())
        .collect();
    assert_eq!(markers, vec!["[x] ", "[ ] "]);
}

#[test]
fn ordered_lists_number_from_the_declared_start() {
    let d = doc("3. three\n4. four\n");
    let markers: Vec<String> = d
        .blocks
        .iter()
        .map(|b| b.prefix.iter().map(|s| s.text.as_str()).collect())
        .collect();
    assert_eq!(markers, vec!["3. ", "4. "]);
}

#[test]
fn blockquotes_get_a_gutter_that_nests() {
    let d = doc("> outer\n>\n> > inner\n");
    assert_eq!(d.blocks[0].gutter.len(), 1);
    assert_eq!(d.blocks[1].gutter.len(), 2);
}

#[test]
fn alerts_produce_a_labelled_title_block() {
    let d = doc("> [!WARNING]\n> Be careful.\n");
    assert_eq!(d.blocks[0].text(), "WARNING");
    assert_eq!(d.blocks[1].text(), "Be careful.");
    assert!(!d.blocks[0].gutter.is_empty());
}

#[test]
fn tables_split_head_from_body_and_keep_alignment() {
    let d = doc("| a | b |\n| --- | ---: |\n| 1 | 2 |\n");
    let table = d.blocks[0].table.as_ref().unwrap();
    assert_eq!(table.head.len(), 2);
    assert_eq!(table.rows.len(), 1);
    assert_eq!(table.align, vec![Align::Left, Align::Right]);
}

#[test]
fn footnotes_become_references_and_a_definition_block() {
    let d = doc("Text[^1].\n\n[^1]: The note.\n");
    assert!(d.blocks[0].text().contains("[^1]"));
    let def = d.blocks.last().unwrap();
    assert!(def.prefix.iter().any(|s| s.text.contains("[^1]")));
}

#[test]
fn a_paragraph_that_is_only_an_image_becomes_an_image_block() {
    let d = doc("![alt text](pic.png)\n");
    assert_eq!(d.blocks[0].kind, BlockKind::Image(ImageId(0)));
    assert_eq!(d.images[0].url, "pic.png");
}

#[test]
fn soft_breaks_become_spaces_so_paragraphs_reflow() {
    let d = doc("one\ntwo\n");
    assert_eq!(d.blocks[0].text(), "one two");
}

#[test]
fn a_soft_break_between_full_width_characters_adds_no_space() {
    let d = doc("日本語の文章が\n続きます。\n");
    assert_eq!(d.blocks[0].text(), "日本語の文章が続きます。");
}

#[test]
fn a_soft_break_beside_latin_still_becomes_a_space() {
    assert_eq!(doc("日本語\ntext\n").blocks[0].text(), "日本語 text");
    assert_eq!(doc("text\n日本語\n").blocks[0].text(), "text 日本語");
}

#[test]
fn a_soft_break_before_emphasis_looks_past_the_markup() {
    // The next node is Emph, not Text, so the lookahead has to descend.
    let d = doc("日本語が\n**続きます**。\n");
    assert_eq!(d.blocks[0].text(), "日本語が続きます。");
}

#[test]
fn tight_lists_have_no_blank_line_between_items() {
    let d = doc("- one\n- two\n");
    assert!(!d.blocks[1].blank_before);
}

#[test]
fn loose_lists_keep_the_blank_line() {
    let d = doc("- one\n\n- two\n");
    assert!(d.blocks[1].blank_before);
}

#[test]
fn adjacent_spans_with_the_same_style_are_merged() {
    let d = doc("plain plain plain\n");
    assert_eq!(d.blocks[0].spans.len(), 1);
}

#[test]
fn an_html_paragraph_becomes_a_paragraph() {
    let d = doc("<p>Hello <b>world</b>.</p>\n");
    assert_eq!(d.blocks.len(), 1);
    assert_eq!(d.blocks[0].kind, BlockKind::Para);
    assert_eq!(d.blocks[0].text(), "Hello world.");
    assert!(d.blocks[0].spans.iter().any(|s| s.style.bold));
}

#[test]
fn html_alignment_is_carried_onto_the_block() {
    let d = doc("<p align=\"center\">middle</p>\n");
    assert_eq!(d.blocks[0].align, Some(Align::Center));
    let d = doc("<p style=\"text-align: right\">end</p>\n");
    assert_eq!(d.blocks[0].align, Some(Align::Right));
}

#[test]
fn alignment_is_inherited_by_nested_blocks() {
    let d = doc("<div align=\"center\"><h2>Title</h2><p>body</p></div>\n");
    assert!(d.blocks.iter().all(|b| b.align == Some(Align::Center)));
}

#[test]
fn html_headings_keep_their_level() {
    let d = doc("<h3>Deep</h3>\n");
    assert_eq!(d.blocks[0].kind, BlockKind::Heading(3));
    assert_eq!(d.blocks[0].text(), "Deep");
}

#[test]
fn an_html_link_is_registered_like_a_markdown_one() {
    let d = doc("<p>see <a href=\"https://example.com\">docs</a></p>\n");
    assert_eq!(d.links[0].url, "https://example.com");
    assert!(
        d.blocks[0]
            .spans
            .iter()
            .any(|s| s.link == Some(LinkId(0)) && s.text == "docs")
    );
}

#[test]
fn a_lone_html_image_becomes_a_figure() {
    let d = doc("<p align=\"center\"><img src=\"logo.png\" alt=\"Logo\"></p>\n");
    assert_eq!(d.blocks[0].kind, BlockKind::Image(ImageId(0)));
    assert_eq!(d.images[0].url, "logo.png");
    assert_eq!(d.blocks[0].align, Some(Align::Center));
}

#[test]
fn a_logo_wrapped_in_a_link_and_a_picture_is_still_a_figure() {
    let d = doc(
        "<p align=\"center\"><a href=\"https://example.com\"><picture>\
         <source srcset=\"dark.svg\"><img alt=\"Dewy\" src=\"light.svg\"></picture></a></p>\n",
    );
    assert_eq!(d.blocks[0].kind, BlockKind::Image(ImageId(0)));
    assert_eq!(d.images[0].url, "light.svg");
}

#[test]
fn a_badge_row_keeps_each_badge_separate() {
    let d = doc(
        "<p>\n  <a href=\"https://a.example\"><img alt=\"Build\" src=\"b.svg\"></a>\n\
         \x20 <a href=\"https://c.example\"><img alt=\"Release\" src=\"d.svg\"></a>\n</p>\n",
    );
    assert_eq!(d.blocks[0].text(), "[Build] [Release]");
    assert_eq!(d.links.len(), 2);
}

#[test]
fn whitespace_inside_a_link_is_not_part_of_the_link() {
    let d = doc("<p>\n  <a href=\"https://a.example\">\n    <b>text</b>\n  </a>\n</p>\n");
    for span in &d.blocks[0].spans {
        if span.text.trim().is_empty() {
            assert!(span.link.is_none(), "{span:?}");
            assert!(!span.style.underline, "{span:?}");
        }
    }
}

#[test]
fn an_html_table_becomes_a_table() {
    let d = doc("<table><tr><th>Name</th><th>Type</th></tr>\
         <tr><td>alpha</td><td>string</td></tr></table>\n");
    let table = d.blocks[0].table.as_ref().unwrap();
    assert_eq!(table.head.len(), 2);
    assert_eq!(table.rows.len(), 1);
}

#[test]
fn an_html_list_gets_markers() {
    let d = doc("<ul><li>one</li><li>two</li></ul>\n");
    assert_eq!(d.blocks.len(), 2);
    assert!(d.blocks[0].prefix.iter().any(|s| s.text.contains('•')));
    let d = doc("<ol start=\"3\"><li>three</li></ol>\n");
    assert!(d.blocks[0].prefix.iter().any(|s| s.text.starts_with('3')));
}

#[test]
fn details_shows_its_summary_and_its_contents() {
    let d = doc("<details><summary>More</summary><p>Hidden</p></details>\n");
    let text: String = d.blocks.iter().map(|b| b.text()).collect();
    assert!(text.contains("More") && text.contains("Hidden"));
}

#[test]
fn a_run_of_br_tags_collapses_to_one_blank_line() {
    let d = doc("<p>a<br><br><br><br>b</p>\n");
    assert_eq!(d.blocks[0].text(), "a\n\nb");
}

#[test]
fn html_whitespace_collapses_but_word_gaps_survive() {
    let d = doc("<p>\n  <b>Dewy</b> enables\n  deployment.\n</p>\n");
    assert_eq!(d.blocks[0].text(), "Dewy enables deployment.");
}

#[test]
fn inline_html_tags_style_the_text_rather_than_showing_themselves() {
    let d = doc("Press <kbd>C</kbd> and H<sub>2</sub>O.\n");
    let text = d.blocks[0].text();
    assert_eq!(text, "Press C and H2O.");
    assert!(!text.contains('<'), "tags must not be printed");
}

#[test]
fn an_inline_br_breaks_the_line() {
    let d = doc("one<br>two\n");
    assert_eq!(d.blocks[0].text(), "one\ntwo");
}

#[test]
fn an_unclosed_inline_tag_does_not_leak_into_the_next_paragraph() {
    let d = doc("<b>bold\n\nplain text\n");
    assert!(d.blocks[1].spans.iter().all(|s| !s.style.bold));
}

#[test]
fn an_html_block_that_carries_no_content_falls_back_to_source() {
    // Nothing renderable came out, so showing the markup beats showing
    // nothing at all.
    let d = doc("<div>\n</div>\n");
    assert!(matches!(d.blocks[0].kind, BlockKind::Code { .. }));
}

#[test]
fn a_paragraph_of_nothing_but_tags_disappears() {
    let d = doc("<custom-element data-x=\"1\"></custom-element>\n");
    assert!(d.blocks.is_empty(), "{:#?}", d.blocks);
}

#[test]
fn an_empty_document_has_no_blocks() {
    assert!(doc("").blocks.is_empty());
}


#[test]
fn source_lines_keep_the_file_with_its_tabs_expanded() {
    let d = doc("a\tb\r\n\tc\n");
    assert_eq!(d.source_lines, vec!["a   b".to_string(), "    c".to_string()]);
    assert!(doc("").source_lines.is_empty());
}

fn node(value: MdValue, children: Vec<MdNode>) -> MdNode {
    MdNode { value, start_line: 1, end_line: 1, children }
}

#[test]
fn an_images_alt_text_is_the_plain_text_beneath_it() {
    let image = node(
        MdValue::Image("pic.png".to_string()),
        vec![
            node(MdValue::Text("a".to_string()), vec![]),
            node(MdValue::Emph, vec![node(MdValue::Text("b".to_string()), vec![])]),
            node(MdValue::SoftBreak, vec![]),
            node(MdValue::Code("c".to_string()), vec![]),
        ],
    );
    assert_eq!(mdroll::tree::collect_text(&image), "ab c");
    let emph = node(
        MdValue::Emph,
        vec![node(MdValue::Strong, vec![]), node(MdValue::Text("xy".to_string()), vec![])],
    );
    assert_eq!(mdroll::tree::first_char(&emph), Some('x'));
    assert_eq!(mdroll::tree::first_char(&node(MdValue::Text(String::new()), vec![])), None);
}
