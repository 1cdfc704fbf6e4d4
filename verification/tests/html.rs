use mdroll::html::{decode_entities, is_void, parse, Element, Node};

fn element(nodes: &[Node]) -> &Element {
    match &nodes[0] {
        Node::Element(e) => e,
        other => panic!("expected an element, got {other:?}"),
    }
}

#[test]
fn a_simple_element_parses() {
    let nodes = parse("<p>hello</p>");
    assert_eq!(nodes.len(), 1);
    let p = element(&nodes);
    assert_eq!(p.tag, "p");
    assert_eq!(p.text(), "hello");
}

#[test]
fn tags_are_lowercased() {
    assert_eq!(element(&parse("<P>x</P>")).tag, "p");
}

#[test]
fn attributes_parse_in_every_spelling() {
    let nodes = parse(r#"<img src="a.png" width=240 alt='A logo' hidden>"#);
    let img = element(&nodes);
    assert_eq!(img.attr("src"), Some("a.png"));
    assert_eq!(img.attr("width"), Some("240"));
    assert_eq!(img.attr("alt"), Some("A logo"));
    assert_eq!(img.attr("hidden"), Some(""));
    assert_eq!(img.attr("missing"), None);
}

#[test]
fn void_elements_do_not_swallow_their_siblings() {
    let nodes = parse("<p>a<br>b</p>");
    let p = element(&nodes);
    assert_eq!(p.children.len(), 3);
    assert_eq!(p.text(), "ab");
}

#[test]
fn self_closing_syntax_is_accepted() {
    let nodes = parse("<p><img src='x.png'/>after</p>");
    let p = element(&nodes);
    assert_eq!(p.children.len(), 2);
}

#[test]
fn nesting_is_preserved() {
    let nodes = parse("<div><p>one</p><p>two</p></div>");
    let div = element(&nodes);
    assert_eq!(div.children.len(), 2);
    assert_eq!(div.text(), "onetwo");
}

#[test]
fn comments_are_dropped() {
    let nodes = parse("<p>a<!-- a note -->b</p>");
    assert_eq!(element(&nodes).text(), "ab");
}

#[test]
fn a_doctype_is_dropped() {
    let nodes = parse("<!DOCTYPE html><p>x</p>");
    assert_eq!(element(&nodes).tag, "p");
}

#[test]
fn script_and_style_contents_never_reach_the_document() {
    let nodes = parse("<div><style>p { color: red }</style><p>text</p></div>");
    assert_eq!(element(&nodes).text(), "text");
    let nodes = parse("<div><script>if (a < b) {}</script>after</div>");
    assert_eq!(element(&nodes).text(), "after");
}

#[test]
fn an_unclosed_tag_is_closed_at_the_end() {
    let nodes = parse("<p>text");
    assert_eq!(element(&nodes).text(), "text");
}

#[test]
fn a_stray_close_tag_is_ignored() {
    let nodes = parse("<p>a</span>b</p>");
    assert_eq!(element(&nodes).text(), "ab");
}

#[test]
fn mismatched_nesting_closes_the_inner_elements() {
    let nodes = parse("<div><p>text</div>");
    let div = element(&nodes);
    assert_eq!(div.tag, "div");
    assert_eq!(div.text(), "text");
}

#[test]
fn a_bare_less_than_is_text() {
    let nodes = parse("<p>a &lt; b and 1<2</p>");
    assert_eq!(element(&nodes).text(), "a < b and 1<2");
}

#[test]
fn entities_are_decoded() {
    assert_eq!(decode_entities("a&amp;b"), "a&b");
    assert_eq!(decode_entities("&lt;tag&gt;"), "<tag>");
    assert_eq!(decode_entities("&#65;&#x42;"), "AB");
    assert_eq!(decode_entities("&mdash;"), "—");
    assert_eq!(decode_entities("nothing here"), "nothing here");
}

#[test]
fn an_unknown_entity_is_left_alone() {
    assert_eq!(decode_entities("&frobnicate;"), "&frobnicate;");
    assert_eq!(decode_entities("A & B"), "A & B");
}

#[test]
fn an_ampersand_before_a_multi_byte_character_is_left_alone() {
    assert_eq!(
        decode_entities("QuickCheck & 日本語のテスト"),
        "QuickCheck & 日本語のテスト"
    );
    assert_eq!(decode_entities("&あああああ"), "&あああああ");
    assert_eq!(decode_entities("&amp;日本語"), "&日本語");
    assert_eq!(decode_entities("A &amp; B & 日"), "A & B & 日");
}

#[test]
fn the_badge_row_from_a_real_readme_parses() {
    let html = r#"<p align="center">
  <a href="https://example.com/actions">
    <img alt="Build" src="https://img.shields.io/badge/build-passing-green">
  </a>
</p>"#;
    let nodes = parse(html);
    let p = element(&nodes);
    assert_eq!(p.tag, "p");
    assert_eq!(p.attr("align"), Some("center"));
    let link = p
        .children
        .iter()
        .find_map(|n| match n {
            Node::Element(e) if e.tag == "a" => Some(e),
            _ => None,
        })
        .expect("the link survived");
    assert_eq!(link.attr("href"), Some("https://example.com/actions"));
}

#[test]
fn parsing_never_loops_on_malformed_input() {
    for input in [
        "<",
        "<<<",
        "< p >",
        "<p",
        "<p =",
        "</",
        "<!--",
        "<a href=\"",
    ] {
        let _ = parse(input);
    }
}

#[test]
fn void_tags_are_recognised() {
    assert!(is_void("br"));
    assert!(is_void("img"));
    assert!(!is_void("p"));
    assert!(!is_void("BR"));
}

#[test]
fn numeric_entities_accept_a_plus_sign_and_reject_surrogates() {
    assert_eq!(decode_entities("&#+65;"), "A");
    assert_eq!(decode_entities("&#xD800;"), "&#xD800;");
    assert_eq!(decode_entities("&#;"), "&#;");
}

#[test]
fn a_raw_text_close_tag_matches_in_any_case() {
    let nodes = parse("<div><SCRIPT>x</Script>y</div>");
    assert_eq!(element(&nodes).text(), "y");
}
