use mdroll::highlight::highlight;
use mdroll::ir::{Color, Style};

#[test]
fn rust_is_highlighted_into_several_colours() {
    let spans = highlight("fn main() {\n    let x = 1;\n}\n", "rust", "base16-ocean.dark", Style::plain())
        .expect("rust is a known language");
    let mut colours: Vec<Option<Color>> = Vec::new();
    for s in &spans {
        if !colours.contains(&s.style.fg) {
            colours.push(s.style.fg);
        }
    }
    assert!(colours.len() > 2, "expected several colours, got {colours:?}");
}

#[test]
fn the_highlighted_text_is_the_original_text() {
    let code = "let x = 1;\nlet y = 2;\n";
    let spans = highlight(code, "rust", "base16-ocean.dark", Style::plain()).unwrap();
    let joined: String = spans.iter().map(|s| s.text.as_str()).collect();
    assert_eq!(joined, code);
}

#[test]
fn newlines_survive_so_layout_can_split_rows() {
    let spans = highlight("a\nb\nc\n", "text", "base16-ocean.dark", Style::plain());
    if let Some(spans) = spans {
        let joined: String = spans.iter().map(|s| s.text.as_str()).collect();
        assert_eq!(joined.matches('\n').count(), 3);
    }
}

#[test]
fn an_unknown_language_is_declined_rather_than_guessed() {
    assert!(highlight("x", "no-such-language", "base16-ocean.dark", Style::plain()).is_none());
    assert!(highlight("x", "", "base16-ocean.dark", Style::plain()).is_none());
}

#[test]
fn an_unknown_theme_falls_back_rather_than_failing() {
    assert!(highlight("fn main() {}", "rust", "No Such Theme", Style::plain()).is_some());
}

#[test]
fn the_base_style_is_preserved_apart_from_colour() {
    let base = Style { italic: true, ..Style::plain() };
    let spans = highlight("let x = 1;", "rust", "Dracula", base).unwrap();
    assert!(spans.iter().all(|s| s.style.italic));
}

#[test]
fn the_language_is_matched_in_any_case() {
    let upper = highlight("let x = 1;", "RUST", "base16-ocean.dark", Style::plain()).unwrap();
    let lower = highlight("let x = 1;", "rust", "base16-ocean.dark", Style::plain()).unwrap();
    assert_eq!(upper, lower);
}

#[test]
fn every_span_is_coloured_and_unlinked() {
    let spans = highlight("fn main() {}\n", "rust", "base16-ocean.dark", Style::plain()).unwrap();
    assert!(spans.iter().all(|s| s.link.is_none() && matches!(s.style.fg, Some(Color::Rgb { .. }))));
    assert!(spans.iter().all(|s| !s.text.is_empty()));
    assert!(spans.windows(2).all(|w| w[0].style != w[1].style));
}

#[test]
fn the_bundled_syntax_themes_are_the_seven_syntect_ships() {
    let names = mdroll::highlight::theme_names();
    assert_eq!(
        names,
        vec![
            "InspiredGitHub",
            "Solarized (dark)",
            "Solarized (light)",
            "base16-eighties.dark",
            "base16-mocha.dark",
            "base16-ocean.dark",
            "base16-ocean.light",
        ]
    );
}
