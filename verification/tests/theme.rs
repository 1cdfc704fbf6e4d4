use mdroll::ir::{Color, Style};
use mdroll::dump::{dump, render};
use mdroll::theme::{
    color_toml, decoration, parse_color, ColorError, DecorSpec, Decoration, HeadingSpec, StyleSpec,
    Theme, ThemeFile,
};

fn heading(key: &str, spec: HeadingSpec) -> (String, HeadingSpec) {
    (key.to_string(), spec)
}

fn style(key: &str, spec: StyleSpec) -> (String, StyleSpec) {
    (key.to_string(), spec)
}

#[test]
fn hex_colors_parse() {
    assert_eq!(
        parse_color("#bd93f9").unwrap(),
        Color::Rgb {
            r: 0xbd,
            g: 0x93,
            b: 0xf9
        }
    );
    assert_eq!(
        parse_color("#f0a").unwrap(),
        Color::Rgb {
            r: 0xff,
            g: 0x00,
            b: 0xaa
        }
    );
}

#[test]
fn named_and_indexed_colors_parse() {
    assert_eq!(parse_color("brightcyan").unwrap(), Color::Cyan);
    assert_eq!(parse_color("42").unwrap(), Color::AnsiValue(42));
}

#[test]
fn bad_colors_are_errors() {
    assert!(parse_color("#12345").is_err());
    assert!(parse_color("chartreuse").is_err());
}

#[test]
fn every_color_survives_being_written_and_read_back() {
    let colors = [
        Color::Rgb {
            r: 1,
            g: 34,
            b: 255,
        },
        Color::AnsiValue(129),
        Color::Black,
        Color::DarkRed,
        Color::DarkGreen,
        Color::DarkYellow,
        Color::DarkBlue,
        Color::DarkMagenta,
        Color::DarkCyan,
        Color::Grey,
        Color::DarkGrey,
        Color::Red,
        Color::Green,
        Color::Yellow,
        Color::Blue,
        Color::Magenta,
        Color::Cyan,
        Color::White,
        Color::Reset,
    ];
    for c in colors {
        let written = color_toml(c);
        assert_eq!(parse_color(&written).unwrap(), c, "{written:?}");
    }
}

#[test]
fn errors_say_what_went_wrong() {
    assert_eq!(parse_color("#12345"), Err(ColorError::BadLength("#12345".to_string())));
    assert_eq!(parse_color("#xyz"), Err(ColorError::BadHex));
    assert_eq!(parse_color("  chartreuse "), Err(ColorError::Unknown("chartreuse".to_string())));
}

#[test]
fn names_ignore_case_dashes_and_underscores() {
    assert_eq!(parse_color("Bright-Magenta").unwrap(), Color::Magenta);
    assert_eq!(parse_color("dark_gray").unwrap(), Color::DarkGrey);
    assert_eq!(parse_color(" #ABCDEF ").unwrap(), Color::Rgb { r: 0xab, g: 0xcd, b: 0xef });
    assert_eq!(parse_color("256"), Err(ColorError::Unknown("256".to_string())));
}

#[test]
fn colors_are_written_in_canonical_form() {
    assert_eq!(color_toml(Color::Rgb { r: 1, g: 34, b: 255 }), "#0122ff");
    assert_eq!(color_toml(Color::AnsiValue(7)), "7");
    assert_eq!(color_toml(Color::Grey), "white");
}

#[test]
fn a_style_spec_resolves_its_colors() {
    let spec = StyleSpec {
        fg: Some("red".into()),
        bold: true,
        ..StyleSpec::default()
    };
    let style = spec.resolve().unwrap();
    assert_eq!(style, Style { fg: Some(Color::DarkRed), bold: true, ..Style::plain() });
    let bad = StyleSpec {
        bg: Some("nope".into()),
        ..StyleSpec::default()
    };
    assert!(bad.resolve().is_err());
}

#[test]
fn a_heading_spec_keeps_its_style_fields() {
    let h = HeadingSpec {
        fg: Some("#ff0000".into()),
        italic: true,
        border: Some(DecorSpec::On(true)),
        ..HeadingSpec::default()
    };
    let s = h.style();
    assert_eq!(s.fg.as_deref(), Some("#ff0000"));
    assert!(s.italic);
}

#[test]
fn a_decoration_can_be_turned_off_given_a_colour_or_left_alone() {
    let current = Some(Decoration { color: None });
    assert_eq!(decoration(None, current).unwrap(), current);
    assert_eq!(decoration(Some(&DecorSpec::On(false)), current).unwrap(), None);
    assert_eq!(
        decoration(Some(&DecorSpec::Color("blue".into())), None).unwrap(),
        Some(Decoration { color: Some(Color::DarkBlue) })
    );
    assert!(decoration(Some(&DecorSpec::Color("nope".into())), None).is_err());
}

#[test]
fn unspecified_heading_levels_inherit_the_previous_one() {
    let file = ThemeFile {
        name: Some("t".into()),
        heading: vec![heading("h1", HeadingSpec { fg: Some("#ff0000".into()), ..HeadingSpec::default() })],
        ..ThemeFile::default()
    };
    let theme = Theme::from_file(&file).unwrap();
    assert_eq!(theme.heading(1).fg, theme.heading(6).fg);
}

#[test]
fn a_decoration_can_be_turned_off_given_a_colour_or_left_to_derive_one() {
    let file = ThemeFile {
        name: Some("t".into()),
        heading: vec![
            heading(
                "h1",
                HeadingSpec {
                    fg: Some("#ff0000".into()),
                    border: Some(DecorSpec::On(false)),
                    ..HeadingSpec::default()
                },
            ),
            heading("h2", HeadingSpec { border: Some(DecorSpec::Color("#00ff00".into())), ..HeadingSpec::default() }),
            heading("h3", HeadingSpec { bar: Some(DecorSpec::On(true)), ..HeadingSpec::default() }),
        ],
        ..ThemeFile::default()
    };
    let theme = Theme::from_file(&file).unwrap();
    assert_eq!(theme.heading_border[0], None);
    assert_eq!(
        theme.heading_border[1],
        Some(Decoration {
            color: Some(Color::Rgb { r: 0, g: 255, b: 0 })
        })
    );
    assert_eq!(theme.heading_bar[2], Some(Decoration { color: None }));
}

#[test]
fn decoration_does_not_inherit_the_way_style_does() {
    let file = ThemeFile {
        name: Some("t".into()),
        heading: vec![heading(
            "h3",
            HeadingSpec {
                fg: Some("#00ff00".into()),
                bar: Some(DecorSpec::On(true)),
                ..HeadingSpec::default()
            },
        )],
        ..ThemeFile::default()
    };
    let theme = Theme::from_file(&file).unwrap();
    assert_eq!(theme.heading(4).fg, theme.heading(3).fg);
    assert_eq!(theme.heading_bar[2], Some(Decoration { color: None }));
    assert_eq!(theme.heading_bar[3], None, "the bar leaked down to h4");
}

#[test]
fn a_dump_names_every_key_the_parser_reads() {
    let dumped = dump(&Theme::default());
    for key in [
        "syntect_theme",
        "fence",
        "h1",
        "h6",
        "link",
        "footnote",
        "quote_bar",
        "rule",
        "task_todo",
        "border",
        "header",
        "note",
        "caution",
        "status",
        "search_current",
        "dim",
    ] {
        assert!(dumped.contains(key), "{key} missing from a dumped theme");
    }
}

#[test]
fn an_empty_file_gives_the_default_theme() {
    let theme = Theme::from_file(&ThemeFile::default()).unwrap();
    assert_eq!(theme, Theme::default());
    assert_eq!(theme.name, "terminal");
    assert_eq!(theme.heading_border[0], Some(Decoration { color: None }));
    assert_eq!(theme.heading_border[2], None);
    assert!(theme.heading_bar.iter().all(|b| b.is_none()));
}

#[test]
fn the_first_bad_color_is_the_error() {
    let file = ThemeFile {
        foreground: Some("#12".into()),
        inline: vec![style("link", StyleSpec { fg: Some("nope".into()), ..StyleSpec::default() })],
        ..ThemeFile::default()
    };
    assert_eq!(Theme::from_file(&file), Err(ColorError::BadLength("#12".into())));
    let file = ThemeFile {
        inline: vec![style("link", StyleSpec { fg: Some("nope".into()), ..StyleSpec::default() })],
        ui: vec![style("dim", StyleSpec { bg: Some("#zzz".into()), ..StyleSpec::default() })],
        ..ThemeFile::default()
    };
    assert_eq!(Theme::from_file(&file), Err(ColorError::Unknown("nope".into())));
    let file = ThemeFile {
        heading: vec![heading("h2", HeadingSpec { bar: Some(DecorSpec::Color("#xyz".into())), ..HeadingSpec::default() })],
        ..ThemeFile::default()
    };
    assert_eq!(Theme::from_file(&file), Err(ColorError::BadHex));
}

#[test]
fn a_style_is_laid_over_the_default_and_the_first_key_wins() {
    let file = ThemeFile {
        inline: vec![
            style("link", StyleSpec { fg: Some("blue".into()), bold: true, ..StyleSpec::default() }),
            style("link", StyleSpec { fg: Some("red".into()), ..StyleSpec::default() }),
        ],
        ..ThemeFile::default()
    };
    let theme = Theme::from_file(&file).unwrap();
    assert_eq!(
        theme.link,
        Style { fg: Some(Color::DarkBlue), bold: true, underline: true, ..Style::plain() }
    );
}

#[test]
fn a_theme_survives_being_written_out_and_read_back() {
    let file = ThemeFile {
        name: Some("round".into()),
        foreground: Some("#102030".into()),
        syntect_theme: Some("Solarized (dark)".into()),
        fence: Some(StyleSpec { fg: Some("42".into()), ..StyleSpec::default() }),
        heading: vec![
            heading("h1", HeadingSpec { fg: Some("#ff0000".into()), italic: true, ..HeadingSpec::default() }),
            heading("h3", HeadingSpec { bg: Some("white".into()), bar: Some(DecorSpec::Color("cyan".into())), ..HeadingSpec::default() }),
        ],
        alert: vec![style("warning", StyleSpec { fg: Some("brightyellow".into()), reverse: true, ..StyleSpec::default() })],
        ui: vec![style("hint", StyleSpec { dim: true, ..StyleSpec::default() })],
        ..ThemeFile::default()
    };
    let theme = Theme::from_file(&file).unwrap();
    let written = theme.to_file();
    assert_eq!(Theme::from_file(&written).unwrap(), theme);
    assert_eq!(render(&written), dump(&theme));
}

#[test]
fn a_dump_writes_each_key_on_a_line_of_its_own() {
    let mut theme = Theme::default();
    theme.name = "t".into();
    theme.background = Some(Color::Rgb { r: 0, g: 0, b: 0 });
    theme.heading_bar[1] = Some(Decoration { color: Some(Color::DarkRed) });
    let dumped = dump(&theme);
    assert!(dumped.starts_with("name = \"t\"\n# foreground = \"#rrggbb\"   # unset: inherit\nbackground = \"#000000\"\n"));
    assert!(dumped.contains("\n[code]\nsyntect_theme = \"base16-ocean.dark\"\nfence = { dim = true }\n"));
    assert!(dumped.contains("h1 = { bold = true, border = true, bar = false }\n"));
    assert!(dumped.contains("h2 = { bold = true, border = true, bar = \"red\" }\n"));
    assert!(dumped.contains("h3 = { bold = true, border = false, bar = false }\n"));
    assert!(dumped.contains("\n[inline]\nlink = { underline = true }\ncode = {}\n"));
    assert!(dumped.ends_with("hint = { bold = true, reverse = true }\ndim = { dim = true }\n"));
}

#[test]
fn a_hex_colour_takes_hex_digits_and_nothing_else() {
    assert!(parse_color("#+12").is_err());
    assert!(parse_color("#+0a0b0").is_err());
    assert!(parse_color("#f0a").is_ok());
    assert_eq!(parse_color("+12").unwrap(), mdroll::ir::Color::AnsiValue(12));
}
