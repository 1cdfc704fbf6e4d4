use mdroll::config::{ConfigFile, GraphicsMode, MermaidMode, Settings};
use std::collections::BTreeMap;

#[test]
fn no_color_is_honoured_even_when_empty_is_not() {
    let mut settings = Settings::default();
    settings.apply_env(&|name: &str| (name == "NO_COLOR").then(|| "1".to_string()));
    assert!(settings.no_color);
}

#[test]
fn an_empty_config_leaves_the_defaults_alone() {
    let file = ConfigFile::default();
    let mut settings = Settings::default();
    settings.apply_file(&file);
    assert_eq!(settings, Settings::default());
}

#[test]
fn the_config_file_overrides_defaults() {
    let file = ConfigFile {
        theme: Some("dracula".into()),
        default_mode: Some("source".into()),
        default_wrap: Some(false),
        width: Some(100),
        status: Some(true),
        east_asian_ambiguous_wide: Some(true),
        ..ConfigFile::default()
    };
    let mut settings = Settings::default();
    settings.apply_file(&file);
    assert_eq!(settings.theme, "dracula");
    assert!(settings.source);
    assert!(!settings.wrap);
    assert_eq!(settings.width, 100);
    assert!(settings.status);
    assert!(settings.calc().ambiguous_wide);
}

#[test]
fn the_environment_overrides_the_config_file() {
    let file = ConfigFile {
        theme: Some("nord".into()),
        ..ConfigFile::default()
    };
    let mut settings = Settings::default();
    settings.apply_file(&file);
    settings.apply_env(&|name: &str| match name {
        "MDROLL_THEME" => Some("gruvbox".into()),
        _ => None,
    });
    assert_eq!(settings.theme, "gruvbox");
    assert!(!settings.no_color);
}

#[test]
fn the_mermaid_mode_is_read_from_the_config() {
    let file = ConfigFile {
        mermaid: Some("image".into()),
        ..ConfigFile::default()
    };
    let mut settings = Settings::default();
    settings.apply_file(&file);
    assert_eq!(settings.mermaid, MermaidMode::Image);
}

#[test]
fn an_unrecognised_mermaid_mode_leaves_the_default_alone() {
    let file = ConfigFile {
        mermaid: Some("sideways".into()),
        ..ConfigFile::default()
    };
    let mut settings = Settings::default();
    settings.apply_file(&file);
    assert_eq!(settings.mermaid, MermaidMode::Auto);
}

#[test]
fn key_overrides_replace_the_table_and_an_empty_one_keeps_it() {
    let mut keys = BTreeMap::new();
    keys.insert("quit".to_string(), vec!["x".to_string()]);
    let file = ConfigFile {
        keys: keys.clone(),
        ..ConfigFile::default()
    };
    let mut settings = Settings::default();
    settings.apply_file(&file);
    assert_eq!(settings.keys, keys);
    settings.apply_file(&ConfigFile::default());
    assert_eq!(settings.keys, keys);
}

#[test]
fn modes_parse_in_any_case() {
    assert_eq!(GraphicsMode::parse("KITTY"), Some(GraphicsMode::Kitty));
    assert_eq!(GraphicsMode::parse("detect"), Some(GraphicsMode::Auto));
    assert_eq!(GraphicsMode::parse("off"), Some(GraphicsMode::Off));
    assert_eq!(GraphicsMode::parse("maybe"), None);
    assert_eq!(MermaidMode::parse("Boxes"), Some(MermaidMode::Text));
    assert_eq!(MermaidMode::parse("images"), Some(MermaidMode::Image));
    assert_eq!(MermaidMode::parse(""), None);
}

#[test]
fn default_mode_source_is_matched_without_case() {
    let file = ConfigFile {
        default_mode: Some("SOURCE".into()),
        ..ConfigFile::default()
    };
    let mut settings = Settings::default();
    settings.apply_file(&file);
    assert!(settings.source);
}

fn no_flags() -> mdroll::config::Flags {
    mdroll::config::Flags {
        theme: None,
        wrap: false,
        no_wrap: false,
        source: false,
        width: None,
        margin: None,
        status: false,
        no_status: false,
        mouse: false,
        no_images: false,
        no_remote_images: false,
        no_color: false,
        watch: false,
        mermaid: None,
        no_big_headings: false,
        ambiguous_wide: false,
    }
}

#[test]
fn the_command_line_wins_over_the_environment_and_the_file() {
    let file = ConfigFile {
        theme: Some("from-file".into()),
        width: Some(90),
        ..ConfigFile::default()
    };
    let mut cli = no_flags();
    let out = mdroll::config::resolve_settings(
        Settings::default(),
        Some(&file),
        Some("from-env".into()),
        None,
        &cli,
    )
    .unwrap();
    assert_eq!(out.theme, "from-env");
    assert_eq!(out.width, 90);
    assert!(!out.no_color);

    cli.theme = Some("from-cli".into());
    cli.width = Some(70);
    cli.no_wrap = true;
    cli.wrap = true;
    let out = mdroll::config::resolve_settings(
        Settings::default(),
        Some(&file),
        Some("from-env".into()),
        Some(String::new()),
        &cli,
    )
    .unwrap();
    assert_eq!(out.theme, "from-cli");
    assert_eq!(out.width, 70);
    assert!(!out.wrap);
    assert!(out.no_color);
}

#[test]
fn without_a_file_or_environment_the_defaults_stand() {
    let out = mdroll::config::resolve_settings(Settings::default(), None, None, None, &no_flags()).unwrap();
    assert_eq!(out, Settings::default());
}

#[test]
fn an_unknown_mermaid_flag_is_refused() {
    let mut cli = no_flags();
    cli.mermaid = Some("bogus".into());
    assert!(mdroll::config::resolve_settings(Settings::default(), None, None, None, &cli).is_none());
    let mut s = Settings::default();
    assert!(!s.apply_cli(&cli));
    cli.mermaid = Some("IMAGE".into());
    let mut s = Settings::default();
    assert!(s.apply_cli(&cli));
    assert_eq!(s.mermaid, MermaidMode::Image);
}
