use mdroll::keys::{actions, default_keys_of, defaults, describe, normalise, parse_key, Action, KeyCode, KeyEvent, Keymap, Mods};

const NONE: Mods = Mods { ctrl: false, alt: false, shift: false, other: false };
const SHIFT: Mods = Mods { ctrl: false, alt: false, shift: true, other: false };
const CONTROL: Mods = Mods { ctrl: true, alt: false, shift: false, other: false };

fn key(code: KeyCode, modifiers: Mods) -> KeyEvent {
    KeyEvent { code, modifiers }
}

fn default_map() -> Keymap {
    let (map, problems) = Keymap::new(&Vec::new());
    assert!(problems.is_empty(), "{problems:?}");
    map
}

fn one(name: &str, keys: &[&str]) -> Vec<(String, Vec<String>)> {
    vec![(name.to_string(), keys.iter().map(|k| k.to_string()).collect())]
}

#[test]
fn every_action_has_a_unique_name() {
    let mut names: Vec<&str> = defaults().iter().map(|(a, _)| a.name()).collect();
    names.sort_unstable();
    let count = names.len();
    names.dedup();
    assert_eq!(names.len(), count, "duplicate action name");
}

#[test]
fn every_name_finds_its_action_again() {
    for a in actions() {
        assert_eq!(Action::from_name(a.name()), Some(a));
    }
    assert_eq!(Action::from_name("frobnicate"), None);
    assert_eq!(Action::from_name("Quit"), None);
}

#[test]
fn the_defaults_bind_every_action_in_order() {
    let d = defaults();
    assert_eq!(d.len(), 32);
    assert_eq!(d[0].0, Action::Quit);
    assert_eq!(d[0].1, vec!["q", "Esc"]);
    assert_eq!(d[31].0, Action::Help);
    assert_eq!(d[29].0, Action::Edit);
    assert_eq!(d[29].1, vec!["v"]);
    assert_eq!(default_keys_of(Action::PageDown), vec!["f", "Space", "PgDn"]);
    assert_eq!(Action::OpenUnderCursor.name(), "open");
    assert_eq!(Action::YankPrefix.name(), "yank");
}

#[test]
fn every_default_spec_parses() {
    for (action, specs) in defaults() {
        for spec in specs {
            assert!(parse_key(spec).is_some(), "{}: {spec:?}", action.name());
        }
    }
}

#[test]
fn plain_characters_look_themselves_up() {
    let map = default_map();
    assert_eq!(map.lookup(&key(KeyCode::Char('j'), NONE)), Some(Action::ScrollDown));
    assert_eq!(map.lookup(&key(KeyCode::Char('q'), NONE)), Some(Action::Quit));
}

#[test]
fn a_capital_matches_whether_or_not_shift_is_reported() {
    let map = default_map();
    assert_eq!(map.lookup(&key(KeyCode::Char('G'), NONE)), Some(Action::Bottom));
    assert_eq!(map.lookup(&key(KeyCode::Char('G'), SHIFT)), Some(Action::Bottom));
}

#[test]
fn a_capital_is_not_confused_with_its_lowercase() {
    let map = default_map();
    assert_eq!(map.lookup(&key(KeyCode::Char('g'), NONE)), Some(Action::Top));
}

#[test]
fn named_keys_parse() {
    assert_eq!(parse_key("Esc"), Some((KeyCode::Esc, NONE)));
    assert_eq!(parse_key("Space"), Some((KeyCode::Char(' '), NONE)));
    assert_eq!(parse_key("PgDn"), Some((KeyCode::PageDown, NONE)));
}

#[test]
fn shift_tab_is_its_own_key_code() {
    assert_eq!(parse_key("Shift-Tab"), Some((KeyCode::BackTab, NONE)));
    let map = default_map();
    assert_eq!(map.lookup(&key(KeyCode::BackTab, SHIFT)), Some(Action::CursorPrev));
    assert_eq!(map.lookup(&key(KeyCode::BackTab, NONE)), Some(Action::CursorPrev));
}

#[test]
fn modifiers_parse_in_either_spelling() {
    assert_eq!(parse_key("Ctrl-d"), Some((KeyCode::Char('d'), CONTROL)));
    assert_eq!(parse_key("ctrl+d"), Some((KeyCode::Char('d'), CONTROL)));
}

#[test]
fn a_bare_hyphen_is_a_key_not_a_separator() {
    assert_eq!(parse_key("-"), Some((KeyCode::Char('-'), NONE)));
}

#[test]
fn an_override_replaces_the_default_bindings() {
    let (map, problems) = Keymap::new(&one("quit", &["x"]));
    assert!(problems.is_empty());
    assert_eq!(map.lookup(&key(KeyCode::Char('x'), NONE)), Some(Action::Quit));
    assert_eq!(map.lookup(&key(KeyCode::Char('q'), NONE)), None);
}

#[test]
fn an_empty_list_unbinds_an_action() {
    let (map, _) = Keymap::new(&one("quit", &[]));
    assert_eq!(map.lookup(&key(KeyCode::Char('q'), NONE)), None);
    assert!(map.keys_for(Action::Quit).is_empty());
}

#[test]
fn a_typo_in_the_config_is_reported() {
    let mut overrides = one("qiut", &["x"]);
    overrides.extend(one("reload", &["NoSuchKey"]));
    let (_, problems) = Keymap::new(&overrides);
    assert_eq!(problems.len(), 2, "{problems:?}");
    assert!(problems.iter().any(|p| p.contains("qiut")));
    assert!(problems.iter().any(|p| p.contains("NoSuchKey")));
    assert_eq!(problems[0], "unknown action \"qiut\" in [keys]");
    assert_eq!(problems[1], "cannot parse key \"NoSuchKey\"");
}

#[test]
fn keys_for_describes_the_bindings() {
    let map = default_map();
    assert_eq!(map.keys_for(Action::PageDown), vec!["f", "Space", "PageDown"]);
}

#[test]
fn modifiers_stack_and_unknown_words_end_them() {
    let both = Mods { ctrl: true, alt: true, shift: false, other: false };
    assert_eq!(parse_key("C-M-x"), Some((KeyCode::Char('x'), both)));
    assert_eq!(parse_key("Ctrl--"), Some((KeyCode::Char('-'), CONTROL)));
    assert_eq!(parse_key("Hyper-x"), None);
    assert_eq!(parse_key("BACKTAB"), Some((KeyCode::BackTab, NONE)));
    assert_eq!(parse_key("xy"), None);
    assert_eq!(parse_key(""), None);
}

#[test]
fn a_key_held_with_an_unnamed_modifier_is_not_bound() {
    let map = default_map();
    let odd = Mods { ctrl: false, alt: false, shift: false, other: true };
    assert_eq!(map.lookup(&key(KeyCode::Char('q'), odd)), None);
    assert_eq!(map.lookup(&key(KeyCode::Char('v'), NONE)), Some(Action::Edit));
}

#[test]
fn a_description_names_control_and_alt() {
    let m = Mods { ctrl: true, alt: true, shift: false, other: false };
    assert_eq!(describe(KeyCode::Char('d'), m), "Ctrl-Alt-d");
    assert_eq!(describe(KeyCode::BackTab, NONE), "Shift-Tab");
    assert_eq!(normalise(KeyCode::Char('G'), SHIFT), (KeyCode::Char('G'), NONE));
    assert_eq!(normalise(KeyCode::Up, SHIFT), (KeyCode::Up, SHIFT));
}
