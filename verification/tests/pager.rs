use mdroll::keys::{Action, KeyCode, KeyEvent, Keymap, Mods};
use mdroll::pager::{
    hscrolled, normal_step, pick_step, quit_step, search_step, select_step, source_toggled, NormalStep, QuitStep,
    SearchStep, SelectStep,
};
use mdroll::session::Yank;

fn press(code: KeyCode) -> KeyEvent {
    KeyEvent { code, modifiers: Mods { ctrl: false, alt: false, shift: false, other: false } }
}

#[test]
fn typing_a_search_pattern_edits_it_and_enter_commits() {
    assert_eq!(search_step("lin", &press(KeyCode::Char('e'))), SearchStep::Edit("line".to_string()));
    assert_eq!(search_step("日本", &press(KeyCode::Backspace)), SearchStep::Edit("日".to_string()));
    assert_eq!(search_step("", &press(KeyCode::Backspace)), SearchStep::Edit(String::new()));
    assert_eq!(search_step("x", &press(KeyCode::Enter)), SearchStep::Commit);
    assert_eq!(search_step("x", &press(KeyCode::Esc)), SearchStep::Cancel);
    assert_eq!(search_step("x", &press(KeyCode::Up)), SearchStep::Ignore);
}

#[test]
fn after_y_the_next_key_names_what_to_yank() {
    let (map, _) = Keymap::new(&Vec::new());
    assert_eq!(normal_step(None, &press(KeyCode::Char('y')), &map), NormalStep::Act(Action::YankPrefix));
    assert_eq!(normal_step(Some('y'), &press(KeyCode::Char('c')), &map), NormalStep::Yank(Yank::CodeBody));
    assert_eq!(normal_step(Some('y'), &press(KeyCode::Char('p')), &map), NormalStep::Yank(Yank::Path));
    assert_eq!(normal_step(Some('y'), &press(KeyCode::Char('y')), &map), NormalStep::Yank(Yank::Source));
    assert_eq!(normal_step(Some('y'), &press(KeyCode::Char('j')), &map), NormalStep::Drop);
    assert_eq!(normal_step(None, &press(KeyCode::Char('j')), &map), NormalStep::Act(Action::ScrollDown));
    assert_eq!(normal_step(None, &press(KeyCode::Char('!')), &map), NormalStep::Nothing);
}

#[test]
fn escape_backs_out_of_what_is_on_top_before_quitting() {
    assert_eq!(quit_step(true, true, true), QuitStep::CloseHelp);
    assert_eq!(quit_step(false, true, true), QuitStep::CloseContents);
    assert_eq!(quit_step(false, false, true), QuitStep::ClearSearch);
    assert_eq!(quit_step(false, false, false), QuitStep::Quit);
}

#[test]
fn a_label_picks_its_link_and_anything_else_picks_nothing() {
    let picks = vec![('a', 7), ('s', 8)];
    assert_eq!(pick_step(&picks, &press(KeyCode::Char('s'))), Some(8));
    assert_eq!(pick_step(&picks, &press(KeyCode::Char('q'))), None);
    assert_eq!(pick_step(&picks, &press(KeyCode::Esc)), None);
}

#[test]
fn selection_keys_move_yank_or_cancel() {
    assert_eq!(select_step(&press(KeyCode::Char('j'))), SelectStep::Move(true));
    assert_eq!(select_step(&press(KeyCode::Up)), SelectStep::Move(false));
    assert_eq!(select_step(&press(KeyCode::Char('y'))), SelectStep::Yank);
    assert_eq!(select_step(&press(KeyCode::Esc)), SelectStep::Cancel);
    assert_eq!(select_step(&press(KeyCode::Char('x'))), SelectStep::Ignore);
}

#[test]
fn toggling_source_twice_gives_back_the_wrap_mode() {
    let (view, wrap, before) = source_toggled(false, true, true);
    assert_eq!((view, wrap, before), (true, false, true));
    assert_eq!(source_toggled(view, wrap, before), (false, true, true));
}

#[test]
fn right_scroll_needs_no_wrap_and_left_stops_at_zero() {
    assert_eq!(hscrolled(0, true, Action::ScrollRight), 0);
    assert_eq!(hscrolled(0, false, Action::ScrollRight), 4);
    assert_eq!(hscrolled(2, false, Action::ScrollLeft), 0);
    assert_eq!(hscrolled(9, false, Action::ResetScroll), 0);
}
