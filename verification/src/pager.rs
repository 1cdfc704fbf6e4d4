//! What a key press means to the pager in each of its modes: the decisions
//! of the event loop, apart from carrying them out.

use vstd::prelude::*;
use crate::keys::{bound, normalised, Action, KeyCode, KeyEvent, Keymap};
use crate::session::Yank;
use crate::text::push_char;

verus! {

/// What a key does while a search pattern is being typed.
#[derive(Debug, Clone, PartialEq, Eq)]
pub enum SearchStep {
    /// Escape: leave the search and drop its matches.
    Cancel,
    /// Enter: keep the pattern and jump to its first match.
    Commit,
    /// The pattern, edited.
    Edit(String),
    /// Any other key changes nothing.
    Ignore,
}

/// The search-mode meaning of a key press on the pattern `query`:
/// Backspace drops the last character, a character is appended.
pub fn search_step(query: &str, key: &KeyEvent) -> (r: SearchStep)
    ensures
        match key.code {
            KeyCode::Esc => r == SearchStep::Cancel,
            KeyCode::Enter => r == SearchStep::Commit,
            KeyCode::Backspace => r matches SearchStep::Edit(q) && q@ == (if query@.len() > 0 { query@.drop_last() } else { query@ }),
            KeyCode::Char(c) => r matches SearchStep::Edit(q) && q@ == query@.push(c),
            _ => r == SearchStep::Ignore,
        },
{
    match key.code {
        KeyCode::Esc => SearchStep::Cancel,
        KeyCode::Enter => SearchStep::Commit,
        KeyCode::Backspace => {
            let v = crate::text::chars_of(query);
            let n = if v.len() > 0 { v.len() - 1 } else { 0 };
            let q = crate::text::string_of(&v, 0, n);
            proof {
                if v@.len() > 0 {
                    assert(v@.subrange(0, n as int) =~= v@.drop_last());
                } else {
                    assert(v@.subrange(0, n as int) =~= v@);
                }
            }
            SearchStep::Edit(q)
        },
        KeyCode::Char(c) => {
            let mut q = String::new();
            crate::text::push_str(&mut q, query);
            push_char(&mut q, c);
            proof {
                assert(q@ =~= query@.push(c));
            }
            SearchStep::Edit(q)
        },
        _ => SearchStep::Ignore,
    }
}

/// What a key does in normal mode.
#[derive(Debug, Clone, Copy, PartialEq, Eq, Structural)]
pub enum NormalStep {
    /// The second key of a `y` sequence: yank this.
    Yank(Yank),
    /// The second key of a `y` sequence that names nothing: the sequence ends.
    Drop,
    /// A bound key: run the action.
    Act(Action),
    /// An unbound key.
    Nothing,
}

/// The normal-mode meaning of a key press: after `y`, `c` yanks a code
/// block's body, `p` the file's path and `y` the block's source, and any
/// other key ends the sequence; otherwise the key map decides.
pub fn normal_step(pending: Option<char>, key: &KeyEvent, keymap: &Keymap) -> (r: NormalStep)
    ensures
        pending == Some('y') ==> r == (match key.code {
            KeyCode::Char('c') => NormalStep::Yank(Yank::CodeBody),
            KeyCode::Char('p') => NormalStep::Yank(Yank::Path),
            KeyCode::Char('y') => NormalStep::Yank(Yank::Source),
            _ => NormalStep::Drop,
        }),
        pending != Some('y') ==> r == (match bound(keymap.bindings_v(), normalised(key.code, key.modifiers)) {
            Some(a) => NormalStep::Act(a),
            None => NormalStep::Nothing,
        }),
{
    if pending == Some('y') {
        return match key.code {
            KeyCode::Char('c') => NormalStep::Yank(Yank::CodeBody),
            KeyCode::Char('p') => NormalStep::Yank(Yank::Path),
            KeyCode::Char('y') => NormalStep::Yank(Yank::Source),
            _ => NormalStep::Drop,
        };
    }
    match keymap.lookup(key) {
        Some(a) => NormalStep::Act(a),
        None => NormalStep::Nothing,
    }
}

/// What quitting does: it backs out of whatever is on top first.
#[derive(Debug, Clone, Copy, PartialEq, Eq, Structural)]
pub enum QuitStep {
    CloseHelp,
    CloseContents,
    ClearSearch,
    Quit,
}

/// Escape closes the help pane, else the contents pane, else clears the
/// search matches, and only then quits.
pub fn quit_step(help: bool, toc: bool, has_matches: bool) -> (r: QuitStep)
    ensures
        r == (if help {
            QuitStep::CloseHelp
        } else if toc {
            QuitStep::CloseContents
        } else if has_matches {
            QuitStep::ClearSearch
        } else {
            QuitStep::Quit
        }),
{
    if help {
        QuitStep::CloseHelp
    } else if toc {
        QuitStep::CloseContents
    } else if has_matches {
        QuitStep::ClearSearch
    } else {
        QuitStep::Quit
    }
}

/// The first label in `picks` that is `c`.
pub open spec fn picked(picks: Seq<(char, usize)>, c: char) -> Option<usize>
    decreases picks.len(),
{
    if picks.len() == 0 {
        None
    } else if picks[0].0 == c {
        Some(picks[0].1)
    } else {
        picked(picks.drop_first(), c)
    }
}

/// The link a key picks in the link picker: the one labelled with the
/// character typed, if any.
pub fn pick_step(picks: &[(char, usize)], key: &KeyEvent) -> (r: Option<usize>)
    ensures
        r == (match key.code {
            KeyCode::Char(c) => picked(picks@, c),
            _ => None,
        }),
{
    let c = match key.code {
        KeyCode::Char(c) => c,
        _ => return None,
    };
    let mut i: usize = 0;
    proof {
        assert(picks@.skip(0) =~= picks@);
    }
    while i < picks.len()
        invariant
            i <= picks@.len(),
            key.code == KeyCode::Char(c),
            picked(picks@.skip(i as int), c) == picked(picks@, c),
        decreases picks@.len() - i,
    {
        proof {
            assert(picks@.skip(i as int)[0] == picks@[i as int]);
            assert(picks@.skip(i as int).drop_first() =~= picks@.skip(i + 1));
        }
        if picks[i].0 == c {
            return Some(picks[i].1);
        }
        i = i + 1;
    }
    proof {
        assert(picks@.skip(i as int) =~= Seq::<(char, usize)>::empty());
    }
    None
}

/// What a key does while a line selection is being extended.
#[derive(Debug, Clone, Copy, PartialEq, Eq, Structural)]
pub enum SelectStep {
    /// Escape: drop the selection.
    Cancel,
    /// `j` or Down (`true`), `k` or Up (`false`): move its moving end.
    Move(bool),
    /// `y`: yank the selection and leave.
    Yank,
    Ignore,
}

/// The selection-mode meaning of a key press.
pub fn select_step(key: &KeyEvent) -> (r: SelectStep)
    ensures
        r == (match key.code {
            KeyCode::Esc => SelectStep::Cancel,
            KeyCode::Char('j') | KeyCode::Down => SelectStep::Move(true),
            KeyCode::Char('k') | KeyCode::Up => SelectStep::Move(false),
            KeyCode::Char('y') => SelectStep::Yank,
            _ => SelectStep::Ignore,
        }),
{
    match key.code {
        KeyCode::Esc => SelectStep::Cancel,
        KeyCode::Char('j') | KeyCode::Down => SelectStep::Move(true),
        KeyCode::Char('k') | KeyCode::Up => SelectStep::Move(false),
        KeyCode::Char('y') => SelectStep::Yank,
        _ => SelectStep::Ignore,
    }
}

/// The view, the wrap mode and the remembered wrap mode after toggling the
/// source view.
pub open spec fn toggled(source_view: bool, wrap: bool, wrap_before: bool) -> (bool, bool, bool) {
    if !source_view { (true, false, wrap) } else { (false, wrap_before, wrap_before) }
}

/// Toggling the source view: entering it forces no-wrap and remembers the
/// wrap mode, leaving it restores that. Returns the view, the wrap mode and
/// the remembered wrap mode.
pub fn source_toggled(source_view: bool, wrap: bool, wrap_before: bool) -> (r: (bool, bool, bool))
    ensures
        r == toggled(source_view, wrap, wrap_before),
{
    if !source_view {
        (true, false, wrap)
    } else {
        (false, wrap_before, wrap_before)
    }
}

/// Horizontal scrolling: four columns left (not past the start), four right
/// only when lines are not wrapped, or back to the start.
pub fn hscrolled(hoffset: usize, wrap: bool, action: Action) -> (r: usize)
    ensures
        r == (match action {
            Action::ScrollLeft => if hoffset >= 4 { (hoffset - 4) as usize } else { 0 },
            Action::ScrollRight => if !wrap { if hoffset <= usize::MAX - 4 { (hoffset + 4) as usize } else { usize::MAX } } else { hoffset },
            Action::ResetScroll => 0,
            _ => hoffset,
        }),
{
    match action {
        Action::ScrollLeft => hoffset.saturating_sub(4),
        Action::ScrollRight => if !wrap { hoffset.saturating_add(4) } else { hoffset },
        Action::ResetScroll => 0,
        _ => hoffset,
    }
}

/// Leaving the source view and coming back restores the wrap mode the
/// reader had, and the view itself.
pub proof fn lemma_source_toggle_round_trip(source_view: bool, wrap: bool, wrap_before: bool)
    requires
        !source_view,
    ensures
        ({
            let a = toggled(source_view, wrap, wrap_before);
            let b = toggled(a.0, a.1, a.2);
            a.0 && !a.1 && b.0 == source_view && b.1 == wrap
        }),
{
}

} // verus!
