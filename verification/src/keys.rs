//! Actions and their default key bindings.
//!
//! Every action has a name, used in the `[keys]` section of the config file;
//! naming an action there replaces all of its default bindings.

use vstd::prelude::*;
use crate::text::{str_eq, chars_of, lower_seq, lower_char, push_char, push_str, string_of};
use crate::dump::{debug_str, push_debug};

verus! {

#[derive(Debug, Clone, Copy, PartialEq, Eq, Structural)]
pub enum Action {
    Quit,
    ScrollDown,
    ScrollUp,
    HalfPageDown,
    HalfPageUp,
    PageDown,
    PageUp,
    Top,
    Bottom,
    ScrollLeft,
    ScrollRight,
    ResetScroll,
    ToggleWrap,
    ToggleSource,
    CycleTheme,
    ToggleBigHeadings,
    ToggleImages,
    CursorNext,
    CursorPrev,
    YankPrefix,
    YankRendered,
    SelectLines,
    LinkPick,
    OpenUnderCursor,
    SearchForward,
    SearchBackward,
    NextMatch,
    PrevMatch,
    Reload,
    Edit,
    Contents,
    Help,
}

/// The name of an action in the config file.
pub open spec fn action_name(a: Action) -> Seq<char> {
    match a {
        Action::Quit => "quit"@,
        Action::ScrollDown => "scroll_down"@,
        Action::ScrollUp => "scroll_up"@,
        Action::HalfPageDown => "half_page_down"@,
        Action::HalfPageUp => "half_page_up"@,
        Action::PageDown => "page_down"@,
        Action::PageUp => "page_up"@,
        Action::Top => "top"@,
        Action::Bottom => "bottom"@,
        Action::ScrollLeft => "scroll_left"@,
        Action::ScrollRight => "scroll_right"@,
        Action::ResetScroll => "reset_scroll"@,
        Action::ToggleWrap => "toggle_wrap"@,
        Action::ToggleSource => "toggle_source"@,
        Action::CycleTheme => "cycle_theme"@,
        Action::ToggleBigHeadings => "toggle_big_headings"@,
        Action::ToggleImages => "toggle_images"@,
        Action::CursorNext => "cursor_next"@,
        Action::CursorPrev => "cursor_prev"@,
        Action::YankPrefix => "yank"@,
        Action::YankRendered => "yank_rendered"@,
        Action::SelectLines => "select_lines"@,
        Action::LinkPick => "link_pick"@,
        Action::OpenUnderCursor => "open"@,
        Action::SearchForward => "search_forward"@,
        Action::SearchBackward => "search_backward"@,
        Action::NextMatch => "next_match"@,
        Action::PrevMatch => "prev_match"@,
        Action::Reload => "reload"@,
        Action::Edit => "edit"@,
        Action::Contents => "contents"@,
        Action::Help => "help"@,
    }
}

/// Every action, in the order the defaults list them.
pub open spec fn all_actions() -> Seq<Action> {
    seq![
        Action::Quit,
        Action::ScrollDown,
        Action::ScrollUp,
        Action::HalfPageDown,
        Action::HalfPageUp,
        Action::PageDown,
        Action::PageUp,
        Action::Top,
        Action::Bottom,
        Action::ScrollLeft,
        Action::ScrollRight,
        Action::ResetScroll,
        Action::ToggleWrap,
        Action::ToggleSource,
        Action::CycleTheme,
        Action::ToggleBigHeadings,
        Action::ToggleImages,
        Action::CursorNext,
        Action::CursorPrev,
        Action::YankPrefix,
        Action::YankRendered,
        Action::SelectLines,
        Action::LinkPick,
        Action::OpenUnderCursor,
        Action::SearchForward,
        Action::SearchBackward,
        Action::NextMatch,
        Action::PrevMatch,
        Action::Reload,
        Action::Edit,
        Action::Contents,
        Action::Help,
    ]
}

/// The keys an action is bound to by default.
pub open spec fn default_keys(a: Action) -> Seq<Seq<char>> {
    match a {
        Action::Quit => seq!["q"@, "Esc"@],
        Action::ScrollDown => seq!["j"@, "Down"@],
        Action::ScrollUp => seq!["k"@, "Up"@],
        Action::HalfPageDown => seq!["d"@],
        Action::HalfPageUp => seq!["u"@],
        Action::PageDown => seq!["f"@, "Space"@, "PgDn"@],
        Action::PageUp => seq!["b"@, "PgUp"@],
        Action::Top => seq!["g"@, "Home"@],
        Action::Bottom => seq!["G"@, "End"@],
        Action::ScrollLeft => seq!["h"@, "Left"@],
        Action::ScrollRight => seq!["l"@, "Right"@],
        Action::ResetScroll => seq!["0"@],
        Action::ToggleWrap => seq!["w"@],
        Action::ToggleSource => seq!["s"@],
        Action::CycleTheme => seq!["t"@],
        Action::ToggleBigHeadings => seq!["z"@],
        Action::ToggleImages => seq!["i"@],
        Action::CursorNext => seq!["Tab"@],
        Action::CursorPrev => seq!["Shift-Tab"@],
        Action::YankPrefix => seq!["y"@],
        Action::YankRendered => seq!["Y"@],
        Action::SelectLines => seq!["V"@],
        Action::LinkPick => seq!["F"@],
        Action::OpenUnderCursor => seq!["o"@, "Enter"@],
        Action::SearchForward => seq!["/"@],
        Action::SearchBackward => seq!["?"@],
        Action::NextMatch => seq!["n"@],
        Action::PrevMatch => seq!["N"@],
        Action::Reload => seq!["r"@],
        Action::Edit => seq!["v"@],
        Action::Contents => seq!["T"@],
        Action::Help => seq!["H"@],
    }
}

/// The first of `acts` called `n`.
pub open spec fn first_named(acts: Seq<Action>, n: Seq<char>) -> Option<Action>
    decreases acts.len(),
{
    if acts.len() == 0 {
        None
    } else if action_name(acts[0]) == n {
        Some(acts[0])
    } else {
        first_named(acts.drop_first(), n)
    }
}

/// The views of a list of key specs.
pub open spec fn keys_v(ks: Seq<&str>) -> Seq<Seq<char>> {
    Seq::new(ks.len(), |i: int| ks[i]@)
}

/// The default bindings, which are also the ones the README documents: each
/// action once, in a fixed order, with the keys it is bound to.
/// Every action, in the order the defaults list them.
pub fn actions() -> (r: Vec<Action>)
    ensures
        r@ == all_actions(),
{
    let r = vec![
        Action::Quit,
        Action::ScrollDown,
        Action::ScrollUp,
        Action::HalfPageDown,
        Action::HalfPageUp,
        Action::PageDown,
        Action::PageUp,
        Action::Top,
        Action::Bottom,
        Action::ScrollLeft,
        Action::ScrollRight,
        Action::ResetScroll,
        Action::ToggleWrap,
        Action::ToggleSource,
        Action::CycleTheme,
        Action::ToggleBigHeadings,
        Action::ToggleImages,
        Action::CursorNext,
        Action::CursorPrev,
        Action::YankPrefix,
        Action::YankRendered,
        Action::SelectLines,
        Action::LinkPick,
        Action::OpenUnderCursor,
        Action::SearchForward,
        Action::SearchBackward,
        Action::NextMatch,
        Action::PrevMatch,
        Action::Reload,
        Action::Edit,
        Action::Contents,
        Action::Help,
    ];
    proof {
        assert(r@ =~= all_actions());
    }
    r
}

/// The keys `a` is bound to by default.
pub fn default_keys_of(a: Action) -> (r: Vec<&'static str>)
    ensures
        keys_v(r@) == default_keys(a),
{
    let r = match a {
        Action::Quit => vec!["q", "Esc"],
        Action::ScrollDown => vec!["j", "Down"],
        Action::ScrollUp => vec!["k", "Up"],
        Action::HalfPageDown => vec!["d"],
        Action::HalfPageUp => vec!["u"],
        Action::PageDown => vec!["f", "Space", "PgDn"],
        Action::PageUp => vec!["b", "PgUp"],
        Action::Top => vec!["g", "Home"],
        Action::Bottom => vec!["G", "End"],
        Action::ScrollLeft => vec!["h", "Left"],
        Action::ScrollRight => vec!["l", "Right"],
        Action::ResetScroll => vec!["0"],
        Action::ToggleWrap => vec!["w"],
        Action::ToggleSource => vec!["s"],
        Action::CycleTheme => vec!["t"],
        Action::ToggleBigHeadings => vec!["z"],
        Action::ToggleImages => vec!["i"],
        Action::CursorNext => vec!["Tab"],
        Action::CursorPrev => vec!["Shift-Tab"],
        Action::YankPrefix => vec!["y"],
        Action::YankRendered => vec!["Y"],
        Action::SelectLines => vec!["V"],
        Action::LinkPick => vec!["F"],
        Action::OpenUnderCursor => vec!["o", "Enter"],
        Action::SearchForward => vec!["/"],
        Action::SearchBackward => vec!["?"],
        Action::NextMatch => vec!["n"],
        Action::PrevMatch => vec!["N"],
        Action::Reload => vec!["r"],
        Action::Edit => vec!["v"],
        Action::Contents => vec!["T"],
        Action::Help => vec!["H"],
    };
    proof {
        assert(keys_v(r@) =~= default_keys(a));
    }
    r
}

/// The default bindings, which are also the ones the README documents: each
/// action once, in a fixed order, with the keys it is bound to.
pub fn defaults() -> (r: Vec<(Action, Vec<&'static str>)>)
    ensures
        r@.len() == all_actions().len(),
        forall|i: int|
            0 <= i < r@.len() ==> (#[trigger] r@[i]).0 == all_actions()[i] && keys_v(r@[i].1@)
                == default_keys(r@[i].0),
{
    let all = actions();
    let mut r: Vec<(Action, Vec<&'static str>)> = Vec::new();
    let mut i: usize = 0;
    while i < all.len()
        invariant
            all@ == all_actions(),
            i <= all@.len(),
            r@.len() == i,
            forall|k: int|
                0 <= k < i ==> (#[trigger] r@[k]).0 == all_actions()[k] && keys_v(r@[k].1@)
                    == default_keys(r@[k].0),
        decreases all.len() - i,
    {
        let a = all[i];
        r.push((a, default_keys_of(a)));
        i = i + 1;
    }
    r
}

impl Action {
    /// The name used in the config file, in snake_case.
    pub fn name(self) -> (r: &'static str)
        ensures
            r@ == action_name(self),
    {
        match self {
            Action::Quit => "quit",
            Action::ScrollDown => "scroll_down",
            Action::ScrollUp => "scroll_up",
            Action::HalfPageDown => "half_page_down",
            Action::HalfPageUp => "half_page_up",
            Action::PageDown => "page_down",
            Action::PageUp => "page_up",
            Action::Top => "top",
            Action::Bottom => "bottom",
            Action::ScrollLeft => "scroll_left",
            Action::ScrollRight => "scroll_right",
            Action::ResetScroll => "reset_scroll",
            Action::ToggleWrap => "toggle_wrap",
            Action::ToggleSource => "toggle_source",
            Action::CycleTheme => "cycle_theme",
            Action::ToggleBigHeadings => "toggle_big_headings",
            Action::ToggleImages => "toggle_images",
            Action::CursorNext => "cursor_next",
            Action::CursorPrev => "cursor_prev",
            Action::YankPrefix => "yank",
            Action::YankRendered => "yank_rendered",
            Action::SelectLines => "select_lines",
            Action::LinkPick => "link_pick",
            Action::OpenUnderCursor => "open",
            Action::SearchForward => "search_forward",
            Action::SearchBackward => "search_backward",
            Action::NextMatch => "next_match",
            Action::PrevMatch => "prev_match",
            Action::Reload => "reload",
            Action::Edit => "edit",
            Action::Contents => "contents",
            Action::Help => "help",
        }
    }

    /// The action called `name`, if there is one.
    pub fn from_name(name: &str) -> (r: Option<Action>)
        ensures
            r == first_named(all_actions(), name@),
    {
        let table = defaults();
        let mut i: usize = 0;
        proof {
            assert(all_actions().skip(0) =~= all_actions());
        }
        while i < table.len()
            invariant
                i <= table@.len(),
                table@.len() == all_actions().len(),
                forall|k: int| 0 <= k < table@.len() ==> (#[trigger] table@[k]).0 == all_actions()[k],
                first_named(all_actions(), name@) == first_named(all_actions().skip(i as int), name@),
            decreases table.len() - i,
        {
            let a = table[i].0;
            proof {
                assert(all_actions().skip(i as int)[0] == a);
                assert(all_actions().skip(i as int).drop_first() =~= all_actions().skip(i + 1));
            }
            if str_eq(a.name(), name) {
                return Some(a);
            }
            i = i + 1;
        }
        proof {
            assert(all_actions().skip(i as int) =~= Seq::<Action>::empty());
        }
        None
    }
}

/// Where `a` stands in the order of the defaults.
pub open spec fn action_index(a: Action) -> int {
    match a {
        Action::Quit => 0,
        Action::ScrollDown => 1,
        Action::ScrollUp => 2,
        Action::HalfPageDown => 3,
        Action::HalfPageUp => 4,
        Action::PageDown => 5,
        Action::PageUp => 6,
        Action::Top => 7,
        Action::Bottom => 8,
        Action::ScrollLeft => 9,
        Action::ScrollRight => 10,
        Action::ResetScroll => 11,
        Action::ToggleWrap => 12,
        Action::ToggleSource => 13,
        Action::CycleTheme => 14,
        Action::ToggleBigHeadings => 15,
        Action::ToggleImages => 16,
        Action::CursorNext => 17,
        Action::CursorPrev => 18,
        Action::YankPrefix => 19,
        Action::YankRendered => 20,
        Action::SelectLines => 21,
        Action::LinkPick => 22,
        Action::OpenUnderCursor => 23,
        Action::SearchForward => 24,
        Action::SearchBackward => 25,
        Action::NextMatch => 26,
        Action::PrevMatch => 27,
        Action::Reload => 28,
        Action::Edit => 29,
        Action::Contents => 30,
        Action::Help => 31,
    }
}

proof fn lemma_first_named_at(acts: Seq<Action>, k: int, n: Seq<char>)
    requires
        0 <= k < acts.len(),
        action_name(acts[k]) == n,
        forall|j: int| 0 <= j < k ==> action_name(#[trigger] acts[j]) != n,
    ensures
        first_named(acts, n) == Some(acts[k]),
    decreases k,
{
    if k > 0 {
        assert(action_name(acts[0]) != n);
        lemma_first_named_at(acts.drop_first(), k - 1, n);
    }
}

/// Length, first and last character of each action's name: enough to tell
/// every name apart.
pub open spec fn name_sig(a: Action) -> (nat, char, char) {
    match a {
        Action::Quit => (4, 'q', 't'),
        Action::ScrollDown => (11, 's', 'n'),
        Action::ScrollUp => (9, 's', 'p'),
        Action::HalfPageDown => (14, 'h', 'n'),
        Action::HalfPageUp => (12, 'h', 'p'),
        Action::PageDown => (9, 'p', 'n'),
        Action::PageUp => (7, 'p', 'p'),
        Action::Top => (3, 't', 'p'),
        Action::Bottom => (6, 'b', 'm'),
        Action::ScrollLeft => (11, 's', 't'),
        Action::ScrollRight => (12, 's', 't'),
        Action::ResetScroll => (12, 'r', 'l'),
        Action::ToggleWrap => (11, 't', 'p'),
        Action::ToggleSource => (13, 't', 'e'),
        Action::CycleTheme => (11, 'c', 'e'),
        Action::ToggleBigHeadings => (19, 't', 's'),
        Action::ToggleImages => (13, 't', 's'),
        Action::CursorNext => (11, 'c', 't'),
        Action::CursorPrev => (11, 'c', 'v'),
        Action::YankPrefix => (4, 'y', 'k'),
        Action::YankRendered => (13, 'y', 'd'),
        Action::SelectLines => (12, 's', 's'),
        Action::LinkPick => (9, 'l', 'k'),
        Action::OpenUnderCursor => (4, 'o', 'n'),
        Action::SearchForward => (14, 's', 'd'),
        Action::SearchBackward => (15, 's', 'd'),
        Action::NextMatch => (10, 'n', 'h'),
        Action::PrevMatch => (10, 'p', 'h'),
        Action::Reload => (6, 'r', 'd'),
        Action::Edit => (4, 'e', 't'),
        Action::Contents => (8, 'c', 's'),
        Action::Help => (4, 'h', 'p'),
    }
}

#[verifier::spinoff_prover]
proof fn lemma_name_sig(a: Action)
    ensures
        action_name(a).len() == name_sig(a).0,
        action_name(a).len() > 0,
        action_name(a)[0] == name_sig(a).1,
        action_name(a)[action_name(a).len() - 1] == name_sig(a).2,
{
    reveal_strlit("quit");
    reveal_strlit("scroll_down");
    reveal_strlit("scroll_up");
    reveal_strlit("half_page_down");
    reveal_strlit("half_page_up");
    reveal_strlit("page_down");
    reveal_strlit("page_up");
    reveal_strlit("top");
    reveal_strlit("bottom");
    reveal_strlit("scroll_left");
    reveal_strlit("scroll_right");
    reveal_strlit("reset_scroll");
    reveal_strlit("toggle_wrap");
    reveal_strlit("toggle_source");
    reveal_strlit("cycle_theme");
    reveal_strlit("toggle_big_headings");
    reveal_strlit("toggle_images");
    reveal_strlit("cursor_next");
    reveal_strlit("cursor_prev");
    reveal_strlit("yank");
    reveal_strlit("yank_rendered");
    reveal_strlit("select_lines");
    reveal_strlit("link_pick");
    reveal_strlit("open");
    reveal_strlit("search_forward");
    reveal_strlit("search_backward");
    reveal_strlit("next_match");
    reveal_strlit("prev_match");
    reveal_strlit("reload");
    reveal_strlit("edit");
    reveal_strlit("contents");
    reveal_strlit("help");
}

#[verifier::rlimit(100)]
#[verifier::spinoff_prover]
proof fn lemma_name_sig_injective(a: Action, b: Action)
    ensures
        name_sig(a) == name_sig(b) ==> a == b,
{
}

#[verifier::spinoff_prover]
proof fn lemma_action_index(j: int)
    requires
        0 <= j < all_actions().len(),
    ensures
        action_index(all_actions()[j]) == j,
{
}

/// Every action has a name of its own: looking its name up finds it again.
pub proof fn lemma_names_unique(a: Action)
    ensures
        first_named(all_actions(), action_name(a)) == Some(a),
{
    let k = action_index(a);
    assert(0 <= k < all_actions().len());
    lemma_action_index(k);
    assert(all_actions()[k] == a) by {
        let x = all_actions()[k];
        lemma_name_sig(x);
        lemma_name_sig(a);
        lemma_name_sig_injective(x, a);
        assert(action_index(x) == action_index(a));
        assert(x == a);
    }
    assert forall|j: int| 0 <= j < k implies action_name(#[trigger] all_actions()[j]) != action_name(a) by {
        let x = all_actions()[j];
        lemma_action_index(j);
        lemma_name_sig(x);
        lemma_name_sig(a);
        lemma_name_sig_injective(x, a);
    }
    lemma_first_named_at(all_actions(), k, action_name(a));
}

/// Two actions with the same name are the same action.
pub proof fn lemma_name_injective(a: Action, b: Action)
    ensures
        action_name(a) == action_name(b) ==> a == b,
{
    lemma_name_sig(a);
    lemma_name_sig(b);
    lemma_name_sig_injective(a, b);
}

} // verus!

verus! {

/// A key, as far as bindings can name one.
#[derive(Debug, Clone, Copy, PartialEq, Eq, Structural)]
pub enum KeyCode {
    Char(char),
    Esc,
    Enter,
    Tab,
    BackTab,
    Backspace,
    Delete,
    Up,
    Down,
    Left,
    Right,
    Home,
    End,
    PageUp,
    PageDown,
    /// Any key no binding can name.
    Other,
}

/// Modifier keys held with a key. `other` stands for the modifiers no
/// binding can name (super, hyper, meta as a key of its own).
#[derive(Debug, Clone, Copy, PartialEq, Eq, Structural)]
pub struct Mods {
    pub ctrl: bool,
    pub alt: bool,
    pub shift: bool,
    pub other: bool,
}

/// A key press.
#[derive(Debug, Clone, Copy, PartialEq, Eq, Structural)]
pub struct KeyEvent {
    pub code: KeyCode,
    pub modifiers: Mods,
}

impl Mods {
    /// No modifier held.
    pub open spec fn none_spec() -> Mods {
        Mods { ctrl: false, alt: false, shift: false, other: false }
    }

    pub fn none() -> (r: Mods)
        ensures
            r == Mods::none_spec(),
    {
        Mods { ctrl: false, alt: false, shift: false, other: false }
    }
}

/// The modifier a word before a `-` or `+` names, in any case.
pub open spec fn modifier_of(w: Seq<char>) -> Option<Mods> {
    let l = lower_seq(w);
    if l == "ctrl"@ || l == "c"@ {
        Some(Mods { ctrl: true, alt: false, shift: false, other: false })
    } else if l == "alt"@ || l == "meta"@ || l == "a"@ || l == "m"@ {
        Some(Mods { ctrl: false, alt: true, shift: false, other: false })
    } else if l == "shift"@ || l == "s"@ {
        Some(Mods { ctrl: false, alt: false, shift: true, other: false })
    } else {
        None
    }
}

/// Both sets of modifiers held.
pub open spec fn union(a: Mods, b: Mods) -> Mods {
    Mods { ctrl: a.ctrl || b.ctrl, alt: a.alt || b.alt, shift: a.shift || b.shift, other: a.other || b.other }
}

/// Where the first `-` or `+` of `s` is, or -1.
pub open spec fn first_sep(s: Seq<char>) -> int
    decreases s.len(),
{
    if s.len() == 0 {
        -1
    } else if s[0] == '-' || s[0] == '+' {
        0
    } else if first_sep(s.drop_first()) < 0 {
        -1
    } else {
        first_sep(s.drop_first()) + 1
    }
}

proof fn lemma_first_sep(s: Seq<char>)
    ensures
        -1 <= first_sep(s) < s.len(),
        first_sep(s) >= 0 ==> (s[first_sep(s)] == '-' || s[first_sep(s)] == '+'),
        forall|k: int| 0 <= k < s.len() && (k < first_sep(s) || first_sep(s) < 0) ==> s[k] != '-' && s[k] != '+',
    decreases s.len(),
{
    if s.len() > 0 && s[0] != '-' && s[0] != '+' {
        lemma_first_sep(s.drop_first());
        assert forall|k: int| 0 <= k < s.len() && (k < first_sep(s) || first_sep(s) < 0) implies s[k] != '-' && s[k] != '+' by {
            if k > 0 {
                assert(s[k] == s.drop_first()[k - 1]);
            }
        }
    }
}

/// The modifiers of a key spec and what is left of it: each leading word
/// that names a modifier, followed by `-` or `+`, is taken off.
pub open spec fn split_mods(s: Seq<char>, m: Mods) -> (Mods, Seq<char>)
    decreases s.len(),
{
    let i = first_sep(s);
    if i < 0 || i >= s.len() {
        (m, s)
    } else {
        match modifier_of(s.take(i)) {
            Some(x) => split_mods(s.skip(i + 1), union(m, x)),
            None => (m, s),
        }
    }
}

/// The key a spec names once its modifiers are off: a named key in any
/// case, or a single character as written. Shift with Tab, or `backtab`,
/// is the back-tab key with no modifiers.
pub open spec fn key_of(rest: Seq<char>, m: Mods) -> Option<(KeyCode, Mods)> {
    let l = lower_seq(rest);
    if l == "esc"@ || l == "escape"@ {
        Some((KeyCode::Esc, m))
    } else if l == "enter"@ || l == "return"@ || l == "cr"@ {
        Some((KeyCode::Enter, m))
    } else if l == "space"@ {
        Some((KeyCode::Char(' '), m))
    } else if l == "tab"@ && m.shift {
        Some((KeyCode::BackTab, Mods::none_spec()))
    } else if l == "tab"@ {
        Some((KeyCode::Tab, m))
    } else if l == "backtab"@ {
        Some((KeyCode::BackTab, Mods::none_spec()))
    } else if l == "backspace"@ || l == "bs"@ {
        Some((KeyCode::Backspace, m))
    } else if l == "delete"@ || l == "del"@ {
        Some((KeyCode::Delete, m))
    } else if l == "up"@ {
        Some((KeyCode::Up, m))
    } else if l == "down"@ {
        Some((KeyCode::Down, m))
    } else if l == "left"@ {
        Some((KeyCode::Left, m))
    } else if l == "right"@ {
        Some((KeyCode::Right, m))
    } else if l == "home"@ {
        Some((KeyCode::Home, m))
    } else if l == "end"@ {
        Some((KeyCode::End, m))
    } else if l == "pgup"@ || l == "pageup"@ {
        Some((KeyCode::PageUp, m))
    } else if l == "pgdn"@ || l == "pagedown"@ {
        Some((KeyCode::PageDown, m))
    } else if rest.len() == 1 {
        Some((KeyCode::Char(rest[0]), m))
    } else {
        None
    }
}

/// What a key spec such as `q`, `Esc`, `Shift-Tab` or `Ctrl-d` names.
pub open spec fn parsed_key(spec: Seq<char>) -> Option<(KeyCode, Mods)> {
    let (m, rest) = split_mods(spec, Mods::none_spec());
    key_of(rest, m)
}

fn lower_string_of(v: &Vec<char>, lo: usize, hi: usize) -> (r: String)
    requires
        lo <= hi <= v@.len(),
    ensures
        r@ == lower_seq(v@.subrange(lo as int, hi as int)),
{
    crate::text::lower_string(v, lo, hi)
}

fn modifier_named(w: &str) -> (r: Option<Mods>)
    ensures
        r == modifier_of(w@),
{
    let v = chars_of(w);
    let l = lower_string_of(&v, 0, v.len());
    proof {
        assert(v@.subrange(0, v@.len() as int) =~= w@);
    }
    let ls = l.as_str();
    if str_eq(ls, "ctrl") || str_eq(ls, "c") {
        Some(Mods { ctrl: true, alt: false, shift: false, other: false })
    } else if str_eq(ls, "alt") || str_eq(ls, "meta") || str_eq(ls, "a") || str_eq(ls, "m") {
        Some(Mods { ctrl: false, alt: true, shift: false, other: false })
    } else if str_eq(ls, "shift") || str_eq(ls, "s") {
        Some(Mods { ctrl: false, alt: false, shift: true, other: false })
    } else {
        None
    }
}

fn named_key(rest: &Vec<char>, m: Mods) -> (r: Option<(KeyCode, Mods)>)
    ensures
        r == key_of(rest@, m),
{
    let l = lower_string_of(rest, 0, rest.len());
    proof {
        assert(rest@.subrange(0, rest@.len() as int) =~= rest@);
    }
    let ls = l.as_str();
    if str_eq(ls, "esc") || str_eq(ls, "escape") {
        Some((KeyCode::Esc, m))
    } else if str_eq(ls, "enter") || str_eq(ls, "return") || str_eq(ls, "cr") {
        Some((KeyCode::Enter, m))
    } else if str_eq(ls, "space") {
        Some((KeyCode::Char(' '), m))
    } else if str_eq(ls, "tab") && m.shift {
        Some((KeyCode::BackTab, Mods::none()))
    } else if str_eq(ls, "tab") {
        Some((KeyCode::Tab, m))
    } else if str_eq(ls, "backtab") {
        Some((KeyCode::BackTab, Mods::none()))
    } else if str_eq(ls, "backspace") || str_eq(ls, "bs") {
        Some((KeyCode::Backspace, m))
    } else if str_eq(ls, "delete") || str_eq(ls, "del") {
        Some((KeyCode::Delete, m))
    } else if str_eq(ls, "up") {
        Some((KeyCode::Up, m))
    } else if str_eq(ls, "down") {
        Some((KeyCode::Down, m))
    } else if str_eq(ls, "left") {
        Some((KeyCode::Left, m))
    } else if str_eq(ls, "right") {
        Some((KeyCode::Right, m))
    } else if str_eq(ls, "home") {
        Some((KeyCode::Home, m))
    } else if str_eq(ls, "end") {
        Some((KeyCode::End, m))
    } else if str_eq(ls, "pgup") || str_eq(ls, "pageup") {
        Some((KeyCode::PageUp, m))
    } else if str_eq(ls, "pgdn") || str_eq(ls, "pagedown") {
        Some((KeyCode::PageDown, m))
    } else if rest.len() == 1 {
        Some((KeyCode::Char(rest[0]), m))
    } else {
        None
    }
}

/// Parses a key spec such as `q`, `Esc`, `Shift-Tab`, or `Ctrl-d`.
pub fn parse_key(spec: &str) -> (r: Option<(KeyCode, Mods)>)
    ensures
        r == parsed_key(spec@),
{
    let v = chars_of(spec);
    let mut m = Mods::none();
    let mut at: usize = 0;
    proof {
        assert(v@.skip(0) =~= v@);
    }
    loop
        invariant
            at <= v@.len(),
            v@ == spec@,
            split_mods(v@.skip(at as int), m) == split_mods(spec@, Mods::none_spec()),
        ensures
            at <= v@.len(),
            v@ == spec@,
            split_mods(v@.skip(at as int), m) == split_mods(spec@, Mods::none_spec()),
            split_mods(v@.skip(at as int), m) == (m, v@.skip(at as int)),
        decreases v@.len() - at,
    {
        let ghost s = v@.skip(at as int);
        proof {
            lemma_first_sep(s);
        }
        let mut j = at;
        while j < v.len() && v[j] != '-' && v[j] != '+'
            invariant
                at <= j <= v@.len(),
                s == v@.skip(at as int),
                forall|k: int| at <= k < j ==> v@[k] != '-' && v@[k] != '+',
            decreases v@.len() - j,
        {
            j = j + 1;
        }
        proof {
            if j < v@.len() {
                assert(s[j - at] == v@[j as int]);
                assert forall|k: int| 0 <= k < j - at implies s[k] != '-' && s[k] != '+' by {
                    assert(s[k] == v@[at + k]);
                }
                if first_sep(s) >= 0 && first_sep(s) < j - at {
                    assert(s[first_sep(s)] == v@[at + first_sep(s)]);
                }
                assert(first_sep(s) == j - at);
            } else {
                if first_sep(s) >= 0 {
                    assert(s[first_sep(s)] == v@[at + first_sep(s)]);
                }
                assert(first_sep(s) < 0);
            }
        }
        if j >= v.len() {
            proof {
                assert(split_mods(s, m) == (m, s));
            }
            break;
        }
        let head = string_of(&v, at, j);
        proof {
            assert(head@ =~= s.take(j - at));
        }
        match modifier_named(head.as_str()) {
            Some(x) => {
                m = Mods { ctrl: m.ctrl || x.ctrl, alt: m.alt || x.alt, shift: m.shift || x.shift, other: m.other || x.other };
                proof {
                    assert(s.skip(j - at + 1) =~= v@.skip(j + 1));
                }
                at = j + 1;
            },
            None => {
                proof {
                    assert(split_mods(s, m) == (m, s));
                }
                break;
            },
        }
    }
    let rest: Vec<char> = {
        let mut t: Vec<char> = Vec::new();
        let mut k = at;
        while k < v.len()
            invariant
                at <= k <= v@.len(),
                t@ == v@.subrange(at as int, k as int),
            decreases v@.len() - k,
        {
            t.push(v[k]);
            proof {
                assert(t@ =~= v@.subrange(at as int, k + 1));
            }
            k = k + 1;
        }
        t
    };
    proof {
        assert(rest@ =~= v@.skip(at as int));
    }
    named_key(&rest, m)
}

} // verus!

verus! {

/// An event as bindings are matched: shift is dropped from characters,
/// whose case already says it, and from back-tab, which already is
/// shift-tab.
pub open spec fn normalised(code: KeyCode, m: Mods) -> (KeyCode, Mods) {
    match code {
        KeyCode::Char(_) | KeyCode::BackTab => (code, Mods { shift: false, ..m }),
        _ => (code, m),
    }
}

/// Normalises an event for lookup.
pub fn normalise(code: KeyCode, modifiers: Mods) -> (r: (KeyCode, Mods))
    ensures
        r == normalised(code, modifiers),
{
    match code {
        KeyCode::Char(_) | KeyCode::BackTab => (code, Mods { shift: false, ..modifiers }),
        _ => (code, modifiers),
    }
}

/// The bindings in force: each key, normalised, with the action it runs.
#[derive(Debug, Clone)]
pub struct Keymap {
    bindings: Vec<((KeyCode, Mods), Action)>,
}

/// The `[keys]` overrides as names and key specs.
pub open spec fn overrides_v(ov: Seq<(String, Vec<String>)>) -> Seq<(Seq<char>, Seq<Seq<char>>)> {
    Seq::new(ov.len(), |i: int| (ov[i].0@, ov[i].1@.map_values(|x: String| x@)))
}

/// The keys the first override named `n` lists.
pub open spec fn override_for(ov: Seq<(Seq<char>, Seq<Seq<char>>)>, n: Seq<char>) -> Option<Seq<Seq<char>>>
    decreases ov.len(),
{
    if ov.len() == 0 {
        None
    } else if ov[0].0 == n {
        Some(ov[0].1)
    } else {
        override_for(ov.drop_first(), n)
    }
}

/// The key specs `a` is bound by: its override if it has one (an empty list
/// unbinds it), otherwise its defaults.
pub open spec fn specs_for(ov: Seq<(Seq<char>, Seq<Seq<char>>)>, a: Action) -> Seq<Seq<char>> {
    match override_for(ov, action_name(a)) {
        Some(x) => x,
        None => default_keys(a),
    }
}

/// The complaint about a key spec that cannot be read.
pub open spec fn bad_key(spec: Seq<char>) -> Seq<char> {
    "cannot parse key "@ + debug_str(spec)
}

/// The complaint about an override naming no action.
pub open spec fn bad_action(name: Seq<char>) -> Seq<char> {
    "unknown action "@ + debug_str(name) + " in [keys]"@
}

/// Binding `a` to each spec in turn: the bindings made and the complaints
/// about specs that could not be read.
pub open spec fn bind_specs(specs: Seq<Seq<char>>, a: Action) -> (Seq<((KeyCode, Mods), Action)>, Seq<Seq<char>>)
    decreases specs.len(),
{
    if specs.len() == 0 {
        (Seq::empty(), Seq::empty())
    } else {
        let (b, p) = bind_specs(specs.drop_last(), a);
        match parsed_key(specs.last()) {
            Some(k) => (b.push((normalised(k.0, k.1), a)), p),
            None => (b, p.push(bad_key(specs.last()))),
        }
    }
}

/// Binding each of `acts` in turn.
pub open spec fn bind_all(ov: Seq<(Seq<char>, Seq<Seq<char>>)>, acts: Seq<Action>) -> (Seq<((KeyCode, Mods), Action)>, Seq<Seq<char>>)
    decreases acts.len(),
{
    if acts.len() == 0 {
        (Seq::empty(), Seq::empty())
    } else {
        let (b0, p0) = bind_all(ov, acts.drop_last());
        let (b1, p1) = bind_specs(specs_for(ov, acts.last()), acts.last());
        (b0 + b1, p0 + p1)
    }
}

/// The complaints about overrides that name no action, in order.
pub open spec fn unknown_names(ov: Seq<(Seq<char>, Seq<Seq<char>>)>) -> Seq<Seq<char>>
    decreases ov.len(),
{
    if ov.len() == 0 {
        Seq::empty()
    } else if first_named(all_actions(), ov.last().0) is None {
        unknown_names(ov.drop_last()).push(bad_action(ov.last().0))
    } else {
        unknown_names(ov.drop_last())
    }
}

/// The first action bound to `k`.
pub open spec fn bound(bs: Seq<((KeyCode, Mods), Action)>, k: (KeyCode, Mods)) -> Option<Action>
    decreases bs.len(),
{
    if bs.len() == 0 {
        None
    } else if bs[0].0 == k {
        Some(bs[0].1)
    } else {
        bound(bs.drop_first(), k)
    }
}

/// A key's name for the help screen.
pub open spec fn code_name(code: KeyCode) -> Seq<char> {
    match code {
        KeyCode::Char(c) => if c == ' ' { "Space"@ } else { seq![c] },
        KeyCode::BackTab => "Shift-Tab"@,
        KeyCode::Esc => "Esc"@,
        KeyCode::Enter => "Enter"@,
        KeyCode::Tab => "Tab"@,
        KeyCode::Backspace => "Backspace"@,
        KeyCode::Delete => "Delete"@,
        KeyCode::Up => "Up"@,
        KeyCode::Down => "Down"@,
        KeyCode::Left => "Left"@,
        KeyCode::Right => "Right"@,
        KeyCode::Home => "Home"@,
        KeyCode::End => "End"@,
        KeyCode::PageUp => "PageUp"@,
        KeyCode::PageDown => "PageDown"@,
        KeyCode::Other => "Other"@,
    }
}

/// A binding as the help screen shows it: `Ctrl-` and `Alt-` when held,
/// then the key.
pub open spec fn described(code: KeyCode, m: Mods) -> Seq<char> {
    (if m.ctrl { "Ctrl-"@ } else { Seq::empty() }) + (if m.alt { "Alt-"@ } else { Seq::empty() }) + code_name(code)
}

/// The keys bound to `a`, described, in binding order.
pub open spec fn keys_of(bs: Seq<((KeyCode, Mods), Action)>, a: Action) -> Seq<Seq<char>>
    decreases bs.len(),
{
    if bs.len() == 0 {
        Seq::empty()
    } else if bs.last().1 == a {
        keys_of(bs.drop_last(), a).push(described(bs.last().0.0, bs.last().0.1))
    } else {
        keys_of(bs.drop_last(), a)
    }
}

/// Describes a binding for the help screen.
pub fn describe(code: KeyCode, modifiers: Mods) -> (r: String)
    ensures
        r@ == described(code, modifiers),
{
    let mut out = String::new();
    if modifiers.ctrl {
        push_str(&mut out, "Ctrl-");
    }
    if modifiers.alt {
        push_str(&mut out, "Alt-");
    }
    let ghost head = out@;
    match code {
        KeyCode::Char(c) => {
            if c == ' ' {
                push_str(&mut out, "Space");
            } else {
                push_char(&mut out, c);
            }
        },
        KeyCode::BackTab => push_str(&mut out, "Shift-Tab"),
        KeyCode::Esc => push_str(&mut out, "Esc"),
        KeyCode::Enter => push_str(&mut out, "Enter"),
        KeyCode::Tab => push_str(&mut out, "Tab"),
        KeyCode::Backspace => push_str(&mut out, "Backspace"),
        KeyCode::Delete => push_str(&mut out, "Delete"),
        KeyCode::Up => push_str(&mut out, "Up"),
        KeyCode::Down => push_str(&mut out, "Down"),
        KeyCode::Left => push_str(&mut out, "Left"),
        KeyCode::Right => push_str(&mut out, "Right"),
        KeyCode::Home => push_str(&mut out, "Home"),
        KeyCode::End => push_str(&mut out, "End"),
        KeyCode::PageUp => push_str(&mut out, "PageUp"),
        KeyCode::PageDown => push_str(&mut out, "PageDown"),
        KeyCode::Other => push_str(&mut out, "Other"),
    }
    proof {
        assert(head =~= (if modifiers.ctrl { "Ctrl-"@ } else { Seq::empty() }) + (if modifiers.alt { "Alt-"@ } else { Seq::empty() }));
        assert(out@ =~= described(code, modifiers));
    }
    out
}

fn find_override(overrides: &Vec<(String, Vec<String>)>, name: &str) -> (r: Option<usize>)
    ensures
        match r {
            Some(i) => i < overrides@.len() && override_for(overrides_v(overrides@), name@) == Some(overrides_v(overrides@)[i as int].1),
            None => override_for(overrides_v(overrides@), name@) is None,
        },
{
    let ghost ov = overrides_v(overrides@);
    let mut i: usize = 0;
    proof {
        assert(ov.skip(0) =~= ov);
    }
    while i < overrides.len()
        invariant
            i <= overrides@.len(),
            ov == overrides_v(overrides@),
            override_for(ov.skip(i as int), name@) == override_for(ov, name@),
        decreases overrides@.len() - i,
    {
        proof {
            assert(ov.skip(i as int)[0] == ov[i as int]);
            assert(ov.skip(i as int).drop_first() =~= ov.skip(i + 1));
        }
        if str_eq(overrides[i].0.as_str(), name) {
            return Some(i);
        }
        i = i + 1;
    }
    proof {
        assert(ov.skip(i as int) =~= Seq::<(Seq<char>, Seq<Seq<char>>)>::empty());
    }
    None
}

fn bind_each(specs: &Vec<String>, a: Action, bindings: &mut Vec<((KeyCode, Mods), Action)>, problems: &mut Vec<String>)
    ensures
        final(bindings)@ == old(bindings)@ + bind_specs(specs@.map_values(|x: String| x@), a).0,
        final(problems)@.map_values(|x: String| x@) == old(problems)@.map_values(|x: String| x@) + bind_specs(specs@.map_values(|x: String| x@), a).1,
{
    let ghost sv = specs@.map_values(|x: String| x@);
    let ghost b0 = bindings@;
    let ghost p0 = problems@.map_values(|x: String| x@);
    let mut i: usize = 0;
    proof {
        assert(sv.take(0) =~= Seq::<Seq<char>>::empty());
        assert(bindings@ =~= b0 + bind_specs(sv.take(0), a).0);
        assert(problems@.map_values(|x: String| x@) =~= p0 + bind_specs(sv.take(0), a).1);
    }
    while i < specs.len()
        invariant
            i <= specs@.len(),
            sv == specs@.map_values(|x: String| x@),
            bindings@ == b0 + bind_specs(sv.take(i as int), a).0,
            problems@.map_values(|x: String| x@) == p0 + bind_specs(sv.take(i as int), a).1,
        decreases specs@.len() - i,
    {
        proof {
            assert(sv.take(i + 1).drop_last() =~= sv.take(i as int));
            assert(sv.take(i + 1).last() == specs@[i as int]@);
        }
        match parse_key(specs[i].as_str()) {
            Some((code, m)) => {
                bindings.push((normalise(code, m), a));
                proof {
                    assert(bindings@ =~= b0 + bind_specs(sv.take(i + 1), a).0);
                    assert(problems@.map_values(|x: String| x@) =~= p0 + bind_specs(sv.take(i + 1), a).1);
                }
            },
            None => {
                let mut msg = String::new();
                push_str(&mut msg, "cannot parse key ");
                push_debug(&mut msg, specs[i].as_str());
                proof {
                    assert(msg@ =~= bad_key(specs@[i as int]@));
                    assert(problems@.push(msg).map_values(|x: String| x@) =~= problems@.map_values(|x: String| x@).push(msg@));
                }
                problems.push(msg);
                proof {
                    assert(problems@.map_values(|x: String| x@) =~= p0 + bind_specs(sv.take(i + 1), a).1);
                }
            },
        }
        i = i + 1;
    }
    proof {
        assert(sv.take(i as int) =~= sv);
    }
}

fn default_specs(a: Action) -> (r: Vec<String>)
    ensures
        r@.map_values(|x: String| x@) == default_keys(a),
{
    let ks = default_keys_of(a);
    let mut out: Vec<String> = Vec::new();
    let mut i: usize = 0;
    while i < ks.len()
        invariant
            i <= ks@.len(),
            keys_v(ks@) == default_keys(a),
            out@.map_values(|x: String| x@) == keys_v(ks@).take(i as int),
        decreases ks@.len() - i,
    {
        let mut s = String::new();
        push_str(&mut s, ks[i]);
        proof {
            assert(s@ =~= ks@[i as int]@);
            assert(keys_v(ks@)[i as int] == ks@[i as int]@);
            assert(keys_v(ks@).take(i + 1) =~= keys_v(ks@).take(i as int).push(keys_v(ks@)[i as int]));
            assert(out@.push(s).map_values(|x: String| x@) =~= out@.map_values(|x: String| x@).push(s@));
            assert(out@.push(s).map_values(|x: String| x@) =~= keys_v(ks@).take(i + 1));
        }
        out.push(s);
        i = i + 1;
    }
    proof {
        assert(keys_v(ks@).take(i as int) =~= keys_v(ks@));
    }
    out
}

impl Keymap {
    pub closed spec fn bindings_v(&self) -> Seq<((KeyCode, Mods), Action)> {
        self.bindings@
    }

    /// Builds the map from the defaults with the configured overrides (the
    /// `[keys]` table, in key order) applied: naming an action replaces all
    /// of its default keys. Also returns complaints about override names that
    /// are not actions and about key specs that cannot be read, so a typo is
    /// reported rather than silently leaving a key unbound.
    pub fn new(overrides: &Vec<(String, Vec<String>)>) -> (r: (Keymap, Vec<String>))
        ensures
            r.0.bindings_v() == bind_all(overrides_v(overrides@), all_actions()).0,
            r.1@.map_values(|x: String| x@) == unknown_names(overrides_v(overrides@)) + bind_all(
                overrides_v(overrides@),
                all_actions(),
            ).1,
    {
        let ghost ov = overrides_v(overrides@);
        let mut problems: Vec<String> = Vec::new();
        let mut i: usize = 0;
        proof {
            assert(problems@.map_values(|x: String| x@) =~= unknown_names(ov.take(0)));
        }
        while i < overrides.len()
            invariant
                i <= overrides@.len(),
                ov == overrides_v(overrides@),
                problems@.map_values(|x: String| x@) == unknown_names(ov.take(i as int)),
            decreases overrides@.len() - i,
        {
            proof {
                assert(ov.take(i + 1).drop_last() =~= ov.take(i as int));
                assert(ov.take(i + 1).last() == ov[i as int]);
            }
            if Action::from_name(overrides[i].0.as_str()).is_none() {
                let mut msg = String::new();
                push_str(&mut msg, "unknown action ");
                push_debug(&mut msg, overrides[i].0.as_str());
                push_str(&mut msg, " in [keys]");
                proof {
                    assert(msg@ =~= bad_action(ov[i as int].0));
                    assert(problems@.push(msg).map_values(|x: String| x@) =~= problems@.map_values(|x: String| x@).push(msg@));
                }
                problems.push(msg);
            }
            i = i + 1;
        }
        proof {
            assert(ov.take(i as int) =~= ov);
        }
        let ghost u = problems@.map_values(|x: String| x@);
        let acts = actions();
        let mut bindings: Vec<((KeyCode, Mods), Action)> = Vec::new();
        let mut k: usize = 0;
        proof {
            assert(acts@.take(0) =~= Seq::<Action>::empty());
            assert(bindings@ =~= bind_all(ov, acts@.take(0)).0);
            assert(problems@.map_values(|x: String| x@) =~= u + bind_all(ov, acts@.take(0)).1);
        }
        while k < acts.len()
            invariant
                k <= acts@.len(),
                acts@ == all_actions(),
                ov == overrides_v(overrides@),
                bindings@ == bind_all(ov, acts@.take(k as int)).0,
                problems@.map_values(|x: String| x@) == u + bind_all(ov, acts@.take(k as int)).1,
            decreases acts@.len() - k,
        {
            let a = acts[k];
            proof {
                assert(acts@.take(k + 1).drop_last() =~= acts@.take(k as int));
                assert(acts@.take(k + 1).last() == a);
            }
            let ghost b_before = bindings@;
            let ghost p_before = problems@.map_values(|x: String| x@);
            match find_override(overrides, a.name()) {
                Some(j) => {
                    proof {
                        assert(overrides@[j as int].1@.map_values(|x: String| x@) == ov[j as int].1);
                    }
                    bind_each(&overrides[j].1, a, &mut bindings, &mut problems);
                },
                None => {
                    let d = default_specs(a);
                    bind_each(&d, a, &mut bindings, &mut problems);
                },
            }
            proof {
                assert(bindings@ =~= bind_all(ov, acts@.take(k + 1)).0);
                assert(problems@.map_values(|x: String| x@) =~= u + bind_all(ov, acts@.take(k + 1)).1);
            }
            k = k + 1;
        }
        proof {
            assert(acts@.take(k as int) =~= all_actions());
        }
        (Keymap { bindings }, problems)
    }

    /// The action bound to a key press, if any.
    pub fn lookup(&self, key: &KeyEvent) -> (r: Option<Action>)
        ensures
            r == bound(self.bindings_v(), normalised(key.code, key.modifiers)),
    {
        let wanted = normalise(key.code, key.modifiers);
        let mut i: usize = 0;
        proof {
            assert(self.bindings@.skip(0) =~= self.bindings@);
        }
        while i < self.bindings.len()
            invariant
                i <= self.bindings@.len(),
                wanted == normalised(key.code, key.modifiers),
                bound(self.bindings@.skip(i as int), wanted) == bound(self.bindings@, wanted),
            decreases self.bindings@.len() - i,
        {
            proof {
                assert(self.bindings@.skip(i as int)[0] == self.bindings@[i as int]);
                assert(self.bindings@.skip(i as int).drop_first() =~= self.bindings@.skip(i + 1));
            }
            let (k, a) = self.bindings[i];
            if k.0 == wanted.0 && k.1 == wanted.1 {
                return Some(a);
            }
            i = i + 1;
        }
        proof {
            assert(self.bindings@.skip(i as int) =~= Seq::<((KeyCode, Mods), Action)>::empty());
        }
        None
    }

    /// Every key currently bound to `action`, for the help screen.
    pub fn keys_for(&self, action: Action) -> (r: Vec<String>)
        ensures
            r@.map_values(|x: String| x@) == keys_of(self.bindings_v(), action),
    {
        let mut out: Vec<String> = Vec::new();
        let mut i: usize = 0;
        proof {
            assert(out@.map_values(|x: String| x@) =~= keys_of(self.bindings@.take(0), action));
        }
        while i < self.bindings.len()
            invariant
                i <= self.bindings@.len(),
                out@.map_values(|x: String| x@) == keys_of(self.bindings@.take(i as int), action),
            decreases self.bindings@.len() - i,
        {
            proof {
                assert(self.bindings@.take(i + 1).drop_last() =~= self.bindings@.take(i as int));
                assert(self.bindings@.take(i + 1).last() == self.bindings@[i as int]);
            }
            let (k, a) = self.bindings[i];
            if a == action {
                let d = describe(k.0, k.1);
                proof {
                    assert(out@.push(d).map_values(|x: String| x@) =~= out@.map_values(|x: String| x@).push(d@));
                }
                out.push(d);
            }
            i = i + 1;
        }
        proof {
            assert(self.bindings@.take(i as int) =~= self.bindings@);
        }
        out
    }
}


/// The words of key specs and of key names, spelled out for the prover.
proof fn lemma_key_words()
    ensures
        "esc"@.len() == 3 && "esc"@[0] == 'e' && "esc"@[1] == 's' && "esc"@[2] == 'c',
        "escape"@.len() == 6 && "escape"@[0] == 'e' && "escape"@[1] == 's' && "escape"@[2] == 'c' && "escape"@[3] == 'a' && "escape"@[4] == 'p' && "escape"@[5] == 'e',
        "enter"@.len() == 5 && "enter"@[0] == 'e' && "enter"@[1] == 'n' && "enter"@[2] == 't' && "enter"@[3] == 'e' && "enter"@[4] == 'r',
        "return"@.len() == 6 && "return"@[0] == 'r' && "return"@[1] == 'e' && "return"@[2] == 't' && "return"@[3] == 'u' && "return"@[4] == 'r' && "return"@[5] == 'n',
        "cr"@.len() == 2 && "cr"@[0] == 'c' && "cr"@[1] == 'r',
        "space"@.len() == 5 && "space"@[0] == 's' && "space"@[1] == 'p' && "space"@[2] == 'a' && "space"@[3] == 'c' && "space"@[4] == 'e',
        "tab"@.len() == 3 && "tab"@[0] == 't' && "tab"@[1] == 'a' && "tab"@[2] == 'b',
        "backtab"@.len() == 7 && "backtab"@[0] == 'b' && "backtab"@[1] == 'a' && "backtab"@[2] == 'c' && "backtab"@[3] == 'k' && "backtab"@[4] == 't' && "backtab"@[5] == 'a' && "backtab"@[6] == 'b',
        "backspace"@.len() == 9 && "backspace"@[0] == 'b' && "backspace"@[1] == 'a' && "backspace"@[2] == 'c' && "backspace"@[3] == 'k' && "backspace"@[4] == 's' && "backspace"@[5] == 'p' && "backspace"@[6] == 'a' && "backspace"@[7] == 'c' && "backspace"@[8] == 'e',
        "bs"@.len() == 2 && "bs"@[0] == 'b' && "bs"@[1] == 's',
        "delete"@.len() == 6 && "delete"@[0] == 'd' && "delete"@[1] == 'e' && "delete"@[2] == 'l' && "delete"@[3] == 'e' && "delete"@[4] == 't' && "delete"@[5] == 'e',
        "del"@.len() == 3 && "del"@[0] == 'd' && "del"@[1] == 'e' && "del"@[2] == 'l',
        "up"@.len() == 2 && "up"@[0] == 'u' && "up"@[1] == 'p',
        "down"@.len() == 4 && "down"@[0] == 'd' && "down"@[1] == 'o' && "down"@[2] == 'w' && "down"@[3] == 'n',
        "left"@.len() == 4 && "left"@[0] == 'l' && "left"@[1] == 'e' && "left"@[2] == 'f' && "left"@[3] == 't',
        "right"@.len() == 5 && "right"@[0] == 'r' && "right"@[1] == 'i' && "right"@[2] == 'g' && "right"@[3] == 'h' && "right"@[4] == 't',
        "home"@.len() == 4 && "home"@[0] == 'h' && "home"@[1] == 'o' && "home"@[2] == 'm' && "home"@[3] == 'e',
        "end"@.len() == 3 && "end"@[0] == 'e' && "end"@[1] == 'n' && "end"@[2] == 'd',
        "pgup"@.len() == 4 && "pgup"@[0] == 'p' && "pgup"@[1] == 'g' && "pgup"@[2] == 'u' && "pgup"@[3] == 'p',
        "pageup"@.len() == 6 && "pageup"@[0] == 'p' && "pageup"@[1] == 'a' && "pageup"@[2] == 'g' && "pageup"@[3] == 'e' && "pageup"@[4] == 'u' && "pageup"@[5] == 'p',
        "pgdn"@.len() == 4 && "pgdn"@[0] == 'p' && "pgdn"@[1] == 'g' && "pgdn"@[2] == 'd' && "pgdn"@[3] == 'n',
        "pagedown"@.len() == 8 && "pagedown"@[0] == 'p' && "pagedown"@[1] == 'a' && "pagedown"@[2] == 'g' && "pagedown"@[3] == 'e' && "pagedown"@[4] == 'd' && "pagedown"@[5] == 'o' && "pagedown"@[6] == 'w' && "pagedown"@[7] == 'n',
        "ctrl"@.len() == 4 && "ctrl"@[0] == 'c' && "ctrl"@[1] == 't' && "ctrl"@[2] == 'r' && "ctrl"@[3] == 'l',
        "c"@.len() == 1 && "c"@[0] == 'c',
        "alt"@.len() == 3 && "alt"@[0] == 'a' && "alt"@[1] == 'l' && "alt"@[2] == 't',
        "meta"@.len() == 4 && "meta"@[0] == 'm' && "meta"@[1] == 'e' && "meta"@[2] == 't' && "meta"@[3] == 'a',
        "a"@.len() == 1 && "a"@[0] == 'a',
        "m"@.len() == 1 && "m"@[0] == 'm',
        "shift"@.len() == 5 && "shift"@[0] == 's' && "shift"@[1] == 'h' && "shift"@[2] == 'i' && "shift"@[3] == 'f' && "shift"@[4] == 't',
        "s"@.len() == 1 && "s"@[0] == 's',
        "Esc"@.len() == 3 && "Esc"@[0] == 'E' && "Esc"@[1] == 's' && "Esc"@[2] == 'c',
        "Enter"@.len() == 5 && "Enter"@[0] == 'E' && "Enter"@[1] == 'n' && "Enter"@[2] == 't' && "Enter"@[3] == 'e' && "Enter"@[4] == 'r',
        "Tab"@.len() == 3 && "Tab"@[0] == 'T' && "Tab"@[1] == 'a' && "Tab"@[2] == 'b',
        "Backspace"@.len() == 9 && "Backspace"@[0] == 'B' && "Backspace"@[1] == 'a' && "Backspace"@[2] == 'c' && "Backspace"@[3] == 'k' && "Backspace"@[4] == 's' && "Backspace"@[5] == 'p' && "Backspace"@[6] == 'a' && "Backspace"@[7] == 'c' && "Backspace"@[8] == 'e',
        "Delete"@.len() == 6 && "Delete"@[0] == 'D' && "Delete"@[1] == 'e' && "Delete"@[2] == 'l' && "Delete"@[3] == 'e' && "Delete"@[4] == 't' && "Delete"@[5] == 'e',
        "Up"@.len() == 2 && "Up"@[0] == 'U' && "Up"@[1] == 'p',
        "Down"@.len() == 4 && "Down"@[0] == 'D' && "Down"@[1] == 'o' && "Down"@[2] == 'w' && "Down"@[3] == 'n',
        "Left"@.len() == 4 && "Left"@[0] == 'L' && "Left"@[1] == 'e' && "Left"@[2] == 'f' && "Left"@[3] == 't',
        "Right"@.len() == 5 && "Right"@[0] == 'R' && "Right"@[1] == 'i' && "Right"@[2] == 'g' && "Right"@[3] == 'h' && "Right"@[4] == 't',
        "Home"@.len() == 4 && "Home"@[0] == 'H' && "Home"@[1] == 'o' && "Home"@[2] == 'm' && "Home"@[3] == 'e',
        "End"@.len() == 3 && "End"@[0] == 'E' && "End"@[1] == 'n' && "End"@[2] == 'd',
        "PageUp"@.len() == 6 && "PageUp"@[0] == 'P' && "PageUp"@[1] == 'a' && "PageUp"@[2] == 'g' && "PageUp"@[3] == 'e' && "PageUp"@[4] == 'U' && "PageUp"@[5] == 'p',
        "PageDown"@.len() == 8 && "PageDown"@[0] == 'P' && "PageDown"@[1] == 'a' && "PageDown"@[2] == 'g' && "PageDown"@[3] == 'e' && "PageDown"@[4] == 'D' && "PageDown"@[5] == 'o' && "PageDown"@[6] == 'w' && "PageDown"@[7] == 'n',
        "Space"@.len() == 5 && "Space"@[0] == 'S' && "Space"@[1] == 'p' && "Space"@[2] == 'a' && "Space"@[3] == 'c' && "Space"@[4] == 'e',
        "Shift"@.len() == 5 && "Shift"@[0] == 'S' && "Shift"@[1] == 'h' && "Shift"@[2] == 'i' && "Shift"@[3] == 'f' && "Shift"@[4] == 't',
        "Ctrl"@.len() == 4 && "Ctrl"@[0] == 'C' && "Ctrl"@[1] == 't' && "Ctrl"@[2] == 'r' && "Ctrl"@[3] == 'l',
        "Alt"@.len() == 3 && "Alt"@[0] == 'A' && "Alt"@[1] == 'l' && "Alt"@[2] == 't',
        "Shift-Tab"@.len() == 9 && "Shift-Tab"@[0] == 'S' && "Shift-Tab"@[1] == 'h' && "Shift-Tab"@[2] == 'i' && "Shift-Tab"@[3] == 'f' && "Shift-Tab"@[4] == 't' && "Shift-Tab"@[5] == '-' && "Shift-Tab"@[6] == 'T' && "Shift-Tab"@[7] == 'a' && "Shift-Tab"@[8] == 'b',
        "Ctrl-"@.len() == 5 && "Ctrl-"@[0] == 'C' && "Ctrl-"@[1] == 't' && "Ctrl-"@[2] == 'r' && "Ctrl-"@[3] == 'l' && "Ctrl-"@[4] == '-',
        "Alt-"@.len() == 4 && "Alt-"@[0] == 'A' && "Alt-"@[1] == 'l' && "Alt-"@[2] == 't' && "Alt-"@[3] == '-',
{
    reveal_strlit("esc");
    reveal_strlit("escape");
    reveal_strlit("enter");
    reveal_strlit("return");
    reveal_strlit("cr");
    reveal_strlit("space");
    reveal_strlit("tab");
    reveal_strlit("backtab");
    reveal_strlit("backspace");
    reveal_strlit("bs");
    reveal_strlit("delete");
    reveal_strlit("del");
    reveal_strlit("up");
    reveal_strlit("down");
    reveal_strlit("left");
    reveal_strlit("right");
    reveal_strlit("home");
    reveal_strlit("end");
    reveal_strlit("pgup");
    reveal_strlit("pageup");
    reveal_strlit("pgdn");
    reveal_strlit("pagedown");
    reveal_strlit("ctrl");
    reveal_strlit("c");
    reveal_strlit("alt");
    reveal_strlit("meta");
    reveal_strlit("a");
    reveal_strlit("m");
    reveal_strlit("shift");
    reveal_strlit("s");
    reveal_strlit("Esc");
    reveal_strlit("Enter");
    reveal_strlit("Tab");
    reveal_strlit("Backspace");
    reveal_strlit("Delete");
    reveal_strlit("Up");
    reveal_strlit("Down");
    reveal_strlit("Left");
    reveal_strlit("Right");
    reveal_strlit("Home");
    reveal_strlit("End");
    reveal_strlit("PageUp");
    reveal_strlit("PageDown");
    reveal_strlit("Space");
    reveal_strlit("Shift");
    reveal_strlit("Ctrl");
    reveal_strlit("Alt");
    reveal_strlit("Shift-Tab");
    reveal_strlit("Ctrl-");
    reveal_strlit("Alt-");
}

/// The lowercase forms of the key and modifier names the help screen writes.
proof fn lemma_key_names_lowered()
    ensures
        lower_seq("Esc"@) == "esc"@,
        lower_seq("Enter"@) == "enter"@,
        lower_seq("Tab"@) == "tab"@,
        lower_seq("Backspace"@) == "backspace"@,
        lower_seq("Delete"@) == "delete"@,
        lower_seq("Up"@) == "up"@,
        lower_seq("Down"@) == "down"@,
        lower_seq("Left"@) == "left"@,
        lower_seq("Right"@) == "right"@,
        lower_seq("Home"@) == "home"@,
        lower_seq("End"@) == "end"@,
        lower_seq("PageUp"@) == "pageup"@,
        lower_seq("PageDown"@) == "pagedown"@,
        lower_seq("Space"@) == "space"@,
        lower_seq("Shift"@) == "shift"@,
        lower_seq("Ctrl"@) == "ctrl"@,
        lower_seq("Alt"@) == "alt"@,
{
    lemma_key_words();
    assert(lower_seq("Esc"@) =~= "esc"@);
    assert(lower_seq("Enter"@) =~= "enter"@);
    assert(lower_seq("Tab"@) =~= "tab"@);
    assert(lower_seq("Backspace"@) =~= "backspace"@);
    assert(lower_seq("Delete"@) =~= "delete"@);
    assert(lower_seq("Up"@) =~= "up"@);
    assert(lower_seq("Down"@) =~= "down"@);
    assert(lower_seq("Left"@) =~= "left"@);
    assert(lower_seq("Right"@) =~= "right"@);
    assert(lower_seq("Home"@) =~= "home"@);
    assert(lower_seq("End"@) =~= "end"@);
    assert(lower_seq("PageUp"@) =~= "pageup"@);
    assert(lower_seq("PageDown"@) =~= "pagedown"@);
    assert(lower_seq("Space"@) =~= "space"@);
    assert(lower_seq("Shift"@) =~= "shift"@);
    assert(lower_seq("Ctrl"@) =~= "ctrl"@);
    assert(lower_seq("Alt"@) =~= "alt"@);
}

/// Where the first separator of `w + t` is, when `w` holds none.
proof fn lemma_first_sep_after(w: Seq<char>, t: Seq<char>)
    requires
        forall|k: int| 0 <= k < w.len() ==> #[trigger] w[k] != '-' && w[k] != '+',
    ensures
        first_sep(w + t) == (if first_sep(t) < 0 { -1 } else { w.len() + first_sep(t) }),
    decreases w.len(),
{
    if w.len() > 0 {
        assert((w + t)[0] == w[0]);
        assert((w + t).drop_first() =~= w.drop_first() + t);
        lemma_first_sep_after(w.drop_first(), t);
    } else {
        assert(w + t =~= t);
    }
}

/// A leading modifier word and its `-` come off, adding the modifier.
proof fn lemma_split_word(w: Seq<char>, rest: Seq<char>, m: Mods)
    requires
        forall|k: int| 0 <= k < w.len() ==> #[trigger] w[k] != '-' && w[k] != '+',
        modifier_of(w) is Some,
    ensures
        split_mods(w + seq!['-'] + rest, m) == split_mods(rest, union(m, modifier_of(w)->0)),
{
    let s = w + seq!['-'] + rest;
    assert(w + seq!['-'] + rest =~= w + (seq!['-'] + rest));
    lemma_first_sep_after(w, seq!['-'] + rest);
    assert((seq!['-'] + rest)[0] == '-');
    assert(first_sep(seq!['-'] + rest) == 0);
    assert(s.take(w.len() as int) =~= w);
    assert(s.skip(w.len() as int + 1) =~= rest);
}

/// A spec with no separator is all key.
proof fn lemma_split_plain(s: Seq<char>, m: Mods)
    requires
        forall|k: int| 0 <= k < s.len() ==> #[trigger] s[k] != '-' && s[k] != '+',
    ensures
        split_mods(s, m) == (m, s),
{
    lemma_first_sep(s);
}

/// The key part of a spec names its key.
proof fn lemma_key_of_name(code: KeyCode, m: Mods)
    requires
        !(code is Other),
        !(code is BackTab),
        !m.shift,
    ensures
        key_of(code_name(code), m) == Some((code, m)),
{
    lemma_key_words();
    lemma_key_names_lowered();
    match code {
        KeyCode::Char(c) => {
            if c != ' ' {
                assert(lower_seq(seq![c]).len() == 1);
            }
        },
        _ => {},
    }
}

/// The modifiers of a key's name come off as the ones held, leaving the
/// key's own name.
proof fn lemma_split_described(code: KeyCode, m: Mods)
    requires
        !(code is Other),
        !(code is BackTab),
        !m.shift,
        !m.other,
    ensures
        split_mods(described(code, m), Mods::none_spec()) == (m, code_name(code)),
{
    lemma_key_words();
    let name = code_name(code);
    let none = Mods::none_spec();
    let ctrl = Mods { ctrl: true, alt: false, shift: false, other: false };
    let alt = Mods { ctrl: false, alt: true, shift: false, other: false };
    assert(lower_seq("Ctrl"@) =~= "ctrl"@);
    assert(lower_seq("Alt"@) =~= "alt"@);
    assert(modifier_of("Ctrl"@) == Some(ctrl));
    assert(modifier_of("Alt"@) == Some(alt));
    reveal_strlit("Ctrl");
    reveal_strlit("Alt");
    assert("Ctrl-"@ =~= "Ctrl"@ + seq!['-']);
    assert("Alt-"@ =~= "Alt"@ + seq!['-']);
    // Splitting the bare name leaves it whole, whatever is held so far.
    assert forall|mm: Mods| split_mods(name, mm) == (mm, name) by {
        match code {
            KeyCode::Char(c) => {
                if c == '-' || c == '+' {
                    assert(first_sep(name) == 0);
                    assert(name.take(0) =~= Seq::<char>::empty());
                    assert(lower_seq(Seq::<char>::empty()) =~= Seq::<char>::empty());
                } else if c != ' ' {
                    lemma_split_plain(name, mm);
                } else {
                    lemma_split_plain(name, mm);
                }
            },
            _ => {
                lemma_split_plain(name, mm);
            },
        }
    }
    let after_alt = if m.alt { "Alt-"@ + name } else { name };
    assert(described(code, m) =~= (if m.ctrl { "Ctrl-"@ + after_alt } else { after_alt }));
    let m1 = if m.ctrl { union(none, ctrl) } else { none };
    if m.alt {
        assert("Alt-"@ + name =~= "Alt"@ + seq!['-'] + name);
        lemma_split_word("Alt"@, name, m1);
    }
    if m.ctrl {
        assert("Ctrl-"@ + after_alt =~= "Ctrl"@ + seq!['-'] + after_alt);
        lemma_split_word("Ctrl"@, after_alt, none);
    }
}

/// Every key the help screen names reads back as itself through
/// [`parse_key`]: the name of a key with `Ctrl-` and `Alt-` held parses to
/// that key with those modifiers. Back-tab is written `Shift-Tab`, so it
/// reads back as itself only with nothing else held.
pub proof fn law_described_keys_parse_back(code: KeyCode, m: Mods)
    requires
        !(code is Other),
        !m.shift,
        !m.other,
        code is BackTab ==> !m.ctrl && !m.alt,
    ensures
        parsed_key(described(code, m)) == Some((code, m)),
{
    lemma_key_words();
    if code is BackTab {
        let none = Mods::none_spec();
        let sh = Mods { ctrl: false, alt: false, shift: true, other: false };
        reveal_strlit("Shift");
        reveal_strlit("Tab");
        assert(lower_seq("Shift"@) =~= "shift"@);
        assert(modifier_of("Shift"@) == Some(sh));
        assert(described(code, m) =~= "Shift-Tab"@);
        assert("Shift-Tab"@ =~= "Shift"@ + seq!['-'] + "Tab"@);
        lemma_split_word("Shift"@, "Tab"@, none);
        lemma_split_plain("Tab"@, union(none, sh));
        assert(lower_seq("Tab"@) =~= "tab"@);
    } else {
        lemma_split_described(code, m);
        lemma_key_of_name(code, m);
    }
}


/// The word a key name is an alias of, in any case: `escape` of `esc`,
/// `return` and `cr` of `enter`, `bs` of `backspace`, `del` of `delete`,
/// `pgup` of `pageup`, `pgdn` of `pagedown`; any other word is itself.
pub open spec fn canonical_key_word(w: Seq<char>) -> Seq<char> {
    let l = lower_seq(w);
    if l == "escape"@ {
        "esc"@
    } else if l == "return"@ {
        "enter"@
    } else if l == "cr"@ {
        "enter"@
    } else if l == "bs"@ {
        "backspace"@
    } else if l == "del"@ {
        "delete"@
    } else if l == "pgup"@ {
        "pageup"@
    } else if l == "pgdn"@ {
        "pagedown"@
    } else {
        w
    }
}

/// An alias names the same key as the word it stands for, with the same
/// modifiers held.
pub proof fn law_key_aliases_agree(w: Seq<char>, m: Mods)
    ensures
        key_of(w, m) == key_of(canonical_key_word(w), m),
        canonical_key_word(w) != w ==> key_of(w, m) is Some,
{
    lemma_key_words();
    assert(lower_seq("backspace"@) =~= "backspace"@);
    assert(lower_seq("delete"@) =~= "delete"@);
    assert(lower_seq("enter"@) =~= "enter"@);
    assert(lower_seq("esc"@) =~= "esc"@);
    assert(lower_seq("pagedown"@) =~= "pagedown"@);
    assert(lower_seq("pageup"@) =~= "pageup"@);
}

} // verus!
