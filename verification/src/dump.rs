//! Writing a resolved theme back out as a theme file.
//!
//! [`dump`] is the theme reference: every key the reader knows is written,
//! the ones left at their default too, so the output says what there is to
//! set and doubles as the starting point for a new theme. It goes through
//! [`Theme::to_file`], which describes the theme as a [`ThemeFile`], and
//! [`lemma_dump_round_trip`] shows that such a file reads back, through
//! [`Theme::from_file`], as the theme it was made from.

use vstd::prelude::*;
use crate::ir::{Color, Style};
use crate::text::{push_str, push_char};
use crate::theme::{
    DecorSpec, Decoration, HeadingSpec, StyleSpec, Theme, ThemeFile, color_toml, color_text,
};

verus! {

/// The characters of each string, in order.
#[verifier::opaque]
pub open spec fn views(s: Seq<String>) -> Seq<Seq<char>> {
    s.map_values(|x: String| x@)
}

proof fn lemma_views(s: Seq<String>)
    ensures
        views(s).len() == s.len(),
        forall|i: int| 0 <= i < s.len() ==> #[trigger] views(s)[i] == s[i]@,
{
    reveal(views);
}

/// `s` between double quotes.
pub open spec fn quoted(s: Seq<char>) -> Seq<char> {
    seq!['"'] + s + seq!['"']
}

/// `key = "value"`, when there is a value.
pub open spec fn color_part(key: Seq<char>, c: Option<String>) -> Seq<Seq<char>> {
    match c {
        Some(s) => seq![key + " = "@ + quoted(s@)],
        None => Seq::empty(),
    }
}

/// `key = true`, when the attribute is on. One that is off is left out:
/// a theme can only add attributes, never take one away.
pub open spec fn flag_part(key: Seq<char>, on: bool) -> Seq<Seq<char>> {
    if on {
        seq![key + " = true"@]
    } else {
        Seq::empty()
    }
}

/// The keys a style spec writes, in order.
pub open spec fn style_parts(s: StyleSpec) -> Seq<Seq<char>> {
    color_part("fg"@, s.fg) + color_part("bg"@, s.bg) + flag_part("bold"@, s.bold) + flag_part(
        "italic"@,
        s.italic,
    ) + flag_part("underline"@, s.underline) + flag_part("strikethrough"@, s.strikethrough)
        + flag_part("dim"@, s.dim) + flag_part("reverse"@, s.reverse)
}

/// How a heading decoration is written: `false`, `true` or a color.
pub open spec fn decor_part(key: Seq<char>, d: Option<DecorSpec>) -> Seq<Seq<char>> {
    match d {
        None => Seq::empty(),
        Some(DecorSpec::On(true)) => seq![key + " = true"@],
        Some(DecorSpec::On(false)) => seq![key + " = false"@],
        Some(DecorSpec::Color(s)) => seq![key + " = "@ + quoted(s@)],
    }
}

/// The keys a heading spec writes: its style, its rule, its bar.
pub open spec fn heading_parts(h: HeadingSpec) -> Seq<Seq<char>> {
    style_parts(crate::theme::heading_style(h)) + decor_part("border"@, h.border) + decor_part(
        "bar"@,
        h.bar,
    )
}

/// The parts, separated by `, `.
pub open spec fn joined(parts: Seq<Seq<char>>) -> Seq<char>
    decreases parts.len(),
{
    if parts.len() == 0 {
        Seq::empty()
    } else if parts.len() == 1 {
        parts[0]
    } else {
        joined(parts.drop_last()) + ", "@ + parts.last()
    }
}

/// An inline table of the parts: `{}` when there are none.
pub open spec fn inline_table(parts: Seq<Seq<char>>) -> Seq<char> {
    if parts.len() == 0 {
        "{}"@
    } else {
        "{ "@ + joined(parts) + " }"@
    }
}

/// One `key = value` line.
pub open spec fn entry_line(key: Seq<char>, value: Seq<char>) -> Seq<char> {
    key + " = "@ + value + "\n"@
}

/// One line per style entry, in order.
pub open spec fn style_lines(m: Seq<(String, StyleSpec)>) -> Seq<char>
    decreases m.len(),
{
    if m.len() == 0 {
        Seq::empty()
    } else {
        style_lines(m.drop_last()) + entry_line(m.last().0@, inline_table(style_parts(m.last().1)))
    }
}

/// One line per heading entry, in order.
pub open spec fn heading_lines(m: Seq<(String, HeadingSpec)>) -> Seq<char>
    decreases m.len(),
{
    if m.len() == 0 {
        Seq::empty()
    } else {
        heading_lines(m.drop_last()) + entry_line(m.last().0@, inline_table(heading_parts(m.last().1)))
    }
}

/// A section: a blank line, its `[title]`, then its entries.
pub open spec fn section_text(title: Seq<char>, m: Seq<(String, StyleSpec)>) -> Seq<char> {
    "\n["@ + title + "]\n"@ + style_lines(m)
}

/// A string as Rust's `Debug` writes it: quoted, with quotes, backslashes
/// and control characters escaped.
pub uninterp spec fn debug_str(s: Seq<char>) -> Seq<char>;

/// The foreground or background line: the color, or a commented-out key
/// that still says the key exists.
pub open spec fn color_line(key: Seq<char>, c: Option<String>) -> Seq<char> {
    match c {
        Some(s) => key + " = "@ + quoted(s@) + "\n"@,
        None => "# "@ + key + " = \"#rrggbb\"   # unset: inherit\n"@,
    }
}

/// The `[code]` section: the highlighting theme, then the fence style.
pub open spec fn code_text(f: ThemeFile) -> Seq<char> {
    "\n[code]\n"@ + (match f.syntect_theme {
        Some(s) => "syntect_theme = "@ + debug_str(s@) + "\n"@,
        None => Seq::empty(),
    }) + (match f.fence {
        Some(s) => entry_line("fence"@, inline_table(style_parts(s))),
        None => Seq::empty(),
    })
}

/// A theme file as text.
pub open spec fn file_text(f: ThemeFile) -> Seq<char> {
    (match f.name {
        Some(n) => "name = "@ + debug_str(n@) + "\n"@,
        None => Seq::empty(),
    }) + color_line("foreground"@, f.foreground) + color_line("background"@, f.background)
        + code_text(f) + "\n[heading]\n"@ + heading_lines(f.heading@) + section_text(
        "inline"@,
        f.inline@,
    ) + section_text("block"@, f.block@) + section_text("table"@, f.table@) + section_text(
        "alert"@,
        f.alert@,
    ) + section_text("ui"@, f.ui@)
}

/// Writes a string the way Rust's `Debug` does (`format!("{:?}", s)`).
///
/// Trusted: the result is `debug_str` of the string's characters; what the
/// escapes are is left to std and not written out here.
#[verifier::external_body]
pub(crate) fn push_debug(out: &mut String, s: &str)
    ensures
        final(out)@ == old(out)@ + debug_str(s@),
{
    out.push_str(&format!("{:?}", s));
}

fn push_quoted(out: &mut String, s: &str)
    ensures
        final(out)@ == old(out)@ + quoted(s@),
{
    push_char(out, '"');
    push_str(out, s);
    push_char(out, '"');
    proof {
        assert(out@ =~= old(out)@ + quoted(s@));
    }
}

/// `key = "value"`.
fn quoted_part(key: &str, value: &str) -> (r: String)
    ensures
        r@ == key@ + " = "@ + quoted(value@),
{
    let mut out = String::new();
    push_str(&mut out, key);
    push_str(&mut out, " = ");
    push_quoted(&mut out, value);
    proof {
        assert(out@ =~= key@ + " = "@ + quoted(value@));
    }
    out
}

fn push_part(parts: &mut Vec<String>, p: String)
    ensures
        views(final(parts)@) == views(old(parts)@).push(p@),
{
    parts.push(p);
    proof {
        reveal(views);
        assert(views(parts@) =~= views(old(parts)@).push(p@));
    }
}

fn push_color_part(parts: &mut Vec<String>, key: &str, c: &Option<String>)
    ensures
        views(final(parts)@) == views(old(parts)@) + color_part(key@, *c),
{
    match c {
        Some(s) => push_part(parts, quoted_part(key, s.as_str())),
        None => {},
    }
    proof {
        assert(views(parts@) =~= views(old(parts)@) + color_part(key@, *c));
    }
}

fn push_flag_part(parts: &mut Vec<String>, key: &str, on: bool)
    ensures
        views(final(parts)@) == views(old(parts)@) + flag_part(key@, on),
{
    if on {
        let mut p = String::new();
        push_str(&mut p, key);
        push_str(&mut p, " = true");
        push_part(parts, p);
    }
    proof {
        assert(views(parts@) =~= views(old(parts)@) + flag_part(key@, on));
    }
}

fn push_style_parts(parts: &mut Vec<String>, s: &StyleSpec)
    ensures
        views(final(parts)@) == views(old(parts)@) + style_parts(*s),
{
    let ghost v0 = views(parts@);
    push_color_part(parts, "fg", &s.fg);
    push_color_part(parts, "bg", &s.bg);
    let ghost a = color_part("fg"@, s.fg);
    let ghost b = color_part("bg"@, s.bg);
    proof {
        vstd::seq_lib::lemma_concat_associative(v0, a, b);
    }
    let ghost a = a + b;
    push_flag_part(parts, "bold", s.bold);
    let ghost b = flag_part("bold"@, s.bold);
    proof {
        vstd::seq_lib::lemma_concat_associative(v0, a, b);
    }
    let ghost a = a + b;
    push_flag_part(parts, "italic", s.italic);
    let ghost b = flag_part("italic"@, s.italic);
    proof {
        vstd::seq_lib::lemma_concat_associative(v0, a, b);
    }
    let ghost a = a + b;
    push_flag_part(parts, "underline", s.underline);
    let ghost b = flag_part("underline"@, s.underline);
    proof {
        vstd::seq_lib::lemma_concat_associative(v0, a, b);
    }
    let ghost a = a + b;
    push_flag_part(parts, "strikethrough", s.strikethrough);
    let ghost b = flag_part("strikethrough"@, s.strikethrough);
    proof {
        vstd::seq_lib::lemma_concat_associative(v0, a, b);
    }
    let ghost a = a + b;
    push_flag_part(parts, "dim", s.dim);
    let ghost b = flag_part("dim"@, s.dim);
    proof {
        vstd::seq_lib::lemma_concat_associative(v0, a, b);
    }
    let ghost a = a + b;
    push_flag_part(parts, "reverse", s.reverse);
    let ghost b = flag_part("reverse"@, s.reverse);
    proof {
        vstd::seq_lib::lemma_concat_associative(v0, a, b);
    }
}

fn push_decor_part(parts: &mut Vec<String>, key: &str, d: &Option<DecorSpec>)
    ensures
        views(final(parts)@) == views(old(parts)@) + decor_part(key@, *d),
{
    match d {
        None => {},
        Some(DecorSpec::On(on)) => {
            let mut p = String::new();
            push_str(&mut p, key);
            if *on {
                push_str(&mut p, " = true");
            } else {
                push_str(&mut p, " = false");
            }
            push_part(parts, p);
        },
        Some(DecorSpec::Color(s)) => push_part(parts, quoted_part(key, s.as_str())),
    }
    proof {
        assert(views(parts@) =~= views(old(parts)@) + decor_part(key@, *d));
    }
}

/// Writes the parts as an inline table.
fn push_table(out: &mut String, parts: &Vec<String>)
    ensures
        final(out)@ == old(out)@ + inline_table(views(parts@)),
{
    let ghost p = views(parts@);
    proof {
        lemma_views(parts@);
    }
    if parts.len() == 0 {
        push_str(out, "{}");
        return ;
    }
    push_str(out, "{ ");
    let mut i: usize = 0;
    while i < parts.len()
        invariant
            i <= parts@.len(),
            p == views(parts@),
            p.len() == parts@.len(),
            forall|k: int| 0 <= k < parts@.len() ==> #[trigger] p[k] == parts@[k]@,
            p.len() > 0,
            out@ == old(out)@ + "{ "@ + joined(p.take(i as int)),
        decreases parts.len() - i,
    {
        proof {
            assert(p.take(i + 1).drop_last() =~= p.take(i as int));
            assert(p.take(i + 1).last() == parts@[i as int]@);
        }
        if i > 0 {
            push_str(out, ", ");
        }
        push_str(out, parts[i].as_str());
        i = i + 1;
        proof {
            if i == 1 {
                assert(joined(p.take(1)) == p[0]);
            }
            assert(out@ =~= old(out)@ + "{ "@ + joined(p.take(i as int)));
        }
    }
    push_str(out, " }");
    proof {
        assert(p.take(i as int) =~= p);
        assert(out@ =~= old(out)@ + inline_table(p));
    }
}

/// Writes `key = value` lines for a section's styles.
#[verifier::spinoff_prover]
#[verifier::rlimit(30)]
fn push_style_lines(out: &mut String, m: &Vec<(String, StyleSpec)>)
    ensures
        final(out)@ == old(out)@ + style_lines(m@),
{
    let mut i: usize = 0;
    while i < m.len()
        invariant
            i <= m@.len(),
            out@ == old(out)@ + style_lines(m@.take(i as int)),
        decreases m.len() - i,
    {
        proof {
            assert(m@.take(i + 1).drop_last() =~= m@.take(i as int));
        }
        push_str(out, m[i].0.as_str());
        push_str(out, " = ");
        let mut parts: Vec<String> = Vec::new();
        proof {
            reveal(views);
            assert(views(parts@) =~= Seq::<Seq<char>>::empty());
        }
        push_style_parts(&mut parts, &m[i].1);
        push_table(out, &parts);
        push_str(out, "\n");
        i = i + 1;
        proof {
            assert(views(parts@) =~= style_parts(m@[i - 1].1));
            assert(out@ =~= old(out)@ + style_lines(m@.take(i as int)));
        }
    }
    proof {
        assert(m@.take(i as int) =~= m@);
    }
}

fn heading_parts_of(h: &HeadingSpec) -> (r: Vec<String>)
    ensures
        views(r@) == heading_parts(*h),
{
    let mut parts: Vec<String> = Vec::new();
    proof {
        reveal(views);
        assert(views(parts@) =~= Seq::<Seq<char>>::empty());
    }
    let style = h.style();
    proof {
        assert(style == crate::theme::heading_style(*h));
    }
    push_style_parts(&mut parts, &style);
    let ghost a = style_parts(style);
    assert(views(parts@) =~= a);
    push_decor_part(&mut parts, "border", &h.border);
    push_decor_part(&mut parts, "bar", &h.bar);
    parts
}

/// Writes `key = value` lines for the headings.
fn push_heading_lines(out: &mut String, m: &Vec<(String, HeadingSpec)>)
    ensures
        final(out)@ == old(out)@ + heading_lines(m@),
{
    let mut i: usize = 0;
    while i < m.len()
        invariant
            i <= m@.len(),
            out@ == old(out)@ + heading_lines(m@.take(i as int)),
        decreases m.len() - i,
    {
        proof {
            assert(m@.take(i + 1).drop_last() =~= m@.take(i as int));
        }
        push_str(out, m[i].0.as_str());
        push_str(out, " = ");
        let parts = heading_parts_of(&m[i].1);
        push_table(out, &parts);
        push_str(out, "\n");
        i = i + 1;
        proof {
            assert(out@ =~= old(out)@ + heading_lines(m@.take(i as int)));
        }
    }
    proof {
        assert(m@.take(i as int) =~= m@);
    }
}

fn push_section(out: &mut String, title: &str, m: &Vec<(String, StyleSpec)>)
    ensures
        final(out)@ == old(out)@ + section_text(title@, m@),
{
    push_str(out, "\n[");
    push_str(out, title);
    push_str(out, "]\n");
    push_style_lines(out, m);
    proof {
        assert(out@ =~= old(out)@ + section_text(title@, m@));
    }
}

fn push_color_line(out: &mut String, key: &str, c: &Option<String>)
    ensures
        final(out)@ == old(out)@ + color_line(key@, *c),
{
    match c {
        Some(s) => {
            push_str(out, key);
            push_str(out, " = ");
            push_quoted(out, s.as_str());
            push_str(out, "\n");
        },
        None => {
            push_str(out, "# ");
            push_str(out, key);
            push_str(out, " = \"#rrggbb\"   # unset: inherit\n");
        },
    }
    proof {
        assert(out@ =~= old(out)@ + color_line(key@, *c));
    }
}

/// A theme file written out as text.
pub fn render(f: &ThemeFile) -> (r: String)
    ensures
        r@ == file_text(*f),
{
    let mut out = String::new();
    match &f.name {
        Some(n) => {
            push_str(&mut out, "name = ");
            push_debug(&mut out, n.as_str());
            push_str(&mut out, "\n");
        },
        None => {},
    }
    push_color_line(&mut out, "foreground", &f.foreground);
    push_color_line(&mut out, "background", &f.background);
    let ghost before_code = out@;
    push_str(&mut out, "\n[code]\n");
    match &f.syntect_theme {
        Some(s) => {
            push_str(&mut out, "syntect_theme = ");
            push_debug(&mut out, s.as_str());
            push_str(&mut out, "\n");
        },
        None => {},
    }
    match &f.fence {
        Some(s) => {
            push_str(&mut out, "fence");
            push_str(&mut out, " = ");
            let mut parts: Vec<String> = Vec::new();
            proof {
                reveal(views);
            assert(views(parts@) =~= Seq::<Seq<char>>::empty());
            }
            push_style_parts(&mut parts, s);
            push_table(&mut out, &parts);
            push_str(&mut out, "\n");
            proof {
                assert(views(parts@) =~= style_parts(*s));
            }
        },
        None => {},
    }
    proof {
        assert(out@ =~= before_code + code_text(*f));
    }
    push_str(&mut out, "\n[heading]\n");
    push_heading_lines(&mut out, &f.heading);
    push_section(&mut out, "inline", &f.inline);
    push_section(&mut out, "block", &f.block);
    push_section(&mut out, "table", &f.table);
    push_section(&mut out, "alert", &f.alert);
    push_section(&mut out, "ui", &f.ui);
    proof {
        assert(out@ =~= file_text(*f));
    }
    out
}


/// `r` holds the text of color `c`, or nothing when there is no color.
pub open spec fn color_for(r: Option<String>, c: Option<Color>) -> bool {
    match c {
        Some(c) => r is Some && r->0@ == color_text(c),
        None => r is None,
    }
}

/// `r` writes out style `s`: its colors as text, its attributes as they are.
pub open spec fn spec_for(r: StyleSpec, s: Style) -> bool {
    &&& color_for(r.fg, s.fg)
    &&& color_for(r.bg, s.bg)
    &&& r.bold == s.bold
    &&& r.italic == s.italic
    &&& r.underline == s.underline
    &&& r.strikethrough == s.strikethrough
    &&& r.dim == s.dim
    &&& r.reverse == s.reverse
}

/// `r` writes out decoration `d`: `false` for none, `true` for one in the
/// heading's color, or its color.
pub open spec fn decor_for(r: Option<DecorSpec>, d: Option<Decoration>) -> bool {
    match d {
        None => r == Some(DecorSpec::On(false)),
        Some(Decoration { color: None }) => r == Some(DecorSpec::On(true)),
        Some(Decoration { color: Some(c) }) => r matches Some(DecorSpec::Color(x)) && x@ == color_text(c),
    }
}

/// `h` writes out a heading level: its style, rule and bar.
pub open spec fn heading_for(h: HeadingSpec, s: Style, border: Option<Decoration>, bar: Option<Decoration>) -> bool {
    &&& spec_for(crate::theme::heading_style(h), s)
    &&& decor_for(h.border, border)
    &&& decor_for(h.bar, bar)
}

/// `m` writes out `styles` under `keys`, one entry each, in order.
pub open spec fn entries_for(m: Seq<(String, StyleSpec)>, keys: Seq<Seq<char>>, styles: Seq<Style>) -> bool {
    &&& m.len() == keys.len()
    &&& styles.len() == keys.len()
    &&& forall|i: int| 0 <= i < m.len() ==> #[trigger] m[i].0@ == keys[i] && spec_for(m[i].1, styles[i])
}

/// The keys of the `[inline]` section.
pub open spec fn inline_keys() -> Seq<Seq<char>> {
    seq!["link"@, "code"@, "emph"@, "strong"@, "strikethrough"@, "footnote"@]
}

/// A theme's inline styles, in the order of [`inline_keys`].
pub open spec fn inline_of(t: Theme) -> Seq<Style> {
    seq![t.link, t.code, t.emph, t.strong, t.strikethrough, t.footnote]
}

/// The keys of the `[block]` section.
pub open spec fn block_keys() -> Seq<Seq<char>> {
    seq!["quote_bar"@, "quote"@, "rule"@, "list_marker"@, "task_done"@, "task_todo"@]
}

/// A theme's block styles, in the order of [`block_keys`].
pub open spec fn block_of(t: Theme) -> Seq<Style> {
    seq![t.quote_bar, t.quote, t.rule, t.list_marker, t.task_done, t.task_todo]
}

/// The keys of the `[table]` section.
pub open spec fn table_keys() -> Seq<Seq<char>> {
    seq!["border"@, "header"@]
}

/// A theme's table styles, in the order of [`table_keys`].
pub open spec fn table_of(t: Theme) -> Seq<Style> {
    seq![t.table_border, t.table_header]
}

/// The keys of the `[alert]` section.
pub open spec fn alert_keys() -> Seq<Seq<char>> {
    seq!["note"@, "tip"@, "important"@, "warning"@, "caution"@]
}

/// The keys of the `[ui]` section.
pub open spec fn ui_keys() -> Seq<Seq<char>> {
    seq!["status"@, "toast"@, "cursor"@, "search_match"@, "search_current"@, "hint"@, "dim"@]
}

/// A theme's interface styles, in the order of [`ui_keys`].
pub open spec fn ui_of(t: Theme) -> Seq<Style> {
    seq![t.status, t.toast, t.cursor, t.search_match, t.search_current, t.hint, t.dim]
}

/// `g` is a theme file that writes out every field of theme `t`.
pub open spec fn file_for(g: ThemeFile, t: Theme) -> bool {
    &&& g.name matches Some(n) && n@ == t.name@
    &&& color_for(g.foreground, t.foreground)
    &&& color_for(g.background, t.background)
    &&& g.syntect_theme matches Some(x) && x@ == t.syntect_theme@
    &&& g.fence matches Some(x) && spec_for(x, t.code_fence)
    &&& g.heading@.len() == 6
    &&& forall|i: int| 0 <= i < 6 ==> #[trigger] g.heading@[i].0@ == crate::theme::heading_key(i)
        && heading_for(g.heading@[i].1, t.headings@[i], t.heading_border@[i], t.heading_bar@[i])
    &&& entries_for(g.inline@, inline_keys(), inline_of(t))
    &&& entries_for(g.block@, block_keys(), block_of(t))
    &&& entries_for(g.table@, table_keys(), table_of(t))
    &&& entries_for(g.alert@, alert_keys(), t.alerts@)
    &&& entries_for(g.ui@, ui_keys(), ui_of(t))
}

fn color_words(c: Option<Color>) -> (r: Option<String>)
    ensures
        color_for(r, c),
{
    match c {
        Some(c) => Some(color_toml(c)),
        None => None,
    }
}

fn style_spec_of(s: Style) -> (r: StyleSpec)
    ensures
        spec_for(r, s),
{
    StyleSpec {
        fg: color_words(s.fg),
        bg: color_words(s.bg),
        bold: s.bold,
        italic: s.italic,
        underline: s.underline,
        strikethrough: s.strikethrough,
        dim: s.dim,
        reverse: s.reverse,
    }
}

fn decor_spec_of(d: Option<Decoration>) -> (r: Option<DecorSpec>)
    ensures
        decor_for(r, d),
{
    match d {
        None => Some(DecorSpec::On(false)),
        Some(Decoration { color: None }) => Some(DecorSpec::On(true)),
        Some(Decoration { color: Some(c) }) => Some(DecorSpec::Color(color_toml(c))),
    }
}

fn push_entry(m: &mut Vec<(String, StyleSpec)>, key: &str, s: Style)
    ensures
        final(m)@.len() == old(m)@.len() + 1,
        forall|i: int| 0 <= i < old(m)@.len() ==> #[trigger] final(m)@[i] == old(m)@[i],
        final(m)@.last().0@ == key@,
        spec_for(final(m)@.last().1, s),
{
    m.push((key.to_owned(), style_spec_of(s)));
}

fn heading_entry(key: &str, s: Style, border: Option<Decoration>, bar: Option<Decoration>) -> (r: (
    String,
    HeadingSpec,
))
    ensures
        r.0@ == key@,
        heading_for(r.1, s, border, bar),
{
    let spec = style_spec_of(s);
    let h = HeadingSpec {
        fg: spec.fg,
        bg: spec.bg,
        bold: spec.bold,
        italic: spec.italic,
        underline: spec.underline,
        strikethrough: spec.strikethrough,
        dim: spec.dim,
        reverse: spec.reverse,
        border: decor_spec_of(border),
        bar: decor_spec_of(bar),
    };
    (key.to_owned(), h)
}

fn heading_key_of(i: usize) -> (r: &'static str)
    requires
        i < 6,
    ensures
        r@ == crate::theme::heading_key(i as int),
{
    if i == 0 {
        "h1"
    } else if i == 1 {
        "h2"
    } else if i == 2 {
        "h3"
    } else if i == 3 {
        "h4"
    } else if i == 4 {
        "h5"
    } else {
        "h6"
    }
}

impl Theme {
    /// The theme as a theme file that sets every key, the ones left at
    /// their default too.
    pub fn to_file(&self) -> (r: ThemeFile)
        ensures
            file_for(r, *self),
    {
        let mut heading: Vec<(String, HeadingSpec)> = Vec::new();
        let mut i: usize = 0;
        while i < 6
            invariant
                i <= 6,
                heading@.len() == i,
                forall|k: int| 0 <= k < i ==> #[trigger] heading@[k].0@ == crate::theme::heading_key(k)
                    && heading_for(heading@[k].1, self.headings@[k], self.heading_border@[k], self.heading_bar@[k]),
            decreases 6 - i,
        {
            heading.push(heading_entry(heading_key_of(i), self.headings[i], self.heading_border[i], self.heading_bar[i]));
            i = i + 1;
        }
        let mut inline: Vec<(String, StyleSpec)> = Vec::new();
        push_entry(&mut inline, "link", self.link);
        push_entry(&mut inline, "code", self.code);
        push_entry(&mut inline, "emph", self.emph);
        push_entry(&mut inline, "strong", self.strong);
        push_entry(&mut inline, "strikethrough", self.strikethrough);
        push_entry(&mut inline, "footnote", self.footnote);
        let mut block: Vec<(String, StyleSpec)> = Vec::new();
        push_entry(&mut block, "quote_bar", self.quote_bar);
        push_entry(&mut block, "quote", self.quote);
        push_entry(&mut block, "rule", self.rule);
        push_entry(&mut block, "list_marker", self.list_marker);
        push_entry(&mut block, "task_done", self.task_done);
        push_entry(&mut block, "task_todo", self.task_todo);
        let mut table: Vec<(String, StyleSpec)> = Vec::new();
        push_entry(&mut table, "border", self.table_border);
        push_entry(&mut table, "header", self.table_header);
        let mut alert: Vec<(String, StyleSpec)> = Vec::new();
        push_entry(&mut alert, "note", self.alerts[0]);
        push_entry(&mut alert, "tip", self.alerts[1]);
        push_entry(&mut alert, "important", self.alerts[2]);
        push_entry(&mut alert, "warning", self.alerts[3]);
        push_entry(&mut alert, "caution", self.alerts[4]);
        let mut ui: Vec<(String, StyleSpec)> = Vec::new();
        push_entry(&mut ui, "status", self.status);
        push_entry(&mut ui, "toast", self.toast);
        push_entry(&mut ui, "cursor", self.cursor);
        push_entry(&mut ui, "search_match", self.search_match);
        push_entry(&mut ui, "search_current", self.search_current);
        push_entry(&mut ui, "hint", self.hint);
        push_entry(&mut ui, "dim", self.dim);
        let f = ThemeFile {
            name: Some(self.name.clone()),
            foreground: color_words(self.foreground),
            background: color_words(self.background),
            syntect_theme: Some(self.syntect_theme.clone()),
            fence: Some(style_spec_of(self.code_fence)),
            heading,
            inline,
            block,
            table,
            alert,
            ui,
        };
        proof {
            assert(entries_for(f.inline@, inline_keys(), inline_of(*self)));
            assert(entries_for(f.block@, block_keys(), block_of(*self)));
            assert(entries_for(f.table@, table_keys(), table_of(*self)));
            assert(entries_for(f.alert@, alert_keys(), self.alerts@));
            assert(entries_for(f.ui@, ui_keys(), ui_of(*self)));
        }
        f
    }
}

/// Writes a resolved theme out as a theme file that [`Theme::from_file`]
/// reads back as the same theme: the text of [`Theme::to_file`].
pub fn dump(theme: &Theme) -> (r: String)
    ensures
        exists|g: ThemeFile| #[trigger] file_for(g, *theme) && r@ == file_text(g),
{
    let f = theme.to_file();
    let r = render(&f);
    proof {
        assert(file_for(f, *theme) && r@ == file_text(f));
    }
    r
}


/// No key is written twice.
pub open spec fn distinct(keys: Seq<Seq<char>>) -> bool {
    forall|i: int, j: int| 0 <= i < j < keys.len() ==> #[trigger] keys[i] != #[trigger] keys[j]
}

proof fn lemma_keys_distinct()
    ensures
        distinct(inline_keys()),
        distinct(block_keys()),
        distinct(table_keys()),
        distinct(alert_keys()),
        distinct(ui_keys()),
        distinct(seq![
            crate::theme::heading_key(0),
            crate::theme::heading_key(1),
            crate::theme::heading_key(2),
            crate::theme::heading_key(3),
            crate::theme::heading_key(4),
            crate::theme::heading_key(5),
        ]),
{
    reveal_strlit("link");
    reveal_strlit("code");
    reveal_strlit("emph");
    reveal_strlit("strong");
    reveal_strlit("strikethrough");
    reveal_strlit("footnote");
    reveal_strlit("quote_bar");
    reveal_strlit("quote");
    reveal_strlit("rule");
    reveal_strlit("list_marker");
    reveal_strlit("task_done");
    reveal_strlit("task_todo");
    reveal_strlit("border");
    reveal_strlit("header");
    reveal_strlit("note");
    reveal_strlit("tip");
    reveal_strlit("important");
    reveal_strlit("warning");
    reveal_strlit("caution");
    reveal_strlit("status");
    reveal_strlit("toast");
    reveal_strlit("cursor");
    reveal_strlit("search_match");
    reveal_strlit("search_current");
    reveal_strlit("hint");
    reveal_strlit("dim");
    reveal_strlit("h1");
    reveal_strlit("h2");
    reveal_strlit("h3");
    reveal_strlit("h4");
    reveal_strlit("h5");
    reveal_strlit("h6");
    assert forall|i: int, j: int| 0 <= i < j < inline_keys().len() implies #[trigger] inline_keys()[i] != #[trigger] inline_keys()[j] by {
        if inline_keys()[i] == inline_keys()[j] {
            assert(inline_keys()[i][0] == inline_keys()[j][0]);
            assert(inline_keys()[i].len() == inline_keys()[j].len());
        }
    }
    assert forall|i: int, j: int| 0 <= i < j < block_keys().len() implies #[trigger] block_keys()[i] != #[trigger] block_keys()[j] by {
        if block_keys()[i] == block_keys()[j] {
            assert(block_keys()[i][0] == block_keys()[j][0]);
            assert(block_keys()[i].len() == block_keys()[j].len());
            assert(block_keys()[i][5] == block_keys()[j][5]);
        }
    }
    assert forall|i: int, j: int| 0 <= i < j < table_keys().len() implies #[trigger] table_keys()[i] != #[trigger] table_keys()[j] by {
        if table_keys()[i] == table_keys()[j] {
            assert(table_keys()[i][0] == table_keys()[j][0]);
        }
    }
    assert forall|i: int, j: int| 0 <= i < j < alert_keys().len() implies #[trigger] alert_keys()[i] != #[trigger] alert_keys()[j] by {
        if alert_keys()[i] == alert_keys()[j] {
            assert(alert_keys()[i][0] == alert_keys()[j][0]);
        }
    }
    assert forall|i: int, j: int| 0 <= i < j < ui_keys().len() implies #[trigger] ui_keys()[i] != #[trigger] ui_keys()[j] by {
        if ui_keys()[i] == ui_keys()[j] {
            assert(ui_keys()[i][0] == ui_keys()[j][0]);
            assert(ui_keys()[i].len() == ui_keys()[j].len());
        }
    }
    let hk = seq![
        crate::theme::heading_key(0),
        crate::theme::heading_key(1),
        crate::theme::heading_key(2),
        crate::theme::heading_key(3),
        crate::theme::heading_key(4),
        crate::theme::heading_key(5),
    ];
    assert forall|i: int, j: int| 0 <= i < j < hk.len() implies #[trigger] hk[i] != #[trigger] hk[j] by {
        if hk[i] == hk[j] {
            assert(hk[i][1] == hk[j][1]);
        }
    }
}

/// The first entry under `m[j]`'s key is `m[j]` itself, when no entry
/// before it has that key.
proof fn lemma_find_at<T>(m: Seq<(String, T)>, j: int)
    requires
        0 <= j < m.len(),
        forall|i: int| 0 <= i < j ==> #[trigger] m[i].0@ != m[j].0@,
    ensures
        crate::theme::find_spec(m, m[j].0@) == Some(m[j].1),
    decreases j,
{
    if j > 0 {
        let rest = m.drop_first();
        assert forall|i: int| 0 <= i < j - 1 implies #[trigger] rest[i].0@ != rest[j - 1].0@ by {
            assert(rest[i] == m[i + 1]);
        }
        lemma_find_at(rest, j - 1);
        assert(m[0].0@ != m[j].0@);
    }
}

proof fn lemma_entry_found(m: Seq<(String, StyleSpec)>, keys: Seq<Seq<char>>, styles: Seq<Style>, j: int)
    requires
        entries_for(m, keys, styles),
        distinct(keys),
        0 <= j < keys.len(),
    ensures
        crate::theme::find_spec(m, keys[j]) == Some(m[j].1),
        spec_for(m[j].1, styles[j]),
{
    assert(m[j].0@ == keys[j]);
    assert forall|i: int| 0 <= i < j implies #[trigger] m[i].0@ != m[j].0@ by {
        assert(m[i].0@ == keys[i]);
    }
    lemma_find_at(m, j);
}

/// A spec written from a style resolves to that style.
proof fn lemma_spec_resolves(r: StyleSpec, s: Style)
    requires
        spec_for(r, s),
    ensures
        crate::theme::resolved(r) == Ok::<Style, crate::theme::ColorErr>(s),
{
    if let Some(c) = s.fg {
        crate::theme::lemma_color_round_trip(c);
    }
    if let Some(c) = s.bg {
        crate::theme::lemma_color_round_trip(c);
    }
}

/// Laying the written-out result over the same fallback again changes
/// nothing.
proof fn lemma_patch_again(fallback: Style, x: Option<StyleSpec>, r: StyleSpec)
    requires
        spec_for(r, crate::theme::patch_with(fallback, x)),
    ensures
        crate::theme::style_err(Some(r)) is None,
        crate::theme::patch_with(fallback, Some(r)) == crate::theme::patch_with(fallback, x),
{
    lemma_spec_resolves(r, crate::theme::patch_with(fallback, x));
    match x {
        Some(sp) => match crate::theme::resolved(sp) {
            Ok(st) => crate::ir::lemma_patch_laws(fallback, fallback, st),
            Err(_) => crate::ir::lemma_patch_laws(fallback, fallback, fallback),
        },
        None => crate::ir::lemma_patch_laws(fallback, fallback, fallback),
    }
}

/// A decoration written out reads back as itself, whatever it is laid over.
proof fn lemma_decor_again(r: Option<DecorSpec>, d: Option<Decoration>, current: Option<Decoration>)
    requires
        decor_for(r, d),
    ensures
        crate::theme::decorated(r, current) == Ok::<Option<Decoration>, crate::theme::ColorErr>(d),
{
    if let Some(Decoration { color: Some(c) }) = d {
        crate::theme::lemma_color_round_trip(c);
    }
}


proof fn lemma_inline_again(f: ThemeFile, t: Theme, g: ThemeFile)
    requires
        entries_for(g.inline@, inline_keys(), inline_of(t)),
        t.link == crate::theme::patch_with(crate::theme::attrs(false, false, true, false, false, false), crate::theme::find_spec(f.inline@, "link"@)),
        t.code == crate::theme::patch_with(crate::theme::attrs(false, false, false, false, false, false), crate::theme::find_spec(f.inline@, "code"@)),
        t.emph == crate::theme::patch_with(crate::theme::attrs(false, true, false, false, false, false), crate::theme::find_spec(f.inline@, "emph"@)),
        t.strong == crate::theme::patch_with(crate::theme::attrs(true, false, false, false, false, false), crate::theme::find_spec(f.inline@, "strong"@)),
        t.strikethrough == crate::theme::patch_with(crate::theme::attrs(false, false, false, true, false, false), crate::theme::find_spec(f.inline@, "strikethrough"@)),
        t.footnote == crate::theme::patch_with(crate::theme::attrs(false, false, false, false, false, false), crate::theme::find_spec(f.inline@, "footnote"@)),
    ensures
        crate::theme::inline_err(g) is None,
        t.link == crate::theme::patch_with(crate::theme::attrs(false, false, true, false, false, false), crate::theme::find_spec(g.inline@, "link"@)),
        t.code == crate::theme::patch_with(crate::theme::attrs(false, false, false, false, false, false), crate::theme::find_spec(g.inline@, "code"@)),
        t.emph == crate::theme::patch_with(crate::theme::attrs(false, true, false, false, false, false), crate::theme::find_spec(g.inline@, "emph"@)),
        t.strong == crate::theme::patch_with(crate::theme::attrs(true, false, false, false, false, false), crate::theme::find_spec(g.inline@, "strong"@)),
        t.strikethrough == crate::theme::patch_with(crate::theme::attrs(false, false, false, true, false, false), crate::theme::find_spec(g.inline@, "strikethrough"@)),
        t.footnote == crate::theme::patch_with(crate::theme::attrs(false, false, false, false, false, false), crate::theme::find_spec(g.inline@, "footnote"@)),
{
    lemma_keys_distinct();
    lemma_entry_found(g.inline@, inline_keys(), inline_of(t), 0);
    lemma_patch_again(crate::theme::attrs(false, false, true, false, false, false), crate::theme::find_spec(f.inline@, "link"@), g.inline@[0].1);
    lemma_entry_found(g.inline@, inline_keys(), inline_of(t), 1);
    lemma_patch_again(crate::theme::attrs(false, false, false, false, false, false), crate::theme::find_spec(f.inline@, "code"@), g.inline@[1].1);
    lemma_entry_found(g.inline@, inline_keys(), inline_of(t), 2);
    lemma_patch_again(crate::theme::attrs(false, true, false, false, false, false), crate::theme::find_spec(f.inline@, "emph"@), g.inline@[2].1);
    lemma_entry_found(g.inline@, inline_keys(), inline_of(t), 3);
    lemma_patch_again(crate::theme::attrs(true, false, false, false, false, false), crate::theme::find_spec(f.inline@, "strong"@), g.inline@[3].1);
    lemma_entry_found(g.inline@, inline_keys(), inline_of(t), 4);
    lemma_patch_again(crate::theme::attrs(false, false, false, true, false, false), crate::theme::find_spec(f.inline@, "strikethrough"@), g.inline@[4].1);
    lemma_entry_found(g.inline@, inline_keys(), inline_of(t), 5);
    lemma_patch_again(crate::theme::attrs(false, false, false, false, false, false), crate::theme::find_spec(f.inline@, "footnote"@), g.inline@[5].1);
}

proof fn lemma_block_again(f: ThemeFile, t: Theme, g: ThemeFile)
    requires
        entries_for(g.block@, block_keys(), block_of(t)),
        t.quote_bar == crate::theme::patch_with(crate::theme::attrs(false, false, false, false, false, false), crate::theme::find_spec(f.block@, "quote_bar"@)),
        t.quote == crate::theme::patch_with(crate::theme::attrs(false, true, false, false, false, false), crate::theme::find_spec(f.block@, "quote"@)),
        t.rule == crate::theme::patch_with(crate::theme::attrs(false, false, false, false, false, false), crate::theme::find_spec(f.block@, "rule"@)),
        t.list_marker == crate::theme::patch_with(crate::theme::attrs(false, false, false, false, false, false), crate::theme::find_spec(f.block@, "list_marker"@)),
        t.task_done == crate::theme::patch_with(crate::theme::attrs(false, false, false, false, false, false), crate::theme::find_spec(f.block@, "task_done"@)),
        t.task_todo == crate::theme::patch_with(crate::theme::attrs(false, false, false, false, false, false), crate::theme::find_spec(f.block@, "task_todo"@)),
    ensures
        crate::theme::block_err(g) is None,
        t.quote_bar == crate::theme::patch_with(crate::theme::attrs(false, false, false, false, false, false), crate::theme::find_spec(g.block@, "quote_bar"@)),
        t.quote == crate::theme::patch_with(crate::theme::attrs(false, true, false, false, false, false), crate::theme::find_spec(g.block@, "quote"@)),
        t.rule == crate::theme::patch_with(crate::theme::attrs(false, false, false, false, false, false), crate::theme::find_spec(g.block@, "rule"@)),
        t.list_marker == crate::theme::patch_with(crate::theme::attrs(false, false, false, false, false, false), crate::theme::find_spec(g.block@, "list_marker"@)),
        t.task_done == crate::theme::patch_with(crate::theme::attrs(false, false, false, false, false, false), crate::theme::find_spec(g.block@, "task_done"@)),
        t.task_todo == crate::theme::patch_with(crate::theme::attrs(false, false, false, false, false, false), crate::theme::find_spec(g.block@, "task_todo"@)),
{
    lemma_keys_distinct();
    lemma_entry_found(g.block@, block_keys(), block_of(t), 0);
    lemma_patch_again(crate::theme::attrs(false, false, false, false, false, false), crate::theme::find_spec(f.block@, "quote_bar"@), g.block@[0].1);
    lemma_entry_found(g.block@, block_keys(), block_of(t), 1);
    lemma_patch_again(crate::theme::attrs(false, true, false, false, false, false), crate::theme::find_spec(f.block@, "quote"@), g.block@[1].1);
    lemma_entry_found(g.block@, block_keys(), block_of(t), 2);
    lemma_patch_again(crate::theme::attrs(false, false, false, false, false, false), crate::theme::find_spec(f.block@, "rule"@), g.block@[2].1);
    lemma_entry_found(g.block@, block_keys(), block_of(t), 3);
    lemma_patch_again(crate::theme::attrs(false, false, false, false, false, false), crate::theme::find_spec(f.block@, "list_marker"@), g.block@[3].1);
    lemma_entry_found(g.block@, block_keys(), block_of(t), 4);
    lemma_patch_again(crate::theme::attrs(false, false, false, false, false, false), crate::theme::find_spec(f.block@, "task_done"@), g.block@[4].1);
    lemma_entry_found(g.block@, block_keys(), block_of(t), 5);
    lemma_patch_again(crate::theme::attrs(false, false, false, false, false, false), crate::theme::find_spec(f.block@, "task_todo"@), g.block@[5].1);
}

proof fn lemma_table_again(f: ThemeFile, t: Theme, g: ThemeFile)
    requires
        entries_for(g.table@, table_keys(), table_of(t)),
        t.table_border == crate::theme::patch_with(crate::theme::attrs(false, false, false, false, false, false), crate::theme::find_spec(f.table@, "border"@)),
        t.table_header == crate::theme::patch_with(crate::theme::attrs(true, false, false, false, false, false), crate::theme::find_spec(f.table@, "header"@)),
    ensures
        crate::theme::table_err(g) is None,
        t.table_border == crate::theme::patch_with(crate::theme::attrs(false, false, false, false, false, false), crate::theme::find_spec(g.table@, "border"@)),
        t.table_header == crate::theme::patch_with(crate::theme::attrs(true, false, false, false, false, false), crate::theme::find_spec(g.table@, "header"@)),
{
    lemma_keys_distinct();
    lemma_entry_found(g.table@, table_keys(), table_of(t), 0);
    lemma_patch_again(crate::theme::attrs(false, false, false, false, false, false), crate::theme::find_spec(f.table@, "border"@), g.table@[0].1);
    lemma_entry_found(g.table@, table_keys(), table_of(t), 1);
    lemma_patch_again(crate::theme::attrs(true, false, false, false, false, false), crate::theme::find_spec(f.table@, "header"@), g.table@[1].1);
}

proof fn lemma_ui_again(f: ThemeFile, t: Theme, g: ThemeFile)
    requires
        entries_for(g.ui@, ui_keys(), ui_of(t)),
        t.status == crate::theme::patch_with(crate::theme::attrs(false, false, false, false, false, true), crate::theme::find_spec(f.ui@, "status"@)),
        t.toast == crate::theme::patch_with(crate::theme::attrs(false, false, false, false, false, true), crate::theme::find_spec(f.ui@, "toast"@)),
        t.cursor == crate::theme::patch_with(crate::theme::attrs(false, false, false, false, false, true), crate::theme::find_spec(f.ui@, "cursor"@)),
        t.search_match == crate::theme::patch_with(crate::theme::attrs(false, false, false, false, false, true), crate::theme::find_spec(f.ui@, "search_match"@)),
        t.search_current == crate::theme::patch_with(crate::theme::attrs(true, false, false, false, false, true), crate::theme::find_spec(f.ui@, "search_current"@)),
        t.hint == crate::theme::patch_with(crate::theme::attrs(true, false, false, false, false, true), crate::theme::find_spec(f.ui@, "hint"@)),
        t.dim == crate::theme::patch_with(crate::theme::attrs(false, false, false, false, true, false), crate::theme::find_spec(f.ui@, "dim"@)),
    ensures
        crate::theme::ui_err(g) is None,
        t.status == crate::theme::patch_with(crate::theme::attrs(false, false, false, false, false, true), crate::theme::find_spec(g.ui@, "status"@)),
        t.toast == crate::theme::patch_with(crate::theme::attrs(false, false, false, false, false, true), crate::theme::find_spec(g.ui@, "toast"@)),
        t.cursor == crate::theme::patch_with(crate::theme::attrs(false, false, false, false, false, true), crate::theme::find_spec(g.ui@, "cursor"@)),
        t.search_match == crate::theme::patch_with(crate::theme::attrs(false, false, false, false, false, true), crate::theme::find_spec(g.ui@, "search_match"@)),
        t.search_current == crate::theme::patch_with(crate::theme::attrs(true, false, false, false, false, true), crate::theme::find_spec(g.ui@, "search_current"@)),
        t.hint == crate::theme::patch_with(crate::theme::attrs(true, false, false, false, false, true), crate::theme::find_spec(g.ui@, "hint"@)),
        t.dim == crate::theme::patch_with(crate::theme::attrs(false, false, false, false, true, false), crate::theme::find_spec(g.ui@, "dim"@)),
{
    lemma_keys_distinct();
    lemma_entry_found(g.ui@, ui_keys(), ui_of(t), 0);
    lemma_patch_again(crate::theme::attrs(false, false, false, false, false, true), crate::theme::find_spec(f.ui@, "status"@), g.ui@[0].1);
    lemma_entry_found(g.ui@, ui_keys(), ui_of(t), 1);
    lemma_patch_again(crate::theme::attrs(false, false, false, false, false, true), crate::theme::find_spec(f.ui@, "toast"@), g.ui@[1].1);
    lemma_entry_found(g.ui@, ui_keys(), ui_of(t), 2);
    lemma_patch_again(crate::theme::attrs(false, false, false, false, false, true), crate::theme::find_spec(f.ui@, "cursor"@), g.ui@[2].1);
    lemma_entry_found(g.ui@, ui_keys(), ui_of(t), 3);
    lemma_patch_again(crate::theme::attrs(false, false, false, false, false, true), crate::theme::find_spec(f.ui@, "search_match"@), g.ui@[3].1);
    lemma_entry_found(g.ui@, ui_keys(), ui_of(t), 4);
    lemma_patch_again(crate::theme::attrs(true, false, false, false, false, true), crate::theme::find_spec(f.ui@, "search_current"@), g.ui@[4].1);
    lemma_entry_found(g.ui@, ui_keys(), ui_of(t), 5);
    lemma_patch_again(crate::theme::attrs(true, false, false, false, false, true), crate::theme::find_spec(f.ui@, "hint"@), g.ui@[5].1);
    lemma_entry_found(g.ui@, ui_keys(), ui_of(t), 6);
    lemma_patch_again(crate::theme::attrs(false, false, false, false, true, false), crate::theme::find_spec(f.ui@, "dim"@), g.ui@[6].1);
}

proof fn lemma_alerts_again(f: ThemeFile, t: Theme, g: ThemeFile)
    requires
        entries_for(g.alert@, alert_keys(), t.alerts@),
        forall|i: int| 0 <= i < 5 ==> #[trigger] t.alerts@[i] == crate::theme::patch_with(crate::theme::attrs(true, false, false, false, false, false), crate::theme::find_spec(f.alert@, crate::theme::alert_key(i))),
    ensures
        crate::theme::alerts_err(g, 0) is None,
        forall|i: int| 0 <= i < 5 ==> #[trigger] t.alerts@[i] == crate::theme::patch_with(crate::theme::attrs(true, false, false, false, false, false), crate::theme::find_spec(g.alert@, crate::theme::alert_key(i))),
{
    lemma_keys_distinct();
    reveal_with_fuel(crate::theme::alerts_err, 6);
    assert forall|i: int| #![trigger crate::theme::alert_key(i)] #![trigger t.alerts@[i]] 0 <= i < 5 implies crate::theme::style_err(crate::theme::find_spec(g.alert@, crate::theme::alert_key(i))) is None
        && t.alerts@[i] == crate::theme::patch_with(crate::theme::attrs(true, false, false, false, false, false), crate::theme::find_spec(g.alert@, crate::theme::alert_key(i))) by {
        assert(alert_keys()[i] == crate::theme::alert_key(i));
        lemma_entry_found(g.alert@, alert_keys(), t.alerts@, i);
        lemma_patch_again(crate::theme::attrs(true, false, false, false, false, false), crate::theme::find_spec(f.alert@, crate::theme::alert_key(i)), g.alert@[i].1);
    }
    assert(crate::theme::style_err(crate::theme::find_spec(g.alert@, crate::theme::alert_key(0))) is None);
    assert(crate::theme::style_err(crate::theme::find_spec(g.alert@, crate::theme::alert_key(1))) is None);
    assert(crate::theme::style_err(crate::theme::find_spec(g.alert@, crate::theme::alert_key(2))) is None);
    assert(crate::theme::style_err(crate::theme::find_spec(g.alert@, crate::theme::alert_key(3))) is None);
    assert(crate::theme::style_err(crate::theme::find_spec(g.alert@, crate::theme::alert_key(4))) is None);
}

proof fn lemma_heading_len(f: ThemeFile, n: nat)
    ensures
        crate::theme::heading_styles(f, n).len() == n,
    decreases n,
{
    if n > 0 {
        lemma_heading_len(f, (n - 1) as nat);
    }
}

/// A level's style does not change as deeper levels are added.
proof fn lemma_heading_prefix(f: ThemeFile, k: nat, n: nat)
    requires
        k < n,
    ensures
        crate::theme::heading_styles(f, n)[k as int] == crate::theme::heading_styles(f, k + 1)[k as int],
    decreases n,
{
    if n > k + 1 {
        lemma_heading_len(f, (n - 1) as nat);
        lemma_heading_prefix(f, k, (n - 1) as nat);
    }
}

proof fn lemma_heading_found(g: ThemeFile, t: Theme, i: int)
    requires
        file_for(g, t),
        0 <= i < 6,
    ensures
        crate::theme::heading_spec(g, i) == Some(g.heading@[i].1),
{
    lemma_keys_distinct();
    let hk = seq![
        crate::theme::heading_key(0),
        crate::theme::heading_key(1),
        crate::theme::heading_key(2),
        crate::theme::heading_key(3),
        crate::theme::heading_key(4),
        crate::theme::heading_key(5),
    ];
    assert(g.heading@[i].0@ == hk[i]);
    assert forall|k: int| 0 <= k < i implies #[trigger] g.heading@[k].0@ != g.heading@[i].0@ by {
        assert(g.heading@[k].0@ == hk[k]);
    }
    lemma_find_at(g.heading@, i);
}

proof fn lemma_headings_again(f: ThemeFile, t: Theme, g: ThemeFile, n: nat)
    requires
        file_for(g, t),
        t.headings@ == crate::theme::heading_styles(f, 6),
        n <= 6,
    ensures
        crate::theme::heading_styles(g, n) == crate::theme::heading_styles(f, n),
    decreases n,
{
    if n > 0 {
        lemma_headings_again(f, t, g, (n - 1) as nat);
        lemma_heading_len(f, n);
        lemma_heading_len(f, (n - 1) as nat);
        lemma_heading_prefix(f, (n - 1) as nat, 6);
        lemma_heading_found(g, t, n - 1);
        let prev = crate::theme::heading_styles(f, (n - 1) as nat);
        let fallback = if n == 1 {
            crate::theme::attrs(true, false, false, false, false, false)
        } else {
            prev.last()
        };
        let h = g.heading@[n - 1].1;
        assert(g.heading@[n - 1].0@ == crate::theme::heading_key(n - 1));
        assert(t.headings@[n - 1] == crate::theme::heading_styles(f, n)[n - 1]);
        assert(crate::theme::heading_styles(f, n)[n - 1] == crate::theme::patch_with(fallback, crate::theme::heading_style_spec(f, n - 1)));
        lemma_patch_again(fallback, crate::theme::heading_style_spec(f, n - 1), crate::theme::heading_style(h));
        assert(crate::theme::heading_styles(g, n) =~= crate::theme::heading_styles(f, n));
    }
}

/// Each heading level of `g` parses, and its rule and bar read back as
/// `t`'s.
proof fn lemma_heading_levels_again(f: ThemeFile, t: Theme, g: ThemeFile)
    requires
        file_for(g, t),
        t.headings@ == crate::theme::heading_styles(f, 6),
    ensures
        crate::theme::headings_err(g, 0) is None,
        t.headings@ == crate::theme::heading_styles(g, 6),
        forall|i: int| 0 <= i < 6 ==> #[trigger] t.heading_border@[i] == crate::theme::decor_with(Theme::default_borders()[i], crate::theme::border_spec(g, i)),
        forall|i: int| 0 <= i < 6 ==> #[trigger] t.heading_bar@[i] == crate::theme::decor_with(None, crate::theme::bar_spec(g, i)),
{
    lemma_headings_again(f, t, g, 6);
    assert forall|i: int| #![trigger crate::theme::heading_spec(g, i)] 0 <= i < 6 implies crate::theme::heading_err(crate::theme::heading_spec(g, i)) is None
        && t.heading_border@[i] == crate::theme::decor_with(Theme::default_borders()[i], crate::theme::border_spec(g, i))
        && t.heading_bar@[i] == crate::theme::decor_with(None, crate::theme::bar_spec(g, i)) by {
        lemma_heading_found(g, t, i);
        let h = g.heading@[i].1;
        assert(g.heading@[i].0@ == crate::theme::heading_key(i));
        lemma_spec_resolves(crate::theme::heading_style(h), t.headings@[i]);
        lemma_decor_again(h.border, t.heading_border@[i], None);
        lemma_decor_again(h.border, t.heading_border@[i], Theme::default_borders()[i]);
        lemma_decor_again(h.bar, t.heading_bar@[i], None);
    }
    reveal_with_fuel(crate::theme::headings_err, 7);
    assert(crate::theme::heading_err(crate::theme::heading_spec(g, 0)) is None);
    assert(crate::theme::heading_err(crate::theme::heading_spec(g, 1)) is None);
    assert(crate::theme::heading_err(crate::theme::heading_spec(g, 2)) is None);
    assert(crate::theme::heading_err(crate::theme::heading_spec(g, 3)) is None);
    assert(crate::theme::heading_err(crate::theme::heading_spec(g, 4)) is None);
    assert(crate::theme::heading_err(crate::theme::heading_spec(g, 5)) is None);
    assert forall|i: int| 0 <= i < 6 implies #[trigger] t.heading_border@[i] == crate::theme::decor_with(Theme::default_borders()[i], crate::theme::border_spec(g, i)) by {
        assert(crate::theme::heading_err(crate::theme::heading_spec(g, i)) is None);
    }
    assert forall|i: int| 0 <= i < 6 implies #[trigger] t.heading_bar@[i] == crate::theme::decor_with(None, crate::theme::bar_spec(g, i)) by {
        assert(crate::theme::heading_err(crate::theme::heading_spec(g, i)) is None);
    }
}

/// A theme written out by [`Theme::to_file`] reads back as itself: for a
/// theme `t` that some theme file `f` describes, any file `g` that writes
/// out `t` parses without error and describes `t` again. (What [`dump`]
/// writes is such a `g` as text.)
pub proof fn lemma_dump_round_trip(f: ThemeFile, t: Theme, g: ThemeFile)
    requires
        crate::theme::theme_errors(f) is None,
        crate::theme::theme_fields_ok(f, t),
        file_for(g, t),
    ensures
        crate::theme::theme_errors(g) is None,
        crate::theme::theme_fields_ok(g, t),
{
    lemma_heading_levels_again(f, t, g);
    lemma_inline_again(f, t, g);
    lemma_block_again(f, t, g);
    lemma_table_again(f, t, g);
    lemma_ui_again(f, t, g);
    lemma_alerts_again(f, t, g);
    if let Some(c) = t.foreground {
        crate::theme::lemma_color_round_trip(c);
    }
    if let Some(c) = t.background {
        crate::theme::lemma_color_round_trip(c);
    }
    lemma_patch_again(crate::theme::attrs(false, false, false, false, true, false), f.fence, g.fence->0);
}
} // verus!
