//! Syntax highlighting for fenced code blocks.
//!
//! syntect colours the code; only the foreground of each run is taken, since
//! a syntax theme's background would fight a terminal theme that paints
//! none. Runs of one colour are merged, and the text keeps its line feeds so
//! layout can split it into rows.

use vstd::prelude::*;
use crate::ir::{Color, Span, Style, spans_v};
use crate::text::push_str;
use crate::wrap::SpanV;
use syntect::easy::HighlightLines;
use syntect::highlighting::ThemeSet;
use syntect::parsing::SyntaxSet;
use syntect::util::LinesWithEndings;

verus! {

/// The syntax syntect's bundled set finds for a language token
/// (`SyntaxSet::find_syntax_by_token`), by its name.
pub uninterp spec fn syntect_by_token(token: Seq<char>) -> Option<Seq<char>>;

/// The syntax syntect's bundled set finds for a file extension
/// (`SyntaxSet::find_syntax_by_extension`), by its name.
pub uninterp spec fn syntect_by_extension(ext: Seq<char>) -> Option<Seq<char>>;

/// The syntax syntect's bundled set has under a name
/// (`SyntaxSet::find_syntax_by_name`), by its name.
pub uninterp spec fn syntect_by_name(name: Seq<char>) -> Option<Seq<char>>;

/// The coloured runs syntect gives `code` highlighted line by line
/// (`HighlightLines::highlight_line`) with the bundled syntax named `syntax`
/// under the bundled theme named `theme`: each run's text and its
/// foreground's red, green and blue. `None` when the syntax or the theme is
/// not bundled, or a line cannot be highlighted.
pub uninterp spec fn syntect_runs(code: Seq<char>, syntax: Seq<char>, theme: Seq<char>) -> Option<Seq<(Seq<char>, u8, u8, u8)>>;

/// The runs as character sequences.
pub open spec fn runs_v(r: Seq<(String, u8, u8, u8)>) -> Seq<(Seq<char>, u8, u8, u8)> {
    r.map_values(|x: (String, u8, u8, u8)| (x.0@, x.1, x.2, x.3))
}

/// An optional string as an optional character sequence.
pub open spec fn opt_v(o: Option<String>) -> Option<Seq<char>> {
    match o {
        Some(s) => Some(s@),
        None => None,
    }
}

/// `SyntaxSet::find_syntax_by_token` on the bundled syntaxes. Trusted: the
/// result is `syntect_by_token` of the token.
#[verifier::external_body]
fn find_by_token(token: &str) -> (r: Option<String>)
    ensures
        opt_v(r) == syntect_by_token(token@),
{
    SyntaxSet::load_defaults_newlines().find_syntax_by_token(token).map(|s| s.name.clone())
}

/// `SyntaxSet::find_syntax_by_extension` on the bundled syntaxes. Trusted:
/// the result is `syntect_by_extension` of the extension.
#[verifier::external_body]
fn find_by_extension(ext: &str) -> (r: Option<String>)
    ensures
        opt_v(r) == syntect_by_extension(ext@),
{
    SyntaxSet::load_defaults_newlines().find_syntax_by_extension(ext).map(|s| s.name.clone())
}

/// `SyntaxSet::find_syntax_by_name` on the bundled syntaxes. Trusted: the
/// result is `syntect_by_name` of the name.
#[verifier::external_body]
fn find_by_name(name: &str) -> (r: Option<String>)
    ensures
        opt_v(r) == syntect_by_name(name@),
{
    SyntaxSet::load_defaults_newlines().find_syntax_by_name(name).map(|s| s.name.clone())
}

/// `HighlightLines::highlight_line` over the lines of `code`, with the
/// bundled syntax and theme of those names. The highlighter carries its
/// parser state from one line to the next, so a line's runs are not a
/// function of that line alone: the whole walk is the one call trusted
/// here, and its result is `syntect_runs` of the arguments.
#[verifier::external_body]
fn runs_of(code: &str, syntax: &str, theme: &str) -> (r: Option<Vec<(String, u8, u8, u8)>>)
    ensures
        r matches Some(v) ==> syntect_runs(code@, syntax@, theme@) == Some(runs_v(v@)),
        r is None ==> syntect_runs(code@, syntax@, theme@) is None,
{
    let ss = SyntaxSet::load_defaults_newlines();
    let ts = ThemeSet::load_defaults();
    let mut h = HighlightLines::new(ss.find_syntax_by_name(syntax)?, ts.themes.get(theme)?);
    let mut out = Vec::new();
    for line in LinesWithEndings::from(code) {
        for (st, text) in h.highlight_line(line, &ss).ok()? {
            out.push((text.to_string(), st.foreground.r, st.foreground.g, st.foreground.b));
        }
    }
    Some(out)
}

/// The syntax a language names: looked up as a token, then as a file
/// extension, then as a syntax's name, each tried when the one before found
/// nothing.
pub open spec fn syntax_for(lang: Seq<char>) -> Option<Seq<char>> {
    match syntect_by_token(lang) {
        Some(n) => Some(n),
        None => match syntect_by_extension(lang) {
            Some(n) => Some(n),
            None => syntect_by_name(lang),
        },
    }
}

/// [`syntax_for`], asked of syntect one lookup at a time.
fn find_syntax(lang: &str) -> (r: Option<String>)
    ensures
        opt_v(r) == syntax_for(lang@),
{
    match find_by_token(lang) {
        Some(n) => Some(n),
        None => match find_by_extension(lang) {
            Some(n) => Some(n),
            None => find_by_name(lang),
        },
    }
}

/// The names of syntect's bundled syntax themes, as `ThemeSet::load_defaults`
/// documents them, in the order of the map that holds them.
pub open spec fn syntect_themes() -> Seq<Seq<char>> {
    seq![
        "InspiredGitHub"@,
        "Solarized (dark)"@,
        "Solarized (light)"@,
        "base16-eighties.dark"@,
        "base16-mocha.dark"@,
        "base16-ocean.dark"@,
        "base16-ocean.light"@,
    ]
}

/// The names of syntect's bundled syntax themes (`ThemeSet::load_defaults`),
/// the keys of its map in order. Trusted: they are the seven its
/// documentation lists.
#[verifier::external_body]
fn bundled_themes() -> (r: Vec<String>)
    ensures
        r@.map_values(|s: String| s@) == syntect_themes(),
{
    ThemeSet::load_defaults().themes.keys().cloned().collect()
}

/// The syntax themes a theme file may name.
pub fn theme_names() -> (r: Vec<String>)
    ensures
        r@.map_values(|s: String| s@) == syntect_themes(),
{
    bundled_themes()
}

/// The syntax theme used when the one a theme names is not bundled.
pub open spec fn fallback_theme() -> Seq<char> {
    "base16-ocean.dark"@
}

/// Runs merged with the one before when they end up in the same style,
/// empty runs dropped, each in `base` with the run's colour as foreground.
pub open spec fn colored(r: Seq<(Seq<char>, u8, u8, u8)>, base: Style) -> Seq<SpanV>
    decreases r.len(),
{
    if r.len() == 0 {
        Seq::empty()
    } else {
        let p = colored(r.drop_last(), base);
        let x = r.last();
        let st = Style { fg: Some(Color::Rgb { r: x.1, g: x.2, b: x.3 }), ..base };
        if x.0.len() == 0 {
            p
        } else if p.len() > 0 && p.last().1 == st {
            p.drop_last().push((p.last().0 + x.0, st, None))
        } else {
            p.push((x.0, st, None))
        }
    }
}

/// Whether `name` is one of the bundled syntax themes.
pub open spec fn bundled(name: Seq<char>) -> bool {
    syntect_themes().contains(name)
}

/// Highlights `code` as language `lang` (in any case) under the syntax theme
/// `theme_name`, falling back to a bundled theme when that one is not
/// bundled. The spans keep the code's text and its line feeds; each is
/// `base` with a foreground colour. `None` for no language, or one syntect
/// does not know, in which case the code is shown unstyled rather than
/// guessed at.
pub fn highlight(code: &str, lang: &str, theme_name: &str, base: Style) -> (r: Option<Vec<Span>>)
    ensures
        lang@.len() == 0 ==> r is None,
        r matches Some(v) ==> forall|q: int| 0 <= q < v@.len() ==> (#[trigger] v@[q]).link is None,
        lang@.len() > 0 ==> ({
            let theme = if bundled(theme_name@) { theme_name@ } else { fallback_theme() };
            match syntax_for(crate::text::lower_seq(lang@)) {
                None => r is None,
                Some(syn) => match syntect_runs(code@, syn, theme) {
                    None => r is None,
                    Some(runs) => r matches Some(v) && spans_v(v@) == colored(runs, base),
                },
            }
        }),
{
    if lang.is_empty() {
        return None;
    }
    let lv = crate::text::chars_of(lang);
    let lower = crate::text::lower_string(&lv, 0, lv.len());
    proof {
        assert(lv@.subrange(0, lv@.len() as int) =~= lv@);
    }
    let names = bundled_themes();
    let mut known = false;
    let mut i: usize = 0;
    while i < names.len()
        invariant
            i <= names@.len(),
            known == exists|k: int| 0 <= k < i && (#[trigger] names@[k])@ == theme_name@,
        decreases names.len() - i,
    {
        if crate::text::str_eq(names[i].as_str(), theme_name) {
            known = true;
        }
        i = i + 1;
    }
    proof {
        let m = names@.map_values(|s: String| s@);
        if known {
            let k = choose|k: int| 0 <= k < names@.len() && (#[trigger] names@[k])@ == theme_name@;
            assert(m[k] == theme_name@);
        } else {
            assert forall|k: int| 0 <= k < m.len() implies m[k] != theme_name@ by {
                assert(m[k] == names@[k]@);
            }
        }
    }
    let syntax = match find_syntax(lower.as_str()) {
        Some(n) => n,
        None => return None,
    };
    let runs = if known { runs_of(code, syntax.as_str(), theme_name) } else { runs_of(code, syntax.as_str(), "base16-ocean.dark") };
    let runs = match runs {
        Some(v) => v,
        None => return None,
    };
    let ghost rv = runs_v(runs@);
    let mut out: Vec<Span> = Vec::new();
    let mut k: usize = 0;
    while k < runs.len()
        invariant
            k <= runs@.len(),
            rv == runs_v(runs@),
            spans_v(out@) == colored(rv.take(k as int), base),
            forall|q: int| 0 <= q < out@.len() ==> (#[trigger] out@[q]).link is None,
        decreases runs.len() - k,
    {
        let (text, r, g, b) = (&runs[k].0, runs[k].1, runs[k].2, runs[k].3);
        let st = Style { fg: Some(Color::Rgb { r, g, b }), ..base };
        proof {
            assert(rv.take(k + 1).drop_last() =~= rv.take(k as int));
            assert(rv.take(k + 1).last() == (text@, r, g, b));
        }
        if !text.as_str().is_empty() {
            let n = out.len();
            if n > 0 && out[n - 1].style == st {
                let mut last = out.pop().unwrap();
                push_str(&mut last.text, text.as_str());
                out.push(last);
                proof {
                    assert(spans_v(out@) =~= colored(rv.take(k + 1), base));
                }
            } else {
                out.push(Span::new(text.as_str(), st));
                proof {
                    assert(spans_v(out@) =~= colored(rv.take(k + 1), base));
                }
            }
        }
        k = k + 1;
    }
    proof {
        assert(rv.take(runs@.len() as int) =~= rv);
    }
    Some(out)
}

} // verus!
