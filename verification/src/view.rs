//! The pager's decisions that need no terminal: how far it may scroll, what
//! a search finds, where the reader is in the outline, and the synthetic
//! documents it shows.

use vstd::prelude::*;
use crate::ir::{Block, BlockKind, Document, Hit, HitTarget, Line, Scale, Style, spans_chars, spans_v, joined_lines};
use crate::render::{Highlight, Overlay};
use crate::render::rows_of;
use crate::text::{push_char, push_str, push_spaces, push_decimal, dec};
use crate::width::{spaces, min_usize, WidthCalc};
use crate::session::Match;
use crate::text::{unicode_lower, unicode_upper, chars_of, string_of, trim_end, starts_with, trim_end_range, is_ws, is_whitespace, lower_seq, lower_char, str_eq, string_from};
use crate::html::digits_value;

verus! {

/// How many lines from `i` on fit in `rows` screen rows when `used` are
/// already taken, counting a double-height line as two.
pub open spec fn fit_count(ls: Seq<Line>, i: nat, used: nat, rows: nat) -> nat
    decreases ls.len() - i,
{
    if i >= ls.len() || used + rows_of(ls[i as int].scale) > rows {
        0
    } else {
        1 + fit_count(ls, i + 1, used + rows_of(ls[i as int].scale), rows)
    }
}

/// How many layout rows fit in `rows` screen rows starting at `from` (at
/// least one, so that paging always moves).
pub open spec fn fitting(ls: Seq<Line>, from: nat, rows: nat) -> nat {
    let n = fit_count(ls, if from <= ls.len() { from } else { ls.len() }, 0, rows);
    if n >= 1 { n } else { 1 }
}

/// Walking back from the lines before index `i`, with `used` rows taken:
/// the first line of the run that still fits, `first` when none more does.
pub open spec fn fill_back(ls: Seq<Line>, i: nat, used: nat, rows: nat, first: nat) -> nat
    decreases i,
{
    if i == 0 || i > ls.len() || used + rows_of(ls[i - 1].scale) > rows {
        first
    } else {
        fill_back(ls, (i - 1) as nat, used + rows_of(ls[i - 1].scale), rows, (i - 1) as nat)
    }
}

fn cost(s: Scale) -> (r: u32)
    ensures
        r == rows_of(s),
{
    match s {
        Scale::Normal => 1,
        Scale::DoubleHeight => 2,
    }
}

/// How many layout rows fit in `rows` screen rows starting at `from`,
/// counting double-height lines twice; at least one.
pub fn lines_fitting(lines: &[Line], from: usize, rows: u16) -> (r: usize)
    ensures
        r == fitting(lines@, from as nat, rows as nat),
        r >= 1,
{
    let start = if from <= lines.len() { from } else { lines.len() };
    let count = fit_from(lines, start, rows);
    if count >= 1 { count } else { 1 }
}

fn fit_from(lines: &[Line], start: usize, rows: u16) -> (r: usize)
    requires
        start <= lines@.len(),
    ensures
        r == fit_count(lines@, start as nat, 0, rows as nat),
{
    let mut used: u32 = 0;
    let mut count: usize = 0;
    let mut i: usize = start;
    while i < lines.len()
        invariant
            start <= i <= lines@.len(),
            used <= rows,
            count == i - start,
            count + fit_count(lines@, i as nat, used as nat, rows as nat)
                == fit_count(lines@, start as nat, 0, rows as nat),
        decreases lines@.len() - i,
    {
        let c = cost(lines[i].scale);
        if used + c > rows as u32 {
            return count;
        }
        used = used + c;
        count = count + 1;
        i = i + 1;
    }
    count
}

/// The walk back from the lines before `upto`: the first index of the
/// longest run ending there that fits in `rows`, or `first` if not even the
/// last line does.
fn walk_back(lines: &[Line], upto: usize, rows: u16, first: usize) -> (r: usize)
    requires
        upto <= lines@.len(),
    ensures
        r == fill_back(lines@, upto as nat, 0, rows as nat, first as nat),
{
    let mut used: u32 = 0;
    let mut at: usize = first;
    let mut i: usize = upto;
    while i > 0
        invariant
            i <= upto <= lines@.len(),
            used <= rows,
            fill_back(lines@, i as nat, used as nat, rows as nat, at as nat)
                == fill_back(lines@, upto as nat, 0, rows as nat, first as nat),
        decreases i,
    {
        let c = cost(lines[i - 1].scale);
        if used + c > rows as u32 {
            return at;
        }
        used = used + c;
        at = i - 1;
        i = i - 1;
    }
    at
}

/// The largest scroll position that still fills the viewport from the
/// bottom: the first line of the longest run at the end of the document
/// that fits in `rows`.
pub fn max_scroll(lines: &[Line], rows: u16) -> (r: usize)
    ensures
        r == fill_back(lines@, lines@.len(), 0, rows as nat, lines@.len()),
{
    walk_back(lines, lines.len(), rows, lines.len())
}

/// A scroll position moved by `delta` and held between the top and `max`.
pub open spec fn scrolled(scroll: usize, delta: isize, max: usize) -> usize {
    let t = scroll + delta;
    if t < 0 {
        0
    } else if t > max {
        max
    } else {
        t as usize
    }
}

/// Moves a scroll position by `delta` rows, held between the top and `max`.
pub fn scroll_by(scroll: usize, delta: isize, max: usize) -> (r: usize)
    ensures
        r == scrolled(scroll, delta, max),
{
    let t: i128 = scroll as i128 + delta as i128;
    if t < 0 {
        0
    } else if t > max as i128 {
        max
    } else {
        t as usize
    }
}

/// The scroll position that brings row `line` into view: unchanged when it
/// already is, the row itself when it lies above, and otherwise the one that
/// puts it on the bottom row.
pub open spec fn visible_from(ls: Seq<Line>, scroll: usize, line: usize, rows: nat) -> nat {
    if line < scroll {
        line as nat
    } else if line >= scroll + fitting(ls, scroll as nat, rows) {
        fill_back(ls, (line + 1) as nat, 0, rows, line as nat)
    } else {
        scroll as nat
    }
}

/// Scrolls just far enough to bring row `line` into view.
pub fn ensure_visible(lines: &[Line], scroll: usize, line: usize, rows: u16) -> (r: usize)
    requires
        line < lines@.len(),
        scroll <= lines@.len(),
    ensures
        r == visible_from(lines@, scroll, line, rows as nat),
{
    if line < scroll {
        return line;
    }
    let last = scroll.saturating_add(lines_fitting(lines, scroll, rows));
    let n = lines.len();
    if line >= last {
        walk_back(lines, line + 1, rows, line)
    } else {
        scroll
    }
}

/// The screen rows the lines `[a, b)` take.
pub open spec fn rows_between(ls: Seq<Line>, a: nat, b: nat) -> nat
    decreases b - a,
{
    if a >= b || a >= ls.len() {
        0
    } else {
        rows_of(ls[a as int].scale) + rows_between(ls, a + 1, b)
    }
}

proof fn lemma_fit_count_covers(ls: Seq<Line>, j: nat, b: nat, used: nat, rows: nat)
    requires
        j <= b <= ls.len(),
        used + rows_between(ls, j, b) <= rows,
    ensures
        fit_count(ls, j, used, rows) >= b - j,
    decreases b - j,
{
    if j < b {
        lemma_fit_count_covers(ls, j + 1, b, used + rows_of(ls[j as int].scale), rows);
    }
}

proof fn lemma_fill_back_fits(ls: Seq<Line>, i: nat, b: nat, used: nat, rows: nat, first: nat)
    requires
        1 <= b <= ls.len(),
        i <= b,
        used == rows_between(ls, i, b),
        used <= rows,
        first == (if i < b { i } else { (b - 1) as nat }),
    ensures
        fill_back(ls, i, used, rows, first) <= b - 1,
        fill_back(ls, i, used, rows, first) == b - 1
            || rows_between(ls, fill_back(ls, i, used, rows, first), b) <= rows,
    decreases i,
{
    if i == 0 || used + rows_of(ls[i - 1].scale) > rows {
    } else {
        lemma_fill_back_fits(ls, (i - 1) as nat, b, used + rows_of(ls[i - 1].scale), rows, (i - 1) as nat);
    }
}

/// After scrolling to bring a row into view, that row is on screen: it lies
/// between the new top row and the last row that fits under it.
pub proof fn lemma_ensure_visible_shows(ls: Seq<Line>, scroll: usize, line: usize, rows: nat)
    requires
        line < ls.len(),
        scroll <= ls.len(),
    ensures
        visible_from(ls, scroll, line, rows) <= line,
        line < visible_from(ls, scroll, line, rows) + fitting(ls, visible_from(ls, scroll, line, rows), rows),
{
    let r = visible_from(ls, scroll, line, rows);
    if line < scroll {
    } else if line >= scroll + fitting(ls, scroll as nat, rows) {
        let b = (line + 1) as nat;
        assert(rows_between(ls, b, b) == 0);
        lemma_fill_back_fits(ls, b, b, 0, rows, line as nat);
        if r != line {
            lemma_fit_count_covers(ls, r, b, 0, rows);
        }
    }
}

/// The largest scroll position leaves the document's last row on screen.
pub proof fn lemma_max_scroll_shows_the_end(ls: Seq<Line>, rows: nat)
    requires
        ls.len() > 0,
    ensures
        fill_back(ls, ls.len(), 0, rows, ls.len()) <= ls.len(),
        fill_back(ls, ls.len(), 0, rows, ls.len()) == ls.len()
            || fill_back(ls, ls.len(), 0, rows, ls.len()) + fitting(ls, fill_back(ls, ls.len(), 0, rows, ls.len()), rows) >= ls.len(),
{
    let n = ls.len();
    let r = fill_back(ls, n, 0, rows, n);
    if r != n {
        if 0 < n && rows_of(ls[n - 1].scale) <= rows {
            assert(rows_between(ls, n, n) == 0);
            assert(rows_between(ls, (n - 1) as nat, n) == rows_of(ls[n - 1].scale));
            lemma_fill_back_fits(ls, (n - 1) as nat, n, rows_of(ls[n - 1].scale), rows, (n - 1) as nat);
            assert(r == fill_back(ls, (n - 1) as nat, rows_of(ls[n - 1].scale), rows, (n - 1) as nat));
            if r != n - 1 {
                lemma_fit_count_covers(ls, r, n, 0, rows);
            }
        }
    }
}

} // verus!

verus! {

/// The text of a block's spans.
pub open spec fn text_of(b: Block) -> Seq<char> {
    spans_chars(spans_v(b.spans@))
}

/// The entries of an outline trail shallower than `level`.
pub open spec fn shallower(t: Seq<(u8, Seq<char>)>, level: u8) -> Seq<(u8, Seq<char>)>
    decreases t.len(),
{
    if t.len() == 0 {
        Seq::empty()
    } else if t.last().0 < level {
        shallower(t.drop_last(), level).push(t.last())
    } else {
        shallower(t.drop_last(), level)
    }
}

/// The trail of enclosing headings after the blocks `bs`, starting from `t`:
/// each heading that starts at or above source line `line` closes every
/// entry as deep as it or deeper and joins the trail; the first heading below
/// the line ends the walk.
pub open spec fn trail_from(bs: Seq<Block>, line: usize, t: Seq<(u8, Seq<char>)>) -> Seq<(u8, Seq<char>)>
    decreases bs.len(),
{
    if bs.len() == 0 {
        t
    } else {
        match bs[0].kind {
            BlockKind::Heading(level) => if bs[0].source_range.start > line {
                t
            } else {
                trail_from(bs.drop_first(), line, shallower(t, level).push((level, text_of(bs[0]))))
            },
            _ => trail_from(bs.drop_first(), line, t),
        }
    }
}

/// `parts` joined with `sep` between each two.
pub open spec fn joined_by(parts: Seq<Seq<char>>, sep: Seq<char>) -> Seq<char>
    decreases parts.len(),
{
    if parts.len() == 0 {
        Seq::empty()
    } else if parts.len() == 1 {
        parts[0]
    } else {
        joined_by(parts.drop_last(), sep) + sep + parts.last()
    }
}

/// The separator between the headings of a breadcrumb.
pub open spec fn crumb_sep() -> Seq<char> {
    seq![' ', '\u{203a}', ' ']
}

/// The names of the headings enclosing source line `line`, outermost
/// first, joined with ` › `.
pub open spec fn crumbs(bs: Seq<Block>, line: usize) -> Seq<char> {
    joined_by(trail_from(bs, line, Seq::empty()).map_values(|e: (u8, Seq<char>)| e.1), crumb_sep())
}

/// A trail as levels and texts.
pub open spec fn trail_v(v: Seq<(u8, String)>) -> Seq<(u8, Seq<char>)> {
    Seq::new(v.len(), |i: int| (v[i].0, v[i].1@))
}

fn keep_shallower(t: Vec<(u8, String)>, level: u8) -> (r: Vec<(u8, String)>)
    ensures
        trail_v(r@) == shallower(trail_v(t@), level),
{
    let mut out: Vec<(u8, String)> = Vec::new();
    let mut j: usize = 0;
    let ghost tv = trail_v(t@);
    proof {
        assert(trail_v(out@) =~= shallower(tv.take(0), level));
    }
    while j < t.len()
        invariant
            j <= t@.len(),
            tv == trail_v(t@),
            trail_v(out@) == shallower(tv.take(j as int), level),
        decreases t@.len() - j,
    {
        proof {
            assert(tv.take(j + 1).drop_last() =~= tv.take(j as int));
            assert(tv.take(j + 1).last() == tv[j as int]);
        }
        if t[j].0 < level {
            let e = (t[j].0, t[j].1.clone());
            proof {
                assert(trail_v(out@.push(e)) =~= trail_v(out@).push(tv[j as int]));
            }
            out.push(e);
        }
        j = j + 1;
    }
    proof {
        assert(tv.take(j as int) =~= tv);
    }
    out
}

fn join_with_sep(parts: &Vec<(u8, String)>) -> (r: String)
    ensures
        r@ == joined_by(trail_v(parts@).map_values(|e: (u8, Seq<char>)| e.1), crumb_sep()),
{
    let ghost names = trail_v(parts@).map_values(|e: (u8, Seq<char>)| e.1);
    let mut out = String::new();
    let mut k: usize = 0;
    while k < parts.len()
        invariant
            k <= parts@.len(),
            names == trail_v(parts@).map_values(|e: (u8, Seq<char>)| e.1),
            out@ == joined_by(names.take(k as int), crumb_sep()),
        decreases parts@.len() - k,
    {
        proof {
            assert(names.take(k + 1).drop_last() =~= names.take(k as int));
            assert(names.take(k + 1).last() == parts@[k as int].1@);
        }
        if k > 0 {
            push_char(&mut out, ' ');
            push_char(&mut out, '\u{203a}');
            push_char(&mut out, ' ');
        }
        push_str(&mut out, parts[k].1.as_str());
        proof {
            if k == 0 {
                assert(names.take(1).len() == 1);
                assert(out@ =~= joined_by(names.take(1), crumb_sep()));
            } else {
                assert(out@ =~= joined_by(names.take(k as int), crumb_sep()) + crumb_sep() + parts@[k as int].1@);
            }
        }
        k = k + 1;
    }
    proof {
        assert(names.take(k as int) =~= names);
    }
    out
}

/// The innermost headings at or above source line `line`, outermost first,
/// joined with ` › `: empty above the first heading.
pub fn breadcrumb(blocks: &[Block], line: usize) -> (r: String)
    ensures
        r@ == crumbs(blocks@, line),
{
    let mut trail: Vec<(u8, String)> = Vec::new();
    let mut i: usize = 0;
    proof {
        assert(blocks@.skip(0) =~= blocks@);
        assert(trail_v(trail@) =~= Seq::<(u8, Seq<char>)>::empty());
    }
    while i < blocks.len()
        invariant
            i <= blocks@.len(),
            trail_from(blocks@.skip(i as int), line, trail_v(trail@)) == trail_from(blocks@, line, Seq::empty()),
        decreases blocks@.len() - i,
    {
        let b = &blocks[i];
        proof {
            assert(blocks@.skip(i as int)[0] == *b);
            assert(blocks@.skip(i as int).drop_first() =~= blocks@.skip(i + 1));
        }
        match b.heading_level() {
            None => {},
            Some(level) => {
                if b.source_range.start > line {
                    return join_with_sep(&trail);
                }
                let kept = keep_shallower(trail, level);
                trail = kept;
                let e = (level, b.text());
                proof {
                    assert(trail_v(trail@.push(e)) =~= trail_v(trail@).push((level, text_of(*b))));
                }
                trail.push(e);
            },
        }
        i = i + 1;
    }
    proof {
        if i == blocks@.len() {
            assert(blocks@.skip(i as int) =~= Seq::<Block>::empty());
        }
    }
    join_with_sep(&trail)
}

} // verus!

verus! {

/// The headings among `bs`: level, text and first source line.
pub open spec fn heads_of(bs: Seq<Block>) -> Seq<(u8, Seq<char>, usize)>
    decreases bs.len(),
{
    if bs.len() == 0 {
        Seq::empty()
    } else {
        match bs.last().kind {
            BlockKind::Heading(l) => heads_of(bs.drop_last()).push((l, text_of(bs.last()), bs.last().source_range.start)),
            _ => heads_of(bs.drop_last()),
        }
    }
}

/// The shallowest level among the headings.
pub open spec fn top_level(hs: Seq<(u8, Seq<char>, usize)>) -> u8
    decreases hs.len(),
{
    if hs.len() == 0 {
        1
    } else if hs.len() == 1 {
        hs[0].0
    } else if hs.last().0 < top_level(hs.drop_last()) {
        hs.last().0
    } else {
        top_level(hs.drop_last())
    }
}

/// `t` without its square brackets, so a heading cannot break the link it
/// is written into.
pub open spec fn unbracketed(t: Seq<char>) -> Seq<char>
    decreases t.len(),
{
    if t.len() == 0 {
        Seq::empty()
    } else if t.last() == '[' || t.last() == ']' {
        unbracketed(t.drop_last())
    } else {
        unbracketed(t.drop_last()).push(t.last())
    }
}

/// One entry of the contents: a list item linking to the heading's line,
/// indented two spaces per level below the shallowest.
pub open spec fn toc_entry(top: u8, h: (u8, Seq<char>, usize)) -> Seq<char> {
    spaces((2 * (h.0 - top)) as nat) + "- ["@ + unbracketed(h.1) + "](#line-"@ + dec(h.2 as nat) + ")\n"@
}

/// The entries of the contents, in document order.
pub open spec fn toc_entries(top: u8, hs: Seq<(u8, Seq<char>, usize)>) -> Seq<char>
    decreases hs.len(),
{
    if hs.len() == 0 {
        Seq::empty()
    } else {
        toc_entries(top, hs.drop_last()) + toc_entry(top, hs.last())
    }
}

/// The contents pane of a document: a Markdown list of its headings, or
/// nothing when it has none.
pub open spec fn toc_of(bs: Seq<Block>) -> Option<Seq<char>> {
    let hs = heads_of(bs);
    if hs.len() == 0 {
        None
    } else {
        Some("# Contents\n\n"@ + toc_entries(top_level(hs), hs))
    }
}

/// A heading entry as plain values.
pub open spec fn head_v(v: Seq<(u8, String, usize)>) -> Seq<(u8, Seq<char>, usize)> {
    Seq::new(v.len(), |i: int| (v[i].0, v[i].1@, v[i].2))
}

fn push_unbracketed(out: &mut String, t: &str)
    ensures
        final(out)@ == old(out)@ + unbracketed(t@),
{
    let v = crate::text::chars_of(t);
    let mut k: usize = 0;
    proof {
        assert(old(out)@ + unbracketed(v@.take(0)) =~= old(out)@);
    }
    while k < v.len()
        invariant
            k <= v@.len(),
            v@ == t@,
            out@ == old(out)@ + unbracketed(v@.take(k as int)),
        decreases v@.len() - k,
    {
        proof {
            assert(v@.take(k + 1).drop_last() =~= v@.take(k as int));
            assert(v@.take(k + 1).last() == v@[k as int]);
        }
        let c = v[k];
        if c != '[' && c != ']' {
            push_char(out, c);
            proof {
                assert(old(out)@ + unbracketed(v@.take(k as int)).push(c) =~= old(out)@ + unbracketed(v@.take(k + 1)));
            }
        }
        k = k + 1;
    }
    proof {
        assert(v@.take(k as int) =~= v@);
    }
}

/// The contents pane: every heading as a link to its line, indented by level
/// below the shallowest one; `None` for a document without headings.
pub fn toc_markdown(blocks: &[Block]) -> (r: Option<String>)
    ensures
        match r {
            Some(s) => toc_of(blocks@) == Some(s@),
            None => toc_of(blocks@) is None,
        },
{
    let mut heads: Vec<(u8, String, usize)> = Vec::new();
    let mut i: usize = 0;
    proof {
        assert(head_v(heads@) =~= heads_of(blocks@.take(0)));
    }
    while i < blocks.len()
        invariant
            i <= blocks@.len(),
            head_v(heads@) == heads_of(blocks@.take(i as int)),
        decreases blocks@.len() - i,
    {
        proof {
            assert(blocks@.take(i + 1).drop_last() =~= blocks@.take(i as int));
            assert(blocks@.take(i + 1).last() == blocks@[i as int]);
        }
        let b = &blocks[i];
        match b.heading_level() {
            Some(level) => {
                let e = (level, b.text(), b.source_range.start);
                proof {
                    assert(head_v(heads@.push(e)) =~= head_v(heads@).push((level, text_of(*b), b.source_range.start)));
                }
                heads.push(e);
            },
            None => {},
        }
        i = i + 1;
    }
    proof {
        assert(blocks@.take(i as int) =~= blocks@);
    }
    let ghost hs = head_v(heads@);
    if heads.len() == 0 {
        return None;
    }
    let mut top: u8 = heads[0].0;
    let mut j: usize = 1;
    proof {
        assert(hs.take(1).len() == 1);
        assert(top == top_level(hs.take(1)));
    }
    while j < heads.len()
        invariant
            1 <= j <= heads@.len(),
            hs == head_v(heads@),
            top == top_level(hs.take(j as int)),
            forall|k: int| 0 <= k < j ==> top <= #[trigger] hs[k].0,
        decreases heads@.len() - j,
    {
        proof {
            assert(hs.take(j + 1).drop_last() =~= hs.take(j as int));
            assert(hs.take(j + 1).last() == hs[j as int]);
        }
        if heads[j].0 < top {
            top = heads[j].0;
        }
        j = j + 1;
    }
    proof {
        assert(hs.take(j as int) =~= hs);
    }
    let mut out = String::new();
    push_str(&mut out, "# Contents\n\n");
    let mut k: usize = 0;
    proof {
        assert(out@ =~= "# Contents\n\n"@ + toc_entries(top, hs.take(0)));
    }
    while k < heads.len()
        invariant
            k <= heads@.len(),
            hs == head_v(heads@),
            forall|m: int| 0 <= m < heads@.len() ==> top <= #[trigger] hs[m].0,
            out@ == "# Contents\n\n"@ + toc_entries(top, hs.take(k as int)),
        decreases heads@.len() - k,
    {
        proof {
            assert(hs.take(k + 1).drop_last() =~= hs.take(k as int));
            assert(hs.take(k + 1).last() == hs[k as int]);
            assert(top <= hs[k as int].0);
        }
        let ghost before = out@;
        let level = heads[k].0;
        push_spaces(&mut out, ((level - top) as usize) * 2);
        push_str(&mut out, "- [");
        push_unbracketed(&mut out, heads[k].1.as_str());
        push_str(&mut out, "](#line-");
        push_decimal(&mut out, heads[k].2);
        push_str(&mut out, ")\n");
        proof {
            assert(((level - top) as usize) * 2 == 2 * (level - top));
            assert(out@ =~= before + toc_entry(top, hs[k as int]));
        }
        k = k + 1;
    }
    proof {
        assert(hs.take(k as int) =~= hs);
    }
    Some(out)
}

} // verus!

verus! {

/// Whether `n` occurs in `h` at character `i`.
pub open spec fn matches_at(h: Seq<char>, n: Seq<char>, i: nat) -> bool {
    i + n.len() <= h.len() && h.subrange(i as int, (i + n.len()) as int) == n
}

/// The first place at or after character `i` where `n` occurs in `h`.
pub open spec fn next_at(h: Seq<char>, n: Seq<char>, i: nat) -> Option<nat>
    decreases h.len() + 1 - i,
{
    if i + n.len() > h.len() {
        None
    } else if matches_at(h, n, i) {
        Some(i)
    } else {
        next_at(h, n, i + 1)
    }
}

pub proof fn lemma_next_at(h: Seq<char>, n: Seq<char>, i: nat)
    ensures
        next_at(h, n, i) matches Some(k) ==> i <= k && k + n.len() <= h.len() && matches_at(h, n, k),
    decreases h.len() + 1 - i,
{
    if i + n.len() <= h.len() && !matches_at(h, n, i) {
        lemma_next_at(h, n, i + 1);
    }
}

/// Where a non-empty `n` occurs in `h` from character `from` on, without
/// overlapping: each search resumes where the last occurrence ends.
pub open spec fn occurrences(h: Seq<char>, n: Seq<char>, from: nat) -> Seq<nat>
    decreases h.len() - from,
{
    if n.len() == 0 {
        Seq::empty()
    } else {
        match next_at(h, n, from) {
            None => Seq::empty(),
            Some(k) => {
                proof {
                    lemma_next_at(h, n, from);
                }
                seq![k] + occurrences(h, n, k + n.len())
            },
        }
    }
}

/// Every place a search reports is an occurrence of the pattern, at or
/// after where the search began, and each one starts no earlier than where
/// the one before it ends: matches never overlap.
pub proof fn lemma_occurrences_are_disjoint_matches(h: Seq<char>, n: Seq<char>, from: nat)
    ensures
        forall|j: int| 0 <= j < occurrences(h, n, from).len() ==>
            from <= #[trigger] occurrences(h, n, from)[j] && matches_at(h, n, occurrences(h, n, from)[j]),
        forall|j: int| 0 <= j < occurrences(h, n, from).len() - 1 ==>
            #[trigger] occurrences(h, n, from)[j] + n.len() <= occurrences(h, n, from)[j + 1],
    decreases h.len() - from,
{
    if n.len() > 0 {
        lemma_next_at(h, n, from);
        match next_at(h, n, from) {
            None => {},
            Some(k) => {
                lemma_occurrences_are_disjoint_matches(h, n, k + n.len());
                let rest = occurrences(h, n, k + n.len());
                let all = occurrences(h, n, from);
                assert(all == seq![k] + rest);
                assert forall|j: int| 0 <= j < all.len() implies from <= #[trigger] all[j] && matches_at(h, n, all[j]) by {
                    if j > 0 {
                        assert(all[j] == rest[j - 1]);
                    }
                }
                assert forall|j: int| 0 <= j < all.len() - 1 implies #[trigger] all[j] + n.len() <= all[j + 1] by {
                    assert(all[j + 1] == rest[j]);
                    if j > 0 {
                        assert(all[j] == rest[j - 1]);
                    }
                }
            },
        }
    }
}

/// The display column `k` characters into `text` (all of it when it is
/// shorter), saturating.
pub open spec fn col_at(calc: WidthCalc, text: Seq<char>, k: nat) -> usize {
    min_usize(calc.cols(if k <= text.len() { text.take(k as int) } else { text })) as usize
}

/// The matches on row `i`, whose text is `text` and is searched as `hay`:
/// each occurrence's character positions in `hay` taken as the same number
/// of characters into `text`, and measured there in display columns.
pub open spec fn row_matches(calc: WidthCalc, i: usize, text: Seq<char>, hay: Seq<char>, n: Seq<char>) -> Seq<Match> {
    occurrences(hay, n, 0).map_values(
        |k: nat| Match { line: i, start: col_at(calc, text, k), end: col_at(calc, text, k + n.len()) },
    )
}

/// The text of row `i`.
pub open spec fn row_text(ls: Seq<Line>, i: int) -> Seq<char> {
    spans_chars(spans_v(ls[i].spans@))
}

/// The matches on the first `k` rows, in order.
pub open spec fn matches_upto(calc: WidthCalc, ls: Seq<Line>, k: nat, fold: bool, n: Seq<char>) -> Seq<Match>
    decreases k,
{
    if k == 0 || k > ls.len() {
        Seq::empty()
    } else {
        let t = row_text(ls, k - 1);
        matches_upto(calc, ls, (k - 1) as nat, fold, n) + row_matches(
            calc,
            (k - 1) as usize,
            t,
            if fold { unicode_lower(t) } else { t },
            n,
        )
    }
}

/// Whether a pattern searches without regard to case: it has no uppercase
/// character.
pub open spec fn smartcase(q: Seq<char>) -> bool {
    forall|j: int| 0 <= j < q.len() ==> !unicode_upper(#[trigger] q[j])
}

/// Every match of `q` in the rows, row by row: an empty pattern finds
/// nothing, and a pattern without capitals is matched against the
/// lowercased rows in its lowercased form.
pub open spec fn search(calc: WidthCalc, ls: Seq<Line>, q: Seq<char>) -> Seq<Match> {
    if q.len() == 0 {
        Seq::empty()
    } else {
        let fold = smartcase(q);
        matches_upto(calc, ls, ls.len(), fold, if fold { unicode_lower(q) } else { q })
    }
}

fn matches_here(h: &Vec<char>, n: &Vec<char>, i: usize) -> (r: bool)
    requires
        i + n@.len() <= h@.len(),
    ensures
        r == matches_at(h@, n@, i as nat),
{
    let hl = h.len();
    let mut j: usize = 0;
    while j < n.len()
        invariant
            j <= n@.len(),
            hl == h@.len(),
            i + n@.len() <= h@.len(),
            forall|m: int| 0 <= m < j ==> h@[i + m] == n@[m],
        decreases n@.len() - j,
    {
        if h[i + j] != n[j] {
            proof {
                assert(h@.subrange(i as int, (i + n@.len()) as int)[j as int] != n@[j as int]);
            }
            return false;
        }
        j = j + 1;
    }
    proof {
        assert(h@.subrange(i as int, (i + n@.len()) as int) =~= n@);
    }
    true
}

fn find_from(h: &Vec<char>, n: &Vec<char>, from: usize) -> (r: Option<usize>)
    requires
        n@.len() > 0,
    ensures
        match r {
            Some(k) => next_at(h@, n@, from as nat) == Some(k as nat),
            None => next_at(h@, n@, from as nat) is None,
        },
{
    let mut i = from;
    if n.len() > h.len() {
        return None;
    }
    while i <= h.len() - n.len()
        invariant
            from <= i,
            n@.len() > 0,
            n@.len() <= h@.len(),
            next_at(h@, n@, i as nat) == next_at(h@, n@, from as nat),
        decreases h@.len() + 1 - i,
    {
        if matches_here(h, n, i) {
            return Some(i);
        }
        i = i + 1;
    }
    None
}

/// Where `n` occurs in row text `hay`, each mapped back through `text`.
fn row_search(calc: &WidthCalc, i: usize, text: &Vec<char>, hay: &Vec<char>, n: &Vec<char>, out: &mut Vec<Match>)
    requires
        n@.len() > 0,
    ensures
        final(out)@ == old(out)@ + row_matches(*calc, i, text@, hay@, n@),
{
    let mut from: usize = 0;
    let ghost mut found: Seq<nat> = Seq::empty();
    let ghost f = |k: nat| Match { line: i, start: col_at(*calc, text@, k), end: col_at(*calc, text@, k + n@.len()) };
    proof {
        assert(found + occurrences(hay@, n@, 0) =~= occurrences(hay@, n@, 0));
    }
    loop
        invariant
            n@.len() > 0,
            found + occurrences(hay@, n@, from as nat) == occurrences(hay@, n@, 0),
            out@ == old(out)@ + found.map_values(f),
            f == (|k: nat| Match { line: i, start: col_at(*calc, text@, k), end: col_at(*calc, text@, k + n@.len()) }),
        decreases hay@.len() + 1 - from,
    {
        match find_from(hay, n, from) {
            None => {
                proof {
                    assert(occurrences(hay@, n@, from as nat) =~= Seq::<nat>::empty());
                    assert(found + Seq::<nat>::empty() =~= found);
                    assert(found.map_values(f) =~= occurrences(hay@, n@, 0).map_values(f));
                }
                return;
            },
            Some(k) => {
                proof {
                    lemma_next_at(hay@, n@, from as nat);
                }
                let hl = hay.len();
                assert(k + n@.len() <= hl);
                let end = k + n.len();
                let a = if k <= text.len() { k } else { text.len() };
                let b = if end <= text.len() { end } else { text.len() };
                let pa = string_of(text, 0, a);
                let pb = string_of(text, 0, b);
                let m = Match { line: i, start: calc.str(pa.as_str()), end: calc.str(pb.as_str()) };
                proof {
                    assert(text@.subrange(0, a as int) =~= (if k <= text@.len() { text@.take(k as int) } else { text@ }));
                    assert(text@.subrange(0, b as int) =~= (if end <= text@.len() { text@.take(end as int) } else { text@ }));
                    assert(m == f(k as nat));
                    assert(found.push(k as nat).map_values(f) =~= found.map_values(f).push(f(k as nat)));
                    assert(found.push(k as nat) + occurrences(hay@, n@, end as nat) =~= found + occurrences(hay@, n@, from as nat));
                    found = found.push(k as nat);
                }
                out.push(m);
                from = end;
            },
        }
    }
}

/// Searches every laid-out row for `query`, reporting display-column
/// ranges. Smartcase: a pattern without capitals matches regardless of
/// case.
pub fn find_matches(lines: &[Line], query: &str, calc: &WidthCalc) -> (r: Vec<Match>)
    ensures
        r@ == search(*calc, lines@, query@),
{
    let q = chars_of(query);
    if q.len() == 0 {
        return Vec::new();
    }
    let mut fold = true;
    let mut j: usize = 0;
    while j < q.len()
        invariant
            j <= q@.len(),
            q@ == query@,
            fold == (forall|m: int| 0 <= m < j ==> !unicode_upper(#[trigger] q@[m])),
        decreases q@.len() - j,
    {
        if crate::text::is_uppercase(q[j]) {
            fold = false;
        }
        j = j + 1;
    }
    let needle: Vec<char> = if fold {
        let low = crate::text::to_lowercase(query);
        chars_of(low.as_str())
    } else {
        chars_of(query)
    };
    let ghost n = needle@;
    let mut out: Vec<Match> = Vec::new();
    let mut i: usize = 0;
    while i < lines.len()
        invariant
            i <= lines@.len(),
            needle@ == n,
            n.len() > 0,
            out@ == matches_upto(*calc, lines@, i as nat, fold, n),
        decreases lines@.len() - i,
    {
        let text = lines[i].text();
        let tv = chars_of(text.as_str());
        let hay: Vec<char> = if fold {
            let low = crate::text::to_lowercase(text.as_str());
            chars_of(low.as_str())
        } else {
            chars_of(text.as_str())
        };
        row_search(calc, i, &tv, &hay, &needle, &mut out);
        i = i + 1;
    }
    out
}

} // verus!

verus! {

/// Where the block cursor goes: with no cursor yet, to the block at the top
/// of the screen (or the first block); otherwise one block forward, stopping
/// at the last, or back, stopping at the first. A document without blocks
/// leaves the cursor as it is.
pub open spec fn cursor_after(cursor: Option<usize>, count: usize, top: Option<usize>, forward: bool) -> Option<usize> {
    if count == 0 {
        cursor
    } else {
        match cursor {
            None => Some(
                match top {
                    Some(b) => b,
                    None => 0,
                },
            ),
            Some(c) => Some(
                if forward {
                    if c + 1 < count { (c + 1) as usize } else { (count - 1) as usize }
                } else {
                    if c >= 1 { (c - 1) as usize } else { 0 }
                },
            ),
        }
    }
}

/// Moves the block cursor; `top` is the block of the row at the top of the
/// screen, if there is one.
pub fn next_cursor(cursor: Option<usize>, count: usize, top: Option<usize>, forward: bool) -> (r: Option<usize>)
    ensures
        r == cursor_after(cursor, count, top, forward),
{
    if count == 0 {
        return cursor;
    }
    match cursor {
        None => Some(
            match top {
                Some(b) => b,
                None => 0,
            },
        ),
        Some(c) => Some(
            if forward {
                if c < count - 1 { c + 1 } else { count - 1 }
            } else {
                if c >= 1 { c - 1 } else { 0 }
            },
        ),
    }
}

/// The first row belonging to block `block`.
pub fn first_row_of(lines: &[Line], block: usize) -> (r: Option<usize>)
    ensures
        match r {
            Some(i) => i < lines@.len() && lines@[i as int].block == block
                && forall|j: int| 0 <= j < i ==> (#[trigger] lines@[j]).block != block,
            None => forall|j: int| 0 <= j < lines@.len() ==> (#[trigger] lines@[j]).block != block,
        },
{
    let mut i: usize = 0;
    while i < lines.len()
        invariant
            i <= lines@.len(),
            forall|j: int| 0 <= j < i ==> (#[trigger] lines@[j]).block != block,
        decreases lines@.len() - i,
    {
        if lines[i].block == block {
            return Some(i);
        }
        i = i + 1;
    }
    None
}

/// The links among a row's hit rectangles, as the row and the link index.
pub open spec fn link_hits(hits: Seq<Hit>, row: usize) -> Seq<(usize, usize)>
    decreases hits.len(),
{
    if hits.len() == 0 {
        Seq::empty()
    } else {
        match hits.last().target {
            HitTarget::Link(id) => link_hits(hits.drop_last(), row).push((row, id.0)),
            _ => link_hits(hits.drop_last(), row),
        }
    }
}

/// The links on rows `[a, b)`, row by row.
pub open spec fn links_between(ls: Seq<Line>, a: nat, b: nat) -> Seq<(usize, usize)>
    decreases b,
{
    if b <= a || b > ls.len() {
        Seq::empty()
    } else {
        links_between(ls, a, (b - 1) as nat) + link_hits(ls[b - 1].hits@, (b - 1) as usize)
    }
}

/// The links on the rows on screen: from the top row through the last row
/// that fits in `rows`.
pub open spec fn links_on_screen(ls: Seq<Line>, scroll: usize, rows: nat) -> Seq<(usize, usize)> {
    let end = scroll + fitting(ls, scroll as nat, rows);
    let a = if scroll <= ls.len() { scroll as nat } else { ls.len() };
    let b = if end <= ls.len() { end as nat } else { ls.len() };
    links_between(ls, a, b)
}

/// Links currently on screen, paired with the row they were drawn on.
pub fn visible_links(lines: &[Line], scroll: usize, rows: u16) -> (r: Vec<(usize, usize)>)
    ensures
        r@ == links_on_screen(lines@, scroll, rows as nat),
{
    let n = lines.len();
    let end = scroll.saturating_add(lines_fitting(lines, scroll, rows));
    let a = if scroll <= n { scroll } else { n };
    let b = if end <= n { end } else { n };
    let mut out: Vec<(usize, usize)> = Vec::new();
    let mut i: usize = a;
    proof {
        assert(out@ =~= links_between(lines@, a as nat, a as nat));
    }
    while i < b
        invariant
            a <= i <= b <= lines@.len(),
            out@ == links_between(lines@, a as nat, i as nat),
        decreases b - i,
    {
        let hits = &lines[i].hits;
        let ghost before = out@;
        let mut k: usize = 0;
        proof {
            assert(link_hits(hits@.take(0), i) =~= Seq::<(usize, usize)>::empty());
            assert(out@ =~= before + link_hits(hits@.take(0), i));
        }
        while k < hits.len()
            invariant
                k <= hits@.len(),
                *hits == lines@[i as int].hits,
                out@ == before + link_hits(hits@.take(k as int), i),
            decreases hits@.len() - k,
        {
            proof {
                assert(hits@.take(k + 1).drop_last() =~= hits@.take(k as int));
                assert(hits@.take(k + 1).last() == hits@[k as int]);
            }
            match hits[k].target {
                HitTarget::Link(id) => {
                    out.push((i, id.0));
                },
                _ => {},
            }
            k = k + 1;
        }
        proof {
            assert(hits@.take(k as int) =~= hits@);
        }
        i = i + 1;
    }
    out
}

/// The keys that label links in the picker, in order.
pub open spec fn pick_keys() -> Seq<char> {
    seq!['a', 's', 'd', 'f', 'g', 'h', 'j', 'k', 'l', 'q', 'w', 'e', 'r', 't', 'y', 'u', 'i', 'o', 'p', 'z', 'x', 'c', 'v', 'b', 'n', 'm']
}

fn pick_key_at(i: usize) -> (r: char)
    requires
        i < 26,
    ensures
        r == pick_keys()[i as int],
{
    let keys: [char; 26] = ['a', 's', 'd', 'f', 'g', 'h', 'j', 'k', 'l', 'q', 'w', 'e', 'r', 't', 'y', 'u', 'i', 'o', 'p', 'z', 'x', 'c', 'v', 'b', 'n', 'm'];
    proof {
        assert(keys@ =~= pick_keys());
    }
    keys[i]
}

/// Labels for the links on screen: the first 26 of them, each given the
/// next key of the home-row-first alphabet.
pub fn pick_labels(links: &[(usize, usize)]) -> (r: Vec<(char, usize)>)
    ensures
        r@.len() == (if links@.len() < 26 { links@.len() } else { 26 }),
        forall|i: int| 0 <= i < r@.len() ==> #[trigger] r@[i] == (pick_keys()[i], links@[i].1),
{
    let mut out: Vec<(char, usize)> = Vec::new();
    let mut i: usize = 0;
    while i < links.len() && i < 26
        invariant
            i <= links@.len(),
            i <= 26,
            out@.len() == i,
            forall|j: int| 0 <= j < i ==> #[trigger] out@[j] == (pick_keys()[j], links@[j].1),
        decreases 26 - i,
    {
        out.push((pick_key_at(i), links[i].1));
        i = i + 1;
    }
    out
}

/// The column where the first hit rectangle of row `row` begins, or the
/// first column.
pub open spec fn label_col(ls: Seq<Line>, row: usize) -> usize {
    if row < ls.len() && ls[row as int].hits@.len() > 0 {
        ls[row as int].hits@[0].rect.x as usize
    } else {
        0
    }
}

/// The picker's labels drawn over the rows their links are on: one per
/// pair of label and link, in order, at the column where the row's first
/// link begins.
pub fn pick_overlays(picks: &[(char, usize)], links: &[(usize, usize)], lines: &[Line], style: Style) -> (r: Vec<Overlay>)
    ensures
        r@.len() == (if picks@.len() < links@.len() { picks@.len() } else { links@.len() }),
        forall|i: int| 0 <= i < r@.len() ==> {
            &&& (#[trigger] r@[i]).line == links@[i].0
            &&& r@[i].col == label_col(lines@, links@[i].0)
            &&& r@[i].text@ == seq![picks@[i].0]
            &&& r@[i].style == style
        },
{
    let mut out: Vec<Overlay> = Vec::new();
    let mut i: usize = 0;
    while i < picks.len() && i < links.len()
        invariant
            i <= picks@.len(),
            i <= links@.len(),
            out@.len() == i,
            forall|j: int| 0 <= j < i ==> {
                &&& (#[trigger] out@[j]).line == links@[j].0
                &&& out@[j].col == label_col(lines@, links@[j].0)
                &&& out@[j].text@ == seq![picks@[j].0]
                &&& out@[j].style == style
            },
        decreases picks@.len() - i,
    {
        let row = links[i].0;
        let col: usize = if row < lines.len() && lines[row].hits.len() > 0 {
            lines[row].hits[0].rect.x as usize
        } else {
            0
        };
        let mut text = String::new();
        push_char(&mut text, picks[i].0);
        proof {
            assert(text@ =~= seq![picks@[i as int].0]);
        }
        out.push(Overlay { line: row, col, text, style });
        i = i + 1;
    }
    out
}

/// The match `n` or `N` moves to: forward, the first on a row below `from`,
/// wrapping to the first; backward, the last on a row above, wrapping to
/// the last.
pub fn jump_target(matches: &[Match], from: usize, forward: bool) -> (r: usize)
    requires
        matches@.len() > 0,
    ensures
        r < matches@.len(),
        if forward {
            ||| (matches@[r as int].line > from && forall|k: int| 0 <= k < r ==> (#[trigger] matches@[k]).line <= from)
            ||| (r == 0 && forall|k: int| 0 <= k < matches@.len() ==> (#[trigger] matches@[k]).line <= from)
        } else {
            ||| (matches@[r as int].line < from && forall|k: int| r < k < matches@.len() ==> (#[trigger] matches@[k]).line >= from)
            ||| (r == matches@.len() - 1 && forall|k: int| 0 <= k < matches@.len() ==> (#[trigger] matches@[k]).line >= from)
        },
{
    if forward {
        let mut i: usize = 0;
        while i < matches.len()
            invariant
                forward,
                i <= matches@.len(),
                forall|k: int| 0 <= k < i ==> matches@[k].line <= from,
            decreases matches@.len() - i,
        {
            if matches[i].line > from {
                return i;
            }
            i = i + 1;
        }
        0
    } else {
        let mut i: usize = matches.len();
        while i > 0
            invariant
                !forward,
                matches@.len() > 0,
                i <= matches@.len(),
                forall|k: int| i <= k < matches@.len() ==> matches@[k].line >= from,
            decreases i,
        {
            if matches[i - 1].line < from {
                return i - 1;
            }
            i = i - 1;
        }
        matches.len() - 1
    }
}

/// The search highlights: every match, the current one in its own style.
pub fn highlights(matches: &[Match], current: Option<usize>, style: Style, current_style: Style) -> (r: Vec<Highlight>)
    ensures
        r@.len() == matches@.len(),
        forall|i: int| 0 <= i < r@.len() ==> {
            &&& (#[trigger] r@[i]).line == matches@[i].line
            &&& r@[i].start == matches@[i].start
            &&& r@[i].end == matches@[i].end
            &&& r@[i].style == (if current == Some(i as usize) { current_style } else { style })
        },
{
    let mut out: Vec<Highlight> = Vec::new();
    let mut i: usize = 0;
    while i < matches.len()
        invariant
            i <= matches@.len(),
            out@.len() == i,
            forall|j: int| 0 <= j < i ==> {
                &&& (#[trigger] out@[j]).line == matches@[j].line
                &&& out@[j].start == matches@[j].start
                &&& out@[j].end == matches@[j].end
                &&& out@[j].style == (if current == Some(j as usize) { current_style } else { style })
            },
        decreases matches@.len() - i,
    {
        let m = matches[i];
        let is_current = match current {
            Some(c) => c == i,
            None => false,
        };
        out.push(Highlight { line: m.line, start: m.start, end: m.end, style: if is_current { current_style } else { style } });
        i = i + 1;
    }
    out
}

} // verus!

verus! {

/// The status line: the file's name, the view, the wrap mode, how far down
/// the top row is as a percentage of the rows, and the breadcrumb if there
/// is one.
pub open spec fn status_of(name: Seq<char>, total: usize, scroll: usize, source_view: bool, wrap: bool, crumbs: Seq<char>) -> Seq<char> {
    let t: nat = if total >= 1 { total as nat } else { 1 };
    " "@ + name + "  "@ + (if source_view { "source"@ } else { "render"@ }) + "  "@ + (if wrap {
        "wrap"@
    } else {
        "no-wrap"@
    }) + "  "@ + dec((scroll * 100) as nat / t) + "%"@ + (if crumbs.len() == 0 {
        Seq::empty()
    } else {
        "  "@ + crumbs
    }) + " "@
}

/// The status line for the file `name`.
pub fn status_text(name: &str, total: usize, scroll: usize, source_view: bool, wrap: bool, crumbs: &str) -> (r: String)
    requires
        scroll <= usize::MAX / 100,
    ensures
        r@ == status_of(name@, total, scroll, source_view, wrap, crumbs@),
{
    let t: usize = if total >= 1 { total } else { 1 };
    let percent = (scroll * 100) / t;
    let mut out = String::new();
    push_str(&mut out, " ");
    push_str(&mut out, name);
    push_str(&mut out, "  ");
    push_str(&mut out, if source_view { "source" } else { "render" });
    push_str(&mut out, "  ");
    push_str(&mut out, if wrap { "wrap" } else { "no-wrap" });
    push_str(&mut out, "  ");
    push_decimal(&mut out, percent);
    push_str(&mut out, "%");
    let ghost before = out@;
    if !crumbs.is_empty() {
        push_str(&mut out, "  ");
        push_str(&mut out, crumbs);
    }
    push_str(&mut out, " ");
    proof {
        if crumbs@.len() == 0 {
            assert(before + Seq::<char>::empty() =~= before);
        }
    }
    out
}

/// A row's text for the clipboard: the margin taken off the front when it
/// is there, and trailing blank removed.
pub open spec fn row_clean(t: Seq<char>, margin: nat) -> Seq<char> {
    trim_end(if starts_with(t, spaces(margin)) { t.skip(margin as int) } else { t })
}

/// The cleaned text of the rows of block `idx` among the first `k` rows.
pub open spec fn block_rows(ls: Seq<Line>, k: nat, idx: usize, margin: nat) -> Seq<Seq<char>>
    decreases k,
{
    if k == 0 || k > ls.len() {
        Seq::empty()
    } else if ls[k - 1].block == idx {
        block_rows(ls, (k - 1) as nat, idx, margin).push(row_clean(row_text(ls, k - 1), margin))
    } else {
        block_rows(ls, (k - 1) as nat, idx, margin)
    }
}

fn clean_row(line: &Line, margin: usize) -> (r: String)
    ensures
        r@ == row_clean(spans_chars(spans_v(line.spans@)), margin as nat),
{
    let text = line.text();
    let v = chars_of(text.as_str());
    let mut lead = margin <= v.len();
    let mut j: usize = 0;
    while lead && j < margin
        invariant
            lead ==> margin <= v@.len(),
            j <= margin,
            lead == (margin <= v@.len() && forall|m: int| 0 <= m < j ==> v@[m] == ' '),
        decreases margin - j,
    {
        if v[j] != ' ' {
            lead = false;
        }
        j = j + 1;
    }
    proof {
        if lead {
            assert(v@.take(margin as int) =~= spaces(margin as nat));
        } else if margin <= v@.len() {
            let m = choose|m: int| 0 <= m < margin && v@[m] != ' ';
            assert(v@.take(margin as int)[m] != spaces(margin as nat)[m]);
        }
    }
    let start: usize = if lead { margin } else { 0 };
    let end = trim_end_range(&v, start, v.len());
    proof {
        assert(v@.subrange(start as int, v@.len() as int) =~= (if lead { v@.skip(margin as int) } else { v@ }));
    }
    string_of(&v, start, end)
}

/// The rendered text of block `idx`, from its laid-out rows so it matches
/// what is on screen, with the margin taken off again; `None` when the block
/// has no rows.
pub fn cursor_rendered_text(lines: &[Line], idx: usize, margin: usize) -> (r: Option<String>)
    ensures
        match r {
            Some(t) => block_rows(lines@, lines@.len(), idx, margin as nat).len() > 0
                && t@ == joined_lines(block_rows(lines@, lines@.len(), idx, margin as nat)),
            None => block_rows(lines@, lines@.len(), idx, margin as nat).len() == 0,
        },
{
    let mut rows: Vec<String> = Vec::new();
    let mut i: usize = 0;
    while i < lines.len()
        invariant
            i <= lines@.len(),
            rows@.map_values(|x: String| x@) == block_rows(lines@, i as nat, idx, margin as nat),
        decreases lines@.len() - i,
    {
        if lines[i].block == idx {
            let t = clean_row(&lines[i], margin);
            proof {
                assert(rows@.push(t).map_values(|x: String| x@) =~= rows@.map_values(|x: String| x@).push(t@));
            }
            rows.push(t);
        }
        i = i + 1;
    }
    if rows.len() == 0 {
        return None;
    }
    let ghost parts = rows@.map_values(|x: String| x@);
    let mut out = String::new();
    let mut k: usize = 0;
    while k < rows.len()
        invariant
            k <= rows@.len(),
            parts == rows@.map_values(|x: String| x@),
            out@ == joined_lines(parts.take(k as int)),
        decreases rows@.len() - k,
    {
        proof {
            assert(parts.take(k + 1).drop_last() =~= parts.take(k as int));
            assert(parts.take(k + 1).last() == rows@[k as int]@);
        }
        if k > 0 {
            push_char(&mut out, '\n');
        }
        push_str(&mut out, rows[k].as_str());
        proof {
            if k == 0 {
                assert(out@ =~= joined_lines(parts.take(1)));
            } else {
                assert(out@ =~= joined_lines(parts.take(k as int)) + seq!['\n'] + parts[k as int]);
            }
        }
        k = k + 1;
    }
    proof {
        assert(parts.take(k as int) =~= parts);
    }
    Some(out)
}

/// The source lines a selection of rows covers: from the first selected
/// row's line through the last one's, clamped to the file.
pub open spec fn selection_source(ls: Seq<Line>, src: Seq<Seq<char>>, sel: Option<(usize, usize)>) -> Option<Seq<char>> {
    match sel {
        None => None,
        Some(p) => {
            let lo = if p.0 <= p.1 { p.0 } else { p.1 };
            let hi = if p.0 <= p.1 { p.1 } else { p.0 };
            if hi >= ls.len() {
                None
            } else {
                let first = ls[lo as int].source_line;
                let last = ls[hi as int].source_line;
                let start: int = if first >= 1 { first - 1 } else { 0 };
                let end: int = if last <= src.len() { last as int } else { src.len() as int };
                if start < end {
                    Some(joined_lines(src.subrange(start, end)))
                } else {
                    None
                }
            }
        },
    }
}

/// The source of the selected rows, verbatim.
pub fn selected_source(lines: &[Line], source_lines: &Vec<String>, sel: Option<(usize, usize)>) -> (r: Option<String>)
    ensures
        match r {
            Some(t) => selection_source(lines@, source_lines@.map_values(|x: String| x@), sel) == Some(t@),
            None => selection_source(lines@, source_lines@.map_values(|x: String| x@), sel) is None,
        },
{
    let (a, b) = match sel {
        Some(p) => p,
        None => return None,
    };
    let lo = if a <= b { a } else { b };
    let hi = if a <= b { b } else { a };
    if hi >= lines.len() {
        return None;
    }
    let first = lines[lo].source_line;
    let last = lines[hi].source_line;
    let start: usize = if first >= 1 { first - 1 } else { 0 };
    let end: usize = if last <= source_lines.len() { last } else { source_lines.len() };
    if start >= end {
        return None;
    }
    let ghost src = source_lines@.map_values(|x: String| x@);
    let ghost parts = src.subrange(start as int, end as int);
    let mut out = String::new();
    let mut k: usize = start;
    while k < end
        invariant
            start <= k <= end <= source_lines@.len(),
            src == source_lines@.map_values(|x: String| x@),
            parts == src.subrange(start as int, end as int),
            out@ == joined_lines(parts.take(k - start)),
        decreases end - k,
    {
        proof {
            assert(parts.take(k - start + 1).drop_last() =~= parts.take(k - start));
            assert(parts.take(k - start + 1).last() == source_lines@[k as int]@);
        }
        if k > start {
            push_char(&mut out, '\n');
        }
        push_str(&mut out, source_lines[k].as_str());
        proof {
            if k == start {
                assert(out@ =~= joined_lines(parts.take(1)));
            } else {
                assert(out@ =~= joined_lines(parts.take(k - start)) + seq!['\n'] + parts[k - start]);
            }
        }
        k = k + 1;
    }
    proof {
        assert(parts.take(k - start) =~= parts);
    }
    Some(out)
}

/// A line selection after `j` (down) or `k` (up): the moving end steps one
/// row, held to the document; the anchor stays.
pub fn selection_step(sel: Option<(usize, usize)>, rows: usize, down: bool) -> (r: Option<(usize, usize)>)
    ensures
        match sel {
            None => r is None,
            Some(p) => r == Some((p.0, if down {
                if p.1 + 1 < rows { (p.1 + 1) as usize } else if rows >= 1 { (rows - 1) as usize } else { 0 }
            } else {
                if p.1 >= 1 { (p.1 - 1) as usize } else { 0 }
            })),
        },
{
    match sel {
        None => None,
        Some((anchor, current)) => {
            let next = if down {
                let last: usize = if rows >= 1 { rows - 1 } else { 0 };
                if current < last { current + 1 } else { last }
            } else {
                if current >= 1 { current - 1 } else { 0 }
            };
            Some((anchor, next))
        },
    }
}

/// The first link among a run of spans.
pub open spec fn first_link(sv: Seq<crate::ir::Span>) -> Option<crate::ir::LinkId>
    decreases sv.len(),
{
    if sv.len() == 0 {
        None
    } else if sv[0].link is Some {
        sv[0].link
    } else {
        first_link(sv.drop_first())
    }
}

/// What `o` acts on in block `idx`: the image if the block is one,
/// otherwise its first link.
pub open spec fn target_of(doc: Document, idx: usize) -> Option<Seq<char>> {
    if idx >= doc.blocks@.len() {
        None
    } else {
        let b = doc.blocks@[idx as int];
        match b.kind {
            BlockKind::Image(id) => if id.0 < doc.images@.len() { Some(doc.images@[id.0 as int].url@) } else { None },
            _ => match first_link(b.spans@) {
                Some(l) => if l.0 < doc.links@.len() { Some(doc.links@[l.0 as int].url@) } else { None },
                None => None,
            },
        }
    }
}

/// The link or image under the block cursor.
pub fn target_under_cursor(doc: &Document, cursor: Option<usize>) -> (r: Option<String>)
    ensures
        match cursor {
            None => r is None,
            Some(idx) => match r {
                Some(t) => target_of(*doc, idx) == Some(t@),
                None => target_of(*doc, idx) is None,
            },
        },
{
    let idx = match cursor {
        Some(i) => i,
        None => return None,
    };
    if idx >= doc.blocks.len() {
        return None;
    }
    let block = &doc.blocks[idx];
    match block.kind {
        BlockKind::Image(id) => {
            if id.0 < doc.images.len() {
                return Some(doc.images[id.0].url.clone());
            }
            return None;
        },
        _ => {},
    }
    let mut i: usize = 0;
    proof {
        assert(block.spans@.skip(0) =~= block.spans@);
    }
    while i < block.spans.len()
        invariant
            cursor == Some(idx),
            idx < doc.blocks@.len(),
            *block == doc.blocks@[idx as int],
            !(block.kind is Image),
            i <= block.spans@.len(),
            first_link(block.spans@.skip(i as int)) == first_link(block.spans@),
        decreases block.spans@.len() - i,
    {
        proof {
            assert(block.spans@.skip(i as int)[0] == block.spans@[i as int]);
            assert(block.spans@.skip(i as int).drop_first() =~= block.spans@.skip(i + 1));
        }
        match block.spans[i].link {
            Some(l) => {
                if l.0 < doc.links.len() {
                    return Some(doc.links[l.0].url.clone());
                }
                return None;
            },
            None => {},
        }
        i = i + 1;
    }
    None
}

} // verus!

verus! {

/// `s` as an unsigned number the way `usize::from_str` reads it: an
/// optional `+`, then at least one decimal digit, with a value that fits.
pub open spec fn parse_usize(s: Seq<char>) -> Option<usize> {
    let d = if s.len() >= 1 && s[0] == '+' { s.drop_first() } else { s };
    if d.len() == 0 {
        None
    } else {
        match digits_value(d, 10) {
            Some(v) => if v <= usize::MAX { Some(v as usize) } else { None },
            None => None,
        }
    }
}

/// The source line a contents-pane link points at: `#line-` and a number.
pub open spec fn contents_line(url: Seq<char>) -> Option<usize> {
    if starts_with(url, "#line-"@) {
        parse_usize(url.skip(6))
    } else {
        None
    }
}

proof fn lemma_digits_bound(d: Seq<char>, v: nat)
    requires
        digits_value(d, 10) == Some(v),
        d.len() > 0,
    ensures
        forall|k: int| 0 < k <= d.len() ==> (#[trigger] digits_value(d.take(k), 10) matches Some(w) && w <= v),
    decreases d.len(),
{
    let dl = d.drop_last();
    assert(d.take(d.len() as int) =~= d);
    if dl.len() > 0 {
        let w = digits_value(dl, 10)->0;
        lemma_digits_bound(dl, w);
        assert forall|k: int| 0 < k <= d.len() implies (#[trigger] digits_value(d.take(k), 10) matches Some(x) && x <= v) by {
            if k < d.len() {
                assert(d.take(k) =~= dl.take(k));
            }
        }
    }
}

/// The source line named by a link of the contents pane, `#line-` and a
/// number.
pub fn line_target(url: &str) -> (r: Option<usize>)
    ensures
        r == contents_line(url@),
{
    let v = chars_of(url);
    let prefix: [char; 6] = ['#', 'l', 'i', 'n', 'e', '-'];
    proof {
        reveal_strlit("#line-");
        assert(prefix@ =~= "#line-"@);
    }
    if v.len() < 6 {
        return None;
    }
    let mut k: usize = 0;
    while k < 6
        invariant
            k <= 6,
            v@.len() >= 6,
            v@ == url@,
            prefix@ == "#line-"@,
            "#line-"@.len() == 6,
            forall|m: int| 0 <= m < k ==> v@[m] == prefix@[m],
        decreases 6 - k,
    {
        if v[k] != prefix[k] {
            proof {
                assert(v@.take(6)[k as int] != "#line-"@[k as int]);
            }
            return None;
        }
        k = k + 1;
    }
    proof {
        assert(v@.take(6) =~= "#line-"@);
    }
    let ghost rest = v@.skip(6);
    let mut i: usize = 6;
    if i < v.len() && v[i] == '+' {
        i = i + 1;
    }
    let ghost d = if rest.len() >= 1 && rest[0] == '+' { rest.drop_first() } else { rest };
    proof {
        assert(d =~= v@.skip(i as int));
    }
    if i >= v.len() {
        return None;
    }
    let mut value: usize = 0;
    let mut j: usize = i;
    while j < v.len()
        invariant
            i <= j <= v@.len(),
            i < v@.len(),
            v@ == url@,
            starts_with(v@, "#line-"@),
            "#line-"@.len() == 6,
            rest == v@.skip(6),
            d == (if rest.len() >= 1 && rest[0] == '+' { rest.drop_first() } else { rest }),
            d == v@.skip(i as int),
            digits_value(v@.subrange(i as int, j as int), 10) == Some(value as nat),
        decreases v@.len() - j,
    {
        proof {
            assert(v@.subrange(i as int, j + 1).drop_last() =~= v@.subrange(i as int, j as int));
            assert(v@.subrange(i as int, j + 1).last() == v@[j as int]);
        }
        let c = v[j];
        if c < '0' || c > '9' {
            proof {
                assert(crate::html::digit_value(c, 10) is None);
                assert(digits_value(v@.subrange(i as int, j + 1), 10) is None);
                assert(d.take(j + 1 - i) =~= v@.subrange(i as int, j + 1));
                if digits_value(d, 10) is Some {
                    lemma_digits_bound(d, digits_value(d, 10)->0);
                }
            }
            return None;
        }
        let dv: usize = ((c as u32) - ('0' as u32)) as usize;
        let next = match value.checked_mul(10) {
            Some(m) => m.checked_add(dv),
            None => None,
        };
        match next {
            Some(n) => {
                value = n;
            },
            None => {
                proof {
                    assert(crate::html::digit_value(c, 10) == Some(dv as nat));
                    assert(digits_value(v@.subrange(i as int, j + 1), 10) == Some((value * 10 + dv) as nat));
                    assert(value * 10 + dv > usize::MAX);
                    assert(d.take(j + 1 - i) =~= v@.subrange(i as int, j + 1));
                    if digits_value(d, 10) is Some {
                        lemma_digits_bound(d, digits_value(d, 10)->0);
                    }
                }
                return None;
            },
        }
        j = j + 1;
    }
    proof {
        assert(v@.subrange(i as int, j as int) =~= d);
    }
    Some(value)
}

/// The last component of a path written with `/`: empty and `.` components
/// are skipped, and a last component of `..` names no file.
pub open spec fn last_part(s: Seq<char>, cur: Seq<char>, last: Option<Seq<char>>) -> Option<Seq<char>>
    decreases s.len(),
{
    if s.len() == 0 {
        if cur.len() == 0 || cur == seq!['.'] { last } else { Some(cur) }
    } else if s[0] == '/' {
        last_part(s.drop_first(), Seq::empty(), if cur.len() == 0 || cur == seq!['.'] { last } else { Some(cur) })
    } else {
        last_part(s.drop_first(), cur.push(s[0]), last)
    }
}

/// `Path::file_name`.
pub open spec fn file_name(p: Seq<char>) -> Option<Seq<char>> {
    match last_part(p, Seq::empty(), None) {
        Some(x) => if x == seq!['.', '.'] { None } else { Some(x) },
        None => None,
    }
}

/// Where the last `.` of `n` is, or -1.
pub open spec fn last_dot(n: Seq<char>) -> int
    decreases n.len(),
{
    if n.len() == 0 {
        -1
    } else if n.last() == '.' {
        n.len() - 1
    } else {
        last_dot(n.drop_last())
    }
}

/// `Path::file_stem` of a file name: everything before the last `.`, unless
/// that dot begins the name.
pub open spec fn stem(n: Seq<char>) -> Seq<char> {
    if last_dot(n) <= 0 { n } else { n.take(last_dot(n)) }
}

/// `Path::extension` of a file name: everything after the last `.`, unless
/// that dot begins the name.
pub open spec fn extension(n: Seq<char>) -> Option<Seq<char>> {
    if last_dot(n) <= 0 { None } else { Some(n.skip(last_dot(n) + 1)) }
}

proof fn lemma_last_dot_range(n: Seq<char>)
    ensures
        -1 <= last_dot(n) < n.len(),
    decreases n.len(),
{
    if n.len() > 0 && n.last() != '.' {
        lemma_last_dot_range(n.drop_last());
    }
}

fn last_dot_of(n: &Vec<char>) -> (r: usize)
    ensures
        last_dot(n@) == -1 || last_dot(n@) >= 0,
        last_dot(n@) == -1 ==> r == n@.len(),
        last_dot(n@) >= 0 ==> r == last_dot(n@) && r < n@.len(),
        r <= n@.len(),
{
    let mut k = n.len();
    proof {
        assert(n@.take(k as int) =~= n@);
        lemma_last_dot_range(n@);
    }
    while k > 0
        invariant
            k <= n@.len(),
            last_dot(n@) == last_dot(n@.take(k as int)),
        decreases k,
    {
        proof {
            assert(n@.take(k as int).drop_last() =~= n@.take(k - 1));
        }
        if n[k - 1] == '.' {
            return k - 1;
        }
        k = k - 1;
    }
    n.len()
}

/// The file name at the end of `p`, if it has one.
pub fn file_name_of(p: &str) -> (r: Option<Vec<char>>)
    ensures
        match r {
            Some(x) => file_name(p@) == Some(x@),
            None => file_name(p@) is None,
        },
{
    let v = chars_of(p);
    let mut cur: Vec<char> = Vec::new();
    let mut last: Option<Vec<char>> = None;
    let mut i: usize = 0;
    proof {
        assert(v@.skip(0) =~= v@);
    }
    while i < v.len()
        invariant
            i <= v@.len(),
            v@ == p@,
            last_part(v@.skip(i as int), cur@, match last { Some(x) => Some(x@), None => None }) == last_part(p@, Seq::empty(), None),
        decreases v@.len() - i,
    {
        proof {
            assert(v@.skip(i as int)[0] == v@[i as int]);
            assert(v@.skip(i as int).drop_first() =~= v@.skip(i + 1));
        }
        if v[i] == '/' {
            let dot = cur.len() == 1 && cur[0] == '.';
            proof {
                assert(dot == (cur@ == seq!['.'])) by {
                    if cur@.len() == 1 {
                        assert(cur@ == seq![cur@[0]]);
                    }
                }
            }
            if cur.len() > 0 && !dot {
                let mut taken: Vec<char> = Vec::new();
                std::mem::swap(&mut taken, &mut cur);
                last = Some(taken);
            } else {
                cur = Vec::new();
            }
        } else {
            cur.push(v[i]);
        }
        i = i + 1;
    }
    proof {
        assert(v@.skip(i as int) =~= Seq::<char>::empty());
    }
    let dot = cur.len() == 1 && cur[0] == '.';
    proof {
        assert(dot == (cur@ == seq!['.'])) by {
            if cur@.len() == 1 {
                assert(cur@ == seq![cur@[0]]);
            }
        }
    }
    let name = if cur.len() > 0 && !dot { Some(cur) } else { last };
    match name {
        Some(x) => {
            if x.len() == 2 && x[0] == '.' && x[1] == '.' {
                proof {
                    assert(x@ =~= seq!['.', '.']);
                }
                None
            } else {
                proof {
                    if x@ == seq!['.', '.'] {
                        assert(x@[0] == '.' && x@[1] == '.');
                    }
                }
                Some(x)
            }
        },
        None => None,
    }
}

} // verus!

verus! {

/// The whitespace-separated words of `s`, after the words `acc` already
/// found and the word `cur` being read.
pub open spec fn words_from(s: Seq<char>, cur: Seq<char>, acc: Seq<Seq<char>>) -> Seq<Seq<char>>
    decreases s.len(),
{
    if s.len() == 0 {
        if cur.len() > 0 { acc.push(cur) } else { acc }
    } else if is_ws(s[0]) {
        words_from(s.drop_first(), Seq::empty(), if cur.len() > 0 { acc.push(cur) } else { acc })
    } else {
        words_from(s.drop_first(), cur.push(s[0]), acc)
    }
}

/// `str::split_whitespace`.
pub open spec fn words(s: Seq<char>) -> Seq<Seq<char>> {
    words_from(s, Seq::empty(), Seq::empty())
}

/// The name an editor is known by: the stem of the program's file name,
/// lowercased.
pub open spec fn editor_key(program: Seq<char>) -> Seq<char> {
    lower_seq(
        match file_name(program) {
            Some(n) => stem(n),
            None => program,
        },
    )
}

/// Editors that take the line as `+N` before the file.
pub open spec fn plus_line(k: Seq<char>) -> bool {
    k == "vi"@ || k == "vim"@ || k == "nvim"@ || k == "view"@ || k == "nano"@ || k == "pico"@ || k == "micro"@
        || k == "kak"@ || k == "joe"@ || k == "emacs"@ || k == "emacsclient"@
}

/// Editors that take the line as a `:N` suffix on the file.
pub open spec fn colon_line(k: Seq<char>) -> bool {
    k == "hx"@ || k == "helix"@ || k == "subl"@ || k == "sublime_text"@
}

/// Editors that need `-g` before a `file:N` argument.
pub open spec fn goto_line(k: Seq<char>) -> bool {
    k == "code"@ || k == "code-insiders"@ || k == "codium"@ || k == "cursor"@
}

/// What follows the editor's own arguments: the file, with the line asked
/// for in the editor's own way.
pub open spec fn editor_tail(k: Seq<char>, path: Seq<char>, line: usize) -> Seq<Seq<char>> {
    if plus_line(k) {
        seq!["+"@ + dec(line as nat), path]
    } else if colon_line(k) {
        seq![path + ":"@ + dec(line as nat)]
    } else if goto_line(k) {
        seq!["-g"@, path + ":"@ + dec(line as nat)]
    } else {
        seq![path]
    }
}

/// The command line that opens `path` at `line` with the editor `spec`
/// names: its words, then the file.
pub open spec fn editor_argv(spec: Seq<char>, path: Seq<char>, line: usize) -> Option<Seq<Seq<char>>> {
    let ws = words(spec);
    if ws.len() == 0 {
        None
    } else {
        Some(ws + editor_tail(editor_key(ws[0]), path, line))
    }
}

/// Strings as character sequences.
pub open spec fn strs_v(v: Seq<String>) -> Seq<Seq<char>> {
    v.map_values(|x: String| x@)
}

fn split_words(s: &str) -> (r: Vec<String>)
    ensures
        strs_v(r@) == words(s@),
{
    let v = chars_of(s);
    let mut out: Vec<String> = Vec::new();
    let mut cur = String::new();
    let mut i: usize = 0;
    proof {
        assert(v@.skip(0) =~= v@);
        assert(strs_v(out@) =~= Seq::<Seq<char>>::empty());
    }
    while i < v.len()
        invariant
            i <= v@.len(),
            v@ == s@,
            words_from(v@.skip(i as int), cur@, strs_v(out@)) == words(s@),
        decreases v@.len() - i,
    {
        proof {
            assert(v@.skip(i as int)[0] == v@[i as int]);
            assert(v@.skip(i as int).drop_first() =~= v@.skip(i + 1));
        }
        if is_whitespace(v[i]) {
            if !cur.as_str().is_empty() {
                let mut taken = String::new();
                std::mem::swap(&mut taken, &mut cur);
                proof {
                    assert(strs_v(out@.push(taken)) =~= strs_v(out@).push(taken@));
                }
                out.push(taken);
            }
            proof {
                assert(cur@ =~= Seq::<char>::empty());
            }
        } else {
            push_char(&mut cur, v[i]);
        }
        i = i + 1;
    }
    proof {
        assert(v@.skip(i as int) =~= Seq::<char>::empty());
    }
    if !cur.as_str().is_empty() {
        proof {
            assert(strs_v(out@.push(cur)) =~= strs_v(out@).push(cur@));
        }
        out.push(cur);
    }
    out
}

fn key_of(program: &str) -> (r: String)
    ensures
        r@ == editor_key(program@),
{
    let ghost mut expect: Seq<char> = program@;
    let base: Vec<char> = match file_name_of(program) {
        Some(n) => {
            proof {
                expect = stem(n@);
            }
            let d = last_dot_of(&n);
            if d == 0 || d == n.len() {
                n
            } else {
                let mut t: Vec<char> = Vec::new();
                let mut k: usize = 0;
                while k < d
                    invariant
                        k <= d < n@.len(),
                        t@ == n@.take(k as int),
                    decreases d - k,
                {
                    t.push(n[k]);
                    proof {
                        assert(n@.take(k + 1) =~= n@.take(k as int).push(n@[k as int]));
                    }
                    k = k + 1;
                }
                t
            }
        },
        None => chars_of(program),
    };
    proof {
        assert(base@ == expect);
        assert(expect == (match file_name(program@) { Some(n) => stem(n), None => program@ }));
    }
    let mut out = String::new();
    let mut k: usize = 0;
    while k < base.len()
        invariant
            k <= base@.len(),
            out@ == lower_seq(base@.take(k as int)),
        decreases base@.len() - k,
    {
        push_char(&mut out, lower_char(base[k]));
        proof {
            assert(lower_seq(base@.take(k + 1)) =~= lower_seq(base@.take(k as int)).push(crate::text::lower(base@[k as int])));
        }
        k = k + 1;
    }
    proof {
        assert(base@.take(k as int) =~= base@);
    }
    out
}

fn with_line(path: &str, sep: &str, line: usize) -> (r: String)
    ensures
        r@ == path@ + sep@ + dec(line as nat),
{
    let mut out = String::new();
    push_str(&mut out, path);
    push_str(&mut out, sep);
    push_decimal(&mut out, line);
    proof {
        assert(Seq::<char>::empty() + path@ + sep@ + dec(line as nat) =~= path@ + sep@ + dec(line as nat));
    }
    out
}

/// The command line that opens `path` at `line` in the editor `spec` names
/// (`$VISUAL` or `$EDITOR`, which may carry arguments of their own): `None`
/// when `spec` names no program.
pub fn editor_command(spec: &str, path: &str, line: usize) -> (r: Option<Vec<String>>)
    ensures
        match r {
            Some(argv) => editor_argv(spec@, path@, line) == Some(strs_v(argv@)),
            None => editor_argv(spec@, path@, line) is None,
        },
{
    let mut argv = split_words(spec);
    if argv.len() == 0 {
        return None;
    }
    let k = key_of(argv[0].as_str());
    let ks = k.as_str();
    let plus = str_eq(ks, "vi") || str_eq(ks, "vim") || str_eq(ks, "nvim") || str_eq(ks, "view") || str_eq(ks, "nano")
        || str_eq(ks, "pico") || str_eq(ks, "micro") || str_eq(ks, "kak") || str_eq(ks, "joe") || str_eq(ks, "emacs")
        || str_eq(ks, "emacsclient");
    let colon = str_eq(ks, "hx") || str_eq(ks, "helix") || str_eq(ks, "subl") || str_eq(ks, "sublime_text");
    let goto = str_eq(ks, "code") || str_eq(ks, "code-insiders") || str_eq(ks, "codium") || str_eq(ks, "cursor");
    let ghost ws = strs_v(argv@);
    let ghost tail = editor_tail(k@, path@, line);
    if plus {
        let a = with_line("", "+", line);
        argv.push(a);
        argv.push(path.to_owned());
        proof {
            assert(""@ + "+"@ + dec(line as nat) =~= "+"@ + dec(line as nat)) by {
                reveal_strlit("");
            }
            assert(strs_v(argv@) =~= ws + tail);
        }
    } else if colon {
        argv.push(with_line(path, ":", line));
        proof {
            assert(strs_v(argv@) =~= ws + tail);
        }
    } else if goto {
        argv.push("-g".to_owned());
        argv.push(with_line(path, ":", line));
        proof {
            assert(strs_v(argv@) =~= ws + tail);
        }
    } else {
        argv.push(path.to_owned());
        proof {
            assert(strs_v(argv@) =~= ws + tail);
        }
    }
    Some(argv)
}

/// Whether a file name is a Markdown file: its extension, in any case, is
/// `md`, `markdown` or `mdown`.
pub open spec fn is_markdown_name(n: Seq<char>) -> bool {
    match file_name(n) {
        Some(f) => match extension(f) {
            Some(e) => lower_seq(e) == "md"@ || lower_seq(e) == "markdown"@ || lower_seq(e) == "mdown"@,
            None => false,
        },
        None => false,
    }
}

/// Whether `name` names a Markdown file.
pub fn is_markdown(name: &str) -> (r: bool)
    ensures
        r == is_markdown_name(name@),
{
    match file_name_of(name) {
        None => false,
        Some(f) => {
            let d = last_dot_of(&f);
            if d == 0 || d == f.len() {
                proof {
                    assert(extension(f@) is None);
                }
                return false;
            }
            let mut e = String::new();
            let mut k: usize = d + 1;
            while k < f.len()
                invariant
                    d + 1 <= k <= f@.len(),
                    e@ == lower_seq(f@.subrange(d + 1, k as int)),
                decreases f@.len() - k,
            {
                push_char(&mut e, lower_char(f[k]));
                proof {
                    assert(lower_seq(f@.subrange(d + 1, k + 1)) =~= lower_seq(f@.subrange(d + 1, k as int)).push(crate::text::lower(f@[k as int])));
                }
                k = k + 1;
            }
            proof {
                assert(f@.subrange(d + 1, k as int) =~= f@.skip(d + 1));
            }
            let es = e.as_str();
            str_eq(es, "md") || str_eq(es, "markdown") || str_eq(es, "mdown")
        },
    }
}

/// The Markdown files among `names`, in order.
pub open spec fn markdown_names(names: Seq<Seq<char>>) -> Seq<Seq<char>>
    decreases names.len(),
{
    if names.len() == 0 {
        Seq::empty()
    } else if is_markdown_name(names.last()) {
        markdown_names(names.drop_last()).push(names.last())
    } else {
        markdown_names(names.drop_last())
    }
}

/// The list entries for the files, one link each.
pub open spec fn file_links(names: Seq<Seq<char>>) -> Seq<char>
    decreases names.len(),
{
    if names.len() == 0 {
        Seq::empty()
    } else {
        file_links(names.drop_last()) + "- ["@ + names.last() + "]("@ + names.last() + ")\n"@
    }
}

/// The page shown when the viewer is started without a file: a heading
/// naming the directory, then a link to every Markdown file in it, or a
/// note that there are none.
pub open spec fn browser_page(dir: Seq<char>, names: Seq<Seq<char>>) -> Seq<char> {
    let md = markdown_names(names);
    "# "@ + dir + "\n\n"@ + if md.len() == 0 {
        "No Markdown files here.\n\nPress `q` to quit.\n"@
    } else {
        "Move with `Tab`, open with `o` or `Enter`. `F` labels every link.\n\n"@ + file_links(md)
    }
}

/// A synthetic document listing the Markdown files of directory `dir`,
/// whose entries, in the order to list them, are `names`.
pub fn browser_markdown(dir: &str, names: &Vec<String>) -> (r: String)
    ensures
        r@ == browser_page(dir@, strs_v(names@)),
{
    let ghost all = strs_v(names@);
    let mut files: Vec<String> = Vec::new();
    let mut i: usize = 0;
    while i < names.len()
        invariant
            i <= names@.len(),
            all == strs_v(names@),
            strs_v(files@) == markdown_names(all.take(i as int)),
        decreases names@.len() - i,
    {
        proof {
            assert(all.take(i + 1).drop_last() =~= all.take(i as int));
            assert(all.take(i + 1).last() == names@[i as int]@);
        }
        if is_markdown(names[i].as_str()) {
            let f = names[i].clone();
            proof {
                assert(strs_v(files@.push(f)) =~= strs_v(files@).push(f@));
            }
            files.push(f);
        }
        i = i + 1;
    }
    proof {
        assert(all.take(i as int) =~= all);
    }
    let mut out = String::new();
    push_str(&mut out, "# ");
    push_str(&mut out, dir);
    push_str(&mut out, "\n\n");
    let ghost head = out@;
    if files.len() == 0 {
        push_str(&mut out, "No Markdown files here.\n\nPress `q` to quit.\n");
        proof {
            assert(out@ =~= browser_page(dir@, all));
        }
        return out;
    }
    push_str(&mut out, "Move with `Tab`, open with `o` or `Enter`. `F` labels every link.\n\n");
    let ghost md = strs_v(files@);
    let ghost intro = out@;
    let mut k: usize = 0;
    proof {
        assert(out@ =~= intro + file_links(md.take(0)));
    }
    while k < files.len()
        invariant
            k <= files@.len(),
            md == strs_v(files@),
            out@ == intro + file_links(md.take(k as int)),
        decreases files@.len() - k,
    {
        proof {
            assert(md.take(k + 1).drop_last() =~= md.take(k as int));
            assert(md.take(k + 1).last() == files@[k as int]@);
        }
        push_str(&mut out, "- [");
        push_str(&mut out, files[k].as_str());
        push_str(&mut out, "](");
        push_str(&mut out, files[k].as_str());
        push_str(&mut out, ")\n");
        proof {
            assert(out@ =~= intro + file_links(md.take(k + 1)));
        }
        k = k + 1;
    }
    proof {
        assert(md.take(k as int) =~= md);
        assert(out@ =~= browser_page(dir@, all));
    }
    out
}

} // verus!
