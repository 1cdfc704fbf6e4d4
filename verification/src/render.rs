//! Colour arithmetic for the renderer, and finding what was drawn where.

use vstd::prelude::*;
use crate::ir::{Color, Hit, HitTarget, Rect, Span, Style, Line, LinkId, Scale, span_v, spans_v, spans_chars, patched};
use crate::width::{WidthCalc, min_usize, spaces};
use crate::wrap::{columns, slice_spans_columns};
use crate::layout::extend_spans;
use crate::text::{push_spaces, byte_len, utf8_len, len_utf8};
use crate::bigtext::{HeadingDecor, Run};
use crate::theme::{Theme, Decoration};
use crate::wrap::SpanV;
use crate::text::{chars_of, push_char};


verus! {

/// `|a - b|`.
pub open spec fn dist(a: u8, b: u8) -> int {
    if a >= b {
        a - b
    } else {
        b - a
    }
}

/// Whether the three channels are within 8 of one another: a near-neutral
/// color, for which the palette's gray ramp is denser than its color cube.
pub open spec fn grayish(r: u8, g: u8, b: u8) -> bool {
    dist(r, g) < 8 && dist(g, b) < 8 && dist(r, b) < 8
}

/// The step of the 6x6x6 cube (levels 0, 95, 135, 175, 215, 255) nearest
/// to `v`; halfway between two levels counts as the lower one.
pub open spec fn cube_step(v: u8) -> int {
    if v <= 47 {
        0
    } else if v <= 115 {
        1
    } else if v <= 155 {
        2
    } else if v <= 195 {
        3
    } else if v <= 235 {
        4
    } else {
        5
    }
}

/// The 256-color palette entry nearest to an RGB color: a near-neutral
/// color goes to black, white, or the 24-step gray ramp by its mean level;
/// anything else to the nearest entry of the color cube.
pub open spec fn ansi256(r: u8, g: u8, b: u8) -> int {
    if grayish(r, g, b) {
        let level = (r + g + b) / 3;
        if level < 8 {
            16
        } else if level > 248 {
            231
        } else {
            232 + (level - 8) * 24 / 240
        }
    } else {
        16 + 36 * cube_step(r) + 6 * cube_step(g) + cube_step(b)
    }
}

fn abs_diff(a: u8, b: u8) -> (r: u8)
    ensures
        r == dist(a, b),
{
    if a >= b {
        a - b
    } else {
        b - a
    }
}

/// The nearest cube step, trying the levels in order and keeping the first
/// of equally near ones.
fn quantize(v: u8) -> (r: u8)
    ensures
        r == cube_step(v),
{
    let mut best: u8 = 0;
    let mut best_delta: u8 = abs_diff(v, 0);
    let d = abs_diff(v, 95);
    if d < best_delta {
        best = 1;
        best_delta = d;
    }
    let d = abs_diff(v, 135);
    if d < best_delta {
        best = 2;
        best_delta = d;
    }
    let d = abs_diff(v, 175);
    if d < best_delta {
        best = 3;
        best_delta = d;
    }
    let d = abs_diff(v, 215);
    if d < best_delta {
        best = 4;
        best_delta = d;
    }
    let d = abs_diff(v, 255);
    if d < best_delta {
        best = 5;
    }
    best
}

/// Downgrades an RGB color to the nearest entry of the 256-color palette,
/// for terminals without 24-bit color.
pub fn rgb_to_ansi256(r: u8, g: u8, b: u8) -> (res: u8)
    requires
        !(grayish(r, g, b) && (r + g + b) / 3 == 248),
    ensures
        res == ansi256(r, g, b),
{
    if abs_diff(r, g) < 8 && abs_diff(g, b) < 8 && abs_diff(r, b) < 8 {
        let level: u16 = (r as u16 + g as u16 + b as u16) / 3;
        if level < 8 {
            return 16;
        }
        if level > 248 {
            return 231;
        }
        let step: u16 = (level - 8) * 24 / 240;
        assert(step <= 23) by (nonlinear_arith)
            requires
                8 <= level <= 247,
                step == (level - 8) * 24 / 240,
        ;
        return 232 + step as u8;
    }
    let q = 16 + 36 * (quantize(r) as u16) + 6 * (quantize(g) as u16) + quantize(b) as u16;
    q as u8
}

/// The RGB triple of a color given as one.
pub open spec fn rgb_parts(c: Color) -> Option<(u8, u8, u8)> {
    match c {
        Color::Rgb { r, g, b } => Some((r, g, b)),
        _ => None,
    }
}

pub fn rgb_of(color: Color) -> (r: Option<(u8, u8, u8)>)
    ensures
        r == rgb_parts(color),
{
    match color {
        Color::Rgb { r, g, b } => Some((r, g, b)),
        _ => None,
    }
}

/// A channel scaled to 55%, rounding down.
pub open spec fn dim_channel(c: u8) -> int {
    c * 55 / 100
}

/// Dims a color towards black, for a decoration that has none of its own.
pub fn dimmed(color: (u8, u8, u8)) -> (r: (u8, u8, u8))
    ensures
        r.0 == dim_channel(color.0),
        r.1 == dim_channel(color.1),
        r.2 == dim_channel(color.2),
{
    (scale55(color.0), scale55(color.1), scale55(color.2))
}

fn scale55(c: u8) -> (r: u8)
    ensures
        r == dim_channel(c),
{
    let v: u16 = (c as u16 * 55) / 100;
    assert(v <= 255) by (nonlinear_arith)
        requires
            c <= 255,
            v == (c as u16 * 55) / 100,
    ;
    v as u8
}

/// The hit rectangles of a drawn frame.
#[derive(Debug, Clone, Default)]
pub struct Placement {
    pub hits: Vec<Hit>,
}

/// The target of the first hit whose rectangle holds the cell `(x, y)`.
pub open spec fn first_hit(hits: Seq<Hit>, x: u16, y: u16) -> Option<HitTarget>
    decreases hits.len(),
{
    if hits.len() == 0 {
        None
    } else if hits[0].rect.holds(x, y) {
        Some(hits[0].target)
    } else {
        first_hit(hits.drop_first(), x, y)
    }
}

impl Placement {
    /// What is under the cell `(x, y)`: the first hit rectangle holding it.
    pub fn target_at(&self, x: u16, y: u16) -> (r: Option<HitTarget>)
        ensures
            r == first_hit(self.hits@, x, y),
    {
        let mut i: usize = 0;
        proof {
            assert(self.hits@.skip(0) =~= self.hits@);
        }
        while i < self.hits.len()
            invariant
                i <= self.hits@.len(),
                first_hit(self.hits@, x, y) == first_hit(self.hits@.skip(i as int), x, y),
            decreases self.hits.len() - i,
        {
            proof {
                assert(self.hits@.skip(i as int)[0] == self.hits@[i as int]);
                assert(self.hits@.skip(i as int).drop_first() =~= self.hits@.skip(i + 1));
            }
            if self.hits[i].rect.contains(x, y) {
                return Some(self.hits[i].target);
            }
            i = i + 1;
        }
        proof {
            assert(self.hits@.skip(i as int) =~= Seq::<Hit>::empty());
        }
        None
    }
}

} // verus!

verus! {

/// A styled run to highlight inside a rendered row, in display columns.
#[derive(Debug, Clone, Copy)]
pub struct Highlight {
    pub line: usize,
    pub start: usize,
    pub end: usize,
    pub style: Style,
}

/// Text painted over a row, replacing whatever is underneath. The link
/// picker stamps a label onto each link this way.
#[derive(Debug, Clone)]
pub struct Overlay {
    pub line: usize,
    pub col: usize,
    pub text: String,
    pub style: Style,
}

/// What is painted over the rows of a frame besides their own styles.
#[derive(Debug, Clone)]
pub struct Decor {
    /// Highlight every row belonging to this block.
    pub cursor_block: Option<usize>,
    /// Highlight this inclusive range of layout rows.
    pub selection: Option<(usize, usize)>,
    pub cursor_style: Style,
    pub highlights: Vec<Highlight>,
    pub overlays: Vec<Overlay>,
}

/// A piece of `span` holding `text`, restyled when `highlighted`.
pub open spec fn run_v(span: SpanV, text: Seq<char>, highlighted: bool, style: Style) -> SpanV {
    (text, if highlighted { patched(span.1, style) } else { span.1 }, span.2)
}

proof fn lemma_spans_v_push(v: Seq<Span>, x: Span)
    ensures
        spans_v(v.push(x)) == spans_v(v).push(span_v(x)),
{
    assert(spans_v(v.push(x)) =~= spans_v(v).push(span_v(x)));
}

/// Appends a piece of `span` holding `text`, unless `text` is empty.
fn push_run(out: &mut Vec<Span>, span: &Span, text: String, highlighted: bool, style: Style)
    ensures
        spans_v(final(out)@) == (if text@.len() == 0 {
            spans_v(old(out)@)
        } else {
            spans_v(old(out)@).push(run_v(span_v(*span), text@, highlighted, style))
        }),
{
    if text.as_str().is_empty() {
        return;
    }
    let piece = Span {
        text,
        style: if highlighted { span.style.patch(style) } else { span.style },
        link: span.link,
    };
    proof {
        lemma_spans_v_push(out@, piece);
    }
    out.push(piece);
}

/// Whether display column `col` lies in `[start, end)`.
pub open spec fn inside(col: nat, start: usize, end: usize) -> bool {
    start <= col && col < end
}

/// The column after a character `c` placed at `col`, saturating.
pub open spec fn step(calc: WidthCalc, col: nat, c: char) -> nat {
    min_usize(col + calc.col(c))
}

/// The column reached after walking `t` from `col`.
pub open spec fn walked(calc: WidthCalc, t: Seq<char>, col: nat) -> nat
    decreases t.len(),
{
    if t.len() == 0 {
        col
    } else {
        walked(calc, t.drop_first(), step(calc, col, t[0]))
    }
}

/// The characters of `t`, the first at column `col`, grouped into maximal
/// runs lying wholly inside or wholly outside `[start, end)`: the runs
/// `acc` already finished, then the one `cur` being built, then the rest.
pub open spec fn runs_from(
    calc: WidthCalc,
    t: Seq<char>,
    col: nat,
    start: usize,
    end: usize,
    cur: Option<(bool, Seq<char>)>,
    acc: Seq<(Seq<char>, bool)>,
) -> Seq<(Seq<char>, bool)>
    decreases t.len(),
{
    if t.len() == 0 {
        match cur {
            Some(p) => acc.push((p.1, p.0)),
            None => acc,
        }
    } else {
        let f = inside(col, start, end);
        let next = step(calc, col, t[0]);
        match cur {
            Some(p) => if p.0 == f {
                runs_from(calc, t.drop_first(), next, start, end, Some((f, p.1.push(t[0]))), acc)
            } else {
                runs_from(calc, t.drop_first(), next, start, end, Some((f, seq![t[0]])), acc.push((p.1, p.0)))
            },
            None => runs_from(calc, t.drop_first(), next, start, end, Some((f, seq![t[0]])), acc),
        }
    }
}

/// The runs of one span, each restyled when it lies inside the range.
pub open spec fn span_runs(calc: WidthCalc, s: SpanV, col: nat, start: usize, end: usize, style: Style) -> Seq<SpanV> {
    runs_from(calc, s.0, col, start, end, None, Seq::empty()).map_values(
        |r: (Seq<char>, bool)| run_v(s, r.0, r.1, style),
    )
}

/// A row with the display columns `[start, end)` restyled, its first span
/// beginning at column `col`: each span is cut where the range begins and
/// ends, and the pieces inside are patched with `style`.
pub open spec fn ranged(calc: WidthCalc, sv: Seq<SpanV>, col: nat, start: usize, end: usize, style: Style) -> Seq<SpanV>
    decreases sv.len(),
{
    if sv.len() == 0 {
        Seq::empty()
    } else {
        span_runs(calc, sv[0], col, start, end, style) + ranged(
            calc,
            sv.drop_first(),
            walked(calc, sv[0].0, col),
            start,
            end,
            style,
        )
    }
}

/// Restyles the display-column range `[start, end)` of a row.
pub fn apply_range(spans: &[Span], start: usize, end: usize, style: Style, calc: &WidthCalc) -> (r: Vec<Span>)
    ensures
        spans_v(r@) == ranged(*calc, spans_v(spans@), 0, start, end, style),
{
    let ghost sv = spans_v(spans@);
    let mut out: Vec<Span> = Vec::new();
    let mut col: usize = 0;
    let mut i: usize = 0;
    proof {
        assert(sv.skip(0) =~= sv);
        assert(spans_v(out@) =~= Seq::<SpanV>::empty());
    }
    while i < spans.len()
        invariant
            i <= spans@.len(),
            sv == spans_v(spans@),
            spans_v(out@) + ranged(*calc, sv.skip(i as int), col as nat, start, end, style)
                == ranged(*calc, sv, 0, start, end, style),
        decreases spans@.len() - i,
    {
        let span = &spans[i];
        let t = chars_of(span.text.as_str());
        let ghost col0 = col as nat;
        let ghost before = spans_v(out@);
        let ghost sp = span_v(*span);
        let mut has_cur = false;
        let mut cur_flag = false;
        let mut cur_text = String::new();
        let ghost mut acc: Seq<(Seq<char>, bool)> = Seq::empty();
        let mut k: usize = 0;
        proof {
            assert(sv.skip(i as int)[0] == sp);
            assert(t@.skip(0) =~= t@);
        }
        while k < t.len()
            invariant
                k <= t@.len(),
                t@ == sp.0,
                sp == span_v(*span),
                spans_v(out@) == before + acc.map_values(|r: (Seq<char>, bool)| run_v(sp, r.0, r.1, style)),
                forall|j: int| 0 <= j < acc.len() ==> (#[trigger] acc[j]).0.len() > 0,
                has_cur ==> cur_text@.len() > 0,
                runs_from(*calc, t@.skip(k as int), col as nat, start, end,
                    if has_cur { Some((cur_flag, cur_text@)) } else { None }, acc)
                    == runs_from(*calc, sp.0, col0, start, end, None, Seq::empty()),
                walked(*calc, t@.skip(k as int), col as nat) == walked(*calc, sp.0, col0),
            decreases t@.len() - k,
        {
            let c = t[k];
            let w = calc.ch(c);
            let f = start <= col && col < end;
            proof {
                assert(t@.skip(k as int)[0] == c);
                assert(t@.skip(k as int).drop_first() =~= t@.skip(k + 1));
            }
            if has_cur && cur_flag == f {
                push_char(&mut cur_text, c);
            } else {
                if has_cur {
                    let ghost done = (cur_text@, cur_flag);
                    let mut finished = String::new();
                    std::mem::swap(&mut finished, &mut cur_text);
                    push_run(&mut out, span, finished, cur_flag, style);
                    proof {
                        assert(acc.push(done).map_values(|r: (Seq<char>, bool)| run_v(sp, r.0, r.1, style))
                            =~= acc.map_values(|r: (Seq<char>, bool)| run_v(sp, r.0, r.1, style)).push(run_v(sp, done.0, done.1, style)));
                        acc = acc.push(done);
                    }
                }
                cur_text = String::new();
                push_char(&mut cur_text, c);
                cur_flag = f;
                has_cur = true;
            }
            col = col.saturating_add(w);
            k = k + 1;
        }
        if has_cur {
            let ghost done = (cur_text@, cur_flag);
            push_run(&mut out, span, cur_text, cur_flag, style);
            proof {
                assert(acc.push(done).map_values(|r: (Seq<char>, bool)| run_v(sp, r.0, r.1, style))
                    =~= acc.map_values(|r: (Seq<char>, bool)| run_v(sp, r.0, r.1, style)).push(run_v(sp, done.0, done.1, style)));
                acc = acc.push(done);
            }
        }
        proof {
            assert(t@.skip(k as int) =~= Seq::<char>::empty());
            assert(acc == runs_from(*calc, sp.0, col0, start, end, None, Seq::empty()));
            assert(col as nat == walked(*calc, sp.0, col0));
            assert(sv.skip(i as int).drop_first() =~= sv.skip(i + 1));
            assert(spans_v(out@) == before + span_runs(*calc, sp, col0, start, end, style));
        }
        i = i + 1;
    }
    proof {
        assert(sv.skip(i as int) =~= Seq::<SpanV>::empty());
        assert(spans_v(out@) + Seq::<SpanV>::empty() =~= spans_v(out@));
    }
    out
}

} // verus!

verus! {

/// The row `sv` with `o.text` painted over it from column `o.col`: what lies
/// before is kept (padded with spaces up to the column when the row is
/// shorter), then the overlay, then whatever of the row lies past it. A row
/// too wide to measure is left as it is.
pub open spec fn stamped(calc: WidthCalc, sv: Seq<SpanV>, o: Overlay) -> Seq<SpanV> {
    let total = min_usize(calc.cols(spans_chars(sv)));
    if total == usize::MAX {
        sv
    } else {
        let before = columns(calc, sv, 0, o.col);
        let used = min_usize(calc.cols(spans_chars(before)));
        let head = if used < o.col {
            before.push((spaces((o.col - used) as nat), Style::plain_spec(), None::<LinkId>))
        } else {
            before
        };
        let mid = head.push((o.text@, o.style, None::<LinkId>));
        let tail_start = min_usize((o.col + min_usize(calc.cols(o.text@))) as nat);
        if tail_start < total {
            mid + columns(calc, sv, tail_start as usize, (total - tail_start) as usize)
        } else {
            mid
        }
    }
}

/// The columns a run of spans occupies, saturating.
fn row_width(spans: &[Span], calc: &WidthCalc) -> (r: usize)
    ensures
        r == min_usize(calc.cols(spans_chars(spans_v(spans@)))),
{
    let t = crate::ir::concat_spans(spans);
    calc.str(t.as_str())
}

/// Paints `overlay.text` over the row, starting at a display column.
pub fn stamp(spans: &[Span], overlay: &Overlay, calc: &WidthCalc) -> (r: Vec<Span>)
    ensures
        spans_v(r@) == stamped(*calc, spans_v(spans@), *overlay),
{
    let total = row_width(spans, calc);
    if total == usize::MAX {
        let mut out: Vec<Span> = Vec::new();
        let mut i: usize = 0;
        while i < spans.len()
            invariant
                i <= spans@.len(),
                spans_v(out@) =~= spans_v(spans@).take(i as int),
            decreases spans@.len() - i,
        {
            let piece = crate::layout::copy_span(&spans[i]);
            proof {
                lemma_spans_v_push(out@, piece);
            }
            out.push(piece);
            i = i + 1;
        }
        proof {
            assert(spans_v(spans@).take(i as int) =~= spans_v(spans@));
        }
        return out;
    }
    let width = calc.str(overlay.text.as_str());
    let mut out = slice_spans_columns(spans, 0, overlay.col, calc);
    let used = row_width(out.as_slice(), calc);
    if used < overlay.col {
        let mut pad = String::new();
        push_spaces(&mut pad, overlay.col - used);
        let piece = Span::plain(pad.as_str());
        proof {
            lemma_spans_v_push(out@, piece);
        }
        out.push(piece);
    }
    let label = Span { text: overlay.text.clone(), style: overlay.style, link: None };
    proof {
        lemma_spans_v_push(out@, label);
    }
    out.push(label);
    let tail_start = overlay.col.saturating_add(width);
    if tail_start < total {
        let tail = slice_spans_columns(spans, tail_start, total - tail_start, calc);
        extend_spans(&mut out, &tail);
    }
    out
}

/// Whether row `idx` lies in the inclusive range of the selection.
pub open spec fn in_selection(sel: Option<(usize, usize)>, idx: usize) -> bool {
    match sel {
        Some(p) => (if p.0 <= p.1 { p.0 } else { p.1 }) <= idx && idx <= (if p.0 <= p.1 { p.1 } else { p.0 }),
        None => false,
    }
}

/// Every span of a row with `style` patched over its own.
pub open spec fn patched_all(sv: Seq<SpanV>, style: Style) -> Seq<SpanV> {
    Seq::new(sv.len(), |k: int| (sv[k].0, patched(sv[k].1, style), sv[k].2))
}

/// The row after each highlight on row `idx`, in order, has restyled its range.
pub open spec fn highlighted(calc: WidthCalc, sv: Seq<SpanV>, hs: Seq<Highlight>, idx: usize) -> Seq<SpanV>
    decreases hs.len(),
{
    if hs.len() == 0 {
        sv
    } else {
        highlighted(
            calc,
            if hs[0].line == idx { ranged(calc, sv, 0, hs[0].start, hs[0].end, hs[0].style) } else { sv },
            hs.drop_first(),
            idx,
        )
    }
}

/// The row after each overlay on row `idx`, in order, has been stamped on it.
pub open spec fn overlaid(calc: WidthCalc, sv: Seq<SpanV>, os: Seq<Overlay>, idx: usize) -> Seq<SpanV>
    decreases os.len(),
{
    if os.len() == 0 {
        sv
    } else {
        overlaid(calc, if os[0].line == idx { stamped(calc, sv, os[0]) } else { sv }, os.drop_first(), idx)
    }
}

/// Row `idx` (a row of block `block`) as drawn: the cursor style over every
/// span when the block has the cursor or the row is selected, then the
/// search highlights, then the overlays.
pub open spec fn decorated(calc: WidthCalc, decor: Decor, idx: usize, block: usize, sv: Seq<SpanV>) -> Seq<SpanV> {
    let base = if decor.cursor_block == Some(block) || in_selection(decor.selection, idx) {
        patched_all(sv, decor.cursor_style)
    } else {
        sv
    };
    overlaid(calc, highlighted(calc, base, decor.highlights@, idx), decor.overlays@, idx)
}

/// Applies the block cursor, the selection, the search highlights and the
/// overlays to row `idx`.
pub fn decorate(decor: &Decor, idx: usize, line: &Line, calc: &WidthCalc) -> (r: Vec<Span>)
    ensures
        spans_v(r@) == decorated(*calc, *decor, idx, line.block, spans_v(line.spans@)),
{
    let in_cursor = match decor.cursor_block {
        Some(b) => b == line.block,
        None => false,
    };
    let in_sel = match decor.selection {
        Some((a, b)) => {
            let lo = if a <= b { a } else { b };
            let hi = if a <= b { b } else { a };
            idx >= lo && idx <= hi
        },
        None => false,
    };
    let mut spans: Vec<Span> = Vec::new();
    let mut i: usize = 0;
    let ghost sv = spans_v(line.spans@);
    while i < line.spans.len()
        invariant
            i <= line.spans@.len(),
            sv == spans_v(line.spans@),
            spans_v(spans@) =~= (if in_cursor || in_sel { patched_all(sv, decor.cursor_style) } else { sv }).take(i as int),
        decreases line.spans@.len() - i,
    {
        let s = &line.spans[i];
        let piece = Span {
            text: s.text.clone(),
            style: if in_cursor || in_sel { s.style.patch(decor.cursor_style) } else { s.style },
            link: s.link,
        };
        proof {
            lemma_spans_v_push(spans@, piece);
        }
        spans.push(piece);
        i = i + 1;
    }
    let ghost base = if in_cursor || in_sel { patched_all(sv, decor.cursor_style) } else { sv };
    proof {
        assert(base.take(i as int) =~= base);
        assert(decor.highlights@.skip(0) =~= decor.highlights@);
    }
    let mut j: usize = 0;
    while j < decor.highlights.len()
        invariant
            j <= decor.highlights@.len(),
            highlighted(*calc, spans_v(spans@), decor.highlights@.skip(j as int), idx)
                == highlighted(*calc, base, decor.highlights@, idx),
        decreases decor.highlights@.len() - j,
    {
        let h = decor.highlights[j];
        proof {
            assert(decor.highlights@.skip(j as int)[0] == h);
            assert(decor.highlights@.skip(j as int).drop_first() =~= decor.highlights@.skip(j + 1));
        }
        if h.line == idx {
            spans = apply_range(spans.as_slice(), h.start, h.end, h.style, calc);
        }
        j = j + 1;
    }
    let ghost lit = highlighted(*calc, base, decor.highlights@, idx);
    proof {
        assert(decor.highlights@.skip(j as int) =~= Seq::<Highlight>::empty());
        assert(decor.overlays@.skip(0) =~= decor.overlays@);
    }
    let mut k: usize = 0;
    while k < decor.overlays.len()
        invariant
            k <= decor.overlays@.len(),
            overlaid(*calc, spans_v(spans@), decor.overlays@.skip(k as int), idx)
                == overlaid(*calc, lit, decor.overlays@, idx),
        decreases decor.overlays@.len() - k,
    {
        let o = &decor.overlays[k];
        proof {
            assert(decor.overlays@.skip(k as int)[0] == *o);
            assert(decor.overlays@.skip(k as int).drop_first() =~= decor.overlays@.skip(k + 1));
        }
        if o.line == idx {
            spans = stamp(spans.as_slice(), o, calc);
        }
        k = k + 1;
    }
    proof {
        assert(decor.overlays@.skip(k as int) =~= Seq::<Overlay>::empty());
    }
    spans
}

} // verus!

verus! {

/// The longest prefix of `t` that encodes in at most `n` bytes.
pub open spec fn byte_prefix(t: Seq<char>, n: nat) -> Seq<char>
    decreases t.len(),
{
    if t.len() == 0 || utf8_len(t[0]) > n {
        Seq::empty()
    } else {
        seq![t[0]] + byte_prefix(t.drop_first(), (n - utf8_len(t[0])) as nat)
    }
}

/// The RGB of a span's own colour, or `dflt` when it has none given as RGB.
pub open spec fn rgb_or(c: Option<Color>, dflt: (u8, u8, u8)) -> (u8, u8, u8) {
    match c {
        Some(c) => match rgb_parts(c) {
            Some(x) => x,
            None => dflt,
        },
        None => dflt,
    }
}

/// The RGB of a colour that is given as RGB.
pub open spec fn rgb_opt(c: Option<Color>) -> Option<(u8, u8, u8)> {
    match c {
        Some(c) => rgb_parts(c),
        None => None,
    }
}

/// A run as its text, colour and background.
pub open spec fn run_view(r: Run) -> (Seq<char>, (u8, u8, u8), Option<(u8, u8, u8)>) {
    (r.text@, r.color, r.bg)
}

/// The coloured runs of a heading's spans, the first starting at byte `at`,
/// cut off at byte `len`: each span's text up to the cut, in its own RGB
/// colour or else `color`, on its own RGB background if it has one; pieces
/// left empty are dropped.
pub open spec fn runs_of(sv: Seq<SpanV>, at: nat, len: nat, color: (u8, u8, u8)) -> Seq<
    (Seq<char>, (u8, u8, u8), Option<(u8, u8, u8)>),
>
    decreases sv.len(),
{
    if sv.len() == 0 || at >= len {
        Seq::empty()
    } else {
        let b = byte_len(sv[0].0);
        let end = if at + b < len { at + b } else { len };
        let text = byte_prefix(sv[0].0, (end - at) as nat);
        let rest = runs_of(sv.drop_first(), at + b, len, color);
        if text.len() == 0 {
            rest
        } else {
            seq![(text, rgb_or(sv[0].1.fg, color), rgb_opt(sv[0].1.bg))] + rest
        }
    }
}

/// The characters of `t` that fit in `n` bytes, from the front.
fn prefix_bytes(t: &str, n: usize) -> (r: String)
    ensures
        r@ == byte_prefix(t@, n as nat),
{
    let v = chars_of(t);
    let mut out = String::new();
    let mut left = n;
    let mut k: usize = 0;
    proof {
        assert(v@.skip(0) =~= v@);
        assert(out@ + byte_prefix(v@.skip(0), n as nat) =~= byte_prefix(v@, n as nat));
    }
    while k < v.len()
        invariant
            k <= v@.len(),
            v@ == t@,
            out@ + byte_prefix(v@.skip(k as int), left as nat) == byte_prefix(v@, n as nat),
        decreases v@.len() - k,
    {
        let c = v[k];
        let b = len_utf8(c);
        proof {
            assert(v@.skip(k as int)[0] == c);
            assert(v@.skip(k as int).drop_first() =~= v@.skip(k + 1));
        }
        if b > left {
            proof {
                assert(byte_prefix(v@.skip(k as int), left as nat) =~= Seq::<char>::empty());
                assert(out@ + Seq::<char>::empty() =~= out@);
            }
            return out;
        }
        proof {
            assert(out@.push(c) + byte_prefix(v@.skip(k + 1), (left - b) as nat)
                =~= out@ + byte_prefix(v@.skip(k as int), left as nat));
        }
        push_char(&mut out, c);
        left = left - b;
        k = k + 1;
    }
    proof {
        assert(byte_prefix(v@.skip(k as int), left as nat) =~= Seq::<char>::empty());
        assert(out@ + Seq::<char>::empty() =~= out@);
    }
    out
}

/// A heading's spans as coloured runs, cut off at `len` bytes, which is the
/// length of the row with its trailing blank removed: the rule drawn under
/// the text then ends where the glyphs do.
pub fn heading_runs(line: &Line, len: usize, color: (u8, u8, u8)) -> (r: Vec<Run>)
    ensures
        r@.map_values(|x: Run| run_view(x)) == runs_of(spans_v(line.spans@), 0, len as nat, color),
{
    let ghost sv = spans_v(line.spans@);
    let mut runs: Vec<Run> = Vec::new();
    let mut at: usize = 0;
    let mut i: usize = 0;
    proof {
        assert(sv.skip(0) =~= sv);
        assert(runs@.map_values(|x: Run| run_view(x)) + runs_of(sv, 0, len as nat, color)
            =~= runs_of(sv, 0, len as nat, color));
    }
    while i < line.spans.len()
        invariant
            i <= line.spans@.len(),
            sv == spans_v(line.spans@),
            runs@.map_values(|x: Run| run_view(x)) + runs_of(sv.skip(i as int), at as nat, len as nat, color)
                == runs_of(sv, 0, len as nat, color),
        decreases line.spans@.len() - i,
    {
        let ghost rest = sv.skip(i as int);
        proof {
            assert(rest[0] == span_v(line.spans@[i as int]));
            assert(rest.drop_first() =~= sv.skip(i + 1));
        }
        if at >= len {
            proof {
                assert(runs_of(rest, at as nat, len as nat, color) =~= Seq::empty());
                assert(runs@.map_values(|x: Run| run_view(x)) + Seq::empty()
                    =~= runs@.map_values(|x: Run| run_view(x)));
            }
            return runs;
        }
        let span = &line.spans[i];
        let n = span.text.as_str().as_bytes().len();
        proof {
            crate::text::lemma_encode_len(span.text@);
        }
        assert(n == byte_len(span.text@));
        let end = if n < len - at { at + n } else { len };
        let text = prefix_bytes(span.text.as_str(), end - at);
        let next = at.saturating_add(n);
        proof {
            if at + n > usize::MAX {
                assert(runs_of(sv.skip(i + 1), (at + n) as nat, len as nat, color) =~= Seq::empty());
                assert(runs_of(sv.skip(i + 1), next as nat, len as nat, color) =~= Seq::empty());
            }
        }
        if !text.as_str().is_empty() {
            let fg = match span.style.fg {
                Some(c) => match rgb_of(c) {
                    Some(x) => x,
                    None => color,
                },
                None => color,
            };
            let bg = match span.style.bg {
                Some(c) => rgb_of(c),
                None => None,
            };
            let run = Run { text, color: fg, bg };
            proof {
                assert(runs@.push(run).map_values(|x: Run| run_view(x))
                    =~= runs@.map_values(|x: Run| run_view(x)).push(run_view(run)));
                assert(runs@.map_values(|x: Run| run_view(x)).push(run_view(run))
                    + runs_of(sv.skip(i + 1), next as nat, len as nat, color)
                    =~= runs@.map_values(|x: Run| run_view(x)) + runs_of(rest, at as nat, len as nat, color));
            }
            runs.push(run);
        }
        at = next;
        i = i + 1;
    }
    proof {
        assert(sv.skip(i as int) =~= Seq::<SpanV>::empty());
        assert(runs@.map_values(|x: Run| run_view(x)) + Seq::empty()
            =~= runs@.map_values(|x: Run| run_view(x)));
    }
    runs
}

/// A decoration resolved to the colour it is drawn in: its own when that is
/// RGB, otherwise the heading's colour dimmed.
pub open spec fn decor_rgb(d: Option<Decoration>, color: (u8, u8, u8)) -> Option<(u8, u8, u8)> {
    match d {
        None => None,
        Some(d) => Some(
            match rgb_opt(d.color) {
                Some(x) => x,
                None => (dim_channel(color.0) as u8, dim_channel(color.1) as u8, dim_channel(color.2) as u8),
            },
        ),
    }
}

/// What to draw around a heading of level `level` (1 to 6, clamped) in the
/// colour it resolves to. A row that is not a heading gets nothing.
pub fn heading_decor(theme: &Theme, level: Option<u8>, color: (u8, u8, u8)) -> (r: HeadingDecor)
    ensures
        level is None ==> r.border is None && r.bar is None,
        forall|l: u8| level == Some(l) ==> {
            let i = (if l < 1 { 1 } else if l > 6 { 6 } else { l }) - 1;
            &&& r.border == decor_rgb(theme.heading_border@[i], color)
            &&& r.bar == decor_rgb(theme.heading_bar@[i], color)
        },
{
    match level {
        None => HeadingDecor { border: None, bar: None },
        Some(l) => {
            let c: u8 = if l < 1 { 1 } else if l > 6 { 6 } else { l };
            let i: usize = (c - 1) as usize;
            HeadingDecor {
                border: resolve_decor(theme.heading_border[i], color),
                bar: resolve_decor(theme.heading_bar[i], color),
            }
        },
    }
}

fn resolve_decor(d: Option<Decoration>, color: (u8, u8, u8)) -> (r: Option<(u8, u8, u8)>)
    ensures
        r == decor_rgb(d, color),
{
    match d {
        None => None,
        Some(d) => {
            let own = match d.color {
                Some(c) => rgb_of(c),
                None => None,
            };
            match own {
                Some(x) => Some(x),
                None => Some(dimmed(color)),
            }
        },
    }
}

} // verus!

verus! {

/// The screen rows a line takes.
pub open spec fn rows_of(s: Scale) -> nat {
    match s {
        Scale::Normal => 1,
        Scale::DoubleHeight => 2,
    }
}

/// Where the lines from `idx` on are drawn in a viewport of `rows` rows, the
/// first at row `y` and each under the one before, until the lines run out
/// or the next one no longer fits (a double-height line needs two rows).
pub open spec fn placed(ls: Seq<Line>, idx: nat, y: nat, rows: nat) -> Seq<(usize, u16)>
    decreases ls.len() - idx,
{
    if idx >= ls.len() || y >= rows || y + rows_of(ls[idx as int].scale) > rows {
        Seq::empty()
    } else {
        seq![(idx as usize, y as u16)] + placed(ls, idx + 1, y + rows_of(ls[idx as int].scale), rows)
    }
}

/// The first row left over once the lines from `idx` on are placed.
pub open spec fn placed_end(ls: Seq<Line>, idx: nat, y: nat, rows: nat) -> nat
    decreases ls.len() - idx,
{
    if idx >= ls.len() || y >= rows || y + rows_of(ls[idx as int].scale) > rows {
        y
    } else {
        placed_end(ls, idx + 1, y + rows_of(ls[idx as int].scale), rows)
    }
}

/// The rows of a frame: which line is drawn on which screen row, starting
/// from line `scroll` at the top of a viewport `rows` rows high, and the
/// first row below them, from which on rows are blanked.
pub fn frame_rows(lines: &[Line], scroll: usize, rows: u16) -> (r: (Vec<(usize, u16)>, u16))
    ensures
        r.0@ == placed(lines@, scroll as nat, 0, rows as nat),
        r.1 == placed_end(lines@, scroll as nat, 0, rows as nat),
        r.1 <= rows,
{
    let mut out: Vec<(usize, u16)> = Vec::new();
    let mut y: u16 = 0;
    let mut idx: usize = scroll;
    proof {
        assert(out@ + placed(lines@, idx as nat, 0, rows as nat) =~= placed(lines@, scroll as nat, 0, rows as nat));
    }
    while y < rows && idx < lines.len()
        invariant
            y <= rows,
            out@ + placed(lines@, idx as nat, y as nat, rows as nat) == placed(lines@, scroll as nat, 0, rows as nat),
            placed_end(lines@, idx as nat, y as nat, rows as nat) == placed_end(lines@, scroll as nat, 0, rows as nat),
        decreases lines@.len() - idx,
    {
        let n: u16 = match lines[idx].scale {
            Scale::Normal => 1,
            Scale::DoubleHeight => 2,
        };
        if n > rows - y {
            proof {
                assert(placed(lines@, idx as nat, y as nat, rows as nat) =~= Seq::<(usize, u16)>::empty());
                assert(out@ + Seq::<(usize, u16)>::empty() =~= out@);
            }
            return (out, y);
        }
        proof {
            assert(out@.push((idx, y)) + placed(lines@, (idx + 1) as nat, (y + n) as nat, rows as nat)
                =~= out@ + placed(lines@, idx as nat, y as nat, rows as nat));
        }
        out.push((idx, y));
        y = y + n;
        idx = idx + 1;
    }
    proof {
        assert(placed(lines@, idx as nat, y as nat, rows as nat) =~= Seq::<(usize, u16)>::empty());
        assert(out@ + Seq::<(usize, u16)>::empty() =~= out@);
    }
    (out, y)
}

/// The columns a row is cut to and the offset it is cut from: a
/// double-height row shows half as many characters, and a horizontal offset
/// counted in display columns moves it half as far.
pub fn row_window(scale: Scale, cols: u16, hoffset: usize) -> (r: (usize, usize))
    ensures
        r == (if scale == Scale::DoubleHeight {
            ((cols / 2) as usize, hoffset / 2)
        } else {
            (cols as usize, hoffset)
        }),
{
    match scale {
        Scale::DoubleHeight => ((cols / 2) as usize, hoffset / 2),
        Scale::Normal => (cols as usize, hoffset),
    }
}

/// The hit rectangles of a row drawn on screen row `y`, scrolled left by
/// `hoffset` columns: those wholly scrolled off are dropped, the rest are
/// moved left (to no less than the first column) and onto row `y`.
pub open spec fn shifted(hits: Seq<Hit>, hoffset: usize, y: u16) -> Seq<Hit>
    decreases hits.len(),
{
    if hits.len() == 0 {
        Seq::empty()
    } else {
        let h = hits[0];
        let rest = shifted(hits.drop_first(), hoffset, y);
        if h.rect.x + h.rect.w <= hoffset {
            rest
        } else {
            seq![Hit {
                rect: Rect {
                    x: (if h.rect.x >= hoffset { h.rect.x - hoffset } else { 0 }) as u16,
                    y,
                    w: h.rect.w,
                    h: h.rect.h,
                },
                target: h.target,
            }] + rest
        }
    }
}

/// Where a row's links and images end up on screen, for hit testing.
pub fn screen_hits(hits: &Vec<Hit>, hoffset: usize, y: u16) -> (r: Vec<Hit>)
    ensures
        r@ == shifted(hits@, hoffset, y),
{
    let mut out: Vec<Hit> = Vec::new();
    let mut i: usize = 0;
    proof {
        assert(hits@.skip(0) =~= hits@);
        assert(out@ + shifted(hits@, hoffset, y) =~= shifted(hits@, hoffset, y));
    }
    while i < hits.len()
        invariant
            i <= hits@.len(),
            out@ + shifted(hits@.skip(i as int), hoffset, y) == shifted(hits@, hoffset, y),
        decreases hits@.len() - i,
    {
        let h = hits[i];
        proof {
            assert(hits@.skip(i as int)[0] == h);
            assert(hits@.skip(i as int).drop_first() =~= hits@.skip(i + 1));
        }
        if (h.rect.x as usize) + (h.rect.w as usize) > hoffset {
            let x: usize = if (h.rect.x as usize) >= hoffset { (h.rect.x as usize) - hoffset } else { 0 };
            let moved = Hit { rect: Rect { x: x as u16, y, w: h.rect.w, h: h.rect.h }, target: h.target };
            proof {
                assert(out@.push(moved) + shifted(hits@.skip(i + 1), hoffset, y)
                    =~= out@ + shifted(hits@.skip(i as int), hoffset, y));
            }
            out.push(moved);
        }
        i = i + 1;
    }
    proof {
        assert(hits@.skip(i as int) =~= Seq::<Hit>::empty());
        assert(out@ + Seq::<Hit>::empty() =~= out@);
    }
    out
}

} // verus!

verus! {

/// The texts of a row's runs, joined.
pub open spec fn runs_text(rs: Seq<(Seq<char>, bool)>) -> Seq<char>
    decreases rs.len(),
{
    if rs.len() == 0 {
        Seq::empty()
    } else {
        runs_text(rs.drop_last()) + rs.last().0
    }
}

proof fn lemma_runs_from_text(
    calc: WidthCalc,
    t: Seq<char>,
    col: nat,
    start: usize,
    end: usize,
    cur: Option<(bool, Seq<char>)>,
    acc: Seq<(Seq<char>, bool)>,
)
    ensures
        runs_text(runs_from(calc, t, col, start, end, cur, acc)) == runs_text(acc) + (match cur {
            Some(p) => p.1,
            None => Seq::empty(),
        }) + t,
    decreases t.len(),
{
    if t.len() == 0 {
        match cur {
            Some(p) => {
                assert(acc.push((p.1, p.0)).drop_last() =~= acc);
            },
            None => {},
        }
        assert(runs_text(runs_from(calc, t, col, start, end, cur, acc)) =~= runs_text(acc) + (match cur {
            Some(p) => p.1,
            None => Seq::empty(),
        }) + t);
    } else {
        let f = inside(col, start, end);
        let next = step(calc, col, t[0]);
        match cur {
            Some(p) => {
                if p.0 == f {
                    lemma_runs_from_text(calc, t.drop_first(), next, start, end, Some((f, p.1.push(t[0]))), acc);
                    assert(runs_text(acc) + p.1.push(t[0]) + t.drop_first() =~= runs_text(acc) + p.1 + t);
                } else {
                    lemma_runs_from_text(calc, t.drop_first(), next, start, end, Some((f, seq![t[0]])), acc.push((p.1, p.0)));
                    assert(acc.push((p.1, p.0)).drop_last() =~= acc);
                    assert(runs_text(acc.push((p.1, p.0))) + seq![t[0]] + t.drop_first() =~= runs_text(acc) + p.1 + t);
                }
            },
            None => {
                lemma_runs_from_text(calc, t.drop_first(), next, start, end, Some((f, seq![t[0]])), acc);
                assert(runs_text(acc) + seq![t[0]] + t.drop_first() =~= runs_text(acc) + Seq::<char>::empty() + t);
            },
        }
    }
}

proof fn lemma_mapped_text(rs: Seq<(Seq<char>, bool)>, s: SpanV, style: Style)
    ensures
        spans_chars(rs.map_values(|r: (Seq<char>, bool)| run_v(s, r.0, r.1, style))) == runs_text(rs),
    decreases rs.len(),
{
    if rs.len() > 0 {
        lemma_mapped_text(rs.drop_last(), s, style);
        assert(rs.map_values(|r: (Seq<char>, bool)| run_v(s, r.0, r.1, style)).drop_last()
            =~= rs.drop_last().map_values(|r: (Seq<char>, bool)| run_v(s, r.0, r.1, style)));
    }
}

/// Restyling a column range changes styles only: the row's text is the same
/// before and after.
pub proof fn lemma_range_keeps_text(calc: WidthCalc, sv: Seq<SpanV>, col: nat, start: usize, end: usize, style: Style)
    ensures
        spans_chars(ranged(calc, sv, col, start, end, style)) == spans_chars(sv),
    decreases sv.len(),
{
    if sv.len() > 0 {
        let head = span_runs(calc, sv[0], col, start, end, style);
        let rest = ranged(calc, sv.drop_first(), walked(calc, sv[0].0, col), start, end, style);
        lemma_range_keeps_text(calc, sv.drop_first(), walked(calc, sv[0].0, col), start, end, style);
        lemma_runs_from_text(calc, sv[0].0, col, start, end, None, Seq::empty());
        lemma_mapped_text(runs_from(calc, sv[0].0, col, start, end, None, Seq::empty()), sv[0], style);
        assert(runs_text(Seq::<(Seq<char>, bool)>::empty()) + Seq::<char>::empty() + sv[0].0 =~= sv[0].0);
        crate::layout::lemma_spans_chars_add(head, rest);
        crate::layout::lemma_spans_chars_add(seq![sv[0]], sv.drop_first());
        assert(seq![sv[0]] + sv.drop_first() =~= sv);
        assert(seq![sv[0]].drop_last() =~= Seq::<SpanV>::empty());
        assert(spans_chars(Seq::<SpanV>::empty()) =~= Seq::<char>::empty());
        assert(spans_chars(seq![sv[0]]) == spans_chars(Seq::<SpanV>::empty()) + sv[0].0);
        assert(spans_chars(seq![sv[0]]) =~= sv[0].0);
    }
}

} // verus!
