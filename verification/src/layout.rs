//! `Vec<Block>` → `Vec<Line>`.
//!
//! [`layout`] is a pure function of the document, the viewport and the
//! options: toggling wrap or source view, or resizing the terminal, lays the
//! document out again from scratch, so there is nothing to invalidate.

use vstd::prelude::*;
use crate::graphics::CellSize;
use crate::ir::{
    Align, Block, BlockKind, Document, Hit, HitTarget, ImageId, Line, Rect, Scale, Span, Style,
    Table, span_v, spans_v, spans_chars,
};
use crate::screen::Viewport;
use crate::text::{push_spaces, push_char, chars_of, byte_offsets, trim_start, starts_with};
use crate::theme::Theme;
use crate::width::{WidthCalc, min_usize, spaces};
use crate::wrap::{SpanV, slice_from, slice_spans, char_at, off, lemma_boundary, fits, wrap_ranges, trim_trailing, ranges_v, on_boundaries, boundary, trimmed_row, trim_spaces, lemma_cols_concat, lemma_cols_mono};

verus! {

#[derive(Debug, Clone, Copy, PartialEq, Eq)]
pub struct Options {
    /// Reflow to the viewport width. When false, lines keep their natural
    /// length and the renderer scrolls horizontally.
    pub wrap: bool,
    /// Show the raw Markdown instead of the rendered form.
    pub source: bool,
    /// Cap on the reflow width. `0` means the full viewport.
    pub max_width: usize,
    pub calc: WidthCalc,
    /// Emit headings as double-height lines.
    pub double_height: bool,
    /// Reserve rows for inline images; otherwise image blocks render as
    /// their alt text.
    pub images: bool,
    /// Pixels per character cell, used to turn an image's pixel size into rows.
    pub cell: CellSize,
}

impl Default for Options {
    fn default() -> (r: Options)
        ensures
            r.wrap,
            !r.source,
            r.max_width == 0,
            !r.calc.ambiguous_wide,
            !r.double_height,
            !r.images,
            r.cell == (CellSize { w: 8, h: 16 }),
    {
        Options {
            wrap: true,
            source: false,
            max_width: 0,
            calc: WidthCalc::new(false),
            double_height: false,
            images: false,
            cell: CellSize { w: 8, h: 16 },
        }
    }
}

impl Options {
    /// The width text is reflowed to in a viewport `cols` wide: the cap
    /// where one is set and narrower, else the whole viewport.
    pub fn reflow_width(&self, cols: usize) -> (r: usize)
        ensures
            r == (if self.max_width > 0 && self.max_width < cols { self.max_width } else { cols }),
    {
        if self.max_width > 0 && self.max_width < cols {
            self.max_width
        } else {
            cols
        }
    }
}

} // verus!

verus! {

/// The columns a run of spans occupies.
pub open spec fn wid(calc: WidthCalc, s: Seq<Span>) -> nat {
    calc.cols(spans_chars(spans_v(s)))
}

/// The width text is laid out to: the viewport (at least one column),
/// capped by `max_width` when that is set.
pub open spec fn total_of(view: Viewport, opts: Options) -> nat {
    let cols: nat = if view.cols >= 1 { view.cols as nat } else { 1 };
    if opts.max_width > 0 && (opts.max_width as nat) < cols {
        opts.max_width as nat
    } else {
        cols
    }
}

/// The width everything is laid out to.
pub fn total_width(view: Viewport, opts: &Options) -> (r: usize)
    ensures
        r == total_of(view, *opts),
        r >= 1,
{
    let cols: usize = if view.cols >= 1 { view.cols as usize } else { 1 };
    if opts.max_width > 0 && opts.max_width < cols {
        opts.max_width
    } else {
        cols
    }
}

/// What a layout is worked out from: the options, the viewport and the
/// width they give.
#[derive(Debug, Clone, Copy)]
pub struct Ctx {
    pub opts: Options,
    pub view: Viewport,
    pub total: usize,
}

/// A copy of a span.
pub fn copy_span(s: &Span) -> (r: Span)
    ensures
        span_v(r) == span_v(*s),
{
    Span { text: s.text.clone(), style: s.style, link: s.link }
}

/// Appends copies of `src` to `out`.
pub fn extend_spans(out: &mut Vec<Span>, src: &Vec<Span>)
    ensures
        spans_v(final(out)@) == spans_v(old(out)@) + spans_v(src@),
{
    let ghost start = spans_v(out@);
    let mut i: usize = 0;
    while i < src.len()
        invariant
            i <= src@.len(),
            spans_v(out@) == start + spans_v(src@.take(i as int)),
        decreases src.len() - i,
    {
        let ghost before = spans_v(out@);
        out.push(copy_span(&src[i]));
        i = i + 1;
        proof {
            assert(spans_v(src@.take(i as int)) =~= spans_v(src@.take(i - 1)).push(span_v(src@[i - 1])));
            assert(spans_v(out@) =~= before.push(span_v(src@[i - 1])));
            assert(spans_v(out@) =~= start + spans_v(src@.take(i as int)));
        }
    }
    proof {
        assert(src@.take(i as int) =~= src@);
    }
}

/// `n` spaces in the plain style, or nothing for none.
pub open spec fn pad_v(n: nat) -> Seq<SpanV> {
    if n > 0 {
        seq![(spaces(n), Style::plain_spec(), None)]
    } else {
        Seq::empty()
    }
}

fn push_pad(out: &mut Vec<Span>, n: usize)
    ensures
        spans_v(final(out)@) == spans_v(old(out)@) + pad_v(n as nat),
{
    if n > 0 {
        let mut t = String::new();
        push_spaces(&mut t, n);
        proof {
            assert(t@ =~= spaces(n as nat));
        }
        let ghost before = spans_v(out@);
        out.push(Span::plain(t.as_str()));
        proof {
            assert(spans_v(out@) =~= before + pad_v(n as nat));
        }
    } else {
        proof {
            assert(spans_v(out@) =~= spans_v(old(out)@) + pad_v(n as nat));
        }
    }
}

/// The columns of a block's indent, gutter and marker, saturating.
pub open spec fn lead_of(calc: WidthCalc, b: Block) -> nat {
    min_usize((b.indent + wid(calc, b.gutter@) + wid(calc, b.prefix@)) as nat)
}

/// The columns a block's content gets: what the width (halved for double
/// height) leaves after its lead, and never fewer than four.
pub open spec fn content_of(ctx: Ctx, b: Block, scale: Scale) -> nat {
    let total: int = match scale {
        Scale::DoubleHeight => ctx.total as int / 2,
        Scale::Normal => ctx.total as int,
    };
    let lead = lead_of(ctx.opts.calc, b) as int;
    let w: int = if total >= lead { total - lead } else { 0 };
    if w >= 4 { w as nat } else { 4 }
}

/// What starts each row of a block: its indent, its gutter, then its
/// marker on the first row and as many spaces as the marker is wide after.
pub open spec fn lead_v(calc: WidthCalc, b: Block, first: bool) -> Seq<SpanV> {
    pad_v(b.indent as nat) + spans_v(b.gutter@) + (if first {
        spans_v(b.prefix@)
    } else {
        pad_v(min_usize(wid(calc, b.prefix@)))
    })
}

impl Ctx {
    /// The columns a run of spans occupies, saturating.
    pub fn width_of(&self, spans: &Vec<Span>) -> (r: usize)
        ensures
            r == min_usize(wid(self.opts.calc, spans@)),
    {
        let t = crate::ir::concat_spans(spans.as_slice());
        self.opts.calc.str(t.as_str())
    }

    /// Headings 1 and 2 are drawn double height when that is asked for.
    pub fn heading_scale(&self, level: u8) -> (r: Scale)
        ensures
            r == (if self.opts.double_height && level <= 2 { Scale::DoubleHeight } else { Scale::Normal }),
    {
        if self.opts.double_height && level <= 2 {
            Scale::DoubleHeight
        } else {
            Scale::Normal
        }
    }

    /// Columns available to a block's content, after indent, gutter and
    /// marker.
    pub fn content_width(&self, block: &Block, scale: Scale) -> (r: usize)
        ensures
            r == content_of(*self, *block, scale),
    {
        let lead = block.indent.saturating_add(self.width_of(&block.gutter)).saturating_add(
            self.width_of(&block.prefix),
        );
        let total = match scale {
            Scale::DoubleHeight => self.total / 2,
            Scale::Normal => self.total,
        };
        let w = total.saturating_sub(lead);
        if w >= 4 {
            w
        } else {
            4
        }
    }

    /// Indent, gutter, then the marker on the first row and padding as wide
    /// as it on the others.
    pub fn lead_spans(&self, block: &Block, first: bool) -> (r: Vec<Span>)
        ensures
            spans_v(r@) == lead_v(self.opts.calc, *block, first),
    {
        let mut out: Vec<Span> = Vec::new();
        proof {
            assert(spans_v(out@) =~= Seq::<SpanV>::empty());
        }
        push_pad(&mut out, block.indent);
        extend_spans(&mut out, &block.gutter);
        if first {
            extend_spans(&mut out, &block.prefix);
        } else {
            let pad = self.width_of(&block.prefix);
            push_pad(&mut out, pad);
        }
        proof {
            assert(spans_v(out@) =~= lead_v(self.opts.calc, *block, first));
        }
        out
    }

    /// The source line a block's `row`-th row is credited to: one per row
    /// from the block's first line, never past its last.
    pub fn source_line(&self, block: &Block, row: usize) -> (r: usize)
        ensures
            ({
                let start = block.source_range.start as int;
                let e = block.source_range.end as int - 1;
                let last = if e > start { e } else { start };
                r == (if start + row < last { start + row } else { last })
            }),
    {
        let start = block.source_range.start;
        let e = block.source_range.end.saturating_sub(1);
        let last = if e > start { e } else { start };
        if row < last - start {
            start + row
        } else {
            last
        }
    }
}

/// The distance between two line numbers.
pub open spec fn dist(a: usize, b: usize) -> nat {
    if a >= b { (a - b) as nat } else { (b - a) as nat }
}

/// The layout row that best matches a source line, used to keep the
/// reading position across a mode switch: the first row nearest to it.
pub fn row_for_source_line(lines: &Vec<Line>, source_line: usize) -> (r: usize)
    ensures
        lines@.len() == 0 ==> r == 0,
        lines@.len() > 0 ==> r < lines@.len(),
        lines@.len() > 0 ==> forall|j: int| 0 <= j < lines@.len() ==> dist(lines@[r as int].source_line, source_line) <= #[trigger] dist(lines@[j].source_line, source_line),
        lines@.len() > 0 ==> forall|j: int| 0 <= j < r ==> dist(lines@[r as int].source_line, source_line) < #[trigger] dist(lines@[j].source_line, source_line),
{
    let mut best: usize = 0;
    let mut best_delta: usize = usize::MAX;
    let mut i: usize = 0;
    while i < lines.len()
        invariant
            i <= lines@.len(),
            i == 0 ==> best == 0 && best_delta == usize::MAX,
            i > 0 ==> best < i && best_delta == dist(lines@[best as int].source_line, source_line),
            forall|j: int| 0 <= j < i ==> best_delta <= #[trigger] dist(lines@[j].source_line, source_line),
            forall|j: int| 0 <= j < best ==> best_delta < #[trigger] dist(lines@[j].source_line, source_line),
        decreases lines.len() - i,
    {
        let l = lines[i].source_line;
        let delta = if l >= source_line { l - source_line } else { source_line - l };
        if delta < best_delta || i == 0 {
            best_delta = delta;
            best = i;
            if delta == 0 {
                proof {
                    assert forall|j: int| 0 <= j < lines@.len() implies dist(lines@[best as int].source_line, source_line) <= #[trigger] dist(lines@[j].source_line, source_line) by {}
                }
                return best;
            }
        }
        i = i + 1;
    }
    best
}

} // verus!

verus! {

/// A run's width counted `factor` times, saturating.
pub open spec fn run_width(calc: WidthCalc, s: Span, factor: nat) -> nat {
    min_usize(min_usize(calc.cols(s.text@)) * factor)
}

/// The hits after one more run of `w` columns at column `x`: a linked run
/// starts a rectangle for its link, or widens the last one when that is the
/// same link and ends where this run starts.
pub open spec fn hits_step(acc: Seq<Hit>, x: nat, w: nat, link: Option<crate::ir::LinkId>, h: u16) -> Seq<Hit> {
    match link {
        None => acc,
        Some(l) => {
            if acc.len() > 0 && acc.last().target == HitTarget::Link(l) && acc.last().rect.x
                + acc.last().rect.w == x {
                let last = acc.last();
                let grown: int = last.rect.w + w;
                acc.drop_last().push(
                    Hit {
                        rect: Rect {
                            w: (if grown > u16::MAX { u16::MAX as int } else { grown }) as u16,
                            ..last.rect
                        },
                        target: last.target,
                    },
                )
            } else {
                acc.push(Hit { rect: Rect { x: x as u16, y: 0, w: w as u16, h }, target: HitTarget::Link(l) })
            }
        },
    }
}

/// The link rectangles of a row and the column after its last run.
pub open spec fn hits_of(calc: WidthCalc, s: Seq<Span>, factor: nat, h: u16) -> (Seq<Hit>, nat)
    decreases s.len(),
{
    if s.len() == 0 {
        (Seq::empty(), 0)
    } else {
        let (acc, x) = hits_of(calc, s.drop_last(), factor, h);
        let w = run_width(calc, s.last(), factor);
        (hits_step(acc, x, w, s.last().link, h), min_usize(x + w))
    }
}

/// The distance, in columns, a scale draws each character across.
pub open spec fn factor_of(scale: Scale) -> nat {
    match scale {
        Scale::DoubleHeight => 2,
        Scale::Normal => 1,
    }
}

/// The height, in rows, of a scale.
pub open spec fn rows_of(scale: Scale) -> u16 {
    match scale {
        Scale::DoubleHeight => 2,
        Scale::Normal => 1,
    }
}

impl Ctx {
    /// Column rectangles for the linked runs of a row, adjacent runs of one
    /// link merged. `rect.y` is relative to the row's own top.
    pub fn hits(&self, spans: &Vec<Span>, scale: Scale) -> (r: Vec<Hit>)
        ensures
            r@ == hits_of(self.opts.calc, spans@, factor_of(scale), rows_of(scale)).0,
    {
        let mut hits: Vec<Hit> = Vec::new();
        let mut x: usize = 0;
        let factor: usize = match scale {
            Scale::DoubleHeight => 2,
            Scale::Normal => 1,
        };
        let h = scale.rows();
        let mut i: usize = 0;
        while i < spans.len()
            invariant
                i <= spans@.len(),
                factor == factor_of(scale),
                h == rows_of(scale),
                (hits@, x as nat) == hits_of(self.opts.calc, spans@.take(i as int), factor_of(scale), rows_of(scale)),
            decreases spans.len() - i,
        {
            proof {
                assert(spans@.take(i + 1).drop_last() =~= spans@.take(i as int));
            }
            let one = self.opts.calc.str(spans[i].text.as_str());
            let w: usize = if factor == 2 { one.saturating_add(one) } else { one };
            match spans[i].link {
                Some(l) => {
                    let n = hits.len();
                    let mut merged = false;
                    if n > 0 {
                        let last = hits[n - 1];
                        let same = match last.target {
                            HitTarget::Link(k) => k.0 == l.0,
                            HitTarget::Image(_) => false,
                        };
                        if same && last.rect.x as usize + last.rect.w as usize == x {
                            let grown = w.saturating_add(last.rect.w as usize);
                            let nw: u16 = if grown > 65535 { 65535 } else { grown as u16 };
                            hits.pop();
                            hits.push(Hit { rect: Rect { w: nw, ..last.rect }, target: last.target });
                            merged = true;
                        }
                    }
                    if !merged {
                        let rx = #[verifier::truncate] (x as u16);
                        let rw = #[verifier::truncate] (w as u16);
                        hits.push(Hit { rect: Rect { x: rx, y: 0, w: rw, h }, target: HitTarget::Link(l) });
                    }
                },
                None => {},
            }
            x = x.saturating_add(w);
            i = i + 1;
        }
        proof {
            assert(spans@.take(i as int) =~= spans@);
        }
        hits
    }
}

} // verus!

verus! {

/// The text of two runs of spans is the text of the first then the second.
pub proof fn lemma_spans_chars_add(a: Seq<SpanV>, b: Seq<SpanV>)
    ensures
        spans_chars(a + b) == spans_chars(a) + spans_chars(b),
    decreases b.len(),
{
    if b.len() == 0 {
        assert(a + b =~= a);
        assert(spans_chars(b) =~= Seq::<char>::empty());
        assert(spans_chars(a) + spans_chars(b) =~= spans_chars(a));
    } else {
        lemma_spans_chars_add(a, b.drop_last());
        assert((a + b).drop_last() =~= a + b.drop_last());
        assert((a + b).last() == b.last());
        assert(spans_chars(a + b) =~= spans_chars(a) + spans_chars(b));
    }
}

/// Columns of a run of spans add up.
pub proof fn lemma_wid_add(calc: WidthCalc, a: Seq<SpanV>, b: Seq<SpanV>)
    ensures
        calc.cols(spans_chars(a + b)) == calc.cols(spans_chars(a)) + calc.cols(spans_chars(b)),
{
    lemma_spans_chars_add(a, b);
    lemma_cols_concat(calc, spans_chars(a), spans_chars(b));
}

/// `n` spaces are `n` columns wide, given a space is one.
pub proof fn lemma_spaces_cols(calc: WidthCalc, n: nat)
    requires
        calc.col(' ') == 1,
    ensures
        calc.cols(spaces(n)) == n,
    decreases n,
{
    if n > 0 {
        lemma_spaces_cols(calc, (n - 1) as nat);
        assert(spaces(n).drop_last() =~= spaces((n - 1) as nat));
    }
}

/// The padding for `n` is `n` columns wide.
pub proof fn lemma_pad_cols(calc: WidthCalc, n: nat)
    requires
        calc.col(' ') == 1,
    ensures
        calc.cols(spans_chars(pad_v(n))) == n,
{
    lemma_spaces_cols(calc, n);
    if n > 0 {
        let p = pad_v(n);
        assert(p.drop_last() =~= Seq::<SpanV>::empty());
        reveal_with_fuel(spans_chars, 2);
        assert(spans_chars(p) =~= Seq::<char>::empty() + spaces(n));
    } else {
        assert(spans_chars(pad_v(n)) =~= Seq::<char>::empty());
    }
}

/// The columns of all of a block's lead: indent, gutter and marker.
pub open spec fn lead_cols(calc: WidthCalc, b: Block) -> nat {
    (b.indent + wid(calc, b.gutter@) + wid(calc, b.prefix@)) as nat
}

/// The lead of a row is no wider than indent, gutter and marker together,
/// and the first row's is exactly that wide.
pub proof fn lemma_lead_cols(calc: WidthCalc, b: Block, first: bool)
    requires
        calc.col(' ') == 1,
    ensures
        calc.cols(spans_chars(lead_v(calc, b, first))) <= lead_cols(calc, b),
        first ==> calc.cols(spans_chars(lead_v(calc, b, first))) == lead_cols(calc, b),
{
    let tail = if first {
        spans_v(b.prefix@)
    } else {
        pad_v(min_usize(wid(calc, b.prefix@)))
    };
    lemma_wid_add(calc, pad_v(b.indent as nat) + spans_v(b.gutter@), tail);
    lemma_wid_add(calc, pad_v(b.indent as nat), spans_v(b.gutter@));
    lemma_pad_cols(calc, b.indent as nat);
    if !first {
        lemma_pad_cols(calc, min_usize(wid(calc, b.prefix@)));
    }
}

/// The text of a run's slice is the slice of its text.
pub proof fn lemma_slice_chars(sv: Seq<SpanV>, p: int, cs: int, ce: int)
    requires
        p <= cs <= ce <= p + spans_chars(sv).len(),
    ensures
        spans_chars(slice_from(sv, p, cs, ce)) == spans_chars(sv).subrange(cs - p, ce - p),
    decreases sv.len(),
{
    if sv.len() == 0 {
        assert(spans_chars(sv).subrange(cs - p, ce - p) =~= Seq::<char>::empty());
    } else {
        let t = sv[0].0;
        let rest = sv.drop_first();
        lemma_chars_front(sv);
        let all = spans_chars(sv);
        assert(all =~= t + spans_chars(rest));
        let b = if ce < p + t.len() { ce } else { p + t.len() };
        let cs2 = if cs > p + t.len() { cs } else { p + t.len() };
        let ce2 = if ce > p + t.len() { ce } else { p + t.len() };
        lemma_slice_from_clamp(rest, p + t.len(), cs, ce, cs2, ce2);
        lemma_slice_chars(rest, p + t.len(), cs2, ce2);
        let tail = spans_chars(rest).subrange(cs2 - p - t.len(), ce2 - p - t.len());
        if cs < b {
            let head = t.subrange(cs - p, b - p);
            lemma_spans_chars_add(seq![(head, sv[0].1, sv[0].2)], slice_from(rest, p + t.len(), cs, ce));
            assert(seq![(head, sv[0].1, sv[0].2)].drop_last() =~= Seq::<SpanV>::empty());
            reveal_with_fuel(spans_chars, 2);
            assert(spans_chars(seq![(head, sv[0].1, sv[0].2)]) =~= Seq::<char>::empty() + head);
            assert(all.subrange(cs - p, ce - p) =~= head + tail);
        } else {
            assert(all.subrange(cs - p, ce - p) =~= tail);
        }
    }
}

proof fn lemma_chars_front(sv: Seq<SpanV>)
    requires
        sv.len() > 0,
    ensures
        spans_chars(sv) == sv[0].0 + spans_chars(sv.drop_first()),
{
    let one = seq![sv[0]];
    assert(one + sv.drop_first() =~= sv);
    lemma_spans_chars_add(one, sv.drop_first());
    assert(one.drop_last() =~= Seq::<SpanV>::empty());
    reveal_with_fuel(spans_chars, 2);
    assert(spans_chars(one) =~= Seq::<char>::empty() + sv[0].0);
}

/// Slicing a run that starts at `p` ignores the part of the window before
/// `p`, and a window that ends before `p` holds nothing.
proof fn lemma_slice_from_clamp(sv: Seq<SpanV>, p: int, cs: int, ce: int, cs2: int, ce2: int)
    requires
        cs2 == (if cs > p { cs } else { p }),
        ce2 == (if ce > p { ce } else { p }),
    ensures
        slice_from(sv, p, cs, ce) == slice_from(sv, p, cs2, ce2),
    decreases sv.len(),
{
    if sv.len() > 0 {
        let t = sv[0].0;
        let q = p + t.len();
        let cs3 = if cs > q { cs } else { q };
        let ce3 = if ce > q { ce } else { q };
        lemma_slice_from_clamp(sv.drop_first(), q, cs, ce, cs3, ce3);
        lemma_slice_from_clamp(sv.drop_first(), q, cs2, ce2, cs3, ce3);
    }
}

/// Trimming a row leaves a prefix of its text.
pub proof fn lemma_trimmed_prefix(sv: Seq<SpanV>)
    ensures
        spans_chars(trimmed_row(sv)).len() <= spans_chars(sv).len(),
        spans_chars(trimmed_row(sv)) == spans_chars(sv).take(spans_chars(trimmed_row(sv)).len() as int),
    decreases sv.len(),
{
    if sv.len() > 0 {
        let last = sv.last();
        let t = trim_spaces(last.0);
        lemma_trim_prefix(last.0);
        assert(spans_chars(sv) == spans_chars(sv.drop_last()) + last.0);
        if t.len() == last.0.len() {
        } else if t.len() == 0 {
            lemma_trimmed_prefix(sv.drop_last());
            let a = spans_chars(sv.drop_last());
            let k = spans_chars(trimmed_row(sv.drop_last())).len() as int;
            assert((a + last.0).take(k) =~= a.take(k));
        } else {
            let r = sv.drop_last().push((t, last.1, last.2));
            assert(r.drop_last() =~= sv.drop_last());
            assert(spans_chars(r) == spans_chars(sv.drop_last()) + t);
            assert(spans_chars(r) =~= spans_chars(sv).take(spans_chars(r).len() as int));
        }
    }
}

proof fn lemma_trim_prefix(t: Seq<char>)
    ensures
        trim_spaces(t).len() <= t.len(),
        trim_spaces(t) == t.take(trim_spaces(t).len() as int),
    decreases t.len(),
{
    if t.len() > 0 && t.last() == ' ' {
        lemma_trim_prefix(t.drop_last());
        assert(t.drop_last().take(trim_spaces(t).len() as int) =~= t.take(trim_spaces(t).len() as int));
    } else {
        assert(t.take(t.len() as int) =~= t);
    }
}

/// A prefix is no wider than the whole.
pub proof fn lemma_cols_take(calc: WidthCalc, s: Seq<char>, k: int)
    requires
        0 <= k <= s.len(),
    ensures
        calc.cols(s.take(k)) <= calc.cols(s),
{
    lemma_cols_mono(calc, s, 0, k, s.len() as int);
    assert(s.subrange(0, k) =~= s.take(k));
    assert(s.subrange(0, s.len() as int) =~= s);
}

} // verus!

verus! {

/// The first line feed at or after character `k`.
pub open spec fn nl_from(s: Seq<char>, k: int) -> Option<int>
    decreases s.len() - k,
{
    if k < 0 || k >= s.len() {
        None
    } else if s[k] == '\n' {
        Some(k)
    } else {
        nl_from(s, k + 1)
    }
}

pub proof fn lemma_nl_from(s: Seq<char>, k: int)
    requires
        0 <= k,
    ensures
        nl_from(s, k) matches Some(i) ==> k <= i < s.len() && s[i] == '\n' && forall|j: int| k <= j < i ==> s[j] != '\n',
        nl_from(s, k) is None ==> forall|j: int| k <= j < s.len() ==> s[j] != '\n',
    decreases s.len() - k,
{
    if k < s.len() && s[k] != '\n' {
        lemma_nl_from(s, k + 1);
    }
}

/// The character ranges of the lines of `s` from character `k` on, split
/// at every line feed, the line feeds themselves left out.
pub open spec fn nl_ranges(s: Seq<char>, k: int) -> Seq<(int, int)>
    decreases s.len() - k,
{
    if k < 0 || k > s.len() {
        Seq::empty()
    } else {
        match nl_from(s, k) {
            None => seq![(k, s.len() as int)],
            Some(i) => {
                proof {
                    lemma_nl_from(s, k);
                }
                seq![(k, i)] + nl_ranges(s, i + 1)
            },
        }
    }
}

impl Ctx {
    /// A block's spans split at its line feeds: soft breaks became spaces
    /// when the document was read, so what is left are hard breaks and a
    /// code block's own lines. Text with no line feed is one line, as it is.
    pub fn logical_lines(&self, spans: &Vec<Span>) -> (r: Vec<Vec<Span>>)
        ensures
            r@.len() >= 1,
            ({
                let t = spans_chars(spans_v(spans@));
                &&& nl_from(t, 0) is None ==> r@.len() == 1 && spans_v(r@[0]@) == spans_v(spans@)
                &&& nl_from(t, 0) is Some ==> r@.len() == nl_ranges(t, 0).len() && forall|k: int|
                    0 <= k < r@.len() ==> spans_v(#[trigger] r@[k]@) == slice_from(
                        spans_v(spans@),
                        0,
                        nl_ranges(t, 0)[k].0,
                        nl_ranges(t, 0)[k].1,
                    )
            }),
    {
        let text = crate::ir::concat_spans(spans.as_slice());
        let v = chars_of(text.as_str());
        let offs = byte_offsets(text.as_str(), &v);
        let ghost t = v@;
        let n = v.len();
        let mut any = false;
        let mut j: usize = 0;
        while j < n
            invariant
                j <= n == v@.len(),
                !any ==> forall|q: int| 0 <= q < j ==> v@[q] != '\n',
                any ==> nl_from(t, 0) is Some,
                t == v@,
            decreases n - j,
        {
            if v[j] == '\n' {
                proof {
                    lemma_nl_from(t, 0);
                }
                any = true;
            }
            j = j + 1;
        }
        proof {
            lemma_nl_from(t, 0);
        }
        if !any {
            let mut one: Vec<Span> = Vec::new();
            proof {
                assert(spans_v(one@) =~= Seq::<SpanV>::empty());
            }
            extend_spans(&mut one, spans);
            proof {
                assert(Seq::<SpanV>::empty() + spans_v(spans@) =~= spans_v(spans@));
            }
            return vec![one];
        }
        let mut out: Vec<Vec<Span>> = Vec::new();
        let ghost mut done: Seq<(int, int)> = Seq::empty();
        let mut start: usize = 0;
        let mut i: usize = 0;
        proof {
            assert(nl_ranges(t, 0) =~= done + nl_ranges(t, 0));
        }
        while i < n
            invariant
                start <= i <= n == v@.len(),
                t == v@,
                t == spans_chars(spans_v(spans@)),
                offs@.len() == n + 1,
                forall|k: int| 0 <= k <= n ==> #[trigger] offs@[k] == off(t, k),
                nl_ranges(t, 0) == done + nl_ranges(t, start as int),
                forall|q: int| start <= q < i ==> t[q] != '\n',
                out@.len() == done.len(),
                forall|k: int| 0 <= k < out@.len() ==> spans_v(#[trigger] out@[k]@) == slice_from(
                    spans_v(spans@),
                    0,
                    done[k].0,
                    done[k].1,
                ),
            decreases n - i,
        {
            if v[i] == '\n' {
                proof {
                    lemma_nl_from(t, start as int);
                    lemma_nl_from(t, i as int);
                    assert(nl_from(t, start as int) == Some(i as int)) by {
                        nl_from_skip(t, start as int, i as int);
                    }
                    lemma_boundary(t, offs@[start as int] as int, start as int);
                    lemma_boundary(t, offs@[i as int] as int, i as int);
                }
                let piece = slice_spans(spans.as_slice(), offs[start], offs[i]);
                out.push(piece);
                proof {
                    let old_done = done;
                    done = done.push((start as int, i as int));
                    assert(nl_ranges(t, start as int) == seq![(start as int, i as int)] + nl_ranges(t, i + 1));
                    assert(nl_ranges(t, 0) =~= done + nl_ranges(t, i + 1));
                }
                start = i + 1;
            }
            i = i + 1;
        }
        proof {
            lemma_nl_from(t, start as int);
            nl_from_skip(t, start as int, n as int);
            assert(nl_from(t, start as int) is None);
            assert(nl_ranges(t, start as int) == seq![(start as int, n as int)]);
            lemma_boundary(t, offs@[start as int] as int, start as int);
            lemma_boundary(t, offs@[n as int] as int, n as int);
        }
        let last = slice_spans(spans.as_slice(), offs[start], offs[n]);
        out.push(last);
        proof {
            done = done.push((start as int, n as int));
            assert(nl_ranges(t, 0) =~= done);
        }
        out
    }
}

/// With no line feed between `k` and `i`, the first one from `k` is the
/// first one from `i`.
proof fn nl_from_skip(s: Seq<char>, k: int, i: int)
    requires
        0 <= k <= i,
        forall|q: int| k <= q < i ==> s[q] != '\n',
    ensures
        nl_from(s, k) == nl_from(s, i),
    decreases i - k,
{
    if k < i {
        if k < s.len() {
            nl_from_skip(s, k + 1, i);
        } else {
            assert(nl_from(s, k) is None);
            lemma_nl_from(s, i);
        }
    }
}

} // verus!

verus! {

/// A piece of a row fits `lim` columns, or is a single character that
/// nothing could split.
pub open spec fn piece_ok(calc: WidthCalc, p: Seq<SpanV>, lim: nat) -> bool {
    calc.cols(spans_chars(p)) <= lim || spans_chars(p).len() <= 1
}

/// A row is a block's lead (the first row's, or a later row's) followed by
/// a piece that fits `lim` columns.
pub open spec fn led_by(calc: WidthCalc, b: Block, first: bool, sv: Seq<SpanV>, lim: nat) -> bool {
    let lv = lead_v(calc, b, first);
    &&& sv.len() >= lv.len()
    &&& sv.take(lv.len() as int) == lv
    &&& piece_ok(calc, sv.skip(lv.len() as int), lim)
}

/// The source line of row `row` of a block.
pub open spec fn row_source(b: Block, row: int) -> int {
    let start = b.source_range.start as int;
    let e = b.source_range.end as int - 1;
    let last = if e > start { e } else { start };
    if start + row < last { start + row } else { last }
}

/// What every row a block's text is flowed into carries: the block, the
/// scale, its source line, the rectangles of its links, and (when wrapping)
/// its lead followed by a piece that fits the content width.
pub open spec fn flowed_row(ctx: Ctx, b: Block, idx: usize, scale: Scale, row: int, l: Line) -> bool {
    &&& l.block == idx
    &&& l.scale == scale
    &&& l.heading is None
    &&& l.source_line == row_source(b, row)
    &&& l.hits@ == hits_of(ctx.opts.calc, l.spans@, factor_of(scale), rows_of(scale)).0
    &&& ctx.opts.wrap ==> exists|first: bool| #[trigger] led_by(ctx.opts.calc, b, first, spans_v(l.spans@), content_of(ctx, b, scale))
}

/// A wrapped piece, trimmed, fits the width it was wrapped to, or is one
/// character.
proof fn lemma_piece_fits(calc: WidthCalc, sv: Seq<SpanV>, a: int, b: int, lim: nat)
    requires
        fits(calc, spans_chars(sv), a, b, lim),
    ensures
        piece_ok(calc, trimmed_row(slice_from(sv, 0, char_at(spans_chars(sv), a), char_at(spans_chars(sv), b))), lim),
{
    let t = spans_chars(sv);
    let (ka, kb) = choose|ka: int, kb: int|
        0 <= ka <= kb <= t.len() && off(t, ka) == a && off(t, kb) == b && (calc.cols(t.subrange(ka, kb)) <= lim || kb == ka + 1);
    lemma_boundary(t, a, ka);
    lemma_boundary(t, b, kb);
    lemma_slice_chars(sv, 0, ka, kb);
    let sl = slice_from(sv, 0, ka, kb);
    lemma_trimmed_prefix(sl);
    let tr = trimmed_row(sl);
    let k = spans_chars(tr).len() as int;
    lemma_cols_take(calc, spans_chars(sl), k);
}

proof fn lemma_led_by(calc: WidthCalc, b: Block, first: bool, lv: Seq<SpanV>, piece: Seq<SpanV>, lim: nat)
    requires
        lv == lead_v(calc, b, first),
        piece_ok(calc, piece, lim),
    ensures
        led_by(calc, b, first, lv + piece, lim),
{
    assert((lv + piece).take(lv.len() as int) =~= lv);
    assert((lv + piece).skip(lv.len() as int) =~= piece);
}

impl Ctx {
    /// Pushes one row of a flowed block: its lead, then `piece`.
    fn push_row(&self, lines: &mut Vec<Line>, idx: usize, block: &Block, scale: Scale, first: bool, row: usize, piece: Vec<Span>)
        requires
            self.opts.wrap ==> piece_ok(self.opts.calc, spans_v(piece@), content_of(*self, *block, scale)),
        ensures
            final(lines)@.len() == old(lines)@.len() + 1,
            final(lines)@.take(old(lines)@.len() as int) == old(lines)@,
            flowed_row(*self, *block, idx, scale, row as int, final(lines)@.last()),
    {
        let mut spans = self.lead_spans(block, first);
        let ghost lv = spans_v(spans@);
        let mut piece = piece;
        let ghost pv = spans_v(piece@);
        spans.append(&mut piece);
        proof {
            assert(spans_v(spans@) =~= lv + pv);
            if self.opts.wrap {
                lemma_led_by(self.opts.calc, *block, first, lv, pv, content_of(*self, *block, scale));
            }
        }
        let source = self.source_line(block, row);
        let mut line = Line::new(source, idx, spans);
        line.scale = scale;
        line.hits = self.hits(&line.spans, scale);
        let ghost before = lines@;
        let ghost l = line;
        lines.push(line);
        proof {
            assert(lines@.take(before.len() as int) =~= before);
            assert(lines@.last() == l);
            assert(l.source_line == row_source(*block, row as int));
            assert(l.hits@ == hits_of(self.opts.calc, l.spans@, factor_of(scale), rows_of(scale)).0);
            if self.opts.wrap {
                assert(led_by(self.opts.calc, *block, first, spans_v(l.spans@), content_of(*self, *block, scale)));
            }
        }
    }

    /// Lays a block's text out: each logical line wrapped to the content
    /// width (when wrapping), each row led by the block's indent, gutter and
    /// marker.
    fn flow(&self, lines: &mut Vec<Line>, idx: usize, block: &Block, scale: Scale)
        requires
            self.total <= u16::MAX,
        ensures
            final(lines)@.len() > old(lines)@.len(),
            final(lines)@.take(old(lines)@.len() as int) == old(lines)@,
            forall|k: int| old(lines)@.len() <= k < final(lines)@.len() ==> flowed_row(*self, *block, idx, scale, k - old(lines)@.len(), #[trigger] final(lines)@[k]),
    {
        let width = self.content_width(block, scale);
        let logical = self.logical_lines(&block.spans);
        let ghost start = lines@;
        let start_len = lines.len();
        let mut first = true;
        let mut row: usize = 0;
        let mut li: usize = 0;
        while li < logical.len()
            invariant
                li <= logical@.len(),
                logical@.len() >= 1,
                width == content_of(*self, *block, scale),
                self.total <= u16::MAX,
                start_len == start.len(),
                lines@.len() == start.len() + row,
                first == (row == 0),
                li > 0 ==> row > 0,
                lines@.take(start.len() as int) == start,
                forall|k: int| start.len() <= k < lines@.len() ==> flowed_row(*self, *block, idx, scale, k - start.len(), #[trigger] lines@[k]),
            decreases logical.len() - li,
        {
            let line_spans = &logical[li];
            if self.opts.wrap {
                let text = crate::wrap::spans_text(line_spans.as_slice());
                let ranges = wrap_ranges(text.as_str(), width, &self.opts.calc);
                let mut ri: usize = 0;
                while ri < ranges.len()
                    invariant
                        ri <= ranges@.len(),
                        ranges@.len() >= 1,
                        self.opts.wrap,
                        text@ == spans_chars(spans_v(line_spans@)),
                        on_boundaries(text@, ranges@),
                        forall|i: int| 0 <= i < ranges@.len() ==> fits(self.opts.calc, text@, #[trigger] ranges@[i].0 as int, ranges@[i].1 as int, width as nat),
                        width == content_of(*self, *block, scale),
                        self.total <= u16::MAX,
                        start_len == start.len(),
                        lines@.len() == start.len() + row,
                        first == (row == 0),
                        li > 0 || ri > 0 ==> row > 0,
                        lines@.take(start.len() as int) == start,
                        forall|k: int| start.len() <= k < lines@.len() ==> flowed_row(*self, *block, idx, scale, k - start.len(), #[trigger] lines@[k]),
                    decreases ranges.len() - ri,
                {
                    let (s, e) = ranges[ri];
                    proof {
                        assert(fits(self.opts.calc, text@, ranges@[ri as int].0 as int, ranges@[ri as int].1 as int, width as nat));
                        lemma_piece_fits(self.opts.calc, spans_v(line_spans@), s as int, e as int, width as nat);
                    }
                    let piece = trim_trailing(slice_spans(line_spans.as_slice(), s, e));
                    let ghost before = lines@;
                    self.push_row(lines, idx, block, scale, first, row, piece);
                    proof {
                        assert forall|k: int| start.len() <= k < lines@.len() implies flowed_row(*self, *block, idx, scale, k - start.len(), #[trigger] lines@[k]) by {
                            if k < before.len() {
                                assert(lines@[k] == lines@.take(before.len() as int)[k]);
                            }
                        }
                        assert(lines@.take(start.len() as int) =~= before.take(start.len() as int));
                    }
                    first = false;
                    row = lines.len() - start_len;
                    ri = ri + 1;
                }
            } else {
                let mut piece: Vec<Span> = Vec::new();
                extend_spans(&mut piece, line_spans);
                let ghost before = lines@;
                self.push_row(lines, idx, block, scale, first, row, piece);
                proof {
                    assert forall|k: int| start.len() <= k < lines@.len() implies flowed_row(*self, *block, idx, scale, k - start.len(), #[trigger] lines@[k]) by {
                        if k < before.len() {
                            assert(lines@[k] == lines@.take(before.len() as int)[k]);
                        }
                    }
                    assert(lines@.take(start.len() as int) =~= before.take(start.len() as int));
                }
                first = false;
                row = lines.len() - start_len;
            }
            li = li + 1;
        }
    }
}

} // verus!

verus! {

/// `n` copies of `c`.
pub open spec fn rep(c: char, n: nat) -> Seq<char> {
    Seq::new(n, |_i: int| c)
}

fn repeat_char(c: char, n: usize) -> (r: String)
    ensures
        r@ == rep(c, n as nat),
{
    let mut out = String::new();
    let mut i: usize = 0;
    while i < n
        invariant
            i <= n,
            out@ == rep(c, i as nat),
        decreases n - i,
    {
        push_char(&mut out, c);
        i = i + 1;
        proof {
            assert(out@ =~= rep(c, i as nat));
        }
    }
    out
}

impl Ctx {
    /// A thematic break: a rule across the content width.
    fn rule(&self, lines: &mut Vec<Line>, theme: &Theme, idx: usize, block: &Block)
        ensures
            final(lines)@.len() == old(lines)@.len() + 1,
            final(lines)@.take(old(lines)@.len() as int) == old(lines)@,
            ({
                let l = final(lines)@.last();
                &&& l.block == idx
                &&& l.source_line == block.source_range.start
                &&& l.scale == Scale::Normal
                &&& l.hits@.len() == 0
                &&& spans_v(l.spans@) == lead_v(self.opts.calc, *block, true) + seq![
                    (rep('─', content_of(*self, *block, Scale::Normal)), theme.rule, None::<crate::ir::LinkId>),
                ]
            }),
    {
        let width = self.content_width(block, Scale::Normal);
        let mut spans = self.lead_spans(block, true);
        let ghost lv = spans_v(spans@);
        let bar = repeat_char('─', width);
        spans.push(Span::new(bar.as_str(), theme.rule));
        proof {
            assert(spans_v(spans@) =~= lv + seq![
                (rep('─', content_of(*self, *block, Scale::Normal)), theme.rule, None::<crate::ir::LinkId>),
            ]);
        }
        let ghost before = lines@;
        lines.push(Line::new(block.source_range.start, idx, spans));
        proof {
            assert(lines@.take(before.len() as int) =~= before);
        }
    }
}

/// How many `#` a line starts with.
pub open spec fn hashes(t: Seq<char>) -> nat
    decreases t.len(),
{
    if t.len() > 0 && t[0] == '#' {
        1 + hashes(t.drop_first())
    } else {
        0
    }
}

/// The style of a source-view line, from what its trimmed text starts with:
/// a heading's for `#`, a quote's for `>`, a list marker's for a bullet, a
/// rule's for `---` or `***`, and the body's otherwise.
pub open spec fn source_style_of(theme: Theme, t: Seq<char>) -> Style {
    if starts_with(t, "#"@) {
        let n = hashes(t);
        let level: int = if n > 6 { 6 } else if n < 1 { 1 } else { n as int };
        theme.headings@[level - 1]
    } else if starts_with(t, ">"@) {
        theme.quote
    } else if starts_with(t, "- "@) || starts_with(t, "* "@) || starts_with(t, "+ "@) {
        theme.list_marker
    } else if starts_with(t, "---"@) || starts_with(t, "***"@) {
        theme.rule
    } else {
        Style { fg: theme.foreground, bg: theme.background, ..Style::plain_spec() }
    }
}

fn count_hashes(v: &Vec<char>, lo: usize) -> (r: usize)
    requires
        lo <= v@.len(),
    ensures
        r == hashes(v@.skip(lo as int)),
        r <= v@.len() - lo,
{
    let mut n: usize = 0;
    let mut k = lo;
    while k < v.len() && v[k] == '#'
        invariant
            lo <= k <= v@.len(),
            n == k - lo,
            hashes(v@.skip(lo as int)) == n + hashes(v@.skip(k as int)),
        decreases v@.len() - k,
    {
        proof {
            assert(v@.skip(k as int).drop_first() =~= v@.skip(k + 1));
        }
        k = k + 1;
        n = n + 1;
    }
    n
}

impl Ctx {
    /// The style a source-view line is drawn in.
    fn source_style(&self, theme: &Theme, v: &Vec<char>, lo: usize) -> (r: Style)
        requires
            lo <= v@.len(),
        ensures
            r == source_style_of(*theme, v@.skip(lo as int)),
    {
        let n = v.len();
        proof {
            assert(v@.skip(lo as int) =~= v@.subrange(lo as int, n as int));
        }
        if crate::text::has_at(v, lo, n, &crate::text::lit("#")) {
            let h = count_hashes(v, lo);
            let level: usize = if h > 6 { 6 } else if h < 1 { 1 } else { h };
            theme.heading(level as u8)
        } else if crate::text::has_at(v, lo, n, &crate::text::lit(">")) {
            theme.quote
        } else if crate::text::has_at(v, lo, n, &crate::text::lit("- ")) || crate::text::has_at(v, lo, n, &crate::text::lit("* "))
            || crate::text::has_at(v, lo, n, &crate::text::lit("+ ")) {
            theme.list_marker
        } else if crate::text::has_at(v, lo, n, &crate::text::lit("---")) || crate::text::has_at(v, lo, n, &crate::text::lit("***")) {
            theme.rule
        } else {
            theme.body()
        }
    }
}

/// Which block owns each of `n` source lines: the last block whose range
/// covers it, and block 0 when none does.
pub open spec fn owner_of(blocks: Seq<Block>, line: int) -> nat
    decreases blocks.len(),
{
    if blocks.len() == 0 {
        0
    } else {
        let last = blocks.last();
        if last.source_range.start <= line + 1 < last.source_range.end {
            (blocks.len() - 1) as nat
        } else {
            owner_of(blocks.drop_last(), line)
        }
    }
}

/// Which block owns each source line, so the block cursor keeps working in
/// source view.
fn line_owners(doc: &Document) -> (r: Vec<usize>)
    ensures
        r@.len() == doc.source_lines@.len(),
        forall|i: int| 0 <= i < r@.len() ==> r@[i] == owner_of(doc.blocks@, i),
{
    let n = doc.source_lines.len();
    let mut owner: Vec<usize> = Vec::new();
    let mut i: usize = 0;
    while i < n
        invariant
            i <= n == doc.source_lines@.len(),
            owner@.len() == i,
            forall|q: int| 0 <= q < i ==> owner@[q] == owner_of(doc.blocks@, q),
        decreases n - i,
    {
        let mut b = doc.blocks.len();
        let mut found: usize = 0;
        proof {
            assert(doc.blocks@.take(b as int) =~= doc.blocks@);
        }
        while b > 0
            invariant
                b <= doc.blocks@.len(),
                i < n,
                owner_of(doc.blocks@, i as int) == owner_of(doc.blocks@.take(b as int), i as int),
            ensures
                b > 0 ==> found == b - 1 && owner_of(doc.blocks@, i as int) == b - 1,
                b == 0 ==> owner_of(doc.blocks@, i as int) == 0,
            decreases b,
        {
            let r = &doc.blocks[b - 1].source_range;
            proof {
                assert(doc.blocks@.take(b as int).drop_last() =~= doc.blocks@.take(b - 1));
                assert(doc.blocks@.take(b as int).last() == doc.blocks@[b - 1]);
            }
            if r.start <= i + 1 && i + 1 < r.end {
                found = b - 1;
                break;
            }
            b = b - 1;
        }
        owner.push(if b == 0 { 0 } else { found });
        i = i + 1;
    }
    owner
}

} // verus!

verus! {

/// Whether a source line opens or closes a fence.
pub open spec fn is_fence_line(t: Seq<char>) -> bool {
    starts_with(trim_start(t), "```"@) || starts_with(trim_start(t), "~~~"@)
}

/// Whether source line `i` lies inside a fence opened by an earlier line.
pub open spec fn in_fence(ls: Seq<String>, i: int) -> bool
    decreases i,
{
    if i <= 0 {
        false
    } else {
        in_fence(ls, i - 1) != is_fence_line(ls[i - 1]@)
    }
}

/// The style of source line `i` in source view: code inside and on a
/// fence, otherwise by what the line starts with.
pub open spec fn source_line_style(theme: Theme, ls: Seq<String>, i: int) -> Style {
    if in_fence(ls, i) || is_fence_line(ls[i]@) {
        theme.code
    } else {
        source_style_of(theme, trim_start(ls[i]@))
    }
}

/// A row of the source view: it shows part of source line `source_line`,
/// credited to the block that owns that line.
pub open spec fn source_row(doc: Document, l: Line) -> bool {
    &&& 1 <= l.source_line <= doc.source_lines@.len()
    &&& l.block == owner_of(doc.blocks@, l.source_line - 1)
    &&& l.scale == Scale::Normal
    &&& l.heading is None
    &&& l.hits@.len() == 0
}

impl Ctx {
    /// The raw Markdown, one row per source line (more when wrapping), each
    /// styled by what kind of line it is.
    fn source_view(&self, lines: &mut Vec<Line>, theme: &Theme, doc: &Document)
        requires
            self.total <= u16::MAX,
        ensures
            final(lines)@.take(old(lines)@.len() as int) == old(lines)@,
            final(lines)@.len() >= old(lines)@.len() + doc.source_lines@.len(),
            forall|k: int| old(lines)@.len() <= k < final(lines)@.len() ==> source_row(*doc, #[trigger] final(lines)@[k]),
            self.opts.wrap ==> forall|k: int| old(lines)@.len() <= k < final(lines)@.len() ==> piece_ok(
                self.opts.calc,
                spans_v(#[trigger] final(lines)@[k].spans@),
                if self.total >= 4 { self.total as nat } else { 4 },
            ),
            !self.opts.wrap ==> final(lines)@.len() == old(lines)@.len() + doc.source_lines@.len(),
            !self.opts.wrap ==> forall|k: int| 0 <= k < doc.source_lines@.len() ==> {
                let l = #[trigger] final(lines)@[old(lines)@.len() + k];
                &&& l.source_line == k + 1
                &&& spans_v(l.spans@) == seq![(doc.source_lines@[k]@, source_line_style(*theme, doc.source_lines@, k), None::<crate::ir::LinkId>)]
            },
    {
        let owner = line_owners(doc);
        let ghost start = lines@;
        let ghost ls = doc.source_lines@;
        let mut in_fence_now = false;
        let width: usize = if self.total >= 4 { self.total } else { 4 };
        let n = doc.source_lines.len();
        let mut i: usize = 0;
        while i < n
            invariant
                i <= n == ls.len(),
                ls == doc.source_lines@,
                owner@.len() == n,
                forall|q: int| 0 <= q < owner@.len() ==> owner@[q] == owner_of(doc.blocks@, q),
                in_fence_now == in_fence(ls, i as int),
                width == (if self.total >= 4 { self.total as nat } else { 4 }),
                self.total <= u16::MAX,
                lines@.len() >= start.len() + i,
                lines@.take(start.len() as int) == start,
                forall|k: int| start.len() <= k < lines@.len() ==> source_row(*doc, #[trigger] lines@[k]),
                self.opts.wrap ==> forall|k: int| start.len() <= k < lines@.len() ==> piece_ok(self.opts.calc, spans_v(#[trigger] lines@[k].spans@), width as nat),
                !self.opts.wrap ==> lines@.len() == start.len() + i,
                !self.opts.wrap ==> forall|k: int| 0 <= k < i ==> {
                    let l = #[trigger] lines@[start.len() + k];
                    &&& l.source_line == k + 1
                    &&& spans_v(l.spans@) == seq![(ls[k]@, source_line_style(*theme, ls, k), None::<crate::ir::LinkId>)]
                },
            decreases n - i,
        {
            let raw = &doc.source_lines[i];
            let v = chars_of(raw.as_str());
            let lo = crate::text::trim_start_range(&v, 0, v.len());
            proof {
                assert(v@.subrange(0, v@.len() as int) =~= v@);
                assert(v@.skip(lo as int) =~= v@.subrange(lo as int, v@.len() as int));
            }
            let is_fence = crate::text::has_at(&v, lo, v.len(), &crate::text::lit("```"))
                || crate::text::has_at(&v, lo, v.len(), &crate::text::lit("~~~"));
            let style = if in_fence_now || is_fence {
                theme.code
            } else {
                self.source_style(theme, &v, lo)
            };
            proof {
                assert(is_fence == is_fence_line(ls[i as int]@));
                assert(style == source_line_style(*theme, ls, i as int));
            }
            if is_fence {
                in_fence_now = !in_fence_now;
            }
            let source = i + 1;
            let block = owner[i];
            let mut spans: Vec<Span> = Vec::new();
            spans.push(Span::new(raw.as_str(), style));
            proof {
                assert(spans_v(spans@) =~= seq![(ls[i as int]@, style, None::<crate::ir::LinkId>)]);
                reveal_with_fuel(spans_chars, 2);
                assert(spans_chars(spans_v(spans@)) =~= ls[i as int]@);
            }
            let ghost before = lines@;
            if self.opts.wrap {
                let ranges = wrap_ranges(raw.as_str(), width, &self.opts.calc);
                let mut ri: usize = 0;
                while ri < ranges.len()
                    invariant
                        ri <= ranges@.len(),
                        i < n == ls.len(),
                        ls == doc.source_lines@,
                        self.opts.wrap,
                        spans_chars(spans_v(spans@)) == ls[i as int]@,
                        raw@ == ls[i as int]@,
                        on_boundaries(raw@, ranges@),
                        forall|q: int| 0 <= q < ranges@.len() ==> fits(self.opts.calc, raw@, #[trigger] ranges@[q].0 as int, ranges@[q].1 as int, width as nat),
                        1 <= source <= ls.len(),
                        block == owner_of(doc.blocks@, source - 1),
                        lines@.len() >= before.len(),
                        lines@.take(before.len() as int) == before,
                        forall|k: int| start.len() <= k < lines@.len() ==> source_row(*doc, #[trigger] lines@[k]),
                        forall|k: int| start.len() <= k < lines@.len() ==> piece_ok(self.opts.calc, spans_v(#[trigger] lines@[k].spans@), width as nat),
                        before.len() >= start.len(),
                        before.take(start.len() as int) == start,
                        ri > 0 ==> lines@.len() > before.len(),
                    decreases ranges.len() - ri,
                {
                    let (s, e) = ranges[ri];
                    proof {
                        assert(fits(self.opts.calc, raw@, ranges@[ri as int].0 as int, ranges@[ri as int].1 as int, width as nat));
                        lemma_piece_untrimmed(self.opts.calc, spans_v(spans@), s as int, e as int, width as nat);
                    }
                    let piece = slice_spans(spans.as_slice(), s, e);
                    proof {
                        assert(piece_ok(self.opts.calc, spans_v(piece@), width as nat));
                    }
                    let ghost lb = lines@;
                    let nl = Line::new(source, block, piece);
                    proof {
                        assert(piece_ok(self.opts.calc, spans_v(nl.spans@), width as nat));
                    }
                    lines.push(nl);
                    proof {
                        assert(lines@.take(lb.len() as int) =~= lb);
                        assert(lines@[lb.len() as int] == nl);
                        assert(source_row(*doc, nl));
                        assert forall|k: int| start.len() <= k < lines@.len() implies source_row(*doc, #[trigger] lines@[k]) by {
                            if k < lb.len() {
                                assert(lines@[k] == lb[k]);
                            }
                        }
                        assert forall|k: int| start.len() <= k < lines@.len() implies piece_ok(self.opts.calc, spans_v(#[trigger] lines@[k].spans@), width as nat) by {
                            if k < lb.len() {
                                assert(lines@[k] == lb[k]);
                            }
                        }
                        assert(lines@.take(before.len() as int) =~= before);
                    }
                    ri = ri + 1;
                }
            } else {
                lines.push(Line::new(source, block, spans));
                proof {
                    assert(lines@.take(before.len() as int) =~= before);
                    assert forall|k: int| start.len() <= k < lines@.len() implies source_row(*doc, #[trigger] lines@[k]) by {
                        if k < before.len() {
                            assert(lines@[k] == before[k]);
                        }
                    }
                    assert forall|k: int| 0 <= k < i + 1 implies {
                        let l = #[trigger] lines@[start.len() + k];
                        &&& l.source_line == k + 1
                        &&& spans_v(l.spans@) == seq![(ls[k]@, source_line_style(*theme, ls, k), None::<crate::ir::LinkId>)]
                    } by {
                        if k < i {
                            assert(lines@[start.len() + k] == before[start.len() + k]);
                        }
                    }
                }
            }
            proof {
                assert(lines@.take(start.len() as int) =~= before.take(start.len() as int));
            }
            i = i + 1;
        }
    }
}

/// An untrimmed wrapped piece fits the width it was wrapped to, or is one
/// character.
proof fn lemma_piece_untrimmed(calc: WidthCalc, sv: Seq<SpanV>, a: int, b: int, lim: nat)
    requires
        fits(calc, spans_chars(sv), a, b, lim),
    ensures
        piece_ok(calc, slice_from(sv, 0, char_at(spans_chars(sv), a), char_at(spans_chars(sv), b)), lim),
        boundary(spans_chars(sv), a) is Some,
        boundary(spans_chars(sv), b) is Some,
{
    let t = spans_chars(sv);
    let (ka, kb) = choose|ka: int, kb: int|
        0 <= ka <= kb <= t.len() && off(t, ka) == a && off(t, kb) == b && (calc.cols(t.subrange(ka, kb)) <= lim || kb == ka + 1);
    lemma_boundary(t, a, ka);
    lemma_boundary(t, b, kb);
    lemma_slice_chars(sv, 0, ka, kb);
}

} // verus!

verus! {

/// Box-drawing, block and arrow characters, which diagrams draw in the
/// border color rather than the body color.
pub open spec fn box_drawing(c: char) -> bool {
    ('\u{2500}' <= c && c <= '\u{257f}') || ('\u{2580}' <= c && c <= '\u{259f}') || c == '▲' || c == '▶'
        || c == '▼' || c == '◀' || c == '◇'
}

fn is_box_drawing(c: char) -> (r: bool)
    ensures
        r == box_drawing(c),
{
    ('\u{2500}' <= c && c <= '\u{257f}') || ('\u{2580}' <= c && c <= '\u{259f}') || c == '▲' || c == '▶'
        || c == '▼' || c == '◀' || c == '◇'
}

/// A diagram row as runs: each maximal run of characters of one kind
/// (border or label) in that kind's style.
pub open spec fn diagram_v(row: Seq<char>, border: Style, body: Style) -> Seq<SpanV>
    decreases row.len(),
{
    if row.len() == 0 {
        Seq::empty()
    } else {
        let prev = diagram_v(row.drop_last(), border, body);
        let c = row.last();
        let st = if box_drawing(c) { border } else { body };
        if prev.len() > 0 && prev.last().1 == st {
            prev.drop_last().push((prev.last().0.push(c), st, None))
        } else {
            prev.push((seq![c], st, None))
        }
    }
}

proof fn lemma_diagram_chars(row: Seq<char>, border: Style, body: Style)
    ensures
        spans_chars(diagram_v(row, border, body)) == row,
    decreases row.len(),
{
    if row.len() > 0 {
        let prev = diagram_v(row.drop_last(), border, body);
        lemma_diagram_chars(row.drop_last(), border, body);
        let c = row.last();
        let st = if box_drawing(c) { border } else { body };
        if prev.len() > 0 && prev.last().1 == st {
            let d = diagram_v(row, border, body);
            assert(d.drop_last() =~= prev.drop_last());
            assert(spans_chars(prev) == spans_chars(prev.drop_last()) + prev.last().0);
            assert(row =~= row.drop_last().push(c));
        } else {
            let d = diagram_v(row, border, body);
            assert(d.drop_last() =~= prev);
            assert(row =~= row.drop_last().push(c));
            assert(spans_chars(d) =~= spans_chars(prev) + seq![c]);
        }
    }
}

impl Ctx {
    /// Splits a diagram row so its rules are drawn in the border color and
    /// its labels in the body color.
    fn diagram_spans(&self, theme: &Theme, row: &str) -> (r: Vec<Span>)
        ensures
            spans_v(r@) == diagram_v(row@, theme.table_border, Style { fg: theme.foreground, bg: theme.background, ..Style::plain_spec() }),
            spans_chars(spans_v(r@)) == row@,
    {
        let border = theme.table_border;
        let body = theme.body();
        let v = chars_of(row);
        let mut out: Vec<Span> = Vec::new();
        let mut i: usize = 0;
        while i < v.len()
            invariant
                i <= v@.len(),
                v@ == row@,
                border == theme.table_border,
                body == (Style { fg: theme.foreground, bg: theme.background, ..Style::plain_spec() }),
                spans_v(out@) == diagram_v(v@.take(i as int), border, body),
            decreases v.len() - i,
        {
            let c = v[i];
            let style = if is_box_drawing(c) { border } else { body };
            proof {
                assert(v@.take(i + 1).drop_last() =~= v@.take(i as int));
                assert(v@.take(i + 1).last() == c);
            }
            let n = out.len();
            if n > 0 && out[n - 1].style == style {
                let mut last = out.pop().unwrap();
                push_char(&mut last.text, c);
                let ghost lv = span_v(last);
                out.push(last);
                proof {
                    assert(spans_v(out@) =~= diagram_v(v@.take(i + 1), border, body));
                }
            } else {
                let mut t = String::new();
                push_char(&mut t, c);
                let ghost before = spans_v(out@);
                out.push(Span::new(t.as_str(), style));
                proof {
                    assert(t@ =~= seq![c]);
                    assert(spans_v(out@) =~= diagram_v(v@.take(i + 1), border, body));
                }
            }
            i = i + 1;
        }
        proof {
            assert(v@.take(i as int) =~= v@);
            lemma_diagram_chars(row@, border, body);
        }
        out
    }
}

} // verus!

verus! {

/// A row of a drawn diagram: the block's lead, then a piece that fits.
pub open spec fn drawn_row(ctx: Ctx, b: Block, idx: usize, row: int, l: Line) -> bool {
    &&& l.block == idx
    &&& l.source_line == b.source_range.start
    &&& l.scale == Scale::Normal
    &&& l.heading is None
    &&& l.hits@.len() == 0
    &&& led_by(ctx.opts.calc, b, row == 0, spans_v(l.spans@), content_of(ctx, b, Scale::Normal))
}

/// Whether a code block's language names mermaid, in any case.
pub open spec fn is_mermaid(kind: BlockKind) -> bool {
    kind matches BlockKind::Code { lang: Some(lang) } && crate::text::lower_seq(lang@) == "mermaid"@
}

impl Ctx {
    /// Draws a mermaid code block as a diagram, or returns `false` when it
    /// is not one, cannot be drawn, or is wider than the content width.
    fn mermaid(&self, lines: &mut Vec<Line>, theme: &Theme, idx: usize, block: &Block) -> (r: bool)
        requires
            self.total <= u16::MAX,
        ensures
            !r ==> final(lines)@ == old(lines)@,
            r ==> is_mermaid(block.kind),
            final(lines)@.take(old(lines)@.len() as int) == old(lines)@,
            final(lines)@.len() >= old(lines)@.len(),
            forall|k: int| old(lines)@.len() <= k < final(lines)@.len() ==> drawn_row(*self, *block, idx, k - old(lines)@.len(), #[trigger] final(lines)@[k]),
    {
        let lang = match &block.kind {
            BlockKind::Code { lang: Some(lang) } => lang,
            _ => return false,
        };
        let lv = chars_of(lang.as_str());
        let lowered = crate::text::lower_string(&lv, 0, lv.len());
        proof {
            assert(lv@.subrange(0, lv@.len() as int) =~= lv@);
        }
        if !crate::text::str_eq(lowered.as_str(), "mermaid") {
            return false;
        }
        let text = block.text();
        let rows = match crate::mermaid::render(text.as_str(), &self.opts.calc) {
            Some(rows) => rows,
            None => return false,
        };
        let width = self.content_width(block, Scale::Normal);
        let mut j: usize = 0;
        while j < rows.len()
            invariant
                j <= rows@.len(),
                width <= u16::MAX,
                forall|q: int| 0 <= q < j ==> self.opts.calc.cols(#[trigger] rows@[q]@) <= width,
            decreases rows.len() - j,
        {
            if self.opts.calc.str(rows[j].as_str()) > width {
                return false;
            }
            j = j + 1;
        }
        let ghost start = lines@;
        let source = block.source_range.start;
        let mut i: usize = 0;
        while i < rows.len()
            invariant
                i <= rows@.len(),
                forall|q: int| 0 <= q < rows@.len() ==> self.opts.calc.cols(#[trigger] rows@[q]@) <= width,
                width == content_of(*self, *block, Scale::Normal),
                source == block.source_range.start,
                lines@.len() == start.len() + i,
                lines@.take(start.len() as int) == start,
                forall|k: int| start.len() <= k < lines@.len() ==> drawn_row(*self, *block, idx, k - start.len(), #[trigger] lines@[k]),
            decreases rows.len() - i,
        {
            let mut spans = self.lead_spans(block, i == 0);
            let ghost lead = spans_v(spans@);
            let mut d = self.diagram_spans(theme, rows[i].as_str());
            let ghost dv = spans_v(d@);
            spans.append(&mut d);
            proof {
                assert(spans_v(spans@) =~= lead + dv);
                assert(self.opts.calc.cols(rows@[i as int]@) <= width);
                lemma_led_by(self.opts.calc, *block, i == 0, lead, dv, width as nat);
            }
            let ghost before = lines@;
            let l = Line::new(source, idx, spans);
            proof {
                assert(led_by(self.opts.calc, *block, i == 0, spans_v(l.spans@), width as nat));
            }
            lines.push(l);
            proof {
                assert(lines@.take(before.len() as int) =~= before);
                assert forall|k: int| start.len() <= k < lines@.len() implies drawn_row(*self, *block, idx, k - start.len(), #[trigger] lines@[k]) by {
                    if k < before.len() {
                        assert(lines@[k] == before[k]);
                    }
                }
                assert(lines@.take(start.len() as int) =~= start);
            }
            i = i + 1;
        }
        true
    }
}

} // verus!

verus! {

/// What a function that fits an image into cells promises: it accepts any
/// arguments, and gives at least one cell each way and no more than the
/// columns and rows it was allowed (at least one of each).
pub open spec fn fit_ok<F: Fn((u32, u32), CellSize, usize, usize) -> (u16, u16)>(fit: F) -> bool {
    &&& forall|px: (u32, u32), cell: CellSize, c: usize, rw: usize| #[trigger] fit.requires((px, cell, c, rw))
    &&& forall|px: (u32, u32), cell: CellSize, c: usize, rw: usize, out: (u16, u16)|
        #[trigger] fit.ensures((px, cell, c, rw), out) ==> 1 <= out.0 && out.0 as int <= (if c >= 1 { c as int } else { 1 })
            && 1 <= out.1 && out.1 as int <= (if rw >= 1 { rw as int } else { 1 })
}

/// A row of a drawn image: the block's lead and as many blank cells as the
/// image is wide, tagged with the image and the row's place in it.
pub open spec fn image_row(ctx: Ctx, b: Block, idx: usize, id: ImageId, row: int, n: int, l: Line) -> bool {
    &&& l.block == idx
    &&& l.source_line == b.source_range.start
    &&& l.scale == Scale::Normal
    &&& l.heading is None
    &&& l.hits@.len() == 1
    &&& l.hits@[0].target == HitTarget::Image(id)
    &&& l.hits@[0].rect.y == row
    &&& l.hits@[0].rect.h == n
    &&& spans_v(l.spans@) == lead_v(ctx.opts.calc, b, row == 0) + seq![(spaces(l.hits@[0].rect.w as nat), Style::plain_spec(), None::<crate::ir::LinkId>)]
}

/// The caption under a drawn image: its alt text, cut to the content width.
pub open spec fn caption_row(ctx: Ctx, theme: Theme, b: Block, idx: usize, alt: Seq<char>, l: Line) -> bool {
    &&& l.block == idx
    &&& l.source_line == b.source_range.start
    &&& l.scale == Scale::Normal
    &&& l.heading is None
    &&& l.hits@.len() == 0
    &&& exists|k: int| 0 <= k <= alt.len() && #[trigger] ctx.opts.calc.cols(alt.take(k)) <= content_of(ctx, b, Scale::Normal)
        && spans_v(l.spans@) == lead_v(ctx.opts.calc, b, false) + seq![(alt.take(k), theme.dim, None::<crate::ir::LinkId>)]
}

/// The rows an image block was drawn as: `n` image rows, then its caption
/// when one was asked for and the alt text is not blank.
pub open spec fn image_block(ctx: Ctx, theme: Theme, doc: Document, b: Block, idx: usize, id: ImageId, caption: bool, old_lines: Seq<Line>, new_lines: Seq<Line>, n: int) -> bool {
    let alt = doc.images@[id.0 as int].alt@;
    let with_caption = caption && crate::text::trim(alt).len() > 0;
    &&& n >= 0
    &&& new_lines.len() == old_lines.len() + n + (if with_caption { 1int } else { 0 })
    &&& new_lines.take(old_lines.len() as int) == old_lines
    &&& forall|k: int| 0 <= k < n ==> image_row(ctx, b, idx, id, k, n, #[trigger] new_lines[old_lines.len() + k])
    &&& with_caption ==> caption_row(ctx, theme, b, idx, alt, new_lines.last())
}

impl Ctx {
    /// Lays out an image block: rows reserved for the image, each tagged
    /// with its place in it, then the alt text as a caption when asked for.
    /// Returns `false`, and adds nothing, when the image cannot be drawn.
    fn image_rows<F: Fn((u32, u32), CellSize, usize, usize) -> (u16, u16)>(
        &self,
        lines: &mut Vec<Line>,
        theme: &Theme,
        doc: &Document,
        idx: usize,
        block: &Block,
        id: ImageId,
        caption: bool,
        fit: &F,
    ) -> (r: bool)
        requires
            forall|px: (u32, u32), cell: CellSize, c: usize, rw: usize| #[trigger] fit.requires((px, cell, c, rw)),
        ensures
            r == (id.0 < doc.images@.len() && doc.images@[id.0 as int].size is Some && self.opts.images),
            !r ==> final(lines)@ == old(lines)@,
            r ==> exists|n: int| #[trigger] image_block(*self, *theme, *doc, *block, idx, id, caption, old(lines)@, final(lines)@, n),
            r && fit_ok(*fit) ==> forall|k: int| old(lines)@.len() <= k < final(lines)@.len() && (#[trigger] final(lines)@[k]).hits@.len() == 1
                ==> final(lines)@[k].hits@[0].rect.w <= content_of(*self, *block, Scale::Normal),
    {
        if !(id.0 < doc.images.len()) || !self.opts.images {
            return false;
        }
        let size = match doc.images[id.0].size {
            Some(sz) => sz,
            None => return false,
        };
        let width = self.content_width(block, Scale::Normal);
        let third = (self.view.rows as usize * 2) / 3;
        let max_rows: usize = if third >= 3 { third } else { 3 };
        let (cols, rows) = fit(size, self.opts.cell, width, max_rows);
        let lead_w = self.width_of(&self.lead_spans(block, false));
        let x = #[verifier::truncate] (lead_w as u16);
        let source = block.source_range.start;
        let ghost start = lines@;
        let mut row: u16 = 0;
        while row < rows
            invariant
                row <= rows,
                lines@.len() == start.len() + row,
                lines@.take(start.len() as int) == start,
                source == block.source_range.start,
                forall|k: int| 0 <= k < row ==> image_row(*self, *block, idx, id, k, rows as int, #[trigger] lines@[start.len() + k]),
                forall|k: int| 0 <= k < row ==> (#[trigger] lines@[start.len() + k]).hits@[0].rect.w == cols,
            decreases rows - row,
        {
            let mut spans = self.lead_spans(block, row == 0);
            let ghost lead = spans_v(spans@);
            let mut blank = String::new();
            push_spaces(&mut blank, cols as usize);
            spans.push(Span::plain(blank.as_str()));
            let mut line = Line::new(source, idx, spans);
            line.hits = vec![Hit { rect: Rect { x, y: row, w: cols, h: rows }, target: HitTarget::Image(id) }];
            proof {
                assert(blank@ =~= spaces(cols as nat));
                assert(spans_v(line.spans@) =~= lead + seq![(spaces(cols as nat), Style::plain_spec(), None::<crate::ir::LinkId>)]);
            }
            let ghost before = lines@;
            lines.push(line);
            proof {
                assert(lines@.take(before.len() as int) =~= before);
                assert forall|k: int| 0 <= k < row + 1 implies image_row(*self, *block, idx, id, k, rows as int, #[trigger] lines@[start.len() + k]) && lines@[start.len() + k].hits@[0].rect.w == cols by {
                    if k < row {
                        assert(lines@[start.len() + k] == before[start.len() + k]);
                    }
                }
                assert(lines@.take(start.len() as int) =~= start);
            }
            row = row + 1;
        }
        let alt = &doc.images[id.0].alt;
        let av = chars_of(alt.as_str());
        let (a, b) = crate::text::trim_range(&av, 0, av.len());
        proof {
            assert(av@.subrange(0, av@.len() as int) =~= av@);
        }
        if caption && a < b {
            let mut spans = self.lead_spans(block, false);
            let ghost lead = spans_v(spans@);
            let (text, _) = self.opts.calc.truncate(alt.as_str(), width);
            spans.push(Span::new(text.as_str(), theme.dim));
            let ghost before = lines@;
            let l = Line::new(source, idx, spans);
            proof {
                let k = text@.len() as int;
                assert(spans_v(l.spans@) =~= lead + seq![(alt@.take(k), theme.dim, None::<crate::ir::LinkId>)]);
                assert(self.opts.calc.cols(alt@.take(k)) <= content_of(*self, *block, Scale::Normal));
                assert(caption_row(*self, *theme, *block, idx, alt@, l));
            }
            lines.push(l);
            proof {
                assert(lines@.last() == l);
                assert(lines@.take(before.len() as int) =~= before);
                assert(lines@.take(start.len() as int) =~= start);
                assert forall|k: int| 0 <= k < rows implies image_row(*self, *block, idx, id, k, rows as int, #[trigger] lines@[start.len() + k]) by {
                    assert(lines@[start.len() + k] == before[start.len() + k]);
                }
            }
        }
        proof {
            let altv = doc.images@[id.0 as int].alt@;
            let with_caption = caption && crate::text::trim(altv).len() > 0;
            assert(altv == av@);
            assert(with_caption == (caption && a < b));
            assert(lines@.len() == start.len() + rows + (if with_caption { 1int } else { 0 }));
            assert(lines@.take(start.len() as int) == start);
            assert(forall|k: int| 0 <= k < rows ==> image_row(*self, *block, idx, id, k, rows as int, #[trigger] lines@[start.len() + k]));
            assert(with_caption ==> caption_row(*self, *theme, *block, idx, altv, lines@.last()));
            assert(image_block(*self, *theme, *doc, *block, idx, id, caption, start, lines@, rows as int));
            if fit_ok(*fit) {
                assert(fit.ensures((size, self.opts.cell, width, max_rows), (cols, rows)));
                assert(cols <= width);
                assert forall|k: int| start.len() <= k < lines@.len() && (#[trigger] lines@[k]).hits@.len() == 1
                    implies lines@[k].hits@[0].rect.w <= content_of(*self, *block, Scale::Normal) by {
                    if k < start.len() + rows {
                        assert(lines@[start.len() + (k - start.len())].hits@[0].rect.w == cols);
                    }
                }
            }
        }
        true
    }
}

} // verus!

verus! {

/// The rail drawn down the left of a code block.
pub open spec fn rail() -> Seq<char> {
    "▏ "@
}

/// The columns a code block's text gets: the content width less the rail,
/// and never fewer than four.
pub open spec fn code_width(ctx: Ctx, b: Block) -> nat {
    let c = content_of(ctx, b, Scale::Normal);
    let r = min_usize(ctx.opts.calc.cols(rail()));
    if c >= r + 4 { (c - r) as nat } else { 4 }
}

/// A row is a block's lead, then the rail, then a piece that fits `lim`.
pub open spec fn railed_by(calc: WidthCalc, b: Block, first: bool, style: Style, sv: Seq<SpanV>, lim: nat) -> bool {
    let lv = lead_v(calc, b, first);
    &&& sv.len() >= lv.len() + 1
    &&& sv.take(lv.len() as int) == lv
    &&& sv[lv.len() as int] == (rail(), style, None::<crate::ir::LinkId>)
    &&& piece_ok(calc, sv.skip(lv.len() as int + 1), lim)
}

/// A row of a code block shown as text.
pub open spec fn code_row(ctx: Ctx, theme: Theme, b: Block, idx: usize, l: Line) -> bool {
    &&& l.block == idx
    &&& l.source_line >= b.source_range.start
    &&& l.scale == Scale::Normal
    &&& l.heading is None
    &&& l.hits@.len() == 0
    &&& ctx.opts.wrap ==> exists|first: bool| #[trigger] railed_by(ctx.opts.calc, b, first, theme.code_fence, spans_v(l.spans@), code_width(ctx, b))
}

proof fn lemma_railed_by(calc: WidthCalc, b: Block, first: bool, style: Style, lv: Seq<SpanV>, piece: Seq<SpanV>, lim: nat)
    requires
        lv == lead_v(calc, b, first),
        piece_ok(calc, piece, lim),
    ensures
        railed_by(calc, b, first, style, lv + seq![(rail(), style, None::<crate::ir::LinkId>)] + piece, lim),
{
    let sv = lv + seq![(rail(), style, None::<crate::ir::LinkId>)] + piece;
    assert(sv.take(lv.len() as int) =~= lv);
    assert(sv.skip(lv.len() as int + 1) =~= piece);
}

/// A piece of code chopped at a column limit fits it, or is one character.
proof fn lemma_chopped_fits(calc: WidthCalc, sv: Seq<SpanV>, a: int, b: int, lim: nat)
    requires
        fits(calc, spans_chars(sv), a, b, lim),
    ensures
        piece_ok(calc, slice_from(sv, 0, char_at(spans_chars(sv), a), char_at(spans_chars(sv), b)), lim),
        boundary(spans_chars(sv), a) is Some,
        boundary(spans_chars(sv), b) is Some,
{
    lemma_piece_untrimmed(calc, sv, a, b, lim);
}

impl Ctx {
    /// Pushes one row of a code block: lead, rail, then `piece`.
    fn push_code_row(&self, lines: &mut Vec<Line>, theme: &Theme, idx: usize, block: &Block, first: bool, source: usize, piece: Vec<Span>)
        requires
            source >= block.source_range.start,
            self.opts.wrap ==> piece_ok(self.opts.calc, spans_v(piece@), code_width(*self, *block)),
        ensures
            final(lines)@.len() == old(lines)@.len() + 1,
            final(lines)@.take(old(lines)@.len() as int) == old(lines)@,
            code_row(*self, *theme, *block, idx, final(lines)@.last()),
    {
        let mut spans = self.lead_spans(block, first);
        let ghost lv = spans_v(spans@);
        spans.push(Span::new("▏ ", theme.code_fence));
        let mut piece = piece;
        let ghost pv = spans_v(piece@);
        spans.append(&mut piece);
        proof {
            assert(spans_v(spans@) =~= lv + seq![(rail(), theme.code_fence, None::<crate::ir::LinkId>)] + pv);
            if self.opts.wrap {
                lemma_railed_by(self.opts.calc, *block, first, theme.code_fence, lv, pv, code_width(*self, *block));
            }
        }
        let l = Line::new(source, idx, spans);
        proof {
            if self.opts.wrap {
                assert(railed_by(self.opts.calc, *block, first, theme.code_fence, spans_v(l.spans@), code_width(*self, *block)));
            }
        }
        let ghost before = lines@;
        lines.push(l);
        proof {
            assert(lines@.take(before.len() as int) =~= before);
            assert(lines@.last() == l);
        }
    }

    /// A code block: drawn as its picture when it has one that can be
    /// drawn, as a diagram when it is mermaid that fits, and otherwise as
    /// its text, chopped at the column limit rather than reflowed.
    fn code<F: Fn((u32, u32), CellSize, usize, usize) -> (u16, u16)>(
        &self,
        lines: &mut Vec<Line>,
        theme: &Theme,
        doc: &Document,
        idx: usize,
        block: &Block,
        fit: &F,
    )
        requires
            self.total <= u16::MAX,
            forall|px: (u32, u32), cell: CellSize, c: usize, rw: usize| #[trigger] fit.requires((px, cell, c, rw)),
        ensures
            final(lines)@.take(old(lines)@.len() as int) == old(lines)@,
            final(lines)@.len() >= old(lines)@.len(),
            (block.image matches Some(id) && exists|n: int| #[trigger] image_block(*self, *theme, *doc, *block, idx, id, false, old(lines)@, final(lines)@, n))
            || (is_mermaid(block.kind) && forall|k: int| old(lines)@.len() <= k < final(lines)@.len() ==> drawn_row(*self, *block, idx, k - old(lines)@.len(), #[trigger] final(lines)@[k]))
            || forall|k: int| old(lines)@.len() <= k < final(lines)@.len() ==> code_row(*self, *theme, *block, idx, #[trigger] final(lines)@[k]),
            fit_ok(*fit) ==> forall|k: int| old(lines)@.len() <= k < final(lines)@.len() && (#[trigger] final(lines)@[k]).hits@.len() == 1
                ==> final(lines)@[k].hits@[0].rect.w <= content_of(*self, *block, Scale::Normal),
    {
        if let Some(id) = block.image {
            if self.image_rows(lines, theme, doc, idx, block, id, false, fit) {
                return;
            }
        }
        if self.mermaid(lines, theme, idx, block) {
            return;
        }
        let start = block.source_range.start;
        let before_line = if start >= 1 { start - 1 } else { 0 };
        let mut fenced = false;
        if before_line < doc.source_lines.len() {
            let v = chars_of(doc.source_lines[before_line].as_str());
            let lo = crate::text::trim_start_range(&v, 0, v.len());
            fenced = crate::text::has_at(&v, lo, v.len(), &crate::text::lit("```"))
                || crate::text::has_at(&v, lo, v.len(), &crate::text::lit("~~~"));
        }
        let offset: usize = if fenced { 1 } else { 0 };
        let rail_w = self.opts.calc.str("▏ ");
        let content = self.content_width(block, Scale::Normal);
        let width: usize = if content >= rail_w && content - rail_w >= 4 { content - rail_w } else { 4 };
        proof {
            assert(width == code_width(*self, *block));
        }
        let logical = self.logical_lines(&block.spans);
        let ghost origin = lines@;
        let mut first = true;
        let mut li: usize = 0;
        while li < logical.len()
            invariant
                li <= logical@.len(),
                width == code_width(*self, *block),
                width <= u16::MAX,
                start == block.source_range.start,
                lines@.len() >= origin.len(),
                lines@.take(origin.len() as int) == origin,
                forall|k: int| origin.len() <= k < lines@.len() ==> code_row(*self, *theme, *block, idx, #[trigger] lines@[k]),
            decreases logical.len() - li,
        {
            let source = start.saturating_add(offset).saturating_add(li);
            let line_spans = &logical[li];
            let text = crate::wrap::spans_text(line_spans.as_slice());
            if self.opts.wrap {
                let ranges = crate::wrap::hard_wrap_ranges(text.as_str(), width, &self.opts.calc);
                let mut ri: usize = 0;
                while ri < ranges.len()
                    invariant
                        ri <= ranges@.len(),
                        self.opts.wrap,
                        text@ == spans_chars(spans_v(line_spans@)),
                        forall|q: int| 0 <= q < ranges@.len() ==> fits(self.opts.calc, text@, #[trigger] ranges@[q].0 as int, ranges@[q].1 as int, width as nat),
                        width == code_width(*self, *block),
                        source >= block.source_range.start,
                        lines@.len() >= origin.len(),
                        lines@.take(origin.len() as int) == origin,
                        forall|k: int| origin.len() <= k < lines@.len() ==> code_row(*self, *theme, *block, idx, #[trigger] lines@[k]),
                    decreases ranges.len() - ri,
                {
                    let (s, e) = ranges[ri];
                    proof {
                        assert(fits(self.opts.calc, text@, ranges@[ri as int].0 as int, ranges@[ri as int].1 as int, width as nat));
                        lemma_chopped_fits(self.opts.calc, spans_v(line_spans@), s as int, e as int, width as nat);
                    }
                    let piece = slice_spans(line_spans.as_slice(), s, e);
                    let ghost before = lines@;
                    self.push_code_row(lines, theme, idx, block, first, source, piece);
                    proof {
                        assert forall|k: int| origin.len() <= k < lines@.len() implies code_row(*self, *theme, *block, idx, #[trigger] lines@[k]) by {
                            if k < before.len() {
                                assert(lines@[k] == lines@.take(before.len() as int)[k]);
                            }
                        }
                        assert(lines@.take(origin.len() as int) =~= before.take(origin.len() as int));
                    }
                    first = false;
                    ri = ri + 1;
                }
            } else {
                let mut piece: Vec<Span> = Vec::new();
                extend_spans(&mut piece, line_spans);
                let ghost before = lines@;
                self.push_code_row(lines, theme, idx, block, first, source, piece);
                proof {
                    assert forall|k: int| origin.len() <= k < lines@.len() implies code_row(*self, *theme, *block, idx, #[trigger] lines@[k]) by {
                        if k < before.len() {
                            assert(lines@[k] == lines@.take(before.len() as int)[k]);
                        }
                    }
                    assert(lines@.take(origin.len() as int) =~= before.take(origin.len() as int));
                }
                first = false;
            }
            li = li + 1;
        }
    }
}

} // verus!

verus! {

/// The widest cell of column `i` among `rows`, saturating.
pub open spec fn col_natural(calc: WidthCalc, rows: Seq<Seq<Vec<Span>>>, i: int) -> nat
    decreases rows.len(),
{
    if rows.len() == 0 {
        0
    } else {
        let prev = col_natural(calc, rows.drop_last(), i);
        let row = rows.last();
        let here: nat = if 0 <= i < row.len() { min_usize(wid(calc, row[i]@)) } else { 0 };
        if here > prev { here } else { prev }
    }
}

/// The natural width of each column: its widest cell, header included, and
/// at least one.
pub open spec fn natural_width(calc: WidthCalc, t: Table, i: int) -> nat {
    let rows = seq![t.head@] + t.rows@.map_values(|r: Vec<Vec<Span>>| r@);
    let w = col_natural(calc, rows, i);
    if w >= 1 { w } else { 1 }
}

/// The sum of a sequence of widths.
pub open spec fn sum(ws: Seq<usize>) -> int
    decreases ws.len(),
{
    if ws.len() == 0 {
        0
    } else {
        sum(ws.drop_last()) + ws.last()
    }
}

proof fn lemma_sum_update(ws: Seq<usize>, i: int, v: usize)
    requires
        0 <= i < ws.len(),
    ensures
        sum(ws.update(i, v)) == sum(ws) - ws[i] + v,
    decreases ws.len(),
{
    if i < ws.len() - 1 {
        lemma_sum_update(ws.drop_last(), i, v);
        assert(ws.update(i, v).drop_last() =~= ws.drop_last().update(i, v));
    } else {
        assert(ws.update(i, v).drop_last() =~= ws.drop_last());
    }
}

proof fn lemma_sum_ones(ws: Seq<usize>)
    requires
        forall|k: int| 0 <= k < ws.len() ==> ws[k] <= 1,
    ensures
        sum(ws) <= ws.len(),
    decreases ws.len(),
{
    if ws.len() > 0 {
        lemma_sum_ones(ws.drop_last());
    }
}

proof fn lemma_sum_bound(ws: Seq<usize>)
    ensures
        0 <= sum(ws) <= ws.len() * (usize::MAX as int),
    decreases ws.len(),
{
    if ws.len() > 0 {
        lemma_sum_bound(ws.drop_last());
        assert((ws.len() - 1) * (usize::MAX as int) + usize::MAX == ws.len() * (usize::MAX as int)) by (nonlinear_arith);
    }
}

fn widest_over_one(widths: &Vec<usize>) -> (r: Option<usize>)
    ensures
        r is None ==> forall|k: int| 0 <= k < widths@.len() ==> widths@[k] <= 1,
        r matches Some(i) ==> i < widths@.len() && widths@[i as int] > 1
            && (forall|k: int| 0 <= k < widths@.len() ==> widths@[k] <= widths@[i as int])
            && (forall|k: int| 0 <= k < i ==> widths@[k] < widths@[i as int]),
{
    let mut best: Option<usize> = None;
    let mut i: usize = 0;
    while i < widths.len()
        invariant
            i <= widths@.len(),
            best is None ==> forall|k: int| 0 <= k < i ==> widths@[k] <= 1,
            best matches Some(b) ==> b < i && widths@[b as int] > 1
                && (forall|k: int| 0 <= k < i ==> widths@[k] <= widths@[b as int])
                && (forall|k: int| 0 <= k < b ==> widths@[k] < widths@[b as int]),
        decreases widths.len() - i,
    {
        let w = widths[i];
        match best {
            None => {
                if w > 1 {
                    best = Some(i);
                }
            },
            Some(b) => {
                if w > widths[b] {
                    best = Some(i);
                }
            },
        }
        i = i + 1;
    }
    best
}

impl Ctx {
    /// Each column's widest cell, in display columns, at least one.
    /// When wrapping, a table too wide for the width left after its lead
    /// and its borders is narrowed one column at a time, always taking
    /// from the widest column (the first of the widest), until it fits or
    /// every column is one wide. So a table that fits keeps its natural
    /// widths, one that does not ends exactly as wide as the room, and no
    /// column is wider than a narrowed one by more than one.
    fn column_widths(&self, block: &Block, table: &Table, ncols: usize) -> (r: Vec<usize>)
        ensures
            r@.len() == ncols,
            !self.opts.wrap ==> forall|i: int| 0 <= i < ncols ==> r@[i] == natural_width(self.opts.calc, *table, i),
            forall|i: int| 0 <= i < ncols ==> 1 <= #[trigger] r@[i] <= natural_width(self.opts.calc, *table, i),
            self.opts.wrap ==> ({
                let chrome = 3 * ncols + 1;
                let lead = lead_of(self.opts.calc, *block);
                let budget: int = if self.total >= lead + chrome { self.total - lead - chrome } else { 0 };
                let target: int = if budget >= ncols { budget } else { ncols as int };
                &&& sum(r@) <= target
                &&& (forall|i: int| 0 <= i < ncols ==> r@[i] == natural_width(self.opts.calc, *table, i)) || sum(r@) == target
                &&& forall|i: int, j: int| 0 <= i < ncols && 0 <= j < ncols && #[trigger] r@[i] < natural_width(self.opts.calc, *table, i)
                    ==> #[trigger] r@[j] <= r@[i] + 1
            }),
    {
        let mut widths: Vec<usize> = Vec::new();
        let mut i: usize = 0;
        let ghost rows = seq![table.head@] + table.rows@.map_values(|r: Vec<Vec<Span>>| r@);
        while i < ncols
            invariant
                i <= ncols,
                widths@.len() == i,
                rows == seq![table.head@] + table.rows@.map_values(|r: Vec<Vec<Span>>| r@),
                forall|k: int| 0 <= k < i ==> widths@[k] == natural_width(self.opts.calc, *table, k),
            decreases ncols - i,
        {
            let w = self.column_natural(table, i);
            widths.push(if w >= 1 { w } else { 1 });
            i = i + 1;
        }
        if !self.opts.wrap {
            return widths;
        }
        let chrome = ncols.saturating_add(ncols).saturating_add(ncols).saturating_add(1);
        let lead = block.indent.saturating_add(self.width_of(&block.gutter)).saturating_add(
            self.width_of(&block.prefix),
        );
        let budget = self.total.saturating_sub(lead.saturating_add(chrome));
        let target: usize = if budget >= ncols { budget } else { ncols };
        let mut total: u128 = 0;
        let mut k: usize = 0;
        while k < ncols
            invariant
                k <= ncols == widths@.len(),
                total == sum(widths@.take(k as int)),
            decreases ncols - k,
        {
            proof {
                assert(widths@.take(k + 1).drop_last() =~= widths@.take(k as int));
                lemma_sum_bound(widths@.take(k + 1));
                assert((k + 1) * (usize::MAX as int) <= (usize::MAX as int) * (usize::MAX as int)) by (nonlinear_arith)
                    requires k + 1 <= usize::MAX;
            }
            total = total + widths[k] as u128;
            k = k + 1;
        }
        proof {
            assert(widths@.take(ncols as int) =~= widths@);
        }
        let ghost natural = widths@;
        while total > target as u128
            invariant
                widths@.len() == ncols,
                total == sum(widths@),
                forall|q: int| 0 <= q < ncols ==> 1 <= #[trigger] widths@[q] <= natural_width(self.opts.calc, *table, q),
                widths@ == natural || total >= target,
                forall|q: int| 0 <= q < ncols ==> natural[q] == natural_width(self.opts.calc, *table, q),
                forall|i: int, j: int| 0 <= i < ncols && 0 <= j < ncols && #[trigger] widths@[i] < natural_width(self.opts.calc, *table, i)
                    ==> #[trigger] widths@[j] <= widths@[i] + 1,
            ensures
                total == sum(widths@),
                forall|q: int| 0 <= q < ncols ==> 1 <= #[trigger] widths@[q] <= natural_width(self.opts.calc, *table, q),
                total <= target as u128 || forall|q: int| 0 <= q < ncols ==> widths@[q] <= 1,
                widths@ == natural || total >= target,
                forall|i: int, j: int| 0 <= i < ncols && 0 <= j < ncols && #[trigger] widths@[i] < natural_width(self.opts.calc, *table, i)
                    ==> #[trigger] widths@[j] <= widths@[i] + 1,
            decreases total,
        {
            match widest_over_one(&widths) {
                None => {
                    break;
                },
                Some(w) => {
                    let v = widths[w] - 1;
                    proof {
                        lemma_sum_update(widths@, w as int, v);
                    }
                    widths.set(w, v);
                    total = total - 1;
                },
            }
        }
        proof {
            if !(total <= target as u128) {
                lemma_sum_ones(widths@);
            }
            assert(lead == lead_of(self.opts.calc, *block));
        }
        widths
    }

    /// The widest cell of column `i`, saturating.
    fn column_natural(&self, table: &Table, i: usize) -> (r: usize)
        ensures
            r == col_natural(self.opts.calc, seq![table.head@] + table.rows@.map_values(|r: Vec<Vec<Span>>| r@), i as int),
    {
        let ghost rows = seq![table.head@] + table.rows@.map_values(|r: Vec<Vec<Span>>| r@);
        let mut best: usize = if i < table.head.len() { self.width_of(&table.head[i]) } else { 0 };
        proof {
            assert(rows.take(1).drop_last() =~= Seq::<Seq<Vec<Span>>>::empty());
            assert(rows.take(1).last() == table.head@);
            assert(col_natural(self.opts.calc, Seq::<Seq<Vec<Span>>>::empty(), i as int) == 0);
            assert(col_natural(self.opts.calc, rows.take(1).drop_last(), i as int) == 0);
        }
        let mut r: usize = 0;
        while r < table.rows.len()
            invariant
                r <= table.rows@.len(),
                rows == seq![table.head@] + table.rows@.map_values(|r: Vec<Vec<Span>>| r@),
                best == col_natural(self.opts.calc, rows.take(r + 1), i as int),
            decreases table.rows.len() - r,
        {
            let row = &table.rows[r];
            let here: usize = if i < row.len() { self.width_of(&row[i]) } else { 0 };
            proof {
                assert(rows.take(r + 2).drop_last() =~= rows.take(r + 1));
                assert(rows.take(r + 2).last() == row@);
            }
            if here > best {
                best = here;
            }
            r = r + 1;
        }
        proof {
            assert(rows.take(table.rows@.len() as int + 1) =~= rows);
        }
        best
    }
}

} // verus!

verus! {

/// A row of a table: it belongs to the block, is credited to `source`, and
/// carries the rectangles of its links.
pub open spec fn table_line(ctx: Ctx, b: Block, idx: usize, source: usize, l: Line) -> bool {
    &&& l.block == idx
    &&& l.source_line == source
    &&& l.scale == Scale::Normal
    &&& l.heading is None
    &&& l.hits@ == hits_of(ctx.opts.calc, l.spans@, 1, 1).0
    &&& spans_v(l.spans@).take(lead_v(ctx.opts.calc, b, false).len() as int) == lead_v(ctx.opts.calc, b, false)
    &&& spans_v(l.spans@).len() >= lead_v(ctx.opts.calc, b, false).len()
}

fn push_spaces_span(spans: &mut Vec<Span>, n: usize)
    ensures
        spans_v(final(spans)@) == spans_v(old(spans)@) + seq![(spaces(n as nat), Style::plain_spec(), None::<crate::ir::LinkId>)],
{
    let mut t = String::new();
    push_spaces(&mut t, n);
    proof {
        assert(t@ =~= spaces(n as nat));
    }
    let ghost before = spans_v(spans@);
    spans.push(Span::plain(t.as_str()));
    proof {
        assert(spans_v(spans@) =~= before + seq![(spaces(n as nat), Style::plain_spec(), None::<crate::ir::LinkId>)]);
    }
}

proof fn lemma_prefix_kept(a: Seq<SpanV>, b: Seq<SpanV>, lv: Seq<SpanV>)
    requires
        a.len() >= lv.len(),
        a.take(lv.len() as int) == lv,
    ensures
        (a + b).len() >= lv.len(),
        (a + b).take(lv.len() as int) == lv,
{
    assert((a + b).take(lv.len() as int) =~= a.take(lv.len() as int));
}

impl Ctx {
    /// One cell wrapped to its column: one empty row for an empty cell.
    fn wrap_cell(&self, row: &Vec<Vec<Span>>, i: usize, width: usize) -> (r: Vec<Vec<Span>>)
        ensures
            r@.len() >= 1,
    {
        let mut cell: Vec<Span> = Vec::new();
        if i < row.len() {
            extend_spans(&mut cell, &row[i]);
        }
        let text = crate::wrap::spans_text(cell.as_slice());
        let mut out: Vec<Vec<Span>> = Vec::new();
        if text.as_str().is_empty() {
            out.push(Vec::new());
            return out;
        }
        let ranges = wrap_ranges(text.as_str(), width, &self.opts.calc);
        let mut k: usize = 0;
        while k < ranges.len()
            invariant
                k <= ranges@.len(),
                ranges@.len() >= 1,
                out@.len() == k,
                text@ == spans_chars(spans_v(cell@)),
                on_boundaries(text@, ranges@),
            decreases ranges.len() - k,
        {
            let (s, e) = ranges[k];
            proof {
                assert(boundary(text@, ranges@[k as int].0 as int) is Some);
                assert(boundary(text@, ranges@[k as int].1 as int) is Some);
            }
            out.push(trim_trailing(slice_spans(cell.as_slice(), s, e)));
            k = k + 1;
        }
        out
    }

    /// One table row: every cell wrapped to its column, the row as tall as
    /// its tallest cell, each cell padded to its column by its alignment
    /// between vertical borders.
    fn table_row(
        &self,
        lines: &mut Vec<Line>,
        theme: &Theme,
        idx: usize,
        block: &Block,
        row: &Vec<Vec<Span>>,
        widths: &Vec<usize>,
        align: &Vec<Align>,
        source: usize,
    )
        ensures
            final(lines)@.len() > old(lines)@.len(),
            final(lines)@.take(old(lines)@.len() as int) == old(lines)@,
            forall|k: int| old(lines)@.len() <= k < final(lines)@.len() ==> table_line(*self, *block, idx, source, #[trigger] final(lines)@[k]),
    {
        let border = theme.table_border;
        let mut wrapped: Vec<Vec<Vec<Span>>> = Vec::new();
        let mut height: usize = 1;
        let mut c: usize = 0;
        while c < widths.len()
            invariant
                c <= widths@.len(),
                wrapped@.len() == c,
                height >= 1,
            decreases widths.len() - c,
        {
            let w = self.wrap_cell(row, c, widths[c]);
            if c == 0 || w.len() > height {
                height = w.len();
            }
            wrapped.push(w);
            c = c + 1;
        }
        let ghost start = lines@;
        let mut line_idx: usize = 0;
        while line_idx < height
            invariant
                line_idx <= height,
                wrapped@.len() == widths@.len(),
                lines@.len() == start.len() + line_idx,
                lines@.take(start.len() as int) == start,
                forall|k: int| start.len() <= k < lines@.len() ==> table_line(*self, *block, idx, source, #[trigger] lines@[k]),
            decreases height - line_idx,
        {
            let mut spans = self.lead_spans(block, false);
            let ghost lv = spans_v(spans@);
            let mut col: usize = 0;
            while col < widths.len()
                invariant
                    col <= widths@.len(),
                    wrapped@.len() == widths@.len(),
                    lv == lead_v(self.opts.calc, *block, false),
                    spans_v(spans@).len() >= lv.len(),
                    spans_v(spans@).take(lv.len() as int) == lv,
                decreases widths.len() - col,
            {
                let width = widths[col];
                let ghost s0 = spans_v(spans@);
                spans.push(Span::new("│ ", border));
                proof {
                    assert(spans_v(spans@) =~= s0 + seq![span_v(spans@.last())]);
                    lemma_prefix_kept(s0, seq![span_v(spans@.last())], lv);
                }
                let empty: Vec<Span> = Vec::new();
                let cell: &Vec<Span> = if line_idx < wrapped[col].len() { &wrapped[col][line_idx] } else { &empty };
                let used = self.width_of(cell);
                let pad = width.saturating_sub(used);
                let a = if col < align.len() { align[col] } else { Align::Left };
                let (before, after) = match a {
                    Align::Left => (0, pad),
                    Align::Right => (pad, 0),
                    Align::Center => (pad / 2, pad - pad / 2),
                };
                if before > 0 {
                    let ghost s1 = spans_v(spans@);
                    push_spaces_span(&mut spans, before);
                    proof {
                        lemma_prefix_kept(s1, seq![(spaces(before as nat), Style::plain_spec(), None::<crate::ir::LinkId>)], lv);
                    }
                }
                let ghost s2 = spans_v(spans@);
                extend_spans(&mut spans, cell);
                proof {
                    lemma_prefix_kept(s2, spans_v(cell@), lv);
                }
                let ghost s3 = spans_v(spans@);
                push_spaces_span(&mut spans, after.saturating_add(1));
                proof {
                    lemma_prefix_kept(s3, seq![(spaces(after.saturating_add(1) as nat), Style::plain_spec(), None::<crate::ir::LinkId>)], lv);
                }
                col = col + 1;
            }
            let ghost s4 = spans_v(spans@);
            spans.push(Span::new("│", border));
            proof {
                assert(spans_v(spans@) =~= s4 + seq![span_v(spans@.last())]);
                lemma_prefix_kept(s4, seq![span_v(spans@.last())], lv);
            }
            let mut line = Line::new(source, idx, spans);
            line.hits = self.hits(&line.spans, Scale::Normal);
            let ghost before_lines = lines@;
            let ghost nl = line;
            lines.push(line);
            proof {
                assert(lines@.take(before_lines.len() as int) =~= before_lines);
                assert(table_line(*self, *block, idx, source, nl));
                assert forall|k: int| start.len() <= k < lines@.len() implies table_line(*self, *block, idx, source, #[trigger] lines@[k]) by {
                    if k < before_lines.len() {
                        assert(lines@[k] == before_lines[k]);
                    }
                }
                assert(lines@.take(start.len() as int) =~= start);
            }
            line_idx = line_idx + 1;
        }
    }
}

} // verus!

verus! {

/// A horizontal table rule: `left`, a run of `─` two wider than each
/// column, `mid` between columns, and `right`.
/// The runs of a table rule between its end pieces: a run of `─` two
/// longer than each column's width, `mid` between two runs.
pub open spec fn rule_runs(mid: Seq<char>, widths: Seq<usize>) -> Seq<char>
    decreases widths.len(),
{
    if widths.len() == 0 {
        Seq::empty()
    } else {
        let w = widths.last();
        let run = rep('─', (if w + 2 <= usize::MAX { w + 2 } else { usize::MAX as int }) as nat);
        rule_runs(mid, widths.drop_last()) + (if widths.len() > 1 { mid } else { Seq::empty() }) + run
    }
}

fn table_rule(left: &str, mid: &str, right: &str, widths: &Vec<usize>) -> (r: String)
    ensures
        r@ == left@ + rule_runs(mid@, widths@) + right@,
{
    let mut s = String::new();
    crate::text::push_str(&mut s, left);
    let mut i: usize = 0;
    proof {
        assert(s@ =~= left@ + rule_runs(mid@, widths@.take(0)));
    }
    while i < widths.len()
        invariant
            i <= widths@.len(),
            s@ == left@ + rule_runs(mid@, widths@.take(i as int)),
        decreases widths.len() - i,
    {
        let ghost before = s@;
        proof {
            assert(widths@.take(i + 1).drop_last() =~= widths@.take(i as int));
            assert(widths@.take(i + 1).last() == widths@[i as int]);
        }
        if i > 0 {
            crate::text::push_str(&mut s, mid);
        }
        let run = repeat_char('─', widths[i].saturating_add(2));
        crate::text::push_str(&mut s, run.as_str());
        proof {
            assert(s@ =~= left@ + rule_runs(mid@, widths@.take(i + 1)));
        }
        i = i + 1;
    }
    proof {
        assert(widths@.take(i as int) =~= widths@);
    }
    crate::text::push_str(&mut s, right);
    s
}

/// A row of a table block: one of its rules or one of its cell rows.
pub open spec fn table_part(ctx: Ctx, b: Block, idx: usize, l: Line) -> bool {
    &&& l.block == idx
    &&& l.scale == Scale::Normal
    &&& l.heading is None
}

impl Ctx {
    fn emit_rule(&self, lines: &mut Vec<Line>, theme: &Theme, idx: usize, block: &Block, text: String, source: usize)
        ensures
            final(lines)@.len() == old(lines)@.len() + 1,
            final(lines)@.take(old(lines)@.len() as int) == old(lines)@,
            table_part(*self, *block, idx, final(lines)@.last()),
            final(lines)@.last().source_line == source,
    {
        let mut spans = self.lead_spans(block, lines.len() == 0);
        spans.push(Span::new(text.as_str(), theme.table_border));
        let ghost before = lines@;
        lines.push(Line::new(source, idx, spans));
        proof {
            assert(lines@.take(before.len() as int) =~= before);
        }
    }

    /// A table: a top rule, the header and a rule under it when there is
    /// one, the rows, then a bottom rule; nothing for a table with no
    /// columns.
    fn table(&self, lines: &mut Vec<Line>, theme: &Theme, idx: usize, block: &Block)
        ensures
            final(lines)@.len() >= old(lines)@.len(),
            final(lines)@.take(old(lines)@.len() as int) == old(lines)@,
            forall|k: int| old(lines)@.len() <= k < final(lines)@.len() ==> table_part(*self, *block, idx, #[trigger] final(lines)@[k]),
            (block.table matches Some(t) && (t.head@.len() > 0 || exists|r: int| 0 <= r < t.rows@.len() && #[trigger] t.rows@[r]@.len() > 0))
                ==> final(lines)@.len() >= old(lines)@.len() + 3,
    {
        let table = match &block.table {
            Some(t) => t,
            None => return,
        };
        let mut ncols = table.head.len();
        let mut r: usize = 0;
        while r < table.rows.len()
            invariant
                r <= table.rows@.len(),
                ncols >= table.head@.len(),
                forall|q: int| 0 <= q < r ==> ncols >= #[trigger] table.rows@[q]@.len(),
            decreases table.rows.len() - r,
        {
            if table.rows[r].len() > ncols {
                ncols = table.rows[r].len();
            }
            r = r + 1;
        }
        if ncols == 0 {
            return;
        }
        let widths = self.column_widths(block, table, ncols);
        let start = block.source_range.start;
        let mut source = start;
        let ghost origin = lines@;
        self.emit_rule(lines, theme, idx, block, table_rule("┌", "┬", "┐", &widths), source);
        proof {
            assert forall|k: int| origin.len() <= k < lines@.len() implies table_part(*self, *block, idx, #[trigger] lines@[k]) by {
                assert(k == lines@.len() - 1);
            }
        }
        if table.head.len() > 0 {
            let ghost b0 = lines@;
            self.table_row(lines, theme, idx, block, &table.head, &widths, &table.align, source);
            proof {
                assert forall|k: int| origin.len() <= k < lines@.len() implies table_part(*self, *block, idx, #[trigger] lines@[k]) by {
                    if k < b0.len() {
                        assert(lines@[k] == lines@.take(b0.len() as int)[k]);
                    } else {
                        assert(table_line(*self, *block, idx, source, lines@[k]));
                    }
                }
                assert(lines@.take(origin.len() as int) =~= b0.take(origin.len() as int));
            }
            source = source.saturating_add(1);
            let ghost b1 = lines@;
            self.emit_rule(lines, theme, idx, block, table_rule("├", "┼", "┤", &widths), source);
            proof {
                assert forall|k: int| origin.len() <= k < lines@.len() implies table_part(*self, *block, idx, #[trigger] lines@[k]) by {
                    if k < b1.len() {
                        assert(lines@[k] == lines@.take(b1.len() as int)[k]);
                    }
                }
                assert(lines@.take(origin.len() as int) =~= b1.take(origin.len() as int));
            }
            source = source.saturating_add(1);
        }
        let ghost mid = lines@;
        let mut i: usize = 0;
        while i < table.rows.len()
            invariant
                i <= table.rows@.len(),
                lines@.len() >= mid.len(),
                mid.len() > origin.len(),
                lines@.take(origin.len() as int) == origin,
                forall|k: int| origin.len() <= k < lines@.len() ==> table_part(*self, *block, idx, #[trigger] lines@[k]),
                (table.head@.len() > 0 || exists|q: int| 0 <= q < i && #[trigger] table.rows@[q]@.len() > 0) ==> lines@.len() >= origin.len() + 2,
            decreases table.rows.len() - i,
        {
            let ghost b2 = lines@;
            self.table_row(lines, theme, idx, block, &table.rows[i], &widths, &table.align, source);
            proof {
                assert forall|k: int| origin.len() <= k < lines@.len() implies table_part(*self, *block, idx, #[trigger] lines@[k]) by {
                    if k < b2.len() {
                        assert(lines@[k] == lines@.take(b2.len() as int)[k]);
                    } else {
                        assert(table_line(*self, *block, idx, source, lines@[k]));
                    }
                }
                assert(lines@.take(origin.len() as int) =~= b2.take(origin.len() as int));
            }
            source = source.saturating_add(1);
            i = i + 1;
        }
        let e = block.source_range.end;
        let last = if e >= 1 { e - 1 } else { 0 };
        let ghost b3 = lines@;
        self.emit_rule(lines, theme, idx, block, table_rule("└", "┴", "┘", &widths), if source < last { source } else { last });
        proof {
            assert(lines@.take(origin.len() as int) =~= b3.take(origin.len() as int));
            assert forall|k: int| origin.len() <= k < lines@.len() implies table_part(*self, *block, idx, #[trigger] lines@[k]) by {
                if k < b3.len() {
                    assert(lines@[k] == lines@.take(b3.len() as int)[k]);
                }
            }
        }
    }
}

} // verus!

verus! {

/// The shape a row of block `b` takes when wrapping: a blank separator,
/// flowed text, a diagram row, a code row, an image row or its caption (all
/// led by the block's lead and fitting the width left after it, but for a
/// piece that is a single character), or a row of a table.
pub open spec fn row_shape(ctx: Ctx, theme: Theme, b: Block, l: Line) -> bool {
    let calc = ctx.opts.calc;
    let sv = spans_v(l.spans@);
    ||| sv.len() == 0
    ||| exists|first: bool| #[trigger] led_by(calc, b, first, sv, content_of(ctx, b, l.scale))
    ||| l.scale == Scale::Normal && exists|first: bool| #[trigger] railed_by(calc, b, first, theme.code_fence, sv, code_width(ctx, b))
    ||| l.hits@.len() == 1 && l.hits@[0].rect.w <= content_of(ctx, b, Scale::Normal) && l.scale == Scale::Normal
        && sv == lead_v(calc, b, l.hits@[0].rect.y == 0) + seq![(spaces(l.hits@[0].rect.w as nat), Style::plain_spec(), None::<crate::ir::LinkId>)]
    ||| l.scale == Scale::Normal && exists|k: int, alt: Seq<char>| 0 <= k <= alt.len() && #[trigger] calc.cols(alt.take(k)) <= content_of(ctx, b, Scale::Normal)
        && sv == lead_v(calc, b, false) + seq![(alt.take(k), theme.dim, None::<crate::ir::LinkId>)]
    ||| l.scale == Scale::Normal && sv == lead_v(calc, b, true) + seq![(rep('─', content_of(ctx, b, Scale::Normal)), theme.rule, None::<crate::ir::LinkId>)]
    ||| b.kind is Table
}

impl Ctx {
    /// An image block: the image when it can be drawn, otherwise its alt
    /// text flowed as a paragraph.
    fn image<F: Fn((u32, u32), CellSize, usize, usize) -> (u16, u16)>(
        &self,
        lines: &mut Vec<Line>,
        theme: &Theme,
        doc: &Document,
        idx: usize,
        block: &Block,
        id: ImageId,
        fit: &F,
    )
        requires
            self.total <= u16::MAX,
            forall|px: (u32, u32), cell: CellSize, c: usize, rw: usize| #[trigger] fit.requires((px, cell, c, rw)),
        ensures
            final(lines)@.len() > old(lines)@.len() || (exists|n: int| #[trigger] image_block(*self, *theme, *doc, *block, idx, id, true, old(lines)@, final(lines)@, n)),
            final(lines)@.take(old(lines)@.len() as int) == old(lines)@,
            (exists|n: int| #[trigger] image_block(*self, *theme, *doc, *block, idx, id, true, old(lines)@, final(lines)@, n))
                || forall|k: int| old(lines)@.len() <= k < final(lines)@.len() ==> flowed_row(*self, *block, idx, Scale::Normal, k - old(lines)@.len(), #[trigger] final(lines)@[k]),
            fit_ok(*fit) ==> forall|k: int| old(lines)@.len() <= k < final(lines)@.len() && (#[trigger] final(lines)@[k]).hits@.len() == 1
                && final(lines)@[k].hits@[0].target is Image ==> final(lines)@[k].hits@[0].rect.w <= content_of(*self, *block, Scale::Normal),
    {
        if !self.image_rows(lines, theme, doc, idx, block, id, true, fit) {
            self.flow(lines, idx, block, Scale::Normal);
            proof {
                assert forall|k: int| old(lines)@.len() <= k < lines@.len() && (#[trigger] lines@[k]).hits@.len() == 1
                    && lines@[k].hits@[0].target is Image implies lines@[k].hits@[0].rect.w <= content_of(*self, *block, Scale::Normal) by {
                    assert(flowed_row(*self, *block, idx, Scale::Normal, k - old(lines)@.len(), lines@[k]));
                    lemma_link_hits(self.opts.calc, lines@[k].spans@, 1, 1);
                    assert(lines@[k].hits@[0].target is Link);
                }
            }
        }
    }
}

/// The rectangles worked out for a row's links are all links.
proof fn lemma_link_hits(calc: WidthCalc, s: Seq<Span>, factor: nat, h: u16)
    ensures
        forall|i: int| 0 <= i < hits_of(calc, s, factor, h).0.len() ==> (#[trigger] hits_of(calc, s, factor, h).0[i]).target is Link,
    decreases s.len(),
{
    if s.len() > 0 {
        lemma_link_hits(calc, s.drop_last(), factor, h);
    }
}

} // verus!

verus! {

proof fn lemma_image_rows_shape(ctx: Ctx, theme: Theme, doc: Document, b: Block, idx: usize, id: ImageId, caption: bool, old_lines: Seq<Line>, new_lines: Seq<Line>, n: int)
    requires
        image_block(ctx, theme, doc, b, idx, id, caption, old_lines, new_lines, n),
        forall|k: int| old_lines.len() <= k < new_lines.len() && (#[trigger] new_lines[k]).hits@.len() == 1
            ==> new_lines[k].hits@[0].rect.w <= content_of(ctx, b, Scale::Normal),
    ensures
        forall|k: int| old_lines.len() <= k < new_lines.len() ==> (#[trigger] new_lines[k]).block == idx && row_shape(ctx, theme, b, new_lines[k]),
{
    assert forall|k: int| old_lines.len() <= k < new_lines.len() implies (#[trigger] new_lines[k]).block == idx && row_shape(ctx, theme, b, new_lines[k]) by {
        let j = k - old_lines.len();
        if j < n {
            assert(image_row(ctx, b, idx, id, j, n, new_lines[old_lines.len() + j]));
        } else {
            let alt = doc.images@[id.0 as int].alt@;
            assert(caption_row(ctx, theme, b, idx, alt, new_lines.last()));
            let kk = choose|kk: int| 0 <= kk <= alt.len() && #[trigger] ctx.opts.calc.cols(alt.take(kk)) <= content_of(ctx, b, Scale::Normal)
                && spans_v(new_lines.last().spans@) == lead_v(ctx.opts.calc, b, false) + seq![(alt.take(kk), theme.dim, None::<crate::ir::LinkId>)];
            assert(ctx.opts.calc.cols(alt.take(kk)) <= content_of(ctx, b, Scale::Normal));
        }
    }
}

impl Ctx {
    /// One block: a blank line before it when it asks for one (never at the
    /// top), then its rows.
    fn block<F: Fn((u32, u32), CellSize, usize, usize) -> (u16, u16)>(
        &self,
        lines: &mut Vec<Line>,
        theme: &Theme,
        doc: &Document,
        idx: usize,
        block: &Block,
        fit: &F,
    )
        requires
            self.total <= u16::MAX,
            forall|px: (u32, u32), cell: CellSize, c: usize, rw: usize| #[trigger] fit.requires((px, cell, c, rw)),
        ensures
            final(lines)@.len() >= old(lines)@.len(),
            final(lines)@.take(old(lines)@.len() as int) == old(lines)@,
            forall|k: int| old(lines)@.len() <= k < final(lines)@.len() ==> (#[trigger] final(lines)@[k]).block == idx,
            self.opts.wrap && fit_ok(*fit) ==> forall|k: int| old(lines)@.len() <= k < final(lines)@.len() ==> row_shape(*self, *theme, *block, #[trigger] final(lines)@[k]),
    {
        let ghost origin = lines@;
        if block.blank_before && lines.len() > 0 {
            let l = Line::new(block.source_range.start, idx, Vec::new());
            proof {
                assert(spans_v(l.spans@) =~= Seq::<SpanV>::empty());
            }
            lines.push(l);
            proof {
                assert(lines@.take(origin.len() as int) =~= origin);
            }
        }
        let ghost mid = lines@;
        proof {
            assert forall|k: int| origin.len() <= k < mid.len() implies (#[trigger] mid[k]).block == idx && row_shape(*self, *theme, *block, mid[k]) by {
                assert(spans_v(mid[k].spans@) =~= Seq::<SpanV>::empty());
            }
        }
        match &block.kind {
            BlockKind::Rule => {
                self.rule(lines, theme, idx, block);
                proof {
                    assert forall|k: int| mid.len() <= k < lines@.len() implies (#[trigger] lines@[k]).block == idx && row_shape(*self, *theme, *block, lines@[k]) by {
                        assert(k == lines@.len() - 1);
                    }
                }
            },
            BlockKind::Code { .. } => {
                self.code(lines, theme, doc, idx, block, fit);
                proof {
                    if block.image matches Some(id) && exists|n: int| #[trigger] image_block(*self, *theme, *doc, *block, idx, id, false, mid, lines@, n) {
                        let id = block.image->0;
                        let n = choose|n: int| #[trigger] image_block(*self, *theme, *doc, *block, idx, id, false, mid, lines@, n);
                        if fit_ok(*fit) {
                            lemma_image_rows_shape(*self, *theme, *doc, *block, idx, id, false, mid, lines@, n);
                        }
                        assert forall|k: int| mid.len() <= k < lines@.len() implies (#[trigger] lines@[k]).block == idx by {
                            let j = k - mid.len();
                            if j < n {
                                assert(image_row(*self, *block, idx, id, j, n, lines@[mid.len() + j]));
                            }
                        }
                    } else if is_mermaid(block.kind) && forall|k: int| mid.len() <= k < lines@.len() ==> drawn_row(*self, *block, idx, k - mid.len(), #[trigger] lines@[k]) {
                        assert forall|k: int| mid.len() <= k < lines@.len() implies (#[trigger] lines@[k]).block == idx && row_shape(*self, *theme, *block, lines@[k]) by {
                            assert(drawn_row(*self, *block, idx, k - mid.len(), lines@[k]));
                            assert(led_by(self.opts.calc, *block, k - mid.len() == 0, spans_v(lines@[k].spans@), content_of(*self, *block, lines@[k].scale)));
                        }
                    } else {
                        assert forall|k: int| mid.len() <= k < lines@.len() implies (#[trigger] lines@[k]).block == idx && (self.opts.wrap ==> row_shape(*self, *theme, *block, lines@[k])) by {
                            assert(code_row(*self, *theme, *block, idx, lines@[k]));
                        }
                    }
                }
            },
            BlockKind::Table => {
                self.table(lines, theme, idx, block);
                proof {
                    assert forall|k: int| mid.len() <= k < lines@.len() implies (#[trigger] lines@[k]).block == idx && row_shape(*self, *theme, *block, lines@[k]) by {
                        assert(table_part(*self, *block, idx, lines@[k]));
                    }
                }
            },
            BlockKind::Image(id) => {
                self.image(lines, theme, doc, idx, block, *id, fit);
                proof {
                    let id = *id;
                    if exists|n: int| #[trigger] image_block(*self, *theme, *doc, *block, idx, id, true, mid, lines@, n) {
                        let n = choose|n: int| #[trigger] image_block(*self, *theme, *doc, *block, idx, id, true, mid, lines@, n);
                        if fit_ok(*fit) {
                            assert forall|k: int| mid.len() <= k < lines@.len() && (#[trigger] lines@[k]).hits@.len() == 1
                                implies lines@[k].hits@[0].rect.w <= content_of(*self, *block, Scale::Normal) by {
                                let j = k - mid.len();
                                if j < n {
                                    assert(image_row(*self, *block, idx, id, j, n, lines@[mid.len() + j]));
                                } else {
                                    assert(caption_row(*self, *theme, *block, idx, doc.images@[id.0 as int].alt@, lines@.last()));
                                }
                            }
                            lemma_image_rows_shape(*self, *theme, *doc, *block, idx, id, true, mid, lines@, n);
                        }
                        assert forall|k: int| mid.len() <= k < lines@.len() implies (#[trigger] lines@[k]).block == idx by {
                            let j = k - mid.len();
                            if j < n {
                                assert(image_row(*self, *block, idx, id, j, n, lines@[mid.len() + j]));
                            } else {
                                assert(caption_row(*self, *theme, *block, idx, doc.images@[id.0 as int].alt@, lines@.last()));
                            }
                        }
                    } else {
                        assert forall|k: int| mid.len() <= k < lines@.len() implies (#[trigger] lines@[k]).block == idx && (self.opts.wrap ==> row_shape(*self, *theme, *block, lines@[k])) by {
                            assert(flowed_row(*self, *block, idx, Scale::Normal, k - mid.len(), lines@[k]));
                        }
                    }
                }
            },
            BlockKind::Heading(level) => {
                let scale = self.heading_scale(*level);
                self.flow(lines, idx, block, scale);
                proof {
                    assert forall|k: int| mid.len() <= k < lines@.len() implies (#[trigger] lines@[k]).block == idx && (self.opts.wrap ==> row_shape(*self, *theme, *block, lines@[k])) by {
                        assert(flowed_row(*self, *block, idx, scale, k - mid.len(), lines@[k]));
                    }
                }
            },
            _ => {
                self.flow(lines, idx, block, Scale::Normal);
                proof {
                    assert forall|k: int| mid.len() <= k < lines@.len() implies (#[trigger] lines@[k]).block == idx && (self.opts.wrap ==> row_shape(*self, *theme, *block, lines@[k])) by {
                        assert(flowed_row(*self, *block, idx, Scale::Normal, k - mid.len(), lines@[k]));
                    }
                }
            },
        }
        proof {
            assert(lines@.take(origin.len() as int) =~= mid.take(origin.len() as int));
            assert forall|k: int| origin.len() <= k < lines@.len() implies (#[trigger] lines@[k]).block == idx by {
                if k < mid.len() {
                    assert(lines@[k] == lines@.take(mid.len() as int)[k]);
                }
            }
            if self.opts.wrap && fit_ok(*fit) {
                assert forall|k: int| origin.len() <= k < lines@.len() implies row_shape(*self, *theme, *block, #[trigger] lines@[k]) by {
                    if k < mid.len() {
                        assert(lines@[k] == lines@.take(mid.len() as int)[k]);
                    }
                }
            }
        }
    }
}

} // verus!

verus! {

/// The context a layout of `view` under `opts` is worked out in.
pub open spec fn ctx_of(view: Viewport, opts: Options) -> Ctx {
    Ctx { opts, view, total: total_of(view, opts) as usize }
}

/// Lays a document out as rows for a viewport: the raw Markdown in source
/// view, otherwise each block in turn. `fit` sizes an image in cells, given
/// its pixels, the cell size and the columns and rows it may take. A
/// document that lays out to nothing still gets one empty row to scroll
/// onto.
pub fn layout<F: Fn((u32, u32), CellSize, usize, usize) -> (u16, u16)>(
    doc: &Document,
    view: Viewport,
    opts: &Options,
    theme: &Theme,
    fit: &F,
) -> (r: Vec<Line>)
    requires
        forall|px: (u32, u32), cell: CellSize, c: usize, rw: usize| #[trigger] fit.requires((px, cell, c, rw)),
    ensures
        r@.len() >= 1,
        !opts.source ==> forall|k: int| 0 <= k < r@.len() ==> (#[trigger] r@[k]).block < doc.blocks@.len() || (r@.len() == 1 && r@[k].block == 0 && r@[k].spans@.len() == 0),
        !opts.source && opts.wrap && fit_ok(*fit) ==> forall|k: int| 0 <= k < r@.len() && (#[trigger] r@[k]).block < doc.blocks@.len()
            ==> row_shape(ctx_of(view, *opts), *theme, doc.blocks@[r@[k].block as int], r@[k]),
        opts.source && doc.source_lines@.len() > 0 ==> forall|k: int| 0 <= k < r@.len() ==> source_row(*doc, #[trigger] r@[k]),
        opts.source && opts.wrap ==> forall|k: int| 0 <= k < r@.len() ==> piece_ok(
            opts.calc,
            spans_v(#[trigger] r@[k].spans@),
            if total_of(view, *opts) >= 4 { total_of(view, *opts) } else { 4 },
        ),
        opts.source && !opts.wrap && doc.source_lines@.len() > 0 ==> r@.len() == doc.source_lines@.len() && forall|k: int| 0 <= k < r@.len() ==> {
            let l = #[trigger] r@[k];
            &&& l.source_line == k + 1
            &&& spans_v(l.spans@) == seq![(doc.source_lines@[k]@, source_line_style(*theme, doc.source_lines@, k), None::<crate::ir::LinkId>)]
        },
{
    let total = total_width(view, opts);
    let ctx = Ctx { opts: *opts, view, total };
    let mut lines: Vec<Line> = Vec::new();
    if opts.source {
        ctx.source_view(&mut lines, theme, doc);
        proof {
            if !opts.wrap {
                assert forall|k: int| 0 <= k < lines@.len() implies {
                    let l = #[trigger] lines@[k];
                    &&& l.source_line == k + 1
                    &&& spans_v(l.spans@) == seq![(doc.source_lines@[k]@, source_line_style(*theme, doc.source_lines@, k), None::<crate::ir::LinkId>)]
                } by {
                    assert(lines@[0 + k] == lines@[k]);
                }
            }
        }
    } else {
        let mut i: usize = 0;
        while i < doc.blocks.len()
            invariant
                i <= doc.blocks@.len(),
                ctx == ctx_of(view, *opts),
                ctx.total <= u16::MAX,
                forall|px: (u32, u32), cell: CellSize, c: usize, rw: usize| #[trigger] fit.requires((px, cell, c, rw)),
                forall|k: int| 0 <= k < lines@.len() ==> (#[trigger] lines@[k]).block < i,
                opts.wrap && fit_ok(*fit) ==> forall|k: int| 0 <= k < lines@.len() ==> row_shape(ctx, *theme, doc.blocks@[lines@[k].block as int], #[trigger] lines@[k]),
            decreases doc.blocks.len() - i,
        {
            let ghost before = lines@;
            ctx.block(&mut lines, theme, doc, i, &doc.blocks[i], fit);
            proof {
                assert forall|k: int| 0 <= k < lines@.len() implies (#[trigger] lines@[k]).block < i + 1 by {
                    if k < before.len() {
                        assert(lines@[k] == lines@.take(before.len() as int)[k]);
                    }
                }
                if opts.wrap && fit_ok(*fit) {
                    assert forall|k: int| 0 <= k < lines@.len() implies row_shape(ctx, *theme, doc.blocks@[lines@[k].block as int], #[trigger] lines@[k]) by {
                        if k < before.len() {
                            assert(lines@[k] == lines@.take(before.len() as int)[k]);
                        }
                    }
                }
            }
            i = i + 1;
        }
    }
    if lines.len() == 0 {
        lines.push(Line::new(1, 0, Vec::new()));
    }
    lines
}

/// A row that overruns only by one character: it is a part that fits
/// `room` columns followed by at most one character.
pub open spec fn overhang(calc: WidthCalc, sv: Seq<SpanV>, room: nat) -> bool {
    exists|j: int| 0 <= j <= sv.len() && #[trigger] calc.cols(spans_chars(sv.take(j))) <= room && spans_chars(sv.skip(j)).len() <= 1
}

proof fn lemma_split_cols(calc: WidthCalc, sv: Seq<SpanV>, j: int)
    requires
        0 <= j <= sv.len(),
    ensures
        calc.cols(spans_chars(sv)) == calc.cols(spans_chars(sv.take(j))) + calc.cols(spans_chars(sv.skip(j))),
{
    assert(sv.take(j) + sv.skip(j) =~= sv);
    lemma_wid_add(calc, sv.take(j), sv.skip(j));
}

/// `n` copies of a one-column character are `n` columns wide.
proof fn lemma_rep_cols(calc: WidthCalc, c: char, n: nat)
    requires
        calc.col(c) == 1,
    ensures
        calc.cols(rep(c, n)) == n,
    decreases n,
{
    if n > 0 {
        lemma_rep_cols(calc, c, (n - 1) as nat);
        assert(rep(c, n).drop_last() =~= rep(c, (n - 1) as nat));
    }
}

proof fn lemma_one_span_chars(t: Seq<char>, st: Style)
    ensures
        spans_chars(seq![(t, st, None::<crate::ir::LinkId>)]) == t,
{
    reveal_with_fuel(spans_chars, 2);
    assert(seq![(t, st, None::<crate::ir::LinkId>)].drop_last() =~= Seq::<SpanV>::empty());
    assert(Seq::<char>::empty() + t =~= t);
}

/// Every row of a block other than a table fits the layout width when
/// wrapping, provided the block's indent, gutter and marker (and a code
/// rail) leave it at least four columns: its columns, doubled for a
/// double-height row, are at most the width, unless all that overruns is a
/// single character too wide to split.
pub proof fn lemma_row_fits(ctx: Ctx, theme: Theme, b: Block, l: Line)
    requires
        row_shape(ctx, theme, b, l),
        !(b.kind is Table),
        ctx.opts.calc.col(' ') == 1,
        ctx.opts.calc.col('─') == 1,
        ctx.total <= u16::MAX,
        lead_cols(ctx.opts.calc, b) + ctx.opts.calc.cols(rail()) + 4 <= (match l.scale {
            Scale::DoubleHeight => ctx.total as int / 2,
            Scale::Normal => ctx.total as int,
        }),
    ensures
        ctx.opts.calc.cols(spans_chars(spans_v(l.spans@))) * factor_of(l.scale) <= ctx.total
            || overhang(ctx.opts.calc, spans_v(l.spans@), ctx.total as nat),
{
    let calc = ctx.opts.calc;
    let sv = spans_v(l.spans@);
    let lc = lead_cols(calc, b);
    assert(lead_of(calc, b) == lc);
    let ts: int = match l.scale {
        Scale::DoubleHeight => ctx.total as int / 2,
        Scale::Normal => ctx.total as int,
    };
    if sv.len() == 0 {
        assert(spans_chars(sv) =~= Seq::<char>::empty());
    } else if exists|first: bool| #[trigger] led_by(calc, b, first, sv, content_of(ctx, b, l.scale)) {
        let first = choose|first: bool| #[trigger] led_by(calc, b, first, sv, content_of(ctx, b, l.scale));
        let lv = lead_v(calc, b, first);
        lemma_lead_cols(calc, b, first);
        lemma_split_cols(calc, sv, lv.len() as int);
        assert(content_of(ctx, b, l.scale) == ts - lc);
        if calc.cols(spans_chars(sv.skip(lv.len() as int))) <= content_of(ctx, b, l.scale) {
            assert(calc.cols(spans_chars(sv)) <= ts);
            assert(calc.cols(spans_chars(sv)) * factor_of(l.scale) <= ctx.total) by (nonlinear_arith)
                requires
                    calc.cols(spans_chars(sv)) <= ts,
                    ts == (if factor_of(l.scale) == 2 { ctx.total as int / 2 } else { ctx.total as int }),
                    factor_of(l.scale) == 1 || factor_of(l.scale) == 2;
        } else {
            assert(calc.cols(spans_chars(sv.take(lv.len() as int))) <= ctx.total as nat);
        }
    } else if l.scale == Scale::Normal && exists|first: bool| #[trigger] railed_by(calc, b, first, theme.code_fence, sv, code_width(ctx, b)) {
        let first = choose|first: bool| #[trigger] railed_by(calc, b, first, theme.code_fence, sv, code_width(ctx, b));
        let lv = lead_v(calc, b, first);
        let n = lv.len() as int;
        lemma_lead_cols(calc, b, first);
        lemma_split_cols(calc, sv, n + 1);
        lemma_split_cols(calc, sv.take(n + 1), n);
        assert(sv.take(n + 1).take(n) =~= sv.take(n));
        assert(sv.take(n + 1).skip(n) =~= seq![(rail(), theme.code_fence, None::<crate::ir::LinkId>)]);
        lemma_one_span_chars(rail(), theme.code_fence);
        assert(code_width(ctx, b) == content_of(ctx, b, Scale::Normal) - calc.cols(rail()));
        if calc.cols(spans_chars(sv.skip(n + 1))) > code_width(ctx, b) {
            assert(calc.cols(spans_chars(sv.take(n + 1))) <= ctx.total as nat);
        }
    } else if l.hits@.len() == 1 && l.hits@[0].rect.w <= content_of(ctx, b, Scale::Normal) && l.scale == Scale::Normal
        && sv == lead_v(calc, b, l.hits@[0].rect.y == 0) + seq![(spaces(l.hits@[0].rect.w as nat), Style::plain_spec(), None::<crate::ir::LinkId>)] {
        let first = l.hits@[0].rect.y == 0;
        lemma_lead_cols(calc, b, first);
        lemma_wid_add(calc, lead_v(calc, b, first), seq![(spaces(l.hits@[0].rect.w as nat), Style::plain_spec(), None::<crate::ir::LinkId>)]);
        lemma_one_span_chars(spaces(l.hits@[0].rect.w as nat), Style::plain_spec());
        lemma_spaces_cols(calc, l.hits@[0].rect.w as nat);
    } else if l.scale == Scale::Normal && exists|k: int, alt: Seq<char>| 0 <= k <= alt.len() && #[trigger] calc.cols(alt.take(k)) <= content_of(ctx, b, Scale::Normal)
        && sv == lead_v(calc, b, false) + seq![(alt.take(k), theme.dim, None::<crate::ir::LinkId>)] {
        let (k, alt) = choose|k: int, alt: Seq<char>| 0 <= k <= alt.len() && #[trigger] calc.cols(alt.take(k)) <= content_of(ctx, b, Scale::Normal)
            && sv == lead_v(calc, b, false) + seq![(alt.take(k), theme.dim, None::<crate::ir::LinkId>)];
        lemma_lead_cols(calc, b, false);
        lemma_wid_add(calc, lead_v(calc, b, false), seq![(alt.take(k), theme.dim, None::<crate::ir::LinkId>)]);
        lemma_one_span_chars(alt.take(k), theme.dim);
    } else {
        let c = content_of(ctx, b, Scale::Normal);
        lemma_lead_cols(calc, b, true);
        lemma_wid_add(calc, lead_v(calc, b, true), seq![(rep('─', c), theme.rule, None::<crate::ir::LinkId>)]);
        lemma_one_span_chars(rep('─', c), theme.rule);
        lemma_rep_cols(calc, '─', c);
    }
}

} // verus!
