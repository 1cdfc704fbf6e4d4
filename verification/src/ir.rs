//! The intermediate representation between the Markdown source and the
//! screen: identifiers, images, hit rectangles, and the colors styles use.

use vstd::prelude::*;

verus! {

/// Identifies a link target.
#[derive(Debug, Clone, Copy, PartialEq, Eq, PartialOrd, Ord, Hash, Structural)]
pub struct LinkId(pub usize);

/// Identifies an image.
#[derive(Debug, Clone, Copy, PartialEq, Eq, PartialOrd, Ord, Hash, Structural)]
pub struct ImageId(pub usize);

/// A terminal color: one of the sixteen named ANSI colors, a palette index,
/// an RGB triple, or the terminal's own default.
#[derive(Debug, Clone, Copy, PartialEq, Eq, Structural)]
pub enum Color {
    Reset,
    Black,
    DarkGrey,
    Red,
    DarkRed,
    Green,
    DarkGreen,
    Yellow,
    DarkYellow,
    Blue,
    DarkBlue,
    Magenta,
    DarkMagenta,
    Cyan,
    DarkCyan,
    White,
    Grey,
    Rgb { r: u8, g: u8, b: u8 },
    AnsiValue(u8),
}

/// Text attributes and colors.
#[derive(Debug, Clone, Copy, PartialEq, Eq, Structural)]
pub struct Style {
    pub fg: Option<Color>,
    pub bg: Option<Color>,
    pub bold: bool,
    pub italic: bool,
    pub underline: bool,
    pub strikethrough: bool,
    pub dim: bool,
    pub reverse: bool,
}

/// `a` if it is set, otherwise `b`.
pub open spec fn or_color(a: Option<Color>, b: Option<Color>) -> Option<Color> {
    match a {
        Some(c) => Some(c),
        None => b,
    }
}

impl Style {
    pub fn plain() -> (r: Style)
        ensures
            r.fg is None && r.bg is None && !r.bold && !r.italic && !r.underline && !r.strikethrough
                && !r.dim && !r.reverse,
    {
        Style {
            fg: None,
            bg: None,
            bold: false,
            italic: false,
            underline: false,
            strikethrough: false,
            dim: false,
            reverse: false,
        }
    }

    /// Overlay `other` on top of `self`. Colors set in `other` win;
    /// attributes are unioned, because emphasis nests.
    pub fn patch(self, other: Style) -> (r: Style)
        ensures
            r.fg == or_color(other.fg, self.fg),
            r.bg == or_color(other.bg, self.bg),
            r.bold == (self.bold || other.bold),
            r.italic == (self.italic || other.italic),
            r.underline == (self.underline || other.underline),
            r.strikethrough == (self.strikethrough || other.strikethrough),
            r.dim == (self.dim || other.dim),
            r.reverse == (self.reverse || other.reverse),
    {
        Style {
            fg: match other.fg {
                Some(c) => Some(c),
                None => self.fg,
            },
            bg: match other.bg {
                Some(c) => Some(c),
                None => self.bg,
            },
            bold: self.bold || other.bold,
            italic: self.italic || other.italic,
            underline: self.underline || other.underline,
            strikethrough: self.strikethrough || other.strikethrough,
            dim: self.dim || other.dim,
            reverse: self.reverse || other.reverse,
        }
    }

    pub fn fg(color: Color) -> (r: Style)
        ensures
            r.fg == Some(color),
            r.bg is None && !r.bold && !r.italic && !r.underline && !r.strikethrough && !r.dim && !r.reverse,
    {
        Style { fg: Some(color), ..Style::plain() }
    }
}

/// What `a.patch(b)` computes, over the fields.
pub open spec fn patched(a: Style, b: Style) -> Style {
    Style {
        fg: or_color(b.fg, a.fg),
        bg: or_color(b.bg, a.bg),
        bold: a.bold || b.bold,
        italic: a.italic || b.italic,
        underline: a.underline || b.underline,
        strikethrough: a.strikethrough || b.strikethrough,
        dim: a.dim || b.dim,
        reverse: a.reverse || b.reverse,
    }
}

/// Patching is associative, so nested emphasis resolves the same however it
/// is grouped, and patching a style over itself changes nothing.
pub proof fn lemma_patch_laws(a: Style, b: Style, c: Style)
    ensures
        patched(patched(a, b), c) == patched(a, patched(b, c)),
        patched(a, a) == a,
{
}

/// Alignment of a table column.
#[derive(Debug, Clone, Copy, PartialEq, Eq, Default)]
pub enum Align {
    #[default]
    Left,
    Center,
    Right,
}

#[derive(Debug, Clone, PartialEq, Eq)]
pub enum BlockKind {
    Heading(u8),
    Para,
    Code { lang: Option<String> },
    Quote,
    List,
    Table,
    /// A figure: an image on its own.
    Image(ImageId),
    Rule,
}

#[derive(Debug, Clone)]
pub struct Link {
    pub url: String,
    pub title: String,
}

#[derive(Debug)]
pub struct Image {
    pub url: String,
    pub alt: String,
    /// Pixel dimensions to draw at, filled in once the file is measured.
    pub size: Option<(u32, u32)>,
    /// The size the document asked for, from `<img width=… height=…>`.
    pub asked: (Option<u32>, Option<u32>),
    /// Where the picture was wrapped in a link.
    pub link: Option<LinkId>,
}

/// `a / b` rounded up.
pub open spec fn ceil_div(a: nat, b: nat) -> nat {
    if a % b == 0 { a / b } else { a / b + 1 }
}

/// The larger of `v` and 1.
pub open spec fn at_least_one(v: u32) -> u32 {
    if v >= 1 { v } else { 1 }
}

/// The size an image is drawn at, given its measured size `(w, h)` and what
/// the document asked for: one dimension on its own scales the other with
/// it, and both together win outright.
pub open spec fn measured_size(asked: (Option<u32>, Option<u32>), w: u32, h: u32) -> (int, int) {
    let (w, h) = (at_least_one(w) as nat, at_least_one(h) as nat);
    match asked {
        (Some(aw), Some(ah)) => (at_least_one(aw) as int, at_least_one(ah) as int),
        (Some(aw), None) => (at_least_one(aw) as int, ceil_div(h * at_least_one(aw) as nat, w) as int),
        (None, Some(ah)) => (ceil_div(w * at_least_one(ah) as nat, h) as int, at_least_one(ah) as int),
        (None, None) => (w as int, h as int),
    }
}

/// `a / b` rounded up.
fn div_ceil(a: u32, b: u32) -> (r: u32)
    requires
        b > 0,
    ensures
        r == ceil_div(a as nat, b as nat),
{
    if a % b == 0 {
        a / b
    } else {
        assert(a / b < a) by (nonlinear_arith)
            requires
                b > 1 || a % b != 0,
                b > 0,
                a % b != 0,
        ;
        a / b + 1
    }
}

impl Image {
    pub fn new(url: &str, alt: &str) -> (r: Image)
        ensures
            r.url@ == url@,
            r.alt@ == alt@,
            r.size is None,
            r.asked == (None::<u32>, None::<u32>),
            r.link is None,
    {
        Image {
            url: url.to_owned(),
            alt: alt.to_owned(),
            size: None,
            asked: (None, None),
            link: None,
        }
    }

    pub fn asked(self, width: Option<u32>, height: Option<u32>) -> (r: Image)
        ensures
            r.asked == (width, height),
            r.url == self.url,
            r.alt == self.alt,
            r.size == self.size,
            r.link == self.link,
    {
        Image { asked: (width, height), ..self }
    }

    pub fn linking_to(self, link: Option<LinkId>) -> (r: Image)
        ensures
            r.link == link,
            r.url == self.url,
            r.alt == self.alt,
            r.size == self.size,
            r.asked == self.asked,
    {
        Image { link, ..self }
    }

    /// Record the size the file turned out to be, honouring what the document
    /// asked for. A zero measurement counts as one pixel, so scaling never
    /// divides by zero.
    pub fn measured(&mut self, size: (u32, u32))
        requires
            old(self).asked.0 is Some && old(self).asked.1 is None ==> at_least_one(size.1) as int
                * at_least_one(old(self).asked.0.unwrap()) as int <= u32::MAX,
            old(self).asked.0 is None && old(self).asked.1 is Some ==> at_least_one(size.0) as int
                * at_least_one(old(self).asked.1.unwrap()) as int <= u32::MAX,
        ensures
            final(self).size matches Some((a, b)) && (a as int, b as int) == measured_size(
                old(self).asked,
                size.0,
                size.1,
            ),
            final(self).url == old(self).url,
            final(self).alt == old(self).alt,
            final(self).asked == old(self).asked,
            final(self).link == old(self).link,
    {
        let w = if size.0 >= 1 { size.0 } else { 1 };
        let h = if size.1 >= 1 { size.1 } else { 1 };
        let s = match self.asked {
            (Some(aw), Some(ah)) => (if aw >= 1 { aw } else { 1 }, if ah >= 1 { ah } else { 1 }),
            (Some(aw), None) => {
                let aw = if aw >= 1 { aw } else { 1 };
                (aw, div_ceil(h * aw, w))
            },
            (None, Some(ah)) => {
                let ah = if ah >= 1 { ah } else { 1 };
                (div_ceil(w * ah, h), ah)
            },
            (None, None) => (w, h),
        };
        self.size = Some(s);
    }
}

/// Vertical scale of a rendered line. `DoubleHeight` costs two physical rows
/// and halves the usable column count.
#[derive(Debug, Clone, Copy, PartialEq, Eq, Default)]
pub enum Scale {
    #[default]
    Normal,
    DoubleHeight,
}

impl Scale {
    pub fn rows(self) -> (r: u16)
        ensures
            r == (match self {
                Scale::Normal => 1u16,
                Scale::DoubleHeight => 2u16,
            }),
    {
        match self {
            Scale::Normal => 1,
            Scale::DoubleHeight => 2,
        }
    }
}

#[derive(Debug, Clone, Copy, PartialEq, Eq)]
pub struct Rect {
    pub x: u16,
    pub y: u16,
    pub w: u16,
    pub h: u16,
}

impl Rect {
    /// Whether the cell `(x, y)` lies inside, the far edges clipped at the
    /// largest coordinate.
    pub open spec fn holds(self, x: u16, y: u16) -> bool {
        self.x <= x && x < (if self.x + self.w <= u16::MAX { self.x + self.w } else { u16::MAX as int })
            && self.y <= y && y < (if self.y + self.h <= u16::MAX { self.y + self.h } else { u16::MAX as int })
    }

    /// Whether the cell `(x, y)` lies inside.
    pub fn contains(&self, x: u16, y: u16) -> (r: bool)
        ensures
            r == self.holds(x, y),
    {
        x >= self.x && x < self.x.saturating_add(self.w) && y >= self.y && y < self.y.saturating_add(self.h)
    }
}

#[derive(Debug, Clone, Copy, PartialEq, Eq)]
pub enum HitTarget {
    Link(LinkId),
    Image(ImageId),
}

#[derive(Debug, Clone, Copy, PartialEq, Eq)]
pub struct Hit {
    pub rect: Rect,
    pub target: HitTarget,
}

} // verus!

verus! {

/// A run of text in one style, possibly part of a link.
#[derive(Debug, Clone, PartialEq, Eq)]
pub struct Span {
    pub text: String,
    pub style: Style,
    pub link: Option<LinkId>,
}

/// A span as a character sequence with its style and link.
pub open spec fn span_v(s: Span) -> (Seq<char>, Style, Option<LinkId>) {
    (s.text@, s.style, s.link)
}

/// Spans as character sequences with their styles and links.
pub open spec fn spans_v(s: Seq<Span>) -> Seq<(Seq<char>, Style, Option<LinkId>)> {
    Seq::new(s.len(), |i: int| span_v(s[i]))
}

/// The concatenated text of a run of spans.
pub open spec fn spans_chars(s: Seq<(Seq<char>, Style, Option<LinkId>)>) -> Seq<char>
    decreases s.len(),
{
    if s.len() == 0 {
        Seq::empty()
    } else {
        spans_chars(s.drop_last()) + s.last().0
    }
}

impl Span {
    pub fn new(text: &str, style: Style) -> (r: Span)
        ensures
            r.text@ == text@,
            r.style == style,
            r.link is None,
    {
        Span { text: text.to_owned(), style, link: None }
    }

    pub fn plain(text: &str) -> (r: Span)
        ensures
            r.text@ == text@,
            r.style == Style::plain_spec(),
            r.link is None,
    {
        Span::new(text, Style::plain())
    }

    pub fn with_link(self, link: Option<LinkId>) -> (r: Span)
        ensures
            r.text == self.text,
            r.style == self.style,
            r.link == link,
    {
        Span { link, ..self }
    }
}

impl Style {
    /// The style with nothing set.
    pub open spec fn plain_spec() -> Style {
        Style {
            fg: None,
            bg: None,
            bold: false,
            italic: false,
            underline: false,
            strikethrough: false,
            dim: false,
            reverse: false,
        }
    }
}

/// The text of a run of spans, concatenated.
pub fn concat_spans(spans: &[Span]) -> (r: String)
    ensures
        r@ == spans_chars(spans_v(spans@)),
{
    let mut out = String::new();
    let mut i: usize = 0;
    while i < spans.len()
        invariant
            i <= spans@.len(),
            out@ == spans_chars(spans_v(spans@.take(i as int))),
        decreases spans@.len() - i,
    {
        proof {
            assert(spans_v(spans@.take(i + 1)).drop_last() =~= spans_v(spans@.take(i as int)));
        }
        crate::text::push_str(&mut out, spans[i].text.as_str());
        i = i + 1;
    }
    proof {
        assert(spans@.take(i as int) =~= spans@);
    }
    out
}

#[derive(Debug, Clone, Default)]
pub struct Table {
    pub head: Vec<Vec<Span>>,
    pub rows: Vec<Vec<Vec<Span>>>,
    pub align: Vec<Align>,
}

/// One logical unit of the document.
///
/// `source_range` is a 1-based, end-exclusive line range into the original
/// file. Yanking a block is a slice of those lines, never a reconstruction
/// from the rendered form.
#[derive(Debug)]
pub struct Block {
    pub source_range: std::ops::Range<usize>,
    pub kind: BlockKind,
    pub spans: Vec<Span>,
    /// Drawn at the start of every line of the block: blockquote bars, alert
    /// stripes.
    pub gutter: Vec<Span>,
    /// Drawn once, after the gutter, on the first line only: list bullets,
    /// footnote labels.
    pub prefix: Vec<Span>,
    /// Columns of indentation applied to every line, before the gutter.
    pub indent: usize,
    /// Populated only for a table.
    pub table: Option<Table>,
    /// An image to draw instead of this block's own rendering.
    pub image: Option<ImageId>,
    /// Whether a blank line separates this block from the one before it.
    pub blank_before: bool,
    /// Horizontal alignment, from `<p align="center">` and friends.
    pub align: Option<Align>,
}

impl Block {
    pub fn new(kind: BlockKind, source_range: std::ops::Range<usize>) -> (r: Block)
        ensures
            r.kind == kind,
            r.source_range == source_range,
            r.spans@.len() == 0,
            r.gutter@.len() == 0,
            r.prefix@.len() == 0,
            r.indent == 0,
            r.table is None,
            r.image is None,
            r.blank_before,
            r.align is None,
    {
        Block {
            source_range,
            kind,
            spans: Vec::new(),
            gutter: Vec::new(),
            prefix: Vec::new(),
            indent: 0,
            table: None,
            image: None,
            blank_before: true,
            align: None,
        }
    }

    pub fn heading_level(&self) -> (r: Option<u8>)
        ensures
            r == (match self.kind {
                BlockKind::Heading(level) => Some(level),
                _ => None,
            }),
    {
        match self.kind {
            BlockKind::Heading(level) => Some(level),
            _ => None,
        }
    }

    /// The text of the block's spans.
    pub fn text(&self) -> (r: String)
        ensures
            r@ == spans_chars(spans_v(self.spans@)),
    {
        concat_spans(self.spans.as_slice())
    }

    /// The rendered plain text of the block, including its marker.
    pub fn plain_text(&self) -> (r: String)
        ensures
            r@ == spans_chars(spans_v(self.prefix@)) + spans_chars(spans_v(self.spans@)),
    {
        let mut out = concat_spans(self.prefix.as_slice());
        let body = concat_spans(self.spans.as_slice());
        crate::text::push_str(&mut out, body.as_str());
        out
    }
}

/// Lines joined with line feeds.
pub open spec fn joined_lines(ls: Seq<Seq<char>>) -> Seq<char>
    decreases ls.len(),
{
    if ls.len() == 0 {
        Seq::empty()
    } else if ls.len() == 1 {
        ls[0]
    } else {
        joined_lines(ls.drop_last()) + seq!['\n'] + ls.last()
    }
}

/// A parsed document: blocks plus the side tables their spans point into.
#[derive(Debug, Default)]
pub struct Document {
    pub blocks: Vec<Block>,
    pub links: Vec<Link>,
    pub images: Vec<Image>,
    /// The original source, split into lines. Yanks slice this.
    pub source_lines: Vec<String>,
}

/// The source lines a block covers, clamped to the document: its 1-based,
/// end-exclusive range, as 0-based indices.
pub open spec fn source_window(range: std::ops::Range<usize>, n: nat) -> (int, int) {
    let start = if range.start >= 1 { range.start - 1 } else { 0 };
    let e = if range.end >= 1 { range.end - 1 } else { 0 };
    let end = if e <= n { e } else { n as int };
    (start, end)
}

impl Document {
    /// The original Markdown for a block, verbatim: its source lines joined
    /// with line feeds, clamped to the document; empty when none remain.
    pub fn source_of(&self, block: &Block) -> (r: String)
        ensures
            ({
                let (start, end) = source_window(block.source_range, self.source_lines@.len());
                r@ == (if start >= end {
                    Seq::empty()
                } else {
                    joined_lines(
                        Seq::new(
                            (end - start) as nat,
                            |i: int| self.source_lines@[start + i]@,
                        ),
                    )
                })
            }),
    {
        let start = block.source_range.start.saturating_sub(1);
        let e = block.source_range.end.saturating_sub(1);
        let end = if e <= self.source_lines.len() { e } else { self.source_lines.len() };
        let mut out = String::new();
        if start >= end {
            return out;
        }
        let ghost lines = Seq::new((end - start) as nat, |i: int| self.source_lines@[start + i]@);
        let mut k = start;
        while k < end
            invariant
                start <= k <= end <= self.source_lines@.len(),
                start < end,
                lines == Seq::new((end - start) as nat, |i: int| self.source_lines@[start + i]@),
                k == start ==> out@.len() == 0,
                k > start ==> out@ == joined_lines(lines.take(k - start)),
            decreases end - k,
        {
            let ghost before = out@;
            if k > start {
                crate::text::push_char(&mut out, '\n');
            }
            crate::text::push_str(&mut out, self.source_lines[k].as_str());
            proof {
                let t = lines.take(k + 1 - start);
                assert(t.drop_last() =~= lines.take(k - start));
                assert(t.last() == self.source_lines@[k as int]@);
                if k == start {
                    assert(out@ =~= t[0]);
                } else {
                    assert(out@ =~= joined_lines(t.drop_last()) + seq!['\n'] + t.last());
                }
            }
            k = k + 1;
        }
        proof {
            assert(lines.take(end - start) =~= lines);
        }
        out
    }
}

/// One laid-out row, ready to draw.
#[derive(Debug, Clone)]
pub struct Line {
    /// 1-based line in the original file this row came from.
    pub source_line: usize,
    /// Index into the document's blocks, for the block cursor.
    pub block: usize,
    pub scale: Scale,
    /// Heading level, 1-6, for a row that is part of one.
    pub heading: Option<u8>,
    pub spans: Vec<Span>,
    pub hits: Vec<Hit>,
}

impl Line {
    pub fn new(source_line: usize, block: usize, spans: Vec<Span>) -> (r: Line)
        ensures
            r.source_line == source_line,
            r.block == block,
            r.scale == Scale::Normal,
            r.heading is None,
            r.spans == spans,
            r.hits@.len() == 0,
    {
        Line { source_line, block, scale: Scale::Normal, heading: None, spans, hits: Vec::new() }
    }

    /// The row's text.
    pub fn text(&self) -> (r: String)
        ensures
            r@ == spans_chars(spans_v(self.spans@)),
    {
        concat_spans(self.spans.as_slice())
    }

    /// Whether the row shows nothing but whitespace.
    pub fn is_blank(&self) -> (r: bool)
        ensures
            r == forall|i: int|
                0 <= i < self.spans@.len() ==> crate::text::trim(#[trigger] self.spans@[i].text@).len() == 0,
    {
        let mut i: usize = 0;
        while i < self.spans.len()
            invariant
                i <= self.spans@.len(),
                forall|j: int| 0 <= j < i ==> crate::text::trim(#[trigger] self.spans@[j].text@).len() == 0,
            decreases self.spans@.len() - i,
        {
            let v = crate::text::chars_of(self.spans[i].text.as_str());
            let (a, b) = crate::text::trim_range(&v, 0, v.len());
            proof {
                assert(v@.subrange(0, v@.len() as int) =~= v@);
            }
            if a < b {
                return false;
            }
            i = i + 1;
        }
        true
    }
}

} // verus!
