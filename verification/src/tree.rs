//! Markdown syntax tree → [`Document`].
//!
//! The tree is the CommonMark-plus-GitHub syntax of a Markdown file, one
//! [`MdNode`] per construct with the lines it covers. [`build`] flattens it
//! into the flat [`Block`] list that layout consumes, carrying each node's
//! lines through as a `source_range` so a yank can slice the original file,
//! and interprets the HTML a README embeds rather than showing its tags.

use vstd::prelude::*;
use crate::html::{Element, Node, void_tag};
use crate::ir::{
    Align, Block, BlockKind, Document, Image, ImageId, Link, LinkId, Span, Style, Table, spans_v,
    span_v, spans_chars,
};
use crate::text::{chars_of, is_ws, is_whitespace, push_char, push_str, str_eq};
use crate::theme::Theme;
use crate::wrap::SpanV;

verus! {

/// The kind of a GitHub alert (`> [!NOTE]` and friends).
#[derive(Debug, Clone, Copy, PartialEq, Eq)]
pub enum AlertKind {
    Note,
    Tip,
    Important,
    Warning,
    Caution,
}

/// What a node of the syntax tree is.
#[derive(Debug)]
pub enum MdValue {
    Document,
    FrontMatter(String),
    Paragraph,
    Heading(u8),
    ThematicBreak,
    /// A code block: its info string and its text.
    CodeBlock { info: String, literal: String },
    HtmlBlock(String),
    BlockQuote,
    MultilineBlockQuote,
    Alert { kind: AlertKind, title: Option<String> },
    /// A list: ordered or not, the first number, and whether it is tight.
    List { ordered: bool, start: usize, tight: bool },
    Item,
    /// A task list item, ticked or not.
    TaskItem(bool),
    DescriptionList,
    DescriptionItem,
    DescriptionTerm,
    DescriptionDetails,
    /// A table and the alignment of each column.
    Table(Vec<Align>),
    /// A table row, and whether it is the header.
    TableRow(bool),
    TableCell,
    FootnoteDefinition(String),
    Text(String),
    Raw(String),
    EscapedTag(String),
    Code(String),
    Math(String),
    HtmlInline(String),
    SoftBreak,
    LineBreak,
    Emph,
    Strong,
    Strikethrough,
    Underline,
    SpoileredText,
    Superscript,
    Subscript,
    Escaped,
    Subtext,
    /// A link: its target and title.
    Link { url: String, title: String },
    WikiLink(String),
    /// An image: its target. Its alt text is its children.
    Image(String),
    FootnoteReference(String),
    /// Anything else, shown by its children.
    Other,
}

/// A node of the syntax tree: what it is, the 1-based lines it starts and
/// ends on, and its children.
#[derive(Debug)]
pub struct MdNode {
    pub value: MdValue,
    pub start_line: usize,
    pub end_line: usize,
    pub children: Vec<MdNode>,
}

/// Tags that start a new block rather than flowing inline.
pub open spec fn html_block_tag(t: Seq<char>) -> bool {
    t == "p"@ || t == "div"@ || t == "h1"@ || t == "h2"@ || t == "h3"@ || t == "h4"@ || t == "h5"@
        || t == "h6"@ || t == "ul"@ || t == "ol"@ || t == "li"@ || t == "blockquote"@ || t == "pre"@
        || t == "hr"@ || t == "table"@ || t == "details"@ || t == "section"@ || t == "article"@
        || t == "header"@ || t == "footer"@ || t == "main"@ || t == "aside"@ || t == "nav"@
        || t == "figure"@ || t == "figcaption"@ || t == "center"@ || t == "dl"@ || t == "dt"@
        || t == "dd"@
}

/// Whether an HTML tag starts a new block.
pub fn is_html_block(tag: &str) -> (r: bool)
    ensures
        r == html_block_tag(tag@),
{
    str_eq(tag, "p") || str_eq(tag, "div") || str_eq(tag, "h1") || str_eq(tag, "h2") || str_eq(tag, "h3")
        || str_eq(tag, "h4") || str_eq(tag, "h5") || str_eq(tag, "h6") || str_eq(tag, "ul") || str_eq(tag, "ol")
        || str_eq(tag, "li") || str_eq(tag, "blockquote") || str_eq(tag, "pre") || str_eq(tag, "hr")
        || str_eq(tag, "table") || str_eq(tag, "details") || str_eq(tag, "section") || str_eq(tag, "article")
        || str_eq(tag, "header") || str_eq(tag, "footer") || str_eq(tag, "main") || str_eq(tag, "aside")
        || str_eq(tag, "nav") || str_eq(tag, "figure") || str_eq(tag, "figcaption") || str_eq(tag, "center")
        || str_eq(tag, "dl") || str_eq(tag, "dt") || str_eq(tag, "dd")
}

/// The label an alert is titled with when it has no title of its own.
pub fn alert_label(kind: AlertKind) -> (r: &'static str)
    ensures
        r@ == (match kind {
            AlertKind::Note => "NOTE"@,
            AlertKind::Tip => "TIP"@,
            AlertKind::Important => "IMPORTANT"@,
            AlertKind::Warning => "WARNING"@,
            AlertKind::Caution => "CAUTION"@,
        }),
{
    match kind {
        AlertKind::Note => "NOTE",
        AlertKind::Tip => "TIP",
        AlertKind::Important => "IMPORTANT",
        AlertKind::Warning => "WARNING",
        AlertKind::Caution => "CAUTION",
    }
}

/// The style an alert is drawn in: the theme's style for its kind.
pub fn alert_style(theme: &Theme, kind: AlertKind) -> (r: Style)
    ensures
        r == theme.alerts@[match kind {
            AlertKind::Note => 0int,
            AlertKind::Tip => 1,
            AlertKind::Important => 2,
            AlertKind::Warning => 3,
            AlertKind::Caution => 4,
        }],
{
    let idx: usize = match kind {
        AlertKind::Note => 0,
        AlertKind::Tip => 1,
        AlertKind::Important => 2,
        AlertKind::Warning => 3,
        AlertKind::Caution => 4,
    };
    theme.alerts[idx]
}

/// The style an inline HTML tag stands for; a tag with no terminal
/// equivalent stands for none, and is still tracked so its close tag pairs
/// up.
pub open spec fn tag_style(theme: Theme, t: Seq<char>) -> Style {
    if t == "strong"@ || t == "b"@ {
        theme.strong
    } else if t == "em"@ || t == "i"@ || t == "cite"@ || t == "var"@ {
        theme.emph
    } else if t == "code"@ || t == "kbd"@ || t == "samp"@ || t == "tt"@ {
        theme.code
    } else if t == "del"@ || t == "s"@ || t == "strike"@ {
        theme.strikethrough
    } else if t == "small"@ || t == "sub"@ || t == "sup"@ {
        theme.dim
    } else if t == "ins"@ || t == "u"@ {
        Style { underline: true, ..Style::plain_spec() }
    } else if t == "mark"@ {
        Style { reverse: true, ..Style::plain_spec() }
    } else {
        Style::plain_spec()
    }
}

/// The style an inline HTML tag stands for.
pub fn html_tag_style(theme: &Theme, tag: &str) -> (r: Style)
    ensures
        r == tag_style(*theme, tag@),
{
    if str_eq(tag, "strong") || str_eq(tag, "b") {
        theme.strong
    } else if str_eq(tag, "em") || str_eq(tag, "i") || str_eq(tag, "cite") || str_eq(tag, "var") {
        theme.emph
    } else if str_eq(tag, "code") || str_eq(tag, "kbd") || str_eq(tag, "samp") || str_eq(tag, "tt") {
        theme.code
    } else if str_eq(tag, "del") || str_eq(tag, "s") || str_eq(tag, "strike") {
        theme.strikethrough
    } else if str_eq(tag, "small") || str_eq(tag, "sub") || str_eq(tag, "sup") {
        theme.dim
    } else if str_eq(tag, "ins") || str_eq(tag, "u") {
        Style { underline: true, ..Style::plain() }
    } else if str_eq(tag, "mark") {
        Style { reverse: true, ..Style::plain() }
    } else {
        Style::plain()
    }
}

/// Runs of whitespace collapsed to one space each, the way HTML does.
pub open spec fn collapsed(s: Seq<char>) -> Seq<char>
    decreases s.len(),
{
    if s.len() == 0 {
        Seq::empty()
    } else if is_ws(s.last()) {
        let p = collapsed(s.drop_last());
        if s.len() >= 2 && is_ws(s[s.len() - 2]) {
            p
        } else {
            p.push(' ')
        }
    } else {
        collapsed(s.drop_last()).push(s.last())
    }
}

/// Collapses runs of whitespace to a single space: source indentation
/// inside a `<p>` is layout, not content. A run at either end is kept as
/// one space, since it may be what separates the text from its neighbour.
pub fn collapse_whitespace(text: &str) -> (r: String)
    ensures
        r@ == collapsed(text@),
{
    let v = chars_of(text);
    let mut out = String::new();
    let mut i: usize = 0;
    while i < v.len()
        invariant
            i <= v@.len(),
            v@ == text@,
            out@ == collapsed(v@.take(i as int)),
        decreases v.len() - i,
    {
        let c = v[i];
        proof {
            assert(v@.take(i + 1).drop_last() =~= v@.take(i as int));
            assert(v@.take(i + 1).last() == c);
            if i >= 1 {
                assert(v@.take(i + 1)[i - 1] == v@[i - 1]);
            }
        }
        if is_whitespace(c) {
            if !(i > 0 && is_whitespace(v[i - 1])) {
                push_char(&mut out, ' ');
            }
        } else {
            push_char(&mut out, c);
        }
        i = i + 1;
    }
    proof {
        assert(v@.take(i as int) =~= v@);
    }
    out
}

/// Spans merged with the ones before them when they share a style and a
/// link, empty ones dropped.
pub open spec fn merged(s: Seq<SpanV>) -> Seq<SpanV>
    decreases s.len(),
{
    if s.len() == 0 {
        Seq::empty()
    } else {
        let p = merged(s.drop_last());
        let x = s.last();
        if x.0.len() == 0 {
            p
        } else if p.len() > 0 && p.last().1 == x.1 && p.last().2 == x.2 {
            p.drop_last().push((p.last().0 + x.0, x.1, x.2))
        } else {
            p.push(x)
        }
    }
}

/// Collapses runs of spans that share a style and link, and drops empty
/// ones: emphasis nesting produces a lot of one-character spans otherwise.
pub fn merge_adjacent(spans: Vec<Span>) -> (r: Vec<Span>)
    ensures
        spans_v(r@) == merged(spans_v(spans@)),
{
    let mut out: Vec<Span> = Vec::new();
    let mut i: usize = 0;
    while i < spans.len()
        invariant
            i <= spans@.len(),
            spans_v(out@) == merged(spans_v(spans@.take(i as int))),
        decreases spans.len() - i,
    {
        let s = &spans[i];
        proof {
            assert(spans_v(spans@.take(i + 1)).drop_last() =~= spans_v(spans@.take(i as int)));
            assert(spans_v(spans@.take(i + 1)).last() == span_v(spans@[i as int]));
        }
        if !s.text.as_str().is_empty() {
            let n = out.len();
            let same = n > 0 && out[n - 1].style == s.style && match (out[n - 1].link, s.link) {
                (Some(a), Some(b)) => a.0 == b.0,
                (None, None) => true,
                _ => false,
            };
            if same {
                let mut last = out.pop().unwrap();
                push_str(&mut last.text, s.text.as_str());
                out.push(last);
                proof {
                    assert(spans_v(out@) =~= merged(spans_v(spans@.take(i + 1))));
                }
            } else {
                out.push(Span { text: s.text.clone(), style: s.style, link: s.link });
                proof {
                    assert(spans_v(out@) =~= merged(spans_v(spans@.take(i + 1))));
                }
            }
        } else {
            proof {
                assert(s.text@.len() == 0);
            }
        }
        i = i + 1;
    }
    proof {
        assert(spans@.take(i as int) =~= spans@);
    }
    out
}

} // verus!

verus! {

/// Whether `c` is a space or a line feed: what HTML trimming drops at the
/// edges of a block.
pub open spec fn sn(c: char) -> bool {
    c == ' ' || c == '\n'
}

/// Whether a text is nothing but spaces and line feeds.
pub open spec fn blank_sn(t: Seq<char>) -> bool {
    forall|i: int| 0 <= i < t.len() ==> sn(#[trigger] t[i])
}

/// `t` without its leading spaces and line feeds.
pub open spec fn trim_start_sn(t: Seq<char>) -> Seq<char>
    decreases t.len(),
{
    if t.len() > 0 && sn(t[0]) {
        trim_start_sn(t.drop_first())
    } else {
        t
    }
}

/// `t` without its trailing spaces and line feeds.
pub open spec fn trim_end_sn(t: Seq<char>) -> Seq<char>
    decreases t.len(),
{
    if t.len() > 0 && sn(t.last()) {
        trim_end_sn(t.drop_last())
    } else {
        t
    }
}

/// How many spans lead `s` that are blank.
pub open spec fn blank_lead(s: Seq<SpanV>) -> nat
    decreases s.len(),
{
    if s.len() > 0 && blank_sn(s[0].0) {
        1 + blank_lead(s.drop_first())
    } else {
        0
    }
}

/// How many spans end `s` that are blank.
pub open spec fn blank_tail(s: Seq<SpanV>) -> nat
    decreases s.len(),
{
    if s.len() > 0 && blank_sn(s.last().0) {
        1 + blank_tail(s.drop_last())
    } else {
        0
    }
}

/// The spans that are not empty, in order.
pub open spec fn nonempty(s: Seq<SpanV>) -> Seq<SpanV>
    decreases s.len(),
{
    if s.len() == 0 {
        s
    } else if s.last().0.len() == 0 {
        nonempty(s.drop_last())
    } else {
        nonempty(s.drop_last()).push(s.last())
    }
}

/// A run of HTML spans without what is blank at its edges: blank spans
/// dropped from both ends, the first span's leading and the last span's
/// trailing spaces and line feeds trimmed, then empty spans dropped.
pub open spec fn trimmed_html(s: Seq<SpanV>) -> Seq<SpanV> {
    let a = s.skip(blank_lead(s) as int);
    let b = a.take(a.len() - blank_tail(a));
    if b.len() == 0 {
        b
    } else {
        let c = b.update(0, (trim_start_sn(b[0].0), b[0].1, b[0].2));
        let d = c.update(c.len() - 1, (trim_end_sn(c.last().0), c.last().1, c.last().2));
        nonempty(d)
    }
}

fn is_blank_sn(t: &str) -> (r: bool)
    ensures
        r == blank_sn(t@),
{
    let v = chars_of(t);
    let mut i: usize = 0;
    while i < v.len()
        invariant
            i <= v@.len(),
            v@ == t@,
            forall|k: int| 0 <= k < i ==> sn(#[trigger] v@[k]),
        decreases v.len() - i,
    {
        if !(v[i] == ' ' || v[i] == '\n') {
            return false;
        }
        i = i + 1;
    }
    true
}

fn trim_start_str(t: &str) -> (r: String)
    ensures
        r@ == trim_start_sn(t@),
{
    let v = chars_of(t);
    let b: usize = v.len();
    let mut a: usize = 0;
    proof {
        assert(v@.skip(0) =~= v@);
    }
    while a < b && (v[a] == ' ' || v[a] == '\n')
        invariant
            a <= b == v@.len(),
            v@ == t@,
            trim_start_sn(t@) == trim_start_sn(v@.skip(a as int)),
        decreases b - a,
    {
        proof {
            assert(v@.skip(a as int).drop_first() =~= v@.skip(a + 1));
        }
        a = a + 1;
    }
    proof {
        assert(v@.skip(a as int) =~= v@.subrange(a as int, b as int));
    }
    crate::text::string_of(&v, a, b)
}

fn trim_end_str(t: &str) -> (r: String)
    ensures
        r@ == trim_end_sn(t@),
{
    let v = chars_of(t);
    let mut b: usize = v.len();
    proof {
        assert(v@.take(v@.len() as int) =~= v@);
    }
    while 0 < b && (v[b - 1] == ' ' || v[b - 1] == '\n')
        invariant
            b <= v@.len(),
            v@ == t@,
            trim_end_sn(t@) == trim_end_sn(v@.take(b as int)),
        decreases b,
    {
        proof {
            assert(v@.take(b as int).drop_last() =~= v@.take(b - 1));
        }
        b = b - 1;
    }
    proof {
        assert(v@.take(b as int) =~= v@.subrange(0, b as int));
    }
    crate::text::string_of(&v, 0, b)
}

/// Drops blank spans from the edges of a run of HTML spans, including the
/// line breaks `<br>` leaves there, and trims what remains at each end.
pub fn trim_html_spans(spans: Vec<Span>) -> (r: Vec<Span>)
    ensures
        spans_v(r@) == trimmed_html(spans_v(spans@)),
{
    let ghost sv = spans_v(spans@);
    let n = spans.len();
    let mut lo: usize = 0;
    proof {
        assert(sv.skip(0) =~= sv);
    }
    while lo < n && is_blank_sn(spans[lo].text.as_str())
        invariant
            lo <= n == spans@.len(),
            sv == spans_v(spans@),
            blank_lead(sv) == lo + blank_lead(sv.skip(lo as int)),
        decreases n - lo,
    {
        proof {
            assert(sv.skip(lo as int).drop_first() =~= sv.skip(lo + 1));
        }
        lo = lo + 1;
    }
    let ghost a = sv.skip(lo as int);
    proof {
        assert(blank_lead(sv) == lo);
    }
    let mut hi: usize = n;
    proof {
        assert(a.take(hi - lo) =~= a);
    }
    while hi > lo && is_blank_sn(spans[hi - 1].text.as_str())
        invariant
            lo <= hi <= n == spans@.len(),
            sv == spans_v(spans@),
            a == sv.skip(lo as int),
            blank_tail(a) == (n - hi) + blank_tail(a.take(hi - lo)),
        decreases hi - lo,
    {
        proof {
            assert(a.take(hi - lo).drop_last() =~= a.take(hi - lo - 1));
            assert(a.take(hi - lo).last() == sv[hi - 1]);
        }
        hi = hi - 1;
    }
    proof {
        assert(blank_tail(a.take(hi - lo)) == 0);
        assert(a.take(hi - lo) =~= a.take(a.len() - blank_tail(a)));
    }
    let ghost b = a.take(a.len() - blank_tail(a));
    let mut out: Vec<Span> = Vec::new();
    if lo == hi {
        proof {
            assert(spans_v(out@) =~= trimmed_html(sv));
        }
        return out;
    }
    let ghost d = {
        let c = b.update(0, (trim_start_sn(b[0].0), b[0].1, b[0].2));
        c.update(c.len() - 1, (trim_end_sn(c.last().0), c.last().1, c.last().2))
    };
    let mut k: usize = lo;
    while k < hi
        invariant
            lo <= k <= hi <= n == spans@.len(),
            lo < hi,
            sv == spans_v(spans@),
            b == sv.subrange(lo as int, hi as int),
            d == ({
                let c = b.update(0, (trim_start_sn(b[0].0), b[0].1, b[0].2));
                c.update(c.len() - 1, (trim_end_sn(c.last().0), c.last().1, c.last().2))
            }),
            spans_v(out@) == nonempty(d.take(k - lo)),
        decreases hi - k,
    {
        let sp = &spans[k];
        let mut text = if k == lo { trim_start_str(sp.text.as_str()) } else { sp.text.clone() };
        if k == hi - 1 {
            text = trim_end_str(text.as_str());
        }
        proof {
            assert(d[k - lo] == (text@, sp.style, sp.link));
            assert(d.take(k + 1 - lo).drop_last() =~= d.take(k - lo));
        }
        if !text.as_str().is_empty() {
            let ghost before = spans_v(out@);
            out.push(Span { text, style: sp.style, link: sp.link });
            proof {
                assert(spans_v(out@) =~= before.push(d[k - lo]));
            }
        }
        k = k + 1;
    }
    proof {
        assert(d.take(hi - lo) =~= d);
    }
    out
}

} // verus!

verus! {

/// Whether a text is all whitespace.
pub open spec fn all_ws(t: Seq<char>) -> bool {
    forall|i: int| 0 <= i < t.len() ==> is_ws(#[trigger] t[i])
}

fn is_all_ws(t: &str) -> (r: bool)
    ensures
        r == all_ws(t@),
{
    let v = chars_of(t);
    let mut i: usize = 0;
    while i < v.len()
        invariant
            i <= v@.len(),
            v@ == t@,
            forall|k: int| 0 <= k < i ==> is_ws(#[trigger] v@[k]),
        decreases v.len() - i,
    {
        if !is_whitespace(v[i]) {
            return false;
        }
        i = i + 1;
    }
    true
}

/// A link's edges unlinked: the first and last of the spans from `from`
/// on, when blank, take the surrounding style and no link.
pub open spec fn unlinked(s: Seq<SpanV>, from: int, outer: Style) -> Seq<SpanV> {
    if 0 <= from < s.len() {
        let s1 = if all_ws(s[from].0) { s.update(from, (s[from].0, outer, None)) } else { s };
        let last = s1.len() - 1;
        if all_ws(s1[last].0) { s1.update(last, (s1[last].0, outer, None)) } else { s1 }
    } else {
        s
    }
}

/// Moves whitespace at the edges of a link's text back outside the link:
/// source indentation inside an anchor is not part of its text, and
/// underlining it looks like a mistake.
pub fn unlink_edge_whitespace(out: &mut Vec<Span>, from: usize, outer: Style)
    ensures
        spans_v(final(out)@) == unlinked(spans_v(old(out)@), from as int, outer),
        final(out)@.len() == old(out)@.len(),
        forall|i: int| 0 <= i < old(out)@.len() ==> #[trigger] final(out)@[i].link == old(out)@[i].link || final(out)@[i].link is None,
        forall|i: int| 0 <= i < from && i < old(out)@.len() ==> #[trigger] final(out)@[i] == old(out)@[i],
{
    if from >= out.len() {
        return;
    }
    if is_all_ws(out[from].text.as_str()) {
        let t = out[from].text.clone();
        out.set(from, Span { text: t, style: outer, link: None });
    }
    let last = out.len() - 1;
    if is_all_ws(out[last].text.as_str()) {
        let t = out[last].text.clone();
        out.set(last, Span { text: t, style: outer, link: None });
    }
    proof {
        assert(spans_v(out@) =~= unlinked(spans_v(old(out)@), from as int, outer));
    }
}

/// Where `p` first occurs in `s` at or after `i`.
pub open spec fn find_from(s: Seq<char>, p: Seq<char>, i: int) -> Option<int>
    decreases s.len() + 1 - i,
{
    if i < 0 || i + p.len() > s.len() {
        None
    } else if s.subrange(i, i + p.len()) == p {
        Some(i)
    } else {
        find_from(s, p, i + 1)
    }
}

fn find_sub(v: &Vec<char>, p: &str) -> (r: Option<usize>)
    ensures
        r matches Some(i) ==> find_from(v@, p@, 0) == Some(i as int) && i + p@.len() <= v@.len(),
        r is None ==> find_from(v@, p@, 0) is None,
{
    let pv = crate::text::lit(p);
    if pv.len() == 0 {
        proof {
            assert(v@.subrange(0, 0) =~= p@);
        }
        return Some(0);
    }
    let mut i: usize = 0;
    while i < v.len() && v.len() - i >= pv.len()
        invariant
            pv@ == p@,
            pv@.len() > 0,
            i <= v@.len(),
            find_from(v@, p@, 0) == find_from(v@, p@, i as int),
        decreases v.len() + 1 - i,
    {
        if crate::text::has_at(v, i, v.len(), &pv) {
            proof {
                assert(v@.subrange(i as int, v@.len() as int).take(p@.len() as int) =~= v@.subrange(i as int, i + p@.len()));
            }
            return Some(i);
        }
        proof {
            assert(v@.subrange(i as int, v@.len() as int).take(p@.len() as int) =~= v@.subrange(i as int, i + p@.len()));
        }
        i = i + 1;
    }
    None
}

/// The alignment a word names: `center` or `centre`, `right` or `end`,
/// `left` or `start`.
pub open spec fn align_word(w: Seq<char>) -> Option<Align> {
    if w == "center"@ || w == "centre"@ {
        Some(Align::Center)
    } else if w == "right"@ || w == "end"@ {
        Some(Align::Right)
    } else if w == "left"@ || w == "start"@ {
        Some(Align::Left)
    } else {
        None
    }
}

fn align_of_word(w: &str) -> (r: Option<Align>)
    ensures
        r == align_word(w@),
{
    if str_eq(w, "center") || str_eq(w, "centre") {
        Some(Align::Center)
    } else if str_eq(w, "right") || str_eq(w, "end") {
        Some(Align::Right)
    } else if str_eq(w, "left") || str_eq(w, "start") {
        Some(Align::Left)
    } else {
        None
    }
}

/// `t` without its trailing semicolons.
pub open spec fn trim_semis(t: Seq<char>) -> Seq<char>
    decreases t.len(),
{
    if t.len() > 0 && t.last() == ';' {
        trim_semis(t.drop_last())
    } else {
        t
    }
}

/// The `text-align` value in a lowercased `style` attribute: what follows
/// the first colon after `text-align`, up to the next colon, trimmed and
/// without trailing semicolons.
pub open spec fn style_align(s: Seq<char>) -> Option<Seq<char>> {
    match find_from(s, "text-align"@, 0) {
        None => None,
        Some(at) => {
            let rest = s.skip(at);
            let k = crate::text::find_first(rest, crate::text::is_char(':'));
            if k >= rest.len() {
                None
            } else {
                let after = rest.skip(k + 1);
                let e = crate::text::find_first(after, crate::text::is_char(':'));
                let seg = after.take(if e < after.len() { e } else { after.len() as int });
                Some(trim_semis(crate::text::trim(seg)))
            }
        },
    }
}

} // verus!

verus! {

/// The alignment an element asks for: its `align` attribute, else the
/// `text-align` in its `style`, either in any case.
pub open spec fn html_align_of(e: crate::html::ElemV) -> Option<Align> {
    match crate::html::attr_of(e.attrs, "align"@) {
        Some(a) => align_word(crate::text::lower_seq(a)),
        None => match crate::html::attr_of(e.attrs, "style"@) {
            None => None,
            Some(st) => match style_align(crate::text::lower_seq(st)) {
                None => None,
                Some(w) => align_word(w),
            },
        },
    }
}

/// The alignment an element asks for, from `<p align="center">` or
/// `style="text-align: right"`.
pub fn html_align(element: &Element) -> (r: Option<Align>)
    ensures
        r == html_align_of(crate::html::elem_v(*element)),
{
    match element.attr("align") {
        Some(a) => {
            let v = chars_of(a);
            let low = crate::text::lower_string(&v, 0, v.len());
            proof {
                assert(v@.subrange(0, v@.len() as int) =~= v@);
            }
            align_of_word(low.as_str())
        },
        None => match element.attr("style") {
            None => None,
            Some(st) => {
                let sv = chars_of(st);
                let low = crate::text::lower_string(&sv, 0, sv.len());
                proof {
                    assert(sv@.subrange(0, sv@.len() as int) =~= sv@);
                }
                let v = chars_of(low.as_str());
                let n = v.len();
                let at = match find_sub(&v, "text-align") {
                    Some(at) => at,
                    None => return None,
                };
                let ghost rest = v@.skip(at as int);
                proof {
                    assert(rest =~= v@.subrange(at as int, n as int));
                }
                let k = crate::text::find_char(&v, at, n, ':');
                proof {
                    assert(v@ == crate::text::lower_seq(st@));
                    assert(find_from(v@, "text-align"@, 0) == Some(at as int));
                    assert(k - at == crate::text::find_first(rest, crate::text::is_char(':')));
                }
                if k == n {
                    return None;
                }
                let e = crate::text::find_char(&v, k + 1, n, ':');
                proof {
                    assert(rest.skip(k + 1 - at) =~= v@.subrange(k + 1, n as int));
                    assert(v@.subrange(k + 1, n as int).take(e - (k + 1)) =~= v@.subrange(k + 1, e as int));
                }
                let (a, b0) = crate::text::trim_range(&v, k + 1, e);
                let mut b = b0;
                while b > a && v[b - 1] == ';'
                    invariant
                        a <= b <= b0 <= v@.len(),
                        trim_semis(v@.subrange(a as int, b0 as int)) == trim_semis(v@.subrange(a as int, b as int)),
                    decreases b,
                {
                    proof {
                        assert(v@.subrange(a as int, b as int).drop_last() =~= v@.subrange(a as int, b - 1));
                    }
                    b = b - 1;
                }
                proof {
                    assert(trim_semis(v@.subrange(a as int, b as int)) == v@.subrange(a as int, b as int));
                }
                let word = crate::text::string_of(&v, a, b);
                align_of_word(word.as_str())
            },
        },
    }
}

} // verus!

verus! {

/// An optional element reference as the element it points at.
pub open spec fn opt_element(o: Option<&Element>) -> Option<Element> {
    match o {
        Some(e) => Some(*e),
        None => None,
    }
}

/// A tag that may wrap a picture without being more than a picture.
pub open spec fn picture_wrapper(t: Seq<char>) -> bool {
    t == "a"@ || t == "p"@ || t == "div"@ || t == "picture"@ || t == "span"@ || t == "figure"@
}

/// The single image `nodes` holds, if that is all they hold.
pub open spec fn sole_image_of(nodes: Vec<Node>) -> Option<Element>
    decreases nodes, 1int, 0int,
{
    sole_image_from(nodes, 0, None)
}

/// What scanning `nodes` from the `i`th on finds, `found` being the picture
/// seen before it: blank text, `<br>` and `<source>` are passed over, the
/// first `<img>` is the picture, a wrapper counts as the single picture it
/// holds; anything else, or a second picture, means there is no sole image.
pub open spec fn sole_image_from(nodes: Vec<Node>, i: int, found: Option<Element>) -> Option<Element>
    decreases nodes, 0int, nodes@.len() - i,
{
    if 0 <= i < nodes@.len() {
        match nodes@[i] {
            Node::Text(t) => if crate::text::trim(t@).len() > 0 {
                None
            } else {
                sole_image_from(nodes, i + 1, found)
            },
            Node::Element(e) => {
                if e.tag@ == "img"@ && found is None {
                    sole_image_from(nodes, i + 1, Some(e))
                } else if e.tag@ == "br"@ || e.tag@ == "source"@ {
                    sole_image_from(nodes, i + 1, found)
                } else if picture_wrapper(e.tag@) {
                    proof {
                        assert(decreases_to!(nodes => nodes@[i]));
                        assert(decreases_to!(nodes => e.children));
                    }
                    match sole_image_of(e.children) {
                        None => None,
                        Some(x) => if found is Some {
                            None
                        } else {
                            sole_image_from(nodes, i + 1, Some(x))
                        },
                    }
                } else {
                    None
                }
            },
        }
    } else {
        found
    }
}

/// The single image a run of HTML nodes holds, if that is all it holds:
/// a logo wrapped in a link inside a centred paragraph is still just a
/// picture, and is drawn as one.
pub fn sole_image(nodes: &Vec<Node>) -> (r: Option<&Element>)
    ensures
        opt_element(r) == sole_image_of(*nodes),
        r matches Some(e) ==> e.tag@ == "img"@,
    decreases nodes,
{
    let mut found: Option<&Element> = None;
    let mut i: usize = 0;
    while i < nodes.len()
        invariant
            i <= nodes@.len(),
            found matches Some(e) ==> e.tag@ == "img"@,
            sole_image_of(*nodes) == sole_image_from(*nodes, i as int, opt_element(found)),
        decreases nodes.len() - i,
    {
        match &nodes[i] {
            Node::Text(t) => {
                let v = chars_of(t.as_str());
                let (a, b) = crate::text::trim_range(&v, 0, v.len());
                proof {
                    assert(v@.subrange(0, v@.len() as int) =~= v@);
                }
                if a < b {
                    return None;
                }
            },
            Node::Element(e) => {
                let tag = e.tag.as_str();
                if str_eq(tag, "img") && found.is_none() {
                    found = Some(e);
                } else if str_eq(tag, "br") || str_eq(tag, "source") {
                } else if str_eq(tag, "a") || str_eq(tag, "p") || str_eq(tag, "div") || str_eq(tag, "picture")
                    || str_eq(tag, "span") || str_eq(tag, "figure") {
                    proof {
                        assert(decreases_to!(nodes => nodes@[i as int]));
                    }
                    let inner = match sole_image(&e.children) {
                        Some(x) => x,
                        None => return None,
                    };
                    if found.is_some() {
                        return None;
                    }
                    found = Some(inner);
                } else {
                    return None;
                }
            },
        }
        i = i + 1;
    }
    found
}

/// The elements among `cs` whose tag is `tag`, in order.
pub open spec fn tagged_among(cs: Seq<Node>, tag: Seq<char>) -> Seq<Element>
    decreases cs.len(),
{
    if cs.len() == 0 {
        Seq::empty()
    } else {
        let p = tagged_among(cs.drop_last(), tag);
        match cs.last() {
            Node::Element(e) => if e.tag@ == tag { p.push(e) } else { p },
            Node::Text(_) => p,
        }
    }
}

/// A run of element references as the elements they point at.
pub open spec fn elements_of(r: Seq<&Element>) -> Seq<Element> {
    r.map_values(|e: &Element| *e)
}

/// The children of an element that are elements with tag `tag`.
pub fn element_children<'a>(element: &'a Element, tag: &str) -> (r: Vec<&'a Element>)
    ensures
        elements_of(r@) == tagged_among(element.children@, tag@),
        forall|i: int| 0 <= i < r@.len() ==> (#[trigger] r@[i]).tag@ == tag@,
{
    let mut out: Vec<&'a Element> = Vec::new();
    let mut i: usize = 0;
    while i < element.children.len()
        invariant
            i <= element.children@.len(),
            elements_of(out@) == tagged_among(element.children@.take(i as int), tag@),
            forall|k: int| 0 <= k < out@.len() ==> (#[trigger] out@[k]).tag@ == tag@,
        decreases element.children.len() - i,
    {
        proof {
            assert(element.children@.take(i + 1).drop_last() =~= element.children@.take(i as int));
            assert(element.children@.take(i + 1).last() == element.children@[i as int]);
        }
        match &element.children[i] {
            Node::Element(e) => {
                if str_eq(e.tag.as_str(), tag) {
                    let ghost before = out@;
                    out.push(e);
                    proof {
                        assert(elements_of(out@) =~= elements_of(before).push(*e));
                    }
                }
            },
            Node::Text(_) => {},
        }
        i = i + 1;
    }
    proof {
        assert(element.children@.take(i as int) =~= element.children@);
    }
    out
}

/// Whether a tag groups table rows.
pub open spec fn row_group(t: Seq<char>) -> bool {
    t == "thead"@ || t == "tbody"@ || t == "tfoot"@
}

/// The rows of a table element, looking through `thead`, `tbody` and
/// `tfoot`, in document order.
pub open spec fn table_rows(e: Element) -> Seq<Element>
    decreases e, 1int, 0int,
{
    rows_among(e, e.children@.len() as int)
}

/// The rows found among the first `k` children of `e`.
pub open spec fn rows_among(e: Element, k: int) -> Seq<Element>
    decreases e, 0int, k,
{
    if 0 < k <= e.children@.len() {
        let p = rows_among(e, k - 1);
        match e.children@[k - 1] {
            Node::Element(c) => {
                proof {
                    assert(decreases_to!(e => e.children@[k - 1]));
                    assert(decreases_to!(e => c));
                }
                if c.tag@ == "tr"@ {
                    p.push(c)
                } else if row_group(c.tag@) {
                    p + table_rows(c)
                } else {
                    p
                }
            },
            Node::Text(_) => p,
        }
    } else {
        Seq::empty()
    }
}

/// The rows of an HTML table, looking through `thead`, `tbody` and
/// `tfoot`.
pub fn collect_rows<'a>(element: &'a Element, out: &mut Vec<&'a Element>)
    ensures
        elements_of(final(out)@) == elements_of(old(out)@) + table_rows(*element),
        final(out)@.len() >= old(out)@.len(),
        forall|i: int| 0 <= i < old(out)@.len() ==> final(out)@[i] == old(out)@[i],
        forall|i: int| old(out)@.len() <= i < final(out)@.len() ==> (#[trigger] final(out)@[i]).tag@ == "tr"@,
    decreases element.children,
{
    let ghost start = out@;
    let mut i: usize = 0;
    proof {
        assert(elements_of(out@) =~= elements_of(start) + rows_among(*element, 0));
    }
    while i < element.children.len()
        invariant
            i <= element.children@.len(),
            out@.len() >= start.len(),
            forall|k: int| 0 <= k < start.len() ==> out@[k] == start[k],
            forall|k: int| start.len() <= k < out@.len() ==> (#[trigger] out@[k]).tag@ == "tr"@,
            elements_of(out@) == elements_of(start) + rows_among(*element, i as int),
        decreases element.children.len() - i,
    {
        let ghost before = out@;
        match &element.children[i] {
            Node::Element(e) => {
                let tag = e.tag.as_str();
                if str_eq(tag, "tr") {
                    out.push(e);
                    proof {
                        assert(elements_of(out@) =~= elements_of(before).push(*e));
                        assert(elements_of(out@) =~= elements_of(start) + rows_among(*element, i + 1));
                    }
                } else if str_eq(tag, "thead") || str_eq(tag, "tbody") || str_eq(tag, "tfoot") {
                    proof {
                        assert(decreases_to!(element.children => element.children@[i as int]));
                    }
                    collect_rows(e, out);
                    proof {
                        assert(elements_of(out@) =~= elements_of(start) + rows_among(*element, i + 1));
                    }
                } else {
                    proof {
                        assert(rows_among(*element, i + 1) == rows_among(*element, i as int));
                    }
                }
            },
            Node::Text(_) => {},
        }
        i = i + 1;
    }
}

} // verus!

verus! {

/// Every link a run of spans points to is one of the first `n`.
pub open spec fn links_ok(s: Seq<Span>, n: nat) -> bool {
    forall|i: int| 0 <= i < s.len() ==> link_ok((#[trigger] s[i]).link, n)
}

/// Every cell of a row of table cells points only at the first `n` links.
pub open spec fn cells_ok(row: Seq<Vec<Span>>, n: nat) -> bool {
    forall|i: int| 0 <= i < row.len() ==> links_ok((#[trigger] row[i])@, n)
}

/// A block points only at the first `nl` links and the first `ni` images.
pub open spec fn block_ok(b: Block, nl: nat, ni: nat) -> bool {
    &&& links_ok(b.spans@, nl)
    &&& links_ok(b.gutter@, nl)
    &&& links_ok(b.prefix@, nl)
    &&& (b.table matches Some(t) ==> cells_ok(t.head@, nl) && forall|r: int| 0 <= r < t.rows@.len() ==> cells_ok((#[trigger] t.rows@[r])@, nl))
    &&& (b.kind matches BlockKind::Image(id) ==> id.0 < ni)
    &&& (b.image matches Some(id) ==> id.0 < ni)
}

/// Every link and image a document's blocks point at is in its tables.
pub open spec fn doc_ok(d: Document) -> bool {
    forall|i: int| 0 <= i < d.blocks@.len() ==> block_ok(#[trigger] d.blocks@[i], d.links@.len(), d.images@.len())
}

/// A link that is none, or one of the first `n`.
pub open spec fn link_ok(l: Option<LinkId>, n: nat) -> bool {
    match l {
        Some(x) => x.0 < n,
        None => true,
    }
}


proof fn lemma_doc_grows(d: Document, e: Document)
    requires
        doc_ok(d),
        e.blocks@ == d.blocks@,
        d.links@.len() <= e.links@.len(),
        d.images@.len() <= e.images@.len(),
    ensures
        doc_ok(e),
{
    assert forall|i: int| 0 <= i < e.blocks@.len() implies block_ok(#[trigger] e.blocks@[i], e.links@.len(), e.images@.len()) by {
        let b = e.blocks@[i];
        assert(block_ok(d.blocks@[i], d.links@.len(), d.images@.len()));
        if let Some(t) = b.table {
            assert forall|r: int| 0 <= r < t.rows@.len() implies cells_ok((#[trigger] t.rows@[r])@, e.links@.len()) by {
                assert(cells_ok(t.rows@[r]@, d.links@.len()));
            }
        }
    }
}

proof fn lemma_push_ok(s: Seq<Span>, x: Span, n: nat)
    requires
        links_ok(s, n),
        link_ok(x.link, n),
    ensures
        links_ok(s.push(x), n),
{
    assert forall|i: int| 0 <= i < s.push(x).len() implies link_ok((#[trigger] s.push(x)[i]).link, n) by {
        if i < s.len() {
            assert(s.push(x)[i] == s[i]);
        }
    }
}

/// The state of a document being built: the document so far, and what the
/// blocks still to come inherit from the ones around them.
pub struct Builder {
    pub doc: Document,
    /// Columns of indentation for the next blocks.
    pub indent: usize,
    /// Drawn at the start of every line of the next blocks.
    pub gutter: Vec<Span>,
    /// The marker the next block carries on its first line.
    pub pending_prefix: Option<Vec<Span>>,
    /// Whether a blank line goes before the next block.
    pub pending_blank: bool,
    /// Whether the list being built is tight.
    pub tight: bool,
    /// The inline HTML tags open in the current paragraph, and their styles.
    pub html_styles: Vec<(String, Style)>,
}

/// An element's attribute, empty when it has none.
pub open spec fn attr_or_empty(e: Element, name: Seq<char>) -> Seq<char> {
    match crate::html::attr_of(crate::html::attrs_v(e.attrs@), name) {
        Some(v) => v,
        None => Seq::empty(),
    }
}

/// Whether a node is a table cell, `<th>` or `<td>`.
pub open spec fn is_table_cell(n: Node) -> bool {
    n matches Node::Element(e) && (e.tag@ == "th"@ || e.tag@ == "td"@)
}

/// Whether a node is a header cell, `<th>`.
pub open spec fn is_header_cell(n: Node) -> bool {
    n matches Node::Element(e) && e.tag@ == "th"@
}

/// How many of `cs` are table cells.
pub open spec fn cell_count(cs: Seq<Node>) -> nat
    decreases cs.len(),
{
    if cs.len() == 0 {
        0
    } else {
        cell_count(cs.drop_last()) + if is_table_cell(cs.last()) { 1nat } else { 0nat }
    }
}

/// How many cells an HTML table's header has: those of the first row with
/// a header cell and any cell at all; none without one.
pub open spec fn html_head_cells(rows: Seq<Element>) -> nat
    decreases rows.len(),
{
    if rows.len() == 0 {
        0
    } else {
        let p = html_head_cells(rows.drop_last());
        let last = rows.last();
        if p == 0 && cell_count(last.children@) > 0 && exists|k: int|
            0 <= k < last.children@.len() && is_header_cell(#[trigger] last.children@[k]) {
            cell_count(last.children@)
        } else {
            p
        }
    }
}

/// How many body rows an HTML table has: every row with a cell, but the
/// one that is its header.
pub open spec fn html_body_rows(rows: Seq<Element>) -> nat
    decreases rows.len(),
{
    if rows.len() == 0 {
        0
    } else {
        let last = rows.last();
        let head = html_head_cells(rows.drop_last()) == 0 && exists|k: int|
            0 <= k < last.children@.len() && is_header_cell(#[trigger] last.children@[k]);
        html_body_rows(rows.drop_last()) + if cell_count(last.children@) > 0 && !head { 1nat } else { 0nat }
    }
}

/// `next` is `prev` with one more span at the end.
pub open spec fn one_more(prev: Seq<Span>, next: Seq<Span>) -> bool {
    next.len() == prev.len() + 1 && next.drop_last() == prev
}

/// `next` starts with all of `prev`: spans are only ever added after it.
pub open spec fn keeps_prefix(prev: Seq<Span>, next: Seq<Span>) -> bool {
    &&& prev.len() <= next.len()
    &&& forall|i: int| 0 <= i < prev.len() ==> #[trigger] next[i] == prev[i]
}

/// Whether `blocks` shows `node` the way a heading, a rule, a code block, a
/// table, front matter or a paragraph that is a lone image is always shown:
/// by a block of its kind carrying its source lines. Other nodes ask
/// nothing here.
pub open spec fn leaves_block(blocks: Seq<Block>, node: MdNode) -> bool {
    match node.value {
        MdValue::Heading(level) => exists|j: int| 0 <= j < blocks.len()
            && #[trigger] blocks[j].kind == BlockKind::Heading(level) && range_from(blocks[j].source_range, node),
        MdValue::ThematicBreak => exists|j: int| 0 <= j < blocks.len()
            && #[trigger] blocks[j].kind == BlockKind::Rule && range_from(blocks[j].source_range, node),
        MdValue::CodeBlock { info, .. } => exists|j: int| 0 <= j < blocks.len()
            && (#[trigger] blocks[j].kind matches BlockKind::Code { lang } && opt_chars(lang) == fence_lang(info@))
            && range_from(blocks[j].source_range, node),
        MdValue::Table(_) => exists|j: int| 0 <= j < blocks.len()
            && #[trigger] blocks[j].kind == BlockKind::Table && range_from(blocks[j].source_range, node),
        MdValue::FrontMatter(_) => exists|j: int| 0 <= j < blocks.len()
            && #[trigger] blocks[j].kind == (BlockKind::Code { lang: None }) && range_from(blocks[j].source_range, node),
        MdValue::Paragraph => (node.children@.len() == 1 && node.children@[0].value is Image) ==> exists|j: int|
            0 <= j < blocks.len() && (#[trigger] blocks[j].kind is Image) && range_from(blocks[j].source_range, node),
        _ => true,
    }
}

/// What a node left in the blocks stays there while blocks are added after.
proof fn lemma_leaves_kept(a: Seq<Block>, b: Seq<Block>, node: MdNode)
    requires
        a.len() <= b.len(),
        forall|i: int| 0 <= i < a.len() ==> #[trigger] b[i] == a[i],
        leaves_block(a, node),
    ensures
        leaves_block(b, node),
{
    match node.value {
        MdValue::Heading(level) => {
            let j = choose|j: int| 0 <= j < a.len()
                && #[trigger] a[j].kind == BlockKind::Heading(level) && range_from(a[j].source_range, node);
            assert(b[j] == a[j]);
        },
        MdValue::ThematicBreak => {
            let j = choose|j: int| 0 <= j < a.len()
                && #[trigger] a[j].kind == BlockKind::Rule && range_from(a[j].source_range, node);
            assert(b[j] == a[j]);
        },
        MdValue::CodeBlock { info, .. } => {
            let j = choose|j: int| 0 <= j < a.len()
                && (#[trigger] a[j].kind matches BlockKind::Code { lang } && opt_chars(lang) == fence_lang(info@))
                && range_from(a[j].source_range, node);
            assert(b[j] == a[j]);
        },
        MdValue::Table(_) => {
            let j = choose|j: int| 0 <= j < a.len()
                && #[trigger] a[j].kind == BlockKind::Table && range_from(a[j].source_range, node);
            assert(b[j] == a[j]);
        },
        MdValue::FrontMatter(_) => {
            let j = choose|j: int| 0 <= j < a.len()
                && #[trigger] a[j].kind == (BlockKind::Code { lang: None }) && range_from(a[j].source_range, node);
            assert(b[j] == a[j]);
        },
        MdValue::Paragraph => {
            if node.children@.len() == 1 && node.children@[0].value is Image {
                let j = choose|j: int| 0 <= j < a.len()
                    && (#[trigger] a[j].kind is Image) && range_from(a[j].source_range, node);
                assert(b[j] == a[j]);
            }
        },
        _ => {},
    }
}

/// `next` is `prev` with exactly one block added at the end.
pub open spec fn added_one(prev: Builder, next: Builder) -> bool {
    &&& next.doc.blocks@.len() == prev.doc.blocks@.len() + 1
    &&& next.doc.blocks@.drop_last() == prev.doc.blocks@
}

/// Whether `r` is the 1-based, end-exclusive line range of `node`, as
/// `node_range` computes it.
pub open spec fn range_from(r: std::ops::Range<usize>, node: MdNode) -> bool {
    &&& r.start == range_of(node).0
    &&& r.end == (if range_of(node).1 <= usize::MAX { range_of(node).1 } else { usize::MAX as int })
}

/// An optional string as an optional character sequence.
pub open spec fn opt_chars(o: Option<String>) -> Option<Seq<char>> {
    match o {
        Some(s) => Some(s@),
        None => None,
    }
}

/// Whether a table row of the syntax tree is its header row.
pub open spec fn is_head_row(n: MdNode) -> bool {
    n.value matches MdValue::TableRow(h) && h
}

/// How many of `rows` are body rows.
pub open spec fn body_rows(rows: Seq<MdNode>) -> nat
    decreases rows.len(),
{
    if rows.len() == 0 {
        0
    } else {
        body_rows(rows.drop_last()) + if is_head_row(rows.last()) { 0nat } else { 1nat }
    }
}

/// How many cells the last header row among `rows` has; none without one.
pub open spec fn head_cells(rows: Seq<MdNode>) -> nat
    decreases rows.len(),
{
    if rows.len() == 0 {
        0
    } else if is_head_row(rows.last()) {
        rows.last().children@.len()
    } else {
        head_cells(rows.drop_last())
    }
}

/// How many cells the `k`th body row among `rows` has.
pub open spec fn body_row_cells(rows: Seq<MdNode>, k: int) -> nat
    decreases rows.len(),
{
    if rows.len() == 0 {
        0
    } else if !is_head_row(rows.last()) && k == body_rows(rows.drop_last()) {
        rows.last().children@.len()
    } else {
        body_row_cells(rows.drop_last(), k)
    }
}

/// `nb` is `b` as `push` adds it to what `s` is building: the same kind,
/// text, table, picture and alignment, with the builder's indent and gutter,
/// the marker waiting for it, and a blank line before it when one is pending
/// and it is not the first.
pub open spec fn pushed_as(nb: Block, b: Block, s: Builder) -> bool {
    &&& nb.kind == b.kind
    &&& nb.source_range == b.source_range
    &&& nb.spans@ == b.spans@
    &&& nb.table == b.table
    &&& nb.image == b.image
    &&& nb.align == b.align
    &&& nb.indent == s.indent
    &&& spans_v(nb.gutter@) == spans_v(s.gutter@)
    &&& nb.prefix@ == (match s.pending_prefix {
        Some(p) => p@,
        None => b.prefix@,
    })
    &&& nb.blank_before == (s.pending_blank && s.doc.blocks@.len() > 0)
}

impl Builder {
    /// What every method keeps: the document points only into its own
    /// tables, and so does what the next block will inherit.
    pub open spec fn ok(self) -> bool {
        &&& doc_ok(self.doc)
        &&& links_ok(self.gutter@, self.doc.links@.len())
        &&& (self.pending_prefix matches Some(p) ==> links_ok(p@, self.doc.links@.len()))
    }

    /// The tables only grow, and the source lines stay as they are.
    pub open spec fn grows(self, next: Builder) -> bool {
        &&& self.doc.links@.len() <= next.doc.links@.len()
        &&& forall|i: int| 0 <= i < self.doc.links@.len() ==> #[trigger] next.doc.links@[i] == self.doc.links@[i]
        &&& self.doc.blocks@.len() <= next.doc.blocks@.len()
        &&& forall|i: int| 0 <= i < self.doc.blocks@.len() ==> #[trigger] next.doc.blocks@[i] == self.doc.blocks@[i]
        &&& self.doc.images@.len() <= next.doc.images@.len()
        &&& next.doc.source_lines@ == self.doc.source_lines@
    }

    /// Adds a block, with the indent, gutter and marker it inherits; a blank
    /// line goes before it when one is pending and it is not the first.
    pub fn push(&mut self, block: Block)
        requires
            old(self).ok(),
            block_ok(block, old(self).doc.links@.len(), old(self).doc.images@.len()),
        ensures
            final(self).ok(),
            old(self).grows(*final(self)),
            final(self).doc.links@ == old(self).doc.links@,
            final(self).doc.images@ == old(self).doc.images@,
            final(self).doc.blocks@.len() == old(self).doc.blocks@.len() + 1,
            final(self).gutter@ == old(self).gutter@,
            final(self).indent == old(self).indent,
            final(self).tight == old(self).tight,
            final(self).pending_prefix is None,
            final(self).html_styles@ == old(self).html_styles@,
            final(self).pending_blank == !old(self).tight,
            final(self).doc.blocks@.drop_last() == old(self).doc.blocks@,
            final(self).doc.source_lines@ == old(self).doc.source_lines@,
            pushed_as(final(self).doc.blocks@.last(), block, *old(self)),
    {
        let ghost orig = block;
        let mut block = block;
        block.indent = self.indent;
        let mut g: Vec<Span> = Vec::new();
        let mut i: usize = 0;
        while i < self.gutter.len()
            invariant
                i <= self.gutter@.len(),
                g@.len() == i,
                forall|k: int| 0 <= k < i ==> span_v(#[trigger] g@[k]) == span_v(self.gutter@[k]) && g@[k].link == self.gutter@[k].link,
            decreases self.gutter.len() - i,
        {
            g.push(crate::layout::copy_span(&self.gutter[i]));
            i = i + 1;
        }
        block.gutter = g;
        let taken = self.pending_prefix.take();
        match taken {
            Some(prefix) => {
                block.prefix = prefix;
            },
            None => {},
        }
        block.blank_before = self.pending_blank && self.doc.blocks.len() > 0;
        self.pending_blank = !self.tight;
        let ghost before = self.doc;
        proof {
            assert(spans_v(block.gutter@) =~= spans_v(old(self).gutter@));
        }
        self.doc.blocks.push(block);
        proof {
            assert(self.doc.blocks@.drop_last() =~= before.blocks@);
            assert forall|k: int| 0 <= k < self.doc.blocks@.len() implies block_ok(#[trigger] self.doc.blocks@[k], self.doc.links@.len(), self.doc.images@.len()) by {
                if k < before.blocks@.len() {
                    assert(self.doc.blocks@[k] == before.blocks@[k]);
                } else {
                    assert(links_ok(self.doc.blocks@[k].gutter@, self.doc.links@.len()));
                }
            }
        }
    }
}

} // verus!

verus! {


/// Whether the last span of `out` ends with a space or a line feed.
fn ends_in_space(out: &Vec<Span>) -> (r: bool)
    ensures
        r == (out@.len() > 0 && out@.last().text@.len() > 0 && (out@.last().text@.last() == ' '
            || out@.last().text@.last() == '\n')),
{
    let n = out.len();
    if n == 0 {
        return false;
    }
    let v = chars_of(out[n - 1].text.as_str());
    v.len() > 0 && (v[v.len() - 1] == ' ' || v[v.len() - 1] == '\n')
}

/// Whether the last two spans of `out` (as many as there are) are both
/// line breaks.
fn breaks_at_end(out: &Vec<Span>) -> (r: bool)
    ensures
        r == forall|k: int| 0 <= k < 2 && k < out@.len() ==> (#[trigger] out@[out@.len() - 1 - k]).text@ == "\n"@,
{
    let n = out.len();
    let mut k: usize = 0;
    while k < 2 && k < n
        invariant
            k <= 2,
            k <= n == out@.len(),
            forall|j: int| 0 <= j < k ==> (#[trigger] out@[n - 1 - j]).text@ == "\n"@,
        decreases 2 - k,
    {
        if !str_eq(out[n - 1 - k].text.as_str(), "\n") {
            return false;
        }
        k = k + 1;
    }
    true
}

/// `[label]`.
fn bracketed(label: &str) -> (r: String)
    ensures
        r@ == seq!['['] + label@ + seq![']'],
{
    let mut t = String::new();
    push_char(&mut t, '[');
    push_str(&mut t, label);
    push_char(&mut t, ']');
    proof {
        assert(t@ =~= seq!['['] + label@ + seq![']']);
    }
    t
}

impl Builder {
    /// An `<img>`: recorded in the image table, and shown inline as its alt
    /// text (or its address) in brackets.
    fn html_img(&mut self, theme: &Theme, img: &Element, style: Style, link: Option<LinkId>, out: &mut Vec<Span>)
        requires
            old(self).ok(),
            link_ok(link, old(self).doc.links@.len()),
            links_ok(old(out)@, old(self).doc.links@.len()),
        ensures
            final(self).ok(),
            old(self).grows(*final(self)),
            final(self).doc.blocks@ == old(self).doc.blocks@,
            final(self).doc.links@ == old(self).doc.links@,
            final(self).gutter@ == old(self).gutter@,
            final(self).pending_prefix == old(self).pending_prefix,
            final(self).indent == old(self).indent,
            final(self).pending_blank == old(self).pending_blank,
            final(self).tight == old(self).tight,
            links_ok(final(out)@, final(self).doc.links@.len()),
            keeps_prefix(old(out)@, final(out)@),
            final(self).doc.images@.drop_last() == old(self).doc.images@,
            final(self).doc.images@.last().url@ == attr_or_empty(*img, "src"@),
            final(self).doc.images@.last().alt@ == attr_or_empty(*img, "alt"@),
            ({
                let label = if attr_or_empty(*img, "alt"@).len() == 0 {
                    attr_or_empty(*img, "src"@)
                } else {
                    attr_or_empty(*img, "alt"@)
                };
                if label.len() == 0 {
                    final(out)@ == old(out)@
                } else {
                    &&& final(out)@.drop_last() == old(out)@
                    &&& final(out)@.last().text@ == seq!['['] + label + seq![']']
                    &&& final(out)@.last().style == crate::ir::patched(style, theme.dim)
                    &&& final(out)@.last().link == link
                }
            }),
    {
        let url = match img.attr("src") {
            Some(u) => u,
            None => "",
        };
        let alt = match img.attr("alt") {
            Some(a) => a,
            None => "",
        };
        proof {
            reveal_strlit("");
            assert(url@ == attr_or_empty(*img, "src"@));
            assert(alt@ == attr_or_empty(*img, "alt"@));
        }
        let ghost before = self.doc;
        self.doc.images.push(Image::new(url, alt));
        proof {
            lemma_doc_grows(before, self.doc);
        }
        let label = if alt.is_empty() { url } else { alt };
        if !label.is_empty() {
            let sp = Span::new(bracketed(label).as_str(), style.patch(theme.dim)).with_link(link);
            let ghost o = out@;
            out.push(sp);
            proof {
                lemma_push_ok(o, sp, self.doc.links@.len());
            }
        }
    }

    /// One HTML node inline: text with its whitespace collapsed, an element
    /// as its content in the style it stands for. A link is recorded in the
    /// link table and its text points at it; `<br>` is a line break (no more
    /// than two in a row); an image is recorded and shown as its alt text.
    fn html_inline(&mut self, theme: &Theme, node: &Node, style: Style, link: Option<LinkId>, out: &mut Vec<Span>)
        requires
            old(self).ok(),
            link_ok(link, old(self).doc.links@.len()),
            links_ok(old(out)@, old(self).doc.links@.len()),
        ensures
            final(self).ok(),
            old(self).grows(*final(self)),
            final(self).doc.blocks@ == old(self).doc.blocks@,
            final(self).gutter@ == old(self).gutter@,
            final(self).pending_prefix == old(self).pending_prefix,
            final(self).indent == old(self).indent,
            final(self).pending_blank == old(self).pending_blank,
            final(self).tight == old(self).tight,
            links_ok(final(out)@, final(self).doc.links@.len()),
            keeps_prefix(old(out)@, final(out)@),
            node matches Node::Text(text) ==> ({
                let c = collapsed(text@);
                let t = if c.len() > 0 && c[0] == ' ' && old(out)@.len() > 0 && old(out)@.last().text@.len() > 0
                    && (old(out)@.last().text@.last() == ' ' || old(out)@.last().text@.last() == '\n') {
                    c.drop_first()
                } else {
                    c
                };
                if t.len() == 0 {
                    final(out)@ == old(out)@
                } else {
                    one_more(old(out)@, final(out)@) && final(out)@.last().text@ == t
                        && final(out)@.last().style == style && final(out)@.last().link == link
                }
            }),
            node matches Node::Element(e) && e.tag@ == "br"@ ==> ({
                if forall|k: int| 0 <= k < 2 && k < old(out)@.len() ==> (#[trigger] old(out)@[old(out)@.len() - 1 - k]).text@ == "\n"@ {
                    final(out)@ == old(out)@
                } else {
                    one_more(old(out)@, final(out)@) && final(out)@.last().text@ == "\n"@
                        && final(out)@.last().style == style && final(out)@.last().link is None
                }
            }),
            match node {
                Node::Element(e) => e.tag@ == "a"@ ==> match crate::html::attr_of(crate::html::attrs_v(e.attrs@), "href"@) {
                    Some(href) => final(self).doc.links@.len() > old(self).doc.links@.len()
                        && final(self).doc.links@[old(self).doc.links@.len() as int].url@ == href
                        && final(out)@.len() > old(out)@.len(),
                    None => true,
                },
                Node::Text(_) => true,
            },
        decreases node,
    {
        let element = match node {
            Node::Text(text) => {
                let collapsed = collapse_whitespace(text.as_str());
                let v = chars_of(collapsed.as_str());
                let drop_first = v.len() > 0 && v[0] == ' ' && ends_in_space(out);
                let t = if drop_first { crate::text::string_of(&v, 1, v.len()) } else { crate::text::string_of(&v, 0, v.len()) };
                proof {
                    if drop_first {
                        assert(v@.subrange(1, v@.len() as int) =~= v@.drop_first());
                    } else {
                        assert(v@.subrange(0, v@.len() as int) =~= v@);
                    }
                }
                if !t.as_str().is_empty() {
                    let sp = Span::new(t.as_str(), style).with_link(link);
                    let ghost o = out@;
                    out.push(sp);
                    proof {
                        lemma_push_ok(o, sp, self.doc.links@.len());
                        assert(out@.drop_last() =~= o);
                    }
                }
                return ;
            },
            Node::Element(e) => e,
        };
        let tag = element.tag.as_str();
        proof {
            reveal_strlit("a");
            reveal_strlit("br");
            assert("a"@ != "br"@) by {
                assert("a"@.len() != "br"@.len());
            }
        }
        if str_eq(tag, "br") {
            if !breaks_at_end(out) {
                let sp = Span::new("\n", style);
                let ghost o = out@;
                out.push(sp);
                proof {
                    lemma_push_ok(o, sp, self.doc.links@.len());
                    assert(out@.drop_last() =~= o);
                }
            }
        } else if str_eq(tag, "a") {
            match element.attr("href") {
                None => {
                    self.html_children(theme, element, style, link, out);
                },
                Some(href) => {
                    let id = LinkId(self.doc.links.len());
                    let ghost before = self.doc;
                    self.doc.links.push(Link { url: href.to_owned(), title: String::new() });
                    proof {
                        lemma_doc_grows(before, self.doc);
                    }
                    let from = out.len();
                    let label_style = style.patch(theme.link);
                    self.html_children(theme, element, label_style, Some(id), out);
                    if out.len() == from {
                        let sp = Span::new(href, label_style).with_link(Some(id));
                        let ghost o = out@;
                        out.push(sp);
                        proof {
                            lemma_push_ok(o, sp, self.doc.links@.len());
                        }
                    }
                    let ghost o2 = out@;
                    unlink_edge_whitespace(out, from, style);
                    proof {
                        assert forall|i: int| 0 <= i < out@.len() implies link_ok((#[trigger] out@[i]).link, self.doc.links@.len()) by {
                            assert(link_ok(o2[i].link, self.doc.links@.len()));
                        }
                    }
                },
            }
        } else if str_eq(tag, "img") {
            self.html_img(theme, element, style, link, out);
        } else if str_eq(tag, "picture") {
            let imgs = element_children(element, "img");
            if imgs.len() > 0 {
                self.html_img(theme, imgs[0], style, link, out);
            } else {
                self.html_children(theme, element, style, link, out);
            }
        } else {
            let st = style.patch(html_tag_style(theme, tag));
            self.html_children(theme, element, st, link, out);
        }
    }

    /// The children of an element, inline.
    fn html_children(&mut self, theme: &Theme, element: &Element, style: Style, link: Option<LinkId>, out: &mut Vec<Span>)
        requires
            old(self).ok(),
            link_ok(link, old(self).doc.links@.len()),
            links_ok(old(out)@, old(self).doc.links@.len()),
        ensures
            final(self).ok(),
            old(self).grows(*final(self)),
            final(self).doc.blocks@ == old(self).doc.blocks@,
            final(self).gutter@ == old(self).gutter@,
            final(self).pending_prefix == old(self).pending_prefix,
            final(self).indent == old(self).indent,
            final(self).pending_blank == old(self).pending_blank,
            final(self).tight == old(self).tight,
            links_ok(final(out)@, final(self).doc.links@.len()),
            keeps_prefix(old(out)@, final(out)@),
        decreases element,
    {
        let mut i: usize = 0;
        while i < element.children.len()
            invariant
                i <= element.children@.len(),
                self.ok(),
                old(self).grows(*self),
                self.doc.blocks@ == old(self).doc.blocks@,
                self.gutter@ == old(self).gutter@,
                self.pending_prefix == old(self).pending_prefix,
                self.indent == old(self).indent,
                self.pending_blank == old(self).pending_blank,
                self.tight == old(self).tight,
                link_ok(link, self.doc.links@.len()),
                links_ok(out@, self.doc.links@.len()),
                keeps_prefix(old(out)@, out@),
            decreases element.children.len() - i,
        {
            proof {
                assert(decreases_to!(element => element.children@[i as int]));
            }
            self.html_inline(theme, &element.children[i], style, link, out);
            i = i + 1;
        }
    }
}

} // verus!

verus! {

/// Every link a run of span views points to is one of the first `n`.
pub open spec fn links_ok_v(s: Seq<SpanV>, n: nat) -> bool {
    forall|i: int| 0 <= i < s.len() ==> link_ok((#[trigger] s[i]).2, n)
}

proof fn lemma_links_v(s: Seq<Span>, n: nat)
    ensures
        links_ok(s, n) <==> links_ok_v(spans_v(s), n),
{
    assert forall|i: int| 0 <= i < s.len() implies #[trigger] spans_v(s)[i] == span_v(s[i]) by {}
    if links_ok_v(spans_v(s), n) {
        assert forall|i: int| 0 <= i < s.len() implies link_ok((#[trigger] s[i]).link, n) by {
            assert(spans_v(s)[i] == span_v(s[i]));
        }
    }
}

proof fn lemma_merged_links(s: Seq<SpanV>, n: nat)
    requires
        links_ok_v(s, n),
    ensures
        links_ok_v(merged(s), n),
    decreases s.len(),
{
    if s.len() > 0 {
        lemma_merged_links(s.drop_last(), n);
        let p = merged(s.drop_last());
        assert(link_ok(s.last().2, n));
        assert forall|i: int| 0 <= i < merged(s).len() implies link_ok((#[trigger] merged(s)[i]).2, n) by {
            if i < p.len() {
                assert(link_ok(p[i].2, n));
            }
        }
    }
}

proof fn lemma_nonempty_links(s: Seq<SpanV>, n: nat)
    requires
        links_ok_v(s, n),
    ensures
        links_ok_v(nonempty(s), n),
    decreases s.len(),
{
    if s.len() > 0 {
        lemma_nonempty_links(s.drop_last(), n);
        assert(link_ok(s.last().2, n));
        let p = nonempty(s.drop_last());
        assert forall|i: int| 0 <= i < nonempty(s).len() implies link_ok((#[trigger] nonempty(s)[i]).2, n) by {
            if i < p.len() {
                assert(link_ok(p[i].2, n));
            }
        }
    }
}

proof fn lemma_trimmed_links(s: Seq<SpanV>, n: nat)
    requires
        links_ok_v(s, n),
    ensures
        links_ok_v(trimmed_html(s), n),
{
    let a = s.skip(blank_lead(s) as int);
    assert(blank_lead(s) <= s.len()) by {
        lemma_blank_lead_len(s);
    }
    assert(blank_tail(a) <= a.len()) by {
        lemma_blank_tail_len(a);
    }
    let b = a.take(a.len() - blank_tail(a));
    assert(links_ok_v(b, n)) by {
        assert forall|i: int| 0 <= i < b.len() implies link_ok((#[trigger] b[i]).2, n) by {
            assert(b[i] == s[i + blank_lead(s)]);
        }
    }
    if b.len() > 0 {
        let c = b.update(0, (trim_start_sn(b[0].0), b[0].1, b[0].2));
        let d = c.update(c.len() - 1, (trim_end_sn(c.last().0), c.last().1, c.last().2));
        assert(links_ok_v(d, n)) by {
            assert forall|i: int| 0 <= i < d.len() implies link_ok((#[trigger] d[i]).2, n) by {
                assert(d[i].2 == b[i].2);
            }
        }
        lemma_nonempty_links(d, n);
    }
}

proof fn lemma_blank_lead_len(s: Seq<SpanV>)
    ensures
        blank_lead(s) <= s.len(),
    decreases s.len(),
{
    if s.len() > 0 && blank_sn(s[0].0) {
        lemma_blank_lead_len(s.drop_first());
    }
}

proof fn lemma_blank_tail_len(s: Seq<SpanV>)
    ensures
        blank_tail(s) <= s.len(),
    decreases s.len(),
{
    if s.len() > 0 && blank_sn(s.last().0) {
        lemma_blank_tail_len(s.drop_last());
    }
}

/// The trimmed, merged spans of a run of HTML inline content, still
/// pointing only into the first `n` links.
fn tidy(spans: Vec<Span>, Ghost(n): Ghost<nat>) -> (r: Vec<Span>)
    requires
        links_ok(spans@, n),
    ensures
        links_ok(r@, n),
        spans_v(r@) == merged(trimmed_html(spans_v(spans@))),
{
    proof {
        lemma_links_v(spans@, n);
        lemma_trimmed_links(spans_v(spans@), n);
    }
    let t = trim_html_spans(spans);
    let r = merge_adjacent(t);
    proof {
        lemma_merged_links(spans_v(t@), n);
        lemma_links_v(r@, n);
    }
    r
}


/// A list's first number as HTML's `start` attribute gives it: decimal
/// digits, optionally after a `+`, that fit a `usize`.
pub open spec fn start_value(s: Seq<char>) -> Option<usize> {
    let d = if s.len() >= 1 && s[0] == '+' { s.drop_first() } else { s };
    if d.len() == 0 {
        None
    } else {
        match crate::html::digits_value(d, 10) {
            Some(v) => if v <= usize::MAX { Some(v as usize) } else { None },
            None => None,
        }
    }
}

/// `str::parse::<usize>` on a `start` attribute.
fn parse_start(t: &str) -> (r: Option<usize>)
    ensures
        r == start_value(t@),
{
    let v = chars_of(t);
    let mut i: usize = 0;
    if v.len() > 0 && v[0] == '+' {
        i = 1;
    }
    let ghost off = i as int;
    let ghost d = v@.subrange(off, v@.len() as int);
    proof {
        if v@.len() >= 1 && v@[0] == '+' {
            assert(d =~= v@.drop_first());
        } else {
            assert(d =~= v@);
        }
    }
    if i >= v.len() {
        return None;
    }
    let mut n: usize = 0;
    proof {
        assert(d.take(0) =~= Seq::<char>::empty());
    }
    while i < v.len()
        invariant
            0 <= off <= i <= v@.len(),
            v@ == t@,
            d == v@.subrange(off, v@.len() as int),
            d == (if t@.len() >= 1 && t@[0] == '+' { t@.drop_first() } else { t@ }),
            d.len() > 0,
            crate::html::digits_value(d.take(i - off), 10) == Some(n as nat),
        decreases v.len() - i,
    {
        let c = v[i];
        proof {
            assert(d.take(i - off + 1).drop_last() =~= d.take(i - off));
            assert(d.take(i - off + 1).last() == c);
            assert(d[i - off] == c);
        }
        if !('0' <= c && c <= '9') {
            proof {
                crate::html::lemma_digits_none(d, i - off, 10);
            }
            return None;
        }
        let dd = (c as u32 - '0' as u32) as usize;
        proof {
            assert(crate::html::digit_value(c, 10) == Some(dd as nat));
        }
        if n > (usize::MAX - dd) / 10 {
            proof {
                assert(n * 10 + dd > usize::MAX) by (nonlinear_arith)
                    requires
                        n > (usize::MAX - dd) / 10,
                        dd <= 9,
                ;
                crate::html::lemma_digits_grow(d, i - off, 10, usize::MAX as nat);
            }
            return None;
        }
        proof {
            assert(n * 10 + dd <= usize::MAX) by (nonlinear_arith)
                requires
                    n <= (usize::MAX - dd) / 10,
                    dd <= 9,
            ;
        }
        n = n * 10 + dd;
        i = i + 1;
    }
    proof {
        assert(d.take(i - off) =~= d);
    }
    Some(n)
}

} // verus!

verus! {

impl Builder {
    /// A block method keeps the invariant, only grows the tables, and
    /// leaves the indent, gutter and tightness as it found them.
    pub open spec fn keeps(self, next: Builder) -> bool {
        &&& next.ok()
        &&& self.grows(next)
        &&& next.gutter@ == self.gutter@
        &&& next.indent == self.indent
        &&& next.tight == self.tight
    }

    /// Flushes a run of inline HTML content as a paragraph, unless it is
    /// blank.
    fn flush_html_inline(&mut self, inline: &mut Vec<Span>, range: &std::ops::Range<usize>, align: Option<Align>)
        requires
            old(self).ok(),
            links_ok(old(inline)@, old(self).doc.links@.len()),
        ensures
            old(self).keeps(*final(self)),
            final(inline)@.len() == 0,
    {
        let mut taken: Vec<Span> = Vec::new();
        std::mem::swap(&mut taken, inline);
        let spans = tidy(taken, Ghost(self.doc.links@.len()));
        if spans.len() == 0 {
            return ;
        }
        let mut block = Block::new(BlockKind::Para, range.start..range.end);
        block.spans = spans;
        block.align = align;
        self.push(block);
    }

    /// A run of HTML nodes: consecutive inline content grouped into
    /// paragraphs, block elements laid out as blocks. With `skip_summary`,
    /// `<summary>` elements are left out (a `<details>` shows its summary
    /// first).
    fn html_nodes(&mut self, theme: &Theme, nodes: &Vec<Node>, range: &std::ops::Range<usize>, align: Option<Align>, skip_summary: bool)
        requires
            old(self).ok(),
        ensures
            old(self).keeps(*final(self)),
        decreases nodes, 0int,
    {
        let mut inline: Vec<Span> = Vec::new();
        let mut i: usize = 0;
        while i < nodes.len()
            invariant
                i <= nodes@.len(),
                old(self).keeps(*self),
                links_ok(inline@, self.doc.links@.len()),
            decreases nodes.len() - i,
        {
            match &nodes[i] {
                Node::Element(element) => {
                    if skip_summary && str_eq(element.tag.as_str(), "summary") {
                    } else if is_html_block(element.tag.as_str()) {
                        self.flush_html_inline(&mut inline, range, align);
                        proof {
                            assert(decreases_to!(nodes => nodes@[i as int]));
                        }
                        self.html_block(theme, element, range, align);
                    } else {
                        let body = theme.body();
                        self.html_inline(theme, &nodes[i], body, None, &mut inline);
                    }
                },
                Node::Text(_) => {
                    let body = theme.body();
                    self.html_inline(theme, &nodes[i], body, None, &mut inline);
                },
            }
            i = i + 1;
        }
        self.flush_html_inline(&mut inline, range, align);
    }

    /// A picture on its own, as a figure block.
    fn html_image_block(&mut self, theme: &Theme, img: &Element, range: &std::ops::Range<usize>, align: Option<Align>)
        requires
            old(self).ok(),
        ensures
            old(self).keeps(*final(self)),
            final(self).doc.images@.drop_last() == old(self).doc.images@,
            final(self).doc.images@.last().url@ == attr_or_empty(*img, "src"@),
            final(self).doc.images@.last().alt@ == attr_or_empty(*img, "alt"@),
            final(self).doc.blocks@.drop_last() == old(self).doc.blocks@,
            ({
                let b = final(self).doc.blocks@.last();
                &&& b.kind == BlockKind::Image(ImageId(old(self).doc.images@.len() as usize))
                &&& b.source_range == *range
                &&& b.align == align
                &&& b.spans@.len() == 1
                &&& b.spans@[0].style == theme.dim
                &&& b.spans@[0].text@ == (if attr_or_empty(*img, "alt"@).len() == 0 {
                    attr_or_empty(*img, "src"@)
                } else {
                    attr_or_empty(*img, "alt"@)
                })
            }),
    {
        let url = match img.attr("src") {
            Some(u) => u,
            None => "",
        };
        let alt = match img.attr("alt") {
            Some(a) => a,
            None => "",
        };
        proof {
            reveal_strlit("");
            assert(url@ == attr_or_empty(*img, "src"@));
            assert(alt@ == attr_or_empty(*img, "alt"@));
        }
        let id = ImageId(self.doc.images.len());
        let ghost before = self.doc;
        self.doc.images.push(Image::new(url, alt));
        proof {
            lemma_doc_grows(before, self.doc);
        }
        let mut block = Block::new(BlockKind::Image(id), range.start..range.end);
        block.spans = vec![Span::new(if alt.is_empty() { url } else { alt }, theme.dim)];
        block.align = align;
        self.push(block);
    }

    /// The cells of one HTML table row, each trimmed and merged, and
    /// whether any is a header cell.
    fn html_row(&mut self, theme: &Theme, row: &Element) -> (r: (Vec<Vec<Span>>, bool))
        requires
            old(self).ok(),
        ensures
            old(self).keeps(*final(self)),
            final(self).doc.blocks@ == old(self).doc.blocks@,
            final(self).pending_prefix == old(self).pending_prefix,
            cells_ok(r.0@, final(self).doc.links@.len()),
            r.0@.len() == cell_count(row.children@),
            r.1 == exists|k: int| 0 <= k < row.children@.len() && is_header_cell(#[trigger] row.children@[k]),
    {
        let mut header = false;
        let mut cells: Vec<Vec<Span>> = Vec::new();
        let mut i: usize = 0;
        while i < row.children.len()
            invariant
                i <= row.children@.len(),
                old(self).keeps(*self),
                self.doc.blocks@ == old(self).doc.blocks@,
                self.pending_prefix == old(self).pending_prefix,
                cells_ok(cells@, self.doc.links@.len()),
                cells@.len() == cell_count(row.children@.take(i as int)),
                header == exists|k: int| 0 <= k < i && is_header_cell(#[trigger] row.children@[k]),
            decreases row.children.len() - i,
        {
            proof {
                assert(row.children@.take(i + 1).drop_last() =~= row.children@.take(i as int));
                assert(row.children@.take(i + 1).last() == row.children@[i as int]);
            }
            match &row.children[i] {
                Node::Element(cell) => {
                    let is_th = str_eq(cell.tag.as_str(), "th");
                    if is_th || str_eq(cell.tag.as_str(), "td") {
                        if is_th {
                            header = true;
                        }
                        let style = if is_th { theme.table_header } else { theme.body() };
                        let mut spans: Vec<Span> = Vec::new();
                        self.html_children(theme, cell, style, None, &mut spans);
                        let tidied = tidy(spans, Ghost(self.doc.links@.len()));
                        let ghost c0 = cells@;
                        cells.push(tidied);
                        proof {
                            assert forall|k: int| 0 <= k < cells@.len() implies links_ok((#[trigger] cells@[k])@, self.doc.links@.len()) by {
                                if k < c0.len() {
                                    assert(cells@[k] == c0[k]);
                                }
                            }
                        }
                    }
                },
                Node::Text(_) => {},
            }
            proof {
                assert forall|k: int| 0 <= k < cells@.len() implies links_ok((#[trigger] cells@[k])@, self.doc.links@.len()) by {}
            }
            i = i + 1;
        }
        proof {
            assert(row.children@.take(i as int) =~= row.children@);
        }
        (cells, header)
    }

    /// An HTML table: its header row (the first row with a header cell) and
    /// its body rows, every column left-aligned; nothing for a table with no
    /// cells.
    fn html_table(&mut self, theme: &Theme, element: &Element, range: &std::ops::Range<usize>)
        requires
            old(self).ok(),
        ensures
            old(self).keeps(*final(self)),
            ({
                let rs = table_rows(*element);
                if html_head_cells(rs) == 0 && html_body_rows(rs) == 0 {
                    final(self).doc.blocks@ == old(self).doc.blocks@
                } else {
                    let b = final(self).doc.blocks@.last();
                    &&& final(self).doc.blocks@.drop_last() == old(self).doc.blocks@
                    &&& b.kind == BlockKind::Table
                    &&& b.source_range == *range
                    &&& b.table matches Some(t) && t.head@.len() == html_head_cells(rs) && t.rows@.len() == html_body_rows(rs)
                }
            }),
    {
        let mut rows: Vec<&Element> = Vec::new();
        collect_rows(element, &mut rows);
        let ghost rs = table_rows(*element);
        proof {
            assert(elements_of(Seq::<&Element>::empty()) =~= Seq::<Element>::empty());
            assert(elements_of(rows@) =~= rs);
        }
        let mut table = Table { head: Vec::new(), rows: Vec::new(), align: Vec::new() };
        let mut r: usize = 0;
        while r < rows.len()
            invariant
                r <= rows@.len(),
                elements_of(rows@) == rs,
                rs == table_rows(*element),
                old(self).keeps(*self),
                self.doc.blocks@ == old(self).doc.blocks@,
                table.head@.len() == html_head_cells(rs.take(r as int)),
                table.rows@.len() == html_body_rows(rs.take(r as int)),
                forall|k: int| 0 <= k < table.rows@.len() ==> (#[trigger] table.rows@[k])@.len() > 0,
                cells_ok(table.head@, self.doc.links@.len()),
                forall|k: int| 0 <= k < table.rows@.len() ==> cells_ok((#[trigger] table.rows@[k])@, self.doc.links@.len()),
            decreases rows.len() - r,
        {
            let ghost n0 = self.doc.links@.len();
            proof {
                assert(rs[r as int] == *rows@[r as int]);
                assert(rs.take(r + 1).drop_last() =~= rs.take(r as int));
                assert(rs.take(r + 1).last() == rs[r as int]);
            }
            let ghost rows_before = table.rows@;
            let (cells, header) = self.html_row(theme, rows[r]);
            proof {
                assert forall|k: int| 0 <= k < table.head@.len() implies links_ok((#[trigger] table.head@[k])@, self.doc.links@.len()) by {
                    assert(links_ok(table.head@[k]@, n0));
                }
                assert forall|k: int| 0 <= k < table.rows@.len() implies cells_ok((#[trigger] table.rows@[k])@, self.doc.links@.len()) by {
                    let row = table.rows@[k]@;
                    assert(cells_ok(row, n0));
                    assert forall|j: int| 0 <= j < row.len() implies links_ok((#[trigger] row[j])@, self.doc.links@.len()) by {
                        assert(links_ok(row[j]@, n0));
                    }
                }
            }
            if cells.len() > 0 {
                if header && table.head.len() == 0 {
                    table.head = cells;
                } else {
                    let ghost r0 = table.rows@;
                    table.rows.push(cells);
                    proof {
                        assert forall|k: int| 0 <= k < table.rows@.len() implies cells_ok((#[trigger] table.rows@[k])@, self.doc.links@.len()) by {
                            if k < r0.len() {
                                assert(table.rows@[k] == r0[k]);
                            }
                        }
                    }
                }
            }
            proof {
                assert forall|k: int| 0 <= k < table.rows@.len() implies (#[trigger] table.rows@[k])@.len() > 0 by {
                    if k < rows_before.len() {
                        assert(table.rows@[k] == rows_before[k]);
                    }
                }
            }
            r = r + 1;
        }
        proof {
            assert(rs.take(r as int) =~= rs);
        }
        let mut columns = table.head.len();
        let mut k: usize = 0;
        while k < table.rows.len()
            invariant
                k <= table.rows@.len(),
                columns >= table.head@.len(),
                forall|j: int| 0 <= j < table.rows@.len() ==> (#[trigger] table.rows@[j])@.len() > 0,
                k > 0 ==> columns > 0,
                (table.head@.len() == 0 && table.rows@.len() == 0) ==> columns == 0,
                rs == table_rows(*element),
                table.head@.len() == html_head_cells(rs),
                table.rows@.len() == html_body_rows(rs),
                old(self).keeps(*self),
                self.doc.blocks@ == old(self).doc.blocks@,
            decreases table.rows.len() - k,
        {
            if table.rows[k].len() > columns {
                columns = table.rows[k].len();
            }
            k = k + 1;
        }
        if columns == 0 {
            return ;
        }
        let mut align: Vec<Align> = Vec::new();
        let mut c: usize = 0;
        while c < columns
            invariant
                c <= columns,
                rs == table_rows(*element),
                table.head@.len() == html_head_cells(rs),
                table.rows@.len() == html_body_rows(rs),
                old(self).keeps(*self),
                self.doc.blocks@ == old(self).doc.blocks@,
            decreases columns - c,
        {
            align.push(Align::Left);
            c = c + 1;
        }
        table.align = align;
        let mut block = Block::new(BlockKind::Table, range.start..range.end);
        block.table = Some(table);
        self.push(block);
    }
}

} // verus!

verus! {

/// `s` without its leading line feeds.
pub open spec fn lf_trimmed_start(s: Seq<char>) -> Seq<char>
    decreases s.len(),
{
    if s.len() > 0 && s[0] == '\n' { lf_trimmed_start(s.drop_first()) } else { s }
}

/// `s` without its trailing line feeds.
pub open spec fn lf_trimmed_end(s: Seq<char>) -> Seq<char>
    decreases s.len(),
{
    if s.len() > 0 && s.last() == '\n' { lf_trimmed_end(s.drop_last()) } else { s }
}

/// `s` without its leading and trailing line feeds.
fn trim_newlines(t: &str) -> (r: String)
    ensures
        r@ == lf_trimmed_end(lf_trimmed_start(t@)),
{
    let v = chars_of(t);
    let mut a: usize = 0;
    let mut b: usize = v.len();
    proof {
        assert(v@.subrange(0, b as int) =~= v@);
    }
    while a < b && v[a] == '\n'
        invariant
            a <= b == v@.len(),
            v@ == t@,
            lf_trimmed_start(t@) == lf_trimmed_start(v@.subrange(a as int, b as int)),
        decreases b - a,
    {
        proof {
            assert(v@.subrange(a as int, b as int).drop_first() =~= v@.subrange(a + 1, b as int));
        }
        a = a + 1;
    }
    proof {
        if a < b {
            assert(v@.subrange(a as int, b as int)[0] == v@[a as int]);
        }
        assert(lf_trimmed_start(t@) == v@.subrange(a as int, b as int));
    }
    let ghost n = b;
    while b > a && v[b - 1] == '\n'
        invariant
            a <= b <= n == v@.len(),
            lf_trimmed_end(lf_trimmed_start(t@)) == lf_trimmed_end(v@.subrange(a as int, b as int)),
        decreases b,
    {
        proof {
            assert(v@.subrange(a as int, b as int).drop_last() =~= v@.subrange(a as int, b - 1));
        }
        b = b - 1;
    }
    proof {
        if a < b {
            assert(v@.subrange(a as int, b as int).last() == v@[b - 1]);
        }
    }
    crate::text::string_of(&v, a, b)
}

/// Whether a text is blank once trimmed of whitespace.
fn is_blank(t: &str) -> (r: bool)
    ensures
        r == (crate::text::trim(t@).len() == 0),
{
    let v = chars_of(t);
    let (a, b) = crate::text::trim_range(&v, 0, v.len());
    proof {
        assert(v@.subrange(0, v@.len() as int) =~= v@);
    }
    a == b
}

impl Builder {
    /// A block-level HTML element: headings, rules, preformatted text,
    /// quotes, lists, tables, and `<details>` (its summary as a line of its
    /// own, then its contents); any other container is a figure when it
    /// holds a picture alone, and its contents otherwise.
    fn html_block(&mut self, theme: &Theme, element: &Element, range: &std::ops::Range<usize>, inherited: Option<Align>)
        requires
            old(self).ok(),
        ensures
            old(self).keeps(*final(self)),
            element.tag@ == "hr"@ ==> added_one(*old(self), *final(self))
                && final(self).doc.blocks@.last().kind == BlockKind::Rule
                && final(self).doc.blocks@.last().source_range == *range
                && final(self).doc.blocks@.last().spans@.len() == 1
                && final(self).doc.blocks@.last().spans@[0].text@ == "─"@
                && final(self).doc.blocks@.last().spans@[0].style == theme.rule,
            element.tag@ == "pre"@ ==> ({
                let lit = lf_trimmed_end(lf_trimmed_start(crate::html::nodes_text(crate::html::elem_v(*element).children)));
                if crate::text::trim(lit).len() == 0 {
                    final(self).doc.blocks@ == old(self).doc.blocks@
                } else {
                    &&& added_one(*old(self), *final(self))
                    &&& final(self).doc.blocks@.last().kind == (BlockKind::Code { lang: None })
                    &&& final(self).doc.blocks@.last().source_range == *range
                    &&& final(self).doc.blocks@.last().spans@.len() == 1
                    &&& final(self).doc.blocks@.last().spans@[0].text@ == lit
                }
            }),
            (element.tag@.len() == 2 && element.tag@[0] == 'h' && '1' <= element.tag@[1] <= '6') ==> (
                final(self).doc.blocks@ == old(self).doc.blocks@ || (added_one(*old(self), *final(self))
                    && final(self).doc.blocks@.last().kind == BlockKind::Heading((element.tag@[1] as u32 - 48) as u8)
                    && final(self).doc.blocks@.last().source_range == *range)),
        decreases element.children, 1int,
    {
        let align = match html_align(element) {
            Some(a) => Some(a),
            None => inherited,
        };
        let tag = element.tag.as_str();
        let tv = chars_of(tag);
        proof {
            reveal_strlit("hr");
            reveal_strlit("pre");
        }
        if tv.len() == 2 && tv[0] == 'h' && '1' <= tv[1] && tv[1] <= '6' {
            let level: u8 = (tv[1] as u32 - 48) as u8;
            let mut spans: Vec<Span> = Vec::new();
            let hs = theme.heading(level);
            self.html_children(theme, element, hs, None, &mut spans);
            let spans = tidy(spans, Ghost(self.doc.links@.len()));
            if spans.len() == 0 {
                return ;
            }
            let mut block = Block::new(BlockKind::Heading(level), range.start..range.end);
            block.spans = spans;
            block.align = align;
            self.push(block);
        } else if str_eq(tag, "hr") {
            let mut block = Block::new(BlockKind::Rule, range.start..range.end);
            block.spans = vec![Span::new("─", theme.rule)];
            self.push(block);
        } else if str_eq(tag, "pre") {
            let all = element.text();
            let literal = trim_newlines(all.as_str());
            if is_blank(literal.as_str()) {
                return ;
            }
            let mut block = Block::new(BlockKind::Code { lang: None }, range.start..range.end);
            block.spans = vec![Span::new(literal.as_str(), theme.body())];
            proof {
                assert(block.spans@.len() == 1);
                assert(block.spans@[0].text@ == literal@);
            }
            self.push(block);
        } else if str_eq(tag, "blockquote") {
            let ghost g0 = self.gutter@;
            self.gutter.push(Span::new("│ ", theme.quote_bar));
            proof {
                lemma_push_ok(g0, self.gutter@.last(), self.doc.links@.len());
                assert(self.gutter@ =~= g0.push(self.gutter@.last()));
            }
            self.html_nodes(theme, &element.children, range, align, false);
            self.gutter.pop();
            proof {
                assert(self.gutter@ =~= g0);
            }
        } else if str_eq(tag, "ul") || str_eq(tag, "ol") {
            let ordered = str_eq(tag, "ol");
            let mut ordinal: usize = match element.attr("start") {
                Some(t) => match parse_start(t) {
                    Some(n) => n,
                    None => 1,
                },
                None => 1,
            };
            let outer_tight = self.tight;
            self.tight = true;
            let mut i: usize = 0;
            while i < element.children.len()
                invariant
                    i <= element.children@.len(),
                    self.ok(),
                    old(self).grows(*self),
                    self.gutter@ == old(self).gutter@,
                    self.indent == old(self).indent,
                    self.tight,
                    outer_tight == old(self).tight,
                decreases element.children.len() - i,
            {
                match &element.children[i] {
                    Node::Element(child) => {
                        if str_eq(child.tag.as_str(), "li") {
                            let marker = if ordered {
                                let mut t = crate::text::decimal(ordinal);
                                push_str(&mut t, ". ");
                                ordinal = ordinal.saturating_add(1);
                                Span::new(t.as_str(), theme.list_marker)
                            } else {
                                Span::new("• ", theme.list_marker)
                            };
                            let mut p: Vec<Span> = Vec::new();
                            p.push(marker);
                            proof {
                                lemma_push_ok(Seq::<Span>::empty(), marker, self.doc.links@.len());
                                assert(p@ =~= Seq::<Span>::empty().push(marker));
                            }
                            self.pending_prefix = Some(p);
                            proof {
                                assert(decreases_to!(element.children => element.children@[i as int]));
                            }
                            self.html_nodes(theme, &child.children, range, align, false);
                            self.pending_prefix = None;
                        }
                    },
                    Node::Text(_) => {},
                }
                i = i + 1;
            }
            self.tight = outer_tight;
            self.pending_blank = true;
        } else if str_eq(tag, "li") {
            self.html_nodes(theme, &element.children, range, align, false);
        } else if str_eq(tag, "table") {
            self.html_table(theme, element, range);
        } else if str_eq(tag, "details") {
            let mut i: usize = 0;
            let mut done = false;
            while i < element.children.len() && !done
                invariant
                    i <= element.children@.len(),
                    old(self).keeps(*self),
                decreases element.children.len() - i,
            {
                match &element.children[i] {
                    Node::Element(summary) => {
                        if str_eq(summary.tag.as_str(), "summary") {
                            done = true;
                            let mut spans: Vec<Span> = Vec::new();
                            self.html_children(theme, summary, theme.strong, None, &mut spans);
                            let spans = tidy(spans, Ghost(self.doc.links@.len()));
                            if spans.len() > 0 {
                                let mut block = Block::new(BlockKind::Para, range.start..range.end);
                                block.spans = spans;
                                self.push(block);
                            }
                        }
                    },
                    Node::Text(_) => {},
                }
                i = i + 1;
            }
            self.html_nodes(theme, &element.children, range, align, true);
        } else {
            match sole_image(&element.children) {
                Some(img) => self.html_image_block(theme, img, range, align),
                None => self.html_nodes(theme, &element.children, range, align, false),
            }
        }
    }
}

} // verus!

verus! {

/// The first character of a string's text, if it has one.
pub open spec fn first_of_text(t: Seq<char>) -> Option<char> {
    if t.len() > 0 { Some(t[0]) } else { None }
}

/// The first character an inline node contributes: a text's or a code
/// span's own first character, otherwise the first one its children give.
pub open spec fn first_char_of(n: MdNode) -> Option<char>
    decreases n, 1int, 0int,
{
    match n.value {
        MdValue::Text(t) => first_of_text(t@),
        MdValue::Code(t) => first_of_text(t@),
        _ => first_char_from(n, 0),
    }
}

/// The first character the children of `n` from the `i`th on contribute.
pub open spec fn first_char_from(n: MdNode, i: int) -> Option<char>
    decreases n, 0int, n.children@.len() - i,
{
    if 0 <= i < n.children@.len() {
        proof {
            assert(decreases_to!(n => n.children@[i]));
        }
        match first_char_of(n.children@[i]) {
            Some(c) => Some(c),
            None => first_char_from(n, i + 1),
        }
    } else {
        None
    }
}

/// The plain text a node contributes on its own: text and code as they
/// are, each line break as a space.
pub open spec fn own_text(v: MdValue) -> Seq<char> {
    match v {
        MdValue::Text(t) => t@,
        MdValue::Code(t) => t@,
        MdValue::SoftBreak => seq![' '],
        MdValue::LineBreak => seq![' '],
        _ => Seq::empty(),
    }
}

/// The plain text of a node and its descendants, in order.
pub open spec fn text_of(n: MdNode) -> Seq<char>
    decreases n, 1int, 0int,
{
    own_text(n.value) + children_text(n, n.children@.len() as int)
}

/// The plain text of the first `k` children of `n`.
pub open spec fn children_text(n: MdNode, k: int) -> Seq<char>
    decreases n, 0int, k,
{
    if 0 < k <= n.children@.len() {
        proof {
            assert(decreases_to!(n => n.children@[k - 1]));
        }
        children_text(n, k - 1) + text_of(n.children@[k - 1])
    } else {
        Seq::empty()
    }
}

/// The first character any inline node will contribute.
pub fn first_char(node: &MdNode) -> (r: Option<char>)
    ensures
        r == first_char_of(*node),
    decreases node,
{
    match &node.value {
        MdValue::Text(t) => {
            let v = chars_of(t.as_str());
            if v.len() > 0 { Some(v[0]) } else { None }
        },
        MdValue::Code(t) => {
            let v = chars_of(t.as_str());
            if v.len() > 0 { Some(v[0]) } else { None }
        },
        _ => {
            proof {
                assert(first_char_of(*node) == first_char_from(*node, 0));
            }
            let mut i: usize = 0;
            while i < node.children.len()
                invariant
                    i <= node.children@.len(),
                    first_char_of(*node) == first_char_from(*node, i as int),
                decreases node.children.len() - i,
            {
                proof {
                    assert(decreases_to!(node => node.children@[i as int]));
                }
                let here = first_char(&node.children[i]);
                proof {
                    assert(first_char_from(*node, i as int) == match here {
                        Some(c) => Some(c),
                        None => first_char_from(*node, i + 1),
                    });
                }
                match here {
                    Some(c) => return Some(c),
                    None => {},
                }
                i = i + 1;
            }
            None
        },
    }
}

/// Appends the plain text of a node's descendants: text and code as they
/// are, each line break as a space.
fn walk_text(node: &MdNode, out: &mut String)
    ensures
        final(out)@ == old(out)@ + text_of(*node),
    decreases node,
{
    match &node.value {
        MdValue::Text(t) => push_str(out, t.as_str()),
        MdValue::Code(t) => push_str(out, t.as_str()),
        MdValue::SoftBreak => push_char(out, ' '),
        MdValue::LineBreak => push_char(out, ' '),
        _ => {},
    }
    proof {
        assert(out@ =~= old(out)@ + own_text(node.value));
    }
    let mut i: usize = 0;
    while i < node.children.len()
        invariant
            i <= node.children@.len(),
            out@ == old(out)@ + own_text(node.value) + children_text(*node, i as int),
        decreases node.children.len() - i,
    {
        proof {
            assert(decreases_to!(node => node.children@[i as int]));
        }
        walk_text(&node.children[i], out);
        proof {
            assert(out@ =~= old(out)@ + own_text(node.value) + children_text(*node, i + 1));
        }
        i = i + 1;
    }
    proof {
        assert(out@ =~= old(out)@ + text_of(*node));
    }
}

/// The plain text under a node: an image's alt text.
pub fn collect_text(node: &MdNode) -> (r: String)
    ensures
        r@ == children_text(*node, node.children@.len() as int),
{
    let mut out = String::new();
    let mut i: usize = 0;
    while i < node.children.len()
        invariant
            i <= node.children@.len(),
            out@ == children_text(*node, i as int),
        decreases node.children.len() - i,
    {
        walk_text(&node.children[i], &mut out);
        proof {
            assert(out@ =~= children_text(*node, i + 1));
        }
        i = i + 1;
    }
    out
}

/// Whether a character is two columns wide, which here means it belongs to
/// a script that does not separate words with spaces.
fn is_wide(c: char) -> bool {
    crate::width::WidthCalc::new(false).ch(c) == 2
}

/// The characters of `s` from `a` to `b`, as a string.
fn trimmed_str(t: &str) -> (r: String)
    ensures
        r@ == crate::text::trim(t@),
{
    let v = chars_of(t);
    let (a, b) = crate::text::trim_range(&v, 0, v.len());
    proof {
        assert(v@.subrange(0, v@.len() as int) =~= v@);
    }
    crate::text::string_of(&v, a, b)
}

/// The styles of the open tags patched one over the other, from plain.
pub open spec fn styles_patched(s: Seq<(String, Style)>) -> Style
    decreases s.len(),
{
    if s.len() == 0 {
        Style::plain_spec()
    } else {
        crate::ir::patched(styles_patched(s.drop_last()), s.last().1)
    }
}

impl Builder {
    /// The combined style of the inline HTML tags open.
    fn html_style(&self) -> (r: Style)
        ensures
            r == styles_patched(self.html_styles@),
    {
        let mut acc = Style::plain();
        let mut i: usize = 0;
        while i < self.html_styles.len()
            invariant
                i <= self.html_styles@.len(),
                acc == styles_patched(self.html_styles@.take(i as int)),
            decreases self.html_styles.len() - i,
        {
            proof {
                assert(self.html_styles@.take(i + 1).drop_last() =~= self.html_styles@.take(i as int));
            }
            acc = acc.patch(self.html_styles[i].1);
            i = i + 1;
        }
        proof {
            assert(self.html_styles@.take(i as int) =~= self.html_styles@);
        }
        acc
    }

    /// One inline HTML tag as the syntax tree hands it over: a close tag
    /// closes the innermost open tag of its name and those opened after it;
    /// `<br>` is a line break and `<img>` an image; a tag that is void or
    /// closes itself is dropped; any other is opened, with the style it
    /// stands for.
    fn html_tag(&mut self, theme: &Theme, raw: &str, style: Style, link: Option<LinkId>, out: &mut Vec<Span>)
        requires
            old(self).ok(),
            link_ok(link, old(self).doc.links@.len()),
            links_ok(old(out)@, old(self).doc.links@.len()),
        ensures
            final(self).ok(),
            old(self).grows(*final(self)),
            final(self).doc.blocks@ == old(self).doc.blocks@,
            final(self).gutter@ == old(self).gutter@,
            final(self).pending_prefix == old(self).pending_prefix,
            final(self).indent == old(self).indent,
            final(self).pending_blank == old(self).pending_blank,
            final(self).tight == old(self).tight,
            links_ok(final(out)@, final(self).doc.links@.len()),
            keeps_prefix(old(out)@, final(out)@),
    {
        let trimmed = trimmed_str(raw);
        let v = chars_of(trimmed.as_str());
        let n = v.len();
        if n >= 2 && v[0] == '<' && v[1] == '/' {
            let mut e = n;
            while e > 2 && v[e - 1] == '>'
                invariant
                    2 <= e <= n == v@.len(),
                decreases e,
            {
                e = e - 1;
            }
            let (a, b) = crate::text::trim_range(&v, 2, e);
            let name = crate::text::lower_string(&v, a, b);
            let mut k = self.html_styles.len();
            while k > 0
                invariant
                    k <= self.html_styles@.len(),
                    old(self).ok(),
                    links_ok(out@, self.doc.links@.len()),
                    self.doc == old(self).doc,
                    self.gutter == old(self).gutter,
                    self.pending_prefix == old(self).pending_prefix,
                    self.indent == old(self).indent,
                    self.pending_blank == old(self).pending_blank,
                    self.tight == old(self).tight,
                decreases k,
            {
                if str_eq(self.html_styles[k - 1].0.as_str(), name.as_str()) {
                    self.html_styles.truncate(k - 1);
                    return ;
                }
                k = k - 1;
            }
            return ;
        }
        if n >= usize::MAX {
            return ;
        }
        let nodes = crate::html::parse(trimmed.as_str());
        if nodes.len() == 0 {
            return ;
        }
        let element = match &nodes[0] {
            Node::Element(e) => e,
            Node::Text(_) => return ,
        };
        let tag = element.tag.as_str();
        if str_eq(tag, "br") {
            let sp = Span::new("\n", style);
            let ghost o = out@;
            out.push(sp);
            proof {
                lemma_push_ok(o, sp, self.doc.links@.len());
            }
        } else if str_eq(tag, "img") {
            self.html_img(theme, element, style, link, out);
        } else if (n >= 2 && v[n - 2] == '/' && v[n - 1] == '>') || crate::html::is_void(tag) {
        } else {
            let st = html_tag_style(theme, tag);
            self.html_styles.push((tag.to_owned(), st));
        }
    }

    /// The children of a node, inline.
    fn children_inline(&mut self, theme: &Theme, node: &MdNode, style: Style, link: Option<LinkId>, out: &mut Vec<Span>)
        requires
            old(self).ok(),
            link_ok(link, old(self).doc.links@.len()),
            links_ok(old(out)@, old(self).doc.links@.len()),
        ensures
            final(self).ok(),
            old(self).grows(*final(self)),
            final(self).doc.blocks@ == old(self).doc.blocks@,
            final(self).gutter@ == old(self).gutter@,
            final(self).pending_prefix == old(self).pending_prefix,
            final(self).indent == old(self).indent,
            final(self).pending_blank == old(self).pending_blank,
            final(self).tight == old(self).tight,
            links_ok(final(out)@, final(self).doc.links@.len()),
            keeps_prefix(old(out)@, final(out)@),
        decreases node, 0int,
    {
        let mut i: usize = 0;
        while i < node.children.len()
            invariant
                i <= node.children@.len(),
                self.ok(),
                old(self).grows(*self),
                self.doc.blocks@ == old(self).doc.blocks@,
                self.gutter@ == old(self).gutter@,
                self.pending_prefix == old(self).pending_prefix,
                self.indent == old(self).indent,
                self.pending_blank == old(self).pending_blank,
                self.tight == old(self).tight,
                link_ok(link, self.doc.links@.len()),
                links_ok(out@, self.doc.links@.len()),
                keeps_prefix(old(out)@, out@),
            decreases node.children.len() - i,
        {
            let next = if i + 1 < node.children.len() { Some(&node.children[i + 1]) } else { None };
            proof {
                assert(decreases_to!(node => node.children@[i as int]));
            }
            self.inline(theme, &node.children[i], next, style, link, out);
            i = i + 1;
        }
    }

    /// Pushes a span holding `text` in `style` pointing at `link`.
    fn emit(&self, out: &mut Vec<Span>, text: &str, style: Style, link: Option<LinkId>)
        requires
            link_ok(link, self.doc.links@.len()),
            links_ok(old(out)@, self.doc.links@.len()),
        ensures
            final(out)@.len() == old(out)@.len() + 1,
            final(out)@.drop_last() == old(out)@,
            final(out)@.last().text@ == text@,
            final(out)@.last().style == style,
            final(out)@.last().link == link,
            links_ok(final(out)@, self.doc.links@.len()),
            keeps_prefix(old(out)@, final(out)@),
    {
        let sp = Span::new(text, style).with_link(link);
        let ghost o = out@;
        out.push(sp);
        proof {
            lemma_push_ok(o, sp, self.doc.links@.len());
        }
    }

    /// One inline node: text in the style of the HTML tags open around it,
    /// code and math in the code style, emphasis and the like by patching
    /// the style, a link recorded in the link table with its text pointing
    /// at it (its address when it has no text), an image recorded and shown
    /// as its alt text, a soft break a space (none between two wide
    /// characters, a wrapping artefact of CJK source), a hard break a line
    /// feed.
    fn inline(&mut self, theme: &Theme, node: &MdNode, next: Option<&MdNode>, style: Style, link: Option<LinkId>, out: &mut Vec<Span>)
        requires
            old(self).ok(),
            link_ok(link, old(self).doc.links@.len()),
            links_ok(old(out)@, old(self).doc.links@.len()),
        ensures
            final(self).ok(),
            old(self).grows(*final(self)),
            final(self).doc.blocks@ == old(self).doc.blocks@,
            final(self).gutter@ == old(self).gutter@,
            final(self).pending_prefix == old(self).pending_prefix,
            final(self).indent == old(self).indent,
            final(self).pending_blank == old(self).pending_blank,
            final(self).tight == old(self).tight,
            links_ok(final(out)@, final(self).doc.links@.len()),
            keeps_prefix(old(out)@, final(out)@),
            node.value matches MdValue::Text(t) ==> one_more(old(out)@, final(out)@)
                && final(out)@.last().text@ == t@
                && final(out)@.last().style == crate::ir::patched(style, styles_patched(old(self).html_styles@))
                && final(out)@.last().link == link,
            node.value matches MdValue::Raw(t) ==> one_more(old(out)@, final(out)@)
                && final(out)@.last().text@ == t@ && final(out)@.last().style == style && final(out)@.last().link == link,
            node.value matches MdValue::Code(t) ==> one_more(old(out)@, final(out)@)
                && final(out)@.last().text@ == t@ && final(out)@.last().style == crate::ir::patched(style, theme.code)
                && final(out)@.last().link == link,
            node.value matches MdValue::Math(t) ==> one_more(old(out)@, final(out)@)
                && final(out)@.last().text@ == t@ && final(out)@.last().style == crate::ir::patched(style, theme.code)
                && final(out)@.last().link == link,
            node.value is LineBreak ==> one_more(old(out)@, final(out)@)
                && final(out)@.last().text@ == "\n"@ && final(out)@.last().style == style && final(out)@.last().link is None,
            node.value matches MdValue::FootnoteReference(name) ==> one_more(old(out)@, final(out)@)
                && final(out)@.last().text@ == "[^"@ + name@ + seq![']']
                && final(out)@.last().style == crate::ir::patched(style, theme.footnote)
                && final(out)@.last().link is None,
            node.value matches MdValue::Image(url) ==> one_more(old(out)@, final(out)@)
                && final(self).doc.images@.drop_last() == old(self).doc.images@
                && final(self).doc.images@.last().url@ == url@
                && final(self).doc.images@.last().alt@ == children_text(*node, node.children@.len() as int)
                && final(out)@.last().text@ == seq!['['] + (if children_text(*node, node.children@.len() as int).len() == 0 {
                    url@
                } else {
                    children_text(*node, node.children@.len() as int)
                }) + seq![']']
                && final(out)@.last().style == crate::ir::patched(style, theme.dim)
                && final(out)@.last().link is None,
            node.value is Superscript || node.value is Subscript ==> final(out)@.len() > old(out)@.len()
                && final(out)@[old(out)@.len() as int].text@ == (if node.value is Superscript { "^"@ } else { "_"@ })
                && final(out)@[old(out)@.len() as int].style == crate::ir::patched(style, theme.dim)
                && final(out)@[old(out)@.len() as int].link is None,
            node.value matches MdValue::Link { url, title } ==> final(out)@.len() > old(out)@.len()
                && final(self).doc.links@.len() > old(self).doc.links@.len()
                && final(self).doc.links@[old(self).doc.links@.len() as int].url@ == url@
                && final(self).doc.links@[old(self).doc.links@.len() as int].title@ == title@,
            node.value matches MdValue::WikiLink(url) ==> final(self).doc.links@.len() > old(self).doc.links@.len()
                && final(self).doc.links@[old(self).doc.links@.len() as int].url@ == url@,
        decreases node, 1int,
    {
        match &node.value {
            MdValue::Text(t) => {
                let st = style.patch(self.html_style());
                self.emit(out, t.as_str(), st, link);
            },
            MdValue::Raw(t) => self.emit(out, t.as_str(), style, link),
            MdValue::EscapedTag(t) => self.emit(out, t.as_str(), style, link),
            MdValue::Code(t) => self.emit(out, t.as_str(), style.patch(theme.code), link),
            MdValue::Math(t) => self.emit(out, t.as_str(), style.patch(theme.code), link),
            MdValue::HtmlInline(raw) => self.html_tag(theme, raw.as_str(), style, link, out),
            MdValue::SoftBreak => {
                let n = out.len();
                let before = if n > 0 {
                    let v = chars_of(out[n - 1].text.as_str());
                    if v.len() > 0 { Some(v[v.len() - 1]) } else { None }
                } else {
                    None
                };
                let after = match next {
                    Some(x) => first_char(x),
                    None => None,
                };
                let joined = match (before, after) {
                    (Some(a), Some(b)) => is_wide(a) && is_wide(b),
                    _ => false,
                };
                if !joined {
                    self.emit(out, " ", style, link);
                }
            },
            MdValue::LineBreak => self.emit(out, "\n", style, None),
            MdValue::Emph => self.children_inline(theme, node, style.patch(theme.emph), link, out),
            MdValue::Strong => self.children_inline(theme, node, style.patch(theme.strong), link, out),
            MdValue::Strikethrough => self.children_inline(theme, node, style.patch(theme.strikethrough), link, out),
            MdValue::Underline => self.children_inline(theme, node, style.patch(Style { underline: true, ..Style::plain() }), link, out),
            MdValue::SpoileredText => self.children_inline(theme, node, style.patch(Style { reverse: true, ..Style::plain() }), link, out),
            MdValue::Superscript => {
                self.emit(out, "^", style.patch(theme.dim), None);
                self.children_inline(theme, node, style, link, out);
            },
            MdValue::Subscript => {
                self.emit(out, "_", style.patch(theme.dim), None);
                self.children_inline(theme, node, style, link, out);
            },
            MdValue::Link { url, title } => {
                let id = LinkId(self.doc.links.len());
                let ghost before = self.doc;
                self.doc.links.push(Link { url: url.clone(), title: title.clone() });
                proof {
                    lemma_doc_grows(before, self.doc);
                }
                let label_style = style.patch(theme.link);
                let from = out.len();
                self.children_inline(theme, node, label_style, Some(id), out);
                if out.len() == from {
                    self.emit(out, url.as_str(), label_style, Some(id));
                }
            },
            MdValue::WikiLink(url) => {
                let id = LinkId(self.doc.links.len());
                let ghost before = self.doc;
                self.doc.links.push(Link { url: url.clone(), title: String::new() });
                proof {
                    lemma_doc_grows(before, self.doc);
                }
                self.children_inline(theme, node, style.patch(theme.link), Some(id), out);
            },
            MdValue::Image(url) => {
                let alt = collect_text(node);
                let ghost before = self.doc;
                self.doc.images.push(Image::new(url.as_str(), alt.as_str()));
                proof {
                    lemma_doc_grows(before, self.doc);
                }
                let label = if alt.as_str().is_empty() { bracketed(url.as_str()) } else { bracketed(alt.as_str()) };
                self.emit(out, label.as_str(), style.patch(theme.dim), None);
            },
            MdValue::FootnoteReference(name) => {
                let mut t = String::new();
                push_str(&mut t, "[^");
                push_str(&mut t, name.as_str());
                push_char(&mut t, ']');
                proof {
                    assert(t@ =~= "[^"@ + name@ + seq![']']);
                }
                self.emit(out, t.as_str(), style.patch(theme.footnote), None);
            },
            _ => self.children_inline(theme, node, style, link, out),
        }
    }

    /// A node's inline content as merged spans. Tags left open by one
    /// paragraph do not bleed into the next.
    fn inlines(&mut self, theme: &Theme, node: &MdNode, style: Style) -> (r: Vec<Span>)
        requires
            old(self).ok(),
        ensures
            final(self).ok(),
            old(self).grows(*final(self)),
            final(self).doc.blocks@ == old(self).doc.blocks@,
            final(self).gutter@ == old(self).gutter@,
            final(self).pending_prefix == old(self).pending_prefix,
            final(self).indent == old(self).indent,
            final(self).pending_blank == old(self).pending_blank,
            final(self).tight == old(self).tight,
            links_ok(r@, final(self).doc.links@.len()),
    {
        self.html_styles.clear();
        let mut out: Vec<Span> = Vec::new();
        self.children_inline(theme, node, style, None, &mut out);
        proof {
            lemma_links_v(out@, self.doc.links@.len());
            lemma_merged_links(spans_v(out@), self.doc.links@.len());
        }
        let r = merge_adjacent(out);
        proof {
            lemma_links_v(r@, self.doc.links@.len());
        }
        r
    }
}

} // verus!

verus! {

/// The 1-based, end-exclusive lines a node covers.
pub open spec fn range_of(node: MdNode) -> (int, int) {
    let start: int = if node.start_line >= 1 { node.start_line as int } else { 1 };
    let end: int = if node.end_line as int >= start { node.end_line as int } else { start };
    (start, end + 1)
}

fn node_range(node: &MdNode) -> (r: std::ops::Range<usize>)
    ensures
        r.start == range_of(*node).0,
        r.end == (if range_of(*node).1 <= usize::MAX { range_of(*node).1 } else { usize::MAX as int }),
{
    let start = if node.start_line >= 1 { node.start_line } else { 1 };
    let end = if node.end_line >= start { node.end_line } else { start };
    start..end.saturating_add(1)
}

/// Whether every span is blank.
fn all_blank(spans: &Vec<Span>) -> (r: bool)
    ensures
        r == forall|i: int| 0 <= i < spans@.len() ==> crate::text::trim((#[trigger] spans@[i]).text@).len() == 0,
{
    let mut i: usize = 0;
    while i < spans.len()
        invariant
            i <= spans@.len(),
            forall|k: int| 0 <= k < i ==> crate::text::trim((#[trigger] spans@[k]).text@).len() == 0,
        decreases spans.len() - i,
    {
        if !is_blank(spans[i].text.as_str()) {
            return false;
        }
        i = i + 1;
    }
    true
}

/// A single span, as a run.
fn one_span(text: &str, style: Style) -> (r: Vec<Span>)
    ensures
        r@.len() == 1,
        r@[0].text@ == text@,
        r@[0].style == style,
        forall|i: int| 0 <= i < r@.len() ==> (#[trigger] r@[i]).link is None,
{
    let mut v: Vec<Span> = Vec::new();
    v.push(Span::new(text, style));
    v
}

/// The leading run of `s` up to its first whitespace.
pub open spec fn leading_word(s: Seq<char>) -> Seq<char>
    decreases s.len(),
{
    if s.len() > 0 && !crate::text::is_ws(s[0]) {
        seq![s[0]] + leading_word(s.drop_first())
    } else {
        Seq::empty()
    }
}

/// A code fence's language: the first word of its info string, if any.
pub open spec fn fence_lang(info: Seq<char>) -> Option<Seq<char>> {
    let w = leading_word(crate::text::trim_start(info));
    if w.len() == 0 { None } else { Some(w) }
}

/// The language of a code block: the first word of its info string.
fn info_lang(info: &str) -> (r: Option<String>)
    ensures
        match r {
            Some(s) => fence_lang(info@) == Some(s@),
            None => fence_lang(info@) is None,
        },
{
    let v = chars_of(info);
    let n = v.len();
    let mut a: usize = 0;
    proof {
        assert(v@.subrange(0, n as int) =~= v@);
    }
    while a < n && is_whitespace(v[a])
        invariant
            a <= n == v@.len(),
            v@ == info@,
            crate::text::trim_start(v@) == crate::text::trim_start(v@.subrange(a as int, n as int)),
        decreases n - a,
    {
        proof {
            assert(v@.subrange(a as int, n as int).drop_first() =~= v@.subrange(a + 1, n as int));
        }
        a = a + 1;
    }
    proof {
        if a < n {
            assert(v@.subrange(a as int, n as int)[0] == v@[a as int]);
        }
        assert(crate::text::trim_start(v@) == v@.subrange(a as int, n as int));
        assert(v@.subrange(a as int, a as int) =~= Seq::<char>::empty());
    }
    let mut b = a;
    while b < n && !is_whitespace(v[b])
        invariant
            a <= b <= n == v@.len(),
            leading_word(v@.subrange(a as int, n as int)) == v@.subrange(a as int, b as int) + leading_word(v@.subrange(b as int, n as int)),
        decreases n - b,
    {
        proof {
            let rest = v@.subrange(b as int, n as int);
            assert(rest[0] == v@[b as int]);
            assert(rest.drop_first() =~= v@.subrange(b + 1, n as int));
            assert(v@.subrange(a as int, b + 1) =~= v@.subrange(a as int, b as int) + seq![v@[b as int]]);
        }
        b = b + 1;
    }
    proof {
        if b < n {
            assert(v@.subrange(b as int, n as int)[0] == v@[b as int]);
        }
        assert(leading_word(v@.subrange(b as int, n as int)) =~= Seq::<char>::empty());
        assert(leading_word(v@.subrange(a as int, n as int)) =~= v@.subrange(a as int, b as int));
    }
    if a == b {
        None
    } else {
        Some(crate::text::string_of(&v, a, b))
    }
}

impl Builder {
    /// The marker of a list item: a checkbox for a task, the next number for
    /// an ordered list, a bullet otherwise.
    fn item_marker(&self, theme: &Theme, item: &MdNode, ordered: bool, ordinal: &mut usize) -> (r: Vec<Span>)
        ensures
            r@.len() == 1,
            forall|i: int| 0 <= i < r@.len() ==> (#[trigger] r@[i]).link is None,
            match item.value {
                MdValue::TaskItem(checked) => {
                    &&& r@[0].text@ == (if checked { "[x] "@ } else { "[ ] "@ })
                    &&& r@[0].style == (if checked { theme.task_done } else { theme.task_todo })
                    &&& *final(ordinal) == *old(ordinal)
                },
                _ => if ordered {
                    &&& r@[0].text@ == crate::text::dec(*old(ordinal) as nat) + ". "@
                    &&& r@[0].style == theme.list_marker
                    &&& *final(ordinal) == (if *old(ordinal) < usize::MAX { (*old(ordinal) + 1) as usize } else { *old(ordinal) })
                } else {
                    &&& r@[0].text@ == "• "@
                    &&& r@[0].style == theme.list_marker
                    &&& *final(ordinal) == *old(ordinal)
                },
            },
    {
        match &item.value {
            MdValue::TaskItem(checked) => {
                if *checked {
                    return one_span("[x] ", theme.task_done);
                } else {
                    return one_span("[ ] ", theme.task_todo);
                }
            },
            _ => {},
        }
        if ordered {
            let mut t = crate::text::decimal(*ordinal);
            push_str(&mut t, ". ");
            *ordinal = ordinal.saturating_add(1);
            one_span(t.as_str(), theme.list_marker)
        } else {
            one_span("• ", theme.list_marker)
        }
    }

    /// A table: its header row and body rows, each cell's inline content.
    fn table(&mut self, theme: &Theme, node: &MdNode, align: &Vec<Align>, range: std::ops::Range<usize>)
        requires
            old(self).ok(),
        ensures
            old(self).keeps(*final(self)),
            final(self).doc.blocks@.drop_last() == old(self).doc.blocks@,
            final(self).doc.blocks@.len() == old(self).doc.blocks@.len() + 1,
            ({
                let b = final(self).doc.blocks@.last();
                &&& b.kind == BlockKind::Table
                &&& b.source_range == range
                &&& b.table matches Some(t) && t.rows@.len() == body_rows(node.children@)
                    && t.head@.len() == head_cells(node.children@)
                    && forall|k: int| 0 <= k < t.rows@.len() ==> (#[trigger] t.rows@[k])@.len() == body_row_cells(node.children@, k)
            }),
    {
        let mut table = Table { head: Vec::new(), rows: Vec::new(), align: align.clone() };
        let mut r: usize = 0;
        while r < node.children.len()
            invariant
                r <= node.children@.len(),
                old(self).keeps(*self),
                self.doc.blocks@ == old(self).doc.blocks@,
                table.rows@.len() == body_rows(node.children@.take(r as int)),
                table.head@.len() == head_cells(node.children@.take(r as int)),
                forall|k: int| 0 <= k < table.rows@.len() ==> (#[trigger] table.rows@[k])@.len()
                    == body_row_cells(node.children@.take(r as int), k),
                cells_ok(table.head@, self.doc.links@.len()),
                forall|k: int| 0 <= k < table.rows@.len() ==> cells_ok((#[trigger] table.rows@[k])@, self.doc.links@.len()),
            decreases node.children.len() - r,
        {
            let row = &node.children[r];
            let header = match row.value {
                MdValue::TableRow(h) => h,
                _ => false,
            };
            let style = if header { theme.table_header } else { theme.body() };
            proof {
                assert(node.children@.take(r + 1).drop_last() =~= node.children@.take(r as int));
                assert(node.children@.take(r + 1).last() == *row);
            }
            let ghost rows_before = table.rows@;
            let mut cells: Vec<Vec<Span>> = Vec::new();
            let mut c: usize = 0;
            while c < row.children.len()
                invariant
                    c <= row.children@.len(),
                    cells@.len() == c,
                    old(self).keeps(*self),
                    self.doc.blocks@ == old(self).doc.blocks@,
                    cells_ok(cells@, self.doc.links@.len()),
                    cells_ok(table.head@, self.doc.links@.len()),
                    forall|k: int| 0 <= k < table.rows@.len() ==> cells_ok((#[trigger] table.rows@[k])@, self.doc.links@.len()),
                decreases row.children.len() - c,
            {
                let ghost n0 = self.doc.links@.len();
                let spans = self.inlines(theme, &row.children[c], style);
                proof {
                    assert forall|k: int| 0 <= k < cells@.len() implies links_ok((#[trigger] cells@[k])@, self.doc.links@.len()) by {
                        assert(links_ok(cells@[k]@, n0));
                    }
                    assert forall|k: int| 0 <= k < table.head@.len() implies links_ok((#[trigger] table.head@[k])@, self.doc.links@.len()) by {
                        assert(links_ok(table.head@[k]@, n0));
                    }
                    assert forall|k: int| 0 <= k < table.rows@.len() implies cells_ok((#[trigger] table.rows@[k])@, self.doc.links@.len()) by {
                        let rw = table.rows@[k]@;
                        assert(cells_ok(rw, n0));
                        assert forall|j: int| 0 <= j < rw.len() implies links_ok((#[trigger] rw[j])@, self.doc.links@.len()) by {
                            assert(links_ok(rw[j]@, n0));
                        }
                    }
                }
                let ghost c0 = cells@;
                cells.push(spans);
                proof {
                    assert forall|k: int| 0 <= k < cells@.len() implies links_ok((#[trigger] cells@[k])@, self.doc.links@.len()) by {
                        if k < c0.len() {
                            assert(cells@[k] == c0[k]);
                        }
                    }
                }
                c = c + 1;
            }
            if header {
                table.head = cells;
            } else {
                let ghost r0 = table.rows@;
                table.rows.push(cells);
                proof {
                    assert forall|k: int| 0 <= k < table.rows@.len() implies cells_ok((#[trigger] table.rows@[k])@, self.doc.links@.len()) by {
                        if k < r0.len() {
                            assert(table.rows@[k] == r0[k]);
                        }
                    }
                }
            }
            proof {
                let t1 = node.children@.take(r + 1);
                assert forall|k: int| 0 <= k < table.rows@.len() implies (#[trigger] table.rows@[k])@.len()
                    == body_row_cells(t1, k) by {
                    if k < rows_before.len() {
                        assert(table.rows@[k] == rows_before[k]);
                    }
                }
            }
            r = r + 1;
        }
        proof {
            assert(node.children@.take(r as int) =~= node.children@);
        }
        let mut block = Block::new(BlockKind::Table, range);
        block.table = Some(table);
        self.push(block);
    }

    /// The children of a node, as blocks.
    fn blocks(&mut self, theme: &Theme, node: &MdNode)
        requires
            old(self).ok(),
        ensures
            old(self).keeps(*final(self)),
            forall|k: int| 0 <= k < node.children@.len() ==> leaves_block(final(self).doc.blocks@, #[trigger] node.children@[k]),
        decreases node, 0int,
    {
        let mut i: usize = 0;
        while i < node.children.len()
            invariant
                i <= node.children@.len(),
                old(self).keeps(*self),
                forall|k: int| 0 <= k < i ==> leaves_block(self.doc.blocks@, #[trigger] node.children@[k]),
            decreases node.children.len() - i,
        {
            proof {
                assert(decreases_to!(node => node.children@[i as int]));
            }
            let ghost before = self.doc.blocks@;
            self.block(theme, &node.children[i]);
            proof {
                let now = self.doc.blocks@;
                assert forall|k: int| 0 <= k < i + 1 implies leaves_block(now, #[trigger] node.children@[k]) by {
                    if k < i {
                        lemma_leaves_kept(before, now, node.children@[k]);
                    } else {
                        let last = now.len() - 1;
                        assert(now[last] == now.last());
                    }
                }
            }
            i = i + 1;
        }
    }

    /// A list item: its first block carries the marker, and the ones after
    /// it line up under the item's text.
    fn item(&mut self, theme: &Theme, node: &MdNode)
        requires
            old(self).ok(),
        ensures
            old(self).keeps(*final(self)),
        decreases node, 0int,
    {
        let outer = self.indent;
        let mut i: usize = 0;
        while i < node.children.len()
            invariant
                i <= node.children@.len(),
                outer == old(self).indent,
                self.ok(),
                old(self).grows(*self),
                self.gutter@ == old(self).gutter@,
                self.tight == old(self).tight,
            decreases node.children.len() - i,
        {
            if i > 0 {
                self.indent = outer.saturating_add(2);
            }
            proof {
                assert(decreases_to!(node => node.children@[i as int]));
            }
            self.block(theme, &node.children[i]);
            i = i + 1;
        }
        self.indent = outer;
    }
}

} // verus!

verus! {

proof fn lemma_no_links(s: Seq<Span>, n: nat)
    requires
        forall|i: int| 0 <= i < s.len() ==> (#[trigger] s[i]).link is None,
    ensures
        links_ok(s, n),
{
}

impl Builder {
    /// Pushes a block of one kind holding `spans`.
    fn push_spans(&mut self, kind: BlockKind, range: std::ops::Range<usize>, spans: Vec<Span>)
        requires
            old(self).ok(),
            links_ok(spans@, old(self).doc.links@.len()),
            !(kind is Image),
        ensures
            old(self).keeps(*final(self)),
            final(self).doc.blocks@.len() == old(self).doc.blocks@.len() + 1,
            final(self).doc.blocks@.drop_last() == old(self).doc.blocks@,
            final(self).doc.blocks@.last().kind == kind,
            final(self).doc.blocks@.last().source_range == range,
            final(self).doc.blocks@.last().spans@ == spans@,
    {
        let mut block = Block::new(kind, range);
        block.spans = spans;
        self.push(block);
    }

    /// Pushes a gutter span drawn down the next blocks.
    fn open_gutter(&mut self, bar: Span)
        requires
            old(self).ok(),
            bar.link is None,
        ensures
            final(self).ok(),
            final(self).doc == old(self).doc,
            final(self).gutter@ == old(self).gutter@.push(bar),
            final(self).indent == old(self).indent,
            final(self).tight == old(self).tight,
    {
        let ghost g0 = self.gutter@;
        self.gutter.push(bar);
        proof {
            lemma_push_ok(g0, bar, self.doc.links@.len());
        }
    }

    /// One node of the syntax tree as blocks: front matter as dim code, a
    /// paragraph (a figure when it holds an image alone, nothing when it
    /// held only HTML tags), headings, rules, code (highlighted when its
    /// language is known), HTML (interpreted, or shown as source when
    /// nothing in it can be), quotes and alerts (behind a bar), lists (each
    /// item behind its marker), description lists, tables and footnotes;
    /// anything else is shown as a paragraph of its inline content.
    fn block(&mut self, theme: &Theme, node: &MdNode)
        requires
            old(self).ok(),
        ensures
            old(self).keeps(*final(self)),
            node.value matches MdValue::Heading(level) ==> added_one(*old(self), *final(self))
                && final(self).doc.blocks@.last().kind == BlockKind::Heading(level)
                && range_from(final(self).doc.blocks@.last().source_range, *node),
            node.value is ThematicBreak ==> added_one(*old(self), *final(self))
                && final(self).doc.blocks@.last().kind == BlockKind::Rule
                && range_from(final(self).doc.blocks@.last().source_range, *node)
                && final(self).doc.blocks@.last().spans@.len() == 1
                && final(self).doc.blocks@.last().spans@[0].text@ == "─"@
                && final(self).doc.blocks@.last().spans@[0].style == theme.rule,
            node.value matches MdValue::CodeBlock { info, literal } ==> added_one(*old(self), *final(self))
                && (final(self).doc.blocks@.last().kind matches BlockKind::Code { lang }
                    && opt_chars(lang) == fence_lang(info@))
                && range_from(final(self).doc.blocks@.last().source_range, *node),
            node.value is FrontMatter ==> added_one(*old(self), *final(self))
                && final(self).doc.blocks@.last().kind == (BlockKind::Code { lang: None })
                && range_from(final(self).doc.blocks@.last().source_range, *node),
            node.value is Table ==> added_one(*old(self), *final(self))
                && final(self).doc.blocks@.last().kind == BlockKind::Table
                && range_from(final(self).doc.blocks@.last().source_range, *node),
            node.value is DescriptionTerm ==> added_one(*old(self), *final(self))
                && final(self).doc.blocks@.last().kind == BlockKind::Para
                && range_from(final(self).doc.blocks@.last().source_range, *node),
            node.value is Paragraph && node.children@.len() == 1 && node.children@[0].value is Image
                ==> added_one(*old(self), *final(self))
                && (final(self).doc.blocks@.last().kind matches BlockKind::Image(id) && id.0 == old(self).doc.images@.len())
                && range_from(final(self).doc.blocks@.last().source_range, *node)
                && final(self).doc.images@.len() == old(self).doc.images@.len() + 1
                && (node.children@[0].value matches MdValue::Image(url) && final(self).doc.images@.last().url@ == url@),
            node.value is Paragraph && !(node.children@.len() == 1 && node.children@[0].value is Image)
                ==> final(self).doc.blocks@ == old(self).doc.blocks@ || (added_one(*old(self), *final(self))
                && final(self).doc.blocks@.last().kind == BlockKind::Para
                && range_from(final(self).doc.blocks@.last().source_range, *node)),
        decreases node, 1int,
    {
        let range = node_range(node);
        match &node.value {
            MdValue::Document => self.blocks(theme, node),
            MdValue::FrontMatter(text) => {
                let v = chars_of(text.as_str());
                let e = crate::text::trim_end_range(&v, 0, v.len());
                let t = crate::text::string_of(&v, 0, e);
                let spans = one_span(t.as_str(), theme.dim);
                proof {
                    lemma_no_links(spans@, self.doc.links@.len());
                }
                self.push_spans(BlockKind::Code { lang: None }, range, spans);
            },
            MdValue::Paragraph => {
                if node.children.len() == 1 {
                    match &node.children[0].value {
                        MdValue::Image(url) => {
                            let alt = collect_text(&node.children[0]);
                            let id = ImageId(self.doc.images.len());
                            let ghost before = self.doc;
                            self.doc.images.push(Image::new(url.as_str(), alt.as_str()));
                            proof {
                                lemma_doc_grows(before, self.doc);
                            }
                            let mut block = Block::new(BlockKind::Image(id), range);
                            block.spans = if alt.as_str().is_empty() { one_span(url.as_str(), theme.dim) } else { one_span(alt.as_str(), theme.dim) };
                            proof {
                                lemma_no_links(block.spans@, self.doc.links@.len());
                            }
                            self.push(block);
                            return ;
                        },
                        _ => {},
                    }
                }
                let spans = self.inlines(theme, node, theme.body());
                if all_blank(&spans) {
                    return ;
                }
                self.push_spans(BlockKind::Para, range, spans);
            },
            MdValue::Heading(level) => {
                let style = theme.heading(*level);
                let spans = self.inlines(theme, node, style);
                self.push_spans(BlockKind::Heading(*level), range, spans);
            },
            MdValue::ThematicBreak => {
                let spans = one_span("─", theme.rule);
                proof {
                    lemma_no_links(spans@, self.doc.links@.len());
                }
                self.push_spans(BlockKind::Rule, range, spans);
            },
            MdValue::CodeBlock { info, literal } => {
                let lang = info_lang(info.as_str());
                let v = chars_of(literal.as_str());
                let mut e = v.len();
                while e > 0 && v[e - 1] == '\n'
                    invariant
                        e <= v@.len(),
                    decreases e,
                {
                    e = e - 1;
                }
                let code = crate::text::string_of(&v, 0, e);
                let highlighted = match &lang {
                    Some(l) => crate::highlight::highlight(code.as_str(), l.as_str(), theme.syntect_theme.as_str(), theme.body()),
                    None => None,
                };
                let spans = match highlighted {
                    Some(h) => h,
                    None => one_span(code.as_str(), theme.body()),
                };
                proof {
                    lemma_no_links(spans@, self.doc.links@.len());
                }
                self.push_spans(BlockKind::Code { lang }, range, spans);
            },
            MdValue::HtmlBlock(html) => {
                let v = chars_of(html.as_str());
                let before = self.doc.blocks.len();
                if v.len() < usize::MAX {
                    let nodes = crate::html::parse(html.as_str());
                    self.html_nodes(theme, &nodes, &range, None, false);
                }
                if self.doc.blocks.len() == before {
                    let mut e = v.len();
                    while e > 0 && v[e - 1] == '\n'
                        invariant
                            e <= v@.len(),
                        decreases e,
                    {
                        e = e - 1;
                    }
                    let lit = crate::text::string_of(&v, 0, e);
                    if !is_blank(lit.as_str()) {
                        let spans = one_span(lit.as_str(), theme.dim);
                        proof {
                            lemma_no_links(spans@, self.doc.links@.len());
                        }
                        self.push_spans(BlockKind::Code { lang: Some("html".to_owned()) }, range, spans);
                    }
                }
            },
            MdValue::BlockQuote | MdValue::MultilineBlockQuote => {
                self.open_gutter(Span::new("│ ", theme.quote_bar));
                self.blocks(theme, node);
                self.gutter.pop();
                self.pending_blank = true;
                proof {
                    assert(self.gutter@ =~= old(self).gutter@);
                }
            },
            MdValue::Alert { kind, title } => {
                let style = alert_style(theme, *kind);
                let label = match title {
                    Some(t) => t.clone(),
                    None => alert_label(*kind).to_owned(),
                };
                self.open_gutter(Span::new("▌ ", style));
                let spans = one_span(label.as_str(), style);
                proof {
                    lemma_no_links(spans@, self.doc.links@.len());
                }
                let ghost g1 = self.gutter@;
                self.push_spans(BlockKind::Para, range, spans);
                self.pending_blank = false;
                self.blocks(theme, node);
                self.gutter.pop();
                self.pending_blank = true;
                proof {
                    assert(self.gutter@ =~= old(self).gutter@);
                }
            },
            MdValue::List { ordered, start, tight } => {
                let outer_tight = self.tight;
                self.tight = *tight;
                let mut ordinal = *start;
                let mut i: usize = 0;
                while i < node.children.len()
                    invariant
                        i <= node.children@.len(),
                        self.ok(),
                        old(self).grows(*self),
                        self.gutter@ == old(self).gutter@,
                        self.indent == old(self).indent,
                        self.tight == *tight,
                        outer_tight == old(self).tight,
                    decreases node.children.len() - i,
                {
                    if i > 0 {
                        self.pending_blank = !*tight;
                    }
                    let marker = self.item_marker(theme, &node.children[i], *ordered, &mut ordinal);
                    proof {
                        lemma_no_links(marker@, self.doc.links@.len());
                    }
                    self.pending_prefix = Some(marker);
                    let outer_indent = self.indent;
                    proof {
                        assert(decreases_to!(node => node.children@[i as int]));
                    }
                    self.item(theme, &node.children[i]);
                    self.indent = outer_indent;
                    i = i + 1;
                }
                self.tight = outer_tight;
                self.pending_blank = true;
            },
            MdValue::Item | MdValue::TaskItem(_) => self.item(theme, node),
            MdValue::DescriptionList | MdValue::DescriptionItem => self.blocks(theme, node),
            MdValue::DescriptionTerm => {
                let spans = self.inlines(theme, node, theme.strong);
                self.push_spans(BlockKind::Para, range, spans);
            },
            MdValue::DescriptionDetails => {
                let outer = self.indent;
                self.indent = outer.saturating_add(2);
                self.blocks(theme, node);
                self.indent = outer;
            },
            MdValue::Table(align) => self.table(theme, node, align, range),
            MdValue::FootnoteDefinition(name) => {
                let mut t = String::new();
                push_str(&mut t, "[^");
                push_str(&mut t, name.as_str());
                push_str(&mut t, "] ");
                let marker = one_span(t.as_str(), theme.footnote);
                proof {
                    lemma_no_links(marker@, self.doc.links@.len());
                }
                self.pending_prefix = Some(marker);
                self.blocks(theme, node);
            },
            _ => {
                let spans = self.inlines(theme, node, theme.body());
                if !all_blank(&spans) {
                    self.push_spans(BlockKind::Para, range, spans);
                }
            },
        }
    }
}

/// A Markdown file's syntax tree as a document: its blocks, the links and
/// images they point into, and its source lines (tabs expanded) for yanks.
/// Every link a span points to and every image a block shows is in the
/// document's tables, and the source lines are the file's lines with their
/// tabs expanded.
pub fn build(root: &MdNode, source: &str, theme: &Theme) -> (r: Document)
    ensures
        doc_ok(r),
        forall|k: int| 0 <= k < root.children@.len() ==> leaves_block(r.blocks@, #[trigger] root.children@[k]),
        r.source_lines@.len() == crate::text::lines_of(source@).len(),
        forall|k: int| 0 <= k < r.source_lines@.len() ==>
            (#[trigger] r.source_lines@[k])@ == crate::width::expanded(crate::text::lines_of(source@)[k], 0),
{
    let v = chars_of(source);
    let ranges = crate::text::line_ranges(&v);
    let mut lines: Vec<String> = Vec::new();
    let mut i: usize = 0;
    while i < ranges.len()
        invariant
            i <= ranges@.len(),
            v@ == source@,
            ranges@.len() == crate::text::lines_of(v@).len(),
            forall|k: int| 0 <= k < ranges@.len() ==> (#[trigger] ranges@[k]).0 <= ranges@[k].1 <= v@.len()
                && v@.subrange(ranges@[k].0 as int, ranges@[k].1 as int) == crate::text::lines_of(v@)[k],
            lines@.len() == i,
            forall|k: int| 0 <= k < i ==>
                (#[trigger] lines@[k])@ == crate::width::expanded(crate::text::lines_of(v@)[k], 0),
        decreases ranges.len() - i,
    {
        let raw = crate::text::string_of(&v, ranges[i].0, ranges[i].1);
        lines.push(crate::width::expand_tabs(raw.as_str()));
        i = i + 1;
    }
    let mut b = Builder {
        doc: Document { blocks: Vec::new(), links: Vec::new(), images: Vec::new(), source_lines: lines },
        indent: 0,
        gutter: Vec::new(),
        pending_prefix: None,
        pending_blank: false,
        tight: false,
        html_styles: Vec::new(),
    };
    b.blocks(theme, root);
    b.doc
}

} // verus!
