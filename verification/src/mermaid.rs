//! Mermaid diagrams, drawn with box-drawing characters.
//!
//! Supports `flowchart` / `graph` and `sequenceDiagram`. Anything else, and
//! anything using a construct this does not model such as `subgraph`, is
//! declined (`None`), and the caller falls back to showing the source.
//! Declining is always better than drawing something subtly wrong.
//!
//! Everything is composed onto a grid of display columns, not characters, so a
//! CJK node label reserves the two columns it actually occupies.

use vstd::prelude::*;
use crate::text::{
    chars_of, ends_with, find_char, find_first, has_at, index_of, is_whitespace, is_ws, lemma_find_first,
    lemma_find_first_unique, line_ranges, lines_of, lit, starts_with, string_of, trim, trim_end,
    trim_end_range, trim_range, trim_start, trim_start_range,
};
use crate::width::WidthCalc;
pub use crate::layered::ranks;

verus! {

#[derive(Debug, Clone, Copy, PartialEq, Eq, Structural)]
pub enum Direction {
    TopDown,
    LeftRight,
}

#[derive(Debug, Clone, Copy, PartialEq, Eq, Structural)]
pub enum Shape {
    Rect,
    Round,
    Diamond,
    Stadium,
}

#[derive(Debug, Clone)]
pub struct Node {
    pub id: String,
    pub label: String,
    pub shape: Shape,
}

#[derive(Debug, Clone)]
pub struct Edge {
    pub from: usize,
    pub to: usize,
    pub label: Option<String>,
    pub dotted: bool,
}

#[derive(Debug, Clone)]
pub struct Flowchart {
    pub direction: Direction,
    pub nodes: Vec<Node>,
    pub edges: Vec<Edge>,
    /// `RL` and `BT`, whose edges were turned round to lay the chart out. The
    /// arrowheads have to be put back on the end the document asked for.
    pub reversed: bool,
}

impl Flowchart {
    /// Every edge joins two of the chart's nodes.
    pub open spec fn wf(&self) -> bool {
        forall|i: int|
            0 <= i < self.edges@.len() ==> (#[trigger] self.edges@[i]).from < self.nodes@.len()
                && self.edges@[i].to < self.nodes@.len()
    }
}

/// Whether `s` opens with `word` as a whole word.
pub open spec fn is_keyword(s: Seq<char>, word: Seq<char>) -> bool {
    starts_with(s, word) && (s.len() == word.len() || is_ws(s[word.len() as int]))
}

/// Whether a statement opens with `word` as a word, rather than merely
/// beginning with those letters: `endpoint[X] --> B` is a node called
/// `endpoint`, not the `end` of a subgraph.
pub fn keyword(v: &Vec<char>, lo: usize, hi: usize, word: &str) -> (r: bool)
    requires
        lo <= hi <= v@.len(),
    ensures
        r == is_keyword(v@.subrange(lo as int, hi as int), word@),
{
    let w = lit(word);
    if !has_at(v, lo, hi, &w) {
        return false;
    }
    let n = w.len();
    proof {
        assert(v@.subrange(lo as int, hi as int).len() == hi - lo);
    }
    if lo + n == hi {
        return true;
    }
    proof {
        assert(v@.subrange(lo as int, hi as int)[n as int] == v@[lo + n]);
    }
    is_whitespace(v[lo + n])
}

/// One step of statement splitting: the pieces of `s` from position `i` on,
/// given where the current piece started, how many brackets have opened and
/// closed outside quotes, and whether a quote is open.
pub open spec fn scan_statements(
    s: Seq<char>,
    i: int,
    start: int,
    opens: nat,
    closes: nat,
    quoted: bool,
) -> Seq<Seq<char>>
    decreases s.len() - i,
{
    if i < 0 || i >= s.len() || start < 0 || start > i {
        keep_nonempty(trim(s.subrange(if 0 <= start <= s.len() { start } else { s.len() as int }, s.len() as int)))
    } else {
        let c = s[i];
        if c == '"' {
            scan_statements(s, i + 1, start, opens, closes, !quoted)
        } else if !quoted && (c == '[' || c == '(' || c == '{') {
            scan_statements(s, i + 1, start, opens + 1, closes, quoted)
        } else if !quoted && (c == ']' || c == ')' || c == '}') {
            scan_statements(s, i + 1, start, opens, closes + 1, quoted)
        } else if !quoted && opens <= closes && c == ';' {
            keep_nonempty(trim(s.subrange(start, i))) + scan_statements(s, i + 1, i + 1, opens, closes, quoted)
        } else if !quoted && opens <= closes && c == '%' && i + 1 < s.len() && s[i + 1] == '%' {
            keep_nonempty(trim(s.subrange(start, i)))
        } else {
            scan_statements(s, i + 1, start, opens, closes, quoted)
        }
    }
}

/// A one-element sequence holding `p`, or nothing when `p` is empty.
pub open spec fn keep_nonempty(p: Seq<char>) -> Seq<Seq<char>> {
    if p.len() > 0 { seq![p] } else { Seq::empty() }
}

/// The statements of a line: split at `;` and cut off at `%%`, neither
/// counting inside brackets or quotes; each trimmed, empty ones dropped.
pub open spec fn statements(s: Seq<char>) -> Seq<Seq<char>> {
    scan_statements(s, 0, 0, 0, 0, false)
}

/// Split the line `v[lo..hi]` into statements, as ranges of `v`.
pub fn split_statements(v: &Vec<char>, lo: usize, hi: usize) -> (r: Vec<(usize, usize)>)
    requires
        lo <= hi <= v@.len(),
    ensures
        r@.len() == statements(v@.subrange(lo as int, hi as int)).len(),
        forall|k: int|
            0 <= k < r@.len() ==> lo <= (#[trigger] r@[k]).0 <= r@[k].1 <= hi && v@.subrange(
                r@[k].0 as int,
                r@[k].1 as int,
            ) == statements(v@.subrange(lo as int, hi as int))[k],
{
    let ghost s = v@.subrange(lo as int, hi as int);
    let mut out: Vec<(usize, usize)> = Vec::new();
    let ghost mut done: Seq<Seq<char>> = Seq::empty();
    let mut start = lo;
    let mut opens: usize = 0;
    let mut closes: usize = 0;
    let mut quoted = false;
    let mut i = lo;
    while i < hi
        invariant
            lo <= start <= i <= hi <= v@.len(),
            s == v@.subrange(lo as int, hi as int),
            opens <= i - lo,
            closes <= i - lo,
            out@.len() == done.len(),
            done + scan_statements(s, i - lo, start - lo, opens as nat, closes as nat, quoted)
                == statements(s),
            forall|k: int|
                0 <= k < out@.len() ==> lo <= (#[trigger] out@[k]).0 <= out@[k].1 <= hi
                    && v@.subrange(out@[k].0 as int, out@[k].1 as int) == done[k],
        decreases hi - i,
    {
        let c = v[i];
        proof {
            assert(s[i - lo] == c);
        }
        if c == '"' {
            quoted = !quoted;
        } else if !quoted && (c == '[' || c == '(' || c == '{') {
            opens = opens + 1;
        } else if !quoted && (c == ']' || c == ')' || c == '}') {
            closes = closes + 1;
        } else if !quoted && opens <= closes && c == ';' {
            let (a, b) = trim_range(v, start, i);
            proof {
                assert(v@.subrange(start as int, i as int) =~= s.subrange(start - lo, i - lo));
                done = done + keep_nonempty(v@.subrange(a as int, b as int));
            }
            if a < b {
                out.push((a, b));
            }
            start = i + 1;
        } else if !quoted && opens <= closes && c == '%' && i + 1 < hi && v[i + 1] == '%' {
            let (a, b) = trim_range(v, start, i);
            proof {
                assert(s[i + 1 - lo] == v@[i + 1]);
                assert(v@.subrange(start as int, i as int) =~= s.subrange(start - lo, i - lo));
                done = done + keep_nonempty(v@.subrange(a as int, b as int));
            }
            if a < b {
                out.push((a, b));
            }
            proof {
                assert(done =~= statements(s));
            }
            return out;
        }
        i = i + 1;
        proof {
            assert(done + scan_statements(s, i - lo, start - lo, opens as nat, closes as nat, quoted)
                =~= statements(s));
        }
    }
    let (a, b) = trim_range(v, start, hi);
    proof {
        assert(v@.subrange(start as int, hi as int) =~= s.subrange(start - lo, s.len() as int));
        done = done + keep_nonempty(v@.subrange(a as int, b as int));
    }
    if a < b {
        out.push((a, b));
    }
    proof {
        assert(done =~= statements(s));
    }
    out
}

} // verus!

verus! {

/// The edge operator starting at position `i` of `s`, as its length and
/// whether it is dotted. Longest first, so `-.->` is not read as `-.-`.
pub open spec fn operator_at(s: Seq<char>, i: int) -> Option<(nat, bool)> {
    let t = s.skip(i);
    if starts_with(t, "-.->"@) {
        Some(("-.->"@.len(), true))
    } else if starts_with(t, "-.-"@) {
        Some(("-.-"@.len(), true))
    } else if starts_with(t, "==>"@) {
        Some(("==>"@.len(), false))
    } else if starts_with(t, "==="@) {
        Some(("==="@.len(), false))
    } else if starts_with(t, "-->"@) {
        Some(("-->"@.len(), false))
    } else if starts_with(t, "---"@) {
        Some(("---"@.len(), false))
    } else if starts_with(t, "--x"@) {
        Some(("--x"@.len(), false))
    } else if starts_with(t, "--o"@) {
        Some(("--o"@.len(), false))
    } else {
        None
    }
}

/// The first edge operator in `v[lo..hi]`: its position, length, and
/// whether it is dotted.
pub fn find_operator(v: &Vec<char>, lo: usize, hi: usize) -> (r: Option<(usize, usize, bool)>)
    requires
        lo <= hi <= v@.len(),
    ensures
        match r {
            Some((i, n, d)) => lo <= i && i + n <= hi && n > 0 && operator_at(
                v@.subrange(lo as int, hi as int),
                i - lo,
            ) == Some((n as nat, d)) && forall|k: int|
                0 <= k < i - lo ==> #[trigger] operator_at(v@.subrange(lo as int, hi as int), k) is None,
            None => forall|k: int|
                0 <= k < hi - lo ==> #[trigger] operator_at(v@.subrange(lo as int, hi as int), k) is None,
        },
{
    let ghost s = v@.subrange(lo as int, hi as int);
    let o1 = lit("-.->");
    let o2 = lit("-.-");
    let o3 = lit("==>");
    let o4 = lit("===");
    let o5 = lit("-->");
    let o6 = lit("---");
    let o7 = lit("--x");
    let o8 = lit("--o");
    let mut i = lo;
    while i < hi
        invariant
            lo <= i <= hi <= v@.len(),
            s == v@.subrange(lo as int, hi as int),
            o1@ == "-.->"@,
            o2@ == "-.-"@,
            o3@ == "==>"@,
            o4@ == "==="@,
            o5@ == "-->"@,
            o6@ == "---"@,
            o7@ == "--x"@,
            o8@ == "--o"@,
            forall|k: int| 0 <= k < i - lo ==> #[trigger] operator_at(s, k) is None,
        decreases hi - i,
    {
        proof {
            reveal_strlit("-.->");
            reveal_strlit("-.-");
            reveal_strlit("==>");
            reveal_strlit("===");
            reveal_strlit("-->");
            reveal_strlit("---");
            reveal_strlit("--x");
            reveal_strlit("--o");
        }
        proof {
            assert(s.skip(i - lo) =~= v@.subrange(i as int, hi as int));
        }
        if has_at(v, i, hi, &o1) {
            return Some((i, o1.len(), true));
        }
        if has_at(v, i, hi, &o2) {
            return Some((i, o2.len(), true));
        }
        if has_at(v, i, hi, &o3) {
            return Some((i, o3.len(), false));
        }
        if has_at(v, i, hi, &o4) {
            return Some((i, o4.len(), false));
        }
        if has_at(v, i, hi, &o5) {
            return Some((i, o5.len(), false));
        }
        if has_at(v, i, hi, &o6) {
            return Some((i, o6.len(), false));
        }
        if has_at(v, i, hi, &o7) {
            return Some((i, o7.len(), false));
        }
        if has_at(v, i, hi, &o8) {
            return Some((i, o8.len(), false));
        }
        i = i + 1;
    }
    None
}

} // verus!

verus! {

/// A bracket, which a trailing edge label may not contain.
pub open spec fn bracket() -> spec_fn(char) -> bool {
    |c: char| c == '[' || c == ']' || c == '(' || c == ')' || c == '{' || c == '}'
}

/// A bracket that opens a node's label.
pub open spec fn opener() -> spec_fn(char) -> bool {
    |c: char| c == '[' || c == '(' || c == '{'
}

/// The first position in `[lo, hi)` holding a bracket, or `hi`.
fn find_bracket(v: &Vec<char>, lo: usize, hi: usize, opening_only: bool) -> (r: usize)
    requires
        lo <= hi <= v@.len(),
    ensures
        lo <= r <= hi,
        r - lo == find_first(
            v@.subrange(lo as int, hi as int),
            if opening_only { opener() } else { bracket() },
        ),
{
    let ghost s = v@.subrange(lo as int, hi as int);
    let ghost p = if opening_only { opener() } else { bracket() };
    let mut i = lo;
    while i < hi
        invariant
            lo <= i <= hi <= v@.len(),
            s == v@.subrange(lo as int, hi as int),
            p == (if opening_only { opener() } else { bracket() }),
            forall|j: int| 0 <= j < i - lo ==> !p(#[trigger] s[j]),
        decreases hi - i,
    {
        let c = v[i];
        proof {
            assert(s[i - lo] == c);
        }
        let hit = if opening_only {
            c == '[' || c == '(' || c == '{'
        } else {
            c == '[' || c == ']' || c == '(' || c == ')' || c == '{' || c == '}'
        };
        if hit {
            proof {
                lemma_find_first_unique(s, p, i - lo);
            }
            return i;
        }
        i = i + 1;
    }
    proof {
        lemma_find_first_unique(s, p, i - lo);
    }
    i
}

/// The start of the last `--` that ends at or before `n`, or -1.
pub open spec fn last_dashes(t: Seq<char>, n: int) -> int
    decreases n,
{
    if n < 2 || n > t.len() {
        -1
    } else if t[n - 2] == '-' && t[n - 1] == '-' {
        n - 2
    } else {
        last_dashes(t, n - 1)
    }
}

/// A `-- label` written before an arrow, as in `A -- yes --> B`: where the
/// node spec ends, and the label.
pub open spec fn trailing_label(s: Seq<char>) -> Option<(int, Seq<char>)> {
    let t = trim_end(s);
    let at = last_dashes(t, t.len() as int);
    if at > 0 {
        let l = trim(t.skip(at + 2));
        if l.len() > 0 && find_first(l, bracket()) == l.len() {
            Some((at, l))
        } else {
            None
        }
    } else {
        None
    }
}

/// Strip a `-- label` suffix from the node spec `v[lo..hi]`: where the spec
/// now ends, and the label's range.
pub fn split_trailing_label(v: &Vec<char>, lo: usize, hi: usize) -> (r: (usize, Option<(usize, usize)>))
    requires
        lo <= hi <= v@.len(),
    ensures
        lo <= r.0 <= hi,
        r.1 matches Some((a, b)) ==> lo <= a <= b <= hi,
        match trailing_label(v@.subrange(lo as int, hi as int)) {
            Some((at, l)) => r.0 == lo + at && match r.1 {
                Some((a, b)) => lo <= a <= b <= hi && v@.subrange(a as int, b as int) == l,
                None => false,
            },
            None => r.0 == hi && r.1 is None,
        },
{
    let ghost s = v@.subrange(lo as int, hi as int);
    let te = trim_end_range(v, lo, hi);
    let ghost t = v@.subrange(lo as int, te as int);
    let mut n = te;
    while n - lo >= 2 && !(v[n - 2] == '-' && v[n - 1] == '-')
        invariant
            lo <= n <= te <= hi <= v@.len(),
            t == v@.subrange(lo as int, te as int),
            last_dashes(t, n - lo) == last_dashes(t, t.len() as int),
        decreases n,
    {
        proof {
            assert(t[n - 2 - lo] == v@[n - 2]);
            assert(t[n - 1 - lo] == v@[n - 1]);
        }
        n = n - 1;
    }
    if n - lo >= 2 {
        proof {
            assert(t[n - 2 - lo] == v@[n - 2]);
            assert(t[n - 1 - lo] == v@[n - 1]);
        }
    }
    if n - lo >= 2 && n - 2 > lo {
        let (a, b) = trim_range(v, n, te);
        proof {
            assert(t.skip(n - lo) =~= v@.subrange(n as int, te as int));
        }
        if a < b {
            let k = find_bracket(v, a, b, false);
            if k == b {
                return (n - 2, Some((a, b)));
            }
        }
    }
    (hi, None)
}

/// A `|label|` written after an arrow: the label, and where the rest of the
/// statement starts.
pub open spec fn pipe_label(s: Seq<char>) -> Option<(Seq<char>, int)> {
    let t = trim_start(s);
    let k = s.len() - t.len();
    if t.len() > 0 && t[0] == '|' {
        let body = t.skip(1);
        let e = index_of(body, '|');
        if e < body.len() {
            Some((trim(body.take(e)), k + 1 + e + 1))
        } else {
            None
        }
    } else {
        None
    }
}

/// Take a `|label|` off the front of `v[lo..hi]`.
pub fn leading_pipe_label(v: &Vec<char>, lo: usize, hi: usize) -> (r: (Option<(usize, usize)>, usize))
    requires
        lo <= hi <= v@.len(),
    ensures
        lo <= r.1 <= hi,
        r.0 matches Some((a, b)) ==> lo <= a <= b <= hi,
        match pipe_label(v@.subrange(lo as int, hi as int)) {
            Some((l, rest)) => r.1 == lo + rest && match r.0 {
                Some((a, b)) => lo <= a <= b <= hi && v@.subrange(a as int, b as int) == l,
                None => false,
            },
            None => r.0 is None && r.1 == lo,
        },
{
    let a = trim_start_range(v, lo, hi);
    if a < hi && v[a] == '|' {
        let e = find_char(v, a + 1, hi, '|');
        proof {
            let t = v@.subrange(a as int, hi as int);
            assert(t[0] == v@[a as int]);
            assert(t.skip(1) =~= v@.subrange(a + 1, hi as int));
        }
        if e < hi {
            let (x, y) = trim_range(v, a + 1, e);
            proof {
                assert(v@.subrange(a + 1, hi as int).take(e - a - 1) =~= v@.subrange(
                    a + 1,
                    e as int,
                ));
            }
            return (Some((x, y)), e + 1);
        }
    }
    (None, lo)
}

/// Surrounding whitespace and one pair of double quotes removed.
pub open spec fn unquoted(s: Seq<char>) -> Seq<char> {
    let t = trim(s);
    if t.len() >= 2 && t[0] == '"' && t.last() == '"' {
        trim(t.subrange(1, t.len() - 1))
    } else {
        t
    }
}

pub fn unquote(v: &Vec<char>, lo: usize, hi: usize) -> (r: (usize, usize))
    requires
        lo <= hi <= v@.len(),
    ensures
        lo <= r.0 <= r.1 <= hi,
        v@.subrange(r.0 as int, r.1 as int) == unquoted(v@.subrange(lo as int, hi as int)),
{
    let (a, b) = trim_range(v, lo, hi);
    if b - a >= 2 && v[a] == '"' && v[b - 1] == '"' {
        proof {
            let t = v@.subrange(a as int, b as int);
            assert(t[0] == v@[a as int]);
            assert(t.last() == v@[b - 1]);
            assert(t.subrange(1, t.len() - 1) =~= v@.subrange(a + 1, b - 1));
        }
        return trim_range(v, a + 1, b - 1);
    }
    (a, b)
}

/// The delimiters of a node shape at the start of `body`, longest first so
/// `([stadium])` is not read as a round node.
pub open spec fn shape_delims(body: Seq<char>) -> Option<(Seq<char>, Seq<char>, Shape)> {
    if starts_with(body, "(["@) {
        Some(("(["@, "])"@, Shape::Stadium))
    } else if starts_with(body, "["@) {
        Some(("["@, "]"@, Shape::Rect))
    } else if starts_with(body, "("@) {
        Some(("("@, ")"@, Shape::Round))
    } else if starts_with(body, "{"@) {
        Some(("{"@, "}"@, Shape::Diamond))
    } else {
        None
    }
}

/// A node spec such as `A`, `A[label]`, `B(round)`, `C{choice}` or
/// `D([stadium])`: its id, its label if it has one, and its shape.
pub open spec fn node_spec(s: Seq<char>) -> Option<(Seq<char>, Option<Seq<char>>, Shape)> {
    let t = trim(s);
    if t.len() == 0 {
        None
    } else {
        let open = find_first(t, opener());
        if open == t.len() {
            Some((t, None, Shape::Rect))
        } else {
            let id = trim(t.take(open));
            if id.len() == 0 {
                None
            } else {
                let body = t.skip(open);
                match shape_delims(body) {
                    None => None,
                    Some((p, q, shape)) => {
                        let after = body.skip(p.len() as int);
                        if ends_with(after, q) {
                            Some((id, Some(unquoted(after.take(after.len() - q.len()))), shape))
                        } else {
                            None
                        }
                    },
                }
            }
        }
    }
}

/// Parse the node spec `v[lo..hi]` into the ranges of its id and label and
/// its shape.
pub fn parse_node(v: &Vec<char>, lo: usize, hi: usize) -> (r: Option<
    ((usize, usize), Option<(usize, usize)>, Shape),
>)
    requires
        lo <= hi <= v@.len(),
    ensures
        match node_spec(v@.subrange(lo as int, hi as int)) {
            None => r is None,
            Some((id, label, shape)) => match r {
                None => false,
                Some((ir, lr, sh)) => ir.0 <= ir.1 <= v@.len() && v@.subrange(
                    ir.0 as int,
                    ir.1 as int,
                ) == id && sh == shape && match (label, lr) {
                    (None, None) => true,
                    (Some(l), Some(x)) => x.0 <= x.1 <= v@.len() && v@.subrange(
                        x.0 as int,
                        x.1 as int,
                    ) == l,
                    _ => false,
                },
            },
        },
{
    proof {
        reveal_strlit("([");
        reveal_strlit("])");
        reveal_strlit("[");
        reveal_strlit("]");
        reveal_strlit("(");
        reveal_strlit(")");
        reveal_strlit("{");
        reveal_strlit("}");
    }
    let (a, b) = trim_range(v, lo, hi);
    let ghost t = v@.subrange(a as int, b as int);
    if a == b {
        return None;
    }
    let open = find_bracket(v, a, b, true);
    if open == b {
        return Some(((a, b), None, Shape::Rect));
    }
    let (ia, ib) = trim_range(v, a, open);
    proof {
        assert(t.take(open - a) =~= v@.subrange(a as int, open as int));
    }
    if ia == ib {
        return None;
    }
    let ghost body = t.skip(open - a);
    proof {
        assert(body =~= v@.subrange(open as int, b as int));
    }
    let (plen, slen, shape): (usize, usize, Shape) = if has_at(v, open, b, &lit("([")) {
        (2, 2, Shape::Stadium)
    } else if has_at(v, open, b, &lit("[")) {
        (1, 1, Shape::Rect)
    } else if has_at(v, open, b, &lit("(")) {
        (1, 1, Shape::Round)
    } else if has_at(v, open, b, &lit("{")) {
        (1, 1, Shape::Diamond)
    } else {
        return None;
    };
    let q: Vec<char> = match shape {
        Shape::Stadium => lit("])"),
        Shape::Rect => lit("]"),
        Shape::Round => lit(")"),
        Shape::Diamond => lit("}"),
    };
    let inner_lo = open + plen;
    if b - inner_lo < slen || !has_at(v, b - slen, b, &q) {
        proof {
            let after = body.skip(plen as int);
            assert(after =~= v@.subrange(inner_lo as int, b as int));
            if after.len() >= slen {
                assert(after.skip(after.len() - slen) =~= v@.subrange(b - slen, b as int));
                assert(v@.subrange(b - slen, b as int).take(slen as int) =~= v@.subrange(b - slen, b as int));
            }
        }
        return None;
    }
    let (la, lb) = unquote(v, inner_lo, b - slen);
    proof {
        let after = body.skip(plen as int);
        assert(after =~= v@.subrange(inner_lo as int, b as int));
        assert(after.skip(after.len() - slen) =~= v@.subrange(b - slen, b as int));
        assert(v@.subrange(b - slen, b as int).take(slen as int) =~= v@.subrange(b - slen, b as int));
        assert(after.take(after.len() - slen) =~= v@.subrange(inner_lo as int, b - slen));
    }
    Some(((ia, ib), Some((la, lb)), shape))
}

} // verus!

verus! {

/// Register the node spec `v[lo..hi]`, returning its index. Repeating an id
/// later reuses the earlier node, taking the new label and shape if one is
/// given, which is how mermaid behaves.
#[verifier::loop_isolation(false)]
pub fn intern(chart: &mut Flowchart, v: &Vec<char>, lo: usize, hi: usize) -> (r: Option<usize>)
    requires
        lo <= hi <= v@.len(),
        old(chart).wf(),
    ensures
        final(chart).wf(),
        final(chart).edges@ == old(chart).edges@,
        final(chart).direction == old(chart).direction,
        final(chart).reversed == old(chart).reversed,
        old(chart).nodes@.len() <= final(chart).nodes@.len() <= old(chart).nodes@.len() + 1,
        r is Some <==> node_spec(v@.subrange(lo as int, hi as int)) is Some,
        match (r, node_spec(v@.subrange(lo as int, hi as int))) {
            (Some(i), Some((id, _, _))) => i < final(chart).nodes@.len()
                && final(chart).nodes@[i as int].id@ == id,
            _ => true,
        },
{
    let (ir, lr, shape) = match parse_node(v, lo, hi) {
        Some(p) => p,
        None => return None,
    };
    let id = string_of(v, ir.0, ir.1);
    let mut k: usize = 0;
    while k < chart.nodes.len()
        invariant
            k <= chart.nodes@.len(),
            chart == old(chart),
        decreases chart.nodes.len() - k,
    {
        if chart.nodes[k].id == id {
            if let Some((la, lb)) = lr {
                let node = Node { id: chart.nodes[k].id.clone(), label: string_of(v, la, lb), shape };
                chart.nodes.set(k, node);
            }
            return Some(k);
        }
        k = k + 1;
    }
    let label = match lr {
        Some((la, lb)) => string_of(v, la, lb),
        None => id.clone(),
    };
    chart.nodes.push(Node { id, label, shape });
    Some(chart.nodes.len() - 1)
}

/// One statement: a chain of node specs joined by edge operators. `false`
/// when it cannot be understood.
pub fn parse_statement(v: &Vec<char>, lo: usize, hi: usize, chart: &mut Flowchart) -> (ok: bool)
    requires
        lo <= hi <= v@.len(),
        old(chart).wf(),
    ensures
        final(chart).wf(),
        final(chart).direction == old(chart).direction,
        final(chart).reversed == old(chart).reversed,
{
    let mut parts: Vec<((usize, usize), Option<(usize, usize)>, bool)> = Vec::new();
    let mut rest = lo;
    let mut pending_label: Option<(usize, usize)> = None;
    let mut pending_dotted = false;
    let mut first = true;
    loop
        invariant
            lo <= rest <= hi <= v@.len(),
            forall|k: int|
                0 <= k < parts@.len() ==> (#[trigger] parts@[k]).0.0 <= parts@[k].0.1 <= v@.len()
                    && match parts@[k].1 {
                    Some((a, b)) => a <= b <= v@.len(),
                    None => true,
                },
            match pending_label {
                Some((a, b)) => a <= b <= v@.len(),
                None => true,
            },
        decreases hi - rest,
    {
        match find_operator(v, rest, hi) {
            Some((start, len, dotted)) => {
                let (spec_end, inline_label) = split_trailing_label(v, rest, start);
                let node = trim_range(v, rest, spec_end);
                parts.push((node, pending_label, pending_dotted));
                let after = start + len;
                let (label, after2) = leading_pipe_label(v, after, hi);
                pending_label = match label {
                    Some(l) => Some(l),
                    None => inline_label,
                };
                pending_dotted = dotted;
                rest = after2;
                first = false;
            },
            None => {
                let node = trim_range(v, rest, hi);
                parts.push((node, pending_label, pending_dotted));
                break ;
            },
        }
    }
    if first && parts.len() == 1 {
        // A bare node declaration such as `A[Label]`.
        let (a, b) = parts[0].0;
        if a == b {
            return true;
        }
        return intern(chart, v, a, b).is_some();
    }
    let mut previous: Option<usize> = None;
    let mut k: usize = 0;
    while k < parts.len()
        invariant
            k <= parts@.len(),
            chart.wf(),
            chart.direction == old(chart).direction,
            chart.reversed == old(chart).reversed,
            forall|j: int|
                0 <= j < parts@.len() ==> (#[trigger] parts@[j]).0.0 <= parts@[j].0.1 <= v@.len()
                    && match parts@[j].1 {
                    Some((a, b)) => a <= b <= v@.len(),
                    None => true,
                },
            match previous {
                Some(p) => p < chart.nodes@.len(),
                None => true,
            },
        decreases parts.len() - k,
    {
        let ((a, b), label, dotted) = parts[k];
        if a == b {
            return false;
        }
        let idx = match intern(chart, v, a, b) {
            Some(i) => i,
            None => return false,
        };
        if let Some(from) = previous {
            let text = match label {
                Some((la, lb)) => Some(string_of(v, la, lb)),
                None => None,
            };
            chart.edges.push(Edge { from, to: idx, label: text, dotted });
        }
        previous = Some(idx);
        k = k + 1;
    }
    true
}

} // verus!

verus! {

/// Whether `v[lo..hi]` is exactly `word`.
fn is_word(v: &Vec<char>, lo: usize, hi: usize, word: &str) -> (r: bool)
    requires
        lo <= hi <= v@.len(),
    ensures
        r == (v@.subrange(lo as int, hi as int) == word@),
{
    let w = lit(word);
    if w.len() != hi - lo {
        return false;
    }
    let r = has_at(v, lo, hi, &w);
    proof {
        assert(v@.subrange(lo as int, hi as int).take(w@.len() as int) =~= v@.subrange(lo as int, hi as int));
    }
    r
}

/// The first position at or after `i` that is not whitespace, or the end.
pub open spec fn past_blanks(s: Seq<char>, i: int) -> int
    decreases s.len() - i,
{
    if 0 <= i < s.len() && is_ws(s[i]) {
        past_blanks(s, i + 1)
    } else {
        i
    }
}

/// The first position at or after `i` that is whitespace, or the end.
pub open spec fn past_word(s: Seq<char>, i: int) -> int
    decreases s.len() - i,
{
    if 0 <= i < s.len() && !is_ws(s[i]) {
        past_word(s, i + 1)
    } else {
        i
    }
}

/// The second whitespace-separated word of `s`; empty when there is none.
pub open spec fn second_word_of(s: Seq<char>) -> Seq<char> {
    let b = past_word(s, past_blanks(s, 0));
    let c = past_blanks(s, b);
    s.subrange(c, past_word(s, c))
}

/// The second whitespace-separated word of `v[lo..hi]`, as a range; empty
/// when there is none.
fn second_word(v: &Vec<char>, lo: usize, hi: usize) -> (r: (usize, usize))
    requires
        lo <= hi <= v@.len(),
    ensures
        lo <= r.0 <= r.1 <= hi,
        v@.subrange(r.0 as int, r.1 as int) == second_word_of(v@.subrange(lo as int, hi as int)),
{
    let ghost s = v@.subrange(lo as int, hi as int);
    let mut i = lo;
    while i < hi && is_whitespace(v[i])
        invariant
            lo <= i <= hi <= v@.len(),
            s == v@.subrange(lo as int, hi as int),
            past_blanks(s, i - lo) == past_blanks(s, 0),
        decreases hi - i,
    {
        i = i + 1;
    }
    let ghost a = i - lo;
    while i < hi && !is_whitespace(v[i])
        invariant
            lo <= i <= hi <= v@.len(),
            s == v@.subrange(lo as int, hi as int),
            a == past_blanks(s, 0),
            past_word(s, i - lo) == past_word(s, a),
        decreases hi - i,
    {
        i = i + 1;
    }
    let ghost b = i - lo;
    while i < hi && is_whitespace(v[i])
        invariant
            lo <= i <= hi <= v@.len(),
            s == v@.subrange(lo as int, hi as int),
            b == past_word(s, past_blanks(s, 0)),
            past_blanks(s, i - lo) == past_blanks(s, b),
        decreases hi - i,
    {
        i = i + 1;
    }
    let start = i;
    let ghost c = i - lo;
    while i < hi && !is_whitespace(v[i])
        invariant
            lo <= start <= i <= hi <= v@.len(),
            s == v@.subrange(lo as int, hi as int),
            c == start - lo,
            c == past_blanks(s, past_word(s, past_blanks(s, 0))),
            past_word(s, i - lo) == past_word(s, c),
        decreases hi - i,
    {
        i = i + 1;
    }
    proof {
        assert(v@.subrange(start as int, i as int) =~= s.subrange(c, i - lo));
    }
    (start, i)
}

/// The texts of statement ranges of `v`.
pub open spec fn stmt_texts(v: Seq<char>, st: Seq<(usize, usize)>) -> Seq<Seq<char>> {
    st.map_values(|p: (usize, usize)| v.subrange(p.0 as int, p.1 as int))
}

/// The statements of the first `n` lines, each line trimmed and split at
/// its semicolons, in order.
pub open spec fn chart_statements(ls: Seq<Seq<char>>, n: int) -> Seq<Seq<char>>
    decreases n,
{
    if n <= 0 {
        Seq::empty()
    } else {
        chart_statements(ls, n - 1) + statements(trim(ls[n - 1]))
    }
}

/// A statement that would change the shape of the chart, a `subgraph` or
/// its `end`, which this renderer declines.
pub open spec fn shape_statement(s: Seq<char>) -> bool {
    is_keyword(s, "subgraph"@) || is_keyword(s, "end"@)
}

/// The direction a chart's header names: sideways for `LR` and `RL`,
/// top-down for anything else.
pub open spec fn header_direction(h: Seq<char>) -> Direction {
    let w = second_word_of(h);
    if w == "LR"@ || w == "RL"@ {
        Direction::LeftRight
    } else {
        Direction::TopDown
    }
}

/// Whether a chart's header asks for its edges to run backwards, `RL` or `BT`.
pub open spec fn header_reversed(h: Seq<char>) -> bool {
    let w = second_word_of(h);
    w == "RL"@ || w == "BT"@
}

/// Parse a `flowchart` / `graph` diagram, or `None` if it uses anything this
/// renderer does not model.
pub fn parse_flowchart(code: &str) -> (r: Option<Flowchart>)
    ensures
        r matches Some(c) ==> c.wf() && c.nodes@.len() > 0,
        (exists|j: int| 1 <= j < chart_statements(lines_of(code@), lines_of(code@).len() as int).len()
            && #[trigger] shape_statement(chart_statements(lines_of(code@), lines_of(code@).len() as int)[j])) ==> r is None,
        r matches Some(c) ==> {
            let h = chart_statements(lines_of(code@), lines_of(code@).len() as int)[0];
            &&& c.direction == header_direction(h)
            &&& c.reversed == header_reversed(h)
        },
{
    let v = chars_of(code);
    let lines = line_ranges(&v);
    let ghost ls = lines_of(v@);
    let mut stmts: Vec<(usize, usize)> = Vec::new();
    let mut li: usize = 0;
    proof {
        assert(stmt_texts(v@, stmts@) =~= chart_statements(ls, 0));
    }
    while li < lines.len()
        invariant
            li <= lines@.len(),
            v@ == code@,
            ls == lines_of(v@),
            lines@.len() == ls.len(),
            forall|k: int|
                0 <= k < lines@.len() ==> (#[trigger] lines@[k]).0 <= lines@[k].1 <= v@.len()
                    && v@.subrange(lines@[k].0 as int, lines@[k].1 as int) == ls[k],
            forall|k: int|
                0 <= k < stmts@.len() ==> (#[trigger] stmts@[k]).0 <= stmts@[k].1 <= v@.len(),
            stmt_texts(v@, stmts@) == chart_statements(ls, li as int),
        decreases lines.len() - li,
    {
        let (la, lb) = lines[li];
        let (a, b) = trim_range(&v, la, lb);
        let parts = split_statements(&v, a, b);
        let ghost base = stmt_texts(v@, stmts@);
        let ghost sts = statements(trim(ls[li as int]));
        proof {
            assert(v@.subrange(a as int, b as int) == trim(ls[li as int]));
            assert(base + sts.take(0) =~= base);
        }
        let mut k: usize = 0;
        while k < parts.len()
            invariant
                k <= parts@.len(),
                parts@.len() == sts.len(),
                forall|j: int|
                    0 <= j < parts@.len() ==> (#[trigger] parts@[j]).0 <= parts@[j].1 <= v@.len()
                        && v@.subrange(parts@[j].0 as int, parts@[j].1 as int) == sts[j],
                forall|j: int|
                    0 <= j < stmts@.len() ==> (#[trigger] stmts@[j]).0 <= stmts@[j].1 <= v@.len(),
                stmt_texts(v@, stmts@) == base + sts.take(k as int),
            decreases parts.len() - k,
        {
            let ghost before = stmts@;
            stmts.push(parts[k]);
            proof {
                assert(stmt_texts(v@, stmts@) =~= stmt_texts(v@, before).push(sts[k as int]));
                assert(sts.take(k + 1) =~= sts.take(k as int).push(sts[k as int]));
            }
            k = k + 1;
        }
        proof {
            assert(sts.take(k as int) =~= sts);
        }
        li = li + 1;
    }
    if stmts.len() == 0 {
        return None;
    }
    let (ha, hb) = stmts[0];
    let (wa, wb) = second_word(&v, ha, hb);
    let sideways = is_word(&v, wa, wb, "LR") || is_word(&v, wa, wb, "RL");
    let reversed = is_word(&v, wa, wb, "RL") || is_word(&v, wa, wb, "BT");
    let direction = if sideways { Direction::LeftRight } else { Direction::TopDown };
    proof {
        assert(stmt_texts(v@, stmts@)[0] == v@.subrange(ha as int, hb as int));
        reveal_strlit("LR");
        reveal_strlit("RL");
        reveal_strlit("BT");
    }
    let mut chart = Flowchart { direction, nodes: Vec::new(), edges: Vec::new(), reversed };
    let ghost all = stmt_texts(v@, stmts@);
    let mut si: usize = 1;
    while si < stmts.len()
        invariant
            1 <= si <= stmts@.len(),
            chart.wf(),
            chart.reversed == reversed,
            chart.direction == direction,
            all == stmt_texts(v@, stmts@),
            forall|j: int|
                0 <= j < stmts@.len() ==> (#[trigger] stmts@[j]).0 <= stmts@[j].1 <= v@.len(),
            forall|j: int| 1 <= j < si ==> !#[trigger] shape_statement(all[j]),
        decreases stmts.len() - si,
    {
        let (a, b) = stmts[si];
        let ghost cur = si as int;
        si = si + 1;
        // Anything that changes the shape of the diagram, rather than its
        // styling, is a reason to decline the whole thing.
        if keyword(&v, a, b, "subgraph") || keyword(&v, a, b, "end") {
            return None;
        }
        proof {
            assert(all[cur] == v@.subrange(a as int, b as int));
            assert(!shape_statement(all[cur]));
        }
        if keyword(&v, a, b, "classDef") || keyword(&v, a, b, "class") || keyword(
            &v,
            a,
            b,
            "style",
        ) || keyword(&v, a, b, "click") || keyword(&v, a, b, "linkStyle") {
            continue;
        }
        if !parse_statement(&v, a, b, &mut chart) {
            return None;
        }
    }
    if chart.nodes.len() == 0 {
        return None;
    }
    // Turning the edges round is what puts the ranks where mermaid puts them:
    // a `BT` chart's source at the bottom, an `RL` chart's at the right.
    if reversed {
        let mut k: usize = 0;
        while k < chart.edges.len()
            invariant
                k <= chart.edges@.len(),
                chart.wf(),
                chart.nodes@.len() > 0,
                chart.reversed == reversed,
                chart.direction == direction,
            decreases chart.edges.len() - k,
        {
            let e = &chart.edges[k];
            let turned = Edge { from: e.to, to: e.from, label: e.label.clone(), dotted: e.dotted };
            chart.edges.set(k, turned);
            k = k + 1;
        }
    }
    Some(chart)
}

} // verus!

verus! {

/// A line that names the diagram's kind: neither blank nor a `%%` comment.
pub open spec fn kind_line(l: Seq<char>) -> bool {
    trim(l).len() > 0 && !starts_with(trim(l), "%%"@)
}

/// A kind this renderer draws: a sequence diagram or a flowchart.
pub open spec fn drawn_kind(l: Seq<char>) -> bool {
    let t = trim(l);
    starts_with(t, "sequenceDiagram"@) || starts_with(t, "flowchart"@)
        || starts_with(t, "graph"@)
}

/// Whether the first kind line of `ls` opens a sequence diagram.
pub open spec fn kind_is_sequence(ls: Seq<Seq<char>>) -> bool
    decreases ls.len(),
{
    if ls.len() == 0 {
        false
    } else if kind_line(ls[0]) {
        starts_with(trim(ls[0]), "sequenceDiagram"@)
    } else {
        kind_is_sequence(ls.drop_first())
    }
}

/// Whether the first kind line of `ls` opens a flowchart.
pub open spec fn kind_is_flowchart(ls: Seq<Seq<char>>) -> bool
    decreases ls.len(),
{
    if ls.len() == 0 {
        false
    } else if kind_line(ls[0]) {
        !starts_with(trim(ls[0]), "sequenceDiagram"@)
            && (starts_with(trim(ls[0]), "flowchart"@) || starts_with(trim(ls[0]), "graph"@))
    } else {
        kind_is_flowchart(ls.drop_first())
    }
}

/// Whether the first kind line of `ls` names a kind this renderer draws.
pub open spec fn kind_drawn(ls: Seq<Seq<char>>) -> bool
    decreases ls.len(),
{
    if ls.len() == 0 {
        false
    } else if kind_line(ls[0]) {
        drawn_kind(ls[0])
    } else {
        kind_drawn(ls.drop_first())
    }
}

/// Render a mermaid diagram, or return `None` if it uses anything
/// unsupported. The diagram's kind is its first line that is neither blank
/// nor a comment; a diagram without one, or of a kind other than a sequence
/// diagram or a flowchart, is declined.
pub fn render(code: &str, calc: &WidthCalc) -> (r: Option<Vec<String>>)
    ensures
        r is Some ==> kind_drawn(lines_of(code@)),
        kind_is_sequence(lines_of(code@)) && (exists|k: int| 1 <= k < lines_of(code@).len()
            && #[trigger] crate::sequence::block_line(lines_of(code@)[k])) ==> r is None,
        kind_is_flowchart(lines_of(code@)) && (exists|j: int|
            1 <= j < chart_statements(lines_of(code@), lines_of(code@).len() as int).len()
            && #[trigger] shape_statement(chart_statements(lines_of(code@), lines_of(code@).len() as int)[j])) ==> r is None,
        kind_is_sequence(lines_of(code@)) && r is Some ==> r->0@.len() == 3 * crate::sequence::step_count(
            lines_of(code@),
            lines_of(code@).len() as int,
        ) + 4,
{
    let v = chars_of(code);
    let lines = line_ranges(&v);
    let comment = lit("%%");
    let ghost ls = lines_of(v@);
    proof {
        assert(ls.subrange(0, ls.len() as int) =~= ls);
    }
    let mut k: usize = 0;
    while k < lines.len()
        invariant
            k <= lines@.len(),
            v@ == code@,
            ls == lines_of(v@),
            comment@ == "%%"@,
            lines@.len() == ls.len(),
            forall|j: int| 0 <= j < lines@.len() ==> (#[trigger] lines@[j]).0 <= lines@[j].1 <= v@.len()
                && v@.subrange(lines@[j].0 as int, lines@[j].1 as int) == ls[j],
            kind_drawn(ls) == kind_drawn(ls.subrange(k as int, ls.len() as int)),
            kind_is_sequence(ls) == kind_is_sequence(ls.subrange(k as int, ls.len() as int)),
            kind_is_flowchart(ls) == kind_is_flowchart(ls.subrange(k as int, ls.len() as int)),
        decreases lines.len() - k,
    {
        let (a, b) = trim_range(&v, lines[k].0, lines[k].1);
        proof {
            let rest = ls.subrange(k as int, ls.len() as int);
            assert(rest[0] == ls[k as int]);
            assert(rest.drop_first() =~= ls.subrange(k + 1, ls.len() as int));
            assert(v@.subrange(a as int, b as int) == trim(ls[k as int]));
        }
        if a < b && !has_at(&v, a, b, &comment) {
            let seq_word = lit("sequenceDiagram");
            if has_at(&v, a, b, &seq_word) {
                return crate::sequence::render(code, calc);
            }
            let flow_word = lit("flowchart");
            let graph_word = lit("graph");
            if has_at(&v, a, b, &flow_word) || has_at(&v, a, b, &graph_word) {
                return match parse_flowchart(code) {
                    Some(chart) => crate::layered::draw_flowchart(&chart, calc),
                    None => None,
                };
            }
            return None;
        }
        k = k + 1;
    }
    None
}

} // verus!
