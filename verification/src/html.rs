//! A small, forgiving HTML parser.
//!
//! README files are full of HTML that Markdown has no syntax for: centred
//! logos, badge rows, `<details>` sections, `<sub>` captions. This handles the
//! subset that appears in hand-written documents: well-nested tags, quoted or
//! bare attributes, void elements, comments, and the handful of entities
//! people actually type. Anything it cannot make sense of is dropped rather
//! than guessed at.
//!
//! The input is read as a sequence of characters; every delimiter the
//! grammar looks for is ASCII.

use vstd::prelude::*;
use crate::text::{
    push_char, chars_of, string_of, lit, has_at, starts_with, eq_at, lower_seq, lower_string,
    is_ascii_ws, is_ascii_alpha, is_ascii_alnum, is_ascii_digit,
};

verus! {

// ---------------------------------------------------------------------------
// The tree
// ---------------------------------------------------------------------------

#[derive(Debug)]
pub enum Node {
    Text(String),
    Element(Element),
}

#[derive(Debug)]
pub struct Element {
    pub tag: String,
    pub attrs: Vec<(String, String)>,
    pub children: Vec<Node>,
}

/// A node as character sequences: what the contracts speak of.
pub enum NodeV {
    Text(Seq<char>),
    Element(ElemV),
}

/// An element as character sequences.
pub struct ElemV {
    pub tag: Seq<char>,
    pub attrs: Seq<(Seq<char>, Seq<char>)>,
    pub children: Seq<NodeV>,
}

/// The attribute list as character sequences.
pub open spec fn attrs_v(a: Seq<(String, String)>) -> Seq<(Seq<char>, Seq<char>)> {
    Seq::new(a.len(), |i: int| (a[i].0@, a[i].1@))
}

/// A node's view.
pub open spec fn node_v(n: Node) -> NodeV
    decreases n,
{
    match n {
        Node::Text(t) => NodeV::Text(t@),
        Node::Element(e) => NodeV::Element(
            ElemV { tag: e.tag@, attrs: attrs_v(e.attrs@), children: nodes_v(e.children@) },
        ),
    }
}

/// The views of a sequence of nodes.
pub open spec fn nodes_v(s: Seq<Node>) -> Seq<NodeV>
    decreases s,
{
    if s.len() == 0 {
        Seq::empty()
    } else {
        nodes_v(s.drop_last()).push(node_v(s.last()))
    }
}

/// An element's view.
pub open spec fn elem_v(e: Element) -> ElemV {
    ElemV { tag: e.tag@, attrs: attrs_v(e.attrs@), children: nodes_v(e.children@) }
}

pub proof fn lemma_nodes_v(s: Seq<Node>)
    ensures
        nodes_v(s).len() == s.len(),
        forall|i: int| 0 <= i < s.len() ==> #[trigger] nodes_v(s)[i] == node_v(s[i]),
    decreases s.len(),
{
    if s.len() > 0 {
        lemma_nodes_v(s.drop_last());
    }
}

pub proof fn lemma_nodes_v_push(s: Seq<Node>, n: Node)
    ensures
        nodes_v(s.push(n)) == nodes_v(s).push(node_v(n)),
{
    assert(s.push(n).drop_last() =~= s);
}

/// All text in a sequence of nodes, markup removed.
pub open spec fn nodes_text(s: Seq<NodeV>) -> Seq<char>
    decreases s,
{
    if s.len() == 0 {
        Seq::empty()
    } else {
        nodes_text(s.drop_last()) + node_text(s.last())
    }
}

/// All text in a node, markup removed.
pub open spec fn node_text(n: NodeV) -> Seq<char>
    decreases n,
{
    match n {
        NodeV::Text(t) => t,
        NodeV::Element(e) => nodes_text(e.children),
    }
}

// ---------------------------------------------------------------------------
// Void and raw-text elements
// ---------------------------------------------------------------------------

/// Elements that never have a closing tag.
pub open spec fn void_tag(t: Seq<char>) -> bool {
    t == "area"@ || t == "base"@ || t == "br"@ || t == "col"@ || t == "embed"@ || t == "hr"@
        || t == "img"@ || t == "input"@ || t == "link"@ || t == "meta"@ || t == "param"@ || t
        == "source"@ || t == "track"@ || t == "wbr"@
}

/// Elements whose contents are not markup and must not be parsed as such.
pub open spec fn raw_tag(t: Seq<char>) -> bool {
    t == "script"@ || t == "style"@
}

fn is_void_chars(v: &Vec<char>) -> (r: bool)
    ensures
        r == void_tag(v@),
{
    let n = v.len();
    proof {
        assert(v@.subrange(0, n as int) =~= v@);
    }
    eq_at(v, 0, n, "area") || eq_at(v, 0, n, "base") || eq_at(v, 0, n, "br") || eq_at(v, 0, n, "col")
        || eq_at(v, 0, n, "embed") || eq_at(v, 0, n, "hr") || eq_at(v, 0, n, "img") || eq_at(
        v,
        0,
        n,
        "input",
    ) || eq_at(v, 0, n, "link") || eq_at(v, 0, n, "meta") || eq_at(v, 0, n, "param") || eq_at(
        v,
        0,
        n,
        "source",
    ) || eq_at(v, 0, n, "track") || eq_at(v, 0, n, "wbr")
}

fn is_raw_chars(v: &Vec<char>) -> (r: bool)
    ensures
        r == raw_tag(v@),
{
    let n = v.len();
    proof {
        assert(v@.subrange(0, n as int) =~= v@);
    }
    eq_at(v, 0, n, "script") || eq_at(v, 0, n, "style")
}

/// Whether an element never has a closing tag.
pub fn is_void(tag: &str) -> (r: bool)
    ensures
        r == void_tag(tag@),
{
    let v = chars_of(tag);
    proof {
        assert(v@.subrange(0, v@.len() as int) =~= v@);
    }
    is_void_chars(&v)
}

// ---------------------------------------------------------------------------
// Entities
// ---------------------------------------------------------------------------

/// The value of a digit in base 10 or 16, if it is one.
pub open spec fn digit_value(c: char, radix: nat) -> Option<nat> {
    if '0' <= c && c <= '9' {
        Some((c as u32 - '0' as u32) as nat)
    } else if radix == 16 && 'a' <= c && c <= 'f' {
        Some((c as u32 - 'a' as u32 + 10) as nat)
    } else if radix == 16 && 'A' <= c && c <= 'F' {
        Some((c as u32 - 'A' as u32 + 10) as nat)
    } else {
        None
    }
}

/// The number `d` spells in `radix`, if every character is a digit.
pub open spec fn digits_value(d: Seq<char>, radix: nat) -> Option<nat>
    decreases d.len(),
{
    if d.len() == 0 {
        Some(0)
    } else {
        match (digits_value(d.drop_last(), radix), digit_value(d.last(), radix)) {
            (Some(a), Some(b)) => Some(a * radix + b),
            _ => None,
        }
    }
}

/// `u32::from_str_radix`: an optional `+`, then at least one digit, with a
/// value that fits.
pub open spec fn parse_u32(s: Seq<char>, radix: nat) -> Option<u32> {
    let d = if s.len() >= 1 && s[0] == '+' { s.drop_first() } else { s };
    if d.len() == 0 {
        None
    } else {
        match digits_value(d, radix) {
            Some(v) => if v <= u32::MAX {
                Some(v as u32)
            } else {
                None
            },
            None => None,
        }
    }
}

/// `char::from_u32`.
pub open spec fn char_of(v: u32) -> Option<char> {
    if vstd::utf8::is_scalar(v) {
        Some(v as char)
    } else {
        None
    }
}

/// `&#65;` and `&#x41;`.
pub open spec fn numeric_entity_of(name: Seq<char>) -> Option<char> {
    if name.len() >= 1 && name[0] == '#' {
        let digits = name.drop_first();
        let code = if digits.len() >= 1 && (digits[0] == 'x' || digits[0] == 'X') {
            parse_u32(digits.drop_first(), 16)
        } else {
            parse_u32(digits, 10)
        };
        match code {
            Some(v) => char_of(v),
            None => None,
        }
    } else {
        None
    }
}

/// What the entity `&name;` stands for, if it is one this parser knows.
pub open spec fn entity_of(name: Seq<char>) -> Option<char> {
    if name == "amp"@ {
        Some('&')
    } else if name == "lt"@ {
        Some('<')
    } else if name == "gt"@ {
        Some('>')
    } else if name == "quot"@ {
        Some('"')
    } else if name == "apos"@ || name == "#39"@ {
        Some('\'')
    } else if name == "nbsp"@ {
        Some(' ')
    } else if name == "mdash"@ {
        Some('\u{2014}')
    } else if name == "ndash"@ {
        Some('\u{2013}')
    } else if name == "hellip"@ {
        Some('\u{2026}')
    } else if name == "copy"@ {
        Some('\u{a9}')
    } else if name == "reg"@ {
        Some('\u{ae}')
    } else if name == "trade"@ {
        Some('\u{2122}')
    } else {
        numeric_entity_of(name)
    }
}

/// The code point the HTML standard's named character references give the
/// names this decoder knows, `nbsp` aside.
pub open spec fn html_code_point(name: Seq<char>) -> Option<u32> {
    if name == "amp"@ {
        Some(38)
    } else if name == "lt"@ {
        Some(60)
    } else if name == "gt"@ {
        Some(62)
    } else if name == "quot"@ {
        Some(34)
    } else if name == "apos"@ {
        Some(39)
    } else if name == "mdash"@ {
        Some(8212)
    } else if name == "ndash"@ {
        Some(8211)
    } else if name == "hellip"@ {
        Some(8230)
    } else if name == "copy"@ {
        Some(169)
    } else if name == "reg"@ {
        Some(174)
    } else if name == "trade"@ {
        Some(8482)
    } else {
        None
    }
}

/// A named entity the decoder knows stands for the character the HTML
/// standard assigns to that name; `&nbsp;` is read as a plain space, so
/// that text keeps wrapping at it. A name that is not numeric and not in
/// the table stands for nothing.
pub proof fn law_named_entities_are_the_standard_characters(name: Seq<char>)
    requires
        name.len() == 0 || name[0] != '#',
    ensures
        name == "nbsp"@ ==> entity_of(name) == Some(' '),
        name != "nbsp"@ ==> match html_code_point(name) {
            Some(cp) => entity_of(name) matches Some(c) && c as u32 == cp,
            None => entity_of(name) is None,
        },
{
    reveal_strlit("amp");
    reveal_strlit("lt");
    reveal_strlit("gt");
    reveal_strlit("quot");
    reveal_strlit("apos");
    reveal_strlit("#39");
    reveal_strlit("nbsp");
    reveal_strlit("mdash");
    reveal_strlit("ndash");
    reveal_strlit("hellip");
    reveal_strlit("copy");
    reveal_strlit("reg");
    reveal_strlit("trade");
    if name == "#39"@ {
        assert(name[0] == '#');
    }
}

/// Where the `;` closing an entity that starts at `s[0]` is: among the first
/// twelve characters, or nowhere.
pub open spec fn semicolon(s: Seq<char>) -> Option<int> {
    let n = if s.len() < 12 { s.len() as int } else { 12 };
    let k = crate::text::index_of(s.take(n), ';');
    if k < n {
        Some(k)
    } else {
        None
    }
}

/// `s` with the entities people write by hand decoded. An `&` that does not
/// begin a known entity stays as it is.
pub open spec fn decoded(s: Seq<char>) -> Seq<char>
    decreases s.len(),
{
    if s.len() == 0 {
        Seq::empty()
    } else if s[0] != '&' {
        seq![s[0]] + decoded(s.drop_first())
    } else {
        match semicolon(s) {
            Some(end) => match entity_of(s.subrange(1, end)) {
                Some(c) => if 1 <= end < s.len() {
                    seq![c] + decoded(s.subrange(end + 1, s.len() as int))
                } else {
                    seq!['&'] + decoded(s.drop_first())
                },
                None => seq!['&'] + decoded(s.drop_first()),
            },
            None => seq!['&'] + decoded(s.drop_first()),
        }
    }
}

/// Text with no `&` in it decodes to itself.
pub proof fn law_text_without_ampersand_is_kept(s: Seq<char>)
    requires
        !s.contains('&'),
    ensures
        decoded(s) == s,
    decreases s.len(),
{
    if s.len() > 0 {
        assert(s[0] != '&');
        assert(!s.drop_first().contains('&')) by {
            if s.drop_first().contains('&') {
                let j = choose|j: int| 0 <= j < s.drop_first().len() && s.drop_first()[j] == '&';
                assert(s[j + 1] == '&');
            }
        }
        law_text_without_ampersand_is_kept(s.drop_first());
        assert(seq![s[0]] + s.drop_first() =~= s);
    }
}


/// `char::from_u32`.
///
/// Trusted: per the standard library's documentation, `char::from_u32`
/// returns the character with code point `v` when `v` is a Unicode scalar
/// value (at most `0x10FFFF` and not a surrogate) and `None` otherwise.
#[verifier::external_body]
fn char_from_u32(v: u32) -> (r: Option<char>)
    ensures
        r == char_of(v),
{
    char::from_u32(v)
}

fn digit_of(c: char, radix: u32) -> (r: Option<u32>)
    requires
        radix == 10 || radix == 16,
    ensures
        match r {
            Some(d) => digit_value(c, radix as nat) == Some(d as nat) && d < radix,
            None => digit_value(c, radix as nat) is None,
        },
{
    if '0' <= c && c <= '9' {
        Some(c as u32 - '0' as u32)
    } else if radix == 16 && 'a' <= c && c <= 'f' {
        Some(c as u32 - 'a' as u32 + 10)
    } else if radix == 16 && 'A' <= c && c <= 'F' {
        Some(c as u32 - 'A' as u32 + 10)
    } else {
        None
    }
}

/// A character that is not a digit anywhere in `d` leaves it without a value.
pub(crate) proof fn lemma_digits_none(d: Seq<char>, k: int, radix: nat)
    requires
        0 <= k < d.len(),
        digit_value(d[k], radix) is None,
    ensures
        digits_value(d, radix) is None,
    decreases d.len(),
{
    if k < d.len() - 1 {
        lemma_digits_none(d.drop_last(), k, radix);
    }
}

/// A prefix of `d` worth more than `bound` leaves `d` worth more too.
pub(crate) proof fn lemma_digits_grow(d: Seq<char>, k: int, radix: nat, bound: nat)
    requires
        0 <= k < d.len(),
        radix >= 1,
        digits_value(d.take(k + 1), radix) matches Some(v) && v > bound,
    ensures
        !(digits_value(d, radix) matches Some(w) && w <= bound),
    decreases d.len(),
{
    if k < d.len() - 1 {
        assert(d.drop_last().take(k + 1) =~= d.take(k + 1));
        lemma_digits_grow(d.drop_last(), k, radix, bound);
        match (digits_value(d.drop_last(), radix), digit_value(d.last(), radix)) {
            (Some(a), Some(b)) => {
                assert(a * radix + b >= a) by (nonlinear_arith)
                    requires
                        radix >= 1,
                        b >= 0,
                ;
            },
            _ => {},
        }
    } else {
        assert(d.take(k + 1) =~= d);
    }
}

/// `u32::from_str_radix` on `v[lo..hi]`.
pub(crate) fn parse_u32_at(v: &Vec<char>, lo: usize, hi: usize, radix: u32) -> (r: Option<u32>)
    requires
        lo <= hi <= v@.len(),
        radix == 10 || radix == 16,
    ensures
        r == parse_u32(v@.subrange(lo as int, hi as int), radix as nat),
{
    let ghost s = v@.subrange(lo as int, hi as int);
    let start = if lo < hi && v[lo] == '+' { lo + 1 } else { lo };
    let ghost d = v@.subrange(start as int, hi as int);
    proof {
        if lo < hi && v@[lo as int] == '+' {
            assert(d =~= s.drop_first());
        } else {
            assert(d =~= s);
        }
    }
    if start == hi {
        return None;
    }
    let mut acc: u32 = 0;
    let mut i = start;
    while i < hi
        invariant
            lo <= start <= i <= hi <= v@.len(),
            d == v@.subrange(start as int, hi as int),
            s == v@.subrange(lo as int, hi as int),
            d == (if s.len() >= 1 && s[0] == '+' { s.drop_first() } else { s }),
            d.len() > 0,
            radix == 10 || radix == 16,
            digits_value(d.take(i - start), radix as nat) == Some(acc as nat),
        decreases hi - i,
    {
        let c = v[i];
        proof {
            assert(d.take(i - start + 1).drop_last() =~= d.take(i - start));
            assert(d.take(i - start + 1).last() == c);
        }
        match digit_of(c, radix) {
            None => {
                proof {
                    lemma_digits_none(d, i - start, radix as nat);
                }
                return None;
            },
            Some(x) => {
                let grown = acc.checked_mul(radix);
                let grown = match grown {
                    Some(g) => g.checked_add(x),
                    None => None,
                };
                match grown {
                    Some(g) => {
                        acc = g;
                    },
                    None => {
                        proof {
                            assert(acc * radix + x > u32::MAX) by (nonlinear_arith)
                                requires
                                    acc * radix > u32::MAX || acc * radix + x > u32::MAX,
                                    x >= 0,
                            ;
                            lemma_digits_grow(d, i - start, radix as nat, u32::MAX as nat);
                        }
                        return None;
                    },
                }
            },
        }
        i = i + 1;
    }
    proof {
        assert(d.take(i - start) =~= d);
    }
    Some(acc)
}

/// What `&name;` decodes to, for `name = v[lo..hi]`.
fn entity_at(v: &Vec<char>, lo: usize, hi: usize) -> (r: Option<char>)
    requires
        lo <= hi <= v@.len(),
    ensures
        r == entity_of(v@.subrange(lo as int, hi as int)),
{
    if eq_at(v, lo, hi, "amp") {
        Some('&')
    } else if eq_at(v, lo, hi, "lt") {
        Some('<')
    } else if eq_at(v, lo, hi, "gt") {
        Some('>')
    } else if eq_at(v, lo, hi, "quot") {
        Some('"')
    } else if eq_at(v, lo, hi, "apos") || eq_at(v, lo, hi, "#39") {
        Some('\'')
    } else if eq_at(v, lo, hi, "nbsp") {
        Some(' ')
    } else if eq_at(v, lo, hi, "mdash") {
        Some('\u{2014}')
    } else if eq_at(v, lo, hi, "ndash") {
        Some('\u{2013}')
    } else if eq_at(v, lo, hi, "hellip") {
        Some('\u{2026}')
    } else if eq_at(v, lo, hi, "copy") {
        Some('\u{a9}')
    } else if eq_at(v, lo, hi, "reg") {
        Some('\u{ae}')
    } else if eq_at(v, lo, hi, "trade") {
        Some('\u{2122}')
    } else {
        numeric_entity(v, lo, hi)
    }
}

/// `&#65;` and `&#x41;`, for `name = v[lo..hi]`.
fn numeric_entity(v: &Vec<char>, lo: usize, hi: usize) -> (r: Option<char>)
    requires
        lo <= hi <= v@.len(),
    ensures
        r == numeric_entity_of(v@.subrange(lo as int, hi as int)),
{
    let ghost name = v@.subrange(lo as int, hi as int);
    if lo >= hi || v[lo] != '#' {
        return None;
    }
    let d = lo + 1;
    proof {
        assert(name.drop_first() =~= v@.subrange(d as int, hi as int));
    }
    let code = if d < hi && (v[d] == 'x' || v[d] == 'X') {
        proof {
            assert(name.drop_first().drop_first() =~= v@.subrange(d + 1, hi as int));
        }
        parse_u32_at(v, d + 1, hi, 16)
    } else {
        parse_u32_at(v, d, hi, 10)
    };
    match code {
        Some(c) => char_from_u32(c),
        None => None,
    }
}

/// Decode `v[lo..hi]`.
fn decode_range(v: &Vec<char>, lo: usize, hi: usize) -> (r: String)
    requires
        lo <= hi <= v@.len(),
    ensures
        r@ == decoded(v@.subrange(lo as int, hi as int)),
{
    let mut out = String::new();
    let mut i = lo;
    while i < hi
        invariant
            lo <= i <= hi <= v@.len(),
            out@ + decoded(v@.subrange(i as int, hi as int)) == decoded(
                v@.subrange(lo as int, hi as int),
            ),
        decreases hi - i,
    {
        let ghost s = v@.subrange(i as int, hi as int);
        let ghost prev = out@;
        let c = v[i];
        proof {
            assert(s.drop_first() =~= v@.subrange(i + 1, hi as int));
        }
        if c != '&' {
            push_char(&mut out, c);
            proof {
                let d = decoded(v@.subrange(i + 1, hi as int));
                assert(prev.push(c) + d =~= prev + (seq![c] + d));
            }
            i = i + 1;
        } else {
            // Look for the `;` among the next eleven characters.
            let limit = if hi - i < 12 { hi } else { i + 12 };
            let semi = crate::text::find_char(v, i, limit, ';');
            proof {
                assert(v@.subrange(i as int, limit as int) =~= s.take(limit - i));
                crate::text::lemma_find_first(s.take(limit - i), crate::text::is_char(';'));
            }
            let mut decoded_one = false;
            if semi < limit {
                proof {
                    assert(s.take(limit - i)[0] == '&');
                    assert(semi > i);
                    assert(s.subrange(1, semi - i) =~= v@.subrange(i + 1, semi as int));
                }
                let e = entity_at(v, i + 1, semi);
                if let Some(ch) = e {
                    push_char(&mut out, ch);
                    proof {
                        assert(s.subrange(semi - i + 1, s.len() as int) =~= v@.subrange(
                            semi + 1,
                            hi as int,
                        ));
                        let d = decoded(v@.subrange(semi + 1, hi as int));
                        assert(prev.push(ch) + d =~= prev + (seq![ch] + d));
                    }
                    i = semi + 1;
                    decoded_one = true;
                }
            }
            if !decoded_one {
                push_char(&mut out, '&');
                proof {
                    let d = decoded(v@.subrange(i + 1, hi as int));
                    assert(prev.push('&') + d =~= prev + (seq!['&'] + d));
                }
                i = i + 1;
            }
        }
    }
    proof {
        assert(v@.subrange(hi as int, hi as int) =~= Seq::<char>::empty());
        assert(out@ + Seq::<char>::empty() =~= out@);
    }
    out
}

/// Decode the entities people actually write by hand: the named ones in
/// common use and numeric ones in decimal or hex. Anything else, including a
/// lone `&`, is left as written.
pub fn decode_entities(text: &str) -> (r: String)
    ensures
        r@ == decoded(text@),
{
    let v = chars_of(text);
    proof {
        assert(v@.subrange(0, v@.len() as int) =~= v@);
    }
    decode_range(&v, 0, v.len())
}

} // verus!

verus! {

// ---------------------------------------------------------------------------
// The tokenizer, as a function of the input and a position in it
// ---------------------------------------------------------------------------

/// The end of the run of characters satisfying `f` that starts at `p`: the
/// first position at or after `p` holding a character that fails `f`, or `p`
/// itself when `p` is already past the end.
pub open spec fn run_end(s: Seq<char>, p: int, f: spec_fn(char) -> bool) -> int
    decreases s.len() - p,
{
    if p < 0 || p >= s.len() {
        p
    } else if !f(s[p]) {
        p
    } else {
        run_end(s, p + 1, f)
    }
}

pub proof fn lemma_run_end(s: Seq<char>, p: int, f: spec_fn(char) -> bool)
    requires
        0 <= p <= s.len(),
    ensures
        p <= run_end(s, p, f) <= s.len(),
        run_end(s, p, f) < s.len() ==> !f(s[run_end(s, p, f)]),
        forall|j: int| p <= j < run_end(s, p, f) ==> f(#[trigger] s[j]),
    decreases s.len() - p,
{
    if p < s.len() && f(s[p]) {
        lemma_run_end(s, p + 1, f);
    }
}

pub proof fn lemma_run_end_unique(s: Seq<char>, p: int, f: spec_fn(char) -> bool, k: int)
    requires
        0 <= p <= k <= s.len(),
        k < s.len() ==> !f(s[k]),
        forall|j: int| p <= j < k ==> f(#[trigger] s[j]),
    ensures
        run_end(s, p, f) == k,
    decreases k - p,
{
    if p < k {
        assert(f(s[p]));
        lemma_run_end_unique(s, p + 1, f, k);
    }
}

/// Characters of a tag or attribute name.
pub open spec fn name_char() -> spec_fn(char) -> bool {
    |c: char| is_ascii_alnum(c) || c == '-' || c == ':'
}

/// ASCII whitespace.
pub open spec fn ws_char() -> spec_fn(char) -> bool {
    |c: char| is_ascii_ws(c)
}

/// Anything but `<`: the characters of a run of text.
pub open spec fn text_char() -> spec_fn(char) -> bool {
    |c: char| c != '<'
}

/// The characters of an unquoted attribute value.
pub open spec fn bare_char() -> spec_fn(char) -> bool {
    |c: char| !is_ascii_ws(c) && c != '>'
}

/// Anything but the quote `q`.
pub open spec fn not_char(q: char) -> spec_fn(char) -> bool {
    |c: char| c != q
}

/// Whether `w` occurs in `s` at `p`.
pub open spec fn occurs_at(s: Seq<char>, p: int, w: Seq<char>) -> bool {
    0 <= p && p + w.len() <= s.len() && s.subrange(p, p + w.len()) == w
}

/// Whether the text from `p` on begins with `w` (never, past the end).
pub open spec fn starts_at(s: Seq<char>, p: int, w: Seq<char>) -> bool {
    0 <= p <= s.len() && starts_with(s.subrange(p, s.len() as int), w)
}

/// The first occurrence of `w` at or after `p`.
pub open spec fn find_from(s: Seq<char>, p: int, w: Seq<char>) -> Option<int>
    decreases s.len() + 1 - p,
{
    if p < 0 || p + w.len() > s.len() {
        None
    } else if occurs_at(s, p, w) {
        Some(p)
    } else {
        find_from(s, p + 1, w)
    }
}

/// The position just past the next `w` from `p` on, or the end of the text.
pub open spec fn skip_to(s: Seq<char>, p: int, w: Seq<char>) -> int {
    let from = if p < s.len() { p } else { s.len() as int };
    match find_from(s, from, w) {
        Some(i) => i + w.len(),
        None => s.len() as int,
    }
}

/// Reads an attribute value at `p`: the value, and where reading stopped.
pub open spec fn read_value(s: Seq<char>, p: int) -> (Seq<char>, int) {
    if 0 <= p < s.len() && (s[p] == '"' || s[p] == '\'') {
        let e = run_end(s, p + 1, not_char(s[p]));
        (decoded(s.subrange(p + 1, e)), e + 1)
    } else {
        let e = run_end(s, p, bare_char());
        (decoded(s.subrange(p, e)), e)
    }
}

/// Reads attributes from `p` on, appending them to `acc`, until the end of
/// the tag: the attributes and where reading stopped.
pub open spec fn read_attrs(s: Seq<char>, p: int, acc: Seq<(Seq<char>, Seq<char>)>) -> (
    Seq<(Seq<char>, Seq<char>)>,
    int,
)
    decreases s.len() + 2 - p,
{
    if p < 0 || p > s.len() + 1 {
        (acc, p)
    } else {
        let p1 = run_end(s, p, ws_char());
        proof {
            if p <= s.len() {
                lemma_run_end(s, p, ws_char());
            }
        }
        if p1 >= s.len() || s[p1] == '>' || starts_at(s, p1, "/>"@) {
            (acc, p1)
        } else {
            let n = run_end(s, p1, name_char());
            if n <= p1 {
                read_attrs(s, p1 + 1, acc)
            } else {
                let name = lower_seq(s.subrange(p1, n));
                let p2 = run_end(s, n, ws_char());
                if p2 < s.len() && s[p2] == '=' {
                    let p3 = run_end(s, p2 + 1, ws_char());
                    let (val, p4) = read_value(s, p3);
                    if p < p4 <= s.len() + 1 {
                        read_attrs(s, p4, acc.push((name, val)))
                    } else {
                        (acc, p)
                    }
                } else if p < p2 <= s.len() + 1 {
                    read_attrs(s, p2, acc.push((name, Seq::empty())))
                } else {
                    (acc, p)
                }
            }
        }
    }
}

/// A token of the input.
pub enum Tok {
    Text(Seq<char>),
    Open(Seq<char>, Seq<(Seq<char>, Seq<char>)>, bool),
    Close(Seq<char>),
    /// A comment, doctype or processing instruction: read and dropped.
    Skip,
}

/// The token at `p`, and where the next one starts; `None` at the end.
pub open spec fn next_tok(s: Seq<char>, p: int) -> Option<(Tok, int)> {
    if p < 0 || p >= s.len() {
        None
    } else if s[p] != '<' {
        let e = run_end(s, p, text_char());
        Some((Tok::Text(decoded(s.subrange(p, e))), e))
    } else if starts_at(s, p, "<!--"@) {
        Some((Tok::Skip, skip_to(s, p, "-->"@)))
    } else if starts_at(s, p, "<!"@) || starts_at(s, p, "<?"@) {
        Some((Tok::Skip, skip_to(s, p, ">"@)))
    } else if starts_at(s, p, "</"@) {
        let n = run_end(s, p + 2, name_char());
        Some((Tok::Close(lower_seq(s.subrange(p + 2, n))), skip_to(s, n, ">"@)))
    } else if !(p + 1 < s.len() && is_ascii_alpha(s[p + 1])) {
        // A `<` that does not begin a tag is just text.
        Some((Tok::Text(seq!['<']), p + 1))
    } else {
        let n = run_end(s, p + 1, name_char());
        let (attrs, q) = read_attrs(s, n, Seq::empty());
        Some((Tok::Open(lower_seq(s.subrange(p + 1, n)), attrs, starts_at(s, q, "/>"@)), skip_to(s, q, ">"@)))
    }
}

/// Where the contents of a raw-text element opened just before `p` end: past
/// the `>` of the first `</tag` from `p` on, matched without regard to case.
pub open spec fn skip_raw(s: Seq<char>, p: int, tag: Seq<char>) -> int {
    let from = if p < s.len() { p } else { s.len() as int };
    match find_from(lower_seq(s.subrange(from, s.len() as int)), 0, "</"@ + tag) {
        Some(at) => skip_to(s, from + at, ">"@),
        None => s.len() as int,
    }
}

// ---------------------------------------------------------------------------
// Building the tree from the tokens
// ---------------------------------------------------------------------------

/// Adds `n` as the last child of the innermost open element, or as a root.
pub open spec fn push_node(stack: Seq<ElemV>, roots: Seq<NodeV>, n: NodeV) -> (Seq<ElemV>, Seq<NodeV>) {
    if stack.len() == 0 {
        (stack, roots.push(n))
    } else {
        let top = stack.last();
        (
            stack.drop_last().push(ElemV { tag: top.tag, attrs: top.attrs, children: top.children.push(n) }),
            roots,
        )
    }
}

/// Closes open elements, innermost first, until `at` remain.
pub open spec fn close_to(stack: Seq<ElemV>, roots: Seq<NodeV>, at: int) -> (Seq<ElemV>, Seq<NodeV>)
    decreases stack.len(),
{
    if at < 0 || stack.len() <= at {
        (stack, roots)
    } else {
        let (st, r) = push_node(stack.drop_last(), roots, NodeV::Element(stack.last()));
        close_to(st, r, at)
    }
}

/// The innermost open element with this tag.
pub open spec fn last_open(stack: Seq<ElemV>, tag: Seq<char>) -> Option<int>
    decreases stack.len(),
{
    if stack.len() == 0 {
        None
    } else if stack.last().tag == tag {
        Some(stack.len() - 1)
    } else {
        last_open(stack.drop_last(), tag)
    }
}

/// The document from position `p` on, given the elements still open and the
/// roots finished so far. Text goes to the innermost open element; a void or
/// self-closing tag is a childless element; a raw-text element is dropped
/// with its contents; a close tag closes the innermost element it matches,
/// and everything opened inside it, and is ignored when it matches none.
/// Whatever is open at the end is closed there.
pub open spec fn build(s: Seq<char>, p: int, stack: Seq<ElemV>, roots: Seq<NodeV>) -> Seq<NodeV>
    decreases s.len() + 1 - p,
{
    match next_tok(s, p) {
        None => close_to(stack, roots, 0).1,
        Some((t, q)) => if q <= p || q > s.len() {
            roots
        } else {
            match t {
                Tok::Text(x) => if x.len() == 0 {
                    build(s, q, stack, roots)
                } else {
                    let (st, r) = push_node(stack, roots, NodeV::Text(x));
                    build(s, q, st, r)
                },
                Tok::Open(tag, attrs, self_closing) => {
                    let e = ElemV { tag, attrs, children: Seq::empty() };
                    if self_closing || void_tag(tag) {
                        let (st, r) = push_node(stack, roots, NodeV::Element(e));
                        build(s, q, st, r)
                    } else if raw_tag(tag) {
                        let q2 = skip_raw(s, q, tag);
                        if q2 >= q && q2 <= s.len() {
                            build(s, q2, stack, roots)
                        } else {
                            roots
                        }
                    } else {
                        build(s, q, stack.push(e), roots)
                    }
                },
                Tok::Close(tag) => match last_open(stack, tag) {
                    Some(at) => {
                        let (st, r) = close_to(stack, roots, at);
                        build(s, q, st, r)
                    },
                    None => build(s, q, stack, roots),
                },
                Tok::Skip => build(s, q, stack, roots),
            }
        },
    }
}

/// The nodes `html` parses to.
pub open spec fn parsed(html: Seq<char>) -> Seq<NodeV> {
    build(html, 0, Seq::empty(), Seq::empty())
}

} // verus!

verus! {

// ---------------------------------------------------------------------------
// The tokenizer
// ---------------------------------------------------------------------------

fn ascii_alpha(c: char) -> (r: bool)
    ensures
        r == is_ascii_alpha(c),
{
    ('a' <= c && c <= 'z') || ('A' <= c && c <= 'Z')
}

fn name_char_exec(c: char) -> (r: bool)
    ensures
        r == name_char()(c),
{
    ascii_alpha(c) || ('0' <= c && c <= '9') || c == '-' || c == ':'
}

fn ascii_ws(c: char) -> (r: bool)
    ensures
        r == is_ascii_ws(c),
{
    c == ' ' || c == '\t' || c == '\n' || c == '\x0C' || c == '\r'
}

/// End of the run of name characters from `p`.
fn name_end(v: &Vec<char>, p: usize) -> (r: usize)
    requires
        p <= v@.len(),
    ensures
        r == run_end(v@, p as int, name_char()),
        p <= r <= v@.len(),
{
    let mut i = p;
    while i < v.len() && name_char_exec(v[i])
        invariant
            p <= i <= v@.len(),
            forall|j: int| p <= j < i ==> name_char()(#[trigger] v@[j]),
        decreases v.len() - i,
    {
        i = i + 1;
    }
    proof {
        lemma_run_end_unique(v@, p as int, name_char(), i as int);
    }
    i
}

/// End of the run of whitespace from `p`; `p` itself past the end.
fn ws_end(v: &Vec<char>, p: usize) -> (r: usize)
    ensures
        r == run_end(v@, p as int, ws_char()),
        p <= v@.len() ==> p <= r <= v@.len(),
        p > v@.len() ==> r == p,
{
    if p >= v.len() {
        return p;
    }
    let mut i = p;
    while i < v.len() && ascii_ws(v[i])
        invariant
            p <= i <= v@.len(),
            forall|j: int| p <= j < i ==> ws_char()(#[trigger] v@[j]),
        decreases v.len() - i,
    {
        i = i + 1;
    }
    proof {
        lemma_run_end_unique(v@, p as int, ws_char(), i as int);
    }
    i
}

/// End of the run of text from `p`: the next `<`, or the end.
fn text_end(v: &Vec<char>, p: usize) -> (r: usize)
    requires
        p <= v@.len(),
    ensures
        r == run_end(v@, p as int, text_char()),
        p <= r <= v@.len(),
{
    let mut i = p;
    while i < v.len() && v[i] != '<'
        invariant
            p <= i <= v@.len(),
            forall|j: int| p <= j < i ==> text_char()(#[trigger] v@[j]),
        decreases v.len() - i,
    {
        i = i + 1;
    }
    proof {
        lemma_run_end_unique(v@, p as int, text_char(), i as int);
    }
    i
}

/// End of an unquoted attribute value from `p`.
fn bare_end(v: &Vec<char>, p: usize) -> (r: usize)
    requires
        p <= v@.len(),
    ensures
        r == run_end(v@, p as int, bare_char()),
        p <= r <= v@.len(),
{
    let mut i = p;
    while i < v.len() && !ascii_ws(v[i]) && v[i] != '>'
        invariant
            p <= i <= v@.len(),
            forall|j: int| p <= j < i ==> bare_char()(#[trigger] v@[j]),
        decreases v.len() - i,
    {
        i = i + 1;
    }
    proof {
        lemma_run_end_unique(v@, p as int, bare_char(), i as int);
    }
    i
}

/// End of a quoted attribute value from `p`: the next `q`, or the end.
fn quote_end(v: &Vec<char>, p: usize, q: char) -> (r: usize)
    requires
        p <= v@.len(),
    ensures
        r == run_end(v@, p as int, not_char(q)),
        p <= r <= v@.len(),
{
    let mut i = p;
    while i < v.len() && v[i] != q
        invariant
            p <= i <= v@.len(),
            forall|j: int| p <= j < i ==> not_char(q)(#[trigger] v@[j]),
        decreases v.len() - i,
    {
        i = i + 1;
    }
    proof {
        lemma_run_end_unique(v@, p as int, not_char(q), i as int);
    }
    i
}

/// Whether the text from `p` on begins with `w`.
fn starts_at_exec(v: &Vec<char>, p: usize, w: &str) -> (r: bool)
    ensures
        r == starts_at(v@, p as int, w@),
{
    if p > v.len() {
        return false;
    }
    let wv = lit(w);
    has_at(v, p, v.len(), &wv)
}

/// The first occurrence of `w` in `v` at or after `p`.
fn find_at(v: &Vec<char>, p: usize, w: &Vec<char>) -> (r: Option<usize>)
    requires
        p <= v@.len(),
    ensures
        match r {
            Some(i) => find_from(v@, p as int, w@) == Some(i as int) && p <= i && i + w@.len() <= v@.len(),
            None => find_from(v@, p as int, w@) is None,
        },
{
    if w.len() == 0 {
        proof {
            assert(v@.subrange(p as int, p as int) =~= w@);
        }
        return Some(p);
    }
    let mut i = p;
    while i < v.len() && w.len() <= v.len() - i
        invariant
            p <= i <= v@.len(),
            w@.len() > 0,
            find_from(v@, p as int, w@) == find_from(v@, i as int, w@),
        decreases v@.len() - i,
    {
        if has_at(v, i, v.len(), w) {
            proof {
                assert(v@.subrange(i as int, v@.len() as int).take(w@.len() as int) =~= v@.subrange(
                    i as int,
                    i + w@.len(),
                ));
            }
            return Some(i);
        }
        proof {
            assert(v@.subrange(i as int, v@.len() as int).take(w@.len() as int) =~= v@.subrange(
                i as int,
                i + w@.len(),
            ));
        }
        i = i + 1;
    }
    None
}

/// The position just past the next `w` from `p` on, or the end.
fn skip_to_exec(v: &Vec<char>, p: usize, w: &str) -> (r: usize)
    ensures
        r == skip_to(v@, p as int, w@),
        r <= v@.len(),
        w@.len() > 0 && p < v@.len() ==> r > p,
{
    let from = if p < v.len() { p } else { v.len() };
    let wv = lit(w);
    match find_at(v, from, &wv) {
        Some(i) => i + wv.len(),
        None => v.len(),
    }
}

/// Reads an attribute value at `p`.
fn read_value_exec(v: &Vec<char>, p: usize) -> (r: (String, usize))
    requires
        p <= v@.len() < usize::MAX,
    ensures
        (r.0@, r.1 as int) == read_value(v@, p as int),
        p <= r.1 <= v@.len() + 1,
        p < v@.len() && (v@[p as int] == '"' || v@[p as int] == '\'') ==> r.1 > p,
{
    if p < v.len() && (v[p] == '"' || v[p] == '\'') {
        let q = v[p];
        let e = quote_end(v, p + 1, q);
        (decode_range(v, p + 1, e), e + 1)
    } else {
        let e = bare_end(v, p);
        (decode_range(v, p, e), e)
    }
}

/// The attribute list as character sequences, one pair at a time.
proof fn lemma_attrs_v_push(a: Seq<(String, String)>, x: (String, String))
    ensures
        attrs_v(a.push(x)) == attrs_v(a).push((x.0@, x.1@)),
{
    assert(attrs_v(a.push(x)) =~= attrs_v(a).push((x.0@, x.1@)));
}

/// Reads attributes from `p0` to the end of the tag.
fn read_attrs_exec(v: &Vec<char>, p0: usize) -> (r: (Vec<(String, String)>, usize))
    requires
        p0 <= v@.len() < usize::MAX,
    ensures
        (attrs_v(r.0@), r.1 as int) == read_attrs(v@, p0 as int, Seq::empty()),
        p0 <= r.1 <= v@.len() + 1,
{
    let mut attrs: Vec<(String, String)> = Vec::new();
    let mut p = p0;
    proof {
        assert(attrs_v(attrs@) =~= Seq::<(Seq<char>, Seq<char>)>::empty());
    }
    loop
        invariant
            p0 <= p <= v@.len() + 1,
            v@.len() < usize::MAX,
            read_attrs(v@, p0 as int, Seq::empty()) == read_attrs(v@, p as int, attrs_v(attrs@)),
        decreases v@.len() + 2 - p,
    {
        let p1 = ws_end(v, p);
        if p1 >= v.len() || v[p1] == '>' || starts_at_exec(v, p1, "/>") {
            return (attrs, p1);
        }
        let n = name_end(v, p1);
        if n <= p1 {
            p = p1 + 1;
        } else {
            let name = lower_string(v, p1, n);
            let p2 = ws_end(v, n);
            if p2 < v.len() && v[p2] == '=' {
                let p3 = ws_end(v, p2 + 1);
                let (val, p4) = read_value_exec(v, p3);
                proof {
                    lemma_attrs_v_push(attrs@, (name, val));
                }
                attrs.push((name, val));
                p = p4;
            } else {
                let empty = String::new();
                proof {
                    lemma_attrs_v_push(attrs@, (name, empty));
                }
                attrs.push((name, empty));
                p = p2;
            }
        }
    }
}

/// A token of the input.
enum Token {
    Text(String),
    Open(String, Vec<(String, String)>, bool),
    Close(String),
    Skip,
}

spec fn tok_v(t: Token) -> Tok {
    match t {
        Token::Text(x) => Tok::Text(x@),
        Token::Open(tag, attrs, sc) => Tok::Open(tag@, attrs_v(attrs@), sc),
        Token::Close(tag) => Tok::Close(tag@),
        Token::Skip => Tok::Skip,
    }
}

/// The token at `p` and where the next one starts.
fn next_token(v: &Vec<char>, p: usize) -> (r: Option<(Token, usize)>)
    requires
        p <= v@.len() < usize::MAX,
    ensures
        match r {
            None => next_tok(v@, p as int) is None,
            Some((t, q)) => next_tok(v@, p as int) == Some((tok_v(t), q as int)) && p < q <= v@.len(),
        },
{
    if p >= v.len() {
        return None;
    }
    if v[p] != '<' {
        let e = text_end(v, p);
        proof {
            crate::html::lemma_run_end(v@, p as int, text_char());
            assert(e > p) by {
                if e == p {
                    assert(!text_char()(v@[p as int]));
                }
            }
        }
        return Some((Token::Text(decode_range(v, p, e)), e));
    }
    if starts_at_exec(v, p, "<!--") {
        let q = skip_to_exec(v, p, "-->");
        proof {
            reveal_strlit("-->");
        }
        return Some((Token::Skip, q));
    }
    if starts_at_exec(v, p, "<!") || starts_at_exec(v, p, "<?") {
        let q = skip_to_exec(v, p, ">");
        proof {
            reveal_strlit(">");
        }
        return Some((Token::Skip, q));
    }
    if starts_at_exec(v, p, "</") {
        proof {
            reveal_strlit("</");
            assert(v@.subrange(p as int, v@.len() as int).take(2) == "</"@);
            assert(v@.subrange(p as int, v@.len() as int).len() >= 2);
        }
        let n = name_end(v, p + 2);
        let tag = lower_string(v, p + 2, n);
        let q = skip_to_exec(v, n, ">");
        proof {
            reveal_strlit(">");
        }
        return Some((Token::Close(tag), q));
    }
    if !(p + 1 < v.len() && ascii_alpha(v[p + 1])) {
        let mut t = String::new();
        push_char(&mut t, '<');
        proof {
            assert(t@ =~= seq!['<']);
        }
        return Some((Token::Text(t), p + 1));
    }
    let n = name_end(v, p + 1);
    let tag = lower_string(v, p + 1, n);
    let (attrs, q) = read_attrs_exec(v, n);
    let sc = starts_at_exec(v, q, "/>");
    let q2 = skip_to_exec(v, q, ">");
    proof {
        reveal_strlit(">");
    }
    Some((Token::Open(tag, attrs, sc), q2))
}

/// Where the contents of the raw-text element `tag`, opened just before
/// `p`, end.
fn skip_raw_exec(v: &Vec<char>, p: usize, tag: &String) -> (r: usize)
    requires
        p <= v@.len(),
    ensures
        r == skip_raw(v@, p as int, tag@),
        p <= r <= v@.len(),
{
    let rest = lower_string(v, p, v.len());
    let rest = chars_of(rest.as_str());
    let mut close = lit("</");
    let tv = chars_of(tag.as_str());
    let mut k: usize = 0;
    while k < tv.len()
        invariant
            k <= tv@.len(),
            tv@ == tag@,
            close@ == "</"@ + tv@.take(k as int),
        decreases tv.len() - k,
    {
        close.push(tv[k]);
        k = k + 1;
        proof {
            assert(close@ =~= "</"@ + tv@.take(k as int));
        }
    }
    proof {
        assert(tv@.take(k as int) =~= tv@);
    }
    proof {
        reveal_strlit("</");
        reveal_strlit(">");
        assert(close@.len() >= 2);
        assert(rest@.len() == v@.len() - p);
    }
    match find_at(&rest, 0, &close) {
        Some(at) => skip_to_exec(v, p + at, ">"),
        None => v.len(),
    }
}

} // verus!

verus! {

// ---------------------------------------------------------------------------
// The tree builder
// ---------------------------------------------------------------------------

/// The open elements as character sequences.
pub open spec fn elems_v(s: Seq<Element>) -> Seq<ElemV> {
    Seq::new(s.len(), |i: int| elem_v(s[i]))
}

proof fn lemma_node_v_element(e: Element)
    ensures
        node_v(Node::Element(e)) == NodeV::Element(elem_v(e)),
{
}

/// Adds `node` to the innermost open element, or to the roots.
fn push_node_exec(stack: &mut Vec<Element>, roots: &mut Vec<Node>, node: Node)
    ensures
        (elems_v(final(stack)@), nodes_v(final(roots)@)) == push_node(
            elems_v(old(stack)@),
            nodes_v(old(roots)@),
            node_v(node),
        ),
        final(stack)@.len() == old(stack)@.len(),
{
    let ghost n = node_v(node);
    match stack.pop() {
        None => {
            proof {
                lemma_nodes_v_push(roots@, node);
            }
            roots.push(node);
            proof {
                assert(elems_v(stack@) =~= elems_v(old(stack)@));
            }
        },
        Some(mut top) => {
            let ghost before = top;
            proof {
                lemma_nodes_v_push(top.children@, node);
            }
            top.children.push(node);
            proof {
                assert(elem_v(top) == (ElemV {
                    tag: elem_v(before).tag,
                    attrs: elem_v(before).attrs,
                    children: elem_v(before).children.push(n),
                }));
            }
            stack.push(top);
            proof {
                assert(elems_v(old(stack)@).last() == elem_v(before));
                assert(elems_v(stack@) =~= elems_v(old(stack)@).drop_last().push(elem_v(top)));
            }
        },
    }
}

/// Closes open elements until `at` remain.
fn close_to_exec(stack: &mut Vec<Element>, roots: &mut Vec<Node>, at: usize)
    ensures
        (elems_v(final(stack)@), nodes_v(final(roots)@)) == close_to(
            elems_v(old(stack)@),
            nodes_v(old(roots)@),
            at as int,
        ),
{
    while stack.len() > at
        invariant
            close_to(elems_v(stack@), nodes_v(roots@), at as int) == close_to(
                elems_v(old(stack)@),
                nodes_v(old(roots)@),
                at as int,
            ),
        decreases stack@.len(),
    {
        let ghost sv = elems_v(stack@);
        let ghost rv = nodes_v(roots@);
        let e = stack.pop().unwrap();
        proof {
            assert(elems_v(stack@) =~= sv.drop_last());
            assert(sv.last() == elem_v(e));
            lemma_node_v_element(e);
        }
        push_node_exec(stack, roots, Node::Element(e));
    }
}

/// The innermost open element with this tag.
fn last_open_exec(stack: &Vec<Element>, tag: &String) -> (r: Option<usize>)
    ensures
        match r {
            Some(i) => last_open(elems_v(stack@), tag@) == Some(i as int) && i < stack@.len(),
            None => last_open(elems_v(stack@), tag@) is None,
        },
{
    let mut k = stack.len();
    proof {
        assert(stack@.take(k as int) =~= stack@);
    }
    while k > 0
        invariant
            k <= stack@.len(),
            last_open(elems_v(stack@), tag@) == last_open(elems_v(stack@.take(k as int)), tag@),
        decreases k,
    {
        proof {
            assert(elems_v(stack@.take(k as int)).drop_last() =~= elems_v(stack@.take(k - 1)));
            assert(elems_v(stack@.take(k as int)).last() == elem_v(stack@[k - 1]));
        }
        if stack[k - 1].tag == *tag {
            return Some(k - 1);
        }
        k = k - 1;
    }
    proof {
        assert(elems_v(stack@.take(0)) =~= Seq::<ElemV>::empty());
    }
    None
}

/// Parses `html` into a forest of nodes.
///
/// Text between tags becomes a text node, with entities decoded. Tag and
/// attribute names are lowercased; an attribute without a value has an empty
/// one. Void elements (`br`, `img`, ...) and `<x/>` never take children.
/// Comments, doctypes and processing instructions are dropped, and so are
/// `script` and `style` with everything in them. A close tag closes the
/// innermost open element with its name, and whatever was left open inside
/// it; one that matches nothing is ignored; whatever is still open at the end
/// is closed there.
pub fn parse(html: &str) -> (r: Vec<Node>)
    requires
        html@.len() < usize::MAX,
    ensures
        nodes_v(r@) == parsed(html@),
{
    let v = chars_of(html);
    let mut stack: Vec<Element> = Vec::new();
    let mut roots: Vec<Node> = Vec::new();
    let mut p: usize = 0;
    proof {
        assert(elems_v(stack@) =~= Seq::<ElemV>::empty());
        assert(nodes_v(roots@) =~= Seq::<NodeV>::empty());
    }
    loop
        invariant
            v@ == html@,
            v@.len() < usize::MAX,
            p <= v@.len(),
            build(v@, p as int, elems_v(stack@), nodes_v(roots@)) == parsed(html@),
        decreases v@.len() - p,
    {
        match next_token(&v, p) {
            None => {
                close_to_exec(&mut stack, &mut roots, 0);
                return roots;
            },
            Some((token, q)) => {
                match token {
                    Token::Text(text) => {
                        if !text.as_str().is_empty() {
                            push_node_exec(&mut stack, &mut roots, Node::Text(text));
                        }
                        p = q;
                    },
                    Token::Open(tag, attrs, self_closing) => {
                        let tv = chars_of(tag.as_str());
                        let element = Element { tag, attrs, children: Vec::new() };
                        proof {
                            assert(nodes_v(element.children@) =~= Seq::<NodeV>::empty());
                        }
                        if self_closing || is_void_chars(&tv) {
                            proof {
                                lemma_node_v_element(element);
                            }
                            push_node_exec(&mut stack, &mut roots, Node::Element(element));
                            p = q;
                        } else if is_raw_chars(&tv) {
                            // Consumed and discarded: a stylesheet is not document text.
                            p = skip_raw_exec(&v, q, &element.tag);
                        } else {
                            let ghost sv = elems_v(stack@);
                            stack.push(element);
                            proof {
                                assert(elems_v(stack@) =~= sv.push(elem_v(element)));
                            }
                            p = q;
                        }
                    },
                    Token::Close(tag) => {
                        match last_open_exec(&stack, &tag) {
                            Some(at) => {
                                close_to_exec(&mut stack, &mut roots, at);
                            },
                            None => {},
                        }
                        p = q;
                    },
                    Token::Skip => {
                        p = q;
                    },
                }
            },
        }
    }
}

// ---------------------------------------------------------------------------
// Reading the tree
// ---------------------------------------------------------------------------

/// The value of the first attribute called `name`.
pub open spec fn attr_of(attrs: Seq<(Seq<char>, Seq<char>)>, name: Seq<char>) -> Option<Seq<char>>
    decreases attrs.len(),
{
    if attrs.len() == 0 {
        None
    } else if attrs[0].0 == name {
        Some(attrs[0].1)
    } else {
        attr_of(attrs.drop_first(), name)
    }
}

impl Element {
    /// The value of the attribute `name`, if the element has one.
    pub fn attr(&self, name: &str) -> (r: Option<&str>)
        ensures
            match r {
                Some(v) => attr_of(attrs_v(self.attrs@), name@) == Some(v@),
                None => attr_of(attrs_v(self.attrs@), name@) is None,
            },
    {
        let ghost a = attrs_v(self.attrs@);
        let mut i: usize = 0;
        proof {
            assert(a.subrange(0, a.len() as int) =~= a);
        }
        while i < self.attrs.len()
            invariant
                i <= self.attrs@.len(),
                a == attrs_v(self.attrs@),
                attr_of(a, name@) == attr_of(a.subrange(i as int, a.len() as int), name@),
            decreases self.attrs.len() - i,
        {
            let ghost rest = a.subrange(i as int, a.len() as int);
            proof {
                assert(rest[0] == a[i as int]);
                assert(rest.drop_first() =~= a.subrange(i + 1, a.len() as int));
            }
            if crate::text::str_eq(self.attrs[i].0.as_str(), name) {
                return Some(self.attrs[i].1.as_str());
            }
            i = i + 1;
        }
        None
    }

    /// All text below this element, with markup removed.
    pub fn text(&self) -> (r: String)
        ensures
            r@ == nodes_text(elem_v(*self).children),
    {
        let mut out = String::new();
        collect_text(&self.children, &mut out);
        proof {
            assert(Seq::<char>::empty() + nodes_text(nodes_v(self.children@)) =~= nodes_text(
                nodes_v(self.children@),
            ));
        }
        out
    }
}

/// Appends the text of `nodes` to `out`.
fn collect_text(nodes: &Vec<Node>, out: &mut String)
    ensures
        final(out)@ == old(out)@ + nodes_text(nodes_v(nodes@)),
    decreases nodes,
{
    let mut i: usize = 0;
    while i < nodes.len()
        invariant
            i <= nodes@.len(),
            out@ == old(out)@ + nodes_text(nodes_v(nodes@.take(i as int))),
        decreases nodes.len() - i,
    {
        let ghost before = out@;
        proof {
            assert(nodes@.take(i + 1) =~= nodes@.take(i as int).push(nodes@[i as int]));
            lemma_nodes_v_push(nodes@.take(i as int), nodes@[i as int]);
            let x = nodes_v(nodes@.take(i as int));
            let y = node_v(nodes@[i as int]);
            assert(x.push(y).drop_last() =~= x);
            assert(nodes_text(x.push(y)) == nodes_text(x) + node_text(y));
        }
        match &nodes[i] {
            Node::Text(t) => {
                crate::text::push_str(out, t.as_str());
            },
            Node::Element(e) => {
                proof {
                    assert(decreases_to!(nodes => nodes@[i as int]));
                }
                collect_text(&e.children, out);
            },
        }
        proof {
            assert(out@ =~= old(out)@ + nodes_text(nodes_v(nodes@.take(i + 1))));
        }
        i = i + 1;
    }
    proof {
        assert(nodes@.take(i as int) =~= nodes@);
    }
}

} // verus!
