//! Display-width measurement.
//!
//! Everything that positions text (wrapping, table columns, horizontal
//! scrolling, diagrams) measures through [`WidthCalc`] and never through byte
//! or character counts.
//!
//! The East Asian Ambiguous class is configurable because whether `─` or `→`
//! occupies one column or two is a property of the terminal, not of the text.

use vstd::prelude::*;
use unicode_width::UnicodeWidthChar;
use crate::text::{push_char, push_spaces, chars_of, string_of};

verus! {

/// Columns a hard tab advances to.
pub const TAB_STOP: usize = 4;

/// What `unicode_width::UnicodeWidthChar::width` returns for `c`.
pub uninterp spec fn uw_width(c: char) -> Option<usize>;

/// What `unicode_width::UnicodeWidthChar::width_cjk` returns for `c`.
pub uninterp spec fn uw_width_cjk(c: char) -> Option<usize>;

/// Whether `c` is one of the control characters `unicode-width` gives no width.
pub open spec fn is_control(c: char) -> bool {
    (c as u32) < 0x20 || (0x7f <= (c as u32) && (c as u32) < 0xa0)
}

/// `UnicodeWidthChar::width`. Trusted: printable ASCII is one column, the C0
/// and C1 control characters have no width (`None`), and every other
/// character has a width of at most three columns, looked up in the crate's
/// tables (which are not restated here).
#[verifier::external_body]
fn char_width_narrow(c: char) -> (r: Option<usize>)
    ensures
        r == uw_width(c),
        0x20 <= (c as u32) < 0x7f ==> r == Some(1usize),
        is_control(c) <==> r is None,
        r matches Some(w) ==> w <= 3,
{
    UnicodeWidthChar::width(c)
}

/// `UnicodeWidthChar::width_cjk`, the same with East Asian Ambiguous
/// characters treated as wide. Trusted as [`char_width_narrow`] is.
#[verifier::external_body]
fn char_width_cjk(c: char) -> (r: Option<usize>)
    ensures
        r == uw_width_cjk(c),
        0x20 <= (c as u32) < 0x7f ==> r == Some(1usize),
        is_control(c) <==> r is None,
        r matches Some(w) ==> w <= 3,
{
    UnicodeWidthChar::width_cjk(c)
}

#[derive(Debug, Clone, Copy, PartialEq, Eq, Default)]
pub struct WidthCalc {
    /// Treat East Asian Ambiguous characters as two columns wide.
    pub ambiguous_wide: bool,
}

/// `n` spaces.
pub open spec fn spaces(n: nat) -> Seq<char> {
    Seq::new(n, |_i: int| ' ')
}

impl WidthCalc {
    /// Columns occupied by `c`; control characters occupy none.
    pub open spec fn col(self, c: char) -> nat {
        let w = if self.ambiguous_wide { uw_width_cjk(c) } else { uw_width(c) };
        match w {
            Some(w) => w as nat,
            None => 0,
        }
    }

    /// Columns occupied by a character sequence: the sum of its characters.
    pub open spec fn cols(self, s: Seq<char>) -> nat
        decreases s.len(),
    {
        if s.len() == 0 {
            0
        } else {
            self.cols(s.drop_last()) + self.col(s.last())
        }
    }

    /// The characters of `s` visible in the column window `[start, end)`,
    /// walking from column `at`: a character wholly inside is kept, and a
    /// part of one cut by either edge becomes that many spaces.
    pub open spec fn window(self, s: Seq<char>, at: nat, start: nat, end: nat) -> Seq<char>
        decreases s.len(),
    {
        if s.len() == 0 || at >= end {
            Seq::empty()
        } else {
            let next = at + self.col(s[0]);
            let piece = if next <= start {
                Seq::empty()
            } else if at < start {
                spaces(((if next < end { next } else { end }) - start) as nat)
            } else if next > end {
                spaces((end - at) as nat)
            } else {
                seq![s[0]]
            };
            piece + self.window(s.drop_first(), next, start, end)
        }
    }

    pub fn new(ambiguous_wide: bool) -> (r: WidthCalc)
        ensures
            r.ambiguous_wide == ambiguous_wide,
    {
        WidthCalc { ambiguous_wide }
    }

    /// Columns occupied by a single character. Control characters measure 0.
    pub fn ch(&self, c: char) -> (r: usize)
        ensures
            r == self.col(c),
            r <= 3,
            0x20 <= (c as u32) < 0x7f ==> r == 1,
    {
        let w = if self.ambiguous_wide {
            char_width_cjk(c)
        } else {
            char_width_narrow(c)
        };
        match w {
            Some(w) => w,
            None => 0,
        }
    }

    /// Columns occupied by `s`, saturating at `usize::MAX`.
    pub fn str(&self, s: &str) -> (r: usize)
        ensures
            r == min_usize(self.cols(s@)),
    {
        let v = chars_of(s);
        self.chars_width(&v)
    }

    /// Columns occupied by a character vector, saturating at `usize::MAX`.
    pub fn chars_width(&self, s: &Vec<char>) -> (r: usize)
        ensures
            r == min_usize(self.cols(s@)),
    {
        let mut total: usize = 0;
        let mut i: usize = 0;
        while i < s.len()
            invariant
                i <= s.len(),
                total == min_usize(self.cols(s@.take(i as int))),
            decreases s.len() - i,
        {
            proof {
                assert(s@.take(i + 1).drop_last() =~= s@.take(i as int));
            }
            total = total.saturating_add(self.ch(s[i]));
            i = i + 1;
        }
        proof {
            assert(s@.take(i as int) =~= s@);
        }
        total
    }

    /// Whether the character straddles two columns.
    pub fn is_wide(&self, c: char) -> (r: bool)
        ensures
            r == (self.col(c) == 2),
    {
        self.ch(c) == 2
    }

    /// Truncate `s` so it fits in `limit` columns, returning the text and its
    /// width. The text is the longest prefix that fits, stopping at the first
    /// character that would not, so a wide character straddling the limit is
    /// dropped.
    pub fn truncate(&self, s: &str, limit: usize) -> (r: (String, usize))
        ensures
            r.0@.len() <= s@.len(),
            r.0@ == s@.take(r.0@.len() as int),
            r.1 == self.cols(r.0@),
            r.1 <= limit,
            r.0@.len() < s@.len() ==> self.cols(s@.take(r.0@.len() as int + 1)) > limit,
    {
        let v = chars_of(s);
        let mut used: usize = 0;
        let mut i: usize = 0;
        while i < v.len()
            invariant
                i <= v@.len(),
                v@ == s@,
                used == self.cols(v@.take(i as int)),
                used <= limit,
            ensures
                i <= v@.len(),
                used == self.cols(v@.take(i as int)),
                used <= limit,
                i < v@.len() ==> self.cols(v@.take(i as int + 1)) > limit,
            decreases v.len() - i,
        {
            let w = self.ch(v[i]);
            proof {
                assert(v@.take(i as int + 1).drop_last() =~= v@.take(i as int));
            }
            if w > limit - used {
                break;
            }
            used = used + w;
            i = i + 1;
        }
        let out = string_of(&v, 0, i);
        proof {
            assert(v@.subrange(0, i as int) =~= v@.take(i as int));
        }
        (out, used)
    }

    /// Slice `s` to the column window `[start, start + len)`.
    ///
    /// The offset is in display columns. A full-width character straddling
    /// either edge is replaced by spaces for its visible part, so the result
    /// is exactly as wide as the part of the window the text reaches.
    pub fn slice_columns(&self, s: &str, start: usize, len: usize) -> (r: String)
        ensures
            r@ == (if len == 0 {
                Seq::<char>::empty()
            } else {
                self.window(s@, 0, start as nat, min_usize((start + len) as nat))
            }),
    {
        if len == 0 {
            return String::new();
        }
        let end = start.saturating_add(len);
        let v = chars_of(s);
        let mut out = String::new();
        let mut col: usize = 0;
        let mut i: usize = 0;
        proof {
            assert(v@.skip(0) =~= v@);
        }
        while i < v.len()
            invariant
                i <= v@.len(),
                end == min_usize((start + len) as nat),
                start <= end,
                out@ + self.window(v@.skip(i as int), col as nat, start as nat, end as nat)
                    == self.window(v@, 0, start as nat, end as nat),
            ensures
                i <= v@.len(),
                out@ + self.window(v@.skip(i as int), col as nat, start as nat, end as nat)
                    == self.window(v@, 0, start as nat, end as nat),
                i < v@.len() ==> col >= end,
            decreases v.len() - i,
        {
            if col >= end {
                break;
            }
            let c = v[i];
            let w = self.ch(c);
            let ghost rest = v@.skip(i as int);
            let ghost old_col = col as nat;
            let ghost next: nat = old_col + w as nat;
            let ghost old_out = out@;
            proof {
                assert(rest[0] == c);
                assert(rest.drop_first() =~= v@.skip(i + 1));
                if next >= end {
                    assert(self.window(rest.drop_first(), next, start as nat, end as nat)
                        =~= Seq::<char>::empty());
                    assert(self.window(rest.drop_first(), end as nat, start as nat, end as nat)
                        =~= Seq::<char>::empty());
                }
            }
            if col <= start && w <= start - col {
                col = col + w;
            } else if col < start {
                if w >= end - col {
                    push_spaces(&mut out, end - start);
                    col = end;
                } else {
                    push_spaces(&mut out, col + w - start);
                    col = col + w;
                }
            } else if w > end - col {
                push_spaces(&mut out, end - col);
                col = end;
            } else {
                push_char(&mut out, c);
                col = col + w;
            }
            i = i + 1;
            proof {
                let piece = out@.subrange(old_out.len() as int, out@.len() as int);
                assert(out@ =~= old_out + piece);
                assert(self.window(rest, old_col, start as nat, end as nat)
                    =~= piece + self.window(v@.skip(i as int), col as nat, start as nat, end as nat));
                assert(out@ + self.window(v@.skip(i as int), col as nat, start as nat, end as nat)
                    =~= self.window(v@, 0, start as nat, end as nat));
            }
        }
        proof {
            if i < v@.len() {
                assert(self.window(v@.skip(i as int), col as nat, start as nat, end as nat)
                    =~= Seq::<char>::empty());
            } else {
                assert(v@.skip(i as int) =~= Seq::<char>::empty());
            }
            assert(out@ + Seq::<char>::empty() =~= out@);
        }
        proof {
            assert(v@ == s@);
        }
        out
    }
}

/// The text with each tab expanded to the next multiple of [`TAB_STOP`]
/// columns, where `phase` is the current column modulo the tab stop and
/// columns are measured narrow.
pub open spec fn expanded(s: Seq<char>, phase: nat) -> Seq<char>
    decreases s.len(),
{
    if s.len() == 0 {
        Seq::empty()
    } else if s[0] == '\t' {
        let n = (4 - phase % 4) as nat;
        spaces(n) + expanded(s.drop_first(), (phase + n) % 4)
    } else {
        seq![s[0]] + expanded(
            s.drop_first(),
            (phase + WidthCalc { ambiguous_wide: false }.col(s[0])) % 4,
        )
    }
}

/// Expand hard tabs to the next multiple of [`TAB_STOP`].
///
/// The column count is display width, not characters: a tab after `日`
/// advances from column two. Ambiguous-width characters are measured narrow
/// here, because this runs while the document is parsed and the setting
/// belongs to the viewer.
pub fn expand_tabs(s: &str) -> (r: String)
    ensures
        r@ == expanded(s@, 0),
{
    let calc = WidthCalc::new(false);
    let v = chars_of(s);
    let mut out = String::new();
    let mut phase: usize = 0;
    let mut i: usize = 0;
    proof {
        assert(v@.skip(0) =~= v@);
    }
    while i < v.len()
        invariant
            i <= v@.len(),
            phase < TAB_STOP,
            calc.ambiguous_wide == false,
            out@ + expanded(v@.skip(i as int), phase as nat) == expanded(v@, 0),
        decreases v.len() - i,
    {
        let c = v[i];
        let ghost rest = v@.skip(i as int);
        proof {
            assert(rest[0] == c);
            assert(rest.drop_first() =~= v@.skip(i + 1));
        }
        if c == '\t' {
            let n = TAB_STOP - phase % TAB_STOP;
            push_spaces(&mut out, n);
            phase = (phase + n) % TAB_STOP;
        } else {
            push_char(&mut out, c);
            phase = (phase + calc.ch(c)) % TAB_STOP;
        }
        i = i + 1;
        proof {
            assert(out@ + expanded(v@.skip(i as int), phase as nat) =~= expanded(v@, 0));
        }
    }
    proof {
        assert(v@.skip(i as int) =~= Seq::<char>::empty());
        assert(out@ + Seq::<char>::empty() =~= out@);
    }
    out
}

/// `n` saturated to `usize::MAX`.
pub open spec fn min_usize(n: nat) -> nat {
    if n <= usize::MAX { n } else { usize::MAX as nat }
}

} // verus!
