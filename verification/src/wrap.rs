//! Line breaking: UAX #14 plus kinsoku.
//!
//! Whitespace-based wrapping has nowhere to break text that contains no
//! spaces, and even a correct UAX #14 implementation will happily start a
//! line with `。` unless kinsoku rules are layered on top.
//!
//! Ranges and break points are byte offsets into the text, as `str` slicing
//! wants them; the contracts speak of the characters between them.

use vstd::prelude::*;
use crate::text::{byte_len, byte_offsets, chars_of, lemma_byte_len_prefix, lemma_byte_len_concat};
use crate::width::{WidthCalc, min_usize};
use crate::ir::{Span, Style, LinkId, span_v, spans_v, spans_chars, concat_spans};
use crate::text::string_of;

verus! {

/// 行頭禁則: characters that may never begin a line. Clinging punctuation,
/// closing brackets, the prolonged sound and iteration marks, small kana,
/// sentence-ending and separating marks, and the trailing voicing marks.
pub const NO_LINE_START: &'static str = "。、．，，。、）］｝〕〉》」』】〙〗〟’”｠»)]}〞ーヽヾゝゞ々〻ぁぃぅぇぉっゃゅょゎゕゖァィゥェォッャュョヮヵヶ!?‼⁇⁈⁉!?、:;・…‥—–〜～゛゜";

/// 行末禁則: characters that may never end a line (opening brackets).
pub const NO_LINE_END: &'static str = "（［｛〔〈《「『【〘〖〝‘“｟«([{";

/// Whether `c` is among `set`.
fn in_set(set: &str, c: char) -> (r: bool)
    ensures
        r == set@.contains(c),
{
    let v = chars_of(set);
    let mut i: usize = 0;
    while i < v.len()
        invariant
            i <= v@.len(),
            v@ == set@,
            forall|j: int| 0 <= j < i ==> v@[j] != c,
        decreases v.len() - i,
    {
        if v[i] == c {
            return true;
        }
        i = i + 1;
    }
    false
}

pub fn forbidden_at_line_start(c: char) -> (r: bool)
    ensures
        r == NO_LINE_START@.contains(c),
{
    in_set(NO_LINE_START, c)
}

pub fn forbidden_at_line_end(c: char) -> (r: bool)
    ensures
        r == NO_LINE_END@.contains(c),
{
    in_set(NO_LINE_END, c)
}

/// The byte offset of character `k` of `s`.
pub open spec fn off(s: Seq<char>, k: int) -> int {
    byte_len(s.take(k)) as int
}

/// The character index at which byte offset `b` falls, if `b` is a
/// character boundary of `s`; searching from character `k` on.
pub open spec fn boundary_from(s: Seq<char>, k: int, b: int) -> Option<int>
    decreases s.len() + 1 - k,
{
    if k < 0 || k > s.len() {
        None
    } else if off(s, k) == b {
        Some(k)
    } else {
        boundary_from(s, k + 1, b)
    }
}

/// The character index at byte offset `b`, if that is a character boundary.
pub open spec fn boundary(s: Seq<char>, b: int) -> Option<int> {
    boundary_from(s, 0, b)
}

/// Whether a line may begin at character `k`: the character there may start
/// a line, and the one before it may end one.
pub open spec fn kinsoku_ok(s: Seq<char>, k: int) -> bool {
    (0 <= k < s.len() ==> !NO_LINE_START@.contains(s[k])) && (0 < k <= s.len()
        ==> !NO_LINE_END@.contains(s[k - 1]))
}

/// Whether a break just before byte `b` satisfies kinsoku; never inside a
/// character.
pub open spec fn kinsoku_at(s: Seq<char>, b: int) -> bool {
    match boundary(s, b) {
        Some(k) => kinsoku_ok(s, k),
        None => false,
    }
}

/// The break points kept out of the candidates `c`: those strictly inside
/// the text that kinsoku allows, in their order.
pub open spec fn kept(s: Seq<char>, c: Seq<usize>) -> Seq<usize>
    decreases c.len(),
{
    if c.len() == 0 {
        Seq::empty()
    } else {
        let rest = kept(s, c.drop_last());
        let b = c.last();
        if 0 < b < byte_len(s) && kinsoku_at(s, b as int) {
            rest.push(b)
        } else {
            rest
        }
    }
}

/// Offsets grow with every character.
pub proof fn lemma_off_strict(s: Seq<char>, i: int, j: int)
    requires
        0 <= i < j <= s.len(),
    ensures
        off(s, i) < off(s, j),
        off(s, j) <= byte_len(s),
{
    let t = s.take(j);
    lemma_byte_len_prefix(t, i);
    assert(t.take(i) =~= s.take(i));
    let mid = t.subrange(i, j);
    assert(mid.len() > 0);
    assert(byte_len(mid) >= 1);
    lemma_byte_len_prefix(s, j);
}

pub proof fn lemma_boundary_from(s: Seq<char>, k: int, b: int)
    requires
        0 <= k <= s.len() + 1,
    ensures
        boundary_from(s, k, b) matches Some(i) ==> k <= i <= s.len() && off(s, i) == b,
        boundary_from(s, k, b) is None ==> forall|i: int| k <= i <= s.len() ==> off(s, i) != b,
    decreases s.len() + 1 - k,
{
    if k <= s.len() && off(s, k) != b {
        lemma_boundary_from(s, k + 1, b);
    }
}

/// `boundary` finds the one character index with that offset.
pub proof fn lemma_boundary(s: Seq<char>, b: int, k: int)
    requires
        0 <= k <= s.len(),
        off(s, k) == b,
    ensures
        boundary(s, b) == Some(k),
{
    lemma_boundary_from(s, 0, b);
    match boundary(s, b) {
        Some(i) => {
            if i < k {
                lemma_off_strict(s, i, k);
            } else if k < i {
                lemma_off_strict(s, k, i);
            }
        },
        None => {},
    }
}

/// Every kept break lies strictly inside the text, on a character boundary
/// that kinsoku allows.
pub proof fn lemma_kept(s: Seq<char>, c: Seq<usize>)
    ensures
        forall|i: int| 0 <= i < kept(s, c).len() ==> {
            let b = #[trigger] kept(s, c)[i];
            0 < b < byte_len(s) && kinsoku_at(s, b as int)
        },
    decreases c.len(),
{
    if c.len() > 0 {
        lemma_kept(s, c.drop_last());
        let rest = kept(s, c.drop_last());
        assert forall|i: int| 0 <= i < kept(s, c).len() implies {
            let b = #[trigger] kept(s, c)[i];
            0 < b < byte_len(s) && kinsoku_at(s, b as int)
        } by {
            if i < rest.len() {
                assert(kept(s, c)[i] == rest[i]);
            }
        }
    }
}

/// The byte offsets at which `unicode_linebreak::linebreaks` reports a break
/// opportunity in `s`, in the order it reports them.
pub uninterp spec fn uax14(s: Seq<char>) -> Seq<usize>;

/// `unicode_linebreak::linebreaks`, keeping each opportunity's byte offset
/// and dropping its kind.
///
/// Trusted: the result is whatever that function yields for `text`, named by
/// `uax14`. Its UAX #14 tables are not restated here.
#[verifier::external_body]
fn linebreak_offsets(text: &str) -> (r: Vec<usize>)
    ensures
        r@ == uax14(text@),
{
    unicode_linebreak::linebreaks(text).map(|(offset, _)| offset).collect()
}

/// The character index of byte offset `b` among `offs`, the offsets of every
/// character boundary of `s`.
fn offset_index(offs: &Vec<usize>, b: usize, Ghost(s): Ghost<Seq<char>>) -> (r: Option<usize>)
    requires
        offs@.len() == s.len() + 1,
        forall|k: int| 0 <= k <= s.len() ==> #[trigger] offs@[k] == off(s, k),
    ensures
        match r {
            Some(k) => boundary(s, b as int) == Some(k as int) && k <= s.len(),
            None => boundary(s, b as int) is None,
        },
{
    let mut k: usize = 0;
    while k < offs.len()
        invariant
            k <= offs@.len(),
            offs@.len() == s.len() + 1,
            forall|i: int| 0 <= i <= s.len() ==> #[trigger] offs@[i] == off(s, i),
            forall|i: int| 0 <= i < k ==> off(s, i) != b,
        decreases offs.len() - k,
    {
        if offs[k] == b {
            proof {
                lemma_boundary(s, b as int, k as int);
            }
            return Some(k);
        }
        k = k + 1;
    }
    proof {
        lemma_boundary_from(s, 0, b as int);
        match boundary(s, b as int) {
            Some(i) => {
                assert(off(s, i) != b);
            },
            None => {},
        }
    }
    None
}

/// Whether a line may begin at character `k` of `v`.
fn kinsoku_ok_exec(v: &Vec<char>, k: usize) -> (r: bool)
    requires
        k <= v@.len(),
    ensures
        r == kinsoku_ok(v@, k as int),
{
    if k < v.len() && forbidden_at_line_start(v[k]) {
        return false;
    }
    if k > 0 && forbidden_at_line_end(v[k - 1]) {
        return false;
    }
    true
}

/// Whether a break just before byte `b` satisfies kinsoku.
fn kinsoku_allows(v: &Vec<char>, offs: &Vec<usize>, b: usize) -> (r: bool)
    requires
        offs@.len() == v@.len() + 1,
        forall|k: int| 0 <= k <= v@.len() ==> #[trigger] offs@[k] == off(v@, k),
    ensures
        r == kinsoku_at(v@, b as int),
{
    match offset_index(offs, b, Ghost(v@)) {
        Some(k) => kinsoku_ok_exec(v, k),
        None => false,
    }
}

/// The break points among the candidates `cands`: those strictly inside
/// `text` that kinsoku allows, in their order.
pub fn break_points_from(text: &str, cands: &Vec<usize>) -> (r: Vec<usize>)
    ensures
        r@ == kept(text@, cands@),
{
    let v = chars_of(text);
    let offs = byte_offsets(text, &v);
    let n = offs[v.len()];
    let mut out: Vec<usize> = Vec::new();
    let mut i: usize = 0;
    while i < cands.len()
        invariant
            i <= cands@.len(),
            v@ == text@,
            offs@.len() == v@.len() + 1,
            forall|k: int| 0 <= k <= v@.len() ==> #[trigger] offs@[k] == byte_len(v@.take(k)),
            n == byte_len(v@),
            out@ == kept(text@, cands@.take(i as int)),
        decreases cands.len() - i,
    {
        let b = cands[i];
        proof {
            assert(cands@.take(i + 1).drop_last() =~= cands@.take(i as int));
            assert(cands@.take(i + 1).last() == b);
        }
        if 0 < b && b < n && kinsoku_allows(&v, &offs, b) {
            out.push(b);
        }
        i = i + 1;
    }
    proof {
        assert(cands@.take(i as int) =~= cands@);
    }
    out
}

/// Byte offsets at which a line may begin, in the order UAX #14 reports
/// them. Offset `0` and the end of the text are excluded: they are not
/// breaks within it. UAX #14 supplies the candidates; kinsoku removes the
/// ones that would strand a clinging character.
pub fn break_points(text: &str) -> (r: Vec<usize>)
    ensures
        r@ == kept(text@, uax14(text@)),
{
    let cands = linebreak_offsets(text);
    break_points_from(text, &cands)
}

} // verus!

verus! {

/// Where the widest run from character `i` that fits in `lim` columns ends,
/// `used` columns being taken already.
pub open spec fn fit_end(calc: WidthCalc, s: Seq<char>, i: int, used: nat, lim: nat) -> int
    decreases s.len() - i,
{
    if i < 0 || i >= s.len() {
        i
    } else if used + calc.col(s[i]) > lim {
        i
    } else {
        fit_end(calc, s, i + 1, used + calc.col(s[i]), lim)
    }
}

/// The last of the break offsets `bs`, in their order, lying in `(lo, hi]`.
pub open spec fn last_break(bs: Seq<usize>, lo: int, hi: int) -> Option<int>
    decreases bs.len(),
{
    if bs.len() == 0 {
        None
    } else if lo < bs.last() <= hi {
        Some(bs.last() as int)
    } else {
        last_break(bs.drop_last(), lo, hi)
    }
}

/// A forced break pulled back from `e` towards `st` until kinsoku allows it;
/// the original point `fe` when nothing back to `st` does (追い出し).
pub open spec fn retreat(s: Seq<char>, st: int, e: int, fe: int) -> int
    decreases e - st,
{
    if e <= st {
        fe
    } else if kinsoku_ok(s, e) {
        e
    } else {
        retreat(s, st, e - 1, fe)
    }
}

/// Where a line beginning at character `st`, fitting up to character `fe`,
/// ends: the last break that fits; else the fitting point, pulled back for
/// kinsoku; else, when not even one character fits, after that character.
pub open spec fn cut(s: Seq<char>, bs: Seq<usize>, st: int, fe: int) -> int {
    match last_break(bs, off(s, st), off(s, fe)) {
        Some(b) => match boundary(s, b) {
            Some(k) => k,
            None => st,
        },
        None => if fe > st {
            retreat(s, st, fe, fe)
        } else {
            st + 1
        },
    }
}

/// The byte ranges of the lines from character `st` on, after `acc`.
pub open spec fn wrap_from(
    calc: WidthCalc,
    s: Seq<char>,
    bs: Seq<usize>,
    st: int,
    lim: nat,
    acc: Seq<(int, int)>,
) -> Seq<(int, int)>
    decreases s.len() - st,
{
    if st < 0 || st >= s.len() {
        acc
    } else {
        let fe = fit_end(calc, s, st, 0, lim);
        if fe >= s.len() {
            acc.push((off(s, st), off(s, s.len() as int)))
        } else {
            let e = cut(s, bs, st, fe);
            if st < e <= s.len() {
                wrap_from(calc, s, bs, e, lim, acc.push((off(s, st), off(s, e))))
            } else {
                acc
            }
        }
    }
}

/// The byte ranges `s` wraps to at `limit` columns (at least one), given its
/// break points `bs`: one empty range for empty text, the whole text when it
/// fits, and otherwise a line at a time.
pub open spec fn wrapped(calc: WidthCalc, s: Seq<char>, bs: Seq<usize>, limit: usize) -> Seq<
    (int, int),
> {
    let lim: nat = if limit >= 1 { limit as nat } else { 1 };
    if s.len() == 0 {
        seq![(0, 0)]
    } else if min_usize(calc.cols(s)) <= lim {
        seq![(0, byte_len(s) as int)]
    } else {
        let out = wrap_from(calc, s, bs, 0, lim, Seq::empty());
        if out.len() == 0 {
            seq![(0, byte_len(s) as int)]
        } else {
            out
        }
    }
}

/// Ranges as integer pairs.
pub open spec fn ranges_v(r: Seq<(usize, usize)>) -> Seq<(int, int)> {
    Seq::new(r.len(), |i: int| (r[i].0 as int, r[i].1 as int))
}

/// The ranges cover all of `s`, in order, each beginning where the one
/// before it ends: nothing is lost and nothing repeated.
pub open spec fn tiles(s: Seq<char>, r: Seq<(int, int)>) -> bool {
    &&& r.len() >= 1
    &&& r[0].0 == 0
    &&& r[r.len() - 1].1 == byte_len(s)
    &&& forall|i: int, j: int|
        0 <= i && j == i + 1 && j < r.len() ==> #[trigger] r[i].1 == #[trigger] r[j].0
}

/// `[a, b)` runs between two character boundaries of `s`, and the
/// characters between them fit in `lim` columns, unless there is just one.
pub open spec fn fits(calc: WidthCalc, s: Seq<char>, a: int, b: int, lim: nat) -> bool {
    exists|ka: int, kb: int|
        0 <= ka <= kb <= s.len() && off(s, ka) == a && off(s, kb) == b && (calc.cols(
            s.subrange(ka, kb),
        ) <= lim || kb == ka + 1)
}

/// Columns only grow as a run is extended.
pub proof fn lemma_cols_mono(calc: WidthCalc, s: Seq<char>, a: int, b: int, c: int)
    requires
        0 <= a <= b <= c <= s.len(),
    ensures
        calc.cols(s.subrange(a, b)) <= calc.cols(s.subrange(a, c)),
    decreases c - b,
{
    if b < c {
        lemma_cols_mono(calc, s, a, b, c - 1);
        assert(s.subrange(a, c).drop_last() =~= s.subrange(a, c - 1));
    }
}

proof fn lemma_ranges_v_push(r: Seq<(usize, usize)>, x: (usize, usize))
    ensures
        ranges_v(r.push(x)) == ranges_v(r).push((x.0 as int, x.1 as int)),
{
    assert(ranges_v(r.push(x)) =~= ranges_v(r).push((x.0 as int, x.1 as int)));
}

/// The last break in `(lo, hi]`.
fn last_break_exec(bs: &Vec<usize>, lo: usize, hi: usize) -> (r: Option<usize>)
    ensures
        match r {
            Some(b) => last_break(bs@, lo as int, hi as int) == Some(b as int) && lo < b <= hi,
            None => last_break(bs@, lo as int, hi as int) is None,
        },
{
    let mut j = bs.len();
    proof {
        assert(bs@.take(j as int) =~= bs@);
    }
    while j > 0
        invariant
            j <= bs@.len(),
            last_break(bs@, lo as int, hi as int) == last_break(bs@.take(j as int), lo as int, hi as int),
        decreases j,
    {
        proof {
            assert(bs@.take(j as int).drop_last() =~= bs@.take(j - 1));
        }
        let b = bs[j - 1];
        if lo < b && b <= hi {
            return Some(b);
        }
        j = j - 1;
    }
    None
}

/// `retreat`, from the fitting point `fe` back towards `st`.
fn retreat_to_kinsoku(v: &Vec<char>, st: usize, fe: usize) -> (r: usize)
    requires
        st < fe <= v@.len(),
    ensures
        r == retreat(v@, st as int, fe as int, fe as int),
        st < r <= fe,
{
    let mut e = fe;
    while e > st
        invariant
            st <= e <= fe <= v@.len(),
            retreat(v@, st as int, fe as int, fe as int) == retreat(v@, st as int, e as int, fe as int),
        decreases e,
    {
        if kinsoku_ok_exec(v, e) {
            return e;
        }
        e = e - 1;
    }
    fe
}

/// Every range begins and ends on a character boundary.
pub open spec fn on_boundaries(s: Seq<char>, r: Seq<(usize, usize)>) -> bool {
    forall|i: int|
        0 <= i < r.len() ==> boundary(s, (#[trigger] r[i]).0 as int) is Some && boundary(s, r[i].1 as int) is Some
}

proof fn lemma_fits_boundaries(calc: WidthCalc, s: Seq<char>, a: int, b: int, lim: nat)
    requires
        fits(calc, s, a, b, lim),
    ensures
        boundary(s, a) is Some,
        boundary(s, b) is Some,
{
    let (ka, kb) = choose|ka: int, kb: int|
        0 <= ka <= kb <= s.len() && off(s, ka) == a && off(s, kb) == b && (calc.cols(s.subrange(ka, kb)) <= lim || kb == ka + 1);
    lemma_boundary(s, a, ka);
    lemma_boundary(s, b, kb);
}

/// Breaks `text` into lines of at most `limit` columns (at least one), given
/// its break points, and returns each line's byte range. When no break point
/// fits, the line is cut where it stops fitting, pulled back for kinsoku; a
/// character wider than the limit makes a line of its own.
pub fn wrap_ranges_at(text: &str, limit: usize, calc: &WidthCalc, breaks: &Vec<usize>) -> (r: Vec<
    (usize, usize),
>)
    requires
        forall|i: int| 0 <= i < breaks@.len() ==> boundary(text@, #[trigger] breaks@[i] as int) is Some,
    ensures
        ranges_v(r@) == wrapped(*calc, text@, breaks@, limit),
        tiles(text@, ranges_v(r@)),
        on_boundaries(text@, r@),
        text@.len() == 0 ==> r@ == seq![(0usize, 0usize)],
        text@.len() > 0 ==> forall|i: int| 0 <= i < r@.len() ==> (#[trigger] r@[i]).0 < r@[i].1,
        limit < usize::MAX ==> forall|i: int|
            0 <= i < r@.len() ==> fits(
                *calc,
                text@,
                #[trigger] r@[i].0 as int,
                r@[i].1 as int,
                if limit >= 1 { limit as nat } else { 1 },
            ),
{
    let v = chars_of(text);
    let offs = byte_offsets(text, &v);
    let n = v.len();
    let ghost s = v@;
    if n == 0 {
        let r = vec![(0usize, 0usize)];
        proof {
            assert(ranges_v(r@) =~= seq![(0int, 0int)]);
            assert(off(s, 0) == 0) by {
                assert(s.take(0) =~= Seq::<char>::empty());
            }
            assert(fits(*calc, text@, 0, 0, if limit >= 1 { limit as nat } else { 1 })) by {
                assert(s.subrange(0, 0) =~= Seq::<char>::empty());
            }
            lemma_boundary(s, 0, 0);
        }
        return r;
    }
    let lim = if limit >= 1 { limit } else { 1 };
    proof {
        assert(s.take(0) =~= Seq::<char>::empty());
        assert(s.take(n as int) =~= s);
        assert(off(s, 0) == 0);
        lemma_boundary(s, 0, 0);
        lemma_boundary(s, byte_len(s) as int, n as int);
    }
    if calc.chars_width(&v) <= lim {
        let r = vec![(0usize, offs[n])];
        proof {
            lemma_off_strict(s, 0, n as int);
            assert(ranges_v(r@) =~= seq![(0int, byte_len(s) as int)]);
            if limit < usize::MAX {
                assert(s.subrange(0, n as int) =~= s);
                assert(fits(*calc, text@, 0, byte_len(s) as int, lim as nat));
            }
        }
        return r;
    }
    let mut out: Vec<(usize, usize)> = Vec::new();
    let mut st: usize = 0;
    proof {
        assert(ranges_v(out@) =~= Seq::<(int, int)>::empty());
    }
    loop
        invariant_except_break
            st < n,
            wrap_from(*calc, s, breaks@, 0, lim as nat, Seq::empty()) == wrap_from(
                *calc,
                s,
                breaks@,
                st as int,
                lim as nat,
                ranges_v(out@),
            ),
            out@.len() == 0 ==> st == 0,
            out@.len() > 0 ==> out@[out@.len() - 1].1 == off(s, st as int),
        invariant
            v@ == s,
            s == text@,
            n == s.len(),
            n > 0,
            lim >= 1,
            lim == (if limit >= 1 { limit } else { 1 }),
            offs@.len() == n + 1,
            forall|k: int| 0 <= k <= n ==> #[trigger] offs@[k] == off(s, k),
            forall|i: int| 0 <= i < breaks@.len() ==> boundary(s, #[trigger] breaks@[i] as int) is Some,
            out@.len() > 0 ==> out@[0].0 == 0,
            forall|i: int| 0 <= i < out@.len() ==> (#[trigger] out@[i]).0 < out@[i].1,
            forall|i: int, j: int|
                0 <= i && j == i + 1 && j < out@.len() ==> #[trigger] out@[i].1 == #[trigger] out@[j].0,
            forall|i: int|
                0 <= i < out@.len() ==> fits(
                    *calc,
                    s,
                    #[trigger] out@[i].0 as int,
                    out@[i].1 as int,
                    lim as nat,
                ),
        ensures
            ranges_v(out@) == wrap_from(*calc, s, breaks@, 0, lim as nat, Seq::empty()),
            out@.len() > 0,
            out@[out@.len() - 1].1 == byte_len(s),
            forall|i: int| 0 <= i < out@.len() ==> (#[trigger] out@[i]).0 < out@[i].1,
            forall|i: int|
                0 <= i < out@.len() ==> fits(
                    *calc,
                    s,
                    #[trigger] out@[i].0 as int,
                    out@[i].1 as int,
                    lim as nat,
                ),
        decreases n - st,
    {
        // The widest prefix of the rest that fits.
        let mut fe = st;
        let mut used: usize = 0;
        proof {
            assert(s.subrange(st as int, st as int) =~= Seq::<char>::empty());
        }
        while fe < n
            invariant
                st <= fe <= n,
                n == s.len(),
                v@ == s,
                used <= lim,
                used == calc.cols(s.subrange(st as int, fe as int)),
                fit_end(*calc, s, st as int, 0, lim as nat) == fit_end(
                    *calc,
                    s,
                    fe as int,
                    used as nat,
                    lim as nat,
                ),
            ensures
                st <= fe <= n,
                used == calc.cols(s.subrange(st as int, fe as int)),
                fit_end(*calc, s, st as int, 0, lim as nat) == fe as int,
            decreases n - fe,
        {
            let w = calc.ch(v[fe]);
            if w > lim - used {
                break;
            }
            proof {
                assert(s.subrange(st as int, fe + 1).drop_last() =~= s.subrange(st as int, fe as int));
            }
            used = used + w;
            fe = fe + 1;
        }
        let ghost prev = ranges_v(out@);
        if fe >= n {
            let x = (offs[st], offs[n]);
            proof {
                lemma_ranges_v_push(out@, x);
                assert(s.take(n as int) =~= s);
                assert(s.subrange(st as int, n as int) == s.subrange(st as int, fe as int));
                assert(fits(*calc, s, x.0 as int, x.1 as int, lim as nat));
                lemma_off_strict(s, st as int, n as int);
            }
            let ghost o1 = out@;
            out.push(x);
            proof {
                assert forall|i: int| 0 <= i < out@.len() implies (#[trigger] out@[i]).0 < out@[i].1 by {
                    if i < o1.len() {
                        assert(out@[i] == o1[i]);
                    }
                }
            }
            proof {
                assert forall|i: int| 0 <= i < out@.len() implies fits(
                    *calc,
                    s,
                    #[trigger] out@[i].0 as int,
                    out@[i].1 as int,
                    lim as nat,
                ) by {
                    if i < out@.len() - 1 {
                        assert(out@[i] == old_out_at(out@, i));
                    }
                }
            }
            break;
        }
        // Where this line ends, as a character index.
        let e: usize = match last_break_exec(breaks, offs[st], offs[fe]) {
            Some(b) => {
                let k = offset_index(&offs, b, Ghost(s));
                match k {
                    Some(k) => {
                        proof {
                            lemma_boundary_from(s, 0, b as int);
                            if k <= st {
                                if k < st {
                                    lemma_off_strict(s, k as int, st as int);
                                }
                            }
                            if k > fe {
                                lemma_off_strict(s, fe as int, k as int);
                            }
                        }
                        k
                    },
                    None => {
                        proof {
                            lemma_last_break_in(breaks@, offs@[st as int] as int, offs@[fe as int] as int);
                        }
                        return out;
                    },
                }
            },
            None => {
                if fe > st {
                    retreat_to_kinsoku(&v, st, fe)
                } else {
                    st + 1
                }
            },
        };
        proof {
            assert(e == cut(s, breaks@, st as int, fe as int));
            assert(st < e <= n);
        }
        let x = (offs[st], offs[e]);
        proof {
            lemma_ranges_v_push(out@, x);
            if e <= fe {
                lemma_cols_mono(*calc, s, st as int, e as int, fe as int);
            }
            assert(off(s, st as int) == x.0 && off(s, e as int) == x.1);
            assert(calc.cols(s.subrange(st as int, e as int)) <= lim as nat || e == st + 1);
            assert(fits(*calc, s, x.0 as int, x.1 as int, lim as nat));
            lemma_off_strict(s, st as int, e as int);
        }
        let ghost o2 = out@;
        out.push(x);
        proof {
            assert forall|i: int| 0 <= i < out@.len() implies (#[trigger] out@[i]).0 < out@[i].1 by {
                if i < o2.len() {
                    assert(out@[i] == o2[i]);
                }
            }
        }
        proof {
            assert forall|i: int| 0 <= i < out@.len() implies fits(
                *calc,
                s,
                #[trigger] out@[i].0 as int,
                out@[i].1 as int,
                lim as nat,
            ) by {
                if i < out@.len() - 1 {
                    assert(out@[i] == old_out_at(out@, i));
                }
            }
        }
        st = e;
        if st >= n {
            // The last character did not fit even on a line of its own.
            proof {
                assert(wrap_from(*calc, s, breaks@, st as int, lim as nat, ranges_v(out@)) == ranges_v(out@));
                assert(s.take(n as int) =~= s);
                assert(st == n);
            }
            break;
        }
    }
    proof {
        assert forall|i: int| 0 <= i < out@.len() implies boundary(s, (#[trigger] out@[i]).0 as int) is Some
            && boundary(s, out@[i].1 as int) is Some by {
            lemma_fits_boundaries(*calc, s, out@[i].0 as int, out@[i].1 as int, lim as nat);
        }
    }
    out
}

spec fn old_out_at(r: Seq<(usize, usize)>, i: int) -> (usize, usize) {
    r[i]
}

/// A break offset found in `bs` is one of its elements.
proof fn lemma_last_break_in(bs: Seq<usize>, lo: int, hi: int)
    ensures
        last_break(bs, lo, hi) matches Some(b) ==> exists|i: int| 0 <= i < bs.len() && bs[i] == b,
    decreases bs.len(),
{
    if bs.len() > 0 {
        lemma_last_break_in(bs.drop_last(), lo, hi);
        if !(lo < bs.last() <= hi) {
            if let Some(b) = last_break(bs, lo, hi) {
                let i = choose|i: int| 0 <= i < bs.drop_last().len() && bs.drop_last()[i] == b;
                assert(bs[i] == b);
            }
        } else {
            assert(bs[bs.len() - 1] == bs.last());
        }
    }
}

/// Breaks `text` into lines of at most `limit` columns (at least one) and
/// returns each line's byte range; the breaks are UAX #14's, less those
/// kinsoku forbids. See [`wrap_ranges_at`].
pub fn wrap_ranges(text: &str, limit: usize, calc: &WidthCalc) -> (r: Vec<(usize, usize)>)
    ensures
        ranges_v(r@) == wrapped(*calc, text@, kept(text@, uax14(text@)), limit),
        tiles(text@, ranges_v(r@)),
        on_boundaries(text@, r@),
        text@.len() == 0 ==> r@ == seq![(0usize, 0usize)],
        text@.len() > 0 ==> forall|i: int| 0 <= i < r@.len() ==> (#[trigger] r@[i]).0 < r@[i].1,
        limit < usize::MAX ==> forall|i: int|
            0 <= i < r@.len() ==> fits(
                *calc,
                text@,
                #[trigger] r@[i].0 as int,
                r@[i].1 as int,
                if limit >= 1 { limit as nat } else { 1 },
            ),
{
    let breaks = break_points(text);
    proof {
        lemma_kept(text@, uax14(text@));
        assert forall|i: int| 0 <= i < breaks@.len() implies boundary(
            text@,
            #[trigger] breaks@[i] as int,
        ) is Some by {
            let b = breaks@[i];
            assert(kinsoku_at(text@, b as int));
        }
    }
    wrap_ranges_at(text, limit, calc, &breaks)
}

} // verus!

verus! {

/// The byte ranges of a run chopped at `lim` columns from character `i` on:
/// the current line began at `start` and has `used` columns.
pub open spec fn hard_from(
    calc: WidthCalc,
    s: Seq<char>,
    i: int,
    start: int,
    used: nat,
    lim: nat,
    acc: Seq<(int, int)>,
) -> Seq<(int, int)>
    decreases s.len() - i,
{
    if i < 0 || i >= s.len() {
        acc.push((off(s, start), off(s, s.len() as int)))
    } else {
        let w = calc.col(s[i]);
        if used + w > lim && i > start {
            hard_from(calc, s, i + 1, i, w, lim, acc.push((off(s, start), off(s, i))))
        } else {
            hard_from(calc, s, i + 1, start, used + w, lim, acc)
        }
    }
}

/// The byte ranges `s` is chopped into at `limit` columns (at least one),
/// ignoring word boundaries.
pub open spec fn hard_wrapped(calc: WidthCalc, s: Seq<char>, limit: usize) -> Seq<(int, int)> {
    if s.len() == 0 {
        seq![(0, 0)]
    } else {
        hard_from(calc, s, 0, 0, 0, if limit >= 1 { limit as nat } else { 1 }, Seq::empty())
    }
}

/// Chops `text` into runs of at most `limit` columns (at least one),
/// ignoring word boundaries, and returns each run's byte range. Code is not
/// prose: reflowing it at spaces would change what it means, so a line too
/// wide to fit is cut at the column limit instead and nothing is lost off
/// the right edge. A character wider than the limit makes a run of its own.
pub fn hard_wrap_ranges(text: &str, limit: usize, calc: &WidthCalc) -> (r: Vec<(usize, usize)>)
    ensures
        ranges_v(r@) == hard_wrapped(*calc, text@, limit),
        tiles(text@, ranges_v(r@)),
        forall|i: int|
            0 <= i < r@.len() ==> fits(
                *calc,
                text@,
                #[trigger] r@[i].0 as int,
                r@[i].1 as int,
                if limit >= 1 { limit as nat } else { 1 },
            ),
{
    let v = chars_of(text);
    let offs = byte_offsets(text, &v);
    let n = v.len();
    let ghost s = v@;
    proof {
        assert(s.take(0) =~= Seq::<char>::empty());
        assert(s.take(n as int) =~= s);
        assert(off(s, 0) == 0);
    }
    if n == 0 {
        let r = vec![(0usize, 0usize)];
        proof {
            assert(ranges_v(r@) =~= seq![(0int, 0int)]);
            assert(fits(*calc, text@, 0, 0, if limit >= 1 { limit as nat } else { 1 })) by {
                assert(s.subrange(0, 0) =~= Seq::<char>::empty());
            }
        }
        return r;
    }
    let lim = if limit >= 1 { limit } else { 1 };
    let mut out: Vec<(usize, usize)> = Vec::new();
    let mut start: usize = 0;
    let mut used: usize = 0;
    let mut i: usize = 0;
    proof {
        assert(ranges_v(out@) =~= Seq::<(int, int)>::empty());
        assert(s.subrange(0, 0) =~= Seq::<char>::empty());
    }
    while i < n
        invariant
            v@ == s,
            s == text@,
            n == s.len(),
            lim >= 1,
            lim == (if limit >= 1 { limit } else { 1 }),
            offs@.len() == n + 1,
            forall|k: int| 0 <= k <= n ==> #[trigger] offs@[k] == off(s, k),
            start <= i <= n,
            used == calc.cols(s.subrange(start as int, i as int)),
            used <= lim || i == start + 1,
            i == start ==> used == 0,
            hard_wrapped(*calc, s, limit) == hard_from(
                *calc,
                s,
                i as int,
                start as int,
                used as nat,
                lim as nat,
                ranges_v(out@),
            ),
            out@.len() == 0 ==> start == 0,
            out@.len() > 0 ==> out@[0].0 == 0 && out@[out@.len() - 1].1 == off(s, start as int),
            forall|a: int, b: int|
                0 <= a && b == a + 1 && b < out@.len() ==> #[trigger] out@[a].1 == #[trigger] out@[b].0,
            forall|a: int|
                0 <= a < out@.len() ==> fits(
                    *calc,
                    s,
                    #[trigger] out@[a].0 as int,
                    out@[a].1 as int,
                    lim as nat,
                ),
        decreases n - i,
    {
        let w = calc.ch(v[i]);
        let exceeds = if used <= lim { w > lim - used } else { true };
        proof {
            assert(s.subrange(start as int, i + 1).drop_last() =~= s.subrange(start as int, i as int));
        }
        if exceeds && i > start {
            let x = (offs[start], offs[i]);
            proof {
                lemma_ranges_v_push(out@, x);
                assert(fits(*calc, s, x.0 as int, x.1 as int, lim as nat));
            }
            out.push(x);
            proof {
                assert forall|a: int| 0 <= a < out@.len() implies fits(
                    *calc,
                    s,
                    #[trigger] out@[a].0 as int,
                    out@[a].1 as int,
                    lim as nat,
                ) by {
                    if a < out@.len() - 1 {
                        assert(out@[a] == old_out_at(out@, a));
                    }
                }
                assert(s.subrange(i as int, i + 1).drop_last() =~= Seq::<char>::empty());
                assert(s.subrange(i as int, i + 1).last() == s[i as int]);
                assert(calc.cols(Seq::<char>::empty()) == 0);
            }
            start = i;
            used = w;
        } else {
            used = used + w;
        }
        i = i + 1;
    }
    let x = (offs[start], offs[n]);
    proof {
        lemma_ranges_v_push(out@, x);
        assert(fits(*calc, s, x.0 as int, x.1 as int, lim as nat));
    }
    out.push(x);
    proof {
        assert forall|a: int| 0 <= a < out@.len() implies fits(
            *calc,
            s,
            #[trigger] out@[a].0 as int,
            out@[a].1 as int,
            lim as nat,
        ) by {
            if a < out@.len() - 1 {
                assert(out@[a] == old_out_at(out@, a));
            }
        }
    }
    out
}

} // verus!

verus! {

/// A span as its characters, style and link.
pub type SpanV = (Seq<char>, Style, Option<LinkId>);

/// The concatenated text of `spans`.
pub fn spans_text(spans: &[Span]) -> (r: String)
    ensures
        r@ == spans_chars(spans_v(spans@)),
{
    concat_spans(spans)
}

/// The character index of byte offset `b` of `s`: where it falls on a
/// boundary, and the end of the text at or past the end.
pub open spec fn char_at(s: Seq<char>, b: int) -> int {
    match boundary(s, b) {
        Some(k) => k,
        None => s.len() as int,
    }
}

/// The parts of `sv`, whose first character is character `p` of their
/// concatenation, that fall in characters `[cs, ce)`: each cut to the part
/// inside, those with nothing inside dropped.
pub open spec fn slice_from(sv: Seq<SpanV>, p: int, cs: int, ce: int) -> Seq<SpanV>
    decreases sv.len(),
{
    if sv.len() == 0 {
        Seq::empty()
    } else {
        let t = sv[0].0;
        let a = if cs > p { cs } else { p };
        let b = if ce < p + t.len() { ce } else { p + t.len() };
        let rest = slice_from(sv.drop_first(), p + t.len(), cs, ce);
        if a < b {
            seq![(t.subrange(a - p, b - p), sv[0].1, sv[0].2)] + rest
        } else {
            rest
        }
    }
}

proof fn lemma_spans_chars_skip(sv: Seq<SpanV>, i: int)
    requires
        0 <= i < sv.len(),
    ensures
        spans_chars(sv.take(i + 1)) == spans_chars(sv.take(i)) + sv[i].0,
{
    assert(sv.take(i + 1).drop_last() =~= sv.take(i));
}

proof fn lemma_spans_v_skip(s: Seq<Span>, i: int)
    requires
        0 <= i < s.len(),
    ensures
        spans_v(s).skip(i)[0] == span_v(s[i]),
        spans_v(s).skip(i).drop_first() == spans_v(s).skip(i + 1),
        spans_v(s.take(i + 1)) == spans_v(s.take(i)).push(span_v(s[i])),
{
    assert(spans_v(s).skip(i).drop_first() =~= spans_v(s).skip(i + 1));
    assert(spans_v(s.take(i + 1)) =~= spans_v(s.take(i)).push(span_v(s[i])));
}

/// The part of a run of spans between two byte offsets into their
/// concatenated text, cut at the span boundaries, each piece keeping its
/// span's style and link. An offset must fall on a character boundary, or
/// at or past the end of the text.
pub fn slice_spans(spans: &[Span], start: usize, end: usize) -> (r: Vec<Span>)
    requires
        start >= byte_len(spans_chars(spans_v(spans@))) || boundary(spans_chars(spans_v(spans@)), start as int) is Some,
        end >= byte_len(spans_chars(spans_v(spans@))) || boundary(spans_chars(spans_v(spans@)), end as int) is Some,
    ensures
        ({
            let all = spans_chars(spans_v(spans@));
            spans_v(r@) == slice_from(spans_v(spans@), 0, char_at(all, start as int), char_at(all, end as int))
        }),
{
    let text = concat_spans(spans);
    let all = chars_of(text.as_str());
    let offs = byte_offsets(text.as_str(), &all);
    let n = all.len();
    let ghost sv = spans_v(spans@);
    let cs = match offset_index(&offs, start, Ghost(all@)) {
        Some(k) => k,
        None => n,
    };
    let ce = match offset_index(&offs, end, Ghost(all@)) {
        Some(k) => k,
        None => n,
    };
    let mut out: Vec<Span> = Vec::new();
    let mut p: usize = 0;
    let mut i: usize = 0;
    proof {
        assert(sv.skip(0) =~= sv);
        assert(sv.take(0) =~= Seq::<SpanV>::empty());
        assert(spans_chars(sv.take(0)) + spans_chars(sv) =~= spans_chars(sv));
        assert(spans_v(out@) =~= Seq::<SpanV>::empty());
        lemma_byte_len_prefix(all@, n as int);
    }
    while i < spans.len()
        invariant
            i <= spans@.len(),
            sv == spans_v(spans@),
            all@ == spans_chars(sv),
            n == all@.len(),
            p == spans_chars(sv.take(i as int)).len(),
            p <= n,
            spans_chars(sv) == spans_chars(sv.take(i as int)) + spans_chars(sv.skip(i as int)),
            spans_v(out@) + slice_from(sv.skip(i as int), p as int, cs as int, ce as int) == slice_from(
                sv,
                0,
                cs as int,
                ce as int,
            ),
        decreases spans@.len() - i,
    {
        proof {
            lemma_spans_v_skip(spans@, i as int);
            lemma_spans_chars_skip(sv, i as int);
            let rest = sv.skip(i as int);
            lemma_spans_chars_front(rest);
            assert(spans_chars(sv) =~= spans_chars(sv.take(i + 1)) + spans_chars(sv.skip(i + 1)));
        }
        let t = chars_of(spans[i].text.as_str());
        let len = t.len();
        let a = if cs > p { cs } else { p };
        let b = if ce < p + len { ce } else { p + len };
        if a < b {
            let piece = string_of(&t, a - p, b - p);
            let sp = Span { text: piece, style: spans[i].style, link: spans[i].link };
            let ghost before = spans_v(out@);
            out.push(sp);
            proof {
                assert(spans_v(out@) =~= before.push(span_v(sp)));
                let rest = sv.skip(i as int);
                assert(slice_from(rest, p as int, cs as int, ce as int) == seq![span_v(sp)] + slice_from(
                    rest.drop_first(),
                    p + len,
                    cs as int,
                    ce as int,
                ));
                assert(before.push(span_v(sp)) + slice_from(rest.drop_first(), p + len, cs as int, ce as int)
                    =~= before + (seq![span_v(sp)] + slice_from(rest.drop_first(), p + len, cs as int, ce as int)));
            }
        }
        p = p + len;
        i = i + 1;
    }
    proof {
        assert(sv.skip(i as int) =~= Seq::<SpanV>::empty());
        assert(spans_v(out@) + Seq::<SpanV>::empty() =~= spans_v(out@));
        lemma_boundary_from(all@, 0, start as int);
        lemma_boundary_from(all@, 0, end as int);
    }
    out
}

/// `spans_chars` taken from the front.
proof fn lemma_spans_chars_front(sv: Seq<SpanV>)
    requires
        sv.len() > 0,
    ensures
        spans_chars(sv) == spans_chars(seq![sv[0]]) + spans_chars(sv.drop_first()),
        spans_chars(seq![sv[0]]) == sv[0].0,
    decreases sv.len(),
{
    assert(seq![sv[0]].drop_last() =~= Seq::<SpanV>::empty());
    assert(spans_chars(seq![sv[0]]) == spans_chars(Seq::<SpanV>::empty()) + sv[0].0);
    assert(Seq::<char>::empty() + sv[0].0 =~= sv[0].0);
    if sv.len() > 1 {
        lemma_spans_chars_front(sv.drop_last());
        assert(sv.drop_last().drop_first() =~= sv.drop_first().drop_last());
        assert(sv.drop_first().last() == sv.last());
    } else {
        assert(sv.drop_first() =~= Seq::<SpanV>::empty());
        assert(sv.drop_last() =~= Seq::<SpanV>::empty());
    }
}

} // verus!

verus! {

/// `t` without its trailing spaces (only U+0020).
pub open spec fn trim_spaces(t: Seq<char>) -> Seq<char>
    decreases t.len(),
{
    if t.len() > 0 && t.last() == ' ' {
        trim_spaces(t.drop_last())
    } else {
        t
    }
}

/// A row without its trailing spaces: the last span loses them, and goes
/// altogether when nothing else is left of it, which exposes the one before.
pub open spec fn trimmed_row(sv: Seq<SpanV>) -> Seq<SpanV>
    decreases sv.len(),
{
    if sv.len() == 0 {
        sv
    } else {
        let last = sv.last();
        let t = trim_spaces(last.0);
        if t.len() == last.0.len() {
            sv
        } else if t.len() == 0 {
            trimmed_row(sv.drop_last())
        } else {
            sv.drop_last().push((t, last.1, last.2))
        }
    }
}

/// The end of `v` with trailing spaces dropped.
fn trim_spaces_end(v: &Vec<char>) -> (r: usize)
    ensures
        r <= v@.len(),
        v@.subrange(0, r as int) == trim_spaces(v@),
{
    let mut j = v.len();
    proof {
        assert(v@.subrange(0, j as int) =~= v@);
    }
    while j > 0 && v[j - 1] == ' '
        invariant
            j <= v@.len(),
            trim_spaces(v@.subrange(0, j as int)) == trim_spaces(v@),
        decreases j,
    {
        proof {
            assert(v@.subrange(0, j as int).drop_last() =~= v@.subrange(0, j - 1));
        }
        j = j - 1;
    }
    j
}

proof fn lemma_trim_spaces_len(t: Seq<char>)
    ensures
        trim_spaces(t).len() <= t.len(),
    decreases t.len(),
{
    if t.len() > 0 && t.last() == ' ' {
        lemma_trim_spaces_len(t.drop_last());
    }
}

/// Drops trailing spaces from a laid-out row. Safe because the row is about
/// to be drawn, and a break opportunity after a space leaves that space
/// dangling.
pub fn trim_trailing(row: Vec<Span>) -> (r: Vec<Span>)
    ensures
        spans_v(r@) == trimmed_row(spans_v(row@)),
{
    let ghost orig = spans_v(row@);
    let mut spans = row;
    loop
        invariant
            orig == spans_v(row@),
            trimmed_row(spans_v(spans@)) == trimmed_row(orig),
        decreases spans@.len(),
    {
        let ghost sv = spans_v(spans@);
        match spans.pop() {
            None => {
                proof {
                    assert(spans_v(spans@) =~= Seq::<SpanV>::empty());
                    assert(sv =~= Seq::<SpanV>::empty());
                }
                return spans;
            },
            Some(last) => {
                let v = chars_of(last.text.as_str());
                let e = trim_spaces_end(&v);
                proof {
                    assert(sv.last() == span_v(last));
                    assert(sv.drop_last() =~= spans_v(spans@));
                }
                if e == v.len() {
                    spans.push(last);
                    proof {
                        assert(v@.subrange(0, e as int) =~= v@);
                        assert(trim_spaces(sv.last().0).len() == sv.last().0.len());
                        assert(trimmed_row(sv) == sv);
                        assert(spans_v(spans@) =~= sv);
                    }
                    return spans;
                }
                if e > 0 {
                    let t = string_of(&v, 0, e);
                    let sp = Span { text: t, style: last.style, link: last.link };
                    let ghost before = spans_v(spans@);
                    spans.push(sp);
                    proof {
                        assert(trim_spaces(sv.last().0) == sp.text@);
                        assert(trimmed_row(sv) == sv.drop_last().push((sp.text@, sp.style, sp.link)));
                        assert(spans_v(spans@) =~= before.push(span_v(sp)));
                    }
                    return spans;
                }
                proof {
                    assert(trim_spaces(sv.last().0).len() == 0);
                    assert(trimmed_row(sv) == trimmed_row(sv.drop_last()));
                }
            },
        }
    }
}

} // verus!

verus! {

/// Where the column count stands after walking `t` from column `col`,
/// stopping once it reaches `end`.
pub open spec fn advance(calc: WidthCalc, t: Seq<char>, col: nat, end: nat) -> nat
    decreases t.len(),
{
    if t.len() == 0 || col >= end {
        col
    } else {
        advance(calc, t.drop_first(), col + calc.col(t[0]), end)
    }
}

/// `x` appended to `acc`, joining the last span when style and link match.
pub open spec fn merge_push(acc: Seq<SpanV>, x: SpanV) -> Seq<SpanV> {
    if acc.len() > 0 && acc.last().1 == x.1 && acc.last().2 == x.2 {
        acc.drop_last().push((acc.last().0 + x.0, x.1, x.2))
    } else {
        acc.push(x)
    }
}

/// The column window `[start, end)` of the spans `sv`, the first of which
/// begins at column `col`, after `acc`.
pub open spec fn columns_from(
    calc: WidthCalc,
    sv: Seq<SpanV>,
    col: nat,
    start: nat,
    end: nat,
    acc: Seq<SpanV>,
) -> Seq<SpanV>
    decreases sv.len(),
{
    if sv.len() == 0 || col >= end {
        acc
    } else {
        let t = sv[0].0;
        let piece = calc.window(t, col, start, end);
        let next = advance(calc, t, col, end);
        let acc2 = if piece.len() == 0 {
            acc
        } else {
            merge_push(acc, (piece, sv[0].1, sv[0].2))
        };
        columns_from(calc, sv.drop_first(), next, start, end, acc2)
    }
}

/// The display-column window `[start, start + len)` of a styled row.
pub open spec fn columns(calc: WidthCalc, sv: Seq<SpanV>, start: usize, len: usize) -> Seq<SpanV> {
    if len == 0 {
        Seq::empty()
    } else {
        columns_from(calc, sv, 0, start as nat, min_usize((start + len) as nat), Seq::empty())
    }
}

pub proof fn lemma_cols_concat(calc: WidthCalc, a: Seq<char>, b: Seq<char>)
    ensures
        calc.cols(a + b) == calc.cols(a) + calc.cols(b),
    decreases b.len(),
{
    if b.len() == 0 {
        assert(a + b =~= a);
    } else {
        lemma_cols_concat(calc, a, b.drop_last());
        assert((a + b).drop_last() =~= a + b.drop_last());
    }
}

/// Slices a styled row to the display-column window `[start, start + len)`.
/// This is what horizontal scrolling is built on. A full-width character
/// straddling either edge becomes spaces, so the row stays exactly as wide
/// as the window; adjacent pieces with the same style and link are joined.
pub fn slice_spans_columns(spans: &[Span], start: usize, len: usize, calc: &WidthCalc) -> (r: Vec<Span>)
    requires
        calc.cols(spans_chars(spans_v(spans@))) <= usize::MAX,
    ensures
        spans_v(r@) == columns(*calc, spans_v(spans@), start, len),
{
    let mut out: Vec<Span> = Vec::new();
    if len == 0 {
        proof {
            assert(spans_v(out@) =~= Seq::<SpanV>::empty());
        }
        return out;
    }
    let end = start.saturating_add(len);
    let ghost sv = spans_v(spans@);
    let ghost all = spans_chars(sv);
    let mut col: usize = 0;
    let mut i: usize = 0;
    proof {
        assert(sv.skip(0) =~= sv);
        assert(spans_v(out@) =~= Seq::<SpanV>::empty());
    }
    while i < spans.len() && col < end
        invariant
            i <= spans@.len(),
            sv == spans_v(spans@),
            all == spans_chars(sv),
            calc.cols(all) <= usize::MAX,
            end == min_usize((start + len) as nat),
            col + calc.cols(spans_chars(sv.skip(i as int))) <= calc.cols(all),
            columns(*calc, sv, start, len) == columns_from(
                *calc,
                sv.skip(i as int),
                col as nat,
                start as nat,
                end as nat,
                spans_v(out@),
            ),
            len > 0,
        decreases spans@.len() - i,
    {
        let ghost rest = sv.skip(i as int);
        proof {
            lemma_spans_v_skip(spans@, i as int);
            lemma_spans_chars_front(rest);
            lemma_cols_concat(*calc, rest[0].0, spans_chars(rest.drop_first()));
        }
        let chars = chars_of(spans[i].text.as_str());
        let ghost t = chars@;
        let ghost col0 = col;
        let mut text = String::new();
        let mut k: usize = 0;
        proof {
            assert(t.skip(0) =~= t);
        }
        while k < chars.len() && col < end
            invariant
                k <= t.len(),
                chars@ == t,
                t == rest[0].0,
                end == min_usize((start + len) as nat),
                col + calc.cols(t.skip(k as int)) + calc.cols(spans_chars(rest.drop_first())) <= calc.cols(all),
                calc.cols(all) <= usize::MAX,
                text@ + calc.window(t.skip(k as int), col as nat, start as nat, end as nat) == calc.window(
                    t,
                    col0 as nat,
                    start as nat,
                    end as nat,
                ),
                advance(*calc, t.skip(k as int), col as nat, end as nat) == advance(*calc, t, col0 as nat, end as nat),
            decreases t.len() - k,
        {
            let c = chars[k];
            let w = calc.ch(c);
            proof {
                let s = t.skip(k as int);
                assert(s =~= seq![c] + t.skip(k + 1));
                lemma_cols_concat(*calc, seq![c], t.skip(k + 1));
                assert(seq![c].drop_last() =~= Seq::<char>::empty());
                assert(s.drop_first() =~= t.skip(k + 1));
            }
            let next = col + w;
            let ghost before = text@;
            if next <= start {
                proof {
                    assert(calc.window(t.skip(k as int), col as nat, start as nat, end as nat) == calc.window(
                        t.skip(k + 1),
                        next as nat,
                        start as nat,
                        end as nat,
                    ));
                }
            } else if col < start {
                let m = if next < end { next } else { end };
                crate::text::push_spaces(&mut text, m - start);
                proof {
                    assert(text@ + calc.window(t.skip(k + 1), next as nat, start as nat, end as nat) =~= before
                        + calc.window(t.skip(k as int), col as nat, start as nat, end as nat));
                }
            } else if next > end {
                crate::text::push_spaces(&mut text, end - col);
                proof {
                    assert(text@ + calc.window(t.skip(k + 1), next as nat, start as nat, end as nat) =~= before
                        + calc.window(t.skip(k as int), col as nat, start as nat, end as nat));
                }
            } else {
                crate::text::push_char(&mut text, c);
                proof {
                    assert(text@ + calc.window(t.skip(k + 1), next as nat, start as nat, end as nat) =~= before
                        + calc.window(t.skip(k as int), col as nat, start as nat, end as nat));
                }
            }
            col = next;
            k = k + 1;
        }
        proof {
            if k == t.len() {
                assert(t.skip(k as int) =~= Seq::<char>::empty());
            }
            assert(text@ + Seq::<char>::empty() =~= text@);
            assert(calc.window(t.skip(k as int), col as nat, start as nat, end as nat) =~= Seq::<char>::empty());
            assert(text@ == calc.window(t, col0 as nat, start as nat, end as nat));
            assert(col == advance(*calc, t, col0 as nat, end as nat));
            assert(calc.cols(t.skip(k as int)) >= 0);
        }
        let ghost tv = text@;
        let ghost acc = spans_v(out@);
        if !text.as_str().is_empty() {
            let style = spans[i].style;
            let link = spans[i].link;
            let mut merged = false;
            if out.len() > 0 {
                let last_style = out[out.len() - 1].style;
                let last_link = out[out.len() - 1].link;
                if last_style == style && last_link == link {
                    let mut last = out.pop().unwrap();
                    crate::text::push_str(&mut last.text, text.as_str());
                    out.push(last);
                    merged = true;
                    proof {
                        assert(spans_v(out@) =~= merge_push(acc, (text@, style, link)));
                    }
                }
            }
            if !merged {
                out.push(Span { text, style, link });
                proof {
                    assert(spans_v(out@) =~= merge_push(acc, (tv, style, link)));
                }
            }
            proof {
                assert(spans_v(out@) == merge_push(acc, (tv, rest[0].1, rest[0].2)));
            }
        }
        proof {
            assert(rest.drop_first() == sv.skip(i + 1));
            assert(columns_from(*calc, rest, col0 as nat, start as nat, end as nat, acc) == columns_from(
                *calc,
                sv.skip(i + 1),
                col as nat,
                start as nat,
                end as nat,
                spans_v(out@),
            ));
        }
        i = i + 1;
    }
    proof {
        if i == spans@.len() {
            assert(sv.skip(i as int) =~= Seq::<SpanV>::empty());
        }
    }
    out
}

} // verus!

verus! {

/// The rows a run of spans reflows to at `limit` columns: one empty row for
/// no text; otherwise each line of its text, cut out of the spans with their
/// styles and links, trailing spaces dropped.
pub open spec fn wrapped_spans(calc: WidthCalc, sv: Seq<SpanV>, limit: usize) -> Seq<Seq<SpanV>> {
    let all = spans_chars(sv);
    if all.len() == 0 {
        seq![Seq::empty()]
    } else {
        let rs = wrapped(calc, all, kept(all, uax14(all)), limit);
        Seq::new(
            rs.len(),
            |i: int| trimmed_row(slice_from(sv, 0, char_at(all, rs[i].0), char_at(all, rs[i].1))),
        )
    }
}

/// Reflows a run of spans to `limit` columns, preserving styling and links.
pub fn wrap_spans(spans: &[Span], limit: usize, calc: &WidthCalc) -> (r: Vec<Vec<Span>>)
    ensures
        r@.len() == wrapped_spans(*calc, spans_v(spans@), limit).len(),
        forall|i: int|
            0 <= i < r@.len() ==> spans_v((#[trigger] r@[i])@) == wrapped_spans(*calc, spans_v(spans@), limit)[i],
{
    let text = spans_text(spans);
    let ghost all = text@;
    if text.as_str().is_empty() {
        let mut r: Vec<Vec<Span>> = Vec::new();
        r.push(Vec::new());
        proof {
            assert(spans_v(r@[0]@) =~= Seq::<SpanV>::empty());
        }
        return r;
    }
    let ranges = wrap_ranges(text.as_str(), limit, calc);
    let ghost rs = ranges_v(ranges@);
    let mut out: Vec<Vec<Span>> = Vec::new();
    let mut i: usize = 0;
    while i < ranges.len()
        invariant
            i <= ranges@.len(),
            all == text@,
            all == spans_chars(spans_v(spans@)),
            all.len() > 0,
            rs == ranges_v(ranges@),
            rs == wrapped(*calc, all, kept(all, uax14(all)), limit),
            on_boundaries(all, ranges@),
            out@.len() == i,
            forall|j: int|
                0 <= j < i ==> spans_v((#[trigger] out@[j])@) == wrapped_spans(*calc, spans_v(spans@), limit)[j],
        decreases ranges@.len() - i,
    {
        let (s, e) = ranges[i];
        proof {
            assert(boundary(all, s as int) is Some && boundary(all, e as int) is Some);
        }
        let row = trim_trailing(slice_spans(spans, s, e));
        out.push(row);
        i = i + 1;
    }
    out
}

} // verus!
