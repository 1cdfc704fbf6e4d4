//! YAML front matter, as far as it needs to be understood.
//!
//! Front matter is drawn as a table rather than as the source, so the status
//! and the date of a decision record are the first things read. Only the
//! shapes that appear at the top of a document are parsed: scalars,
//! sequences, and comments. Anything else returns `None` and the caller falls
//! back to showing the source.

use vstd::prelude::*;
use crate::text::{
    chars_of, string_of, push_char, push_str, eq_at, trim, trim_start, trim_end, starts_with,
    index_of, is_char, find_char, trim_range, trim_start_range, trim_end_range, lines_of,
    line_ranges, lemma_find_first,
};

verus! {

/// A key and its value, flattened for display.
pub open spec fn entries_v(r: Seq<(String, String)>) -> Seq<(Seq<char>, Seq<char>)> {
    Seq::new(r.len(), |i: int| (r[i].0@, r[i].1@))
}

/// One matching pair of quotes stripped, anything else left as written.
pub open spec fn unquoted(v: Seq<char>) -> Seq<char> {
    if v.len() >= 2 && ((v[0] == '"' && v.last() == '"') || (v[0] == '\'' && v.last() == '\'')) {
        v.subrange(1, v.len() - 1)
    } else {
        v
    }
}

/// Whether a line begins with a space or a tab.
pub open spec fn indented(l: Seq<char>) -> bool {
    l.len() > 0 && (l[0] == ' ' || l[0] == '\t')
}

/// `s` split at every comma, as `str::split(',')` does.
pub open spec fn split_commas(s: Seq<char>) -> Seq<Seq<char>>
    decreases s.len(),
{
    let k = index_of(s, ',');
    proof {
        lemma_find_first(s, is_char(','));
    }
    if 0 <= k < s.len() {
        seq![s.take(k)] + split_commas(s.skip(k + 1))
    } else {
        seq![s]
    }
}

/// The pieces of a flow sequence, trimmed and unquoted, empty ones dropped.
pub open spec fn flow_items(ps: Seq<Seq<char>>) -> Seq<Seq<char>>
    decreases ps.len(),
{
    if ps.len() == 0 {
        Seq::empty()
    } else {
        let rest = flow_items(ps.drop_last());
        let x = unquoted(trim(ps.last()));
        if x.len() > 0 {
            rest.push(x)
        } else {
            rest
        }
    }
}

/// Items joined with `, `.
pub open spec fn joined(items: Seq<Seq<char>>) -> Seq<char>
    decreases items.len(),
{
    if items.len() == 0 {
        Seq::empty()
    } else if items.len() == 1 {
        items[0]
    } else {
        joined(items.drop_last()) + seq![',', ' '] + items.last()
    }
}

/// The items of a block sequence from line `i` on, after `items`, and the
/// line after it; `None` when an indented line is not a `- ` item.
pub open spec fn block_items(ls: Seq<Seq<char>>, i: int, items: Seq<Seq<char>>) -> Option<
    (Seq<Seq<char>>, int),
>
    decreases ls.len() - i,
{
    if i < 0 || i >= ls.len() {
        Some((items, i))
    } else if !indented(ls[i]) {
        Some((items, i))
    } else {
        let item = trim_start(ls[i]);
        if starts_with(item, seq!['-', ' ']) {
            block_items(ls, i + 1, items.push(unquoted(trim(item.skip(2)))))
        } else {
            None
        }
    }
}

/// The entries of the front matter from line `i` on, after `acc`; `None`
/// when something in it is not understood, or when it holds no entry.
pub open spec fn fm_from(ls: Seq<Seq<char>>, i: int, acc: Seq<(Seq<char>, Seq<char>)>) -> Option<
    Seq<(Seq<char>, Seq<char>)>,
>
    decreases ls.len() - i,
{
    if i < 0 || i >= ls.len() {
        if acc.len() > 0 {
            Some(acc)
        } else {
            None
        }
    } else {
        let line = ls[i];
        let t = trim_end(line);
        if t.len() == 0 || t == seq!['-', '-', '-'] || starts_with(trim_start(t), seq!['#']) {
            // Delimiters, blank lines and whole-line comments carry nothing.
            fm_from(ls, i + 1, acc)
        } else if indented(line) {
            // A nested mapping, a continuation, or an orphaned sequence.
            None
        } else {
            let c = index_of(t, ':');
            if c < 0 || c >= t.len() {
                None
            } else {
                let key = trim(t.take(c));
                let rest = trim(t.skip(c + 1));
                if key.len() == 0 {
                    None
                } else if rest.len() > 0 && (rest[0] == '|' || rest[0] == '>' || rest[0] == '&'
                    || rest[0] == '*' || rest[0] == '!') {
                    // Block scalars, anchors, aliases and tags.
                    None
                } else if rest.len() == 0 {
                    // An empty value, or a block sequence on the lines below.
                    match block_items(ls, i + 1, Seq::empty()) {
                        None => None,
                        Some((items, j)) => if i < j <= ls.len() {
                            fm_from(ls, j, acc.push((key, joined(items))))
                        } else {
                            None
                        },
                    }
                } else if rest.len() >= 2 && rest[0] == '[' && rest.last() == ']' {
                    let inner = rest.subrange(1, rest.len() - 1);
                    fm_from(ls, i + 1, acc.push((key, joined(flow_items(split_commas(inner))))))
                } else if rest[0] == '{' {
                    // A flow mapping.
                    None
                } else {
                    fm_from(ls, i + 1, acc.push((key, unquoted(rest))))
                }
            }
        }
    }
}

/// What [`parse`] makes of `text`.
pub open spec fn front_matter(text: Seq<char>) -> Option<Seq<(Seq<char>, Seq<char>)>> {
    fm_from(lines_of(text), 0, Seq::empty())
}

/// `v[lo..hi]` with one matching pair of quotes stripped.
fn unquote(v: &Vec<char>, lo: usize, hi: usize) -> (r: String)
    requires
        lo <= hi <= v@.len(),
    ensures
        r@ == unquoted(v@.subrange(lo as int, hi as int)),
{
    if hi - lo >= 2 && ((v[lo] == '"' && v[hi - 1] == '"') || (v[lo] == '\'' && v[hi - 1] == '\'')) {
        let r = string_of(v, lo + 1, hi - 1);
        proof {
            assert(v@.subrange(lo as int, hi as int).subrange(1, hi - lo - 1) =~= v@.subrange(
                lo + 1,
                hi - 1,
            ));
        }
        r
    } else {
        string_of(v, lo, hi)
    }
}

/// Appends `item` to a `, `-joined list.
fn join_push(out: &mut String, items: Ghost<Seq<Seq<char>>>, count: usize, item: &String)
    requires
        old(out)@ == joined(items@),
        count == items@.len(),
    ensures
        final(out)@ == joined(items@.push(item@)),
{
    let ghost all = items@.push(item@);
    proof {
        assert(all.drop_last() =~= items@);
    }
    if count > 0 {
        push_char(out, ',');
        push_char(out, ' ');
        proof {
            assert(out@ =~= joined(items@) + seq![',', ' ']);
        }
    } else {
        proof {
            assert(out@ =~= Seq::<char>::empty());
        }
    }
    push_str(out, item.as_str());
    proof {
        if items@.len() == 0 {
            assert(out@ =~= item@);
        }
    }
}

proof fn lemma_entries_v_push(r: Seq<(String, String)>, x: (String, String))
    ensures
        entries_v(r.push(x)) == entries_v(r).push((x.0@, x.1@)),
{
    assert(entries_v(r.push(x)) =~= entries_v(r).push((x.0@, x.1@)));
}

/// The flow sequence `v[lo..hi]` (without its brackets), flattened.
fn flow_value(v: &Vec<char>, lo: usize, hi: usize) -> (r: String)
    requires
        lo <= hi <= v@.len(),
    ensures
        r@ == joined(flow_items(split_commas(v@.subrange(lo as int, hi as int)))),
{
    let mut out = String::new();
    let ghost mut items: Seq<Seq<char>> = Seq::empty();
    let ghost mut pieces: Seq<Seq<char>> = Seq::empty();
    let mut count: usize = 0;
    let mut p = lo;
    proof {
        assert(out@ =~= joined(items));
    }
    loop
        invariant
            lo <= p <= hi <= v@.len(),
            pieces + split_commas(v@.subrange(p as int, hi as int)) == split_commas(
                v@.subrange(lo as int, hi as int),
            ),
            items == flow_items(pieces),
            out@ == joined(items),
            count == items.len(),
            items.len() <= pieces.len(),
            pieces.len() <= p - lo,
        decreases hi - p,
    {
        let ghost rest = v@.subrange(p as int, hi as int);
        let q = find_char(v, p, hi, ',');
        proof {
            lemma_find_first(rest, is_char(','));
        }
        let (a, b) = trim_range(v, p, q);
        let x = unquote(v, a, b);
        proof {
            assert(rest.take(q - p) =~= v@.subrange(p as int, q as int));
            let piece = v@.subrange(p as int, q as int);
            assert(pieces.push(piece).drop_last() =~= pieces);
        }
        let ghost piece = v@.subrange(p as int, q as int);
        if x.as_str().is_empty() {
            proof {
                pieces = pieces.push(piece);
            }
        } else {
            join_push(&mut out, Ghost(items), count, &x);
            proof {
                pieces = pieces.push(piece);
                items = items.push(x@);
            }
            count = count + 1;
        }
        if q < hi {
            proof {
                assert(rest.skip(q - p + 1) =~= v@.subrange(q + 1, hi as int));
                assert(split_commas(rest) == seq![piece] + split_commas(v@.subrange(q + 1, hi as int)));
                assert(pieces + split_commas(v@.subrange(q + 1, hi as int)) =~= (pieces.drop_last()
                    + split_commas(rest)));
            }
            p = q + 1;
        } else {
            proof {
                assert(rest.take(q - p) =~= rest);
                assert(split_commas(rest) == seq![rest]);
                assert(pieces =~= split_commas(v@.subrange(lo as int, hi as int)));
            }
            return out;
        }
    }
}

/// Parses the subset, or `None` if anything in it is not understood or it
/// holds no entry. The `---` delimiters may or may not be part of `text`;
/// they are skipped rather than required. A trailing `# ...` stays in the
/// value: `title: C# in 2026` is a value, not a value and a comment.
pub fn parse(text: &str) -> (r: Option<Vec<(String, String)>>)
    ensures
        match r {
            Some(e) => front_matter(text@) == Some(entries_v(e@)),
            None => front_matter(text@) is None,
        },
{
    let v = chars_of(text);
    let ls = line_ranges(&v);
    let ghost lines = lines_of(v@);
    let mut entries: Vec<(String, String)> = Vec::new();
    let mut i: usize = 0;
    proof {
        assert(entries_v(entries@) =~= Seq::<(Seq<char>, Seq<char>)>::empty());
    }
    while i < ls.len()
        invariant
            v@ == text@,
            lines == lines_of(v@),
            ls@.len() == lines.len(),
            forall|k: int|
                0 <= k < ls@.len() ==> (#[trigger] ls@[k]).0 <= ls@[k].1 <= v@.len() && v@.subrange(
                    ls@[k].0 as int,
                    ls@[k].1 as int,
                ) == lines[k],
            i <= ls@.len(),
            fm_from(lines, 0, Seq::empty()) == fm_from(lines, i as int, entries_v(entries@)),
        decreases ls.len() - i,
    {
        let (lo, hi) = ls[i];
        let ghost line = lines[i as int];
        let te = trim_end_range(&v, lo, hi);
        let ghost t = v@.subrange(lo as int, te as int);
        let ts = trim_start_range(&v, lo, te);
        proof {
            assert(line == v@.subrange(lo as int, hi as int));
        }
        proof {
            reveal_strlit("---");
            assert("---"@ =~= seq!['-', '-', '-']);
            assert(trim_end(line) == t);
            assert(trim_start(t) == v@.subrange(ts as int, te as int));
            if ts < te {
                assert(trim_start(t).take(1) =~= seq![v@[ts as int]]);
            }
        }
        if te == lo || eq_at(&v, lo, te, "---") || (ts < te && v[ts] == '#') {
            proof {
                assert(fm_from(lines, i as int, entries_v(entries@)) == fm_from(
                    lines,
                    i + 1,
                    entries_v(entries@),
                ));
            }
            i = i + 1;
            continue;
        }
        proof {
            if ts == te {
                assert(trim_start(t).len() == 0);
            } else {
                if trim_start(t).take(1) == seq!['#'] {
                    assert(trim_start(t).take(1)[0] == '#');
                }
            }
            assert(!starts_with(trim_start(t), seq!['#']));
        }
        if lo < hi && (v[lo] == ' ' || v[lo] == '\t') {
            return None;
        }
        let c = find_char(&v, lo, te, ':');
        proof {
            lemma_find_first(t, is_char(':'));
        }
        if c >= te {
            return None;
        }
        let (ka, kb) = trim_range(&v, lo, c);
        let (ra, rb) = trim_range(&v, c + 1, te);
        proof {
            assert(t.take(c - lo) =~= v@.subrange(lo as int, c as int));
            assert(t.skip(c - lo + 1) =~= v@.subrange(c + 1, te as int));
        }
        let ghost key = v@.subrange(ka as int, kb as int);
        let ghost rest = v@.subrange(ra as int, rb as int);
        if ka == kb {
            return None;
        }
        if ra < rb && (v[ra] == '|' || v[ra] == '>' || v[ra] == '&' || v[ra] == '*' || v[ra]
            == '!') {
            return None;
        }
        let key_s = string_of(&v, ka, kb);
        if ra == rb {
            // An empty value, or a block sequence below.
            let mut value = String::new();
            let ghost mut items: Seq<Seq<char>> = Seq::empty();
            let mut count: usize = 0;
            let mut failed = false;
            let mut j = i + 1;
            proof {
                assert(value@ =~= joined(items));
            }
            loop
                invariant_except_break
                    !failed,
                invariant
                    v@ == text@,
                    lines == lines_of(v@),
                    ls@.len() == lines.len(),
                    forall|k: int|
                        0 <= k < ls@.len() ==> (#[trigger] ls@[k]).0 <= ls@[k].1 <= v@.len()
                            && v@.subrange(ls@[k].0 as int, ls@[k].1 as int) == lines[k],
                    i < j <= ls@.len(),
                    block_items(lines, i + 1, Seq::empty()) == block_items(lines, j as int, items),
                    value@ == joined(items),
                    count == items.len(),
                    count <= j - i - 1,
                ensures
                    i < j <= ls@.len(),
                    failed ==> block_items(lines, i + 1, Seq::empty()) is None,
                    !failed ==> block_items(lines, i + 1, Seq::empty()) == Some((items, j as int)),
                    value@ == joined(items),
                decreases ls.len() - j,
            {
                if j >= ls.len() {
                    break;
                }
                let (nlo, nhi) = ls[j];
                proof {
                    assert(lines[j as int] == v@.subrange(nlo as int, nhi as int));
                }
                if !(nlo < nhi && (v[nlo] == ' ' || v[nlo] == '\t')) {
                    break;
                }
                let s0 = trim_start_range(&v, nlo, nhi);
                if !(nhi - s0 >= 2 && v[s0] == '-' && v[s0 + 1] == ' ') {
                    proof {
                        let item = v@.subrange(s0 as int, nhi as int);
                        assert(item == trim_start(lines[j as int]));
                        if nhi - s0 >= 2 {
                            assert(item.take(2) =~= seq![v@[s0 as int], v@[s0 + 1]]);
                            if item.take(2) == seq!['-', ' '] {
                                assert(item.take(2)[0] == '-');
                                assert(item.take(2)[1] == ' ');
                            }
                        }
                        assert(!starts_with(item, seq!['-', ' ']));
                        assert(indented(lines[j as int]));
                        assert(block_items(lines, j as int, items) is None);
                    }
                    failed = true;
                    break;
                }
                let (ia, ib) = trim_range(&v, s0 + 2, nhi);
                let item = unquote(&v, ia, ib);
                proof {
                    let it = v@.subrange(s0 as int, nhi as int);
                    assert(it.take(2) =~= seq!['-', ' ']);
                    assert(it.skip(2) =~= v@.subrange(s0 + 2, nhi as int));
                }
                join_push(&mut value, Ghost(items), count, &item);
                proof {
                    items = items.push(item@);
                }
                count = count + 1;
                j = j + 1;
            }
            if failed {
                return None;
            }
            let x = (key_s, value);
            proof {
                lemma_entries_v_push(entries@, x);
            }
            entries.push(x);
            i = j;
        } else if rb - ra >= 2 && v[ra] == '[' && v[rb - 1] == ']' {
            let value = flow_value(&v, ra + 1, rb - 1);
            proof {
                assert(rest.subrange(1, rest.len() - 1) =~= v@.subrange(ra + 1, rb - 1));
            }
            let x = (key_s, value);
            proof {
                lemma_entries_v_push(entries@, x);
            }
            entries.push(x);
            i = i + 1;
        } else if v[ra] == '{' {
            return None;
        } else {
            let value = unquote(&v, ra, rb);
            let x = (key_s, value);
            proof {
                lemma_entries_v_push(entries@, x);
            }
            entries.push(x);
            i = i + 1;
        }
    }
    if entries.len() == 0 {
        None
    } else {
        Some(entries)
    }
}

} // verus!
