//! Sequence diagrams: a box per participant with a lifeline under it, and an
//! arrow or a note per step.

use vstd::prelude::*;
use crate::text::{chars_of, find_char, has_at, line_ranges, lit, string_of, trim_range};
use crate::mermaid::{keyword, is_keyword, Shape};
use crate::grid::{Grid, Cell, put_cells, cell_cols, render_cells, text_from};
use crate::layered::{NodeBox, draw_box, GAP, boxed, box_edges, box_interior, put_char};
use crate::width::WidthCalc;

verus! {

pub enum Step {
    Message { from: usize, to: usize, text: String, dashed: bool },
    Note { over: Vec<usize>, text: String },
}

/// A line that opens a control-flow block (`loop`, `alt`, `opt`, `par`,
/// `else`, `end`) or changes activation, which this renderer declines: a
/// non-blank line, not a comment, a participant, an actor or a note, whose
/// first word is one of those.
pub open spec fn block_line(l: Seq<char>) -> bool {
    let t = crate::text::trim(l);
    &&& t.len() > 0
    &&& !crate::text::starts_with(t, "%%"@)
    &&& !crate::text::starts_with(t, "participant "@)
    &&& !crate::text::starts_with(t, "actor "@)
    &&& !crate::text::starts_with(t, "Note "@)
    &&& (is_keyword(t, "loop"@) || is_keyword(t, "alt"@) || is_keyword(t, "opt"@) || is_keyword(t, "par"@)
        || is_keyword(t, "else"@) || is_keyword(t, "end"@) || is_keyword(t, "activate"@)
        || is_keyword(t, "deactivate"@))
}

/// A line that becomes one step of the diagram, a message or a note: not
/// blank, not a comment, and not a participant or actor declaration.
pub open spec fn step_line(l: Seq<char>) -> bool {
    let t = crate::text::trim(l);
    &&& t.len() > 0
    &&& !crate::text::starts_with(t, "%%"@)
    &&& !crate::text::starts_with(t, "participant "@)
    &&& !crate::text::starts_with(t, "actor "@)
}

/// How many of the lines after the header, up to the `k`th, are steps.
pub open spec fn step_count(ls: Seq<Seq<char>>, k: int) -> nat
    decreases k,
{
    if k <= 1 {
        0
    } else {
        step_count(ls, k - 1) + (if step_line(ls[k - 1]) { 1nat } else { 0nat })
    }
}

/// Every participant a step names exists.
pub open spec fn steps_ok(steps: Seq<Step>, n: nat) -> bool {
    forall|k: int|
        0 <= k < steps.len() ==> match #[trigger] steps[k] {
            Step::Message { from, to, .. } => from < n && to < n,
            Step::Note { over, .. } => over@.len() > 0 && forall|j: int|
                0 <= j < over@.len() ==> #[trigger] over@[j] < n,
        }
}

/// The first position at or after `lo` where `p` occurs in `v[..hi]`.
fn find_str(v: &Vec<char>, lo: usize, hi: usize, p: &Vec<char>) -> (r: Option<usize>)
    requires
        lo <= hi <= v@.len(),
    ensures
        r matches Some(i) ==> lo <= i && i + p@.len() <= hi,
        match r {
            Some(i) => lo <= i <= hi && crate::text::starts_with(v@.subrange(i as int, hi as int), p@)
                && forall|j: int| lo <= j < i ==> !crate::text::starts_with(#[trigger] v@.subrange(j, hi as int), p@),
            None => forall|j: int| lo <= j <= hi ==> !crate::text::starts_with(#[trigger] v@.subrange(j, hi as int), p@),
        },
{
    let mut i = lo;
    while i < hi
        invariant
            lo <= i <= hi <= v@.len(),
            forall|j: int| lo <= j < i ==> !crate::text::starts_with(#[trigger] v@.subrange(j, hi as int), p@),
        decreases hi - i,
    {
        if has_at(v, i, hi, p) {
            proof {
                assert(v@.subrange(i as int, hi as int).len() == hi - i);
            }
            return Some(i);
        }
        i = i + 1;
    }
    proof {
        assert(v@.subrange(hi as int, hi as int).len() == 0);
        if p@.len() == 0 {
            assert(v@.subrange(hi as int, hi as int).take(0) =~= p@);
        }
    }
    if p.len() == 0 {
        return Some(hi);
    }
    None
}

/// The index of participant `v[lo..hi]` (trimmed), added if it is new.
fn intern(names: &mut Vec<(String, String)>, v: &Vec<char>, lo: usize, hi: usize) -> (r: usize)
    requires
        lo <= hi <= v@.len(),
    ensures
        r < final(names)@.len(),
        final(names)@.len() >= old(names)@.len(),
{
    let (a, b) = trim_range(v, lo, hi);
    let id = string_of(v, a, b);
    let mut k: usize = 0;
    while k < names.len()
        invariant
            k <= names@.len(),
            names == old(names),
        decreases names.len() - k,
    {
        if names[k].0 == id {
            return k;
        }
        k = k + 1;
    }
    let label = id.clone();
    names.push((id, label));
    names.len() - 1
}

/// Render a `sequenceDiagram`, or `None` if it uses anything unsupported.
#[verifier::loop_isolation(false)]
pub fn render(code: &str, calc: &WidthCalc) -> (r: Option<Vec<String>>)
    ensures
        (exists|k: int| 1 <= k < crate::text::lines_of(code@).len()
            && #[trigger] block_line(crate::text::lines_of(code@)[k])) ==> r is None,
        r matches Some(rows) ==> {
            let ls = crate::text::lines_of(code@);
            &&& step_count(ls, ls.len() as int) > 0
            &&& rows@.len() == 3 * step_count(ls, ls.len() as int) + 4
        },
{
    let v = chars_of(code);
    let lines = line_ranges(&v);
    let ghost ls = crate::text::lines_of(v@);
    let mut names: Vec<(String, String)> = Vec::new();
    let mut steps: Vec<Step> = Vec::new();
    let participant = lit("participant ");
    let actor = lit("actor ");
    let note = lit("Note ");
    let as_word = lit(" as ");
    let over_word = lit("over ");
    let right_of = lit("right of ");
    let left_of = lit("left of ");
    let comment = lit("%%");
    let arrows = [lit("-->>"), lit("->>"), lit("-->"), lit("->"), lit("--x"), lit("-x")];
    let mut li: usize = 1;
    while li < lines.len()
        invariant
            1 <= li,
            v@ == code@,
            ls == crate::text::lines_of(v@),
            lines@.len() == ls.len(),
            comment@ == "%%"@,
            participant@ == "participant "@,
            actor@ == "actor "@,
            note@ == "Note "@,
            forall|k: int| 0 <= k < lines@.len() ==> (#[trigger] lines@[k]).0 <= lines@[k].1 <= v@.len()
                && v@.subrange(lines@[k].0 as int, lines@[k].1 as int) == ls[k],
            forall|k: int| 1 <= k < li && k < ls.len() ==> !#[trigger] block_line(ls[k]),
            steps_ok(steps@, names@.len() as nat),
            li <= lines@.len() || li == 1,
            steps@.len() == step_count(ls, li as int),
        decreases lines.len() - li,
    {
        let (la, lb) = lines[li];
        let ghost cur = li as int;
        li = li + 1;
        let (a, b) = trim_range(&v, la, lb);
        proof {
            assert(v@.subrange(a as int, b as int) == crate::text::trim(ls[cur]));
        }
        if a == b || has_at(&v, a, b, &comment) {
            continue;
        }
        let is_participant = has_at(&v, a, b, &participant);
        let is_actor = has_at(&v, a, b, &actor);
        if is_participant || is_actor {
            let p_len = if is_participant { participant.len() } else { actor.len() };
            proof {
                assert(v@.subrange(a as int, b as int).len() == b - a);
            }
            let rest = a + p_len;
            let (id, label) = match find_str(&v, rest, b, &as_word) {
                Some(at) => ((rest, at), (at + as_word.len(), b)),
                None => ((rest, b), (rest, b)),
            };
            let idx = intern(&mut names, &v, id.0, id.1);
            let (x, y) = trim_range(&v, label.0, label.1);
            let key = names[idx].0.clone();
            names.set(idx, (key, string_of(&v, x, y)));
            continue;
        }
        proof {
            assert(step_line(ls[cur]));
            assert(step_count(ls, li as int) == step_count(ls, cur) + 1);
        }
        if has_at(&v, a, b, &note) {
            proof {
                assert(v@.subrange(a as int, b as int).len() == b - a);
            }
            let rest = a + note.len();
            let skip = if has_at(&v, rest, b, &over_word) {
                over_word.len()
            } else if has_at(&v, rest, b, &right_of) {
                right_of.len()
            } else if has_at(&v, rest, b, &left_of) {
                left_of.len()
            } else {
                return None;
            };
            proof {
                assert(v@.subrange(rest as int, b as int).len() == b - rest);
            }
            let rest = rest + skip;
            let colon = find_char(&v, rest, b, ':');
            if colon == b {
                return None;
            }
            let mut over: Vec<usize> = Vec::new();
            let mut start = rest;
            loop
                invariant
                    rest <= start <= colon,
                    colon < b,
                    b <= v@.len(),
                    forall|j: int| 0 <= j < over@.len() ==> #[trigger] over@[j] < names@.len(),
                    steps_ok(steps@, names@.len() as nat),
                decreases colon - start,
            {
                let end = find_char(&v, start, colon, ',');
                let idx = intern(&mut names, &v, start, end);
                over.push(idx);
                if end == colon {
                    break;
                }
                start = end + 1;
            }
            let (x, y) = trim_range(&v, colon + 1, b);
            steps.push(Step::Note { over, text: string_of(&v, x, y) });
            continue;
        }
        // Control-flow blocks change the shape of the diagram, so decline,
        // as words: `optional->>B: hi` names a participant.
        if keyword(&v, a, b, "loop") || keyword(&v, a, b, "alt") || keyword(&v, a, b, "opt")
            || keyword(&v, a, b, "par") || keyword(&v, a, b, "else") || keyword(&v, a, b, "end")
            || keyword(&v, a, b, "activate") || keyword(&v, a, b, "deactivate") {
            return None;
        }
        proof {
            assert(!block_line(ls[cur]));
        }
        // The message text is separated off first, so an arrow inside the
        // message is part of the message.
        let colon = find_char(&v, a, b, ':');
        if colon == b {
            return None;
        }
        let mut which: usize = 0;
        let mut at: usize = 0;
        let mut found = false;
        while which < 6
            invariant
                which <= 6,
                found ==> at + arrows@[which as int]@.len() <= colon,
                found ==> a <= at,
                found ==> which < 6,
                a <= colon < b <= v@.len(),
            decreases 6 - which + (if found { 0int } else { 1int }),
        {
            if found {
                break;
            }
            match find_str(&v, a, colon, &arrows[which]) {
                Some(i) => {
                    at = i;
                    found = true;
                },
                None => {
                    which = which + 1;
                },
            }
        }
        if !found {
            return None;
        }
        let dashed = which == 0 || which == 2 || which == 4;
        let from = intern(&mut names, &v, a, at);
        let to = intern(&mut names, &v, at + arrows[which].len(), colon);
        let (x, y) = trim_range(&v, colon + 1, b);
        steps.push(Step::Message { from, to, text: string_of(&v, x, y), dashed });
    }
    if names.len() == 0 || steps.len() == 0 {
        return None;
    }
    proof {
        assert(li == ls.len());
        assert(ls == crate::text::lines_of(code@));
    }
    draw(&names, &steps, calc)
}

/// The smallest of a non-empty run.
pub open spec fn least(s: Seq<usize>) -> usize
    decreases s.len(),
{
    if s.len() <= 1 {
        s[0]
    } else {
        let m = least(s.drop_last());
        if s.last() < m { s.last() } else { m }
    }
}

/// The largest of a non-empty run.
pub open spec fn greatest(s: Seq<usize>) -> usize
    decreases s.len(),
{
    if s.len() <= 1 {
        s[0]
    } else {
        let m = greatest(s.drop_last());
        if s.last() > m { s.last() } else { m }
    }
}

/// `a - b`, stopping at zero.
pub open spec fn sat_sub(a: usize, b: usize) -> usize {
    if a >= b { (a - b) as usize } else { 0 }
}

/// `a + b`, stopping at `usize::MAX`.
pub open spec fn sat_add(a: usize, b: usize) -> usize {
    if a + b <= usize::MAX { (a + b) as usize } else { usize::MAX }
}

/// Left and right columns a note stretches between: a column left of the
/// centre of the leftmost participant it is over, to two right of the
/// rightmost one's.
fn note_span(over: &Vec<usize>, centers: &Vec<usize>) -> (r: (usize, usize))
    requires
        over@.len() > 0,
        forall|j: int| 0 <= j < over@.len() ==> #[trigger] over@[j] < centers@.len(),
    ensures
        r == (sat_sub(centers@[least(over@) as int], 1), sat_add(centers@[greatest(over@) as int], 2)),
{
    let mut lo = over[0];
    let mut hi = over[0];
    let mut k: usize = 1;
    proof {
        assert(over@.take(1).len() == 1 && over@.take(1)[0] == over@[0]);
    }
    while k < over.len()
        invariant
            1 <= k <= over@.len(),
            lo < centers@.len(),
            hi < centers@.len(),
            lo == least(over@.take(k as int)),
            hi == greatest(over@.take(k as int)),
            forall|j: int| 0 <= j < over@.len() ==> #[trigger] over@[j] < centers@.len(),
        decreases over.len() - k,
    {
        proof {
            assert(over@.take(k + 1).drop_last() =~= over@.take(k as int));
            assert(over@.take(k + 1).last() == over@[k as int]);
        }
        if over[k] < lo {
            lo = over[k];
        }
        if over[k] > hi {
            hi = over[k];
        }
        k = k + 1;
    }
    proof {
        assert(over@.take(k as int) =~= over@);
    }
    (centers[lo].saturating_sub(1), centers[hi].saturating_add(2))
}

/// How wide a note's box is: the columns it stretches across, or its text
/// and a margin of four, whichever is more.
fn note_width(text: &String, lo: usize, hi: usize, calc: &WidthCalc) -> (r: usize)
    ensures
        ({
            let span = sat_sub(sat_add(hi, 1), lo);
            let w = sat_add(crate::width::min_usize(calc.cols(text@)) as usize, 4);
            r == (if span > w { span } else { w })
        }),
{
    let span = hi.saturating_add(1).saturating_sub(lo);
    let w = calc.str(text.as_str()).saturating_add(4);
    if span > w { span } else { w }
}

/// Draw the participants, their lifelines, and one row band per step, in
/// document order: step `t`'s arrow lies on row `4 + 3t`, its head pointing
/// away from its source (`▶` rightwards, `◀` otherwise) and its line dashed
/// exactly when the message is.
#[verifier::loop_isolation(false)]
#[verifier::rlimit(60)]
#[verifier::spinoff_prover]
fn draw(names: &Vec<(String, String)>, steps: &Vec<Step>, calc: &WidthCalc) -> (r: Option<Vec<String>>)
    requires
        steps_ok(steps@, names@.len() as nat),
    ensures
        r matches Some(rows) ==> rows@.len() == 3 * steps@.len() + 4,
        r matches Some(rows) ==> forall|t: int| 0 <= t < steps@.len() ==> (#[trigger] steps@[t] matches Step::Message { from, to, .. }
            ==> rows@[4 + 3 * t]@.contains(if from < to { '▶' } else { '◀' })),
        r matches Some(rows) ==> forall|t: int| 0 <= t < steps@.len() ==> (#[trigger] steps@[t] matches Step::Message { from, to, dashed, .. }
            ==> from != to ==> rows@[4 + 3 * t]@.contains(if dashed { '╌' } else { '─' })),
{
    let n = names.len();
    // Each lifeline gets a column wide enough for its own box, and for the
    // longest message that starts or ends on it.
    let mut column_width: Vec<usize> = Vec::new();
    let mut i: usize = 0;
    while i < n
        invariant
            i <= n,
            column_width@.len() == i,
            forall|k: int| 0 <= k < i ==> #[trigger] column_width@[k] >= 4,
        decreases n - i,
    {
        let w = match calc.str(names[i].1.as_str()).checked_add(4) {
            Some(v) => v,
            None => return None,
        };
        column_width.push(w);
        i = i + 1;
    }
    let mut s: usize = 0;
    while s < steps.len()
        invariant
            s <= steps@.len(),
            column_width@.len() == n,
            forall|k: int| 0 <= k < n ==> #[trigger] column_width@[k] >= 4,
        decreases steps.len() - s,
    {
        if let Step::Message { from, to, text, .. } = &steps[s] {
            let (lo, hi) = if *from < *to { (*from, *to) } else { (*to, *from) };
            let span = if hi - lo > 1 { hi - lo } else { 1 };
            let need = match calc.str(text.as_str()).checked_add(4) {
                Some(v) => v / span,
                None => return None,
            };
            let mut k = lo;
            while k <= hi
                invariant
                    lo <= k,
                    hi < n,
                    column_width@.len() == n,
                    forall|q: int| 0 <= q < n ==> #[trigger] column_width@[q] >= 4,
                decreases hi + 1 - k,
            {
                if need > column_width[k] {
                    column_width.set(k, need);
                }
                k = k + 1;
            }
        }
        s = s + 1;
    }
    let mut centers: Vec<usize> = Vec::new();
    let mut x: usize = 0;
    let mut i: usize = 0;
    while i < n
        invariant
            i <= n,
            centers@.len() == i,
            column_width@.len() == n,
            forall|k: int| 0 <= k < i ==> #[trigger] centers@[k] + 5 <= x,
            forall|k: int, j: int| 0 <= k < j < i ==> #[trigger] centers@[k] + 5 <= #[trigger] centers@[j],
            forall|k: int| 0 <= k < n ==> #[trigger] column_width@[k] >= 4,
        decreases n - i,
    {
        let w = column_width[i];
        centers.push(
            match x.checked_add(w / 2) {
                Some(v) => v,
                None => return None,
            },
        );
        x = match x.checked_add(w) {
            Some(v) => match v.checked_add(GAP) {
                Some(v) => v,
                None => return None,
            },
            None => return None,
        };
        i = i + 1;
    }
    // A note may be wider than the participants it spans; the canvas leaves
    // room so its right border is not clipped.
    let mut width = match x.checked_add(2) {
        Some(v) => v,
        None => return None,
    };
    let mut s: usize = 0;
    while s < steps.len()
        invariant
            s <= steps@.len(),
            centers@.len() == n,
            width >= x + 2,
        decreases steps.len() - s,
    {
        if let Step::Note { over, text } = &steps[s] {
            let (lo, hi) = note_span(over, &centers);
            let reach = match lo.checked_add(note_width(text, lo, hi, calc)) {
                Some(v) => v,
                None => return None,
            };
            if reach > width {
                width = reach;
            }
        }
        s = s + 1;
    }
    let height = match steps.len().checked_mul(3) {
        Some(v) => match v.checked_add(4) {
            Some(v) => v,
            None => return None,
        },
        None => return None,
    };
    let mut grid = match Grid::new(width, height) {
        Some(g) => g,
        None => return None,
    };
    let mut i: usize = 0;
    while i < n
        invariant
            i <= n,
            grid.wf(),
            grid.height == height,
            grid.width == width,
            centers@.len() == n,
        decreases n - i,
    {
        let w = match calc.str(names[i].1.as_str()).checked_add(4) {
            Some(v) => v,
            None => return None,
        };
        if centers[i] < w / 2 || centers[i] - w / 2 >= usize::MAX - w {
            return None;
        }
        let b = NodeBox { x: centers[i] - w / 2, y: 0, w, h: 3 };
        draw_box(&mut grid, &b, names[i].1.as_str(), Shape::Rect, calc);
        i = i + 1;
    }
    // Lifelines run the whole height, under the boxes.
    let mut i: usize = 0;
    while i < n
        invariant
            i <= n,
            grid.wf(),
            grid.height == height,
            grid.width == width,
            centers@.len() == n,
            height >= 4,
        decreases n - i,
    {
        grid.vline(centers[i], 3, height - 1, calc);
        i = i + 1;
    }
    let mut s: usize = 0;
    while s < steps.len()
        invariant
            s <= steps@.len(),
            grid.wf(),
            grid.height == height,
            grid.width == width,
            centers@.len() == n,
            height == steps@.len() * 3 + 4,
            forall|k: int| 0 <= k < n ==> #[trigger] centers@[k] + 4 <= width,
            forall|t: int| 0 <= t < s ==> #[trigger] head_drawn(grid.cells@, width as nat, centers@, steps@, t),
        decreases steps.len() - s,
    {
        let y = 4 + s * 3;
        let ghost c0 = grid.cells@;
        match &steps[s] {
            Step::Message { from, to, text, dashed } => {
                let (fx, tx) = (centers[*from], centers[*to]);
                let (lo, hi) = if fx < tx { (fx, tx) } else { (tx, fx) };
                let glyph = if *dashed { '╌' } else { '─' };
                let mut x = lo;
                loop
                    invariant
                        grid.wf(),
                        grid.height == height,
                        grid.width == width,
                        lo <= x <= hi,
                        rows_kept(c0, grid.cells@, width as nat, y as nat, y as nat),
                        lo + 4 <= hi ==> x > lo + 3 ==> grid.cells@[y * width + lo + 3] == Cell::Char(glyph),
                    decreases hi - x,
                {
                    let ghost before = grid.cells@;
                    grid.put(x, y, glyph, calc);
                    proof {
                        lemma_put_row(before, width as nat, height as nat, x as nat, y as nat, glyph, cell_cols(*calc, glyph));
                        if x == lo + 3 {
                            lemma_put_here(before, width as nat, height as nat, x as nat, y as nat, glyph, cell_cols(*calc, glyph));
                        } else if x > lo + 3 {
                            lemma_put_at(before, width as nat, height as nat, x as nat, y as nat, glyph, cell_cols(*calc, glyph), (lo + 3) as nat);
                        }
                    }
                    if x == hi {
                        break;
                    }
                    x = x + 1;
                }
                let ghost b1 = grid.cells@;
                grid.put(fx, y, if tx > fx { '├' } else { '┤' }, calc);
                let ghost b2 = grid.cells@;
                let head = if tx > fx { '▶' } else { '◀' };
                grid.put(tx, y, head, calc);
                let ghost b3 = grid.cells@;
                // The label sits on the row above its arrow, clear of both
                // lifelines.
                grid.text(lo.saturating_add(2), y - 1, text.as_str(), calc);
                proof {
                    let side = if tx > fx { '├' } else { '┤' };
                    let lx = if lo + 2 <= usize::MAX { (lo + 2) as nat } else { usize::MAX as nat };
                    lemma_message_row(
                        c0, b1, b2, b3, grid.cells@, width as nat, height as nat, y as nat, lo as nat, hi as nat,
                        fx as nat, tx as nat, glyph, side, head, cell_cols(*calc, side), cell_cols(*calc, head), lx, text@, *calc,
                    );
                    if *from < *to {
                        assert(centers@[*from as int] < centers@[*to as int]);
                    } else if *to < *from {
                        assert(centers@[*to as int] < centers@[*from as int]);
                    }
                    assert(head_drawn(grid.cells@, width as nat, centers@, steps@, s as int));
                }
            },
            Step::Note { over, text } => {
                let (lo, hi) = note_span(over, &centers);
                let w = note_width(text, lo, hi, calc);
                if w >= 1 && lo < usize::MAX - w {
                    let b = NodeBox { x: lo, y: y - 1, w, h: 3 };
                    draw_box(&mut grid, &b, text.as_str(), Shape::Round, calc);
                    proof {
                        lemma_boxed_rows(c0, width as nat, height as nat, b, text@, Shape::Round, *calc);
                    }
                }
                proof {
                    assert(rows_kept(c0, grid.cells@, width as nat, (y - 1) as nat, (y + 1) as nat));
                    assert(head_drawn(grid.cells@, width as nat, centers@, steps@, s as int));
                }
            },
        }
        proof {
            assert((3 + 3 * s) * width <= width * height) by (nonlinear_arith)
                requires
                    3 + 3 * s <= height,
            ;
            lemma_heads_kept(c0, grid.cells@, width as nat, centers@, steps@, s as int);
        }
        s = s + 1;
    }
    let rows = grid.rows();
    proof {
        assert forall|t: int| 0 <= t < steps@.len() implies (#[trigger] steps@[t] matches Step::Message { from, to, .. }
            ==> rows@[4 + 3 * t]@.contains(if from < to { '▶' } else { '◀' })) by {
            assert(head_drawn(grid.cells@, width as nat, centers@, steps@, t));
            if let Step::Message { from, to, .. } = steps@[t] {
                let head = if from < to { '▶' } else { '◀' };
                let yy = 4 + 3 * t;
                let tx = centers@[to as int] as int;
                let sub = grid.cells@.subrange(yy * width, yy * width + width);
                assert(yy * width + width <= grid.cells@.len()) by (nonlinear_arith)
                    requires
                        yy < height,
                        grid.cells@.len() == width * height,
                ;
                assert(sub[tx] == grid.cells@[yy * width + tx]);
                lemma_render_holds(sub, tx, head);
                lemma_trim_end_holds(render_cells(sub), head);
            }
        }
        assert forall|t: int| 0 <= t < steps@.len() implies (#[trigger] steps@[t] matches Step::Message { from, to, dashed, .. }
            ==> from != to ==> rows@[4 + 3 * t]@.contains(if dashed { '╌' } else { '─' })) by {
            assert(head_drawn(grid.cells@, width as nat, centers@, steps@, t));
            if let Step::Message { from, to, dashed, .. } = steps@[t] {
                if from != to {
                    let g = if dashed { '╌' } else { '─' };
                    let yy = 4 + 3 * t;
                    let lo = if from < to { from as int } else { to as int };
                    let c = centers@[lo] + 3;
                    let sub = grid.cells@.subrange(yy * width, yy * width + width);
                    assert(yy * width + width <= grid.cells@.len()) by (nonlinear_arith)
                        requires
                            yy < height,
                            grid.cells@.len() == width * height,
                    ;
                    assert(sub[c] == grid.cells@[yy * width + c]);
                    lemma_render_holds(sub, c, g);
                    lemma_trim_end_holds(render_cells(sub), g);
                }
            }
        }
    }
    Some(rows)
}

/// Step `t`, when it is a message, has its arrow head in row `4 + 3t`,
/// in the column of its target, pointing away from its source.
pub open spec fn head_drawn(cells: Seq<Cell>, width: nat, centers: Seq<usize>, steps: Seq<Step>, t: int) -> bool {
    steps[t] matches Step::Message { from, to, dashed, .. } ==> {
        &&& cells[(4 + 3 * t) * width + centers[to as int]] == Cell::Char(if from < to { '▶' } else { '◀' })
        &&& from != to ==> cells[(4 + 3 * t) * width + centers[if from < to { from as int } else { to as int }] + 3]
            == Cell::Char(if dashed { '╌' } else { '─' })
    }
}

/// A step's drawing leaves the arrow heads of the steps before it alone.
proof fn lemma_heads_kept(c0: Seq<Cell>, c1: Seq<Cell>, width: nat, centers: Seq<usize>, steps: Seq<Step>, s: int)
    requires
        0 <= s,
        rows_kept(c0, c1, width, (3 + 3 * s) as nat, (5 + 3 * s) as nat),
        c0.len() >= (3 + 3 * s) * width,
        forall|t: int| 0 <= t < s ==> #[trigger] head_drawn(c0, width, centers, steps, t),
        head_drawn(c1, width, centers, steps, s),
        forall|t: int| 0 <= t < s ==> (#[trigger] steps[t] matches Step::Message { from, to, .. } ==> to < centers.len() && from < centers.len()),
        forall|k: int| 0 <= k < centers.len() ==> #[trigger] centers[k] + 3 < width,
    ensures
        forall|t: int| 0 <= t < s + 1 ==> #[trigger] head_drawn(c1, width, centers, steps, t),
{
    assert forall|t: int| 0 <= t < s + 1 implies #[trigger] head_drawn(c1, width, centers, steps, t) by {
        if t < s {
            assert(head_drawn(c0, width, centers, steps, t));
            if let Step::Message { from, to, .. } = steps[t] {
                let k = (4 + 3 * t) * width + centers[to as int];
                lemma_cell_before_row((4 + 3 * t) as nat, centers[to as int] as nat, width, (3 + 3 * s) as nat);
                assert(k >= 0) by (nonlinear_arith)
                    requires
                        t >= 0,
                        k == (4 + 3 * t) * width + centers[to as int],
                ;
                assert(c1[k] == c0[k]);
                if from != to {
                    let lo = if from < to { from as int } else { to as int };
                    let k2 = (4 + 3 * t) * width + centers[lo] + 3;
                    lemma_cell_before_row((4 + 3 * t) as nat, (centers[lo] + 3) as nat, width, (3 + 3 * s) as nat);
                    assert(k2 >= 0) by (nonlinear_arith)
                        requires
                            t >= 0,
                            k2 == (4 + 3 * t) * width + centers[lo] + 3,
                    ;
                    assert(c1[k2] == c0[k2]);
                }
            }
        }
    }
}

/// What drawing one message does to the canvas: only its own two rows and
/// the one below change, its arrow head sits in its target's column, and
/// past the source's end the line is drawn in its glyph.
proof fn lemma_message_row(
    c0: Seq<Cell>, b1: Seq<Cell>, b2: Seq<Cell>, b3: Seq<Cell>, c4: Seq<Cell>,
    width: nat, height: nat, y: nat, lo: nat, hi: nat, fx: nat, tx: nat,
    glyph: char, side: char, head: char, sw: nat, hw: nat, lx: nat, text: Seq<char>, calc: WidthCalc,
)
    requires
        c0.len() == width * height,
        rows_kept(c0, b1, width, y, y),
        lo + 4 <= hi ==> b1[(y * width + lo + 3) as int] == Cell::Char(glyph),
        b2 == put_cells(b1, width, height, fx, y, side, sw),
        b3 == put_cells(b2, width, height, tx, y, head, hw),
        c4 == text_from(b3, width, height, lx, (y - 1) as nat, text, 0, calc),
        1 <= sw <= 3,
        1 <= hw <= 3,
        fx == lo || fx == hi,
        tx == lo || tx == hi,
        lo <= hi,
        hi + 4 <= width,
        1 <= y < height,
    ensures
        rows_kept(c0, c4, width, (y - 1) as nat, (y + 1) as nat),
        c4[(y * width + tx) as int] == Cell::Char(head),
        lo + 4 <= hi ==> c4[(y * width + lo + 3) as int] == Cell::Char(glyph),
{
    lemma_put_row(b1, width, height, fx, y, side, sw);
    lemma_put_row(b2, width, height, tx, y, head, hw);
    lemma_rows_kept_trans(c0, b1, b2, width, y, y);
    lemma_rows_kept_trans(c0, b2, b3, width, y, y);
    lemma_put_here(b2, width, height, tx, y, head, hw);
    if lo + 4 <= hi {
        lemma_put_at(b1, width, height, fx, y, side, sw, lo + 3);
        lemma_put_at(b2, width, height, tx, y, head, hw, lo + 3);
    }
    lemma_text_row(b3, width, height, lx, (y - 1) as nat, text, 0, calc);
    lemma_rows_kept_widen(c0, b3, width, y, y, (y - 1) as nat, y + 1);
    lemma_rows_kept_widen(b3, c4, width, (y - 1) as nat, (y - 1) as nat, (y - 1) as nat, y + 1);
    lemma_rows_kept_trans(c0, b3, c4, width, (y - 1) as nat, y + 1);
    assert(y * width + tx < width * height) by (nonlinear_arith)
        requires
            y < height,
            tx < width,
    ;
    assert(y * width + lo + 3 < width * height) by (nonlinear_arith)
        requires
            y < height,
            lo + 3 < width,
    ;
    assert(((y - 1) as nat + 1) * width == y * width);
}

/// A cell of row `row` lies before row `lo` when `row` does.
proof fn lemma_cell_before_row(row: nat, col: nat, width: nat, lo: nat)
    requires
        col < width,
        row < lo,
    ensures
        row * width + col < lo * width,
{
    assert(row * width + col < lo * width) by (nonlinear_arith)
        requires
            col < width,
            row + 1 <= lo,
    ;
}


/// `b` differs from `a` at most in rows `lo` to `hi` of a canvas `width`
/// wide.
pub open spec fn rows_kept(a: Seq<Cell>, b: Seq<Cell>, width: nat, lo: nat, hi: nat) -> bool {
    &&& b.len() == a.len()
    &&& forall|k: int| 0 <= k < a.len() && (k < lo * width || k >= (hi + 1) * width) ==> #[trigger] b[k] == a[k]
}

proof fn lemma_rows_kept_trans(a: Seq<Cell>, b: Seq<Cell>, c: Seq<Cell>, width: nat, lo: nat, hi: nat)
    requires
        rows_kept(a, b, width, lo, hi),
        rows_kept(b, c, width, lo, hi),
    ensures
        rows_kept(a, c, width, lo, hi),
{
    assert forall|k: int| 0 <= k < a.len() && (k < lo * width || k >= (hi + 1) * width) implies #[trigger] c[k] == a[k] by {
        assert(c[k] == b[k]);
    }
}

proof fn lemma_rows_kept_widen(a: Seq<Cell>, b: Seq<Cell>, width: nat, lo1: nat, hi1: nat, lo: nat, hi: nat)
    requires
        rows_kept(a, b, width, lo1, hi1),
        lo <= lo1,
        hi1 <= hi,
    ensures
        rows_kept(a, b, width, lo, hi),
{
    assert(lo * width <= lo1 * width) by (nonlinear_arith)
        requires
            lo <= lo1,
    ;
    assert((hi1 + 1) * width <= (hi + 1) * width) by (nonlinear_arith)
        requires
            hi1 <= hi,
    ;
}

/// Writing a character at column `x` of row `y` leaves any cell of that
/// row at column `c` alone when `c` lies before `x`, or at or past the end
/// of what it writes.
proof fn lemma_put_at(cells: Seq<Cell>, width: nat, height: nat, x: nat, y: nat, ch: char, w: nat, c: nat)
    requires
        w >= 1,
        c < width,
        c < x || c >= x + w,
        y < height,
        cells.len() == width * height,
    ensures
        put_cells(cells, width, height, x, y, ch, w)[(y * width + c) as int] == cells[(y * width + c) as int],
        put_cells(cells, width, height, x, y, ch, w).len() == cells.len(),
{
    assert(y * width + c < width * height) by (nonlinear_arith)
        requires
            y < height,
            c < width,
    ;
    let r = put_cells(cells, width, height, x, y, ch, w);
    let k: int = (y * width + c) as int;
    if !(y >= height || x + w > width) {
        let at: int = (y * width + x) as int;
        assert(k < at || k >= at + w);
        assert(0 <= k < cells.len());
        assert(k != at);
        assert(!(at < k < at + w));
        assert(r.len() == cells.len());
        assert(r[k] == cells[k]);
    }
}

/// Writing a character that fits puts it in its cell.
proof fn lemma_put_here(cells: Seq<Cell>, width: nat, height: nat, x: nat, y: nat, ch: char, w: nat)
    requires
        w >= 1,
        x + w <= width,
        y < height,
        cells.len() == width * height,
    ensures
        put_cells(cells, width, height, x, y, ch, w)[(y * width + x) as int] == Cell::Char(ch),
{
    assert(y * width + x < width * height) by (nonlinear_arith)
        requires
            y < height,
            x < width,
    ;
}

/// Writing a character touches its own row only.
proof fn lemma_put_row(cells: Seq<Cell>, width: nat, height: nat, x: nat, y: nat, c: char, w: nat)
    requires
        w >= 1,
    ensures
        rows_kept(cells, put_cells(cells, width, height, x, y, c, w), width, y, y),
{
    if !(y >= height || x + w > width) {
        assert((y + 1) * width == y * width + width) by (nonlinear_arith);
    }
}

proof fn lemma_text_row(cells: Seq<Cell>, width: nat, height: nat, col: nat, y: nat, v: Seq<char>, i: int, calc: WidthCalc)
    ensures
        rows_kept(cells, text_from(cells, width, height, col, y, v, i, calc), width, y, y),
    decreases v.len() - i,
{
    if 0 <= i < v.len() && col < width {
        let next = col + cell_cols(calc, v[i]);
        let c1 = put_cells(cells, width, height, col, y, v[i], cell_cols(calc, v[i]));
        lemma_put_row(cells, width, height, col, y, v[i], cell_cols(calc, v[i]));
        lemma_text_row(c1, width, height, if next <= usize::MAX { next } else { usize::MAX as nat }, y, v, i + 1, calc);
    }
}

proof fn lemma_edges_rows(cells: Seq<Cell>, width: nat, height: nat, x: nat, right: nat, top: nat, bottom: nat, calc: WidthCalc)
    requires
        top <= bottom,
    ensures
        rows_kept(cells, box_edges(cells, width, height, x, right, top, bottom, calc), width, top, bottom),
    decreases right - x,
{
    if x < right {
        let a = put_char((cells, width, height), x, top, '─', calc);
        let b = put_char((a, width, height), x, bottom, '─', calc);
        lemma_put_row(cells, width, height, x, top, '─', cell_cols(calc, '─'));
        lemma_put_row(a, width, height, x, bottom, '─', cell_cols(calc, '─'));
        lemma_rows_kept_widen(cells, a, width, top, top, top, bottom);
        lemma_rows_kept_widen(a, b, width, bottom, bottom, top, bottom);
        lemma_edges_rows(b, width, height, x + 1, right, top, bottom, calc);
    }
}

proof fn lemma_interior_row(cells: Seq<Cell>, width: nat, height: nat, x: nat, right: nat, row: nat, calc: WidthCalc)
    ensures
        rows_kept(cells, box_interior(cells, width, height, x, right, row, calc), width, row, row),
    decreases right - x,
{
    if x < right {
        lemma_put_row(cells, width, height, x, row, ' ', cell_cols(calc, ' '));
        lemma_interior_row(put_char((cells, width, height), x, row, ' ', calc), width, height, x + 1, right, row, calc);
    }
}

/// Drawing a box touches its own rows only.
proof fn lemma_boxed_rows(cells: Seq<Cell>, width: nat, height: nat, b: NodeBox, label: Seq<char>, shape: Shape, calc: WidthCalc)
    requires
        b.h >= 2,
    ensures
        rows_kept(cells, boxed(cells, width, height, b, label, shape, calc), width, b.y as nat, (b.y + b.h - 1) as nat),
{
    let (tl, tr, bl, br) = crate::layered::box_corners(shape);
    let (left, right) = crate::layered::box_sides(shape);
    let r = (b.x + b.w - 1) as nat;
    let top = b.y as nat;
    let bt = (b.y + b.h - 1) as nat;
    let mid = (b.y + 1) as nat;
    let c1 = put_char((cells, width, height), b.x as nat, top, tl, calc);
    let c2 = put_char((c1, width, height), r, top, tr, calc);
    let c3 = put_char((c2, width, height), b.x as nat, bt, bl, calc);
    let c4 = put_char((c3, width, height), r, bt, br, calc);
    let c5 = box_edges(c4, width, height, (b.x + 1) as nat, r, top, bt, calc);
    let c6 = put_char((c5, width, height), b.x as nat, mid, left, calc);
    let c7 = put_char((c6, width, height), r, mid, right, calc);
    let c8 = box_interior(c7, width, height, (b.x + 1) as nat, r, mid, calc);
    let lx = if b.x + 2 <= usize::MAX { (b.x + 2) as nat } else { usize::MAX as nat };
    lemma_put_row(cells, width, height, b.x as nat, top, tl, cell_cols(calc, tl));
    lemma_rows_kept_widen(cells, c1, width, top, top, top, bt);
    lemma_put_row(c1, width, height, r, top, tr, cell_cols(calc, tr));
    lemma_rows_kept_widen(c1, c2, width, top, top, top, bt);
    lemma_put_row(c2, width, height, b.x as nat, bt, bl, cell_cols(calc, bl));
    lemma_rows_kept_widen(c2, c3, width, bt, bt, top, bt);
    lemma_put_row(c3, width, height, r, bt, br, cell_cols(calc, br));
    lemma_rows_kept_widen(c3, c4, width, bt, bt, top, bt);
    lemma_edges_rows(c4, width, height, (b.x + 1) as nat, r, top, bt, calc);
    lemma_put_row(c5, width, height, b.x as nat, mid, left, cell_cols(calc, left));
    lemma_rows_kept_widen(c5, c6, width, mid, mid, top, bt);
    lemma_put_row(c6, width, height, r, mid, right, cell_cols(calc, right));
    lemma_rows_kept_widen(c6, c7, width, mid, mid, top, bt);
    lemma_interior_row(c7, width, height, (b.x + 1) as nat, r, mid, calc);
    lemma_rows_kept_widen(c7, c8, width, mid, mid, top, bt);
    lemma_text_row(c8, width, height, lx, mid, label, 0, calc);
    lemma_rows_kept_widen(c8, boxed(cells, width, height, b, label, shape, calc), width, mid, mid, top, bt);
}

/// A rendered row holds every character its cells hold.
proof fn lemma_render_holds(s: Seq<Cell>, i: int, c: char)
    requires
        0 <= i < s.len(),
        s[i] == Cell::Char(c),
    ensures
        render_cells(s).contains(c),
    decreases s.len(),
{
    let t = render_cells(s.drop_last());
    if i == s.len() - 1 {
        assert(render_cells(s) == t + seq![c]);
        assert(render_cells(s)[t.len() as int] == c);
    } else {
        assert(s.drop_last()[i] == s[i]);
        lemma_render_holds(s.drop_last(), i, c);
        let j = choose|j: int| 0 <= j < t.len() && t[j] == c;
        let tail = match s.last() {
            Cell::Char(d) => seq![d],
            Cell::Blank => seq![' '],
            Cell::Skip => Seq::<char>::empty(),
        };
        assert(render_cells(s) == t + tail);
        assert(render_cells(s)[j] == c);
    }
}

/// Trimming trailing whitespace keeps every other character.
proof fn lemma_trim_end_holds(s: Seq<char>, c: char)
    requires
        s.contains(c),
        !crate::text::is_ws(c),
    ensures
        crate::text::trim_end(s).contains(c),
    decreases s.len(),
{
    if s.len() > 0 && crate::text::is_ws(s.last()) {
        let j = choose|j: int| 0 <= j < s.len() && s[j] == c;
        assert(j != s.len() - 1);
        assert(s.drop_last()[j] == c);
        lemma_trim_end_holds(s.drop_last(), c);
    }
}

} // verus!
