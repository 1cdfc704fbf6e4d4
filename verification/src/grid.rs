//! A canvas addressed in display columns, and the box-drawing junctions the
//! diagrams are drawn with.
//!
//! A double-width character occupies its own cell plus a following
//! [`Cell::Skip`], so column arithmetic stays honest for CJK labels and for
//! box-drawing characters on terminals that treat East Asian Ambiguous as
//! wide.

use vstd::prelude::*;
use crate::text::{chars_of, is_whitespace, string_of, trim_end, is_ws};
use crate::width::WidthCalc;

verus! {

/// The directions a line leaves a cell in, as a set of bits.
pub const UP: u8 = 1;
pub const DOWN: u8 = 2;
pub const LEFT: u8 = 4;
pub const RIGHT: u8 = 8;

/// What a box-drawing character connects, for every one the diagrams use.
pub open spec fn glyph_dirs(c: char) -> Option<u8> {
    if c == '│' {
        Some(3u8)
    } else if c == '─' {
        Some(12u8)
    } else if c == '┌' {
        Some(10u8)
    } else if c == '┐' {
        Some(6u8)
    } else if c == '└' {
        Some(9u8)
    } else if c == '┘' {
        Some(5u8)
    } else if c == '├' {
        Some(11u8)
    } else if c == '┤' {
        Some(7u8)
    } else if c == '┬' {
        Some(14u8)
    } else if c == '┴' {
        Some(13u8)
    } else if c == '┼' {
        Some(15u8)
    } else {
        None
    }
}

/// The character for a set of directions. A line going only one way is drawn
/// as though it went both, since a stub end is not a character anyone has.
pub open spec fn junction_spec(dirs: u8) -> char {
    if dirs == 3 {
        '│'
    } else if dirs == 12 {
        '─'
    } else if dirs == 10 {
        '┌'
    } else if dirs == 6 {
        '┐'
    } else if dirs == 9 {
        '└'
    } else if dirs == 5 {
        '┘'
    } else if dirs == 11 {
        '├'
    } else if dirs == 7 {
        '┤'
    } else if dirs == 14 {
        '┬'
    } else if dirs == 13 {
        '┴'
    } else if dirs == 15 {
        '┼'
    } else if dirs & 3u8 != 0 {
        '│'
    } else {
        '─'
    }
}

pub fn junction(dirs: u8) -> (r: char)
    ensures
        r == junction_spec(dirs),
{
    if dirs == 3 {
        '│'
    } else if dirs == 12 {
        '─'
    } else if dirs == 10 {
        '┌'
    } else if dirs == 6 {
        '┐'
    } else if dirs == 9 {
        '└'
    } else if dirs == 5 {
        '┘'
    } else if dirs == 11 {
        '├'
    } else if dirs == 7 {
        '┤'
    } else if dirs == 14 {
        '┬'
    } else if dirs == 13 {
        '┴'
    } else if dirs == 15 {
        '┼'
    } else if dirs & 3u8 != 0 {
        '│'
    } else {
        '─'
    }
}

/// The directions of a box-drawing character, if it is one.
pub fn dirs_of(c: char) -> (r: Option<u8>)
    ensures
        r == glyph_dirs(c),
{
    if c == '│' {
        Some(3u8)
    } else if c == '─' {
        Some(12u8)
    } else if c == '┌' {
        Some(10u8)
    } else if c == '┐' {
        Some(6u8)
    } else if c == '└' {
        Some(9u8)
    } else if c == '┘' {
        Some(5u8)
    } else if c == '├' {
        Some(11u8)
    } else if c == '┤' {
        Some(7u8)
    } else if c == '┬' {
        Some(14u8)
    } else if c == '┴' {
        Some(13u8)
    } else if c == '┼' {
        Some(15u8)
    } else {
        None
    }
}

/// Each box-drawing glyph is the junction of exactly the directions it
/// connects, so reading a glyph's directions and drawing them again gives the
/// same glyph back.
pub proof fn lemma_junction_round_trip(c: char)
    ensures
        glyph_dirs(c) matches Some(d) ==> junction_spec(d) == c,
{
}

#[derive(Debug, Clone, Copy, PartialEq, Eq, Structural)]
pub enum Cell {
    Blank,
    Skip,
    Char(char),
}

/// A canvas of `width` by `height` cells, stored row after row.
pub struct Grid {
    pub cells: Vec<Cell>,
    pub width: usize,
    pub height: usize,
}

/// `cells` with `c` written at `(x, y)` over `w` columns, or unchanged when
/// it does not fit.
pub open spec fn put_cells(
    cells: Seq<Cell>,
    width: nat,
    height: nat,
    x: nat,
    y: nat,
    c: char,
    w: nat,
) -> Seq<Cell> {
    if y >= height || x + w > width {
        cells
    } else {
        let at = y * width + x;
        Seq::new(
            cells.len(),
            |k: int|
                if k == at {
                    Cell::Char(c)
                } else if at < k < at + w {
                    Cell::Skip
                } else {
                    cells[k]
                },
        )
    }
}

/// A row of cells as text: blanks as spaces, and nothing for the second half
/// of a wide character.
pub open spec fn render_cells(s: Seq<Cell>) -> Seq<char>
    decreases s.len(),
{
    if s.len() == 0 {
        Seq::empty()
    } else {
        render_cells(s.drop_last()) + match s.last() {
            Cell::Char(c) => seq![c],
            Cell::Blank => seq![' '],
            Cell::Skip => Seq::empty(),
        }
    }
}

/// How many columns `c` takes on the canvas: at least one.
pub open spec fn cell_cols(calc: WidthCalc, c: char) -> nat {
    if calc.col(c) >= 1 { calc.col(c) } else { 1 }
}

/// `cells` with `c` written at `(x, y)` where that cell is blank, and
/// unchanged otherwise.
pub open spec fn soft_put(cells: Seq<Cell>, width: nat, height: nat, x: nat, y: nat, c: char, calc: WidthCalc) -> Seq<Cell> {
    if x < width && y < height && cells[(y * width + x) as int] == Cell::Blank {
        put_cells(cells, width, height, x, y, c, cell_cols(calc, c))
    } else {
        cells
    }
}

/// `cells` with the characters of `v` from the `i`th on written rightwards
/// from column `col` of row `y`, each taking its own width, until the text
/// or the row runs out.
pub open spec fn text_from(
    cells: Seq<Cell>,
    width: nat,
    height: nat,
    col: nat,
    y: nat,
    v: Seq<char>,
    i: int,
    calc: WidthCalc,
) -> Seq<Cell>
    decreases v.len() - i,
{
    if 0 <= i < v.len() && col < width {
        let next = col + cell_cols(calc, v[i]);
        text_from(
            put_cells(cells, width, height, col, y, v[i], cell_cols(calc, v[i])),
            width,
            height,
            if next <= usize::MAX { next } else { usize::MAX as nat },
            y,
            v,
            i + 1,
            calc,
        )
    } else {
        cells
    }
}

/// `cells` with `c` drawn, where blank, in row `y` from column `x` to
/// column `hi` and no further than the last column.
pub open spec fn soft_row(cells: Seq<Cell>, width: nat, height: nat, x: nat, hi: nat, y: nat, c: char, calc: WidthCalc) -> Seq<Cell>
    decreases width - x,
{
    if x <= hi && x < width {
        soft_row(soft_put(cells, width, height, x, y, c, calc), width, height, x + 1, hi, y, c, calc)
    } else {
        cells
    }
}

/// `cells` with `c` drawn, where blank, in column `x` from row `y` to row
/// `hi` and no further than the last row.
pub open spec fn soft_column(cells: Seq<Cell>, width: nat, height: nat, x: nat, y: nat, hi: nat, c: char, calc: WidthCalc) -> Seq<Cell>
    decreases height - y,
{
    if y <= hi && y < height {
        soft_column(soft_put(cells, width, height, x, y, c, calc), width, height, x, y + 1, hi, c, calc)
    } else {
        cells
    }
}

/// What `join` leaves: the junction continuing `dirs` and whatever line is
/// already in the cell; a blank takes the junction of `dirs`; anything that
/// is not a line, and anything off the canvas, stays.
pub open spec fn joined(cells: Seq<Cell>, width: nat, height: nat, x: nat, y: nat, dirs: u8, calc: WidthCalc) -> Seq<Cell> {
    if x < width && y < height {
        match cells[(y * width + x) as int] {
            Cell::Blank => put_cells(cells, width, height, x, y, junction_spec(dirs), cell_cols(calc, junction_spec(dirs))),
            Cell::Char(c) => match glyph_dirs(c) {
                Some(here) => put_cells(
                    cells,
                    width,
                    height,
                    x,
                    y,
                    junction_spec(dirs | here),
                    cell_cols(calc, junction_spec(dirs | here)),
                ),
                None => cells,
            },
            Cell::Skip => cells,
        }
    } else {
        cells
    }
}

impl Grid {
    pub open spec fn wf(&self) -> bool {
        self.cells@.len() == self.width * self.height
    }

    pub open spec fn at(&self, x: nat, y: nat) -> Cell {
        self.cells@[y * self.width + x]
    }

    /// A blank canvas, or `None` when its size does not fit in memory.
    pub fn new(width: usize, height: usize) -> (r: Option<Grid>)
        ensures
            match r {
                Some(g) => g.wf() && g.width == width && g.height == height && forall|k: int|
                    0 <= k < g.cells@.len() ==> g.cells@[k] == Cell::Blank,
                None => width * height > usize::MAX,
            },
    {
        let n = match width.checked_mul(height) {
            Some(n) => n,
            None => return None,
        };
        let mut cells: Vec<Cell> = Vec::new();
        let mut i: usize = 0;
        while i < n
            invariant
                i <= n,
                cells@.len() == i,
                forall|k: int| 0 <= k < i ==> cells@[k] == Cell::Blank,
            decreases n - i,
        {
            cells.push(Cell::Blank);
            i = i + 1;
        }
        Some(Grid { cells, width, height })
    }

    fn index(&self, x: usize, y: usize) -> (r: usize)
        requires
            self.wf(),
            x < self.width,
            y < self.height,
        ensures
            r == y * self.width + x,
            r < self.cells@.len(),
    {
        let n = self.cells.len();
        proof {
            let w = self.width as int;
            let h = self.height as int;
            assert(y * w + x < h * w) by (nonlinear_arith)
                requires
                    0 <= x < w,
                    0 <= y < h,
            ;
            assert(0 <= y * w) by (nonlinear_arith)
                requires
                    0 <= w,
                    0 <= y,
            ;
        }
        y * self.width + x
    }

    /// The cell at `(x, y)`, or `None` outside the canvas.
    pub fn get(&self, x: usize, y: usize) -> (r: Option<Cell>)
        requires
            self.wf(),
        ensures
            r == (if x < self.width && y < self.height {
                Some(self.at(x as nat, y as nat))
            } else {
                None
            }),
    {
        if x < self.width && y < self.height {
            Some(self.cells[self.index(x, y)])
        } else {
            None
        }
    }

    /// Write `c` at `(x, y)`, with a skip cell after it for each further
    /// column it occupies. Nothing is written where it would not fit.
    #[verifier::loop_isolation(false)]
    pub fn put(&mut self, x: usize, y: usize, c: char, calc: &WidthCalc)
        requires
            old(self).wf(),
        ensures
            final(self).wf(),
            final(self).width == old(self).width,
            final(self).height == old(self).height,
            final(self).cells@ == put_cells(
                old(self).cells@,
                old(self).width as nat,
                old(self).height as nat,
                x as nat,
                y as nat,
                c,
                (if calc.col(c) >= 1 { calc.col(c) } else { 1 }),
            ),
            calc.col(c) <= 3,
    {
        let cw = calc.ch(c);
        let w = if cw >= 1 { cw } else { 1 };
        if y >= self.height || w > self.width || x > self.width - w {
            return;
        }
        let at = self.index(x, y);
        let n = self.cells.len();
        proof {
            let wd = self.width as int;
            let h = self.height as int;
            assert(y * wd + x + w <= wd * h) by (nonlinear_arith)
                requires
                    0 <= x,
                    x + w <= wd,
                    0 <= y < h,
            ;
        }
        let ghost old_cells = self.cells@;
        self.cells.set(at, Cell::Char(c));
        let mut i: usize = 1;
        while i < w
            invariant
                1 <= i <= w,
                at + w <= self.cells@.len(),
                self.width == old(self).width,
                self.height == old(self).height,
                old_cells.len() == self.width * self.height,
                at == y * self.width + x,
                x + w <= self.width,
                y < self.height,
                self.cells@.len() == old_cells.len(),
                forall|k: int|
                    0 <= k < self.cells@.len() ==> #[trigger] self.cells@[k] == (if k == at {
                        Cell::Char(c)
                    } else if at < k < at + i {
                        Cell::Skip
                    } else {
                        old_cells[k]
                    }),
            decreases w - i,
        {
            self.cells.set(at + i, Cell::Skip);
            i = i + 1;
        }
        proof {
            assert(self.cells@ =~= put_cells(
                old_cells,
                self.width as nat,
                self.height as nat,
                x as nat,
                y as nat,
                c,
                w as nat,
            ));
        }
    }

    /// Write `s` from `(x, y)` rightwards.
    pub fn text(&mut self, x: usize, y: usize, s: &str, calc: &WidthCalc)
        requires
            old(self).wf(),
        ensures
            final(self).wf(),
            final(self).width == old(self).width,
            final(self).height == old(self).height,
            final(self).cells@ == text_from(old(self).cells@, old(self).width as nat, old(self).height as nat, x as nat, y as nat, s@, 0, *calc),
    {
        let v = chars_of(s);
        self.text_chars(x, y, &v, calc);
    }

    /// Write the characters of `v` from `(x, y)` rightwards.
    pub fn text_chars(&mut self, x: usize, y: usize, v: &Vec<char>, calc: &WidthCalc)
        requires
            old(self).wf(),
        ensures
            final(self).wf(),
            final(self).width == old(self).width,
            final(self).height == old(self).height,
            final(self).cells@ == text_from(old(self).cells@, old(self).width as nat, old(self).height as nat, x as nat, y as nat, v@, 0, *calc),
    {
        let mut col = x;
        let mut i: usize = 0;
        while i < v.len()
            invariant
                self.wf(),
                self.width == old(self).width,
                self.height == old(self).height,
                i <= v@.len(),
                text_from(old(self).cells@, self.width as nat, self.height as nat, x as nat, y as nat, v@, 0, *calc)
                    == text_from(self.cells@, self.width as nat, self.height as nat, col as nat, y as nat, v@, i as int, *calc),
            decreases v.len() - i,
        {
            if col >= self.width {
                // Everything from here on lies past the right edge, where
                // nothing can be written.
                return;
            }
            let c = v[i];
            self.put(col, y, c, calc);
            let cw = calc.ch(c);
            col = col.saturating_add(if cw >= 1 { cw } else { 1 });
            i = i + 1;
        }
    }

    /// Draw a character only where the cell is still blank, so a crossing
    /// line never punches a hole through a box.
    pub fn put_soft(&mut self, x: usize, y: usize, c: char, calc: &WidthCalc)
        requires
            old(self).wf(),
        ensures
            final(self).wf(),
            final(self).width == old(self).width,
            final(self).height == old(self).height,
            final(self).cells@ == (if x < old(self).width && y < old(self).height && old(self).at(
                x as nat,
                y as nat,
            ) == Cell::Blank {
                put_cells(
                    old(self).cells@,
                    old(self).width as nat,
                    old(self).height as nat,
                    x as nat,
                    y as nat,
                    c,
                    (if calc.col(c) >= 1 { calc.col(c) } else { 1 }),
                )
            } else {
                old(self).cells@
            }),
    {
        if y < self.height && x < self.width && self.cells[self.index(x, y)] == Cell::Blank {
            self.put(x, y, c, calc);
        }
    }

    /// A horizontal line from `x0` to `x1` inclusive, in blank cells only.
    pub fn hline(&mut self, x0: usize, x1: usize, y: usize, calc: &WidthCalc)
        requires
            old(self).wf(),
        ensures
            final(self).wf(),
            final(self).width == old(self).width,
            final(self).height == old(self).height,
            final(self).cells@ == soft_row(
                old(self).cells@,
                old(self).width as nat,
                old(self).height as nat,
                (if x0 <= x1 { x0 } else { x1 }) as nat,
                (if x0 <= x1 { x1 } else { x0 }) as nat,
                y as nat,
                '─',
                *calc,
            ),
    {
        let (lo, hi) = if x0 <= x1 { (x0, x1) } else { (x1, x0) };
        let mut x = lo;
        while x <= hi && x < self.width
            invariant
                self.wf(),
                self.width == old(self).width,
                self.height == old(self).height,
                lo <= x,
                soft_row(old(self).cells@, self.width as nat, self.height as nat, lo as nat, hi as nat, y as nat, '─', *calc)
                    == soft_row(self.cells@, self.width as nat, self.height as nat, x as nat, hi as nat, y as nat, '─', *calc),
            decreases self.width - x,
        {
            self.put_soft(x, y, '─', calc);
            x = x + 1;
        }
    }

    /// A vertical line from `y0` to `y1` inclusive, in blank cells only.
    pub fn vline(&mut self, x: usize, y0: usize, y1: usize, calc: &WidthCalc)
        requires
            old(self).wf(),
        ensures
            final(self).wf(),
            final(self).width == old(self).width,
            final(self).height == old(self).height,
            final(self).cells@ == soft_column(
                old(self).cells@,
                old(self).width as nat,
                old(self).height as nat,
                x as nat,
                (if y0 <= y1 { y0 } else { y1 }) as nat,
                (if y0 <= y1 { y1 } else { y0 }) as nat,
                '│',
                *calc,
            ),
    {
        let (lo, hi) = if y0 <= y1 { (y0, y1) } else { (y1, y0) };
        let mut y = lo;
        while y <= hi && y < self.height
            invariant
                self.wf(),
                self.width == old(self).width,
                self.height == old(self).height,
                lo <= y,
                soft_column(old(self).cells@, self.width as nat, self.height as nat, x as nat, lo as nat, hi as nat, '│', *calc)
                    == soft_column(self.cells@, self.width as nat, self.height as nat, x as nat, y as nat, hi as nat, '│', *calc),
            decreases self.height - y,
        {
            self.put_soft(x, y, '│', calc);
            y = y + 1;
        }
    }

    /// Draw the box-drawing character that continues in `dirs`, keeping the
    /// directions whatever line is already there continues in. A label or an
    /// arrowhead is not a line, and is left alone.
    pub fn join(&mut self, x: usize, y: usize, dirs: u8, calc: &WidthCalc)
        requires
            old(self).wf(),
        ensures
            final(self).wf(),
            final(self).width == old(self).width,
            final(self).height == old(self).height,
            final(self).cells@ == (if x < old(self).width && y < old(self).height {
                match old(self).at(x as nat, y as nat) {
                    Cell::Blank => put_cells(
                        old(self).cells@,
                        old(self).width as nat,
                        old(self).height as nat,
                        x as nat,
                        y as nat,
                        junction_spec(dirs),
                        (if calc.col(junction_spec(dirs)) >= 1 {
                            calc.col(junction_spec(dirs))
                        } else {
                            1
                        }),
                    ),
                    Cell::Char(c) => match glyph_dirs(c) {
                        Some(here) => put_cells(
                            old(self).cells@,
                            old(self).width as nat,
                            old(self).height as nat,
                            x as nat,
                            y as nat,
                            junction_spec(dirs | here),
                            (if calc.col(junction_spec(dirs | here)) >= 1 {
                                calc.col(junction_spec(dirs | here))
                            } else {
                                1
                            }),
                        ),
                        None => old(self).cells@,
                    },
                    Cell::Skip => old(self).cells@,
                }
            } else {
                old(self).cells@
            }),
    {
        if y >= self.height || x >= self.width {
            return;
        }
        let here = match self.cells[self.index(x, y)] {
            Cell::Blank => 0u8,
            Cell::Char(c) => match dirs_of(c) {
                Some(d) => d,
                None => return,
            },
            Cell::Skip => return,
        };
        proof {
            assert(dirs | 0u8 == dirs) by (bit_vector);
        }
        self.put(x, y, junction(dirs | here), calc);
    }

    /// Draw a line through a cell another line already passes through,
    /// without saying the two meet: the vertical is drawn, and the horizontal
    /// is left with a one-cell gap where it runs behind. Anything else joins.
    pub fn cross(&mut self, x: usize, y: usize, dirs: u8, calc: &WidthCalc)
        requires
            old(self).wf(),
        ensures
            final(self).wf(),
            final(self).width == old(self).width,
            final(self).height == old(self).height,
            final(self).cells@ == ({
                let g = *old(self);
                let here = if x < g.width && y < g.height { Some(g.at(x as nat, y as nat)) } else { None };
                let vertical = dirs & 3u8 != 0;
                if here == Some(Cell::Char('│')) && !vertical {
                    g.cells@
                } else if here == Some(Cell::Char('─')) && vertical {
                    put_cells(g.cells@, g.width as nat, g.height as nat, x as nat, y as nat, '│', cell_cols(*calc, '│'))
                } else {
                    joined(g.cells@, g.width as nat, g.height as nat, x as nat, y as nat, dirs, *calc)
                }
            }),
    {
        let vertical = dirs & 3u8 != 0;
        match self.get(x, y) {
            Some(Cell::Char(c)) if c == '│' && !vertical => {},
            Some(Cell::Char(c)) if c == '─' && vertical => self.put(x, y, '│', calc),
            _ => self.join(x, y, dirs, calc),
        }
    }

    /// The canvas as text, one string per row, trailing blanks trimmed.
    pub fn rows(&self) -> (r: Vec<String>)
        requires
            self.wf(),
        ensures
            r@.len() == self.height,
            forall|y: int|
                0 <= y < self.height ==> (#[trigger] r@[y])@ == trim_end(
                    render_cells(
                        self.cells@.subrange(y * self.width, y * self.width + self.width),
                    ),
                ),
    {
        let mut out: Vec<String> = Vec::new();
        let mut y: usize = 0;
        while y < self.height
            invariant
                self.wf(),
                y <= self.height,
                out@.len() == y,
                forall|j: int|
                    0 <= j < y ==> (#[trigger] out@[j])@ == trim_end(
                        render_cells(
                            self.cells@.subrange(j * self.width, j * self.width + self.width),
                        ),
                    ),
            decreases self.height - y,
        {
            let mut row: Vec<char> = Vec::new();
            let mut x: usize = 0;
            let ghost base = y * self.width;
            proof {
                assert(base + self.width <= self.cells@.len()) by (nonlinear_arith)
                    requires
                        base == y * self.width,
                        y < self.height,
                        self.cells@.len() == self.width * self.height,
                ;
            }
            while x < self.width
                invariant
                    self.wf(),
                    y < self.height,
                    x <= self.width,
                    base == y * self.width,
                    base + self.width <= self.cells@.len(),
                    row@ == render_cells(self.cells@.subrange(base, base + x)),
                decreases self.width - x,
            {
                let cell = self.cells[self.index(x, y)];
                proof {
                    assert(self.cells@.subrange(base, base + x + 1).drop_last() =~= self.cells@.subrange(
                        base,
                        base + x,
                    ));
                }
                match cell {
                    Cell::Char(c) => row.push(c),
                    Cell::Blank => row.push(' '),
                    Cell::Skip => {},
                }
                x = x + 1;
                proof {
                    assert(row@ =~= render_cells(self.cells@.subrange(base, base + x)));
                }
            }
            let mut e = row.len();
            proof {
                assert(row@.subrange(0, e as int) =~= row@);
            }
            while e > 0 && is_whitespace(row[e - 1])
                invariant
                    e <= row@.len(),
                    trim_end(row@.subrange(0, e as int)) == trim_end(row@),
                decreases e,
            {
                proof {
                    assert(row@.subrange(0, e as int).drop_last() =~= row@.subrange(0, e - 1));
                }
                e = e - 1;
            }
            proof {
                assert(row@.subrange(0, row@.len() as int) =~= row@);
                if e > 0 {
                    assert(!is_ws(row@.subrange(0, e as int).last()));
                }
                assert(trim_end(row@.subrange(0, e as int)) == row@.subrange(0, e as int));
            }
            out.push(string_of(&row, 0, e));
            y = y + 1;
        }
        out
    }
}

} // verus!
