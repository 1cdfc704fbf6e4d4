//! Headings drawn as bitmaps: the decorations around the text.
//!
//! Glyphs are rasterised by the caller; what is here is the part that is
//! pure geometry: where the rule under a heading and the bar beside it go on
//! the RGBA canvas, and painting them.

use vstd::prelude::*;
use crate::graphics::CellSize;

verus! {

/// Decorations drawn with a heading, each in its own color.
#[derive(Debug, Clone, Copy, PartialEq, Eq, Default)]
pub struct HeadingDecor {
    /// A rule under the text, the way GitHub borders `h1` and `h2`.
    pub border: Option<(u8, u8, u8)>,
    /// A bar down the left, in the blank the margin and indent leave.
    pub bar: Option<(u8, u8, u8)>,
}

impl HeadingDecor {
    pub fn is_none(&self) -> (r: bool)
        ensures
            r == (self.border is None && self.bar is None),
    {
        self.border.is_none() && self.bar.is_none()
    }
}

/// A stretch of a heading drawn in one color, on a background of its own
/// where it asks for one.
#[derive(Debug)]
pub struct Run {
    pub text: String,
    pub color: (u8, u8, u8),
    pub bg: Option<(u8, u8, u8)>,
}

/// The pixel column of byte `i` of an RGBA canvas `width` pixels wide.
pub open spec fn pix_x(i: int, width: int) -> int {
    (i / 4) % width
}

/// The pixel row of byte `i` of an RGBA canvas `width` pixels wide.
pub open spec fn pix_y(i: int, width: int) -> int {
    (i / 4) / width
}

/// Whether byte `i` of the canvas belongs to a pixel of the rectangle
/// `[x0, x1) x [y0, y1)`, clipped to the canvas.
pub open spec fn in_rect(i: int, width: u32, height: u32, x0: u32, x1: u32, y0: u32, y1: u32) -> bool {
    &&& width > 0
    &&& 0 <= i < width * height * 4
    &&& x0 <= pix_x(i, width as int) < x1
    &&& pix_x(i, width as int) < width
    &&& y0 <= pix_y(i, width as int) < y1
    &&& pix_y(i, width as int) < height
}

/// The value byte `i` of a pixel painted `color` holds: red, green, blue,
/// then an opaque alpha.
pub open spec fn paint_byte(i: int, color: (u8, u8, u8)) -> u8 {
    if i % 4 == 0 {
        color.0
    } else if i % 4 == 1 {
        color.1
    } else if i % 4 == 2 {
        color.2
    } else {
        255
    }
}

/// The canvas `c` with the rectangle `[x0, x1) x [y0, y1)`, clipped to it,
/// painted solid `color`.
pub open spec fn painted(
    c: Seq<u8>,
    width: u32,
    height: u32,
    x0: u32,
    x1: u32,
    y0: u32,
    y1: u32,
    color: (u8, u8, u8),
) -> Seq<u8> {
    Seq::new(
        c.len(),
        |i: int|
            if in_rect(i, width, height, x0, x1, y0, y1) {
                paint_byte(i, color)
            } else {
                c[i]
            },
    )
}

proof fn lemma_pixel(py: int, px: int, width: int, ch: int)
    requires
        0 <= py,
        0 <= px < width,
        0 <= ch < 4,
    ensures
        ({
            let i = (py * width + px) * 4 + ch;
            &&& i / 4 == py * width + px
            &&& i % 4 == ch
            &&& pix_x(i, width) == px
            &&& pix_y(i, width) == py
        }),
{
    let p = py * width + px;
    let i = p * 4 + ch;
    vstd::arithmetic::div_mod::lemma_fundamental_div_mod_converse(i, 4, p, ch);
    vstd::arithmetic::div_mod::lemma_fundamental_div_mod_converse(p, width, py, px);
}

/// Paints the rectangle `[x0, x1) x [y0, y1)`, clipped to the canvas, solid
/// `color`. Drawn over whatever is there rather than blended with it.
fn fill(
    canvas: &mut Vec<u8>,
    width: u32,
    height: u32,
    x0: u32,
    x1: u32,
    y0: u32,
    y1: u32,
    color: (u8, u8, u8),
)
    requires
        old(canvas)@.len() == width * height * 4,
        width * height * 4 <= u32::MAX,
    ensures
        final(canvas)@ == painted(old(canvas)@, width, height, x0, x1, y0, y1, color),
{
    let xe = if x1 < width { x1 } else { width };
    let ye = if y1 < height { y1 } else { height };
    let ghost c0 = canvas@;
    let mut py = y0;
    while py < ye
        invariant
            canvas@.len() == c0.len(),
            c0.len() == width * height * 4,
            width * height * 4 <= u32::MAX,
            xe == (if x1 < width { x1 } else { width }),
            ye == (if y1 < height { y1 } else { height }),
            y0 <= py,
            forall|i: int|
                0 <= i < c0.len() ==> #[trigger] canvas@[i] == (if in_rect(i, width, height, x0, x1, y0, y1)
                    && pix_y(i, width as int) < py {
                    paint_byte(i, color)
                } else {
                    c0[i]
                }),
        decreases ye - py,
    {
        let mut px = x0;
        while px < xe
            invariant
                canvas@.len() == c0.len(),
                c0.len() == width * height * 4,
                width * height * 4 <= u32::MAX,
                xe == (if x1 < width { x1 } else { width }),
                ye == (if y1 < height { y1 } else { height }),
                y0 <= py < ye,
                x0 <= px,
                forall|i: int|
                    0 <= i < c0.len() ==> #[trigger] canvas@[i] == (if in_rect(i, width, height, x0, x1, y0, y1)
                        && (pix_y(i, width as int) < py || (pix_y(i, width as int) == py && pix_x(i, width as int) < px)) {
                        paint_byte(i, color)
                    } else {
                        c0[i]
                    }),
            decreases xe - px,
        {
            proof {
                assert(py * width + px < width * height) by (nonlinear_arith)
                    requires
                        py < height,
                        px < width,
                ;
                assert((py * width + px) * 4 + 3 < width * height * 4) by (nonlinear_arith)
                    requires
                        py * width + px < width * height,
                ;
                lemma_pixel(py as int, px as int, width as int, 0);
                lemma_pixel(py as int, px as int, width as int, 1);
                lemma_pixel(py as int, px as int, width as int, 2);
                lemma_pixel(py as int, px as int, width as int, 3);
            }
            let i = ((py * width + px) * 4) as usize;
            canvas.set(i, color.0);
            canvas.set(i + 1, color.1);
            canvas.set(i + 2, color.2);
            canvas.set(i + 3, 255);
            proof {
                assert forall|j: int| 0 <= j < c0.len() implies #[trigger] canvas@[j] == (if in_rect(j, width, height, x0, x1, y0, y1)
                    && (pix_y(j, width as int) < py || (pix_y(j, width as int) == py && pix_x(j, width as int) < px + 1)) {
                    paint_byte(j, color)
                } else {
                    c0[j]
                }) by {
                    let p = py * width + px;
                    if i <= j < i + 4 {
                        lemma_pixel(py as int, px as int, width as int, j - i);
                    } else {
                        let q = j / 4;
                        if pix_y(j, width as int) == py && pix_x(j, width as int) == px {
                            vstd::arithmetic::div_mod::lemma_fundamental_div_mod(q, width as int);
                            vstd::arithmetic::div_mod::lemma_fundamental_div_mod(j, 4);
                            vstd::arithmetic::mul::lemma_mul_is_commutative(width as int, py as int);
                            assert(q == p);
                            assert(j == 4 * q + j % 4);
                            assert(false);
                        }
                    }
                }
            }
            px = px + 1;
        }
        proof {
            assert forall|j: int| 0 <= j < c0.len() implies #[trigger] canvas@[j] == (if in_rect(j, width, height, x0, x1, y0, y1)
                && pix_y(j, width as int) < py + 1 {
                paint_byte(j, color)
            } else {
                c0[j]
            }) by {
            }
        }
        py = py + 1;
    }
    proof {
        assert(canvas@ =~= painted(c0, width, height, x0, x1, y0, y1, color));
    }
}

/// Where the rule under a heading goes, as `(top, bottom)`: a rule an eighth
/// of a cell thick, an eighth of a cell clear of the canvas's bottom edge.
pub open spec fn border_rows(height: u32, cell: CellSize) -> (u32, u32) {
    let cell_h: u32 = if cell.h >= 1 { cell.h as u32 } else { 1 };
    let thickness: u32 = if cell_h / 8 >= 1 { cell_h / 8 } else { 1 };
    let bottom: u32 = if height >= thickness { (height - thickness) as u32 } else { 0 };
    let top: u32 = if bottom >= thickness { (bottom - thickness) as u32 } else { 0 };
    (top, bottom)
}

/// Where the bar beside a heading goes, as `(left, right)`: a third of a
/// cell wide (at least two pixels), half a cell (at least two) in front of
/// the text; `None` when the blank in front of the text is too narrow.
pub open spec fn bar_columns(start: u32, cell: CellSize) -> Option<(u32, u32)> {
    let cell_w: u32 = if cell.w >= 1 { cell.w as u32 } else { 1 };
    let bar_w: u32 = if cell_w / 3 >= 2 { cell_w / 3 } else { 2 };
    let gap: u32 = if cell_w / 2 >= 2 { cell_w / 2 } else { 2 };
    if start >= gap && start - gap >= bar_w {
        Some(((start - gap - bar_w) as u32, (start - gap) as u32))
    } else {
        None
    }
}

/// The canvas with the decorations drawn around text occupying columns
/// `[start, end)`: the rule across the text's columns, the bar over the
/// whole height.
pub open spec fn decorated_canvas(
    c: Seq<u8>,
    width: u32,
    height: u32,
    cell: CellSize,
    start: u32,
    end: u32,
    decor: HeadingDecor,
) -> Seq<u8> {
    let c1 = match decor.border {
        Some(color) => if end > start {
            painted(c, width, height, start, end, border_rows(height, cell).0, border_rows(height, cell).1, color)
        } else {
            c
        },
        None => c,
    };
    match decor.bar {
        Some(color) => match bar_columns(start, cell) {
            Some((l, r)) => painted(c1, width, height, l, r, 0, height, color),
            None => c1,
        },
        None => c1,
    }
}

/// Draws the border and the bar around text occupying `start..end`
/// horizontally. Both are sized from the cell, so they keep their
/// proportions with a larger font; a bar with no room in front of the text
/// is dropped rather than drawn over the first letter.
pub fn draw_decor(
    canvas: &mut Vec<u8>,
    width: u32,
    height: u32,
    cell: CellSize,
    start: u32,
    end: u32,
    decor: HeadingDecor,
)
    requires
        old(canvas)@.len() == width * height * 4,
        width * height * 4 <= u32::MAX,
    ensures
        final(canvas)@ == decorated_canvas(old(canvas)@, width, height, cell, start, end, decor),
{
    let cell_h: u32 = if cell.h >= 1 { cell.h as u32 } else { 1 };
    let cell_w: u32 = if cell.w >= 1 { cell.w as u32 } else { 1 };
    if let Some(color) = decor.border {
        let thickness = if cell_h / 8 >= 1 { cell_h / 8 } else { 1 };
        let bottom = height.saturating_sub(thickness);
        let top = bottom.saturating_sub(thickness);
        if end > start {
            fill(canvas, width, height, start, end, top, bottom, color);
        }
    }
    if let Some(color) = decor.bar {
        let bar_w = if cell_w / 3 >= 2 { cell_w / 3 } else { 2 };
        let gap = if cell_w / 2 >= 2 { cell_w / 2 } else { 2 };
        if start >= gap && start - gap >= bar_w {
            let right = start - gap;
            let left = right - bar_w;
            fill(canvas, width, height, left, right, 0, height, color);
        }
    }
}

} // verus!
