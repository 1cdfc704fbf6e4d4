//! Screen and viewport.
//!
//! The terminal height is decremented in exactly one place,
//! [`Screen::viewport`], and the result has its own type so it cannot be
//! confused with the full screen.

use vstd::prelude::*;

verus! {

#[derive(Debug, Clone, Copy, PartialEq, Eq)]
pub struct Screen {
    pub rows: u16,
    pub cols: u16,
}

#[derive(Debug, Clone, Copy, PartialEq, Eq)]
pub struct Viewport {
    pub rows: u16,
    pub cols: u16,
}

impl Screen {
    pub fn new(cols: u16, rows: u16) -> (r: Screen)
        ensures
            r.rows == rows,
            r.cols == cols,
    {
        Screen { rows, cols }
    }

    /// The content region: everything except the bottom row, which belongs to
    /// the status line or a toast.
    pub fn viewport(&self) -> (r: Viewport)
        ensures
            r.cols == self.cols,
            r.rows == (if self.rows == 0 { 0 } else { self.rows - 1 }),
    {
        Viewport { rows: self.rows.saturating_sub(1), cols: self.cols }
    }

    /// The bottom row, where the status line is drawn.
    pub fn status_row(&self) -> (r: u16)
        ensures
            r == (if self.rows == 0 { 0 } else { self.rows - 1 }),
    {
        self.rows.saturating_sub(1)
    }
}

impl Viewport {
    pub fn new(cols: u16, rows: u16) -> (r: Viewport)
        ensures
            r.rows == rows,
            r.cols == cols,
    {
        Viewport { rows, cols }
    }
}

/// The status line sits on the row just below the viewport, and the two
/// together never take more rows than the screen has (one each when the
/// screen has none).
pub proof fn lemma_status_row_follows_viewport(s: Screen)
    ensures
        s.rows > 0 ==> (if s.rows == 0 { 0 } else { s.rows - 1 }) + 1 == s.rows,
{
}

} // verus!
