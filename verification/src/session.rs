//! The small pieces of viewer state that outlive a single frame.

use vstd::prelude::*;
use crate::graphics::{CellSize, Protocol};

verus! {

/// What keystrokes currently mean.
#[derive(Debug, Clone, PartialEq, Eq)]
pub enum Mode {
    Normal,
    /// Typing a search pattern. `forward` records which way `n` will go.
    Search { query: String, forward: bool },
    /// Every visible link is labelled; the next keystroke picks one.
    LinkPick,
    /// Extending a line selection with `j`/`k`.
    Select,
}

/// A search match: a row and the display columns it covers.
#[derive(Debug, Clone, Copy, PartialEq, Eq, Structural)]
pub struct Match {
    pub line: usize,
    pub start: usize,
    pub end: usize,
}

/// What the terminal can draw.
#[derive(Debug, Clone, Copy, PartialEq, Eq, Structural)]
pub struct GraphicsInfo {
    pub protocol: Protocol,
    pub cell: CellSize,
    /// Draw headings as bitmaps because the terminal has graphics but no
    /// double-height lines.
    pub raster_headings: bool,
}

impl GraphicsInfo {
    /// No pictures at all, with the default cell size.
    pub fn disabled() -> (r: GraphicsInfo)
        ensures
            r.protocol == Protocol::Off,
            r.cell == (CellSize { w: 8, h: 16 }),
            !r.raster_headings,
    {
        GraphicsInfo { protocol: Protocol::Off, cell: CellSize { w: 8, h: 16 }, raster_headings: false }
    }

    /// What was found out about the terminal, before headings are decided.
    pub fn probed(protocol: Protocol, cell: CellSize) -> (r: GraphicsInfo)
        ensures
            r.protocol == protocol,
            r.cell == cell,
            !r.raster_headings,
    {
        GraphicsInfo { protocol, cell, raster_headings: false }
    }
}

/// What a yank copies.
#[derive(Debug, Clone, Copy, PartialEq, Eq, Structural)]
pub enum Yank {
    Source,
    Rendered,
    CodeBody,
    Path,
    Selection,
}

} // verus!
