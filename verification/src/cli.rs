//! The command line, as plain values.

use vstd::prelude::*;
use std::path::PathBuf;

verus! {

#[verifier::external_type_specification]
#[verifier::external_body]
pub struct ExPathBuf(PathBuf);

/// The options `mdroll` is started with.
#[derive(Debug, Default)]
pub struct Cli {
    /// Markdown file to view. Reads stdin when piped, browses `*.md` otherwise.
    pub file: Option<PathBuf>,
    /// Color theme.
    pub theme: Option<String>,
    /// Print available theme names and exit.
    pub list_themes: bool,
    /// Write a roff man page to stdout and exit.
    pub man: bool,
    /// Start in reflow mode.
    pub wrap: bool,
    /// Start in horizontal-scroll mode.
    pub no_wrap: bool,
    /// Start in source view instead of rendered view.
    pub source: bool,
    /// Cap the reflow width. 0 means full terminal width.
    pub width: Option<usize>,
    /// Blank columns to keep on each side.
    pub margin: Option<usize>,
    /// Show a persistent status line instead of transient toasts.
    pub status: bool,
    /// Use transient toasts instead of a persistent status line.
    pub no_status: bool,
    /// Enable mouse capture.
    pub mouse: bool,
    /// Disable inline image rendering.
    pub no_images: bool,
    /// Never fetch images over the network.
    pub no_remote_images: bool,
    /// Whether the terminal speaks the Kitty graphics protocol.
    pub graphics: Option<String>,
    /// Plain output, no ANSI styling.
    pub no_color: bool,
    /// How to draw mermaid blocks.
    pub mermaid: Option<String>,
    /// Reload automatically when the file changes on disk.
    pub watch: bool,
    /// Never draw headings at double size.
    pub no_big_headings: bool,
    /// Treat East Asian Ambiguous characters as two columns wide.
    pub ambiguous_wide: bool,
    /// Use an alternate config file.
    pub config: Option<PathBuf>,
}

} // verus!
