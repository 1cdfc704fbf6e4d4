//! `mdroll`: the text-processing core of a terminal Markdown viewer.

pub mod text;
pub mod width;
pub mod mermaid;
pub mod grid;
pub mod layered;
pub mod sequence;
pub mod screen;
pub mod ir;
pub mod html;
pub mod wrap;
pub mod theme;
pub mod dump;
pub mod frontmatter;
pub mod config;
pub mod keys;
pub mod graphics;
pub mod render;
pub mod cache;
pub mod fetch;
pub mod svg;
pub mod clipboard;
pub mod bigtext;
pub mod session;
pub mod layout;
pub mod tree;
pub mod highlight;
pub mod cli;
pub mod view;
pub mod mmdc;
pub mod pager;
