//! A Markdown document model with block parsing, a draft and cursor editing
//! layer, undo history and the rendering metadata an editor front end needs.
use vstd::prelude::*;

pub mod text;
pub mod html;
pub mod blocks;
pub mod parser;
pub mod outline;
pub mod document;
pub mod typst;
pub mod about;
pub mod render_jobs;
pub mod theme;
pub mod editor;
pub mod workspace;
pub mod export;
pub mod keys;
pub mod surface;
pub mod highlight;
pub mod tree;
pub mod panel;
pub mod paths;

verus! {

} // verus!
