//! HTML tables in Markdown, rewritten as one record per row.

pub mod cell_text;
pub mod columns;
pub mod grid;
pub mod normalize;
pub mod parse;
pub mod render;
