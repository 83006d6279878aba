//! A compiler from a small CSS preprocessor dialect (nested rule blocks,
//! `@name: value;` variables and `@import` of other sources) into flat CSS.
//!
//! `parse::parse_less` turns source text into a flat list of nodes, and
//! `render::generate_css` turns that list into CSS text.

pub mod text;
pub mod model;
pub mod parse;
pub mod render;
