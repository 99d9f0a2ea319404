//! A small rendering core: a CSS cascade resolver and a block-layout
//! engine over a parsed document tree, with the parsers that feed them
//! and a painter that rasterizes the laid-out boxes.
pub mod cssom;
pub mod dom;
pub mod engine;
pub mod layout;
pub mod paint;
pub mod parser;
pub mod style;
pub mod text;
pub mod utils;
