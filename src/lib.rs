//! Maps a run of characters in a complex script to font glyph indices.
//!
//! Characters that the font cannot represent split the run into segments
//! that are shaped independently, so that no ligature forms across them.

pub mod tables;
pub mod glyph;
pub mod segment;
pub mod shape;

pub use glyph::{make_glyph, map_glyph, Glyph};
pub use shape::shape_chars;
