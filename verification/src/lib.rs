//! Glyph outlines and metrics from TrueType and OpenType font files.
//!
//! [`font::Font::load`] parses the bytes of a font file: it reads the table
//! directory, the header and the metrics, resolves where each glyph starts,
//! decodes the character map and the outline of every mapped glyph, and
//! assembles a [`font::Font`] that answers for each code point with a glyph,
//! the glyph with index 0 where the font maps the code point to none.
//!
//! Every step is stated over the bytes of the file as a mathematical
//! function and proved against that statement. A file that is cut short or
//! malformed gives an error, never a panic.

pub mod cmap;
pub mod draw;
pub mod error;
pub mod font;
pub mod glyph;
pub mod loca;
pub mod metrics;
pub mod reader;
pub mod tables;
