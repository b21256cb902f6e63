use vstd::prelude::*;

verus! {

/// Why loading a font failed. Every failure ends the load: no partial font is
/// ever handed out.
#[derive(Debug, PartialEq, Eq)]
pub enum FontError {
    /// The font file could not be opened or read; the payload is the cause,
    /// in words.
    Io(String),
    /// A read or seek went past the end of the buffer.
    OutOfBounds,
    /// A required table is absent from the table directory; the payload is
    /// its four-character tag.
    MissingTable(&'static str),
    /// The character map holds no subtable in an encoding that is understood.
    NoSupportedEncoding,
    /// The chosen character-map subtable has a format other than 4 or 12.
    UnsupportedCmapFormat(u16),
    /// No glyph with index 0 is available.
    MissingNotdefGlyph,
}

impl Clone for FontError {
    fn clone(&self) -> (r: Self)
        ensures
            r == *self,
    {
        match self {
            FontError::Io(cause) => FontError::Io(cause.clone()),
            FontError::OutOfBounds => FontError::OutOfBounds,
            FontError::MissingTable(tag) => FontError::MissingTable(tag),
            FontError::NoSupportedEncoding => FontError::NoSupportedEncoding,
            FontError::UnsupportedCmapFormat(format) => FontError::UnsupportedCmapFormat(*format),
            FontError::MissingNotdefGlyph => FontError::MissingNotdefGlyph,
        }
    }
}

} // verus!
