//! What can be wrong with the input of a font compilation.

use vstd::prelude::*;

verus! {

/// Why a font could not be compiled or encoded.
#[derive(Debug, Clone, Copy, PartialEq, Eq, Structural)]
pub enum FontError {
    /// A character code does not fit the 16-bit code space of the character map.
    CharOutOfRange,
    /// The step from one outline point to the next does not fit a signed
    /// 16-bit coordinate delta.
    DeltaOutOfRange,
    /// A ligature names a character that has no glyph in the font.
    UnknownLigatureChar,
    /// A ligature is made of no character at all.
    EmptyLigature,
    /// A bitmap holds fewer bits than the glyph cell has pixels.
    BitmapTooShort,
    /// An outline holds a contour without points.
    EmptyContour,
    /// A count, a size or an offset does not fit the field that holds it.
    TooLarge,
}

} // verus!
