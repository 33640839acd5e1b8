//! Compiles monochrome pixel bitmaps into an sfnt-style outline font image.

use vstd::prelude::*;
use crate::encode::be_i16;
use crate::encode::write_i16;
use crate::writeutils::TableWriter;

pub mod bsearch;
pub mod compile;
pub mod contour;
pub mod encode;
pub mod error;
pub mod font;
pub mod itertools;
pub mod platform;
pub mod push_bytes;
pub mod sort;
pub mod sprite;
pub mod subtable;
pub mod tables;
pub mod timestamps;
pub mod writeutils;

pub use crate::compile::bitmap_font;
pub use crate::font::write_table;
pub use crate::font::Font;
pub use crate::font::RECORD_SIZE;

verus! {

/// Index of a glyph in the glyph table; 0 is the missing glyph.
#[derive(Debug, Clone, Copy, PartialEq, Eq, Structural)]
pub struct GlyphId(pub u16);

/// A bounding rectangle in font units.
#[derive(Debug, Clone, Copy, PartialEq, Eq, Structural)]
pub struct Rect {
    pub x_min: i16,
    pub y_min: i16,
    pub x_max: i16,
    pub y_max: i16,
}

/// A table of the font: a tag, and the bytes the table is written as.
pub trait FontTable {
    /// The four bytes that name the table in the table directory.
    spec fn spec_tag() -> Seq<u8>;

    /// The table can be written: what it holds fits the fields of its format.
    spec fn wf(&self) -> bool;

    /// The bytes of the table, before padding.
    spec fn table_bytes(&self) -> Seq<u8>;

    /// The four bytes that name the table in the table directory.
    fn tag() -> (tag: [u8; 4])
        ensures
            tag@ == Self::spec_tag(),
    ;

    /// Streams the table through `writer`.
    fn write(&self, writer: &mut TableWriter)
        requires
            self.wf(),
            old(writer).wf(),
        ensures
            final(writer).wf(),
            final(writer).stream() == old(writer).stream() + self.table_bytes(),
            final(writer).sink() == old(writer).sink() + self.table_bytes(),
    ;
}

impl Rect {
    /// The rectangle as its table field: the four bounds, big-endian.
    pub open spec fn spec_bytes(self) -> Seq<u8> {
        be_i16(self.x_min) + be_i16(self.y_min) + be_i16(self.x_max) + be_i16(self.y_max)
    }

    /// Appends the four bounds to `writer`.
    pub fn write(&self, writer: &mut Vec<u8>)
        ensures
            final(writer)@ == old(writer)@ + self.spec_bytes(),
    {
        write_i16(writer, self.x_min);
        write_i16(writer, self.y_min);
        write_i16(writer, self.x_max);
        write_i16(writer, self.y_max);
        assert(writer@ =~= old(writer)@ + self.spec_bytes());
    }
}

} // verus!
