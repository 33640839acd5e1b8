//! The font header table.

use vstd::prelude::*;
use crate::encode::be_i16;
use crate::encode::be_i64;
use crate::encode::be_u16;
use crate::encode::be_u32;
use crate::encode::write_i16;
use crate::encode::write_i64;
use crate::encode::write_u16;
use crate::encode::write_u32;
use crate::writeutils::TableWriter;
use crate::FontTable;
use crate::Rect;

verus! {

/// Seconds since 12:00 midnight, January 1, 1904.
pub type DateTime = i64;

/// Header flag: instructions and metrics are scaled to whole pixels.
pub const INTEGER_SCALING: u16 = 1 << 3;

/// Style flag of the font header.
pub const BOLD: u16 = 0b000001;

/// Style flag of the font header.
pub const ITALIC: u16 = 0b000010;

/// Style flag of the font header.
pub const UNDERLINE: u16 = 0b000100;

/// Style flag of the font header.
pub const OUTLINE: u16 = 0b001000;

/// Style flag of the font header.
pub const NARROW: u16 = 0b010000;

/// Style flag of the font header.
pub const EXTENDED: u16 = 0b100000;

/// The header of a font.
#[derive(Debug, Clone, Copy, PartialEq, Eq, Structural)]
pub struct Head {
    pub version: u32,
    pub font_revision: u32,
    pub checksum_adjustment: u32,
    pub flags: u16,
    pub units_per_em: u16,
    pub created: DateTime,
    pub modified: DateTime,
    pub rect: Rect,
    pub mac_style: u16,
    /// smallest readable size in pixels
    pub lowest_rec_ppem: u16,
    pub font_direction_hint: i16,
    /// 0 for short offsets, 1 for long
    pub index_to_loc_format: i16,
    pub glyph_data_format: i16,
}

impl Head {
    /// The header of a font made at the time `now`: 16 units per em, glyphs
    /// of 8 by 8 units, long location offsets.
    pub open spec fn spec_new(now: DateTime) -> Head {
        Head {
            version: 0x00010000,
            font_revision: 0x00010000,
            checksum_adjustment: 0,
            flags: INTEGER_SCALING,
            units_per_em: 16,
            created: now,
            modified: now,
            rect: Rect { x_min: 0, y_min: 0, x_max: 8, y_max: 8 },
            mac_style: 0,
            lowest_rec_ppem: 8,
            font_direction_hint: 1,
            index_to_loc_format: 1,
            glyph_data_format: 0,
        }
    }

    /// The header of a font created and last modified at `now`, in seconds
    /// since the start of 1904.
    pub fn new(now: DateTime) -> (r: Self)
        ensures
            r == Self::spec_new(now),
    {
        let rect = Rect { x_min: 0, y_min: 0, x_max: 8, y_max: 8 };

        Head {
            version: 0x00010000,
            font_revision: 0x00010000,
            checksum_adjustment: 0,
            flags: INTEGER_SCALING,
            units_per_em: 16,
            created: now,
            modified: now,
            rect,
            mac_style: 0,
            lowest_rec_ppem: 8,
            font_direction_hint: 1,
            index_to_loc_format: 1,
            glyph_data_format: 0,
        }
    }

    /// The table up to the two timestamps.
    pub open spec fn bytes_before_dates(self) -> Seq<u8> {
        be_u32(self.version) + be_u32(self.font_revision) + be_u32(self.checksum_adjustment)
            + be_u32(0x5F0F3CF5) + be_u16(self.flags) + be_u16(self.units_per_em)
    }

    /// The table behind the two timestamps.
    pub open spec fn bytes_after_dates(self) -> Seq<u8> {
        self.rect.spec_bytes() + be_u16(self.mac_style) + be_u16(self.lowest_rec_ppem) + be_i16(
            self.font_direction_hint,
        ) + be_i16(self.index_to_loc_format) + be_i16(self.glyph_data_format) + be_u16(0x0000)
    }

    /// The table: versions, checksum adjustment, magic number, flags,
    /// units per em; the two timestamps; bounds, style, smallest size,
    /// direction hint, location format, glyph format, and two bytes of
    /// padding.
    pub open spec fn spec_bytes(self) -> Seq<u8> {
        self.bytes_before_dates() + be_i64(self.created) + be_i64(self.modified)
            + self.bytes_after_dates()
    }

    /// Appends the table to `buf`.
    pub fn encode(&self, buf: &mut Vec<u8>)
        ensures
            final(buf)@ == old(buf)@ + self.spec_bytes(),
    {
        write_u32(buf, self.version);
        write_u32(buf, self.font_revision);
        write_u32(buf, self.checksum_adjustment);
        write_u32(buf, 0x5F0F3CF5);  // magic number
        write_u16(buf, self.flags);
        write_u16(buf, self.units_per_em);
        write_i64(buf, self.created);
        write_i64(buf, self.modified);
        self.rect.write(buf);
        write_u16(buf, self.mac_style);
        write_u16(buf, self.lowest_rec_ppem);
        write_i16(buf, self.font_direction_hint);
        write_i16(buf, self.index_to_loc_format);
        write_i16(buf, self.glyph_data_format);
        write_u16(buf, 0x0000);
        assert(buf@ =~= old(buf)@ + self.spec_bytes());
    }
}

impl FontTable for Head {
    open spec fn spec_tag() -> Seq<u8> {
        seq![0x68u8, 0x65u8, 0x61u8, 0x64u8]
    }

    open spec fn wf(&self) -> bool {
        true
    }

    open spec fn table_bytes(&self) -> Seq<u8> {
        self.spec_bytes()
    }

    fn tag() -> (tag: [u8; 4]) {
        [0x68, 0x65, 0x61, 0x64]
    }

    fn write(&self, writer: &mut TableWriter) {
        let mut buf: Vec<u8> = Vec::new();
        self.encode(&mut buf);
        writer.write(buf.as_slice());
    }
}

} // verus!
