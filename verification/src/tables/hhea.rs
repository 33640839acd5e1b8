//! The horizontal header table.

use vstd::prelude::*;
use crate::encode::be_i16;
use crate::encode::be_u16;
use crate::encode::be_u32;
use crate::encode::be_u64;
use crate::encode::write_i16;
use crate::encode::write_u16;
use crate::encode::write_u32;
use crate::encode::write_u64;
use crate::writeutils::TableWriter;
use crate::FontTable;

verus! {

/// The horizontal header of a font.
#[derive(Debug, Clone, Copy, PartialEq, Eq, Structural)]
pub struct HHea {
    /// Distance from baseline of highest ascender
    pub ascent: i16,
    /// Distance from baseline of lowest descender
    pub descent: i16,
    /// typographic line gap
    pub line_gap: i16,
    /// must be consistent with horizontal metrics
    pub advance_width_max: u16,
    /// must be consistent with horizontal metrics
    pub min_left_side_bearing: i16,
    /// must be consistent with horizontal metrics
    pub min_right_side_bearing: i16,
    /// max(lsb + (xMax-xMin))
    pub x_max_extent: i16,
    /// used to calculate the slope of the caret (rise/run) set to 1 for vertical caret
    pub caret_slope_rise: i16,
    /// 0 for vertical
    pub caret_slope_run: i16,
    /// set value to 0 for non-slanted fonts
    pub caret_offset: i16,
    pub metric_data_format: i16,
    /// number of advance widths in metrics table
    pub num_of_long_hor_metrics: u16,
}

impl HHea {
    /// The header of an upright font of 8 units wide glyphs, with no long
    /// metrics counted yet.
    pub open spec fn spec_new() -> HHea {
        HHea {
            ascent: 0,
            descent: 0,
            line_gap: 0,
            advance_width_max: 8,
            min_left_side_bearing: 0,
            min_right_side_bearing: 8,
            x_max_extent: 16,
            caret_slope_rise: 1,
            caret_slope_run: 0,
            caret_offset: 0,
            metric_data_format: 0,
            num_of_long_hor_metrics: 0,
        }
    }

    /// The header of an upright font of 8 units wide glyphs. The number of
    /// long metrics is 0, which no font may have: set it before writing.
    pub fn new() -> (r: Self)
        ensures
            r == Self::spec_new(),
    {
        HHea {
            ascent: 0,
            descent: 0,
            line_gap: 0,
            advance_width_max: 8,
            min_left_side_bearing: 0,
            min_right_side_bearing: 8,
            x_max_extent: 16,
            caret_slope_rise: 1,
            caret_slope_run: 0,
            caret_offset: 0,
            metric_data_format: 0,
            num_of_long_hor_metrics: 0,  // illegal value, must be overwritten
        }
    }

    /// The table: version, the metrics, eight reserved bytes, the format of
    /// the metrics and the number of long metrics.
    pub open spec fn spec_bytes(self) -> Seq<u8> {
        be_u32(0x00010000) + be_i16(self.ascent) + be_i16(self.descent) + be_i16(self.line_gap)
            + be_u16(self.advance_width_max) + be_i16(self.min_left_side_bearing) + be_i16(
            self.min_right_side_bearing,
        ) + be_i16(self.x_max_extent) + be_i16(self.caret_slope_rise) + be_i16(
            self.caret_slope_run,
        ) + be_i16(self.caret_offset) + be_u64(0) + be_i16(self.metric_data_format) + be_u16(
            self.num_of_long_hor_metrics,
        )
    }

    /// Appends the table to `buf`.
    pub fn encode(&self, buf: &mut Vec<u8>)
        ensures
            final(buf)@ == old(buf)@ + self.spec_bytes(),
    {
        write_u32(buf, 0x00010000);  // version
        write_i16(buf, self.ascent);
        write_i16(buf, self.descent);
        write_i16(buf, self.line_gap);
        write_u16(buf, self.advance_width_max);
        write_i16(buf, self.min_left_side_bearing);
        write_i16(buf, self.min_right_side_bearing);
        write_i16(buf, self.x_max_extent);
        write_i16(buf, self.caret_slope_rise);
        write_i16(buf, self.caret_slope_run);
        write_i16(buf, self.caret_offset);
        write_u64(buf, 0);  // reserved
        write_i16(buf, self.metric_data_format);
        write_u16(buf, self.num_of_long_hor_metrics);
        assert(buf@ =~= old(buf)@ + self.spec_bytes());
    }
}

impl FontTable for HHea {
    open spec fn spec_tag() -> Seq<u8> {
        seq![0x68u8, 0x68u8, 0x65u8, 0x61u8]
    }

    open spec fn wf(&self) -> bool {
        true
    }

    open spec fn table_bytes(&self) -> Seq<u8> {
        self.spec_bytes()
    }

    fn tag() -> (tag: [u8; 4]) {
        [0x68, 0x68, 0x65, 0x61]
    }

    fn write(&self, writer: &mut TableWriter) {
        let mut buf: Vec<u8> = Vec::new();
        self.encode(&mut buf);
        writer.write(buf.as_slice());
    }
}

} // verus!
