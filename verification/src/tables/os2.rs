//! The OS/2 table: metrics and classification for Windows.

use vstd::prelude::*;
use crate::encode::be_i16;
use crate::encode::be_u128;
use crate::encode::be_u16;
use crate::encode::be_u64;
use crate::encode::write_all;
use crate::encode::write_i16;
use crate::encode::write_u128;
use crate::encode::write_u16;
use crate::encode::write_u64;
use crate::writeutils::TableWriter;
use crate::FontTable;

verus! {

/// The OS/2 table, in the versions that can be written.
pub enum Os2 {
    Version5(Os2V5),
}

/// Version 5 of the OS/2 table.
pub struct Os2V5 {
    pub x_avg_char_width: i16,
    pub us_weight_class: u16,
    pub us_width_class: u16,
    pub fs_type: u16,
    pub y_subscript_x_size: i16,
    pub y_subscript_y_size: i16,
    pub y_subscript_x_offset: i16,
    pub y_subscript_y_offset: i16,
    pub y_superscript_x_size: i16,
    pub y_superscript_y_size: i16,
    pub y_superscript_x_offset: i16,
    pub y_superscript_y_offset: i16,
    pub y_strikeout_size: i16,
    pub y_strikeout_position: i16,
    pub s_family_class: i16,
    pub panose: [u8; 10],
    pub ul_unicode_range: u128,
    pub ach_vend_id: [u8; 4],
    pub fs_selection: u16,
    pub us_first_char_index: u16,
    pub us_last_char_index: u16,
    pub s_typo_ascender: i16,
    pub s_typo_descender: i16,
    pub s_typo_line_gap: i16,
    pub us_win_ascent: u16,
    pub us_win_descent: u16,
    pub ul_code_page_range: u64,
    pub sx_height: i16,
    pub s_cap_height: i16,
    pub us_default_char: u16,
    pub us_break_char: u16,
    pub us_max_context: u16,
    pub us_lower_optical_point_size: u16,
    pub us_upper_optical_point_size: u16,
}

impl Os2V5 {
    /// The fields up to the Unicode ranges.
    pub open spec fn front_bytes(&self) -> Seq<u8> {
        be_i16(self.x_avg_char_width) + be_u16(self.us_weight_class) + be_u16(self.us_width_class) + be_u16(self.fs_type) + be_i16(self.y_subscript_x_size) + be_i16(self.y_subscript_y_size) + be_i16(self.y_subscript_x_offset) + be_i16(self.y_subscript_y_offset) + be_i16(self.y_superscript_x_size) + be_i16(self.y_superscript_y_size) + be_i16(self.y_superscript_x_offset) + be_i16(self.y_superscript_y_offset) + be_i16(self.y_strikeout_size) + be_i16(self.y_strikeout_position) + be_i16(self.s_family_class) + self.panose@ + be_u128(self.ul_unicode_range)
    }

    /// The fields from the vendor on.
    pub open spec fn back_bytes(&self) -> Seq<u8> {
        self.ach_vend_id@ + be_u16(self.fs_selection) + be_u16(self.us_first_char_index) + be_u16(self.us_last_char_index) + be_i16(self.s_typo_ascender) + be_i16(self.s_typo_descender) + be_i16(self.s_typo_line_gap) + be_u16(self.us_win_ascent) + be_u16(self.us_win_descent) + be_u64(self.ul_code_page_range) + be_i16(self.sx_height) + be_i16(self.s_cap_height) + be_u16(self.us_default_char) + be_u16(self.us_break_char) + be_u16(self.us_max_context) + be_u16(self.us_lower_optical_point_size) + be_u16(self.us_upper_optical_point_size)
    }

    /// The table: version 5, then every field in order.
    pub open spec fn spec_bytes(&self) -> Seq<u8> {
        be_u16(0x05) + self.front_bytes() + self.back_bytes()
    }

    /// The values of a regular font of 8 by 8 units glyphs.
    pub open spec fn is_default(&self) -> bool {
        &&& self.x_avg_char_width == 8
        &&& self.us_weight_class == 400
        &&& self.us_width_class == 5
        &&& self.fs_type == 0
        &&& self.y_subscript_x_size == 8
        &&& self.y_subscript_y_size == 8
        &&& self.y_subscript_x_offset == 0
        &&& self.y_subscript_y_offset == 0
        &&& self.y_superscript_x_size == 8
        &&& self.y_superscript_y_size == 8
        &&& self.y_superscript_x_offset == 0
        &&& self.y_superscript_y_offset == 0
        &&& self.y_strikeout_size == 1
        &&& self.y_strikeout_position == 4
        &&& self.s_family_class == 0
        &&& self.panose@ == Seq::new(10, |i: int| 0u8)
        &&& self.ul_unicode_range == 0
        &&& self.ach_vend_id@ == Seq::new(4, |i: int| 0x20u8)
        &&& self.fs_selection == 0
        &&& self.us_first_char_index == 0
        &&& self.us_last_char_index == 128
        &&& self.s_typo_ascender == 0
        &&& self.s_typo_descender == 0
        &&& self.s_typo_line_gap == 0
        &&& self.us_win_ascent == 8
        &&& self.us_win_descent == 0
        &&& self.ul_code_page_range == 0
        &&& self.sx_height == 5
        &&& self.s_cap_height == 6
        &&& self.us_default_char == 0
        &&& self.us_break_char == 0x20
        &&& self.us_max_context == 2
        &&& self.us_lower_optical_point_size == 0
        &&& self.us_upper_optical_point_size == 0xFFFF
    }

    /// Appends the fields up to the Unicode ranges to `buf`.
    fn encode_front(&self, buf: &mut Vec<u8>)
        ensures
            final(buf)@ == old(buf)@ + self.front_bytes(),
    {
        write_i16(buf, self.x_avg_char_width);
        write_u16(buf, self.us_weight_class);
        write_u16(buf, self.us_width_class);
        write_u16(buf, self.fs_type);
        write_i16(buf, self.y_subscript_x_size);
        write_i16(buf, self.y_subscript_y_size);
        write_i16(buf, self.y_subscript_x_offset);
        write_i16(buf, self.y_subscript_y_offset);
        write_i16(buf, self.y_superscript_x_size);
        write_i16(buf, self.y_superscript_y_size);
        write_i16(buf, self.y_superscript_x_offset);
        write_i16(buf, self.y_superscript_y_offset);
        write_i16(buf, self.y_strikeout_size);
        write_i16(buf, self.y_strikeout_position);
        write_i16(buf, self.s_family_class);
        write_all(buf, self.panose.as_slice());
        write_u128(buf, self.ul_unicode_range);
        assert(buf@ =~= old(buf)@ + self.front_bytes());
    }

    /// Appends the fields from the vendor on to `buf`.
    fn encode_back(&self, buf: &mut Vec<u8>)
        ensures
            final(buf)@ == old(buf)@ + self.back_bytes(),
    {
        write_all(buf, self.ach_vend_id.as_slice());
        write_u16(buf, self.fs_selection);
        write_u16(buf, self.us_first_char_index);
        write_u16(buf, self.us_last_char_index);
        write_i16(buf, self.s_typo_ascender);
        write_i16(buf, self.s_typo_descender);
        write_i16(buf, self.s_typo_line_gap);
        write_u16(buf, self.us_win_ascent);
        write_u16(buf, self.us_win_descent);
        write_u64(buf, self.ul_code_page_range);
        write_i16(buf, self.sx_height);
        write_i16(buf, self.s_cap_height);
        write_u16(buf, self.us_default_char);
        write_u16(buf, self.us_break_char);
        write_u16(buf, self.us_max_context);
        write_u16(buf, self.us_lower_optical_point_size);
        write_u16(buf, self.us_upper_optical_point_size);
        assert(buf@ =~= old(buf)@ + self.back_bytes());
    }
}

impl Os2 {
    /// The table as it is written.
    pub open spec fn spec_bytes(&self) -> Seq<u8> {
        match self {
            Os2::Version5(this) => this.spec_bytes(),
        }
    }

    /// Appends the table to `buf`.
    pub fn encode(&self, buf: &mut Vec<u8>)
        ensures
            final(buf)@ == old(buf)@ + self.spec_bytes(),
    {
        match self {
            Os2::Version5(this) => {
                write_u16(buf, 0x05);  // version
                this.encode_front(buf);
                this.encode_back(buf);
                assert(buf@ =~= old(buf)@ + self.spec_bytes());
            },
        }
    }
}

impl Default for Os2 {
    fn default() -> (r: Self)
        ensures
            r matches Os2::Version5(this) && this.is_default(),
    {
        let os2 = Os2V5 {
            x_avg_char_width: 8,
            us_weight_class: 400,
            us_width_class: 5,
            fs_type: 0,
            y_subscript_x_size: 8,
            y_subscript_y_size: 8,
            y_subscript_x_offset: 0,
            y_subscript_y_offset: 0,
            y_superscript_x_size: 8,
            y_superscript_y_size: 8,
            y_superscript_x_offset: 0,
            y_superscript_y_offset: 0,
            y_strikeout_size: 1,
            y_strikeout_position: 4,
            s_family_class: 0,
            panose: [0, 0, 0, 0, 0, 0, 0, 0, 0, 0],
            ul_unicode_range: 0,
            ach_vend_id: [0x20, 0x20, 0x20, 0x20],
            fs_selection: 0,
            us_first_char_index: 0,
            us_last_char_index: 128,
            s_typo_ascender: 0,
            s_typo_descender: 0,
            s_typo_line_gap: 0,
            us_win_ascent: 8,
            us_win_descent: 0,
            ul_code_page_range: 0,
            sx_height: 5,
            s_cap_height: 6,
            us_default_char: 0,
            us_break_char: 0x20,
            us_max_context: 2,
            us_lower_optical_point_size: 0,
            us_upper_optical_point_size: 0xFFFF,
        };
        assert(os2.panose@ =~= Seq::new(10, |i: int| 0u8));
        assert(os2.ach_vend_id@ =~= Seq::new(4, |i: int| 0x20u8));
        Os2::Version5(os2)
    }
}

impl FontTable for Os2 {
    open spec fn spec_tag() -> Seq<u8> {
        seq![0x4fu8, 0x53u8, 0x2fu8, 0x32u8]
    }

    open spec fn wf(&self) -> bool {
        true
    }

    open spec fn table_bytes(&self) -> Seq<u8> {
        self.spec_bytes()
    }

    fn tag() -> (tag: [u8; 4]) {
        [0x4f, 0x53, 0x2f, 0x32]
    }

    fn write(&self, writer: &mut TableWriter) {
        let mut buf: Vec<u8> = Vec::new();
        self.encode(&mut buf);
        writer.write(buf.as_slice());
    }
}

} // verus!
