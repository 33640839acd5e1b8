//! The maximum profile table: the largest of each thing a renderer has to
//! make room for.

use vstd::prelude::*;
use crate::encode::be_u16;
use crate::encode::be_u32;
use crate::encode::write_u16;
use crate::encode::write_u32;
use crate::writeutils::TableWriter;
use crate::FontTable;

verus! {

/// The maximum profile of a font.
#[derive(Debug, Clone, Copy, PartialEq, Eq, Structural)]
pub struct MaxP {
    pub version: u32,
    /// the number of glyphs in the font
    pub num_glyphs: u16,
    /// points in non-compound glyph
    pub max_points: u16,
    /// contours in non-compound glyph
    pub max_contours: u16,
    /// points in compound glyph
    pub max_component_points: u16,
    /// contours in compound glyph
    pub max_component_contours: u16,
    /// set to 2
    pub max_zones: u16,
    /// points used in Twilight Zone (Z0)
    pub max_twilight_points: u16,
    /// number of Storage Area locations
    pub max_storage: u16,
    /// number of FDEFs
    pub max_function_defs: u16,
    /// number of IDEFs
    pub max_instruction_defs: u16,
    /// maximum stack depth
    pub max_stack_elements: u16,
    /// byte count for glyph instructions
    pub max_size_of_instructions: u16,
    /// number of glyphs referenced at top level
    pub max_component_elements: u16,
    /// levels of recursion, set to 0 if font has only simple glyphs
    pub max_component_depth: u16,
}

impl MaxP {
    /// The table: the version, then the fourteen counters in order.
    pub open spec fn spec_bytes(self) -> Seq<u8> {
        be_u32(self.version) + be_u16(self.num_glyphs) + be_u16(self.max_points) + be_u16(
            self.max_contours,
        ) + be_u16(self.max_component_points) + be_u16(self.max_component_contours) + be_u16(
            self.max_zones,
        ) + be_u16(self.max_twilight_points) + be_u16(self.max_storage) + be_u16(
            self.max_function_defs,
        ) + be_u16(self.max_instruction_defs) + be_u16(self.max_stack_elements) + be_u16(
            self.max_size_of_instructions,
        ) + be_u16(self.max_component_elements) + be_u16(self.max_component_depth)
    }

    /// Appends the table to `buf`.
    pub fn encode(&self, buf: &mut Vec<u8>)
        ensures
            final(buf)@ == old(buf)@ + self.spec_bytes(),
    {
        write_u32(buf, self.version);
        write_u16(buf, self.num_glyphs);
        write_u16(buf, self.max_points);
        write_u16(buf, self.max_contours);
        write_u16(buf, self.max_component_points);
        write_u16(buf, self.max_component_contours);
        write_u16(buf, self.max_zones);
        write_u16(buf, self.max_twilight_points);
        write_u16(buf, self.max_storage);
        write_u16(buf, self.max_function_defs);
        write_u16(buf, self.max_instruction_defs);
        write_u16(buf, self.max_stack_elements);
        write_u16(buf, self.max_size_of_instructions);
        write_u16(buf, self.max_component_elements);
        write_u16(buf, self.max_component_depth);
        assert(buf@ =~= old(buf)@ + self.spec_bytes());
    }
}

impl FontTable for MaxP {
    open spec fn spec_tag() -> Seq<u8> {
        seq![0x6du8, 0x61u8, 0x78u8, 0x70u8]
    }

    open spec fn wf(&self) -> bool {
        true
    }

    open spec fn table_bytes(&self) -> Seq<u8> {
        self.spec_bytes()
    }

    fn tag() -> (tag: [u8; 4]) {
        [0x6d, 0x61, 0x78, 0x70]
    }

    fn write(&self, writer: &mut TableWriter) {
        let mut buf: Vec<u8> = Vec::new();
        self.encode(&mut buf);
        writer.write(buf.as_slice());
    }
}

} // verus!
