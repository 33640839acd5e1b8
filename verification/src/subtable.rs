//! Utility buffer for font subtables whose header holds offsets into a body
//! that is still being written.

use vstd::prelude::*;
use crate::encode::be_u16;
use crate::encode::low16;
use crate::encode::write_all;
use crate::encode::write_u16;

verus! {

/// Utility buffer for font subtables.
/// That is, tables of the form:
///     num_entries: u16
///     byte_offset_to_entries: Vec<u16>
///     entries: <variable>
pub struct SubtableBuffer {
    body_offset: u16,
    header: Vec<u8>,
    body: Vec<u8>,
}

impl SubtableBuffer {
    /// The distance from the start of the enclosing table to the body.
    pub closed spec fn bias(&self) -> u16 {
        self.body_offset
    }

    /// The header bytes written so far.
    pub closed spec fn header_bytes(&self) -> Seq<u8> {
        self.header@
    }

    /// The body bytes written so far.
    pub closed spec fn body_bytes(&self) -> Seq<u8> {
        self.body@
    }

    /// The offset that `mark_offset` records now: where the body stands,
    /// seen from the start of the enclosing table, as a 16-bit field holds it.
    pub open spec fn mark(&self) -> u16 {
        low16(self.body_bytes().len() + self.bias())
    }

    /// An empty buffer whose body will start `body_offset` bytes into the
    /// enclosing table.
    pub fn new(body_offset: u16) -> (r: SubtableBuffer)
        ensures
            r.bias() == body_offset,
            r.header_bytes() == Seq::<u8>::empty(),
            r.body_bytes() == Seq::<u8>::empty(),
    {
        SubtableBuffer { body_offset, header: Vec::new(), body: Vec::new() }
    }

    /// The header region, to write to.
    pub fn header(&mut self) -> (h: &mut Vec<u8>)
        ensures
            h@ == old(self).header_bytes(),
            final(self).header_bytes() == final(h)@,
            final(self).body_bytes() == old(self).body_bytes(),
            final(self).bias() == old(self).bias(),
    {
        &mut self.header
    }

    /// The body region, to write to.
    pub fn body(&mut self) -> (b: &mut Vec<u8>)
        ensures
            b@ == old(self).body_bytes(),
            final(self).body_bytes() == final(b)@,
            final(self).header_bytes() == old(self).header_bytes(),
            final(self).bias() == old(self).bias(),
    {
        &mut self.body
    }

    /// Writes into the header, as a big-endian `u16`, the offset at which the
    /// body now ends: the next thing written to the body starts there.
    pub fn mark_offset(&mut self)
        ensures
            final(self).header_bytes() == old(self).header_bytes() + be_u16(old(self).mark()),
            final(self).body_bytes() == old(self).body_bytes(),
            final(self).bias() == old(self).bias(),
    {
        let wide = self.body.len() as u64;
        assert(wide as u16 == wide % 0x1_0000) by (bit_vector);
        let pos = #[verifier::truncate] (wide as u16);
        let bias = self.body_offset;
        let sum = pos as u32 + bias as u32;
        assert(sum as u16 == sum % 0x1_0000) by (bit_vector);
        assert((wide % 0x1_0000 + bias as u64) % 0x1_0000 == (wide + bias as u64) % 0x1_0000)
            by (bit_vector);
        write_u16(&mut self.header, #[verifier::truncate] (sum as u16));
    }

    /// Writes the header, then the body, to `writer`.
    pub fn write(self, writer: &mut Vec<u8>)
        ensures
            final(writer)@ == old(writer)@ + self.header_bytes() + self.body_bytes(),
    {
        write_all(writer, self.header.as_slice());
        write_all(writer, self.body.as_slice());
    }
}

} // verus!
