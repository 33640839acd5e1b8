//! The index-to-location table: where each glyph starts in the glyph table.

use vstd::prelude::*;
use crate::encode::be_u16;
use crate::encode::be_u32;
use crate::encode::write_u16;
use crate::encode::write_u32;
use crate::writeutils::TableWriter;
use crate::FontTable;

verus! {

/// The offsets of the glyphs in the glyph table, and one more for its end.
pub struct Loca {
    offsets: Vec<usize>,
}

/// The offsets as 32-bit fields.
pub open spec fn long_offsets(offsets: Seq<usize>) -> Seq<u8>
    decreases offsets.len(),
{
    if offsets.len() == 0 {
        Seq::empty()
    } else {
        long_offsets(offsets.drop_last()) + be_u32(offsets.last() as u32)
    }
}

/// The offsets as 16-bit fields.
pub open spec fn short_offsets(offsets: Seq<usize>) -> Seq<u8>
    decreases offsets.len(),
{
    if offsets.len() == 0 {
        Seq::empty()
    } else {
        short_offsets(offsets.drop_last()) + be_u16(offsets.last() as u16)
    }
}

impl Loca {
    /// The offsets, in glyph order.
    pub closed spec fn offsets(&self) -> Seq<usize> {
        self.offsets@
    }

    /// The largest offset does not fit 16 bits.
    pub open spec fn spec_needs_long(&self) -> bool {
        exists|i: int| 0 <= i < self.offsets().len() && #[trigger] self.offsets()[i] > 0xffff
    }

    /// The table: every offset in the long or in the short form.
    pub open spec fn spec_bytes(&self) -> Seq<u8> {
        if self.spec_needs_long() {
            long_offsets(self.offsets())
        } else {
            short_offsets(self.offsets())
        }
    }

    /// A location table of these offsets.
    pub fn from(offsets: Vec<usize>) -> (r: Self)
        ensures
            r.offsets() == offsets@,
    {
        Self { offsets }
    }

    /// Whether the table takes 32-bit elements: it does when an offset is
    /// beyond the 16-bit range.
    pub fn needs_long(&self) -> (r: bool)
        ensures
            r == self.spec_needs_long(),
    {
        let mut i: usize = 0;
        while i < self.offsets.len()
            invariant
                i <= self.offsets.len(),
                forall|k: int| 0 <= k < i ==> #[trigger] self.offsets()[k] <= 0xffff,
            decreases self.offsets.len() - i,
        {
            if self.offsets[i] > 0xffff {
                assert(self.offsets()[i as int] > 0xffff);
                return true;
            }
            i = i + 1;
        }
        false
    }

    /// Whether the table can be written: every offset fits 32 bits.
    pub fn is_wf(&self) -> (r: bool)
        ensures
            r == FontTable::wf(self),
    {
        let mut i: usize = 0;
        while i < self.offsets.len()
            invariant
                i <= self.offsets.len(),
                forall|k: int| 0 <= k < i ==> #[trigger] self.offsets()[k] <= 0xffff_ffff,
            decreases self.offsets.len() - i,
        {
            if self.offsets[i] > 0xffff_ffff {
                assert(self.offsets()[i as int] > 0xffff_ffff);
                return false;
            }
            i = i + 1;
        }
        true
    }

    /// The number of offsets.
    pub fn len(&self) -> (n: usize)
        ensures
            n == self.offsets().len(),
    {
        self.offsets.len()
    }

    /// The offset at `index`.
    pub fn offset(&self, index: usize) -> (r: usize)
        requires
            index < self.offsets().len(),
        ensures
            r == self.offsets()[index as int],
    {
        self.offsets[index]
    }

    /// Appends the table to `buf`.
    pub fn encode(&self, buf: &mut Vec<u8>)
        requires
            FontTable::wf(self),
        ensures
            final(buf)@ == old(buf)@ + self.spec_bytes(),
    {
        let mut i: usize = 0;
        assert(self.offsets@.take(0) == Seq::<usize>::empty());
        if self.needs_long() {
            while i < self.offsets.len()
                invariant
                    i <= self.offsets.len(),
                    FontTable::wf(self),
                    buf@ == old(buf)@ + long_offsets(self.offsets@.take(i as int)),
                decreases self.offsets.len() - i,
            {
                let off = self.offsets[i];
                assert(self.offsets@.take(i + 1).drop_last() == self.offsets@.take(i as int));
                write_u32(buf, off as u32);
                i = i + 1;
                assert(buf@ =~= old(buf)@ + long_offsets(self.offsets@.take(i as int)));
            }
        } else {
            while i < self.offsets.len()
                invariant
                    i <= self.offsets.len(),
                    !self.spec_needs_long(),
                    buf@ == old(buf)@ + short_offsets(self.offsets@.take(i as int)),
                decreases self.offsets.len() - i,
            {
                let off = self.offsets[i];
                assert(self.offsets()[i as int] <= 0xffff);
                assert(self.offsets@.take(i + 1).drop_last() == self.offsets@.take(i as int));
                write_u16(buf, off as u16);
                i = i + 1;
                assert(buf@ =~= old(buf)@ + short_offsets(self.offsets@.take(i as int)));
            }
        }
        assert(self.offsets@.take(i as int) == self.offsets@);
    }
}

impl FontTable for Loca {
    open spec fn spec_tag() -> Seq<u8> {
        seq![0x6cu8, 0x6fu8, 0x63u8, 0x61u8]
    }

    /// Every offset fits the 32 bits of the long form.
    open spec fn wf(&self) -> bool {
        forall|i: int| 0 <= i < self.offsets().len() ==> #[trigger] self.offsets()[i] <= 0xffff_ffff
    }

    open spec fn table_bytes(&self) -> Seq<u8> {
        self.spec_bytes()
    }

    fn tag() -> (tag: [u8; 4]) {
        [0x6c, 0x6f, 0x63, 0x61]
    }

    fn write(&self, writer: &mut TableWriter) {
        let mut buf: Vec<u8> = Vec::new();
        self.encode(&mut buf);
        writer.write(buf.as_slice());
    }
}

} // verus!
