//! The font as a file: its tables behind a header and a directory, and
//! how the file is written.

use vstd::prelude::*;
use crate::bsearch::BSearch;
use crate::encode::be_u16;
use crate::encode::be_u32;
use crate::encode::low32;
use crate::encode::low32_of;
use crate::encode::write_all;
use crate::encode::write_u16;
use crate::encode::write_u32;
use crate::error::FontError;
use crate::FontTable;
use crate::tables::cmap::CMap;
use crate::tables::glyf::Glyf;
use crate::tables::gsub::GSub;
use crate::tables::head::Head;
use crate::tables::hhea::HHea;
use crate::tables::hmtx::HMtx;
use crate::tables::loca::Loca;
use crate::tables::maxp::MaxP;
use crate::tables::name::Name;
use crate::tables::os2::Os2;
use crate::tables::post::Post;
use crate::writeutils::lemma_overlay_append;
use crate::writeutils::lemma_overlay_commute;
use crate::writeutils::overlay;
use crate::writeutils::pad4;
use crate::writeutils::TableWriter;
use crate::writeutils::table_checksum;
use crate::writeutils::TwoWrite;

verus! {

/// The size of a record of the table directory.
pub const RECORD_SIZE: u16 = 16;

/// A table as the directory and the data region hold it: its tag and its
/// bytes before padding.
pub type TableImage = (Seq<u8>, Seq<u8>);

/// The data region up to table `k`: the tables before it, each padded to
/// a multiple of four bytes.
pub open spec fn data_upto(tables: Seq<TableImage>, k: nat) -> Seq<u8>
    decreases k,
{
    if k == 0 {
        Seq::empty()
    } else {
        data_upto(tables, (k - 1) as nat) + pad4(tables[k - 1].1)
    }
}

/// The first byte of the data region: behind the 12 bytes of the header
/// and the records of the directory.
pub open spec fn data_start(tables: Seq<TableImage>) -> nat {
    12 + 16 * tables.len()
}

/// The record of a table that starts at `offset`: its tag, the checksum of
/// its padded bytes, the offset from the start of the file and the length
/// before padding, the last two as 32-bit fields hold them.
pub open spec fn table_record(table: TableImage, offset: nat) -> Seq<u8> {
    table.0 + be_u32(table_checksum(table.1)) + be_u32(low32(offset as int)) + be_u32(
        low32(table.1.len() as int),
    )
}

/// The directory up to table `k`.
pub open spec fn records_upto(tables: Seq<TableImage>, k: nat) -> Seq<u8>
    decreases k,
{
    if k == 0 {
        Seq::empty()
    } else {
        records_upto(tables, (k - 1) as nat) + table_record(
            tables[k - 1],
            data_start(tables) + data_upto(tables, (k - 1) as nat).len(),
        )
    }
}

/// The header of a font file of `count` tables: the magic number, the
/// number of tables, and the binary-search parameters of the directory.
pub open spec fn font_header(count: nat) -> Seq<u8> {
    let bsearch = BSearch::spec_from(count, 16);
    seq![0x00u8, 0x01u8, 0x00u8, 0x00u8] + be_u16(count as u16) + be_u16(bsearch.1 as u16)
        + be_u16(bsearch.2 as u16) + be_u16(bsearch.3 as u16)
}

/// The font file of `tables`: header, directory, data region.
pub open spec fn font_image(tables: Seq<TableImage>) -> Seq<u8> {
    font_header(tables.len()) + records_upto(tables, tables.len()) + data_upto(
        tables,
        tables.len(),
    )
}

/// What the image holds while the font is written, after the header and
/// `k` tables: header and data region from the one head, the records of
/// the tables from the other.
#[verifier::opaque]
pub open spec fn image_after(before: Seq<u8>, tables: Seq<TableImage>, k: nat) -> Seq<u8> {
    overlay(
        overlay(overlay(before, 0, font_header(tables.len())), 12, records_upto(tables, k)),
        data_start(tables) as int,
        data_upto(tables, k),
    )
}

/// The header is 12 bytes long, the directory up to table `k` takes 16
/// bytes for each table, and the data region keeps growing.
pub proof fn lemma_image_sizes(tables: Seq<TableImage>, k: nat)
    requires
        k <= tables.len(),
        forall|i: int| 0 <= i < tables.len() ==> (#[trigger] tables[i]).0.len() == 4,
    ensures
        font_header(tables.len()).len() == 12,
        records_upto(tables, k).len() == 16 * k,
        data_upto(tables, k).len() <= data_upto(tables, tables.len()).len(),
        font_image(tables).len() == data_start(tables) + data_upto(tables, tables.len()).len(),
    decreases tables.len() - k,
{
    lemma_records_len(tables, k);
    lemma_records_len(tables, tables.len());
    if k < tables.len() {
        lemma_image_sizes(tables, k + 1);
    }
}

/// The directory up to table `k` takes 16 bytes for each table.
pub proof fn lemma_records_len(tables: Seq<TableImage>, k: nat)
    requires
        k <= tables.len(),
        forall|i: int| 0 <= i < tables.len() ==> (#[trigger] tables[i]).0.len() == 4,
    ensures
        records_upto(tables, k).len() == 16 * k,
    decreases k,
{
    if k > 0 {
        lemma_records_len(tables, (k - 1) as nat);
        assert(tables[k - 1].0.len() == 4);
    }
}

/// One more table written: its padded bytes at the end of the data region,
/// then its record at the end of the directory.
pub proof fn lemma_table_written(before: Seq<u8>, tables: Seq<TableImage>, k: nat)
    requires
        k < tables.len(),
        forall|i: int| 0 <= i < tables.len() ==> (#[trigger] tables[i]).0.len() == 4,
    ensures
        overlay(
            overlay(
                image_after(before, tables, k),
                (data_start(tables) + data_upto(tables, k).len()) as int,
                pad4(tables[k as int].1),
            ),
            12 + 16 * (k as int),
            table_record(tables[k as int], data_start(tables) + data_upto(tables, k).len()),
        ) == image_after(before, tables, k + 1),
{
    reveal(image_after);
    let base = overlay(before, 0, font_header(tables.len()));
    let records = records_upto(tables, k);
    let data = data_upto(tables, k);
    let start = data_start(tables) as int;
    let bytes = pad4(tables[k as int].1);
    let record = table_record(tables[k as int], (start + data.len()) as nat);
    lemma_records_len(tables, k);
    assert(tables[k as int].0.len() == 4);
    assert(record.len() == 16);
    let low = overlay(base, 12, records);
    lemma_overlay_append(low, start, data, bytes);
    lemma_overlay_commute(low, 12 + 16 * (k as int), record, start, data + bytes);
    lemma_overlay_append(base, 12, records, record);
}

/// With all tables written, the image holds the font file.
pub proof fn lemma_all_written(before: Seq<u8>, tables: Seq<TableImage>)
    requires
        forall|i: int| 0 <= i < tables.len() ==> (#[trigger] tables[i]).0.len() == 4,
    ensures
        image_after(before, tables, tables.len()) == overlay(before, 0, font_image(tables)),
{
    reveal(image_after);
    let n = tables.len();
    let header = font_header(n);
    let records = records_upto(tables, n);
    let data = data_upto(tables, n);
    lemma_records_len(tables, n);
    assert(header.len() == 12);
    lemma_overlay_append(before, 0, header, records);
    lemma_overlay_append(before, 0, header + records, data);
}

/// Writes `table` at the active head of `writer`, padded to a multiple of
/// four bytes, and its record at the other head. Fails where the table
/// would end beyond `usize`.
pub fn write_table<T: FontTable>(writer: &mut TwoWrite, table: &T) -> (r: Result<(), FontError>)
    requires
        table.wf(),
        T::spec_tag().len() == 4,
        old(writer).other_position() + 16 <= old(writer).position(),
    ensures
        match r {
            Ok(()) => {
                let bytes = pad4(table.table_bytes());
                &&& old(writer).position() + bytes.len() <= usize::MAX
                &&& final(writer).position() == old(writer).position() + bytes.len()
                &&& final(writer).other_position() == old(writer).other_position() + 16
                &&& final(writer).image() == overlay(
                    overlay(old(writer).image(), old(writer).position() as int, bytes),
                    old(writer).other_position() as int,
                    table_record(
                        (T::spec_tag(), table.table_bytes()),
                        old(writer).position(),
                    ),
                )
            },
            Err(e) => e == FontError::TooLarge && old(writer).position() + pad4(
                table.table_bytes(),
            ).len() > usize::MAX,
        },
{
    let position = writer.stream_position();
    let table_ptr = low32_of(position);
    let mut twriter = TableWriter::new(Vec::new());
    table.write(&mut twriter);
    let (bytes, checksum, length) = twriter.finalize();
    assert(bytes@ =~= pad4(table.table_bytes()));
    match writer.write_all(bytes.as_slice()) {
        Ok(()) => {},
        Err(e) => {
            return Err(e);
        },
    }
    writer.swap();

    let mut record: Vec<u8> = Vec::new();
    let tag = T::tag();
    write_all(&mut record, tag.as_slice());
    write_u32(&mut record, checksum);
    write_u32(&mut record, table_ptr);
    write_u32(&mut record, length);
    assert(record@ =~= table_record((T::spec_tag(), table.table_bytes()), position as nat));
    match writer.write_all(record.as_slice()) {
        Ok(()) => {},
        Err(e) => {
            assert(false);
            return Err(e);
        },
    }
    writer.swap();
    Ok(())
}

/// Writes table `k` of `tables` and its record, behind the tables and
/// records written before.
fn write_next<T: FontTable>(
    writer: &mut TwoWrite,
    table: &T,
    Ghost(before): Ghost<Seq<u8>>,
    Ghost(tables): Ghost<Seq<TableImage>>,
    Ghost(k): Ghost<nat>,
) -> (r: Result<(), FontError>)
    requires
        table.wf(),
        k < tables.len(),
        forall|i: int| 0 <= i < tables.len() ==> (#[trigger] tables[i]).0.len() == 4,
        tables[k as int] == image_of(*table),
        old(writer).image() == image_after(before, tables, k),
        old(writer).position() == data_start(tables) + data_upto(tables, k).len(),
        old(writer).other_position() == 12 + 16 * k,
    ensures
        match r {
            Ok(()) => {
                &&& final(writer).image() == image_after(before, tables, k + 1)
                &&& final(writer).position() == data_start(tables) + data_upto(
                    tables,
                    k + 1,
                ).len()
                &&& final(writer).other_position() == 12 + 16 * (k + 1)
            },
            Err(e) => e == FontError::TooLarge && font_image(tables).len() > usize::MAX,
        },
{
    proof {
        lemma_image_of(*table);
        lemma_image_sizes(tables, k + 1);
        lemma_table_written(before, tables, k);
    }
    write_table(writer, table)
}

/// A compiled font: its tables.
pub struct Font {
    /// character to glyph mapping
    pub cmap: CMap,
    /// glyph data
    pub glyf: Glyf,
    /// ligature data
    pub gsub: Option<GSub>,
    /// font header
    pub head: Head,
    /// horizontal header
    pub hhea: HHea,
    /// horizontal metrics
    pub hmtx: HMtx,
    /// index to location
    pub loca: Loca,
    /// maximum profile
    pub maxp: MaxP,
    /// naming
    pub name: Name,
    /// metrics for Windows
    pub os2: Os2,
    /// PostScript
    pub post: Post,
}

/// A table with its tag.
#[verifier::opaque]
pub open spec fn image_of<T: FontTable>(table: T) -> TableImage {
    (T::spec_tag(), table.table_bytes())
}

/// The tag that `image_of` pairs with a table is four bytes long where the
/// tag of the table is.
pub proof fn lemma_tag_len<T: FontTable>(table: T)
    requires
        T::spec_tag().len() == 4,
    ensures
        image_of(table).0.len() == 4,
{
    reveal(image_of);
}

/// What `image_of` pairs: the tag of the table and its bytes.
pub proof fn lemma_image_of<T: FontTable>(table: T)
    ensures
        image_of(table) == (T::spec_tag(), table.table_bytes()),
{
    reveal(image_of);
}

impl Font {
    /// Every table can be written.
    pub open spec fn wf(&self) -> bool {
        &&& FontTable::wf(&self.cmap)
        &&& FontTable::wf(&self.glyf)
        &&& FontTable::wf(&self.hmtx)
        &&& FontTable::wf(&self.loca)
        &&& self.gsub matches Some(gsub) ==> FontTable::wf(&gsub)
    }

    /// Whether every table can be written.
    pub fn is_wf(&self) -> (r: bool)
        ensures
            r == self.wf(),
    {
        let gsub = match &self.gsub {
            Some(gsub) => gsub.is_wf(),
            None => true,
        };
        gsub && self.cmap.is_wf() && self.glyf.is_wf() && self.hmtx.len() > 0 && self.loca.is_wf()
    }

    /// The tables that are always there, in the order of the directory.
    #[verifier::opaque]
    pub open spec fn fixed_tables(&self) -> Seq<TableImage> {
        seq![
            image_of(self.os2),
            image_of(self.cmap),
            image_of(self.glyf),
            image_of(self.head),
            image_of(self.hhea),
            image_of(self.hmtx),
            image_of(self.loca),
            image_of(self.maxp),
            image_of(self.name),
            image_of(self.post),
        ]
    }

    /// The tables of the font, in the order of the directory: the
    /// substitution table first, where there is one.
    #[verifier::opaque]
    pub open spec fn tables(&self) -> Seq<TableImage> {
        match self.gsub {
            Some(gsub) => seq![image_of(gsub)] + self.fixed_tables(),
            None => self.fixed_tables(),
        }
    }

    /// The font as a file.
    pub open spec fn spec_image(&self) -> Seq<u8> {
        font_image(self.tables())
    }

    /// There are ten tables that every font has, and the tag of each is
    /// four bytes long.
    pub proof fn lemma_fixed_tables(&self)
        ensures
            self.fixed_tables().len() == 10,
            forall|i: int| 0 <= i < 10 ==> (#[trigger] self.fixed_tables()[i]).0.len() == 4,
            self.fixed_tables()[0] == image_of(self.os2),
            self.fixed_tables()[1] == image_of(self.cmap),
            self.fixed_tables()[2] == image_of(self.glyf),
            self.fixed_tables()[3] == image_of(self.head),
            self.fixed_tables()[4] == image_of(self.hhea),
            self.fixed_tables()[5] == image_of(self.hmtx),
            self.fixed_tables()[6] == image_of(self.loca),
            self.fixed_tables()[7] == image_of(self.maxp),
            self.fixed_tables()[8] == image_of(self.name),
            self.fixed_tables()[9] == image_of(self.post),
    {
        reveal(Font::fixed_tables);
        lemma_tag_len(self.os2);
        lemma_tag_len(self.cmap);
        lemma_tag_len(self.glyf);
        lemma_tag_len(self.head);
        lemma_tag_len(self.hhea);
        lemma_tag_len(self.hmtx);
        lemma_tag_len(self.loca);
        lemma_tag_len(self.maxp);
        lemma_tag_len(self.name);
        lemma_tag_len(self.post);
        let t = self.fixed_tables();
        assert(t[0].0.len() == 4);
        assert(t[1].0.len() == 4);
        assert(t[2].0.len() == 4);
        assert(t[3].0.len() == 4);
        assert(t[4].0.len() == 4);
        assert(t[5].0.len() == 4);
        assert(t[6].0.len() == 4);
        assert(t[7].0.len() == 4);
        assert(t[8].0.len() == 4);
        assert(t[9].0.len() == 4);
    }

    /// A font has ten tables, or eleven with the substitution table in
    /// front; every tag is four bytes long.
    pub proof fn lemma_tables(&self)
        ensures
            self.tables().len() == if self.gsub is Some {
                11nat
            } else {
                10nat
            },
            forall|i: int| 0 <= i < self.tables().len() ==> (#[trigger] self.tables()[i]).0.len() == 4,
            self.gsub matches Some(gsub) ==> self.tables()[0] == image_of(gsub)
                && self.tables().skip(1) == self.fixed_tables(),
            self.gsub is None ==> self.tables().skip(0) == self.fixed_tables(),
    {
        reveal(Font::tables);
        self.lemma_fixed_tables();
        let fixed = self.fixed_tables();
        let all = self.tables();
        match self.gsub {
            Some(gsub) => {
                lemma_tag_len(gsub);
                assert(all == seq![image_of(gsub)] + fixed);
                assert(all.skip(1) =~= fixed);
                assert forall|i: int| 0 <= i < all.len() implies (#[trigger] all[i]).0.len()
                    == 4 by {
                    if i > 0 {
                        assert(all[i] == fixed[i - 1]);
                    }
                }
            },
            None => {
                assert(all.skip(0) =~= fixed);
            },
        }
    }

    /// The tables of the font one by one: the substitution table, where
    /// there is one, then the ten that every font has.
    pub proof fn lemma_table_list(&self)
        ensures
            self.tables().len() == self.head_index() + 7,
            forall|i: int| 0 <= i < self.tables().len() ==> (#[trigger] self.tables()[i]).0.len() == 4,
            self.gsub matches Some(gsub) ==> self.tables()[0] == image_of(gsub),
            self.tables()[self.head_index() - 3 + 0] == image_of(self.os2),
            self.tables()[self.head_index() - 3 + 1] == image_of(self.cmap),
            self.tables()[self.head_index() - 3 + 2] == image_of(self.glyf),
            self.tables()[self.head_index() - 3 + 3] == image_of(self.head),
            self.tables()[self.head_index() - 3 + 4] == image_of(self.hhea),
            self.tables()[self.head_index() - 3 + 5] == image_of(self.hmtx),
            self.tables()[self.head_index() - 3 + 6] == image_of(self.loca),
            self.tables()[self.head_index() - 3 + 7] == image_of(self.maxp),
            self.tables()[self.head_index() - 3 + 8] == image_of(self.name),
            self.tables()[self.head_index() - 3 + 9] == image_of(self.post),
    {
        self.lemma_tables();
        self.lemma_fixed_tables();
        let all = self.tables();
        let first = self.head_index() - 3;
        assert(all.skip(first)[0] == all[first + 0]);
        assert(all.skip(first)[1] == all[first + 1]);
        assert(all.skip(first)[2] == all[first + 2]);
        assert(all.skip(first)[3] == all[first + 3]);
        assert(all.skip(first)[4] == all[first + 4]);
        assert(all.skip(first)[5] == all[first + 5]);
        assert(all.skip(first)[6] == all[first + 6]);
        assert(all.skip(first)[7] == all[first + 7]);
        assert(all.skip(first)[8] == all[first + 8]);
        assert(all.skip(first)[9] == all[first + 9]);
    }

    /// Writes the first five of the tables that every font has, behind the
    /// `first` tables written before.
    fn write_front(
        &self,
        two: &mut TwoWrite,
        Ghost(before): Ghost<Seq<u8>>,
        Ghost(tables): Ghost<Seq<TableImage>>,
        Ghost(first): Ghost<nat>,
    ) -> (r: Result<(), FontError>)
        requires
            first + 10 == tables.len(),
            tables[first as int + 0] == image_of(self.os2),
            tables[first as int + 1] == image_of(self.cmap),
            tables[first as int + 2] == image_of(self.glyf),
            tables[first as int + 3] == image_of(self.head),
            tables[first as int + 4] == image_of(self.hhea),
            FontTable::wf(&self.cmap),
            FontTable::wf(&self.glyf),
            forall|i: int| 0 <= i < tables.len() ==> (#[trigger] tables[i]).0.len() == 4,
            old(two).image() == image_after(before, tables, first + 0),
            old(two).position() == data_start(tables) + data_upto(tables, first + 0).len(),
            old(two).other_position() == 12 + 16 * (first + 0),
        ensures
            match r {
                Ok(()) => {
                    &&& final(two).image() == image_after(before, tables, first + 5)
                    &&& final(two).position() == data_start(tables) + data_upto(
                        tables,
                        first + 5,
                    ).len()
                    &&& final(two).other_position() == 12 + 16 * (first + 5)
                },
                Err(e) => e == FontError::TooLarge && font_image(tables).len() > usize::MAX,
            },
    {
        match write_next(two, &self.os2, Ghost(before), Ghost(tables), Ghost(first + 0)) {
            Ok(()) => {},
            Err(e) => {
                return Err(e);
            },
        }
        match write_next(two, &self.cmap, Ghost(before), Ghost(tables), Ghost(first + 1)) {
            Ok(()) => {},
            Err(e) => {
                return Err(e);
            },
        }
        match write_next(two, &self.glyf, Ghost(before), Ghost(tables), Ghost(first + 2)) {
            Ok(()) => {},
            Err(e) => {
                return Err(e);
            },
        }
        match write_next(two, &self.head, Ghost(before), Ghost(tables), Ghost(first + 3)) {
            Ok(()) => {},
            Err(e) => {
                return Err(e);
            },
        }
        match write_next(two, &self.hhea, Ghost(before), Ghost(tables), Ghost(first + 4)) {
            Ok(()) => {},
            Err(e) => {
                return Err(e);
            },
        }
        Ok(())
    }

    /// Writes the last five of the tables that every font has.
    fn write_back(
        &self,
        two: &mut TwoWrite,
        Ghost(before): Ghost<Seq<u8>>,
        Ghost(tables): Ghost<Seq<TableImage>>,
        Ghost(first): Ghost<nat>,
    ) -> (r: Result<(), FontError>)
        requires
            first + 10 == tables.len(),
            tables[first as int + 5] == image_of(self.hmtx),
            tables[first as int + 6] == image_of(self.loca),
            tables[first as int + 7] == image_of(self.maxp),
            tables[first as int + 8] == image_of(self.name),
            tables[first as int + 9] == image_of(self.post),
            FontTable::wf(&self.hmtx),
            FontTable::wf(&self.loca),
            forall|i: int| 0 <= i < tables.len() ==> (#[trigger] tables[i]).0.len() == 4,
            old(two).image() == image_after(before, tables, first + 5),
            old(two).position() == data_start(tables) + data_upto(tables, first + 5).len(),
            old(two).other_position() == 12 + 16 * (first + 5),
        ensures
            match r {
                Ok(()) => {
                    &&& final(two).image() == image_after(before, tables, first + 10)
                    &&& final(two).position() == data_start(tables) + data_upto(
                        tables,
                        first + 10,
                    ).len()
                    &&& final(two).other_position() == 12 + 16 * (first + 10)
                },
                Err(e) => e == FontError::TooLarge && font_image(tables).len() > usize::MAX,
            },
    {
        match write_next(two, &self.hmtx, Ghost(before), Ghost(tables), Ghost(first + 5)) {
            Ok(()) => {},
            Err(e) => {
                return Err(e);
            },
        }
        match write_next(two, &self.loca, Ghost(before), Ghost(tables), Ghost(first + 6)) {
            Ok(()) => {},
            Err(e) => {
                return Err(e);
            },
        }
        match write_next(two, &self.maxp, Ghost(before), Ghost(tables), Ghost(first + 7)) {
            Ok(()) => {},
            Err(e) => {
                return Err(e);
            },
        }
        match write_next(two, &self.name, Ghost(before), Ghost(tables), Ghost(first + 8)) {
            Ok(()) => {},
            Err(e) => {
                return Err(e);
            },
        }
        match write_next(two, &self.post, Ghost(before), Ghost(tables), Ghost(first + 9)) {
            Ok(()) => {},
            Err(e) => {
                return Err(e);
            },
        }
        Ok(())
    }

    /// Writes the header of a font of `table_count` tables at the front of
    /// the image and leaves the heads at the start of the data region and
    /// of the directory.
    fn write_header(
        two: &mut TwoWrite,
        table_count: u16,
        Ghost(before): Ghost<Seq<u8>>,
        Ghost(tables): Ghost<Seq<TableImage>>,
    )
        requires
            1 <= table_count <= 11,
            tables.len() == table_count,
            old(two).image() == before,
            old(two).position() == 0,
            old(two).other_position() == 12 + 16 * table_count,
        ensures
            final(two).image() == image_after(before, tables, 0),
            final(two).position() == data_start(tables),
            final(two).other_position() == 12,
    {
        let bsearch = BSearch::from(table_count, RECORD_SIZE);
        let mut header: Vec<u8> = Vec::new();
        header.push(0x00);
        header.push(0x01);
        header.push(0x00);
        header.push(0x00);  // magic
        write_u16(&mut header, table_count);
        write_u16(&mut header, bsearch.search_range);
        write_u16(&mut header, bsearch.entry_selector);
        write_u16(&mut header, bsearch.range_shift);
        assert(header@ =~= font_header(tables.len()));
        match two.write_all(header.as_slice()) {
            Ok(()) => {},
            Err(e) => {
                assert(false);
            },
        }
        two.swap();
        assert(two.image() =~= image_after(before, tables, 0)) by {
            reveal(image_after);
        }
    }

    /// Encode this font and write it to the front of `writer`, over what is
    /// there. Header and data region are written from one head, the
    /// directory from a second one that follows the header. Fails, with a
    /// part of the font written, where the file would end beyond `usize`.
    pub fn write_to(&self, writer: &mut Vec<u8>) -> (r: Result<(), FontError>)
        requires
            self.wf(),
        ensures
            match r {
                Ok(()) => self.spec_image().len() <= usize::MAX && final(writer)@ == overlay(
                    old(writer)@,
                    0,
                    self.spec_image(),
                ),
                Err(e) => e == FontError::TooLarge && self.spec_image().len() > usize::MAX,
            },
    {
        let ghost tables = self.tables();
        let ghost before = writer@;
        let table_count: u16 = if self.gsub.is_some() {
            11
        } else {
            10
        };
        let table_ptr: usize = 12 + (table_count * RECORD_SIZE) as usize;
        let mut image: Vec<u8> = Vec::new();
        core::mem::swap(writer, &mut image);
        let mut two = TwoWrite::split_at(image, table_ptr);
        proof {
            self.lemma_table_list();
        }

        Self::write_header(&mut two, table_count, Ghost(before), Ghost(tables));
        let ghost mut first: nat = 0;

        // Table Records
        if let Some(gsub) = &self.gsub {
            match write_next(&mut two, gsub, Ghost(before), Ghost(tables), Ghost(0)) {
                Ok(()) => {},
                Err(e) => {
                    return Err(e);
                },
            }
            proof {
                first = 1;
            }
        }
        match self.write_front(&mut two, Ghost(before), Ghost(tables), Ghost(first)) {
            Ok(()) => {},
            Err(e) => {
                return Err(e);
            },
        }
        match self.write_back(&mut two, Ghost(before), Ghost(tables), Ghost(first)) {
            Ok(()) => {},
            Err(e) => {
                return Err(e);
            },
        }
        proof {
            lemma_all_written(before, tables);
            lemma_image_sizes(tables, tables.len());
        }
        let mut image = two.into_inner();
        let total = image.len();
        assert(overlay(before, 0, font_image(tables)).len() >= font_image(tables).len());
        core::mem::swap(writer, &mut image);
        Ok(())
    }
}

impl Font {
    /// The place of the font header among the tables.
    pub open spec fn head_index(&self) -> int {
        if self.gsub is Some {
            4
        } else {
            3
        }
    }

    /// Where the two timestamps of the font header stand in the file.
    pub open spec fn dates_offset(&self) -> nat {
        data_start(self.tables()) + data_upto(self.tables(), self.head_index() as nat).len() + 20
    }
}

} // verus!
