//! The character map: from character codes to glyph ids.

use vstd::prelude::*;
use crate::bsearch::BSearch;
use crate::encode::be_i16;
use crate::encode::be_u16;
use crate::encode::be_u32;
use crate::encode::write_all;
use crate::encode::write_i16;
use crate::encode::write_u16;
use crate::encode::write_u32;
use crate::encode::zeros;
use crate::error::FontError;
use crate::itertools::lemma_next_is_first_run;
use crate::itertools::lemma_run_count_skip;
use crate::itertools::lemma_run_len_is_run;
use crate::itertools::may_ask;
use crate::itertools::run_count;
use crate::itertools::run_len;
use crate::itertools::split_when;
use crate::platform::Platform;
use crate::platform::UnicodeEncoding;
use crate::writeutils::TableWriter;
use crate::FontTable;

verus! {

/// A `Segment` describes a range of character codes, and maps them
/// to glyph indexes.
///
/// eg: a Segment over the character range 0x61..=0x7A ('a'..='z')
/// with delta -0x60 maps these characters to glyphs 1..=26.
#[derive(Debug, Clone, Copy, PartialEq, Eq, Structural)]
pub struct Segment {
    pub start: u16,
    pub end: u16,
    pub delta: i16,
}

/// The segment that closes every segment list.
pub open spec fn spec_end_cap() -> Segment {
    Segment { start: 0xffff, end: 0xffff, delta: 1 }
}

impl Segment {
    /// The segment that closes every segment list.
    pub fn end_cap() -> (r: Self)
        ensures
            r == spec_end_cap(),
    {
        Segment { start: 0xffff, end: 0xffff, delta: 1 }
    }

    /// The glyph id the segment gives to `code`: the code plus the delta,
    /// modulo 65536.
    pub open spec fn glyph_of(self, code: u16) -> int {
        (code + self.delta) % 0x1_0000
    }
}

/// What a character-map subtable holds.
pub enum CMapSubtable {
    /// One glyph index for each of the 256 single-byte codes.
    Format0 { language_id: u16, glyph_indexes: [u8; 256] },
    /// Segments of consecutive codes, each with a delta to the glyph ids.
    Format4 { language_id: u16, segments: Vec<Segment> },
}

/// A character-map subtable as plain values.
pub ghost enum SubtableView {
    Format0 { language_id: u16, glyph_indexes: Seq<u8> },
    Format4 { language_id: u16, segments: Seq<Segment> },
}

/// One field of every segment in turn.
pub open spec fn column(segments: Seq<Segment>, field: spec_fn(Segment) -> Seq<u8>) -> Seq<u8>
    decreases segments.len(),
{
    if segments.len() == 0 {
        Seq::empty()
    } else {
        column(segments.drop_last(), field) + field(segments.last())
    }
}

/// The end code of a segment as its field.
pub open spec fn end_field() -> spec_fn(Segment) -> Seq<u8> {
    |s: Segment| be_u16(s.end)
}

/// The start code of a segment as its field.
pub open spec fn start_field() -> spec_fn(Segment) -> Seq<u8> {
    |s: Segment| be_u16(s.start)
}

/// The delta of a segment as its field.
pub open spec fn delta_field() -> spec_fn(Segment) -> Seq<u8> {
    |s: Segment| be_i16(s.delta)
}

/// The range offset of a segment as its field: always zero, the segment
/// maps through its delta alone.
pub open spec fn range_offset_field() -> spec_fn(Segment) -> Seq<u8> {
    |s: Segment| be_u16(0)
}

impl SubtableView {
    /// The subtable fits its format: a segment list holds between 1 and
    /// 8189 segments, so that its size fits its 16-bit length field.
    pub open spec fn wf(self) -> bool {
        match self {
            SubtableView::Format0 { language_id, glyph_indexes } => glyph_indexes.len() == 256,
            SubtableView::Format4 { language_id, segments } => 1 <= segments.len() <= 8189,
        }
    }

    /// The bytes of the subtable.
    pub open spec fn spec_bytes(self) -> Seq<u8> {
        match self {
            SubtableView::Format0 { language_id, glyph_indexes } => be_u16(0x0000) + be_u16(
                0x0106,
            ) + be_u16(language_id) + glyph_indexes,
            SubtableView::Format4 { language_id, segments } => {
                let seg_count = segments.len();
                let bsearch = BSearch::spec_from(seg_count, 2);
                be_u16(0x0004) + be_u16((16 + 8 * seg_count) as u16) + be_u16(language_id)
                    + be_u16(bsearch.0 as u16) + be_u16(bsearch.1 as u16) + be_u16(
                    bsearch.2 as u16,
                ) + be_u16(bsearch.3 as u16) + column(segments, end_field()) + be_u16(0x0000)
                    + column(segments, start_field()) + column(segments, delta_field()) + column(
                    segments,
                    range_offset_field(),
                )
            },
        }
    }
}

impl CMapSubtable {
    /// The subtable as plain values.
    pub open spec fn view(&self) -> SubtableView {
        match self {
            CMapSubtable::Format0 { language_id, glyph_indexes } => SubtableView::Format0 {
                language_id: *language_id,
                glyph_indexes: glyph_indexes@,
            },
            CMapSubtable::Format4 { language_id, segments } => SubtableView::Format4 {
                language_id: *language_id,
                segments: segments@,
            },
        }
    }

    /// Appends the subtable to `buf` and returns its length in bytes.
    pub fn write(&self, buf: &mut Vec<u8>) -> (len: usize)
        requires
            self.view().wf(),
        ensures
            final(buf)@ == old(buf)@ + self.view().spec_bytes(),
            len == self.view().spec_bytes().len(),
    {
        let start_len = buf.len();
        match self {
            CMapSubtable::Format0 { language_id, glyph_indexes } => {
                write_u16(buf, 0x0000);  // format
                write_u16(buf, 0x0106);  // subtable size
                write_u16(buf, *language_id);
                write_all(buf, glyph_indexes.as_slice());
                assert(buf@ =~= old(buf)@ + self.view().spec_bytes());
            },
            CMapSubtable::Format4 { language_id, segments } => {
                let seg_count = segments.len() as u16;
                let bsearch = BSearch::from(seg_count, 2);
                let subtable_size = 16 + 8 * seg_count;

                write_u16(buf, 0x0004);  // format
                write_u16(buf, subtable_size);
                write_u16(buf, *language_id);
                write_u16(buf, bsearch.len);
                write_u16(buf, bsearch.search_range);
                write_u16(buf, bsearch.entry_selector);
                write_u16(buf, bsearch.range_shift);
                let ghost head = buf@;
                let mut i: usize = 0;
                assert(segments@.take(0) == Seq::<Segment>::empty());
                while i < segments.len()
                    invariant
                        i <= segments.len(),
                        buf@ == head + column(segments@.take(i as int), end_field()),
                    decreases segments.len() - i,
                {
                    write_u16(buf, segments[i].end);
                    assert(segments@.take(i + 1).drop_last() == segments@.take(i as int));
                    assert(segments@.take(i + 1).last() == segments@[i as int]);
                    i = i + 1;
                    assert(buf@ =~= head + column(segments@.take(i as int), end_field()));
                }
                write_u16(buf, 0x0000);  // reserved pad
                let ghost head = buf@;
                let mut i: usize = 0;
                while i < segments.len()
                    invariant
                        i <= segments.len(),
                        buf@ == head + column(segments@.take(i as int), start_field()),
                    decreases segments.len() - i,
                {
                    write_u16(buf, segments[i].start);
                    assert(segments@.take(i + 1).drop_last() == segments@.take(i as int));
                    assert(segments@.take(i + 1).last() == segments@[i as int]);
                    i = i + 1;
                    assert(buf@ =~= head + column(segments@.take(i as int), start_field()));
                }
                let ghost head = buf@;
                let mut i: usize = 0;
                while i < segments.len()
                    invariant
                        i <= segments.len(),
                        buf@ == head + column(segments@.take(i as int), delta_field()),
                    decreases segments.len() - i,
                {
                    write_i16(buf, segments[i].delta);
                    assert(segments@.take(i + 1).drop_last() == segments@.take(i as int));
                    assert(segments@.take(i + 1).last() == segments@[i as int]);
                    i = i + 1;
                    assert(buf@ =~= head + column(segments@.take(i as int), delta_field()));
                }
                // idRangeOffsets: every segment maps through its delta alone.
                let ghost head = buf@;
                let mut i: usize = 0;
                while i < segments.len()
                    invariant
                        i <= segments.len(),
                        buf@ == head + column(segments@.take(i as int), range_offset_field()),
                    decreases segments.len() - i,
                {
                    write_u16(buf, 0);
                    assert(segments@.take(i + 1).drop_last() == segments@.take(i as int));
                    assert(segments@.take(i + 1).last() == segments@[i as int]);
                    i = i + 1;
                    assert(buf@ =~= head + column(segments@.take(i as int), range_offset_field()));
                }
                // The glyph id array stays empty.
                assert(segments@.take(segments@.len() as int) == segments@);
                assert(buf@ =~= old(buf)@ + self.view().spec_bytes());
            },
        }
        buf.len() - start_len
    }
}

/// A subtable together with the platform it is for.
pub struct CMapSubtableRecord {
    pub platform: Platform,
    pub subtable: CMapSubtable,
}

/// The character map of a font.
pub struct CMap {
    subtables: Vec<CMapSubtableRecord>,
}

/// The subtables of the first `n` records, one after the other.
pub open spec fn subtables_bytes(records: Seq<CMapSubtableRecord>, n: nat) -> Seq<u8>
    decreases n,
{
    if n == 0 {
        Seq::empty()
    } else {
        subtables_bytes(records, (n - 1) as nat) + records[n - 1].subtable.view().spec_bytes()
    }
}

/// The first `n` encoding records: platform, encoding, and the offset of
/// the subtable from the start of the table.
pub open spec fn encoding_records(records: Seq<CMapSubtableRecord>, n: nat) -> Seq<u8>
    decreases n,
{
    if n == 0 {
        Seq::empty()
    } else {
        let platform = records[n - 1].platform;
        encoding_records(records, (n - 1) as nat) + be_u16(platform.spec_ids().0) + be_u16(
            platform.spec_ids().1,
        ) + be_u32(
            (4 + 8 * records.len() + subtables_bytes(records, (n - 1) as nat).len()) as u32,
        )
    }
}

/// Where one run of consecutive codes ends and the next begins: where the
/// next code is not the successor.
pub open spec fn code_gap() -> spec_fn(u16, u16) -> bool {
    |a: u16, b: u16| a + 1 != b
}

/// The 16-bit delta that takes the code `start` to the glyph id `first_id`,
/// modulo 65536.
pub open spec fn delta_to(first_id: int, start: u16) -> i16 {
    let d = first_id - start;
    if d > 0x7fff {
        (d - 0x1_0000) as i16
    } else if d < -0x8000 {
        (d + 0x1_0000) as i16
    } else {
        d as i16
    }
}

/// The segments of `codes`, whose first code belongs to the glyph
/// `first_id`: one segment for each run of consecutive codes, with the
/// delta that leads from its codes to consecutive glyph ids.
pub open spec fn segments_from(codes: Seq<u16>, first_id: int) -> Seq<Segment>
    decreases codes.len(),
{
    let run = run_len(codes, code_gap());
    if 1 <= run <= codes.len() {
        seq![
            Segment {
                start: codes[0],
                end: codes[run - 1],
                delta: delta_to(first_id, codes[0]),
            },
        ] + segments_from(codes.skip(run as int), first_id + run)
    } else {
        Seq::empty()
    }
}

/// The segment list of a font whose glyphs 1, 2, 3 and so on belong to
/// `codes` in this order: the segments of the codes, then the end cap.
pub open spec fn char_segments(codes: Seq<u16>) -> Seq<Segment> {
    segments_from(codes, 1).push(spec_end_cap())
}

/// The codes of `chars`, for characters inside the 16-bit code space.
pub open spec fn codes_of(chars: Seq<char>) -> Seq<u16> {
    Seq::new(chars.len(), |i: int| (chars[i] as int) as u16)
}

/// Every one of `chars` is at most `limit`.
pub open spec fn all_within(chars: Seq<char>, limit: u32) -> bool {
    forall|i: int| 0 <= i < chars.len() ==> (#[trigger] chars[i]) as int <= limit
}

/// The glyph index array of a single-byte map in which the first `n` of
/// `order` have the glyphs 1 to `n`; a code that occurs again gets the
/// later glyph.
pub open spec fn ascii_indexes(order: Seq<char>, n: nat) -> Seq<u8>
    decreases n,
{
    if n == 0 {
        zeros(256)
    } else {
        ascii_indexes(order, (n - 1) as nat).update(order[n - 1] as int, n as u8)
    }
}

/// There are as many segments as the codes have runs of consecutive codes:
/// no two segments could be merged into one.
pub proof fn lemma_segments_minimal(codes: Seq<u16>, first_id: int)
    ensures
        segments_from(codes, first_id).len() == run_count(codes, code_gap()),
    decreases codes.len(),
{
    if codes.len() > 0 {
        lemma_run_len_is_run(codes, code_gap());
        lemma_run_count_skip(codes, code_gap());
        let run = run_len(codes, code_gap());
        lemma_segments_minimal(codes.skip(run as int), first_id + run);
    }
}

/// The code of a character.
fn code_of(c: char) -> (r: u32)
    ensures
        r as int == c as int,
{
    c as u32
}

/// The code of `c` in the 16-bit code space, if it has one.
pub fn to_u16(c: char) -> (r: Result<u16, FontError>)
    ensures
        match r {
            Ok(code) => c as int <= 0xffff && code as int == c as int,
            Err(e) => c as int > 0xffff && e == FontError::CharOutOfRange,
        },
{
    let full = code_of(c);
    if full <= 0xffff {
        Ok(full as u16)
    } else {
        Err(FontError::CharOutOfRange)
    }
}

impl CMap {
    /// The number of subtables.
    pub closed spec fn records(&self) -> Seq<CMapSubtableRecord> {
        self.subtables@
    }

    /// The platform of subtable `i`.
    pub open spec fn platform(&self, i: int) -> Platform {
        self.records()[i].platform
    }

    /// Subtable `i` as plain values.
    pub open spec fn subtable(&self, i: int) -> SubtableView {
        self.records()[i].subtable.view()
    }

    /// The bytes of the table: version, number of subtables, the encoding
    /// records, the subtables.
    pub open spec fn spec_bytes(&self) -> Seq<u8> {
        let records = self.records();
        be_u16(0x0000) + be_u16(records.len() as u16) + encoding_records(records, records.len())
            + subtables_bytes(records, records.len())
    }

    /// A single-byte character map for a font whose glyphs 1, 2, 3 and so
    /// on belong to the characters of `order`. Fails on a character beyond
    /// the single-byte codes.
    pub fn from_ascii_order(order: &[char]) -> (r: Result<Self, FontError>)
        requires
            order@.len() <= 255,
        ensures
            match r {
                Ok(cmap) => {
                    &&& all_within(order@, 0xff)
                    &&& FontTable::wf(&cmap)
                    &&& cmap.records().len() == 1
                    &&& cmap.platform(0) == Platform::Unicode(UnicodeEncoding::Unicode2_0)
                    &&& cmap.subtable(0) == (SubtableView::Format0 {
                        language_id: 0,
                        glyph_indexes: ascii_indexes(order@, order@.len()),
                    })
                },
                Err(e) => e == FontError::CharOutOfRange && !all_within(order@, 0xff),
            },
    {
        let mut glyph_indexes: [u8; 256] = [0;256];
        assert(glyph_indexes@ =~= zeros(256));
        let mut i: usize = 0;
        while i < order.len()
            invariant
                i <= order@.len() <= 255,
                glyph_indexes@ == ascii_indexes(order@, i as nat),
                forall|j: int| 0 <= j < i ==> (#[trigger] order@[j]) as int <= 0xff,
            decreases order.len() - i,
        {
            let code = code_of(order[i]);
            if code > 0xff {
                return Err(FontError::CharOutOfRange);
            }
            let ghost before = glyph_indexes@;
            glyph_indexes[code as usize] = (i + 1) as u8;
            assert(glyph_indexes@ == before.update(order@[i as int] as int, (i + 1) as u8));
            i = i + 1;
        }
        let record = CMapSubtableRecord {
            platform: Platform::unicode_2_0(),
            subtable: CMapSubtable::Format0 { language_id: 0, glyph_indexes },
        };
        let mut subtables: Vec<CMapSubtableRecord> = Vec::new();
        subtables.push(record);
        let cmap = CMap { subtables };
        proof {
            lemma_subtable_len(cmap.subtable(0));
            reveal_with_fuel(subtables_bytes, 2);
        }
        Ok(cmap)
    }

    /// A segmented character map for a font whose glyphs 1, 2, 3 and so on
    /// belong to the characters of `order`. Fails on a character beyond the
    /// 16-bit code space, on more characters than a font has glyph ids for,
    /// and on more runs of consecutive codes than a subtable has room for.
    pub fn from_char_order(order: &[char]) -> (r: Result<Self, FontError>)
        ensures
            match r {
                Ok(cmap) => {
                    &&& all_within(order@, 0xffff)
                    &&& order@.len() <= 0xffff
                    &&& char_segments(codes_of(order@)).len() <= 8189
                    &&& FontTable::wf(&cmap)
                    &&& cmap.records().len() == 1
                    &&& cmap.platform(0) == Platform::Unicode(UnicodeEncoding::Unicode2_0)
                    &&& cmap.subtable(0) == (SubtableView::Format4 {
                        language_id: 0,
                        segments: char_segments(codes_of(order@)),
                    })
                },
                Err(e) => if !all_within(order@, 0xffff) {
                    e == FontError::CharOutOfRange
                } else {
                    e == FontError::TooLarge && (order@.len() > 0xffff || char_segments(
                        codes_of(order@),
                    ).len() > 8189)
                },
            },
    {
        let mut codes: Vec<u16> = Vec::new();
        let mut i: usize = 0;
        while i < order.len()
            invariant
                i <= order@.len(),
                codes@ == codes_of(order@.take(i as int)),
                forall|j: int| 0 <= j < i ==> (#[trigger] order@[j]) as int <= 0xffff,
            decreases order.len() - i,
        {
            match to_u16(order[i]) {
                Ok(code) => {
                    codes.push(code);
                },
                Err(e) => {
                    return Err(e);
                },
            }
            i = i + 1;
            assert(codes@ =~= codes_of(order@.take(i as int)));
        }
        assert(order@.take(i as int) == order@);
        if codes.len() > 0xffff {
            return Err(FontError::TooLarge);
        }
        let mut glyph_idx: u32 = 1;
        let mut segments: Vec<Segment> = Vec::new();
        let gap = |a: &u16, b: &u16| -> (r: bool)
            ensures
                r == (*a + 1 != *b),
            { *a as u32 + 1 != *b as u32 };
        let mut groups = split_when(codes.as_slice(), gap);
        loop
            invariant
                groups.pred() == gap,
                forall|a: &u16, b: &u16| call_requires(gap, (a, b)),
                forall|a: &u16, b: &u16, r: bool| #[trigger]
                    call_ensures(gap, (a, b), r) ==> r == code_gap()(*a, *b),
                codes@.len() <= 0xffff,
                codes@ == codes_of(order@),
                all_within(order@, 0xffff),
                glyph_idx + groups.rest().len() == codes@.len() + 1,
                segments@ + segments_from(groups.rest(), glyph_idx as int) == segments_from(
                    codes@,
                    1,
                ),
                segments@.len() <= 8188,
            ensures
                segments@ == segments_from(codes@, 1),
                segments@.len() <= 8188,
            decreases groups.rest().len(),
        {
            let ghost rest = groups.rest();
            assert forall|i: int| 0 <= i < rest.len() - 1 implies #[trigger] may_ask(
                groups.pred(),
                rest,
                i,
            ) by {}
            match groups.next() {
                None => {
                    assert(segments_from(rest, glyph_idx as int) == Seq::<Segment>::empty());
                    break ;
                },
                Some(slice) => {
                    proof {
                        lemma_next_is_first_run(gap, code_gap(), rest, slice@, groups.rest());
                        assert(slice@[0] == rest[0]);
                        assert(slice@[slice@.len() - 1] == rest[slice@.len() - 1]);
                    }
                    let start = slice[0];
                    let end = slice[slice.len() - 1];
                    let range = slice.len() as u32;
                    let d: i32 = glyph_idx as i32 - start as i32;
                    let delta: i16 = if d > 0x7fff {
                        (d - 0x1_0000) as i16
                    } else if d < -0x8000 {
                        (d + 0x1_0000) as i16
                    } else {
                        d as i16
                    };
                    glyph_idx = glyph_idx + range;
                    if segments.len() >= 8188 {
                        proof {
                            let all = segments_from(codes@, 1);
                            assert(all.len() >= segments@.len() + 1);
                        }
                        return Err(FontError::TooLarge);
                    }
                    segments.push(Segment { start, end, delta });
                    assert(segments@ + segments_from(groups.rest(), glyph_idx as int)
                        =~= segments_from(codes@, 1));
                },
            }
        }
        segments.push(Segment::end_cap());
        let record = CMapSubtableRecord {
            platform: Platform::unicode_2_0(),
            subtable: CMapSubtable::Format4 { language_id: 0, segments },
        };
        let mut subtables: Vec<CMapSubtableRecord> = Vec::new();
        subtables.push(record);
        let cmap = CMap { subtables };
        proof {
            lemma_subtable_len(cmap.subtable(0));
            reveal_with_fuel(subtables_bytes, 2);
        }
        Ok(cmap)
    }

    /// Whether the table can be written: every subtable fits its format,
    /// and the whole table its 32-bit offsets.
    pub fn is_wf(&self) -> (r: bool)
        ensures
            r == FontTable::wf(self),
    {
        let ghost records = self.records();
        let len = self.subtables.len();
        if len > 0xffff {
            return false;
        }
        let mut size: u64 = 4 + 8 * (len as u64);
        let mut i: usize = 0;
        while i < len
            invariant
                i <= len,
                len == self.subtables@.len(),
                len <= 0xffff,
                records == self.records(),
                forall|k: int| 0 <= k < i ==> (#[trigger] records[k]).subtable.view().wf(),
                size == 4 + 8 * len + subtables_bytes(records, i as nat).len(),
                size <= 4 + 8 * len + i * 0x1_0000,
            decreases len - i,
        {
            let fits = match &self.subtables[i].subtable {
                CMapSubtable::Format0 { .. } => true,
                CMapSubtable::Format4 { language_id, segments } => 1 <= segments.len()
                    && segments.len() <= 8189,
            };
            if !fits {
                assert(!records[i as int].subtable.view().wf());
                return false;
            }
            proof {
                lemma_subtable_len(records[i as int].subtable.view());
            }
            let here: u64 = match &self.subtables[i].subtable {
                CMapSubtable::Format0 { .. } => 262,
                CMapSubtable::Format4 { language_id, segments } => 16 + 8 * (segments.len() as u64),
            };
            size = size + here;
            i = i + 1;
        }
        size <= 0xffff_ffff
    }

    /// The number of subtables.
    pub fn subtable_count(&self) -> (n: usize)
        ensures
            n == self.records().len(),
    {
        self.subtables.len()
    }

    /// The segments of subtable `index`, where it is a segmented one.
    pub fn segments(&self, index: usize) -> (r: Option<Vec<Segment>>)
        requires
            index < self.records().len(),
        ensures
            match r {
                Some(list) => self.subtable(index as int) matches SubtableView::Format4 {
                    segments,
                    ..
                } && list@ == segments,
                None => self.subtable(index as int) is Format0,
            },
    {
        match &self.subtables[index].subtable {
            CMapSubtable::Format0 { .. } => None,
            CMapSubtable::Format4 { language_id, segments } => {
                let mut list: Vec<Segment> = Vec::new();
                let mut i: usize = 0;
                while i < segments.len()
                    invariant
                        i <= segments.len(),
                        list@ == segments@.take(i as int),
                    decreases segments.len() - i,
                {
                    list.push(segments[i]);
                    i = i + 1;
                    assert(list@ =~= segments@.take(i as int));
                }
                assert(segments@.take(i as int) == segments@);
                Some(list)
            },
        }
    }

    /// Appends the table to `buf`.
    pub fn encode(&self, buf: &mut Vec<u8>)
        requires
            FontTable::wf(self),
        ensures
            final(buf)@ == old(buf)@ + self.spec_bytes(),
    {
        let mut subtables: Vec<u8> = Vec::new();
        // version
        write_u16(buf, 0x0000);
        let len = self.subtables.len() as u16;
        write_u16(buf, len);
        let ghost head = buf@;
        let ghost records = self.records();

        // 4 bytes for version + len,
        // 8 bytes for each encoding record
        let mut offset: u32 = 4 + len as u32 * 8;

        // encoding records
        let mut i: usize = 0;
        while i < self.subtables.len()
            invariant
                i <= self.subtables.len(),
                records == self.records(),
                FontTable::wf(self),
                offset == 4 + 8 * records.len() + subtables_bytes(records, i as nat).len(),
                buf@ == head + encoding_records(records, i as nat),
                subtables@ == subtables_bytes(records, i as nat),
            decreases self.subtables.len() - i,
        {
            let record = &self.subtables[i];
            let ids = record.platform.to_bytes();
            write_u16(buf, ids[0]);
            write_u16(buf, ids[1]);
            write_u32(buf, offset);
            proof {
                lemma_subtables_bytes_monotonic(records, (i + 1) as nat, records.len());
                assert(records[i as int].subtable.view().wf());
            }
            let written = record.subtable.write(&mut subtables);
            offset = offset + written as u32;
            i = i + 1;
            assert(buf@ =~= head + encoding_records(records, i as nat));
        }
        write_all(buf, subtables.as_slice());
        assert(buf@ =~= old(buf)@ + self.spec_bytes());
    }
}

/// The first `n` subtables take no more room than the first `m >= n`.
pub proof fn lemma_subtables_bytes_monotonic(records: Seq<CMapSubtableRecord>, n: nat, m: nat)
    requires
        n <= m,
    ensures
        subtables_bytes(records, n).len() <= subtables_bytes(records, m).len(),
    decreases m,
{
    if n < m {
        lemma_subtables_bytes_monotonic(records, n, (m - 1) as nat);
    }
}

/// One field of every segment takes as many bytes as there are segments
/// times the width of the field.
pub proof fn lemma_column_len(segments: Seq<Segment>, field: spec_fn(Segment) -> Seq<u8>, width: nat)
    requires
        forall|s: Segment| (#[trigger] field(s)).len() == width,
    ensures
        column(segments, field).len() == segments.len() * width,
    decreases segments.len(),
{
    if segments.len() > 0 {
        lemma_column_len(segments.drop_last(), field, width);
        assert((segments.len() - 1) * width + width == segments.len() * width)
            by (nonlinear_arith);
    }
}

/// A subtable is as long as its format says: 262 bytes for the single-byte
/// map, 16 bytes and 8 for each segment for the segmented map.
pub proof fn lemma_subtable_len(subtable: SubtableView)
    requires
        subtable.wf(),
    ensures
        subtable.spec_bytes().len() == match subtable {
            SubtableView::Format0 { .. } => 262,
            SubtableView::Format4 { segments, .. } => 16 + 8 * segments.len(),
        },
{
    match subtable {
        SubtableView::Format0 { .. } => {},
        SubtableView::Format4 { language_id, segments } => {
            lemma_column_len(segments, end_field(), 2);
            lemma_column_len(segments, start_field(), 2);
            lemma_column_len(segments, delta_field(), 2);
            lemma_column_len(segments, range_offset_field(), 2);
        },
    }
}

impl FontTable for CMap {
    open spec fn spec_tag() -> Seq<u8> {
        seq![0x63u8, 0x6du8, 0x61u8, 0x70u8]
    }

    /// Every subtable fits its format, and the whole table fits the 32-bit
    /// offsets of its encoding records.
    open spec fn wf(&self) -> bool {
        let records = self.records();
        &&& records.len() <= 0xffff
        &&& forall|i: int| 0 <= i < records.len() ==> (#[trigger] records[i]).subtable.view().wf()
        &&& 4 + 8 * records.len() + subtables_bytes(records, records.len()).len() <= 0xffff_ffff
    }

    open spec fn table_bytes(&self) -> Seq<u8> {
        self.spec_bytes()
    }

    fn tag() -> (tag: [u8; 4]) {
        [0x63, 0x6d, 0x61, 0x70]
    }

    fn write(&self, writer: &mut TableWriter) {
        let mut buf: Vec<u8> = Vec::new();
        self.encode(&mut buf);
        writer.write(buf.as_slice());
    }
}

/// The first `n` subtables and encoding records of two lists of subtables
/// that hold the same are the same.
pub proof fn lemma_records_agree(a: Seq<CMapSubtableRecord>, b: Seq<CMapSubtableRecord>, n: nat)
    requires
        n <= a.len() == b.len(),
        forall|i: int|
            0 <= i < a.len() ==> (#[trigger] a[i]).platform == b[i].platform
                && a[i].subtable.view() == b[i].subtable.view(),
    ensures
        subtables_bytes(a, n) == subtables_bytes(b, n),
        encoding_records(a, n) == encoding_records(b, n),
    decreases n,
{
    if n > 0 {
        lemma_records_agree(a, b, (n - 1) as nat);
        assert(a[n - 1].platform == b[n - 1].platform);
    }
}

/// The codes of a run follow each other: each is the first and its place.
pub proof fn lemma_run_is_consecutive(codes: Seq<u16>, j: int)
    requires
        0 <= j < run_len(codes, code_gap()),
    ensures
        j < codes.len(),
        codes[j] == codes[0] + j,
    decreases j,
{
    lemma_run_len_is_run(codes, code_gap());
    if j > 0 {
        lemma_run_is_consecutive(codes, j - 1);
        assert(!code_gap()(codes[j - 1], codes[j - 1 + 1]));
    }
}

/// The segments map every code to the glyph of its place: for a font whose
/// glyphs `first_id`, `first_id + 1` and so on belong to `codes` in this
/// order, code `i` lies in a segment that gives it the glyph id
/// `first_id + i`.
pub proof fn lemma_segments_map_codes(codes: Seq<u16>, first_id: int, i: int)
    requires
        0 <= i < codes.len(),
        1 <= first_id,
        first_id + codes.len() <= 0x1_0000,
    ensures
        exists|k: int|
            0 <= k < segments_from(codes, first_id).len() && (#[trigger] segments_from(
                codes,
                first_id,
            )[k]).start <= codes[i] <= segments_from(codes, first_id)[k].end && segments_from(
                codes,
                first_id,
            )[k].glyph_of(codes[i]) == first_id + i,
    decreases codes.len(),
{
    lemma_run_len_is_run(codes, code_gap());
    let run = run_len(codes, code_gap()) as int;
    let all = segments_from(codes, first_id);
    let rest = codes.skip(run);
    let tail = segments_from(rest, first_id + run);
    assert(all == seq![all[0]] + tail);
    if i < run {
        lemma_run_is_consecutive(codes, i);
        lemma_run_is_consecutive(codes, run - 1);
        let d = first_id - codes[0];
        assert(all[0].glyph_of(codes[i]) == first_id + i) by {
            if d > 0x7fff {
                assert(all[0].delta == d - 0x1_0000);
                vstd::arithmetic::div_mod::lemma_mod_add_multiples_vanish(
                    codes[i] + all[0].delta,
                    0x1_0000,
                );
            } else if d < -0x8000 {
                assert(all[0].delta == d + 0x1_0000);
                vstd::arithmetic::div_mod::lemma_mod_add_multiples_vanish(
                    first_id + i,
                    0x1_0000,
                );
            } else {
                assert(all[0].delta == d);
            }
            vstd::arithmetic::div_mod::lemma_small_mod((first_id + i) as nat, 0x1_0000);
        }
        assert(all[0].start <= codes[i] <= all[0].end);
    } else {
        lemma_segments_map_codes(rest, first_id + run, i - run);
        let k = choose|k: int|
            0 <= k < tail.len() && (#[trigger] tail[k]).start <= rest[i - run] <= tail[k].end
                && tail[k].glyph_of(rest[i - run]) == first_id + run + (i - run);
        assert(all[k + 1] == tail[k]);
        assert(rest[i - run] == codes[i]);
    }
}

} // verus!
