//! The naming table: the strings that describe the font.

use vstd::prelude::*;
use crate::encode::be_u16;
use crate::encode::low16;
use crate::encode::low16_of;
use crate::encode::low16_of_u32;
use crate::encode::write_all;
use crate::encode::write_u16;
use crate::platform::MacintoshEncoding;
use crate::platform::MicrosoftEncoding;
use crate::platform::Platform;
use crate::sort::lemma_sorted_by_all;
use crate::sort::sort_by;
use crate::sort::sorted_by;
use crate::writeutils::TableWriter;
use crate::FontTable;

verus! {

// Name IDs
pub const COPYRIGHT_NOTICE: u16 = 0;

pub const FONT_FAMILY: u16 = 1;

pub const FONT_SUBFAMILY: u16 = 2;

pub const UNIQUE_SUBFAMILY_ID: u16 = 3;

pub const FULL_FONT_NAME: u16 = 4;

pub const NAME_TABLE_VERSION: u16 = 5;

pub const POSTSCRIPT_NAME: u16 = 6;

pub const DESCRIPTION: u16 = 10;

// Microsoft Languages
pub const ENGLISH_UNITEDSTATES: u16 = 0x0409;

/// One name of the font, for one platform and language.
pub struct NameRecord {
    pub platform: Platform,
    pub language_id: u16,
    pub name_id: u16,
    pub text: String,
}

impl NameRecord {
    /// The text as the platform of the record stores it.
    pub open spec fn spec_bytes(&self) -> Seq<u8> {
        self.platform.spec_encode(self.text@)
    }

    /// The text as the platform of the record stores it.
    pub fn to_bytes(&self) -> (r: Vec<u8>)
        ensures
            r@ == self.spec_bytes(),
    {
        self.platform.encode(self.language_id, self.text.as_str())
    }
}

/// What name records are ordered by, and the place of the record in the
/// list it comes from.
#[derive(Debug, Clone, Copy, PartialEq, Eq, Structural)]
pub struct NameKey {
    pub platform_id: u16,
    pub encoding_id: u16,
    pub language_id: u16,
    pub name_id: u16,
    pub index: usize,
}

/// The key of record `index` of `records`.
pub open spec fn key_of(records: Seq<NameRecord>, index: int) -> NameKey {
    NameKey {
        platform_id: records[index].platform.spec_ids().0,
        encoding_id: records[index].platform.spec_ids().1,
        language_id: records[index].language_id,
        name_id: records[index].name_id,
        index: index as usize,
    }
}

/// The keys of `records`, in their order.
pub open spec fn keys_of(records: Seq<NameRecord>) -> Seq<NameKey> {
    Seq::new(records.len(), |i: int| key_of(records, i))
}

/// The order of the name records in the table: by platform, then encoding,
/// then language, then name id.
pub open spec fn key_order() -> spec_fn(NameKey, NameKey) -> bool {
    |a: NameKey, b: NameKey|
        {
            if a.platform_id != b.platform_id {
                a.platform_id < b.platform_id
            } else if a.encoding_id != b.encoding_id {
                a.encoding_id < b.encoding_id
            } else if a.language_id != b.language_id {
                a.language_id < b.language_id
            } else {
                a.name_id <= b.name_id
            }
        }
}

/// The first `n` entries of the table, for records taken in the order of
/// `keys`: the entries themselves, each with the length of its string and
/// the offset of the string in the string storage; and the string storage.
pub open spec fn name_entries(records: Seq<NameRecord>, keys: Seq<NameKey>, n: nat) -> (
    Seq<u8>,
    Seq<u8>,
)
    decreases n,
{
    if n == 0 {
        (Seq::empty(), Seq::empty())
    } else {
        let (entries, strings) = name_entries(records, keys, (n - 1) as nat);
        let key = keys[n - 1];
        let bytes = records[key.index as int].spec_bytes();
        (
            entries + be_u16(key.platform_id) + be_u16(key.encoding_id) + be_u16(key.language_id)
                + be_u16(key.name_id) + be_u16(low16(bytes.len() as int)) + be_u16(
                low16(strings.len() as int),
            ),
            strings + bytes,
        )
    }
}

/// The naming table of `records`: format 0, the number of records, the
/// offset of the string storage, the entries in key order, the strings.
pub open spec fn name_bytes(records: Seq<NameRecord>) -> Seq<u8> {
    let keys = sorted_by(keys_of(records), key_order());
    let (entries, strings) = name_entries(records, keys, records.len());
    be_u16(0x0000) + be_u16(low16(records.len() as int)) + be_u16(
        low16(low16(records.len() as int) * 12 + 6),
    ) + entries + strings
}

/// The names of a font.
pub struct Name {
    name_records: Vec<NameRecord>,
}

impl Name {
    /// The records, in the order they were pushed.
    pub closed spec fn records(&self) -> Seq<NameRecord> {
        self.name_records@
    }

    /// A naming table without names.
    pub fn new() -> (r: Self)
        ensures
            r.records().len() == 0,
    {
        Name { name_records: Vec::new() }
    }

    /// Adds the name `text` under `name_id`, once for Windows in US English
    /// and once for the Macintosh.
    pub fn push(&mut self, name_id: u16, text: &str)
        ensures
            final(self).records().len() == old(self).records().len() + 2,
            final(self).records().take(old(self).records().len() as int) == old(self).records(),
            ({
                let record = final(self).records()[old(self).records().len() as int];
                &&& record.platform == Platform::Microsoft(MicrosoftEncoding::UnicodeBMP)
                &&& record.language_id == ENGLISH_UNITEDSTATES
                &&& record.name_id == name_id
                &&& record.text@ == text@
            }),
            ({
                let record = final(self).records()[old(self).records().len() as int + 1];
                &&& record.platform == Platform::Macintosh(MacintoshEncoding::Roman)
                &&& record.language_id == 0
                &&& record.name_id == name_id
                &&& record.text@ == text@
            }),
    {
        self.name_records.push(
            NameRecord {
                platform: Platform::microsoft_bmp(),
                language_id: ENGLISH_UNITEDSTATES,
                name_id,
                text: text.to_owned(),
            },
        );
        self.name_records.push(
            NameRecord {
                platform: Platform::macintosh_roman(),
                language_id: 0,
                name_id,
                text: text.to_owned(),
            },
        );
        assert(self.name_records@.take(old(self).name_records@.len() as int) =~= old(
            self,
        ).name_records@);
    }

    /// The number of records.
    pub fn len(&self) -> (n: usize)
        ensures
            n == self.records().len(),
    {
        self.name_records.len()
    }

    /// Appends the table to `buf`.
    pub fn encode(&self, buf: &mut Vec<u8>)
        ensures
            final(buf)@ == old(buf)@ + name_bytes(self.records()),
    {
        let ghost records = self.name_records@;
        let mut keys: Vec<NameKey> = Vec::new();
        let mut i: usize = 0;
        while i < self.name_records.len()
            invariant
                i <= self.name_records.len(),
                records == self.name_records@,
                keys@ == keys_of(records).take(i as int),
            decreases self.name_records.len() - i,
        {
            let record = &self.name_records[i];
            let ids = record.platform.to_bytes();
            keys.push(
                NameKey {
                    platform_id: ids[0],
                    encoding_id: ids[1],
                    language_id: record.language_id,
                    name_id: record.name_id,
                    index: i,
                },
            );
            i = i + 1;
            assert(keys@ =~= keys_of(records).take(i as int));
        }
        assert(keys_of(records).take(i as int) == keys_of(records));
        let before = |a: &NameKey, b: &NameKey| -> (r: bool)
            ensures
                r == key_order()(*a, *b),
            {
                if a.platform_id != b.platform_id {
                    a.platform_id < b.platform_id
                } else if a.encoding_id != b.encoding_id {
                    a.encoding_id < b.encoding_id
                } else if a.language_id != b.language_id {
                    a.language_id < b.language_id
                } else {
                    a.name_id <= b.name_id
                }
            };
        let sorted = sort_by(keys.as_slice(), before, Ghost(key_order()));
        proof {
            lemma_sorted_by_all(
                keys_of(records),
                key_order(),
                |key: NameKey| key.index < records.len(),
            );
        }

        // format
        write_u16(buf, 0x0000);
        // number of records
        let len = low16_of(self.name_records.len());
        write_u16(buf, len);

        // offset to string storage
        // - 12 is sizeof NameRecord
        // - 6 is this prefix
        write_u16(buf, low16_of_u32(len as u32 * 12 + 6));
        let ghost head = buf@;

        let mut str_buffer: Vec<u8> = Vec::new();
        let mut k: usize = 0;
        while k < sorted.len()
            invariant
                k <= sorted.len(),
                records == self.name_records@,
                sorted@ == sorted_by(keys_of(records), key_order()),
                sorted@.len() == records.len(),
                forall|j: int| 0 <= j < sorted@.len() ==> (#[trigger] sorted@[j]).index < records.len(),
                buf@ == head + name_entries(records, sorted@, k as nat).0,
                str_buffer@ == name_entries(records, sorted@, k as nat).1,
            decreases sorted.len() - k,
        {
            let key = sorted[k];
            assert(sorted@[k as int].index < records.len());
            write_u16(buf, key.platform_id);
            write_u16(buf, key.encoding_id);
            write_u16(buf, key.language_id);
            write_u16(buf, key.name_id);
            let bytes = self.name_records[key.index].to_bytes();
            write_u16(buf, low16_of(bytes.len()));
            write_u16(buf, low16_of(str_buffer.len()));
            write_all(&mut str_buffer, bytes.as_slice());
            k = k + 1;
            assert(buf@ =~= head + name_entries(records, sorted@, k as nat).0);
        }

        write_all(buf, str_buffer.as_slice());
        assert(buf@ =~= old(buf)@ + name_bytes(self.records()));
    }
}

impl FontTable for Name {
    open spec fn spec_tag() -> Seq<u8> {
        seq![0x6eu8, 0x61u8, 0x6du8, 0x65u8]
    }

    open spec fn wf(&self) -> bool {
        true
    }

    open spec fn table_bytes(&self) -> Seq<u8> {
        name_bytes(self.records())
    }

    fn tag() -> (tag: [u8; 4]) {
        [0x6e, 0x61, 0x6d, 0x65]
    }

    fn write(&self, writer: &mut TableWriter) {
        let mut buf: Vec<u8> = Vec::new();
        self.encode(&mut buf);
        writer.write(buf.as_slice());
    }
}

/// `a` and `b` hold the same names: record by record the same platform,
/// language, name id and text.
pub open spec fn same_names(a: Seq<NameRecord>, b: Seq<NameRecord>) -> bool {
    &&& a.len() == b.len()
    &&& forall|i: int|
        0 <= i < a.len() ==> (#[trigger] a[i]).platform == b[i].platform && a[i].language_id
            == b[i].language_id && a[i].name_id == b[i].name_id && a[i].text@ == b[i].text@
}

/// The first `n` entries of two lists of records that hold the same names,
/// taken in the same order, are the same.
pub proof fn lemma_name_entries_agree(
    a: Seq<NameRecord>,
    b: Seq<NameRecord>,
    keys: Seq<NameKey>,
    n: nat,
)
    requires
        same_names(a, b),
        n <= keys.len(),
        forall|k: int| 0 <= k < keys.len() ==> (#[trigger] keys[k]).index < a.len(),
    ensures
        name_entries(a, keys, n) == name_entries(b, keys, n),
    decreases n,
{
    if n > 0 {
        lemma_name_entries_agree(a, b, keys, (n - 1) as nat);
        let key = keys[n - 1];
        assert(a[key.index as int].text@ == b[key.index as int].text@);
    }
}

/// Naming tables of records that hold the same names are the same.
pub proof fn lemma_name_bytes_agree(a: Seq<NameRecord>, b: Seq<NameRecord>)
    requires
        same_names(a, b),
    ensures
        name_bytes(a) == name_bytes(b),
{
    assert(keys_of(a) =~= keys_of(b)) by {
        assert forall|i: int| 0 <= i < a.len() implies keys_of(a)[i] == keys_of(b)[i] by {
            assert(a[i].platform == b[i].platform);
        }
    }
    let keys = sorted_by(keys_of(a), key_order());
    lemma_sorted_by_all(keys_of(a), key_order(), |key: NameKey| key.index < a.len());
    lemma_name_entries_agree(a, b, keys, a.len());
}

} // verus!
