//! The PostScript table: the names of the glyphs.

use vstd::prelude::*;
use crate::encode::be_i16;
use crate::encode::be_u16;
use crate::encode::be_u32;
use crate::encode::low16;
use crate::encode::low16_of;
use crate::encode::write_all;
use crate::encode::write_i16;
use crate::encode::write_u16;
use crate::encode::write_u32;
use crate::platform::lemma_utf16_be_len;
use crate::platform::push_utf16_be;
use crate::platform::utf16_be;
use crate::platform::utf16_len;
use crate::writeutils::TableWriter;
use crate::FontTable;
use crate::GlyphId;

verus! {

/// The glyph that stands for a missing one, and the index of its standard
/// name.
pub const NOT_DEF: u16 = 0;

/// The characters whose glyphs have standard Macintosh names, in the order
/// of those names; the name of the first has the index 3.
pub const MACINTOSH_ORDER: &'static str =
    " !\"#$%&'()*+,-./0123456789:;<=>?@ABCDEFGHIJKLMNOPQRSTUVWXYZ[\\]^_`abcdefghijklmnopqrstuvwxyz{|}~\u{c4}\u{c5}\u{c7}\u{c9}\u{d1}\u{d6}\u{dc}\u{e1}\u{e0}\u{e2}\u{e4}\u{e3}\u{e5}\u{e7}\u{e9}\u{e8}\u{ea}\u{eb}\u{ed}\u{ec}\u{ee}\u{ef}\u{f1}\u{f3}\u{f2}\u{f4}\u{f6}\u{f5}\u{fa}\u{f9}\u{fb}\u{fc}\u{2020}\u{2da}\u{a2}\u{a3}\u{a7}\u{2022}\u{b6}\u{df}\u{ae}\u{a9}\u{2122}\u{b4}\u{a8}\u{2260}\u{e5}\u{c6}\u{d8}\u{221e}\u{b1}\u{2264}\u{2265}\u{a5}\u{b5}\u{2202}\u{2211}\u{220f}\u{3c0}\u{222b}\u{aa}\u{ba}\u{3a9}\u{e6}\u{f8}\u{bf}\u{a1}\u{ac}\u{221a}\u{192}\u{2248}\u{394}\u{ab}\u{bb}\u{2026}\u{a0}\u{c1}\u{c3}\u{d5}\u{152}\u{153}\u{2013}\u{2014}\u{201c}\u{201d}\u{2018}\u{2019}\u{f7}\u{25ca}\u{ff}\u{178}\u{2044}\u{a4}\u{2039}\u{203a}\u{fb01}\u{fb02}\u{2021}\u{b7}\u{201a}\u{201e}\u{2030}\u{c2}\u{ca}\u{c1}\u{cb}\u{c8}\u{cd}\u{ce}\u{cf}\u{cc}\u{d3}\u{d4}\u{f8ff}\u{d2}\u{da}\u{db}\u{d9}\u{131}";

/// The name of a glyph.
pub enum GlyphName {
    /// One of the standard Macintosh names, by its index.
    Preset(GlyphId),
    /// A name of the font's own.
    Custom(String),
}

/// The formats of the glyph names.
pub enum PostFormat {
    Format2 { names: Vec<GlyphName> },
}

/// The PostScript table of a font.
pub struct Post {
    pub italic_angle: u32,
    pub underline_position: i16,
    pub underline_thickness: i16,
    pub is_monospace: bool,
    pub min_mem_type42: u32,
    pub max_mem_type42: u32,
    pub min_mem_type1: u32,
    pub max_mem_type1: u32,
    pub format: PostFormat,
}

/// A string with its length in front: the number of its UTF-16 code units
/// as a big-endian `u16`, then the code units, big-endian.
pub open spec fn pascal_string(s: Seq<char>) -> Seq<u8> {
    be_u16(low16(utf16_len(s) as int)) + utf16_be(s)
}

/// The index of the standard Macintosh name of the glyph of `c`: its place
/// in `order` and 3; none where `c` has no such name.
pub open spec fn macintosh_index(order: Seq<char>, c: char) -> Option<GlyphId> {
    match first_index(order, c, order.len()) {
        Some(i) => if i + 3 <= 0xffff {
            Some(GlyphId((i + 3) as u16))
        } else {
            None
        },
        None => None,
    }
}

/// The first place among the first `n` of `order` where `c` stands.
pub open spec fn first_index(order: Seq<char>, c: char, n: nat) -> Option<int>
    decreases n,
{
    if n == 0 {
        None
    } else {
        match first_index(order, c, (n - 1) as nat) {
            Some(i) => Some(i),
            None => if order[n - 1] == c {
                Some(n - 1)
            } else {
                None
            },
        }
    }
}

/// The glyph names of a font of `count` glyphs whose glyphs 1, 2, 3 and so
/// on belong to the characters of `order`: the standard name of each
/// character that has one, the name of the missing glyph for every other
/// glyph.
pub open spec fn ascii_names(order: Seq<char>, count: nat) -> Seq<GlyphName> {
    Seq::new(
        count,
        |i: int|
            if 1 <= i <= order.len() {
                match macintosh_index(MACINTOSH_ORDER@, order[i - 1]) {
                    Some(id) => GlyphName::Preset(id),
                    None => GlyphName::Preset(GlyphId(NOT_DEF)),
                }
            } else {
                GlyphName::Preset(GlyphId(NOT_DEF))
            },
    )
}

/// The name index of each of the first `n` names: the index of a standard
/// name, or 258 for a name of the font's own.
pub open spec fn name_indexes(names: Seq<GlyphName>, n: nat) -> Seq<u8>
    decreases n,
{
    if n == 0 {
        Seq::empty()
    } else {
        name_indexes(names, (n - 1) as nat) + match names[n - 1] {
            GlyphName::Preset(p) => be_u16(p.0),
            GlyphName::Custom(s) => be_u16(258),
        }
    }
}

/// The names of the font's own among the first `n` names, each as a string
/// with its length in front.
pub open spec fn name_strings(names: Seq<GlyphName>, n: nat) -> Seq<u8>
    decreases n,
{
    if n == 0 {
        Seq::empty()
    } else {
        name_strings(names, (n - 1) as nat) + match names[n - 1] {
            GlyphName::Preset(p) => Seq::empty(),
            GlyphName::Custom(s) => pascal_string(s@),
        }
    }
}

impl PostFormat {
    /// The names, in glyph-id order.
    pub open spec fn names(&self) -> Seq<GlyphName> {
        match self {
            PostFormat::Format2 { names } => names@,
        }
    }

    /// The part of the table that the format fills: the number of glyphs,
    /// the name index of each, and the names of the font's own.
    pub open spec fn spec_bytes(&self) -> Seq<u8> {
        let names = self.names();
        be_u16(low16(names.len() as int)) + name_indexes(names, names.len()) + name_strings(
            names,
            names.len(),
        )
    }

    /// The number of the format, as the table holds it.
    pub fn format(&self) -> (r: u32)
        ensures
            r == 0x00020000,
    {
        match self {
            PostFormat::Format2 { .. } => 0x00020000,
        }
    }

    pub fn write(&self, writer: &mut Vec<u8>)
        ensures
            final(writer)@ == old(writer)@ + self.spec_bytes(),
    {
        match self {
            PostFormat::Format2 { names } => {
                write_u16(writer, low16_of(names.len()));
                let ghost head = writer@;
                let mut string_bytes: Vec<u8> = Vec::new();
                let str_offset: u16 = 258;
                let mut i: usize = 0;
                while i < names.len()
                    invariant
                        i <= names.len(),
                        str_offset == 258,
                        writer@ == head + name_indexes(names@, i as nat),
                        string_bytes@ == name_strings(names@, i as nat),
                    decreases names.len() - i,
                {
                    match &names[i] {
                        GlyphName::Preset(p) => {
                            write_u16(writer, p.0);
                        },
                        GlyphName::Custom(s) => {
                            write_u16(writer, str_offset);
                            let string = to_pascal_string(s.as_str());
                            write_all(&mut string_bytes, string.as_slice());
                        },
                    }
                    i = i + 1;
                    assert(writer@ =~= head + name_indexes(names@, i as nat));
                    assert(string_bytes@ =~= name_strings(names@, i as nat));
                }
                write_all(writer, string_bytes.as_slice());
                assert(writer@ =~= old(writer)@ + self.spec_bytes());
            },
        }
    }
}

impl Post {
    /// The table: format, italic angle, underline, the monospace mark, the
    /// four memory hints; then what the format holds.
    pub open spec fn spec_bytes(&self) -> Seq<u8> {
        be_u32(0x00020000) + be_u32(self.italic_angle) + be_i16(self.underline_position) + be_i16(
            self.underline_thickness,
        ) + be_u32(
            if self.is_monospace {
                1u32
            } else {
                0u32
            },
        ) + be_u32(self.min_mem_type42) + be_u32(self.max_mem_type42) + be_u32(self.min_mem_type1)
            + be_u32(self.max_mem_type1) + self.format.spec_bytes()
    }

    /// The PostScript table of a monospaced font of `count` glyphs whose
    /// glyphs 1, 2, 3 and so on belong to the characters of `order`.
    pub fn from_ascii_order(order: &[char], count: usize) -> (r: Self)
        requires
            count > order@.len(),
        ensures
            r.format.names() == ascii_names(order@, count as nat),
            r.italic_angle == 0,
            r.underline_position == 0,
            r.underline_thickness == 1,
            r.is_monospace,
            r.min_mem_type42 == 0,
            r.max_mem_type42 == 0,
            r.min_mem_type1 == 0,
            r.max_mem_type1 == 0,
    {
        let mut names: Vec<GlyphName> = Vec::new();
        names.push(GlyphName::Preset(GlyphId(NOT_DEF)));
        let mut i: usize = 0;
        while i < order.len()
            invariant
                i <= order@.len() < count,
                names@.len() == i + 1,
                forall|j: int|
                    0 <= j <= i ==> #[trigger] names@[j] == ascii_names(order@, count as nat)[j],
            decreases order.len() - i,
        {
            let id = match to_macintosh(order[i]) {
                Some(id) => id,
                None => GlyphId(NOT_DEF),
            };
            names.push(GlyphName::Preset(id));
            i = i + 1;
        }
        while names.len() < count
            invariant
                order@.len() < names@.len() <= count,
                forall|j: int|
                    0 <= j < names@.len() ==> #[trigger] names@[j] == ascii_names(
                        order@,
                        count as nat,
                    )[j],
            decreases count - names.len(),
        {
            names.push(GlyphName::Preset(GlyphId(NOT_DEF)));
        }
        assert(names@ =~= ascii_names(order@, count as nat));
        let format = PostFormat::Format2 { names };

        Post {
            italic_angle: 0,
            underline_position: 0,
            underline_thickness: 1,
            is_monospace: true,
            min_mem_type42: 0,
            max_mem_type42: 0,
            min_mem_type1: 0,
            max_mem_type1: 0,
            format,
        }
    }

    /// Appends the table to `buf`.
    pub fn encode(&self, buf: &mut Vec<u8>)
        ensures
            final(buf)@ == old(buf)@ + self.spec_bytes(),
    {
        write_u32(buf, self.format.format());
        write_u32(buf, self.italic_angle);
        write_i16(buf, self.underline_position);
        write_i16(buf, self.underline_thickness);
        write_u32(
            buf,
            if self.is_monospace {
                1
            } else {
                0
            },
        );
        write_u32(buf, self.min_mem_type42);
        write_u32(buf, self.max_mem_type42);
        write_u32(buf, self.min_mem_type1);
        write_u32(buf, self.max_mem_type1);
        self.format.write(buf);
        assert(buf@ =~= old(buf)@ + self.spec_bytes());
    }
}

/// `s` as a string with its length in front.
pub fn to_pascal_string(s: &str) -> (out: Vec<u8>)
    ensures
        out@ == pascal_string(s@),
{
    let mut string: Vec<u8> = Vec::new();
    push_utf16_be(&mut string, s);
    proof {
        lemma_utf16_be_len(s@);
    }
    let len = low16_of(string.len() / 2);
    let mut out: Vec<u8> = Vec::new();
    write_u16(&mut out, len);
    write_all(&mut out, string.as_slice());
    out
}

/// The index of the standard Macintosh name of the glyph of `c`, if it has
/// one.
pub fn to_macintosh(c: char) -> (r: Option<GlyphId>)
    ensures
        r == macintosh_index(MACINTOSH_ORDER@, c),
{
    broadcast use vstd::string::axiom_spec_iter;

    let lookup = MACINTOSH_ORDER;
    let mut position: usize = 0;
    for x in it: lookup.chars()
        invariant
            it.seq() == lookup@,
            lookup@ == MACINTOSH_ORDER@,
            position == it.index(),
            first_index(lookup@, c, position as nat) is None,
    {
        if position > 0xffff - 3 {
            proof {
                lemma_first_index_from(lookup@, c, position as nat, lookup@.len());
            }
            return None;
        }
        if x == c {
            assert(first_index(lookup@, c, (position + 1) as nat) == Some(position as int));
            proof {
                lemma_first_index_stays(lookup@, c, (position + 1) as nat, lookup@.len());
            }
            return Some(GlyphId((position + 3) as u16));
        }
        position = position + 1;
    }
    None
}

/// Once `c` was found, looking further does not change where.
pub proof fn lemma_first_index_stays(order: Seq<char>, c: char, n: nat, m: nat)
    requires
        n <= m,
        first_index(order, c, n) is Some,
    ensures
        first_index(order, c, m) == first_index(order, c, n),
    decreases m,
{
    if n < m {
        lemma_first_index_stays(order, c, n, (m - 1) as nat);
    }
}

/// What is not among the first `n` is found at `n` or later, if at all.
pub proof fn lemma_first_index_from(order: Seq<char>, c: char, n: nat, m: nat)
    requires
        n <= m,
        first_index(order, c, n) is None,
    ensures
        first_index(order, c, m) matches Some(i) ==> i >= n,
    decreases m,
{
    if n < m {
        lemma_first_index_from(order, c, n, (m - 1) as nat);
    }
}

impl FontTable for Post {
    open spec fn spec_tag() -> Seq<u8> {
        seq![0x70u8, 0x6fu8, 0x73u8, 0x74u8]
    }

    open spec fn wf(&self) -> bool {
        true
    }

    open spec fn table_bytes(&self) -> Seq<u8> {
        self.spec_bytes()
    }

    fn tag() -> (tag: [u8; 4]) {
        [0x70, 0x6f, 0x73, 0x74]
    }

    fn write(&self, writer: &mut TableWriter) {
        let mut buf: Vec<u8> = Vec::new();
        self.encode(&mut buf);
        writer.write(buf.as_slice());
    }
}

} // verus!
