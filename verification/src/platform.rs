//! The platforms a character map or a name can be made for, and how each
//! stores text.

use vstd::prelude::*;
use vstd::std_specs::iter::IteratorSpec;
use vstd::string::StringSliceAdditionalSpecFns;
use vstd::utf8::encode_utf8;
use crate::encode::be_u16;
use crate::encode::write_all;
use crate::encode::write_u16;

verus! {

/// A platform with the encoding used on it.
#[derive(Debug, Clone, Copy, PartialEq, Eq, Structural)]
pub enum Platform {
    Unicode(UnicodeEncoding),
    Macintosh(MacintoshEncoding),
    Microsoft(MicrosoftEncoding),
}

/// Encodings of the Unicode platform.
#[derive(Debug, Clone, Copy, PartialEq, Eq, Structural)]
pub enum UnicodeEncoding {
    Unicode2_0,
}

/// Encodings of the Macintosh platform.
#[derive(Debug, Clone, Copy, PartialEq, Eq, Structural)]
pub enum MacintoshEncoding {
    Roman,
}

/// Encodings of the Microsoft platform.
#[derive(Debug, Clone, Copy, PartialEq, Eq, Structural)]
pub enum MicrosoftEncoding {
    UnicodeBMP,
}

/// The UTF-16 code units of one character: itself below 0x10000, else a
/// high and a low surrogate that share the 20 bits above 0x10000.
pub open spec fn utf16_units(c: char) -> Seq<u16> {
    let code = c as u32;
    if code < 0x1_0000 {
        seq![code as u16]
    } else {
        seq![
            (0xd800 + (code - 0x1_0000) / 0x400) as u16,
            (0xdc00 + (code - 0x1_0000) % 0x400) as u16,
        ]
    }
}

/// The UTF-16 code units of one character, each big-endian.
pub open spec fn utf16_be_char(c: char) -> Seq<u8> {
    let units = utf16_units(c);
    if units.len() == 1 {
        be_u16(units[0])
    } else {
        be_u16(units[0]) + be_u16(units[1])
    }
}

/// The text in UTF-16, every code unit big-endian.
pub open spec fn utf16_be(text: Seq<char>) -> Seq<u8>
    decreases text.len(),
{
    if text.len() == 0 {
        Seq::empty()
    } else {
        utf16_be(text.drop_last()) + utf16_be_char(text.last())
    }
}

/// The number of UTF-16 code units of the text.
pub open spec fn utf16_len(text: Seq<char>) -> nat
    decreases text.len(),
{
    if text.len() == 0 {
        0
    } else {
        utf16_len(text.drop_last()) + utf16_units(text.last()).len()
    }
}

/// The UTF-16 encoding takes two bytes for every code unit.
pub proof fn lemma_utf16_be_len(text: Seq<char>)
    ensures
        utf16_be(text).len() == 2 * utf16_len(text),
    decreases text.len(),
{
    if text.len() > 0 {
        lemma_utf16_be_len(text.drop_last());
    }
}

/// Appends `c` in big-endian UTF-16 to `out`.
pub fn push_utf16_be_char(out: &mut Vec<u8>, c: char)
    ensures
        final(out)@ == old(out)@ + utf16_be_char(c),
{
    let code = c as u32;
    if code < 0x1_0000 {
        write_u16(out, code as u16);
    } else {
        let rest = code - 0x1_0000;
        write_u16(out, (0xd800 + rest / 0x400) as u16);
        write_u16(out, (0xdc00 + rest % 0x400) as u16);
        assert(out@ =~= old(out)@ + utf16_be_char(c));
    }
}

/// Appends `text` in big-endian UTF-16 to `out`.
pub fn push_utf16_be(out: &mut Vec<u8>, text: &str)
    ensures
        final(out)@ == old(out)@ + utf16_be(text@),
{
    broadcast use vstd::string::axiom_spec_iter;

    assert(text@.take(0) == Seq::<char>::empty());
    for c in it: text.chars()
        invariant
            it.seq() == text@,
            out@ == old(out)@ + utf16_be(text@.take(it.index() as int)),
    {
        push_utf16_be_char(out, c);
        proof {
            let next = text@.take(it.index() + 1);
            assert(next.drop_last() == text@.take(it.index() as int));
            assert(next.last() == c);
            assert(out@ =~= old(out)@ + utf16_be(next));
        }
    }
    assert(text@.take(text@.len() as int) == text@);
}

impl Platform {
    pub fn unicode_2_0() -> (r: Self)
        ensures
            r == Platform::Unicode(UnicodeEncoding::Unicode2_0),
    {
        Platform::Unicode(UnicodeEncoding::Unicode2_0)
    }

    pub fn macintosh_roman() -> (r: Self)
        ensures
            r == Platform::Macintosh(MacintoshEncoding::Roman),
    {
        Platform::Macintosh(MacintoshEncoding::Roman)
    }

    pub fn microsoft_bmp() -> (r: Self)
        ensures
            r == Platform::Microsoft(MicrosoftEncoding::UnicodeBMP),
    {
        Platform::Microsoft(MicrosoftEncoding::UnicodeBMP)
    }

    /// The platform id and the encoding id.
    pub open spec fn spec_ids(self) -> (u16, u16) {
        match self {
            Platform::Unicode(UnicodeEncoding::Unicode2_0) => (0, 3),
            Platform::Macintosh(MacintoshEncoding::Roman) => (1, 0),
            Platform::Microsoft(MicrosoftEncoding::UnicodeBMP) => (3, 1),
        }
    }

    /// The platform id and the encoding id, as tables record them.
    pub fn to_bytes(&self) -> (r: [u16; 2])
        ensures
            r@ == seq![self.spec_ids().0, self.spec_ids().1],
    {
        match self {
            Platform::Unicode(UnicodeEncoding::Unicode2_0) => [0, 3],
            Platform::Macintosh(MacintoshEncoding::Roman) => [1, 0],
            Platform::Microsoft(MicrosoftEncoding::UnicodeBMP) => [3, 1],
        }
    }

    /// `text` as this platform stores it: big-endian UTF-16 on the Unicode and
    /// Microsoft platforms, the bytes of the string as they are on Macintosh.
    pub open spec fn spec_encode(self, text: Seq<char>) -> Seq<u8> {
        match self {
            Platform::Macintosh(MacintoshEncoding::Roman) => encode_utf8(text),
            _ => utf16_be(text),
        }
    }

    /// Encodes `text` for this platform.
    pub fn encode(&self, language_id: u16, text: &str) -> (r: Vec<u8>)
        ensures
            r@ == self.spec_encode(text@),
    {
        let mut out: Vec<u8> = Vec::new();
        match self {
            Platform::Unicode(UnicodeEncoding::Unicode2_0)
            | Platform::Microsoft(MicrosoftEncoding::UnicodeBMP) => {
                push_utf16_be(&mut out, text);
            },
            Platform::Macintosh(MacintoshEncoding::Roman) => {
                write_all(&mut out, text.as_bytes());
            },
        }
        out
    }
}

} // verus!
