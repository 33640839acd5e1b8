//! Compiling a font from bitmaps: which glyphs it gets, what its tables
//! hold, and what keeps it from being compiled.

use vstd::prelude::*;
use vstd::slice::slice_to_vec;
use vstd::std_specs::iter::IteratorSpec;
use crate::error::FontError;
use crate::font::Font;
use crate::GlyphId;
use crate::platform::MacintoshEncoding;
use crate::platform::MicrosoftEncoding;
use crate::platform::Platform;
use crate::platform::UnicodeEncoding;
use crate::sort::sorted_by;
use crate::sort::sort_by;
use crate::sprite::Bitmap;
use crate::sprite::Sprite;
use crate::tables::cmap::all_within;
use crate::tables::cmap::char_segments;
use crate::tables::cmap::CMap;
use crate::tables::cmap::codes_of;
use crate::tables::cmap::SubtableView;
use crate::tables::glyf::bitmaps;
use crate::tables::glyf::Glyf;
use crate::tables::glyf::glyf_bytes;
use crate::tables::glyf::glyf_error;
use crate::tables::glyf::Glyph;
use crate::tables::glyf::glyph_offsets;
use crate::tables::glyf::glyph_outline;
use crate::tables::glyf::glyph_rect;
use crate::tables::glyf::is_glyph_of;
use crate::tables::glyf::outline_bytes;
use crate::tables::glyf::pad2;
use crate::tables::gsub::GSub;
use crate::tables::gsub::Ligature;
use crate::tables::gsub::patterns_not_empty;
use crate::tables::head::DateTime;
use crate::tables::head::Head;
use crate::tables::hhea::HHea;
use crate::tables::hmtx::HMtx;
use crate::tables::hmtx::HorizontalMetric;
use crate::tables::hmtx::long_metrics_within;
use crate::tables::name::ENGLISH_UNITEDSTATES;
use crate::tables::name::Name;
use crate::tables::name::NameRecord;
use crate::tables::os2::Os2;
use crate::tables::post::ascii_names;
use crate::tables::post::first_index;
use crate::tables::post::lemma_first_index_stays;
use crate::tables::post::Post;
use crate::FontTable;

verus! {

/// `a` does not come behind `b` in the order of byte strings, which goes
/// by the first byte in which they differ, a shorter string before the
/// longer ones that start with it. The bytes before `from` are the same.
pub open spec fn bytes_le_from(a: Seq<u8>, b: Seq<u8>, from: nat) -> bool
    decreases a.len() - from,
{
    if from >= a.len() {
        true
    } else if from >= b.len() {
        false
    } else if a[from as int] != b[from as int] {
        a[from as int] < b[from as int]
    } else {
        bytes_le_from(a, b, from + 1)
    }
}

/// The order in which glyphs get their ids: by character, and for the
/// same character by bitmap.
pub open spec fn glyph_order<'a>() -> spec_fn((char, &'a [u8]), (char, &'a [u8])) -> bool {
    |a: (char, &'a [u8]), b: (char, &'a [u8])|
        (a.0 as int) < (b.0 as int) || (a.0 == b.0 && bytes_le_from(a.1@, b.1@, 0))
}

/// The glyphs in the order of their ids, from 1 on.
pub open spec fn sorted_glyphs<'a>(glyphs: Seq<(char, &'a [u8])>) -> Seq<(char, &'a [u8])> {
    sorted_by(glyphs, glyph_order())
}

/// The characters of the glyphs, in their order.
pub open spec fn chars_of<'a>(glyphs: Seq<(char, &'a [u8])>) -> Seq<char> {
    Seq::new(glyphs.len(), |i: int| glyphs[i].0)
}

/// The bitmaps that become the glyphs of the font, in the order of the
/// glyph ids: the missing glyph, the glyphs of the characters, the glyphs
/// of the ligatures.
pub open spec fn font_bitmaps<'a>(
    width: usize,
    height: usize,
    missing_glyph: Seq<u8>,
    glyphs: Seq<(char, &'a [u8])>,
    ligatures: Seq<(&'a str, &'a [u8])>,
) -> Seq<Bitmap> {
    Seq::new(
        1 + glyphs.len() + ligatures.len(),
        |i: int|
            Bitmap {
                data: if i == 0 {
                    missing_glyph
                } else if i <= glyphs.len() {
                    glyphs[i - 1].1@
                } else {
                    ligatures[i - 1 - glyphs.len()].1@
                },
                width,
                height,
            },
    )
}

/// What keeps the first of the first `n` bitmaps that cannot be compiled
/// from being compiled; nothing where each of them can.
pub open spec fn first_defect(bitmaps: Seq<Bitmap>, n: nat) -> Option<FontError>
    decreases n,
{
    if n == 0 {
        None
    } else {
        match first_defect(bitmaps, (n - 1) as nat) {
            Some(e) => Some(e),
            None => bitmaps[n - 1].defect(),
        }
    }
}

/// The encoded glyph of a bitmap.
pub open spec fn glyph_bytes_of(bitmap: Bitmap) -> Seq<u8> {
    pad2(outline_bytes(glyph_rect(bitmap), Seq::empty(), glyph_outline(bitmap)))
}

/// The size of the glyph table of the first `n` bitmaps.
pub open spec fn glyf_size(bitmaps: Seq<Bitmap>, n: nat) -> nat
    decreases n,
{
    if n == 0 {
        0
    } else {
        glyf_size(bitmaps, (n - 1) as nat) + glyph_bytes_of(bitmaps[n - 1]).len()
    }
}

/// The pattern of a ligature: for each of its characters the id of the
/// glyph of that character, which is its place among `chars` and 1.
pub open spec fn pattern_of(chars: Seq<char>, text: Seq<char>) -> Seq<GlyphId> {
    Seq::new(
        text.len(),
        |j: int|
            match first_index(chars, text[j], chars.len()) {
                Some(i) => GlyphId((i + 1) as u16),
                None => GlyphId(0),
            },
    )
}

/// What is wrong with a ligature, if anything: it is made of no character,
/// or one of its characters has no glyph.
pub open spec fn ligature_defect(chars: Seq<char>, text: Seq<char>) -> Option<FontError> {
    if text.len() == 0 {
        Some(FontError::EmptyLigature)
    } else if exists|j: int| 0 <= j < text.len() && first_index(chars, #[trigger] text[j], chars.len()) is None {
        Some(FontError::UnknownLigatureChar)
    } else {
        None
    }
}

/// What is wrong with the first of the first `n` ligatures with which
/// something is wrong; nothing where nothing is.
pub open spec fn first_ligature_defect<'a>(
    chars: Seq<char>,
    ligatures: Seq<(&'a str, &'a [u8])>,
    n: nat,
) -> Option<FontError>
    decreases n,
{
    if n == 0 {
        None
    } else {
        match first_ligature_defect(chars, ligatures, (n - 1) as nat) {
            Some(e) => Some(e),
            None => ligature_defect(chars, ligatures[n - 1].0@),
        }
    }
}

/// Why a font cannot be compiled from these glyphs and ligatures, if it
/// cannot. In this order: a bitmap cannot be compiled; a bitmap cannot
/// become a glyph, or there are too many glyphs; the glyph table is too
/// long for its offsets; a character is beyond the 16-bit code space, or
/// there are too many characters or segments of them; something is wrong
/// with a ligature.
pub open spec fn font_defect<'a>(
    width: usize,
    height: usize,
    missing_glyph: Seq<u8>,
    glyphs: Seq<(char, &'a [u8])>,
    ligatures: Seq<(&'a str, &'a [u8])>,
) -> Option<FontError> {
    let sorted = sorted_glyphs(glyphs);
    let chars = chars_of(sorted);
    let bitmaps = font_bitmaps(width, height, missing_glyph, sorted, ligatures);
    if first_defect(bitmaps, bitmaps.len()) is Some {
        first_defect(bitmaps, bitmaps.len())
    } else if glyf_error(bitmaps) is Some {
        glyf_error(bitmaps)
    } else if glyf_size(bitmaps, bitmaps.len()) > 0xffff_ffff {
        Some(FontError::TooLarge)
    } else if !all_within(chars, 0xffff) {
        Some(FontError::CharOutOfRange)
    } else if chars.len() > 0xffff || char_segments(codes_of(chars)).len() > 8189 {
        Some(FontError::TooLarge)
    } else {
        first_ligature_defect(chars, ligatures, ligatures.len())
    }
}

/// The names that every compiled font gets: name ids and texts.
pub open spec fn default_names() -> Seq<(u16, Seq<char>)> {
    seq![
        (0u16, "My Neat Font"@),
        (1u16, "My Neat Font"@),
        (2u16, "Regular"@),
        (3u16, "My Neat Font"@),
        (4u16, "My Neat Font"@),
        (5u16, "My Neat Font"@),
        (6u16, "My Neat Font"@),
        (10u16, "My Neat Font"@),
    ]
}

/// `records` hold each of `names` twice: for Windows in US English, then
/// for the Macintosh.
pub open spec fn holds_names(records: Seq<NameRecord>, names: Seq<(u16, Seq<char>)>) -> bool {
    &&& records.len() == 2 * names.len()
    &&& forall|k: int|
        0 <= k < names.len() ==> {
            let windows = #[trigger] records[2 * k];
            let macintosh = records[2 * k + 1];
            &&& windows.platform == Platform::Microsoft(MicrosoftEncoding::UnicodeBMP)
            &&& windows.language_id == ENGLISH_UNITEDSTATES
            &&& windows.name_id == names[k].0
            &&& windows.text@ == names[k].1
            &&& macintosh.platform == Platform::Macintosh(MacintoshEncoding::Roman)
            &&& macintosh.language_id == 0
            &&& macintosh.name_id == names[k].0
            &&& macintosh.text@ == names[k].1
        }
}

impl Font {
    /// The ligatures of the font; none where it has no substitution table.
    pub open spec fn ligatures(&self) -> Seq<Ligature> {
        match self.gsub {
            Some(gsub) => gsub.lookup.list@[0].subtable.ligatures(),
            None => Seq::empty(),
        }
    }

    /// The font is what compiling makes of these glyphs and ligatures at
    /// the time `now`: table by table, what each holds.
    pub open spec fn compiled_from<'a>(
        &self,
        width: usize,
        height: usize,
        missing_glyph: Seq<u8>,
        glyphs: Seq<(char, &'a [u8])>,
        ligatures: Seq<(&'a str, &'a [u8])>,
        now: DateTime,
    ) -> bool {
        let sorted = sorted_glyphs(glyphs);
        let chars = chars_of(sorted);
        let bitmaps = font_bitmaps(width, height, missing_glyph, sorted, ligatures);
        let count = bitmaps.len();
        // glyphs: one for each bitmap
        &&& self.glyf.glyphs().len() == count
        &&& forall|i: int| 0 <= i < count ==> is_glyph_of(#[trigger] self.glyf.glyphs()[i], bitmaps[i])
        // locations: where each glyph starts
        &&& self.loca.offsets().len() == count + 1
        &&& forall|i: int|
            0 <= i <= count ==> #[trigger] self.loca.offsets()[i] == glyph_offsets(
                self.glyf.glyphs(),
            )[i]
        &&& self.maxp == self.glyf.spec_maxp()
        // characters: glyph 1 for the first character, and so on
        &&& self.cmap.records().len() == 1
        &&& self.cmap.platform(0) == Platform::Unicode(UnicodeEncoding::Unicode2_0)
        &&& self.cmap.subtable(0) == (SubtableView::Format4 {
            language_id: 0,
            segments: char_segments(codes_of(chars)),
        })
        // header: made now, with the format of the locations
        &&& self.head == (Head {
            index_to_loc_format: if self.loca.spec_needs_long() {
                1i16
            } else {
                0i16
            },
            ..Head::spec_new(now)
        })
        &&& holds_names(self.name.records(), default_names())
        // metrics: every glyph as wide as the cell
        &&& self.hmtx.metrics() == Seq::new(
            count,
            |i: int| HorizontalMetric { advance_width: width as u16, left_side_bearing: 0 },
        )
        &&& self.hhea == (HHea { num_of_long_hor_metrics: 1, ..HHea::spec_new() })
        &&& self.post.format.names() == ascii_names(chars, count)
        &&& self.post.italic_angle == 0
        &&& self.post.underline_position == 0
        &&& self.post.underline_thickness == 1
        &&& self.post.is_monospace
        &&& self.post.min_mem_type42 == 0
        &&& self.post.max_mem_type42 == 0
        &&& self.post.min_mem_type1 == 0
        &&& self.post.max_mem_type1 == 0
        &&& self.os2 matches Os2::Version5(os2) && os2.is_default()
        // ligatures: in the order given, their glyphs behind those of the characters
        &&& self.gsub is None <==> ligatures.len() == 0
        &&& self.gsub matches Some(gsub) ==> gsub.holds_shape()
        &&& self.ligatures().len() == ligatures.len()
        &&& forall|i: int|
            0 <= i < ligatures.len() ==> (#[trigger] self.ligatures()[i]).0@ == pattern_of(
                chars,
                ligatures[i].0@,
            ) && self.ligatures()[i].1 == GlyphId((1 + chars.len() + i) as u16)
    }
}

/// The code of a character.
fn char_code(c: char) -> (r: u32)
    ensures
        r as int == c as int,
{
    c as u32
}

/// Whether `a` does not come behind `b` in the order of byte strings.
fn bytes_le(a: &[u8], b: &[u8]) -> (r: bool)
    ensures
        r == bytes_le_from(a@, b@, 0),
{
    let mut i: usize = 0;
    while i < a.len()
        invariant
            i <= a@.len(),
            bytes_le_from(a@, b@, i as nat) == bytes_le_from(a@, b@, 0),
        decreases a.len() - i,
    {
        if i >= b.len() {
            return false;
        }
        if a[i] != b[i] {
            return a[i] < b[i];
        }
        i = i + 1;
    }
    true
}

/// Whether the glyph `a` does not come behind the glyph `b` in the order
/// of the glyph ids.
fn glyph_before<'a>(a: &(char, &'a [u8]), b: &(char, &'a [u8])) -> (r: bool)
    ensures
        r == glyph_order()(*a, *b),
{
    let code_a = char_code(a.0);
    let code_b = char_code(b.0);
    if code_a != code_b {
        code_a < code_b
    } else {
        bytes_le(a.1, b.1)
    }
}

/// The sprites of the font, in the order of the glyph ids; or what keeps
/// the first bitmap that cannot be compiled from being compiled.
fn make_sprites<'a>(
    width: usize,
    height: usize,
    missing_glyph: &'a [u8],
    glyphs: &Vec<(char, &'a [u8])>,
    ligatures: &Vec<(&'a str, &'a [u8])>,
) -> (r: Result<Vec<Sprite>, FontError>)
    ensures
        match r {
            Ok(sprites) => {
                let all = font_bitmaps(width, height, missing_glyph@, glyphs@, ligatures@);
                &&& first_defect(all, all.len()) is None
                &&& bitmaps(sprites@) == all
                &&& forall|i: int| 0 <= i < sprites@.len() ==> (#[trigger] sprites@[i])@.valid()
            },
            Err(e) => {
                let all = font_bitmaps(width, height, missing_glyph@, glyphs@, ligatures@);
                first_defect(all, all.len()) == Some(e)
            },
        },
{
    let ghost all = font_bitmaps(width, height, missing_glyph@, glyphs@, ligatures@);
    let mut sprites: Vec<Sprite> = Vec::new();
    let total_glyphs = glyphs.len();
    let total_ligatures = ligatures.len();
    let mut i: usize = 0;
    loop
        invariant
            total_glyphs == glyphs@.len(),
            total_ligatures == ligatures@.len(),
            all == font_bitmaps(width, height, missing_glyph@, glyphs@, ligatures@),
            i <= all.len(),
            sprites@.len() == i,
            first_defect(all, i as nat) is None,
            forall|k: int| 0 <= k < i ==> (#[trigger] sprites@[k])@ == all[k],
            forall|k: int| 0 <= k < i ==> (#[trigger] sprites@[k])@.valid(),
        ensures
            i == all.len(),
            sprites@.len() == i,
            first_defect(all, i as nat) is None,
            forall|k: int| 0 <= k < i ==> (#[trigger] sprites@[k])@ == all[k],
            forall|k: int| 0 <= k < i ==> (#[trigger] sprites@[k])@.valid(),
        decreases all.len() - i,
    {
        let bitmap: &[u8] = if i == 0 {
            missing_glyph
        } else if i - 1 < total_glyphs {
            glyphs[i - 1].1
        } else if i - 1 - total_glyphs < total_ligatures {
            ligatures[i - 1 - total_glyphs].1
        } else {
            break ;
        };
        let sprite = Sprite { data: slice_to_vec(bitmap), width, height };
        assert(sprite@ == all[i as int]);
        match sprite.check() {
            Ok(()) => {},
            Err(e) => {
                proof {
                    assert(first_defect(all, (i + 1) as nat) == Some(e));
                    lemma_first_defect_stays(all, (i + 1) as nat, all.len());
                }
                return Err(e);
            },
        }
        sprites.push(sprite);
        i = sprites.len();
    }
    assert(bitmaps(sprites@) =~= all);
    Ok(sprites)
}

/// Once a bitmap was found that cannot be compiled, looking further does
/// not change what was found.
pub proof fn lemma_first_defect_stays(bitmaps: Seq<Bitmap>, n: nat, m: nat)
    requires
        n <= m,
        first_defect(bitmaps, n) is Some,
    ensures
        first_defect(bitmaps, m) == first_defect(bitmaps, n),
    decreases m,
{
    if n < m {
        lemma_first_defect_stays(bitmaps, n, (m - 1) as nat);
    }
}

/// Once a ligature was found with which something is wrong, looking
/// further does not change what was found.
pub proof fn lemma_first_ligature_defect_stays<'a>(
    chars: Seq<char>,
    ligatures: Seq<(&'a str, &'a [u8])>,
    n: nat,
    m: nat,
)
    requires
        n <= m,
        first_ligature_defect(chars, ligatures, n) is Some,
    ensures
        first_ligature_defect(chars, ligatures, m) == first_ligature_defect(chars, ligatures, n),
    decreases m,
{
    if n < m {
        lemma_first_ligature_defect_stays(chars, ligatures, n, (m - 1) as nat);
    }
}

/// The first place among `chars` where `c` stands.
fn position_of(chars: &[char], c: char) -> (r: Option<usize>)
    ensures
        match r {
            Some(i) => first_index(chars@, c, chars@.len()) == Some(i as int) && i < chars@.len(),
            None => first_index(chars@, c, chars@.len()) is None,
        },
{
    let code = char_code(c);
    let mut i: usize = 0;
    while i < chars.len()
        invariant
            i <= chars@.len(),
            code as int == c as int,
            first_index(chars@, c, i as nat) is None,
        decreases chars.len() - i,
    {
        if char_code(chars[i]) == code {
            assert(chars@[i as int] == c);
            assert(first_index(chars@, c, (i + 1) as nat) == Some(i as int));
            proof {
                lemma_first_index_stays(chars@, c, (i + 1) as nat, chars@.len());
            }
            return Some(i);
        }
        i = i + 1;
    }
    None
}

/// The pattern of the ligature `text`: the glyph ids of its characters; or
/// what is wrong with the ligature.
fn make_pattern(chars: &[char], text: &str) -> (r: Result<Vec<GlyphId>, FontError>)
    requires
        chars@.len() < 0xffff,
    ensures
        match r {
            Ok(pattern) => ligature_defect(chars@, text@) is None && pattern@ == pattern_of(
                chars@,
                text@,
            ) && pattern@.len() >= 1,
            Err(e) => ligature_defect(chars@, text@) == Some(e),
        },
{
    broadcast use vstd::string::axiom_spec_iter;

    let mut pattern: Vec<GlyphId> = Vec::new();
    for chr in it: text.chars()
        invariant
            it.seq() == text@,
            chars@.len() < 0xffff,
            pattern@.len() == it.index(),
            forall|j: int|
                0 <= j < it.index() ==> first_index(chars@, #[trigger] text@[j], chars@.len()) is Some,
            forall|j: int|
                0 <= j < it.index() ==> #[trigger] pattern@[j] == pattern_of(chars@, text@)[j],
    {
        match position_of(chars, chr) {
            Some(i) => {
                pattern.push(GlyphId((i + 1) as u16));
            },
            None => {
                assert(first_index(chars@, text@[it.index() as int], chars@.len()) is None);
                if pattern.len() == 0 {
                }
                return Err(FontError::UnknownLigatureChar);
            },
        }
    }
    if pattern.len() == 0 {
        return Err(FontError::EmptyLigature);
    }
    assert(pattern@ =~= pattern_of(chars@, text@));
    Ok(pattern)
}

/// The ligatures of the font: their patterns, and for each the id of its
/// glyph, which follow those of the characters; or what is wrong with the
/// first ligature with which something is wrong.
fn make_ligatures<'a>(chars: &[char], ligatures: &Vec<(&'a str, &'a [u8])>) -> (r: Result<
    Vec<Ligature>,
    FontError,
>)
    requires
        1 + chars@.len() + ligatures@.len() <= 0xffff,
    ensures
        match r {
            Ok(list) => {
                &&& first_ligature_defect(chars@, ligatures@, ligatures@.len()) is None
                &&& list@.len() == ligatures@.len()
                &&& patterns_not_empty(list@)
                &&& forall|i: int|
                    0 <= i < ligatures@.len() ==> (#[trigger] list@[i]).0@ == pattern_of(
                        chars@,
                        ligatures@[i].0@,
                    ) && list@[i].1 == GlyphId((1 + chars@.len() + i) as u16)
            },
            Err(e) => first_ligature_defect(chars@, ligatures@, ligatures@.len()) == Some(e),
        },
{
    let ligature_offset = chars.len() + 1;
    let mut list: Vec<Ligature> = Vec::new();
    let mut i: usize = 0;
    while i < ligatures.len()
        invariant
            i <= ligatures@.len(),
            1 + chars@.len() + ligatures@.len() <= 0xffff,
            ligature_offset == chars@.len() + 1,
            first_ligature_defect(chars@, ligatures@, i as nat) is None,
            list@.len() == i,
            patterns_not_empty(list@),
            forall|k: int|
                0 <= k < i ==> (#[trigger] list@[k]).0@ == pattern_of(chars@, ligatures@[k].0@)
                    && list@[k].1 == GlyphId((1 + chars@.len() + k) as u16),
        decreases ligatures.len() - i,
    {
        match make_pattern(chars, ligatures[i].0) {
            Ok(pattern) => {
                list.push((pattern, GlyphId((ligature_offset + i) as u16)));
            },
            Err(e) => {
                proof {
                    assert(first_ligature_defect(chars@, ligatures@, (i + 1) as nat) == Some(e));
                    lemma_first_ligature_defect_stays(
                        chars@,
                        ligatures@,
                        (i + 1) as nat,
                        ligatures@.len(),
                    );
                }
                return Err(e);
            },
        }
        i = i + 1;
    }
    Ok(list)
}

/// The naming table that every compiled font gets.
fn make_names() -> (name: Name)
    ensures
        holds_names(name.records(), default_names()),
{
    let mut name = Name::new();
    name.push(0, "My Neat Font");
    name.push(1, "My Neat Font");
    name.push(2, "Regular");
    name.push(3, "My Neat Font");
    name.push(4, "My Neat Font");
    name.push(5, "My Neat Font");
    name.push(6, "My Neat Font");
    name.push(10, "My Neat Font");
    name
}

/// The glyph table of the glyphs of the first `n` bitmaps is as long as
/// their encoded glyphs together.
pub proof fn lemma_glyf_size(glyphs: Seq<Glyph>, bitmaps: Seq<Bitmap>, n: nat)
    requires
        n <= glyphs.len() == bitmaps.len(),
        forall|i: int| 0 <= i < glyphs.len() ==> is_glyph_of(#[trigger] glyphs[i], bitmaps[i]),
    ensures
        glyf_bytes(glyphs.take(n as int)).len() == glyf_size(bitmaps, n),
    decreases n,
{
    if n > 0 {
        lemma_glyf_size(glyphs, bitmaps, (n - 1) as nat);
        let front = glyphs.take(n as int);
        assert(front.drop_last() == glyphs.take(n - 1));
        assert(front.last() == glyphs[n - 1]);
        assert(is_glyph_of(glyphs[n - 1], bitmaps[n - 1]));
    }
}

/// Where every glyph advances by the same width, one long metric is
/// enough.
pub proof fn lemma_monospace_metrics(metrics: Seq<HorizontalMetric>, k: nat)
    requires
        k <= metrics.len(),
        metrics.len() > 0,
        forall|i: int| 0 <= i < metrics.len() ==> (#[trigger] metrics[i]).advance_width
            == metrics[0].advance_width,
    ensures
        long_metrics_within(metrics, k) == 1,
    decreases k,
{
    if k > 0 {
        assert(metrics[k - 1].advance_width == metrics[0].advance_width);
        assert(metrics.last().advance_width == metrics[0].advance_width);
        lemma_monospace_metrics(metrics, (k - 1) as nat);
    }
}

/// Compiles a font from bitmaps of `width` by `height` pixels: the glyph
/// that stands for missing ones, a glyph for each character of `glyphs`,
/// and a glyph for each sequence of characters of `ligatures`. The
/// characters get the glyph ids from 1 on in ascending order, the
/// ligatures the ids behind, in the order given. `now` is the time, in
/// seconds since the start of 1904, that the font header records.
///
/// The ligatures are taken in the order given: a longer sequence has to
/// stand before a shorter one that it starts with, and sequences with the
/// same first character have to stand together, the first characters in
/// ascending order.
#[verifier::rlimit(30)]
pub fn bitmap_font<'a>(
    width: usize,
    height: usize,
    missing_glyph: &'a [u8],
    glyphs: Vec<(char, &'a [u8])>,
    ligatures: Vec<(&'a str, &'a [u8])>,
    now: DateTime,
) -> (r: Result<Font, FontError>)
    ensures
        match r {
            Ok(font) => {
                &&& font_defect(width, height, missing_glyph@, glyphs@, ligatures@) is None
                &&& font.wf()
                &&& font.compiled_from(width, height, missing_glyph@, glyphs@, ligatures@, now)
            },
            Err(e) => font_defect(width, height, missing_glyph@, glyphs@, ligatures@) == Some(e),
        },
{
    let sorted = sort_by(glyphs.as_slice(), glyph_before, Ghost(glyph_order()));
    let ghost all = font_bitmaps(width, height, missing_glyph@, sorted@, ligatures@);
    let mut chars: Vec<char> = Vec::new();
    let mut i: usize = 0;
    while i < sorted.len()
        invariant
            i <= sorted.len(),
            chars@ == chars_of(sorted@).take(i as int),
        decreases sorted.len() - i,
    {
        chars.push(sorted[i].0);
        i = i + 1;
        assert(chars@ =~= chars_of(sorted@).take(i as int));
    }
    assert(chars_of(sorted@).take(i as int) == chars_of(sorted@));

    let sprites = match make_sprites(width, height, missing_glyph, &sorted, &ligatures) {
        Ok(sprites) => sprites,
        Err(e) => {
            return Err(e);
        },
    };
    let glyf = match Glyf::from(sprites) {
        Ok(glyf) => glyf,
        Err(e) => {
            return Err(e);
        },
    };
    proof {
        assert forall|i: int| 0 <= i < all.len() implies is_glyph_of(
            #[trigger] glyf.glyphs()[i],
            all[i],
        ) by {
            assert(bitmaps(sprites@)[i] == sprites@[i]@);
        }
        lemma_glyf_size(glyf.glyphs(), all, all.len());
        assert(glyf.glyphs().take(all.len() as int) == glyf.glyphs());
    }
    let loca = match glyf.generate_loca() {
        Ok(loca) => loca,
        Err(e) => {
            return Err(e);
        },
    };
    proof {
        let last = all.len() as int;
        assert(loca.offsets()[last] == glyph_offsets(glyf.glyphs())[last]);
        assert(loca.offsets()[last] <= 0xffff_ffff);
        assert(glyf_size(all, all.len()) <= 0xffff_ffff);
    }
    let maxp = glyf.generate_maxp();
    let cmap = match CMap::from_char_order(chars.as_slice()) {
        Ok(cmap) => cmap,
        Err(e) => {
            return Err(e);
        },
    };
    let mut head = Head::new(now);
    head.index_to_loc_format = if loca.needs_long() {
        1
    } else {
        0
    };
    let name = make_names();
    let mut hhea = HHea::new();
    let count = glyf.count_glyphs();
    let hmtx = HMtx::monospace(width as u16, vec![0; count]);
    proof {
        lemma_monospace_metrics(hmtx.metrics(), hmtx.metrics().len());
    }
    hhea.num_of_long_hor_metrics = hmtx.num_of_long_hor_metrics() as u16;

    let post = Post::from_ascii_order(chars.as_slice(), count);

    let list = match make_ligatures(chars.as_slice(), &ligatures) {
        Ok(list) => list,
        Err(e) => {
            return Err(e);
        },
    };
    let ghost patterns = list@;
    let gsub = GSub::new(list);

    let font = Font {
        cmap,
        glyf,
        gsub,
        head,
        hhea,
        hmtx,
        loca,
        maxp,
        name,
        os2: Os2::default(),
        post,
    };
    proof {
        assert(font.ligatures() == patterns);
        assert(font.hmtx.metrics() =~= Seq::new(
            all.len(),
            |i: int| HorizontalMetric { advance_width: width as u16, left_side_bearing: 0 },
        ));
    }
    Ok(font)
}

} // verus!
