//! The glyph substitution table: ligatures, inside the hierarchy of
//! scripts, features and lookups that the format asks for.

use vstd::prelude::*;
use crate::encode::be_u16;
use crate::encode::be_u32;
use crate::encode::low16;
use crate::encode::low16_of;
use crate::encode::low16_of_u32;
use crate::encode::write_all;
use crate::encode::write_u16;
use crate::encode::write_u32;
use crate::itertools::lemma_next_is_first_run;
use crate::itertools::lemma_run_len_is_run;
use crate::itertools::may_ask;
use crate::itertools::run_len;
use crate::itertools::split_when;
use crate::subtable::SubtableBuffer;
use crate::writeutils::TableWriter;
use crate::FontTable;
use crate::GlyphId;

verus! {

/// Lookup flag: the lookup runs from right to left.
pub const RIGHT_TO_LEFT: u16 = 1;

/// Lookup flag: base glyphs are skipped.
pub const IGNORE_BASE_GLYPHS: u16 = 2;

/// Lookup flag: ligatures are skipped.
pub const IGNORE_LIGATURES: u16 = 4;

/// Lookup flag: marks are skipped.
pub const IGNORE_MARKS: u16 = 8;

/// A ligature: the glyphs of its pattern, and the glyph that replaces them.
pub type Ligature = (Vec<GlyphId>, GlyphId);

/// The header entries and the body that an offset list adds to a subtable
/// buffer for the first `n` of `items`. Each item is what precedes its
/// offset in the header (a tag, or nothing) and the bytes of the item
/// itself, which go to the body; the offset says where the item starts,
/// counted from the start of the enclosing table, of which `bias` bytes lie
/// before the body and `start` bytes of body before the list.
pub open spec fn offset_entries(
    bias: u16,
    start: nat,
    items: Seq<(Seq<u8>, Seq<u8>)>,
    n: nat,
) -> (Seq<u8>, Seq<u8>)
    decreases n,
{
    if n == 0 {
        (Seq::empty(), Seq::empty())
    } else {
        let (header, body) = offset_entries(bias, start, items, (n - 1) as nat);
        (
            header + items[n - 1].0 + be_u16(low16(start + body.len() + bias)),
            body + items[n - 1].1,
        )
    }
}

/// A list of 16-bit values, each big-endian.
pub open spec fn u16_list(values: Seq<u16>) -> Seq<u8>
    decreases values.len(),
{
    if values.len() == 0 {
        Seq::empty()
    } else {
        u16_list(values.drop_last()) + be_u16(values.last())
    }
}

/// A list of glyph ids, each big-endian.
pub open spec fn glyph_list(glyphs: Seq<GlyphId>) -> Seq<u8>
    decreases glyphs.len(),
{
    if glyphs.len() == 0 {
        Seq::empty()
    } else {
        glyph_list(glyphs.drop_last()) + be_u16(glyphs.last().0)
    }
}

/// Appends every value of `values` to `writer`.
fn write_u16_list(values: &Vec<u16>, writer: &mut Vec<u8>)
    ensures
        final(writer)@ == old(writer)@ + u16_list(values@),
{
    let mut i: usize = 0;
    assert(values@.take(0) == Seq::<u16>::empty());
    while i < values.len()
        invariant
            i <= values.len(),
            writer@ == old(writer)@ + u16_list(values@.take(i as int)),
        decreases values.len() - i,
    {
        write_u16(writer, values[i]);
        assert(values@.take(i + 1).drop_last() == values@.take(i as int));
        i = i + 1;
        assert(writer@ =~= old(writer)@ + u16_list(values@.take(i as int)));
    }
    assert(values@.take(i as int) == values@);
}

/// Appends the glyph ids of `glyphs` from index `from` on to `writer`.
fn write_glyph_list(glyphs: &Vec<GlyphId>, from: usize, writer: &mut Vec<u8>)
    requires
        from <= glyphs@.len(),
    ensures
        final(writer)@ == old(writer)@ + glyph_list(glyphs@.skip(from as int)),
{
    let ghost list = glyphs@.skip(from as int);
    let mut i: usize = from;
    assert(list.take(0) == Seq::<GlyphId>::empty());
    while i < glyphs.len()
        invariant
            from <= i <= glyphs.len(),
            list == glyphs@.skip(from as int),
            writer@ == old(writer)@ + glyph_list(list.take(i - from)),
        decreases glyphs.len() - i,
    {
        write_u16(writer, glyphs[i].0);
        assert(list.take(i + 1 - from).drop_last() == list.take(i - from));
        i = i + 1;
        assert(writer@ =~= old(writer)@ + glyph_list(list.take(i - from)));
    }
    assert(list.take(i - from) == list);
}


/// A language system: the features that apply to a language.
pub struct LangSysTable {
    pub reqd_feature_idx: u16,
    pub feature_list_indices: Vec<u16>,
}

impl LangSysTable {
    /// The table: a reserved zero, the required feature, the number of
    /// features, their indices.
    pub open spec fn spec_bytes(&self) -> Seq<u8> {
        be_u16(0) + be_u16(self.reqd_feature_idx) + be_u16(
            low16(self.feature_list_indices@.len() as int),
        ) + u16_list(self.feature_list_indices@)
    }

    pub fn write(&self, writer: &mut Vec<u8>)
        ensures
            final(writer)@ == old(writer)@ + self.spec_bytes(),
    {
        write_u16(writer, 0);  // reserved
        write_u16(writer, self.reqd_feature_idx);
        write_u16(writer, low16_of(self.feature_list_indices.len()));
        write_u16_list(&self.feature_list_indices, writer);
        assert(writer@ =~= old(writer)@ + self.spec_bytes());
    }
}

/// A script: its default language system and those of named languages.
pub struct ScriptTable {
    pub script_tag: [u8; 4],
    pub default: Option<LangSysTable>,
    pub lang_sys: Vec<([u8; 4], LangSysTable)>,
}

impl ScriptTable {
    /// The distance from the start of the table to its body.
    pub open spec fn bias(&self) -> u16 {
        low16(4 + 6 * low16(self.lang_sys@.len() as int))
    }

    /// The language systems as tagged items of an offset list.
    pub open spec fn items(&self) -> Seq<(Seq<u8>, Seq<u8>)> {
        Seq::new(
            self.lang_sys@.len(),
            |i: int| (self.lang_sys@[i].0@, self.lang_sys@[i].1.spec_bytes()),
        )
    }

    /// The offset of the default language system, or zero, in the header;
    /// and the default language system itself, in the body.
    pub open spec fn default_part(&self) -> (Seq<u8>, Seq<u8>) {
        match self.default {
            Some(lang_sys) => (be_u16(low16(self.bias() as int)), lang_sys.spec_bytes()),
            None => (be_u16(0), Seq::empty()),
        }
    }

    /// The table: the default's offset, the number of languages, a tag and
    /// an offset for each; then the language systems.
    pub open spec fn spec_bytes(&self) -> Seq<u8> {
        let (default_header, default_body) = self.default_part();
        let (header, body) = offset_entries(
            self.bias(),
            default_body.len(),
            self.items(),
            self.lang_sys@.len(),
        );
        default_header + be_u16(low16(self.lang_sys@.len() as int)) + header + default_body + body
    }

    pub fn write(&self, writer: &mut Vec<u8>)
        ensures
            final(writer)@ == old(writer)@ + self.spec_bytes(),
    {
        let len = low16_of(self.lang_sys.len());
        let mut subtable = SubtableBuffer::new(low16_of_u32(4 + 6 * (len as u32)));
        match &self.default {
            Some(lang_sys) => {
                subtable.mark_offset();
                lang_sys.write(subtable.body());
            },
            None => {
                write_u16(subtable.header(), 0);  // null
            },
        }
        write_u16(subtable.header(), len);
        let ghost head = subtable.header_bytes();
        let ghost start = subtable.body_bytes();
        let mut i: usize = 0;
        while i < self.lang_sys.len()
            invariant
                i <= self.lang_sys.len(),
                subtable.bias() == self.bias(),
                subtable.header_bytes() == head + offset_entries(
                    self.bias(),
                    start.len(),
                    self.items(),
                    i as nat,
                ).0,
                subtable.body_bytes() == start + offset_entries(
                    self.bias(),
                    start.len(),
                    self.items(),
                    i as nat,
                ).1,
            decreases self.lang_sys.len() - i,
        {
            write_all(subtable.header(), self.lang_sys[i].0.as_slice());
            subtable.mark_offset();
            self.lang_sys[i].1.write(subtable.body());
            i = i + 1;
            assert(subtable.header_bytes() =~= head + offset_entries(
                self.bias(),
                start.len(),
                self.items(),
                i as nat,
            ).0);
        }
        subtable.write(writer);
        assert(writer@ =~= old(writer)@ + self.spec_bytes());
    }
}

/// The scripts of the font.
pub struct ScriptListTable {
    pub scripts: Vec<ScriptTable>,
}

impl ScriptListTable {
    /// The distance from the start of the table to its body.
    pub open spec fn bias(&self) -> u16 {
        low16(2 + 6 * low16(self.scripts@.len() as int))
    }

    /// The scripts as tagged items of an offset list.
    pub open spec fn items(&self) -> Seq<(Seq<u8>, Seq<u8>)> {
        Seq::new(
            self.scripts@.len(),
            |i: int| (self.scripts@[i].script_tag@, self.scripts@[i].spec_bytes()),
        )
    }

    /// The table: the number of scripts, a tag and an offset for each; then
    /// the scripts.
    pub open spec fn spec_bytes(&self) -> Seq<u8> {
        let (header, body) = offset_entries(self.bias(), 0, self.items(), self.scripts@.len());
        be_u16(low16(self.scripts@.len() as int)) + header + body
    }

    pub fn write(&self, writer: &mut Vec<u8>)
        ensures
            final(writer)@ == old(writer)@ + self.spec_bytes(),
    {
        let len = low16_of(self.scripts.len());
        let mut subtable = SubtableBuffer::new(low16_of_u32(2 + 6 * (len as u32)));
        write_u16(subtable.header(), len);
        let ghost head = subtable.header_bytes();
        let mut i: usize = 0;
        while i < self.scripts.len()
            invariant
                i <= self.scripts.len(),
                subtable.bias() == self.bias(),
                subtable.header_bytes() == head + offset_entries(
                    self.bias(),
                    0,
                    self.items(),
                    i as nat,
                ).0,
                subtable.body_bytes() == offset_entries(self.bias(), 0, self.items(), i as nat).1,
            decreases self.scripts.len() - i,
        {
            write_all(subtable.header(), self.scripts[i].script_tag.as_slice());
            subtable.mark_offset();
            self.scripts[i].write(subtable.body());
            i = i + 1;
            assert(subtable.header_bytes() =~= head + offset_entries(
                self.bias(),
                0,
                self.items(),
                i as nat,
            ).0);
        }
        subtable.write(writer);
        assert(writer@ =~= old(writer)@ + self.spec_bytes());
    }
}

/// A feature: the lookups that make it up.
pub struct FeatureTable {
    /// 4-byte feature identification tag
    pub tag: [u8; 4],
    /// Indices into the lookup list, zero-based
    pub lookup_list_indices: Vec<u16>,
}

impl FeatureTable {
    /// The table: no feature parameters, the number of lookups, their
    /// indices.
    pub open spec fn spec_bytes(&self) -> Seq<u8> {
        be_u16(0) + be_u16(low16(self.lookup_list_indices@.len() as int)) + u16_list(
            self.lookup_list_indices@,
        )
    }

    pub fn write(&self, writer: &mut Vec<u8>)
        ensures
            final(writer)@ == old(writer)@ + self.spec_bytes(),
    {
        // Offset to the feature parameters: there are none.
        write_u16(writer, 0);
        let len = low16_of(self.lookup_list_indices.len());
        write_u16(writer, len);
        write_u16_list(&self.lookup_list_indices, writer);
        assert(writer@ =~= old(writer)@ + self.spec_bytes());
    }
}

/// The features of the font.
pub struct FeatureListTable {
    pub features: Vec<FeatureTable>,
}

impl FeatureListTable {
    /// The distance from the start of the table to its body.
    pub open spec fn bias(&self) -> u16 {
        low16(2 + 6 * low16(self.features@.len() as int))
    }

    /// The features as tagged items of an offset list.
    pub open spec fn items(&self) -> Seq<(Seq<u8>, Seq<u8>)> {
        Seq::new(
            self.features@.len(),
            |i: int| (self.features@[i].tag@, self.features@[i].spec_bytes()),
        )
    }

    /// The table: the number of features, a tag and an offset for each;
    /// then the features.
    pub open spec fn spec_bytes(&self) -> Seq<u8> {
        let (header, body) = offset_entries(self.bias(), 0, self.items(), self.features@.len());
        be_u16(low16(self.features@.len() as int)) + header + body
    }

    pub fn write(&self, writer: &mut Vec<u8>)
        ensures
            final(writer)@ == old(writer)@ + self.spec_bytes(),
    {
        let len = low16_of(self.features.len());
        let mut subtable = SubtableBuffer::new(low16_of_u32(2 + 6 * (len as u32)));
        write_u16(subtable.header(), len);
        let ghost head = subtable.header_bytes();
        let mut i: usize = 0;
        while i < self.features.len()
            invariant
                i <= self.features.len(),
                subtable.bias() == self.bias(),
                subtable.header_bytes() == head + offset_entries(
                    self.bias(),
                    0,
                    self.items(),
                    i as nat,
                ).0,
                subtable.body_bytes() == offset_entries(self.bias(), 0, self.items(), i as nat).1,
            decreases self.features.len() - i,
        {
            write_all(subtable.header(), self.features[i].tag.as_slice());
            subtable.mark_offset();
            self.features[i].write(subtable.body());
            i = i + 1;
            assert(subtable.header_bytes() =~= head + offset_entries(
                self.bias(),
                0,
                self.items(),
                i as nat,
            ).0);
        }
        subtable.write(writer);
        assert(writer@ =~= old(writer)@ + self.spec_bytes());
    }
}


/// The first glyph of a ligature's pattern, if the pattern has one.
pub open spec fn first_glyph(ligature: Ligature) -> Option<GlyphId> {
    if ligature.0@.len() > 0 {
        Some(ligature.0@[0])
    } else {
        None
    }
}

/// Where one ligature set ends and the next begins: where the first glyph
/// of the pattern changes.
pub open spec fn first_glyph_changes() -> spec_fn(Ligature, Ligature) -> bool {
    |a: Ligature, b: Ligature| first_glyph(a) != first_glyph(b)
}

/// The ligature sets: the runs of ligatures with the same first glyph, in
/// the order of the list.
pub open spec fn ligature_sets(subs: Seq<Ligature>) -> Seq<Seq<Ligature>>
    decreases subs.len(),
{
    let run = run_len(subs, first_glyph_changes());
    if 1 <= run <= subs.len() {
        seq![subs.take(run as int)] + ligature_sets(subs.skip(run as int))
    } else {
        Seq::empty()
    }
}

/// The coverage of the sets: the first glyph of each.
pub open spec fn coverage_of(sets: Seq<Seq<Ligature>>) -> Seq<GlyphId> {
    Seq::new(sets.len(), |i: int| sets[i][0].0@[0])
}

/// One ligature: the replacing glyph, the length of the pattern, and the
/// pattern without its first glyph, which the coverage table holds.
pub open spec fn ligature_record(ligature: Ligature) -> Seq<u8> {
    be_u16(ligature.1.0) + be_u16(low16(ligature.0@.len() as int)) + glyph_list(
        ligature.0@.skip(1),
    )
}

/// The ligatures of a set as items of an offset list.
pub open spec fn ligature_items(set: Seq<Ligature>) -> Seq<(Seq<u8>, Seq<u8>)> {
    Seq::new(set.len(), |i: int| (Seq::<u8>::empty(), ligature_record(set[i])))
}

/// The distance from the start of a ligature set to its body.
pub open spec fn ligature_set_bias(set: Seq<Ligature>) -> u16 {
    low16(2 + low16(set.len() as int) * 2)
}

/// A ligature set: the number of ligatures, an offset for each; then the
/// ligatures.
pub open spec fn ligature_set_bytes(set: Seq<Ligature>) -> Seq<u8> {
    let (header, body) = offset_entries(ligature_set_bias(set), 0, ligature_items(set), set.len());
    be_u16(low16(set.len() as int)) + header + body
}

/// A coverage list: format 1, the number of glyphs, the glyphs.
pub open spec fn coverage_bytes(glyphs: Seq<GlyphId>) -> Seq<u8> {
    be_u16(1) + be_u16(low16(glyphs.len() as int)) + glyph_list(glyphs)
}

/// The ligature sets as items of an offset list.
pub open spec fn set_items(sets: Seq<Seq<Ligature>>) -> Seq<(Seq<u8>, Seq<u8>)> {
    Seq::new(sets.len(), |i: int| (Seq::<u8>::empty(), ligature_set_bytes(sets[i])))
}

/// The distance from the start of a ligature substitution to its body.
pub open spec fn ligature_subst_bias(sets: Seq<Seq<Ligature>>) -> u16 {
    low16(6 + 2 * low16(sets.len() as int))
}

/// A ligature substitution, format 1: the offset of the coverage table, the
/// number of ligature sets, an offset for each; then the coverage table and
/// the sets.
pub open spec fn ligature_subst_bytes(subs: Seq<Ligature>) -> Seq<u8> {
    let sets = ligature_sets(subs);
    let bias = ligature_subst_bias(sets);
    let coverage = coverage_bytes(coverage_of(sets));
    let (header, body) = offset_entries(bias, coverage.len(), set_items(sets), sets.len());
    be_u16(1) + be_u16(low16(bias as int)) + be_u16(low16(sets.len() as int)) + header + coverage
        + body
}

/// Every pattern holds at least its first glyph.
pub open spec fn patterns_not_empty(subs: Seq<Ligature>) -> bool {
    forall|i: int| 0 <= i < subs.len() ==> (#[trigger] subs[i]).0@.len() >= 1
}

/// The sets partition the list in its order: one after the other they give
/// the list back; no set is empty; inside a set all patterns start with the
/// same glyph; and where one set ends the first glyph changes.
pub proof fn lemma_ligature_sets_partition(subs: Seq<Ligature>)
    ensures
        ligature_sets(subs).flatten() == subs,
        forall|i: int|
            0 <= i < ligature_sets(subs).len() ==> (#[trigger] ligature_sets(subs)[i]).len() >= 1,
        forall|i: int, j: int|
            0 <= i < ligature_sets(subs).len() && 0 <= j < ligature_sets(subs)[i].len()
                ==> first_glyph(#[trigger] ligature_sets(subs)[i][j]) == first_glyph(
                ligature_sets(subs)[i][0],
            ),
        forall|i: int|
            0 <= i < ligature_sets(subs).len() - 1 ==> first_glyph(
                (#[trigger] ligature_sets(subs)[i]).last(),
            ) != first_glyph(ligature_sets(subs)[i + 1][0]),
        subs.len() > 0 ==> ligature_sets(subs).len() >= 1 && ligature_sets(subs)[0][0] == subs[0],
    decreases subs.len(),
{
    let sets = ligature_sets(subs);
    if subs.len() == 0 {
        assert(sets.flatten() =~= subs);
    } else {
        let splits = first_glyph_changes();
        lemma_run_len_is_run(subs, splits);
        let run = run_len(subs, splits);
        let first = subs.take(run as int);
        let rest = subs.skip(run as int);
        let tail = ligature_sets(rest);
        lemma_ligature_sets_partition(rest);
        assert(sets == seq![first] + tail);
        assert(sets.drop_first() == tail);
        assert(sets.flatten() == first + tail.flatten());
        assert(first + rest == subs);
        lemma_run_uniform(subs, run);
        assert forall|i: int, j: int|
            0 <= i < sets.len() && 0 <= j < sets[i].len() implies first_glyph(
            #[trigger] sets[i][j],
        ) == first_glyph(sets[i][0]) by {
            if i > 0 {
                assert(sets[i] == tail[i - 1]);
            }
        }
        assert forall|i: int| 0 <= i < sets.len() - 1 implies first_glyph(
            (#[trigger] sets[i]).last(),
        ) != first_glyph(sets[i + 1][0]) by {
            if i == 0 {
                assert(sets[1] == tail[0]);
                assert(tail[0][0] == rest[0]);
                assert(splits(subs[run - 1], subs[run as int]));
            } else {
                assert(sets[i] == tail[i - 1]);
                assert(sets[i + 1] == tail[i]);
            }
        }
    }
}

/// Inside the first run, every pattern starts with the glyph of the first.
proof fn lemma_run_uniform(subs: Seq<Ligature>, run: nat)
    requires
        1 <= run <= subs.len(),
        forall|j: int| 0 <= j < run - 1 ==> !first_glyph_changes()(#[trigger] subs[j], subs[j + 1]),
    ensures
        forall|j: int| 0 <= j < run ==> first_glyph(#[trigger] subs[j]) == first_glyph(subs[0]),
    decreases run,
{
    if run > 1 {
        lemma_run_uniform(subs, (run - 1) as nat);
        assert(!first_glyph_changes()(subs[run - 2], subs[run - 2 + 1]));
    }
}

/// The first glyphs of the patterns do not descend along the list.
pub open spec fn first_glyphs_ascend(subs: Seq<Ligature>) -> bool {
    forall|i: int, j: int|
        0 <= i <= j < subs.len() ==> (#[trigger] subs[i]).0@[0].0 <= (#[trigger] subs[j]).0@[0].0
}

/// The glyph that stands for set `k` in the coverage table is at least
/// `low`.
pub open spec fn covers_from(sets: Seq<Seq<Ligature>>, k: int, low: int) -> bool {
    coverage_of(sets)[k].0 >= low
}

/// For a list of ligatures whose first glyphs do not descend, the coverage
/// table is sorted and names no glyph twice: the first glyphs of the sets
/// ascend strictly.
pub proof fn lemma_coverage_ascends(subs: Seq<Ligature>)
    requires
        patterns_not_empty(subs),
        first_glyphs_ascend(subs),
    ensures
        forall|k: int, l: int|
            0 <= k < l < ligature_sets(subs).len() ==> (#[trigger] coverage_of(
                ligature_sets(subs),
            )[k]).0 < (#[trigger] coverage_of(ligature_sets(subs))[l]).0,
        forall|k: int|
            0 <= k < ligature_sets(subs).len() ==> #[trigger] covers_from(
                ligature_sets(subs),
                k,
                subs[0].0@[0].0 as int,
            ),
    decreases subs.len(),
{
    if subs.len() > 0 {
        let changes = first_glyph_changes();
        lemma_run_len_is_run(subs, changes);
        let run = run_len(subs, changes) as int;
        let rest = subs.skip(run);
        let sets = ligature_sets(subs);
        let tail = ligature_sets(rest);
        let cover = coverage_of(sets);
        let low = subs[0].0@[0].0 as int;
        assert(sets == seq![subs.take(run)] + tail);
        assert(cover[0] == subs[0].0@[0]);
        assert forall|i: int| 0 <= i < rest.len() implies (#[trigger] rest[i]).0@.len() >= 1 by {
            assert(subs[i + run].0@.len() >= 1);
        }
        assert forall|i: int, j: int| 0 <= i <= j < rest.len() implies (#[trigger] rest[i]).0@[0].0
            <= (#[trigger] rest[j]).0@[0].0 by {
            assert(subs[i + run].0@[0].0 <= subs[j + run].0@[0].0);
        }
        lemma_coverage_ascends(rest);
        if rest.len() > 0 {
            // the first glyph changes behind the first set, and it does not descend
            assert(changes(subs[run - 1], subs[run]));
            lemma_run_uniform(subs, run as nat);
            assert(first_glyph(subs[run - 1]) == first_glyph(subs[0]));
            assert(subs[0].0@[0].0 <= subs[run].0@[0].0);
            assert(subs[0].0@.len() >= 1 && subs[run].0@.len() >= 1 && subs[run - 1].0@.len() >= 1);
            assert(rest[0] == subs[run]);
            assert(low < rest[0].0@[0].0);
        }
        assert forall|k: int| 0 <= k < sets.len() implies #[trigger] covers_from(sets, k, low) by {
            if k > 0 {
                assert(sets[k] == tail[k - 1]);
                assert(covers_from(tail, k - 1, rest[0].0@[0].0 as int));
            }
        }
        assert forall|k: int, l: int| 0 <= k < l < sets.len() implies (#[trigger] cover[k]).0 < (
        #[trigger] cover[l]).0 by {
            assert(sets[l] == tail[l - 1]);
            assert(cover[l] == coverage_of(tail)[l - 1]);
            if k == 0 {
                assert(covers_from(tail, l - 1, rest[0].0@[0].0 as int));
            } else {
                assert(sets[k] == tail[k - 1]);
                assert(cover[k] == coverage_of(tail)[k - 1]);
            }
        }
    }
}

/// The sets of a list of patterns with first glyphs hold only such patterns.
pub proof fn lemma_ligature_sets_not_empty(subs: Seq<Ligature>)
    requires
        patterns_not_empty(subs),
    ensures
        forall|i: int|
            0 <= i < ligature_sets(subs).len() ==> (#[trigger] ligature_sets(subs)[i]).len() >= 1
                && patterns_not_empty(ligature_sets(subs)[i]),
    decreases subs.len(),
{
    if subs.len() > 0 {
        let splits = first_glyph_changes();
        lemma_run_len_is_run(subs, splits);
        let run = run_len(subs, splits);
        let rest = subs.skip(run as int);
        lemma_ligature_sets_not_empty(rest);
        let sets = ligature_sets(subs);
        let tail = ligature_sets(rest);
        assert forall|i: int| 0 <= i < sets.len() implies (#[trigger] sets[i]).len() >= 1
            && patterns_not_empty(sets[i]) by {
            if i > 0 {
                assert(sets[i] == tail[i - 1]);
            }
        }
    }
}

/// Splits a list of ligatures into its ligature sets: the runs of ligatures
/// whose patterns start with the same glyph, in the order of the list.
pub fn group_ligatures(subs: &[Ligature]) -> (sets: Vec<&[Ligature]>)
    ensures
        sets@.len() == ligature_sets(subs@).len(),
        forall|i: int| 0 <= i < sets@.len() ==> (#[trigger] sets@[i])@ == ligature_sets(subs@)[i],
{
    let changes = |a: &Ligature, b: &Ligature| -> (r: bool)
        ensures
            r == first_glyph_changes()(*a, *b),
        {
            if a.0.len() > 0 && b.0.len() > 0 {
                a.0[0].0 != b.0[0].0
            } else {
                (a.0.len() > 0) != (b.0.len() > 0)
            }
        };
    let mut sets: Vec<&[Ligature]> = Vec::new();
    let mut groups = split_when(subs, changes);
    let ghost all = ligature_sets(subs@);
    loop
        invariant
            groups.pred() == changes,
            forall|a: &Ligature, b: &Ligature| call_requires(changes, (a, b)),
            forall|a: &Ligature, b: &Ligature, r: bool| #[trigger]
                call_ensures(changes, (a, b), r) ==> r == first_glyph_changes()(*a, *b),
            all == ligature_sets(subs@),
            sets@.len() + ligature_sets(groups.rest()).len() == all.len(),
            forall|i: int| 0 <= i < sets@.len() ==> (#[trigger] sets@[i])@ == all[i],
            forall|i: int|
                0 <= i < ligature_sets(groups.rest()).len() ==> #[trigger] ligature_sets(
                    groups.rest(),
                )[i] == all[sets@.len() + i],
        ensures
            sets@.len() == all.len(),
            forall|i: int| 0 <= i < sets@.len() ==> (#[trigger] sets@[i])@ == all[i],
        decreases groups.rest().len(),
    {
        let ghost rest = groups.rest();
        assert forall|i: int| 0 <= i < rest.len() - 1 implies #[trigger] may_ask(
            groups.pred(),
            rest,
            i,
        ) by {}
        match groups.next() {
            None => {
                assert(ligature_sets(rest).len() == 0);
                break ;
            },
            Some(set) => {
                proof {
                    lemma_next_is_first_run(
                        changes,
                        first_glyph_changes(),
                        rest,
                        set@,
                        groups.rest(),
                    );
                    let tail = ligature_sets(groups.rest());
                    assert(ligature_sets(rest) == seq![set@] + tail);
                    assert forall|i: int| 0 <= i < tail.len() implies #[trigger] tail[i]
                        == all[sets@.len() + 1 + i] by {
                        assert(ligature_sets(rest)[i + 1] == tail[i]);
                    }
                    assert(ligature_sets(rest)[0] == set@);
                }
                sets.push(set);
            },
        }
    }
    sets
}

/// A coverage table.
pub enum Coverage {
    List(Vec<GlyphId>),
}

impl Coverage {
    /// The covered glyphs.
    pub open spec fn glyphs(&self) -> Seq<GlyphId> {
        match self {
            Coverage::List(glyph_ids) => glyph_ids@,
        }
    }

    pub fn write(&self, writer: &mut Vec<u8>)
        ensures
            final(writer)@ == old(writer)@ + coverage_bytes(self.glyphs()),
    {
        match self {
            Coverage::List(glyph_ids) => {
                write_u16(writer, 1);  // coverage format
                write_u16(writer, low16_of(glyph_ids.len()));
                write_glyph_list(glyph_ids, 0, writer);
                assert(glyph_ids@.skip(0) == glyph_ids@);
                assert(writer@ =~= old(writer)@ + coverage_bytes(self.glyphs()));
            },
        }
    }
}

/// Appends a ligature set to `writer`.
pub fn write_ligature_set(set: &[Ligature], writer: &mut Vec<u8>)
    requires
        patterns_not_empty(set@),
    ensures
        final(writer)@ == old(writer)@ + ligature_set_bytes(set@),
{
    let lig_count = low16_of(set.len());
    let offset = low16_of_u32(2 + (lig_count as u32) * 2);
    let mut ligset = SubtableBuffer::new(offset);
    write_u16(ligset.header(), lig_count);
    let ghost head = ligset.header_bytes();
    let ghost bias = ligature_set_bias(set@);
    let ghost items = ligature_items(set@);
    let mut i: usize = 0;
    while i < set.len()
        invariant
            i <= set.len(),
            patterns_not_empty(set@),
            bias == ligature_set_bias(set@),
            items == ligature_items(set@),
            ligset.bias() == bias,
            ligset.header_bytes() == head + offset_entries(bias, 0, items, i as nat).0,
            ligset.body_bytes() == offset_entries(bias, 0, items, i as nat).1,
        decreases set.len() - i,
    {
        let pattern = &set[i].0;
        let replacement = set[i].1;
        assert(set@[i as int].0@.len() >= 1);
        ligset.mark_offset();  // ligature offset
        let body = ligset.body();
        let ghost before = body@;
        write_u16(body, replacement.0);  // output glyph id
        write_u16(body, low16_of(pattern.len()));  // component count
        // note that we skip the first glyph in the ligature,
        // since it's encoded in the Coverage table
        write_glyph_list(pattern, 1, body);
        assert(body@ =~= before + ligature_record(set@[i as int]));
        i = i + 1;
        assert(ligset.header_bytes() =~= head + offset_entries(bias, 0, items, i as nat).0);
    }
    ligset.write(writer);
    assert(writer@ =~= old(writer)@ + ligature_set_bytes(set@));
}

/// What a lookup does.
pub enum LookupSubtable {
    /// Replaces patterns of glyphs with one glyph each. Ligatures with
    /// more components must be stored ahead of those with fewer components
    /// in order to be found.
    LigatureSubst(Vec<Ligature>),
}

impl LookupSubtable {
    /// The ligatures of the substitution.
    pub open spec fn ligatures(&self) -> Seq<Ligature> {
        match self {
            LookupSubtable::LigatureSubst(subs) => subs@,
        }
    }

    /// Every pattern holds at least its first glyph.
    pub open spec fn wf(&self) -> bool {
        patterns_not_empty(self.ligatures())
    }

    /// The subtable as it is written.
    pub open spec fn spec_bytes(&self) -> Seq<u8> {
        ligature_subst_bytes(self.ligatures())
    }

    /// Whether every pattern holds at least its first glyph.
    pub fn is_wf(&self) -> (r: bool)
        ensures
            r == self.wf(),
    {
        match self {
            Self::LigatureSubst(subs) => {
                let mut j: usize = 0;
                while j < subs.len()
                    invariant
                        j <= subs@.len(),
                        self.ligatures() == subs@,
                        forall|k: int| 0 <= k < j ==> (#[trigger] subs@[k]).0@.len() >= 1,
                    decreases subs.len() - j,
                {
                    if subs[j].0.len() == 0 {
                        assert(subs@[j as int].0@.len() == 0);
                        return false;
                    }
                    j = j + 1;
                }
                true
            },
        }
    }

    pub fn lookup_type(&self) -> (r: u16)
        ensures
            r == 4,
    {
        match self {
            Self::LigatureSubst(_) => 4,
        }
    }

    pub fn write(&self, writer: &mut Vec<u8>)
        requires
            self.wf(),
        ensures
            final(writer)@ == old(writer)@ + self.spec_bytes(),
    {
        match self {
            Self::LigatureSubst(subs) => {
                let groups = group_ligatures(subs.as_slice());
                let ghost sets = ligature_sets(subs@);
                proof {
                    lemma_ligature_sets_not_empty(subs@);
                }
                let ligature_set_count = low16_of(groups.len());
                // offset to coverage table
                let offset = low16_of_u32(6 + 2 * (ligature_set_count as u32));
                let mut subtable = SubtableBuffer::new(offset);
                write_u16(subtable.header(), 1);  // version
                subtable.mark_offset();  // offset to coverage table
                write_u16(subtable.header(), ligature_set_count);

                let mut glyph_ids: Vec<GlyphId> = Vec::new();
                let mut k: usize = 0;
                while k < groups.len()
                    invariant
                        k <= groups.len(),
                        sets == ligature_sets(subs@),
                        groups@.len() == sets.len(),
                        forall|i: int|
                            0 <= i < sets.len() ==> (#[trigger] groups@[i])@ == sets[i],
                        forall|i: int|
                            0 <= i < sets.len() ==> (#[trigger] sets[i]).len() >= 1
                                && patterns_not_empty(sets[i]),
                        glyph_ids@ == coverage_of(sets).take(k as int),
                    decreases groups.len() - k,
                {
                    let set = groups[k];
                    assert(set@ == sets[k as int]);
                    assert(sets[k as int].len() >= 1 && patterns_not_empty(sets[k as int]));
                    assert(set@[0].0@.len() >= 1);
                    glyph_ids.push(set[0].0[0]);
                    k = k + 1;
                    assert(glyph_ids@ =~= coverage_of(sets).take(k as int));
                }
                assert(coverage_of(sets).take(k as int) == coverage_of(sets));
                let coverage = Coverage::List(glyph_ids);
                coverage.write(subtable.body());

                let ghost head = subtable.header_bytes();
                let ghost start = subtable.body_bytes();
                let ghost bias = ligature_subst_bias(sets);
                let ghost items = set_items(sets);
                let mut i: usize = 0;
                while i < groups.len()
                    invariant
                        i <= groups.len(),
                        sets == ligature_sets(subs@),
                        groups@.len() == sets.len(),
                        forall|i: int|
                            0 <= i < sets.len() ==> (#[trigger] groups@[i])@ == sets[i],
                        forall|i: int|
                            0 <= i < sets.len() ==> (#[trigger] sets[i]).len() >= 1
                                && patterns_not_empty(sets[i]),
                        bias == ligature_subst_bias(sets),
                        items == set_items(sets),
                        subtable.bias() == bias,
                        subtable.header_bytes() == head + offset_entries(
                            bias,
                            start.len(),
                            items,
                            i as nat,
                        ).0,
                        subtable.body_bytes() == start + offset_entries(
                            bias,
                            start.len(),
                            items,
                            i as nat,
                        ).1,
                    decreases groups.len() - i,
                {
                    let set = groups[i];
                    assert(set@ == sets[i as int]);
                    assert(patterns_not_empty(sets[i as int]));
                    subtable.mark_offset();
                    write_ligature_set(set, subtable.body());
                    i = i + 1;
                    assert(subtable.header_bytes() =~= head + offset_entries(
                        bias,
                        start.len(),
                        items,
                        i as nat,
                    ).0);
                }
                subtable.write(writer);
                assert(writer@ =~= old(writer)@ + self.spec_bytes());
            },
        }
    }
}

/// A lookup: its kind, its flags, and what it does.
pub struct LookupTable {
    pub lookup_flag: u16,
    pub subtable: LookupSubtable,
}

impl LookupTable {
    /// The table: lookup type, flags, one subtable and its offset; then the
    /// subtable.
    pub open spec fn spec_bytes(&self) -> Seq<u8> {
        be_u16(4) + be_u16(self.lookup_flag) + be_u16(1) + be_u16(low16(8)) + self.subtable.spec_bytes()
    }

    pub fn write(&self, writer: &mut Vec<u8>)
        requires
            self.subtable.wf(),
        ensures
            final(writer)@ == old(writer)@ + self.spec_bytes(),
    {
        // A lookup of this font holds one subtable.
        let subtable_count: u16 = 1;
        let offset: u16 = 6 + 2 * subtable_count;
        let mut subtable = SubtableBuffer::new(offset);
        let lookup_type = self.subtable.lookup_type();
        write_u16(subtable.header(), lookup_type);
        write_u16(subtable.header(), self.lookup_flag);
        write_u16(subtable.header(), subtable_count);
        subtable.mark_offset();
        self.subtable.write(subtable.body());
        subtable.write(writer);
        assert(writer@ =~= old(writer)@ + self.spec_bytes());
    }
}

/// The lookups of the font.
pub struct LookupListTable {
    pub list: Vec<LookupTable>,
}

impl LookupListTable {
    /// The distance from the start of the table to its body.
    pub open spec fn bias(&self) -> u16 {
        low16(2 + low16(self.list@.len() as int) * 2)
    }

    /// The lookups as items of an offset list.
    pub open spec fn items(&self) -> Seq<(Seq<u8>, Seq<u8>)> {
        Seq::new(self.list@.len(), |i: int| (Seq::<u8>::empty(), self.list@[i].spec_bytes()))
    }

    /// Every lookup can be written.
    pub open spec fn wf(&self) -> bool {
        forall|i: int| 0 <= i < self.list@.len() ==> (#[trigger] self.list@[i]).subtable.wf()
    }

    /// The table: the number of lookups, an offset for each; then the
    /// lookups.
    pub open spec fn spec_bytes(&self) -> Seq<u8> {
        let (header, body) = offset_entries(self.bias(), 0, self.items(), self.list@.len());
        be_u16(low16(self.list@.len() as int)) + header + body
    }

    pub fn write(&self, writer: &mut Vec<u8>)
        requires
            self.wf(),
        ensures
            final(writer)@ == old(writer)@ + self.spec_bytes(),
    {
        let len = low16_of(self.list.len());
        let mut subtable = SubtableBuffer::new(low16_of_u32(2 + (len as u32) * 2));
        write_u16(subtable.header(), len);
        let ghost head = subtable.header_bytes();
        let mut i: usize = 0;
        while i < self.list.len()
            invariant
                i <= self.list.len(),
                self.wf(),
                subtable.bias() == self.bias(),
                subtable.header_bytes() == head + offset_entries(
                    self.bias(),
                    0,
                    self.items(),
                    i as nat,
                ).0,
                subtable.body_bytes() == offset_entries(self.bias(), 0, self.items(), i as nat).1,
            decreases self.list.len() - i,
        {
            assert(self.list@[i as int].subtable.wf());
            subtable.mark_offset();
            self.list[i].write(subtable.body());
            i = i + 1;
            assert(subtable.header_bytes() =~= head + offset_entries(
                self.bias(),
                0,
                self.items(),
                i as nat,
            ).0);
        }
        subtable.write(writer);
        assert(writer@ =~= old(writer)@ + self.spec_bytes());
    }
}

/// The glyph substitution table.
pub struct GSub {
    pub scripts: ScriptListTable,
    pub features: FeatureListTable,
    pub lookup: LookupListTable,
}

impl GSub {
    /// The table: version, the offsets of the three lists; then the script
    /// list, the feature list and the lookup list.
    pub open spec fn spec_bytes(&self) -> Seq<u8> {
        let scripts = self.scripts.spec_bytes();
        let features = self.features.spec_bytes();
        be_u32(0x00010000) + be_u16(low16(10)) + be_u16(low16(scripts.len() as int + 10)) + be_u16(
            low16(scripts.len() as int + features.len() as int + 10),
        ) + scripts + features + self.lookup.spec_bytes()
    }

    /// The table has the shape of a ligature table: one lookup, the one
    /// lookup of the one feature `liga` of the default script.
    pub open spec fn holds_shape(&self) -> bool {
        &&& self.lookup.list@.len() == 1
        &&& self.lookup.list@[0].lookup_flag == 0
        &&& self.features.features@.len() == 1
        &&& self.features.features@[0].tag@ == seq![0x6cu8, 0x69u8, 0x67u8, 0x61u8]
        &&& self.features.features@[0].lookup_list_indices@ == seq![0u16]
        &&& self.scripts.scripts@.len() == 1
        &&& self.scripts.scripts@[0].script_tag@ == seq![0x44u8, 0x46u8, 0x4cu8, 0x54u8]
        &&& self.scripts.scripts@[0].lang_sys@.len() == 0
        &&& self.scripts.scripts@[0].default matches Some(lang_sys) && lang_sys.reqd_feature_idx
            == 0 && lang_sys.feature_list_indices@.len() == 0
    }

    /// The ligatures are the one lookup of the one feature `liga` of the
    /// default script.
    pub open spec fn holds(&self, ligatures: Vec<Ligature>) -> bool {
        &&& self.holds_shape()
        &&& self.lookup.list@[0].subtable == LookupSubtable::LigatureSubst(ligatures)
    }

    /// The substitution table of `ligatures`, in the order given; none
    /// where there is no ligature.
    ///
    /// The list is taken as it is: ligatures whose patterns start with the
    /// same glyph have to stand together, the first glyphs in ascending
    /// order, and a longer pattern before a shorter one that it starts with.
    pub fn new(ligatures: Vec<Ligature>) -> (r: Option<Self>)
        ensures
            ligatures@.len() == 0 <==> r is None,
            r matches Some(gsub) ==> gsub.holds(ligatures),
    {
        if ligatures.len() == 0 {
            return None;
        }
        let mut list: Vec<LookupTable> = Vec::new();
        list.push(LookupTable { lookup_flag: 0, subtable: LookupSubtable::LigatureSubst(ligatures) });
        let mut lookup_list_indices: Vec<u16> = Vec::new();
        lookup_list_indices.push(0);
        let mut features: Vec<FeatureTable> = Vec::new();
        features.push(FeatureTable { tag: [0x6c, 0x69, 0x67, 0x61], lookup_list_indices });
        let mut scripts: Vec<ScriptTable> = Vec::new();
        scripts.push(
            ScriptTable {
                default: Some(LangSysTable { reqd_feature_idx: 0, feature_list_indices: Vec::new() }),
                script_tag: [0x44, 0x46, 0x4c, 0x54],
                lang_sys: Vec::new(),
            },
        );
        Some(
            GSub {
                scripts: ScriptListTable { scripts },
                features: FeatureListTable { features },
                lookup: LookupListTable { list },
            },
        )
    }

    /// Whether the table can be written: every ligature pattern holds at
    /// least its first glyph.
    pub fn is_wf(&self) -> (r: bool)
        ensures
            r == FontTable::wf(self),
    {
        let mut i: usize = 0;
        while i < self.lookup.list.len()
            invariant
                i <= self.lookup.list@.len(),
                forall|k: int| 0 <= k < i ==> (#[trigger] self.lookup.list@[k]).subtable.wf(),
            decreases self.lookup.list.len() - i,
        {
            if !self.lookup.list[i].subtable.is_wf() {
                assert(!self.lookup.list@[i as int].subtable.wf());
                return false;
            }
            i = i + 1;
        }
        true
    }

    /// Appends the table to `buf`.
    pub fn encode(&self, buf: &mut Vec<u8>)
        requires
            self.lookup.wf(),
        ensures
            final(buf)@ == old(buf)@ + self.spec_bytes(),
    {
        let mut subtable = SubtableBuffer::new(10);
        write_u32(subtable.header(), 0x00010000);  // version
        subtable.mark_offset();  // scripts offset
        self.scripts.write(subtable.body());
        subtable.mark_offset();  // features offset
        self.features.write(subtable.body());
        subtable.mark_offset();  // lookup offset
        self.lookup.write(subtable.body());
        subtable.write(buf);
        assert(buf@ =~= old(buf)@ + self.spec_bytes());
    }
}

impl FontTable for GSub {
    open spec fn spec_tag() -> Seq<u8> {
        seq![0x47u8, 0x53u8, 0x55u8, 0x42u8]
    }

    /// Every ligature pattern holds at least its first glyph.
    open spec fn wf(&self) -> bool {
        self.lookup.wf()
    }

    open spec fn table_bytes(&self) -> Seq<u8> {
        self.spec_bytes()
    }

    fn tag() -> (tag: [u8; 4]) {
        [0x47, 0x53, 0x55, 0x42]
    }

    fn write(&self, writer: &mut TableWriter) {
        let mut buf: Vec<u8> = Vec::new();
        self.encode(&mut buf);
        writer.write(buf.as_slice());
    }
}

/// `a` and `b` are the same ligatures: one by one the same pattern and the
/// same replacement.
pub open spec fn same_ligatures(a: Seq<Ligature>, b: Seq<Ligature>) -> bool {
    &&& a.len() == b.len()
    &&& forall|i: int| 0 <= i < a.len() ==> (#[trigger] a[i]).0@ == b[i].0@ && a[i].1 == b[i].1
}

/// The same ligatures start with runs of the same length.
pub proof fn lemma_run_len_agree(a: Seq<Ligature>, b: Seq<Ligature>)
    requires
        same_ligatures(a, b),
    ensures
        run_len(a, first_glyph_changes()) == run_len(b, first_glyph_changes()),
    decreases a.len(),
{
    if a.len() >= 1 {
        assert(a[0].0@ == b[0].0@);
    }
    if a.len() >= 2 {
        assert(a[1].0@ == b[1].0@);
        assert forall|i: int| 0 <= i < a.skip(1).len() implies (#[trigger] a.skip(1)[i]).0@
            == b.skip(1)[i].0@ && a.skip(1)[i].1 == b.skip(1)[i].1 by {
            assert(a[i + 1].0@ == b[i + 1].0@);
        }
        lemma_run_len_agree(a.skip(1), b.skip(1));
    }
}

/// The same ligatures fall into the same ligature sets.
pub proof fn lemma_ligature_sets_agree(a: Seq<Ligature>, b: Seq<Ligature>)
    requires
        same_ligatures(a, b),
    ensures
        ligature_sets(a).len() == ligature_sets(b).len(),
        forall|k: int|
            0 <= k < ligature_sets(a).len() ==> same_ligatures(
                #[trigger] ligature_sets(a)[k],
                ligature_sets(b)[k],
            ),
    decreases a.len(),
{
    let changes = first_glyph_changes();
    lemma_run_len_agree(a, b);
    let run = run_len(a, changes);
    if 1 <= run <= a.len() {
        let rest_a = a.skip(run as int);
        let rest_b = b.skip(run as int);
        assert forall|i: int| 0 <= i < rest_a.len() implies (#[trigger] rest_a[i]).0@
            == rest_b[i].0@ && rest_a[i].1 == rest_b[i].1 by {
            assert(a[i + run].0@ == b[i + run].0@);
        }
        lemma_ligature_sets_agree(rest_a, rest_b);
        let sets_a = ligature_sets(a);
        let sets_b = ligature_sets(b);
        assert forall|k: int| 0 <= k < sets_a.len() implies same_ligatures(
            #[trigger] sets_a[k],
            sets_b[k],
        ) by {
            if k == 0 {
                assert forall|i: int| 0 <= i < sets_a[0].len() implies (#[trigger] sets_a[0][i]).0@
                    == sets_b[0][i].0@ && sets_a[0][i].1 == sets_b[0][i].1 by {
                    assert(a[i].0@ == b[i].0@);
                }
            } else {
                assert(sets_a[k] == ligature_sets(rest_a)[k - 1]);
                assert(sets_b[k] == ligature_sets(rest_b)[k - 1]);
            }
        }
    }
}

/// The same ligatures make the same ligature set.
pub proof fn lemma_ligature_set_agree(a: Seq<Ligature>, b: Seq<Ligature>)
    requires
        same_ligatures(a, b),
    ensures
        ligature_set_bytes(a) == ligature_set_bytes(b),
{
    assert(ligature_items(a) =~= ligature_items(b)) by {
        assert forall|i: int| 0 <= i < a.len() implies ligature_items(a)[i] == ligature_items(
            b,
        )[i] by {
            assert(a[i].0@ == b[i].0@);
        }
    }
}

/// The same ligatures make the same ligature substitution.
pub proof fn lemma_ligature_subst_agree(a: Seq<Ligature>, b: Seq<Ligature>)
    requires
        same_ligatures(a, b),
    ensures
        ligature_subst_bytes(a) == ligature_subst_bytes(b),
{
    lemma_ligature_sets_agree(a, b);
    lemma_ligature_sets_partition(a);
    lemma_ligature_sets_partition(b);
    let sets_a = ligature_sets(a);
    let sets_b = ligature_sets(b);
    assert(coverage_of(sets_a) =~= coverage_of(sets_b)) by {
        assert forall|i: int| 0 <= i < sets_a.len() implies coverage_of(sets_a)[i] == coverage_of(
            sets_b,
        )[i] by {
            assert(same_ligatures(sets_a[i], sets_b[i]));
            assert(sets_a[i].len() >= 1);
            assert(sets_a[i][0].0@ == sets_b[i][0].0@);
        }
    }
    assert(set_items(sets_a) =~= set_items(sets_b)) by {
        assert forall|i: int| 0 <= i < sets_a.len() implies set_items(sets_a)[i] == set_items(
            sets_b,
        )[i] by {
            assert(same_ligatures(sets_a[i], sets_b[i]));
            lemma_ligature_set_agree(sets_a[i], sets_b[i]);
        }
    }
}

/// Lookup lists of one ligature lookup each, without flags, that hold the
/// same ligatures are the same.
proof fn lemma_lookup_list_agree(a: LookupListTable, b: LookupListTable)
    requires
        a.list@.len() == 1,
        b.list@.len() == 1,
        a.list@[0].lookup_flag == b.list@[0].lookup_flag,
        same_ligatures(a.list@[0].subtable.ligatures(), b.list@[0].subtable.ligatures()),
    ensures
        a.spec_bytes() == b.spec_bytes(),
{
    lemma_ligature_subst_agree(a.list@[0].subtable.ligatures(), b.list@[0].subtable.ligatures());
    assert(a.list@[0].spec_bytes() == b.list@[0].spec_bytes());
    assert(a.items() =~= b.items());
}

/// Feature lists of one feature each, with the same tag and the same
/// lookups, are the same.
proof fn lemma_feature_list_agree(a: FeatureListTable, b: FeatureListTable)
    requires
        a.features@.len() == 1,
        b.features@.len() == 1,
        a.features@[0].tag@ == b.features@[0].tag@,
        a.features@[0].lookup_list_indices@ == b.features@[0].lookup_list_indices@,
    ensures
        a.spec_bytes() == b.spec_bytes(),
{
    assert(a.features@[0].spec_bytes() == b.features@[0].spec_bytes());
    assert(a.items() =~= b.items());
}

/// Scripts without named languages, with the same default language system
/// that asks for no features by index, are the same.
proof fn lemma_script_agree(a: ScriptTable, b: ScriptTable)
    requires
        a.lang_sys@.len() == 0,
        b.lang_sys@.len() == 0,
        a.default matches Some(lang_sys) && lang_sys.feature_list_indices@.len() == 0,
        b.default matches Some(lang_sys) && lang_sys.feature_list_indices@.len() == 0,
        a.default->0.reqd_feature_idx == b.default->0.reqd_feature_idx,
    ensures
        a.spec_bytes() == b.spec_bytes(),
{
    assert(a.default->0.feature_list_indices@ =~= b.default->0.feature_list_indices@);
    assert(a.default->0.spec_bytes() == b.default->0.spec_bytes());
    assert(a.items() =~= b.items());
}

/// Script lists of one script each, with the same tag and the same bytes,
/// are the same.
proof fn lemma_script_list_agree(a: ScriptListTable, b: ScriptListTable)
    requires
        a.scripts@.len() == 1,
        b.scripts@.len() == 1,
        a.scripts@[0].script_tag@ == b.scripts@[0].script_tag@,
        a.scripts@[0].spec_bytes() == b.scripts@[0].spec_bytes(),
    ensures
        a.spec_bytes() == b.spec_bytes(),
{
    assert(a.items() =~= b.items());
}

/// Substitution tables of the shape of a ligature table that hold the same
/// ligatures are the same.
pub proof fn lemma_gsub_bytes_agree(a: GSub, b: GSub)
    requires
        a.holds_shape(),
        b.holds_shape(),
        same_ligatures(
            a.lookup.list@[0].subtable.ligatures(),
            b.lookup.list@[0].subtable.ligatures(),
        ),
    ensures
        a.spec_bytes() == b.spec_bytes(),
{
    lemma_lookup_list_agree(a.lookup, b.lookup);
    lemma_feature_list_agree(a.features, b.features);
    lemma_script_agree(a.scripts.scripts@[0], b.scripts.scripts@[0]);
    lemma_script_list_agree(a.scripts, b.scripts);
}

} // verus!
