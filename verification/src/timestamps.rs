//! What compiling twice gives: the same file, but for the time in the
//! font header.

use vstd::prelude::*;
use crate::compile::chars_of;
use crate::compile::default_names;
use crate::compile::font_bitmaps;
use crate::compile::pattern_of;
use crate::compile::sorted_glyphs;
use crate::font::data_start;
use crate::font::data_upto;
use crate::font::Font;
use crate::font::font_header;
use crate::font::font_image;
use crate::font::image_of;
use crate::font::lemma_image_of;
use crate::font::lemma_records_len;
use crate::font::records_upto;
use crate::font::TableImage;
use crate::tables::glyf::bitmaps;
use crate::tables::glyf::Glyph;
use crate::tables::glyf::glyph_offsets;
use crate::tables::glyf::is_glyph_of;
use crate::tables::head::DateTime;
use crate::tables::head::Head;
use crate::writeutils::pad4;
use crate::writeutils::table_checksum;
use crate::FontTable;

verus! {

/// What a font compiled from these glyphs and ligatures holds does not
/// depend on the time but for the two timestamps of the font header:
/// fonts compiled from the same input have the same tables but for the
/// font header, and the same font header but for the timestamps.
#[verifier::rlimit(30)]
pub proof fn lemma_compiled_tables_agree<'a>(
    a: Font,
    b: Font,
    width: usize,
    height: usize,
    missing_glyph: Seq<u8>,
    glyphs: Seq<(char, &'a [u8])>,
    ligatures: Seq<(&'a str, &'a [u8])>,
    now_a: DateTime,
    now_b: DateTime,
)
    requires
        a.compiled_from(width, height, missing_glyph, glyphs, ligatures, now_a),
        b.compiled_from(width, height, missing_glyph, glyphs, ligatures, now_b),
    ensures
        a.glyf.table_bytes() == b.glyf.table_bytes(),
        a.loca.table_bytes() == b.loca.table_bytes(),
        a.maxp == b.maxp,
        a.cmap.table_bytes() == b.cmap.table_bytes(),
        a.name.table_bytes() == b.name.table_bytes(),
        a.hmtx.table_bytes() == b.hmtx.table_bytes(),
        a.hhea == b.hhea,
        a.post.table_bytes() == b.post.table_bytes(),
        a.os2.table_bytes() == b.os2.table_bytes(),
        a.gsub is Some <==> b.gsub is Some,
        a.gsub is Some ==> a.gsub->0.table_bytes() == b.gsub->0.table_bytes(),
        a.head == (Head { created: now_a, modified: now_a, ..b.head }),
        a.head.bytes_before_dates() == b.head.bytes_before_dates(),
        a.head.bytes_after_dates() == b.head.bytes_after_dates(),
{
    let sorted = sorted_glyphs(glyphs);
    let chars = chars_of(sorted);
    let bitmaps = font_bitmaps(width, height, missing_glyph, sorted, ligatures);
    let ga = a.glyf.glyphs();
    let gb = b.glyf.glyphs();
    assert forall|i: int| 0 <= i < ga.len() implies (#[trigger] ga[i]).spec_bytes()
        == gb[i].spec_bytes() && ga[i].contours() == gb[i].contours() && ga[i].instructions()
        == gb[i].instructions() by {
        assert(is_glyph_of(ga[i], bitmaps[i]));
        assert(is_glyph_of(gb[i], bitmaps[i]));
    }
    crate::tables::glyf::lemma_glyf_bytes_agree(ga, gb);
    // locations
    assert(a.loca.offsets() =~= b.loca.offsets()) by {
        assert forall|i: int| 0 <= i <= ga.len() implies a.loca.offsets()[i]
            == b.loca.offsets()[i] by {
            assert forall|k: int| 0 <= k < ga.take(i).len() implies (#[trigger] ga.take(
                i,
            )[k]).spec_bytes() == gb.take(i)[k].spec_bytes() by {
                assert(ga[k].spec_bytes() == gb[k].spec_bytes());
            }
            crate::tables::glyf::lemma_glyf_bytes_agree(ga.take(i), gb.take(i));
            assert(a.loca.offsets()[i] == glyph_offsets(ga)[i]);
            assert(b.loca.offsets()[i] == glyph_offsets(gb)[i]);
        }
    }
    // maximum profile
    crate::tables::glyf::lemma_max_of_agree(
        ga,
        gb,
        |g: Glyph| crate::tables::glyf::point_total(g.contours()),
    );
    crate::tables::glyf::lemma_max_of_agree(ga, gb, |g: Glyph| g.contours().len());
    crate::tables::glyf::lemma_max_of_agree(ga, gb, |g: Glyph| g.instructions().len());
    // characters
    crate::tables::cmap::lemma_records_agree(a.cmap.records(), b.cmap.records(), 1);
    // names
    assert(crate::tables::name::same_names(a.name.records(), b.name.records())) by {
        let ra = a.name.records();
        let rb = b.name.records();
        let names = default_names();
        assert forall|i: int| 0 <= i < ra.len() implies (#[trigger] ra[i]).platform
            == rb[i].platform && ra[i].language_id == rb[i].language_id && ra[i].name_id
            == rb[i].name_id && ra[i].text@ == rb[i].text@ by {
            let k = i / 2;
            assert(ra[2 * k].name_id == names[k].0);
            assert(rb[2 * k].name_id == names[k].0);
        }
    }
    crate::tables::name::lemma_name_bytes_agree(a.name.records(), b.name.records());
    // ligatures
    if a.gsub is Some {
        let la = a.ligatures();
        let lb = b.ligatures();
        assert(crate::tables::gsub::same_ligatures(la, lb)) by {
            assert forall|i: int| 0 <= i < la.len() implies (#[trigger] la[i]).0@ == lb[i].0@
                && la[i].1 == lb[i].1 by {
                assert(la[i].0@ == pattern_of(chars, ligatures[i].0@));
                assert(lb[i].0@ == pattern_of(chars, ligatures[i].0@));
            }
        }
        crate::tables::gsub::lemma_gsub_bytes_agree(a.gsub->0, b.gsub->0);
    }
}

/// Compiling is a function of what is compiled and of the time: fonts
/// compiled from the same glyphs and ligatures at the same time are the
/// same file, byte for byte.
pub proof fn lemma_compiled_images_agree<'a>(
    a: Font,
    b: Font,
    width: usize,
    height: usize,
    missing_glyph: Seq<u8>,
    glyphs: Seq<(char, &'a [u8])>,
    ligatures: Seq<(&'a str, &'a [u8])>,
    now: DateTime,
)
    requires
        a.compiled_from(width, height, missing_glyph, glyphs, ligatures, now),
        b.compiled_from(width, height, missing_glyph, glyphs, ligatures, now),
    ensures
        a.spec_image() == b.spec_image(),
{
    lemma_compiled_tables_agree(
        a,
        b,
        width,
        height,
        missing_glyph,
        glyphs,
        ligatures,
        now,
        now,
    );
    reveal(Font::tables);
    reveal(Font::fixed_tables);
    reveal(image_of);
    assert(a.fixed_tables() =~= b.fixed_tables());
    assert(a.tables() =~= b.tables());
}

/// `a` and `b` are the same bytes but for those from `low` up to `high`.
pub open spec fn same_outside(a: Seq<u8>, b: Seq<u8>, low: int, high: int) -> bool {
    &&& a.len() == b.len()
    &&& forall|i: int| 0 <= i < a.len() && !(low <= i < high) ==> #[trigger] a[i] == b[i]
}

/// `a` and `b` are the same tables but that table `h` may differ in its
/// bytes from `low` up to `high`, without a change of its checksum.
pub open spec fn same_but_in(
    a: Seq<TableImage>,
    b: Seq<TableImage>,
    h: int,
    low: int,
    high: int,
) -> bool {
    &&& a.len() == b.len()
    &&& 0 <= h < a.len()
    &&& forall|i: int| 0 <= i < a.len() && i != h ==> #[trigger] a[i] == b[i]
    &&& a[h].0 == b[h].0
    &&& table_checksum(a[h].1) == table_checksum(b[h].1)
    &&& 0 <= low <= high <= a[h].1.len()
    &&& same_outside(a[h].1, b[h].1, low, high)
}

/// Where one table differs in some of its bytes, the data region differs
/// in these bytes at most.
pub proof fn lemma_data_same_outside(
    a: Seq<TableImage>,
    b: Seq<TableImage>,
    h: int,
    low: int,
    high: int,
    k: nat,
)
    requires
        same_but_in(a, b, h, low, high),
        k <= a.len(),
    ensures
        k <= h ==> data_upto(a, k) == data_upto(b, k),
        same_outside(
            data_upto(a, k),
            data_upto(b, k),
            data_upto(a, h as nat).len() + low,
            data_upto(a, h as nat).len() + high,
        ),
    decreases k,
{
    if k > 0 {
        lemma_data_same_outside(a, b, h, low, high, (k - 1) as nat);
        let da = data_upto(a, (k - 1) as nat);
        let db = data_upto(b, (k - 1) as nat);
        let pa = pad4(a[k - 1].1);
        let pb = pad4(b[k - 1].1);
        if k - 1 != h {
            assert(a[k - 1] == b[k - 1]);
        } else {
            assert(da == db);
            assert(pa.len() == pb.len());
            assert forall|i: int| 0 <= i < pa.len() && !(low <= i < high) implies pa[i]
                == pb[i] by {
                if i < a[h].1.len() {
                    assert(a[h].1[i] == b[h].1[i]);
                }
            }
        }
        let start = data_upto(a, h as nat).len();
        assert forall|i: int|
            0 <= i < (da + pa).len() && !(start + low <= i < start + high) implies #[trigger] (da
            + pa)[i] == (db + pb)[i] by {
            if i < da.len() {
                assert(da[i] == db[i]);
            } else {
                if k - 1 == h {
                    assert(pa[i - da.len()] == pb[i - da.len()]);
                }
            }
        }
        if k - 1 < h {
            lemma_data_len_grows(a, k, h as nat);
        }
    }
}

/// The data region grows with every table.
pub proof fn lemma_data_len_grows(tables: Seq<TableImage>, k: nat, m: nat)
    requires
        k <= m,
    ensures
        data_upto(tables, k).len() <= data_upto(tables, m).len(),
    decreases m,
{
    if k < m {
        lemma_data_len_grows(tables, k, (m - 1) as nat);
    }
}

/// Where one table differs in some of its bytes without a change of its
/// checksum, the directory is the same.
pub proof fn lemma_records_same(
    a: Seq<TableImage>,
    b: Seq<TableImage>,
    h: int,
    low: int,
    high: int,
    k: nat,
)
    requires
        same_but_in(a, b, h, low, high),
        k <= a.len(),
    ensures
        records_upto(a, k) == records_upto(b, k),
    decreases k,
{
    if k > 0 {
        lemma_records_same(a, b, h, low, high, (k - 1) as nat);
        lemma_data_same_outside(a, b, h, low, high, (k - 1) as nat);
        if k - 1 != h {
            assert(a[k - 1] == b[k - 1]);
        }
    }
}

/// Where one table differs in some of its bytes without a change of its
/// checksum, the font files differ in these bytes at most.
pub proof fn lemma_image_same_outside(
    a: Seq<TableImage>,
    b: Seq<TableImage>,
    h: int,
    low: int,
    high: int,
)
    requires
        same_but_in(a, b, h, low, high),
        forall|i: int| 0 <= i < a.len() ==> (#[trigger] a[i]).0.len() == 4,
    ensures
        same_outside(
            font_image(a),
            font_image(b),
            data_start(a) + data_upto(a, h as nat).len() + low,
            data_start(a) + data_upto(a, h as nat).len() + high,
        ),
{
    let n = a.len();
    lemma_records_same(a, b, h, low, high, n);
    lemma_data_same_outside(a, b, h, low, high, n);
    lemma_records_len(a, n);
    let front = font_header(n) + records_upto(a, n);
    assert(front.len() == data_start(a));
    let da = data_upto(a, n);
    let db = data_upto(b, n);
    let start = data_upto(a, h as nat).len();
    assert forall|i: int|
        0 <= i < font_image(a).len() && !(data_start(a) + start + low <= i < data_start(a) + start
            + high) implies #[trigger] font_image(a)[i] == font_image(b)[i] by {
        if i >= front.len() {
            assert(da[i - front.len()] == db[i - front.len()]);
        }
    }
}

/// Font headers that differ in their timestamps only are the same bytes
/// but for the sixteen bytes of the timestamps, which follow the first
/// twenty.
pub proof fn lemma_head_dates(a: Head, b: Head)
    requires
        a == (Head { created: a.created, modified: a.modified, ..b }),
    ensures
        same_outside(a.spec_bytes(), b.spec_bytes(), 20, 36),
        a.spec_bytes().len() >= 36,
{
    let before = a.bytes_before_dates();
    let after = a.bytes_after_dates();
    assert(before == b.bytes_before_dates());
    assert(after == b.bytes_after_dates());
    assert(before.len() == 20);
    let ha = a.spec_bytes();
    let hb = b.spec_bytes();
    assert forall|i: int| 0 <= i < ha.len() && !(20 <= i < 36) implies #[trigger] ha[i]
        == hb[i] by {
        if i < 20 {
            assert(ha[i] == before[i]);
            assert(hb[i] == before[i]);
        } else {
            assert(ha[i] == after[i - 36]);
            assert(hb[i] == after[i - 36]);
        }
    }
}

/// Fonts whose tables are the same but for the timestamps of the font
/// header, which leave its checksum the same, have the same list of tables
/// but for these sixteen bytes.
#[verifier::rlimit(30)]
pub proof fn lemma_tables_same_but_dates(a: Font, b: Font)
    requires
        image_of(a.os2) == image_of(b.os2),
        image_of(a.cmap) == image_of(b.cmap),
        image_of(a.glyf) == image_of(b.glyf),
        image_of(a.hhea) == image_of(b.hhea),
        image_of(a.hmtx) == image_of(b.hmtx),
        image_of(a.loca) == image_of(b.loca),
        image_of(a.maxp) == image_of(b.maxp),
        image_of(a.name) == image_of(b.name),
        image_of(a.post) == image_of(b.post),
        a.gsub is Some <==> b.gsub is Some,
        a.gsub is Some ==> image_of(a.gsub->0) == image_of(b.gsub->0),
        a.head == (Head { created: a.head.created, modified: a.head.modified, ..b.head }),
        table_checksum(a.head.table_bytes()) == table_checksum(b.head.table_bytes()),
    ensures
        same_but_in(a.tables(), b.tables(), a.head_index(), 20, 36),
{
    a.lemma_table_list();
    b.lemma_table_list();
    let ta = a.tables();
    let tb = b.tables();
    let h = a.head_index();
    let first = h - 3;
    assert forall|i: int| 0 <= i < ta.len() && i != h implies #[trigger] ta[i] == tb[i] by {
        if i < first {
            assert(ta[0] == image_of(a.gsub->0));
            assert(tb[0] == image_of(b.gsub->0));
        }
        if i == first + 0 {
            assert(ta[first + 0] == image_of(a.os2));
            assert(tb[first + 0] == image_of(b.os2));
        }
        if i == first + 1 {
            assert(ta[first + 1] == image_of(a.cmap));
            assert(tb[first + 1] == image_of(b.cmap));
        }
        if i == first + 2 {
            assert(ta[first + 2] == image_of(a.glyf));
            assert(tb[first + 2] == image_of(b.glyf));
        }
        if i == first + 4 {
            assert(ta[first + 4] == image_of(a.hhea));
            assert(tb[first + 4] == image_of(b.hhea));
        }
        if i == first + 5 {
            assert(ta[first + 5] == image_of(a.hmtx));
            assert(tb[first + 5] == image_of(b.hmtx));
        }
        if i == first + 6 {
            assert(ta[first + 6] == image_of(a.loca));
            assert(tb[first + 6] == image_of(b.loca));
        }
        if i == first + 7 {
            assert(ta[first + 7] == image_of(a.maxp));
            assert(tb[first + 7] == image_of(b.maxp));
        }
        if i == first + 8 {
            assert(ta[first + 8] == image_of(a.name));
            assert(tb[first + 8] == image_of(b.name));
        }
        if i == first + 9 {
            assert(ta[first + 9] == image_of(a.post));
            assert(tb[first + 9] == image_of(b.post));
        }
    }
    assert(ta[first + 3] == image_of(a.head));
    assert(tb[first + 3] == image_of(b.head));
    lemma_image_of(a.head);
    lemma_image_of(b.head);
    lemma_head_dates(a.head, b.head);
    assert(a.head.table_bytes() == a.head.spec_bytes());
    assert(b.head.table_bytes() == b.head.spec_bytes());
}

/// Compiling the same glyphs and ligatures twice gives the same file but
/// for the sixteen bytes of the two timestamps of the font header,
/// whenever the timestamps leave the checksum of the font header the same.
pub proof fn lemma_compiled_images_differ_in_dates<'a>(
    a: Font,
    b: Font,
    width: usize,
    height: usize,
    missing_glyph: Seq<u8>,
    glyphs: Seq<(char, &'a [u8])>,
    ligatures: Seq<(&'a str, &'a [u8])>,
    now_a: DateTime,
    now_b: DateTime,
)
    requires
        a.compiled_from(width, height, missing_glyph, glyphs, ligatures, now_a),
        b.compiled_from(width, height, missing_glyph, glyphs, ligatures, now_b),
        table_checksum(a.head.table_bytes()) == table_checksum(b.head.table_bytes()),
    ensures
        a.dates_offset() == b.dates_offset(),
        same_outside(
            a.spec_image(),
            b.spec_image(),
            a.dates_offset() as int,
            a.dates_offset() as int + 16,
        ),
{
    lemma_compiled_tables_agree(
        a,
        b,
        width,
        height,
        missing_glyph,
        glyphs,
        ligatures,
        now_a,
        now_b,
    );
    lemma_image_of(a.os2);
    lemma_image_of(b.os2);
    lemma_image_of(a.cmap);
    lemma_image_of(b.cmap);
    lemma_image_of(a.glyf);
    lemma_image_of(b.glyf);
    lemma_image_of(a.hhea);
    lemma_image_of(b.hhea);
    lemma_image_of(a.hmtx);
    lemma_image_of(b.hmtx);
    lemma_image_of(a.loca);
    lemma_image_of(b.loca);
    lemma_image_of(a.maxp);
    lemma_image_of(b.maxp);
    lemma_image_of(a.name);
    lemma_image_of(b.name);
    lemma_image_of(a.post);
    lemma_image_of(b.post);
    if a.gsub is Some {
        lemma_image_of(a.gsub->0);
        lemma_image_of(b.gsub->0);
    }
    lemma_tables_same_but_dates(a, b);
    a.lemma_table_list();
    let h = a.head_index();
    lemma_image_same_outside(a.tables(), b.tables(), h, 20, 36);
    lemma_data_same_outside(a.tables(), b.tables(), h, 20, 36, h as nat);
}

} // verus!
