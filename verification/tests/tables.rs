use alphgen::tables::head::Head;
use alphgen::tables::hhea::HHea;
use alphgen::tables::hmtx::HMtx;
use alphgen::tables::loca::Loca;
use alphgen::tables::maxp::MaxP;
use alphgen::tables::name::Name;
use alphgen::tables::os2::Os2;
use alphgen::tables::post::to_macintosh;
use alphgen::tables::post::to_pascal_string;
use alphgen::tables::post::GlyphName;
use alphgen::tables::post::Post;
use alphgen::tables::post::PostFormat;
use alphgen::writeutils::TableWriter;
use alphgen::FontTable;
use alphgen::GlyphId;
use alphgen::Rect;

fn written<T: FontTable>(table: &T) -> Vec<u8> {
    let mut writer = TableWriter::new(Vec::new());
    table.write(&mut writer);
    let (mut bytes, _, length) = writer.finalize();
    bytes.truncate(length as usize);
    bytes
}

#[test]
fn rect_is_four_signed_bounds() {
    let mut out = vec![7];
    Rect { x_min: -1, y_min: 2, x_max: 0x1234, y_max: i16::MIN }.write(&mut out);
    assert_eq!(out, vec![7, 0xff, 0xff, 0x00, 0x02, 0x12, 0x34, 0x80, 0x00]);
}

#[test]
fn font_header_table() {
    let mut head = Head::new(0x0102030405060708);
    assert_eq!(head.created, 0x0102030405060708);
    assert_eq!(head.modified, 0x0102030405060708);
    assert_eq!(head.index_to_loc_format, 1);
    let expected: Vec<u8> = vec![
        0x00, 0x01, 0x00, 0x00, 0x00, 0x01, 0x00, 0x00, 0x00, 0x00, 0x00, 0x00,
        0x5f, 0x0f, 0x3c, 0xf5, 0x00, 0x08, 0x00, 0x10, 0x01, 0x02, 0x03, 0x04,
        0x05, 0x06, 0x07, 0x08, 0x01, 0x02, 0x03, 0x04, 0x05, 0x06, 0x07, 0x08,
        0x00, 0x00, 0x00, 0x00, 0x00, 0x08, 0x00, 0x08, 0x00, 0x00, 0x00, 0x08,
        0x00, 0x01, 0x00, 0x01, 0x00, 0x00, 0x00, 0x00,
    ];
    assert_eq!(written(&head), expected);
    assert_eq!(Head::tag(), *b"head");
    head.created = -1;
    head.modified = i64::MIN;
    let bytes = written(&head);
    assert_eq!(&bytes[20..28], &[0xff; 8]);
    assert_eq!(&bytes[28..36], &[0x80, 0, 0, 0, 0, 0, 0, 0]);
    assert_eq!(&bytes[..20], &expected[..20]);
    assert_eq!(&bytes[36..], &expected[36..]);
}

#[test]
fn horizontal_header_table() {
    let mut hhea = HHea::new();
    assert_eq!(hhea.num_of_long_hor_metrics, 0);
    hhea.num_of_long_hor_metrics = 0x0203;
    hhea.descent = -3;
    let expected: Vec<u8> = vec![
        0x00, 0x01, 0x00, 0x00, 0x00, 0x00, 0xff, 0xfd, 0x00, 0x00, 0x00, 0x08, 0x00, 0x00,
        0x00, 0x08, 0x00, 0x10, 0x00, 0x01, 0x00, 0x00, 0x00, 0x00, 0x00, 0x00, 0x00, 0x00,
        0x00, 0x00, 0x00, 0x00, 0x00, 0x00, 0x02, 0x03,
    ];
    assert_eq!(written(&hhea), expected);
    assert_eq!(HHea::tag(), *b"hhea");
}

#[test]
fn maximum_profile_table() {
    let maxp = MaxP {
        version: 0x00010000,
        num_glyphs: 1,
        max_points: 2,
        max_contours: 3,
        max_component_points: 4,
        max_component_contours: 5,
        max_zones: 6,
        max_twilight_points: 7,
        max_storage: 8,
        max_function_defs: 9,
        max_instruction_defs: 10,
        max_stack_elements: 11,
        max_size_of_instructions: 12,
        max_component_elements: 13,
        max_component_depth: 0x0e0f,
    };
    let expected: Vec<u8> = vec![
        0, 1, 0, 0, 0, 1, 0, 2, 0, 3, 0, 4, 0, 5, 0, 6, 0, 7, 0, 8, 0, 9, 0, 10, 0, 11, 0, 12, 0,
        13, 0x0e, 0x0f,
    ];
    assert_eq!(written(&maxp), expected);
    assert_eq!(MaxP::tag(), *b"maxp");
}

#[test]
fn horizontal_metrics_of_a_monospaced_font() {
    let hmtx = HMtx::monospace(0x0102, vec![1, -2, 3]);
    assert_eq!(hmtx.len(), 3);
    assert_eq!(hmtx.num_of_long_hor_metrics(), 1);
    assert_eq!(written(&hmtx), vec![0x01, 0x02, 0x00, 0x01, 0xff, 0xfe, 0x00, 0x03]);
    let one = HMtx::monospace(8, vec![0]);
    assert_eq!(one.num_of_long_hor_metrics(), 1);
    assert_eq!(written(&one), vec![0, 8, 0, 0]);
    assert_eq!(HMtx::tag(), *b"hmtx");
}

#[test]
fn location_table_short_and_long() {
    let short = Loca::from(vec![0, 0x10, 0xffff]);
    assert!(!short.needs_long());
    assert!(short.is_wf());
    assert_eq!(written(&short), vec![0, 0, 0, 0x10, 0xff, 0xff]);
    let long = Loca::from(vec![0, 0x10, 0x1_0000]);
    assert!(long.needs_long());
    assert_eq!(written(&long), vec![0, 0, 0, 0, 0, 0, 0, 0x10, 0, 1, 0, 0]);
    let empty = Loca::from(Vec::new());
    assert!(!empty.needs_long());
    assert_eq!(written(&empty), Vec::<u8>::new());
    // the largest offset decides, wherever it stands
    let odd = Loca::from(vec![0x1_0001, 2]);
    assert!(odd.needs_long());
    assert_eq!(written(&odd), vec![0, 1, 0, 1, 0, 0, 0, 2]);
    assert_eq!(Loca::tag(), *b"loca");
}

#[test]
fn naming_table_of_two_names() {
    let mut name = Name::new();
    assert_eq!(name.len(), 0);
    assert_eq!(written(&name), vec![0, 0, 0, 0, 0, 6]);
    name.push(1, "A\u{e9}");
    name.push(0, "\u{1f600}");
    assert_eq!(name.len(), 4);
    // Macintosh before Windows, and by name id
    let expected: Vec<u8> = vec![
        0x00, 0x00, 0x00, 0x04, 0x00, 0x36, 0x00, 0x01, 0x00, 0x00, 0x00, 0x00,
        0x00, 0x00, 0x00, 0x04, 0x00, 0x00, 0x00, 0x01, 0x00, 0x00, 0x00, 0x00,
        0x00, 0x01, 0x00, 0x03, 0x00, 0x04, 0x00, 0x03, 0x00, 0x01, 0x04, 0x09,
        0x00, 0x00, 0x00, 0x04, 0x00, 0x07, 0x00, 0x03, 0x00, 0x01, 0x04, 0x09,
        0x00, 0x01, 0x00, 0x04, 0x00, 0x0b, 0xf0, 0x9f, 0x98, 0x80, 0x41, 0xc3,
        0xa9, 0xd8, 0x3d, 0xde, 0x00, 0x00, 0x41, 0x00, 0xe9,
    ];
    assert_eq!(written(&name), expected);
    assert_eq!(Name::tag(), *b"name");
}

#[test]
fn os2_table_of_a_regular_font() {
    let os2 = Os2::default();
    let expected: Vec<u8> = vec![
        0x00, 0x05, 0x00, 0x08, 0x01, 0x90, 0x00, 0x05, 0x00, 0x00, 0x00, 0x08,
        0x00, 0x08, 0x00, 0x00, 0x00, 0x00, 0x00, 0x08, 0x00, 0x08, 0x00, 0x00,
        0x00, 0x00, 0x00, 0x01, 0x00, 0x04, 0x00, 0x00, 0x00, 0x00, 0x00, 0x00,
        0x00, 0x00, 0x00, 0x00, 0x00, 0x00, 0x00, 0x00, 0x00, 0x00, 0x00, 0x00,
        0x00, 0x00, 0x00, 0x00, 0x00, 0x00, 0x00, 0x00, 0x00, 0x00, 0x20, 0x20,
        0x20, 0x20, 0x00, 0x00, 0x00, 0x00, 0x00, 0x80, 0x00, 0x00, 0x00, 0x00,
        0x00, 0x00, 0x00, 0x08, 0x00, 0x00, 0x00, 0x00, 0x00, 0x00, 0x00, 0x00,
        0x00, 0x00, 0x00, 0x05, 0x00, 0x06, 0x00, 0x00, 0x00, 0x20, 0x00, 0x02,
        0x00, 0x00, 0xff, 0xff,
    ];
    assert_eq!(written(&os2), expected);
    assert_eq!(Os2::tag(), *b"OS/2");
}

#[test]
fn os2_table_with_ranges() {
    let Os2::Version5(mut fields) = Os2::default();
    fields.x_avg_char_width = -8;
    fields.panose = [1, 2, 3, 4, 5, 6, 7, 8, 9, 10];
    fields.ul_unicode_range = 0x0102030405060708090a0b0c0d0e0f10;
    fields.ach_vend_id = *b"ABCD";
    fields.ul_code_page_range = 0x1112131415161718;
    let expected: Vec<u8> = vec![
        0x00, 0x05, 0xff, 0xf8, 0x01, 0x90, 0x00, 0x05, 0x00, 0x00, 0x00, 0x08,
        0x00, 0x08, 0x00, 0x00, 0x00, 0x00, 0x00, 0x08, 0x00, 0x08, 0x00, 0x00,
        0x00, 0x00, 0x00, 0x01, 0x00, 0x04, 0x00, 0x00, 0x01, 0x02, 0x03, 0x04,
        0x05, 0x06, 0x07, 0x08, 0x09, 0x0a, 0x01, 0x02, 0x03, 0x04, 0x05, 0x06,
        0x07, 0x08, 0x09, 0x0a, 0x0b, 0x0c, 0x0d, 0x0e, 0x0f, 0x10, 0x41, 0x42,
        0x43, 0x44, 0x00, 0x00, 0x00, 0x00, 0x00, 0x80, 0x00, 0x00, 0x00, 0x00,
        0x00, 0x00, 0x00, 0x08, 0x00, 0x00, 0x11, 0x12, 0x13, 0x14, 0x15, 0x16,
        0x17, 0x18, 0x00, 0x05, 0x00, 0x06, 0x00, 0x00, 0x00, 0x20, 0x00, 0x02,
        0x00, 0x00, 0xff, 0xff,
    ];
    assert_eq!(written(&Os2::Version5(fields)), expected);
}

#[test]
fn standard_glyph_names() {
    assert_eq!(to_macintosh(' '), Some(GlyphId(3)));
    assert_eq!(to_macintosh('A'), Some(GlyphId(36)));
    assert_eq!(to_macintosh('a'), Some(GlyphId(68)));
    assert_eq!(to_macintosh('~'), Some(GlyphId(97)));
    assert_eq!(to_macintosh('\u{c4}'), Some(GlyphId(98)));
    assert_eq!(to_macintosh('\u{131}'), Some(GlyphId(216)));
    // found where it stands first
    assert_eq!(to_macintosh('\u{e5}'), Some(GlyphId(110)));
    assert_eq!(to_macintosh('\u{20ac}'), None);
    assert_eq!(to_macintosh('\u{0}'), None);
}

#[test]
fn postscript_table_of_a_and_b() {
    let post = Post::from_ascii_order(&['a', 'b', '\u{20ac}'], 5);
    let expected: Vec<u8> = vec![
        0x00, 0x02, 0x00, 0x00, 0x00, 0x00, 0x00, 0x00, 0x00, 0x00, 0x00, 0x01,
        0x00, 0x00, 0x00, 0x01, 0x00, 0x00, 0x00, 0x00, 0x00, 0x00, 0x00, 0x00,
        0x00, 0x00, 0x00, 0x00, 0x00, 0x00, 0x00, 0x00, 0x00, 0x05, 0x00, 0x00,
        0x00, 0x44, 0x00, 0x45, 0x00, 0x00, 0x00, 0x00,
    ];
    assert_eq!(written(&post), expected);
    assert_eq!(Post::tag(), *b"post");
}

#[test]
fn postscript_table_with_names_of_its_own() {
    let mut post = Post::from_ascii_order(&[], 1);
    post.is_monospace = false;
    post.format = PostFormat::Format2 {
        names: vec![
            GlyphName::Custom("ab".to_string()),
            GlyphName::Preset(GlyphId(7)),
            GlyphName::Custom("\u{1f600}".to_string()),
        ],
    };
    let bytes = written(&post);
    assert_eq!(&bytes[12..16], &[0, 0, 0, 0]);
    assert_eq!(
        &bytes[32..],
        &[
            0, 3, 0x01, 0x02, 0, 7, 0x01, 0x02, 0, 2, 0, 0x61, 0, 0x62, 0, 2, 0xd8, 0x3d, 0xde,
            0x00
        ]
    );
    assert_eq!(to_pascal_string(""), vec![0, 0]);
    assert_eq!(to_pascal_string("A"), vec![0, 1, 0, 0x41]);
}
