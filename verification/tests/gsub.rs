use alphgen::tables::gsub::group_ligatures;
use alphgen::tables::gsub::write_ligature_set;
use alphgen::tables::gsub::GSub;
use alphgen::tables::gsub::Ligature;
use alphgen::writeutils::TableWriter;
use alphgen::FontTable;
use alphgen::GlyphId;

fn ligature(pattern: &[u16], replacement: u16) -> Ligature {
    (pattern.iter().map(|&g| GlyphId(g)).collect(), GlyphId(replacement))
}

fn table_bytes(gsub: &GSub) -> Vec<u8> {
    assert!(gsub.is_wf());
    let mut writer = TableWriter::new(Vec::new());
    gsub.write(&mut writer);
    let (mut bytes, _, length) = writer.finalize();
    bytes.truncate(length as usize);
    let mut encoded = Vec::new();
    gsub.encode(&mut encoded);
    assert_eq!(bytes, encoded);
    bytes
}

#[test]
fn ligatures_are_grouped_by_first_glyph() {
    // first glyphs A, A, B
    let list = vec![ligature(&[5, 6, 7], 20), ligature(&[5, 8], 21), ligature(&[9, 5], 22)];
    let sets = group_ligatures(&list);
    assert_eq!(sets.len(), 2);
    assert_eq!(sets[0], &list[..2]);
    assert_eq!(sets[1], &list[2..]);
}

#[test]
fn ligature_sets_keep_the_order_of_the_list() {
    assert_eq!(group_ligatures(&[]).len(), 0);
    // the same first glyph again later starts a set of its own
    let list = vec![
        ligature(&[5, 1], 20),
        ligature(&[9, 1], 21),
        ligature(&[5, 2], 22),
        ligature(&[5, 3], 23),
        ligature(&[5], 24),
    ];
    let sets = group_ligatures(&list);
    assert_eq!(sets.len(), 3);
    assert_eq!(sets[0], &list[..1]);
    assert_eq!(sets[1], &list[1..2]);
    assert_eq!(sets[2], &list[2..]);
    assert_eq!(sets.concat(), list);
}

#[test]
fn no_ligatures_no_table() {
    assert!(GSub::new(Vec::new()).is_none());
    assert!(GSub::new(vec![ligature(&[1, 2], 3)]).is_some());
}

#[test]
fn substitution_table_of_one_ligature() {
    let gsub = GSub::new(vec![ligature(&[1, 2], 3)]).unwrap();
    let expected: Vec<u8> = vec![
        0x00, 0x01, 0x00, 0x00, 0x00, 0x0a, 0x00, 0x1c, 0x00, 0x2a, 0x00, 0x01,
        0x44, 0x46, 0x4c, 0x54, 0x00, 0x08, 0x00, 0x04, 0x00, 0x00, 0x00, 0x00,
        0x00, 0x00, 0x00, 0x00, 0x00, 0x01, 0x6c, 0x69, 0x67, 0x61, 0x00, 0x08,
        0x00, 0x00, 0x00, 0x01, 0x00, 0x00, 0x00, 0x01, 0x00, 0x04, 0x00, 0x04,
        0x00, 0x00, 0x00, 0x01, 0x00, 0x08, 0x00, 0x01, 0x00, 0x08, 0x00, 0x01,
        0x00, 0x0e, 0x00, 0x01, 0x00, 0x01, 0x00, 0x01, 0x00, 0x01, 0x00, 0x04,
        0x00, 0x03, 0x00, 0x02, 0x00, 0x02,
    ];
    assert_eq!(table_bytes(&gsub), expected);
    assert_eq!(GSub::tag(), *b"GSUB");
}

#[test]
fn substitution_table_of_three_sets() {
    let gsub = GSub::new(vec![
        ligature(&[1, 2, 3], 10),
        ligature(&[1, 2], 11),
        ligature(&[4, 5], 12),
        ligature(&[7, 1], 13),
        ligature(&[7, 2, 2, 2], 14),
    ])
    .unwrap();
    let expected: Vec<u8> = vec![
        0x00, 0x01, 0x00, 0x00, 0x00, 0x0a, 0x00, 0x1c, 0x00, 0x2a, 0x00, 0x01,
        0x44, 0x46, 0x4c, 0x54, 0x00, 0x08, 0x00, 0x04, 0x00, 0x00, 0x00, 0x00,
        0x00, 0x00, 0x00, 0x00, 0x00, 0x01, 0x6c, 0x69, 0x67, 0x61, 0x00, 0x08,
        0x00, 0x00, 0x00, 0x01, 0x00, 0x00, 0x00, 0x01, 0x00, 0x04, 0x00, 0x04,
        0x00, 0x00, 0x00, 0x01, 0x00, 0x08, 0x00, 0x01, 0x00, 0x0c, 0x00, 0x03,
        0x00, 0x16, 0x00, 0x2a, 0x00, 0x34, 0x00, 0x01, 0x00, 0x03, 0x00, 0x01,
        0x00, 0x04, 0x00, 0x07, 0x00, 0x02, 0x00, 0x06, 0x00, 0x0e, 0x00, 0x0a,
        0x00, 0x03, 0x00, 0x02, 0x00, 0x03, 0x00, 0x0b, 0x00, 0x02, 0x00, 0x02,
        0x00, 0x01, 0x00, 0x04, 0x00, 0x0c, 0x00, 0x02, 0x00, 0x05, 0x00, 0x02,
        0x00, 0x06, 0x00, 0x0c, 0x00, 0x0d, 0x00, 0x02, 0x00, 0x01, 0x00, 0x0e,
        0x00, 0x04, 0x00, 0x02, 0x00, 0x02, 0x00, 0x02,
    ];
    assert_eq!(table_bytes(&gsub), expected);
}

#[test]
fn ligature_set_with_offsets() {
    let set = vec![ligature(&[1, 2, 3], 10), ligature(&[1, 2], 11)];
    let mut out = vec![0xee];
    write_ligature_set(&set, &mut out);
    let expected: Vec<u8> = vec![
        0xee,
        0x00, 0x02, 0x00, 0x06, 0x00, 0x0e, 0x00, 0x0a, 0x00, 0x03, 0x00, 0x02,
        0x00, 0x03, 0x00, 0x0b, 0x00, 0x02, 0x00, 0x02,
    ];
    assert_eq!(out, expected);
}

#[test]
fn a_pattern_without_glyphs_cannot_be_written() {
    let gsub = GSub::new(vec![ligature(&[1, 2], 3), ligature(&[], 4)]).unwrap();
    assert!(!gsub.is_wf());
}
