use alphgen::error::FontError;
use alphgen::tables::glyf::compress_flags;
use alphgen::tables::glyf::into_contours;
use alphgen::tables::glyf::Coordinate;
use alphgen::tables::glyf::Glyf;
use alphgen::tables::glyf::Glyph;
use alphgen::tables::maxp::MaxP;
use alphgen::sprite::Sprite;
use alphgen::writeutils::TableWriter;
use alphgen::FontTable;
use alphgen::Rect;

fn point(x: i64, y: i64) -> Coordinate {
    Coordinate { x, y, on_curve: true }
}

fn contour(points: &[(i64, i64)]) -> Vec<Coordinate> {
    points.iter().map(|&(x, y)| point(x, y)).collect()
}

fn encoded(glyph: &Glyph) -> Vec<u8> {
    let mut out = vec![0xee];
    glyph.write(&mut out);
    assert_eq!(out[0], 0xee);
    out.split_off(1)
}

#[test]
fn compress_flags_keeps_single_flags() {
    assert_eq!(compress_flags(&[]), Vec::<u8>::new());
    assert_eq!(compress_flags(&[0x01]), vec![0x01]);
    assert_eq!(compress_flags(&[0x01, 0x02, 0x01]), vec![0x01, 0x02, 0x01]);
}

#[test]
fn compress_flags_merges_runs() {
    assert_eq!(compress_flags(&[0x01, 0x01]), vec![0x09, 0x01]);
    assert_eq!(compress_flags(&[0x01, 0x01, 0x01]), vec![0x09, 0x02]);
    assert_eq!(
        compress_flags(&[0x01, 0x01, 0x02, 0x02, 0x02, 0x33]),
        vec![0x09, 0x01, 0x0a, 0x02, 0x33]
    );
    // a flag that has the repeat bit keeps it
    assert_eq!(compress_flags(&[0x08, 0x08]), vec![0x08, 0x01]);
}

#[test]
fn compress_flags_splits_long_runs() {
    assert_eq!(compress_flags(&[0x01; 255]), vec![0x09, 254]);
    assert_eq!(compress_flags(&[0x01; 256]), vec![0x09, 255]);
    assert_eq!(compress_flags(&[0x01; 257]), vec![0x09, 255, 0x01]);
    assert_eq!(compress_flags(&[0x01; 258]), vec![0x09, 255, 0x09, 0x01]);
    assert_eq!(compress_flags(&[0x01; 512]), vec![0x09, 255, 0x09, 255]);
    assert_eq!(compress_flags(&[0x01; 513]), vec![0x09, 255, 0x09, 255, 0x01]);
    let mut flags = vec![0x21; 300];
    flags.push(0x01);
    assert_eq!(compress_flags(&flags), vec![0x29, 255, 0x29, 43, 0x01]);
}

#[test]
fn glyph_of_a_rectangle() {
    let rect = Rect { x_min: 0, y_min: 0, x_max: 8, y_max: 8 };
    let glyph = Glyph::new(rect, vec![contour(&[(0, 1), (1, 1), (1, 3), (0, 3)])]).unwrap();
    let expected: Vec<u8> = vec![
        0x00, 0x01, 0x00, 0x00, 0x00, 0x00, 0x00, 0x08, 0x00, 0x08, 0x00, 0x03,
        0x00, 0x00, 0x35, 0x33, 0x35, 0x23, 0x01, 0x01, 0x01, 0x02,
    ];
    assert_eq!(encoded(&glyph), expected);
    assert_eq!(glyph.point_count(), 4);
    assert_eq!(glyph.contour_count(), 1);
    assert_eq!(glyph.component_point_count(), 0);
    assert_eq!(glyph.component_contour_count(), 0);
    assert_eq!(glyph.instruction_byte_count(), 0);
    assert!(glyph.is_wf());
}

#[test]
fn glyph_with_long_deltas_and_padding() {
    // deltas of 300 and -1, a second contour, negative bounds
    let rect = Rect { x_min: -1, y_min: -2, x_max: 300, y_max: 400 };
    let glyph =
        Glyph::new(rect, vec![contour(&[(0, 0), (300, 0), (300, -1)]), contour(&[(5, 5)])]).unwrap();
    let expected: Vec<u8> = vec![
        0x00, 0x02, 0xff, 0xff, 0xff, 0xfe, 0x01, 0x2c, 0x01, 0x90, 0x00, 0x02,
        0x00, 0x03, 0x00, 0x00, 0x31, 0x21, 0x15, 0x25, 0x01, 0x2c, 0xfe, 0xd9,
        0x01, 0x06,
    ];
    assert_eq!(encoded(&glyph), expected);
    // three points: the odd length is padded
    let rect = Rect { x_min: 0, y_min: 0, x_max: 1, y_max: 1 };
    let glyph = Glyph::new(rect, vec![contour(&[(0, 0), (1, 0), (1, 1)])]).unwrap();
    let expected: Vec<u8> = vec![
        0x00, 0x01, 0x00, 0x00, 0x00, 0x00, 0x00, 0x01, 0x00, 0x01, 0x00, 0x02,
        0x00, 0x00, 0x31, 0x33, 0x35, 0x01, 0x01, 0x00,
    ];
    assert_eq!(encoded(&glyph), expected);
}

#[test]
fn glyph_with_a_run_of_flags() {
    let points: Vec<(i64, i64)> = (1..=300).map(|x| (x, 0)).collect();
    let rect = Rect { x_min: 0, y_min: 0, x_max: 0, y_max: 0 };
    let glyph = Glyph::new(rect, vec![contour(&points)]).unwrap();
    let bytes = encoded(&glyph);
    assert_eq!(bytes.len(), 318);
    assert_eq!(&bytes[..14], &[0, 1, 0, 0, 0, 0, 0, 0, 0, 0, 0x01, 0x2b, 0, 0]);
    assert_eq!(&bytes[14..18], &[0x3b, 255, 0x3b, 43]);
    assert!(bytes[18..].iter().all(|&b| b == 1));
}

#[test]
fn glyph_without_contours() {
    let rect = Rect { x_min: 0, y_min: 0, x_max: 8, y_max: 8 };
    let glyph = Glyph::new(rect, Vec::new()).unwrap();
    assert_eq!(encoded(&glyph), vec![0, 0, 0, 0, 0, 0, 0, 8, 0, 8, 0, 0]);
    assert_eq!(glyph.point_count(), 0);
}

#[test]
fn glyph_outline_errors() {
    let rect = Rect { x_min: 0, y_min: 0, x_max: 8, y_max: 8 };
    assert!(matches!(
        Glyph::new(rect, vec![contour(&[(0, 0)]), Vec::new()]),
        Err(FontError::EmptyContour)
    ));
    // the first point is reached from the origin
    assert!(matches!(
        Glyph::new(rect, vec![contour(&[(32768, 0)])]),
        Err(FontError::DeltaOutOfRange)
    ));
    assert!(Glyph::new(rect, vec![contour(&[(32767, -32768)])]).is_ok());
    assert!(matches!(
        Glyph::new(rect, vec![contour(&[(0, 20000), (0, -20000)])]),
        Err(FontError::DeltaOutOfRange)
    ));
    assert!(matches!(
        Glyph::new(rect, vec![contour(&[(i64::MIN, 0), (i64::MAX, 0)])]),
        Err(FontError::DeltaOutOfRange)
    ));
    assert!(Glyph::new(rect, vec![contour(&[(32767, 0), (65534, 0), (98301, 0)])]).is_ok());
    // too many points for the 16-bit end point indexes
    let many = vec![point(0, 0); 0x1_0000];
    assert!(matches!(Glyph::new(rect, vec![many]), Err(FontError::TooLarge)));
    assert!(Glyph::new(rect, vec![vec![point(0, 0); 0xffff]]).is_ok());
    // too large comes before an empty contour, an empty contour before a long step
    let many = vec![point(0, 0); 0x1_0000];
    assert!(matches!(Glyph::new(rect, vec![many, Vec::new()]), Err(FontError::TooLarge)));
    assert!(matches!(
        Glyph::new(rect, vec![contour(&[(40000, 0)]), Vec::new()]),
        Err(FontError::EmptyContour)
    ));
}

#[test]
fn into_contours_keeps_the_corners() {
    let corners = vec![vec![(0usize, 1usize), (2, 3)], vec![], vec![(4, 5)]];
    assert_eq!(
        into_contours(&corners),
        vec![vec![point(0, 1), point(2, 3)], vec![], vec![point(4, 5)]]
    );
}

#[test]
fn glyph_of_a_sprite() {
    let sprite = Sprite { data: vec![0b11], width: 2, height: 1 };
    let glyph = Glyph::from(sprite).unwrap();
    // corners (2, 0), (2, 1), (0, 1), (0, 0)
    assert_eq!(
        encoded(&glyph),
        vec![
            0x00, 0x01, 0x00, 0x00, 0x00, 0x00, 0x00, 0x02, 0x00, 0x01, 0x00, 0x03, 0x00, 0x00,
            0x33, 0x35, 0x23, 0x15, 0x02, 0x02, 0x01, 0x01
        ]
    );
}

#[test]
fn glyf_table_and_what_goes_with_it() {
    let sprites = vec![
        Sprite { data: vec![0b11], width: 2, height: 1 },
        Sprite { data: vec![0], width: 2, height: 1 },
        Sprite { data: vec![0b01], width: 2, height: 1 },
    ];
    let glyf = Glyf::from(sprites).unwrap();
    assert_eq!(glyf.count_glyphs(), 3);
    assert!(glyf.is_wf());
    let loca = glyf.generate_loca().unwrap();
    assert_eq!(loca.len(), 4);
    assert_eq!((loca.offset(0), loca.offset(1), loca.offset(2), loca.offset(3)), (0, 22, 34, 56));
    assert!(!loca.needs_long());
    let mut writer = TableWriter::new(Vec::new());
    glyf.write(&mut writer);
    let (bytes, _, length) = writer.finalize();
    assert_eq!(length, 56);
    assert_eq!(bytes.len(), 56);
    assert_eq!(&bytes[22..34], &[0, 0, 0, 0, 0, 0, 0, 2, 0, 1, 0, 0]);
    assert_eq!(Glyf::tag(), *b"glyf");
    assert_eq!(
        glyf.generate_maxp(),
        MaxP {
            version: 0x00010000,
            num_glyphs: 3,
            max_points: 4,
            max_contours: 1,
            max_component_points: 0,
            max_component_contours: 0,
            max_zones: 2,
            max_twilight_points: 0,
            max_storage: 0,
            max_function_defs: 0,
            max_instruction_defs: 0,
            max_stack_elements: 0,
            max_size_of_instructions: 0,
            max_component_elements: 1,
            max_component_depth: 1,
        }
    );
}

#[test]
fn glyf_table_of_no_glyphs() {
    let glyf = Glyf::from(Vec::new()).unwrap();
    assert_eq!(glyf.count_glyphs(), 0);
    let loca = glyf.generate_loca().unwrap();
    assert_eq!(loca.len(), 1);
    assert_eq!(loca.offset(0), 0);
    let maxp = glyf.generate_maxp();
    assert_eq!((maxp.num_glyphs, maxp.max_points, maxp.max_contours), (0, 0, 0));
}

#[test]
fn glyf_table_has_room_for_65535_glyphs() {
    let rect = Rect { x_min: 0, y_min: 0, x_max: 0, y_max: 0 };
    let glyphs: Vec<Glyph> = (0..0x1_0000).map(|_| Glyph::new(rect, Vec::new()).unwrap()).collect();
    assert!(matches!(Glyf::from_glyphs(glyphs), Err(FontError::TooLarge)));
    let glyphs: Vec<Glyph> = (0..0xffff).map(|_| Glyph::new(rect, Vec::new()).unwrap()).collect();
    let glyf = Glyf::from_glyphs(glyphs).unwrap();
    assert_eq!(glyf.generate_loca().unwrap().offset(0xffff), 0xffff * 12);
    assert!(glyf.generate_loca().unwrap().needs_long());
}
