use alphgen::platform::push_utf16_be;
use alphgen::platform::Platform;

#[test]
fn platform_ids() {
    assert_eq!(Platform::unicode_2_0().to_bytes(), [0, 3]);
    assert_eq!(Platform::macintosh_roman().to_bytes(), [1, 0]);
    assert_eq!(Platform::microsoft_bmp().to_bytes(), [3, 1]);
}

#[test]
fn unicode_platforms_encode_utf16_big_endian() {
    let text = "A\u{e9}\u{20ac}";
    let expected = vec![0x00, 0x41, 0x00, 0xe9, 0x20, 0xac];
    assert_eq!(Platform::unicode_2_0().encode(0, text), expected);
    assert_eq!(Platform::microsoft_bmp().encode(0x0409, text), expected);
}

#[test]
fn utf16_uses_surrogates_beyond_the_basic_plane() {
    let mut out = vec![0xff];
    push_utf16_be(&mut out, "\u{1f600}\u{10000}\u{10ffff}\u{ffff}");
    assert_eq!(
        out,
        vec![0xff, 0xd8, 0x3d, 0xde, 0x00, 0xd8, 0x00, 0xdc, 0x00, 0xdb, 0xff, 0xdf, 0xff, 0xff, 0xff]
    );
}

#[test]
fn utf16_agrees_with_the_standard_encoding() {
    let text = "My Neat Font \u{131}\u{d7ff}\u{e000}\u{1f3b5}";
    let expected: Vec<u8> = text.encode_utf16().flat_map(|unit| unit.to_be_bytes()).collect();
    assert_eq!(Platform::microsoft_bmp().encode(0, text), expected);
}

#[test]
fn macintosh_platform_keeps_the_bytes_of_the_string() {
    assert_eq!(Platform::macintosh_roman().encode(0, "A\u{e9}"), vec![0x41, 0xc3, 0xa9]);
    assert_eq!(Platform::macintosh_roman().encode(0, ""), Vec::<u8>::new());
}
