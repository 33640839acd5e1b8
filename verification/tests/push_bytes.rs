use alphgen::push_bytes::PushBytes;

#[test]
fn push_bytes_big_endian() {
    let mut v: Vec<u8> = vec![0xff];
    v.push_be_u16(0x0102);
    v.push_be_u32(0x0304_0506);
    v.push_be_i16(-2);
    v.push_be_i64(0x0708_090a_0b0c_0d0e);
    assert_eq!(
        v,
        vec![
            0xff, 0x01, 0x02, 0x03, 0x04, 0x05, 0x06, 0xff, 0xfe, 0x07, 0x08, 0x09, 0x0a, 0x0b,
            0x0c, 0x0d, 0x0e
        ]
    );
}

#[test]
fn push_bytes_little_endian() {
    let mut v: Vec<u8> = Vec::new();
    v.push_le_u16(0x0102);
    v.push_le_u32(0x0304_0506);
    v.push_le_i16(-2);
    v.push_le_i64(0x0708_090a_0b0c_0d0e);
    assert_eq!(
        v,
        vec![
            0x02, 0x01, 0x06, 0x05, 0x04, 0x03, 0xfe, 0xff, 0x0e, 0x0d, 0x0c, 0x0b, 0x0a, 0x09,
            0x08, 0x07
        ]
    );
}

#[test]
fn push_bytes_agrees_with_the_standard_encodings() {
    for v in [0i64, 1, -1, i64::MIN, i64::MAX, -0x0102_0304_0506_0708, 0x7f00_0000_0000_00ff] {
        let mut be: Vec<u8> = Vec::new();
        be.push_be_i64(v);
        assert_eq!(be, v.to_be_bytes().to_vec());
        let mut le: Vec<u8> = Vec::new();
        le.push_le_i64(v);
        assert_eq!(le, v.to_le_bytes().to_vec());
    }
    for v in [0i16, 1, -1, i16::MIN, i16::MAX, -256, 255] {
        let mut be: Vec<u8> = Vec::new();
        be.push_be_i16(v);
        assert_eq!(be, v.to_be_bytes().to_vec());
        let mut le: Vec<u8> = Vec::new();
        le.push_le_i16(v);
        assert_eq!(le, v.to_le_bytes().to_vec());
    }
    for v in [0u32, 1, 0xffff_ffff, 0x8000_0001, 0x00ff_ff00] {
        let mut be: Vec<u8> = Vec::new();
        be.push_be_u32(v);
        assert_eq!(be, v.to_be_bytes().to_vec());
        let mut le: Vec<u8> = Vec::new();
        le.push_le_u32(v);
        assert_eq!(le, v.to_le_bytes().to_vec());
    }
    for v in [0u16, 1, 0xffff, 0x8001, 0x00ff] {
        let mut be: Vec<u8> = Vec::new();
        be.push_be_u16(v);
        assert_eq!(be, v.to_be_bytes().to_vec());
        let mut le: Vec<u8> = Vec::new();
        le.push_le_u16(v);
        assert_eq!(le, v.to_le_bytes().to_vec());
    }
}
