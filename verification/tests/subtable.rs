use alphgen::subtable::SubtableBuffer;

#[test]
fn mark_offset_records_where_the_body_stands() {
    let mut buffer = SubtableBuffer::new(6);
    buffer.header().extend_from_slice(&[0xaa, 0xbb]);
    buffer.mark_offset();
    buffer.body().extend_from_slice(&[1, 2, 3]);
    buffer.mark_offset();
    buffer.body().extend_from_slice(&[4]);
    let mut out = vec![0xff];
    buffer.write(&mut out);
    assert_eq!(out, vec![0xff, 0xaa, 0xbb, 0x00, 0x06, 0x00, 0x09, 1, 2, 3, 4]);
}

#[test]
fn empty_subtable_writes_nothing() {
    let buffer = SubtableBuffer::new(0x1234);
    let mut out = Vec::new();
    buffer.write(&mut out);
    assert_eq!(out, Vec::<u8>::new());
}

#[test]
fn mark_offset_is_big_endian_and_keeps_low_bits() {
    let mut buffer = SubtableBuffer::new(0x0102);
    buffer.mark_offset();
    buffer.body().resize(0x1_0000 - 0x0102, 0);
    buffer.mark_offset();
    buffer.body().push(0);
    buffer.mark_offset();
    let mut out = Vec::new();
    buffer.write(&mut out);
    assert_eq!(&out[..6], &[0x01, 0x02, 0x00, 0x00, 0x00, 0x01]);
    assert_eq!(out.len(), 6 + 0x1_0000 - 0x0102 + 1);
}

#[test]
fn nested_subtables_carry_their_own_bias() {
    let mut inner = SubtableBuffer::new(2);
    inner.mark_offset();
    inner.body().extend_from_slice(&[0xee]);
    let mut outer = SubtableBuffer::new(4);
    outer.body().extend_from_slice(&[0xdd, 0xdd]);
    outer.mark_offset();
    inner.write(outer.body());
    let mut out = Vec::new();
    outer.write(&mut out);
    assert_eq!(out, vec![0x00, 0x06, 0xdd, 0xdd, 0x00, 0x02, 0xee]);
}
