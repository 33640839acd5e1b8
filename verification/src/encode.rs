//! Byte encodings of the integer fields that font tables are made of, and the
//! primitives that append them to a byte buffer.

use vstd::prelude::*;
use byteorder::BigEndian;
use byteorder::WriteBytesExt;

verus! {

/// The two's-complement bit pattern of `v`.
pub open spec fn i16_bits(v: i16) -> u16 {
    if v >= 0 {
        v as u16
    } else {
        (v + 0x1_0000) as u16
    }
}

/// The two's-complement bit pattern of `v`.
pub open spec fn i64_bits(v: i64) -> u64 {
    if v >= 0 {
        v as u64
    } else {
        (v + 0x1_0000_0000_0000_0000) as u64
    }
}

/// `v` as two bytes, most significant first.
pub open spec fn be_u16(v: u16) -> Seq<u8> {
    seq![(v / 0x100) as u8, (v % 0x100) as u8]
}

/// `v` as two bytes in two's complement, most significant first.
pub open spec fn be_i16(v: i16) -> Seq<u8> {
    be_u16(i16_bits(v))
}

/// `v` as four bytes, most significant first.
pub open spec fn be_u32(v: u32) -> Seq<u8> {
    seq![
        (v / 0x100_0000) as u8,
        (v / 0x1_0000 % 0x100) as u8,
        (v / 0x100 % 0x100) as u8,
        (v % 0x100) as u8,
    ]
}

/// `v` as eight bytes, most significant first.
pub open spec fn be_u64(v: u64) -> Seq<u8> {
    be_u32((v / 0x1_0000_0000) as u32) + be_u32((v % 0x1_0000_0000) as u32)
}

/// `v` as eight bytes in two's complement, most significant first.
pub open spec fn be_i64(v: i64) -> Seq<u8> {
    be_u64(i64_bits(v))
}

/// `v` as sixteen bytes, most significant first.
pub open spec fn be_u128(v: u128) -> Seq<u8> {
    be_u64((v / 0x1_0000_0000_0000_0000) as u64) + be_u64((v % 0x1_0000_0000_0000_0000) as u64)
}

/// The low 16 bits of `v`: what a 16-bit count or offset field holds of it.
pub open spec fn low16(v: int) -> u16 {
    (v % 0x1_0000) as u16
}

/// The low 32 bits of `v`: what a 32-bit length or offset field holds of it.
pub open spec fn low32(v: int) -> u32 {
    (v % 0x1_0000_0000) as u32
}

/// `n` zero bytes.
pub open spec fn zeros(n: nat) -> Seq<u8> {
    Seq::new(n, |i: int| 0u8)
}

/// Appends a `u16` through `byteorder::WriteBytesExt::write_u16::<BigEndian>`.
/// Trusted: the buffer grows by exactly the two bytes of `v`, high byte first;
/// writing into a `Vec<u8>` cannot fail.
#[verifier::external_body]
pub(crate) fn write_u16(buf: &mut Vec<u8>, v: u16)
    ensures
        final(buf)@ == old(buf)@ + be_u16(v),
{
    let _ = buf.write_u16::<BigEndian>(v);
}

/// Appends an `i16` through `byteorder::WriteBytesExt::write_i16::<BigEndian>`.
/// Trusted: the buffer grows by exactly the two bytes of the two's-complement
/// pattern of `v`, high byte first.
#[verifier::external_body]
pub(crate) fn write_i16(buf: &mut Vec<u8>, v: i16)
    ensures
        final(buf)@ == old(buf)@ + be_i16(v),
{
    let _ = buf.write_i16::<BigEndian>(v);
}

/// Appends a `u32` through `byteorder::WriteBytesExt::write_u32::<BigEndian>`.
/// Trusted: the buffer grows by exactly the four bytes of `v`, high byte first.
#[verifier::external_body]
pub(crate) fn write_u32(buf: &mut Vec<u8>, v: u32)
    ensures
        final(buf)@ == old(buf)@ + be_u32(v),
{
    let _ = buf.write_u32::<BigEndian>(v);
}

/// Appends a `u64` through `byteorder::WriteBytesExt::write_u64::<BigEndian>`.
/// Trusted: the buffer grows by exactly the eight bytes of `v`, high byte first.
#[verifier::external_body]
pub(crate) fn write_u64(buf: &mut Vec<u8>, v: u64)
    ensures
        final(buf)@ == old(buf)@ + be_u64(v),
{
    let _ = buf.write_u64::<BigEndian>(v);
}

/// Appends an `i64` through `byteorder::WriteBytesExt::write_i64::<BigEndian>`.
/// Trusted: the buffer grows by exactly the eight bytes of the two's-complement
/// pattern of `v`, high byte first.
#[verifier::external_body]
pub(crate) fn write_i64(buf: &mut Vec<u8>, v: i64)
    ensures
        final(buf)@ == old(buf)@ + be_i64(v),
{
    let _ = buf.write_i64::<BigEndian>(v);
}

/// Appends a `u128` through `byteorder::WriteBytesExt::write_u128::<BigEndian>`.
/// Trusted: the buffer grows by exactly the sixteen bytes of `v`, high byte first.
#[verifier::external_body]
pub(crate) fn write_u128(buf: &mut Vec<u8>, v: u128)
    ensures
        final(buf)@ == old(buf)@ + be_u128(v),
{
    let _ = buf.write_u128::<BigEndian>(v);
}

/// The low 16 bits of a length.
pub fn low16_of(n: usize) -> (r: u16)
    ensures
        r == low16(n as int),
{
    let wide = n as u64;
    assert(wide as u16 == wide % 0x1_0000) by (bit_vector);
    #[verifier::truncate]
    (wide as u16)
}

/// The low 32 bits of a length or an offset.
pub fn low32_of(n: usize) -> (r: u32)
    ensures
        r == low32(n as int),
{
    let wide = n as u64;
    assert(wide as u32 == wide % 0x1_0000_0000) by (bit_vector);
    #[verifier::truncate]
    (wide as u32)
}

/// The low 16 bits of a sum of field sizes.
pub fn low16_of_u32(v: u32) -> (r: u16)
    ensures
        r == low16(v as int),
{
    assert(v as u16 == v % 0x1_0000) by (bit_vector);
    #[verifier::truncate]
    (v as u16)
}

/// Appends all of `bytes` to `buf`.
pub fn write_all(buf: &mut Vec<u8>, bytes: &[u8])
    ensures
        final(buf)@ == old(buf)@ + bytes@,
{
    let mut i: usize = 0;
    while i < bytes.len()
        invariant
            i <= bytes.len(),
            buf@ == old(buf)@ + bytes@.take(i as int),
        decreases bytes.len() - i,
    {
        buf.push(bytes[i]);
        i += 1;
    }
    assert(bytes@.take(i as int) == bytes@);
}

} // verus!
