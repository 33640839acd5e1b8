//! Fixed-width integers appended to a byte buffer in either byte order.

use vstd::prelude::*;
use crate::encode::be_i16;
use crate::encode::be_i64;
use crate::encode::be_u16;
use crate::encode::be_u32;
use crate::encode::i16_bits;
use crate::encode::i64_bits;

verus! {

/// `v` as two bytes, least significant first.
pub open spec fn le_u16(v: u16) -> Seq<u8> {
    be_u16(v).reverse()
}

/// `v` as four bytes, least significant first.
pub open spec fn le_u32(v: u32) -> Seq<u8> {
    be_u32(v).reverse()
}

/// `v` as two bytes in two's complement, least significant first.
pub open spec fn le_i16(v: i16) -> Seq<u8> {
    be_i16(v).reverse()
}

/// `v` as eight bytes in two's complement, least significant first.
pub open spec fn le_i64(v: i64) -> Seq<u8> {
    be_i64(v).reverse()
}

/// A byte sink to which integers can be appended in big- or little-endian order.
pub trait PushBytes {
    /// Everything pushed so far.
    spec fn pushed(&self) -> Seq<u8>;

    fn push_be_u16(&mut self, bytes: u16)
        ensures
            final(self).pushed() == old(self).pushed() + be_u16(bytes),
    ;

    fn push_le_u16(&mut self, bytes: u16)
        ensures
            final(self).pushed() == old(self).pushed() + le_u16(bytes),
    ;

    fn push_be_u32(&mut self, bytes: u32)
        ensures
            final(self).pushed() == old(self).pushed() + be_u32(bytes),
    ;

    fn push_le_u32(&mut self, bytes: u32)
        ensures
            final(self).pushed() == old(self).pushed() + le_u32(bytes),
    ;

    fn push_be_i16(&mut self, bytes: i16)
        ensures
            final(self).pushed() == old(self).pushed() + be_i16(bytes),
    ;

    fn push_le_i16(&mut self, bytes: i16)
        ensures
            final(self).pushed() == old(self).pushed() + le_i16(bytes),
    ;

    fn push_be_i64(&mut self, bytes: i64)
        ensures
            final(self).pushed() == old(self).pushed() + be_i64(bytes),
    ;

    fn push_le_i64(&mut self, bytes: i64)
        ensures
            final(self).pushed() == old(self).pushed() + le_i64(bytes),
    ;
}

/// The bit pattern of `v`, computed without a sign-changing cast.
fn bits_of_i16(v: i16) -> (r: u16)
    ensures
        r == i16_bits(v),
{
    if v >= 0 {
        v as u16
    } else {
        ((v as i32) + 0x1_0000) as u16
    }
}

/// The bit pattern of `v`, computed without a sign-changing cast.
fn bits_of_i64(v: i64) -> (r: u64)
    ensures
        r == i64_bits(v),
{
    if v >= 0 {
        v as u64
    } else {
        ((v as i128) + 0x1_0000_0000_0000_0000) as u64
    }
}

/// The four bytes of `v`, most significant first.
fn bytes_of_u32(v: u32) -> (r: [u8; 4])
    ensures
        r@ == be_u32(v),
{
    [
        (v / 0x100_0000) as u8,
        (v / 0x1_0000 % 0x100) as u8,
        (v / 0x100 % 0x100) as u8,
        (v % 0x100) as u8,
    ]
}

impl PushBytes for Vec<u8> {
    open spec fn pushed(&self) -> Seq<u8> {
        self@
    }

    fn push_be_u16(&mut self, bytes: u16) {
        self.push((bytes / 0x100) as u8);
        self.push((bytes % 0x100) as u8);
    }

    fn push_le_u16(&mut self, bytes: u16) {
        self.push((bytes % 0x100) as u8);
        self.push((bytes / 0x100) as u8);
    }

    fn push_be_u32(&mut self, bytes: u32) {
        let b = bytes_of_u32(bytes);
        self.push(b[0]);
        self.push(b[1]);
        self.push(b[2]);
        self.push(b[3]);
    }

    fn push_le_u32(&mut self, bytes: u32) {
        let b = bytes_of_u32(bytes);
        self.push(b[3]);
        self.push(b[2]);
        self.push(b[1]);
        self.push(b[0]);
    }

    fn push_be_i16(&mut self, bytes: i16) {
        self.push_be_u16(bits_of_i16(bytes));
    }

    fn push_le_i16(&mut self, bytes: i16) {
        self.push_le_u16(bits_of_i16(bytes));
    }

    fn push_be_i64(&mut self, bytes: i64) {
        let bits = bits_of_i64(bytes);
        self.push_be_u32((bits / 0x1_0000_0000) as u32);
        self.push_be_u32((bits % 0x1_0000_0000) as u32);
    }

    fn push_le_i64(&mut self, bytes: i64) {
        let bits = bits_of_i64(bytes);
        self.push_le_u32((bits % 0x1_0000_0000) as u32);
        self.push_le_u32((bits / 0x1_0000_0000) as u32);
    }
}

} // verus!
