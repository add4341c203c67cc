//! What holds of numbers in memory: the bytes of a word, least first, and the
//! signs of machine integers.

use vstd::prelude::*;

use crate::pe;

verus! {

/// The number that 64 bits write in two's complement.
pub open spec fn signed64(v: u64) -> int {
    if v < 0x8000_0000_0000_0000 {
        v as int
    } else {
        v - 0x1_0000_0000_0000_0000
    }
}

/// The number that 32 bits write in two's complement.
pub open spec fn signed32(v: u32) -> int {
    if v < 0x8000_0000 {
        v as int
    } else {
        v - 0x1_0000_0000
    }
}

/// The number that 8 bits write in two's complement.
pub open spec fn signed8(v: u8) -> int {
    if v < 0x80 {
        v as int
    } else {
        v - 0x100
    }
}

pub proof fn sign_of_64(v: u64)
    ensures
        v as i64 == signed64(v),
{
    assert(v < 0x8000_0000_0000_0000u64 ==> v as i64 == v) by (bit_vector);
    assert(v >= 0x8000_0000_0000_0000u64 ==> v as i64 == v - 0x1_0000_0000_0000_0000int) by (bit_vector);
}

pub proof fn sign_of_32(v: u32)
    ensures
        v as i32 == signed32(v),
{
    assert(v < 0x8000_0000u32 ==> v as i32 == v) by (bit_vector);
    assert(v >= 0x8000_0000u32 ==> v as i32 == v - 0x1_0000_0000int) by (bit_vector);
}

pub proof fn sign_of_8(v: u8)
    ensures
        v as i8 == signed8(v),
{
    assert(v < 0x80u8 ==> v as i8 == v) by (bit_vector);
    assert(v >= 0x80u8 ==> v as i8 == v - 0x100int) by (bit_vector);
}

pub proof fn low_of_64(v: u64)
    ensures
        v & 0xffff_ffff == v % 0x1_0000_0000,
        (v as u32) as int == v % 0x1_0000_0000,
{
    assert(v & 0xffff_ffffu64 == v % 0x1_0000_0000u64) by (bit_vector);
    assert((v as u32) as u64 == v % 0x1_0000_0000u64) by (bit_vector);
}

/// A 16-bit number is read from two bytes, the least first.
pub proof fn two_bytes_are_a_word(s: Seq<u8>, at: int, v: u16)
    ensures
        pe::word16(s, at) == Some(v) <==> 0 <= at && at + 2 <= s.len() && v == s[at] + 0x100 * s[at + 1],
        pe::word16(s, at) is None <==> at < 0 || at + 2 > s.len(),
{
}

/// A 32-bit number is read from four bytes, the least first.
pub proof fn four_bytes_are_a_word(s: Seq<u8>, at: int, v: u32)
    ensures
        pe::word32(s, at) == Some(v) <==> 0 <= at && at + 4 <= s.len() && v == s[at] + 0x100 * s[at + 1] + 0x1_0000 * s[at
            + 2] + 0x100_0000 * s[at + 3],
        pe::word32(s, at) is None <==> at < 0 || at + 4 > s.len(),
{
}

/// A 64-bit number is read from eight bytes, the least first.
pub proof fn eight_bytes_are_a_word(s: Seq<u8>, at: int, v: u64)
    ensures
        pe::word64(s, at) == Some(v) <==> 0 <= at && at + 8 <= s.len() && v == s[at] + 0x100 * s[at + 1] + 0x1_0000 * s[at
            + 2] + 0x100_0000 * s[at + 3] + 0x1_0000_0000 * s[at + 4] + 0x100_0000_0000 * s[at + 5] + 0x1_0000_0000_0000
            * s[at + 6] + 0x100_0000_0000_0000 * s[at + 7],
        pe::word64(s, at) is None <==> at < 0 || at + 8 > s.len(),
{
}

} // verus!
