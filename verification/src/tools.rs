//! Narrowing of generator values to fixed-width integers.
//!
//! A draw of the MD5 generator is a number below 2^128, held as a `u128`; each
//! function keeps its least significant bytes, as the little-endian byte
//! string of the number truncated to the target width.

use vstd::prelude::*;

verus! {

/// The low 64 bits of `number`.
pub fn biguint_into_u64(number: u128) -> (r: u64)
    ensures
        r == number % 0x1_0000_0000_0000_0000,
{
    (number % 0x1_0000_0000_0000_0000u128) as u64
}

/// The low 32 bits of `number`.
pub fn biguint_into_u32(number: u128) -> (r: u32)
    ensures
        r == number % 0x1_0000_0000,
{
    (number % 0x1_0000_0000u128) as u32
}

/// The low 16 bits of `number`.
pub fn biguint_into_u16(number: u128) -> (r: u16)
    ensures
        r == number % 0x1_0000,
{
    (number % 0x1_0000u128) as u16
}

/// The least significant byte of `number`.
pub fn biguint_into_u8(number: u128) -> (r: u8)
    ensures
        r == number % 0x100,
{
    (number % 0x100u128) as u8
}

/// The eight bytes of `data` as an array.
pub fn cast_slice_to_array(data: &[u8]) -> (r: [u8; 8])
    requires
        data@.len() == 8,
    ensures
        r@ == data@,
{
    let r = [data[0], data[1], data[2], data[3], data[4], data[5], data[6], data[7]];
    assert(r@ =~= data@);
    r
}

} // verus!
