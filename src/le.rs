//! Little-endian encoding of 32-bit integers, through the `byteorder` crate.

use byteorder::{ByteOrder, LittleEndian};
use vstd::bytes::{spec_u32_from_le_bytes, spec_u32_to_le_bytes};
use vstd::prelude::*;

verus! {

/// Relies on byteorder's `LittleEndian::read_u32`: the integer held by the
/// first four bytes of `buf`, least significant byte first. It panics when
/// `buf` is shorter than four bytes, which `requires` leaves out.
#[verifier::external_body]
pub(crate) fn read_u32_le(buf: &[u8]) -> (r: u32)
    requires
        buf@.len() >= 4,
    ensures
        r == spec_u32_from_le_bytes(buf@.subrange(0, 4)),
{
    LittleEndian::read_u32(buf)
}

/// Relies on byteorder's `LittleEndian::write_u32`: it stores `n` into the
/// four bytes of `buf`, least significant byte first.
#[verifier::external_body]
pub(crate) fn write_u32_le(buf: &mut [u8; 4], n: u32)
    ensures
        final(buf)@ == spec_u32_to_le_bytes(n),
{
    LittleEndian::write_u32(&mut buf[..], n)
}

} // verus!
