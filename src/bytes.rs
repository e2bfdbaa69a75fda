//! Little-endian integers read out of byte sequences.
use vstd::prelude::*;

verus! {

/// The little-endian `u16` in bytes `at` and `at + 1` of `s`.
pub open spec fn le_u16(s: Seq<u8>, at: int) -> u16 {
    (s[at] as int + s[at + 1] as int * 0x100) as u16
}

/// The little-endian `u32` in bytes `at..at + 4` of `s`.
pub open spec fn le_u32(s: Seq<u8>, at: int) -> u32 {
    (s[at] as int + s[at + 1] as int * 0x100 + s[at + 2] as int * 0x1_0000
        + s[at + 3] as int * 0x100_0000) as u32
}

/// The little-endian `u16` at byte `at`.
pub fn read_u16(b: &[u8], at: usize) -> (r: u16)
    requires
        at + 2 <= b@.len(),
    ensures
        r == le_u16(b@, at as int),
{
    (b[at] as u16) + (b[at + 1] as u16) * 0x100
}

/// The little-endian `u32` at byte `at`.
pub fn read_u32(b: &[u8], at: usize) -> (r: u32)
    requires
        at + 4 <= b@.len(),
    ensures
        r == le_u32(b@, at as int),
{
    (b[at] as u32) + (b[at + 1] as u32) * 0x100 + (b[at + 2] as u32) * 0x1_0000 + (b[at + 3] as u32)
        * 0x100_0000
}

} // verus!
