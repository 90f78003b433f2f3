//! Little-endian readers over a VBIOS ROM image.
//!
//! Every reader is total: an access that would run past the end of the
//! image reads as zero.
use vstd::prelude::*;

verus! {

/// Byte at `off`, or 0 past the end.
pub open spec fn rom_u8(rom: Seq<u8>, off: int) -> u8 {
    if 0 <= off < rom.len() {
        rom[off]
    } else {
        0
    }
}

/// Little-endian 16-bit word at `off`, or 0 if it does not fit.
pub open spec fn rom_u16(rom: Seq<u8>, off: int) -> u16 {
    if 0 <= off && off + 2 <= rom.len() {
        (rom[off] + 256 * rom[off + 1]) as u16
    } else {
        0
    }
}

/// Little-endian 32-bit word at `off`, or 0 if it does not fit.
pub open spec fn rom_u32(rom: Seq<u8>, off: int) -> u32 {
    if 0 <= off && off + 4 <= rom.len() {
        (rom[off] + 256 * rom[off + 1] + 65536 * rom[off + 2] + 16777216 * rom[off + 3]) as u32
    } else {
        0
    }
}

/// Read a byte, 0 past the end.
pub fn rd08(rom: &[u8], off: usize) -> (r: u8)
    ensures
        r == rom_u8(rom@, off as int),
{
    if off < rom.len() {
        rom[off]
    } else {
        0
    }
}

/// Read a little-endian 16-bit word, 0 if it does not fit.
pub fn rd16(rom: &[u8], off: usize) -> (r: u16)
    ensures
        r == rom_u16(rom@, off as int),
{
    if off < rom.len() && rom.len() - off >= 2 {
        let lo = rom[off] as u16;
        let hi = rom[off + 1] as u16;
        lo + 256 * hi
    } else {
        0
    }
}

/// Read a little-endian 32-bit word, 0 if it does not fit.
pub fn rd32(rom: &[u8], off: usize) -> (r: u32)
    ensures
        r == rom_u32(rom@, off as int),
{
    if off < rom.len() && rom.len() - off >= 4 {
        let b0 = rom[off] as u32;
        let b1 = rom[off + 1] as u32;
        let b2 = rom[off + 2] as u32;
        let b3 = rom[off + 3] as u32;
        b0 + 256 * b1 + 65536 * b2 + 16777216 * b3
    } else {
        0
    }
}

} // verus!
