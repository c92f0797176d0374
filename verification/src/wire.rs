//! Big-endian integers on the wire.

use vstd::prelude::*;

verus! {

/// The two octets of a 16-bit value, most significant first.
pub open spec fn u16_octets(x: u16) -> Seq<u8> {
    seq![(x / 256) as u8, (x % 256) as u8]
}

/// The 16-bit value whose octets are `hi`, `lo`.
pub open spec fn u16_of(hi: u8, lo: u8) -> u16 {
    (hi as int * 256 + lo as int) as u16
}

/// The 32-bit value whose octets are `b0` (most significant) to `b3`.
pub open spec fn u32_of(b0: u8, b1: u8, b2: u8, b3: u8) -> u32 {
    (b0 as int * 16777216 + b1 as int * 65536 + b2 as int * 256 + b3 as int) as u32
}

/// The 16-bit value stored at `pos` in `buf`.
pub open spec fn u16_at(buf: Seq<u8>, pos: int) -> u16
    recommends
        0 <= pos,
        pos + 2 <= buf.len(),
{
    u16_of(buf[pos], buf[pos + 1])
}

/// The 32-bit value stored at `pos` in `buf`.
pub open spec fn u32_at(buf: Seq<u8>, pos: int) -> u32
    recommends
        0 <= pos,
        pos + 4 <= buf.len(),
{
    u32_of(buf[pos], buf[pos + 1], buf[pos + 2], buf[pos + 3])
}

/// Reading back the octets of a 16-bit value gives the value.
pub proof fn lemma_u16_octets_roundtrip(x: u16)
    ensures
        u16_octets(x).len() == 2,
        u16_of(u16_octets(x)[0], u16_octets(x)[1]) == x,
{
}

/// Appends the two octets of `x` to `out`.
pub fn put_u16(out: &mut Vec<u8>, x: u16)
    ensures
        final(out)@ == old(out)@ + u16_octets(x),
{
    out.push((x / 256) as u8);
    out.push((x % 256) as u8);
    assert(out@ =~= old(out)@ + u16_octets(x));
}

/// Reads the 16-bit value at `pos`, if the buffer holds its two octets.
pub fn read_u16(buf: &[u8], pos: usize) -> (r: Option<u16>)
    ensures
        r == (if pos + 2 <= buf@.len() {
            Some(u16_at(buf@, pos as int))
        } else {
            None
        }),
{
    if buf.len() < 2 || pos > buf.len() - 2 {
        return None;
    }
    Some(get_u16(buf, pos))
}

/// The 16-bit value at `pos` of a buffer that holds its two octets.
pub fn get_u16(buf: &[u8], pos: usize) -> (v: u16)
    requires
        pos + 2 <= buf@.len(),
    ensures
        v == u16_at(buf@, pos as int),
{
    let hi: u16 = buf[pos] as u16;
    let lo: u16 = buf[pos + 1] as u16;
    hi * 256 + lo
}

/// Reads the 32-bit value at `pos`, if the buffer holds its four octets.
pub fn read_u32(buf: &[u8], pos: usize) -> (r: Option<u32>)
    ensures
        r == (if pos + 4 <= buf@.len() {
            Some(u32_at(buf@, pos as int))
        } else {
            None
        }),
{
    if buf.len() < 4 || pos > buf.len() - 4 {
        return None;
    }
    let b0: u32 = buf[pos] as u32;
    let b1: u32 = buf[pos + 1] as u32;
    let b2: u32 = buf[pos + 2] as u32;
    let b3: u32 = buf[pos + 3] as u32;
    Some(b0 * 16777216 + b1 * 65536 + b2 * 256 + b3)
}

} // verus!
