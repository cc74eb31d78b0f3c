//! Little-endian encoding of the fixed-width integers that BMP headers hold.
use vstd::prelude::*;
use byteorder::{ByteOrder, LittleEndian};

verus! {

/// The two bytes of `n`, least significant first.
pub open spec fn le_u16(n: u16) -> Seq<u8> {
    seq![(n % 0x100) as u8, (n / 0x100) as u8]
}

/// The four bytes of `n`, least significant first.
pub open spec fn le_u32(n: u32) -> Seq<u8> {
    seq![
        (n % 0x100) as u8,
        ((n / 0x100) % 0x100) as u8,
        ((n / 0x10000) % 0x100) as u8,
        (n / 0x1000000) as u8,
    ]
}

/// `LittleEndian::write_u16` from byteorder: stores `n.to_le_bytes()` in the buffer.
#[verifier::external_body]
pub(crate) fn u16_le_bytes(n: u16) -> (r: [u8; 2])
    ensures
        r@ == le_u16(n),
{
    let mut buf = [0u8; 2];
    LittleEndian::write_u16(&mut buf, n);
    buf
}

/// `LittleEndian::write_u32` from byteorder: stores `n.to_le_bytes()` in the buffer.
#[verifier::external_body]
pub(crate) fn u32_le_bytes(n: u32) -> (r: [u8; 4])
    ensures
        r@ == le_u32(n),
{
    let mut buf = [0u8; 4];
    LittleEndian::write_u32(&mut buf, n);
    buf
}

/// `LittleEndian::write_i32` from byteorder: writes the two's-complement bits of `n`
/// (`n as u32`) in little-endian order.
#[verifier::external_body]
pub(crate) fn i32_le_bytes(n: i32) -> (r: [u8; 4])
    ensures
        r@ == le_u32(n as u32),
{
    let mut buf = [0u8; 4];
    LittleEndian::write_i32(&mut buf, n);
    buf
}

/// Appends `src` to the end of `out`.
pub fn extend_bytes(out: &mut Vec<u8>, src: &[u8])
    ensures
        final(out)@ == old(out)@ + src@,
{
    let mut i: usize = 0;
    while i < src.len()
        invariant
            i <= src@.len(),
            out@ == old(out)@ + src@.subrange(0, i as int),
        decreases src@.len() - i,
    {
        out.push(src[i]);
        i = i + 1;
        assert(out@ =~= old(out)@ + src@.subrange(0, i as int));
    }
    assert(src@.subrange(0, src@.len() as int) =~= src@);
}

} // verus!
