//! Big-endian byte runs for the 32-bit fields of the peer protocol.

use vstd::prelude::*;

verus! {

/// The four big-endian bytes that a 32-bit value is written as.
pub open spec fn spec_u32_be(x: u32) -> Seq<u8> {
    seq![
        (x / 0x1000000) as u8,
        ((x / 0x10000) % 0x100) as u8,
        ((x / 0x100) % 0x100) as u8,
        (x % 0x100) as u8,
    ]
}

/// The 32-bit value that a big-endian 4-byte run stands for.
pub open spec fn spec_u32_from_be(b: Seq<u8>) -> u32
    recommends
        b.len() == 4,
{
    ((b[0] as int) * 0x1000000 + (b[1] as int) * 0x10000 + (b[2] as int) * 0x100 + (
    b[3] as int)) as u32
}

/// Writing a value and reading it back gives the value again.
pub proof fn lemma_u32_be_round_trip(x: u32)
    ensures
        spec_u32_from_be(spec_u32_be(x)) == x,
{
    let b = spec_u32_be(x);
    assert((b[0] as int) * 0x1000000 + (b[1] as int) * 0x10000 + (b[2] as int) * 0x100 + (
    b[3] as int) == x) by (nonlinear_arith)
        requires
            b[0] == (x / 0x1000000) as u8,
            b[1] == ((x / 0x10000) % 0x100) as u8,
            b[2] == ((x / 0x100) % 0x100) as u8,
            b[3] == (x % 0x100) as u8,
    ;
}

/// Appends the big-endian bytes of `x`, as `extend_from_slice(&x.to_be_bytes())` does.
pub fn push_u32_be(out: &mut Vec<u8>, x: u32)
    ensures
        final(out)@ == old(out)@ + spec_u32_be(x),
{
    out.push((x / 0x1000000) as u8);
    out.push(((x / 0x10000) % 0x100) as u8);
    out.push(((x / 0x100) % 0x100) as u8);
    out.push((x % 0x100) as u8);
    assert(out@ =~= old(out)@ + spec_u32_be(x));
}

/// Reads the 32-bit value held big-endian at an offset.
pub fn u32_at(bytes: &[u8], off: usize) -> (r: u32)
    requires
        off + 4 <= bytes@.len(),
    ensures
        r == spec_u32_from_be(bytes@.subrange(off as int, off as int + 4)),
{
    let r: u32 = (bytes[off] as u32) * 0x1000000 + (bytes[off + 1] as u32) * 0x10000 + (bytes[off
        + 2] as u32) * 0x100 + (bytes[off + 3] as u32);
    assert(bytes@.subrange(off as int, off as int + 4)[0] == bytes@[off as int]);
    assert(bytes@.subrange(off as int, off as int + 4)[1] == bytes@[off as int + 1]);
    assert(bytes@.subrange(off as int, off as int + 4)[2] == bytes@[off as int + 2]);
    assert(bytes@.subrange(off as int, off as int + 4)[3] == bytes@[off as int + 3]);
    r
}

/// Reads the 32-bit value held big-endian in the first four bytes.
pub fn u32_from_bytes(bytes: &[u8]) -> (r: u32)
    requires
        bytes@.len() >= 4,
    ensures
        r == spec_u32_from_be(bytes@.subrange(0, 4)),
{
    let r: u32 = (bytes[0] as u32) * 0x1000000 + (bytes[1] as u32) * 0x10000 + (bytes[2] as u32)
        * 0x100 + (bytes[3] as u32);
    assert(bytes@.subrange(0, 4)[0] == bytes@[0]);
    assert(bytes@.subrange(0, 4)[1] == bytes@[1]);
    assert(bytes@.subrange(0, 4)[2] == bytes@[2]);
    assert(bytes@.subrange(0, 4)[3] == bytes@[3]);
    r
}

} // verus!
