use vstd::prelude::*;

verus! {

/// A 16-bit value in network byte order.
pub open spec fn be16(v: u16) -> Seq<u8> {
    seq![(v / 256) as u8, (v % 256) as u8]
}

/// A 32-bit value in network byte order.
pub open spec fn be32(v: u32) -> Seq<u8> {
    be16((v / 65536) as u16) + be16((v % 65536) as u16)
}

/// The 16-bit big-endian value at `pos`.
pub open spec fn u16_at(b: Seq<u8>, pos: int) -> u16 {
    (b[pos] * 256 + b[pos + 1]) as u16
}

/// The 32-bit big-endian value at `pos`.
pub open spec fn u32_at(b: Seq<u8>, pos: int) -> u32 {
    (u16_at(b, pos) * 65536 + u16_at(b, pos + 2)) as u32
}

pub proof fn lemma_be16_read(b: Seq<u8>, pos: int, v: u16)
    requires
        0 <= pos,
        pos + 2 <= b.len(),
        b.subrange(pos, pos + 2) == be16(v),
    ensures
        u16_at(b, pos) == v,
{
    assert(b[pos] == b.subrange(pos, pos + 2)[0]);
    assert(b[pos + 1] == b.subrange(pos, pos + 2)[1]);
}

/// Appends a 16-bit value in network byte order.
pub fn push_u16(out: &mut Vec<u8>, v: u16)
    ensures
        final(out)@ == old(out)@ + be16(v),
{
    out.push((v / 256) as u8);
    out.push((v % 256) as u8);
    assert(final(out)@ =~= old(out)@ + be16(v));
}

/// Appends a 32-bit value in network byte order.
pub fn push_u32(out: &mut Vec<u8>, v: u32)
    ensures
        final(out)@ == old(out)@ + be32(v),
{
    push_u16(out, (v / 65536) as u16);
    push_u16(out, (v % 65536) as u16);
    assert(final(out)@ =~= old(out)@ + be32(v));
}

/// Reads the 16-bit big-endian value at `pos`.
pub fn read_u16(b: &[u8], pos: usize) -> (r: u16)
    requires
        pos + 2 <= b@.len(),
    ensures
        r == u16_at(b@, pos as int),
{
    (b[pos] as u16) * 256 + (b[pos + 1] as u16)
}

/// Reads the 32-bit big-endian value at `pos`.
pub fn read_u32(b: &[u8], pos: usize) -> (r: u32)
    requires
        pos + 4 <= b@.len(),
    ensures
        r == u32_at(b@, pos as int),
{
    let n = b.len();
    assert(pos + 4 <= n);
    let hi = read_u16(b, pos);
    let lo = read_u16(b, pos + 2);
    (hi as u32) * 65536 + (lo as u32)
}

} // verus!
