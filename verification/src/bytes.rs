//! Little-endian integer fields inside byte buffers.
use vstd::prelude::*;

verus! {

/// The `u32` stored little-endian in `b[pos..pos + 4]`.
pub open spec fn spec_u32_le(b: Seq<u8>, pos: int) -> u32 {
    (b[pos] + 256 * b[pos + 1] + 65536 * b[pos + 2] + 16777216 * b[pos + 3]) as u32
}

/// The `u16` stored little-endian in `b[pos..pos + 2]`.
pub open spec fn spec_u16_le(b: Seq<u8>, pos: int) -> u16 {
    (b[pos] + 256 * b[pos + 1]) as u16
}

/// The four little-endian bytes of `v`.
pub open spec fn le_bytes(v: u32) -> Seq<u8> {
    seq![(v % 256) as u8, ((v / 256) % 256) as u8, ((v / 65536) % 256) as u8, (v / 16777216) as u8]
}

/// Reading back the four bytes of `v` gives `v`.
pub proof fn lemma_le_bytes_roundtrip(v: u32)
    ensures
        spec_u32_le(le_bytes(v), 0) == v,
        le_bytes(v).len() == 4,
{
    assert(spec_u32_le(le_bytes(v), 0) == v) by (nonlinear_arith);
}

/// Writing back the value read from four bytes gives those bytes.
pub proof fn lemma_le_read_write(b: Seq<u8>, pos: int)
    requires
        0 <= pos,
        pos + 4 <= b.len(),
    ensures
        le_bytes(spec_u32_le(b, pos)) == b.subrange(pos, pos + 4),
{
    let (b0, b1, b2, b3) = (b[pos], b[pos + 1], b[pos + 2], b[pos + 3]);
    let v = spec_u32_le(b, pos);
    assert(v == b0 + 256 * b1 + 65536 * b2 + 16777216 * b3);
    assert((v % 256) as u8 == b0 && ((v / 256) % 256) as u8 == b1 && ((v / 65536) % 256) as u8
        == b2 && (v / 16777216) as u8 == b3) by (nonlinear_arith)
        requires
            v == b0 + 256 * b1 + 65536 * b2 + 16777216 * b3,
            b0 < 256,
            b1 < 256,
            b2 < 256,
            b3 < 256,
    ;
    assert(le_bytes(v) =~= b.subrange(pos, pos + 4));
}

/// Four bytes that spell `v` are read back as `v`.
pub proof fn lemma_read_le_bytes(b: Seq<u8>, pos: int, v: u32)
    requires
        0 <= pos,
        pos + 4 <= b.len(),
        b.subrange(pos, pos + 4) == le_bytes(v),
    ensures
        spec_u32_le(b, pos) == v,
{
    lemma_le_bytes_roundtrip(v);
    assert(b[pos] == b.subrange(pos, pos + 4)[0]);
    assert(b[pos + 1] == b.subrange(pos, pos + 4)[1]);
    assert(b[pos + 2] == b.subrange(pos, pos + 4)[2]);
    assert(b[pos + 3] == b.subrange(pos, pos + 4)[3]);
}

/// Reads the little-endian `u32` at `buf[pos..pos + 4]`.
pub fn u32_at(buf: &[u8], pos: usize) -> (r: u32)
    requires
        pos + 4 <= buf@.len(),
    ensures
        r == spec_u32_le(buf@, pos as int),
{
    (buf[pos] as u32) + (buf[pos + 1] as u32) * 256 + (buf[pos + 2] as u32) * 65536 + (buf[pos
        + 3] as u32) * 16777216
}

/// Reads the little-endian `u16` at `buf[pos..pos + 2]`.
pub fn u16_at(buf: &[u8], pos: usize) -> (r: u16)
    requires
        pos + 2 <= buf@.len(),
    ensures
        r == spec_u16_le(buf@, pos as int),
{
    (buf[pos] as u16) + (buf[pos + 1] as u16) * 256
}

/// Appends the four little-endian bytes of `v` to `out`.
pub fn push_u32_le(out: &mut Vec<u8>, v: u32)
    ensures
        final(out)@ == old(out)@ + le_bytes(v),
{
    out.push((v % 256) as u8);
    out.push(((v / 256) % 256) as u8);
    out.push(((v / 65536) % 256) as u8);
    out.push((v / 16777216) as u8);
    assert(final(out)@ =~= old(out)@ + le_bytes(v));
}

/// Overwrites `buf[pos..pos + 4]` with the little-endian bytes of `v`.
pub fn put_u32_le(buf: &mut Vec<u8>, pos: usize, v: u32)
    requires
        pos + 4 <= old(buf).len(),
    ensures
        final(buf)@ == old(buf)@.subrange(0, pos as int) + le_bytes(v) + old(buf)@.subrange(
            pos + 4,
            old(buf)@.len() as int,
        ),
{
    let (p1, p2, p3) = (pos + 1, pos + 2, pos + 3);
    buf[pos] = (v % 256) as u8;
    buf[p1] = ((v / 256) % 256) as u8;
    buf[p2] = ((v / 65536) % 256) as u8;
    buf[p3] = (v / 16777216) as u8;
    assert(final(buf)@ =~= old(buf)@.subrange(0, pos as int) + le_bytes(v) + old(buf)@.subrange(
        pos + 4,
        old(buf)@.len() as int,
    ));
}

} // verus!
