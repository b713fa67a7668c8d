//! Little-endian integer encodings and byte-buffer appends used by the
//! RIFF and ZIP writers.
use vstd::prelude::*;

verus! {

/// The two little-endian bytes of a 16-bit value.
pub open spec fn le16(v: int) -> Seq<u8> {
    seq![(v % 256) as u8, ((v / 256) % 256) as u8]
}

/// The three little-endian bytes of a 24-bit value.
pub open spec fn le24(v: int) -> Seq<u8> {
    seq![(v % 256) as u8, ((v / 256) % 256) as u8, ((v / 65536) % 256) as u8]
}

/// The four little-endian bytes of a 32-bit value.
pub open spec fn le32(v: int) -> Seq<u8> {
    seq![
        (v % 256) as u8,
        ((v / 256) % 256) as u8,
        ((v / 65536) % 256) as u8,
        ((v / 16777216) % 256) as u8,
    ]
}

/// The value of four little-endian bytes.
pub open spec fn le32_value(b: Seq<u8>) -> int {
    b[0] + b[1] * 256 + b[2] * 65536 + b[3] * 16777216
}

/// Reading back four written bytes gives the value.
pub proof fn lemma_le32_roundtrip(v: int)
    requires
        0 <= v <= 0xffff_ffff,
    ensures
        le32_value(le32(v)) == v,
        le32(v).len() == 4,
{
}

/// Appends bytes.
pub fn push_bytes(out: &mut Vec<u8>, bytes: &[u8])
    ensures
        final(out)@ == old(out)@ + bytes@,
{
    let ghost base = out@;
    let mut i: usize = 0;
    while i < bytes.len()
        invariant
            i <= bytes.len(),
            out@ == base + bytes@.take(i as int),
        decreases bytes.len() - i,
    {
        out.push(bytes[i]);
        i += 1;
        assert(base + bytes@.take(i as int) == (base + bytes@.take(i - 1)).push(bytes@[i - 1]));
    }
    assert(bytes@.take(bytes.len() as int) == bytes@);
}

/// Appends a 16-bit value in little-endian order.
pub fn push_le16(out: &mut Vec<u8>, v: u16)
    ensures
        final(out)@ == old(out)@ + le16(v as int),
{
    out.push((v % 256) as u8);
    out.push(((v / 256) % 256) as u8);
    assert(out@ == old(out)@ + le16(v as int));
}

/// Appends a 24-bit value in little-endian order.
pub fn push_le24(out: &mut Vec<u8>, v: u32)
    requires
        v <= 0xff_ffff,
    ensures
        final(out)@ == old(out)@ + le24(v as int),
{
    out.push((v % 256) as u8);
    out.push(((v / 256) % 256) as u8);
    out.push(((v / 65536) % 256) as u8);
    assert(out@ == old(out)@ + le24(v as int));
}

/// Appends a 32-bit value in little-endian order.
pub fn push_le32(out: &mut Vec<u8>, v: u32)
    ensures
        final(out)@ == old(out)@ + le32(v as int),
{
    out.push((v % 256) as u8);
    out.push(((v / 256) % 256) as u8);
    out.push(((v / 65536) % 256) as u8);
    out.push(((v / 16777216) % 256) as u8);
    assert(out@ == old(out)@ + le32(v as int));
}

/// The value of four little-endian bytes starting at `at`.
pub fn le32_at(data: &[u8], at: usize) -> (v: u32)
    requires
        at + 4 <= data.len(),
    ensures
        v as int == le32_value(data@.subrange(at as int, at + 4)),
{
    let b0 = data[at] as u32;
    let b1 = data[at + 1] as u32;
    let b2 = data[at + 2] as u32;
    let b3 = data[at + 3] as u32;
    b0 + b1 * 256 + b2 * 65536 + b3 * 16777216
}

} // verus!
