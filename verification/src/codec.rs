//! Little-endian integer encodings shared by the transport formats.
use vstd::prelude::*;

verus! {

/// Two-byte little-endian encoding.
pub open spec fn le16(x: int) -> Seq<u8> {
    seq![(x % 256) as u8, ((x / 256) % 256) as u8]
}

/// Four-byte little-endian encoding.
pub open spec fn le32(x: int) -> Seq<u8> {
    le16(x % 0x10000) + le16((x / 0x10000) % 0x10000)
}

/// Eight-byte little-endian encoding.
pub open spec fn le64(x: int) -> Seq<u8> {
    le32(x % 0x1_0000_0000) + le32((x / 0x1_0000_0000) % 0x1_0000_0000)
}

/// Little-endian `u16` read at byte offset `off`.
pub open spec fn le_u16_at(s: Seq<u8>, off: int) -> int {
    s[off] as int + 256 * (s[off + 1] as int)
}

/// Little-endian `u32` read at byte offset `off`.
pub open spec fn le_u32_at(s: Seq<u8>, off: int) -> int {
    le_u16_at(s, off) + 0x10000 * le_u16_at(s, off + 2)
}

/// Little-endian `u64` read at byte offset `off`.
pub open spec fn le_u64_at(s: Seq<u8>, off: int) -> int {
    le_u32_at(s, off) + 0x1_0000_0000 * le_u32_at(s, off + 4)
}

pub proof fn lemma_le16_roundtrip(x: int, s: Seq<u8>, off: int)
    requires
        0 <= x < 0x10000,
        0 <= off,
        off + 2 <= s.len(),
        s.subrange(off, off + 2) == le16(x),
    ensures
        le_u16_at(s, off) == x,
{
    assert(s[off] == le16(x)[0]);
    assert(s[off + 1] == le16(x)[1]);
}

pub proof fn lemma_le32_roundtrip(x: int, s: Seq<u8>, off: int)
    requires
        0 <= x < 0x1_0000_0000,
        0 <= off,
        off + 4 <= s.len(),
        s.subrange(off, off + 4) == le32(x),
    ensures
        le_u32_at(s, off) == x,
{
    assert(s.subrange(off, off + 2) == le16(x % 0x10000)) by {
        assert(s.subrange(off, off + 2) =~= s.subrange(off, off + 4).subrange(0, 2));
    }
    assert(s.subrange(off + 2, off + 4) == le16((x / 0x10000) % 0x10000)) by {
        assert(s.subrange(off + 2, off + 4) =~= s.subrange(off, off + 4).subrange(2, 4));
    }
    lemma_le16_roundtrip(x % 0x10000, s, off);
    lemma_le16_roundtrip((x / 0x10000) % 0x10000, s, off + 2);
}

#[verifier::rlimit(50)]
pub proof fn lemma_le64_roundtrip(x: int, s: Seq<u8>, off: int)
    requires
        0 <= x < 0x1_0000_0000_0000_0000,
        0 <= off,
        off + 8 <= s.len(),
        s.subrange(off, off + 8) == le64(x),
    ensures
        le_u64_at(s, off) == x,
{
    assert(s.subrange(off, off + 4) == le32(x % 0x1_0000_0000)) by {
        assert(s.subrange(off, off + 4) =~= s.subrange(off, off + 8).subrange(0, 4));
    }
    assert(s.subrange(off + 4, off + 8) == le32((x / 0x1_0000_0000) % 0x1_0000_0000)) by {
        assert(s.subrange(off + 4, off + 8) =~= s.subrange(off, off + 8).subrange(4, 8));
    }
    lemma_le32_roundtrip(x % 0x1_0000_0000, s, off);
    lemma_le32_roundtrip((x / 0x1_0000_0000) % 0x1_0000_0000, s, off + 4);
}

/// Append the two-byte little-endian encoding of `v`.
pub fn push_u16_le(buf: &mut Vec<u8>, v: u16)
    ensures
        final(buf)@ == old(buf)@ + le16(v as int),
{
    let lo = (v & 0xff) as u8;
    let hi = (v >> 8) as u8;
    assert(lo == v % 256 && hi == (v / 256) % 256) by (bit_vector)
        requires lo == (v & 0xff) as u8, hi == (v >> 8) as u8;
    buf.push(lo);
    buf.push(hi);
}

/// Append the four-byte little-endian encoding of `v`.
pub fn push_u32_le(buf: &mut Vec<u8>, v: u32)
    ensures
        final(buf)@ == old(buf)@ + le32(v as int),
{
    let lo = (v & 0xffff) as u16;
    let hi = (v >> 16) as u16;
    assert(lo == v % 0x10000 && hi == (v / 0x10000) % 0x10000) by (bit_vector)
        requires lo == (v & 0xffff) as u16, hi == (v >> 16) as u16;
    push_u16_le(buf, lo);
    push_u16_le(buf, hi);
    assert(final(buf)@ =~= old(buf)@ + le32(v as int));
}

/// Append the eight-byte little-endian encoding of `v`.
pub fn push_u64_le(buf: &mut Vec<u8>, v: u64)
    ensures
        final(buf)@ == old(buf)@ + le64(v as int),
{
    let lo = (v & 0xffff_ffff) as u32;
    let hi = (v >> 32) as u32;
    assert(lo == v % 0x1_0000_0000 && hi == (v / 0x1_0000_0000) % 0x1_0000_0000) by (bit_vector)
        requires lo == (v & 0xffff_ffff) as u32, hi == (v >> 32) as u32;
    push_u32_le(buf, lo);
    push_u32_le(buf, hi);
    assert(final(buf)@ =~= old(buf)@ + le64(v as int));
}

/// Read a little-endian `u16` at `off`.
pub fn read_u16_le_at(data: &[u8], off: usize) -> (v: u16)
    requires
        off + 2 <= data@.len(),
    ensures
        v == le_u16_at(data@, off as int),
{
    let v = (data[off] as u16) | ((data[off + 1] as u16) << 8);
    let a = data[off];
    let b = data[off + 1];
    assert(((a as u16) | ((b as u16) << 8)) == a as u16 + 256 * (b as u16)) by (bit_vector);
    v
}

/// Read a little-endian `u32` at `off`.
pub fn read_u32_le_at(data: &[u8], off: usize) -> (v: u32)
    requires
        off + 4 <= data@.len(),
    ensures
        v == le_u32_at(data@, off as int),
{
    let _len = data.len();
    let lo = read_u16_le_at(data, off);
    let hi = read_u16_le_at(data, off + 2);
    lo as u32 + 0x10000 * (hi as u32)
}

/// Read a little-endian `u64` at `off`.
pub fn read_u64_le_at(data: &[u8], off: usize) -> (v: u64)
    requires
        off + 8 <= data@.len(),
    ensures
        v == le_u64_at(data@, off as int),
{
    let _len = data.len();
    let lo = read_u32_le_at(data, off);
    let hi = read_u32_le_at(data, off + 4);
    lo as u64 + 0x1_0000_0000 * (hi as u64)
}

/// Append all bytes of `src` to `buf`.
pub fn extend_bytes(buf: &mut Vec<u8>, src: &[u8])
    ensures
        final(buf)@ == old(buf)@ + src@,
{
    let mut i: usize = 0;
    while i < src.len()
        invariant
            i <= src@.len(),
            buf@ == old(buf)@ + src@.subrange(0, i as int),
        decreases src@.len() - i,
    {
        buf.push(src[i]);
        i += 1;
        assert(buf@ =~= old(buf)@ + src@.subrange(0, i as int));
    }
    assert(src@.subrange(0, src@.len() as int) =~= src@);
}

/// Copy `data[off .. off + len]` into a new vector.
pub fn copy_range(data: &[u8], off: usize, len: usize) -> (v: Vec<u8>)
    requires
        off + len <= data@.len(),
    ensures
        v@ == data@.subrange(off as int, off + len),
{
    let _dlen = data.len();
    let mut v: Vec<u8> = Vec::with_capacity(len);
    let mut i: usize = 0;
    while i < len
        invariant
            off + len <= data@.len(),
            data@.len() <= usize::MAX,
            i <= len,
            v@ == data@.subrange(off as int, off + i),
        decreases len - i,
    {
        v.push(data[off + i]);
        i += 1;
        assert(v@ =~= data@.subrange(off as int, off + i));
    }
    v
}

/// Little-endian bytes of a `usize` (`usize::to_le_bytes`: eight bytes on 64-bit targets, four on 32-bit).
pub open spec fn usize_le(x: int) -> Seq<u8> {
    if usize::BITS == 64 { le64(x) } else { le32(x) }
}

/// Append `v.to_le_bytes()`.
pub fn push_usize_le(buf: &mut Vec<u8>, v: usize)
    ensures
        final(buf)@ == old(buf)@ + usize_le(v as int),
{
    if usize::BITS == 64 {
        push_u64_le(buf, v as u64);
    } else {
        push_u32_le(buf, v as u32);
    }
}

} // verus!
