//! Big-endian encoding of fixed-width unsigned integers, and byte buffers.

use vstd::prelude::*;

verus! {

/// The four bytes of `x`, most significant first.
pub open spec fn u32_be(x: u32) -> Seq<u8> {
    seq![(x / 0x100_0000) as u8, ((x / 0x1_0000) % 0x100) as u8, ((x / 0x100) % 0x100) as u8, (x % 0x100) as u8]
}

/// The number whose big-endian encoding is the first four bytes of `s`.
pub open spec fn u32_of_be(s: Seq<u8>) -> u32
    recommends
        s.len() >= 4,
{
    (s[0] * 0x100_0000 + s[1] * 0x1_0000 + s[2] * 0x100 + s[3]) as u32
}

/// The eight bytes of `x`, most significant first.
pub open spec fn u64_be(x: u64) -> Seq<u8> {
    u32_be((x / 0x1_0000_0000) as u32) + u32_be((x % 0x1_0000_0000) as u32)
}

/// The number whose big-endian encoding is the first eight bytes of `s`.
pub open spec fn u64_of_be(s: Seq<u8>) -> u64
    recommends
        s.len() >= 8,
{
    (u32_of_be(s) * 0x1_0000_0000 + u32_of_be(s.subrange(4, 8))) as u64
}

/// Decoding an encoded `u32` gives it back.
pub proof fn lemma_u32_be_roundtrip(x: u32)
    ensures
        u32_be(x).len() == 4,
        u32_of_be(u32_be(x)) == x,
{
    let b0 = (x / 0x100_0000) as u8;
    let b1 = ((x / 0x1_0000) % 0x100) as u8;
    let b2 = ((x / 0x100) % 0x100) as u8;
    let b3 = (x % 0x100) as u8;
    assert(b0 * 0x100_0000 + b1 * 0x1_0000 + b2 * 0x100 + b3 == x) by (nonlinear_arith)
        requires
            b0 == x / 0x100_0000,
            b1 == (x / 0x1_0000) % 0x100,
            b2 == (x / 0x100) % 0x100,
            b3 == x % 0x100,
            x < 0x1_0000_0000,
    ;
}

/// Decoding an encoded `u64` gives it back.
pub proof fn lemma_u64_be_roundtrip(x: u64)
    ensures
        u64_be(x).len() == 8,
        u64_of_be(u64_be(x)) == x,
{
    let hi = (x / 0x1_0000_0000) as u32;
    let lo = (x % 0x1_0000_0000) as u32;
    lemma_u32_be_roundtrip(hi);
    lemma_u32_be_roundtrip(lo);
    let s = u64_be(x);
    assert(s.subrange(0, 4) =~= u32_be(hi));
    assert(s.subrange(4, 8) =~= u32_be(lo));
    assert(u32_of_be(s) == u32_of_be(u32_be(hi)));
    assert(hi * 0x1_0000_0000 + lo == x) by (nonlinear_arith)
        requires
            hi == x / 0x1_0000_0000,
            lo == x % 0x1_0000_0000,
    ;
}

/// Appends the bytes of `src` to `buf`.
pub fn push_bytes(buf: &mut Vec<u8>, src: &[u8])
    ensures
        final(buf)@ == old(buf)@ + src@,
{
    let mut i: usize = 0;
    while i < src.len()
        invariant
            i <= src@.len(),
            buf@ == old(buf)@ + src@.subrange(0, i as int),
        decreases src@.len() - i,
    {
        buf.push(src[i]);
        i = i + 1;
        assert(buf@ =~= old(buf)@ + src@.subrange(0, i as int));
    }
    assert(src@.subrange(0, i as int) =~= src@);
}

/// Appends the big-endian bytes of `x` to `buf`.
pub fn push_u32_be(buf: &mut Vec<u8>, x: u32)
    ensures
        final(buf)@ == old(buf)@ + u32_be(x),
{
    let b0 = (x >> 24) as u8;
    let b1 = (x >> 16) as u8;
    let b2 = (x >> 8) as u8;
    let b3 = x as u8;
    assert(b0 == (x / 0x100_0000) as u8 && b1 == ((x / 0x1_0000) % 0x100) as u8 && b2 == ((x
        / 0x100) % 0x100) as u8 && b3 == (x % 0x100) as u8) by (bit_vector)
        requires
            b0 == (x >> 24) as u8,
            b1 == (x >> 16) as u8,
            b2 == (x >> 8) as u8,
            b3 == x as u8,
    ;
    buf.push(b0);
    buf.push(b1);
    buf.push(b2);
    buf.push(b3);
    assert(final(buf)@ =~= old(buf)@ + u32_be(x));
}

/// Appends the big-endian bytes of `x` to `buf`.
pub fn push_u64_be(buf: &mut Vec<u8>, x: u64)
    ensures
        final(buf)@ == old(buf)@ + u64_be(x),
{
    let hi = (x >> 32) as u32;
    let lo = x as u32;
    assert(hi == (x / 0x1_0000_0000) as u32 && lo == (x % 0x1_0000_0000) as u32) by (bit_vector)
        requires
            hi == (x >> 32) as u32,
            lo == x as u32,
    ;
    push_u32_be(buf, hi);
    push_u32_be(buf, lo);
    assert(final(buf)@ =~= old(buf)@ + u64_be(x));
}

/// Reads the big-endian `u32` at `pos`.
pub fn read_u32_be(bytes: &[u8], pos: usize) -> (r: u32)
    requires
        pos + 4 <= bytes.len(),
    ensures
        r == u32_of_be(bytes@.subrange(pos as int, pos + 4)),
{
    let b0 = bytes[pos] as u32;
    let b1 = bytes[pos + 1] as u32;
    let b2 = bytes[pos + 2] as u32;
    let b3 = bytes[pos + 3] as u32;
    let r = (b0 << 24) | (b1 << 16) | (b2 << 8) | b3;
    assert(r == b0 * 0x100_0000 + b1 * 0x1_0000 + b2 * 0x100 + b3) by (bit_vector)
        requires
            b0 < 0x100,
            b1 < 0x100,
            b2 < 0x100,
            b3 < 0x100,
            r == (b0 << 24) | (b1 << 16) | (b2 << 8) | b3,
    ;
    r
}

/// Reads the big-endian `u64` at `pos`.
pub fn read_u64_be(bytes: &[u8], pos: usize) -> (r: u64)
    requires
        pos + 8 <= bytes.len(),
    ensures
        r == u64_of_be(bytes@.subrange(pos as int, pos + 8)),
{
    let hi = read_u32_be(bytes, pos) as u64;
    let lo = read_u32_be(bytes, pos + 4) as u64;
    let r = (hi << 32) | lo;
    assert(r == hi * 0x1_0000_0000 + lo) by (bit_vector)
        requires
            hi < 0x1_0000_0000,
            lo < 0x1_0000_0000,
            r == (hi << 32) | lo,
    ;
    let ghost s = bytes@.subrange(pos as int, pos + 8);
    assert(s.subrange(4, 8) =~= bytes@.subrange(pos + 4, pos + 8));
    assert(s.subrange(0, 4) =~= bytes@.subrange(pos as int, pos + 4));
    r
}

} // verus!
