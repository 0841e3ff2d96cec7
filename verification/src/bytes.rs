//! Little-endian wire encodings of the fixed-width integers the two formats
//! use, with proofs that reading inverts writing.
//!
//! Doubles and singles travel as their IEEE 754 bit patterns (`u64`/`u32`),
//! so these readers and writers cover every scalar field of both formats.
//! The sequence lemmas at the end carve concatenated wire segments apart.

use vstd::prelude::*;

verus! {

/// The two little-endian bytes of `v`, low byte first.
pub open spec fn le16(v: u16) -> Seq<u8> {
    seq![(v % 256) as u8, ((v / 256) % 256) as u8]
}

/// The four little-endian bytes of `v`, low byte first.
pub open spec fn le32(v: u32) -> Seq<u8> {
    seq![
        (v % 256) as u8,
        ((v / 256) % 256) as u8,
        ((v / 65536) % 256) as u8,
        ((v / 16777216) % 256) as u8,
    ]
}

/// The eight little-endian bytes of `v`, low byte first.
pub open spec fn le64(v: u64) -> Seq<u8> {
    seq![
        (v % 256) as u8,
        ((v / 256) % 256) as u8,
        ((v / 65536) % 256) as u8,
        ((v / 16777216) % 256) as u8,
        ((v / 4294967296) % 256) as u8,
        ((v / 1099511627776) % 256) as u8,
        ((v / 281474976710656) % 256) as u8,
        ((v / 72057594037927936) % 256) as u8,
    ]
}

/// The `u16` whose little-endian bytes are the 2-byte sequence `s`.
pub open spec fn u16_of(s: Seq<u8>) -> u16
    recommends
        s.len() == 2,
{
    (s[0] + s[1] * 256) as u16
}

/// The `u32` whose little-endian bytes are the 4-byte sequence `s`.
pub open spec fn u32_of(s: Seq<u8>) -> u32
    recommends
        s.len() == 4,
{
    (s[0] + s[1] * 256 + s[2] * 65536 + s[3] * 16777216) as u32
}

/// The `u64` whose little-endian bytes are the 8-byte sequence `s`.
pub open spec fn u64_of(s: Seq<u8>) -> u64
    recommends
        s.len() == 8,
{
    (s[0] + s[1] * 256 + s[2] * 65536 + s[3] * 16777216 + s[4] * 4294967296
        + s[5] * 1099511627776 + s[6] * 281474976710656 + s[7] * 72057594037927936) as u64
}

/// The `i16` with the same two's-complement bit pattern as `v`.
pub open spec fn as_i16(v: u16) -> i16 {
    if v < 32768 {
        v as i16
    } else {
        (v - 65536) as i16
    }
}

/// The `u16` with the same two's-complement bit pattern as `v`.
pub open spec fn as_u16(v: i16) -> u16 {
    if v >= 0 {
        v as u16
    } else {
        (v + 65536) as u16
    }
}

/// The `i32` with the same two's-complement bit pattern as `v`.
pub open spec fn as_i32(v: u32) -> i32 {
    if v < 2147483648 {
        v as i32
    } else {
        (v - 4294967296) as i32
    }
}

/// The `u32` with the same two's-complement bit pattern as `v`.
pub open spec fn as_u32(v: i32) -> u32 {
    if v >= 0 {
        v as u32
    } else {
        (v + 4294967296) as u32
    }
}

/// Reading two's-complement bits back gives the signed value.
pub proof fn lemma_as_i16_of_u16(v: i16)
    ensures
        as_i16(as_u16(v)) == v,
{
}

/// Reading two's-complement bits back gives the signed value.
pub proof fn lemma_as_i32_of_u32(v: i32)
    ensures
        as_i32(as_u32(v)) == v,
{
}

/// Decoding the little-endian bytes of `v` gives `v` back.
pub proof fn lemma_u16_round_trip(v: u16)
    ensures
        u16_of(le16(v)) == v,
{
}

/// Decoding the little-endian bytes of `v` gives `v` back.
pub proof fn lemma_u32_round_trip(v: u32)
    ensures
        u32_of(le32(v)) == v,
{
}

/// Decoding the little-endian bytes of `v` gives `v` back.
pub proof fn lemma_u64_round_trip(v: u64)
    ensures
        u64_of(le64(v)) == v,
{
    assert((v % 256) + ((v / 256) % 256) * 256 + ((v / 65536) % 256) * 65536 + ((v
        / 16777216) % 256) * 16777216 + ((v / 4294967296) % 256) * 4294967296 + ((v
        / 1099511627776) % 256) * 1099511627776 + ((v / 281474976710656) % 256)
        * 281474976710656 + ((v / 72057594037927936) % 256) * 72057594037927936 == v)
        by (bit_vector);
}

/// A concatenation splits back into its two parts.
pub proof fn lemma_split_at(a: Seq<u8>, b: Seq<u8>)
    ensures
        (a + b).subrange(0, a.len() as int) =~= a,
        (a + b).subrange(a.len() as int, (a + b).len() as int) =~= b,
{
}

/// A slice that stays inside the left part of a concatenation ignores the
/// right part.
pub proof fn lemma_sub_left(a: Seq<u8>, b: Seq<u8>, x: int, y: int)
    requires
        0 <= x <= y <= a.len(),
    ensures
        (a + b).subrange(x, y) =~= a.subrange(x, y),
{
}

/// A slice that stays inside the right part of a concatenation ignores the
/// left part.
pub proof fn lemma_sub_right(a: Seq<u8>, b: Seq<u8>, x: int, y: int)
    requires
        a.len() <= x <= y <= a.len() + b.len(),
    ensures
        (a + b).subrange(x, y) =~= b.subrange(x - a.len(), y - a.len()),
{
}

/// Peel the last segment off a known prefix of `s`: when the first
/// `|a| + |b|` bytes of `s` are `a + b`, the first `|a|` are `a` and the
/// `|b|` after them are `b`.
pub proof fn lemma_peel(s: Seq<u8>, a: Seq<u8>, b: Seq<u8>)
    requires
        a.len() + b.len() <= s.len(),
        s.subrange(0, (a.len() + b.len()) as int) == a + b,
    ensures
        s.subrange(0, a.len() as int) == a,
        s.subrange(a.len() as int, (a.len() + b.len()) as int) == b,
{
    lemma_split_at(a, b);
    s.lemma_slice_of_slice(0, (a.len() + b.len()) as int, 0, a.len() as int);
    s.lemma_slice_of_slice(0, (a.len() + b.len()) as int, a.len() as int, (a.len() + b.len()) as int);
}

/// Read the little-endian `u16` at `pos`.
pub fn read_u16(buf: &Vec<u8>, pos: usize) -> (r: u16)
    requires
        pos + 2 <= buf.len(),
    ensures
        r == u16_of(buf@.subrange(pos as int, pos + 2)),
{
    let b0 = buf[pos] as u16;
    let b1 = buf[pos + 1] as u16;
    b0 + b1 * 256
}

/// Read the little-endian `u32` at `pos`.
pub fn read_u32(buf: &Vec<u8>, pos: usize) -> (r: u32)
    requires
        pos + 4 <= buf.len(),
    ensures
        r == u32_of(buf@.subrange(pos as int, pos + 4)),
{
    let b0 = buf[pos] as u32;
    let b1 = buf[pos + 1] as u32;
    let b2 = buf[pos + 2] as u32;
    let b3 = buf[pos + 3] as u32;
    b0 + b1 * 256 + b2 * 65536 + b3 * 16777216
}

/// Read the little-endian `u64` at `pos`.
pub fn read_u64(buf: &Vec<u8>, pos: usize) -> (r: u64)
    requires
        pos + 8 <= buf.len(),
    ensures
        r == u64_of(buf@.subrange(pos as int, pos + 8)),
{
    let b0 = buf[pos] as u64;
    let b1 = buf[pos + 1] as u64;
    let b2 = buf[pos + 2] as u64;
    let b3 = buf[pos + 3] as u64;
    let b4 = buf[pos + 4] as u64;
    let b5 = buf[pos + 5] as u64;
    let b6 = buf[pos + 6] as u64;
    let b7 = buf[pos + 7] as u64;
    b0 + b1 * 256 + b2 * 65536 + b3 * 16777216 + b4 * 4294967296 + b5 * 1099511627776
        + b6 * 281474976710656 + b7 * 72057594037927936
}

/// Reinterpret unsigned bits as a signed value.
pub fn u32_to_i32(v: u32) -> (r: i32)
    ensures
        r == as_i32(v),
{
    if v < 2147483648 {
        v as i32
    } else {
        -((4294967295u32 - v) as i32) - 1
    }
}

/// Reinterpret a signed value as its unsigned bits.
pub fn i32_to_u32(v: i32) -> (r: u32)
    ensures
        r == as_u32(v),
{
    if v >= 0 {
        v as u32
    } else {
        4294967295u32 - (-(v + 1)) as u32
    }
}

/// Reinterpret unsigned bits as a signed value.
pub fn u16_to_i16(v: u16) -> (r: i16)
    ensures
        r == as_i16(v),
{
    if v < 32768 {
        v as i16
    } else {
        -((65535u16 - v) as i16) - 1
    }
}

/// Reinterpret a signed value as its unsigned bits.
pub fn i16_to_u16(v: i16) -> (r: u16)
    ensures
        r == as_u16(v),
{
    if v >= 0 {
        v as u16
    } else {
        65535u16 - (-(v + 1)) as u16
    }
}

/// Append the two little-endian bytes of `v`.
pub fn write_u16(out: &mut Vec<u8>, v: u16)
    ensures
        final(out)@ == old(out)@ + le16(v),
{
    out.push((v % 256) as u8);
    out.push(((v / 256) % 256) as u8);
    assert(out@ =~= old(out)@ + le16(v));
}

/// Append the four little-endian bytes of `v`.
pub fn write_u32(out: &mut Vec<u8>, v: u32)
    ensures
        final(out)@ == old(out)@ + le32(v),
{
    out.push((v % 256) as u8);
    out.push(((v / 256) % 256) as u8);
    out.push(((v / 65536) % 256) as u8);
    out.push(((v / 16777216) % 256) as u8);
    assert(out@ =~= old(out)@ + le32(v));
}

/// Append the eight little-endian bytes of `v`.
pub fn write_u64(out: &mut Vec<u8>, v: u64)
    ensures
        final(out)@ == old(out)@ + le64(v),
{
    out.push((v % 256) as u8);
    out.push(((v / 256) % 256) as u8);
    out.push(((v / 65536) % 256) as u8);
    out.push(((v / 16777216) % 256) as u8);
    out.push(((v / 4294967296) % 256) as u8);
    out.push(((v / 1099511627776) % 256) as u8);
    out.push(((v / 281474976710656) % 256) as u8);
    out.push(((v / 72057594037927936) % 256) as u8);
    assert(out@ =~= old(out)@ + le64(v));
}

} // verus!
