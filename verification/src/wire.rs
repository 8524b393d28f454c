//! Big-endian integer views of byte sequences, shared by the bitmap and the
//! message length indicator framing.

use vstd::prelude::*;

verus! {

/// The big-endian `u16` denoted by a 2-byte sequence.
pub open spec fn u16_of_be(s: Seq<u8>) -> u16
    recommends
        s.len() == 2,
{
    ((s[0] as u16) << 8u16) | (s[1] as u16)
}

/// The big-endian `u32` denoted by a 4-byte sequence.
pub open spec fn u32_of_be(s: Seq<u8>) -> u32
    recommends
        s.len() == 4,
{
    ((s[0] as u32) << 24u32) | ((s[1] as u32) << 16u32) | ((s[2] as u32) << 8u32) | (s[3] as u32)
}

/// The big-endian `u64` denoted by an 8-byte sequence.
pub open spec fn u64_of_be(s: Seq<u8>) -> u64
    recommends
        s.len() == 8,
{
    ((s[0] as u64) << 56u64) | ((s[1] as u64) << 48u64) | ((s[2] as u64) << 40u64) | ((s[3]
        as u64) << 32u64) | ((s[4] as u64) << 24u64) | ((s[5] as u64) << 16u64) | ((s[6]
        as u64) << 8u64) | (s[7] as u64)
}

/// The 2-byte big-endian encoding of a `u16`.
pub open spec fn u16_to_be(x: u16) -> Seq<u8> {
    seq![((x >> 8u16) & 0xffu16) as u8, (x & 0xffu16) as u8]
}

/// The 4-byte big-endian encoding of a `u32`.
pub open spec fn u32_to_be(x: u32) -> Seq<u8> {
    seq![
        ((x >> 24u32) & 0xffu32) as u8,
        ((x >> 16u32) & 0xffu32) as u8,
        ((x >> 8u32) & 0xffu32) as u8,
        (x & 0xffu32) as u8,
    ]
}

/// The 8-byte big-endian encoding of a `u64`.
pub open spec fn u64_to_be(x: u64) -> Seq<u8> {
    seq![
        ((x >> 56u64) & 0xffu64) as u8,
        ((x >> 48u64) & 0xffu64) as u8,
        ((x >> 40u64) & 0xffu64) as u8,
        ((x >> 32u64) & 0xffu64) as u8,
        ((x >> 24u64) & 0xffu64) as u8,
        ((x >> 16u64) & 0xffu64) as u8,
        ((x >> 8u64) & 0xffu64) as u8,
        (x & 0xffu64) as u8,
    ]
}

/// Encoding a `u16` and reading it back is the identity.
pub proof fn lemma_u16_be_round_trip(x: u16)
    ensures
        u16_of_be(u16_to_be(x)) == x,
{
    let s = u16_to_be(x);
    assert(((((x >> 8u16) & 0xffu16) as u8 as u16) << 8u16) | ((x & 0xffu16) as u8 as u16)
        == x) by (bit_vector);
    assert(s[0] == ((x >> 8u16) & 0xffu16) as u8);
    assert(s[1] == (x & 0xffu16) as u8);
}

/// Encoding a `u32` and reading it back is the identity.
pub proof fn lemma_u32_be_round_trip(x: u32)
    ensures
        u32_of_be(u32_to_be(x)) == x,
{
    let s = u32_to_be(x);
    assert(((((x >> 24u32) & 0xffu32) as u8 as u32) << 24u32) | ((((x >> 16u32) & 0xffu32) as u8
        as u32) << 16u32) | ((((x >> 8u32) & 0xffu32) as u8 as u32) << 8u32) | ((x & 0xffu32) as u8
        as u32) == x) by (bit_vector);
    assert(s[0] == ((x >> 24u32) & 0xffu32) as u8);
    assert(s[1] == ((x >> 16u32) & 0xffu32) as u8);
    assert(s[2] == ((x >> 8u32) & 0xffu32) as u8);
    assert(s[3] == (x & 0xffu32) as u8);
}

/// Encoding a `u64` and reading it back is the identity.
pub proof fn lemma_u64_be_round_trip(x: u64)
    ensures
        u64_of_be(u64_to_be(x)) == x,
{
    let s = u64_to_be(x);
    assert(((((x >> 56u64) & 0xffu64) as u8 as u64) << 56u64) | ((((x >> 48u64) & 0xffu64) as u8
        as u64) << 48u64) | ((((x >> 40u64) & 0xffu64) as u8 as u64) << 40u64) | ((((x >> 32u64)
        & 0xffu64) as u8 as u64) << 32u64) | ((((x >> 24u64) & 0xffu64) as u8 as u64) << 24u64) | ((((x
        >> 16u64) & 0xffu64) as u8 as u64) << 16u64) | ((((x >> 8u64) & 0xffu64) as u8 as u64)
        << 8u64) | ((x & 0xffu64) as u8 as u64) == x) by (bit_vector);
    assert(s[0] == ((x >> 56u64) & 0xffu64) as u8);
    assert(s[1] == ((x >> 48u64) & 0xffu64) as u8);
    assert(s[2] == ((x >> 40u64) & 0xffu64) as u8);
    assert(s[3] == ((x >> 32u64) & 0xffu64) as u8);
    assert(s[4] == ((x >> 24u64) & 0xffu64) as u8);
    assert(s[5] == ((x >> 16u64) & 0xffu64) as u8);
    assert(s[6] == ((x >> 8u64) & 0xffu64) as u8);
    assert(s[7] == (x & 0xffu64) as u8);
}

/// Reading a big-endian `u64` from 8 bytes and encoding it again yields the
/// same bytes.
pub proof fn lemma_u64_be_bytes_round_trip(s: Seq<u8>)
    requires
        s.len() == 8,
    ensures
        u64_to_be(u64_of_be(s)) =~= s,
{
    let b0 = s[0];
    let b1 = s[1];
    let b2 = s[2];
    let b3 = s[3];
    let b4 = s[4];
    let b5 = s[5];
    let b6 = s[6];
    let b7 = s[7];
    let x = u64_of_be(s);
    assert(x == ((b0 as u64) << 56u64) | ((b1 as u64) << 48u64) | ((b2 as u64) << 40u64) | ((b3
        as u64) << 32u64) | ((b4 as u64) << 24u64) | ((b5 as u64) << 16u64) | ((b6 as u64)
        << 8u64) | (b7 as u64));
    assert({
        let y = ((b0 as u64) << 56u64) | ((b1 as u64) << 48u64) | ((b2 as u64) << 40u64) | ((b3
            as u64) << 32u64) | ((b4 as u64) << 24u64) | ((b5 as u64) << 16u64) | ((b6 as u64)
            << 8u64) | (b7 as u64);
        ((y >> 56u64) & 0xffu64) as u8 == b0 && ((y >> 48u64) & 0xffu64) as u8 == b1 && ((y
            >> 40u64) & 0xffu64) as u8 == b2 && ((y >> 32u64) & 0xffu64) as u8 == b3 && ((y
            >> 24u64) & 0xffu64) as u8 == b4 && ((y >> 16u64) & 0xffu64) as u8 == b5 && ((y
            >> 8u64) & 0xffu64) as u8 == b6 && (y & 0xffu64) as u8 == b7
    }) by (bit_vector);
}

/// Reads the big-endian `u16` stored at `pos`.
pub fn read_u16_be(buf: &Vec<u8>, pos: usize) -> (x: u16)
    requires
        pos + 2 <= buf.len(),
    ensures
        x == u16_of_be(buf@.subrange(pos as int, pos as int + 2)),
{
    let x = ((buf[pos] as u16) << 8u16) | (buf[pos + 1] as u16);
    proof {
        let s = buf@.subrange(pos as int, pos as int + 2);
        assert(s[0] == buf@[pos as int]);
        assert(s[1] == buf@[pos as int + 1]);
    }
    x
}

/// Reads the big-endian `u32` stored at `pos`.
pub fn read_u32_be(buf: &Vec<u8>, pos: usize) -> (x: u32)
    requires
        pos + 4 <= buf.len(),
    ensures
        x == u32_of_be(buf@.subrange(pos as int, pos as int + 4)),
{
    let x = ((buf[pos] as u32) << 24u32) | ((buf[pos + 1] as u32) << 16u32) | ((buf[pos + 2]
        as u32) << 8u32) | (buf[pos + 3] as u32);
    proof {
        let s = buf@.subrange(pos as int, pos as int + 4);
        assert(s[0] == buf@[pos as int]);
        assert(s[1] == buf@[pos as int + 1]);
        assert(s[2] == buf@[pos as int + 2]);
        assert(s[3] == buf@[pos as int + 3]);
    }
    x
}

/// Reads the big-endian `u64` stored at `pos`.
pub fn read_u64_be(buf: &Vec<u8>, pos: usize) -> (x: u64)
    requires
        pos + 8 <= buf.len(),
    ensures
        x == u64_of_be(buf@.subrange(pos as int, pos as int + 8)),
{
    let x = ((buf[pos] as u64) << 56u64) | ((buf[pos + 1] as u64) << 48u64) | ((buf[pos + 2]
        as u64) << 40u64) | ((buf[pos + 3] as u64) << 32u64) | ((buf[pos + 4] as u64) << 24u64) | ((
    buf[pos + 5] as u64) << 16u64) | ((buf[pos + 6] as u64) << 8u64) | (buf[pos + 7] as u64);
    proof {
        let s = buf@.subrange(pos as int, pos as int + 8);
        assert(s[0] == buf@[pos as int]);
        assert(s[1] == buf@[pos as int + 1]);
        assert(s[2] == buf@[pos as int + 2]);
        assert(s[3] == buf@[pos as int + 3]);
        assert(s[4] == buf@[pos as int + 4]);
        assert(s[5] == buf@[pos as int + 5]);
        assert(s[6] == buf@[pos as int + 6]);
        assert(s[7] == buf@[pos as int + 7]);
    }
    x
}

/// Appends the 2-byte big-endian encoding of `x`.
pub fn push_u16_be(out: &mut Vec<u8>, x: u16)
    ensures
        final(out)@ =~= old(out)@ + u16_to_be(x),
{
    out.push(((x >> 8u16) & 0xffu16) as u8);
    out.push((x & 0xffu16) as u8);
}

/// Appends the 4-byte big-endian encoding of `x`.
pub fn push_u32_be(out: &mut Vec<u8>, x: u32)
    ensures
        final(out)@ =~= old(out)@ + u32_to_be(x),
{
    out.push(((x >> 24u32) & 0xffu32) as u8);
    out.push(((x >> 16u32) & 0xffu32) as u8);
    out.push(((x >> 8u32) & 0xffu32) as u8);
    out.push((x & 0xffu32) as u8);
}

/// Appends the 8-byte big-endian encoding of `x`.
pub fn push_u64_be(out: &mut Vec<u8>, x: u64)
    ensures
        final(out)@ =~= old(out)@ + u64_to_be(x),
{
    out.push(((x >> 56u64) & 0xffu64) as u8);
    out.push(((x >> 48u64) & 0xffu64) as u8);
    out.push(((x >> 40u64) & 0xffu64) as u8);
    out.push(((x >> 32u64) & 0xffu64) as u8);
    out.push(((x >> 24u64) & 0xffu64) as u8);
    out.push(((x >> 16u64) & 0xffu64) as u8);
    out.push(((x >> 8u64) & 0xffu64) as u8);
    out.push((x & 0xffu64) as u8);
}

} // verus!
