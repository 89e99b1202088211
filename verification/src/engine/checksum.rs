//! CRC-32 checksums.
//!
//! The checksum is that of IEEE 802.3, with the bits of each byte taken from the lowest
//! to the highest.
use vstd::prelude::*;

verus! {

/// The polynomial, without its highest term and with its bits in reverse order.
pub const POLYNOMIAL: u32 = 0xEDB8_8320;

/// The remainder after one more bit.
pub open spec fn crc_bit(c: u32) -> u32 {
    if c & 1 == 1 {
        (c >> 1) ^ POLYNOMIAL
    } else {
        c >> 1
    }
}

/// The remainder after one more byte.
pub open spec fn crc_byte(c: u32, byte: u8) -> u32 {
    let x = c ^ (byte as u32);
    crc_bit(crc_bit(crc_bit(crc_bit(crc_bit(crc_bit(crc_bit(crc_bit(x))))))))
}

/// The remainder after all bytes of a string. It starts with all bits set.
pub open spec fn crc_bytes(data: Seq<u8>) -> u32
    decreases data.len(),
{
    if data.len() == 0 {
        0xFFFF_FFFF
    } else {
        crc_byte(crc_bytes(data.drop_last()), data.last())
    }
}

/// The CRC-32 checksum of a byte string: the remainder with all bits flipped.
#[verifier::opaque]
pub open spec fn crc32(data: Seq<u8>) -> u32 {
    !crc_bytes(data)
}

/// `crc32fast::hash` computes the IEEE CRC-32 checksum of the bytes.
pub assume_specification[ crc32fast::hash ](buf: &[u8]) -> (r: u32)
    ensures
        r == crc32(buf@),
;

/// One more bit keeps different remainders apart.
proof fn lemma_bit_apart(c: u32, d: u32)
    requires
        c != d,
    ensures
        crc_bit(c) != crc_bit(d),
{
    assert(c != d ==> crc_bit(c) != crc_bit(d)) by (bit_vector);
}

/// One more byte keeps different remainders apart.
proof fn lemma_byte_apart(c: u32, d: u32, byte: u8)
    requires
        c != d,
    ensures
        crc_byte(c, byte) != crc_byte(d, byte),
{
    let b = byte as u32;
    assert(c != d ==> c ^ b != d ^ b) by (bit_vector);
    lemma_bits_apart(c ^ b, d ^ b);
}

/// Different bytes lead to different remainders.
proof fn lemma_bytes_apart(c: u32, byte: u8, other: u8)
    requires
        byte != other,
    ensures
        crc_byte(c, byte) != crc_byte(c, other),
{
    let a = byte as u32;
    let b = other as u32;
    assert(a != b ==> c ^ a != c ^ b) by (bit_vector);
    lemma_bits_apart(c ^ a, c ^ b);
}

/// Eight more bits keep different remainders apart.
proof fn lemma_bits_apart(c: u32, d: u32)
    requires
        c != d,
    ensures
        crc_bit(crc_bit(crc_bit(crc_bit(crc_bit(crc_bit(crc_bit(crc_bit(c)))))))) != crc_bit(
            crc_bit(crc_bit(crc_bit(crc_bit(crc_bit(crc_bit(crc_bit(d))))))),
        ),
{
    let (c1, d1) = (crc_bit(c), crc_bit(d));
    let (c2, d2) = (crc_bit(c1), crc_bit(d1));
    let (c3, d3) = (crc_bit(c2), crc_bit(d2));
    let (c4, d4) = (crc_bit(c3), crc_bit(d3));
    let (c5, d5) = (crc_bit(c4), crc_bit(d4));
    let (c6, d6) = (crc_bit(c5), crc_bit(d5));
    let (c7, d7) = (crc_bit(c6), crc_bit(d6));
    lemma_bit_apart(c, d);
    lemma_bit_apart(c1, d1);
    lemma_bit_apart(c2, d2);
    lemma_bit_apart(c3, d3);
    lemma_bit_apart(c4, d4);
    lemma_bit_apart(c5, d5);
    lemma_bit_apart(c6, d6);
    lemma_bit_apart(c7, d7);
}

/// One changed byte changes the remainder.
proof fn lemma_changed_byte(data: Seq<u8>, at: int, byte: u8)
    requires
        0 <= at < data.len(),
        byte != data[at],
    ensures
        crc_bytes(data.update(at, byte)) != crc_bytes(data),
    decreases data.len(),
{
    let changed = data.update(at, byte);
    let n = data.len() - 1;
    if at == n {
        assert(changed.drop_last() =~= data.drop_last());
        lemma_bytes_apart(crc_bytes(data.drop_last()), byte, data[at]);
    } else {
        assert(changed.drop_last() =~= data.drop_last().update(at, byte));
        lemma_changed_byte(data.drop_last(), at, byte);
        lemma_byte_apart(
            crc_bytes(changed.drop_last()),
            crc_bytes(data.drop_last()),
            data.last(),
        );
    }
}

/// Byte strings that differ in one byte have different checksums.
pub proof fn law_changed_byte(data: Seq<u8>, at: int, byte: u8)
    requires
        0 <= at < data.len(),
        byte != data[at],
    ensures
        crc32(data.update(at, byte)) != crc32(data),
{
    reveal(crc32);
    lemma_changed_byte(data, at, byte);
    let c = crc_bytes(data.update(at, byte));
    let d = crc_bytes(data);
    assert(c != d ==> !c != !d) by (bit_vector);
}

} // verus!
