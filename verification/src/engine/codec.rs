//! Little-endian integers in byte strings.
//!
//! Every on-disk structure of the engine is built from the pieces defined here:
//! `u16_le`, `u32_le` and `u64_le` say which bytes an integer becomes, and
//! `u16_at`, `u32_at` and `u64_at` say which integer stands at an offset.
use vstd::prelude::*;

verus! {

/// The two bytes of `x`, least significant first.
pub open spec fn u16_le(x: u16) -> Seq<u8> {
    seq![(x % 256) as u8, (x / 256) as u8]
}

/// The four bytes of `x`, least significant first.
pub open spec fn u32_le(x: u32) -> Seq<u8> {
    seq![
        (x % 256) as u8,
        ((x / 256) % 256) as u8,
        ((x / 65536) % 256) as u8,
        (x / 16777216) as u8,
    ]
}

/// The eight bytes of `x`, least significant first.
pub open spec fn u64_le(x: u64) -> Seq<u8> {
    u32_le((x % 0x1_0000_0000) as u32) + u32_le((x / 0x1_0000_0000) as u32)
}

/// The integer whose two bytes stand at `at`.
pub open spec fn u16_at(s: Seq<u8>, at: int) -> u16 {
    (s[at] + 256 * s[at + 1]) as u16
}

/// The integer whose four bytes stand at `at`.
pub open spec fn u32_at(s: Seq<u8>, at: int) -> u32 {
    (s[at] + 256 * s[at + 1] + 65536 * s[at + 2] + 16777216 * s[at + 3]) as u32
}

/// The integer whose eight bytes stand at `at`.
pub open spec fn u64_at(s: Seq<u8>, at: int) -> u64 {
    (u32_at(s, at) + 0x1_0000_0000 * u32_at(s, at + 4)) as u64
}

/// Reading two bytes gives back the integer that was written there.
pub proof fn lemma_u16_at(s: Seq<u8>, at: int, x: u16)
    requires
        0 <= at,
        at + 2 <= s.len(),
        s.subrange(at, at + 2) == u16_le(x),
    ensures
        u16_at(s, at) == x,
{
    let t = s.subrange(at, at + 2);
    assert(t[0] == s[at] && t[1] == s[at + 1]);
    assert(t[0] == (x % 256) as u8 && t[1] == (x / 256) as u8);
}

/// An integer is the sum of its bytes, each with its weight.
proof fn lemma_u32_digits(x: u32)
    by (bit_vector)
    ensures
        (x % 256) + 256 * ((x / 256) % 256) + 65536 * ((x / 65536) % 256) + 16777216 * (x
            / 16777216) == x,
        x % 256 < 256,
        (x / 256) % 256 < 256,
        (x / 65536) % 256 < 256,
        x / 16777216 < 256,
{
}

/// Reading four bytes gives back the integer that was written there.
pub proof fn lemma_u32_at(s: Seq<u8>, at: int, x: u32)
    requires
        0 <= at,
        at + 4 <= s.len(),
        s.subrange(at, at + 4) == u32_le(x),
    ensures
        u32_at(s, at) == x,
{
    lemma_u32_digits(x);
    let t = s.subrange(at, at + 4);
    assert(t[0] == s[at] && t[1] == s[at + 1] && t[2] == s[at + 2] && t[3] == s[at + 3]);
    assert(t[0] == (x % 256) as u8 && t[1] == ((x / 256) % 256) as u8);
    assert(t[2] == ((x / 65536) % 256) as u8 && t[3] == (x / 16777216) as u8);
}

/// One changed byte changes the integer that is read.
pub proof fn lemma_u32_changed(s: Seq<u8>, at: int, i: int, byte: u8)
    requires
        0 <= at <= i < at + 4 <= s.len(),
        byte != s[i],
    ensures
        u32_at(s.update(i, byte), at) != u32_at(s, at),
{
    let t = s.update(i, byte);
    assert(forall|k: int| 0 <= k < s.len() && k != i ==> t[k] == s[k]);
}

/// Reading eight bytes gives back the integer that was written there.
pub proof fn lemma_u64_at(s: Seq<u8>, at: int, x: u64)
    requires
        0 <= at,
        at + 8 <= s.len(),
        s.subrange(at, at + 8) == u64_le(x),
    ensures
        u64_at(s, at) == x,
{
    let lo = (x % 0x1_0000_0000) as u32;
    let hi = (x / 0x1_0000_0000) as u32;
    let t = s.subrange(at, at + 8);
    assert(s.subrange(at, at + 4) =~= t.subrange(0, 4));
    assert(t.subrange(0, 4) =~= u32_le(lo));
    assert(s.subrange(at + 4, at + 8) =~= t.subrange(4, 8));
    assert(t.subrange(4, 8) =~= u32_le(hi));
    lemma_u32_at(s, at, lo);
    lemma_u32_at(s, at + 4, hi);
}

/// Where the two parts of a concatenation stand.
pub proof fn lemma_two_pieces(d: Seq<u8>, at: int, a: Seq<u8>, b: Seq<u8>)
    requires
        0 <= at,
        at + a.len() + b.len() <= d.len(),
        d.subrange(at, at + a.len() + b.len()) == a + b,
    ensures
        d.subrange(at, at + a.len()) == a,
        d.subrange(at + a.len(), at + a.len() + b.len()) == b,
{
    let t = a + b;
    assert(t.subrange(0, a.len() as int) =~= a);
    assert(t.subrange(a.len() as int, t.len() as int) =~= b);
    assert(d.subrange(at, at + a.len()) =~= t.subrange(0, a.len() as int));
    assert(d.subrange(at + a.len(), at + a.len() + b.len()) =~= t.subrange(
        a.len() as int,
        t.len() as int,
    ));
}

/// What stands behind the first part of a concatenation.
pub proof fn lemma_skip_front(d: Seq<u8>, at: int, a: Seq<u8>, b: Seq<u8>)
    requires
        0 <= at <= d.len(),
        d.skip(at) == a + b,
    ensures
        at + a.len() <= d.len(),
        d.skip(at + a.len()) == b,
{
    assert(d.skip(at).len() == a.len() + b.len());
    assert(d.skip(at + a.len()) =~= d.skip(at).skip(a.len() as int));
    assert((a + b).skip(a.len() as int) =~= b);
}

/// Appends `other` to `out`.
pub fn put_bytes(out: &mut Vec<u8>, other: &[u8])
    ensures
        final(out)@ == old(out)@ + other@,
{
    out.extend_from_slice(other);
    assert(out@ =~= old(out)@ + other@);
}

/// Appends the two bytes of `x`.
pub fn put_u16(out: &mut Vec<u8>, x: u16)
    ensures
        final(out)@ == old(out)@ + u16_le(x),
{
    out.push((x % 256) as u8);
    out.push((x / 256) as u8);
    assert(out@ =~= old(out)@ + u16_le(x));
}

/// Appends the four bytes of `x`.
pub fn put_u32(out: &mut Vec<u8>, x: u32)
    ensures
        final(out)@ == old(out)@ + u32_le(x),
{
    out.push((x % 256) as u8);
    out.push(((x / 256) % 256) as u8);
    out.push(((x / 65536) % 256) as u8);
    out.push((x / 16777216) as u8);
    assert(out@ =~= old(out)@ + u32_le(x));
}

/// Appends the eight bytes of `x`.
pub fn put_u64(out: &mut Vec<u8>, x: u64)
    ensures
        final(out)@ == old(out)@ + u64_le(x),
{
    put_u32(out, (x % 0x1_0000_0000) as u32);
    put_u32(out, (x / 0x1_0000_0000) as u32);
    assert(out@ =~= old(out)@ + u64_le(x));
}

/// Reads the two-byte integer at `at`.
pub fn get_u16(data: &[u8], at: usize) -> (x: u16)
    requires
        at + 2 <= data@.len(),
    ensures
        x == u16_at(data@, at as int),
{
    data[at] as u16 + 256 * (data[at + 1] as u16)
}

/// Reads the four-byte integer at `at`.
pub fn get_u32(data: &[u8], at: usize) -> (x: u32)
    requires
        at + 4 <= data@.len(),
    ensures
        x == u32_at(data@, at as int),
{
    data[at] as u32 + 256 * (data[at + 1] as u32) + 65536 * (data[at + 2] as u32) + 16777216 * (
    data[at + 3] as u32)
}

/// Reads the eight-byte integer at `at`.
pub fn get_u64(data: &[u8], at: usize) -> (x: u64)
    requires
        at + 8 <= data@.len(),
    ensures
        x == u64_at(data@, at as int),
{
    assert(at + 8 <= data.len());
    let lo: u32 = get_u32(data, at);
    let hi: u32 = get_u32(data, at + 4);
    lo as u64 + 0x1_0000_0000 * (hi as u64)
}

/// A copy of the bytes from `from` up to `to`.
pub fn copy_range(data: &[u8], from: usize, to: usize) -> (r: Vec<u8>)
    requires
        from <= to <= data@.len(),
    ensures
        r@ == data@.subrange(from as int, to as int),
{
    vstd::slice::slice_to_vec(vstd::slice::slice_subrange(data, from, to))
}

/// A copy of a byte string.
pub fn copy_bytes(data: &Vec<u8>) -> (r: Vec<u8>)
    ensures
        r@ == data@,
{
    vstd::slice::slice_to_vec(data.as_slice())
}

/// The bytes that an integer becomes have the weights 1, 256, 65536 and so on, from
/// the first on.
pub proof fn law_little_endian(x: u16, y: u32, z: u64)
    ensures
        u16_le(x).len() == 2,
        x == u16_le(x)[0] + 256 * u16_le(x)[1],
        u32_le(y).len() == 4,
        y == u32_le(y)[0] + 256 * u32_le(y)[1] + 65536 * u32_le(y)[2] + 16777216 * u32_le(y)[3],
        u64_le(z).len() == 8,
        z == u64_le(z)[0] + 256 * u64_le(z)[1] + 65536 * u64_le(z)[2] + 16777216 * u64_le(z)[3]
            + 0x1_0000_0000 * (u64_le(z)[4] + 256 * u64_le(z)[5] + 65536 * u64_le(z)[6] + 16777216
            * u64_le(z)[7]),
{
    let lo = (z % 0x1_0000_0000) as u32;
    let hi = (z / 0x1_0000_0000) as u32;
    lemma_u32_digits(y);
    lemma_u32_digits(lo);
    lemma_u32_digits(hi);
    let low = u32_le(lo);
    let high = u32_le(hi);
    assert(u64_le(z) =~= low + high);
    assert(forall|i: int| 0 <= i < 4 ==> u64_le(z)[i] == low[i]);
    assert(u64_le(z)[4] == high[0] && u64_le(z)[5] == high[1] && u64_le(z)[6] == high[2]
        && u64_le(z)[7] == high[3]);
}

/// The integer that is read at an offset is the sum of the bytes there, each with its
/// weight: the first byte counts once.
pub proof fn law_read_little_endian(s: Seq<u8>, at: int)
    ensures
        u16_at(s, at) == s[at] + 256 * s[at + 1],
        u32_at(s, at) == s[at] + 256 * s[at + 1] + 65536 * s[at + 2] + 16777216 * s[at + 3],
        u64_at(s, at) == s[at] + 256 * s[at + 1] + 65536 * s[at + 2] + 16777216 * s[at + 3]
            + 0x1_0000_0000 * (s[at + 4] + 256 * s[at + 5] + 65536 * s[at + 6] + 16777216 * s[at
            + 7]),
{
    assert(u32_at(s, at + 4) == s[at + 4] + 256 * s[at + 5] + 65536 * s[at + 6] + 16777216 * s[at
        + 7]);
}

} // verus!
