//! Big-endian integers, as every field on the wire is written.

use vstd::prelude::*;

verus! {

/// The four big-endian bytes of `x`.
pub open spec fn be32(x: u32) -> Seq<u8> {
    seq![
        (x / 0x100_0000) as u8,
        ((x / 0x1_0000) % 0x100) as u8,
        ((x / 0x100) % 0x100) as u8,
        (x % 0x100) as u8,
    ]
}

/// The number whose big-endian bytes open `bytes`.
pub open spec fn from_be32(bytes: Seq<u8>) -> u32 {
    (bytes[0] * 0x100_0000 + bytes[1] * 0x1_0000 + bytes[2] * 0x100 + bytes[3]) as u32
}

pub fn be32_bytes(x: u32) -> (bytes: [u8; 4])
    ensures
        bytes@ == be32(x),
{
    [
        (x / 0x100_0000) as u8,
        ((x / 0x1_0000) % 0x100) as u8,
        ((x / 0x100) % 0x100) as u8,
        (x % 0x100) as u8,
    ]
}

/// Reads the big-endian number at `at`.
pub fn read_be32(bytes: &[u8], at: usize) -> (x: u32)
    requires
        at + 4 <= bytes@.len(),
    ensures
        x == from_be32(bytes@.subrange(at as int, at + 4)),
{
    bytes[at] as u32 * 0x100_0000 + bytes[at + 1] as u32 * 0x1_0000 + bytes[at + 2] as u32 * 0x100
        + bytes[at + 3] as u32
}

/// The eight big-endian bytes of `x`.
pub open spec fn be64(x: u64) -> Seq<u8> {
    be32((x / 0x1_0000_0000) as u32) + be32((x % 0x1_0000_0000) as u32)
}

/// The number whose big-endian bytes open `bytes`.
pub open spec fn from_be64(bytes: Seq<u8>) -> u64 {
    (from_be32(bytes.subrange(0, 4)) * 0x1_0000_0000 + from_be32(bytes.subrange(4, 8))) as u64
}

pub fn be64_bytes(x: u64) -> (bytes: [u8; 8])
    ensures
        bytes@ == be64(x),
{
    let high = be32_bytes((x / 0x1_0000_0000) as u32);
    let low = be32_bytes((x % 0x1_0000_0000) as u32);
    let bytes = [high[0], high[1], high[2], high[3], low[0], low[1], low[2], low[3]];
    assert(bytes@ =~= be64(x));
    bytes
}

/// Reads the big-endian number that opens `bytes`.
pub fn read_be64(bytes: &[u8]) -> (x: u64)
    requires
        bytes@.len() >= 8,
    ensures
        x == from_be64(bytes@),
{
    let high: u32 = read_be32(bytes, 0);
    let low: u32 = read_be32(bytes, 4);
    high as u64 * 0x1_0000_0000 + low as u64
}

/// Writing a long number and reading it back gives the number, whatever follows.
pub proof fn be64_round_trips(x: u64, after: Seq<u8>)
    ensures
        be64(x).len() == 8,
        from_be64(be64(x) + after) == x,
{
    let (high, low) = ((x / 0x1_0000_0000) as u32, (x % 0x1_0000_0000) as u32);
    be32_round_trips(high);
    be32_round_trips(low);
    assert((be64(x) + after).subrange(0, 4) =~= be32(high));
    assert((be64(x) + after).subrange(4, 8) =~= be32(low));
}

/// Whether two keys or hashes are the same.
pub fn same_bytes(one: &[u8; 32], other: &[u8; 32]) -> (same: bool)
    ensures
        same == (one@ == other@),
{
    let mut i: usize = 0;
    while i < 32
        invariant
            i <= 32,
            forall|j: int| 0 <= j < i ==> one@[j] == other@[j],
        decreases 32 - i,
    {
        if one[i] != other[i] {
            return false;
        }
        i += 1;
    }
    assert(one@ =~= other@);
    true
}

/// Writing a number and reading it back gives the number.
pub proof fn be32_round_trips(x: u32)
    ensures
        be32(x).len() == 4,
        from_be32(be32(x)) == x,
{
}

/// Four bytes are the bytes of the number they spell.
pub proof fn from_be32_round_trips(bytes: Seq<u8>)
    requires
        bytes.len() == 4,
    ensures
        be32(from_be32(bytes)) == bytes,
{
    let (a, b, c, d) = (bytes[0] as int, bytes[1] as int, bytes[2] as int, bytes[3] as int);
    let n = a * 0x100_0000 + b * 0x1_0000 + c * 0x100 + d;
    assert(n % 0x100 == d && n / 0x100 == a * 0x1_0000 + b * 0x100 + c);
    assert((n / 0x100) % 0x100 == c && n / 0x1_0000 == a * 0x100 + b);
    assert((n / 0x1_0000) % 0x100 == b && n / 0x100_0000 == a);
    assert(from_be32(bytes) == n);
    assert(be32(from_be32(bytes)) =~= bytes);
}

/// The most significant byte comes first: four bytes spell the number they are written
/// for, and so do eight.
pub proof fn the_high_byte_comes_first(x: u32, y: u64)
    ensures
        be32(x).len() == 4,
        be32(x)[0] * 16777216 + be32(x)[1] * 65536 + be32(x)[2] * 256 + be32(x)[3] == x,
        be64(y).len() == 8,
        (be64(y)[0] * 16777216 + be64(y)[1] * 65536 + be64(y)[2] * 256 + be64(y)[3]) * 4294967296
            + (be64(y)[4] * 16777216 + be64(y)[5] * 65536 + be64(y)[6] * 256 + be64(y)[7]) == y,
{
    a_number_is_its_bytes(x);
    a_number_is_its_bytes((y / 0x1_0000_0000) as u32);
    a_number_is_its_bytes((y % 0x1_0000_0000) as u32);
}

proof fn a_number_is_its_bytes(x: u32)
    ensures
        be32(x)[0] * 16777216 + be32(x)[1] * 65536 + be32(x)[2] * 256 + be32(x)[3] == x,
{
}

} // verus!
