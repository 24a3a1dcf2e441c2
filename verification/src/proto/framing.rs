//! Control messages on a stream: a body behind a big-endian length.

use vstd::prelude::*;

use crate::proto::{wire, Error};

verus! {

pub const MAX_FRAME_BYTES: usize = 1024 * 1024;

pub const LENGTH_PREFIX_BYTES: usize = 4;

/// A body behind its length.
pub open spec fn framed(body: Seq<u8>) -> Seq<u8> {
    wire::be32(body.len() as u32) + body
}

/// Frames a message's bytes behind a big-endian `u32` length.
pub fn encode(body: &[u8]) -> (frame: Result<Vec<u8>, Error>)
    ensures
        match frame {
            Ok(frame) => body@.len() <= MAX_FRAME_BYTES && frame@ == framed(body@),
            Err(error) => body@.len() > MAX_FRAME_BYTES && error == (Error::TooLarge {
                len: body@.len() as usize,
                max: MAX_FRAME_BYTES,
            }),
        },
{
    if body.len() > MAX_FRAME_BYTES {
        return Err(Error::TooLarge { len: body.len(), max: MAX_FRAME_BYTES });
    }
    let mut frame: Vec<u8> = Vec::with_capacity(LENGTH_PREFIX_BYTES + body.len());
    let prefix = wire::be32_bytes(body.len() as u32);
    frame.extend_from_slice(prefix.as_slice());
    frame.extend_from_slice(body);
    assert(frame@ =~= framed(body@));
    Ok(frame)
}

/// Rejects an oversized frame before its reader allocates for it.
pub fn body_len(prefix: [u8; LENGTH_PREFIX_BYTES]) -> (len: Result<usize, Error>)
    ensures
        match len {
            Ok(len) => wire::from_be32(prefix@) <= MAX_FRAME_BYTES && len == wire::from_be32(
                prefix@,
            ),
            Err(error) => wire::from_be32(prefix@) > MAX_FRAME_BYTES && error == (Error::TooLarge {
                len: wire::from_be32(prefix@) as usize,
                max: MAX_FRAME_BYTES,
            }),
        },
{
    assert(prefix@.subrange(0, 4) =~= prefix@);
    let len: usize = wire::read_be32(prefix.as_slice(), 0) as usize;
    if len > MAX_FRAME_BYTES {
        return Err(Error::TooLarge { len, max: MAX_FRAME_BYTES });
    }
    Ok(len)
}

/// What precedes a framed body is its length, and what follows the prefix is the
/// body itself.
pub proof fn a_frame_survives(body: Seq<u8>)
    requires
        body.len() <= MAX_FRAME_BYTES,
    ensures
        framed(body).len() == LENGTH_PREFIX_BYTES + body.len(),
        wire::from_be32(framed(body).take(LENGTH_PREFIX_BYTES as int)) == body.len(),
        framed(body).skip(LENGTH_PREFIX_BYTES as int) == body,
{
    wire::be32_round_trips(body.len() as u32);
    assert(framed(body).take(4) =~= wire::be32(body.len() as u32));
    assert(framed(body).skip(4) =~= body);
}

/// Frames sent back to back are told apart: two streams that agree byte for byte
/// carry the same first body and agree after it.
pub proof fn a_frame_ends_where_its_length_says(
    one: Seq<u8>,
    after_one: Seq<u8>,
    other: Seq<u8>,
    after_other: Seq<u8>,
)
    requires
        one.len() <= MAX_FRAME_BYTES,
        other.len() <= MAX_FRAME_BYTES,
        framed(one) + after_one == framed(other) + after_other,
    ensures
        one == other,
        after_one == after_other,
{
    let stream = framed(one) + after_one;
    wire::be32_round_trips(one.len() as u32);
    wire::be32_round_trips(other.len() as u32);
    assert(stream.take(4) =~= wire::be32(one.len() as u32));
    assert(stream.take(4) =~= wire::be32(other.len() as u32));
    assert(stream.subrange(4, 4 + one.len() as int) =~= one);
    assert(stream.subrange(4, 4 + other.len() as int) =~= other);
    assert(stream.skip(4 + one.len() as int) =~= after_one);
    assert(stream.skip(4 + other.len() as int) =~= after_other);
}

/// A frame opens with the length of its body in four bytes, the high byte first, and goes
/// on with the body. What is framed is a body of up to a mebibyte.
pub proof fn a_frame_opens_with_its_length(body: Seq<u8>, i: int)
    ensures
        body.len() <= MAX_FRAME_BYTES <==> body.len() <= 1048576,
        body.len() <= 1048576 ==> {
            let b = framed(body);
            &&& b.len() == 4 + body.len()
            &&& b[0] * 16777216 + b[1] * 65536 + b[2] * 256 + b[3] == body.len()
            &&& 0 <= i < body.len() ==> b[4 + i] == body[i]
        },
{
    wire::the_high_byte_comes_first(body.len() as u32, 0);
}

} // verus!
