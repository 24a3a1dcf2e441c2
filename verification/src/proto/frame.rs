//! The header in front of every media datagram, and the sizes that follow from it.

use vstd::prelude::*;

use crate::proto::ids::{Epoch, MediaId};
use crate::proto::{wire, Error};
use crate::text;

verus! {

pub const HEADER_BYTES: usize = 13;

/// What a DATAGRAM frame's payload has left after quinn's packet overhead, at
/// QUIC's 1200-byte floor. A live connection may report more, and taking that
/// would emit packets some receivers cannot accept.
pub const MIN_DATAGRAM_BYTES: usize = 1162;

/// Reserved for an AEAD tag, so enabling encryption later does not shift packet
/// sizes or turn working packets into silently-dropped oversized ones.
pub const TRANSFORM_OVERHEAD_BYTES: usize = 16;

pub const PAYLOAD_BUDGET: usize = MIN_DATAGRAM_BYTES - HEADER_BYTES - TRANSFORM_OVERHEAD_BYTES;

/// Bit 0 of the flags: a decoder can start at this frame.
pub const KEYFRAME: u8 = 1;

/// Every flag this version knows.
pub const KNOWN_FLAGS: u8 = KEYFRAME;

/// What is said to a peer that takes datagrams of `size` bytes at most.
pub open spec fn too_small_message(size: nat) -> Seq<char> {
    "the peer accepts datagrams of "@ + text::decimal(size) + " bytes, and media needs "@
        + text::decimal(MIN_DATAGRAM_BYTES as nat)
}

/// What the peer reported it can carry, against the budget every sender uses.
/// There is no TCP fallback and no smaller frame, so falling short is fatal.
pub fn check_datagram_size(reported: Option<usize>) -> (checked: Result<(), Error>)
    ensures
        match reported {
            None => checked matches Err(Error::Datagram(message)) && message@
                == "the peer accepts no QUIC datagrams, which is how all media travels"@,
            Some(size) => if size < MIN_DATAGRAM_BYTES {
                checked matches Err(Error::Datagram(message)) && message@ == too_small_message(
                    size as nat,
                )
            } else {
                checked is Ok
            },
        },
{
    match reported {
        None => Err(
            Error::Datagram(
                "the peer accepts no QUIC datagrams, which is how all media travels".to_string(),
            ),
        ),
        Some(size) => {
            if size < MIN_DATAGRAM_BYTES {
                let mut message = "the peer accepts datagrams of ".to_string();
                message.append(text::decimal_string(size as u64).as_str());
                message.append(" bytes, and media needs ");
                message.append(text::decimal_string(MIN_DATAGRAM_BYTES as u64).as_str());
                Err(Error::Datagram(message))
            } else {
                Ok(())
            }
        },
    }
}

/// The plaintext routing header every media datagram opens with. Fixed width and
/// big endian, and frozen: `media_id || epoch || seq` is a 96-bit AEAD nonce.
#[derive(Debug, Clone, Copy, PartialEq, Eq, Structural)]
pub struct FrameHeader {
    pub media_id: MediaId,
    pub epoch: Epoch,
    pub seq: u32,
    pub flags: u8,
}

impl FrameHeader {
    /// The part of the header that an AEAD nonce is made of.
    pub open spec fn nonce(self) -> Seq<u8> {
        wire::be32(self.media_id.0) + wire::be32(self.epoch.0) + wire::be32(self.seq)
    }

    /// The header on the wire.
    pub open spec fn bytes(self) -> Seq<u8> {
        self.nonce().push(self.flags)
    }

    /// The header that opens `datagram`.
    pub open spec fn parsed(datagram: Seq<u8>) -> FrameHeader {
        FrameHeader {
            media_id: MediaId(wire::from_be32(datagram.subrange(0, 4))),
            epoch: Epoch(wire::from_be32(datagram.subrange(4, 8))),
            seq: wire::from_be32(datagram.subrange(8, 12)),
            flags: datagram[12],
        }
    }

    pub fn encode(&self) -> (bytes: [u8; HEADER_BYTES])
        ensures
            bytes@ == self.bytes(),
    {
        let media_id = wire::be32_bytes(self.media_id.0);
        let epoch = wire::be32_bytes(self.epoch.0);
        let seq = wire::be32_bytes(self.seq);
        let bytes = [
            media_id[0],
            media_id[1],
            media_id[2],
            media_id[3],
            epoch[0],
            epoch[1],
            epoch[2],
            epoch[3],
            seq[0],
            seq[1],
            seq[2],
            seq[3],
            self.flags,
        ];
        assert(bytes@ =~= self.bytes());
        bytes
    }

    pub fn decode(datagram: &[u8]) -> (header: Result<FrameHeader, Error>)
        ensures
            match header {
                Ok(header) => datagram@.len() >= HEADER_BYTES && header == FrameHeader::parsed(
                    datagram@,
                ),
                Err(error) => datagram@.len() < HEADER_BYTES && error == (Error::Short {
                    need: HEADER_BYTES,
                    have: datagram@.len() as usize,
                }),
            },
    {
        if datagram.len() < HEADER_BYTES {
            return Err(Error::Short { need: HEADER_BYTES, have: datagram.len() });
        }
        Ok(
            FrameHeader {
                media_id: MediaId(wire::read_be32(datagram, 0)),
                epoch: Epoch(wire::read_be32(datagram, 4)),
                seq: wire::read_be32(datagram, 8),
                flags: datagram[12],
            },
        )
    }

    pub fn is_keyframe(&self) -> (keyframe: bool)
        ensures
            keyframe == (self.flags & KEYFRAME != 0),
    {
        self.flags & KEYFRAME != 0
    }

    /// A client refuses a frame carrying a flag it does not know, so it can never
    /// silently misread one. The server reads bit 0 and ignores the rest.
    pub fn has_unknown_flags(&self) -> (unknown: bool)
        ensures
            unknown == (self.flags & !KNOWN_FLAGS != 0),
    {
        self.flags & !KNOWN_FLAGS != 0
    }
}

/// A header is thirteen bytes, and reading it back from a datagram gives it again,
/// whatever payload follows.
pub proof fn a_header_round_trips(header: FrameHeader, payload: Seq<u8>)
    ensures
        header.bytes().len() == HEADER_BYTES,
        FrameHeader::parsed(header.bytes() + payload) == header,
        (header.bytes() + payload).skip(HEADER_BYTES as int) == payload,
{
    let datagram = header.bytes() + payload;
    assert(datagram.subrange(0, 4) =~= wire::be32(header.media_id.0));
    assert(datagram.subrange(4, 8) =~= wire::be32(header.epoch.0));
    assert(datagram.subrange(8, 12) =~= wire::be32(header.seq));
    wire::be32_round_trips(header.media_id.0);
    wire::be32_round_trips(header.epoch.0);
    wire::be32_round_trips(header.seq);
    assert(datagram.skip(HEADER_BYTES as int) =~= payload);
}

/// Every datagram of at least a header's length opens with the bytes of exactly
/// the header read from it.
pub proof fn a_parsed_header_is_what_was_sent(datagram: Seq<u8>)
    requires
        datagram.len() >= HEADER_BYTES,
    ensures
        FrameHeader::parsed(datagram).bytes() == datagram.take(HEADER_BYTES as int),
{
    let header = FrameHeader::parsed(datagram);
    wire::from_be32_round_trips(datagram.subrange(0, 4));
    wire::from_be32_round_trips(datagram.subrange(4, 8));
    wire::from_be32_round_trips(datagram.subrange(8, 12));
    assert(header.bytes() =~= datagram.take(HEADER_BYTES as int));
}

/// Headers share a nonce only where track, epoch and sequence number all agree.
pub proof fn a_nonce_names_one_frame(one: FrameHeader, other: FrameHeader)
    ensures
        one.nonce().len() == 12,
        one.nonce() == other.nonce() ==> one.media_id == other.media_id && one.epoch
            == other.epoch && one.seq == other.seq,
{
    if one.nonce() == other.nonce() {
        let nonce = one.nonce();
        assert(nonce.subrange(0, 4) =~= wire::be32(one.media_id.0));
        assert(nonce.subrange(4, 8) =~= wire::be32(one.epoch.0));
        assert(nonce.subrange(8, 12) =~= wire::be32(one.seq));
        assert(nonce.subrange(0, 4) =~= wire::be32(other.media_id.0));
        assert(nonce.subrange(4, 8) =~= wire::be32(other.epoch.0));
        assert(nonce.subrange(8, 12) =~= wire::be32(other.seq));
        wire::be32_round_trips(one.media_id.0);
        wire::be32_round_trips(one.epoch.0);
        wire::be32_round_trips(one.seq);
        wire::be32_round_trips(other.media_id.0);
        wire::be32_round_trips(other.epoch.0);
        wire::be32_round_trips(other.seq);
    }
}

/// A payload inside the budget leaves room for the header and an AEAD tag in the
/// smallest datagram every peer takes.
pub proof fn the_budget_leaves_room(payload: Seq<u8>, header: FrameHeader)
    requires
        payload.len() <= PAYLOAD_BUDGET,
    ensures
        (header.bytes() + payload).len() + TRANSFORM_OVERHEAD_BYTES <= MIN_DATAGRAM_BYTES,
{
    a_header_round_trips(header, payload);
}

/// The layout is frozen: the track in the first four bytes, the epoch in the next four,
/// the sequence number in the four behind them, each with its high byte first, and the
/// flags in the thirteenth.
pub proof fn the_layout_is_frozen(header: FrameHeader)
    ensures
        ({
            let b = header.bytes();
            &&& b.len() == 13
            &&& b[0] * 16777216 + b[1] * 65536 + b[2] * 256 + b[3] == header.media_id.0
            &&& b[4] * 16777216 + b[5] * 65536 + b[6] * 256 + b[7] == header.epoch.0
            &&& b[8] * 16777216 + b[9] * 65536 + b[10] * 256 + b[11] == header.seq
            &&& b[12] == header.flags
        }),
{
    wire::the_high_byte_comes_first(header.media_id.0, 0);
    wire::the_high_byte_comes_first(header.epoch.0, 0);
    wire::the_high_byte_comes_first(header.seq, 0);
}

} // verus!
