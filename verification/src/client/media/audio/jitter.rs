//! What a jitter buffer is told of a packet.

use vstd::prelude::*;

use crate::client::media::audio::SAMPLES_PER_PACKET;
use crate::proto::ids::MediaId;

verus! {

/// One `media_id` is one stream, so the fields RTP would carry are constants or
/// come free from `seq`.
pub const PAYLOAD_TYPE: u8 = 111;

pub const PACKET_MS: u32 = 20;

pub const CHANNELS: u8 = 1;

/// A packet's place in its stream.
#[derive(Debug, Clone, Copy, PartialEq, Eq, Structural)]
pub struct PacketHeader {
    pub sequence_number: u16,
    pub timestamp: u32,
    pub ssrc: u32,
    pub payload_type: u8,
    pub marker: bool,
}

/// One remote track's packet, as the jitter buffer places it: a short sequence
/// number that wraps, and a timestamp of as many samples as came before.
pub fn packet_header(media_id: MediaId, seq: u32) -> (header: PacketHeader)
    ensures
        header.sequence_number == seq % 0x1_0000,
        header.timestamp == (seq * SAMPLES_PER_PACKET) % 0x1_0000_0000,
        header.ssrc == media_id.0,
        header.payload_type == PAYLOAD_TYPE,
        !header.marker,
{
    PacketHeader {
        sequence_number: (seq % 0x1_0000) as u16,
        timestamp: ((seq as u64 * SAMPLES_PER_PACKET as u64) % 0x1_0000_0000) as u32,
        ssrc: media_id.0,
        payload_type: PAYLOAD_TYPE,
        marker: false,
    }
}

/// Consecutive packets are a packet's worth of samples apart, also where the
/// timestamp wraps.
pub proof fn packets_are_a_packet_apart(seq: u32)
    requires
        seq < u32::MAX,
    ensures
        ((seq + 1) * SAMPLES_PER_PACKET) % 0x1_0000_0000 == ((seq * SAMPLES_PER_PACKET)
            % 0x1_0000_0000 + SAMPLES_PER_PACKET) % 0x1_0000_0000,
{
    let before = seq * 960;
    assert((seq + 1) * 960 == before + 960);
    assert((before + 960) % 0x1_0000_0000 == (before % 0x1_0000_0000 + 960) % 0x1_0000_0000);
}

} // verus!
