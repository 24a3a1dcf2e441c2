//! Access units on their way out: numbered, stamped and framed.

use std::collections::HashMap;

use vstd::prelude::*;

use crate::client::media::fragment;
use crate::client::media::transform::{FrameTransform, Passthrough};
use crate::proto::frame::{self, FrameHeader};
use crate::proto::ids::{Epoch, MediaId};
use crate::proto::msg::Placed;

verus! {

/// How many datagrams may wait to be handed to the connection.
pub const QUEUE_DEPTH: usize = 64;

/// What a sender remembers.
pub ghost struct Sending {
    /// The latest epoch seen.
    pub epoch: u32,
    /// The track the microphone sends on, while in a room.
    pub microphone: Option<MediaId>,
    /// For each track that sent anything, the next sequence number.
    pub next_seq: Map<u32, u32>,
    /// Units that were not sent whole.
    pub dropped: u64,
}

impl Sending {
    /// The sequence number a track's next datagram takes.
    pub open spec fn next_of(self, id: MediaId) -> u32 {
        if self.next_seq.contains_key(id.0) {
            self.next_seq[id.0]
        } else {
            0
        }
    }

    pub open spec fn observed(self, epoch: Epoch) -> Sending {
        Sending {
            epoch: if epoch.0 > self.epoch {
                epoch.0
            } else {
                self.epoch
            },
            ..self
        }
    }

    pub open spec fn placed(self, placed: Placed) -> Sending {
        Sending {
            microphone: match placed.tracks {
                Some(tracks) => Some(tracks.mic),
                None => None,
            },
            ..self.observed(placed.epoch)
        }
    }

    pub open spec fn dropping(self) -> Sending {
        Sending { dropped: ((self.dropped + 1) % 0x1_0000_0000_0000_0000) as u64, ..self }
    }

    pub open spec fn numbering(self, id: MediaId) -> Sending {
        Sending { next_seq: self.next_seq.insert(id.0, (self.next_of(id) + 1) as u32), ..self }
    }
}

/// A media datagram: its header and its payload.
pub open spec fn datagram_of(header: FrameHeader, payload: Seq<u8>) -> Seq<u8> {
    header.bytes() + payload
}

/// The flags of a unit's datagrams.
pub open spec fn flags_of(keyframe: bool) -> u8 {
    if keyframe {
        frame::KEYFRAME
    } else {
        0
    }
}

/// A unit that the queue had room for, while its datagrams are handed over.
pub struct Outgoing {
    pub media_id: MediaId,
    pub epoch: Epoch,
    pub flags: u8,
    pub payloads: Vec<Vec<u8>>,
    /// How many of the payloads have been handed over.
    pub sent: usize,
}

/// The sending half of the media path.
pub struct MediaSender {
    epoch: u32,
    microphone: Option<MediaId>,
    next_seq: HashMap<u32, u32>,
    dropped_units: u64,
}

impl View for MediaSender {
    type V = Sending;

    closed spec fn view(&self) -> Sending {
        Sending {
            epoch: self.epoch,
            microphone: self.microphone,
            next_seq: self.next_seq@,
            dropped: self.dropped_units,
        }
    }
}

impl MediaSender {
    pub fn new(epoch: Epoch) -> (sender: MediaSender)
        ensures
            sender@ == (Sending {
                epoch: epoch.0,
                microphone: None,
                next_seq: Map::empty(),
                dropped: 0,
            }),
    {
        MediaSender {
            epoch: epoch.0,
            microphone: None,
            next_seq: HashMap::new(),
            dropped_units: 0,
        }
    }

    /// Senders stamp the latest epoch they have seen, and receivers ignore it.
    pub fn observe(&mut self, epoch: Epoch)
        ensures
            final(self)@ == old(self)@.observed(epoch),
    {
        if epoch.0 > self.epoch {
            self.epoch = epoch.0;
        }
    }

    /// Takes over where the server placed this client: the epoch, and the ids to
    /// send on.
    pub fn observe_placement(&mut self, placed: &Placed)
        ensures
            final(self)@ == old(self)@.placed(*placed),
    {
        self.observe(placed.epoch);
        self.microphone = match &placed.tracks {
            Some(tracks) => Some(tracks.mic),
            None => None,
        };
    }

    /// The track the microphone sends on, `None` while in no room.
    pub fn microphone(&self) -> (microphone: Option<MediaId>)
        ensures
            microphone == self@.microphone,
    {
        self.microphone
    }

    /// One access unit, fragmented. A queue without room for all of it drops all of
    /// it, since half a frame is not decodable.
    pub fn send(
        &mut self,
        media_id: MediaId,
        unit: &[u8],
        timestamp: Option<u32>,
        keyframe: bool,
        capacity: usize,
    ) -> (outgoing: Option<Outgoing>)
        ensures
            match outgoing {
                None => {
                    &&& capacity < fragment::fragments(unit@, timestamp).len()
                    &&& final(self)@ == old(self)@.dropping()
                },
                Some(outgoing) => {
                    &&& capacity >= fragment::fragments(unit@, timestamp).len()
                    &&& final(self)@ == old(self)@
                    &&& outgoing.media_id == media_id
                    &&& outgoing.epoch.0 == old(self)@.epoch
                    &&& outgoing.flags == flags_of(keyframe)
                    &&& fragment::contents(outgoing.payloads@) == fragment::fragments(
                        unit@,
                        timestamp,
                    )
                    &&& outgoing.sent == 0
                },
            },
    {
        let payloads = fragment::fragment(unit, timestamp);
        if capacity < payloads.len() {
            assert(fragment::contents(payloads@).len() == payloads@.len());
            self.refused();
            return None;
        }
        assert(fragment::contents(payloads@).len() == payloads@.len());
        Some(
            Outgoing {
                media_id,
                epoch: Epoch(self.epoch),
                flags: if keyframe {
                    frame::KEYFRAME
                } else {
                    0
                },
                payloads,
                sent: 0,
            },
        )
    }

    /// The next datagram of a unit, `None` once all of them have been handed over.
    /// A track that runs out of sequence numbers cannot go on.
    pub fn next_datagram(&mut self, outgoing: &mut Outgoing) -> (datagram: Option<Vec<u8>>)
        requires
            old(outgoing).sent < old(outgoing).payloads@.len() ==> old(self)@.next_of(
                old(outgoing).media_id,
            ) < u32::MAX,
        ensures
            match datagram {
                None => {
                    &&& old(outgoing).sent >= old(outgoing).payloads@.len()
                    &&& final(self)@ == old(self)@
                    &&& *final(outgoing) == *old(outgoing)
                },
                Some(datagram) => {
                    &&& old(outgoing).sent < old(outgoing).payloads@.len()
                    &&& final(self)@ == old(self)@.numbering(old(outgoing).media_id)
                    &&& *final(outgoing) == (Outgoing {
                        sent: (old(outgoing).sent + 1) as usize,
                        ..*old(outgoing)
                    })
                    &&& datagram@ == datagram_of(
                        FrameHeader {
                            media_id: old(outgoing).media_id,
                            epoch: old(outgoing).epoch,
                            seq: old(self)@.next_of(old(outgoing).media_id),
                            flags: old(outgoing).flags,
                        },
                        old(outgoing).payloads@[old(outgoing).sent as int]@,
                    )
                },
            },
    {
        if outgoing.sent >= outgoing.payloads.len() {
            return None;
        }
        let seq: u32 = self.take_seq(outgoing.media_id);
        let header = FrameHeader {
            media_id: outgoing.media_id,
            epoch: outgoing.epoch,
            seq,
            flags: outgoing.flags,
        };
        let mut payload: Vec<u8> = Vec::new();
        payload.extend_from_slice(outgoing.payloads[outgoing.sent].as_slice());
        let mut transform = Passthrough;
        if transform.outbound(&header, &mut payload).is_err() {
            return None;
        }
        let mut datagram: Vec<u8> = Vec::new();
        let encoded = header.encode();
        datagram.extend_from_slice(encoded.as_slice());
        datagram.extend_from_slice(payload.as_slice());
        outgoing.sent = outgoing.sent + 1;
        Some(datagram)
    }

    /// Whether a track can number `count` more datagrams.
    pub fn can_number(&self, media_id: MediaId, count: usize) -> (can: bool)
        ensures
            can == (self@.next_of(media_id) + count <= u32::MAX),
    {
        let next: u32 = match self.next_seq.get(&media_id.0) {
            Some(next) => *next,
            None => 0,
        };
        count <= (u32::MAX - next) as usize
    }

    /// The queue refused a datagram, so its unit is lost.
    pub fn refused(&mut self)
        ensures
            final(self)@ == old(self)@.dropping(),
    {
        self.dropped_units = self.dropped_units.wrapping_add(1);
    }

    /// How many units were not sent whole.
    pub fn dropped_units(&self) -> (dropped: u64)
        ensures
            dropped == self@.dropped,
    {
        self.dropped_units
    }

    fn take_seq(&mut self, media_id: MediaId) -> (seq: u32)
        requires
            old(self)@.next_of(media_id) < u32::MAX,
        ensures
            seq == old(self)@.next_of(media_id),
            final(self)@ == old(self)@.numbering(media_id),
    {
        let seq: u32 = match self.next_seq.get(&media_id.0) {
            Some(next) => *next,
            None => 0,
        };
        self.next_seq.insert(media_id.0, seq + 1);
        seq
    }
}

/// What a sender remembers once datagrams have gone out on these tracks, in turn.
pub open spec fn numbered(sending: Sending, ids: Seq<MediaId>) -> Sending
    decreases ids.len(),
{
    if ids.len() == 0 {
        sending
    } else {
        numbered(sending, ids.drop_last()).numbering(ids.last())
    }
}

/// The sequence number of the datagram that goes out as number `i`, counted over all
/// tracks.
pub open spec fn number_of(sending: Sending, ids: Seq<MediaId>, i: int) -> u32 {
    numbered(sending, ids.take(i)).next_of(ids[i])
}

/// On one track sequence numbers only ever rise, so that no two of its datagrams
/// share one.
pub proof fn a_number_is_never_reused(sending: Sending, ids: Seq<MediaId>, i: int, j: int)
    requires
        forall|id: MediaId| #[trigger] sending.next_of(id) + ids.len() <= u32::MAX,
        0 <= i < j < ids.len(),
        ids[i] == ids[j],
    ensures
        number_of(sending, ids, i) < number_of(sending, ids, j),
{
    let before = numbered(sending, ids.take(i));
    numbers_rise(sending, ids.take(i), ids[i]);
    assert(ids.take(i + 1).drop_last() =~= ids.take(i));
    assert(numbered(sending, ids.take(i + 1)) == before.numbering(ids[i]));
    later_numbers_rise(sending, ids, ids[i], i + 1, j);
}

proof fn numbers_rise(sending: Sending, ids: Seq<MediaId>, id: MediaId)
    requires
        sending.next_of(id) + ids.len() <= u32::MAX,
    ensures
        sending.next_of(id) <= numbered(sending, ids).next_of(id) <= sending.next_of(id)
            + ids.len(),
    decreases ids.len(),
{
    if ids.len() > 0 {
        numbers_rise(sending, ids.drop_last(), id);
    }
}

proof fn later_numbers_rise(sending: Sending, ids: Seq<MediaId>, id: MediaId, from: int, to: int)
    requires
        sending.next_of(id) + ids.len() <= u32::MAX,
        0 <= from <= to <= ids.len(),
    ensures
        numbered(sending, ids.take(from)).next_of(id) <= numbered(sending, ids.take(to)).next_of(
            id,
        ),
    decreases to - from,
{
    if from < to {
        later_numbers_rise(sending, ids, id, from, to - 1);
        numbers_rise(sending, ids.take(to - 1), id);
        assert(ids.take(to).drop_last() =~= ids.take(to - 1));
    }
}

/// Sending on one track is nothing to another: its numbers go on where they were, and a
/// track's own number moves on by one. A track that sent nothing yet starts at zero.
pub proof fn tracks_are_numbered_apart(sending: Sending, id: MediaId, other: MediaId)
    requires
        sending.next_of(id) < u32::MAX,
    ensures
        sending.numbering(id).next_of(id) == sending.next_of(id) + 1,
        other.0 != id.0 ==> sending.numbering(id).next_of(other) == sending.next_of(other),
        !sending.next_seq.contains_key(other.0) ==> sending.next_of(other) == 0,
        sending.numbering(id).epoch == sending.epoch,
        sending.numbering(id).microphone == sending.microphone,
        sending.numbering(id).dropped == sending.dropped,
{
}

/// The epoch that is stamped is the latest one seen, and never goes back. Seeing one
/// changes nothing else.
pub proof fn the_stamp_never_goes_back(sending: Sending, one: Epoch, two: Epoch)
    ensures
        sending.observed(one).epoch >= sending.epoch,
        sending.observed(one).epoch >= one.0,
        sending.observed(one).epoch == sending.epoch || sending.observed(one).epoch == one.0,
        sending.observed(one).observed(two) == sending.observed(two).observed(one),
        sending.observed(one).microphone == sending.microphone,
        sending.observed(one).next_seq == sending.next_seq,
        sending.observed(one).dropped == sending.dropped,
{
}

/// Where the server places a client decides what its microphone sends on: the track it
/// was given, and none while it is in no room. The numbers of tracks go on as they were.
pub proof fn a_placement_names_the_microphone(sending: Sending, placed: Placed)
    ensures
        placed.tracks is None ==> sending.placed(placed).microphone is None,
        placed.tracks matches Some(tracks) ==> sending.placed(placed).microphone == Some(
            tracks.mic,
        ),
        sending.placed(placed).epoch >= placed.epoch.0,
        sending.placed(placed).epoch >= sending.epoch,
        sending.placed(placed).epoch == placed.epoch.0 || sending.placed(placed).epoch
            == sending.epoch,
        sending.placed(placed).next_seq == sending.next_seq,
        sending.placed(placed).dropped == sending.dropped,
{
}

/// A unit that is dropped counts once, and changes nothing else.
pub proof fn a_dropped_unit_counts_once(sending: Sending)
    ensures
        sending.dropped < u64::MAX ==> sending.dropping().dropped == sending.dropped + 1,
        sending.dropping().epoch == sending.epoch,
        sending.dropping().microphone == sending.microphone,
        sending.dropping().next_seq == sending.next_seq,
{
}

/// A datagram reads back as it was sent: thirteen bytes of header, then the payload as it
/// is. Its lowest flag is set exactly for a unit that a decoder can start at, and no other
/// flag is.
pub proof fn a_datagram_is_a_header_and_a_payload(
    media_id: MediaId,
    epoch: Epoch,
    seq: u32,
    keyframe: bool,
    payload: Seq<u8>,
)
    ensures
        ({
            let header = FrameHeader { media_id, epoch, seq, flags: flags_of(keyframe) };
            let datagram = datagram_of(header, payload);
            &&& datagram.len() == 13 + payload.len()
            &&& datagram.skip(13) == payload
            &&& FrameHeader::parsed(datagram) == header
            &&& datagram[12] == if keyframe {
                1u8
            } else {
                0u8
            }
        }),
{
    let header = FrameHeader { media_id, epoch, seq, flags: flags_of(keyframe) };
    frame::a_header_round_trips(header, payload);
    frame::the_layout_is_frozen(header);
}

} // verus!
