//! Datagrams on their way in: parsed, deduplicated and put together.

use std::collections::HashMap;

use vstd::prelude::*;

use crate::client::media::fragment::{self, AccessUnit, Assembly, Reassembler, Unit};
use crate::client::media::sequence::{Seen, SequenceWindow};
use crate::client::media::transform::{FrameTransform, Passthrough};
use crate::proto::frame::{self, FrameHeader, HEADER_BYTES};
use crate::proto::ids::MediaId;

verus! {

/// What has been heard on one track.
pub ghost struct Heard {
    pub seen: Seen,
    pub assembly: Assembly,
}

impl Heard {
    pub open spec fn nothing() -> Heard {
        Heard { seen: Seen::nothing(), assembly: Assembly::fresh() }
    }

    /// What a datagram's payload under `seq` leaves, and what it completes. A
    /// duplicate or a straggler changes nothing.
    pub open spec fn after(self, seq: u32, payload: Seq<u8>) -> (Heard, Seq<Unit>) {
        if !self.seen.is_new(seq) {
            (self, Seq::empty())
        } else {
            let (assembly, units) = self.assembly.pushed(seq, payload);
            (Heard { seen: self.seen.after(seq), assembly }, units)
        }
    }
}

/// What has been heard on a track, which starts out as nothing.
pub open spec fn track_of(tracks: Map<u32, Heard>, id: MediaId) -> Heard {
    if tracks.contains_key(id.0) {
        tracks[id.0]
    } else {
        Heard::nothing()
    }
}

/// Whether a datagram is read at all: it opens with a header, and one without an
/// unknown flag.
pub open spec fn is_read(datagram: Seq<u8>) -> bool {
    datagram.len() >= HEADER_BYTES && FrameHeader::parsed(datagram).flags & !frame::KNOWN_FLAGS
        == 0
}

/// What a datagram leaves of every track, and what it completes.
pub open spec fn received(tracks: Map<u32, Heard>, datagram: Seq<u8>) -> (
    Map<u32, Heard>,
    Seq<Unit>,
) {
    if !is_read(datagram) {
        (tracks, Seq::empty())
    } else {
        let header = FrameHeader::parsed(datagram);
        let (heard, units) = track_of(tracks, header.media_id).after(
            header.seq,
            datagram.skip(HEADER_BYTES as int),
        );
        (tracks.insert(header.media_id.0, heard), units)
    }
}

struct Track {
    window: SequenceWindow,
    reassembler: Reassembler,
}

impl Track {
    spec fn heard(self) -> Heard {
        Heard { seen: self.window@, assembly: self.reassembler@ }
    }

    spec fn wf(self) -> bool {
        &&& self.window.wf()
        &&& self.reassembler@.wf()
        &&& self.window@.accepted.finite()
        &&& self.reassembler@.late <= self.window@.accepted.len()
    }
}

/// An access unit, and the track it came on.
pub struct Media {
    pub media_id: MediaId,
    pub unit: AccessUnit,
}

/// The units of one track.
pub open spec fn media_of(media: Seq<Media>) -> Seq<Unit> {
    Seq::new(media.len(), |i: int| media[i].unit@)
}

/// The shared receive path: it parses the header, dedups, and reassembles. It
/// must never do work that can block on one peer.
pub struct Receiver {
    tracks: HashMap<u32, Track>,
}

impl View for Receiver {
    type V = Map<u32, Heard>;

    closed spec fn view(&self) -> Map<u32, Heard> {
        self.tracks@.map_values(|track: Track| track.heard())
    }
}

impl Receiver {
    pub closed spec fn wf(&self) -> bool {
        forall|id: u32| #[trigger] self.tracks@.contains_key(id) ==> self.tracks@[id].wf()
    }

    pub fn new() -> (receiver: Receiver)
        ensures
            receiver.wf(),
            receiver@ == Map::<u32, Heard>::empty(),
    {
        let receiver = Receiver { tracks: HashMap::new() };
        assert(receiver@ =~= Map::empty());
        receiver
    }

    /// What a datagram completed.
    pub fn receive(&mut self, datagram: &[u8]) -> (media: Vec<Media>)
        requires
            old(self).wf(),
        ensures
            final(self).wf(),
            (final(self)@, media_of(media@)) == received(old(self)@, datagram@),
            forall|i: int|
                0 <= i < media@.len() ==> (#[trigger] media@[i]).media_id == FrameHeader::parsed(
                    datagram@,
                ).media_id,
    {
        let mut media: Vec<Media> = Vec::new();
        assert(media_of(media@) =~= Seq::empty());
        let header = match FrameHeader::decode(datagram) {
            Ok(header) => header,
            Err(_) => return media,
        };
        if header.has_unknown_flags() {
            return media;
        }
        let id: u32 = header.media_id.0;
        let mut track = match self.tracks.remove(&id) {
            Some(track) => track,
            None => Track {
                window: SequenceWindow::default(),
                reassembler: Reassembler::default(),
            },
        };
        let ghost heard = track.heard();
        assert(heard == track_of(old(self)@, header.media_id));
        let ghost accepted = track.window@.accepted;
        proof {
            fits_in_u32(accepted);
            fits_in_u32(accepted.insert(header.seq));
        }
        if track.window.accept(header.seq) {
            let mut payload: Vec<u8> = Vec::new();
            payload.extend_from_slice(
                vstd::slice::slice_subrange(datagram, HEADER_BYTES, datagram.len()),
            );
            assert(payload@ =~= datagram@.skip(HEADER_BYTES as int));
            let mut transform = Passthrough;
            if transform.inbound(&header, &mut payload).is_ok() {
                let units = track.reassembler.push(header.seq, payload.as_slice());
                media = on_track(header.media_id, units);
            }
            proof {
                fragment::late_counts_resolved_arrivals(
                    heard.assembly,
                    header.seq,
                    datagram@.skip(HEADER_BYTES as int),
                );
            }
        }
        self.tracks.insert(id, track);
        proof {
            assert(self@ =~= old(self)@.insert(id, track.heard()));
        }
        media
    }
}

fn on_track(media_id: MediaId, units: Vec<AccessUnit>) -> (media: Vec<Media>)
    ensures
        media_of(media@) == fragment::units_of(units@),
        forall|i: int| 0 <= i < media@.len() ==> (#[trigger] media@[i]).media_id == media_id,
{
    let ghost all = fragment::units_of(units@);
    let mut units = units;
    let mut media: Vec<Media> = Vec::new();
    assert(media_of(media@) + all =~= all);
    while units.len() > 0
        invariant
            media_of(media@) + fragment::units_of(units@) == all,
            forall|i: int| 0 <= i < media@.len() ==> (#[trigger] media@[i]).media_id == media_id,
        decreases units@.len(),
    {
        let ghost before = units@;
        let ghost moved = media@;
        let unit = units.remove(0);
        media.push(Media { media_id, unit });
        proof {
            assert(media_of(media@) =~= media_of(moved).push(unit@));
            assert(media_of(media@) + fragment::units_of(units@)
                =~= media_of(moved) + fragment::units_of(before));
        }
    }
    assert(media_of(media@) + fragment::units_of(units@) =~= media_of(
        media@,
    ));
    media
}

/// Datagrams one after the other: what they leave, and all that they complete.
pub open spec fn received_all(tracks: Map<u32, Heard>, datagrams: Seq<Seq<u8>>) -> (
    Map<u32, Heard>,
    Seq<Unit>,
)
    decreases datagrams.len(),
{
    if datagrams.len() == 0 {
        (tracks, Seq::empty())
    } else {
        let (before, earlier) = received_all(tracks, datagrams.drop_last());
        let (after, units) = received(before, datagrams.last());
        (after, earlier + units)
    }
}

/// Headers for one track's datagrams, numbered from `from`, with flags every
/// receiver knows.
pub open spec fn numbers(headers: Seq<FrameHeader>, id: MediaId, from: u32) -> bool {
    &&& from + headers.len() <= u32::MAX + 1
    &&& forall|k: int|
        0 <= k < headers.len() ==> {
            &&& (#[trigger] headers[k]).media_id == id
            &&& headers[k].seq == from + k
            &&& headers[k].flags & !frame::KNOWN_FLAGS == 0
        }
}

/// Headers put in front of payloads.
pub open spec fn under(headers: Seq<FrameHeader>, payloads: Seq<Seq<u8>>) -> Seq<Seq<u8>> {
    Seq::new(headers.len(), |k: int| headers[k].bytes() + payloads[k])
}

/// Units sent one after the other on a track, none of more fragments than may
/// wait, come out of the receiver one for one, each with its own timestamp.
pub proof fn a_sent_stream_is_received(
    units: Seq<(Seq<u8>, Option<u32>)>,
    headers: Seq<FrameHeader>,
    id: MediaId,
    from: u32,
)
    requires
        headers.len() == fragment::stream(units).len(),
        numbers(headers, id, from),
        forall|i: int|
            0 <= i < units.len() ==> fragment::fragments((#[trigger] units[i]).0, units[i].1).len()
                <= fragment::MAX_PENDING_FRAGMENTS,
    ensures
        ({
            let emitted = received_all(
                Map::empty(),
                under(headers, fragment::stream(units)),
            ).1;
            &&& emitted.len() == units.len()
            &&& forall|i: int|
                0 <= i < units.len() ==> (#[trigger] emitted[i]).bytes == units[i].0
                    && emitted[i].timestamp == units[i].1
        }),
{
    let payloads = fragment::stream(units);
    let datagrams = under(headers, payloads);
    let arrivals = fragment::in_sequence(payloads, from);
    crossing(headers, payloads, id, from, headers.len());
    assert(datagrams.take(headers.len() as int) =~= datagrams);
    assert(arrivals.take(headers.len() as int) =~= arrivals);
    fragment::a_stream_survives(Assembly::fresh(), units, from);
}

proof fn crossing(
    headers: Seq<FrameHeader>,
    payloads: Seq<Seq<u8>>,
    id: MediaId,
    from: u32,
    upto: nat,
)
    requires
        headers.len() == payloads.len(),
        numbers(headers, id, from),
        upto <= headers.len(),
    ensures
        ({
            let (tracks, units) = received_all(
                Map::empty(),
                under(headers, payloads).take(upto as int),
            );
            let (assembly, emitted) = fragment::pushed_all(
                Assembly::fresh(),
                fragment::in_sequence(payloads, from).take(upto as int),
            );
            let run = Seq::new(upto, |i: int| (from + i) as u32);
            &&& units == emitted
            &&& track_of(tracks, id) == (Heard { seen: Seen::after_all(run), assembly })
        }),
    decreases upto,
{
    let datagrams = under(headers, payloads);
    let arrivals = fragment::in_sequence(payloads, from);
    let run = Seq::new(upto, |i: int| (from + i) as u32);
    if upto == 0 {
        assert(datagrams.take(0) =~= Seq::empty());
        assert(arrivals.take(0) =~= Seq::empty());
        assert(run =~= Seq::empty());
    } else {
        let last = upto - 1;
        crossing(headers, payloads, id, from, last as nat);
        assert(datagrams.take(upto as int).drop_last() =~= datagrams.take(last));
        assert(arrivals.take(upto as int).drop_last() =~= arrivals.take(last));
        assert(run.drop_last() =~= Seq::new(last as nat, |i: int| (from + i) as u32));
        assert(run.take(last) =~= run.drop_last());
        crate::client::media::sequence::a_run_in_order_is_all_new(from, upto);
        assert(Seen::delivers(run, last));
        frame::a_header_round_trips(headers[last], payloads[last]);
    }
}

/// There are no more sequence numbers than a `u32` can tell apart.
proof fn fits_in_u32(seqs: Set<u32>)
    ensures
        seqs.finite(),
        seqs.len() <= u32::MAX + 1,
{
    let all = Set::<u32>::range_inclusive(0, u32::MAX);
    vstd::set_lib::range_set_properties::<u32>(0, u32::MAX);
    assert(seqs.subset_of(all));
    vstd::set_lib::lemma_len_subset(seqs, all);
}

/// Tracks do not disturb each other: a datagram changes nothing of what has been heard
/// on any track but its own.
pub proof fn a_datagram_concerns_its_own_track(
    tracks: Map<u32, Heard>,
    datagram: Seq<u8>,
    other: MediaId,
)
    requires
        other != FrameHeader::parsed(datagram).media_id,
    ensures
        track_of(received(tracks, datagram).0, other) == track_of(tracks, other),
{
}

/// What a datagram completes, and what it leaves of its track, depends on nothing but
/// what has been heard on that track.
pub proof fn a_track_answers_for_itself(
    one: Map<u32, Heard>,
    two: Map<u32, Heard>,
    datagram: Seq<u8>,
)
    requires
        ({
            let id = FrameHeader::parsed(datagram).media_id;
            track_of(one, id) == track_of(two, id)
        }),
    ensures
        ({
            let id = FrameHeader::parsed(datagram).media_id;
            &&& received(one, datagram).1 == received(two, datagram).1
            &&& track_of(received(one, datagram).0, id) == track_of(received(two, datagram).0, id)
        }),
{
}

/// The datagrams of one track, in order.
pub open spec fn on_one_track(datagrams: Seq<Seq<u8>>, id: MediaId) -> Seq<Seq<u8>> {
    datagrams.filter(|datagram: Seq<u8>| FrameHeader::parsed(datagram).media_id == id)
}

/// What datagrams complete on one track.
pub open spec fn delivered(tracks: Map<u32, Heard>, datagrams: Seq<Seq<u8>>, id: MediaId) -> Seq<
    Unit,
>
    decreases datagrams.len(),
{
    if datagrams.len() == 0 {
        Seq::empty()
    } else {
        let earlier = delivered(tracks, datagrams.drop_last(), id);
        let before = received_all(tracks, datagrams.drop_last()).0;
        if FrameHeader::parsed(datagrams.last()).media_id == id {
            earlier + received(before, datagrams.last()).1
        } else {
            earlier
        }
    }
}

/// However the datagrams of several tracks are interleaved, each track delivers what it
/// would have delivered had its own datagrams come alone.
pub proof fn interleaved_tracks_deliver_as_if_alone(
    tracks: Map<u32, Heard>,
    datagrams: Seq<Seq<u8>>,
    id: MediaId,
)
    ensures
        ({
            let alone = on_one_track(datagrams, id);
            &&& track_of(received_all(tracks, datagrams).0, id) == track_of(
                received_all(tracks, alone).0,
                id,
            )
            &&& delivered(tracks, datagrams, id) == received_all(tracks, alone).1
        }),
    decreases datagrams.len(),
{
    let mine = |datagram: Seq<u8>| FrameHeader::parsed(datagram).media_id == id;
    reveal(Seq::filter);
    if datagrams.len() > 0 {
        let earlier = datagrams.drop_last();
        let last = datagrams.last();
        interleaved_tracks_deliver_as_if_alone(tracks, earlier, id);
        let alone = on_one_track(earlier, id);
        let (before, _) = received_all(tracks, earlier);
        let (by_itself, _) = received_all(tracks, alone);
        if mine(last) {
            assert(on_one_track(datagrams, id) == alone.push(last));
            assert(alone.push(last).drop_last() =~= alone);
            a_track_answers_for_itself(before, by_itself, last);
        } else {
            assert(on_one_track(datagrams, id) == alone);
            a_datagram_concerns_its_own_track(before, last, id);
        }
    }
}

/// A datagram that was read once completes nothing when its number comes again on its
/// track, whatever else arrived in between, and leaves every track as it was.
pub proof fn a_datagram_is_delivered_once(
    tracks: Map<u32, Heard>,
    datagram: Seq<u8>,
    between: Seq<Seq<u8>>,
    again: Seq<u8>,
    other: MediaId,
)
    requires
        is_read(datagram),
        FrameHeader::parsed(again).media_id == FrameHeader::parsed(datagram).media_id,
        FrameHeader::parsed(again).seq == FrameHeader::parsed(datagram).seq,
    ensures
        ({
            let before = received_all(received(tracks, datagram).0, between).0;
            let (after, units) = received(before, again);
            &&& units == Seq::<Unit>::empty()
            &&& track_of(after, other) == track_of(before, other)
        }),
    decreases between.len(),
{
    let header = FrameHeader::parsed(datagram);
    let started = received(tracks, datagram).0;
    let before = received_all(started, between).0;
    assert(!track_of(started, header.media_id).seen.is_new(header.seq));
    stays_seen(started, between, header.media_id, header.seq);
}

proof fn stays_seen(tracks: Map<u32, Heard>, datagrams: Seq<Seq<u8>>, id: MediaId, seq: u32)
    requires
        !track_of(tracks, id).seen.is_new(seq),
    ensures
        !track_of(received_all(tracks, datagrams).0, id).seen.is_new(seq),
    decreases datagrams.len(),
{
    if datagrams.len() > 0 {
        stays_seen(tracks, datagrams.drop_last(), id, seq);
        let before = received_all(tracks, datagrams.drop_last()).0;
        let last = datagrams.last();
        if FrameHeader::parsed(last).media_id == id {
            crate::client::media::sequence::what_is_not_new_stays_so(
                track_of(before, id).seen,
                FrameHeader::parsed(last).seq,
                seq,
            );
        }
    }
}

/// What is read: a datagram with a whole header whose flags are all known, and nothing
/// else. Anything else completes nothing and leaves every track as it was.
pub proof fn only_a_known_header_is_read(
    tracks: Map<u32, Heard>,
    header: FrameHeader,
    payload: Seq<u8>,
    short: Seq<u8>,
)
    requires
        short.len() < 13,
    ensures
        received(tracks, short) == (tracks, Seq::<Unit>::empty()),
        header.flags > 1 ==> received(tracks, header.bytes() + payload) == (
            tracks,
            Seq::<Unit>::empty(),
        ),
        header.flags <= 1 && track_of(tracks, header.media_id) == Heard::nothing() ==> track_of(
            received(tracks, header.bytes() + payload).0,
            header.media_id,
        ).seen.accepted.contains(header.seq),
{
    frame::a_header_round_trips(header, payload);
    let flags = header.flags;
    assert((flags & !1u8 == 0) == (flags <= 1)) by (bit_vector);
}

} // verus!
