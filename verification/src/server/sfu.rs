//! Which media datagrams go where.

use vstd::prelude::*;

use crate::proto::frame::{FrameHeader, HEADER_BYTES};
use crate::proto::ids::UserId;
use crate::proto::msg::Tracks;
use crate::server::rooms::{self, Session};
use crate::server::state::{self, State, World};

verus! {

/// One connection's media picture: the ids it may send on, and the connections
/// its datagrams go to. Rebuilt on every membership change.
pub struct Route {
    pub tracks: Option<Tracks>,
    pub subscribers: Vec<u64>,
}

/// The connections of sessions, in order.
pub open spec fn connections_of(sessions: Seq<Session>) -> Seq<u64> {
    Seq::new(sessions.len(), |i: int| sessions[i].connection)
}

/// Whether a route is a user's: on their own tracks, to everyone else in their
/// room; on none and to nobody while they are in no room.
pub open spec fn is_route(world: World, user: UserId, route: Route) -> bool {
    match world.place_of(user) {
        Some(place) => {
            &&& route.tracks matches Some(tracks) && rooms::is_tracks(tracks, place.media)
            &&& route.subscribers@ == connections_of(
                rooms::neighbours(world.sessions, place.room, user),
            )
        },
        None => route.tracks is None && route.subscribers@.len() == 0,
    }
}

/// Whether a datagram is passed on: it opens with a header, and its sender owns the
/// track it names.
pub open spec fn is_forwarded(route: Route, datagram: Seq<u8>) -> bool {
    datagram.len() >= HEADER_BYTES && (route.tracks matches Some(tracks) && tracks.has(
        FrameHeader::parsed(datagram).media_id,
    ))
}

/// A user's route.
pub fn route_of(state: &State, user: UserId) -> (route: Route)
    requires
        state.wf(),
    ensures
        is_route(state@, user, route),
{
    let place = match state.registry().session(user) {
        Some(session) => session.place,
        None => None,
    };
    match place {
        None => Route { tracks: None, subscribers: Vec::new() },
        Some(place) => {
            proof {
                state.shows_a_sound_world();
                rooms::session_is_there(state@.sessions, user);
            }
            let others = state.registry().neighbours(place.room, user);
            let mut subscribers: Vec<u64> = Vec::new();
            let mut i: usize = 0;
            while i < others.len()
                invariant
                    i <= others@.len(),
                    subscribers@ == connections_of(others@.take(i as int)),
                decreases others@.len() - i,
            {
                subscribers.push(others[i].connection);
                i += 1;
                assert(subscribers@ =~= connections_of(others@.take(i as int)));
            }
            assert(others@.take(i as int) =~= others@);
            Route { tracks: Some(rooms::tracks_from(place.media)), subscribers }
        },
    }
}

/// Whether a datagram goes out, unmodified, to the route's subscribers.
pub fn forward(route: &Route, datagram: &[u8]) -> (forwarded: bool)
    ensures
        forwarded == is_forwarded(*route, datagram@),
{
    let header = match FrameHeader::decode(datagram) {
        Ok(header) => header,
        Err(_) => return false,
    };
    match &route.tracks {
        Some(tracks) => tracks.owns(header.media_id),
        None => false,
    }
}

/// Nobody is heard under another's name: what one client may send on a track, no
/// other client may.
pub proof fn a_claimed_track_is_dropped(
    world: World,
    owner: UserId,
    owned: Route,
    spoofer: UserId,
    spoofed: Route,
    datagram: Seq<u8>,
)
    requires
        world.wf(),
        owner != spoofer,
        is_route(world, owner, owned),
        is_route(world, spoofer, spoofed),
        is_forwarded(owned, datagram),
    ensures
        !is_forwarded(spoofed, datagram),
{
    rooms::session_is_there(world.sessions, owner);
    rooms::session_is_there(world.sessions, spoofer);
    if is_forwarded(spoofed, datagram) {
        let i = rooms::session_at(world.sessions, owner)->0 as int;
        let j = rooms::session_at(world.sessions, spoofer)->0 as int;
        state::nobody_shares_a_media_id(
            world,
            i,
            j,
            owned.tracks->0,
            spoofed.tracks->0,
            FrameHeader::parsed(datagram).media_id,
        );
    }
}

/// The server never reads past the header: datagrams that open with the same header
/// fare alike, whatever their payloads.
pub proof fn the_payload_is_never_read(route: Route, header: FrameHeader, one: Seq<u8>, other: Seq<u8>)
    ensures
        is_forwarded(route, header.bytes() + one) == is_forwarded(route, header.bytes() + other),
{
    crate::proto::frame::a_header_round_trips(header, one);
    crate::proto::frame::a_header_round_trips(header, other);
}

/// Media does not leave the room it was sent in: every subscriber is a session in
/// the sender's room, and not the sender's own.
pub proof fn media_stays_in_the_room(world: World, sender: UserId, route: Route, i: int)
    requires
        world.wf(),
        is_route(world, sender, route),
        0 <= i < route.subscribers@.len(),
    ensures
        exists|k: int|
            0 <= k < world.sessions.len() && (#[trigger] world.sessions[k]).connection
                == route.subscribers@[i] && world.sessions[k].user != sender && (world.place_of(
                sender,
            ) matches Some(place) && world.sessions[k].is_in(place.room)),
{
    let place = world.place_of(sender)->0;
    let others = rooms::neighbours(world.sessions, place.room, sender);
    assert(others.contains(others[i]));
    rooms::neighbours_share_the_room(world.sessions, place.room, sender, others[i]);
    let k = choose|k: int| 0 <= k < world.sessions.len() && world.sessions[k] == others[i];
    assert(world.sessions[k].connection == route.subscribers@[i]);
}

/// Everyone in the room is heard by everyone else: the connection of every other session
/// in the sender's room is among the subscribers.
pub proof fn everyone_else_in_the_room_hears(world: World, sender: UserId, route: Route, k: int)
    requires
        world.wf(),
        is_route(world, sender, route),
        0 <= k < world.sessions.len(),
        world.sessions[k].user != sender,
        world.place_of(sender) matches Some(place) && (world.sessions[k].place matches Some(there)
            && there.room == place.room),
    ensures
        route.subscribers@.contains(world.sessions[k].connection),
{
    let room = world.place_of(sender)->0.room;
    let picks = rooms::neighbours_are_picked_in_order(world.sessions, room, sender);
    assert(picks.contains(k));
    let i = choose|i: int| 0 <= i < picks.len() && picks[i] == k;
    assert(rooms::neighbours(world.sessions, room, sender)[i] == world.sessions[picks[i]]);
    assert(route.subscribers@[i] == world.sessions[k].connection);
}

/// Nobody is sent a datagram twice: the subscribers are the connections of the sessions
/// at `picks`, all of them different, in order.
pub proof fn nobody_is_sent_a_datagram_twice(world: World, sender: UserId, route: Route) -> (picks:
    Seq<int>)
    requires
        world.wf(),
        is_route(world, sender, route),
    ensures
        picks.len() == route.subscribers@.len(),
        forall|i: int, j: int| 0 <= i < j < picks.len() ==> picks[i] < picks[j],
        forall|i: int|
            0 <= i < picks.len() ==> 0 <= #[trigger] picks[i] < world.sessions.len()
                && route.subscribers@[i] == world.sessions[picks[i]].connection,
{
    match world.place_of(sender) {
        Some(place) => rooms::neighbours_are_picked_in_order(world.sessions, place.room, sender),
        None => Seq::empty(),
    }
}

/// A sender is heard on its own three ids and on no other, and only while it is in a
/// room. A datagram without a whole header is never passed on.
pub proof fn a_sender_is_heard_on_its_own_ids(
    world: World,
    sender: UserId,
    route: Route,
    header: FrameHeader,
    payload: Seq<u8>,
    short: Seq<u8>,
)
    requires
        world.wf(),
        is_route(world, sender, route),
        short.len() < 13,
    ensures
        is_forwarded(route, header.bytes() + payload) <==> (world.place_of(sender) matches Some(
            place,
        ) && place.media <= header.media_id.0 <= place.media + 2),
        !is_forwarded(route, short),
        world.place_of(sender) is None ==> route.subscribers@.len() == 0,
{
    crate::proto::frame::a_header_round_trips(header, payload);
    rooms::session_is_there(world.sessions, sender);
    if let Some(place) = world.place_of(sender) {
        let at = rooms::session_at(world.sessions, sender)->0 as int;
        assert(world.sessions[at].place == Some(place));
        rooms::tracks_are_three_in_a_row(route.tracks->0, place.media, header.media_id);
    }
}

} // verus!
