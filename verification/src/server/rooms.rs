//! Who is connected, and where.

use vstd::prelude::*;

use crate::keyed;
use crate::proto::ids::{MediaId, RoomId, UserId};
use crate::proto::msg::{Codec, Event, PeerState, Share, Tracks};

verus! {

/// A client this far behind on control events has a divergent roster, so its
/// connection is closed with this code rather than left to carry on with one.
pub const BACKED_UP: u32 = 2;

/// A room somebody is in, and the first of the media ids they send on there.
#[derive(Debug, Clone, Copy, PartialEq, Eq, Structural)]
pub struct Place {
    pub room: RoomId,
    pub media: u32,
}

/// One key's connection.
#[derive(Debug, Clone, Copy, PartialEq, Eq, Structural)]
pub struct Session {
    pub user: UserId,
    pub connection: u64,
    pub place: Option<Place>,
}

impl Session {
    /// Whether the session is in a room.
    pub open spec fn is_in(self, room: RoomId) -> bool {
        self.place matches Some(place) && place.room == room
    }
}

/// An event, and everyone it goes to.
#[derive(Debug)]
pub struct Notice {
    pub to: Vec<UserId>,
    pub event: Event,
}

/// Where a user's session stands.
pub open spec fn session_at(sessions: Seq<Session>, user: UserId) -> Option<nat> {
    keyed::place(users_of(sessions), user)
}

/// One key is one session.
pub open spec fn distinct_users(sessions: Seq<Session>) -> bool {
    forall|i: int, j: int| 0 <= i < j < sessions.len() ==> sessions[i].user != sessions[j].user
}

/// The sessions in a room other than one user's own, in order.
pub open spec fn neighbours(sessions: Seq<Session>, room: RoomId, user: UserId) -> Seq<Session>
    decreases sessions.len(),
{
    if sessions.len() == 0 {
        Seq::empty()
    } else {
        let last = sessions.last();
        let before = neighbours(sessions.drop_last(), room, user);
        if last.is_in(room) && last.user != user {
            before.push(last)
        } else {
            before
        }
    }
}

/// The users of sessions, in order.
pub open spec fn users_of(sessions: Seq<Session>) -> Seq<UserId> {
    Seq::new(sessions.len(), |i: int| sessions[i].user)
}

/// Whether tracks are the ones that start at a media id: the microphone, and one
/// share with its picture and its sound.
pub open spec fn is_tracks(tracks: Tracks, media: u32) -> bool {
    &&& tracks.mic == MediaId(media)
    &&& tracks.shares@ == seq![
        Share {
            video: MediaId((media + 1) as u32),
            audio: Some(MediaId((media + 2) as u32)),
        },
    ]
}

/// Whether a peer is a session as it first appears in a room: with tracks of its
/// own, and sending on none of them yet.
pub open spec fn is_peer(peer: PeerState, user: UserId, media: u32) -> bool {
    &&& peer.user == user
    &&& is_tracks(peer.tracks, media)
    &&& !peer.mic
    &&& !peer.screen
    &&& !peer.share_audio
    &&& peer.screen_kbps == 0
    &&& peer.codec == Codec::Av1
}

/// The tracks that start at a media id.
pub fn tracks_from(media: u32) -> (tracks: Tracks)
    requires
        media + 2 <= u32::MAX,
    ensures
        is_tracks(tracks, media),
{
    let mut shares: Vec<Share> = Vec::new();
    shares.push(Share { video: MediaId(media + 1), audio: Some(MediaId(media + 2)) });
    assert(shares@ =~= seq![
        Share {
            video: MediaId((media + 1) as u32),
            audio: Some(MediaId((media + 2) as u32)),
        },
    ]);
    Tracks { mic: MediaId(media), shares }
}

/// A session's tracks are three media ids in a row, and no others.
pub proof fn tracks_are_three_in_a_row(tracks: Tracks, media: u32, id: MediaId)
    requires
        is_tracks(tracks, media),
        media + 2 <= u32::MAX,
    ensures
        tracks.has(id) == (media <= id.0 <= media + 2),
{
    assert(tracks.shares@[0].has(MediaId((media + 1) as u32)));
    assert(tracks.shares@[0].has(MediaId((media + 2) as u32)));
    if tracks.has(id) && tracks.mic != id {
        let i = choose|i: int| 0 <= i < tracks.shares@.len() && (#[trigger] tracks.shares@[i]).has(id);
        assert(i == 0);
    }
}

/// A peer that has just entered.
pub fn peer_from(user: UserId, media: u32) -> (peer: PeerState)
    requires
        media + 2 <= u32::MAX,
    ensures
        is_peer(peer, user, media),
{
    PeerState {
        user,
        tracks: tracks_from(media),
        mic: false,
        screen: false,
        share_audio: false,
        screen_kbps: 0,
        codec: Codec::Av1,
    }
}

/// Every connected client.
pub struct Registry {
    sessions: Vec<Session>,
}

impl View for Registry {
    type V = Seq<Session>;

    closed spec fn view(&self) -> Seq<Session> {
        self.sessions@
    }
}

impl Default for Registry {
    fn default() -> (registry: Registry)
        ensures
            registry@ == Seq::<Session>::empty(),
    {
        Registry { sessions: Vec::new() }
    }
}

impl Registry {
    /// Where a user's session stands.
    pub fn position(&self, user: UserId) -> (at: Option<usize>)
        ensures
            match (at, session_at(self@, user)) {
                (Some(at), Some(expected)) => {
                    at == expected && at < self@.len() && self@[at as int].user == user
                },
                (None, None) => true,
                _ => false,
            },
    {
        let ghost keys = users_of(self.sessions@);
        let mut i: usize = 0;
        while i < self.sessions.len()
            invariant
                i <= self.sessions@.len(),
                keys == users_of(self.sessions@),
                forall|j: int| 0 <= j < i ==> #[trigger] keys[j] != user,
            decreases self.sessions@.len() - i,
        {
            assert(keys[i as int] == self.sessions@[i as int].user);
            if self.sessions[i].user == user {
                proof {
                    keyed::the_first_is_the_place(keys, user, i as int);
                }
                return Some(i);
            }
            i += 1;
        }
        proof {
            keyed::a_place_is_the_first(keys, user);
        }
        None
    }

    /// A user's session.
    pub fn session(&self, user: UserId) -> (session: Option<Session>)
        ensures
            match session_at(self@, user) {
                Some(at) => session == Some(self@[at as int]),
                None => session is None,
            },
    {
        match self.position(user) {
            Some(at) => Some(self.sessions[at]),
            None => None,
        }
    }

    /// The connection this one displaces, when the same key was already
    /// connected. One key is one session, and the newer one wins.
    pub fn attach(&mut self, user: UserId, connection: u64) -> (displaced: Option<u64>)
        requires
            distinct_users(old(self)@),
        ensures
            distinct_users(final(self)@),
            ({
                let session = Session { user, connection, place: None };
                match session_at(old(self)@, user) {
                    Some(at) => {
                        &&& displaced == Some(old(self)@[at as int].connection)
                        &&& final(self)@ == old(self)@.update(at as int, session)
                    },
                    None => displaced is None && final(self)@ == old(self)@.push(session),
                }
            }),
    {
        let session = Session { user, connection, place: None };
        let ghost before = self.sessions@;
        match self.position(user) {
            Some(at) => {
                let displaced: u64 = self.sessions[at].connection;
                self.sessions.set(at, session);
                proof {
                    let after = self.sessions@;
                    assert forall|i: int, j: int| 0 <= i < j < after.len() implies after[i].user
                        != after[j].user by {
                        assert(after[i].user == before[i].user && after[j].user == before[j].user);
                    }
                }
                Some(displaced)
            },
            None => {
                self.sessions.push(session);
                proof {
                    session_is_there(before, user);
                    let after = self.sessions@;
                    assert forall|i: int, j: int| 0 <= i < j < after.len() implies after[i].user
                        != after[j].user by {
                        assert(after[i] == before[i]);
                        if j < before.len() {
                            assert(after[j] == before[j]);
                        }
                    }
                }
                None
            },
        }
    }

    /// Forgets a user's session.
    pub fn detach(&mut self, user: UserId)
        requires
            distinct_users(old(self)@),
        ensures
            distinct_users(final(self)@),
            match session_at(old(self)@, user) {
                Some(at) => final(self)@ == old(self)@.remove(at as int),
                None => final(self)@ == old(self)@,
            },
    {
        if let Some(at) = self.position(user) {
            let _ = self.sessions.remove(at);
        }
    }

    /// Forgets the session of a client that stopped reading its events, and names the
    /// connection to close.
    pub fn close_backed_up(&mut self, user: UserId) -> (closed: Option<u64>)
        requires
            distinct_users(old(self)@),
        ensures
            distinct_users(final(self)@),
            match session_at(old(self)@, user) {
                Some(at) => {
                    &&& closed == Some(old(self)@[at as int].connection)
                    &&& final(self)@ == old(self)@.remove(at as int)
                },
                None => closed is None && final(self)@ == old(self)@,
            },
    {
        match self.session(user) {
            Some(session) => {
                self.detach(user);
                Some(session.connection)
            },
            None => None,
        }
    }

    /// An event for everyone connected.
    pub fn broadcast(&self, event: Event) -> (notice: Notice)
        ensures
            notice.event == event,
            notice.to@ == users_of(self@),
    {
        let mut to: Vec<UserId> = Vec::new();
        let mut i: usize = 0;
        while i < self.sessions.len()
            invariant
                i <= self.sessions@.len(),
                to@ == users_of(self.sessions@.take(i as int)),
            decreases self.sessions@.len() - i,
        {
            to.push(self.sessions[i].user);
            i += 1;
            assert(to@ =~= users_of(self.sessions@.take(i as int)));
        }
        assert(self.sessions@.take(i as int) =~= self.sessions@);
        Notice { to, event }
    }

    /// The sessions in a room other than one user's own.
    pub fn neighbours(&self, room: RoomId, user: UserId) -> (others: Vec<Session>)
        ensures
            others@ == neighbours(self@, room, user),
    {
        let mut others: Vec<Session> = Vec::new();
        let mut i: usize = 0;
        while i < self.sessions.len()
            invariant
                i <= self.sessions@.len(),
                others@ == neighbours(self.sessions@.take(i as int), room, user),
            decreases self.sessions@.len() - i,
        {
            assert(self.sessions@.take(i + 1).drop_last() =~= self.sessions@.take(i as int));
            let session = self.sessions[i];
            if let Some(place) = session.place {
                if place.room == room && session.user != user {
                    others.push(session);
                }
            }
            i += 1;
        }
        assert(self.sessions@.take(i as int) =~= self.sessions@);
        others
    }

    /// Puts a session somewhere.
    pub fn place(&mut self, user: UserId, place: Option<Place>)
        requires
            distinct_users(old(self)@),
        ensures
            distinct_users(final(self)@),
            final(self)@ == placed_at(old(self)@, user, place),
    {
        if let Some(at) = self.position(user) {
            let ghost before = self.sessions@;
            let connection: u64 = self.sessions[at].connection;
            self.sessions.set(at, Session { user, connection, place });
            proof {
                let after = self.sessions@;
                assert forall|i: int, j: int| 0 <= i < j < after.len() implies after[i].user
                    != after[j].user by {
                    assert(after[i].user == before[i].user && after[j].user == before[j].user);
                }
            }
        }
    }

    /// Moves everyone in a room to no room.
    pub fn empty(&mut self, room: RoomId)
        requires
            distinct_users(old(self)@),
        ensures
            distinct_users(final(self)@),
            final(self)@ == emptied(old(self)@, room),
    {
        let ghost before = self.sessions@;
        let mut i: usize = 0;
        while i < self.sessions.len()
            invariant
                i <= self.sessions@.len() == before.len(),
                forall|j: int|
                    0 <= j < i ==> #[trigger] self.sessions@[j] == emptied(before, room)[j],
                forall|j: int|
                    i <= j < before.len() ==> #[trigger] self.sessions@[j] == before[j],
            decreases before.len() - i,
        {
            let session = self.sessions[i];
            if let Some(place) = session.place {
                if place.room == room {
                    self.sessions.set(
                        i,
                        Session { user: session.user, connection: session.connection, place: None },
                    );
                }
            }
            i += 1;
        }
        assert(self.sessions@ =~= emptied(before, room));
    }
}

/// Sessions with one user's put somewhere else.
pub open spec fn placed_at(
    sessions: Seq<Session>,
    user: UserId,
    place: Option<Place>,
) -> Seq<Session> {
    match session_at(sessions, user) {
        Some(at) => sessions.update(at as int, (Session { place, ..sessions[at as int] })),
        None => sessions,
    }
}

/// Sessions with everyone in a room moved to no room.
pub open spec fn emptied(sessions: Seq<Session>, room: RoomId) -> Seq<Session> {
    Seq::new(
        sessions.len(),
        |i: int|
            if sessions[i].is_in(room) {
                Session { place: None, ..sessions[i] }
            } else {
                sessions[i]
            },
    )
}

/// A session that is found stands where it is found, and one that is not stands
/// nowhere.
pub proof fn session_is_there(sessions: Seq<Session>, user: UserId)
    ensures
        match session_at(sessions, user) {
            Some(at) => at < sessions.len() && sessions[at as int].user == user,
            None => forall|i: int| 0 <= i < sessions.len() ==> (#[trigger] sessions[i]).user != user,
        },
{
    let keys = users_of(sessions);
    keyed::a_place_is_the_first(keys, user);
    assert forall|i: int| 0 <= i < sessions.len() implies (#[trigger] sessions[i]).user
        == keys[i] by {}
}

/// Neighbours are exactly the sessions in the room of anyone else.
pub proof fn neighbours_share_the_room(
    sessions: Seq<Session>,
    room: RoomId,
    user: UserId,
    session: Session,
)
    ensures
        neighbours(sessions, room, user).contains(session) <==> sessions.contains(session)
            && session.is_in(room) && session.user != user,
    decreases sessions.len(),
{
    if sessions.len() > 0 {
        let before = sessions.drop_last();
        let last = sessions.last();
        neighbours_share_the_room(before, room, user, session);
        let earlier = neighbours(before, room, user);
        let all = neighbours(sessions, room, user);
        if sessions.contains(session) && session != last {
            let i = choose|i: int| 0 <= i < sessions.len() && sessions[i] == session;
            assert(before[i] == session);
        }
        if before.contains(session) {
            let i = choose|i: int| 0 <= i < before.len() && before[i] == session;
            assert(sessions[i] == session);
        }
        if all.contains(session) && session != last {
            let i = choose|i: int| 0 <= i < all.len() && all[i] == session;
            assert(earlier[i] == session);
        }
        if earlier.contains(session) {
            let i = choose|i: int| 0 <= i < earlier.len() && earlier[i] == session;
            assert(all[i] == session);
        }
        if last.is_in(room) && last.user != user {
            assert(all[all.len() - 1] == last);
        }
        assert(sessions[sessions.len() - 1] == last);
    }
}

/// Neighbours are everyone in the room but one user, each once and in the order of the
/// sessions: those that stand at `picks`.
pub proof fn neighbours_are_picked_in_order(sessions: Seq<Session>, room: RoomId, user: UserId) -> (
    picks: Seq<int>)
    ensures
        picks.len() == neighbours(sessions, room, user).len(),
        forall|i: int, j: int| 0 <= i < j < picks.len() ==> picks[i] < picks[j],
        forall|i: int|
            0 <= i < picks.len() ==> 0 <= #[trigger] picks[i] < sessions.len() && neighbours(
                sessions,
                room,
                user,
            )[i] == sessions[picks[i]],
        forall|k: int| #[trigger]
            picks.contains(k) <==> 0 <= k < sessions.len() && sessions[k].user != user && (
            sessions[k].place matches Some(place) && place.room == room),
    decreases sessions.len(),
{
    if sessions.len() == 0 {
        assert(neighbours(sessions, room, user).len() == 0);
        Seq::empty()
    } else {
        let before = sessions.drop_last();
        let last = sessions.len() - 1;
        let earlier = neighbours_are_picked_in_order(before, room, user);
        let chosen = sessions[last].is_in(room) && sessions[last].user != user;
        let picks = if chosen {
            earlier.push(last)
        } else {
            earlier
        };
        assert forall|k: int| #[trigger] picks.contains(k) <==> 0 <= k < sessions.len()
            && sessions[k].user != user && (sessions[k].place matches Some(place) && place.room
            == room) by {
            assert(earlier.contains(k) <==> 0 <= k < before.len() && before[k].user != user && (
            before[k].place matches Some(place) && place.room == room));
            if 0 <= k < last {
                assert(before[k] == sessions[k]);
            }
            if earlier.contains(k) {
                let i = choose|i: int| 0 <= i < earlier.len() && earlier[i] == k;
                assert(picks[i] == k);
            }
            if picks.contains(k) {
                let i = choose|i: int| 0 <= i < picks.len() && picks[i] == k;
                if i < earlier.len() {
                    assert(earlier[i] == k);
                }
            }
            if chosen && k == last {
                assert(picks[picks.len() - 1] == k);
            }
        }
        assert forall|i: int| 0 <= i < picks.len() implies 0 <= #[trigger] picks[i]
            < sessions.len() && neighbours(sessions, room, user)[i] == sessions[picks[i]] by {
            if i < earlier.len() {
                assert(picks[i] == earlier[i]);
                assert(before[earlier[i]] == sessions[earlier[i]]);
            }
        }
        assert forall|i: int, j: int| 0 <= i < j < picks.len() implies picks[i] < picks[j] by {
            assert(picks[i] == earlier[i]);
            if j < earlier.len() {
                assert(picks[j] == earlier[j]);
            }
        }
        picks
    }
}

/// A placement changes one user's session, in its place and nothing else of it, and no
/// other session.
pub proof fn a_placement_changes_one_place(
    sessions: Seq<Session>,
    user: UserId,
    place: Option<Place>,
    i: int,
)
    requires
        distinct_users(sessions),
        0 <= i < sessions.len(),
    ensures
        placed_at(sessions, user, place).len() == sessions.len(),
        placed_at(sessions, user, place)[i].user == sessions[i].user,
        placed_at(sessions, user, place)[i].connection == sessions[i].connection,
        placed_at(sessions, user, place)[i].place == if sessions[i].user == user {
            place
        } else {
            sessions[i].place
        },
{
    session_is_there(sessions, user);
    if let Some(at) = session_at(sessions, user) {
        let at = at as int;
        if i < at {
            assert(sessions[i].user != sessions[at].user);
        } else if at < i {
            assert(sessions[at].user != sessions[i].user);
        }
    }
}

/// A peer that enters sends on three ids of its own, in a row from the first: sound of
/// the microphone, and picture and sound of one share. It sends on none of them yet.
pub proof fn a_peer_enters_silent_on_three_ids(peer: PeerState, user: UserId, media: u32)
    requires
        is_peer(peer, user, media),
        media <= u32::MAX - 2,
    ensures
        peer.user == user,
        peer.tracks.mic.0 == media,
        peer.tracks.shares@.len() == 1,
        peer.tracks.shares@[0].video.0 == media + 1,
        peer.tracks.shares@[0].audio == Some(MediaId((media + 2) as u32)),
        !peer.mic && !peer.screen && !peer.share_audio && peer.screen_kbps == 0,
        peer.codec == Codec::Av1,
{
}

} // verus!
