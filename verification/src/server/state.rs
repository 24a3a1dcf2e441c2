//! The whole of a running server's state, and how people move through it.

use vstd::prelude::*;

use crate::keyed;
use crate::proto::ids::{Epoch, MediaId, RoomId, UserId};
use crate::proto::msg::{Event, PeerState, Placed, Role, Room};
use crate::server::database::{
    self, Admission, Database, Invite, NoId, Records, MEDIA_IDS_PER_PLACEMENT,
};
use crate::server::invite::{
    Failures, PeerAddress, RedemptionLimiter, SERVER_WIDE_FAILURE_BUDGET,
};
use crate::server::rooms::{self, Notice, Place, Registry, Session};

verus! {

/// Everything a server knows.
pub ghost struct World {
    pub records: Records,
    pub failures: Failures,
    pub sessions: Seq<Session>,
}

/// A room's epoch.
pub open spec fn epoch_of(rooms: Seq<Room>, id: RoomId) -> Epoch {
    rooms[database::room_at(rooms, id)->0 as int].epoch
}

/// Everyone who is somewhere is in a room there is, on media ids that were handed
/// out to nobody else.
pub open spec fn places_are_sound(records: Records, sessions: Seq<Session>) -> bool {
    &&& forall|i: int|
        0 <= i < sessions.len() ==> ((#[trigger] sessions[i]).place matches Some(place)
            ==> database::room_at(records.rooms, place.room) is Some && place.media
            + MEDIA_IDS_PER_PLACEMENT <= records.next_media_id)
    &&& forall|i: int, j: int|
        0 <= i < sessions.len() && 0 <= j < sessions.len() && i != j ==> are_apart(
            #[trigger] sessions[i],
            #[trigger] sessions[j],
        )
}

/// Whether two sessions share no media id.
pub open spec fn are_apart(one: Session, other: Session) -> bool {
    one.place is Some && other.place is Some ==> one.place->0.media + MEDIA_IDS_PER_PLACEMENT
        <= other.place->0.media || other.place->0.media + MEDIA_IDS_PER_PLACEMENT
        <= one.place->0.media
}

impl World {
    pub open spec fn wf(self) -> bool {
        &&& self.records.wf()
        &&& self.failures.wf()
        &&& self.failures.total <= SERVER_WIDE_FAILURE_BUDGET
        &&& rooms::distinct_users(self.sessions)
        &&& places_are_sound(self.records, self.sessions)
    }

    /// Whether a user can leave: the room they are in, if any, has an epoch left to
    /// move on to.
    pub open spec fn can_leave(self, user: UserId) -> bool {
        self.place_of(user) matches Some(place) ==> epoch_of(self.records.rooms, place.room).0
            < u32::MAX
    }

    /// Whether a room can be entered: it has an epoch left to move on to, and there
    /// are media ids to send on.
    pub open spec fn can_enter(self, room: RoomId) -> bool {
        self.records.has_media() && epoch_of(self.records.rooms, room).0 < u32::MAX
    }

    /// Whether a user can move, which takes leaving and, where there is a room to
    /// move to, entering it.
    pub open spec fn can_move(self, user: UserId, target: Option<RoomId>) -> bool {
        match target {
            Some(room) => self.has_room(room) ==> self.can_leave(user) && self.left(
                user,
            ).can_enter(room),
            None => self.can_leave(user),
        }
    }

    /// Whether a user can arrive, which takes leaving and, where the room asked for
    /// is there, entering it.
    pub open spec fn can_arrive(self, user: UserId, want_room: Option<RoomId>) -> bool {
        &&& self.can_leave(user)
        &&& self.wanted(want_room) matches Some(room) ==> self.left(user).can_enter(room)
    }

    /// Whether whoever holds a key can arrive: a user of old, or a new one under the
    /// id they are given, where one is left.
    pub open spec fn can_authenticate(
        self,
        pubkey: Seq<u8>,
        code: Option<Seq<char>>,
        want_room: Option<RoomId>,
        now: u64,
    ) -> bool {
        match database::user_at(self.records.users, pubkey) {
            Some(at) => self.can_arrive(self.records.users[at as int].user.id, want_room),
            None => self.records.enrolls(pubkey, code, now) && self.records.takes_users()
                ==> self.can_arrive(database::next_user_id(self.records.users), want_room),
        }
    }

    /// Where a user is, while connected.
    pub open spec fn place_of(self, user: UserId) -> Option<Place> {
        match rooms::session_at(self.sessions, user) {
            Some(at) => self.sessions[at as int].place,
            None => None,
        }
    }

    pub open spec fn is_connected(self, user: UserId) -> bool {
        rooms::session_at(self.sessions, user) is Some
    }

    pub open spec fn has_room(self, room: RoomId) -> bool {
        database::room_at(self.records.rooms, room) is Some
    }

    /// The world once a user has left whatever room they were in, which moves that
    /// room on to its next epoch.
    pub open spec fn left(self, user: UserId) -> World {
        match self.place_of(user) {
            Some(place) => World {
                records: Records {
                    rooms: database::bumped(self.records.rooms, place.room),
                    ..self.records
                },
                sessions: rooms::placed_at(self.sessions, user, None),
                ..self
            },
            None => self,
        }
    }

    /// The world once a user who was nowhere has entered a room, which moves it on to
    /// its next epoch and takes fresh media ids.
    pub open spec fn entered(self, user: UserId, room: RoomId) -> World {
        World {
            records: Records {
                rooms: database::bumped(self.records.rooms, room),
                next_media_id: (self.records.next_media_id + MEDIA_IDS_PER_PLACEMENT) as u32,
                ..self.records
            },
            sessions: rooms::placed_at(
                self.sessions,
                user,
                Some(Place { room, media: self.records.next_media_id }),
            ),
            ..self
        }
    }

    /// The world once a user has moved: out of the old room, then into the new one.
    pub open spec fn moved(self, user: UserId, target: Option<RoomId>) -> World {
        match target {
            Some(room) => self.left(user).entered(user, room),
            None => self.left(user),
        }
    }

    /// The world with a new session for a user, which starts out nowhere.
    pub open spec fn attached(self, user: UserId, connection: u64) -> World {
        let session = Session { user, connection, place: None };
        World {
            sessions: match rooms::session_at(self.sessions, user) {
                Some(at) => self.sessions.update(at as int, session),
                None => self.sessions.push(session),
            },
            ..self
        }
    }

    /// The world without a user's session.
    pub open spec fn detached(self, user: UserId) -> World {
        match rooms::session_at(self.sessions, user) {
            Some(at) => World { sessions: self.sessions.remove(at as int), ..self },
            None => self,
        }
    }

    /// Where a client that asks for a room on arrival is put: there, while there is
    /// such a room, and otherwise nowhere.
    pub open spec fn wanted(self, room: Option<RoomId>) -> Option<RoomId> {
        match room {
            Some(room) if self.has_room(room) => Some(room),
            _ => None,
        }
    }

    /// The world once a user has arrived on a connection. A session the user still
    /// had ends, and with it the stay in its room.
    pub open spec fn arrived(
        self,
        user: UserId,
        connection: u64,
        want_room: Option<RoomId>,
    ) -> World {
        self.left(user).attached(user, connection).moved(user, self.wanted(want_room))
    }

    /// The world without a room: whoever was in it is nowhere.
    pub open spec fn without_room(self, room: RoomId) -> World {
        match database::room_at(self.records.rooms, room) {
            Some(at) => World {
                records: Records {
                    rooms: self.records.rooms.remove(at as int),
                    ..self.records
                },
                sessions: rooms::emptied(self.sessions, room),
                ..self
            },
            None => self,
        }
    }
}

/// What the others in a room are told when a user leaves it.
pub open spec fn is_exit(world: World, user: UserId, notice: Notice) -> bool {
    world.place_of(user) matches Some(place) && {
        &&& notice.to@ == rooms::users_of(rooms::neighbours(world.sessions, place.room, user))
        &&& notice.event == (Event::UserExited {
            room: place.room,
            epoch: epoch_of(world.left(user).records.rooms, place.room),
            user,
        })
    }
}

/// What the others in a room are told when a user enters it.
pub open spec fn is_entry(world: World, user: UserId, room: RoomId, notice: Notice) -> bool {
    &&& notice.to@ == rooms::users_of(rooms::neighbours(world.sessions, room, user))
    &&& notice.event matches Event::UserEntered { room: entered, epoch, peer } && entered == room
        && epoch == epoch_of(world.entered(user, room).records.rooms, room) && rooms::is_peer(
        peer,
        user,
        world.records.next_media_id,
    )
}

/// Who is told what when a user moves: the old room of the exit, then the new room
/// of the entry.
pub open spec fn are_move_notices(
    world: World,
    user: UserId,
    target: Option<RoomId>,
    notices: Seq<Notice>,
) -> bool {
    let exits: int = if world.place_of(user) is Some {
        1
    } else {
        0
    };
    let entries: int = if target is Some {
        1
    } else {
        0
    };
    &&& notices.len() == exits + entries
    &&& exits == 1 ==> is_exit(world, user, notices[0])
    &&& entries == 1 ==> is_entry(world.left(user), user, target->0, notices[exits])
}

/// Who is told what when a user arrives: the room of a session that ends, of the
/// exit, then the room the user is put in, of the entry.
pub open spec fn are_arrival_notices(
    world: World,
    user: UserId,
    connection: u64,
    want_room: Option<RoomId>,
    notices: Seq<Notice>,
) -> bool {
    let between = world.left(user).attached(user, connection);
    let target = world.wanted(want_room);
    let exits: int = if world.place_of(user) is Some {
        1
    } else {
        0
    };
    let entries: int = if target is Some {
        1
    } else {
        0
    };
    &&& notices.len() == exits + entries
    &&& exits == 1 ==> is_exit(world, user, notices[0])
    &&& entries == 1 ==> is_entry(between, user, target->0, notices[exits])
}

/// Whether a placement says where a user is once `world` has come about: nowhere,
/// or in a room under its epoch, on tracks of their own, with everyone else there.
pub open spec fn is_placement(world: World, user: UserId, placed: Placed) -> bool {
    match world.place_of(user) {
        None => {
            &&& placed.room is None
            &&& placed.epoch == Epoch(0)
            &&& placed.tracks is None
            &&& placed.peers@.len() == 0
        },
        Some(place) => {
            let others = rooms::neighbours(world.sessions, place.room, user);
            &&& placed.room == Some(place.room)
            &&& placed.epoch == epoch_of(world.records.rooms, place.room)
            &&& placed.tracks matches Some(tracks) && rooms::is_tracks(tracks, place.media)
            &&& placed.peers@.len() == others.len()
            &&& forall|i: int|
                0 <= i < others.len() ==> rooms::is_peer(
                    #[trigger] placed.peers@[i],
                    others[i].user,
                    others[i].place->0.media,
                )
        },
    }
}

/// A user somewhere new.
pub struct Moved {
    pub placed: Placed,
    pub notices: Vec<Notice>,
}

/// A user just arrived.
pub struct Arrived {
    /// The connection of the session that this one replaces.
    pub displaced: Option<u64>,
    pub placed: Placed,
    pub notices: Vec<Notice>,
}

pub struct State {
    database: Database,
    redemption_limiter: RedemptionLimiter,
    registry: Registry,
}

impl View for State {
    type V = World;

    closed spec fn view(&self) -> World {
        World {
            records: self.database@,
            failures: self.redemption_limiter@,
            sessions: self.registry@,
        }
    }
}

impl State {
    pub closed spec fn wf(&self) -> bool {
        &&& self@.wf()
        &&& self.redemption_limiter.wf()
    }

    /// A state that is sound shows a world that is.
    pub proof fn shows_a_sound_world(&self)
        requires
            self.wf(),
        ensures
            self@.wf(),
    {
    }

    pub fn new(database: Database) -> (state: State)
        requires
            database@.wf(),
        ensures
            state.wf(),
            state@ == (World {
                records: database@,
                failures: Failures::none(),
                sessions: Seq::empty(),
            }),
    {
        State {
            database,
            redemption_limiter: RedemptionLimiter::default(),
            registry: Registry::default(),
        }
    }

    /// What is kept across restarts.
    pub fn database(&self) -> (database: &Database)
        ensures
            database@ == self@.records,
    {
        &self.database
    }

    /// Who is connected.
    pub fn registry(&self) -> (registry: &Registry)
        ensures
            registry@ == self@.sessions,
    {
        &self.registry
    }

    /// Whether a room has so many epochs left to move on to.
    fn has_epochs(&self, room: RoomId, count: u32) -> (has: bool)
        requires
            self@.has_room(room),
            count <= 2,
        ensures
            has == (epoch_of(self@.records.rooms, room).0 + count <= u32::MAX),
    {
        match self.database.room_epoch(room) {
            Some(epoch) => epoch.0 <= u32::MAX - count,
            None => false,
        }
    }

    /// Whether a user can leave the room they are in, if any.
    pub fn can_leave(&self, user: UserId) -> (can: bool)
        requires
            self.wf(),
        ensures
            can == self@.can_leave(user),
    {
        proof {
            rooms::session_is_there(self@.sessions, user);
        }
        match self.registry.session(user) {
            Some(session) => match session.place {
                Some(place) => self.has_epochs(place.room, 1),
                None => true,
            },
            None => true,
        }
    }

    /// Whether a user can be out of their own room and in another, or the same.
    fn can_go(&self, user: UserId, room: RoomId) -> (can: bool)
        requires
            self.wf(),
            self@.has_room(room),
        ensures
            can == (self@.can_leave(user) && self@.left(user).can_enter(room)),
    {
        proof {
            rooms::session_is_there(self@.sessions, user);
            database::room_is_there(self@.records.rooms, room);
        }
        let place = match self.registry.session(user) {
            Some(session) => session.place,
            None => None,
        };
        let back = match place {
            Some(place) => place.room == room,
            None => false,
        };
        proof {
            if let Some(place) = place {
                bumping_tells(self@.records.rooms, place.room, room);
                bumping_tells(self@.records.rooms, place.room, place.room);
            }
        }
        self.can_leave(user) && self.database.has_media() && self.has_epochs(
            room,
            if back {
                2
            } else {
                1
            },
        )
    }

    /// Whether a user can move.
    pub fn can_move(&self, user: UserId, target: Option<RoomId>) -> (can: bool)
        requires
            self.wf(),
        ensures
            can == self@.can_move(user, target),
    {
        match target {
            Some(room) => !self.database.has_room(room) || self.can_go(user, room),
            None => self.can_leave(user),
        }
    }

    /// Whether a user can arrive.
    pub fn can_arrive(&self, user: UserId, want_room: Option<RoomId>) -> (can: bool)
        requires
            self.wf(),
        ensures
            can == self@.can_arrive(user, want_room),
    {
        match want_room {
            Some(room) => {
                if self.database.has_room(room) {
                    self.can_go(user, room)
                } else {
                    self.can_leave(user)
                }
            },
            None => self.can_leave(user),
        }
    }

    /// Whether whoever holds a key can arrive.
    pub fn can_authenticate(
        &self,
        pubkey: &[u8; 32],
        invite_code: Option<&str>,
        want_room: Option<RoomId>,
        now: u64,
    ) -> (can: bool)
        requires
            self.wf(),
        ensures
            can == self@.can_authenticate(
                pubkey@,
                match invite_code {
                    Some(code) => Some(code@),
                    None => None,
                },
                want_room,
                now,
            ),
    {
        if let Some(user) = self.database.user_id(pubkey) {
            return self.can_arrive(user, want_room);
        }
        match invite_code {
            Some(code) => {
                if !self.database.redeems(code, now) {
                    return true;
                }
                !self.database.takes_users() || self.can_arrive(
                    self.database.next_user_id(),
                    want_room,
                )
            },
            None => true,
        }
    }

    /// Whether an address may try an invite code.
    pub fn permits(&self, address: PeerAddress) -> (permitted: bool)
        requires
            self.wf(),
        ensures
            permitted == self@.failures.permits(address),
    {
        self.redemption_limiter.permits(address)
    }

    /// Remembers that an address tried a code in vain.
    pub fn record_failure(&mut self, address: PeerAddress)
        requires
            old(self).wf(),
            old(self)@.failures.total < SERVER_WIDE_FAILURE_BUDGET,
        ensures
            final(self).wf(),
            final(self)@ == (World {
                failures: old(self)@.failures.recorded(address),
                ..old(self)@
            }),
    {
        self.redemption_limiter.record_failure(address);
    }

    /// Matches a key against the allowlist, or redeems the invite presented with it.
    pub fn admission(&mut self, pubkey: &[u8; 32], invite_code: Option<&str>, now: u64) -> (admission:
        Result<Admission, NoId>)
        requires
            old(self).wf(),
        ensures
            final(self).wf(),
            final(self)@ == (World { records: final(self)@.records, ..old(self)@ }),
            database::is_admission(
                old(self)@.records,
                final(self)@.records,
                pubkey@,
                match invite_code {
                    Some(code) => Some(code@),
                    None => None,
                },
                now,
                admission,
            ),
    {
        self.database.admission(pubkey, invite_code, now)
    }

    /// Mints an invite under a fresh code.
    pub fn create_invite(&mut self, role: Role, ttl_secs: u32, now: u64) -> (minted: Option<Invite>)
        requires
            old(self).wf(),
            now + ttl_secs <= u64::MAX,
        ensures
            final(self).wf(),
            final(self)@ == (World { records: final(self)@.records, ..old(self)@ }),
            database::is_creation(
                old(self)@.records,
                final(self)@.records,
                role,
                (now + ttl_secs) as u64,
                database::code_of(minted),
            ),
            minted matches Some(minted) ==> minted.expires_at == now + ttl_secs,
    {
        self.database.create_invite(role, ttl_secs, now)
    }

    /// Invalidates every outstanding invite and mints one in their place.
    pub fn replace_invites(&mut self, role: Role, ttl_secs: u32, now: u64) -> (minted: Option<
        Invite,
    >)
        requires
            old(self).wf(),
            now + ttl_secs <= u64::MAX,
        ensures
            final(self).wf(),
            final(self)@ == (World { records: final(self)@.records, ..old(self)@ }),
            database::is_creation(
                (Records {
                    invites: database::redeemed(old(self)@.records.invites),
                    ..old(self)@.records
                }),
                final(self)@.records,
                role,
                (now + ttl_secs) as u64,
                database::code_of(minted),
            ),
            minted matches Some(minted) ==> minted.expires_at == now + ttl_secs,
    {
        self.database.replace_invites(role, ttl_secs, now)
    }

    /// One invite failure is forgotten, server-wide and per address, and spent
    /// invites are dropped. Says how many of those there were.
    pub fn maintain_invites(&mut self, now: u64) -> (pruned: usize)
        requires
            old(self).wf(),
        ensures
            final(self).wf(),
            final(self)@ == (World {
                records: Records {
                    invites: database::outstanding(old(self)@.records.invites, now),
                    ..old(self)@.records
                },
                failures: old(self)@.failures.decayed(),
                ..old(self)@
            }),
            pruned == old(self)@.records.invites.len() - final(self)@.records.invites.len(),
    {
        self.redemption_limiter.decay();
        self.database.prune_invites(now)
    }

    fn leave(&mut self, user: UserId) -> (exit: Option<Notice>)
        requires
            old(self).wf(),
            old(self)@.can_leave(user),
        ensures
            final(self).wf(),
            final(self)@ == old(self)@.left(user),
            match exit {
                Some(notice) => is_exit(old(self)@, user, notice),
                None => old(self)@.place_of(user) is None,
            },
            final(self)@.place_of(user) is None,
            forall|room: RoomId| #[trigger] final(self)@.has_room(room) == old(self)@.has_room(room),
    {
        proof {
            leaving_is_sound(self@, user);
        }
        let session = match self.registry.session(user) {
            Some(session) => session,
            None => return None,
        };
        let place = match session.place {
            Some(place) => place,
            None => return None,
        };
        let to = users_in(&self.registry, place.room, user);
        proof {
            rooms::session_is_there(self@.sessions, user);
            database::room_is_there(self@.records.rooms, place.room);
        }
        let epoch = self.database.bump_epoch(place.room);
        self.registry.place(user, None);
        proof {
            bumping_tells(old(self)@.records.rooms, place.room, place.room);
        }
        Some(Notice { to, event: Event::UserExited { room: place.room, epoch, user } })
    }

    fn enter(&mut self, user: UserId, room: RoomId) -> (entry: Notice)
        requires
            old(self).wf(),
            old(self)@.is_connected(user),
            old(self)@.place_of(user) is None,
            old(self)@.has_room(room),
            old(self)@.can_enter(room),
        ensures
            final(self).wf(),
            final(self)@ == old(self)@.entered(user, room),
            is_entry(old(self)@, user, room, entry),
    {
        proof {
            entering_is_sound(self@, user, room);
            database::room_is_there(self@.records.rooms, room);
            bumping_tells(self@.records.rooms, room, room);
        }
        let to = users_in(&self.registry, room, user);
        let epoch = self.database.bump_epoch(room);
        let media: u32 = self.database.allocate_media();
        self.registry.place(user, Some(Place { room, media }));
        Notice {
            to,
            event: Event::UserEntered { room, epoch, peer: rooms::peer_from(user, media) },
        }
    }

    /// Where a user is.
    fn placement(&self, user: UserId) -> (placed: Placed)
        requires
            self.wf(),
        ensures
            is_placement(self@, user, placed),
    {
        proof {
            rooms::session_is_there(self@.sessions, user);
        }
        let place = match self.registry.session(user) {
            Some(session) => session.place,
            None => None,
        };
        match place {
            None => Placed { room: None, epoch: Epoch(0), tracks: None, peers: Vec::new() },
            Some(place) => {
                let others = self.registry.neighbours(place.room, user);
                let mut peers: Vec<PeerState> = Vec::new();
                let mut i: usize = 0;
                while i < others.len()
                    invariant
                        i <= others@.len(),
                        self.wf(),
                        others@ == rooms::neighbours(self@.sessions, place.room, user),
                        peers@.len() == i,
                        forall|j: int|
                            0 <= j < i ==> rooms::is_peer(
                                #[trigger] peers@[j],
                                others@[j].user,
                                others@[j].place->0.media,
                            ),
                    decreases others@.len() - i,
                {
                    let other = others[i];
                    proof {
                        rooms::neighbours_share_the_room(self@.sessions, place.room, user, other);
                        assert(others@.contains(others@[i as int]));
                        let k = choose|k: int|
                            0 <= k < self@.sessions.len() && self@.sessions[k] == other;
                        assert(self@.sessions[k].place is Some);
                    }
                    if let Some(there) = other.place {
                        peers.push(rooms::peer_from(other.user, there.media));
                    }
                    i += 1;
                }
                let epoch = match self.database.room_epoch(place.room) {
                    Some(epoch) => epoch,
                    None => Epoch(0),
                };
                Placed {
                    room: Some(place.room),
                    epoch,
                    tracks: Some(rooms::tracks_from(place.media)),
                    peers,
                }
            },
        }
    }

    /// Moves a user: out of the room they are in, if any, and into another, or none.
    /// `None` where there is no such room, which leaves everyone where they were.
    pub fn set_room(&mut self, user: UserId, target: Option<RoomId>) -> (moved: Option<Moved>)
        requires
            old(self).wf(),
            old(self)@.can_move(user, target),
            old(self)@.is_connected(user),
        ensures
            final(self).wf(),
            match moved {
                Some(moved) => {
                    &&& target is None || old(self)@.has_room(target->0)
                    &&& final(self)@ == old(self)@.moved(user, target)
                    &&& is_placement(final(self)@, user, moved.placed)
                    &&& are_move_notices(old(self)@, user, target, moved.notices@)
                },
                None => {
                    &&& target matches Some(room) && !old(self)@.has_room(room)
                    &&& final(self)@ == old(self)@
                },
            },
    {
        if let Some(room) = target {
            if !self.database.has_room(room) {
                return None;
            }
        }
        proof {
            leaving_is_sound(self@, user);
        }
        let mut notices: Vec<Notice> = Vec::new();
        if let Some(exit) = self.leave(user) {
            notices.push(exit);
        }
        if let Some(room) = target {
            assert(self@.has_room(room));
            notices.push(self.enter(user, room));
        }
        let placed = self.placement(user);
        Some(Moved { placed, notices })
    }

    /// Lets an authenticated user in on a connection, into the room asked for while
    /// there is such a room. The newest session of a key wins: one the user still had
    /// ends, and its connection is to be closed.
    pub fn arrive(&mut self, user: UserId, connection: u64, want_room: Option<RoomId>) -> (arrived:
        Arrived)
        requires
            old(self).wf(),
            old(self)@.can_arrive(user, want_room),
        ensures
            final(self).wf(),
            final(self)@ == old(self)@.arrived(user, connection, want_room),
            arrived.displaced == (match rooms::session_at(old(self)@.sessions, user) {
                Some(at) => Some(old(self)@.sessions[at as int].connection),
                None => None,
            }),
            is_placement(final(self)@, user, arrived.placed),
            are_arrival_notices(old(self)@, user, connection, want_room, arrived.notices@),
    {
        proof {
            leaving_is_sound(self@, user);
        }
        let mut notices: Vec<Notice> = Vec::new();
        if let Some(exit) = self.leave(user) {
            notices.push(exit);
        }
        proof {
            attaching_is_sound(self@, user, connection);
        }
        let ghost gone = self@;
        let displaced = self.registry.attach(user, connection);
        proof {
            rooms::session_is_there(old(self)@.sessions, user);
            rooms::session_is_there(gone.sessions, user);
            placing_keeps_positions(old(self)@.sessions, user, None, user);
            assert(self@ == gone.attached(user, connection));
        }
        if let Some(room) = want_room {
            if self.database.has_room(room) {
                assert(gone.has_room(room) == old(self)@.has_room(room));
                notices.push(self.enter(user, room));
            } else {
                assert(gone.has_room(room) == old(self)@.has_room(room));
            }
        }
        let placed = self.placement(user);
        Arrived { displaced, placed, notices }
    }

    /// Ends a user's session with its connection, unless a newer one has replaced it.
    pub fn depart(&mut self, user: UserId, connection: u64) -> (exit: Option<Notice>)
        requires
            old(self).wf(),
            (rooms::session_at(old(self)@.sessions, user) matches Some(at) && old(
                self,
            )@.sessions[at as int].connection == connection) ==> old(self)@.can_leave(user),
        ensures
            final(self).wf(),
            ({
                let current = match rooms::session_at(old(self)@.sessions, user) {
                    Some(at) => old(self)@.sessions[at as int].connection == connection,
                    None => false,
                };
                if current {
                    &&& final(self)@ == old(self)@.left(user).detached(user)
                    &&& match exit {
                        Some(notice) => is_exit(old(self)@, user, notice),
                        None => old(self)@.place_of(user) is None,
                    }
                } else {
                    final(self)@ == old(self)@ && exit is None
                }
            }),
    {
        match self.registry.session(user) {
            Some(session) => {
                if session.connection != connection {
                    return None;
                }
            },
            None => return None,
        }
        let exit = self.leave(user);
        proof {
            detaching_is_sound(self@, user);
        }
        self.registry.detach(user);
        exit
    }

    /// Ends the session of a client that stopped reading its events, and names the
    /// connection to close.
    pub fn back_up(&mut self, user: UserId) -> (closed: (Option<u64>, Option<Notice>))
        requires
            old(self).wf(),
            old(self)@.can_leave(user),
        ensures
            final(self).wf(),
            final(self)@ == old(self)@.left(user).detached(user),
            closed.0 == (match rooms::session_at(old(self)@.sessions, user) {
                Some(at) => Some(old(self)@.sessions[at as int].connection),
                None => None,
            }),
            match closed.1 {
                Some(notice) => is_exit(old(self)@, user, notice),
                None => old(self)@.place_of(user) is None,
            },
    {
        let ghost before = self@;
        let exit = self.leave(user);
        proof {
            rooms::session_is_there(before.sessions, user);
            placing_keeps_positions(before.sessions, user, None, user);
            detaching_is_sound(self@, user);
        }
        let connection = self.registry.close_backed_up(user);
        (connection, exit)
    }

    /// Deletes a room, whose occupants are then nowhere. `None` where there is no such
    /// room.
    pub fn delete_room(&mut self, room: RoomId) -> (deleted: Option<Notice>)
        requires
            old(self).wf(),
        ensures
            final(self).wf(),
            match deleted {
                Some(notice) => {
                    &&& old(self)@.has_room(room)
                    &&& final(self)@ == old(self)@.without_room(room)
                    &&& notice.event == Event::RoomDeleted(room)
                    &&& notice.to@ == rooms::users_of(old(self)@.sessions)
                },
                None => !old(self)@.has_room(room) && final(self)@ == old(self)@,
            },
    {
        proof {
            emptying_is_sound(self@, room);
        }
        if !self.database.delete_room(room) {
            return None;
        }
        self.registry.empty(room);
        let notice = self.registry.broadcast(Event::RoomDeleted(room));
        assert(notice.to@ =~= rooms::users_of(old(self)@.sessions));
        Some(notice)
    }

    /// Creates a room and tells everyone.
    pub fn create_room(&mut self, name: String) -> (notice: Notice)
        requires
            old(self).wf(),
            old(self)@.records.takes_rooms(),
        ensures
            final(self).wf(),
            ({
                let room = Room {
                    id: database::next_room_id(old(self)@.records.rooms),
                    name,
                    epoch: Epoch(0),
                };
                &&& final(self)@ == (World {
                    records: Records {
                        rooms: old(self)@.records.rooms.push(room),
                        ..old(self)@.records
                    },
                    ..old(self)@
                })
                &&& notice.event == Event::RoomCreated(room)
                &&& notice.to@ == rooms::users_of(old(self)@.sessions)
            }),
    {
        let room = self.database.create_room(name);
        proof {
            creating_is_sound(old(self)@, room);
        }
        self.registry.broadcast(Event::RoomCreated(room))
    }

    /// Renames a room and tells everyone. `None` where there is no such room.
    pub fn rename_room(&mut self, room: RoomId, name: String) -> (renamed: Option<Notice>)
        requires
            old(self).wf(),
        ensures
            final(self).wf(),
            match (renamed, database::room_at(old(self)@.records.rooms, room)) {
                (Some(notice), Some(at)) => {
                    &&& final(self)@ == (World {
                        records: Records {
                            rooms: old(self)@.records.rooms.update(
                                at as int,
                                (Room { name, ..old(self)@.records.rooms[at as int] }),
                            ),
                            ..old(self)@.records
                        },
                        ..old(self)@
                    })
                    &&& notice.event == (Event::RoomRenamed { room, name })
                    &&& notice.to@ == rooms::users_of(old(self)@.sessions)
                },
                (None, None) => final(self)@ == old(self)@,
                _ => false,
            },
    {
        proof {
            renaming_is_sound(self@, room, name);
        }
        let shown = name.clone();
        if !self.database.rename_room(room, name) {
            return None;
        }
        Some(self.registry.broadcast(Event::RoomRenamed { room, name: shown }))
    }
}

/// The users in a room other than one.
fn users_in(registry: &Registry, room: RoomId, user: UserId) -> (users: Vec<UserId>)
    ensures
        users@ == rooms::users_of(rooms::neighbours(registry@, room, user)),
{
    let others = registry.neighbours(room, user);
    let mut users: Vec<UserId> = Vec::new();
    let mut i: usize = 0;
    while i < others.len()
        invariant
            i <= others@.len(),
            users@ == rooms::users_of(others@.take(i as int)),
        decreases others@.len() - i,
    {
        users.push(others[i].user);
        i += 1;
        assert(users@ =~= rooms::users_of(others@.take(i as int)));
    }
    assert(others@.take(i as int) =~= others@);
    users
}

/// Moving a room on to its next epoch moves no room, and no other epoch.
pub proof fn bumping_tells(all: Seq<Room>, id: RoomId, other: RoomId)
    ensures
        database::room_at(database::bumped(all, id), other) == database::room_at(all, other),
        database::room_at(all, other) is Some && other != id ==> epoch_of(
            database::bumped(all, id),
            other,
        ) == epoch_of(all, other),
        database::room_at(all, id) is Some ==> database::bumped(
            all,
            id,
        )[database::room_at(all, id)->0 as int].epoch == Epoch(
            (epoch_of(all, id).0 + 1) as u32,
        ),
{
    database::room_is_there(all, id);
    database::room_is_there(all, other);
    let after = database::bumped(all, id);
    assert(database::room_ids(after) =~= database::room_ids(all));
}

proof fn placing_keeps_positions(
    sessions: Seq<Session>,
    user: UserId,
    place: Option<Place>,
    other: UserId,
)
    ensures
        rooms::session_at(rooms::placed_at(sessions, user, place), other) == rooms::session_at(
            sessions,
            other,
        ),
{
    rooms::session_is_there(sessions, user);
    let after = rooms::placed_at(sessions, user, place);
    assert(rooms::users_of(after) =~= rooms::users_of(sessions));
}

proof fn leaving_is_sound(world: World, user: UserId)
    requires
        world.wf(),
    ensures
        places_are_sound(world.left(user).records, world.left(user).sessions),
        world.left(user).place_of(user) is None,
        forall|room: RoomId| #[trigger] world.left(user).has_room(room) == world.has_room(room),
        world.is_connected(user) ==> world.left(user).is_connected(user),
{
    let after = world.left(user);
    rooms::session_is_there(world.sessions, user);
    placing_keeps_positions(world.sessions, user, None, user);
    if let Some(place) = world.place_of(user) {
        assert forall|room: RoomId| #[trigger] after.has_room(room) == world.has_room(room) by {
            bumping_tells(world.records.rooms, place.room, room);
        }
        assert forall|i: int| 0 <= i < after.sessions.len() implies ((
        #[trigger] after.sessions[i]).place matches Some(there) ==> database::room_at(
            after.records.rooms,
            there.room,
        ) is Some && there.media + MEDIA_IDS_PER_PLACEMENT <= after.records.next_media_id) by {
            assert(world.sessions[i].user == after.sessions[i].user);
            if let Some(there) = after.sessions[i].place {
                assert(world.has_room(there.room));
                assert(after.has_room(there.room));
            }
        }
        assert forall|i: int, j: int|
            0 <= i < after.sessions.len() && 0 <= j < after.sessions.len() && i
                != j implies are_apart(
            #[trigger] after.sessions[i],
            #[trigger] after.sessions[j],
        ) by {
            assert(are_apart(world.sessions[i], world.sessions[j]));
        }
    }
}

proof fn entering_is_sound(world: World, user: UserId, room: RoomId)
    requires
        world.wf(),
        world.has_room(room),
        world.is_connected(user),
        world.records.has_media(),
    ensures
        places_are_sound(world.entered(user, room).records, world.entered(user, room).sessions),
        world.entered(user, room).place_of(user) == Some(
            Place { room, media: world.records.next_media_id },
        ),
        forall|other: RoomId| #[trigger]
            world.entered(user, room).has_room(other) == world.has_room(other),
{
    let after = world.entered(user, room);
    let place = Place { room, media: world.records.next_media_id };
    rooms::session_is_there(world.sessions, user);
    placing_keeps_positions(world.sessions, user, Some(place), user);
    assert forall|other: RoomId| #[trigger] after.has_room(other) == world.has_room(other) by {
        bumping_tells(world.records.rooms, room, other);
    }
    let at = rooms::session_at(world.sessions, user)->0 as int;
    assert forall|i: int| 0 <= i < after.sessions.len() implies ((
    #[trigger] after.sessions[i]).place matches Some(there) ==> database::room_at(
        after.records.rooms,
        there.room,
    ) is Some && there.media + MEDIA_IDS_PER_PLACEMENT <= after.records.next_media_id) by {
        if let Some(there) = after.sessions[i].place {
            if i != at {
                assert(world.sessions[i] == after.sessions[i]);
                assert(world.has_room(there.room));
            }
            assert(after.has_room(there.room));
        }
    }
    assert forall|i: int, j: int|
        0 <= i < after.sessions.len() && 0 <= j < after.sessions.len() && i != j implies are_apart(
        #[trigger] after.sessions[i],
        #[trigger] after.sessions[j],
    ) by {
        assert(are_apart(world.sessions[i], world.sessions[j]));
        if i != at {
            assert(world.sessions[i] == after.sessions[i]);
        }
        if j != at {
            assert(world.sessions[j] == after.sessions[j]);
        }
    }
}

proof fn attaching_is_sound(world: World, user: UserId, connection: u64)
    requires
        world.wf(),
    ensures
        places_are_sound(
            world.attached(user, connection).records,
            world.attached(user, connection).sessions,
        ),
        world.attached(user, connection).is_connected(user),
        world.attached(user, connection).place_of(user) is None,
{
    let after = world.attached(user, connection);
    let session = Session { user, connection, place: None };
    rooms::session_is_there(world.sessions, user);
    if rooms::session_at(world.sessions, user) is Some {
        assert(rooms::users_of(after.sessions) =~= rooms::users_of(world.sessions));
    } else {
        assert(rooms::users_of(after.sessions) =~= rooms::users_of(world.sessions).push(user));
        keyed::one_more_key(rooms::users_of(world.sessions), user, user);
    }
    assert forall|i: int, j: int|
        0 <= i < after.sessions.len() && 0 <= j < after.sessions.len() && i != j implies are_apart(
        #[trigger] after.sessions[i],
        #[trigger] after.sessions[j],
    ) by {
        if after.sessions[i] != session && after.sessions[j] != session {
            assert(are_apart(world.sessions[i], world.sessions[j]));
        }
    }
    assert forall|i: int| 0 <= i < after.sessions.len() implies ((
    #[trigger] after.sessions[i]).place matches Some(there) ==> database::room_at(
        after.records.rooms,
        there.room,
    ) is Some && there.media + MEDIA_IDS_PER_PLACEMENT <= after.records.next_media_id) by {
        if after.sessions[i] != session {
            assert(world.sessions[i] == after.sessions[i]);
        }
    }
}

proof fn detaching_is_sound(world: World, user: UserId)
    requires
        world.wf(),
    ensures
        places_are_sound(world.detached(user).records, world.detached(user).sessions),
{
    rooms::session_is_there(world.sessions, user);
    if let Some(at) = rooms::session_at(world.sessions, user) {
        let after = world.detached(user);
        let at = at as int;
        assert forall|i: int| 0 <= i < after.sessions.len() implies ((
        #[trigger] after.sessions[i]).place matches Some(there) ==> database::room_at(
            after.records.rooms,
            there.room,
        ) is Some && there.media + MEDIA_IDS_PER_PLACEMENT <= after.records.next_media_id) by {
            assert(after.sessions[i] == world.sessions[if i < at { i } else { i + 1 }]);
        }
        assert forall|i: int, j: int|
            0 <= i < after.sessions.len() && 0 <= j < after.sessions.len() && i
                != j implies are_apart(
            #[trigger] after.sessions[i],
            #[trigger] after.sessions[j],
        ) by {
            let (k, l) = (if i < at { i } else { i + 1 }, if j < at { j } else { j + 1 });
            assert(are_apart(world.sessions[k], world.sessions[l]));
        }
    }
}

proof fn emptying_is_sound(world: World, room: RoomId)
    requires
        world.wf(),
    ensures
        places_are_sound(world.without_room(room).records, world.without_room(room).sessions),
{
    database::room_is_there(world.records.rooms, room);
    if let Some(at) = database::room_at(world.records.rooms, room) {
        let after = world.without_room(room);
        let at = at as int;
        assert forall|i: int| 0 <= i < after.sessions.len() implies ((
        #[trigger] after.sessions[i]).place matches Some(there) ==> database::room_at(
            after.records.rooms,
            there.room,
        ) is Some && there.media + MEDIA_IDS_PER_PLACEMENT <= after.records.next_media_id) by {
            assert(world.sessions[i].place is Some || after.sessions[i].place is None);
            if let Some(there) = after.sessions[i].place {
                assert(world.sessions[i] == after.sessions[i]);
                database::room_is_there(world.records.rooms, there.room);
                database::room_is_there(after.records.rooms, there.room);
                let k = database::room_at(world.records.rooms, there.room)->0 as int;
                assert(k != at);
                assert(after.records.rooms[if k < at { k } else { k - 1 }]
                    == world.records.rooms[k]);
            }
        }
        assert forall|i: int, j: int|
            0 <= i < after.sessions.len() && 0 <= j < after.sessions.len() && i
                != j implies are_apart(
            #[trigger] after.sessions[i],
            #[trigger] after.sessions[j],
        ) by {
            assert(are_apart(world.sessions[i], world.sessions[j]));
        }
    }
}

proof fn creating_is_sound(world: World, room: Room)
    requires
        world.wf(),
    ensures
        places_are_sound(
            Records { rooms: world.records.rooms.push(room), ..world.records },
            world.sessions,
        ),
{
    let before = database::room_ids(world.records.rooms);
    let after = world.records.rooms.push(room);
    assert(database::room_ids(after) =~= before.push(room.id));
    assert forall|id: RoomId| database::room_at(world.records.rooms, id) is Some implies
        #[trigger] database::room_at(after, id) is Some by {
        keyed::one_more_key(before, room.id, id);
    }
}

proof fn renaming_is_sound(world: World, room: RoomId, name: String)
    requires
        world.wf(),
    ensures
        database::room_at(world.records.rooms, room) matches Some(at) ==> places_are_sound(
            Records {
                rooms: world.records.rooms.update(
                    at as int,
                    (Room { name, ..world.records.rooms[at as int] }),
                ),
                ..world.records
            },
            world.sessions,
        ),
{
    database::room_is_there(world.records.rooms, room);
    if let Some(at) = database::room_at(world.records.rooms, room) {
        let after = world.records.rooms.update(
            at as int,
            (Room { name, ..world.records.rooms[at as int] }),
        );
        assert(database::room_ids(after) =~= database::room_ids(world.records.rooms));
    }
}

/// A move disturbs nobody else: every other session is where it was, and as many
/// are connected as before.
pub proof fn a_move_disturbs_nobody_else(
    world: World,
    user: UserId,
    target: Option<RoomId>,
    i: int,
)
    requires
        world.wf(),
        world.is_connected(user),
        0 <= i < world.sessions.len(),
    ensures
        world.moved(user, target).sessions.len() == world.sessions.len(),
        world.moved(user, target).sessions[i].user == world.sessions[i].user,
        world.sessions[i].user != user ==> world.moved(user, target).sessions[i]
            == world.sessions[i],
{
    rooms::session_is_there(world.sessions, user);
    placing_keeps_positions(world.sessions, user, None, user);
    rooms::session_is_there(world.left(user).sessions, user);
}

/// A user who moves is then in the room asked for, or nowhere where none was.
pub proof fn a_move_ends_where_it_was_meant_to(
    world: World,
    user: UserId,
    target: Option<RoomId>,
)
    requires
        world.wf(),
        world.can_move(user, target),
        world.is_connected(user),
        target matches Some(room) ==> world.has_room(room),
    ensures
        match (world.moved(user, target).place_of(user), target) {
            (Some(place), Some(room)) => place.room == room,
            (None, None) => true,
            _ => false,
        },
{
    moves_are_sound(world, user, target);
}

/// Moving keeps the world sound.
proof fn moves_are_sound(world: World, user: UserId, target: Option<RoomId>)
    requires
        world.wf(),
        world.can_move(user, target),
        world.is_connected(user),
        target matches Some(room) ==> world.has_room(room),
    ensures
        world.left(user).wf(),
        world.left(user).is_connected(user),
        world.left(user).place_of(user) is None,
        target matches Some(room) ==> world.left(user).entered(user, room).place_of(user) == Some(
            Place { room, media: world.records.next_media_id },
        ) && world.left(user).has_room(room),
{
    leaving_stays_sound(world, user);
    let gone = world.left(user);
    if let Some(room) = target {
        assert(gone.has_room(room));
        entering_is_sound(gone, user, room);
    }
}

/// Entering a room always raises its epoch, even for one who was already there,
/// and no room's epoch ever goes down.
pub proof fn every_entry_raises_the_epoch(
    world: World,
    user: UserId,
    room: RoomId,
    other: RoomId,
)
    requires
        world.wf(),
        world.can_move(user, Some(room)),
        world.is_connected(user),
        world.has_room(room),
        world.has_room(other),
    ensures
        epoch_of(world.moved(user, Some(room)).records.rooms, room).0 > epoch_of(
            world.records.rooms,
            room,
        ).0,
        epoch_of(world.moved(user, Some(room)).records.rooms, other).0 >= epoch_of(
            world.records.rooms,
            other,
        ).0,
        epoch_of(world.moved(user, None).records.rooms, other).0 >= epoch_of(
            world.records.rooms,
            other,
        ).0,
{
    let gone = world.left(user);
    moves_are_sound(world, user, Some(room));
    database::room_is_there(world.records.rooms, room);
    database::room_is_there(world.records.rooms, other);
    if let Some(place) = world.place_of(user) {
        rooms::session_is_there(world.sessions, user);
        database::room_is_there(world.records.rooms, place.room);
        bumping_tells(world.records.rooms, place.room, room);
        bumping_tells(world.records.rooms, place.room, other);
        bumping_tells(world.records.rooms, place.room, place.room);
    }
    database::room_is_there(gone.records.rooms, room);
    database::room_is_there(gone.records.rooms, other);
    bumping_tells(gone.records.rooms, room, room);
    bumping_tells(gone.records.rooms, room, other);
}

/// A media id is never reused. Those of a new placement, of a move as of an arrival,
/// start where the counter stood, past every one that was handed out before, and the
/// counter moves past them.
pub proof fn a_media_id_is_never_reused(
    world: World,
    user: UserId,
    connection: u64,
    room: RoomId,
    i: int,
)
    requires
        world.wf(),
        world.has_room(room),
        0 <= i < world.sessions.len(),
    ensures
        world.sessions[i].place matches Some(place) ==> place.media + MEDIA_IDS_PER_PLACEMENT
            <= world.records.next_media_id,
        world.is_connected(user) && world.can_move(user, Some(room)) ==> {
            let after = world.moved(user, Some(room));
            after.place_of(user) matches Some(place) && place.media == world.records.next_media_id
                && place.media + MEDIA_IDS_PER_PLACEMENT == after.records.next_media_id
        },
        world.can_arrive(user, Some(room)) ==> {
            let after = world.arrived(user, connection, Some(room));
            after.place_of(user) matches Some(place) && place.media == world.records.next_media_id
                && place.media + MEDIA_IDS_PER_PLACEMENT == after.records.next_media_id
        },
{
    if world.is_connected(user) && world.can_move(user, Some(room)) {
        moves_are_sound(world, user, Some(room));
    }
    if world.can_arrive(user, Some(room)) {
        arrivals_are_sound(world, user, connection, Some(room));
    }
}

/// Whatever happens, the counter of media ids never goes back.
pub proof fn the_media_counter_never_goes_back(
    world: World,
    user: UserId,
    connection: u64,
    target: Option<RoomId>,
    room: RoomId,
)
    requires
        world.wf(),
    ensures
        target is None || world.has_room(target->0) ==> world.can_move(user, target)
            ==> world.moved(user, target).records.next_media_id >= world.records.next_media_id,
        world.can_arrive(user, target) ==> world.arrived(
            user,
            connection,
            target,
        ).records.next_media_id >= world.records.next_media_id,
        world.left(user).records.next_media_id == world.records.next_media_id,
        world.detached(user).records.next_media_id == world.records.next_media_id,
        world.left(user).detached(user).records.next_media_id == world.records.next_media_id,
        world.without_room(room).records.next_media_id == world.records.next_media_id,
{
    if world.can_arrive(user, target) {
        arrivals_are_sound(world, user, connection, target);
    }
}

/// Arriving keeps the world sound, at each step.
proof fn arrivals_are_sound(
    world: World,
    user: UserId,
    connection: u64,
    want_room: Option<RoomId>,
)
    requires
        world.wf(),
        world.can_arrive(user, want_room),
    ensures
        ({
            let between = world.left(user).attached(user, connection);
            &&& between.wf()
            &&& between.is_connected(user)
            &&& between.place_of(user) is None
            &&& between.left(user) == between
            &&& between.records == world.left(user).records
            &&& world.arrived(user, connection, want_room) == between.moved(
                user,
                world.wanted(want_room),
            )
            &&& world.wanted(want_room) matches Some(room) ==> {
                &&& between.has_room(room)
                &&& between.can_enter(room)
                &&& between.entered(user, room).place_of(user) == Some(
                    Place { room, media: world.records.next_media_id },
                )
            }
        }),
{
    leaving_stays_sound(world, user);
    let gone = world.left(user);
    attaching_is_sound(gone, user, connection);
    let between = gone.attached(user, connection);
    rooms::session_is_there(gone.sessions, user);
    assert(rooms::distinct_users(between.sessions)) by {
        assert forall|i: int, j: int| 0 <= i < j < between.sessions.len() implies
            between.sessions[i].user != between.sessions[j].user by {
            if i < gone.sessions.len() {
                assert(between.sessions[i].user == gone.sessions[i].user);
            }
            if j < gone.sessions.len() {
                assert(between.sessions[j].user == gone.sessions[j].user);
            }
        }
    }
    if let Some(room) = world.wanted(want_room) {
        assert(gone.has_room(room) == world.has_room(room));
        entering_is_sound(between, user, room);
    }
}

/// Leaving keeps the world sound.
proof fn leaving_stays_sound(world: World, user: UserId)
    requires
        world.wf(),
    ensures
        world.left(user).wf(),
        world.left(user).place_of(user) is None,
        forall|room: RoomId| #[trigger] world.left(user).has_room(room) == world.has_room(room),
        world.is_connected(user) ==> world.left(user).is_connected(user),
{
    leaving_is_sound(world, user);
    let gone = world.left(user);
    rooms::session_is_there(world.sessions, user);
    if let Some(place) = world.place_of(user) {
        database::room_is_there(world.records.rooms, place.room);
        assert forall|i: int, j: int| 0 <= i < j < gone.records.rooms.len() implies
            gone.records.rooms[i].id.0 < gone.records.rooms[j].id.0 by {
            assert(gone.records.rooms[i].id == world.records.rooms[i].id);
            assert(gone.records.rooms[j].id == world.records.rooms[j].id);
        }
        assert forall|i: int, j: int| 0 <= i < j < gone.sessions.len() implies
            gone.sessions[i].user != gone.sessions[j].user by {
            assert(gone.sessions[i].user == world.sessions[i].user);
            assert(gone.sessions[j].user == world.sessions[j].user);
        }
    }
}

/// No two connected clients own the same media id.
pub proof fn nobody_shares_a_media_id(
    world: World,
    i: int,
    j: int,
    one: crate::proto::msg::Tracks,
    other: crate::proto::msg::Tracks,
    id: MediaId,
)
    requires
        world.wf(),
        0 <= i < world.sessions.len(),
        0 <= j < world.sessions.len(),
        i != j,
        world.sessions[i].place matches Some(place) && rooms::is_tracks(one, place.media),
        world.sessions[j].place matches Some(place) && rooms::is_tracks(other, place.media),
        one.has(id),
    ensures
        !other.has(id),
{
    let (here, there) = (world.sessions[i].place->0, world.sessions[j].place->0);
    assert(are_apart(world.sessions[i], world.sessions[j]));
    rooms::tracks_are_three_in_a_row(one, here.media, id);
    rooms::tracks_are_three_in_a_row(other, there.media, id);
}

/// Whether a user is among those a watcher in a room shares it with.
pub open spec fn sees(world: World, watcher: UserId, room: RoomId, user: UserId) -> bool {
    rooms::users_of(rooms::neighbours(world.sessions, room, watcher)).contains(user)
}

proof fn seeing_is_being_there(world: World, watcher: UserId, room: RoomId, user: UserId)
    requires
        rooms::distinct_users(world.sessions),
    ensures
        sees(world, watcher, room, user) == (user != watcher && (world.place_of(user) matches Some(
            place,
        ) && place.room == room)),
{
    let others = rooms::neighbours(world.sessions, room, watcher);
    let users = rooms::users_of(others);
    rooms::session_is_there(world.sessions, user);
    if users.contains(user) {
        let i = choose|i: int| 0 <= i < users.len() && users[i] == user;
        assert(others.contains(others[i]));
        rooms::neighbours_share_the_room(world.sessions, room, watcher, others[i]);
        let k = choose|k: int| 0 <= k < world.sessions.len() && world.sessions[k] == others[i];
        let at = rooms::session_at(world.sessions, user)->0 as int;
        assert(world.sessions[k].user == world.sessions[at].user);
        assert(k == at);
    }
    if user != watcher && world.place_of(user) is Some && world.place_of(user)->0.room == room {
        let at = rooms::session_at(world.sessions, user)->0 as int;
        let session = world.sessions[at];
        rooms::neighbours_share_the_room(world.sessions, room, watcher, session);
        assert(world.sessions.contains(session));
        let i = choose|i: int| 0 <= i < others.len() && others[i] == session;
        assert(users[i] == user);
    }
}

/// Whether a watcher is told that somebody left, which is told first.
pub open spec fn is_told_of_exit(notices: Seq<Notice>, watcher: UserId) -> bool {
    &&& notices.len() > 0
    &&& notices[0].event is UserExited
    &&& notices[0].to@.contains(watcher)
}

/// Whether a watcher is told that somebody came in, which is told last.
pub open spec fn is_told_of_entry(notices: Seq<Notice>, watcher: UserId) -> bool {
    &&& notices.len() > 0
    &&& notices.last().event is UserEntered
    &&& notices.last().to@.contains(watcher)
}

/// A watcher who keeps a roster by what it is told stays right: it is told of an
/// exit exactly when a mover it shared a room with leaves, and of an entry exactly
/// when one comes in. Whom it sees changes by the mover alone, and by just that.
pub proof fn a_watcher_sees_every_transition(
    world: World,
    mover: UserId,
    target: Option<RoomId>,
    watcher: UserId,
    room: RoomId,
    other: UserId,
    notices: Seq<Notice>,
)
    requires
        world.wf(),
        world.can_move(mover, target),
        world.is_connected(mover),
        target matches Some(room) ==> world.has_room(room),
        watcher != mover,
        other != mover,
        world.place_of(watcher) matches Some(place) && place.room == room,
        are_move_notices(world, mover, target, notices),
    ensures
        ({
            let after = world.moved(mover, target);
            &&& is_told_of_exit(notices, watcher) == sees(world, watcher, room, mover)
            &&& is_told_of_entry(notices, watcher) == sees(after, watcher, room, mover)
            &&& sees(after, watcher, room, other) == sees(world, watcher, room, other)
        }),
{
    let gone = world.left(mover);
    let after = world.moved(mover, target);
    moves_are_sound(world, mover, target);
    a_move_ends_where_it_was_meant_to(world, mover, target);
    if let Some(there) = target {
        entering_is_sound(gone, mover, there);
    }
    moving_keeps_users_distinct(world, mover, target);
    staying_put(world, mover, target, watcher);
    staying_put(world, mover, target, other);
    seeing_is_being_there(world, watcher, room, mover);
    seeing_is_being_there(after, watcher, room, mover);
    seeing_is_being_there(world, watcher, room, other);
    seeing_is_being_there(after, watcher, room, other);
    if let Some(place) = world.place_of(mover) {
        seeing_is_being_there(world, mover, place.room, watcher);
    }
    if let Some(there) = target {
        seeing_is_being_there(gone, mover, there, watcher);
        staying_put(world, mover, None, watcher);
    }
}

proof fn staying_put(world: World, mover: UserId, target: Option<RoomId>, other: UserId)
    requires
        world.wf(),
        world.is_connected(mover),
        other != mover,
    ensures
        world.moved(mover, target).place_of(other) == world.place_of(other),
{
    rooms::session_is_there(world.sessions, other);
    rooms::session_is_there(world.sessions, mover);
    placing_keeps_positions(world.sessions, mover, None, mover);
    placing_keeps_positions(world.sessions, mover, None, other);
    let gone = world.left(mover);
    rooms::session_is_there(gone.sessions, mover);
    if let Some(room) = target {
        let place = Place { room, media: gone.records.next_media_id };
        placing_keeps_positions(gone.sessions, mover, Some(place), other);
    }
}

/// A user's session says where the user is.
pub proof fn a_session_says_where_its_user_is(world: World, i: int)
    requires
        rooms::distinct_users(world.sessions),
        0 <= i < world.sessions.len(),
    ensures
        rooms::session_at(world.sessions, world.sessions[i].user) == Some(i as nat),
        world.place_of(world.sessions[i].user) == world.sessions[i].place,
{
    let user = world.sessions[i].user;
    rooms::session_is_there(world.sessions, user);
    let at = rooms::session_at(world.sessions, user)->0 as int;
    if at < i {
        assert(world.sessions[at].user != world.sessions[i].user);
    } else if i < at {
        assert(world.sessions[i].user != world.sessions[at].user);
    }
}

/// Attaching one user's session leaves every other user where they were.
proof fn attaching_moves_nobody_else(world: World, user: UserId, connection: u64, other: UserId)
    requires
        rooms::distinct_users(world.sessions),
        rooms::distinct_users(world.attached(user, connection).sessions),
        other != user,
    ensures
        world.attached(user, connection).place_of(other) == world.place_of(other),
{
    let after = world.attached(user, connection);
    rooms::session_is_there(world.sessions, other);
    rooms::session_is_there(world.sessions, user);
    rooms::session_is_there(after.sessions, other);
    if let Some(at) = rooms::session_at(world.sessions, other) {
        assert(after.sessions[at as int] == world.sessions[at as int]);
        a_session_says_where_its_user_is(after, at as int);
    } else if let Some(at) = rooms::session_at(after.sessions, other) {
        assert(after.sessions[at as int] == world.sessions[at as int]);
    }
}

/// Detaching one user's session leaves every other user where they were, and that
/// user nowhere.
proof fn detaching_moves_nobody_else(world: World, user: UserId, other: UserId)
    requires
        rooms::distinct_users(world.sessions),
    ensures
        rooms::distinct_users(world.detached(user).sessions),
        world.detached(user).place_of(user) is None,
        other != user ==> world.detached(user).place_of(other) == world.place_of(other),
{
    let after = world.detached(user);
    rooms::session_is_there(world.sessions, user);
    rooms::session_is_there(world.sessions, other);
    if let Some(at) = rooms::session_at(world.sessions, user) {
        let at = at as int;
        assert forall|i: int| 0 <= i < after.sessions.len() implies #[trigger] after.sessions[i]
            == world.sessions[if i < at { i } else { i + 1 }] by {}
        assert forall|i: int, j: int| 0 <= i < j < after.sessions.len() implies
            after.sessions[i].user != after.sessions[j].user by {
            let (k, l) = (if i < at { i } else { i + 1 }, if j < at { j } else { j + 1 });
            assert(world.sessions[k].user != world.sessions[l].user);
        }
        rooms::session_is_there(after.sessions, user);
        if let Some(j) = rooms::session_at(after.sessions, user) {
            let k = if j < at { j as int } else { j as int + 1 };
            a_session_says_where_its_user_is(world, k);
        }
        rooms::session_is_there(after.sessions, other);
        if other != user {
            if let Some(k) = rooms::session_at(world.sessions, other) {
                let k = k as int;
                let j = if k < at { k } else { k - 1 };
                assert(after.sessions[j] == world.sessions[k]);
                a_session_says_where_its_user_is(after, j);
            } else if let Some(j) = rooms::session_at(after.sessions, other) {
                let k = if j < at { j as int } else { j as int + 1 };
                assert(world.sessions[k].user == other);
            }
        }
    }
}

/// A watcher's roster stays right through an arrival: it is told of an exit exactly
/// when the user had a session in its room that ends, and of an entry exactly when
/// the user is put in its room. Whom it sees changes by that user alone.
pub proof fn a_watcher_sees_every_arrival(
    world: World,
    user: UserId,
    connection: u64,
    want_room: Option<RoomId>,
    watcher: UserId,
    room: RoomId,
    other: UserId,
    notices: Seq<Notice>,
)
    requires
        world.wf(),
        world.can_arrive(user, want_room),
        watcher != user,
        other != user,
        world.place_of(watcher) matches Some(place) && place.room == room,
        are_arrival_notices(world, user, connection, want_room, notices),
    ensures
        ({
            let after = world.arrived(user, connection, want_room);
            &&& is_told_of_exit(notices, watcher) == sees(world, watcher, room, user)
            &&& is_told_of_entry(notices, watcher) == sees(after, watcher, room, user)
            &&& sees(after, watcher, room, other) == sees(world, watcher, room, other)
        }),
{
    let gone = world.left(user);
    let between = gone.attached(user, connection);
    let target = world.wanted(want_room);
    let after = world.arrived(user, connection, want_room);
    leaving_stays_sound(world, user);
    arrivals_are_sound(world, user, connection, want_room);
    assert(after == between.moved(user, target));
    leaving_moves_nobody_else(world, user, watcher);
    leaving_moves_nobody_else(world, user, other);
    attaching_moves_nobody_else(gone, user, connection, watcher);
    attaching_moves_nobody_else(gone, user, connection, other);
    staying_put(between, user, target, watcher);
    staying_put(between, user, target, other);
    moving_keeps_users_distinct(between, user, target);
    seeing_is_being_there(world, watcher, room, user);
    seeing_is_being_there(after, watcher, room, user);
    seeing_is_being_there(world, watcher, room, other);
    seeing_is_being_there(after, watcher, room, other);
    if let Some(place) = world.place_of(user) {
        seeing_is_being_there(world, user, place.room, watcher);
    }
    if let Some(there) = target {
        seeing_is_being_there(between, user, there, watcher);
    }
}

/// Leaving moves nobody else.
proof fn leaving_moves_nobody_else(world: World, user: UserId, other: UserId)
    requires
        rooms::distinct_users(world.sessions),
        other != user,
    ensures
        world.left(user).place_of(other) == world.place_of(other),
{
    rooms::session_is_there(world.sessions, other);
    rooms::session_is_there(world.sessions, user);
    placing_keeps_positions(world.sessions, user, None, other);
}

proof fn moving_keeps_users_distinct(world: World, user: UserId, target: Option<RoomId>)
    requires
        world.wf(),
        world.is_connected(user),
    ensures
        rooms::distinct_users(world.moved(user, target).sessions),
{
    let after = world.moved(user, target);
    rooms::session_is_there(world.sessions, user);
    a_move_disturbs_nobody_else(
        world,
        user,
        target,
        rooms::session_at(world.sessions, user)->0 as int,
    );
    assert forall|i: int, j: int| 0 <= i < j < after.sessions.len() implies after.sessions[i].user
        != after.sessions[j].user by {
        a_move_disturbs_nobody_else(world, user, target, i);
        a_move_disturbs_nobody_else(world, user, target, j);
    }
}

/// A watcher's roster stays right through a departure, whether the user left or was
/// backed up: it is told of an exit exactly when it shared a room with the user, and
/// sees everyone else as before.
pub proof fn a_watcher_sees_every_departure(
    world: World,
    user: UserId,
    watcher: UserId,
    room: RoomId,
    other: UserId,
    exit: Option<Notice>,
)
    requires
        world.wf(),
        watcher != user,
        other != user,
        world.place_of(watcher) matches Some(place) && place.room == room,
        match exit {
            Some(notice) => is_exit(world, user, notice),
            None => world.place_of(user) is None,
        },
    ensures
        ({
            let after = world.left(user).detached(user);
            &&& (exit matches Some(notice) && notice.to@.contains(watcher)) == sees(
                world,
                watcher,
                room,
                user,
            )
            &&& !sees(after, watcher, room, user)
            &&& sees(after, watcher, room, other) == sees(world, watcher, room, other)
        }),
{
    let gone = world.left(user);
    let after = gone.detached(user);
    leaving_stays_sound(world, user);
    leaving_moves_nobody_else(world, user, watcher);
    leaving_moves_nobody_else(world, user, other);
    detaching_moves_nobody_else(gone, user, watcher);
    detaching_moves_nobody_else(gone, user, other);
    seeing_is_being_there(world, watcher, room, user);
    seeing_is_being_there(after, watcher, room, user);
    seeing_is_being_there(world, watcher, room, other);
    seeing_is_being_there(after, watcher, room, other);
    if let Some(place) = world.place_of(user) {
        seeing_is_being_there(world, user, place.room, watcher);
    }
}

/// A watcher's roster stays right when a room is deleted: everyone connected is told.
/// A watcher who was in the room is then nowhere and shares it with nobody, and one
/// who was in another room sees whom it saw.
pub proof fn a_watcher_sees_every_deletion(
    world: World,
    deleted: RoomId,
    watcher: UserId,
    room: RoomId,
    other: UserId,
    notice: Notice,
)
    requires
        world.wf(),
        world.has_room(deleted),
        world.place_of(watcher) matches Some(place) && place.room == room,
        notice.to@ == rooms::users_of(world.sessions),
    ensures
        ({
            let after = world.without_room(deleted);
            &&& notice.to@.contains(watcher)
            &&& room == deleted ==> after.place_of(watcher) is None && !sees(
                after,
                watcher,
                room,
                other,
            )
            &&& room != deleted ==> after.place_of(watcher) == world.place_of(watcher) && sees(
                after,
                watcher,
                room,
                other,
            ) == sees(world, watcher, room, other)
        }),
{
    let after = world.without_room(deleted);
    assert(rooms::users_of(after.sessions) =~= rooms::users_of(world.sessions));
    assert forall|i: int, j: int| 0 <= i < j < after.sessions.len() implies after.sessions[i].user
        != after.sessions[j].user by {
        assert(after.sessions[i].user == world.sessions[i].user);
        assert(after.sessions[j].user == world.sessions[j].user);
    }
    rooms::session_is_there(world.sessions, watcher);
    rooms::session_is_there(world.sessions, other);
    let at = rooms::session_at(world.sessions, watcher)->0 as int;
    assert(notice.to@[at] == watcher);
    seeing_is_being_there(world, watcher, room, other);
    seeing_is_being_there(after, watcher, room, other);
}

/// Deleting a room moves everyone in it to nowhere, and nobody else anywhere.
pub proof fn deleting_empties_only_that_room(world: World, room: RoomId, i: int)
    requires
        world.wf(),
        world.has_room(room),
        0 <= i < world.sessions.len(),
    ensures
        ({
            let after = world.without_room(room);
            &&& !after.has_room(room)
            &&& after.sessions[i].user == world.sessions[i].user
            &&& if world.sessions[i].is_in(room) {
                after.sessions[i].place is None
            } else {
                after.sessions[i] == world.sessions[i]
            }
        }),
{
    let after = world.without_room(room);
    database::room_is_there(world.records.rooms, room);
    database::room_is_there(after.records.rooms, room);
    let at = database::room_at(world.records.rooms, room)->0 as int;
    if let Some(k) = database::room_at(after.records.rooms, room) {
        let k = k as int;
        assert(after.records.rooms[k] == world.records.rooms[if k < at { k } else { k + 1 }]);
    }
}

/// A room is found under its id, and under no other.
proof fn a_room_stands_where_it_is(all: Seq<Room>, r: int, id: RoomId)
    requires
        database::rooms_in_order(all),
        0 <= r < all.len(),
    ensures
        database::room_at(all, all[r].id) == Some(r as nat),
        (database::room_at(all, id) == Some(r as nat)) == (all[r].id == id),
{
    database::room_is_there(all, id);
    database::room_is_there(all, all[r].id);
    let at = database::room_at(all, all[r].id)->0 as int;
    if at < r {
        assert(all[at].id.0 < all[r].id.0);
    } else if r < at {
        assert(all[r].id.0 < all[at].id.0);
    }
}

proof fn leaving_by_position(world: World, user: UserId, i: int, r: int)
    requires
        world.wf(),
        world.can_leave(user),
        0 <= i < world.sessions.len(),
        world.sessions[i].user == user,
        0 <= r < world.records.rooms.len(),
    ensures
        ({
            let (was, is) = (world.records.rooms[r], world.left(user).records.rooms[r]);
            &&& world.left(user).wf()
            &&& world.left(user).records.rooms.len() == world.records.rooms.len()
            &&& is.id == was.id
            &&& is.name == was.name
            &&& is.epoch.0 == was.epoch.0 + if world.sessions[i].place matches Some(place)
                && place.room == was.id {
                1int
            } else {
                0int
            }
            &&& world.left(user).sessions.len() == world.sessions.len()
            &&& world.left(user).sessions[i] == (Session { place: None, ..world.sessions[i] })
        }),
{
    leaving_stays_sound(world, user);
    a_session_says_where_its_user_is(world, i);
    if let Some(place) = world.place_of(user) {
        a_room_stands_where_it_is(world.records.rooms, r, place.room);
        database::room_is_there(world.records.rooms, place.room);
    }
}

/// A move changes what it must and nothing else. The room left and the room entered each
/// move on by one epoch, so that one left and entered again moves on by two. No other
/// room changes, and none its id or name. The mover keeps their connection and is in the
/// room asked for, on the next three media ids, or nowhere. Nobody is enrolled or
/// forgotten, no invite is touched and no failed attempt counted.
pub proof fn a_move_changes_only_what_it_must(
    world: World,
    user: UserId,
    target: Option<RoomId>,
    i: int,
    r: int,
)
    requires
        world.wf(),
        world.can_move(user, target),
        target matches Some(room) ==> world.has_room(room),
        0 <= i < world.sessions.len(),
        world.sessions[i].user == user,
        0 <= r < world.records.rooms.len(),
    ensures
        ({
            let after = world.moved(user, target);
            let (was, is) = (world.records.rooms[r], after.records.rooms[r]);
            let left: int = if world.sessions[i].place matches Some(place) && place.room
                == was.id {
                1
            } else {
                0
            };
            let entered: int = if target == Some(was.id) {
                1
            } else {
                0
            };
            &&& after.records.rooms.len() == world.records.rooms.len()
            &&& is.id == was.id
            &&& is.name == was.name
            &&& is.epoch.0 == was.epoch.0 + left + entered
            &&& after.sessions[i].user == user
            &&& after.sessions[i].connection == world.sessions[i].connection
            &&& match target {
                Some(room) => {
                    &&& after.sessions[i].place == Some(
                        Place { room, media: world.records.next_media_id },
                    )
                    &&& after.records.next_media_id == world.records.next_media_id + 3
                },
                None => {
                    &&& after.sessions[i].place is None
                    &&& after.records.next_media_id == world.records.next_media_id
                },
            }
            &&& after.records.users == world.records.users
            &&& after.records.invites == world.records.invites
            &&& after.failures == world.failures
        }),
{
    a_session_says_where_its_user_is(world, i);
    leaving_by_position(world, user, i, r);
    let gone = world.left(user);
    a_session_says_where_its_user_is(gone, i);
    if let Some(room) = target {
        database::room_is_there(gone.records.rooms, room);
        a_room_stands_where_it_is(gone.records.rooms, r, room);
        leaving_stays_sound(world, user);
        assert(gone.has_room(room));
    }
}

/// An arrival takes over. The user then has one session, on the new connection, in the
/// room asked for where there is one and otherwise nowhere. Every other session stays as
/// it was. A room that a session of theirs was in moves on by one epoch, and so does the
/// one they are put in. Nobody is enrolled or forgotten, no invite is touched and no
/// failed attempt counted.
pub proof fn an_arrival_takes_over(
    world: World,
    user: UserId,
    connection: u64,
    want_room: Option<RoomId>,
    i: int,
    r: int,
) -> (at: int)
    requires
        world.wf(),
        world.can_arrive(user, want_room),
        0 <= r < world.records.rooms.len(),
    ensures
        ({
            let after = world.arrived(user, connection, want_room);
            let (was, is) = (world.records.rooms[r], after.records.rooms[r]);
            let entered: int = if want_room == Some(was.id) {
                1
            } else {
                0
            };
            let known = exists|k: int|
                0 <= k < world.records.rooms.len() && Some(
                    (#[trigger] world.records.rooms[k]).id,
                ) == want_room;
            &&& 0 <= at < after.sessions.len()
            &&& after.sessions[at] == (Session {
                user,
                connection,
                place: if known {
                    Some(Place { room: want_room->0, media: world.records.next_media_id })
                } else {
                    None
                },
            })
            &&& after.records.next_media_id == world.records.next_media_id + if known {
                3int
            } else {
                0int
            }
            &&& after.records.rooms.len() == world.records.rooms.len()
            &&& is.id == was.id
            &&& is.name == was.name
            &&& world.sessions.len() <= at ==> at == world.sessions.len() && after.sessions.len()
                == at + 1 && is.epoch.0 == was.epoch.0 + entered
            &&& at < world.sessions.len() ==> {
                let left: int = if world.sessions[at].place matches Some(place) && place.room
                    == was.id {
                    1
                } else {
                    0
                };
                &&& world.sessions[at].user == user
                &&& after.sessions.len() == world.sessions.len()
                &&& is.epoch.0 == was.epoch.0 + left + entered
            }
            &&& 0 <= i < world.sessions.len() && world.sessions[i].user != user ==> i != at
                && after.sessions[i] == world.sessions[i]
            &&& after.records.users == world.records.users
            &&& after.records.invites == world.records.invites
            &&& after.failures == world.failures
        }),
{
    arrivals_are_sound(world, user, connection, want_room);
    leaving_stays_sound(world, user);
    let gone = world.left(user);
    let between = gone.attached(user, connection);
    rooms::session_is_there(world.sessions, user);
    rooms::session_is_there(gone.sessions, user);
    let at = match rooms::session_at(world.sessions, user) {
        Some(at) => {
            leaving_by_position(world, user, at as int, r);
            a_session_says_where_its_user_is(gone, at as int);
            at as int
        },
        None => world.sessions.len() as int,
    };
    assert(between.sessions[at] == Session { user, connection, place: None });
    a_session_says_where_its_user_is(between, at);
    if let Some(room) = want_room {
        database::room_is_there(world.records.rooms, room);
        database::room_is_there(between.records.rooms, room);
        a_room_stands_where_it_is(between.records.rooms, r, room);
        if world.has_room(room) {
            let k = database::room_at(world.records.rooms, room)->0 as int;
            assert(Some(world.records.rooms[k].id) == want_room);
        }
    }
    at
}

/// A departure ends one session and no other, and moves the room that was left, if any,
/// on by one epoch. Whoever departs is still enrolled.
pub proof fn a_departure_ends_one_session(world: World, user: UserId, i: int, k: int, r: int)
    requires
        world.wf(),
        world.can_leave(user),
        0 <= i < world.sessions.len(),
        world.sessions[i].user == user,
        0 <= k < world.sessions.len(),
        0 <= r < world.records.rooms.len(),
    ensures
        ({
            let after = world.left(user).detached(user);
            let (was, is) = (world.records.rooms[r], after.records.rooms[r]);
            &&& after.sessions.len() == world.sessions.len() - 1
            &&& k < i ==> after.sessions[k] == world.sessions[k]
            &&& i < k ==> after.sessions[k - 1] == world.sessions[k]
            &&& after.records.rooms.len() == world.records.rooms.len()
            &&& is.id == was.id
            &&& is.name == was.name
            &&& is.epoch.0 == was.epoch.0 + if world.sessions[i].place matches Some(place)
                && place.room == was.id {
                1int
            } else {
                0int
            }
            &&& after.records.users == world.records.users
            &&& after.records.invites == world.records.invites
            &&& after.records.next_media_id == world.records.next_media_id
            &&& after.failures == world.failures
        }),
{
    leaving_by_position(world, user, i, r);
    a_session_says_where_its_user_is(world, i);
    a_session_says_where_its_user_is(world.left(user), i);
}

/// Deleting a room takes that room and no other, and no session: whoever was in it is
/// still connected.
pub proof fn a_deletion_takes_one_room(world: World, at: int, k: int, i: int)
    requires
        world.wf(),
        0 <= at < world.records.rooms.len(),
        0 <= k < world.records.rooms.len(),
        0 <= i < world.sessions.len(),
    ensures
        ({
            let room = world.records.rooms[at].id;
            let after = world.without_room(room);
            &&& after.records.rooms.len() == world.records.rooms.len() - 1
            &&& k < at ==> after.records.rooms[k] == world.records.rooms[k]
            &&& at < k ==> after.records.rooms[k - 1] == world.records.rooms[k]
            &&& after.sessions.len() == world.sessions.len()
            &&& after.sessions[i].user == world.sessions[i].user
            &&& after.sessions[i].connection == world.sessions[i].connection
            &&& after.sessions[i].place == if world.sessions[i].place matches Some(place)
                && place.room == room {
                None
            } else {
                world.sessions[i].place
            }
            &&& after.records.users == world.records.users
            &&& after.records.invites == world.records.invites
            &&& after.records.next_media_id == world.records.next_media_id
            &&& after.failures == world.failures
        }),
{
    a_room_stands_where_it_is(world.records.rooms, at, world.records.rooms[at].id);
}

/// As long as every room has two epochs left and three media ids are left, nobody is
/// kept from moving, arriving or leaving.
pub proof fn there_is_room_to_move(
    world: World,
    user: UserId,
    target: Option<RoomId>,
)
    requires
        world.wf(),
        forall|r: int|
            0 <= r < world.records.rooms.len() ==> (#[trigger] world.records.rooms[r]).epoch.0
                <= 0xffff_fffd,
        world.records.next_media_id <= 0xffff_fffc,
    ensures
        world.can_leave(user),
        world.can_move(user, target),
        world.can_arrive(user, target),
{
    leaving_stays_sound(world, user);
    let gone = world.left(user);
    rooms::session_is_there(world.sessions, user);
    if let Some(place) = world.place_of(user) {
        database::room_is_there(world.records.rooms, place.room);
    }
    if let Some(room) = target {
        if world.has_room(room) {
            assert(gone.has_room(room));
            database::room_is_there(world.records.rooms, room);
            database::room_is_there(gone.records.rooms, room);
            if let Some(place) = world.place_of(user) {
                bumping_tells(world.records.rooms, place.room, room);
            }
        }
    }
}

/// A placement tells a user all there is to tell: where they are, under the epoch that
/// room has now, on which tracks, and everyone else there, each on their own tracks, in
/// the order of the sessions. One who is nowhere is told just that. The sessions that the
/// peers stand for are returned.
pub proof fn a_placement_names_everyone_there(
    world: World,
    user: UserId,
    placed: Placed,
    i: int,
    r: int,
) -> (picks: Seq<int>)
    requires
        world.wf(),
        is_placement(world, user, placed),
        0 <= i < world.sessions.len(),
        world.sessions[i].user == user,
        0 <= r < world.records.rooms.len(),
    ensures
        match world.sessions[i].place {
            None => {
                &&& placed.room is None
                &&& placed.epoch.0 == 0
                &&& placed.tracks is None
                &&& placed.peers@.len() == 0
            },
            Some(place) => {
                &&& placed.room == Some(place.room)
                &&& world.records.rooms[r].id == place.room ==> placed.epoch
                    == world.records.rooms[r].epoch
                &&& placed.tracks is Some
                &&& placed.tracks->0.mic.0 == place.media
                &&& placed.tracks->0.shares@.len() == 1
                &&& placed.tracks->0.shares@[0].video.0 == place.media + 1
                &&& placed.tracks->0.shares@[0].audio == Some(MediaId((place.media + 2) as u32))
                &&& placed.peers@.len() == picks.len()
                &&& forall|k: int| #[trigger]
                    picks.contains(k) <==> 0 <= k < world.sessions.len() && k != i && (
                    world.sessions[k].place matches Some(there) && there.room == place.room)
                &&& forall|p: int, q: int| 0 <= p < q < picks.len() ==> picks[p] < picks[q]
                &&& forall|p: int|
                    #![trigger picks[p]]
                    0 <= p < picks.len() ==> placed.peers@[p].user
                        == world.sessions[picks[p]].user && placed.peers@[p].tracks.mic.0
                        == world.sessions[picks[p]].place->0.media
            },
        },
{
    a_session_says_where_its_user_is(world, i);
    match world.sessions[i].place {
        None => Seq::empty(),
        Some(place) => {
            a_room_stands_where_it_is(world.records.rooms, r, place.room);
            let picks = rooms::neighbours_are_picked_in_order(world.sessions, place.room, user);
            assert forall|k: int| #[trigger]
                picks.contains(k) <==> 0 <= k < world.sessions.len() && k != i && (
                world.sessions[k].place matches Some(there) && there.room == place.room) by {
                if 0 <= k < i {
                    assert(world.sessions[k].user != world.sessions[i].user);
                } else if i < k < world.sessions.len() {
                    assert(world.sessions[i].user != world.sessions[k].user);
                }
            }
            assert forall|p: int|
                #![trigger picks[p]]
                0 <= p < picks.len() implies placed.peers@[p].user
                == world.sessions[picks[p]].user && placed.peers@[p].tracks.mic.0
                == world.sessions[picks[p]].place->0.media by {
                let others = rooms::neighbours(world.sessions, place.room, user);
                assert(others[p] == world.sessions[picks[p]]);
                assert(rooms::is_peer(placed.peers@[p], others[p].user, others[p].place->0.media));
            }
            picks
        },
    }
}

/// Those left behind are told who went, out of which room, and the epoch that room has
/// moved on to: the next one.
pub proof fn an_exit_is_told_as_it_was(world: World, user: UserId, notice: Notice, i: int, r: int)
    requires
        world.wf(),
        world.can_leave(user),
        is_exit(world, user, notice),
        0 <= i < world.sessions.len(),
        world.sessions[i].user == user,
        0 <= r < world.records.rooms.len(),
        world.sessions[i].place matches Some(place) && place.room == world.records.rooms[r].id,
    ensures
        notice.event matches Event::UserExited { room, epoch, user: gone } && room
            == world.records.rooms[r].id && epoch.0 == world.records.rooms[r].epoch.0 + 1 && gone
            == user,
{
    leaving_by_position(world, user, i, r);
    a_session_says_where_its_user_is(world, i);
    a_room_stands_where_it_is(
        world.left(user).records.rooms,
        r,
        world.records.rooms[r].id,
    );
}

/// Those in a room that somebody comes into are told who came, into which room, the epoch
/// it has moved on to, and the tracks to expect: the next three media ids, with nothing on
/// them yet.
pub proof fn an_entry_is_told_as_it_was(world: World, user: UserId, notice: Notice, r: int)
    requires
        world.wf(),
        0 <= r < world.records.rooms.len(),
        world.can_enter(world.records.rooms[r].id),
        is_entry(world, user, world.records.rooms[r].id, notice),
    ensures
        notice.event matches Event::UserEntered { room, epoch, peer } && room
            == world.records.rooms[r].id && epoch.0 == world.records.rooms[r].epoch.0 + 1
            && peer.user == user && peer.tracks.mic.0 == world.records.next_media_id
            && peer.tracks.shares@.len() == 1 && peer.tracks.shares@[0].video.0
            == world.records.next_media_id + 1 && peer.tracks.shares@[0].audio == Some(
            MediaId((world.records.next_media_id + 2) as u32),
        ) && !peer.mic && !peer.screen && !peer.share_audio,
{
    let room = world.records.rooms[r].id;
    a_room_stands_where_it_is(world.records.rooms, r, room);
    bumping_tells(world.records.rooms, room, room);
}

/// A move is told at most twice: of the exit first, where the mover was somewhere, and of
/// the entry last, where there is a room to move to. The first is told out of the world as
/// it was, the second into the one that the exit left.
pub proof fn a_move_is_told_in_order(
    world: World,
    user: UserId,
    target: Option<RoomId>,
    notices: Seq<Notice>,
    i: int,
)
    requires
        world.wf(),
        0 <= i < world.sessions.len(),
        world.sessions[i].user == user,
        are_move_notices(world, user, target, notices),
    ensures
        world.sessions[i].place is None && target is None ==> notices.len() == 0,
        world.sessions[i].place is None && target is Some ==> notices.len() == 1 && is_entry(
            world,
            user,
            target->0,
            notices[0],
        ),
        world.sessions[i].place is Some && target is None ==> notices.len() == 1 && is_exit(
            world,
            user,
            notices[0],
        ),
        world.sessions[i].place is Some && target is Some ==> notices.len() == 2 && is_exit(
            world,
            user,
            notices[0],
        ) && is_entry(world.left(user), user, target->0, notices[1]),
{
    a_session_says_where_its_user_is(world, i);
}

/// An arrival is told at most twice: of the exit first, where a session of the user was
/// somewhere, and of the entry last, where the room asked for is there.
pub proof fn an_arrival_is_told_in_order(
    world: World,
    user: UserId,
    connection: u64,
    room: RoomId,
    notices: Seq<Notice>,
    r: int,
)
    requires
        world.wf(),
        0 <= r < world.records.rooms.len(),
        world.records.rooms[r].id == room,
        are_arrival_notices(world, user, connection, Some(room), notices),
    ensures
        (forall|i: int|
            0 <= i < world.sessions.len() ==> (#[trigger] world.sessions[i]).user != user
                || world.sessions[i].place is None) ==> notices.len() == 1
            && notices[0].event is UserEntered,
        forall|i: int|
            #![trigger world.sessions[i]]
            0 <= i < world.sessions.len() && world.sessions[i].user == user
                && world.sessions[i].place is Some ==> notices.len() == 2
                && notices[0].event is UserExited && notices[1].event is UserEntered,
{
    a_room_stands_where_it_is(world.records.rooms, r, room);
    rooms::session_is_there(world.sessions, user);
    assert forall|i: int|
        #![trigger world.sessions[i]]
        0 <= i < world.sessions.len() && world.sessions[i].user == user
            && world.sessions[i].place is Some implies notices.len() == 2
        && notices[0].event is UserExited && notices[1].event is UserEntered by {
        a_session_says_where_its_user_is(world, i);
    }
}

/// As long as there is room to move, whoever is let in can arrive.
pub proof fn there_is_room_to_arrive(
    world: World,
    pubkey: Seq<u8>,
    code: Option<Seq<char>>,
    want_room: Option<RoomId>,
    now: u64,
)
    requires
        world.wf(),
        forall|r: int|
            0 <= r < world.records.rooms.len() ==> (#[trigger] world.records.rooms[r]).epoch.0
                <= 0xffff_fffd,
        world.records.next_media_id <= 0xffff_fffc,
    ensures
        world.can_authenticate(pubkey, code, want_room, now),
{
    there_is_room_to_move(world, database::next_user_id(world.records.users), want_room);
    if let Some(at) = database::user_at(world.records.users, pubkey) {
        there_is_room_to_move(world, world.records.users[at as int].user.id, want_room);
    }
}

} // verus!
