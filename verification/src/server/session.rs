//! One client's control stream, from the hello to the last request.

use vstd::prelude::*;

use crate::crypto;
use crate::proto::auth::{EXPORTER_BYTES, NONCE_BYTES};
use crate::proto::ids::{Epoch, RoomId, UserId};
use crate::proto::msg::{
    Auth, AuthResult, ErrCode, Event, InitialState, Req, ReqEnvelope, Resp, RespEnvelope,
    Role, Room, ServerHello, ServerMessage, PROTO_VERSION,
};
use crate::server::auth::{self, Decision};
use crate::server::database::{self, NoId, Records};
use crate::server::invite::{PeerAddress, DEFAULT_TTL};
use crate::server::permissions;
use crate::server::rooms::{self, Notice};
use crate::server::shown;
use crate::server::state::{self, State, World};
use crate::text;

verus! {

/// What a request is answered, and who else is told what.
pub struct Reply {
    pub resp: Resp,
    pub notices: Vec<Notice>,
}

/// Whether a response is a failure of one kind, in these words.
pub open spec fn is_failure(resp: Resp, code: ErrCode, message: Seq<char>) -> bool {
    resp matches Resp::Failed { code: failed, msg } && failed == code && msg@ == message
}

/// Whether a name is nothing but whitespace.
pub open spec fn is_blank(name: Seq<char>) -> bool {
    text::trimmed(name).len() == 0
}

/// How long a requested invite lives: zero asks for the default.
pub open spec fn ttl_of(ttl_secs: u32) -> u32 {
    if ttl_secs == 0 {
        DEFAULT_TTL
    } else {
        ttl_secs
    }
}

/// Whether everyone connected is told of an event, and of nothing else.
pub open spec fn tells_everyone(world: World, notices: Seq<Notice>, event: Event) -> bool {
    &&& notices.len() == 1
    &&& notices[0].event == event
    &&& notices[0].to@ == rooms::users_of(world.sessions)
}

/// What moving somewhere is answered.
pub open spec fn is_move_reply(
    before: World,
    after: World,
    target: Option<RoomId>,
    user: UserId,
    reply: Reply,
) -> bool {
    if target is None || before.has_room(target->0) {
        &&& after == before.moved(user, target)
        &&& reply.resp matches Resp::Placed(placed) && state::is_placement(after, user, placed)
        &&& state::are_move_notices(before, user, target, reply.notices@)
    } else {
        &&& after == before
        &&& is_failure(reply.resp, ErrCode::NotFound, "no such room"@)
        &&& reply.notices@.len() == 0
    }
}

/// What creating a room is answered.
pub open spec fn is_create_reply(
    before: World,
    after: World,
    name: String,
    role: Role,
    reply: Reply,
) -> bool {
    if role.ranked() < Role::Manager.ranked() {
        &&& after == before
        &&& permissions::is_denial(reply.resp, role, Role::Manager)
        &&& reply.notices@.len() == 0
    } else if is_blank(name@) {
        &&& after == before
        &&& is_failure(reply.resp, ErrCode::Invalid, "a room needs a name"@)
        &&& reply.notices@.len() == 0
    } else {
        let room = Room {
            id: database::next_room_id(before.records.rooms),
            name,
            epoch: Epoch(0),
        };
        &&& after == (World {
            records: Records { rooms: before.records.rooms.push(room), ..before.records },
            ..before
        })
        &&& reply.resp is Done
        &&& tells_everyone(before, reply.notices@, Event::RoomCreated(room))
    }
}

/// What renaming a room is answered.
pub open spec fn is_rename_reply(
    before: World,
    after: World,
    room: RoomId,
    name: String,
    role: Role,
    reply: Reply,
) -> bool {
    if role.ranked() < Role::Manager.ranked() {
        &&& after == before
        &&& permissions::is_denial(reply.resp, role, Role::Manager)
        &&& reply.notices@.len() == 0
    } else if is_blank(name@) {
        &&& after == before
        &&& is_failure(reply.resp, ErrCode::Invalid, "a room needs a name"@)
        &&& reply.notices@.len() == 0
    } else {
        match database::room_at(before.records.rooms, room) {
            None => {
                &&& after == before
                &&& is_failure(reply.resp, ErrCode::NotFound, "no such room"@)
                &&& reply.notices@.len() == 0
            },
            Some(at) => {
                &&& after == (World {
                    records: Records {
                        rooms: before.records.rooms.update(
                            at as int,
                            (Room { name, ..before.records.rooms[at as int] }),
                        ),
                        ..before.records
                    },
                    ..before
                })
                &&& reply.resp is Done
                &&& tells_everyone(before, reply.notices@, (Event::RoomRenamed { room, name }))
            },
        }
    }
}

/// What deleting a room is answered.
pub open spec fn is_delete_reply(
    before: World,
    after: World,
    room: RoomId,
    role: Role,
    reply: Reply,
) -> bool {
    if role.ranked() < Role::Manager.ranked() {
        &&& after == before
        &&& permissions::is_denial(reply.resp, role, Role::Manager)
        &&& reply.notices@.len() == 0
    } else if !before.has_room(room) {
        &&& after == before
        &&& is_failure(reply.resp, ErrCode::NotFound, "no such room"@)
        &&& reply.notices@.len() == 0
    } else {
        &&& after == before.without_room(room)
        &&& reply.resp is Done
        &&& tells_everyone(before, reply.notices@, Event::RoomDeleted(room))
    }
}

/// What asking for an invite is answered: a code, unless all that were drawn belong
/// to somebody already.
pub open spec fn is_invite_reply(
    before: World,
    after: World,
    invited: Role,
    ttl_secs: u32,
    role: Role,
    now: u64,
    reply: Reply,
) -> bool {
    &&& reply.notices@.len() == 0
    &&& if role.ranked() < Role::Admin.ranked() {
        after == before && permissions::is_denial(reply.resp, role, Role::Admin)
    } else {
        &&& after == (World { records: after.records, ..before })
        &&& database::is_creation(
            before.records,
            after.records,
            invited,
            (now + ttl_of(ttl_secs)) as u64,
            match reply.resp {
                Resp::InviteCode { code, .. } => Some(code@),
                _ => None,
            },
        )
        &&& match reply.resp {
            Resp::InviteCode { expires, .. } => expires == now + ttl_of(ttl_secs),
            _ => is_failure(
                reply.resp,
                ErrCode::Internal,
                "the server could not mint an invite"@,
            ),
        }
    }
}

/// Whether a reply is what a request is owed, and `after` is what it leaves of
/// `before`.
pub open spec fn is_reply(
    before: World,
    after: World,
    req: Req,
    user: UserId,
    role: Role,
    now: u64,
    reply: Reply,
) -> bool {
    match req {
        Req::SetRoom(target) => is_move_reply(before, after, target, user, reply),
        Req::CreateRoom { name } => is_create_reply(before, after, name, role, reply),
        Req::RenameRoom { room, name } => {
            is_rename_reply(before, after, room, name, role, reply)
        },
        Req::DeleteRoom(room) => is_delete_reply(before, after, room, role, reply),
        Req::CreateInvite { role: invited, ttl_secs } => is_invite_reply(
            before,
            after,
            invited,
            ttl_secs,
            role,
            now,
            reply,
        ),
        _ => {
            &&& after == before
            &&& reply.notices@.len() == 0
            &&& is_failure(
                reply.resp,
                ErrCode::Unimplemented,
                shown::shown(req) + " is not implemented"@,
            )
        },
    }
}

/// Whether what a request takes is left: ids and epochs, or seconds that a clock can
/// count.
pub open spec fn can_handle(
    world: World,
    req: Req,
    user: UserId,
    role: Role,
    now: u64,
) -> bool {
    match req {
        Req::SetRoom(target) => world.can_move(user, target),
        Req::CreateRoom { name } => role.ranked() >= Role::Manager.ranked() && !is_blank(name@)
            ==> world.records.takes_rooms(),
        Req::CreateInvite { ttl_secs, .. } => role.ranked() >= Role::Admin.ranked() ==> now
            + ttl_of(ttl_secs) <= u64::MAX,
        _ => true,
    }
}

fn failed(code: ErrCode, message: &str) -> (reply: Reply)
    ensures
        is_failure(reply.resp, code, message@),
        reply.notices@.len() == 0,
{
    Reply { resp: Resp::Failed { code, msg: message.to_string() }, notices: Vec::new() }
}

fn denied(resp: Resp) -> (reply: Reply)
    ensures
        reply.resp == resp,
        reply.notices@.len() == 0,
{
    Reply { resp, notices: Vec::new() }
}

fn told(notice: Notice) -> (reply: Reply)
    ensures
        reply.resp is Done,
        reply.notices@ == seq![notice],
{
    let mut notices: Vec<Notice> = Vec::new();
    notices.push(notice);
    assert(notices@ =~= seq![notice]);
    Reply { resp: Resp::Done, notices }
}

fn blank(name: &str) -> (blank: bool)
    ensures
        blank == is_blank(name@),
{
    name.trim().unicode_len() == 0
}

/// How long a requested invite lives.
fn lifetime(ttl_secs: u32) -> (ttl: u32)
    ensures
        ttl == ttl_of(ttl_secs),
{
    if ttl_secs == 0 {
        DEFAULT_TTL
    } else {
        ttl_secs
    }
}

/// Whether what a request takes is left.
fn is_possible(state: &State, req: &Req, user: UserId, role: Role, now: u64) -> (possible: bool)
    requires
        state.wf(),
    ensures
        possible == can_handle(state@, *req, user, role, now),
{
    match req {
        Req::SetRoom(target) => state.can_move(user, *target),
        Req::CreateRoom { name } => {
            permissions::require_role(role, Role::Manager).is_err() || blank(name.as_str())
                || state.database().takes_rooms()
        },
        Req::CreateInvite { ttl_secs, .. } => {
            permissions::require_role(role, Role::Admin).is_err() || now <= u64::MAX - lifetime(
                *ttl_secs,
            ) as u64
        },
        _ => true,
    }
}

/// Does what a client asks, as far as its role allows.
pub fn handle_request(state: &mut State, req: Req, user: UserId, role: Role, now: u64) -> (reply:
    Reply)
    requires
        old(state).wf(),
        can_handle(old(state)@, req, user, role, now),
        old(state)@.is_connected(user),
    ensures
        final(state).wf(),
        is_reply(old(state)@, final(state)@, req, user, role, now, reply),
{
    match req {
        Req::SetRoom(target) => match state.set_room(user, target) {
            Some(moved) => Reply { resp: Resp::Placed(moved.placed), notices: moved.notices },
            None => failed(ErrCode::NotFound, "no such room"),
        },
        Req::CreateRoom { name } => {
            if let Err(resp) = permissions::require_role(role, Role::Manager) {
                return denied(resp);
            }
            if blank(name.as_str()) {
                return failed(ErrCode::Invalid, "a room needs a name");
            }
            told(state.create_room(name))
        },
        Req::RenameRoom { room, name } => {
            if let Err(resp) = permissions::require_role(role, Role::Manager) {
                return denied(resp);
            }
            if blank(name.as_str()) {
                return failed(ErrCode::Invalid, "a room needs a name");
            }
            match state.rename_room(room, name) {
                Some(notice) => told(notice),
                None => failed(ErrCode::NotFound, "no such room"),
            }
        },
        Req::DeleteRoom(room) => {
            if let Err(resp) = permissions::require_role(role, Role::Manager) {
                return denied(resp);
            }
            match state.delete_room(room) {
                Some(notice) => told(notice),
                None => failed(ErrCode::NotFound, "no such room"),
            }
        },
        Req::CreateInvite { role: invited, ttl_secs } => {
            create_invite(state, invited, ttl_secs, role, now)
        },
        other => {
            let mut msg = shown::show(&other);
            msg.append(" is not implemented");
            Reply {
                resp: Resp::Failed { code: ErrCode::Unimplemented, msg },
                notices: Vec::new(),
            }
        },
    }
}

fn create_invite(state: &mut State, invited: Role, ttl_secs: u32, role: Role, now: u64) -> (reply:
    Reply)
    requires
        old(state).wf(),
        role.ranked() >= Role::Admin.ranked() ==> now + ttl_of(ttl_secs) <= u64::MAX,
    ensures
        final(state).wf(),
        is_invite_reply(old(state)@, final(state)@, invited, ttl_secs, role, now, reply),
{
    if let Err(resp) = permissions::require_role(role, Role::Admin) {
        return denied(resp);
    }
    match state.create_invite(invited, lifetime(ttl_secs), now) {
        Some(created) => Reply {
            resp: Resp::InviteCode { code: created.code, expires: created.expires_at },
            notices: Vec::new(),
        },
        None => failed(ErrCode::Internal, "the server could not mint an invite"),
    }
}

/// Who a control stream belongs to, once that is known.
#[derive(Debug, Clone, Copy, PartialEq, Eq, Structural)]
pub struct Actor {
    pub user: UserId,
    pub role: Role,
}

/// A control stream on the server's side: greeted, and later somebody's.
pub struct Control {
    server_nonce: [u8; NONCE_BYTES],
    connection: u64,
    actor: Option<Actor>,
}

/// What a client's attempt to authenticate comes to.
pub enum Authenticated {
    /// It closed the stream before it tried.
    ClosedEarly,
    /// It is told why not, and the connection is then closed.
    Turned(AuthResult),
    /// It would be let in, but there is no id to give it.
    Full(NoId),
    /// It is told where it stands. A connection it still had is to be closed, and
    /// the others are told.
    Welcomed { result: AuthResult, displaced: Option<u64>, notices: Vec<Notice> },
}

/// Whether a client is told all there is to know, and where it has been put.
pub open spec fn is_arrival(
    records: Records,
    after: World,
    actor: Actor,
    initial: InitialState,
) -> bool {
    &&& initial.me == actor.user
    &&& initial.role == actor.role
    &&& initial.users@ == database::roster(records.users)
    &&& initial.rooms@ == records.rooms
    &&& state::is_placement(after, actor.user, initial.placed)
}

/// Whether an attempt to authenticate comes to what is decided of it: nothing more
/// where it is refused, and otherwise a session in the room asked for, if any.
pub open spec fn is_outcome(
    decided: World,
    after: World,
    auth: Auth,
    connection: u64,
    decision: Result<Decision, NoId>,
    actor: Option<Actor>,
    outcome: Authenticated,
) -> bool {
    match decision {
        Err(error) => {
            &&& after == decided
            &&& actor is None
            &&& outcome == Authenticated::Full(error)
        },
        Ok(Decision::Refused(error)) => {
            &&& after == decided
            &&& actor is None
            &&& outcome == Authenticated::Turned(AuthResult::Refused(error))
        },
        Ok(Decision::Admitted { user, .. }) => {
            &&& after == decided.arrived(user.id, connection, auth.want_room)
            &&& actor == Some(Actor { user: user.id, role: user.role })
            &&& outcome matches Authenticated::Welcomed { result, displaced, notices } && (
            result matches AuthResult::Admitted(initial) && is_arrival(
                decided.records,
                after,
                actor->0,
                initial,
            )) && displaced == (match rooms::session_at(decided.sessions, user.id) {
                Some(at) => Some(decided.sessions[at as int].connection),
                None => None,
            }) && state::are_arrival_notices(
                decided,
                user.id,
                connection,
                auth.want_room,
                notices@,
            )
        },
    }
}

impl Control {
    pub closed spec fn nonce(&self) -> Seq<u8> {
        self.server_nonce@
    }

    /// The connection the stream runs on.
    pub closed spec fn connected(&self) -> u64 {
        self.connection
    }

    /// Who the stream belongs to.
    pub closed spec fn owner(&self) -> Option<Actor> {
        self.actor
    }

    /// Opens a stream with a given nonce.
    pub fn open(server_nonce: [u8; NONCE_BYTES], connection: u64) -> (opened: (Control, ServerHello))
        ensures
            opened.0.nonce() == server_nonce@,
            opened.0.connected() == connection,
            opened.0.owner() is None,
            opened.1.server_nonce@ == server_nonce@,
            opened.1.proto == PROTO_VERSION,
    {
        let hello = ServerHello { server_nonce, proto: PROTO_VERSION };
        (Control { server_nonce, connection, actor: None }, hello)
    }

    /// Opens a stream with a nonce drawn for it.
    pub fn greet(connection: u64) -> (opened: (Control, ServerHello))
        ensures
            opened.1.server_nonce@ == opened.0.nonce(),
            opened.1.proto == PROTO_VERSION,
            opened.0.connected() == connection,
            opened.0.owner() is None,
    {
        Control::open(crypto::random_bytes(), connection)
    }

    /// Judges what the client answered the hello with, if anything.
    pub fn authenticate(
        &mut self,
        state: &mut State,
        auth: Option<Auth>,
        exporter: &[u8; EXPORTER_BYTES],
        peer: PeerAddress,
        now: u64,
    ) -> (outcome: Authenticated)
        requires
            old(state).wf(),
            auth matches Some(auth) ==> old(state)@.can_authenticate(
                auth.pubkey@,
                auth::code_of(auth),
                auth.want_room,
                now,
            ),
            old(self).owner() is None,
        ensures
            final(state).wf(),
            final(self).nonce() == old(self).nonce(),
            final(self).connected() == old(self).connected(),
            match auth {
                None => {
                    &&& outcome is ClosedEarly
                    &&& final(state)@ == old(state)@
                    &&& final(self).owner() is None
                },
                Some(auth) => exists|decided: World, decision: Result<Decision, NoId>|
                    #![trigger is_outcome(decided, final(state)@, auth, old(self).connected(), decision, final(self).owner(), outcome)]
                    {
                        &&& auth::is_decision(
                            old(state)@,
                            decided,
                            auth,
                            auth::is_proven(auth, old(self).nonce(), exporter@),
                            peer,
                            now,
                            decision,
                        )
                        &&& is_outcome(
                            decided,
                            final(state)@,
                            auth,
                            old(self).connected(),
                            decision,
                            final(self).owner(),
                            outcome,
                        )
                    },
            },
    {
        let auth = match auth {
            Some(auth) => auth,
            None => return Authenticated::ClosedEarly,
        };
        let decision = auth::decide(state, &auth, &self.server_nonce, exporter, peer, now);
        let ghost decided = state@;
        let ghost judged = decision;
        match decision {
            Err(error) => {
                let outcome = Authenticated::Full(error);
                assert(is_outcome(
                    decided,
                    state@,
                    auth,
                    old(self).connected(),
                    judged,
                    self.owner(),
                    outcome,
                ));
                outcome
            },
            Ok(Decision::Refused(error)) => {
                let outcome = Authenticated::Turned(AuthResult::Refused(error));
                assert(is_outcome(
                    decided,
                    state@,
                    auth,
                    old(self).connected(),
                    judged,
                    self.owner(),
                    outcome,
                ));
                outcome
            },
            Ok(Decision::Admitted { user, initial_state }) => {
                let mut initial = *initial_state;
                let arrived = state.arrive(user.id, self.connection, auth.want_room);
                initial.placed = arrived.placed;
                self.actor = Some(Actor { user: user.id, role: user.role });
                let outcome = Authenticated::Welcomed {
                    result: AuthResult::Admitted(initial),
                    displaced: arrived.displaced,
                    notices: arrived.notices,
                };
                assert(is_outcome(
                    decided,
                    state@,
                    auth,
                    old(self).connected(),
                    judged,
                    self.owner(),
                    outcome,
                ));
                outcome
            },
        }
    }

    /// Whether the session of whoever the stream belongs to runs on this stream's own
    /// connection: nobody is authenticated on it before, and a newer session may have
    /// replaced it since.
    pub open spec fn is_current(&self, world: World) -> bool {
        self.owner() matches Some(actor) && (rooms::session_at(world.sessions, actor.user) matches Some(
            at,
        ) && world.sessions[at as int].connection == self.connected())
    }

    /// Whether what a request takes is left.
    pub fn can_answer(&self, state: &State, req: &Req, now: u64) -> (can: bool)
        requires
            state.wf(),
        ensures
            can == (self.owner() matches Some(actor) ==> can_handle(
                state@,
                *req,
                actor.user,
                actor.role,
                now,
            )),
    {
        match self.actor {
            Some(actor) => is_possible(state, req, actor.user, actor.role, now),
            None => true,
        }
    }

    /// Answers a request under its own id. `None` before anyone is authenticated, and
    /// once a newer session has replaced this one.
    pub fn request(&self, state: &mut State, envelope: ReqEnvelope, now: u64) -> (answer: Option<
        (ServerMessage, Vec<Notice>),
    >)
        requires
            old(state).wf(),
            self.is_current(old(state)@) ==> can_handle(
                old(state)@,
                envelope.req,
                self.owner()->0.user,
                self.owner()->0.role,
                now,
            ),
        ensures
            final(state).wf(),
            if self.is_current(old(state)@) {
                answer matches Some((ServerMessage::Resp(reply), notices)) && reply.id
                    == envelope.id && is_reply(
                    old(state)@,
                    final(state)@,
                    envelope.req,
                    self.owner()->0.user,
                    self.owner()->0.role,
                    now,
                    (Reply { resp: reply.resp, notices }),
                )
            } else {
                answer is None && final(state)@ == old(state)@
            },
    {
        let actor = match self.actor {
            Some(actor) => actor,
            None => return None,
        };
        match state.registry().session(actor.user) {
            Some(session) => {
                if session.connection != self.connection {
                    return None;
                }
            },
            None => return None,
        }
        let reply = handle_request(state, envelope.req, actor.user, actor.role, now);
        Some(
            (
                ServerMessage::Resp(RespEnvelope { id: envelope.id, resp: reply.resp }),
                reply.notices,
            ),
        )
    }

    /// Who the stream belongs to.
    pub fn actor(&self) -> (actor: Option<Actor>)
        ensures
            actor == self.owner(),
    {
        self.actor
    }

    /// Whether the room that closing the stream leaves, if any, has an epoch left.
    pub fn can_close(&self, state: &State) -> (can: bool)
        requires
            state.wf(),
        ensures
            can == (self.owner() matches Some(actor) ==> state@.can_leave(actor.user)),
    {
        match self.actor {
            Some(actor) => state.can_leave(actor.user),
            None => true,
        }
    }

    /// Ends the session with the stream, unless a newer one has replaced it.
    pub fn close(&self, state: &mut State) -> (exit: Option<Notice>)
        requires
            old(state).wf(),
            self.is_current(old(state)@) ==> old(state)@.can_leave(self.owner()->0.user),
        ensures
            final(state).wf(),
            if self.is_current(old(state)@) {
                let user = self.owner()->0.user;
                &&& final(state)@ == old(state)@.left(user).detached(user)
                &&& match exit {
                    Some(notice) => state::is_exit(old(state)@, user, notice),
                    None => old(state)@.place_of(user) is None,
                }
            } else {
                final(state)@ == old(state)@ && exit is None
            },
    {
        match self.actor {
            Some(actor) => state.depart(actor.user, self.connection),
            None => None,
        }
    }
}

/// Nobody below a manager changes what rooms there are, and nobody below an admin
/// mints an invite.
pub proof fn a_request_above_ones_rank_changes_nothing(
    before: World,
    after: World,
    req: Req,
    user: UserId,
    role: Role,
    now: u64,
    reply: Reply,
)
    requires
        is_reply(before, after, req, user, role, now, reply),
        match req {
            Req::CreateRoom { .. } | Req::RenameRoom { .. } | Req::DeleteRoom(_) => {
                role == Role::User
            },
            Req::CreateInvite { .. } => role != Role::Admin,
            _ => false,
        },
    ensures
        after == before,
        reply.notices@.len() == 0,
        reply.resp matches Resp::Failed { code, .. } && code == ErrCode::Denied,
{
}

/// A name that is nothing but whitespace is blank, and no other.
proof fn blank_is_all_whitespace(name: Seq<char>)
    ensures
        is_blank(name) <==> forall|i: int| 0 <= i < name.len() ==> text::is_space(#[trigger] name[i]),
{
    let (from, to) = text::trimming_takes_only_whitespace(name);
    if is_blank(name) {
        assert forall|i: int| 0 <= i < name.len() implies text::is_space(#[trigger] name[i]) by {
            assert(text::trimmed(name).len() == to - from);
        }
    } else {
        assert(!text::is_space(name[from]));
    }
}

/// A manager or an admin who asks for a room with a name gets one. It comes after all
/// others, under an id above theirs, with the name as given and at epoch zero. Everyone
/// connected is told of it, and nothing else changes.
pub proof fn a_room_asked_for_is_there(
    before: World,
    after: World,
    name: String,
    user: UserId,
    role: Role,
    now: u64,
    reply: Reply,
    c: int,
    r: int,
    k: int,
)
    requires
        before.wf(),
        before.records.takes_rooms(),
        role == Role::Manager || role == Role::Admin,
        0 <= c < name@.len(),
        !text::is_space(name@[c]),
        is_reply(before, after, Req::CreateRoom { name }, user, role, now, reply),
    ensures
        ({
            let last = before.records.rooms.len() as int;
            let room = after.records.rooms[last];
            &&& after.records.rooms.len() == last + 1
            &&& 0 <= r < last ==> after.records.rooms[r] == before.records.rooms[r] && room.id.0
                > before.records.rooms[r].id.0
            &&& room.name == name
            &&& room.epoch.0 == 0
            &&& after.sessions == before.sessions
            &&& after.failures == before.failures
            &&& after.records.users == before.records.users
            &&& after.records.invites == before.records.invites
            &&& after.records.next_media_id == before.records.next_media_id
            &&& reply.resp is Done
            &&& reply.notices@.len() == 1
            &&& reply.notices@[0].event == Event::RoomCreated(room)
            &&& reply.notices@[0].to@.len() == before.sessions.len()
            &&& 0 <= k < before.sessions.len() ==> reply.notices@[0].to@[k]
                == before.sessions[k].user
        }),
{
    blank_is_all_whitespace(name@);
    if 0 <= r < before.records.rooms.len() {
        let last = before.records.rooms.len() - 1;
        if r < last {
            assert(before.records.rooms[r].id.0 < before.records.rooms[last].id.0);
        }
    }
}

/// A manager or an admin who renames a room changes its name and nothing else, and
/// everyone connected is told.
pub proof fn a_room_takes_the_name_it_is_given(
    before: World,
    after: World,
    at: int,
    name: String,
    user: UserId,
    role: Role,
    now: u64,
    reply: Reply,
    c: int,
    r: int,
    k: int,
)
    requires
        before.wf(),
        role == Role::Manager || role == Role::Admin,
        0 <= c < name@.len(),
        !text::is_space(name@[c]),
        0 <= at < before.records.rooms.len(),
        0 <= r < before.records.rooms.len(),
        is_reply(
            before,
            after,
            (Req::RenameRoom { room: before.records.rooms[at].id, name }),
            user,
            role,
            now,
            reply,
        ),
    ensures
        after.records.rooms.len() == before.records.rooms.len(),
        after.records.rooms[r] == if r == at {
            Room { name, ..before.records.rooms[r] }
        } else {
            before.records.rooms[r]
        },
        after.sessions == before.sessions,
        after.failures == before.failures,
        after.records.users == before.records.users,
        after.records.invites == before.records.invites,
        after.records.next_media_id == before.records.next_media_id,
        reply.resp is Done,
        reply.notices@.len() == 1,
        reply.notices@[0].event == (Event::RoomRenamed {
            room: before.records.rooms[at].id,
            name,
        }),
        reply.notices@[0].to@.len() == before.sessions.len(),
        0 <= k < before.sessions.len() ==> reply.notices@[0].to@[k] == before.sessions[k].user,
{
    blank_is_all_whitespace(name@);
    let all = before.records.rooms;
    let id = all[at].id;
    database::room_is_there(all, id);
    let found = database::room_at(all, id)->0 as int;
    if found < at {
        assert(all[found].id.0 < all[at].id.0);
    } else if at < found {
        assert(all[at].id.0 < all[found].id.0);
    }
}

/// A manager or an admin who deletes a room takes it away, with everyone connected told.
/// Other rooms stay, and so does everyone's session.
pub proof fn a_deleted_room_is_gone(
    before: World,
    after: World,
    at: int,
    user: UserId,
    role: Role,
    now: u64,
    reply: Reply,
    r: int,
    k: int,
)
    requires
        before.wf(),
        role == Role::Manager || role == Role::Admin,
        0 <= at < before.records.rooms.len(),
        0 <= r < before.records.rooms.len(),
        0 <= k < before.sessions.len(),
        is_reply(
            before,
            after,
            Req::DeleteRoom(before.records.rooms[at].id),
            user,
            role,
            now,
            reply,
        ),
    ensures
        after.records.rooms.len() == before.records.rooms.len() - 1,
        r < at ==> after.records.rooms[r] == before.records.rooms[r],
        at < r ==> after.records.rooms[r - 1] == before.records.rooms[r],
        after.sessions.len() == before.sessions.len(),
        after.sessions[k].user == before.sessions[k].user,
        after.sessions[k].place == if before.sessions[k].place matches Some(place) && place.room
            == before.records.rooms[at].id {
            None
        } else {
            before.sessions[k].place
        },
        reply.resp is Done,
        reply.notices@.len() == 1,
        reply.notices@[0].event == Event::RoomDeleted(before.records.rooms[at].id),
        reply.notices@[0].to@.len() == before.sessions.len(),
        reply.notices@[0].to@[k] == before.sessions[k].user,
{
    state::a_deletion_takes_one_room(before, at, r, k);
    database::room_is_there(before.records.rooms, before.records.rooms[at].id);
}

/// A request that names a room there is none of, or gives a room a blank name, changes
/// nothing and tells nobody, and whoever made it is told what was wrong with it.
pub proof fn a_request_that_makes_no_sense_changes_nothing(
    before: World,
    after: World,
    req: Req,
    user: UserId,
    role: Role,
    now: u64,
    reply: Reply,
)
    requires
        is_reply(before, after, req, user, role, now, reply),
        role == Role::Manager || role == Role::Admin,
    ensures
        (req matches Req::CreateRoom { name } && forall|i: int|
            0 <= i < name@.len() ==> text::is_space(#[trigger] name@[i])) ==> after == before
            && reply.notices@.len() == 0 && (reply.resp matches Resp::Failed {
            code: ErrCode::Invalid,
            ..
        }),
        (req matches Req::RenameRoom { name, .. } && forall|i: int|
            0 <= i < name@.len() ==> text::is_space(#[trigger] name@[i])) ==> after == before
            && reply.notices@.len() == 0 && (reply.resp matches Resp::Failed {
            code: ErrCode::Invalid,
            ..
        }),
        (req matches Req::DeleteRoom(room) && forall|r: int|
            0 <= r < before.records.rooms.len() ==> (#[trigger] before.records.rooms[r]).id
                != room) ==> after == before && reply.notices@.len() == 0 && (
        reply.resp matches Resp::Failed { code: ErrCode::NotFound, .. }),
        (req matches Req::SetRoom(Some(room)) && forall|r: int|
            0 <= r < before.records.rooms.len() ==> (#[trigger] before.records.rooms[r]).id
                != room) ==> after == before && reply.notices@.len() == 0 && (
        reply.resp matches Resp::Failed { code: ErrCode::NotFound, .. }),
{
    match req {
        Req::CreateRoom { name } => blank_is_all_whitespace(name@),
        Req::RenameRoom { name, .. } => blank_is_all_whitespace(name@),
        Req::DeleteRoom(room) => database::room_is_there(before.records.rooms, room),
        Req::SetRoom(Some(room)) => database::room_is_there(before.records.rooms, room),
        _ => {},
    }
}

/// An admin who asks for an invite and is given a code can hand it on: the code then
/// enrolls with the role that was asked for until the time that was said, which is a day
/// off where no lifetime was asked for. Nothing else changes, and nobody else is told.
pub proof fn a_code_handed_out_enrolls(
    before: World,
    after: World,
    invited: Role,
    ttl_secs: u32,
    user: UserId,
    now: u64,
    reply: Reply,
    later: u64,
)
    requires
        before.wf(),
        now + 86400 <= u64::MAX,
        now + ttl_secs <= u64::MAX,
        is_reply(
            before,
            after,
            (Req::CreateInvite { role: invited, ttl_secs }),
            user,
            Role::Admin,
            now,
            reply,
        ),
    ensures
        reply.notices@.len() == 0,
        after.sessions == before.sessions,
        after.failures == before.failures,
        after.records.users == before.records.users,
        after.records.rooms == before.records.rooms,
        reply.resp matches Resp::InviteCode { code, expires } ==> {
            let live = database::redeemable_at(after.records.invites, code@, later);
            &&& expires == now + if ttl_secs == 0 {
                86400int
            } else {
                ttl_secs as int
            }
            &&& live is Some <==> later < expires
            &&& live is Some ==> after.records.invites[live->0 as int].role == invited
            &&& after.records.invites.len() == before.records.invites.len() + 1
            &&& code@.len() == 6
        },
        !(reply.resp is InviteCode) ==> after == before && (reply.resp matches Resp::Failed {
            code: ErrCode::Internal,
            ..
        }),
{
    let expires_at = (now + ttl_of(ttl_secs)) as u64;
    let minted = match reply.resp {
        Resp::InviteCode { code, .. } => Some(code@),
        _ => None,
    };
    let codes = choose|codes: Seq<Seq<char>>|
        database::are_drawn(codes) && #[trigger] database::is_minting_from(
            before.records,
            after.records,
            codes,
            invited,
            expires_at,
            minted,
        );
    if let Resp::InviteCode { code, expires } = reply.resp {
        database::a_minted_code_lives_until_its_time(
            before.records,
            after.records,
            code@,
            invited,
            expires_at,
            later,
            0,
        );
        if later < expires_at {
            database::a_minted_code_enrolls(
                before.records,
                after.records,
                code@,
                invited,
                expires_at,
                later,
            );
        }
        database::the_first_unused_code_is_minted(before.records.invites, codes);
    }
}

/// A client that is let in has one session, on this connection, and the stream is its own
/// from then on. It is told who it is, everyone enrolled and every room. The connection of
/// a session it still had is named, to be closed, and no other is.
pub proof fn whoever_is_let_in_owns_the_stream(
    decided: World,
    after: World,
    auth: Auth,
    connection: u64,
    user: crate::proto::msg::User,
    initial_state: Box<InitialState>,
    actor: Option<Actor>,
    outcome: Authenticated,
    k: int,
)
    requires
        decided.wf(),
        decided.records.rooms.len() > 0,
        decided.can_arrive(user.id, auth.want_room),
        is_outcome(
            decided,
            after,
            auth,
            connection,
            Ok(Decision::Admitted { user, initial_state }),
            actor,
            outcome,
        ),
        0 <= k < decided.records.users.len(),
    ensures
        actor matches Some(actor) && actor.user == user.id && actor.role == user.role,
        exists|i: int|
            0 <= i < after.sessions.len() && (#[trigger] after.sessions[i]).user == user.id
                && after.sessions[i].connection == connection,
        outcome matches Authenticated::Welcomed {
            result: AuthResult::Admitted(initial),
            displaced,
            ..
        } && initial.me == user.id && initial.role == user.role && initial.users@.len()
            == decided.records.users.len() && initial.users@[k] == decided.records.users[k].user
            && initial.rooms@ == decided.records.rooms && (displaced is Some ==> exists|i: int|
            0 <= i < decided.sessions.len() && (#[trigger] decided.sessions[i]).user == user.id
                && displaced == Some(decided.sessions[i].connection)) && (displaced is None
            ==> forall|i: int|
            0 <= i < decided.sessions.len() ==> (#[trigger] decided.sessions[i]).user != user.id),
{
    let at = state::an_arrival_takes_over(decided, user.id, connection, auth.want_room, 0, 0);
    assert(after.sessions[at].user == user.id);
    rooms::session_is_there(decided.sessions, user.id);
}

/// A stream is current exactly while its owner has a session on its connection.
pub proof fn a_stream_is_current_while_its_session_is(control: Control, world: World, i: int)
    requires
        world.wf(),
        control.owner() is Some,
        0 <= i < world.sessions.len(),
        world.sessions[i].user == control.owner()->0.user,
    ensures
        control.is_current(world) <==> world.sessions[i].connection == control.connected(),
{
    state::a_session_says_where_its_user_is(world, i);
}

/// Anyone may move, whatever their role: into any room there is, or out of the one they
/// are in. They are then there, on their own connection, and told where.
pub proof fn anyone_may_move(
    before: World,
    after: World,
    target: Option<RoomId>,
    user: UserId,
    role: Role,
    now: u64,
    reply: Reply,
    i: int,
    r: int,
)
    requires
        before.wf(),
        before.can_move(user, target),
        0 <= i < before.sessions.len(),
        before.sessions[i].user == user,
        0 <= r < before.records.rooms.len(),
        target matches Some(room) ==> room == before.records.rooms[r].id,
        is_reply(before, after, Req::SetRoom(target), user, role, now, reply),
    ensures
        after.sessions[i].user == user,
        after.sessions[i].connection == before.sessions[i].connection,
        target is None ==> after.sessions[i].place is None,
        target matches Some(room) ==> (after.sessions[i].place matches Some(place) && place.room
            == room),
        reply.resp matches Resp::Placed(placed) && placed.room == target,
{
    if let Some(room) = target {
        database::room_is_there(before.records.rooms, room);
    }
    state::a_move_changes_only_what_it_must(before, user, target, i, r);
    state::a_session_says_where_its_user_is(before, i);
    let at = rooms::session_at(after.sessions, user);
    rooms::session_is_there(after.sessions, user);
    state::a_move_ends_where_it_was_meant_to(before, user, target);
}

/// What is not implemented changes nothing, tells nobody, and is said to be just that,
/// whoever asks.
pub proof fn what_is_not_implemented_changes_nothing(
    before: World,
    after: World,
    req: Req,
    user: UserId,
    role: Role,
    now: u64,
    reply: Reply,
)
    requires
        is_reply(before, after, req, user, role, now, reply),
        req is SetProfile || req is SetMedia || req is RequestKeyframe || req is SetRole
            || req is RemoveUser,
    ensures
        after == before,
        reply.notices@.len() == 0,
        reply.resp matches Resp::Failed { code, .. } && code == ErrCode::Unimplemented,
{
}

/// As long as every room has two epochs left, three media ids are left, room ids are not
/// used up and the clock has a century of seconds to go, every request can be handled.
pub proof fn there_is_room_for_every_request(
    world: World,
    req: Req,
    user: UserId,
    role: Role,
    now: u64,
)
    requires
        world.wf(),
        forall|r: int|
            0 <= r < world.records.rooms.len() ==> (#[trigger] world.records.rooms[r]).epoch.0
                <= 0xffff_fffd && world.records.rooms[r].id.0 < 0x7fff_ffff_ffff_ffff,
        world.records.next_media_id <= 0xffff_fffc,
        now <= 0xffff_ffff_0000_0000,
    ensures
        can_handle(world, req, user, role, now),
{
    if let Req::SetRoom(target) = req {
        state::there_is_room_to_move(world, user, target);
    }
    if world.records.rooms.len() > 0 {
        assert(world.records.rooms[world.records.rooms.len() - 1].id.0 < 0x7fff_ffff_ffff_ffff);
    }
}

} // verus!
