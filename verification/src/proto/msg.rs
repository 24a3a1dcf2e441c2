//! The control messages.

use vstd::prelude::*;

use crate::proto::ids::{Epoch, MediaId, RoomId, UserId};

verus! {

pub const PROTO_VERSION: u16 = 1;

/// What the server opens the control stream with.
#[derive(Debug, Clone, Copy, PartialEq)]
pub struct ServerHello {
    pub server_nonce: [u8; 32],
    pub proto: u16,
}

/// A client's proof that it holds a key, over this one connection.
#[derive(Debug, Clone, PartialEq)]
pub struct Auth {
    pub pubkey: [u8; 32],
    pub client_nonce: [u8; 32],
    pub invite_code: Option<String>,
    pub want_room: Option<RoomId>,
    pub sig: [u8; 64],
}

/// What an admitted client starts from.
#[derive(Debug, Clone, PartialEq)]
pub struct InitialState {
    pub me: UserId,
    pub role: Role,
    pub users: Vec<User>,
    pub rooms: Vec<Room>,
    pub placed: Placed,
}

#[derive(Debug, Clone, PartialEq)]
pub enum AuthResult {
    Admitted(InitialState),
    Refused(AuthErr),
}

#[derive(Debug, Clone, Copy, PartialEq, Eq, Structural)]
pub enum AuthErr {
    UnknownKey,
    BadSig,
    BadInvite,
    ProtoMismatch,
    Banned,
}

#[derive(Debug, Clone, Copy, PartialEq, Eq, PartialOrd, Ord, Structural)]
pub enum Role {
    User,
    Manager,
    Admin,
}

impl Role {
    /// Where a role stands: a role may only act on strictly lower ranks.
    pub open spec fn ranked(self) -> u8 {
        match self {
            Role::User => 0,
            Role::Manager => 1,
            Role::Admin => 2,
        }
    }

    /// A role may only act on strictly lower ranks.
    pub fn rank(self) -> (rank: u8)
        ensures
            rank == self.ranked(),
    {
        match self {
            Role::User => 0,
            Role::Manager => 1,
            Role::Admin => 2,
        }
    }

    /// The role of a rank, where there is one.
    pub fn from_rank(rank: u8) -> (role: Option<Role>)
        ensures
            match role {
                Some(role) => role.ranked() == rank,
                None => rank > 2,
            },
    {
        match rank {
            0 => Some(Role::User),
            1 => Some(Role::Manager),
            2 => Some(Role::Admin),
            _ => None,
        }
    }
}

/// A rank belongs to one role.
pub proof fn a_rank_names_one_role(one: Role, other: Role)
    ensures
        one.ranked() == other.ranked() ==> one == other,
        one.ranked() <= 2,
{
}

/// An enrolled key, and what goes with it.
#[derive(Debug, PartialEq)]
pub struct User {
    pub id: UserId,
    pub pubkey: [u8; 32],
    pub name: String,
    pub avatar: Option<[u8; 32]>,
    pub role: Role,
}

impl Clone for User {
    fn clone(&self) -> (copy: User)
        ensures
            copy == *self,
    {
        User {
            id: self.id,
            pubkey: self.pubkey,
            name: self.name.clone(),
            avatar: self.avatar,
            role: self.role,
        }
    }
}

/// A room, whether or not anyone is in it.
#[derive(Debug, PartialEq)]
pub struct Room {
    pub id: RoomId,
    pub name: String,
    pub epoch: Epoch,
}

impl Clone for Room {
    fn clone(&self) -> (copy: Room)
        ensures
            copy == *self,
    {
        Room { id: self.id, name: self.name.clone(), epoch: self.epoch }
    }
}

#[derive(Debug, Clone, PartialEq)]
pub struct ReqEnvelope {
    pub id: u32,
    pub req: Req,
}

#[derive(Debug, Clone, PartialEq)]
pub struct RespEnvelope {
    pub id: u32,
    pub resp: Resp,
}

/// What the control stream carries from server to client once authenticated.
#[derive(Debug, Clone, PartialEq)]
pub enum ServerMessage {
    Resp(RespEnvelope),
    Event(Event),
}

#[derive(Debug, Clone, PartialEq)]
pub enum Req {
    SetRoom(Option<RoomId>),
    SetProfile { name: String, avatar: Option<[u8; 32]> },
    SetMedia { mic: bool, screen: bool, share_audio: bool, screen_kbps: u32, codec: Codec },
    RequestKeyframe(MediaId),
    CreateRoom { name: String },
    RenameRoom { room: RoomId, name: String },
    DeleteRoom(RoomId),
    CreateInvite { role: Role, ttl_secs: u32 },
    SetRole { user: UserId, role: Role },
    RemoveUser(UserId),
}

#[allow(inconsistent_fields)]
#[derive(Debug, Clone, PartialEq)]
pub enum Resp {
    Done,
    Failed { code: ErrCode, msg: String },
    Placed(Placed),
    InviteCode { code: String, expires: u64 },
    AvatarHash([u8; 32]),
}

#[derive(Debug, Clone, Copy, PartialEq, Eq, Structural)]
pub enum ErrCode {
    Denied,
    NotFound,
    Invalid,
    Unimplemented,
    Internal,
}

/// Where a client stands: its room, the room's generation, the tracks it may send
/// on and who else is there.
#[derive(Debug, Clone, PartialEq)]
pub struct Placed {
    pub room: Option<RoomId>,
    pub epoch: Epoch,
    pub tracks: Option<Tracks>,
    pub peers: Vec<PeerState>,
}

#[derive(Debug, Clone, PartialEq)]
pub enum Event {
    UserEntered { room: RoomId, epoch: Epoch, peer: PeerState },
    UserExited { room: RoomId, epoch: Epoch, user: UserId },
    PeerMedia {
        user: UserId,
        tracks: Tracks,
        mic: bool,
        screen: bool,
        share_audio: bool,
        screen_kbps: u32,
        codec: Codec,
    },
    ProfileChanged { user: UserId, name: String, avatar: Option<[u8; 32]> },
    KeyframeWanted(MediaId),
    RoomCreated(Room),
    RoomRenamed { room: RoomId, name: String },
    RoomDeleted(RoomId),
    UserAdded(User),
    RoleChanged { user: UserId, role: Role },
    UserRemoved(UserId),
    Kicked { reason: String },
}

#[derive(Debug, Clone, Copy, PartialEq, Eq, Structural)]
pub struct Share {
    pub video: MediaId,
    pub audio: Option<MediaId>,
}

impl Share {
    /// Whether an id is this share's picture or its sound.
    pub open spec fn has(self, id: MediaId) -> bool {
        self.video == id || self.audio == Some(id)
    }
}

/// The media ids one client sends on.
#[derive(Debug, Clone, PartialEq, Eq)]
pub struct Tracks {
    pub mic: MediaId,
    pub shares: Vec<Share>,
}

impl Tracks {
    /// Whether an id is one of these tracks.
    pub open spec fn has(self, id: MediaId) -> bool {
        ||| self.mic == id
        ||| exists|i: int| 0 <= i < self.shares@.len() && (#[trigger] self.shares@[i]).has(id)
    }

    /// Whether an id is one of these tracks.
    pub fn owns(&self, id: MediaId) -> (owned: bool)
        ensures
            owned == self.has(id),
    {
        if self.mic == id {
            return true;
        }
        let mut i: usize = 0;
        while i < self.shares.len()
            invariant
                i <= self.shares@.len(),
                self.mic != id,
                forall|j: int|
                    0 <= j < i ==> !(#[trigger] self.shares@[j]).has(id),
            decreases self.shares@.len() - i,
        {
            let share = self.shares[i];
            if share.video == id {
                return true;
            }
            if let Some(audio) = share.audio {
                if audio == id {
                    return true;
                }
            }
            i += 1;
        }
        false
    }
}

#[derive(Debug, Clone, Copy, PartialEq, Eq, Structural)]
pub enum Codec {
    Av1,
    H265,
    H264,
}

/// What a peer in the same room sends.
#[derive(Debug, Clone, PartialEq)]
pub struct PeerState {
    pub user: UserId,
    pub tracks: Tracks,
    pub mic: bool,
    pub screen: bool,
    pub share_audio: bool,
    pub screen_kbps: u32,
    pub codec: Codec,
}

/// A manager stands above a user, and an admin above both.
pub proof fn ranks_rise_with_trust(role: Role)
    ensures
        role == Role::User || role == Role::Manager || role == Role::Admin,
        role != Role::User ==> role.ranked() > Role::User.ranked(),
        role != Role::Admin ==> role.ranked() < Role::Admin.ranked(),
{
}

/// A client owns its microphone, and the picture and the sound of each of its shares, and
/// no other track.
pub proof fn a_client_owns_its_microphone_and_shares(tracks: Tracks, id: MediaId, i: int)
    requires
        0 <= i < tracks.shares@.len(),
    ensures
        tracks.has(tracks.mic),
        tracks.has(tracks.shares@[i].video),
        tracks.shares@[i].audio matches Some(audio) ==> tracks.has(audio),
        tracks.mic != id && (forall|k: int|
            0 <= k < tracks.shares@.len() ==> (#[trigger] tracks.shares@[k]).video != id
                && tracks.shares@[k].audio != Some(id)) ==> !tracks.has(id),
{
    assert(tracks.shares@[i].has(tracks.shares@[i].video));
    if let Some(audio) = tracks.shares@[i].audio {
        assert(tracks.shares@[i].has(audio));
    }
}

} // verus!
