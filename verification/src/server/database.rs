//! What the server remembers across restarts: the allowlist, the invites, the
//! rooms and the next media id.

use vstd::prelude::*;

use crate::keyed;
use crate::proto::ids::{Epoch, RoomId, UserId};
use crate::proto::msg::{Role, Room, User};
use crate::proto::wire;
use crate::server::invite;
use crate::text;

verus! {

/// A generated invite. The code goes to whoever will redeem it, and the server
/// keeps only its hash.
pub struct Invite {
    pub code: String,
    pub expires_at: u64,
}

/// No id is left for another user.
#[derive(Debug, Clone, Copy, PartialEq, Eq, Structural)]
pub struct NoId;

/// What comes of a key that asks to be let in.
pub enum Admission {
    Admitted { user: User, users: Vec<User>, enrolled: bool },
    NotAllowlisted,
    InviteRefused,
}

/// A user, and when the key was enrolled.
pub struct UserRow {
    pub user: User,
    pub created_at: u64,
}

/// An invite as it is kept. A redeemed one stays as a trace of who enrolled with
/// it, until it is pruned.
#[derive(Clone, Copy)]
pub struct InviteRow {
    pub secret_hash: [u8; 32],
    pub role: Role,
    pub expires_at: u64,
    pub redeemed_by: Option<UserId>,
    pub redeemed_at: Option<u64>,
}

/// The contents of a database.
pub ghost struct Records {
    pub users: Seq<UserRow>,
    pub invites: Seq<InviteRow>,
    pub rooms: Seq<Room>,
    pub next_media_id: u32,
}

/// Users in the order of their ids, no key enrolled twice.
pub open spec fn users_in_order(users: Seq<UserRow>) -> bool {
    &&& forall|i: int, j: int|
        0 <= i < j < users.len() ==> users[i].user.id.0 < users[j].user.id.0
    &&& forall|i: int, j: int|
        0 <= i < j < users.len() ==> users[i].user.pubkey@ != users[j].user.pubkey@
}

/// No code's hash kept twice.
pub open spec fn distinct_hashes(invites: Seq<InviteRow>) -> bool {
    forall|i: int, j: int|
        0 <= i < j < invites.len() ==> invites[i].secret_hash@ != invites[j].secret_hash@
}

/// Rooms in the order of their ids.
pub open spec fn rooms_in_order(rooms: Seq<Room>) -> bool {
    forall|i: int, j: int| 0 <= i < j < rooms.len() ==> rooms[i].id.0 < rooms[j].id.0
}

impl Records {
    /// Users and rooms in the order of their ids, no key enrolled twice and no
    /// code's hash kept twice.
    pub open spec fn wf(self) -> bool {
        &&& users_in_order(self.users)
        &&& distinct_hashes(self.invites)
        &&& rooms_in_order(self.rooms)
    }

    /// Whether there is an id for one more user.
    pub open spec fn takes_users(self) -> bool {
        self.users.len() > 0 ==> self.users.last().user.id.0 < i64::MAX
    }

    /// Whether the media ids of one more placement are left.
    pub open spec fn has_media(self) -> bool {
        self.next_media_id + MEDIA_IDS_PER_PLACEMENT <= u32::MAX
    }

    /// Whether a key is new and presented with a code that enrolls it.
    pub open spec fn enrolls(self, pubkey: Seq<u8>, code: Option<Seq<char>>, now: u64) -> bool {
        &&& user_at(self.users, pubkey) is None
        &&& code matches Some(code) && redeemable_at(self.invites, code, now) is Some
    }

    /// Whether there is an id for one more room.
    pub open spec fn takes_rooms(self) -> bool {
        self.rooms.len() > 0 ==> self.rooms.last().id.0 < i64::MAX
    }
}

/// The users among rows, in order.
pub open spec fn roster(users: Seq<UserRow>) -> Seq<User> {
    Seq::new(users.len(), |i: int| users[i].user)
}

/// The keys of rows, in order.
pub open spec fn pubkeys(users: Seq<UserRow>) -> Seq<Seq<u8>> {
    Seq::new(users.len(), |i: int| users[i].user.pubkey@)
}

/// The hashes of invites, in order.
pub open spec fn hashes(invites: Seq<InviteRow>) -> Seq<Seq<u8>> {
    Seq::new(invites.len(), |i: int| invites[i].secret_hash@)
}

/// The ids of rooms, in order.
pub open spec fn room_ids(rooms: Seq<Room>) -> Seq<RoomId> {
    Seq::new(rooms.len(), |i: int| rooms[i].id)
}

/// Where a key stands on the allowlist.
pub open spec fn user_at(users: Seq<UserRow>, pubkey: Seq<u8>) -> Option<nat> {
    keyed::place(pubkeys(users), pubkey)
}

/// Where the invite of a hash stands.
pub open spec fn invite_at(invites: Seq<InviteRow>, hash: Seq<u8>) -> Option<nat> {
    keyed::place(hashes(invites), hash)
}

/// Whether an invite still enrolls: neither redeemed nor expired.
pub open spec fn is_redeemable(invite: InviteRow, now: u64) -> bool {
    invite.redeemed_by is None && invite.expires_at > now
}

/// Where the invite that a code redeems stands.
pub open spec fn redeemable_at(invites: Seq<InviteRow>, code: Seq<char>, now: u64) -> Option<nat> {
    match invite_at(invites, invite::hash_of(code)) {
        Some(at) if is_redeemable(invites[at as int], now) => Some(at),
        _ => None,
    }
}

/// Where a room stands.
pub open spec fn room_at(rooms: Seq<Room>, id: RoomId) -> Option<nat> {
    keyed::place(room_ids(rooms), id)
}

/// Rooms with one of them moved on to its next epoch.
pub open spec fn bumped(rooms: Seq<Room>, id: RoomId) -> Seq<Room> {
    match room_at(rooms, id) {
        Some(at) => rooms.update(
            at as int,
            (Room {
                epoch: Epoch((rooms[at as int].epoch.0 + 1) as u32),
                ..rooms[at as int]
            }),
        ),
        None => rooms,
    }
}

/// The id the next user takes.
pub open spec fn next_user_id(users: Seq<UserRow>) -> UserId {
    UserId(
        if users.len() == 0 {
            1
        } else {
            (users.last().user.id.0 + 1) as u64
        },
    )
}

/// The id the next room takes.
pub open spec fn next_room_id(rooms: Seq<Room>) -> RoomId {
    RoomId(
        if rooms.len() == 0 {
            1
        } else {
            (rooms.last().id.0 + 1) as u64
        },
    )
}

/// Whether `after` is `before` with one more user, who redeemed the invite at `at`:
/// the user holds the key and the invite's role, and the invite says who took it
/// and when.
pub open spec fn is_enrollment(
    before: Records,
    after: Records,
    pubkey: Seq<u8>,
    at: nat,
    now: u64,
) -> bool {
    let row = after.users.last();
    &&& after.users.len() == before.users.len() + 1
    &&& after.users.drop_last() == before.users
    &&& row.user.id == next_user_id(before.users)
    &&& row.user.pubkey@ == pubkey
    &&& row.user.name@ == Seq::<char>::empty()
    &&& row.user.avatar is None
    &&& row.user.role == before.invites[at as int].role
    &&& row.created_at == now
    &&& after.invites == before.invites.update(
        at as int,
        (InviteRow {
            redeemed_by: Some(row.user.id),
            redeemed_at: Some(now),
            ..before.invites[at as int]
        }),
    )
    &&& after.rooms == before.rooms
    &&& after.next_media_id == before.next_media_id
}

/// Whether an admission is what a key, presented with a code or without, is owed. It
/// fails only where a new user would have to be given an id and none is left.
pub open spec fn is_admission(
    before: Records,
    after: Records,
    pubkey: Seq<u8>,
    code: Option<Seq<char>>,
    now: u64,
    admission: Result<Admission, NoId>,
) -> bool {
    match user_at(before.users, pubkey) {
        Some(at) => {
            &&& after == before
            &&& admission matches Ok(Admission::Admitted { user, users, enrolled }) && user
                == before.users[at as int].user && users@ == roster(before.users) && !enrolled
        },
        None => match code {
            None => after == before && admission matches Ok(Admission::NotAllowlisted),
            Some(code) => match redeemable_at(before.invites, code, now) {
                None => after == before && admission matches Ok(Admission::InviteRefused),
                Some(at) => if before.takes_users() {
                    &&& is_enrollment(before, after, pubkey, at, now)
                    &&& admission matches Ok(Admission::Admitted { user, users, enrolled }) && user
                        == after.users.last().user && users@ == roster(after.users) && enrolled
                } else {
                    after == before && admission is Err
                },
            },
        },
    }
}

/// An unredeemed invite as it is first kept.
pub open spec fn is_fresh(row: InviteRow, code: Seq<char>, role: Role, expires_at: u64) -> bool {
    &&& row.secret_hash@ == invite::hash_of(code)
    &&& row.role == role
    &&& row.expires_at == expires_at
    &&& row.redeemed_by is None
    &&& row.redeemed_at is None
}

/// Whether `after` is `before` with one more invite, for `code`.
pub open spec fn is_minting(
    before: Records,
    after: Records,
    code: Seq<char>,
    role: Role,
    expires_at: u64,
) -> bool {
    &&& invite_at(before.invites, invite::hash_of(code)) is None
    &&& after.invites.len() == before.invites.len() + 1
    &&& after.invites.drop_last() == before.invites
    &&& is_fresh(after.invites.last(), code, role, expires_at)
    &&& after == (Records { invites: after.invites, ..before })
}

/// Whether a code's hash is kept already.
pub open spec fn is_taken(invites: Seq<InviteRow>, code: Seq<char>) -> bool {
    invite_at(invites, invite::hash_of(code)) is Some
}

/// Where the first code that is not taken stands.
pub open spec fn unused_at(invites: Seq<InviteRow>, codes: Seq<Seq<char>>) -> Option<nat>
    decreases codes.len(),
{
    if codes.len() == 0 {
        None
    } else {
        match unused_at(invites, codes.drop_last()) {
            Some(at) => Some(at),
            None => if is_taken(invites, codes.last()) {
                None
            } else {
                Some((codes.len() - 1) as nat)
            },
        }
    }
}

/// What minting from codes comes to: the first that is not taken is kept, and none
/// where each of them is taken.
pub open spec fn is_minting_from(
    before: Records,
    after: Records,
    codes: Seq<Seq<char>>,
    role: Role,
    expires_at: u64,
    code: Option<Seq<char>>,
) -> bool {
    match unused_at(before.invites, codes) {
        Some(at) => {
            &&& code == Some(codes[at as int])
            &&& is_minting(before, after, codes[at as int], role, expires_at)
        },
        None => code is None && after == before,
    }
}

/// Whether codes are as many as are drawn for one invite.
pub open spec fn are_drawn(codes: Seq<Seq<char>>) -> bool {
    &&& codes.len() == DRAWS
    &&& forall|i: int| 0 <= i < codes.len() ==> invite::is_code(#[trigger] codes[i])
}

/// What minting from codes just drawn comes to.
pub open spec fn is_creation(
    before: Records,
    after: Records,
    role: Role,
    expires_at: u64,
    code: Option<Seq<char>>,
) -> bool {
    exists|codes: Seq<Seq<char>>|
        are_drawn(codes) && #[trigger] is_minting_from(
            before,
            after,
            codes,
            role,
            expires_at,
            code,
        )
}

/// The characters of texts.
pub open spec fn texts(codes: Seq<String>) -> Seq<Seq<char>> {
    Seq::new(codes.len(), |i: int| codes[i]@)
}

/// The code of an invite, where there is one.
pub open spec fn code_of(minted: Option<Invite>) -> Option<Seq<char>> {
    match minted {
        Some(minted) => Some(minted.code@),
        None => None,
    }
}

/// The invites that somebody has redeemed, in order.
pub open spec fn redeemed(invites: Seq<InviteRow>) -> Seq<InviteRow>
    decreases invites.len(),
{
    if invites.len() == 0 {
        Seq::empty()
    } else if invites.last().redeemed_by is Some {
        redeemed(invites.drop_last()).push(invites.last())
    } else {
        redeemed(invites.drop_last())
    }
}

/// The invites that can still be redeemed, in order.
pub open spec fn outstanding(invites: Seq<InviteRow>, now: u64) -> Seq<InviteRow>
    decreases invites.len(),
{
    if invites.len() == 0 {
        Seq::empty()
    } else if is_redeemable(invites.last(), now) {
        outstanding(invites.drop_last(), now).push(invites.last())
    } else {
        outstanding(invites.drop_last(), now)
    }
}

pub struct Database {
    users: Vec<UserRow>,
    invites: Vec<InviteRow>,
    rooms: Vec<Room>,
    next_media_id: u32,
}

impl View for Database {
    type V = Records;

    closed spec fn view(&self) -> Records {
        Records {
            users: self.users@,
            invites: self.invites@,
            rooms: self.rooms@,
            next_media_id: self.next_media_id,
        }
    }
}

/// One for the microphone, and a picture and its sound for one share.
pub const MEDIA_IDS_PER_PLACEMENT: u32 = 3;

/// How many codes are drawn before minting is given up.
pub const DRAWS: u32 = 8;

impl Database {
    /// A database with nothing in it.
    pub fn new() -> (database: Database)
        ensures
            database@.wf(),
            database@ == (Records {
                users: Seq::empty(),
                invites: Seq::empty(),
                rooms: Seq::empty(),
                next_media_id: 1,
            }),
    {
        Database { users: Vec::new(), invites: Vec::new(), rooms: Vec::new(), next_media_id: 1 }
    }

    pub fn user_count(&self) -> (count: usize)
        ensures
            count == self@.users.len(),
    {
        self.users.len()
    }

    fn find_user(&self, pubkey: &[u8; 32]) -> (at: Option<usize>)
        ensures
            match (at, user_at(self@.users, pubkey@)) {
                (Some(at), Some(expected)) => at == expected && at < self@.users.len(),
                (None, None) => true,
                _ => false,
            },
    {
        let ghost keys = pubkeys(self.users@);
        let mut i: usize = 0;
        while i < self.users.len()
            invariant
                i <= self.users@.len(),
                keys == pubkeys(self.users@),
                forall|j: int| 0 <= j < i ==> #[trigger] keys[j] != pubkey@,
            decreases self.users@.len() - i,
        {
            assert(keys[i as int] == self.users@[i as int].user.pubkey@);
            if wire::same_bytes(&self.users[i].user.pubkey, pubkey) {
                proof {
                    keyed::the_first_is_the_place(keys, pubkey@, i as int);
                }
                return Some(i);
            }
            i += 1;
        }
        proof {
            keyed::a_place_is_the_first(keys, pubkey@);
        }
        None
    }

    fn find_invite(&self, hash: &[u8; 32]) -> (at: Option<usize>)
        ensures
            match (at, invite_at(self@.invites, hash@)) {
                (Some(at), Some(expected)) => at == expected && at < self@.invites.len(),
                (None, None) => true,
                _ => false,
            },
    {
        let ghost keys = hashes(self.invites@);
        let mut i: usize = 0;
        while i < self.invites.len()
            invariant
                i <= self.invites@.len(),
                keys == hashes(self.invites@),
                forall|j: int| 0 <= j < i ==> #[trigger] keys[j] != hash@,
            decreases self.invites@.len() - i,
        {
            assert(keys[i as int] == self.invites@[i as int].secret_hash@);
            if wire::same_bytes(&self.invites[i].secret_hash, hash) {
                proof {
                    keyed::the_first_is_the_place(keys, hash@, i as int);
                }
                return Some(i);
            }
            i += 1;
        }
        proof {
            keyed::a_place_is_the_first(keys, hash@);
        }
        None
    }

    /// The users, in the order of their ids.
    pub fn roster(&self) -> (users: Vec<User>)
        ensures
            users@ == roster(self@.users),
    {
        let mut users: Vec<User> = Vec::new();
        let mut i: usize = 0;
        while i < self.users.len()
            invariant
                i <= self.users@.len(),
                users@ == roster(self.users@.take(i as int)),
            decreases self.users@.len() - i,
        {
            users.push(self.users[i].user.clone());
            i += 1;
            assert(users@ =~= roster(self.users@.take(i as int)));
        }
        assert(self.users@.take(i as int) =~= self.users@);
        users
    }

    /// A public key is matched against the allowlist, redeeming the invite presented
    /// with it if the key is new. The roster is of that same moment, so it cannot
    /// shift between admitting and answering.
    pub fn admission(&mut self, pubkey: &[u8; 32], invite_code: Option<&str>, now: u64) -> (admission:
        Result<Admission, NoId>)
        requires
            old(self)@.wf(),
        ensures
            final(self)@.wf(),
            is_admission(
                old(self)@,
                final(self)@,
                pubkey@,
                match invite_code {
                    Some(code) => Some(code@),
                    None => None,
                },
                now,
                admission,
            ),
    {
        if let Some(at) = self.find_user(pubkey) {
            let user = self.users[at].user.clone();
            return Ok(Admission::Admitted { user, users: self.roster(), enrolled: false });
        }
        let code = match invite_code {
            Some(code) => code,
            None => return Ok(Admission::NotAllowlisted),
        };
        match self.redeem(code, pubkey, now) {
            Ok(Some(user)) => Ok(
                Admission::Admitted { user, users: self.roster(), enrolled: true },
            ),
            Ok(None) => Ok(Admission::InviteRefused),
            Err(error) => Err(error),
        }
    }

    fn redeem(&mut self, code: &str, pubkey: &[u8; 32], now: u64) -> (enrolled: Result<
        Option<User>,
        NoId,
    >)
        requires
            old(self)@.wf(),
            user_at(old(self)@.users, pubkey@) is None,
        ensures
            final(self)@.wf(),
            match (enrolled, redeemable_at(old(self)@.invites, code@, now)) {
                (Ok(Some(user)), Some(at)) => {
                    &&& old(self)@.takes_users()
                    &&& is_enrollment(old(self)@, final(self)@, pubkey@, at, now)
                    &&& user == final(self)@.users.last().user
                },
                (Err(_), Some(_)) => !old(self)@.takes_users() && final(self)@ == old(self)@,
                (Ok(None), None) => final(self)@ == old(self)@,
                _ => false,
            },
    {
        let hash = invite::hash(code);
        let at: usize = match self.find_invite(&hash) {
            Some(at) => at,
            None => return Ok(None),
        };
        let row = self.invites[at];
        if row.redeemed_by.is_some() || row.expires_at <= now {
            return Ok(None);
        }
        if !self.takes_users() {
            return Err(NoId);
        }
        let id = self.next_user_id();
        let user = User {
            id,
            pubkey: *pubkey,
            name: String::new(),
            avatar: None,
            role: row.role,
        };
        let ghost before = self@;
        self.users.push(UserRow { user: user.clone(), created_at: now });
        self.invites.set(
            at,
            InviteRow {
                secret_hash: row.secret_hash,
                role: row.role,
                expires_at: row.expires_at,
                redeemed_by: Some(id),
                redeemed_at: Some(now),
            },
        );
        proof {
            assert(self.users@.drop_last() =~= before.users);
            user_is_there(before.users, pubkey@);
            let after = self.users@;
            assert forall|i: int, j: int| 0 <= i < j < after.len() implies after[i].user.id.0
                < after[j].user.id.0 && after[i].user.pubkey@ != after[j].user.pubkey@ by {
                assert(after[i] == before.users[i]);
                if j < before.users.len() {
                    assert(after[j] == before.users[j]);
                } else if i < before.users.len() - 1 {
                    assert(before.users[i].user.id.0 < before.users.last().user.id.0);
                }
            }
            assert forall|i: int, j: int| 0 <= i < j < self.invites@.len() implies
                self.invites@[i].secret_hash@ != self.invites@[j].secret_hash@ by {
                assert(self.invites@[i].secret_hash@ == before.invites[i].secret_hash@);
                assert(self.invites@[j].secret_hash@ == before.invites[j].secret_hash@);
            }
        }
        Ok(Some(user))
    }

    /// Keeps an invite for a code, unless its hash is already kept.
    pub fn insert_code(&mut self, code: &str, role: Role, expires_at: u64) -> (inserted: bool)
        requires
            old(self)@.wf(),
        ensures
            final(self)@.wf(),
            inserted == (invite_at(old(self)@.invites, invite::hash_of(code@)) is None),
            inserted ==> is_minting(old(self)@, final(self)@, code@, role, expires_at),
            !inserted ==> final(self)@ == old(self)@,
    {
        let hash = invite::hash(code);
        if self.find_invite(&hash).is_some() {
            return false;
        }
        let ghost before = self.invites@;
        self.invites.push(
            InviteRow {
                secret_hash: hash,
                role,
                expires_at,
                redeemed_by: None,
                redeemed_at: None,
            },
        );
        proof {
            assert(self.invites@.drop_last() =~= before);
            invite_is_there(before, hash@);
            let after = self.invites@;
            assert forall|i: int, j: int| 0 <= i < j < after.len() implies after[i].secret_hash@
                != after[j].secret_hash@ by {
                assert(after[i] == before[i]);
                if j < before.len() {
                    assert(after[j] == before[j]);
                }
            }
        }
        true
    }

    /// Keeps an invite for the first of some codes that is not taken, which it gives
    /// back. A hash that is already kept belongs to a code somebody else holds, so
    /// that code is passed over rather than handed out twice.
    pub fn mint(&mut self, codes: &Vec<String>, role: Role, expires_at: u64) -> (code: Option<
        String,
    >)
        requires
            old(self)@.wf(),
        ensures
            final(self)@.wf(),
            is_minting_from(
                old(self)@,
                final(self)@,
                texts(codes@),
                role,
                expires_at,
                match code {
                    Some(code) => Some(code@),
                    None => None,
                },
            ),
    {
        let ghost all = texts(codes@);
        let mut i: usize = 0;
        while i < codes.len()
            invariant
                i <= codes@.len(),
                all == texts(codes@),
                self@ == old(self)@,
                self@.wf(),
                unused_at(self@.invites, all.take(i as int)) is None,
            decreases codes@.len() - i,
        {
            assert(all.take(i + 1).drop_last() =~= all.take(i as int));
            assert(all[i as int] == codes@[i as int]@);
            if self.insert_code(codes[i].as_str(), role, expires_at) {
                proof {
                    unused_stays_at(old(self)@.invites, all, i + 1);
                }
                return Some(codes[i].clone());
            }
            i += 1;
        }
        assert(all.take(i as int) =~= all);
        None
    }

    /// An invite under a fresh code, the first of a few drawn that nobody holds.
    pub fn create_invite(&mut self, role: Role, ttl_secs: u32, now: u64) -> (minted: Option<Invite>)
        requires
            old(self)@.wf(),
            now + ttl_secs <= u64::MAX,
        ensures
            final(self)@.wf(),
            is_creation(
                old(self)@,
                final(self)@,
                role,
                (now + ttl_secs) as u64,
                code_of(minted),
            ),
            minted matches Some(minted) ==> minted.expires_at == now + ttl_secs,
    {
        let expires_at: u64 = now + ttl_secs as u64;
        let mut codes: Vec<String> = Vec::new();
        let mut draws: u32 = 0;
        while draws < DRAWS
            invariant
                draws == codes@.len() <= DRAWS,
                forall|i: int| 0 <= i < codes@.len() ==> invite::is_code((#[trigger] codes@[i])@),
            decreases DRAWS - draws,
        {
            codes.push(invite::generate_code());
            draws += 1;
        }
        assert(are_drawn(texts(codes@)));
        match self.mint(&codes, role, expires_at) {
            Some(code) => Some(Invite { code, expires_at }),
            None => None,
        }
    }

    /// Drops every invite that nobody has redeemed.
    pub fn revoke_unredeemed(&mut self)
        requires
            old(self)@.wf(),
        ensures
            final(self)@.wf(),
            final(self)@ == (Records { invites: redeemed(old(self)@.invites), ..old(self)@ }),
    {
        let ghost before = self.invites@;
        let mut kept: Vec<InviteRow> = Vec::new();
        let mut i: usize = 0;
        while i < self.invites.len()
            invariant
                i <= self.invites@.len(),
                self@ == old(self)@,
                self.invites@ == before,
                kept@ == redeemed(before.take(i as int)),
            decreases before.len() - i,
        {
            assert(before.take(i + 1).drop_last() =~= before.take(i as int));
            if self.invites[i].redeemed_by.is_some() {
                kept.push(self.invites[i]);
            }
            i += 1;
        }
        assert(before.take(i as int) =~= before);
        self.invites = kept;
        proof {
            redeemed_stay_distinct(before);
        }
    }

    /// Every outstanding invite is invalidated and one is minted in its place. This
    /// is meaningful only while the allowlist is empty, where no invite can have come
    /// from a user.
    pub fn replace_invites(&mut self, role: Role, ttl_secs: u32, now: u64) -> (minted: Option<
        Invite,
    >)
        requires
            old(self)@.wf(),
            now + ttl_secs <= u64::MAX,
        ensures
            final(self)@.wf(),
            is_creation(
                (Records { invites: redeemed(old(self)@.invites), ..old(self)@ }),
                final(self)@,
                role,
                (now + ttl_secs) as u64,
                code_of(minted),
            ),
            minted matches Some(minted) ==> minted.expires_at == now + ttl_secs,
    {
        self.revoke_unredeemed();
        self.create_invite(role, ttl_secs, now)
    }

    /// Drops every invite that can no longer be redeemed, and counts them.
    pub fn prune_invites(&mut self, now: u64) -> (pruned: usize)
        requires
            old(self)@.wf(),
        ensures
            final(self)@.wf(),
            final(self)@ == (Records {
                invites: outstanding(old(self)@.invites, now),
                ..old(self)@
            }),
            pruned == old(self)@.invites.len() - final(self)@.invites.len(),
    {
        let ghost before = self.invites@;
        let mut kept: Vec<InviteRow> = Vec::new();
        let mut pruned: usize = 0;
        let mut i: usize = 0;
        while i < self.invites.len()
            invariant
                i <= self.invites@.len(),
                self@ == old(self)@,
                self.invites@ == before,
                kept@ == outstanding(before.take(i as int), now),
                pruned + kept@.len() == i,
            decreases before.len() - i,
        {
            assert(before.take(i + 1).drop_last() =~= before.take(i as int));
            let row = self.invites[i];
            if row.redeemed_by.is_none() && row.expires_at > now {
                kept.push(row);
            } else {
                pruned += 1;
            }
            i += 1;
        }
        assert(before.take(i as int) =~= before);
        self.invites = kept;
        proof {
            outstanding_stay_distinct(before, now);
        }
        pruned
    }

    fn find_room(&self, id: RoomId) -> (at: Option<usize>)
        ensures
            match (at, room_at(self@.rooms, id)) {
                (Some(at), Some(expected)) => {
                    at == expected && at < self@.rooms.len() && self@.rooms[at as int].id == id
                },
                (None, None) => true,
                _ => false,
            },
    {
        let ghost keys = room_ids(self.rooms@);
        let mut i: usize = 0;
        while i < self.rooms.len()
            invariant
                i <= self.rooms@.len(),
                keys == room_ids(self.rooms@),
                forall|j: int| 0 <= j < i ==> #[trigger] keys[j] != id,
            decreases self.rooms@.len() - i,
        {
            assert(keys[i as int] == self.rooms@[i as int].id);
            if self.rooms[i].id == id {
                proof {
                    keyed::the_first_is_the_place(keys, id, i as int);
                }
                return Some(i);
            }
            i += 1;
        }
        proof {
            keyed::a_place_is_the_first(keys, id);
        }
        None
    }

    /// Whether there is such a room.
    pub fn has_room(&self, id: RoomId) -> (has: bool)
        ensures
            has == (room_at(self@.rooms, id) is Some),
    {
        self.find_room(id).is_some()
    }

    /// A room's epoch, where there is such a room.
    pub fn room_epoch(&self, id: RoomId) -> (epoch: Option<Epoch>)
        ensures
            match room_at(self@.rooms, id) {
                Some(at) => epoch == Some(self@.rooms[at as int].epoch),
                None => epoch is None,
            },
    {
        match self.find_room(id) {
            Some(at) => Some(self.rooms[at].epoch),
            None => None,
        }
    }

    /// Every room, in the order of their ids.
    pub fn rooms(&self) -> (rooms: Vec<Room>)
        ensures
            rooms@ == self@.rooms,
    {
        let mut rooms: Vec<Room> = Vec::new();
        let mut i: usize = 0;
        while i < self.rooms.len()
            invariant
                i <= self.rooms@.len(),
                rooms@ == self.rooms@.take(i as int),
            decreases self.rooms@.len() - i,
        {
            rooms.push(self.rooms[i].clone());
            i += 1;
            assert(rooms@ =~= self.rooms@.take(i as int));
        }
        assert(self.rooms@.take(i as int) =~= self.rooms@);
        rooms
    }

    /// A room that nobody is in yet.
    pub fn create_room(&mut self, name: String) -> (room: Room)
        requires
            old(self)@.wf(),
            old(self)@.takes_rooms(),
        ensures
            final(self)@.wf(),
            room == (Room { id: next_room_id(old(self)@.rooms), name, epoch: Epoch(0) }),
            final(self)@ == (Records { rooms: old(self)@.rooms.push(room), ..old(self)@ }),
    {
        let count: usize = self.rooms.len();
        let id = RoomId(
            if count == 0 {
                1
            } else {
                self.rooms[count - 1].id.0 + 1
            },
        );
        let ghost before = self.rooms@;
        let room = Room { id, name, epoch: Epoch(0) };
        self.rooms.push(room.clone());
        proof {
            let after = self.rooms@;
            assert forall|i: int, j: int| 0 <= i < j < after.len() implies after[i].id.0
                < after[j].id.0 by {
                assert(after[i] == before[i]);
                if j < before.len() {
                    assert(after[j] == before[j]);
                } else if i < count - 1 {
                    assert(before[i].id.0 < before[count - 1].id.0);
                }
            }
        }
        room
    }

    /// Whether there was such a room to rename.
    pub fn rename_room(&mut self, id: RoomId, name: String) -> (renamed: bool)
        requires
            old(self)@.wf(),
        ensures
            final(self)@.wf(),
            match room_at(old(self)@.rooms, id) {
                Some(at) => renamed && final(self)@ == (Records {
                    rooms: old(self)@.rooms.update(
                        at as int,
                        (Room { name, ..old(self)@.rooms[at as int] }),
                    ),
                    ..old(self)@
                }),
                None => !renamed && final(self)@ == old(self)@,
            },
    {
        match self.find_room(id) {
            Some(at) => {
                let epoch = self.rooms[at].epoch;
                self.rooms.set(at, Room { id, name, epoch });
                true
            },
            None => false,
        }
    }

    /// Whether there was such a room to delete.
    pub fn delete_room(&mut self, id: RoomId) -> (deleted: bool)
        requires
            old(self)@.wf(),
        ensures
            final(self)@.wf(),
            match room_at(old(self)@.rooms, id) {
                Some(at) => deleted && final(self)@ == (Records {
                    rooms: old(self)@.rooms.remove(at as int),
                    ..old(self)@
                }),
                None => !deleted && final(self)@ == old(self)@,
            },
    {
        match self.find_room(id) {
            Some(at) => {
                let _ = self.rooms.remove(at);
                true
            },
            None => false,
        }
    }

    /// Moves a room on to its next epoch. A room that runs out of epochs cannot go
    /// on.
    pub fn bump_epoch(&mut self, id: RoomId) -> (epoch: Epoch)
        requires
            old(self)@.wf(),
            room_at(old(self)@.rooms, id) matches Some(at) && old(self)@.rooms[at as int].epoch.0
                < u32::MAX,
        ensures
            final(self)@.wf(),
            final(self)@ == (Records { rooms: bumped(old(self)@.rooms, id), ..old(self)@ }),
            room_at(old(self)@.rooms, id) matches Some(at) && epoch.0 == old(
                self,
            )@.rooms[at as int].epoch.0 + 1,
    {
        match self.find_room(id) {
            Some(at) => {
                let epoch = Epoch(self.rooms[at].epoch.0 + 1);
                let name = self.rooms[at].name.clone();
                self.rooms.set(at, Room { id, name, epoch });
                epoch
            },
            None => Epoch(0),
        }
    }

    /// The first of as many media ids as one placement takes, none of which was ever
    /// handed out before.
    pub fn allocate_media(&mut self) -> (first: u32)
        requires
            old(self)@.wf(),
            old(self)@.next_media_id + MEDIA_IDS_PER_PLACEMENT <= u32::MAX,
        ensures
            final(self)@.wf(),
            first == old(self)@.next_media_id,
            final(self)@ == (Records {
                next_media_id: (first + MEDIA_IDS_PER_PLACEMENT) as u32,
                ..old(self)@
            }),
    {
        let first: u32 = self.next_media_id;
        self.next_media_id = first + MEDIA_IDS_PER_PLACEMENT;
        first
    }

    /// Whether the media ids of one more placement are left.
    pub fn has_media(&self) -> (has: bool)
        ensures
            has == self@.has_media(),
    {
        self.next_media_id <= u32::MAX - MEDIA_IDS_PER_PLACEMENT
    }

    /// Who a key on the allowlist belongs to.
    pub fn user_id(&self, pubkey: &[u8; 32]) -> (id: Option<UserId>)
        ensures
            match user_at(self@.users, pubkey@) {
                Some(at) => id == Some(self@.users[at as int].user.id),
                None => id is None,
            },
    {
        match self.find_user(pubkey) {
            Some(at) => Some(self.users[at].user.id),
            None => None,
        }
    }

    /// Whether a code would enroll somebody.
    pub fn redeems(&self, code: &str, now: u64) -> (redeems: bool)
        ensures
            redeems == (redeemable_at(self@.invites, code@, now) is Some),
    {
        let hash = invite::hash(code);
        match self.find_invite(&hash) {
            Some(at) => {
                let row = self.invites[at];
                row.redeemed_by.is_none() && row.expires_at > now
            },
            None => false,
        }
    }

    /// The id the next user takes.
    pub fn next_user_id(&self) -> (id: UserId)
        requires
            self@.takes_users(),
        ensures
            id == next_user_id(self@.users),
    {
        let count: usize = self.users.len();
        UserId(
            if count == 0 {
                1
            } else {
                self.users[count - 1].user.id.0 + 1
            },
        )
    }

    /// Whether there is an id for one more user.
    pub fn takes_users(&self) -> (takes: bool)
        ensures
            takes == self@.takes_users(),
    {
        let count: usize = self.users.len();
        count == 0 || self.users[count - 1].user.id.0 < i64::MAX as u64
    }

    /// Whether there is an id for one more room.
    pub fn takes_rooms(&self) -> (takes: bool)
        ensures
            takes == self@.takes_rooms(),
    {
        let count: usize = self.rooms.len();
        count == 0 || self.rooms[count - 1].id.0 < i64::MAX as u64
    }

    /// A database out of stored rows, `None` where they are out of order or a key or
    /// a hash occurs twice.
    pub fn from_rows(
        users: Vec<UserRow>,
        invites: Vec<InviteRow>,
        rooms: Vec<Room>,
        next_media_id: u32,
    ) -> (database: Option<Database>)
        ensures
            ({
                let records = Records {
                    users: users@,
                    invites: invites@,
                    rooms: rooms@,
                    next_media_id,
                };
                match database {
                    Some(database) => records.wf() && database@ == records,
                    None => !records.wf(),
                }
            }),
    {
        let mut j: usize = 0;
        while j < users.len()
            invariant
                j <= users@.len(),
                users_in_order(users@.take(j as int)),
            decreases users@.len() - j,
        {
            let mut i: usize = 0;
            while i < j
                invariant
                    i <= j < users@.len(),
                    users_in_order(users@.take(j as int)),
                    forall|k: int|
                        0 <= k < i ==> (#[trigger] users@[k]).user.id.0 < users@[j as int].user.id.0
                            && users@[k].user.pubkey@ != users@[j as int].user.pubkey@,
                decreases j - i,
            {
                if users[i].user.id.0 >= users[j].user.id.0 || wire::same_bytes(
                    &users[i].user.pubkey,
                    &users[j].user.pubkey,
                ) {
                    return None;
                }
                i += 1;
            }
            proof {
                let more = users@.take(j + 1);
                assert forall|a: int, b: int| 0 <= a < b < more.len() implies more[a].user.id.0
                    < more[b].user.id.0 && more[a].user.pubkey@ != more[b].user.pubkey@ by {
                    assert(more[a] == users@[a]);
                    if b < j {
                        assert(more[a] == users@.take(j as int)[a]);
                        assert(more[b] == users@.take(j as int)[b]);
                    }
                }
            }
            j += 1;
        }
        assert(users@.take(j as int) =~= users@);
        let mut j: usize = 0;
        while j < invites.len()
            invariant
                j <= invites@.len(),
                distinct_hashes(invites@.take(j as int)),
            decreases invites@.len() - j,
        {
            let mut i: usize = 0;
            while i < j
                invariant
                    i <= j < invites@.len(),
                    distinct_hashes(invites@.take(j as int)),
                    forall|k: int|
                        0 <= k < i ==> (#[trigger] invites@[k]).secret_hash@
                            != invites@[j as int].secret_hash@,
                decreases j - i,
            {
                if wire::same_bytes(&invites[i].secret_hash, &invites[j].secret_hash) {
                    return None;
                }
                i += 1;
            }
            proof {
                let more = invites@.take(j + 1);
                assert forall|a: int, b: int| 0 <= a < b < more.len() implies more[a].secret_hash@
                    != more[b].secret_hash@ by {
                    assert(more[a] == invites@[a]);
                    if b < j {
                        assert(more[a] == invites@.take(j as int)[a]);
                        assert(more[b] == invites@.take(j as int)[b]);
                    }
                }
            }
            j += 1;
        }
        assert(invites@.take(j as int) =~= invites@);
        let mut j: usize = 1;
        while j < rooms.len()
            invariant
                1 <= j,
                rooms@.len() > 0 ==> j <= rooms@.len(),
                rooms@.len() > 0 ==> rooms_in_order(rooms@.take(j as int)),
            decreases rooms@.len() - j,
        {
            if rooms[j - 1].id.0 >= rooms[j].id.0 {
                return None;
            }
            proof {
                let more = rooms@.take(j + 1);
                let some = rooms@.take(j as int);
                assert forall|a: int, b: int| 0 <= a < b < more.len() implies more[a].id.0
                    < more[b].id.0 by {
                    assert(more[a] == some[a]);
                    if b < j {
                        assert(more[b] == some[b]);
                    } else if a < j - 1 {
                        assert(some[a].id.0 < some[j - 1].id.0);
                    }
                }
            }
            j += 1;
        }
        assert(rooms@.len() > 0 ==> rooms@.take(j as int) =~= rooms@);
        Some(Database { users, invites, rooms, next_media_id })
    }

    /// The rows of the allowlist.
    pub fn user_rows(&self) -> (rows: &Vec<UserRow>)
        ensures
            rows@ == self@.users,
    {
        &self.users
    }

    /// The rows of the invites.
    pub fn invite_rows(&self) -> (rows: &Vec<InviteRow>)
        ensures
            rows@ == self@.invites,
    {
        &self.invites
    }

    /// The first media id that was never handed out.
    pub fn next_media_id(&self) -> (next: u32)
        ensures
            next == self@.next_media_id,
    {
        self.next_media_id
    }
}

/// A room that is found stands where it is found, and one that is not stands
/// nowhere.
pub proof fn room_is_there(rooms: Seq<Room>, id: RoomId)
    ensures
        match room_at(rooms, id) {
            Some(at) => at < rooms.len() && rooms[at as int].id == id,
            None => forall|i: int| 0 <= i < rooms.len() ==> (#[trigger] rooms[i]).id != id,
        },
{
    let keys = room_ids(rooms);
    keyed::a_place_is_the_first(keys, id);
    assert forall|i: int| 0 <= i < rooms.len() implies (#[trigger] rooms[i]).id == keys[i] by {}
}

proof fn redeemed_stay_distinct(invites: Seq<InviteRow>)
    requires
        distinct_hashes(invites),
    ensures
        distinct_hashes(redeemed(invites)),
        forall|i: int|
            0 <= i < redeemed(invites).len() ==> invites.contains(#[trigger] redeemed(invites)[i]),
    decreases invites.len(),
{
    if invites.len() > 0 {
        let before = invites.drop_last();
        assert(distinct_hashes(before)) by {
            assert(forall|i: int| 0 <= i < before.len() ==> before[i] == #[trigger] invites[i]);
        }
        redeemed_stay_distinct(before);
        one_more_stays_distinct(invites, redeemed(before));
    }
}

proof fn outstanding_stay_distinct(invites: Seq<InviteRow>, now: u64)
    requires
        distinct_hashes(invites),
    ensures
        distinct_hashes(outstanding(invites, now)),
        forall|i: int|
            0 <= i < outstanding(invites, now).len() ==> invites.contains(
                #[trigger] outstanding(invites, now)[i],
            ),
    decreases invites.len(),
{
    if invites.len() > 0 {
        let before = invites.drop_last();
        assert(distinct_hashes(before)) by {
            assert(forall|i: int| 0 <= i < before.len() ==> before[i] == #[trigger] invites[i]);
        }
        outstanding_stay_distinct(before, now);
        one_more_stays_distinct(invites, outstanding(before, now));
    }
}

proof fn one_more_stays_distinct(invites: Seq<InviteRow>, kept: Seq<InviteRow>)
    requires
        invites.len() > 0,
        distinct_hashes(invites),
        distinct_hashes(kept),
        forall|i: int| 0 <= i < kept.len() ==> invites.drop_last().contains(#[trigger] kept[i]),
    ensures
        distinct_hashes(kept.push(invites.last())),
        forall|i: int| 0 <= i < kept.len() ==> invites.contains(#[trigger] kept[i]),
        invites.contains(invites.last()),
        forall|i: int|
            0 <= i < kept.push(invites.last()).len() ==> invites.contains(
                #[trigger] kept.push(invites.last())[i],
            ),
{
    let before = invites.drop_last();
    assert(invites[invites.len() - 1] == invites.last());
    assert forall|i: int| 0 <= i < kept.len() implies invites.contains(#[trigger] kept[i])
        && kept[i].secret_hash@ != invites.last().secret_hash@ by {
        let k = choose|k: int| 0 <= k < before.len() && before[k] == kept[i];
        assert(invites[k] == kept[i]);
    }
}

/// A stored row that does not hold a user.
#[derive(Debug)]
pub enum RowError {
    /// A blob of the wrong length.
    Blob(String),
    /// A rank without a role.
    Rank(u8),
}

/// What is said of a blob of the wrong length.
pub open spec fn blob_message(column: Seq<char>, found: nat) -> Seq<char> {
    column + " is "@ + text::decimal(found) + " bytes, expected "@ + text::decimal(32)
}

/// A blob of a fixed length.
pub fn fixed_blob(bytes: &Vec<u8>, column: &str) -> (blob: Result<[u8; 32], RowError>)
    ensures
        match blob {
            Ok(blob) => blob@ == bytes@,
            Err(error) => bytes@.len() != 32 && is_blob_error(error, column@, bytes@.len()),
        },
{
    if bytes.len() != 32 {
        let mut message = column.to_string();
        message.append(" is ");
        message.append(text::decimal_string(bytes.len() as u64).as_str());
        message.append(" bytes, expected ");
        message.append(text::decimal_string(32).as_str());
        return Err(RowError::Blob(message));
    }
    let mut blob = [0u8; 32];
    let mut i: usize = 0;
    while i < 32
        invariant
            i <= 32,
            bytes@.len() == 32,
            forall|j: int| 0 <= j < i ==> blob@[j] == bytes@[j],
        decreases 32 - i,
    {
        blob[i] = bytes[i];
        i += 1;
    }
    assert(blob@ =~= bytes@);
    Ok(blob)
}

pub open spec fn is_blob_error(error: RowError, column: Seq<char>, found: nat) -> bool {
    error matches RowError::Blob(message) && message@ == blob_message(column, found)
}

/// A user out of the columns of a stored row. Of several faults the key's is
/// reported first, then the avatar's, then the rank's.
pub fn user_from_row(
    id: u64,
    pubkey: &Vec<u8>,
    name: String,
    avatar_hash: &Option<Vec<u8>>,
    rank: u8,
) -> (user: Result<User, RowError>)
    ensures
        match user {
            Ok(user) => {
                &&& user.id.0 == id
                &&& user.pubkey@ == pubkey@
                &&& user.name == name
                &&& match (user.avatar, *avatar_hash) {
                    (Some(avatar), Some(bytes)) => avatar@ == bytes@,
                    (None, None) => true,
                    _ => false,
                }
                &&& user.role.ranked() == rank
            },
            Err(error) => if pubkey@.len() != 32 {
                is_blob_error(error, "pubkey"@, pubkey@.len())
            } else if avatar_hash is Some && avatar_hash->0@.len() != 32 {
                is_blob_error(error, "avatar_hash"@, avatar_hash->0@.len())
            } else {
                rank > 2 && error == RowError::Rank(rank)
            },
        },
{
    let pubkey = match fixed_blob(pubkey, "pubkey") {
        Ok(pubkey) => pubkey,
        Err(error) => return Err(error),
    };
    let avatar = match avatar_hash {
        None => None,
        Some(bytes) => match fixed_blob(bytes, "avatar_hash") {
            Ok(avatar) => Some(avatar),
            Err(error) => return Err(error),
        },
    };
    match Role::from_rank(rank) {
        Some(role) => Ok(User { id: UserId(id), pubkey, name, avatar, role }),
        None => Err(RowError::Rank(rank)),
    }
}

/// A code enrolls once: whoever redeemed it, it never enrolls anybody again.
pub proof fn a_code_enrolls_once(
    before: Records,
    after: Records,
    pubkey: Seq<u8>,
    code: Seq<char>,
    now: u64,
    later: u64,
)
    requires
        before.wf(),
        redeemable_at(before.invites, code, now) is Some,
        is_enrollment(
            before,
            after,
            pubkey,
            redeemable_at(before.invites, code, now)->0,
            now,
        ),
    ensures
        redeemable_at(after.invites, code, later) is None,
{
    let at = redeemable_at(before.invites, code, now)->0;
    invite_is_there(before.invites, invite::hash_of(code));
    assert(hashes(after.invites) =~= hashes(before.invites));
}

/// An expired code enrolls nobody, whatever else there is to it.
pub proof fn an_expired_code_enrolls_nobody(invites: Seq<InviteRow>, code: Seq<char>, now: u64)
    requires
        invite_at(invites, invite::hash_of(code)) matches Some(at) && invites[at as int].expires_at
            <= now,
    ensures
        redeemable_at(invites, code, now) is None,
{
}

/// A code just minted enrolls, until it expires, with the role it was minted for.
pub proof fn a_minted_code_enrolls(
    before: Records,
    after: Records,
    code: Seq<char>,
    role: Role,
    expires_at: u64,
    now: u64,
)
    requires
        is_minting(before, after, code, role, expires_at),
        now < expires_at,
    ensures
        redeemable_at(after.invites, code, now) == Some(before.invites.len()),
        after.invites[before.invites.len() as int].role == role,
{
    assert(after.invites =~= before.invites.push(after.invites.last()));
    one_more_invite(before.invites, after.invites.last(), invite::hash_of(code));
}

proof fn unused_stays_at(invites: Seq<InviteRow>, codes: Seq<Seq<char>>, upto: int)
    requires
        0 <= upto <= codes.len(),
        unused_at(invites, codes.take(upto)) is Some,
    ensures
        unused_at(invites, codes) == unused_at(invites, codes.take(upto)),
    decreases codes.len(),
{
    if upto < codes.len() {
        assert(codes.drop_last().take(upto) =~= codes.take(upto));
        unused_stays_at(invites, codes.drop_last(), upto);
    } else {
        assert(codes.take(upto) =~= codes);
    }
}

/// The code that is minted is the first that is not taken, and minting fails only
/// where each is taken.
pub proof fn the_first_unused_code_is_minted(invites: Seq<InviteRow>, codes: Seq<Seq<char>>)
    ensures
        match unused_at(invites, codes) {
            Some(at) => {
                &&& at < codes.len()
                &&& !is_taken(invites, codes[at as int])
                &&& forall|i: int| 0 <= i < at ==> is_taken(invites, #[trigger] codes[i])
            },
            None => forall|i: int| 0 <= i < codes.len() ==> is_taken(invites, #[trigger] codes[i]),
        },
    decreases codes.len(),
{
    if codes.len() > 0 {
        let before = codes.drop_last();
        the_first_unused_code_is_minted(invites, before);
        assert forall|i: int| 0 <= i < before.len() implies before[i] == #[trigger] codes[i] by {}
    }
}

/// Whatever is minted from codes just drawn is a code.
pub proof fn what_is_created_is_a_code(
    before: Records,
    after: Records,
    role: Role,
    expires_at: u64,
    code: Seq<char>,
)
    requires
        is_creation(before, after, role, expires_at, Some(code)),
    ensures
        invite::is_code(code),
        is_minting(before, after, code, role, expires_at),
{
    let codes = choose|codes: Seq<Seq<char>>|
        are_drawn(codes) && #[trigger] is_minting_from(
            before,
            after,
            codes,
            role,
            expires_at,
            Some(code),
        );
    the_first_unused_code_is_minted(before.invites, codes);
}

/// Where no invite is kept, no code is taken: minting then succeeds.
pub proof fn minting_succeeds_where_nothing_is_kept(
    before: Records,
    after: Records,
    role: Role,
    expires_at: u64,
    code: Option<Seq<char>>,
)
    requires
        before.invites.len() == 0,
        is_creation(before, after, role, expires_at, code),
    ensures
        code is Some,
{
    let codes = choose|codes: Seq<Seq<char>>|
        are_drawn(codes) && #[trigger] is_minting_from(
            before,
            after,
            codes,
            role,
            expires_at,
            code,
        );
    the_first_unused_code_is_minted(before.invites, codes);
    assert(invite::is_code(codes[0]));
    if is_taken(before.invites, codes[0]) {
        invite_is_there(before.invites, invite::hash_of(codes[0]));
    }
}

/// Minting another code leaves every code as it was.
pub proof fn minting_disturbs_no_other_code(
    before: Records,
    after: Records,
    code: Seq<char>,
    role: Role,
    expires_at: u64,
    other: Seq<char>,
    now: u64,
)
    requires
        is_minting(before, after, code, role, expires_at),
        redeemable_at(before.invites, other, now) is Some,
    ensures
        redeemable_at(after.invites, other, now) == redeemable_at(before.invites, other, now),
{
    invite_is_there(before.invites, invite::hash_of(other));
    assert(after.invites =~= before.invites.push(after.invites.last()));
    one_more_invite(before.invites, after.invites.last(), invite::hash_of(other));
}

/// Whoever asks to be let in, nobody on the allowlist loses a place or an id: a
/// user id belongs to its key for good.
pub proof fn nobody_loses_their_id(
    before: Records,
    after: Records,
    pubkey: Seq<u8>,
    code: Option<Seq<char>>,
    now: u64,
    admission: Result<Admission, NoId>,
    other: Seq<u8>,
)
    requires
        is_admission(before, after, pubkey, code, now, admission),
        user_at(before.users, other) is Some,
    ensures
        user_at(after.users, other) == user_at(before.users, other),
        after.users[user_at(before.users, other)->0 as int].user
            == before.users[user_at(before.users, other)->0 as int].user,
{
    user_is_there(before.users, other);
    let at = user_at(before.users, other)->0 as int;
    if after != before {
        assert(after.users =~= before.users.push(after.users.last()));
        one_more_user(before.users, after.users.last(), other);
        assert(after.users.drop_last()[at] == after.users[at]);
    }
}

/// An enrolled key is on the allowlist from then on, and is let in without a code.
pub proof fn an_enrolled_key_returns_without_a_code(
    before: Records,
    after: Records,
    pubkey: Seq<u8>,
    at: nat,
    now: u64,
    again: Records,
    later: u64,
    admission: Result<Admission, NoId>,
)
    requires
        user_at(before.users, pubkey) is None,
        is_enrollment(before, after, pubkey, at, now),
        is_admission(after, again, pubkey, None, later, admission),
    ensures
        again == after,
        admission matches Ok(Admission::Admitted { user, users, enrolled }) && user
            == after.users.last().user && !enrolled,
{
    assert(after.users =~= before.users.push(after.users.last()));
    one_more_user(before.users, after.users.last(), pubkey);
}

/// Pruning takes nothing away that would still have enrolled somebody.
pub proof fn pruning_keeps_what_enrolls(
    invites: Seq<InviteRow>,
    code: Seq<char>,
    now: u64,
    later: u64,
)
    requires
        distinct_hashes(invites),
        now <= later,
    ensures
        redeemable_at(outstanding(invites, now), code, later) is Some == redeemable_at(
            invites,
            code,
            later,
        ) is Some,
    decreases invites.len(),
{
    if invites.len() > 0 {
        let hash = invite::hash_of(code);
        let before = invites.drop_last();
        let last = invites.last();
        assert(distinct_hashes(before)) by {
            assert(forall|i: int| 0 <= i < before.len() ==> before[i] == #[trigger] invites[i]);
        }
        pruning_keeps_what_enrolls(before, code, now, later);
        invite_is_there(before, hash);
        invite_is_there(outstanding(before, now), hash);
        outstanding_stay_distinct(before, now);
        assert(invites =~= before.push(last));
        one_more_invite(before, last, hash);
        if is_redeemable(last, now) {
            one_more_invite(outstanding(before, now), last, hash);
        }
        if let Some(at) = invite_at(before, hash) {
            assert(invites[at as int] == before[at as int]);
            assert(last.secret_hash@ != hash) by {
                assert(invites[at as int].secret_hash@ != invites[invites.len() - 1].secret_hash@);
            }
        }
        if let Some(at) = invite_at(outstanding(before, now), hash) {
            assert(before.contains(outstanding(before, now)[at as int]));
        }
    }
}

/// Revoking leaves no code that enrolls.
pub proof fn revoking_leaves_nothing_to_redeem(
    invites: Seq<InviteRow>,
    code: Seq<char>,
    now: u64,
)
    ensures
        redeemable_at(redeemed(invites), code, now) is None,
{
    invite_is_there(redeemed(invites), invite::hash_of(code));
    redeemed_are_redeemed(invites);
}

proof fn redeemed_are_redeemed(invites: Seq<InviteRow>)
    ensures
        forall|i: int|
            0 <= i < redeemed(invites).len() ==> (
            #[trigger] redeemed(invites)[i]).redeemed_by is Some,
    decreases invites.len(),
{
    if invites.len() > 0 {
        redeemed_are_redeemed(invites.drop_last());
    }
}

proof fn invite_is_there(invites: Seq<InviteRow>, hash: Seq<u8>)
    ensures
        match invite_at(invites, hash) {
            Some(at) => at < invites.len() && invites[at as int].secret_hash@ == hash,
            None => forall|i: int|
                0 <= i < invites.len() ==> (#[trigger] invites[i]).secret_hash@ != hash,
        },
{
    let keys = hashes(invites);
    keyed::a_place_is_the_first(keys, hash);
    assert forall|i: int| 0 <= i < invites.len() implies (#[trigger] invites[i]).secret_hash@
        == keys[i] by {}
}

/// A key that is found stands where it is found. One that is not found stands nowhere.
pub proof fn user_is_there(users: Seq<UserRow>, pubkey: Seq<u8>)
    ensures
        match user_at(users, pubkey) {
            Some(at) => at < users.len() && users[at as int].user.pubkey@ == pubkey,
            None => forall|i: int|
                0 <= i < users.len() ==> (#[trigger] users[i]).user.pubkey@ != pubkey,
        },
{
    let keys = pubkeys(users);
    keyed::a_place_is_the_first(keys, pubkey);
    assert forall|i: int| 0 <= i < users.len() implies (#[trigger] users[i]).user.pubkey@
        == keys[i] by {}
}

/// An invite more is found where it was put, unless its hash was kept before.
proof fn one_more_invite(invites: Seq<InviteRow>, newest: InviteRow, hash: Seq<u8>)
    ensures
        invite_at(invites.push(newest), hash) == match invite_at(invites, hash) {
            Some(at) => Some(at),
            None => if newest.secret_hash@ == hash {
                Some(invites.len())
            } else {
                None
            },
        },
{
    assert(hashes(invites.push(newest)) =~= hashes(invites).push(newest.secret_hash@));
    keyed::one_more_key(hashes(invites), newest.secret_hash@, hash);
}

/// A user more is found where it was put, unless its key was enrolled before.
proof fn one_more_user(users: Seq<UserRow>, newest: UserRow, pubkey: Seq<u8>)
    ensures
        user_at(users.push(newest), pubkey) == match user_at(users, pubkey) {
            Some(at) => Some(at),
            None => if newest.user.pubkey@ == pubkey {
                Some(users.len())
            } else {
                None
            },
        },
{
    assert(pubkeys(users.push(newest)) =~= pubkeys(users).push(newest.user.pubkey@));
    keyed::one_more_key(pubkeys(users), newest.user.pubkey@, pubkey);
}

/// A code enrolls exactly if an invite is kept under its hash that nobody has redeemed
/// and that expires later than now, and it is that invite that it redeems.
pub proof fn a_code_enrolls_while_it_is_live(
    invites: Seq<InviteRow>,
    code: Seq<char>,
    now: u64,
    i: int,
)
    requires
        distinct_hashes(invites),
        0 <= i < invites.len(),
        invites[i].secret_hash@ == invite::hash_of(code),
    ensures
        redeemable_at(invites, code, now) == if invites[i].redeemed_by is None && now
            < invites[i].expires_at {
            Some(i as nat)
        } else {
            None
        },
{
    let hash = invite::hash_of(code);
    invite_is_there(invites, hash);
    let at = invite_at(invites, hash)->0 as int;
    if at < i {
        assert(invites[at].secret_hash@ != invites[i].secret_hash@);
    } else if i < at {
        assert(invites[i].secret_hash@ != invites[at].secret_hash@);
    }
}

/// A code that no invite is kept for enrolls nobody.
pub proof fn a_code_that_is_not_kept_enrolls_nobody(
    invites: Seq<InviteRow>,
    code: Seq<char>,
    now: u64,
)
    requires
        forall|i: int|
            0 <= i < invites.len() ==> (#[trigger] invites[i]).secret_hash@ != invite::hash_of(
                code,
            ),
    ensures
        redeemable_at(invites, code, now) is None,
{
    invite_is_there(invites, invite::hash_of(code));
}

/// A minted code enrolls until its time and not from then on. Nothing else that is
/// kept changes with it.
pub proof fn a_minted_code_lives_until_its_time(
    before: Records,
    after: Records,
    code: Seq<char>,
    role: Role,
    expires_at: u64,
    now: u64,
    i: int,
)
    requires
        before.wf(),
        is_minting(before, after, code, role, expires_at),
    ensures
        redeemable_at(after.invites, code, now) is Some <==> now < expires_at,
        0 <= i < before.invites.len() ==> after.invites[i] == before.invites[i],
        after.invites.len() == before.invites.len() + 1,
        after.users == before.users,
        after.rooms == before.rooms,
        after.next_media_id == before.next_media_id,
{
    assert(after.invites =~= before.invites.push(after.invites.last()));
    one_more_invite(before.invites, after.invites.last(), invite::hash_of(code));
    if 0 <= i < before.invites.len() {
        assert(after.invites.drop_last()[i] == after.invites[i]);
    }
}

/// Whoever redeems an invite becomes a user with the key they presented, the role the
/// invite was minted for, no name yet, and an id above every id there was. The invite
/// stays on record as redeemed by them, and no other row changes.
pub proof fn an_enrolled_user_is_who_was_invited(
    before: Records,
    after: Records,
    pubkey: Seq<u8>,
    at: nat,
    now: u64,
    i: int,
    j: int,
)
    requires
        before.wf(),
        before.takes_users(),
        is_enrollment(before, after, pubkey, at, now),
        at < before.invites.len(),
        0 <= i < before.users.len(),
        0 <= j < before.invites.len(),
    ensures
        ({
            let row = after.users[before.users.len() as int];
            &&& after.users.len() == before.users.len() + 1
            &&& after.users[i] == before.users[i]
            &&& row.user.pubkey@ == pubkey
            &&& row.user.role == before.invites[at as int].role
            &&& row.user.name@.len() == 0
            &&& row.user.avatar is None
            &&& row.user.id.0 > before.users[i].user.id.0
            &&& row.created_at == now
            &&& after.invites.len() == before.invites.len()
            &&& after.invites[j].secret_hash == before.invites[j].secret_hash
            &&& after.invites[j].role == before.invites[j].role
            &&& after.invites[j].expires_at == before.invites[j].expires_at
            &&& after.invites[j].redeemed_by == if j == at {
                Some(row.user.id)
            } else {
                before.invites[j].redeemed_by
            }
            &&& after.invites[j].redeemed_at == if j == at {
                Some(now)
            } else {
                before.invites[j].redeemed_at
            }
            &&& after.rooms == before.rooms
            &&& after.next_media_id == before.next_media_id
        }),
{
    assert(after.users.drop_last()[i] == after.users[i]);
    let last = before.users.len() - 1;
    if i < last {
        assert(before.users[i].user.id.0 < before.users[last].user.id.0);
    }
}

/// A key on the allowlist is admitted as itself, and spends no code. One that is not is
/// turned away without a code, and with a code that enrolls nobody. Neither changes
/// anything.
pub proof fn only_a_live_code_changes_the_allowlist(
    before: Records,
    after: Records,
    pubkey: Seq<u8>,
    code: Option<Seq<char>>,
    now: u64,
    admission: Result<Admission, NoId>,
    i: int,
)
    requires
        before.wf(),
        is_admission(before, after, pubkey, code, now, admission),
    ensures
        0 <= i < before.users.len() && before.users[i].user.pubkey@ == pubkey ==> after == before
            && (admission matches Ok(Admission::Admitted { user, users, enrolled }) && user
            == before.users[i].user && !enrolled && users@.len() == before.users.len()
            && users@[i] == before.users[i].user),
        (forall|k: int|
            0 <= k < before.users.len() ==> (#[trigger] before.users[k]).user.pubkey@ != pubkey)
            ==> {
            &&& code is None ==> after == before && (admission matches Ok(Admission::NotAllowlisted))
            &&& code is Some && redeemable_at(before.invites, code->0, now) is None ==> after
                == before && (admission matches Ok(Admission::InviteRefused))
            &&& code is Some && redeemable_at(before.invites, code->0, now) is Some
                && before.takes_users() ==> (admission matches Ok(
                Admission::Admitted { user, users, enrolled },
            ) && enrolled && user.pubkey@ == pubkey && users@.len() == before.users.len() + 1
                && users@[before.users.len() as int] == user)
        },
{
    user_is_there(before.users, pubkey);
    if let Some(at) = user_at(before.users, pubkey) {
        let at = at as int;
        if 0 <= i < at {
            assert(before.users[i].user.pubkey@ != before.users[at].user.pubkey@);
        } else if at < i < before.users.len() {
            assert(before.users[at].user.pubkey@ != before.users[i].user.pubkey@);
        }
        assert(before.users[at].user.pubkey@ == pubkey);
    }
}

/// Pruning drops exactly the invites that can no longer enroll anybody: those redeemed,
/// and those whose time has come. Revoking drops exactly those that nobody redeemed.
/// What is kept stays in order.
pub proof fn pruning_and_revoking_keep_what_they_should(invites: Seq<InviteRow>, now: u64)
    ensures
        outstanding(invites, now) == invites.filter(
            |row: InviteRow| row.redeemed_by is None && now < row.expires_at,
        ),
        redeemed(invites) == invites.filter(|row: InviteRow| row.redeemed_by is Some),
    decreases invites.len(),
{
    reveal(Seq::filter);
    if invites.len() > 0 {
        pruning_and_revoking_keep_what_they_should(invites.drop_last(), now);
    } else {
        let live = |row: InviteRow| row.redeemed_by is None && now < row.expires_at;
        let spent = |row: InviteRow| row.redeemed_by is Some;
        assert(invites.filter(live) =~= Seq::empty());
        assert(invites.filter(spent) =~= Seq::empty());
    }
}

/// A new id is above every id in use, so that no two users share one, nor two rooms.
pub proof fn a_new_id_is_above_all(records: Records, i: int, j: int)
    requires
        records.wf(),
        0 <= i < records.users.len(),
        0 <= j < records.rooms.len(),
    ensures
        records.takes_users() ==> next_user_id(records.users).0 > records.users[i].user.id.0,
        records.takes_rooms() ==> next_room_id(records.rooms).0 > records.rooms[j].id.0,
{
    let (u, r) = (records.users.len() - 1, records.rooms.len() - 1);
    if i < u {
        assert(records.users[i].user.id.0 < records.users[u].user.id.0);
    }
    if j < r {
        assert(records.rooms[j].id.0 < records.rooms[r].id.0);
    }
}

/// There is an id to give as long as the last one is below the highest that a database
/// holds, and media ids as long as three are left.
pub proof fn ids_last_until_the_highest(records: Records)
    ensures
        records.users.len() == 0 ==> records.takes_users(),
        records.rooms.len() == 0 ==> records.takes_rooms(),
        records.users.len() > 0 ==> (records.takes_users() <==> records.users[records.users.len()
            - 1].user.id.0 < 0x7fff_ffff_ffff_ffff),
        records.rooms.len() > 0 ==> (records.takes_rooms() <==> records.rooms[records.rooms.len()
            - 1].id.0 < 0x7fff_ffff_ffff_ffff),
        records.has_media() <==> records.next_media_id <= 0xffff_fffc,
{
}

/// Moving a room on raises its epoch by one and changes nothing else: no other room, no
/// id and no name.
pub proof fn moving_a_room_on_changes_its_epoch_alone(rooms: Seq<Room>, id: RoomId, i: int)
    requires
        rooms_in_order(rooms),
        0 <= i < rooms.len(),
        rooms[i].epoch.0 < u32::MAX,
    ensures
        bumped(rooms, id).len() == rooms.len(),
        bumped(rooms, id)[i].id == rooms[i].id,
        bumped(rooms, id)[i].name == rooms[i].name,
        bumped(rooms, id)[i].epoch.0 == rooms[i].epoch.0 + if rooms[i].id == id {
            1int
        } else {
            0int
        },
{
    room_is_there(rooms, id);
    if let Some(at) = room_at(rooms, id) {
        let at = at as int;
        if i < at {
            assert(rooms[i].id.0 < rooms[at].id.0);
        } else if at < i {
            assert(rooms[at].id.0 < rooms[i].id.0);
        }
    }
}

/// The roster is every user, in the order of the rows.
pub proof fn the_roster_is_everyone(users: Seq<UserRow>, i: int)
    requires
        0 <= i < users.len(),
    ensures
        roster(users).len() == users.len(),
        roster(users)[i] == users[i].user,
{
}

/// Ids count up from one, without a gap behind the last.
pub proof fn ids_count_up_from_one(users: Seq<UserRow>, rooms: Seq<Room>)
    requires
        users.len() > 0 ==> users[users.len() - 1].user.id.0 < u64::MAX,
        rooms.len() > 0 ==> rooms[rooms.len() - 1].id.0 < u64::MAX,
    ensures
        next_user_id(users).0 == 1 + if users.len() == 0 {
            0int
        } else {
            users[users.len() - 1].user.id.0 as int
        },
        next_room_id(rooms).0 == 1 + if rooms.len() == 0 {
            0int
        } else {
            rooms[rooms.len() - 1].id.0 as int
        },
{
}

/// Minting is given up only once eight codes have been drawn and each was kept already.
pub proof fn minting_is_given_up_after_eight(
    before: Records,
    after: Records,
    role: Role,
    expires_at: u64,
) -> (codes: Seq<Seq<char>>)
    requires
        is_creation(before, after, role, expires_at, None),
    ensures
        after == before,
        codes.len() == 8,
        forall|i: int| 0 <= i < 8 ==> is_taken(before.invites, #[trigger] codes[i]),
{
    let codes = choose|codes: Seq<Seq<char>>|
        are_drawn(codes) && #[trigger] is_minting_from(
            before,
            after,
            codes,
            role,
            expires_at,
            None,
        );
    the_first_unused_code_is_minted(before.invites, codes);
    codes
}

/// A column of the wrong length is reported by name, with the length it has.
pub proof fn a_wrong_column_is_named(error: RowError, column: Seq<char>, found: nat)
    requires
        is_blob_error(error, column, found),
    ensures
        error matches RowError::Blob(message) && message@ == column + " is "@ + text::decimal(found)
            + " bytes, expected "@ + text::decimal(32),
{
}

} // verus!
