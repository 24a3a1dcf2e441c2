//! Who is let in.

use vstd::prelude::*;

use crate::crypto;
use crate::proto::auth::{signing_input, EXPORTER_BYTES, NONCE_BYTES};
use crate::proto::ids::Epoch;
use crate::proto::msg::{Auth, AuthErr, InitialState, Placed, User};
use crate::server::database::{self, Admission, NoId, Records};
use crate::server::invite::{
    Failures, PeerAddress, FAILURES_PER_ADDRESS, SERVER_WIDE_FAILURE_BUDGET,
};
use crate::server::state::{State, World};

verus! {

pub enum Decision {
    Admitted { user: User, initial_state: Box<InitialState> },
    Refused(AuthErr),
}

/// Whether a client proved that it holds its key, over this nonce and this
/// connection.
pub open spec fn is_proven(auth: Auth, server_nonce: Seq<u8>, exporter: Seq<u8>) -> bool {
    crypto::ed25519_verifies(
        auth.pubkey@,
        crate::proto::auth::signed_bytes(server_nonce, auth.client_nonce@, exporter),
        auth.sig@,
    )
}

/// The code presented, if any.
pub open spec fn code_of(auth: Auth) -> Option<Seq<char>> {
    match auth.invite_code {
        Some(code) => Some(code@),
        None => None,
    }
}

/// Whether a client is told all there is to know before it has entered anywhere:
/// who it is, everyone else, every room, and that it is in none of them.
pub open spec fn is_welcome(records: Records, user: User, initial: InitialState) -> bool {
    &&& initial.me == user.id
    &&& initial.role == user.role
    &&& initial.users@ == database::roster(records.users)
    &&& initial.rooms@ == records.rooms
    &&& initial.placed.room is None
    &&& initial.placed.epoch == Epoch(0)
    &&& initial.placed.tracks is None
    &&& initial.placed.peers@.len() == 0
}

/// Whether a decision is the one that a client, having proven its key or not, is
/// owed, and `after` is what it leaves of `before`. It fails only where a new user
/// would have to be given an id and none is left.
pub open spec fn is_decision(
    before: World,
    after: World,
    auth: Auth,
    proven: bool,
    peer: PeerAddress,
    now: u64,
    decision: Result<Decision, NoId>,
) -> bool {
    if !proven {
        after == before && is_refusal(decision, AuthErr::BadSig)
    } else if auth.invite_code is Some && !before.failures.permits(peer) {
        after == before && is_refusal(decision, AuthErr::BadInvite)
    } else {
        match database::user_at(before.records.users, auth.pubkey@) {
            Some(at) => {
                &&& after == before
                &&& decision matches Ok(Decision::Admitted { user, initial_state }) && user
                    == before.records.users[at as int].user && is_welcome(
                    before.records,
                    user,
                    *initial_state,
                )
            },
            None => match code_of(auth) {
                None => after == before && is_refusal(decision, AuthErr::UnknownKey),
                Some(code) => match database::redeemable_at(before.records.invites, code, now) {
                    None => {
                        &&& after == (World { failures: before.failures.recorded(peer), ..before })
                        &&& is_refusal(decision, AuthErr::BadInvite)
                    },
                    Some(at) => if before.records.takes_users() {
                        &&& after == (World { records: after.records, ..before })
                        &&& database::is_enrollment(
                            before.records,
                            after.records,
                            auth.pubkey@,
                            at,
                            now,
                        )
                        &&& decision matches Ok(Decision::Admitted { user, initial_state }) && user
                            == after.records.users.last().user && is_welcome(
                            after.records,
                            user,
                            *initial_state,
                        )
                    } else {
                        after == before && decision is Err
                    },
                },
            },
        }
    }
}

/// Whether a decision turns a client away for one reason.
pub open spec fn is_refusal(decision: Result<Decision, NoId>, reason: AuthErr) -> bool {
    decision matches Ok(Decision::Refused(error)) && error == reason
}

/// The signature is checked before the database is touched. The key is then
/// matched against the allowlist, or the invite presented with it is redeemed.
pub fn decide(
    state: &mut State,
    auth: &Auth,
    server_nonce: &[u8; NONCE_BYTES],
    exporter: &[u8; EXPORTER_BYTES],
    peer: PeerAddress,
    now: u64,
) -> (decision: Result<Decision, NoId>)
    requires
        old(state).wf(),
    ensures
        final(state).wf(),
        is_decision(
            old(state)@,
            final(state)@,
            *auth,
            is_proven(*auth, server_nonce@, exporter@),
            peer,
            now,
            decision,
        ),
{
    let proven = signature_is_valid(auth, server_nonce, exporter);
    judge(state, auth, proven, peer, now)
}

/// What a client is owed that has proven its key, or has not.
pub fn judge(state: &mut State, auth: &Auth, proven: bool, peer: PeerAddress, now: u64) -> (decision:
    Result<Decision, NoId>)
    requires
        old(state).wf(),
    ensures
        final(state).wf(),
        is_decision(old(state)@, final(state)@, *auth, proven, peer, now, decision),
{
    if !proven {
        return Ok(Decision::Refused(AuthErr::BadSig));
    }
    let invite_code = match &auth.invite_code {
        Some(code) => Some(code.as_str()),
        None => None,
    };
    if invite_code.is_some() && !state.permits(peer) {
        return Ok(Decision::Refused(AuthErr::BadInvite));
    }
    match state.admission(&auth.pubkey, invite_code, now) {
        Err(error) => Err(error),
        Ok(Admission::NotAllowlisted) => Ok(Decision::Refused(AuthErr::UnknownKey)),
        Ok(Admission::InviteRefused) => {
            state.record_failure(peer);
            Ok(Decision::Refused(AuthErr::BadInvite))
        },
        Ok(Admission::Admitted { user, users, .. }) => {
            let initial_state = InitialState {
                me: user.id,
                role: user.role,
                users,
                rooms: state.database().rooms(),
                placed: Placed {
                    room: None,
                    epoch: Epoch(0),
                    tracks: None,
                    peers: Vec::new(),
                },
            };
            Ok(Decision::Admitted { user, initial_state: Box::new(initial_state) })
        },
    }
}

fn signature_is_valid(
    auth: &Auth,
    server_nonce: &[u8; NONCE_BYTES],
    exporter: &[u8; EXPORTER_BYTES],
) -> (valid: bool)
    ensures
        valid == is_proven(*auth, server_nonce@, exporter@),
{
    let input = signing_input(server_nonce, &auth.client_nonce, exporter);
    crypto::verify_strict(&auth.pubkey, input.as_slice(), &auth.sig)
}

/// A client that has not proven its key reaches nothing: not the allowlist, not an
/// invite, not even the count of failed attempts.
pub proof fn an_unproven_key_reaches_nothing(
    before: World,
    after: World,
    auth: Auth,
    peer: PeerAddress,
    now: u64,
    decision: Result<Decision, NoId>,
)
    requires
        is_decision(before, after, auth, false, peer, now, decision),
    ensures
        after == before,
        is_refusal(decision, AuthErr::BadSig),
{
}

/// A spent budget refuses even a code that would have enrolled, and leaves it to be
/// redeemed later.
pub proof fn a_spent_budget_refuses_every_code(
    before: World,
    after: World,
    auth: Auth,
    peer: PeerAddress,
    now: u64,
    decision: Result<Decision, NoId>,
)
    requires
        auth.invite_code is Some,
        !before.failures.permits(peer),
        is_decision(before, after, auth, true, peer, now, decision),
    ensures
        after == before,
        is_refusal(decision, AuthErr::BadInvite),
{
}

/// A wrong code costs one attempt and enrolls nobody.
pub proof fn a_wrong_code_costs_an_attempt(
    before: World,
    after: World,
    auth: Auth,
    peer: PeerAddress,
    now: u64,
    decision: Result<Decision, NoId>,
)
    requires
        auth.invite_code is Some,
        before.failures.permits(peer),
        database::user_at(before.records.users, auth.pubkey@) is None,
        database::redeemable_at(before.records.invites, auth.invite_code->0@, now) is None,
        is_decision(before, after, auth, true, peer, now, decision),
    ensures
        after.records == before.records,
        after.failures.from(peer) == before.failures.from(peer) + 1,
        after.failures.total == before.failures.total + 1,
        is_refusal(decision, AuthErr::BadInvite),
{
}

/// One client's attempt to be let in.
pub ghost struct Attempt {
    pub before: World,
    pub after: World,
    pub auth: Auth,
    pub proven: bool,
    pub peer: PeerAddress,
    pub now: u64,
    pub decision: Result<Decision, NoId>,
}

impl Attempt {
    /// Whether the attempt was refused for a wrong code: the key was proven but is
    /// unknown, the address could still try one, and the code enrolls nobody.
    pub open spec fn is_wrong_guess(self) -> bool {
        &&& self.proven
        &&& self.before.failures.permits(self.peer)
        &&& database::user_at(self.before.records.users, self.auth.pubkey@) is None
        &&& code_of(self.auth) matches Some(code) && database::redeemable_at(
            self.before.records.invites,
            code,
            self.now,
        ) is None
    }
}

/// Whether attempts are all there were since the server started, each decided as it
/// was owed, and have left these failures. Whatever else happened in between let no
/// failure decay.
pub open spec fn are_attempts(attempts: Seq<Attempt>, failures: Failures) -> bool
    decreases attempts.len(),
{
    if attempts.len() == 0 {
        failures == Failures::none()
    } else {
        let last = attempts.last();
        &&& is_decision(
            last.before,
            last.after,
            last.auth,
            last.proven,
            last.peer,
            last.now,
            last.decision,
        )
        &&& last.after.failures == failures
        &&& are_attempts(attempts.drop_last(), last.before.failures)
    }
}

/// How many attempts were refused for a wrong code.
pub open spec fn wrong_guesses(attempts: Seq<Attempt>) -> nat
    decreases attempts.len(),
{
    if attempts.len() == 0 {
        0
    } else {
        wrong_guesses(attempts.drop_last()) + if attempts.last().is_wrong_guess() {
            1nat
        } else {
            0nat
        }
    }
}

/// How many attempts from one address were refused for a wrong code.
pub open spec fn wrong_guesses_from(attempts: Seq<Attempt>, peer: PeerAddress) -> nat
    decreases attempts.len(),
{
    if attempts.len() == 0 {
        0
    } else {
        wrong_guesses_from(attempts.drop_last(), peer) + if attempts.last().is_wrong_guess()
            && attempts.last().peer == peer {
            1nat
        } else {
            0nat
        }
    }
}

/// The failures that are remembered are the wrong guesses, of each address and in
/// all.
pub proof fn failures_count_wrong_guesses(
    attempts: Seq<Attempt>,
    failures: Failures,
    peer: PeerAddress,
)
    requires
        are_attempts(attempts, failures),
    ensures
        failures.from(peer) == wrong_guesses_from(attempts, peer),
        failures.total == wrong_guesses(attempts),
    decreases attempts.len(),
{
    if attempts.len() > 0 {
        failures_count_wrong_guesses(
            attempts.drop_last(),
            attempts.last().before.failures,
            peer,
        );
    }
}

/// Guessing stops being attempted. A client that has proven an unknown key presents a
/// code, after so many wrong guesses from its address. At the limit it is refused even
/// where the code would have enrolled it, and nothing changes: the code stays unspent
/// and nobody is added. Below the limit a wrong code is refused and costs one attempt,
/// and one that is still good enrolls, at no cost, as long as there is an id to give.
pub proof fn guessing_is_cut_off(
    attempts: Seq<Attempt>,
    before: World,
    after: World,
    auth: Auth,
    peer: PeerAddress,
    now: u64,
    decision: Result<Decision, NoId>,
)
    requires
        are_attempts(attempts, before.failures),
        wrong_guesses(attempts) < SERVER_WIDE_FAILURE_BUDGET,
        auth.invite_code is Some,
        database::user_at(before.records.users, auth.pubkey@) is None,
        is_decision(before, after, auth, true, peer, now, decision),
    ensures
        ({
            let guesses = wrong_guesses_from(attempts, peer);
            let live = database::redeemable_at(
                before.records.invites,
                auth.invite_code->0@,
                now,
            );
            if guesses >= FAILURES_PER_ADDRESS {
                &&& is_refusal(decision, AuthErr::BadInvite)
                &&& after == before
            } else {
                match live {
                    None => {
                        &&& is_refusal(decision, AuthErr::BadInvite)
                        &&& after == (World { failures: after.failures, ..before })
                        &&& after.failures == before.failures.recorded(peer)
                        &&& after.failures.from(peer) == guesses + 1
                        &&& after.failures.total == wrong_guesses(attempts) + 1
                    },
                    Some(at) => {
                        &&& after.failures == before.failures
                        &&& after.sessions == before.sessions
                        &&& if before.records.takes_users() {
                            &&& decision matches Ok(Decision::Admitted { user, .. }) && user
                                == after.records.users.last().user
                            &&& database::is_enrollment(
                                before.records,
                                after.records,
                                auth.pubkey@,
                                at,
                                now,
                            )
                        } else {
                            after == before && decision is Err
                        }
                    },
                }
            }
        }),
{
    failures_count_wrong_guesses(attempts, before.failures, peer);
}

/// A client turned away is told why: an unproven key, a code it may not try or that
/// enrolls nobody, or a key that is unknown and comes without a code.
pub proof fn a_refusal_says_why(
    before: World,
    after: World,
    auth: Auth,
    proven: bool,
    peer: PeerAddress,
    now: u64,
    decision: Result<Decision, NoId>,
)
    requires
        is_decision(before, after, auth, proven, peer, now, decision),
    ensures
        !proven ==> (decision matches Ok(Decision::Refused(AuthErr::BadSig))),
        proven && auth.invite_code is Some && !before.failures.permits(peer) ==> (
        decision matches Ok(Decision::Refused(AuthErr::BadInvite))),
        proven && auth.invite_code is None && (forall|k: int|
            0 <= k < before.records.users.len() ==> (
            #[trigger] before.records.users[k]).user.pubkey@ != auth.pubkey@) ==> after == before
            && (decision matches Ok(Decision::Refused(AuthErr::UnknownKey))),
        proven && auth.invite_code is Some && (forall|k: int|
            0 <= k < before.records.users.len() ==> (
            #[trigger] before.records.users[k]).user.pubkey@ != auth.pubkey@)
            && database::redeemable_at(before.records.invites, auth.invite_code->0@, now) is None
            ==> after.records == before.records && after.sessions == before.sessions && (
        decision matches Ok(Decision::Refused(AuthErr::BadInvite))),
{
    database::user_is_there(before.records.users, auth.pubkey@);
}

/// A key that is enrolled is let in as the user it belongs to, and is told who that is,
/// everyone enrolled, every room, and that it is in none of them. Nothing changes: a code
/// it presents besides is left for somebody else, and no attempt is counted.
pub proof fn a_known_key_is_let_in_as_itself(
    before: World,
    after: World,
    auth: Auth,
    peer: PeerAddress,
    now: u64,
    decision: Result<Decision, NoId>,
    i: int,
    k: int,
)
    requires
        before.wf(),
        0 <= i < before.records.users.len(),
        before.records.users[i].user.pubkey@ == auth.pubkey@,
        auth.invite_code is None || before.failures.permits(peer),
        0 <= k < before.records.users.len(),
        is_decision(before, after, auth, true, peer, now, decision),
    ensures
        after == before,
        decision matches Ok(Decision::Admitted { user, initial_state }) && user
            == before.records.users[i].user && initial_state.me == user.id && initial_state.role
            == user.role && initial_state.users@.len() == before.records.users.len()
            && initial_state.users@[k] == before.records.users[k].user && initial_state.rooms@
            == before.records.rooms && initial_state.placed.room is None
            && initial_state.placed.tracks is None && initial_state.placed.epoch.0 == 0
            && initial_state.placed.peers@.len() == 0,
{
    let users = before.records.users;
    database::user_is_there(users, auth.pubkey@);
    let at = database::user_at(users, auth.pubkey@)->0 as int;
    if at < i {
        assert(users[at].user.pubkey@ != users[i].user.pubkey@);
    } else if i < at {
        assert(users[i].user.pubkey@ != users[at].user.pubkey@);
    }
}

/// A live code lets a new key in, under the role it was minted for. The code is then
/// redeemed by that user, who is on the allowlist after everyone else, and is told so.
/// No session, no room and no failed attempt changes.
pub proof fn a_live_code_lets_a_new_key_in(
    before: World,
    after: World,
    auth: Auth,
    peer: PeerAddress,
    now: u64,
    decision: Result<Decision, NoId>,
    j: int,
)
    requires
        before.wf(),
        forall|k: int|
            0 <= k < before.records.users.len() ==> (
            #[trigger] before.records.users[k]).user.pubkey@ != auth.pubkey@,
        before.records.takes_users(),
        auth.invite_code is Some,
        before.failures.permits(peer),
        0 <= j < before.records.invites.len(),
        before.records.invites[j].secret_hash@ == crate::server::invite::hash_of(
            auth.invite_code->0@,
        ),
        before.records.invites[j].redeemed_by is None,
        now < before.records.invites[j].expires_at,
        is_decision(before, after, auth, true, peer, now, decision),
    ensures
        after.records.users.len() == before.records.users.len() + 1,
        after.records.users.take(before.records.users.len() as int) == before.records.users,
        after.records.invites.len() == before.records.invites.len(),
        after.records.rooms == before.records.rooms,
        after.records.next_media_id == before.records.next_media_id,
        after.sessions == before.sessions,
        after.failures == before.failures,
        decision matches Ok(Decision::Admitted { user, initial_state }) && user
            == after.records.users[before.records.users.len() as int].user && user.pubkey@
            == auth.pubkey@ && user.role == before.records.invites[j].role
            && after.records.invites[j].redeemed_by == Some(user.id) && initial_state.me == user.id
            && initial_state.role == user.role && initial_state.users@.len()
            == after.records.users.len() && initial_state.users@[before.records.users.len() as int]
            == user && initial_state.rooms@ == before.records.rooms
            && initial_state.placed.room is None,
{
    database::user_is_there(before.records.users, auth.pubkey@);
    database::a_code_enrolls_while_it_is_live(
        before.records.invites,
        auth.invite_code->0@,
        now,
        j,
    );
    assert(after.records.users.take(before.records.users.len() as int)
        =~= after.records.users.drop_last());
}

/// A key is proven by a signature over the domain, both nonces and this connection's
/// exported value, in that order, and by nothing less.
pub proof fn a_proof_covers_both_nonces_and_the_connection(
    auth: Auth,
    server_nonce: Seq<u8>,
    exporter: Seq<u8>,
)
    ensures
        is_proven(auth, server_nonce, exporter) <==> crypto::ed25519_verifies(
            auth.pubkey@,
            seq![
                0x74u8, 0x68, 0x72, 0x6f, 0x63, 0x63, 0x2d, 0x61, 0x75, 0x74, 0x68, 0x2d, 0x76, 0x31,
            ] + server_nonce + auth.client_nonce@ + exporter,
            auth.sig@,
        ),
{
    let domain = seq![
        0x74u8, 0x68, 0x72, 0x6f, 0x63, 0x63, 0x2d, 0x61, 0x75, 0x74, 0x68, 0x2d, 0x76, 0x31,
    ];
    assert(crate::proto::auth::signed_bytes(server_nonce, auth.client_nonce@, exporter) =~= domain
        + server_nonce + auth.client_nonce@ + exporter);
}

} // verus!
