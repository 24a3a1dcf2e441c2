use std::collections::HashSet;

use ed25519_dalek::{Signer, SigningKey};
use throcc::proto::auth::signing_input;
use throcc::proto::{
    Auth, AuthErr, Codec, Epoch, ErrCode, MediaId, Req, Resp, Role, Room, RoomId, User, UserId,
};
use throcc::server::auth::{decide, judge, Decision};
use throcc::server::bootstrap::ensure_invite;
use throcc::server::database::{
    fixed_blob, user_from_row, Admission, Database, NoId, RowError, UserRow,
};
use throcc::server::identity::{derive_identity, identity_of, seed_of, IdentityError};
use throcc::server::invite::{
    code_from, generate_code, hash, symbol, PeerAddress, RedemptionLimiter, ALPHABET, CODE_LENGTH,
    DEFAULT_TTL, FAILURES_PER_ADDRESS, SERVER_WIDE_FAILURE_BUDGET,
};
use throcc::server::permissions::{require_rank_above, require_role};
use throcc::server::rooms::{tracks_from, Registry};
use throcc::server::shown::show;
use throcc::server::state::State;

const NOW: u64 = 1_700_000_000;
const SERVER_NONCE: [u8; 32] = [1u8; 32];
const EXPORTER: [u8; 32] = [2u8; 32];
const PEER: PeerAddress = PeerAddress::V4(u32::from_be_bytes([203, 0, 113, 7]));

fn v4(address: [u8; 4]) -> PeerAddress {
    PeerAddress::V4(u32::from_be_bytes(address))
}

#[test]
fn a_code_is_six_symbols_from_the_alphabet() {
    for _ in 0..64 {
        let code = generate_code();
        assert_eq!(code.len(), CODE_LENGTH);
        assert!(code.bytes().all(|symbol| ALPHABET.contains(&symbol)));
    }
}

#[test]
fn codes_differ() {
    let first = generate_code();
    assert!((0..16).any(|_| generate_code() != first));
}

#[test]
fn case_and_padding_do_not_change_the_hash() {
    assert_eq!(hash("K7QM2X"), hash("  k7qm2x\n"));
    assert_ne!(hash("K7QM2X"), hash("K7QM2Y"));
}

#[test]
fn every_symbol_is_reachable() {
    let drawn: HashSet<u8> = (0..2000)
        .flat_map(|_| generate_code().into_bytes())
        .collect();
    assert_eq!(drawn.len(), ALPHABET.len(), "the alphabet must be uniform");
}

#[test]
fn a_code_is_hashed_with_sha256() {
    let expected: [u8; 32] = [
        0xd1, 0x21, 0x20, 0xc5, 0x08, 0xfc, 0x71, 0x8a, 0xd3, 0x1b, 0x32, 0x01, 0x40, 0x12, 0xdf,
        0xa0, 0x2b, 0x8d, 0x72, 0x4b, 0xca, 0xc2, 0xf6, 0x18, 0x8b, 0x1e, 0x8a, 0x7c, 0x25, 0x93,
        0x1b, 0xb5,
    ];
    assert_eq!(hash("k7qm2x"), expected);
    assert_eq!(hash(" straße "), hash("STRASSE"), "one letter becomes two");
}

#[test]
fn draws_spell_a_code() {
    assert_eq!(symbol(0), Some('0'));
    assert_eq!(symbol(35), Some('Z'));
    assert_eq!(symbol(36), Some('0'));
    assert_eq!(symbol(251), Some('Z'));
    assert_eq!(symbol(252), None);
    assert_eq!(
        code_from(&[10, 255, 11, 12, 253, 13, 14, 15, 16]).as_deref(),
        Some("ABCDEF")
    );
    assert_eq!(code_from(&[10, 11, 12, 13, 14, 255]), None);

    let mut counts = vec![0u32; 128];
    for draw in 0..=255u8 {
        if let Some(symbol) = symbol(draw) {
            counts[symbol as usize] += 1;
        }
    }
    assert!(ALPHABET.iter().all(|symbol| counts[*symbol as usize] == 7));
}

#[test]
fn an_address_is_cut_off_before_the_server_wide_budget() {
    let mut limiter = RedemptionLimiter::default();
    let address = v4([203, 0, 113, 7]);
    let other = v4([203, 0, 113, 8]);

    for _ in 0..FAILURES_PER_ADDRESS {
        assert!(limiter.permits(address));
        limiter.record_failure(address);
    }
    assert!(!limiter.permits(address));
    assert!(limiter.permits(other));
}

#[test]
fn decay_readmits_an_address_and_forgets_it_once_clear() {
    let mut limiter = RedemptionLimiter::default();
    let address = v4([203, 0, 113, 7]);

    for _ in 0..FAILURES_PER_ADDRESS {
        limiter.record_failure(address);
    }
    assert!(!limiter.permits(address));

    limiter.decay();
    assert!(limiter.permits(address));

    for _ in 0..FAILURES_PER_ADDRESS {
        limiter.decay();
    }
    assert!(limiter.is_clear());
}

#[test]
fn the_server_wide_budget_refuses_every_address() {
    let mut limiter = RedemptionLimiter::default();
    for failure in 0..SERVER_WIDE_FAILURE_BUDGET {
        let address = v4([192, 0, 2, (failure % 200) as u8]);
        limiter.record_failure(address);
    }
    assert!(!limiter.permits(v4([198, 51, 100, 1])));

    limiter.decay();
    assert!(limiter.permits(v4([198, 51, 100, 1])));
}

#[test]
fn addresses_of_both_families_are_told_apart() {
    let mut limiter = RedemptionLimiter::default();
    for _ in 0..FAILURES_PER_ADDRESS {
        limiter.record_failure(PeerAddress::V6(1));
    }
    assert!(!limiter.permits(PeerAddress::V6(1)));
    assert!(limiter.permits(PeerAddress::V4(1)));
}

#[test]
fn a_role_cannot_act_on_its_own_rank() {
    assert!(require_rank_above(Role::Admin, Role::Admin).is_err());
    assert!(require_rank_above(Role::Admin, Role::Manager).is_ok());
    assert!(require_rank_above(Role::Manager, Role::Admin).is_err());
    assert!(require_rank_above(Role::Manager, Role::User).is_ok());
    assert!(require_rank_above(Role::User, Role::User).is_err());
}

#[test]
fn a_capability_needs_its_own_rank_or_higher() {
    assert!(require_role(Role::Admin, Role::Admin).is_ok());
    assert!(require_role(Role::Admin, Role::Manager).is_ok());
    assert!(require_role(Role::Manager, Role::Admin).is_err());
}

#[test]
fn a_denial_names_both_roles() {
    assert_eq!(
        require_rank_above(Role::Manager, Role::Admin),
        Err(Resp::Failed {
            code: ErrCode::Denied,
            msg: "Manager cannot act on Admin".to_string(),
        })
    );
    assert_eq!(
        require_role(Role::User, Role::Manager),
        Err(Resp::Failed {
            code: ErrCode::Denied,
            msg: "Manager is required, User is not enough".to_string(),
        })
    );
}

#[test]
fn database_an_expired_code_does_not_enroll() {
    let mut database = Database::new();
    let invite = database
        .create_invite(Role::User, DEFAULT_TTL, NOW)
        .unwrap();

    assert!(matches!(
        database.admission(&[9u8; 32], Some(&invite.code), invite.expires_at).unwrap(),
        Admission::InviteRefused
    ));
    assert_eq!(database.user_count(), 0);
    assert!(matches!(
        database.admission(&[9u8; 32], Some(&invite.code), invite.expires_at - 1).unwrap(),
        Admission::Admitted { enrolled: true, .. }
    ));
}

#[test]
fn the_first_unused_code_is_minted() {
    let codes = |all: &[&str]| -> Vec<String> { all.iter().map(|code| code.to_string()).collect() };
    let mut database = Database::new();
    let (role, expires_at) = (Role::Manager, NOW + 60);
    assert_eq!(
        database.mint(&codes(&["AAAAAA", "BBBBBB"]), role, expires_at),
        Some("AAAAAA".to_string())
    );
    assert_eq!(
        database.mint(&codes(&["AAAAAA", "aaaaaa", "BBBBBB"]), role, expires_at),
        Some("BBBBBB".to_string()),
        "a code that is taken is passed over"
    );
    assert_eq!(
        database.mint(&codes(&["AAAAAA", "BBBBBB"]), role, expires_at),
        None
    );
    assert_eq!(database.mint(&Vec::new(), role, expires_at), None);
    assert_eq!(database.invite_rows().len(), 2);
    assert!(database.redeems("bbbbbb", NOW));
    assert!(!database.redeems("bbbbbb", expires_at));
    match database.admission(&[9u8; 32], Some("BBBBBB"), NOW).unwrap() {
        Admission::Admitted { user, .. } => assert_eq!(user.role, Role::Manager),
        _ => panic!("a minted code should enroll"),
    }
}

fn state() -> State {
    State::new(Database::new())
}

fn minted(state: &mut State, role: Role, ttl_secs: u32) -> String {
    state.create_invite(role, ttl_secs, NOW).unwrap().code
}

fn key(seed: u8) -> SigningKey {
    SigningKey::from_bytes(&[seed; 32])
}

fn signed(
    key: &SigningKey,
    server_nonce: &[u8; 32],
    exporter: &[u8; 32],
    invite_code: Option<&str>,
) -> Auth {
    let client_nonce = [3u8; 32];
    Auth {
        pubkey: key.verifying_key().to_bytes(),
        client_nonce,
        invite_code: invite_code.map(str::to_string),
        want_room: None,
        sig: key
            .sign(&signing_input(server_nonce, &client_nonce, exporter))
            .to_bytes(),
    }
}

fn decided(state: &mut State, auth: &Auth) -> Decision {
    decide(state, auth, &SERVER_NONCE, &EXPORTER, PEER, NOW).expect("there are ids left")
}

fn refusal(decision: Decision) -> AuthErr {
    match decision {
        Decision::Refused(error) => error,
        Decision::Admitted { .. } => panic!("expected a refusal"),
    }
}

fn admitted(decision: Decision) -> User {
    match decision {
        Decision::Admitted { user, .. } => user,
        Decision::Refused(error) => panic!("the code should enroll, got {error:?}"),
    }
}

#[test]
fn a_signature_is_bound_to_this_connection_and_this_nonce() {
    let mut state = state();
    let key = key(7);
    let code = minted(&mut state, Role::User, DEFAULT_TTL);

    let relayed = signed(&key, &SERVER_NONCE, &[9u8; 32], Some(&code));
    assert_eq!(
        refusal(decided(&mut state, &relayed)),
        AuthErr::BadSig,
        "a signature made against another connection's exporter must not be accepted"
    );

    let replayed = signed(&key, &[8u8; 32], &EXPORTER, Some(&code));
    assert_eq!(refusal(decided(&mut state, &replayed)), AuthErr::BadSig);

    assert_eq!(
        state.database().user_count(),
        0,
        "a bad signature must not reach the database"
    );
}

#[test]
fn a_code_enrolls_once() {
    let mut state = state();
    let code = minted(&mut state, Role::Manager, DEFAULT_TTL);

    let first = signed(&key(7), &SERVER_NONCE, &EXPORTER, Some(&code));
    let enrolled = admitted(decided(&mut state, &first));
    assert_eq!(enrolled.role, Role::Manager);

    let second = signed(&key(8), &SERVER_NONCE, &EXPORTER, Some(&code));
    assert_eq!(refusal(decided(&mut state, &second)), AuthErr::BadInvite);
    assert_eq!(state.database().user_count(), 1);
}

#[test]
fn a_lower_case_code_is_accepted() {
    let mut state = state();
    let code = minted(&mut state, Role::User, DEFAULT_TTL);

    let auth = signed(
        &key(7),
        &SERVER_NONCE,
        &EXPORTER,
        Some(&code.to_lowercase()),
    );
    admitted(decided(&mut state, &auth));
}

#[test]
fn guessing_stops_being_attempted_once_the_budget_is_spent() {
    let mut state = state();
    let valid = minted(&mut state, Role::User, DEFAULT_TTL);

    let guesser = key(7);
    for guess in 0..FAILURES_PER_ADDRESS {
        let auth = signed(
            &guesser,
            &SERVER_NONCE,
            &EXPORTER,
            Some(&format!("AAAA{guess:02}")),
        );
        assert_eq!(refusal(decided(&mut state, &auth)), AuthErr::BadInvite);
    }

    let auth = signed(&guesser, &SERVER_NONCE, &EXPORTER, Some(&valid));
    assert_eq!(
        refusal(decided(&mut state, &auth)),
        AuthErr::BadInvite,
        "a spent budget must refuse even a code that would have worked"
    );
    assert_eq!(state.database().user_count(), 0);

    state.maintain_invites(NOW);
    admitted(decided(&mut state, &auth));
}

#[test]
fn a_new_key_needs_an_id() {
    let last = user(i64::MAX as u64, 1);
    let database = Database::from_rows(vec![last], Vec::new(), Vec::new(), 1).unwrap();
    let mut state = State::new(database);
    let code = minted(&mut state, Role::User, DEFAULT_TTL);
    let auth = signed(&key(7), &SERVER_NONCE, &EXPORTER, Some(&code));

    assert!(matches!(
        judge(&mut state, &auth, true, PEER, NOW),
        Err(NoId)
    ));
    assert_eq!(state.database().user_count(), 1);
    assert!(state.database().redeems(&code, NOW), "the code stays unspent");
    assert!(state.can_authenticate(&auth.pubkey, Some(&code), None, NOW));

    assert_eq!(
        refusal(judge(&mut state, &auth, false, PEER, NOW).unwrap()),
        AuthErr::BadSig
    );
    let wrong = signed(&key(7), &SERVER_NONCE, &EXPORTER, Some("AAAAAA"));
    for _ in 0..FAILURES_PER_ADDRESS {
        assert_eq!(refusal(decided(&mut state, &wrong)), AuthErr::BadInvite);
    }
    assert_eq!(refusal(decided(&mut state, &auth)), AuthErr::BadInvite);
}

#[test]
fn admission_an_expired_code_does_not_enroll() {
    let mut state = state();
    let code = minted(&mut state, Role::User, 0);

    let auth = signed(&key(7), &SERVER_NONCE, &EXPORTER, Some(&code));
    assert_eq!(refusal(decided(&mut state, &auth)), AuthErr::BadInvite);
}

#[test]
fn an_unknown_key_without_a_code_costs_no_attempt() {
    let mut state = state();
    for _ in 0..=FAILURES_PER_ADDRESS {
        let auth = signed(&key(7), &SERVER_NONCE, &EXPORTER, None);
        assert_eq!(refusal(decided(&mut state, &auth)), AuthErr::UnknownKey);
    }
    assert!(state.permits(PEER));
}

#[test]
fn what_was_proven_decides() {
    let mut state = state();
    let code = minted(&mut state, Role::User, 60);
    let mut auth = signed(&key(7), &SERVER_NONCE, &EXPORTER, Some(&code));
    auth.sig = [0u8; 64];
    assert_eq!(
        refusal(judge(&mut state, &auth, false, PEER, NOW).unwrap()),
        AuthErr::BadSig
    );
    assert_eq!(
        admitted(judge(&mut state, &auth, true, PEER, NOW).unwrap()).id,
        UserId(1)
    );
}

#[test]
fn a_key_keeps_its_id_and_role() {
    let mut database = Database::new();
    assert!(database.insert_code("ABC123", Role::Admin, NOW + 1));
    assert!(!database.insert_code(" abc123 ", Role::User, NOW + 9));
    match database.admission(&[1u8; 32], Some("abc123"), NOW).unwrap() {
        Admission::Admitted {
            user,
            users,
            enrolled,
        } => {
            assert!(enrolled);
            assert_eq!((user.id, user.role), (UserId(1), Role::Admin));
            assert_eq!(user.name, "");
            assert_eq!(users.len(), 1);
        }
        _ => panic!("the code should enroll"),
    }
    match database.admission(&[1u8; 32], None, NOW + 100).unwrap() {
        Admission::Admitted { user, enrolled, .. } => {
            assert!(!enrolled);
            assert_eq!(user.id, UserId(1));
        }
        _ => panic!("the key is on the allowlist"),
    }
    assert!(matches!(
        database.admission(&[2u8; 32], None, NOW).unwrap(),
        Admission::NotAllowlisted
    ));
    assert_eq!(database.roster().len(), 1);
    assert_eq!(database.invite_rows()[0].redeemed_by, Some(UserId(1)));
}

#[test]
fn replacing_invites_leaves_one() {
    let mut database = Database::new();
    let first = database.create_invite(Role::User, 60, NOW).unwrap();
    let second = database.replace_invites(Role::Manager, 60, NOW).unwrap();
    assert!(matches!(
        database.admission(&[1u8; 32], Some(&first.code), NOW).unwrap(),
        Admission::InviteRefused
    ));
    assert!(matches!(
        database.admission(&[1u8; 32], Some(&second.code), NOW).unwrap(),
        Admission::Admitted { .. }
    ));
    database.revoke_unredeemed();
    assert_eq!(
        database.invite_rows().len(),
        1,
        "a redeemed invite stays as a trace"
    );
    assert_eq!(database.prune_invites(NOW), 1);
    assert!(database.invite_rows().is_empty());
}

#[test]
fn pruning_drops_what_cannot_enroll_any_more() {
    let mut state = state();
    let kept = minted(&mut state, Role::User, 60);
    minted(&mut state, Role::User, 0);
    assert_eq!(state.maintain_invites(NOW), 1);
    let auth = signed(&key(7), &SERVER_NONCE, &EXPORTER, Some(&kept));
    admitted(decided(&mut state, &auth));
}

#[test]
fn a_bootstrap_invite_is_minted_only_for_an_empty_server() {
    let mut state = state();
    let first = ensure_invite(&mut state, NOW).unwrap().unwrap();
    let second = ensure_invite(&mut state, NOW).unwrap().unwrap();
    let stale = signed(&key(7), &SERVER_NONCE, &EXPORTER, Some(&first));
    assert_eq!(refusal(decided(&mut state, &stale)), AuthErr::BadInvite);
    let fresh = signed(&key(7), &SERVER_NONCE, &EXPORTER, Some(&second));
    assert_eq!(admitted(decided(&mut state, &fresh)).role, Role::Admin);
    assert_eq!(ensure_invite(&mut state, NOW).unwrap(), None);
}

fn user(id: u64, key: u8) -> UserRow {
    UserRow {
        user: User {
            id: UserId(id),
            pubkey: [key; 32],
            name: "someone".to_string(),
            avatar: None,
            role: Role::User,
        },
        created_at: NOW,
    }
}

#[test]
fn stored_rows_are_taken_only_where_they_are_sound() {
    let room = |id| Room {
        id: RoomId(id),
        name: "lounge".to_string(),
        epoch: Epoch(4),
    };
    let database =
        Database::from_rows(vec![user(1, 1), user(5, 2)], Vec::new(), vec![room(3)], 9).unwrap();
    assert_eq!(database.user_rows().len(), 2);
    assert_eq!(database.next_media_id(), 9);
    assert!(database.has_room(RoomId(3)));
    assert_eq!(database.room_epoch(RoomId(3)), Some(Epoch(4)));
    assert_eq!(database.room_epoch(RoomId(4)), None);
    assert_eq!(database.rooms().len(), 1);

    let twice = Database::from_rows(vec![user(1, 1), user(5, 1)], Vec::new(), Vec::new(), 0);
    assert!(twice.is_none(), "a key enrolled twice");
    let unordered = Database::from_rows(vec![user(5, 1), user(1, 2)], Vec::new(), Vec::new(), 0);
    assert!(unordered.is_none());
    let rooms = Database::from_rows(Vec::new(), Vec::new(), vec![room(3), room(3)], 0);
    assert!(rooms.is_none());
}

#[test]
fn a_row_that_holds_no_user_says_why() {
    let read = user_from_row(
        4,
        &vec![1u8; 32],
        "someone".to_string(),
        &Some(vec![2u8; 32]),
        2,
    )
    .unwrap();
    assert_eq!(read.id, UserId(4));
    assert_eq!(read.avatar, Some([2u8; 32]));
    assert_eq!(read.role, Role::Admin);
    match user_from_row(4, &vec![1u8; 31], String::new(), &None, 9) {
        Err(RowError::Blob(why)) => assert_eq!(why, "pubkey is 31 bytes, expected 32"),
        other => panic!("unexpected: {other:?}"),
    }
    match user_from_row(4, &vec![1u8; 32], String::new(), &Some(Vec::new()), 9) {
        Err(RowError::Blob(why)) => assert_eq!(why, "avatar_hash is 0 bytes, expected 32"),
        other => panic!("unexpected: {other:?}"),
    }
    assert!(matches!(
        user_from_row(4, &vec![1u8; 32], String::new(), &None, 9),
        Err(RowError::Rank(9))
    ));
    assert!(fixed_blob(&vec![0u8; 33], "pubkey").is_err());
}

#[test]
fn rooms_are_created_renamed_and_deleted() {
    let mut database = Database::new();
    assert!(database.takes_rooms() && database.takes_users() && database.has_media());
    let first = database.create_room("lounge".to_string());
    let second = database.create_room("quiet".to_string());
    assert_ne!(first.id, second.id);
    assert_eq!(first.epoch, Epoch(0));
    assert!(database.rename_room(first.id, "loud".to_string()));
    assert!(!database.rename_room(RoomId(404), "loud".to_string()));
    assert_eq!(database.bump_epoch(first.id), Epoch(1));
    assert_eq!(database.rooms()[0].name, "loud");
    assert!(database.delete_room(first.id));
    assert!(!database.delete_room(first.id));
    let media = database.allocate_media();
    assert_eq!(database.allocate_media(), media + 3);
}

#[test]
fn tracks_are_three_ids_in_a_row() {
    let tracks = tracks_from(7);
    assert_eq!(tracks.mic.0, 7);
    assert_eq!(tracks.shares.len(), 1);
    assert_eq!(tracks.shares[0].video.0, 8);
    assert_eq!(tracks.shares[0].audio.unwrap().0, 9);
}

#[test]
fn attaching_again_displaces_the_older_connection() {
    let mut registry = Registry::default();
    assert_eq!(registry.attach(UserId(1), 10), None);
    assert_eq!(registry.attach(UserId(2), 11), None);
    assert_eq!(registry.attach(UserId(1), 12), Some(10));
    assert_eq!(registry.session(UserId(1)).unwrap().connection, 12);
    registry.detach(UserId(1));
    assert!(registry.session(UserId(1)).is_none());
    assert_eq!(registry.close_backed_up(UserId(2)), Some(11));
    assert_eq!(registry.close_backed_up(UserId(2)), None);
}

#[test]
fn creates_then_reloads_the_same_identity() {
    let stored = throcc::crypto::random_bytes().to_vec();
    let first = derive_identity(&seed_of("server_key", &stored).unwrap()).unwrap();
    let second = derive_identity(&seed_of("server_key", &stored).unwrap()).unwrap();
    assert_eq!(first.fingerprint, second.fingerprint);
}

#[test]
fn the_fingerprint_follows_the_key_not_the_certificate() {
    let key = throcc::crypto::random_bytes();
    let first = derive_identity(&key).unwrap();
    let second = derive_identity(&key).unwrap();
    assert_eq!(first.fingerprint, second.fingerprint);
    assert_eq!(first.certificate, second.certificate);

    let other = derive_identity(&throcc::crypto::random_bytes()).unwrap();
    assert_ne!(first.fingerprint, other.fingerprint);
}

#[test]
fn refuses_a_key_file_of_the_wrong_size() {
    assert!(seed_of("server_key", b"not a seed").is_err());
    assert_eq!(
        seed_of("server_key", b"not a seed").unwrap_err(),
        "server_key is 10 bytes, expected 32"
    );
}

#[test]
fn an_identity_holds_the_key_it_was_derived_from() {
    let seed = [7u8; 32];
    let identity = derive_identity(&seed).unwrap();
    assert!(identity
        .private_key
        .windows(seed.len())
        .any(|window| window == seed));
    let public = key(7).verifying_key().to_bytes();
    assert!(identity
        .certificate
        .windows(public.len())
        .any(|window| window == public));
    assert!(identity
        .certificate
        .windows(6)
        .any(|window| window == b"throcc"));
}

#[test]
fn a_certificate_that_does_not_parse_gives_no_identity() {
    match identity_of(vec![1], vec![0x30]) {
        Err(IdentityError::Fingerprint(error)) => {
            assert_eq!(error.to_string(), "malformed certificate: truncated length")
        }
        _ => panic!("a truncated certificate has no key"),
    }
}

#[test]
fn requests_are_spelled_out_as_they_debug() {
    let mut hash = [7u8; 32];
    hash[0] = 255;
    hash[31] = 0;
    let requests = [
        Req::SetRoom(None),
        Req::SetRoom(Some(RoomId(u64::MAX))),
        Req::SetProfile {
            name: "some \"one\"\n\u{301}é".to_string(),
            avatar: Some(hash),
        },
        Req::SetProfile {
            name: String::new(),
            avatar: None,
        },
        Req::SetMedia {
            mic: true,
            screen: false,
            share_audio: true,
            screen_kbps: 8_000,
            codec: Codec::H265,
        },
        Req::SetMedia {
            mic: false,
            screen: true,
            share_audio: false,
            screen_kbps: 0,
            codec: Codec::Av1,
        },
        Req::RequestKeyframe(MediaId(3)),
        Req::CreateRoom {
            name: "lounge".to_string(),
        },
        Req::RenameRoom {
            room: RoomId(3),
            name: "quiet".to_string(),
        },
        Req::DeleteRoom(RoomId(3)),
        Req::CreateInvite {
            role: Role::Manager,
            ttl_secs: 86_400,
        },
        Req::SetRole {
            user: UserId(42),
            role: Role::Admin,
        },
        Req::RemoveUser(UserId(42)),
    ];
    for request in requests {
        assert_eq!(show(&request), format!("{request:?}"));
    }
}

#[test]
fn a_fresh_server_always_mints() {
    for _ in 0..64 {
        let mut state = state();
        assert!(ensure_invite(&mut state, NOW).unwrap().is_some());
    }
}

#[test]
fn minting_leaves_other_codes_alone() {
    let mut state = state();
    let first = minted(&mut state, Role::Manager, 60);
    minted(&mut state, Role::User, 60);
    minted(&mut state, Role::Admin, 0);
    let auth = signed(&key(7), &SERVER_NONCE, &EXPORTER, Some(&first));
    assert_eq!(admitted(decided(&mut state, &auth)).role, Role::Manager);
}
