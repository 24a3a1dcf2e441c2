//! Clients and a server talking to each other, message by message.

use std::collections::{HashMap, VecDeque};

use throcc::client::auth::{conclude, handshake};
use throcc::client::client::{
    disconnect_reason, disconnected, Command, Control as ClientControl, Event, Inbound, Step,
};
use throcc::client::media::receive::Receiver;
use throcc::client::media::send::MediaSender;
use throcc::client::Error;
use throcc::cli::{counted, counter_of};
use throcc::proto::frame::FrameHeader;
use throcc::proto::{
    AuthErr, Epoch, InitialState, MediaId, Placed, Req, ReqEnvelope, Role, Room, RoomId,
    ServerMessage, Tracks, UserId,
};
use throcc::server::bootstrap::ensure_invite;
use throcc::server::database::Database;
use throcc::server::invite::PeerAddress;
use throcc::server::rooms::Notice;
use throcc::server::session::{Authenticated, Control as ServerControl};
use throcc::server::sfu::{forward, route_of};
use throcc::server::state::State;

const NOW: u64 = 1_700_000_000;
const PEER: PeerAddress = PeerAddress::V4(0xcb00_7107);
const QUEUE: usize = 512;

struct TestServer {
    state: State,
    bootstrap_invite: String,
    connections: u64,
    queues: HashMap<u64, VecDeque<ServerMessage>>,
    receivers: HashMap<u64, Receiver>,
}

impl TestServer {
    fn start() -> Self {
        let mut state = State::new(Database::new());
        let bootstrap_invite = ensure_invite(&mut state, NOW)
            .unwrap()
            .expect("a fresh server should mint a bootstrap invite");
        TestServer {
            state,
            bootstrap_invite,
            connections: 0,
            queues: HashMap::new(),
            receivers: HashMap::new(),
        }
    }

    fn deliver(&mut self, notices: Vec<Notice>) {
        for notice in notices {
            for user in &notice.to {
                let session = self.state.registry().session(*user).unwrap();
                self.queues
                    .get_mut(&session.connection)
                    .unwrap()
                    .push_back(ServerMessage::Event(notice.event.clone()));
            }
        }
    }
}

struct Client {
    connection: u64,
    at_server: ServerControl,
    control: ClientControl,
    media: MediaSender,
    welcome: InitialState,
}

fn connect_to(
    server: &mut TestServer,
    seed: &[u8; 32],
    invite: Option<String>,
) -> Result<Client, Error> {
    server.connections += 1;
    let connection = server.connections;
    let exporter = [connection as u8; 32];
    let (mut at_server, hello) = ServerControl::greet(connection);
    let auth = handshake(Some(hello), &exporter, seed, invite)?;
    server.queues.insert(connection, VecDeque::new());
    server.receivers.insert(connection, Receiver::new());
    assert!(server.state.can_authenticate(
        &auth.pubkey,
        auth.invite_code.as_deref(),
        auth.want_room,
        NOW
    ));
    let result =
        match at_server.authenticate(&mut server.state, Some(auth), &exporter, PEER, NOW) {
            Authenticated::ClosedEarly => panic!("an answer was sent"),
            Authenticated::Turned(result) => result,
            Authenticated::Full(_) => panic!("there are ids left"),
            Authenticated::Welcomed {
                result, notices, ..
            } => {
                server.deliver(notices);
                result
            }
        };
    let welcome = conclude(Some(result))?;
    let mut media = MediaSender::new(welcome.placed.epoch);
    media.observe_placement(&welcome.placed);
    Ok(Client {
        connection,
        at_server,
        control: ClientControl::new(),
        media,
        welcome,
    })
}

fn order(server: &mut TestServer, client: &mut Client, command: Command) {
    match client.control.commanded(Some(command)) {
        Step::Write(envelope) => {
            assert!(client.at_server.can_answer(&server.state, &envelope.req, NOW));
            let (message, notices) = client
                .at_server
                .request(&mut server.state, envelope, NOW)
                .expect("an authenticated client is answered");
            server.deliver(notices);
            server
                .queues
                .get_mut(&client.connection)
                .unwrap()
                .push_back(message);
        }
        _ => panic!("a request was expected"),
    }
}

/// What the client has been told and not looked at yet.
fn events(server: &mut TestServer, client: &mut Client) -> Vec<Event> {
    let mut told = Vec::new();
    while let Some(message) = server
        .queues
        .get_mut(&client.connection)
        .unwrap()
        .pop_front()
    {
        match client
            .control
            .received(&mut client.media, Inbound::Message(message))
        {
            Step::Tell(event) => told.extend(event),
            _ => panic!("the session should go on"),
        }
    }
    told
}

fn next_event(server: &mut TestServer, client: &mut Client) -> Event {
    events(server, client)
        .into_iter()
        .next()
        .expect("the client should have produced an event")
}

fn shutdown(server: &mut TestServer, client: Client) {
    assert!(client.at_server.can_close(&server.state));
    let exit = client.at_server.close(&mut server.state);
    server.deliver(exit.into_iter().collect());
    server.queues.remove(&client.connection);
}

fn admin_of(server: &mut TestServer) -> Client {
    let code = server.bootstrap_invite.clone();
    connect_to(server, &[1u8; 32], Some(code)).expect("the bootstrap code should enroll an admin")
}

fn invited(server: &mut TestServer, admin: &mut Client, role: Role) -> String {
    order(server, admin, Command::CreateInvite { role, ttl_secs: 0 });
    match next_event(server, admin) {
        Event::Invited { code, expires } => {
            assert_eq!(expires, NOW + 24 * 60 * 60);
            code
        }
        other => panic!("expected an invite, got {other:?}"),
    }
}

fn enrolled(server: &mut TestServer, admin: &mut Client, role: Role) -> Client {
    let code = invited(server, admin, role);
    connect_to(server, &[2u8; 32], Some(code)).expect("a minted code should enroll")
}

fn created(server: &mut TestServer, client: &mut Client, name: &str) -> RoomId {
    order(
        server,
        client,
        Command::CreateRoom {
            name: name.to_string(),
        },
    );
    match next_event(server, client) {
        Event::RoomCreated(room) => {
            assert_eq!(room.name, name);
            room.id
        }
        other => panic!("expected the room, got {other:?}"),
    }
}

fn placed(server: &mut TestServer, client: &mut Client, target: Option<RoomId>) -> Placed {
    events(server, client);
    order(server, client, Command::SetRoom(target));
    match next_event(server, client) {
        Event::Placed(placed) => {
            assert_eq!(placed.room, target);
            placed
        }
        other => panic!("expected a placement, got {other:?}"),
    }
}

#[test]
fn a_request_is_answered_over_the_control_stream() {
    let mut server = TestServer::start();
    let mut client = admin_of(&mut server);

    order(&mut server, &mut client, Command::SetRoom(None));
    match next_event(&mut server, &mut client) {
        Event::Placed(placed) => assert_eq!(placed.room, None),
        other => panic!("expected the server's answer, got {other:?}"),
    }
}

#[test]
fn closing_the_client_reports_a_disconnect() {
    let mut server = TestServer::start();
    let mut client = admin_of(&mut server);

    assert!(matches!(
        client.control.commanded(Some(Command::Disconnect)),
        Step::Finish
    ));
    match disconnected(Ok(()), None) {
        Event::Disconnected { reason } => assert_eq!(reason, "closed"),
        other => panic!("expected the end of the session, got {other:?}"),
    }
    shutdown(&mut server, client);
    assert!(server
        .state
        .registry()
        .session(throcc::proto::UserId(1))
        .is_none());
}

#[test]
fn a_key_that_is_not_allowlisted_is_refused() {
    let mut server = TestServer::start();
    match connect_to(&mut server, &[5u8; 32], None).err() {
        Some(Error::Rejected(AuthErr::UnknownKey)) => {}
        other => panic!("expected an unknown key to be refused, got {other:?}"),
    }
}

#[test]
fn the_bootstrap_code_enrolls_one_admin_and_is_then_spent() {
    let mut server = TestServer::start();
    let code = server.bootstrap_invite.clone();

    let admin =
        connect_to(&mut server, &[1u8; 32], Some(code.clone())).expect("the code should enroll");
    assert_eq!(admin.welcome.role, Role::Admin);
    assert_eq!(admin.welcome.users.len(), 1);
    assert_eq!(admin.welcome.placed.room, None, "entering is explicit");
    shutdown(&mut server, admin);

    match connect_to(&mut server, &[2u8; 32], Some(code)).err() {
        Some(Error::Rejected(AuthErr::BadInvite)) => {}
        other => panic!("a spent code must not enroll a second key, got {other:?}"),
    }
}

#[test]
fn an_enrolled_key_reconnects_without_a_code() {
    let mut server = TestServer::start();
    let first = admin_of(&mut server);
    let me = first.welcome.me;
    shutdown(&mut server, first);

    let again =
        connect_to(&mut server, &[1u8; 32], None).expect("the stored key is on the allowlist");
    assert_eq!(again.welcome.me, me, "a UserId belongs to the key forever");
}

#[test]
fn an_admin_mints_a_code_that_enrolls_a_second_user() {
    let mut server = TestServer::start();
    let mut admin = admin_of(&mut server);
    let code = invited(&mut server, &mut admin, Role::User);

    let user =
        connect_to(&mut server, &[2u8; 32], Some(code)).expect("the minted code should enroll");
    assert_eq!(user.welcome.role, Role::User);
    assert_eq!(user.welcome.users.len(), 2, "the roster carries both keys");
}

#[test]
fn a_user_cannot_mint_a_code() {
    let mut server = TestServer::start();
    let mut admin = admin_of(&mut server);
    let mut user = enrolled(&mut server, &mut admin, Role::User);

    order(
        &mut server,
        &mut user,
        Command::CreateInvite {
            role: Role::User,
            ttl_secs: 0,
        },
    );
    match next_event(&mut server, &mut user) {
        Event::Failed { message } => assert!(message.contains("Denied"), "unexpected: {message}"),
        other => panic!("expected a refusal, got {other:?}"),
    }
}

#[test]
fn a_manager_manages_rooms_and_mints_nothing() {
    let mut server = TestServer::start();
    let mut admin = admin_of(&mut server);
    let mut manager = enrolled(&mut server, &mut admin, Role::Manager);
    assert_eq!(manager.welcome.role, Role::Manager);
    created(&mut server, &mut manager, "lounge");

    order(
        &mut server,
        &mut manager,
        Command::CreateInvite {
            role: Role::User,
            ttl_secs: 60,
        },
    );
    match next_event(&mut server, &mut manager) {
        Event::Failed { message } => {
            assert_eq!(message, "Denied: Admin is required, Manager is not enough")
        }
        other => panic!("expected a refusal, got {other:?}"),
    }
}

#[test]
fn a_created_room_reaches_everyone_connected() {
    let mut server = TestServer::start();
    let mut admin = admin_of(&mut server);
    let mut user = enrolled(&mut server, &mut admin, Role::User);

    let room = created(&mut server, &mut admin, "lounge");
    match next_event(&mut server, &mut user) {
        Event::RoomCreated(created) => {
            assert_eq!((created.id, created.name), (room, "lounge".into()))
        }
        other => panic!("the other client should see the room, got {other:?}"),
    }
}

#[test]
fn a_room_survives_a_reconnect_and_arrives_with_the_welcome() {
    let mut server = TestServer::start();
    let mut admin = admin_of(&mut server);
    let room = created(&mut server, &mut admin, "lounge");
    shutdown(&mut server, admin);

    let again = connect_to(&mut server, &[1u8; 32], None).unwrap();
    let rooms = &again.welcome.rooms;
    assert_eq!(rooms.len(), 1);
    assert_eq!((rooms[0].id, rooms[0].name.as_str()), (room, "lounge"));
}

#[test]
fn renaming_and_deleting_reach_everyone_connected() {
    let mut server = TestServer::start();
    let mut admin = admin_of(&mut server);
    let room = created(&mut server, &mut admin, "lounge");

    order(
        &mut server,
        &mut admin,
        Command::RenameRoom {
            room,
            name: "quiet".into(),
        },
    );
    assert_eq!(
        next_event(&mut server, &mut admin),
        Event::RoomRenamed {
            room,
            name: "quiet".into()
        }
    );

    order(&mut server, &mut admin, Command::DeleteRoom(room));
    assert_eq!(
        next_event(&mut server, &mut admin),
        Event::RoomDeleted(room)
    );
}

#[test]
fn a_user_cannot_manage_rooms() {
    let mut server = TestServer::start();
    let mut admin = admin_of(&mut server);
    let mut user = enrolled(&mut server, &mut admin, Role::User);

    order(
        &mut server,
        &mut user,
        Command::CreateRoom {
            name: "mine".into(),
        },
    );
    match next_event(&mut server, &mut user) {
        Event::Failed { message } => assert!(message.contains("Denied"), "unexpected: {message}"),
        other => panic!("a User must not create rooms, got {other:?}"),
    }
    assert!(events(&mut server, &mut admin).is_empty());
}

#[test]
fn a_nameless_room_and_a_missing_room_are_refused() {
    let mut server = TestServer::start();
    let mut admin = admin_of(&mut server);

    order(
        &mut server,
        &mut admin,
        Command::CreateRoom { name: "  ".into() },
    );
    match next_event(&mut server, &mut admin) {
        Event::Failed { message } => assert!(message.contains("Invalid"), "unexpected: {message}"),
        other => panic!("an empty name must be refused, got {other:?}"),
    }

    order(&mut server, &mut admin, Command::DeleteRoom(RoomId(404)));
    match next_event(&mut server, &mut admin) {
        Event::Failed { message } => assert!(message.contains("NotFound"), "unexpected: {message}"),
        other => panic!("a missing room must be refused, got {other:?}"),
    }

    order(
        &mut server,
        &mut admin,
        Command::RenameRoom {
            room: RoomId(404),
            name: "quiet".into(),
        },
    );
    match next_event(&mut server, &mut admin) {
        Event::Failed { message } => assert_eq!(message, "NotFound: no such room"),
        other => panic!("a missing room must be refused, got {other:?}"),
    }
}

#[test]
fn entering_a_room_allocates_tracks_and_bumps_the_epoch() {
    let mut server = TestServer::start();
    let mut admin = admin_of(&mut server);
    assert_eq!(admin.welcome.placed.room, None, "entering is explicit");
    assert!(admin.welcome.placed.tracks.is_none(), "no room, no tracks");

    let room = created(&mut server, &mut admin, "lounge");
    let entered = placed(&mut server, &mut admin, Some(room));
    let first = entered.tracks.expect("a room entered allocates tracks");
    assert!(entered.peers.is_empty(), "nobody else is in there");

    let again = placed(&mut server, &mut admin, Some(room));
    let second = again
        .tracks
        .expect("every membership change allocates tracks");
    assert!(
        again.epoch > entered.epoch,
        "every membership change bumps the epoch"
    );
    assert!(
        second.mic > first.mic,
        "a media id is never reused: {second:?} follows {first:?}"
    );

    let left = placed(&mut server, &mut admin, None);
    assert!(left.tracks.is_none(), "no room, no tracks");
}

#[test]
fn a_peer_sees_every_transition() {
    let mut server = TestServer::start();
    let mut admin = admin_of(&mut server);
    let mut user = enrolled(&mut server, &mut admin, Role::User);
    let room = created(&mut server, &mut admin, "lounge");
    placed(&mut server, &mut user, Some(room));

    let entered = placed(&mut server, &mut admin, Some(room));
    assert_eq!(
        entered.peers.len(),
        1,
        "the peer already in the room is in the placement"
    );
    match next_event(&mut server, &mut user) {
        Event::UserEntered {
            room: seen, peer, ..
        } => {
            assert_eq!(seen, room);
            assert_eq!(peer.user, admin.welcome.me);
            assert_eq!(Some(peer.tracks), entered.tracks);
        }
        other => panic!("expected an entry, got {other:?}"),
    }

    placed(&mut server, &mut admin, None);
    match next_event(&mut server, &mut user) {
        Event::UserExited {
            room: seen, user, ..
        } => {
            assert_eq!(seen, room);
            assert_eq!(user, admin.welcome.me);
        }
        other => panic!("expected an exit, got {other:?}"),
    }
}

#[test]
fn a_disconnect_removes_the_occupant() {
    let mut server = TestServer::start();
    let mut admin = admin_of(&mut server);
    let mut user = enrolled(&mut server, &mut admin, Role::User);
    let room = created(&mut server, &mut admin, "lounge");
    placed(&mut server, &mut user, Some(room));
    placed(&mut server, &mut admin, Some(room));
    events(&mut server, &mut user);

    let departing = admin.welcome.me;
    shutdown(&mut server, admin);
    match next_event(&mut server, &mut user) {
        Event::UserExited { user, .. } => assert_eq!(user, departing),
        other => panic!("a closed connection must leave the room, got {other:?}"),
    }

    assert!(
        placed(&mut server, &mut user, Some(room)).peers.is_empty(),
        "the room is empty again"
    );
}

#[test]
fn entering_a_room_that_does_not_exist_leaves_you_where_you_were() {
    let mut server = TestServer::start();
    let mut admin = admin_of(&mut server);
    let room = created(&mut server, &mut admin, "lounge");
    let entered = placed(&mut server, &mut admin, Some(room));

    order(
        &mut server,
        &mut admin,
        Command::SetRoom(Some(RoomId(404))),
    );
    match next_event(&mut server, &mut admin) {
        Event::Failed { message } => assert!(message.contains("NotFound"), "unexpected: {message}"),
        other => panic!("expected a refusal, got {other:?}"),
    }

    let unchanged = placed(&mut server, &mut admin, Some(room));
    assert!(
        unchanged.epoch > entered.epoch,
        "a refused move must not have moved anyone"
    );
}

#[test]
fn deleting_an_occupied_room_moves_its_occupants_to_no_room() {
    let mut server = TestServer::start();
    let mut admin = admin_of(&mut server);
    let room = created(&mut server, &mut admin, "lounge");
    placed(&mut server, &mut admin, Some(room));

    order(&mut server, &mut admin, Command::DeleteRoom(room));
    assert_eq!(
        next_event(&mut server, &mut admin),
        Event::RoomDeleted(room)
    );

    let lobby = placed(&mut server, &mut admin, None);
    assert_eq!(lobby.room, None);
    assert!(lobby.tracks.is_none());
}

#[test]
fn fifty_moves_leave_no_roster_divergence() {
    let mut server = TestServer::start();
    let mut admin = admin_of(&mut server);
    let mut user = enrolled(&mut server, &mut admin, Role::User);
    let watched = created(&mut server, &mut admin, "watched");
    let elsewhere = created(&mut server, &mut admin, "elsewhere");
    placed(&mut server, &mut user, Some(watched));

    let mover = admin.welcome.me;
    let mut where_admin_is: Option<RoomId> = None;
    let mut transitions = 0;

    let mut draw: u64 = 0x2545_F491_4F6C_DD1D;
    for _ in 0..50 {
        draw = draw.wrapping_mul(6_364_136_223_846_793_005).wrapping_add(1);
        let target = match draw >> 62 {
            0 => None,
            1 => Some(elsewhere),
            _ => Some(watched),
        };
        if target == where_admin_is {
            continue;
        }
        placed(&mut server, &mut admin, target);
        if where_admin_is == Some(watched) || target == Some(watched) {
            transitions += 1;
        }
        where_admin_is = target;
    }

    let seen = events(&mut server, &mut user);
    assert_eq!(seen.len(), transitions);
    let mut present = false;
    for event in seen {
        match event {
            Event::UserEntered { room, peer, .. } => {
                assert_eq!((room, peer.user), (watched, mover));
                assert!(!present, "an entry arrived for a peer already in the room");
                present = true;
            }
            Event::UserExited { room, user, .. } => {
                assert_eq!((room, user), (watched, mover));
                assert!(
                    present,
                    "an exit arrived for a peer that was not in the room"
                );
                present = false;
            }
            other => panic!("expected a membership event, got {other:?}"),
        }
    }

    assert_eq!(
        present,
        where_admin_is == Some(watched),
        "the watching client's roster diverged from where the mover actually is"
    );
}

const UNITS: u64 = 30;

type Arrivals = HashMap<MediaId, Vec<Vec<u8>>>;

fn enter(server: &mut TestServer, client: &mut Client, room: RoomId) -> Tracks {
    placed(server, client, Some(room))
        .tracks
        .expect("a room entered allocates tracks")
}

/// Sends a unit, has the server pass it on, and collects what reaches a client.
fn send(
    server: &mut TestServer,
    from: &mut Client,
    media_id: MediaId,
    unit: &[u8],
    timestamp: Option<u32>,
    to: &Client,
    arrivals: &mut Arrivals,
) {
    let mut outgoing = match from.media.send(media_id, unit, timestamp, false, QUEUE) {
        Some(outgoing) => outgoing,
        None => return,
    };
    assert!(from.media.can_number(media_id, QUEUE));
    let route = route_of(&server.state, from.welcome.me);
    while let Some(datagram) = from.media.next_datagram(&mut outgoing) {
        if !forward(&route, &datagram) {
            continue;
        }
        for subscriber in &route.subscribers {
            let media = server
                .receivers
                .get_mut(subscriber)
                .unwrap()
                .receive(&datagram);
            if *subscriber == to.connection {
                for unit in media {
                    arrivals
                        .entry(unit.media_id)
                        .or_default()
                        .push(unit.unit.bytes);
                }
            }
        }
    }
}

#[test]
fn units_cross_the_server_in_order_and_without_duplicates() {
    let mut server = TestServer::start();
    let mut sender = admin_of(&mut server);
    let mut receiver = enrolled(&mut server, &mut sender, Role::User);
    let room = created(&mut server, &mut sender, "lounge");
    enter(&mut server, &mut receiver, room);
    let tracks = enter(&mut server, &mut sender, room);
    assert_eq!(sender.media.microphone(), Some(tracks.mic));
    let share = tracks.shares.first().expect("one share");
    let audio = share.audio.expect("a share allocates an audio id");

    let mut arrivals = Arrivals::new();
    for counter in 1..=UNITS {
        for (media_id, len, timestamp) in [
            (tracks.mic, 80, None),
            (share.video, 3_000, Some(90)),
            (audio, 160, Some(90)),
        ] {
            send(
                &mut server,
                &mut sender,
                media_id,
                &counted(counter, len),
                timestamp,
                &receiver,
                &mut arrivals,
            );
        }
    }

    assert_eq!(
        sender.media.dropped_units(),
        0,
        "nothing was dropped locally"
    );
    assert_eq!(
        arrivals.len(),
        3,
        "one stream per media id, got {:?}",
        arrivals.keys().collect::<Vec<_>>()
    );

    for (media_id, units) in &arrivals {
        let counters: Vec<u64> = units.iter().map(|unit| counter_of(unit)).collect();
        assert!(
            counters.windows(2).all(|pair| pair[0] < pair[1]),
            "{media_id:?} arrived out of order or duplicated: {counters:?}"
        );
        assert_eq!(
            counters.len() as u64,
            UNITS,
            "{media_id:?} lost units on loopback"
        );
        let expected_len = if *media_id == tracks.mic { 80 } else { 160 };
        let expected_len = if *media_id == share.video {
            3_000
        } else {
            expected_len
        };
        assert!(
            units.iter().all(|unit| unit.len() == expected_len),
            "{media_id:?} reassembled to the wrong length"
        );
    }
}

#[test]
fn a_client_in_another_room_receives_nothing() {
    let mut server = TestServer::start();
    let mut sender = admin_of(&mut server);
    let mut elsewhere = enrolled(&mut server, &mut sender, Role::User);
    let lounge = created(&mut server, &mut sender, "lounge");
    let other = created(&mut server, &mut sender, "other");
    enter(&mut server, &mut elsewhere, other);
    let tracks = enter(&mut server, &mut sender, lounge);

    let mut arrivals = Arrivals::new();
    for counter in 1..=UNITS {
        send(
            &mut server,
            &mut sender,
            tracks.mic,
            &counted(counter, 80),
            None,
            &elsewhere,
            &mut arrivals,
        );
    }
    assert!(
        arrivals.is_empty(),
        "media must not leave the room it was sent in"
    );
}

#[test]
fn a_sender_claiming_another_peers_media_id_is_dropped() {
    let mut server = TestServer::start();
    let mut spoofer = admin_of(&mut server);
    let mut victim = enrolled(&mut server, &mut spoofer, Role::User);
    let room = created(&mut server, &mut spoofer, "lounge");
    let victim_tracks = enter(&mut server, &mut victim, room);
    let own_tracks = enter(&mut server, &mut spoofer, room);

    let mut spoofed = Arrivals::new();
    for counter in 1..=UNITS {
        for media_id in [victim_tracks.mic, MediaId(u32::MAX)] {
            send(
                &mut server,
                &mut spoofer,
                media_id,
                &counted(counter, 80),
                None,
                &victim,
                &mut spoofed,
            );
        }
    }
    assert!(
        spoofed.is_empty(),
        "the server must not forward an id the sender does not own"
    );

    let mut own = Arrivals::new();
    for counter in 1..=UNITS {
        send(
            &mut server,
            &mut spoofer,
            own_tracks.mic,
            &counted(counter, 80),
            None,
            &victim,
            &mut own,
        );
    }
    assert_eq!(own.len(), 1, "the spoofer's own track still flows");
}

#[test]
fn datagrams_carry_the_newest_epoch_and_count_up() {
    let mut sender = MediaSender::new(Epoch(3));
    sender.observe(Epoch(7));
    sender.observe(Epoch(5));
    let unit = counted(1, 2_000);
    let mut outgoing = sender
        .send(MediaId(9), &unit, None, true, QUEUE)
        .expect("the queue has room");
    let mut headers = Vec::new();
    while let Some(datagram) = sender.next_datagram(&mut outgoing) {
        headers.push(FrameHeader::decode(&datagram).unwrap());
    }
    assert_eq!(headers.len(), 2);
    for (seq, header) in headers.iter().enumerate() {
        assert_eq!(header.media_id, MediaId(9));
        assert_eq!(header.epoch, Epoch(7));
        assert_eq!(header.seq, seq as u32);
        assert!(header.is_keyframe());
    }
}

#[test]
fn a_full_queue_drops_the_whole_unit() {
    let mut sender = MediaSender::new(Epoch(0));
    assert!(sender
        .send(MediaId(1), &[0u8; 3_000], None, false, 2)
        .is_none());
    assert_eq!(sender.dropped_units(), 1);
    assert!(sender
        .send(MediaId(1), &[0u8; 3_000], None, false, 3)
        .is_some());
    sender.refused();
    assert_eq!(sender.dropped_units(), 2);
}

#[test]
fn what_is_not_media_is_not_received() {
    let mut receiver = Receiver::new();
    assert!(receiver.receive(&[0u8; 12]).is_empty());
    assert!(receiver.receive(&[0u8; 13]).is_empty(), "no marks");
    let mut sender = MediaSender::new(Epoch(0));
    let mut outgoing = sender
        .send(MediaId(4), b"unit", Some(7), false, QUEUE)
        .unwrap();
    let datagram = sender.next_datagram(&mut outgoing).unwrap();
    let heard = receiver.receive(&datagram);
    assert_eq!(heard.len(), 1);
    assert_eq!(heard[0].media_id, MediaId(4));
    assert_eq!(heard[0].unit.timestamp, Some(7));
    assert_eq!(heard[0].unit.bytes, b"unit".to_vec());
    assert!(
        receiver.receive(&datagram).is_empty(),
        "a duplicate is not delivered twice"
    );
}

#[test]
fn the_newest_session_of_a_key_wins() {
    let mut server = TestServer::start();
    let mut admin = admin_of(&mut server);
    let room = created(&mut server, &mut admin, "lounge");
    placed(&mut server, &mut admin, Some(room));

    let again = connect_to(&mut server, &[1u8; 32], None).unwrap();
    assert_eq!(again.welcome.placed.room, None);
    let session = server.state.registry().session(again.welcome.me).unwrap();
    assert_eq!(session.connection, again.connection);

    let late = ReqEnvelope {
        id: 9,
        req: Req::SetRoom(Some(room)),
    };
    assert!(
        admin
            .at_server
            .request(&mut server.state, late, NOW)
            .is_none(),
        "a stream that was replaced is not answered"
    );
    let session = server.state.registry().session(again.welcome.me).unwrap();
    assert_eq!(session.place, None, "nor does it move the new session");

    shutdown(&mut server, admin);
    assert!(
        server.state.registry().session(again.welcome.me).is_some(),
        "an old connection that closes does not end the new session"
    );
}

#[test]
fn a_roster_follows_arrivals_departures_and_deletions() {
    let mut server = TestServer::start();
    let mut admin = admin_of(&mut server);
    let room = created(&mut server, &mut admin, "lounge");
    placed(&mut server, &mut admin, Some(room));
    let me = admin.welcome.me;
    let other = UserId(2);

    let next = server.state.database().next_media_id();
    let arrived = server.state.arrive(other, 70, Some(room));
    assert_eq!(arrived.displaced, None);
    assert_eq!(arrived.placed.room, Some(room));
    assert_eq!(arrived.placed.peers.len(), 1);
    assert_eq!(arrived.placed.tracks.unwrap().mic, MediaId(next));
    assert_eq!(arrived.notices.len(), 1);
    assert_eq!(arrived.notices[0].to, vec![me]);

    let again = server.state.arrive(other, 71, Some(room));
    assert_eq!(again.displaced, Some(70));
    assert_eq!(again.notices.len(), 2, "an exit, then an entry");
    assert_eq!(again.placed.tracks.unwrap().mic, MediaId(next + 3));

    assert!(server.state.depart(other, 70).is_none());
    let exit = server.state.depart(other, 71).expect("the room is told");
    assert_eq!(exit.to, vec![me]);
    assert_eq!(server.state.database().next_media_id(), next + 6);

    server.state.arrive(other, 72, None);
    let told = server.state.delete_room(room).expect("there is such a room");
    assert_eq!(told.to, vec![me, other]);
    let session = server.state.registry().session(me).unwrap();
    assert_eq!(session.place, None);
}

#[test]
fn leaving_takes_no_media_id() {
    let room = Room {
        id: RoomId(1),
        name: "lounge".to_string(),
        epoch: Epoch(u32::MAX - 2),
    };
    let last = u32::MAX - 3;
    let database = Database::from_rows(Vec::new(), Vec::new(), vec![room], last).unwrap();
    let mut state = State::new(database);
    let user = UserId(1);
    assert!(state.can_arrive(user, Some(RoomId(1))));
    let arrived = state.arrive(user, 1, Some(RoomId(1)));
    assert_eq!(arrived.placed.epoch, Epoch(u32::MAX - 1));
    assert_eq!(state.database().next_media_id(), u32::MAX);

    assert!(!state.can_move(user, Some(RoomId(1))), "no media id is left");
    assert!(state.can_move(user, Some(RoomId(2))), "there is no such room");
    assert!(state.can_move(user, None));
    assert!(state.can_leave(user));
    assert!(state.depart(user, 1).is_some());
    assert_eq!(state.database().room_epoch(RoomId(1)), Some(Epoch(u32::MAX)));

    assert!(state.can_arrive(user, None));
    assert!(!state.can_arrive(user, Some(RoomId(1))));
    state.arrive(user, 2, None);
    assert!(state.can_leave(user), "nobody has to leave nowhere");
    assert_eq!(state.back_up(user).0, Some(2));
}

#[test]
fn a_client_that_stops_reading_is_let_go() {
    let mut server = TestServer::start();
    let mut admin = admin_of(&mut server);
    let mut user = enrolled(&mut server, &mut admin, Role::User);
    let room = created(&mut server, &mut admin, "lounge");
    placed(&mut server, &mut user, Some(room));
    placed(&mut server, &mut admin, Some(room));

    let (closed, exit) = server.state.back_up(user.welcome.me);
    assert_eq!(closed, Some(user.connection));
    let exit = exit.expect("the others are told");
    assert_eq!(exit.to, vec![admin.welcome.me]);
    assert!(server.state.registry().session(user.welcome.me).is_none());
    assert_eq!(server.state.back_up(user.welcome.me).0, None);
}

#[test]
fn a_stray_answer_ends_the_session() {
    let mut control = ClientControl::new();
    let mut media = MediaSender::new(Epoch(0));
    let stray = ServerMessage::Resp(throcc::proto::RespEnvelope {
        id: 7,
        resp: throcc::proto::Resp::Done,
    });
    match control.received(&mut media, Inbound::Message(stray)) {
        Step::Fail(error) => assert_eq!(
            disconnect_reason(Err(error), None),
            "protocol: response 7 answers no pending request"
        ),
        _ => panic!("an answer to nothing must end the session"),
    }
    assert!(matches!(
        control.received(&mut media, Inbound::Closed),
        Step::Finish
    ));
    assert_eq!(
        disconnect_reason(Ok(()), Some("timed out".to_string())),
        "timed out"
    );
    assert_eq!(disconnect_reason(Ok(()), None), "closed");
}

#[test]
fn an_unimplemented_request_is_named() {
    let mut server = TestServer::start();
    let admin = admin_of(&mut server);
    let (message, notices) = admin
        .at_server
        .request(
            &mut server.state,
            throcc::proto::ReqEnvelope {
                id: 3,
                req: throcc::proto::Req::RequestKeyframe(MediaId(5)),
            },
            NOW,
        )
        .unwrap();
    assert!(notices.is_empty());
    match message {
        ServerMessage::Resp(reply) => {
            assert_eq!(reply.id, 3);
            assert_eq!(
                reply.resp,
                throcc::proto::Resp::Failed {
                    code: throcc::proto::ErrCode::Unimplemented,
                    msg: "RequestKeyframe(MediaId(5)) is not implemented".to_string(),
                }
            );
        }
        other => panic!("expected an answer, got {other:?}"),
    }
}

#[test]
fn a_stream_closed_before_authenticating_comes_to_nothing() {
    let mut server = TestServer::start();
    let (mut control, hello) = ServerControl::open([4u8; 32], 9);
    assert_eq!(hello.server_nonce, [4u8; 32]);
    assert!(matches!(
        control.authenticate(&mut server.state, None, &[0u8; 32], PEER, NOW),
        Authenticated::ClosedEarly
    ));
    assert!(control.actor().is_none());
    assert!(control.close(&mut server.state).is_none());
}

#[test]
fn an_admitted_client_enters_the_room_it_wants() {
    let mut server = TestServer::start();
    let mut admin = admin_of(&mut server);
    let room = created(&mut server, &mut admin, "lounge");
    placed(&mut server, &mut admin, Some(room));
    let me = admin.welcome.me;

    let arrived = server.state.arrive(me, 77, Some(room));
    assert_eq!(arrived.displaced, Some(admin.connection));
    assert_eq!(arrived.placed.room, Some(room));
    assert_eq!(arrived.notices.len(), 2);

    let arrived = server.state.arrive(me, 78, Some(RoomId(404)));
    assert_eq!(arrived.placed.room, None);
    assert_eq!(arrived.placed.epoch, Epoch(0));
}

#[test]
fn a_datagram_is_routed_by_its_header_alone() {
    let mut server = TestServer::start();
    let mut admin = admin_of(&mut server);
    let room = created(&mut server, &mut admin, "lounge");
    let tracks = enter(&mut server, &mut admin, room);
    let route = route_of(&server.state, admin.welcome.me);
    let mut header = FrameHeader {
        media_id: tracks.mic,
        epoch: Epoch(0),
        seq: 0,
        flags: 0xff,
    };
    for payload in [&b""[..], b"\xff\xff", &[0u8; 2_000]] {
        header.media_id = tracks.mic;
        let mut own = header.encode().to_vec();
        own.extend_from_slice(payload);
        assert!(forward(&route, &own));
        header.media_id = MediaId(u32::MAX);
        let mut foreign = header.encode().to_vec();
        foreign.extend_from_slice(payload);
        assert!(!forward(&route, &foreign));
    }
    assert!(!forward(&route, &header.encode()[..12]));
}

#[test]
fn deleting_a_room_leaves_the_others_occupied() {
    let mut server = TestServer::start();
    let mut admin = admin_of(&mut server);
    let mut user = enrolled(&mut server, &mut admin, Role::User);
    let lounge = created(&mut server, &mut admin, "lounge");
    let other = created(&mut server, &mut admin, "other");
    placed(&mut server, &mut admin, Some(lounge));
    placed(&mut server, &mut user, Some(other));

    order(&mut server, &mut admin, Command::DeleteRoom(lounge));
    let place = |server: &TestServer, client: &Client| {
        let session = server.state.registry().session(client.welcome.me).unwrap();
        session.place.map(|place| place.room)
    };
    assert_eq!(place(&server, &admin), None);
    assert_eq!(place(&server, &user), Some(other));
    assert_eq!(
        placed(&mut server, &mut admin, Some(other)).peers.len(),
        1,
        "the user is still there"
    );
}
