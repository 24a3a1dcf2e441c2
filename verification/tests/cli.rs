use throcc::cli::{
    advice, check_host, command, counted, counter_of, format_authority, report, split_word, synthetic,
    Spoken, HELP,
};
use throcc::client::client::Command;
use throcc::client::Error;
use throcc::proto::{
    AuthErr, Epoch, InitialState, MediaId, Placed, Role, Room, RoomId, Share, Tracks, User, UserId,
};

#[test]
fn brackets_only_ipv6_addresses() {
    let is_ipv6 = |host: &str| host == "::1";
    let authority = |host: &str| format_authority(host, 8476, is_ipv6(host));
    assert_eq!(authority("::1"), "[::1]:8476");
    assert_eq!(authority("1.2.3.4"), "1.2.3.4:8476");
    assert_eq!(authority("example.com"), "example.com:8476");
}

#[test]
fn a_line_splits_into_a_word_and_the_rest() {
    assert_eq!(split_word("rename 7"), ("rename", "7"));
    assert_eq!(split_word("  rename 7 "), ("rename", "7"));
    assert_eq!(
        split_word("\trename \u{3000} 7 the lounge "),
        ("rename", "7 the lounge")
    );
    assert_eq!(split_word(" quit\n"), ("quit", ""));
    assert_eq!(split_word("   "), ("", ""));
}

fn to_server(command: Command) -> std::result::Result<Option<Spoken>, String> {
    Ok(Some(Spoken::ToServer(command)))
}

#[test]
fn commands_parse() {
    assert_eq!(command("room none"), to_server(Command::SetRoom(None)));
    assert_eq!(
        command("room 7"),
        to_server(Command::SetRoom(Some(RoomId(7))))
    );
    assert_eq!(
        command("create the lounge"),
        to_server(Command::CreateRoom {
            name: "the lounge".into()
        })
    );
    assert_eq!(
        command("rename 7 the lounge"),
        to_server(Command::RenameRoom {
            room: RoomId(7),
            name: "the lounge".into()
        })
    );
    assert_eq!(
        command("delete 7"),
        to_server(Command::DeleteRoom(RoomId(7)))
    );
    assert_eq!(
        command("invite manager"),
        to_server(Command::CreateInvite {
            role: Role::Manager,
            ttl_secs: 0
        })
    );
    assert_eq!(command("mic on"), Ok(Some(Spoken::Microphone(true))));
    assert_eq!(command("mute off"), Ok(Some(Spoken::Muted(false))));
    assert_eq!(command("quit"), Ok(None));
    assert!(command("room later").is_err());
    assert!(command("create").is_err());
    assert!(command("rename 7").is_err());
    assert!(command("mic").is_err());
    assert!(command("dance").is_err());
}

#[test]
fn lines_that_do_not_parse_are_answered() {
    assert_eq!(
        command("room later").unwrap_err(),
        "later is not a room id"
    );
    assert_eq!(
        command("dance").unwrap_err(),
        format!("dance is not a command. {HELP}")
    );
    assert_eq!(
        command("mic loud").unwrap_err(),
        "loud is not on or off"
    );
    assert_eq!(
        command("rename x y").unwrap_err(),
        "x is not a room id"
    );
    assert_eq!(command(""), Err(HELP.to_string()));
    assert_eq!(
        command("invite emperor").unwrap_err(),
        "emperor is not a role"
    );
}

#[test]
fn spaces_around_words_are_ignored() {
    assert_eq!(
        command("  room \u{a0} 7  "),
        to_server(Command::SetRoom(Some(RoomId(7))))
    );
    assert_eq!(
        command("invite"),
        to_server(Command::CreateInvite {
            role: Role::User,
            ttl_secs: 0
        })
    );
    assert_eq!(
        command("room +18446744073709551615"),
        to_server(Command::SetRoom(Some(RoomId(u64::MAX))))
    );
    assert!(command("room 18446744073709551616").is_err());
}

#[test]
fn a_host_with_a_port_is_refused() {
    assert_eq!(check_host("example.com", false), Ok(()));
    assert_eq!(check_host("::1", true), Ok(()));
    assert_eq!(
        check_host("example.com:1", false).unwrap_err(),
        "example.com:1 is not a host name or IP address; the port goes in --port"
    );
}

#[test]
fn a_changed_key_and_a_refusal_come_with_advice() {
    let shown = advice(&Error::PinMismatch {
        server: "s".to_string(),
        pinned: "aa".to_string(),
        presented: "bb".to_string(),
    })
    .unwrap();
    assert!(shown.starts_with("the key for s has changed.\n  pinned:    aa\n  presented: bb\n\n"));
    assert_eq!(
        advice(&Error::Rejected(AuthErr::UnknownKey)).unwrap(),
        "UnknownKey.\nEnroll this client with --invite <CODE>."
    );
    assert!(advice(&Error::Connect("refused".to_string())).is_none());
}

#[test]
fn a_counted_unit_gives_its_counter_back() {
    let unit = counted(0x0102_0304_0506_0708, 80);
    assert_eq!(unit.len(), 80);
    assert_eq!(unit[..9], [1, 2, 3, 4, 5, 6, 7, 8, 0]);
    assert_eq!(counter_of(&unit), 0x0102_0304_0506_0708);
}

#[test]
fn every_track_gets_a_dummy() {
    let tracks = Tracks {
        mic: MediaId(1),
        shares: vec![Share {
            video: MediaId(2),
            audio: Some(MediaId(3)),
        }],
    };
    let dummies = synthetic(&tracks, 9);
    let sent: Vec<(MediaId, usize, Option<u32>)> = dummies
        .iter()
        .map(|dummy| {
            assert_eq!(counter_of(&dummy.unit), 9);
            (dummy.media_id, dummy.unit.len(), dummy.timestamp)
        })
        .collect();
    assert_eq!(
        sent,
        vec![
            (MediaId(1), 80, None),
            (MediaId(2), 3_000, Some(90)),
            (MediaId(3), 160, Some(90)),
        ]
    );
}

#[test]
fn a_welcome_is_reported_line_by_line() {
    let mut welcome = InitialState {
        me: UserId(2),
        role: Role::Manager,
        users: vec![
            User {
                id: UserId(1),
                pubkey: [0u8; 32],
                name: String::new(),
                avatar: None,
                role: Role::Admin,
            },
            User {
                id: UserId(2),
                pubkey: [1u8; 32],
                name: "someone".to_string(),
                avatar: None,
                role: Role::Manager,
            },
        ],
        rooms: Vec::new(),
        placed: Placed {
            room: None,
            epoch: Epoch(0),
            tracks: None,
            peers: Vec::new(),
        },
    };
    assert_eq!(
        report(&welcome),
        vec![
            "you are user 2 with role Manager",
            "  user 1 <unnamed> (Admin)",
            "  user 2 someone (Manager)",
            "no rooms exist yet",
            "you are in no room",
        ]
    );
    welcome.rooms.push(Room {
        id: RoomId(7),
        name: "lounge".to_string(),
        epoch: Epoch(3),
    });
    welcome.placed.room = Some(RoomId(7));
    assert_eq!(
        report(&welcome)[3..],
        ["  room 7 lounge".to_string(), "you are in room 7".to_string()]
    );
}
