//! The command line: what is typed, and what is shown.

use vstd::prelude::*;

use crate::client::client::Command;
use crate::client::{self, Error};
use crate::proto::ids::{MediaId, RoomId};
use crate::proto::msg::{InitialState, Role, Room, Share, Tracks, User};
use crate::proto::wire;
use crate::server::permissions;
use crate::text;

verus! {

/// What a typed line asks for. Only some of it reaches the server: the
/// microphone is local.
#[derive(Debug, PartialEq)]
pub enum Spoken {
    ToServer(Command),
    Microphone(bool),
    Muted(bool),
}

/// What can be typed.
pub const HELP: &'static str =
    "commands: room <id>|none, mic on|off, mute on|off, create <name>, rename <id> <name>, delete <id>, invite [user|manager|admin], quit";

/// How many characters come before the first whitespace.
pub open spec fn word_len(line: Seq<char>) -> nat
    decreases line.len(),
{
    if line.len() == 0 || text::is_space(line[0]) {
        0
    } else {
        1 + word_len(line.drop_first())
    }
}

/// The first word of a line.
pub open spec fn first_word(line: Seq<char>) -> Seq<char> {
    line.take(word_len(line) as int)
}

/// What follows the first word, trimmed.
pub open spec fn after_word(line: Seq<char>) -> Seq<char> {
    if word_len(line) < line.len() {
        text::trimmed(line.skip(word_len(line) as int + 1))
    } else {
        Seq::empty()
    }
}

/// The number that decimal digits spell.
pub open spec fn number(digits: Seq<char>) -> nat
    decreases digits.len(),
{
    if digits.len() == 0 {
        0
    } else {
        number(digits.drop_last()) * 10 + (digits.last() as nat - '0' as nat) as nat
    }
}

/// Whether text is decimal digits, and at least one.
pub open spec fn is_digits(digits: Seq<char>) -> bool {
    digits.len() > 0 && forall|i: int| 0 <= i < digits.len() ==> '0' <= #[trigger] digits[i] <= '9'
}

/// The digits of a number, behind a plus sign where there is one.
pub open spec fn unsigned(word: Seq<char>) -> Seq<char> {
    if word.len() > 1 && word[0] == '+' {
        word.skip(1)
    } else {
        word
    }
}

/// The number that a word spells: decimal digits, behind a plus sign or not, that
/// fit.
pub open spec fn parsed_number(word: Seq<char>) -> Option<u64> {
    let digits = unsigned(word);
    if is_digits(digits) && number(digits) <= u64::MAX {
        Some(number(digits) as u64)
    } else {
        None
    }
}

/// The switch that a word names.
pub open spec fn parsed_switch(word: Seq<char>) -> Option<bool> {
    if word == "on"@ {
        Some(true)
    } else if word == "off"@ {
        Some(false)
    } else {
        None
    }
}

/// The role that a word names, which is a user's where none is.
pub open spec fn parsed_role(word: Seq<char>) -> Option<Role> {
    if word == ""@ || word == "user"@ {
        Some(Role::User)
    } else if word == "manager"@ {
        Some(Role::Manager)
    } else if word == "admin"@ {
        Some(Role::Admin)
    } else {
        None
    }
}

/// Whether a line is answered with these words.
pub open spec fn is_complaint(
    spoken: Result<Option<Spoken>, String>,
    message: Seq<char>,
) -> bool {
    spoken matches Err(complaint) && complaint@ == message
}

/// Whether a line is understood as a switch, or complained about.
pub open spec fn is_switch(
    rest: Seq<char>,
    spoken: Result<Option<Spoken>, String>,
    microphone: bool,
) -> bool {
    match parsed_switch(rest) {
        Some(on) => spoken == Ok::<Option<Spoken>, String>(
            Some(
                if microphone {
                    Spoken::Microphone(on)
                } else {
                    Spoken::Muted(on)
                },
            ),
        ),
        None => is_complaint(spoken, rest + " is not on or off"@),
    }
}

/// Whether a line is understood as a command for the server.
pub open spec fn is_to_server(spoken: Result<Option<Spoken>, String>, command: Command) -> bool {
    spoken == Ok::<Option<Spoken>, String>(Some(Spoken::ToServer(command)))
}

/// Whether a line is understood as it should be: `word` is its first word and
/// `rest` what follows.
pub open spec fn is_understood(
    word: Seq<char>,
    rest: Seq<char>,
    spoken: Result<Option<Spoken>, String>,
) -> bool {
    if word == ""@ {
        is_complaint(spoken, HELP@)
    } else if word == "quit"@ {
        spoken == Ok::<Option<Spoken>, String>(None)
    } else if word == "mic"@ {
        is_switch(rest, spoken, true)
    } else if word == "mute"@ {
        is_switch(rest, spoken, false)
    } else if word == "room"@ {
        if rest == "none"@ {
            is_to_server(spoken, Command::SetRoom(None))
        } else {
            match parsed_number(rest) {
                Some(id) => is_to_server(spoken, Command::SetRoom(Some(RoomId(id)))),
                None => is_complaint(spoken, rest + " is not a room id"@),
            }
        }
    } else if word == "create"@ {
        if rest == ""@ {
            is_complaint(spoken, "create takes a name"@)
        } else {
            spoken matches Ok(Some(Spoken::ToServer(Command::CreateRoom { name }))) && name@ == rest
        }
    } else if word == "rename"@ {
        if after_word(rest) == ""@ {
            is_complaint(spoken, "rename takes an id and a name"@)
        } else {
            match parsed_number(first_word(rest)) {
                Some(id) => spoken matches Ok(
                    Some(Spoken::ToServer(Command::RenameRoom { room, name })),
                ) && room == RoomId(id) && name@ == after_word(rest),
                None => is_complaint(spoken, first_word(rest) + " is not a room id"@),
            }
        }
    } else if word == "delete"@ {
        match parsed_number(rest) {
            Some(id) => is_to_server(spoken, Command::DeleteRoom(RoomId(id))),
            None => is_complaint(spoken, rest + " is not a room id"@),
        }
    } else if word == "invite"@ {
        match parsed_role(rest) {
            Some(role) => is_to_server(spoken, (Command::CreateInvite { role, ttl_secs: 0 })),
            None => is_complaint(spoken, rest + " is not a role"@),
        }
    } else {
        is_complaint(spoken, word + " is not a command. "@ + HELP@)
    }
}

/// The parsed line, or `None` when it ends the session.
pub fn command(line: &str) -> (spoken: Result<Option<Spoken>, String>)
    ensures
        is_understood(
            first_word(text::trimmed(line@)),
            after_word(text::trimmed(line@)),
            spoken,
        ),
{
    let (word, rest) = split_word(line);
    proof {
        what_follows_is_trimmed(text::trimmed(line@));
    }
    if text::same(word, "") {
        return Err(HELP.to_string());
    }
    if text::same(word, "quit") {
        return Ok(None);
    }
    if text::same(word, "mic") {
        return match parse_switch(rest) {
            Ok(on) => Ok(Some(Spoken::Microphone(on))),
            Err(complaint) => Err(complaint),
        };
    }
    if text::same(word, "mute") {
        return match parse_switch(rest) {
            Ok(muted) => Ok(Some(Spoken::Muted(muted))),
            Err(complaint) => Err(complaint),
        };
    }
    if text::same(word, "room") {
        if text::same(rest, "none") {
            return Ok(Some(Spoken::ToServer(Command::SetRoom(None))));
        }
        return match parse_room(rest) {
            Ok(room) => Ok(Some(Spoken::ToServer(Command::SetRoom(Some(room))))),
            Err(complaint) => Err(complaint),
        };
    }
    if text::same(word, "create") {
        if text::same(rest, "") {
            return Err("create takes a name".to_string());
        }
        return Ok(Some(Spoken::ToServer(Command::CreateRoom { name: rest.to_string() })));
    }
    if text::same(word, "rename") {
        let (id, name) = split_word(rest);
        if text::same(name, "") {
            return Err("rename takes an id and a name".to_string());
        }
        return match parse_room(id) {
            Ok(room) => Ok(
                Some(Spoken::ToServer(Command::RenameRoom { room, name: name.to_string() })),
            ),
            Err(complaint) => Err(complaint),
        };
    }
    if text::same(word, "delete") {
        return match parse_room(rest) {
            Ok(room) => Ok(Some(Spoken::ToServer(Command::DeleteRoom(room)))),
            Err(complaint) => Err(complaint),
        };
    }
    if text::same(word, "invite") {
        return match parse_role(rest) {
            Ok(role) => Ok(Some(Spoken::ToServer(Command::CreateInvite { role, ttl_secs: 0 }))),
            Err(complaint) => Err(complaint),
        };
    }
    let mut complaint = word.to_string();
    complaint.append(" is not a command. ");
    complaint.append(HELP);
    Err(complaint)
}

/// What follows a word needs no more trimming.
proof fn what_follows_is_trimmed(line: Seq<char>)
    ensures
        text::trimmed(after_word(line)) == after_word(line),
{
    if word_len(line) < line.len() {
        text::trimming_once_is_enough(line.skip(word_len(line) as int + 1));
    } else {
        text::nothing_to_trim(Seq::empty());
    }
}

/// The first word and whatever follows it, both trimmed.
pub fn split_word(line: &str) -> (split: (&str, &str))
    ensures
        split.0@ == first_word(text::trimmed(line@)),
        split.1@ == after_word(text::trimmed(line@)),
{
    let bare = line.trim();
    let len: usize = bare.unicode_len();
    let mut i: usize = 0;
    assert(bare@.skip(0) =~= bare@);
    while i < len
        invariant
            i <= len == bare@.len(),
            bare@ == text::trimmed(line@),
            word_len(bare@) == i + word_len(bare@.skip(i as int)),
        decreases len - i,
    {
        let ghost here = bare@.skip(i as int);
        if text::is_whitespace(bare.get_char(i)) {
            assert(here[0] == bare@[i as int]);
            return (bare.substring_char(0, i), bare.substring_char(i + 1, len).trim());
        }
        assert(here.drop_first() =~= bare@.skip(i + 1));
        i += 1;
    }
    assert(bare@.take(len as int) =~= bare@);
    proof {
        reveal_strlit("");
    }
    (bare, "")
}

/// The room whose id a word spells.
pub fn parse_room(word: &str) -> (room: Result<RoomId, String>)
    ensures
        match (room, parsed_number(word@)) {
            (Ok(room), Some(id)) => room == RoomId(id),
            (Err(complaint), None) => complaint@ == word@ + " is not a room id"@,
            _ => false,
        },
{
    match parse_number(word) {
        Some(id) => Ok(RoomId(id)),
        None => Err(text::joined(word, " is not a room id")),
    }
}

fn parse_number(word: &str) -> (parsed: Option<u64>)
    ensures
        parsed == parsed_number(word@),
{
    let len: usize = word.unicode_len();
    let start: usize = if len > 1 && word.get_char(0) == '+' {
        1
    } else {
        0
    };
    let ghost digits = unsigned(word@);
    assert(digits =~= word@.skip(start as int));
    if start == len {
        return None;
    }
    let mut value: u64 = 0;
    let mut i: usize = start;
    while i < len
        invariant
            start <= i <= len == word@.len(),
            start < len,
            digits == word@.skip(start as int),
            digits == unsigned(word@),
            forall|j: int| 0 <= j < i - start ==> '0' <= #[trigger] digits[j] <= '9',
            value == number(digits.take(i - start)),
        decreases len - i,
    {
        let c: char = word.get_char(i);
        assert(c == digits[i - start]);
        if c < '0' || c > '9' {
            assert(!is_digits(digits));
            return None;
        }
        let digit: u64 = c as u64 - 48;
        proof {
            assert(digits.take(i - start + 1).drop_last() =~= digits.take(i - start));
            assert(number(digits.take(i - start + 1)) == value * 10 + digit);
            number_grows(digits, i - start + 1);
        }
        if value > (u64::MAX - digit) / 10 {
            assert(number(digits) > u64::MAX);
            return None;
        }
        value = value * 10 + digit;
        i += 1;
    }
    assert(digits.take(i - start) =~= digits);
    Some(value)
}

proof fn number_grows(digits: Seq<char>, upto: int)
    requires
        0 <= upto <= digits.len(),
    ensures
        number(digits) >= number(digits.take(upto)),
    decreases digits.len() - upto,
{
    if upto < digits.len() {
        number_grows(digits.drop_last(), upto);
        assert(digits.drop_last().take(upto) =~= digits.take(upto));
    } else {
        assert(digits.take(upto) =~= digits);
    }
}

/// The switch that a word names.
pub fn parse_switch(word: &str) -> (on: Result<bool, String>)
    ensures
        match (on, parsed_switch(word@)) {
            (Ok(on), Some(expected)) => on == expected,
            (Err(complaint), None) => complaint@ == word@ + " is not on or off"@,
            _ => false,
        },
{
    if text::same(word, "on") {
        return Ok(true);
    }
    if text::same(word, "off") {
        return Ok(false);
    }
    Err(text::joined(word, " is not on or off"))
}

/// The role that a word names, which is a user's where none is.
pub fn parse_role(word: &str) -> (role: Result<Role, String>)
    ensures
        match (role, parsed_role(word@)) {
            (Ok(role), Some(expected)) => role == expected,
            (Err(complaint), None) => complaint@ == word@ + " is not a role"@,
            _ => false,
        },
{
    if text::same(word, "") || text::same(word, "user") {
        return Ok(Role::User);
    }
    if text::same(word, "manager") {
        return Ok(Role::Manager);
    }
    if text::same(word, "admin") {
        return Ok(Role::Admin);
    }
    Err(text::joined(word, " is not a role"))
}

/// A host and a port, with brackets round an IPv6 address.
pub fn format_authority(host: &str, port: u16, is_ipv6: bool) -> (authority: String)
    ensures
        authority@ == if is_ipv6 {
            "["@ + host@ + "]:"@ + text::decimal(port as nat)
        } else {
            host@ + ":"@ + text::decimal(port as nat)
        },
{
    let mut authority = String::new();
    if is_ipv6 {
        authority.append("[");
        authority.append(host);
        authority.append("]:");
    } else {
        authority.append(host);
        authority.append(":");
    }
    authority.append(text::decimal_string(port as u64).as_str());
    assert(authority@ =~= if is_ipv6 {
        "["@ + host@ + "]:"@ + text::decimal(port as nat)
    } else {
        host@ + ":"@ + text::decimal(port as nat)
    });
    authority
}

/// A number and as many zeros behind it as make up a length.
pub open spec fn counted_unit(counter: u64, len: nat) -> Seq<u8> {
    wire::be64(counter) + Seq::new(
        if len > 8 {
            (len - 8) as nat
        } else {
            0
        },
        |i: int| 0u8,
    )
}

/// A counted unit of a length, which is at least that of the counter.
pub fn counted(counter: u64, len: usize) -> (unit: Vec<u8>)
    ensures
        unit@ == counted_unit(counter, len as nat),
{
    let bytes = wire::be64_bytes(counter);
    let mut unit: Vec<u8> = Vec::new();
    unit.extend_from_slice(bytes.as_slice());
    proof {
        wire::be64_round_trips(counter, Seq::empty());
    }
    let mut written: usize = 8;
    assert(unit@ =~= counted_unit(counter, 8));
    while written < len
        invariant
            8 <= written,
            len >= 8 ==> written <= len,
            len < 8 ==> written == 8,
            unit@ == counted_unit(counter, written as nat),
        decreases len - written,
    {
        unit.push(0);
        written += 1;
        assert(unit@ =~= counted_unit(counter, written as nat));
    }
    assert(unit@ =~= counted_unit(counter, len as nat));
    unit
}

/// The counter that a unit opens with, zero where it is too short to.
pub fn counter_of(unit: &[u8]) -> (counter: u64)
    ensures
        counter == if unit@.len() >= 8 {
            wire::from_be64(unit@)
        } else {
            0
        },
{
    if unit.len() >= 8 {
        wire::read_be64(unit)
    } else {
        0
    }
}

/// A counted unit is read back as its counter.
pub proof fn a_counted_unit_counts(counter: u64, len: nat)
    ensures
        counted_unit(counter, len).len() >= 8,
        wire::from_be64(counted_unit(counter, len)) == counter,
{
    wire::be64_round_trips(
        counter,
        Seq::new(
            if len > 8 {
                (len - 8) as nat
            } else {
                0
            },
            |i: int| 0u8,
        ),
    );
}

/// A unit to send, and the track to send it on.
pub struct Dummy {
    pub media_id: MediaId,
    pub unit: Vec<u8>,
    pub timestamp: Option<u32>,
}

/// Whether a dummy is a counted unit of one length, on one track.
pub open spec fn is_dummy(
    dummy: Dummy,
    media_id: MediaId,
    counter: u64,
    len: nat,
    timestamp: Option<u32>,
) -> bool {
    &&& dummy.media_id == media_id
    &&& dummy.unit@ == counted_unit(counter, len)
    &&& dummy.timestamp == timestamp
}

/// The tracks that dummies go out on, with their length and timestamp: a small unit
/// on the microphone, one that has to fragment on each share's picture, and one on
/// its sound where it has any.
pub open spec fn dummy_tracks(mic: MediaId, shares: Seq<Share>) -> Seq<(MediaId, nat, Option<u32>)>
    decreases shares.len(),
{
    if shares.len() == 0 {
        seq![(mic, 80nat, None)]
    } else {
        let earlier = dummy_tracks(mic, shares.drop_last()).push(
            (shares.last().video, 3_000nat, Some(90u32)),
        );
        match shares.last().audio {
            Some(audio) => earlier.push((audio, 160nat, Some(90u32))),
            None => earlier,
        }
    }
}

/// Whether dummies are counted units on each of the tracks they go out on.
pub open spec fn are_dummies(
    dummies: Seq<Dummy>,
    counter: u64,
    tracks: Seq<(MediaId, nat, Option<u32>)>,
) -> bool {
    &&& dummies.len() == tracks.len()
    &&& forall|i: int|
        0 <= i < tracks.len() ==> is_dummy(
            #[trigger] dummies[i],
            tracks[i].0,
            counter,
            tracks[i].1,
            tracks[i].2,
        )
}

/// One counted unit per track: a small one on the microphone id, and one that has
/// to fragment on the share id.
pub fn synthetic(tracks: &Tracks, counter: u64) -> (dummies: Vec<Dummy>)
    ensures
        are_dummies(dummies@, counter, dummy_tracks(tracks.mic, tracks.shares@)),
{
    let mut dummies: Vec<Dummy> = Vec::new();
    dummies.push(
        Dummy { media_id: tracks.mic, unit: counted(counter, 80), timestamp: None },
    );
    let mut i: usize = 0;
    while i < tracks.shares.len()
        invariant
            i <= tracks.shares@.len(),
            are_dummies(
                dummies@,
                counter,
                dummy_tracks(tracks.mic, tracks.shares@.take(i as int)),
            ),
        decreases tracks.shares@.len() - i,
    {
        assert(tracks.shares@.take(i + 1).drop_last() =~= tracks.shares@.take(i as int));
        let share = tracks.shares[i];
        dummies.push(
            Dummy {
                media_id: share.video,
                unit: counted(counter, 3_000),
                timestamp: Some(90),
            },
        );
        if let Some(audio) = share.audio {
            dummies.push(
                Dummy { media_id: audio, unit: counted(counter, 160), timestamp: Some(90) },
            );
        }
        i += 1;
    }
    assert(tracks.shares@.take(i as int) =~= tracks.shares@);
    dummies
}

/// What is said of a host that already names a port.
pub open spec fn host_complaint(host: Seq<char>) -> Seq<char> {
    host + " is not a host name or IP address; the port goes in --port"@
}

/// Refuses a host with a colon in it, unless it is an IPv6 address.
pub fn check_host(host: &str, is_ipv6: bool) -> (checked: Result<(), String>)
    ensures
        match checked {
            Ok(_) => is_ipv6 || !host@.contains(':'),
            Err(complaint) => !is_ipv6 && host@.contains(':') && complaint@ == host_complaint(
                host@,
            ),
        },
{
    if is_ipv6 {
        return Ok(());
    }
    let len: usize = host.unicode_len();
    let mut i: usize = 0;
    while i < len
        invariant
            i <= len == host@.len(),
            !is_ipv6,
            forall|j: int| 0 <= j < i ==> #[trigger] host@[j] != ':',
        decreases len - i,
    {
        if host.get_char(i) == ':' {
            assert(host@[i as int] == ':');
            return Err(
                text::joined(host, " is not a host name or IP address; the port goes in --port"),
            );
        }
        i += 1;
    }
    Ok(())
}

/// What is said of a connection that failed, where there is something to be done
/// about it.
pub open spec fn advice_of(error: Error) -> Option<Seq<char>> {
    match error {
        Error::PinMismatch { server, pinned, presented } => Some(
            "the key for "@ + server@ + " has changed.\n  pinned:    "@ + pinned@
                + "\n  presented: "@ + presented@
                + "\n\nIf the server was rebuilt this is expected; re-accept by removing that entry from the keystore. If it was not, stop."@,
        ),
        Error::Rejected(error) => Some(
            client::refusal_name(error) + ".\nEnroll this client with --invite <CODE>."@,
        ),
        _ => None,
    }
}

/// What is said of a connection that failed, where there is something to be done
/// about it.
pub fn advice(error: &Error) -> (advice: Option<String>)
    ensures
        match (advice, advice_of(*error)) {
            (Some(advice), Some(expected)) => advice@ == expected,
            (None, None) => true,
            _ => false,
        },
{
    match error {
        Error::PinMismatch { server, pinned, presented } => {
            let mut advice = "the key for ".to_string();
            advice.append(server.as_str());
            advice.append(" has changed.\n  pinned:    ");
            advice.append(pinned.as_str());
            advice.append("\n  presented: ");
            advice.append(presented.as_str());
            advice.append(
                "\n\nIf the server was rebuilt this is expected; re-accept by removing that entry from the keystore. If it was not, stop.",
            );
            Some(advice)
        },
        Error::Rejected(error) => Some(
            text::joined(client::refusal(*error), ".\nEnroll this client with --invite <CODE>."),
        ),
        _ => None,
    }
}

/// The line a user is listed on.
pub open spec fn user_line(user: User) -> Seq<char> {
    "  user "@ + text::decimal(user.id.0 as nat) + " "@ + (if user.name@.len() == 0 {
        "<unnamed>"@
    } else {
        user.name@
    }) + " ("@ + permissions::role_name(user.role) + ")"@
}

/// The line a room is listed on.
pub open spec fn room_line(room: Room) -> Seq<char> {
    "  room "@ + text::decimal(room.id.0 as nat) + " "@ + room.name@
}

/// Everything a client is told on arrival, line by line: who it is, everyone
/// enrolled, every room, and where it is.
pub open spec fn report_of(welcome: InitialState) -> Seq<Seq<char>> {
    seq![
        "you are user "@ + text::decimal(welcome.me.0 as nat) + " with role "@
            + permissions::role_name(welcome.role),
    ] + Seq::new(welcome.users@.len(), |i: int| user_line(welcome.users@[i])) + (
    if welcome.rooms@.len() == 0 {
        seq!["no rooms exist yet"@]
    } else {
        Seq::new(welcome.rooms@.len(), |i: int| room_line(welcome.rooms@[i]))
    }).push(
        match welcome.placed.room {
            None => "you are in no room"@,
            Some(room) => "you are in room "@ + text::decimal(room.0 as nat),
        },
    )
}

/// The contents of lines.
pub open spec fn lines_of(lines: Seq<String>) -> Seq<Seq<char>> {
    Seq::new(lines.len(), |i: int| lines[i]@)
}

/// Everything a client is told on arrival, line by line.
pub fn report(welcome: &InitialState) -> (lines: Vec<String>)
    ensures
        lines_of(lines@) == report_of(*welcome),
{
    let mut lines: Vec<String> = Vec::new();
    let mut first = "you are user ".to_string();
    first.append(welcome.me.to_string().as_str());
    first.append(" with role ");
    first.append(permissions::name_of(welcome.role));
    lines.push(first);
    let ghost opening = seq![
        "you are user "@ + text::decimal(welcome.me.0 as nat) + " with role "@
            + permissions::role_name(welcome.role),
    ];
    assert(lines_of(lines@) =~= opening);

    let mut i: usize = 0;
    assert(opening + Seq::new(0, |i: int| user_line(welcome.users@[i])) =~= opening);
    while i < welcome.users.len()
        invariant
            i <= welcome.users@.len(),
            lines_of(lines@) == opening + Seq::new(
                i as nat,
                |i: int| user_line(welcome.users@[i]),
            ),
        decreases welcome.users@.len() - i,
    {
        let ghost before = lines@;
        let user = &welcome.users[i];
        let mut line = "  user ".to_string();
        line.append(user.id.to_string().as_str());
        line.append(" ");
        if user.name.as_str().unicode_len() == 0 {
            line.append("<unnamed>");
        } else {
            line.append(user.name.as_str());
        }
        line.append(" (");
        line.append(permissions::name_of(user.role));
        line.append(")");
        lines.push(line);
        i += 1;
        proof {
            assert(lines_of(lines@) =~= lines_of(before).push(line@));
            assert(lines_of(lines@) =~= opening + Seq::new(
                i as nat,
                |i: int| user_line(welcome.users@[i]),
            ));
        }
    }
    let ghost listed = lines_of(lines@);

    if welcome.rooms.len() == 0 {
        let ghost before = lines@;
        lines.push("no rooms exist yet".to_string());
        assert(lines_of(lines@) =~= listed + seq!["no rooms exist yet"@]);
    }
    let mut i: usize = 0;
    assert(welcome.rooms@.len() > 0 ==> listed + Seq::new(
        0,
        |i: int| room_line(welcome.rooms@[i]),
    ) =~= listed);
    while i < welcome.rooms.len()
        invariant
            i <= welcome.rooms@.len(),
            lines_of(lines@) == listed + if welcome.rooms@.len() == 0 {
                seq!["no rooms exist yet"@]
            } else {
                Seq::new(i as nat, |i: int| room_line(welcome.rooms@[i]))
            },
        decreases welcome.rooms@.len() - i,
    {
        let ghost before = lines@;
        let room = &welcome.rooms[i];
        let mut line = "  room ".to_string();
        line.append(room.id.to_string().as_str());
        line.append(" ");
        line.append(room.name.as_str());
        lines.push(line);
        i += 1;
        proof {
            assert(lines_of(lines@) =~= lines_of(before).push(line@));
            assert(lines_of(lines@) =~= listed + Seq::new(
                i as nat,
                |i: int| room_line(welcome.rooms@[i]),
            ));
        }
    }
    let ghost before = lines@;
    let last = match welcome.placed.room {
        None => "you are in no room".to_string(),
        Some(room) => text::joined("you are in room ", room.to_string().as_str()),
    };
    lines.push(last);
    assert(lines_of(lines@) =~= lines_of(before).push(last@));
    assert(lines_of(lines@) =~= report_of(*welcome));
    lines
}

/// A line is its first word and the rest, whatever whitespace stands around and between
/// them.
pub proof fn a_line_is_a_word_and_the_rest(
    before: Seq<char>,
    word: Seq<char>,
    gap: Seq<char>,
    rest: Seq<char>,
    after: Seq<char>,
)
    requires
        word.len() > 0,
        forall|i: int| 0 <= i < word.len() ==> !text::is_space(#[trigger] word[i]),
        forall|i: int| 0 <= i < before.len() ==> text::is_space(#[trigger] before[i]),
        forall|i: int| 0 <= i < gap.len() ==> text::is_space(#[trigger] gap[i]),
        forall|i: int| 0 <= i < after.len() ==> text::is_space(#[trigger] after[i]),
        rest.len() > 0 ==> gap.len() > 0 && !text::is_space(rest[0]) && !text::is_space(
            rest.last(),
        ),
    ensures
        first_word(text::trimmed(before + word + gap + rest + after)) == word,
        after_word(text::trimmed(before + word + gap + rest + after)) == rest,
{
    let line = before + word + gap + rest + after;
    if rest.len() == 0 {
        assert(line =~= before + word + (gap + after));
        text::padding_is_trimmed(before, word, gap + after);
        a_word_ends_at_whitespace(word, Seq::empty());
        assert(word + Seq::<char>::empty() =~= word);
        assert(word.take(word.len() as int) =~= word);
        assert(rest =~= Seq::empty());
    } else {
        let bare = word + gap + rest;
        assert(bare[0] == word[0]);
        assert(bare.last() == rest.last());
        assert(line =~= before + bare + after);
        text::padding_is_trimmed(before, bare, after);
        assert((gap + rest)[0] == gap[0]);
        a_word_ends_at_whitespace(word, gap + rest);
        assert(word + (gap + rest) =~= bare);
        assert(bare.take(word.len() as int) =~= word);
        let none = Seq::<char>::empty();
        assert(bare.skip(word.len() as int + 1) =~= gap.skip(1) + rest + none);
        text::padding_is_trimmed(gap.skip(1), rest, none);
    }
}

proof fn a_word_ends_at_whitespace(word: Seq<char>, rest: Seq<char>)
    requires
        forall|i: int| 0 <= i < word.len() ==> !text::is_space(#[trigger] word[i]),
        rest.len() > 0 ==> text::is_space(rest[0]),
    ensures
        word_len(word + rest) == word.len(),
    decreases word.len(),
{
    if word.len() > 0 {
        let all = word + rest;
        assert(all[0] == word[0]);
        assert(all.drop_first() =~= word.drop_first() + rest);
        a_word_ends_at_whitespace(word.drop_first(), rest);
    } else {
        assert(word + rest =~= rest);
    }
}

/// A number reads as it is written in decimal, with a plus sign in front or without, as
/// long as it fits.
pub proof fn a_number_reads_as_it_is_written(n: nat)
    ensures
        parsed_number(text::decimal(n)) == if n <= u64::MAX {
            Some(n as u64)
        } else {
            None
        },
        parsed_number(seq!['+'] + text::decimal(n)) == parsed_number(text::decimal(n)),
{
    let shown = text::decimal(n);
    decimals_are_digits(n);
    number_of_decimal(n);
    assert(unsigned(shown) == shown);
    assert((seq!['+'] + shown).skip(1) =~= shown);
}

proof fn decimals_are_digits(n: nat)
    ensures
        is_digits(text::decimal(n)),
        text::decimal(n)[0] != '+',
    decreases n,
{
    if n >= 10 {
        decimals_are_digits(n / 10);
    }
}

proof fn number_of_decimal(n: nat)
    ensures
        number(text::decimal(n)) == n,
    decreases n,
{
    let shown = text::decimal(n);
    if n < 10 {
        assert(shown.drop_last() =~= Seq::empty());
        assert(number(shown.drop_last()) == 0);
    } else {
        number_of_decimal(n / 10);
        assert(shown.drop_last() =~= text::decimal(n / 10));
    }
}

/// What is not all decimal digits, behind one plus sign at most, is no number.
pub proof fn only_digits_are_a_number(word: Seq<char>, i: int)
    requires
        0 <= i < word.len(),
        word[i] < '0' || word[i] > '9',
        i > 0 || word[0] != '+' || word.len() == 1,
    ensures
        parsed_number(word) is None,
        parsed_number(Seq::<char>::empty()) is None,
{
    let digits = unsigned(word);
    if digits != word {
        assert(digits[i - 1] == word[i]);
    } else {
        assert(digits[i] == word[i]);
    }
}

proof fn the_words_differ()
    ensures
        ""@.len() == 0,
        "on"@ != "off"@,
        "quit"@ != ""@,
        "mic"@ != ""@,
        "mic"@ != "quit"@,
        "mute"@ != ""@,
        "mute"@ != "quit"@,
        "mute"@ != "mic"@,
        "room"@ != ""@,
        "room"@ != "quit"@,
        "room"@ != "mic"@,
        "room"@ != "mute"@,
        "create"@ != ""@,
        "create"@ != "quit"@,
        "create"@ != "mic"@,
        "create"@ != "mute"@,
        "create"@ != "room"@,
        "rename"@ != ""@,
        "rename"@ != "quit"@,
        "rename"@ != "mic"@,
        "rename"@ != "mute"@,
        "rename"@ != "room"@,
        "rename"@ != "create"@,
        "delete"@ != ""@,
        "delete"@ != "quit"@,
        "delete"@ != "mic"@,
        "delete"@ != "mute"@,
        "delete"@ != "room"@,
        "delete"@ != "create"@,
        "delete"@ != "rename"@,
        "invite"@ != ""@,
        "invite"@ != "quit"@,
        "invite"@ != "mic"@,
        "invite"@ != "mute"@,
        "invite"@ != "room"@,
        "invite"@ != "create"@,
        "invite"@ != "rename"@,
        "invite"@ != "delete"@,
        "user"@ != ""@,
        "manager"@ != ""@,
        "manager"@ != "user"@,
        "admin"@ != ""@,
        "admin"@ != "user"@,
        "admin"@ != "manager"@,
        "none"@.len() == 4 && "none"@[0] == 'n',
{
    reveal_strlit("");
    reveal_strlit("on");
    reveal_strlit("off");
    reveal_strlit("quit");
    reveal_strlit("mic");
    reveal_strlit("mute");
    reveal_strlit("room");
    reveal_strlit("create");
    reveal_strlit("rename");
    reveal_strlit("delete");
    reveal_strlit("invite");
    reveal_strlit("user");
    reveal_strlit("manager");
    reveal_strlit("admin");
    reveal_strlit("none");
    assert(""@.len() == 0 && "on"@.len() == 2 && "off"@.len() == 3 && "mic"@.len() == 3);
    assert("quit"@.len() == 4 && "mute"@.len() == 4 && "room"@.len() == 4 && "user"@.len() == 4);
    assert("create"@.len() == 6 && "rename"@.len() == 6 && "delete"@.len() == 6 && "invite"@.len()
        == 6);
    assert("manager"@.len() == 7 && "admin"@.len() == 5);
    assert("quit"@[0] == 'q' && "mute"@[0] == 'm' && "room"@[0] == 'r');
    assert("create"@[0] == 'c' && "rename"@[0] == 'r' && "delete"@[0] == 'd' && "invite"@[0]
        == 'i');
}

/// A switch is turned the way that is typed: `mic on` opens the microphone and `mic off`
/// closes it, `mute on` mutes and `mute off` unmutes, and nothing but on and off turns
/// either.
pub proof fn a_switch_is_turned_as_typed(rest: Seq<char>, spoken: Result<Option<Spoken>, String>)
    ensures
        is_understood("mic"@, "on"@, spoken) ==> spoken == Ok::<Option<Spoken>, String>(
            Some(Spoken::Microphone(true)),
        ),
        is_understood("mic"@, "off"@, spoken) ==> spoken == Ok::<Option<Spoken>, String>(
            Some(Spoken::Microphone(false)),
        ),
        is_understood("mute"@, "on"@, spoken) ==> spoken == Ok::<Option<Spoken>, String>(
            Some(Spoken::Muted(true)),
        ),
        is_understood("mute"@, "off"@, spoken) ==> spoken == Ok::<Option<Spoken>, String>(
            Some(Spoken::Muted(false)),
        ),
        rest != "on"@ && rest != "off"@ && (is_understood("mic"@, rest, spoken) || is_understood(
            "mute"@,
            rest,
            spoken,
        )) ==> spoken is Err,
{
    the_words_differ();
}

/// A room is named by its number: `room` moves there and `delete` deletes it. `room none`
/// leaves. What is no number names no room.
pub proof fn a_room_is_named_by_its_number(
    id: u64,
    word: Seq<char>,
    i: int,
    spoken: Result<Option<Spoken>, String>,
)
    requires
        0 <= i < word.len(),
        word[i] < '0' || word[i] > '9',
        i > 0 || word[0] != '+',
    ensures
        is_understood("room"@, text::decimal(id as nat), spoken) ==> spoken == Ok::<
            Option<Spoken>,
            String,
        >(Some(Spoken::ToServer(Command::SetRoom(Some(RoomId(id)))))),
        is_understood("delete"@, text::decimal(id as nat), spoken) ==> spoken == Ok::<
            Option<Spoken>,
            String,
        >(Some(Spoken::ToServer(Command::DeleteRoom(RoomId(id))))),
        is_understood("room"@, "none"@, spoken) ==> spoken == Ok::<Option<Spoken>, String>(
            Some(Spoken::ToServer(Command::SetRoom(None))),
        ),
        is_understood("room"@, word, spoken) && word != "none"@ ==> spoken is Err,
        is_understood("delete"@, word, spoken) ==> spoken is Err,
{
    the_words_differ();
    a_number_reads_as_it_is_written(id as nat);
    decimals_are_digits(id as nat);
    assert('0' <= text::decimal(id as nat)[0] <= '9');
    only_digits_are_a_number(word, i);
}

/// A name is taken as it is typed: `create` takes the rest of the line, and `rename` what
/// follows the number of the room. Neither goes without a name.
pub proof fn a_name_is_taken_as_typed(
    id: u64,
    name: Seq<char>,
    spoken: Result<Option<Spoken>, String>,
)
    requires
        name.len() > 0,
        !text::is_space(name[0]),
        !text::is_space(name.last()),
    ensures
        is_understood("create"@, name, spoken) ==> (spoken matches Ok(
            Some(Spoken::ToServer(Command::CreateRoom { name: typed })),
        ) && typed@ == name),
        is_understood("create"@, ""@, spoken) ==> spoken is Err,
        is_understood("rename"@, text::decimal(id as nat) + seq![' '] + name, spoken) ==> (
        spoken matches Ok(Some(Spoken::ToServer(Command::RenameRoom { room, name: typed })))
            && room.0 == id && typed@ == name),
        is_understood("rename"@, text::decimal(id as nat), spoken) ==> spoken is Err,
        is_understood("rename"@, ""@, spoken) ==> spoken is Err,
{
    the_words_differ();
    let shown = text::decimal(id as nat);
    let none = Seq::<char>::empty();
    a_number_reads_as_it_is_written(id as nat);
    decimals_are_digits(id as nat);
    assert forall|i: int| 0 <= i < shown.len() implies !text::is_space(#[trigger] shown[i]) by {
        assert('0' <= shown[i] <= '9');
    }
    let rest = shown + seq![' '] + name;
    a_word_ends_at_whitespace(shown, seq![' '] + name);
    assert(shown + (seq![' '] + name) =~= rest);
    assert(rest.take(shown.len() as int) =~= shown);
    assert(rest.skip(shown.len() as int + 1) =~= name);
    text::nothing_to_trim(name);
    a_word_ends_at_whitespace(shown, none);
    assert(shown + none =~= shown);
    assert(""@ =~= none);
}

/// `invite` asks for the role that is named, a user's where none is, with the time to
/// live that the server chooses. `quit` ends the session. Nothing else is a command.
pub proof fn a_role_is_asked_for_by_name(
    word: Seq<char>,
    rest: Seq<char>,
    spoken: Result<Option<Spoken>, String>,
)
    ensures
        is_understood("invite"@, ""@, spoken) || is_understood("invite"@, "user"@, spoken)
            ==> spoken == Ok::<Option<Spoken>, String>(
            Some(Spoken::ToServer(Command::CreateInvite { role: Role::User, ttl_secs: 0 })),
        ),
        is_understood("invite"@, "manager"@, spoken) ==> spoken == Ok::<Option<Spoken>, String>(
            Some(Spoken::ToServer(Command::CreateInvite { role: Role::Manager, ttl_secs: 0 })),
        ),
        is_understood("invite"@, "admin"@, spoken) ==> spoken == Ok::<Option<Spoken>, String>(
            Some(Spoken::ToServer(Command::CreateInvite { role: Role::Admin, ttl_secs: 0 })),
        ),
        rest != ""@ && rest != "user"@ && rest != "manager"@ && rest != "admin"@ && is_understood(
            "invite"@,
            rest,
            spoken,
        ) ==> spoken is Err,
        is_understood("quit"@, rest, spoken) ==> spoken == Ok::<Option<Spoken>, String>(None),
        is_understood(""@, rest, spoken) ==> (spoken matches Err(complaint) && complaint@ == HELP@),
        is_understood(word, rest, spoken) && word != "quit"@ && word != "mic"@ && word != "mute"@
            && word != "room"@ && word != "create"@ && word != "rename"@ && word != "delete"@
            && word != "invite"@ ==> spoken is Err,
{
    the_words_differ();
}

/// A counted unit is as long as asked for, but never shorter than its counter, and holds
/// nothing but zeros behind it.
pub proof fn a_counted_unit_is_as_long_as_asked(counter: u64, len: nat, i: int)
    ensures
        len >= 8 ==> counted_unit(counter, len).len() == len,
        len < 8 ==> counted_unit(counter, len).len() == 8,
        8 <= i < len ==> counted_unit(counter, len)[i] == 0,
        counted_unit(counter, len).take(8) == counted_unit(counter, 8),
{
    assert(counted_unit(counter, len).take(8) =~= counted_unit(counter, 8));
}

/// The microphone comes first, with a small unit that carries no timestamp. Each share
/// then gets a picture of three thousand bytes and, where it has sound, a unit of that,
/// both stamped, share by share.
pub proof fn every_track_gets_its_dummy(mic: MediaId, shares: Seq<Share>, more: Seq<Share>)
    ensures
        dummy_tracks(mic, Seq::empty()) == seq![(mic, 80nat, None::<u32>)],
        shares.len() == 1 ==> dummy_tracks(mic, shares) == seq![
            (mic, 80nat, None::<u32>),
            (shares[0].video, 3000nat, Some(90u32)),
        ] + (match shares[0].audio {
            Some(audio) => seq![(audio, 160nat, Some(90u32))],
            None => Seq::empty(),
        }),
        dummy_tracks(mic, shares).len() > 0,
        dummy_tracks(mic, shares + more) == dummy_tracks(mic, shares) + dummy_tracks(
            mic,
            more,
        ).skip(1),
    decreases more.len(),
{
    reveal_with_fuel(dummy_tracks, 2);
    dummies_open_with_the_microphone(mic, shares);
    if shares.len() == 1 {
        assert(shares.drop_last() =~= Seq::empty());
        assert(dummy_tracks(mic, shares) =~= seq![
            (mic, 80nat, None::<u32>),
            (shares[0].video, 3000nat, Some(90u32)),
        ] + (match shares[0].audio {
            Some(audio) => seq![(audio, 160nat, Some(90u32))],
            None => Seq::empty(),
        }));
    }
    let all = shares + more;
    if more.len() == 0 {
        assert(all =~= shares);
        assert(dummy_tracks(mic, more).skip(1) =~= Seq::empty());
        assert(dummy_tracks(mic, all) =~= dummy_tracks(mic, shares) + dummy_tracks(
            mic,
            more,
        ).skip(1));
    } else {
        every_track_gets_its_dummy(mic, shares, more.drop_last());
        dummies_open_with_the_microphone(mic, more.drop_last());
        assert(all.drop_last() =~= shares + more.drop_last());
        assert(all.last() == more.last());
        assert(dummy_tracks(mic, all) =~= dummy_tracks(mic, shares) + dummy_tracks(
            mic,
            more,
        ).skip(1));
    }
}

proof fn dummies_open_with_the_microphone(mic: MediaId, shares: Seq<Share>)
    ensures
        dummy_tracks(mic, shares).len() > 0,
        dummy_tracks(mic, shares)[0] == (mic, 80nat, None::<u32>),
    decreases shares.len(),
{
    if shares.len() > 0 {
        dummies_open_with_the_microphone(mic, shares.drop_last());
    }
}

/// A report says who one is first, then lists everyone enrolled, one line each and in
/// order, then every room, or that there is none, and ends with where one is.
pub proof fn a_report_leaves_nobody_out(welcome: InitialState, i: int, j: int)
    ensures
        ({
            let lines = report_of(welcome);
            let (users, rooms) = (welcome.users@.len() as int, welcome.rooms@.len() as int);
            &&& lines[0] == "you are user "@ + text::decimal(welcome.me.0 as nat) + " with role "@
                + (match welcome.role {
                Role::User => "User"@,
                Role::Manager => "Manager"@,
                Role::Admin => "Admin"@,
            })
            &&& 0 <= i < users ==> lines[1 + i] == "  user "@ + text::decimal(
                welcome.users@[i].id.0 as nat,
            ) + " "@ + (if welcome.users@[i].name@.len() == 0 {
                "<unnamed>"@
            } else {
                welcome.users@[i].name@
            }) + " ("@ + (match welcome.users@[i].role {
                Role::User => "User"@,
                Role::Manager => "Manager"@,
                Role::Admin => "Admin"@,
            }) + ")"@
            &&& rooms == 0 ==> lines.len() == users + 3 && lines[1 + users]
                == "no rooms exist yet"@
            &&& rooms > 0 ==> lines.len() == users + rooms + 2
            &&& 0 <= j < rooms ==> lines[1 + users + j] == "  room "@ + text::decimal(
                welcome.rooms@[j].id.0 as nat,
            ) + " "@ + welcome.rooms@[j].name@
            &&& welcome.placed.room is None ==> lines.last() == "you are in no room"@
            &&& welcome.placed.room matches Some(room) ==> lines.last() == "you are in room "@
                + text::decimal(room.0 as nat)
        }),
{
}

/// There is advice on a key that changed, which names the server and both keys, and on
/// being turned away, which says why, and on nothing else.
pub proof fn only_what_can_be_helped_is_advised_on(error: Error)
    ensures
        advice_of(error) is Some <==> error is PinMismatch || error is Rejected,
        error matches Error::PinMismatch { server, pinned, presented } ==> advice_of(error) == Some(
            "the key for "@ + server@ + " has changed.\n  pinned:    "@ + pinned@
                + "\n  presented: "@ + presented@
                + "\n\nIf the server was rebuilt this is expected; re-accept by removing that entry from the keystore. If it was not, stop."@,
        ),
{
}

} // verus!
