//! A session with a server: requests out, answers and events in.

use std::collections::HashSet;

use vstd::prelude::*;

use crate::client::auth;
use crate::client::media::send::{MediaSender, Sending};
use crate::client::Error;
use crate::proto;
use crate::proto::ids::{Epoch, MediaId, RoomId, UserId};
use crate::proto::msg::{
    ErrCode, PeerState, Placed, Req, ReqEnvelope, Resp, Role, Room, ServerMessage,
};
use crate::text;

verus! {

/// How many commands, events or messages may wait.
pub const QUEUE_DEPTH: usize = 64;

/// What a user asks the session to do.
#[derive(Debug, Clone, PartialEq)]
pub enum Command {
    SetRoom(Option<RoomId>),
    CreateRoom { name: String },
    RenameRoom { room: RoomId, name: String },
    DeleteRoom(RoomId),
    CreateInvite { role: Role, ttl_secs: u32 },
    Disconnect,
}

/// What a session tells its user.
#[derive(Debug, Clone, PartialEq)]
pub enum Event {
    Placed(Placed),
    Media { media_id: MediaId, timestamp: Option<u32>, bytes: Vec<u8> },
    UserEntered { room: RoomId, epoch: Epoch, peer: PeerState },
    UserExited { room: RoomId, epoch: Epoch, user: UserId },
    RoomCreated(Room),
    RoomRenamed { room: RoomId, name: String },
    RoomDeleted(RoomId),
    Invited { code: String, expires: u64 },
    Failed { message: String },
    Disconnected { reason: String },
}

/// The request a command becomes, `None` for the one that ends the session.
pub open spec fn request_of(command: Command) -> Option<Req> {
    match command {
        Command::SetRoom(room) => Some(Req::SetRoom(room)),
        Command::CreateRoom { name } => Some(Req::CreateRoom { name }),
        Command::RenameRoom { room, name } => Some(Req::RenameRoom { room, name }),
        Command::DeleteRoom(room) => Some(Req::DeleteRoom(room)),
        Command::CreateInvite { role, ttl_secs } => Some(Req::CreateInvite { role, ttl_secs }),
        Command::Disconnect => None,
    }
}

/// The request a command becomes, `None` for the one that ends the session.
pub fn request_for(command: Command) -> (req: Option<Req>)
    ensures
        req == request_of(command),
{
    match command {
        Command::SetRoom(room) => Some(Req::SetRoom(room)),
        Command::CreateRoom { name } => Some(Req::CreateRoom { name }),
        Command::RenameRoom { room, name } => Some(Req::RenameRoom { room, name }),
        Command::DeleteRoom(room) => Some(Req::DeleteRoom(room)),
        Command::CreateInvite { role, ttl_secs } => Some(Req::CreateInvite { role, ttl_secs }),
        Command::Disconnect => None,
    }
}

/// What a user is told of a server's event, if anything.
pub open spec fn translated(event: proto::Event) -> Option<Event> {
    match event {
        proto::Event::UserEntered { room, epoch, peer } => Some(
            Event::UserEntered { room, epoch, peer },
        ),
        proto::Event::UserExited { room, epoch, user } => Some(
            Event::UserExited { room, epoch, user },
        ),
        proto::Event::RoomCreated(room) => Some(Event::RoomCreated(room)),
        proto::Event::RoomRenamed { room, name } => Some(Event::RoomRenamed { room, name }),
        proto::Event::RoomDeleted(room) => Some(Event::RoomDeleted(room)),
        _ => None,
    }
}

/// What a user is told of a server's event, if anything.
pub fn translate(event: proto::Event) -> (told: Option<Event>)
    ensures
        told == translated(event),
{
    match event {
        proto::Event::UserEntered { room, epoch, peer } => Some(
            Event::UserEntered { room, epoch, peer },
        ),
        proto::Event::UserExited { room, epoch, user } => Some(
            Event::UserExited { room, epoch, user },
        ),
        proto::Event::RoomCreated(room) => Some(Event::RoomCreated(room)),
        proto::Event::RoomRenamed { room, name } => Some(Event::RoomRenamed { room, name }),
        proto::Event::RoomDeleted(room) => Some(Event::RoomDeleted(room)),
        _ => None,
    }
}

/// The name of a failure.
pub open spec fn failure_name(code: ErrCode) -> Seq<char> {
    match code {
        ErrCode::Denied => "Denied"@,
        ErrCode::NotFound => "NotFound"@,
        ErrCode::Invalid => "Invalid"@,
        ErrCode::Unimplemented => "Unimplemented"@,
        ErrCode::Internal => "Internal"@,
    }
}

fn name_of(code: ErrCode) -> (name: &'static str)
    ensures
        name@ == failure_name(code),
{
    match code {
        ErrCode::Denied => "Denied",
        ErrCode::NotFound => "NotFound",
        ErrCode::Invalid => "Invalid",
        ErrCode::Unimplemented => "Unimplemented",
        ErrCode::Internal => "Internal",
    }
}

/// Whether an event is what a user is told of a response, if anything.
pub open spec fn is_told(resp: Resp, told: Option<Event>) -> bool {
    match resp {
        Resp::Placed(placed) => told == Some(Event::Placed(placed)),
        Resp::InviteCode { code, expires } => told == Some(Event::Invited { code, expires }),
        Resp::Failed { code, msg } => told matches Some(Event::Failed { message }) && message@
            == failure_name(code) + ": "@ + msg@,
        _ => told is None,
    }
}

/// What a user is told of a response, if anything.
pub fn event_for(resp: Resp) -> (told: Option<Event>)
    ensures
        is_told(resp, told),
{
    match resp {
        Resp::Placed(placed) => Some(Event::Placed(placed)),
        Resp::InviteCode { code, expires } => Some(Event::Invited { code, expires }),
        Resp::Failed { code, msg } => {
            let mut message = name_of(code).to_string();
            message.append(": ");
            message.append(msg.as_str());
            Some(Event::Failed { message })
        },
        _ => None,
    }
}

/// What a sender learns from an event: where it was placed, or the epoch that
/// somebody's coming or going brought.
pub open spec fn observed(sending: Sending, event: Event) -> Sending {
    match event {
        Event::Placed(placed) => sending.placed(placed),
        Event::UserEntered { epoch, .. } => sending.observed(epoch),
        Event::UserExited { epoch, .. } => sending.observed(epoch),
        _ => sending,
    }
}

/// Lets a sender learn from an event.
pub fn observe_epoch(media: &mut MediaSender, event: &Event)
    ensures
        final(media)@ == observed(old(media)@, *event),
{
    match event {
        Event::Placed(placed) => media.observe_placement(placed),
        Event::UserEntered { epoch, .. } => media.observe(*epoch),
        Event::UserExited { epoch, .. } => media.observe(*epoch),
        _ => {},
    }
}

/// What a session does next.
pub enum Step {
    /// It is over, and nothing went wrong.
    Finish,
    /// It sends a request.
    Write(ReqEnvelope),
    /// It tells its user something, or nothing.
    Tell(Option<Event>),
    /// It is over, and this went wrong.
    Fail(Error),
}

/// What comes in from the server.
pub enum Inbound {
    /// The stream was closed.
    Closed,
    /// Reading from it failed.
    Broken(Error),
    Message(ServerMessage),
}

/// A session's requests: those that wait for an answer, and the id of the next.
pub struct Control {
    pending: HashSet<u32>,
    next_request_id: u32,
}

/// What is said of an answer to nothing.
pub open spec fn stray_message(id: u32) -> Seq<char> {
    "response "@ + text::decimal(id as nat) + " answers no pending request"@
}

impl Control {
    pub closed spec fn pending(&self) -> Set<u32> {
        self.pending@
    }

    pub closed spec fn next_id(&self) -> u32 {
        self.next_request_id
    }

    /// Only requests that were sent wait for an answer.
    pub open spec fn wf(&self) -> bool {
        forall|id: u32| #[trigger] self.pending().contains(id) ==> id < self.next_id()
    }

    pub fn new() -> (control: Control)
        ensures
            control.wf(),
            control.pending() == Set::<u32>::empty(),
            control.next_id() == 0,
    {
        Control { pending: HashSet::new(), next_request_id: 0 }
    }

    /// What a command leads to, or the end of all commands. Ids are never reused, so
    /// running out of them ends the session.
    pub fn commanded(&mut self, command: Option<Command>) -> (step: Step)
        requires
            old(self).wf(),
        ensures
            final(self).wf(),
            ({
                let req = match command {
                    Some(command) => request_of(command),
                    None => None,
                };
                match req {
                    None => {
                        &&& step is Finish
                        &&& final(self).pending() == old(self).pending()
                        &&& final(self).next_id() == old(self).next_id()
                    },
                    Some(req) => if old(self).next_id() == u32::MAX {
                        &&& step matches Step::Fail(error) && auth::is_protocol(
                            error,
                            "request ids exhausted"@,
                        )
                        &&& final(self).pending() == old(self).pending()
                        &&& final(self).next_id() == old(self).next_id()
                    } else {
                        &&& step == Step::Write(ReqEnvelope { id: old(self).next_id(), req })
                        &&& final(self).pending() == old(self).pending().insert(
                            old(self).next_id(),
                        )
                        &&& final(self).next_id() == old(self).next_id() + 1
                        &&& !old(self).pending().contains(old(self).next_id())
                    },
                }
            }),
    {
        let command = match command {
            Some(command) => command,
            None => return Step::Finish,
        };
        let req = match request_for(command) {
            Some(req) => req,
            None => return Step::Finish,
        };
        let id: u32 = self.next_request_id;
        if id == u32::MAX {
            return Step::Fail(Error::Protocol("request ids exhausted".to_string()));
        }
        self.next_request_id = id + 1;
        self.pending.insert(id);
        assert forall|other: u32| #[trigger] self.pending().contains(other) implies other
            < self.next_id() by {
            assert(other == id || old(self).pending().contains(other));
        }
        Step::Write(ReqEnvelope { id, req })
    }

    /// What something from the server leads to. An answer to nothing that was asked
    /// ends the session.
    pub fn received(&mut self, media: &mut MediaSender, inbound: Inbound) -> (step: Step)
        requires
            old(self).wf(),
        ensures
            final(self).wf(),
            final(self).next_id() == old(self).next_id(),
            match inbound {
                Inbound::Closed => {
                    &&& step is Finish
                    &&& final(self).pending() == old(self).pending()
                    &&& final(media)@ == old(media)@
                },
                Inbound::Broken(error) => {
                    &&& step == Step::Fail(error)
                    &&& final(self).pending() == old(self).pending()
                    &&& final(media)@ == old(media)@
                },
                Inbound::Message(ServerMessage::Event(event)) => {
                    &&& step == Step::Tell(translated(event))
                    &&& final(self).pending() == old(self).pending()
                    &&& final(media)@ == match translated(event) {
                        Some(told) => observed(old(media)@, told),
                        None => old(media)@,
                    }
                },
                Inbound::Message(ServerMessage::Resp(reply)) => {
                    &&& final(media)@ == match reply.resp {
                        Resp::Placed(placed) => old(media)@.placed(placed),
                        _ => old(media)@,
                    }
                    &&& final(self).pending() == old(self).pending().remove(reply.id)
                    &&& if old(self).pending().contains(reply.id) {
                        step matches Step::Tell(told) && is_told(reply.resp, told)
                    } else {
                        step matches Step::Fail(error) && auth::is_protocol(
                            error,
                            stray_message(reply.id),
                        )
                    }
                },
            },
    {
        match inbound {
            Inbound::Closed => Step::Finish,
            Inbound::Broken(error) => Step::Fail(error),
            Inbound::Message(ServerMessage::Event(event)) => {
                let told = translate(event);
                if let Some(told) = &told {
                    observe_epoch(media, told);
                }
                Step::Tell(told)
            },
            Inbound::Message(ServerMessage::Resp(reply)) => {
                if let Resp::Placed(placed) = &reply.resp {
                    media.observe_placement(placed);
                }
                let answered = self.pending.remove(&reply.id);
                assert(self.pending@ =~= old(self).pending@.remove(reply.id));
                assert forall|other: u32| #[trigger] self.pending().contains(other) implies other
                    < self.next_id() by {
                    assert(old(self).pending().contains(other));
                }
                if !answered {
                    let mut why = "response ".to_string();
                    why.append(text::decimal_string(reply.id as u64).as_str());
                    why.append(" answers no pending request");
                    return Step::Fail(Error::Protocol(why));
                }
                Step::Tell(event_for(reply.resp))
            },
        }
    }
}

/// Why a session is over: what went wrong, or else why the connection was closed,
/// or else that it was.
pub open spec fn is_reason(
    outcome: Result<(), Error>,
    close_reason: Option<String>,
    reason: Seq<char>,
) -> bool {
    match (outcome, close_reason) {
        (Err(error), _) => reason == error.shown(),
        (Ok(_), Some(why)) => reason == why@,
        (Ok(_), None) => reason == "closed"@,
    }
}

/// What is told last of a session: that it is over, and why.
pub fn disconnected(outcome: Result<(), Error>, close_reason: Option<String>) -> (event: Event)
    ensures
        event matches Event::Disconnected { reason } && is_reason(outcome, close_reason, reason@),
{
    Event::Disconnected { reason: disconnect_reason(outcome, close_reason) }
}

/// Why a session is over.
pub fn disconnect_reason(outcome: Result<(), Error>, close_reason: Option<String>) -> (reason:
    String)
    ensures
        is_reason(outcome, close_reason, reason@),
{
    match outcome {
        Err(error) => error.to_string(),
        Ok(()) => match close_reason {
            Some(why) => why,
            None => "closed".to_string(),
        },
    }
}

/// Every command asks the server for what it says, with all that it carries, and only the
/// one that ends the session asks for nothing.
pub proof fn a_command_asks_for_what_it_says(one: Command, other: Command)
    ensures
        request_of(one) is None <==> one is Disconnect,
        request_of(one) == request_of(other) ==> one == other,
        one matches Command::SetRoom(room) ==> request_of(one) == Some(Req::SetRoom(room)),
        one matches Command::CreateRoom { name } ==> request_of(one) == Some(
            Req::CreateRoom { name },
        ),
        one matches Command::RenameRoom { room, name } ==> request_of(one) == Some(
            Req::RenameRoom { room, name },
        ),
        one matches Command::DeleteRoom(room) ==> request_of(one) == Some(Req::DeleteRoom(room)),
        one matches Command::CreateInvite { role, ttl_secs } ==> request_of(one) == Some(
            Req::CreateInvite { role, ttl_secs },
        ),
{
}

/// A user hears of everyone who comes and goes and of every room made, renamed or taken
/// away, with all that the server said of it, and of nothing else.
pub proof fn comings_and_goings_are_told(event: proto::Event)
    ensures
        event matches proto::Event::UserEntered { room, epoch, peer } ==> translated(event)
            == Some(Event::UserEntered { room, epoch, peer }),
        event matches proto::Event::UserExited { room, epoch, user } ==> translated(event) == Some(
            Event::UserExited { room, epoch, user },
        ),
        event matches proto::Event::RoomCreated(room) ==> translated(event) == Some(
            Event::RoomCreated(room),
        ),
        event matches proto::Event::RoomRenamed { room, name } ==> translated(event) == Some(
            Event::RoomRenamed { room, name },
        ),
        event matches proto::Event::RoomDeleted(room) ==> translated(event) == Some(
            Event::RoomDeleted(room),
        ),
        translated(event) is Some ==> event is UserEntered || event is UserExited
            || event is RoomCreated || event is RoomRenamed || event is RoomDeleted,
{
}

/// An answer is told as it came: where the client was placed, the code it asked for, or
/// what failed, under the failure's name and in the server's words. That a request was
/// simply done is not told.
pub proof fn an_answer_is_told_as_it_came(resp: Resp, told: Option<Event>)
    requires
        is_told(resp, told),
    ensures
        resp matches Resp::Placed(placed) ==> told == Some(Event::Placed(placed)),
        resp matches Resp::InviteCode { code, expires } ==> told == Some(
            Event::Invited { code, expires },
        ),
        resp matches Resp::Failed { code, msg } ==> (told matches Some(Event::Failed { message })
            && message@ == (match code {
            ErrCode::Denied => "Denied"@,
            ErrCode::NotFound => "NotFound"@,
            ErrCode::Invalid => "Invalid"@,
            ErrCode::Unimplemented => "Unimplemented"@,
            ErrCode::Internal => "Internal"@,
        }) + ": "@ + msg@),
        resp is Done || resp is AvatarHash ==> told is None,
{
}

/// A sender learns the epoch of every coming and going and of every placement, never goes
/// back to an older one, and learns from a placement alone which track is its own.
pub proof fn a_sender_learns_every_epoch(sending: Sending, event: Event)
    ensures
        event matches Event::Placed(placed) ==> observed(sending, event).epoch >= placed.epoch.0
            && observed(sending, event).microphone == (match placed.tracks {
            Some(tracks) => Some(tracks.mic),
            None => None,
        }),
        event matches Event::UserEntered { epoch, .. } ==> observed(sending, event).epoch
            >= epoch.0,
        event matches Event::UserExited { epoch, .. } ==> observed(sending, event).epoch
            >= epoch.0,
        observed(sending, event).epoch >= sending.epoch,
        !(event is Placed) ==> observed(sending, event).microphone == sending.microphone,
        !(event is Placed || event is UserEntered || event is UserExited) ==> observed(
            sending,
            event,
        ) == sending,
        observed(sending, event).next_seq == sending.next_seq,
        observed(sending, event).dropped == sending.dropped,
{
}

/// A session that ends says why: what went wrong comes before why the connection was
/// closed, and only one that ends without either says no more than that it was.
pub proof fn an_end_says_why(
    error: Error,
    why: String,
    close_reason: Option<String>,
    reason: Seq<char>,
)
    ensures
        is_reason(Err(error), close_reason, reason) <==> reason == error.shown(),
        is_reason(Ok(()), Some(why), reason) <==> reason == why@,
        is_reason(Ok(()), None, reason) <==> reason == "closed"@,
{
}

/// An answer to nothing that was asked is reported under its id.
pub proof fn a_stray_answer_is_reported_under_its_id(one: u32, two: u32)
    ensures
        stray_message(one) == "response "@ + text::decimal(one as nat)
            + " answers no pending request"@,
        stray_message(one) == stray_message(two) ==> one == two,
{
    if stray_message(one) == stray_message(two) {
        let (a, b) = (text::decimal(one as nat), text::decimal(two as nat));
        let (head, tail) = ("response "@, " answers no pending request"@);
        assert(stray_message(one).len() == head.len() + a.len() + tail.len());
        assert(stray_message(two).len() == head.len() + b.len() + tail.len());
        assert(stray_message(one).subrange(head.len() as int, head.len() + a.len() as int) =~= a);
        assert(stray_message(two).subrange(head.len() as int, head.len() + b.len() as int) =~= b);
        text::a_decimal_names_one_number(one as nat, two as nat);
    }
}

} // verus!
