//! The client: its identity, its session and its media path.

use vstd::prelude::*;

use crate::proto;
use crate::proto::msg::AuthErr;
use crate::text;

pub mod auth;
pub mod client;
pub mod connection;
pub mod identity;
pub mod media;

verus! {

/// What can go wrong for a client.
#[derive(Debug)]
pub enum Error {
    /// The server presented another key than the pinned one.
    PinMismatch { server: String, pinned: String, presented: String },
    /// The server would not let this client in.
    Rejected(AuthErr),
    Connect(String),
    Protocol(String),
    CommandDropped(String),
    Audio(String),
    Keystore(String),
    Proto(proto::Error),
}

/// The name of a reason to be turned away.
pub open spec fn refusal_name(error: AuthErr) -> Seq<char> {
    match error {
        AuthErr::UnknownKey => "UnknownKey"@,
        AuthErr::BadSig => "BadSig"@,
        AuthErr::BadInvite => "BadInvite"@,
        AuthErr::ProtoMismatch => "ProtoMismatch"@,
        AuthErr::Banned => "Banned"@,
    }
}

/// The name of a reason to be turned away.
pub fn refusal(error: AuthErr) -> (name: &'static str)
    ensures
        name@ == refusal_name(error),
{
    match error {
        AuthErr::UnknownKey => "UnknownKey",
        AuthErr::BadSig => "BadSig",
        AuthErr::BadInvite => "BadInvite",
        AuthErr::ProtoMismatch => "ProtoMismatch",
        AuthErr::Banned => "Banned",
    }
}

impl Error {
    /// The error in words.
    pub open spec fn shown(self) -> Seq<char> {
        match self {
            Error::PinMismatch { server, pinned, presented } => "server key mismatch for "@
                + server@ + ": pinned "@ + pinned@ + ", presented "@ + presented@,
            Error::Rejected(error) => "the server rejected this client: "@ + refusal_name(error),
            Error::Connect(why) => "connection failed: "@ + why@,
            Error::Protocol(why) => "protocol: "@ + why@,
            Error::CommandDropped(why) => "command dropped: "@ + why@,
            Error::Audio(why) => "audio: "@ + why@,
            Error::Keystore(why) => "keystore: "@ + why@,
            Error::Proto(error) => error.shown(),
        }
    }

    /// The error in words.
    pub fn to_string(&self) -> (shown: String)
        ensures
            shown@ == self.shown(),
    {
        match self {
            Error::PinMismatch { server, pinned, presented } => {
                let mut shown = "server key mismatch for ".to_string();
                shown.append(server.as_str());
                shown.append(": pinned ");
                shown.append(pinned.as_str());
                shown.append(", presented ");
                shown.append(presented.as_str());
                shown
            },
            Error::Rejected(error) => text::joined("the server rejected this client: ", refusal(
                *error,
            )),
            Error::Connect(why) => text::joined("connection failed: ", why.as_str()),
            Error::Protocol(why) => text::joined("protocol: ", why.as_str()),
            Error::CommandDropped(why) => text::joined("command dropped: ", why.as_str()),
            Error::Audio(why) => text::joined("audio: ", why.as_str()),
            Error::Keystore(why) => text::joined("keystore: ", why.as_str()),
            Error::Proto(error) => error.to_string(),
        }
    }
}

/// An error in words says what kind it is and goes on with what it carries.
pub proof fn an_error_says_what_it_is(error: Error)
    ensures
        error matches Error::PinMismatch { server, pinned, presented } ==> error.shown()
            == "server key mismatch for "@ + server@ + ": pinned "@ + pinned@ + ", presented "@
            + presented@,
        error matches Error::Rejected(why) ==> error.shown()
            == "the server rejected this client: "@ + (match why {
            AuthErr::UnknownKey => "UnknownKey"@,
            AuthErr::BadSig => "BadSig"@,
            AuthErr::BadInvite => "BadInvite"@,
            AuthErr::ProtoMismatch => "ProtoMismatch"@,
            AuthErr::Banned => "Banned"@,
        }),
        error matches Error::Connect(why) ==> error.shown() == "connection failed: "@ + why@,
        error matches Error::Protocol(why) ==> error.shown() == "protocol: "@ + why@,
        error matches Error::CommandDropped(why) ==> error.shown() == "command dropped: "@ + why@,
        error matches Error::Audio(why) ==> error.shown() == "audio: "@ + why@,
        error matches Error::Keystore(why) ==> error.shown() == "keystore: "@ + why@,
        error matches Error::Proto(why) ==> error.shown() == why.shown(),
{
}

} // verus!
