//! What client and server share: the handshake, the control messages and the
//! media header.

use vstd::prelude::*;

use crate::text;

pub mod auth;
pub mod fingerprint;
pub mod frame;
pub mod framing;
pub mod ids;
pub mod msg;
pub mod wire;

pub use fingerprint::Fingerprint;
pub use frame::{
    check_datagram_size, FrameHeader, HEADER_BYTES, MIN_DATAGRAM_BYTES, PAYLOAD_BUDGET,
};
pub use ids::{Epoch, MediaId, RoomId, UserId};
pub use msg::{
    Auth, AuthErr, AuthResult, Codec, ErrCode, Event, InitialState, PeerState, Placed, Req,
    ReqEnvelope, Resp, RespEnvelope, Role, Room, ServerHello, ServerMessage, Share, Tracks, User,
    PROTO_VERSION,
};

verus! {

/// Why bytes or text were not what they had to be.
#[derive(Debug)]
pub enum Error {
    /// A buffer of `have` bytes where `need` were wanted.
    Short { need: usize, have: usize },
    /// A frame of `len` bytes over the cap of `max`.
    TooLarge { len: usize, max: usize },
    /// The peer cannot carry media datagrams.
    Datagram(String),
    /// A certificate that does not parse.
    Certificate(&'static str),
    /// A fingerprint that does not parse.
    Fingerprint(&'static str),
}

impl Error {
    /// The error in words.
    pub open spec fn shown(self) -> Seq<char> {
        match self {
            Error::Short { need, have } => "buffer too short: need "@ + text::decimal(need as nat)
                + " bytes, have "@ + text::decimal(have as nat),
            Error::TooLarge { len, max } => "frame of "@ + text::decimal(len as nat)
                + " bytes exceeds the "@ + text::decimal(max as nat) + " byte cap"@,
            Error::Datagram(why) => why@,
            Error::Certificate(why) => "malformed certificate: "@ + why@,
            Error::Fingerprint(why) => "malformed fingerprint: "@ + why@,
        }
    }

    /// The error in words.
    pub fn to_string(&self) -> (shown: String)
        ensures
            shown@ == self.shown(),
    {
        match self {
            Error::Short { need, have } => {
                let mut shown = "buffer too short: need ".to_string();
                shown.append(text::decimal_string(*need as u64).as_str());
                shown.append(" bytes, have ");
                shown.append(text::decimal_string(*have as u64).as_str());
                shown
            },
            Error::TooLarge { len, max } => {
                let mut shown = "frame of ".to_string();
                shown.append(text::decimal_string(*len as u64).as_str());
                shown.append(" bytes exceeds the ");
                shown.append(text::decimal_string(*max as u64).as_str());
                shown.append(" byte cap");
                shown
            },
            Error::Datagram(why) => why.clone(),
            Error::Certificate(why) => text::joined("malformed certificate: ", why),
            Error::Fingerprint(why) => text::joined("malformed fingerprint: ", why),
        }
    }
}

/// The application protocol a connection negotiates: `throcc/1`.
pub const ALPN: [u8; 8] = [0x74, 0x68, 0x72, 0x6f, 0x63, 0x63, 0x2f, 0x31];

/// The UDP port a server listens on by default.
pub const DEFAULT_PORT: u16 = 8476;

/// An error in words says what kind it is and goes on with the sizes or the reason.
pub proof fn an_error_says_what_it_is(error: Error)
    ensures
        error matches Error::Short { need, have } ==> error.shown() == "buffer too short: need "@
            + text::decimal(need as nat) + " bytes, have "@ + text::decimal(have as nat),
        error matches Error::TooLarge { len, max } ==> error.shown() == "frame of "@
            + text::decimal(len as nat) + " bytes exceeds the "@ + text::decimal(max as nat)
            + " byte cap"@,
        error matches Error::Datagram(why) ==> error.shown() == why@,
        error matches Error::Certificate(why) ==> error.shown() == "malformed certificate: "@
            + why@,
        error matches Error::Fingerprint(why) ==> error.shown() == "malformed fingerprint: "@
            + why@,
{
}

} // verus!
