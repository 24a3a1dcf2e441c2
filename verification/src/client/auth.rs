//! The client's half of the handshake.

use vstd::prelude::*;

use crate::client::Error;
use crate::crypto;
use crate::proto::auth::{signing_input, EXPORTER_BYTES, NONCE_BYTES};
use crate::proto::msg::{Auth, AuthResult, InitialState, ServerHello, PROTO_VERSION};
use crate::text;

verus! {

/// What is said of a server that speaks another protocol.
pub open spec fn mismatch_message(proto: u16) -> Seq<char> {
    "server speaks protocol "@ + text::decimal(proto as nat) + ", this client speaks "@
        + text::decimal(PROTO_VERSION as nat)
}

/// Whether an answer proves a seed's key over a nonce from either side and one
/// connection, and asks for no room.
pub open spec fn is_answer(
    auth: Auth,
    server_nonce: Seq<u8>,
    client_nonce: Seq<u8>,
    exporter: Seq<u8>,
    seed: Seq<u8>,
    invite_code: Option<String>,
) -> bool {
    &&& auth.pubkey@ == crypto::ed25519_public(seed)
    &&& auth.client_nonce@ == client_nonce
    &&& auth.invite_code == invite_code
    &&& auth.want_room is None
    &&& auth.sig@ == crypto::ed25519_signature(
        seed,
        crate::proto::auth::signed_bytes(server_nonce, client_nonce, exporter),
    )
}

/// Whether an error is of the protocol, in these words.
pub open spec fn is_protocol(error: Error, message: Seq<char>) -> bool {
    error matches Error::Protocol(why) && why@ == message
}

/// Whether an answer proves its key to the server that sent the hello, on this one
/// connection: it does, but for a signature whose commitment is the neutral point.
pub open spec fn is_accepted_by(
    hello: Option<ServerHello>,
    exporter: Seq<u8>,
    answer: Result<Auth, Error>,
) -> bool {
    match (hello, answer) {
        (Some(hello), Ok(auth)) => auth.sig@.take(32) != crypto::neutral_point()
            ==> crate::server::auth::is_proven(auth, hello.server_nonce@, exporter),
        _ => true,
    }
}

/// What a client answers a hello with, under a nonce of its own.
pub fn answer(
    hello: Option<ServerHello>,
    client_nonce: [u8; NONCE_BYTES],
    exporter: &[u8; EXPORTER_BYTES],
    seed: &[u8; 32],
    invite_code: Option<String>,
) -> (answer: Result<Auth, Error>)
    ensures
        match (hello, answer) {
            (None, Err(error)) => is_protocol(
                error,
                "the control stream closed before the hello"@,
            ),
            (Some(hello), Err(error)) => hello.proto != PROTO_VERSION && is_protocol(
                error,
                mismatch_message(hello.proto),
            ),
            (Some(hello), Ok(auth)) => hello.proto == PROTO_VERSION && is_answer(
                auth,
                hello.server_nonce@,
                client_nonce@,
                exporter@,
                seed@,
                invite_code,
            ),
            (None, Ok(_)) => false,
        },
        is_accepted_by(hello, exporter@, answer),
{
    let hello = match hello {
        Some(hello) => hello,
        None => {
            return Err(
                Error::Protocol("the control stream closed before the hello".to_string()),
            );
        },
    };
    if hello.proto != PROTO_VERSION {
        let mut why = "server speaks protocol ".to_string();
        why.append(text::decimal_string(hello.proto as u64).as_str());
        why.append(", this client speaks ");
        why.append(text::decimal_string(PROTO_VERSION as u64).as_str());
        return Err(Error::Protocol(why));
    }
    let input = signing_input(&hello.server_nonce, &client_nonce, exporter);
    Ok(
        Auth {
            pubkey: crypto::public_key(seed),
            client_nonce,
            invite_code,
            want_room: None,
            sig: crypto::sign(seed, input.as_slice()),
        },
    )
}

/// The server's hello is read, and this client then proves ownership of its
/// identity key over this exact connection, under a nonce drawn for it.
pub fn handshake(
    hello: Option<ServerHello>,
    exporter: &[u8; EXPORTER_BYTES],
    seed: &[u8; 32],
    invite_code: Option<String>,
) -> (answer: Result<Auth, Error>)
    ensures
        match (hello, answer) {
            (None, Err(error)) => is_protocol(
                error,
                "the control stream closed before the hello"@,
            ),
            (Some(hello), Err(error)) => hello.proto != PROTO_VERSION && is_protocol(
                error,
                mismatch_message(hello.proto),
            ),
            (Some(hello), Ok(auth)) => hello.proto == PROTO_VERSION && is_answer(
                auth,
                hello.server_nonce@,
                auth.client_nonce@,
                exporter@,
                seed@,
                invite_code,
            ),
            (None, Ok(_)) => false,
        },
        is_accepted_by(hello, exporter@, answer),
{
    answer(hello, crypto::random_bytes(), exporter, seed, invite_code)
}

/// What the server's verdict comes to.
pub fn conclude(result: Option<AuthResult>) -> (concluded: Result<InitialState, Error>)
    ensures
        match result {
            Some(AuthResult::Admitted(initial)) => concluded == Ok::<InitialState, Error>(initial),
            Some(AuthResult::Refused(error)) => concluded matches Err(Error::Rejected(rejected))
                && rejected == error,
            None => concluded matches Err(error) && is_protocol(
                error,
                "the control stream closed before the authentication result"@,
            ),
        },
{
    match result {
        Some(AuthResult::Admitted(initial)) => Ok(initial),
        Some(AuthResult::Refused(error)) => Err(Error::Rejected(error)),
        None => Err(
            Error::Protocol(
                "the control stream closed before the authentication result".to_string(),
            ),
        ),
    }
}

/// What a client signs is what the server checks: its answer is proven to a server
/// with the same nonce, on the same connection, exactly if its signature is a valid
/// one of the bytes it signed under its own public key.
pub proof fn both_sides_speak_of_the_same_bytes(
    auth: Auth,
    server_nonce: Seq<u8>,
    client_nonce: Seq<u8>,
    exporter: Seq<u8>,
    seed: Seq<u8>,
    invite_code: Option<String>,
)
    requires
        is_answer(auth, server_nonce, client_nonce, exporter, seed, invite_code),
    ensures
        ({
            let signed = crate::proto::auth::signed_bytes(server_nonce, client_nonce, exporter);
            crate::server::auth::is_proven(auth, server_nonce, exporter)
                == crypto::ed25519_verifies(
                crypto::ed25519_public(seed),
                signed,
                crypto::ed25519_signature(seed, signed),
            )
        }),
{
}

/// An answer is made of what the client was given: the nonce that goes with it, the code
/// to redeem, if any, and no wish for a room.
pub proof fn an_answer_carries_what_it_was_given(
    auth: Auth,
    server_nonce: Seq<u8>,
    client_nonce: Seq<u8>,
    exporter: Seq<u8>,
    seed: Seq<u8>,
    invite_code: Option<String>,
)
    requires
        is_answer(auth, server_nonce, client_nonce, exporter, seed, invite_code),
    ensures
        auth.pubkey@ == crypto::ed25519_public(seed),
        auth.client_nonce@ == client_nonce,
        auth.invite_code == invite_code,
        auth.want_room is None,
{
}

/// A server that speaks another protocol is told apart by both numbers, its own first.
pub proof fn a_mismatch_names_both_protocols(proto: u16)
    ensures
        mismatch_message(proto) == "server speaks protocol "@ + text::decimal(proto as nat)
            + ", this client speaks "@ + text::decimal(1),
{
}

/// A client signs the domain, both nonces and this connection's exported value, in that
/// order, with its own key.
pub proof fn a_client_signs_both_nonces_and_the_connection(
    auth: Auth,
    server_nonce: Seq<u8>,
    client_nonce: Seq<u8>,
    exporter: Seq<u8>,
    seed: Seq<u8>,
    invite_code: Option<String>,
)
    requires
        is_answer(auth, server_nonce, client_nonce, exporter, seed, invite_code),
    ensures
        auth.sig@ == crypto::ed25519_signature(
            seed,
            seq![
                0x74u8, 0x68, 0x72, 0x6f, 0x63, 0x63, 0x2d, 0x61, 0x75, 0x74, 0x68, 0x2d, 0x76, 0x31,
            ] + server_nonce + client_nonce + exporter,
        ),
{
    let domain = seq![
        0x74u8, 0x68, 0x72, 0x6f, 0x63, 0x63, 0x2d, 0x61, 0x75, 0x74, 0x68, 0x2d, 0x76, 0x31,
    ];
    assert(crate::proto::auth::signed_bytes(server_nonce, client_nonce, exporter) =~= domain
        + server_nonce + client_nonce + exporter);
}

} // verus!
