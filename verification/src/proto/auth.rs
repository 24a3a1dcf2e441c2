//! What an authentication signature covers.

use vstd::prelude::*;

verus! {

/// Separates these signatures from any other: `throcc-auth-v1`.
pub const AUTH_DOMAIN: [u8; 14] = [
    0x74, 0x68, 0x72, 0x6f, 0x63, 0x63, 0x2d, 0x61, 0x75, 0x74, 0x68, 0x2d, 0x76, 0x31,
];

/// The TLS exporter's label: `throcc-auth-exporter-v1`.
pub const EXPORTER_LABEL: [u8; 23] = [
    0x74, 0x68, 0x72, 0x6f, 0x63, 0x63, 0x2d, 0x61, 0x75, 0x74, 0x68, 0x2d, 0x65, 0x78, 0x70, 0x6f,
    0x72, 0x74, 0x65, 0x72, 0x2d, 0x76, 0x31,
];

/// The TLS exporter's context, which is empty.
pub const EXPORTER_CONTEXT: [u8; 0] = [];

pub const EXPORTER_BYTES: usize = 32;

pub const NONCE_BYTES: usize = 32;

pub const SIGNING_INPUT_BYTES: usize = 14 + NONCE_BYTES + NONCE_BYTES + EXPORTER_BYTES;

/// The bytes an `Auth` signature covers.
pub open spec fn signed_bytes(
    server_nonce: Seq<u8>,
    client_nonce: Seq<u8>,
    exporter: Seq<u8>,
) -> Seq<u8> {
    AUTH_DOMAIN@ + server_nonce + client_nonce + exporter
}

/// The bytes an `Auth` signature covers. Both sides must build them identically.
pub fn signing_input(
    server_nonce: &[u8; NONCE_BYTES],
    client_nonce: &[u8; NONCE_BYTES],
    exporter: &[u8; EXPORTER_BYTES],
) -> (input: [u8; SIGNING_INPUT_BYTES])
    ensures
        input@ == signed_bytes(server_nonce@, client_nonce@, exporter@),
{
    let mut input = [0u8; SIGNING_INPUT_BYTES];
    let domain = AUTH_DOMAIN;
    let ghost whole = signed_bytes(server_nonce@, client_nonce@, exporter@);
    let mut written: usize = 0;
    while written < SIGNING_INPUT_BYTES
        invariant
            written <= SIGNING_INPUT_BYTES,
            domain@ == AUTH_DOMAIN@,
            whole == signed_bytes(server_nonce@, client_nonce@, exporter@),
            forall|i: int| 0 <= i < written ==> input@[i] == whole[i],
        decreases SIGNING_INPUT_BYTES - written,
    {
        input[written] = if written < 14 {
            domain[written]
        } else if written < 46 {
            server_nonce[written - 14]
        } else if written < 78 {
            client_nonce[written - 46]
        } else {
            exporter[written - 78]
        };
        written += 1;
    }
    assert(input@ =~= whole);
    input
}

/// Each element reaches the signed bytes: inputs that sign alike are alike.
pub proof fn every_element_is_signed(
    server_nonce: Seq<u8>,
    client_nonce: Seq<u8>,
    exporter: Seq<u8>,
    other_server_nonce: Seq<u8>,
    other_client_nonce: Seq<u8>,
    other_exporter: Seq<u8>,
)
    requires
        server_nonce.len() == NONCE_BYTES,
        client_nonce.len() == NONCE_BYTES,
        exporter.len() == EXPORTER_BYTES,
        other_server_nonce.len() == NONCE_BYTES,
        other_client_nonce.len() == NONCE_BYTES,
        other_exporter.len() == EXPORTER_BYTES,
        signed_bytes(server_nonce, client_nonce, exporter) == signed_bytes(
            other_server_nonce,
            other_client_nonce,
            other_exporter,
        ),
    ensures
        server_nonce == other_server_nonce,
        client_nonce == other_client_nonce,
        exporter == other_exporter,
{
    let whole = signed_bytes(server_nonce, client_nonce, exporter);
    assert(whole.subrange(14, 46) =~= server_nonce);
    assert(whole.subrange(46, 78) =~= client_nonce);
    assert(whole.subrange(78, 110) =~= exporter);
    let other = signed_bytes(other_server_nonce, other_client_nonce, other_exporter);
    assert(other.subrange(14, 46) =~= other_server_nonce);
    assert(other.subrange(46, 78) =~= other_client_nonce);
    assert(other.subrange(78, 110) =~= other_exporter);
}

/// Swapping two different nonces changes the signed bytes.
pub proof fn swapping_the_nonces_shows(
    server_nonce: Seq<u8>,
    client_nonce: Seq<u8>,
    exporter: Seq<u8>,
)
    requires
        server_nonce.len() == NONCE_BYTES,
        client_nonce.len() == NONCE_BYTES,
        exporter.len() == EXPORTER_BYTES,
        server_nonce != client_nonce,
    ensures
        signed_bytes(server_nonce, client_nonce, exporter) != signed_bytes(
            client_nonce,
            server_nonce,
            exporter,
        ),
{
    if signed_bytes(server_nonce, client_nonce, exporter) == signed_bytes(
        client_nonce,
        server_nonce,
        exporter,
    ) {
        every_element_is_signed(
            server_nonce,
            client_nonce,
            exporter,
            client_nonce,
            server_nonce,
            exporter,
        );
    }
}

/// The signed bytes are laid out in one order: the domain, which spells throcc-auth-v1,
/// the server's nonce, the client's nonce and the exporter's value.
pub proof fn the_order_is_fixed(server_nonce: Seq<u8>, client_nonce: Seq<u8>, exporter: Seq<u8>)
    requires
        server_nonce.len() == 32,
        client_nonce.len() == 32,
        exporter.len() == 32,
    ensures
        ({
            let signed = signed_bytes(server_nonce, client_nonce, exporter);
            &&& signed.len() == 110
            &&& signed.take(14) == seq![
                0x74u8, 0x68, 0x72, 0x6f, 0x63, 0x63, 0x2d, 0x61, 0x75, 0x74, 0x68, 0x2d, 0x76, 0x31,
            ]
            &&& signed.subrange(14, 46) == server_nonce
            &&& signed.subrange(46, 78) == client_nonce
            &&& signed.subrange(78, 110) == exporter
        }),
{
    let signed = signed_bytes(server_nonce, client_nonce, exporter);
    assert(signed.take(14) =~= seq![
        0x74u8, 0x68, 0x72, 0x6f, 0x63, 0x63, 0x2d, 0x61, 0x75, 0x74, 0x68, 0x2d, 0x76, 0x31,
    ]);
    assert(signed.subrange(14, 46) =~= server_nonce);
    assert(signed.subrange(46, 78) =~= client_nonce);
    assert(signed.subrange(78, 110) =~= exporter);
}

} // verus!
