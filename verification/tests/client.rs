use throcc::client::auth::{answer, conclude, handshake};
use throcc::client::connection::{settle, PinVerifier, Verdict};
use throcc::client::identity::{decode_seed, Keystore, Opened, Stored, StoredServer};
use throcc::client::Error;
use throcc::proto::auth::signing_input;
use throcc::proto::{AuthErr, AuthResult, Fingerprint, ServerHello, PROTO_VERSION};
use throcc::server::identity::derive_identity;

const SERVER_LABEL: &str = "server.test";

/// What a keystore's file holds, with the keystore it was opened as.
fn opened(contents: Option<Stored>) -> (Keystore, Stored) {
    match Keystore::open(contents.map(Ok)).unwrap() {
        Opened {
            keystore,
            write: Some(stored),
        } => (keystore, stored),
        Opened {
            keystore,
            write: None,
        } => {
            let stored = keystore.stored();
            (keystore, stored)
        }
    }
}

#[test]
fn generates_once_and_reloads() {
    let Opened { keystore, write } = Keystore::open(None).unwrap();
    let stored = write.expect("a new identity must be written");
    assert_eq!(stored.identity.len(), 64);
    assert!(stored.known_servers.is_empty());

    let again = Keystore::open(Some(Ok(stored))).unwrap();
    assert_eq!(
        keystore.identity(),
        again.keystore.identity(),
        "the identity key must survive a reload"
    );
    assert!(again.write.is_none(), "a keystore that is there is left alone");
}

#[test]
fn generated_identities_differ() {
    assert_ne!(
        Keystore::generate().identity(),
        Keystore::generate().identity()
    );
}

#[test]
fn pins_persist() {
    let fingerprint = Fingerprint::from([7u8; 32]);

    let (mut keystore, _) = opened(None);
    assert_eq!(keystore.pinned("example:8476"), None);
    keystore.pin("example:8476", fingerprint);

    let (reloaded, _) = opened(Some(keystore.stored()));
    assert_eq!(reloaded.pinned("example:8476"), Some(fingerprint));
    assert_eq!(reloaded.identity(), keystore.identity());
}

#[test]
fn a_keystore_is_stored_as_text() {
    let mut keystore = Keystore::restore(&"0f".repeat(32), Vec::new()).unwrap();
    keystore.pin("example:8476", Fingerprint::from([0xab; 32]));
    let stored = keystore.stored();
    assert_eq!(stored.identity, "0f".repeat(32));
    assert_eq!(stored.known_servers.len(), 1);
    assert_eq!(stored.known_servers[0].authority, "example:8476");
    assert_eq!(stored.known_servers[0].fingerprint, "ab".repeat(32));
}

fn refusal_to_open(contents: Result<Stored, String>) -> String {
    match Keystore::open(Some(contents)) {
        Err(Error::Keystore(why)) => why,
        Err(other) => panic!("unexpected: {other:?}"),
        Ok(_) => panic!("a malformed keystore must be refused, not replaced"),
    }
}

#[test]
fn a_malformed_keystore_is_refused() {
    assert_eq!(
        refusal_to_open(Err("keystore.json: expected value".to_string())),
        "keystore.json: expected value"
    );
    assert_eq!(
        refusal_to_open(Ok(Stored {
            identity: "ab".to_string(),
            known_servers: Vec::new(),
        })),
        "identity key is not 32 bytes"
    );
    let known = |fingerprint: &str| StoredServer {
        authority: "example:8476".to_string(),
        fingerprint: fingerprint.to_string(),
    };
    assert_eq!(
        refusal_to_open(Ok(Stored {
            identity: "0f".repeat(32),
            known_servers: vec![known(&"ab".repeat(32)), known("ab"), known("zz")],
        })),
        "malformed fingerprint: expected 64 hex characters"
    );
}

#[test]
fn a_second_pin_takes_the_place_of_the_first() {
    let mut keystore = Keystore::generate();
    keystore.pin("a", Fingerprint::from([1u8; 32]));
    keystore.pin("b", Fingerprint::from([2u8; 32]));
    keystore.pin("a", Fingerprint::from([3u8; 32]));
    assert_eq!(keystore.known_servers().len(), 2);
    assert_eq!(keystore.pinned("a"), Some(Fingerprint::from([3u8; 32])));
    assert_eq!(keystore.pinned("b"), Some(Fingerprint::from([2u8; 32])));
    assert_eq!(keystore.pinned("c"), None);
}

fn keystore_error(identity: &str) -> String {
    match decode_seed(identity) {
        Err(Error::Keystore(why)) => why,
        other => panic!("unexpected: {other:?}"),
    }
}

#[test]
fn a_malformed_identity_says_why() {
    assert_eq!(
        keystore_error("ab"),
        "identity key is not 32 bytes"
    );
    assert_eq!(
        keystore_error(&"zz".repeat(32)),
        "identity key is not hexadecimal"
    );
    assert_eq!(
        keystore_error(&format!("a{}b", "é".repeat(31))),
        "identity key is not hexadecimal"
    );
    assert_eq!(
        keystore_error(&"+f".repeat(32)),
        "identity key is not hexadecimal"
    );
    assert_eq!(decode_seed(&"0F".repeat(32)).unwrap(), [15u8; 32]);
}

fn certificate(seed: u8) -> (Vec<u8>, Fingerprint) {
    let identity = derive_identity(&[seed; 32]).unwrap();
    (identity.certificate, identity.fingerprint)
}

fn connect_pinned(keystore: &mut Keystore, server: &str, certificate: &[u8]) -> Result<(), Error> {
    let mut verifier = PinVerifier::new(keystore.pinned(server));
    let failed = match verifier.verify_server_cert(certificate) {
        Verdict::Accepted => None,
        Verdict::Malformed(error) => Some(error.to_string()),
        Verdict::Mismatched => Some("the certificate was refused".to_string()),
    };
    settle(keystore, server, &verifier, failed)
}

#[test]
fn pins_on_first_use_and_refuses_a_changed_key() {
    let (first, expected) = certificate(1);
    let mut keystore = Keystore::generate();

    connect_pinned(&mut keystore, SERVER_LABEL, &first).expect("first connection should succeed");
    assert_eq!(
        keystore.pinned(SERVER_LABEL),
        Some(expected),
        "a successful first connection must store the pin"
    );

    let (second, new_fingerprint) = certificate(2);
    assert_ne!(
        new_fingerprint, expected,
        "a regenerated identity must not hash to the old one"
    );
    let err = connect_pinned(&mut keystore, SERVER_LABEL, &second)
        .expect_err("a changed server key must be refused");

    match err {
        Error::PinMismatch {
            server,
            pinned,
            presented,
        } => {
            assert_eq!(server, SERVER_LABEL);
            assert_eq!(pinned, expected.to_string());
            assert_eq!(presented, new_fingerprint.to_string());
        }
        other => panic!("expected a pin mismatch, got {other:?}"),
    }

    assert_eq!(
        keystore.pinned(SERVER_LABEL),
        Some(expected),
        "a refused connection must not overwrite the stored pin"
    );
}

#[test]
fn a_pin_survives_the_server_moving() {
    let (presented, expected) = certificate(1);
    let mut keystore = Keystore::generate();
    connect_pinned(&mut keystore, SERVER_LABEL, &presented).unwrap();

    let (moved, _) = certificate(1);
    connect_pinned(&mut keystore, SERVER_LABEL, &moved)
        .expect("a server that changed port is still the same server");
    assert_eq!(keystore.pinned(SERVER_LABEL), Some(expected));
}

#[test]
fn a_connection_that_merely_failed_pins_nothing() {
    let mut keystore = Keystore::generate();
    let verifier = PinVerifier::new(None);
    match settle(
        &mut keystore,
        SERVER_LABEL,
        &verifier,
        Some("timed out".to_string()),
    ) {
        Err(error) => assert_eq!(error.to_string(), "connection failed: timed out"),
        Ok(()) => panic!("a failed handshake must not settle"),
    }
    match settle(&mut keystore, SERVER_LABEL, &verifier, None) {
        Err(Error::Connect(why)) => {
            assert_eq!(why, "handshake completed without a certificate")
        }
        other => panic!("unexpected: {other:?}"),
    }
    assert!(connect_pinned(&mut keystore, SERVER_LABEL, &[0x30]).is_err());
    assert!(keystore.known_servers().is_empty());
}

fn hello(proto: u16) -> ServerHello {
    ServerHello {
        server_nonce: [1u8; 32],
        proto,
    }
}

#[test]
fn an_answer_carries_a_valid_signature() {
    let seed = [9u8; 32];
    let auth = answer(
        Some(hello(PROTO_VERSION)),
        [3u8; 32],
        &[2u8; 32],
        &seed,
        Some("K7QM2X".to_string()),
    )
    .unwrap();
    let key = ed25519_dalek::SigningKey::from_bytes(&seed);
    assert_eq!(auth.pubkey, key.verifying_key().to_bytes());
    assert_eq!(auth.client_nonce, [3u8; 32]);
    assert_eq!(auth.invite_code.as_deref(), Some("K7QM2X"));
    assert_eq!(auth.want_room, None);
    key.verifying_key()
        .verify_strict(
            &signing_input(&[1u8; 32], &[3u8; 32], &[2u8; 32]),
            &ed25519_dalek::Signature::from_bytes(&auth.sig),
        )
        .unwrap();
}

#[test]
fn a_nonce_is_drawn_for_each_handshake() {
    let once = handshake(Some(hello(PROTO_VERSION)), &[2u8; 32], &[9u8; 32], None).unwrap();
    let again = handshake(Some(hello(PROTO_VERSION)), &[2u8; 32], &[9u8; 32], None).unwrap();
    assert_ne!(once.client_nonce, again.client_nonce);
    assert_ne!(once.sig, again.sig);
}

#[test]
fn a_handshake_that_cannot_go_on_says_why() {
    let no_hello = handshake(None, &[2u8; 32], &[9u8; 32], None).unwrap_err();
    assert_eq!(
        no_hello.to_string(),
        "protocol: the control stream closed before the hello"
    );
    let other = handshake(Some(hello(7)), &[2u8; 32], &[9u8; 32], None).unwrap_err();
    assert_eq!(
        other.to_string(),
        "protocol: server speaks protocol 7, this client speaks 1"
    );
    assert_eq!(
        conclude(None).unwrap_err().to_string(),
        "protocol: the control stream closed before the authentication result"
    );
    let refused = conclude(Some(AuthResult::Refused(AuthErr::Banned))).unwrap_err();
    assert_eq!(
        refused.to_string(),
        "the server rejected this client: Banned"
    );
}

#[test]
fn errors_read_as_sentences() {
    let shown = [
        (
            Error::PinMismatch {
                server: "s".to_string(),
                pinned: "aa".to_string(),
                presented: "bb".to_string(),
            },
            "server key mismatch for s: pinned aa, presented bb",
        ),
        (Error::Protocol("x".to_string()), "protocol: x"),
        (Error::CommandDropped("x".to_string()), "command dropped: x"),
        (Error::Audio("x".to_string()), "audio: x"),
        (Error::Keystore("x".to_string()), "keystore: x"),
        (
            Error::Proto(throcc::proto::Error::Certificate("truncated element")),
            "malformed certificate: truncated element",
        ),
    ];
    for (error, expected) in shown {
        assert_eq!(error.to_string(), expected);
    }
}
