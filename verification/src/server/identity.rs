//! The server's identity, which follows from its key.

use vstd::prelude::*;

use crate::crypto;
use crate::proto::fingerprint::{self, Fingerprint};
use crate::text;

verus! {

/// A certificate in DER, the key it is for in PKCS#8, and what clients pin.
pub struct ServerIdentity {
    pub certificate: Vec<u8>,
    pub private_key: Vec<u8>,
    pub fingerprint: Fingerprint,
}

/// Why no identity could be derived.
#[derive(Debug)]
pub enum IdentityError {
    /// The key could not be encoded.
    Key,
    /// The certificate could not be made.
    Certificate,
    /// The certificate does not parse.
    Fingerprint(crate::proto::Error),
}

/// What is said of a key file of the wrong size.
pub open spec fn size_message(path: Seq<char>, found: nat) -> Seq<char> {
    path + " is "@ + text::decimal(found) + " bytes, expected 32"@
}

/// The seed that a key file holds.
pub fn seed_of(path: &str, bytes: &[u8]) -> (seed: Result<[u8; 32], String>)
    ensures
        match seed {
            Ok(seed) => seed@ == bytes@,
            Err(message) => bytes@.len() != 32 && message@ == size_message(path@, bytes@.len()),
        },
{
    if bytes.len() != 32 {
        let mut message = path.to_string();
        message.append(" is ");
        message.append(text::decimal_string(bytes.len() as u64).as_str());
        message.append(" bytes, expected 32");
        return Err(message);
    }
    let mut seed = [0u8; 32];
    let mut i: usize = 0;
    while i < 32
        invariant
            i <= 32,
            bytes@.len() == 32,
            forall|j: int| 0 <= j < i ==> seed@[j] == bytes@[j],
        decreases 32 - i,
    {
        seed[i] = bytes[i];
        i += 1;
    }
    assert(seed@ =~= bytes@);
    Ok(seed)
}

/// Whether an identity is the one that a key and a certificate make.
pub open spec fn is_identity(
    identity: Result<ServerIdentity, IdentityError>,
    private_key: Seq<u8>,
    certificate: Seq<u8>,
) -> bool {
    match (identity, fingerprint::spki(certificate)) {
        (Ok(identity), Ok(spki)) => {
            &&& identity.certificate@ == certificate
            &&& identity.private_key@ == private_key
            &&& identity.fingerprint@ == crypto::sha256(spki)
        },
        (
            Err(IdentityError::Fingerprint(crate::proto::Error::Certificate(message))),
            Err(why),
        ) => message@ == why,
        _ => false,
    }
}

/// The identity that a key and a certificate for it make.
pub fn identity_of(private_key: Vec<u8>, certificate: Vec<u8>) -> (identity: Result<
    ServerIdentity,
    IdentityError,
>)
    ensures
        is_identity(identity, private_key@, certificate@),
{
    match Fingerprint::from_cert_der(certificate.as_slice()) {
        Ok(fingerprint) => Ok(ServerIdentity { certificate, private_key, fingerprint }),
        Err(error) => Err(IdentityError::Fingerprint(error)),
    }
}

/// Whether an identity is the one that a seed's key has.
pub open spec fn is_derived(identity: Result<ServerIdentity, IdentityError>, seed: Seq<u8>) -> bool {
    match crypto::ed25519_pkcs8(seed) {
        None => identity matches Err(IdentityError::Key),
        Some(private_key) => match crypto::self_signed(private_key, "throcc"@) {
            None => identity matches Err(IdentityError::Certificate),
            Some(certificate) => is_identity(identity, private_key, certificate),
        },
    }
}

/// The identity of a key. The certificate is made afresh each time and is a
/// function of the key, so that only the key has to be kept.
pub fn derive_identity(seed: &[u8; 32]) -> (identity: Result<ServerIdentity, IdentityError>)
    ensures
        is_derived(identity, seed@),
{
    let private_key = match crypto::to_pkcs8(seed) {
        Some(private_key) => private_key,
        None => return Err(IdentityError::Key),
    };
    match crypto::self_sign(private_key.as_slice(), "throcc") {
        Some(certificate) => identity_of(private_key, certificate),
        None => Err(IdentityError::Certificate),
    }
}

/// A key has one identity, however often it is derived: the same certificate, and
/// the same fingerprint.
pub proof fn an_identity_follows_the_key(
    seed: Seq<u8>,
    one: ServerIdentity,
    other: ServerIdentity,
)
    requires
        is_derived(Ok(one), seed),
        is_derived(Ok(other), seed),
    ensures
        one.certificate@ == other.certificate@,
        one.private_key@ == other.private_key@,
        one.fingerprint@ == other.fingerprint@,
{
}

/// A fingerprint is of the key alone: certificates that carry the same public key
/// have the same fingerprint, whatever else they say.
pub proof fn a_fingerprint_follows_the_key(
    one: ServerIdentity,
    one_key: Seq<u8>,
    other: ServerIdentity,
    other_key: Seq<u8>,
)
    requires
        is_identity(Ok(one), one_key, one.certificate@),
        is_identity(Ok(other), other_key, other.certificate@),
        fingerprint::spki(one.certificate@) == fingerprint::spki(other.certificate@),
    ensures
        one.fingerprint@ == other.fingerprint@,
{
}

/// An identity is made of the key and the certificate it is made from, and what clients
/// pin is the hash of the public key in that certificate.
pub proof fn an_identity_is_its_key_and_certificate(
    identity: ServerIdentity,
    private_key: Seq<u8>,
    certificate: Seq<u8>,
)
    requires
        is_identity(Ok(identity), private_key, certificate),
    ensures
        identity.private_key@ == private_key,
        identity.certificate@ == certificate,
        fingerprint::spki(certificate) matches Ok(key) && identity.fingerprint@ == crypto::sha256(
            key,
        ),
{
}

/// A key file of the wrong size is reported under its path, with the size it has.
pub proof fn a_wrong_key_file_is_named(path: Seq<char>, found: nat)
    ensures
        size_message(path, found) == path + " is "@ + text::decimal(found) + " bytes, expected 32"@,
{
}

} // verus!
