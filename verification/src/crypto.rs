//! The cryptographic primitives, each behind a name for what it computes.

use ed25519_dalek::pkcs8::EncodePrivateKey;
use ed25519_dalek::Signer;
use sha2::Digest;
use vstd::prelude::*;

verus! {

/// The SHA-256 digest of `data`.
pub uninterp spec fn sha256(data: Seq<u8>) -> Seq<u8>;

/// `sha2::Sha256::digest`: the digest of `data`, which depends on nothing else.
#[verifier::external_body]
pub(crate) fn sha256_digest(data: &[u8]) -> (digest: [u8; 32])
    ensures
        digest@ == sha256(data@),
{
    sha2::Sha256::digest(data).into()
}

/// `rand::random`: a byte from the thread's generator, of which nothing can be
/// foretold.
#[verifier::external_body]
pub(crate) fn random_byte() -> u8 {
    rand::random()
}

/// Thirty-two bytes, each drawn on its own.
pub fn random_bytes() -> (bytes: [u8; 32]) {
    let mut bytes = [0u8; 32];
    let mut i: usize = 0;
    while i < 32
        invariant
            i <= 32,
        decreases 32 - i,
    {
        bytes[i] = random_byte();
        i += 1;
    }
    bytes
}

/// Whether `signature` is one of `message` under the public key `key`, as strict
/// Ed25519 verification judges it.
pub uninterp spec fn ed25519_verifies(key: Seq<u8>, message: Seq<u8>, signature: Seq<u8>) -> bool;

/// `ed25519_dalek::VerifyingKey::from_bytes` and `VerifyingKey::verify_strict`:
/// whether the key decodes and the signature is a valid one of the message under
/// it, which depends on the three alone.
#[verifier::external_body]
pub(crate) fn verify_strict(key: &[u8; 32], message: &[u8], signature: &[u8; 64]) -> (valid: bool)
    ensures
        valid == ed25519_verifies(key@, message@, signature@),
{
    match ed25519_dalek::VerifyingKey::from_bytes(key) {
        Ok(key) => key.verify_strict(
            message,
            &ed25519_dalek::Signature::from_bytes(signature),
        ).is_ok(),
        Err(_) => false,
    }
}

/// The Ed25519 public key of a seed.
pub uninterp spec fn ed25519_public(seed: Seq<u8>) -> Seq<u8>;

/// `ed25519_dalek::SigningKey::verifying_key`: the public half of the key that a
/// seed expands to, which depends on the seed alone.
#[verifier::external_body]
pub(crate) fn public_key(seed: &[u8; 32]) -> (key: [u8; 32])
    ensures
        key@ == ed25519_public(seed@),
{
    ed25519_dalek::SigningKey::from_bytes(seed).verifying_key().to_bytes()
}

/// The Ed25519 signature of a message under a seed.
pub uninterp spec fn ed25519_signature(seed: Seq<u8>, message: Seq<u8>) -> Seq<u8>;

/// The curve's neutral point, as it is encoded.
pub open spec fn neutral_point() -> Seq<u8> {
    Seq::new(
        32,
        |i: int|
            if i == 0 {
                1u8
            } else {
                0u8
            },
    )
}

/// `ed25519_dalek::SigningKey::sign`: the deterministic signature of a message,
/// which depends on seed and message alone. Its first half encodes a multiple of the
/// base point, whose order is prime, so that strict verification under the seed's
/// public key accepts it unless that multiple is the neutral point.
#[verifier::external_body]
pub(crate) fn sign(seed: &[u8; 32], message: &[u8]) -> (signature: [u8; 64])
    ensures
        signature@ == ed25519_signature(seed@, message@),
        signature@.take(32) != neutral_point() ==> ed25519_verifies(
            ed25519_public(seed@),
            message@,
            signature@,
        ),
{
    ed25519_dalek::SigningKey::from_bytes(seed).sign(message).to_bytes()
}

/// A seed's key in PKCS#8, where it can be encoded.
pub uninterp spec fn ed25519_pkcs8(seed: Seq<u8>) -> Option<Seq<u8>>;

/// `ed25519_dalek::pkcs8::EncodePrivateKey::to_pkcs8_der`: the key a seed expands
/// to as a PKCS#8 document, which depends on the seed alone.
#[verifier::external_body]
pub(crate) fn to_pkcs8(seed: &[u8; 32]) -> (document: Option<Vec<u8>>)
    ensures
        match document {
            Some(document) => ed25519_pkcs8(seed@) == Some(document@),
            None => ed25519_pkcs8(seed@) is None,
        },
{
    let key = ed25519_dalek::SigningKey::from_bytes(seed);
    key.to_pkcs8_der().ok().map(|document| document.as_bytes().to_vec())
}

/// The certificate that an Ed25519 key in PKCS#8 signs for itself, with `name` as
/// its common and alternative name, where it can be made.
pub uninterp spec fn self_signed(pkcs8: Seq<u8>, name: Seq<char>) -> Option<Seq<u8>>;

/// `rcgen::CertificateParams::self_signed`: the DER of a certificate with fixed
/// dates, a serial number hashed from the public key and a deterministic signature,
/// so that it depends on key and name alone.
#[verifier::external_body]
pub(crate) fn self_sign(pkcs8: &[u8], name: &str) -> (certificate: Option<Vec<u8>>)
    ensures
        match certificate {
            Some(certificate) => self_signed(pkcs8@, name@) == Some(certificate@),
            None => self_signed(pkcs8@, name@) is None,
        },
{
    let document = rustls::pki_types::PrivatePkcs8KeyDer::from(pkcs8);
    let key = rcgen::KeyPair::from_pkcs8_der_and_sign_algo(&document, &rcgen::PKCS_ED25519).ok()?;
    let mut params = rcgen::CertificateParams::new(vec![name.to_string()]).ok()?;
    let mut subject = rcgen::DistinguishedName::new();
    subject.push(rcgen::DnType::CommonName, name);
    params.distinguished_name = subject;
    params.self_signed(&key).ok().map(|certificate| certificate.der().to_vec())
}

} // verus!
