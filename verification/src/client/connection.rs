//! Whether a server is the one it was.

use vstd::prelude::*;

use crate::client::identity::{self, Keystore};
use crate::client::Error;
use crate::crypto;
use crate::proto::fingerprint::{self, Fingerprint};
use crate::proto::wire;

verus! {

/// Accepts a certificate only if its SPKI hash matches the pin.
pub struct PinVerifier {
    pub pinned: Option<Fingerprint>,
    /// The fingerprint of the last certificate that parsed.
    pub presented: Option<Fingerprint>,
}

/// What a verifier makes of a certificate.
pub enum Verdict {
    Accepted,
    /// It does not parse.
    Malformed(crate::proto::Error),
    /// Its key is not the pinned one.
    Mismatched,
}

/// The bytes of a fingerprint, if there is one.
pub open spec fn bytes_of(fingerprint: Option<Fingerprint>) -> Option<Seq<u8>> {
    match fingerprint {
        Some(fingerprint) => Some(fingerprint@),
        None => None,
    }
}

impl PinVerifier {
    pub fn new(pinned: Option<Fingerprint>) -> (verifier: PinVerifier)
        ensures
            verifier.pinned == pinned,
            verifier.presented is None,
    {
        PinVerifier { pinned, presented: None }
    }

    /// Compares a certificate's key with the pin, and checks nothing else: without a
    /// pin any key is accepted.
    pub fn verify_server_cert(&mut self, end_entity: &[u8]) -> (verdict: Verdict)
        ensures
            final(self).pinned == old(self).pinned,
            match fingerprint::spki(end_entity@) {
                Err(why) => {
                    &&& verdict matches Verdict::Malformed(crate::proto::Error::Certificate(
                        message,
                    )) && message@ == why
                    &&& final(self).presented == old(self).presented
                },
                Ok(spki) => {
                    &&& bytes_of(final(self).presented) == Some(crypto::sha256(spki))
                    &&& match old(self).pinned {
                        Some(pinned) => if pinned@ == crypto::sha256(spki) {
                            verdict is Accepted
                        } else {
                            verdict is Mismatched
                        },
                        None => verdict is Accepted,
                    }
                },
            },
    {
        let presented = match Fingerprint::from_cert_der(end_entity) {
            Ok(presented) => presented,
            Err(error) => return Verdict::Malformed(error),
        };
        self.presented = Some(presented);
        match self.pinned {
            None => Verdict::Accepted,
            Some(pinned) => {
                if wire::same_bytes(pinned.as_bytes(), presented.as_bytes()) {
                    Verdict::Accepted
                } else {
                    Verdict::Mismatched
                }
            },
        }
    }
}

/// Whether an error says that a server's key changed, and from what to what.
pub open spec fn is_mismatch(
    error: Error,
    server: Seq<char>,
    pinned: Seq<u8>,
    presented: Seq<u8>,
) -> bool {
    error matches Error::PinMismatch { server: named, pinned: was, presented: is } && named@
        == server && was@ == crate::text::hex(pinned) && is@ == crate::text::hex(presented)
}

/// Whether an error is of connecting, in these words.
pub open spec fn is_unconnected(error: Error, message: Seq<char>) -> bool {
    error matches Error::Connect(why) && why@ == message
}

/// What a handshake with a server comes to, failed with a reason or not: a server
/// that is not pinned yet is pinned to the key it presented, and one that presented
/// another key than its pin is told apart from one that merely failed.
pub fn settle(
    keystore: &mut Keystore,
    server: &str,
    verifier: &PinVerifier,
    failed: Option<String>,
) -> (settled: Result<(), Error>)
    ensures
        final(keystore).seed() == old(keystore).seed(),
        match (failed, verifier.pinned, verifier.presented) {
            (Some(reason), Some(pinned), Some(presented)) => {
                &&& final(keystore).known() == old(keystore).known()
                &&& settled matches Err(error) && if pinned@ != presented@ {
                    is_mismatch(error, server@, pinned@, presented@)
                } else {
                    is_unconnected(error, reason@)
                }
            },
            (Some(reason), _, _) => {
                &&& final(keystore).known() == old(keystore).known()
                &&& settled matches Err(error) && is_unconnected(error, reason@)
            },
            (None, _, None) => {
                &&& final(keystore).known() == old(keystore).known()
                &&& settled matches Err(error) && is_unconnected(
                    error,
                    "handshake completed without a certificate"@,
                )
            },
            (None, Some(_), Some(_)) => {
                settled is Ok && final(keystore).known() == old(keystore).known()
            },
            (None, None, Some(presented)) => {
                &&& settled is Ok
                &&& identity::pin_of(final(keystore).known(), server@) == Some(presented@)
                &&& forall|other: Seq<char>|
                    other != server@ ==> #[trigger] identity::pin_of(
                        final(keystore).known(),
                        other,
                    ) == identity::pin_of(old(keystore).known(), other)
            },
        },
{
    if let Some(reason) = failed {
        if let Some(pinned) = verifier.pinned {
            if let Some(presented) = verifier.presented {
                if !wire::same_bytes(pinned.as_bytes(), presented.as_bytes()) {
                    return Err(
                        Error::PinMismatch {
                            server: server.to_string(),
                            pinned: pinned.to_string(),
                            presented: presented.to_string(),
                        },
                    );
                }
            }
        }
        return Err(Error::Connect(reason));
    }
    let presented = match verifier.presented {
        Some(presented) => presented,
        None => {
            return Err(Error::Connect("handshake completed without a certificate".to_string()));
        },
    };
    if verifier.pinned.is_none() {
        keystore.pin(server, presented);
    }
    Ok(())
}

/// A changed key is reported for the server it was seen at, with the key it was pinned to
/// and the key it presented, each in hexadecimal and told apart.
pub proof fn a_changed_key_is_named_old_and_new(
    error: Error,
    server: Seq<char>,
    pinned: Seq<u8>,
    presented: Seq<u8>,
)
    requires
        is_mismatch(error, server, pinned, presented),
        pinned.len() == 32,
        presented.len() == 32,
        pinned != presented,
    ensures
        error matches Error::PinMismatch { server: at, pinned: was, presented: is } && at@ == server
            && was@ == crate::text::hex(pinned) && is@ == crate::text::hex(presented) && was@
            != is@,
{
    crate::text::hex_round_trips(pinned);
    crate::text::hex_round_trips(presented);
}

/// A connection that merely failed is reported in the words it failed with.
pub proof fn a_failed_connection_says_why(error: Error, message: Seq<char>)
    requires
        is_unconnected(error, message),
    ensures
        error is Connect,
        error.shown() == "connection failed: "@ + message,
{
}

} // verus!
