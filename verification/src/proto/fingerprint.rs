//! A server's fingerprint: the hash of its certificate's public key.

use core::str::FromStr;

use vstd::prelude::*;

use crate::crypto;
use crate::proto::Error;
use crate::text;

verus! {

/// SHA-256 over the DER encoding of a certificate's SubjectPublicKeyInfo.
#[derive(Debug, Clone, Copy, PartialEq, Eq, Hash, PartialOrd, Ord)]
pub struct Fingerprint([u8; 32]);

impl View for Fingerprint {
    type V = Seq<u8>;

    closed spec fn view(&self) -> Seq<u8> {
        self.0@
    }
}

/// What a fingerprint in text has to be, once trimmed.
pub open spec fn parsed(shown: Seq<char>) -> Result<Seq<u8>, Seq<char>> {
    let digits = vstd::utf8::encode_utf8(text::trimmed(shown));
    if digits.len() != 64 {
        Err("expected 64 hex characters"@)
    } else if !text::all_hex(digits) {
        Err("not hexadecimal"@)
    } else {
        Ok(text::unhex(digits))
    }
}

impl Fingerprint {
    /// The fingerprint of a certificate.
    pub fn from_cert_der(der: &[u8]) -> (fingerprint: Result<Fingerprint, Error>)
        ensures
            match (fingerprint, spki(der@)) {
                (Ok(fingerprint), Ok(spki)) => fingerprint@ == crypto::sha256(spki),
                (Err(Error::Certificate(message)), Err(why)) => message@ == why,
                _ => false,
            },
    {
        match spki_of_cert(der) {
            Ok(spki) => Ok(Fingerprint::from_spki_der(spki)),
            Err(error) => Err(error),
        }
    }

    /// The fingerprint of a SubjectPublicKeyInfo.
    pub fn from_spki_der(spki: &[u8]) -> (fingerprint: Fingerprint)
        ensures
            fingerprint@ == crypto::sha256(spki@),
    {
        Fingerprint(crypto::sha256_digest(spki))
    }

    pub fn as_bytes(&self) -> (bytes: &[u8; 32])
        ensures
            bytes@ == self@,
    {
        &self.0
    }

    /// The fingerprint in lower-case hexadecimal.
    pub fn to_string(&self) -> (shown: String)
        ensures
            shown@ == text::hex(self@),
    {
        text::hex_string(self.0.as_slice())
    }

    /// Reads a fingerprint from hexadecimal of either case, padded or not.
    pub fn from_hex(shown: &str) -> (fingerprint: Result<Fingerprint, Error>)
        ensures
            match (fingerprint, parsed(shown@)) {
                (Ok(fingerprint), Ok(bytes)) => fingerprint@ == bytes,
                (Err(Error::Fingerprint(message)), Err(why)) => message@ == why,
                _ => false,
            },
    {
        let digits = shown.trim().as_bytes();
        if digits.len() != 64 {
            return Err(Error::Fingerprint("expected 64 hex characters"));
        }
        let mut out = [0u8; 32];
        let mut i: usize = 0;
        while i < 32
            invariant
                i <= 32,
                digits@.len() == 64,
                digits@ == vstd::utf8::encode_utf8(text::trimmed(shown@)),
                forall|j: int| 0 <= j < 2 * i ==> text::hex_value(#[trigger] digits@[j]) is Some,
                forall|j: int| 0 <= j < i ==> out@[j] == text::unhex(digits@)[j],
            decreases 32 - i,
        {
            let (high, low) = match (
                text::hex_nibble(digits[i * 2]),
                text::hex_nibble(digits[i * 2 + 1]),
            ) {
                (Some(high), Some(low)) => (high, low),
                _ => {
                    assert(!text::all_hex(digits@));
                    return Err(Error::Fingerprint("not hexadecimal"));
                },
            };
            out[i] = high * 16 + low;
            i += 1;
        }
        assert(out@ =~= text::unhex(digits@));
        Ok(Fingerprint(out))
    }
}

impl From<[u8; 32]> for Fingerprint {
    fn from(bytes: [u8; 32]) -> (fingerprint: Fingerprint) {
        Fingerprint(bytes)
    }
}

impl vstd::std_specs::convert::FromSpecImpl<[u8; 32]> for Fingerprint {
    open spec fn obeys_from_spec() -> bool {
        true
    }

    closed spec fn from_spec(bytes: [u8; 32]) -> Fingerprint {
        Fingerprint(bytes)
    }
}

impl FromStr for Fingerprint {
    type Err = Error;

    fn from_str(s: &str) -> (fingerprint: Result<Fingerprint, Error>)
        ensures
            match (fingerprint, parsed(s@)) {
                (Ok(fingerprint), Ok(bytes)) => fingerprint@ == bytes,
                (Err(Error::Fingerprint(message)), Err(why)) => message@ == why,
                _ => false,
            },
    {
        Fingerprint::from_hex(s)
    }
}

/// A fingerprint made of bytes is those bytes.
pub proof fn a_fingerprint_is_its_bytes(bytes: [u8; 32])
    ensures
        <Fingerprint as vstd::std_specs::convert::FromSpec<[u8; 32]>>::from_spec(bytes)@ == bytes@,
{
}

/// A fingerprint reads back from what it is shown as, padded or not.
pub proof fn a_fingerprint_round_trips(fingerprint: Fingerprint)
    ensures
        parsed(text::hex(fingerprint@)) == Ok::<Seq<u8>, Seq<char>>(fingerprint@),
{
    text::hex_round_trips(fingerprint@);
}

pub const TAG_INTEGER: u8 = 0x02;

pub const TAG_SEQUENCE: u8 = 0x30;

pub const TAG_VERSION: u8 = 0xa0;

/// A big-endian number of any length.
pub open spec fn be_number(bytes: Seq<u8>) -> nat
    decreases bytes.len(),
{
    if bytes.len() == 0 {
        0
    } else {
        be_number(bytes.drop_last()) * 256 + bytes.last() as nat
    }
}

/// An element of `header` bytes and `length` more, which has to fit in `have`.
pub open spec fn bounded(header: nat, length: nat, have: nat) -> Result<(nat, nat), Seq<char>> {
    if header + length > usize::MAX {
        Err("length overflow"@)
    } else if header + length > have {
        Err("truncated element"@)
    } else {
        Ok((header, header + length))
    }
}

/// The element of a given tag that opens `der`: where its content starts and
/// where it ends. Under 0x80 the byte behind the tag is the length itself; at or
/// above, its low seven bits count the length's own bytes, of which there are one
/// to four.
pub open spec fn element(der: Seq<u8>, tag: u8) -> Result<(nat, nat), Seq<char>> {
    if der.len() == 0 || der[0] != tag {
        Err("unexpected DER tag"@)
    } else if der.len() == 1 {
        Err("truncated length"@)
    } else if der[1] < 0x80 {
        bounded(2, der[1] as nat, der.len())
    } else {
        let length_bytes = der[1] - 0x80;
        if length_bytes == 0 || length_bytes > 4 {
            Err("unsupported DER length form"@)
        } else if der.len() < 2 + length_bytes {
            Err("truncated length"@)
        } else {
            bounded(
                (2 + length_bytes) as nat,
                be_number(der.subrange(2, 2 + length_bytes)),
                der.len(),
            )
        }
    }
}

/// The content of the element that opens `der`.
pub open spec fn entered(der: Seq<u8>, tag: u8) -> Result<Seq<u8>, Seq<char>> {
    match element(der, tag) {
        Ok((start, end)) => Ok(der.subrange(start as int, end as int)),
        Err(why) => Err(why),
    }
}

/// What follows the element that opens `der`.
pub open spec fn skipped(der: Seq<u8>, tag: u8) -> Result<Seq<u8>, Seq<char>> {
    match element(der, tag) {
        Ok((_, end)) => Ok(der.skip(end as int)),
        Err(why) => Err(why),
    }
}

/// What follows `count` elements of one tag.
pub open spec fn skipped_all(der: Seq<u8>, tag: u8, count: nat) -> Result<Seq<u8>, Seq<char>>
    decreases count,
{
    if count == 0 {
        Ok(der)
    } else {
        match skipped(der, tag) {
            Ok(rest) => skipped_all(rest, tag, (count - 1) as nat),
            Err(why) => Err(why),
        }
    }
}

/// A certificate's fields behind its optional version, which is absent in v1.
pub open spec fn unversioned(fields: Seq<u8>) -> Result<Seq<u8>, Seq<char>> {
    if fields.len() > 0 && fields[0] == TAG_VERSION {
        skipped(fields, TAG_VERSION)
    } else {
        Ok(fields)
    }
}

/// The public key among a certificate's fields, behind serial number, signature,
/// issuer, validity and subject.
pub open spec fn key_of_fields(fields: Seq<u8>) -> Result<Seq<u8>, Seq<char>> {
    match skipped(fields, TAG_INTEGER) {
        Ok(rest) => match skipped_all(rest, TAG_SEQUENCE, 4) {
            Ok(rest) => match element(rest, TAG_SEQUENCE) {
                Ok((_, end)) => Ok(rest.take(end as int)),
                Err(why) => Err(why),
            },
            Err(why) => Err(why),
        },
        Err(why) => Err(why),
    }
}

/// The SubjectPublicKeyInfo of a certificate, tag and length included.
pub open spec fn spki(der: Seq<u8>) -> Result<Seq<u8>, Seq<char>> {
    match entered(der, TAG_SEQUENCE) {
        Ok(certificate) => match entered(certificate, TAG_SEQUENCE) {
            Ok(fields) => match unversioned(fields) {
                Ok(fields) => key_of_fields(fields),
                Err(why) => Err(why),
            },
            Err(why) => Err(why),
        },
        Err(why) => Err(why),
    }
}

/// Whether a parse came out as it should.
pub open spec fn agrees(found: Result<&[u8], Error>, expected: Result<Seq<u8>, Seq<char>>) -> bool {
    match (found, expected) {
        (Ok(bytes), Ok(content)) => bytes@ == content,
        (Err(Error::Certificate(message)), Err(why)) => message@ == why,
        _ => false,
    }
}

/// The SubjectPublicKeyInfo of a certificate, tag and length included.
pub fn spki_of_cert(der: &[u8]) -> (found: Result<&[u8], Error>)
    ensures
        agrees(found, spki(der@)),
{
    let certificate = match read_element(der, TAG_SEQUENCE) {
        Ok(element) => element.content,
        Err(error) => return Err(error),
    };
    let mut to_be_signed = match read_element(certificate, TAG_SEQUENCE) {
        Ok(element) => element.content,
        Err(error) => return Err(error),
    };

    // An absent version tag means v1.
    if to_be_signed.len() > 0 && to_be_signed[0] == TAG_VERSION {
        to_be_signed = match skip_element(to_be_signed, TAG_VERSION) {
            Ok(rest) => rest,
            Err(error) => return Err(error),
        };
    }
    to_be_signed = match skip_element(to_be_signed, TAG_INTEGER) {
        Ok(rest) => rest,
        Err(error) => return Err(error),
    };
    // signature, issuer, validity, subject
    to_be_signed = match skip_elements(to_be_signed, TAG_SEQUENCE, 4) {
        Ok(rest) => rest,
        Err(error) => return Err(error),
    };

    match read_element(to_be_signed, TAG_SEQUENCE) {
        Ok(element) => Ok(element.full),
        Err(error) => Err(error),
    }
}

struct Element<'a> {
    full: &'a [u8],
    content: &'a [u8],
}

fn skip_element(der: &[u8], tag: u8) -> (rest: Result<&[u8], Error>)
    ensures
        agrees(rest, skipped(der@, tag)),
{
    match read_element(der, tag) {
        Ok(element) => Ok(vstd::slice::slice_subrange(der, element.full.len(), der.len())),
        Err(error) => Err(error),
    }
}

fn skip_elements(der: &[u8], tag: u8, count: usize) -> (rest: Result<&[u8], Error>)
    ensures
        agrees(rest, skipped_all(der@, tag, count as nat)),
{
    let mut rest = der;
    let mut left: usize = count;
    while left > 0
        invariant
            left <= count,
            skipped_all(der@, tag, count as nat) == skipped_all(rest@, tag, left as nat),
        decreases left,
    {
        rest = match skip_element(rest, tag) {
            Ok(rest) => rest,
            Err(error) => return Err(error),
        };
        left -= 1;
    }
    Ok(rest)
}

fn read_element(der: &[u8], tag: u8) -> (found: Result<Element<'_>, Error>)
    ensures
        match (found, element(der@, tag)) {
            (Ok(found), Ok((start, end))) => {
                &&& start <= end <= der@.len()
                &&& found.full@ == der@.take(end as int)
                &&& found.content@ == der@.subrange(start as int, end as int)
            },
            (Err(Error::Certificate(message)), Err(why)) => message@ == why,
            _ => false,
        },
{
    if der.len() == 0 || der[0] != tag {
        return Err(Error::Certificate("unexpected DER tag"));
    }
    if der.len() == 1 {
        return Err(Error::Certificate("truncated length"));
    }
    let first_length_byte: u8 = der[1];

    // Under 0x80 the byte is the length itself; at or above, its low seven bits
    // count the length's own bytes.
    let mut length: usize = 0;
    let mut header_length: usize = 2;
    if first_length_byte < 0x80 {
        length = first_length_byte as usize;
    } else {
        let length_bytes: usize = (first_length_byte - 0x80) as usize;
        // Zero means the indefinite form, which is not valid DER. Four bytes is
        // already more than any certificate we will be handed.
        if length_bytes == 0 || length_bytes > 4 {
            return Err(Error::Certificate("unsupported DER length form"));
        }
        if der.len() < 2 + length_bytes {
            return Err(Error::Certificate("truncated length"));
        }
        while header_length < 2 + length_bytes
            invariant
                length_bytes <= 4,
                2 <= header_length <= 2 + length_bytes <= der@.len(),
                length == be_number(der@.subrange(2, header_length as int)),
                header_length == 2 ==> length == 0,
                header_length == 3 ==> length < 0x100,
                header_length == 4 ==> length < 0x1_0000,
                header_length == 5 ==> length < 0x100_0000,
                length <= 0xffff_ffff,
            decreases 2 + length_bytes - header_length,
        {
            assert(der@.subrange(2, header_length + 1).drop_last() =~= der@.subrange(
                2,
                header_length as int,
            ));
            length = length * 256 + der[header_length] as usize;
            header_length += 1;
        }
    }

    let end: usize = match header_length.checked_add(length) {
        Some(end) => end,
        None => return Err(Error::Certificate("length overflow")),
    };
    if end > der.len() {
        return Err(Error::Certificate("truncated element"));
    }
    Ok(
        Element {
            full: vstd::slice::slice_subrange(der, 0, end),
            content: vstd::slice::slice_subrange(der, header_length, end),
        },
    )
}

/// Text is a fingerprint exactly if it is 64 hexadecimal digits once trimmed.
pub proof fn sixty_four_digits_are_a_fingerprint(shown: Seq<char>)
    ensures
        ({
            let digits = vstd::utf8::encode_utf8(text::trimmed(shown));
            &&& parsed(shown) is Ok <==> digits.len() == 64 && forall|i: int|
                0 <= i < 64 ==> text::hex_value(#[trigger] digits[i]) is Some
            &&& parsed(shown) is Ok ==> parsed(shown)->Ok_0.len() == 32
        }),
{
    let digits = vstd::utf8::encode_utf8(text::trimmed(shown));
    if digits.len() == 64 && text::all_hex(digits) {
        assert forall|i: int| 0 <= i < 64 implies text::hex_value(#[trigger] digits[i]) is Some by {}
    }
}

/// A length as it is written, in the shortest form.
#[verifier::opaque]
pub open spec fn written_length(n: nat) -> Seq<u8> {
    if n < 128 {
        seq![n as u8]
    } else if n < 256 {
        seq![129u8, n as u8]
    } else if n < 65536 {
        seq![130u8, (n / 256) as u8, (n % 256) as u8]
    } else if n < 16777216 {
        seq![131u8, (n / 65536) as u8, ((n / 256) % 256) as u8, (n % 256) as u8]
    } else {
        seq![
            132u8,
            (n / 16777216) as u8,
            ((n / 65536) % 256) as u8,
            ((n / 256) % 256) as u8,
            (n % 256) as u8,
        ]
    }
}

/// An element as it is written: its tag, its length and its content.
#[verifier::opaque]
pub open spec fn written(tag: u8, content: Seq<u8>) -> Seq<u8> {
    seq![tag] + written_length(content.len()) + content
}

proof fn a_written_length_reads_back(n: nat)
    requires
        n <= 0xffff_fff0,
    ensures
        ({
            let length = written_length(n);
            &&& 1 <= length.len() <= 5
            &&& length.len() == 1 ==> length[0] < 0x80 && length[0] == n
            &&& length.len() > 1 ==> length[0] == 0x80 + length.len() - 1 && be_number(
                length.skip(1),
            ) == n
        }),
{
    reveal(written_length);
    let length = written_length(n);
    if n >= 128 {
        a_short_number(length.skip(1));
    }
}

proof fn a_written_element_is_found(tag: u8, content: Seq<u8>, after: Seq<u8>)
    requires
        content.len() <= 0xffff_fff0,
    ensures
        ({
            let der = written(tag, content) + after;
            &&& element(der, tag) matches Ok((start, end)) && start <= end <= der.len()
                && der.subrange(start as int, end as int) == content && der.take(end as int)
                == written(tag, content) && der.skip(end as int) == after
            &&& entered(der, tag) == Ok::<Seq<u8>, Seq<char>>(content)
            &&& skipped(der, tag) == Ok::<Seq<u8>, Seq<char>>(after)
            &&& der.len() > 0
            &&& der[0] == tag
        }),
{
    reveal(written);
    let n = content.len();
    let der = written(tag, content) + after;
    let length = written_length(n);
    let start = 1 + length.len() as int;
    a_written_length_reads_back(n);
    assert(der[1] == length[0]);
    assert(der.subrange(start, start + n) =~= content);
    assert(der.take(start + n) =~= written(tag, content));
    assert(der.skip(start + n) =~= after);
    if length.len() > 1 {
        assert(der.subrange(2, start) =~= length.skip(1));
    }
}

proof fn a_short_number(bytes: Seq<u8>)
    requires
        1 <= bytes.len() <= 4,
    ensures
        bytes.len() == 1 ==> be_number(bytes) == bytes[0],
        bytes.len() == 2 ==> be_number(bytes) == bytes[0] * 256 + bytes[1],
        bytes.len() == 3 ==> be_number(bytes) == bytes[0] * 65536 + bytes[1] * 256 + bytes[2],
        bytes.len() == 4 ==> be_number(bytes) == bytes[0] * 16777216 + bytes[1] * 65536 + bytes[2]
            * 256 + bytes[3],
{
    reveal_with_fuel(be_number, 5);
}

proof fn four_are_skipped(a: Seq<u8>, b: Seq<u8>, c: Seq<u8>, d: Seq<u8>, e: Seq<u8>)
    requires
        skipped(a, 0x30) == Ok::<Seq<u8>, Seq<char>>(b),
        skipped(b, 0x30) == Ok::<Seq<u8>, Seq<char>>(c),
        skipped(c, 0x30) == Ok::<Seq<u8>, Seq<char>>(d),
        skipped(d, 0x30) == Ok::<Seq<u8>, Seq<char>>(e),
    ensures
        skipped_all(a, 0x30, 4) == Ok::<Seq<u8>, Seq<char>>(e),
{
    reveal_with_fuel(skipped_all, 5);
}

/// The key is found in every certificate, as it stands there, tag and length included.
/// A version may come first, of any content, or be absent. The serial number, the
/// signature, the issuer, the validity, the subject and whatever follows the key or the
/// signed part may hold anything.
pub proof fn the_key_is_found_as_it_stands(
    version: Option<Seq<u8>>,
    serial: Seq<u8>,
    signature: Seq<u8>,
    issuer: Seq<u8>,
    validity: Seq<u8>,
    subject: Seq<u8>,
    key: Seq<u8>,
    extensions: Seq<u8>,
    signed: Seq<u8>,
    after: Seq<u8>,
)
    requires
        version matches Some(version) ==> version.len() <= 0xffff_fff0,
        serial.len() <= 0xffff_fff0,
        signature.len() <= 0xffff_fff0,
        issuer.len() <= 0xffff_fff0,
        validity.len() <= 0xffff_fff0,
        subject.len() <= 0xffff_fff0,
        key.len() <= 0xffff_fff0,
    ensures
        ({
            let opening = match version {
                Some(version) => written(0xa0, version),
                None => Seq::empty(),
            };
            let fields = opening + (written(2, serial) + (written(0x30, signature) + (written(
                0x30,
                issuer,
            ) + (written(0x30, validity) + (written(0x30, subject) + (written(0x30, key)
                + extensions))))));
            let certificate = written(0x30, fields) + signed;
            fields.len() <= 0xffff_fff0 && certificate.len() <= 0xffff_fff0 ==> spki(
                written(0x30, certificate) + after,
            ) == Ok::<Seq<u8>, Seq<char>>(written(0x30, key))
        }),
{
    let opening = match version {
        Some(version) => written(0xa0, version),
        None => Seq::empty(),
    };
    let from_key = written(0x30, key) + extensions;
    let from_subject = written(0x30, subject) + from_key;
    let from_validity = written(0x30, validity) + from_subject;
    let from_issuer = written(0x30, issuer) + from_validity;
    let from_signature = written(0x30, signature) + from_issuer;
    let from_serial = written(2, serial) + from_signature;
    let fields = opening + from_serial;
    let certificate = written(0x30, fields) + signed;
    if fields.len() <= 0xffff_fff0 && certificate.len() <= 0xffff_fff0 {
        a_written_element_is_found(0x30, certificate, after);
        a_written_element_is_found(0x30, fields, signed);
        if let Some(version) = version {
            a_written_element_is_found(0xa0, version, from_serial);
        } else {
            assert(fields =~= from_serial);
        }
        a_written_element_is_found(2, serial, from_signature);
        a_written_element_is_found(0x30, signature, from_issuer);
        a_written_element_is_found(0x30, issuer, from_validity);
        a_written_element_is_found(0x30, validity, from_subject);
        a_written_element_is_found(0x30, subject, from_key);
        a_written_element_is_found(0x30, key, extensions);
        four_are_skipped(from_signature, from_issuer, from_validity, from_subject, from_key);
        assert(unversioned(fields) == Ok::<Seq<u8>, Seq<char>>(from_serial));
    }
}

/// An element is of the tag asked for, and ends inside the bytes it opens.
pub proof fn an_element_lies_inside(der: Seq<u8>, tag: u8)
    ensures
        element(der, tag) matches Ok((start, end)) ==> der[0] == tag && 2 <= start <= end
            <= der.len(),
{
}

} // verus!
