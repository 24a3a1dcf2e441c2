use throcc::proto::fingerprint::{spki_of_cert, TAG_SEQUENCE};
use throcc::proto::{Error, Fingerprint};

/// A self-signed Ed25519 certificate, and the hash of its public key as
/// `openssl pkey -pubin -outform DER | openssl dgst -sha256` gives it.
const CERT_DER: [u8; 335] = [
    0x30, 0x82, 0x01, 0x4b, 0x30, 0x81, 0xfe, 0xa0, 0x03, 0x02, 0x01, 0x02,
    0x02, 0x14, 0x1d, 0xdd, 0x66, 0x63, 0xaf, 0xb9, 0x25, 0x51, 0x45, 0x9d,
    0x20, 0x11, 0x1b, 0xda, 0x4e, 0x39, 0xf9, 0x8c, 0xbc, 0xb3, 0x30, 0x05,
    0x06, 0x03, 0x2b, 0x65, 0x70, 0x30, 0x11, 0x31, 0x0f, 0x30, 0x0d, 0x06,
    0x03, 0x55, 0x04, 0x03, 0x0c, 0x06, 0x74, 0x68, 0x72, 0x6f, 0x63, 0x63,
    0x30, 0x20, 0x17, 0x0d, 0x32, 0x36, 0x31, 0x31, 0x31, 0x36, 0x31, 0x36,
    0x35, 0x35, 0x32, 0x30, 0x5a, 0x18, 0x0f, 0x32, 0x31, 0x32, 0x36, 0x31,
    0x30, 0x32, 0x33, 0x31, 0x36, 0x35, 0x35, 0x32, 0x30, 0x5a, 0x30, 0x11,
    0x31, 0x0f, 0x30, 0x0d, 0x06, 0x03, 0x55, 0x04, 0x03, 0x0c, 0x06, 0x74,
    0x68, 0x72, 0x6f, 0x63, 0x63, 0x30, 0x2a, 0x30, 0x05, 0x06, 0x03, 0x2b,
    0x65, 0x70, 0x03, 0x21, 0x00, 0x38, 0x21, 0x64, 0x30, 0xfb, 0xa5, 0xeb,
    0xea, 0x10, 0x15, 0x8a, 0xba, 0x2b, 0x0b, 0xc3, 0x01, 0x0d, 0x58, 0x63,
    0x76, 0x44, 0x35, 0x14, 0xb9, 0xdc, 0xf6, 0x5e, 0x62, 0x89, 0xd3, 0x7b,
    0x51, 0xa3, 0x66, 0x30, 0x64, 0x30, 0x1d, 0x06, 0x03, 0x55, 0x1d, 0x0e,
    0x04, 0x16, 0x04, 0x14, 0xe6, 0xc8, 0xcc, 0x33, 0x71, 0x74, 0xca, 0x3b,
    0x2b, 0xa3, 0x47, 0x09, 0xa6, 0xb2, 0x68, 0x7a, 0x73, 0xb5, 0x04, 0x0c,
    0x30, 0x1f, 0x06, 0x03, 0x55, 0x1d, 0x23, 0x04, 0x18, 0x30, 0x16, 0x80,
    0x14, 0xe6, 0xc8, 0xcc, 0x33, 0x71, 0x74, 0xca, 0x3b, 0x2b, 0xa3, 0x47,
    0x09, 0xa6, 0xb2, 0x68, 0x7a, 0x73, 0xb5, 0x04, 0x0c, 0x30, 0x0f, 0x06,
    0x03, 0x55, 0x1d, 0x13, 0x01, 0x01, 0xff, 0x04, 0x05, 0x30, 0x03, 0x01,
    0x01, 0xff, 0x30, 0x11, 0x06, 0x03, 0x55, 0x1d, 0x11, 0x04, 0x0a, 0x30,
    0x08, 0x82, 0x06, 0x74, 0x68, 0x72, 0x6f, 0x63, 0x63, 0x30, 0x05, 0x06,
    0x03, 0x2b, 0x65, 0x70, 0x03, 0x41, 0x00, 0x7b, 0xfa, 0xcc, 0x02, 0x85,
    0x5b, 0x65, 0x3b, 0xaf, 0xfe, 0x2d, 0x82, 0x36, 0x81, 0xab, 0x0e, 0x3d,
    0x9e, 0xc2, 0x63, 0xd5, 0x4d, 0xf7, 0x79, 0x55, 0xf0, 0x5f, 0x88, 0xcb,
    0x9f, 0x6f, 0x0b, 0xc3, 0x99, 0x20, 0x42, 0x82, 0x90, 0x01, 0x7f, 0xb6,
    0x0a, 0x9c, 0x44, 0xf7, 0x7a, 0xdd, 0xc0, 0x16, 0x1f, 0x11, 0x40, 0xfc,
    0xd0, 0x9b, 0x73, 0xfc, 0x47, 0xbf, 0x62, 0x8d, 0xae, 0x19, 0x00,
];
const EXPECTED_FINGERPRINT: &str =
    "923b297a44121a01dfff7cb9b0e45fb6e939a73fbf81ab326435e0f6b052700a";

#[test]
fn matches_openssl() {
    let fingerprint = Fingerprint::from_cert_der(&CERT_DER).unwrap();
    assert_eq!(fingerprint.to_string(), EXPECTED_FINGERPRINT.trim());
}

#[test]
fn round_trips_through_hex() {
    let fingerprint = Fingerprint::from_cert_der(&CERT_DER).unwrap();
    assert_eq!(
        fingerprint.to_string().parse::<Fingerprint>().unwrap(),
        fingerprint
    );
}

#[test]
fn rejects_malformed_hex() {
    assert!("nothex".parse::<Fingerprint>().is_err());
    assert!("zz".repeat(32).parse::<Fingerprint>().is_err());
    assert!("ab".repeat(31).parse::<Fingerprint>().is_err());
}

#[test]
fn rejects_truncated_certificate() {
    assert!(Fingerprint::from_cert_der(&CERT_DER[..CERT_DER.len() / 2]).is_err());
    assert!(Fingerprint::from_cert_der(&[]).is_err());
    assert!(Fingerprint::from_cert_der(&[0x30, 0x82]).is_err());
}

#[test]
fn hashes_the_whole_spki_element() {
    let spki = spki_of_cert(&CERT_DER).unwrap();
    assert_eq!(spki[0], TAG_SEQUENCE);
    assert_eq!(
        Fingerprint::from_spki_der(spki).to_string(),
        EXPECTED_FINGERPRINT.trim()
    );
}

#[test]
fn padded_capitals_read_as_the_same_fingerprint() {
    let shown = format!("  {}\u{2003}\n", EXPECTED_FINGERPRINT.to_uppercase());
    assert_eq!(
        Fingerprint::from_hex(&shown).unwrap().to_string(),
        EXPECTED_FINGERPRINT
    );
}

#[test]
fn a_malformed_fingerprint_says_why() {
    match Fingerprint::from_hex("ab") {
        Err(Error::Fingerprint(why)) => assert_eq!(why, "expected 64 hex characters"),
        other => panic!("unexpected: {other:?}"),
    }
    match Fingerprint::from_hex(&"0g".repeat(32)) {
        Err(error) => assert_eq!(error.to_string(), "malformed fingerprint: not hexadecimal"),
        other => panic!("unexpected: {other:?}"),
    }
    match Fingerprint::from_hex(&"é".repeat(32)) {
        Err(Error::Fingerprint(why)) => assert_eq!(why, "not hexadecimal"),
        other => panic!("unexpected: {other:?}"),
    }
}

fn why(der: &[u8]) -> &'static str {
    match Fingerprint::from_cert_der(der) {
        Err(Error::Certificate(why)) => why,
        other => panic!("unexpected: {other:?}"),
    }
}

#[test]
fn a_malformed_certificate_says_why() {
    assert_eq!(why(&[0x31, 0x00]), "unexpected DER tag");
    assert_eq!(why(&[0x30]), "truncated length");
    assert_eq!(why(&[0x30, 0x82, 0x01]), "truncated length");
    assert_eq!(why(&[0x30, 0x80, 0x00]), "unsupported DER length form");
    assert_eq!(
        why(&[0x30, 0x85, 0, 0, 0, 0, 1, 0]),
        "unsupported DER length form"
    );
    assert_eq!(why(&[0x30, 0x02, 0x30]), "truncated element");
    assert_eq!(
        why(&[0x30, 0x84, 0xff, 0xff, 0xff, 0xff]),
        "truncated element"
    );
}

#[test]
fn a_certificate_without_a_version_is_read_too() {
    // serial, then signature, issuer, validity and subject, then the key.
    let fields = [
        0x02, 0x01, 0x07, 0x30, 0x00, 0x30, 0x00, 0x30, 0x00, 0x30, 0x00, 0x30, 0x02, 0x05, 0x00,
    ];
    let mut der = vec![0x30, fields.len() as u8 + 2, 0x30, fields.len() as u8];
    der.extend_from_slice(&fields);
    assert_eq!(spki_of_cert(&der).unwrap(), &[0x30, 0x02, 0x05, 0x00]);
}

#[test]
fn a_fingerprint_is_made_of_its_bytes() {
    let bytes = [7u8; 32];
    assert_eq!(Fingerprint::from(bytes).as_bytes(), &bytes);
    assert_eq!(Fingerprint::from(bytes).to_string(), "07".repeat(32));
}
