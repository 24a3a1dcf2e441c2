use throcc::proto::auth::{signing_input, AUTH_DOMAIN, EXPORTER_CONTEXT, EXPORTER_LABEL};
use throcc::proto::framing::{body_len, encode, LENGTH_PREFIX_BYTES, MAX_FRAME_BYTES};
use throcc::proto::{
    Epoch, Error, MediaId, Role, RoomId, Share, Tracks, UserId, ALPN, DEFAULT_PORT, PROTO_VERSION,
};

#[test]
fn every_element_reaches_the_signed_bytes() {
    let input = signing_input(&[1u8; 32], &[2u8; 32], &[3u8; 32]);
    assert!(input.starts_with(&AUTH_DOMAIN));
    assert_eq!(input[AUTH_DOMAIN.len()..AUTH_DOMAIN.len() + 32], [1u8; 32]);
    assert_eq!(input[input.len() - 32..], [3u8; 32]);
}

#[test]
fn swapping_the_nonces_changes_the_signed_bytes() {
    assert_ne!(
        signing_input(&[1u8; 32], &[2u8; 32], &[3u8; 32]),
        signing_input(&[2u8; 32], &[1u8; 32], &[3u8; 32])
    );
}

#[test]
fn the_signed_bytes_are_laid_out_in_order() {
    let input = signing_input(&[1u8; 32], &[2u8; 32], &[3u8; 32]);
    let mut expected = b"throcc-auth-v1".to_vec();
    expected.extend_from_slice(&[1u8; 32]);
    expected.extend_from_slice(&[2u8; 32]);
    expected.extend_from_slice(&[3u8; 32]);
    assert_eq!(input.to_vec(), expected);
}

#[test]
fn the_constants_spell_what_they_should() {
    assert_eq!(&ALPN, b"throcc/1");
    assert_eq!(&EXPORTER_LABEL, b"throcc-auth-exporter-v1");
    assert_eq!(&EXPORTER_CONTEXT, b"");
    assert_eq!(DEFAULT_PORT, 8476);
    assert_eq!(PROTO_VERSION, 1);
}

/// `Resp::Failed { code: ErrCode::Denied, msg: "nope" }` as it is serialised: the
/// index of the variant, that of the code, and the text.
fn refusal() -> (u32, u32, String) {
    (1, 0, "nope".to_string())
}

#[test]
fn a_frame_survives_encoding() {
    let message = refusal();
    let frame = encode(&postcard::to_allocvec(&message).unwrap()).unwrap();
    let len = body_len(frame[..LENGTH_PREFIX_BYTES].try_into().unwrap()).unwrap();
    assert_eq!(len, frame.len() - LENGTH_PREFIX_BYTES);
    let decoded: (u32, u32, String) = postcard::from_bytes(&frame[LENGTH_PREFIX_BYTES..]).unwrap();
    assert_eq!(decoded, message);
}

#[test]
fn an_oversized_length_is_refused_before_allocating() {
    let prefix = ((MAX_FRAME_BYTES + 1) as u32).to_be_bytes();
    assert!(matches!(body_len(prefix), Err(Error::TooLarge { .. })));
    assert!(body_len((MAX_FRAME_BYTES as u32).to_be_bytes()).is_ok());
}

#[test]
fn an_oversized_body_is_not_framed() {
    assert!(encode(&vec![0u8; MAX_FRAME_BYTES]).is_ok());
    match encode(&vec![0u8; MAX_FRAME_BYTES + 1]) {
        Err(error) => assert_eq!(
            error.to_string(),
            "frame of 1048577 bytes exceeds the 1048576 byte cap"
        ),
        Ok(_) => panic!("an oversized body must not be framed"),
    }
}

#[test]
fn a_frame_is_its_length_and_its_body() {
    assert_eq!(encode(b"abc").unwrap(), b"\0\0\0\x03abc".to_vec());
    assert_eq!(encode(&[]).unwrap(), vec![0, 0, 0, 0]);
    assert_eq!(body_len([0, 0, 1, 2]).unwrap(), 258);
}

#[test]
fn ranks_order_the_roles() {
    assert!(Role::Admin.rank() > Role::Manager.rank());
    assert!(Role::Manager.rank() > Role::User.rank());
}

#[test]
fn a_rank_names_its_role() {
    for role in [Role::User, Role::Manager, Role::Admin] {
        assert_eq!(Role::from_rank(role.rank()), Some(role));
    }
    assert_eq!(Role::from_rank(3), None);
}

#[test]
fn tracks_own_their_ids_and_no_others() {
    let tracks = Tracks {
        mic: MediaId(1),
        shares: vec![
            Share {
                video: MediaId(2),
                audio: Some(MediaId(3)),
            },
            Share {
                video: MediaId(5),
                audio: None,
            },
        ],
    };
    for id in [1, 2, 3, 5] {
        assert!(tracks.owns(MediaId(id)), "{id}");
    }
    for id in [0, 4, 6, u32::MAX] {
        assert!(!tracks.owns(MediaId(id)), "{id}");
    }
}

#[test]
fn ids_are_shown_in_decimal() {
    assert_eq!(UserId(0).to_string(), "0");
    assert_eq!(RoomId(u64::MAX).to_string(), "18446744073709551615");
    assert_eq!(MediaId(10).to_string(), "10");
    assert_eq!(Epoch(1_203).to_string(), "1203");
}

#[test]
fn frames_sent_back_to_back_are_told_apart() {
    let mut stream = encode(b"one").unwrap();
    stream.extend(encode(b"").unwrap());
    stream.extend(encode(b"three").unwrap());
    let mut bodies = Vec::new();
    let mut rest = &stream[..];
    while !rest.is_empty() {
        let (prefix, behind) = rest.split_at(LENGTH_PREFIX_BYTES);
        let len = body_len(prefix.try_into().unwrap()).unwrap();
        let (body, after) = behind.split_at(len);
        bodies.push(body.to_vec());
        rest = after;
    }
    assert_eq!(
        bodies,
        vec![b"one".to_vec(), Vec::new(), b"three".to_vec()]
    );
}
