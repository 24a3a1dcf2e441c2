use throcc::proto::frame::{FrameHeader, KEYFRAME, TRANSFORM_OVERHEAD_BYTES};
use throcc::proto::{
    check_datagram_size, Epoch, Error, MediaId, HEADER_BYTES, MIN_DATAGRAM_BYTES, PAYLOAD_BUDGET,
};

#[test]
fn a_header_is_thirteen_bytes() {
    let header = FrameHeader {
        media_id: MediaId(1),
        epoch: Epoch(2),
        seq: 3,
        flags: KEYFRAME,
    };
    assert_eq!(header.encode().len(), HEADER_BYTES);
    assert_eq!(HEADER_BYTES, 13, "the header width is frozen");
}

#[test]
fn a_header_round_trips() {
    for header in [
        FrameHeader {
            media_id: MediaId(0),
            epoch: Epoch(0),
            seq: 0,
            flags: 0,
        },
        FrameHeader {
            media_id: MediaId(u32::MAX),
            epoch: Epoch(u32::MAX),
            seq: u32::MAX,
            flags: u8::MAX,
        },
        FrameHeader {
            media_id: MediaId(7),
            epoch: Epoch(9),
            seq: 4_000_000_000,
            flags: KEYFRAME,
        },
    ] {
        let encoded = header.encode();
        assert_eq!(FrameHeader::decode(&encoded).unwrap(), header);
    }
}

#[test]
fn a_payload_after_the_header_is_left_alone() {
    let header = FrameHeader {
        media_id: MediaId(7),
        epoch: Epoch(9),
        seq: 11,
        flags: 0,
    };
    let mut datagram = header.encode().to_vec();
    datagram.extend_from_slice(b"opaque");
    assert_eq!(FrameHeader::decode(&datagram).unwrap(), header);
}

#[test]
fn the_fields_are_big_endian_in_the_documented_order() {
    let encoded = FrameHeader {
        media_id: MediaId(0x0102_0304),
        epoch: Epoch(0x0506_0708),
        seq: 0x090a_0b0c,
        flags: 0x0d,
    }
    .encode();
    assert_eq!(
        encoded,
        [0x01, 0x02, 0x03, 0x04, 0x05, 0x06, 0x07, 0x08, 0x09, 0x0a, 0x0b, 0x0c, 0x0d]
    );
}

#[test]
fn a_short_datagram_is_refused() {
    for length in 0..HEADER_BYTES {
        assert!(FrameHeader::decode(&vec![0u8; length]).is_err());
    }
}

#[test]
fn a_short_datagram_says_how_short() {
    match FrameHeader::decode(&[0u8; 5]) {
        Err(Error::Short { need, have }) => assert_eq!((need, have), (13, 5)),
        other => panic!("unexpected: {other:?}"),
    }
    assert_eq!(
        FrameHeader::decode(&[]).unwrap_err().to_string(),
        "buffer too short: need 13 bytes, have 0"
    );
}

#[test]
fn flags_beyond_the_known_ones_are_recognised_as_unknown() {
    let mut header = FrameHeader {
        media_id: MediaId(1),
        epoch: Epoch(1),
        seq: 1,
        flags: KEYFRAME,
    };
    assert!(header.is_keyframe());
    assert!(!header.has_unknown_flags());

    header.flags |= 1 << 3;
    assert!(header.is_keyframe());
    assert!(header.has_unknown_flags());
}

#[test]
fn a_peer_that_cannot_carry_the_budget_is_refused() {
    assert!(check_datagram_size(None).is_err());
    assert!(check_datagram_size(Some(0)).is_err());
    assert!(check_datagram_size(Some(MIN_DATAGRAM_BYTES - 1)).is_err());
    assert!(check_datagram_size(Some(MIN_DATAGRAM_BYTES)).is_ok());
    assert!(check_datagram_size(Some(1500)).is_ok());
}

#[test]
fn a_refused_peer_is_told_why() {
    assert_eq!(
        check_datagram_size(None).unwrap_err().to_string(),
        "the peer accepts no QUIC datagrams, which is how all media travels"
    );
    assert_eq!(
        check_datagram_size(Some(1161)).unwrap_err().to_string(),
        "the peer accepts datagrams of 1161 bytes, and media needs 1162"
    );
}

#[test]
fn the_budget_leaves_room_for_the_header_and_the_tag() {
    assert_eq!(PAYLOAD_BUDGET, 1133);
    assert_eq!(
        PAYLOAD_BUDGET + HEADER_BYTES + TRANSFORM_OVERHEAD_BYTES,
        MIN_DATAGRAM_BYTES
    );
}

#[test]
fn headers_that_differ_anywhere_differ_in_their_nonce() {
    let header = FrameHeader {
        media_id: MediaId(7),
        epoch: Epoch(9),
        seq: 11,
        flags: 0,
    };
    let nonce = |header: FrameHeader| header.encode()[..12].to_vec();
    let mut other = header;
    other.seq = 12;
    assert_ne!(nonce(header), nonce(other));
    other = header;
    other.epoch = Epoch(10);
    assert_ne!(nonce(header), nonce(other));
    other = header;
    other.media_id = MediaId(8);
    assert_ne!(nonce(header), nonce(other));
    other = header;
    other.flags = KEYFRAME;
    assert_eq!(nonce(header), nonce(other));
}
