use throcc::client::media::transform::{FrameTransform, Passthrough};
use throcc::proto::frame::FrameHeader;
use throcc::proto::{Epoch, MediaId, HEADER_BYTES, MIN_DATAGRAM_BYTES, PAYLOAD_BUDGET};

#[test]
fn the_budget_already_reserves_what_the_transform_may_add() {
    assert_eq!(
        PAYLOAD_BUDGET + HEADER_BYTES + Passthrough.overhead(),
        MIN_DATAGRAM_BYTES
    );
}

#[test]
fn passing_through_leaves_the_payload_alone() {
    let header = FrameHeader {
        media_id: MediaId(1),
        epoch: Epoch(2),
        seq: 3,
        flags: 0,
    };
    let mut payload = b"opaque".to_vec();

    Passthrough.outbound(&header, &mut payload).unwrap();
    Passthrough.inbound(&header, &mut payload).unwrap();
    assert_eq!(payload, b"opaque");
}
