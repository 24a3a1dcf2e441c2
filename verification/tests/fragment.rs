use throcc::client::media::fragment::{
    fragment, AccessUnit, Reassembler, FIRST, LAST, MAX_PENDING_FRAGMENTS, TIMESTAMP,
};
use throcc::proto::PAYLOAD_BUDGET;

fn unit(len: usize) -> Vec<u8> {
    (0..len).map(|byte| (byte % 251) as u8).collect()
}

fn reassemble(fragments: &[(u32, Vec<u8>)]) -> Vec<AccessUnit> {
    let mut reassembler = Reassembler::default();
    let mut units = Vec::new();
    for (seq, payload) in fragments {
        units.extend(reassembler.push(*seq, payload));
    }
    units
}

fn numbered(payloads: Vec<Vec<u8>>, from: u32) -> Vec<(u32, Vec<u8>)> {
    payloads
        .into_iter()
        .enumerate()
        .map(|(offset, payload)| (from + offset as u32, payload))
        .collect()
}

#[test]
fn no_fragment_exceeds_the_datagram_budget() {
    for payload in fragment(&unit(400_000), Some(90_000)) {
        assert!(
            payload.len() <= PAYLOAD_BUDGET,
            "a fragment of {} bytes does not fit",
            payload.len()
        );
    }
}

#[test]
fn one_datagram_carries_a_whole_audio_frame() {
    let payloads = fragment(&unit(80), None);
    assert_eq!(payloads.len(), 1, "audio never fragments");
    assert_eq!(payloads[0][0], FIRST | LAST, "both marks are set");

    let units = reassemble(&numbered(payloads, 0));
    assert_eq!(units.len(), 1);
    assert_eq!(units[0].bytes, unit(80));
    assert_eq!(units[0].timestamp, None);
}

#[test]
fn an_empty_unit_is_still_one_fragment() {
    let payloads = fragment(&[], None);
    assert_eq!(payloads.len(), 1);
    assert_eq!(payloads[0], vec![FIRST | LAST]);
    assert!(reassemble(&numbered(payloads, 0))[0].bytes.is_empty());
}

#[test]
fn a_large_unit_round_trips_with_its_fragments_reordered() {
    let original = unit(400_000);
    let mut fragments = numbered(fragment(&original, Some(1_234)), 100);
    assert!(fragments.len() > 300, "the unit really is many datagrams");

    let mut draw: u64 = 0x9E37_79B9_7F4A_7C15;
    for index in (1..fragments.len()).rev() {
        draw = draw.wrapping_mul(6_364_136_223_846_793_005).wrapping_add(1);
        fragments.swap(index, (draw >> 33) as usize % (index + 1));
    }

    let units = reassemble(&fragments);
    assert_eq!(units.len(), 1, "one unit, however its fragments arrived");
    assert_eq!(units[0].bytes, original);
    assert_eq!(units[0].timestamp, Some(1_234));
}

#[test]
fn a_duplicate_fragment_changes_nothing() {
    let mut fragments = numbered(fragment(&unit(3_000), None), 0);
    fragments.push(fragments[1].clone());
    fragments.push(fragments[0].clone());

    let units = reassemble(&fragments);
    assert_eq!(units.len(), 1);
    assert_eq!(units[0].bytes, unit(3_000));
}

#[test]
fn a_missing_middle_fragment_discards_the_unit() {
    let mut fragments = numbered(fragment(&unit(3_000), None), 0);
    fragments.remove(1);
    assert!(reassemble(&fragments).is_empty());
}

#[test]
fn a_missing_last_fragment_discards_the_unit() {
    let mut fragments = numbered(fragment(&unit(3_000), None), 0);
    fragments.pop();
    assert!(reassemble(&fragments).is_empty());
}

#[test]
fn two_units_interleaved_come_out_in_sequence_order() {
    let first = numbered(fragment(&unit(2_500), None), 0);
    let second = numbered(fragment(&unit(2_400), Some(90)), first.len() as u32);

    let mut arrivals = Vec::new();
    for (early, late) in first.iter().zip(second.iter()) {
        arrivals.push(late.clone());
        arrivals.push(early.clone());
    }

    let units = reassemble(&arrivals);
    assert_eq!(units.len(), 2);
    assert_eq!(units[0].bytes, unit(2_500));
    assert_eq!(units[1].bytes, unit(2_400));
    assert!(
        units[0].last_seq < units[1].last_seq,
        "a later unit must never be emitted first"
    );
}

#[test]
fn a_completed_unit_waits_for_the_unfinished_one_before_it() {
    let first = numbered(fragment(&unit(2_500), None), 0);
    let second = numbered(fragment(&unit(1_000), None), first.len() as u32);
    let mut reassembler = Reassembler::default();

    let (opening, rest) = first.split_first().expect("the unit has fragments");
    assert!(reassembler.push(opening.0, &opening.1).is_empty());
    for (seq, payload) in &second {
        assert!(
            reassembler.push(*seq, payload).is_empty(),
            "the later unit is complete but the earlier one is not"
        );
    }

    let mut emitted = Vec::new();
    for (seq, payload) in rest {
        emitted.extend(reassembler.push(*seq, payload));
    }
    assert_eq!(emitted.len(), 2);
    assert_eq!(emitted[0].bytes, unit(2_500));
    assert_eq!(emitted[1].bytes, unit(1_000));
}

#[test]
fn a_unit_lost_outright_does_not_stall_the_next_one() {
    let lost = fragment(&unit(2_500), None);
    let arriving = numbered(fragment(&unit(900), None), lost.len() as u32);

    let units = reassemble(&arriving);
    assert_eq!(units.len(), 1, "nothing earlier is being waited for");
    assert_eq!(units[0].bytes, unit(900));
}

#[test]
fn a_fragment_of_a_resolved_unit_is_counted_and_dropped() {
    let fragments = numbered(fragment(&unit(2_500), None), 0);
    let mut reassembler = Reassembler::default();
    for (seq, payload) in &fragments {
        reassembler.push(*seq, payload);
    }
    assert_eq!(reassembler.late_fragments(), 0);

    assert!(reassembler.push(0, &fragments[0].1).is_empty());
    assert_eq!(reassembler.late_fragments(), 1);
}

#[test]
fn a_peer_that_never_marks_a_last_fragment_is_given_up_on() {
    let mut reassembler = Reassembler::default();
    for seq in 0..=MAX_PENDING_FRAGMENTS as u32 {
        let marks = if seq == 0 { FIRST } else { 0 };
        assert!(reassembler.push(seq, &[marks]).is_empty());
    }
    assert_eq!(reassembler.abandoned(), 1);

    let recovered = numbered(
        fragment(&unit(1_000), None),
        MAX_PENDING_FRAGMENTS as u32 + 1,
    );
    let mut emitted = Vec::new();
    for (seq, payload) in &recovered {
        emitted.extend(reassembler.push(*seq, payload));
    }
    assert_eq!(emitted.len(), 1, "the track recovers after the abandonment");
    assert_eq!(emitted[0].bytes, unit(1_000));
}

#[test]
fn a_fragment_with_an_unknown_mark_is_refused() {
    let mut reassembler = Reassembler::default();
    assert!(reassembler.push(0, &[FIRST | LAST | 1 << 5]).is_empty());
    assert!(reassembler.push(1, &[]).is_empty());
    assert!(
        reassembler
            .push(2, &[FIRST | LAST | TIMESTAMP, 0, 0])
            .is_empty(),
        "a timestamp mark with too few bytes behind it"
    );
}

#[test]
fn a_timestamp_rides_on_the_first_fragment() {
    let payloads = fragment(&unit(2_000), Some(0x0102_0304));
    assert_eq!(payloads.len(), 2);
    assert_eq!(payloads[0][..5], [FIRST | TIMESTAMP, 1, 2, 3, 4]);
    assert_eq!(payloads[0].len(), PAYLOAD_BUDGET);
    assert_eq!(payloads[1][0], LAST);
    assert_eq!(payloads[1].len(), 1 + 2_000 - (PAYLOAD_BUDGET - 5));
}

#[test]
fn a_stream_of_units_comes_back_one_for_one() {
    let sent: Vec<Vec<u8>> = [0, 1, 1_132, 1_133, 5_000].iter().map(|&len| unit(len)).collect();
    let mut payloads = Vec::new();
    for unit in &sent {
        payloads.extend(fragment(unit, None));
    }
    let units = reassemble(&numbered(payloads, u32::MAX - 20));
    let received: Vec<Vec<u8>> = units.into_iter().map(|unit| unit.bytes).collect();
    assert_eq!(received, sent);
}

#[test]
fn the_very_last_sequence_number_can_end_a_unit() {
    let mut reassembler = Reassembler::default();
    assert!(reassembler.push(u32::MAX, &[FIRST]).is_empty());
    let units = reassembler.push(u32::MAX - 1, &[FIRST | LAST, 9]);
    assert_eq!(units.len(), 1);
    assert_eq!(units[0].last_seq, u32::MAX - 1);
    let units = reassembler.push(u32::MAX, &[FIRST | LAST, 8]);
    assert_eq!(units[0].last_seq, u32::MAX);
    assert_eq!(units[0].bytes, vec![8], "a repeated number takes the later payload");
}
