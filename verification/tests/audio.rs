//! Sample counting, driven with real samples and the real codec.

use ropus::{Application, Bitrate, Channels, Encoder, InbandFec};
use sonora_common_audio::push_resampler::PushResampler;
use throcc::client::media::audio::capture::{
    negotiate, Offer, Pipeline, BITRATE, EXPECTED_LOSS_PERCENT, MAX_PACKET_BYTES,
};
use throcc::client::media::audio::cleanup::{RenderReference, REFERENCE_BLOCKS};
use throcc::client::media::audio::devices::{choose_device, describe, Listed};
use throcc::client::media::audio::jitter::{packet_header, PAYLOAD_TYPE};
use throcc::client::media::audio::playout::Ready;
use throcc::client::media::audio::{
    fit, samples_per_block, SAMPLES_PER_BLOCK, SAMPLES_PER_PACKET, SAMPLE_RATE,
};
use throcc::proto::MediaId;

fn tone(samples: usize, channels: usize) -> Vec<f32> {
    (0..samples * channels)
        .map(|index| ((index / channels) as f32 * 0.05).sin() * 0.3)
        .collect()
}

struct Capture {
    channels: usize,
    resampler: Option<PushResampler<f32>>,
    pipeline: Pipeline<f32>,
    encoder: Encoder,
}

impl Capture {
    fn new(sample_rate: u32, channels: usize) -> Self {
        let block = samples_per_block(sample_rate);
        let resampler = if sample_rate == SAMPLE_RATE {
            None
        } else {
            Some(PushResampler::new(block, SAMPLES_PER_BLOCK, 1))
        };
        let encoder = Encoder::builder(SAMPLE_RATE, Channels::Mono, Application::Voip)
            .bitrate(Bitrate::Bits(BITRATE))
            .inband_fec(InbandFec::Enabled)
            .packet_loss_perc(EXPECTED_LOSS_PERCENT)
            .build()
            .unwrap();
        Capture {
            channels,
            resampler,
            pipeline: Pipeline::new(block),
            encoder,
        }
    }

    fn encode(&mut self, samples: &[f32], frames: &mut Vec<Vec<u8>>) {
        let mono: Vec<f32> = samples
            .chunks(self.channels)
            .map(|frame| frame.iter().sum::<f32>() / self.channels as f32)
            .collect();
        for packet in self.packets(&mono) {
            let mut encoded = vec![0u8; MAX_PACKET_BYTES];
            let len = self.encoder.encode_float(&packet, &mut encoded).unwrap();
            frames.push(encoded[..len].to_vec());
        }
    }

    fn packets(&mut self, mono: &[f32]) -> Vec<Vec<f32>> {
        let Some(resampler) = self.resampler.as_mut() else {
            return self.pipeline.encode(mono);
        };
        for sample in mono {
            self.pipeline.capture(*sample);
        }
        let mut packets = Vec::new();
        while let Some(block) = self.pipeline.next_block() {
            let mut resampled = vec![0.0; SAMPLES_PER_BLOCK];
            resampler.resample_mono(&block, &mut resampled);
            packets.extend(self.pipeline.resampled(&resampled));
        }
        packets
    }
}

#[test]
fn one_opus_frame_comes_out_per_twenty_milliseconds() {
    let mut capture = Capture::new(SAMPLE_RATE, 1);
    let mut frames = Vec::new();
    capture.encode(&tone(SAMPLES_PER_PACKET * 5, 1), &mut frames);

    assert_eq!(frames.len(), 5, "five packets of 20 ms");
    assert!(
        frames.iter().all(|frame| !frame.is_empty()),
        "an empty Opus frame is not a frame"
    );
    assert!(
        frames.iter().all(|frame| frame.len() < 300),
        "24 kbps of 20 ms audio does not reach 300 bytes"
    );
}

#[test]
fn a_stereo_device_at_another_rate_still_yields_whole_frames() {
    let mut capture = Capture::new(44_100, 2);
    let mut frames = Vec::new();
    capture.encode(&tone(44_100 / 10, 2), &mut frames);

    assert_eq!(
        frames.len(),
        5,
        "100 ms at 44.1 kHz stereo resamples to five 20 ms frames"
    );
}

#[test]
fn a_partial_block_is_kept_until_it_is_whole() {
    let mut capture = Capture::new(SAMPLE_RATE, 1);
    let mut frames = Vec::new();
    for _ in 0..4 {
        capture.encode(&tone(SAMPLES_PER_BLOCK / 2, 1), &mut frames);
    }
    assert_eq!(frames.len(), 1, "four half blocks make one 20 ms packet");
}

#[test]
fn muting_drops_what_was_buffered() {
    let mut capture = Capture::new(SAMPLE_RATE, 1);
    let mut frames = Vec::new();
    capture.encode(&tone(SAMPLES_PER_BLOCK, 1), &mut frames);
    assert!(frames.is_empty(), "half a packet is not sent");

    capture.pipeline.discard();
    capture.encode(&tone(SAMPLES_PER_BLOCK, 1), &mut frames);
    assert!(frames.is_empty(), "the discarded block is not completed");
}

#[test]
fn a_packet_holds_the_samples_in_order() {
    let mut pipeline: Pipeline<u32> = Pipeline::new(480);
    for sample in 0..961 {
        pipeline.capture(sample);
    }
    let first = pipeline.next_block().unwrap();
    assert_eq!(first, (0..480).collect::<Vec<u32>>());
    assert!(pipeline.resampled(&first).is_none());
    let second = pipeline.next_block().unwrap();
    assert_eq!(
        pipeline.resampled(&second).unwrap(),
        (0..960).collect::<Vec<u32>>()
    );
    assert!(pipeline.next_block().is_none(), "one sample is not a block");
}

#[test]
fn packets_do_not_depend_on_how_samples_are_split() {
    let samples: Vec<u32> = (0..4807).collect();
    for split in [1, 7, 240, 480, 481, 960, 1500, 4807] {
        let mut pipeline: Pipeline<u32> = Pipeline::new(SAMPLES_PER_BLOCK);
        let mut packets = Vec::new();
        let mut taken = 0;
        for call in samples.chunks(split) {
            let came = pipeline.encode(call);
            assert_eq!(
                came.len(),
                (taken + call.len()) / SAMPLES_PER_PACKET - taken / SAMPLES_PER_PACKET
            );
            taken += call.len();
            packets.extend(came);
        }
        assert_eq!(packets.len(), 5);
        assert_eq!(packets.concat(), samples[..4800]);
    }
}

#[test]
fn a_reference_queue_keeps_the_newest_blocks() {
    let mut reference = RenderReference::new(0.0f32);
    for block in 0..REFERENCE_BLOCKS + 2 {
        reference.played(&[block as f32; SAMPLES_PER_BLOCK]);
    }

    let oldest = reference.take().expect("a block");
    assert_eq!(oldest[0], 2.0, "the two oldest blocks were dropped");
    assert_eq!(
        reference.waiting(),
        REFERENCE_BLOCKS - 1,
        "the queue never grows past its cap"
    );
}

#[test]
fn a_short_block_is_filled_up_with_silence() {
    let mut reference = RenderReference::new(0u8);
    assert!(reference.take().is_none());
    reference.played(&[7, 7]);
    let block = reference.take().unwrap();
    assert_eq!(block.len(), SAMPLES_PER_BLOCK);
    assert_eq!(block[..3], [7, 7, 0]);

    assert_eq!(fit(&[1, 2, 3], 2, 0), vec![1, 2]);
    assert_eq!(fit(&[1], 3, 9), vec![1, 9, 9]);
}

#[test]
fn an_empty_room_plays_silence_rather_than_noise() {
    let mut ready: Ready<f32> = Ready::new(2);
    let mut output = vec![7.0f32; SAMPLES_PER_BLOCK * 2];
    let frames = ready.frames(output.len());
    while ready.wants_more(frames) {
        ready.mixed(&[0.0f32; SAMPLES_PER_BLOCK]);
    }
    output.copy_from_slice(&ready.take(frames));
    assert!(
        output.iter().all(|sample| *sample == 0.0),
        "nothing playing must leave silence"
    );
}

#[test]
fn every_channel_hears_every_sample() {
    let mut ready: Ready<u8> = Ready::new(2);
    ready.mixed(&[1, 2, 3]);
    assert_eq!(ready.frames(5), 2);
    assert_eq!(ready.take(2), vec![1, 1, 2, 2]);
    assert!(!ready.wants_more(1));
    assert!(ready.wants_more(2));
    assert_eq!(ready.take(1), vec![3, 3]);

    let none: Ready<u8> = Ready::new(0);
    assert_eq!(none.frames(5), 5, "there is at least one channel");
}

#[test]
fn a_packets_header_follows_from_its_sequence_number() {
    let header = packet_header(MediaId(7), 3);
    assert_eq!(header.sequence_number, 3);
    assert_eq!(header.timestamp, 2_880);
    assert_eq!(header.ssrc, 7);
    assert_eq!(header.payload_type, PAYLOAD_TYPE);
    assert!(!header.marker);

    let wrapped = packet_header(MediaId(7), 0x1_0000_0005u64 as u32 + 0x1_0000);
    assert_eq!(wrapped.sequence_number, 5);
    assert_eq!(
        packet_header(MediaId(7), u32::MAX).timestamp,
        u32::MAX.wrapping_mul(960)
    );
}

#[test]
fn the_first_offer_at_the_codecs_rate_is_taken() {
    let offer = |channels, is_float, min_rate, max_rate| Offer {
        channels,
        is_float,
        min_rate,
        max_rate,
    };
    let offers = vec![
        offer(1, false, 8_000, 96_000),
        offer(2, true, 8_000, 96_000),
        offer(1, true, 44_100, 44_100),
        offer(1, true, 48_000, 48_000),
    ];
    assert_eq!(negotiate(&offers, true), Some(3));
    assert_eq!(negotiate(&offers, false), Some(1));
    assert_eq!(negotiate(&offers[..1].to_vec(), false), None);
    assert_eq!(samples_per_block(44_100), 441);
}

fn listed(id: &str, supported: bool) -> Listed {
    Listed {
        id: id.to_string(),
        name: Some(format!("device {id}")),
        supported,
    }
}

#[test]
fn devices_are_listed_and_chosen_by_id() {
    let all = vec![
        listed("in", true),
        listed("out", false),
        listed("both", true),
    ];
    let shown = describe(&all, Some("both"));
    assert_eq!(shown.len(), 2);
    assert_eq!(
        (shown[0].id.as_str(), shown[0].name.as_str()),
        ("in", "device in")
    );
    assert!(!shown[0].is_default);
    assert!(shown[1].is_default);
    assert!(describe(&all, None).iter().all(|device| !device.is_default));

    assert_eq!(choose_device(&all, Some("both")), Some(2));
    assert_eq!(choose_device(&all, Some("out")), None);
    assert_eq!(choose_device(&all, Some("gone")), None);
    assert_eq!(choose_device(&all, None), None);

    let nameless = vec![
        Listed {
            id: "dumb".to_string(),
            name: None,
            supported: true,
        },
        listed("in", true),
    ];
    assert_eq!(describe(&nameless, None).len(), 1);
    assert_eq!(choose_device(&nameless, Some("dumb")), Some(0));
}
