//! What the library says of packets and samples, in front of a real jitter buffer.

use neteq::codec::AudioDecoder;
use neteq::{AudioPacket, NetEq, NetEqConfig, RtpHeader};
use ropus::{Application, Bitrate, Channels, DecodeMode, Decoder, Encoder, InbandFec};
use throcc::client::media::audio::jitter::{packet_header, CHANNELS, PACKET_MS, PAYLOAD_TYPE};
use throcc::client::media::audio::playout::Ready;
use throcc::client::media::audio::{fit, SAMPLES_PER_BLOCK, SAMPLES_PER_PACKET, SAMPLE_RATE};
use throcc::proto::MediaId;

fn packet(media_id: MediaId, seq: u32, payload: &[u8]) -> AudioPacket {
    let header = packet_header(media_id, seq);
    AudioPacket::new(
        RtpHeader::new(
            header.sequence_number,
            header.timestamp,
            header.ssrc,
            header.payload_type,
            header.marker,
        ),
        payload.to_vec(),
        SAMPLE_RATE,
        CHANNELS,
        PACKET_MS,
    )
}

struct OpusDecoder {
    decoder: Decoder,
    decoded: Vec<f32>,
}

impl AudioDecoder for OpusDecoder {
    fn sample_rate(&self) -> u32 {
        SAMPLE_RATE
    }

    fn channels(&self) -> u8 {
        CHANNELS
    }

    fn decode(&mut self, encoded: &[u8]) -> neteq::Result<Vec<f32>> {
        let samples = self
            .decoder
            .decode_float(encoded, &mut self.decoded, DecodeMode::Normal)
            .map_err(|e| neteq::NetEqError::DecoderError(format!("ropus decode: {e}")))?;
        Ok(self.decoded[..samples].to_vec())
    }
}

struct JitterBuffer {
    neteq: NetEq,
}

impl JitterBuffer {
    fn new() -> Self {
        let config = NetEqConfig {
            sample_rate: SAMPLE_RATE,
            channels: CHANNELS,
            ..NetEqConfig::default()
        };
        let mut neteq = NetEq::new(config).unwrap();
        neteq.register_decoder(
            PAYLOAD_TYPE,
            Box::new(OpusDecoder {
                decoder: Decoder::new(SAMPLE_RATE, Channels::Mono).unwrap(),
                decoded: vec![0.0; SAMPLE_RATE as usize * 120 / 1000],
            }),
        );
        Self { neteq }
    }

    fn insert(&mut self, packet: AudioPacket) {
        let _ = self.neteq.insert_packet(packet);
    }

    fn pull(&mut self) -> Vec<f32> {
        match self.neteq.get_audio() {
            Ok(frame) => fit(&frame.samples, SAMPLES_PER_BLOCK, 0.0),
            Err(_) => vec![0.0; SAMPLES_PER_BLOCK],
        }
    }
}

fn encoded_tone(frames: usize) -> Vec<Vec<u8>> {
    let mut encoder = Encoder::builder(SAMPLE_RATE, Channels::Mono, Application::Voip)
        .bitrate(Bitrate::Bits(24_000))
        .inband_fec(InbandFec::Enabled)
        .build()
        .unwrap();
    let mut buffer = vec![0u8; 1_000];

    (0..frames)
        .map(|frame| {
            let pcm: Vec<f32> = (0..SAMPLES_PER_PACKET)
                .map(|index| {
                    let sample = (frame * SAMPLES_PER_PACKET + index) as f32;
                    (sample * 0.04).sin() * 0.4
                })
                .collect();
            let len = encoder.encode_float(&pcm, &mut buffer).unwrap();
            buffer[..len].to_vec()
        })
        .collect()
}

fn energy(block: &[f32]) -> f32 {
    block.iter().map(|sample| sample * sample).sum::<f32>() / block.len() as f32
}

#[test]
fn audio_comes_out_of_what_went_in() {
    let mut buffer = JitterBuffer::new();
    let mut loudest = 0.0f32;

    for (seq, frame) in encoded_tone(40).iter().enumerate() {
        buffer.insert(packet(MediaId(7), seq as u32, frame));
        for _ in 0..2 {
            loudest = loudest.max(energy(&buffer.pull()));
        }
    }
    assert!(
        loudest > 1e-4,
        "the tone should come back out, loudest block was {loudest}"
    );
}

#[test]
fn a_gap_is_concealed_rather_than_left_silent() {
    let mut buffer = JitterBuffer::new();
    let frames = encoded_tone(40);

    for (seq, frame) in frames.iter().enumerate() {
        if seq == 20 {
            continue;
        }
        buffer.insert(packet(MediaId(7), seq as u32, frame));
    }

    let mut silent_blocks = 0;
    for _ in 0..80 {
        if energy(&buffer.pull()) < 1e-9 {
            silent_blocks += 1;
        }
    }
    assert!(
        silent_blocks < 40,
        "one missing packet should not silence the track: {silent_blocks} silent blocks"
    );
}

#[test]
fn an_empty_buffer_pulls_something_to_play() {
    let mut buffer = JitterBuffer::new();
    assert_eq!(buffer.pull().len(), SAMPLES_PER_BLOCK);
}

#[test]
fn what_a_peer_sent_reaches_the_device_buffer() {
    let mut jitter = JitterBuffer::new();
    let mut ready: Ready<f32> = Ready::new(2);

    let mut encoder = Encoder::builder(SAMPLE_RATE, Channels::Mono, Application::Voip)
        .bitrate(Bitrate::Bits(24_000))
        .build()
        .unwrap();
    let mut encoded = vec![0u8; 1_000];

    let mut output = vec![0.0f32; SAMPLES_PER_BLOCK * 2];
    let mut loudest = 0.0f32;
    for seq in 0..40u32 {
        let pcm: Vec<f32> = (0..SAMPLES_PER_BLOCK * 2)
            .map(|index| ((seq as usize * 960 + index) as f32 * 0.04).sin() * 0.4)
            .collect();
        let len = encoder.encode_float(&pcm, &mut encoded).unwrap();
        jitter.insert(packet(MediaId(7), seq, &encoded[..len]));

        let frames = ready.frames(output.len());
        while ready.wants_more(frames) {
            ready.mixed(&jitter.pull());
        }
        output.copy_from_slice(&ready.take(frames));
        loudest = loudest.max(
            output
                .iter()
                .map(|sample| sample.abs())
                .fold(0.0f32, f32::max),
        );
    }

    assert!(
        loudest > 0.01,
        "the peer's audio should reach the device, loudest sample was {loudest}"
    );
}
