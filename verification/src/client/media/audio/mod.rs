//! Audio between a device and access units, as far as it is a matter of counting
//! samples.

use vstd::prelude::*;

pub mod capture;
pub mod cleanup;
pub mod devices;
pub mod jitter;
pub mod playout;

verus! {

pub const SAMPLE_RATE: u32 = 48_000;

/// The processing chain's frame is fixed at 10 ms, and Opus encodes 20 ms, so
/// capture buffers two blocks per packet.
pub const SAMPLES_PER_BLOCK: usize = 480;

pub const BLOCKS_PER_PACKET: usize = 2;

pub const SAMPLES_PER_PACKET: usize = SAMPLES_PER_BLOCK * BLOCKS_PER_PACKET;

/// As many samples as asked for: cut short, or filled up.
pub open spec fn fitted<T>(samples: Seq<T>, len: nat, filler: T) -> Seq<T> {
    Seq::new(
        len,
        |i: int|
            if i < samples.len() {
                samples[i]
            } else {
                filler
            },
    )
}

/// As many samples as asked for: cut short, or filled up.
pub fn fit<T: Copy>(samples: &[T], len: usize, filler: T) -> (fit: Vec<T>)
    ensures
        fit@ == fitted(samples@, len as nat, filler),
{
    let mut fit: Vec<T> = Vec::with_capacity(len);
    let mut i: usize = 0;
    while i < len
        invariant
            i <= len,
            fit@ == fitted(samples@, i as nat, filler),
        decreases len - i,
    {
        fit.push(
            if i < samples.len() {
                samples[i]
            } else {
                filler
            },
        );
        i += 1;
        assert(fit@ =~= fitted(samples@, i as nat, filler));
    }
    fit
}

/// How many of a device's samples make one block of ten milliseconds.
pub fn samples_per_block(sample_rate: u32) -> (samples: usize)
    ensures
        samples == sample_rate / 100,
{
    (sample_rate / 100) as usize
}

/// Fitting keeps as many samples as there are and were asked for, and fills up only what
/// is missing at the end.
pub proof fn a_fit_fills_up_only_the_end<T>(samples: Seq<T>, len: nat, filler: T)
    ensures
        fitted(samples, len, filler).len() == len,
        len <= samples.len() ==> fitted(samples, len, filler) == samples.take(len as int),
        samples.len() <= len ==> fitted(samples, len, filler) == samples + Seq::new(
            (len - samples.len()) as nat,
            |i: int| filler,
        ),
{
    if len <= samples.len() {
        assert(fitted(samples, len, filler) =~= samples.take(len as int));
    }
    if samples.len() <= len {
        assert(fitted(samples, len, filler) =~= samples + Seq::new(
            (len - samples.len()) as nat,
            |i: int| filler,
        ));
    }
}

} // verus!
