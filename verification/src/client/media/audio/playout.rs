//! Mixed samples, handed out as a device asks for them.

use vstd::prelude::*;

verus! {

pub const PACKET_QUEUE_DEPTH: usize = 32;

pub const TRACK_QUEUE_DEPTH: usize = 16;

/// Every sample once per channel.
pub open spec fn spread<T>(samples: Seq<T>, channels: nat) -> Seq<T> {
    Seq::new(samples.len() * channels, |i: int| samples[i / channels as int])
}

/// Mixed samples that the device has not asked for yet.
pub struct Ready<T> {
    channels: usize,
    ready: Vec<T>,
}

impl<T> Ready<T> {
    pub closed spec fn waiting(&self) -> Seq<T> {
        self.ready@
    }

    pub closed spec fn channel_count(&self) -> nat {
        self.channels as nat
    }

    pub open spec fn wf(&self) -> bool {
        self.channel_count() > 0
    }
}

impl<T: Copy> Ready<T> {
    /// For a device of so many channels, of which there is at least one.
    pub fn new(channels: u16) -> (ready: Ready<T>)
        ensures
            ready.wf(),
            ready.waiting() == Seq::<T>::empty(),
            ready.channel_count() == if channels == 0 {
                1
            } else {
                channels as nat
            },
    {
        Ready {
            channels: if channels == 0 {
                1
            } else {
                channels as usize
            },
            ready: Vec::new(),
        }
    }

    /// How many samples a device's buffer takes: one for all channels.
    pub fn frames(&self, output: usize) -> (frames: usize)
        requires
            self.wf(),
        ensures
            frames == output as nat / self.channel_count(),
    {
        output / self.channels
    }

    /// Whether another block has to be mixed before so many samples can be taken.
    pub fn wants_more(&self, frames: usize) -> (wants: bool)
        ensures
            wants == (self.waiting().len() < frames),
    {
        self.ready.len() < frames
    }

    /// Takes in a mixed block at the device's rate.
    pub fn mixed(&mut self, block: &[T])
        ensures
            final(self).channel_count() == old(self).channel_count(),
            final(self).waiting() == old(self).waiting() + block@,
    {
        let mut i: usize = 0;
        while i < block.len()
            invariant
                i <= block@.len(),
                self.channels == old(self).channels,
                self.ready@ == old(self).ready@ + block@.take(i as int),
            decreases block@.len() - i,
        {
            self.ready.push(block[i]);
            i += 1;
            assert(self.ready@ =~= old(self).ready@ + block@.take(i as int));
        }
        assert(block@.take(i as int) =~= block@);
    }

    /// Hands out so many samples, each once per channel.
    pub fn take(&mut self, frames: usize) -> (output: Vec<T>)
        requires
            old(self).wf(),
            frames <= old(self).waiting().len(),
            frames * old(self).channel_count() <= usize::MAX,
        ensures
            final(self).channel_count() == old(self).channel_count(),
            final(self).waiting() == old(self).waiting().skip(frames as int),
            output@ == spread(
                old(self).waiting().take(frames as int),
                old(self).channel_count(),
            ),
    {
        let left = self.ready.split_off(frames);
        let ghost taken = self.ready@;
        assert(taken =~= old(self).ready@.take(frames as int));
        let mut output: Vec<T> = Vec::new();
        let mut i: usize = 0;
        while i < frames
            invariant
                i <= frames == taken.len(),
                self.ready@ == taken,
                self.channels == old(self).channels,
                self.channels > 0,
                output@ == spread(taken.take(i as int), self.channels as nat),
            decreases frames - i,
        {
            let ghost before = output@;
            let mut channel: usize = 0;
            assert(before.len() == i * self.channels);
            while channel < self.channels
                invariant
                    i < frames == taken.len(),
                    self.ready@ == taken,
                    channel <= self.channels,
                    output@.len() == before.len() + channel,
                    forall|k: int| 0 <= k < before.len() ==> output@[k] == before[k],
                    forall|k: int|
                        before.len() <= k < before.len() + channel ==> output@[k]
                            == taken[i as int],
                decreases self.channels - channel,
            {
                output.push(self.ready[i]);
                channel += 1;
            }
            proof {
                let n = self.channels as int;
                let now = spread(taken.take(i + 1), n as nat);
                assert((i + 1) * n == i * n + n) by (nonlinear_arith);
                assert forall|k: int| 0 <= k < now.len() implies output@[k] == now[k] by {
                    if k < i * n {
                        assert(k / n < i) by (nonlinear_arith)
                            requires
                                0 <= k < i * n,
                                n > 0,
                        ;
                        assert(k / n >= 0) by (nonlinear_arith)
                            requires
                                0 <= k,
                                n > 0,
                        ;
                        assert(before[k] == taken.take(i as int)[k / n]);
                    } else {
                        assert(k / n == i) by (nonlinear_arith)
                            requires
                                i * n <= k < i * n + n,
                                n > 0,
                        ;
                    }
                }
                assert(output@ =~= now);
            }
            i += 1;
        }
        assert(taken.take(i as int) =~= taken);
        self.ready = left;
        output
    }
}

/// Every sample comes out once per channel, all its copies together and samples in order.
pub proof fn every_channel_hears_every_sample<T>(
    samples: Seq<T>,
    channels: nat,
    i: int,
    channel: int,
)
    requires
        0 <= i < samples.len(),
        0 <= channel < channels,
    ensures
        spread(samples, channels).len() == samples.len() * channels,
        0 <= i * channels + channel < samples.len() * channels,
        spread(samples, channels)[i * channels + channel] == samples[i],
{
    let (n, at, len) = (channels as int, i * channels as int + channel, samples.len() as int);
    assert(0 <= at < len * n) by (nonlinear_arith)
        requires
            0 <= i < len,
            0 <= channel < n,
            at == i * n + channel,
    ;
    assert(at / n == i) by (nonlinear_arith)
        requires
            0 <= channel < n,
            at == i * n + channel,
    ;
}

} // verus!
