//! Captured samples, gathered into packets.

use vstd::prelude::*;

use crate::client::media::audio::{SAMPLES_PER_BLOCK, SAMPLES_PER_PACKET, SAMPLE_RATE};

verus! {

/// How many encoded frames may wait to be sent.
pub const QUEUE_DEPTH: usize = 64;

pub const BITRATE: u32 = 24_000;

/// Opus adds redundancy sized against the loss it is told to expect.
pub const EXPECTED_LOSS_PERCENT: u8 = 10;

/// A 20 ms frame at 24 kbps is around 60 bytes, so this is room to spare.
pub const MAX_PACKET_BYTES: usize = 1_000;

/// A way a device offers to work: its channels, whether its samples are floating
/// point, and the rates it runs at.
#[derive(Debug, Clone, Copy, PartialEq, Eq, Structural)]
pub struct Offer {
    pub channels: u16,
    pub is_float: bool,
    pub min_rate: u32,
    pub max_rate: u32,
}

impl Offer {
    /// Whether the offer is of floating-point samples at the codec's rate, and of one
    /// channel where that matters.
    pub open spec fn suits(self, mono: bool) -> bool {
        &&& self.is_float
        &&& self.min_rate <= SAMPLE_RATE <= self.max_rate
        &&& mono ==> self.channels == 1
    }
}

/// The first offer at the codec's own rate, `None` where the device has to be
/// resampled.
pub fn negotiate(offers: &Vec<Offer>, mono: bool) -> (preferred: Option<usize>)
    ensures
        match preferred {
            Some(at) => {
                &&& at < offers@.len()
                &&& offers@[at as int].suits(mono)
                &&& forall|i: int| 0 <= i < at ==> !(#[trigger] offers@[i]).suits(mono)
            },
            None => forall|i: int| 0 <= i < offers@.len() ==> !(#[trigger] offers@[i]).suits(mono),
        },
{
    let mut i: usize = 0;
    while i < offers.len()
        invariant
            i <= offers@.len(),
            forall|j: int| 0 <= j < i ==> !(#[trigger] offers@[j]).suits(mono),
        decreases offers@.len() - i,
    {
        let offer = offers[i];
        if offer.is_float && offer.min_rate <= SAMPLE_RATE && SAMPLE_RATE <= offer.max_rate && (
        !mono || offer.channels == 1) {
            return Some(i);
        }
        i += 1;
    }
    None
}

/// Samples waiting to make a block at the device's rate, and blocks at the codec's
/// rate waiting to make a packet.
pub struct Pipeline<T> {
    block: usize,
    mono: Vec<T>,
    packet: Vec<T>,
}

impl<T> Pipeline<T> {
    /// How many samples make a block.
    pub closed spec fn block_len(&self) -> nat {
        self.block as nat
    }

    /// Samples that do not make a block yet.
    pub closed spec fn mono(&self) -> Seq<T> {
        self.mono@
    }

    /// Samples of blocks that do not make a packet yet.
    pub closed spec fn packet(&self) -> Seq<T> {
        self.packet@
    }

    /// All that waits.
    pub open spec fn buffered(&self) -> Buffered<T> {
        Buffered { mono: self.mono(), packet: self.packet() }
    }
}

/// The samples of packets.
pub open spec fn contents<T>(packets: Seq<Vec<T>>) -> Seq<Seq<T>> {
    Seq::new(packets.len(), |i: int| packets[i]@)
}

/// What a pipeline holds between calls.
pub ghost struct Buffered<T> {
    /// Samples that do not make a block yet.
    pub mono: Seq<T>,
    /// Samples of blocks that do not make a packet yet.
    pub packet: Seq<T>,
}

impl<T> Buffered<T> {
    /// Nothing, as at the start and after a discard.
    pub open spec fn nothing() -> Buffered<T> {
        Buffered { mono: Seq::empty(), packet: Seq::empty() }
    }

    /// What is left once every whole block has been taken on to the packet as it is,
    /// and the packets that came out on the way.
    pub open spec fn packed(self) -> (Buffered<T>, Seq<Seq<T>>)
        decreases self.mono.len(),
    {
        if self.mono.len() < SAMPLES_PER_BLOCK {
            (self, Seq::empty())
        } else {
            let mono = self.mono.skip(SAMPLES_PER_BLOCK as int);
            let gathered = self.packet + self.mono.take(SAMPLES_PER_BLOCK as int);
            if gathered.len() < SAMPLES_PER_PACKET {
                Buffered { mono, packet: gathered }.packed()
            } else {
                let (left, packets) = Buffered { mono, packet: Seq::empty() }.packed();
                (left, seq![gathered.take(SAMPLES_PER_PACKET as int)] + packets)
            }
        }
    }

    /// What one call leaves, and the packets that come out of it.
    pub open spec fn encoded(self, samples: Seq<T>) -> (Buffered<T>, Seq<Seq<T>>) {
        Buffered { mono: self.mono + samples, ..self }.packed()
    }
}

/// Calls one after the other: what they leave, and every packet that comes out.
pub open spec fn encoded_all<T>(calls: Seq<Seq<T>>) -> (Buffered<T>, Seq<Seq<T>>)
    decreases calls.len(),
{
    if calls.len() == 0 {
        (Buffered::nothing(), Seq::empty())
    } else {
        let (before, earlier) = encoded_all(calls.drop_last());
        let (after, packets) = before.encoded(calls.last());
        (after, earlier + packets)
    }
}

/// The samples of calls, one behind the other.
pub open spec fn samples_of<T>(calls: Seq<Seq<T>>) -> Seq<T>
    decreases calls.len(),
{
    if calls.len() == 0 {
        Seq::empty()
    } else {
        samples_of(calls.drop_last()) + calls.last()
    }
}

/// Samples cut into whole packets, in order.
pub open spec fn packets_of<T>(samples: Seq<T>) -> Seq<Seq<T>> {
    Seq::new(
        samples.len() / SAMPLES_PER_PACKET as nat,
        |i: int| samples.subrange(i * SAMPLES_PER_PACKET, (i + 1) * SAMPLES_PER_PACKET),
    )
}

/// The samples behind the last whole packet.
pub open spec fn left_of<T>(samples: Seq<T>) -> Seq<T> {
    samples.skip(samples.len() - samples.len() % SAMPLES_PER_PACKET as nat)
}

impl<T: Copy> Pipeline<T> {
    pub fn new(block: usize) -> (pipeline: Pipeline<T>)
        ensures
            pipeline.block_len() == block,
            pipeline.mono() == Seq::<T>::empty(),
            pipeline.packet() == Seq::<T>::empty(),
    {
        Pipeline { block, mono: Vec::new(), packet: Vec::new() }
    }

    /// Muting throws away what is buffered, so unmuting does not send audio from
    /// before it.
    pub fn discard(&mut self)
        ensures
            final(self).block_len() == old(self).block_len(),
            final(self).mono() == Seq::<T>::empty(),
            final(self).packet() == Seq::<T>::empty(),
    {
        self.mono.clear();
        self.packet.clear();
    }

    /// Takes in samples of one channel.
    pub fn capture(&mut self, sample: T)
        ensures
            final(self).block_len() == old(self).block_len(),
            final(self).mono() == old(self).mono().push(sample),
            final(self).packet() == old(self).packet(),
    {
        self.mono.push(sample);
    }

    /// Takes in samples of one channel at the codec's own rate, which need no
    /// resampling, and hands out the packets that they complete.
    pub fn encode(&mut self, samples: &[T]) -> (packets: Vec<Vec<T>>)
        requires
            old(self).block_len() == SAMPLES_PER_BLOCK,
        ensures
            final(self).block_len() == old(self).block_len(),
            (final(self).buffered(), contents(packets@)) == old(self).buffered().encoded(samples@),
    {
        let mut i: usize = 0;
        while i < samples.len()
            invariant
                i <= samples@.len(),
                self.block == old(self).block,
                self.mono@ == old(self).mono@ + samples@.take(i as int),
                self.packet@ == old(self).packet@,
            decreases samples@.len() - i,
        {
            self.capture(samples[i]);
            i += 1;
            assert(self.mono@ =~= old(self).mono@ + samples@.take(i as int));
        }
        assert(samples@.take(i as int) =~= samples@);
        let mut packets: Vec<Vec<T>> = Vec::new();
        let ghost whole = old(self).buffered().encoded(samples@);
        assert(contents(packets@) + self.buffered().packed().1 =~= whole.1);
        while self.mono.len() >= self.block
            invariant
                self.block == old(self).block == SAMPLES_PER_BLOCK,
                whole == (
                    self.buffered().packed().0,
                    contents(packets@) + self.buffered().packed().1,
                ),
            decreases self.mono@.len(),
        {
            let ghost before = self.buffered().packed();
            let ghost earlier = contents(packets@);
            if let Some(block) = self.next_block() {
                if let Some(packet) = self.resampled(block.as_slice()) {
                    packets.push(packet);
                    assert(contents(packets@) =~= earlier.push(packet@));
                }
            }
            assert(contents(packets@) + self.buffered().packed().1 =~= earlier + before.1);
        }
        assert(contents(packets@) + self.buffered().packed().1 =~= contents(packets@));
        packets
    }

    /// The next block at the device's rate, once there are samples enough.
    pub fn next_block(&mut self) -> (block: Option<Vec<T>>)
        ensures
            final(self).block_len() == old(self).block_len(),
            final(self).packet() == old(self).packet(),
            match block {
                Some(block) => {
                    &&& old(self).mono().len() >= old(self).block_len()
                    &&& block@ == old(self).mono().take(old(self).block_len() as int)
                    &&& final(self).mono() == old(self).mono().skip(old(self).block_len() as int)
                },
                None => {
                    &&& old(self).mono().len() < old(self).block_len()
                    &&& final(self).mono() == old(self).mono()
                },
            },
    {
        if self.mono.len() < self.block {
            return None;
        }
        let mut left = self.mono.split_off(self.block);
        std::mem::swap(&mut left, &mut self.mono);
        assert(self.mono@ =~= old(self).mono@.skip(old(self).block as int));
        assert(left@ =~= old(self).mono@.take(old(self).block as int));
        Some(left)
    }

    /// Takes in a block at the codec's rate, and hands out a packet once there are
    /// blocks enough. What is left over of them is dropped.
    pub fn resampled(&mut self, block: &[T]) -> (packet: Option<Vec<T>>)
        ensures
            final(self).block_len() == old(self).block_len(),
            final(self).mono() == old(self).mono(),
            ({
                let gathered = old(self).packet() + block@;
                match packet {
                    Some(packet) => {
                        &&& gathered.len() >= SAMPLES_PER_PACKET
                        &&& packet@ == gathered.take(SAMPLES_PER_PACKET as int)
                        &&& final(self).packet() == Seq::<T>::empty()
                    },
                    None => {
                        &&& gathered.len() < SAMPLES_PER_PACKET
                        &&& final(self).packet() == gathered
                    },
                }
            }),
    {
        let mut i: usize = 0;
        while i < block.len()
            invariant
                i <= block@.len(),
                self.block == old(self).block,
                self.mono@ == old(self).mono@,
                self.packet@ == old(self).packet@ + block@.take(i as int),
            decreases block@.len() - i,
        {
            self.packet.push(block[i]);
            i += 1;
            assert(self.packet@ =~= old(self).packet@ + block@.take(i as int));
        }
        assert(block@.take(i as int) =~= block@);
        if self.packet.len() < SAMPLES_PER_PACKET {
            return None;
        }
        let mut packet: Vec<T> = Vec::new();
        std::mem::swap(&mut packet, &mut self.packet);
        packet.truncate(SAMPLES_PER_PACKET);
        assert(packet@ =~= (old(self).packet() + block@).take(SAMPLES_PER_PACKET as int));
        Some(packet)
    }
}

/// Packets and blocks in numbers.
proof fn in_numbers(count: nat)
    ensures
        count / SAMPLES_PER_PACKET as nat == count / 960,
        count % SAMPLES_PER_PACKET as nat == count % 960,
        count % SAMPLES_PER_BLOCK as nat == count % 480,
        count * SAMPLES_PER_PACKET == count * 960,
        (count + 1) * SAMPLES_PER_PACKET == count * 960 + 960,
{
}

proof fn packing_cuts_packets<T>(buffered: Buffered<T>)
    requires
        buffered.packet.len() == 0 || buffered.packet.len() == SAMPLES_PER_BLOCK,
    ensures
        ({
            let (left, packets) = buffered.packed();
            let all = buffered.packet + buffered.mono;
            &&& packets == packets_of(all)
            &&& left.packet + left.mono == left_of(all)
            &&& left.mono.len() < SAMPLES_PER_BLOCK
            &&& left.packet.len() == 0 || left.packet.len() == SAMPLES_PER_BLOCK
        }),
    decreases buffered.mono.len(),
{
    let all = buffered.packet + buffered.mono;
    let (left, packets) = buffered.packed();
    in_numbers(all.len());
    in_numbers(0);
    in_numbers(SAMPLES_PER_PACKET as nat);
    if buffered.mono.len() < SAMPLES_PER_BLOCK {
        assert(packets =~= packets_of(all));
        assert(left_of(all) =~= all);
    } else {
        let mono = buffered.mono.skip(SAMPLES_PER_BLOCK as int);
        let gathered = buffered.packet + buffered.mono.take(SAMPLES_PER_BLOCK as int);
        if gathered.len() < SAMPLES_PER_PACKET {
            let next = Buffered { mono, packet: gathered };
            assert(next.packet + next.mono =~= all);
            packing_cuts_packets(next);
        } else {
            let next = Buffered { mono, packet: Seq::<T>::empty() };
            assert(next.packet + next.mono =~= all.skip(SAMPLES_PER_PACKET as int));
            packing_cuts_packets(next);
            cutting_on(all, SAMPLES_PER_PACKET as nat);
            assert(gathered.take(SAMPLES_PER_PACKET as int) =~= all.take(
                SAMPLES_PER_PACKET as int,
            ));
            let first = all.take(SAMPLES_PER_PACKET as int);
            assert(packets_of(first)[0] =~= first);
            assert(packets_of(first) =~= seq![first]);
        }
    }
}

/// Cutting can stop behind any whole packet and go on from there.
proof fn cutting_on<T>(samples: Seq<T>, at: nat)
    requires
        at <= samples.len(),
        at % SAMPLES_PER_PACKET as nat == 0,
    ensures
        packets_of(samples) == packets_of(samples.take(at as int)) + packets_of(
            samples.skip(at as int),
        ),
        left_of(samples) == left_of(samples.skip(at as int)),
{
    let (front, back) = (samples.take(at as int), samples.skip(at as int));
    let count = at / SAMPLES_PER_PACKET as nat;
    in_numbers(samples.len());
    in_numbers(at);
    in_numbers(back.len());
    let all = packets_of(front) + packets_of(back);
    assert(all.len() == packets_of(samples).len());
    assert forall|i: int| 0 <= i < all.len() implies all[i] == packets_of(samples)[i] by {
        in_numbers(i as nat);
        if i < count {
            assert(packets_of(front)[i] =~= packets_of(samples)[i]);
        } else {
            in_numbers((i - count) as nat);
            assert(packets_of(back)[i - count] =~= packets_of(samples)[i]);
        }
    }
    assert(all =~= packets_of(samples));
    assert(left_of(samples) =~= left_of(back));
}

proof fn one_call_more<T>(heard: Seq<T>, before: Buffered<T>, samples: Seq<T>)
    requires
        before.packet + before.mono == left_of(heard),
        before.mono.len() < SAMPLES_PER_BLOCK,
        before.packet.len() == 0 || before.packet.len() == SAMPLES_PER_BLOCK,
    ensures
        ({
            let (left, packets) = before.encoded(samples);
            let all = heard + samples;
            &&& packets_of(heard) + packets == packets_of(all)
            &&& left.packet + left.mono == left_of(all)
            &&& left.mono.len() < SAMPLES_PER_BLOCK
            &&& left.packet.len() == 0 || left.packet.len() == SAMPLES_PER_BLOCK
        }),
{
    let all = heard + samples;
    let with = Buffered { mono: before.mono + samples, ..before };
    let at = (heard.len() - heard.len() % SAMPLES_PER_PACKET as nat) as nat;
    in_numbers(heard.len());
    in_numbers(at);
    in_numbers((heard.len() - at) as nat);
    assert(with.packet + with.mono =~= (before.packet + before.mono) + samples);
    assert(left_of(heard) + samples =~= all.skip(at as int));
    packing_cuts_packets(with);
    cutting_on(all, at);
    cutting_on(heard, at);
    assert(all.take(at as int) =~= heard.take(at as int));
    assert(packets_of(heard.skip(at as int)) =~= Seq::empty());
    assert(packets_of(heard) =~= packets_of(all.take(at as int)));
}

/// One packet comes out per twenty milliseconds, however the samples are split over
/// calls. What came out since the start, or since the last discard, is what was taken
/// in, cut into whole packets. What is left over waits, the part that is no whole
/// block by itself, and the last call handed out just the packets it completed.
pub proof fn one_packet_comes_out_per_twenty_milliseconds<T>(calls: Seq<Seq<T>>)
    ensures
        ({
            let (left, packets) = encoded_all(calls);
            let taken = samples_of(calls).len();
            &&& packets == packets_of(samples_of(calls))
            &&& packets.len() == taken / SAMPLES_PER_PACKET as nat
            &&& left.packet + left.mono == left_of(samples_of(calls))
            &&& left.packet.len() + left.mono.len() == taken % SAMPLES_PER_PACKET as nat
            &&& left.mono.len() == taken % SAMPLES_PER_BLOCK as nat
            &&& left.packet.len() == 0 || left.packet.len() == SAMPLES_PER_BLOCK
            &&& calls.len() > 0 ==> encoded_all(calls.drop_last()).0.encoded(calls.last()).1.len()
                == taken / SAMPLES_PER_PACKET as nat - samples_of(calls.drop_last()).len()
                / SAMPLES_PER_PACKET as nat
        }),
    decreases calls.len(),
{
    let samples = samples_of(calls);
    let (left, packets) = encoded_all(calls);
    in_numbers(samples.len());
    if calls.len() == 0 {
        assert(packets =~= packets_of(samples));
        assert(left.packet + left.mono =~= left_of(samples));
    } else {
        let heard = samples_of(calls.drop_last());
        let (before, earlier) = encoded_all(calls.drop_last());
        one_packet_comes_out_per_twenty_milliseconds(calls.drop_last());
        in_numbers(heard.len());
        one_call_more(heard, before, calls.last());
        let (after, newest) = before.encoded(calls.last());
        assert(packets.len() == earlier.len() + newest.len());
    }
    assert((left.packet + left.mono).len() == left_of(samples).len());
    assert(left_of(samples).len() == samples.len() % 960);
}

/// An offer suits exactly if it is of floating-point samples and runs at 48 kHz, and, where
/// one channel is asked for, has just one.
pub proof fn an_offer_suits_at_the_codecs_rate(offer: Offer)
    ensures
        offer.suits(false) <==> offer.is_float && offer.min_rate <= 48000 && 48000
            <= offer.max_rate,
        offer.suits(true) <==> offer.suits(false) && offer.channels == 1,
{
}

/// No sample is lost, repeated or moved, however samples are split over calls: the packets
/// that came out, of 960 samples each, and what waits, first the block that waits for
/// another and then the samples that make none, are together what was taken in.
pub proof fn no_sample_is_lost<T>(calls: Seq<Seq<T>>, i: int, j: int)
    ensures
        ({
            let (left, packets) = encoded_all(calls);
            let taken = calls.flatten();
            &&& packets.len() == taken.len() / 960
            &&& 0 <= i < packets.len() && 0 <= j < 960 ==> packets[i].len() == 960
                && packets[i][j] == taken[960 * i + j]
            &&& left.packet + left.mono == taken.skip(
                (taken.len() / 960 * 960) as int,
            )
            &&& left.packet.len() == 0 || left.packet.len() == 480
            &&& left.mono.len() < 480
        }),
{
    let (left, packets) = encoded_all(calls);
    samples_are_those_of_the_calls(calls);
    let taken = samples_of(calls);
    one_packet_comes_out_per_twenty_milliseconds(calls);
    in_numbers(taken.len());
    if 0 <= i < packets.len() {
        in_numbers(i as nat);
        assert(packets[i] == taken.subrange(i * 960, i * 960 + 960));
    }
    assert(taken.len() - taken.len() % 960 == (taken.len() / 960) * 960);
}

proof fn samples_are_those_of_the_calls<T>(calls: Seq<Seq<T>>)
    ensures
        samples_of(calls) == calls.flatten(),
    decreases calls.len(),
{
    if calls.len() == 0 {
        assert(samples_of(calls) =~= calls.flatten());
    } else {
        let before = calls.drop_last();
        samples_are_those_of_the_calls(before);
        before.lemma_flatten_push(calls.last());
        assert(before.push(calls.last()) =~= calls);
    }
}

} // verus!
