//! What was played out, kept for the echo canceller.

use std::collections::VecDeque;

use vstd::prelude::*;

use crate::client::media::audio::{self, SAMPLES_PER_BLOCK};

verus! {

pub const REFERENCE_BLOCKS: usize = 8;

/// The contents of blocks.
pub open spec fn blocks_of<T>(blocks: Seq<Vec<T>>) -> Seq<Seq<T>> {
    Seq::new(blocks.len(), |i: int| blocks[i]@)
}

/// Blocks with one more, the oldest giving way where there are as many as are kept.
pub open spec fn queued<T>(blocks: Seq<Seq<T>>, block: Seq<T>) -> Seq<Seq<T>> {
    if blocks.len() >= REFERENCE_BLOCKS {
        blocks.skip(1).push(block)
    } else {
        blocks.push(block)
    }
}

/// The mixed playout, carried from the output callback to the capture callback.
/// The canceller has to estimate against what the device actually played.
pub struct RenderReference<T> {
    silence: T,
    blocks: VecDeque<Vec<T>>,
}

impl<T> RenderReference<T> {
    /// The blocks that wait, oldest first.
    pub closed spec fn blocks(&self) -> Seq<Seq<T>> {
        blocks_of(self.blocks@)
    }

    /// What a short block is filled up with.
    pub closed spec fn silence(&self) -> T {
        self.silence
    }

    pub open spec fn wf(&self) -> bool {
        self.blocks().len() <= REFERENCE_BLOCKS
    }
}

impl<T: Copy> RenderReference<T> {
    pub fn new(silence: T) -> (reference: RenderReference<T>)
        ensures
            reference.wf(),
            reference.silence() == silence,
            reference.blocks() == Seq::<Seq<T>>::empty(),
    {
        let reference = RenderReference { silence, blocks: VecDeque::new() };
        assert(reference.blocks() =~= Seq::empty());
        reference
    }

    /// The oldest block is dropped rather than the newest: an estimate against
    /// stale playout is worse than one against a gap.
    pub fn played(&mut self, block: &[T])
        requires
            old(self).wf(),
        ensures
            final(self).wf(),
            final(self).silence() == old(self).silence(),
            final(self).blocks() == queued(
                old(self).blocks(),
                audio::fitted(block@, SAMPLES_PER_BLOCK as nat, old(self).silence()),
            ),
    {
        let kept = audio::fit(block, SAMPLES_PER_BLOCK, self.silence);
        if self.blocks.len() >= REFERENCE_BLOCKS {
            let _ = self.blocks.pop_front();
        }
        self.blocks.push_back(kept);
        assert(self.blocks() =~= queued(old(self).blocks(), kept@));
    }

    /// The oldest block.
    pub fn take(&mut self) -> (block: Option<Vec<T>>)
        requires
            old(self).wf(),
        ensures
            final(self).wf(),
            final(self).silence() == old(self).silence(),
            match block {
                Some(block) => {
                    &&& old(self).blocks().len() > 0
                    &&& block@ == old(self).blocks()[0]
                    &&& final(self).blocks() == old(self).blocks().skip(1)
                },
                None => {
                    &&& old(self).blocks().len() == 0
                    &&& final(self).blocks() == old(self).blocks()
                },
            },
    {
        let block = self.blocks.pop_front();
        proof {
            if block is Some {
                assert(self.blocks() =~= old(self).blocks().skip(1));
            } else {
                assert(self.blocks() =~= old(self).blocks());
            }
        }
        block
    }

    /// How many blocks wait.
    pub fn waiting(&self) -> (waiting: usize)
        ensures
            waiting == self.blocks().len(),
    {
        self.blocks.len()
    }
}

/// Blocks played one after the other.
pub open spec fn queued_all<T>(played: Seq<Seq<T>>) -> Seq<Seq<T>>
    decreases played.len(),
{
    if played.len() == 0 {
        Seq::empty()
    } else {
        queued(queued_all(played.drop_last()), played.last())
    }
}

/// However many blocks are played, the newest are the ones that are kept.
pub proof fn the_newest_blocks_are_kept<T>(played: Seq<Seq<T>>)
    ensures
        queued_all(played) == if played.len() <= REFERENCE_BLOCKS {
            played
        } else {
            played.skip(played.len() - REFERENCE_BLOCKS)
        },
    decreases played.len(),
{
    if played.len() > 0 {
        the_newest_blocks_are_kept(played.drop_last());
        assert(queued_all(played) =~= if played.len() <= REFERENCE_BLOCKS {
            played
        } else {
            played.skip(played.len() - REFERENCE_BLOCKS)
        });
    } else {
        assert(queued_all(played) =~= played);
    }
}

/// The newest block is always kept, and is the last to be taken. Up to eight wait: the
/// ninth makes the oldest give way, and no other.
pub proof fn only_the_oldest_gives_way<T>(blocks: Seq<Seq<T>>, block: Seq<T>)
    requires
        blocks.len() <= 8,
    ensures
        queued(blocks, block).last() == block,
        queued(blocks, block).len() <= 8,
        blocks.len() < 8 ==> queued(blocks, block).drop_last() == blocks,
        blocks.len() == 8 ==> queued(blocks, block).drop_last() == blocks.drop_first(),
{
    assert(blocks.push(block).drop_last() =~= blocks);
    assert(blocks.skip(1).push(block).drop_last() =~= blocks.skip(1));
    assert(blocks.len() > 0 ==> blocks.skip(1) =~= blocks.drop_first());
}

} // verus!
