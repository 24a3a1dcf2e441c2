//! Which of one track's sequence numbers are new.

use vstd::prelude::*;

verus! {

pub const WINDOW: u32 = 64;

/// What a window has seen: every sequence number it took, the one it took first
/// and the highest.
pub ghost struct Seen {
    pub accepted: Set<u32>,
    pub first: u32,
    pub highest: Option<u32>,
}

/// How many sequence numbers from `from` up to but not including `to` were never
/// taken.
pub open spec fn unfilled(accepted: Set<u32>, from: int, to: int) -> nat
    decreases to - from,
{
    if to <= from {
        0
    } else {
        unfilled(accepted, from, to - 1) + if accepted.contains((to - 1) as u32) {
            0nat
        } else {
            1nat
        }
    }
}

impl Seen {
    pub open spec fn nothing() -> Seen {
        Seen { accepted: Set::empty(), first: 0, highest: None }
    }

    /// Whether `seq` has not been taken yet and still has a place in the window.
    pub open spec fn is_new(self, seq: u32) -> bool {
        !self.accepted.contains(seq) && match self.highest {
            None => true,
            Some(highest) => seq + WINDOW > highest,
        }
    }

    /// What has been seen once `seq` has arrived too.
    pub open spec fn after(self, seq: u32) -> Seen {
        if !self.is_new(seq) {
            self
        } else {
            Seen {
                accepted: self.accepted.insert(seq),
                first: if self.highest is None {
                    seq
                } else {
                    self.first
                },
                highest: match self.highest {
                    Some(highest) if highest >= seq => Some(highest),
                    _ => Some(seq),
                },
            }
        }
    }

    /// How many sequence numbers since the first never arrived and have slid out of
    /// the window, so that they no longer can.
    pub open spec fn lost(self) -> nat {
        match self.highest {
            None => 0,
            Some(highest) => unfilled(
                self.accepted,
                self.first as int,
                highest - (WINDOW - 1),
            ),
        }
    }

    /// What has been seen once all of `arrivals` have, in that order.
    pub open spec fn after_all(arrivals: Seq<u32>) -> Seen
        decreases arrivals.len(),
    {
        if arrivals.len() == 0 {
            Seen::nothing()
        } else {
            Seen::after_all(arrivals.drop_last()).after(arrivals.last())
        }
    }

    /// Whether the arrival at `at` is handed on.
    pub open spec fn delivers(arrivals: Seq<u32>, at: int) -> bool {
        Seen::after_all(arrivals.take(at)).is_new(arrivals[at])
    }
}

/// Whether bit `slot` is set.
spec fn bit(bits: u64, slot: int) -> bool {
    bits & (1u64 << (slot as u64)) != 0
}

/// A sliding window over one `media_id`'s sequence numbers. It refuses
/// duplicates and stragglers, and counts the gaps that slid past unfilled.
pub struct SequenceWindow {
    highest: Option<u32>,
    first: u32,
    /// Bit `i` marks `highest - i` as seen, so bit 0 is `highest` itself.
    seen: u64,
    missing: u64,
    accepted: Ghost<Set<u32>>,
}

impl View for SequenceWindow {
    type V = Seen;

    closed spec fn view(&self) -> Seen {
        Seen { accepted: self.accepted@, first: self.first, highest: self.highest }
    }
}

impl Default for SequenceWindow {
    fn default() -> (window: SequenceWindow)
        ensures
            window.wf(),
            window@ == Seen::nothing(),
    {
        SequenceWindow {
            highest: None,
            first: 0,
            seen: 0,
            missing: 0,
            accepted: Ghost(Set::empty()),
        }
    }
}

impl SequenceWindow {
    /// The bits mirror what was accepted, and the count what was lost.
    pub closed spec fn wf(&self) -> bool {
        &&& self.missing == self@.lost()
        &&& match self.highest {
            None => self.accepted@ == Set::<u32>::empty() && self.first == 0,
            Some(highest) => {
                &&& self.first <= highest
                &&& self.accepted@.contains(self.first)
                &&& self.accepted@.contains(highest)
                &&& forall|seq: u32| #[trigger] self.accepted@.contains(seq) ==> seq <= highest
                &&& forall|slot: int|
                    0 <= slot < WINDOW ==> #[trigger] bit(self.seen, slot) == (slot <= highest
                        && self.accepted@.contains((highest - slot) as u32))
            },
        }
    }

    /// Whether this packet is new. A duplicate, or one that arrived after its
    /// place in the window slid away, is refused.
    pub fn accept(&mut self, seq: u32) -> (new: bool)
        requires
            old(self).wf(),
        ensures
            final(self).wf(),
            new == old(self)@.is_new(seq),
            final(self)@ == old(self)@.after(seq),
    {
        let highest: u32 = match self.highest {
            Some(highest) => highest,
            None => {
                self.highest = Some(seq);
                self.first = seq;
                self.seen = 1;
                self.accepted = Ghost(self.accepted@.insert(seq));
                proof {
                    assert forall|slot: int| 0 <= slot < WINDOW implies #[trigger] bit(1, slot)
                        == (slot == 0) by {
                        let s = slot as u64;
                        assert(s < 64 ==> ((1u64 & (1u64 << s)) != 0) == (s == 0)) by (bit_vector);
                    }
                }
                return true;
            },
        };

        if seq > highest {
            self.advance(highest, seq);
            return true;
        }
        let behind: u32 = highest - seq;
        if behind >= WINDOW {
            return false;
        }
        let seen: u64 = self.seen;
        assert(bit(seen, behind as int) == self.accepted@.contains(seq));
        let slot: u64 = 1u64 << (behind as u64);
        if seen & slot != 0 {
            return false;
        }
        self.seen = seen | slot;
        self.accepted = Ghost(self.accepted@.insert(seq));
        proof {
            assert forall|i: int| 0 <= i < WINDOW implies #[trigger] bit(seen | slot, i) == (bit(
                seen,
                i,
            ) || i == behind) by {
                let (i, b) = (i as u64, behind as u64);
                assert(i < 64 && b < 64 ==> (((seen | (1u64 << b)) & (1u64 << i)) != 0) == ((seen
                    & (1u64 << i)) != 0 || i == b)) by (bit_vector);
            }
            unfilled_ignores(
                old(self).accepted@,
                seq,
                self.first as int,
                highest - (WINDOW - 1),
            );
        }
        true
    }

    /// Sequence numbers that never arrived and can no longer be filled.
    pub fn missing(&self) -> (missing: u64)
        requires
            self.wf(),
        ensures
            missing == self@.lost(),
    {
        self.missing
    }

    fn advance(&mut self, highest: u32, seq: u32)
        requires
            old(self).wf(),
            old(self).highest == Some(highest),
            seq > highest,
        ensures
            final(self).wf(),
            final(self)@ == old(self)@.after(seq),
    {
        let step: u32 = seq - highest;
        let leaving: u32 = if step < WINDOW { step } else { WINDOW };
        let ghost accepted = self.accepted@;
        let ghost seen = self.seen;
        let ghost from = self.first as int;

        // The oldest `leaving` slots slide out, lowest sequence number first.
        let mut left: u32 = 0;
        let mut missing: u64 = self.missing;
        proof {
            unfilled_is_bounded(accepted, from, highest - (WINDOW - 1));
        }
        while left < leaving
            invariant
                left <= leaving <= WINDOW,
                self.accepted@ == accepted,
                self.seen == seen,
                self.first == from,
                0 <= from <= highest,
                forall|slot: int|
                    0 <= slot < WINDOW ==> #[trigger] bit(seen, slot) == (slot <= highest
                        && accepted.contains((highest - slot) as u32)),
                missing == unfilled(accepted, from, highest - (WINDOW - 1) + left),
                missing <= highest + 1,
            decreases leaving - left,
        {
            let slot: u32 = WINDOW - 1 - left;
            assert(bit(seen, slot as int) == (slot <= highest && accepted.contains(
                (highest - slot) as u32,
            )));
            if slot <= highest && highest - slot >= self.first && self.seen & (1u64 << (
            slot as u64)) == 0 {
                missing += 1;
            }
            proof {
                unfilled_is_bounded(accepted, from, highest - (WINDOW - 1) + left + 1);
            }
            left += 1;
        }
        // Anything more than a window behind the new arrival never gets a slot.
        if step > WINDOW {
            proof {
                unfilled_beyond(accepted, from, highest + 1, seq - (WINDOW - 1));
            }
            missing += (step - WINDOW) as u64;
        }
        self.missing = missing;
        self.seen = if step >= WINDOW {
            1
        } else {
            self.seen << (step as u64) | 1
        };
        self.highest = Some(seq);
        self.accepted = Ghost(accepted.insert(seq));
        proof {
            let now = self.seen;
            assert forall|slot: int| 0 <= slot < WINDOW implies #[trigger] bit(now, slot) == (slot
                <= seq && accepted.insert(seq).contains((seq - slot) as u32)) by {
                let (i, by) = (slot as u64, step as u64);
                if step >= WINDOW {
                    assert(i < 64 ==> ((1u64 & (1u64 << i)) != 0) == (i == 0)) by (bit_vector);
                } else {
                    if i >= by {
                        let kept = (i - by) as u64;
                        assert(((((seen << by) | 1) & (1u64 << i)) != 0) == ((seen & (1u64 << kept))
                            != 0)) by (bit_vector)
                            requires
                                i < 64,
                                0 < by <= i,
                                i == kept + by,
                        ;
                        assert(bit(seen, slot - step) == (slot - step <= highest
                            && accepted.contains((highest - (slot - step)) as u32)));
                    } else {
                        assert(i < by && by < 64 ==> ((((seen << by) | 1) & (1u64 << i)) != 0) == (i
                            == 0)) by (bit_vector);
                    }
                }
            }
            unfilled_ignores(accepted, seq, from, seq - (WINDOW - 1));
        }
    }
}

proof fn unfilled_is_bounded(accepted: Set<u32>, from: int, to: int)
    ensures
        unfilled(accepted, from, to) <= if to <= from {
            0
        } else {
            to - from
        },
    decreases to - from,
{
    if to > from {
        unfilled_is_bounded(accepted, from, to - 1);
    }
}

/// Taking a sequence number outside a range fills nothing in it.
proof fn unfilled_ignores(accepted: Set<u32>, seq: u32, from: int, to: int)
    requires
        seq >= to,
        from >= 0,
    ensures
        unfilled(accepted.insert(seq), from, to) == unfilled(accepted, from, to),
    decreases to - from,
{
    if to > from {
        unfilled_ignores(accepted, seq, from, to - 1);
    }
}

/// A stretch above everything taken is unfilled throughout.
proof fn unfilled_beyond(accepted: Set<u32>, from: int, middle: int, to: int)
    requires
        0 <= from <= middle <= to <= u32::MAX + 1,
        forall|seq: u32| #[trigger] accepted.contains(seq) ==> seq < middle,
    ensures
        unfilled(accepted, from, to) == unfilled(accepted, from, middle) + (to - middle),
    decreases to - middle,
{
    if to > middle {
        unfilled_beyond(accepted, from, middle, to - 1);
    }
}

/// Whatever arrives, and however often, a sequence number is handed on at most
/// once.
pub proof fn every_sequence_is_delivered_at_most_once(arrivals: Seq<u32>, i: int, j: int)
    requires
        0 <= i < j < arrivals.len(),
        arrivals[i] == arrivals[j],
        Seen::delivers(arrivals, i),
    ensures
        !Seen::delivers(arrivals, j),
{
    let taken = Seen::after_all(arrivals.take(i));
    assert(arrivals.take(i + 1).drop_last() =~= arrivals.take(i));
    accepted_only_grows(arrivals, i + 1, j, arrivals[i]);
}

proof fn accepted_only_grows(arrivals: Seq<u32>, i: int, j: int, seq: u32)
    requires
        0 <= i <= j <= arrivals.len(),
        Seen::after_all(arrivals.take(i)).accepted.contains(seq),
    ensures
        Seen::after_all(arrivals.take(j)).accepted.contains(seq),
    decreases j - i,
{
    if i < j {
        accepted_only_grows(arrivals, i, j - 1, seq);
        assert(arrivals.take(j).drop_last() =~= arrivals.take(j - 1));
    }
}

/// A run in order is handed on whole and loses nothing, wherever it starts.
pub proof fn a_run_in_order_is_all_new(from: u32, count: nat)
    requires
        from + count <= u32::MAX + 1,
    ensures
        ({
            let run = Seq::new(count, |i: int| (from + i) as u32);
            &&& forall|i: int| 0 <= i < count ==> #[trigger] Seen::delivers(run, i)
            &&& Seen::after_all(run).lost() == 0
        }),
{
    let run = Seq::new(count, |i: int| (from + i) as u32);
    assert forall|i: int| 0 <= i < count implies #[trigger] Seen::delivers(run, i) by {
        after_a_run(from, i as nat);
        assert(run.take(i) =~= Seq::new(i as nat, |k: int| (from + k) as u32));
    }
    after_a_run(from, count);
    if count > 0 {
        all_filled(from, count, from + count - WINDOW);
    }
}

proof fn after_a_run(from: u32, count: nat)
    requires
        from + count <= u32::MAX + 1,
    ensures
        ({
            let seen = Seen::after_all(Seq::new(count, |i: int| (from + i) as u32));
            &&& seen.accepted == Set::new(|s: u32| from <= s < from + count)
            &&& if count == 0 {
                seen.highest is None
            } else {
                seen.highest == Some((from + count - 1) as u32) && seen.first == from
            }
        }),
    decreases count,
{
    let run = Seq::new(count, |i: int| (from + i) as u32);
    let seen = Seen::after_all(run);
    if count == 0 {
        assert(seen.accepted =~= Set::new(|s: u32| from <= s < from + count));
    } else {
        let before = Seq::new((count - 1) as nat, |i: int| (from + i) as u32);
        assert(run.drop_last() =~= before);
        after_a_run(from, (count - 1) as nat);
        assert(seen.accepted =~= Set::new(|s: u32| from <= s < from + count));
    }
}

proof fn all_filled(from: u32, count: nat, to: int)
    requires
        to <= from + count <= u32::MAX + 1,
    ensures
        unfilled(Set::new(|s: u32| from <= s < from + count), from as int, to) == 0,
    decreases to - from,
{
    if to > from {
        all_filled(from, count, to - 1);
    }
}

/// A number that is not new never becomes new again, whatever arrives.
pub proof fn what_is_not_new_stays_so(seen: Seen, arrived: u32, seq: u32)
    requires
        !seen.is_new(seq) || arrived == seq,
    ensures
        !seen.after(arrived).is_new(seq),
{
}

/// A number is handed on exactly if it has not come before and is less than a window
/// of 64 behind every number that has.
pub proof fn a_number_is_new_once_and_while_it_is_near(arrivals: Seq<u32>, at: int)
    requires
        0 <= at < arrivals.len(),
    ensures
        Seen::delivers(arrivals, at) <==> forall|i: int|
            0 <= i < at ==> (#[trigger] arrivals[i]) != arrivals[at] && arrivals[i] < arrivals[at]
                + 64,
{
    let before = arrivals.take(at);
    let seen = Seen::after_all(before);
    what_has_been_seen(before);
    assert forall|i: int| 0 <= i < at implies before[i] == #[trigger] arrivals[i] by {}
    if Seen::delivers(arrivals, at) {
        assert forall|i: int| 0 <= i < at implies (#[trigger] arrivals[i]) != arrivals[at]
            && arrivals[i] < arrivals[at] + 64 by {
            assert(before[i] == arrivals[i]);
        }
    } else if seen.accepted.contains(arrivals[at]) {
        let i = choose|i: int| 0 <= i < before.len() && (#[trigger] before[i]) == arrivals[at];
        assert(arrivals[i] == arrivals[at]);
    } else {
        let i = choose|i: int|
            0 <= i < before.len() && (#[trigger] before[i]) == seen.highest->0;
        assert(arrivals[i] == seen.highest->0);
    }
}

proof fn what_has_been_seen(arrivals: Seq<u32>)
    ensures
        ({
            let seen = Seen::after_all(arrivals);
            &&& seen.highest is None <==> arrivals.len() == 0
            &&& arrivals.len() > 0 ==> seen.first == arrivals[0]
            &&& seen.highest matches Some(highest) ==> exists|i: int|
                0 <= i < arrivals.len() && (#[trigger] arrivals[i]) == highest
            &&& forall|n: u32| #[trigger]
                seen.accepted.contains(n) ==> exists|i: int|
                    0 <= i < arrivals.len() && (#[trigger] arrivals[i]) == n
            &&& forall|i: int|
                0 <= i < arrivals.len() ==> (#[trigger] arrivals[i]) <= seen.highest->0 && (
                seen.accepted.contains(arrivals[i]) || arrivals[i] + 64 <= seen.highest->0)
        }),
    decreases arrivals.len(),
{
    if arrivals.len() > 0 {
        let before = arrivals.drop_last();
        what_has_been_seen(before);
        let (was, seen) = (Seen::after_all(before), Seen::after_all(arrivals));
        let last = arrivals.len() - 1;
        assert forall|i: int| 0 <= i < last implies before[i] == #[trigger] arrivals[i] by {}
        assert(arrivals[last] == arrivals.last());
        if seen.highest == Some(arrivals.last()) {
            assert(arrivals[last] == seen.highest->0);
        } else {
            let i = choose|i: int|
                0 <= i < before.len() && (#[trigger] before[i]) == was.highest->0;
            assert(arrivals[i] == seen.highest->0);
        }
        assert forall|n: u32| #[trigger] seen.accepted.contains(n) implies exists|i: int|
            0 <= i < arrivals.len() && (#[trigger] arrivals[i]) == n by {
            if was.accepted.contains(n) {
                let i = choose|i: int| 0 <= i < before.len() && (#[trigger] before[i]) == n;
                assert(arrivals[i] == n);
            } else {
                assert(arrivals[last] == n);
            }
        }
        assert forall|i: int| 0 <= i < arrivals.len() implies (#[trigger] arrivals[i])
            <= seen.highest->0 && (seen.accepted.contains(arrivals[i]) || arrivals[i] + 64
            <= seen.highest->0) by {
            if i < last {
                assert(before[i] == arrivals[i]);
            }
        }
    }
}

/// What is lost: the numbers from the first arrival on that were never handed on and
/// are a window of 64 or more behind the highest, each counted once.
pub proof fn what_slid_past_unfilled_is_lost(arrivals: Seq<u32>, highest: u32)
    requires
        arrivals.len() > 0,
        arrivals.contains(highest),
        forall|i: int| 0 <= i < arrivals.len() ==> (#[trigger] arrivals[i]) <= highest,
    ensures
        Seen::after_all(arrivals).lost() == Set::<int>::range(
            arrivals[0] as int,
            highest - 63,
        ).filter(
            |n: int|
                forall|i: int|
                    0 <= i < arrivals.len() && #[trigger] Seen::delivers(arrivals, i) ==> arrivals[i] != n,
        ).len(),
{
    let seen = Seen::after_all(arrivals);
    what_has_been_seen(arrivals);
    let k = choose|k: int| 0 <= k < arrivals.len() && arrivals[k] == highest;
    assert(arrivals[k] <= seen.highest->0);
    assert(seen.highest == Some(highest));
    let open = |n: int|
        forall|i: int|
            0 <= i < arrivals.len() && #[trigger] Seen::delivers(arrivals, i) ==> arrivals[i] != n;
    assert forall|n: u32| seen.accepted.contains(n) == !#[trigger] open(n as int) by {
        what_is_accepted_was_delivered(arrivals, n);
    }
    unfilled_are_counted(seen.accepted, arrivals[0] as int, highest - 63, open);
}

proof fn what_is_accepted_was_delivered(arrivals: Seq<u32>, n: u32)
    ensures
        Seen::after_all(arrivals).accepted.contains(n) <==> exists|i: int|
            0 <= i < arrivals.len() && #[trigger] Seen::delivers(arrivals, i) && arrivals[i] == n,
    decreases arrivals.len(),
{
    if arrivals.len() > 0 {
        let before = arrivals.drop_last();
        let last = arrivals.len() - 1;
        what_is_accepted_was_delivered(before, n);
        assert(arrivals.take(last) =~= before);
        let newest = Seen::delivers(arrivals, last) && arrivals[last] == n;
        if Seen::after_all(before).accepted.contains(n) {
            let i = choose|i: int|
                0 <= i < before.len() && #[trigger] Seen::delivers(before, i) && before[i] == n;
            delivered_alike(arrivals, i);
            assert(Seen::delivers(arrivals, i));
        }
        if exists|i: int|
            0 <= i < arrivals.len() && #[trigger] Seen::delivers(arrivals, i) && arrivals[i] == n {
            let i = choose|i: int|
                0 <= i < arrivals.len() && #[trigger] Seen::delivers(arrivals, i) && arrivals[i]
                    == n;
            if i < last {
                delivered_alike(arrivals, i);
                assert(Seen::delivers(before, i));
            }
        }
    }
}

proof fn delivered_alike(arrivals: Seq<u32>, i: int)
    requires
        0 <= i < arrivals.len() - 1,
    ensures
        Seen::delivers(arrivals.drop_last(), i) == Seen::delivers(arrivals, i),
        arrivals.drop_last()[i] == arrivals[i],
{
    assert(arrivals.drop_last().take(i) =~= arrivals.take(i));
}

proof fn unfilled_are_counted(accepted: Set<u32>, from: int, to: int, open: spec_fn(int) -> bool)
    requires
        0 <= from,
        to <= u32::MAX + 1,
        forall|n: u32| accepted.contains(n) == !#[trigger] open(n as int),
    ensures
        unfilled(accepted, from, to) == Set::<int>::range(from, to).filter(open).len(),
        Set::<int>::range(from, to).filter(open).finite(),
    decreases to - from,
{
    let all = Set::<int>::range(from, to).filter(open);
    if to <= from {
        assert(all =~= Set::empty());
    } else {
        unfilled_are_counted(accepted, from, to - 1, open);
        let before = Set::<int>::range(from, to - 1).filter(open);
        let n = (to - 1) as u32;
        assert(accepted.contains(n) == !open(n as int));
        if open(to - 1) {
            assert(all =~= before.insert(to - 1));
        } else {
            assert(all =~= before);
        }
    }
}

} // verus!
