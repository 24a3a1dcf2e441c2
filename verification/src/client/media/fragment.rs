//! Access units, split into datagram payloads and put together again.

use vstd::prelude::*;

use crate::proto::frame::PAYLOAD_BUDGET;
use crate::proto::wire;

verus! {

pub const FIRST: u8 = 1;

pub const LAST: u8 = 2;

pub const TIMESTAMP: u8 = 4;

pub const KNOWN_MARKS: u8 = 7;

pub const MARKS_BYTES: usize = 1;

pub const TIMESTAMP_BYTES: usize = 4;

/// Codec bytes per datagram, once the fragment byte is taken out of the payload
/// budget. A first fragment carrying a timestamp gives up four more.
pub const CODEC_BUDGET: usize = PAYLOAD_BUDGET - MARKS_BYTES;

/// Holding this many fragments for one track means a peer stopped marking its
/// last fragments, not that the network is slow.
pub const MAX_PENDING_FRAGMENTS: usize = 512;

/// The marks of a fragment.
pub open spec fn marks(first: bool, last: bool, stamped: bool) -> u8 {
    ((if first { FIRST as int } else { 0 }) + (if last { LAST as int } else { 0 }) + (if stamped {
        TIMESTAMP as int
    } else {
        0
    })) as u8
}

/// Whether a mark is set.
pub open spec fn marked(marks: u8, mark: u8) -> bool {
    marks & mark != 0
}

proof fn marks_are_bits(m: u8)
    by (bit_vector)
    ensures
        (m & 1 != 0) == (m % 2 == 1),
        (m & 2 != 0) == ((m / 2) % 2 == 1),
        (m & 4 != 0) == ((m / 4) % 2 == 1),
        (m & !7u8 != 0) == (m > 7),
{
}

proof fn marks_tell(first: bool, last: bool, stamped: bool)
    ensures
        marks(first, last, stamped) <= KNOWN_MARKS,
        marks(first, last, stamped) & !KNOWN_MARKS == 0,
        marked(marks(first, last, stamped), FIRST) == first,
        marked(marks(first, last, stamped), LAST) == last,
        marked(marks(first, last, stamped), TIMESTAMP) == stamped,
{
    marks_are_bits(marks(first, last, stamped));
}

/// A fragment as a datagram's payload: its marks, its timestamp where it carries
/// one, and its codec bytes.
pub open spec fn payload_of(
    first: bool,
    last: bool,
    timestamp: Option<u32>,
    bytes: Seq<u8>,
) -> Seq<u8> {
    match timestamp {
        None => seq![marks(first, last, false)] + bytes,
        Some(ticks) => seq![marks(first, last, true)] + wire::be32(ticks) + bytes,
    }
}

/// How many codec bytes the first fragment has room for.
pub open spec fn first_budget(timestamp: Option<u32>) -> nat {
    match timestamp {
        None => CODEC_BUDGET as nat,
        Some(_) => (CODEC_BUDGET - TIMESTAMP_BYTES) as nat,
    }
}

/// As much of `bytes` as fits in `budget`.
pub open spec fn head(bytes: Seq<u8>, budget: nat) -> Seq<u8> {
    if bytes.len() <= budget {
        bytes
    } else {
        bytes.take(budget as int)
    }
}

/// What of `bytes` does not fit in `budget`.
pub open spec fn rest(bytes: Seq<u8>, budget: nat) -> Seq<u8> {
    if bytes.len() <= budget {
        Seq::empty()
    } else {
        bytes.skip(budget as int)
    }
}

/// The fragments that follow the first.
pub open spec fn following(bytes: Seq<u8>) -> Seq<Seq<u8>>
    decreases bytes.len(),
{
    if bytes.len() == 0 {
        Seq::empty()
    } else {
        let left = rest(bytes, CODEC_BUDGET as nat);
        seq![payload_of(false, left.len() == 0, None, head(bytes, CODEC_BUDGET as nat))]
            + following(left)
    }
}

/// An access unit as datagram payloads, each as full as the budget lets it be.
pub open spec fn fragments(unit: Seq<u8>, timestamp: Option<u32>) -> Seq<Seq<u8>> {
    let left = rest(unit, first_budget(timestamp));
    seq![payload_of(true, left.len() == 0, timestamp, head(unit, first_budget(timestamp)))]
        + following(left)
}

/// The contents of payloads.
pub open spec fn contents(payloads: Seq<Vec<u8>>) -> Seq<Seq<u8>> {
    Seq::new(payloads.len(), |i: int| payloads[i]@)
}

/// One access unit, split into datagram payloads. The timestamp rides on the
/// first fragment, and only on tracks whose sound has to match their picture.
pub fn fragment(unit: &[u8], timestamp: Option<u32>) -> (payloads: Vec<Vec<u8>>)
    ensures
        contents(payloads@) == fragments(unit@, timestamp),
{
    let budget: usize = match timestamp {
        None => CODEC_BUDGET,
        Some(_) => CODEC_BUDGET - TIMESTAMP_BYTES,
    };
    let mut taken: usize = if unit.len() < budget {
        unit.len()
    } else {
        budget
    };
    let mut payloads: Vec<Vec<u8>> = Vec::with_capacity(1 + (unit.len() - taken) / CODEC_BUDGET);
    payloads.push(
        payload(
            true,
            taken == unit.len(),
            timestamp,
            vstd::slice::slice_subrange(unit, 0, taken),
        ),
    );
    proof {
        assert(unit@.subrange(0, taken as int) =~= head(unit@, first_budget(timestamp)));
        assert(unit@.skip(taken as int) =~= rest(unit@, first_budget(timestamp)));
        assert(contents(payloads@) + following(unit@.skip(taken as int)) =~= fragments(
            unit@,
            timestamp,
        ));
    }
    while taken < unit.len()
        invariant
            taken <= unit@.len(),
            contents(payloads@) + following(unit@.skip(taken as int)) == fragments(
                unit@,
                timestamp,
            ),
        decreases unit@.len() - taken,
    {
        let end: usize = if unit.len() - taken < CODEC_BUDGET {
            unit.len()
        } else {
            taken + CODEC_BUDGET
        };
        let ghost left = unit@.skip(taken as int);
        let ghost before = payloads@;
        payloads.push(
            payload(false, end == unit.len(), None, vstd::slice::slice_subrange(unit, taken, end)),
        );
        proof {
            assert(unit@.subrange(taken as int, end as int) =~= head(left, CODEC_BUDGET as nat));
            assert(unit@.skip(end as int) =~= rest(left, CODEC_BUDGET as nat));
            assert(contents(payloads@) =~= contents(before).push(payloads@.last()@));
            assert(contents(payloads@) + following(unit@.skip(end as int)) =~= contents(before)
                + following(left));
        }
        taken = end;
    }
    assert(contents(payloads@) + following(unit@.skip(taken as int)) =~= contents(payloads@));
    payloads
}

fn payload(first: bool, last: bool, timestamp: Option<u32>, bytes: &[u8]) -> (payload: Vec<u8>)
    requires
        bytes@.len() <= CODEC_BUDGET,
    ensures
        payload@ == payload_of(first, last, timestamp, bytes@),
{
    let mut payload: Vec<u8> = Vec::with_capacity(MARKS_BYTES + TIMESTAMP_BYTES + bytes.len());
    let ends: u8 = (if first { FIRST } else { 0 }) + (if last { LAST } else { 0 });
    match timestamp {
        None => payload.push(ends),
        Some(ticks) => {
            payload.push(ends + TIMESTAMP);
            let ticks = wire::be32_bytes(ticks);
            payload.extend_from_slice(ticks.as_slice());
        },
    }
    payload.extend_from_slice(bytes);
    assert(payload@ =~= payload_of(first, last, timestamp, bytes@));
    payload
}

/// A fragment waiting for the rest of its unit.
pub ghost struct Held {
    pub seq: u32,
    pub marks: u8,
    pub timestamp: Option<u32>,
    pub bytes: Seq<u8>,
}

/// An access unit put together.
pub ghost struct Unit {
    pub bytes: Seq<u8>,
    pub timestamp: Option<u32>,
    pub last_seq: u32,
}

pub struct AccessUnit {
    pub bytes: Vec<u8>,
    pub timestamp: Option<u32>,
    pub last_seq: u32,
}

impl View for AccessUnit {
    type V = Unit;

    open spec fn view(&self) -> Unit {
        Unit { bytes: self.bytes@, timestamp: self.timestamp, last_seq: self.last_seq }
    }
}

/// The contents of access units.
pub open spec fn units_of(units: Seq<AccessUnit>) -> Seq<Unit> {
    Seq::new(units.len(), |i: int| units[i]@)
}

/// The fragment a payload holds: `None` where it is empty, carries an unknown mark
/// or promises a timestamp it is too short for.
pub open spec fn parsed(seq: u32, payload: Seq<u8>) -> Option<Held> {
    if payload.len() == 0 || payload[0] & !KNOWN_MARKS != 0 {
        None
    } else if !marked(payload[0], TIMESTAMP) {
        Some(Held { seq, marks: payload[0], timestamp: None, bytes: payload.skip(1) })
    } else if payload.len() < MARKS_BYTES + TIMESTAMP_BYTES {
        None
    } else {
        Some(
            Held {
                seq,
                marks: payload[0],
                timestamp: Some(wire::from_be32(payload.subrange(1, 5))),
                bytes: payload.skip(5),
            },
        )
    }
}

/// Fragments in sequence order, none twice.
pub open spec fn ascending(pending: Seq<Held>) -> bool {
    forall|i: int, j: int| 0 <= i < j < pending.len() ==> pending[i].seq < pending[j].seq
}

/// How many of `pending` come before `seq`.
pub open spec fn place(pending: Seq<Held>, seq: u32) -> nat
    decreases pending.len(),
{
    if pending.len() > 0 && pending.last().seq >= seq {
        place(pending.drop_last(), seq)
    } else {
        pending.len()
    }
}

/// `pending` with one more fragment at its place, which one of the same sequence
/// number gives up to it.
pub open spec fn inserted(pending: Seq<Held>, held: Held) -> Seq<Held> {
    let at = place(pending, held.seq) as int;
    if at < pending.len() && pending[at].seq == held.seq {
        pending.update(at, held)
    } else {
        pending.insert(at, held)
    }
}

/// How far an unbroken run from the front reaches that ends in the first fragment
/// marked last, where there is one; everything before `from` is known not to be.
pub open spec fn run_end(pending: Seq<Held>, from: nat) -> Option<nat>
    decreases pending.len() - from,
{
    if from >= pending.len() {
        None
    } else if marked(pending[from as int].marks, LAST) {
        Some(from + 1)
    } else if from + 1 < pending.len() && pending[from as int + 1].seq == pending[from as int].seq + 1 {
        run_end(pending, from + 1)
    } else {
        None
    }
}

/// How many fragments at the front make up a whole unit, where they do.
pub open spec fn complete(pending: Seq<Held>) -> Option<nat> {
    if pending.len() > 0 && marked(pending[0].marks, FIRST) {
        run_end(pending, 0)
    } else {
        None
    }
}

/// How many fragments at the front belong to one unit: up to one marked last, or
/// to where another is marked first.
pub open spec fn unit_end(pending: Seq<Held>, from: nat) -> nat
    decreases pending.len() - from,
{
    if from + 1 >= pending.len() || marked(pending[from as int].marks, LAST) || marked(
        pending[from as int + 1].marks,
        FIRST,
    ) {
        from + 1
    } else {
        unit_end(pending, from + 1)
    }
}

/// The codec bytes of fragments, in order.
pub open spec fn joined(pending: Seq<Held>) -> Seq<u8>
    decreases pending.len(),
{
    if pending.len() == 0 {
        Seq::empty()
    } else {
        joined(pending.drop_last()) + pending.last().bytes
    }
}

/// The first timestamp among fragments.
pub open spec fn stamp(pending: Seq<Held>) -> Option<u32>
    decreases pending.len(),
{
    if pending.len() == 0 {
        None
    } else {
        match stamp(pending.drop_last()) {
            Some(ticks) => Some(ticks),
            None => pending.last().timestamp,
        }
    }
}

/// The access unit that a run of fragments makes.
pub open spec fn unit_of(run: Seq<Held>) -> Unit {
    Unit { bytes: joined(run), timestamp: stamp(run), last_seq: run.last().seq }
}

/// What one track is still putting together.
pub ghost struct Assembly {
    pub pending: Seq<Held>,
    pub emitted_through: Option<u32>,
    pub abandoned: nat,
    pub late: nat,
}

impl Assembly {
    pub open spec fn fresh() -> Assembly {
        Assembly { pending: Seq::empty(), emitted_through: None, abandoned: 0, late: 0 }
    }

    /// Whether the unit that `seq` belongs to is already resolved.
    pub open spec fn resolved(self, seq: u32) -> bool {
        self.emitted_through matches Some(through) && seq <= through
    }

    /// The assembly without its first `count` fragments, which are resolved.
    pub open spec fn past(self, count: nat) -> Assembly {
        Assembly {
            pending: self.pending.skip(count as int),
            emitted_through: Some(self.pending[count - 1].seq),
            ..self
        }
    }

    /// The assembly with one more fragment, giving up on its lowest unit where that
    /// is one too many.
    pub open spec fn holding(self, held: Held) -> Assembly {
        let with = Assembly { pending: inserted(self.pending, held), ..self };
        if with.pending.len() <= MAX_PENDING_FRAGMENTS {
            with
        } else {
            Assembly {
                abandoned: self.abandoned + 1,
                ..with.past(unit_end(with.pending, 0))
            }
        }
    }

    /// Everything that is whole, lowest first, and the assembly without it.
    pub open spec fn drained(self) -> (Assembly, Seq<Unit>)
        decreases self.pending.len(),
    {
        match complete(self.pending) {
            Some(count) if 0 < count <= self.pending.len() => {
                let (left, units) = self.past(count).drained();
                (left, seq![unit_of(self.pending.take(count as int))] + units)
            },
            _ => (self, Seq::empty()),
        }
    }

    /// What the arrival of `payload` under `seq` leaves, and what it completes.
    pub open spec fn pushed(self, seq: u32, payload: Seq<u8>) -> (Assembly, Seq<Unit>) {
        match parsed(seq, payload) {
            None => (self, Seq::empty()),
            Some(held) => if self.resolved(seq) {
                (Assembly { late: self.late + 1, ..self }, Seq::empty())
            } else {
                self.holding(held).drained()
            },
        }
    }
}

proof fn place_splits(pending: Seq<Held>, seq: u32)
    requires
        ascending(pending),
    ensures
        place(pending, seq) <= pending.len(),
        forall|i: int| 0 <= i < place(pending, seq) ==> (#[trigger] pending[i]).seq < seq,
        forall|i: int|
            place(pending, seq) <= i < pending.len() ==> (#[trigger] pending[i]).seq >= seq,
    decreases pending.len(),
{
    if pending.len() > 0 {
        place_splits(pending.drop_last(), seq);
        assert(forall|i: int|
            0 <= i < pending.len() - 1 ==> pending.drop_last()[i] == #[trigger] pending[i]);
    }
}

/// A fragment takes its place without disturbing the order.
proof fn inserting_is_sound(assembly: Assembly, held: Held)
    requires
        assembly.sound(),
        !assembly.resolved(held.seq),
    ensures
        ({
            let with = inserted(assembly.pending, held);
            &&& (Assembly { pending: with, ..assembly }).sound()
            &&& with.len() <= assembly.pending.len() + 1
            &&& with.contains(held)
            &&& forall|other: Held| #[trigger]
                with.contains(other) ==> other == held || assembly.pending.contains(other)
            &&& forall|other: Held|
                #[trigger] assembly.pending.contains(other) && other.seq != held.seq
                    ==> with.contains(other)
        }),
{
    let pending = assembly.pending;
    let with = inserted(pending, held);
    place_splits(pending, held.seq);
    let at = place(pending, held.seq) as int;
    assert(with[at] == held);
    if at < pending.len() && pending[at].seq == held.seq {
        assert forall|other: Held| #[trigger]
            pending.contains(other) && other.seq != held.seq implies with.contains(other) by {
            let i = choose|i: int| 0 <= i < pending.len() && pending[i] == other;
            assert(with[i] == other);
        }
    } else {
        assert forall|other: Held| #[trigger]
            pending.contains(other) && other.seq != held.seq implies with.contains(other) by {
            let i = choose|i: int| 0 <= i < pending.len() && pending[i] == other;
            assert(with[if i < at { i } else { i + 1 }] == other);
        }
        assert forall|other: Held| #[trigger] with.contains(other) implies other == held
            || pending.contains(other) by {
            let i = choose|i: int| 0 <= i < with.len() && with[i] == other;
            if i < at {
                assert(pending[i] == other);
            } else if i > at {
                assert(pending[i - 1] == other);
            }
        }
    }
}

/// Resolving the lowest fragments keeps the rest in order, and takes at least one
/// sequence number with it.
proof fn passing_is_sound(assembly: Assembly, count: nat)
    requires
        assembly.sound(),
        0 < count <= assembly.pending.len(),
    ensures
        assembly.past(count).sound(),
        (Assembly { abandoned: assembly.abandoned + 1, ..assembly.past(count) }).sound(),
        assembly.abandoned <= u32::MAX,
        !assembly.resolved(assembly.pending[count - 1].seq),
{
    let last = assembly.pending[count - 1];
    assert(!assembly.resolved(last.seq));
}

struct Fragment {
    seq: u32,
    marks: u8,
    timestamp: Option<u32>,
    bytes: Vec<u8>,
}

impl View for Fragment {
    type V = Held;

    closed spec fn view(&self) -> Held {
        Held { seq: self.seq, marks: self.marks, timestamp: self.timestamp, bytes: self.bytes@ }
    }
}

spec fn held(fragments: Seq<Fragment>) -> Seq<Held> {
    Seq::new(fragments.len(), |i: int| fragments[i]@)
}

/// One track's fragments, assembled into access units and emitted in `seq`
/// order, since a decoder fed out of order produces garbage.
pub struct Reassembler {
    /// In ascending order of `seq`.
    pending: Vec<Fragment>,
    emitted_through: Option<u32>,
    abandoned: u64,
    late: u64,
}

impl View for Reassembler {
    type V = Assembly;

    closed spec fn view(&self) -> Assembly {
        Assembly {
            pending: held(self.pending@),
            emitted_through: self.emitted_through,
            abandoned: self.abandoned as nat,
            late: self.late as nat,
        }
    }
}

impl Assembly {
    /// Fragments wait in order, none of them resolved, and every unit given up on
    /// took a sequence number of its own with it.
    pub open spec fn sound(self) -> bool {
        &&& ascending(self.pending)
        &&& forall|i: int|
            0 <= i < self.pending.len() ==> !self.resolved((#[trigger] self.pending[i]).seq)
        &&& self.abandoned <= match self.emitted_through {
            None => 0,
            Some(through) => through + 1,
        }
    }

    /// An assembly between arrivals: sound, bounded, and with nothing left to emit.
    pub open spec fn wf(self) -> bool {
        &&& self.sound()
        &&& self.pending.len() <= MAX_PENDING_FRAGMENTS
        &&& complete(self.pending) is None
    }
}

impl Default for Reassembler {
    fn default() -> (reassembler: Reassembler)
        ensures
            reassembler@ == Assembly::fresh(),
            reassembler@.wf(),
    {
        let reassembler = Reassembler {
            pending: Vec::new(),
            emitted_through: None,
            abandoned: 0,
            late: 0,
        };
        assert(reassembler@.pending =~= Seq::empty());
        reassembler
    }
}

impl Reassembler {
    /// Whatever became emittable, in `seq` order. Usually nothing or one unit.
    pub fn push(&mut self, seq: u32, payload: &[u8]) -> (units: Vec<AccessUnit>)
        requires
            old(self)@.wf(),
            old(self)@.late < u64::MAX,
        ensures
            final(self)@.wf(),
            (final(self)@, units_of(units@)) == old(self)@.pushed(seq, payload@),
    {
        let fragment = match parse(seq, payload) {
            Some(fragment) => fragment,
            None => {
                let none: Vec<AccessUnit> = Vec::new();
                assert(units_of(none@) =~= Seq::empty());
                return none;
            },
        };
        if let Some(through) = self.emitted_through {
            if seq <= through {
                self.late += 1;
                let none: Vec<AccessUnit> = Vec::new();
                assert(units_of(none@) =~= Seq::empty());
                return none;
            }
        }
        proof {
            inserting_is_sound(self@, fragment@);
        }
        self.insert(fragment);
        if self.pending.len() > MAX_PENDING_FRAGMENTS {
            self.abandon_lowest();
        }
        self.drain_complete()
    }

    /// Units given up on because a peer buried them under later fragments.
    pub fn abandoned(&self) -> (abandoned: u64)
        ensures
            abandoned == self@.abandoned,
    {
        self.abandoned
    }

    /// Fragments that arrived after their unit was resolved. Nonzero says the
    /// receiver gave up too early, rather than that the network lost anything.
    pub fn late_fragments(&self) -> (late: u64)
        ensures
            late == self@.late,
    {
        self.late
    }

    fn insert(&mut self, fragment: Fragment)
        requires
            old(self)@.sound(),
            old(self)@.pending.len() <= MAX_PENDING_FRAGMENTS,
        ensures
            final(self)@ == (Assembly {
                pending: inserted(old(self)@.pending, fragment@),
                ..old(self)@
            }),
    {
        let ghost whole = held(self.pending@);
        let mut at: usize = self.pending.len();
        assert(whole.take(at as int) =~= whole);
        while at > 0 && self.pending[at - 1].seq >= fragment.seq
            invariant
                at <= self.pending@.len(),
                whole == held(self.pending@),
                *self == *old(self),
                place(whole, fragment.seq) == place(whole.take(at as int), fragment.seq),
            decreases at,
        {
            assert(whole.take(at as int).drop_last() =~= whole.take(at - 1));
            at -= 1;
        }
        assert(at == place(whole, fragment.seq));
        if at < self.pending.len() && self.pending[at].seq == fragment.seq {
            self.pending.set(at, fragment);
        } else {
            self.pending.insert(at, fragment);
        }
        assert(held(self.pending@) =~= inserted(whole, fragment@));
    }

    fn drain_complete(&mut self) -> (units: Vec<AccessUnit>)
        requires
            old(self)@.sound(),
            old(self)@.pending.len() <= MAX_PENDING_FRAGMENTS,
        ensures
            final(self)@.wf(),
            (final(self)@, units_of(units@)) == old(self)@.drained(),
    {
        let mut units: Vec<AccessUnit> = Vec::new();
        assert(units_of(units@) + self@.drained().1 =~= self@.drained().1);
        loop
            invariant
                self@.sound(),
                self@.pending.len() <= MAX_PENDING_FRAGMENTS,
                old(self)@.drained() == (
                    self@.drained().0,
                    units_of(units@) + self@.drained().1,
                ),
            ensures
                self@.wf(),
                (self@, units_of(units@)) == old(self)@.drained(),
            decreases self@.pending.len(),
        {
            let ghost before = units@;
            let ghost assembly = self@;
            match self.take_lowest_complete() {
                Some(unit) => {
                    units.push(unit);
                    proof {
                        assert(units_of(units@) =~= units_of(before).push(unit@));
                        assert(units_of(units@) + self@.drained().1 =~= units_of(before)
                            + assembly.drained().1);
                    }
                },
                None => {
                    proof {
                        assert(units_of(units@) + self@.drained().1 =~= units_of(units@));
                    }
                    break;
                },
            }
        }
        units
    }

    fn take_lowest_complete(&mut self) -> (unit: Option<AccessUnit>)
        requires
            old(self)@.sound(),
        ensures
            match (unit, complete(old(self)@.pending)) {
                (Some(unit), Some(count)) => {
                    &&& 0 < count <= old(self)@.pending.len()
                    &&& unit@ == unit_of(old(self)@.pending.take(count as int))
                    &&& final(self)@ == old(self)@.past(count)
                    &&& final(self)@.sound()
                },
                (None, None) => *final(self) == *old(self),
                _ => false,
            },
    {
        let ghost whole = held(self.pending@);
        if self.pending.len() == 0 {
            return None;
        }
        if self.pending[0].marks & FIRST == 0 {
            return None;
        }
        let mut last: usize = 0;
        while self.pending[last].marks & LAST == 0
            invariant
                last < self.pending@.len(),
                *self == *old(self),
                whole == held(self.pending@),
                complete(whole) == run_end(whole, last as nat),
            decreases self.pending@.len() - last,
        {
            if self.pending.len() - last == 1 {
                return None;
            }
            let seq: u32 = self.pending[last].seq;
            if seq == u32::MAX || self.pending[last + 1].seq != seq + 1 {
                return None;
            }
            last += 1;
        }
        let count: usize = last + 1;
        let end: u32 = self.pending[last].seq;

        let left = self.pending.split_off(count);
        let mut bytes: Vec<u8> = Vec::new();
        let mut timestamp: Option<u32> = None;
        let mut i: usize = 0;
        while i < count
            invariant
                i <= count == self.pending@.len(),
                held(self.pending@) == whole.take(count as int),
                bytes@ == joined(whole.take(i as int)),
                timestamp == stamp(whole.take(i as int)),
                count <= whole.len(),
            decreases count - i,
        {
            assert(whole.take(i + 1).drop_last() =~= whole.take(i as int));
            assert(self.pending@[i as int]@ == held(self.pending@)[i as int]);
            if timestamp.is_none() {
                timestamp = self.pending[i].timestamp;
            }
            bytes.extend_from_slice(self.pending[i].bytes.as_slice());
            i += 1;
        }
        self.pending = left;
        self.emitted_through = Some(end);
        proof {
            assert(held(self.pending@) =~= whole.skip(count as int));
            passing_is_sound(old(self)@, count as nat);
        }
        Some(AccessUnit { bytes, timestamp, last_seq: end })
    }

    fn abandon_lowest(&mut self)
        requires
            old(self)@.sound(),
            old(self)@.pending.len() == MAX_PENDING_FRAGMENTS + 1,
        ensures
            final(self)@ == (Assembly {
                abandoned: old(self)@.abandoned + 1,
                ..old(self)@.past(unit_end(old(self)@.pending, 0))
            }),
            final(self)@.sound(),
            final(self)@.pending.len() <= MAX_PENDING_FRAGMENTS,
    {
        let ghost whole = held(self.pending@);
        let mut last: usize = 0;
        while last + 1 < self.pending.len() && self.pending[last].marks & LAST == 0
            && self.pending[last + 1].marks & FIRST == 0
            invariant
                last < self.pending@.len(),
                *self == *old(self),
                whole == held(self.pending@),
                whole.len() == MAX_PENDING_FRAGMENTS + 1,
                unit_end(whole, 0) == unit_end(whole, last as nat),
            decreases self.pending@.len() - last,
        {
            last += 1;
        }
        let end: u32 = self.pending[last].seq;
        let left = self.pending.split_off(last + 1);
        proof {
            passing_is_sound(old(self)@, (last + 1) as nat);
        }
        self.pending = left;
        self.emitted_through = Some(end);
        self.abandoned += 1;
        assert(held(self.pending@) =~= whole.skip(last + 1));
    }
}

fn parse(seq: u32, payload: &[u8]) -> (fragment: Option<Fragment>)
    ensures
        match (fragment, parsed(seq, payload@)) {
            (Some(fragment), Some(held)) => fragment@ == held,
            (None, None) => true,
            _ => false,
        },
{
    if payload.len() == 0 {
        return None;
    }
    let marks: u8 = payload[0];
    if marks & !KNOWN_MARKS != 0 {
        return None;
    }
    if marks & TIMESTAMP == 0 {
        let bytes = vstd::slice::slice_to_vec(
            vstd::slice::slice_subrange(payload, 1, payload.len()),
        );
        return Some(Fragment { seq, marks, timestamp: None, bytes });
    }
    if payload.len() < MARKS_BYTES + TIMESTAMP_BYTES {
        return None;
    }
    let ticks: u32 = wire::read_be32(payload, 1);
    let bytes = vstd::slice::slice_to_vec(vstd::slice::slice_subrange(payload, 5, payload.len()));
    Some(Fragment { seq, marks, timestamp: Some(ticks), bytes })
}

/// No fragment is larger than a datagram's payload budget.
pub proof fn every_fragment_fits(unit: Seq<u8>, timestamp: Option<u32>, i: int)
    requires
        0 <= i < fragments(unit, timestamp).len(),
    ensures
        0 < fragments(unit, timestamp)[i].len() <= PAYLOAD_BUDGET,
{
    if i > 0 {
        following_fits(rest(unit, first_budget(timestamp)), i - 1);
    }
}

proof fn following_fits(bytes: Seq<u8>, i: int)
    requires
        0 <= i < following(bytes).len(),
    ensures
        0 < following(bytes)[i].len() <= PAYLOAD_BUDGET,
    decreases bytes.len(),
{
    if i > 0 {
        following_fits(rest(bytes, CODEC_BUDGET as nat), i - 1);
    }
}

/// Arrivals one after the other: what they leave, and all that they complete.
pub open spec fn pushed_all(assembly: Assembly, arrivals: Seq<(u32, Seq<u8>)>) -> (
    Assembly,
    Seq<Unit>,
)
    decreases arrivals.len(),
{
    if arrivals.len() == 0 {
        (assembly, Seq::empty())
    } else {
        let (before, earlier) = pushed_all(assembly, arrivals.drop_last());
        let (after, units) = before.pushed(arrivals.last().0, arrivals.last().1);
        (after, earlier + units)
    }
}

/// Units in sequence order, all of them beyond `through`.
pub open spec fn in_order(units: Seq<Unit>, through: Option<u32>) -> bool {
    &&& forall|i: int, j: int|
        0 <= i < j < units.len() ==> units[i].last_seq < units[j].last_seq
    &&& forall|i: int|
        0 <= i < units.len() && through is Some ==> through->0 < (#[trigger] units[i]).last_seq
}

/// Whether everything resolved earlier still is.
pub open spec fn no_less(earlier: Option<u32>, later: Option<u32>) -> bool {
    earlier is Some ==> later is Some && earlier->0 <= later->0
}

proof fn draining_is_sound(assembly: Assembly)
    requires
        assembly.sound(),
    ensures
        ({
            let (left, units) = assembly.drained();
            &&& left.sound()
            &&& left.pending.len() <= assembly.pending.len()
            &&& complete(left.pending) is None
            &&& in_order(units, assembly.emitted_through)
            &&& no_less(assembly.emitted_through, left.emitted_through)
            &&& forall|i: int|
                0 <= i < units.len() ==> left.emitted_through is Some && (
                #[trigger] units[i]).last_seq <= left.emitted_through->0
        }),
    decreases assembly.pending.len(),
{
    let pending = assembly.pending;
    if let Some(count) = complete(pending) {
        run_end_shape(pending, 0);
        passing_is_sound(assembly, count);
        draining_is_sound(assembly.past(count));
        assert(pending.take(count as int).last() == pending[count - 1]);
        assert(pending.skip(count as int).len() < pending.len());
    }
}

proof fn run_end_shape(pending: Seq<Held>, from: nat)
    ensures
        run_end(pending, from) matches Some(count) ==> {
            &&& from < count <= pending.len()
            &&& marked(pending[count - 1].marks, LAST)
            &&& forall|i: int|
                from <= i < count ==> (#[trigger] pending[i]).seq == pending[from as int].seq + (i
                    - from)
        },
    decreases pending.len() - from,
{
    if from < pending.len() && !marked(pending[from as int].marks, LAST) {
        run_end_shape(pending, from + 1);
    }
}

/// An assembly between arrivals stays one, whatever arrives. What one arrival
/// completes comes out in sequence order, beyond everything resolved before.
pub proof fn an_arrival_emits_in_order(assembly: Assembly, seq: u32, payload: Seq<u8>)
    requires
        assembly.wf(),
    ensures
        ({
            let (left, units) = assembly.pushed(seq, payload);
            &&& left.wf()
            &&& in_order(units, assembly.emitted_through)
            &&& no_less(assembly.emitted_through, left.emitted_through)
            &&& forall|i: int|
                0 <= i < units.len() ==> left.emitted_through is Some && (
                #[trigger] units[i]).last_seq <= left.emitted_through->0
        }),
{
    if let Some(held) = parsed(seq, payload) {
        if !assembly.resolved(seq) {
            inserting_is_sound(assembly, held);
            let with = Assembly { pending: inserted(assembly.pending, held), ..assembly };
            if with.pending.len() > MAX_PENDING_FRAGMENTS {
                unit_end_shape(with.pending, 0);
                passing_is_sound(with, unit_end(with.pending, 0));
            }
            draining_is_sound(assembly.holding(held));
        }
    }
}

proof fn unit_end_shape(pending: Seq<Held>, from: nat)
    requires
        from < pending.len(),
    ensures
        from < unit_end(pending, from) <= pending.len(),
    decreases pending.len() - from,
{
    if !(from + 1 >= pending.len() || marked(pending[from as int].marks, LAST) || marked(
        pending[from as int + 1].marks,
        FIRST,
    )) {
        unit_end_shape(pending, from + 1);
    }
}

/// Whatever arrives, in whatever order, units are emitted in sequence order and
/// none twice.
pub proof fn units_are_emitted_in_order(arrivals: Seq<(u32, Seq<u8>)>)
    ensures
        ({
            let (left, units) = pushed_all(Assembly::fresh(), arrivals);
            &&& left.wf()
            &&& in_order(units, None)
            &&& forall|i: int|
                0 <= i < units.len() ==> left.emitted_through is Some && (
                #[trigger] units[i]).last_seq <= left.emitted_through->0
        }),
    decreases arrivals.len(),
{
    if arrivals.len() > 0 {
        units_are_emitted_in_order(arrivals.drop_last());
        let (before, earlier) = pushed_all(Assembly::fresh(), arrivals.drop_last());
        an_arrival_emits_in_order(before, arrivals.last().0, arrivals.last().1);
        let (after, units) = before.pushed(arrivals.last().0, arrivals.last().1);
        let all = earlier + units;
        assert forall|i: int, j: int| 0 <= i < j < all.len() implies all[i].last_seq
            < all[j].last_seq by {
            if i < earlier.len() {
                assert(all[i] == earlier[i]);
                if j < earlier.len() {
                    assert(all[j] == earlier[j]);
                } else {
                    assert(all[j] == units[j - earlier.len()]);
                }
            } else {
                assert(all[i] == units[i - earlier.len()]);
                assert(all[j] == units[j - earlier.len()]);
            }
        }
    }
}

/// Only a fragment of a unit already resolved counts as late.
pub proof fn late_counts_resolved_arrivals(assembly: Assembly, seq: u32, payload: Seq<u8>)
    ensures
        assembly.pushed(seq, payload).0.late == assembly.late + if parsed(seq, payload) is Some
            && assembly.resolved(seq) {
            1nat
        } else {
            0nat
        },
{
    if let Some(held) = parsed(seq, payload) {
        if !assembly.resolved(seq) {
            draining_keeps_late(assembly.holding(held));
        }
    }
}

proof fn draining_keeps_late(assembly: Assembly)
    ensures
        assembly.drained().0.late == assembly.late,
    decreases assembly.pending.len(),
{
    match complete(assembly.pending) {
        Some(count) if 0 < count <= assembly.pending.len() => {
            draining_keeps_late(assembly.past(count));
        },
        _ => {},
    }
}

/// A fragment that is already waiting changes nothing when it arrives again.
pub proof fn a_duplicate_changes_nothing(assembly: Assembly, seq: u32, payload: Seq<u8>)
    requires
        assembly.wf(),
        parsed(seq, payload) is Some,
        assembly.pending.contains(parsed(seq, payload)->0),
    ensures
        assembly.pushed(seq, payload) == (assembly, Seq::<Unit>::empty()),
{
    let held = parsed(seq, payload)->0;
    let i = choose|i: int| 0 <= i < assembly.pending.len() && assembly.pending[i] == held;
    assert(!assembly.resolved(seq));
    place_splits(assembly.pending, seq);
    let at = place(assembly.pending, seq) as int;
    assert(assembly.pending[i].seq == seq);
    assert(i >= at && assembly.pending[at].seq >= seq);
    assert(inserted(assembly.pending, held) =~= assembly.pending);
}

/// Whether a fragment waits, or the unit it belongs to is resolved.
pub open spec fn is_kept(assembly: Assembly, held: Held) -> bool {
    assembly.resolved(held.seq) || assembly.pending.contains(held)
}

proof fn passing_keeps(assembly: Assembly, count: nat, held: Held)
    requires
        assembly.sound(),
        0 < count <= assembly.pending.len(),
        is_kept(assembly, held),
    ensures
        is_kept(assembly.past(count), held),
{
    let pending = assembly.pending;
    let last = pending[count - 1];
    if assembly.resolved(held.seq) {
        assert(!assembly.resolved(last.seq));
    } else {
        let i = choose|i: int| 0 <= i < pending.len() && pending[i] == held;
        if i < count - 1 {
            assert(pending[i].seq < last.seq);
        } else if i >= count {
            assert(pending.skip(count as int)[i - count] == held);
        }
    }
}

proof fn draining_keeps(assembly: Assembly, held: Held)
    requires
        assembly.sound(),
        is_kept(assembly, held),
    ensures
        is_kept(assembly.drained().0, held),
    decreases assembly.pending.len(),
{
    if let Some(count) = complete(assembly.pending) {
        run_end_shape(assembly.pending, 0);
        passing_is_sound(assembly, count);
        passing_keeps(assembly, count, held);
        draining_keeps(assembly.past(count), held);
    }
}

/// A fragment is kept when it arrives, and stays so unless another payload arrives
/// under its number.
proof fn an_arrival_keeps(assembly: Assembly, seq: u32, payload: Seq<u8>, held: Held)
    requires
        assembly.wf(),
        parsed(seq, payload) == Some(held) || is_kept(assembly, held) && seq != held.seq,
    ensures
        is_kept(assembly.pushed(seq, payload).0, held),
{
    if let Some(arrived) = parsed(seq, payload) {
        if !assembly.resolved(seq) {
            inserting_is_sound(assembly, arrived);
            let with = Assembly { pending: inserted(assembly.pending, arrived), ..assembly };
            assert(is_kept(with, held));
            if with.pending.len() > MAX_PENDING_FRAGMENTS {
                let count = unit_end(with.pending, 0);
                unit_end_shape(with.pending, 0);
                passing_is_sound(with, count);
                passing_keeps(with, count, held);
                assert(is_kept(assembly.holding(arrived), held));
            }
            draining_keeps(assembly.holding(arrived), held);
        }
    }
}

/// A fragment once pushed either waits or is resolved, as long as no other payload
/// arrives under its number afterwards.
pub proof fn a_pushed_fragment_is_kept(
    assembly: Assembly,
    arrivals: Seq<(u32, Seq<u8>)>,
    j: int,
)
    requires
        assembly.wf(),
        0 <= j < arrivals.len(),
        parsed(arrivals[j].0, arrivals[j].1) is Some,
        forall|k: int|
            j < k < arrivals.len() && (#[trigger] arrivals[k]).0 == arrivals[j].0 ==> arrivals[k].1
                == arrivals[j].1,
    ensures
        ({
            let held = parsed(arrivals[j].0, arrivals[j].1)->0;
            let after = pushed_all(assembly, arrivals).0;
            &&& after.wf()
            &&& after.resolved(held.seq) || after.pending.contains(held)
        }),
    decreases arrivals.len(),
{
    let held = parsed(arrivals[j].0, arrivals[j].1)->0;
    let earlier = arrivals.drop_last();
    let before = pushed_all(assembly, earlier).0;
    let (seq, payload) = arrivals.last();
    pushing_stays_sound(assembly, earlier);
    if j < earlier.len() {
        assert(earlier[j] == arrivals[j]);
        assert forall|k: int| j < k < earlier.len() && (#[trigger] earlier[k]).0
            == earlier[j].0 implies earlier[k].1 == earlier[j].1 by {
            assert(arrivals[k] == earlier[k]);
        }
        a_pushed_fragment_is_kept(assembly, earlier, j);
        assert(arrivals[arrivals.len() - 1] == (seq, payload));
    }
    an_arrival_keeps(before, seq, payload, held);
    an_arrival_emits_in_order(before, seq, payload);
}

proof fn pushing_stays_sound(assembly: Assembly, arrivals: Seq<(u32, Seq<u8>)>)
    requires
        assembly.wf(),
    ensures
        pushed_all(assembly, arrivals).0.wf(),
    decreases arrivals.len(),
{
    if arrivals.len() > 0 {
        pushing_stays_sound(assembly, arrivals.drop_last());
        an_arrival_emits_in_order(
            pushed_all(assembly, arrivals.drop_last()).0,
            arrivals.last().0,
            arrivals.last().1,
        );
    }
}

/// A fragment that arrives again, with no other payload under its number in between,
/// completes nothing and changes nothing that waits. At most it is counted as late.
pub proof fn a_repeated_fragment_changes_nothing(
    assembly: Assembly,
    arrivals: Seq<(u32, Seq<u8>)>,
    j: int,
)
    requires
        assembly.wf(),
        0 <= j < arrivals.len(),
        parsed(arrivals[j].0, arrivals[j].1) is Some,
        forall|k: int|
            j < k < arrivals.len() && (#[trigger] arrivals[k]).0 == arrivals[j].0 ==> arrivals[k].1
                == arrivals[j].1,
    ensures
        ({
            let (seq, payload) = arrivals[j];
            let before = pushed_all(assembly, arrivals).0;
            let (after, units) = before.pushed(seq, payload);
            &&& units == Seq::<Unit>::empty()
            &&& after == (Assembly {
                late: before.late + if before.resolved(seq) {
                    1nat
                } else {
                    0nat
                },
                ..before
            })
        }),
{
    let (seq, payload) = arrivals[j];
    let before = pushed_all(assembly, arrivals).0;
    a_pushed_fragment_is_kept(assembly, arrivals, j);
    if !before.resolved(seq) {
        a_duplicate_changes_nothing(before, seq, payload);
    }
}

/// The fragments that payloads numbered from `from` hold.
pub open spec fn numbered(payloads: Seq<Seq<u8>>, from: int) -> Seq<Held> {
    Seq::new(payloads.len(), |i: int| parsed((from + i) as u32, payloads[i])->0)
}

proof fn a_payload_parses(
    seq: u32,
    first: bool,
    last: bool,
    timestamp: Option<u32>,
    bytes: Seq<u8>,
)
    ensures
        parsed(seq, payload_of(first, last, timestamp, bytes)) == Some(
            Held { seq, marks: marks(first, last, timestamp is Some), timestamp, bytes },
        ),
{
    marks_tell(first, last, timestamp is Some);
    let payload = payload_of(first, last, timestamp, bytes);
    match timestamp {
        None => {
            assert(payload.skip(1) =~= bytes);
        },
        Some(ticks) => {
            wire::be32_round_trips(ticks);
            assert(payload.subrange(1, 5) =~= wire::be32(ticks));
            assert(payload.skip(5) =~= bytes);
        },
    }
}

proof fn joining_one(held: Held)
    ensures
        joined(seq![held]) == held.bytes,
        stamp(seq![held]) == held.timestamp,
{
    let none = seq![held].drop_last();
    assert(none =~= Seq::empty());
    assert(joined(none) =~= Seq::empty());
    assert(joined(seq![held]) =~= held.bytes);
    assert(stamp(none) is None);
}

proof fn joining_splits(front: Seq<Held>, back: Seq<Held>)
    ensures
        joined(front + back) == joined(front) + joined(back),
        stamp(front + back) == (match stamp(front) {
            Some(ticks) => Some(ticks),
            None => stamp(back),
        }),
    decreases back.len(),
{
    if back.len() == 0 {
        assert(front + back =~= front);
        assert(joined(front) + joined(back) =~= joined(front));
    } else {
        assert((front + back).drop_last() =~= front + back.drop_last());
        joining_splits(front, back.drop_last());
        assert(joined(front + back) =~= joined(front) + joined(back));
    }
}

/// Fragments that are one whole unit: numbered without a gap, the first of them
/// and no other marked first, the last and no other marked last.
pub open spec fn is_whole(run: Seq<Held>) -> bool {
    &&& run.len() > 0
    &&& forall|i: int|
        0 <= i < run.len() ==> {
            &&& (#[trigger] run[i]).seq == run[0].seq + i
            &&& marked(run[i].marks, FIRST) == (i == 0)
            &&& marked(run[i].marks, LAST) == (i == run.len() - 1)
        }
}

proof fn following_holds(bytes: Seq<u8>, from: int)
    requires
        0 <= from,
        from + following(bytes).len() <= u32::MAX + 1,
    ensures
        ({
            let payloads = following(bytes);
            let run = numbered(payloads, from);
            &&& payloads.len() == 0 <==> bytes.len() == 0
            &&& joined(run) == bytes
            &&& stamp(run) is None
            &&& forall|i: int|
                0 <= i < payloads.len() ==> {
                    &&& parsed((from + i) as u32, #[trigger] payloads[i]) is Some
                    &&& run[i].seq == from + i
                    &&& !marked(run[i].marks, FIRST)
                    &&& marked(run[i].marks, LAST) == (i == run.len() - 1)
                }
        }),
    decreases bytes.len(),
{
    let payloads = following(bytes);
    let run = numbered(payloads, from);
    if bytes.len() > 0 {
        let left = rest(bytes, CODEC_BUDGET as nat);
        let bit = head(bytes, CODEC_BUDGET as nat);
        let first = Held {
            seq: from as u32,
            marks: marks(false, left.len() == 0, false),
            timestamp: None,
            bytes: bit,
        };
        a_payload_parses(from as u32, false, left.len() == 0, None, bit);
        marks_tell(false, left.len() == 0, false);
        following_holds(left, from + 1);
        let tail = numbered(following(left), from + 1);
        assert forall|i: int| 0 < i < payloads.len() implies #[trigger] payloads[i] == following(
            left,
        )[i - 1] by {}
        assert forall|i: int| 0 < i < payloads.len() implies run[i] == tail[i - 1] by {
            assert(payloads[i] == following(left)[i - 1]);
        }
        assert(run =~= seq![first] + tail);
        joining_splits(seq![first], tail);
        joining_one(first);
        assert(bit + left =~= bytes);
    } else {
        assert(run =~= Seq::empty());
    }
}

/// The fragments of a unit are whole, and hold the unit and its timestamp.
pub proof fn fragments_hold_the_unit(unit: Seq<u8>, timestamp: Option<u32>, from: u32)
    requires
        from + fragments(unit, timestamp).len() <= u32::MAX + 1,
    ensures
        ({
            let payloads = fragments(unit, timestamp);
            let run = numbered(payloads, from as int);
            &&& is_whole(run)
            &&& run[0].seq == from
            &&& joined(run) == unit
            &&& stamp(run) == timestamp
            &&& forall|i: int|
                0 <= i < payloads.len() ==> parsed(
                    (from + i) as u32,
                    #[trigger] payloads[i],
                ) is Some
        }),
{
    let payloads = fragments(unit, timestamp);
    let run = numbered(payloads, from as int);
    let left = rest(unit, first_budget(timestamp));
    let bit = head(unit, first_budget(timestamp));
    let first = Held {
        seq: from,
        marks: marks(true, left.len() == 0, timestamp is Some),
        timestamp,
        bytes: bit,
    };
    a_payload_parses(from, true, left.len() == 0, timestamp, bit);
    marks_tell(true, left.len() == 0, timestamp is Some);
    following_holds(left, from + 1);
    let tail = numbered(following(left), from + 1);
    assert forall|i: int| 0 < i < payloads.len() implies #[trigger] payloads[i] == following(
        left,
    )[i - 1] by {}
    assert forall|i: int| 0 < i < payloads.len() implies run[i] == tail[i - 1] by {
        assert(payloads[i] == following(left)[i - 1]);
    }
    assert(run =~= seq![first] + tail);
    joining_splits(seq![first], tail);
    joining_one(first);
    assert(bit + left =~= unit);
}

proof fn a_whole_run_is_complete(run: Seq<Held>, from: nat)
    requires
        is_whole(run),
        from < run.len(),
    ensures
        run_end(run, from) == Some(run.len()),
    decreases run.len() - from,
{
    let held = run[from as int];
    if from + 1 < run.len() {
        assert(run[from as int + 1].seq == held.seq + 1);
        a_whole_run_is_complete(run, from + 1);
    }
}

/// Part of a whole run makes nothing that is complete.
proof fn a_partial_run_is_not_complete(pending: Seq<Held>, run: Seq<Held>, absent: int)
    requires
        is_whole(run),
        ascending(pending),
        forall|j: int| 0 <= j < pending.len() ==> run.contains(#[trigger] pending[j]),
        0 <= absent < run.len(),
        !pending.contains(run[absent]),
    ensures
        complete(pending) is None,
{
    if let Some(count) = complete(pending) {
        run_end_shape(pending, 0);
        assert(run.contains(pending[0]));
        assert(pending[0] == run[0]);
        assert forall|i: int| 0 <= i < count implies i < run.len() && #[trigger] pending[i]
            == run[i] by {
            assert(run.contains(pending[i]));
            let k = choose|k: int| 0 <= k < run.len() && run[k] == pending[i];
            assert(run[k].seq == run[0].seq + k);
        }
        assert(pending[count - 1] == run[count - 1]);
        assert(count == run.len());
        assert(pending[absent] == run[absent]);
    }
}

/// A run in order that holds all of a whole run is that run.
proof fn a_full_run_is_whole(pending: Seq<Held>, run: Seq<Held>, upto: nat)
    requires
        is_whole(run),
        ascending(pending),
        forall|j: int| 0 <= j < pending.len() ==> run.contains(#[trigger] pending[j]),
        forall|i: int| 0 <= i < run.len() ==> pending.contains(#[trigger] run[i]),
        upto <= run.len(),
    ensures
        upto <= pending.len(),
        forall|i: int| 0 <= i < upto ==> #[trigger] pending[i] == run[i],
        upto == run.len() ==> pending == run,
    decreases upto,
{
    if upto > 0 {
        let i = upto - 1;
        a_full_run_is_whole(pending, run, i as nat);
        assert(pending.contains(run[i]));
        let j = choose|j: int| 0 <= j < pending.len() && pending[j] == run[i];
        if j < i {
            assert(pending[j] == run[j]);
        }
        if j > i {
            assert(run.contains(pending[i]));
            let k = choose|k: int| 0 <= k < run.len() && run[k] == pending[i];
            assert(pending[i].seq < pending[j].seq);
            assert(pending[k] == run[k]);
        }
    }
    if upto == run.len() {
        if pending.len() > upto {
            let extra = pending[upto as int];
            assert(run.contains(extra));
            let k = choose|k: int| 0 <= k < run.len() && run[k] == extra;
            assert(pending[k] == run[k]);
        }
        assert(pending =~= run);
    }
}

/// The payloads of a unit as they arrive, each under its own number.
pub open spec fn arriving(payloads: Seq<Seq<u8>>, from: u32, order: Seq<int>) -> Seq<
    (u32, Seq<u8>),
> {
    Seq::new(order.len(), |k: int| ((from + order[k]) as u32, payloads[order[k]]))
}

/// Whether an order of arrival takes each of `count` fragments exactly once.
pub open spec fn is_shuffle(order: Seq<int>, count: nat) -> bool {
    &&& order.no_duplicates()
    &&& forall|i: int| order.contains(i) <==> 0 <= i < count
}

proof fn some_have_arrived(
    assembly: Assembly,
    unit: Seq<u8>,
    timestamp: Option<u32>,
    from: u32,
    order: Seq<int>,
    upto: nat,
)
    requires
        assembly.wf(),
        assembly.pending.len() == 0,
        !assembly.resolved(from),
        from + fragments(unit, timestamp).len() <= u32::MAX + 1,
        fragments(unit, timestamp).len() <= MAX_PENDING_FRAGMENTS,
        is_shuffle(order, fragments(unit, timestamp).len()),
        order.len() == fragments(unit, timestamp).len(),
        upto < order.len(),
    ensures
        ({
            let payloads = fragments(unit, timestamp);
            let run = numbered(payloads, from as int);
            let (left, units) = pushed_all(
                assembly,
                arriving(payloads, from, order).take(upto as int),
            );
            &&& units.len() == 0
            &&& left == (Assembly { pending: left.pending, ..assembly })
            &&& left.wf()
            &&& left.pending.len() <= upto
            &&& forall|j: int|
                0 <= j < left.pending.len() ==> exists|k: int|
                    0 <= k < upto && #[trigger] run[order[k]] == #[trigger] left.pending[j]
            &&& forall|k: int|
                0 <= k < upto ==> left.pending.contains(run[#[trigger] order[k]])
        }),
    decreases upto,
{
    let payloads = fragments(unit, timestamp);
    let run = numbered(payloads, from as int);
    let arrivals = arriving(payloads, from, order);
    fragments_hold_the_unit(unit, timestamp, from);
    if upto > 0 {
        let last = (upto - 1) as nat;
        some_have_arrived(assembly, unit, timestamp, from, order, last);
        assert(arrivals.take(upto as int).drop_last() =~= arrivals.take(last as int));
        let (before, _) = pushed_all(assembly, arrivals.take(last as int));
        one_more_arrives(before, assembly, payloads, from, order, last);
        let with = inserted(before.pending, run[order[last as int]]);
        assert(order.contains(order[upto as int]));
        assert forall|j: int| 0 <= j < with.len() implies run.contains(#[trigger] with[j]) by {
            let k = choose|k: int| 0 <= k < upto && run[order[k]] == with[j];
            assert(order.contains(order[k]));
        }
        if with.contains(run[order[upto as int]]) {
            let j = choose|j: int| 0 <= j < with.len() && with[j] == run[order[upto as int]];
            let k = choose|k: int| 0 <= k < upto && run[order[k]] == with[j];
            assert(order.contains(order[k]));
            assert(run[order[k]].seq == from + order[k]);
            assert(run[order[upto as int]].seq == from + order[upto as int]);
        }
        a_partial_run_is_not_complete(with, run, order[upto as int]);
    } else {
        assert(arrivals.take(0) =~= Seq::empty());
    }
}

/// What the arrival of the fragment after the first `upto` does, short of draining.
proof fn one_more_arrives(
    before: Assembly,
    assembly: Assembly,
    payloads: Seq<Seq<u8>>,
    from: u32,
    order: Seq<int>,
    upto: nat,
)
    requires
        assembly.pending.len() == 0,
        !assembly.resolved(from),
        from + payloads.len() <= u32::MAX + 1,
        payloads.len() <= MAX_PENDING_FRAGMENTS,
        is_shuffle(order, payloads.len()),
        upto < order.len() == payloads.len(),
        is_whole(numbered(payloads, from as int)),
        numbered(payloads, from as int)[0].seq == from,
        forall|i: int|
            0 <= i < payloads.len() ==> parsed((from + i) as u32, #[trigger] payloads[i]) is Some,
        before == (Assembly { pending: before.pending, ..assembly }),
        before.wf(),
        before.pending.len() <= upto,
        forall|j: int|
            0 <= j < before.pending.len() ==> exists|k: int|
                0 <= k < upto && #[trigger] numbered(payloads, from as int)[order[k]]
                    == #[trigger] before.pending[j],
        forall|k: int|
            0 <= k < upto ==> before.pending.contains(
                numbered(payloads, from as int)[#[trigger] order[k]],
            ),
    ensures
        ({
            let run = numbered(payloads, from as int);
            let with = inserted(before.pending, run[order[upto as int]]);
            let (seq, payload) = arriving(payloads, from, order)[upto as int];
            &&& before.pushed(seq, payload) == (Assembly { pending: with, ..assembly }).drained()
            &&& (Assembly { pending: with, ..assembly }).sound()
            &&& with.len() <= upto + 1
            &&& forall|j: int|
                0 <= j < with.len() ==> exists|k: int|
                    0 <= k < upto + 1 && #[trigger] run[order[k]] == #[trigger] with[j]
            &&& forall|k: int| 0 <= k < upto + 1 ==> with.contains(run[#[trigger] order[k]])
        }),
{
    let run = numbered(payloads, from as int);
    let now = order[upto as int];
    assert(order.contains(now));
    let held = run[now];
    let (seq, payload) = arriving(payloads, from, order)[upto as int];
    assert(parsed((from + now) as u32, payloads[now]) is Some);
    assert(held.seq == from + now);
    assert(parsed(seq, payload) == Some(held));
    assert(!before.resolved(seq));
    inserting_is_sound(before, held);
    let with = inserted(before.pending, held);
    assert forall|j: int| 0 <= j < with.len() implies exists|k: int|
        0 <= k < upto + 1 && #[trigger] run[order[k]] == #[trigger] with[j] by {
        assert(with.contains(with[j]));
        if with[j] == held {
            assert(run[order[upto as int]] == with[j]);
        } else {
            assert(before.pending.contains(with[j]));
            let i = choose|i: int| 0 <= i < before.pending.len() && before.pending[i] == with[j];
            let k = choose|k: int| 0 <= k < upto && run[order[k]] == before.pending[i];
            assert(run[order[k]] == with[j]);
        }
    }
    assert forall|k: int| 0 <= k < upto + 1 implies with.contains(run[#[trigger] order[k]]) by {
        if k < upto {
            assert(order.contains(order[k]));
            assert(run[order[k]].seq == from + order[k]);
            assert(before.pending.contains(run[order[k]]));
        }
    }
}

/// A unit of at most as many fragments as may wait comes back whole, once, with
/// the arrival of its last missing fragment, in whatever order they arrive.
pub proof fn a_unit_survives_reordering(
    assembly: Assembly,
    unit: Seq<u8>,
    timestamp: Option<u32>,
    from: u32,
    order: Seq<int>,
)
    requires
        assembly.wf(),
        assembly.pending.len() == 0,
        !assembly.resolved(from),
        from + fragments(unit, timestamp).len() <= u32::MAX + 1,
        fragments(unit, timestamp).len() <= MAX_PENDING_FRAGMENTS,
        is_shuffle(order, fragments(unit, timestamp).len()),
        order.len() == fragments(unit, timestamp).len(),
    ensures
        ({
            let payloads = fragments(unit, timestamp);
            let last_seq = (from + payloads.len() - 1) as u32;
            pushed_all(assembly, arriving(payloads, from, order)) == (
                Assembly { emitted_through: Some(last_seq), ..assembly },
                seq![Unit { bytes: unit, timestamp, last_seq }],
            )
        }),
{
    let payloads = fragments(unit, timestamp);
    let run = numbered(payloads, from as int);
    let arrivals = arriving(payloads, from, order);
    let count = payloads.len();
    let upto = (count - 1) as nat;
    let last_seq = (from + count - 1) as u32;
    fragments_hold_the_unit(unit, timestamp, from);
    some_have_arrived(assembly, unit, timestamp, from, order, upto);
    assert(arrivals.drop_last() =~= arrivals.take(upto as int));
    let (before, _) = pushed_all(assembly, arrivals.drop_last());
    one_more_arrives(before, assembly, payloads, from, order, upto);
    let with = inserted(before.pending, run[order[upto as int]]);
    let whole = Assembly { pending: with, ..assembly };
    assert forall|j: int| 0 <= j < with.len() implies run.contains(#[trigger] with[j]) by {
        let k = choose|k: int| 0 <= k < upto + 1 && run[order[k]] == with[j];
        assert(order.contains(order[k]));
    }
    assert forall|i: int| 0 <= i < run.len() implies with.contains(#[trigger] run[i]) by {
        assert(order.contains(i));
        let k = choose|k: int| 0 <= k < order.len() && order[k] == i;
        assert(with.contains(run[order[k]]));
    }
    a_full_run_is_whole(with, run, run.len());
    a_whole_run_is_complete(run, 0);
    assert(complete(with) == Some(count));
    assert(run.take(count as int) =~= run);
    assert(run[count - 1].seq == from + count - 1);
    let left = whole.past(count);
    assert(left.pending =~= Seq::empty());
    assert(assembly.pending =~= Seq::empty());
    assert(left == (Assembly { emitted_through: Some(last_seq), ..assembly }));
    assert(left.drained() == (left, Seq::<Unit>::empty()));
    assert(whole.drained().1 =~= seq![Unit { bytes: unit, timestamp, last_seq }]);
    assert(Seq::<Unit>::empty() + whole.drained().1 =~= whole.drained().1);
    assert(pushed_all(assembly, arrivals.drop_last()).1 =~= Seq::empty());
}

proof fn pushing_splits(
    assembly: Assembly,
    front: Seq<(u32, Seq<u8>)>,
    back: Seq<(u32, Seq<u8>)>,
)
    ensures
        ({
            let (middle, earlier) = pushed_all(assembly, front);
            let (left, later) = pushed_all(middle, back);
            pushed_all(assembly, front + back) == (left, earlier + later)
        }),
    decreases back.len(),
{
    let (middle, earlier) = pushed_all(assembly, front);
    if back.len() == 0 {
        assert(front + back =~= front);
        assert(earlier + Seq::<Unit>::empty() =~= earlier);
    } else {
        assert((front + back).drop_last() =~= front + back.drop_last());
        pushing_splits(assembly, front, back.drop_last());
        let (before, later) = pushed_all(middle, back.drop_last());
        let (_, units) = before.pushed(back.last().0, back.last().1);
        assert((earlier + later) + units =~= earlier + (later + units));
    }
}

/// The payloads of units sent one after the other.
pub open spec fn stream(units: Seq<(Seq<u8>, Option<u32>)>) -> Seq<Seq<u8>>
    decreases units.len(),
{
    if units.len() == 0 {
        Seq::empty()
    } else {
        stream(units.drop_last()) + fragments(units.last().0, units.last().1)
    }
}

/// Payloads that arrive as they were numbered.
pub open spec fn in_sequence(payloads: Seq<Seq<u8>>, from: u32) -> Seq<(u32, Seq<u8>)> {
    Seq::new(payloads.len(), |k: int| ((from + k) as u32, payloads[k]))
}

/// Units sent one after the other, none of more fragments than may wait, come back
/// one for one.
pub proof fn a_stream_survives(
    assembly: Assembly,
    units: Seq<(Seq<u8>, Option<u32>)>,
    from: u32,
)
    requires
        assembly.wf(),
        assembly.pending.len() == 0,
        !assembly.resolved(from),
        from + stream(units).len() <= u32::MAX + 1,
        forall|i: int|
            0 <= i < units.len() ==> fragments((#[trigger] units[i]).0, units[i].1).len()
                <= MAX_PENDING_FRAGMENTS,
    ensures
        ({
            let (left, emitted) = pushed_all(assembly, in_sequence(stream(units), from));
            &&& emitted == Seq::new(
                units.len(),
                |i: int|
                    Unit {
                        bytes: units[i].0,
                        timestamp: units[i].1,
                        last_seq: (from + stream(units.take(i + 1)).len() - 1) as u32,
                    },
            )
            &&& left.wf()
            &&& left.pending.len() == 0
            &&& units.len() == 0 ==> left == assembly
            &&& units.len() > 0 ==> stream(units).len() > 0 && left.emitted_through == Some(
                (from + stream(units).len() - 1) as u32,
            )
        }),
    decreases units.len(),
{
    let expected = Seq::new(
        units.len(),
        |i: int|
            Unit {
                bytes: units[i].0,
                timestamp: units[i].1,
                last_seq: (from + stream(units.take(i + 1)).len() - 1) as u32,
            },
    );
    if units.len() == 0 {
        assert(in_sequence(stream(units), from) =~= Seq::empty());
        assert(expected =~= Seq::empty());
    } else {
        let earlier = units.drop_last();
        let (unit, timestamp) = units.last();
        let payloads = fragments(unit, timestamp);
        let base = stream(earlier).len();
        assert forall|i: int| 0 <= i < earlier.len() implies fragments(
            (#[trigger] earlier[i]).0,
            earlier[i].1,
        ).len() <= MAX_PENDING_FRAGMENTS by {
            assert(earlier[i] == units[i]);
        }
        assert(units[units.len() - 1] == (unit, timestamp));
        a_stream_survives(assembly, earlier, from);
        let front = in_sequence(stream(earlier), from);
        let back = in_sequence(payloads, (from + base) as u32);
        assert(in_sequence(stream(units), from) =~= front + back);
        pushing_splits(assembly, front, back);
        let (middle, before) = pushed_all(assembly, front);
        let order = Seq::new(payloads.len(), |i: int| i);
        assert forall|i: int| order.contains(i) <==> 0 <= i < payloads.len() by {
            if 0 <= i < payloads.len() {
                assert(order[i] == i);
            }
        }
        assert(back =~= arriving(payloads, (from + base) as u32, order));
        let last_seq = (from + base + payloads.len() - 1) as u32;
        a_unit_survives_reordering(middle, unit, timestamp, (from + base) as u32, order);
        let now = Unit { bytes: unit, timestamp, last_seq };
        assert(units.take(units.len() as int) =~= units);
        assert forall|i: int| 0 <= i < earlier.len() implies before[i] == expected[i] by {
            assert(earlier.take(i + 1) =~= units.take(i + 1));
        }
        assert(before + seq![now] =~= expected);
        let left = pushed_all(middle, back).0;
        assert(left.pending =~= Seq::empty());
    }
}

/// Where the runs that make up a sequence end, each from where the one before it
/// does.
proof fn draining_accounts(assembly: Assembly) -> (ends: Seq<nat>)
    requires
        assembly.sound(),
    ensures
        ({
            let (left, units) = assembly.drained();
            let pending = assembly.pending;
            &&& ends.len() == units.len() + 1
            &&& ends[0] == 0
            &&& ends.last() <= pending.len()
            &&& left.pending == pending.skip(ends.last() as int)
            &&& left.abandoned == assembly.abandoned
            &&& left.late == assembly.late
            &&& left.emitted_through == if ends.last() == 0 {
                assembly.emitted_through
            } else {
                Some(pending[ends.last() - 1].seq)
            }
            &&& forall|i: int|
                0 <= i < units.len() ==> #[trigger] is_cut_out(pending, ends, i, units[i])
        }),
    decreases assembly.pending.len(),
{
    let pending = assembly.pending;
    let (left, units) = assembly.drained();
    match complete(pending) {
        Some(count) => {
            run_end_shape(pending, 0);
            run_end_is_the_first(pending, 0);
            passing_is_sound(assembly, count);
            let next = assembly.past(count);
            let (_, later) = next.drained();
            let beyond = draining_accounts(next);
            let ends = seq![0nat] + Seq::new(beyond.len(), |i: int| beyond[i] + count);
            assert(pending.skip(count as int).skip(beyond.last() as int) =~= pending.skip(
                ends.last() as int,
            ));
            if later.len() > 0 {
                assert(is_cut_out(next.pending, beyond, 0, later[0]));
            }
            let run = pending.take(count as int);
            joining_is_flattening(run);
            stamp_is_the_first(run);
            assert(pending.subrange(0, count as int) =~= run);
            assert forall|i: int| 0 <= i < units.len() implies #[trigger] is_cut_out(
        pending,
        ends,
        i,
        units[i],
    ) by {
                if i == 0 {
                    assert(units[0] == unit_of(run));
                    assert(beyond[0] == 0);
                } else {
                    assert(units[i] == later[i - 1]);
                    assert(is_cut_out(next.pending, beyond, i - 1, later[i - 1]));
                    assert(next.pending.subrange(beyond[i - 1] as int, beyond[i] as int)
                        =~= pending.subrange(ends[i] as int, ends[i + 1] as int));
                }
            }
            ends
        },
        None => {
            assert(pending.skip(0) =~= pending);
            seq![0nat]
        },
    }
}

/// Whether fragments are a whole unit and `unit` is what they hold: numbered without
/// a gap, opened by a first and closed by the only last, their bytes one behind the
/// other under the first timestamp that any of them carries.
pub open spec fn is_unit_of(run: Seq<Held>, unit: Unit) -> bool {
    &&& run.len() > 0
    &&& run[0].marks & 1 != 0
    &&& forall|i: int|
        0 <= i < run.len() ==> (#[trigger] run[i]).seq == run[0].seq + i && (run[i].marks & 2 != 0
            <==> i == run.len() - 1)
    &&& unit.last_seq == run[run.len() - 1].seq
    &&& unit.bytes == run.map_values(|held: Held| held.bytes).flatten()
    &&& match unit.timestamp {
        None => forall|i: int| 0 <= i < run.len() ==> (#[trigger] run[i]).timestamp is None,
        Some(ticks) => exists|i: int|
            0 <= i < run.len() && (#[trigger] run[i]).timestamp == Some(ticks) && forall|j: int|
                0 <= j < i ==> (#[trigger] run[j]).timestamp is None,
    }
}

/// Whether the fragments between two cuts are a whole unit.
pub open spec fn is_cut_out(all: Seq<Held>, ends: Seq<nat>, i: int, unit: Unit) -> bool {
    &&& ends[i] < ends[i + 1] <= ends.last() <= all.len()
    &&& is_unit_of(all.subrange(ends[i] as int, ends[i + 1] as int), unit)
}

proof fn run_end_is_the_first(pending: Seq<Held>, from: nat)
    ensures
        run_end(pending, from) matches Some(count) ==> forall|i: int|
            from <= i < count - 1 ==> !marked((#[trigger] pending[i]).marks, LAST),
    decreases pending.len() - from,
{
    if from < pending.len() && !marked(pending[from as int].marks, LAST) {
        run_end_is_the_first(pending, from + 1);
    }
}

proof fn joining_is_flattening(run: Seq<Held>)
    ensures
        joined(run) == run.map_values(|held: Held| held.bytes).flatten(),
    decreases run.len(),
{
    let bytes = run.map_values(|held: Held| held.bytes);
    if run.len() > 0 {
        let before = run.drop_last();
        joining_is_flattening(before);
        assert(before.map_values(|held: Held| held.bytes) =~= bytes.drop_last());
        assert(bytes =~= bytes.drop_last().push(bytes.last()));
        bytes.drop_last().lemma_flatten_push(bytes.last());
    }
}

proof fn stamp_is_the_first(run: Seq<Held>)
    ensures
        match stamp(run) {
            None => forall|i: int| 0 <= i < run.len() ==> (#[trigger] run[i]).timestamp is None,
            Some(ticks) => exists|i: int|
                0 <= i < run.len() && (#[trigger] run[i]).timestamp == Some(ticks) && forall|j: int|
                    0 <= j < i ==> (#[trigger] run[j]).timestamp is None,
        },
    decreases run.len(),
{
    if run.len() > 0 {
        let before = run.drop_last();
        stamp_is_the_first(before);
        assert forall|i: int| 0 <= i < before.len() implies before[i] == #[trigger] run[i] by {}
        match stamp(before) {
            Some(ticks) => {
                let i = choose|i: int|
                    0 <= i < before.len() && (#[trigger] before[i]).timestamp == Some(ticks)
                        && forall|j: int| 0 <= j < i ==> (#[trigger] before[j]).timestamp is None;
                assert(run[i].timestamp == Some(ticks));
            },
            None => {
                assert(run[run.len() - 1] == run.last());
            },
        }
    }
}

/// What becomes of every fragment when one more arrives that is not resolved yet. All
/// that wait, with the newcomer in the place of one of its number, are in sequence
/// order `all`, cut at `ends`. What comes before the first cut is given up on: nothing
/// unless there are too many, and otherwise one unit, up to a fragment marked last or
/// right before one marked first. What comes between two cuts is a whole unit and is
/// emitted. What comes behind the last still waits, and does not open with a whole
/// unit.
#[verifier::rlimit(60)]
pub proof fn an_arrival_costs_at_most_one_unit(assembly: Assembly, seq: u32, payload: Seq<u8>) -> (
    account: (Seq<Held>, Seq<nat>))
    requires
        assembly.wf(),
        parsed(seq, payload) is Some,
        !assembly.resolved(seq),
    ensures
        ({
            let held = parsed(seq, payload)->0;
            let (after, units) = assembly.pushed(seq, payload);
            let (all, ends) = account;
            &&& forall|i: int, j: int| 0 <= i < j < all.len() ==> all[i].seq < all[j].seq
            &&& forall|other: Held| #[trigger]
                all.contains(other) <==> other == held || assembly.pending.contains(other)
                    && other.seq != seq
            &&& ends.len() == units.len() + 1
            &&& ends.last() <= all.len()
            &&& after.pending == all.skip(ends.last() as int)
            &&& ends[0] == 0 <==> all.len() <= 512
            &&& ends[0] > 0 ==> {
                &&& forall|i: int| 0 <= i < ends[0] - 1 ==> (#[trigger] all[i]).marks & 2 == 0
                &&& forall|i: int| 0 < i < ends[0] ==> (#[trigger] all[i]).marks & 1 == 0
                &&& ends[0] < all.len() ==> all[ends[0] - 1].marks & 2 != 0
                    || all[ends[0] as int].marks & 1 != 0
            }
            &&& forall|i: int|
                0 <= i < units.len() ==> #[trigger] is_cut_out(all, ends, i, units[i])
            &&& forall|k: int| 0 < k <= after.pending.len() ==> !opens_a_unit(after.pending, k)
            &&& after.late == assembly.late
            &&& after.abandoned == assembly.abandoned + if ends[0] > 0 {
                1nat
            } else {
                0nat
            }
            &&& after.emitted_through == if ends.last() == 0 {
                assembly.emitted_through
            } else {
                Some(all[ends.last() - 1].seq)
            }
        }),
{
    let held = parsed(seq, payload)->0;
    let (after, units) = assembly.pushed(seq, payload);
    inserting_is_sound(assembly, held);
    let all = inserted(assembly.pending, held);
    let with = Assembly { pending: all, ..assembly };
    assert forall|other: Held| #[trigger] all.contains(other) implies other == held
        || other.seq != seq by {
        let i = choose|i: int| 0 <= i < all.len() && all[i] == other;
        let j = choose|j: int| 0 <= j < all.len() && all[j] == held;
        assert(all[i].seq == all[j].seq ==> i == j);
    }
    let given_up = if all.len() <= MAX_PENDING_FRAGMENTS {
        0
    } else {
        unit_end(all, 0)
    };
    let kept = assembly.holding(held);
    if given_up > 0 {
        unit_end_shape(all, 0);
        unit_end_is_a_boundary(all, 0);
        passing_is_sound(with, given_up);
    } else {
        assert(all.skip(0) =~= all);
        if all.len() > MAX_PENDING_FRAGMENTS {
            unit_end_shape(all, 0);
        }
    }
    assert(kept.pending =~= all.skip(given_up as int));
    let beyond = draining_accounts(kept);
    draining_is_sound(kept);
    let ends = Seq::new(beyond.len(), |i: int| beyond[i] + given_up);
    assert(all.skip(given_up as int).skip(beyond.last() as int) =~= all.skip(ends.last() as int));
    if beyond.last() > 0 {
        assert(kept.pending[beyond.last() - 1] == all[ends.last() - 1]);
    }
    assert forall|i: int| 0 <= i < units.len() implies #[trigger] is_cut_out(
        all,
        ends,
        i,
        units[i],
    ) by {
        assert(is_cut_out(kept.pending, beyond, i, units[i]));
        assert(kept.pending.subrange(beyond[i] as int, beyond[i + 1] as int) =~= all.subrange(
            ends[i] as int,
            ends[i + 1] as int,
        ));
    }
    assert forall|k: int| 0 < k <= after.pending.len() implies !opens_a_unit(after.pending, k) by {
        if opens_a_unit(after.pending, k) {
            an_opening_unit_is_complete(after.pending, k, 0);
        }
    }
    (all, ends)
}

/// Whether the first `count` fragments are a whole unit: numbered without a gap, the
/// first of them marked first and the last of them marked last.
pub open spec fn opens_a_unit(pending: Seq<Held>, count: int) -> bool {
    &&& pending[0].marks & 1 != 0
    &&& pending[count - 1].marks & 2 != 0
    &&& forall|i: int| 0 <= i < count ==> (#[trigger] pending[i]).seq == pending[0].seq + i
}

proof fn an_opening_unit_is_complete(pending: Seq<Held>, count: int, from: nat)
    requires
        0 <= from < count <= pending.len(),
        opens_a_unit(pending, count),
    ensures
        run_end(pending, from) is Some,
    decreases count - from,
{
    if !marked(pending[from as int].marks, LAST) {
        assert(pending[from as int + 1].seq == pending[0].seq + from + 1);
        an_opening_unit_is_complete(pending, count, from + 1);
    }
}

proof fn unit_end_is_a_boundary(pending: Seq<Held>, from: nat)
    requires
        from < pending.len(),
    ensures
        forall|i: int|
            from <= i < unit_end(pending, from) - 1 ==> !marked((#[trigger] pending[i]).marks, LAST),
        forall|i: int|
            from < i < unit_end(pending, from) ==> !marked((#[trigger] pending[i]).marks, FIRST),
        unit_end(pending, from) < pending.len() ==> marked(
            pending[unit_end(pending, from) - 1].marks,
            LAST,
        ) || marked(pending[unit_end(pending, from) as int].marks, FIRST),
    decreases pending.len() - from,
{
    if !(from + 1 >= pending.len() || marked(pending[from as int].marks, LAST) || marked(
        pending[from as int + 1].marks,
        FIRST,
    )) {
        unit_end_is_a_boundary(pending, from + 1);
    }
}

/// Whether a run is one whole unit: numbered without a gap, opened by a fragment
/// marked first and closed by the only one marked last.
pub open spec fn is_run(run: Seq<Held>) -> bool {
    &&& run.len() > 0
    &&& run[0].marks & 1 != 0
    &&& forall|i: int|
        0 <= i < run.len() ==> (#[trigger] run[i]).seq == run[0].seq + i && (run[i].marks & 2 != 0
            <==> i == run.len() - 1)
}

/// A lost fragment costs only its own unit. Where what waits is the remains of one unit
/// and whole units behind it, and one more arrival makes it too many, the remains are
/// given up on and every whole unit comes out, in order.
pub proof fn a_lost_fragment_costs_only_its_own_unit(
    assembly: Assembly,
    seq: u32,
    payload: Seq<u8>,
    ends: Seq<nat>,
)
    requires
        assembly.wf(),
        parsed(seq, payload) is Some,
        !assembly.resolved(seq),
        assembly.pending.len() == 512,
        forall|i: int| 0 <= i < 512 ==> (#[trigger] assembly.pending[i]).seq < seq,
        ({
            let all = assembly.pending.push(parsed(seq, payload)->0);
            &&& ends.len() > 0
            &&& 0 < ends[0] < 513
            &&& ends.last() == 513
            &&& forall|i: int| 0 <= i < ends[0] - 1 ==> (#[trigger] all[i]).marks & 2 == 0
            &&& forall|i: int| 0 < i < ends[0] ==> (#[trigger] all[i]).marks & 1 == 0
            &&& forall|i: int|
                0 < i < ends.len() ==> ends[i - 1] < #[trigger] ends[i] <= 513 && is_run(
                    all.subrange(ends[i - 1] as int, ends[i] as int),
                )
        }),
    ensures
        ({
            let all = assembly.pending.push(parsed(seq, payload)->0);
            let (after, units) = assembly.pushed(seq, payload);
            &&& after.pending.len() == 0
            &&& after.abandoned == assembly.abandoned + 1
            &&& units.len() == ends.len() - 1
            &&& forall|i: int|
                0 <= i < units.len() ==> #[trigger] is_cut_out(all, ends, i, units[i])
        }),
{
    let held = parsed(seq, payload)->0;
    let whole = assembly.pending.push(held);
    let (after, units) = assembly.pushed(seq, payload);
    let (all, cuts) = an_arrival_costs_at_most_one_unit(assembly, seq, payload);
    same_members_same_order(all, whole, held, assembly.pending);
    assert(is_run(all.subrange(ends[0] as int, ends[1] as int))) by {
        assert(0 < 1 < ends.len() ==> ends[0] < ends[1]);
    }
    let next = all.subrange(ends[0] as int, ends[1] as int);
    assert(all[ends[0] as int] == next[0]);
    if cuts[0] < ends[0] {
        assert(all[cuts[0] - 1].marks & 2 == 0);
        assert(all[cuts[0] as int].marks & 1 == 0);
    }
    if cuts[0] > ends[0] {
        assert(all[ends[0] as int].marks & 1 == 0);
    }
    cuts_agree(all, ends, cuts, units, units.len() as int);
    let last = units.len() as int;
    if cuts[last] < 513 {
        assert(last + 1 < ends.len());
        assert(ends[last + 1 - 1] < ends[last + 1] <= 513);
        let run = all.subrange(ends[last] as int, ends[last + 1] as int);
        let count = run.len() as int;
        assert forall|i: int| 0 <= i < count implies (#[trigger] after.pending[i]).seq
            == after.pending[0].seq + i by {
            assert(after.pending[i] == run[i]);
            assert(after.pending[0] == run[0]);
        }
        assert(after.pending[0] == run[0]);
        assert(after.pending[count - 1] == run[count - 1]);
        assert(opens_a_unit(after.pending, count));
    }
    assert(cuts =~= ends) by {
        if last + 1 < ends.len() {
            assert(ends[last + 1 - 1] < ends[last + 1] <= 513);
        }
        assert forall|i: int| 0 <= i < cuts.len() implies cuts[i] == ends[i] by {
            cuts_agree(all, ends, cuts, units, i);
        }
    }
}

proof fn cuts_agree(all: Seq<Held>, ends: Seq<nat>, cuts: Seq<nat>, units: Seq<Unit>, k: int)
    requires
        all.len() == 513,
        ends.len() > 0,
        cuts.len() == units.len() + 1,
        ends[0] == cuts[0],
        ends.last() == 513,
        forall|i: int|
            0 < i < ends.len() ==> ends[i - 1] < #[trigger] ends[i] <= 513 && is_run(
                all.subrange(ends[i - 1] as int, ends[i] as int),
            ),
        forall|i: int| 0 <= i < units.len() ==> #[trigger] is_cut_out(all, cuts, i, units[i]),
        0 <= k <= units.len(),
    ensures
        k < ends.len(),
        ends[k] == cuts[k],
    decreases k,
{
    if k > 0 {
        cuts_agree(all, ends, cuts, units, k - 1);
        assert(is_cut_out(all, cuts, k - 1, units[k - 1]));
        if k == ends.len() {
            assert(ends[k - 1] == 513);
        }
        assert(ends[k - 1] < ends[k] <= 513);
        let mine = all.subrange(ends[k - 1] as int, ends[k] as int);
        let theirs = all.subrange(cuts[k - 1] as int, cuts[k] as int);
        let (m, t) = (mine.len() - 1, theirs.len() - 1);
        if m < t {
            assert(mine[m] == theirs[m]);
        }
        if t < m {
            assert(mine[t] == theirs[t]);
        }
    }
}

proof fn same_members_same_order(all: Seq<Held>, whole: Seq<Held>, held: Held, before: Seq<Held>)
    requires
        whole == before.push(held),
        forall|i: int| 0 <= i < before.len() ==> (#[trigger] before[i]).seq < held.seq,
        forall|i: int, j: int| 0 <= i < j < before.len() ==> before[i].seq < before[j].seq,
        forall|i: int, j: int| 0 <= i < j < all.len() ==> all[i].seq < all[j].seq,
        forall|other: Held| #[trigger]
            all.contains(other) <==> other == held || before.contains(other) && other.seq
                != held.seq,
    ensures
        all == whole,
    decreases before.len(),
{
    assert(all.contains(held));
    let at = choose|at: int| 0 <= at < all.len() && all[at] == held;
    if at < all.len() - 1 {
        assert(all.contains(all[at + 1]));
        let k = choose|k: int| 0 <= k < before.len() && before[k] == all[at + 1];
        assert(before[k].seq < held.seq);
    }
    let rest = all.drop_last();
    assert(all =~= rest.push(held));
    assert forall|other: Held| #[trigger] rest.contains(other) <==> before.contains(other) by {
        if rest.contains(other) {
            let i = choose|i: int| 0 <= i < rest.len() && rest[i] == other;
            assert(all[i] == other && all.contains(other));
            assert(other != held);
        }
        if before.contains(other) {
            let i = choose|i: int| 0 <= i < before.len() && before[i] == other;
            assert(before[i].seq < held.seq);
            assert(all.contains(other));
            let j = choose|j: int| 0 <= j < all.len() && all[j] == other;
            assert(rest[j] == other);
        }
    }
    if before.len() == 0 {
        if rest.len() > 0 {
            assert(rest.contains(rest[0]));
        }
        assert(rest =~= before);
    } else {
        let last = before.last();
        assert(before[before.len() - 1] == last);
        assert forall|other: Held| #[trigger] rest.contains(other) <==> other == last
            || before.drop_last().contains(other) && other.seq != last.seq by {
            assert(before.contains(other) <==> other == last || before.drop_last().contains(other))
                by {
                if before.contains(other) {
                    let i = choose|i: int| 0 <= i < before.len() && before[i] == other;
                    if i < before.len() - 1 {
                        assert(before.drop_last()[i] == other);
                    }
                }
                if before.drop_last().contains(other) {
                    let i = choose|i: int|
                        0 <= i < before.drop_last().len() && before.drop_last()[i] == other;
                    assert(before[i] == other);
                }
            }
            if before.drop_last().contains(other) {
                let i = choose|i: int|
                    0 <= i < before.drop_last().len() && before.drop_last()[i] == other;
                assert(before[i].seq < before[before.len() - 1].seq);
            }
        }
        assert(before =~= before.drop_last().push(last));
        same_members_same_order(rest, before, last, before.drop_last());
    }
}

/// An arrival that cannot be read changes nothing, and one whose unit is resolved is
/// only counted.
pub proof fn what_comes_too_late_is_only_counted(assembly: Assembly, seq: u32, payload: Seq<u8>)
    ensures
        parsed(seq, payload) is None ==> assembly.pushed(seq, payload) == (
            assembly,
            Seq::<Unit>::empty(),
        ),
        parsed(seq, payload) is Some && (assembly.emitted_through matches Some(through) && seq
            <= through) ==> assembly.pushed(seq, payload) == (
            Assembly { late: assembly.late + 1, ..assembly },
            Seq::<Unit>::empty(),
        ),
{
}

/// A fragment reads as what was written: its marks, then four bytes of timestamp where
/// the third mark says so, then its codec bytes. Nothing else reads as a fragment.
pub proof fn a_fragment_reads_as_it_was_written(seq: u32, payload: Seq<u8>, held: Held)
    ensures
        parsed(seq, payload) == Some(held) <==> held.seq == seq && held.marks <= 7 && match held.timestamp {
            None => held.marks & 4 == 0 && payload == seq![held.marks] + held.bytes,
            Some(ticks) => held.marks & 4 != 0 && payload == seq![held.marks] + wire::be32(ticks)
                + held.bytes,
        },
{
    let mark = if payload.len() > 0 {
        payload[0]
    } else {
        0
    };
    marks_are_bits(mark);
    marks_are_bits(held.marks);
    if let Some(found) = parsed(seq, payload) {
        match found.timestamp {
            None => {
                assert(payload =~= seq![found.marks] + found.bytes);
            },
            Some(ticks) => {
                wire::from_be32_round_trips(payload.subrange(1, 5));
                assert(payload =~= seq![found.marks] + wire::be32(ticks) + found.bytes);
            },
        }
    }
    match held.timestamp {
        None => {
            let written = seq![held.marks] + held.bytes;
            assert(written.skip(1) =~= held.bytes);
        },
        Some(ticks) => {
            let written = seq![held.marks] + wire::be32(ticks) + held.bytes;
            wire::be32_round_trips(ticks);
            assert(written.subrange(1, 5) =~= wire::be32(ticks));
            assert(written.skip(5) =~= held.bytes);
        },
    }
}

/// A unit takes no more fragments than it has to: every one but the last is as large
/// as a payload may be.
pub proof fn every_fragment_but_the_last_is_full(unit: Seq<u8>, timestamp: Option<u32>, i: int)
    requires
        0 <= i < fragments(unit, timestamp).len() - 1,
    ensures
        fragments(unit, timestamp)[i].len() == PAYLOAD_BUDGET,
{
    let left = rest(unit, first_budget(timestamp));
    if i > 0 {
        assert(fragments(unit, timestamp)[i] == following(left)[i - 1]);
        following_is_full(left, i - 1);
    }
}

proof fn following_is_full(bytes: Seq<u8>, i: int)
    requires
        0 <= i < following(bytes).len() - 1,
    ensures
        following(bytes)[i].len() == PAYLOAD_BUDGET,
    decreases bytes.len(),
{
    let left = rest(bytes, CODEC_BUDGET as nat);
    assert(following(left).len() + 1 == following(bytes).len());
    if i > 0 {
        assert(following(bytes)[i] == following(left)[i - 1]);
        following_is_full(left, i - 1);
    }
}

} // verus!
