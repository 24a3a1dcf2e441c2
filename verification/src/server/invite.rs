//! Invite codes, and how often guessing at them is put up with.

use vstd::prelude::*;

use crate::crypto;
use crate::text;

verus! {

pub const CODE_LENGTH: usize = 6;

/// How long a code is redeemable unless stated otherwise: a day, in seconds.
pub const DEFAULT_TTL: u32 = 24 * 60 * 60;

/// The digits and the capitals.
pub const ALPHABET: [u8; 36] = [
    48, 49, 50, 51, 52, 53, 54, 55, 56, 57, 65, 66, 67, 68, 69, 70, 71, 72, 73, 74, 75, 76, 77, 78,
    79, 80, 81, 82, 83, 84, 85, 86, 87, 88, 89, 90,
];

/// 36 does not divide 256, so a bare modulo would skew the first four symbols.
/// 252 is the largest multiple of 36 that fits in a byte.
pub const REJECT_FROM: u8 = 252;

/// The symbol a draw stands for, `None` for one that would skew the alphabet.
pub open spec fn symbol_of(draw: u8) -> Option<char> {
    if draw < REJECT_FROM {
        Some(ALPHABET@[draw as int % 36] as char)
    } else {
        None
    }
}

/// The symbols that draws stand for, in order.
pub open spec fn symbols_of(draws: Seq<u8>) -> Seq<char>
    decreases draws.len(),
{
    if draws.len() == 0 {
        Seq::empty()
    } else {
        match symbol_of(draws.last()) {
            Some(symbol) => symbols_of(draws.drop_last()).push(symbol),
            None => symbols_of(draws.drop_last()),
        }
    }
}

/// Whether draws spell a code: the first symbols that they stand for, as many as a
/// code has.
pub open spec fn spell(draws: Seq<u8>, code: Seq<char>) -> bool {
    &&& symbols_of(draws).len() >= CODE_LENGTH
    &&& code == symbols_of(draws).take(CODE_LENGTH as int)
}

/// Six symbols of the alphabet.
pub open spec fn is_code(code: Seq<char>) -> bool {
    &&& code.len() == CODE_LENGTH
    &&& forall|i: int|
        0 <= i < code.len() ==> '0' <= #[trigger] code[i] <= '9' || 'A' <= code[i] <= 'Z'
}

/// The symbol a draw stands for, `None` for one that would skew the alphabet.
pub fn symbol(draw: u8) -> (symbol: Option<char>)
    ensures
        symbol == symbol_of(draw),
        symbol matches Some(c) ==> '0' <= c <= '9' || 'A' <= c <= 'Z',
{
    if draw >= REJECT_FROM {
        return None;
    }
    let alphabet = ALPHABET;
    let at: usize = (draw % 36) as usize;
    proof {
        alphabet_is_alphanumeric(at as int);
    }
    Some(alphabet[at] as char)
}

proof fn alphabet_is_alphanumeric(i: int)
    requires
        0 <= i < 36,
    ensures
        48 <= ALPHABET@[i] <= 57 || 65 <= ALPHABET@[i] <= 90,
{
}

/// Every symbol of the alphabet stands for equally many draws: the same seven in
/// each, so that none is likelier than another.
pub proof fn the_alphabet_is_uniform(i: int, k: int)
    requires
        0 <= i < 36,
        0 <= k < 7,
    ensures
        symbol_of((36 * k + i) as u8) == Some(ALPHABET@[i] as char),
        36 * 7 == REJECT_FROM,
{
}

/// The code that draws spell, once enough of them stand for a symbol.
pub fn code_from(draws: &[u8]) -> (code: Option<String>)
    ensures
        match code {
            Some(code) => spell(draws@, code@),
            None => symbols_of(draws@).len() < CODE_LENGTH,
        },
{
    let mut code = String::new();
    let mut length: usize = 0;
    let mut i: usize = 0;
    while i < draws.len()
        invariant
            i <= draws@.len(),
            length == code@.len() < CODE_LENGTH,
            code@ == symbols_of(draws@.take(i as int)),
        decreases draws@.len() - i,
    {
        assert(draws@.take(i + 1).drop_last() =~= draws@.take(i as int));
        if let Some(symbol) = symbol(draws[i]) {
            code.push(symbol);
            length += 1;
        }
        i += 1;
        if length == CODE_LENGTH {
            proof {
                symbols_extend(draws@, i as int);
            }
            return Some(code);
        }
    }
    assert(draws@.take(i as int) =~= draws@);
    None
}

proof fn symbols_extend(draws: Seq<u8>, i: int)
    requires
        0 <= i <= draws.len(),
    ensures
        symbols_of(draws.take(i)).len() <= symbols_of(draws).len(),
        symbols_of(draws.take(i)) == symbols_of(draws).take(symbols_of(draws.take(i)).len() as int),
    decreases draws.len() - i,
{
    if i < draws.len() {
        symbols_extend(draws.drop_last(), i);
        assert(draws.drop_last().take(i) =~= draws.take(i));
        let some = symbols_of(draws.take(i)).len() as int;
        assert(symbols_of(draws).take(some) =~= symbols_of(draws.drop_last()).take(some));
    } else {
        assert(draws.take(i) =~= draws);
        assert(symbols_of(draws).take(symbols_of(draws).len() as int) =~= symbols_of(draws));
    }
}

proof fn symbols_are_alphanumeric(draws: Seq<u8>)
    ensures
        symbols_of(draws).len() <= draws.len(),
        forall|i: int|
            0 <= i < symbols_of(draws).len() ==> '0' <= #[trigger] symbols_of(draws)[i] <= '9' || 'A'
                <= symbols_of(draws)[i] <= 'Z',
    decreases draws.len(),
{
    if draws.len() > 0 {
        symbols_are_alphanumeric(draws.drop_last());
        if symbol_of(draws.last()) is Some {
            alphabet_is_alphanumeric(draws.last() as int % 36);
        }
    }
}

/// What draws spell is a code.
pub proof fn draws_spell_a_code(draws: Seq<u8>, code: Seq<char>)
    requires
        spell(draws, code),
    ensures
        is_code(code),
{
    symbols_are_alphanumeric(draws);
}

/// A fresh code of six symbols, roughly 31 bits. Bytes are drawn until they spell
/// one, which takes more of them for each that would skew the alphabet. Should a
/// counter run out first, the last bytes are brought below those that are rejected.
pub fn generate_code() -> (code: String)
    ensures
        is_code(code@),
{
    let mut draws: Vec<u8> = Vec::new();
    let mut left: u64 = u64::MAX;
    let mut lacking: usize = CODE_LENGTH;
    while lacking > 0
        invariant
            lacking <= CODE_LENGTH,
            symbols_of(draws@).len() + lacking == CODE_LENGTH,
        decreases lacking, left,
    {
        let ghost before = draws@;
        let mut draw: u8 = crypto::random_byte();
        if left == 0 {
            draw = draw % REJECT_FROM;
        } else {
            left -= 1;
        }
        draws.push(draw);
        assert(draws@.drop_last() =~= before);
        if draw < REJECT_FROM {
            lacking -= 1;
        }
    }
    match code_from(draws.as_slice()) {
        Some(code) => {
            proof {
                draws_spell_a_code(draws@, code@);
            }
            code
        },
        None => String::new(),
    }
}

/// A code as it is hashed: trimmed and in capitals.
pub open spec fn normalized(code: Seq<char>) -> Seq<char> {
    text::uppercased(text::trimmed(code))
}

/// What is stored in place of a code.
pub open spec fn hash_of(code: Seq<char>) -> Seq<u8> {
    crypto::sha256(vstd::utf8::encode_utf8(normalized(code)))
}

/// Stored in the database in place of the code. The code is normalized first,
/// so a lower-case or padded one cannot fail to match.
pub fn hash(code: &str) -> (hash: [u8; 32])
    ensures
        hash@ == hash_of(code@),
{
    let upper = code.trim().to_uppercase();
    crypto::sha256_digest(upper.as_str().as_bytes())
}

/// Neither case nor padding changes the hash of a code.
pub proof fn case_and_padding_do_not_change_the_hash(
    code: Seq<char>,
    typed: Seq<char>,
    before: Seq<char>,
    after: Seq<char>,
)
    requires
        is_code(code),
        typed.len() == code.len(),
        forall|i: int|
            0 <= i < code.len() ==> typed[i] as u32 <= 0x7f && text::ascii_uppercase(
                #[trigger] typed[i],
            ) == code[i],
        forall|i: int| 0 <= i < before.len() ==> text::is_space(#[trigger] before[i]),
        forall|i: int| 0 <= i < after.len() ==> text::is_space(#[trigger] after[i]),
    ensures
        normalized(code) == code,
        hash_of(before + typed + after) == hash_of(code),
{
    assert(text::ascii_uppercase(typed[0]) == code[0]);
    assert(text::ascii_uppercase(typed[5]) == code[5]);
    text::padding_is_trimmed(before, typed, after);
    text::nothing_to_trim(code);
    assert(vstd::utf8::is_ascii_chars(code));
    assert(vstd::utf8::is_ascii_chars(typed));
    assert(text::uppercased(typed) =~= code);
    assert(text::uppercased(code) =~= code);
}

pub const FAILURES_PER_ADDRESS: u32 = 5;

/// A per-address limit alone is defeated by rotating addresses, so a server-wide
/// budget backs it up. Exceeding it stops all redemption until enough of it
/// decays back.
pub const SERVER_WIDE_FAILURE_BUDGET: u32 = 100;

/// One recorded failure is forgotten per interval, in seconds. It bounds a
/// sustained guessing rate at four attempts an hour, and clears honest typos on
/// their own.
pub const DECAY_INTERVAL: u64 = 15 * 60;

/// Where a client connects from.
#[derive(Debug, Clone, Copy, PartialEq, Eq, Hash, Structural)]
pub enum PeerAddress {
    V4(u32),
    V6(u128),
}

/// Failed redemptions, as they are remembered.
pub ghost struct Failures {
    /// Per address, never zero.
    pub by_address: Map<PeerAddress, nat>,
    pub total: nat,
}

impl Failures {
    pub open spec fn none() -> Failures {
        Failures { by_address: Map::empty(), total: 0 }
    }

    pub open spec fn from(self, address: PeerAddress) -> nat {
        if self.by_address.contains_key(address) {
            self.by_address[address]
        } else {
            0
        }
    }

    /// Whether an address may try a code.
    pub open spec fn permits(self, address: PeerAddress) -> bool {
        self.total < SERVER_WIDE_FAILURE_BUDGET && self.from(address) < FAILURES_PER_ADDRESS
    }

    pub open spec fn recorded(self, address: PeerAddress) -> Failures {
        Failures {
            by_address: self.by_address.insert(address, self.from(address) + 1),
            total: self.total + 1,
        }
    }

    /// One failure less, server-wide and for every address that carries any.
    pub open spec fn decayed(self) -> Failures {
        Failures {
            by_address: Map::new(
                |address: PeerAddress|
                    self.by_address.contains_key(address) && self.by_address[address] > 1,
                |address: PeerAddress| (self.by_address[address] - 1) as nat,
            ),
            total: if self.total == 0 {
                0
            } else {
                (self.total - 1) as nat
            },
        }
    }

    /// The total counts every address's failures at least once, and none that is
    /// remembered has none.
    pub open spec fn wf(self) -> bool {
        forall|address: PeerAddress| #[trigger]
            self.by_address.contains_key(address) ==> 0 < self.by_address[address] <= self.total
    }
}

/// Failures once one address has failed some more times.
pub open spec fn recorded_times(failures: Failures, address: PeerAddress, times: nat) -> Failures
    decreases times,
{
    if times == 0 {
        failures
    } else {
        recorded_times(failures, address, (times - 1) as nat).recorded(address)
    }
}

/// An address that keeps failing is cut off, and while the server-wide budget is
/// not spent on its account, nobody else is.
pub proof fn an_address_is_cut_off_alone(
    failures: Failures,
    address: PeerAddress,
    other: PeerAddress,
    times: nat,
)
    requires
        address != other,
    ensures
        ({
            let after = recorded_times(failures, address, times);
            &&& after.from(address) == failures.from(address) + times
            &&& after.from(other) == failures.from(other)
            &&& after.total == failures.total + times
            &&& times >= FAILURES_PER_ADDRESS ==> !after.permits(address)
            &&& failures.total + times < SERVER_WIDE_FAILURE_BUDGET ==> after.permits(other)
                == failures.permits(other)
        }),
    decreases times,
{
    if times > 0 {
        an_address_is_cut_off_alone(failures, address, other, (times - 1) as nat);
    }
}

/// Once the server-wide budget is spent no address is permitted, whatever it did.
pub proof fn a_spent_budget_refuses_everyone(failures: Failures, address: PeerAddress)
    requires
        failures.total >= SERVER_WIDE_FAILURE_BUDGET,
    ensures
        !failures.permits(address),
{
}

/// Decay readmits: an address exactly at its limit, under a total no further above
/// its own, may try again after one interval.
pub proof fn decay_readmits(failures: Failures, address: PeerAddress)
    requires
        failures.wf(),
        failures.from(address) <= FAILURES_PER_ADDRESS,
        failures.total <= SERVER_WIDE_FAILURE_BUDGET,
    ensures
        failures.decayed().permits(address),
        failures.decayed().wf(),
        failures.decayed().from(address) <= failures.from(address),
{
}

/// Decay forgets: after as many intervals as there were failures in all, none is
/// remembered of any address.
pub proof fn decay_forgets_everything(failures: Failures, intervals: nat)
    requires
        failures.wf(),
        intervals >= failures.total,
    ensures
        decayed_times(failures, intervals) == Failures::none(),
    decreases intervals,
{
    if intervals == 0 {
        assert(failures.by_address =~= Map::empty()) by {
            assert forall|address: PeerAddress| !failures.by_address.contains_key(address) by {}
        }
    } else {
        decay_forgets_everything(failures.decayed(), (intervals - 1) as nat);
    }
}

/// Failures after some intervals without another.
pub open spec fn decayed_times(failures: Failures, intervals: nat) -> Failures
    decreases intervals,
{
    if intervals == 0 {
        failures
    } else {
        decayed_times(failures.decayed(), (intervals - 1) as nat)
    }
}

struct AddressFailures {
    address: PeerAddress,
    failures: u32,
}

spec fn tally(failures: Seq<AddressFailures>) -> Map<PeerAddress, nat>
    decreases failures.len(),
{
    if failures.len() == 0 {
        Map::empty()
    } else {
        tally(failures.drop_last()).insert(
            failures.last().address,
            failures.last().failures as nat,
        )
    }
}

spec fn distinct(failures: Seq<AddressFailures>) -> bool {
    forall|i: int, j: int|
        0 <= i < j < failures.len() ==> failures[i].address != failures[j].address
}

pub struct RedemptionLimiter {
    failures_by_address: Vec<AddressFailures>,
    total_failures: u32,
}

impl View for RedemptionLimiter {
    type V = Failures;

    closed spec fn view(&self) -> Failures {
        Failures {
            by_address: tally(self.failures_by_address@),
            total: self.total_failures as nat,
        }
    }
}

proof fn tally_tells(failures: Seq<AddressFailures>)
    requires
        distinct(failures),
    ensures
        forall|i: int|
            0 <= i < failures.len() ==> tally(failures).contains_key(
                (#[trigger] failures[i]).address,
            ) && tally(failures)[failures[i].address] == failures[i].failures,
        forall|address: PeerAddress| #[trigger]
            tally(failures).contains_key(address) ==> exists|i: int|
                0 <= i < failures.len() && (#[trigger] failures[i]).address == address,
    decreases failures.len(),
{
    if failures.len() > 0 {
        let before = failures.drop_last();
        assert forall|i: int, j: int| 0 <= i < j < before.len() implies before[i].address
            != before[j].address by {
            assert(before[i] == failures[i] && before[j] == failures[j]);
        }
        tally_tells(before);
        assert forall|i: int| 0 <= i < failures.len() implies tally(failures).contains_key(
            (#[trigger] failures[i]).address,
        ) && tally(failures)[failures[i].address] == failures[i].failures by {
            if i < before.len() {
                assert(before[i] == failures[i]);
                assert(failures[i].address != failures[before.len() as int].address);
            }
        }
        assert forall|address: PeerAddress| #[trigger]
            tally(failures).contains_key(address) implies exists|i: int|
            0 <= i < failures.len() && (#[trigger] failures[i]).address == address by {
            if address == failures.last().address {
                assert(failures[failures.len() - 1].address == address);
            } else {
                assert(tally(before).contains_key(address));
                let i = choose|i: int|
                    0 <= i < before.len() && (#[trigger] before[i]).address == address;
                assert(failures[i].address == address);
            }
        }
    }
}

/// One failure less in every entry, without those that have none left.
spec fn forgotten(failures: Seq<AddressFailures>) -> Seq<AddressFailures>
    decreases failures.len(),
{
    if failures.len() == 0 {
        Seq::empty()
    } else {
        let last = failures.last();
        if last.failures > 1 {
            forgotten(failures.drop_last()).push(
                AddressFailures { address: last.address, failures: (last.failures - 1) as u32 },
            )
        } else {
            forgotten(failures.drop_last())
        }
    }
}

proof fn forgetting_decays(failures: Seq<AddressFailures>)
    requires
        distinct(failures),
    ensures
        distinct(forgotten(failures)),
        forall|k: int|
            0 <= k < forgotten(failures).len() ==> exists|j: int|
                0 <= j < failures.len() && (#[trigger] failures[j]).address == (
                #[trigger] forgotten(failures)[k]).address,
        tally(forgotten(failures)) == Map::new(
            |address: PeerAddress|
                tally(failures).contains_key(address) && tally(failures)[address] > 1,
            |address: PeerAddress| (tally(failures)[address] - 1) as nat,
        ),
    decreases failures.len(),
{
    let decayed = Map::new(
        |address: PeerAddress|
            tally(failures).contains_key(address) && tally(failures)[address] > 1,
        |address: PeerAddress| (tally(failures)[address] - 1) as nat,
    );
    if failures.len() > 0 {
        let before = failures.drop_last();
        let last = failures.last();
        assert forall|i: int, j: int| 0 <= i < j < before.len() implies before[i].address
            != before[j].address by {
            assert(before[i] == failures[i] && before[j] == failures[j]);
        }
        forgetting_decays(before);
        tally_tells(before);
        let kept = forgotten(before);
        let now = forgotten(failures);
        assert forall|k: int| 0 <= k < kept.len() implies exists|j: int|
            0 <= j < before.len() && (#[trigger] failures[j]).address == (
            #[trigger] kept[k]).address by {
            let j = choose|j: int|
                0 <= j < before.len() && (#[trigger] before[j]).address == (
                #[trigger] kept[k]).address;
            assert(failures[j] == before[j]);
        }
        assert(!tally(before).contains_key(last.address)) by {
            if tally(before).contains_key(last.address) {
                let i = choose|i: int|
                    0 <= i < before.len() && (#[trigger] before[i]).address == last.address;
                assert(failures[i].address == failures[failures.len() - 1].address);
            }
        }
        if last.failures > 1 {
            assert(now.drop_last() =~= kept);
            assert forall|k: int| 0 <= k < now.len() implies exists|j: int|
                0 <= j < failures.len() && (#[trigger] failures[j]).address == (
                #[trigger] now[k]).address by {
                if k < kept.len() {
                    assert(now[k] == kept[k]);
                } else {
                    assert(failures[failures.len() - 1].address == now[k].address);
                }
            }
            assert forall|a: int, b: int| 0 <= a < b < now.len() implies now[a].address
                != now[b].address by {
                assert(now[a] == kept[a]);
                if b == kept.len() {
                    let j = choose|j: int|
                        0 <= j < before.len() && (#[trigger] failures[j]).address == (
                        #[trigger] kept[a]).address;
                    assert(failures[j].address != failures[failures.len() - 1].address);
                } else {
                    assert(now[b] == kept[b]);
                }
            }
        }
        assert(tally(now) =~= decayed);
    } else {
        assert(tally(forgotten(failures)) =~= decayed);
    }
}

impl Default for RedemptionLimiter {
    fn default() -> (limiter: RedemptionLimiter)
        ensures
            limiter.wf(),
            limiter@ == Failures::none(),
    {
        RedemptionLimiter { failures_by_address: Vec::new(), total_failures: 0 }
    }
}

impl RedemptionLimiter {
    pub closed spec fn wf(&self) -> bool {
        &&& distinct(self.failures_by_address@)
        &&& self@.wf()
    }

    /// A limiter that is sound shows failures that are.
    pub proof fn shows_sound_failures(&self)
        requires
            self.wf(),
        ensures
            self@.wf(),
    {
    }

    /// Where an address stands in the list.
    fn position(&self, address: PeerAddress) -> (at: Option<usize>)
        requires
            self.wf(),
        ensures
            match at {
                Some(at) => {
                    &&& at < self.failures_by_address@.len()
                    &&& self.failures_by_address@[at as int].address == address
                    &&& self@.by_address.contains_key(address)
                    &&& self@.by_address[address] == self.failures_by_address@[at as int].failures
                },
                None => !self@.by_address.contains_key(address),
            },
    {
        proof {
            tally_tells(self.failures_by_address@);
        }
        let mut i: usize = 0;
        while i < self.failures_by_address.len()
            invariant
                i <= self.failures_by_address@.len(),
                forall|j: int|
                    0 <= j < i ==> (#[trigger] self.failures_by_address@[j]).address != address,
                forall|i: int|
                    0 <= i < self.failures_by_address@.len() ==> self@.by_address.contains_key(
                        (#[trigger] self.failures_by_address@[i]).address,
                    ) && self@.by_address[self.failures_by_address@[i].address]
                        == self.failures_by_address@[i].failures,
            decreases self.failures_by_address@.len() - i,
        {
            if self.failures_by_address[i].address == address {
                return Some(i);
            }
            i += 1;
        }
        None
    }

    pub fn permits(&self, address: PeerAddress) -> (permitted: bool)
        requires
            self.wf(),
        ensures
            permitted == self@.permits(address),
    {
        let failures: u32 = match self.position(address) {
            Some(at) => self.failures_by_address[at].failures,
            None => 0,
        };
        self.total_failures < SERVER_WIDE_FAILURE_BUDGET && failures < FAILURES_PER_ADDRESS
    }

    pub fn record_failure(&mut self, address: PeerAddress)
        requires
            old(self).wf(),
            old(self)@.total < u32::MAX,
        ensures
            final(self).wf(),
            final(self)@ == old(self)@.recorded(address),
    {
        let ghost before = self.failures_by_address@;
        match self.position(address) {
            Some(at) => {
                let failures: u32 = self.failures_by_address[at].failures;
                self.failures_by_address.set(
                    at,
                    AddressFailures { address, failures: failures + 1 },
                );
            },
            None => {
                proof {
                    tally_tells(before);
                }
                self.failures_by_address.push(AddressFailures { address, failures: 1 });
            },
        }
        self.total_failures += 1;
        proof {
            let after = self.failures_by_address@;
            tally_tells(before);
            tally_tells(after);
            assert forall|other: PeerAddress| #[trigger]
                tally(after).contains_key(other) implies tally(before).insert(
                address,
                old(self)@.from(address) + 1,
            ).contains_key(other) by {
                let i = choose|i: int|
                    0 <= i < after.len() && (#[trigger] after[i]).address == other;
                if other != address {
                    assert(before[i].address == other);
                }
            }
            assert forall|other: PeerAddress| #[trigger]
                tally(before).contains_key(other) implies tally(after).contains_key(other) && (other
                != address ==> tally(after)[other] == tally(before)[other]) by {
                let i = choose|i: int|
                    0 <= i < before.len() && (#[trigger] before[i]).address == other;
                assert(after[i].address == other);
                if other != address {
                    assert(after[i] == before[i]);
                }
            }
            let at = choose|i: int| 0 <= i < after.len() && (#[trigger] after[i]).address == address;
            assert(self@.by_address =~= old(self)@.recorded(address).by_address);
        }
    }

    /// One failure is forgotten, server-wide and for every address that carries
    /// any. An address at zero is dropped.
    pub fn decay(&mut self)
        requires
            old(self).wf(),
        ensures
            final(self).wf(),
            final(self)@ == old(self)@.decayed(),
    {
        self.total_failures = if self.total_failures == 0 {
            0
        } else {
            self.total_failures - 1
        };
        let ghost before = self.failures_by_address@;
        let mut left: Vec<AddressFailures> = Vec::new();
        let mut i: usize = 0;
        while i < self.failures_by_address.len()
            invariant
                i <= self.failures_by_address@.len(),
                self.failures_by_address@ == before,
                left@ == forgotten(before.take(i as int)),
            decreases before.len() - i,
        {
            assert(before.take(i + 1).drop_last() =~= before.take(i as int));
            let entry = &self.failures_by_address[i];
            if entry.failures > 1 {
                left.push(
                    AddressFailures { address: entry.address, failures: entry.failures - 1 },
                );
            }
            i += 1;
        }
        self.failures_by_address = left;
        proof {
            assert(before.take(i as int) =~= before);
            forgetting_decays(before);
            assert(self@.by_address =~= old(self)@.decayed().by_address);
        }
    }

    /// Whether no address is remembered.
    pub fn is_clear(&self) -> (clear: bool)
        requires
            self.wf(),
        ensures
            clear == (self@.by_address =~= Map::empty()),
    {
        proof {
            tally_tells(self.failures_by_address@);
            if self.failures_by_address@.len() > 0 {
                assert(self@.by_address.contains_key(self.failures_by_address@[0].address));
            }
        }
        self.failures_by_address.len() == 0
    }
}

/// Decay forgets exactly one failure: one of the total where there is any, and one of
/// every address that has any.
pub proof fn decay_forgets_exactly_one(failures: Failures, address: PeerAddress)
    requires
        failures.wf(),
    ensures
        failures.total > 0 ==> failures.decayed().total + 1 == failures.total,
        failures.total == 0 ==> failures.decayed().total == 0,
        failures.from(address) > 0 ==> failures.decayed().from(address) + 1 == failures.from(
            address,
        ),
        failures.from(address) == 0 ==> failures.decayed().from(address) == 0,
{
}

/// A failure counts exactly once: for the address it came from, for no other, and
/// server-wide.
pub proof fn a_failure_counts_once(failures: Failures, address: PeerAddress, other: PeerAddress)
    requires
        other != address,
    ensures
        failures.recorded(address).from(address) == failures.from(address) + 1,
        failures.recorded(address).from(other) == failures.from(other),
        failures.recorded(address).total == failures.total + 1,
{
}

/// An address may try a code exactly while it has failed less than five times and all
/// together have failed less than a hundred times. At first everyone may.
pub proof fn five_failures_or_a_hundred_are_too_many(failures: Failures, address: PeerAddress)
    ensures
        failures.permits(address) <==> failures.from(address) < 5 && failures.total < 100,
        Failures::none().permits(address),
        Failures::none().from(address) == 0,
        Failures::none().total == 0,
{
}

/// An interval without a failure buys back one attempt, and no more: what an address at
/// its limit fails next puts it back there.
pub proof fn an_interval_buys_back_one_attempt(failures: Failures, address: PeerAddress)
    requires
        failures.wf(),
        failures.from(address) == 5,
        failures.total <= 100,
    ensures
        failures.decayed().permits(address),
        !failures.decayed().recorded(address).permits(address),
{
}

/// A draw stands for the symbol at its remainder: the ten digits, then the capitals in
/// the order of the alphabet. Draws from 252 on stand for none.
pub proof fn a_draw_stands_for_its_remainder(draw: u8)
    ensures
        draw >= 252 ==> symbol_of(draw) is None,
        draw < 252 && draw % 36 < 10 ==> symbol_of(draw) == Some((48 + draw % 36) as char),
        draw < 252 && draw % 36 >= 10 ==> symbol_of(draw) == Some((55 + draw % 36) as char),
{
}

/// The symbols of draws are those of the draws that stand for one, in order.
pub proof fn draws_are_spelled_in_order(front: Seq<u8>, back: Seq<u8>)
    ensures
        symbols_of(front + back) == symbols_of(front) + symbols_of(back),
        front.len() == 1 ==> symbols_of(front) == match symbol_of(front[0]) {
            Some(symbol) => seq![symbol],
            None => Seq::<char>::empty(),
        },
    decreases back.len(),
{
    let all = front + back;
    if front.len() == 1 {
        assert(front.drop_last() =~= Seq::empty());
        assert(symbols_of(front.drop_last()) =~= Seq::empty());
    }
    if back.len() == 0 {
        assert(all =~= front);
        assert(symbols_of(front) + symbols_of(back) =~= symbols_of(front));
    } else {
        assert(all.drop_last() =~= front + back.drop_last());
        draws_are_spelled_in_order(front, back.drop_last());
        assert(symbols_of(all) =~= symbols_of(front) + symbols_of(back));
    }
}

/// A code is six digits or capitals, and what draws spell is the first six symbols that
/// they stand for.
pub proof fn a_code_is_six_symbols(draws: Seq<u8>, code: Seq<char>)
    ensures
        is_code(code) <==> code.len() == 6 && forall|i: int|
            0 <= i < 6 ==> ('0' <= #[trigger] code[i] <= '9' || 'A' <= code[i] <= 'Z'),
        spell(draws, code) <==> symbols_of(draws).len() >= 6 && code.len() == 6 && forall|i: int|
            0 <= i < 6 ==> #[trigger] code[i] == symbols_of(draws)[i],
{
    if symbols_of(draws).len() >= 6 && code.len() == 6 && forall|i: int|
        0 <= i < 6 ==> #[trigger] code[i] == symbols_of(draws)[i] {
        assert(code =~= symbols_of(draws).take(6));
    }
}

/// An hour forgets four failures, of the server's total as of every address's.
pub proof fn an_hour_forgets_four(failures: Failures, address: PeerAddress)
    ensures
        ({
            let later = decayed_times(failures, (3600u64 / DECAY_INTERVAL) as nat);
            &&& failures.total >= 4 ==> later.total == failures.total - 4
            &&& failures.from(address) >= 4 ==> later.from(address) == failures.from(address) - 4
            &&& failures.total <= 4 ==> later.total == 0
            &&& failures.from(address) <= 4 ==> later.from(address) == 0
        }),
{
    reveal_with_fuel(decayed_times, 5);
    let interval = DECAY_INTERVAL;
    assert(3600u64 / interval == 4) by (nonlinear_arith)
        requires
            interval == 900,
    ;
    let (one, two, three) = (
        failures.decayed(),
        failures.decayed().decayed(),
        failures.decayed().decayed().decayed(),
    );
    assert(decayed_times(failures, 4) == three.decayed());
    if failures.from(address) > 0 {
        assert(failures.by_address.contains_key(address));
    }
}

} // verus!
