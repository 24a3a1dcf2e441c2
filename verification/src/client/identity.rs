//! The client's own key, and the servers it knows.

use vstd::prelude::*;

use crate::client::Error;
use crate::crypto;
use crate::keyed;
use crate::proto::fingerprint::{self, Fingerprint};
use crate::text;

verus! {

/// A server this client has pinned.
pub struct KnownServer {
    pub authority: String,
    pub fingerprint: Fingerprint,
}

/// The authorities of servers, in order.
pub open spec fn authorities(known: Seq<KnownServer>) -> Seq<Seq<char>> {
    Seq::new(known.len(), |i: int| known[i].authority@)
}

/// Where a server stands among those known.
pub open spec fn server_at(known: Seq<KnownServer>, authority: Seq<char>) -> Option<nat> {
    keyed::place(authorities(known), authority)
}

/// The fingerprint a server is pinned to.
pub open spec fn pin_of(known: Seq<KnownServer>, authority: Seq<char>) -> Option<Seq<u8>> {
    match server_at(known, authority) {
        Some(at) => Some(known[at as int].fingerprint@),
        None => None,
    }
}

/// An identity seed, and the servers it has been used with.
pub struct Keystore {
    identity: [u8; 32],
    known_servers: Vec<KnownServer>,
}

/// A server as a file holds it, with its fingerprint in hexadecimal.
pub struct StoredServer {
    pub authority: String,
    pub fingerprint: String,
}

/// What a keystore's file holds, with the seed in hexadecimal.
pub struct Stored {
    pub identity: String,
    pub known_servers: Vec<StoredServer>,
}

/// A keystore just opened, and what its file has to hold from now on where that is
/// something new.
pub struct Opened {
    pub keystore: Keystore,
    pub write: Option<Stored>,
}

/// Servers as a sequence of authorities and fingerprints.
pub open spec fn pins(known: Seq<KnownServer>) -> Seq<(Seq<char>, Seq<u8>)> {
    Seq::new(known.len(), |i: int| (known[i].authority@, known[i].fingerprint@))
}

/// Whether a file holds a keystore: its seed, and every server it knows.
pub open spec fn is_stored(stored: Stored, keystore: Keystore) -> bool {
    &&& stored.identity@ == text::hex(keystore.seed())
    &&& stored.known_servers@.len() == keystore.known().len()
    &&& forall|i: int|
        0 <= i < keystore.known().len() ==> (#[trigger] stored.known_servers@[i]).authority@
            == keystore.known()[i].authority@ && stored.known_servers@[i].fingerprint@ == text::hex(
            keystore.known()[i].fingerprint@,
        )
}

/// The servers that a file holds, or why the first malformed one is.
pub open spec fn read_servers(stored: Seq<StoredServer>) -> Result<
    Seq<(Seq<char>, Seq<u8>)>,
    Seq<char>,
>
    decreases stored.len(),
{
    if stored.len() == 0 {
        Ok(Seq::empty())
    } else {
        match read_servers(stored.drop_last()) {
            Ok(before) => match fingerprint::parsed(stored.last().fingerprint@) {
                Ok(bytes) => Ok(before.push((stored.last().authority@, bytes))),
                Err(why) => Err("malformed fingerprint: "@ + why),
            },
            Err(why) => Err(why),
        }
    }
}

/// The seed and the servers that a file holds, or why it is not a keystore's.
pub open spec fn read(stored: Stored) -> Result<
    (Seq<u8>, Seq<(Seq<char>, Seq<u8>)>),
    Seq<char>,
> {
    match read_servers(stored.known_servers@) {
        Ok(known) => match decoded(vstd::utf8::encode_utf8(stored.identity@)) {
            Ok(seed) => Ok((seed, known)),
            Err(why) => Err(why),
        },
        Err(why) => Err(why),
    }
}

/// What opening a keystore comes to. Where there is no file, an identity is made and
/// has to be written. A file that is a keystore's gives the keystore, and one that is
/// not gives the reason.
pub open spec fn is_opening(
    contents: Option<Result<Stored, String>>,
    opened: Result<Opened, Error>,
) -> bool {
    match (contents, opened) {
        (None, Ok(opened)) => {
            &&& opened.keystore.known().len() == 0
            &&& opened.write matches Some(stored) && is_stored(stored, opened.keystore)
        },
        (Some(Ok(stored)), Ok(opened)) => {
            &&& read(stored) == Ok::<(Seq<u8>, Seq<(Seq<char>, Seq<u8>)>), Seq<char>>(
                (opened.keystore.seed(), pins(opened.keystore.known())),
            )
            &&& opened.write is None
        },
        (Some(Ok(stored)), Err(Error::Keystore(message))) => {
            read(stored) == Err::<(Seq<u8>, Seq<(Seq<char>, Seq<u8>)>), Seq<char>>(message@)
        },
        (Some(Err(why)), Err(Error::Keystore(message))) => message@ == why@,
        _ => false,
    }
}

/// What the file holds once a keystore has been opened, or refused.
pub open spec fn contents_after(
    contents: Option<Result<Stored, String>>,
    opened: Result<Opened, Error>,
) -> Option<Result<Stored, String>> {
    match opened {
        Ok(Opened { write: Some(stored), .. }) => Some(Ok(stored)),
        _ => contents,
    }
}

impl Keystore {
    pub closed spec fn seed(&self) -> Seq<u8> {
        self.identity@
    }

    pub closed spec fn known(&self) -> Seq<KnownServer> {
        self.known_servers@
    }

    /// A keystore with a seed drawn for it.
    pub fn generate() -> (keystore: Keystore)
        ensures
            keystore.known().len() == 0,
    {
        Keystore { identity: crypto::random_bytes(), known_servers: Vec::new() }
    }

    /// A keystore out of what a file holds.
    pub fn restore(identity: &str, known_servers: Vec<KnownServer>) -> (keystore: Result<
        Keystore,
        Error,
    >)
        ensures
            match (keystore, decoded(vstd::utf8::encode_utf8(identity@))) {
                (Ok(keystore), Ok(seed)) => keystore.seed() == seed && keystore.known()
                    == known_servers@,
                (Err(Error::Keystore(message)), Err(why)) => message@ == why,
                _ => false,
            },
    {
        match decode_seed(identity) {
            Ok(identity) => Ok(Keystore { identity, known_servers }),
            Err(error) => Err(error),
        }
    }

    /// Opens the keystore in a file. `None` stands for no file, which is the first
    /// launch, and an error for a file that is not laid out as a keystore's.
    pub fn open(contents: Option<Result<Stored, String>>) -> (opened: Result<Opened, Error>)
        ensures
            is_opening(contents, opened),
    {
        match contents {
            None => {
                let keystore = Keystore::generate();
                let stored = keystore.stored();
                Ok(Opened { keystore, write: Some(stored) })
            },
            Some(Err(why)) => Err(Error::Keystore(why)),
            Some(Ok(stored)) => {
                let known_servers = match known_from(&stored.known_servers) {
                    Ok(known_servers) => known_servers,
                    Err(error) => return Err(error),
                };
                match Keystore::restore(stored.identity.as_str(), known_servers) {
                    Ok(keystore) => Ok(Opened { keystore, write: None }),
                    Err(error) => Err(error),
                }
            },
        }
    }

    /// What the file of this keystore has to hold.
    pub fn stored(&self) -> (stored: Stored)
        ensures
            is_stored(stored, *self),
    {
        let mut known_servers: Vec<StoredServer> = Vec::new();
        let mut i: usize = 0;
        while i < self.known_servers.len()
            invariant
                i <= self.known_servers@.len(),
                known_servers@.len() == i,
                forall|j: int|
                    0 <= j < i ==> (#[trigger] known_servers@[j]).authority@
                        == self.known_servers@[j].authority@ && known_servers@[j].fingerprint@
                        == text::hex(self.known_servers@[j].fingerprint@),
            decreases self.known_servers@.len() - i,
        {
            let known = &self.known_servers[i];
            known_servers.push(
                StoredServer {
                    authority: known.authority.clone(),
                    fingerprint: known.fingerprint.to_string(),
                },
            );
            i += 1;
        }
        Stored { identity: self.identity_hex(), known_servers }
    }

    pub fn identity(&self) -> (seed: &[u8; 32])
        ensures
            seed@ == self.seed(),
    {
        &self.identity
    }

    /// The seed as a file holds it.
    pub fn identity_hex(&self) -> (shown: String)
        ensures
            shown@ == text::hex(self.seed()),
    {
        text::hex_string(self.identity.as_slice())
    }

    pub fn known_servers(&self) -> (known: &Vec<KnownServer>)
        ensures
            known@ == self.known(),
    {
        &self.known_servers
    }

    fn position(&self, server: &str) -> (at: Option<usize>)
        ensures
            match (at, server_at(self.known(), server@)) {
                (Some(at), Some(expected)) => at == expected && at < self.known().len(),
                (None, None) => true,
                _ => false,
            },
    {
        let ghost names = authorities(self.known_servers@);
        let mut i: usize = 0;
        while i < self.known_servers.len()
            invariant
                i <= self.known_servers@.len(),
                names == authorities(self.known_servers@),
                forall|j: int| 0 <= j < i ==> #[trigger] names[j] != server@,
            decreases self.known_servers@.len() - i,
        {
            assert(names[i as int] == self.known_servers@[i as int].authority@);
            if text::same(self.known_servers[i].authority.as_str(), server) {
                proof {
                    keyed::the_first_is_the_place(names, server@, i as int);
                }
                return Some(i);
            }
            i += 1;
        }
        proof {
            keyed::a_place_is_the_first(names, server@);
        }
        None
    }

    /// The fingerprint a server is pinned to.
    pub fn pinned(&self, server: &str) -> (pin: Option<Fingerprint>)
        ensures
            match (pin, pin_of(self.known(), server@)) {
                (Some(pin), Some(expected)) => pin@ == expected,
                (None, None) => true,
                _ => false,
            },
    {
        match self.position(server) {
            Some(at) => Some(self.known_servers[at].fingerprint),
            None => None,
        }
    }

    /// Pins a server, in place of a fingerprint it was pinned to before.
    pub fn pin(&mut self, server: &str, fingerprint: Fingerprint)
        ensures
            final(self).seed() == old(self).seed(),
            match server_at(old(self).known(), server@) {
                Some(at) => {
                    &&& final(self).known().len() == old(self).known().len()
                    &&& final(self).known()[at as int].authority@ == server@
                    &&& final(self).known()[at as int].fingerprint == fingerprint
                    &&& forall|i: int|
                        0 <= i < old(self).known().len() && i != at ==> final(self).known()[i]
                            == #[trigger] old(self).known()[i]
                },
                None => {
                    &&& final(self).known().len() == old(self).known().len() + 1
                    &&& final(self).known().drop_last() == old(self).known()
                    &&& final(self).known().last().authority@ == server@
                    &&& final(self).known().last().fingerprint == fingerprint
                },
            },
            pin_of(final(self).known(), server@) == Some(fingerprint@),
            forall|other: Seq<char>|
                other != server@ ==> #[trigger] pin_of(final(self).known(), other) == pin_of(
                    old(self).known(),
                    other,
                ),
    {
        let ghost before = self.known_servers@;
        let pinned = KnownServer { authority: server.to_string(), fingerprint };
        match self.position(server) {
            Some(at) => {
                self.known_servers.set(at, pinned);
                proof {
                    let after = self.known_servers@;
                    server_is_there(before, server@);
                    assert(authorities(after) =~= authorities(before));
                    assert forall|other: Seq<char>| other != server@ implies #[trigger] pin_of(
                        after,
                        other,
                    ) == pin_of(before, other) by {
                        server_is_there(before, other);
                    }
                }
            },
            None => {
                self.known_servers.push(pinned);
                proof {
                    let after = self.known_servers@;
                    assert(after.drop_last() =~= before);
                    assert(authorities(after) =~= authorities(before).push(server@));
                    keyed::one_more_key(authorities(before), server@, server@);
                    assert forall|other: Seq<char>| other != server@ implies #[trigger] pin_of(
                        after,
                        other,
                    ) == pin_of(before, other) by {
                        keyed::one_more_key(authorities(before), server@, other);
                        server_is_there(before, other);
                    }
                }
            },
        }
    }
}

fn known_from(stored: &Vec<StoredServer>) -> (known: Result<Vec<KnownServer>, Error>)
    ensures
        match (known, read_servers(stored@)) {
            (Ok(known), Ok(expected)) => pins(known@) == expected,
            (Err(Error::Keystore(message)), Err(why)) => message@ == why,
            _ => false,
        },
{
    let mut known: Vec<KnownServer> = Vec::new();
    let mut i: usize = 0;
    assert(pins(known@) =~= Seq::empty());
    while i < stored.len()
        invariant
            i <= stored@.len(),
            read_servers(stored@.take(i as int)) == Ok::<Seq<(Seq<char>, Seq<u8>)>, Seq<char>>(
                pins(known@),
            ),
        decreases stored@.len() - i,
    {
        assert(stored@.take(i + 1).drop_last() =~= stored@.take(i as int));
        match Fingerprint::from_hex(stored[i].fingerprint.as_str()) {
            Ok(fingerprint) => {
                let ghost before = pins(known@);
                known.push(KnownServer { authority: stored[i].authority.clone(), fingerprint });
                assert(pins(known@) =~= before.push((stored@[i as int].authority@, fingerprint@)));
            },
            Err(error) => {
                proof {
                    a_malformed_server_stays(stored@, i + 1);
                }
                return Err(Error::Keystore(error.to_string()));
            },
        }
        i += 1;
    }
    assert(stored@.take(i as int) =~= stored@);
    Ok(known)
}

proof fn a_malformed_server_stays(stored: Seq<StoredServer>, upto: int)
    requires
        0 <= upto <= stored.len(),
        read_servers(stored.take(upto)) is Err,
    ensures
        read_servers(stored) == read_servers(stored.take(upto)),
    decreases stored.len(),
{
    if upto < stored.len() {
        assert(stored.drop_last().take(upto) =~= stored.take(upto));
        a_malformed_server_stays(stored.drop_last(), upto);
    } else {
        assert(stored.take(upto) =~= stored);
    }
}

proof fn written_servers_read_back(stored: Seq<StoredServer>, known: Seq<KnownServer>)
    requires
        stored.len() == known.len(),
        forall|i: int|
            0 <= i < known.len() ==> (#[trigger] stored[i]).authority@ == known[i].authority@
                && stored[i].fingerprint@ == text::hex(known[i].fingerprint@),
    ensures
        read_servers(stored) == Ok::<Seq<(Seq<char>, Seq<u8>)>, Seq<char>>(pins(known)),
    decreases known.len(),
{
    if known.len() == 0 {
        assert(pins(known) =~= Seq::empty());
    } else {
        let last = known.len() - 1;
        assert forall|i: int| 0 <= i < last implies (
        #[trigger] stored.drop_last()[i]).authority@ == known.drop_last()[i].authority@
            && stored.drop_last()[i].fingerprint@ == text::hex(
            known.drop_last()[i].fingerprint@,
        ) by {
            assert(stored[i].authority@ == known[i].authority@);
        }
        written_servers_read_back(stored.drop_last(), known.drop_last());
        assert(stored[last].authority@ == known[last].authority@);
        fingerprint::a_fingerprint_round_trips(known[last].fingerprint);
        assert(pins(known) =~= pins(known.drop_last()).push(
            (known[last].authority@, known[last].fingerprint@),
        ));
    }
}

proof fn same_pins_say_the_same(one: Seq<KnownServer>, two: Seq<KnownServer>, authority: Seq<char>)
    requires
        pins(one) == pins(two),
    ensures
        pin_of(one, authority) == pin_of(two, authority),
{
    assert(pins(one).len() == one.len() && pins(two).len() == two.len());
    assert forall|i: int| 0 <= i < one.len() implies one[i].authority@ == two[i].authority@
        && one[i].fingerprint@ == two[i].fingerprint@ by {
        assert(pins(one)[i] == pins(two)[i]);
    }
    assert(authorities(one) =~= authorities(two));
    server_is_there(one, authority);
}

/// A keystore that was written comes back with its seed and with every pin, and
/// nothing is written anew.
pub proof fn a_written_keystore_comes_back(
    keystore: Keystore,
    stored: Stored,
    again: Result<Opened, Error>,
    authority: Seq<char>,
)
    requires
        is_stored(stored, keystore),
        is_opening(Some(Ok(stored)), again),
    ensures
        again matches Ok(again) && {
            &&& again.keystore.seed() == keystore.seed()
            &&& pin_of(again.keystore.known(), authority) == pin_of(keystore.known(), authority)
            &&& again.write is None
        },
{
    assert(keystore.seed().len() == 32);
    a_seed_round_trips(keystore.seed());
    written_servers_read_back(stored.known_servers@, keystore.known());
    if let Ok(again) = again {
        same_pins_say_the_same(keystore.known(), again.keystore.known(), authority);
    }
}

/// The identity is made once: whatever a keystore was opened from, its file then
/// opens to the same seed and the same pins, and is left as it is.
pub proof fn a_keystore_is_made_once(
    contents: Option<Result<Stored, String>>,
    opened: Opened,
    again: Result<Opened, Error>,
    authority: Seq<char>,
)
    requires
        is_opening(contents, Ok(opened)),
        is_opening(contents_after(contents, Ok(opened)), again),
    ensures
        again matches Ok(again) && {
            &&& again.keystore.seed() == opened.keystore.seed()
            &&& pin_of(again.keystore.known(), authority) == pin_of(
                opened.keystore.known(),
                authority,
            )
            &&& again.write is None
        },
{
    match contents {
        None => {
            a_written_keystore_comes_back(
                opened.keystore,
                opened.write->0,
                again,
                authority,
            );
        },
        Some(_) => {
            if let Ok(again) = again {
                same_pins_say_the_same(
                    opened.keystore.known(),
                    again.keystore.known(),
                    authority,
                );
            }
        },
    }
}

/// A file that is refused is left as it was, never replaced, and only a file that is
/// there is refused.
pub proof fn a_refused_keystore_is_left_alone(
    contents: Option<Result<Stored, String>>,
    error: Error,
)
    requires
        is_opening(contents, Err(error)),
    ensures
        error is Keystore,
        contents is Some,
        contents_after(contents, Err(error)) == contents,
{
}

proof fn server_is_there(known: Seq<KnownServer>, authority: Seq<char>)
    ensures
        server_at(known, authority) matches Some(at) ==> at < known.len()
            && known[at as int].authority@ == authority,
{
    keyed::a_place_is_the_first(authorities(known), authority);
}

/// The seed that text spells, as UTF-8.
pub open spec fn decoded(shown: Seq<u8>) -> Result<Seq<u8>, Seq<char>> {
    if shown.len() != 64 {
        Err("identity key is not 32 bytes"@)
    } else if !text::all_hex(shown) {
        Err("identity key is not hexadecimal"@)
    } else {
        Ok(text::unhex(shown))
    }
}

/// The seed that a file's text spells.
pub fn decode_seed(s: &str) -> (seed: Result<[u8; 32], Error>)
    ensures
        match (seed, decoded(vstd::utf8::encode_utf8(s@))) {
            (Ok(seed), Ok(expected)) => seed@ == expected,
            (Err(Error::Keystore(message)), Err(why)) => message@ == why,
            _ => false,
        },
{
    let shown = s.as_bytes();
    if shown.len() != 64 {
        return Err(Error::Keystore("identity key is not 32 bytes".to_string()));
    }
    let mut out = [0u8; 32];
    let mut i: usize = 0;
    while i < 32
        invariant
            i <= 32,
            shown@.len() == 64,
            shown@ == vstd::utf8::encode_utf8(s@),
            forall|j: int| 0 <= j < 2 * i ==> text::hex_value(#[trigger] shown@[j]) is Some,
            forall|j: int| 0 <= j < i ==> out@[j] == text::unhex(shown@)[j],
        decreases 32 - i,
    {
        match (text::hex_nibble(shown[2 * i]), text::hex_nibble(shown[2 * i + 1])) {
            (Some(high), Some(low)) => {
                out[i] = high * 16 + low;
            },
            _ => {
                assert(!text::all_hex(shown@));
                return Err(Error::Keystore("identity key is not hexadecimal".to_string()));
            },
        }
        i += 1;
    }
    assert(out@ =~= text::unhex(shown@));
    Ok(out)
}

/// A seed survives being written down: what a keystore writes reads back as the
/// same seed.
pub proof fn a_seed_round_trips(seed: Seq<u8>)
    requires
        seed.len() == 32,
    ensures
        decoded(vstd::utf8::encode_utf8(text::hex(seed))) == Ok::<Seq<u8>, Seq<char>>(seed),
{
    text::hex_round_trips(seed);
}

/// A server is pinned to the fingerprint of the first entry under its name, and to none
/// where there is no such entry.
pub proof fn a_pin_is_of_the_first_entry(known: Seq<KnownServer>, authority: Seq<char>, i: int)
    requires
        0 <= i <= known.len(),
        forall|k: int| 0 <= k < i ==> (#[trigger] known[k]).authority@ != authority,
        i < known.len() ==> known[i].authority@ == authority,
    ensures
        i < known.len() ==> pin_of(known, authority) == Some(known[i].fingerprint@),
        i == known.len() ==> pin_of(known, authority) is None,
{
    let names = authorities(known);
    assert forall|k: int| 0 <= k < i implies #[trigger] names[k] != authority by {
        assert(names[k] == known[k].authority@);
    }
    keyed::a_place_is_the_first(names, authority);
    if i < known.len() {
        keyed::the_first_is_the_place(names, authority, i);
    }
}

/// A file's servers are read one by one and in order: all of them where each fingerprint
/// reads, and none of them otherwise.
pub proof fn servers_are_read_one_by_one(stored: Seq<StoredServer>, i: int)
    requires
        0 <= i < stored.len(),
    ensures
        read_servers(stored) is Ok ==> {
            let known = read_servers(stored)->Ok_0;
            &&& known.len() == stored.len()
            &&& known[i].0 == stored[i].authority@
            &&& fingerprint::parsed(stored[i].fingerprint@) == Ok::<Seq<u8>, Seq<char>>(known[i].1)
        },
        fingerprint::parsed(stored[i].fingerprint@) is Err ==> read_servers(stored) is Err,
        (forall|k: int|
            0 <= k < stored.len() ==> fingerprint::parsed(
                (#[trigger] stored[k]).fingerprint@,
            ) is Ok) ==> read_servers(stored) is Ok,
    decreases stored.len(),
{
    let before = stored.drop_last();
    if before.len() == 0 {
        assert(read_servers(before) == Ok::<Seq<(Seq<char>, Seq<u8>)>, Seq<char>>(Seq::empty()));
    } else {
        servers_are_read_one_by_one(before, if i < before.len() { i } else { 0 });
    }
    if forall|k: int|
        0 <= k < stored.len() ==> fingerprint::parsed(
            (#[trigger] stored[k]).fingerprint@,
        ) is Ok {
        assert forall|k: int| 0 <= k < before.len() implies fingerprint::parsed(
            (#[trigger] before[k]).fingerprint@,
        ) is Ok by {
            assert(before[k] == stored[k]);
        }
        assert(fingerprint::parsed(stored[stored.len() - 1].fingerprint@) is Ok);
    }
}

/// A seed is 64 hexadecimal digits, and nothing else is.
pub proof fn sixty_four_digits_are_a_seed(shown: Seq<u8>)
    ensures
        decoded(shown) is Ok <==> shown.len() == 64 && forall|i: int|
            0 <= i < 64 ==> text::hex_value(#[trigger] shown[i]) is Some,
        decoded(shown) is Ok ==> decoded(shown)->Ok_0.len() == 32,
{
    if shown.len() == 64 && text::all_hex(shown) {
        assert forall|i: int| 0 <= i < 64 implies text::hex_value(#[trigger] shown[i]) is Some by {}
    }
}

/// A file holds the seed and every server, in order, each as lower-case hexadecimal.
pub proof fn a_file_holds_the_whole_keystore(stored: Stored, keystore: Keystore, i: int)
    requires
        is_stored(stored, keystore),
        0 <= i < keystore.known().len(),
    ensures
        stored.identity@.len() == 64,
        stored.identity@ == text::hex(keystore.seed()),
        stored.known_servers@.len() == keystore.known().len(),
        stored.known_servers@[i].authority@ == keystore.known()[i].authority@,
        stored.known_servers@[i].fingerprint@ == text::hex(keystore.known()[i].fingerprint@),
{
    assert(keystore.seed().len() == 32);
}

} // verus!
