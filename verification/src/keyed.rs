//! Where a key stands in a sequence of them.

use vstd::prelude::*;

verus! {

/// Where a key first stands.
pub open spec fn place<K>(keys: Seq<K>, key: K) -> Option<nat>
    decreases keys.len(),
{
    if keys.len() == 0 {
        None
    } else {
        match place(keys.drop_last(), key) {
            Some(at) => Some(at),
            None => if keys.last() == key {
                Some((keys.len() - 1) as nat)
            } else {
                None
            },
        }
    }
}

/// A key that is found stands where it is found, and nowhere before. One that is
/// not found stands nowhere.
pub proof fn a_place_is_the_first<K>(keys: Seq<K>, key: K)
    ensures
        match place(keys, key) {
            Some(at) => {
                &&& at < keys.len()
                &&& keys[at as int] == key
                &&& forall|i: int| 0 <= i < at ==> #[trigger] keys[i] != key
            },
            None => forall|i: int| 0 <= i < keys.len() ==> #[trigger] keys[i] != key,
        },
    decreases keys.len(),
{
    if keys.len() > 0 {
        let before = keys.drop_last();
        a_place_is_the_first(before, key);
        assert forall|i: int| 0 <= i < before.len() implies before[i] == #[trigger] keys[i] by {}
    }
}

/// Where a key stands with none like it before, it is found.
pub proof fn the_first_is_the_place<K>(keys: Seq<K>, key: K, at: int)
    requires
        0 <= at < keys.len(),
        keys[at] == key,
        forall|i: int| 0 <= i < at ==> #[trigger] keys[i] != key,
    ensures
        place(keys, key) == Some(at as nat),
{
    a_place_is_the_first(keys, key);
}

/// A key is found among more keys where it was found among fewer, and the newest is
/// found only where none like it came before.
pub proof fn one_more_key<K>(keys: Seq<K>, newest: K, key: K)
    ensures
        place(keys.push(newest), key) == match place(keys, key) {
            Some(at) => Some(at),
            None => if newest == key {
                Some(keys.len())
            } else {
                None
            },
        },
{
    assert(keys.push(newest).drop_last() =~= keys);
}

} // verus!
