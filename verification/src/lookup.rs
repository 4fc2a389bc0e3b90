//! Lookup by key in a sequence where the first entry with a key wins.

use vstd::prelude::*;

verus! {

/// `i` is the position of the first entry of `keys` that equals `key`.
pub open spec fn is_first_match<K>(keys: Seq<K>, key: K, i: int) -> bool {
    &&& 0 <= i < keys.len()
    &&& keys[i] == key
    &&& forall|j: int| 0 <= j < i ==> keys[j] != key
}

/// Position of the first entry of `keys` that equals `key`, if there is one.
pub open spec fn first_match<K>(keys: Seq<K>, key: K) -> Option<int> {
    if exists|i: int| is_first_match(keys, key, i) {
        Some(choose|i: int| is_first_match(keys, key, i))
    } else {
        None
    }
}

pub proof fn lemma_first_match_found<K>(keys: Seq<K>, key: K, i: int)
    requires
        is_first_match(keys, key, i),
    ensures
        first_match(keys, key) == Some(i),
{
    let chosen = choose|c: int| is_first_match(keys, key, c);
    assert(is_first_match(keys, key, chosen));
    if chosen < i {
        assert(keys[chosen] != key);
    } else if i < chosen {
        assert(keys[i] != key);
    }
}

pub proof fn lemma_first_match_absent<K>(keys: Seq<K>, key: K)
    requires
        forall|j: int| 0 <= j < keys.len() ==> keys[j] != key,
    ensures
        first_match(keys, key) is None,
{
}

/// A lookup succeeds exactly for the keys that occur, and it lands on an
/// entry with that key.
pub proof fn lemma_first_match_contains<K>(keys: Seq<K>, key: K)
    ensures
        first_match(keys, key) is Some <==> keys.contains(key),
        first_match(keys, key) matches Some(i) ==> is_first_match(keys, key, i),
    decreases keys.len(),
{
    if keys.contains(key) {
        let at = choose|i: int| 0 <= i < keys.len() && keys[i] == key;
        lemma_least_match(keys, key, at);
    }
}

/// Below any position that holds `key` there is a first one.
proof fn lemma_least_match<K>(keys: Seq<K>, key: K, at: int)
    requires
        0 <= at < keys.len(),
        keys[at] == key,
    ensures
        exists|i: int| is_first_match(keys, key, i),
    decreases at,
{
    if exists|j: int| 0 <= j < at && keys[j] == key {
        let j = choose|j: int| 0 <= j < at && keys[j] == key;
        lemma_least_match(keys, key, j);
    } else {
        assert(is_first_match(keys, key, at));
    }
}

} // verus!
