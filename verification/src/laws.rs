//! What holds of the map across several of its operations.
//!
//! Each operation says what it does to the map's view, the keys with their
//! values, and leaves the map well formed. The lemmas here draw from that
//! what a caller sees when operations follow one another. A state of the map
//! stands in them as a parameter of its own, tied to the state before it by
//! what the operation between them ensures.

use crate::container::MultiKeyMap;
use crate::index_model::{
    bucket, lemma_owners_after_insert, lemma_owners_after_remove, owners,
};
use crate::mem_estimate::{
    lemma_clamped_monotonic, lemma_live_monotonic, lemma_reserved_monotonic, live_bytes,
    reserved_bytes, slot_bytes,
};
use crate::sub_keys::SubKeyed;
use std::collections::HashSet;
use std::hash::Hash;
use vstd::prelude::*;
use vstd::set_lib::lemma_len_subset;

verus! {

/// In a well-formed map the index and the keys agree.
///
/// Every key of the map is in the bucket of each of its sub-keys. No bucket
/// is empty. A bucket holds only keys of the map that list its sub-key. And
/// the buckets together hold exactly the keys of the map that have a sub-key
/// at all: a key without sub-keys is in the map and in no bucket.
pub proof fn lemma_index_consistent<K, SK, V>(map: MultiKeyMap<K, SK, V>) where
    K: Hash + Eq + Clone + SubKeyed<SK>,
    SK: Hash + Eq + Clone,

    requires
        MultiKeyMap::<K, SK, V>::keys_behave(),
        map.wf(),
    ensures
        forall|k: K, sk: SK|
            map@.contains_key(k) && #[trigger] k.sub_keys().contains(sk) ==> map.index().contains_key(
                sk,
            ) && map.index()[sk].contains(k),
        forall|sk: SK| #[trigger]
            map.index().contains_key(sk) ==> exists|k: K| #[trigger] map.index()[sk].contains(k),
        forall|sk: SK, k: K|
            map.index().contains_key(sk) && #[trigger] map.index()[sk].contains(k)
                ==> map@.contains_key(k) && k.sub_keys().contains(sk),
        forall|k: K|
            (exists|sk: SK| map.index().contains_key(sk) && #[trigger] map.index()[sk].contains(k))
                <==> #[trigger] map@.contains_key(k) && k.sub_keys().len() > 0,
{
    let keys = map@.dom();
    assert forall|k: K, sk: SK|
        map@.contains_key(k) && #[trigger] k.sub_keys().contains(sk) implies map.index().contains_key(
        sk,
    ) && map.index()[sk].contains(k) by {
        assert(owners(keys, sk).contains(k));
    }
    assert forall|sk: SK| #[trigger] map.index().contains_key(sk) implies exists|k: K| #[trigger]
        map.index()[sk].contains(k) by {
        let k = choose|k: K| owners(keys, sk).contains(k);
        assert(map.index()[sk].contains(k));
    }
    assert forall|k: K|
        (exists|sk: SK| map.index().contains_key(sk) && #[trigger] map.index()[sk].contains(k))
            <==> #[trigger] map@.contains_key(k) && k.sub_keys().len() > 0 by {
        if map@.contains_key(k) && k.sub_keys().len() > 0 {
            let sk = k.sub_keys()[0];
            assert(k.sub_keys().contains(sk));
            assert(owners(keys, sk).contains(k));
            assert(map.index().contains_key(sk) && map.index()[sk].contains(k));
        }
    }
}

/// What inserting a key does to the index: the key is in the bucket of each
/// of its sub-keys, once, however often it lists the sub-key, and every other
/// bucket stays as it was. For a key that the map held already this changes
/// nothing.
pub proof fn lemma_insert_enters_key<K, SK, V>(
    before: MultiKeyMap<K, SK, V>,
    after: MultiKeyMap<K, SK, V>,
    k: K,
    v: V,
) where K: Hash + Eq + Clone + SubKeyed<SK>, SK: Hash + Eq + Clone
    requires
        MultiKeyMap::<K, SK, V>::keys_behave(),
        before.wf(),
        after.wf(),
        after@ == before@.insert(k, v),
    ensures
        forall|sk: SK| #[trigger]
            after.index().contains_key(sk) <==> before.index().contains_key(sk)
                || k.sub_keys().contains(sk),
        forall|sk: SK| #[trigger]
            bucket(after.index(), sk) == (if k.sub_keys().contains(sk) {
                bucket(before.index(), sk).insert(k)
            } else {
                bucket(before.index(), sk)
            }),
{
    let keys = before@.dom();
    assert(after@.dom() =~= keys.insert(k));
    assert forall|sk: SK| #[trigger]
        after.index().contains_key(sk) <==> before.index().contains_key(sk)
            || k.sub_keys().contains(sk) by {
        lemma_owners_after_insert(keys, k, sk);
    }
    assert forall|sk: SK| #[trigger]
        bucket(after.index(), sk) == (if k.sub_keys().contains(sk) {
            bucket(before.index(), sk).insert(k)
        } else {
            bucket(before.index(), sk)
        }) by {
        lemma_owners_after_insert(keys, k, sk);
    }
}

/// What removing a key does to the index: the key leaves every bucket, also
/// where it listed a sub-key more than once; a bucket keeps its other keys,
/// and is gone exactly if it has none.
pub proof fn lemma_remove_strikes_key<K, SK, V>(
    before: MultiKeyMap<K, SK, V>,
    after: MultiKeyMap<K, SK, V>,
    k: K,
) where K: Hash + Eq + Clone + SubKeyed<SK>, SK: Hash + Eq + Clone
    requires
        MultiKeyMap::<K, SK, V>::keys_behave(),
        before.wf(),
        after.wf(),
        after@ == before@.remove(k),
    ensures
        forall|sk: SK| #[trigger]
            after.index().contains_key(sk) <==> !bucket(before.index(), sk).remove(k).is_empty(),
        forall|sk: SK| #[trigger]
            bucket(after.index(), sk) == bucket(before.index(), sk).remove(k),
{
    let keys = before@.dom();
    assert(after@.dom() =~= keys.remove(k));
    assert forall|sk: SK| #[trigger]
        after.index().contains_key(sk) <==> !bucket(before.index(), sk).remove(k).is_empty() by {
        lemma_owners_after_remove(keys, k, sk);
    }
    assert forall|sk: SK| #[trigger]
        bucket(after.index(), sk) == bucket(before.index(), sk).remove(k) by {
        lemma_owners_after_remove(keys, k, sk);
    }
}

/// Inserting a key that the map did not hold and then removing it gives
/// back the value that was inserted, and leaves the map as it was before the
/// two: the same keys with the same values, and the same index.
pub proof fn lemma_insert_remove_round_trip<K, SK, V>(
    before: MultiKeyMap<K, SK, V>,
    inserted: MultiKeyMap<K, SK, V>,
    removed: MultiKeyMap<K, SK, V>,
    k: K,
    v: V,
) where K: Hash + Eq + Clone + SubKeyed<SK>, SK: Hash + Eq + Clone
    requires
        MultiKeyMap::<K, SK, V>::keys_behave(),
        before.wf(),
        inserted.wf(),
        removed.wf(),
        !before@.contains_key(k),
        inserted@ == before@.insert(k, v),
        removed@ == inserted@.remove(k),
    ensures
        inserted@.get(k) == Some(v),
        removed@ == before@,
        removed.index() == before.index(),
{
    assert(removed@ =~= before@);
}

/// Inserting under a key that the map holds changes the value and nothing
/// else: the earlier value is what the map held, the later one is what it
/// holds now, and the index is untouched.
pub proof fn lemma_overwrite_keeps_index<K, SK, V>(
    first: MultiKeyMap<K, SK, V>,
    second: MultiKeyMap<K, SK, V>,
    k: K,
    v1: V,
    v2: V,
) where K: Hash + Eq + Clone + SubKeyed<SK>, SK: Hash + Eq + Clone
    requires
        MultiKeyMap::<K, SK, V>::keys_behave(),
        first.wf(),
        second.wf(),
        first@.get(k) == Some(v1),
        second@ == first@.insert(k, v2),
    ensures
        first@.get(k) == Some(v1),
        second@.get(k) == Some(v2),
        second@.dom() == first@.dom(),
        second.index() == first.index(),
{
    assert(second@.dom() =~= first@.dom());
}

/// As keys are inserted the estimate of live bytes does not fall.
pub proof fn lemma_utilisation_grows<K, SK, V>(
    before: MultiKeyMap<K, SK, V>,
    after: MultiKeyMap<K, SK, V>,
    k: K,
    v: V,
) where K: Hash + Eq + Clone + SubKeyed<SK>, SK: Hash + Eq + Clone
    requires
        MultiKeyMap::<K, SK, V>::keys_behave(),
        before.wf(),
        after.wf(),
        after@ == before@.insert(k, v),
    ensures
        MultiKeyMap::<K, SK, V>::utilisation_of(before@.len(), before.index().len())
            <= MultiKeyMap::<K, SK, V>::utilisation_of(after@.len(), after.index().len()),
{
    before.lemma_finite();
    after.lemma_finite();
    let keys = before@.dom();
    assert(after@.dom() =~= keys.insert(k));
    assert(before@.len() <= after@.len());
    assert forall|sk: SK| before.index().dom().contains(sk) implies after.index().dom().contains(
        sk,
    ) by {
        let o = choose|o: K| owners(keys, sk).contains(o);
        assert(owners(keys.insert(k), sk).contains(o));
    }
    lemma_len_subset(before.index().dom(), after.index().dom());
    let store_slot = slot_bytes(vstd::layout::size_of::<K>(), vstd::layout::size_of::<V>());
    let index_slot = slot_bytes(
        vstd::layout::size_of::<SK>(),
        vstd::layout::size_of::<HashSet<K>>(),
    );
    lemma_live_monotonic(before@.len(), after@.len(), store_slot);
    lemma_live_monotonic(before.index().len(), after.index().len(), index_slot);
    lemma_clamped_monotonic(
        live_bytes(before@.len(), store_slot) + live_bytes(before.index().len(), index_slot),
        live_bytes(after@.len(), store_slot) + live_bytes(after.index().len(), index_slot),
    );
}

/// As the capacities of the two tables grow the estimate of reserved bytes
/// does not fall.
pub proof fn lemma_usage_grows<K, SK, V>(
    store_capacity1: nat,
    index_capacity1: nat,
    store_capacity2: nat,
    index_capacity2: nat,
) where K: Hash + Eq + Clone + SubKeyed<SK>, SK: Hash + Eq + Clone
    requires
        store_capacity1 <= store_capacity2,
        index_capacity1 <= index_capacity2,
    ensures
        MultiKeyMap::<K, SK, V>::usage_of(store_capacity1, index_capacity1) <= MultiKeyMap::<
            K,
            SK,
            V,
        >::usage_of(store_capacity2, index_capacity2),
{
    let store_slot = slot_bytes(vstd::layout::size_of::<K>(), vstd::layout::size_of::<V>());
    let index_slot = slot_bytes(
        vstd::layout::size_of::<SK>(),
        vstd::layout::size_of::<HashSet<K>>(),
    );
    lemma_reserved_monotonic(store_capacity1, store_capacity2, store_slot);
    lemma_reserved_monotonic(index_capacity1, index_capacity2, index_slot);
    lemma_clamped_monotonic(
        reserved_bytes(store_capacity1, store_slot) + reserved_bytes(index_capacity1, index_slot),
        reserved_bytes(store_capacity2, store_slot) + reserved_bytes(index_capacity2, index_slot),
    );
}

} // verus!
