//! The map itself.

use crate::index_model::{
    enter_one, entered, lemma_entered_all, lemma_entered_none, lemma_entered_step,
    lemma_struck_all, lemma_struck_none, lemma_struck_step, owners, strike_one, struck,
    sub_key_index,
};
use crate::key_model::{duplicate, key_type_ok};
use crate::mem_estimate::{
    clamped, lemma_clamped_monotonic, lemma_clamped_sum, lemma_live_at_most_reserved, live_bytes,
    reserved_bytes, slot_bytes, table_usage, table_utilisation,
};
use crate::sub_keys::SubKeyed;
use crate::tables::{table_capacity, table_get_mut};
use std::collections::{HashMap, HashSet};
use std::hash::Hash;
use vstd::prelude::*;
use vstd::std_specs::iter::IteratorSpec;

verus! {

/// A map from composite keys to values, with an index from each sub-key to
/// the keys that list it.
///
/// The view of the map is the `Map` of its keys and values. The index is a
/// function of the keys alone (`sub_key_index`), which `wf` states and every
/// operation keeps.
///
/// What the operations promise, they promise for key types that behave as
/// keys of a hash table (`keys_behave`). With other key types they still run
/// and end; nothing is said of what they return.
#[derive(Debug)]
pub struct MultiKeyMap<K, SK, V> where K: Hash + Eq + Clone, SK: Hash + Eq + Clone {
    store: HashMap<K, V>,
    idx: HashMap<SK, HashSet<K>>,
}

/// The buckets of a table of hash sets, each as the set it holds.
spec fn buckets<K, SK>(table: Map<SK, HashSet<K>>) -> Map<SK, Set<K>> {
    Map::new(|sk: SK| table.contains_key(sk), |sk: SK| table[sk]@)
}

impl<K, SK, V> View for MultiKeyMap<K, SK, V> where K: Hash + Eq + Clone, SK: Hash + Eq + Clone {
    type V = Map<K, V>;

    /// The keys that the map holds, each with its value.
    closed spec fn view(&self) -> Map<K, V> {
        self.store@
    }
}

impl<K, SK, V> MultiKeyMap<K, SK, V> where
    K: Hash + Eq + Clone + SubKeyed<SK>,
    SK: Hash + Eq + Clone,
 {
    /// Both key types behave as keys of a hash table.
    pub open spec fn keys_behave() -> bool {
        key_type_ok::<K>() && key_type_ok::<SK>()
    }

    /// The index as it is stored: each sub-key that has a bucket, with the
    /// keys in that bucket.
    pub closed spec fn index(&self) -> Map<SK, Set<K>> {
        buckets(self.idx@)
    }

    /// The map is well formed: its index is the one that belongs to the keys
    /// it holds.
    pub open spec fn wf(&self) -> bool {
        Self::keys_behave() ==> self.index() == sub_key_index::<K, SK>(self@.dom())
    }

    /// The map holds finitely many keys and finitely many buckets.
    pub proof fn lemma_finite(&self)
        ensures
            self@.dom().finite(),
            self.index().dom().finite(),
    {
        assert(self.index().dom() =~= self.idx@.dom());
    }

    /// An empty map: no key, no bucket.
    pub fn new() -> (map: Self)
        ensures
            map.wf(),
            map@ == Map::<K, V>::empty(),
            map.index() == Map::<SK, Set<K>>::empty(),
    {
        let map = MultiKeyMap { store: HashMap::new(), idx: HashMap::new() };
        assert(map.index() =~= Map::<SK, Set<K>>::empty());
        assert(sub_key_index::<K, SK>(map@.dom()) =~= Map::<SK, Set<K>>::empty());
        map
    }

    /// Stores `v` under `k` and returns the value that `k` had before, if
    /// it had one.
    ///
    /// A key that is new is entered into the bucket of each of its sub-keys;
    /// for a key that the map held already only the value changes.
    pub fn insert(&mut self, k: K, v: V) -> (prev: Option<V>)
        requires
            old(self).wf(),
        ensures
            final(self).wf(),
            Self::keys_behave() ==> final(self)@ == old(self)@.insert(k, v),
            Self::keys_behave() ==> prev == old(self)@.get(k),
    {
        let prev = self.store.insert(duplicate(&k), v);
        if prev.is_none() {
            let n = k.sub_key_count();
            let mut i: usize = 0;
            proof {
                lemma_entered_none(buckets(old(self).idx@), k);
                assert(k.sub_keys().take(0) =~= Seq::<SK>::empty());
            }
            while i < n
                invariant
                    n == k.sub_keys().len(),
                    i <= n,
                    Self::keys_behave() ==> self.store@ == old(self).store@.insert(k, v),
                    Self::keys_behave() ==> buckets(self.idx@) == entered(
                        buckets(old(self).idx@),
                        k,
                        k.sub_keys().take(i as int),
                    ),
                decreases n - i,
            {
                let sk = k.sub_key(i);
                let ghost before = self.idx@;
                match table_get_mut(&mut self.idx, sk) {
                    Some(bucket) => {
                        bucket.insert(duplicate(&k));
                    },
                    None => {
                        let mut bucket = HashSet::new();
                        bucket.insert(duplicate(&k));
                        self.idx.insert(duplicate(sk), bucket);
                    },
                }
                proof {
                    if Self::keys_behave() {
                        assert(buckets(self.idx@) =~= enter_one(buckets(before), *sk, k));
                        lemma_entered_step(
                            buckets(old(self).idx@),
                            k,
                            k.sub_keys().take(i as int),
                            *sk,
                        );
                        assert(k.sub_keys().take(i + 1) =~= k.sub_keys().take(i as int).push(*sk));
                    }
                }
                i += 1;
            }
            proof {
                assert(k.sub_keys().take(n as int) =~= k.sub_keys());
                lemma_entered_all::<K, SK>(old(self)@.dom(), k);
            }
        } else {
            assert(Self::keys_behave() ==> self@.dom() =~= old(self)@.dom());
        }
        prev
    }

    /// Takes `k` out of the map and returns the value it had, if the map
    /// held it.
    ///
    /// The key leaves the bucket of each of its sub-keys, and a bucket that
    /// this leaves empty is dropped. A sub-key that the key lists more than
    /// once is done with at its first mention. A map that does not hold `k`
    /// is left as it is.
    pub fn remove(&mut self, k: &K) -> (prev: Option<V>)
        requires
            old(self).wf(),
        ensures
            final(self).wf(),
            Self::keys_behave() ==> final(self)@ == old(self)@.remove(*k),
            Self::keys_behave() ==> prev == old(self)@.get(*k),
    {
        let prev = self.store.remove(k);
        if prev.is_some() {
            let n = k.sub_key_count();
            let mut i: usize = 0;
            proof {
                lemma_struck_none(buckets(old(self).idx@), *k);
                assert(k.sub_keys().take(0) =~= Seq::<SK>::empty());
            }
            while i < n
                invariant
                    n == k.sub_keys().len(),
                    i <= n,
                    Self::keys_behave() ==> self.store@ == old(self).store@.remove(*k),
                    Self::keys_behave() ==> buckets(self.idx@) == struck(
                        buckets(old(self).idx@),
                        *k,
                        k.sub_keys().take(i as int),
                    ),
                decreases n - i,
            {
                let sk = k.sub_key(i);
                let ghost before = self.idx@;
                let emptied = match table_get_mut(&mut self.idx, sk) {
                    Some(bucket) => {
                        bucket.remove(k);
                        bucket.is_empty()
                    },
                    None => false,
                };
                if emptied {
                    self.idx.remove(sk);
                }
                proof {
                    if Self::keys_behave() {
                        assert(buckets(self.idx@) =~= strike_one(buckets(before), *sk, *k));
                        lemma_struck_step(
                            buckets(old(self).idx@),
                            *k,
                            k.sub_keys().take(i as int),
                            *sk,
                        );
                        assert(k.sub_keys().take(i + 1) =~= k.sub_keys().take(i as int).push(*sk));
                    }
                }
                i += 1;
            }
            proof {
                assert(k.sub_keys().take(n as int) =~= k.sub_keys());
                lemma_struck_all::<K, SK>(old(self)@.dom(), *k);
            }
        } else {
            assert(Self::keys_behave() ==> self@ =~= old(self)@);
        }
        prev
    }

    /// Whether the map holds `k`.
    pub fn contains_key(&self, k: &K) -> (found: bool)
        ensures
            Self::keys_behave() ==> found == self@.contains_key(*k),
    {
        self.store.contains_key(k)
    }

    /// The value stored under `k`, if the map holds `k`.
    pub fn get(&self, k: &K) -> (value: Option<&V>)
        ensures
            Self::keys_behave() ==> match value {
                Some(v) => self@.contains_key(*k) && *v == self@[*k],
                None => !self@.contains_key(*k),
            },
    {
        self.store.get(k)
    }

    /// A mutable reference to the value stored under `k`, if the map holds
    /// `k`. What is written through it becomes the value of `k`; the keys
    /// and the index stay as they are.
    pub fn get_mut(&mut self, k: &K) -> (value: Option<&mut V>)
        requires
            old(self).wf(),
        ensures
            final(self).wf(),
            final(self).index() == old(self).index(),
            Self::keys_behave() ==> match value {
                Some(v) => {
                    &&& old(self)@.contains_key(*k)
                    &&& *v == old(self)@[*k]
                    &&& final(self)@ == old(self)@.insert(*k, *final(v))
                },
                None => !old(self)@.contains_key(*k) && final(self)@ == old(self)@,
            },
    {
        let value = table_get_mut(&mut self.store, k);
        proof {
            assert forall|v: V| old(self)@.contains_key(*k) implies #[trigger] old(self)@.insert(
                *k,
                v,
            ).dom() =~= old(self)@.dom() by {}
        }
        value
    }

    /// The keys that list `sk`, as an iterator over the bucket of `sk`; or
    /// nothing, if no key of the map lists `sk`.
    ///
    /// The iterator yields each key of the bucket once, in no particular
    /// order. In a well-formed map the bucket of `sk` holds the keys of the
    /// map that list `sk`, and there is no bucket without a key.
    pub fn keys_containing(&self, sk: &SK) -> (keys: Option<impl Iterator<Item = &K>>)
        requires
            self.wf(),
        ensures
            Self::keys_behave() ==> match keys {
                Some(it) => {
                    &&& self.index().contains_key(*sk)
                    &&& !owners(self@.dom(), *sk).is_empty()
                    &&& it.obeys_prophetic_iter_laws()
                    &&& it.remaining().unref().to_set() == owners(self@.dom(), *sk)
                    &&& it.remaining().no_duplicates()
                },
                None => !self.index().contains_key(*sk) && owners(self@.dom(), *sk).is_empty(),
            },
    {
        let keys = match self.idx.get(sk) {
            Some(bucket) => Some(bucket.iter()),
            None => None,
        };
        proof {
            if Self::keys_behave() {
                let listed = owners(self@.dom(), *sk);
                if self.index().contains_key(*sk) {
                    assert(self.index()[*sk] == listed);
                    let k = choose|k: K| owners(self@.dom(), *sk).contains(k);
                    assert(listed.contains(k));
                } else {
                    assert forall|k: K| !listed.contains(k) by {}
                    assert(listed =~= Set::<K>::empty());
                }
            }
        }
        keys
    }

    /// The estimate of live bytes for a map that holds `keys` keys and
    /// `buckets` buckets: the live bytes of its two tables.
    pub open spec fn utilisation_of(keys: nat, buckets: nat) -> u64 {
        clamped(
            live_bytes(keys, slot_bytes(vstd::layout::size_of::<K>(), vstd::layout::size_of::<V>()))
                + live_bytes(
                buckets,
                slot_bytes(vstd::layout::size_of::<SK>(), vstd::layout::size_of::<HashSet<K>>()),
            ),
        )
    }

    /// The estimate of reserved bytes for a map whose two tables have the
    /// capacities given: the reserved bytes of the two.
    pub open spec fn usage_of(store_capacity: nat, index_capacity: nat) -> u64 {
        clamped(
            reserved_bytes(
                store_capacity,
                slot_bytes(vstd::layout::size_of::<K>(), vstd::layout::size_of::<V>()),
            ) + reserved_bytes(
                index_capacity,
                slot_bytes(vstd::layout::size_of::<SK>(), vstd::layout::size_of::<HashSet<K>>()),
            ),
        )
    }

    /// An estimate of the bytes that the map has reserved, slack included.
    ///
    /// The capacities of the two tables are whatever the allocator gave
    /// them; the estimate is `usage_of` those two, each of which has room
    /// for the entries of its table. So it is never below `mem_utalisation`.
    pub fn mem_usage(&self) -> (bytes: u64)
        ensures
            Self::keys_behave() ==> (exists|store_capacity: usize, index_capacity: usize|
                store_capacity >= self@.len() && index_capacity >= self.index().len() && bytes
                    == #[trigger] Self::usage_of(store_capacity as nat, index_capacity as nat)),
            Self::keys_behave() ==> bytes >= Self::utilisation_of(
                self@.len(),
                self.index().len(),
            ),
    {
        let store_capacity = table_capacity(&self.store);
        let index_capacity = table_capacity(&self.idx);
        let store_bytes = table_usage(
            store_capacity,
            core::mem::size_of::<K>(),
            core::mem::size_of::<V>(),
        );
        let index_bytes = table_usage(
            index_capacity,
            core::mem::size_of::<SK>(),
            core::mem::size_of::<HashSet<K>>(),
        );
        let bytes = store_bytes.saturating_add(index_bytes);
        proof {
            if Self::keys_behave() {
                let store_slot = slot_bytes(
                    vstd::layout::size_of::<K>(),
                    vstd::layout::size_of::<V>(),
                );
                let index_slot = slot_bytes(
                    vstd::layout::size_of::<SK>(),
                    vstd::layout::size_of::<HashSet<K>>(),
                );
                assert(self.index().dom() =~= self.idx@.dom());
                lemma_clamped_sum(
                    reserved_bytes(store_capacity as nat, store_slot),
                    reserved_bytes(index_capacity as nat, index_slot),
                );
                assert(bytes == Self::usage_of(store_capacity as nat, index_capacity as nat));
                lemma_live_at_most_reserved(self@.len(), store_capacity as nat, store_slot);
                lemma_live_at_most_reserved(self.index().len(), index_capacity as nat, index_slot);
                lemma_clamped_monotonic(
                    live_bytes(self@.len(), store_slot) + live_bytes(
                        self.index().len(),
                        index_slot,
                    ),
                    reserved_bytes(store_capacity as nat, store_slot) + reserved_bytes(
                        index_capacity as nat,
                        index_slot,
                    ),
                );
            }
        }
        bytes
    }

    /// An estimate of the bytes that the entries of the map take, without
    /// slack: `utilisation_of` the number of keys and the number of buckets.
    pub fn mem_utalisation(&self) -> (bytes: u64)
        ensures
            Self::keys_behave() ==> bytes == Self::utilisation_of(
                self@.len(),
                self.index().len(),
            ),
    {
        let store_bytes = table_utilisation(
            self.store.len(),
            core::mem::size_of::<K>(),
            core::mem::size_of::<V>(),
        );
        let index_bytes = table_utilisation(
            self.idx.len(),
            core::mem::size_of::<SK>(),
            core::mem::size_of::<HashSet<K>>(),
        );
        proof {
            assert(self.index().dom() =~= self.idx@.dom());
            lemma_clamped_sum(
                live_bytes(
                    self@.len(),
                    slot_bytes(vstd::layout::size_of::<K>(), vstd::layout::size_of::<V>()),
                ),
                live_bytes(
                    self.index().len(),
                    slot_bytes(
                        vstd::layout::size_of::<SK>(),
                        vstd::layout::size_of::<HashSet<K>>(),
                    ),
                ),
            );
        }
        store_bytes.saturating_add(index_bytes)
    }
}

} // verus!
