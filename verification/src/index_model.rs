//! The secondary index as a mathematical object.
//!
//! The index is a function of the set of keys that the map holds: nothing
//! else goes into it. This module defines that function, the two
//! half-finished states that the index passes through while a key is being
//! entered or struck, and the lemmas that lead from one to the other.

use crate::sub_keys::SubKeyed;
use vstd::prelude::*;

verus! {

/// The keys among `keys` that list `sk` as one of their sub-keys.
pub open spec fn owners<K: SubKeyed<SK>, SK>(keys: Set<K>, sk: SK) -> Set<K> {
    Set::new(|k: K| keys.contains(k) && k.sub_keys().contains(sk))
}

/// The index that belongs to the key set `keys`.
///
/// A sub-key is in its domain exactly if some key of `keys` lists it, and it
/// is mapped to all the keys of `keys` that list it. So no bucket is empty,
/// and a key that lists a sub-key twice is in that bucket once.
pub open spec fn sub_key_index<K: SubKeyed<SK>, SK>(keys: Set<K>) -> Map<SK, Set<K>> {
    Map::new(
        |sk: SK| exists|k: K| #[trigger] owners(keys, sk).contains(k),
        |sk: SK| owners(keys, sk),
    )
}

/// What `index` holds under `sk`: its bucket, or nothing where it has none.
pub open spec fn bucket<K, SK>(index: Map<SK, Set<K>>, sk: SK) -> Set<K> {
    if index.contains_key(sk) {
        index[sk]
    } else {
        Set::empty()
    }
}

/// The index `base` after `k` has been entered under each sub-key of `done`.
pub open spec fn entered<K, SK>(base: Map<SK, Set<K>>, k: K, done: Seq<SK>) -> Map<SK, Set<K>> {
    Map::new(
        |sk: SK| base.contains_key(sk) || done.contains(sk),
        |sk: SK|
            if done.contains(sk) {
                bucket(base, sk).insert(k)
            } else {
                base[sk]
            },
    )
}

/// The index `base` after `k` has been struck from the bucket of each
/// sub-key of `done`, a bucket that this left empty being dropped.
pub open spec fn struck<K, SK>(base: Map<SK, Set<K>>, k: K, done: Seq<SK>) -> Map<SK, Set<K>> {
    Map::new(
        |sk: SK| base.contains_key(sk) && !(done.contains(sk) && base[sk].remove(k).is_empty()),
        |sk: SK|
            if done.contains(sk) {
                base[sk].remove(k)
            } else {
                base[sk]
            },
    )
}

/// One step of entering: `k` joins the bucket of `sk`, which is made if it
/// is not there.
pub open spec fn enter_one<K, SK>(index: Map<SK, Set<K>>, sk: SK, k: K) -> Map<SK, Set<K>> {
    index.insert(sk, bucket(index, sk).insert(k))
}

/// One step of striking: `k` leaves the bucket of `sk`, and the bucket goes
/// with it if `k` was its last key. Where `sk` has no bucket nothing changes.
pub open spec fn strike_one<K, SK>(index: Map<SK, Set<K>>, sk: SK, k: K) -> Map<SK, Set<K>> {
    if !index.contains_key(sk) {
        index
    } else if index[sk].remove(k).is_empty() {
        index.remove(sk)
    } else {
        index.insert(sk, index[sk].remove(k))
    }
}

/// In the index of a key set the bucket of a sub-key holds the keys that
/// list it, and a sub-key that no key lists has no bucket.
pub proof fn lemma_bucket_holds_owners<K: SubKeyed<SK>, SK>(keys: Set<K>, sk: SK)
    ensures
        bucket(sub_key_index(keys), sk) == owners(keys, sk),
        sub_key_index(keys).contains_key(sk) <==> !owners(keys, sk).is_empty(),
{
    let listed = owners(keys, sk);
    if sub_key_index(keys).contains_key(sk) {
        let o = choose|o: K| owners(keys, sk).contains(o);
        assert(listed.contains(o));
    } else {
        assert forall|o: K| !listed.contains(o) by {}
        assert(listed =~= Set::<K>::empty());
    }
}

/// With one more key in the key set, the bucket of a sub-key that the key
/// lists has the key in it, and the bucket of any other sub-key is as it was.
pub proof fn lemma_owners_after_insert<K: SubKeyed<SK>, SK>(keys: Set<K>, k: K, sk: SK)
    ensures
        bucket(sub_key_index(keys.insert(k)), sk) == (if k.sub_keys().contains(sk) {
            bucket(sub_key_index(keys), sk).insert(k)
        } else {
            bucket(sub_key_index(keys), sk)
        }),
        sub_key_index(keys.insert(k)).contains_key(sk) <==> sub_key_index(keys).contains_key(sk)
            || k.sub_keys().contains(sk),
{
    lemma_bucket_holds_owners(keys, sk);
    lemma_bucket_holds_owners(keys.insert(k), sk);
    if k.sub_keys().contains(sk) {
        assert(owners(keys.insert(k), sk).contains(k));
        assert(owners(keys.insert(k), sk) =~= owners(keys, sk).insert(k));
    } else {
        assert(owners(keys.insert(k), sk) =~= owners(keys, sk));
    }
}

/// With one key less in the key set, the key has left every bucket, and a
/// bucket is there exactly if another key is left in it.
pub proof fn lemma_owners_after_remove<K: SubKeyed<SK>, SK>(keys: Set<K>, k: K, sk: SK)
    ensures
        bucket(sub_key_index(keys.remove(k)), sk) == bucket(sub_key_index(keys), sk).remove(k),
        sub_key_index(keys.remove(k)).contains_key(sk) <==> !bucket(
            sub_key_index(keys),
            sk,
        ).remove(k).is_empty(),
{
    lemma_bucket_holds_owners(keys, sk);
    lemma_bucket_holds_owners(keys.remove(k), sk);
    assert(owners(keys.remove(k), sk) =~= owners(keys, sk).remove(k));
}

/// A sequence grown by one element contains what it contained, and that element.
pub proof fn lemma_contains_push<T>(s: Seq<T>, last: T, x: T)
    ensures
        s.push(last).contains(x) <==> s.contains(x) || x == last,
{
    let t = s.push(last);
    if s.contains(x) {
        let i = choose|i: int| 0 <= i < s.len() && s[i] == x;
        assert(t[i] == x);
    }
    if x == last {
        assert(t[s.len() as int] == x);
    }
    if t.contains(x) {
        let i = choose|i: int| 0 <= i < t.len() && t[i] == x;
        if i < s.len() {
            assert(s[i] == x);
        }
    }
}

/// Entering under no sub-key leaves the index as it was.
pub proof fn lemma_entered_none<K, SK>(base: Map<SK, Set<K>>, k: K)
    ensures
        entered(base, k, Seq::<SK>::empty()) == base,
{
    assert(entered(base, k, Seq::<SK>::empty()) =~= base);
}

/// Entering under one more sub-key is one step of entering.
pub proof fn lemma_entered_step<K, SK>(base: Map<SK, Set<K>>, k: K, done: Seq<SK>, sk: SK)
    ensures
        entered(base, k, done.push(sk)) == enter_one(entered(base, k, done), sk, k),
{
    let before = entered(base, k, done);
    let after = entered(base, k, done.push(sk));
    let stepped = enter_one(before, sk, k);
    assert forall|x: SK| after.contains_key(x) == stepped.contains_key(x) by {
        lemma_contains_push(done, sk, x);
    }
    assert forall|x: SK| after.contains_key(x) implies after[x] =~= stepped[x] by {
        lemma_contains_push(done, sk, x);
    }
    assert(after =~= stepped);
}

/// Once `k` is entered under all its sub-keys, the index is that of the key
/// set with `k` in it.
pub proof fn lemma_entered_all<K: SubKeyed<SK>, SK>(keys: Set<K>, k: K)
    ensures
        entered(sub_key_index(keys), k, k.sub_keys()) == sub_key_index(keys.insert(k)),
{
    let base = sub_key_index::<K, SK>(keys);
    let got = entered(base, k, k.sub_keys());
    let want = sub_key_index::<K, SK>(keys.insert(k));
    assert forall|sk: SK| got.contains_key(sk) == want.contains_key(sk) by {
        if base.contains_key(sk) {
            let o = choose|o: K| owners(keys, sk).contains(o);
            assert(owners(keys.insert(k), sk).contains(o));
        }
        if k.sub_keys().contains(sk) {
            assert(owners(keys.insert(k), sk).contains(k));
        }
        if want.contains_key(sk) {
            let o = choose|o: K| owners(keys.insert(k), sk).contains(o);
            if o != k {
                assert(owners(keys, sk).contains(o));
            }
        }
    }
    assert forall|sk: SK| got.contains_key(sk) implies got[sk] =~= want[sk] by {
        lemma_bucket_holds_owners(keys, sk);
        if k.sub_keys().contains(sk) {
            assert(owners(keys.insert(k), sk) =~= owners(keys, sk).insert(k));
        } else {
            assert(owners(keys.insert(k), sk) =~= owners(keys, sk));
        }
    }
    assert(got =~= want);
}

/// Striking under no sub-key leaves the index as it was.
pub proof fn lemma_struck_none<K, SK>(base: Map<SK, Set<K>>, k: K)
    ensures
        struck(base, k, Seq::<SK>::empty()) == base,
{
    assert(struck(base, k, Seq::<SK>::empty()) =~= base);
}

/// Striking under one more sub-key is one step of striking.
pub proof fn lemma_struck_step<K, SK>(base: Map<SK, Set<K>>, k: K, done: Seq<SK>, sk: SK)
    ensures
        struck(base, k, done.push(sk)) == strike_one(struck(base, k, done), sk, k),
{
    let before = struck(base, k, done);
    let after = struck(base, k, done.push(sk));
    let stepped = strike_one(before, sk, k);
    assert forall|x: SK| after.contains_key(x) == stepped.contains_key(x) by {
        lemma_contains_push(done, sk, x);
    }
    assert forall|x: SK| after.contains_key(x) implies after[x] =~= stepped[x] by {
        lemma_contains_push(done, sk, x);
    }
    assert(after =~= stepped);
}

/// Once `k` is struck under all its sub-keys, the index is that of the key
/// set without `k`.
pub proof fn lemma_struck_all<K: SubKeyed<SK>, SK>(keys: Set<K>, k: K)
    ensures
        struck(sub_key_index(keys), k, k.sub_keys()) == sub_key_index(keys.remove(k)),
{
    let base = sub_key_index::<K, SK>(keys);
    let got = struck(base, k, k.sub_keys());
    let want = sub_key_index::<K, SK>(keys.remove(k));
    assert forall|sk: SK| #![auto] owners(keys.remove(k), sk) =~= owners(keys, sk).remove(k) by {}
    assert forall|sk: SK| !k.sub_keys().contains(sk) implies owners(keys, sk).remove(k)
        =~= owners(keys, sk) by {}
    assert forall|sk: SK| got.contains_key(sk) == want.contains_key(sk) by {
        if got.contains_key(sk) {
            if k.sub_keys().contains(sk) {
                let rest = owners(keys, sk).remove(k);
                assert(!(rest =~= Set::<K>::empty()));
                let o = choose|o: K| rest.contains(o);
                assert(owners(keys.remove(k), sk).contains(o));
            } else {
                let o = choose|o: K| owners(keys, sk).contains(o);
                assert(owners(keys.remove(k), sk).contains(o));
            }
        }
        if want.contains_key(sk) {
            let o = choose|o: K| owners(keys.remove(k), sk).contains(o);
            assert(owners(keys, sk).contains(o));
            assert(owners(keys, sk).remove(k).contains(o));
        }
    }
    assert(got =~= want);
}

} // verus!
