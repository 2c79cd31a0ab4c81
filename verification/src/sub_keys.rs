//! How a composite key gives up its sub-keys.

use vstd::prelude::*;

verus! {

/// A composite key that can be taken apart into sub-keys of type `SK`.
///
/// The map never builds or splits a key itself: it walks the key through
/// `sub_key_count` and `sub_key`, and its contracts speak of `sub_keys`.
/// A key may have no sub-keys at all, and may list one sub-key several times.
pub trait SubKeyed<SK> {
    /// The sub-keys of this key, in the order in which they are visited.
    spec fn sub_keys(&self) -> Seq<SK>;

    /// How many sub-keys the key lists, repeats counted.
    fn sub_key_count(&self) -> (n: usize)
        ensures
            n == self.sub_keys().len(),
    ;

    /// The sub-key at position `i`.
    fn sub_key(&self, i: usize) -> (sk: &SK)
        requires
            i < self.sub_keys().len(),
        ensures
            *sk == self.sub_keys()[i as int],
    ;
}

/// A vector is a key of variable length: its elements are its sub-keys.
impl<SK> SubKeyed<SK> for Vec<SK> {
    open spec fn sub_keys(&self) -> Seq<SK> {
        self@
    }

    fn sub_key_count(&self) -> (n: usize) {
        self.len()
    }

    fn sub_key(&self, i: usize) -> (sk: &SK) {
        &self[i]
    }
}

/// An array is a key of fixed length: its elements are its sub-keys.
impl<SK, const N: usize> SubKeyed<SK> for [SK; N] {
    open spec fn sub_keys(&self) -> Seq<SK> {
        self@
    }

    fn sub_key_count(&self) -> (n: usize) {
        N
    }

    fn sub_key(&self, i: usize) -> (sk: &SK) {
        &self[i]
    }
}

/// A pair is a key with two sub-keys, the first component before the second.
impl<SK> SubKeyed<SK> for (SK, SK) {
    open spec fn sub_keys(&self) -> Seq<SK> {
        seq![self.0, self.1]
    }

    fn sub_key_count(&self) -> (n: usize) {
        2
    }

    fn sub_key(&self, i: usize) -> (sk: &SK) {
        if i == 0 {
            &self.0
        } else {
            &self.1
        }
    }
}

} // verus!
