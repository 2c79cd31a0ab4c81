//! What the map asks of its key types.

use vstd::pervasive::strictly_cloned;
use vstd::prelude::*;
use vstd::std_specs::hash::obeys_key_model;

verus! {

/// Whether values of `T` behave as keys of a hash table: `T` hashes
/// deterministically, its `==` holds of two values exactly if they are the
/// same value, and its `clone` returns the value it was given.
///
/// Verus knows this of the integer types and of `bool`. Of another type it
/// is an assumption that whoever relies on the map's contracts makes, as one
/// does when putting a type into a `HashMap`.
pub open spec fn key_type_ok<T: Clone>() -> bool {
    &&& obeys_key_model::<T>()
    &&& forall|a: T, b: T| #[trigger] strictly_cloned(a, b) ==> a == b
}

/// A second copy of a key.
pub(crate) fn duplicate<T: Clone>(x: &T) -> (y: T)
    ensures
        key_type_ok::<T>() ==> y == *x,
{
    let y = x.clone();
    assert(strictly_cloned(*x, y));
    y
}

} // verus!
