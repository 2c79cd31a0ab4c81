//! What the map needs of `std`'s hash tables beyond what `vstd` specifies.

use std::collections::HashMap;
use std::hash::Hash;
use vstd::prelude::*;
use vstd::std_specs::hash::obeys_key_model;

verus! {

/// `HashMap::get_mut`: a mutable reference to the value stored under `key`,
/// if there is one.
///
/// Trusted. It claims what the documentation of `get_mut` says, in the terms
/// in which `vstd` describes the other methods of `HashMap`: the key is
/// found exactly if the table holds it, the reference then points at its
/// value, and when the borrow ends the table holds under that key whatever
/// was written through the reference, and is otherwise unchanged.
#[verifier::external_body]
pub(crate) fn table_get_mut<'a, A: Hash + Eq, B>(table: &'a mut HashMap<A, B>, key: &A) -> (slot:
    Option<&'a mut B>)
    ensures
        obeys_key_model::<A>() ==> match slot {
            Some(value) => {
                &&& old(table)@.contains_key(*key)
                &&& *value == old(table)@[*key]
                &&& final(table)@ == old(table)@.insert(*key, *final(value))
            },
            None => !old(table)@.contains_key(*key) && final(table)@ == old(table)@,
        },
{
    table.get_mut(key)
}

/// `HashMap::capacity`: the number of entries the table can hold without
/// allocating again.
///
/// Trusted. The number depends on the allocator and on the table's history,
/// so nothing is claimed of it but that the entries the table holds now fit
/// into it.
#[verifier::external_body]
pub(crate) fn table_capacity<A, B>(table: &HashMap<A, B>) -> (slots: usize)
    ensures
        slots >= table.len(),
{
    table.capacity()
}

} // verus!
