//! Rough estimates of the memory that a hash table takes.
//!
//! A table is taken to spend, on each slot, the bytes of a key, the bytes of
//! a value and one `u64` of bookkeeping. Its live bytes count one slot for
//! each entry; its reserved bytes count a tenth more slots than its
//! capacity. The estimates are sums and products of sizes, computed without
//! overflow: one that would not fit into a `u64` is given as `u64::MAX`.

use vstd::prelude::*;

verus! {

/// The bytes of one slot: a key, a value and one `u64`.
pub open spec fn slot_bytes(key_size: nat, value_size: nat) -> nat {
    key_size + value_size + vstd::layout::size_of::<u64>()
}

/// The bytes that `len` entries take.
pub open spec fn live_bytes(len: nat, slot: nat) -> nat {
    len * slot
}

/// The bytes that a table with room for `capacity` entries has reserved.
pub open spec fn reserved_bytes(capacity: nat, slot: nat) -> nat {
    (capacity * 11 / 10) * slot
}

/// `n` as a `u64`, or `u64::MAX` where `n` is greater.
pub open spec fn clamped(n: nat) -> u64 {
    if n > u64::MAX {
        u64::MAX
    } else {
        n as u64
    }
}

/// A product grows with each of its factors.
pub proof fn lemma_product_monotonic(a: nat, b: nat, c: nat, d: nat)
    requires
        a <= c,
        b <= d,
    ensures
        a * b <= c * d,
{
    assert(a * b <= c * b) by (nonlinear_arith)
        requires
            a <= c,
    ;
    assert(c * b <= c * d) by (nonlinear_arith)
        requires
            b <= d,
    ;
}

/// Clamping keeps the order of two numbers.
pub proof fn lemma_clamped_monotonic(a: nat, b: nat)
    requires
        a <= b,
    ensures
        clamped(a) <= clamped(b),
{
}

/// The clamped sum of two numbers is the saturating sum of the two, each
/// clamped.
pub proof fn lemma_clamped_sum(a: nat, b: nat)
    ensures
        clamped(a + b) == (if clamped(a) + clamped(b) > u64::MAX {
            u64::MAX
        } else {
            (clamped(a) + clamped(b)) as u64
        }),
{
}

/// The live bytes of a table grow with the number of its entries.
pub proof fn lemma_live_monotonic(len1: nat, len2: nat, slot: nat)
    requires
        len1 <= len2,
    ensures
        live_bytes(len1, slot) <= live_bytes(len2, slot),
{
    lemma_product_monotonic(len1, slot, len2, slot);
}

/// The reserved bytes of a table grow with its capacity.
pub proof fn lemma_reserved_monotonic(capacity1: nat, capacity2: nat, slot: nat)
    requires
        capacity1 <= capacity2,
    ensures
        reserved_bytes(capacity1, slot) <= reserved_bytes(capacity2, slot),
{
    lemma_product_monotonic(capacity1 * 11 / 10, slot, capacity2 * 11 / 10, slot);
}

/// A table has reserved at least the bytes that its entries take, since its
/// capacity is at least the number of its entries.
pub proof fn lemma_live_at_most_reserved(len: nat, capacity: nat, slot: nat)
    requires
        len <= capacity,
    ensures
        live_bytes(len, slot) <= reserved_bytes(capacity, slot),
{
    lemma_product_monotonic(len, slot, capacity * 11 / 10, slot);
}

/// `count * slot`, clamped.
fn clamped_product(count: u128, slot: u128) -> (bytes: u64)
    ensures
        bytes == clamped((count * slot) as nat),
{
    if count == 0 || slot == 0 {
        assert(count * slot == 0) by (nonlinear_arith)
            requires
                count == 0 || slot == 0,
        ;
        0
    } else if count > u64::MAX as u128 || slot > u64::MAX as u128 {
        assert(count * slot > u64::MAX) by (nonlinear_arith)
            requires
                count >= 1,
                slot >= 1,
                count > u64::MAX || slot > u64::MAX,
        ;
        u64::MAX
    } else {
        match (count as u64).checked_mul(slot as u64) {
            Some(product) => product,
            None => u64::MAX,
        }
    }
}

/// The bytes of one slot, as a number to compute with.
fn slot_size(key_size: usize, value_size: usize) -> (slot: u128)
    ensures
        slot == slot_bytes(key_size as nat, value_size as nat),
{
    key_size as u128 + value_size as u128 + core::mem::size_of::<u64>() as u128
}

/// The estimate of the live bytes of a table that holds `len` entries, with
/// keys of `key_size` bytes and values of `value_size` bytes.
pub fn table_utilisation(len: usize, key_size: usize, value_size: usize) -> (bytes: u64)
    ensures
        bytes == clamped(live_bytes(len as nat, slot_bytes(key_size as nat, value_size as nat))),
{
    clamped_product(len as u128, slot_size(key_size, value_size))
}

/// The estimate of the reserved bytes of a table that has room for
/// `capacity` entries, with keys of `key_size` bytes and values of
/// `value_size` bytes.
pub fn table_usage(capacity: usize, key_size: usize, value_size: usize) -> (bytes: u64)
    ensures
        bytes == clamped(
            reserved_bytes(capacity as nat, slot_bytes(key_size as nat, value_size as nat)),
        ),
{
    let slots: u128 = capacity as u128 * 11 / 10;
    clamped_product(slots, slot_size(key_size, value_size))
}

} // verus!
