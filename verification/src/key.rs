//! Keys, the bucket a key falls into, and the error for a key that fits no bucket.

use vstd::prelude::*;

verus! {

/// An element that carries the integer time key by which a queue orders it.
pub trait HasKey {
    /// The key as contracts see it.
    spec fn key_spec(&self) -> u64;

    /// The key of this element.
    fn key(&self) -> (k: u64)
        ensures
            k == self.key_spec(),
    ;
}

/// The index of the bucket that holds `key` when every bucket spans `width` keys.
pub open spec fn slot_of(key: u64, width: u64) -> int {
    key as int / width as int
}

/// The assignment of elements to buckets by key, for buckets `width` keys wide.
pub open spec fn key_slots<'a, T: HasKey>(width: u64) -> spec_fn(&'a T) -> int {
    |e: &'a T| slot_of(e.key_spec(), width)
}

/// A key whose bucket index lies outside the queue: the queue was sized too
/// small for the key range it is used with.
#[derive(Debug, Clone, Copy, PartialEq, Eq, Structural)]
pub struct ConfigurationError {
    /// The bucket index that the key maps to.
    pub index: u64,
    /// The number of buckets the queue has.
    pub bucketnum: usize,
}

/// Computes the bucket index of `key`.
pub fn bucket_index(key: u64, width: u64) -> (index: u64)
    requires
        width > 0,
    ensures
        index == slot_of(key, width),
{
    key / width
}

/// The bucket index of a smaller key is never larger.
pub proof fn lemma_slot_monotone(a: u64, b: u64, width: u64)
    requires
        width > 0,
        a <= b,
    ensures
        0 <= slot_of(a, width) <= slot_of(b, width),
{
    assert(0 <= a as int / width as int <= b as int / width as int) by (nonlinear_arith)
        requires
            width > 0,
            0 <= a <= b,
    ;
}

} // verus!
