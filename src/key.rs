//! Keys of the chains: a total order, exact duplication and a default hash.
use std::cmp::Ordering;
use std::collections::hash_map::DefaultHasher;
use std::hash::Hasher;
use vstd::bytes::{spec_u64_to_le_bytes, u64_to_le_bytes};
use vstd::prelude::*;
use vstd::std_specs::hash::DefaultHasherAdditionalSpecFns;

verus! {

/// What every chain asks of its keys.
///
/// The order is the order of `rank`, which tells keys apart: two keys of equal
/// rank are the same key. Duplicating a key gives back the very same key.
pub trait MapKey: Sized {
    /// The position of the key in the chain's order.
    spec fn rank(&self) -> int;

    /// The hash that `default_hash` computes.
    spec fn spec_default_hash(&self) -> u64;

    /// Equal ranks mean equal keys.
    proof fn lemma_rank_injective(a: &Self, b: &Self)
        requires
            a.rank() == b.rank(),
        ensures
            *a == *b,
    ;

    /// Three-way comparison by rank.
    fn compare(&self, other: &Self) -> (r: Ordering)
        ensures
            (r == Ordering::Less) == (self.rank() < other.rank()),
            (r == Ordering::Equal) == (self.rank() == other.rank()),
            (r == Ordering::Greater) == (self.rank() > other.rank()),
    ;

    /// A copy of the key.
    fn duplicate(&self) -> (r: Self)
        ensures
            r == *self,
    ;

    /// std's `DefaultHasher` run over the key's bytes.
    fn default_hash(&self) -> (r: u64)
        ensures
            r == self.spec_default_hash(),
    ;
}

/// The hash of a 64-bit word: std's `DefaultHasher` fed its eight
/// little-endian bytes.
pub open spec fn spec_word_hash(x: u64) -> u64 {
    DefaultHasher::spec_finish(seq![spec_u64_to_le_bytes(x)])
}

/// Hashes a 64-bit word with std's `DefaultHasher`.
pub fn word_hash(x: u64) -> (r: u64)
    ensures
        r == spec_word_hash(x),
{
    let mut hasher = DefaultHasher::new();
    let bytes = u64_to_le_bytes(x);
    hasher.write(bytes.as_slice());
    hasher.finish()
}

impl MapKey for i32 {
    open spec fn rank(&self) -> int {
        *self as int
    }

    open spec fn spec_default_hash(&self) -> u64 {
        spec_word_hash(*self as u64)
    }

    proof fn lemma_rank_injective(a: &Self, b: &Self) {
    }

    fn compare(&self, other: &Self) -> (r: Ordering) {
        if *self < *other {
            Ordering::Less
        } else if *self == *other {
            Ordering::Equal
        } else {
            Ordering::Greater
        }
    }

    fn duplicate(&self) -> (r: Self) {
        *self
    }

    fn default_hash(&self) -> (r: u64) {
        word_hash(*self as u64)
    }
}

impl MapKey for i64 {
    open spec fn rank(&self) -> int {
        *self as int
    }

    open spec fn spec_default_hash(&self) -> u64 {
        spec_word_hash(*self as u64)
    }

    proof fn lemma_rank_injective(a: &Self, b: &Self) {
    }

    fn compare(&self, other: &Self) -> (r: Ordering) {
        if *self < *other {
            Ordering::Less
        } else if *self == *other {
            Ordering::Equal
        } else {
            Ordering::Greater
        }
    }

    fn duplicate(&self) -> (r: Self) {
        *self
    }

    fn default_hash(&self) -> (r: u64) {
        word_hash(*self as u64)
    }
}

impl MapKey for u32 {
    open spec fn rank(&self) -> int {
        *self as int
    }

    open spec fn spec_default_hash(&self) -> u64 {
        spec_word_hash(*self as u64)
    }

    proof fn lemma_rank_injective(a: &Self, b: &Self) {
    }

    fn compare(&self, other: &Self) -> (r: Ordering) {
        if *self < *other {
            Ordering::Less
        } else if *self == *other {
            Ordering::Equal
        } else {
            Ordering::Greater
        }
    }

    fn duplicate(&self) -> (r: Self) {
        *self
    }

    fn default_hash(&self) -> (r: u64) {
        word_hash(*self as u64)
    }
}

impl MapKey for u64 {
    open spec fn rank(&self) -> int {
        *self as int
    }

    open spec fn spec_default_hash(&self) -> u64 {
        spec_word_hash(*self)
    }

    proof fn lemma_rank_injective(a: &Self, b: &Self) {
    }

    fn compare(&self, other: &Self) -> (r: Ordering) {
        if *self < *other {
            Ordering::Less
        } else if *self == *other {
            Ordering::Equal
        } else {
            Ordering::Greater
        }
    }

    fn duplicate(&self) -> (r: Self) {
        *self
    }

    fn default_hash(&self) -> (r: u64) {
        word_hash(*self)
    }
}

impl MapKey for usize {
    open spec fn rank(&self) -> int {
        *self as int
    }

    open spec fn spec_default_hash(&self) -> u64 {
        spec_word_hash(*self as u64)
    }

    proof fn lemma_rank_injective(a: &Self, b: &Self) {
    }

    fn compare(&self, other: &Self) -> (r: Ordering) {
        if *self < *other {
            Ordering::Less
        } else if *self == *other {
            Ordering::Equal
        } else {
            Ordering::Greater
        }
    }

    fn duplicate(&self) -> (r: Self) {
        *self
    }

    fn default_hash(&self) -> (r: u64) {
        word_hash(*self as u64)
    }
}

} // verus!
