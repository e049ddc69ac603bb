//! Keys of the hash table: what can be hashed and compared.

use std::collections::hash_map::DefaultHasher;
use std::hash::{Hash, Hasher};
use vstd::prelude::*;
use vstd::std_specs::hash::DefaultHasherAdditionalSpecFns;

verus! {

/// A type whose values can serve as keys of the hash table.
///
/// Two keys are the same key exactly when their views are equal, and what a
/// key feeds into a hasher depends on its view alone, so equal keys always
/// reach the same digest.
pub trait Key: View + Sized {
    /// The writes that hashing a key with view `v` performs on a hasher.
    spec fn written(v: Self::V) -> Seq<Seq<u8>>;

    /// Feeds the key into `state`.
    fn feed(&self, state: &mut DefaultHasher)
        ensures
            final(state)@ == old(state)@ + Self::written(self@),
    ;

    /// Decides whether `self` and `other` are the same key.
    fn same(&self, other: &Self) -> (b: bool)
        ensures
            b == (self@ == other@),
    ;

    /// Makes another value of the same key.
    fn replica(&self) -> (copy: Self)
        ensures
            copy@ == self@,
    ;
}

/// The writes by which std's `Hash` for `i32` feeds a value into a hasher.
pub uninterp spec fn i32_written(key: i32) -> Seq<Seq<u8>>;

/// The writes by which std's `Hash` for `u64` feeds a value into a hasher.
pub uninterp spec fn u64_written(key: u64) -> Seq<Seq<u8>>;

/// The writes by which std's `Hash` for `String` feeds a string into a hasher.
pub uninterp spec fn string_written(key: Seq<char>) -> Seq<Seq<u8>>;

/// Calls `<i32 as Hash>::hash`. Trusted: the hasher receives, after what it
/// held before, writes that depend on the value alone.
#[verifier::external_body]
fn hash_i32(key: &i32, state: &mut DefaultHasher)
    ensures
        final(state)@ == old(state)@ + i32_written(*key),
{
    key.hash(state)
}

/// Calls `<u64 as Hash>::hash`. Trusted: the hasher receives, after what it
/// held before, writes that depend on the value alone.
#[verifier::external_body]
fn hash_u64(key: &u64, state: &mut DefaultHasher)
    ensures
        final(state)@ == old(state)@ + u64_written(*key),
{
    key.hash(state)
}

/// Calls `<String as Hash>::hash`. Trusted: the hasher receives, after what it
/// held before, writes that depend on the string's characters alone.
#[verifier::external_body]
fn hash_string(key: &String, state: &mut DefaultHasher)
    ensures
        final(state)@ == old(state)@ + string_written(key@),
{
    key.hash(state)
}

impl Key for i32 {
    open spec fn written(v: i32) -> Seq<Seq<u8>> {
        i32_written(v)
    }

    fn feed(&self, state: &mut DefaultHasher) {
        hash_i32(self, state)
    }

    fn same(&self, other: &Self) -> (b: bool) {
        *self == *other
    }

    fn replica(&self) -> (copy: Self) {
        *self
    }
}

impl Key for u64 {
    open spec fn written(v: u64) -> Seq<Seq<u8>> {
        u64_written(v)
    }

    fn feed(&self, state: &mut DefaultHasher) {
        hash_u64(self, state)
    }

    fn same(&self, other: &Self) -> (b: bool) {
        *self == *other
    }

    fn replica(&self) -> (copy: Self) {
        *self
    }
}

impl Key for String {
    open spec fn written(v: Seq<char>) -> Seq<Seq<u8>> {
        string_written(v)
    }

    fn feed(&self, state: &mut DefaultHasher) {
        hash_string(self, state)
    }

    fn same(&self, other: &Self) -> (b: bool) {
        *self == *other
    }

    fn replica(&self) -> (copy: Self) {
        self.clone()
    }
}

/// The digest of a key with view `v`: what a fresh `DefaultHasher` yields once
/// the key has been fed into it.
pub open spec fn digest<K: Key>(v: K::V) -> u64 {
    DefaultHasher::spec_finish(K::written(v))
}

/// The slot that a digest selects among `capacity` buckets: the digest, cut to
/// the machine's word, modulo the capacity.
pub open spec fn slot(digest: u64, capacity: nat) -> int {
    (digest as usize) as int % (capacity as int)
}

/// The home bucket of a key with view `v` in a table of `capacity` buckets.
pub open spec fn home<K: Key>(v: K::V, capacity: nat) -> int {
    slot(digest::<K>(v), capacity)
}

/// Reduces a digest to a slot below `capacity`.
pub fn reduce(digest: u64, capacity: usize) -> (index: usize)
    requires
        capacity > 0,
    ensures
        index == slot(digest, capacity as nat),
        index < capacity,
{
    (#[verifier::truncate] (digest as usize)) % capacity
}

/// Computes the home bucket of `key` among `capacity` buckets.
pub fn make_index<K: Key>(key: &K, capacity: usize) -> (index: usize)
    requires
        capacity > 0,
    ensures
        index == home::<K>(key@, capacity as nat),
        index < capacity,
{
    let mut hasher = DefaultHasher::new();
    key.feed(&mut hasher);
    assert(hasher@ =~= K::written(key@));
    reduce(hasher.finish(), capacity)
}

} // verus!
