//! Keys: what a type must offer to address and to be found in a table.
use std::collections::hash_map::DefaultHasher;
use std::hash::Hasher;
use vstd::prelude::*;
use vstd::std_specs::hash::DefaultHasherAdditionalSpecFns;

verus! {

/// A key type: it can be hashed deterministically and compared for equality.
///
/// A key is identified by its view. Two keys with the same view are the same
/// key to a table, and a key's hash depends on its view alone.
pub trait Key: View + Sized {
    /// The writes that hashing a key with view `id` hands to a hasher.
    spec fn hash_input(id: Self::V) -> Seq<Seq<u8>>;

    /// Feeds the key to `state`.
    fn key_hash(&self, state: &mut DefaultHasher)
        ensures
            final(state)@ == old(state)@ + Self::hash_input(self@),
    ;

    /// Whether `self` and `other` are the same key.
    fn key_eq(&self, other: &Self) -> (same: bool)
        ensures
            same == (self@ == other@),
    ;
}

/// The hash of the key with view `id`: what a fresh hasher, fed the key,
/// finishes with.
pub open spec fn spec_hash<K: Key>(id: K::V) -> u64 {
    DefaultHasher::spec_finish(K::hash_input(id))
}

/// The bucket, of `n > 0`, that the key with view `id` is addressed to.
pub open spec fn slot<K: Key>(id: K::V, n: nat) -> int {
    spec_hash::<K>(id) as int % n as int
}

/// The writes that std's hashing of a string slice with the characters `s`
/// hands to a hasher. Nothing is said of what they are.
pub uninterp spec fn str_hash_input(s: Seq<char>) -> Seq<Seq<u8>>;

/// Calls std's `<str as Hash>::hash`. Trusted: the writes that the call adds
/// to the hasher depend on the characters of `s` alone, so that equal strings
/// are hashed alike, as std asks of every `Hash` that stands beside an `Eq`.
#[verifier::external_body]
fn hash_str(s: &str, state: &mut DefaultHasher)
    ensures
        final(state)@ == old(state)@ + str_hash_input(s@),
{
    std::hash::Hash::hash(s, state)
}

/// Calls std's `<str as PartialEq>::eq`. Trusted: it compares what the two
/// string slices hold, so they are equal exactly when they have the same
/// characters.
#[verifier::external_body]
fn eq_str(a: &str, b: &str) -> (same: bool)
    ensures
        same == (a@ == b@),
{
    a == b
}

impl<'a> Key for &'a str {
    open spec fn hash_input(id: Seq<char>) -> Seq<Seq<u8>> {
        str_hash_input(id)
    }

    fn key_hash(&self, state: &mut DefaultHasher) {
        hash_str(*self, state)
    }

    fn key_eq(&self, other: &Self) -> (same: bool) {
        eq_str(*self, *other)
    }
}

impl Key for String {
    open spec fn hash_input(id: Seq<char>) -> Seq<Seq<u8>> {
        str_hash_input(id)
    }

    fn key_hash(&self, state: &mut DefaultHasher) {
        hash_str(self.as_str(), state)
    }

    fn key_eq(&self, other: &Self) -> (same: bool) {
        eq_str(self.as_str(), other.as_str())
    }
}

impl Key for u64 {
    /// One write: the eight bytes of the number, least significant first.
    open spec fn hash_input(id: u64) -> Seq<Seq<u8>> {
        seq![vstd::bytes::spec_u64_to_le_bytes(id)]
    }

    fn key_hash(&self, state: &mut DefaultHasher) {
        let x = *self;
        let bytes: [u8; 8] = [
            (x & 0xff) as u8,
            ((x >> 8) & 0xff) as u8,
            ((x >> 16) & 0xff) as u8,
            ((x >> 24) & 0xff) as u8,
            ((x >> 32) & 0xff) as u8,
            ((x >> 40) & 0xff) as u8,
            ((x >> 48) & 0xff) as u8,
            ((x >> 56) & 0xff) as u8,
        ];
        proof {
            vstd::bytes::spec_u64_to_le_bytes_to_open(x);
            assert(bytes@ =~= vstd::bytes::spec_u64_to_le_bytes(x));
        }
        state.write(bytes.as_slice());
    }

    fn key_eq(&self, other: &Self) -> (same: bool) {
        *self == *other
    }
}

} // verus!
