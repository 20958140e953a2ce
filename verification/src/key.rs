//! The capability a key type must supply: an equality test and a
//! deterministic hash, both specified against the key's abstract value.

use std::collections::hash_map::DefaultHasher;
use std::hash::Hasher;
use vstd::bytes::*;
use vstd::prelude::*;
use vstd::std_specs::hash::DefaultHasherAdditionalSpecFns;
use vstd::utf8::encode_utf8;

verus! {

/// A type usable as a hash map key.
///
/// A key abstracts to its view `Self::V`. Equality of keys is equality of
/// views, and the hash is a function of the view alone, so equal keys are
/// guaranteed to hash equally — which is all the routing of the map relies
/// on.
pub trait MapKey: View + Sized {
    /// The hash of a key with abstract value `v`.
    spec fn hash_spec(v: Self::V) -> u64;

    /// Decides equality of the abstract values of two keys.
    fn key_eq(&self, other: &Self) -> (r: bool)
        ensures
            r == (self@ == other@),
    ;

    /// Computes the hash of this key; the result depends on the abstract
    /// value alone.
    fn key_hash(&self) -> (h: u64)
        ensures
            h == Self::hash_spec(self@),
    ;
}

/// The hash of a 64-bit word: what the standard hasher digests from the
/// word's eight little-endian bytes.
pub open spec fn word_hash(x: u64) -> u64 {
    DefaultHasher::spec_finish(seq![spec_u64_to_le_bytes(x)])
}

/// Feeds the word's little-endian bytes to a fresh standard hasher.
fn hash_word(x: u64) -> (h: u64)
    ensures
        h == word_hash(x),
{
    let mut hasher = DefaultHasher::new();
    let bytes = u64_to_le_bytes(x);
    hasher.write(bytes.as_slice());
    hasher.finish()
}

impl MapKey for u64 {
    open spec fn hash_spec(v: u64) -> u64 {
        word_hash(v)
    }

    fn key_eq(&self, other: &Self) -> (r: bool) {
        *self == *other
    }

    fn key_hash(&self) -> (h: u64) {
        hash_word(*self)
    }
}

impl MapKey for u32 {
    open spec fn hash_spec(v: u32) -> u64 {
        word_hash(v as u64)
    }

    fn key_eq(&self, other: &Self) -> (r: bool) {
        *self == *other
    }

    fn key_hash(&self) -> (h: u64) {
        hash_word(*self as u64)
    }
}

impl MapKey for u16 {
    open spec fn hash_spec(v: u16) -> u64 {
        word_hash(v as u64)
    }

    fn key_eq(&self, other: &Self) -> (r: bool) {
        *self == *other
    }

    fn key_hash(&self) -> (h: u64) {
        hash_word(*self as u64)
    }
}

impl MapKey for u8 {
    open spec fn hash_spec(v: u8) -> u64 {
        word_hash(v as u64)
    }

    fn key_eq(&self, other: &Self) -> (r: bool) {
        *self == *other
    }

    fn key_hash(&self) -> (h: u64) {
        hash_word(*self as u64)
    }
}

impl MapKey for usize {
    open spec fn hash_spec(v: usize) -> u64 {
        word_hash(v as u64)
    }

    fn key_eq(&self, other: &Self) -> (r: bool) {
        *self == *other
    }

    fn key_hash(&self) -> (h: u64) {
        hash_word(*self as u64)
    }
}

impl MapKey for i32 {
    open spec fn hash_spec(v: i32) -> u64 {
        word_hash(v as u64)
    }

    fn key_eq(&self, other: &Self) -> (r: bool) {
        *self == *other
    }

    fn key_hash(&self) -> (h: u64) {
        hash_word(*self as u64)
    }
}

impl MapKey for i64 {
    open spec fn hash_spec(v: i64) -> u64 {
        word_hash(v as u64)
    }

    fn key_eq(&self, other: &Self) -> (r: bool) {
        *self == *other
    }

    fn key_hash(&self) -> (h: u64) {
        hash_word(*self as u64)
    }
}

impl MapKey for String {
    open spec fn hash_spec(v: Seq<char>) -> u64 {
        DefaultHasher::spec_finish(seq![encode_utf8(v)])
    }

    fn key_eq(&self, other: &Self) -> (r: bool) {
        *self == *other
    }

    fn key_hash(&self) -> (h: u64) {
        let mut hasher = DefaultHasher::new();
        hasher.write(self.as_str().as_bytes());
        hasher.finish()
    }
}

} // verus!
