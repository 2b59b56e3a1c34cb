//! What the table asks of its keys: equality and a deterministic hash,
//! both stated against the key's abstract view, together with
//! implementations for common key types and for lookup by an
//! equivalent key type.

use vstd::prelude::*;

verus! {

/// A key the table can store: it reports a hash of itself and decides
/// equality, both as functions of its abstract view.
///
/// `view_hash` is a spec-level function of the view alone, so two keys
/// with equal views always hash alike, and hashing one key twice gives
/// the same digest: the determinism the table relies on.
pub trait TableKey: View + Sized {
    /// The hash of a key, as a function of its abstract value.
    spec fn view_hash(v: Self::V) -> u64;

    /// Computes the hash of this key.
    fn key_hash(&self) -> (h: u64)
        ensures
            h == Self::view_hash(self@),
    ;

    /// Decides whether this key and `other` have the same abstract value.
    fn key_eq(&self, other: &Self) -> (r: bool)
        ensures
            r == (self@ == other@),
    ;
}

impl TableKey for u64 {
    open spec fn view_hash(v: u64) -> u64 {
        v
    }

    fn key_hash(&self) -> (h: u64) {
        *self
    }

    fn key_eq(&self, other: &Self) -> (r: bool) {
        *self == *other
    }
}

impl TableKey for u32 {
    open spec fn view_hash(v: u32) -> u64 {
        v as u64
    }

    fn key_hash(&self) -> (h: u64) {
        *self as u64
    }

    fn key_eq(&self, other: &Self) -> (r: bool) {
        *self == *other
    }
}

impl TableKey for usize {
    open spec fn view_hash(v: usize) -> u64 {
        v as u64
    }

    fn key_hash(&self) -> (h: u64) {
        *self as u64
    }

    fn key_eq(&self, other: &Self) -> (r: bool) {
        *self == *other
    }
}

/// A key type that can look entries up in a table keyed by `K`: it
/// shares `K`'s view type, hashes a view as `K` does, and decides view
/// equality against a stored key.
///
/// Every key type is equivalent to itself, and `&str` is equivalent to
/// `String`, so a string-keyed table is searchable without allocating
/// an owned key.
pub trait EquivKey<K: TableKey>: View<V = <K as View>::V> + Sized {
    /// Computes `K`'s hash of this key's view.
    fn equiv_hash(&self) -> (h: u64)
        ensures
            h == K::view_hash(self@),
    ;

    /// Decides whether this key's view equals the stored key's.
    fn equiv_eq(&self, stored: &K) -> (r: bool)
        ensures
            r == (self@ == stored@),
    ;
}

impl<K: TableKey> EquivKey<K> for K {
    fn equiv_hash(&self) -> (h: u64) {
        self.key_hash()
    }

    fn equiv_eq(&self, stored: &K) -> (r: bool) {
        self.key_eq(stored)
    }
}

impl<'a> EquivKey<String> for &'a str {
    fn equiv_hash(&self) -> (h: u64) {
        str_hash(*self)
    }

    fn equiv_eq(&self, stored: &String) -> (r: bool) {
        str_eq(*self, stored.as_str())
    }
}

/// The hash of a byte sequence: the bytes summed modulo 2^64. The
/// table needs only determinism of its keys' hashes, not any
/// particular mixing.
pub open spec fn bytes_hash(bytes: Seq<u8>) -> u64
    decreases bytes.len(),
{
    if bytes.len() == 0 {
        0
    } else {
        ((bytes_hash(bytes.drop_last()) + bytes.last()) % 0x1_0000_0000_0000_0000) as u64
    }
}

/// Computes `bytes_hash` of a string's UTF-8 bytes.
fn str_hash(s: &str) -> (h: u64)
    ensures
        h == bytes_hash(vstd::utf8::encode_utf8(s@)),
{
    let bytes: &[u8] = s.as_bytes();
    let mut h: u64 = 0;
    let mut i: usize = 0;
    while i < bytes.len()
        invariant
            i <= bytes@.len(),
            h == bytes_hash(bytes@.take(i as int)),
        decreases bytes@.len() - i,
    {
        let b: u8 = bytes[i];
        h = ((h as u128 + b as u128) % 0x1_0000_0000_0000_0000u128) as u64;
        i = i + 1;
        proof {
            assert(bytes@.take(i as int).drop_last() =~= bytes@.take(i as int - 1));
            assert(bytes@.take(i as int).last() == bytes@[i as int - 1]);
        }
    }
    proof {
        assert(bytes@.take(bytes@.len() as int) =~= bytes@);
    }
    h
}

/// Decides whether two strings hold the same characters, by comparing
/// their UTF-8 bytes.
fn str_eq(a: &str, b: &str) -> (r: bool)
    ensures
        r == (a@ == b@),
{
    let ab: &[u8] = a.as_bytes();
    let bb: &[u8] = b.as_bytes();
    if ab.len() != bb.len() {
        proof {
            if a@ == b@ {
                assert(ab@ == bb@);
            }
        }
        return false;
    }
    let mut i: usize = 0;
    while i < ab.len()
        invariant
            i <= ab@.len(),
            ab@.len() == bb@.len(),
            ab@ == vstd::utf8::encode_utf8(a@),
            bb@ == vstd::utf8::encode_utf8(b@),
            forall|t: int| 0 <= t < i ==> ab@[t] == bb@[t],
        decreases ab@.len() - i,
    {
        if ab[i] != bb[i] {
            proof {
                if a@ == b@ {
                    assert(ab@ == bb@);
                }
            }
            return false;
        }
        i = i + 1;
    }
    proof {
        assert(ab@ =~= bb@);
        vstd::utf8::encode_utf8_decode_utf8(a@);
        vstd::utf8::encode_utf8_decode_utf8(b@);
    }
    true
}

impl TableKey for String {
    open spec fn view_hash(v: Seq<char>) -> u64 {
        bytes_hash(vstd::utf8::encode_utf8(v))
    }

    fn key_hash(&self) -> (h: u64) {
        str_hash(self.as_str())
    }

    fn key_eq(&self, other: &Self) -> (r: bool) {
        str_eq(self.as_str(), other.as_str())
    }
}

impl<'a> TableKey for &'a str {
    open spec fn view_hash(v: Seq<char>) -> u64 {
        bytes_hash(vstd::utf8::encode_utf8(v))
    }

    fn key_hash(&self) -> (h: u64) {
        str_hash(*self)
    }

    fn key_eq(&self, other: &Self) -> (r: bool) {
        str_eq(*self, *other)
    }
}

} // verus!
