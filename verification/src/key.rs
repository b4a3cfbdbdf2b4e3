//! Keys of the table: what a type must offer to be hashed and compared.
//!
//! A key is identified by its view. Two keys with the same view are the same
//! key to the table, and the hash of a key is a function of its view alone.
//!
//! Integers, `bool`, `char` and text are keys. An integer hashes the bytes of
//! its bits, least byte first; a `bool` one byte, a `char` its code as a
//! `u32`; text hashes its bytes in UTF-8 and a byte that marks its end. All go
//! through std's default hasher. A type of another crate becomes a key inside
//! a struct of one's own that implements `Key`.

use std::collections::hash_map::DefaultHasher;
use std::hash::Hasher;
use vstd::prelude::*;
use vstd::std_specs::hash::DefaultHasherAdditionalSpecFns;

verus! {

/// The digest of `bytes` under the default hasher, fed in one write.
pub open spec fn digest(bytes: Seq<u8>) -> u64 {
    DefaultHasher::spec_finish(seq![bytes])
}

/// Hashes `bytes` with a fresh default hasher.
pub fn hash_bytes(bytes: &[u8]) -> (h: u64)
    ensures
        h == digest(bytes@),
{
    let mut hasher = DefaultHasher::new();
    hasher.write(bytes);
    assert(hasher@ =~= seq![bytes@]);
    hasher.finish()
}

/// A type whose values can serve as keys.
///
/// `hash_code` must compute `hash_spec` of the key's view, and `same` must
/// decide equality of views. Both are therefore deterministic, and equal keys
/// hash alike.
pub trait Key: View + Sized {
    /// The hash of a key with view `v`.
    spec fn hash_spec(v: Self::V) -> u64;

    fn hash_code(&self) -> (h: u64)
        ensures
            h == Self::hash_spec(self@),
    ;

    fn same(&self, other: &Self) -> (b: bool)
        ensures
            b == (self@ == other@),
    ;
}

impl Key for u64 {
    open spec fn hash_spec(v: u64) -> u64 {
        digest(vstd::bytes::spec_u64_to_le_bytes(v))
    }

    fn hash_code(&self) -> (h: u64) {
        let bytes = vstd::bytes::u64_to_le_bytes(*self);
        hash_bytes(bytes.as_slice())
    }

    fn same(&self, other: &Self) -> (b: bool) {
        *self == *other
    }
}

impl Key for usize {
    open spec fn hash_spec(v: usize) -> u64 {
        digest(vstd::bytes::spec_u64_to_le_bytes(v as u64))
    }

    fn hash_code(&self) -> (h: u64) {
        let bytes = vstd::bytes::u64_to_le_bytes(*self as u64);
        hash_bytes(bytes.as_slice())
    }

    fn same(&self, other: &Self) -> (b: bool) {
        *self == *other
    }
}

impl Key for u32 {
    open spec fn hash_spec(v: u32) -> u64 {
        digest(vstd::bytes::spec_u32_to_le_bytes(v))
    }

    fn hash_code(&self) -> (h: u64) {
        let bytes = vstd::bytes::u32_to_le_bytes(*self);
        hash_bytes(bytes.as_slice())
    }

    fn same(&self, other: &Self) -> (b: bool) {
        *self == *other
    }
}

impl Key for i64 {
    open spec fn hash_spec(v: i64) -> u64 {
        digest(vstd::bytes::spec_u64_to_le_bytes(v as u64))
    }

    fn hash_code(&self) -> (h: u64) {
        let bits: u64 = #[verifier::truncate]
        (*self as u64);
        let bytes = vstd::bytes::u64_to_le_bytes(bits);
        hash_bytes(bytes.as_slice())
    }

    fn same(&self, other: &Self) -> (b: bool) {
        *self == *other
    }
}

impl Key for i32 {
    open spec fn hash_spec(v: i32) -> u64 {
        digest(vstd::bytes::spec_u32_to_le_bytes(v as u32))
    }

    fn hash_code(&self) -> (h: u64) {
        let bits: u32 = #[verifier::truncate]
        (*self as u32);
        let bytes = vstd::bytes::u32_to_le_bytes(bits);
        hash_bytes(bytes.as_slice())
    }

    fn same(&self, other: &Self) -> (b: bool) {
        *self == *other
    }
}

impl Key for u16 {
    open spec fn hash_spec(v: u16) -> u64 {
        digest(vstd::bytes::spec_u16_to_le_bytes(v))
    }

    fn hash_code(&self) -> (h: u64) {
        let bytes = vstd::bytes::u16_to_le_bytes(*self);
        hash_bytes(bytes.as_slice())
    }

    fn same(&self, other: &Self) -> (b: bool) {
        *self == *other
    }
}

impl Key for u8 {
    open spec fn hash_spec(v: u8) -> u64 {
        digest(seq![v])
    }

    fn hash_code(&self) -> (h: u64) {
        let bytes: [u8; 1] = [*self];
        assert(bytes@ =~= seq![*self]);
        hash_bytes(bytes.as_slice())
    }

    fn same(&self, other: &Self) -> (b: bool) {
        *self == *other
    }
}

impl Key for isize {
    open spec fn hash_spec(v: isize) -> u64 {
        digest(vstd::bytes::spec_u64_to_le_bytes(v as i64 as u64))
    }

    fn hash_code(&self) -> (h: u64) {
        let bits: u64 = #[verifier::truncate]
        (*self as i64 as u64);
        let bytes = vstd::bytes::u64_to_le_bytes(bits);
        hash_bytes(bytes.as_slice())
    }

    fn same(&self, other: &Self) -> (b: bool) {
        *self == *other
    }
}

impl Key for i16 {
    open spec fn hash_spec(v: i16) -> u64 {
        digest(vstd::bytes::spec_u16_to_le_bytes(v as u16))
    }

    fn hash_code(&self) -> (h: u64) {
        let bits: u16 = #[verifier::truncate]
        (*self as u16);
        let bytes = vstd::bytes::u16_to_le_bytes(bits);
        hash_bytes(bytes.as_slice())
    }

    fn same(&self, other: &Self) -> (b: bool) {
        *self == *other
    }
}

impl Key for i8 {
    open spec fn hash_spec(v: i8) -> u64 {
        digest(seq![v as u8])
    }

    fn hash_code(&self) -> (h: u64) {
        let bits: u8 = #[verifier::truncate]
        (*self as u8);
        let bytes: [u8; 1] = [bits];
        assert(bytes@ =~= seq![bits]);
        hash_bytes(bytes.as_slice())
    }

    fn same(&self, other: &Self) -> (b: bool) {
        *self == *other
    }
}

impl Key for u128 {
    open spec fn hash_spec(v: u128) -> u64 {
        digest(vstd::bytes::spec_u128_to_le_bytes(v))
    }

    fn hash_code(&self) -> (h: u64) {
        let bytes = vstd::bytes::u128_to_le_bytes(*self);
        hash_bytes(bytes.as_slice())
    }

    fn same(&self, other: &Self) -> (b: bool) {
        *self == *other
    }
}

impl Key for i128 {
    open spec fn hash_spec(v: i128) -> u64 {
        digest(vstd::bytes::spec_u128_to_le_bytes(v as u128))
    }

    fn hash_code(&self) -> (h: u64) {
        let bits: u128 = #[verifier::truncate]
        (*self as u128);
        let bytes = vstd::bytes::u128_to_le_bytes(bits);
        hash_bytes(bytes.as_slice())
    }

    fn same(&self, other: &Self) -> (b: bool) {
        *self == *other
    }
}

impl Key for bool {
    open spec fn hash_spec(v: bool) -> u64 {
        digest(seq![if v { 1u8 } else { 0u8 }])
    }

    fn hash_code(&self) -> (h: u64) {
        let bit: u8 = if *self {
            1
        } else {
            0
        };
        let bytes: [u8; 1] = [bit];
        assert(bytes@ =~= seq![bit]);
        hash_bytes(bytes.as_slice())
    }

    fn same(&self, other: &Self) -> (b: bool) {
        *self == *other
    }
}

impl Key for char {
    open spec fn hash_spec(v: char) -> u64 {
        digest(vstd::bytes::spec_u32_to_le_bytes(v as u32))
    }

    fn hash_code(&self) -> (h: u64) {
        let bytes = vstd::bytes::u32_to_le_bytes(*self as u32);
        hash_bytes(bytes.as_slice())
    }

    fn same(&self, other: &Self) -> (b: bool) {
        *self == *other
    }
}

/// Whether two byte slices hold the same bytes.
pub fn bytes_equal(a: &[u8], b: &[u8]) -> (r: bool)
    ensures
        r == (a@ == b@),
{
    if a.len() != b.len() {
        return false;
    }
    let mut i: usize = 0;
    while i < a.len()
        invariant
            a@.len() == b@.len(),
            i <= a@.len(),
            forall|j: int| 0 <= j < i ==> a@[j] == b@[j],
        decreases a@.len() - i,
    {
        if a[i] != b[i] {
            return false;
        }
        i += 1;
    }
    assert(a@ =~= b@);
    true
}

/// The digest of the text `v` under the default hasher: its bytes in UTF-8,
/// then one byte `0xff`, which no text holds, to mark its end.
pub open spec fn text_digest(v: Seq<char>) -> u64 {
    DefaultHasher::spec_finish(seq![vstd::utf8::encode_utf8(v), seq![0xffu8]])
}

/// Hashes the text `s` with a fresh default hasher.
pub fn hash_text(s: &str) -> (h: u64)
    ensures
        h == text_digest(s@),
{
    let end: [u8; 1] = [0xff];
    assert(end@ =~= seq![0xffu8]);
    let mut hasher = DefaultHasher::new();
    hasher.write(s.as_bytes());
    hasher.write(end.as_slice());
    assert(hasher@ =~= seq![vstd::utf8::encode_utf8(s@), seq![0xffu8]]);
    hasher.finish()
}

impl<'a> Key for &'a str {
    open spec fn hash_spec(v: Seq<char>) -> u64 {
        text_digest(v)
    }

    fn hash_code(&self) -> (h: u64) {
        hash_text(self)
    }

    fn same(&self, other: &Self) -> (b: bool) {
        proof {
            vstd::utf8::encode_utf8_decode_utf8(self@);
            vstd::utf8::encode_utf8_decode_utf8(other@);
        }
        bytes_equal(self.as_bytes(), other.as_bytes())
    }
}

impl Key for String {
    open spec fn hash_spec(v: Seq<char>) -> u64 {
        text_digest(v)
    }

    fn hash_code(&self) -> (h: u64) {
        hash_text(self.as_str())
    }

    fn same(&self, other: &Self) -> (b: bool) {
        proof {
            vstd::utf8::encode_utf8_decode_utf8(self@);
            vstd::utf8::encode_utf8_decode_utf8(other@);
        }
        bytes_equal(self.as_str().as_bytes(), other.as_str().as_bytes())
    }
}

} // verus!
