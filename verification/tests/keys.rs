use hashmap::key::{bytes_equal, hash_bytes, hash_text};
use hashmap::Key;
use std::collections::hash_map::DefaultHasher;
use std::hash::Hash;
use std::hash::Hasher;

fn digest_of(bytes: &[u8]) -> u64 {
    let mut hasher = DefaultHasher::new();
    hasher.write(bytes);
    hasher.finish()
}

fn std_hash<T: Hash>(value: T) -> u64 {
    let mut hasher = DefaultHasher::new();
    value.hash(&mut hasher);
    hasher.finish()
}

#[test]
fn hash_bytes_is_one_write_to_the_default_hasher() {
    assert_eq!(hash_bytes(b"foo"), digest_of(b"foo"));
    assert_eq!(hash_bytes(b""), digest_of(b""));
    assert_ne!(hash_bytes(b"foo"), hash_bytes(b"bar"));
}

#[test]
fn hash_text_ends_the_text_with_one_byte() {
    assert_eq!(hash_text("foo"), digest_of(&[b'f', b'o', b'o', 0xff]));
    assert_eq!(hash_text(""), digest_of(&[0xff]));
    assert_eq!(hash_text("é"), digest_of(&[0xc3, 0xa9, 0xff]));
    assert_ne!(hash_text("foo"), hash_bytes(b"foo"));
}

#[test]
fn unsigned_keys_hash_their_little_endian_bytes() {
    assert_eq!(0x0102030405060708u64.hash_code(), digest_of(&[8, 7, 6, 5, 4, 3, 2, 1]));
    assert_eq!(0x01020304u32.hash_code(), digest_of(&[4, 3, 2, 1]));
    assert_eq!(258usize.hash_code(), digest_of(&[2, 1, 0, 0, 0, 0, 0, 0]));
    assert_eq!(258u16.hash_code(), digest_of(&[2, 1]));
    assert_eq!(200u8.hash_code(), digest_of(&[200]));
}

#[test]
fn signed_keys_hash_their_bits() {
    assert_eq!(0i64.hash_code(), digest_of(&[0; 8]));
    assert_eq!((-1i64).hash_code(), digest_of(&[0xff; 8]));
    assert_eq!(i64::MIN.hash_code(), digest_of(&[0, 0, 0, 0, 0, 0, 0, 0x80]));
    assert_eq!((-2i32).hash_code(), digest_of(&[0xfe, 0xff, 0xff, 0xff]));
    assert_eq!(i32::MAX.hash_code(), digest_of(&[0xff, 0xff, 0xff, 0x7f]));
    assert_eq!((-2isize).hash_code(), digest_of(&[0xfe, 0xff, 0xff, 0xff, 0xff, 0xff, 0xff, 0xff]));
    assert_eq!((-2i16).hash_code(), digest_of(&[0xfe, 0xff]));
    assert_eq!((-2i8).hash_code(), digest_of(&[0xfe]));
}

#[test]
fn string_keys_hash_their_text() {
    assert_eq!("foo".hash_code(), hash_text("foo"));
    assert_eq!(String::from("foo").hash_code(), hash_text("foo"));
    assert_eq!("".hash_code(), digest_of(&[0xff]));
}

#[test]
fn keys_hash_as_std_hashes_them() {
    // std feeds the hasher an integer's bytes in the machine's order
    if u16::from_ne_bytes([1, 0]) != 1 || usize::BITS != 64 {
        return;
    }
    assert_eq!(7u64.hash_code(), std_hash(7u64));
    assert_eq!(u64::MAX.hash_code(), std_hash(u64::MAX));
    assert_eq!(7u32.hash_code(), std_hash(7u32));
    assert_eq!(7usize.hash_code(), std_hash(7usize));
    assert_eq!((-7i64).hash_code(), std_hash(-7i64));
    assert_eq!((-7i32).hash_code(), std_hash(-7i32));
    assert_eq!(7u16.hash_code(), std_hash(7u16));
    assert_eq!(7u8.hash_code(), std_hash(7u8));
    assert_eq!((-7isize).hash_code(), std_hash(-7isize));
    assert_eq!((-7i16).hash_code(), std_hash(-7i16));
    assert_eq!((-7i8).hash_code(), std_hash(-7i8));
    assert_eq!(7u128.hash_code(), std_hash(7u128));
    assert_eq!(u128::MAX.hash_code(), std_hash(u128::MAX));
    assert_eq!((-7i128).hash_code(), std_hash(-7i128));
    assert_eq!(true.hash_code(), std_hash(true));
    assert_eq!(false.hash_code(), std_hash(false));
    assert_eq!('q'.hash_code(), std_hash('q'));
    assert_eq!('é'.hash_code(), std_hash('é'));
    assert_eq!("quox".hash_code(), std_hash("quox"));
    assert_eq!(String::from("quox").hash_code(), std_hash(String::from("quox")));
}

#[test]
fn equal_keys_hash_alike() {
    let a = String::from("same text");
    let b = String::from("same text");
    assert!(a.same(&b));
    assert_eq!(a.hash_code(), b.hash_code());
    assert_eq!(17u64.hash_code(), 17u64.hash_code());
}

#[test]
fn same_decides_equality() {
    assert!(5u64.same(&5));
    assert!(!5u64.same(&6));
    assert!(5u32.same(&5));
    assert!(!5u32.same(&6));
    assert!(5usize.same(&5));
    assert!(!5usize.same(&6));
    assert!((-5i32).same(&-5));
    assert!(!(-5i32).same(&5));
    assert!((-5i64).same(&-5));
    assert!(!(-5i64).same(&5));
    assert!(5u16.same(&5) && !5u16.same(&6));
    assert!(5u8.same(&5) && !5u8.same(&6));
    assert!((-5isize).same(&-5) && !(-5isize).same(&5));
    assert!((-5i16).same(&-5) && !(-5i16).same(&5));
    assert!((-5i8).same(&-5) && !(-5i8).same(&5));
    assert!(5u128.same(&5) && !5u128.same(&6));
    assert!((-5i128).same(&-5) && !(-5i128).same(&5));
    assert!(true.same(&true) && !true.same(&false));
    assert!('a'.same(&'a') && !'a'.same(&'b'));
    assert!("abc".same(&"abc"));
    assert!(!"abc".same(&"abd"));
    assert!(!"abc".same(&"ab"));
    assert!(!String::from("abc").same(&String::from("abcd")));
}

#[test]
fn bytes_equal_compares_length_and_content() {
    assert!(bytes_equal(&[], &[]));
    assert!(bytes_equal(&[1, 2, 3], &[1, 2, 3]));
    assert!(!bytes_equal(&[1, 2, 3], &[1, 2]));
    assert!(!bytes_equal(&[1, 2, 3], &[1, 2, 4]));
    assert!(!bytes_equal(&[], &[0]));
}

#[test]
fn wide_integers_bools_and_chars_hash_their_bytes() {
    assert_eq!(1u128.hash_code(), digest_of(&[1, 0, 0, 0, 0, 0, 0, 0, 0, 0, 0, 0, 0, 0, 0, 0]));
    assert_eq!((-1i128).hash_code(), digest_of(&[0xff; 16]));
    assert_eq!(true.hash_code(), digest_of(&[1]));
    assert_eq!(false.hash_code(), digest_of(&[0]));
    assert_eq!('A'.hash_code(), digest_of(&[0x41, 0, 0, 0]));
}
