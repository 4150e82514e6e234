use lsh::collections::string::BString;
use lsh::collections::vec::BVec;

#[test]
fn bvec_grows_by_policy() {
    let mut v: BVec<u32> = BVec::empty();
    assert_eq!((v.len(), v.capacity()), (0, 0));
    assert!(v.is_empty());
    v.push(1);
    // At least 8 elements on the first growth.
    assert_eq!(v.capacity(), 8);
    for i in 2..=8 {
        v.push(i);
    }
    assert_eq!(v.capacity(), 8);
    v.push(9);
    // Doubling.
    assert_eq!(v.capacity(), 16);
    v.reserve(100);
    assert_eq!(v.capacity(), 109);
    v.reserve_exact(1000);
    assert_eq!(v.capacity(), 1009);
    assert_eq!(v.as_slice(), &[1, 2, 3, 4, 5, 6, 7, 8, 9]);
    assert_eq!(v.pop(), Some(9));
    v.truncate(3);
    assert_eq!(v.as_slice(), &[1, 2, 3]);
    v.clear();
    assert!(v.is_empty());
    assert_eq!(v.capacity(), 1009);
    assert_eq!(v.pop(), None);
}

#[test]
fn bvec_copy_operations() {
    let mut v = BVec::from_slice(&[1u8, 2, 3]);
    assert_eq!(v.capacity(), 3);
    v.extend_from_slice(&[4, 5]);
    assert_eq!(v.as_slice(), &[1, 2, 3, 4, 5]);
    v.extend_from_within(1..3);
    assert_eq!(v.as_slice(), &[1, 2, 3, 4, 5, 2, 3]);
    // Ranges past the end are clamped.
    v.extend_from_within(6..100);
    assert_eq!(v.as_slice(), &[1, 2, 3, 4, 5, 2, 3, 3]);
    v.replace_range(1..4, &[9]);
    assert_eq!(v.as_slice(), &[1, 9, 5, 2, 3, 3]);
    v.replace_range(0..0, &[7, 7]);
    assert_eq!(v.as_slice(), &[7, 7, 1, 9, 5, 2, 3, 3]);
    v.replace_range(5..100, &[]);
    assert_eq!(v.as_slice(), &[7, 7, 1, 9, 5]);
    v.push_repeat(0, 3);
    assert_eq!(v.as_slice(), &[7, 7, 1, 9, 5, 0, 0, 0]);
    v.extend_sloppy(vec![4, 4]);
    assert_eq!(v.as_slice(), &[7, 7, 1, 9, 5, 0, 0, 0, 4, 4]);
}

#[test]
fn bvec_push_char_encodes_utf8() {
    let mut v: BVec<u8> = BVec::empty();
    for c in ['a', 'é', '€', '😀'] {
        v.push_char(c);
    }
    assert_eq!(v.as_slice(), "aé€😀".as_bytes());
}

#[test]
fn bstring_basics() {
    let mut s = BString::from_str("héllo");
    assert_eq!(s.as_str(), "héllo");
    assert_eq!(s.len(), 6);
    assert_eq!(s.capacity(), 8);
    s.push(' ');
    s.push_str("wörld");
    s.push('!');
    assert_eq!(s.as_str(), "héllo wörld!");
    assert_eq!(s.as_bytes(), "héllo wörld!".as_bytes());
    s.replace_range(0..6, "hi");
    assert_eq!(s.as_str(), "hi wörld!");
    s.replace_once_in_place("wö", "wo");
    assert_eq!(s.as_str(), "hi world!");
    s.replace_once_in_place("xyz", "abc");
    assert_eq!(s.as_str(), "hi world!");
    s.push_repeat('-', 3);
    s.push_repeat('é', 2);
    assert_eq!(s.as_str(), "hi world!---éé");
    s.extend(&['a', 'b']);
    assert_eq!(s.as_str(), "hi world!---ééab");
    s.clear();
    assert!(s.is_empty());
    assert_eq!(BString::empty().as_str(), "");
    assert_eq!(BString::from_std_string("std".to_string()).as_str(), "std");
}

#[test]
fn bstring_utf8_checks() {
    let ok = BString::from_utf8(BVec::from_slice("ok€".as_bytes())).unwrap();
    assert_eq!(ok.as_str(), "ok€");
    assert!(BString::from_utf8(BVec::from_slice(b"a\xffb")).is_err());
    let lossy = BString::from_utf8_lossy(BVec::from_slice(b"a\xffb\xf0\x9f"));
    assert_eq!(lossy.as_str(), "a\u{FFFD}b\u{FFFD}");
    let valid = BString::from_utf8_lossy(BVec::from_slice(b"plain"));
    assert_eq!(valid.as_str(), "plain");
    assert_eq!(valid.capacity(), 5);
    let bytes = valid.into_bytes();
    assert_eq!(bytes.as_slice(), b"plain");
}

#[test]
fn bstring_utf16() {
    let units: Vec<u16> = "a€😀".encode_utf16().collect();
    assert_eq!(BString::from_utf16_lossy(&units).as_str(), "a€😀");
    // Unpaired surrogates become U+FFFD.
    let broken = [0x61, 0xD800, 0x62, 0xDC00, 0xD83D, 0xDE00];
    assert_eq!(BString::from_utf16_lossy(&broken).as_str(), "a\u{FFFD}b\u{FFFD}😀");
    let mut s = BString::from_str("x");
    s.push_utf16_lossy(&[0x79]);
    assert_eq!(s.as_str(), "xy");
}

#[test]
fn bvec_into_iter_yields_from_both_ends() {
    let v = BVec::from_slice(&[10u32, 20, 30, 40, 50]);
    let mut it = v.into_iter();
    assert_eq!(it.len(), 5);
    assert_eq!(it.next(), Some(10));
    assert_eq!(it.next_back(), Some(50));
    assert_eq!(it.len(), 3);
    assert_eq!(it.nth(1), Some(30));
    assert_eq!(it.next(), Some(40));
    assert_eq!(it.next(), None);
    assert_eq!(it.next_back(), None);

    let mut it = BVec::from_slice(&[1u8, 2, 3]).into_iter();
    assert_eq!(it.nth(5), None);
    assert_eq!(it.len(), 0);

    assert_eq!(BVec::from_slice(&[1u8, 2, 3]).into_iter().count(), 3);
    assert_eq!(BVec::from_slice(&[1u8, 2, 3]).into_iter().last(), Some(3));
    assert_eq!(BVec::<u8>::empty().into_iter().last(), None);
}

#[test]
fn bvec_extend_reserves_once() {
    let mut v: BVec<u16> = BVec::empty();
    v.extend(vec![1, 2, 3]);
    assert_eq!(v.as_slice(), &[1, 2, 3]);
    // At least 8 on the first growth.
    assert_eq!(v.capacity(), 8);
    v.extend(vec![4; 20]);
    assert_eq!(v.len(), 23);
    // Doubling falls short of 23, so the length itself is reserved.
    assert_eq!(v.capacity(), 23);
    v.extend(Vec::new());
    assert_eq!(v.capacity(), 23);
}

#[test]
fn bvec_push_encode_utf16() {
    let mut v: BVec<u16> = BVec::empty();
    let mut bytes = "a€😀".as_bytes().to_vec();
    bytes.push(0xff);
    v.push_encode_utf16(&bytes);
    assert_eq!(v.as_slice(), &[0x61, 0x20AC, 0xD83D, 0xDE00, 0xFFFD]);
    // One unit per byte was reserved.
    assert_eq!(v.capacity(), 9);
    let expected: Vec<u16> = "x€".encode_utf16().collect();
    let mut w: BVec<u16> = BVec::empty();
    w.push_encode_utf16("x€".as_bytes());
    assert_eq!(w.as_slice(), expected.as_slice());
}
