use std::ops::Range;

use lsh::maybe_owned::MaybeOwned;
use lsh::unicode::decode::decode_at;
use lsh::unicode::sanitize::sanitize_control_chars;

#[test]
#[allow(clippy::single_range_in_vec_init)]
fn test_sanitize_control_chars() {
    #[derive(Debug, PartialEq)]
    enum Result<'a> {
        Borrowed(&'a str),
        Owned(&'a str, &'a [Range<usize>]),
    }

    const TESTS: &[(&[u8], Result)] = &[
        (b"", Result::Borrowed("")),
        ("aé".as_bytes(), Result::Borrowed("aé")),
        ("a\u{FFFD}b".as_bytes(), Result::Borrowed("a\u{FFFD}b")),
        ("aé\u{1}\u{7f}\u{9f}b".as_bytes(), Result::Owned("aé␁␡␦b", &[3..12])),
        ("\u{1}a\0".as_bytes(), Result::Owned("␁a␀", &[0..3, 4..7])),
        (b"a\xff\xffb", Result::Owned("a\u{FFFD}\u{FFFD}b", &[1..7])),
        (b"\xf0\x9f\x98", Result::Owned("\u{FFFD}", &[0..3])),
    ];

    for (test, expected) in TESTS {
        let actual = sanitize_control_chars(test);
        let actual = match &actual {
            MaybeOwned::Borrowed(b) => Result::Borrowed(b),
            MaybeOwned::Owned(o) => Result::Owned(o.text.as_str(), o.unsane_ranges.as_slice()),
        };
        assert_eq!(&actual, expected, "test: {test:?}");
    }
}

#[test]
fn decode_recovers_from_invalid_utf8() {
    // Valid characters of every width.
    assert_eq!(decode_at("a".as_bytes(), 0), (Some('a'), 1));
    assert_eq!(decode_at("é".as_bytes(), 0), (Some('é'), 2));
    assert_eq!(decode_at("€".as_bytes(), 0), (Some('€'), 3));
    assert_eq!(decode_at("😀".as_bytes(), 0), (Some('😀'), 4));
    // A truncated sequence is one invalid unit, as long as its valid prefix.
    assert_eq!(decode_at(b"\xf0\x9f\x98", 0), (None, 3));
    assert_eq!(decode_at(b"\xe2\x82", 0), (None, 2));
    // Bytes that can never start a character, or that start an overlong form or a
    // surrogate, are invalid on their own.
    assert_eq!(decode_at(b"\xff", 0), (None, 1));
    assert_eq!(decode_at(b"\x80", 0), (None, 1));
    assert_eq!(decode_at(b"\xc0\x80", 0), (None, 1));
    assert_eq!(decode_at(b"\xe0\x80\x80", 0), (None, 1));
    assert_eq!(decode_at(b"\xed\xa0\x80", 0), (None, 1));
    assert_eq!(decode_at(b"\xf4\x90\x80\x80", 0), (None, 1));
    // A broken continuation ends the invalid unit before it.
    assert_eq!(decode_at(b"\xe2\x82a", 0), (None, 2));
    assert_eq!(decode_at(b"x\xe2\x82\xac", 1), (Some('€'), 3));
}

#[test]
fn sanitize_visualizes_controls() {
    let r = sanitize_control_chars(b"\t\x7f");
    match r {
        MaybeOwned::Owned(o) => {
            assert_eq!(o.text.as_str(), "\u{2409}\u{2421}");
            assert_eq!(o.unsane_ranges.as_slice(), &[0..6]);
        }
        MaybeOwned::Borrowed(_) => panic!("expected a copy"),
    }
}

#[test]
fn sanitized_text_reads_through_either_variant() {
    let borrowed = sanitize_control_chars("plain".as_bytes());
    assert!(matches!(borrowed, MaybeOwned::Borrowed(_)));
    assert_eq!(borrowed.as_str(), "plain");

    let owned = sanitize_control_chars(b"a\x01\xffb");
    assert!(matches!(owned, MaybeOwned::Owned(_)));
    assert_eq!(owned.as_str(), "a\u{2401}\u{FFFD}b");
    if let MaybeOwned::Owned(o) = &owned {
        assert_eq!(o.as_str(), "a\u{2401}\u{FFFD}b");
    }
}
