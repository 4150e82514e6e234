use lsh::compiler::charset::Charset;

#[test]
fn set_range() {
    for range in [5..=7, 10..=245, 0..=255] {
        let mut cs = Charset::no();
        cs.set_range(range.clone(), true);

        for i in 0u8..=255 {
            assert_eq!(cs.get(i), range.contains(&i), "range {range:?}, bit {i}");
        }
    }
}

#[test]
fn set_range_overlapping() {
    // Two single-bit ranges in the same word must not clobber each other.
    let mut cs = Charset::no();
    cs.set_range(b'e'..=b'e', true);
    cs.set_range(b'E'..=b'E', true);
    for i in 0u8..=255 {
        assert_eq!(cs.get(i), i == b'e' || i == b'E', "bit {i}");
    }

    // A wide range must not destroy bits set earlier outside it.
    let mut cs = Charset::no();
    cs.set_range(0..=0, true);
    cs.set_range(255..=255, true);
    cs.set_range(10..=245, true);
    for i in 0u8..=255 {
        assert_eq!(cs.get(i), i == 0 || (10..=245).contains(&i) || i == 255, "bit {i}");
    }
}

#[test]
fn charset_basics() {
    let mut cs = Charset::no();
    assert!(cs.covers_none());
    assert!(!cs.covers_all());
    cs.set(b'a', true);
    cs.set(b'z', true);
    assert!(cs.get(b'a') && cs.get(b'z') && !cs.get(b'b'));
    assert_eq!(cs.get_and_reset_lowest(), Some(b'a'));
    assert_eq!(cs.get_and_reset_lowest(), Some(b'z'));
    assert_eq!(cs.get_and_reset_lowest(), None);

    let mut all = Charset::yes();
    assert!(all.covers_all());
    all.invert();
    assert!(all.covers_none());

    let mut lower = Charset::no();
    lower.set_range(b'a'..=b'z', true);
    assert!(lower.covers_range(b'c'..=b'x'));
    assert!(!lower.covers_range(b'A'..=b'c'));
    let mut folded = lower.clone();
    folded.fold_case();
    for b in 0u8..=255 {
        assert_eq!(folded.get(b), b.is_ascii_alphabetic(), "byte {b}");
    }
    assert!(folded.is_superset_of(&lower));
    assert!(!lower.is_superset_of(&folded));

    let mut merged = Charset::no();
    merged.set(b'0', true);
    merged.merge(&lower);
    assert!(merged.get(b'0') && merged.get(b'q') && !merged.get(b'Q'));
    assert!(merged == merged.clone());
    assert!(merged != lower);
}

#[test]
fn charset_serialize() {
    let mut cs = Charset::no();
    cs.set(0x00, true);
    cs.set(0x21, true);
    cs.set(0xff, true);
    let words = cs.serialize();
    // Word `lo` holds, at bit `hi`, whether byte `hi * 16 + lo` is in the set.
    for b in 0u16..256 {
        let (hi, lo) = (b / 16, b % 16);
        assert_eq!(words[lo as usize] & (1 << hi) != 0, cs.get(b as u8), "byte {b}");
    }
}

#[test]
fn charset_debug_string() {
    let mut cs = Charset::no();
    assert_eq!(cs.debug_string(), "[]");
    cs.set_range(b'A'..=b'Z', true);
    cs.set(b'a', true);
    cs.set(b'"', true);
    cs.set_range(0..=0x1f, true);
    assert_eq!(cs.debug_string(), "[0x00-0x1F, &quot;, A-Z, a]");
    assert_eq!(Charset::yes().debug_string(), "[0x00-0xFF]");
}
