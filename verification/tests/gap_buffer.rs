use lsh::buffer::gap_buffer::GapBuffer;

fn contents(buf: &GapBuffer) -> Vec<u8> {
    let mut v = vec![b'?'; 3];
    buf.copy_into(&mut v);
    v
}

#[test]
fn replace_inserts_and_deletes() {
    let mut buf = GapBuffer::new(true);
    assert_eq!(buf.len(), 0);
    buf.replace(0..0, b"hello world");
    assert_eq!(contents(&buf), b"hello world");
    buf.replace(5..11, b"");
    assert_eq!(contents(&buf), b"hello");
    buf.replace(0..0, b">> ");
    assert_eq!(contents(&buf), b">> hello");
    buf.replace(3..4, b"J");
    assert_eq!(contents(&buf), b">> Jello");
    // Ranges past the end are clamped.
    buf.replace(100..200, b"!");
    assert_eq!(contents(&buf), b">> Jello!");
    assert_eq!(buf.len(), 9);
}

#[test]
fn generation_counts_changes() {
    let mut buf = GapBuffer::new(true);
    let g0 = buf.generation();
    buf.replace(0..0, b"a");
    assert_eq!(buf.generation(), g0.wrapping_add(1));
    buf.set_generation(u32::MAX);
    buf.replace(0..0, b"b");
    assert_eq!(buf.generation(), 0);
}

#[test]
fn reads_around_the_gap() {
    let mut buf = GapBuffer::new(true);
    buf.replace(0..0, b"abcdef");
    // Moving the gap to 3 splits the text there.
    buf.replace(3..3, b"");
    assert_eq!(buf.read_forward(0), b"abc");
    assert_eq!(buf.read_forward(3), b"def");
    assert_eq!(buf.read_forward(99), b"");
    assert_eq!(buf.read_backward(6), b"def");
    assert_eq!(buf.read_backward(2), b"ab");
}

#[test]
fn extract_raw_inserts_into_output() {
    let mut buf = GapBuffer::new(true);
    buf.replace(0..0, b"abcdef");
    buf.replace(2..2, b"");
    let mut out = b"[]".to_vec();
    buf.extract_raw(1..5, &mut out, 1);
    assert_eq!(out, b"[bcde]");
    let mut out = b"xy".to_vec();
    buf.extract_raw(4..100, &mut out, 100);
    assert_eq!(out, b"xyef");
}

#[test]
fn copy_from_reports_changes() {
    let mut buf = GapBuffer::new(true);
    assert!(buf.copy_from(b"same text"));
    assert_eq!(contents(&buf), b"same text");
    let g = buf.generation();
    assert!(!buf.copy_from(b"same text"));
    assert_eq!(buf.generation(), g);
    assert!(buf.copy_from(b"same"));
    assert_eq!(contents(&buf), b"same");
    assert!(buf.copy_from(b""));
    assert_eq!(contents(&buf), b"");
}

#[test]
fn gap_allocation_and_commit() {
    let mut buf = GapBuffer::new(true);
    buf.replace(0..0, b"ac");
    let gap = buf.allocate_gap(1, 4, 0);
    assert!(gap >= 4);
    let n = buf.fill_gap(b"bbb");
    assert_eq!(n, 3);
    buf.commit_gap(1);
    assert_eq!(contents(&buf), b"abc");
    // Deleting through `allocate_gap`.
    buf.allocate_gap(0, 0, 2);
    assert_eq!(contents(&buf), b"c");
    buf.clear();
    assert_eq!(buf.len(), 0);
    assert_eq!(contents(&buf), b"");
}

#[test]
fn replace_can_be_undone() {
    let mut buf = GapBuffer::new(true);
    buf.replace(0..0, b"the quick brown fox");
    let before = contents(&buf);
    // Replace "quick" with "slow", then put "quick" back where "slow" went.
    buf.replace(4..9, b"slow");
    assert_eq!(contents(&buf), b"the slow brown fox");
    buf.replace(4..8, &before[4..9]);
    assert_eq!(contents(&buf), before);
}
