//! Segment-store position arithmetic.

use deb2pg::segments::{loose_position, pack_position, pad_to_segments, segment_id};

#[test]
fn segment_counts() {
    assert_eq!(1, segment_id(1));
    assert_eq!(1, segment_id(16));
    assert_eq!(2, segment_id(17));
    assert_eq!(2, segment_id(32));
    assert_eq!(3, segment_id(33));
}

#[test]
fn positions_multiplex() {
    let pos = pack_position(48, 3).unwrap();
    assert_eq!(48 * 4096 + 3, pos);
    assert_eq!(3, pos % 4096);
    assert_eq!(48, pos / 4096);

    let loose = loose_position(9).unwrap();
    assert_eq!(9 * 4096, loose);
    assert_eq!(0, loose % 4096);
}

#[test]
fn padding_fills_whole_segments() {
    let mut buf = vec![5u8; 10];
    pad_to_segments(&mut buf, 2);
    assert_eq!(32, buf.len());
    assert_eq!(&[5u8; 10][..], &buf[..10]);
    assert!(buf[10..].iter().all(|b| *b == 0));
}
