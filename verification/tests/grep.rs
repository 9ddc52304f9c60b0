//! Streaming substring search.

use deb2pg::grep::{find_bytes, reader_contains, reader_contains_external_buf};

const MSG: &str = "Inches aren't very granular.";

fn bytes(s: &str) -> Vec<u8> {
    s.as_bytes().to_vec()
}

#[test]
fn single_block() {
    assert_eq!(Some(0), reader_contains(&bytes("Inches"), &bytes(MSG)));
    assert_eq!(Some(2), reader_contains(&bytes("ches"), &bytes(MSG)));
    assert_eq!(Some(25), reader_contains(&bytes("ar."), &bytes(MSG)));
    assert_eq!(None, reader_contains(&bytes("inch"), &bytes(MSG)));
}

#[test]
fn reduced_buf() {
    for buf_size in 5..(MSG.len() + 5) {
        let mut buf = vec![0u8; buf_size];
        let chunks = vec![16 * 1024];
        assert_eq!(
            Some(0),
            reader_contains_external_buf(&bytes("Inch"), &bytes(MSG), &chunks, &mut buf)
        );

        let mut buf = vec![0u8; buf_size];
        assert_eq!(
            Some(2),
            reader_contains_external_buf(&bytes("ches"), &bytes(MSG), &chunks, &mut buf)
        );

        let mut buf = vec![0u8; buf_size];
        assert_eq!(
            Some(25),
            reader_contains_external_buf(&bytes("ar."), &bytes(MSG), &chunks, &mut buf)
        );
    }
}

#[test]
fn chunked_reads_do_not_matter() {
    // one byte at a time, a prime stride, and everything at once agree
    for chunk in [1usize, 7, 16 * 1024] {
        let chunks = vec![chunk];
        let mut buf = vec![0u8; 6];
        assert_eq!(
            Some(25),
            reader_contains_external_buf(&bytes("ar."), &bytes(MSG), &chunks, &mut buf)
        );
        let mut buf = vec![0u8; 6];
        assert_eq!(
            None,
            reader_contains_external_buf(&bytes("inch"), &bytes(MSG), &chunks, &mut buf)
        );
    }
}

#[test]
fn find_bytes_first_match() {
    assert_eq!(Some(0), find_bytes(b"aaaa", b"aa"));
    assert_eq!(Some(3), find_bytes(b"abcabd", b"abd"));
    assert_eq!(None, find_bytes(b"abc", b"abcd"));
    assert_eq!(Some(0), find_bytes(b"anything", b""));
}
