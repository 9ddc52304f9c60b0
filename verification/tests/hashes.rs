//! Content hashing, base32 spelling, and text detection.

use deb2pg::compress::{encode_hash, hash_compress_write_from_slice};
use deb2pg::text::{compose, decompose, hex_hash, is_text, to_bytes};

#[test]
fn sha256_known_vector() {
    let (_packed, hash, _text) = hash_compress_write_from_slice(&b"abc".to_vec());
    assert_eq!(
        "ba7816bf8f01cfea414140de5dae2223b00361a396177a9cb410ff61f20015ad",
        hex_hash(hash)
    );
}

#[test]
fn base32_known_vectors() {
    assert_eq!("my", encode_hash(b"f"));
    assert_eq!("mzxw6ytboi", encode_hash(b"foobar"));
    assert_eq!("", encode_hash(b""));
    // five bits per character, rounded up: 52 characters for 32 bytes
    assert_eq!(52, encode_hash(&[7u8; 32]).len());
    assert!(encode_hash(&[7u8; 32])
        .chars()
        .all(|c| c.is_ascii_lowercase() || ('2'..='7').contains(&c)));
}

#[test]
fn text_detection() {
    assert!(is_text(b"plain text\twith tabs\nand newlines\r"));
    assert!(!is_text(b"has a NUL\0inside"));
    assert!(!is_text(&[0x1b, b'[', b'3', b'1', b'm']));
    assert!(is_text(b""));
}

#[test]
fn hash_words_round_trip() {
    let mut hash = [0u8; 32];
    for i in 0..32 {
        hash[i] = (i as u8) * 7 + 3;
    }
    let (h0, h1, h2, h3) = decompose(hash);
    assert_eq!(hash, compose(h0, h1, h2, h3));
}

#[test]
fn to_bytes_copies() {
    let v: Vec<u8> = (0..32).collect();
    let arr = to_bytes(&v);
    assert_eq!(&v[..], &arr[..]);
}
