//! Trigram extraction.

use deb2pg::tri::{explain_packed, fold_byte, trigrams_full};

#[test]
fn hello_trigrams() {
    assert_eq!(vec![17099, 28939, 45774], trigrams_full(b"hello"));
}

#[test]
fn case_folds_together() {
    assert_eq!(trigrams_full(b"HeLLo"), trigrams_full(b"hello"));
}

#[test]
fn short_texts_are_empty() {
    assert_eq!(Vec::<u32>::new(), trigrams_full(b""));
    assert_eq!(Vec::<u32>::new(), trigrams_full(b"ab"));
}

#[test]
fn deduplicates() {
    // every window of "aaaa" is the same code
    assert_eq!(1, trigrams_full(b"aaaa").len());
}

#[test]
fn explain_inverts() {
    assert_eq!("hel", explain_packed(28939));
    assert_eq!("aaa", explain_packed(0));
    // the shared bucket prints as an underscore
    let code = 36 * 4096 + 36 * 64 + 36;
    assert_eq!("___", explain_packed(code));
}

#[test]
fn folding() {
    assert_eq!(0, fold_byte(b'a'));
    assert_eq!(0, fold_byte(b'A'));
    assert_eq!(25, fold_byte(b'z'));
    assert_eq!(26, fold_byte(b'0'));
    assert_eq!(35, fold_byte(b'9'));
    assert_eq!(36, fold_byte(b' '));
    assert_eq!(36, fold_byte(0xff));
}
