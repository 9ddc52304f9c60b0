//! The full pipeline: store compressed blobs, build the index, search.

use deb2pg::builder::{build_index_words, convert_pack_to_just_trigrams};
use deb2pg::compress::hash_compress_write_from_slice;
use deb2pg::find::{parse_index_words, Index};
use deb2pg::pack::writey_write;

/// Two documents sharing all of the query's trigrams; only one holds the
/// literal.
#[test]
fn verification_rejects_false_positives() {
    // both documents carry every trigram of "abcxyz", but only the second
    // contains the substring itself
    let doc_a = b"abcxy cxyz".to_vec();
    let doc_b = b"here is abcxyz itself".to_vec();

    let (packed_a, _, _) = hash_compress_write_from_slice(&doc_a);
    let (packed_b, _, _) = hash_compress_write_from_slice(&doc_b);

    let mut pack: Vec<u8> = Vec::new();
    let pos_a = writey_write(&mut pack, &packed_a, &b"".to_vec()).unwrap();
    let pos_b = writey_write(&mut pack, &packed_b, &b"".to_vec()).unwrap();
    assert_ne!(pos_a, pos_b);

    let words = build_index_words(&pack).unwrap();
    assert_eq!(Some(&0), words.last());

    let file = parse_index_words(&words, 0).unwrap();
    let index = Index::open(vec![file]);

    let result = index.documents_for_search("abcxyz", &vec![pack.clone()]).unwrap();
    assert_eq!(vec![pos_b], result.docs);
    assert_eq!(2, result.grepped);

    // a query held by both documents reports both
    let both = index.documents_for_search("abcxy", &vec![pack.clone()]).unwrap();
    assert_eq!(vec![pos_a, pos_b], both.docs);
}

#[test]
fn documents_for_tri_concatenates() {
    let doc_a = b"abcabc".to_vec();
    let doc_b = b"xabcx".to_vec();
    let (packed_a, _, _) = hash_compress_write_from_slice(&doc_a);
    let (packed_b, _, _) = hash_compress_write_from_slice(&doc_b);
    let mut pack: Vec<u8> = Vec::new();
    let pos_a = writey_write(&mut pack, &packed_a, &b"".to_vec()).unwrap();
    let pos_b = writey_write(&mut pack, &packed_b, &b"".to_vec()).unwrap();

    let words = build_index_words(&pack).unwrap();
    let file = parse_index_words(&words, 100).unwrap();
    let index = Index::open(vec![file]);

    // code of "abc": a=0, b=1, c=2 packed into 0*4096 + 1*64 + 2
    let abc: u32 = 66;
    assert_eq!(
        vec![pos_a + 100, pos_b + 100],
        index.documents_for_tri(abc)
    );
    // a code neither document holds: "zzz"
    let zzz: u32 = 25 * 4096 + 25 * 64 + 25;
    assert_eq!(Vec::<u64>::new(), index.documents_for_tri(zzz));
}

#[test]
fn search_across_two_index_files() {
    let doc_a = b"alpha abcxyz".to_vec();
    let doc_b = b"beta abcxyz".to_vec();
    let (packed_a, _, _) = hash_compress_write_from_slice(&doc_a);
    let (packed_b, _, _) = hash_compress_write_from_slice(&doc_b);

    let mut pack_a: Vec<u8> = Vec::new();
    let pos_a = writey_write(&mut pack_a, &packed_a, &b"".to_vec()).unwrap();
    let mut pack_b: Vec<u8> = Vec::new();
    let pos_b = writey_write(&mut pack_b, &packed_b, &b"".to_vec()).unwrap();

    let words_a = build_index_words(&pack_a).unwrap();
    let words_b = build_index_words(&pack_b).unwrap();
    let file_a = parse_index_words(&words_a, 0).unwrap();
    let file_b = parse_index_words(&words_b, 1 << 30).unwrap();
    let index = Index::open(vec![file_a, file_b]);

    let result = index
        .documents_for_search("abcxyz", &vec![pack_a.clone(), pack_b.clone()])
        .unwrap();
    // one hit per file, reported in file order
    assert_eq!(vec![pos_a, pos_b + (1 << 30)], result.docs);
    assert_eq!(2, result.grepped);
}

#[test]
fn flatten_records_counts() {
    let doc_a = b"abcd".to_vec();
    let (packed_a, _, _) = hash_compress_write_from_slice(&doc_a);
    let mut pack: Vec<u8> = Vec::new();
    let pos_a = writey_write(&mut pack, &packed_a, &b"meta".to_vec()).unwrap();

    let (temp, chunks, counts) = convert_pack_to_just_trigrams(&pack).unwrap();
    assert_eq!(1, chunks.len());
    assert_eq!(pos_a as u32, chunks[0].pos);
    // "abcd" has the two windows "abc" and "bcd"
    assert_eq!(2, chunks[0].num_tris);
    assert_eq!(vec![66, 4227], temp);
    assert_eq!(1, counts[66]);
    assert_eq!(1, counts[4227]);
    assert_eq!(0, counts[0]);
}

#[test]
fn corrupt_pack_is_refused() {
    let pack: Vec<u8> = vec![1u8; 48];
    assert!(convert_pack_to_just_trigrams(&pack).is_err());
}

#[test]
fn malformed_index_words_are_refused() {
    // a file that does not end in the zero guard
    let words: Vec<u32> = vec![0xD81F, 0, 0, 0];
    assert!(parse_index_words(&words, 0).is_err());
    // an empty image lacks even the terminator
    assert!(parse_index_words(&Vec::new(), 0).is_err());
    // the bare terminator is a valid, empty index
    assert!(parse_index_words(&vec![0], 0).is_ok());
}
