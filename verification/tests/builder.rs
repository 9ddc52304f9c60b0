//! Index construction: batching, transposing, and block emission.

use deb2pg::builder::{fill_tris, take_some, write_block, TempFileChunk};
use deb2pg::find::parse_index_words;

#[test]
fn take_some_respects_the_ceiling() {
    // the batch closes one entry after the running sum crosses the limit
    let counts: Vec<(u32, u32)> = vec![
        (1, 60_000_000),
        (2, 60_000_000),
        (3, 5),
        (4, 9),
    ];
    let (end, batch) = take_some(&counts, 0);
    assert_eq!(3, end);
    let keys: Vec<u32> = batch.iter().map(|p| p.0).collect();
    assert_eq!(vec![1, 2, 3], keys);
    assert!(batch.iter().all(|p| p.1.is_empty()));

    let (end2, batch2) = take_some(&counts, end);
    assert_eq!(4, end2);
    assert_eq!(vec![4], batch2.iter().map(|p| p.0).collect::<Vec<u32>>());
}

#[test]
fn take_some_takes_everything_small() {
    let counts: Vec<(u32, u32)> = vec![(10, 1), (11, 2), (12, 3)];
    let (end, batch) = take_some(&counts, 0);
    assert_eq!(3, end);
    assert_eq!(3, batch.len());
}

#[test]
fn fill_tris_collects_documents_in_order() {
    // two documents: the first holds codes {5, 9}, the second {7, 9}
    let temp_index = vec![
        TempFileChunk { pos: 16, num_tris: 2 },
        TempFileChunk { pos: 48, num_tris: 2 },
    ];
    let temp_data: Vec<u32> = vec![5, 9, 7, 9];
    let mut tris: Vec<(u32, Vec<u32>)> =
        vec![(5, Vec::new()), (7, Vec::new()), (9, Vec::new())];
    fill_tris(&temp_index, &temp_data, &mut tris);
    assert_eq!(vec![(5, vec![16]), (7, vec![48]), (9, vec![16, 48])], tris);
}

#[test]
fn write_block_then_parse_round_trips() {
    let batch: Vec<(u32, Vec<u32>)> = vec![(5, vec![1, 3, 9]), (7, vec![2])];
    let mut words = write_block(&batch);
    assert_eq!(
        vec![0xD81F, 0, 0, 2, 5, 3, 7, 1, 1, 3, 9, 2],
        words
    );
    words.push(0);
    let file = parse_index_words(&words, 0).unwrap();
    assert_eq!(vec![1, 3, 9], file.by_tri[5]);
    assert_eq!(vec![2], file.by_tri[7]);
    assert!(file.by_tri[6].is_empty());
}
