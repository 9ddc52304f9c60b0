//! Posting-list intersection.

use deb2pg::find::find_intersection;

#[test]
fn intersection() {
    let d1 = vec![1, 2, 3, 4, 6];
    let d2 = vec![2, 3, 4, 6];
    let d3 = vec![1, 2, 3, 4, 5];
    assert_eq!(vec![2, 3, 4], find_intersection(&vec![d1, d2, d3]));
}

#[test]
fn intersection_reference_cases() {
    // against a set-based reference on a few sorted inputs
    let cases: Vec<Vec<Vec<u32>>> = vec![
        vec![vec![], vec![1, 2, 3]],
        vec![vec![1, 2, 3]],
        vec![vec![1, 5, 9], vec![5, 9], vec![2, 5, 9, 11]],
        vec![vec![7]],
        vec![vec![0, 1000], vec![1000]],
    ];
    for lists in cases {
        let got = find_intersection(&lists);
        let mut expect: Vec<u32> = Vec::new();
        if let Some(first) = lists.first() {
            for x in first {
                if lists.iter().all(|l| l.contains(x)) {
                    expect.push(*x);
                }
            }
        }
        assert_eq!(expect, got);
    }
}

#[test]
fn intersection_no_lists() {
    let empty: Vec<Vec<u32>> = Vec::new();
    assert_eq!(Vec::<u32>::new(), find_intersection(&empty));
}
