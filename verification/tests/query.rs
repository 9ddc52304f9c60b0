//! Query analysis.

use deb2pg::search::{analyze, render_op, Op, Query};
use deb2pg::Error;

#[test]
fn analyze_lit() {
    println!(
        "{}",
        render_op(&analyze(&Query::Literal { lit: "hello".to_string(), casei: false }).unwrap())
    );
}

#[test]
fn analyze_literal_trigrams() {
    let op = analyze(&Query::Literal { lit: "hello".to_string(), casei: false }).unwrap();
    match op {
        Op::And(parts) => {
            let mut codes: Vec<u32> = Vec::new();
            for p in parts {
                match p {
                    Op::Lit(t) => codes.push(t),
                    _ => panic!("expected a literal trigram"),
                }
            }
            assert_eq!(vec![17099, 28939, 45774], codes);
        }
        _ => panic!("expected a conjunction"),
    }
}

#[test]
fn analyze_rejects_case_insensitive() {
    let q = Query::Concat(vec![
        Query::Literal { lit: "ok".to_string(), casei: false },
        Query::Literal { lit: "bad".to_string(), casei: true },
    ]);
    assert_eq!(Err(Error::Unsupported), analyze(&q).map(|_| ()));
}

#[test]
fn analyze_zero_repeat_matches_anything() {
    let q = Query::Repeat {
        min_zero: true,
        inner: Box::new(Query::Other),
    };
    assert!(matches!(analyze(&q), Ok(Op::Any)));
}

#[test]
fn analyze_rejects_unknown_constructs() {
    assert_eq!(Err(Error::Unsupported), analyze(&Query::Other).map(|_| ()));
}
