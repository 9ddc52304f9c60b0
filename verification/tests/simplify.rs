//! Path-list simplification.

use deb2pg::simplify::simplify;

fn to_vec(what: &[&[&str]]) -> Vec<Vec<String>> {
    what.iter()
        .map(|inner| inner.iter().map(|x| x.to_string()).collect::<Vec<String>>())
        .collect::<Vec<Vec<String>>>()
}

fn assert_identity(of: &[&[&str]]) {
    let val = to_vec(of);
    assert_eq!(val, simplify(val.clone()))
}

#[test]
fn no_change() {
    assert_identity(&[&["a"], &["b"], &["c"]]);
}

#[test]
fn trial() {
    for out in simplify(to_vec(&[
        &["some.dsc"],
        &["foo.tar", "foo-1337/"],
        &["foo.tar", "foo-1337/Makefile"],
        &["foo.tar", "foo-1337/src/main.c"],
        &["foo.tar", "foo-1337/src/help.h"],
        &["foo.tar", "foo-1337/some.jar", "MANIFEST.MF"],
        &["other.dsc"],
    ])) {
        println!("{:?}", out);
    }
}

#[test]
fn shortest_match_pairs() {
    assert_eq!("", deb2pg::simplify::shortest_match("foo", "bar"));
    assert_eq!("foo", deb2pg::simplify::shortest_match("foo", "food"));
    assert_eq!("ab", deb2pg::simplify::shortest_match("abcd", "abfd"));
}

#[test]
fn find_prefix_cases() {
    let v = |xs: &[&str]| xs.iter().map(|s| s.to_string()).collect::<Vec<String>>();
    assert_eq!("foo/", deb2pg::simplify::find_prefix(&v(&["foo/bar", "foo/baz"])));
    assert_eq!("", deb2pg::simplify::find_prefix(&v(&[])));
    assert_eq!("one/", deb2pg::simplify::find_prefix(&v(&["one/two"])));
    assert_eq!("", deb2pg::simplify::find_prefix(&v(&["one/two", "one"])));
    assert_eq!("", deb2pg::simplify::find_prefix(&v(&["one/two", "two"])));
}
