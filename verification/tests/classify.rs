//! Content-type classification and package subdirectories.

use deb2pg::text::{identify, subdir, CompressionType};

#[test]
fn identify_extensionless_names() {
    assert_eq!(CompressionType::Conf, identify("some/dir/Makefile"));
    assert_eq!(CompressionType::Text, identify("README"));
    assert_eq!(CompressionType::Text, identify("pkg/COPYRIGHT"));
    assert_eq!(CompressionType::C, identify("h"));
}

#[test]
fn identify_falls_back_on_known_names() {
    assert_eq!(CompressionType::Text, identify("docs/readme.1st"));
    assert_eq!(CompressionType::Text, identify("LICENSE.GPLv2"));
    assert_eq!(CompressionType::Text, identify("licence.old"));
    assert_eq!(CompressionType::Other, identify("archive.bin"));
}

#[test]
fn subdir_buckets() {
    assert_eq!("libf", subdir("libfoo"));
    assert_eq!("g", subdir("gcc"));
    assert_eq!("liba", subdir("liba"));
}
