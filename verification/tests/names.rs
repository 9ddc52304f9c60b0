//! Shard magnitudes and the filename bijection.

use deb2pg::names::{addendum_from_path, filename_for, magic_offset, make_shard_magic};

#[test]
fn number() {
    const KB: u64 = 1024;
    const MB: u64 = 1024 * KB;
    const GB: u64 = 1024 * MB;

    assert_eq!(2, make_shard_magic(0));
    assert_eq!(2, make_shard_magic(1));
    assert_eq!(2, make_shard_magic(999));
    assert_eq!(3, make_shard_magic(1000));
    assert_eq!(3, make_shard_magic(1001));
    assert_eq!(3, make_shard_magic(1 * KB));
    assert_eq!(4, make_shard_magic(10 * KB));
    assert_eq!(5, make_shard_magic(100 * KB));
    assert_eq!(6, make_shard_magic(1 * MB));
    assert_eq!(6, make_shard_magic(2 * MB));
    assert_eq!(7, make_shard_magic(10 * MB));
    assert_eq!(8, make_shard_magic(100 * MB));
    assert_eq!(9, make_shard_magic(1 * GB));
    assert_eq!(9, make_shard_magic(10 * GB));
    assert_eq!(9, make_shard_magic(100 * GB));
    assert_eq!(9, make_shard_magic(1000 * GB));
}

#[test]
fn filename() {
    assert_eq!(
        ("bin-2.0000000000000000000000".to_string(), 16),
        filename_for(16)
    );
    assert_eq!(
        ("bin-3.0000000000000000000000".to_string(), 16),
        filename_for(17)
    );
    assert_eq!(
        ("bin-8.0000000000000000000000".to_string(), 16),
        filename_for(22)
    );
    assert_eq!(
        ("bin-9.0000000000000000000000".to_string(), 16),
        filename_for(23)
    );

    assert_eq!(
        ("text-2.0000000000000000000000".to_string(), 16),
        filename_for(24)
    );
    assert_eq!(
        ("text-3.0000000000000000000000".to_string(), 16),
        filename_for(25)
    );

    assert_eq!(
        ("text-8.0000000000000000000000".to_string(), 16),
        filename_for(30)
    );
    assert_eq!(
        ("text-9.0000000000000000000000".to_string(), 16),
        filename_for(31)
    );

    assert_eq!(
        ("bin-2.0000000000000000000000".to_string(), 32),
        filename_for(32)
    );
    assert_eq!(
        ("text-9.0000000000000000000000".to_string(), 32),
        filename_for(32 + 15)
    );

    assert_eq!(
        ("bin-2.0000000000000000000001".to_string(), 16),
        filename_for(1024 * 1024 * 1024 + 16)
    );
    assert_eq!(
        ("text-9.0000000000000000000001".to_string(), 16),
        filename_for(1024 * 1024 * 1024 + 16 + 15)
    );

    assert_eq!(
        ("bin-2.0000000000000000000017".to_string(), 16),
        filename_for(17 * 1024 * 1024 * 1024 + 16)
    );
}

#[test]
fn from_path() {
    assert_eq!((2, 0), addendum_from_path("bin-2.0000000000000000000000"));
    assert_eq!((2, 8), addendum_from_path("text-2.0000000000000000000000"));
    assert_eq!(
        (2, 17 * 1024 * 1024 * 1024),
        addendum_from_path("bin-2.0000000000000000000017")
    );
    assert_eq!(
        (2, 17 * 1024 * 1024 * 1024 + 8),
        addendum_from_path("text-2.0000000000000000000017")
    );

    assert_eq!(
        (3, 17 * 1024 * 1024 * 1024 + 9),
        addendum_from_path("text-3.0000000000000000000017")
    );
}

#[test]
fn position_name_round_trip() {
    for pos in [16u64, 17, 31, 1024 * 1024 * 1024 + 16 + 15, 17 * 1024 * 1024 * 1024 + 48 + 3] {
        let (name, off) = filename_for(pos);
        let (_magnitude, addendum) = addendum_from_path(&name);
        assert_eq!(pos, addendum + off as u64);
    }
}

#[test]
fn magic_offset_matches_parts() {
    let (name, id) = magic_offset(999, false);
    assert_eq!(("bin-2".to_string(), 0), (name, id));
    let (name, id) = magic_offset(1000, true);
    assert_eq!(("text-3".to_string(), 9), (name, id));
}
