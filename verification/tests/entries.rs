use sfsb::dir_cache::{
    build_entries, BuildError, CacheEntry, DirEntry, FileEntry, RawEntry, RawKind,
};

fn raw_file(name: &str, size: u64) -> RawEntry {
    RawEntry {
        name: Some(name.to_owned()),
        created: Some("2024-01-01 [00:00:00]".to_owned()),
        kind: Some(RawKind::File { size }),
    }
}

fn raw_dir(name: &str, children: Vec<RawEntry>) -> RawEntry {
    RawEntry {
        name: Some(name.to_owned()),
        created: Some("2024-01-01 [00:00:00]".to_owned()),
        kind: Some(RawKind::Dir { children: Some(children) }),
    }
}

fn file(name: &str, size: u64) -> CacheEntry {
    CacheEntry::File(FileEntry {
        name: name.to_owned(),
        created: "2024-01-01 [00:00:00]".to_owned(),
        size,
    })
}

fn dir(name: &str, children: Vec<CacheEntry>) -> CacheEntry {
    CacheEntry::Dir(DirEntry {
        name: name.to_owned(),
        created: "2024-01-01 [00:00:00]".to_owned(),
        children,
    })
}

#[test]
fn building_a_small_tree_round_trips() {
    // one 10-byte file and one subdirectory with one 5-byte file
    let raws = vec![raw_file("a.txt", 10), raw_dir("b", vec![raw_file("c.txt", 5)])];
    let built = build_entries(&raws).unwrap();
    assert_eq!(built.len(), 2);
    assert_eq!(built[0].name(), "a.txt");
    assert_eq!(built[0].size(), 10);
    let b = built[1].as_dir();
    assert_eq!(built[1].name(), "b");
    assert_eq!(built[1].size(), 5);
    assert_eq!(b.children_count(), 1);
    assert_eq!(b.children[0].name(), "c.txt");
}

#[test]
fn directory_size_is_the_recursive_sum_of_children() {
    let tree = dir(
        "top",
        vec![
            file("x", 3),
            dir("mid", vec![file("y", 4), dir("leaf", vec![file("z", 5)])]),
        ],
    );
    assert_eq!(tree.size(), 12);
}

#[test]
fn empty_directory_has_size_zero() {
    let d = dir("empty", vec![]);
    assert_eq!(d.size(), 0);
    assert_eq!(d.as_dir().children_count(), 0);
}

#[test]
fn max_depth_counts_nested_directory_chains() {
    let flat = dir("flat", vec![file("x", 1)]);
    assert_eq!(flat.as_dir().max_depth(), 0);
    let nested = dir("a", vec![dir("b", vec![dir("c", vec![])])]);
    assert_eq!(nested.as_dir().max_depth(), 2);
}

#[test]
fn entry_accessors_report_kind_and_attributes() {
    let f = file("a.txt", 10);
    assert!(f.is_file());
    assert!(!f.is_dir());
    assert_eq!(f.name(), "a.txt");
    assert_eq!(f.created(), "2024-01-01 [00:00:00]");
    assert_eq!(f.as_file().size, 10);
    let d = dir("b", vec![]);
    assert!(d.is_dir());
    assert!(!d.is_file());
}

#[test]
fn cloned_entries_are_equal() {
    let tree = dir("top", vec![file("x", 3), dir("mid", vec![file("y", 4)])]);
    let copy = tree.clone();
    assert_eq!(copy, tree);
}

#[test]
fn missing_name_fails_the_build() {
    let raws = vec![RawEntry {
        name: None,
        created: Some("t".to_owned()),
        kind: Some(RawKind::File { size: 1 }),
    }];
    assert_eq!(build_entries(&raws), Err(BuildError::InvalidName));
}

#[test]
fn name_with_separator_fails_the_build() {
    let raws = vec![raw_file("a/b", 1)];
    assert_eq!(build_entries(&raws), Err(BuildError::InvalidName));
}

#[test]
fn missing_timestamp_fails_the_build() {
    let raws = vec![RawEntry {
        name: Some("a".to_owned()),
        created: None,
        kind: Some(RawKind::File { size: 1 }),
    }];
    assert_eq!(
        build_entries(&raws),
        Err(BuildError::NoTimestamp { name: "a".to_owned() })
    );
}

#[test]
fn missing_file_type_fails_the_build() {
    let raws = vec![RawEntry {
        name: Some("a".to_owned()),
        created: Some("t".to_owned()),
        kind: None,
    }];
    assert_eq!(
        build_entries(&raws),
        Err(BuildError::NoFileType { name: "a".to_owned() })
    );
}

#[test]
fn unreadable_directory_fails_the_build() {
    let raws = vec![RawEntry {
        name: Some("d".to_owned()),
        created: Some("t".to_owned()),
        kind: Some(RawKind::Dir { children: None }),
    }];
    assert_eq!(
        build_entries(&raws),
        Err(BuildError::UnreadableDir { name: "d".to_owned() })
    );
}

#[test]
fn duplicate_child_names_fail_the_build() {
    let raws = vec![raw_dir("d", vec![raw_file("same", 1), raw_file("same", 2)])];
    assert_eq!(
        build_entries(&raws),
        Err(BuildError::DuplicateName { name: "same".to_owned() })
    );
}

#[test]
fn oversized_directory_fails_the_build() {
    let raws = vec![raw_dir("d", vec![raw_file("a", u64::MAX), raw_file("b", 1)])];
    assert_eq!(
        build_entries(&raws),
        Err(BuildError::TooLarge { name: "d".to_owned() })
    );
}

#[test]
fn failing_child_aborts_the_whole_build_with_context() {
    // all-or-nothing: a bad grandchild fails the top-level build
    let raws = vec![
        raw_file("ok.txt", 1),
        raw_dir("d", vec![raw_file("bad/name", 1)]),
    ];
    assert_eq!(
        build_entries(&raws),
        Err(BuildError::InChild {
            name: "d".to_owned(),
            cause: Box::new(BuildError::InvalidName),
        })
    );
}

#[test]
fn the_first_failing_entry_decides_the_error() {
    // both entries fail; the first one's failure is reported
    let raws = vec![
        RawEntry {
            name: Some("a".to_owned()),
            created: None,
            kind: Some(RawKind::File { size: 1 }),
        },
        raw_file("b/ad", 1),
    ];
    assert_eq!(
        build_entries(&raws),
        Err(BuildError::NoTimestamp { name: "a".to_owned() })
    );
}

#[test]
fn a_failing_child_outranks_a_duplicate_name() {
    // children are validated one by one before sibling names are compared
    let raws = vec![raw_dir(
        "d",
        vec![raw_file("same", 1), raw_file("same", 2), raw_file("x/y", 3)],
    )];
    assert_eq!(
        build_entries(&raws),
        Err(BuildError::InChild {
            name: "d".to_owned(),
            cause: Box::new(BuildError::InvalidName),
        })
    );
}

#[test]
fn sizes_format_in_binary_units() {
    assert_eq!(file("a", 0).size_str(), "0 B");
    assert_eq!(file("a", 500).size_str(), "500 B");
    assert_eq!(file("a", 1023).size_str(), "1023 B");
    assert_eq!(file("a", 1024).size_str(), "1.0 KiB");
    assert_eq!(file("a", 1536).size_str(), "1.5 KiB");
    assert_eq!(file("a", 1024 * 1024).size_str(), "1.0 MiB");
    assert_eq!(file("a", 3 * 1024 * 1024 / 2).size_str(), "1.5 MiB");
    assert_eq!(file("a", 1024 * 1024 * 1024).size_str(), "1.0 GiB");
    assert_eq!(
        file("a", 1024 * 1024 * 1024 * 1024).size_str(),
        "You really shouldn't be serving files that big with this tool..."
    );
}

#[test]
fn sizes_round_like_one_decimal_float_formatting() {
    // ties round to even, as float formatting does
    for &n in &[1280u64, 1536, 1234, 4095, 2560] {
        let expected = format!("{:.1} KiB", (n as f64) / 1024.0);
        assert_eq!(file("a", n).size_str(), expected);
    }
}

#[test]
fn directory_size_str_sums_children() {
    let d = dir("d", vec![file("x", 512), file("y", 512)]);
    assert_eq!(d.size_str(), "1.0 KiB");
}
