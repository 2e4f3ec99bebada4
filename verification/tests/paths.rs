use sfsb::dir_cache::{CacheEntry, DirEntry, FileEntry};
use sfsb::dir_view::{lookup_bounded, normalise_path, path_contents_from_cache, PathError};

fn file(name: &str, size: u64) -> CacheEntry {
    CacheEntry::File(FileEntry {
        name: name.to_owned(),
        created: "2024-01-01 [00:00:00]".to_owned(),
        size,
    })
}

fn dir(name: &str, children: Vec<CacheEntry>) -> CacheEntry {
    CacheEntry::Dir(DirEntry {
        name: name.to_owned(),
        created: "2024-01-01 [00:00:00]".to_owned(),
        children,
    })
}

fn sample_tree() -> Vec<CacheEntry> {
    vec![
        file("a.txt", 10),
        dir("b", vec![file("c.txt", 5)]),
    ]
}

#[test]
fn absolute_paths_are_rejected() {
    assert_eq!(normalise_path("/etc/passwd"), Err(PathError::Absolute));
    assert_eq!(normalise_path("/"), Err(PathError::Absolute));
}

#[test]
fn parent_components_are_rejected() {
    assert_eq!(normalise_path(".."), Err(PathError::ParentDir));
    assert_eq!(normalise_path("../etc"), Err(PathError::ParentDir));
    assert_eq!(normalise_path("a/../b"), Err(PathError::ParentDir));
    assert_eq!(normalise_path("a/b/.."), Err(PathError::ParentDir));
}

#[test]
fn empty_and_current_directory_normalize_to_root() {
    assert_eq!(normalise_path(""), Ok(vec![]));
    assert_eq!(normalise_path("."), Ok(vec![]));
    assert_eq!(normalise_path("./."), Ok(vec![]));
}

#[test]
fn leading_current_directory_marker_is_stripped() {
    assert_eq!(
        normalise_path("./a/b"),
        Ok(vec!["a".to_owned(), "b".to_owned()])
    );
}

#[test]
fn empty_and_dot_pieces_are_dropped() {
    assert_eq!(
        normalise_path("a//b/./c/"),
        Ok(vec!["a".to_owned(), "b".to_owned(), "c".to_owned()])
    );
}

#[test]
fn root_lookup_returns_top_level_entries() {
    let tree = sample_tree();
    let found = path_contents_from_cache(&vec![], &tree).unwrap();
    assert_eq!(found.len(), 2);
    assert_eq!(found[0].name(), "a.txt");
    assert_eq!(found[1].name(), "b");
}

#[test]
fn directory_lookup_returns_its_children() {
    let tree = sample_tree();
    let found = path_contents_from_cache(&vec!["b".to_owned()], &tree).unwrap();
    assert_eq!(found.len(), 1);
    assert_eq!(found[0].name(), "c.txt");
    assert_eq!(found[0].as_file().size, 5);
}

#[test]
fn missing_directory_lookup_returns_nothing() {
    let tree = sample_tree();
    assert!(path_contents_from_cache(&vec!["missing".to_owned()], &tree).is_none());
}

#[test]
fn file_name_does_not_match_as_directory() {
    // a.txt exists, but only as a file: no cached subtree, so the caller
    // may try serving it as a download instead
    let tree = sample_tree();
    assert!(path_contents_from_cache(&vec!["a.txt".to_owned()], &tree).is_none());
}

#[test]
fn lookup_deeper_than_the_tree_is_rejected_outright() {
    // the sample tree's deepest directory chain is `b`, so its depth is 0
    // and only paths of at most one component are walked
    let tree = sample_tree();
    let too_deep = vec!["b".to_owned(), "c.txt".to_owned()];
    assert_eq!(lookup_bounded(&too_deep, &tree), Err(PathError::TooDeep));
    let fine = vec!["b".to_owned()];
    assert!(lookup_bounded(&fine, &tree).is_ok());
}

#[test]
fn rejected_paths_answer_with_a_request_error() {
    assert_eq!(PathError::Absolute.status_code(), 400);
    assert_eq!(PathError::ParentDir.status_code(), 400);
    assert_eq!(PathError::TooDeep.status_code(), 400);
}

#[test]
fn lookup_on_an_empty_snapshot_allows_only_shallow_paths() {
    let tree: Vec<CacheEntry> = vec![];
    assert!(lookup_bounded(&vec![], &tree).unwrap().is_some());
    // one component is within the bound, but nothing matches it
    let one = vec!["x".to_owned()];
    assert_eq!(lookup_bounded(&one, &tree), Ok(None));
    let two = vec!["x".to_owned(), "y".to_owned()];
    assert_eq!(lookup_bounded(&two, &tree), Err(PathError::TooDeep));
}
